//! Handles that a computation gains and gives back on the way.
use vstd::prelude::*;
use crate::custody::{lemma_loose_owned, lemma_owners, loose};
use crate::handle::{same_meta, undisturbed};
use crate::runtime::{given_back, holds_cell, lemma_count_remove, saved_upto, Runtime};
use crate::tape::{count_key, lemma_count_add, lemma_count_at, lemma_count_push, lemma_valid_kept};
use crate::tensor::{Key, Tensor};
use crate::track::grads_kept_but;

verus! {

/// From `a` to `b` the caller has gained the handles `ts`; what the caller owned is still there
/// with the same contents, and requires gradients or not as before.
#[verifier::opaque]
pub open spec fn grown<S>(a: Runtime<S>, b: Runtime<S>, ts: Seq<Tensor>) -> bool {
    &&& loose(b, ts)
    &&& forall|k: Key| #[trigger] b.owners(k) == a.owners(k) + count_key(ts, k)
    &&& forall|u: Tensor|
        #![trigger u.owned(a)]
        u.owned(a) ==> {
            &&& survives(a, b, u)
            &&& !holds_cell(b.holds(), u.cell)
            &&& !holds_cell(ts, u.cell)
        }
}

/// A handle is still valid, with the same contents and the same wish for gradients.
pub open spec fn survives<S>(a: Runtime<S>, b: Runtime<S>, u: Tensor) -> bool {
    &&& u.valid(a.mem)
    &&& u.valid(b.mem)
    &&& u.device is Cpu ==> u.block(b.mem) == u.block(a.mem)
    &&& u.meta(b.mem).requires_grad == u.meta(a.mem).requires_grad
}

/// No more than one operation's worth of tape, references, cells and blocks was used.
#[verifier::opaque]
pub open spec fn spent<S>(a: Runtime<S>, b: Runtime<S>, n: nat) -> bool {
    &&& b.tape@.len() <= a.tape@.len() + 6 * n
    &&& b.mem.cells.room() >= a.mem.cells.room() - 6 * n
    &&& b.mem.arena.room() >= a.mem.arena.room() - n
    &&& forall|k: Key| #[trigger] b.mem.refs(k) <= a.mem.refs(k) + 6 * n
    &&& b.hooks == a.hooks
    &&& b.mode == a.mode
}

/// There is room for `n` operations.
#[verifier::opaque]
pub open spec fn affords<S>(rt: Runtime<S>, n: nat) -> bool {
    &&& rt.tape@.len() + 6 * n <= u32::MAX
    &&& rt.mem.cells.room() >= 6 * n
    &&& rt.mem.arena.room() >= n
    &&& forall|k: Key| #[trigger] rt.mem.refs(k) + 6 * n <= usize::MAX
}

/// Room that is left after some was used.
pub proof fn lemma_affords<S>(a: Runtime<S>, b: Runtime<S>, used: nat, left: nat)
    requires
        affords(a, used + left),
        spent(a, b, used),
    ensures
        affords(b, left),
        b.hooks == a.hooks,
        b.mode == a.mode,
{
    reveal(spent);
    reveal(affords);
    assert forall|k: Key| #[trigger] b.mem.refs(k) + 6 * left <= usize::MAX by {
        assert(a.mem.refs(k) + 6 * (used + left) <= usize::MAX);
    }
}

/// Computations follow each other.
pub proof fn lemma_spent_trans<S>(a: Runtime<S>, b: Runtime<S>, c: Runtime<S>, m: nat, n: nat)
    requires
        spent(a, b, m),
        spent(b, c, n),
    ensures
        spent(a, c, m + n),
{
    reveal(spent);
    assert forall|k: Key| #[trigger] c.mem.refs(k) <= a.mem.refs(k) + 6 * (m + n) by {
        assert(b.mem.refs(k) <= a.mem.refs(k) + 6 * m);
    }
}

/// Room for fewer operations.
pub proof fn lemma_affords_less<S>(rt: Runtime<S>, m: nat, n: nat)
    requires
        affords(rt, m),
        n <= m,
    ensures
        affords(rt, n),
{
    reveal(affords);
    assert forall|k: Key| #[trigger] rt.mem.refs(k) + 6 * n <= usize::MAX by {
        assert(rt.mem.refs(k) + 6 * m <= usize::MAX);
    }
}

/// What one operation needs.
pub proof fn lemma_affords_one<S>(rt: Runtime<S>)
    requires
        affords(rt, 1),
    ensures
        rt.tape@.len() + 6 <= u32::MAX,
        rt.mem.cells.room() >= 6,
        rt.mem.arena.room() >= 1,
        forall|k: Key| #[trigger] rt.mem.refs(k) + 6 <= usize::MAX,
{
    reveal(affords);
    assert forall|k: Key| #[trigger] rt.mem.refs(k) + 6 <= usize::MAX by {
        assert(rt.mem.refs(k) + 6 * 1 <= usize::MAX);
    }
}

/// What fits a small allowance fits a larger one.
pub proof fn lemma_spent_more<S>(a: Runtime<S>, b: Runtime<S>, m: nat, n: nat)
    requires
        spent(a, b, m),
        m <= n,
    ensures
        spent(a, b, n),
{
    reveal(spent);
    assert forall|k: Key| #[trigger] b.mem.refs(k) <= a.mem.refs(k) + 6 * n by {
        assert(b.mem.refs(k) <= a.mem.refs(k) + 6 * m);
    }
}

/// A handle that the caller owns in `a` is the caller's in `b`.
pub proof fn lemma_grown_owned<S>(a: Runtime<S>, b: Runtime<S>, ts: Seq<Tensor>, u: Tensor)
    requires
        grown(a, b, ts),
        u.owned(a),
    ensures
        u.owned(b),
        survives(a, b, u),
        u.value(b.mem) == u.value(a.mem) || !(u.device is Cpu),
{
    reveal(grown);
    assert(b.owners(u.key()) == a.owners(u.key()) + count_key(ts, u.key()));
}

/// A gained handle is the caller's.
pub proof fn lemma_gained<S>(a: Runtime<S>, b: Runtime<S>, ts: Seq<Tensor>, i: int)
    requires
        grown(a, b, ts),
        0 <= i < ts.len(),
    ensures
        ts[i].owned(b),
{
    reveal(grown);
    lemma_loose_owned(b, ts, i);
}

/// Nothing gained, nothing lost.
pub proof fn lemma_grown_refl<S>(a: Runtime<S>)
    requires
        a.wf(),
    ensures
        grown(a, a, Seq::empty()),
        spent(a, a, 0),
{
    reveal(grown);
    reveal(spent);
    assert forall|k: Key| count_key(Seq::<Tensor>::empty(), k) <= #[trigger] a.owners(k) by {
        lemma_owners(a, k);
    }
}

/// What is gained by two computations in a row.
pub proof fn lemma_grown_trans<S>(
    a: Runtime<S>,
    b: Runtime<S>,
    c: Runtime<S>,
    ts: Seq<Tensor>,
    us: Seq<Tensor>,
)
    requires
        grown(a, b, ts),
        grown(b, c, us),
    ensures
        grown(a, c, ts + us),
{
    reveal(grown);
    let all = ts + us;
    let nt = ts.len();
    assert forall|k: Key| #[trigger] c.owners(k) == a.owners(k) + count_key(all, k) by {
        lemma_count_add(ts, us, k);
        assert(b.owners(k) == a.owners(k) + count_key(ts, k));
        assert(c.owners(k) == b.owners(k) + count_key(us, k));
    }
    assert forall|k: Key| count_key(all, k) <= #[trigger] c.owners(k) by {
        lemma_count_add(ts, us, k);
        assert(count_key(ts, k) <= b.owners(k));
        assert(c.owners(k) == b.owners(k) + count_key(us, k));
    }
    assert forall|i: int| 0 <= i < all.len() implies (#[trigger] all[i]).valid(c.mem)
        && !holds_cell(c.holds(), all[i].cell) by {
        if i < nt {
            lemma_loose_owned(b, ts, i);
            assert(all[i] == ts[i]);
        } else {
            assert(all[i] == us[i - nt]);
        }
    }
    assert forall|i: int, j: int| 0 <= i < j < all.len() implies all[i].cell != all[j].cell by {
        if j < nt {
            assert(ts[i].cell != ts[j].cell);
        } else if i >= nt {
            assert(us[i - nt].cell != us[j - nt].cell);
        } else {
            lemma_loose_owned(b, ts, i);
            assert(!holds_cell(us, ts[i].cell));
            assert(all[j] == us[j - nt]);
        }
    }
    assert forall|u: Tensor| #[trigger] u.owned(a) implies {
        &&& survives(a, c, u)
        &&& !holds_cell(c.holds(), u.cell)
        &&& !holds_cell(all, u.cell)
    } by {
        lemma_grown_owned(a, b, ts, u);
        if holds_cell(all, u.cell) {
            let i = choose|i: int| 0 <= i < all.len() && (#[trigger] all[i]).cell == u.cell;
            if i < nt {
                assert(ts[i].cell == u.cell);
            } else {
                assert(us[i - nt].cell == u.cell);
            }
        }
    }
}

/// Gained handles stay what they were.
pub proof fn lemma_gained_kept<S>(
    a: Runtime<S>,
    b: Runtime<S>,
    c: Runtime<S>,
    ts: Seq<Tensor>,
    us: Seq<Tensor>,
    i: int,
)
    requires
        grown(a, b, ts),
        grown(b, c, us),
        0 <= i < ts.len(),
    ensures
        ts[i].owned(b),
        ts[i].owned(c),
        survives(b, c, ts[i]),
        ts[i].value(c.mem) == ts[i].value(b.mem) || !(ts[i].device is Cpu),
{
    reveal(grown);
    lemma_loose_owned(b, ts, i);
    lemma_grown_owned(b, c, us, ts[i]);
}

/// After one of the gained handles was given back the others are left.
pub proof fn lemma_grown_release<S>(
    a: Runtime<S>,
    b: Runtime<S>,
    c: Runtime<S>,
    ts: Seq<Tensor>,
    i: int,
)
    requires
        grown(a, b, ts),
        0 <= i < ts.len(),
        b.wf(),
        c.wf(),
        given_back(b, c, ts[i]),
    ensures
        grown(a, c, ts.remove(i)),
        forall|j: int| 0 <= j < ts.len() && j != i ==> survives(b, c, #[trigger] ts[j]),
        spent(b, c, 0),
{
    reveal(grown);
    reveal(spent);
    let rest = ts.remove(i);
    let t = ts[i];
    let key = (t.storage_id, t.device);
    if b.gradients@.contains_key(key) {
        b.gradients.lemma_held(key);
        let g = b.gradients@[key];
        let m = b.gradients.held().index_of(g);
        let n = saved_upto(b.tape@, b.tape@.len() as int).len();
        assert(b.holds()[n + m] == g);
        assert(holds_cell(b.holds(), g.cell));
    }
    assert forall|k: Key| #[trigger] c.owners(k) == a.owners(k) + count_key(rest, k) by {
        lemma_count_remove(ts, i, k);
        assert(b.owners(k) == a.owners(k) + count_key(ts, k));
    }
    assert forall|k: Key| count_key(rest, k) <= #[trigger] c.owners(k) by {
        lemma_count_remove(ts, i, k);
        assert(count_key(ts, k) <= b.owners(k));
    }
    assert forall|j: int| 0 <= j < ts.len() && j != i implies survives(b, c, #[trigger] ts[j])
        && !holds_cell(c.holds(), ts[j].cell) by {
        let p = if j < i {
            j
        } else {
            j - 1
        };
        assert(rest[p] == ts[j]);
        if j < i {
            assert(ts[j].cell != ts[i].cell);
        } else {
            assert(ts[i].cell != ts[j].cell);
        }
        lemma_count_at(rest, p);
        lemma_owners(c, ts[j].key());
        assert(count_key(rest, ts[j].key()) <= c.owners(ts[j].key()));
        lemma_valid_kept(b.mem, c.mem, ts[j]);
    }
    assert forall|p: int| 0 <= p < rest.len() implies (#[trigger] rest[p]).valid(c.mem)
        && !holds_cell(c.holds(), rest[p].cell) by {
        let j = if p < i {
            p
        } else {
            p + 1
        };
        assert(rest[p] == ts[j]);
        assert(survives(b, c, ts[j]));
    }
    assert forall|p: int, q: int| 0 <= p < q < rest.len() implies rest[p].cell != rest[q].cell by {
        let j = if p < i {
            p
        } else {
            p + 1
        };
        let l = if q < i {
            q
        } else {
            q + 1
        };
        assert(ts[j].cell != ts[l].cell);
    }
    assert forall|u: Tensor| #[trigger] u.owned(a) implies {
        &&& survives(a, c, u)
        &&& !holds_cell(c.holds(), u.cell)
        &&& !holds_cell(rest, u.cell)
    } by {
        assert(u.cell != t.cell) by {
            if u.cell == t.cell {
                assert(ts[i].cell == u.cell);
            }
        }
        lemma_owners(c, u.key());
        assert(c.owners(u.key()) == a.owners(u.key()) + count_key(rest, u.key()));
        lemma_valid_kept(b.mem, c.mem, u);
        if holds_cell(rest, u.cell) {
            let p = choose|p: int| 0 <= p < rest.len() && (#[trigger] rest[p]).cell == u.cell;
            let j = if p < i {
                p
            } else {
                p + 1
            };
            assert(ts[j].cell == u.cell);
        }
    }
}

/// What a new handle and the recording of its operation come to.
pub proof fn lemma_op_grown<S>(a: Runtime<S>, m: Runtime<S>, b: Runtime<S>, r: Tensor, n: nat)
    requires
        a.wf(),
        m.wf(),
        b.wf(),
        m.holds() == a.holds(),
        m.tape == a.tape,
        undisturbed(a, m),
        same_meta(a, m),
        !a.mem.cells@.contains_key(r.cell),
        m.mem.cells.room() == a.mem.cells.room() - 1,
        m.mem.arena.room() >= a.mem.arena.room() - 1,
        forall|k: Key| #[trigger]
            m.mem.refs(k) == a.mem.refs(k) + (if k == r.key() {
                1nat
            } else {
                0nat
            }),
        m.hooks == a.hooks,
        m.mode == a.mode,
        undisturbed(m, b),
        r.owned(b),
        forall|k: Key| #[trigger] b.owners(k) == m.owners(k),
        grads_kept_but(m, b, r.cell),
        b.mem.cells.room() >= m.mem.cells.room() - n,
        b.mem.arena.room() == m.mem.arena.room(),
        b.tape@.len() <= m.tape@.len() + n + 1,
        forall|k: Key| #[trigger] b.mem.refs(k) <= m.mem.refs(k) + n,
        n <= 5,
        b.hooks == m.hooks,
        b.mode == m.mode,
    ensures
        grown(a, b, seq![r]),
        spent(a, b, 1),
{
    reveal(grown);
    reveal(spent);
    let ts = seq![r];
    assert forall|k: Key| #[trigger] b.owners(k) == a.owners(k) + count_key(ts, k) by {
        assert(ts =~= Seq::<Tensor>::empty().push(r));
        lemma_count_push(Seq::empty(), r, k);
        assert(b.owners(k) == m.owners(k));
        assert(m.mem.refs(k) == a.mem.refs(k) + (if k == r.key() {
            1nat
        } else {
            0nat
        }));
    }
    assert forall|k: Key| count_key(ts, k) <= #[trigger] b.owners(k) by {
        assert(b.owners(k) == a.owners(k) + count_key(ts, k));
        lemma_owners(a, k);
    }
    assert forall|u: Tensor| #[trigger] u.owned(a) implies {
        &&& survives(a, b, u)
        &&& !holds_cell(b.holds(), u.cell)
        &&& !holds_cell(ts, u.cell)
    } by {
        assert(u.owned(m));
        assert(u.owned(b));
        assert(a.mem.cells@.contains_key(u.cell));
        assert(m.mem.cells@.contains_key(u.cell));
        if holds_cell(ts, u.cell) {
            let i = choose|i: int| 0 <= i < ts.len() && (#[trigger] ts[i]).cell == u.cell;
            assert(ts[i] == r);
        }
    }
    assert forall|k: Key| #[trigger] b.mem.refs(k) <= a.mem.refs(k) + 6 * 1 by {
        assert(b.mem.refs(k) <= m.mem.refs(k) + n);
    }
}

} // verus!
