//! Going back from a replayed block to the pass that it belongs to.
use vstd::prelude::*;
use crate::autograd::checkpoint::Replay;
use crate::autograd::collect::{block_values, blocks_ok, merge};
use crate::autograd::grads::{
    all_stored, grad_values, lemma_in_holds, lemma_kept_trans, stored, tape_handles, untouched,
};
use crate::cpu::elementwise::zip_ok;
use crate::cpu::norm::{zeros, zeros_value};
use crate::custody::{grad_key, kept, lemma_owners, loose};
use crate::dense::{Dense, Value};
use crate::handle::has_room;
use crate::runtime::{holds_cell, GradKey, Runtime};
use crate::scalar::Scalar;
use crate::tape::{count_key, lemma_count_add, lemma_count_at, lemma_count_push, lemma_valid_refs};
use crate::tensor::{Key, Tensor};

verus! {

/// Loose handles that the runtime takes back.
pub proof fn lemma_returned<S>(
    a: Runtime<S>,
    b: Runtime<S>,
    p: Seq<Tensor>,
    ts: Seq<Tensor>,
    q: Seq<Tensor>,
)
    requires
        a.wf(),
        loose(a, ts),
        b.mem == a.mem,
        a.holds() == p + q,
        b.holds() == p + ts + q,
        b.tape.wf(),
        b.gradients.wf(),
        b.checkpoint_gradients.wf(),
    ensures
        b.wf(),
        forall|k: Key| #[trigger] b.owners(k) == a.owners(k) - count_key(ts, k),
        forall|c: usize| #[trigger]
            holds_cell(b.holds(), c) ==> holds_cell(a.holds(), c) || holds_cell(ts, c),
{
    let ha = a.holds();
    let hb = b.holds();
    let np = p.len();
    let nt = ts.len();
    assert forall|k: Key| #[trigger] b.owners(k) == a.owners(k) - count_key(ts, k) by {
        lemma_count_add(p, ts, k);
        lemma_count_add(p + ts, q, k);
        lemma_count_add(p, q, k);
    }
    assert forall|k: Key| #[trigger] count_key(hb, k) <= b.mem.refs(k) by {
        assert(b.owners(k) == a.owners(k) - count_key(ts, k));
        assert(count_key(ts, k) <= a.owners(k));
    }
    assert forall|i: int| 0 <= i < hb.len() implies (#[trigger] hb[i]).valid(b.mem) by {
        if i < np {
            assert(hb[i] == ha[i]);
        } else if i < np + nt {
            assert(hb[i] == ts[i - np]);
        } else {
            assert(hb[i] == ha[i - nt]);
        }
    }
    assert forall|i: int, j: int| 0 <= i < j < hb.len() implies hb[i].cell != hb[j].cell by {
        let si = if i < np {
            i
        } else {
            i - nt
        };
        let sj = if j < np {
            j
        } else {
            j - nt
        };
        let ti = np <= i < np + nt;
        let tj = np <= j < np + nt;
        if ti && tj {
            assert(ts[i - np].cell != ts[j - np].cell);
        } else if ti {
            assert(hb[i] == ts[i - np]);
            assert(hb[j] == ha[sj]);
            assert(!holds_cell(ha, ts[i - np].cell));
        } else if tj {
            assert(hb[j] == ts[j - np]);
            assert(hb[i] == ha[si]);
            assert(!holds_cell(ha, ts[j - np].cell));
        } else {
            assert(hb[i] == ha[si]);
            assert(hb[j] == ha[sj]);
            assert(ha[si].cell != ha[sj].cell);
        }
    }
    assert forall|c: usize| #[trigger] holds_cell(hb, c) implies holds_cell(ha, c) || holds_cell(
        ts,
        c,
    ) by {
        let i = choose|i: int| 0 <= i < hb.len() && (#[trigger] hb[i]).cell == c;
        if i < np {
            assert(ha[i].cell == c);
        } else if i < np + nt {
            assert(ts[i - np].cell == c);
        } else {
            assert(ha[i - nt].cell == c);
        }
    }
}

/// Two parts of what the runtime holds exchanged.
proof fn lemma_swapped<S>(a: Runtime<S>, b: Runtime<S>, p: Seq<Tensor>, q: Seq<Tensor>)
    requires
        a.wf(),
        b.mem == a.mem,
        a.holds() == p + q,
        b.holds() == q + p,
        b.tape.wf(),
        b.gradients.wf(),
        b.checkpoint_gradients.wf(),
    ensures
        b.wf(),
        kept(a, b, Seq::empty()),
{
    let ha = a.holds();
    let hb = b.holds();
    let none = Seq::<Tensor>::empty();
    let np = p.len();
    let nq = q.len();
    assert forall|k: Key| #[trigger] b.owners(k) == a.owners(k) + count_key(none, k) by {
        lemma_count_add(p, q, k);
        lemma_count_add(q, p, k);
    }
    assert forall|k: Key| #[trigger] count_key(hb, k) <= b.mem.refs(k) by {
        lemma_count_add(p, q, k);
        lemma_count_add(q, p, k);
        assert(count_key(ha, k) <= a.mem.refs(k));
    }
    assert forall|i: int| 0 <= i < hb.len() implies (#[trigger] hb[i]).valid(b.mem) by {
        if i < nq {
            assert(hb[i] == ha[np + i]);
        } else {
            assert(hb[i] == ha[i - nq]);
        }
    }
    assert forall|i: int, j: int| 0 <= i < j < hb.len() implies hb[i].cell != hb[j].cell by {
        let si = if i < nq {
            np + i
        } else {
            i - nq
        };
        let sj = if j < nq {
            np + j
        } else {
            j - nq
        };
        assert(hb[i] == ha[si]);
        assert(hb[j] == ha[sj]);
        if si < sj {
            assert(ha[si].cell != ha[sj].cell);
        } else {
            assert(ha[sj].cell != ha[si].cell);
        }
    }
    assert forall|u: Tensor| #[trigger] u.owned(a) implies !holds_cell(hb, u.cell) by {
        if holds_cell(hb, u.cell) {
            let i = choose|i: int| 0 <= i < hb.len() && (#[trigger] hb[i]).cell == u.cell;
            let si = if i < nq {
                np + i
            } else {
                i - nq
            };
            assert(ha[si].cell == u.cell);
        }
    }
}

/// All gradients of checkpointed blocks are row-major CPU tensors of their own.
pub open spec fn blocks_stored<S>(rt: Runtime<S>) -> bool {
    forall|k: GradKey| #[trigger]
        rt.checkpoint_gradients@.contains_key(k) ==> stored(rt, rt.checkpoint_gradients@[k])
}

/// The gradient of the input of a replayed block: zeros, if the output does not depend on it.
pub open spec fn input_grad<S: Scalar>(rt: Runtime<S>, x: Tensor) -> Value<S> {
    if rt.gradients@.contains_key(grad_key(x)) {
        grad_values(rt)[grad_key(x)]
    } else {
        zeros_value(x.shape@)
    }
}

/// The gradients of checkpointed blocks with those of one more block.
pub open spec fn more_blocks<S: Scalar>(rt: Runtime<S>, x: Tensor) -> Map<GradKey, Value<S>> {
    merge(block_values(rt), grad_values(rt).remove(grad_key(x)))
}

/// A replayed block can be left.
pub open spec fn leavable<S: Scalar>(rt: Runtime<S>, r: Replay) -> bool {
    let n = rt.gradients.held().len() as int;
    &&& r.wf()
    &&& r.x.is_f32(rt.mem)
    &&& loose(rt, r.handles().push(r.x))
    &&& rt.tape@.len() == 0
    &&& all_stored(rt)
    &&& blocks_stored(rt)
    &&& has_room(rt, n, n)
    &&& forall|k: GradKey| #[trigger]
        rt.gradients@.contains_key(k) && rt.checkpoint_gradients@.contains_key(k) ==> zip_ok(
            block_values(rt)[k],
            grad_values(rt)[k],
        )
}

/// A handle that is not among those put aside.
pub open spec fn elsewhere(r: Replay, u: Tensor) -> bool {
    !holds_cell(r.handles().push(r.x), u.cell)
}

/// The step from `a` to `b` that goes back to the pass that a replayed block belongs to.
pub open spec fn left<S: Scalar>(a: Runtime<S>, b: Runtime<S>, r: Replay) -> bool {
    &&& b.tape == r.tape
    &&& b.gradients == r.gradients
    &&& b.mode == a.mode
    &&& b.hooks == a.hooks
    &&& b.queue == a.queue
    &&& blocks_stored(b)
    &&& block_values(b) == more_blocks(a, r.x)
    &&& forall|k: Key| #[trigger] b.owners(k) == a.owners(k) - count_key(r.handles().push(r.x), k)
    &&& forall|i: int| 0 <= i < r.handles().len() ==> untouched(a, b, #[trigger] r.handles()[i])
    &&& forall|u: Tensor|
        #![trigger u.owned(a)]
        u.owned(a) && elsewhere(r, u) && a.owners(u.key()) > count_key(
            r.handles().push(r.x),
            u.key(),
        ) ==> u.owned(b) && untouched(a, b, u)
}

/// Loose handles stay loose while what is owned is kept.
proof fn lemma_kept_loose<S>(a: Runtime<S>, b: Runtime<S>, ts: Seq<Tensor>)
    requires
        loose(a, ts),
        kept(a, b, Seq::empty()),
    ensures
        loose(b, ts),
        forall|i: int| 0 <= i < ts.len() ==> untouched(a, b, #[trigger] ts[i]),
{
    assert forall|k: Key| count_key(ts, k) <= #[trigger] b.owners(k) by {
        assert(b.owners(k) == a.owners(k) + count_key(Seq::empty(), k));
        assert(count_key(ts, k) <= a.owners(k));
    }
    assert forall|i: int| 0 <= i < ts.len() implies untouched(a, b, #[trigger] ts[i])
        && !holds_cell(b.holds(), ts[i].cell) by {
        crate::custody::lemma_loose_owned(a, ts, i);
    }
}

/// A handle with a reference left survives when another one is given back.
proof fn lemma_survives<S>(a: Runtime<S>, b: Runtime<S>, u: Tensor, x: Tensor)
    requires
        b.wf(),
        u.valid(a.mem),
        b.owners(u.key()) > 0,
        crate::tape::same_blocks(a.mem, b.mem),
        b.mem.cells@ == a.mem.cells@.remove(x.cell),
        u.cell != x.cell,
    ensures
        untouched(a, b, u),
{
    lemma_owners(b, u.key());
    crate::tape::lemma_valid_kept(a.mem, b.mem, u);
}

/// The other loose handles after the last was given back.
proof fn lemma_one_less<S>(a: Runtime<S>, b: Runtime<S>, ts: Seq<Tensor>)
    requires
        a.wf(),
        b.wf(),
        ts.len() > 0,
        loose(a, ts),
        crate::tape::same_blocks(a.mem, b.mem),
        b.holds() == a.holds(),
        b.mem.cells@ == a.mem.cells@.remove(ts.last().cell),
        forall|k: Key| #[trigger]
            b.owners(k) == a.owners(k) - (if k == ts.last().key() {
                1int
            } else {
                0int
            }),
    ensures
        loose(b, ts.drop_last()),
        forall|i: int| 0 <= i < ts.len() - 1 ==> untouched(a, b, #[trigger] ts[i]),
{
    let rest = ts.drop_last();
    assert forall|k: Key| count_key(rest, k) <= #[trigger] b.owners(k) by {
        assert(count_key(ts, k) <= a.owners(k));
    }
    assert forall|i: int| 0 <= i < rest.len() implies untouched(a, b, #[trigger] ts[i])
        && !holds_cell(b.holds(), ts[i].cell) && rest[i] == ts[i] by {
        assert(ts[i].cell != ts[ts.len() - 1].cell);
        lemma_count_at(rest, i);
        assert(count_key(rest, rest[i].key()) <= b.owners(rest[i].key()));
        lemma_survives(a, b, ts[i], ts.last());
    }
    assert forall|i: int| 0 <= i < rest.len() implies (#[trigger] rest[i]).valid(b.mem)
        && !holds_cell(b.holds(), rest[i].cell) by {
        assert(untouched(a, b, ts[i]));
    }
    assert forall|i: int, j: int| 0 <= i < j < rest.len() implies rest[i].cell != rest[j].cell by {
        assert(ts[i].cell != ts[j].cell);
    }
}

/// Gradients of blocks are left alone when a loose handle is given back.
proof fn lemma_blocks_after<S: Scalar>(
    a: Runtime<S>,
    b: Runtime<S>,
    c: Runtime<S>,
    x: Tensor,
)
    requires
        a.wf(),
        all_stored(a),
        b.wf(),
        c.wf(),
        b.mem == a.mem,
        b.checkpoint_gradients == a.gradients,
        c.checkpoint_gradients == b.checkpoint_gradients,
        c.holds() == b.holds(),
        x.owned(b),
        crate::tape::same_blocks(b.mem, c.mem),
        c.mem.cells@ == b.mem.cells@.remove(x.cell),
        forall|k: Key| #[trigger]
            c.mem.refs(k) == b.mem.refs(k) - (if k == x.key() {
                1int
            } else {
                0int
            }),
    ensures
        blocks_stored(c),
        block_values(c) == block_values(b),
{
    assert forall|k: GradKey| #[trigger] c.checkpoint_gradients@.contains_key(k) implies stored(
        c,
        c.checkpoint_gradients@[k],
    ) && untouched(b, c, c.checkpoint_gradients@[k]) by {
        let g = a.gradients@[k];
        assert(a.gradients@.contains_key(k));
        assert(stored(a, g));
        b.checkpoint_gradients.lemma_held(k);
        lemma_in_holds(b, g);
        lemma_in_holds(c, g);
        let i = b.holds().index_of(g);
        lemma_count_at(b.holds(), i);
        lemma_owners(b, g.key());
        assert(b.owners(x.key()) > 0);
        assert(g.key() != x.key());
        assert(c.mem.refs(g.key()) == b.mem.refs(g.key()));
        assert(holds_cell(b.holds(), b.holds()[i].cell));
    }
    assert(block_values(c) =~= block_values(b)) by {
        assert forall|k: GradKey| #[trigger] block_values(b).contains_key(k) implies block_values(
            c,
        )[k] == block_values(b)[k] by {
            assert(c.checkpoint_gradients@.contains_key(k));
            assert(stored(c, c.checkpoint_gradients@[k]));
        }
    }
}

/// Goes back from a replayed block, whose gradients have been computed, to the pass that it
/// belongs to. Returns the gradient of the block's input; the gradients of everything else that
/// the block used are kept for the end of the pass.
pub fn leave_replay<S: Scalar>(r: Replay, rt: &mut Runtime<S>) -> (gx: Dense<S>)
    requires
        old(rt).wf(),
        leavable(*old(rt), r),
    ensures
        final(rt).wf(),
        left(*old(rt), *final(rt), r),
        gx.wf(),
        gx@ == input_grad(*old(rt), r.x),
{
    let ghost first = *rt;
    let ghost hs = r.handles();
    let ghost mine = hs.push(r.x);
    let ghost key0 = grad_key(r.x);
    let ghost none = Seq::<Tensor>::empty();
    let key = (r.x.storage_id, r.x.device);
    let gx = match rt.gradients.get(key) {
        Some(g) => {
            assert(stored(*rt, *g));
            g.read(rt)
        },
        None => zeros(&r.x.shape),
    };
    rt.clear_gradient(key);
    let ghost second = *rt;
    proof {
        assert(tape_handles(first) =~= none);
        assert forall|k: GradKey| #[trigger]
            second.checkpoint_gradients@.contains_key(k) implies stored(
            second,
            second.checkpoint_gradients@[k],
        ) by {
            let t = first.checkpoint_gradients@[k];
            assert(first.checkpoint_gradients@.contains_key(k));
            first.checkpoint_gradients.lemma_held(k);
            assert(stored(first, t));
            assert(untouched(first, second, t));
            lemma_valid_refs(second.mem, t);
            assert(second.mem.refs(t.key()) <= first.mem.refs(t.key()));
        }
    }
    std::mem::swap(&mut rt.gradients, &mut rt.checkpoint_gradients);
    let ghost third = *rt;
    proof {
        assert(tape_handles(second) =~= none);
        assert(second.holds() =~= second.gradients.held() + second.checkpoint_gradients.held());
        assert(third.holds() =~= second.checkpoint_gradients.held() + second.gradients.held());
        lemma_swapped(
            second,
            third,
            second.gradients.held(),
            second.checkpoint_gradients.held(),
        );
        lemma_kept_trans(first, second, third);
        assert(grad_values(third) =~= block_values(first)) by {
            assert forall|k: GradKey| #[trigger]
                block_values(first).contains_key(k) implies grad_values(third)[k]
                == block_values(first)[k] by {
                assert(first.checkpoint_gradients@.contains_key(k));
                first.checkpoint_gradients.lemma_held(k);
                assert(untouched(first, second, first.checkpoint_gradients@[k]));
                assert(stored(first, first.checkpoint_gradients@[k]));
            }
        }
        assert(block_values(third) =~= grad_values(first).remove(key0)) by {
            assert(block_values(third) =~= grad_values(second));
        }
        assert(all_stored(third)) by {
            assert forall|k: GradKey| #[trigger] third.gradients@.contains_key(k) implies stored(
                third,
                third.gradients@[k],
            ) by {
                assert(second.checkpoint_gradients@.contains_key(k));
                assert(stored(second, second.checkpoint_gradients@[k]));
            }
        }
        assert(blocks_ok(third, grad_values(third))) by {
            assert forall|k: GradKey| #[trigger]
                third.checkpoint_gradients@.contains_key(k) implies
                third.checkpoint_gradients@[k].is_f32(third.mem) && (grad_values(
                third,
            ).contains_key(k) ==> zip_ok(grad_values(third)[k], block_values(third)[k])) by {
                assert(second.gradients@.contains_key(k));
                assert(stored(second, second.gradients@[k]));
                assert(first.gradients@.contains_key(k));
                if grad_values(third).contains_key(k) {
                    assert(block_values(first).contains_key(k));
                    assert(first.checkpoint_gradients@.contains_key(k));
                    assert(grad_values(first).remove(key0).contains_key(k));
                }
            }
        }
    }
    rt.merge_blocks();
    let ghost fourth = *rt;
    proof {
        lemma_kept_trans(first, third, fourth);
        lemma_kept_loose(first, fourth, mine);
    }
    std::mem::swap(&mut rt.gradients, &mut rt.checkpoint_gradients);
    let ghost fifth = *rt;
    proof {
        assert(tape_handles(fourth) =~= none);
        assert(fourth.holds() =~= fourth.gradients.held() + none);
        assert(fifth.holds() =~= none + fourth.gradients.held());
        lemma_swapped(fourth, fifth, fourth.gradients.held(), none);
        lemma_kept_trans(first, fourth, fifth);
        lemma_kept_loose(first, fifth, mine);
        crate::custody::lemma_loose_owned(fifth, mine, mine.len() - 1);
    }
    let Replay { tape, gradients, rng_counter: _, x } = r;
    rt.discard(x);
    let ghost sixth = *rt;
    proof {
        assert forall|k: Key| #[trigger]
            sixth.owners(k) == fifth.owners(k) - (if k == mine.last().key() {
                1int
            } else {
                0int
            }) by {
            assert(sixth.mem.refs(k) == fifth.mem.refs(k) - (if k == x.key() {
                1int
            } else {
                0int
            }));
        }
        lemma_one_less(fifth, sixth, mine);
        assert(mine.drop_last() =~= hs);
        assert(blocks_stored(sixth) && block_values(sixth) == block_values(fifth)) by {
            lemma_blocks_after(fourth, fifth, sixth, x);
        }
    }
    rt.tape = tape;
    rt.gradients = gradients;
    proof {
        let c = sixth.checkpoint_gradients.held();
        assert(tape_handles(sixth) =~= none);
        assert(sixth.gradients.held() =~= none);
        assert(sixth.holds() =~= none + c);
        assert(rt.holds() =~= none + hs + c);
        lemma_returned(sixth, *rt, none, hs, c);
        assert(block_values(*rt) =~= block_values(sixth));
        assert(blocks_stored(*rt)) by {
            assert forall|k: GradKey| #[trigger]
                rt.checkpoint_gradients@.contains_key(k) implies stored(
                *rt,
                rt.checkpoint_gradients@[k],
            ) by {
                assert(sixth.checkpoint_gradients@.contains_key(k));
            }
        }
        assert forall|k: Key| #[trigger] rt.owners(k) == first.owners(k) - count_key(mine, k) by {
            assert(rt.owners(k) == sixth.owners(k) - count_key(hs, k));
            assert(fifth.owners(k) == first.owners(k) + count_key(none, k));
            lemma_count_push(hs, x, k);
        }
        assert forall|i: int| 0 <= i < hs.len() implies untouched(first, *rt, #[trigger] hs[i]) by {
            assert(mine[i] == hs[i]);
            assert(untouched(first, fifth, mine[i]));
            assert(untouched(fifth, sixth, mine[i]));
        }
        assert forall|u: Tensor| #[trigger] u.owned(first) && elsewhere(r, u) && first.owners(
            u.key(),
        ) > count_key(mine, u.key()) implies u.owned(*rt) && untouched(first, *rt, u) by {
            assert(rt.owners(u.key()) == first.owners(u.key()) - count_key(mine, u.key()));
            assert(u.cell != x.cell) by {
                assert(mine[mine.len() - 1].cell == x.cell);
            }
            assert(sixth.owners(u.key()) == rt.owners(u.key()) + count_key(hs, u.key()));
            lemma_survives(fifth, sixth, u, x);
            if holds_cell(rt.holds(), u.cell) {
                if holds_cell(hs, u.cell) {
                    let i = choose|i: int| 0 <= i < hs.len() && (#[trigger] hs[i]).cell == u.cell;
                    assert(mine[i].cell == u.cell);
                }
                assert(holds_cell(sixth.holds(), u.cell));
                assert(holds_cell(fifth.holds(), u.cell));
            }
        }
    }
    gx
}

} // verus!
