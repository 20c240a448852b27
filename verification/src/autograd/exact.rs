//! Sums in exact arithmetic.
//!
//! Kernels are specified operation by operation, because rounding makes the order of operations
//! matter. Where arithmetic is exact, sums can be taken apart and put together again; that is what
//! relates a gradient to the operation that it belongs to.
use vstd::prelude::*;
use crate::math::fold;
use crate::scalar::{one, zero, Constant, Scalar};

verus! {

/// The operations are those of a commutative ring, and division multiplies by a reciprocal:
/// nothing is rounded.
#[verifier::opaque]
pub open spec fn exact<S: Scalar>() -> bool {
    &&& forall|a: S, b: S| #[trigger] S::add_spec(a, b) == S::add_spec(b, a)
    &&& forall|a: S, b: S, c: S| #[trigger]
        S::add_spec(S::add_spec(a, b), c) == S::add_spec(a, S::add_spec(b, c))
    &&& forall|a: S| #[trigger] S::add_spec(a, zero()) == a
    &&& forall|a: S, b: S| #[trigger] S::mul_spec(a, b) == S::mul_spec(b, a)
    &&& forall|a: S, b: S, c: S| #[trigger]
        S::mul_spec(S::mul_spec(a, b), c) == S::mul_spec(a, S::mul_spec(b, c))
    &&& forall|a: S, b: S, c: S| #[trigger]
        S::mul_spec(a, S::add_spec(b, c)) == S::add_spec(S::mul_spec(a, b), S::mul_spec(a, c))
    &&& forall|a: S| #[trigger] S::mul_spec(a, one()) == a
    &&& forall|a: S| #[trigger] S::mul_spec(a, zero()) == zero::<S>()
    &&& forall|a: S, b: S| #[trigger]
        S::sub_spec(a, b) == S::add_spec(a, S::mul_spec(b, S::constant_spec(Constant::NegOne)))
    &&& forall|a: S, b: S| #[trigger]
        S::div_spec(a, b) == S::mul_spec(a, S::div_spec(one(), b))
    &&& forall|a: S, b: S, c: S| #[trigger]
        S::mul_add_spec(a, b, c) == S::add_spec(S::mul_spec(a, b), c)
    &&& forall|a: S| #[trigger] S::eq_zero_spec(a) ==> a == zero::<S>()
}

pub proof fn lemma_add<S: Scalar>(a: S, b: S, c: S)
    requires
        exact::<S>(),
    ensures
        S::add_spec(a, b) == S::add_spec(b, a),
        S::add_spec(S::add_spec(a, b), c) == S::add_spec(a, S::add_spec(b, c)),
        S::add_spec(a, zero()) == a,
        S::add_spec(zero(), a) == a,
{
    reveal(exact);
}

pub proof fn lemma_mul<S: Scalar>(a: S, b: S, c: S)
    requires
        exact::<S>(),
    ensures
        S::mul_spec(a, b) == S::mul_spec(b, a),
        S::mul_spec(S::mul_spec(a, b), c) == S::mul_spec(a, S::mul_spec(b, c)),
        S::mul_spec(a, one()) == a,
        S::mul_spec(a, zero()) == zero::<S>(),
        S::mul_spec(zero(), a) == zero::<S>(),
{
    reveal(exact);
}

pub proof fn lemma_distribute<S: Scalar>(a: S, b: S, c: S)
    requires
        exact::<S>(),
    ensures
        S::mul_spec(a, S::add_spec(b, c)) == S::add_spec(S::mul_spec(a, b), S::mul_spec(a, c)),
        S::mul_spec(S::add_spec(b, c), a) == S::add_spec(S::mul_spec(b, a), S::mul_spec(c, a)),
{
    reveal(exact);
}

pub proof fn lemma_derived<S: Scalar>(a: S, b: S, c: S)
    requires
        exact::<S>(),
    ensures
        S::sub_spec(a, b) == S::add_spec(a, S::mul_spec(b, S::constant_spec(Constant::NegOne))),
        S::div_spec(a, b) == S::mul_spec(a, S::div_spec(one(), b)),
        S::mul_add_spec(a, b, c) == S::add_spec(S::mul_spec(a, b), c),
        S::eq_zero_spec(a) ==> a == zero::<S>(),
{
    reveal(exact);
}

/// `(a + b) + (c + d) == (a + c) + (b + d)`
pub proof fn lemma_add4<S: Scalar>(a: S, b: S, c: S, d: S)
    requires
        exact::<S>(),
    ensures
        S::add_spec(S::add_spec(a, b), S::add_spec(c, d)) == S::add_spec(
            S::add_spec(a, c),
            S::add_spec(b, d),
        ),
{
    lemma_add(a, b, S::add_spec(c, d));
    lemma_add(b, c, d);
    lemma_add(c, b, d);
    lemma_add(a, c, S::add_spec(b, d));
}

/// The sum of `f(0)` to `f(n - 1)`.
pub open spec fn total<S: Scalar>(n: nat, f: spec_fn(int) -> S) -> S
    decreases n,
{
    if n == 0 {
        zero()
    } else {
        S::add_spec(total((n - 1) as nat, f), f(n - 1))
    }
}

pub proof fn lemma_total_eq<S: Scalar>(n: nat, f: spec_fn(int) -> S, g: spec_fn(int) -> S)
    requires
        forall|i: int| 0 <= i < n ==> #[trigger] f(i) == g(i),
    ensures
        total(n, f) == total(n, g),
    decreases n,
{
    if n > 0 {
        lemma_total_eq((n - 1) as nat, f, g);
        assert(f(n - 1) == g(n - 1));
    }
}

pub proof fn lemma_total_zero<S: Scalar>(n: nat, f: spec_fn(int) -> S)
    requires
        exact::<S>(),
        forall|i: int| 0 <= i < n ==> #[trigger] f(i) == zero::<S>(),
    ensures
        total(n, f) == zero::<S>(),
    decreases n,
{
    if n > 0 {
        lemma_total_zero((n - 1) as nat, f);
        assert(f(n - 1) == zero::<S>());
        lemma_add(zero::<S>(), zero(), zero());
    }
}

pub proof fn lemma_total_add<S: Scalar>(n: nat, f: spec_fn(int) -> S, g: spec_fn(int) -> S)
    requires
        exact::<S>(),
    ensures
        total(n, |i: int| S::add_spec(f(i), g(i))) == S::add_spec(total(n, f), total(n, g)),
    decreases n,
{
    if n > 0 {
        lemma_total_add((n - 1) as nat, f, g);
        lemma_add4(
            total((n - 1) as nat, f),
            total((n - 1) as nat, g),
            f(n - 1),
            g(n - 1),
        );
    } else {
        lemma_add(zero::<S>(), zero(), zero());
    }
}

pub proof fn lemma_total_mul<S: Scalar>(n: nat, c: S, f: spec_fn(int) -> S)
    requires
        exact::<S>(),
    ensures
        total(n, |i: int| S::mul_spec(c, f(i))) == S::mul_spec(c, total(n, f)),
    decreases n,
{
    if n > 0 {
        lemma_total_mul((n - 1) as nat, c, f);
        lemma_distribute(c, total((n - 1) as nat, f), f(n - 1));
    } else {
        lemma_mul(c, zero(), zero());
    }
}

/// Rows and columns can be added in either order.
pub proof fn lemma_total_swap<S: Scalar>(n: nat, m: nat, f: spec_fn(int, int) -> S)
    requires
        exact::<S>(),
    ensures
        total(n, |i: int| total(m, |j: int| f(i, j))) == total(
            m,
            |j: int| total(n, |i: int| f(i, j)),
        ),
    decreases n,
{
    let cols = |j: int| total(n, |i: int| f(i, j));
    if n == 0 {
        lemma_total_zero(m, cols);
    } else {
        let k = (n - 1) as nat;
        lemma_total_swap(k, m, f);
        let fewer = |j: int| total(k, |i: int| f(i, j));
        let last = |j: int| f(n - 1, j);
        let both = |j: int| S::add_spec(fewer(j), last(j));
        lemma_total_add(m, fewer, last);
        assert forall|j: int| 0 <= j < m implies #[trigger] both(j) == cols(j) by {
            let col = |i: int| f(i, j);
            assert(total(n, col) == S::add_spec(total(k, col), col(n - 1)));
        }
        lemma_total_eq(m, both, cols);
        let row = |i: int| total(m, |j: int| f(i, j));
        assert(row(n - 1) == total(m, |j: int| f(n - 1, j)));
        lemma_total_eq(m, |j: int| f(n - 1, j), last);
    }
}

/// A sum with one term.
pub proof fn lemma_total_pick<S: Scalar>(n: nat, k: int, f: spec_fn(int) -> S)
    requires
        exact::<S>(),
        0 <= k < n,
        forall|i: int| 0 <= i < n && i != k ==> #[trigger] f(i) == zero::<S>(),
    ensures
        total(n, f) == f(k),
    decreases n,
{
    let p = (n - 1) as nat;
    if k == n - 1 {
        lemma_total_zero(p, f);
        lemma_add(f(k), zero(), zero());
    } else {
        lemma_total_pick(p, k, f);
        assert(f(n - 1) == zero::<S>());
        lemma_add(f(k), zero(), zero());
    }
}

/// A sum over `n` runs of `m` terms each.
pub proof fn lemma_total_runs<S: Scalar>(n: nat, m: nat, f: spec_fn(int) -> S)
    requires
        exact::<S>(),
    ensures
        total(n * m, f) == total(n, |i: int| total(m, |j: int| f(i * m + j))),
    decreases n,
{
    let row = |i: int| total(m, |j: int| f(i * m + j));
    if n == 0 {
        assert(n * m == 0) by (nonlinear_arith)
            requires
                n == 0,
        ;
    } else {
        let k = (n - 1) as nat;
        lemma_total_runs(k, m, f);
        assert(n * m == k * m + m) by (nonlinear_arith)
            requires
                n == k + 1,
        ;
        lemma_total_split(k * m, m, f);
        lemma_total_eq(m, |j: int| f(k * m + j), |j: int| f((n - 1) * m + j));
        assert(row(n - 1) == total(m, |j: int| f((n - 1) * m + j)));
    }
}

/// A sum in two parts.
pub proof fn lemma_total_split<S: Scalar>(n: nat, m: nat, f: spec_fn(int) -> S)
    requires
        exact::<S>(),
    ensures
        total(n + m, f) == S::add_spec(total(n, f), total(m, |j: int| f(n + j))),
    decreases m,
{
    let rest = |j: int| f(n + j);
    if m == 0 {
        lemma_add(total(n, f), zero(), zero());
    } else {
        let k = (m - 1) as nat;
        lemma_total_split(n, k, f);
        lemma_add(total(n, f), total(k, rest), rest(m - 1));
        assert(rest(m - 1) == f(n + m - 1));
        assert(total(n + m, f) == S::add_spec(total((n + m - 1) as nat, f), f(n + m - 1)));
    }
}

/// The sum of the products of two sequences' elements.
pub open spec fn pairing<S: Scalar>(a: Seq<S>, b: Seq<S>) -> S {
    total(a.len(), |i: int| S::mul_spec(a[i], b[i]))
}

/// Terms that are put where they land, and those added up: moving the sum of what lands on `j` to
/// `j` is the other side of reading `d` where `i` lands.
pub proof fn lemma_scatter<S: Scalar>(
    n: nat,
    m: nat,
    land: spec_fn(int) -> int,
    g: spec_fn(int) -> S,
    d: spec_fn(int) -> S,
)
    requires
        exact::<S>(),
        forall|i: int| 0 <= i < n ==> 0 <= #[trigger] land(i) < m,
    ensures
        total(
            m,
            |j: int|
                S::mul_spec(
                    total(
                        n,
                        |i: int|
                            if land(i) == j {
                                g(i)
                            } else {
                                zero()
                            },
                    ),
                    d(j),
                ),
        ) == total(n, |i: int| S::mul_spec(g(i), d(land(i)))),
{
    let part = |i: int, j: int|
        if land(i) == j {
            S::mul_spec(g(i), d(j))
        } else {
            zero()
        };
    let here = |j: int|
        |i: int|
            if land(i) == j {
                g(i)
            } else {
                zero()
            };
    let left = |j: int| S::mul_spec(total(n, here(j)), d(j));
    let by_col = |j: int| total(n, |i: int| part(i, j));
    let by_row = |i: int| total(m, |j: int| part(i, j));
    let right = |i: int| S::mul_spec(g(i), d(land(i)));
    assert forall|j: int| 0 <= j < m implies #[trigger] left(j) == by_col(j) by {
        let scaled = |i: int| S::mul_spec(d(j), here(j)(i));
        let col = |i: int| part(i, j);
        lemma_total_mul(n, d(j), here(j));
        lemma_mul(total(n, here(j)), d(j), zero());
        assert forall|i: int| 0 <= i < n implies #[trigger] scaled(i) == col(i) by {
            lemma_mul(d(j), here(j)(i), zero());
        }
        lemma_total_eq(n, scaled, col);
    }
    lemma_total_eq(m, left, by_col);
    lemma_total_swap(n, m, part);
    assert forall|i: int| 0 <= i < n implies #[trigger] by_row(i) == right(i) by {
        let row = |j: int| part(i, j);
        lemma_total_pick(m, land(i), row);
        assert(row(land(i)) == right(i));
    }
    lemma_total_eq(n, by_row, right);
    lemma_total_eq(
        m,
        |j: int|
            S::mul_spec(
                total(
                    n,
                    |i: int|
                        if land(i) == j {
                            g(i)
                        } else {
                            zero()
                        },
                ),
                d(j),
            ),
        left,
    );
}

/// A sum in another order.
pub proof fn lemma_total_reorder<S: Scalar>(
    n: nat,
    to: spec_fn(int) -> int,
    back: spec_fn(int) -> int,
    f: spec_fn(int) -> S,
)
    requires
        exact::<S>(),
        forall|i: int| 0 <= i < n ==> 0 <= #[trigger] to(i) < n && back(to(i)) == i,
        forall|j: int| 0 <= j < n ==> 0 <= #[trigger] back(j) < n && to(back(j)) == j,
    ensures
        total(n, |i: int| f(to(i))) == total(n, f),
{
    let g = |i: int| f(to(i));
    let d = |j: int| one::<S>();
    lemma_scatter(n, n, to, g, d);
    let here = |j: int|
        |i: int|
            if to(i) == j {
                g(i)
            } else {
                zero()
            };
    let landed = |j: int|
        S::mul_spec(
            total(
                n,
                |i: int|
                    if to(i) == j {
                        g(i)
                    } else {
                        zero()
                    },
            ),
            d(j),
        );
    assert forall|j: int| 0 <= j < n implies #[trigger] landed(j) == f(j) by {
        lemma_total_eq(
            n,
            |i: int|
                if to(i) == j {
                    g(i)
                } else {
                    zero()
                },
            here(j),
        );
        assert forall|i: int| 0 <= i < n && i != back(j) implies #[trigger] here(j)(i) == zero::<
            S,
        >() by {
            assert(to(i) != j) by {
                assert(back(to(i)) == i);
            }
        }
        lemma_total_pick(n, back(j), here(j));
        assert(to(back(j)) == j);
        lemma_mul(f(j), zero(), zero());
    }
    lemma_total_eq(n, landed, f);
    let moved = |i: int| S::mul_spec(g(i), d(to(i)));
    assert forall|i: int| 0 <= i < n implies #[trigger] moved(i) == g(i) by {
        lemma_mul(g(i), zero(), zero());
    }
    lemma_total_eq(n, moved, g);
}

/// The selected terms of a sum, counted through.
pub proof fn lemma_total_select<S: Scalar>(
    n: nat,
    len: nat,
    index: spec_fn(int) -> int,
    entry: spec_fn(int) -> int,
    selected: spec_fn(int) -> bool,
    f: spec_fn(int) -> S,
)
    requires
        exact::<S>(),
        forall|k: int|
            0 <= k < len ==> 0 <= #[trigger] index(k) < n && selected(index(k)) && entry(index(k))
                == k,
        forall|i: int|
            0 <= i < n && #[trigger] selected(i) ==> 0 <= entry(i) < len && index(entry(i)) == i,
    ensures
        total(
            n,
            |i: int|
                if selected(i) {
                    f(i)
                } else {
                    zero()
                },
        ) == total(len, |k: int| f(index(k))),
{
    let unit = |k: int| one::<S>();
    lemma_scatter(len, n, index, unit, f);
    let chosen = |i: int|
        if selected(i) {
            f(i)
        } else {
            zero()
        };
    let counted = |i: int|
        S::mul_spec(
            total(
                len,
                |k: int|
                    if index(k) == i {
                        unit(k)
                    } else {
                        zero()
                    },
            ),
            f(i),
        );
    assert forall|i: int| 0 <= i < n implies #[trigger] counted(i) == chosen(i) by {
        let hit = |k: int|
            if index(k) == i {
                unit(k)
            } else {
                zero()
            };
        lemma_mul(f(i), one(), zero());
        if selected(i) {
            assert forall|k: int| 0 <= k < len && k != entry(i) implies #[trigger] hit(k) == zero::<
                S,
            >() by {
                assert(entry(index(k)) == k);
            }
            lemma_total_pick(len, entry(i), hit);
        } else {
            assert forall|k: int| 0 <= k < len implies #[trigger] hit(k) == zero::<S>() by {
                assert(selected(index(k)));
            }
            lemma_total_zero(len, hit);
        }
        lemma_total_eq(
            len,
            |k: int|
                if index(k) == i {
                    unit(k)
                } else {
                    zero()
                },
            hit,
        );
    }
    lemma_total_eq(n, counted, chosen);
    let read = |k: int| S::mul_spec(unit(k), f(index(k)));
    let plain = |k: int| f(index(k));
    assert forall|k: int| 0 <= k < len implies #[trigger] read(k) == plain(k) by {
        lemma_mul(f(index(k)), one(), zero());
    }
    lemma_total_eq(len, read, plain);
}

/// A sum of products, accumulated term by term.
pub proof fn lemma_fold_total<S: Scalar>(
    n: nat,
    step: spec_fn(int, S) -> S,
    f: spec_fn(int) -> S,
)
    requires
        exact::<S>(),
        forall|k: int, acc: S| 0 <= k < n ==> #[trigger] step(k, acc) == S::add_spec(acc, f(k)),
    ensures
        fold(n, zero(), step) == total(n, f),
    decreases n,
{
    if n > 0 {
        lemma_fold_total((n - 1) as nat, step, f);
        assert(step(n - 1, fold((n - 1) as nat, zero(), step)) == S::add_spec(
            fold((n - 1) as nat, zero(), step),
            f(n - 1),
        ));
    }
}

/// Two selections that correspond to each other have the same sum.
pub proof fn lemma_total_match<S: Scalar>(
    n: nat,
    len: nat,
    index: spec_fn(int) -> int,
    on: spec_fn(int) -> bool,
    entry: spec_fn(int) -> int,
    selected: spec_fn(int) -> bool,
    f: spec_fn(int) -> S,
)
    requires
        exact::<S>(),
        forall|k: int|
            0 <= k < len && #[trigger] on(k) ==> 0 <= index(k) < n && selected(index(k)) && entry(
                index(k),
            ) == k,
        forall|i: int|
            0 <= i < n && #[trigger] selected(i) ==> 0 <= entry(i) < len && on(entry(i)) && index(
                entry(i),
            ) == i,
    ensures
        total(n, only(selected, f)) == total(len, only(on, |k: int| f(index(k)))),
{
    let pair = |i: int, k: int|
        if selected(i) && entry(i) == k {
            f(i)
        } else {
            zero()
        };
    lemma_total_swap(n, len, pair);
    let by_row = |i: int| total(len, |k: int| pair(i, k));
    let by_col = |k: int| total(n, |i: int| pair(i, k));
    assert forall|i: int| 0 <= i < n implies #[trigger] by_row(i) == only(selected, f)(i) by {
        let row = |k: int| pair(i, k);
        if selected(i) {
            lemma_total_pick(len, entry(i), row);
        } else {
            lemma_total_zero(len, row);
        }
    }
    lemma_total_eq(n, by_row, only(selected, f));
    let chosen = only(on, |k: int| f(index(k)));
    assert forall|k: int| 0 <= k < len implies #[trigger] by_col(k) == chosen(k) by {
        let col = |i: int| pair(i, k);
        if on(k) {
            assert forall|i: int| 0 <= i < n && i != index(k) implies #[trigger] col(i) == zero::<
                S,
            >() by {
                if selected(i) && entry(i) == k {
                    assert(index(entry(i)) == i);
                }
            }
            lemma_total_pick(n, index(k), col);
        } else {
            assert forall|i: int| 0 <= i < n implies #[trigger] col(i) == zero::<S>() by {
                if selected(i) {
                    assert(on(entry(i)));
                }
            }
            lemma_total_zero(n, col);
        }
    }
    lemma_total_eq(len, by_col, chosen);
}

/// The selected terms, zeros in the place of the others.
pub open spec fn only<S: Scalar>(selected: spec_fn(int) -> bool, f: spec_fn(int) -> S) -> spec_fn(
    int,
) -> S {
    |i: int|
        if selected(i) {
            f(i)
        } else {
            zero()
        }
}

/// A sum that starts from some number.
pub proof fn lemma_fold_from<S: Scalar>(
    n: nat,
    init: S,
    step: spec_fn(int, S) -> S,
    f: spec_fn(int) -> S,
)
    requires
        exact::<S>(),
        forall|k: int, acc: S| 0 <= k < n ==> #[trigger] step(k, acc) == S::add_spec(acc, f(k)),
    ensures
        fold(n, init, step) == S::add_spec(init, total(n, f)),
    decreases n,
{
    if n > 0 {
        let p = (n - 1) as nat;
        lemma_fold_from(p, init, step, f);
        assert(step(n - 1, fold(p, init, step)) == S::add_spec(fold(p, init, step), f(n - 1)));
        lemma_add(init, total(p, f), f(n - 1));
    } else {
        lemma_add(init, zero(), zero());
    }
}

} // verus!
