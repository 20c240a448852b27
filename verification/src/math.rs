//! Folds over index ranges, and bounds of nested indices.
use vstd::prelude::*;

verus! {

/// Applies `f` for the indices `0, 1, .., n - 1` in this order, starting from `init`.
pub open spec fn fold<T>(n: nat, init: T, f: spec_fn(int, T) -> T) -> T
    decreases n,
{
    if n == 0 {
        init
    } else {
        f(n - 1, fold((n - 1) as nat, init, f))
    }
}

/// Folds whose steps agree below `n` have the same result.
pub proof fn lemma_fold_eq<T>(n: nat, init: T, f: spec_fn(int, T) -> T, g: spec_fn(int, T) -> T)
    requires
        forall|k: int, acc: T| 0 <= k < n ==> #[trigger] f(k, acc) == g(k, acc),
    ensures
        fold(n, init, f) == fold(n, init, g),
    decreases n,
{
    if n > 0 {
        lemma_fold_eq((n - 1) as nat, init, f, g);
        assert(f(n - 1, fold((n - 1) as nat, init, f)) == g(n - 1, fold((n - 1) as nat, init, f)));
    }
}

/// Index `(a, b)` of an `na` by `nb` table lies within it.
pub proof fn lemma_index2(a: int, na: int, b: int, nb: int)
    requires
        0 <= a < na,
        0 <= b < nb,
    ensures
        0 <= a * nb,
        a * nb + b < na * nb,
        a * nb + nb <= na * nb,
{
    assert(0 <= a * nb && a * nb + nb <= na * nb) by (nonlinear_arith)
        requires
            0 <= a < na,
            0 < nb,
    ;
}

/// The quotient and remainder of a flat index are its two coordinates.
pub proof fn lemma_split2(t: int, na: int, nb: int)
    requires
        0 <= t < na * nb,
        0 <= na,
        0 <= nb,
    ensures
        nb > 0,
        0 <= t / nb < na,
        0 <= t % nb < nb,
        (t / nb) * nb + t % nb == t,
{
    if nb == 0 {
        assert(na * nb == 0) by (nonlinear_arith)
            requires
                nb == 0,
        ;
    }
    vstd::arithmetic::div_mod::lemma_fundamental_div_mod(t, nb);
    vstd::arithmetic::div_mod::lemma_div_pos_is_pos(t, nb);
    vstd::arithmetic::mul::lemma_mul_is_commutative(nb, t / nb);
    if t / nb >= na {
        vstd::arithmetic::mul::lemma_mul_inequality(na, t / nb, nb);
    }
}

/// A flat index is split back into the coordinates that it was made of.
pub proof fn lemma_join2(a: int, b: int, nb: int)
    requires
        0 <= a,
        0 <= b < nb,
    ensures
        (a * nb + b) / nb == a,
        (a * nb + b) % nb == b,
{
    vstd::arithmetic::div_mod::lemma_fundamental_div_mod_converse(a * nb + b, nb, a, b);
}

/// Index `(a, b, c)` of a three-dimensional table lies within it, and so do the partial sums that
/// lead to it.
pub proof fn lemma_index3(a: int, na: int, b: int, nb: int, c: int, nc: int)
    requires
        0 <= a < na,
        0 <= b < nb,
        0 <= c < nc,
    ensures
        0 <= a * nb,
        0 <= a * nb + b <= (a * nb + b) * nc,
        0 <= (a * nb + b) * nc <= (a * nb + b) * nc + c,
        (a * nb + b) * nc + c < (na * nb) * nc,
        a * nb + b < na * nb,
{
    lemma_index2(a, na, b, nb);
    lemma_index2(a * nb + b, na * nb, c, nc);
    let q = a * nb + b;
    assert(q <= q * nc) by (nonlinear_arith)
        requires
            q >= 0,
            nc >= 1,
    ;
}

/// Index `(a, b, c, d)` of a four-dimensional table lies within it, and so do the partial sums
/// that lead to it.
pub proof fn lemma_index4(a: int, na: int, b: int, nb: int, c: int, nc: int, d: int, nd: int)
    requires
        0 <= a < na,
        0 <= b < nb,
        0 <= c < nc,
        0 <= d < nd,
    ensures
        0 <= a * nb,
        0 <= a * nb + b <= (a * nb + b) * nc,
        0 <= (a * nb + b) * nc + c <= ((a * nb + b) * nc + c) * nd,
        0 <= ((a * nb + b) * nc + c) * nd <= ((a * nb + b) * nc + c) * nd + d,
        ((a * nb + b) * nc + c) * nd + d < ((na * nb) * nc) * nd,
{
    lemma_index3(a, na, b, nb, c, nc);
    lemma_index2((a * nb + b) * nc + c, (na * nb) * nc, d, nd);
    let q = (a * nb + b) * nc + c;
    assert(q <= q * nd) by (nonlinear_arith)
        requires
            q >= 0,
            nd >= 1,
    ;
}

/// A flat index into a three-dimensional table is split into its coordinates.
pub proof fn lemma_split3(t: int, na: int, nb: int, nc: int)
    requires
        0 <= t < (na * nb) * nc,
        0 <= na,
        0 <= nb,
        0 <= nc,
    ensures
        nb > 0,
        nc > 0,
        0 <= t / nc / nb < na,
        0 <= (t / nc) % nb < nb,
        0 <= t % nc < nc,
        ((t / nc / nb) * nb + (t / nc) % nb) * nc + t % nc == t,
{
    assert(0 <= na * nb) by (nonlinear_arith)
        requires
            0 <= na,
            0 <= nb,
    ;
    lemma_split2(t, na * nb, nc);
    lemma_split2(t / nc, na, nb);
}

/// A flat index into a four-dimensional table is split into its coordinates.
pub proof fn lemma_split4(t: int, na: int, nb: int, nc: int, nd: int)
    requires
        0 <= t < ((na * nb) * nc) * nd,
        0 <= na,
        0 <= nb,
        0 <= nc,
        0 <= nd,
    ensures
        nb > 0,
        nc > 0,
        nd > 0,
        0 <= t / nd / nc / nb < na,
        0 <= (t / nd / nc) % nb < nb,
        0 <= (t / nd) % nc < nc,
        0 <= t % nd < nd,
        (((t / nd / nc / nb) * nb + (t / nd / nc) % nb) * nc + (t / nd) % nc) * nd + t % nd == t,
{
    assert(0 <= (na * nb) * nc) by (nonlinear_arith)
        requires
            0 <= na,
            0 <= nb,
            0 <= nc,
    ;
    lemma_split2(t, (na * nb) * nc, nd);
    lemma_split3(t / nd, na, nb, nc);
}

} // verus!
