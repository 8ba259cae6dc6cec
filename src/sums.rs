use vstd::prelude::*;

verus! {

/// Whether `x` can be stored in an `i32`.
pub open spec fn fits_i32(x: int) -> bool {
    i32::MIN <= x <= i32::MAX
}

/// The sum of all elements of `s`.
pub open spec fn seq_sum(s: Seq<int>) -> int
    decreases s.len(),
{
    if s.len() == 0 {
        0
    } else {
        seq_sum(s.drop_last()) + s.last()
    }
}

/// `s` with every element whose index, counted from `base`, lies outside
/// `[qlo, qhi)` replaced by zero.
pub open spec fn masked(s: Seq<int>, base: int, qlo: int, qhi: int) -> Seq<int> {
    Seq::new(s.len(), |i: int| if qlo <= base + i < qhi { s[i] } else { 0 })
}

/// The sum of the elements of `s` whose index, counted from `base`, lies in
/// `[qlo, qhi)`.
pub open spec fn window_total(s: Seq<int>, base: int, qlo: int, qhi: int) -> int {
    seq_sum(masked(s, base, qlo, qhi))
}

/// `n` zeros.
pub open spec fn zeros(n: nat) -> Seq<int> {
    Seq::new(n, |i: int| 0)
}

pub proof fn lemma_sum_concat(a: Seq<int>, b: Seq<int>)
    ensures
        seq_sum(a + b) == seq_sum(a) + seq_sum(b),
    decreases b.len(),
{
    if b.len() == 0 {
        assert(a + b =~= a);
    } else {
        lemma_sum_concat(a, b.drop_last());
        assert((a + b).drop_last() =~= a + b.drop_last());
    }
}

pub proof fn lemma_sum_zeros(s: Seq<int>)
    requires
        forall|i: int| 0 <= i < s.len() ==> s[i] == 0,
    ensures
        seq_sum(s) == 0,
    decreases s.len(),
{
    if s.len() > 0 {
        lemma_sum_zeros(s.drop_last());
    }
}

pub proof fn lemma_sum_update(s: Seq<int>, i: int, x: int)
    requires
        0 <= i < s.len(),
    ensures
        seq_sum(s.update(i, x)) == seq_sum(s) - s[i] + x,
    decreases s.len(),
{
    if i == s.len() - 1 {
        assert(s.update(i, x).drop_last() =~= s.drop_last());
    } else {
        lemma_sum_update(s.drop_last(), i, x);
        assert(s.update(i, x).drop_last() =~= s.drop_last().update(i, x));
    }
}

/// A sequence of `i32` values sums to at most its length times 2^31 in
/// absolute value.
pub proof fn lemma_sum_bound(s: Seq<int>)
    requires
        forall|i: int| 0 <= i < s.len() ==> fits_i32(#[trigger] s[i]),
    ensures
        -(s.len() * 0x8000_0000) <= seq_sum(s) <= s.len() * 0x8000_0000,
    decreases s.len(),
{
    if s.len() > 0 {
        let t = s.drop_last();
        assert forall|i: int| 0 <= i < t.len() implies fits_i32(#[trigger] t[i]) by {
            assert(t[i] == s[i]);
        }
        lemma_sum_bound(t);
        assert(fits_i32(s[s.len() - 1]));
    }
}

/// The window sum of a concatenation splits into the window sums of its
/// two parts.
pub proof fn lemma_window_concat(a: Seq<int>, b: Seq<int>, base: int, qlo: int, qhi: int)
    ensures
        window_total(a + b, base, qlo, qhi) == window_total(a, base, qlo, qhi) + window_total(
            b,
            base + a.len(),
            qlo,
            qhi,
        ),
{
    assert(masked(a + b, base, qlo, qhi) =~= masked(a, base, qlo, qhi) + masked(
        b,
        base + a.len(),
        qlo,
        qhi,
    ));
    lemma_sum_concat(masked(a, base, qlo, qhi), masked(b, base + a.len(), qlo, qhi));
}

/// Adding `delta` at one index changes a window sum by `delta` exactly when
/// the index lies in the window.
pub proof fn lemma_window_update(s: Seq<int>, base: int, i: int, delta: int, qlo: int, qhi: int)
    requires
        0 <= i < s.len(),
    ensures
        window_total(s.update(i, s[i] + delta), base, qlo, qhi) == window_total(s, base, qlo, qhi)
            + if qlo <= base + i < qhi {
            delta
        } else {
            0
        },
{
    let m = masked(s, base, qlo, qhi);
    if qlo <= base + i < qhi {
        assert(masked(s.update(i, s[i] + delta), base, qlo, qhi) =~= m.update(i, m[i] + delta));
        lemma_sum_update(m, i, m[i] + delta);
    } else {
        assert(masked(s.update(i, s[i] + delta), base, qlo, qhi) =~= m);
    }
}

/// A window that holds all of `s` sums to the sum of `s`.
pub proof fn lemma_window_full(s: Seq<int>, base: int, qlo: int, qhi: int)
    requires
        qlo <= base,
        base + s.len() <= qhi,
    ensures
        window_total(s, base, qlo, qhi) == seq_sum(s),
{
    assert(masked(s, base, qlo, qhi) =~= s);
}

/// A window that holds none of `s` sums to zero.
pub proof fn lemma_window_empty(s: Seq<int>, base: int, qlo: int, qhi: int)
    requires
        qhi <= base || base + s.len() <= qlo || qhi <= qlo,
    ensures
        window_total(s, base, qlo, qhi) == 0,
{
    lemma_sum_zeros(masked(s, base, qlo, qhi));
}

/// Any window of zeros sums to zero.
pub proof fn lemma_window_zeros(n: nat, base: int, qlo: int, qhi: int)
    ensures
        window_total(zeros(n), base, qlo, qhi) == 0,
{
    lemma_sum_zeros(masked(zeros(n), base, qlo, qhi));
}

/// A window of `i32` values sums to at most the length times 2^31 in
/// absolute value.
pub proof fn lemma_window_bound(s: Seq<int>, base: int, qlo: int, qhi: int)
    requires
        forall|i: int| 0 <= i < s.len() ==> fits_i32(#[trigger] s[i]),
    ensures
        -(s.len() * 0x8000_0000) <= window_total(s, base, qlo, qhi) <= s.len() * 0x8000_0000,
{
    let m = masked(s, base, qlo, qhi);
    assert forall|i: int| 0 <= i < m.len() implies fits_i32(#[trigger] m[i]) by {
        assert(fits_i32(s[i]));
    }
    lemma_sum_bound(m);
}

} // verus!
