use vstd::prelude::*;

verus! {

/// The number of `true` entries in `s`.
pub open spec fn count_true(s: Seq<bool>) -> nat
    decreases s.len(),
{
    if s.len() == 0 {
        0
    } else {
        count_true(s.drop_last()) + if s.last() { 1nat } else { 0nat }
    }
}

/// The position of the last `true` entry in `s`, or -1 when there is none.
pub open spec fn last_true(s: Seq<bool>) -> int
    decreases s.len(),
{
    if s.len() == 0 {
        -1
    } else if s.last() {
        s.len() - 1
    } else {
        last_true(s.drop_last())
    }
}

/// The count never exceeds the length.
pub proof fn lemma_count_bound(s: Seq<bool>)
    ensures
        count_true(s) <= s.len(),
    decreases s.len(),
{
    if s.len() > 0 {
        lemma_count_bound(s.drop_last());
    }
}

/// Counting the entries after one of them is overwritten.
pub proof fn lemma_count_update(s: Seq<bool>, p: int, b: bool)
    requires
        0 <= p < s.len(),
    ensures
        count_true(s.update(p, b)) + (if s[p] { 1int } else { 0int }) == count_true(s) + (if b {
            1int
        } else {
            0int
        }),
    decreases s.len(),
{
    let t = s.update(p, b);
    if p == s.len() - 1 {
        assert(t.drop_last() =~= s.drop_last());
    } else {
        assert(t.drop_last() =~= s.drop_last().update(p, b));
        lemma_count_update(s.drop_last(), p, b);
    }
}

/// A marked entry is counted.
pub proof fn lemma_count_positive(s: Seq<bool>, p: int)
    requires
        0 <= p < s.len(),
        s[p],
    ensures
        count_true(s) >= 1,
    decreases s.len(),
{
    if p < s.len() - 1 {
        lemma_count_positive(s.drop_last(), p);
    }
}

/// With exactly one marked entry, `last_true` finds it, and it is the only one.
pub proof fn lemma_count_one(s: Seq<bool>, p: int)
    requires
        0 <= p < s.len(),
        s[p],
        count_true(s) == 1,
    ensures
        last_true(s) == p,
        forall|q: int| 0 <= q < s.len() && s[q] ==> q == p,
    decreases s.len(),
{
    if p == s.len() - 1 {
        assert forall|q: int| 0 <= q < s.len() && s[q] implies q == p by {
            if q != p {
                lemma_count_positive(s.drop_last(), q);
            }
        }
    } else {
        if s.last() {
            lemma_count_positive(s.drop_last(), p);
        }
        lemma_count_one(s.drop_last(), p);
        assert forall|q: int| 0 <= q < s.len() && s[q] implies q == p by {
            if q < s.len() - 1 {
                assert(s.drop_last()[q]);
            }
        }
    }
}

/// Some entry is marked exactly when the count is positive.
pub proof fn lemma_count_zero(s: Seq<bool>)
    ensures
        count_true(s) == 0 <==> forall|q: int| 0 <= q < s.len() ==> !s[q],
    decreases s.len(),
{
    if s.len() > 0 {
        lemma_count_zero(s.drop_last());
        if count_true(s) == 0 {
            assert forall|q: int| 0 <= q < s.len() implies !s[q] by {
                if q < s.len() - 1 {
                    assert(s.drop_last()[q] == s[q]);
                }
            }
        } else {
            if !s.last() {
                let q = choose|q: int| 0 <= q < s.drop_last().len() && s.drop_last()[q];
                assert(s[q]);
            }
        }
    }
}

/// A sequence of only `true` entries counts its length.
pub proof fn lemma_count_all(s: Seq<bool>)
    requires
        forall|q: int| 0 <= q < s.len() ==> s[q],
    ensures
        count_true(s) == s.len(),
    decreases s.len(),
{
    if s.len() > 0 {
        lemma_count_all(s.drop_last());
    }
}

/// Fewer marked entries, pointwise, give a smaller count.
pub proof fn lemma_count_mono(a: Seq<bool>, b: Seq<bool>)
    requires
        a.len() == b.len(),
        forall|q: int| 0 <= q < a.len() && #[trigger] a[q] ==> b[q],
    ensures
        count_true(a) <= count_true(b),
    decreases a.len(),
{
    if a.len() > 0 {
        lemma_count_mono(a.drop_last(), b.drop_last());
    }
}

} // verus!
