use vstd::prelude::*;

verus! {

/// How many entries of `s` are `true`.
pub open spec fn count_true(s: Seq<bool>) -> nat
    decreases s.len(),
{
    if s.len() == 0 {
        0
    } else {
        count_true(s.drop_last()) + if s.last() {
            1nat
        } else {
            0nat
        }
    }
}

/// No more entries are `true` than there are entries.
pub proof fn lemma_count_bound(s: Seq<bool>)
    ensures
        count_true(s) <= s.len(),
    decreases s.len(),
{
    if s.len() > 0 {
        lemma_count_bound(s.drop_last());
    }
}

/// Changing one entry changes the count by what the entry was and is.
pub proof fn lemma_count_update(s: Seq<bool>, i: int, b: bool)
    requires
        0 <= i < s.len(),
    ensures
        count_true(s.update(i, b)) + (if s[i] { 1int } else { 0int })
            == count_true(s) + (if b { 1int } else { 0int }),
    decreases s.len(),
{
    let t = s.update(i, b);
    if i == s.len() - 1 {
        assert(t.drop_last() =~= s.drop_last());
    } else {
        assert(t.drop_last() =~= s.drop_last().update(i, b));
        lemma_count_update(s.drop_last(), i, b);
    }
}

/// Where no entry is `true` the count is 0.
pub proof fn lemma_count_none(s: Seq<bool>)
    requires
        forall|i: int| 0 <= i < s.len() ==> !s[i],
    ensures
        count_true(s) == 0,
    decreases s.len(),
{
    if s.len() > 0 {
        lemma_count_none(s.drop_last());
    }
}

/// A sequence with fewer `true` entries than entries has a `false` one.
pub proof fn lemma_count_gap(s: Seq<bool>) -> (i: int)
    requires
        count_true(s) < s.len(),
    ensures
        0 <= i < s.len(),
        !s[i],
    decreases s.len(),
{
    if !s.last() {
        s.len() - 1
    } else {
        lemma_count_gap(s.drop_last())
    }
}

/// A sequence with as many `true` entries as entries holds nothing else.
pub proof fn lemma_count_full(s: Seq<bool>)
    requires
        count_true(s) == s.len(),
    ensures
        forall|i: int| 0 <= i < s.len() ==> s[i],
    decreases s.len(),
{
    if s.len() > 0 {
        lemma_count_bound(s.drop_last());
        lemma_count_full(s.drop_last());
        assert forall|i: int| 0 <= i < s.len() implies s[i] by {
            if i < s.len() - 1 {
                assert(s.drop_last()[i] == s[i]);
            }
        }
    }
}

/// The sum of the first `n` entries of `w`.
pub open spec fn full_sum(w: Seq<int>, n: nat) -> int
    decreases n,
{
    if n == 0 {
        0
    } else {
        full_sum(w, (n - 1) as nat) + w[n - 1]
    }
}

/// The sum of those among the first `n` entries of `w` whose flag in `on` is set.
pub open spec fn masked_sum(w: Seq<int>, on: Seq<bool>, n: nat) -> int
    decreases n,
{
    if n == 0 {
        0
    } else {
        masked_sum(w, on, (n - 1) as nat) + if on[n - 1] {
            w[n - 1]
        } else {
            0
        }
    }
}

/// How many of the first `n` flags are set.
pub open spec fn count_upto(on: Seq<bool>, n: nat) -> nat
    decreases n,
{
    if n == 0 {
        0
    } else {
        count_upto(on, (n - 1) as nat) + if on[n - 1] {
            1nat
        } else {
            0nat
        }
    }
}

/// Counting all flags one by one counts the `true` entries.
pub proof fn lemma_count_upto_all(on: Seq<bool>)
    ensures
        count_upto(on, on.len()) == count_true(on),
    decreases on.len(),
{
    if on.len() > 0 {
        lemma_count_upto_all(on.drop_last());
        lemma_count_upto_prefix(on, on.drop_last(), (on.len() - 1) as nat);
    }
}

/// Flags that agree on the first `n` places have the same count there.
pub proof fn lemma_count_upto_prefix(a: Seq<bool>, b: Seq<bool>, n: nat)
    requires
        n <= a.len(),
        n <= b.len(),
        forall|i: int| 0 <= i < n ==> a[i] == b[i],
    ensures
        count_upto(a, n) == count_upto(b, n),
    decreases n,
{
    if n > 0 {
        lemma_count_upto_prefix(a, b, (n - 1) as nat);
    }
}

/// Leaving non-negative terms out cannot raise a sum.
pub proof fn lemma_masked_below_full(w: Seq<int>, on: Seq<bool>, n: nat)
    requires
        n <= w.len(),
        n <= on.len(),
        forall|i: int| 0 <= i < n ==> w[i] >= 0,
    ensures
        masked_sum(w, on, n) <= full_sum(w, n),
    decreases n,
{
    if n > 0 {
        lemma_masked_below_full(w, on, (n - 1) as nat);
    }
}

/// Leaving non-positive terms out cannot lower a sum.
pub proof fn lemma_masked_above_full(w: Seq<int>, on: Seq<bool>, n: nat)
    requires
        n <= w.len(),
        n <= on.len(),
        forall|i: int| 0 <= i < n ==> w[i] <= 0,
    ensures
        masked_sum(w, on, n) >= full_sum(w, n),
    decreases n,
{
    if n > 0 {
        lemma_masked_above_full(w, on, (n - 1) as nat);
    }
}

/// Leaving out only zeros keeps a sum.
pub proof fn lemma_masked_is_full(w: Seq<int>, on: Seq<bool>, n: nat)
    requires
        n <= w.len(),
        n <= on.len(),
        forall|i: int| 0 <= i < n && !on[i] ==> w[i] == 0,
    ensures
        masked_sum(w, on, n) == full_sum(w, n),
    decreases n,
{
    if n > 0 {
        lemma_masked_is_full(w, on, (n - 1) as nat);
    }
}

/// Setting one more flag adds that entry to the sum.
pub proof fn lemma_masked_set(w: Seq<int>, on: Seq<bool>, k: int, n: nat)
    requires
        n <= w.len(),
        n <= on.len(),
        0 <= k < on.len(),
        !on[k],
    ensures
        masked_sum(w, on.update(k, true), n) == masked_sum(w, on, n) + if k < n {
            w[k]
        } else {
            0
        },
    decreases n,
{
    if n > 0 {
        lemma_masked_set(w, on, k, (n - 1) as nat);
    }
}

/// The flagged entries of `w` and of `t - w` add up to `t` for each flag set.
pub proof fn lemma_masked_complement(w: Seq<int>, c: Seq<int>, on: Seq<bool>, t: int, n: nat)
    requires
        n <= w.len(),
        n <= c.len(),
        n <= on.len(),
        forall|i: int| 0 <= i < n ==> c[i] == t - w[i],
    ensures
        masked_sum(w, on, n) + masked_sum(c, on, n) == t * count_upto(on, n),
    decreases n,
{
    if n > 0 {
        lemma_masked_complement(w, c, on, t, (n - 1) as nat);
        let k = count_upto(on, (n - 1) as nat) as int;
        let m = count_upto(on, n) as int;
        assert(m == k + if on[n - 1] { 1int } else { 0int });
        assert(t * m == t * k + if on[n - 1] { t } else { 0int }) by (nonlinear_arith)
            requires
                m == k + if on[n - 1] { 1int } else { 0int },
        ;
        assert(c[n - 1] == t - w[n - 1]);
    } else {
        assert(t * 0 == 0);
    }
}

} // verus!
