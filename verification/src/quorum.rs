//! Majority arithmetic: the greatest value that a strict majority supports.
use vstd::prelude::*;

verus! {

/// The size of the smallest strict majority among `n` members.
pub open spec fn spec_majority(n: nat) -> nat {
    1 + n / 2
}

/// The number of entries of `values` that support `x`.
///
/// A member whose value is `v` supports every `x <= v`.
pub open spec fn supporters(values: Seq<u64>, x: u64) -> nat
    decreases values.len(),
{
    if values.len() == 0 {
        0
    } else {
        supporters(values.drop_last(), x) + if x <= values.last() {
            1nat
        } else {
            0nat
        }
    }
}

/// Whether a strict majority of `values` supports `x`.
pub open spec fn is_agreed(values: Seq<u64>, x: u64) -> bool {
    supporters(values, x) >= spec_majority(values.len())
}

/// Whether `r` is the greatest value that a strict majority of `values`
/// supports.
pub open spec fn is_max_agreed(values: Seq<u64>, r: u64) -> bool {
    &&& is_agreed(values, r)
    &&& forall|x: u64| is_agreed(values, x) ==> x <= r
}

/// Whether `s` is in ascending order.
pub open spec fn ascending(s: Seq<u64>) -> bool {
    forall|i: int, j: int| 0 <= i <= j < s.len() ==> s[i] <= s[j]
}

/// No more entries support a value than there are entries.
pub proof fn lemma_supporters_bounded(values: Seq<u64>, x: u64)
    ensures
        supporters(values, x) <= values.len(),
    decreases values.len(),
{
    if values.len() > 0 {
        lemma_supporters_bounded(values.drop_last(), x);
    }
}

/// The supporters of a concatenation are those of its two parts.
pub proof fn lemma_supporters_concat(a: Seq<u64>, b: Seq<u64>, x: u64)
    ensures
        supporters(a + b, x) == supporters(a, x) + supporters(b, x),
    decreases b.len(),
{
    if b.len() == 0 {
        assert(a + b =~= a);
    } else {
        assert((a + b).drop_last() =~= a + b.drop_last());
        assert((a + b).last() == b.last());
        lemma_supporters_concat(a, b.drop_last(), x);
    }
}

/// Where every entry is at least `x`, every entry supports `x`.
pub proof fn lemma_supporters_all(values: Seq<u64>, x: u64)
    requires
        forall|i: int| 0 <= i < values.len() ==> x <= values[i],
    ensures
        supporters(values, x) == values.len(),
    decreases values.len(),
{
    if values.len() > 0 {
        lemma_supporters_all(values.drop_last(), x);
    }
}

/// Where every entry is below `x`, no entry supports `x`.
pub proof fn lemma_supporters_none(values: Seq<u64>, x: u64)
    requires
        forall|i: int| 0 <= i < values.len() ==> values[i] < x,
    ensures
        supporters(values, x) == 0,
    decreases values.len(),
{
    if values.len() > 0 {
        lemma_supporters_none(values.drop_last(), x);
    }
}

/// Inserting `v` anywhere adds one supporter to each `x <= v` and none to
/// the others.
pub proof fn lemma_supporters_insert(values: Seq<u64>, at: int, v: u64, x: u64)
    requires
        0 <= at <= values.len(),
    ensures
        supporters(values.insert(at, v), x) == supporters(values, x) + if x <= v {
            1nat
        } else {
            0nat
        },
{
    let head = values.subrange(0, at);
    let tail = values.subrange(at, values.len() as int);
    assert(values.insert(at, v) =~= (head + seq![v]) + tail);
    assert(values =~= head + tail);
    lemma_supporters_concat(head + seq![v], tail, x);
    lemma_supporters_concat(head, seq![v], x);
    lemma_supporters_concat(head, tail, x);
    assert(seq![v].drop_last() =~= Seq::<u64>::empty());
    assert(supporters(seq![v], x) == if x <= v {
        1nat
    } else {
        0nat
    }) by {
        reveal_with_fuel(supporters, 2);
    }
}

/// In an ascending sequence the entry at `k` is supported by itself and
/// all later entries, and any greater value by later entries only.
pub proof fn lemma_supporters_ascending(s: Seq<u64>, k: int, x: u64)
    requires
        ascending(s),
        0 <= k < s.len(),
    ensures
        supporters(s, s[k]) >= s.len() - k,
        x > s[k] ==> supporters(s, x) <= s.len() - k - 1,
{
    let n = s.len() as int;
    let low = s.subrange(0, k);
    let high = s.subrange(k, n);
    assert(s =~= low + high);
    lemma_supporters_concat(low, high, s[k]);
    lemma_supporters_all(high, s[k]);
    if x > s[k] {
        let low1 = s.subrange(0, k + 1);
        let high1 = s.subrange(k + 1, n);
        assert(s =~= low1 + high1);
        lemma_supporters_concat(low1, high1, x);
        lemma_supporters_none(low1, x);
        lemma_supporters_bounded(high1, x);
    }
}

/// The entries equal to `r` are those that support `r` and nothing greater.
pub proof fn lemma_supporters_occurs(s: Seq<u64>, r: u64)
    ensures
        r < u64::MAX ==> supporters(s, r) >= supporters(s, (r + 1) as u64),
        r < u64::MAX ==> (s.contains(r) <==> supporters(s, r) > supporters(s, (r + 1) as u64)),
        r == u64::MAX ==> (s.contains(r) <==> supporters(s, r) > 0),
    decreases s.len(),
{
    if s.len() > 0 {
        let init = s.drop_last();
        lemma_supporters_occurs(init, r);
        assert(s =~= init.push(s.last()));
        if s.contains(r) {
            let i = choose|i: int| 0 <= i < s.len() && s[i] == r;
            if i < init.len() {
                assert(init[i] == r);
            }
        }
        if init.contains(r) {
            let i = choose|i: int| 0 <= i < init.len() && init[i] == r;
            assert(s[i] == r);
        }
        if s.last() == r {
            assert(s[s.len() - 1] == r);
        }
    }
}

/// The entries of `v` in ascending order.
pub(crate) fn sorted_copy(v: &Vec<u64>) -> (w: Vec<u64>)
    ensures
        ascending(w@),
        w.len() == v.len(),
        forall|x: u64| supporters(w@, x) == supporters(v@, x),
{
    let mut w: Vec<u64> = Vec::new();
    let mut i: usize = 0;
    while i < v.len()
        invariant
            i <= v.len(),
            w.len() == i,
            ascending(w@),
            forall|x: u64| supporters(w@, x) == supporters(v@.take(i as int), x),
        decreases v.len() - i,
    {
        let e: u64 = v[i];
        let mut j: usize = 0;
        while j < w.len() && w[j] <= e
            invariant
                j <= w.len(),
                forall|k: int| 0 <= k < j ==> w[k] <= e,
            decreases w.len() - j,
        {
            j += 1;
        }
        proof {
            let before = w@;
            let after = before.insert(j as int, e);
            assert forall|a: int, b: int| 0 <= a <= b < after.len() implies after[a] <= after[b] by {
                if a < j && b > j {
                    assert(before[a] <= e);
                    assert(before[j as int] <= before[b - 1]);
                }
            }
            assert(v@.take(i + 1).drop_last() =~= v@.take(i as int));
            assert forall|x: u64| supporters(after, x) == supporters(v@.take(i + 1), x) by {
                lemma_supporters_insert(before, j as int, e, x);
            }
        }
        w.insert(j, e);
        i += 1;
    }
    proof {
        assert(v@.take(v.len() as int) =~= v@);
    }
    w
}

/// The greatest value that a strict majority of `values` supports, where
/// there is one.
pub open spec fn max_agreed(values: Seq<u64>) -> u64 {
    choose|r: u64| is_max_agreed(values, r)
}

/// At most one value is the greatest that a strict majority supports.
pub proof fn lemma_max_agreed_unique(values: Seq<u64>, a: u64, b: u64)
    requires
        is_max_agreed(values, a),
        is_max_agreed(values, b),
    ensures
        a == b,
        a == max_agreed(values),
{
}

} // verus!
