//! Order-preserving counters. A tally is an association list from keys
//! to weighted totals: keys appear in first-encounter order, which makes
//! every argmax tie-break deterministic ("first key reaching the
//! maximum"). Totals saturate at `u64::MAX`; the contracts state the
//! saturation exactly.

use vstd::prelude::*;

verus! {

/// The ghost content of a tally entry list.
pub open spec fn entries_view(m: Seq<(String, u64)>) -> Seq<(Seq<char>, int)> {
    m.map_values(|p: (String, u64)| (p.0@, p.1 as int))
}

/// The first index holding key `k`, or -1.
pub open spec fn key_idx(t: Seq<(Seq<char>, int)>, k: Seq<char>) -> int
    decreases t.len(),
{
    if t.len() == 0 {
        -1
    } else if t[0].0 == k {
        0
    } else {
        let r = key_idx(t.drop_first(), k);
        if r < 0 {
            -1
        } else {
            1 + r
        }
    }
}

pub open spec fn clamp64(v: int) -> int {
    if v > u64::MAX {
        u64::MAX as int
    } else {
        v
    }
}

/// The tally of a pair sequence: one entry per distinct key, in
/// first-encounter order, holding the key's summed weight.
pub open spec fn spec_tally(pairs: Seq<(Seq<char>, int)>) -> Seq<(Seq<char>, int)>
    decreases pairs.len(),
{
    if pairs.len() == 0 {
        Seq::<(Seq<char>, int)>::empty()
    } else {
        let rest = spec_tally(pairs.drop_last());
        let k = pairs.last().0;
        let w = pairs.last().1;
        let i = key_idx(rest, k);
        if i >= 0 {
            rest.update(i, (k, rest[i].1 + w))
        } else {
            rest.push((k, w))
        }
    }
}

pub proof fn lemma_key_idx_range(t: Seq<(Seq<char>, int)>, k: Seq<char>)
    ensures
        -1 <= key_idx(t, k) < t.len(),
        key_idx(t, k) >= 0 ==> t[key_idx(t, k)].0 == k,
    decreases t.len(),
{
    if t.len() > 0 && t[0].0 != k {
        lemma_key_idx_range(t.drop_first(), k);
    }
}

pub proof fn lemma_key_idx_at(t: Seq<(Seq<char>, int)>, k: Seq<char>, i: int)
    requires
        0 <= i < t.len(),
        t[i].0 == k,
        forall|j: int| 0 <= j < i ==> t[j].0 != k,
    ensures
        key_idx(t, k) == i,
    decreases i,
{
    if i > 0 {
        assert(forall|j: int| 0 <= j < i - 1 ==> t.drop_first()[j].0 != k);
        assert(t.drop_first()[i - 1].0 == k);
        lemma_key_idx_at(t.drop_first(), k, i - 1);
    }
}

pub proof fn lemma_key_idx_none(t: Seq<(Seq<char>, int)>, k: Seq<char>)
    requires
        forall|j: int| 0 <= j < t.len() ==> t[j].0 != k,
    ensures
        key_idx(t, k) == -1,
    decreases t.len(),
{
    if t.len() > 0 {
        assert(forall|j: int| 0 <= j < t.len() - 1 ==> t.drop_first()[j].0 != k);
        lemma_key_idx_none(t.drop_first(), k);
    }
}

/// The keys of a tally are distinct.
pub proof fn lemma_tally_distinct(pairs: Seq<(Seq<char>, int)>)
    ensures
        forall|i: int, j: int|
            0 <= i < j < spec_tally(pairs).len() ==> #[trigger] spec_tally(pairs)[i].0
                != #[trigger] spec_tally(pairs)[j].0,
    decreases pairs.len(),
{
    if pairs.len() > 0 {
        lemma_tally_distinct(pairs.drop_last());
        let rest = spec_tally(pairs.drop_last());
        let k = pairs.last().0;
        lemma_key_idx_range(rest, k);
        if key_idx(rest, k) < 0 {
            assert forall|j: int| 0 <= j < rest.len() implies rest[j].0 != k by {
                if rest[j].0 == k {
                    lemma_key_idx_at_exists(rest, k, j);
                }
            }
        }
    }
}

/// If some index holds the key, `key_idx` finds one.
pub proof fn lemma_key_idx_at_exists(t: Seq<(Seq<char>, int)>, k: Seq<char>, i: int)
    requires
        0 <= i < t.len(),
        t[i].0 == k,
    ensures
        key_idx(t, k) >= 0,
    decreases i,
{
    if t[0].0 != k {
        assert(t.drop_first()[i - 1].0 == k);
        lemma_key_idx_at_exists(t.drop_first(), k, i - 1);
    }
}

/// Adds `w` to the key's total, saturating at `u64::MAX`, appending a
/// fresh entry when the key is new.
pub fn tally_add(m: &mut Vec<(String, u64)>, key: &String, w: u64)
    ensures
        ({
            let om = entries_view(old(m)@);
            let nm = entries_view(final (m)@);
            let i = key_idx(om, key@);
            if i >= 0 {
                nm == om.update(i, (key@, clamp64(om[i].1 + w)))
            } else {
                nm == om.push((key@, w as int))
            }
        }),
{
    let ghost om = entries_view(m@);
    let n = m.len();
    let mut i: usize = 0;
    while i < n
        invariant
            0 <= i <= n,
            n == m@.len(),
            m@ == old(m)@,
            om == entries_view(old(m)@),
            forall|j: int| 0 <= j < i ==> om[j].0 != key@,
        decreases n - i,
    {
        let e = m.get(i).unwrap();
        if e.0 == *key {
            proof {
                assert(om[i as int].0 == key@);
                lemma_key_idx_at(om, key@, i as int);
            }
            let kclone = e.0.clone();
            let oldv = e.1;
            let nv: u64 = if oldv > u64::MAX - w {
                u64::MAX
            } else {
                oldv + w
            };
            m.set(i, (kclone, nv));
            proof {
                assert(entries_view(m@) =~= om.update(i as int, (key@, clamp64(om[i as int].1 + w))));
            }
            return ;
        }
        proof {
            assert(om[i as int].0 != key@);
        }
        i = i + 1;
    }
    proof {
        lemma_key_idx_none(om, key@);
    }
    m.push((key.clone(), w));
    proof {
        assert(entries_view(m@) =~= om.push((key@, w as int)));
    }
}

/// The index the scanning argmax settles on: the first entry whose
/// value reaches the maximum.
pub open spec fn argmax_idx(t: Seq<(Seq<char>, int)>) -> int
    decreases t.len(),
{
    if t.len() <= 1 {
        0
    } else {
        let j = argmax_idx(t.drop_last());
        if t.last().1 > t[j].1 {
            t.len() - 1
        } else {
            j
        }
    }
}

/// The argmax index is in range, its value is the maximum, and every
/// earlier entry is strictly below it.
pub proof fn lemma_argmax(t: Seq<(Seq<char>, int)>)
    requires
        t.len() > 0,
    ensures
        0 <= argmax_idx(t) < t.len(),
        forall|i: int| #![trigger t[i]] 0 <= i < t.len() ==> t[i].1 <= t[argmax_idx(t)].1,
        forall|i: int| #![trigger t[i]] 0 <= i < argmax_idx(t) ==> t[i].1 < t[argmax_idx(t)].1,
    decreases t.len(),
{
    if t.len() > 1 {
        lemma_argmax(t.drop_last());
        let j = argmax_idx(t.drop_last());
        assert(t.drop_last()[j] == t[j]);
        assert forall|i: int| #![trigger t[i]] 0 <= i < t.len() implies t[i].1
            <= t[argmax_idx(t)].1 by {
            if i < t.len() - 1 {
                assert(t.drop_last()[i] == t[i]);
            }
        }
        assert forall|i: int| #![trigger t[i]] 0 <= i < argmax_idx(t) implies t[i].1 < t[argmax_idx(
            t,
        )].1 by {
            if i < t.len() - 1 {
                assert(t.drop_last()[i] == t[i]);
            }
        }
    }
}

/// The first entry holding the maximum value, by a front-to-back scan
/// that replaces only on a strictly greater value.
pub fn argmax_first(m: &Vec<(String, u64)>) -> (r: (String, u64))
    requires
        m@.len() > 0,
    ensures
        ({
            let t = entries_view(m@);
            let i = argmax_idx(t);
            r.0@ == t[i].0 && r.1 as int == t[i].1
        }),
{
    let ghost t = entries_view(m@);
    let n = m.len();
    let mut best: usize = 0;
    let mut i: usize = 1;
    while i < n
        invariant
            1 <= i <= n,
            n == t.len(),
            t == entries_view(m@),
            0 <= best < i,
            best == argmax_idx(t.take(i as int)),
        decreases n - i,
    {
        proof {
            assert(t.take(i as int + 1).drop_last() =~= t.take(i as int));
            assert(t.take(i as int + 1).last() == t[i as int]);
            lemma_argmax(t.take(i as int));
        }
        if m.get(i).unwrap().1 > m.get(best).unwrap().1 {
            best = i;
        }
        i = i + 1;
    }
    proof {
        assert(t.take(n as int) =~= t);
    }
    let e = m.get(best).unwrap();
    (e.0.clone(), e.1)
}

/// The summed totals of a tally.
pub open spec fn sum_vals(t: Seq<(Seq<char>, int)>) -> int
    decreases t.len(),
{
    if t.len() == 0 {
        0
    } else {
        sum_vals(t.drop_last()) + t.last().1
    }
}

pub proof fn lemma_sum_vals_update(t: Seq<(Seq<char>, int)>, i: int, w: int)
    requires
        0 <= i < t.len(),
    ensures
        sum_vals(t.update(i, (t[i].0, t[i].1 + w))) == sum_vals(t) + w,
    decreases t.len(),
{
    let u = t.update(i, (t[i].0, t[i].1 + w));
    if i == t.len() - 1 {
        assert(u.drop_last() =~= t.drop_last());
        assert(u.last() == (t[i].0, t[i].1 + w));
    } else {
        assert(u.drop_last() =~= t.drop_last().update(i, (t[i].0, t[i].1 + w)));
        assert(t.drop_last()[i] == t[i]);
        lemma_sum_vals_update(t.drop_last(), i, w);
        assert(u.last() == t.last());
    }
}

pub proof fn lemma_sum_vals_push(t: Seq<(Seq<char>, int)>, k: Seq<char>, w: int)
    ensures
        sum_vals(t.push((k, w))) == sum_vals(t) + w,
{
    assert(t.push((k, w)).drop_last() =~= t);
}

/// The summed weights of a pair sequence.
pub open spec fn total_weight(p: Seq<(Seq<char>, int)>) -> int
    decreases p.len(),
{
    if p.len() == 0 {
        0
    } else {
        total_weight(p.drop_last()) + p.last().1
    }
}

/// A tally's totals add up to the summed weights of what was tallied.
pub proof fn lemma_tally_sum(pairs: Seq<(Seq<char>, int)>)
    ensures
        sum_vals(spec_tally(pairs)) == total_weight(pairs),
    decreases pairs.len(),
{
    if pairs.len() > 0 {
        lemma_tally_sum(pairs.drop_last());
        let rest = spec_tally(pairs.drop_last());
        let k = pairs.last().0;
        let w = pairs.last().1;
        let i = key_idx(rest, k);
        lemma_key_idx_range(rest, k);
        if i >= 0 {
            lemma_sum_vals_update(rest, i, w);
        } else {
            lemma_sum_vals_push(rest, k, w);
        }
    }
}

/// A tally with every total clamped at `u64::MAX`: what the saturating
/// arithmetic of the executable counters yields.
pub open spec fn clamped(t: Seq<(Seq<char>, int)>) -> Seq<(Seq<char>, int)> {
    t.map_values(|p: (Seq<char>, int)| (p.0, clamp64(p.1)))
}

pub proof fn lemma_tally_len(pairs: Seq<(Seq<char>, int)>)
    ensures
        spec_tally(pairs).len() <= pairs.len(),
        pairs.len() > 0 ==> spec_tally(pairs).len() >= 1,
    decreases pairs.len(),
{
    if pairs.len() > 0 {
        lemma_tally_len(pairs.drop_last());
        lemma_key_idx_range(spec_tally(pairs.drop_last()), pairs.last().0);
    }
}

pub proof fn lemma_sat_matches_clamped(a: Seq<(Seq<char>, int)>, t: Seq<(Seq<char>, int)>)
    requires
        sat_matches(a, t),
    ensures
        a == clamped(t),
{
    assert(a =~= clamped(t));
}

pub proof fn lemma_unit_total_weight(pairs: Seq<(Seq<char>, int)>)
    requires
        forall|i: int| 0 <= i < pairs.len() ==> (#[trigger] pairs[i]).1 == 1,
    ensures
        total_weight(pairs) == pairs.len(),
    decreases pairs.len(),
{
    if pairs.len() > 0 {
        assert(forall|i: int|
            0 <= i < pairs.drop_last().len() ==> (#[trigger] pairs.drop_last()[i]) == pairs[i]);
        lemma_unit_total_weight(pairs.drop_last());
    }
}

/// Non-negative weights make every tally total non-negative.
pub proof fn lemma_tally_vals_nonneg(pairs: Seq<(Seq<char>, int)>)
    requires
        forall|i: int| 0 <= i < pairs.len() ==> (#[trigger] pairs[i]).1 >= 0,
    ensures
        forall|j: int| 0 <= j < spec_tally(pairs).len() ==> (#[trigger] spec_tally(pairs)[j]).1
            >= 0,
    decreases pairs.len(),
{
    if pairs.len() > 0 {
        assert(forall|i: int|
            0 <= i < pairs.drop_last().len() ==> (#[trigger] pairs.drop_last()[i]) == pairs[i]);
        lemma_tally_vals_nonneg(pairs.drop_last());
        let rest = spec_tally(pairs.drop_last());
        let k = pairs.last().0;
        let w = pairs.last().1;
        let i = key_idx(rest, k);
        lemma_key_idx_range(rest, k);
        assert(pairs.last().1 >= 0);
        if i >= 0 {
            assert forall|j: int| 0 <= j < spec_tally(pairs).len() implies (#[trigger] spec_tally(
                pairs,
            )[j]).1 >= 0 by {
                if j != i {
                    assert(spec_tally(pairs)[j] == rest[j]);
                }
            }
        } else {
            assert forall|j: int| 0 <= j < spec_tally(pairs).len() implies (#[trigger] spec_tally(
                pairs,
            )[j]).1 >= 0 by {
                if j < rest.len() {
                    assert(spec_tally(pairs)[j] == rest[j]);
                }
            }
        }
    }
}

pub proof fn lemma_sum_vals_nonneg(t: Seq<(Seq<char>, int)>)
    requires
        forall|j: int| 0 <= j < t.len() ==> (#[trigger] t[j]).1 >= 0,
    ensures
        sum_vals(t) >= 0,
    decreases t.len(),
{
    if t.len() > 0 {
        assert(forall|j: int|
            0 <= j < t.drop_last().len() ==> (#[trigger] t.drop_last()[j]) == t[j]);
        lemma_sum_vals_nonneg(t.drop_last());
    }
}

/// With non-negative totals, no single total exceeds their sum.
pub proof fn lemma_entry_le_sum(t: Seq<(Seq<char>, int)>)
    requires
        forall|j: int| 0 <= j < t.len() ==> (#[trigger] t[j]).1 >= 0,
    ensures
        forall|j: int| 0 <= j < t.len() ==> (#[trigger] t[j]).1 <= sum_vals(t),
    decreases t.len(),
{
    if t.len() > 0 {
        assert(forall|j: int|
            0 <= j < t.drop_last().len() ==> (#[trigger] t.drop_last()[j]) == t[j]);
        lemma_entry_le_sum(t.drop_last());
        lemma_sum_vals_nonneg(t.drop_last());
        assert forall|j: int| 0 <= j < t.len() implies (#[trigger] t[j]).1 <= sum_vals(t) by {
            if j < t.len() - 1 {
                assert(t.drop_last()[j] == t[j]);
            }
        }
    }
}

/// Saturated correspondence: `a` is `t` with every total clamped at
/// `u64::MAX`, and every true total non-negative.
pub open spec fn sat_matches(a: Seq<(Seq<char>, int)>, t: Seq<(Seq<char>, int)>) -> bool {
    a.len() == t.len() && forall|i: int|
        #![trigger a[i]]
        #![trigger t[i]]
        0 <= i < a.len() ==> a[i].0 == t[i].0 && a[i].1 == clamp64(t[i].1) && t[i].1 >= 0
}

/// `key_idx` sees only keys, so corresponding lists agree on it.
pub proof fn lemma_key_idx_same(a: Seq<(Seq<char>, int)>, t: Seq<(Seq<char>, int)>, k: Seq<char>)
    requires
        a.len() == t.len(),
        forall|i: int| #![trigger a[i]] 0 <= i < a.len() ==> a[i].0 == t[i].0,
    ensures
        key_idx(a, k) == key_idx(t, k),
    decreases a.len(),
{
    if a.len() > 0 {
        assert(a[0].0 == t[0].0);
        assert forall|i: int| #![trigger a.drop_first()[i]] 0 <= i < a.drop_first().len() implies a.drop_first()[i].0
            == t.drop_first()[i].0 by {
            assert(a.drop_first()[i] == a[i + 1]);
            assert(t.drop_first()[i] == t[i + 1]);
        }
        lemma_key_idx_same(a.drop_first(), t.drop_first(), k);
    }
}

/// One saturated `tally_add` step tracks one exact `spec_tally` step.
pub proof fn lemma_tally_step(
    a: Seq<(Seq<char>, int)>,
    t: Seq<(Seq<char>, int)>,
    k: Seq<char>,
    w: int,
)
    requires
        sat_matches(a, t),
        0 <= w <= u64::MAX,
    ensures
        ({
            let i = key_idx(a, k);
            if i >= 0 {
                sat_matches(a.update(i, (k, clamp64(a[i].1 + w))), t.update(i, (k, t[i].1 + w)))
            } else {
                sat_matches(a.push((k, w)), t.push((k, w)))
            }
        }),
{
    lemma_key_idx_same(a, t, k);
    lemma_key_idx_range(a, k);
    let i = key_idx(a, k);
    if i >= 0 {
        assert(a[i].1 == clamp64(t[i].1));
        assert(clamp64(a[i].1 + w) == clamp64(t[i].1 + w));
        let a2 = a.update(i, (k, clamp64(a[i].1 + w)));
        let t2 = t.update(i, (k, t[i].1 + w));
        assert forall|j: int|
            #![trigger a2[j]]
            #![trigger t2[j]]
            0 <= j < a2.len() implies a2[j].0 == t2[j].0 && a2[j].1 == clamp64(t2[j].1) && t2[j].1
            >= 0 by {
            if j != i {
                assert(a2[j] == a[j]);
                assert(t2[j] == t[j]);
            }
        }
    } else {
        let a2 = a.push((k, w));
        let t2 = t.push((k, w));
        assert forall|j: int|
            #![trigger a2[j]]
            #![trigger t2[j]]
            0 <= j < a2.len() implies a2[j].0 == t2[j].0 && a2[j].1 == clamp64(t2[j].1) && t2[j].1
            >= 0 by {
            if j < a.len() {
                assert(a2[j] == a[j]);
                assert(t2[j] == t[j]);
            }
        }
    }
}

} // verus!
