//! The statistics engine: frequency, duration and price totals, the
//! argmax aggregates, and the monthly distribution, all over one record
//! subset.

use crate::calendar::{day_index, lemma_day_index_range, valid_date, ym_label, year_month_label};
use crate::records::{wf_record, BorrowRecord, RecView};
use crate::tally::{
    argmax_first, argmax_idx, clamp64, clamped, entries_view, lemma_argmax, lemma_entry_le_sum,
    lemma_sat_matches_clamped, lemma_tally_len, lemma_tally_step, lemma_tally_sum,
    lemma_tally_vals_nonneg, lemma_unit_total_weight, sat_matches, spec_tally, sum_vals, tally_add,
};
use vstd::prelude::*;

verus! {

/// The ghost content of a record vector.
pub open spec fn recs_view(records: Seq<BorrowRecord>) -> Seq<RecView> {
    records.map_values(|r: BorrowRecord| r@)
}

pub open spec fn all_wf(recs: Seq<RecView>) -> bool {
    forall|i: int| 0 <= i < recs.len() ==> wf_record(#[trigger] recs[i])
}

/// Reading duration of one record in days: return minus borrow date,
/// floored at zero; exactly 30 when there is no return date (a fixed
/// policy, not an average).
pub open spec fn duration_of(r: RecView) -> int {
    match r.return_date {
        Some(rd) => {
            let d = day_index(rd) - day_index(r.borrow_date);
            if d < 0 {
                0
            } else {
                d
            }
        },
        None => 30,
    }
}

pub proof fn lemma_duration_bounds(r: RecView)
    requires
        wf_record(r),
    ensures
        0 <= duration_of(r) < 4000000,
{
    lemma_day_index_range(r.borrow_date);
    match r.return_date {
        Some(rd) => {
            lemma_day_index_range(rd);
            crate::calendar::lemma_days_before_year_bounds(10000);
        },
        None => {},
    }
}

pub fn record_duration(r: &BorrowRecord) -> (d: u64)
    requires
        wf_record(r@),
    ensures
        d as int == duration_of(r@),
{
    match &r.return_date {
        Some(rd) => {
            let a = crate::calendar::day_index_of(rd);
            let b = crate::calendar::day_index_of(&r.borrow_date);
            proof {
                lemma_day_index_range(*rd);
                lemma_day_index_range(r@.borrow_date);
            }
            if a <= b {
                0
            } else {
                (a - b) as u64
            }
        },
        None => 30,
    }
}

/// The mathematical duration total of a record set.
pub open spec fn duration_sum(recs: Seq<RecView>) -> int
    decreases recs.len(),
{
    if recs.len() == 0 {
        0
    } else {
        duration_sum(recs.drop_last()) + duration_of(recs.last())
    }
}

/// The duration total, saturating at `u64::MAX`.
pub fn calculate_total_reading_duration(records: &Vec<BorrowRecord>) -> (t: u64)
    requires
        all_wf(recs_view(records@)),
    ensures
        t as int == clamp64(duration_sum(recs_view(records@))),
{
    let ghost rv = recs_view(records@);
    let n = records.len();
    let mut t: u64 = 0;
    let mut i: usize = 0;
    while i < n
        invariant
            0 <= i <= n,
            n == rv.len(),
            rv == recs_view(records@),
            all_wf(rv),
            t as int == clamp64(duration_sum(rv.take(i as int))),
        decreases n - i,
    {
        proof {
            assert(rv.take(i as int + 1).drop_last() =~= rv.take(i as int));
            assert(rv.take(i as int + 1).last() == rv[i as int]);
            lemma_duration_bounds(rv[i as int]);
            lemma_duration_sum_nonneg(rv.take(i as int));
        }
        let d = record_duration(records.get(i).unwrap());
        t = if t > u64::MAX - d {
            u64::MAX
        } else {
            t + d
        };
        i = i + 1;
    }
    proof {
        assert(rv.take(n as int) =~= rv);
    }
    t
}

pub proof fn lemma_duration_sum_nonneg(recs: Seq<RecView>)
    ensures
        duration_sum(recs) >= 0,
    decreases recs.len(),
{
    if recs.len() > 0 {
        lemma_duration_sum_nonneg(recs.drop_last());
        match recs.last().return_date {
            Some(rd) => {},
            None => {},
        }
    }
}

/// The mathematical price total of a record set, in cents.
pub open spec fn price_sum(recs: Seq<RecView>) -> int
    decreases recs.len(),
{
    if recs.len() == 0 {
        0
    } else {
        price_sum(recs.drop_last()) + recs.last().price_cents
    }
}

/// Every record view taken from an actual record holds a `u64` price.
pub open spec fn prices_in_range(recs: Seq<RecView>) -> bool {
    forall|i: int| 0 <= i < recs.len() ==> 0 <= #[trigger] recs[i].price_cents <= u64::MAX
}

/// The price total in cents, saturating at `u64::MAX`.
pub fn total_price_cents(records: &Vec<BorrowRecord>) -> (t: u64)
    ensures
        t as int == clamp64(price_sum(recs_view(records@))),
{
    let ghost rv = recs_view(records@);
    proof {
        assert forall|i: int| 0 <= i < rv.len() implies 0 <= #[trigger] rv[i].price_cents
            <= u64::MAX by {
            assert(rv[i] == records@[i]@);
        }
    }
    let n = records.len();
    let mut t: u64 = 0;
    let mut i: usize = 0;
    while i < n
        invariant
            0 <= i <= n,
            n == rv.len(),
            rv == recs_view(records@),
            prices_in_range(rv),
            t as int == clamp64(price_sum(rv.take(i as int))),
        decreases n - i,
    {
        proof {
            assert(rv.take(i as int + 1).drop_last() =~= rv.take(i as int));
            assert(rv.take(i as int + 1).last() == rv[i as int]);
            lemma_price_sum_nonneg(rv.take(i as int));
        }
        let d = records.get(i).unwrap().price_cents;
        t = if t > u64::MAX - d {
            u64::MAX
        } else {
            t + d
        };
        i = i + 1;
    }
    proof {
        assert(rv.take(n as int) =~= rv);
    }
    t
}

pub proof fn lemma_price_sum_nonneg(recs: Seq<RecView>)
    requires
        prices_in_range(recs),
    ensures
        price_sum(recs) >= 0,
    decreases recs.len(),
{
    if recs.len() > 0 {
        assert(forall|i: int|
            0 <= i < recs.drop_last().len() ==> #[trigger] recs.drop_last()[i]
                == recs[i]);
        lemma_price_sum_nonneg(recs.drop_last());
    }
}

/// Which field of a record a tally groups by.
#[derive(Clone, Copy)]
pub enum StatKey {
    Author,
    Category,
    Title,
    Reader,
    /// The `year-month` label of the borrow date.
    Month,
}

/// What a tally adds per record: one, or the reading duration.
#[derive(Clone, Copy)]
pub enum StatWeight {
    One,
    Duration,
}

pub open spec fn key_of(r: RecView, k: StatKey) -> Seq<char> {
    match k {
        StatKey::Author => r.author,
        StatKey::Category => r.category,
        StatKey::Title => r.book_title,
        StatKey::Reader => r.reader_name,
        StatKey::Month => ym_label(r.borrow_date.year as int, r.borrow_date.month as int),
    }
}

pub open spec fn weight_of(r: RecView, w: StatWeight) -> int {
    match w {
        StatWeight::One => 1,
        StatWeight::Duration => duration_of(r),
    }
}

/// The grouping input of one statistic: each record's key and weight.
pub open spec fn stat_pairs(recs: Seq<RecView>, k: StatKey, w: StatWeight) -> Seq<
    (Seq<char>, int),
> {
    recs.map_values(|r: RecView| (key_of(r, k), weight_of(r, w)))
}

/// Groups the records: the resulting map holds, per key in
/// first-encounter order, the key's total weight saturated at
/// `u64::MAX`.
pub fn tally_records(records: &Vec<BorrowRecord>, k: StatKey, w: StatWeight) -> (m: Vec<
    (String, u64),
>)
    requires
        all_wf(recs_view(records@)),
    ensures
        entries_view(m@) == clamped(spec_tally(stat_pairs(recs_view(records@), k, w))),
{
    let ghost rv = recs_view(records@);
    let ghost pairs = stat_pairs(rv, k, w);
    let n = records.len();
    let mut m: Vec<(String, u64)> = Vec::new();
    let mut i: usize = 0;
    while i < n
        invariant
            0 <= i <= n,
            n == rv.len(),
            rv == recs_view(records@),
            pairs == stat_pairs(rv, k, w),
            all_wf(rv),
            sat_matches(entries_view(m@), spec_tally(pairs.take(i as int))),
        decreases n - i,
    {
        let r = records.get(i).unwrap();
        proof {
            assert(rv[i as int] == r@);
        }
        let key: String = match k {
            StatKey::Author => r.author.clone(),
            StatKey::Category => r.category.clone(),
            StatKey::Title => r.book_title.clone(),
            StatKey::Reader => r.reader_name.clone(),
            StatKey::Month => {
                proof {
                    assert(valid_date(r@.borrow_date));
                }
                year_month_label(r.borrow_date.year, r.borrow_date.month)
            },
        };
        let wt: u64 = match w {
            StatWeight::One => 1,
            StatWeight::Duration => {
                proof {
                    lemma_duration_bounds(r@);
                }
                record_duration(r)
            },
        };
        proof {
            assert(key@ == key_of(rv[i as int], k));
            assert(wt as int == weight_of(rv[i as int], w)) by {
                match w {
                    StatWeight::One => {},
                    StatWeight::Duration => {},
                }
            }
            assert(pairs.take(i as int + 1).drop_last() =~= pairs.take(i as int));
            assert(pairs.take(i as int + 1).last() == pairs[i as int]);
            lemma_tally_step(entries_view(m@), spec_tally(pairs.take(i as int)), key@, wt as int);
            crate::tally::lemma_key_idx_same(
                entries_view(m@),
                spec_tally(pairs.take(i as int)),
                key@,
            );
        }
        tally_add(&mut m, &key, wt);
        i = i + 1;
    }
    proof {
        assert(pairs.take(n as int) =~= pairs);
        lemma_sat_matches_clamped(entries_view(m@), spec_tally(pairs));
    }
    m
}

proof fn lemma_tally_nonempty(
    records: Seq<BorrowRecord>,
    m: Seq<(String, u64)>,
    k: StatKey,
    w: StatWeight,
)
    requires
        records.len() > 0,
        entries_view(m) == clamped(spec_tally(stat_pairs(recs_view(records), k, w))),
    ensures
        m.len() > 0,
{
    let pairs = stat_pairs(recs_view(records), k, w);
    assert(recs_view(records).len() == records.len());
    assert(pairs.len() == recs_view(records).len());
    lemma_tally_len(pairs);
    assert(clamped(spec_tally(pairs)).len() == spec_tally(pairs).len());
    assert(entries_view(m).len() == m.len());
}

/// The key of the first entry reaching the maximum total, in the
/// saturated tally of the given grouping.
pub open spec fn spec_argmax_key(pairs: Seq<(Seq<char>, int)>) -> Seq<char> {
    let t = clamped(spec_tally(pairs));
    t[argmax_idx(t)].0
}

/// The maximum total itself.
pub open spec fn spec_argmax_val(pairs: Seq<(Seq<char>, int)>) -> int {
    let t = clamped(spec_tally(pairs));
    t[argmax_idx(t)].1
}

/// The author and the category with the most borrow events; ties go to
/// the first key encountered.
pub fn analyze_most_frequent(records: &Vec<BorrowRecord>) -> (r: (String, String))
    requires
        records@.len() > 0,
        all_wf(recs_view(records@)),
    ensures
        r.0@ == spec_argmax_key(stat_pairs(recs_view(records@), StatKey::Author, StatWeight::One)),
        r.1@ == spec_argmax_key(
            stat_pairs(recs_view(records@), StatKey::Category, StatWeight::One),
        ),
{
    let am = tally_records(records, StatKey::Author, StatWeight::One);
    let cm = tally_records(records, StatKey::Category, StatWeight::One);
    proof {
        lemma_tally_nonempty(records@, am@, StatKey::Author, StatWeight::One);
        lemma_tally_nonempty(records@, cm@, StatKey::Category, StatWeight::One);
    }
    let a = argmax_first(&am);
    let c = argmax_first(&cm);
    (a.0, c.0)
}

/// The author and the category with the longest summed reading
/// duration; the same tie-break.
pub fn analyze_longest_duration(records: &Vec<BorrowRecord>) -> (r: (String, String))
    requires
        records@.len() > 0,
        all_wf(recs_view(records@)),
    ensures
        r.0@ == spec_argmax_key(
            stat_pairs(recs_view(records@), StatKey::Author, StatWeight::Duration),
        ),
        r.1@ == spec_argmax_key(
            stat_pairs(recs_view(records@), StatKey::Category, StatWeight::Duration),
        ),
{
    let am = tally_records(records, StatKey::Author, StatWeight::Duration);
    let cm = tally_records(records, StatKey::Category, StatWeight::Duration);
    proof {
        lemma_tally_nonempty(records@, am@, StatKey::Author, StatWeight::Duration);
        lemma_tally_nonempty(records@, cm@, StatKey::Category, StatWeight::Duration);
    }
    let a = argmax_first(&am);
    let c = argmax_first(&cm);
    (a.0, c.0)
}

/// The `year-month` with the most borrow events.
pub fn analyze_borrow_peak(records: &Vec<BorrowRecord>) -> (r: String)
    requires
        records@.len() > 0,
        all_wf(recs_view(records@)),
    ensures
        r@ == spec_argmax_key(stat_pairs(recs_view(records@), StatKey::Month, StatWeight::One)),
{
    let mm = tally_records(records, StatKey::Month, StatWeight::One);
    proof {
        lemma_tally_nonempty(records@, mm@, StatKey::Month, StatWeight::One);
    }
    let p = argmax_first(&mm);
    p.0
}

/// The most-borrowed title, its count, and the full title-to-count map.
pub fn analyze_most_borrowed_book(records: &Vec<BorrowRecord>) -> (r: (
    String,
    u64,
    Vec<(String, u64)>,
))
    requires
        records@.len() > 0,
        all_wf(recs_view(records@)),
    ensures
        ({
            let pairs = stat_pairs(recs_view(records@), StatKey::Title, StatWeight::One);
            r.0@ == spec_argmax_key(pairs) && r.1 as int == spec_argmax_val(pairs) && entries_view(
                r.2@,
            ) == clamped(spec_tally(pairs))
        }),
{
    let tm = tally_records(records, StatKey::Title, StatWeight::One);
    proof {
        lemma_tally_nonempty(records@, tm@, StatKey::Title, StatWeight::One);
    }
    let b = argmax_first(&tm);
    (b.0, b.1, tm)
}

/// The full `year-month`-to-count map, keys in first-encounter order.
pub fn analyze_monthly_borrow(records: &Vec<BorrowRecord>) -> (m: Vec<(String, u64)>)
    requires
        all_wf(recs_view(records@)),
    ensures
        entries_view(m@) == clamped(
            spec_tally(stat_pairs(recs_view(records@), StatKey::Month, StatWeight::One)),
        ),
{
    tally_records(records, StatKey::Month, StatWeight::One)
}

pub proof fn lemma_duration_sum_remove(recs: Seq<RecView>, i: int)
    requires
        0 <= i < recs.len(),
    ensures
        duration_sum(recs) == duration_sum(recs.remove(i)) + duration_of(recs[i]),
    decreases recs.len(),
{
    if i == recs.len() - 1 {
        assert(recs.remove(i) =~= recs.drop_last());
    } else {
        assert(recs.remove(i).drop_last() =~= recs.drop_last().remove(i));
        lemma_duration_sum_remove(recs.drop_last(), i);
        assert(recs.remove(i).last() == recs.last());
        assert(recs.drop_last()[i] == recs[i]);
    }
}

/// Law: a record without a return date contributes exactly 30 days to
/// the total reading duration, whatever the rest of the set holds.
pub proof fn lemma_unreturned_contributes_30(recs: Seq<RecView>, i: int)
    requires
        0 <= i < recs.len(),
        recs[i].return_date is None,
    ensures
        duration_sum(recs) == duration_sum(recs.remove(i)) + 30,
{
    lemma_duration_sum_remove(recs, i);
}

/// Law: the monthly borrow counts of a record set sum to its length,
/// the borrow frequency.
pub proof fn lemma_monthly_sum_is_frequency(recs: Seq<RecView>)
    requires
        recs.len() <= u64::MAX,
    ensures
        sum_vals(clamped(spec_tally(stat_pairs(recs, StatKey::Month, StatWeight::One))))
            == recs.len(),
{
    let pairs = stat_pairs(recs, StatKey::Month, StatWeight::One);
    let t = spec_tally(pairs);
    assert(forall|i: int| 0 <= i < pairs.len() ==> (#[trigger] pairs[i]).1 == 1);
    lemma_unit_total_weight(pairs);
    lemma_tally_sum(pairs);
    assert(forall|i: int| 0 <= i < pairs.len() ==> (#[trigger] pairs[i]).1 >= 0);
    lemma_tally_vals_nonneg(pairs);
    lemma_entry_le_sum(t);
    assert(clamped(t) =~= t) by {
        assert forall|j: int| 0 <= j < t.len() implies #[trigger] clamped(t)[j] == t[j] by {
            assert(t[j].1 <= sum_vals(t));
        }
    }
}

/// Law: the most-borrowed count is the maximum total in the book map,
/// and it sits at the map's argmax entry.
pub proof fn lemma_most_borrowed_is_max(recs: Seq<RecView>)
    requires
        recs.len() > 0,
    ensures
        ({
            let t = clamped(spec_tally(stat_pairs(recs, StatKey::Title, StatWeight::One)));
            &&& 0 <= argmax_idx(t) < t.len()
            &&& forall|i: int|
                0 <= i < t.len() ==> (#[trigger] t[i]).1 <= spec_argmax_val(
                    stat_pairs(recs, StatKey::Title, StatWeight::One),
                )
        }),
{
    let pairs = stat_pairs(recs, StatKey::Title, StatWeight::One);
    let t = clamped(spec_tally(pairs));
    lemma_tally_len(pairs);
    assert(t.len() == spec_tally(pairs).len());
    lemma_argmax(t);
}

/// The ranking of a tally: repeatedly the first entry holding the
/// maximum total, listed and removed, until `limit` entries stand.
pub open spec fn rank_seq(t: Seq<(Seq<char>, int)>, limit: int) -> Seq<(Seq<char>, int)>
    decreases t.len(),
{
    if t.len() == 0 || limit <= 0 {
        Seq::<(Seq<char>, int)>::empty()
    } else {
        let i0 = argmax_idx(t);
        let i = if 0 <= i0 < t.len() {
            i0
        } else {
            0
        };
        seq![t[i]] + rank_seq(t.remove(i), limit - 1)
    }
}

fn argmax_index(m: &Vec<(String, u64)>) -> (idx: usize)
    requires
        m@.len() > 0,
    ensures
        idx as int == argmax_idx(entries_view(m@)),
        idx < m@.len(),
{
    let ghost t = entries_view(m@);
    proof {
        lemma_argmax(t);
    }
    let n = m.len();
    let mut best: usize = 0;
    let mut i: usize = 1;
    while i < n
        invariant
            1 <= i <= n,
            n == t.len(),
            t == entries_view(m@),
            0 <= best < i,
            best == argmax_idx(t.take(i as int)),
        decreases n - i,
    {
        proof {
            assert(t.take(i as int + 1).drop_last() =~= t.take(i as int));
            assert(t.take(i as int + 1).last() == t[i as int]);
            lemma_argmax(t.take(i as int));
        }
        if m.get(i).unwrap().1 > m.get(best).unwrap().1 {
            best = i;
        }
        i = i + 1;
    }
    proof {
        assert(t.take(n as int) =~= t);
    }
    best
}

/// The leading entries of a count map, ranked by total: the first
/// `limit` of its entries in descending order of their totals, equal
/// totals keeping their map order.
pub fn top_ranked(counts: &Vec<(String, u64)>, limit: usize) -> (r: Vec<(String, u64)>)
    ensures
        entries_view(r@) == rank_seq(entries_view(counts@), limit as int),
{
    let ghost orig = entries_view(counts@);
    let mut work: Vec<(String, u64)> = Vec::new();
    let n = counts.len();
    let mut i: usize = 0;
    while i < n
        invariant
            0 <= i <= n,
            n == counts@.len(),
            orig == entries_view(counts@),
            work@.len() == i,
            forall|j: int|
                0 <= j < i ==> (#[trigger] work@[j]).0@ == counts@[j].0@ && work@[j].1
                    == counts@[j].1,
        decreases n - i,
    {
        let e = counts.get(i).unwrap();
        work.push((e.0.clone(), e.1));
        i = i + 1;
    }
    proof {
        assert(entries_view(work@) =~= orig);
    }
    let mut out: Vec<(String, u64)> = Vec::new();
    while out.len() < limit && work.len() > 0
        invariant
            out@.len() <= limit,
            rank_seq(orig, limit as int) == entries_view(out@) + rank_seq(
                entries_view(work@),
                limit - out@.len(),
            ),
        decreases work@.len(),
    {
        let ghost wv = entries_view(work@);
        let ghost rem = limit - out@.len();
        proof {
            lemma_argmax(wv);
        }
        let idx = argmax_index(&work);
        let e = work.get(idx).unwrap();
        let key = e.0.clone();
        let val = e.1;
        let ghost old_out = entries_view(out@);
        out.push((key, val));
        work.remove(idx);
        proof {
            assert(entries_view(work@) =~= wv.remove(idx as int));
            assert(rank_seq(wv, rem) == seq![wv[idx as int]] + rank_seq(
                wv.remove(idx as int),
                rem - 1,
            ));
            assert(entries_view(out@) =~= old_out.push(wv[idx as int]));
            assert(old_out.push(wv[idx as int]) =~= old_out + seq![wv[idx as int]]);
            assert(entries_view(out@) + rank_seq(entries_view(work@), rem - 1) =~= old_out + (
            seq![wv[idx as int]] + rank_seq(wv.remove(idx as int), rem - 1)));
        }
    }
    proof {
        if out@.len() >= limit {
            assert(rank_seq(entries_view(work@), limit - out@.len())
                == Seq::<(Seq<char>, int)>::empty());
        } else {
            assert(entries_view(work@).len() == 0);
            assert(rank_seq(entries_view(work@), limit - out@.len())
                == Seq::<(Seq<char>, int)>::empty());
        }
        assert(entries_view(out@) + Seq::<(Seq<char>, int)>::empty() =~= entries_view(out@));
    }
    out
}

/// The most frequent reader name of a record set, "unknown reader" when
/// it is empty; the file-as-reader rule uses it per file.
pub open spec fn spec_primary_name(recs: Seq<RecView>) -> Seq<char> {
    if recs.len() == 0 {
        "未知读者"@
    } else {
        spec_argmax_key(stat_pairs(recs, StatKey::Reader, StatWeight::One))
    }
}

pub fn get_primary_reader_name(records: &Vec<BorrowRecord>) -> (n: String)
    requires
        all_wf(recs_view(records@)),
    ensures
        n@ == spec_primary_name(recs_view(records@)),
{
    if records.len() == 0 {
        return "未知读者".to_owned();
    }
    let nm = tally_records(records, StatKey::Reader, StatWeight::One);
    proof {
        lemma_tally_nonempty(records@, nm@, StatKey::Reader, StatWeight::One);
    }
    let p = argmax_first(&nm);
    p.0
}

} // verus!
