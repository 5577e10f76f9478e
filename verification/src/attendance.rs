//! The attendance calculator: which calendar months are "full
//! attendance", i.e. every ISO week overlapping the month has at least
//! one borrow record, whether recorded in that month or in a neighboring
//! month sharing the week.

use crate::calendar::{
    iso_week_label, iso_week_of, lemma_ym_label_injective, month_has_week, month_iso_weeks,
    week_vec_contains, ym_label, year_month_label, IsoWeek,
};
use crate::records::{wf_record, BorrowRecord, RecView};
use crate::stats::{all_wf, recs_view};
use vstd::prelude::*;

verus! {

/// Whether some record of the set was borrowed in ISO week `w`.
pub open spec fn week_recorded(recs: Seq<RecView>, w: IsoWeek) -> bool {
    exists|i: int| 0 <= i < recs.len() && iso_week_label((#[trigger] recs[i]).borrow_date) == w
}

/// Whether some record of the set falls in calendar month `y`-`m`.
pub open spec fn month_recorded(recs: Seq<RecView>, y: int, m: int) -> bool {
    exists|i: int|
        0 <= i < recs.len() && (#[trigger] recs[i]).borrow_date.year == y
            && recs[i].borrow_date.month == m
}

/// Full attendance of one month: every ISO week that overlaps it was
/// recorded somewhere in the set. A week split across two months is
/// satisfied by a borrow under either month; one borrow near a month
/// boundary can therefore complete both neighbors.
pub open spec fn full_attendance_month(recs: Seq<RecView>, y: int, m: int) -> bool {
    forall|w: IsoWeek| #[trigger] month_has_week(y, m, w) ==> week_recorded(recs, w)
}

/// The distinct months of the set, in first-encounter order.
pub open spec fn month_seq(recs: Seq<RecView>) -> Seq<(int, int)>
    decreases recs.len(),
{
    if recs.len() == 0 {
        Seq::<(int, int)>::empty()
    } else {
        let rest = month_seq(recs.drop_last());
        let p = (recs.last().borrow_date.year as int, recs.last().borrow_date.month as int);
        if rest.contains(p) {
            rest
        } else {
            rest.push(p)
        }
    }
}

/// The months of `ms` that are full attendance, in order.
pub open spec fn filter_full(recs: Seq<RecView>, ms: Seq<(int, int)>) -> Seq<(int, int)>
    decreases ms.len(),
{
    if ms.len() == 0 {
        Seq::<(int, int)>::empty()
    } else {
        let rest = filter_full(recs, ms.drop_last());
        if full_attendance_month(recs, ms.last().0, ms.last().1) {
            rest.push(ms.last())
        } else {
            rest
        }
    }
}

/// The exact full-attendance listing: the labels of the full months,
/// in first-encounter order.
pub open spec fn attendance_labels(recs: Seq<RecView>) -> Seq<Seq<char>> {
    filter_full(recs, month_seq(recs)).map_values(|p: (int, int)| ym_label(p.0, p.1))
}

pub open spec fn pair_view(p: (i32, u8)) -> (int, int) {
    (p.0 as int, p.1 as int)
}

/// The distinct ISO weeks recorded anywhere in the set.
fn all_recorded_weeks(records: &Vec<BorrowRecord>) -> (ws: Vec<IsoWeek>)
    requires
        all_wf(recs_view(records@)),
    ensures
        forall|w: IsoWeek| #[trigger] ws@.contains(w) <==> week_recorded(recs_view(records@), w),
{
    let ghost rv = recs_view(records@);
    let n = records.len();
    let mut ws: Vec<IsoWeek> = Vec::new();
    let mut i: usize = 0;
    while i < n
        invariant
            0 <= i <= n,
            n == rv.len(),
            rv == recs_view(records@),
            all_wf(rv),
            forall|w: IsoWeek| #[trigger] ws@.contains(w) <==> week_recorded(rv.take(i as int), w),
        decreases n - i,
    {
        let r = records.get(i).unwrap();
        proof {
            assert(rv[i as int] == r@);
        }
        let w = iso_week_of(&r.borrow_date);
        let ghost old_ws = ws@;
        if !week_vec_contains(&ws, w) {
            ws.push(w);
        }
        proof {
            let pre = rv.take(i as int);
            let post = rv.take(i as int + 1);
            assert(post.drop_last() =~= pre);
            assert(post.last() == rv[i as int]);
            assert forall|x: IsoWeek| #[trigger] ws@.contains(x) implies week_recorded(post, x) by {
                if old_ws.contains(x) {
                    let j = choose|j: int|
                        0 <= j < pre.len() && iso_week_label((#[trigger] pre[j]).borrow_date) == x;
                    assert(post[j] == pre[j]);
                } else {
                    assert(x == w);
                    assert(iso_week_label(post[i as int].borrow_date) == x);
                }
            }
            assert forall|x: IsoWeek| week_recorded(post, x) implies #[trigger] ws@.contains(x) by {
                let j = choose|j: int|
                    0 <= j < post.len() && iso_week_label((#[trigger] post[j]).borrow_date) == x;
                if j < i as int {
                    assert(pre[j] == post[j]);
                    assert(week_recorded(pre, x));
                    assert(old_ws.contains(x));
                    if ws@ != old_ws {
                        let k = choose|k: int| 0 <= k < old_ws.len() && old_ws[k] == x;
                        assert(ws@[k] == x);
                    }
                } else {
                    assert(x == w);
                    if !old_ws.contains(w) {
                        assert(ws@[ws@.len() - 1] == w);
                    }
                }
            }
        }
        i = i + 1;
    }
    proof {
        assert(rv.take(n as int) =~= rv);
    }
    ws
}

fn month_vec_contains(v: &Vec<(i32, u8)>, y: i32, m: u8) -> (r: bool)
    ensures
        r == v@.contains((y, m)),
{
    let mut i: usize = 0;
    while i < v.len()
        invariant
            0 <= i <= v@.len(),
            forall|j: int| 0 <= j < i ==> v@[j] != (y, m),
        decreases v@.len() - i,
    {
        let e = *v.get(i).unwrap();
        if e.0 == y && e.1 == m {
            return true;
        }
        i = i + 1;
    }
    false
}

/// The distinct calendar months of the set, in first-encounter order.
fn recorded_months(records: &Vec<BorrowRecord>) -> (ms: Vec<(i32, u8)>)
    requires
        all_wf(recs_view(records@)),
    ensures
        forall|y: int, m: int| #[trigger]
            ms@.contains((y as i32, m as u8)) && 1 <= y <= 9999 && 1 <= m <= 12 <==> month_recorded(
                recs_view(records@),
                y,
                m,
            ),
        forall|j: int|
            0 <= j < ms@.len() ==> 1 <= (#[trigger] ms@[j]).0 <= 9999 && 1 <= ms@[j].1 <= 12,
        forall|i: int, j: int| 0 <= i < j < ms@.len() ==> ms@[i] != ms@[j],
        ms@.map_values(|p: (i32, u8)| pair_view(p)) == month_seq(recs_view(records@)),
{
    let ghost rv = recs_view(records@);
    let n = records.len();
    let mut ms: Vec<(i32, u8)> = Vec::new();
    let mut i: usize = 0;
    while i < n
        invariant
            0 <= i <= n,
            n == rv.len(),
            rv == recs_view(records@),
            all_wf(rv),
            forall|p: (i32, u8)| #[trigger]
                ms@.contains(p) <==> month_recorded(rv.take(i as int), p.0 as int, p.1 as int),
            forall|j: int|
                0 <= j < ms@.len() ==> 1 <= (#[trigger] ms@[j]).0 <= 9999 && 1 <= ms@[j].1 <= 12,
            forall|a: int, b: int| 0 <= a < b < ms@.len() ==> ms@[a] != ms@[b],
            ms@.map_values(|p: (i32, u8)| pair_view(p)) == month_seq(rv.take(i as int)),
        decreases n - i,
    {
        let r = records.get(i).unwrap();
        proof {
            assert(rv[i as int] == r@);
            assert(wf_record(rv[i as int]));
        }
        let y = r.borrow_date.year;
        let m = r.borrow_date.month;
        let ghost old_ms = ms@;
        if !month_vec_contains(&ms, y, m) {
            ms.push((y, m));
        }
        proof {
            let pre = rv.take(i as int);
            let post = rv.take(i as int + 1);
            assert(post.drop_last() =~= pre);
            assert(post.last() == rv[i as int]);
            assert forall|p: (i32, u8)| #[trigger] ms@.contains(p) implies month_recorded(
                post,
                p.0 as int,
                p.1 as int,
            ) by {
                if old_ms.contains(p) {
                    let j = choose|j: int|
                        0 <= j < pre.len() && (#[trigger] pre[j]).borrow_date.year == p.0 as int
                            && pre[j].borrow_date.month == p.1 as int;
                    assert(post[j] == pre[j]);
                } else {
                    assert(p == (y, m));
                    assert(post[i as int].borrow_date.year == p.0 as int);
                }
            }
            assert forall|p: (i32, u8)| month_recorded(post, p.0 as int, p.1 as int) implies (
            #[trigger] ms@.contains(p)) by {
                let j = choose|j: int|
                    0 <= j < post.len() && (#[trigger] post[j]).borrow_date.year == p.0 as int
                        && post[j].borrow_date.month == p.1 as int;
                if j < i as int {
                    assert(pre[j] == post[j]);
                    assert(month_recorded(pre, p.0 as int, p.1 as int));
                    assert(old_ms.contains(p));
                    if ms@ != old_ms {
                        let k = choose|k: int| 0 <= k < old_ms.len() && old_ms[k] == p;
                        assert(ms@[k] == p);
                    }
                } else {
                    assert(p.0 == y && p.1 == m);
                    assert(p == (y, m));
                    if !old_ms.contains((y, m)) {
                        assert(ms@[ms@.len() - 1] == (y, m));
                    }
                }
            }
            let pm = (y as int, m as int);
            let mapped_old = old_ms.map_values(|p: (i32, u8)| pair_view(p));
            assert(post.drop_last() =~= pre);
            if old_ms.contains((y, m)) {
                assert(mapped_old.contains(pm)) by {
                    let k = choose|k: int| 0 <= k < old_ms.len() && old_ms[k] == (y, m);
                    assert(mapped_old[k] == pm);
                }
                assert(month_seq(post) == mapped_old);
            } else {
                assert(!mapped_old.contains(pm)) by {
                    if mapped_old.contains(pm) {
                        let k = choose|k: int| 0 <= k < mapped_old.len() && mapped_old[k] == pm;
                        assert(pair_view(old_ms[k]) == pm);
                        assert(old_ms[k].0 == y && old_ms[k].1 == m);
                        assert(old_ms.contains((y, m)));
                        assert(false);
                    }
                }
                assert(month_seq(post) == mapped_old.push(pm));
                assert(ms@ == old_ms.push((y, m)));
                assert(ms@.map_values(|p: (i32, u8)| pair_view(p)) =~= mapped_old.push(pm));
            }
        }
        i = i + 1;
    }
    proof {
        assert(rv.take(n as int) =~= rv);
        assert forall|y: int, m: int| #[trigger]
            ms@.contains((y as i32, m as u8)) && 1 <= y <= 9999 && 1 <= m <= 12 implies
        month_recorded(rv, y, m) by {
            let p = (y as i32, m as u8);
            assert(month_recorded(rv, p.0 as int, p.1 as int));
        }
        assert forall|y: int, m: int| month_recorded(rv, y, m) implies #[trigger] ms@.contains(
            (y as i32, m as u8),
        ) && 1 <= y <= 9999 && 1 <= m <= 12 by {
            let j = choose|j: int|
                0 <= j < rv.len() && (#[trigger] rv[j]).borrow_date.year == y
                    && rv[j].borrow_date.month == m;
            assert(wf_record(rv[j]));
            let p = (y as i32, m as u8);
            assert(month_recorded(rv, p.0 as int, p.1 as int));
        }
    }
    ms
}

/// The recorded months that are full attendance, in first-encounter
/// order.
fn full_months(records: &Vec<BorrowRecord>) -> (fm: Vec<(i32, u8)>)
    requires
        all_wf(recs_view(records@)),
    ensures
        forall|p: (i32, u8)| #[trigger]
            fm@.contains(p) <==> month_recorded(recs_view(records@), p.0 as int, p.1 as int)
                && full_attendance_month(recs_view(records@), p.0 as int, p.1 as int),
        forall|j: int|
            0 <= j < fm@.len() ==> 1 <= (#[trigger] fm@[j]).0 <= 9999 && 1 <= fm@[j].1 <= 12,
        forall|a: int, b: int| 0 <= a < b < fm@.len() ==> fm@[a] != fm@[b],
        fm@.map_values(|p: (i32, u8)| pair_view(p)) == filter_full(
            recs_view(records@),
            month_seq(recs_view(records@)),
        ),
{
    let ghost rv = recs_view(records@);
    let months = recorded_months(records);
    let weeks = all_recorded_weeks(records);
    let mut fm: Vec<(i32, u8)> = Vec::new();
    let nm = months.len();
    let mut i: usize = 0;
    while i < nm
        invariant
            months@.map_values(|p: (i32, u8)| pair_view(p)) == month_seq(rv),
            fm@.map_values(|p: (i32, u8)| pair_view(p)) == filter_full(
                rv,
                month_seq(rv).take(i as int),
            ),
            0 <= i <= nm,
            nm == months@.len(),
            rv == recs_view(records@),
            forall|y: int, m: int| #[trigger]
                months@.contains((y as i32, m as u8)) && 1 <= y <= 9999 && 1 <= m <= 12
                    <==> month_recorded(rv, y, m),
            forall|j: int|
                0 <= j < months@.len() ==> 1 <= (#[trigger] months@[j]).0 <= 9999 && 1
                    <= months@[j].1 <= 12,
            forall|a: int, b: int| 0 <= a < b < months@.len() ==> months@[a] != months@[b],
            forall|w: IsoWeek| #[trigger] weeks@.contains(w) <==> week_recorded(rv, w),
            forall|p: (i32, u8)| #[trigger]
                fm@.contains(p) <==> months@.take(i as int).contains(p) && full_attendance_month(
                    rv,
                    p.0 as int,
                    p.1 as int,
                ),
            forall|a: int, b: int| 0 <= a < b < fm@.len() ==> fm@[a] != fm@[b],
            forall|j: int|
                0 <= j < fm@.len() ==> 1 <= (#[trigger] fm@[j]).0 <= 9999 && 1 <= fm@[j].1 <= 12,
        decreases nm - i,
    {
        let e = *months.get(i).unwrap();
        let ok = month_fully_recorded(e.0, e.1, &weeks, Ghost(rv));
        let ghost old_fm = fm@;
        proof {
            let msq = month_seq(rv);
            assert(msq.take(i as int + 1).drop_last() =~= msq.take(i as int));
            assert(msq.take(i as int + 1).last() == msq[i as int]);
            assert(msq[i as int] == months@.map_values(|p: (i32, u8)| pair_view(p))[i as int]);
            assert(msq[i as int] == pair_view(e));
        }
        if ok {
            proof {
                if old_fm.contains(e) {
                    assert(months@.take(i as int).contains(e));
                    let a = choose|a: int|
                        0 <= a < i && months@.take(i as int)[a] == e;
                    assert(months@[a] == e);
                    assert(months@[i as int] == e);
                    assert(false);
                }
            }
            fm.push(e);
        }
        proof {
            assert(months@.take(i as int + 1).drop_last() =~= months@.take(i as int));
            assert(months@.take(i as int + 1).last() == months@[i as int]);
            assert forall|p: (i32, u8)| #[trigger] fm@.contains(p) implies months@.take(
                i as int + 1,
            ).contains(p) && full_attendance_month(rv, p.0 as int, p.1 as int) by {
                if old_fm.contains(p) {
                    let a = choose|a: int| 0 <= a < i && months@.take(i as int)[a] == p;
                    assert(months@.take(i as int + 1)[a] == p);
                } else {
                    assert(p == e);
                    assert(months@.take(i as int + 1)[i as int] == p);
                }
            }
            assert forall|p: (i32, u8)|
                months@.take(i as int + 1).contains(p) && full_attendance_month(
                    rv,
                    p.0 as int,
                    p.1 as int,
                ) implies #[trigger] fm@.contains(p) by {
                let a = choose|a: int|
                    0 <= a < i + 1 && #[trigger] months@.take(i as int + 1)[a] == p;
                if a < i as int {
                    assert(months@.take(i as int)[a] == p);
                    assert(old_fm.contains(p));
                    if fm@ != old_fm {
                        let k = choose|k: int| 0 <= k < old_fm.len() && old_fm[k] == p;
                        assert(fm@[k] == p);
                    }
                } else {
                    assert(p == e);
                    assert(ok);
                    assert(fm@[fm@.len() - 1] == p);
                }
            }
            let msq = month_seq(rv);
            let mapped_old = old_fm.map_values(|p: (i32, u8)| pair_view(p));
            if ok {
                assert(fm@ == old_fm.push(e));
                assert(fm@.map_values(|p: (i32, u8)| pair_view(p)) =~= mapped_old.push(
                    pair_view(e),
                ));
                assert(filter_full(rv, msq.take(i as int + 1)) == mapped_old.push(pair_view(e)));
            } else {
                assert(filter_full(rv, msq.take(i as int + 1)) == mapped_old);
            }
        }
        i = i + 1;
    }
    proof {
        assert(month_seq(rv).take(nm as int) =~= month_seq(rv));
        assert(months@.take(nm as int) =~= months@);
        assert forall|p: (i32, u8)| #[trigger] fm@.contains(p) implies month_recorded(
            rv,
            p.0 as int,
            p.1 as int,
        ) && full_attendance_month(rv, p.0 as int, p.1 as int) by {
            let a = choose|a: int| 0 <= a < months@.len() && months@[a] == p;
            assert(1 <= p.0 <= 9999 && 1 <= p.1 <= 12);
            assert(months@.contains((p.0 as int as i32, p.1 as int as u8)));
        }
        assert forall|p: (i32, u8)|
            month_recorded(rv, p.0 as int, p.1 as int) && full_attendance_month(
                rv,
                p.0 as int,
                p.1 as int,
            ) implies #[trigger] fm@.contains(p) by {
            let j = choose|j: int|
                0 <= j < rv.len() && (#[trigger] rv[j]).borrow_date.year == p.0 as int
                    && rv[j].borrow_date.month == p.1 as int;
            assert(months@.contains((p.0 as int as i32, p.1 as int as u8)));
        }
    }
    fm
}

/// Whether every ISO week overlapping the month is among the recorded
/// weeks.
fn month_fully_recorded(y: i32, m: u8, weeks: &Vec<IsoWeek>, Ghost(rv): Ghost<Seq<RecView>>) -> (r:
    bool)
    requires
        1 <= y <= 9999,
        1 <= m <= 12,
        forall|w: IsoWeek| #[trigger] weeks@.contains(w) <==> week_recorded(rv, w),
    ensures
        r == full_attendance_month(rv, y as int, m as int),
{
    let mw = month_iso_weeks(y, m);
    let nw = mw.len();
    let mut all_ok = true;
    let mut j: usize = 0;
    while j < nw
        invariant
            0 <= j <= nw,
            nw == mw@.len(),
            forall|w: IsoWeek| #[trigger] weeks@.contains(w) <==> week_recorded(rv, w),
            all_ok == forall|l: int| 0 <= l < j ==> week_recorded(rv, #[trigger] mw@[l]),
        decreases nw - j,
    {
        let w = *mw.get(j).unwrap();
        let have = week_vec_contains(weeks, w);
        all_ok = all_ok && have;
        j = j + 1;
    }
    proof {
        if all_ok {
            assert forall|w: IsoWeek| #[trigger] month_has_week(y as int, m as int, w) implies
            week_recorded(rv, w) by {
                assert(mw@.contains(w));
                let l = choose|l: int| 0 <= l < mw@.len() && mw@[l] == w;
                assert(week_recorded(rv, mw@[l]));
            }
        } else {
            let l = choose|l: int| 0 <= l < mw@.len() && !week_recorded(rv, #[trigger] mw@[l]);
            assert(mw@.contains(mw@[l]));
            assert(month_has_week(y as int, m as int, mw@[l]));
        }
    }
    all_ok
}

/// Whether a label is the `year-month` label of some recorded month
/// with full attendance.
pub open spec fn label_names_full_month(recs: Seq<RecView>, label: Seq<char>) -> bool {
    exists|y: int, m: int|
        #![trigger ym_label(y, m)]
        month_recorded(recs, y, m) && 1 <= y <= 9999 && 1 <= m <= 12 && full_attendance_month(
            recs,
            y,
            m,
        ) && label == ym_label(y, m)
}

/// What a correct full-attendance listing is: every listed label is a
/// recorded full-attendance month, every recorded full-attendance month
/// is listed, and no label repeats.
pub open spec fn is_attendance_listing(recs: Seq<RecView>, labels: Seq<String>) -> bool {
    &&& forall|j: int|
        0 <= j < labels.len() ==> label_names_full_month(recs, (#[trigger] labels[j])@)
    &&& forall|y: int, m: int|
        month_recorded(recs, y, m) && #[trigger] full_attendance_month(recs, y, m) ==> exists|
            j: int,
        | #![trigger labels[j]] 0 <= j < labels.len() && labels[j]@ == ym_label(y, m)
    &&& forall|a: int, b: int| 0 <= a < b < labels.len() ==> labels[a]@ != labels[b]@
}

/// Lists the full-attendance months of the record set as `year-month`
/// labels, in first-encounter order of the months, with their count.
pub fn analyze_full_attendance(records: &Vec<BorrowRecord>) -> (r: (Vec<String>, u64))
    requires
        all_wf(recs_view(records@)),
    ensures
        r.1 as int == r.0@.len(),
        is_attendance_listing(recs_view(records@), r.0@),
        r.0@.map_values(|s: String| s@) == attendance_labels(recs_view(records@)),
{
    let ghost rv = recs_view(records@);
    let fm = full_months(records);
    let nf = fm.len();
    let mut out: Vec<String> = Vec::new();
    let mut i: usize = 0;
    while i < nf
        invariant
            0 <= i <= nf,
            nf == fm@.len(),
            out@.len() == i,
            forall|j: int|
                0 <= j < fm@.len() ==> 1 <= (#[trigger] fm@[j]).0 <= 9999 && 1 <= fm@[j].1 <= 12,
            forall|j: int|
                0 <= j < i ==> (#[trigger] out@[j])@ == ym_label(fm@[j].0 as int, fm@[j].1 as int),
        decreases nf - i,
    {
        let e = *fm.get(i).unwrap();
        out.push(year_month_label(e.0, e.1));
        i = i + 1;
    }
    proof {
        assert forall|j: int| 0 <= j < out@.len() implies label_names_full_month(
            rv,
            (#[trigger] out@[j])@,
        ) by {
            let p = fm@[j];
            assert(fm@.contains(p));
            let y = p.0 as int;
            let m = p.1 as int;
            assert(month_recorded(rv, y, m) && 1 <= y <= 9999 && 1 <= m <= 12
                && full_attendance_month(rv, y, m) && out@[j]@ == ym_label(y, m));
        }
        assert forall|y: int, m: int|
            month_recorded(rv, y, m) && #[trigger] full_attendance_month(rv, y, m) implies exists|
            j: int,
        | #![trigger out@[j]] 0 <= j < out@.len() && out@[j]@ == ym_label(y, m) by {
            let i0 = choose|i0: int|
                0 <= i0 < rv.len() && (#[trigger] rv[i0]).borrow_date.year == y
                    && rv[i0].borrow_date.month == m;
            assert(wf_record(rv[i0]));
            let p = (y as i32, m as u8);
            assert(month_recorded(rv, p.0 as int, p.1 as int));
            assert(fm@.contains(p));
            let j = choose|j: int| 0 <= j < fm@.len() && fm@[j] == p;
            assert(out@[j]@ == ym_label(y, m));
        }
        assert forall|a: int, b: int| 0 <= a < b < out@.len() implies out@[a]@ != out@[b]@ by {
            if out@[a]@ == out@[b]@ {
                lemma_ym_label_injective(
                    fm@[a].0 as int,
                    fm@[a].1 as int,
                    fm@[b].0 as int,
                    fm@[b].1 as int,
                );
                assert(fm@[a] == fm@[b]);
                assert(false);
            }
        }
        assert(is_attendance_listing(rv, out@));
        assert(out@.map_values(|s: String| s@) =~= attendance_labels(rv)) by {
            let ff = filter_full(rv, month_seq(rv));
            assert(fm@.map_values(|p: (i32, u8)| pair_view(p)) == ff);
            assert forall|j: int| 0 <= j < out@.len() implies out@.map_values(|s: String| s@)[j]
                == #[trigger] attendance_labels(rv)[j] by {
                assert(ff[j] == pair_view(fm@[j]));
                assert(attendance_labels(rv)[j] == ym_label(ff[j].0, ff[j].1));
                assert(out@[j]@ == ym_label(fm@[j].0 as int, fm@[j].1 as int));
            }
        }
    }
    let count = out.len() as u64;
    (out, count)
}

} // verus!
