//! The analyzer session: one caller-owned handle holding the loaded
//! records, roster entries and file units. A load rebuilds the state
//! wholesale; analyses are read-only queries over it.

use crate::attendance::{analyze_full_attendance, attendance_labels, is_attendance_listing};
use crate::cells::Cell;
use crate::parse::{parse_borrow_record, spec_parse_row};
use crate::records::{
    AnalysisResult, AnalyzerError, BorrowRecord, ReaderFileInfo, ReaderRosterEntry, RecView,
};
use crate::stats::{
    all_wf, analyze_borrow_peak, analyze_longest_duration, analyze_monthly_borrow,
    analyze_most_borrowed_book, analyze_most_frequent, calculate_total_reading_duration,
    duration_sum, get_primary_reader_name, price_sum, recs_view, spec_argmax_key, spec_argmax_val,
    spec_primary_name, stat_pairs, total_price_cents, StatKey, StatWeight,
};
use crate::tally::{clamp64, clamped, entries_view, spec_tally};
use crate::text::{base_name, spec_base_name, spec_trim, trim_str};
use vstd::prelude::*;

verus! {

/// What one roster row yields. Three shapes are accepted: four or more
/// columns carry the card number at index 2 and the name at index 3;
/// exactly three columns carry a leading sequence number, the card
/// number at index 1 and the name at index 2; two columns carry the
/// name first and the card number second. A row whose name or card is
/// empty after trimming yields nothing.
pub open spec fn spec_roster_entry(row: Seq<Cell>) -> Option<(Seq<char>, Seq<char>)> {
    if row.len() >= 4 {
        roster_pair(
            spec_trim(crate::cells::spec_cell_text(row[3])),
            spec_trim(crate::cells::spec_cell_text(row[2])),
        )
    } else if row.len() == 3 {
        roster_pair(
            spec_trim(crate::cells::spec_cell_text(row[2])),
            spec_trim(crate::cells::spec_cell_text(row[1])),
        )
    } else if row.len() == 2 {
        roster_pair(
            spec_trim(crate::cells::spec_cell_text(row[0])),
            spec_trim(crate::cells::spec_cell_text(row[1])),
        )
    } else {
        None
    }
}

pub open spec fn roster_pair(name: Seq<char>, card: Seq<char>) -> Option<(Seq<char>, Seq<char>)> {
    if name.len() > 0 && card.len() > 0 {
        Some((name, card))
    } else {
        None
    }
}

/// The entries a roster body (rows after the header) yields, in order.
pub open spec fn spec_roster(rows: Seq<Vec<Cell>>) -> Seq<(Seq<char>, Seq<char>)>
    decreases rows.len(),
{
    if rows.len() == 0 {
        Seq::<(Seq<char>, Seq<char>)>::empty()
    } else {
        let rest = spec_roster(rows.drop_last());
        match spec_roster_entry(rows.last()@) {
            Some(e) => rest.push(e),
            None => rest,
        }
    }
}

/// The entries a whole roster sheet yields: the header row is skipped.
pub open spec fn spec_roster_of(rows: Seq<Vec<Cell>>) -> Seq<(Seq<char>, Seq<char>)> {
    if rows.len() == 0 {
        Seq::<(Seq<char>, Seq<char>)>::empty()
    } else {
        spec_roster(rows.skip(1))
    }
}

/// The records a borrow-sheet body yields, in row order; failing rows
/// are skipped.
pub open spec fn spec_sheet_records(rows: Seq<Vec<Cell>>, src: Seq<char>) -> Seq<RecView>
    decreases rows.len(),
{
    if rows.len() == 0 {
        Seq::<RecView>::empty()
    } else {
        let rest = spec_sheet_records(rows.drop_last(), src);
        match spec_parse_row(rows.last()@, src) {
            Ok(r) => rest.push(r),
            Err(e) => rest,
        }
    }
}

/// The records one borrow file yields: the header row is skipped.
pub open spec fn spec_file_records(f: (String, Vec<Vec<Cell>>)) -> Seq<RecView> {
    if f.1@.len() == 0 {
        Seq::<RecView>::empty()
    } else {
        spec_sheet_records(f.1@.skip(1), f.0@)
    }
}

/// All files' records, concatenated in file order.
pub open spec fn spec_all_records(files: Seq<(String, Vec<Vec<Cell>>)>) -> Seq<RecView>
    decreases files.len(),
{
    if files.len() == 0 {
        Seq::<RecView>::empty()
    } else {
        spec_all_records(files.drop_last()) + spec_file_records(files.last())
    }
}

/// The file units: per file its path, the most frequent reader name
/// among its records, and its record count.
pub open spec fn spec_file_units(files: Seq<(String, Vec<Vec<Cell>>)>) -> Seq<
    (Seq<char>, Seq<char>, int),
> {
    files.map_values(
        |f: (String, Vec<Vec<Cell>>)|
            (f.0@, spec_primary_name(spec_file_records(f)), spec_file_records(f).len() as int),
    )
}

/// The records of one source file, in load order.
pub open spec fn records_for(recs: Seq<RecView>, src: Seq<char>) -> Seq<RecView>
    decreases recs.len(),
{
    if recs.len() == 0 {
        Seq::<RecView>::empty()
    } else {
        let rest = records_for(recs.drop_last(), src);
        if recs.last().file_source == src {
            rest.push(recs.last())
        } else {
            rest
        }
    }
}

/// Every field of an analysis result, pinned to the record set and the
/// display name it was computed for.
pub open spec fn analysis_matches(a: AnalysisResult, recs: Seq<RecView>, name: Seq<char>) -> bool {
    &&& a.reader_name@ == name
    &&& a.borrow_frequency as int == recs.len()
    &&& a.total_reading_duration as int == clamp64(duration_sum(recs))
    &&& a.total_price_cents as int == clamp64(price_sum(recs))
    &&& a.most_frequent_author@ == spec_argmax_key(
        stat_pairs(recs, StatKey::Author, StatWeight::One),
    )
    &&& a.most_frequent_category@ == spec_argmax_key(
        stat_pairs(recs, StatKey::Category, StatWeight::One),
    )
    &&& a.longest_author@ == spec_argmax_key(
        stat_pairs(recs, StatKey::Author, StatWeight::Duration),
    )
    &&& a.longest_category@ == spec_argmax_key(
        stat_pairs(recs, StatKey::Category, StatWeight::Duration),
    )
    &&& a.borrow_peak_yearmonth@ == spec_argmax_key(
        stat_pairs(recs, StatKey::Month, StatWeight::One),
    )
    &&& a.most_borrowed_book@ == spec_argmax_key(stat_pairs(recs, StatKey::Title, StatWeight::One))
    &&& a.most_borrowed_book_count as int == spec_argmax_val(
        stat_pairs(recs, StatKey::Title, StatWeight::One),
    )
    &&& entries_view(a.book_borrow_counts@) == clamped(
        spec_tally(stat_pairs(recs, StatKey::Title, StatWeight::One)),
    )
    &&& entries_view(a.monthly_borrow@) == clamped(
        spec_tally(stat_pairs(recs, StatKey::Month, StatWeight::One)),
    )
    &&& a.full_attendance@.map_values(|s: String| s@) == attendance_labels(recs)
    &&& is_attendance_listing(recs, a.full_attendance@)
    &&& a.total_full_attendance as int == a.full_attendance@.len()
}

/// Law: the analysis is a function of the loaded record set and the
/// display name alone, so analyzing an unchanged session twice yields
/// the same values in every field.
pub proof fn lemma_analysis_deterministic(
    a1: AnalysisResult,
    a2: AnalysisResult,
    recs: Seq<RecView>,
    name: Seq<char>,
)
    requires
        analysis_matches(a1, recs, name),
        analysis_matches(a2, recs, name),
    ensures
        a1.reader_name@ == a2.reader_name@,
        a1.borrow_frequency == a2.borrow_frequency,
        a1.total_reading_duration == a2.total_reading_duration,
        a1.total_price_cents == a2.total_price_cents,
        a1.most_frequent_author@ == a2.most_frequent_author@,
        a1.most_frequent_category@ == a2.most_frequent_category@,
        a1.longest_author@ == a2.longest_author@,
        a1.longest_category@ == a2.longest_category@,
        a1.borrow_peak_yearmonth@ == a2.borrow_peak_yearmonth@,
        a1.most_borrowed_book@ == a2.most_borrowed_book@,
        a1.most_borrowed_book_count == a2.most_borrowed_book_count,
        entries_view(a1.book_borrow_counts@) == entries_view(a2.book_borrow_counts@),
        entries_view(a1.monthly_borrow@) == entries_view(a2.monthly_borrow@),
        a1.full_attendance@.map_values(|s: String| s@) == a2.full_attendance@.map_values(
            |s: String| s@,
        ),
        a1.total_full_attendance == a2.total_full_attendance,
{
    assert(a1.full_attendance@.map_values(|s: String| s@).len() == a1.full_attendance@.len());
    assert(a2.full_attendance@.map_values(|s: String| s@).len() == a2.full_attendance@.len());
}

fn roster_entry_of(row: &Vec<Cell>) -> (r: Option<ReaderRosterEntry>)
    ensures
        match spec_roster_entry(row@) {
            Some(p) => r matches Some(e) && e.name@ == p.0 && e.card_number@ == p.1,
            None => r is None,
        },
{
    if row.len() >= 4 {
        let card = trim_str(crate::cells::cell_text(row.get(2).unwrap()).as_str());
        let name = trim_str(crate::cells::cell_text(row.get(3).unwrap()).as_str());
        if !name.as_str().is_empty() && !card.as_str().is_empty() {
            Some(ReaderRosterEntry { name, card_number: card })
        } else {
            None
        }
    } else if row.len() == 3 {
        let card = trim_str(crate::cells::cell_text(row.get(1).unwrap()).as_str());
        let name = trim_str(crate::cells::cell_text(row.get(2).unwrap()).as_str());
        if !name.as_str().is_empty() && !card.as_str().is_empty() {
            Some(ReaderRosterEntry { name, card_number: card })
        } else {
            None
        }
    } else if row.len() == 2 {
        let name = trim_str(crate::cells::cell_text(row.get(0).unwrap()).as_str());
        let card = trim_str(crate::cells::cell_text(row.get(1).unwrap()).as_str());
        if !name.as_str().is_empty() && !card.as_str().is_empty() {
            Some(ReaderRosterEntry { name, card_number: card })
        } else {
            None
        }
    } else {
        None
    }
}

fn clone_record(r: &BorrowRecord) -> (c: BorrowRecord)
    ensures
        c@ == r@,
{
    BorrowRecord {
        reader_name: r.reader_name.clone(),
        book_title: r.book_title.clone(),
        author: r.author.clone(),
        category: r.category.clone(),
        borrow_date: r.borrow_date,
        return_date: r.return_date,
        price_cents: r.price_cents,
        file_source: r.file_source.clone(),
    }
}

/// The analyzer session. The loaded state is written only by
/// [`Self::load_excel_files`] and read by the queries; a host with
/// several threads must serialize writers itself.
pub struct SimpleRustAnalyzer {
    borrow_records: Vec<BorrowRecord>,
    reader_info: Vec<ReaderRosterEntry>,
    reader_files: Vec<ReaderFileInfo>,
}

impl SimpleRustAnalyzer {
    /// The loaded records.
    pub closed spec fn recs(&self) -> Seq<RecView> {
        recs_view(self.borrow_records@)
    }

    /// The loaded roster, as (name, card number) pairs.
    pub closed spec fn roster(&self) -> Seq<(Seq<char>, Seq<char>)> {
        self.reader_info@.map_values(|e: ReaderRosterEntry| (e.name@, e.card_number@))
    }

    /// The loaded file units, as (path, primary reader, count) triples.
    pub closed spec fn file_units(&self) -> Seq<(Seq<char>, Seq<char>, int)> {
        self.reader_files@.map_values(
            |f: ReaderFileInfo| (f.file_path@, f.primary_reader_name@, f.record_count as int),
        )
    }

    /// Every loaded record holds valid dates.
    pub closed spec fn wf(&self) -> bool {
        all_wf(self.recs())
    }

    pub fn new() -> (s: Self)
        ensures
            s.wf(),
            s.recs() == Seq::<RecView>::empty(),
            s.roster() == Seq::<(Seq<char>, Seq<char>)>::empty(),
            s.file_units() == Seq::<(Seq<char>, Seq<char>, int)>::empty(),
    {
        let s = SimpleRustAnalyzer {
            borrow_records: Vec::new(),
            reader_info: Vec::new(),
            reader_files: Vec::new(),
        };
        proof {
            assert(s.recs() =~= Seq::<RecView>::empty());
            assert(s.roster() =~= Seq::<(Seq<char>, Seq<char>)>::empty());
            assert(s.file_units() =~= Seq::<(Seq<char>, Seq<char>, int)>::empty());
        }
        s
    }

    /// Rebuilds the session from a roster sheet and an ordered list of
    /// borrow-history sheets, each given as rows of decoded cells with
    /// its source path. Previous state is cleared first; row-level
    /// failures are skipped; the only fatal condition is ending up with
    /// zero records.
    pub fn load_excel_files(
        &mut self,
        roster_rows: &Vec<Vec<Cell>>,
        borrow_files: &Vec<(String, Vec<Vec<Cell>>)>,
    ) -> (r: Result<(), AnalyzerError>)
        ensures
            final (self).wf(),
            final (self).recs() == spec_all_records(borrow_files@),
            final (self).roster() == spec_roster_of(roster_rows@),
            final (self).file_units() == spec_file_units(borrow_files@),
            r matches Ok(u) <==> spec_all_records(borrow_files@).len() > 0,
            r matches Err(e) ==> e == AnalyzerError::EmptyDataset,
    {
        self.borrow_records = Vec::new();
        self.reader_info = Vec::new();
        self.reader_files = Vec::new();
        proof {
            assert(self.roster() =~= Seq::<(Seq<char>, Seq<char>)>::empty());
            assert(self.recs() =~= Seq::<RecView>::empty());
            assert(self.file_units() =~= Seq::<(Seq<char>, Seq<char>, int)>::empty());
        }
        let nr = roster_rows.len();
        if nr > 0 {
            proof {
                assert(roster_rows@.subrange(1, 1) =~= Seq::<Vec<Cell>>::empty());
            }
            let mut i: usize = 1;
            while i < nr
                invariant
                    1 <= i <= nr,
                    nr == roster_rows@.len(),
                    self.borrow_records@.len() == 0,
                    self.reader_files@.len() == 0,
                    self.roster() == spec_roster(roster_rows@.subrange(1, i as int)),
                decreases nr - i,
            {
                let ghost old_info = self.reader_info@;
                let ghost body = roster_rows@.subrange(1, i as int + 1);
                proof {
                    assert(body.drop_last() =~= roster_rows@.subrange(1, i as int));
                    assert(body.last() == roster_rows@[i as int]);
                }
                match roster_entry_of(roster_rows.get(i).unwrap()) {
                    Some(e) => {
                        self.reader_info.push(e);
                        proof {
                            assert(self.roster() =~= old_info.map_values(
                                |e: ReaderRosterEntry| (e.name@, e.card_number@),
                            ).push(
                                (
                                    self.reader_info@.last().name@,
                                    self.reader_info@.last().card_number@,
                                ),
                            ));
                        }
                    },
                    None => {},
                }
                i = i + 1;
            }
            proof {
                assert(roster_rows@.subrange(1, nr as int) =~= roster_rows@.skip(1));
            }
        }
        proof {
            assert(self.roster() == spec_roster_of(roster_rows@));
        }
        let nf = borrow_files.len();
        let mut k: usize = 0;
        while k < nf
            invariant
                0 <= k <= nf,
                nf == borrow_files@.len(),
                self.recs() == spec_all_records(borrow_files@.take(k as int)),
                all_wf(self.recs()),
                self.file_units() == spec_file_units(borrow_files@.take(k as int)),
                self.roster() == spec_roster_of(roster_rows@),
            decreases nf - k,
        {
            let f = borrow_files.get(k).unwrap();
            let mut file_recs: Vec<BorrowRecord> = Vec::new();
            proof {
                assert(recs_view(file_recs@) =~= Seq::<RecView>::empty());
            }
            let rows = &f.1;
            let nrows = rows.len();
            if nrows > 0 {
                proof {
                    assert(rows@.subrange(1, 1) =~= Seq::<Vec<Cell>>::empty());
                }
                let mut j: usize = 1;
                while j < nrows
                    invariant
                        1 <= j <= nrows,
                        nrows == rows@.len(),
                        rows == &borrow_files@[k as int].1,
                        f == &borrow_files@[k as int],
                        k < borrow_files@.len(),
                        recs_view(file_recs@) == spec_sheet_records(
                            rows@.subrange(1, j as int),
                            borrow_files@[k as int].0@,
                        ),
                        all_wf(recs_view(file_recs@)),
                    decreases nrows - j,
                {
                    let ghost old_recs = recs_view(file_recs@);
                    let ghost body = rows@.subrange(1, j as int + 1);
                    proof {
                        assert(body.drop_last() =~= rows@.subrange(1, j as int));
                        assert(body.last() == rows@[j as int]);
                    }
                    match parse_borrow_record(rows.get(j).unwrap(), f.0.as_str()) {
                        Ok(rec) => {
                            file_recs.push(rec);
                            proof {
                                assert(recs_view(file_recs@) =~= old_recs.push(
                                    file_recs@.last()@,
                                ));
                            }
                        },
                        Err(e) => {},
                    }
                    j = j + 1;
                }
                proof {
                    assert(rows@.subrange(1, nrows as int) =~= rows@.skip(1));
                    assert(recs_view(file_recs@) == spec_file_records(borrow_files@[k as int]));
                }
            }
            proof {
                assert(recs_view(file_recs@) == spec_file_records(borrow_files@[k as int]));
            }
            let primary = get_primary_reader_name(&file_recs);
            let count = file_recs.len();
            let ghost before = self.borrow_records@;
            let ghost added = file_recs@;
            self.borrow_records.append(&mut file_recs);
            let ghost old_units = self.file_units();
            self.reader_files.push(
                ReaderFileInfo {
                    file_path: f.0.clone(),
                    primary_reader_name: primary,
                    record_count: count,
                },
            );
            proof {
                assert(recs_view(before + added) =~= recs_view(before) + recs_view(added));
                assert(borrow_files@.take(k as int + 1).drop_last() =~= borrow_files@.take(
                    k as int,
                ));
                assert(borrow_files@.take(k as int + 1).last() == borrow_files@[k as int]);
                assert(self.recs() == spec_all_records(borrow_files@.take(k as int + 1)));
                assert(self.file_units() =~= old_units.push(
                    (
                        borrow_files@[k as int].0@,
                        spec_primary_name(spec_file_records(borrow_files@[k as int])),
                        spec_file_records(borrow_files@[k as int]).len() as int,
                    ),
                ));
                assert(self.file_units() =~= spec_file_units(borrow_files@.take(k as int + 1)));
            }
            k = k + 1;
        }
        proof {
            assert(borrow_files@.take(nf as int) =~= borrow_files@);
        }
        if self.borrow_records.len() == 0 {
            Err(AnalyzerError::EmptyDataset)
        } else {
            Ok(())
        }
    }

    /// Computes the aggregate result over one record subset under one
    /// display name.
    fn compute_result(records: &Vec<BorrowRecord>, reader_name: String) -> (a: AnalysisResult)
        requires
            records@.len() > 0,
            all_wf(recs_view(records@)),
        ensures
            analysis_matches(a, recs_view(records@), reader_name@),
    {
        let borrow_frequency = records.len() as u64;
        let total_reading_duration = calculate_total_reading_duration(records);
        let price_total = total_price_cents(records);
        let freq = analyze_most_frequent(records);
        let longest = analyze_longest_duration(records);
        let borrow_peak_yearmonth = analyze_borrow_peak(records);
        let book = analyze_most_borrowed_book(records);
        let monthly_borrow = analyze_monthly_borrow(records);
        let attendance = analyze_full_attendance(records);
        let total_full_attendance = attendance.1;
        AnalysisResult {
            reader_name,
            borrow_frequency,
            total_reading_duration,
            total_price_cents: price_total,
            most_frequent_author: freq.0,
            most_frequent_category: freq.1,
            longest_author: longest.0,
            longest_category: longest.1,
            borrow_peak_yearmonth,
            most_borrowed_book: book.0,
            most_borrowed_book_count: book.1,
            total_full_attendance,
            monthly_borrow,
            book_borrow_counts: book.2,
            full_attendance: attendance.0,
        }
    }

    /// Analyzes the whole loaded record set under the given display
    /// name (each source file holds one reader's history, so no name
    /// filtering happens).
    pub fn analyze(&self, reader_name: &str) -> (r: Result<AnalysisResult, AnalyzerError>)
        requires
            self.wf(),
        ensures
            match r {
                Ok(a) => self.recs().len() > 0 && analysis_matches(a, self.recs(), reader_name@),
                Err(e) => self.recs().len() == 0 && e == AnalyzerError::EmptyDataset,
            },
    {
        if self.borrow_records.len() == 0 {
            return Err(AnalyzerError::EmptyDataset);
        }
        Ok(Self::compute_result(&self.borrow_records, reader_name.to_owned()))
    }

    /// Analyzes the records of one source file, under that file's most
    /// frequent reader name.
    pub fn analyze_file(&self, file_path: &str) -> (r: Result<AnalysisResult, AnalyzerError>)
        requires
            self.wf(),
        ensures
            match r {
                Ok(a) => records_for(self.recs(), file_path@).len() > 0 && analysis_matches(
                    a,
                    records_for(self.recs(), file_path@),
                    spec_primary_name(records_for(self.recs(), file_path@)),
                ),
                Err(e) => records_for(self.recs(), file_path@).len() == 0 && e
                    == AnalyzerError::NoRecordsForFile,
            },
    {
        let ghost rv = self.recs();
        let n = self.borrow_records.len();
        let mut sub: Vec<BorrowRecord> = Vec::new();
        let mut i: usize = 0;
        while i < n
            invariant
                0 <= i <= n,
                n == rv.len(),
                rv == self.recs(),
                all_wf(rv),
                recs_view(sub@) == records_for(rv.take(i as int), file_path@),
                all_wf(recs_view(sub@)),
            decreases n - i,
        {
            let ghost old_sub = recs_view(sub@);
            proof {
                assert(rv.take(i as int + 1).drop_last() =~= rv.take(i as int));
                assert(rv.take(i as int + 1).last() == rv[i as int]);
                assert(rv[i as int] == self.borrow_records@[i as int]@);
            }
            let rec = self.borrow_records.get(i).unwrap();
            if crate::text::str_eq(rec.file_source.as_str(), file_path) {
                sub.push(clone_record(rec));
                proof {
                    assert(recs_view(sub@) =~= old_sub.push(sub@.last()@));
                }
            }
            i = i + 1;
        }
        proof {
            assert(rv.take(n as int) =~= rv);
        }
        if sub.len() == 0 {
            return Err(AnalyzerError::NoRecordsForFile);
        }
        let primary = get_primary_reader_name(&sub);
        Ok(Self::compute_result(&sub, primary))
    }

    /// Analyzes the file at the given index of the loaded set.
    pub fn analyze_single_file(&self, file_index: usize) -> (r: Result<
        AnalysisResult,
        AnalyzerError,
    >)
        requires
            self.wf(),
        ensures
            file_index >= self.file_units().len() ==> (r matches Err(e) && e
                == AnalyzerError::IndexOutOfRange),
            file_index < self.file_units().len() ==> ({
                let src = self.file_units()[file_index as int].0;
                match r {
                    Ok(a) => records_for(self.recs(), src).len() > 0 && analysis_matches(
                        a,
                        records_for(self.recs(), src),
                        spec_primary_name(records_for(self.recs(), src)),
                    ),
                    Err(e) => records_for(self.recs(), src).len() == 0 && e
                        == AnalyzerError::NoRecordsForFile,
                }
            }),
    {
        if file_index >= self.reader_files.len() {
            return Err(AnalyzerError::IndexOutOfRange);
        }
        let path = &self.reader_files.get(file_index).unwrap().file_path;
        self.analyze_file(path.as_str())
    }

    /// How many borrow-history files the session holds.
    pub fn get_file_count(&self) -> (n: usize)
        ensures
            n as int == self.file_units().len(),
    {
        self.reader_files.len()
    }

    /// The file name (the path's final segment) of the file at the
    /// given index, or the unknown-file text when the index is out of
    /// range.
    pub fn get_file_name(&self, file_index: usize) -> (n: String)
        ensures
            file_index < self.file_units().len() ==> n@ == spec_base_name(
                self.file_units()[file_index as int].0,
            ),
            file_index >= self.file_units().len() ==> n@ == "未知文件"@,
    {
        if file_index < self.reader_files.len() {
            base_name(self.reader_files.get(file_index).unwrap().file_path.as_str())
        } else {
            "未知文件".to_owned()
        }
    }

    /// A copy of the loaded file units.
    pub fn get_reader_files(&self) -> (fs: Vec<ReaderFileInfo>)
        ensures
            fs@.map_values(
                |f: ReaderFileInfo| (f.file_path@, f.primary_reader_name@, f.record_count as int),
            ) == self.file_units(),
    {
        let n = self.reader_files.len();
        let mut fs: Vec<ReaderFileInfo> = Vec::new();
        let mut i: usize = 0;
        while i < n
            invariant
                0 <= i <= n,
                n == self.reader_files@.len(),
                fs@.len() == i,
                forall|j: int|
                    0 <= j < i ==> (#[trigger] fs@[j]).file_path@
                        == self.reader_files@[j].file_path@ && fs@[j].primary_reader_name@
                        == self.reader_files@[j].primary_reader_name@ && fs@[j].record_count
                        == self.reader_files@[j].record_count,
            decreases n - i,
        {
            let f = self.reader_files.get(i).unwrap();
            fs.push(
                ReaderFileInfo {
                    file_path: f.file_path.clone(),
                    primary_reader_name: f.primary_reader_name.clone(),
                    record_count: f.record_count,
                },
            );
            i = i + 1;
        }
        proof {
            assert(fs@.map_values(
                |f: ReaderFileInfo| (f.file_path@, f.primary_reader_name@, f.record_count as int),
            ) =~= self.file_units());
        }
        fs
    }

    /// The most frequent reader name over all loaded records, as a
    /// one-element list; empty when nothing is loaded.
    pub fn get_available_readers(&self) -> (rs: Vec<String>)
        requires
            self.wf(),
        ensures
            self.recs().len() == 0 ==> rs@.len() == 0,
            self.recs().len() > 0 ==> rs@.len() == 1 && rs@[0]@ == spec_primary_name(self.recs()),
    {
        let mut rs: Vec<String> = Vec::new();
        if self.borrow_records.len() > 0 {
            rs.push(get_primary_reader_name(&self.borrow_records));
        }
        rs
    }

    /// A copy of the loaded roster entries.
    pub fn get_reader_info(&self) -> (es: Vec<ReaderRosterEntry>)
        ensures
            es@.map_values(|e: ReaderRosterEntry| (e.name@, e.card_number@)) == self.roster(),
    {
        let n = self.reader_info.len();
        let mut es: Vec<ReaderRosterEntry> = Vec::new();
        let mut i: usize = 0;
        while i < n
            invariant
                0 <= i <= n,
                n == self.reader_info@.len(),
                es@.len() == i,
                forall|j: int|
                    0 <= j < i ==> (#[trigger] es@[j]).name@ == self.reader_info@[j].name@
                        && es@[j].card_number@ == self.reader_info@[j].card_number@,
            decreases n - i,
        {
            let e = self.reader_info.get(i).unwrap();
            es.push(
                ReaderRosterEntry { name: e.name.clone(), card_number: e.card_number.clone() },
            );
            i = i + 1;
        }
        proof {
            assert(es@.map_values(|e: ReaderRosterEntry| (e.name@, e.card_number@))
                =~= self.roster());
        }
        es
    }
}

} // verus!
