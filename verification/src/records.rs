//! The data model: borrow records, roster entries, file units, the
//! aggregate analysis result, and the error taxonomy.

use crate::calendar::{valid_date, Date};
use vstd::prelude::*;

verus! {

/// One borrowing event, normalized from a spreadsheet row. Immutable
/// once created.
#[derive(Debug)]
pub struct BorrowRecord {
    pub reader_name: String,
    pub book_title: String,
    pub author: String,
    /// The display name the category code resolved to.
    pub category: String,
    pub borrow_date: Date,
    /// Absent means "not yet returned", not an error.
    pub return_date: Option<Date>,
    /// The book's price in cents; 0 when the source cell was unparsable.
    pub price_cents: u64,
    /// The spreadsheet the record came from.
    pub file_source: String,
}

/// The mathematical content of a borrow record.
pub ghost struct RecView {
    pub reader_name: Seq<char>,
    pub book_title: Seq<char>,
    pub author: Seq<char>,
    pub category: Seq<char>,
    pub borrow_date: Date,
    pub return_date: Option<Date>,
    pub price_cents: int,
    pub file_source: Seq<char>,
}

impl View for BorrowRecord {
    type V = RecView;

    open spec fn view(&self) -> RecView {
        RecView {
            reader_name: self.reader_name@,
            book_title: self.book_title@,
            author: self.author@,
            category: self.category@,
            borrow_date: self.borrow_date,
            return_date: self.return_date,
            price_cents: self.price_cents as int,
            file_source: self.file_source@,
        }
    }
}

/// Both dates of a record are valid calendar dates.
pub open spec fn wf_record(r: RecView) -> bool {
    valid_date(r.borrow_date) && match r.return_date {
        Some(d) => valid_date(d),
        None => true,
    }
}

/// Why a single row was rejected; never fatal for a load.
#[derive(Clone, Copy, PartialEq, Eq, Structural, Debug)]
pub enum RowParseError {
    /// Fewer than eight columns.
    TooShort,
    /// The row ends before the borrow-date column.
    MissingBorrowDate,
    /// The borrow-date cell could not be read as a date.
    InvalidBorrowDate,
    /// The reader-name cell is empty after trimming.
    EmptyReaderName,
    /// The book-title cell is empty after trimming.
    EmptyBookTitle,
}

/// A fatal error of a load or a query.
#[derive(Clone, Copy, PartialEq, Eq, Structural, Debug)]
pub enum AnalyzerError {
    /// Ingestion completed with zero usable records.
    EmptyDataset,
    /// No loaded record has the queried file path.
    NoRecordsForFile,
    /// A file index beyond the loaded set.
    IndexOutOfRange,
}

/// One loaded borrow-history file, treated as one logical reader.
#[derive(Debug)]
pub struct ReaderFileInfo {
    pub file_path: String,
    /// The most frequent reader name among the file's records.
    pub primary_reader_name: String,
    pub record_count: usize,
}

/// One roster row: a reader's name and card number.
#[derive(Debug)]
pub struct ReaderRosterEntry {
    pub name: String,
    pub card_number: String,
}

/// The aggregate outcome of one analysis, recomputed per call and never
/// mutated once returned. Prices are in cents; durations in days.
#[derive(Debug)]
pub struct AnalysisResult {
    pub reader_name: String,
    pub borrow_frequency: u64,
    pub total_reading_duration: u64,
    pub total_price_cents: u64,
    pub most_frequent_author: String,
    pub most_frequent_category: String,
    pub longest_author: String,
    pub longest_category: String,
    pub borrow_peak_yearmonth: String,
    pub most_borrowed_book: String,
    pub most_borrowed_book_count: u64,
    pub total_full_attendance: u64,
    pub monthly_borrow: Vec<(String, u64)>,
    pub book_borrow_counts: Vec<(String, u64)>,
    pub full_attendance: Vec<String>,
}

} // verus!
