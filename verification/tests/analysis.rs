use borrow_analytics::analyzer::SimpleRustAnalyzer;
use borrow_analytics::cells::Cell;
use borrow_analytics::records::{AnalysisResult, AnalyzerError};
use borrow_analytics::stats::top_ranked;

fn txt(s: &str) -> Cell {
    Cell::Text(s.to_string())
}

fn header() -> Vec<Cell> {
    vec![
        txt("序号"),
        txt("姓名"),
        txt("书号"),
        txt("书名"),
        txt("作者"),
        txt("出版社"),
        txt("价格"),
        txt("类别"),
        txt("借书日期"),
        txt("还书日期"),
    ]
}

fn brow(name: &str, title: &str, author: &str, price: &str, cat: &str, borrow: &str, ret: &str) -> Vec<Cell> {
    vec![
        txt("1"),
        txt(name),
        txt("B001"),
        txt(title),
        txt(author),
        txt("Pub"),
        txt(price),
        txt(cat),
        txt(borrow),
        txt(ret),
    ]
}

fn load_one(rows: Vec<Vec<Cell>>) -> SimpleRustAnalyzer {
    let mut a = SimpleRustAnalyzer::new();
    let roster = vec![header()];
    let files = vec![("readers/mei.xlsx".to_string(), rows)];
    a.load_excel_files(&roster, &files).unwrap();
    a
}

fn monthly_sum(a: &AnalysisResult) -> u64 {
    let mut s = 0u64;
    for (_, c) in a.monthly_borrow.iter() {
        s += c;
    }
    s
}

#[test]
fn roster_layouts() {
    let mut a = SimpleRustAnalyzer::new();
    let roster = vec![
        vec![txt("序号"), txt("卡号"), txt("姓名")],
        // three columns: sequence number, card, name
        vec![txt("1"), txt("C001"), txt("Mei Lin")],
        // two columns: name, card
        vec![txt("Li Hua"), txt("C002")],
        // four or more columns: card at index 2, name at index 3
        vec![txt("3"), txt("acct"), txt("C003"), txt("Zhang Wei"), txt("F")],
        // incomplete rows are skipped
        vec![txt("only-one")],
        vec![txt(""), txt("C009")],
    ];
    let rows = vec![
        header(),
        brow("Mei Lin", "Book A", "Author A", "10", "EPB", "2024-01-03", "2024-01-17"),
    ];
    let files = vec![("f.xlsx".to_string(), rows)];
    a.load_excel_files(&roster, &files).unwrap();
    let entries = a.get_reader_info();
    assert_eq!(entries.len(), 3);
    assert_eq!(entries[0].name, "Mei Lin");
    assert_eq!(entries[0].card_number, "C001");
    assert_eq!(entries[1].name, "Li Hua");
    assert_eq!(entries[1].card_number, "C002");
    assert_eq!(entries[2].name, "Zhang Wei");
    assert_eq!(entries[2].card_number, "C003");
}

#[test]
fn duration_of_returned_and_unreturned() {
    let a = load_one(vec![
        header(),
        brow("Mei Lin", "Book A", "Author A", "10", "EPB", "2024-01-03", "2024-01-17"),
    ]);
    let r = a.analyze("Mei Lin").unwrap();
    assert_eq!(r.total_reading_duration, 14);

    let b = load_one(vec![
        header(),
        brow("Mei Lin", "Book A", "Author A", "10", "EPB", "2024-01-03", ""),
    ]);
    let r2 = b.analyze("Mei Lin").unwrap();
    assert_eq!(r2.total_reading_duration, 30);
}

#[test]
fn same_day_return_counts_zero() {
    let a = load_one(vec![
        header(),
        brow("A", "T", "U", "1", "EPB", "2024-01-03", "2024-01-03"),
    ]);
    assert_eq!(a.analyze("A").unwrap().total_reading_duration, 0);
}

#[test]
fn analysis_aggregates() {
    let a = load_one(vec![
        header(),
        brow("Mei Lin", "Book A", "Author X", "¥10.50", "EPB", "2024-01-03", "2024-01-10"),
        brow("Mei Lin", "Book A", "Author X", "10.50", "EPB", "2024-01-05", "2024-01-06"),
        brow("Mei Lin", "Book B", "Author Y", "N/A", "CPB", "2024-02-01", ""),
        brow("Mei Lin", "Book C", "Author X", "5", "ZZZ", "2024-02-02", "2024-02-04"),
    ]);
    let r = a.analyze("Mei Lin").unwrap();
    assert_eq!(r.reader_name, "Mei Lin");
    assert_eq!(r.borrow_frequency, 4);
    assert_eq!(r.total_price_cents, 1050 + 1050 + 0 + 500);
    assert_eq!(r.total_reading_duration, 7 + 1 + 30 + 2);
    assert_eq!(r.most_frequent_author, "Author X");
    assert_eq!(r.most_frequent_category, "英文绘本");
    assert_eq!(r.longest_author, "Author Y"); // 30 days beats 10
    assert_eq!(r.longest_category, "中文绘本");
    assert_eq!(r.most_borrowed_book, "Book A");
    assert_eq!(r.most_borrowed_book_count, 2);
    assert_eq!(r.borrow_peak_yearmonth, "2024-01");
    assert!(r.monthly_borrow.contains(&("2024-01".to_string(), 2)));
    assert!(r.monthly_borrow.contains(&("2024-02".to_string(), 2)));
    // an unknown category code passes through verbatim
    assert!(r.book_borrow_counts.contains(&("Book C".to_string(), 1)));
}

#[test]
fn monthly_counts_sum_to_frequency() {
    let a = load_one(vec![
        header(),
        brow("A", "T1", "U", "1", "EPB", "2024-01-03", ""),
        brow("A", "T2", "U", "1", "EPB", "2024-01-20", ""),
        brow("A", "T3", "U", "1", "EPB", "2024-03-05", ""),
        brow("A", "T4", "U", "1", "EPB", "2023-12-31", ""),
    ]);
    let r = a.analyze("A").unwrap();
    assert_eq!(monthly_sum(&r), r.borrow_frequency);
}

#[test]
fn most_borrowed_count_is_map_maximum() {
    let a = load_one(vec![
        header(),
        brow("A", "T1", "U", "1", "EPB", "2024-01-03", ""),
        brow("A", "T2", "U", "1", "EPB", "2024-01-04", ""),
        brow("A", "T2", "U", "1", "EPB", "2024-01-05", ""),
        brow("A", "T3", "U", "1", "EPB", "2024-01-06", ""),
    ]);
    let r = a.analyze("A").unwrap();
    let max = r.book_borrow_counts.iter().map(|p| p.1).max().unwrap();
    assert_eq!(r.most_borrowed_book_count, max);
    assert_eq!(r.most_borrowed_book, "T2");
}

#[test]
fn argmax_ties_take_first_encountered() {
    let a = load_one(vec![
        header(),
        brow("A", "T", "Second", "1", "EPB", "2024-01-04", ""),
        brow("A", "T", "First", "1", "EPB", "2024-01-03", ""),
        brow("A", "T", "First", "1", "EPB", "2024-01-05", ""),
        brow("A", "T", "Second", "1", "EPB", "2024-01-06", ""),
    ]);
    let r = a.analyze("A").unwrap();
    assert_eq!(r.most_frequent_author, "Second");
}

#[test]
fn analyze_twice_is_identical() {
    let a = load_one(vec![
        header(),
        brow("Mei Lin", "Book A", "Author X", "10", "EPB", "2024-01-03", "2024-01-17"),
        brow("Mei Lin", "Book B", "Author Y", "20", "CPB", "2024-02-01", ""),
    ]);
    let r1 = a.analyze("Mei Lin").unwrap();
    let r2 = a.analyze("Mei Lin").unwrap();
    assert_eq!(r1.reader_name, r2.reader_name);
    assert_eq!(r1.borrow_frequency, r2.borrow_frequency);
    assert_eq!(r1.total_reading_duration, r2.total_reading_duration);
    assert_eq!(r1.total_price_cents, r2.total_price_cents);
    assert_eq!(r1.most_frequent_author, r2.most_frequent_author);
    assert_eq!(r1.most_frequent_category, r2.most_frequent_category);
    assert_eq!(r1.longest_author, r2.longest_author);
    assert_eq!(r1.longest_category, r2.longest_category);
    assert_eq!(r1.borrow_peak_yearmonth, r2.borrow_peak_yearmonth);
    assert_eq!(r1.most_borrowed_book, r2.most_borrowed_book);
    assert_eq!(r1.most_borrowed_book_count, r2.most_borrowed_book_count);
    assert_eq!(r1.total_full_attendance, r2.total_full_attendance);
    assert_eq!(r1.monthly_borrow, r2.monthly_borrow);
    assert_eq!(r1.book_borrow_counts, r2.book_borrow_counts);
    assert_eq!(r1.full_attendance, r2.full_attendance);
}

#[test]
fn attendance_missing_week_blocks_month() {
    // February 2024 overlaps ISO weeks 5 through 9; these records cover
    // weeks 5 through 8 only, so February is not full attendance.
    let a = load_one(vec![
        header(),
        brow("A", "T1", "U", "1", "EPB", "2024-02-01", ""),
        brow("A", "T2", "U", "1", "EPB", "2024-02-06", ""),
        brow("A", "T3", "U", "1", "EPB", "2024-02-13", ""),
        brow("A", "T4", "U", "1", "EPB", "2024-02-20", ""),
    ]);
    let r = a.analyze("A").unwrap();
    assert!(!r.full_attendance.contains(&"2024-02".to_string()));
}

#[test]
fn attendance_neighbor_file_completes_week() {
    // The same four February records, plus a second file whose March
    // record falls in ISO week 9 — the week February still needed.
    let mut a = SimpleRustAnalyzer::new();
    let roster = vec![header()];
    let feb = vec![
        header(),
        brow("A", "T1", "U", "1", "EPB", "2024-02-01", ""),
        brow("A", "T2", "U", "1", "EPB", "2024-02-06", ""),
        brow("A", "T3", "U", "1", "EPB", "2024-02-13", ""),
        brow("A", "T4", "U", "1", "EPB", "2024-02-20", ""),
    ];
    let march = vec![header(), brow("A", "T5", "U", "1", "EPB", "2024-03-01", "")];
    let files = vec![("feb.xlsx".to_string(), feb), ("mar.xlsx".to_string(), march)];
    a.load_excel_files(&roster, &files).unwrap();
    let r = a.analyze("A").unwrap();
    assert!(r.full_attendance.contains(&"2024-02".to_string()));
    // March misses weeks 10 and later, so it is not listed.
    assert!(!r.full_attendance.contains(&"2024-03".to_string()));
    assert_eq!(r.total_full_attendance, r.full_attendance.len() as u64);
}

#[test]
fn single_week_month_cross_counting() {
    // One borrow near a month boundary can complete a week that two
    // months share; each month still needs its other weeks.
    let a = load_one(vec![
        header(),
        brow("A", "T1", "U", "1", "EPB", "2024-02-26", ""),
    ]);
    let r = a.analyze("A").unwrap();
    // Only week 9 of February is covered, so no month is complete.
    assert_eq!(r.total_full_attendance, 0);
}

#[test]
fn per_file_analysis_and_units() {
    let mut a = SimpleRustAnalyzer::new();
    let roster = vec![header()];
    let f1 = vec![
        header(),
        brow("Mei Lin", "Book A", "X", "10", "EPB", "2024-01-03", ""),
        brow("Mei Lin", "Book B", "X", "10", "EPB", "2024-01-04", ""),
        brow("Typo Name", "Book C", "X", "10", "EPB", "2024-01-05", ""),
    ];
    let f2 = vec![header(), brow("Li Hua", "Book D", "Y", "20", "CPB", "2024-02-01", "")];
    let files = vec![("a/mei.xlsx".to_string(), f1), ("a/li.xlsx".to_string(), f2)];
    a.load_excel_files(&roster, &files).unwrap();

    assert_eq!(a.get_file_count(), 2);
    assert_eq!(a.get_file_name(0), "mei.xlsx");
    assert_eq!(a.get_file_name(1), "li.xlsx");
    assert_eq!(a.get_file_name(7), "未知文件");

    let units = a.get_reader_files();
    assert_eq!(units.len(), 2);
    assert_eq!(units[0].file_path, "a/mei.xlsx");
    assert_eq!(units[0].primary_reader_name, "Mei Lin");
    assert_eq!(units[0].record_count, 3);
    assert_eq!(units[1].primary_reader_name, "Li Hua");
    assert_eq!(units[1].record_count, 1);

    let r0 = a.analyze_single_file(0).unwrap();
    assert_eq!(r0.reader_name, "Mei Lin");
    assert_eq!(r0.borrow_frequency, 3);
    let r1 = a.analyze_single_file(1).unwrap();
    assert_eq!(r1.reader_name, "Li Hua");
    assert_eq!(r1.borrow_frequency, 1);
    assert_eq!(a.analyze_single_file(2).unwrap_err(), AnalyzerError::IndexOutOfRange);

    let rf = a.analyze_file("a/li.xlsx").unwrap();
    assert_eq!(rf.borrow_frequency, 1);
    assert_eq!(a.analyze_file("nowhere.xlsx").unwrap_err(), AnalyzerError::NoRecordsForFile);

    let readers = a.get_available_readers();
    assert_eq!(readers, vec!["Mei Lin".to_string()]);
}

#[test]
fn empty_dataset_is_fatal() {
    let mut a = SimpleRustAnalyzer::new();
    let roster = vec![header()];
    // only a header, and one row that fails to parse
    let rows = vec![header(), vec![txt("1"), txt("x")]];
    let files = vec![("f.xlsx".to_string(), rows)];
    assert_eq!(a.load_excel_files(&roster, &files).unwrap_err(), AnalyzerError::EmptyDataset);
    assert_eq!(a.analyze("x").unwrap_err(), AnalyzerError::EmptyDataset);
}

#[test]
fn bad_rows_are_skipped_not_fatal() {
    let a = load_one(vec![
        header(),
        vec![txt("1"), txt("x")],
        brow("A", "T", "U", "1", "EPB", "garbage", ""),
        brow("A", "T", "U", "1", "EPB", "2024-01-03", ""),
        brow("", "T", "U", "1", "EPB", "2024-01-03", ""),
    ]);
    let r = a.analyze("A").unwrap();
    assert_eq!(r.borrow_frequency, 1);
}

#[test]
fn reload_replaces_state() {
    let mut a = SimpleRustAnalyzer::new();
    let roster = vec![header()];
    let rows1 = vec![header(), brow("A", "T", "U", "1", "EPB", "2024-01-03", "")];
    let files1 = vec![("one.xlsx".to_string(), rows1)];
    a.load_excel_files(&roster, &files1).unwrap();
    assert_eq!(a.analyze("A").unwrap().borrow_frequency, 1);

    let rows2 = vec![
        header(),
        brow("B", "T2", "U", "1", "EPB", "2024-02-01", ""),
        brow("B", "T3", "U", "1", "EPB", "2024-02-02", ""),
    ];
    let files2 = vec![("two.xlsx".to_string(), rows2)];
    a.load_excel_files(&roster, &files2).unwrap();
    let r = a.analyze("B").unwrap();
    assert_eq!(r.borrow_frequency, 2);
    assert_eq!(a.get_file_count(), 1);
}

#[test]
fn top_ranked_orders_by_count() {
    let counts = vec![
        ("B".to_string(), 2u64),
        ("A".to_string(), 5u64),
        ("C".to_string(), 2u64),
        ("D".to_string(), 9u64),
    ];
    let top = top_ranked(&counts, 3);
    assert_eq!(top, vec![
        ("D".to_string(), 9u64),
        ("A".to_string(), 5u64),
        ("B".to_string(), 2u64),
    ]);
    let all = top_ranked(&counts, 10);
    assert_eq!(all.len(), 4);
    assert_eq!(all[3], ("C".to_string(), 2u64));
}
