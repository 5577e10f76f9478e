use borrow_analytics::calendar::{date_from_serial, iso_week_of, serial_of_date, Date, IsoWeek};
use borrow_analytics::cells::{cell_text, Cell};
use borrow_analytics::parse::{
    categorycode2name, date_of_cell, date_of_text, parse_borrow_record, price_cents_of_cell,
};
use borrow_analytics::records::RowParseError;

fn txt(s: &str) -> Cell {
    Cell::Text(s.to_string())
}

fn row10(name: &str, title: &str, author: &str, price: Cell, cat: &str, borrow: Cell, ret: Cell) -> Vec<Cell> {
    vec![
        txt("1"),
        txt(name),
        txt("B001"),
        txt(title),
        txt(author),
        txt("Publisher"),
        price,
        txt(cat),
        borrow,
        ret,
    ]
}

#[test]
fn serial_day_count_round_trip() {
    let d = date_from_serial(45294).unwrap();
    assert_eq!((d.year, d.month, d.day), (2024, 1, 3));
    assert_eq!(serial_of_date(&d), 45294);
    let d2 = date_from_serial(0).unwrap();
    assert_eq!((d2.year, d2.month, d2.day), (1899, 12, 30));
    assert_eq!(serial_of_date(&d2), 0);
    let d3 = date_from_serial(36525).unwrap();
    assert_eq!((d3.year, d3.month, d3.day), (1999, 12, 31));
    assert_eq!(serial_of_date(&d3), 36525);
}

#[test]
fn serial_out_of_range_is_rejected() {
    assert!(date_from_serial(-700000).is_none());
    assert!(date_from_serial(4000001).is_none());
    assert!(date_from_serial(i64::MAX).is_none());
    assert!(date_from_serial(i64::MIN).is_none());
}

#[test]
fn leap_day_parses() {
    let d = date_from_serial(45351).unwrap();
    assert_eq!((d.year, d.month, d.day), (2024, 2, 29));
}

#[test]
fn date_text_formats() {
    let expect = Some(Date { year: 2024, month: 1, day: 3 });
    assert_eq!(date_of_text("2024-01-03"), expect);
    assert_eq!(date_of_text("2024/1/3"), expect);
    assert_eq!(date_of_text("2024年01月03日"), expect);
    assert_eq!(date_of_text("01/03/2024"), expect);
    assert_eq!(date_of_text("2024-01-03 12:30:45"), expect);
    assert_eq!(date_of_text("2024/01/03 09:05"), expect);
    assert_eq!(date_of_text("  2024-01-03  "), expect);
}

#[test]
fn date_text_day_first_fallback() {
    // month 13 is impossible, so the day-first layout applies
    assert_eq!(date_of_text("13/03/2024"), Some(Date { year: 2024, month: 3, day: 13 }));
}

#[test]
fn date_text_serial_fallback() {
    assert_eq!(date_of_text("45294"), Some(Date { year: 2024, month: 1, day: 3 }));
    assert_eq!(date_of_text("45294.75"), Some(Date { year: 2024, month: 1, day: 3 }));
}

#[test]
fn date_text_rejections() {
    assert_eq!(date_of_text("hello"), None);
    assert_eq!(date_of_text(""), None);
    assert_eq!(date_of_text("2024-13-40"), None);
    assert_eq!(date_of_text("2024-02-30"), None);
}

#[test]
fn date_cells() {
    let expect = Some(Date { year: 2024, month: 1, day: 3 });
    assert_eq!(date_of_cell(&Cell::Int(45294)), expect);
    assert_eq!(
        date_of_cell(&Cell::Num { text: "45294.7".to_string(), floor: 45294, cents: 0 }),
        expect
    );
    assert_eq!(
        date_of_cell(&Cell::Stamp { text: "2024-01-03".to_string(), floor: 45294 }),
        expect
    );
    assert_eq!(date_of_cell(&Cell::Empty), None);
    assert_eq!(date_of_cell(&Cell::Other("true".to_string())), None);
}

#[test]
fn price_cell_with_currency_sign() {
    assert_eq!(price_cents_of_cell(&txt("¥128.50")), 12850);
    assert_eq!(price_cents_of_cell(&txt("￥128.50")), 12850);
    assert_eq!(price_cents_of_cell(&txt("1,280")), 128000);
    assert_eq!(price_cents_of_cell(&txt("35")), 3500);
    assert_eq!(price_cents_of_cell(&txt("9.9")), 990);
}

#[test]
fn price_cell_unparsable_is_zero() {
    assert_eq!(price_cents_of_cell(&txt("N/A")), 0);
    assert_eq!(price_cents_of_cell(&txt("")), 0);
    assert_eq!(price_cents_of_cell(&Cell::Empty), 0);
    assert_eq!(price_cents_of_cell(&txt("12.3.4")), 0);
}

#[test]
fn price_inner_space_is_unparsable() {
    // only leading and trailing white space is trimmed; a space inside
    // the numeral survives stripping and makes the text ill-formed
    assert_eq!(price_cents_of_cell(&txt("¥ 128.50")), 0);
    assert_eq!(price_cents_of_cell(&txt(" ¥128.50 ")), 12850);
    assert_eq!(price_cents_of_cell(&txt("128.")), 12800);
    assert_eq!(price_cents_of_cell(&txt("128.505")), 12850);
}

#[test]
fn negative_serial_text_is_before_the_epoch() {
    assert_eq!(date_of_text("-5"), Some(Date { year: 1899, month: 12, day: 25 }));
    assert_eq!(date_of_text("+3"), Some(Date { year: 1900, month: 1, day: 2 }));
}

#[test]
fn price_numeric_cells() {
    assert_eq!(
        price_cents_of_cell(&Cell::Num { text: "128.5".to_string(), floor: 128, cents: 12850 }),
        12850
    );
    assert_eq!(price_cents_of_cell(&Cell::Int(35)), 3500);
    assert_eq!(price_cents_of_cell(&Cell::Int(-5)), 0);
}

#[test]
fn category_codes_resolve() {
    assert_eq!(categorycode2name("BLG"), "双语读物");
    assert_eq!(categorycode2name("CPB"), "中文绘本");
    assert_eq!(categorycode2name("EER"), "英文分级读物");
    assert_eq!(categorycode2name("EYX"), "英文音像(书)");
}

#[test]
fn unknown_category_code_passes_through() {
    assert_eq!(categorycode2name("ZZZ"), "ZZZ");
    assert_eq!(categorycode2name(""), "");
}

#[test]
fn record_row_parses_fully() {
    let row = row10(
        " Mei Lin ",
        "The Little Prince",
        "Saint-Exupery",
        txt("¥128.50"),
        "EPB",
        txt("2024-01-03"),
        txt("2024-01-17"),
    );
    let rec = parse_borrow_record(&row, "file_a.xlsx").unwrap();
    assert_eq!(rec.reader_name, "Mei Lin");
    assert_eq!(rec.book_title, "The Little Prince");
    assert_eq!(rec.author, "Saint-Exupery");
    assert_eq!(rec.category, "英文绘本");
    assert_eq!(rec.price_cents, 12850);
    assert_eq!(rec.borrow_date, Date { year: 2024, month: 1, day: 3 });
    assert_eq!(rec.return_date, Some(Date { year: 2024, month: 1, day: 17 }));
    assert_eq!(rec.file_source, "file_a.xlsx");
}

#[test]
fn record_row_errors() {
    let short = vec![txt("1"), txt("x")];
    assert_eq!(parse_borrow_record(&short, "f").unwrap_err(), RowParseError::TooShort);

    let mut no_date = row10("A", "T", "U", txt("1"), "EPB", txt("2024-01-03"), txt(""));
    no_date.truncate(8);
    assert_eq!(parse_borrow_record(&no_date, "f").unwrap_err(), RowParseError::MissingBorrowDate);

    let bad_date = row10("A", "T", "U", txt("1"), "EPB", txt("soon"), txt(""));
    assert_eq!(parse_borrow_record(&bad_date, "f").unwrap_err(), RowParseError::InvalidBorrowDate);

    let no_name = row10("  ", "T", "U", txt("1"), "EPB", txt("2024-01-03"), txt(""));
    assert_eq!(parse_borrow_record(&no_name, "f").unwrap_err(), RowParseError::EmptyReaderName);

    let no_title = row10("A", "", "U", txt("1"), "EPB", txt("2024-01-03"), txt(""));
    assert_eq!(parse_borrow_record(&no_title, "f").unwrap_err(), RowParseError::EmptyBookTitle);
}

#[test]
fn return_date_failure_degrades_to_none() {
    let row = row10("A", "T", "U", txt("1"), "EPB", txt("2024-01-03"), txt("not a date"));
    let rec = parse_borrow_record(&row, "f").unwrap();
    assert_eq!(rec.return_date, None);

    let row2 = row10("A", "T", "U", txt("1"), "EPB", txt("2024-01-03"), txt("  "));
    let rec2 = parse_borrow_record(&row2, "f").unwrap();
    assert_eq!(rec2.return_date, None);
}

#[test]
fn numeric_cells_render_as_text() {
    assert_eq!(cell_text(&Cell::Int(123)), "123");
    assert_eq!(cell_text(&Cell::Int(-45)), "-45");
    assert_eq!(cell_text(&Cell::Empty), "");
    assert_eq!(cell_text(&txt("abc")), "abc");
}

#[test]
fn iso_week_labels() {
    let w = iso_week_of(&Date { year: 2024, month: 2, day: 1 });
    assert_eq!(w, IsoWeek { year: 2024, week: 5 });
    let w2 = iso_week_of(&Date { year: 2024, month: 3, day: 1 });
    assert_eq!(w2, IsoWeek { year: 2024, week: 9 });
    // a year boundary that belongs to the previous ISO year
    let w3 = iso_week_of(&Date { year: 2021, month: 1, day: 1 });
    assert_eq!(w3, IsoWeek { year: 2020, week: 53 });
}
