use bible_reading_progress::display::format_read_count_text;
use bible_reading_progress::display::format_relative_date;
use bible_reading_progress::progress::Date;

/// An unread scope renders as a bare zero percentage.
#[test]
fn unread_scope() {
    assert_eq!(format_read_count_text(0, 0, 51), "0%");
    assert_eq!(format_read_count_text(0, 3, 51), "0%");
}

/// A uniform scope renders only the minimum count.
#[test]
fn uniform_scope() {
    assert_eq!(format_read_count_text(3, 0, 51), "3x");
    assert_eq!(format_read_count_text(1, 0, 0), "1x");
}

/// A fully elevated scope hides the extra part.
#[test]
fn fully_elevated_scope() {
    assert_eq!(format_read_count_text(3, 51, 51), "3x");
}

/// Large scopes render the extra part as a rounded percentage.
#[test]
fn percentage_scope() {
    assert_eq!(format_read_count_text(3, 40, 100), "3x + 40%");
    assert_eq!(format_read_count_text(3, 1, 200), "3x + 1%");
    // one short of everything rounds up to the full percentage and is hidden
    assert_eq!(format_read_count_text(2, 199, 200), "2x");
}

/// Small scopes render the extra part as a verse fraction.
#[test]
fn fraction_scope() {
    assert_eq!(format_read_count_text(3, 12, 30), "3x + 12/30 verses");
}

fn date(year: u32, month: u32, day: u32) -> Date {
    Date { year, month, day }
}

/// The relative-date table: words for the near past, counts within a week,
/// then week and month granularity.
#[test]
fn relative_dates_near() {
    let d = date(2024, 1, 1);
    assert_eq!(format_relative_date(0, d), "today");
    assert_eq!(format_relative_date(1, d), "yesterday");
    assert_eq!(format_relative_date(2, d), "2 days ago");
    assert_eq!(format_relative_date(7, d), "7 days ago");
    assert_eq!(format_relative_date(8, d), "last week");
    assert_eq!(format_relative_date(14, d), "last week");
    assert_eq!(format_relative_date(15, d), "2 weeks ago");
    assert_eq!(format_relative_date(30, d), "4 weeks ago");
    assert_eq!(format_relative_date(31, d), "1 month ago");
    assert_eq!(format_relative_date(60, d), "2 months ago");
}

/// Far past and future dates fall back to the zero-padded full date.
#[test]
fn relative_dates_far() {
    assert_eq!(format_relative_date(61, date(2023, 10, 5)), "2023-10-05");
    assert_eq!(format_relative_date(-1, date(2024, 2, 29)), "2024-02-29");
    assert_eq!(format_relative_date(400, date(33, 4, 7)), "0033-04-07");
}
