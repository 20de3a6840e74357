use bible_reading_progress::bible_structure::BibleStructure;
use bible_reading_progress::config::Config;
use bible_reading_progress::config::ConfigFile;
use bible_reading_progress::progress::Date;
use bible_reading_progress::progress::InsideBookBibleReference;
use bible_reading_progress::progress::ReadingProgress;
use bible_reading_progress::progress::ReadingRecord;
use bible_reading_progress::stats::calculate_book_read_stats;
use bible_reading_progress::stats::calculate_chapter_read_stats;
use bible_reading_progress::stats::calculate_testament_min_read_count;
use bible_reading_progress::stats::compute_chapter_items;
use bible_reading_progress::stats::determine_book_color_from_children;
use bible_reading_progress::stats::determine_chapter_color;
use bible_reading_progress::stats::get_verse_read_counts;
use bible_reading_progress::stats::RowColor;
use bible_reading_progress::utils::get_all_books;
use bible_reading_progress::utils::parse_verse_ranges;
use bible_reading_progress::utils::get_progress_file_path;

fn verse(chapter: u32, verse: u32) -> InsideBookBibleReference {
    InsideBookBibleReference { chapter, verse }
}

fn day(d: u32) -> Date {
    Date {
        year: 2024,
        month: 1,
        day: d,
    }
}

/// Marking three verses on three successive days accumulates one interval
/// with a count of three, and the chapter statistics and colour follow.
#[test]
fn domain_end_to_end() {
    let mut progress = ReadingProgress::new();
    let john = "John".to_string();
    for d in 1..=3u32 {
        for v in 1..=3u32 {
            progress.mark_read_on(john.clone(), verse(1, v), day(d));
        }
    }
    let entries = progress.book_entries(&john);
    assert_eq!(
        entries,
        vec![(
            verse(1, 1),
            verse(1, 4),
            ReadingRecord {
                read_count: 3,
                last_read: day(3)
            }
        )]
    );
    let stats = calculate_chapter_read_stats(1, 51, progress.book_map(&john));
    assert_eq!(stats, (0, 3, 51));
    let counts = get_verse_read_counts(1, 51, progress.book_map(&john).unwrap());
    assert_eq!(counts.len(), 51);
    assert_eq!(counts[0], 3);
    assert_eq!(counts[3], 0);
    // the chapter's least count equals the book's least count: white
    assert_eq!(determine_chapter_color(0, 0, &counts), RowColor::White);
    // against a book minimum below some verse's count: green
    assert_eq!(determine_chapter_color(3, 0, &counts), RowColor::Green);
}

/// Marking the same verse twice on one day keeps a single read: the fresh
/// record is absorbed into the identical stored one.
#[test]
fn mark_same_day_keeps_count() {
    let mut progress = ReadingProgress::new();
    let john = "John".to_string();
    progress.mark_read_on(john.clone(), verse(1, 1), day(1));
    progress.mark_read_on(john.clone(), verse(1, 1), day(1));
    let entries = progress.book_entries(&john);
    assert_eq!(
        entries,
        vec![(
            verse(1, 1),
            verse(1, 2),
            ReadingRecord {
                read_count: 1,
                last_read: day(1)
            }
        )]
    );
}

/// Marking the same verse on different days adds the reads.
#[test]
fn mark_different_days_adds() {
    let mut progress = ReadingProgress::new();
    let john = "John".to_string();
    progress.mark_read_on(john.clone(), verse(1, 1), day(1));
    progress.mark_read_on(john.clone(), verse(1, 1), day(2));
    let entries = progress.book_entries(&john);
    assert_eq!(
        entries,
        vec![(
            verse(1, 1),
            verse(1, 2),
            ReadingRecord {
                read_count: 2,
                last_read: day(2)
            }
        )]
    );
}

/// Overwriting replaces the stored record instead of adding to it.
#[test]
fn overwrite_replaces() {
    let mut progress = ReadingProgress::new();
    let john = "John".to_string();
    progress.mark_read_on(john.clone(), verse(2, 5), day(1));
    progress.mark_read_on(john.clone(), verse(2, 5), day(2));
    progress.set_read_count(john.clone(), verse(2, 5), 7, Some(day(3)));
    let entries = progress.book_entries(&john);
    assert_eq!(
        entries,
        vec![(
            verse(2, 5),
            verse(2, 6),
            ReadingRecord {
                read_count: 7,
                last_read: day(3)
            }
        )]
    );
    progress.mark_read_overwrite(john.clone(), verse(2, 5), 1, Some(day(4)));
    let entries = progress.book_entries(&john);
    assert_eq!(
        entries,
        vec![(
            verse(2, 5),
            verse(2, 6),
            ReadingRecord {
                read_count: 1,
                last_read: day(4)
            }
        )]
    );
}

/// Books are independent and keep their first-use order.
#[test]
fn books_are_separate() {
    let mut progress = ReadingProgress::new();
    progress.mark_read_on("Mark".to_string(), verse(1, 1), day(1));
    progress.mark_read_on("Luke".to_string(), verse(1, 1), day(1));
    progress.mark_read_on("Mark".to_string(), verse(1, 2), day(1));
    let names = progress.book_names();
    assert_eq!(names, vec!["Mark".to_string(), "Luke".to_string()]);
    assert_eq!(progress.book_entries(&"Luke".to_string()).len(), 1);
    assert_eq!(progress.book_entries(&"John".to_string()).len(), 0);
}

/// An unread chapter of a known book reports zeroes.
#[test]
fn chapter_stats_all_unread() {
    let mut progress = ReadingProgress::new();
    progress.mark_read_on("John".to_string(), verse(2, 1), day(1));
    let stats = calculate_chapter_read_stats(1, 51, progress.book_map(&"John".to_string()));
    assert_eq!(stats, (0, 0, 0));
    let stats = calculate_chapter_read_stats(1, 51, None);
    assert_eq!(stats, (0, 0, 0));
}

/// A fully read chapter reports its minimum with no extras.
#[test]
fn chapter_stats_fully_read() {
    let mut progress = ReadingProgress::new();
    let john = "John".to_string();
    for v in 1..=5u32 {
        progress.mark_read_on(john.clone(), verse(3, v), day(1));
    }
    let stats = calculate_chapter_read_stats(3, 5, progress.book_map(&john));
    assert_eq!(stats, (1, 0, 5));
}

/// The book colour follows its chapters first, the testament rule after.
#[test]
fn book_color_rules() {
    let counts = vec![0u32, 2, 0];
    assert_eq!(
        determine_book_color_from_children(0, 0, &counts, &vec![true, true]),
        RowColor::Green
    );
    assert_eq!(
        determine_book_color_from_children(0, 0, &counts, &vec![true, false]),
        RowColor::Yellow
    );
    assert_eq!(
        determine_book_color_from_children(0, 0, &counts, &vec![false, false]),
        RowColor::White
    );
    assert_eq!(
        determine_book_color_from_children(1, 0, &counts, &vec![false, false]),
        RowColor::Green
    );
    assert_eq!(
        determine_book_color_from_children(1, 0, &vec![0u32, 0], &vec![false, false]),
        RowColor::Yellow
    );
}

/// All books come out in canonical order, Old Testament first.
#[test]
fn all_books_in_order() {
    let mut bible = BibleStructure::new();
    bible.ot.push(("Genesis".to_string(), vec![31, 25]));
    bible.ot.push(("Exodus".to_string(), vec![22]));
    bible.nt.push(("Matthew".to_string(), vec![25]));
    let books = get_all_books(&bible);
    assert_eq!(
        books,
        vec![
            "Genesis".to_string(),
            "Exodus".to_string(),
            "Matthew".to_string()
        ]
    );
}

/// The configuration exposes the paths it was built from.
#[test]
fn config_paths() {
    let config = Config::new("progress.yaml".to_string(), "settings.yaml".to_string());
    assert_eq!(get_progress_file_path(&config), "progress.yaml".to_string());
    assert_eq!(config.config_file_path(), &"settings.yaml".to_string());
    let file = ConfigFile::default();
    assert!(file.progress_path.is_none());
}

/// Book statistics span all chapters: the minimum includes unread verses
/// and the extras count every verse above it.
#[test]
fn book_stats_span_chapters() {
    let mut progress = ReadingProgress::new();
    let john = "John".to_string();
    // chapter 1 fully read once, chapter 2 half read twice
    for v in 1..=2u32 {
        progress.mark_read_on(john.clone(), verse(1, v), day(1));
    }
    progress.mark_read_on(john.clone(), verse(2, 1), day(1));
    progress.mark_read_on(john.clone(), verse(2, 1), day(2));
    let chapters = vec![2u32, 2u32];
    let stats = calculate_book_read_stats(&chapters, progress.book_map(&john));
    // verse (2,2) is unread, so the book minimum is zero; three verses exceed it
    assert_eq!(stats, (0, 3, 4));
    // an absent book reports zeroes
    assert_eq!(
        calculate_book_read_stats(&chapters, progress.book_map(&"Acts".to_string())),
        (0, 0, 0)
    );
}

/// The testament minimum ranges over every listed book, an absent book
/// counting as entirely unread, and is zero when no listed book has a
/// verse read.
#[test]
fn testament_minimum() {
    let mut progress = ReadingProgress::new();
    let books = vec![
        ("Matthew".to_string(), vec![2u32, 2]),
        ("Mark".to_string(), vec![1u32]),
    ];
    assert_eq!(calculate_testament_min_read_count(&books, &progress), 0);
    // Mark fully read once; the absent Matthew still counts as unread
    progress.mark_read_on("Mark".to_string(), verse(1, 1), day(1));
    assert_eq!(calculate_testament_min_read_count(&books, &progress), 0);
    // every verse of both books read once
    for (ch, v) in [(1u32, 1u32), (1, 2), (2, 1), (2, 2)] {
        progress.mark_read_on("Matthew".to_string(), verse(ch, v), day(1));
    }
    assert_eq!(calculate_testament_min_read_count(&books, &progress), 1);
    // a listed book without any verses changes nothing
    let with_empty = vec![
        books[0].clone(),
        books[1].clone(),
        ("Titus".to_string(), vec![]),
    ];
    assert_eq!(calculate_testament_min_read_count(&with_empty, &progress), 1);
}

/// The chapter expansion lists read runs in store order, then the unread
/// runs in ascending order; an absent book is one unread row.
#[test]
fn chapter_items_rows() {
    let mut progress = ReadingProgress::new();
    let john = "John".to_string();
    for v in [2u32, 3, 6] {
        progress.mark_read_on(john.clone(), verse(1, v), day(1));
    }
    let items = compute_chapter_items("John", 1, 8, progress.book_map(&john));
    let shapes: Vec<(u32, u32, u32, bool)> = items
        .iter()
        .map(|it| (it.verse_start, it.verse_end, it.read_count, it.is_read))
        .collect();
    assert_eq!(
        shapes,
        vec![
            (2, 3, 1, true),
            (6, 6, 1, true),
            (1, 1, 0, false),
            (4, 5, 0, false),
            (7, 8, 0, false)
        ]
    );
    let absent = compute_chapter_items("Acts", 3, 5, None);
    assert_eq!(absent.len(), 1);
    assert_eq!(absent[0].verse_start, 1);
    assert_eq!(absent[0].verse_end, 5);
    assert!(!absent[0].is_read);
}

/// The verse selection grammar: blanks mean the whole chapter, pieces are
/// verses or ordered dashed ranges within the chapter.
#[test]
fn verse_ranges_grammar() {
    assert_eq!(parse_verse_ranges("", 50), Ok(vec![(1, 50)]));
    assert_eq!(parse_verse_ranges("   ", 50), Ok(vec![(1, 50)]));
    assert_eq!(parse_verse_ranges("3", 50), Ok(vec![(3, 3)]));
    assert_eq!(parse_verse_ranges("1-5", 50), Ok(vec![(1, 5)]));
    assert_eq!(
        parse_verse_ranges(" 1-3 , 7 , 9-10", 50),
        Ok(vec![(1, 3), (7, 7), (9, 10)])
    );
    assert_eq!(parse_verse_ranges("+4", 50), Ok(vec![(4, 4)]));
}

/// Malformed or out-of-bounds verse selections are rejected.
#[test]
fn verse_ranges_rejected() {
    assert!(parse_verse_ranges("5-2", 50).is_err());
    assert!(parse_verse_ranges("40-90", 50).is_err());
    assert!(parse_verse_ranges("60", 50).is_err());
    assert!(parse_verse_ranges("abc", 50).is_err());
    assert!(parse_verse_ranges("1-2-3", 50).is_err());
    assert!(parse_verse_ranges("1,,3", 50).is_err());
    assert!(parse_verse_ranges("4294967296", 50).is_err());
}
