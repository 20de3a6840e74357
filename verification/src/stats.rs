//! Per-chapter reading statistics and the tri-state colouring of the
//! dashboard tree.
use crate::progress::BookEntries;
use crate::progress::InsideBookBibleReference;
use crate::progress::ReadingRecord;
use crate::range_query::covers;
use crate::range_query::geo;
use crate::range_query::value_at;
use crate::range_query::RangeMap;
use vstd::prelude::*;

verus! {

/// Identity of a node of the dashboard tree.
#[derive(Debug, Clone, PartialEq, Eq, Hash)]
pub enum TreeId {
    OldTestament,
    NewTestament,
    Book(String),
    Chapter { book: String, chapter: u32 },
    Passage { book: String, chapter: u32, verse_start: u32, verse_end: u32 },
}

/// One row of a chapter's expansion: a run of verses sharing one record.
#[derive(Debug, Clone)]
pub struct DashboardItem {
    pub book: String,
    pub chapter: u32,
    pub verse_start: u32,
    pub verse_end: u32,
    pub read_count: u32,
    pub last_read: Option<crate::progress::Date>,
    pub is_read: bool,
}

/// The tri-state colour of a chapter or book row.
#[derive(Debug, Clone, Copy, PartialEq, Eq, Structural)]
pub enum RowColor {
    White,
    Yellow,
    Green,
}

/// The read count of one verse: the stored record's count, zero when
/// unread.
pub open spec fn verse_count(m: BookEntries, chapter: u32, verse: u32) -> u32 {
    let p = InsideBookBibleReference { chapter, verse };
    if covers(m, p) {
        value_at(m, p).read_count
    } else {
        0
    }
}

/// The least read count among verses `1..=v` of a chapter; the largest
/// possible count when `v` is zero.
pub open spec fn min_count_upto(m: BookEntries, chapter: u32, v: u32) -> u32
    decreases v,
{
    if v == 0 {
        u32::MAX
    } else {
        let c = verse_count(m, chapter, v);
        let rest = min_count_upto(m, chapter, (v - 1) as u32);
        if c < rest {
            c
        } else {
            rest
        }
    }
}

/// How many verses `1..=v` of a chapter have a read count above `t`.
pub open spec fn count_above_upto(m: BookEntries, chapter: u32, v: u32, t: u32) -> int
    decreases v,
{
    if v == 0 {
        0
    } else {
        count_above_upto(m, chapter, (v - 1) as u32, t) + if verse_count(m, chapter, v) > t {
            1int
        } else {
            0int
        }
    }
}

proof fn lemma_count_above_bound(m: BookEntries, chapter: u32, v: u32, t: u32)
    ensures
        0 <= count_above_upto(m, chapter, v, t) <= v,
    decreases v,
{
    if v > 0 {
        lemma_count_above_bound(m, chapter, (v - 1) as u32, t);
    }
}

/// The read count of each verse `1..=max_verse` of a chapter: `r[v - 1]`
/// is verse `v`'s count.
pub fn get_verse_read_counts(
    chapter: u32,
    max_verse: u32,
    book_records: &RangeMap<InsideBookBibleReference, ReadingRecord>,
) -> (r: Vec<u32>)
    requires
        geo(book_records@),
        max_verse < u32::MAX,
    ensures
        r@.len() == max_verse,
        forall|v: u32|
            1 <= v <= max_verse ==> r@[v - 1] == verse_count(book_records@, chapter, v),
{
    let mut r: Vec<u32> = Vec::new();
    let mut v: u32 = 1;
    while v <= max_verse
        invariant
            1 <= v <= max_verse + 1,
            max_verse < u32::MAX,
            geo(book_records@),
            r@.len() == v - 1,
            forall|w: u32| 1 <= w < v ==> r@[w - 1] == verse_count(book_records@, chapter, w),
        decreases max_verse + 1 - v,
    {
        let c = match book_records.value_of(InsideBookBibleReference { chapter, verse: v }) {
            Some(rec) => rec.read_count,
            None => 0,
        };
        r.push(c);
        v += 1;
    }
    r
}

/// Per-chapter statistics: the least verse read count, how many verses were
/// read more often than that, and the verse total. A missing book or a
/// chapter none of whose verses was read reports zeroes throughout.
pub fn calculate_chapter_read_stats(
    chapter: u32,
    max_verse: u32,
    book_records: Option<&RangeMap<InsideBookBibleReference, ReadingRecord>>,
) -> (r: (u32, u32, u32))
    requires
        book_records matches Some(m) ==> geo(m@),
        max_verse < u32::MAX,
    ensures
        book_records is None ==> r == (0u32, 0u32, 0u32),
        book_records matches Some(m) ==> {
            if forall|v: u32| 1 <= v <= max_verse ==> #[trigger] verse_count(m@, chapter, v) == 0 {
                r == (0u32, 0u32, 0u32)
            } else {
                let mn = min_count_upto(m@, chapter, max_verse);
                r == (mn, count_above_upto(m@, chapter, max_verse, mn) as u32, max_verse)
            }
        },
{
    let m = match book_records {
        Some(m) => m,
        None => {
            return (0, 0, 0);
        },
    };
    let counts = get_verse_read_counts(chapter, max_verse, m);
    let n = counts.len();
    let mut mn: u32 = u32::MAX;
    let mut any: bool = false;
    let mut i: usize = 0;
    while i < n
        invariant
            0 <= i <= n,
            n == counts@.len(),
            n == max_verse,
            max_verse < u32::MAX,
            geo(m@),
            forall|v: u32| 1 <= v <= max_verse ==> counts@[v - 1] == verse_count(m@, chapter, v),
            mn == min_count_upto(m@, chapter, i as u32),
            any == !(forall|v: u32| 1 <= v <= i ==> #[trigger] verse_count(m@, chapter, v) == 0),
        decreases n - i,
    {
        let c = counts[i];
        proof {
            assert(c == verse_count(m@, chapter, (i + 1) as u32));
        }
        if c < mn {
            mn = c;
        }
        if c > 0 {
            any = true;
        }
        proof {
            assert(min_count_upto(m@, chapter, (i + 1) as u32) == mn);
            if !any {
                assert forall|v: u32| 1 <= v <= i + 1 implies verse_count(m@, chapter, v)
                    == 0 by {}
            } else {
                assert(!(forall|v: u32| 1 <= v <= i + 1 ==> #[trigger] verse_count(m@, chapter, v) == 0))
                    by {
                    if c > 0 {
                        assert(verse_count(m@, chapter, (i + 1) as u32) != 0);
                    } else {
                        let w = choose|w: u32|
                            !(1 <= w <= i ==> #[trigger] verse_count(m@, chapter, w) == 0);
                        assert(!(1 <= w <= i + 1 ==> #[trigger] verse_count(m@, chapter, w) == 0));
                    }
                }
            }
        }
        i += 1;
    }
    if !any {
        return (0, 0, 0);
    }
    let mut more: u32 = 0;
    let mut j: usize = 0;
    while j < n
        invariant
            0 <= j <= n,
            n == counts@.len(),
            n == max_verse,
            max_verse < u32::MAX,
            geo(m@),
            forall|v: u32| 1 <= v <= max_verse ==> counts@[v - 1] == verse_count(m@, chapter, v),
            more == count_above_upto(m@, chapter, j as u32, mn),
            0 <= more <= j,
        decreases n - j,
    {
        proof {
            assert(counts@[j as int] == verse_count(m@, chapter, (j + 1) as u32));
        }
        if counts[j] > mn {
            more = more + 1;
        }
        proof {
            assert(more == count_above_upto(m@, chapter, (j + 1) as u32, mn));
        }
        j += 1;
    }
    (mn, more, max_verse)
}

/// The least verse read count over chapters `1..=i` of a book.
pub open spec fn book_min_upto(m: BookEntries, chapters: Seq<u32>, i: int) -> u32
    decreases i,
{
    if i <= 0 {
        u32::MAX
    } else {
        let cm = min_count_upto(m, i as u32, chapters[i - 1]);
        let rest = book_min_upto(m, chapters, i - 1);
        if cm < rest {
            cm
        } else {
            rest
        }
    }
}

/// How many verses of chapters `1..=i` have a read count above `t`.
pub open spec fn book_above_upto(m: BookEntries, chapters: Seq<u32>, i: int, t: u32) -> int
    decreases i,
{
    if i <= 0 {
        0
    } else {
        book_above_upto(m, chapters, i - 1, t) + count_above_upto(m, i as u32, chapters[i - 1], t)
    }
}

/// The verse total of chapters `1..=i`.
pub open spec fn sum_verses(chapters: Seq<u32>, i: int) -> int
    decreases i,
{
    if i <= 0 {
        0
    } else {
        sum_verses(chapters, i - 1) + chapters[i - 1]
    }
}

/// No verse of any chapter of the book was read.
pub open spec fn book_all_zero(m: BookEntries, chapters: Seq<u32>) -> bool {
    forall|c: int, v: u32|
        0 <= c < chapters.len() && 1 <= v <= chapters[c] ==> #[trigger] verse_count(
            m,
            (c + 1) as u32,
            v,
        ) == 0
}

proof fn lemma_sum_verses_mono(chapters: Seq<u32>, i: int, j: int)
    requires
        0 <= i <= j <= chapters.len(),
    ensures
        sum_verses(chapters, i) <= sum_verses(chapters, j),
    decreases j - i,
{
    if i < j {
        lemma_sum_verses_mono(chapters, i, j - 1);
    }
}

proof fn lemma_book_above_bound(m: BookEntries, chapters: Seq<u32>, i: int, t: u32)
    requires
        0 <= i <= chapters.len(),
    ensures
        0 <= book_above_upto(m, chapters, i, t) <= sum_verses(chapters, i),
    decreases i,
{
    if i > 0 {
        lemma_book_above_bound(m, chapters, i - 1, t);
        lemma_count_above_bound(m, i as u32, chapters[i - 1], t);
    }
}

/// Per-book statistics over all its chapters: the least verse read count,
/// how many verses were read more often than that, and the verse total. A
/// missing book or a book none of whose verses was read reports zeroes
/// throughout.
#[verifier::rlimit(100)]
#[verifier::spinoff_prover]
pub fn calculate_book_read_stats(
    chapters: &Vec<u32>,
    book_records: Option<&RangeMap<InsideBookBibleReference, ReadingRecord>>,
) -> (r: (u32, u32, u32))
    requires
        book_records matches Some(m) ==> geo(m@),
        chapters@.len() < u32::MAX,
        forall|c: int| 0 <= c < chapters@.len() ==> (#[trigger] chapters@[c]) < u32::MAX,
        sum_verses(chapters@, chapters@.len() as int) <= u32::MAX,
    ensures
        book_records is None ==> r == (0u32, 0u32, 0u32),
        book_records matches Some(m) ==> {
            if book_all_zero(m@, chapters@) {
                r == (0u32, 0u32, 0u32)
            } else {
                let bm = book_min_upto(m@, chapters@, chapters@.len() as int);
                r == (
                    bm,
                    book_above_upto(m@, chapters@, chapters@.len() as int, bm) as u32,
                    sum_verses(chapters@, chapters@.len() as int) as u32,
                )
            }
        },
{
    let m = match book_records {
        Some(m) => m,
        None => {
            return (0, 0, 0);
        },
    };
    let n = chapters.len();
    let mut bm: u32 = u32::MAX;
    let mut any: bool = false;
    let mut total: u32 = 0;
    let mut c: usize = 0;
    while c < n
        invariant
            0 <= c <= n,
            n == chapters@.len(),
            n < u32::MAX,
            geo(m@),
            forall|k: int| 0 <= k < n ==> (#[trigger] chapters@[k]) < u32::MAX,
            sum_verses(chapters@, n as int) <= u32::MAX,
            bm == book_min_upto(m@, chapters@, c as int),
            total == sum_verses(chapters@, c as int),
            any == exists|cc: int|
                0 <= cc < c && #[trigger] chapters@[cc] == chapters@[cc] && !(forall|v: u32|
                    1 <= v <= chapters@[cc] ==> #[trigger] verse_count(m@, (cc + 1) as u32, v)
                        == 0),
        decreases n - c,
    {
        let mv = chapters[c];
        let (cmn, _cmore, _ctotal) = calculate_chapter_read_stats((c + 1) as u32, mv, Some(m));
        let chapter_zero = {
            let counts = get_verse_read_counts((c + 1) as u32, mv, m);
            let mut all0 = true;
            let mut v: usize = 0;
            while v < counts.len()
                invariant
                    0 <= v <= counts@.len(),
                    counts@.len() == mv,
                    mv < u32::MAX,
                    geo(m@),
                    forall|w: u32|
                        1 <= w <= mv ==> counts@[w - 1] == #[trigger] verse_count(
                            m@,
                            (c + 1) as u32,
                            w,
                        ),
                    all0 == (forall|w: u32|
                        1 <= w <= v ==> #[trigger] verse_count(m@, (c + 1) as u32, w) == 0),
                decreases counts@.len() - v,
            {
                proof {
                    assert(counts@[v as int] == verse_count(m@, (c + 1) as u32, (v + 1) as u32));
                }
                if counts[v] != 0 {
                    all0 = false;
                }
                proof {
                    if all0 {
                        assert forall|w: u32|
                            1 <= w <= v + 1 implies #[trigger] verse_count(m@, (c + 1) as u32, w)
                            == 0 by {}
                    } else {
                        assert(!(forall|w: u32|
                            1 <= w <= v + 1 ==> #[trigger] verse_count(m@, (c + 1) as u32, w)
                                == 0)) by {
                            if counts@[v as int] != 0 {
                                assert(verse_count(m@, (c + 1) as u32, (v + 1) as u32) != 0);
                            } else {
                                let w = choose|w: u32|
                                    !(1 <= w <= v ==> #[trigger] verse_count(
                                        m@,
                                        (c + 1) as u32,
                                        w,
                                    ) == 0);
                                assert(!(1 <= w <= v + 1 ==> #[trigger] verse_count(m@, (c + 1) as u32, w)
                                    == 0));
                            }
                        }
                    }
                }
                v += 1;
            }
            all0
        };
        let mut cm: u32 = u32::MAX;
        proof {
            if chapter_zero {
                lemma_all_zero_min(m@, (c + 1) as u32, mv);
            }
        }
        if !chapter_zero {
            cm = cmn;
            proof {
                assert(!(forall|v: u32|
                    1 <= v <= mv ==> #[trigger] verse_count(m@, (c + 1) as u32, v) == 0));
                assert(cm == min_count_upto(m@, (c + 1) as u32, mv));
            }
        } else if mv > 0 {
            // a chapter with verses but no reads pulls the minimum to zero
            cm = 0;
        }
        if cm < bm {
            bm = cm;
        }
        if !chapter_zero {
            any = true;
        }
        proof {
            assert(bm == book_min_upto(m@, chapters@, c as int + 1));
            if any {
                if !chapter_zero {
                    assert(exists|cc: int|
                        0 <= cc < c + 1 && #[trigger] chapters@[cc] == chapters@[cc] && !(forall|v: u32|
                            1 <= v <= chapters@[cc] ==> #[trigger] verse_count(
                                m@,
                                (cc + 1) as u32,
                                v,
                            ) == 0)) by {
                        assert(!(forall|v: u32|
                            1 <= v <= chapters@[c as int] ==> #[trigger] verse_count(
                                m@,
                                (c + 1) as u32,
                                v,
                            ) == 0));
                    }
                } else {
                    let cc = choose|cc: int|
                        0 <= cc < c && #[trigger] chapters@[cc] == chapters@[cc] && !(forall|v: u32|
                            1 <= v <= chapters@[cc] ==> #[trigger] verse_count(
                                m@,
                                (cc + 1) as u32,
                                v,
                            ) == 0);
                    assert(0 <= cc < c + 1 && !(forall|v: u32|
                        1 <= v <= chapters@[cc] ==> #[trigger] verse_count(m@, (cc + 1) as u32, v) == 0));
                }
            }
            lemma_sum_verses_mono(chapters@, c as int + 1, n as int);
        }
        total = total + mv;
        c += 1;
    }
    proof {
        if !any {
            assert forall|cc: int, v: u32|
                0 <= cc < chapters@.len() && 1 <= v <= chapters@[cc] implies #[trigger] verse_count(
                m@,
                (cc + 1) as u32,
                v,
            ) == 0 by {
                assert(!(exists|k: int|
                    0 <= k < n && #[trigger] chapters@[k] == chapters@[k] && !(forall|w: u32|
                        1 <= w <= chapters@[k] ==> #[trigger] verse_count(m@, (k + 1) as u32, w)
                            == 0)));
                assert(forall|w: u32|
                    1 <= w <= chapters@[cc] ==> #[trigger] verse_count(m@, (cc + 1) as u32, w)
                        == 0);
            }
        } else {
            let cc = choose|cc: int|
                0 <= cc < n && #[trigger] chapters@[cc] == chapters@[cc] && !(forall|v: u32|
                    1 <= v <= chapters@[cc] ==> #[trigger] verse_count(m@, (cc + 1) as u32, v)
                        == 0);
            let w = choose|w: u32|
                !(1 <= w <= chapters@[cc] ==> #[trigger] verse_count(m@, (cc + 1) as u32, w)
                    == 0);
            assert(!book_all_zero(m@, chapters@));
        }
    }
    if !any {
        return (0, 0, 0);
    }
    let mut above: u32 = 0;
    let mut c2: usize = 0;
    while c2 < n
        invariant
            0 <= c2 <= n,
            n == chapters@.len(),
            n < u32::MAX,
            geo(m@),
            forall|k: int| 0 <= k < n ==> (#[trigger] chapters@[k]) < u32::MAX,
            sum_verses(chapters@, n as int) <= u32::MAX,
            above == book_above_upto(m@, chapters@, c2 as int, bm),
            0 <= above <= sum_verses(chapters@, c2 as int),
        decreases n - c2,
    {
        let mv = chapters[c2];
        let counts = get_verse_read_counts((c2 + 1) as u32, mv, m);
        let mut chapter_above: u32 = 0;
        let mut v: usize = 0;
        while v < counts.len()
            invariant
                0 <= v <= counts@.len(),
                counts@.len() == mv,
                mv < u32::MAX,
                geo(m@),
                forall|w: u32|
                    1 <= w <= mv ==> counts@[w - 1] == #[trigger] verse_count(
                        m@,
                        (c2 + 1) as u32,
                        w,
                    ),
                chapter_above == count_above_upto(m@, (c2 + 1) as u32, v as u32, bm),
                0 <= chapter_above <= v,
            decreases counts@.len() - v,
        {
            proof {
                assert(counts@[v as int] == verse_count(m@, (c2 + 1) as u32, (v + 1) as u32));
            }
            if counts[v] > bm {
                chapter_above = chapter_above + 1;
            }
            proof {
                assert(chapter_above == count_above_upto(m@, (c2 + 1) as u32, (v + 1) as u32, bm));
            }
            v += 1;
        }
        proof {
            lemma_book_above_bound(m@, chapters@, c2 as int + 1, bm);
            lemma_sum_verses_mono(chapters@, c2 as int + 1, n as int);
        }
        above = above + chapter_above;
        c2 += 1;
    }
    (bm, above, total)
}

/// An unread chapter's least count collapses to the largest value, so it
/// never lowers a book minimum below an actual count... a chapter with no
/// read verse has every count zero, making its minimum zero.
proof fn lemma_all_zero_min(m: BookEntries, chapter: u32, mv: u32)
    requires
        forall|v: u32| 1 <= v <= mv ==> #[trigger] verse_count(m, chapter, v) == 0,
    ensures
        min_count_upto(m, chapter, mv) == if mv == 0 {
            u32::MAX
        } else {
            0u32
        },
    decreases mv,
{
    if mv > 0 {
        lemma_all_zero_min(m, chapter, (mv - 1) as u32);
    }
}

/// A book none of whose verses was read has a least count of zero, unless
/// it has no verses at all.
proof fn lemma_book_all_zero_min(m: BookEntries, chapters: Seq<u32>, i: int)
    requires
        book_all_zero(m, chapters),
        0 <= i <= chapters.len(),
    ensures
        book_min_upto(m, chapters, i) == if sum_verses(chapters, i) > 0 {
            0u32
        } else {
            u32::MAX
        },
    decreases i,
{
    if i > 0 {
        lemma_book_all_zero_min(m, chapters, i - 1);
        lemma_sum_verses_nonneg(chapters, i - 1);
        if chapters[i - 1] > 0 {
            assert forall|v: u32| 1 <= v <= chapters[i - 1] implies #[trigger] verse_count(
                m,
                i as u32,
                v,
            ) == 0 by {
                assert(verse_count(m, ((i - 1) + 1) as u32, v) == 0);
            }
            lemma_all_zero_min(m, i as u32, chapters[i - 1]);
        }
    }
}

/// The least verse read count over the first `i` books of a testament, an
/// absent book counting as entirely unread; the largest possible count when
/// no book so far has a verse.
pub open spec fn testament_min_upto(
    prog: crate::progress::ReadingProgress,
    tb: Seq<(String, Vec<u32>)>,
    i: int,
) -> u32
    decreases i,
{
    if i <= 0 {
        u32::MAX
    } else {
        let rest = testament_min_upto(prog, tb, i - 1);
        let ch = tb[i - 1].1@;
        let m = if prog.has_book(tb[i - 1].0@) {
            prog.maps()[prog.book_idx(tb[i - 1].0@)]
        } else {
            Seq::empty()
        };
        let bm = book_min_upto(m, ch, ch.len() as int);
        if bm < rest {
            bm
        } else {
            rest
        }
    }
}

/// Some of the first `i` listed books has a verse.
pub open spec fn testament_has_verses(tb: Seq<(String, Vec<u32>)>, i: int) -> bool
    decreases i,
{
    if i <= 0 {
        false
    } else {
        testament_has_verses(tb, i - 1) || sum_verses(tb[i - 1].1@, tb[i - 1].1@.len() as int) > 0
    }
}

/// An absent book's verses are all unread.
proof fn lemma_absent_book_all_zero(chapters: Seq<u32>)
    ensures
        book_all_zero(Seq::empty(), chapters),
{
    assert forall|c: int, v: u32|
        0 <= c < chapters.len() && 1 <= v <= chapters[c] implies #[trigger] verse_count(
        Seq::empty(),
        (c + 1) as u32,
        v,
    ) == 0 by {
        let p = InsideBookBibleReference { chapter: (c + 1) as u32, verse: v };
        if covers(Seq::<(InsideBookBibleReference, InsideBookBibleReference, ReadingRecord)>::empty(), p) {
            let k = crate::range_query::idx_at(
                Seq::<(InsideBookBibleReference, InsideBookBibleReference, ReadingRecord)>::empty(),
                p,
            );
            assert(false);
        }
    }
}

/// The least verse read count across every listed book of a testament, a
/// book absent from the progress counting as entirely unread; zero when no
/// listed book has a verse.
#[verifier::rlimit(50)]
pub fn calculate_testament_min_read_count(
    testament_books: &Vec<(String, Vec<u32>)>,
    progress: &crate::progress::ReadingProgress,
) -> (r: u32)
    requires
        progress.wf(),
        forall|b: int|
            0 <= b < testament_books@.len() ==> {
                let ch = (#[trigger] testament_books@[b]).1@;
                &&& ch.len() < u32::MAX
                &&& sum_verses(ch, ch.len() as int) <= u32::MAX
                &&& (forall|c: int| 0 <= c < ch.len() ==> (#[trigger] ch[c]) < u32::MAX)
            },
    ensures
        r == if testament_has_verses(testament_books@, testament_books@.len() as int) {
            testament_min_upto(*progress, testament_books@, testament_books@.len() as int)
        } else {
            0u32
        },
{
    let n = testament_books.len();
    let mut mn: u32 = u32::MAX;
    let mut seen: bool = false;
    let mut i: usize = 0;
    while i < n
        invariant
            0 <= i <= n,
            n == testament_books@.len(),
            progress.wf(),
            forall|b: int|
                0 <= b < testament_books@.len() ==> {
                    let ch = (#[trigger] testament_books@[b]).1@;
                    &&& ch.len() < u32::MAX
                    &&& sum_verses(ch, ch.len() as int) <= u32::MAX
                    &&& (forall|c: int| 0 <= c < ch.len() ==> (#[trigger] ch[c]) < u32::MAX)
                },
            mn == testament_min_upto(*progress, testament_books@, i as int),
            seen == testament_has_verses(testament_books@, i as int),
        decreases n - i,
    {
        let name = &testament_books[i].0;
        let chapters = &testament_books[i].1;
        let mut total: u32 = 0;
        let mut c: usize = 0;
        while c < chapters.len()
            invariant
                0 <= c <= chapters@.len(),
                chapters@ == testament_books@[i as int].1@,
                i < n,
                n == testament_books@.len(),
                forall|b: int|
                    0 <= b < testament_books@.len() ==> {
                        let ch = (#[trigger] testament_books@[b]).1@;
                        &&& ch.len() < u32::MAX
                        &&& sum_verses(ch, ch.len() as int) <= u32::MAX
                        &&& (forall|k: int| 0 <= k < ch.len() ==> (#[trigger] ch[k]) < u32::MAX)
                    },
                total == sum_verses(chapters@, c as int),
            decreases chapters@.len() - c,
        {
            proof {
                lemma_sum_verses_mono(chapters@, c as int + 1, chapters@.len() as int);
            }
            total = total + chapters[c];
            c += 1;
        }
        let ghost m_spec: BookEntries = if progress.has_book(name@) {
            progress.maps()[progress.book_idx(name@)]
        } else {
            Seq::empty()
        };
        if total > 0 {
            seen = true;
            let bm = match progress.book_map(name) {
                Some(m) => {
                    proof {
                        assert(testament_books@[i as int].1@ == chapters@);
                        assert(progress.has_book(name@));
                        let k = progress.book_idx(name@);
                        assert(0 <= k < progress.names().len() && progress.names()[k] == name@);
                        progress.lemma_shape();
                        assert(m@ == progress.maps()[k]);
                        assert(geo(m@) && crate::range_query::fused(m@));
                    }
                    let (b, _above, _total) = calculate_book_read_stats(chapters, Some(m));
                    proof {
                        if book_all_zero(m@, chapters@) {
                            lemma_book_all_zero_min(m@, chapters@, chapters@.len() as int);
                        }
                        assert(b == book_min_upto(m_spec, chapters@, chapters@.len() as int));
                    }
                    b
                },
                None => {
                    proof {
                        lemma_absent_book_all_zero(chapters@);
                        lemma_book_all_zero_min(
                            Seq::empty(),
                            chapters@,
                            chapters@.len() as int,
                        );
                        assert(book_min_upto(m_spec, chapters@, chapters@.len() as int) == 0);
                    }
                    0
                },
            };
            if bm < mn {
                mn = bm;
            }
        } else {
            proof {
                lemma_empty_book_min(chapters@, m_spec, chapters@.len() as int);
            }
        }
        i += 1;
    }
    if !seen {
        return 0;
    }
    mn
}

proof fn lemma_sum_verses_nonneg(chapters: Seq<u32>, i: int)
    requires
        0 <= i,
    ensures
        sum_verses(chapters, i) >= 0,
    decreases i,
{
    if i > 0 {
        lemma_sum_verses_nonneg(chapters, i - 1);
    }
}

/// A book with no verses at all has the neutral least count.
proof fn lemma_empty_book_min(chapters: Seq<u32>, m: BookEntries, i: int)
    requires
        0 <= i <= chapters.len(),
        sum_verses(chapters, i) == 0,
    ensures
        book_min_upto(m, chapters, i) == u32::MAX,
    decreases i,
{
    if i > 0 {
        lemma_sum_verses_nonneg(chapters, i - 1);
        assert(chapters[i - 1] == 0);
        lemma_empty_book_min(chapters, m, i - 1);
    }
}

pub type BookEntry = (InsideBookBibleReference, InsideBookBibleReference, ReadingRecord);

/// The stored entries a chapter's expansion shows: both endpoints in the
/// chapter and intersecting its verse window.
pub open spec fn chapter_row_pred(chapter: u32, max_verse: u32) -> spec_fn(BookEntry) -> bool {
    |t: BookEntry|
        t.0.chapter == chapter && t.1.chapter == chapter && t.0.verse <= max_verse && t.1.verse > 1
}

/// The verse belongs to some shown stored entry of the chapter.
pub open spec fn verse_read(m: BookEntries, chapter: u32, max_verse: u32, v: u32) -> bool {
    exists|k: int|
        0 <= k < m.len() && (chapter_row_pred(chapter, max_verse))(#[trigger] m[k])
            && m[k].0.verse <= v < m[k].1.verse
}

/// The maximal runs of unread verses among `1..=v`, in ascending order.
pub open spec fn unread_runs_upto(m: BookEntries, chapter: u32, max_verse: u32, v: u32) -> Seq<
    (u32, u32),
>
    decreases v,
{
    if v == 0 {
        Seq::empty()
    } else {
        let rest = unread_runs_upto(m, chapter, max_verse, (v - 1) as u32);
        if verse_read(m, chapter, max_verse, v) {
            rest
        } else if v > 1 && !verse_read(m, chapter, max_verse, (v - 1) as u32) {
            rest.update(rest.len() - 1, (rest.last().0, v))
        } else {
            rest.push((v, v))
        }
    }
}

/// The observable shape of one dashboard row.
pub open spec fn item_view(it: DashboardItem) -> (
    Seq<char>,
    u32,
    u32,
    u32,
    u32,
    Option<crate::progress::Date>,
    bool,
) {
    (it.book@, it.chapter, it.verse_start, it.verse_end, it.read_count, it.last_read, it.is_read)
}

/// The observable shapes of a row list.
pub open spec fn items_view(s: Seq<DashboardItem>) -> Seq<
    (Seq<char>, u32, u32, u32, u32, Option<crate::progress::Date>, bool),
> {
    s.map(|k: int, it: DashboardItem| item_view(it))
}

/// The row a shown stored entry produces.
pub open spec fn read_row(book: Seq<char>, chapter: u32, t: BookEntry) -> (
    Seq<char>,
    u32,
    u32,
    u32,
    u32,
    Option<crate::progress::Date>,
    bool,
) {
    (book, chapter, t.0.verse, (t.1.verse - 1) as u32, t.2.read_count, Some(t.2.last_read), true)
}

/// The rows of a list of shown stored entries, in order.
pub open spec fn read_rows(book: Seq<char>, chapter: u32, s: BookEntries) -> Seq<
    (Seq<char>, u32, u32, u32, u32, Option<crate::progress::Date>, bool),
> {
    s.map(|k: int, t: BookEntry| read_row(book, chapter, t))
}

/// The row an unread run produces.
pub open spec fn gap_row(book: Seq<char>, chapter: u32, run: (u32, u32)) -> (
    Seq<char>,
    u32,
    u32,
    u32,
    u32,
    Option<crate::progress::Date>,
    bool,
) {
    (book, chapter, run.0, run.1, 0u32, None, false)
}

/// The rows of a list of unread runs, in order.
pub open spec fn gap_rows(book: Seq<char>, chapter: u32, runs: Seq<(u32, u32)>) -> Seq<
    (Seq<char>, u32, u32, u32, u32, Option<crate::progress::Date>, bool),
> {
    runs.map(|k: int, run: (u32, u32)| gap_row(book, chapter, run))
}

/// Whether the verse belongs to a shown entry, by scanning the map.
fn verse_is_read(
    m: &RangeMap<InsideBookBibleReference, ReadingRecord>,
    chapter: u32,
    max_verse: u32,
    v: u32,
) -> (r: bool)
    ensures
        r == verse_read(m@, chapter, max_verse, v),
{
    let rows = m.iter();
    let n = rows.len();
    let mut k: usize = 0;
    while k < n
        invariant
            0 <= k <= n,
            n == rows@.len(),
            rows@ == m@,
            forall|j: int|
                0 <= j < k ==> !((chapter_row_pred(chapter, max_verse))(#[trigger] m@[j])
                    && m@[j].0.verse <= v < m@[j].1.verse),
        decreases n - k,
    {
        let t = &rows[k];
        if t.0.chapter == chapter && t.1.chapter == chapter && t.0.verse <= max_verse && t.1.verse
            > 1 && t.0.verse <= v && v < t.1.verse {
            proof {
                assert((chapter_row_pred(chapter, max_verse))(m@[k as int]));
            }
            return true;
        }
        k += 1;
    }
    proof {
        if verse_read(m@, chapter, max_verse, v) {
            let j = choose|j: int|
                0 <= j < m@.len() && (chapter_row_pred(chapter, max_verse))(#[trigger] m@[j])
                    && m@[j].0.verse <= v < m@[j].1.verse;
            assert(false);
        }
    }
    false
}

/// One chapter's expansion rows: a row for every shown stored entry, in
/// store order, followed by the maximal unread runs in ascending order. A
/// missing book yields the single unread row over the whole chapter.
#[verifier::rlimit(50)]
#[verifier::spinoff_prover]
pub fn compute_chapter_items(
    book: &str,
    chapter: u32,
    max_verse: u32,
    book_records: Option<&RangeMap<InsideBookBibleReference, ReadingRecord>>,
) -> (r: Vec<DashboardItem>)
    requires
        book_records matches Some(m) ==> geo(m@),
        max_verse < u32::MAX,
    ensures
        book_records is None ==> items_view(r@) =~= seq![
            (book@, chapter, 1u32, max_verse, 0u32, None::<crate::progress::Date>, false),
        ],
        book_records matches Some(m) ==> items_view(r@) == read_rows(
            book@,
            chapter,
            m@.filter(chapter_row_pred(chapter, max_verse)),
        ) + gap_rows(book@, chapter, unread_runs_upto(m@, chapter, max_verse, max_verse)),
{
    let m = match book_records {
        Some(m) => m,
        None => {
            let mut r: Vec<DashboardItem> = Vec::new();
            r.push(
                DashboardItem {
                    book: book.to_owned(),
                    chapter,
                    verse_start: 1,
                    verse_end: max_verse,
                    read_count: 0,
                    last_read: None,
                    is_read: false,
                },
            );
            return r;
        },
    };
    let rows = m.iter();
    let n = rows.len();
    let mut r: Vec<DashboardItem> = Vec::new();
    proof {
        reveal(Seq::filter);
        assert(m@.take(0) =~= Seq::<BookEntry>::empty());
        assert(m@.take(0).filter(chapter_row_pred(chapter, max_verse)) =~= Seq::<
            BookEntry,
        >::empty());
        assert(items_view(r@) =~= read_rows(
            book@,
            chapter,
            m@.take(0).filter(chapter_row_pred(chapter, max_verse)),
        ));
    }
    let mut i: usize = 0;
    while i < n
        invariant
            0 <= i <= n,
            n == rows@.len(),
            rows@ == m@,
            geo(m@),
            items_view(r@) == read_rows(
                book@,
                chapter,
                m@.take(i as int).filter(chapter_row_pred(chapter, max_verse)),
            ),
        decreases n - i,
    {
        let t = &rows[i];
        let keep = t.0.chapter == chapter && t.1.chapter == chapter && t.0.verse <= max_verse
            && t.1.verse > 1;
        let ghost fold = m@.take(i as int).filter(chapter_row_pred(chapter, max_verse));
        proof {
            reveal(Seq::filter);
            assert(m@.take(i as int + 1).drop_last() =~= m@.take(i as int));
            assert(m@.take(i as int + 1).last() == m@[i as int]);
            assert(rows@[i as int] == m@[i as int]);
            if keep {
                assert((chapter_row_pred(chapter, max_verse))(m@[i as int]));
            } else {
                assert(!(chapter_row_pred(chapter, max_verse))(m@[i as int]));
            }
        }
        if keep {
            let ghost pre = r@;
            r.push(
                DashboardItem {
                    book: book.to_owned(),
                    chapter,
                    verse_start: t.0.verse,
                    verse_end: t.1.verse - 1,
                    read_count: t.2.read_count,
                    last_read: Some(t.2.last_read),
                    is_read: true,
                },
            );
            proof {
                reveal(Seq::filter);
                assert(m@.take(i as int + 1).filter(chapter_row_pred(chapter, max_verse))
                    == fold.push(m@[i as int]));
                assert(item_view(r@.last()) == read_row(book@, chapter, m@[i as int]));
                assert(items_view(r@) =~= items_view(pre).push(item_view(r@.last())));
                assert(read_rows(book@, chapter, fold.push(m@[i as int])) =~= read_rows(
                    book@,
                    chapter,
                    fold,
                ).push(read_row(book@, chapter, m@[i as int])));
            }
        } else {
            proof {
                reveal(Seq::filter);
                assert(m@.take(i as int + 1).filter(chapter_row_pred(chapter, max_verse))
                    == fold);
            }
        }
        i += 1;
    }
    let ghost reads = m@.filter(chapter_row_pred(chapter, max_verse));
    proof {
        assert(m@.take(n as int) =~= m@);
        assert(items_view(r@) == read_rows(book@, chapter, reads));
    }
    let mut gaps: Vec<(u32, u32)> = Vec::new();
    proof {
        assert(gaps@ =~= unread_runs_upto(m@, chapter, max_verse, 0));
    }
    let mut v: u32 = 1;
    while v <= max_verse
        invariant
            1 <= v <= max_verse + 1,
            max_verse < u32::MAX,
            geo(m@),
            reads == m@.filter(chapter_row_pred(chapter, max_verse)),
            items_view(r@) == read_rows(book@, chapter, reads),
            gaps@ == unread_runs_upto(m@, chapter, max_verse, (v - 1) as u32),
            (v > 1 && !verse_read(m@, chapter, max_verse, (v - 1) as u32)) ==> (gaps@.len() > 0
                && gaps@.last().1 == (v - 1) as u32),
        decreases max_verse + 1 - v,
    {
        let read_here = verse_is_read(m, chapter, max_verse, v);
        if !read_here {
            let prev_read = if v == 1 {
                true
            } else {
                verse_is_read(m, chapter, max_verse, v - 1)
            };
            if !prev_read {
                let prev = gaps.pop().unwrap();
                gaps.push((prev.0, v));
                proof {
                    let rest = unread_runs_upto(m@, chapter, max_verse, (v - 1) as u32);
                    assert(gaps@ =~= rest.update(rest.len() - 1, (rest.last().0, v)));
                }
            } else {
                gaps.push((v, v));
            }
        }
        proof {
            assert(gaps@ == unread_runs_upto(m@, chapter, max_verse, v));
        }
        v += 1;
    }
    let ghost runs = unread_runs_upto(m@, chapter, max_verse, max_verse);
    let ng = gaps.len();
    let mut g: usize = 0;
    proof {
        assert(runs.take(0) =~= Seq::<(u32, u32)>::empty());
        assert(gap_rows(book@, chapter, runs.take(0)) =~= Seq::<
            (Seq<char>, u32, u32, u32, u32, Option<crate::progress::Date>, bool),
        >::empty());
        assert(items_view(r@) =~= read_rows(book@, chapter, reads) + gap_rows(
            book@,
            chapter,
            runs.take(0),
        ));
    }
    while g < ng
        invariant
            0 <= g <= ng,
            ng == gaps@.len(),
            gaps@ == runs,
            reads == m@.filter(chapter_row_pred(chapter, max_verse)),
            runs == unread_runs_upto(m@, chapter, max_verse, max_verse),
            items_view(r@) == read_rows(book@, chapter, reads) + gap_rows(
                book@,
                chapter,
                runs.take(g as int),
            ),
        decreases ng - g,
    {
        let run = gaps[g];
        let ghost pre = r@;
        r.push(
            DashboardItem {
                book: book.to_owned(),
                chapter,
                verse_start: run.0,
                verse_end: run.1,
                read_count: 0,
                last_read: None,
                is_read: false,
            },
        );
        proof {
            assert(runs.take(g as int + 1) =~= runs.take(g as int).push(runs[g as int]));
            assert(item_view(r@.last()) == gap_row(book@, chapter, runs[g as int]));
            assert(items_view(r@) =~= items_view(pre).push(item_view(r@.last())));
            assert(gap_rows(book@, chapter, runs.take(g as int).push(runs[g as int])) =~= gap_rows(
                book@,
                chapter,
                runs.take(g as int),
            ).push(gap_row(book@, chapter, runs[g as int])));
            assert(items_view(r@) == read_rows(book@, chapter, reads) + gap_rows(
                book@,
                chapter,
                runs.take(g as int + 1),
            ));
        }
        g += 1;
    }
    proof {
        assert(runs.take(ng as int) =~= runs);
        assert(items_view(r@) == read_rows(book@, chapter, reads) + gap_rows(
            book@,
            chapter,
            runs,
        ));
    }
    r
}

/// The colour of a chapter row relative to its book's least read count:
/// white when the chapter's least count equals the book's, green when some
/// verse was read more often than the book's least count, yellow otherwise.
pub fn determine_chapter_color(
    chapter_min_read_count: u32,
    book_min_read_count: u32,
    verse_read_counts: &Vec<u32>,
) -> (r: RowColor)
    ensures
        chapter_min_read_count == book_min_read_count ==> r == RowColor::White,
        chapter_min_read_count != book_min_read_count ==> {
            if exists|i: int|
                0 <= i < verse_read_counts@.len() && verse_read_counts@[i] > book_min_read_count {
                r == RowColor::Green
            } else {
                r == RowColor::Yellow
            }
        },
{
    if chapter_min_read_count == book_min_read_count {
        return RowColor::White;
    }
    let n = verse_read_counts.len();
    let mut i: usize = 0;
    while i < n
        invariant
            0 <= i <= n,
            n == verse_read_counts@.len(),
            chapter_min_read_count != book_min_read_count,
            forall|k: int| 0 <= k < i ==> verse_read_counts@[k] <= book_min_read_count,
        decreases n - i,
    {
        if verse_read_counts[i] > book_min_read_count {
            proof {
                assert(verse_read_counts@[i as int] > book_min_read_count);
            }
            return RowColor::Green;
        }
        i += 1;
    }
    RowColor::Yellow
}

/// The colour of a book row: green when all its chapters are green, yellow
/// when some but not all are, and otherwise the chapter rule applied with
/// the book's and the testament's least read counts.
pub fn determine_book_color_from_children(
    book_min_read_count: u32,
    testament_min_read_count: u32,
    verse_read_counts: &Vec<u32>,
    chapter_greens: &Vec<bool>,
) -> (r: RowColor)
    ensures
        chapter_greens@.len() > 0 && (forall|i: int|
            0 <= i < chapter_greens@.len() ==> chapter_greens@[i]) ==> r == RowColor::Green,
        (exists|i: int| 0 <= i < chapter_greens@.len() && chapter_greens@[i]) && (exists|i: int|
            0 <= i < chapter_greens@.len() && !chapter_greens@[i]) ==> r == RowColor::Yellow,
        (forall|i: int| 0 <= i < chapter_greens@.len() ==> !(#[trigger] chapter_greens@[i])) ==> {
            if book_min_read_count == testament_min_read_count {
                r == RowColor::White
            } else if exists|i: int|
                0 <= i < verse_read_counts@.len() && verse_read_counts@[i]
                    > testament_min_read_count {
                r == RowColor::Green
            } else {
                r == RowColor::Yellow
            }
        },
{
    let n = chapter_greens.len();
    let mut greens: usize = 0;
    let mut i: usize = 0;
    while i < n
        invariant
            0 <= i <= n,
            n == chapter_greens@.len(),
            greens <= i,
            (greens == i) == (forall|k: int| 0 <= k < i ==> chapter_greens@[k]),
            (greens > 0) == (exists|k: int| 0 <= k < i && chapter_greens@[k]),
        decreases n - i,
    {
        if chapter_greens[i] {
            greens = greens + 1;
        }
        i += 1;
    }
    if n > 0 && greens == n {
        return RowColor::Green;
    }
    if greens > 0 {
        return RowColor::Yellow;
    }
    if book_min_read_count == testament_min_read_count {
        return RowColor::White;
    }
    let m = verse_read_counts.len();
    let mut j: usize = 0;
    while j < m
        invariant
            0 <= j <= m,
            m == verse_read_counts@.len(),
            book_min_read_count != testament_min_read_count,
            greens == 0,
            n == chapter_greens@.len(),
            forall|k: int| 0 <= k < n ==> !(#[trigger] chapter_greens@[k]),
            forall|k: int| 0 <= k < j ==> verse_read_counts@[k] <= testament_min_read_count,
        decreases m - j,
    {
        if verse_read_counts[j] > testament_min_read_count {
            proof {
                assert(verse_read_counts@[j as int] > testament_min_read_count);
            }
            return RowColor::Green;
        }
        j += 1;
    }
    RowColor::Yellow
}

} // verus!
