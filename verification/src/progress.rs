//! Reading-progress tracking: per-book range maps keyed by chapter and
//! verse, holding how often and when each verse was read.
use crate::range_query::covers;
use crate::range_query::eq_coalesce;
use crate::range_query::fused;
use crate::range_query::geo;
use crate::range_query::in_win;
use crate::range_query::new_value_ok;
use crate::range_query::post_covers;
use crate::range_query::replaced_value_ok;
use crate::range_query::value_at;
use crate::range_query::CanCoalesce;
use crate::range_query::RangeKey;
use crate::range_query::RangeMap;
use vstd::prelude::*;

verus! {

/// A civil calendar date.
#[derive(Clone, Copy, Debug, PartialEq, Eq, Structural, Hash)]
pub struct Date {
    pub year: u32,
    pub month: u32,
    pub day: u32,
}

impl Date {
    /// A plausible calendar date: month and day in their civil ranges.
    pub open spec fn in_calendar(self) -> bool {
        1 <= self.year && 1 <= self.month <= 12 && 1 <= self.day <= 31
    }
}

/// Relies on chrono's `DateTime::from_timestamp` and its `Datelike`
/// accessors: the current civil date, whose month and day lie in their
/// calendar ranges. The clock is read without unwinding: a reading before
/// the epoch, or one chrono cannot represent, falls back to the epoch date,
/// and the year is clamped below at one.
#[verifier::external_body]
pub fn today() -> (r: Date)
    ensures
        r.in_calendar(),
{
    let secs = std::time::SystemTime::now()
        .duration_since(std::time::UNIX_EPOCH)
        .map_or(0, |d| d.as_secs().min(i64::MAX as u64) as i64);
    match chrono::DateTime::from_timestamp(secs, 0) {
        Some(t) => {
            let d = t.date_naive();
            let y = chrono::Datelike::year(&d);
            Date {
                year: y.max(1) as u32,
                month: chrono::Datelike::month(&d),
                day: chrono::Datelike::day(&d),
            }
        },
        None => Date { year: 1970, month: 1, day: 1 },
    }
}

/// The start position of a range inside one book: chapter first, verse
/// second.
#[derive(Clone, Copy, Debug, PartialEq, Eq, Structural, Hash)]
pub struct InsideBookBibleReference {
    pub chapter: u32,
    pub verse: u32,
}

impl RangeKey for InsideBookBibleReference {
    open spec fn key_lt(self, other: Self) -> bool {
        self.chapter < other.chapter || (self.chapter == other.chapter && self.verse < other.verse)
    }

    proof fn lemma_order(a: Self, b: Self, c: Self) {
    }

    fn lt(self, other: Self) -> (r: bool) {
        self.chapter < other.chapter || (self.chapter == other.chapter && self.verse < other.verse)
    }
}

/// Reading statistics for a stored range: how often it was read and when
/// last.
#[derive(Clone, Copy, Debug, PartialEq, Eq, Structural)]
pub struct ReadingRecord {
    pub read_count: u32,
    pub last_read: Date,
}

impl CanCoalesce for ReadingRecord {
    open spec fn spec_coalesce(&self, other: &Self) -> Option<Self> {
        if self == other {
            Some(*self)
        } else {
            None
        }
    }

    fn coalesce(&self, other: &Self) -> (r: Option<Self>) {
        if *self == *other {
            Some(*self)
        } else {
            None
        }
    }

    fn dup(&self) -> (r: Self) {
        *self
    }

    proof fn lemma_coalesce_symm(a: Self, b: Self) {
    }

    proof fn lemma_coalesce_class(a: Self, b: Self, c: Self, d: Self) {
    }
}

/// Reading records use the default equality coalescing, which the range-map
/// round-trip laws take as their hypothesis.
pub proof fn lemma_record_eq_coalesce()
    ensures
        eq_coalesce::<ReadingRecord>(),
{
}

/// Counts add, capped at the largest representable count.
pub open spec fn sat_add(a: u32, b: u32) -> u32 {
    if a + b > u32::MAX {
        u32::MAX
    } else {
        (a + b) as u32
    }
}

/// What accumulating marking leaves on an overlap: the counts added
/// (capped) and the newer record's date.
pub open spec fn merged_record(a: ReadingRecord, b: ReadingRecord) -> ReadingRecord {
    ReadingRecord { read_count: sat_add(a.read_count, b.read_count), last_read: b.last_read }
}

fn sat_add_exec(a: u32, b: u32) -> (r: u32)
    ensures
        r == sat_add(a, b),
{
    if a > u32::MAX - b {
        u32::MAX
    } else {
        a + b
    }
}

/// The right bound of a single verse's half-open window.
pub open spec fn verse_after(r: InsideBookBibleReference) -> InsideBookBibleReference
    recommends
        r.verse < u32::MAX,
{
    InsideBookBibleReference { chapter: r.chapter, verse: (r.verse + 1) as u32 }
}

pub type BookEntries = Seq<(InsideBookBibleReference, InsideBookBibleReference, ReadingRecord)>;

/// What a marking insert leaves at a covered point of one book's map: the
/// fresh record where the verse was unread or already held exactly the
/// fresh record, the accumulated record where it held something else, and
/// the old record outside the marked window.
pub open spec fn marked_value_ok(
    m0: BookEntries,
    outv: ReadingRecord,
    rs: InsideBookBibleReference,
    re: InsideBookBibleReference,
    fresh: ReadingRecord,
    p: InsideBookBibleReference,
) -> bool {
    if in_win(rs, re, p) {
        if covers(m0, p) {
            if value_at(m0, p) == fresh {
                outv == fresh
            } else {
                outv == merged_record(value_at(m0, p), fresh)
            }
        } else {
            outv == fresh
        }
    } else {
        covers(m0, p) ==> outv == value_at(m0, p)
    }
}

/// One book's map after marking the window `[rs, re)` with `fresh`,
/// accumulating counts on overlap.
pub open spec fn mark_map_post(
    m0: BookEntries,
    m1: BookEntries,
    rs: InsideBookBibleReference,
    re: InsideBookBibleReference,
    fresh: ReadingRecord,
) -> bool {
    &&& geo(m1)
    &&& fused(m1)
    &&& (forall|p: InsideBookBibleReference|
        #[trigger] covers(m1, p) == post_covers(m0, rs, re, fresh, p))
    &&& (forall|p: InsideBookBibleReference|
        #[trigger] covers(m1, p) ==> marked_value_ok(m0, value_at(m1, p), rs, re, fresh, p))
}

/// One book's map after overwriting the window `[rs, re)` with `rec`.
pub open spec fn set_map_post(
    m0: BookEntries,
    m1: BookEntries,
    rs: InsideBookBibleReference,
    re: InsideBookBibleReference,
    rec: ReadingRecord,
) -> bool {
    &&& geo(m1)
    &&& fused(m1)
    &&& (forall|p: InsideBookBibleReference|
        #[trigger] covers(m1, p) == post_covers(m0, rs, re, rec, p))
    &&& (forall|p: InsideBookBibleReference|
        #[trigger] covers(m1, p) ==> replaced_value_ok(m0, value_at(m1, p), rs, re, rec, p))
}

/// The whole-progress effect of marking one verse of one book as read:
/// other books are untouched, and the named book's map (empty when the book
/// is new) took the marking insert.
pub open spec fn marked(
    pre: ReadingProgress,
    post: ReadingProgress,
    book: Seq<char>,
    r: InsideBookBibleReference,
    fresh: ReadingRecord,
) -> bool {
    let re = verse_after(r);
    if pre.has_book(book) {
        let i = pre.book_idx(book);
        &&& post.names() == pre.names()
        &&& post.maps().len() == pre.maps().len()
        &&& (forall|k: int|
            0 <= k < pre.maps().len() && k != i ==> post.maps()[k] == pre.maps()[k])
        &&& mark_map_post(pre.maps()[i], post.maps()[i], r, re, fresh)
    } else {
        &&& post.names() == pre.names().push(book)
        &&& post.maps().len() == pre.maps().len() + 1
        &&& (forall|k: int| 0 <= k < pre.maps().len() ==> post.maps()[k] == pre.maps()[k])
        &&& mark_map_post(Seq::empty(), post.maps().last(), r, re, fresh)
    }
}

/// The whole-progress effect of overwriting one verse of one book.
pub open spec fn overwrote(
    pre: ReadingProgress,
    post: ReadingProgress,
    book: Seq<char>,
    r: InsideBookBibleReference,
    rec: ReadingRecord,
) -> bool {
    let re = verse_after(r);
    if pre.has_book(book) {
        let i = pre.book_idx(book);
        &&& post.names() == pre.names()
        &&& post.maps().len() == pre.maps().len()
        &&& (forall|k: int|
            0 <= k < pre.maps().len() && k != i ==> post.maps()[k] == pre.maps()[k])
        &&& set_map_post(pre.maps()[i], post.maps()[i], r, re, rec)
    } else {
        &&& post.names() == pre.names().push(book)
        &&& post.maps().len() == pre.maps().len() + 1
        &&& (forall|k: int| 0 <= k < pre.maps().len() ==> post.maps()[k] == pre.maps()[k])
        &&& set_map_post(Seq::empty(), post.maps().last(), r, re, rec)
    }
}

/// Tracks reading progress: one range map per book, keyed by the book's
/// name.
pub struct ReadingProgress {
    books: Vec<(String, RangeMap<InsideBookBibleReference, ReadingRecord>)>,
}

/// A name found at an index is the index the specification names.
proof fn lemma_idx_unique(rp: &ReadingProgress, name: Seq<char>, i: int)
    requires
        rp.wf(),
        0 <= i < rp.names().len(),
        rp.names()[i] == name,
    ensures
        rp.has_book(name),
        rp.book_idx(name) == i,
{
    assert(rp.has_book(name));
    let j = rp.book_idx(name);
    assert(rp.names()[j] == name);
    if i < j {
        assert(rp.names()[i] != rp.names()[j]);
    }
    if j < i {
        assert(rp.names()[j] != rp.names()[i]);
    }
}

impl ReadingProgress {
    /// The book names, in insertion order.
    pub closed spec fn names(&self) -> Seq<Seq<char>> {
        self.books@.map(
            |i: int, b: (String, RangeMap<InsideBookBibleReference, ReadingRecord>)| b.0@,
        )
    }

    /// The per-book stored entries, in the same order as the names.
    pub closed spec fn maps(&self) -> Seq<BookEntries> {
        self.books@.map(
            |i: int, b: (String, RangeMap<InsideBookBibleReference, ReadingRecord>)| b.1@,
        )
    }

    /// The name and map sequences describe the same books.
    pub proof fn lemma_shape(&self)
        ensures
            self.maps().len() == self.names().len(),
    {
    }

    pub open spec fn has_book(&self, name: Seq<char>) -> bool {
        exists|i: int| 0 <= i < self.names().len() && self.names()[i] == name
    }

    pub open spec fn book_idx(&self, name: Seq<char>) -> int {
        choose|i: int| 0 <= i < self.names().len() && self.names()[i] == name
    }

    /// Names are distinct and every book's map satisfies the range-map
    /// invariant.
    pub open spec fn wf(&self) -> bool {
        &&& (forall|i: int, j: int|
            0 <= i < j < self.names().len() ==> self.names()[i] != self.names()[j])
        &&& (forall|i: int|
            0 <= i < self.maps().len() ==> geo(#[trigger] self.maps()[i]) && fused(self.maps()[i]))
    }

    /// Creates a new empty ReadingProgress.
    pub fn new() -> (r: Self)
        ensures
            r.names() =~= Seq::<Seq<char>>::empty(),
            r.maps() =~= Seq::<BookEntries>::empty(),
            r.wf(),
    {
        let r = Self { books: Vec::new() };
        proof {
            assert(r.names() =~= Seq::<Seq<char>>::empty());
            assert(r.maps() =~= Seq::<BookEntries>::empty());
        }
        r
    }

    /// The book names in insertion order.
    pub fn book_names(&self) -> (r: Vec<String>)
        ensures
            r@.len() == self.names().len(),
            forall|i: int| 0 <= i < r@.len() ==> (#[trigger] r@[i])@ == self.names()[i],
    {
        let n = self.books.len();
        let mut r: Vec<String> = Vec::new();
        let mut i: usize = 0;
        while i < n
            invariant
                0 <= i <= n,
                n == self.books@.len(),
                r@.len() == i,
                forall|k: int| 0 <= k < i ==> (#[trigger] r@[k])@ == self.names()[k],
            decreases n - i,
        {
            r.push(self.books[i].0.clone());
            i += 1;
        }
        r
    }

    /// The stored entries of the named book; empty when the book is absent.
    pub fn book_entries(&self, book: &String) -> (r: Vec<
        (InsideBookBibleReference, InsideBookBibleReference, ReadingRecord),
    >)
        requires
            self.wf(),
        ensures
            self.has_book(book@) ==> r@ == self.maps()[self.book_idx(book@)],
            !self.has_book(book@) ==> r@ =~= Seq::<
                (InsideBookBibleReference, InsideBookBibleReference, ReadingRecord),
            >::empty(),
    {
        let n = self.books.len();
        let mut i: usize = 0;
        while i < n
            invariant
                0 <= i <= n,
                n == self.books@.len(),
                self.wf(),
                forall|k: int| 0 <= k < i ==> self.names()[k] != book@,
            decreases n - i,
        {
            if self.books[i].0.eq(book) {
                proof {
                    assert(self.names()[i as int] == book@);
                    lemma_idx_unique(self, book@, i as int);
                }
                return self.books[i].1.iter();
            }
            i += 1;
        }
        proof {
            if self.has_book(book@) {
                let k = self.book_idx(book@);
                assert(self.names()[k] == book@);
            }
        }
        Vec::new()
    }

    /// The named book's range map, when the book is present.
    pub fn book_map(&self, book: &String) -> (r: Option<
        &RangeMap<InsideBookBibleReference, ReadingRecord>,
    >)
        requires
            self.wf(),
        ensures
            self.has_book(book@) ==> (r matches Some(m) && m@ == self.maps()[self.book_idx(
                book@,
            )]),
            !self.has_book(book@) ==> r is None,
    {
        let n = self.books.len();
        let mut i: usize = 0;
        while i < n
            invariant
                0 <= i <= n,
                n == self.books@.len(),
                self.wf(),
                forall|k: int| 0 <= k < i ==> self.names()[k] != book@,
            decreases n - i,
        {
            if self.books[i].0.eq(book) {
                proof {
                    assert(self.names()[i as int] == book@);
                    lemma_idx_unique(self, book@, i as int);
                }
                return Some(&self.books[i].1);
            }
            i += 1;
        }
        proof {
            if self.has_book(book@) {
                let k = self.book_idx(book@);
                assert(self.names()[k] == book@);
            }
        }
        None
    }

    /// Index of the named book, creating it empty at the end when absent.
    fn find_or_create(&mut self, book: &String) -> (idx: usize)
        requires
            old(self).wf(),
        ensures
            final(self).wf(),
            0 <= idx < final(self).names().len(),
            final(self).names()[idx as int] == book@,
            final(self).book_idx(book@) == idx,
            final(self).has_book(book@),
            old(self).has_book(book@) ==> (*final(self) == *old(self) && idx == old(
                self,
            ).book_idx(book@)),
            !old(self).has_book(book@) ==> (final(self).names() == old(self).names().push(book@)
                && final(self).maps() == old(self).maps().push(
                Seq::empty(),
            ) && idx == old(self).names().len()),
    {
        let n = self.books.len();
        let mut i: usize = 0;
        while i < n
            invariant
                0 <= i <= n,
                n == self.books@.len(),
                self.wf(),
                self == old(self),
                forall|k: int| 0 <= k < i ==> self.names()[k] != book@,
            decreases n - i,
        {
            if self.books[i].0.eq(book) {
                proof {
                    assert(self.names()[i as int] == book@);
                    lemma_idx_unique(self, book@, i as int);
                }
                return i;
            }
            i += 1;
        }
        proof {
            if self.has_book(book@) {
                let k = self.book_idx(book@);
                assert(self.names()[k] == book@);
            }
        }
        let ghost pre = *self;
        self.books.push((book.clone(), RangeMap::new()));
        proof {
            assert(self.names() =~= pre.names().push(book@));
            assert(self.maps() =~= pre.maps().push(
                Seq::<(InsideBookBibleReference, InsideBookBibleReference, ReadingRecord)>::empty(),
            ));
            assert forall|k: int, j: int|
                0 <= k < j < self.names().len() implies self.names()[k] != self.names()[j] by {
                if j == self.names().len() - 1 {
                    assert(self.names()[k] == pre.names()[k]);
                }
            }
            lemma_idx_unique(self, book@, pre.names().len() as int);
        }
        n
    }

    /// Marks the single verse `reference` of `book` as read on `date`:
    /// inserts a fresh one-read record over the verse's window, adding
    /// counts on overlap (a verse already holding exactly the fresh record
    /// keeps it). Creates the book on first use.
    pub fn mark_read_on(&mut self, book: String, reference: InsideBookBibleReference, date: Date)
        requires
            old(self).wf(),
            reference.verse < u32::MAX,
        ensures
            final(self).wf(),
            marked(
                *old(self),
                *final(self),
                book@,
                reference,
                ReadingRecord { read_count: 1, last_read: date },
            ),
    {
        let fresh = ReadingRecord { read_count: 1, last_read: date };
        let next = InsideBookBibleReference {
            chapter: reference.chapter,
            verse: reference.verse + 1,
        };
        let ghost pre = *self;
        let idx = self.find_or_create(&book);
        let ghost found = *self;
        let mut entry = self.books.remove(idx);
        let ghost m0 = entry.1@;
        let accumulate = |a: &ReadingRecord, b: &ReadingRecord| -> (r: ReadingRecord)
            ensures
                r == merged_record(*a, *b),
            {
                ReadingRecord {
                    read_count: sat_add_exec(a.read_count, b.read_count),
                    last_read: b.last_read,
                }
            };
        proof {
            assert forall|a: ReadingRecord, b: ReadingRecord| #[trigger] call_requires(
                accumulate,
                (&a, &b),
            ) by {}
            assert(reference.key_lt(next));
            assert(geo(m0) && fused(m0)) by {
                assert(m0 == found.maps()[idx as int]);
            }
        }
        entry.1.insert_with(reference..next, fresh, accumulate);
        proof {
            lemma_record_eq_coalesce();
            assert forall|p: InsideBookBibleReference| #[trigger] covers(entry.1@, p) implies
                marked_value_ok(m0, value_at(entry.1@, p), reference, next, fresh, p) by {
                reveal(new_value_ok);
                assert(new_value_ok(m0, value_at(entry.1@, p), reference, next, fresh, accumulate, p));
            }
            assert(mark_map_post(m0, entry.1@, reference, next, fresh));
        }
        let ghost entv = entry.1@;
        let ghost eg = entry;
        self.books.insert(idx, entry);
        proof {
            lemma_reassemble(pre, found, *self, found.books@, eg, book@, idx as int, entv);
            assert(next == verse_after(reference));
            assert(m0 == found.maps()[idx as int]);
            if pre.has_book(book@) {
                assert(found == pre);
            } else {
                assert(self.maps()[idx as int] == entv);
            }
            assert(marked(pre, *self, book@, reference, fresh));
        }
    }

    /// Overwrites the single verse `reference` of `book` with a record of
    /// `read_count` reads, last read on `date`. Creates the book on first
    /// use.
    pub fn set_read_count_on(
        &mut self,
        book: String,
        reference: InsideBookBibleReference,
        read_count: u32,
        date: Date,
    )
        requires
            old(self).wf(),
            reference.verse < u32::MAX,
        ensures
            final(self).wf(),
            overwrote(
                *old(self),
                *final(self),
                book@,
                reference,
                ReadingRecord { read_count, last_read: date },
            ),
    {
        let rec = ReadingRecord { read_count, last_read: date };
        let next = InsideBookBibleReference {
            chapter: reference.chapter,
            verse: reference.verse + 1,
        };
        let ghost pre = *self;
        let idx = self.find_or_create(&book);
        let ghost found = *self;
        let mut entry = self.books.remove(idx);
        let ghost m0 = entry.1@;
        proof {
            assert(reference.key_lt(next));
            assert(geo(m0) && fused(m0)) by {
                assert(m0 == found.maps()[idx as int]);
            }
            lemma_record_eq_coalesce();
        }
        entry.1.insert_replace(reference..next, rec);
        proof {
            assert(set_map_post(m0, entry.1@, reference, next, rec));
        }
        let ghost entv = entry.1@;
        let ghost eg = entry;
        self.books.insert(idx, entry);
        proof {
            lemma_reassemble(pre, found, *self, found.books@, eg, book@, idx as int, entv);
            assert(next == verse_after(reference));
            assert(m0 == found.maps()[idx as int]);
            if pre.has_book(book@) {
                assert(found == pre);
            } else {
                assert(self.maps()[idx as int] == entv);
            }
            assert(overwrote(pre, *self, book@, reference, rec));
        }
    }

    /// Marks the verse as read with today's date, accumulating counts.
    pub fn mark_read(&mut self, book: String, reference: InsideBookBibleReference)
        requires
            old(self).wf(),
            reference.verse < u32::MAX,
        ensures
            final(self).wf(),
            exists|d: Date|
                d.in_calendar() && marked(
                    *old(self),
                    *final(self),
                    book@,
                    reference,
                    ReadingRecord { read_count: 1, last_read: d },
                ),
    {
        let d = today();
        self.mark_read_on(book, reference, d);
    }

    /// Overwrites the verse's record, defaulting the date to today.
    pub fn set_read_count(
        &mut self,
        book: String,
        reference: InsideBookBibleReference,
        read_count: u32,
        last_read: Option<Date>,
    )
        requires
            old(self).wf(),
            reference.verse < u32::MAX,
        ensures
            final(self).wf(),
            last_read matches Some(d) ==> overwrote(
                *old(self),
                *final(self),
                book@,
                reference,
                ReadingRecord { read_count, last_read: d },
            ),
            last_read is None ==> exists|d: Date|
                d.in_calendar() && overwrote(
                    *old(self),
                    *final(self),
                    book@,
                    reference,
                    ReadingRecord { read_count, last_read: d },
                ),
    {
        let d = match last_read {
            Some(d) => d,
            None => today(),
        };
        self.set_read_count_on(book, reference, read_count, d);
    }

    /// Marks a verse as read, overwriting any overlapping record instead of
    /// adding to it.
    pub fn mark_read_overwrite(
        &mut self,
        book: String,
        reference: InsideBookBibleReference,
        read_count: u32,
        last_read: Option<Date>,
    )
        requires
            old(self).wf(),
            reference.verse < u32::MAX,
        ensures
            final(self).wf(),
            last_read matches Some(d) ==> overwrote(
                *old(self),
                *final(self),
                book@,
                reference,
                ReadingRecord { read_count, last_read: d },
            ),
            last_read is None ==> exists|d: Date|
                d.in_calendar() && overwrote(
                    *old(self),
                    *final(self),
                    book@,
                    reference,
                    ReadingRecord { read_count, last_read: d },
                ),
    {
        self.set_read_count(book, reference, read_count, last_read);
    }
}

/// Taking a book's entry out, updating its map and putting it back at the
/// same index yields a well-formed state whose other books are untouched.
proof fn lemma_reassemble(
    pre: ReadingProgress,
    found: ReadingProgress,
    post: ReadingProgress,
    fb: Seq<(String, RangeMap<InsideBookBibleReference, ReadingRecord>)>,
    eg: (String, RangeMap<InsideBookBibleReference, ReadingRecord>),
    book: Seq<char>,
    idx: int,
    entv: BookEntries,
)
    requires
        found.wf(),
        fb == found.books@,
        0 <= idx < fb.len(),
        found.names()[idx] == book,
        found.book_idx(book) == idx,
        post.books@ == fb.remove(idx).insert(idx, eg),
        eg.0 == fb[idx].0,
        eg.1@ == entv,
        geo(entv),
        fused(entv),
    ensures
        post.wf(),
        post.names() == found.names(),
        post.maps().len() == found.maps().len(),
        forall|k: int| 0 <= k < found.maps().len() && k != idx ==> post.maps()[k]
            == found.maps()[k],
        post.maps()[idx] == entv,
        post.has_book(book),
        post.book_idx(book) == idx,
{
    fb.remove_ensures(idx);
    fb.remove(idx).insert_ensures(idx, eg);
    assert(post.books@.len() == fb.len());
    assert forall|k: int| 0 <= k < fb.len() && k != idx implies post.books@[k] == fb[k] by {
        if k > idx {
            assert(post.books@[k] == fb.remove(idx)[k - 1]);
        }
    }
    assert(post.books@[idx] == eg);
    assert forall|k: int| 0 <= k < fb.len() implies post.names()[k] == found.names()[k] by {
        if k != idx {
            assert(post.books@[k] == fb[k]);
        }
    }
    assert forall|k: int| 0 <= k < fb.len() && k != idx implies post.maps()[k]
        == found.maps()[k] by {
        assert(post.books@[k] == fb[k]);
    }
    assert(post.maps()[idx] == entv);
    lemma_update_shape(found, post, book, idx, entv);
}

/// Updating one book's map in place, leaving every name and every other
/// book's map unchanged, preserves well-formedness and the book's index.
proof fn lemma_update_shape(
    found: ReadingProgress,
    post: ReadingProgress,
    book: Seq<char>,
    idx: int,
    entv: BookEntries,
)
    requires
        found.wf(),
        0 <= idx < found.names().len(),
        found.names()[idx] == book,
        post.names().len() == found.names().len(),
        post.maps().len() == found.maps().len(),
        forall|k: int| 0 <= k < found.names().len() ==> post.names()[k] == found.names()[k],
        forall|k: int| 0 <= k < found.maps().len() && k != idx ==> post.maps()[k]
            == found.maps()[k],
        post.maps()[idx] == entv,
        geo(entv),
        fused(entv),
    ensures
        post.wf(),
        post.names() == found.names(),
        post.has_book(book),
        post.book_idx(book) == idx,
{
    assert(post.names() =~= found.names());
    assert forall|i: int|
        0 <= i < post.maps().len() implies geo(#[trigger] post.maps()[i]) && fused(
        post.maps()[i],
    ) by {
        if i != idx {
            assert(post.maps()[i] == found.maps()[i]);
        }
    }
    lemma_idx_unique(&post, book, idx);
}

} // verus!
