//! Small helpers shared by the application: the list of all books and the
//! progress file location.
use crate::bible_structure::BibleStructure;
use crate::config::Config;
use vstd::prelude::*;
use vstd::string::StringSliceAdditionalSpecFns;

verus! {

/// All book names, Old Testament first, each testament in canonical order.
pub fn get_all_books(bible: &BibleStructure) -> (r: Vec<String>)
    ensures
        r@.len() == bible.ot@.len() + bible.nt@.len(),
        forall|i: int| 0 <= i < bible.ot@.len() ==> (#[trigger] r@[i])@ == bible.ot@[i].0@,
        forall|i: int|
            0 <= i < bible.nt@.len() ==> (#[trigger] r@[bible.ot@.len() + i])@ == bible.nt@[i].0@,
{
    let mut r: Vec<String> = Vec::new();
    let mut i: usize = 0;
    let n = bible.ot.len();
    while i < n
        invariant
            0 <= i <= n,
            n == bible.ot@.len(),
            r@.len() == i,
            forall|k: int| 0 <= k < i ==> (#[trigger] r@[k])@ == bible.ot@[k].0@,
        decreases n - i,
    {
        r.push(bible.ot[i].0.clone());
        i += 1;
    }
    let mut j: usize = 0;
    let m = bible.nt.len();
    while j < m
        invariant
            0 <= j <= m,
            n == bible.ot@.len(),
            m == bible.nt@.len(),
            r@.len() == n + j,
            forall|k: int| 0 <= k < n ==> (#[trigger] r@[k])@ == bible.ot@[k].0@,
            forall|k: int| 0 <= k < j ==> (#[trigger] r@[n + k])@ == bible.nt@[k].0@,
        decreases m - j,
    {
        r.push(bible.nt[j].0.clone());
        j += 1;
    }
    r
}

/// Where the reading progress is stored.
pub fn get_progress_file_path(config: &Config) -> (r: String)
    ensures
        r@ == config.progress_path@,
{
    config.progress_path.clone()
}

/// ASCII whitespace, the padding the verse parser strips.
pub open spec fn is_space(b: u8) -> bool {
    b == 32 || 9 <= b <= 13
}

/// The byte sequence without its leading ASCII whitespace.
pub open spec fn trim_front(s: Seq<u8>) -> Seq<u8>
    decreases s.len(),
{
    if s.len() > 0 && is_space(s[0]) {
        trim_front(s.skip(1))
    } else {
        s
    }
}

/// The byte sequence without its trailing ASCII whitespace.
pub open spec fn trim_back(s: Seq<u8>) -> Seq<u8>
    decreases s.len(),
{
    if s.len() > 0 && is_space(s.last()) {
        trim_back(s.drop_last())
    } else {
        s
    }
}

/// The byte sequence without surrounding ASCII whitespace.
pub open spec fn trimmed(s: Seq<u8>) -> Seq<u8> {
    trim_back(trim_front(s))
}

/// The position of the first occurrence of `c`.
pub open spec fn first_byte(s: Seq<u8>, c: u8) -> Option<int>
    decreases s.len(),
{
    if s.len() == 0 {
        None
    } else if s[0] == c {
        Some(0int)
    } else {
        match first_byte(s.skip(1), c) {
            Some(j) => Some(j + 1),
            None => None,
        }
    }
}

/// The number a non-empty all-digit byte sequence denotes.
pub open spec fn digits_value(s: Seq<u8>) -> Option<int>
    decreases s.len(),
{
    if s.len() == 0 {
        None
    } else if s.len() == 1 {
        if 48 <= s[0] <= 57 {
            Some(s[0] - 48)
        } else {
            None
        }
    } else {
        match digits_value(s.drop_last()) {
            Some(v) => if 48 <= s.last() <= 57 {
                Some(v * 10 + (s.last() - 48))
            } else {
                None
            },
            None => None,
        }
    }
}

/// The number a byte sequence denotes the way `u32` parsing reads it: an
/// optional leading plus sign, then digits, the value within range.
pub open spec fn parse_u32_bytes(s: Seq<u8>) -> Option<u32> {
    let body = if s.len() > 0 && s[0] == 43 {
        s.skip(1)
    } else {
        s
    };
    match digits_value(body) {
        Some(v) => if v <= u32::MAX {
            Some(v as u32)
        } else {
            None
        },
        None => None,
    }
}

/// The range one trimmed piece of a verse list denotes: a single number
/// `v` (meaning `v..=v`) or `a-b` with exactly one dash, both parts
/// numbers, ordered, and the end at most `max_verse`.
pub open spec fn spec_verse_piece(p: Seq<u8>, max_verse: u32) -> Option<(u32, u32)> {
    match first_byte(p, 45) {
        Some(k) => if first_byte(p.skip(k + 1), 45) is Some {
            None
        } else {
            match (parse_u32_bytes(trimmed(p.take(k))), parse_u32_bytes(trimmed(p.skip(k + 1)))) {
                (Some(a), Some(b)) => if a > b || b > max_verse {
                    None
                } else {
                    Some((a, b))
                },
                _ => None,
            }
        },
        None => match parse_u32_bytes(p) {
            Some(v) => if v > max_verse {
                None
            } else {
                Some((v, v))
            },
            _ => None,
        },
    }
}

/// The ranges a comma-separated verse list denotes, piece by piece; `None`
/// as soon as a piece is malformed or out of bounds.
pub open spec fn spec_verse_ranges(s: Seq<u8>, max_verse: u32) -> Option<Seq<(u32, u32)>>
    decreases s.len(),
    via spec_verse_ranges_decreases
{
    match first_byte(s, 44) {
        None => match spec_verse_piece(trimmed(s), max_verse) {
            Some(r) => Some(seq![r]),
            None => None,
        },
        Some(k) => match spec_verse_piece(trimmed(s.take(k)), max_verse) {
            Some(r) => match spec_verse_ranges(s.skip(k + 1), max_verse) {
                Some(rest) => Some(seq![r] + rest),
                None => None,
            },
            None => None,
        },
    }
}

proof fn lemma_first_byte_range(s: Seq<u8>, c: u8)
    ensures
        first_byte(s, c) matches Some(k) ==> 0 <= k < s.len() && s[k] == c,
    decreases s.len(),
{
    if s.len() > 0 && s[0] != c {
        lemma_first_byte_range(s.skip(1), c);
    }
}

#[via_fn]
proof fn spec_verse_ranges_decreases(s: Seq<u8>, max_verse: u32) {
    lemma_first_byte_range(s, 44);
}

proof fn lemma_first_byte_at(s: Seq<u8>, c: u8, j: int)
    requires
        0 <= j < s.len(),
        s[j] == c,
        forall|k: int| 0 <= k < j ==> s[k] != c,
    ensures
        first_byte(s, c) == Some(j),
    decreases j,
{
    if j > 0 {
        assert(forall|k: int| 0 <= k < s.skip(1).len() ==> (#[trigger] s.skip(1)[k]) == s[k + 1]);
        lemma_first_byte_at(s.skip(1), c, j - 1);
    }
}

proof fn lemma_first_byte_none(s: Seq<u8>, c: u8)
    requires
        forall|k: int| 0 <= k < s.len() ==> s[k] != c,
    ensures
        first_byte(s, c) is None,
    decreases s.len(),
{
    if s.len() > 0 {
        assert(forall|k: int| 0 <= k < s.skip(1).len() ==> (#[trigger] s.skip(1)[k]) == s[k + 1]);
        lemma_first_byte_none(s.skip(1), c);
    }
}

proof fn lemma_digits_none(s: Seq<u8>, k: int)
    requires
        0 <= k < s.len(),
        !(48 <= s[k] <= 57),
    ensures
        digits_value(s) is None,
    decreases s.len(),
{
    if s.len() > 1 && k < s.len() - 1 {
        assert(forall|j: int|
            0 <= j < s.drop_last().len() ==> (#[trigger] s.drop_last()[j]) == s[j]);
        lemma_digits_none(s.drop_last(), k);
    }
}

/// The first occurrence of `c` in the window `[lo, hi)` of the bytes.
fn find_byte(bytes: &[u8], lo: usize, hi: usize, c: u8) -> (r: Option<usize>)
    requires
        lo <= hi <= bytes@.len(),
    ensures
        r matches Some(j) ==> lo <= j < hi && bytes@[j as int] == c && first_byte(
            bytes@.subrange(lo as int, hi as int),
            c,
        ) == Some(j - lo),
        r is None ==> first_byte(bytes@.subrange(lo as int, hi as int), c) is None,
{
    let ghost seg = bytes@.subrange(lo as int, hi as int);
    let mut j = lo;
    while j < hi
        invariant
            lo <= j <= hi <= bytes@.len(),
            seg == bytes@.subrange(lo as int, hi as int),
            forall|k: int| lo <= k < j ==> bytes@[k] != c,
        decreases hi - j,
    {
        if bytes[j] == c {
            proof {
                assert(forall|k: int| 0 <= k < seg.len() ==> (#[trigger] seg[k]) == bytes@[lo + k]);
                lemma_first_byte_at(seg, c, j - lo);
            }
            return Some(j);
        }
        j += 1;
    }
    proof {
        assert(forall|k: int| 0 <= k < seg.len() ==> (#[trigger] seg[k]) == bytes@[lo + k]);
        lemma_first_byte_none(seg, c);
    }
    None
}

/// The window shrunk to its content without surrounding ASCII whitespace.
fn trim_window(bytes: &[u8], lo: usize, hi: usize) -> (r: (usize, usize))
    requires
        lo <= hi <= bytes@.len(),
    ensures
        lo <= r.0 <= r.1 <= hi,
        bytes@.subrange(r.0 as int, r.1 as int) == trimmed(bytes@.subrange(lo as int, hi as int)),
{
    let ghost seg = bytes@.subrange(lo as int, hi as int);
    let mut a = lo;
    while a < hi && (bytes[a] == 32 || (9 <= bytes[a] && bytes[a] <= 13))
        invariant
            lo <= a <= hi <= bytes@.len(),
            trim_front(seg) == trim_front(bytes@.subrange(a as int, hi as int)),
        decreases hi - a,
    {
        proof {
            let cur = bytes@.subrange(a as int, hi as int);
            assert(cur[0] == bytes@[a as int]);
            assert(is_space(cur[0]));
            assert(cur.skip(1) =~= bytes@.subrange(a as int + 1, hi as int));
        }
        a += 1;
    }
    proof {
        let cur = bytes@.subrange(a as int, hi as int);
        if a < hi {
            assert(cur[0] == bytes@[a as int]);
            assert(!is_space(cur[0]));
        }
        assert(trim_front(seg) == cur);
    }
    let mut b = hi;
    while b > a && (bytes[b - 1] == 32 || (9 <= bytes[b - 1] && bytes[b - 1] <= 13))
        invariant
            lo <= a <= b <= hi <= bytes@.len(),
            trim_front(seg) == bytes@.subrange(a as int, hi as int),
            trim_back(bytes@.subrange(a as int, hi as int)) == trim_back(
                bytes@.subrange(a as int, b as int),
            ),
        decreases b,
    {
        proof {
            let cur = bytes@.subrange(a as int, b as int);
            assert(cur.last() == bytes@[b - 1]);
            assert(is_space(cur.last()));
            assert(cur.drop_last() =~= bytes@.subrange(a as int, b as int - 1));
        }
        b -= 1;
    }
    proof {
        let cur = bytes@.subrange(a as int, b as int);
        if b > a {
            assert(cur.last() == bytes@[b - 1]);
            assert(!is_space(cur.last()));
        }
        assert(trim_back(bytes@.subrange(a as int, hi as int)) == cur);
    }
    (a, b)
}

/// The number the window denotes, the way `u32` parsing reads it.
fn parse_u32_window(bytes: &[u8], lo: usize, hi: usize) -> (r: Option<u32>)
    requires
        lo <= hi <= bytes@.len(),
    ensures
        r == parse_u32_bytes(bytes@.subrange(lo as int, hi as int)),
{
    let ghost seg = bytes@.subrange(lo as int, hi as int);
    proof {
        assert(seg.len() == hi - lo);
        assert(seg.len() > 0 ==> seg[0] == bytes@[lo as int]);
    }
    let body_lo = if lo < hi && bytes[lo] == 43 {
        proof {
            assert(seg.skip(1) =~= bytes@.subrange(lo as int + 1, hi as int));
        }
        lo + 1
    } else {
        lo
    };
    let ghost body = bytes@.subrange(body_lo as int, hi as int);
    proof {
        if !(lo < hi && bytes@[lo as int] == 43) {
            assert(body =~= seg);
        }
        assert(body == (if seg.len() > 0 && seg[0] == 43 {
            seg.skip(1)
        } else {
            seg
        }));
        assert(parse_u32_bytes(seg) == (match digits_value(body) {
            Some(v) => if v <= u32::MAX {
                Some(v as u32)
            } else {
                None::<u32>
            },
            None => None::<u32>,
        }));
    }
    if body_lo == hi {
        proof {
            assert(digits_value(body) is None);
        }
        return None;
    }
    let cap: u64 = (u32::MAX as u64) + 1;
    let mut acc: u64 = 0;
    let mut j = body_lo;
    while j < hi
        invariant
            lo <= body_lo <= j <= hi <= bytes@.len(),
            body == bytes@.subrange(body_lo as int, hi as int),
            seg == bytes@.subrange(lo as int, hi as int),
            parse_u32_bytes(seg) == (match digits_value(body) {
                Some(v) => if v <= u32::MAX {
                    Some(v as u32)
                } else {
                    None::<u32>
                },
                None => None::<u32>,
            }),
            cap == (u32::MAX as u64) + 1,
            j == body_lo ==> acc == 0,
            j > body_lo ==> match digits_value(bytes@.subrange(body_lo as int, j as int)) {
                Some(v) => (v <= u32::MAX && acc == v) || (v > u32::MAX && acc == cap),
                None => false,
            },
        decreases hi - j,
    {
        let b = bytes[j];
        if !(48 <= b && b <= 57) {
            proof {
                assert(body[j - body_lo] == bytes@[j as int]);
                lemma_digits_none(body, j - body_lo);
            }
            return None;
        }
        let d = (b - 48) as u64;
        proof {
            let prefix = bytes@.subrange(body_lo as int, j as int);
            let next = bytes@.subrange(body_lo as int, j as int + 1);
            assert(next.drop_last() =~= prefix);
            assert(next.last() == bytes@[j as int]);
        }
        if acc >= cap {
            acc = cap;
        } else {
            let next = acc * 10 + d;
            acc = if next >= cap {
                cap
            } else {
                next
            };
        }
        proof {
            let next = bytes@.subrange(body_lo as int, j as int + 1);
            assert(digits_value(next) is Some);
        }
        j += 1;
    }
    proof {
        assert(bytes@.subrange(body_lo as int, hi as int) == body);
    }
    if acc >= cap {
        return None;
    }
    Some(acc as u32)
}

/// The range one trimmed piece denotes.
fn parse_piece(bytes: &[u8], lo: usize, hi: usize, max_verse: u32) -> (r: Option<(u32, u32)>)
    requires
        lo <= hi <= bytes@.len(),
    ensures
        r == spec_verse_piece(bytes@.subrange(lo as int, hi as int), max_verse),
{
    let ghost p = bytes@.subrange(lo as int, hi as int);
    match find_byte(bytes, lo, hi, 45) {
        Some(j) => {
            proof {
                assert(p.skip(j - lo + 1) =~= bytes@.subrange(j as int + 1, hi as int));
            }
            if let Some(_j2) = find_byte(bytes, j + 1, hi, 45) {
                return None;
            }
            proof {
                assert(p.take(j - lo) =~= bytes@.subrange(lo as int, j as int));
            }
            let (alo, ahi) = trim_window(bytes, lo, j);
            let (blo, bhi) = trim_window(bytes, j + 1, hi);
            let a = parse_u32_window(bytes, alo, ahi);
            let b = parse_u32_window(bytes, blo, bhi);
            match (a, b) {
                (Some(a), Some(b)) => {
                    if a > b || b > max_verse {
                        None
                    } else {
                        Some((a, b))
                    }
                },
                _ => None,
            }
        },
        None => {
            match parse_u32_window(bytes, lo, hi) {
                Some(v) => {
                    if v > max_verse {
                        None
                    } else {
                        Some((v, v))
                    }
                },
                None => None,
            }
        },
    }
}

/// Parses a comma-separated verse selection such as `3`, `1-5` or
/// `1-3, 7`: each piece a verse or an ordered dashed range within
/// `max_verse`. A selection of only ASCII whitespace means the whole
/// chapter. A malformed or out-of-bounds piece is reported as an error.
pub fn parse_verse_ranges(input: &str, max_verse: u32) -> (r: Result<Vec<(u32, u32)>, String>)
    ensures
        (forall|i: int|
            0 <= i < input.spec_bytes().len() ==> is_space(
                #[trigger] input.spec_bytes()[i],
            )) ==> (r matches Ok(v) && v@ =~= seq![(1u32, max_verse)]),
        !(forall|i: int|
            0 <= i < input.spec_bytes().len() ==> is_space(#[trigger] input.spec_bytes()[i]))
            ==> match spec_verse_ranges(input.spec_bytes(), max_verse) {
            Some(rs) => r matches Ok(v) && v@ == rs,
            None => r is Err,
        },
{
    let bytes = input.as_bytes();
    let n = bytes.len();
    let mut i: usize = 0;
    let mut blank = true;
    while i < n
        invariant
            0 <= i <= n,
            n == bytes@.len(),
            bytes@ == input.spec_bytes(),
            blank == (forall|k: int| 0 <= k < i ==> is_space(#[trigger] bytes@[k])),
        decreases n - i,
    {
        let b = bytes[i];
        if !(b == 32 || (9 <= b && b <= 13)) {
            blank = false;
        }
        proof {
            if blank {
                assert(forall|k: int| 0 <= k < i + 1 ==> is_space(#[trigger] bytes@[k]));
            } else {
                assert(!(forall|k: int| 0 <= k < i + 1 ==> is_space(#[trigger] bytes@[k]))) by {
                    if is_space(bytes@[i as int]) {
                        let w = choose|w: int| !(0 <= w < i ==> is_space(#[trigger] bytes@[w]));
                        assert(!(0 <= w < i + 1 ==> is_space(bytes@[w])));
                    }
                }
            }
        }
        i += 1;
    }
    if blank {
        let mut v: Vec<(u32, u32)> = Vec::new();
        v.push((1, max_verse));
        proof {
            assert(v@ =~= seq![(1u32, max_verse)]);
        }
        return Ok(v);
    }
    let mut seg_lo: usize = 0;
    let mut acc: Vec<(u32, u32)> = Vec::new();
    proof {
        assert(bytes@.subrange(0, n as int) =~= bytes@);
        if spec_verse_ranges(bytes@, max_verse) is Some {
            let rest = spec_verse_ranges(bytes@, max_verse)->Some_0;
            assert(acc@ + rest =~= rest);
        }
    }
    loop
        invariant
            0 <= seg_lo <= n,
            n == bytes@.len(),
            bytes@ == input.spec_bytes(),
            !(forall|k: int| 0 <= k < bytes@.len() ==> is_space(#[trigger] bytes@[k])),
            match spec_verse_ranges(bytes@.subrange(seg_lo as int, n as int), max_verse) {
                Some(rest) => spec_verse_ranges(bytes@, max_verse) == Some(acc@ + rest),
                None => spec_verse_ranges(bytes@, max_verse) is None,
            },
        decreases n - seg_lo,
    {
        let ghost suffix = bytes@.subrange(seg_lo as int, n as int);
        match find_byte(bytes, seg_lo, n, 44) {
            Some(j) => {
                proof {
                    assert(suffix.take(j - seg_lo) =~= bytes@.subrange(seg_lo as int, j as int));
                    assert(suffix.skip(j - seg_lo + 1) =~= bytes@.subrange(
                        j as int + 1,
                        n as int,
                    ));
                }
                let (plo, phi) = trim_window(bytes, seg_lo, j);
                match parse_piece(bytes, plo, phi, max_verse) {
                    Some(rg) => {
                        acc.push(rg);
                        proof {
                            assert(spec_verse_piece(trimmed(suffix.take(j - seg_lo)), max_verse)
                                == Some(rg));
                        }
                    },
                    None => {
                        proof {
                            assert(spec_verse_piece(trimmed(suffix.take(j - seg_lo)), max_verse)
                                is None);
                            assert(spec_verse_ranges(suffix, max_verse) is None);
                        }
                        return Err("invalid verse selection".to_owned());
                    },
                }
                proof {
                    let rg = acc@.last();
                    let tail = bytes@.subrange(j as int + 1, n as int);
                    assert(spec_verse_ranges(suffix, max_verse) == (match spec_verse_ranges(
                        tail,
                        max_verse,
                    ) {
                        Some(rest) => Some(seq![rg] + rest),
                        None => None::<Seq<(u32, u32)>>,
                    }));
                    if spec_verse_ranges(tail, max_verse) is Some {
                        assert(acc@ + (match spec_verse_ranges(tail, max_verse) {
                            Some(rest) => rest,
                            None => Seq::empty(),
                        }) =~= acc@.drop_last() + (seq![rg] + (match spec_verse_ranges(
                            tail,
                            max_verse,
                        ) {
                            Some(rest) => rest,
                            None => Seq::empty(),
                        })));
                    }
                }
                seg_lo = j + 1;
            },
            None => {
                let (plo, phi) = trim_window(bytes, seg_lo, n);
                match parse_piece(bytes, plo, phi, max_verse) {
                    Some(rg) => {
                        acc.push(rg);
                        proof {
                            assert(spec_verse_piece(trimmed(suffix), max_verse) == Some(rg));
                            assert(spec_verse_ranges(suffix, max_verse) == Some(seq![rg]));
                            assert(acc@ =~= acc@.drop_last() + seq![rg]);
                        }
                        return Ok(acc);
                    },
                    None => {
                        proof {
                            assert(spec_verse_piece(trimmed(suffix), max_verse) is None);
                            assert(spec_verse_ranges(suffix, max_verse) is None);
                        }
                        return Err("invalid verse selection".to_owned());
                    },
                }
            },
        }
    }
}

} // verus!
