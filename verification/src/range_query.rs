//! A map of disjoint half-open ranges over an ordered key type, with values
//! that are merged on overlapping inserts and fused across touching boundaries
//! when the value type allows it.
use vstd::prelude::*;

verus! {

/// A key type usable for range boundaries: copyable, with a strict total order.
pub trait RangeKey: Sized + Copy {
    /// The strict order on keys, at the specification level.
    spec fn key_lt(self, other: Self) -> bool;

    /// The order is irreflexive, transitive and connected.
    proof fn lemma_order(a: Self, b: Self, c: Self)
        ensures
            !a.key_lt(a),
            a.key_lt(b) && b.key_lt(c) ==> a.key_lt(c),
            a != b ==> a.key_lt(b) || b.key_lt(a),
    ;

    /// Executable comparison, agreeing with the specification order.
    fn lt(self, other: Self) -> (r: bool)
        ensures
            r == self.key_lt(other),
    ;
}

/// `a` is at or before `b` in the key order.
pub open spec fn key_le<K: RangeKey>(a: K, b: K) -> bool {
    !b.key_lt(a)
}

pub broadcast proof fn key_order_basics<K: RangeKey>(a: K, b: K)
    ensures
        #![trigger a.key_lt(b)]
        a.key_lt(b) ==> !b.key_lt(a) && a != b,
        !a.key_lt(b) && !b.key_lt(a) ==> a == b,
{
    K::lemma_order(a, b, a);
    K::lemma_order(b, a, b);
    K::lemma_order(a, a, a);
    K::lemma_order(b, b, b);
}

pub broadcast proof fn key_order_trans<K: RangeKey>(a: K, b: K, c: K)
    ensures
        #![trigger a.key_lt(b), b.key_lt(c)]
        a.key_lt(b) && b.key_lt(c) ==> a.key_lt(c),
{
    K::lemma_order(a, b, c);
}

pub proof fn klt_trans<K: RangeKey>(a: K, b: K, c: K)
    requires
        a.key_lt(b),
        b.key_lt(c),
    ensures
        a.key_lt(c),
{
    K::lemma_order(a, b, c);
}

pub proof fn kle_lt<K: RangeKey>(a: K, b: K, c: K)
    requires
        key_le(a, b),
        b.key_lt(c),
    ensures
        a.key_lt(c),
{
    K::lemma_order(a, b, c);
}

pub proof fn klt_le<K: RangeKey>(a: K, b: K, c: K)
    requires
        a.key_lt(b),
        key_le(b, c),
    ensures
        a.key_lt(c),
{
    K::lemma_order(a, b, c);
    K::lemma_order(b, c, c);
}

pub proof fn klt_implies_le<K: RangeKey>(a: K, b: K)
    requires
        a.key_lt(b),
    ensures
        key_le(a, b),
{
    K::lemma_order(a, b, a);
    K::lemma_order(a, a, a);
}

pub proof fn kle_trans<K: RangeKey>(a: K, b: K, c: K)
    requires
        key_le(a, b),
        key_le(b, c),
    ensures
        key_le(a, c),
{
    K::lemma_order(a, b, b);
    K::lemma_order(c, a, b);
}

impl RangeKey for i32 {
    open spec fn key_lt(self, other: Self) -> bool {
        self < other
    }

    proof fn lemma_order(a: Self, b: Self, c: Self) {
    }

    fn lt(self, other: Self) -> (r: bool) {
        self < other
    }
}

impl RangeKey for u32 {
    open spec fn key_lt(self, other: Self) -> bool {
        self < other
    }

    proof fn lemma_order(a: Self, b: Self, c: Self) {
    }

    fn lt(self, other: Self) -> (r: bool) {
        self < other
    }
}

/// A value type that can say when two touching or overlapping occurrences of
/// it may be represented by a single one, and what that single value is.
pub trait CanCoalesce: Sized {
    /// What fusing `self` (on the left) with `other` (on the right) yields,
    /// at the specification level; `None` when the two cannot fuse.
    spec fn spec_coalesce(&self, other: &Self) -> Option<Self>;

    /// Executable fusion, agreeing with the specification.
    fn coalesce(&self, other: &Self) -> (r: Option<Self>)
        ensures
            r == self.spec_coalesce(other),
    ;

    /// An explicit duplicate of the value, equal to the original.
    fn dup(&self) -> (r: Self)
        ensures
            r == *self,
    ;

    /// Whether two values fuse does not depend on their order.
    proof fn lemma_coalesce_symm(a: Self, b: Self)
        ensures
            a.spec_coalesce(&b).is_some() == b.spec_coalesce(&a).is_some(),
    ;

    /// A fused value fuses with exactly the same partners as either part:
    /// fusion respects the classes that fusability induces.
    proof fn lemma_coalesce_class(a: Self, b: Self, c: Self, d: Self)
        requires
            a.spec_coalesce(&b) == Some(c),
        ensures
            d.spec_coalesce(&a).is_some() == d.spec_coalesce(&c).is_some(),
            d.spec_coalesce(&a).is_some() == d.spec_coalesce(&b).is_some(),
    ;
}

/// The two values fuse into one.
pub open spec fn fusable<V: CanCoalesce>(a: V, b: V) -> bool {
    a.spec_coalesce(&b).is_some()
}

/// The value type fuses exactly its equal values, into that same value.
/// This is the default coalescing behaviour for types with equality.
pub open spec fn eq_coalesce<V: CanCoalesce>() -> bool {
    forall|a: V, b: V|
        #[trigger] a.spec_coalesce(&b) == (if a == b {
            Some(a)
        } else {
            None::<V>
        })
}

impl CanCoalesce for i32 {
    open spec fn spec_coalesce(&self, other: &Self) -> Option<Self> {
        if self == other {
            Some(*self)
        } else {
            None
        }
    }

    fn coalesce(&self, other: &Self) -> (r: Option<Self>) {
        if *self == *other {
            Some(*self)
        } else {
            None
        }
    }

    fn dup(&self) -> (r: Self) {
        *self
    }

    proof fn lemma_coalesce_symm(a: Self, b: Self) {
    }

    proof fn lemma_coalesce_class(a: Self, b: Self, c: Self, d: Self) {
    }
}

/// Maps over plain integers use the default equality coalescing, which the
/// round-trip laws take as their hypothesis.
pub proof fn lemma_i32_eq_coalesce()
    ensures
        eq_coalesce::<i32>(),
{
}

impl CanCoalesce for u32 {
    open spec fn spec_coalesce(&self, other: &Self) -> Option<Self> {
        if self == other {
            Some(*self)
        } else {
            None
        }
    }

    fn coalesce(&self, other: &Self) -> (r: Option<Self>) {
        if *self == *other {
            Some(*self)
        } else {
            None
        }
    }

    fn dup(&self) -> (r: Self) {
        *self
    }

    proof fn lemma_coalesce_symm(a: Self, b: Self) {
    }

    proof fn lemma_coalesce_class(a: Self, b: Self, c: Self, d: Self) {
    }
}

/// Relies on str's PartialEq: two string slices compare equal exactly when
/// their character sequences are equal.
#[verifier::external_body]
fn str_eq(a: &str, b: &str) -> (r: bool)
    ensures
        r == (a@ == b@),
{
    a == b
}

impl CanCoalesce for &'static str {
    open spec fn spec_coalesce(&self, other: &Self) -> Option<Self> {
        if self@ == other@ {
            Some(*self)
        } else {
            None
        }
    }

    fn coalesce(&self, other: &Self) -> (r: Option<Self>) {
        if str_eq(self, other) {
            Some(*self)
        } else {
            None
        }
    }

    fn dup(&self) -> (r: Self) {
        *self
    }

    proof fn lemma_coalesce_symm(a: Self, b: Self) {
    }

    proof fn lemma_coalesce_class(a: Self, b: Self, c: Self, d: Self) {
    }
}

impl CanCoalesce for String {
    open spec fn spec_coalesce(&self, other: &Self) -> Option<Self> {
        if self@ == other@ {
            Some(*self)
        } else {
            None
        }
    }

    fn coalesce(&self, other: &Self) -> (r: Option<Self>) {
        if self.eq(other) {
            Some(self.clone())
        } else {
            None
        }
    }

    fn dup(&self) -> (r: Self) {
        self.clone()
    }

    proof fn lemma_coalesce_symm(a: Self, b: Self) {
    }

    proof fn lemma_coalesce_class(a: Self, b: Self, c: Self, d: Self) {
    }
}

/// A map of disjoint half-open ranges `[start, end)` and values, where an
/// overlap during insert triggers merging of the values on the intersection
/// of the overlapping ranges.
pub struct RangeMap<K: RangeKey, V: CanCoalesce> {
    items: Vec<(K, K, V)>,
}

impl<K: RangeKey, Val: CanCoalesce> View for RangeMap<K, Val> {
    type V = Seq<(K, K, Val)>;

    closed spec fn view(&self) -> Seq<(K, K, Val)> {
        self.items@
    }
}

/// Every stored range is non-empty and the ranges appear sorted and disjoint.
pub open spec fn geo<K: RangeKey, V>(s: Seq<(K, K, V)>) -> bool {
    &&& forall|i: int| 0 <= i < s.len() ==> (#[trigger] s[i]).0.key_lt(s[i].1)
    &&& forall|i: int| 0 <= i && i + 1 < s.len() ==> key_le((#[trigger] s[i]).1, s[i + 1].0)
}

/// No two adjacent touching entries carry fusable values.
pub open spec fn fused<K: RangeKey, V: CanCoalesce>(s: Seq<(K, K, V)>) -> bool {
    forall|i: int|
        0 <= i && i + 1 < s.len() && (#[trigger] s[i]).1 == s[i + 1].0 ==> !fusable(s[i].2, s[i + 1].2)
}

/// The point `p` lies inside the half-open window `[rs, re)`.
pub open spec fn in_win<K: RangeKey>(rs: K, re: K, p: K) -> bool {
    key_le(rs, p) && p.key_lt(re)
}

/// The entry's range contains the point `p`.
pub open spec fn entry_covers<K: RangeKey, V>(t: (K, K, V), p: K) -> bool {
    key_le(t.0, p) && p.key_lt(t.1)
}

/// Some stored entry contains the point `p`.
pub open spec fn covers<K: RangeKey, V>(s: Seq<(K, K, V)>, p: K) -> bool {
    exists|i: int| 0 <= i < s.len() && entry_covers(#[trigger] s[i], p)
}

/// The index of the entry containing `p` (unique when `geo` holds).
pub open spec fn idx_at<K: RangeKey, V>(s: Seq<(K, K, V)>, p: K) -> int {
    choose|i: int| 0 <= i < s.len() && entry_covers(#[trigger] s[i], p)
}

/// The value stored at the point `p`.
pub open spec fn value_at<K: RangeKey, V>(s: Seq<(K, K, V)>, p: K) -> V {
    s[idx_at(s, p)].2
}

/// Under `geo`, entry ends never precede their own or earlier starts:
/// the sorted-disjoint condition extends from neighbours to all pairs.
/// Under `geo`, the end of an earlier entry is at or before the start of any
/// later one, not only of its direct neighbour.
pub proof fn lemma_geo_le<K: RangeKey, V>(s: Seq<(K, K, V)>, i: int, j: int)
    requires
        geo(s),
        0 <= i < j < s.len(),
    ensures
        key_le(s[i].1, s[j].0),
    decreases j - i,
{
    broadcast use key_order_basics, key_order_trans;

    if i + 1 < j {
        lemma_geo_le(s, i, j - 1);
        assert(s[j - 1].0.key_lt(s[j - 1].1));
        assert(key_le(s[j - 1].1, s[j].0));
    }
}

pub proof fn lemma_geo_pairwise<K: RangeKey, V>(s: Seq<(K, K, V)>)
    requires
        geo(s),
    ensures
        forall|i: int, j: int| 0 <= i < j < s.len() ==> key_le((#[trigger] s[i]).1, (#[trigger] s[j]).0),
{
    assert forall|i: int, j: int| 0 <= i < j < s.len() implies key_le(
        (#[trigger] s[i]).1,
        (#[trigger] s[j]).0,
    ) by {
        lemma_geo_le(s, i, j);
    }
}

/// Under `geo`, at most one entry covers a given point.
pub proof fn lemma_covers_unique<K: RangeKey, V>(s: Seq<(K, K, V)>, p: K, i: int, j: int)
    requires
        geo(s),
        0 <= i < s.len(),
        0 <= j < s.len(),
        entry_covers(s[i], p),
        entry_covers(s[j], p),
    ensures
        i == j,
{
    broadcast use key_order_basics, key_order_trans;

    lemma_geo_pairwise(s);
    if i < j {
        assert(key_le(s[i].1, s[j].0));
    }
    if j < i {
        assert(key_le(s[j].1, s[i].0));
    }
}

/// The entry at a covered point is the one `idx_at` picks.
pub proof fn lemma_value_at<K: RangeKey, V>(s: Seq<(K, K, V)>, p: K, i: int)
    requires
        geo(s),
        0 <= i < s.len(),
        entry_covers(s[i], p),
    ensures
        covers(s, p),
        idx_at(s, p) == i,
        value_at(s, p) == s[i].2,
{
    assert(covers(s, p));
    lemma_covers_unique(s, p, i, idx_at(s, p));
}

/// Which points are covered after inserting `value` over `[rs, re)` into a
/// map whose entries were `os`. Every point of the window is covered, points
/// before the window keep their coverage, and past the window coverage is
/// kept except for the part `[re, t.1)` of an entry `t` straddling `re`
/// whose value is absorbed into the inserted one (fusable with it): such an
/// entry is swallowed whole by the insert, which ends at `re`.
pub open spec fn post_covers<K: RangeKey, V: CanCoalesce>(
    os: Seq<(K, K, V)>,
    rs: K,
    re: K,
    value: V,
    p: K,
) -> bool {
    if p.key_lt(re) {
        covers(os, p) || in_win(rs, re, p)
    } else {
        covers(os, p) && (key_le(re, os[idx_at(os, p)].0) || !fusable(os[idx_at(os, p)].2, value))
    }
}

/// What value an insert with equality coalescing leaves at a covered point
/// `p`: inside the window, a point previously holding the inserted value
/// keeps it (absorption), any other previously covered point holds a result
/// of `merge(old value, inserted value)`, and a fresh point holds the
/// inserted value; outside the window values are unchanged.
#[verifier::opaque]
pub open spec fn new_value_ok<K: RangeKey, V: CanCoalesce, F: Fn(&V, &V) -> V>(
    os: Seq<(K, K, V)>,
    outv: V,
    rs: K,
    re: K,
    value: V,
    merge: F,
    p: K,
) -> bool {
    if in_win(rs, re, p) {
        if covers(os, p) {
            if value_at(os, p) == value {
                outv == value
            } else {
                call_ensures(merge, (&value_at(os, p), &value), outv)
            }
        } else {
            outv == value
        }
    } else {
        covers(os, p) ==> outv == value_at(os, p)
    }
}

/// The entries a range query keeps: those intersecting `[qs, qe)`.
pub open spec fn range_pred<K: RangeKey, V: CanCoalesce>(qs: K, qe: K) -> spec_fn((K, K, V)) -> bool {
    |t: (K, K, V)| t.0.key_lt(qe) && qs.key_lt(t.1)
}

/// What an overwriting insert leaves at a covered point: the inserted value
/// inside the window, the previous value elsewhere.
pub open spec fn replaced_value_ok<K: RangeKey, V: CanCoalesce>(
    os: Seq<(K, K, V)>,
    outv: V,
    rs: K,
    re: K,
    value: V,
    p: K,
) -> bool {
    if in_win(rs, re, p) {
        outv == value
    } else {
        covers(os, p) ==> outv == value_at(os, p)
    }
}

/// The rolling shape of the output while an insert scans its window: the
/// geometry holds, everything before the cursor is resolved, nothing at or
/// past the cursor is covered yet, and junctions outside the window carry no
/// fusable values.
#[verifier::opaque]
pub open spec fn scan_state<K: RangeKey, V: CanCoalesce, F: Fn(&V, &V) -> V>(
    os: Seq<(K, K, V)>,
    q: Seq<(K, K, V)>,
    rs: K,
    re: K,
    value: V,
    merge: F,
    cursor: K,
) -> bool {
    &&& geo(q)
    &&& (q.len() > 0 ==> key_le(q.last().1, cursor))
    &&& (forall|p: K| key_le(cursor, p) ==> !covers(q, p))
    &&& key_le(cursor, re)
    &&& (forall|p: K| p.key_lt(cursor) ==> covers(q, p) == (covers(os, p) || in_win(rs, re, p)))
    &&& (eq_coalesce::<V>() ==> forall|p: K|
        p.key_lt(cursor) && covers(q, p) ==> new_value_ok(os, value_at(q, p), rs, re, value, merge, p))
    &&& fused_outside(q, rs, re)
}

/// The shape once the window content and the optional right fragment of a
/// split entry are in place.
#[verifier::opaque]
pub open spec fn settled_state<K: RangeKey, V: CanCoalesce, F: Fn(&V, &V) -> V>(
    os: Seq<(K, K, V)>,
    q: Seq<(K, K, V)>,
    rs: K,
    re: K,
    value: V,
    merge: F,
    tg: Option<(K, K, V)>,
) -> bool {
    &&& geo(q)
    &&& q.len() > 0
    &&& (forall|p: K| p.key_lt(re) ==> covers(q, p) == (covers(os, p) || in_win(rs, re, p)))
    &&& (forall|p: K| key_le(re, p) ==> covers(q, p) == (tg matches Some(t2) && entry_covers(t2, p)))
    &&& (eq_coalesce::<V>() ==> forall|p: K|
        covers(q, p) ==> new_value_ok(os, value_at(q, p), rs, re, value, merge, p))
    &&& fused_outside(q, rs, re)
}

/// The shape while the untouched entries past the window are appended back:
/// everything before the next entry to append matches `post_covers`.
#[verifier::opaque]
pub open spec fn appended_state<K: RangeKey, V: CanCoalesce, F: Fn(&V, &V) -> V>(
    os: Seq<(K, K, V)>,
    q: Seq<(K, K, V)>,
    rs: K,
    re: K,
    value: V,
    merge: F,
    i: int,
) -> bool {
    &&& geo(q)
    &&& q.len() > 0
    &&& (forall|p: K|
        (i < os.len() ==> p.key_lt(os[i].0)) ==> (covers(q, p) == post_covers(os, rs, re, value, p)))
    &&& (forall|p: K| key_le(q.last().1, p) ==> !covers(q, p))
    &&& (eq_coalesce::<V>() ==> forall|p: K|
        covers(q, p) ==> new_value_ok(os, value_at(q, p), rs, re, value, merge, p))
    &&& fused_outside(q, rs, re)
}

/// Adjacent touching pairs whose junction lies inside the closed window
/// `[a, b]` carry no fusable values.
pub open spec fn fused_inside<K: RangeKey, V: CanCoalesce>(s: Seq<(K, K, V)>, a: K, b: K) -> bool {
    forall|i: int|
        0 <= i && i + 1 < s.len() && (#[trigger] s[i]).1 == s[i + 1].0 && key_le(a, s[i].1)
            && key_le(s[i].1, b) ==> !fusable(s[i].2, s[i + 1].2)
}

/// Adjacent touching pairs whose junction lies outside the closed window
/// `[a, b]` carry no fusable values.
pub open spec fn fused_outside<K: RangeKey, V: CanCoalesce>(s: Seq<(K, K, V)>, a: K, b: K) -> bool {
    forall|i: int|
        0 <= i && i + 1 < s.len() && (#[trigger] s[i]).1 == s[i + 1].0 && (s[i].1.key_lt(a) || b.key_lt(
            s[i].1,
        )) ==> !fusable(s[i].2, s[i + 1].2)
}

pub proof fn lemma_covers_push<K: RangeKey, V>(s: Seq<(K, K, V)>, t: (K, K, V), p: K)
    ensures
        covers(s.push(t), p) == (covers(s, p) || entry_covers(t, p)),
{
    let q = s.push(t);
    if covers(q, p) {
        let i = choose|i: int| 0 <= i < q.len() && entry_covers(#[trigger] q[i], p);
        if i < s.len() {
            assert(s[i] == q[i]);
            assert(covers(s, p));
        } else {
            assert(q[i] == t);
        }
    }
    if covers(s, p) {
        let i = choose|i: int| 0 <= i < s.len() && entry_covers(#[trigger] s[i], p);
        assert(q[i] == s[i]);
        assert(covers(q, p));
    }
    if entry_covers(t, p) {
        assert(entry_covers(q[s.len() as int], p));
        assert(covers(q, p));
    }
}

pub proof fn lemma_value_at_push<K: RangeKey, V>(s: Seq<(K, K, V)>, t: (K, K, V), p: K)
    requires
        geo(s.push(t)),
    ensures
        covers(s, p) ==> covers(s.push(t), p) && value_at(s.push(t), p) == value_at(s, p),
        entry_covers(t, p) ==> covers(s.push(t), p) && value_at(s.push(t), p) == t.2,
{
    let q = s.push(t);
    assert(forall|i: int| 0 <= i < s.len() ==> #[trigger] s[i] == q[i]);
    if covers(s, p) {
        let i = idx_at(s, p);
        assert(entry_covers(s[i], p));
        lemma_value_at(q, p, i);
        assert(geo(s)) by {
            assert(forall|k: int| 0 <= k < s.len() ==> (#[trigger] s[k]) == q[k]);
        }
        lemma_value_at(s, p, i);
    }
    if entry_covers(t, p) {
        lemma_value_at(q, p, s.len() as int);
    }
}

/// Restriction of `geo` to a prefix.
pub proof fn lemma_geo_take<K: RangeKey, V>(s: Seq<(K, K, V)>, i: int)
    requires
        geo(s),
        0 <= i <= s.len(),
    ensures
        geo(s.take(i)),
{
    let t = s.take(i);
    assert forall|k: int| 0 <= k < t.len() implies (#[trigger] t[k]).0.key_lt(t[k].1) by {
        assert(t[k] == s[k]);
    }
    assert forall|k: int| 0 <= k && k + 1 < t.len() implies key_le((#[trigger] t[k]).1, t[k + 1].0) by {
        assert(t[k] == s[k]);
        assert(t[k + 1] == s[k + 1]);
    }
}

impl<K: RangeKey, V: CanCoalesce> RangeMap<K, V> {
    /// The internal invariant: sorted disjoint non-empty ranges with no
    /// fusable touching neighbours.
    pub open spec fn inv(&self) -> bool {
        geo(self@) && fused(self@)
    }

    /// Create an empty map.
    pub fn new() -> (r: Self)
        ensures
            r@ =~= Seq::<(K, K, V)>::empty(),
            r.inv(),
    {
        Self { items: Vec::new() }
    }

    /// All stored entries, in ascending start order.
    pub fn iter(&self) -> (r: Vec<(K, K, V)>)
        ensures
            r@ == self@,
    {
        let mut r: Vec<(K, K, V)> = Vec::new();
        let mut i: usize = 0;
        while i < self.items.len()
            invariant
                0 <= i <= self.items.len(),
                r@ == self@.take(i as int),
            decreases self.items.len() - i,
        {
            let t = &self.items[i];
            r.push((t.0, t.1, t.2.dup()));
            proof {
                assert(self@.take(i + 1 as int) =~= self@.take(i as int).push(self@[i as int]));
            }
            i += 1;
        }
        proof {
            assert(self@.take(self.items.len() as int) =~= self@);
        }
        r
    }

    /// Insert `value` over the half-open window `[range.start, range.end)`,
    /// splitting and merging as necessary. On each maximal previously covered
    /// segment of the window the stored value becomes `merge(old, new)`,
    /// except that an existing value that coalesces with the inserted one is
    /// absorbed into it. An empty or inverted window changes nothing.
    ///
    /// The invariant and the coverage shape are guaranteed for every value
    /// type; the pointwise value clause is stated under `eq_coalesce`, the
    /// default fuse-equal-values behaviour that every value type of this
    /// crate has. A coalescer that fuses unequal values folds absorbed
    /// values into the inserted one, and this contract does not pin the
    /// stored values for such a type.
    #[verifier::rlimit(100)]
    #[verifier::spinoff_prover]
    pub fn insert_with<F: Fn(&V, &V) -> V>(
        &mut self,
        range: core::ops::Range<K>,
        value: V,
        merge: F,
    )
        requires
            old(self).inv(),
            forall|a: V, b: V| #[trigger] call_requires(merge, (&a, &b)),
        ensures
            final(self).inv(),
            !range.start.key_lt(range.end) ==> final(self)@ == old(self)@,
            range.start.key_lt(range.end) ==> forall|p: K|
                #[trigger] covers(final(self)@, p) == post_covers(
                    old(self)@,
                    range.start,
                    range.end,
                    value,
                    p,
                ),
            range.start.key_lt(range.end) && eq_coalesce::<V>() ==> forall|p: K|
                #[trigger] covers(final(self)@, p) ==> new_value_ok(
                    old(self)@,
                    value_at(final(self)@, p),
                    range.start,
                    range.end,
                    value,
                    merge,
                    p,
                ),
    {
        let rs = range.start;
        let re = range.end;
        if !rs.lt(re) {
            return;
        }
        let ghost os = self@;
        proof {
            reveal(scan_state);
            reveal(settled_state);
            reveal(appended_state);
            lemma_geo_pairwise(os);
        }
        let n = self.items.len();
        let mut out: Vec<(K, K, V)> = Vec::new();
        proof {
            reveal(scan_state);
            reveal(settled_state);
            reveal(appended_state);
            assert(out@ =~= os.take(0));
        }
        let mut i: usize = 0;
        // far left: entries that end before the window begins
        while i < n && self.items[i].1.lt(rs)
            invariant
                self@ == os,
                n == os.len(),
                n == self.items@.len(),
                geo(os),
                fused(os),
                rs.key_lt(re),
                forall|a: V, b: V| #[trigger] call_requires(merge, (&a, &b)),
                0 <= i <= n,
                out@ == os.take(i as int),
                forall|k: int| 0 <= k < i ==> (#[trigger] os[k]).1.key_lt(rs),
            decreases n - i,
        {
            let t = &self.items[i];
            out.push((t.0, t.1, t.2.dup()));
            proof {
                reveal(scan_state);
                reveal(settled_state);
                reveal(appended_state);
                assert(out@ =~= os.take(i as int + 1));
            }
            i += 1;
        }
        let ghost j = i as int;
        let mut cursor: K = rs;
        let mut tail: Option<(K, K, V)> = None;
        let ghost mut ldrop: Option<int> = None;
        let mut acc: V = value.dup();
        if i < n && self.items[i].0.lt(rs) {
            // the single entry that begins before the window and reaches it
            proof {
                reveal(scan_state);
                reveal(settled_state);
                reveal(appended_state);
                assert(key_le(rs, os[j].1));
                assert forall|k: int| j + 1 <= k < n implies key_le(os[j].1, (#[trigger] os[k]).0)
                    && key_le(rs, os[k].0) && key_le(os[j].0, os[k].0) by {
                    if k > j {
                        lemma_geo_le(os, j, k);
                        kle_trans(rs, os[j].1, os[k].0);
                        klt_le(os[j].0, os[j].1, os[k].0);
                        klt_implies_le(os[j].0, os[k].0);
                    }
                }
            }
            if self.items[i].2.coalesce(&value).is_some() {
                // absorbed: the window content will reach back to this start
                cursor = self.items[i].0;
                proof {
                    reveal(scan_state);
                    reveal(settled_state);
                    reveal(appended_state);
                    ldrop = Some(j);
                }
                i += 1;
                proof {
                    reveal(scan_state);
                    reveal(settled_state);
                    reveal(appended_state);
                    assert(fusable(os[j].2, value));
                    assert(key_le(cursor, re)) by {
                        klt_trans(os[j].0, rs, re);
                        klt_implies_le(os[j].0, re);
                    }
                    assert forall|k: int| j <= k < n implies key_le(
                        cursor,
                        (#[trigger] os[k]).0,
                    ) by {
                        if k == j {
                            K::lemma_order(cursor, cursor, cursor);
                        }
                    }
                    assert forall|p: K| key_le(cursor, p) implies !covers(out@, p) by {
                        if covers(out@, p) {
                            let k = idx_at(out@, p);
                            assert(entry_covers(out@[k], p));
                            assert(out@[k] == os[k]);
                            lemma_geo_le(os, k, j);
                            klt_le(p, os[k].1, os[j].0);
                            assert(false);
                        }
                    }
                    assert forall|p: K| p.key_lt(cursor) implies covers(out@, p) == (covers(os, p)
                        || in_win(rs, re, p)) by {
                        klt_trans(p, os[j].0, rs);
                        assert(!in_win(rs, re, p));
                        lemma_covers_take(os, j, p);
                        if covers(os, p) {
                            lemma_cover_idx_lt(os, j, cursor, p);
                        }
                    }
                    if eq_coalesce::<V>() {
                        assert(os[j].2.spec_coalesce(&value) == (if os[j].2 == value {
                            Some(os[j].2)
                        } else {
                            None::<V>
                        }));
                        assert(os[j].2 == value);
                        assert forall|p: K| p.key_lt(cursor) && covers(out@, p) implies
                            new_value_ok(os, value_at(out@, p), rs, re, value, merge, p) by {
                            reveal(new_value_ok);
                            klt_trans(p, os[j].0, rs);
                            lemma_covers_take(os, j, p);
                        }
                        assert forall|k: int, p: K|
                            0 <= k < i && key_le(cursor, p) && p.key_lt(re)
                                && #[trigger] entry_covers(os[k], p) implies os[k].2 == value by {
                            if k < j {
                                lemma_geo_le(os, k, j);
                                klt_le(p, os[k].1, os[j].0);
                                assert(false);
                            }
                        }
                    }
                    assert forall|k: int|
                        0 <= k < i && re.key_lt((#[trigger] os[k]).1) implies (fusable(
                        os[k].2,
                        value,
                    ) || (tail is Some && k == i - 1)) by {
                        if k < j {
                            klt_trans(os[k].1, rs, re);
                            K::lemma_order(re, os[k].1, re);
                            assert(false);
                        }
                    }
                    assert forall|k: int| 0 <= k < i implies (#[trigger] os[k]).0.key_lt(re) by {
                        if k < j {
                            klt_trans(os[k].0, os[k].1, rs);
                            klt_trans(os[k].0, rs, re);
                        } else {
                            klt_trans(os[j].0, rs, re);
                        }
                    }
                    lemma_geo_take(os, j);
                    assert(out@.len() > 0 ==> key_le(out@.last().1, cursor)) by {
                        if out@.len() > 0 {
                            assert(out@.last() == os[j - 1]);
                        }
                    }
                    assert(fused_outside(out@, rs, re)) by {
                        assert forall|k: int|
                            0 <= k && k + 1 < out@.len() && (#[trigger] out@[k]).1 == out@[k + 1].0
                                && (out@[k].1.key_lt(rs) || re.key_lt(out@[k].1)) implies !fusable(
                            out@[k].2,
                            out@[k + 1].2,
                        ) by {
                            assert(out@[k] == os[k] && out@[k + 1] == os[k + 1]);
                        }
                    }
                    assert(scan_state(os, out@, rs, re, value, merge, cursor));
                }
            } else {
                let straddles = rs.lt(self.items[i].1);
                if straddles {
                    // straddles the window start and does not fuse: split it
                    let ghost pre = out@;
                    let t = &self.items[i];
                    out.push((t.0, rs, t.2.dup()));
                    let nend = if re.lt(t.1) {
                        re
                    } else {
                        t.1
                    };
                    let m = merge(&t.2, &value);
                    let ghost mv: V = m;
                    out.push((rs, nend, m));
                    if re.lt(t.1) {
                        tail = Some((re, t.1, t.2.dup()));
                    }
                    cursor = nend;
                    i += 1;
                    proof {
                        reveal(scan_state);
                        reveal(settled_state);
                        reveal(appended_state);
                        let e1 = (os[j].0, rs, os[j].2);
                        let e2 = (rs, nend, mv);
                        assert(out@ =~= os.take(j).push(e1).push(e2));
                        assert(call_ensures(merge, (&os[j].2, &value), mv));
                        assert(rs.key_lt(nend) && key_le(nend, re) && key_le(nend, os[j].1)) by {
                            if re.key_lt(os[j].1) {
                                klt_implies_le(re, os[j].1);
                                K::lemma_order(re, re, re);
                            } else {
                                K::lemma_order(os[j].1, os[j].1, os[j].1);
                            }
                        }
                        lemma_geo_take(os, j);
                        assert forall|k: int| j <= k < n implies key_le(
                            os[j].0,
                            (#[trigger] os[k]).0,
                        ) by {
                            if k == j {
                                K::lemma_order(os[j].0, os[j].0, os[j].0);
                            }
                        }
                        assert forall|k: int| j + 1 <= k < n implies key_le(
                            cursor,
                            (#[trigger] os[k]).0,
                        ) by {
                            kle_trans(nend, os[j].1, os[k].0);
                        }
                        assert(geo(out@)) by {
                            assert(forall|k: int|
                                0 <= k < j ==> (#[trigger] out@[k]) == os.take(j)[k]);
                            assert(out@[j] == e1 && out@[j + 1] == e2);
                            K::lemma_order(rs, rs, rs);
                            assert forall|k: int| 0 <= k < out@.len() implies (#[trigger] out@[k]).0.key_lt(
                                out@[k].1,
                            ) by {
                                if k < j {
                                    assert(out@[k] == os[k]);
                                }
                            }
                            assert forall|k: int|
                                0 <= k && k + 1 < out@.len() implies key_le(
                                (#[trigger] out@[k]).1,
                                out@[k + 1].0,
                            ) by {
                                if k + 1 < j {
                                    assert(out@[k] == os[k] && out@[k + 1] == os[k + 1]);
                                } else if k + 1 == j {
                                    assert(out@[k] == os[k]);
                                }
                            }
                        }
                        assert forall|p: K| key_le(cursor, p) implies !covers(out@, p) by {
                            if covers(out@, p) {
                                let k = idx_at(out@, p);
                                assert(entry_covers(out@[k], p));
                                if k < j {
                                    assert(out@[k] == os[k]);
                                    klt_trans(os[k].1, rs, nend);
                                    klt_trans(p, os[k].1, nend);
                                    assert(false);
                                } else if k == j {
                                    klt_trans(p, rs, nend);
                                    assert(false);
                                } else {
                                    assert(false);
                                }
                            }
                        }
                        assert forall|p: K| p.key_lt(cursor) implies covers(out@, p) == (covers(
                            os,
                            p,
                        ) || in_win(rs, re, p)) by {
                            if p.key_lt(os[j].0) {
                                klt_trans(p, os[j].0, rs);
                                assert(!entry_covers(e1, p) && !entry_covers(e2, p));
                                assert(!in_win(rs, re, p));
                                lemma_covers_take(os, j, p);
                                if covers(os, p) {
                                    lemma_cover_idx_lt(os, j, os[j].0, p);
                                    assert(covers(os.take(j), p));
                                    let k = idx_at(os.take(j), p);
                                    assert(entry_covers(os.take(j)[k], p));
                                    assert(out@[k] == os.take(j)[k]);
                                    assert(entry_covers(out@[k], p));
                                    assert(covers(out@, p));
                                } else {
                                    if covers(out@, p) {
                                        let k = idx_at(out@, p);
                                        assert(entry_covers(out@[k], p));
                                        assert(k < j) by {
                                            if k == j || k == j + 1 {
                                                assert(false);
                                            }
                                        }
                                        assert(out@[k] == os[k]);
                                        assert(covers(os, p));
                                    }
                                }
                            } else if p.key_lt(rs) {
                                assert(entry_covers(e1, p));
                                assert(entry_covers(out@[j], p));
                                assert(covers(out@, p));
                                assert(entry_covers(os[j], p)) by {
                                    klt_le(p, rs, os[j].1);
                                }
                                assert(covers(os, p));
                            } else {
                                assert(entry_covers(e2, p));
                                assert(entry_covers(out@[j + 1], p));
                                assert(covers(out@, p));
                                assert(in_win(rs, re, p)) by {
                                    klt_le(p, nend, re);
                                }
                            }
                        }
                        if eq_coalesce::<V>() {
                            assert(os[j].2.spec_coalesce(&value) == (if os[j].2 == value {
                                Some(os[j].2)
                            } else {
                                None::<V>
                            }));
                            assert(os[j].2 != value);
                            assert forall|p: K| p.key_lt(cursor) && covers(out@, p) implies
                                new_value_ok(os, value_at(out@, p), rs, re, value, merge, p) by {
                                reveal(new_value_ok);
                                if p.key_lt(os[j].0) {
                                    klt_trans(p, os[j].0, rs);
                                    let k = idx_at(out@, p);
                                    assert(entry_covers(out@[k], p));
                                    assert(k < j) by {
                                        if k == j || k == j + 1 {
                                            assert(false);
                                        }
                                    }
                                    assert(out@[k] == os[k]);
                                    lemma_value_at(out@, p, k);
                                    lemma_value_at(os, p, k);
                                } else if p.key_lt(rs) {
                                    assert(entry_covers(e1, p));
                                    lemma_value_at(out@, p, j);
                                    assert(entry_covers(os[j], p)) by {
                                        klt_le(p, rs, os[j].1);
                                    }
                                    lemma_value_at(os, p, j);
                                } else {
                                    assert(entry_covers(e2, p));
                                    lemma_value_at(out@, p, j + 1);
                                    assert(entry_covers(os[j], p)) by {
                                        klt_le(p, nend, os[j].1);
                                    }
                                    lemma_value_at(os, p, j);
                                    assert(in_win(rs, re, p)) by {
                                        klt_le(p, nend, re);
                                    }
                                }
                            }
                        }
                        assert forall|k: int, p: K|
                            0 <= k < i && key_le(cursor, p) && p.key_lt(re)
                                && #[trigger] entry_covers(os[k], p) implies os[k].2 == value by {
                            if k < j {
                                lemma_geo_le(os, k, j);
                                klt_le(p, os[k].1, os[j].0);
                                klt_trans(p, os[j].0, rs);
                                klt_trans(p, rs, nend);
                            } else {
                                klt_le(p, os[j].1, p);
                            }
                            assert(false);
                        }
                        assert(!cursor.key_lt(rs)) by {
                            K::lemma_order(cursor, rs, cursor);
                        }
                        assert(fused_outside(out@, rs, re)) by {
                            assert forall|k: int|
                                0 <= k && k + 1 < out@.len() && (#[trigger] out@[k]).1 == out@[k
                                    + 1].0 && (out@[k].1.key_lt(rs) || re.key_lt(
                                    out@[k].1,
                                )) implies !fusable(out@[k].2, out@[k + 1].2) by {
                                if k + 1 < j {
                                    assert(out@[k] == os[k] && out@[k + 1] == os[k + 1]);
                                } else if k + 1 == j {
                                    assert(out@[k] == os[k] && out@[k + 1] == e1);
                                } else if k == j {
                                    K::lemma_order(rs, re, rs);
                                    K::lemma_order(rs, rs, rs);
                                    assert(false);
                                } else {
                                    klt_le(rs, nend, rs);
                                    K::lemma_order(rs, rs, rs);
                                    K::lemma_order(rs, re, rs);
                                    assert(false);
                                }
                            }
                        }
                        assert forall|k: int|
                            0 <= k < i && re.key_lt((#[trigger] os[k]).1) implies (fusable(
                            os[k].2,
                            value,
                        ) || (tail is Some && k == i - 1)) by {
                            if k < j {
                                klt_trans(os[k].1, rs, re);
                                K::lemma_order(re, os[k].1, re);
                                assert(false);
                            }
                        }
                        assert forall|k: int| 0 <= k < i implies (#[trigger] os[k]).0.key_lt(
                            re,
                        ) by {
                            if k < j {
                                klt_trans(os[k].0, os[k].1, rs);
                            }
                            klt_trans(os[k].0, rs, re);
                        }
                        assert(scan_state(os, out@, rs, re, value, merge, cursor));
                    }
                } else {
                    // touches the window start and does not fuse: keep as is
                    let t = &self.items[i];
                    out.push((t.0, t.1, t.2.dup()));
                    i += 1;
                    proof {
                        reveal(scan_state);
                        reveal(settled_state);
                        reveal(appended_state);
                        assert(out@ =~= os.take(j + 1));
                        assert(os[j].1 == rs) by {
                            K::lemma_order(rs, os[j].1, rs);
                        }
                        lemma_geo_take(os, j + 1);
                        assert forall|p: K| key_le(cursor, p) implies !covers(out@, p) by {
                            if covers(out@, p) {
                                let k = idx_at(out@, p);
                                assert(entry_covers(out@[k], p));
                                assert(out@[k] == os[k]);
                                if k < j {
                                    lemma_geo_le(os, k, j);
                                    klt_le(p, os[k].1, os[j].0);
                                    klt_trans(p, os[j].0, os[j].1);
                                }
                                assert(false);
                            }
                        }
                        assert forall|p: K| p.key_lt(cursor) implies covers(out@, p) == (covers(
                            os,
                            p,
                        ) || in_win(rs, re, p)) by {
                            assert(!in_win(rs, re, p));
                            lemma_covers_take(os, j + 1, p);
                            if covers(os, p) {
                                lemma_cover_idx_lt(os, j + 1, rs, p);
                            }
                        }
                        if eq_coalesce::<V>() {
                            assert forall|p: K| p.key_lt(cursor) && covers(out@, p) implies
                                new_value_ok(os, value_at(out@, p), rs, re, value, merge, p) by {
                                reveal(new_value_ok);
                                lemma_covers_take(os, j + 1, p);
                            }
                            assert forall|k: int, p: K|
                                0 <= k < i && key_le(cursor, p) && p.key_lt(re)
                                    && #[trigger] entry_covers(os[k], p) implies os[k].2
                                == value by {
                                if k < j {
                                    lemma_geo_le(os, k, j);
                                    klt_le(p, os[k].1, os[j].0);
                                    klt_trans(p, os[j].0, os[j].1);
                                }
                                assert(false);
                            }
                        }
                        assert(fused_outside(out@, rs, re)) by {
                            assert forall|k: int|
                                0 <= k && k + 1 < out@.len() && (#[trigger] out@[k]).1 == out@[k
                                    + 1].0 && (out@[k].1.key_lt(rs) || re.key_lt(
                                    out@[k].1,
                                )) implies !fusable(out@[k].2, out@[k + 1].2) by {
                                assert(out@[k] == os[k] && out@[k + 1] == os[k + 1]);
                            }
                        }
                        assert forall|k: int|
                            0 <= k < i && re.key_lt((#[trigger] os[k]).1) implies (fusable(
                            os[k].2,
                            value,
                        ) || (tail is Some && k == i - 1)) by {
                            if k < j {
                                klt_trans(os[k].1, rs, re);
                                K::lemma_order(re, os[k].1, re);
                            } else {
                                K::lemma_order(rs, re, rs);
                            }
                            assert(false);
                        }
                        assert forall|k: int| 0 <= k < i implies (#[trigger] os[k]).0.key_lt(
                            re,
                        ) by {
                            if k < j {
                                klt_trans(os[k].0, os[k].1, rs);
                            } else {
                                klt_trans(os[k].0, os[k].1, re);
                            }
                            if k < j {
                                klt_trans(os[k].0, rs, re);
                            }
                        }
                        assert(out@.last() == os[j]);
                        assert(key_le(out@.last().1, cursor)) by {
                            K::lemma_order(rs, rs, rs);
                        }
                        assert(scan_state(os, out@, rs, re, value, merge, cursor));
                    }
                }
            }
        } else {
            proof {
                reveal(scan_state);
                reveal(settled_state);
                reveal(appended_state);
                assert forall|k: int| j <= k < n implies key_le(rs, (#[trigger] os[k]).0) by {
                    if k > j {
                        lemma_geo_le(os, j, k);
                        kle_lt(rs, os[j].0, os[j].1);
                        klt_le(rs, os[j].1, os[k].0);
                        klt_implies_le(rs, os[k].0);
                    }
                }
                assert forall|p: K| key_le(cursor, p) implies !covers(out@, p) by {
                    if covers(out@, p) {
                        let k = idx_at(out@, p);
                        assert(entry_covers(out@[k], p));
                        assert(out@[k] == os[k]);
                        klt_trans(p, os[k].1, rs);
                        assert(false);
                    }
                }
                assert forall|p: K| p.key_lt(cursor) implies covers(out@, p) == (covers(os, p)
                    || in_win(rs, re, p)) by {
                    assert(!in_win(rs, re, p));
                    lemma_covers_take(os, j, p);
                    if covers(os, p) {
                        lemma_cover_idx_lt(os, j, rs, p);
                    }
                }
                if eq_coalesce::<V>() {
                    assert forall|p: K| p.key_lt(cursor) && covers(out@, p) implies new_value_ok(
                        os,
                        value_at(out@, p),
                        rs,
                        re,
                        value,
                        merge,
                        p,
                    ) by {
                        reveal(new_value_ok);
                        lemma_covers_take(os, j, p);
                    }
                    assert forall|k: int, p: K|
                        0 <= k < i && key_le(cursor, p) && p.key_lt(re) && #[trigger] entry_covers(
                            os[k],
                            p,
                        ) implies os[k].2 == value by {
                        klt_trans(p, os[k].1, rs);
                        assert(false);
                    }
                }
                assert(fused_outside(out@, rs, re)) by {
                    assert forall|k: int|
                        0 <= k && k + 1 < out@.len() && (#[trigger] out@[k]).1 == out@[k + 1].0 && (
                        out@[k].1.key_lt(rs) || re.key_lt(out@[k].1)) implies !fusable(
                        out@[k].2,
                        out@[k + 1].2,
                    ) by {
                        assert(out@[k] == os[k] && out@[k + 1] == os[k + 1]);
                    }
                }
                assert forall|k: int|
                    0 <= k < i && re.key_lt((#[trigger] os[k]).1) implies (fusable(os[k].2, value)
                    || (tail is Some && k == i - 1)) by {
                    klt_trans(os[k].1, rs, re);
                    K::lemma_order(re, os[k].1, re);
                    assert(false);
                }
                assert forall|k: int| 0 <= k < i implies (#[trigger] os[k]).0.key_lt(re) by {
                    klt_trans(os[k].0, os[k].1, rs);
                    klt_trans(os[k].0, rs, re);
                }
                lemma_geo_take(os, j);
                assert(out@.len() > 0 ==> key_le(out@.last().1, cursor)) by {
                    if out@.len() > 0 {
                        assert(out@.last() == os[j - 1]);
                        klt_implies_le(os[j - 1].1, rs);
                    }
                }
                assert(!cursor.key_lt(rs)) by {
                    K::lemma_order(rs, rs, rs);
                }
                assert(key_le(cursor, re)) by {
                    klt_implies_le(rs, re);
                }
                assert(scan_state(os, out@, rs, re, value, merge, cursor));
            }
        }
        // the window interior: entries that begin inside the window
        while i < n && self.items[i].0.lt(re)
            invariant
                self@ == os,
                n == os.len(),
                n == self.items@.len(),
                geo(os),
                fused(os),
                rs.key_lt(re),
                forall|a: V, b: V| #[trigger] call_requires(merge, (&a, &b)),
                0 <= i <= n,
                scan_state(os, out@, rs, re, value, merge, cursor),
                forall|k: int| i <= k < n ==> key_le(cursor, (#[trigger] os[k]).0),
                forall|k: int| i <= k < n ==> key_le(rs, (#[trigger] os[k]).0),
                forall|d: V| (#[trigger] fusable(d, acc)) == fusable(d, value),
                eq_coalesce::<V>() ==> acc == value,
                eq_coalesce::<V>() ==> forall|k: int, p: K|
                    0 <= k < i && key_le(cursor, p) && p.key_lt(re) && #[trigger] entry_covers(
                        os[k],
                        p,
                    ) ==> os[k].2 == value,
                cursor.key_lt(rs) ==> (ldrop matches Some(jl) && 0 <= jl < n && os[jl].0 == cursor
                    && key_le(rs, os[jl].1) && fusable(os[jl].2, value) && out@ == os.take(jl)
                    && jl < i),
                tail matches Some(tt) ==> (tt.0 == re && re.key_lt(tt.1) && cursor == re && 0 < i
                    && os[i - 1].1 == tt.1 && os[i - 1].2 == tt.2 && os[i - 1].0.key_lt(re)
                    && !fusable(os[i - 1].2, value)),
                forall|k: int|
                    0 <= k < i && re.key_lt((#[trigger] os[k]).1) ==> (fusable(os[k].2, value) || (
                    tail is Some && k == i - 1)),
                forall|k: int| 0 <= k < i ==> (#[trigger] os[k]).0.key_lt(re),
            decreases n - i,
        {
            proof {
                reveal(scan_state);
                reveal(settled_state);
                reveal(appended_state);
                assert(!(tail is Some)) by {
                    if tail is Some {
                        klt_le(re, os[i - 1].1, os[i as int].0);
                        klt_trans(os[i as int].0, re, os[i as int].0);
                        K::lemma_order(os[i as int].0, os[i as int].0, os[i as int].0);
                    }
                }
            }
            let absorbed = self.items[i].2.coalesce(&acc);
            match absorbed {
                Some(v2) => {
                    proof {
                        reveal(scan_state);
                        reveal(settled_state);
                        reveal(appended_state);
                        assert(os[i as int].2.spec_coalesce(&acc) == Some(v2));
                        assert(fusable(os[i as int].2, acc));
                        assert(fusable(os[i as int].2, value));
                        assert forall|d: V| (#[trigger] fusable(d, v2)) == fusable(d, value) by {
                            V::lemma_coalesce_class(os[i as int].2, acc, v2, d);
                            assert(fusable(d, os[i as int].2) == fusable(d, v2));
                            assert(fusable(d, os[i as int].2) == fusable(d, acc));
                            assert(fusable(d, acc) == fusable(d, value));
                        }
                        if eq_coalesce::<V>() {
                            assert(os[i as int].2.spec_coalesce(&acc) == (if os[i as int].2
                                == acc {
                                Some(os[i as int].2)
                            } else {
                                None::<V>
                            }));
                            assert(v2 == value && os[i as int].2 == value);
                        }
                        assert forall|k: int| i + 1 <= k < n implies key_le(
                            cursor,
                            (#[trigger] os[k]).0,
                        ) && key_le(rs, os[k].0) by {
                            if k > i {
                                lemma_geo_le(os, i as int, k);
                                klt_le(os[i as int].0, os[i as int].1, os[k].0);
                                klt_implies_le(os[i as int].0, os[k].0);
                                kle_trans(cursor, os[i as int].0, os[k].0);
                                kle_trans(rs, os[i as int].0, os[k].0);
                            }
                        }
                    }
                    acc = v2;
                    i += 1;
                }
                None => {
                    let t0 = self.items[i].0;
                    proof {
                        reveal(scan_state);
                        reveal(settled_state);
                        reveal(appended_state);
                        assert(!fusable(os[i as int].2, acc));
                        assert(!fusable(os[i as int].2, value));
                        assert forall|k: int| i as int <= k < n implies key_le(
                            t0,
                            (#[trigger] os[k]).0,
                        ) by {
                            if k > i as int {
                                lemma_geo_le(os, i as int, k);
                                klt_le(t0, os[i as int].1, os[k].0);
                                klt_implies_le(t0, os[k].0);
                            } else {
                                K::lemma_order(t0, t0, t0);
                            }
                        }
                    }
                    if cursor.lt(t0) {
                        let ghost pre = out@;
                        let ghost c0 = cursor;
                        proof {
                            reveal(scan_state);
                            reveal(settled_state);
                            reveal(appended_state);
                            assert(key_le(t0, re)) by {
                                klt_implies_le(t0, re);
                            }
                            assert forall|p: K| key_le(c0, p) && p.key_lt(t0) implies (covers(
                                os,
                                p,
                            ) || in_win(rs, re, p)) by {
                                klt_trans(p, t0, re);
                                if !key_le(rs, p) {
                                    assert(cursor.key_lt(rs)) by {
                                        kle_lt(c0, p, rs);
                                    }
                                    let jl = ldrop->Some_0;
                                    assert(entry_covers(os[jl], p)) by {
                                        klt_le(p, rs, os[jl].1);
                                    }
                                    assert(covers(os, p));
                                }
                            }
                            if eq_coalesce::<V>() {
                                assert forall|p: K| key_le(c0, p) && p.key_lt(t0) implies
                                    new_value_ok(os, acc, rs, re, value, merge, p) by {
                                    reveal(new_value_ok);
                                    klt_trans(p, t0, re);
                                    if key_le(rs, p) {
                                        assert(in_win(rs, re, p));
                                        if covers(os, p) {
                                            lemma_cover_idx_lt(os, i as int, t0, p);
                                            let k0 = idx_at(os, p);
                                            assert(entry_covers(os[k0], p));
                                            assert(os[k0].2 == value);
                                            lemma_value_at(os, p, k0);
                                        }
                                    } else {
                                        assert(cursor.key_lt(rs)) by {
                                            kle_lt(c0, p, rs);
                                        }
                                        let jl = ldrop->Some_0;
                                        assert(entry_covers(os[jl], p)) by {
                                            klt_le(p, rs, os[jl].1);
                                        }
                                        lemma_value_at(os, p, jl);
                                        assert(os[jl].2.spec_coalesce(&value) == (if os[jl].2
                                            == value {
                                            Some(os[jl].2)
                                        } else {
                                            None::<V>
                                        }));
                                        assert(os[jl].2 == value);
                                    }
                                }
                            }
                            if pre.len() > 0 && pre.last().1 == c0 && (c0.key_lt(rs) || re.key_lt(
                                c0,
                            )) {
                                assert(c0.key_lt(rs));
                                let jl = ldrop->Some_0;
                                assert(pre == os.take(jl));
                                assert(pre.last() == os[jl - 1]);
                                assert(os[jl - 1].1 == os[jl].0);
                                assert(!fusable(os[jl - 1].2, os[jl].2));
                                match os[jl].2.spec_coalesce(&value) {
                                    Some(cw) => {
                                        V::lemma_coalesce_class(os[jl].2, value, cw, os[jl - 1].2);
                                    },
                                    None => {
                                        assert(false);
                                    },
                                }
                                assert(!fusable(os[jl - 1].2, acc));
                            }
                        }
                        let ghost wv: V = acc;
                        let emitted = acc;
                        out.push((cursor, t0, emitted));
                        acc = value.dup();
                        cursor = t0;
                        proof {
                            reveal(scan_state);
                            reveal(settled_state);
                            reveal(appended_state);
                            lemma_insert_push_step(os, pre, out@, rs, re, value, merge, c0, t0, wv);
                            assert(key_le(cursor, re)) by {
                                klt_implies_le(t0, re);
                            }
                            assert(!cursor.key_lt(rs)) by {
                                K::lemma_order(t0, t0, t0);
                            }
                            assert(key_le(out@.last().1, cursor)) by {
                                K::lemma_order(t0, t0, t0);
                            }
                            if eq_coalesce::<V>() {
                                assert forall|k: int, p: K|
                                    0 <= k < i && key_le(cursor, p) && p.key_lt(re)
                                        && #[trigger] entry_covers(os[k], p) implies os[k].2
                                    == value by {
                                    lemma_geo_le(os, k, i as int);
                                    klt_le(p, os[k].1, os[i as int].0);
                                    kle_lt(t0, p, t0);
                                    assert(false);
                                }
                            }
                            assert(scan_state(os, out@, rs, re, value, merge, cursor));
                        }
                    }
                    proof {
                        reveal(scan_state);
                        reveal(settled_state);
                        reveal(appended_state);
                        assert(cursor == t0) by {
                            K::lemma_order(cursor, t0, cursor);
                        }
                    }
                    let ghost pre2 = out@;
                    let t = &self.items[i];
                    let x = if re.lt(t.1) {
                        re
                    } else {
                        t.1
                    };
                    proof {
                        reveal(scan_state);
                        reveal(settled_state);
                        reveal(appended_state);
                        assert(t0.key_lt(x) && key_le(x, re) && key_le(x, os[i as int].1)) by {
                            if re.key_lt(os[i as int].1) {
                                K::lemma_order(re, re, re);
                                klt_implies_le(re, os[i as int].1);
                            } else {
                                K::lemma_order(os[i as int].1, os[i as int].1, os[i as int].1);
                            }
                        }
                        assert forall|p: K| key_le(t0, p) && p.key_lt(x) implies (covers(os, p)
                            || in_win(rs, re, p)) by {
                            assert(entry_covers(os[i as int], p)) by {
                                klt_le(p, x, os[i as int].1);
                            }
                            assert(covers(os, p));
                        }
                        if eq_coalesce::<V>() {
                            assert(os[i as int].2.spec_coalesce(&value) == (if os[i as int].2
                                == value {
                                Some(os[i as int].2)
                            } else {
                                None::<V>
                            }));
                            assert(os[i as int].2 != value);
                        }
                    }
                    let m = merge(&t.2, &acc);
                    let ghost mv: V = m;
                    out.push((t0, x, m));
                    proof {
                        reveal(scan_state);
                        reveal(settled_state);
                        reveal(appended_state);
                        assert(scan_state(os, pre2, rs, re, value, merge, t0));
                        if eq_coalesce::<V>() {
                            assert(call_ensures(merge, (&os[i as int].2, &value), mv));
                            assert forall|p: K| key_le(t0, p) && p.key_lt(x) implies new_value_ok(
                                os,
                                mv,
                                rs,
                                re,
                                value,
                                merge,
                                p,
                            ) by {
                                reveal(new_value_ok);
                                assert(entry_covers(os[i as int], p)) by {
                                    klt_le(p, x, os[i as int].1);
                                }
                                lemma_value_at(os, p, i as int);
                                assert(in_win(rs, re, p)) by {
                                    kle_trans(rs, os[i as int].0, p);
                                    klt_le(p, x, re);
                                }
                            }
                        }
                        assert(!(t0.key_lt(rs) || re.key_lt(t0))) by {
                            K::lemma_order(re, t0, re);
                        }
                        lemma_insert_push_step(os, pre2, out@, rs, re, value, merge, t0, x, mv);
                    }
                    if re.lt(t.1) {
                        tail = Some((re, t.1, t.2.dup()));
                    }
                    cursor = x;
                    i += 1;
                    proof {
                        reveal(scan_state);
                        reveal(settled_state);
                        reveal(appended_state);
                        assert(key_le(out@.last().1, cursor)) by {
                            K::lemma_order(x, x, x);
                        }
                        assert forall|k: int| i as int <= k < n implies key_le(
                            cursor,
                            (#[trigger] os[k]).0,
                        ) && key_le(rs, os[k].0) by {
                            if k > i - 1 {
                                lemma_geo_le(os, i - 1, k);
                                kle_trans(x, os[i - 1].1, os[k].0);
                                klt_le(os[i - 1].0, os[i - 1].1, os[k].0);
                                klt_implies_le(os[i - 1].0, os[k].0);
                                kle_trans(rs, os[i - 1].0, os[k].0);
                            }
                        }
                        if eq_coalesce::<V>() {
                            assert forall|k: int, p: K|
                                0 <= k < i && key_le(cursor, p) && p.key_lt(re)
                                    && #[trigger] entry_covers(os[k], p) implies os[k].2
                                == value by {
                                if k < i - 1 {
                                    lemma_geo_le(os, k, i - 1);
                                    klt_le(p, os[k].1, os[i - 1].0);
                                    klt_trans(p, os[i - 1].0, x);
                                    kle_lt(x, p, x);
                                } else {
                                    klt_le(p, os[k].1, p);
                                }
                                assert(false);
                            }
                        }
                        assert(!cursor.key_lt(rs)) by {
                            if x == re {
                                K::lemma_order(rs, re, rs);
                            } else {
                                kle_lt(rs, os[i - 1].0, os[i - 1].1);
                                K::lemma_order(rs, os[i - 1].1, rs);
                            }
                        }
                        assert forall|k: int|
                            0 <= k < i && re.key_lt((#[trigger] os[k]).1) implies (fusable(
                            os[k].2,
                            value,
                        ) || (tail is Some && k == i - 1)) by {
                            if k == i - 1 && re.key_lt(os[k].1) {
                                assert(tail is Some);
                            }
                        }
                        assert(scan_state(os, out@, rs, re, value, merge, cursor));
                    }
                }
            }
        }
        proof {
            reveal(scan_state);
            reveal(settled_state);
            reveal(appended_state);
            assert forall|k: int| i as int <= k < n implies key_le(re, (#[trigger] os[k]).0) by {
                if k > i as int {
                    lemma_geo_le(os, i as int, k);
                    kle_lt(re, os[i as int].0, os[i as int].1);
                    klt_le(re, os[i as int].1, os[k].0);
                    klt_implies_le(re, os[k].0);
                }
            }
        }
        if cursor.lt(re) {
            let ghost pre3 = out@;
            let ghost c0 = cursor;
            proof {
                reveal(scan_state);
                reveal(settled_state);
                reveal(appended_state);
                assert(key_le(re, re)) by {
                    K::lemma_order(re, re, re);
                }
                assert forall|p: K| key_le(c0, p) && p.key_lt(re) implies (covers(os, p) || in_win(
                    rs,
                    re,
                    p,
                )) by {
                    if !key_le(rs, p) {
                        assert(cursor.key_lt(rs)) by {
                            kle_lt(c0, p, rs);
                        }
                        let jl = ldrop->Some_0;
                        assert(entry_covers(os[jl], p)) by {
                            klt_le(p, rs, os[jl].1);
                        }
                        assert(covers(os, p));
                    }
                }
                if eq_coalesce::<V>() {
                    assert forall|p: K| key_le(c0, p) && p.key_lt(re) implies new_value_ok(
                        os,
                        acc,
                        rs,
                        re,
                        value,
                        merge,
                        p,
                    ) by {
                        reveal(new_value_ok);
                        if key_le(rs, p) {
                            if covers(os, p) {
                                lemma_cover_idx_lt(os, i as int, re, p);
                                let k0 = idx_at(os, p);
                                assert(entry_covers(os[k0], p));
                                assert(os[k0].2 == value);
                                lemma_value_at(os, p, k0);
                            }
                        } else {
                            assert(cursor.key_lt(rs)) by {
                                kle_lt(c0, p, rs);
                            }
                            let jl = ldrop->Some_0;
                            assert(entry_covers(os[jl], p)) by {
                                klt_le(p, rs, os[jl].1);
                            }
                            lemma_value_at(os, p, jl);
                            assert(os[jl].2.spec_coalesce(&value) == (if os[jl].2 == value {
                                Some(os[jl].2)
                            } else {
                                None::<V>
                            }));
                        }
                    }
                }
                if pre3.len() > 0 && pre3.last().1 == c0 && (c0.key_lt(rs) || re.key_lt(c0)) {
                    assert(c0.key_lt(rs));
                    let jl = ldrop->Some_0;
                    assert(pre3 == os.take(jl));
                    assert(pre3.last() == os[jl - 1]);
                    assert(os[jl - 1].1 == os[jl].0);
                    assert(!fusable(os[jl - 1].2, os[jl].2));
                    match os[jl].2.spec_coalesce(&value) {
                        Some(cw) => {
                            V::lemma_coalesce_class(os[jl].2, value, cw, os[jl - 1].2);
                        },
                        None => {
                            assert(false);
                        },
                    }
                    assert(!fusable(os[jl - 1].2, acc));
                }
            }
            let ghost wv: V = acc;
            let emitted = acc;
            out.push((cursor, re, emitted));
            cursor = re;
            proof {
                reveal(scan_state);
                reveal(settled_state);
                reveal(appended_state);
                lemma_insert_push_step(os, pre3, out@, rs, re, value, merge, c0, re, wv);
                assert(key_le(out@.last().1, re)) by {
                    K::lemma_order(re, re, re);
                }
                assert(scan_state(os, out@, rs, re, value, merge, re));
                assert(out@.len() > 0);
            }
        } else {
            proof {
                reveal(scan_state);
                reveal(settled_state);
                reveal(appended_state);
                assert(cursor == re) by {
                    K::lemma_order(cursor, re, cursor);
                }
                assert(scan_state(os, out@, rs, re, value, merge, re));
                assert(out@.len() > 0) by {
                    assert(in_win(rs, re, rs)) by {
                        K::lemma_order(rs, rs, rs);
                    }
                    assert(covers(out@, rs));
                }
            }
        }
        let ghost tg = tail;
        let ghost im = i as int;
        match tail {
            Some(tt) => {
                let ghost pre4 = out@;
                out.push(tt);
                proof {
                    reveal(scan_state);
                    reveal(settled_state);
                    reveal(appended_state);
                    assert(scan_state(os, pre4, rs, re, value, merge, re));
                    let nw = (tt.0, tt.1, tt.2);
                    assert(out@ == pre4.push(nw));
                    assert(forall|k: int| 0 <= k < pre4.len() ==> (#[trigger] out@[k]) == pre4[k]);
                    assert(geo(out@));
                    assert forall|p: K| p.key_lt(re) implies covers(out@, p) == (covers(os, p)
                        || in_win(rs, re, p)) by {
                        lemma_covers_push(pre4, nw, p);
                        assert(!entry_covers(nw, p));
                    }
                    assert forall|p: K| key_le(re, p) implies covers(out@, p) == (tg matches Some(
                        t2,
                    ) && entry_covers(t2, p)) by {
                        lemma_covers_push(pre4, nw, p);
                    }
                    if eq_coalesce::<V>() {
                        assert forall|p: K| covers(out@, p) implies new_value_ok(
                            os,
                            value_at(out@, p),
                            rs,
                            re,
                            value,
                            merge,
                            p,
                        ) by {
                            reveal(new_value_ok);
                            lemma_covers_push(pre4, nw, p);
                            lemma_value_at_push(pre4, nw, p);
                            if entry_covers(nw, p) {
                                assert(value_at(out@, p) == tt.2);
                                assert(entry_covers(os[im - 1], p)) by {
                                    klt_le(os[im - 1].0, re, p);
                                    klt_implies_le(os[im - 1].0, p);
                                }
                                lemma_value_at(os, p, im - 1);
                                assert(!p.key_lt(re));
                            } else {
                                assert(covers(pre4, p));
                                assert(p.key_lt(re));
                            }
                        }
                    }
                    assert(fused_outside(out@, rs, re)) by {
                        assert forall|k: int|
                            0 <= k && k + 1 < out@.len() && (#[trigger] out@[k]).1 == out@[k + 1].0
                                && (out@[k].1.key_lt(rs) || re.key_lt(out@[k].1)) implies !fusable(
                            out@[k].2,
                            out@[k + 1].2,
                        ) by {
                            if k + 1 < out@.len() - 1 {
                                assert(out@[k] == pre4[k] && out@[k + 1] == pre4[k + 1]);
                            } else {
                                assert(out@[k + 1] == nw);
                                assert(out@[k].1 == re);
                                K::lemma_order(rs, re, rs);
                                K::lemma_order(rs, rs, rs);
                                K::lemma_order(re, re, re);
                                assert(false);
                            }
                        }
                    }
                    assert(settled_state(os, out@, rs, re, value, merge, tg));
                }
            },
            None => {
                proof {
                    reveal(scan_state);
                    reveal(settled_state);
                    reveal(appended_state);
                    assert(scan_state(os, out@, rs, re, value, merge, re));
                    assert forall|p: K| key_le(re, p) implies covers(out@, p) == (tg matches Some(
                        t2,
                    ) && entry_covers(t2, p)) by {}
                    if eq_coalesce::<V>() {
                        assert forall|p: K| covers(out@, p) implies new_value_ok(
                            os,
                            value_at(out@, p),
                            rs,
                            re,
                            value,
                            merge,
                            p,
                        ) by {
                            if key_le(re, p) {
                                assert(!covers(out@, p));
                            }
                            assert(p.key_lt(re));
                        }
                    }
                    assert(settled_state(os, out@, rs, re, value, merge, tg));
                }
            },
        }
        proof {
            reveal(scan_state);
            reveal(settled_state);
            reveal(appended_state);
            assert(settled_state(os, out@, rs, re, value, merge, tg));
            // everything below the first untouched entry is now settled
            assert forall|p: K|
                (i < n ==> p.key_lt(os[i as int].0)) implies (covers(out@, p) == post_covers(
                os,
                rs,
                re,
                value,
                p,
            )) by {
                lemma_insert_settled(os, out@, rs, re, value, tg, im, p);
            }
            assert forall|p: K| key_le(out@.last().1, p) implies !covers(out@, p) by {
                lemma_no_cover_past_last(out@, p);
            }
            assert(appended_state(os, out@, rs, re, value, merge, i as int));
            assert(i < n ==> key_le(out@.last().1, os[i as int].0)) by {
                if i < n {
                    if tg is Some {
                        assert(out@.last().1 == os[im - 1].1);
                    } else {
                        kle_trans(out@.last().1, re, os[i as int].0);
                    }
                }
            }
            assert(re.key_lt(out@.last().1) ==> (0 < i && out@.last().1 == os[i - 1].1
                && out@.last().2 == os[i - 1].2)) by {
                if re.key_lt(out@.last().1) && tg is None {
                    kle_lt(out@.last().1, re, out@.last().1);
                    K::lemma_order(out@.last().1, out@.last().1, out@.last().1);
                }
            }
        }
        while i < n
            invariant
                self@ == os,
                n == os.len(),
                n == self.items@.len(),
                geo(os),
                fused(os),
                rs.key_lt(re),
                forall|a: V, b: V| #[trigger] call_requires(merge, (&a, &b)),
                0 <= i <= n,
                appended_state(os, out@, rs, re, value, merge, i as int),
                i < n ==> key_le(out@.last().1, os[i as int].0),
                forall|k: int| i <= k < n ==> key_le(re, (#[trigger] os[k]).0),
                re.key_lt(out@.last().1) ==> (0 < i && out@.last().1 == os[i - 1].1
                    && out@.last().2 == os[i - 1].2),
            decreases n - i,
        {
            let t = &self.items[i];
            let ghost pre5 = out@;
            out.push((t.0, t.1, t.2.dup()));
            proof {
                reveal(scan_state);
                reveal(settled_state);
                reveal(appended_state);
                lemma_insert_append_step(os, pre5, out@, rs, re, value, merge, i as int);
                assert(appended_state(os, out@, rs, re, value, merge, i as int + 1));
                assert(i + 1 < n ==> key_le(out@.last().1, os[i as int + 1].0));
            }
            i += 1;
        }
        self.items = out;
        let ghost mid = self@;
        proof {
            reveal(scan_state);
            reveal(settled_state);
            reveal(appended_state);
            assert(appended_state(os, mid, rs, re, value, merge, n as int));
            assert(geo(mid));
        }
        self.coalesce_in_range(rs, re);
        proof {
            reveal(scan_state);
            reveal(settled_state);
            reveal(appended_state);
            assert(appended_state(os, mid, rs, re, value, merge, n as int));
            assert(self.inv());
            assert forall|p: K| covers(self@, p) == post_covers(os, rs, re, value, p) by {
                assert(covers(self@, p) == covers(mid, p));
            }
            if eq_coalesce::<V>() {
                assert forall|p: K| covers(self@, p) implies new_value_ok(
                    os,
                    value_at(self@, p),
                    rs,
                    re,
                    value,
                    merge,
                    p,
                ) by {
                    assert(covers(mid, p));
                    assert(value_at(self@, p) == value_at(mid, p));
                }
            }
        }
    }

    /// All stored entries whose range has a non-empty intersection with the
    /// half-open query window, in ascending start order. An empty or
    /// inverted window yields nothing.
    pub fn range(&self, range: core::ops::Range<K>) -> (r: Vec<(K, K, V)>)
        ensures
            !range.start.key_lt(range.end) ==> r@ =~= Seq::<(K, K, V)>::empty(),
            range.start.key_lt(range.end) ==> r@ == self@.filter(
                range_pred(range.start, range.end),
            ),
    {
        let qs = range.start;
        let qe = range.end;
        let mut r: Vec<(K, K, V)> = Vec::new();
        if !qs.lt(qe) {
            return r;
        }
        let mut i: usize = 0;
        proof {
            reveal(Seq::filter);
            assert(self@.take(0) =~= Seq::<(K, K, V)>::empty());
            assert(r@ == self@.take(0).filter(range_pred(qs, qe)));
        }
        while i < self.items.len()
            invariant
                qs.key_lt(qe),
                0 <= i <= self.items.len(),
                r@ == self@.take(i as int).filter(range_pred(qs, qe)),
            decreases self.items.len() - i,
        {
            let t = &self.items[i];
            let keep = t.0.lt(qe) && qs.lt(t.1);
            proof {
                reveal(Seq::filter);
                assert(self@.take(i as int + 1).drop_last() =~= self@.take(i as int));
                assert(self@.take(i as int + 1).last() == self@[i as int]);
            }
            if keep {
                r.push((t.0, t.1, t.2.dup()));
                proof {
                    assert((range_pred(qs, qe))(self@[i as int]));
                    assert(r@ == self@.take(i as int + 1).filter(range_pred(qs, qe)));
                }
            } else {
                proof {
                    assert(!(range_pred(qs, qe))(self@[i as int]));
                    assert(r@ == self@.take(i as int + 1).filter(range_pred(qs, qe)));
                }
            }
            i += 1;
        }
        proof {
            assert(self@.take(self.items.len() as int) =~= self@);
        }
        r
    }

    /// The value stored at the point `p`, if any entry covers it.
    pub fn value_of(&self, p: K) -> (r: Option<V>)
        requires
            geo(self@),
        ensures
            covers(self@, p) ==> (r matches Some(v) && v == value_at(self@, p)),
            !covers(self@, p) ==> r is None,
    {
        let n = self.items.len();
        let mut i: usize = 0;
        while i < n
            invariant
                0 <= i <= n,
                n == self@.len(),
                geo(self@),
                forall|k: int| 0 <= k < i ==> !entry_covers(#[trigger] self@[k], p),
            decreases n - i,
        {
            let t = &self.items[i];
            if !p.lt(t.0) && p.lt(t.1) {
                proof {
                    lemma_value_at(self@, p, i as int);
                }
                return Some(t.2.dup());
            }
            i += 1;
        }
        proof {
            if covers(self@, p) {
                let k = idx_at(self@, p);
                assert(entry_covers(self@[k], p));
            }
        }
        None
    }

    /// Insert that keeps the inserted value on every overlap: the window
    /// `[range.start, range.end)` afterwards carries `value` throughout,
    /// while values outside it are unchanged. As with `insert_with`, the
    /// value clause is stated under `eq_coalesce`; the invariant and the
    /// coverage shape hold for every value type.
    pub fn insert_replace(&mut self, range: core::ops::Range<K>, value: V)
        requires
            old(self).inv(),
        ensures
            final(self).inv(),
            !range.start.key_lt(range.end) ==> final(self)@ == old(self)@,
            range.start.key_lt(range.end) ==> forall|p: K|
                #[trigger] covers(final(self)@, p) == post_covers(
                    old(self)@,
                    range.start,
                    range.end,
                    value,
                    p,
                ),
            range.start.key_lt(range.end) && eq_coalesce::<V>() ==> forall|p: K|
                #[trigger] covers(final(self)@, p) ==> replaced_value_ok(
                    old(self)@,
                    value_at(final(self)@, p),
                    range.start,
                    range.end,
                    value,
                    p,
                ),
    {
        let keep_new = |a: &V, b: &V| -> (r: V)
            ensures
                r == *b,
            {
                b.dup()
            };
        proof {
            assert forall|a: V, b: V| #[trigger] call_requires(keep_new, (&a, &b)) by {}
        }
        let ghost rs = range.start;
        let ghost re = range.end;
        self.insert_with(range, value, keep_new);
        proof {
            if rs.key_lt(re) && eq_coalesce::<V>() {
                assert forall|p: K| covers(self@, p) implies replaced_value_ok(
                    old(self)@,
                    value_at(self@, p),
                    rs,
                    re,
                    value,
                    p,
                ) by {
                    reveal(new_value_ok);
                    assert(new_value_ok(old(self)@, value_at(self@, p), rs, re, value, keep_new, p));
                }
            }
        }
    }

    /// Fuse every pair of touching neighbours inside the closed window
    /// `[start, end]` whose values coalesce, repeatedly, left to right.
    /// Afterwards no junction inside the window is fusable, coverage is
    /// unchanged, every covered point's value fuses with the same partners
    /// as before, entries wholly outside the window are still stored
    /// unchanged, and a map already fused outside the window is fused
    /// throughout.
    #[verifier::rlimit(50)]
    #[verifier::spinoff_prover]
    pub fn coalesce_in_range(&mut self, start: K, end: K)
        requires
            geo(old(self)@),
        ensures
            geo(final(self)@),
            forall|p: K| covers(final(self)@, p) == covers(old(self)@, p),
            eq_coalesce::<V>() ==> forall|p: K|
                covers(final(self)@, p) ==> value_at(final(self)@, p) == value_at(old(self)@, p),
            fused_outside(old(self)@, start, end) ==> fused(final(self)@),
            fused_inside(final(self)@, start, end),
            forall|k: int|
                0 <= k < old(self)@.len() && ((#[trigger] old(self)@[k]).1.key_lt(start)
                    || end.key_lt(old(self)@[k].0)) ==> exists|j: int|
                    0 <= j < final(self)@.len() && final(self)@[j] == old(self)@[k],
            forall|p: K, d: V|
                covers(final(self)@, p) ==> #[trigger] fusable(d, value_at(final(self)@, p))
                    == fusable(d, value_at(old(self)@, p)),
    {
        broadcast use key_order_basics, key_order_trans;

        let ghost os = self@;
        let n = self.items.len();
        let mut out: Vec<(K, K, V)> = Vec::new();
        proof {
            assert forall|p: K, d: V| covers(out@, p) implies #[trigger] fusable(
                d,
                value_at(out@, p),
            ) == fusable(d, value_at(os.take(0), p)) by {
                let k = idx_at(out@, p);
                assert(entry_covers(out@[k], p));
                assert(false);
            }
        }
        let mut i: usize = 0;
        while i < n
            invariant
                n == os.len(),
                self@ == os,
                n == self.items.len(),
                geo(os),
                0 <= i <= n,
                geo(out@),
                out@.len() > 0 && i < n ==> key_le(out@.last().1, os[i as int].0),
                out@.len() > 0 ==> i > 0 && out@.last().1 == os[i - 1].1,
                out@.len() == 0 ==> i == 0,
                // the last run's value fuses with the same partners as the
                // last original entry folded into it
                out@.len() > 0 ==> forall|d: V|
                    fusable(d, out@.last().2) == fusable(d, os[i - 1].2),
                // coverage so far is exactly that of the processed prefix
                forall|p: K| covers(out@, p) == covers(os.take(i as int), p),
                eq_coalesce::<V>() ==> forall|p: K|
                    covers(out@, p) ==> value_at(out@, p) == value_at(os.take(i as int), p),
                fused_outside(os, start, end) ==> fused(out@),
                fused_inside(out@, start, end),
                forall|k: int|
                    0 <= k < i && ((#[trigger] os[k]).1.key_lt(start) || end.key_lt(os[k].0))
                        ==> exists|j: int| 0 <= j < out@.len() && out@[j] == os[k],
                forall|p: K, d: V|
                    covers(out@, p) ==> #[trigger] fusable(d, value_at(out@, p)) == fusable(
                        d,
                        value_at(os.take(i as int), p),
                    ),
            decreases n - i,
        {
            let t = &self.items[i];
            let ghost pre = out@;
            let mut fused_now = false;
            if out.len() > 0 {
                let li = out.len() - 1;
                let junction_touches = key_eq(out[li].1, t.0);
                if junction_touches && !t.0.lt(start) && !end.lt(t.0) {
                    if let Some(v2) = t.2.coalesce(&out[li].2) {
                        let prev = out.pop().unwrap();
                        out.push((prev.0, t.1, v2));
                        fused_now = true;
                        proof {
                            let q = out@;
                            assert(q =~= pre.drop_last().push((pre.last().0, os[i as int].1, v2)));
                            lemma_coalesce_pass_fuse_step(
                                os,
                                pre,
                                q,
                                i as int,
                                v2,
                                start,
                                end,
                            );
                        }
                    }
                }
            }
            if !fused_now {
                out.push((t.0, t.1, t.2.dup()));
                proof {
                    lemma_coalesce_pass_copy_step(os, pre, out@, i as int, start, end);
                }
            }
            i += 1;
        }
        proof {
            assert(os.take(n as int) =~= os);
        }
        self.items = out;
    }
}

/// Under `geo`, no point at or past the last entry's end is covered.
pub proof fn lemma_no_cover_past_last<K: RangeKey, V>(q: Seq<(K, K, V)>, p: K)
    requires
        geo(q),
        q.len() > 0,
        key_le(q.last().1, p),
    ensures
        !covers(q, p),
{
    if covers(q, p) {
        let k = idx_at(q, p);
        assert(entry_covers(q[k], p));
        if k < q.len() - 1 {
            lemma_geo_le(q, k, q.len() - 1);
            klt_le(p, q[k].1, q.last().0);
            klt_trans(p, q.last().0, q.last().1);
        }
        klt_le(p, q.last().1, p);
        K::lemma_order(p, p, p);
        assert(false);
    }
}

/// Covering entries restrict to prefixes: a point covered by a prefix is
/// covered by the whole sequence with the same value, and conversely when its
/// covering entry lies inside the prefix.
pub proof fn lemma_covers_take<K: RangeKey, V>(os: Seq<(K, K, V)>, i: int, p: K)
    requires
        geo(os),
        0 <= i <= os.len(),
    ensures
        covers(os.take(i), p) ==> covers(os, p) && value_at(os.take(i), p) == value_at(os, p)
            && idx_at(os, p) < i,
        (covers(os, p) && idx_at(os, p) < i) ==> covers(os.take(i), p),
{
    lemma_geo_take(os, i);
    let t = os.take(i);
    if covers(t, p) {
        let k = idx_at(t, p);
        assert(entry_covers(t[k], p));
        assert(t[k] == os[k]);
        lemma_value_at(os, p, k);
        lemma_value_at(t, p, k);
    }
    if covers(os, p) && idx_at(os, p) < i {
        let k = idx_at(os, p);
        assert(entry_covers(os[k], p));
        assert(t[k] == os[k]);
        lemma_value_at(t, p, k);
    }
}

/// A covered point lying before every entry from index `i` on is covered by
/// an earlier entry.
pub proof fn lemma_cover_idx_lt<K: RangeKey, V>(os: Seq<(K, K, V)>, i: int, x: K, p: K)
    requires
        geo(os),
        covers(os, p),
        0 <= i <= os.len(),
        p.key_lt(x),
        forall|k: int| i <= k < os.len() ==> key_le(x, (#[trigger] os[k]).0),
    ensures
        0 <= idx_at(os, p) < i,
        entry_covers(os[idx_at(os, p)], p),
{
    let k = idx_at(os, p);
    assert(entry_covers(os[k], p));
    if k >= i {
        K::lemma_order(os[k].0, x, x);
        K::lemma_order(p, x, os[k].0);
        assert(false);
    }
}

/// One emitting step of an insert: a segment `[c0, x)` of the window, whose
/// points are all accounted for, is appended with value `w`.
#[verifier::rlimit(50)]
proof fn lemma_insert_push_step<K: RangeKey, V: CanCoalesce, F: Fn(&V, &V) -> V>(
    os: Seq<(K, K, V)>,
    pre: Seq<(K, K, V)>,
    q: Seq<(K, K, V)>,
    rs: K,
    re: K,
    value: V,
    merge: F,
    c0: K,
    x: K,
    w: V,
)
    requires
        geo(os),
        rs.key_lt(re),
        geo(pre),
        pre.len() > 0 ==> key_le(pre.last().1, c0),
        forall|p: K| key_le(c0, p) ==> !covers(pre, p),
        c0.key_lt(x),
        key_le(x, re),
        q == pre.push((c0, x, w)),
        forall|p: K| p.key_lt(c0) ==> covers(pre, p) == (covers(os, p) || in_win(rs, re, p)),
        eq_coalesce::<V>() ==> forall|p: K|
            p.key_lt(c0) && covers(pre, p) ==> new_value_ok(
                os,
                value_at(pre, p),
                rs,
                re,
                value,
                merge,
                p,
            ),
        forall|p: K| key_le(c0, p) && p.key_lt(x) ==> (covers(os, p) || in_win(rs, re, p)),
        eq_coalesce::<V>() ==> forall|p: K|
            key_le(c0, p) && p.key_lt(x) ==> new_value_ok(os, w, rs, re, value, merge, p),
        fused_outside(pre, rs, re),
        pre.len() > 0 && pre.last().1 == c0 && (c0.key_lt(rs) || re.key_lt(c0)) ==> !fusable(
            pre.last().2,
            w,
        ),
    ensures
        geo(q),
        q.len() > 0,
        q.last().1 == x,
        forall|p: K| key_le(x, p) ==> !covers(q, p),
        forall|p: K| p.key_lt(x) ==> covers(q, p) == (covers(os, p) || in_win(rs, re, p)),
        eq_coalesce::<V>() ==> forall|p: K|
            p.key_lt(x) && covers(q, p) ==> new_value_ok(
                os,
                value_at(q, p),
                rs,
                re,
                value,
                merge,
                p,
            ),
        fused_outside(q, rs, re),
{
    let nw = (c0, x, w);
    assert(forall|k: int| 0 <= k < pre.len() ==> (#[trigger] q[k]) == pre[k]);
    assert(q[q.len() - 1] == nw);
    assert(geo(q));
    assert forall|p: K| key_le(x, p) implies !covers(q, p) by {
        lemma_covers_push(pre, nw, p);
        K::lemma_order(p, c0, x);
        assert(!entry_covers(nw, p));
        assert(key_le(c0, p));
    }
    assert forall|p: K| p.key_lt(x) implies covers(q, p) == (covers(os, p) || in_win(
        rs,
        re,
        p,
    )) by {
        lemma_covers_push(pre, nw, p);
        if p.key_lt(c0) {
            assert(!entry_covers(nw, p));
        } else {
            assert(entry_covers(nw, p));
        }
    }
    if eq_coalesce::<V>() {
        assert forall|p: K| p.key_lt(x) && covers(q, p) implies new_value_ok(
            os,
            value_at(q, p),
            rs,
            re,
            value,
            merge,
            p,
        ) by {
            lemma_covers_push(pre, nw, p);
            lemma_value_at_push(pre, nw, p);
            if entry_covers(nw, p) {
                assert(value_at(q, p) == w);
            } else {
                assert(covers(pre, p));
                assert(p.key_lt(c0)) by {
                    if key_le(c0, p) {
                        assert(!covers(pre, p));
                    }
                }
                assert(value_at(q, p) == value_at(pre, p));
            }
        }
    }
    assert forall|k: int|
        0 <= k && k + 1 < q.len() && (#[trigger] q[k]).1 == q[k + 1].0 && (q[k].1.key_lt(rs)
            || re.key_lt(q[k].1)) implies !fusable(q[k].2, q[k + 1].2) by {
        if k + 1 < q.len() - 1 {
            assert(q[k] == pre[k] && q[k + 1] == pre[k + 1]);
        } else {
            assert(q[k] == pre.last() && q[k + 1] == nw);
        }
    }
}

/// After the window content and the optional right fragment are in place,
/// every point below the first untouched entry is covered exactly as
/// `post_covers` describes.
#[verifier::rlimit(50)]
proof fn lemma_insert_settled<K: RangeKey, V: CanCoalesce>(
    os: Seq<(K, K, V)>,
    q: Seq<(K, K, V)>,
    rs: K,
    re: K,
    value: V,
    tg: Option<(K, K, V)>,
    im: int,
    p: K,
)
    requires
        geo(os),
        rs.key_lt(re),
        0 <= im <= os.len(),
        forall|k: int| 0 <= k < im ==> (#[trigger] os[k]).0.key_lt(re),
        forall|k: int| im <= k < os.len() ==> key_le(re, (#[trigger] os[k]).0),
        forall|k: int|
            0 <= k < im && re.key_lt((#[trigger] os[k]).1) ==> (fusable(os[k].2, value) || (
            tg is Some && k == im - 1)),
        tg matches Some(tt) ==> (tt.0 == re && re.key_lt(tt.1) && 0 < im && os[im - 1].1 == tt.1
            && os[im - 1].2 == tt.2 && os[im - 1].0.key_lt(re) && !fusable(os[im - 1].2, value)),
        forall|pp: K| pp.key_lt(re) ==> covers(q, pp) == (covers(os, pp) || in_win(rs, re, pp)),
        forall|pp: K|
            key_le(re, pp) ==> covers(q, pp) == (tg matches Some(t2) && entry_covers(t2, pp)),
        im < os.len() ==> p.key_lt(os[im].0),
    ensures
        covers(q, p) == post_covers(os, rs, re, value, p),
{
    if p.key_lt(re) {
        // below the window end both sides take the resolved form
    } else {
        assert(key_le(re, p));
        if covers(os, p) {
            let k = idx_at(os, p);
            assert(entry_covers(os[k], p));
            assert(k < im) by {
                if k >= im && im < os.len() {
                    if k == im {
                        klt_le(p, os[im].0, p);
                    } else {
                        lemma_geo_le(os, im, k);
                        klt_le(os[im].0, os[im].1, os[k].0);
                        klt_implies_le(os[im].0, os[k].0);
                        kle_trans(os[im].0, os[k].0, p);
                        klt_le(p, os[im].0, p);
                    }
                    K::lemma_order(p, p, p);
                    assert(false);
                }
            }
            assert(os[k].0.key_lt(re));
            assert(re.key_lt(os[k].1)) by {
                kle_lt(re, p, os[k].1);
            }
            match tg {
                Some(tt) => {
                    if k == im - 1 {
                        assert(!fusable(os[k].2, value));
                        assert(post_covers(os, rs, re, value, p));
                        assert(entry_covers(tt, p));
                        assert(covers(q, p));
                    } else {
                        // a second entry reaching past the window end cannot exist
                        lemma_geo_le(os, k, im - 1);
                        klt_le(p, os[k].1, os[im - 1].0);
                        klt_trans(p, os[im - 1].0, re);
                        assert(false);
                    }
                },
                None => {
                    assert(fusable(os[k].2, value));
                    assert(!post_covers(os, rs, re, value, p));
                    assert(!covers(q, p));
                },
            }
        } else {
            assert(!post_covers(os, rs, re, value, p));
            assert(!covers(q, p)) by {
                if covers(q, p) {
                    match tg {
                        Some(tt) => {
                            assert(entry_covers(tt, p));
                            assert(entry_covers(os[im - 1], p)) by {
                                klt_le(os[im - 1].0, re, p);
                                klt_implies_le(os[im - 1].0, p);
                            }
                            assert(covers(os, p));
                        },
                        None => {},
                    }
                }
            }
        }
    }
}

/// Appending an untouched entry lying at or past the window end preserves
/// the settled picture.
#[verifier::rlimit(50)]
proof fn lemma_insert_append_step<K: RangeKey, V: CanCoalesce, F: Fn(&V, &V) -> V>(
    os: Seq<(K, K, V)>,
    pre: Seq<(K, K, V)>,
    q: Seq<(K, K, V)>,
    rs: K,
    re: K,
    value: V,
    merge: F,
    i: int,
)
    requires
        geo(os),
        fused(os),
        rs.key_lt(re),
        0 <= i < os.len(),
        forall|k: int| i <= k < os.len() ==> key_le(re, (#[trigger] os[k]).0),
        geo(pre),
        pre.len() > 0,
        key_le(pre.last().1, os[i].0),
        q == pre.push(os[i]),
        forall|p: K| p.key_lt(os[i].0) ==> (covers(pre, p) == post_covers(os, rs, re, value, p)),
        forall|p: K| key_le(pre.last().1, p) ==> !covers(pre, p),
        eq_coalesce::<V>() ==> forall|p: K|
            covers(pre, p) ==> new_value_ok(os, value_at(pre, p), rs, re, value, merge, p),
        fused_outside(pre, rs, re),
        re.key_lt(pre.last().1) ==> (0 < i && pre.last().1 == os[i - 1].1 && pre.last().2 == os[i
            - 1].2),
    ensures
        geo(q),
        q.len() > 0,
        i + 1 < os.len() ==> key_le(q.last().1, os[i + 1].0),
        forall|p: K|
            (i + 1 < os.len() ==> p.key_lt(os[i + 1].0)) ==> (covers(q, p) == post_covers(
                os,
                rs,
                re,
                value,
                p,
            )),
        forall|p: K| key_le(q.last().1, p) ==> !covers(q, p),
        eq_coalesce::<V>() ==> forall|p: K|
            covers(q, p) ==> new_value_ok(os, value_at(q, p), rs, re, value, merge, p),
        fused_outside(q, rs, re),
        re.key_lt(q.last().1) ==> (q.last().1 == os[i].1 && q.last().2 == os[i].2),
{
    let nw = os[i];
    assert(forall|k: int| 0 <= k < pre.len() ==> (#[trigger] q[k]) == pre[k]);
    assert(q[q.len() - 1] == nw);
    assert(geo(q));
    assert forall|p: K| key_le(q.last().1, p) implies !covers(q, p) by {
        lemma_covers_push(pre, nw, p);
        assert(!entry_covers(nw, p)) by {
            if entry_covers(nw, p) {
                klt_le(p, os[i].1, p);
                K::lemma_order(p, p, p);
            }
        }
        assert(!covers(pre, p)) by {
            kle_lt(pre.last().1, os[i].0, os[i].1);
            klt_le(pre.last().1, os[i].1, p);
            klt_implies_le(pre.last().1, p);
        }
    }
    assert forall|p: K|
        (i + 1 < os.len() ==> p.key_lt(os[i + 1].0)) implies (covers(q, p) == post_covers(
        os,
        rs,
        re,
        value,
        p,
    )) by {
        lemma_covers_push(pre, nw, p);
        if p.key_lt(os[i].0) {
            assert(!entry_covers(nw, p));
        } else if p.key_lt(os[i].1) {
            assert(entry_covers(nw, p));
            assert(covers(q, p));
            lemma_value_at(os, p, i);
            assert(!p.key_lt(re)) by {
                kle_trans(re, os[i].0, p);
            }
            assert(post_covers(os, rs, re, value, p));
        } else {
            assert(!entry_covers(nw, p));
            assert(!covers(pre, p)) by {
                kle_lt(pre.last().1, os[i].0, os[i].1);
                klt_le(pre.last().1, os[i].1, p);
                klt_implies_le(pre.last().1, p);
            }
            assert(!covers(os, p)) by {
                if covers(os, p) {
                    let k = idx_at(os, p);
                    assert(entry_covers(os[k], p));
                    if k < i {
                        lemma_geo_le(os, k, i);
                        klt_le(p, os[k].1, os[i].0);
                        klt_trans(p, os[i].0, os[i].1);
                        assert(false);
                    } else if k == i {
                        klt_le(p, os[i].1, p);
                        K::lemma_order(p, p, p);
                        assert(false);
                    } else {
                        assert(i + 1 < os.len() && p.key_lt(os[i + 1].0));
                        if k == i + 1 {
                            klt_le(p, os[k].0, p);
                        } else {
                            lemma_geo_le(os, i + 1, k);
                            klt_trans(p, os[i + 1].0, os[i + 1].1);
                            klt_le(p, os[i + 1].1, os[k].0);
                            klt_le(p, os[k].0, p);
                        }
                        K::lemma_order(p, p, p);
                        assert(false);
                    }
                }
            }
            assert(!p.key_lt(re)) by {
                kle_lt(re, os[i].0, os[i].1);
                klt_le(re, os[i].1, p);
                klt_implies_le(re, p);
            }
            assert(!post_covers(os, rs, re, value, p));
        }
    }
    if eq_coalesce::<V>() {
        assert forall|p: K| covers(q, p) implies new_value_ok(
            os,
            value_at(q, p),
            rs,
            re,
            value,
            merge,
            p,
        ) by {
            reveal(new_value_ok);
            lemma_covers_push(pre, nw, p);
            lemma_value_at_push(pre, nw, p);
            if entry_covers(nw, p) {
                assert(value_at(q, p) == os[i].2);
                lemma_value_at(os, p, i);
                assert(!p.key_lt(re)) by {
                    kle_trans(re, os[i].0, p);
                }
                assert(!in_win(rs, re, p));
            } else {
                assert(covers(pre, p));
                assert(value_at(q, p) == value_at(pre, p));
            }
        }
    }
    assert forall|k: int|
        0 <= k && k + 1 < q.len() && (#[trigger] q[k]).1 == q[k + 1].0 && (q[k].1.key_lt(rs)
            || re.key_lt(q[k].1)) implies !fusable(q[k].2, q[k + 1].2) by {
        if k + 1 < q.len() - 1 {
            assert(q[k] == pre[k] && q[k + 1] == pre[k + 1]);
        } else {
            assert(q[k] == pre.last());
            assert(q[k + 1] == nw);
            assert(pre.last().1 == os[i].0);
            if pre.last().1.key_lt(rs) {
                kle_lt(re, os[i].0, rs);
                klt_trans(rs, re, rs);
                K::lemma_order(rs, rs, rs);
                assert(false);
            } else {
                assert(re.key_lt(pre.last().1));
                assert(pre.last().1 == os[i - 1].1 && pre.last().2 == os[i - 1].2);
                assert(os[i - 1].1 == os[i].0);
                assert(!fusable(os[i - 1].2, os[i].2));
            }
        }
    }
    assert(i + 1 < os.len() ==> key_le(q.last().1, os[i + 1].0));
}

/// One fusing step of the coalescing pass: the incoming entry `os[i]` is
/// folded into the last run of `pre`, giving `q`.
proof fn lemma_coalesce_pass_fuse_step<K: RangeKey, V: CanCoalesce>(
    os: Seq<(K, K, V)>,
    pre: Seq<(K, K, V)>,
    q: Seq<(K, K, V)>,
    i: int,
    v2: V,
    start: K,
    end: K,
)
    requires
        geo(os),
        0 <= i < os.len(),
        geo(pre),
        pre.len() > 0,
        i > 0,
        pre.last().1 == os[i - 1].1,
        key_le(pre.last().1, os[i].0),
        forall|d: V| (#[trigger] fusable(d, pre.last().2)) == fusable(d, os[i - 1].2),
        forall|p: K| covers(pre, p) == covers(os.take(i), p),
        eq_coalesce::<V>() ==> forall|p: K|
            covers(pre, p) ==> value_at(pre, p) == value_at(os.take(i), p),
        fused_outside(os, start, end) ==> fused(pre),
        pre.last().1 == os[i].0,
        os[i].2.spec_coalesce(&pre.last().2) == Some(v2),
        q == pre.drop_last().push((pre.last().0, os[i].1, v2)),
        key_le(start, os[i].0),
        key_le(os[i].0, end),
        fused_inside(pre, start, end),
        forall|k: int|
            0 <= k < i && ((#[trigger] os[k]).1.key_lt(start) || end.key_lt(os[k].0))
                ==> exists|j: int| 0 <= j < pre.len() && pre[j] == os[k],
        forall|p: K, d: V|
            covers(pre, p) ==> #[trigger] fusable(d, value_at(pre, p)) == fusable(
                d,
                value_at(os.take(i), p),
            ),
    ensures
        geo(q),
        q.len() > 0,
        q.last().1 == os[i].1,
        i + 1 < os.len() ==> key_le(q.last().1, os[i + 1].0),
        forall|d: V| (#[trigger] fusable(d, q.last().2)) == fusable(d, os[i].2),
        forall|p: K| covers(q, p) == covers(os.take(i + 1), p),
        eq_coalesce::<V>() ==> forall|p: K|
            covers(q, p) ==> value_at(q, p) == value_at(os.take(i + 1), p),
        fused_outside(os, start, end) ==> fused(q),
        fused_inside(q, start, end),
        forall|k: int|
            0 <= k < i + 1 && ((#[trigger] os[k]).1.key_lt(start) || end.key_lt(os[k].0))
                ==> exists|j: int| 0 <= j < q.len() && q[j] == os[k],
        forall|p: K, d: V|
            covers(q, p) ==> #[trigger] fusable(d, value_at(q, p)) == fusable(
                d,
                value_at(os.take(i + 1), p),
            ),
{
    broadcast use key_order_basics, key_order_trans;

    let last = pre.last();
    let t = os[i];
    let nw = (last.0, t.1, v2);
    let dl = pre.drop_last();
    assert(forall|k: int| 0 <= k < dl.len() ==> (#[trigger] dl[k]) == pre[k]);
    assert(pre =~= dl.push(last));
    assert(os.take(i + 1) =~= os.take(i).push(t));
    assert(forall|k: int| 0 <= k < i ==> (#[trigger] os.take(i)[k]) == os[k]);
    lemma_geo_take(os, i);
    lemma_geo_take(os, i + 1);
    // classes
    V::lemma_coalesce_class(t.2, last.2, v2, t.2);
    assert forall|d: V| (#[trigger] fusable(d, v2)) == fusable(d, t.2) by {
        V::lemma_coalesce_class(t.2, last.2, v2, d);
        V::lemma_coalesce_symm(d, v2);
        V::lemma_coalesce_symm(d, t.2);
    }
    // geometry
    assert(geo(dl));
    assert(last.0.key_lt(last.1));
    assert(t.0.key_lt(t.1));
    assert(nw.0.key_lt(nw.1));
    assert(geo(q)) by {
        assert(forall|k: int| 0 <= k < dl.len() ==> (#[trigger] q[k]) == dl[k]);
        assert(q[q.len() - 1] == nw);
        assert(dl.len() > 0 ==> key_le(dl.last().1, last.0));
    }
    assert(q.last() == nw);
    // coverage
    assert forall|p: K| covers(q, p) == covers(os.take(i + 1), p) by {
        lemma_covers_push(dl, nw, p);
        lemma_covers_push(dl, last, p);
        lemma_covers_push(os.take(i), t, p);
        assert(entry_covers(nw, p) == (entry_covers(last, p) || entry_covers(t, p)));
    }
    // values under equality coalescing
    if eq_coalesce::<V>() {
        assert(t.2.spec_coalesce(&last.2) == (if t.2 == last.2 {
            Some(t.2)
        } else {
            None::<V>
        }));
        assert(v2 == t.2 && v2 == last.2);
        assert forall|p: K| covers(q, p) implies value_at(q, p) == value_at(os.take(i + 1), p) by {
            lemma_covers_push(dl, nw, p);
            lemma_value_at_push(dl, nw, p);
            lemma_value_at_push(dl, last, p);
            lemma_value_at_push(os.take(i), t, p);
            if entry_covers(nw, p) {
                assert(value_at(q, p) == v2);
                if entry_covers(t, p) {
                    assert(value_at(os.take(i + 1), p) == t.2);
                } else {
                    assert(entry_covers(last, p));
                    assert(covers(pre, p));
                    assert(value_at(pre, p) == last.2);
                    assert(covers(os.take(i), p));
                    assert(value_at(os.take(i), p) == last.2);
                    let k = idx_at(os.take(i), p);
                    assert(entry_covers(os.take(i)[k], p));
                    assert(os.take(i + 1)[k] == os.take(i)[k]);
                    lemma_value_at(os.take(i + 1), p, k);
                }
            } else {
                assert(covers(dl, p));
                assert(value_at(q, p) == value_at(dl, p));
                assert(covers(pre, p));
                assert(value_at(pre, p) == value_at(dl, p));
                assert(covers(os.take(i), p));
                let k = idx_at(os.take(i), p);
                assert(entry_covers(os.take(i)[k], p));
                assert(os.take(i + 1)[k] == os.take(i)[k]);
                lemma_value_at(os.take(i + 1), p, k);
            }
        }
    }
    // fusedness
    if fused_outside(os, start, end) {
        assert forall|k: int|
            0 <= k && k + 1 < q.len() && (#[trigger] q[k]).1 == q[k + 1].0 implies !fusable(
            q[k].2,
            q[k + 1].2,
        ) by {
            if k + 1 < q.len() - 1 {
                assert(q[k] == pre[k] && q[k + 1] == pre[k + 1]);
            } else {
                assert(q[k] == pre[k]);
                assert(q[k + 1] == nw);
                assert(pre[k].1 == nw.0);
                assert(pre[k].1 == pre[k + 1].0);
                assert(!fusable(pre[k].2, pre[k + 1].2));
                assert(fusable(pre[k].2, v2) == fusable(pre[k].2, t.2)) by {
                    V::lemma_coalesce_class(t.2, last.2, v2, pre[k].2);
                }
                assert(fusable(pre[k].2, t.2) == fusable(pre[k].2, last.2)) by {
                    V::lemma_coalesce_class(t.2, last.2, v2, pre[k].2);
                    V::lemma_coalesce_symm(pre[k].2, t.2);
                    V::lemma_coalesce_symm(pre[k].2, last.2);
                }
            }
        }
    }
    // junctions inside the window are unfusable whatever held outside
    assert forall|k: int|
        0 <= k && k + 1 < q.len() && (#[trigger] q[k]).1 == q[k + 1].0 && key_le(start, q[k].1)
            && key_le(q[k].1, end) implies !fusable(q[k].2, q[k + 1].2) by {
        if k + 1 < q.len() - 1 {
            assert(q[k] == pre[k] && q[k + 1] == pre[k + 1]);
        } else {
            assert(q[k] == pre[k]);
            assert(q[k + 1] == nw);
            assert(pre[k].1 == pre[k + 1].0);
            assert(!fusable(pre[k].2, pre[k + 1].2));
            V::lemma_coalesce_class(t.2, last.2, v2, pre[k].2);
        }
    }
    // entries wholly outside the window are still stored unchanged
    assert forall|k: int|
        0 <= k < i + 1 && ((#[trigger] os[k]).1.key_lt(start) || end.key_lt(
            os[k].0,
        )) implies exists|j: int| 0 <= j < q.len() && q[j] == os[k] by {
        if k < i {
            let j = choose|j: int| 0 <= j < pre.len() && pre[j] == os[k];
            assert(j != pre.len() - 1) by {
                if j == pre.len() - 1 {
                    assert(os[k] == last);
                    if end.key_lt(os[k].0) {
                        klt_le(last.0, last.1, end);
                        klt_trans(end, last.0, end);
                        K::lemma_order(end, end, end);
                    }
                    assert(false);
                }
            }
            assert(q[j] == pre[j]);
        } else {
            if os[k].1.key_lt(start) {
                kle_lt(start, os[i].0, os[i].1);
                klt_trans(start, os[i].1, start);
                K::lemma_order(start, start, start);
            }
            assert(false);
        }
    }
    // every covered point keeps a value of the same fusability class
    assert forall|p: K, d: V| covers(q, p) implies #[trigger] fusable(d, value_at(q, p))
        == fusable(d, value_at(os.take(i + 1), p)) by {
        lemma_covers_push(dl, nw, p);
        lemma_value_at_push(dl, nw, p);
        lemma_value_at_push(dl, last, p);
        lemma_value_at_push(os.take(i), t, p);
        V::lemma_coalesce_class(t.2, last.2, v2, d);
        if entry_covers(nw, p) {
            assert(value_at(q, p) == v2);
            if entry_covers(t, p) {
                assert(value_at(os.take(i + 1), p) == t.2);
            } else {
                assert(entry_covers(last, p));
                assert(covers(pre, p));
                assert(value_at(pre, p) == last.2);
                assert(covers(os.take(i), p));
                let k = idx_at(os.take(i), p);
                assert(entry_covers(os.take(i)[k], p));
                assert(os.take(i + 1)[k] == os.take(i)[k]);
                lemma_value_at(os.take(i + 1), p, k);
                assert(fusable(d, value_at(pre, p)) == fusable(d, value_at(os.take(i), p)));
            }
        } else {
            assert(covers(dl, p));
            assert(value_at(q, p) == value_at(dl, p));
            assert(covers(pre, p));
            assert(value_at(pre, p) == value_at(dl, p));
            assert(covers(os.take(i), p));
            let k = idx_at(os.take(i), p);
            assert(entry_covers(os.take(i)[k], p));
            assert(os.take(i + 1)[k] == os.take(i)[k]);
            lemma_value_at(os.take(i + 1), p, k);
            assert(fusable(d, value_at(pre, p)) == fusable(d, value_at(os.take(i), p)));
        }
    }
}

/// One copying step of the coalescing pass: the incoming entry `os[i]` did
/// not fuse with the last run and is appended unchanged.
proof fn lemma_coalesce_pass_copy_step<K: RangeKey, V: CanCoalesce>(
    os: Seq<(K, K, V)>,
    pre: Seq<(K, K, V)>,
    q: Seq<(K, K, V)>,
    i: int,
    start: K,
    end: K,
)
    requires
        geo(os),
        0 <= i < os.len(),
        geo(pre),
        pre.len() > 0 ==> i > 0 && pre.last().1 == os[i - 1].1 && key_le(pre.last().1, os[i].0),
        pre.len() == 0 ==> i == 0,
        pre.len() > 0 ==> forall|d: V| (#[trigger] fusable(d, pre.last().2)) == fusable(
            d,
            os[i - 1].2,
        ),
        forall|p: K| covers(pre, p) == covers(os.take(i), p),
        eq_coalesce::<V>() ==> forall|p: K|
            covers(pre, p) ==> value_at(pre, p) == value_at(os.take(i), p),
        fused_outside(os, start, end) ==> fused(pre),
        pre.len() > 0 && pre.last().1 == os[i].0 ==> (os[i].0.key_lt(start) || end.key_lt(os[i].0)
            || !fusable(os[i].2, pre.last().2)),
        q == pre.push(os[i]),
        fused_inside(pre, start, end),
        forall|k: int|
            0 <= k < i && ((#[trigger] os[k]).1.key_lt(start) || end.key_lt(os[k].0))
                ==> exists|j: int| 0 <= j < pre.len() && pre[j] == os[k],
        forall|p: K, d: V|
            covers(pre, p) ==> #[trigger] fusable(d, value_at(pre, p)) == fusable(
                d,
                value_at(os.take(i), p),
            ),
    ensures
        geo(q),
        q.len() > 0,
        q.last().1 == os[i].1,
        i + 1 < os.len() ==> key_le(q.last().1, os[i + 1].0),
        forall|d: V| (#[trigger] fusable(d, q.last().2)) == fusable(d, os[i].2),
        forall|p: K| covers(q, p) == covers(os.take(i + 1), p),
        eq_coalesce::<V>() ==> forall|p: K|
            covers(q, p) ==> value_at(q, p) == value_at(os.take(i + 1), p),
        fused_outside(os, start, end) ==> fused(q),
        fused_inside(q, start, end),
        forall|k: int|
            0 <= k < i + 1 && ((#[trigger] os[k]).1.key_lt(start) || end.key_lt(os[k].0))
                ==> exists|j: int| 0 <= j < q.len() && q[j] == os[k],
        forall|p: K, d: V|
            covers(q, p) ==> #[trigger] fusable(d, value_at(q, p)) == fusable(
                d,
                value_at(os.take(i + 1), p),
            ),
{
    broadcast use key_order_basics, key_order_trans;

    let t = os[i];
    assert(os.take(i + 1) =~= os.take(i).push(t));
    assert(forall|k: int| 0 <= k < i ==> (#[trigger] os.take(i)[k]) == os[k]);
    lemma_geo_take(os, i);
    lemma_geo_take(os, i + 1);
    assert(geo(q)) by {
        assert(forall|k: int| 0 <= k < pre.len() ==> (#[trigger] q[k]) == pre[k]);
        assert(q[q.len() - 1] == t);
    }
    assert(q.last() == t);
    assert forall|p: K| covers(q, p) == covers(os.take(i + 1), p) by {
        lemma_covers_push(pre, t, p);
        lemma_covers_push(os.take(i), t, p);
    }
    if eq_coalesce::<V>() {
        assert forall|p: K| covers(q, p) implies value_at(q, p) == value_at(os.take(i + 1), p) by {
            lemma_covers_push(pre, t, p);
            lemma_value_at_push(pre, t, p);
            lemma_value_at_push(os.take(i), t, p);
            if entry_covers(t, p) {
                assert(value_at(q, p) == t.2);
            } else {
                assert(covers(pre, p));
                assert(covers(os.take(i), p));
                let k = idx_at(os.take(i), p);
                assert(entry_covers(os.take(i)[k], p));
                assert(os.take(i + 1)[k] == os.take(i)[k]);
                lemma_value_at(os.take(i + 1), p, k);
            }
        }
    }
    if fused_outside(os, start, end) {
        assert forall|k: int|
            0 <= k && k + 1 < q.len() && (#[trigger] q[k]).1 == q[k + 1].0 implies !fusable(
            q[k].2,
            q[k + 1].2,
        ) by {
            if k + 1 < q.len() - 1 {
                assert(q[k] == pre[k] && q[k + 1] == pre[k + 1]);
            } else {
                assert(q[k] == pre.last());
                assert(q[k + 1] == t);
                assert(pre.last().1 == t.0);
                if t.0.key_lt(start) || end.key_lt(t.0) {
                    // junction outside the window: the original neighbours were
                    // not fusable, and the run's class equals its last entry's
                    assert(os[i - 1].1 == t.0);
                    assert(!fusable(os[i - 1].2, os[i].2));
                    assert(fusable(t.2, pre.last().2) == fusable(t.2, os[i - 1].2));
                    V::lemma_coalesce_symm(os[i - 1].2, t.2);
                    V::lemma_coalesce_symm(t.2, pre.last().2);
                    V::lemma_coalesce_symm(pre.last().2, t.2);
                } else {
                    assert(!fusable(t.2, pre.last().2));
                    V::lemma_coalesce_symm(pre.last().2, t.2);
                }
            }
        }
    }
    // junctions inside the window are unfusable whatever held outside
    assert forall|k: int|
        0 <= k && k + 1 < q.len() && (#[trigger] q[k]).1 == q[k + 1].0 && key_le(start, q[k].1)
            && key_le(q[k].1, end) implies !fusable(q[k].2, q[k + 1].2) by {
        if k + 1 < q.len() - 1 {
            assert(q[k] == pre[k] && q[k + 1] == pre[k + 1]);
        } else {
            assert(q[k] == pre.last());
            assert(q[k + 1] == t);
            assert(pre.last().1 == t.0);
            assert(!fusable(t.2, pre.last().2));
            V::lemma_coalesce_symm(pre.last().2, t.2);
        }
    }
    // entries wholly outside the window are still stored unchanged
    assert forall|k: int|
        0 <= k < i + 1 && ((#[trigger] os[k]).1.key_lt(start) || end.key_lt(
            os[k].0,
        )) implies exists|j: int| 0 <= j < q.len() && q[j] == os[k] by {
        if k < i {
            let j = choose|j: int| 0 <= j < pre.len() && pre[j] == os[k];
            assert(q[j] == pre[j]);
        } else {
            assert(q[q.len() - 1] == os[i]);
        }
    }
    // every covered point keeps a value of the same fusability class
    assert forall|p: K, d: V| covers(q, p) implies #[trigger] fusable(d, value_at(q, p))
        == fusable(d, value_at(os.take(i + 1), p)) by {
        lemma_covers_push(pre, t, p);
        lemma_value_at_push(pre, t, p);
        lemma_value_at_push(os.take(i), t, p);
        if entry_covers(t, p) {
            assert(value_at(q, p) == t.2);
            assert(value_at(os.take(i + 1), p) == t.2);
        } else {
            assert(covers(pre, p));
            assert(value_at(q, p) == value_at(pre, p));
            assert(covers(os.take(i), p));
            let k = idx_at(os.take(i), p);
            assert(entry_covers(os.take(i)[k], p));
            assert(os.take(i + 1)[k] == os.take(i)[k]);
            lemma_value_at(os.take(i + 1), p, k);
            assert(fusable(d, value_at(pre, p)) == fusable(d, value_at(os.take(i), p)));
        }
    }
}

/// Executable equality of keys, through the order.
pub fn key_eq<K: RangeKey>(a: K, b: K) -> (r: bool)
    ensures
        r == (a == b),
{
    proof {
        broadcast use key_order_basics;

    }
    !a.lt(b) && !b.lt(a)
}

} // verus!
