//! Laws that relate several operations of the range map: the canonical-form
//! argument, the round trip through an overwriting insert and a range query,
//! idempotence of an overwriting insert, and fusion of touching inserts of
//! one value.
use crate::range_query::covers;
use crate::range_query::entry_covers;
use crate::range_query::eq_coalesce;
use crate::range_query::fusable;
use crate::range_query::fused;
use crate::range_query::geo;
use crate::range_query::idx_at;
use crate::range_query::in_win;
use crate::range_query::key_le;
use crate::range_query::kle_lt;
use crate::range_query::kle_trans;
use crate::range_query::klt_implies_le;
use crate::range_query::klt_le;
use crate::range_query::klt_trans;
use crate::range_query::lemma_geo_le;
use crate::range_query::lemma_value_at;
use crate::range_query::post_covers;
use crate::range_query::range_pred;
use crate::range_query::replaced_value_ok;
use crate::range_query::value_at;
use crate::range_query::CanCoalesce;
use crate::range_query::RangeKey;
use vstd::prelude::*;

verus! {

/// Dropping the first entry keeps exactly the points the head did not cover,
/// with their values.
proof fn lemma_skip_covers<K: RangeKey, V: CanCoalesce>(s: Seq<(K, K, V)>, p: K)
    requires
        geo(s),
        s.len() > 0,
    ensures
        covers(s.skip(1), p) == (covers(s, p) && !entry_covers(s[0], p)),
        covers(s.skip(1), p) ==> value_at(s.skip(1), p) == value_at(s, p),
{
    let t = s.skip(1);
    assert(forall|k: int| 0 <= k < t.len() ==> (#[trigger] t[k]) == s[k + 1]);
    assert(geo(t));
    if covers(t, p) {
        let k = idx_at(t, p);
        assert(entry_covers(t[k], p));
        assert(entry_covers(s[k + 1], p));
        assert(covers(s, p));
        lemma_value_at(s, p, k + 1);
        lemma_value_at(t, p, k);
        if entry_covers(s[0], p) {
            crate::range_query::lemma_covers_unique(s, p, 0, k + 1);
        }
    }
    if covers(s, p) && !entry_covers(s[0], p) {
        let k = idx_at(s, p);
        assert(entry_covers(s[k], p));
        assert(k != 0);
        assert(entry_covers(t[k - 1], p));
        assert(covers(t, p));
    }
}

/// With equality coalescing, a head entry of one canonical sequence cannot
/// end strictly before the matching head of another covering the same points
/// with the same values.
proof fn lemma_head_end_no_lt<K: RangeKey, V: CanCoalesce>(s1: Seq<(K, K, V)>, s2: Seq<(K, K, V)>)
    requires
        eq_coalesce::<V>(),
        geo(s1),
        fused(s1),
        geo(s2),
        s1.len() > 0,
        s2.len() > 0,
        s1[0].0 == s2[0].0,
        forall|p: K| covers(s1, p) == covers(s2, p),
        forall|p: K| covers(s1, p) ==> value_at(s1, p) == value_at(s2, p),
    ensures
        !s1[0].1.key_lt(s2[0].1),
{
    if !s1[0].1.key_lt(s2[0].1) {
        return;
    }
    let a = s1[0].0;
    let e1 = s1[0].1;
    assert(entry_covers(s2[0], e1)) by {
        klt_implies_le(a, e1);
    }
    assert(covers(s2, e1));
    assert(covers(s1, e1));
    let k = idx_at(s1, e1);
    assert(entry_covers(s1[k], e1));
    assert(k != 0) by {
        K::lemma_order(e1, e1, e1);
    }
    lemma_geo_le(s1, 0, k);
    assert(s1[k].0 == e1) by {
        K::lemma_order(s1[k].0, e1, s1[k].0);
    }
    assert(k == 1) by {
        if k > 1 {
            lemma_geo_le(s1, 1, k);
            kle_lt(e1, s1[1].0, s1[1].1);
            klt_le(e1, s1[1].1, s1[k].0);
            K::lemma_order(e1, e1, e1);
        }
    }
    assert(!fusable(s1[0].2, s1[1].2));
    assert(s1[0].2.spec_coalesce(&s1[1].2) == (if s1[0].2 == s1[1].2 {
        Some(s1[0].2)
    } else {
        None::<V>
    }));
    assert(s1[0].2 != s1[1].2);
    assert(entry_covers(s1[0], a) && entry_covers(s2[0], a)) by {
        K::lemma_order(a, a, a);
        klt_trans(a, e1, s2[0].1);
    }
    lemma_value_at(s1, a, 0);
    lemma_value_at(s2, a, 0);
    assert(s1[0].2 == s2[0].2);
    lemma_value_at(s1, e1, 1);
    lemma_value_at(s2, e1, 0);
    assert(s1[1].2 == s2[0].2);
    assert(false);
}

/// With equality coalescing, a sorted disjoint fully-fused sequence is the
/// canonical form of the point function it represents: two such sequences
/// covering the same points with the same values are equal.
pub proof fn lemma_canonical_form<K: RangeKey, V: CanCoalesce>(s1: Seq<(K, K, V)>, s2: Seq<(K, K, V)>)
    requires
        eq_coalesce::<V>(),
        geo(s1),
        fused(s1),
        geo(s2),
        fused(s2),
        forall|p: K| covers(s1, p) == covers(s2, p),
        forall|p: K| covers(s1, p) ==> value_at(s1, p) == value_at(s2, p),
    ensures
        s1 =~= s2,
    decreases s1.len(),
{
    if s1.len() == 0 {
        if s2.len() > 0 {
            assert(entry_covers(s2[0], s2[0].0)) by {
                K::lemma_order(s2[0].0, s2[0].0, s2[0].0);
            }
            assert(covers(s2, s2[0].0));
            assert(covers(s1, s2[0].0));
            let k = idx_at(s1, s2[0].0);
            assert(false);
        }
    } else if s2.len() == 0 {
        assert(entry_covers(s1[0], s1[0].0)) by {
            K::lemma_order(s1[0].0, s1[0].0, s1[0].0);
        }
        assert(covers(s1, s1[0].0));
        assert(covers(s2, s1[0].0));
        let k = idx_at(s2, s1[0].0);
        assert(false);
    } else {
        let a1 = s1[0].0;
        let a2 = s2[0].0;
        assert(entry_covers(s1[0], a1) && entry_covers(s2[0], a2)) by {
            K::lemma_order(a1, a1, a1);
            K::lemma_order(a2, a2, a2);
        }
        assert(covers(s2, a1) && covers(s1, a2));
        assert(key_le(a2, a1)) by {
            let k2 = idx_at(s2, a1);
            assert(entry_covers(s2[k2], a1));
            if k2 > 0 {
                lemma_geo_le(s2, 0, k2);
                klt_le(a2, s2[0].1, s2[k2].0);
                klt_le(a2, s2[k2].0, a1);
                klt_implies_le(a2, a1);
            } else {
                assert(key_le(a2, a1));
            }
        }
        assert(key_le(a1, a2)) by {
            let k1 = idx_at(s1, a2);
            assert(entry_covers(s1[k1], a2));
            if k1 > 0 {
                lemma_geo_le(s1, 0, k1);
                klt_le(a1, s1[0].1, s1[k1].0);
                klt_le(a1, s1[k1].0, a2);
                klt_implies_le(a1, a2);
            } else {
                assert(key_le(a1, a2));
            }
        }
        assert(a1 == a2) by {
            K::lemma_order(a1, a2, a1);
        }
        assert(s1[0].1 == s2[0].1) by {
            if s1[0].1.key_lt(s2[0].1) {
                lemma_head_end_no_lt(s1, s2);
            } else if s2[0].1.key_lt(s1[0].1) {
                assert forall|p: K| covers(s2, p) implies value_at(s2, p) == value_at(s1, p) by {
                    assert(covers(s1, p));
                }
                lemma_head_end_no_lt(s2, s1);
            } else {
                K::lemma_order(s1[0].1, s2[0].1, s1[0].1);
            }
        }
        lemma_value_at(s1, a1, 0);
        lemma_value_at(s2, a1, 0);
        assert(s1[0].2 == s2[0].2);
        assert(s1[0] == s2[0]);
        let t1 = s1.skip(1);
        let t2 = s2.skip(1);
        assert(forall|k: int| 0 <= k < t1.len() ==> (#[trigger] t1[k]) == s1[k + 1]);
        assert(forall|k: int| 0 <= k < t2.len() ==> (#[trigger] t2[k]) == s2[k + 1]);
        assert(geo(t1) && geo(t2));
        assert(fused(t1) && fused(t2));
        assert forall|p: K| covers(t1, p) == covers(t2, p) by {
            lemma_skip_covers(s1, p);
            lemma_skip_covers(s2, p);
        }
        assert forall|p: K| covers(t1, p) implies value_at(t1, p) == value_at(t2, p) by {
            lemma_skip_covers(s1, p);
            lemma_skip_covers(s2, p);
        }
        lemma_canonical_form(t1, t2);
        assert(s1.len() == s2.len());
        assert forall|k: int| 0 <= k < s1.len() implies s1[k] == s2[k] by {
            if k > 0 {
                assert(t1[k - 1] == t2[k - 1]);
            }
        }
    }
}

/// An entry of a filtered sequence is an entry of the original.
proof fn lemma_filter_mem<A>(s: Seq<A>, pred: spec_fn(A) -> bool, i: int)
    requires
        0 <= i < s.filter(pred).len(),
    ensures
        exists|j: int| 0 <= j < s.len() && #[trigger] s[j] == s.filter(pred)[i],
    decreases s.len(),
{
    reveal(Seq::filter);
    if s.len() > 0 {
        let f = s.filter(pred);
        let fd = s.drop_last().filter(pred);
        if pred(s.last()) && i == f.len() - 1 {
            assert(s[s.len() - 1] == f[i]);
        } else {
            lemma_filter_mem(s.drop_last(), pred, i);
            let j = choose|j: int|
                0 <= j < s.drop_last().len() && #[trigger] s.drop_last()[j] == fd[i];
            assert(s[j] == f[i]);
        }
    }
}

/// Round trip of an overwriting insert and a range query: after
/// `insert_replace([rs, re), v)` every point of the window is covered and
/// carries `v`, and every stored entry that the query over the same window
/// returns intersects it and carries `v`.
pub proof fn lemma_replace_covering<K: RangeKey, V: CanCoalesce>(
    m0: Seq<(K, K, V)>,
    m1: Seq<(K, K, V)>,
    rs: K,
    re: K,
    v: V,
)
    requires
        eq_coalesce::<V>(),
        rs.key_lt(re),
        geo(m0),
        geo(m1),
        forall|p: K| covers(m1, p) == post_covers(m0, rs, re, v, p),
        forall|p: K| covers(m1, p) ==> replaced_value_ok(m0, value_at(m1, p), rs, re, v, p),
    ensures
        forall|p: K| in_win(rs, re, p) ==> covers(m1, p) && value_at(m1, p) == v,
        forall|k: int|
            0 <= k < m1.len() && (#[trigger] m1[k]).0.key_lt(re) && rs.key_lt(m1[k].1) ==> m1[k].2
                == v,
        forall|k: int|
            0 <= k < m1.filter(range_pred(rs, re)).len() ==> {
                let t = #[trigger] m1.filter(range_pred(rs, re))[k];
                t.2 == v && t.0.key_lt(re) && rs.key_lt(t.1)
            },
{
    assert forall|p: K| in_win(rs, re, p) implies covers(m1, p) && value_at(m1, p) == v by {
        assert(post_covers(m0, rs, re, v, p));
        assert(covers(m1, p));
        assert(replaced_value_ok(m0, value_at(m1, p), rs, re, v, p));
    }
    assert forall|k: int|
        0 <= k < m1.len() && (#[trigger] m1[k]).0.key_lt(re) && rs.key_lt(m1[k].1) implies m1[k].2
        == v by {
        let pt = if rs.key_lt(m1[k].0) {
            m1[k].0
        } else {
            rs
        };
        assert(entry_covers(m1[k], pt)) by {
            K::lemma_order(m1[k].0, m1[k].0, m1[k].0);
            K::lemma_order(rs, rs, rs);
        }
        assert(in_win(rs, re, pt)) by {
            K::lemma_order(rs, rs, rs);
            if rs.key_lt(m1[k].0) {
                klt_implies_le(rs, m1[k].0);
            }
        }
        lemma_value_at(m1, pt, k);
    }
    let f = m1.filter(range_pred(rs, re));
    assert forall|k: int| 0 <= k < f.len() implies {
        let t = #[trigger] f[k];
        t.2 == v && t.0.key_lt(re) && rs.key_lt(t.1)
    } by {
        m1.lemma_filter_pred(range_pred(rs, re), k);
        assert((range_pred(rs, re))(f[k]));
        lemma_filter_mem(m1, range_pred(rs, re), k);
        let j = choose|j: int| 0 <= j < m1.len() && #[trigger] m1[j] == f[k];
        assert(m1[j].2 == v);
    }
}

/// Overwriting the same window with the same value twice leaves the map as
/// it stood after the first insert, provided the first insert left no stored
/// range that runs past the window's end while carrying the inserted value:
/// such a range would be swallowed whole and truncated by the second insert.
pub proof fn lemma_replace_idempotent<K: RangeKey, V: CanCoalesce>(
    m0: Seq<(K, K, V)>,
    m1: Seq<(K, K, V)>,
    m2: Seq<(K, K, V)>,
    rs: K,
    re: K,
    v: V,
)
    requires
        eq_coalesce::<V>(),
        rs.key_lt(re),
        geo(m0),
        geo(m1),
        fused(m1),
        geo(m2),
        fused(m2),
        forall|p: K| covers(m1, p) == post_covers(m0, rs, re, v, p),
        forall|p: K| covers(m1, p) ==> replaced_value_ok(m0, value_at(m1, p), rs, re, v, p),
        forall|p: K| covers(m2, p) == post_covers(m1, rs, re, v, p),
        forall|p: K| covers(m2, p) ==> replaced_value_ok(m1, value_at(m2, p), rs, re, v, p),
        !(covers(m1, re) && value_at(m1, re) == v),
    ensures
        m2 =~= m1,
{
    assert forall|p: K| covers(m2, p) == covers(m1, p) by {
        if p.key_lt(re) {
            if in_win(rs, re, p) {
                assert(post_covers(m0, rs, re, v, p));
                assert(covers(m1, p));
            }
            assert(post_covers(m1, rs, re, v, p) == covers(m1, p));
        } else {
            if covers(m1, p) {
                let k = idx_at(m1, p);
                assert(entry_covers(m1[k], p));
                if m1[k].0.key_lt(re) && fusable(m1[k].2, v) {
                    assert(m1[k].2.spec_coalesce(&v) == (if m1[k].2 == v {
                        Some(m1[k].2)
                    } else {
                        None::<V>
                    }));
                    assert(entry_covers(m1[k], re)) by {
                        klt_implies_le(m1[k].0, re);
                        kle_lt(re, p, m1[k].1);
                    }
                    lemma_value_at(m1, re, k);
                    assert(false);
                }
                assert(post_covers(m1, rs, re, v, p));
            } else {
                assert(!post_covers(m1, rs, re, v, p));
            }
        }
    }
    assert forall|p: K| covers(m2, p) implies value_at(m2, p) == value_at(m1, p) by {
        assert(replaced_value_ok(m1, value_at(m2, p), rs, re, v, p));
        if in_win(rs, re, p) {
            assert(covers(m1, p));
            assert(replaced_value_ok(m0, value_at(m1, p), rs, re, v, p));
        }
    }
    lemma_canonical_form(m2, m1);
}

/// Inserting one self-coalescing value over two touching or overlapping
/// windows into an empty map, the second reaching at least as far right as
/// the first, leaves a single stored range over their union. (A second
/// window that ends strictly inside the first would swallow the stored range
/// and truncate it at its own end instead.)
pub proof fn lemma_replace_joins<K: RangeKey, V: CanCoalesce>(
    m1: Seq<(K, K, V)>,
    m2: Seq<(K, K, V)>,
    rs1: K,
    re1: K,
    rs2: K,
    re2: K,
    v: V,
)
    requires
        eq_coalesce::<V>(),
        rs1.key_lt(re1),
        rs2.key_lt(re2),
        key_le(rs2, re1),
        key_le(rs1, re2),
        key_le(re1, re2),
        geo(m1),
        fused(m1),
        geo(m2),
        fused(m2),
        forall|p: K|
            covers(m1, p) == post_covers(Seq::<(K, K, V)>::empty(), rs1, re1, v, p),
        forall|p: K| covers(m1, p) ==> replaced_value_ok(
            Seq::<(K, K, V)>::empty(),
            value_at(m1, p),
            rs1,
            re1,
            v,
            p,
        ),
        forall|p: K| covers(m2, p) == post_covers(m1, rs2, re2, v, p),
        forall|p: K| covers(m2, p) ==> replaced_value_ok(m1, value_at(m2, p), rs2, re2, v, p),
    ensures
        m2 =~= seq![
            ((if rs1.key_lt(rs2) {
                rs1
            } else {
                rs2
            }), re2, v),
        ],
{
    let lo = if rs1.key_lt(rs2) {
        rs1
    } else {
        rs2
    };
    let single = seq![(lo, re2, v)];
    assert(lo.key_lt(re2)) by {
        if rs1.key_lt(rs2) {
            klt_le(rs1, re1, re2);
        }
    }
    assert(geo(single) && fused(single));
    assert forall|p: K| covers(m1, p) == in_win(rs1, re1, p) by {
        if p.key_lt(re1) {
        } else {
            assert(!post_covers(Seq::<(K, K, V)>::empty(), rs1, re1, v, p));
            assert(!in_win(rs1, re1, p));
        }
    }
    assert forall|p: K| covers(m2, p) == covers(single, p) by {
        assert(entry_covers(single[0], p) == (key_le(lo, p) && p.key_lt(re2)));
        if p.key_lt(re2) {
            if in_win(rs1, re1, p) || in_win(rs2, re2, p) {
                assert(covers(m2, p));
                assert(key_le(lo, p)) by {
                    if in_win(rs1, re1, p) {
                        if rs1.key_lt(rs2) {
                        } else {
                            kle_trans(lo, rs1, p);
                        }
                    } else {
                        if rs1.key_lt(rs2) {
                            klt_implies_le(rs1, rs2);
                            kle_trans(lo, rs2, p);
                        } else {
                        }
                    }
                }
                assert(covers(single, p)) by {
                    assert(entry_covers(single[0], p));
                }
            } else {
                assert(!covers(m1, p));
                assert(!covers(m2, p));
                assert(!covers(single, p)) by {
                    if entry_covers(single[0], p) {
                        if p.key_lt(rs2) {
                            // then p lies in the first window
                            assert(key_le(rs1, p)) by {
                                if rs1.key_lt(rs2) {
                                } else {
                                    kle_trans(rs1, lo, p);
                                    K::lemma_order(rs1, rs1, rs1);
                                }
                            }
                            assert(p.key_lt(re1)) by {
                                klt_le(p, rs2, re1);
                            }
                            assert(in_win(rs1, re1, p));
                            assert(false);
                        } else {
                            assert(in_win(rs2, re2, p));
                            assert(false);
                        }
                    }
                    if covers(single, p) {
                        let k = idx_at(single, p);
                        assert(entry_covers(single[k], p));
                        assert(false);
                    }
                }
            }
        } else {
            assert(!covers(single, p)) by {
                if covers(single, p) {
                    let k = idx_at(single, p);
                    assert(entry_covers(single[k], p));
                    assert(false);
                }
            }
            if covers(m1, p) {
                assert(in_win(rs1, re1, p));
                kle_lt(re2, p, re1);
                klt_le(re2, re1, re2);
                K::lemma_order(re2, re2, re2);
            }
            assert(!post_covers(m1, rs2, re2, v, p));
        }
    }
    assert forall|p: K| covers(m2, p) implies value_at(m2, p) == value_at(single, p) by {
        assert(entry_covers(single[0], p));
        lemma_value_at(single, p, 0);
        assert(replaced_value_ok(m1, value_at(m2, p), rs2, re2, v, p));
        if !in_win(rs2, re2, p) {
            assert(covers(m1, p));
            assert(in_win(rs1, re1, p));
            assert(replaced_value_ok(
                Seq::<(K, K, V)>::empty(),
                value_at(m1, p),
                rs1,
                re1,
                v,
                p,
            ));
        }
    }
    lemma_canonical_form(m2, single);
}

} // verus!
