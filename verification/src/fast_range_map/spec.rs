use vstd::prelude::*;

verus! {

/// An entry of a range map: the half-open range `start..end` and the value
/// that every point of it maps to.
pub type Entry = (u64, u64, u64);

/// Whether point `p` lies in the range of entry `e`.
pub open spec fn covers(e: Entry, p: u64) -> bool {
    e.0 <= p < e.1
}

/// Entries that are non-empty, ordered by address and do not overlap.
pub open spec fn sorted_disjoint(s: Seq<Entry>) -> bool {
    &&& forall|i: int| 0 <= i < s.len() ==> (#[trigger] s[i]).0 < s[i].1
    &&& forall|i: int, j: int| 0 <= i < j < s.len() ==> (#[trigger] s[i]).1 <= (#[trigger] s[j]).0
}

/// The value that point `p` maps to, if an entry covers it.
pub open spec fn value_at(s: Seq<Entry>, p: u64) -> Option<u64> {
    if exists|i: int| 0 <= i < s.len() && #[trigger] covers(s[i], p) {
        Some(s[choose|i: int| 0 <= i < s.len() && #[trigger] covers(s[i], p)].2)
    } else {
        None
    }
}

/// What is left of each entry below `a`: the entries that start before
/// `a`, cut off at `a`.
pub open spec fn pieces_below(s: Seq<Entry>, a: u64) -> Seq<Entry>
    decreases s.len(),
{
    if s.len() == 0 {
        Seq::empty()
    } else {
        let rest = pieces_below(s.drop_last(), a);
        let e = s.last();
        if e.0 < a {
            rest.push((e.0, if e.1 < a { e.1 } else { a }, e.2))
        } else {
            rest
        }
    }
}

/// What is left of each entry from `b` on: the entries that end after
/// `b`, cut off at `b`.
pub open spec fn pieces_above(s: Seq<Entry>, b: u64) -> Seq<Entry>
    decreases s.len(),
{
    if s.len() == 0 {
        Seq::empty()
    } else {
        let rest = pieces_above(s.drop_last(), b);
        let e = s.last();
        if e.1 > b {
            rest.push((if e.0 > b { e.0 } else { b }, e.1, e.2))
        } else {
            rest
        }
    }
}

/// The entries after `a..b` is set to `v`: the pieces of the old entries
/// outside `a..b`, with the new entry in between.
pub open spec fn overwrite(s: Seq<Entry>, a: u64, b: u64, v: u64) -> Seq<Entry> {
    pieces_below(s, a) + seq![(a, b, v)] + pieces_above(s, b)
}

pub proof fn lemma_pieces_below_concat(s1: Seq<Entry>, s2: Seq<Entry>, a: u64)
    ensures
        pieces_below(s1 + s2, a) == pieces_below(s1, a) + pieces_below(s2, a),
    decreases s2.len(),
{
    if s2.len() == 0 {
        assert(s1 + s2 =~= s1);
        assert(pieces_below(s1, a) + pieces_below(s2, a) =~= pieces_below(s1, a));
    } else {
        assert((s1 + s2).drop_last() =~= s1 + s2.drop_last());
        assert((s1 + s2).last() == s2.last());
        lemma_pieces_below_concat(s1, s2.drop_last(), a);
        let e = s2.last();
        if e.0 < a {
            let piece = (e.0, if e.1 < a { e.1 } else { a }, e.2);
            assert((pieces_below(s1, a) + pieces_below(s2.drop_last(), a)).push(piece) =~= pieces_below(s1, a)
                + pieces_below(s2.drop_last(), a).push(piece));
        }
    }
}

pub proof fn lemma_pieces_above_concat(s1: Seq<Entry>, s2: Seq<Entry>, b: u64)
    ensures
        pieces_above(s1 + s2, b) == pieces_above(s1, b) + pieces_above(s2, b),
    decreases s2.len(),
{
    if s2.len() == 0 {
        assert(s1 + s2 =~= s1);
        assert(pieces_above(s1, b) + pieces_above(s2, b) =~= pieces_above(s1, b));
    } else {
        assert((s1 + s2).drop_last() =~= s1 + s2.drop_last());
        assert((s1 + s2).last() == s2.last());
        lemma_pieces_above_concat(s1, s2.drop_last(), b);
        let e = s2.last();
        if e.1 > b {
            let piece = (if e.0 > b { e.0 } else { b }, e.1, e.2);
            assert((pieces_above(s1, b) + pieces_above(s2.drop_last(), b)).push(piece) =~= pieces_above(s1, b)
                + pieces_above(s2.drop_last(), b).push(piece));
        }
    }
}

/// Entries that all start at or after `a` leave nothing below `a`.
pub proof fn lemma_pieces_below_none(s: Seq<Entry>, a: u64)
    requires
        forall|i: int| 0 <= i < s.len() ==> (#[trigger] s[i]).0 >= a,
    ensures
        pieces_below(s, a) == Seq::<Entry>::empty(),
    decreases s.len(),
{
    if s.len() > 0 {
        lemma_pieces_below_none(s.drop_last(), a);
    }
}

/// Non-empty entries that all end at or before `a` are kept whole.
pub proof fn lemma_pieces_below_all(s: Seq<Entry>, a: u64)
    requires
        forall|i: int| 0 <= i < s.len() ==> (#[trigger] s[i]).1 <= a && s[i].0 < s[i].1,
    ensures
        pieces_below(s, a) == s,
    decreases s.len(),
{
    if s.len() > 0 {
        lemma_pieces_below_all(s.drop_last(), a);
        assert(s.drop_last().push(s.last()) =~= s);
    }
}

/// Entries that all end at or before `b` leave nothing from `b` on.
pub proof fn lemma_pieces_above_none(s: Seq<Entry>, b: u64)
    requires
        forall|i: int| 0 <= i < s.len() ==> (#[trigger] s[i]).1 <= b,
    ensures
        pieces_above(s, b) == Seq::<Entry>::empty(),
    decreases s.len(),
{
    if s.len() > 0 {
        lemma_pieces_above_none(s.drop_last(), b);
    }
}

/// Entries that all start at or after `b` are kept whole.
pub proof fn lemma_pieces_above_all(s: Seq<Entry>, b: u64)
    requires
        forall|i: int| 0 <= i < s.len() ==> (#[trigger] s[i]).0 >= b && s[i].0 < s[i].1,
    ensures
        pieces_above(s, b) == s,
    decreases s.len(),
{
    if s.len() > 0 {
        lemma_pieces_above_all(s.drop_last(), b);
        assert(s.drop_last().push(s.last()) =~= s);
    }
}

pub proof fn lemma_pieces_single(e: Entry, a: u64, b: u64)
    ensures
        pieces_below(seq![e], a) == (if e.0 < a {
            seq![(e.0, if e.1 < a { e.1 } else { a }, e.2)]
        } else {
            Seq::<Entry>::empty()
        }),
        pieces_above(seq![e], b) == (if e.1 > b {
            seq![(if e.0 > b { e.0 } else { b }, e.1, e.2)]
        } else {
            Seq::<Entry>::empty()
        }),
{
    assert(seq![e].drop_last() =~= Seq::<Entry>::empty());
    assert(seq![e].last() == e);
    assert(pieces_below(Seq::<Entry>::empty(), a) =~= Seq::<Entry>::empty());
    assert(pieces_above(Seq::<Entry>::empty(), b) =~= Seq::<Entry>::empty());
    assert(pieces_below(seq![e], a) =~= (if e.0 < a {
        seq![(e.0, if e.1 < a { e.1 } else { a }, e.2)]
    } else {
        Seq::<Entry>::empty()
    }));
    assert(pieces_above(seq![e], b) =~= (if e.1 > b {
        seq![(if e.0 > b { e.0 } else { b }, e.1, e.2)]
    } else {
        Seq::<Entry>::empty()
    }));
}

pub proof fn lemma_sorted_concat(x: Seq<Entry>, y: Seq<Entry>)
    requires
        sorted_disjoint(x),
        sorted_disjoint(y),
        x.len() > 0 && y.len() > 0 ==> x[x.len() - 1].1 <= y[0].0,
    ensures
        sorted_disjoint(x + y),
{
    let z = x + y;
    assert forall|i: int, j: int| 0 <= i < j < z.len() implies (#[trigger] z[i]).1 <= (#[trigger] z[j]).0 by {
        if j < x.len() {
        } else if i >= x.len() {
            assert(z[i] == y[i - x.len()]);
            assert(z[j] == y[j - x.len()]);
        } else {
            assert(x[i].1 <= x[x.len() - 1].1) by {
                if i < x.len() - 1 {
                    assert(x[i].1 <= x[x.len() - 1].0);
                }
            }
            assert(y[0].0 <= y[j - x.len()].0) by {
                if j - x.len() > 0 {
                    assert(y[0].1 <= y[j - x.len()].0);
                }
            }
        }
    }
    assert forall|i: int| 0 <= i < z.len() implies (#[trigger] z[i]).0 < z[i].1 by {
        if i >= x.len() {
            assert(z[i] == y[i - x.len()]);
        }
    }
}

pub proof fn lemma_sorted_drop_last(s: Seq<Entry>)
    requires
        sorted_disjoint(s),
        s.len() > 0,
    ensures
        sorted_disjoint(s.drop_last()),
{
    let t = s.drop_last();
    assert forall|i: int, j: int| 0 <= i < j < t.len() implies (#[trigger] t[i]).1 <= (#[trigger] t[j]).0 by {
        assert(t[i] == s[i] && t[j] == s[j]);
    }
    assert forall|i: int| 0 <= i < t.len() implies (#[trigger] t[i]).0 < t[i].1 by {
        assert(t[i] == s[i]);
    }
}

/// Every piece below `a` ends by `a`, and lies within an entry with the
/// same value.
pub proof fn lemma_pieces_below_within(s: Seq<Entry>, a: u64)
    requires
        forall|i: int| 0 <= i < s.len() ==> (#[trigger] s[i]).0 < s[i].1,
    ensures
        forall|k: int|
            0 <= k < pieces_below(s, a).len() ==> (#[trigger] pieces_below(s, a)[k]).1 <= a
                && pieces_below(s, a)[k].0 < pieces_below(s, a)[k].1,
        forall|k: int, p: u64|
            0 <= k < pieces_below(s, a).len() && #[trigger] covers(pieces_below(s, a)[k], p)
                ==> exists|j: int|
                0 <= j < s.len() && #[trigger] covers(s[j], p) && s[j].2 == pieces_below(s, a)[k].2,
    decreases s.len(),
{
    if s.len() > 0 {
        let t = s.drop_last();
        let n = s.len() - 1;
        assert forall|i: int| 0 <= i < t.len() implies (#[trigger] t[i]).0 < t[i].1 by {
            assert(t[i] == s[i]);
        }
        lemma_pieces_below_within(t, a);
        let rest = pieces_below(t, a);
        let pb = pieces_below(s, a);
        assert(s.last() == s[n]);
        assert forall|k: int, p: u64|
            0 <= k < pb.len() && #[trigger] covers(pb[k], p) implies exists|j: int|
            0 <= j < s.len() && #[trigger] covers(s[j], p) && s[j].2 == pb[k].2 by {
            if k < rest.len() {
                assert(pb[k] == rest[k]);
                let j = choose|j: int| 0 <= j < t.len() && #[trigger] covers(t[j], p) && t[j].2 == rest[k].2;
                assert(t[j] == s[j]);
            } else {
                assert(covers(s[n], p));
            }
        }
        assert forall|k: int| 0 <= k < pb.len() implies (#[trigger] pb[k]).1 <= a && pb[k].0 < pb[k].1 by {
            if k < rest.len() {
                assert(pb[k] == rest[k]);
            }
        }
    }
}

/// The pieces below `a` of ordered, disjoint entries are ordered and
/// disjoint too.
pub proof fn lemma_pieces_below_sorted(s: Seq<Entry>, a: u64)
    requires
        sorted_disjoint(s),
    ensures
        sorted_disjoint(pieces_below(s, a)),
    decreases s.len(),
{
    if s.len() > 0 {
        let t = s.drop_last();
        let n = s.len() - 1;
        let e = s.last();
        lemma_sorted_drop_last(s);
        lemma_pieces_below_sorted(t, a);
        lemma_pieces_below_within(t, a);
        let rest = pieces_below(t, a);
        assert(e == s[n]);
        if e.0 < a {
            let piece = (e.0, if e.1 < a { e.1 } else { a }, e.2);
            if rest.len() > 0 {
                let last = rest[rest.len() - 1];
                if last.1 > e.0 {
                    let q = if last.0 > e.0 { last.0 } else { e.0 };
                    assert(covers(last, q));
                    let j = choose|j: int| 0 <= j < t.len() && #[trigger] covers(t[j], q) && t[j].2 == last.2;
                    assert(t[j] == s[j]);
                    assert(s[j].1 <= s[n].0);
                }
            }
            lemma_sorted_concat(rest, seq![piece]);
            assert(rest + seq![piece] =~= rest.push(piece));
        }
    }
}

/// Below `a`, the pieces cover every point that the entries cover, with
/// the same value.
pub proof fn lemma_pieces_below_cover(s: Seq<Entry>, a: u64, j: int, p: u64)
    requires
        0 <= j < s.len(),
        covers(s[j], p),
        p < a,
    ensures
        exists|k: int|
            0 <= k < pieces_below(s, a).len() && #[trigger] covers(pieces_below(s, a)[k], p)
                && pieces_below(s, a)[k].2 == s[j].2,
    decreases s.len(),
{
    let t = s.drop_last();
    let n = s.len() - 1;
    let rest = pieces_below(t, a);
    let pb = pieces_below(s, a);
    assert(s.last() == s[n]);
    if j < n {
        assert(t[j] == s[j]);
        lemma_pieces_below_cover(t, a, j, p);
        let k = choose|k: int| 0 <= k < rest.len() && #[trigger] covers(rest[k], p) && rest[k].2 == t[j].2;
        assert(pb[k] == rest[k]);
    } else {
        assert(covers(pb[rest.len() as int], p));
    }
}

/// Every piece from `b` on starts at or after `b`, and lies within an
/// entry with the same value.
pub proof fn lemma_pieces_above_within(s: Seq<Entry>, b: u64)
    requires
        forall|i: int| 0 <= i < s.len() ==> (#[trigger] s[i]).0 < s[i].1,
    ensures
        forall|k: int|
            0 <= k < pieces_above(s, b).len() ==> (#[trigger] pieces_above(s, b)[k]).0 >= b
                && pieces_above(s, b)[k].0 < pieces_above(s, b)[k].1,
        forall|k: int, p: u64|
            0 <= k < pieces_above(s, b).len() && #[trigger] covers(pieces_above(s, b)[k], p)
                ==> exists|j: int|
                0 <= j < s.len() && #[trigger] covers(s[j], p) && s[j].2 == pieces_above(s, b)[k].2,
    decreases s.len(),
{
    if s.len() > 0 {
        let t = s.drop_last();
        let n = s.len() - 1;
        assert forall|i: int| 0 <= i < t.len() implies (#[trigger] t[i]).0 < t[i].1 by {
            assert(t[i] == s[i]);
        }
        lemma_pieces_above_within(t, b);
        let rest = pieces_above(t, b);
        let pa = pieces_above(s, b);
        assert(s.last() == s[n]);
        assert forall|k: int, p: u64|
            0 <= k < pa.len() && #[trigger] covers(pa[k], p) implies exists|j: int|
            0 <= j < s.len() && #[trigger] covers(s[j], p) && s[j].2 == pa[k].2 by {
            if k < rest.len() {
                assert(pa[k] == rest[k]);
                let j = choose|j: int| 0 <= j < t.len() && #[trigger] covers(t[j], p) && t[j].2 == rest[k].2;
                assert(t[j] == s[j]);
            } else {
                assert(covers(s[n], p));
            }
        }
        assert forall|k: int| 0 <= k < pa.len() implies (#[trigger] pa[k]).0 >= b && pa[k].0 < pa[k].1 by {
            if k < rest.len() {
                assert(pa[k] == rest[k]);
            }
        }
    }
}

/// The pieces from `b` on of ordered, disjoint entries are ordered and
/// disjoint too.
pub proof fn lemma_pieces_above_sorted(s: Seq<Entry>, b: u64)
    requires
        sorted_disjoint(s),
    ensures
        sorted_disjoint(pieces_above(s, b)),
    decreases s.len(),
{
    if s.len() > 0 {
        let t = s.drop_last();
        let n = s.len() - 1;
        let e = s.last();
        lemma_sorted_drop_last(s);
        lemma_pieces_above_sorted(t, b);
        lemma_pieces_above_within(t, b);
        let rest = pieces_above(t, b);
        assert(e == s[n]);
        if e.1 > b {
            let piece = (if e.0 > b { e.0 } else { b }, e.1, e.2);
            if rest.len() > 0 {
                let last = rest[rest.len() - 1];
                if last.1 > piece.0 {
                    assert(covers(last, (last.1 - 1) as u64));
                    let j = choose|j: int| 0 <= j < t.len() && #[trigger] covers(t[j], (last.1 - 1) as u64) && t[j].2 == last.2;
                    assert(t[j] == s[j]);
                    assert(s[j].1 <= s[n].0);
                }
            }
            lemma_sorted_concat(rest, seq![piece]);
            assert(rest + seq![piece] =~= rest.push(piece));
        }
    }
}

/// From `b` on, the pieces cover every point that the entries cover, with
/// the same value.
pub proof fn lemma_pieces_above_cover(s: Seq<Entry>, b: u64, j: int, p: u64)
    requires
        0 <= j < s.len(),
        covers(s[j], p),
        p >= b,
    ensures
        exists|k: int|
            0 <= k < pieces_above(s, b).len() && #[trigger] covers(pieces_above(s, b)[k], p)
                && pieces_above(s, b)[k].2 == s[j].2,
    decreases s.len(),
{
    let t = s.drop_last();
    let n = s.len() - 1;
    let rest = pieces_above(t, b);
    let pa = pieces_above(s, b);
    assert(s.last() == s[n]);
    if j < n {
        assert(t[j] == s[j]);
        lemma_pieces_above_cover(t, b, j, p);
        let k = choose|k: int| 0 <= k < rest.len() && #[trigger] covers(rest[k], p) && rest[k].2 == t[j].2;
        assert(pa[k] == rest[k]);
    } else {
        assert(covers(pa[rest.len() as int], p));
    }
}

/// In ordered, disjoint entries, the value at a point is the value of the
/// entry that covers it.
pub proof fn lemma_value_at_sorted(s: Seq<Entry>, i: int, p: u64)
    requires
        sorted_disjoint(s),
        0 <= i < s.len(),
        covers(s[i], p),
    ensures
        value_at(s, p) == Some(s[i].2),
{
    assert(covers(s[i], p));
    let j = choose|j: int| 0 <= j < s.len() && #[trigger] covers(s[j], p);
    if j < i {
        assert(s[j].1 <= s[i].0);
    } else if j > i {
        assert(s[i].1 <= s[j].0);
    }
}

/// Setting `a..b` keeps the entries ordered and disjoint.
pub proof fn lemma_overwrite_sorted(s: Seq<Entry>, a: u64, b: u64, v: u64)
    requires
        sorted_disjoint(s),
        a < b,
    ensures
        sorted_disjoint(overwrite(s, a, b, v)),
{
    let pb = pieces_below(s, a);
    let pa = pieces_above(s, b);
    lemma_pieces_below_sorted(s, a);
    lemma_pieces_below_within(s, a);
    lemma_pieces_above_sorted(s, b);
    lemma_pieces_above_within(s, b);
    let mid: Seq<Entry> = seq![(a, b, v)];
    assert(sorted_disjoint(mid));
    lemma_sorted_concat(pb, mid);
    lemma_sorted_concat(pb + mid, pa);
}

/// After `a..b` is set to `v`, every point of `a..b` maps to `v` and every
/// other point maps to what it mapped to before.
pub proof fn lemma_overwrite_value_at(s: Seq<Entry>, a: u64, b: u64, v: u64, p: u64)
    requires
        sorted_disjoint(s),
        a < b,
    ensures
        value_at(overwrite(s, a, b, v), p) == (if a <= p < b {
            Some(v)
        } else {
            value_at(s, p)
        }),
{
    let pb = pieces_below(s, a);
    let pa = pieces_above(s, b);
    let t = overwrite(s, a, b, v);
    lemma_overwrite_sorted(s, a, b, v);
    lemma_pieces_below_within(s, a);
    lemma_pieces_above_within(s, b);
    assert(t[pb.len() as int] == (a, b, v));
    if a <= p < b {
        lemma_value_at_sorted(t, pb.len() as int, p);
    } else if exists|j: int| 0 <= j < s.len() && #[trigger] covers(s[j], p) {
        let j = choose|j: int| 0 <= j < s.len() && #[trigger] covers(s[j], p);
        lemma_value_at_sorted(s, j, p);
        if p < a {
            lemma_pieces_below_cover(s, a, j, p);
            let k = choose|k: int| 0 <= k < pb.len() && #[trigger] covers(pb[k], p) && pb[k].2 == s[j].2;
            assert(t[k] == pb[k]);
            lemma_value_at_sorted(t, k, p);
        } else {
            lemma_pieces_above_cover(s, b, j, p);
            let k = choose|k: int| 0 <= k < pa.len() && #[trigger] covers(pa[k], p) && pa[k].2 == s[j].2;
            assert(t[pb.len() + 1 + k] == pa[k]);
            lemma_value_at_sorted(t, pb.len() + 1 + k, p);
        }
    } else {
        assert forall|i: int| 0 <= i < t.len() implies !#[trigger] covers(t[i], p) by {
            if i < pb.len() {
                assert(t[i] == pb[i]);
                if covers(pb[i], p) {
                    let j = choose|j: int| 0 <= j < s.len() && #[trigger] covers(s[j], p) && s[j].2 == pb[i].2;
                }
            } else if i > pb.len() {
                let k = i - pb.len() - 1;
                assert(t[i] == pa[k]);
                if covers(pa[k], p) {
                    let j = choose|j: int| 0 <= j < s.len() && #[trigger] covers(s[j], p) && s[j].2 == pa[k].2;
                }
            }
        }
    }
}

pub proof fn lemma_sorted_remove(s: Seq<Entry>, c: int)
    requires
        sorted_disjoint(s),
        0 <= c < s.len(),
    ensures
        sorted_disjoint(s.remove(c)),
{
    let t = s.remove(c);
    s.remove_ensures(c);
    assert forall|i: int, j: int| 0 <= i < j < t.len() implies (#[trigger] t[i]).1 <= (#[trigger] t[j]).0 by {
        let ii = if i < c { i } else { i + 1 };
        let jj = if j < c { j } else { j + 1 };
        assert(t[i] == s[ii]);
        assert(t[j] == s[jj]);
    }
    assert forall|i: int| 0 <= i < t.len() implies (#[trigger] t[i]).0 < t[i].1 by {
        let ii = if i < c { i } else { i + 1 };
        assert(t[i] == s[ii]);
    }
}

} // verus!
