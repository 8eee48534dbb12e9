//! The mathematical model of a stored interval sequence: what it covers, the
//! canonical shape it keeps, and the facts about both that the set operations use.
use vstd::prelude::*;

use crate::interval::Interval;

verus! {

/// Whether some interval of `s` covers `x`.
pub open spec fn in_seq(s: Seq<Interval>, x: int) -> bool {
    exists|k: int| 0 <= k < s.len() && #[trigger] s[k].covers(x)
}

/// The integers that the intervals of `s` cover.
pub open spec fn members(s: Seq<Interval>) -> Set<int> {
    Set::new(|x: int| in_seq(s, x))
}

/// The integers that `iv` covers.
pub open spec fn span(iv: Interval) -> Set<int> {
    Set::new(|x: int| iv.covers(x))
}

/// The shape every stored sequence keeps: each interval non-empty, sorted by start,
/// and any two separated by at least one integer that neither covers.
pub open spec fn canonical(s: Seq<Interval>) -> bool {
    &&& forall|k: int| 0 <= k < s.len() ==> (#[trigger] s[k]).a <= s[k].b
    &&& forall|k: int, l: int| 0 <= k < l < s.len() ==> (#[trigger] s[k]).b + 1 < (#[trigger] s[l]).a
}

/// What a joined sequence covers is what either part covers.
pub proof fn lemma_in_concat(p: Seq<Interval>, q: Seq<Interval>)
    ensures
        forall|x: int| #[trigger] in_seq(p + q, x) <==> (in_seq(p, x) || in_seq(q, x)),
{
    assert forall|x: int| #[trigger] in_seq(p + q, x) implies (in_seq(p, x) || in_seq(q, x)) by {
        let k = choose|k: int| 0 <= k < (p + q).len() && #[trigger] (p + q)[k].covers(x);
        if k < p.len() {
            assert(p[k] == (p + q)[k]);
        } else {
            assert(q[k - p.len()] == (p + q)[k]);
        }
    }
    assert forall|x: int| (in_seq(p, x) || in_seq(q, x)) implies #[trigger] in_seq(p + q, x) by {
        if in_seq(p, x) {
            let k = choose|k: int| 0 <= k < p.len() && #[trigger] p[k].covers(x);
            assert((p + q)[k] == p[k]);
        } else {
            let k = choose|k: int| 0 <= k < q.len() && #[trigger] q[k].covers(x);
            assert((p + q)[k + p.len()] == q[k]);
        }
    }
}

/// A sequence of one interval covers what that interval covers.
pub proof fn lemma_in_single(iv: Interval)
    ensures
        forall|x: int| #[trigger] in_seq(seq![iv], x) <==> iv.covers(x),
{
    assert forall|x: int| #[trigger] in_seq(seq![iv], x) <==> iv.covers(x) by {
        if iv.covers(x) {
            assert(seq![iv][0].covers(x));
        }
    }
}

/// Splitting a sequence at `i` and joining the pieces gives it back, and what they cover.
pub proof fn lemma_in_split(s: Seq<Interval>, i: int)
    requires
        0 <= i <= s.len(),
    ensures
        s == s.take(i) + s.skip(i),
        forall|x: int| #[trigger] in_seq(s, x) <==> (in_seq(s.take(i), x) || in_seq(s.skip(i), x)),
{
    assert(s =~= s.take(i) + s.skip(i));
    lemma_in_concat(s.take(i), s.skip(i));
}

/// Replacing `s[i]` by pieces that lie within it, and that between them keep every
/// integer of `s[i]` outside `cut`, keeps the shape and loses no integer outside `cut`.
pub proof fn lemma_replace(s: Seq<Interval>, i: int, pieces: Seq<Interval>, cut: Interval)
    requires
        canonical(s),
        canonical(pieces),
        0 <= i < s.len(),
        forall|m: int|
            0 <= m < pieces.len() ==> (#[trigger] pieces[m]).a >= s[i].a && pieces[m].b <= s[i].b,
        forall|x: int| s[i].covers(x) && !cut.covers(x) ==> in_seq(pieces, x),
    ensures
        canonical(s.take(i) + pieces + s.skip(i + 1)),
        forall|x: int| #[trigger] in_seq(s.take(i) + pieces + s.skip(i + 1), x) ==> in_seq(s, x),
        forall|x: int| in_seq(s, x) && !cut.covers(x) ==> #[trigger] in_seq(
            s.take(i) + pieces + s.skip(i + 1),
            x,
        ),
{
    let t = s.take(i) + pieces + s.skip(i + 1);
    let p = pieces.len();
    assert forall|k: int| 0 <= k < t.len() implies (#[trigger] t[k]).a <= t[k].b by {
        if k >= i + p {
            assert(t[k] == s[k - p + 1]);
        } else if k >= i {
            assert(t[k] == pieces[k - i]);
        }
    }
    assert forall|k: int, l: int| 0 <= k < l < t.len() implies (#[trigger] t[k]).b + 1 < (
    #[trigger] t[l]).a by {
        if k >= i + p {
            assert(t[k] == s[k - p + 1]);
            assert(t[l] == s[l - p + 1]);
        } else if k >= i {
            assert(t[k] == pieces[k - i]);
            if l >= i + p {
                assert(t[l] == s[l - p + 1]);
                if l - p + 1 > i {
                    assert(s[i].b + 1 < s[l - p + 1].a);
                }
            } else {
                assert(t[l] == pieces[l - i]);
            }
        } else {
            if l >= i + p {
                assert(t[l] == s[l - p + 1]);
            } else if l >= i {
                assert(t[l] == pieces[l - i]);
                assert(s[k].b + 1 < s[i].a);
            }
        }
    }
    lemma_in_concat(s.take(i) + pieces, s.skip(i + 1));
    lemma_in_concat(s.take(i), pieces);
    assert(s =~= s.take(i) + seq![s[i]] + s.skip(i + 1));
    lemma_in_concat(s.take(i) + seq![s[i]], s.skip(i + 1));
    lemma_in_concat(s.take(i), seq![s[i]]);
    lemma_in_single(s[i]);
    assert forall|x: int| #[trigger] in_seq(t, x) implies in_seq(s, x) by {
        if in_seq(pieces, x) {
            let m = choose|m: int| 0 <= m < pieces.len() && #[trigger] pieces[m].covers(x);
            assert(s[i].covers(x));
        }
    }
}

/// How many integers the intervals of `s` cover, counted interval by interval.
pub open spec fn total(s: Seq<Interval>) -> int
    decreases s.len(),
{
    if s.len() == 0 {
        0
    } else {
        total(s.drop_last()) + s.last().len_spec()
    }
}

/// The integers of `iv` in ascending order.
pub open spec fn run(iv: Interval) -> Seq<i32> {
    Seq::new(iv.len_spec() as nat, |k: int| (iv.a + k) as i32)
}

/// The integers of the intervals of `s`, interval by interval, each in ascending order.
pub open spec fn listing(s: Seq<Interval>) -> Seq<i32>
    decreases s.len(),
{
    if s.len() == 0 {
        Seq::empty()
    } else {
        listing(s.drop_last()) + run(s.last())
    }
}

/// Adding one more interval at the end adds what it covers.
pub proof fn lemma_in_push(s: Seq<Interval>, i: int)
    requires
        0 <= i < s.len(),
    ensures
        forall|x: int| #[trigger]
            in_seq(s.take(i + 1), x) <==> (in_seq(s.take(i), x) || s[i].covers(x)),
{
    assert(s.take(i + 1) =~= s.take(i) + seq![s[i]]);
    lemma_in_concat(s.take(i), seq![s[i]]);
    lemma_in_single(s[i]);
}

/// In a canonical sequence every covered integer lies at or after the first start.
proof fn lemma_first_start_is_least(s: Seq<Interval>, x: int)
    requires
        canonical(s),
        in_seq(s, x),
    ensures
        s.len() > 0,
        s[0].a <= x,
{
    let k = choose|k: int| 0 <= k < s.len() && #[trigger] s[k].covers(x);
    if k > 0 {
        assert(s[0].b + 1 < s[k].a);
    }
}

/// Past its first interval, a canonical sequence covers exactly the integers it covers
/// beyond the end of that interval.
proof fn lemma_rest_members(s: Seq<Interval>)
    requires
        canonical(s),
        s.len() > 0,
    ensures
        canonical(s.drop_first()),
        forall|x: int| #[trigger] in_seq(s.drop_first(), x) <==> (in_seq(s, x) && x > s[0].b),
{
    let t = s.drop_first();
    assert forall|k: int, l: int| 0 <= k < l < t.len() implies (#[trigger] t[k]).b + 1 < (
    #[trigger] t[l]).a by {
        assert(s[k + 1].b + 1 < s[l + 1].a);
    }
    assert(s =~= seq![s[0]] + t);
    lemma_in_concat(seq![s[0]], t);
    lemma_in_single(s[0]);
    assert forall|x: int| in_seq(t, x) implies x > s[0].b by {
        let k = choose|k: int| 0 <= k < t.len() && #[trigger] t[k].covers(x);
        assert(s[0].b + 1 < s[k + 1].a);
    }
}

/// Two canonical sequences that cover the same integers are the same sequence: the
/// stored intervals of a set are fixed by its integers.
pub proof fn lemma_canonical_unique(s: Seq<Interval>, t: Seq<Interval>)
    requires
        canonical(s),
        canonical(t),
        members(s) == members(t),
    ensures
        s == t,
    decreases s.len(),
{
    assert forall|x: int| in_seq(s, x) <==> #[trigger] in_seq(t, x) by {
        assert(members(s).contains(x) == in_seq(s, x));
        assert(members(t).contains(x) == in_seq(t, x));
    }
    if s.len() == 0 {
        if t.len() > 0 {
            assert(t[0].covers(t[0].a as int));
            assert(in_seq(t, t[0].a as int));
        }
        assert(s =~= t);
    } else {
        assert(s[0].covers(s[0].a as int));
        assert(in_seq(s, s[0].a as int));
        lemma_first_start_is_least(t, s[0].a as int);
        assert(t[0].covers(t[0].a as int));
        assert(in_seq(t, t[0].a as int));
        lemma_first_start_is_least(s, t[0].a as int);
        assert(s[0].a == t[0].a);
        if s[0].b < t[0].b {
            let x = s[0].b + 1;
            assert(t[0].covers(x));
            assert(in_seq(t, x));
            let k = choose|k: int| 0 <= k < s.len() && #[trigger] s[k].covers(x);
            if k > 0 {
                assert(s[0].b + 1 < s[k].a);
            }
        }
        if t[0].b < s[0].b {
            let x = t[0].b + 1;
            assert(s[0].covers(x));
            assert(in_seq(s, x));
            assert(in_seq(t, x));
            let k = choose|k: int| 0 <= k < t.len() && #[trigger] t[k].covers(x);
            if k > 0 {
                assert(t[0].b + 1 < t[k].a);
            }
        }
        assert(s[0] == t[0]);
        lemma_rest_members(s);
        lemma_rest_members(t);
        assert(members(s.drop_first()) =~= members(t.drop_first()));
        lemma_canonical_unique(s.drop_first(), t.drop_first());
        assert(s =~= seq![s[0]] + s.drop_first());
        assert(t =~= seq![t[0]] + t.drop_first());
    }
}

/// The canonical sequence that covers exactly `set`, where there is one.
pub open spec fn canon_of(set: Set<int>) -> Seq<Interval> {
    choose|s: Seq<Interval>| canonical(s) && members(s) == set
}

/// A canonical sequence is the canonical sequence of the integers it covers.
pub proof fn lemma_canon_of(s: Seq<Interval>)
    requires
        canonical(s),
    ensures
        canon_of(members(s)) == s,
{
    let t = canon_of(members(s));
    assert(canonical(t) && members(t) == members(s));
    lemma_canonical_unique(t, s);
}

/// The intervals of `s` as text, joined by `", "`.
pub open spec fn joined(s: Seq<Interval>) -> Seq<char>
    decreases s.len(),
{
    if s.len() == 0 {
        Seq::empty()
    } else if s.len() == 1 {
        s[0].text()
    } else {
        joined(s.drop_last()) + seq![',', ' '] + s.last().text()
    }
}

/// The text of a set: its intervals in brackets, joined by `", "`.
pub open spec fn set_text(s: Seq<Interval>) -> Seq<char> {
    seq!['['] + joined(s) + seq![']']
}

/// The stored intervals of the integers of `l` that are not in `r`.
pub open spec fn difference_seq(l: Seq<Interval>, r: Seq<Interval>) -> Seq<Interval> {
    canon_of(members(l).difference(members(r)))
}

/// The stored intervals of the complement of `s` within the universe `u`; none where
/// the universe is empty.
pub open spec fn complement_seq(s: Seq<Interval>, u: Seq<Interval>) -> Option<Seq<Interval>> {
    if u.len() == 0 {
        None
    } else {
        Some(difference_seq(u, s))
    }
}

} // verus!
