//! Laws that relate the set operations, stated over the model their contracts use.
use vstd::prelude::*;

use crate::interval::Interval;
use crate::interval_model::{
    canon_of,
    canonical,
    complement_seq,
    difference_seq,
    in_seq,
    lemma_canon_of,
    lemma_in_push,
    listing,
    members,
    run,
    span,
    total,
};

verus! {

/// Adding an interval that a stored interval already covers leaves the stored
/// intervals as they were.
pub proof fn law_add_covered_is_unchanged(s: Seq<Interval>, addition: Interval, k: int)
    requires
        canonical(s),
        0 <= k < s.len(),
        s[k].a <= addition.a,
        addition.b <= s[k].b,
    ensures
        canon_of(members(s).union(span(addition))) == s,
{
    assert forall|x: int| #[trigger] span(addition).contains(x) implies members(s).contains(x) by {
        assert(s[k].covers(x));
    }
    assert(members(s).union(span(addition)) =~= members(s));
    lemma_canon_of(s);
}

/// Adding the intervals of `a` into `b` gives the same stored intervals as adding
/// those of `b` into `a`.
pub proof fn law_union_commutes(a: Seq<Interval>, b: Seq<Interval>)
    ensures
        members(a).union(members(b)) == members(b).union(members(a)),
        canon_of(members(a).union(members(b))) == canon_of(members(b).union(members(a))),
{
    assert(members(a).union(members(b)) =~= members(b).union(members(a)));
}

/// The number of integers counted interval by interval is the length of their listing.
pub proof fn law_size_is_listing_length(s: Seq<Interval>)
    ensures
        total(s) == listing(s).len(),
    decreases s.len(),
{
    if s.len() > 0 {
        law_size_is_listing_length(s.drop_last());
    }
}

/// Within a non-empty universe, the complement of a set is the universe with the set
/// subtracted.
pub proof fn law_complement_is_subtract(s: Seq<Interval>, u: Seq<Interval>)
    requires
        u.len() > 0,
    ensures
        complement_seq(s, u) == Some(difference_seq(u, s)),
{
}

/// An integer lies in one of the intervals exactly when it occurs in their listing.
pub proof fn law_contains_matches_listing(s: Seq<Interval>, x: i32)
    ensures
        members(s).contains(x as int) <==> listing(s).contains(x),
    decreases s.len(),
{
    if s.len() > 0 {
        let n = s.len() - 1;
        let last = s[n];
        law_contains_matches_listing(s.drop_last(), x);
        lemma_in_push(s, n);
        assert(s.take(n) =~= s.drop_last());
        assert(s.take(n + 1) =~= s);
        let l0 = listing(s.drop_last());
        let r = run(last);
        assert(listing(s) == l0 + r);
        if last.covers(x as int) {
            let k = x - last.a;
            assert(r[k] == x);
            assert((l0 + r)[l0.len() + k] == x);
        }
        if l0.contains(x) {
            let i = choose|i: int| 0 <= i < l0.len() && l0[i] == x;
            assert((l0 + r)[i] == x);
        }
        if listing(s).contains(x) {
            let i = choose|i: int| 0 <= i < listing(s).len() && listing(s)[i] == x;
            if i >= l0.len() {
                assert(r[i - l0.len()] == x);
                assert(last.covers(x as int));
            } else {
                assert(l0[i] == x);
            }
        }
        assert(members(s).contains(x as int) == in_seq(s, x as int));
        assert(members(s.drop_last()).contains(x as int) == in_seq(s.drop_last(), x as int));
        assert(in_seq(s, x as int) <==> (in_seq(s.drop_last(), x as int) || last.covers(x as int)));
        assert(listing(s).contains(x) <==> (l0.contains(x) || last.covers(x as int)));
    } else {
        assert(members(s).contains(x as int) == in_seq(s, x as int));
        assert(listing(s) =~= Seq::<i32>::empty());
    }
}

} // verus!
