use vstd::prelude::*;

use crate::interval::Interval;
use crate::interval_model::{
    in_seq,
    members,
    span,
    canonical,
    lemma_in_concat,
    lemma_in_single,
    lemma_in_split,
    lemma_replace,
    total,
    run,
    listing,
    lemma_in_push,
    canon_of,
    lemma_canon_of,
    joined,
    set_text,
    difference_seq,
    complement_seq,
};
use crate::token::TokenType;

verus! {

/// An ordered sequence of non-overlapping, non-adjacent closed intervals: a set of integers.
///
/// A frozen set refuses every change to its intervals.
pub struct IntervalSet {
    intervals: Vec<Interval>,
    read_only: bool,
}

/// The failure of a change to a frozen set.
#[derive(Debug, Clone, Copy, PartialEq, Eq, Structural)]
pub enum IntervalSetError {
    CantAlterReadOnly,
}

impl View for IntervalSet {
    type V = Seq<Interval>;

    closed spec fn view(&self) -> Seq<Interval> {
        self.intervals@
    }
}

impl IntervalSet {
    /// Whether the set is frozen.
    pub closed spec fn frozen(&self) -> bool {
        self.read_only
    }

    pub open spec fn wf(&self) -> bool {
        canonical(self@)
    }

    /// The integers in the set.
    pub open spec fn elements(&self) -> Set<int> {
        members(self@)
    }

    pub fn new() -> (r: IntervalSet)
        ensures
            r@ == Seq::<Interval>::empty(),
            r.wf(),
            !r.frozen(),
    {
        IntervalSet { intervals: Vec::new(), read_only: false }
    }

    /// A set of the integers that the given intervals cover, built by adding them one
    /// by one. Given intervals that already keep the stored shape, it holds them as
    /// they are.
    pub fn new_from_intervals(ivs: Vec<Interval>) -> (r: IntervalSet)
        ensures
            r.wf(),
            !r.frozen(),
            r.elements() == members(ivs@),
            r@ == canon_of(members(ivs@)),
            canonical(ivs@) ==> r@ == ivs@,
    {
        let mut set = IntervalSet::new();
        let n = ivs.len();
        let mut i: usize = 0;
        while i < n
            invariant
                n == ivs@.len(),
                i <= n,
                set.wf(),
                !set.frozen(),
                set.elements() == members(ivs@.take(i as int)),
                canonical(ivs@) ==> set@ == ivs@.take(i as int),
            decreases n - i,
        {
            let ghost before = set@;
            let iv = ivs[i];
            let _ = set.add(iv);
            proof {
                let t = ivs@.take(i as int + 1);
                assert(t =~= ivs@.take(i as int) + seq![iv]);
                lemma_in_concat(ivs@.take(i as int), seq![iv]);
                lemma_in_single(iv);
                assert(members(t) =~= members(ivs@.take(i as int)).union(span(iv)));
                if canonical(ivs@) {
                    assert forall|k: int| 0 <= k < before.len() implies before[k].b + 1
                        < iv.a by {
                        assert(before[k] == ivs@[k]);
                    }
                    assert(iv.nonempty());
                }
            }
            i += 1;
        }
        proof {
            assert(ivs@.take(n as int) =~= ivs@);
            lemma_canon_of(set@);
        }
        set
    }

    /// Adds the integers of `addition`.
    ///
    /// An interval that touches or overlaps a stored one is merged with it and with
    /// every following one that the merged interval then reaches; otherwise it is
    /// placed before the first stored interval that starts after it, or at the end.
    pub fn add(&mut self, addition: Interval) -> (r: Result<(), IntervalSetError>)
        requires
            old(self).wf(),
        ensures
            final(self).wf(),
            final(self).frozen() == old(self).frozen(),
            old(self).frozen() ==> r == Err::<(), IntervalSetError>(
                IntervalSetError::CantAlterReadOnly,
            ) && final(self)@ == old(self)@,
            !old(self).frozen() ==> r == Ok::<(), IntervalSetError>(()) && final(self).elements()
                == old(self).elements().union(span(addition)) && final(self)@ == canon_of(
                old(self).elements().union(span(addition)),
            ),
            !old(self).frozen() && addition.nonempty() && (forall|k: int|
                0 <= k < old(self)@.len() ==> (#[trigger] old(self)@[k]).b + 1 < addition.a)
                ==> final(self)@ == old(self)@.push(addition),
    {
        if self.read_only {
            return Err(IntervalSetError::CantAlterReadOnly);
        }
        if addition.b < addition.a {
            proof {
                assert(span(addition) =~= Set::<int>::empty());
                assert(self.elements().union(span(addition)) =~= self.elements());
                lemma_canon_of(self@);
            }
            return Ok(());
        }
        let ghost s0 = self.intervals@;
        let n = self.intervals.len();
        let mut index: usize = 0;
        while index < n
            invariant
                self.intervals@ == s0,
                n == s0.len(),
                canonical(s0),
                index <= n,
                addition.nonempty(),
                !self.read_only,
                !old(self).read_only,
                s0 == old(self)@,
                forall|k: int| 0 <= k < index ==> (#[trigger] s0[k]).b + 1 < addition.a,
            decreases n - index,
        {
            let r = self.intervals[index];
            if addition == r {
                proof {
                    assert forall|x: int| addition.covers(x) implies in_seq(s0, x) by {
                        assert(s0[index as int].covers(x));
                    }
                    assert(self.elements().union(span(addition)) =~= self.elements());
                }
                proof {
                    lemma_canon_of(self@);
                }
                return Ok(());
            }
            if addition.adjacent(&r) || !addition.disjoint(&r) {
                self.merge_at(index, addition);
                proof {
                    lemma_canon_of(self@);
                }
                return Ok(());
            }
            if addition.starts_before_disjoint(&r) {
                self.intervals.insert(index, addition);
                proof {
                    let i = index as int;
                    let s1 = self.intervals@;
                    assert(s1 =~= s0.take(i) + seq![addition] + s0.skip(i));
                    lemma_in_split(s0, i);
                    lemma_in_concat(s0.take(i) + seq![addition], s0.skip(i));
                    lemma_in_concat(s0.take(i), seq![addition]);
                    lemma_in_single(addition);
                    assert(self.elements() =~= members(s0).union(span(addition)));
                    assert forall|k: int, l: int| 0 <= k < l < s1.len() implies (#[trigger] s1[k]).b
                        + 1 < (#[trigger] s1[l]).a by {
                        if l > i && k != i {
                            let kk = if k < i { k } else { k - 1 };
                            assert(s0[kk].b + 1 < s0[l - 1].a);
                        } else if l > i && l > i + 1 {
                            assert(s0[i].b + 1 < s0[l - 1].a);
                        }
                    }
                }
                proof {
                    lemma_canon_of(self@);
                }
                return Ok(());
            }
            index += 1;
        }
        self.intervals.push(addition);
        proof {
            let s1 = self.intervals@;
            lemma_in_concat(s0, seq![addition]);
            lemma_in_single(addition);
            assert(s1 =~= s0 + seq![addition]);
            assert(self.elements() =~= members(s0).union(span(addition)));
            lemma_canon_of(self@);
        }
        Ok(())
    }

    /// Replaces `self@[index]`, which `addition` overlaps or touches, by the union of
    /// the two, then absorbs each following interval that the union reaches.
    #[verifier::rlimit(40)]
    fn merge_at(&mut self, index: usize, addition: Interval)
        requires
            canonical(old(self)@),
            index < old(self)@.len(),
            addition.nonempty(),
            forall|k: int| 0 <= k < index ==> (#[trigger] old(self)@[k]).b + 1 < addition.a,
            addition.b + 1 >= old(self)@[index as int].a,
            old(self)@[index as int].b + 1 >= addition.a,
        ensures
            canonical(final(self)@),
            final(self).frozen() == old(self).frozen(),
            final(self).elements() == old(self).elements().union(span(addition)),
    {
        let ghost s0 = self.intervals@;
        let ghost i = index as int;
        let first = self.intervals[index];
        let mut merged = addition.union(&first);
        self.intervals.set(index, merged);
        let ghost mut j: int = i + 1;
        proof {
            lemma_in_single(first);
            assert(s0.subrange(i, j) =~= seq![first]);
            assert(self.intervals@ =~= s0.take(i) + seq![merged] + s0.skip(j));
        }
        while index + 1 < self.intervals.len()
            invariant
                canonical(s0),
                0 <= i < j <= s0.len(),
                i == index,
                self.intervals@ == s0.take(i) + seq![merged] + s0.skip(j),
                self.read_only == old(self).read_only,
                merged.a == (if addition.a <= s0[i].a { addition.a } else { s0[i].a }),
                merged.b >= s0[j - 1].b,
                merged.nonempty(),
                forall|x: int| #[trigger]
                    merged.covers(x) <==> (addition.covers(x) || in_seq(s0.subrange(i, j), x)),
            ensures
                0 <= i < j <= s0.len(),
                self.intervals@ == s0.take(i) + seq![merged] + s0.skip(j),
                self.read_only == old(self).read_only,
                merged.a == (if addition.a <= s0[i].a { addition.a } else { s0[i].a }),
                merged.nonempty(),
                forall|x: int| #[trigger]
                    merged.covers(x) <==> (addition.covers(x) || in_seq(s0.subrange(i, j), x)),
                j < s0.len() ==> merged.b + 1 < s0[j].a,
            decreases self.intervals.len(),
        {
            let next = self.intervals[index + 1];
            proof {
                assert(next == s0[j]);
            }
            if !merged.adjacent(&next) && merged.disjoint(&next) {
                break;
            }
            let bigger = merged.union(&next);
            self.intervals.remove(index + 1);
            self.intervals.set(index, bigger);
            proof {
                assert(s0[j - 1].b + 1 < s0[j].a);
                assert(s0.subrange(i, j + 1) =~= s0.subrange(i, j) + seq![next]);
                lemma_in_concat(s0.subrange(i, j), seq![next]);
                lemma_in_single(next);
                assert(self.intervals@ =~= s0.take(i) + seq![bigger] + s0.skip(j + 1));
                j = j + 1;
            }
            merged = bigger;
        }
        proof {
            let s1 = self.intervals@;
            assert(j < s0.len() ==> merged.b + 1 < s0[j].a);
            assert(s0 =~= s0.take(i) + s0.subrange(i, j) + s0.skip(j));
            lemma_in_concat(s0.take(i) + s0.subrange(i, j), s0.skip(j));
            lemma_in_concat(s0.take(i), s0.subrange(i, j));
            lemma_in_concat(s0.take(i) + seq![merged], s0.skip(j));
            lemma_in_concat(s0.take(i), seq![merged]);
            lemma_in_single(merged);
            assert(self.elements() =~= members(s0).union(span(addition)));
            assert forall|k: int| 0 <= k < s1.len() implies (#[trigger] s1[k]).a <= s1[k].b by {
                if k > i {
                    assert(s1[k] == s0[k - i - 1 + j]);
                }
            }
            assert forall|k: int, l: int| 0 <= k < l < s1.len() implies (#[trigger] s1[k]).b + 1 < (
            #[trigger] s1[l]).a by {
                if l > i {
                    let ll = l - i - 1 + j;
                    assert(s1[l] == s0[ll]);
                    if ll > j {
                        assert(s0[j].b + 1 < s0[ll].a);
                    }
                    if k < i {
                        assert(s0[k].b + 1 < s0[ll].a);
                    } else if k > i {
                        assert(s1[k] == s0[k - i - 1 + j]);
                    }
                } else if l == i {
                    assert(s0[k].b + 1 < s0[i].a);
                }
            }
        }
    }
}

impl IntervalSet {
    /// The text of the set, as `set_text` gives it, such as `[1..4, 6, 10..12]`.
    pub fn string(&self) -> (r: String)
        ensures
            r@ == set_text(self@),
    {
        let ghost s = self@;
        proof {
            reveal_strlit("[");
            reveal_strlit("]");
            reveal_strlit(", ");
        }
        let mut out = String::from_str("[");
        let n = self.intervals.len();
        let mut i: usize = 0;
        while i < n
            invariant
                s == self@,
                n == s.len(),
                i <= n,
                out@ == seq!['['] + joined(s.take(i as int)),
            decreases n - i,
        {
            let ghost before = out@;
            if i > 0 {
                proof {
                    reveal_strlit(", ");
                }
                out.append(", ");
                assert(out@ =~= before + seq![',', ' ']);
            }
            let ghost mid = out@;
            let piece = self.intervals[i].string();
            out.append(piece.as_str());
            proof {
                let t = s.take(i as int + 1);
                assert(t.drop_last() =~= s.take(i as int));
                assert(t.last() == s[i as int]);
                if i == 0 {
                    assert(joined(s.take(0)) =~= Seq::<char>::empty());
                    assert(out@ =~= seq!['['] + joined(t));
                } else {
                    assert(joined(t) == joined(s.take(i as int)) + seq![',', ' '] + s[i as int].text());
                    assert(out@ =~= mid + piece@);
                    assert(out@ =~= seq!['['] + joined(t));
                }
            }
            i += 1;
        }
        out.append("]");
        proof {
            assert(s.take(n as int) =~= s);
        }
        out
    }

    /// The stored intervals, in ascending order.
    pub fn intervals(&self) -> (r: &[Interval])
        ensures
            r@ == self@,
    {
        self.intervals.as_slice()
    }

    /// Adds the range `a..=b`, as `add` does, and hands the set back for more.
    /// A frozen set is handed back unchanged.
    pub fn of(&mut self, a: i32, b: i32) -> (r: &mut IntervalSet)
        requires
            old(self).wf(),
        ensures
            r.wf(),
            r.frozen() == old(self).frozen(),
            old(self).frozen() ==> r@ == old(self)@,
            !old(self).frozen() ==> r.elements() == old(self).elements().union(
                span(Interval { a, b }),
            ) && r@ == canon_of(old(self).elements().union(span(Interval { a, b }))),
            *final(self) == *final(r),
    {
        let _ = self.add(Interval::new(a, b));
        self
    }

    /// Adds the single integer `a`, as `add` does. A frozen set stays unchanged.
    pub fn of_same(&mut self, a: i32)
        requires
            old(self).wf(),
        ensures
            final(self).wf(),
            final(self).frozen() == old(self).frozen(),
            old(self).frozen() ==> final(self)@ == old(self)@,
            !old(self).frozen() ==> final(self).elements() == old(self).elements().insert(a as int)
                && final(self)@ == canon_of(old(self).elements().insert(a as int)),
    {
        let _ = self.add(Interval::new(a, a));
        proof {
            assert(old(self).elements().union(span(Interval { a, b: a })) =~= old(
                self,
            ).elements().insert(a as int));
        }
    }

    /// Removes every interval; refused on a frozen set.
    pub fn clear(&mut self) -> (r: Result<(), &str>)
        requires
            old(self).wf(),
        ensures
            final(self).wf(),
            final(self).frozen() == old(self).frozen(),
            old(self).frozen() ==> r.is_err() && final(self)@ == old(self)@,
            !old(self).frozen() ==> r.is_ok() && final(self)@ == Seq::<Interval>::empty(),
    {
        if self.read_only {
            Err("can't alter readonly IntervalSet")
        } else {
            self.intervals.clear();
            Ok(())
        }
    }

    pub fn is_empty(&self) -> (r: bool)
        requires
            self.wf(),
        ensures
            r == (self@.len() == 0),
            r == (self.elements() == Set::<int>::empty()),
    {
        proof {
            if self@.len() > 0 {
                assert(self@[0].covers(self@[0].a as int));
                assert(self.elements().contains(self@[0].a as int));
            } else {
                assert(self.elements() =~= Set::<int>::empty());
            }
        }
        self.intervals.len() == 0
    }

    /// The least integer of the set; `InvalidType` for an empty set.
    pub fn first(&self) -> (r: Result<i32, TokenType>)
        requires
            self.wf(),
        ensures
            self@.len() == 0 ==> r == Err::<i32, TokenType>(TokenType::InvalidType),
            self@.len() > 0 ==> r == Ok::<i32, TokenType>(self@[0].a),
            r.is_ok() ==> self.elements().contains(r.unwrap() as int) && forall|x: int|
                #[trigger] self.elements().contains(x) ==> r.unwrap() <= x,
    {
        if self.intervals.len() == 0 {
            return Err(TokenType::InvalidType);
        }
        proof {
            self.lemma_bounds();
        }
        Ok(self.intervals[0].a)
    }

    /// In a non-empty set the first start is the least integer and the last end the
    /// greatest.
    proof fn lemma_bounds(&self)
        requires
            self.wf(),
            self@.len() > 0,
        ensures
            self.elements().contains(self@[0].a as int),
            self.elements().contains(self@.last().b as int),
            forall|x: int| #[trigger]
                self.elements().contains(x) ==> self@[0].a <= x <= self@.last().b,
    {
        let s = self@;
        let n = s.len() - 1;
        assert(s[0].covers(s[0].a as int));
        assert(s[n].covers(s[n].b as int));
        assert forall|x: int| #[trigger] self.elements().contains(x) implies s[0].a <= x <= s.last().b by {
            let k = choose|k: int| 0 <= k < s.len() && #[trigger] s[k].covers(x);
            if k > 0 {
                assert(s[0].b + 1 < s[k].a);
            }
            if k < n {
                assert(s[k].b + 1 < s[n].a);
            }
        }
    }

    /// Adds every interval of `iset`, in order, as `add` does; refused on a frozen set.
    pub fn add_set(&mut self, iset: &IntervalSet) -> (r: Result<(), IntervalSetError>)
        requires
            old(self).wf(),
            iset.wf(),
        ensures
            final(self).wf(),
            final(self).frozen() == old(self).frozen(),
            old(self).frozen() ==> r == Err::<(), IntervalSetError>(
                IntervalSetError::CantAlterReadOnly,
            ) && final(self)@ == old(self)@,
            !old(self).frozen() ==> r == Ok::<(), IntervalSetError>(()) && final(self).elements()
                == old(self).elements().union(iset.elements()) && final(self)@ == canon_of(
                old(self).elements().union(iset.elements()),
            ),
    {
        if self.read_only {
            return Err(IntervalSetError::CantAlterReadOnly);
        }
        let ghost src = iset@;
        let n = iset.intervals.len();
        let mut i: usize = 0;
        while i < n
            invariant
                src == iset@,
                n == src.len(),
                i <= n,
                self.wf(),
                !self.read_only,
                !old(self).read_only,
                self.elements() == old(self).elements().union(members(src.take(i as int))),
            decreases n - i,
        {
            let _ = self.add(iset.intervals[i]);
            proof {
                let t = src.take(i as int + 1);
                assert(t =~= src.take(i as int) + seq![src[i as int]]);
                lemma_in_concat(src.take(i as int), seq![src[i as int]]);
                lemma_in_single(src[i as int]);
                assert(self.elements() =~= old(self).elements().union(members(t)));
            }
            i += 1;
        }
        proof {
            assert(src.take(n as int) =~= src);
            lemma_canon_of(self@);
        }
        Ok(())
    }

    /// The complement of `self` within the universe `[a, b]`; `None` where `b < a`.
    pub fn complement_range(&self, a: i32, b: i32) -> (r: Option<IntervalSet>)
        requires
            self.wf(),
        ensures
            b < a ==> r.is_none(),
            a <= b ==> r.is_some() && r.unwrap().wf() && !r.unwrap().frozen()
                && r.unwrap().elements() == span(Interval { a, b }).difference(self.elements())
                && r.unwrap()@ == canon_of(span(Interval { a, b }).difference(self.elements())),
    {
        let mut universe = IntervalSet::new();
        universe.of(a, b);
        proof {
            lemma_in_single(Interval { a, b });
            assert(universe.elements() =~= span(Interval { a, b }));
            if b < a {
                assert(universe@.len() == 0 || universe@[0].covers(universe@[0].a as int));
                assert(universe@.len() == 0 || universe.elements().contains(universe@[0].a as int));
            } else {
                assert(universe.elements().contains(a as int));
            }
        }
        self.complement(&universe)
    }

    /// The integers of `vocab` that are not in `self`; `None` where `vocab` is empty,
    /// since a complement needs a universe.
    pub fn complement(&self, vocab: &IntervalSet) -> (r: Option<IntervalSet>)
        requires
            self.wf(),
            vocab.wf(),
        ensures
            vocab@.len() == 0 ==> r.is_none(),
            vocab@.len() > 0 ==> r.is_some() && r.unwrap().wf() && !r.unwrap().frozen()
                && r.unwrap().elements() == vocab.elements().difference(self.elements()),
            r.is_some() ==> Some(r.unwrap()@) == complement_seq(self@, vocab@),
    {
        if vocab.is_empty() {
            None
        } else {
            Some(vocab.subtract(self))
        }
    }

    /// The integers of `self` that are not in `other`, as a new set.
    pub fn subtract(&self, other: &IntervalSet) -> (r: IntervalSet)
        requires
            self.wf(),
            other.wf(),
        ensures
            r.wf(),
            !r.frozen(),
            r.elements() == self.elements().difference(other.elements()),
            r@ == difference_seq(self@, other@),
    {
        let r = subtract_intervalsets(self, other);
        proof {
            lemma_canon_of(r@);
        }
        r
    }

    /// The integers in both `self` and `other`, as a new set; `None` where `other` is.
    pub fn and(&self, other: &Option<&IntervalSet>) -> (r: Option<IntervalSet>)
        requires
            self.wf(),
            other.is_some() ==> other.unwrap().wf(),
        ensures
            other.is_none() ==> r.is_none(),
            other.is_some() ==> r.is_some() && r.unwrap().wf() && !r.unwrap().frozen()
                && r.unwrap().elements() == self.elements().intersect(other.unwrap().elements())
                && r.unwrap()@ == canon_of(self.elements().intersect(other.unwrap().elements())),
    {
        match other {
            Some(o) => {
                let r = intersect_sets(self, o);
                proof {
                    lemma_canon_of(r@);
                }
                Some(r)
            },
            None => None,
        }
    }

    /// Whether `el` is in the set, by binary search over the stored intervals.
    pub fn contains(&self, el: i32) -> (r: bool)
        requires
            self.wf(),
        ensures
            r == self.elements().contains(el as int),
    {
        let ghost s = self@;
        let mut lo: usize = 0;
        let mut hi: usize = self.intervals.len();
        while lo < hi
            invariant
                s == self@,
                canonical(s),
                lo <= hi <= s.len(),
                forall|k: int| 0 <= k < lo ==> (#[trigger] s[k]).b < el,
                forall|k: int| hi <= k < s.len() ==> (#[trigger] s[k]).a > el,
            decreases hi - lo,
        {
            let m = lo + (hi - lo) / 2;
            let iv = self.intervals[m];
            if iv.b < el {
                proof {
                    assert forall|k: int| 0 <= k <= m implies (#[trigger] s[k]).b < el by {
                        if k < m {
                            assert(s[k].b + 1 < s[m as int].a);
                        }
                    }
                }
                lo = m + 1;
            } else if iv.a > el {
                proof {
                    assert forall|k: int| m <= k < s.len() implies (#[trigger] s[k]).a > el by {
                        if k > m {
                            assert(s[m as int].b + 1 < s[k].a);
                        }
                    }
                }
                hi = m;
            } else {
                proof {
                    assert(s[m as int].covers(el as int));
                }
                return true;
            }
        }
        proof {
            if self.elements().contains(el as int) {
                let k = choose|k: int| 0 <= k < s.len() && #[trigger] s[k].covers(el as int);
                assert(k < lo || k >= hi);
            }
        }
        false
    }

    /// The greatest integer of the set, if any.
    pub fn get_max_element(&self) -> (r: Option<i32>)
        requires
            self.wf(),
        ensures
            self@.len() == 0 ==> r.is_none(),
            self@.len() > 0 ==> r == Some(self@.last().b),
            r.is_some() ==> self.elements().contains(r.unwrap() as int) && forall|x: int|
                #[trigger] self.elements().contains(x) ==> x <= r.unwrap(),
    {
        let n = self.intervals.len();
        if n == 0 {
            None
        } else {
            proof {
                self.lemma_bounds();
            }
            Some(self.intervals[n - 1].b)
        }
    }

    /// The least integer of the set, if any.
    pub fn get_min_element(&self) -> (r: Option<i32>)
        requires
            self.wf(),
        ensures
            self@.len() == 0 ==> r.is_none(),
            self@.len() > 0 ==> r == Some(self@[0].a),
            r.is_some() ==> self.elements().contains(r.unwrap() as int) && forall|x: int|
                #[trigger] self.elements().contains(x) ==> r.unwrap() <= x,
    {
        if self.intervals.len() == 0 {
            None
        } else {
            proof {
                self.lemma_bounds();
            }
            Some(self.intervals[0].a)
        }
    }

    /// The number of integers in the set.
    pub fn size(&self) -> (r: i64)
        requires
            self.wf(),
        ensures
            r == total(self@),
    {
        let ghost s = self@;
        let num_intervals = self.intervals.len();
        if num_intervals == 1 {
            proof {
                assert(s.drop_last() =~= Seq::<Interval>::empty());
                assert(total(s.drop_last()) == 0);
                assert(s.last() == s[0]);
            }
            return self.intervals[0].length();
        }
        let mut n: i64 = 0;
        let mut i: usize = 0;
        while i < num_intervals
            invariant
                s == self@,
                canonical(s),
                num_intervals == s.len(),
                i <= num_intervals,
                n == total(s.take(i as int)),
                i > 0 ==> n <= s[i - 1].b - s[0].a + 1,
                n >= 0,
            decreases num_intervals - i,
        {
            let ival = self.intervals[i];
            proof {
                assert(s.take(i as int + 1).drop_last() =~= s.take(i as int));
                assert(s.take(i as int + 1).last() == ival);
                if i > 0 {
                    assert(s[i - 1].b + 1 < s[i as int].a);
                    assert(s[0].a <= s[i - 1].a);
                }
            }
            n = n + ival.length();
            i += 1;
        }
        proof {
            assert(s.take(i as int) =~= s);
        }
        n
    }

    /// Every integer of the set in ascending order.
    pub fn to_integer_list(&self) -> (r: Vec<i32>)
        requires
            self.wf(),
        ensures
            r@ == listing(self@),
    {
        let ghost s = self@;
        let mut values: Vec<i32> = Vec::new();
        let n = self.intervals.len();
        let mut i: usize = 0;
        while i < n
            invariant
                s == self@,
                canonical(s),
                n == s.len(),
                i <= n,
                values@ == listing(s.take(i as int)),
            decreases n - i,
        {
            let ival = self.intervals[i];
            let mut v: i64 = ival.a as i64;
            let ghost before = values@;
            proof {
                assert(ival.a <= ival.b);
            }
            while v <= ival.b as i64
                invariant
                    ival.a <= v <= ival.b as i64 + 1,
                    ival.a <= ival.b,
                    values@ == before + run(ival).take(v - ival.a),
                decreases ival.b as i64 + 1 - v,
            {
                values.push(v as i32);
                proof {
                    assert(run(ival).take(v + 1 - ival.a) =~= run(ival).take(v - ival.a) + seq![
                        v as i32,
                    ]);
                }
                v = v + 1;
            }
            proof {
                assert(run(ival).take(v - ival.a) =~= run(ival));
                assert(s.take(i as int + 1).drop_last() =~= s.take(i as int));
                assert(s.take(i as int + 1).last() == ival);
            }
            i += 1;
        }
        proof {
            assert(s.take(i as int) =~= s);
        }
        values
    }

    /// Takes the integer `el` out of the set; refused on a frozen set.
    pub fn remove(&mut self, el: i32) -> (r: Result<(), IntervalSetError>)
        requires
            old(self).wf(),
        ensures
            final(self).wf(),
            final(self).frozen() == old(self).frozen(),
            old(self).frozen() ==> r == Err::<(), IntervalSetError>(
                IntervalSetError::CantAlterReadOnly,
            ) && final(self)@ == old(self)@,
            !old(self).frozen() ==> r == Ok::<(), IntervalSetError>(()) && final(self).elements()
                == old(self).elements().remove(el as int) && final(self)@ == canon_of(
                old(self).elements().remove(el as int),
            ),
    {
        if self.read_only {
            return Err(IntervalSetError::CantAlterReadOnly);
        }
        let single = IntervalSet { intervals: vec![Interval::new(el, el)], read_only: false };
        proof {
            lemma_in_single(Interval { a: el, b: el });
            assert(single@ =~= seq![Interval { a: el, b: el }]);
        }
        let rest = subtract_intervalsets(self, &single);
        self.intervals = rest.intervals;
        proof {
            assert(self.elements() =~= old(self).elements().remove(el as int));
            lemma_canon_of(self@);
        }
        Ok(())
    }

    /// Freezes or keeps the set frozen. A frozen set cannot be thawed: `v` must be true
    /// once the set is frozen.
    pub fn set_read_only(&mut self, v: bool)
        requires
            !(old(self).frozen() && !v),
        ensures
            final(self).frozen() == v,
            final(self)@ == old(self)@,
    {
        self.read_only = v;
    }
}

/// A copy of the intervals of `v`.
fn copy_intervals(v: &Vec<Interval>) -> (r: Vec<Interval>)
    ensures
        r@ == v@,
{
    let mut r: Vec<Interval> = Vec::new();
    let mut i: usize = 0;
    while i < v.len()
        invariant
            i <= v.len(),
            r@ == v@.take(i as int),
        decreases v.len() - i,
    {
        r.push(v[i]);
        i += 1;
        proof {
            assert(r@ =~= v@.take(i as int));
        }
    }
    proof {
        assert(v@.take(i as int) =~= v@);
    }
    r
}

/// The integers of `left` that are not in `right`, as a new set.
///
/// Walks a working copy of `left` against `right`. Where an interval of `right` cuts
/// into the current one, what is left of it replaces it: two pieces where the cut lies
/// strictly inside, one where it takes an end, none where it covers it all.
pub fn subtract_intervalsets(left: &IntervalSet, right: &IntervalSet) -> (r: IntervalSet)
    requires
        left.wf(),
        right.wf(),
    ensures
        r.wf(),
        !r.frozen(),
        r.elements() == left.elements().difference(right.elements()),
        r@ == difference_seq(left@, right@),
{
    let ghost lv = left@;
    let ghost rv = right@;
    if left.intervals.len() == 0 {
        let r = IntervalSet::new();
        proof {
            assert(r.elements() =~= left.elements().difference(right.elements()));
            lemma_canon_of(r@);
        }
        return r;
    }
    let mut res = copy_intervals(&left.intervals);
    let rn = right.intervals.len();
    let mut ri: usize = 0;
    let mut rj: usize = 0;
    while ri < res.len() && rj < rn
        invariant
            rn == rv.len(),
            rv == right@,
            canonical(rv),
            canonical(res@),
            ri <= res@.len(),
            rj <= rn,
            forall|k: int, l: int|
                0 <= k < ri && 0 <= l < rn ==> (#[trigger] res@[k]).b < (#[trigger] rv[l]).a
                    || rv[l].b < res@[k].a,
            forall|k: int, l: int|
                ri <= k < res@.len() && 0 <= l < rj ==> (#[trigger] rv[l]).b < (
                #[trigger] res@[k]).a,
            forall|x: int| #[trigger] in_seq(res@, x) ==> in_seq(lv, x),
            forall|x: int| in_seq(lv, x) && !in_seq(rv, x) ==> #[trigger] in_seq(res@, x),
        decreases res@.len() - ri + rn - rj,
    {
        let cur = res[ri];
        let cut = right.intervals[rj];
        let ghost s = res@;
        let ghost i = ri as int;
        let ghost j = rj as int;
        proof {
            assert forall|l: int| j < l < rn implies cut.b + 1 < #[trigger] rv[l].a by {
                assert(rv[j].b + 1 < rv[l].a);
            }
            assert forall|k: int| i < k < s.len() implies cur.b + 1 < #[trigger] s[k].a by {
                assert(s[i].b + 1 < s[k].a);
            }
        }
        if cut.b < cur.a {
            rj += 1;
        } else if cut.a > cur.b {
            ri += 1;
        } else if cut.a > cur.a && cut.b < cur.b {
            // the cut lies strictly inside: keep the pieces on both sides of it
            let before = Interval::new(cur.a, cut.a - 1);
            let after = Interval::new(cut.b + 1, cur.b);
            res.set(ri, before);
            res.insert(ri + 1, after);
            proof {
                let pieces = seq![before, after];
                assert(res@ =~= s.take(i) + pieces + s.skip(i + 1));
                assert forall|x: int| s[i].covers(x) && !cut.covers(x) implies in_seq(pieces, x) by {
                    if x < cut.a {
                        assert(pieces[0].covers(x));
                    } else {
                        assert(pieces[1].covers(x));
                    }
                }
                lemma_replace(s, i, pieces, cut);
            }
            // the piece after the cut starts past it, so both cursors move on
            ri += 1;
            rj += 1;
        } else if cut.a > cur.a {
            let before = Interval::new(cur.a, cut.a - 1);
            res.set(ri, before);
            proof {
                let pieces = seq![before];
                assert(res@ =~= s.take(i) + pieces + s.skip(i + 1));
                assert forall|x: int| s[i].covers(x) && !cut.covers(x) implies in_seq(pieces, x) by {
                    assert(pieces[0].covers(x));
                }
                lemma_replace(s, i, pieces, cut);
            }
            ri += 1;
        } else if cut.b < cur.b {
            let after = Interval::new(cut.b + 1, cur.b);
            res.set(ri, after);
            proof {
                let pieces = seq![after];
                assert(res@ =~= s.take(i) + pieces + s.skip(i + 1));
                assert forall|x: int| s[i].covers(x) && !cut.covers(x) implies in_seq(pieces, x) by {
                    assert(pieces[0].covers(x));
                }
                lemma_replace(s, i, pieces, cut);
            }
            rj += 1;
        } else {
            // the cut covers the whole interval: drop it, and the next one slides in
            res.remove(ri);
            proof {
                let pieces = Seq::<Interval>::empty();
                assert(res@ =~= s.take(i) + pieces + s.skip(i + 1));
                lemma_replace(s, i, pieces, cut);
            }
        }
        proof {
            assert forall|x: int| in_seq(lv, x) && !in_seq(rv, x) implies #[trigger] in_seq(res@, x) by {
                assert(in_seq(s, x));
                if cut.covers(x) {
                    assert(rv[j].covers(x));
                }
            }
        }
    }
    let r = IntervalSet { intervals: res, read_only: false };
    proof {
        assert forall|x: int| #[trigger] in_seq(r@, x) implies !in_seq(rv, x) by {
            let k = choose|k: int| 0 <= k < r@.len() && #[trigger] r@[k].covers(x);
            if in_seq(rv, x) {
                let l = choose|l: int| 0 <= l < rv.len() && #[trigger] rv[l].covers(x);
                assert(r@[k].b < rv[l].a || rv[l].b < r@[k].a);
            }
        }
        assert(r.elements() =~= left.elements().difference(right.elements()));
        lemma_canon_of(r@);
    }
    r
}

/// The integers in both `x` and `y`, by a two-cursor walk over their intervals.
///
/// Where the current intervals overlap, their common part is emitted and the cursor of
/// the one that ends first moves on. The parts come out sorted and apart, so they are
/// stored as they come.
fn intersect_sets(x: &IntervalSet, y: &IntervalSet) -> (r: IntervalSet)
    requires
        x.wf(),
        y.wf(),
    ensures
        r.wf(),
        !r.frozen(),
        r.elements() == x.elements().intersect(y.elements()),
{
    let ghost a = x@;
    let ghost b = y@;
    let mut res: Vec<Interval> = Vec::new();
    let my_size = x.intervals.len();
    let their_size = y.intervals.len();
    let mut i: usize = 0;
    let mut j: usize = 0;
    while i < my_size && j < their_size
        invariant
            a == x@,
            b == y@,
            my_size == a.len(),
            their_size == b.len(),
            canonical(a),
            canonical(b),
            canonical(res@),
            i <= my_size,
            j <= their_size,
            forall|v: int| #[trigger]
                in_seq(res@, v) <==> (in_seq(a, v) && in_seq(b, v) && (in_seq(a.take(i as int), v)
                    || in_seq(b.take(j as int), v))),
            res@.len() > 0 && i < my_size && j < their_size ==> res@.last().b + 1 < a[i as int].a
                || res@.last().b + 1 < b[j as int].a,
        decreases my_size - i + their_size - j,
    {
        let mine = x.intervals[i];
        let theirs = y.intervals[j];
        let ghost ii = i as int;
        let ghost jj = j as int;
        let ghost old_res = res@;
        proof {
            lemma_in_push(a, ii);
            lemma_in_push(b, jj);
            assert forall|k: int| ii < k < a.len() implies mine.b + 1 < #[trigger] a[k].a by {
                assert(a[ii].b + 1 < a[k].a);
            }
            assert forall|k: int| jj < k < b.len() implies theirs.b + 1 < #[trigger] b[k].a by {
                assert(b[jj].b + 1 < b[k].a);
            }
            // an integer of `a` that lies in no interval before `i` lies in `a[i]` or later
            assert forall|v: int| in_seq(a, v) && !in_seq(a.take(ii), v) && v <= mine.b implies
                #[trigger] mine.covers(v) by {
                let k = choose|k: int| 0 <= k < a.len() && #[trigger] a[k].covers(v);
                if k < ii {
                    assert(a.take(ii)[k] == a[k]);
                }
            }
            assert forall|v: int| in_seq(b, v) && !in_seq(b.take(jj), v) && v <= theirs.b implies
                #[trigger] theirs.covers(v) by {
                let k = choose|k: int| 0 <= k < b.len() && #[trigger] b[k].covers(v);
                if k < jj {
                    assert(b.take(jj)[k] == b[k]);
                }
            }
        }
        if mine.starts_before_disjoint(&theirs) {
            i += 1;
        } else if theirs.starts_before_disjoint(&mine) {
            j += 1;
        } else {
            let common = mine.intersection(&theirs);
            res.push(common);
            proof {
                assert(res@ =~= old_res + seq![common]);
                lemma_in_concat(old_res, seq![common]);
                lemma_in_single(common);
                assert(mine.covers(common.a as int) && theirs.covers(common.a as int));
                assert(a[ii].covers(common.a as int) && b[jj].covers(common.a as int));
                assert forall|k: int, l: int| 0 <= k < l < res@.len() implies (#[trigger] res@[k]).b
                    + 1 < (#[trigger] res@[l]).a by {
                    if l == res@.len() - 1 && k < l - 1 {
                        assert(old_res[k].b + 1 < old_res[l - 2].a || k == l - 2);
                        assert(old_res[k].b <= old_res.last().b);
                    }
                }
            }
            if mine.properly_contains(&theirs) {
                j += 1;
            } else if theirs.properly_contains(&mine) {
                i += 1;
            } else if mine.starts_after_non_disjoint(&theirs) {
                j += 1;
            } else {
                i += 1;
            }
        }
        proof {
            assert forall|v: int| #[trigger] in_seq(res@, v) <==> (in_seq(a, v) && in_seq(b, v) && (
            in_seq(a.take(i as int), v) || in_seq(b.take(j as int), v))) by {
                if in_seq(a, v) && in_seq(b, v) && !in_seq(a.take(ii), v) && !in_seq(b.take(jj), v)
                {
                    if v <= mine.b {
                        assert(mine.covers(v));
                    }
                    if v <= theirs.b {
                        assert(theirs.covers(v));
                    }
                }
            }
        }
    }
    let r = IntervalSet { intervals: res, read_only: false };
    proof {
        if i == my_size {
            assert(a.take(i as int) =~= a);
        } else {
            assert(b.take(j as int) =~= b);
        }
        assert(r.elements() =~= x.elements().intersect(y.elements()));
    }
    r
}

} // verus!
