use vstd::prelude::*;

use crate::text::{decimal, int_to_text};

verus! {

/// A closed range of integers `a..=b`.
///
/// Both bounds are inclusive. No order is enforced between them: an interval
/// with `b < a` covers no integer and has length zero.
#[derive(Debug, Clone, Copy, PartialEq, Eq, Structural)]
pub struct Interval {
    pub a: i32,
    pub b: i32,
}

impl Interval {
    /// Whether the integer `x` lies in `self`.
    pub open spec fn covers(self, x: int) -> bool {
        self.a <= x <= self.b
    }

    /// Whether `self` covers at least one integer.
    pub open spec fn nonempty(self) -> bool {
        self.a <= self.b
    }

    /// The number of integers that `self` covers.
    pub open spec fn len_spec(self) -> int {
        if self.b < self.a {
            0
        } else {
            self.b - self.a + 1
        }
    }

    /// `self` and `other` share no integer.
    pub open spec fn apart(self, other: Interval) -> bool {
        forall|x: int| !(#[trigger] self.covers(x) && other.covers(x))
    }

    /// The text of the interval: `a..b`, or the bare number when it covers one integer.
    pub open spec fn text(self) -> Seq<char> {
        if self.a == self.b {
            decimal(self.a as int)
        } else {
            decimal(self.a as int) + seq!['.', '.'] + decimal(self.b as int)
        }
    }

    pub fn new(a: i32, b: i32) -> (r: Interval)
        ensures
            r.a == a,
            r.b == b,
    {
        Interval { a, b }
    }

    pub fn contains(&self, item: i32) -> (r: bool)
        ensures
            r == self.covers(item as int),
    {
        item >= self.a && item <= self.b
    }

    /// The text of the interval, as `text` gives it.
    pub fn string(&self) -> (r: String)
        ensures
            r@ == self.text(),
    {
        if self.a == self.b {
            int_to_text(self.a)
        } else {
            let head = int_to_text(self.a);
            let tail = int_to_text(self.b);
            let s = head.concat("..");
            proof {
                reveal_strlit("..");
            }
            s.concat(tail.as_str())
        }
    }

    /// The number of integers covered; zero for an empty interval.
    pub fn length(&self) -> (r: i64)
        ensures
            r == self.len_spec(),
    {
        if self.b < self.a {
            0
        } else {
            self.b as i64 - self.a as i64 + 1
        }
    }

    /// Does `self` lie entirely before the start of `other`?
    pub fn starts_before_disjoint(&self, other: &Interval) -> (r: bool)
        ensures
            r == (self.a < other.a && self.b < other.a),
    {
        self.a < other.a && self.b < other.a
    }

    /// Does `self` start at or before `other` and reach its start?
    pub fn starts_before_non_disjoint(&self, other: &Interval) -> (r: bool)
        ensures
            r == (self.a <= other.a && self.b >= other.a),
    {
        self.a <= other.a && self.b >= other.a
    }

    /// Does `self` start after the start of `other`?
    pub fn starts_after(&self, other: &Interval) -> (r: bool)
        ensures
            r == (self.a > other.a),
    {
        self.a > other.a
    }

    /// Does `self` start after the end of `other`?
    pub fn starts_after_disjoint(&self, other: &Interval) -> (r: bool)
        ensures
            r == (self.a > other.b),
    {
        self.a > other.b
    }

    /// Does `self` start after the start of `other`, but not after its end?
    pub fn starts_after_non_disjoint(&self, other: &Interval) -> (r: bool)
        ensures
            r == (self.a > other.a && self.a <= other.b),
    {
        self.a > other.a && self.a <= other.b
    }

    /// Do the two ranges lie apart, one wholly before the other?
    pub fn disjoint(&self, other: &Interval) -> (r: bool)
        ensures
            r == ((self.a < other.a && self.b < other.a) || self.a > other.b),
            self.nonempty() && other.nonempty() ==> (r == self.apart(*other)),
    {
        let r = self.starts_before_disjoint(other) || self.starts_after_disjoint(other);
        proof {
            if self.nonempty() && other.nonempty() && !r {
                let x: int = if self.a >= other.a { self.a as int } else { other.a as int };
                assert(self.covers(x) && other.covers(x));
            }
        }
        r
    }

    /// Does one range end exactly one before the other starts, such as `0..41` and `42..42`?
    pub fn adjacent(&self, other: &Interval) -> (r: bool)
        ensures
            r == (self.a == other.b + 1 || self.b == other.a - 1),
    {
        self.a as i64 == other.b as i64 + 1 || self.b as i64 == other.a as i64 - 1
    }

    /// Do the bounds of `self` enclose those of `other`, bounds included?
    pub fn properly_contains(&self, other: &Interval) -> (r: bool)
        ensures
            r == (other.a >= self.a && other.b <= self.b),
    {
        other.a >= self.a && other.b <= self.b
    }

    /// The range from the lower start to the higher end. It spans any gap between
    /// the two, so it is the union only where they overlap or are adjacent.
    pub fn union(&self, other: &Interval) -> (r: Interval)
        ensures
            r.a == (if self.a <= other.a { self.a } else { other.a }),
            r.b == (if self.b >= other.b { self.b } else { other.b }),
            self.nonempty() && other.nonempty() && (self.b + 1 >= other.a && other.b + 1
                >= self.a) ==> forall|x: int|
                #![auto]
                r.covers(x) <==> (self.covers(x) || other.covers(x)),
    {
        let a = if self.a <= other.a {
            self.a
        } else {
            other.a
        };
        let b = if self.b >= other.b {
            self.b
        } else {
            other.b
        };
        Interval::new(a, b)
    }

    /// The range from the higher start to the lower end: the integers the two share.
    /// It is empty where they share none.
    pub fn intersection(&self, other: &Interval) -> (r: Interval)
        ensures
            r.a == (if self.a >= other.a { self.a } else { other.a }),
            r.b == (if self.b <= other.b { self.b } else { other.b }),
            forall|x: int| #![auto] r.covers(x) <==> (self.covers(x) && other.covers(x)),
    {
        let a = if self.a >= other.a {
            self.a
        } else {
            other.a
        };
        let b = if self.b <= other.b {
            self.b
        } else {
            other.b
        };
        Interval::new(a, b)
    }

    /// The part of `self` outside `other`, where that part is one range.
    ///
    /// Where `other` reaches the start of `self`, the right remainder; where it starts
    /// inside `self` past its start, the left remainder; otherwise `None`. Where `other`
    /// sits strictly inside `self` the left remainder is returned, which is not the
    /// whole difference.
    pub fn difference_not_properly_contained(&self, other: &Interval) -> (r: Option<Interval>)
        ensures
            other.a <= self.a && other.b >= self.a ==> r.is_some() && (other.b < i32::MAX
                ==> r == Some(
                Interval {
                    a: (if self.a >= other.b + 1 {
                        self.a as int
                    } else {
                        other.b + 1
                    }) as i32,
                    b: self.b,
                },
            )),
            !(other.a <= self.a && other.b >= self.a) && (other.a > self.a && other.a <= self.b)
                ==> r == Some(Interval { a: self.a, b: (other.a - 1) as i32 }),
            !(other.a <= self.a && other.b >= self.a) && !(other.a > self.a && other.a <= self.b)
                ==> r.is_none(),
            r.is_some() && !(other.a > self.a && other.b < self.b) ==> forall|x: int|
                #![auto]
                r.unwrap().covers(x) <==> (self.covers(x) && !other.covers(x)),
    {
        if other.starts_before_non_disjoint(self) {
            if other.b == i32::MAX {
                // nothing of `self` is left past `i32::MAX`: an empty range
                Some(Interval::new(i32::MAX, i32::MAX - 1))
            } else {
                let start = if self.a >= other.b + 1 {
                    self.a
                } else {
                    other.b + 1
                };
                Some(Interval::new(start, self.b))
            }
        } else if other.starts_after_non_disjoint(self) {
            Some(Interval::new(self.a, other.a - 1))
        } else {
            None
        }
    }
}

} // verus!
