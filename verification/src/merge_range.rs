//! Canonical ranges and the merge/adjacency logic.
//!
//! A `MergeRange<T>` is an inclusive, non-empty interval of canonical
//! coordinates of the domain `T`.  `merge` classifies the relation between
//! two such ranges: separate, adjacent (zero-gap, concatenable), or
//! overlapping (sharing at least one coordinate, yielding a union and an
//! intersection).

use core::marker::PhantomData;
use vstd::prelude::*;

use crate::domain::Domain;

verus! {

/// Relies on `core::marker::PhantomData`'s `Clone`: `PhantomData<T>` is a
/// zero-sized marker type with a single value, so cloning returns that value.
/// The derived `Clone` impls of the types below call it.
pub assume_specification<T: core::marker::PointeeSized>[ <PhantomData<T> as Clone>::clone ](
    m: &PhantomData<T>,
) -> (r: PhantomData<T>)
    ensures
        r == *m,
;

/// An inclusive interval `[start, end]` of canonical coordinates,
/// invariant `start <= end <= T::dom_max()`.
#[derive(Clone, Copy, Debug, Eq, PartialEq)]
pub struct MergeRange<T: Domain> {
    pub start: u64,
    pub end: u64,
    pub marker: PhantomData<T>,
}

/// The relation of two canonical ranges, as classified by `merge`.
#[derive(Clone, Copy, Debug, Eq, PartialEq)]
pub enum MergeResult<T: Domain> {
    /// No coordinate shared and a gap of at least one coordinate between them.
    Separate,
    /// Zero-gap neighbours; the payload is their concatenation.
    Adjacent(MergeRange<T>),
    /// At least one coordinate shared; the payloads are union and intersection.
    Overlap(MergeRange<T>, MergeRange<T>),
}

/// `a` ends directly before `b` begins: concatenating them leaves no gap.
pub open spec fn adj_ahead<T: Domain>(a: MergeRange<T>, b: MergeRange<T>) -> bool {
    a.end < T::dom_max() && a.end + 1 == b.start
}

/// `a` and `b` share at least one coordinate.
pub open spec fn ranges_overlap<T: Domain>(a: MergeRange<T>, b: MergeRange<T>) -> bool {
    a.start <= b.end && b.start <= a.end
}

/// Everything `merge(a, b)` promises of its result `r`.
pub open spec fn merge_rel<T: Domain>(
    a: MergeRange<T>,
    b: MergeRange<T>,
    r: MergeResult<T>,
) -> bool {
    match r {
        MergeResult::Separate => {
            &&& !adj_ahead(a, b)
            &&& !adj_ahead(b, a)
            &&& !ranges_overlap(a, b)
        },
        MergeResult::Adjacent(m) => {
            &&& adj_ahead(a, b) || adj_ahead(b, a)
            &&& if adj_ahead(a, b) {
                m.start == a.start && m.end == b.end
            } else {
                m.start == b.start && m.end == a.end
            }
        },
        MergeResult::Overlap(u, i) => {
            &&& !adj_ahead(a, b)
            &&& !adj_ahead(b, a)
            &&& ranges_overlap(a, b)
            &&& u.start == if a.start <= b.start {
                a.start
            } else {
                b.start
            }
            &&& u.end == if a.end >= b.end {
                a.end
            } else {
                b.end
            }
            &&& i.start == if a.start >= b.start {
                a.start
            } else {
                b.start
            }
            &&& i.end == if a.end <= b.end {
                a.end
            } else {
                b.end
            }
        },
    }
}

impl<T: Domain> MergeRange<T> {
    /// The range is a well-formed interval within the domain.
    pub open spec fn wf(self) -> bool {
        self.start <= self.end && self.end <= T::dom_max()
    }

    /// The set of canonical coordinates this range covers.
    pub open spec fn cov(self) -> Set<int> {
        Set::new(|c: int| self.start <= c <= self.end)
    }

    /// Builds the range `[start, end]` directly from canonical coordinates.
    pub(crate) fn from_coords(start: u64, end: u64) -> (r: Self)
        requires
            start <= end,
            end <= T::dom_max(),
        ensures
            r.start == start,
            r.end == end,
            r.wf(),
    {
        MergeRange { start, end, marker: PhantomData }
    }

    /// The canonical range of the non-empty interval `[start, end]` of `T`.
    pub fn from_range(start: T, end: T) -> (r: Self)
        requires
            start.cv() <= end.cv(),
        ensures
            r.start == start.cv(),
            r.end == end.cv(),
            r.wf(),
    {
        let s = start.encode();
        let e = end.encode();
        MergeRange { start: s, end: e, marker: PhantomData }
    }

    /// The canonical range from the domain's minimum up to `end`.
    pub fn from_range_to(end: T) -> (r: Self)
        ensures
            r.start == 0,
            r.end == end.cv(),
            r.wf(),
    {
        let e = end.encode();
        MergeRange { start: 0, end: e, marker: PhantomData }
    }

    /// The canonical range from `start` up to the domain's maximum.
    pub fn from_range_from(start: T) -> (r: Self)
        ensures
            r.start == start.cv(),
            r.end == T::dom_max(),
            r.wf(),
    {
        let s = start.encode();
        let e = T::max_coord();
        MergeRange { start: s, end: e, marker: PhantomData }
    }

    /// The canonical range covering the whole domain.
    pub fn range_full() -> (r: Self)
        ensures
            r.start == 0,
            r.end == T::dom_max(),
            r.wf(),
    {
        let e = T::max_coord();
        MergeRange { start: 0, end: e, marker: PhantomData }
    }

    /// The pair of domain values at this range's endpoints.
    pub fn to_range(self) -> (r: (T, T))
        requires
            self.wf(),
        ensures
            r.0.cv() == self.start,
            r.1.cv() == self.end,
    {
        (T::decode(self.start), T::decode(self.end))
    }

    /// The union `[self.start, other.end]` iff `self` ends directly
    /// before `other` begins; `None` otherwise.
    pub fn concatenate(self, other: Self) -> (r: Option<Self>)
        requires
            self.wf(),
            other.wf(),
        ensures
            match r {
                Some(c) => {
                    &&& adj_ahead(self, other)
                    &&& c.start == self.start
                    &&& c.end == other.end
                    &&& c.wf()
                },
                None => !adj_ahead(self, other),
            },
    {
        let mc = T::max_coord();
        if self.end < mc && self.end + 1 == other.start {
            Some(MergeRange { start: self.start, end: other.end, marker: PhantomData })
        } else {
            None
        }
    }

    /// Classifies the relation of `self` and `other`: adjacency is tried
    /// in both argument orders first, then overlap.
    pub fn merge(self, other: Self) -> (r: MergeResult<T>)
        requires
            self.wf(),
            other.wf(),
        ensures
            merge_rel(self, other, r),
            match r {
                MergeResult::Separate => self.cov().intersect(other.cov()) == Set::<int>::empty(),
                MergeResult::Adjacent(m) => {
                    &&& m.wf()
                    &&& m.cov() == self.cov() + other.cov()
                    &&& self.cov().intersect(other.cov()) == Set::<int>::empty()
                },
                MergeResult::Overlap(u, i) => {
                    &&& u.wf()
                    &&& i.wf()
                    &&& u.cov() == self.cov() + other.cov()
                    &&& i.cov() == self.cov().intersect(other.cov())
                },
            },
    {
        match self.concatenate(other) {
            Some(c) => {
                proof {
                    assert(c.cov() =~= self.cov() + other.cov());
                    assert(self.cov().intersect(other.cov()) =~= Set::<int>::empty());
                }
                MergeResult::Adjacent(c)
            },
            None => match other.concatenate(self) {
                Some(c) => {
                    proof {
                        assert(c.cov() =~= self.cov() + other.cov());
                        assert(self.cov().intersect(other.cov()) =~= Set::<int>::empty());
                    }
                    MergeResult::Adjacent(c)
                },
                None => {
                    if self.start <= other.end && other.start <= self.end {
                        let us = if self.start <= other.start {
                            self.start
                        } else {
                            other.start
                        };
                        let ue = if self.end >= other.end {
                            self.end
                        } else {
                            other.end
                        };
                        let is = if self.start >= other.start {
                            self.start
                        } else {
                            other.start
                        };
                        let ie = if self.end <= other.end {
                            self.end
                        } else {
                            other.end
                        };
                        let u = MergeRange { start: us, end: ue, marker: PhantomData::<T> };
                        let i = MergeRange { start: is, end: ie, marker: PhantomData::<T> };
                        proof {
                            assert(u.cov() =~= self.cov() + other.cov());
                            assert(i.cov() =~= self.cov().intersect(other.cov()));
                        }
                        MergeResult::Overlap(u, i)
                    } else {
                        proof {
                            assert(self.cov().intersect(other.cov()) =~= Set::<int>::empty());
                        }
                        MergeResult::Separate
                    }
                },
            },
        }
    }
}

/// Merge is symmetric: whatever `merge(a, b)` and `merge(b, a)` return,
/// the outcomes have the same kind, an adjacency yields the same merged
/// range either way, and an overlap yields the same union and the same
/// intersection either way.
pub proof fn lemma_merge_symmetric<T: Domain>(
    a: MergeRange<T>,
    b: MergeRange<T>,
    r1: MergeResult<T>,
    r2: MergeResult<T>,
)
    requires
        a.wf(),
        b.wf(),
        merge_rel(a, b, r1),
        merge_rel(b, a, r2),
    ensures
        match (r1, r2) {
            (MergeResult::Separate, MergeResult::Separate) => true,
            (MergeResult::Adjacent(m1), MergeResult::Adjacent(m2)) => m1 == m2,
            (MergeResult::Overlap(u1, i1), MergeResult::Overlap(u2, i2)) => u1 == u2 && i1 == i2,
            _ => false,
        },
{
    if adj_ahead(a, b) && adj_ahead(b, a) {
        assert(false);
    }
}

} // verus!
