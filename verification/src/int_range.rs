//! User-facing range descriptors and the coverage entry point.
//!
//! An `IntRange<T>` describes a range of the domain `T` as a caller writes
//! it: bounded at both ends, open below, open above, or the full domain.
//! `uncovered_and_overlapped` folds a sequence of descriptors into a
//! disjoint range collection and reports, as descriptors again, which
//! parts of the domain are uncovered and which are covered more than once.

use vstd::prelude::*;

use crate::coverage::lemma_multi_cov_push;
use crate::coverage::lemma_seq_cov_push;
use crate::coverage::multi_cov;
use crate::coverage::seq_cov;
use crate::coverage::wf_seq;
use crate::domain::Domain;
use crate::merge_range::MergeRange;
use crate::range_set::domain_cov;
use crate::range_set::RangeSet;

verus! {

/// A user-facing range descriptor over the domain `T`.
#[derive(Clone, Copy, Debug, Eq, PartialEq)]
pub enum IntRange<T: Domain> {
    /// The inclusive interval from the first value to the second; empty
    /// when the first lies past the second.
    Bound(T, T),
    /// Everything from the domain's minimum up to this value.
    To(T),
    /// Everything from this value up to the domain's maximum.
    From(T),
    /// The whole domain.
    Full,
}

/// The canonical coordinate at which a descriptor's coverage begins.
pub open spec fn desc_start<T: Domain>(r: IntRange<T>) -> u64 {
    match r {
        IntRange::Bound(lo, _) => lo.cv(),
        IntRange::To(_) => 0,
        IntRange::From(lo) => lo.cv(),
        IntRange::Full => 0,
    }
}

/// The canonical coordinate at which a descriptor's coverage ends.
pub open spec fn desc_end<T: Domain>(r: IntRange<T>) -> u64 {
    match r {
        IntRange::Bound(_, hi) => hi.cv(),
        IntRange::To(hi) => hi.cv(),
        IntRange::From(_) => T::dom_max(),
        IntRange::Full => T::dom_max(),
    }
}

/// The set of canonical coordinates a descriptor covers; empty for a
/// `Bound` whose first value lies past its second.
pub open spec fn desc_cov<T: Domain>(r: IntRange<T>) -> Set<int> {
    Set::new(|c: int| desc_start(r) <= c <= desc_end(r))
}

/// The set of canonical coordinates covered by at least one descriptor.
pub open spec fn desc_seq_cov<T: Domain>(ds: Seq<IntRange<T>>) -> Set<int> {
    Set::new(
        |c: int| exists|k: int| 0 <= k < ds.len() && #[trigger] desc_cov(ds[k]).contains(c),
    )
}

/// The set of canonical coordinates covered by at least two descriptors.
pub open spec fn desc_multi_cov<T: Domain>(ds: Seq<IntRange<T>>) -> Set<int> {
    Set::new(
        |c: int|
            exists|i: int, j: int|
                0 <= i < j < ds.len() && #[trigger] desc_cov(ds[i]).contains(c)
                    && #[trigger] desc_cov(ds[j]).contains(c),
    )
}

/// The descriptor is the canonical description of its coordinate
/// interval: `Bound` only strictly inside the domain, `To` only when it
/// stops short of the maximum, `From` only when it starts past the
/// minimum.
pub open spec fn desc_canonical<T: Domain>(r: IntRange<T>) -> bool {
    match r {
        IntRange::Bound(lo, hi) => 0 < lo.cv() && lo.cv() <= hi.cv() && hi.cv() < T::dom_max(),
        IntRange::To(hi) => hi.cv() < T::dom_max(),
        IntRange::From(lo) => 0 < lo.cv(),
        IntRange::Full => true,
    }
}

/// The descriptor sequence mirrors a well-formed collection: every member
/// canonical, ascending, non-overlapping, non-adjacent.
pub open spec fn desc_seq_wf<T: Domain>(ds: Seq<IntRange<T>>) -> bool {
    &&& forall|k: int| 0 <= k < ds.len() ==> desc_canonical(#[trigger] ds[k])
    &&& forall|i: int, j: int|
        #![trigger ds[i], ds[j]]
        0 <= i < j < ds.len() ==> desc_end(ds[i]) + 1 < desc_start(ds[j])
}

/// Appending a descriptor adds exactly its coordinates to the covered set.
proof fn lemma_desc_seq_cov_push<T: Domain>(ds: Seq<IntRange<T>>, d: IntRange<T>)
    ensures
        desc_seq_cov(ds.push(d)) == desc_seq_cov(ds) + desc_cov(d),
{
    let t = ds.push(d);
    assert forall|c: int| desc_seq_cov(t).contains(c) implies (desc_seq_cov(ds) + desc_cov(
        d,
    )).contains(c) by {
        let k = choose|k: int| 0 <= k < t.len() && #[trigger] desc_cov(t[k]).contains(c);
        if k < ds.len() {
            assert(t[k] == ds[k]);
            assert(desc_cov(ds[k]).contains(c));
        } else {
            assert(t[k] == d);
        }
    }
    assert forall|c: int| (desc_seq_cov(ds) + desc_cov(d)).contains(c) implies desc_seq_cov(
        t,
    ).contains(c) by {
        if desc_seq_cov(ds).contains(c) {
            let k = choose|k: int| 0 <= k < ds.len() && #[trigger] desc_cov(ds[k]).contains(c);
            assert(t[k] == ds[k]);
            assert(desc_cov(t[k]).contains(c));
        } else {
            assert(t[ds.len() as int] == d);
            assert(desc_cov(t[ds.len() as int]).contains(c));
        }
    }
    assert(desc_seq_cov(t) =~= desc_seq_cov(ds) + desc_cov(d));
}

/// Appending a descriptor adds to the multiply-covered set exactly the
/// coordinates it shares with what the sequence already covers.
proof fn lemma_desc_multi_cov_push<T: Domain>(ds: Seq<IntRange<T>>, d: IntRange<T>)
    ensures
        desc_multi_cov(ds.push(d)) == desc_multi_cov(ds) + desc_seq_cov(ds).intersect(
            desc_cov(d),
        ),
{
    let t = ds.push(d);
    assert forall|c: int| desc_multi_cov(t).contains(c) implies (desc_multi_cov(ds)
        + desc_seq_cov(ds).intersect(desc_cov(d))).contains(c) by {
        let (i, j) = choose|i: int, j: int|
            0 <= i < j < t.len() && #[trigger] desc_cov(t[i]).contains(c) && #[trigger] desc_cov(
                t[j],
            ).contains(c);
        assert(t[i] == ds[i]);
        if j < ds.len() {
            assert(t[j] == ds[j]);
            assert(desc_cov(ds[i]).contains(c) && desc_cov(ds[j]).contains(c));
        } else {
            assert(t[j] == d);
            assert(desc_cov(ds[i]).contains(c));
            assert(desc_seq_cov(ds).contains(c));
        }
    }
    assert forall|c: int| (desc_multi_cov(ds) + desc_seq_cov(ds).intersect(desc_cov(
        d,
    ))).contains(c) implies desc_multi_cov(t).contains(c) by {
        if desc_multi_cov(ds).contains(c) {
            let (i, j) = choose|i: int, j: int|
                0 <= i < j < ds.len() && #[trigger] desc_cov(ds[i]).contains(c)
                    && #[trigger] desc_cov(ds[j]).contains(c);
            assert(t[i] == ds[i]);
            assert(t[j] == ds[j]);
            assert(desc_cov(t[i]).contains(c) && desc_cov(t[j]).contains(c));
        } else {
            let i = choose|i: int| 0 <= i < ds.len() && #[trigger] desc_cov(ds[i]).contains(c);
            assert(t[i] == ds[i]);
            assert(t[ds.len() as int] == d);
            assert(desc_cov(t[i]).contains(c) && desc_cov(t[ds.len() as int]).contains(c));
        }
    }
    assert(desc_multi_cov(t) =~= desc_multi_cov(ds) + desc_seq_cov(ds).intersect(desc_cov(d)));
}

impl<T: Domain> IntRange<T> {
    /// The canonical range this descriptor covers, or `None` for an empty
    /// `Bound` descriptor, which covers nothing and is silently dropped.
    pub fn to_merge_range(self) -> (r: Option<MergeRange<T>>)
        ensures
            match r {
                Some(m) => {
                    &&& m.wf()
                    &&& m.start == desc_start(self)
                    &&& m.end == desc_end(self)
                },
                None => desc_start(self) > desc_end(self),
            },
    {
        match self {
            IntRange::Bound(start, end) => {
                if start.encode() <= end.encode() {
                    Some(MergeRange::from_range(start, end))
                } else {
                    None
                }
            },
            IntRange::To(end) => Some(MergeRange::from_range_to(end)),
            IntRange::From(start) => Some(MergeRange::from_range_from(start)),
            IntRange::Full => Some(MergeRange::range_full()),
        }
    }

    /// The canonical descriptor of a canonical range: `Bound` only when
    /// the range touches neither domain boundary, `To` or `From` when it
    /// touches exactly one, `Full` when it touches both.
    pub fn from_merge_range(merge_range: MergeRange<T>) -> (r: Self)
        requires
            merge_range.wf(),
        ensures
            desc_start(r) == merge_range.start,
            desc_end(r) == merge_range.end,
            desc_canonical(r),
    {
        let mc = T::max_coord();
        if merge_range.start > 0 {
            if merge_range.end < mc {
                IntRange::Bound(T::decode(merge_range.start), T::decode(merge_range.end))
            } else {
                IntRange::From(T::decode(merge_range.start))
            }
        } else {
            if merge_range.end < mc {
                IntRange::To(T::decode(merge_range.end))
            } else {
                IntRange::Full
            }
        }
    }
}

/// Translates the members of a well-formed collection, in order, into
/// canonical descriptors covering the same coordinates.
fn to_descriptors<T: Domain>(v: &Vec<MergeRange<T>>) -> (r: Vec<IntRange<T>>)
    requires
        wf_seq(v@),
    ensures
        desc_seq_wf(r@),
        desc_seq_cov(r@) == seq_cov(v@),
{
    let n = v.len();
    let mut out: Vec<IntRange<T>> = Vec::new();
    let mut i: usize = 0;
    while i < n
        invariant
            n == v@.len(),
            0 <= i as int <= n,
            wf_seq(v@),
            out@.len() == i as int,
            forall|k: int|
                0 <= k < i as int ==> {
                    &&& desc_start(#[trigger] out@[k]) == v@[k].start
                    &&& desc_end(out@[k]) == v@[k].end
                    &&& desc_canonical(out@[k])
                },
        decreases n - i,
    {
        proof {
            assert(v@[i as int].wf());
        }
        let d = IntRange::from_merge_range(v[i]);
        out.push(d);
        i = i + 1;
    }
    proof {
        assert forall|i2: int, j2: int|
            #![trigger out@[i2], out@[j2]]
            0 <= i2 < j2 < out@.len() implies desc_end(out@[i2]) + 1 < desc_start(out@[j2]) by {
            assert(v@[i2].end + 1 < v@[j2].start);
        }
        assert forall|c: int| desc_seq_cov(out@).contains(c) implies seq_cov(v@).contains(c) by {
            let k = choose|k: int| 0 <= k < out@.len() && #[trigger] desc_cov(out@[k]).contains(c);
            assert(v@[k].cov().contains(c));
        }
        assert forall|c: int| seq_cov(v@).contains(c) implies desc_seq_cov(out@).contains(c) by {
            let k = choose|k: int| 0 <= k < v@.len() && (#[trigger] v@[k]).cov().contains(c);
            assert(desc_cov(out@[k]).contains(c));
        }
        assert(desc_seq_cov(out@) =~= seq_cov(v@));
    }
    out
}

/// Folds the given descriptors into a disjoint range collection and
/// returns, as canonical descriptors in ascending order, first the parts
/// of the domain no descriptor covers, then the parts covered by more
/// than one descriptor.
pub fn uncovered_and_overlapped<T: Domain>(ranges: &Vec<IntRange<T>>) -> (r: (
    Vec<IntRange<T>>,
    Vec<IntRange<T>>,
))
    ensures
        desc_seq_wf(r.0@),
        desc_seq_cov(r.0@) == domain_cov::<T>().difference(desc_seq_cov(ranges@)),
        desc_seq_wf(r.1@),
        desc_seq_cov(r.1@) == desc_multi_cov(ranges@),
{
    let n = ranges.len();
    let mut mr: Vec<MergeRange<T>> = Vec::new();
    let mut i: usize = 0;
    proof {
        assert(ranges@.subrange(0, 0) =~= Seq::<IntRange<T>>::empty());
        assert(mr@ =~= Seq::<MergeRange<T>>::empty());
        assert(seq_cov(mr@) =~= desc_seq_cov(ranges@.subrange(0, 0)));
        assert(multi_cov(mr@) =~= desc_multi_cov(ranges@.subrange(0, 0)));
    }
    while i < n
        invariant
            n == ranges@.len(),
            0 <= i as int <= n,
            forall|k: int| 0 <= k < mr@.len() ==> (#[trigger] mr@[k]).wf(),
            seq_cov(mr@) == desc_seq_cov(ranges@.subrange(0, i as int)),
            multi_cov(mr@) == desc_multi_cov(ranges@.subrange(0, i as int)),
        decreases n - i,
    {
        let d = ranges[i];
        proof {
            assert(ranges@.subrange(0, i as int + 1) =~= ranges@.subrange(0, i as int).push(
                ranges@[i as int],
            ));
            lemma_desc_seq_cov_push(ranges@.subrange(0, i as int), ranges@[i as int]);
            lemma_desc_multi_cov_push(ranges@.subrange(0, i as int), ranges@[i as int]);
        }
        match d.to_merge_range() {
            Some(m) => {
                proof {
                    assert(m.cov() =~= desc_cov(ranges@[i as int]));
                    lemma_seq_cov_push(mr@, m);
                    lemma_multi_cov_push(mr@, m);
                    assert(seq_cov(mr@.push(m)) =~= desc_seq_cov(ranges@.subrange(0, i as int + 1)));
                    assert(multi_cov(mr@.push(m)) =~= desc_multi_cov(
                        ranges@.subrange(0, i as int + 1),
                    ));
                }
                mr.push(m);
            },
            None => {
                proof {
                    // an empty descriptor covers nothing
                    assert(desc_cov(ranges@[i as int]) =~= Set::<int>::empty());
                    assert(seq_cov(mr@) =~= desc_seq_cov(ranges@.subrange(0, i as int + 1)));
                    assert(multi_cov(mr@) =~= desc_multi_cov(ranges@.subrange(0, i as int + 1)));
                }
            },
        }
        i = i + 1;
    }
    proof {
        assert(ranges@.subrange(0, n as int) =~= ranges@);
    }
    let (range_set, overlap_set) = RangeSet::from_vec_with_overlap(&mr);
    let uncovered_set = range_set.complement();
    let uncovered_vec = uncovered_set.into_vec();
    let overlap_vec = overlap_set.into_vec();
    (to_descriptors(&uncovered_vec), to_descriptors(&overlap_vec))
}

} // verus!
