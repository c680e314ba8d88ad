//! The disjoint range collection.
//!
//! A `RangeSet<T>` holds canonical ranges in strictly ascending order,
//! pairwise non-overlapping and non-adjacent (`wf`).  Insertion is a single
//! forward pass that merges the incoming range with everything it touches
//! and hands back the intersections it discovered; `complement` covers
//! exactly the coordinates of the domain the collection leaves uncovered.

use vstd::prelude::*;

use crate::coverage::lemma_cov_canonical;
use crate::coverage::lemma_seq_cov_push;
use crate::coverage::lemma_seq_cov_split;
use crate::coverage::lemma_multi_cov_push;
use crate::coverage::lemma_wf_seq_order;
use crate::coverage::lemma_wf_seq_push;
use crate::coverage::multi_cov;
use crate::coverage::seq_cov;
use crate::coverage::wf_seq;
use crate::domain::Domain;
use crate::merge_range::MergeRange;
use crate::merge_range::MergeResult;

verus! {

/// The set of all canonical coordinates of the domain `T`.
pub open spec fn domain_cov<T: Domain>() -> Set<int> {
    Set::new(|c: int| 0 <= c <= T::dom_max())
}

/// A sorted collection of non-overlapping, non-adjacent canonical ranges.
#[derive(Clone, Debug, Eq, PartialEq)]
pub struct RangeSet<T: Domain> {
    pub ranges: Vec<MergeRange<T>>,
}

impl<T: Domain> View for RangeSet<T> {
    type V = Seq<MergeRange<T>>;

    open spec fn view(&self) -> Seq<MergeRange<T>> {
        self.ranges@
    }
}

impl<T: Domain> RangeSet<T> {
    /// The collection invariant: ascending, non-overlapping, non-adjacent.
    pub open spec fn wf(self) -> bool {
        wf_seq(self@)
    }

    /// The set of canonical coordinates covered by some member.
    pub open spec fn cov(self) -> Set<int> {
        seq_cov(self@)
    }

    /// The empty collection.
    pub fn new() -> (r: Self)
        ensures
            r@ == Seq::<MergeRange<T>>::empty(),
            r.wf(),
            r.cov() == Set::<int>::empty(),
    {
        let r = RangeSet { ranges: Vec::new() };
        proof {
            assert(r@ =~= Seq::<MergeRange<T>>::empty());
            assert(r.cov() =~= Set::<int>::empty());
        }
        r
    }

    /// The collection's ranges, in ascending order.
    pub fn into_vec(self) -> (r: Vec<MergeRange<T>>)
        ensures
            r@ == self@,
    {
        self.ranges
    }

    /// The merge-insertion scan: rebuilds the collection with `nr` folded
    /// in, and returns every intersection discovered against existing
    /// members.  The result covers the old coordinates plus `nr`'s; the
    /// returned ranges cover exactly the coordinates `nr` shares with the
    /// old collection.
    fn insert_collect(&mut self, nr: MergeRange<T>) -> (ovs: Vec<MergeRange<T>>)
        requires
            old(self).wf(),
            nr.wf(),
        ensures
            final(self).wf(),
            final(self).cov() == old(self).cov() + nr.cov(),
            forall|k: int| 0 <= k < ovs@.len() ==> (#[trigger] ovs@[k]).wf(),
            seq_cov(ovs@) == old(self).cov().intersect(nr.cov()),
    {
        let ghost orig = self.ranges@;
        let n = self.ranges.len();
        let mut new_ranges: Vec<MergeRange<T>> = Vec::new();
        let mut ovs: Vec<MergeRange<T>> = Vec::new();
        let mut cur = nr;
        let mut i: usize = 0;
        let mut done = false;
        let ghost mut emitted: int = 0;
        proof {
            assert(orig.subrange(0, 0) =~= Seq::<MergeRange<T>>::empty());
            assert(new_ranges@ =~= orig.subrange(0, 0));
            assert(seq_cov(ovs@) =~= seq_cov(orig.subrange(0, 0)).intersect(nr.cov()));
            assert(cur.cov() =~= nr.cov() + seq_cov(orig.subrange(0, 0)));
        }
        while i < n && !done
            invariant
                n == orig.len(),
                self.ranges@ == orig,
                wf_seq(orig),
                nr.wf(),
                cur.wf(),
                cur.start <= nr.start,
                nr.end <= cur.end,
                0 <= emitted <= i as int <= n,
                forall|k: int| 0 <= k < ovs@.len() ==> (#[trigger] ovs@[k]).wf(),
                seq_cov(ovs@) == seq_cov(orig.subrange(0, i as int)).intersect(nr.cov()),
                cur.cov() == nr.cov() + seq_cov(orig.subrange(emitted, i as int)),
                emitted > 0 ==> orig[emitted - 1].end + 1 < cur.start,
                !done ==> new_ranges@ == orig.subrange(0, emitted),
                done ==> new_ranges@ == orig.subrange(0, emitted).push(cur),
                done ==> i < n && cur.end + 1 < orig[i as int].start,
                wf_seq(new_ranges@),
            decreases n - i + (if done {
                0int
            } else {
                1int
            }),
        {
            let e = self.ranges[i];
            proof {
                assert(orig[i as int].wf());
            }
            match e.merge(cur) {
                MergeResult::Separate => {
                    if cur.end < e.start {
                        // cur lies strictly before e: emit it; e and everything
                        // after it is kept unchanged.
                        proof {
                            // separate and not adjacent: a real gap before e
                            assert(cur.end < T::dom_max());
                            assert(cur.end + 1 < e.start);
                            if emitted > 0 {
                                assert(new_ranges@.last() == orig[emitted - 1]);
                            }
                            lemma_wf_seq_push(new_ranges@, cur);
                        }
                        new_ranges.push(cur);
                        done = true;
                    } else {
                        // e lies entirely before cur: emit it unchanged.
                        proof {
                            // nothing was absorbed yet at this point: an
                            // absorbed range would lie left of e, inside cur
                            assert(e.start <= cur.end);
                            assert(e.end < cur.start);
                            if emitted < i as int {
                                let sub = orig.subrange(emitted, i as int);
                                assert(sub[0] == orig[emitted]);
                                assert(orig[emitted].wf());
                                assert(sub[0].cov().contains(orig[emitted].start as int));
                                assert(seq_cov(sub).contains(orig[emitted].start as int));
                                assert(cur.cov().contains(orig[emitted].start as int));
                                assert(cur.start <= orig[emitted].start);
                                lemma_wf_seq_order(orig, emitted, i as int);
                                assert(false);
                            }
                            assert(emitted == i as int);
                            // the gap between e and cur survives
                            assert(e.end < cur.start);
                            assert(e.end < T::dom_max());
                            assert(e.end + 1 < cur.start);
                            if emitted > 0 {
                                assert(new_ranges@.last() == orig[emitted - 1]);
                            }
                            lemma_wf_seq_push(new_ranges@, e);
                            assert(orig.subrange(0, i as int + 1) =~= orig.subrange(
                                0,
                                i as int,
                            ).push(e));
                            // e shares nothing with nr
                            lemma_seq_cov_push(orig.subrange(0, i as int), e);
                            assert(seq_cov(orig.subrange(0, i as int + 1)).intersect(nr.cov())
                                =~= seq_cov(orig.subrange(0, i as int)).intersect(nr.cov()));
                            assert(orig.subrange(i as int + 1, i as int + 1)
                                =~= Seq::<MergeRange<T>>::empty());
                            assert(seq_cov(orig.subrange(i as int + 1, i as int + 1))
                                =~= Set::<int>::empty());
                            assert(seq_cov(orig.subrange(emitted, i as int))
                                =~= Set::<int>::empty());
                            assert(cur.cov() =~= nr.cov() + seq_cov(
                                orig.subrange(i as int + 1, i as int + 1),
                            ));
                        }
                        new_ranges.push(e);
                        proof {
                            emitted = i as int + 1;
                        }
                        i = i + 1;
                    }
                },
                MergeResult::Adjacent(c) => {
                    // e is absorbed into the accumulator.
                    proof {
                        assert(c.cov() == e.cov() + cur.cov());
                        assert(orig.subrange(emitted, i as int + 1) =~= orig.subrange(
                            emitted,
                            i as int,
                        ).push(e));
                        lemma_seq_cov_push(orig.subrange(emitted, i as int), e);
                        assert(c.cov() =~= nr.cov() + seq_cov(
                            orig.subrange(emitted, i as int + 1),
                        ));
                        // e shares nothing with nr
                        assert(orig.subrange(0, i as int + 1) =~= orig.subrange(0, i as int).push(
                            e,
                        ));
                        lemma_seq_cov_push(orig.subrange(0, i as int), e);
                        assert(seq_cov(orig.subrange(0, i as int + 1)).intersect(nr.cov())
                            =~= seq_cov(orig.subrange(0, i as int)).intersect(nr.cov()));
                        // the gap to the last emitted range survives
                        if emitted > 0 {
                            lemma_wf_seq_order(orig, emitted - 1, i as int);
                            assert(orig[emitted - 1].end + 1 < c.start);
                        }
                    }
                    cur = c;
                    i = i + 1;
                },
                MergeResult::Overlap(u, o) => {
                    // e is absorbed; the shared coordinates are recorded.
                    proof {
                        assert(u.cov() == e.cov() + cur.cov());
                        assert(o.cov() == e.cov().intersect(cur.cov()));
                        assert(orig.subrange(emitted, i as int + 1) =~= orig.subrange(
                            emitted,
                            i as int,
                        ).push(e));
                        lemma_seq_cov_push(orig.subrange(emitted, i as int), e);
                        assert(u.cov() =~= nr.cov() + seq_cov(
                            orig.subrange(emitted, i as int + 1),
                        ));
                        // what e shares with the accumulator it shares with nr:
                        // the rest of the accumulator lies strictly left of e
                        assert forall|c: int| o.cov().contains(c) implies e.cov().contains(c)
                            && nr.cov().contains(c) by {
                            assert(cur.cov().contains(c));
                            if !nr.cov().contains(c) {
                                let sub = orig.subrange(emitted, i as int);
                                assert(seq_cov(sub).contains(c));
                                let k = choose|k: int|
                                    0 <= k < sub.len() && (#[trigger] sub[k]).cov().contains(c);
                                assert(sub[k] == orig[emitted + k]);
                                lemma_wf_seq_order(orig, emitted + k, i as int);
                                assert(c <= orig[emitted + k].end);
                                assert(orig[emitted + k].end + 1 < e.start);
                                assert(false);
                            }
                        }
                        assert(o.cov() =~= e.cov().intersect(nr.cov()));
                        lemma_seq_cov_push(ovs@, o);
                        assert(orig.subrange(0, i as int + 1) =~= orig.subrange(0, i as int).push(
                            e,
                        ));
                        lemma_seq_cov_push(orig.subrange(0, i as int), e);
                        assert(seq_cov(ovs@.push(o)) =~= seq_cov(
                            orig.subrange(0, i as int + 1),
                        ).intersect(nr.cov()));
                        // the gap to the last emitted range survives
                        if emitted > 0 {
                            lemma_wf_seq_order(orig, emitted - 1, i as int);
                            assert(orig[emitted - 1].end + 1 < u.start);
                        }
                    }
                    cur = u;
                    ovs.push(o);
                    i = i + 1;
                },
            }
        }
        if !done {
            // the scan ran out: cur comes last
            proof {
                if emitted > 0 {
                    assert(new_ranges@.last() == orig[emitted - 1]);
                }
                lemma_wf_seq_push(new_ranges@, cur);
            }
            new_ranges.push(cur);
        }
        let ghost scanned: int = i as int;
        while i < n
            invariant
                n == orig.len(),
                self.ranges@ == orig,
                wf_seq(orig),
                0 <= emitted <= scanned <= i as int <= n,
                new_ranges@ == orig.subrange(0, emitted).push(cur) + orig.subrange(
                    scanned,
                    i as int,
                ),
                wf_seq(new_ranges@),
                scanned < n ==> cur.end + 1 < orig[scanned].start,
            decreases n - i,
        {
            let e2 = self.ranges[i];
            proof {
                assert(orig[i as int].wf());
                assert(new_ranges@.len() > 0);
                if i as int == scanned {
                    assert(new_ranges@.last() == cur);
                    assert(new_ranges@.last().end + 1 < orig[i as int].start);
                } else {
                    assert(new_ranges@.last() == orig[i as int - 1]);
                    assert(new_ranges@.last().end + 1 < orig[i as int].start);
                }
                lemma_wf_seq_push(new_ranges@, e2);
                assert(new_ranges@.push(e2) =~= orig.subrange(0, emitted).push(cur)
                    + orig.subrange(scanned, i as int + 1));
            }
            new_ranges.push(e2);
            i = i + 1;
        }
        proof {
            // assemble the covered set of the rebuilt sequence
            let prefix = orig.subrange(0, emitted);
            let suffix = orig.subrange(scanned, n as int);
            let fin = prefix.push(cur) + suffix;
            assert(new_ranges@ == fin);
            lemma_seq_cov_split(fin, emitted + 1);
            assert(fin.subrange(0, emitted + 1) =~= prefix.push(cur));
            assert(fin.subrange(emitted + 1, fin.len() as int) =~= suffix);
            lemma_seq_cov_push(prefix, cur);
            assert(seq_cov(fin) == seq_cov(prefix) + cur.cov() + seq_cov(suffix));
            // the old sequence splits the same way
            lemma_seq_cov_split(orig, emitted);
            let mid = orig.subrange(emitted, n as int);
            lemma_seq_cov_split(mid, scanned - emitted);
            assert(mid.subrange(0, scanned - emitted) =~= orig.subrange(emitted, scanned));
            assert(mid.subrange(scanned - emitted, mid.len() as int) =~= suffix);
            assert(seq_cov(orig) == seq_cov(prefix) + seq_cov(orig.subrange(emitted, scanned))
                + seq_cov(suffix));
            assert(cur.cov() == nr.cov() + seq_cov(orig.subrange(emitted, scanned)));
            assert(seq_cov(fin) =~= seq_cov(orig) + nr.cov());
            // nothing at or past the stopping point meets nr
            lemma_seq_cov_split(orig, scanned);
            assert forall|c: int| seq_cov(suffix).contains(c) implies !nr.cov().contains(c) by {
                let k = choose|k: int|
                    0 <= k < suffix.len() && (#[trigger] suffix[k]).cov().contains(c);
                assert(suffix[k] == orig[scanned + k]);
                lemma_wf_seq_order(orig, scanned, scanned + k);
                assert(orig[scanned].start <= orig[scanned + k].start);
                assert(c >= orig[scanned + k].start);
                if scanned < n {
                    assert(cur.end + 1 < orig[scanned].start);
                    assert(c > nr.end);
                }
            }
            assert(seq_cov(ovs@) =~= seq_cov(orig).intersect(nr.cov()));
        }
        self.ranges = new_ranges;
        ovs
    }

    /// Inserts one range, maintaining the collection invariant; any
    /// intersections with existing members are discarded.
    pub fn push(&mut self, push_range: MergeRange<T>)
        requires
            old(self).wf(),
            push_range.wf(),
        ensures
            final(self).wf(),
            final(self).cov() == old(self).cov() + push_range.cov(),
    {
        let _ = self.insert_collect(push_range);
    }

    /// Inserts one range, maintaining the collection invariant, and folds
    /// every intersection discovered against existing members into
    /// `overlap_set`.
    pub fn push_with_overlap(&mut self, overlap_set: &mut Self, push_range: MergeRange<T>)
        requires
            old(self).wf(),
            old(overlap_set).wf(),
            push_range.wf(),
        ensures
            final(self).wf(),
            final(self).cov() == old(self).cov() + push_range.cov(),
            final(overlap_set).wf(),
            final(overlap_set).cov() == old(overlap_set).cov() + old(self).cov().intersect(
                push_range.cov(),
            ),
    {
        let ovs = self.insert_collect(push_range);
        let ghost base = overlap_set.cov();
        let n = ovs.len();
        let mut i: usize = 0;
        proof {
            assert(ovs@.subrange(0, 0) =~= Seq::<MergeRange<T>>::empty());
            assert(seq_cov(ovs@.subrange(0, 0)) =~= Set::<int>::empty());
            assert(overlap_set.cov() =~= base + seq_cov(ovs@.subrange(0, 0)));
        }
        while i < n
            invariant
                n == ovs@.len(),
                0 <= i as int <= n,
                forall|k: int| 0 <= k < ovs@.len() ==> (#[trigger] ovs@[k]).wf(),
                overlap_set.wf(),
                overlap_set.cov() == base + seq_cov(ovs@.subrange(0, i as int)),
            decreases n - i,
        {
            let o = ovs[i];
            overlap_set.push(o);
            proof {
                assert(ovs@.subrange(0, i as int + 1) =~= ovs@.subrange(0, i as int).push(
                    ovs@[i as int],
                ));
                lemma_seq_cov_push(ovs@.subrange(0, i as int), ovs@[i as int]);
                assert(overlap_set.cov() =~= base + seq_cov(ovs@.subrange(0, i as int + 1)));
            }
            i = i + 1;
        }
        proof {
            assert(ovs@.subrange(0, n as int) =~= ovs@);
        }
    }

    /// Builds a collection by inserting every range of `v` in turn;
    /// intersections are discarded.
    pub fn from_vec(v: &Vec<MergeRange<T>>) -> (r: Self)
        requires
            forall|k: int| 0 <= k < v@.len() ==> (#[trigger] v@[k]).wf(),
        ensures
            r.wf(),
            r.cov() == seq_cov(v@),
    {
        let mut range_set = RangeSet::new();
        let n = v.len();
        let mut i: usize = 0;
        proof {
            assert(v@.subrange(0, 0) =~= Seq::<MergeRange<T>>::empty());
            assert(range_set.cov() =~= seq_cov(v@.subrange(0, 0)));
        }
        while i < n
            invariant
                n == v@.len(),
                0 <= i as int <= n,
                forall|k: int| 0 <= k < v@.len() ==> (#[trigger] v@[k]).wf(),
                range_set.wf(),
                range_set.cov() == seq_cov(v@.subrange(0, i as int)),
            decreases n - i,
        {
            let r = v[i];
            range_set.push(r);
            proof {
                assert(v@.subrange(0, i as int + 1) =~= v@.subrange(0, i as int).push(
                    v@[i as int],
                ));
                lemma_seq_cov_push(v@.subrange(0, i as int), v@[i as int]);
                assert(range_set.cov() =~= seq_cov(v@.subrange(0, i as int + 1)));
            }
            i = i + 1;
        }
        proof {
            assert(v@.subrange(0, n as int) =~= v@);
        }
        range_set
    }

    /// Builds a collection by inserting every range of `v` in turn, and a
    /// second collection covering exactly the coordinates covered by at
    /// least two members of `v`.
    pub fn from_vec_with_overlap(v: &Vec<MergeRange<T>>) -> (r: (Self, Self))
        requires
            forall|k: int| 0 <= k < v@.len() ==> (#[trigger] v@[k]).wf(),
        ensures
            r.0.wf(),
            r.0.cov() == seq_cov(v@),
            r.1.wf(),
            r.1.cov() == multi_cov(v@),
    {
        let mut range_set = RangeSet::new();
        let mut overlap_set = RangeSet::new();
        let n = v.len();
        let mut i: usize = 0;
        proof {
            assert(v@.subrange(0, 0) =~= Seq::<MergeRange<T>>::empty());
            assert(range_set.cov() =~= seq_cov(v@.subrange(0, 0)));
            assert(multi_cov(v@.subrange(0, 0)) =~= Set::<int>::empty());
            assert(overlap_set.cov() =~= multi_cov(v@.subrange(0, 0)));
        }
        while i < n
            invariant
                n == v@.len(),
                0 <= i as int <= n,
                forall|k: int| 0 <= k < v@.len() ==> (#[trigger] v@[k]).wf(),
                range_set.wf(),
                range_set.cov() == seq_cov(v@.subrange(0, i as int)),
                overlap_set.wf(),
                overlap_set.cov() == multi_cov(v@.subrange(0, i as int)),
            decreases n - i,
        {
            let r = v[i];
            range_set.push_with_overlap(&mut overlap_set, r);
            proof {
                assert(v@.subrange(0, i as int + 1) =~= v@.subrange(0, i as int).push(
                    v@[i as int],
                ));
                lemma_seq_cov_push(v@.subrange(0, i as int), v@[i as int]);
                lemma_multi_cov_push(v@.subrange(0, i as int), v@[i as int]);
                assert(range_set.cov() =~= seq_cov(v@.subrange(0, i as int + 1)));
                assert(overlap_set.cov() =~= multi_cov(v@.subrange(0, i as int + 1)));
            }
            i = i + 1;
        }
        proof {
            assert(v@.subrange(0, n as int) =~= v@);
        }
        (range_set, overlap_set)
    }

    /// The collection covering exactly the canonical coordinates of the
    /// domain that `self` does not cover.
    pub fn complement(&self) -> (r: Self)
        requires
            self.wf(),
        ensures
            r.wf(),
            r.cov() == domain_cov::<T>().difference(self.cov()),
    {
        let mut complement_set = RangeSet::new();
        let len = self.ranges.len();
        // An empty collection leaves the whole domain uncovered.
        if len == 0 {
            complement_set.push(MergeRange::range_full());
            proof {
                assert(complement_set.cov() =~= domain_cov::<T>().difference(self.cov()));
            }
            return complement_set;
        }
        let ghost s = self.ranges@;
        // The gap on the left boundary, if any.
        if self.ranges[0].start > 0 {
            proof {
                assert(s[0].wf());
            }
            let g = MergeRange::from_coords(0, self.ranges[0].start - 1);
            complement_set.push(g);
        }
        proof {
            assert forall|c: int|
                complement_set.cov().contains(c) implies 0 <= c <= s[0].end && !seq_cov(
                s,
            ).contains(c) by {
                assert(s[0].wf());
                assert(c < s[0].start);
                if seq_cov(s).contains(c) {
                    let k = choose|k: int| 0 <= k < s.len() && (#[trigger] s[k]).cov().contains(c);
                    lemma_wf_seq_order(s, 0, k);
                    assert(false);
                }
            }
            assert(complement_set.cov() =~= Set::new(
                |c: int| 0 <= c <= s[0].end && !seq_cov(s).contains(c),
            ));
        }
        // The gaps between consecutive members.
        let mut i: usize = 1;
        while i < len
            invariant
                len == s.len(),
                self.ranges@ == s,
                wf_seq(s),
                1 <= i as int <= len,
                complement_set.wf(),
                complement_set.cov() == Set::new(
                    |c: int| 0 <= c <= s[i - 1].end && !seq_cov(s).contains(c),
                ),
            decreases len - i,
        {
            proof {
                assert(s[i as int].wf());
                assert(s[i - 1].end + 1 < s[i as int].start);
            }
            let g = MergeRange::from_coords(self.ranges[i - 1].end + 1, self.ranges[i].start - 1);
            complement_set.push(g);
            proof {
                assert forall|c: int|
                    (g.cov().contains(c) || (0 <= c <= s[i - 1].end && !seq_cov(s).contains(c)))
                        implies 0 <= c <= s[i as int].end && !seq_cov(s).contains(c) by {
                    if g.cov().contains(c) {
                        if seq_cov(s).contains(c) {
                            let k = choose|k: int|
                                0 <= k < s.len() && (#[trigger] s[k]).cov().contains(c);
                            if k <= i - 1 {
                                lemma_wf_seq_order(s, k, i - 1);
                                assert(s[k].end <= s[i - 1].end);
                                assert(false);
                            } else {
                                lemma_wf_seq_order(s, i as int, k);
                                assert(false);
                            }
                        }
                    }
                }
                assert forall|c: int|
                    0 <= c <= s[i as int].end && !seq_cov(s).contains(c) implies (g.cov().contains(
                    c,
                ) || (0 <= c <= s[i - 1].end && !seq_cov(s).contains(c))) by {
                    if c > s[i - 1].end {
                        assert(s[i as int].cov().contains(c) ==> seq_cov(s).contains(c));
                        assert(c < s[i as int].start);
                    }
                }
                assert(complement_set.cov() =~= Set::new(
                    |c: int| 0 <= c <= s[i as int].end && !seq_cov(s).contains(c),
                ));
            }
            i = i + 1;
        }
        // The gap on the right boundary, if any.
        let last_end = self.ranges[len - 1].end;
        if last_end < T::max_coord() {
            let g = MergeRange::from_coords(last_end + 1, T::max_coord());
            complement_set.push(g);
        }
        proof {
            assert forall|c: int|
                (complement_set.cov().contains(c) <==> domain_cov::<T>().difference(
                    self.cov(),
                ).contains(c)) by {
                assert(s[len - 1].wf());
                if complement_set.cov().contains(c) {
                    assert(0 <= c <= T::dom_max());
                    assert(!seq_cov(s).contains(c));
                }
                if domain_cov::<T>().contains(c) && !seq_cov(s).contains(c) {
                    if c <= s[len - 1].end {
                    } else {
                        assert(c > s[len - 1].end);
                        assert(s[len - 1].cov().contains(s[len - 1].end as int));
                        assert(seq_cov(s).contains(s[len - 1].end as int));
                        assert(s[len - 1].end < c <= T::dom_max());
                    }
                }
            }
            assert(complement_set.cov() =~= domain_cov::<T>().difference(self.cov()));
        }
        complement_set
    }
}

/// What a well-formed collection covers lies within the domain.
pub proof fn lemma_cov_in_domain<T: Domain>(s: RangeSet<T>)
    requires
        s.wf(),
    ensures
        s.cov().subset_of(domain_cov::<T>()),
{
    assert forall|c: int| s.cov().contains(c) implies domain_cov::<T>().contains(c) by {
        let k = choose|k: int| 0 <= k < s@.len() && (#[trigger] s@[k]).cov().contains(c);
        assert(s@[k].wf());
    }
}

/// Complement is an involution: a collection whose covered set is the
/// domain-complement of the domain-complement of `s`'s covered set is `s`
/// itself.
pub proof fn lemma_complement_involution<T: Domain>(
    s: RangeSet<T>,
    c1: RangeSet<T>,
    c2: RangeSet<T>,
)
    requires
        s.wf(),
        c1.wf(),
        c2.wf(),
        c1.cov() == domain_cov::<T>().difference(s.cov()),
        c2.cov() == domain_cov::<T>().difference(c1.cov()),
    ensures
        c2@ == s@,
{
    lemma_cov_in_domain(s);
    assert(c2.cov() =~= s.cov());
    lemma_cov_canonical(c2@, s@);
}

/// Insertion is idempotent on overlap: pushing the same range twice into
/// an empty collection gives the collection that one push gives, and the
/// intersection reported by the second push is the whole range.
pub proof fn lemma_push_idempotent<T: Domain>(
    r: MergeRange<T>,
    once: RangeSet<T>,
    twice: RangeSet<T>,
)
    requires
        r.wf(),
        once.wf(),
        twice.wf(),
        once.cov() == Set::<int>::empty() + r.cov(),
        twice.cov() == once.cov() + r.cov(),
    ensures
        once@ == seq![r],
        twice@ == once@,
        once.cov().intersect(r.cov()) == r.cov(),
{
    let single = seq![r];
    assert forall|i: int, j: int|
        #![trigger single[i], single[j]]
        0 <= i < j < single.len() implies single[i].end + 1 < single[j].start by {}
    assert(single[0] == r);
    assert(wf_seq(single));
    assert forall|c: int| seq_cov(single).contains(c) implies r.cov().contains(c) by {
        let k = choose|k: int| 0 <= k < single.len() && (#[trigger] single[k]).cov().contains(c);
        assert(single[k] == r);
    }
    assert forall|c: int| r.cov().contains(c) implies seq_cov(single).contains(c) by {
        assert(single[0].cov().contains(c));
    }
    assert(seq_cov(single) =~= r.cov());
    assert(once.cov() =~= seq_cov(single));
    lemma_cov_canonical(once@, single);
    assert(twice.cov() =~= once.cov());
    lemma_cov_canonical(twice@, once@);
    assert(once.cov().intersect(r.cov()) =~= r.cov());
}

} // verus!
