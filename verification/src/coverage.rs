//! The mathematical model of range collections.
//!
//! A collection of canonical ranges is modelled as a sequence; its meaning
//! is the set of canonical coordinates it covers.  `wf_seq` is the
//! collection invariant: strictly ascending, pairwise non-overlapping and
//! non-adjacent.  The central fact is `lemma_cov_canonical`: a well-formed
//! sequence is uniquely determined by the coordinate set it covers.

use vstd::prelude::*;

use crate::domain::Domain;
use crate::merge_range::MergeRange;

verus! {

/// The collection invariant: every member is a well-formed range, and any
/// earlier member ends at least two coordinates before any later one
/// begins (ascending, non-overlapping, non-adjacent).
pub open spec fn wf_seq<T: Domain>(s: Seq<MergeRange<T>>) -> bool {
    &&& forall|k: int| 0 <= k < s.len() ==> (#[trigger] s[k]).wf()
    &&& forall|i: int, j: int|
        #![trigger s[i], s[j]]
        0 <= i < j < s.len() ==> s[i].end + 1 < s[j].start
}

/// The set of canonical coordinates covered by at least one member of `s`.
pub open spec fn seq_cov<T: Domain>(s: Seq<MergeRange<T>>) -> Set<int> {
    Set::new(|c: int| exists|k: int| 0 <= k < s.len() && (#[trigger] s[k]).cov().contains(c))
}

/// The set of canonical coordinates covered by at least two members of `s`.
pub open spec fn multi_cov<T: Domain>(s: Seq<MergeRange<T>>) -> Set<int> {
    Set::new(
        |c: int|
            exists|i: int, j: int|
                0 <= i < j < s.len() && (#[trigger] s[i]).cov().contains(c) && (
                #[trigger] s[j]).cov().contains(c),
    )
}

/// In a well-formed sequence the members are ordered by index: starts are
/// ascending, and distinct members are separated by a gap.
pub proof fn lemma_wf_seq_order<T: Domain>(s: Seq<MergeRange<T>>, i: int, j: int)
    requires
        wf_seq(s),
        0 <= i <= j < s.len(),
    ensures
        s[i].start <= s[j].start,
        i < j ==> s[i].end + 1 < s[j].start,
{
    assert(s[i].wf());
    assert(s[j].wf());
}

/// A contiguous slice of a well-formed sequence is well-formed.
pub proof fn lemma_wf_seq_subrange<T: Domain>(s: Seq<MergeRange<T>>, a: int, b: int)
    requires
        wf_seq(s),
        0 <= a <= b <= s.len(),
    ensures
        wf_seq(s.subrange(a, b)),
{
    let t = s.subrange(a, b);
    assert forall|k: int| 0 <= k < t.len() implies (#[trigger] t[k]).wf() by {
        assert(t[k] == s[a + k]);
    }
    assert forall|i: int, j: int|
        #![trigger t[i], t[j]]
        0 <= i < j < t.len() implies t[i].end + 1 < t[j].start by {
        assert(t[i] == s[a + i]);
        assert(t[j] == s[a + j]);
        assert(s[a + i].end + 1 < s[a + j].start);
    }
}

/// Appending a range that begins past the end of a well-formed sequence
/// keeps it well-formed.
pub proof fn lemma_wf_seq_push<T: Domain>(s: Seq<MergeRange<T>>, r: MergeRange<T>)
    requires
        wf_seq(s),
        r.wf(),
        s.len() > 0 ==> s.last().end + 1 < r.start,
    ensures
        wf_seq(s.push(r)),
{
    let t = s.push(r);
    assert forall|k: int| 0 <= k < t.len() implies (#[trigger] t[k]).wf() by {
        if k < s.len() {
            assert(t[k] == s[k]);
        }
    }
    assert forall|i: int, j: int|
        #![trigger t[i], t[j]]
        0 <= i < j < t.len() implies t[i].end + 1 < t[j].start by {
        assert(t[i] == s[i]);
        if j < s.len() {
            assert(t[j] == s[j]);
            assert(s[i].end + 1 < s[j].start);
        } else {
            assert(t[j] == r);
            if i < s.len() - 1 {
                assert(s[i].end + 1 < s[s.len() - 1].start);
                assert(s[s.len() - 1].wf());
            } else {
                assert(s[i] == s.last());
            }
        }
    }
}

/// Appending a range adds exactly its coordinates to the covered set.
pub proof fn lemma_seq_cov_push<T: Domain>(s: Seq<MergeRange<T>>, r: MergeRange<T>)
    ensures
        seq_cov(s.push(r)) == seq_cov(s) + r.cov(),
{
    let t = s.push(r);
    assert forall|c: int| seq_cov(t).contains(c) implies (seq_cov(s) + r.cov()).contains(c) by {
        let k = choose|k: int| 0 <= k < t.len() && (#[trigger] t[k]).cov().contains(c);
        if k < s.len() {
            assert(t[k] == s[k]);
            assert(seq_cov(s).contains(c));
        } else {
            assert(t[k] == r);
        }
    }
    assert forall|c: int| (seq_cov(s) + r.cov()).contains(c) implies seq_cov(t).contains(c) by {
        if seq_cov(s).contains(c) {
            let k = choose|k: int| 0 <= k < s.len() && (#[trigger] s[k]).cov().contains(c);
            assert(t[k] == s[k]);
            assert(t[k].cov().contains(c));
        } else {
            assert(t[s.len() as int] == r);
            assert(t[s.len() as int].cov().contains(c));
        }
    }
    assert(seq_cov(t) =~= seq_cov(s) + r.cov());
}

/// The covered set splits at any index: the whole sequence covers exactly
/// what its two halves cover together.
pub proof fn lemma_seq_cov_split<T: Domain>(s: Seq<MergeRange<T>>, m: int)
    requires
        0 <= m <= s.len(),
    ensures
        seq_cov(s) == seq_cov(s.subrange(0, m)) + seq_cov(s.subrange(m, s.len() as int)),
{
    let a = s.subrange(0, m);
    let b = s.subrange(m, s.len() as int);
    assert forall|c: int| seq_cov(s).contains(c) implies (seq_cov(a) + seq_cov(b)).contains(c) by {
        let k = choose|k: int| 0 <= k < s.len() && (#[trigger] s[k]).cov().contains(c);
        if k < m {
            assert(a[k] == s[k]);
            assert(a[k].cov().contains(c));
        } else {
            assert(b[k - m] == s[k]);
            assert(b[k - m].cov().contains(c));
        }
    }
    assert forall|c: int| (seq_cov(a) + seq_cov(b)).contains(c) implies seq_cov(s).contains(c) by {
        if seq_cov(a).contains(c) {
            let k = choose|k: int| 0 <= k < a.len() && (#[trigger] a[k]).cov().contains(c);
            assert(s[k] == a[k]);
            assert(s[k].cov().contains(c));
        } else {
            let k = choose|k: int| 0 <= k < b.len() && (#[trigger] b[k]).cov().contains(c);
            assert(s[m + k] == b[k]);
            assert(s[m + k].cov().contains(c));
        }
    }
    assert(seq_cov(s) =~= seq_cov(a) + seq_cov(b));
}

/// Appending a range adds to the multiply-covered set exactly the
/// coordinates it shares with what the sequence already covers.
pub proof fn lemma_multi_cov_push<T: Domain>(s: Seq<MergeRange<T>>, r: MergeRange<T>)
    ensures
        multi_cov(s.push(r)) == multi_cov(s) + seq_cov(s).intersect(r.cov()),
{
    let t = s.push(r);
    assert forall|c: int| multi_cov(t).contains(c) implies (multi_cov(s) + seq_cov(s).intersect(
        r.cov(),
    )).contains(c) by {
        let (i, j) = choose|i: int, j: int|
            0 <= i < j < t.len() && (#[trigger] t[i]).cov().contains(c) && (
            #[trigger] t[j]).cov().contains(c);
        assert(t[i] == s[i]);
        if j < s.len() {
            assert(t[j] == s[j]);
            assert(multi_cov(s).contains(c));
        } else {
            assert(t[j] == r);
            assert(s[i].cov().contains(c));
            assert(seq_cov(s).contains(c));
        }
    }
    assert forall|c: int| (multi_cov(s) + seq_cov(s).intersect(r.cov())).contains(c)
        implies multi_cov(t).contains(c) by {
        if multi_cov(s).contains(c) {
            let (i, j) = choose|i: int, j: int|
                0 <= i < j < s.len() && (#[trigger] s[i]).cov().contains(c) && (
                #[trigger] s[j]).cov().contains(c);
            assert(t[i] == s[i]);
            assert(t[j] == s[j]);
            assert(t[i].cov().contains(c) && t[j].cov().contains(c));
        } else {
            let i = choose|i: int| 0 <= i < s.len() && (#[trigger] s[i]).cov().contains(c);
            assert(t[i] == s[i]);
            assert(t[s.len() as int] == r);
            assert(t[i].cov().contains(c) && t[s.len() as int].cov().contains(c));
        }
    }
    assert(multi_cov(t) =~= multi_cov(s) + seq_cov(s).intersect(r.cov()));
}

/// In a well-formed, non-empty sequence the coordinate just past the
/// first range's end is covered by no member: any later member begins
/// later still.
proof fn lemma_first_gap_uncovered<T: Domain>(x: Seq<MergeRange<T>>)
    requires
        wf_seq(x),
        x.len() > 0,
    ensures
        !seq_cov(x).contains(x[0].end + 1),
{
    let c = x[0].end + 1;
    if seq_cov(x).contains(c) {
        let k = choose|k: int| 0 <= k < x.len() && (#[trigger] x[k]).cov().contains(c);
        if k == 0 {
            assert(false);
        } else {
            lemma_wf_seq_order(x, 1, k);
            assert(x[0].end + 1 < x[1].start);
            assert(x[1].start <= x[k].start);
            assert(false);
        }
    }
}

/// The tail of a well-formed, non-empty sequence covers exactly the
/// covered coordinates past the first range's end.
#[verifier::rlimit(60)]
proof fn lemma_tail_cov<T: Domain>(x: Seq<MergeRange<T>>)
    requires
        wf_seq(x),
        x.len() > 0,
    ensures
        seq_cov(x.subrange(1, x.len() as int)) == Set::new(
            |c: int| seq_cov(x).contains(c) && c > x[0].end,
        ),
{
    let xt = x.subrange(1, x.len() as int);
    assert forall|c: int| seq_cov(xt).contains(c) implies seq_cov(x).contains(c) && c > x[0].end by {
        let k = choose|k: int| 0 <= k < xt.len() && (#[trigger] xt[k]).cov().contains(c);
        assert(xt[k] == x[k + 1]);
        assert(x[k + 1].cov().contains(c));
        lemma_wf_seq_order(x, 0, k + 1);
        assert(x[0].end + 1 < x[k + 1].start);
    }
    assert forall|c: int| seq_cov(x).contains(c) && c > x[0].end implies seq_cov(xt).contains(
        c,
    ) by {
        let k = choose|k: int| 0 <= k < x.len() && (#[trigger] x[k]).cov().contains(c);
        assert(k >= 1);
        assert(xt[k - 1] == x[k]);
        assert(xt[k - 1].cov().contains(c));
    }
    assert(seq_cov(xt) =~= Set::new(|c: int| seq_cov(x).contains(c) && c > x[0].end));
}

/// A well-formed sequence is uniquely determined by the coordinate set it
/// covers: two well-formed sequences covering the same coordinates are equal.
#[verifier::rlimit(60)]
pub proof fn lemma_cov_canonical<T: Domain>(a: Seq<MergeRange<T>>, b: Seq<MergeRange<T>>)
    requires
        wf_seq(a),
        wf_seq(b),
        seq_cov(a) == seq_cov(b),
    ensures
        a == b,
    decreases a.len(),
{
    if a.len() == 0 {
        if b.len() > 0 {
            assert(b[0].wf());
            assert(b[0].cov().contains(b[0].start as int));
            assert(seq_cov(b).contains(b[0].start as int));
            let k = choose|k: int| 0 <= k < a.len() && (#[trigger] a[k]).cov().contains(
                b[0].start as int,
            );
            assert(false);
        }
        assert(a =~= b);
    } else if b.len() == 0 {
        assert(a[0].wf());
        assert(a[0].cov().contains(a[0].start as int));
        assert(seq_cov(a).contains(a[0].start as int));
        let k = choose|k: int| 0 <= k < b.len() && (#[trigger] b[k]).cov().contains(
            a[0].start as int,
        );
        assert(false);
    } else {
        // The first ranges agree on their start: each sequence's first start
        // is the least covered coordinate.
        assert(a[0].wf());
        assert(b[0].wf());
        assert(a[0].cov().contains(a[0].start as int));
        assert(seq_cov(b).contains(a[0].start as int));
        let ka = choose|k: int| 0 <= k < b.len() && (#[trigger] b[k]).cov().contains(
            a[0].start as int,
        );
        lemma_wf_seq_order(b, 0, ka);
        assert(b[0].start <= a[0].start);
        assert(b[0].cov().contains(b[0].start as int));
        assert(seq_cov(a).contains(b[0].start as int));
        let kb = choose|k: int| 0 <= k < a.len() && (#[trigger] a[k]).cov().contains(
            b[0].start as int,
        );
        lemma_wf_seq_order(a, 0, kb);
        assert(a[0].start == b[0].start);
        // And on their end: past a shorter first range, the coordinate just
        // beyond its end would have to be covered by a later range, which
        // the gap invariant forbids.
        if a[0].end < b[0].end {
            lemma_first_gap_uncovered(a);
            assert(b[0].cov().contains(a[0].end + 1));
            assert(seq_cov(a).contains(a[0].end + 1));
            assert(false);
        }
        if b[0].end < a[0].end {
            lemma_first_gap_uncovered(b);
            assert(a[0].cov().contains(b[0].end + 1));
            assert(seq_cov(b).contains(b[0].end + 1));
            assert(false);
        }
        assert(a[0] == b[0]);
        // The tails cover the same coordinates: exactly those past the
        // shared first range.
        let at = a.subrange(1, a.len() as int);
        let bt = b.subrange(1, b.len() as int);
        lemma_wf_seq_subrange(a, 1, a.len() as int);
        lemma_wf_seq_subrange(b, 1, b.len() as int);
        lemma_tail_cov(a);
        lemma_tail_cov(b);
        assert(Set::new(|c: int| seq_cov(a).contains(c) && c > a[0].end) =~= Set::new(
            |c: int| seq_cov(b).contains(c) && c > b[0].end,
        ));
        assert(seq_cov(at) == seq_cov(bt));
        lemma_cov_canonical(at, bt);
        assert forall|k: int| 0 <= k < a.len() implies a[k] == b[k] by {
            if k >= 1 {
                assert(at[k - 1] == a[k]);
                assert(bt[k - 1] == b[k]);
            }
        }
        assert(a =~= b);
    }
}

} // verus!
