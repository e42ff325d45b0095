//! Span selection of the pixel-sort node: which runs of a row get sorted, given which pixels
//! pass the mask.

use vstd::prelude::*;

verus! {

/// Scan state after the first `n` mask values: `(start, end, spans)`, where `spans` are the runs
/// closed (and so sorted) so far, in order.
///
/// At position `i`: a masked pixel extends the open run to `i`; an unmasked pixel either moves an
/// empty run (`start == end`) to `i`, or closes the run `start..=end` and opens a new one at `i`.
pub open spec fn span_scan(mask: Seq<bool>, n: nat) -> (int, int, Seq<(usize, usize)>)
    decreases n,
{
    if n == 0 {
        (0, 0, Seq::empty())
    } else {
        let (s, e, sp) = span_scan(mask, (n - 1) as nat);
        let i = n - 1;
        if mask[i] {
            (s, i, sp)
        } else if s == e {
            (i, i, sp)
        } else {
            (i, i, sp.push((s as usize, e as usize)))
        }
    }
}

/// The runs of a row that the pixel-sort node sorts, each as `(start, end)` with `end` included.
pub open spec fn sort_spans_of(mask: Seq<bool>) -> Seq<(usize, usize)> {
    span_scan(mask, mask.len()).2
}

/// The runs, in order, that the pixel-sort node hands to its sort function for a row whose
/// pixels pass the mask as `mask` says: a run starts at the row's first pixel or at an unmasked
/// pixel, goes on over masked pixels, and is sorted when the next unmasked pixel arrives and it
/// holds at least two pixels. A run still open at the end of the row is not sorted.
pub fn sort_spans(mask: &Vec<bool>) -> (spans: Vec<(usize, usize)>)
    ensures
        spans@ == sort_spans_of(mask@),
        forall|k: int|
            0 <= k < spans.len() ==> is_sorted_run(
                mask@,
                #[trigger] spans@[k].0 as int,
                spans@[k].1 as int,
            ),
        forall|s: int, z: int|
            #[trigger] is_sorted_run(mask@, s, z) ==> exists|k: int|
                0 <= k < spans.len() && #[trigger] spans@[k] == (s as usize, z as usize),
        forall|k: int, m: int|
            0 <= k < m < spans.len() ==> #[trigger] spans@[k].1 < #[trigger] spans@[m].0,
{
    let n = mask.len();
    let mut spans: Vec<(usize, usize)> = Vec::new();
    let mut sort_start: usize = 0;
    let mut sort_end: usize = 0;
    let mut i: usize = 0;
    while i < n
        invariant
            n == mask.len(),
            i <= n,
            span_scan(mask@, i as nat) == (sort_start as int, sort_end as int, spans@),
        decreases n - i,
    {
        if mask[i] {
            sort_end = i;
        } else if sort_start == sort_end {
            sort_start = i;
            sort_end = i;
        } else {
            spans.push((sort_start, sort_end));
            sort_start = i;
            sort_end = i;
        }
        i += 1;
    }
    proof {
        lemma_sort_spans_are_the_sorted_runs(mask@);
    }
    spans
}

proof fn lemma_span_scan_shape(mask: Seq<bool>, n: nat)
    requires
        n <= mask.len(),
        mask.len() <= usize::MAX,
    ensures
        ({
            let (s, e, sp) = span_scan(mask, n);
            &&& n >= 1 ==> e == n - 1
            &&& n == 0 ==> s == 0 && e == 0
            &&& 0 <= s <= e
            &&& s == 0 || !mask[s]
            &&& forall|j: int| s < j <= e ==> #[trigger] mask[j]
            &&& forall|k: int|
                0 <= k < sp.len() ==> {
                    let (a, z) = #[trigger] sp[k];
                    &&& a < z
                    &&& z + 1 <= s
                    &&& z + 1 < n
                    &&& !mask[z + 1]
                    &&& a == 0 || !mask[a as int]
                    &&& forall|j: int| a < j <= z ==> #[trigger] mask[j]
                }
            &&& forall|k: int, m: int| 0 <= k < m < sp.len() ==> #[trigger] sp[k].1 < #[trigger] sp[m].0
        }),
    decreases n,
{
    if n > 0 {
        lemma_span_scan_shape(mask, (n - 1) as nat);
        let (s, e, sp) = span_scan(mask, (n - 1) as nat);
        let i = n - 1;
        if !mask[i] && s != e {
            let sp2 = sp.push((s as usize, e as usize));
            assert(span_scan(mask, n).2 == sp2);
            assert forall|k: int| 0 <= k < sp2.len() implies {
                let (a, z) = #[trigger] sp2[k];
                &&& a < z
                &&& z + 1 <= i
                &&& z + 1 < n
                &&& !mask[z + 1]
                &&& a == 0 || !mask[a as int]
                &&& forall|j: int| a < j <= z ==> #[trigger] mask[j]
            } by {
                if k < sp.len() {
                    assert(sp2[k] == sp[k]);
                }
            }
            assert forall|k: int, m: int| 0 <= k < m < sp2.len() implies #[trigger] sp2[k].1
                < #[trigger] sp2[m].0 by {
                assert(sp2[k] == sp[k]);
                if m < sp.len() {
                    assert(sp2[m] == sp[m]);
                }
            }
        }
    }
}

/// Every sorted run lies inside the row and spans at least two pixels; its pixels after the
/// first all pass the mask; it starts at the row's first pixel or at an unmasked one; the pixel
/// right after it is unmasked; and the runs come in order without overlapping.
pub proof fn lemma_sort_spans_shape(mask: Seq<bool>)
    requires
        mask.len() <= usize::MAX,
    ensures
        forall|k: int|
            0 <= k < sort_spans_of(mask).len() ==> {
                let (a, z) = #[trigger] sort_spans_of(mask)[k];
                &&& a < z
                &&& z + 1 < mask.len()
                &&& !mask[z + 1]
                &&& a == 0 || !mask[a as int]
                &&& forall|j: int| a < j <= z ==> #[trigger] mask[j]
            },
        forall|k: int, m: int|
            0 <= k < m < sort_spans_of(mask).len() ==> #[trigger] sort_spans_of(mask)[k].1
                < #[trigger] sort_spans_of(mask)[m].0,
{
    lemma_span_scan_shape(mask, mask.len());
}

/// `(s, z)` is a run that the pixel-sort node sorts: it holds at least two pixels, starts at the
/// row's first pixel or at an unmasked pixel, goes on over masked pixels only, and the pixel
/// right after it is unmasked.
pub open spec fn is_sorted_run(mask: Seq<bool>, s: int, z: int) -> bool {
    &&& 0 <= s < z
    &&& z + 1 < mask.len()
    &&& !mask[z + 1]
    &&& (s == 0 || !mask[s])
    &&& forall|j: int| s < j <= z ==> #[trigger] mask[j]
}

proof fn lemma_span_scan_complete(mask: Seq<bool>, n: nat)
    requires
        n <= mask.len(),
        mask.len() <= usize::MAX,
    ensures
        forall|s: int, z: int|
            is_sorted_run(mask, s, z) && z + 1 < n ==> #[trigger] span_scan(mask, n).2.contains(
                (s as usize, z as usize),
            ),
    decreases n,
{
    if n > 0 {
        lemma_span_scan_complete(mask, (n - 1) as nat);
        lemma_span_scan_shape(mask, (n - 1) as nat);
        let (s0, e0, sp) = span_scan(mask, (n - 1) as nat);
        let i = n - 1;
        let sp1 = span_scan(mask, n).2;
        assert forall|s: int, z: int| is_sorted_run(mask, s, z) && z + 1 < n implies #[trigger] sp1.contains(
            (s as usize, z as usize),
        ) by {
            if z + 1 < n - 1 {
                assert(sp.contains((s as usize, z as usize)));
                let k = choose|k: int| 0 <= k < sp.len() && sp[k] == (s as usize, z as usize);
                if !mask[i] && s0 != e0 {
                    assert(sp1 == sp.push((s0 as usize, e0 as usize)));
                    assert(sp1[k] == sp[k]);
                } else {
                    assert(sp1 == sp);
                }
            } else {
                assert(z == i - 1);
                assert(!mask[i]);
                assert(mask[z]);
                assert(e0 == i - 1);
                if s < s0 {
                    assert(mask[s0]);
                } else if s > s0 {
                    assert(mask[s]);
                }
                assert(s == s0);
                assert(s0 != e0);
                assert(sp1 == sp.push((s0 as usize, e0 as usize)));
                assert(sp1[sp.len() as int] == (s as usize, z as usize));
            }
        }
    }
}

/// The runs that `sort_spans` returns are exactly the runs that the node sorts
/// ([`is_sorted_run`]), each once, in the order of the row: every span is such a run, every
/// such run is a span, and each span ends before the next one starts.
pub proof fn lemma_sort_spans_are_the_sorted_runs(mask: Seq<bool>)
    requires
        mask.len() <= usize::MAX,
    ensures
        forall|k: int|
            0 <= k < sort_spans_of(mask).len() ==> is_sorted_run(
                mask,
                #[trigger] sort_spans_of(mask)[k].0 as int,
                sort_spans_of(mask)[k].1 as int,
            ),
        forall|s: int, z: int|
            #[trigger] is_sorted_run(mask, s, z) ==> exists|k: int|
                0 <= k < sort_spans_of(mask).len() && #[trigger] sort_spans_of(mask)[k] == (
                    s as usize,
                    z as usize,
                ),
        forall|k: int, m: int|
            0 <= k < m < sort_spans_of(mask).len() ==> #[trigger] sort_spans_of(mask)[k].1
                < #[trigger] sort_spans_of(mask)[m].0,
{
    lemma_sort_spans_shape(mask);
    lemma_span_scan_complete(mask, mask.len());
    let sp = sort_spans_of(mask);
    assert forall|k: int| 0 <= k < sp.len() implies is_sorted_run(
        mask,
        #[trigger] sp[k].0 as int,
        sp[k].1 as int,
    ) by {
        let (a, z) = sp[k];
        assert(a < z);
    }
    assert forall|s: int, z: int| #[trigger] is_sorted_run(mask, s, z) implies exists|k: int|
        0 <= k < sp.len() && #[trigger] sp[k] == (s as usize, z as usize) by {
        assert(sp.contains((s as usize, z as usize)));
    }
}

} // verus!
