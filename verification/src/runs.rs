//! Run segmentation and luminosity sorting over one pixel sequence.
//!
//! A run is a maximal contiguous stretch of sortable pixels, bounded by
//! barrier pixels or by the ends of the sequence.  [`sort_interval`] sorts
//! one run in place and reports where it ended; [`sort_chunk`] walks a whole
//! sequence run by run.  The specification pins the result exactly: each run
//! is replaced by its stable insertion sort by ascending luminosity, and
//! everything outside the runs is left untouched.

use vstd::prelude::*;
use vstd::seq_lib::lemma_multiset_commutative;
use vstd::multiset::Multiset;
use vstd::seq_lib::group_to_multiset_ensures;
use crate::pixel::{Pixel, luminosity, is_sortable, calculate_luminosity, apply_threshold};

verus! {

/// Luminosity is non-decreasing along the whole sequence.
pub open spec fn lum_sorted(s: Seq<Pixel>) -> bool {
    forall|i: int, j: int| 0 <= i <= j < s.len() ==> luminosity(s[i]) <= luminosity(s[j])
}

/// Inserts `p` into `s` after every element whose luminosity is at most
/// `luminosity(p)`.  On a sorted sequence this is one step of a stable
/// insertion sort.
pub open spec fn insert_by_luminosity(s: Seq<Pixel>, p: Pixel) -> Seq<Pixel>
    decreases s.len(),
{
    if s.len() == 0 {
        seq![p]
    } else if luminosity(p) < luminosity(s.last()) {
        insert_by_luminosity(s.drop_last(), p).push(s.last())
    } else {
        s.push(p)
    }
}

/// Stable insertion sort of a run by ascending luminosity.
pub open spec fn sort_run(s: Seq<Pixel>) -> Seq<Pixel>
    decreases s.len(),
{
    if s.len() == 0 {
        Seq::<Pixel>::empty()
    } else {
        insert_by_luminosity(sort_run(s.drop_last()), s.last())
    }
}

/// The first index at or after `i` that does not hold a sortable pixel
/// (the exclusive end of the run starting at `i`).
pub open spec fn run_end(s: Seq<Pixel>, i: int) -> int
    decreases s.len() - i when 0 <= i <= s.len()
{
    if i >= s.len() || !is_sortable(s[i]) {
        i
    } else {
        run_end(s, i + 1)
    }
}

/// `s` with the run starting at `i` replaced by its sorted image; all other
/// positions unchanged.
pub open spec fn sorted_interval(s: Seq<Pixel>, i: int) -> Seq<Pixel> {
    s.subrange(0, i) + sort_run(s.subrange(i, run_end(s, i))) + s.subrange(
        run_end(s, i),
        s.len() as int,
    )
}

/// Sorts every run of `s` from position `i` onward, advancing run by run
/// (one position at a time over barriers).
pub open spec fn sorted_runs_from(s: Seq<Pixel>, i: int) -> Seq<Pixel>
    decreases s.len() - i when 0 <= i via sorted_runs_from_decreases
{
    if i >= s.len() {
        s
    } else {
        let e = run_end(s, i);
        sorted_runs_from(sorted_interval(s, i), if e == i { i + 1 } else { e })
    }
}

#[via_fn]
proof fn sorted_runs_from_decreases(s: Seq<Pixel>, i: int) {
    if i < s.len() {
        lemma_run_end_bounds(s, i);
        lemma_sorted_interval_len(s, i);
    }
}

/// Every run of `s` sorted by ascending luminosity, barriers left in place.
pub open spec fn sorted_runs(s: Seq<Pixel>) -> Seq<Pixel> {
    sorted_runs_from(s, 0)
}

/// The run end lies between `i` and the length, every pixel of the run is
/// sortable, and the pixel at the run end (if any) is a barrier.
pub proof fn lemma_run_end_bounds(s: Seq<Pixel>, i: int)
    requires
        0 <= i <= s.len(),
    ensures
        i <= run_end(s, i) <= s.len(),
        forall|k: int| i <= k < run_end(s, i) ==> is_sortable(s[k]),
        run_end(s, i) < s.len() ==> !is_sortable(s[run_end(s, i)]),
    decreases s.len() - i,
{
    if !(i >= s.len() || !is_sortable(s[i])) {
        lemma_run_end_bounds(s, i + 1);
    }
}

/// Inserting adds one to the length.
pub proof fn lemma_insert_len(s: Seq<Pixel>, p: Pixel)
    ensures
        insert_by_luminosity(s, p).len() == s.len() + 1,
    decreases s.len(),
{
    if s.len() != 0 && luminosity(p) < luminosity(s.last()) {
        lemma_insert_len(s.drop_last(), p);
    }
}

/// Sorting a run preserves its length.
pub proof fn lemma_sort_run_len(s: Seq<Pixel>)
    ensures
        sort_run(s).len() == s.len(),
    decreases s.len(),
{
    if s.len() != 0 {
        lemma_sort_run_len(s.drop_last());
        lemma_insert_len(sort_run(s.drop_last()), s.last());
    }
}

/// Sorting the run of `s` at `i` in place preserves the length.
pub proof fn lemma_sorted_interval_len(s: Seq<Pixel>, i: int)
    requires
        0 <= i <= s.len(),
    ensures
        sorted_interval(s, i).len() == s.len(),
{
    lemma_run_end_bounds(s, i);
    lemma_sort_run_len(s.subrange(i, run_end(s, i)));
}

/// Inserting a pixel adds exactly that pixel to the multiset of the sequence.
pub proof fn lemma_insert_multiset(s: Seq<Pixel>, p: Pixel)
    ensures
        insert_by_luminosity(s, p).to_multiset() == s.to_multiset().insert(p),
    decreases s.len(),
{
    broadcast use group_to_multiset_ensures;

    if s.len() == 0 {
        assert(seq![p] =~= Seq::<Pixel>::empty().push(p));
        assert(Seq::<Pixel>::empty().to_multiset() =~= Multiset::<Pixel>::empty()) by {
            assert forall|x: Pixel| Seq::<Pixel>::empty().to_multiset().count(x) == 0 by {
                assert(!Seq::<Pixel>::empty().contains(x));
            }
        }
        assert(insert_by_luminosity(s, p).to_multiset() =~= s.to_multiset().insert(p));
    } else if luminosity(p) < luminosity(s.last()) {
        lemma_insert_multiset(s.drop_last(), p);
        assert(s =~= s.drop_last().push(s.last()));
        assert(s.to_multiset() =~= s.drop_last().to_multiset().insert(s.last()));
        assert(insert_by_luminosity(s, p).to_multiset() =~= s.drop_last().to_multiset().insert(
            p,
        ).insert(s.last()));
        assert(s.drop_last().to_multiset().insert(p).insert(s.last()) =~= s.drop_last().to_multiset().insert(
            s.last(),
        ).insert(p));
    } else {
    }
}

/// Sorting a run neither creates, destroys nor duplicates a pixel: the
/// multiset of pixels is preserved.
pub proof fn lemma_sort_run_permutation(s: Seq<Pixel>)
    ensures
        sort_run(s).to_multiset() == s.to_multiset(),
    decreases s.len(),
{
    broadcast use group_to_multiset_ensures;

    if s.len() != 0 {
        lemma_sort_run_permutation(s.drop_last());
        lemma_insert_multiset(sort_run(s.drop_last()), s.last());
        assert(s =~= s.drop_last().push(s.last()));
        assert(s.to_multiset() =~= s.drop_last().to_multiset().insert(s.last()));
    }
}

/// A sorted run holds exactly the pixels of the run it came from.
pub proof fn lemma_sort_run_contains(s: Seq<Pixel>)
    ensures
        forall|x: Pixel| sort_run(s).contains(x) <==> s.contains(x),
{
    broadcast use group_to_multiset_ensures;

    lemma_sort_run_permutation(s);
    assert forall|x: Pixel| sort_run(s).contains(x) <==> s.contains(x) by {
        assert(sort_run(s).contains(x) <==> sort_run(s).to_multiset().count(x) > 0);
        assert(s.contains(x) <==> s.to_multiset().count(x) > 0);
    }
}

/// Inserting into a sorted sequence keeps it sorted.
pub proof fn lemma_insert_keeps_sorted(s: Seq<Pixel>, p: Pixel)
    requires
        lum_sorted(s),
    ensures
        lum_sorted(insert_by_luminosity(s, p)),
    decreases s.len(),
{
    broadcast use group_to_multiset_ensures;

    if s.len() == 0 {
    } else if luminosity(p) < luminosity(s.last()) {
        assert(lum_sorted(s.drop_last()));
        lemma_insert_keeps_sorted(s.drop_last(), p);
        lemma_insert_multiset(s.drop_last(), p);
        lemma_insert_len(s.drop_last(), p);
        let t = insert_by_luminosity(s.drop_last(), p);
        let r = insert_by_luminosity(s, p);
        assert(r == t.push(s.last()));
        assert forall|i: int, j: int| 0 <= i <= j < r.len() implies luminosity(r[i]) <= luminosity(
            r[j],
        ) by {
            if j < r.len() - 1 {
                assert(luminosity(t[i]) <= luminosity(t[j]));
            } else {
                // r[j] == s.last(); every element of t is an element of
                // s.drop_last() or is p, and both stay at or below s.last().
                if i < r.len() - 1 {
                    assert(t.contains(t[i]));
                    assert(t.to_multiset().count(t[i]) > 0);
                    if t[i] == p {
                        assert(luminosity(t[i]) <= luminosity(s.last()));
                    } else {
                        assert(s.drop_last().to_multiset().insert(p).count(t[i]) > 0);
                        assert(s.drop_last().to_multiset().count(t[i]) > 0);
                        assert(s.drop_last().contains(t[i]));
                        let w = choose|w: int|
                            0 <= w < s.drop_last().len() && s.drop_last()[w] == t[i];
                        assert(luminosity(s[w]) <= luminosity(s.last()));
                    }
                }
            }
        }
    } else {
        let r = s.push(p);
        assert forall|i: int, j: int| 0 <= i <= j < r.len() implies luminosity(r[i]) <= luminosity(
            r[j],
        ) by {
            if j == r.len() - 1 && i < j {
                assert(luminosity(r[i]) <= luminosity(s.last()));
            }
        }
    }
}

/// The sorted image of a run is ordered by ascending luminosity.
pub proof fn lemma_sort_run_sorted(s: Seq<Pixel>)
    ensures
        lum_sorted(sort_run(s)),
    decreases s.len(),
{
    if s.len() != 0 {
        lemma_sort_run_sorted(s.drop_last());
        lemma_insert_keeps_sorted(sort_run(s.drop_last()), s.last());
    }
}

/// Inserts `p` into the sorted vector `run`, after every element whose
/// luminosity is at most that of `p`.
fn insert_pixel(run: &mut Vec<Pixel>, p: Pixel)
    ensures
        final(run)@ == insert_by_luminosity(old(run)@, p),
{
    let lum_p = calculate_luminosity(&p);
    let mut j: usize = run.len();
    while j > 0 && calculate_luminosity(&run[j - 1]) > lum_p
        invariant
            j <= run@.len(),
            run@ == old(run)@,
            lum_p == luminosity(p),
            forall|k: int| j <= k < run@.len() ==> luminosity(run@[k]) > luminosity(p),
        decreases j,
    {
        j = j - 1;
    }
    proof {
        lemma_insert_at_position(run@, p, j as int);
    }
    run.insert(j, p);
}

/// Copies `run` into a fresh vector sorted by ascending luminosity
/// (a stable insertion sort).
pub fn sort_pixels(run: &Vec<Pixel>) -> (out: Vec<Pixel>)
    ensures
        out@ == sort_run(run@),
{
    let mut out: Vec<Pixel> = Vec::new();
    let mut i: usize = 0;
    while i < run.len()
        invariant
            i <= run@.len(),
            out@ == sort_run(run@.subrange(0, i as int)),
        decreases run@.len() - i,
    {
        insert_pixel(&mut out, run[i]);
        proof {
            assert(run@.subrange(0, i + 1).drop_last() =~= run@.subrange(0, i as int));
            assert(run@.subrange(0, i + 1).last() == run@[i as int]);
        }
        i = i + 1;
    }
    proof {
        assert(run@.subrange(0, run@.len() as int) =~= run@);
    }
    out
}

/// Sorts the run that starts at `index` in place and returns its exclusive
/// end: the first position at or after `index` that holds a barrier pixel,
/// or the end of the sequence.  Positions outside `[index, end_index)` are
/// left untouched.  When the pixel at `index` is itself a barrier the run is
/// empty, `end_index == index`, and the caller must advance by one position.
pub fn sort_interval(chunk: &mut Vec<Pixel>, index: usize) -> (end_index: usize)
    requires
        index <= old(chunk)@.len(),
    ensures
        end_index == run_end(old(chunk)@, index as int),
        index <= end_index <= old(chunk)@.len(),
        final(chunk)@ == sorted_interval(old(chunk)@, index as int),
{
    let ghost s0 = chunk@;
    let mut sortable: Vec<Pixel> = Vec::new();
    let start_index: usize = index;
    let mut end_index: usize = index;
    while end_index < chunk.len() && apply_threshold(
        calculate_luminosity(&chunk[end_index]),
    ).is_some()
        invariant
            chunk@ == s0,
            index <= end_index <= s0.len(),
            sortable@ == s0.subrange(index as int, end_index as int),
            run_end(s0, index as int) == run_end(s0, end_index as int),
        decreases s0.len() - end_index,
    {
        sortable.push(chunk[end_index]);
        end_index = end_index + 1;
        proof {
            assert(sortable@ =~= s0.subrange(index as int, end_index as int));
            assert(run_end(s0, end_index - 1) == run_end(s0, end_index as int));
        }
    }
    proof {
        assert(run_end(s0, end_index as int) == end_index);
        lemma_run_end_bounds(s0, index as int);
        lemma_sort_run_len(sortable@);
    }
    let sorted_run = sort_pixels(&sortable);
    let mut i: usize = start_index;
    while i < end_index
        invariant
            start_index == index,
            index <= i <= end_index <= s0.len(),
            chunk@.len() == s0.len(),
            sorted_run@ == sort_run(s0.subrange(index as int, end_index as int)),
            sorted_run@.len() == end_index - index,
            forall|k: int| 0 <= k < index ==> chunk@[k] == s0[k],
            forall|k: int| index <= k < i ==> chunk@[k] == sorted_run@[k - index],
            forall|k: int| i <= k < s0.len() ==> chunk@[k] == s0[k],
        decreases end_index - i,
    {
        let p = sorted_run[i - start_index];
        chunk[i] = p;
        i = i + 1;
    }
    proof {
        assert(chunk@ =~= sorted_interval(s0, index as int));
    }
    end_index
}

/// Sorts every run of `chunk` in place, walking the sequence run by run and
/// stepping over barrier pixels one position at a time.
pub fn sort_chunk(chunk: &mut Vec<Pixel>)
    ensures
        final(chunk)@ == sorted_runs(old(chunk)@),
        final(chunk)@.len() == old(chunk)@.len(),
{
    let mut index: usize = 0;
    while index < chunk.len()
        invariant
            index <= chunk@.len(),
            chunk@.len() == old(chunk)@.len(),
            sorted_runs_from(chunk@, index as int) == sorted_runs(old(chunk)@),
        decreases chunk@.len() - index,
    {
        let ghost prev = chunk@;
        let next_index = sort_interval(chunk, index);
        proof {
            lemma_run_end_bounds(prev, index as int);
            lemma_sorted_interval_len(prev, index as int);
            assert(sorted_runs_from(prev, index as int) == sorted_runs_from(
                chunk@,
                if next_index == index {
                    index + 1
                } else {
                    next_index as int
                },
            ));
        }
        if next_index == index {
            index = index + 1;
        } else {
            index = next_index;
        }
    }
    proof {
        assert(sorted_runs_from(chunk@, index as int) == chunk@);
    }
}

/// Where the elements at and after `j` all exceed `p` in luminosity and the
/// element just before `j` (if any) does not, inserting places `p` at `j`.
pub proof fn lemma_insert_at_position(s: Seq<Pixel>, p: Pixel, j: int)
    requires
        0 <= j <= s.len(),
        forall|k: int| j <= k < s.len() ==> luminosity(s[k]) > luminosity(p),
        j > 0 ==> luminosity(s[j - 1]) <= luminosity(p),
    ensures
        insert_by_luminosity(s, p) == s.insert(j, p),
    decreases s.len(),
{
    if j == s.len() {
        if s.len() == 0 {
            assert(seq![p] =~= s.insert(0, p));
        } else {
            assert(insert_by_luminosity(s, p) == s.push(p));
            assert(s.push(p) =~= s.insert(j, p));
        }
    } else {
        assert(luminosity(s.last()) > luminosity(p));
        assert(forall|k: int| j <= k < s.drop_last().len() ==> luminosity(#[trigger] s.drop_last()[k])
            > luminosity(p));
        lemma_insert_at_position(s.drop_last(), p, j);
        assert(insert_by_luminosity(s, p) == s.drop_last().insert(j, p).push(s.last()));
        assert(s.drop_last().insert(j, p).push(s.last()) =~= s.insert(j, p));
    }
}

/// Sorting the run at `i` in place permutes the sequence: its multiset of
/// pixels is unchanged.
pub proof fn lemma_sorted_interval_permutation(s: Seq<Pixel>, i: int)
    requires
        0 <= i <= s.len(),
    ensures
        sorted_interval(s, i).to_multiset() == s.to_multiset(),
{
    lemma_run_end_bounds(s, i);
    let e = run_end(s, i);
    let a = s.subrange(0, i);
    let run = s.subrange(i, e);
    let c = s.subrange(e, s.len() as int);
    lemma_sort_run_permutation(run);
    lemma_multiset_commutative(a + sort_run(run), c);
    lemma_multiset_commutative(a, sort_run(run));
    lemma_multiset_commutative(a + run, c);
    lemma_multiset_commutative(a, run);
    assert(s =~= a + run + c);
    assert(sorted_interval(s, i).to_multiset() =~= s.to_multiset());
}

proof fn lemma_sorted_runs_from_permutation(s: Seq<Pixel>, i: int)
    requires
        0 <= i <= s.len(),
    ensures
        sorted_runs_from(s, i).to_multiset() == s.to_multiset(),
    decreases s.len() - i,
{
    if i < s.len() {
        lemma_run_end_bounds(s, i);
        lemma_sorted_interval_len(s, i);
        lemma_sorted_interval_permutation(s, i);
        let e = run_end(s, i);
        let i2: int = if e == i {
            i + 1
        } else {
            e
        };
        lemma_sorted_runs_from_permutation(sorted_interval(s, i), i2);
    }
}

/// Sorting the runs of a sequence permutes it: no pixel is created,
/// destroyed or duplicated.
pub proof fn lemma_sorted_runs_permutation(s: Seq<Pixel>)
    ensures
        sorted_runs(s).to_multiset() == s.to_multiset(),
{
    lemma_sorted_runs_from_permutation(s, 0);
}

proof fn lemma_sorted_runs_from_props(s: Seq<Pixel>, i: int)
    requires
        0 <= i <= s.len(),
    ensures
        sorted_runs_from(s, i).len() == s.len(),
        forall|k: int| 0 <= k < i ==> sorted_runs_from(s, i)[k] == s[k],
        forall|k: int|
            i <= k < s.len() ==> is_sortable(#[trigger] sorted_runs_from(s, i)[k]) == is_sortable(
                s[k],
            ),
        forall|k: int|
            i <= k < s.len() && !is_sortable(s[k]) ==> sorted_runs_from(s, i)[k] == s[k],
        forall|a: int, b: int|
            #![trigger sorted_runs_from(s, i)[a], sorted_runs_from(s, i)[b]]
            (i <= a <= b < s.len() && (forall|k: int| a <= k <= b ==> is_sortable(s[k])))
                ==> luminosity(sorted_runs_from(s, i)[a]) <= luminosity(sorted_runs_from(s, i)[b]),
    decreases s.len() - i,
{
    let out = sorted_runs_from(s, i);
    if i >= s.len() {
    } else {
        let e = run_end(s, i);
        lemma_run_end_bounds(s, i);
        let s2 = sorted_interval(s, i);
        lemma_sorted_interval_len(s, i);
        let run = s.subrange(i, e);
        let sorted = sort_run(run);
        lemma_sort_run_len(run);
        lemma_sort_run_sorted(run);
        lemma_sort_run_contains(run);
        let i2: int = if e == i {
            i + 1
        } else {
            e
        };
        assert(forall|k: int| 0 <= k < i ==> s2[k] == s[k]);
        assert(forall|k: int| e <= k < s.len() ==> s2[k] == s[k]);
        assert(forall|k: int| i <= k < e ==> s2[k] == sorted[k - i]);
        assert forall|k: int| i <= k < e implies is_sortable(s2[k]) by {
            let x = sorted[k - i];
            assert(sorted.contains(x));
            assert(run.contains(x));
            let j = choose|j: int| 0 <= j < run.len() && run[j] == x;
            assert(run[j] == s[i + j]);
            assert(is_sortable(s[i + j]));
        }
        lemma_sorted_runs_from_props(s2, i2);
        assert(out == sorted_runs_from(s2, i2));
        if e == i {
            assert(!is_sortable(s[i]));
            assert(out[i] == s2[i]);
            assert(s2[i] == s[i]);
        }
        // the run itself stays in place and sorted, and everything at or
        // after the next cursor is governed by the recursive call
        assert forall|k: int| i <= k < s.len() implies is_sortable(out[k]) == is_sortable(s[k]) by {
            if k < i2 {
                assert(out[k] == s2[k]);
            }
        }
        assert forall|k: int| i <= k < s.len() && !is_sortable(s[k]) implies out[k] == s[k] by {
            if k < i2 {
                assert(out[k] == s2[k]);
            }
        }
        assert forall|a: int, b: int|
            #![trigger out[a], out[b]]
            (i <= a <= b < s.len() && (forall|k: int| a <= k <= b ==> is_sortable(s[k])))
                implies luminosity(out[a]) <= luminosity(out[b]) by {
            if b < e {
                assert(out[a] == s2[a]);
                assert(out[b] == s2[b]);
                assert(s2[a] == sorted[a - i]);
                assert(s2[b] == sorted[b - i]);
                assert(luminosity(sorted[a - i]) <= luminosity(sorted[b - i]));
            } else if a >= i2 {
                assert forall|k: int| a <= k <= b implies is_sortable(s2[k]) by {
                    assert(is_sortable(s[k]));
                }
                assert(luminosity(sorted_runs_from(s2, i2)[a]) <= luminosity(
                    sorted_runs_from(s2, i2)[b],
                ));
            } else {
                // the stretch would straddle the barrier at the run end,
                // which is not sortable: impossible
                if e == i {
                    assert(is_sortable(s[a]));
                    assert(a == i);
                    assert(false);
                } else {
                    assert(a < e <= b);
                    assert(is_sortable(s[e]));
                    assert(false);
                }
            }
        }
    }
}

/// Barrier pixels never move: wherever the input holds a barrier pixel, the
/// output holds exactly that pixel, and sortable positions stay sortable.
pub proof fn lemma_sorted_runs_barriers_fixed(s: Seq<Pixel>)
    ensures
        sorted_runs(s).len() == s.len(),
        forall|k: int| 0 <= k < s.len() && !is_sortable(s[k]) ==> sorted_runs(s)[k] == s[k],
        forall|k: int|
            0 <= k < s.len() ==> is_sortable(#[trigger] sorted_runs(s)[k]) == is_sortable(s[k]),
{
    lemma_sorted_runs_from_props(s, 0);
}

/// A sequence that holds barrier pixels only (for instance every column of
/// a freshly allocated blank grid) is left exactly as it is: no run exists,
/// so nothing is sorted.
pub proof fn lemma_sorted_runs_all_barriers(s: Seq<Pixel>)
    requires
        forall|k: int| 0 <= k < s.len() ==> !is_sortable(s[k]),
    ensures
        sorted_runs(s) == s,
{
    lemma_sorted_runs_barriers_fixed(s);
    assert(sorted_runs(s) =~= s);
}

/// Within any stretch of sortable input pixels (so in particular within any
/// run), the output luminosities are non-decreasing.
pub proof fn lemma_sorted_runs_ordered(s: Seq<Pixel>, a: int, b: int)
    requires
        0 <= a <= b < s.len(),
        forall|k: int| a <= k <= b ==> is_sortable(s[k]),
    ensures
        luminosity(sorted_runs(s)[a]) <= luminosity(sorted_runs(s)[b]),
{
    lemma_sorted_runs_from_props(s, 0);
}

} // verus!
