//! Excerpt window selection: given the matched word positions of a page,
//! pick the starting offset whose window holds the most matches, with ties
//! broken toward the lowest offset.

use vstd::prelude::*;

verus! {

/// Whether location `l` falls inside the window `[off, off + w)`.
pub open spec fn in_window(l: u32, off: int, w: int) -> bool {
    off <= l && l < off + w
}

/// How many of the given locations fall inside the window at `off`.
pub open spec fn window_count(locs: Seq<u32>, off: int, w: int) -> int
    decreases locs.len(),
{
    if locs.len() == 0 {
        0
    } else {
        window_count(locs.drop_last(), off, w) + if in_window(locs.last(), off, w) {
            1int
        } else {
            0int
        }
    }
}

/// The largest location, or 0 for no locations.
pub open spec fn max_loc(locs: Seq<u32>) -> int
    decreases locs.len(),
{
    if locs.len() == 0 {
        0
    } else {
        let m = max_loc(locs.drop_last());
        if locs.last() > m {
            locs.last() as int
        } else {
            m
        }
    }
}

/// The lowest offset in `[0, n]` whose window holds the most locations.
pub open spec fn best_offset_upto(locs: Seq<u32>, w: int, n: int) -> int
    decreases n,
{
    if n <= 0 {
        0
    } else {
        let b = best_offset_upto(locs, w, n - 1);
        if window_count(locs, n, w) > window_count(locs, b, w) {
            n
        } else {
            b
        }
    }
}

/// The offset the excerpt selector returns: the lowest offset, over all
/// offsets, whose window holds the most locations; 0 for no locations.
pub open spec fn excerpt_offset(locs: Seq<u32>, w: int) -> int {
    if locs.len() == 0 {
        0
    } else {
        best_offset_upto(locs, w, max_loc(locs))
    }
}

proof fn lemma_all_le_max(locs: Seq<u32>)
    ensures
        forall|i: int| 0 <= i < locs.len() ==> locs[i] <= max_loc(locs),
    decreases locs.len(),
{
    if locs.len() > 0 {
        lemma_all_le_max(locs.drop_last());
        assert(max_loc(locs.drop_last()) <= max_loc(locs));
        assert(locs.last() <= max_loc(locs));
        assert forall|i: int| 0 <= i < locs.len() implies locs[i] <= max_loc(locs) by {
            if i < locs.len() - 1 {
                assert(locs.drop_last()[i] == locs[i]);
            } else {
                assert(locs[i] == locs.last());
            }
        }
    }
}

proof fn lemma_count_zero_beyond(locs: Seq<u32>, off: int, w: int)
    requires
        forall|i: int| 0 <= i < locs.len() ==> locs[i] < off,
    ensures
        window_count(locs, off, w) == 0,
    decreases locs.len(),
{
    if locs.len() > 0 {
        assert(forall|i: int|
            0 <= i < locs.len() - 1 ==> #[trigger] locs.drop_last()[i] == locs[i]);
        lemma_count_zero_beyond(locs.drop_last(), off, w);
    }
}

fn count_window(locs: &Vec<u32>, off: u64, w: u32) -> (c: usize)
    ensures
        c as int == window_count(locs@, off as int, w as int),
{
    let mut c: usize = 0;
    let mut i: usize = 0;
    while i < locs.len()
        invariant
            i <= locs.len(),
            c <= i,
            c as int == window_count(locs@.take(i as int), off as int, w as int),
        decreases locs.len() - i,
    {
        let l = locs[i];
        proof {
            assert(locs@.take(i as int + 1).drop_last() =~= locs@.take(i as int));
            assert(locs@.take(i as int + 1).last() == locs@[i as int]);
        }
        if l as u64 >= off && (l as u64 - off) < w as u64 {
            c = c + 1;
        }
        i = i + 1;
    }
    proof {
        assert(locs@.take(locs.len() as int) =~= locs@);
    }
    c
}

fn max_in(locs: &Vec<u32>) -> (m: u32)
    ensures
        m as int == max_loc(locs@),
{
    let mut m: u32 = 0;
    let mut i: usize = 0;
    while i < locs.len()
        invariant
            i <= locs.len(),
            m as int == max_loc(locs@.take(i as int)),
        decreases locs.len() - i,
    {
        proof {
            assert(locs@.take(i as int + 1).drop_last() =~= locs@.take(i as int));
            assert(locs@.take(i as int + 1).last() == locs@[i as int]);
        }
        if locs[i] > m {
            m = locs[i];
        }
        i = i + 1;
    }
    proof {
        assert(locs@.take(locs.len() as int) =~= locs@);
    }
    m
}

/// Returns the start of the window of `w` word positions that covers the
/// highest number of matched locations, the lowest such start on ties, and
/// 0 when there are no locations.
pub fn select_excerpt(locs: &Vec<u32>, w: u32) -> (off: u32)
    ensures
        off as int == excerpt_offset(locs@, w as int),
        forall|o: int|
            0 <= o ==> window_count(locs@, o, w as int) <= window_count(
                locs@,
                off as int,
                w as int,
            ),
        forall|o: int|
            0 <= o < off ==> window_count(locs@, o, w as int) < window_count(
                locs@,
                off as int,
                w as int,
            ),
        locs@.len() == 0 ==> off == 0,
{
    if locs.len() == 0 {
        return 0;
    }
    let m = max_in(locs);
    let mut best: u32 = 0;
    let mut best_c = count_window(locs, 0, w);
    let mut o: u64 = 1;
    while o <= m as u64
        invariant
            1 <= o <= m as u64 + 1,
            m as int == max_loc(locs@),
            (best as u64) < o,
            best as int == best_offset_upto(locs@, w as int, o as int - 1),
            best_c as int == window_count(locs@, best as int, w as int),
            forall|p: int|
                0 <= p < o ==> window_count(locs@, p, w as int) <= best_c as int,
            forall|p: int| 0 <= p < best ==> window_count(locs@, p, w as int) < best_c as int,
        decreases m as u64 + 1 - o,
    {
        let c = count_window(locs, o, w);
        if c > best_c {
            best = o as u32;
            best_c = c;
        }
        o = o + 1;
    }
    proof {
        lemma_all_le_max(locs@);
        assert forall|p: int| 0 <= p implies window_count(locs@, p, w as int) <= best_c as int by {
            if p > m as int {
                lemma_count_zero_beyond(locs@, p, w as int);
            }
        }
    }
    best
}

} // verus!
