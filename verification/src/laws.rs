//! Laws of the library, each proved against the contracts of the public
//! operations: routing coverage over non-overlapping chunk ranges,
//! conjunctive intersection, the zero-postings short-circuit,
//! order-independence of chunk loads, and routing's independence from
//! loaded postings.

use vstd::prelude::*;

verus! {

use crate::{IndexChunkView, PageWordView, SearchIndexView, WordEntryView};
use crate::{chunk_in_range, route_term, request_spec};
use crate::{lookup_postings, postings_pages, result_pages, segments_from, version_mismatch,
    search_spec};
use crate::index::{merge_entry, merge_chunk, merged_index};
use crate::stem::stem_of;
use crate::util::split_terms;

// ---------------------------------------------------------------------------
// Routing coverage
// ---------------------------------------------------------------------------

/// No two chunk ranges hold a common term.
pub open spec fn ranges_disjoint(chunks: Seq<IndexChunkView>) -> bool {
    forall|i: int, j: int, t: Seq<char>|
        0 <= i < j < chunks.len() ==> !(#[trigger] chunk_in_range(chunks[i], t)
            && #[trigger] chunk_in_range(chunks[j], t))
}

/// With non-overlapping ranges, a term inside some chunk's range routes to
/// exactly that chunk's hash.
pub proof fn lemma_route_term_coverage(chunks: Seq<IndexChunkView>, t: Seq<char>, i: int)
    requires
        ranges_disjoint(chunks),
        0 <= i < chunks.len(),
        chunk_in_range(chunks[i], t),
    ensures
        route_term(chunks, t) == Some(chunks[i].hash),
    decreases chunks.len(),
{
    if i > 0 {
        assert(!chunk_in_range(chunks[0], t));
        assert(chunks.skip(1)[i - 1] == chunks[i]);
        assert forall|x: int, y: int, u: Seq<char>|
            0 <= x < y < chunks.skip(1).len() implies !(#[trigger] chunk_in_range(
            chunks.skip(1)[x],
            u,
        ) && #[trigger] chunk_in_range(chunks.skip(1)[y], u)) by {
            assert(chunks.skip(1)[x] == chunks[x + 1]);
            assert(chunks.skip(1)[y] == chunks[y + 1]);
            assert(!(chunk_in_range(chunks[x + 1], u) && chunk_in_range(chunks[y + 1], u)));
        }
        lemma_route_term_coverage(chunks.skip(1), t, i - 1);
    }
}

/// A term inside no chunk's range routes to nothing.
pub proof fn lemma_route_term_none(chunks: Seq<IndexChunkView>, t: Seq<char>)
    requires
        forall|i: int| 0 <= i < chunks.len() ==> !chunk_in_range(#[trigger] chunks[i], t),
    ensures
        route_term(chunks, t) is None,
    decreases chunks.len(),
{
    if chunks.len() > 0 {
        assert(forall|i: int|
            0 <= i < chunks.len() - 1 ==> #[trigger] chunks.skip(1)[i] == chunks[i + 1]);
        lemma_route_term_none(chunks.skip(1), t);
    }
}

// ---------------------------------------------------------------------------
// Conjunctive intersection
// ---------------------------------------------------------------------------

/// A two-term query matches exactly the pages both terms match.
pub proof fn lemma_conjunctive_intersection(
    words: Seq<WordEntryView>,
    t1: Seq<char>,
    t2: Seq<char>,
    p: usize,
)
    ensures
        result_pages(words, seq![t1, t2]).contains(p) <==> (postings_pages(
            lookup_postings(words, t1),
        ).contains(p) && postings_pages(lookup_postings(words, t2)).contains(p)),
{
    let s = seq![t1, t2];
    assert(s.drop_last() =~= seq![t1]);
    assert(s.last() == t2);
    assert(seq![t1][0] == t1);
    assert(result_pages(words, seq![t1]) == postings_pages(lookup_postings(words, t1)));
}

// ---------------------------------------------------------------------------
// Zero-postings short-circuit
// ---------------------------------------------------------------------------

/// Every surviving page is matched by every term of the query.
pub proof fn lemma_result_pages_subset(words: Seq<WordEntryView>, stems: Seq<Seq<char>>, k: int)
    requires
        0 <= k < stems.len(),
    ensures
        forall|p: usize| #[trigger]
            result_pages(words, stems).contains(p) ==> postings_pages(
                lookup_postings(words, stems[k]),
            ).contains(p),
    decreases stems.len(),
{
    if stems.len() > 1 {
        if k < stems.len() - 1 {
            lemma_result_pages_subset(words, stems.drop_last(), k);
            assert(stems.drop_last()[k] == stems[k]);
            assert forall|p: usize| #[trigger]
                result_pages(words, stems).contains(p) implies postings_pages(
                lookup_postings(words, stems[k]),
            ).contains(p) by {
                assert(result_pages(words, stems.drop_last()).contains(p));
            }
        } else {
            assert forall|p: usize| #[trigger]
                result_pages(words, stems).contains(p) implies postings_pages(
                lookup_postings(words, stems[k]),
            ).contains(p) by {
                assert(stems.last() == stems[k]);
            }
        }
    }
}

proof fn lemma_segments_empty(
    m: SearchIndexView,
    stems: Seq<Seq<char>>,
    pages: Set<usize>,
    p: int,
)
    requires
        forall|q: usize| !pages.contains(q),
    ensures
        segments_from(m, stems, pages, p).len() == 0,
    decreases m.pages.len() - p,
{
    if 0 <= p < m.pages.len() {
        lemma_segments_empty(m, stems, pages, p + 1);
    }
}

/// A query with any term that has no postings returns the empty result,
/// whatever the other terms match.
pub proof fn lemma_zero_postings_short_circuit(m: SearchIndexView, q: Seq<char>, k: int)
    requires
        !version_mismatch(m),
        0 <= k < split_terms(q).len(),
        lookup_postings(m.words, stem_of(split_terms(q)[k])) == Seq::<PageWordView>::empty(),
    ensures
        search_spec(m, q) == Seq::<char>::empty(),
{
    let stems = split_terms(q).map_values(|t: Seq<char>| stem_of(t));
    assert(stems[k] == stem_of(split_terms(q)[k]));
    assert(postings_pages(Seq::<PageWordView>::empty()) =~= Set::<usize>::empty());
    lemma_result_pages_subset(m.words, stems, k);
    assert(forall|p: usize| !(#[trigger] result_pages(m.words, stems).contains(p)));
    lemma_segments_empty(m, stems, result_pages(m.words, stems), 0);
}

// ---------------------------------------------------------------------------
// Order-independence of chunk loads
// ---------------------------------------------------------------------------

/// The records a decoded chunk carries for one term, in payload order.
pub open spec fn chunk_postings(entries: Seq<WordEntryView>, t: Seq<char>) -> Seq<PageWordView>
    decreases entries.len(),
{
    if entries.len() == 0 {
        Seq::empty()
    } else {
        (if entries[0].term == t {
            entries[0].postings
        } else {
            Seq::empty()
        }) + chunk_postings(entries.skip(1), t)
    }
}

/// Whether a decoded chunk carries the term at all.
pub open spec fn chunk_has_term(entries: Seq<WordEntryView>, t: Seq<char>) -> bool
    decreases entries.len(),
{
    if entries.len() == 0 {
        false
    } else {
        entries[0].term == t || chunk_has_term(entries.skip(1), t)
    }
}

proof fn lemma_chunk_has_term_exists(entries: Seq<WordEntryView>, t: Seq<char>)
    ensures
        chunk_has_term(entries, t) <==> exists|i: int|
            0 <= i < entries.len() && (#[trigger] entries[i].term) == t,
    decreases entries.len(),
{
    if entries.len() > 0 {
        lemma_chunk_has_term_exists(entries.skip(1), t);
        assert(forall|i: int|
            0 <= i < entries.len() - 1 ==> (#[trigger] entries.skip(1)[i]) == entries[i + 1]);
        if entries[0].term == t {
            assert(entries[0].term == t && 0 < entries.len());
        } else if chunk_has_term(entries.skip(1), t) {
            let i = choose|i: int| 0 <= i < entries.skip(1).len() && entries.skip(1)[i].term == t;
            assert(entries[i + 1].term == t);
        } else {
            if exists|i: int| 0 <= i < entries.len() && (#[trigger] entries[i].term) == t {
                let i = choose|i: int| 0 <= i < entries.len() && (#[trigger] entries[i].term) == t;
                assert(i > 0);
                assert(entries.skip(1)[i - 1].term == t);
            }
        }
    }
}

proof fn lemma_chunk_no_term_postings_empty(entries: Seq<WordEntryView>, t: Seq<char>)
    requires
        !chunk_has_term(entries, t),
    ensures
        chunk_postings(entries, t) == Seq::<PageWordView>::empty(),
    decreases entries.len(),
{
    if entries.len() > 0 {
        lemma_chunk_no_term_postings_empty(entries.skip(1), t);
        assert(chunk_postings(entries, t) =~= Seq::<PageWordView>::empty());
    }
}

proof fn lemma_merge_entry_lookup(
    words: Seq<WordEntryView>,
    t0: Seq<char>,
    ps: Seq<PageWordView>,
    t: Seq<char>,
)
    ensures
        lookup_postings(merge_entry(words, t0, ps), t) == if t == t0 {
            lookup_postings(words, t) + ps
        } else {
            lookup_postings(words, t)
        },
    decreases words.len(),
{
    let merged = merge_entry(words, t0, ps);
    if words.len() == 0 {
        assert(merged =~= seq![WordEntryView { term: t0, postings: ps }]);
        assert(merged[0] == WordEntryView { term: t0, postings: ps });
        if t == t0 {
            assert(lookup_postings(merged, t) == ps);
            assert(Seq::<PageWordView>::empty() + ps =~= ps);
        } else {
            assert(merged.skip(1).len() == 0);
            assert(lookup_postings(merged, t) == lookup_postings(merged.skip(1), t));
        }
    } else if words[0].term == t0 {
        assert(merged =~= seq![
            WordEntryView { term: words[0].term, postings: words[0].postings + ps },
        ] + words.skip(1));
        assert(merged[0] == WordEntryView {
            term: words[0].term,
            postings: words[0].postings + ps,
        });
        assert(merged.skip(1) =~= words.skip(1));
        if t == t0 {
            assert(lookup_postings(merged, t) == words[0].postings + ps);
            assert(lookup_postings(words, t) == words[0].postings);
        } else {
            assert(lookup_postings(merged, t) == lookup_postings(words.skip(1), t));
            assert(lookup_postings(words, t) == lookup_postings(words.skip(1), t));
        }
    } else {
        assert(merged =~= seq![words[0]] + merge_entry(words.skip(1), t0, ps));
        assert(merged[0] == words[0]);
        assert(merged.skip(1) =~= merge_entry(words.skip(1), t0, ps));
        lemma_merge_entry_lookup(words.skip(1), t0, ps, t);
        if t == words[0].term {
            assert(t != t0);
            assert(lookup_postings(merged, t) == merged[0].postings);
            assert(lookup_postings(words, t) == words[0].postings);
        } else {
            assert(lookup_postings(merged, t) == lookup_postings(merged.skip(1), t));
            assert(lookup_postings(words, t) == lookup_postings(words.skip(1), t));
        }
    }
}

/// What one chunk merge does to every lookup: records for a term the chunk
/// carries are appended, all other terms are untouched.
pub proof fn lemma_merge_chunk_lookup(
    words: Seq<WordEntryView>,
    entries: Seq<WordEntryView>,
    t: Seq<char>,
)
    ensures
        lookup_postings(merge_chunk(words, entries), t) == if chunk_has_term(entries, t) {
            lookup_postings(words, t) + chunk_postings(entries, t)
        } else {
            lookup_postings(words, t)
        },
    decreases entries.len(),
{
    if entries.len() > 0 {
        let w2 = merge_entry(words, entries[0].term, entries[0].postings);
        lemma_merge_entry_lookup(words, entries[0].term, entries[0].postings, t);
        lemma_merge_chunk_lookup(w2, entries.skip(1), t);
        if t == entries[0].term {
            if chunk_has_term(entries.skip(1), t) {
                assert((lookup_postings(words, t) + entries[0].postings) + chunk_postings(
                    entries.skip(1),
                    t,
                ) =~= lookup_postings(words, t) + chunk_postings(entries, t));
            } else {
                lemma_chunk_no_term_postings_empty(entries.skip(1), t);
                assert(chunk_postings(entries, t) =~= entries[0].postings);
                assert(lookup_postings(words, t) + entries[0].postings =~= lookup_postings(
                    words,
                    t,
                ) + chunk_postings(entries, t));
            }
        } else {
            if chunk_has_term(entries.skip(1), t) {
                assert(chunk_postings(entries, t) =~= chunk_postings(entries.skip(1), t));
            }
        }
    } else {
        assert(chunk_postings(entries, t) =~= Seq::<PageWordView>::empty());
    }
}

proof fn lemma_result_pages_congruent(
    w1: Seq<WordEntryView>,
    w2: Seq<WordEntryView>,
    stems: Seq<Seq<char>>,
)
    requires
        forall|t: Seq<char>| #[trigger] lookup_postings(w1, t) == lookup_postings(w2, t),
    ensures
        result_pages(w1, stems) == result_pages(w2, stems),
    decreases stems.len(),
{
    if stems.len() > 1 {
        lemma_result_pages_congruent(w1, w2, stems.drop_last());
    }
}

proof fn lemma_locs_congruent(
    w1: Seq<WordEntryView>,
    w2: Seq<WordEntryView>,
    stems: Seq<Seq<char>>,
    page: usize,
)
    requires
        forall|t: Seq<char>| #[trigger] lookup_postings(w1, t) == lookup_postings(w2, t),
    ensures
        crate::locs_for_page(w1, stems, page) == crate::locs_for_page(w2, stems, page),
    decreases stems.len(),
{
    if stems.len() > 0 {
        lemma_locs_congruent(w1, w2, stems.skip(1), page);
    }
}

proof fn lemma_segments_congruent(
    m1: SearchIndexView,
    m2: SearchIndexView,
    stems: Seq<Seq<char>>,
    pages: Set<usize>,
    p: int,
)
    requires
        m1.pages == m2.pages,
        forall|t: Seq<char>| #[trigger]
            lookup_postings(m1.words, t) == lookup_postings(m2.words, t),
    ensures
        segments_from(m1, stems, pages, p) == segments_from(m2, stems, pages, p),
    decreases m1.pages.len() - p,
{
    if 0 <= p < m1.pages.len() {
        lemma_locs_congruent(m1.words, m2.words, stems, p as usize);
        lemma_segments_congruent(m1, m2, stems, pages, p + 1);
    }
}

/// Loading two chunks with disjoint term sets in either order yields the
/// same lookups and the same search results.
pub proof fn lemma_chunk_load_order_irrelevant(
    m: SearchIndexView,
    a: Seq<WordEntryView>,
    b: Seq<WordEntryView>,
    q: Seq<char>,
)
    requires
        forall|i: int, j: int|
            0 <= i < a.len() && 0 <= j < b.len() ==> (#[trigger] a[i].term) != (
            #[trigger] b[j].term),
    ensures
        forall|t: Seq<char>| #[trigger]
            lookup_postings(merged_index(merged_index(m, a), b).words, t) == lookup_postings(
                merged_index(merged_index(m, b), a).words,
                t,
            ),
        search_spec(merged_index(merged_index(m, a), b), q) == search_spec(
            merged_index(merged_index(m, b), a),
            q,
        ),
{
    let mab = merged_index(merged_index(m, a), b);
    let mba = merged_index(merged_index(m, b), a);
    assert forall|t: Seq<char>| #[trigger]
        lookup_postings(mab.words, t) == lookup_postings(mba.words, t) by {
        lemma_merge_chunk_lookup(m.words, a, t);
        lemma_merge_chunk_lookup(merge_chunk(m.words, a), b, t);
        lemma_merge_chunk_lookup(m.words, b, t);
        lemma_merge_chunk_lookup(merge_chunk(m.words, b), a, t);
        lemma_chunk_has_term_exists(a, t);
        lemma_chunk_has_term_exists(b, t);
        if chunk_has_term(a, t) && chunk_has_term(b, t) {
            let i = choose|i: int| 0 <= i < a.len() && (#[trigger] a[i].term) == t;
            let j = choose|j: int| 0 <= j < b.len() && (#[trigger] b[j].term) == t;
            assert(a[i].term != b[j].term);
            assert(false);
        }
    }
    if version_mismatch(m) {
    } else {
        let stems = split_terms(q).map_values(|t: Seq<char>| stem_of(t));
        lemma_result_pages_congruent(mab.words, mba.words, stems);
        lemma_segments_congruent(mab, mba, stems, result_pages(mab.words, stems), 0);
    }
}

// ---------------------------------------------------------------------------
// Routing never depends on loaded postings
// ---------------------------------------------------------------------------

/// Routing reads only the chunk directory, which a chunk load never
/// touches, so it answers the same before and after any load.
pub proof fn lemma_routing_unaffected_by_load(
    m: SearchIndexView,
    entries: Seq<WordEntryView>,
    q: Seq<char>,
)
    ensures
        request_spec(merged_index(m, entries).chunks, q) == request_spec(m.chunks, q),
{
}

} // verus!
