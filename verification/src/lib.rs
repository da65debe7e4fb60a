//! Query-time core of a static-site search engine: an in-memory inverted
//! index built incrementally from binary payloads, queried by free-text
//! terms, with results reduced to per-page excerpt windows.
//!
//! The index is created by [`init_pagefind`] from a metadata payload, grown
//! by [`load_index_chunk`], routed with [`request_indexes`] and queried with
//! [`search`]. Payloads use a length-prefixed little-endian layout: every
//! integer is a little-endian u32 and every string is a u32 byte length
//! followed by that many bytes of UTF-8.

use vstd::prelude::*;

pub mod bitset;
pub mod excerpt;
pub mod index;
pub mod laws;
pub mod metadata;
pub mod stem;
pub mod util;

verus! {

use crate::bitset::{PageSet, page_set_elems, page_set_new, page_set_insert, page_set_contains,
    page_set_intersect};
use crate::excerpt::{excerpt_offset, select_excerpt};
use crate::stem::{stem_of, english_stemmer, stem_term};
use crate::util::{lex_le, str_lex_le, split_terms, split_query, join_with, join_with_space,
    join_locs, join_locs_string, dec_rep, u32_to_string, append_all};
use vstd::string::*;

// ---------------------------------------------------------------------------
// Data model
// ---------------------------------------------------------------------------

/// One term's occurrences on one page: the page's index into the page list
/// and the ascending word positions of the term within that page.
pub struct PageWord {
    pub(crate) page: u32,
    pub(crate) locs: Vec<u32>,
}

pub ghost struct PageWordView {
    pub page: u32,
    pub locs: Seq<u32>,
}

impl View for PageWord {
    type V = PageWordView;

    closed spec fn view(&self) -> PageWordView {
        PageWordView { page: self.page, locs: self.locs@ }
    }
}

/// One chunk directory entry: a lazily loadable shard holding the terms in
/// the inclusive lexicographic range `[from, to]`, addressed by `hash`.
pub struct IndexChunk {
    pub(crate) from: String,
    pub(crate) to: String,
    pub(crate) hash: String,
}

pub ghost struct IndexChunkView {
    pub from: Seq<char>,
    pub to: Seq<char>,
    pub hash: Seq<char>,
}

impl View for IndexChunk {
    type V = IndexChunkView;

    closed spec fn view(&self) -> IndexChunkView {
        IndexChunkView { from: self.from@, to: self.to@, hash: self.hash@ }
    }
}

/// One posting-store entry: a normalized term and its per-page hit records.
pub struct WordEntry {
    pub(crate) term: String,
    pub(crate) postings: Vec<PageWord>,
}

pub ghost struct WordEntryView {
    pub term: Seq<char>,
    pub postings: Seq<PageWordView>,
}

impl View for WordEntry {
    type V = WordEntryView;

    closed spec fn view(&self) -> WordEntryView {
        WordEntryView { term: self.term@, postings: self.postings@.map_values(|p: PageWord| p@) }
    }
}

/// The in-memory inverted index: page list, stop words, chunk directory and
/// the posting store, together with the two version strings whose equality
/// gates every query.
pub struct SearchIndex {
    pub(crate) runtime_version: String,
    pub(crate) generator_version: Option<String>,
    pub(crate) pages: Vec<String>,
    pub(crate) chunks: Vec<IndexChunk>,
    pub(crate) stops: Vec<String>,
    pub(crate) words: Vec<WordEntry>,
}

pub ghost struct SearchIndexView {
    pub runtime_version: Seq<char>,
    pub generator_version: Option<Seq<char>>,
    pub pages: Seq<Seq<char>>,
    pub chunks: Seq<IndexChunkView>,
    pub stops: Seq<Seq<char>>,
    pub words: Seq<WordEntryView>,
}

impl View for SearchIndex {
    type V = SearchIndexView;

    closed spec fn view(&self) -> SearchIndexView {
        SearchIndexView {
            runtime_version: self.runtime_version@,
            generator_version: match self.generator_version {
                Some(v) => Some(v@),
                None => None,
            },
            pages: self.pages.deep_view(),
            chunks: self.chunks@.map_values(|c: IndexChunk| c@),
            stops: self.stops.deep_view(),
            words: self.words@.map_values(|w: WordEntry| w@),
        }
    }
}

/// Ascending locations; duplicates permitted.
pub open spec fn locs_sorted(l: Seq<u32>) -> bool {
    forall|i: int| 0 <= i < l.len() - 1 ==> #[trigger] l[i] <= l[i + 1]
}

/// A well-formed hit record: a valid page index and at least one location,
/// in ascending order.
pub open spec fn posting_wf(p: PageWordView, npages: nat) -> bool {
    &&& (p.page as nat) < npages
    &&& p.locs.len() >= 1
    &&& locs_sorted(p.locs)
}

pub open spec fn postings_wf(ps: Seq<PageWordView>, npages: nat) -> bool {
    forall|i: int| 0 <= i < ps.len() ==> posting_wf(#[trigger] ps[i], npages)
}

/// The posting-store invariant: terms are unique and every hit record is
/// well formed against the page list.
pub open spec fn words_wf(words: Seq<WordEntryView>, npages: nat) -> bool {
    &&& forall|i: int, j: int| 0 <= i < j < words.len() ==> words[i].term != words[j].term
    &&& forall|i: int| 0 <= i < words.len() ==> postings_wf(#[trigger] words[i].postings, npages)
}

impl SearchIndexView {
    /// The index invariant.
    pub open spec fn wf(self) -> bool {
        words_wf(self.words, self.pages.len())
    }
}

/// The version string baked into this build, which the metadata's generator
/// version must equal for queries to run.
pub open spec fn spec_runtime_version() -> Seq<char> {
    "1.0.0"@
}

// ---------------------------------------------------------------------------
// Construction
// ---------------------------------------------------------------------------

/// The index an accepted metadata payload produces: versions, pages, stop
/// words and the chunk directory set, the posting store still empty.
pub open spec fn initial_index(m: crate::metadata::MetadataView) -> SearchIndexView {
    SearchIndexView {
        runtime_version: spec_runtime_version(),
        generator_version: Some(m.version),
        pages: m.pages,
        chunks: m.chunks,
        stops: m.stops,
        words: Seq::empty(),
    }
}

/// Builds a fresh index from a metadata payload. Returns `None`, with no
/// index at all, exactly when the payload is malformed; decoding never
/// commits a partial result.
pub fn init_pagefind(metadata_bytes: &[u8]) -> (r: Option<SearchIndex>)
    ensures
        match r {
            Some(ix) => {
                &&& ix@.wf()
                &&& crate::metadata::spec_parse_metadata(metadata_bytes@) matches Some(m)
                &&& ix@ == initial_index(
                    crate::metadata::spec_parse_metadata(metadata_bytes@)->Some_0,
                )
            },
            None => crate::metadata::spec_parse_metadata(metadata_bytes@) is None,
        },
{
    match crate::metadata::parse_metadata_exec(metadata_bytes) {
        None => None,
        Some((version, pages, stops, chunks)) => {
            let ix = SearchIndex {
                runtime_version: String::from_str("1.0.0"),
                generator_version: Some(version),
                pages,
                chunks,
                stops,
                words: Vec::new(),
            };
            proof {
                assert(ix@.words =~= Seq::<WordEntryView>::empty());
                assert(ix@ == initial_index(
                    crate::metadata::spec_parse_metadata(metadata_bytes@)->Some_0,
                ));
            }
            Some(ix)
        },
    }
}

/// Merges one chunk payload's postings into the index. Returns `true`, and
/// merges the decoded terms, exactly when the payload is well formed against
/// the current page list; on `false` the index is left unchanged, so a
/// failed load never corrupts previously merged data.
pub fn load_index_chunk(search_index: &mut SearchIndex, chunk_bytes: &[u8]) -> (ok: bool)
    requires
        old(search_index)@.wf(),
    ensures
        final(search_index)@.wf(),
        ok == (crate::index::spec_parse_chunk(chunk_bytes@, old(search_index)@.pages.len())
            is Some),
        ok ==> final(search_index)@ == crate::index::merged_index(
            old(search_index)@,
            crate::index::spec_parse_chunk(chunk_bytes@, old(search_index)@.pages.len())->Some_0,
        ),
        !ok ==> *final(search_index) == *old(search_index),
{
    let npages = search_index.pages.len();
    match crate::index::parse_chunk_exec(chunk_bytes, npages) {
        None => false,
        Some(entries) => {
            let ghost entries_v = entries@.map_values(|e: WordEntry| e@);
            let ghost pre = search_index@;
            crate::index::merge_entries(&mut search_index.words, entries);
            proof {
                crate::index::lemma_parse_chunk_entries_wf(
                    chunk_bytes@,
                    crate::util::spec_read_u32(chunk_bytes@, 0)->Some_0.1,
                    crate::util::spec_read_u32(chunk_bytes@, 0)->Some_0.0 as nat,
                    npages as nat,
                );
                crate::index::lemma_merge_chunk_wf(pre.words, entries_v, npages as nat);
                assert(search_index@ == crate::index::merged_index(pre, entries_v));
            }
            true
        },
    }
}

// ---------------------------------------------------------------------------
// Chunk routing
// ---------------------------------------------------------------------------

/// Whether a term falls in a chunk's inclusive lexicographic range.
pub open spec fn chunk_in_range(c: IndexChunkView, t: Seq<char>) -> bool {
    lex_le(c.from, t) && lex_le(t, c.to)
}

/// The hash of the first chunk whose range holds the term, if any.
pub open spec fn route_term(chunks: Seq<IndexChunkView>, t: Seq<char>) -> Option<Seq<char>>
    decreases chunks.len(),
{
    if chunks.len() == 0 {
        None
    } else if chunk_in_range(chunks[0], t) {
        Some(chunks[0].hash)
    } else {
        route_term(chunks.skip(1), t)
    }
}

/// The hashes the query's terms route to, one per term that matched a chunk,
/// in term order and without deduplication.
pub open spec fn routed_hashes(chunks: Seq<IndexChunkView>, terms: Seq<Seq<char>>) -> Seq<
    Seq<char>,
>
    decreases terms.len(),
{
    if terms.len() == 0 {
        Seq::empty()
    } else {
        (match route_term(chunks, terms[0]) {
            Some(h) => seq![h],
            None => Seq::empty(),
        }) + routed_hashes(chunks, terms.skip(1))
    }
}

/// What `request_indexes` returns: the routed hashes, space-joined.
pub open spec fn request_spec(chunks: Seq<IndexChunkView>, q: Seq<char>) -> Seq<char> {
    join_with(routed_hashes(chunks, split_terms(q)), ' ')
}

/// The ordered scan behind routing: the first directory entry whose range
/// holds the term.
fn find_chunk_for(chunks: &Vec<IndexChunk>, term: &String) -> (r: Option<usize>)
    ensures
        match r {
            Some(j) => j < chunks.len() && route_term(
                chunks@.map_values(|c: IndexChunk| c@),
                term@,
            ) == Some(chunks@.map_values(|c: IndexChunk| c@)[j as int].hash),
            None => route_term(chunks@.map_values(|c: IndexChunk| c@), term@) is None,
        },
{
    let ghost cv = chunks@.map_values(|c: IndexChunk| c@);
    let mut j: usize = 0;
    proof {
        assert(cv.skip(0) =~= cv);
    }
    while j < chunks.len()
        invariant
            j <= chunks.len(),
            cv == chunks@.map_values(|c: IndexChunk| c@),
            cv.len() == chunks.len(),
            route_term(cv, term@) == route_term(cv.skip(j as int), term@),
        decreases chunks.len() - j,
    {
        proof {
            assert(cv.skip(j as int)[0] == cv[j as int]);
            assert(cv.skip(j as int).skip(1) =~= cv.skip(j as int + 1));
        }
        let c = &chunks[j];
        if str_lex_le(c.from.as_str(), term.as_str()) && str_lex_le(
            term.as_str(),
            c.to.as_str(),
        ) {
            return Some(j);
        }
        j = j + 1;
    }
    proof {
        assert(cv.skip(cv.len() as int).len() == 0);
    }
    None
}

/// Maps each whitespace-delimited query term (unstemmed, as entered) to the
/// first chunk directory entry whose range holds it, and returns the matched
/// hashes space-joined. Never mutates the index.
pub fn request_indexes(search_index: &SearchIndex, query: &str) -> (r: String)
    ensures
        r@ == request_spec(search_index@.chunks, query@),
{
    let terms = split_query(query);
    let mut hashes: Vec<String> = Vec::new();
    let ghost cv = search_index@.chunks;
    let mut i: usize = 0;
    proof {
        assert(terms.deep_view().skip(0) =~= terms.deep_view());
        assert(hashes.deep_view() + routed_hashes(cv, terms.deep_view()) =~= routed_hashes(
            cv,
            terms.deep_view(),
        ));
    }
    while i < terms.len()
        invariant
            i <= terms.len(),
            cv == search_index@.chunks,
            terms.deep_view() == split_terms(query@),
            routed_hashes(cv, terms.deep_view()) == hashes.deep_view() + routed_hashes(
                cv,
                terms.deep_view().skip(i as int),
            ),
        decreases terms.len() - i,
    {
        let ghost tv = terms.deep_view();
        let ghost pre = hashes.deep_view();
        proof {
            assert(tv.skip(i as int)[0] == tv[i as int]);
            assert(tv.skip(i as int).skip(1) =~= tv.skip(i as int + 1));
        }
        let term = &terms[i];
        match find_chunk_for(&search_index.chunks, term) {
            Some(j) => {
                hashes.push(search_index.chunks[j].hash.clone());
                proof {
                    assert(hashes.deep_view() =~= pre.push(cv[j as int].hash));
                    assert(routed_hashes(cv, tv.skip(i as int)) =~= seq![
                        route_term(cv, tv[i as int])->Some_0,
                    ] + routed_hashes(cv, tv.skip(i as int + 1)));
                    assert(pre + routed_hashes(cv, tv.skip(i as int)) =~= hashes.deep_view()
                        + routed_hashes(cv, tv.skip(i as int + 1)));
                }
            },
            None => {
                proof {
                    assert(routed_hashes(cv, tv.skip(i as int)) =~= routed_hashes(
                        cv,
                        tv.skip(i as int + 1),
                    ));
                }
            },
        }
        i = i + 1;
    }
    proof {
        assert(terms.deep_view().skip(terms.len() as int).len() == 0);
        assert(routed_hashes(cv, terms.deep_view().skip(terms.len() as int)) =~= Seq::<
            Seq<char>,
        >::empty());
        assert(hashes.deep_view() + routed_hashes(cv, terms.deep_view().skip(terms.len() as int))
            =~= hashes.deep_view());
    }
    join_with_space(&hashes)
}

// ---------------------------------------------------------------------------
// Query engine
// ---------------------------------------------------------------------------

/// The hit records stored for a normalized term; empty when absent.
pub open spec fn lookup_postings(words: Seq<WordEntryView>, t: Seq<char>) -> Seq<PageWordView>
    decreases words.len(),
{
    if words.len() == 0 {
        Seq::empty()
    } else if words[0].term == t {
        words[0].postings
    } else {
        lookup_postings(words.skip(1), t)
    }
}

/// The distinct pages a posting list mentions.
pub open spec fn postings_pages(ps: Seq<PageWordView>) -> Set<usize>
    decreases ps.len(),
{
    if ps.len() == 0 {
        Set::empty()
    } else {
        postings_pages(ps.drop_last()).insert(ps.last().page as usize)
    }
}

/// The pages surviving the conjunction: the intersection, in term order, of
/// every term's page set; one term with no postings makes it empty.
pub open spec fn result_pages(words: Seq<WordEntryView>, stems: Seq<Seq<char>>) -> Set<usize>
    decreases stems.len(),
{
    if stems.len() == 0 {
        Set::empty()
    } else if stems.len() == 1 {
        postings_pages(lookup_postings(words, stems[0]))
    } else {
        result_pages(words, stems.drop_last()).intersect(
            postings_pages(lookup_postings(words, stems.last())),
        )
    }
}

/// The locations a posting list holds for one page, flattened in order.
pub open spec fn page_locs_in(ps: Seq<PageWordView>, page: usize) -> Seq<u32>
    decreases ps.len(),
{
    if ps.len() == 0 {
        Seq::empty()
    } else {
        (if ps[0].page as usize == page {
            ps[0].locs
        } else {
            Seq::empty()
        }) + page_locs_in(ps.skip(1), page)
    }
}

/// All matched locations of one page, term after term in query order.
pub open spec fn locs_for_page(
    words: Seq<WordEntryView>,
    stems: Seq<Seq<char>>,
    page: usize,
) -> Seq<u32>
    decreases stems.len(),
{
    if stems.len() == 0 {
        Seq::empty()
    } else {
        page_locs_in(lookup_postings(words, stems[0]), page) + locs_for_page(
            words,
            stems.skip(1),
            page,
        )
    }
}

/// The window size every result excerpt uses.
pub open spec fn spec_window_size() -> int {
    30
}

/// One result segment: `page@excerpt_start,30@loc,loc,...`.
pub open spec fn page_segment(m: SearchIndexView, stems: Seq<Seq<char>>, p: int) -> Seq<char>
    recommends
        0 <= p < m.pages.len(),
{
    let locs = locs_for_page(m.words, stems, p as usize);
    m.pages[p] + "@"@ + dec_rep(excerpt_offset(locs, spec_window_size())) + ","@ + dec_rep(
        spec_window_size(),
    ) + "@"@ + join_locs(locs)
}

/// The segments of all result pages from index `p` up, ascending.
pub open spec fn segments_from(
    m: SearchIndexView,
    stems: Seq<Seq<char>>,
    pages: Set<usize>,
    p: int,
) -> Seq<Seq<char>>
    decreases m.pages.len() - p,
{
    if p < 0 || p >= m.pages.len() {
        Seq::empty()
    } else {
        (if pages.contains(p as usize) {
            seq![page_segment(m, stems, p)]
        } else {
            Seq::empty()
        }) + segments_from(m, stems, pages, p + 1)
    }
}

/// Whether the recorded generator version blocks queries.
pub open spec fn version_mismatch(m: SearchIndexView) -> bool {
    m.generator_version matches Some(g) && g != m.runtime_version
}

/// What `search` returns: the version gate first, then stemmed conjunctive
/// matching with one segment per surviving page, in ascending page order,
/// space-joined; the empty result is the empty string.
pub open spec fn search_spec(m: SearchIndexView, q: Seq<char>) -> Seq<char> {
    if version_mismatch(m) {
        "ERROR: Version mismatch"@
    } else {
        let stems = split_terms(q).map_values(|t: Seq<char>| stem_of(t));
        join_with(segments_from(m, stems, result_pages(m.words, stems), 0), ' ')
    }
}

/// The first posting-store entry for a term, if any.
fn find_postings<'a>(search_index: &'a SearchIndex, term: &String) -> (r: Option<
    &'a Vec<PageWord>,
>)
    ensures
        match r {
            Some(v) => lookup_postings(search_index@.words, term@) == v@.map_values(
                |p: PageWord| p@,
            ),
            None => lookup_postings(search_index@.words, term@) == Seq::<PageWordView>::empty(),
        },
{
    let ghost wv = search_index@.words;
    let mut j: usize = 0;
    proof {
        assert(wv.skip(0) =~= wv);
    }
    while j < search_index.words.len()
        invariant
            j <= search_index.words.len(),
            wv == search_index@.words,
            wv.len() == search_index.words.len(),
            lookup_postings(wv, term@) == lookup_postings(wv.skip(j as int), term@),
        decreases search_index.words.len() - j,
    {
        proof {
            assert(wv.skip(j as int)[0] == wv[j as int]);
            assert(wv.skip(j as int).skip(1) =~= wv.skip(j as int + 1));
        }
        if search_index.words[j].term == *term {
            return Some(&search_index.words[j].postings);
        }
        j = j + 1;
    }
    proof {
        assert(wv.skip(wv.len() as int).len() == 0);
    }
    None
}

/// The set of pages one stemmed term matches.
fn term_page_set(search_index: &SearchIndex, term: &String) -> (s: PageSet)
    ensures
        page_set_elems(s) == postings_pages(lookup_postings(search_index@.words, term@)),
{
    let mut s = page_set_new();
    match find_postings(search_index, term) {
        None => s,
        Some(v) => {
            let ghost pv = v@.map_values(|q: PageWord| q@);
            let mut k: usize = 0;
            while k < v.len()
                invariant
                    k <= v.len(),
                    pv == v@.map_values(|q: PageWord| q@),
                    pv.len() == v.len(),
                    page_set_elems(s) == postings_pages(pv.take(k as int)),
                decreases v.len() - k,
            {
                proof {
                    assert(pv.take(k as int + 1).drop_last() =~= pv.take(k as int));
                    assert(pv.take(k as int + 1).last() == pv[k as int]);
                }
                page_set_insert(&mut s, v[k].page as usize);
                k = k + 1;
            }
            proof {
                assert(pv.take(v.len() as int) =~= pv);
            }
            s
        },
    }
}

/// All matched locations of one page, collected term after term.
fn collect_locs(search_index: &SearchIndex, stems: &Vec<String>, p: usize) -> (locs: Vec<u32>)
    ensures
        locs@ == locs_for_page(search_index@.words, stems.deep_view(), p),
{
    let ghost wv = search_index@.words;
    let ghost sv = stems.deep_view();
    let mut locs: Vec<u32> = Vec::new();
    let mut i: usize = 0;
    proof {
        assert(sv.skip(0) =~= sv);
        assert(locs@ + locs_for_page(wv, sv, p) =~= locs_for_page(wv, sv, p));
    }
    while i < stems.len()
        invariant
            i <= stems.len(),
            wv == search_index@.words,
            sv == stems.deep_view(),
            sv.len() == stems.len(),
            locs_for_page(wv, sv, p) == locs@ + locs_for_page(wv, sv.skip(i as int), p),
        decreases stems.len() - i,
    {
        proof {
            assert(sv.skip(i as int)[0] == sv[i as int]);
            assert(sv.skip(i as int).skip(1) =~= sv.skip(i as int + 1));
        }
        let ghost pre = locs@;
        match find_postings(search_index, &stems[i]) {
            None => {
                proof {
                    assert(page_locs_in(lookup_postings(wv, sv[i as int]), p) =~= Seq::<
                        u32,
                    >::empty());
                    assert(pre + locs_for_page(wv, sv.skip(i as int), p) =~= pre + locs_for_page(
                        wv,
                        sv.skip(i as int + 1),
                        p,
                    ));
                }
            },
            Some(v) => {
                let ghost pv = v@.map_values(|q: PageWord| q@);
                let mut k: usize = 0;
                proof {
                    assert(pv.skip(0) =~= pv);
                }
                while k < v.len()
                    invariant
                        k <= v.len(),
                        pv == v@.map_values(|q: PageWord| q@),
                        pv.len() == v.len(),
                        wv == search_index@.words,
                        sv == stems.deep_view(),
                        i < sv.len(),
                        lookup_postings(wv, sv[i as int]) == pv,
                        locs_for_page(wv, sv, p) == locs@ + page_locs_in(pv.skip(k as int), p)
                            + locs_for_page(wv, sv.skip(i as int + 1), p),
                    decreases v.len() - k,
                {
                    proof {
                        assert(pv.skip(k as int)[0] == pv[k as int]);
                        assert(pv.skip(k as int).skip(1) =~= pv.skip(k as int + 1));
                    }
                    let ghost lpre = locs@;
                    if v[k].page as usize == p {
                        append_all(&mut locs, &v[k].locs);
                        proof {
                            assert(locs@ =~= lpre + pv[k as int].locs);
                            assert(page_locs_in(pv.skip(k as int), p) =~= pv[k as int].locs
                                + page_locs_in(pv.skip(k as int + 1), p));
                            assert(lpre + page_locs_in(pv.skip(k as int), p) + locs_for_page(
                                wv,
                                sv.skip(i as int + 1),
                                p,
                            ) =~= locs@ + page_locs_in(pv.skip(k as int + 1), p) + locs_for_page(
                                wv,
                                sv.skip(i as int + 1),
                                p,
                            ));
                        }
                    } else {
                        proof {
                            assert(page_locs_in(pv.skip(k as int), p) =~= page_locs_in(
                                pv.skip(k as int + 1),
                                p,
                            ));
                        }
                    }
                    k = k + 1;
                }
                proof {
                    assert(pv.skip(v.len() as int).len() == 0);
                    assert(page_locs_in(pv.skip(v.len() as int), p) =~= Seq::<u32>::empty());
                    assert(locs@ + page_locs_in(pv.skip(v.len() as int), p) + locs_for_page(
                        wv,
                        sv.skip(i as int + 1),
                        p,
                    ) =~= locs@ + locs_for_page(wv, sv.skip(i as int + 1), p));
                }
            },
        }
        i = i + 1;
    }
    proof {
        assert(sv.skip(stems.len() as int).len() == 0);
        assert(locs@ + locs_for_page(wv, sv.skip(stems.len() as int), p) =~= locs@);
    }
    locs
}

/// Builds one result segment for a surviving page.
fn make_segment(search_index: &SearchIndex, stems: &Vec<String>, p: usize) -> (s: String)
    requires
        p < search_index@.pages.len(),
    ensures
        s@ == page_segment(search_index@, stems.deep_view(), p as int),
{
    let locs = collect_locs(search_index, stems, p);
    let off = select_excerpt(&locs, 30);
    let off_str = u32_to_string(off);
    let win_str = u32_to_string(30);
    let locs_str = join_locs_string(&locs);
    let mut s = search_index.pages[p].clone();
    proof {
        reveal_strlit("@");
        reveal_strlit(",");
    }
    s.append("@");
    s.append(off_str.as_str());
    s.append(",");
    s.append(win_str.as_str());
    s.append("@");
    s.append(locs_str.as_str());
    proof {
        assert(s@ =~= page_segment(search_index@, stems.deep_view(), p as int));
    }
    s
}

/// Resolves a query: fails fast on a version mismatch, stems each
/// whitespace-delimited term, intersects the terms' page sets in term
/// order, and emits one segment per surviving page, in ascending page
/// order, space-joined. Never mutates the index.
pub fn search(search_index: &SearchIndex, query: &str) -> (r: String)
    ensures
        r@ == search_spec(search_index@, query@),
{
    if let Some(g) = &search_index.generator_version {
        if !(*g == search_index.runtime_version) {
            return String::from_str("ERROR: Version mismatch");
        }
    }
    let ghost m = search_index@;
    let ghost wv = search_index@.words;
    let terms = split_query(query);
    let stemmer = english_stemmer();
    let mut stems: Vec<String> = Vec::new();
    let mut i: usize = 0;
    while i < terms.len()
        invariant
            i <= terms.len(),
            terms.deep_view() == split_terms(query@),
            stems.deep_view() == terms.deep_view().take(i as int).map_values(
                |t: Seq<char>| stem_of(t),
            ),
        decreases terms.len() - i,
    {
        let st = stem_term(&stemmer, terms[i].as_str());
        let ghost pre = stems.deep_view();
        stems.push(st);
        proof {
            assert(stems.deep_view() =~= pre.push(stem_of(terms.deep_view()[i as int])));
            assert(terms.deep_view().take(i as int + 1).map_values(|t: Seq<char>| stem_of(t))
                =~= terms.deep_view().take(i as int).map_values(|t: Seq<char>| stem_of(t)).push(
                stem_of(terms.deep_view()[i as int]),
            ));
        }
        i = i + 1;
    }
    let ghost sv = stems.deep_view();
    proof {
        assert(terms.deep_view().take(terms.len() as int) =~= terms.deep_view());
        assert(sv =~= split_terms(query@).map_values(|t: Seq<char>| stem_of(t)));
        assert(sv.len() == terms.len());
    }
    let mut acc = term_page_set(search_index, &stems[0]);
    proof {
        assert(sv.take(1)[0] == sv[0]);
        assert(page_set_elems(acc) == result_pages(wv, sv.take(1)));
    }
    let mut j: usize = 1;
    while j < stems.len()
        invariant
            1 <= j <= stems.len(),
            sv == stems.deep_view(),
            sv.len() == stems.len(),
            wv == search_index@.words,
            page_set_elems(acc) == result_pages(wv, sv.take(j as int)),
        decreases stems.len() - j,
    {
        let s = term_page_set(search_index, &stems[j]);
        page_set_intersect(&mut acc, &s);
        proof {
            assert(sv.take(j as int + 1).drop_last() =~= sv.take(j as int));
            assert(sv.take(j as int + 1).last() == sv[j as int]);
        }
        j = j + 1;
    }
    proof {
        assert(sv.take(stems.len() as int) =~= sv);
    }
    let ghost pages_set = result_pages(wv, sv);
    let mut segs: Vec<String> = Vec::new();
    let mut p: usize = 0;
    proof {
        assert(segs.deep_view() + segments_from(m, sv, pages_set, 0) =~= segments_from(
            m,
            sv,
            pages_set,
            0,
        ));
    }
    while p < search_index.pages.len()
        invariant
            p <= search_index.pages.len(),
            m == search_index@,
            sv == stems.deep_view(),
            pages_set == result_pages(m.words, sv),
            page_set_elems(acc) == pages_set,
            m.pages.len() == search_index.pages.len(),
            segments_from(m, sv, pages_set, 0) == segs.deep_view() + segments_from(
                m,
                sv,
                pages_set,
                p as int,
            ),
        decreases search_index.pages.len() - p,
    {
        let ghost pre = segs.deep_view();
        if page_set_contains(&acc, p) {
            let seg = make_segment(search_index, &stems, p);
            segs.push(seg);
            proof {
                assert(segs.deep_view() =~= pre.push(page_segment(m, sv, p as int)));
                assert(segments_from(m, sv, pages_set, p as int) =~= seq![
                    page_segment(m, sv, p as int),
                ] + segments_from(m, sv, pages_set, p as int + 1));
                assert(pre + segments_from(m, sv, pages_set, p as int) =~= segs.deep_view()
                    + segments_from(m, sv, pages_set, p as int + 1));
            }
        } else {
            proof {
                assert(segments_from(m, sv, pages_set, p as int) =~= segments_from(
                    m,
                    sv,
                    pages_set,
                    p as int + 1,
                ));
            }
        }
        p = p + 1;
    }
    proof {
        assert(segments_from(m, sv, pages_set, search_index.pages.len() as int) =~= Seq::<
            Seq<char>,
        >::empty());
        assert(segs.deep_view() + segments_from(m, sv, pages_set, search_index.pages.len() as int)
            =~= segs.deep_view());
        assert(!version_mismatch(m));
    }
    join_with_space(&segs)
}

} // verus!
