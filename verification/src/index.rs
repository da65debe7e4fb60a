//! Chunk payload decoding and merging. A chunk payload carries a u32 term
//! count, then per term its string, a u32 record count, and per record a
//! u32 page index, a u32 location count and the ascending locations. A
//! record must name a valid page and hold at least one location; the
//! payload must end exactly at the last byte. Decoded terms are merged
//! into the posting store: records for a known term are appended to it,
//! new terms are pushed at the end.

use vstd::prelude::*;

verus! {

use crate::{PageWord, PageWordView, WordEntry, WordEntryView, SearchIndexView};
use crate::{locs_sorted, posting_wf, postings_wf, words_wf};
use crate::util::{spec_read_u32, spec_read_str, read_u32, read_str};

// ---------------------------------------------------------------------------
// Parsing
// ---------------------------------------------------------------------------

/// `n` little-endian u32 values starting at `pos`.
pub open spec fn spec_parse_u32_list(b: Seq<u8>, pos: int, n: nat) -> Option<(Seq<u32>, int)>
    decreases n,
{
    if n == 0 {
        Some((Seq::empty(), pos))
    } else {
        match spec_read_u32(b, pos) {
            None => None,
            Some((v, p)) => match spec_parse_u32_list(b, p, (n - 1) as nat) {
                None => None,
                Some((rest, p2)) => Some((seq![v as u32] + rest, p2)),
            },
        }
    }
}

/// One hit record: page index, location count, locations. Malformed if the
/// page index is out of range, the record has no location, or the
/// locations are not ascending.
pub open spec fn spec_parse_posting(b: Seq<u8>, pos: int, npages: nat) -> Option<
    (PageWordView, int),
> {
    match spec_read_u32(b, pos) {
        None => None,
        Some((page, p1)) => if page < npages {
            match spec_read_u32(b, p1) {
                None => None,
                Some((nl, p2)) => if nl >= 1 {
                    match spec_parse_u32_list(b, p2, nl as nat) {
                        None => None,
                        Some((locs, p3)) => if locs_sorted(locs) {
                            Some((PageWordView { page: page as u32, locs }, p3))
                        } else {
                            None
                        },
                    }
                } else {
                    None
                },
            }
        } else {
            None
        },
    }
}

/// `n` hit records starting at `pos`.
pub open spec fn spec_parse_postings(b: Seq<u8>, pos: int, n: nat, npages: nat) -> Option<
    (Seq<PageWordView>, int),
>
    decreases n,
{
    if n == 0 {
        Some((Seq::empty(), pos))
    } else {
        match spec_parse_posting(b, pos, npages) {
            None => None,
            Some((p, pp)) => match spec_parse_postings(b, pp, (n - 1) as nat, npages) {
                None => None,
                Some((rest, p2)) => Some((seq![p] + rest, p2)),
            },
        }
    }
}

/// One term of a chunk payload: its string and its hit records.
pub open spec fn spec_parse_chunk_entry(b: Seq<u8>, pos: int, npages: nat) -> Option<
    (WordEntryView, int),
> {
    match spec_read_str(b, pos) {
        None => None,
        Some((term, p1)) => match spec_read_u32(b, p1) {
            None => None,
            Some((n, p2)) => match spec_parse_postings(b, p2, n as nat, npages) {
                None => None,
                Some((postings, p3)) => Some((WordEntryView { term, postings }, p3)),
            },
        },
    }
}

/// `n` terms starting at `pos`.
pub open spec fn spec_parse_chunk_entries(b: Seq<u8>, pos: int, n: nat, npages: nat) -> Option<
    (Seq<WordEntryView>, int),
>
    decreases n,
{
    if n == 0 {
        Some((Seq::empty(), pos))
    } else {
        match spec_parse_chunk_entry(b, pos, npages) {
            None => None,
            Some((e, p)) => match spec_parse_chunk_entries(b, p, (n - 1) as nat, npages) {
                None => None,
                Some((rest, p2)) => Some((seq![e] + rest, p2)),
            },
        }
    }
}

/// The whole chunk payload; `None` exactly when it is malformed, which
/// includes trailing bytes.
pub open spec fn spec_parse_chunk(b: Seq<u8>, npages: nat) -> Option<Seq<WordEntryView>> {
    match spec_read_u32(b, 0) {
        None => None,
        Some((n, p)) => match spec_parse_chunk_entries(b, p, n as nat, npages) {
            None => None,
            Some((es, p2)) => if p2 == b.len() {
                Some(es)
            } else {
                None
            },
        },
    }
}

/// Every record an accepted chunk payload carries is well formed.
pub proof fn lemma_parse_chunk_entries_wf(b: Seq<u8>, pos: int, n: nat, npages: nat)
    ensures
        spec_parse_chunk_entries(b, pos, n, npages) matches Some(t) ==> forall|k: int|
            0 <= k < t.0.len() ==> postings_wf(#[trigger] t.0[k].postings, npages),
    decreases n,
{
    if n > 0 {
        if spec_parse_chunk_entry(b, pos, npages) is Some {
            let e = spec_parse_chunk_entry(b, pos, npages)->Some_0;
            lemma_parse_postings_wf(
                b,
                spec_read_u32(b, spec_read_str(b, pos)->Some_0.1)->Some_0.1,
                spec_read_u32(b, spec_read_str(b, pos)->Some_0.1)->Some_0.0 as nat,
                npages,
            );
            lemma_parse_chunk_entries_wf(b, e.1, (n - 1) as nat, npages);
        }
    }
}

proof fn lemma_parse_postings_wf(b: Seq<u8>, pos: int, n: nat, npages: nat)
    ensures
        spec_parse_postings(b, pos, n, npages) matches Some(t) ==> postings_wf(t.0, npages),
    decreases n,
{
    if n > 0 {
        if spec_parse_posting(b, pos, npages) is Some {
            let p = spec_parse_posting(b, pos, npages)->Some_0;
            lemma_parse_u32_list_len(
                b,
                spec_read_u32(b, spec_read_u32(b, pos)->Some_0.1)->Some_0.1,
                spec_read_u32(b, spec_read_u32(b, pos)->Some_0.1)->Some_0.0 as nat,
            );
            assert(posting_wf(p.0, npages));
            lemma_parse_postings_wf(b, p.1, (n - 1) as nat, npages);
        }
    }
}

proof fn lemma_parse_u32_list_len(b: Seq<u8>, pos: int, n: nat)
    ensures
        spec_parse_u32_list(b, pos, n) matches Some(t) ==> t.0.len() == n,
    decreases n,
{
    if n > 0 {
        if spec_read_u32(b, pos) is Some {
            lemma_parse_u32_list_len(b, spec_read_u32(b, pos)->Some_0.1, (n - 1) as nat);
        }
    }
}

fn read_u32_list(b: &[u8], pos: usize, n: u32) -> (r: Option<(Vec<u32>, usize)>)
    ensures
        match r {
            Some(vp) => spec_parse_u32_list(b@, pos as int, n as nat) matches Some(t) && vp.0@
                == t.0 && vp.1 as int == t.1,
            None => spec_parse_u32_list(b@, pos as int, n as nat) is None,
        },
{
    let mut out: Vec<u32> = Vec::new();
    let mut cur: usize = pos;
    let mut i: u32 = 0;
    while i < n
        invariant
            i <= n,
            spec_parse_u32_list(b@, pos as int, n as nat) == match spec_parse_u32_list(
                b@,
                cur as int,
                (n - i) as nat,
            ) {
                None => None::<(Seq<u32>, int)>,
                Some(t) => Some((out@ + t.0, t.1)),
            },
        decreases n - i,
    {
        match read_u32(b, cur) {
            None => {
                return None;
            },
            Some((v, p)) => {
                let ghost pre = out@;
                out.push(v);
                proof {
                    assert(out@ =~= pre.push(v));
                    if spec_parse_u32_list(b@, p as int, (n - i - 1) as nat) is Some {
                        let t = spec_parse_u32_list(b@, p as int, (n - i - 1) as nat)->Some_0;
                        assert(pre + (seq![v] + t.0) =~= out@ + t.0);
                    }
                }
                cur = p;
            },
        }
        i = i + 1;
    }
    proof {
        assert(out@ + Seq::<u32>::empty() =~= out@);
    }
    Some((out, cur))
}

fn check_locs_sorted(v: &Vec<u32>) -> (r: bool)
    ensures
        r == locs_sorted(v@),
{
    let mut i: usize = 1;
    while i < v.len()
        invariant
            1 <= i,
            forall|k: int| 0 <= k < i - 1 && k < v@.len() - 1 ==> #[trigger] v@[k] <= v@[k + 1],
        decreases v.len() - i,
    {
        if v[i - 1] > v[i] {
            return false;
        }
        i = i + 1;
    }
    true
}

fn read_posting(b: &[u8], pos: usize, npages: usize) -> (r: Option<(PageWord, usize)>)
    ensures
        match r {
            Some(t) => spec_parse_posting(b@, pos as int, npages as nat) matches Some(s) && t.0@
                == s.0 && t.1 as int == s.1,
            None => spec_parse_posting(b@, pos as int, npages as nat) is None,
        },
{
    let page = match read_u32(b, pos) {
        None => {
            return None;
        },
        Some(v) => v,
    };
    if page.0 as usize >= npages {
        return None;
    }
    let nl = match read_u32(b, page.1) {
        None => {
            return None;
        },
        Some(v) => v,
    };
    if nl.0 < 1 {
        return None;
    }
    let locs = match read_u32_list(b, nl.1, nl.0) {
        None => {
            return None;
        },
        Some(v) => v,
    };
    if !check_locs_sorted(&locs.0) {
        return None;
    }
    Some((PageWord { page: page.0, locs: locs.0 }, locs.1))
}

fn read_postings(b: &[u8], pos: usize, n: u32, npages: usize) -> (r: Option<(Vec<PageWord>, usize)>)
    ensures
        match r {
            Some(vp) => spec_parse_postings(b@, pos as int, n as nat, npages as nat) matches Some(
                t,
            ) && vp.0@.map_values(|p: PageWord| p@) == t.0 && vp.1 as int == t.1,
            None => spec_parse_postings(b@, pos as int, n as nat, npages as nat) is None,
        },
{
    let mut out: Vec<PageWord> = Vec::new();
    let mut cur: usize = pos;
    let mut i: u32 = 0;
    while i < n
        invariant
            i <= n,
            spec_parse_postings(b@, pos as int, n as nat, npages as nat)
                == match spec_parse_postings(b@, cur as int, (n - i) as nat, npages as nat) {
                None => None::<(Seq<PageWordView>, int)>,
                Some(t) => Some((out@.map_values(|p: PageWord| p@) + t.0, t.1)),
            },
        decreases n - i,
    {
        match read_posting(b, cur, npages) {
            None => {
                return None;
            },
            Some((pw, p)) => {
                let ghost pre = out@.map_values(|p: PageWord| p@);
                let ghost pwv = pw@;
                out.push(pw);
                proof {
                    assert(out@.map_values(|p: PageWord| p@) =~= pre.push(pwv));
                    if spec_parse_postings(b@, p as int, (n - i - 1) as nat, npages as nat)
                        is Some {
                        let t = spec_parse_postings(
                            b@,
                            p as int,
                            (n - i - 1) as nat,
                            npages as nat,
                        )->Some_0;
                        assert(pre + (seq![pwv] + t.0) =~= out@.map_values(|p: PageWord| p@)
                            + t.0);
                    }
                }
                cur = p;
            },
        }
        i = i + 1;
    }
    proof {
        assert(out@.map_values(|p: PageWord| p@) + Seq::<PageWordView>::empty() =~= out@
            .map_values(|p: PageWord| p@));
    }
    Some((out, cur))
}

fn read_chunk_entry(b: &[u8], pos: usize, npages: usize) -> (r: Option<(WordEntry, usize)>)
    ensures
        match r {
            Some(t) => spec_parse_chunk_entry(b@, pos as int, npages as nat) matches Some(s) && t.0@
                == s.0 && t.1 as int == s.1,
            None => spec_parse_chunk_entry(b@, pos as int, npages as nat) is None,
        },
{
    let term = match read_str(b, pos) {
        None => {
            return None;
        },
        Some(v) => v,
    };
    let n = match read_u32(b, term.1) {
        None => {
            return None;
        },
        Some(v) => v,
    };
    let postings = match read_postings(b, n.1, n.0, npages) {
        None => {
            return None;
        },
        Some(v) => v,
    };
    Some((WordEntry { term: term.0, postings: postings.0 }, postings.1))
}

/// Decodes a whole chunk payload, or `None` exactly when it is malformed.
pub(crate) fn parse_chunk_exec(b: &[u8], npages: usize) -> (r: Option<Vec<WordEntry>>)
    ensures
        match r {
            Some(es) => spec_parse_chunk(b@, npages as nat) matches Some(t) && es@.map_values(
                |e: WordEntry| e@,
            ) == t,
            None => spec_parse_chunk(b@, npages as nat) is None,
        },
{
    let n = match read_u32(b, 0) {
        None => {
            return None;
        },
        Some(v) => v,
    };
    let mut out: Vec<WordEntry> = Vec::new();
    let mut cur: usize = n.1;
    let mut i: u32 = 0;
    while i < n.0
        invariant
            i <= n.0,
            spec_read_u32(b@, 0) == Some((n.0 as int, n.1 as int)),
            spec_parse_chunk_entries(b@, n.1 as int, n.0 as nat, npages as nat)
                == match spec_parse_chunk_entries(b@, cur as int, (n.0 - i) as nat, npages as nat) {
                None => None::<(Seq<WordEntryView>, int)>,
                Some(t) => Some((out@.map_values(|e: WordEntry| e@) + t.0, t.1)),
            },
        decreases n.0 - i,
    {
        match read_chunk_entry(b, cur, npages) {
            None => {
                proof {
                    assert(spec_parse_chunk_entries(
                        b@,
                        cur as int,
                        (n.0 - i) as nat,
                        npages as nat,
                    ) is None);
                    assert(spec_parse_chunk(b@, npages as nat) is None);
                }
                return None;
            },
            Some((e, p)) => {
                let ghost pre = out@.map_values(|e: WordEntry| e@);
                let ghost ev = e@;
                out.push(e);
                proof {
                    assert(out@.map_values(|e: WordEntry| e@) =~= pre.push(ev));
                    if spec_parse_chunk_entries(b@, p as int, (n.0 - i - 1) as nat, npages as nat)
                        is Some {
                        let t = spec_parse_chunk_entries(
                            b@,
                            p as int,
                            (n.0 - i - 1) as nat,
                            npages as nat,
                        )->Some_0;
                        assert(pre + (seq![ev] + t.0) =~= out@.map_values(|e: WordEntry| e@)
                            + t.0);
                    }
                }
                cur = p;
            },
        }
        i = i + 1;
    }
    proof {
        assert(spec_parse_chunk_entries(b@, cur as int, 0, npages as nat) == Some((Seq::<
            WordEntryView,
        >::empty(), cur as int)));
        assert(out@.map_values(|e: WordEntry| e@) + Seq::<WordEntryView>::empty() =~= out@
            .map_values(|e: WordEntry| e@));
    }
    if cur != b.len() {
        proof {
            assert(spec_parse_chunk(b@, npages as nat) is None);
        }
        return None;
    }
    Some(out)
}

// ---------------------------------------------------------------------------
// Merging
// ---------------------------------------------------------------------------

/// Merging one decoded term: its records are appended to the first entry
/// with that term, or a new entry is pushed at the end.
pub open spec fn merge_entry(
    words: Seq<WordEntryView>,
    t: Seq<char>,
    ps: Seq<PageWordView>,
) -> Seq<WordEntryView>
    decreases words.len(),
{
    if words.len() == 0 {
        seq![WordEntryView { term: t, postings: ps }]
    } else if words[0].term == t {
        seq![WordEntryView { term: words[0].term, postings: words[0].postings + ps }]
            + words.skip(1)
    } else {
        seq![words[0]] + merge_entry(words.skip(1), t, ps)
    }
}

/// Merging a decoded chunk: its terms are merged in payload order.
pub open spec fn merge_chunk(
    words: Seq<WordEntryView>,
    entries: Seq<WordEntryView>,
) -> Seq<WordEntryView>
    decreases entries.len(),
{
    if entries.len() == 0 {
        words
    } else {
        merge_chunk(merge_entry(words, entries[0].term, entries[0].postings), entries.skip(1))
    }
}

/// The index after a chunk load: only the posting store changes.
pub open spec fn merged_index(m: SearchIndexView, entries: Seq<WordEntryView>) -> SearchIndexView {
    SearchIndexView {
        runtime_version: m.runtime_version,
        generator_version: m.generator_version,
        pages: m.pages,
        chunks: m.chunks,
        stops: m.stops,
        words: merge_chunk(m.words, entries),
    }
}

pub proof fn lemma_merge_entry_found(
    words: Seq<WordEntryView>,
    t: Seq<char>,
    ps: Seq<PageWordView>,
    j: int,
)
    requires
        0 <= j < words.len(),
        words[j].term == t,
        forall|k: int| 0 <= k < j ==> words[k].term != t,
    ensures
        merge_entry(words, t, ps) == words.update(
            j,
            WordEntryView { term: words[j].term, postings: words[j].postings + ps },
        ),
    decreases j,
{
    if j == 0 {
        assert(merge_entry(words, t, ps) =~= words.update(
            0,
            WordEntryView { term: words[0].term, postings: words[0].postings + ps },
        ));
    } else {
        assert(words.skip(1)[j - 1] == words[j]);
        assert(forall|k: int| 0 <= k < j - 1 ==> words.skip(1)[k] == words[k + 1]);
        lemma_merge_entry_found(words.skip(1), t, ps, j - 1);
        assert(merge_entry(words, t, ps) =~= words.update(
            j,
            WordEntryView { term: words[j].term, postings: words[j].postings + ps },
        ));
    }
}

pub proof fn lemma_merge_entry_absent(words: Seq<WordEntryView>, t: Seq<char>, ps: Seq<
    PageWordView,
>)
    requires
        forall|k: int| 0 <= k < words.len() ==> words[k].term != t,
    ensures
        merge_entry(words, t, ps) == words.push(WordEntryView { term: t, postings: ps }),
    decreases words.len(),
{
    if words.len() == 0 {
        assert(merge_entry(words, t, ps) =~= words.push(WordEntryView { term: t, postings: ps }));
    } else {
        assert(forall|k: int| 0 <= k < words.len() - 1 ==> words.skip(1)[k] == words[k + 1]);
        lemma_merge_entry_absent(words.skip(1), t, ps);
        assert(merge_entry(words, t, ps) =~= words.push(WordEntryView { term: t, postings: ps }));
    }
}

/// Merging preserves the posting-store invariant.
pub proof fn lemma_merge_entry_wf(
    words: Seq<WordEntryView>,
    t: Seq<char>,
    ps: Seq<PageWordView>,
    npages: nat,
)
    requires
        words_wf(words, npages),
        postings_wf(ps, npages),
    ensures
        words_wf(merge_entry(words, t, ps), npages),
{
    if exists|k: int| 0 <= k < words.len() && words[k].term == t {
        let j = choose|j: int|
            0 <= j < words.len() && words[j].term == t && forall|k: int|
                0 <= k < j ==> words[k].term != t;
        lemma_first_match_exists(words, t);
        lemma_merge_entry_found(words, t, ps, j);
        let merged = words.update(
            j,
            WordEntryView { term: words[j].term, postings: words[j].postings + ps },
        );
        assert forall|i: int| 0 <= i < merged.len() implies postings_wf(
            #[trigger] merged[i].postings,
            npages,
        ) by {
            if i == j {
                assert(postings_wf(words[j].postings, npages));
                assert forall|x: int| 0 <= x < merged[j].postings.len() implies posting_wf(
                    #[trigger] merged[j].postings[x],
                    npages,
                ) by {
                    if x < words[j].postings.len() {
                        assert(merged[j].postings[x] == words[j].postings[x]);
                    } else {
                        assert(merged[j].postings[x] == ps[x - words[j].postings.len()]);
                    }
                }
            }
        }
    } else {
        lemma_merge_entry_absent(words, t, ps);
    }
}

/// There is a first entry with the term when any entry has it.
proof fn lemma_first_match_exists(words: Seq<WordEntryView>, t: Seq<char>)
    requires
        exists|k: int| 0 <= k < words.len() && words[k].term == t,
    ensures
        exists|j: int|
            0 <= j < words.len() && words[j].term == t && forall|k: int|
                0 <= k < j ==> words[k].term != t,
    decreases words.len(),
{
    if words[0].term == t {
        assert(0 <= 0 < words.len() && words[0].term == t && forall|k: int|
            0 <= k < 0 ==> words[k].term != t);
    } else {
        let k0 = choose|k: int| 0 <= k < words.len() && words[k].term == t;
        assert(words.skip(1)[k0 - 1] == words[k0]);
        lemma_first_match_exists(words.skip(1), t);
        let j1 = choose|j: int|
            0 <= j < words.skip(1).len() && words.skip(1)[j].term == t && forall|k: int|
                0 <= k < j ==> words.skip(1)[k].term != t;
        assert(words[j1 + 1].term == t);
        assert forall|k: int| 0 <= k < j1 + 1 implies words[k].term != t by {
            if k > 0 {
                assert(words.skip(1)[k - 1] == words[k]);
            }
        }
    }
}

pub proof fn lemma_merge_chunk_wf(
    words: Seq<WordEntryView>,
    entries: Seq<WordEntryView>,
    npages: nat,
)
    requires
        words_wf(words, npages),
        forall|k: int| 0 <= k < entries.len() ==> postings_wf(#[trigger] entries[k].postings, npages),
    ensures
        words_wf(merge_chunk(words, entries), npages),
    decreases entries.len(),
{
    if entries.len() > 0 {
        lemma_merge_entry_wf(words, entries[0].term, entries[0].postings, npages);
        assert(forall|k: int|
            0 <= k < entries.len() - 1 ==> entries.skip(1)[k] == entries[k + 1]);
        lemma_merge_chunk_wf(
            merge_entry(words, entries[0].term, entries[0].postings),
            entries.skip(1),
            npages,
        );
    }
}

/// The first store entry with the term, if any.
fn find_word_index(words: &Vec<WordEntry>, term: &String) -> (r: Option<usize>)
    ensures
        match r {
            Some(j) => {
                &&& j < words.len()
                &&& words@.map_values(|e: WordEntry| e@)[j as int].term == term@
                &&& forall|k: int| 0 <= k < j ==> (#[trigger] words@[k])@.term != term@
            },
            None => forall|k: int| 0 <= k < words.len() ==> (#[trigger] words@[k])@.term
                != term@,
        },
{
    let mut j: usize = 0;
    while j < words.len()
        invariant
            j <= words.len(),
            forall|k: int| 0 <= k < j ==> (#[trigger] words@[k])@.term != term@,
        decreases words.len() - j,
    {
        if words[j].term == *term {
            return Some(j);
        }
        j = j + 1;
    }
    None
}

/// Merges one decoded term into the store, in place.
fn merge_one(words: &mut Vec<WordEntry>, entry: WordEntry)
    ensures
        final(words)@.map_values(|e: WordEntry| e@) == merge_entry(
            old(words)@.map_values(|e: WordEntry| e@),
            entry@.term,
            entry@.postings,
        ),
{
    let ghost wv = words@.map_values(|e: WordEntry| e@);
    let ghost ev = entry@;
    if let Some(j) = find_word_index(words, &entry.term) {
        let e = words.remove(j);
        let mut postings = e.postings;
        let mut incoming = entry.postings;
        postings.append(&mut incoming);
        let merged = WordEntry { term: e.term, postings };
        proof {
            assert(merged@.postings =~= wv[j as int].postings + ev.postings);
        }
        words.insert(j, merged);
        proof {
            lemma_merge_entry_found(wv, ev.term, ev.postings, j as int);
            assert(words@.map_values(|e: WordEntry| e@) =~= merge_entry(wv, ev.term, ev.postings));
        }
    } else {
        words.push(entry);
        proof {
            lemma_merge_entry_absent(wv, ev.term, ev.postings);
            assert(words@.map_values(|e: WordEntry| e@) =~= merge_entry(wv, ev.term, ev.postings));
        }
    }
}

/// Merges a whole decoded chunk into the store, in payload order.
pub(crate) fn merge_entries(words: &mut Vec<WordEntry>, entries: Vec<WordEntry>)
    ensures
        final(words)@.map_values(|e: WordEntry| e@) == merge_chunk(
            old(words)@.map_values(|e: WordEntry| e@),
            entries@.map_values(|e: WordEntry| e@),
        ),
{
    let ghost target = merge_chunk(
        words@.map_values(|e: WordEntry| e@),
        entries@.map_values(|e: WordEntry| e@),
    );
    let mut rest = entries;
    while rest.len() > 0
        invariant
            target == merge_chunk(
                words@.map_values(|e: WordEntry| e@),
                rest@.map_values(|e: WordEntry| e@),
            ),
        decreases rest.len(),
    {
        let ghost rv = rest@.map_values(|e: WordEntry| e@);
        let e = rest.remove(0);
        proof {
            assert(rest@.map_values(|e: WordEntry| e@) =~= rv.skip(1));
        }
        merge_one(words, e);
    }
    proof {
        assert(rest@.map_values(|e: WordEntry| e@).len() == 0);
    }
}

} // verus!
