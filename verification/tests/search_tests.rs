use pagefind_web::excerpt::select_excerpt;
use pagefind_web::{init_pagefind, load_index_chunk, request_indexes, search, SearchIndex};

fn push_u32(v: &mut Vec<u8>, n: u32) {
    v.extend_from_slice(&n.to_le_bytes());
}

fn push_str(v: &mut Vec<u8>, s: &str) {
    push_u32(v, s.len() as u32);
    v.extend_from_slice(s.as_bytes());
}

fn metadata(
    version: &str,
    pages: &[&str],
    stops: &[&str],
    chunks: &[(&str, &str, &str)],
) -> Vec<u8> {
    let mut v = Vec::new();
    push_str(&mut v, version);
    push_u32(&mut v, pages.len() as u32);
    for p in pages {
        push_str(&mut v, p);
    }
    push_u32(&mut v, stops.len() as u32);
    for s in stops {
        push_str(&mut v, s);
    }
    push_u32(&mut v, chunks.len() as u32);
    for (f, t, h) in chunks {
        push_str(&mut v, f);
        push_str(&mut v, t);
        push_str(&mut v, h);
    }
    v
}

fn chunk(terms: &[(&str, &[(u32, &[u32])])]) -> Vec<u8> {
    let mut v = Vec::new();
    push_u32(&mut v, terms.len() as u32);
    for (term, pages) in terms {
        push_str(&mut v, term);
        push_u32(&mut v, pages.len() as u32);
        for (page, locs) in *pages {
            push_u32(&mut v, *page);
            push_u32(&mut v, locs.len() as u32);
            for l in *locs {
                push_u32(&mut v, *l);
            }
        }
    }
    v
}

fn fresh_index(pages: &[&str], chunks: &[(&str, &str, &str)]) -> SearchIndex {
    init_pagefind(&metadata("1.0.0", pages, &[], chunks)).expect("metadata must decode")
}

#[test]
fn it_works() {
    let result = 2 + 2;
    assert_eq!(result, 4);
}

#[test]
fn version_gate() {
    let index = fresh_index(&["p0"], &[]);
    // A mismatching generator version is rejected with the exact sentinel.
    let stale = init_pagefind(&metadata("0.1.0", &["p0"], &[], &[])).unwrap();
    assert_eq!(search(&stale, "anything"), "ERROR: Version mismatch");
    assert_eq!(search(&index, "anything"), "");
}

#[test]
fn excerpt_determinism() {
    // The window covering the cluster {5, 6, 7} beats one centered on 40,
    // and ties resolve to the lowest offset.
    assert_eq!(select_excerpt(&vec![5, 6, 7, 40], 30), 0);
    assert_eq!(select_excerpt(&vec![], 30), 0);
    assert_eq!(select_excerpt(&vec![50, 100, 102, 103], 30), 74);
}

#[test]
fn single_term_result_format() {
    let mut index = fresh_index(&["p0"], &[]);
    assert!(load_index_chunk(&mut index, &chunk(&[("cat", &[(0, &[3, 10])])])));
    assert_eq!(search(&index, "cat"), "p0@0,30@3,10");
}

#[test]
fn repeated_term_repeats_locations() {
    let mut index = fresh_index(&["p0"], &[]);
    assert!(load_index_chunk(&mut index, &chunk(&[("cat", &[(0, &[3, 10])])])));
    assert_eq!(search(&index, "cat cat"), "p0@0,30@3,10,3,10");
}

#[test]
fn conjunctive_intersection() {
    let mut index = fresh_index(&["p0", "p1", "p2", "p3", "p4"], &[]);
    let payload = chunk(&[
        ("cat", &[(1, &[1]), (2, &[1]), (3, &[1])]),
        ("dog", &[(2, &[2]), (3, &[2]), (4, &[2])]),
    ]);
    assert!(load_index_chunk(&mut index, &payload));
    // Pages {1,2,3} intersected with {2,3,4} cover exactly {2,3}, ascending.
    assert_eq!(search(&index, "cat dog"), "p2@0,30@1,2 p3@0,30@1,2");
}

#[test]
fn zero_postings_short_circuit() {
    let mut index = fresh_index(&["p0"], &[]);
    assert!(load_index_chunk(&mut index, &chunk(&[("cat", &[(0, &[1])])])));
    assert_eq!(search(&index, "cat missing"), "");
    assert_eq!(search(&index, "missing cat"), "");
}

#[test]
fn stemmed_lookup() {
    // Postings are keyed by stems; a query in surface form still matches.
    let mut index = fresh_index(&["p0"], &[]);
    assert!(load_index_chunk(&mut index, &chunk(&[("fruitless", &[(0, &[7])])])));
    assert_eq!(search(&index, "fruitlessly"), "p0@0,30@7");
}

#[test]
fn excerpt_offset_in_results() {
    let mut index = fresh_index(&["p0"], &[]);
    assert!(load_index_chunk(&mut index, &chunk(&[("cat", &[(0, &[50, 100, 102, 103])])])));
    assert_eq!(search(&index, "cat"), "p0@74,30@50,100,102,103");
}

#[test]
fn chunk_routing_coverage() {
    let index = fresh_index(
        &["p0"],
        &[("a", "f", "hash1"), ("g", "m", "hash2")],
    );
    assert_eq!(request_indexes(&index, "cat"), "hash1");
    assert_eq!(request_indexes(&index, "horse"), "hash2");
    assert_eq!(request_indexes(&index, "zebra"), "");
    // Range bounds are inclusive on both ends.
    assert_eq!(request_indexes(&index, "a"), "hash1");
    assert_eq!(request_indexes(&index, "f"), "hash1");
    assert_eq!(request_indexes(&index, "g"), "hash2");
    assert_eq!(request_indexes(&index, "cat horse zebra"), "hash1 hash2");
    // Duplicate hits are not deduplicated.
    assert_eq!(request_indexes(&index, "cat dog"), "hash1 hash1");
}

#[test]
fn idempotent_routing() {
    let mut index = fresh_index(&["p0"], &[("a", "f", "hash1")]);
    let before = request_indexes(&index, "cat zebra");
    assert!(load_index_chunk(&mut index, &chunk(&[("zzz", &[(0, &[1])])])));
    let after = request_indexes(&index, "cat zebra");
    assert_eq!(before, after);
    assert_eq!(after, "hash1");
}

#[test]
fn chunk_load_order_irrelevant() {
    let a = chunk(&[("cat", &[(0, &[1]), (1, &[4])])]);
    let b = chunk(&[("dog", &[(0, &[2]), (2, &[9])])]);
    let mut first = fresh_index(&["p0", "p1", "p2"], &[]);
    assert!(load_index_chunk(&mut first, &a));
    assert!(load_index_chunk(&mut first, &b));
    let mut second = fresh_index(&["p0", "p1", "p2"], &[]);
    assert!(load_index_chunk(&mut second, &b));
    assert!(load_index_chunk(&mut second, &a));
    for q in ["cat", "dog", "cat dog", "dog cat"] {
        assert_eq!(search(&first, q), search(&second, q));
    }
    assert_eq!(search(&first, "cat dog"), "p0@0,30@1,2");
}

#[test]
fn merges_append_to_known_terms() {
    let mut index = fresh_index(&["p0", "p1"], &[]);
    assert!(load_index_chunk(&mut index, &chunk(&[("cat", &[(0, &[1])])])));
    assert!(load_index_chunk(&mut index, &chunk(&[("cat", &[(1, &[2])])])));
    assert_eq!(search(&index, "cat"), "p0@0,30@1 p1@0,30@2");
}

#[test]
fn empty_query() {
    let mut index = fresh_index(&["p0"], &[("a", "f", "hash1")]);
    assert!(load_index_chunk(&mut index, &chunk(&[("cat", &[(0, &[1])])])));
    assert_eq!(search(&index, ""), "");
    assert_eq!(request_indexes(&index, ""), "");
}

#[test]
fn metadata_decode_errors() {
    // Truncated payload.
    let full = metadata("1.0.0", &["p0"], &[], &[]);
    assert!(init_pagefind(&full[..full.len() - 1]).is_none());
    // Trailing bytes.
    let mut padded = full.clone();
    padded.push(0);
    assert!(init_pagefind(&padded).is_none());
    // A string that is not valid UTF-8.
    let mut bad = Vec::new();
    push_u32(&mut bad, 1);
    bad.push(0xff);
    assert!(init_pagefind(&bad).is_none());
    // The empty payload.
    assert!(init_pagefind(&[]).is_none());
}

#[test]
fn chunk_decode_errors_leave_index_intact() {
    let mut index = fresh_index(&["p0"], &[]);
    assert!(load_index_chunk(&mut index, &chunk(&[("cat", &[(0, &[1])])])));
    // Page index out of range.
    assert!(!load_index_chunk(&mut index, &chunk(&[("dog", &[(7, &[1])])])));
    // A record with no locations.
    assert!(!load_index_chunk(&mut index, &chunk(&[("dog", &[(0, &[])])])));
    // Locations out of order.
    assert!(!load_index_chunk(&mut index, &chunk(&[("dog", &[(0, &[5, 3])])])));
    // Truncated payload.
    let full = chunk(&[("dog", &[(0, &[1])])]);
    assert!(!load_index_chunk(&mut index, &full[..full.len() - 2]));
    // Trailing bytes.
    let mut padded = full.clone();
    padded.push(9);
    assert!(!load_index_chunk(&mut index, &padded));
    // Previously merged data is untouched by the failures above.
    assert_eq!(search(&index, "cat"), "p0@0,30@1");
}

#[test]
fn stop_words_are_preserved_on_decode() {
    // Stop words ride along in the metadata payload; decoding them must not
    // disturb the rest of the index.
    let index = init_pagefind(&metadata("1.0.0", &["p0"], &["the", "a"], &[])).unwrap();
    assert_eq!(search(&index, "cat"), "");
}
