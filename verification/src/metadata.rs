//! Metadata payload decoding. The payload carries, in order: the generator
//! version string, the page list, the stop-word list and the chunk
//! directory, each list a u32 count followed by its elements, and must end
//! exactly at the last byte.

use vstd::prelude::*;

verus! {

use crate::IndexChunk;
use crate::IndexChunkView;
use crate::util::{spec_read_u32, spec_read_str, read_u32, read_str};

/// Everything a metadata payload carries.
pub ghost struct MetadataView {
    pub version: Seq<char>,
    pub pages: Seq<Seq<char>>,
    pub stops: Seq<Seq<char>>,
    pub chunks: Seq<IndexChunkView>,
}

/// `n` length-prefixed strings starting at `pos`.
pub open spec fn spec_parse_str_list(b: Seq<u8>, pos: int, n: nat) -> Option<(Seq<Seq<char>>, int)>
    decreases n,
{
    if n == 0 {
        Some((Seq::empty(), pos))
    } else {
        match spec_read_str(b, pos) {
            None => None,
            Some((s, p)) => match spec_parse_str_list(b, p, (n - 1) as nat) {
                None => None,
                Some((rest, p2)) => Some((seq![s] + rest, p2)),
            },
        }
    }
}

/// One chunk directory entry: its `from`, `to` and `hash` strings in order.
pub open spec fn spec_parse_chunk_dir(b: Seq<u8>, pos: int) -> Option<(IndexChunkView, int)> {
    match spec_read_str(b, pos) {
        None => None,
        Some((from, p1)) => match spec_read_str(b, p1) {
            None => None,
            Some((to, p2)) => match spec_read_str(b, p2) {
                None => None,
                Some((hash, p3)) => Some((IndexChunkView { from, to, hash }, p3)),
            },
        },
    }
}

/// `n` chunk directory entries starting at `pos`.
pub open spec fn spec_parse_chunk_dir_list(b: Seq<u8>, pos: int, n: nat) -> Option<
    (Seq<IndexChunkView>, int),
>
    decreases n,
{
    if n == 0 {
        Some((Seq::empty(), pos))
    } else {
        match spec_parse_chunk_dir(b, pos) {
            None => None,
            Some((c, p)) => match spec_parse_chunk_dir_list(b, p, (n - 1) as nat) {
                None => None,
                Some((rest, p2)) => Some((seq![c] + rest, p2)),
            },
        }
    }
}

/// The whole metadata payload; `None` exactly when it is malformed, which
/// includes trailing bytes.
pub open spec fn spec_parse_metadata(b: Seq<u8>) -> Option<MetadataView> {
    match spec_read_str(b, 0) {
        None => None,
        Some((version, p1)) => match spec_read_u32(b, p1) {
            None => None,
            Some((npages, p2)) => match spec_parse_str_list(b, p2, npages as nat) {
                None => None,
                Some((pages, p3)) => match spec_read_u32(b, p3) {
                    None => None,
                    Some((nstops, p4)) => match spec_parse_str_list(b, p4, nstops as nat) {
                        None => None,
                        Some((stops, p5)) => match spec_read_u32(b, p5) {
                            None => None,
                            Some((nchunks, p6)) => match spec_parse_chunk_dir_list(
                                b,
                                p6,
                                nchunks as nat,
                            ) {
                                None => None,
                                Some((chunks, p7)) => if p7 == b.len() {
                                    Some(MetadataView { version, pages, stops, chunks })
                                } else {
                                    None
                                },
                            },
                        },
                    },
                },
            },
        },
    }
}

fn read_str_list(b: &[u8], pos: usize, n: u32) -> (r: Option<(Vec<String>, usize)>)
    ensures
        match r {
            Some(vp) => spec_parse_str_list(b@, pos as int, n as nat) matches Some(t)
                && vp.0.deep_view() == t.0 && vp.1 as int == t.1,
            None => spec_parse_str_list(b@, pos as int, n as nat) is None,
        },
{
    let mut out: Vec<String> = Vec::new();
    let mut cur: usize = pos;
    let mut i: u32 = 0;
    while i < n
        invariant
            i <= n,
            spec_parse_str_list(b@, pos as int, n as nat) == match spec_parse_str_list(
                b@,
                cur as int,
                (n - i) as nat,
            ) {
                None => None::<(Seq<Seq<char>>, int)>,
                Some(t) => Some((out.deep_view() + t.0, t.1)),
            },
        decreases n - i,
    {
        match read_str(b, cur) {
            None => {
                return None;
            },
            Some((s, p)) => {
                let ghost pre = out.deep_view();
                let ghost sv = s@;
                out.push(s);
                proof {
                    assert(out.deep_view() =~= pre.push(sv));
                    if spec_parse_str_list(b@, p as int, (n - i - 1) as nat) is Some {
                        let t = spec_parse_str_list(b@, p as int, (n - i - 1) as nat)->Some_0;
                        assert(pre + (seq![sv] + t.0) =~= out.deep_view() + t.0);
                    }
                }
                cur = p;
            },
        }
        i = i + 1;
    }
    proof {
        assert(spec_parse_str_list(b@, cur as int, 0) == Some((Seq::<Seq<char>>::empty(), cur
            as int)));
        assert(out.deep_view() + Seq::<Seq<char>>::empty() =~= out.deep_view());
    }
    Some((out, cur))
}

fn read_chunk_dir_list(b: &[u8], pos: usize, n: u32) -> (r: Option<(Vec<IndexChunk>, usize)>)
    ensures
        match r {
            Some(vp) => spec_parse_chunk_dir_list(b@, pos as int, n as nat) matches Some(t)
                && vp.0@.map_values(|c: IndexChunk| c@) == t.0 && vp.1 as int == t.1,
            None => spec_parse_chunk_dir_list(b@, pos as int, n as nat) is None,
        },
{
    let mut out: Vec<IndexChunk> = Vec::new();
    let mut cur: usize = pos;
    let mut i: u32 = 0;
    while i < n
        invariant
            i <= n,
            spec_parse_chunk_dir_list(b@, pos as int, n as nat) == match spec_parse_chunk_dir_list(
                b@,
                cur as int,
                (n - i) as nat,
            ) {
                None => None::<(Seq<IndexChunkView>, int)>,
                Some(t) => Some((out@.map_values(|c: IndexChunk| c@) + t.0, t.1)),
            },
        decreases n - i,
    {
        let from = match read_str(b, cur) {
            None => {
                return None;
            },
            Some(v) => v,
        };
        let to = match read_str(b, from.1) {
            None => {
                return None;
            },
            Some(v) => v,
        };
        let hash = match read_str(b, to.1) {
            None => {
                return None;
            },
            Some(v) => v,
        };
        let p: usize = hash.1;
        let ghost pre = out@.map_values(|c: IndexChunk| c@);
        let c = IndexChunk { from: from.0, to: to.0, hash: hash.0 };
        let ghost cvw = c@;
        out.push(c);
        proof {
            assert(out@.map_values(|c: IndexChunk| c@) =~= pre.push(cvw));
            assert(spec_parse_chunk_dir(b@, cur as int) == Some((cvw, p as int)));
            if spec_parse_chunk_dir_list(b@, p as int, (n - i - 1) as nat) is Some {
                let t = spec_parse_chunk_dir_list(b@, p as int, (n - i - 1) as nat)->Some_0;
                assert(pre + (seq![cvw] + t.0) =~= out@.map_values(|c: IndexChunk| c@) + t.0);
            }
        }
        cur = p;
        i = i + 1;
    }
    proof {
        assert(spec_parse_chunk_dir_list(b@, cur as int, 0) == Some((Seq::<
            IndexChunkView,
        >::empty(), cur as int)));
        assert(out@.map_values(|c: IndexChunk| c@) + Seq::<IndexChunkView>::empty() =~= out@
            .map_values(|c: IndexChunk| c@));
    }
    Some((out, cur))
}

/// Decodes a whole metadata payload into its parts, or `None` exactly when
/// the payload is malformed.
pub(crate) fn parse_metadata_exec(b: &[u8]) -> (r: Option<
    (String, Vec<String>, Vec<String>, Vec<IndexChunk>),
>)
    ensures
        match r {
            Some(t) => {
                &&& spec_parse_metadata(b@) matches Some(m)
                &&& t.0@ == spec_parse_metadata(b@)->Some_0.version
                &&& t.1.deep_view() == spec_parse_metadata(b@)->Some_0.pages
                &&& t.2.deep_view() == spec_parse_metadata(b@)->Some_0.stops
                &&& t.3@.map_values(|c: IndexChunk| c@) == spec_parse_metadata(b@)->Some_0.chunks
            },
            None => spec_parse_metadata(b@) is None,
        },
{
    let version = match read_str(b, 0) {
        None => {
            return None;
        },
        Some(v) => v,
    };
    let npages = match read_u32(b, version.1) {
        None => {
            return None;
        },
        Some(v) => v,
    };
    let pages = match read_str_list(b, npages.1, npages.0) {
        None => {
            return None;
        },
        Some(v) => v,
    };
    let nstops = match read_u32(b, pages.1) {
        None => {
            return None;
        },
        Some(v) => v,
    };
    let stops = match read_str_list(b, nstops.1, nstops.0) {
        None => {
            return None;
        },
        Some(v) => v,
    };
    let nchunks = match read_u32(b, stops.1) {
        None => {
            return None;
        },
        Some(v) => v,
    };
    let chunks = match read_chunk_dir_list(b, nchunks.1, nchunks.0) {
        None => {
            return None;
        },
        Some(v) => v,
    };
    if chunks.1 != b.len() {
        return None;
    }
    Some((version.0, pages.0, stops.0, chunks.0))
}

} // verus!
