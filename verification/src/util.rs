//! Small verified building blocks: little-endian integers, length-prefixed
//! strings, decimal rendering, lexicographic order on terms, whitespace
//! splitting and string joining.

use vstd::prelude::*;

verus! {

use vstd::slice::{slice_subrange, slice_to_vec};
use vstd::string::*;
use vstd::utf8::{valid_utf8, decode_utf8};

// ---------------------------------------------------------------------------
// Little-endian u32 values and length-prefixed strings
// ---------------------------------------------------------------------------

/// The value of the four little-endian bytes of `b` starting at `pos`.
pub open spec fn le32_at(b: Seq<u8>, pos: int) -> int
    recommends
        0 <= pos,
        pos + 4 <= b.len(),
{
    b[pos] + 256 * b[pos + 1] + 65536 * b[pos + 2] + 16777216 * b[pos + 3]
}

/// Reading a little-endian u32 at `pos`: the value and the position after it,
/// or `None` if fewer than four bytes remain.
pub open spec fn spec_read_u32(b: Seq<u8>, pos: int) -> Option<(int, int)> {
    if 0 <= pos && pos + 4 <= b.len() {
        Some((le32_at(b, pos), pos + 4))
    } else {
        None
    }
}

pub fn read_u32(b: &[u8], pos: usize) -> (r: Option<(u32, usize)>)
    ensures
        match r {
            Some(vp) => spec_read_u32(b@, pos as int) == Some((vp.0 as int, vp.1 as int)),
            None => spec_read_u32(b@, pos as int) is None,
        },
{
    if pos <= b.len() && b.len() - pos >= 4 {
        let b0: u8 = b[pos];
        let b1: u8 = b[pos + 1];
        let b2: u8 = b[pos + 2];
        let b3: u8 = b[pos + 3];
        let v: u32 = b0 as u32 + 256 * (b1 as u32) + 65536 * (b2 as u32) + 16777216 * (b3 as u32);
        Some((v, pos + 4))
    } else {
        None
    }
}

/// Reading a length-prefixed UTF-8 string at `pos`: a u32 byte length, then
/// that many bytes, which must be valid UTF-8.
pub open spec fn spec_read_str(b: Seq<u8>, pos: int) -> Option<(Seq<char>, int)> {
    match spec_read_u32(b, pos) {
        Some((n, p)) => if p + n <= b.len() && valid_utf8(b.subrange(p, p + n)) {
            Some((decode_utf8(b.subrange(p, p + n)), p + n))
        } else {
            None
        },
        None => None,
    }
}

/// Relies on String::from_utf8: succeeds exactly on valid UTF-8 input, and
/// returns the string that the bytes encode.
#[verifier::external_body]
fn vec_from_utf8(v: Vec<u8>) -> (r: Option<String>)
    ensures
        r matches Some(s) ==> valid_utf8(v@) && s@ == decode_utf8(v@),
        r is None ==> !valid_utf8(v@),
{
    String::from_utf8(v).ok()
}

pub fn read_str(b: &[u8], pos: usize) -> (r: Option<(String, usize)>)
    ensures
        match r {
            Some(sp) => spec_read_str(b@, pos as int) matches Some(t) && sp.0@ == t.0 && sp.1
                as int == t.1,
            None => spec_read_str(b@, pos as int) is None,
        },
{
    match read_u32(b, pos) {
        None => None,
        Some((n32, p)) => {
            let n: usize = n32 as usize;
            if b.len() - p >= n {
                let bytes = slice_subrange(b, p, p + n);
                match vec_from_utf8(slice_to_vec(bytes)) {
                    Some(s) => Some((s, p + n)),
                    None => None,
                }
            } else {
                None
            }
        },
    }
}

// ---------------------------------------------------------------------------
// Decimal rendering
// ---------------------------------------------------------------------------

/// The character for one decimal digit.
pub open spec fn dec_digit(d: int) -> char {
    if d == 0 {
        '0'
    } else if d == 1 {
        '1'
    } else if d == 2 {
        '2'
    } else if d == 3 {
        '3'
    } else if d == 4 {
        '4'
    } else if d == 5 {
        '5'
    } else if d == 6 {
        '6'
    } else if d == 7 {
        '7'
    } else if d == 8 {
        '8'
    } else {
        '9'
    }
}

/// The base-10 rendering of `n`, with no leading zeros.
pub open spec fn dec_rep(n: int) -> Seq<char>
    recommends
        0 <= n,
    decreases n,
{
    if n < 10 {
        seq![dec_digit(n)]
    } else {
        dec_rep(n / 10).push(dec_digit(n % 10))
    }
}

fn dec_digit_str(d: u32) -> (s: &'static str)
    requires
        d < 10,
    ensures
        s@ == seq![dec_digit(d as int)],
{
    let s: &'static str = if d == 0 {
        "0"
    } else if d == 1 {
        "1"
    } else if d == 2 {
        "2"
    } else if d == 3 {
        "3"
    } else if d == 4 {
        "4"
    } else if d == 5 {
        "5"
    } else if d == 6 {
        "6"
    } else if d == 7 {
        "7"
    } else if d == 8 {
        "8"
    } else {
        "9"
    };
    proof {
        reveal_strlit("0");
        reveal_strlit("1");
        reveal_strlit("2");
        reveal_strlit("3");
        reveal_strlit("4");
        reveal_strlit("5");
        reveal_strlit("6");
        reveal_strlit("7");
        reveal_strlit("8");
        reveal_strlit("9");
        assert(s@ =~= seq![dec_digit(d as int)]);
    }
    s
}

pub fn u32_to_string(n: u32) -> (s: String)
    ensures
        s@ == dec_rep(n as int),
    decreases n,
{
    if n < 10 {
        String::from_str(dec_digit_str(n))
    } else {
        let mut s = u32_to_string(n / 10);
        s.append(dec_digit_str(n % 10));
        proof {
            assert(s@ =~= dec_rep(n as int / 10).push(dec_digit(n as int % 10)));
        }
        s
    }
}

// ---------------------------------------------------------------------------
// Lexicographic order on terms
// ---------------------------------------------------------------------------

/// Lexicographic order over scalar values, the order Rust gives UTF-8 strings.
pub open spec fn lex_le(a: Seq<char>, b: Seq<char>) -> bool
    decreases a.len(),
{
    if a.len() == 0 {
        true
    } else if b.len() == 0 {
        false
    } else if a[0] == b[0] {
        lex_le(a.skip(1), b.skip(1))
    } else {
        (a[0] as u32) < (b[0] as u32)
    }
}

pub fn str_lex_le(a: &str, b: &str) -> (r: bool)
    ensures
        r == lex_le(a@, b@),
{
    let alen = a.unicode_len();
    let blen = b.unicode_len();
    let mut i: usize = 0;
    proof {
        assert(a@.skip(0) =~= a@);
        assert(b@.skip(0) =~= b@);
    }
    while i < alen && i < blen
        invariant
            i <= alen,
            i <= blen,
            alen == a@.len(),
            blen == b@.len(),
            lex_le(a@, b@) == lex_le(a@.skip(i as int), b@.skip(i as int)),
        decreases alen - i,
    {
        let ca = a.get_char(i);
        let cb = b.get_char(i);
        proof {
            assert(a@.skip(i as int)[0] == a@[i as int]);
            assert(b@.skip(i as int)[0] == b@[i as int]);
            assert(a@.skip(i as int).skip(1) =~= a@.skip(i as int + 1));
            assert(b@.skip(i as int).skip(1) =~= b@.skip(i as int + 1));
        }
        if ca != cb {
            return (ca as u32) < (cb as u32);
        }
        i = i + 1;
    }
    i == alen
}

// ---------------------------------------------------------------------------
// Splitting a query on spaces
// ---------------------------------------------------------------------------

/// The tokens of `q` from position `i` on, the current token having begun at
/// `start`. Splitting is on every single space, so empty tokens are kept.
pub open spec fn split_from(q: Seq<char>, start: int, i: int) -> Seq<Seq<char>>
    recommends
        0 <= start <= i <= q.len(),
    decreases q.len() - i,
{
    if i >= q.len() {
        seq![q.subrange(start, q.len() as int)]
    } else if q[i] == ' ' {
        seq![q.subrange(start, i)] + split_from(q, i + 1, i + 1)
    } else {
        split_from(q, start, i + 1)
    }
}

/// The whitespace-delimited terms of a query; always at least one token.
pub open spec fn split_terms(q: Seq<char>) -> Seq<Seq<char>> {
    split_from(q, 0, 0)
}

pub proof fn lemma_split_from_len(q: Seq<char>, start: int, i: int)
    ensures
        split_from(q, start, i).len() >= 1,
    decreases q.len() - i,
{
    if i >= q.len() {
    } else if q[i] == ' ' {
    } else {
        lemma_split_from_len(q, start, i + 1);
    }
}

pub fn split_query(q: &str) -> (terms: Vec<String>)
    ensures
        terms.deep_view() == split_terms(q@),
        terms.len() >= 1,
{
    let len = q.unicode_len();
    let mut terms: Vec<String> = Vec::new();
    let mut start: usize = 0;
    let mut i: usize = 0;
    while i < len
        invariant
            start <= i <= len,
            len == q@.len(),
            split_terms(q@) == terms.deep_view() + split_from(q@, start as int, i as int),
        decreases len - i,
    {
        let c = q.get_char(i);
        if c == ' ' {
            let tok = String::from_str(q.substring_char(start, i));
            let ghost old_dv = terms.deep_view();
            terms.push(tok);
            proof {
                assert(terms.deep_view() =~= old_dv.push(q@.subrange(start as int, i as int)));
                assert(split_terms(q@) =~= terms.deep_view() + split_from(
                    q@,
                    i as int + 1,
                    i as int + 1,
                ));
            }
            start = i + 1;
        }
        i = i + 1;
    }
    let tok = String::from_str(q.substring_char(start, len));
    let ghost old_dv = terms.deep_view();
    terms.push(tok);
    proof {
        assert(terms.deep_view() =~= old_dv.push(q@.subrange(start as int, len as int)));
        assert(split_terms(q@) =~= terms.deep_view());
        lemma_split_from_len(q@, 0, 0);
    }
    terms
}

/// Appends every element of `src` to `dst`.
pub fn append_all(dst: &mut Vec<u32>, src: &Vec<u32>)
    ensures
        final(dst)@ == old(dst)@ + src@,
{
    let mut k: usize = 0;
    proof {
        assert(dst@ =~= old(dst)@ + src@.take(0));
    }
    while k < src.len()
        invariant
            k <= src.len(),
            dst@ == old(dst)@ + src@.take(k as int),
        decreases src.len() - k,
    {
        dst.push(src[k]);
        proof {
            assert(old(dst)@ + src@.take(k as int + 1) =~= (old(dst)@ + src@.take(k as int)).push(
                src@[k as int],
            ));
        }
        k = k + 1;
    }
    proof {
        assert(src@.take(src.len() as int) =~= src@);
    }
}

// ---------------------------------------------------------------------------
// Joining
// ---------------------------------------------------------------------------

/// The items joined with a single separator character between them.
pub open spec fn join_with(items: Seq<Seq<char>>, sep: char) -> Seq<char>
    decreases items.len(),
{
    if items.len() == 0 {
        Seq::empty()
    } else if items.len() == 1 {
        items[0]
    } else {
        items[0] + seq![sep] + join_with(items.skip(1), sep)
    }
}

pub proof fn lemma_join_with_push(items: Seq<Seq<char>>, x: Seq<char>, sep: char)
    ensures
        join_with(items.push(x), sep) == if items.len() == 0 {
            x
        } else {
            join_with(items, sep) + seq![sep] + x
        },
    decreases items.len(),
{
    if items.len() == 0 {
        assert(items.push(x)[0] == x);
        assert(items.push(x).len() == 1);
    } else {
        assert(items.push(x)[0] == items[0]);
        assert(items.push(x).skip(1) =~= items.skip(1).push(x));
        lemma_join_with_push(items.skip(1), x, sep);
        if items.len() == 1 {
            assert(join_with(items, sep) == items[0]);
            assert(join_with(items.push(x), sep) =~= join_with(items, sep) + seq![sep] + x);
        } else {
            assert(join_with(items.push(x), sep) =~= join_with(items, sep) + seq![sep] + x);
        }
    }
}

pub fn join_with_space(items: &Vec<String>) -> (r: String)
    ensures
        r@ == join_with(items.deep_view(), ' '),
{
    let mut r = String::new();
    let mut i: usize = 0;
    while i < items.len()
        invariant
            i <= items.len(),
            r@ == join_with(items.deep_view().take(i as int), ' '),
        decreases items.len() - i,
    {
        proof {
            reveal_strlit(" ");
        }
        if i > 0 {
            r.append(" ");
        }
        r.append(items[i].as_str());
        proof {
            let dv = items.deep_view();
            assert(dv.take(i as int + 1) =~= dv.take(i as int).push(dv[i as int]));
            lemma_join_with_push(dv.take(i as int), dv[i as int], ' ');
            if i > 0 {
                assert(dv.take(i as int).len() > 0);
                assert(r@ =~= join_with(dv.take(i as int), ' ') + seq![' '] + dv[i as int]);
            } else {
                assert(r@ =~= dv[0]);
            }
        }
        i = i + 1;
    }
    proof {
        assert(items.deep_view().take(items.len() as int) =~= items.deep_view());
    }
    r
}

/// The locations of one result page, comma-joined in decimal.
pub open spec fn join_locs(locs: Seq<u32>) -> Seq<char> {
    join_with(locs.map_values(|l: u32| dec_rep(l as int)), ',')
}

pub fn join_locs_string(locs: &Vec<u32>) -> (r: String)
    ensures
        r@ == join_locs(locs@),
{
    let mut r = String::new();
    let mut i: usize = 0;
    while i < locs.len()
        invariant
            i <= locs.len(),
            r@ == join_with(locs@.take(i as int).map_values(|l: u32| dec_rep(l as int)), ','),
        decreases locs.len() - i,
    {
        proof {
            reveal_strlit(",");
        }
        if i > 0 {
            r.append(",");
        }
        let d = u32_to_string(locs[i]);
        r.append(d.as_str());
        proof {
            let dv = locs@.take(i as int + 1).map_values(|l: u32| dec_rep(l as int));
            let pv = locs@.take(i as int).map_values(|l: u32| dec_rep(l as int));
            assert(dv =~= pv.push(dec_rep(locs@[i as int] as int)));
            lemma_join_with_push(pv, dec_rep(locs@[i as int] as int), ',');
            if i > 0 {
                assert(pv.len() > 0);
                assert(r@ =~= join_with(pv, ',') + seq![','] + dec_rep(locs@[i as int] as int));
            } else {
                assert(r@ =~= dec_rep(locs@[0] as int));
            }
        }
        i = i + 1;
    }
    proof {
        assert(locs@.take(locs.len() as int) =~= locs@);
    }
    r
}

} // verus!
