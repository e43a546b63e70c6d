//! The built-in string surface over UTF-8 bytes: searches and splits go
//! by bytes, words and trimming by characters.

use vstd::prelude::*;
use vstd::string::*;
use vstd::utf8::*;

use crate::literal::{extend, found_at, is_at, line_end, slice_of, NEWLINE, RETURN};
use crate::text::{
    chars_of, is_space, skip_space, skip_space_back, space, space_end, space_start, string_of,
};
use crate::value::{byte_views, bytes_of};

verus! {

/// What a lossy decoding makes of bytes.
pub uninterp spec fn lossy_text(b: Seq<u8>) -> Seq<char>;

/// `String::from_utf8_lossy` decodes bytes; on valid UTF-8 it is the
/// exact decoding.
#[verifier::external_body]
pub(crate) fn text_of(b: &Vec<u8>) -> (r: String)
    ensures
        r@ == lossy_text(b@),
        valid_utf8(b@) ==> r@ == decode_utf8(b@),
{
    String::from_utf8_lossy(b).into_owned()
}

/// The text bytes spell: exact where they are valid, else what a lossy
/// decoding makes of them.
pub open spec fn read_text(b: Seq<u8>) -> Seq<char> {
    if valid_utf8(b) {
        decode_utf8(b)
    } else {
        lossy_text(b)
    }
}

/// Every one of the texts is valid.
pub open spec fn all_text(v: Seq<Seq<u8>>) -> bool {
    forall|i: int| 0 <= i < v.len() ==> valid_utf8(#[trigger] v[i])
}

/// `std::str::from_utf8` accepts exactly the valid UTF-8 byte sequences.
#[verifier::external_body]
pub(crate) fn is_text(b: &Vec<u8>) -> (r: bool)
    ensures
        r == valid_utf8(b@),
{
    std::str::from_utf8(b).is_ok()
}

/// The lowercase of a text.
pub uninterp spec fn lower_text(s: Seq<char>) -> Seq<char>;

/// The uppercase of a text.
pub uninterp spec fn upper_text(s: Seq<char>) -> Seq<char>;

/// `str::to_lowercase` is the Unicode lowercase of the text, a function
/// of the text alone.
#[verifier::external_body]
pub(crate) fn to_lower(s: &str) -> (r: String)
    ensures
        r@ == lower_text(s@),
{
    s.to_lowercase()
}

/// `str::to_uppercase` is the Unicode uppercase of the text, a function
/// of the text alone.
#[verifier::external_body]
pub(crate) fn to_upper(s: &str) -> (r: String)
    ensures
        r@ == upper_text(s@),
{
    s.to_uppercase()
}

// ---------------------------------------------------------------- search --

/// The first position from `i` on where the needle stands.
pub open spec fn find_from(b: Seq<u8>, n: Seq<u8>, i: int) -> Option<int>
    decreases b.len() - i,
{
    if i > b.len() {
        None
    } else if found_at(b, n, i) {
        Some(i)
    } else if i < b.len() {
        find_from(b, n, i + 1)
    } else {
        None
    }
}

/// The last position up to `i` where the needle stands.
pub open spec fn rfind_to(b: Seq<u8>, n: Seq<u8>, i: int) -> Option<int>
    decreases i + 1,
{
    if i < 0 {
        None
    } else if found_at(b, n, i) {
        Some(i)
    } else {
        rfind_to(b, n, i - 1)
    }
}

pub open spec fn opt_index(o: Option<usize>) -> Option<int> {
    match o {
        Some(i) => Some(i as int),
        None => None,
    }
}

pub fn find(b: &Vec<u8>, n: &Vec<u8>, from: usize) -> (r: Option<usize>)
    requires
        from <= b@.len(),
    ensures
        opt_index(r) == find_from(b@, n@, from as int),
        r matches Some(i) ==> from <= i && i + n@.len() <= b@.len() && found_at(b@, n@, i as int),
{
    let mut i: usize = from;
    let len: usize = b.len();
    while i < len
        invariant
            from <= i <= len,
            len == b@.len(),
            find_from(b@, n@, from as int) == find_from(b@, n@, i as int),
        decreases len - i,
    {
        if is_at(b, n, i) {
            return Some(i);
        }
        i = i + 1;
    }
    if is_at(b, n, i) {
        Some(i)
    } else {
        None
    }
}

pub fn rfind(b: &Vec<u8>, n: &Vec<u8>) -> (r: Option<usize>)
    ensures
        opt_index(r) == rfind_to(b@, n@, b@.len() as int),
{
    let mut i: usize = b.len();
    while i > 0
        invariant
            i <= b@.len(),
            rfind_to(b@, n@, b@.len() as int) == rfind_to(b@, n@, i as int),
        decreases i,
    {
        if is_at(b, n, i) {
            return Some(i);
        }
        i = i - 1;
    }
    if is_at(b, n, 0) {
        Some(0)
    } else {
        assert(rfind_to(b@, n@, -1) is None);
        None
    }
}

/// How many non-overlapping matches stand from `i` on.
pub open spec fn count_from(b: Seq<u8>, n: Seq<u8>, i: int) -> nat
    decreases b.len() - i,
{
    if i >= b.len() || n.len() == 0 {
        0
    } else if found_at(b, n, i) {
        1 + count_from(b, n, i + n.len())
    } else {
        count_from(b, n, i + 1)
    }
}

pub fn count(b: &Vec<u8>, n: &Vec<u8>) -> (r: usize)
    ensures
        r == count_from(b@, n@, 0),
        r <= b@.len(),
{
    if n.len() == 0 {
        return 0;
    }
    let mut i: usize = 0;
    let mut c: usize = 0;
    let len: usize = b.len();
    while i < len
        invariant
            i <= len,
            len == b@.len(),
            n@.len() > 0,
            c <= i,
            c + count_from(b@, n@, i as int) == count_from(b@, n@, 0),
        decreases len - i,
    {
        if is_at(b, n, i) {
            i = i + n.len();
            c = c + 1;
        } else {
            i = i + 1;
        }
    }
    c
}

// ----------------------------------------------------------------- splits --

/// The pieces between matches: the one that began at `start`, with the
/// search at `i`.
pub open spec fn pieces(b: Seq<u8>, n: Seq<u8>, start: int, i: int) -> Seq<Seq<u8>>
    decreases b.len() - i,
{
    if i >= b.len() || n.len() == 0 {
        seq![b.subrange(start, b.len() as int)]
    } else if found_at(b, n, i) {
        seq![b.subrange(start, i)] + pieces(b, n, i + n.len(), i + n.len())
    } else {
        pieces(b, n, start, i + 1)
    }
}

fn push_piece(out: &mut Vec<Vec<u8>>, p: Vec<u8>)
    ensures
        byte_views(final(out)@) == byte_views(old(out)@).push(p@),
{
    let ghost was = byte_views(out@);
    let ghost pv = p@;
    out.push(p);
    assert(byte_views(out@) =~= was.push(pv));
}

pub fn split(b: &Vec<u8>, n: &Vec<u8>) -> (r: Vec<Vec<u8>>)
    ensures
        byte_views(r@) == pieces(b@, n@, 0, 0),
        valid_utf8(b@) && valid_utf8(n@) ==> all_text(byte_views(r@)),
{
    proof {
        if valid_utf8(b@) && valid_utf8(n@) {
            lemma_pieces_text(b@, n@, 0, 0);
        }
    }
    let mut out: Vec<Vec<u8>> = Vec::new();
    let len: usize = b.len();
    let mut start: usize = 0;
    let mut i: usize = 0;
    assert(byte_views(out@) + pieces(b@, n@, 0, 0) =~= pieces(b@, n@, 0, 0));
    if n.len() > 0 {
        while i < len
            invariant
                start <= i <= len,
                len == b@.len(),
                n@.len() > 0,
                byte_views(out@) + pieces(b@, n@, start as int, i as int) == pieces(
                    b@,
                    n@,
                    0,
                    0,
                ),
            decreases len - i,
        {
            if is_at(b, n, i) {
                let ghost was = byte_views(out@);
                let ghost at = i as int;
                let ghost s0 = start as int;
                let p = slice_of(b, start, i);
                push_piece(&mut out, p);
                i = i + n.len();
                start = i;
                assert(byte_views(out@) + pieces(b@, n@, start as int, i as int) =~= was + pieces(
                    b@,
                    n@,
                    s0,
                    at,
                ));
            } else {
                i = i + 1;
            }
        }
    }
    let ghost was = byte_views(out@);
    let p = slice_of(b, start, len);
    push_piece(&mut out, p);
    assert(byte_views(out@) =~= was + pieces(b@, n@, start as int, i as int));
    out
}

/// The bytes with every match replaced, from `i` on.
pub open spec fn replaced(b: Seq<u8>, n: Seq<u8>, to: Seq<u8>, i: int) -> Seq<u8>
    decreases b.len() - i,
{
    if i >= b.len() {
        Seq::empty()
    } else if n.len() > 0 && found_at(b, n, i) {
        to + replaced(b, n, to, i + n.len())
    } else {
        seq![b[i]] + replaced(b, n, to, i + 1)
    }
}

pub fn replace(b: &Vec<u8>, n: &Vec<u8>, to: &Vec<u8>) -> (r: Vec<u8>)
    ensures
        r@ == replaced(b@, n@, to@, 0),
        valid_utf8(b@) && valid_utf8(n@) && valid_utf8(to@) ==> valid_utf8(r@),
{
    proof {
        if valid_utf8(b@) && valid_utf8(n@) && valid_utf8(to@) {
            lemma_replaced_text(b@, n@, to@, 0, 0);
            assert(b@.subrange(0, 0) + replaced(b@, n@, to@, 0) =~= replaced(b@, n@, to@, 0));
        }
    }
    let mut out: Vec<u8> = Vec::new();
    let len: usize = b.len();
    let mut i: usize = 0;
    assert(out@ + replaced(b@, n@, to@, 0) =~= replaced(b@, n@, to@, 0));
    while i < len
        invariant
            i <= len,
            len == b@.len(),
            out@ + replaced(b@, n@, to@, i as int) == replaced(b@, n@, to@, 0),
        decreases len - i,
    {
        let ghost was = out@;
        let ghost at = i as int;
        if n.len() > 0 && is_at(b, n, i) {
            extend(&mut out, to);
            i = i + n.len();
        } else {
            out.push(b[i]);
            i = i + 1;
        }
        assert(out@ + replaced(b@, n@, to@, i as int) =~= was + replaced(b@, n@, to@, at));
    }
    assert(out@ =~= replaced(b@, n@, to@, 0));
    out
}

/// Replacing a text by itself changes nothing.
pub proof fn law_replace_by_itself(b: Seq<u8>, n: Seq<u8>, i: int)
    requires
        0 <= i <= b.len(),
    ensures
        replaced(b, n, n, i) =~= b.skip(i),
    decreases b.len() - i,
{
    if i < b.len() {
        if n.len() > 0 && found_at(b, n, i) {
            law_replace_by_itself(b, n, i + n.len());
            assert(b.skip(i) =~= b.subrange(i, i + n.len()) + b.skip(i + n.len()));
        } else {
            law_replace_by_itself(b, n, i + 1);
            assert(b.skip(i) =~= seq![b[i]] + b.skip(i + 1));
        }
    }
}

/// A line without its terminator.
pub open spec fn line_text(b: Seq<u8>, lo: int, hi: int) -> Seq<u8> {
    if lo < hi && b[hi - 1] == NEWLINE {
        if lo < hi - 1 && b[hi - 2] == RETURN {
            b.subrange(lo, hi - 2)
        } else {
            b.subrange(lo, hi - 1)
        }
    } else {
        b.subrange(lo, hi)
    }
}

pub open spec fn lines_from(b: Seq<u8>, i: int) -> Seq<Seq<u8>>
    decreases b.len() - i,
{
    if i >= b.len() {
        Seq::empty()
    } else {
        let end = line_end(b, i);
        if i < end && end <= b.len() {
            seq![line_text(b, i, end)] + lines_from(b, end)
        } else {
            Seq::empty()
        }
    }
}

pub fn lines(b: &Vec<u8>) -> (r: Vec<Vec<u8>>)
    ensures
        byte_views(r@) == lines_from(b@, 0),
        valid_utf8(b@) ==> all_text(byte_views(r@)),
{
    proof {
        if valid_utf8(b@) {
            lemma_lines_text(b@, 0);
        }
    }
    let mut out: Vec<Vec<u8>> = Vec::new();
    let len: usize = b.len();
    let mut i: usize = 0;
    assert(byte_views(out@) + lines_from(b@, 0) =~= lines_from(b@, 0));
    while i < len
        invariant
            i <= len,
            len == b@.len(),
            byte_views(out@) + lines_from(b@, i as int) == lines_from(b@, 0),
        decreases len - i,
    {
        let ghost was = byte_views(out@);
        let end = crate::literal::find_line_end(b, i);
        let hi: usize = if b[end - 1] == NEWLINE {
            if i < end - 1 && b[end - 2] == RETURN {
                end - 2
            } else {
                end - 1
            }
        } else {
            end
        };
        let p = slice_of(b, i, hi);
        push_piece(&mut out, p);
        assert(byte_views(out@) + lines_from(b@, end as int) =~= was + lines_from(b@, i as int));
        i = end;
    }
    assert(byte_views(out@) =~= lines_from(b@, 0));
    out
}

/// The end of the word that begins at `i`.
pub open spec fn word_end(s: Seq<char>, i: int) -> int
    decreases s.len() - i,
{
    if 0 <= i < s.len() && !space(s[i]) {
        word_end(s, i + 1)
    } else {
        i
    }
}

/// The words from `i` on.
pub open spec fn words_from(s: Seq<char>, i: int) -> Seq<Seq<u8>>
    decreases s.len() - i,
{
    let a = space_end(s, i);
    let z = word_end(s, a);
    if 0 <= i <= a && a < z && z <= s.len() {
        seq![encode_utf8(s.subrange(a, z))] + words_from(s, z)
    } else {
        Seq::empty()
    }
}

pub fn words(b: &Vec<u8>) -> (r: Vec<Vec<u8>>)
    requires
        valid_utf8(b@),
    ensures
        byte_views(r@) == words_from(decode_utf8(b@), 0),
        all_text(byte_views(r@)),
{
    proof {
        lemma_words_text(decode_utf8(b@), 0);
    }
    let t = text_of(b);
    let s = chars_of(t.as_str());
    let mut out: Vec<Vec<u8>> = Vec::new();
    let len: usize = s.len();
    let mut i: usize = 0;
    assert(byte_views(out@) + words_from(s@, 0) =~= words_from(s@, 0));
    loop
        invariant
            i <= len,
            len == s@.len(),
            s@ == decode_utf8(b@),
            byte_views(out@) + words_from(s@, i as int) == words_from(s@, 0),
        ensures
            byte_views(out@) == words_from(s@, 0),
        decreases len - i,
    {
        let ghost was = byte_views(out@);
        let a = skip_space(&s, i);
        let mut z: usize = a;
        while z < len && !is_space(s[z])
            invariant
                a <= z <= len,
                len == s@.len(),
                word_end(s@, a as int) == word_end(s@, z as int),
            decreases len - z,
        {
            z = z + 1;
        }
        if z == a {
            assert(byte_views(out@) =~= words_from(s@, 0));
            break;
        }
        let w = string_of(&s, a, z);
        push_piece(&mut out, bytes_of(w.as_str()));
        assert(byte_views(out@) + words_from(s@, z as int) =~= was + words_from(s@, i as int));
        i = z;
    }
    out
}

/// Where trimmed text begins and ends.
pub open spec fn trimmed(s: Seq<char>, front: bool, back: bool) -> Seq<char> {
    let a = if front {
        space_end(s, 0)
    } else {
        0
    };
    let z = if back {
        space_start(s, s.len() as int)
    } else {
        s.len() as int
    };
    if 0 <= a <= z && z <= s.len() {
        s.subrange(a, z)
    } else {
        Seq::empty()
    }
}

pub fn trim(b: &Vec<u8>, front: bool, back: bool) -> (r: Vec<u8>)
    requires
        valid_utf8(b@),
    ensures
        r@ == encode_utf8(trimmed(decode_utf8(b@), front, back)),
        valid_utf8(r@),
{
    broadcast use encode_utf8_valid_utf8;

    let t = text_of(b);
    let s = chars_of(t.as_str());
    let len: usize = s.len();
    let a: usize = if front {
        skip_space(&s, 0)
    } else {
        0
    };
    let z: usize = if back {
        skip_space_back(&s, len)
    } else {
        len
    };
    if a <= z {
        let w = string_of(&s, a, z);
        bytes_of(w.as_str())
    } else {
        let r: Vec<u8> = Vec::new();
        assert(r@ =~= encode_utf8(Seq::empty()));
        r
    }
}

/// The characters of a text.
pub fn characters(b: &Vec<u8>) -> (r: Vec<char>)
    requires
        valid_utf8(b@),
    ensures
        r@ == decode_utf8(b@),
{
    let t = text_of(b);
    chars_of(t.as_str())
}

pub fn lower(b: &Vec<u8>) -> (r: Vec<u8>)
    requires
        valid_utf8(b@),
    ensures
        r@ == encode_utf8(lower_text(decode_utf8(b@))),
        valid_utf8(r@),
{
    broadcast use encode_utf8_valid_utf8;

    let t = text_of(b);
    let w = to_lower(t.as_str());
    bytes_of(w.as_str())
}

pub fn upper(b: &Vec<u8>) -> (r: Vec<u8>)
    requires
        valid_utf8(b@),
    ensures
        r@ == encode_utf8(upper_text(decode_utf8(b@))),
        valid_utf8(r@),
{
    broadcast use encode_utf8_valid_utf8;

    let t = text_of(b);
    let w = to_upper(t.as_str());
    bytes_of(w.as_str())
}

pub open spec fn repeated(b: Seq<u8>, n: nat) -> Seq<u8>
    decreases n,
{
    if n == 0 {
        Seq::empty()
    } else {
        repeated(b, (n - 1) as nat) + b
    }
}

proof fn lemma_repeated_empty(b: Seq<u8>, n: nat)
    requires
        b.len() == 0,
    ensures
        repeated(b, n) == Seq::<u8>::empty(),
    decreases n,
{
    if n > 0 {
        lemma_repeated_empty(b, (n - 1) as nat);
    }
    assert(repeated(b, n) =~= Seq::<u8>::empty());
}

pub fn repeat(b: &Vec<u8>, n: u64) -> (r: Vec<u8>)
    ensures
        r@ == repeated(b@, n as nat),
        valid_utf8(b@) ==> valid_utf8(r@),
{
    proof {
        if valid_utf8(b@) {
            lemma_repeated_text(b@, n as nat);
        }
    }
    let mut out: Vec<u8> = Vec::new();
    if b.len() == 0 {
        proof {
            lemma_repeated_empty(b@, n as nat);
        }
        return out;
    }
    let mut i: u64 = 0;
    assert(out@ =~= repeated(b@, 0));
    while i < n
        invariant
            i <= n,
            out@ == repeated(b@, i as nat),
        decreases n - i,
    {
        extend(&mut out, b);
        i = i + 1;
    }
    out
}

/// A UTF-8 character begins at the position, or the text ends there.
pub open spec fn boundary(b: Seq<u8>, i: int) -> bool {
    i == 0 || i == b.len() || (0 < i < b.len() && !(0x80 <= b[i] <= 0xbf))
}

pub fn is_boundary(b: &Vec<u8>, i: usize) -> (r: bool)
    requires
        i <= b@.len(),
    ensures
        r == boundary(b@, i as int),
{
    i == 0 || i == b.len() || !(0x80 <= b[i] && b[i] <= 0xbf)
}

/// The checked slice: both ends in range and at character boundaries.
pub open spec fn sliceable(b: Seq<u8>, lo: int, hi: int) -> bool {
    0 <= lo <= hi && hi <= b.len() && boundary(b, lo) && boundary(b, hi)
}

/// A checked slice of valid text is valid text: slicing never splits a
/// character.
pub proof fn law_slice_is_text(b: Seq<u8>, lo: int, hi: int)
    requires
        valid_utf8(b),
        sliceable(b, lo, hi),
    ensures
        valid_utf8(b.subrange(lo, hi)),
{
    lemma_boundary(b, lo);
    lemma_boundary(b, hi);
    valid_utf8_split(b, hi);
    let head = b.subrange(0, hi);
    assert(boundary(head, lo)) by {
        if lo < hi && lo > 0 {
            assert(head[lo] == b[lo]);
        }
    }
    lemma_boundary(head, lo);
    valid_utf8_split(head, lo);
    assert(head.subrange(lo, head.len() as int) =~= b.subrange(lo, hi));
}

proof fn lemma_boundary(b: Seq<u8>, i: int)
    requires
        valid_utf8(b),
        0 <= i <= b.len(),
        boundary(b, i),
    ensures
        is_char_boundary(b, i),
{
    if i == 0 || i == b.len() {
        is_char_boundary_start_end_of_seq(b);
    } else {
        is_char_boundary_iff_not_is_continuation_byte(b, i);
        utf8_byte_ranges_bitwise(b[i]);
    }
}

// ------------------------------------------------------------ validity --

/// What follows valid text in valid text is valid text.
pub proof fn lemma_rest_text(a: Seq<u8>, c: Seq<u8>)
    requires
        valid_utf8(a),
        valid_utf8(a + c),
    ensures
        valid_utf8(c),
    decreases a.len(),
{
    if a.len() == 0 {
        assert(a + c =~= c);
    } else {
        let rest = pop_first_scalar(a);
        assert(rest.len() < a.len());
        assert(pop_first_scalar(a + c) =~= rest + c);
        lemma_rest_text(rest, c);
    }
}

proof fn lemma_first_is_boundary(b: Seq<u8>)
    requires
        valid_utf8(b),
        b.len() > 0,
    ensures
        !(0x80 <= b[0] <= 0xbf),
{
    is_char_boundary_iff_not_is_continuation_byte(b, 0);
    utf8_byte_ranges_bitwise(b[0]);
}

/// Where valid text stands in valid text, it begins and ends at character
/// boundaries.
pub proof fn lemma_match_boundaries(b: Seq<u8>, n: Seq<u8>, i: int)
    requires
        valid_utf8(b),
        valid_utf8(n),
        n.len() > 0,
        found_at(b, n, i),
    ensures
        boundary(b, i),
        boundary(b, i + n.len()),
{
    let here = b.subrange(i, i + n.len());
    assert(here == n);
    assert(b[i] == here[0]);
    lemma_first_is_boundary(n);
    let tail = b.subrange(i, b.len() as int);
    law_slice_is_text(b, i, b.len() as int);
    let rest = b.subrange(i + n.len(), b.len() as int);
    assert(tail =~= n + rest);
    lemma_rest_text(n, rest);
    if rest.len() > 0 {
        assert(rest[0] == b[i + n.len()]);
        lemma_first_is_boundary(rest);
    }
}

proof fn lemma_pieces_text(b: Seq<u8>, n: Seq<u8>, start: int, i: int)
    requires
        valid_utf8(b),
        valid_utf8(n),
        0 <= start <= i <= b.len(),
        boundary(b, start),
    ensures
        all_text(pieces(b, n, start, i)),
    decreases b.len() - i,
{
    if i >= b.len() || n.len() == 0 {
        law_slice_is_text(b, start, b.len() as int);
    } else if found_at(b, n, i) {
        lemma_match_boundaries(b, n, i);
        law_slice_is_text(b, start, i);
        lemma_pieces_text(b, n, i + n.len(), i + n.len());
    } else {
        lemma_pieces_text(b, n, start, i + 1);
    }
}

proof fn lemma_replaced_text(b: Seq<u8>, n: Seq<u8>, to: Seq<u8>, start: int, i: int)
    requires
        valid_utf8(b),
        valid_utf8(n),
        valid_utf8(to),
        0 <= start <= i <= b.len(),
        boundary(b, start),
    ensures
        valid_utf8(b.subrange(start, i) + replaced(b, n, to, i)),
    decreases b.len() - i,
{
    let head = b.subrange(start, i);
    if i >= b.len() {
        law_slice_is_text(b, start, i);
        assert(head + replaced(b, n, to, i) =~= head);
    } else if n.len() > 0 && found_at(b, n, i) {
        lemma_match_boundaries(b, n, i);
        law_slice_is_text(b, start, i);
        let k = i + n.len();
        lemma_replaced_text(b, n, to, k, k);
        let rest = replaced(b, n, to, k);
        assert(b.subrange(k, k) + rest =~= rest);
        valid_utf8_concat(to, rest);
        valid_utf8_concat(head, to + rest);
    } else {
        lemma_replaced_text(b, n, to, start, i + 1);
        assert(head + replaced(b, n, to, i) =~= b.subrange(start, i + 1) + replaced(
            b,
            n,
            to,
            i + 1,
        ));
    }
}

proof fn lemma_repeated_text(b: Seq<u8>, n: nat)
    requires
        valid_utf8(b),
    ensures
        valid_utf8(repeated(b, n)),
    decreases n,
{
    if n > 0 {
        lemma_repeated_text(b, (n - 1) as nat);
        valid_utf8_concat(repeated(b, (n - 1) as nat), b);
    }
}

/// A line feed is a text of its own.
pub proof fn lemma_newline_text()
    ensures
        valid_utf8(seq![NEWLINE]),
{
    reveal_with_fuel(valid_utf8, 2);
    assert(pop_first_scalar(seq![NEWLINE]) =~= Seq::<u8>::empty());
    utf8_byte_ranges_bitwise(NEWLINE);
}

/// The position behind a line feed is a boundary.
pub proof fn lemma_behind_newline(b: Seq<u8>, i: int)
    requires
        valid_utf8(b),
        0 <= i < b.len(),
        b[i] == NEWLINE,
    ensures
        boundary(b, i),
        boundary(b, i + 1),
{
    lemma_newline_text();
    assert(b.subrange(i, i + 1) =~= seq![NEWLINE]);
    lemma_match_boundaries(b, seq![NEWLINE], i);
}

proof fn lemma_line_end_at(b: Seq<u8>, i: int)
    requires
        0 <= i <= b.len(),
    ensures
        i <= line_end(b, i) <= b.len(),
        line_end(b, i) == b.len() || (line_end(b, i) > i && b[line_end(b, i) - 1] == NEWLINE),
    decreases b.len() - i,
{
    if i < b.len() && b[i] != NEWLINE {
        lemma_line_end_at(b, i + 1);
    }
}

proof fn lemma_lines_text(b: Seq<u8>, i: int)
    requires
        valid_utf8(b),
        0 <= i <= b.len(),
        boundary(b, i),
    ensures
        all_text(lines_from(b, i)),
    decreases b.len() - i,
{
    if i < b.len() {
        let end = line_end(b, i);
        lemma_line_end_at(b, i);
        if i < end && end <= b.len() {
            if b[end - 1] == NEWLINE {
                lemma_behind_newline(b, end - 1);
                if i < end - 1 && b[end - 2] == RETURN {
                    law_slice_is_text(b, i, end - 2);
                } else {
                    law_slice_is_text(b, i, end - 1);
                }
            } else {
                law_slice_is_text(b, i, end);
            }
            lemma_lines_text(b, end);
        }
    }
}

proof fn lemma_words_text(s: Seq<char>, i: int)
    ensures
        all_text(words_from(s, i)),
    decreases s.len() - i,
{
    let a = space_end(s, i);
    let z = word_end(s, a);
    if 0 <= i <= a && a < z && z <= s.len() {
        encode_utf8_valid_utf8(s.subrange(a, z));
        lemma_words_text(s, z);
    }
}

/// Removing what stands at the front or the back of a text leaves text.
pub proof fn lemma_stripped_text(b: Seq<u8>, n: Seq<u8>)
    requires
        valid_utf8(b),
        valid_utf8(n),
    ensures
        found_at(b, n, 0) ==> valid_utf8(b.subrange(n.len() as int, b.len() as int)),
        found_at(b, n, b.len() - n.len()) ==> valid_utf8(b.subrange(0, b.len() - n.len())),
{
    if n.len() == 0 {
        assert(b.subrange(0, b.len() as int) =~= b);
    } else {
        if found_at(b, n, 0) {
            lemma_match_boundaries(b, n, 0);
            law_slice_is_text(b, n.len() as int, b.len() as int);
        }
        if found_at(b, n, b.len() - n.len()) {
            lemma_match_boundaries(b, n, b.len() - n.len());
            law_slice_is_text(b, 0, b.len() - n.len());
        }
    }
}

/// Are all the texts valid?
pub fn are_text(v: &Vec<Vec<u8>>) -> (r: bool)
    ensures
        r == all_text(byte_views(v@)),
{
    let mut i: usize = 0;
    while i < v.len()
        invariant
            i <= v@.len(),
            forall|k: int| 0 <= k < i ==> valid_utf8(#[trigger] byte_views(v@)[k]),
        decreases v.len() - i,
    {
        assert(byte_views(v@)[i as int] == v@[i as int]@);
        if !is_text(&v[i]) {
            return false;
        }
        i = i + 1;
    }
    true
}

} // verus!
