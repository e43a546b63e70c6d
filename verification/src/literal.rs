//! Literals as the machine reads them: string escapes and delimiters,
//! multiline dedent, and integer spellings.

use vstd::prelude::*;
use vstd::string::*;
use vstd::utf8::*;

use crate::text::chars_of;
use crate::types::Prim;

verus! {

/// `char::from_u32` answers the character of a Unicode scalar value: it
/// is `Some` exactly for the values up to 0x10FFFF outside the surrogate
/// range, and the character has that value.
pub assume_specification[ char::from_u32 ](i: u32) -> (r: Option<char>)
    ensures
        r is Some <==> is_scalar(i),
        r matches Some(c) ==> c as u32 == i,
;

pub const BACKSLASH: u8 = 92;

pub const QUOTE: u8 = 34;

pub const NEWLINE: u8 = 10;

pub const RETURN: u8 = 13;

pub const OPEN_BRACE: u8 = 123;

pub const CLOSE_BRACE: u8 = 125;

pub const HASH: u8 = 35;

// ----------------------------------------------------------------- bytes --

/// The bytes from `lo` up to `hi`.
pub fn slice_of(b: &Vec<u8>, lo: usize, hi: usize) -> (r: Vec<u8>)
    requires
        lo <= hi <= b@.len(),
    ensures
        r@ == b@.subrange(lo as int, hi as int),
{
    let mut out: Vec<u8> = Vec::new();
    let mut i: usize = lo;
    assert(out@ =~= b@.subrange(lo as int, lo as int));
    while i < hi
        invariant
            lo <= i <= hi <= b@.len(),
            out@ == b@.subrange(lo as int, i as int),
        decreases hi - i,
    {
        out.push(b[i]);
        i = i + 1;
        assert(out@ =~= b@.subrange(lo as int, i as int));
    }
    out
}

/// Append bytes.
pub fn extend(out: &mut Vec<u8>, b: &Vec<u8>)
    ensures
        final(out)@ == old(out)@ + b@,
{
    let ghost before = out@;
    let mut i: usize = 0;
    assert(out@ =~= before + b@.take(0));
    while i < b.len()
        invariant
            i <= b.len(),
            out@ == before + b@.take(i as int),
        decreases b.len() - i,
    {
        out.push(b[i]);
        i = i + 1;
        assert(out@ =~= before + b@.take(i as int));
    }
    assert(b@.take(i as int) =~= b@);
}

/// `p` stands at position `at`.
pub open spec fn found_at(b: Seq<u8>, p: Seq<u8>, at: int) -> bool {
    0 <= at && at + p.len() <= b.len() && b.subrange(at, at + p.len()) == p
}

/// Does `p` stand at position `at`?
pub fn is_at(b: &Vec<u8>, p: &Vec<u8>, at: usize) -> (r: bool)
    ensures
        r == found_at(b@, p@, at as int),
{
    let n: usize = b.len();
    if at > n || p.len() > n - at {
        return false;
    }
    let mut i: usize = 0;
    while i < p.len()
        invariant
            i <= p.len(),
            n == b@.len(),
            at + p@.len() <= n,
            forall|k: int| 0 <= k < i ==> b@[at + k] == p@[k],
        decreases p.len() - i,
    {
        if b[at + i] != p[i] {
            assert(b@.subrange(at as int, at + p@.len())[i as int] != p@[i as int]);
            return false;
        }
        i = i + 1;
    }
    assert(b@.subrange(at as int, at + p@.len()) =~= p@);
    true
}

// ---------------------------------------------------------------- escapes --

/// The byte a one-letter escape stands for.
pub open spec fn unescape(c: u8) -> u8 {
    if c == 110 {
        10
    } else if c == 116 {
        9
    } else if c == 114 {
        13
    } else if c == 48 {
        0
    } else {
        c
    }
}

pub fn unescaped(c: u8) -> (r: u8)
    ensures
        r == unescape(c),
{
    match c {
        110 => 10,
        116 => 9,
        114 => 13,
        48 => 0,
        _ => c,
    }
}

/// The value of a digit in a radix up to sixteen.
pub open spec fn digit_of(c: u32, radix: nat) -> Option<nat> {
    let v = if 48 <= c <= 57 {
        (c - 48) as nat
    } else if 97 <= c <= 102 {
        (c - 87) as nat
    } else if 65 <= c <= 70 {
        (c - 55) as nat
    } else {
        16
    };
    if v < radix {
        Some(v)
    } else {
        None
    }
}

fn digit_value(c: u32, radix: u32) -> (r: Option<u32>)
    requires
        radix <= 16,
    ensures
        match r {
            Some(v) => digit_of(c, radix as nat) == Some(v as nat) && v < radix,
            None => digit_of(c, radix as nat) is None,
        },
{
    let v: u32 = if 48 <= c && c <= 57 {
        c - 48
    } else if 97 <= c && c <= 102 {
        c - 87
    } else if 65 <= c && c <= 70 {
        c - 55
    } else {
        16
    };
    if v < radix {
        Some(v)
    } else {
        None
    }
}

/// The number the first `n` code points spell, if every one is a digit.
pub open spec fn digits_of(s: Seq<u32>, radix: nat, n: nat) -> Option<nat>
    decreases n,
{
    if n == 0 {
        Some(0)
    } else {
        match (digits_of(s, radix, (n - 1) as nat), digit_of(s[n - 1], radix)) {
            (Some(a), Some(d)) => Some(a * radix + d),
            _ => None,
        }
    }
}

/// The number spelled by one or more digits after an optional sign; a
/// minus only where it is allowed.
pub open spec fn number_of(s: Seq<u32>, radix: nat, signed: bool) -> Option<int> {
    if s.len() == 0 {
        None
    } else if s[0] == 43 || (signed && s[0] == 45) {
        let rest = s.skip(1);
        if rest.len() == 0 {
            None
        } else {
            match digits_of(rest, radix, rest.len()) {
                Some(v) => Some(
                    if s[0] == 45 {
                        -(v as int)
                    } else {
                        v as int
                    },
                ),
                None => None,
            }
        }
    } else {
        match digits_of(s, radix, s.len()) {
            Some(v) => Some(v as int),
            None => None,
        }
    }
}

proof fn lemma_digits_grow(s: Seq<u32>, radix: nat, m: nat, n: nat)
    requires
        m <= n <= s.len(),
        radix >= 1,
        digits_of(s, radix, n) is Some,
    ensures
        digits_of(s, radix, m) is Some,
        digits_of(s, radix, m)->0 <= digits_of(s, radix, n)->0,
    decreases n,
{
    if m < n {
        lemma_digits_grow(s, radix, m, (n - 1) as nat);
        let a = digits_of(s, radix, (n - 1) as nat)->0;
        assert(a * radix >= a) by (nonlinear_arith)
            requires
                radix >= 1,
        ;
    }
}

proof fn lemma_no_digit(s: Seq<u32>, radix: nat, i: int, n: nat)
    requires
        0 <= i < n <= s.len(),
        digit_of(s[i], radix) is None,
    ensures
        digits_of(s, radix, n) is None,
    decreases n,
{
    if i < n - 1 {
        lemma_no_digit(s, radix, i, (n - 1) as nat);
    }
}

pub const DIGIT_CAP: u128 = 0x1_0000_0000_0000_0000;

/// The number the code points from `from` on spell; `None` also when it
/// is at or beyond 2^64.
fn digits_value(s: &Vec<u32>, from: usize, radix: u32) -> (r: Option<u128>)
    requires
        from <= s@.len(),
        2 <= radix <= 16,
    ensures
        ({
            let t = s@.skip(from as int);
            match r {
                Some(v) => digits_of(t, radix as nat, t.len()) == Some(v as nat) && v < DIGIT_CAP,
                None => digits_of(t, radix as nat, t.len()) matches Some(v) ==> v >= DIGIT_CAP,
            }
        }),
{
    let ghost t = s@.skip(from as int);
    let mut acc: u128 = 0;
    let mut i: usize = from;
    while i < s.len()
        invariant
            from <= i <= s@.len(),
            2 <= radix <= 16,
            t == s@.skip(from as int),
            acc < DIGIT_CAP,
            digits_of(t, radix as nat, (i - from) as nat) == Some(acc as nat),
        decreases s.len() - i,
    {
        assert(t[i - from] == s@[i as int]);
        match digit_value(s[i], radix) {
            Some(d) => {
                assert(acc * radix <= 0x1_0000_0000_0000_0000 * 16) by (nonlinear_arith)
                    requires
                        acc < 0x1_0000_0000_0000_0000u128,
                        radix <= 16,
                ;
                acc = acc * (radix as u128) + (d as u128);
            },
            None => {
                proof {
                    if digits_of(t, radix as nat, t.len()) is Some {
                        lemma_digits_grow(t, radix as nat, (i - from + 1) as nat, t.len());
                    }
                }
                return None;
            },
        }
        i = i + 1;
        if acc >= DIGIT_CAP {
            proof {
                if digits_of(t, radix as nat, t.len()) is Some {
                    lemma_digits_grow(t, radix as nat, (i - from) as nat, t.len());
                }
            }
            return None;
        }
    }
    Some(acc)
}

/// The number of a signed or unsigned spelling below 2^64 in size.
fn number_value(s: &Vec<u32>, radix: u32, signed: bool) -> (r: Option<i128>)
    requires
        2 <= radix <= 16,
    ensures
        match r {
            Some(v) => number_of(s@, radix as nat, signed) == Some(v as int) && -(DIGIT_CAP as int)
                < v < DIGIT_CAP,
            None => number_of(s@, radix as nat, signed) matches Some(v) ==> v >= DIGIT_CAP || v
                <= -(DIGIT_CAP as int),
        },
{
    if s.len() == 0 {
        return None;
    }
    if s[0] == 43 || (signed && s[0] == 45) {
        if s.len() == 1 {
            return None;
        }
        match digits_value(s, 1, radix) {
            Some(v) => if s[0] == 45 {
                Some(-(v as i128))
            } else {
                Some(v as i128)
            },
            None => None,
        }
    } else {
        assert(s@.skip(0) =~= s@);
        match digits_value(s, 0, radix) {
            Some(v) => Some(v as i128),
            None => None,
        }
    }
}

pub open spec fn code_points(b: Seq<u8>) -> Seq<u32> {
    Seq::new(b.len(), |i: int| b[i] as u32)
}

fn points_of(b: &Vec<u8>, lo: usize, hi: usize) -> (r: Vec<u32>)
    requires
        lo <= hi <= b@.len(),
    ensures
        r@ == code_points(b@.subrange(lo as int, hi as int)),
{
    let mut out: Vec<u32> = Vec::new();
    let mut i: usize = lo;
    while i < hi
        invariant
            lo <= i <= hi <= b@.len(),
            out@ == code_points(b@.subrange(lo as int, i as int)),
        decreases hi - i,
    {
        out.push(b[i] as u32);
        i = i + 1;
        assert(out@ =~= code_points(b@.subrange(lo as int, i as int)));
    }
    out
}

/// The first closing brace from `i` on.
pub open spec fn brace_from(b: Seq<u8>, i: int) -> Option<int>
    decreases b.len() - i,
{
    if i >= b.len() {
        None
    } else if b[i] == CLOSE_BRACE {
        Some(i)
    } else {
        brace_from(b, i + 1)
    }
}

/// The scalar a spelled number names.
pub open spec fn scalar_of(n: Option<int>) -> Option<u32> {
    match n {
        Some(v) => if 0 <= v <= u32::MAX && is_scalar(v as u32) {
            Some(v as u32)
        } else {
            None
        },
        None => None,
    }
}

/// The number spelled by hex digits alone, one or more of them.
pub open spec fn hex_of(s: Seq<u32>) -> Option<int> {
    if s.len() == 0 {
        None
    } else {
        match digits_of(s, 16, s.len()) {
            Some(v) => Some(v as int),
            None => None,
        }
    }
}

/// A `\xNN` or `\u{..}` escape that begins at the backslash at `at`: the
/// scalar and the bytes it takes. Every position between must hold a hex
/// digit.
pub open spec fn code_escape(b: Seq<u8>, at: int) -> Option<(u32, int)> {
    if at + 1 >= b.len() {
        None
    } else if b[at + 1] == 120 {
        if at + 4 > b.len() {
            None
        } else {
            match scalar_of(hex_of(code_points(b.subrange(at + 2, at + 4)))) {
                Some(n) => Some((n, 4)),
                None => None,
            }
        }
    } else if b[at + 1] == 117 {
        if at + 2 >= b.len() || b[at + 2] != OPEN_BRACE {
            None
        } else {
            match brace_from(b, at + 3) {
                Some(close) => if close == at + 3 || close - (at + 3) > 6 {
                    None
                } else {
                    match scalar_of(hex_of(code_points(b.subrange(at + 3, close)))) {
                        Some(n) => Some((n, close + 1 - at)),
                        None => None,
                    }
                },
                None => None,
            }
        }
    } else {
        None
    }
}

pub open spec fn char_escape(r: Option<(char, usize)>) -> Option<(u32, int)> {
    match r {
        Some((c, n)) => Some((c as u32, n as int)),
        None => None,
    }
}

fn scalar_value(s: &Vec<u32>) -> (r: Option<char>)
    ensures
        match r {
            Some(c) => scalar_of(hex_of(s@)) == Some(c as u32),
            None => scalar_of(hex_of(s@)) is None,
        },
{
    if s.len() > 0 && s[0] == 43 {
        proof {
            lemma_no_digit(s@, 16, 0, s@.len());
        }
        return None;
    }
    match number_value(s, 16, false) {
        Some(v) => if 0 <= v && v <= 0xffff_ffff {
            char::from_u32(v as u32)
        } else {
            None
        },
        None => None,
    }
}

/// Decode a `\xNN` or `\u{..}` escape that begins at the backslash at
/// `at`; `None` when the shape is neither.
pub fn decode_codepoint_escape(b: &Vec<u8>, at: usize) -> (r: Option<(char, usize)>)
    requires
        at < b@.len(),
    ensures
        char_escape(r) == code_escape(b@, at as int),
        r matches Some((_, n)) ==> 4 <= n && at + n <= b@.len(),
{
    let n: usize = b.len();
    if n - at < 2 {
        return None;
    }
    if b[at + 1] == 120 {
        if n - at < 4 {
            return None;
        }
        let digits = points_of(b, at + 2, at + 4);
        return match scalar_value(&digits) {
            Some(c) => Some((c, 4)),
            None => None,
        };
    }
    if b[at + 1] == 117 {
        if n - at < 3 || b[at + 2] != OPEN_BRACE {
            return None;
        }
        let mut close: usize = at + 3;
        while close < n && b[close] != CLOSE_BRACE
            invariant
                at + 3 <= close <= n,
                n == b@.len(),
                brace_from(b@, at + 3) == brace_from(b@, close as int),
            decreases n - close,
        {
            close = close + 1;
        }
        if close >= n || close == at + 3 || close - (at + 3) > 6 {
            return None;
        }
        let digits = points_of(b, at + 3, close);
        return match scalar_value(&digits) {
            Some(c) => Some((c, close + 1 - at)),
            None => None,
        };
    }
    None
}

/// Append the UTF-8 bytes of a character.
pub fn push_char(out: &mut Vec<u8>, c: char)
    ensures
        final(out)@ == old(out)@ + encode_scalar(c as u32),
{
    let mut s = String::new();
    s.push(c);
    proof {
        assert(s@ =~= seq![c]);
        assert(seq![c].drop_first() =~= Seq::<char>::empty());
        assert(encode_utf8(Seq::<char>::empty()) =~= Seq::<u8>::empty());
        assert(encode_utf8(seq![c]) =~= encode_scalar(c as u32));
    }
    let b = s.as_str().as_bytes_vec();
    extend(out, &b);
}

/// The bytes a plain literal's inner bytes stand for, from `i` on.
pub open spec fn decoded(b: Seq<u8>, i: int) -> Seq<u8>
    decreases b.len() - i,
{
    if i >= b.len() {
        Seq::empty()
    } else if b[i] == BACKSLASH && i + 1 < b.len() {
        match code_escape(b, i) {
            Some((n, used)) => if 0 < used && i + used <= b.len() {
                encode_scalar(n) + decoded(b, i + used)
            } else {
                Seq::empty()
            },
            None => seq![unescape(b[i + 1])] + decoded(b, i + 2),
        }
    } else if (b[i] == OPEN_BRACE || b[i] == CLOSE_BRACE) && i + 1 < b.len() && b[i + 1] == b[i] {
        seq![b[i]] + decoded(b, i + 2)
    } else {
        seq![b[i]] + decoded(b, i + 1)
    }
}

/// Decode escapes and doubled braces.
pub fn decode_escapes(b: &Vec<u8>) -> (r: Vec<u8>)
    ensures
        r@ == decoded(b@, 0),
{
    let mut out: Vec<u8> = Vec::new();
    let n: usize = b.len();
    let mut i: usize = 0;
    assert(out@ + decoded(b@, 0) =~= decoded(b@, 0));
    while i < n
        invariant
            i <= n,
            n == b@.len(),
            out@ + decoded(b@, i as int) == decoded(b@, 0),
        decreases n - i,
    {
        let ghost was = out@;
        let ghost at = i as int;
        let c = b[i];
        if c == BACKSLASH && i < n - 1 {
            match decode_codepoint_escape(b, i) {
                Some((ch, used)) => {
                    push_char(&mut out, ch);
                    i = i + used;
                },
                None => {
                    out.push(unescaped(b[i + 1]));
                    i = i + 2;
                },
            }
        } else if (c == OPEN_BRACE || c == CLOSE_BRACE) && i < n - 1 && b[i + 1] == c {
            out.push(c);
            i = i + 2;
        } else {
            out.push(c);
            i = i + 1;
        }
        assert(out@ + decoded(b@, i as int) =~= was + decoded(b@, at));
    }
    assert(decoded(b@, i as int) =~= Seq::empty());
    assert(out@ =~= decoded(b@, 0));
    out
}

/// Text without backslashes or braces decodes to itself.
pub proof fn law_plain_text_decodes_to_itself(b: Seq<u8>, i: int)
    requires
        0 <= i <= b.len(),
        forall|k: int|
            0 <= k < b.len() ==> (#[trigger] b[k]) != BACKSLASH && b[k] != OPEN_BRACE && b[k]
                != CLOSE_BRACE,
    ensures
        decoded(b, i) =~= b.skip(i),
    decreases b.len() - i,
{
    if i < b.len() {
        law_plain_text_decodes_to_itself(b, i + 1);
        assert(b.skip(i) =~= seq![b[i]] + b.skip(i + 1));
    }
}

// ----------------------------------------------------------------- dedent --

/// The inner bytes after the line break that follows the opening
/// delimiter.
pub open spec fn after_open(b: Seq<u8>) -> Seq<u8> {
    if b.len() >= 2 && b[0] == RETURN && b[1] == NEWLINE {
        b.skip(2)
    } else if b.len() >= 1 && b[0] == NEWLINE {
        b.skip(1)
    } else {
        b
    }
}

/// The position behind the last line break among the first `n` bytes.
pub open spec fn last_line(b: Seq<u8>, n: nat) -> Option<int>
    decreases n,
{
    if n == 0 {
        None
    } else if b[n - 1] == NEWLINE {
        Some(n as int)
    } else {
        last_line(b, (n - 1) as nat)
    }
}

/// The position behind the line that begins at `i`.
pub open spec fn line_end(b: Seq<u8>, i: int) -> int
    decreases b.len() - i,
{
    if i >= b.len() {
        b.len() as int
    } else if b[i] == NEWLINE {
        i + 1
    } else {
        line_end(b, i + 1)
    }
}

pub open spec fn all_blank(b: Seq<u8>) -> bool {
    forall|i: int| 0 <= i < b.len() ==> (#[trigger] b[i]) == 32 || b[i] == 9
}

/// The lines from `i` on, each without the indent it begins with.
pub open spec fn dedent_lines(b: Seq<u8>, indent: Seq<u8>, i: int) -> Seq<u8>
    decreases b.len() - i,
{
    if i >= b.len() {
        Seq::empty()
    } else {
        let end = line_end(b, i);
        let skip = if found_at(b.subrange(i, end), indent, 0) {
            indent.len() as int
        } else {
            0
        };
        if i < end && end <= b.len() {
            b.subrange(i + skip, end) + dedent_lines(b, indent, end)
        } else {
            Seq::empty()
        }
    }
}

/// A multiline string's inner bytes, dedented by the closing delimiter's
/// column.
pub open spec fn dedented(inner: Seq<u8>) -> Seq<u8> {
    let b = after_open(inner);
    match last_line(b, b.len()) {
        None => b,
        Some(k) => if all_blank(b.skip(k)) {
            dedent_lines(b.take(k), b.skip(k), 0)
        } else {
            b
        },
    }
}

proof fn lemma_line_end(b: Seq<u8>, i: int)
    requires
        0 <= i < b.len(),
    ensures
        i < line_end(b, i) <= b.len(),
    decreases b.len() - i,
{
    reveal_with_fuel(line_end, 2);
    if b[i] != NEWLINE && i + 1 < b.len() {
        lemma_line_end(b, i + 1);
    }
}

pub fn find_line_end(b: &Vec<u8>, i: usize) -> (r: usize)
    requires
        i < b@.len(),
    ensures
        r == line_end(b@, i as int),
        i < r <= b@.len(),
{
    let mut k: usize = i;
    proof {
        lemma_line_end(b@, i as int);
    }
    while k < b.len()
        invariant
            i <= k <= b@.len(),
            line_end(b@, i as int) == line_end(b@, k as int),
            i < line_end(b@, i as int) <= b@.len(),
        decreases b.len() - k,
    {
        if b[k] == NEWLINE {
            return k + 1;
        }
        k = k + 1;
    }
    k
}

/// Dedent a multiline string's inner bytes.
pub fn dedent_multiline(inner: &Vec<u8>) -> (r: Vec<u8>)
    ensures
        r@ == dedented(inner@),
{
    let n0: usize = inner.len();
    let start: usize = if n0 >= 2 && inner[0] == RETURN && inner[1] == NEWLINE {
        2
    } else if n0 >= 1 && inner[0] == NEWLINE {
        1
    } else {
        0
    };
    let b = slice_of(inner, start, n0);
    assert(b@ =~= after_open(inner@));
    let mut k: usize = b.len();
    while k > 0 && b[k - 1] != NEWLINE
        invariant
            k <= b@.len(),
            last_line(b@, b@.len()) == last_line(b@, k as nat),
        decreases k,
    {
        k = k - 1;
    }
    if k == 0 {
        return b;
    }
    let n: usize = b.len();
    let body = slice_of(&b, 0, k);
    let indent = slice_of(&b, k, n);
    assert(body@ =~= b@.take(k as int));
    assert(indent@ =~= b@.skip(k as int));
    let mut j: usize = 0;
    while j < indent.len()
        invariant
            j <= indent@.len(),
            forall|q: int| 0 <= q < j ==> (#[trigger] indent@[q]) == 32 || indent@[q] == 9,
            indent@ == b@.skip(k as int),
            b@ == after_open(inner@),
            last_line(b@, b@.len()) == Some(k as int),
        decreases indent.len() - j,
    {
        if indent[j] != 32 && indent[j] != 9 {
            assert(!all_blank(indent@));
            return b;
        }
        j = j + 1;
    }
    let mut out: Vec<u8> = Vec::new();
    let mut i: usize = 0;
    assert(out@ + dedent_lines(body@, indent@, 0) =~= dedent_lines(body@, indent@, 0));
    while i < body.len()
        invariant
            i <= body@.len(),
            out@ + dedent_lines(body@, indent@, i as int) == dedent_lines(body@, indent@, 0),
        decreases body.len() - i,
    {
        let ghost was = out@;
        let end = find_line_end(&body, i);
        let line = slice_of(&body, i, end);
        let skip: usize = if is_at(&line, &indent, 0) {
            indent.len()
        } else {
            0
        };
        let rest = slice_of(&line, skip, line.len());
        extend(&mut out, &rest);
        proof {
            assert(rest@ =~= body@.subrange(i + skip, end as int));
            assert(out@ + dedent_lines(body@, indent@, end as int) =~= was + dedent_lines(
                body@,
                indent@,
                i as int,
            ));
        }
        i = end;
    }
    assert(out@ =~= dedent_lines(body@, indent@, 0));
    out
}

/// One line with nothing before the closing delimiter needs no dedent.
pub proof fn law_single_line_keeps(b: Seq<u8>)
    requires
        forall|i: int| 0 <= i < b.len() ==> (#[trigger] b[i]) != NEWLINE,
    ensures
        dedented(b) == b,
{
    lemma_no_line(b, b.len());
}

proof fn lemma_no_line(b: Seq<u8>, n: nat)
    requires
        n <= b.len(),
        forall|i: int| 0 <= i < b.len() ==> (#[trigger] b[i]) != NEWLINE,
    ensures
        last_line(b, n) is None,
    decreases n,
{
    if n > 0 {
        lemma_no_line(b, (n - 1) as nat);
    }
}

// ------------------------------------------------------------- delimiters --

/// How many fence marks stand from `i` on.
pub open spec fn fence(b: Seq<u8>, i: int) -> int
    decreases b.len() - i,
{
    if 0 <= i < b.len() && b[i] == HASH {
        1 + fence(b, i + 1)
    } else {
        0
    }
}

/// The text begins with three quotes.
pub open spec fn is_multiline(b: Seq<u8>) -> bool {
    b.len() >= 3 && b[0] == QUOTE && b[1] == QUOTE && b[2] == QUOTE
}

pub fn multiline(b: &Vec<u8>) -> (r: bool)
    ensures
        r == is_multiline(b@),
{
    b.len() >= 3 && b[0] == QUOTE && b[1] == QUOTE && b[2] == QUOTE
}

/// The inner bytes of a multiline literal.
pub open spec fn multiline_inner(b: Seq<u8>) -> Seq<u8> {
    if b.len() >= 6 {
        b.subrange(3, b.len() - 3)
    } else {
        Seq::empty()
    }
}

pub fn multiline_body(b: &Vec<u8>) -> (r: Vec<u8>)
    ensures
        r@ == multiline_inner(b@),
{
    let n: usize = b.len();
    if n >= 6 {
        slice_of(b, 3, n - 3)
    } else {
        let r: Vec<u8> = Vec::new();
        assert(r@ =~= multiline_inner(b@));
        r
    }
}

/// The inner bytes of a raw literal: the whole opening delimiter and its
/// balancing close strip, and what remains is the value.
pub open spec fn raw_inner(b: Seq<u8>) -> Option<Seq<u8>> {
    if b.len() == 0 || b[0] != 114 {
        None
    } else {
        let hashes = fence(b, 1);
        let open = 1 + hashes;
        if open >= b.len() || b[open] != QUOTE {
            None
        } else {
            let start = open + 1;
            let end = if b.len() - (1 + hashes) > start {
                b.len() - (1 + hashes)
            } else {
                start
            };
            Some(b.subrange(start, end))
        }
    }
}

pub open spec fn opt_bytes(o: Option<Vec<u8>>) -> Option<Seq<u8>> {
    match o {
        Some(v) => Some(v@),
        None => None,
    }
}

/// The inner bytes of a raw literal; `None` when the text is not
/// raw-delimited.
pub fn raw_str_inner(b: &Vec<u8>) -> (r: Option<Vec<u8>>)
    ensures
        opt_bytes(r) == raw_inner(b@),
{
    let n: usize = b.len();
    if n == 0 || b[0] != 114 {
        return None;
    }
    let mut open: usize = 1;
    while open < n && b[open] == HASH
        invariant
            1 <= open <= n,
            n == b@.len(),
            fence(b@, 1) == (open - 1) + fence(b@, open as int),
        decreases n - open,
    {
        open = open + 1;
    }
    if open >= n || b[open] != QUOTE {
        return None;
    }
    let start: usize = open + 1;
    let end: usize = if n - open > start {
        n - open
    } else {
        start
    };
    Some(slice_of(b, start, end))
}

/// The inner bytes of a plainly quoted literal.
pub open spec fn quoted_inner(b: Seq<u8>) -> Seq<u8> {
    if b.len() >= 2 {
        b.subrange(1, b.len() - 1)
    } else {
        b
    }
}

/// The bytes a string-literal pattern stands for.
pub open spec fn cooked(b: Seq<u8>) -> Seq<u8> {
    if is_multiline(b) {
        decoded(dedented(multiline_inner(b)), 0)
    } else {
        match raw_inner(b) {
            Some(inner) => inner,
            None => decoded(quoted_inner(b), 0),
        }
    }
}

/// Cook a string-literal pattern's source text into its runtime bytes.
pub fn cooked_str_pattern(text: &str) -> (r: Vec<u8>)
    ensures
        r@ == cooked(encode_utf8(text@)),
{
    let b = text.as_bytes_vec();
    if multiline(&b) {
        let inner = multiline_body(&b);
        let d = dedent_multiline(&inner);
        return decode_escapes(&d);
    }
    if let Some(inner) = raw_str_inner(&b) {
        return inner;
    }
    let n: usize = b.len();
    if n >= 2 {
        let inner = slice_of(&b, 1, n - 1);
        decode_escapes(&inner)
    } else {
        decode_escapes(&b)
    }
}

// --------------------------------------------------------------- integers --

/// The code points of a spelling without its separators.
pub open spec fn spelling(s: Seq<char>, n: nat) -> Seq<u32>
    decreases n,
{
    if n == 0 {
        Seq::empty()
    } else if s[n - 1] == '_' {
        spelling(s, (n - 1) as nat)
    } else {
        spelling(s, (n - 1) as nat).push(s[n - 1] as u32)
    }
}

fn spelled(text: &str) -> (r: Vec<u32>)
    ensures
        r@ == spelling(text@, text@.len()),
{
    let cs = chars_of(text);
    let mut out: Vec<u32> = Vec::new();
    let mut i: usize = 0;
    while i < cs.len()
        invariant
            i <= cs@.len(),
            cs@ == text@,
            out@ == spelling(text@, i as nat),
        decreases cs.len() - i,
    {
        if cs[i] != '_' {
            out.push(cs[i] as u32);
        }
        i = i + 1;
    }
    out
}

/// The radix a prefix announces.
pub open spec fn radix_of(s: Seq<u32>) -> Option<nat> {
    if s.len() >= 2 && s[0] == 48 {
        if s[1] == 120 || s[1] == 88 {
            Some(16)
        } else if s[1] == 98 || s[1] == 66 {
            Some(2)
        } else if s[1] == 111 || s[1] == 79 {
            Some(8)
        } else {
            None
        }
    } else {
        None
    }
}

/// The value of an integer literal, when it fits a signed word.
pub open spec fn int_literal(text: Seq<char>) -> Option<int> {
    let s = spelling(text, text.len());
    let v = match radix_of(s) {
        Some(r) => number_of(s.skip(2), r, true),
        None => number_of(s, 10, true),
    };
    match v {
        Some(n) => if i64::MIN <= n <= i64::MAX {
            Some(n)
        } else {
            None
        },
        None => None,
    }
}

/// The value of an unsigned literal: decimal or hexadecimal, the full
/// word range.
pub open spec fn uint_literal(text: Seq<char>) -> Option<int> {
    let s = spelling(text, text.len());
    let v = if radix_of(s) == Some(16nat) {
        number_of(s.skip(2), 16, false)
    } else {
        number_of(s, 10, false)
    };
    match v {
        Some(n) => if 0 <= n <= u64::MAX {
            Some(n)
        } else {
            None
        },
        None => None,
    }
}

fn tail_of(s: &Vec<u32>) -> (r: Vec<u32>)
    requires
        s@.len() >= 2,
    ensures
        r@ == s@.skip(2),
{
    let mut out: Vec<u32> = Vec::new();
    let mut i: usize = 2;
    while i < s.len()
        invariant
            2 <= i <= s@.len(),
            out@ == s@.subrange(2, i as int),
        decreases s.len() - i,
    {
        out.push(s[i]);
        i = i + 1;
        assert(out@ =~= s@.subrange(2, i as int));
    }
    assert(out@ =~= s@.skip(2));
    out
}

/// The value of an integer literal; `None` when it is none or does not
/// fit.
pub fn parse_int_literal(text: &str) -> (r: Option<i64>)
    ensures
        match r {
            Some(n) => int_literal(text@) == Some(n as int),
            None => int_literal(text@) is None,
        },
{
    let s = spelled(text);
    let radix: u32 = if s.len() >= 2 && s[0] == 48 {
        if s[1] == 120 || s[1] == 88 {
            16
        } else if s[1] == 98 || s[1] == 66 {
            2
        } else if s[1] == 111 || s[1] == 79 {
            8
        } else {
            0
        }
    } else {
        0
    };
    let v = if radix != 0 {
        let t = tail_of(&s);
        number_value(&t, radix, true)
    } else {
        number_value(&s, 10, true)
    };
    match v {
        Some(n) => if -0x8000_0000_0000_0000 <= n && n <= 0x7fff_ffff_ffff_ffff {
            Some(n as i64)
        } else {
            None
        },
        None => None,
    }
}

/// The value of an unsigned literal.
pub fn parse_uint_literal(text: &str) -> (r: Option<u64>)
    ensures
        match r {
            Some(n) => uint_literal(text@) == Some(n as int),
            None => uint_literal(text@) is None,
        },
{
    let s = spelled(text);
    let hex = s.len() >= 2 && s[0] == 48 && (s[1] == 120 || s[1] == 88);
    let v = if hex {
        let t = tail_of(&s);
        number_value(&t, 16, false)
    } else {
        number_value(&s, 10, false)
    };
    match v {
        Some(n) => if 0 <= n {
            Some(n as u64)
        } else {
            None
        },
        None => None,
    }
}

// ------------------------------------------------------------- primitives --

/// The width of an arithmetic primitive.
pub open spec fn bits_of(p: Prim) -> Option<u32> {
    match p {
        Prim::Char | Prim::Bool | Prim::Str => None,
        Prim::I8 | Prim::U8 | Prim::Byte => Some(8),
        Prim::I16 | Prim::U16 => Some(16),
        Prim::I32 | Prim::U32 | Prim::F32 => Some(32),
        Prim::I64 | Prim::U64 | Prim::Int | Prim::Uint | Prim::F64 => Some(64),
    }
}

pub fn prim_bits(p: Prim) -> (r: Option<u32>)
    ensures
        r == bits_of(p),
        r matches Some(b) ==> 8 <= b <= 64,
{
    match p {
        Prim::Char | Prim::Bool | Prim::Str => None,
        Prim::I8 | Prim::U8 | Prim::Byte => Some(8),
        Prim::I16 | Prim::U16 => Some(16),
        Prim::I32 | Prim::U32 | Prim::F32 => Some(32),
        Prim::I64 | Prim::U64 | Prim::Int | Prim::Uint | Prim::F64 => Some(64),
    }
}

/// The bytes a primitive takes in memory.
pub open spec fn size_of_prim(p: Prim) -> u64 {
    match p {
        Prim::Char => 4,
        _ => match bits_of(p) {
            Some(b) => (b / 8) as u64,
            None => 1,
        },
    }
}

pub fn prim_size(p: Prim) -> (r: u64)
    ensures
        r == size_of_prim(p),
        1 <= r <= 8,
{
    match p {
        Prim::Char => 4,
        _ => match prim_bits(p) {
            Some(b) => (b / 8) as u64,
            None => 1,
        },
    }
}

/// The checked range of a primitive that is narrower than the signed
/// word.
pub open spec fn range_of_prim(p: Prim) -> Option<(i64, i64)> {
    match p {
        Prim::I8 => Some(((-128) as i64, 127)),
        Prim::I16 => Some(((-32768) as i64, 32767)),
        Prim::I32 => Some(((-2147483648) as i64, 2147483647)),
        Prim::U8 | Prim::Byte => Some((0, 255)),
        Prim::U16 => Some((0, 65535)),
        Prim::U32 => Some((0, 4294967295)),
        Prim::U64 | Prim::Uint => Some((0, i64::MAX)),
        _ => None,
    }
}

pub fn prim_range(p: Prim) -> (r: Option<(i64, i64)>)
    ensures
        r == range_of_prim(p),
{
    match p {
        Prim::I8 => Some((-128, 127)),
        Prim::I16 => Some((-32768, 32767)),
        Prim::I32 => Some((-2147483648, 2147483647)),
        Prim::U8 | Prim::Byte => Some((0, 255)),
        Prim::U16 => Some((0, 65535)),
        Prim::U32 => Some((0, 4294967295)),
        Prim::U64 | Prim::Uint => Some((0, i64::MAX)),
        _ => None,
    }
}

} // verus!
