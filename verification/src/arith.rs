//! Integer arithmetic of the machine: checked integers trap, wrapping
//! ones wrap at their width; and the small number helpers of the raw
//! tier.

use vstd::prelude::*;

use crate::ast::BinOp;

verus! {

/// What an integer operation gives.
#[derive(Debug, Clone, Copy, PartialEq, Eq, Structural)]
pub enum IntOut {
    Gives(i64),
    DivZero,
    Overflow,
    /// The operator has no ruled meaning here.
    Unruled,
}

/// Truncated division.
pub open spec fn quotient(a: int, b: int) -> int {
    if (a < 0) == (b < 0) {
        abs_of(a) / abs_of(b)
    } else {
        -(abs_of(a) / abs_of(b))
    }
}

/// The remainder of truncated division: it has the dividend's sign.
pub open spec fn remainder(a: int, b: int) -> int {
    if a < 0 {
        -(abs_of(a) % abs_of(b))
    } else {
        abs_of(a) % abs_of(b)
    }
}

pub open spec fn abs_of(a: int) -> int {
    if a < 0 {
        -a
    } else {
        a
    }
}

/// The low bits of a width.
pub open spec fn mask_of(bits: u32) -> u64 {
    if bits >= 64 {
        u64::MAX
    } else {
        ((1u64 << bits) - 1) as u64
    }
}

/// A result kept to its width.
pub open spec fn kept(x: u64, bits: u32) -> i64 {
    (x & mask_of(bits)) as i64
}

/// The shift amount a width allows.
pub open spec fn shift_by(b: i64, bits: u32) -> u64 {
    (b as u64) & ((bits - 1) as u64)
}

/// A pattern of `bits` bits read as a signed number.
pub open spec fn sign_extended(x: u64, bits: u32) -> i64 {
    let low = x & mask_of(bits);
    if bits >= 64 {
        low as i64
    } else if low >= (1u64 << ((bits - 1) as u32)) {
        (low - (1u64 << bits)) as i64
    } else {
        low as i64
    }
}

/// Division of a signed number by a power of two, toward minus infinity.
pub open spec fn shifted_down(x: i64, c: u64) -> i64 {
    (x as int / (1u64 << c) as int) as i64
}

/// Arithmetic that wraps at a width.
pub open spec fn wrapping_op(op: BinOp, a: i64, b: i64, bits: u32, unsigned: bool) -> IntOut {
    match op {
        BinOp::Plus => IntOut::Gives(kept((a + b) as u64, bits)),
        BinOp::Minus => IntOut::Gives(kept((a - b) as u64, bits)),
        BinOp::Star => IntOut::Gives(kept((a * b) as u64, bits)),
        BinOp::Slash => if b == 0 {
            IntOut::DivZero
        } else {
            IntOut::Gives(kept(quotient(a as int, b as int) as u64, bits))
        },
        BinOp::Percent => if b == 0 {
            IntOut::DivZero
        } else {
            IntOut::Gives(kept(remainder(a as int, b as int) as u64, bits))
        },
        BinOp::Amp => IntOut::Gives(kept((a as u64) & (b as u64), bits)),
        BinOp::Pipe => IntOut::Gives(kept((a as u64) | (b as u64), bits)),
        BinOp::Caret => IntOut::Gives(kept((a as u64) ^ (b as u64), bits)),
        BinOp::Shl => IntOut::Gives(kept((a as u64) << shift_by(b, bits), bits)),
        BinOp::Shr => if unsigned {
            IntOut::Gives(kept(((a as u64) & mask_of(bits)) >> shift_by(b, bits), bits))
        } else {
            IntOut::Gives(
                kept(shifted_down(sign_extended(a as u64, bits), shift_by(b, bits)) as u64, bits),
            )
        },
        _ => IntOut::Gives(kept(a as u64, bits)),
    }
}

pub open spec fn in_word(n: int) -> bool {
    i64::MIN <= n <= i64::MAX
}

pub open spec fn in_range(n: int, range: Option<(i64, i64)>) -> bool {
    range matches Some((lo, hi)) ==> lo <= n <= hi
}

/// A checked result: outside the word or the type's range it traps.
pub open spec fn checked(n: int, range: Option<(i64, i64)>) -> IntOut {
    if in_word(n) && in_range(n, range) {
        IntOut::Gives(n as i64)
    } else {
        IntOut::Overflow
    }
}

/// Checked arithmetic; bit operations have no ruled meaning on checked
/// integers.
pub open spec fn checked_op(op: BinOp, a: i64, b: i64, range: Option<(i64, i64)>) -> IntOut {
    match op {
        BinOp::Amp | BinOp::Pipe | BinOp::Caret | BinOp::Shl | BinOp::Shr => IntOut::Unruled,
        BinOp::Plus => checked(a + b, range),
        BinOp::Minus => checked(a - b, range),
        BinOp::Star => checked(a * b, range),
        BinOp::Slash => if b == 0 {
            IntOut::DivZero
        } else {
            checked(quotient(a as int, b as int), range)
        },
        BinOp::Percent => if b == 0 {
            IntOut::DivZero
        } else if a == i64::MIN && b == -1 {
            IntOut::Overflow
        } else {
            checked(remainder(a as int, b as int), range)
        },
        _ => checked(a as int, range),
    }
}

fn quotient_of(a: i64, b: i64) -> (r: i128)
    requires
        b != 0,
    ensures
        r == quotient(a as int, b as int),
        -0x8000_0000_0000_0000 <= r <= 0x8000_0000_0000_0000,
{
    let x: i128 = if a < 0 {
        -(a as i128)
    } else {
        a as i128
    };
    let y: i128 = if b < 0 {
        -(b as i128)
    } else {
        b as i128
    };
    assert(x / y <= x) by (nonlinear_arith)
        requires
            x >= 0,
            y >= 1,
    ;
    if (a < 0) == (b < 0) {
        x / y
    } else {
        -(x / y)
    }
}

fn remainder_of(a: i64, b: i64) -> (r: i128)
    requires
        b != 0,
    ensures
        r == remainder(a as int, b as int),
        -0x8000_0000_0000_0000 <= r <= 0x8000_0000_0000_0000,
{
    let x: i128 = if a < 0 {
        -(a as i128)
    } else {
        a as i128
    };
    let y: i128 = if b < 0 {
        -(b as i128)
    } else {
        b as i128
    };
    assert(0 <= x % y < y) by (nonlinear_arith)
        requires
            x >= 0,
            y >= 1,
    ;
    if a < 0 {
        -(x % y)
    } else {
        x % y
    }
}

pub fn low_mask(bits: u32) -> (r: u64)
    ensures
        r == mask_of(bits),
{
    if bits >= 64 {
        0xffff_ffff_ffff_ffff
    } else {
        assert(1u64 << bits >= 1) by (bit_vector)
            requires
                bits < 64,
        ;
        (1u64 << bits) - 1
    }
}

#[verifier::truncate]
pub fn keep(x: u64, bits: u32) -> (r: i64)
    ensures
        r == kept(x, bits),
{
    (x & low_mask(bits)) as i64
}

#[verifier::truncate]
fn amount(b: i64, bits: u32) -> (r: u64)
    requires
        8 <= bits <= 64,
    ensures
        r == shift_by(b, bits),
        r < 64,
{
    let m: u64 = (bits - 1) as u64;
    let x: u64 = b as u64;
    assert(x & m <= m) by (bit_vector);
    x & m
}

#[verifier::truncate]
fn sign_extend(x: u64, bits: u32) -> (r: i64)
    requires
        8 <= bits <= 64,
    ensures
        r == sign_extended(x, bits),
{
    let low: u64 = x & low_mask(bits);
    if bits >= 64 {
        low as i64
    } else {
        let half: u64 = 1u64 << (bits - 1);
        let full: u64 = 1u64 << bits;
        if low >= half {
            ((low as i128) - (full as i128)) as i64
        } else {
            low as i64
        }
    }
}

#[verifier::truncate]
fn shift_down(x: i64, c: u64) -> (r: i64)
    requires
        c < 64,
    ensures
        r == shifted_down(x, c),
{
    assert(1u64 << c >= 1) by (bit_vector)
        requires
            c < 64,
    ;
    let d: i128 = (1u64 << c) as i128;
    let n: i128 = x as i128;
    assert(-0x8000_0000_0000_0000 <= n / d <= 0x8000_0000_0000_0000) by (nonlinear_arith)
        requires
            d >= 1,
            -0x8000_0000_0000_0000 <= n <= 0x7fff_ffff_ffff_ffff,
    ;
    if n >= 0 {
        (n / d) as i64
    } else {
        let p: i128 = -n;
        let q: i128 = p / d;
        let r: i128 = p % d;
        assert(n / d == if r == 0 {
            -q
        } else {
            -q - 1
        }) by (nonlinear_arith)
            requires
                d >= 1,
                p == -n,
                q == p / d,
                r == p % d,
                p > 0,
        ;
        if r == 0 {
            (-q) as i64
        } else {
            (-q - 1) as i64
        }
    }
}

/// Arithmetic that wraps at a width.
#[verifier::truncate]
pub fn wrapping_arith(op: BinOp, a: i64, b: i64, bits: u32, unsigned: bool) -> (r: IntOut)
    requires
        8 <= bits <= 64,
    ensures
        r == wrapping_op(op, a, b, bits, unsigned),
{
    let x: u64 = a as u64;
    let y: u64 = b as u64;
    match op {
        BinOp::Plus => IntOut::Gives(keep((a as i128 + b as i128) as u64, bits)),
        BinOp::Minus => IntOut::Gives(keep((a as i128 - b as i128) as u64, bits)),
        BinOp::Star => {
            assert(-0x8000_0000_0000_0000 * 0x8000_0000_0000_0000 <= a * b <= 0x8000_0000_0000_0000
                * 0x8000_0000_0000_0000) by (nonlinear_arith)
                requires
                    -0x8000_0000_0000_0000 <= a <= 0x7fff_ffff_ffff_ffff,
                    -0x8000_0000_0000_0000 <= b <= 0x7fff_ffff_ffff_ffff,
            ;
            IntOut::Gives(keep(((a as i128) * (b as i128)) as u64, bits))
        },
        BinOp::Slash => if b == 0 {
            IntOut::DivZero
        } else {
            IntOut::Gives(keep(quotient_of(a, b) as u64, bits))
        },
        BinOp::Percent => if b == 0 {
            IntOut::DivZero
        } else {
            IntOut::Gives(keep(remainder_of(a, b) as u64, bits))
        },
        BinOp::Amp => IntOut::Gives(keep(x & y, bits)),
        BinOp::Pipe => IntOut::Gives(keep(x | y, bits)),
        BinOp::Caret => IntOut::Gives(keep(x ^ y, bits)),
        BinOp::Shl => {
            let c = amount(b, bits);
            IntOut::Gives(keep(x << c, bits))
        },
        BinOp::Shr => {
            let c = amount(b, bits);
            if unsigned {
                IntOut::Gives(keep((x & low_mask(bits)) >> c, bits))
            } else {
                IntOut::Gives(keep(shift_down(sign_extend(x, bits), c) as u64, bits))
            }
        },
        _ => IntOut::Gives(keep(x, bits)),
    }
}

fn check(n: i128, range: Option<(i64, i64)>) -> (r: IntOut)
    ensures
        r == checked(n as int, range),
{
    if n < -0x8000_0000_0000_0000 || n > 0x7fff_ffff_ffff_ffff {
        return IntOut::Overflow;
    }
    if let Some((lo, hi)) = range {
        if n < lo as i128 || n > hi as i128 {
            return IntOut::Overflow;
        }
    }
    IntOut::Gives(n as i64)
}

/// Checked arithmetic.
pub fn checked_arith(op: BinOp, a: i64, b: i64, range: Option<(i64, i64)>) -> (r: IntOut)
    ensures
        r == checked_op(op, a, b, range),
{
    match op {
        BinOp::Amp | BinOp::Pipe | BinOp::Caret | BinOp::Shl | BinOp::Shr => IntOut::Unruled,
        BinOp::Plus => check(a as i128 + b as i128, range),
        BinOp::Minus => check(a as i128 - b as i128, range),
        BinOp::Star => {
            assert(-0x8000_0000_0000_0000 * 0x8000_0000_0000_0000 <= a * b <= 0x8000_0000_0000_0000
                * 0x8000_0000_0000_0000) by (nonlinear_arith)
                requires
                    -0x8000_0000_0000_0000 <= a <= 0x7fff_ffff_ffff_ffff,
                    -0x8000_0000_0000_0000 <= b <= 0x7fff_ffff_ffff_ffff,
            ;
            check((a as i128) * (b as i128), range)
        },
        BinOp::Slash => if b == 0 {
            IntOut::DivZero
        } else {
            check(quotient_of(a, b), range)
        },
        BinOp::Percent => if b == 0 {
            IntOut::DivZero
        } else if a == i64::MIN && b == -1 {
            IntOut::Overflow
        } else {
            check(remainder_of(a, b), range)
        },
        _ => check(a as i128, range),
    }
}

/// Checked addition never leaves the word, and gives the sum when it
/// gives anything.
pub proof fn law_checked_sum(a: i64, b: i64, range: Option<(i64, i64)>)
    ensures
        checked_op(BinOp::Plus, a, b, range) matches IntOut::Gives(n) ==> n == a + b,
        checked_op(BinOp::Plus, a, b, range) is Overflow <==> !(in_word(a + b) && in_range(
            a + b,
            range,
        )),
        checked_op(BinOp::Plus, a, b, range) == checked_op(BinOp::Plus, b, a, range),
{
}

/// Quotient and remainder give the dividend back.
pub proof fn law_division(a: int, b: int)
    requires
        b != 0,
    ensures
        quotient(a, b) * b + remainder(a, b) == a,
{
    let x = abs_of(a);
    let y = abs_of(b);
    assert(x == y * (x / y) + x % y) by (nonlinear_arith)
        requires
            y > 0,
    ;
    let q = x / y;
    let r = x % y;
    if (a < 0) == (b < 0) {
        if a < 0 {
            assert(q * b == -(y * q)) by (nonlinear_arith)
                requires
                    y == -b,
            ;
        } else {
            assert(q * b == y * q) by (nonlinear_arith)
                requires
                    y == b,
            ;
        }
    } else {
        if a < 0 {
            assert((-q) * b == -(y * q)) by (nonlinear_arith)
                requires
                    y == b,
            ;
        } else {
            assert((-q) * b == y * q) by (nonlinear_arith)
                requires
                    y == -b,
            ;
        }
    }
}

// ------------------------------------------------------- raw-tier numbers --

/// The little-endian number of the bytes from `i` on, as a word.
pub open spec fn le_from(b: Seq<u8>, i: int) -> u64
    decreases b.len() - i,
{
    if i >= b.len() {
        0
    } else {
        ((b[i] as int + 256 * le_from(b, i + 1)) % 0x1_0000_0000_0000_0000) as u64
    }
}

/// The number a run of bytes stands for.
pub fn le_number(b: &Vec<u8>) -> (r: u64)
    ensures
        r == le_from(b@, 0),
{
    let mut acc: u64 = 0;
    let mut i: usize = b.len();
    while i > 0
        invariant
            i <= b@.len(),
            acc == le_from(b@, i as int),
        decreases i,
    {
        let x: u128 = (b[i - 1] as u128) + 256 * (acc as u128);
        acc = (x % 0x1_0000_0000_0000_0000) as u64;
        i = i - 1;
    }
    acc
}

/// The low bytes of a word, lowest first.
pub open spec fn le_split(x: u64, size: nat) -> Seq<u8>
    decreases size,
{
    if size == 0 {
        Seq::empty()
    } else {
        seq![(x % 256) as u8] + le_split(x / 256, (size - 1) as nat)
    }
}

/// The low bytes of a word, lowest first.
pub fn le_bytes(x: u64, size: u64) -> (r: Vec<u8>)
    ensures
        r@ == le_split(x, size as nat),
{
    let mut out: Vec<u8> = Vec::new();
    let mut v: u64 = x;
    let mut i: u64 = 0;
    assert(out@ + le_split(v, size as nat) =~= le_split(x, size as nat));
    while i < size
        invariant
            i <= size,
            out@ + le_split(v, (size - i) as nat) == le_split(x, size as nat),
        decreases size - i,
    {
        let ghost was = out@;
        let ghost before = v;
        out.push((v % 256) as u8);
        v = v / 256;
        i = i + 1;
        assert(out@ + le_split(v, (size - i) as nat) =~= was + le_split(
            before,
            (size - i + 1) as nat,
        ));
    }
    assert(out@ =~= le_split(x, size as nat));
    out
}

/// Splitting a word and putting its bytes together gives the word back.
pub proof fn law_bytes_round_trip(x: u64)
    ensures
        le_from(le_split(x, 8), 0) == x,
{
    reveal_with_fuel(pow256, 9);
    lemma_split(x, 8, 0x1_0000_0000_0000_0000);
}

proof fn lemma_split(x: u64, n: nat, bound: int)
    requires
        n <= 8,
        x < bound,
        bound <= 0x1_0000_0000_0000_0000,
        bound == pow256(n),
    ensures
        le_split(x, n).len() == n,
        le_from(le_split(x, n), 0) == x,
    decreases n,
{
    if n > 0 {
        let rest = le_split(x / 256, (n - 1) as nat);
        let s = le_split(x, n);
        assert(pow256(n) == 256 * pow256((n - 1) as nat));
        lemma_split(x / 256, (n - 1) as nat, pow256((n - 1) as nat));
        lemma_shift(s, rest, 0);
        assert(s[0] as int + 256 * (x / 256) == x);
    } else {
        assert(pow256(0) == 1);
    }
}

pub open spec fn pow256(n: nat) -> int
    decreases n,
{
    if n == 0 {
        1
    } else {
        256 * pow256((n - 1) as nat)
    }
}

proof fn lemma_shift(s: Seq<u8>, rest: Seq<u8>, i: int)
    requires
        0 <= i <= rest.len(),
        s.len() == rest.len() + 1,
        forall|k: int| 0 <= k < rest.len() ==> s[k + 1] == #[trigger] rest[k],
    ensures
        le_from(s, i + 1) == le_from(rest, i),
    decreases rest.len() - i,
{
    if i < rest.len() {
        lemma_shift(s, rest, i + 1);
        assert(s[i + 1] == rest[i]);
    }
}

} // verus!
