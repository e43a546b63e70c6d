//! What running an expression means: how what a construct gives relates to
//! what its parts give, and in which state.

use vstd::prelude::*;
use vstd::utf8::*;

use crate::arith::{abs_of, law_division, quotient, remainder};
use crate::ast::{Arm, BinOp, Block, Expr, ExprKind, PrefixOp};
use crate::evaluate::{
    eval, eval_arm_body, eval_arms, eval_bin, eval_block, eval_else, eval_handler, eval_if,
    eval_kind, eval_literal, eval_prefix, eval_return, eval_try, loop_laps, while_laps,
};
use crate::machine::State;
use crate::semantics::{
    arith_binop, bin_values, literal_value, match_pattern, range_at, wrap_at, Ev, Here, Matched,
    World,
};
use crate::value::{bytes_lt, FlowView, StopView, ValueView};

verus! {

/// The state with one step of the budget spent.
pub open spec fn spent<'t>(m: State<'t>) -> State<'t> {
    State { steps: (m.steps + 1) as u64, ..m }
}

/// The evaluation came to a value, in that state.
pub open spec fn came_to<'t>(r: Ev<'t>, m: State<'t>, v: ValueView) -> bool {
    r.0 == m && r.1 == Ok::<FlowView, StopView>(FlowView::Val(v))
}

/// The evaluation trapped, in that state.
pub open spec fn trapped_as<'t>(r: Ev<'t>, m: State<'t>, kind: Seq<char>) -> bool {
    r.0 == m && (r.1 matches Err(StopView::Trap(t)) && t.kind == kind)
}

/// Every expression costs one step; with none left nothing happens.
pub proof fn law_expression_costs_a_step<'t>(w: World<'t>, h: Here, m: State<'t>, e: Expr)
    ensures
        m.steps < m.step_limit ==> eval(w, h, m, e) == eval_kind(w, h, spent(m), e),
        m.steps >= m.step_limit ==> eval(w, h, m, e).0 == m && eval(w, h, m, e).1 is Err,
{
    reveal(eval);
    reveal(eval_kind);
}

// --------------------------------------------------------------- operators --

/// `!` gives the other boolean, in the state its operand left.
pub proof fn law_not_inverts<'t>(
    w: World<'t>,
    h: Here,
    m: State<'t>,
    e: Expr,
    x: Expr,
    m1: State<'t>,
    b: bool,
)
    requires
        m.steps < m.step_limit,
        e.kind matches ExprKind::Prefix(PrefixOp::Not, y) && *y == x,
        came_to(eval(w, h, spent(m), x), m1, ValueView::Bool(b)),
    ensures
        exists|c: bool| c != b && #[trigger] came_to(eval(w, h, m, e), m1, ValueView::Bool(c)),
{
    law_expression_costs_a_step(w, h, m, e);
    reveal(eval);
    reveal(eval_kind);
    reveal(eval_prefix);
    assert(eval_kind(w, h, spent(m), e) == eval_prefix(w, h, spent(m), e));
    assert(came_to(eval(w, h, m, e), m1, ValueView::Bool(!b)));
}

/// `-` gives the number that cancels its operand, or traps where there is
/// none.
pub proof fn law_minus_negates<'t>(
    w: World<'t>,
    h: Here,
    m: State<'t>,
    e: Expr,
    x: Expr,
    m1: State<'t>,
    n: i64,
)
    requires
        m.steps < m.step_limit,
        e.kind matches ExprKind::Prefix(PrefixOp::Minus, y) && *y == x,
        !(x.kind is Literal),
        came_to(eval(w, h, spent(m), x), m1, ValueView::Int(n)),
    ensures
        n != i64::MIN ==> exists|k: i64|
            k + n == 0 && #[trigger] came_to(eval(w, h, m, e), m1, ValueView::Int(k)),
        n == i64::MIN ==> trapped_as(eval(w, h, m, e), m1, "overflow"@),
{
    law_expression_costs_a_step(w, h, m, e);
    reveal(eval);
    reveal(eval_kind);
    reveal(eval_prefix);
    assert(eval_kind(w, h, spent(m), e) == eval_prefix(w, h, spent(m), e));
    if n != i64::MIN {
        assert(came_to(eval(w, h, m, e), m1, ValueView::Int((-n) as i64)));
    }
}

/// A binary operation on two integers, evaluated left to right.
pub open spec fn operands<'t>(
    w: World<'t>,
    h: Here,
    m: State<'t>,
    e: Expr,
    op: BinOp,
    m2: State<'t>,
    a: ValueView,
    b: ValueView,
) -> bool {
    &&& m.steps < m.step_limit
    &&& e.kind matches ExprKind::Bin(o, l, r) && o == op && exists|m1: State<'t>|
        came_to(#[trigger] eval(w, h, spent(m), *l), m1, a) && came_to(
            #[trigger] eval(w, h, m1, *r),
            m2,
            b,
        )
}

proof fn lemma_operands<'t>(
    w: World<'t>,
    h: Here,
    m: State<'t>,
    e: Expr,
    op: BinOp,
    m2: State<'t>,
    a: ValueView,
    b: ValueView,
)
    requires
        operands(w, h, m, e, op, m2, a, b),
        !(op is AndAnd),
        !(op is OrOr),
    ensures
        eval(w, h, m, e) == bin_values(w, h, m2, e, op, a, b),
{
    law_expression_costs_a_step(w, h, m, e);
    reveal(eval);
    reveal(eval_kind);
    reveal(eval_bin);
    assert(eval_kind(w, h, spent(m), e) == eval_bin(w, h, spent(m), e));
}

/// The number is one the machine and the expression's type hold.
pub open spec fn fits(w: World<'_>, h: Here, e: Expr, n: int) -> bool {
    i64::MIN <= n <= i64::MAX && (range_at(w, h, e) matches Some((lo, hi)) ==> lo <= n <= hi)
}

/// The evaluation gives the number where it fits, and traps where it does
/// not: arithmetic never wraps silently.
pub open spec fn gives_or_traps<'t>(
    w: World<'t>,
    h: Here,
    e: Expr,
    r: Ev<'t>,
    m: State<'t>,
    n: int,
) -> bool {
    if fits(w, h, e, n) {
        exists|k: i64| k == n && #[trigger] came_to(r, m, ValueView::Int(k))
    } else {
        trapped_as(r, m, "overflow"@)
    }
}

/// Addition, subtraction and multiplication are exact or trap.
pub proof fn law_arithmetic_is_exact<'t>(
    w: World<'t>,
    h: Here,
    m: State<'t>,
    e: Expr,
    op: BinOp,
    m2: State<'t>,
    a: i64,
    b: i64,
)
    requires
        operands(w, h, m, e, op, m2, ValueView::Int(a), ValueView::Int(b)),
        wrap_at(w, h, e) is None,
    ensures
        op is Plus ==> gives_or_traps(w, h, e, eval(w, h, m, e), m2, a + b),
        op is Minus ==> gives_or_traps(w, h, e, eval(w, h, m, e), m2, a - b),
        op is Star ==> gives_or_traps(w, h, e, eval(w, h, m, e), m2, a * b),
{
    if op is Plus || op is Minus || op is Star {
        lemma_operands(w, h, m, e, op, m2, ValueView::Int(a), ValueView::Int(b));
        reveal(bin_values);
        reveal(arith_binop);
        let n = if op is Plus {
            a + b
        } else if op is Minus {
            a - b
        } else {
            a * b
        };
        if fits(w, h, e, n) {
            assert(came_to(eval(w, h, m, e), m2, ValueView::Int(n as i64)));
        }
    }
}

/// Division by zero traps. Otherwise the quotient and the remainder make
/// up the dividend again: the remainder is smaller than the divisor and
/// has the dividend's sign.
pub proof fn law_division_is_exact<'t>(
    w: World<'t>,
    h: Here,
    m: State<'t>,
    e: Expr,
    op: BinOp,
    m2: State<'t>,
    a: i64,
    b: i64,
)
    requires
        operands(w, h, m, e, op, m2, ValueView::Int(a), ValueView::Int(b)),
        wrap_at(w, h, e) is None,
    ensures
        (op is Slash || op is Percent) && b == 0 ==> trapped_as(
            eval(w, h, m, e),
            m2,
            "div-zero"@,
        ),
        op is Slash && b != 0 ==> exists|q: int, r: int|
            #[trigger] divides(a as int, b as int, q, r) && gives_or_traps(
                w,
                h,
                e,
                eval(w, h, m, e),
                m2,
                q,
            ),
        op is Percent && b != 0 && !(a == i64::MIN && b == -1) ==> exists|q: int, r: int|
            #[trigger] divides(a as int, b as int, q, r) && gives_or_traps(
                w,
                h,
                e,
                eval(w, h, m, e),
                m2,
                r,
            ),
{
    if op is Slash || op is Percent {
        lemma_operands(w, h, m, e, op, m2, ValueView::Int(a), ValueView::Int(b));
        reveal(bin_values);
        reveal(arith_binop);
        if b != 0 {
            let q = quotient(a as int, b as int);
            let r = remainder(a as int, b as int);
            law_division(a as int, b as int);
            assert(divides(a as int, b as int, q, r));
            let n = if op is Slash {
                q
            } else {
                r
            };
            if fits(w, h, e, n) && !(a == i64::MIN && b == -1 && op is Percent) {
                assert(came_to(eval(w, h, m, e), m2, ValueView::Int(n as i64)));
            }
        }
    }
}

/// The quotient and remainder of a division toward zero.
pub open spec fn divides(a: int, b: int, q: int, r: int) -> bool {
    &&& a == q * b + r
    &&& -abs_of(b) < r < abs_of(b)
    &&& a >= 0 ==> r >= 0
    &&& a <= 0 ==> r <= 0
}

/// Texts are joined in order.
pub proof fn law_plus_joins_texts<'t>(
    w: World<'t>,
    h: Here,
    m: State<'t>,
    e: Expr,
    m2: State<'t>,
    a: Seq<u8>,
    b: Seq<u8>,
)
    requires
        operands(w, h, m, e, BinOp::Plus, m2, ValueView::Str(a), ValueView::Str(b)),
    ensures
        exists|c: Seq<u8>|
            c.len() == a.len() + b.len() && c.subrange(0, a.len() as int) == a && c.subrange(
                a.len() as int,
                c.len() as int,
            ) == b && #[trigger] came_to(eval(w, h, m, e), m2, ValueView::Str(c)),
{
    lemma_operands(w, h, m, e, BinOp::Plus, m2, ValueView::Str(a), ValueView::Str(b));
    reveal(bin_values);
    reveal(arith_binop);
    let c = a + b;
    assert(c.subrange(0, a.len() as int) =~= a);
    assert(c.subrange(a.len() as int, c.len() as int) =~= b);
    assert(came_to(eval(w, h, m, e), m2, ValueView::Str(c)));
}

/// The truth of a comparison, where it has one.
pub open spec fn truth<'t>(r: Ev<'t>, m: State<'t>) -> Option<bool> {
    match r.1 {
        Ok(FlowView::Val(ValueView::Bool(b))) => if r.0 == m {
            Some(b)
        } else {
            None
        },
        _ => None,
    }
}

/// Integers compare as numbers.
pub proof fn law_integers_compare<'t>(
    w: World<'t>,
    h: Here,
    m: State<'t>,
    e: Expr,
    op: BinOp,
    m2: State<'t>,
    a: i64,
    b: i64,
)
    requires
        operands(w, h, m, e, op, m2, ValueView::Int(a), ValueView::Int(b)),
    ensures
        op is EqEq ==> truth(eval(w, h, m, e), m2) == Some(a == b),
        op is NotEq ==> truth(eval(w, h, m, e), m2) == Some(a != b),
        op is Lt ==> truth(eval(w, h, m, e), m2) == Some(a < b),
        op is LtEq ==> truth(eval(w, h, m, e), m2) == Some(a <= b),
        op is Gt ==> truth(eval(w, h, m, e), m2) == Some(a > b),
        op is GtEq ==> truth(eval(w, h, m, e), m2) == Some(a >= b),
{
    if !(op is AndAnd) && !(op is OrOr) {
        lemma_operands(w, h, m, e, op, m2, ValueView::Int(a), ValueView::Int(b));
        reveal(bin_values);
    }
}

/// Booleans, characters and texts are equal iff they are the same.
pub proof fn law_equality_is_identity<'t>(
    w: World<'t>,
    h: Here,
    m: State<'t>,
    e: Expr,
    op: BinOp,
    m2: State<'t>,
    a: ValueView,
    b: ValueView,
)
    requires
        operands(w, h, m, e, op, m2, a, b),
        (a is Bool && b is Bool) || (a is Char && b is Char) || (a is Str && b is Str) || (a is Int
            && b is Int),
    ensures
        op is EqEq ==> truth(eval(w, h, m, e), m2) == Some(a == b),
        op is NotEq ==> truth(eval(w, h, m, e), m2) == Some(a != b),
{
    if op is EqEq || op is NotEq {
        lemma_operands(w, h, m, e, op, m2, a, b);
        reveal(bin_values);
    }
}

/// Characters compare by their scalar values.
pub proof fn law_characters_compare<'t>(
    w: World<'t>,
    h: Here,
    m: State<'t>,
    e: Expr,
    op: BinOp,
    m2: State<'t>,
    a: char,
    b: char,
)
    requires
        operands(w, h, m, e, op, m2, ValueView::Char(a), ValueView::Char(b)),
    ensures
        op is Lt ==> truth(eval(w, h, m, e), m2) == Some((a as u32) < (b as u32)),
        op is LtEq ==> truth(eval(w, h, m, e), m2) == Some((a as u32) <= (b as u32)),
        op is Gt ==> truth(eval(w, h, m, e), m2) == Some((a as u32) > (b as u32)),
        op is GtEq ==> truth(eval(w, h, m, e), m2) == Some((a as u32) >= (b as u32)),
{
    if op is Lt || op is LtEq || op is Gt || op is GtEq {
        lemma_operands(w, h, m, e, op, m2, ValueView::Char(a), ValueView::Char(b));
        reveal(bin_values);
    }
}

/// Texts compare byte by byte: the first byte that differs decides, and a
/// text comes before what it begins.
pub open spec fn text_before(a: Seq<u8>, b: Seq<u8>) -> bool {
    exists|k: int| #[trigger] splits_at(a, b, k) && (k == a.len() || a[k] < b[k]) && k < b.len()
}

/// The texts agree before `k`.
pub open spec fn splits_at(a: Seq<u8>, b: Seq<u8>, k: int) -> bool {
    &&& 0 <= k <= a.len()
    &&& k <= b.len()
    &&& forall|i: int| 0 <= i < k ==> a[i] == b[i]
}

proof fn lemma_bytes_lt(a: Seq<u8>, b: Seq<u8>, i: int)
    requires
        splits_at(a, b, i),
    ensures
        bytes_lt(a, b, i) <==> text_before(a, b),
    decreases a.len() - i,
{
    if i < a.len() && i < b.len() && a[i] == b[i] {
        assert(splits_at(a, b, i + 1));
        lemma_bytes_lt(a, b, i + 1);
    } else {
        if bytes_lt(a, b, i) {
            assert(splits_at(a, b, i));
        }
        if text_before(a, b) {
            let k = choose|k: int| #[trigger]
                splits_at(a, b, k) && (k == a.len() || a[k] < b[k]) && k < b.len();
            if k > i {
                assert(a[i] == b[i]);
            } else if k < i {
                assert(a[k] == b[k]);
            }
        }
    }
}

/// Texts compare by their bytes; the four orderings agree.
pub proof fn law_texts_compare<'t>(
    w: World<'t>,
    h: Here,
    m: State<'t>,
    e: Expr,
    op: BinOp,
    m2: State<'t>,
    a: Seq<u8>,
    b: Seq<u8>,
)
    requires
        operands(w, h, m, e, op, m2, ValueView::Str(a), ValueView::Str(b)),
    ensures
        op is Lt ==> truth(eval(w, h, m, e), m2) == Some(text_before(a, b)),
        op is Gt ==> truth(eval(w, h, m, e), m2) == Some(text_before(b, a)),
        op is LtEq ==> truth(eval(w, h, m, e), m2) == Some(!text_before(b, a)),
        op is GtEq ==> truth(eval(w, h, m, e), m2) == Some(!text_before(a, b)),
{
    if op is Lt || op is LtEq || op is Gt || op is GtEq {
        lemma_operands(w, h, m, e, op, m2, ValueView::Str(a), ValueView::Str(b));
        reveal(bin_values);
        assert(splits_at(a, b, 0));
        assert(splits_at(b, a, 0));
        lemma_bytes_lt(a, b, 0);
        lemma_bytes_lt(b, a, 0);
    }
}

/// `&&` and `||` look at the right side only when the left one leaves the
/// answer open, and then give what it gives.
pub proof fn law_logic_short_circuits<'t>(
    w: World<'t>,
    h: Here,
    m: State<'t>,
    e: Expr,
    op: BinOp,
    l: Expr,
    r: Expr,
    m1: State<'t>,
    b: bool,
)
    requires
        m.steps < m.step_limit,
        e.kind matches ExprKind::Bin(o, x, y) && o == op && *x == l && *y == r,
        op is AndAnd || op is OrOr,
        came_to(eval(w, h, spent(m), l), m1, ValueView::Bool(b)),
    ensures
        op is AndAnd && !b ==> came_to(eval(w, h, m, e), m1, ValueView::Bool(false)),
        op is OrOr && b ==> came_to(eval(w, h, m, e), m1, ValueView::Bool(true)),
        op is AndAnd && b ==> eval(w, h, m, e) == eval(w, h, m1, r),
        op is OrOr && !b ==> eval(w, h, m, e) == eval(w, h, m1, r),
{
    law_expression_costs_a_step(w, h, m, e);
    reveal(eval);
    reveal(eval_kind);
    reveal(eval_bin);
    assert(eval_kind(w, h, spent(m), e) == eval_bin(w, h, spent(m), e));
}

// ------------------------------------------------------------------- flow --

/// An `if` runs the branch its condition picks, once, and gives what it
/// gives; without an `else` a false condition gives unit.
pub proof fn law_if_picks<'t>(
    w: World<'t>,
    h: Here,
    m: State<'t>,
    e: Expr,
    cond: Expr,
    m1: State<'t>,
    b: bool,
)
    requires
        m.steps < m.step_limit,
        e.kind matches ExprKind::If { cond: c, .. } && *c == cond,
        came_to(eval(w, h, spent(m), cond), m1, ValueView::Bool(b)),
    ensures
        e.kind matches ExprKind::If { then_block, els, .. } && {
            &&& b ==> eval(w, h, m, e) == eval_block(w, h, m1, then_block, true)
            &&& !b && els is None ==> came_to(eval(w, h, m, e), m1, ValueView::Unit)
            &&& !b ==> (els matches Some(x) ==> match x.kind {
                ExprKind::Block(o) => eval(w, h, m, e) == eval_block(w, h, m1, o, true),
                _ => eval(w, h, m, e) == eval(w, h, m1, *x),
            })
        },
{
    law_expression_costs_a_step(w, h, m, e);
    reveal(eval);
    reveal(eval_kind);
    reveal(eval_if);
    reveal(eval_block);
    assert(eval_kind(w, h, spent(m), e) == eval_if(w, h, spent(m), e));
}

/// A `while` ends when its condition is false or its body breaks, and
/// otherwise, the body done, it starts over in the state the body left.
pub proof fn law_while_repeats<'t>(
    w: World<'t>,
    h: Here,
    m: State<'t>,
    e: Expr,
    n: nat,
    cond: Expr,
    body: Block,
    m1: State<'t>,
    b: bool,
)
    requires
        n > 0,
        m.steps < m.step_limit,
        e.kind matches ExprKind::While { cond: c, body: x } && *c == cond && x == body,
        came_to(eval(w, h, spent(m), cond), m1, ValueView::Bool(b)),
    ensures
        !b ==> came_to(while_laps(w, h, m, e, n), m1, ValueView::Unit),
        b ==> {
            let (m2, out) = eval_block(w, h, m1, body, false);
            match out {
                Ok(FlowView::Break) => came_to(while_laps(w, h, m, e, n), m2, ValueView::Unit),
                Ok(FlowView::Continue) | Ok(FlowView::Val(_)) => while_laps(w, h, m, e, n)
                    == while_laps(w, h, m2, e, (n - 1) as nat),
                _ => while_laps(w, h, m, e, n) == (m2, out),
            }
        },
{
    reveal(eval);
    reveal(eval_block);
    reveal_with_fuel(while_laps, 2);
}

/// `loop` repeats its body until it breaks or leaves.
pub proof fn law_loop_repeats<'t>(
    w: World<'t>,
    h: Here,
    m: State<'t>,
    e: Expr,
    n: nat,
    body: Block,
)
    requires
        n > 0,
        m.steps < m.step_limit,
        e.kind matches ExprKind::Loop(x) && x == body,
    ensures
        ({
            let (m2, out) = eval_block(w, h, spent(m), body, false);
            match out {
                Ok(FlowView::Break) => came_to(loop_laps(w, h, m, e, n), m2, ValueView::Unit),
                Ok(FlowView::Continue) | Ok(FlowView::Val(_)) => loop_laps(w, h, m, e, n)
                    == loop_laps(w, h, m2, e, (n - 1) as nat),
                _ => loop_laps(w, h, m, e, n) == (m2, out),
            }
        }),
{
    reveal(eval_block);
    reveal_with_fuel(loop_laps, 2);
}

/// `return`, `break` and `continue` leave with what they say: a `return`
/// carries its operand's value.
pub proof fn law_jumps_leave<'t>(w: World<'t>, h: Here, m: State<'t>, e: Expr)
    requires
        m.steps < m.step_limit,
    ensures
        e.kind is Break ==> eval(w, h, m, e) == (spent(m), Ok::<FlowView, StopView>(
            FlowView::Break,
        )),
        e.kind is Continue ==> eval(w, h, m, e) == (spent(m), Ok::<FlowView, StopView>(
            FlowView::Continue,
        )),
        e.kind matches ExprKind::Return(None) ==> eval(w, h, m, e) == (spent(m), Ok::<
            FlowView,
            StopView,
        >(FlowView::Return(ValueView::Unit))),
        e.kind matches ExprKind::Return(Some(x)) ==> forall|m1: State<'t>, v: ValueView|
            #[trigger] came_to(eval(w, h, spent(m), *x), m1, v) ==> eval(w, h, m, e) == (m1, Ok::<
                FlowView,
                StopView,
            >(FlowView::Return(v))),
{
    law_expression_costs_a_step(w, h, m, e);
    reveal(eval);
    reveal(eval_kind);
    reveal(eval_return);
    if e.kind is Return {
        assert(eval_kind(w, h, spent(m), e) == eval_return(w, h, spent(m), e));
    }
}

/// `?` lets a value through and turns a row error into one that unwinds.
pub proof fn law_try_propagates<'t>(
    w: World<'t>,
    h: Here,
    m: State<'t>,
    e: Expr,
    x: Expr,
)
    requires
        m.steps < m.step_limit,
        e.kind matches ExprKind::Try(y) && *y == x,
    ensures
        ({
            let (m1, inner) = eval(w, h, spent(m), x);
            let r = eval(w, h, m, e);
            &&& r.0 == m1
            &&& match inner {
                Ok(FlowView::Raise(v, _)) => r.1 == Ok::<FlowView, StopView>(
                    FlowView::Raise(v, true),
                ),
                Ok(FlowView::Val(v)) => if v is ErrTag {
                    r.1 == Ok::<FlowView, StopView>(FlowView::Raise(v, true))
                } else {
                    r.1 == inner
                },
                _ => r.1 == inner,
            }
        }),
{
    law_expression_costs_a_step(w, h, m, e);
    reveal(eval);
    reveal(eval_kind);
    reveal(eval_try);
    assert(eval_kind(w, h, spent(m), e) == eval_try(w, h, spent(m), e));
}

/// `else` is skipped when there is no row error, and runs its fallback in a
/// scope of its own when there is one.
pub proof fn law_else_catches<'t>(
    w: World<'t>,
    h: Here,
    m: State<'t>,
    e: Expr,
    x: Expr,
    m1: State<'t>,
    v: ValueView,
)
    requires
        m.steps < m.step_limit,
        e.kind matches ExprKind::Else { scrutinized, .. } && *scrutinized == x,
    ensures
        came_to(eval(w, h, spent(m), x), m1, v) && !(v is ErrTag) ==> came_to(
            eval(w, h, m, e),
            m1,
            v,
        ),
        came_to(eval(w, h, spent(m), x), m1, v) && v is ErrTag ==> eval(w, h, m, e) == eval_handler(
            w,
            h,
            m1,
            e,
            v,
        ),
        eval(w, h, spent(m), x).0 == m1 && (eval(w, h, spent(m), x).1 matches Ok(
            FlowView::Raise(y, _),
        ) && y == v) ==> eval(w, h, m, e) == eval_handler(w, h, m1, e, v),
{
    law_expression_costs_a_step(w, h, m, e);
    reveal(eval);
    reveal(eval_kind);
    reveal(eval_else);
    reveal(eval_handler);
    assert(eval_kind(w, h, spent(m), e) == eval_else(w, h, spent(m), e));
}

/// The literals `true` and `false` are the two booleans.
pub proof fn law_boolean_literals<'t>(w: World<'t>, h: Here, m: State<'t>, e: Expr)
    requires
        m.steps < m.step_limit,
        e.kind is Literal,
    ensures
        e.text@ == "true"@ ==> came_to(eval(w, h, m, e), spent(m), ValueView::Bool(true)),
        e.text@ == "false"@ ==> came_to(eval(w, h, m, e), spent(m), ValueView::Bool(false)),
{
    law_expression_costs_a_step(w, h, m, e);
    reveal(eval);
    reveal(eval_kind);
    reveal(literal_value);
    reveal_strlit("true");
    reveal_strlit("false");
    assert("true"@.len() == 4 && "false"@.len() == 5);
    assert(eval_kind(w, h, spent(m), e) == eval_literal(w, h, spent(m), e));
}

/// The first arm whose pattern fits decides a `match`: an arm that does not
/// fit is passed over, and one that fits without a guard runs.
pub proof fn law_first_fitting_arm_runs<'t>(
    w: World<'t>,
    h: Here,
    m: State<'t>,
    arms: Vec<Arm>,
    i: nat,
    v: ValueView,
    domain: Option<Seq<Seq<char>>>,
)
    requires
        i < arms@.len(),
        arms@[i as int].pattern is Some,
    ensures
        ({
            let arm = arms@[i as int];
            let r = eval_arms(w, h, m, arms, i, v, domain);
            match match_pattern(arm.pattern->0, v, domain) {
                Matched::No => r == eval_arms(w, h, m, arms, i + 1, v, domain),
                Matched::Yes => arm.guard is None ==> r == eval_arm_body(
                    w,
                    h,
                    m.push_scope(),
                    arm,
                ),
                Matched::Binds(name) => arm.guard is None ==> r == eval_arm_body(
                    w,
                    h,
                    m.push_scope().declare(name, v),
                    arm,
                ),
                Matched::Refused(s) => r.1 is Err,
            }
        }),
{
    reveal(eval);
    reveal(eval_arm_body);
    reveal_with_fuel(eval_arms, 2);
}

} // verus!
