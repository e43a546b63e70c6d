//! Evaluation of expressions, statements and calls, as a function.

use vstd::prelude::*;
use vstd::utf8::*;

use crate::arith::{checked_op, le_from, le_split, wrapping_op, IntOut};
use crate::ast::{
    Arg, Arm, AssignOp, BinOp, Binder, Block, BodyKind, CastKind, Dispatch, Expr, ExprKind,
    FieldInit, Fold, FnParam, Hole, PatKind, PrefixOp, Statement,
};
use crate::builtin::{builtin_call, is_builtin};
use crate::cfg::ParamMode;
use crate::diag::Span;
use crate::literal::uint_literal;
use crate::machine::{Did, Duty, FrameView, Gave, RcCellView, ScopeView, State, NO_DEPTH, NO_STEPS};
use crate::semantics::{
    any_fn, arith_binop, assume_values, bin_values, bind_elements, bind_handler, bind_pattern,
    bridge, c_call, call_level, cast_int, close_level, concrete_name, deep_copy, dispatch_type,
    domain_of, door_values, duty_level, element, eval_level, fn_declared, kind_at, literal_value,
    match_pattern, method_in, module_fn, nth, pointee_at, project, raises_tag, range_at, raw_read,
    signed_at, raw_write, shift_origin, show_value, simple_name, stops, string_value, trait_body,
    ub, unit, val, wrap_at, Ev, Here, Many, Matched, Mn, Pl, World,
};
use crate::shadow::{PtrVal, TagState};
use crate::strs::sliceable;
use crate::text::{decimal, decimal_int};
use crate::types::{CallSig, Prim, TyKind};
use crate::value::{refused, tagged, trapped, FlowView, PStepView, SlotView, StopView, ValueView};
use crate::verdict::UbRow;

verus! {

pub const NO_SHAPE: &'static str = "this expression shape in checked execution";

pub const NO_CLOSURE: &'static str = "closures in checked execution";

pub const NO_CONCURRENCY: &'static str = "structured concurrency in checked execution (C1 deferred)";

pub const NO_INLINE: &'static str = "inline C / asm";

pub const NO_LOCAL_FN: &'static str = "a nested fn in checked execution";

pub const NO_LOCAL_ITEM: &'static str = "nested item declarations";

pub const NO_ASSIGN: &'static str = "assignment through this place shape";

pub const NO_INDEX: &'static str = "indexing outside the modelled surface";

pub const NO_OPERAND: &'static str = "an index without an operand";

pub const NO_INT_INDEX: &'static str = "indexing a List with a non-int";

pub const NO_INT_RANGE: &'static str = "non-integer ranges";

pub const NO_CONDITION: &'static str = "non-boolean condition";

pub const NO_LOGIC: &'static str = "non-boolean logic operand";

pub const NO_IN: &'static str = "`in` over a non-region value";

pub const NO_IN_REGION: &'static str = "`in` without a region";

pub const NO_FREEZE: &'static str = "freeze of a non-region value";

pub const NO_ITERATION: &'static str = "iteration outside ranges and List";

pub const NO_NEGATION: &'static str = "negation outside integers";

pub const NO_NOT: &'static str = "`!` outside booleans";

pub const NO_ITEM: &'static str = "module items in checked execution";

pub const RAW_FLOW: &'static str = "control flow in a raw index";

pub const RAW_RECEIVER: &'static str = "raw index through a non-pointer";

pub const RAW_VALUE: &'static str = "raw write of a non-scalar";

pub const NO_CHAR_CAST: &'static str = "a char cast of a non-char value";

pub const NO_INT_CAST: &'static str = "an int-to-char cast of a non-int value";

pub const NO_UNSIZE: &'static str = "an unsize of a non-nominal receiver";

pub const NO_BODY: &'static str = "extern fn without a body";

pub const NO_CALL: &'static str = "calls outside the modelled surface";

pub const NO_CALLEE: &'static str = "calls into unresolvable bodies";

pub const NO_METHOD_BODY: &'static str = "methods without resolvable bodies";

pub const NO_RECEIVER: &'static str = "a qualified dispatch without a receiver";

pub const NO_METHOD: &'static str = "this method call shape";

pub const MUT_OF_OTHER: &'static str = "`mut` of a non-place in checked execution";

pub const ARG_FLOW: &'static str = "control flow in an argument";

// -------------------------------------------------------------- operands --

/// The place an expression names, its indices evaluated.
#[verifier::opaque]
pub open spec fn place_of<'t>(w: World<'t>, h: Here, m: State<'t>, e: Expr) -> Pl<'t>
    decreases h.depth, eval_level(h.in_defer), e, 0nat, 0nat,
{
    match e.kind {
        ExprKind::Path(name) => if simple_name(name@) {
            (m, Ok(m.lookup(name@)))
        } else {
            (m, Ok(None))
        },
        ExprKind::Paren(inner, _) => place_of(w, h, m, *inner),
        ExprKind::Member(base, member) => {
            let found = match base.kind {
                ExprKind::Paren(inner, Some(_)) => place_of(w, h, m, *inner),
                _ => place_of(w, h, m, *base),
            };
            match found {
                (m1, Ok(Some(s))) => (m1, Ok(Some(s.step(PStepView::Field(member@))))),
                r => r,
            }
        },
        ExprKind::Bracket { callee, args, one_origin } => if kind_at(w, h, *callee) matches Some(
            TyKind::Ptr(_),
        ) {
            (m, Ok(None))
        } else {
            match place_of(w, h, m, *callee) {
                (m1, Ok(Some(s))) => match eval_exprs(w, h, m1, args, 0, Seq::empty()) {
                    (m2, Err(x)) => (m2, Err(x)),
                    (m2, Ok(Many::Leaves(_))) => (m2, Ok(None)),
                    (m2, Ok(Many::All(vs))) => match nth(vs, vs.len() - 1) {
                        ValueView::Int(i) => match shift_origin(i, one_origin, e.span) {
                            Ok(k) => (
                                m2,
                                Ok(
                                    Some(s.step(PStepView::ListIdx { index: k, span: e.span })),
                                ),
                            ),
                            Err(x) => (m2, Err(x)),
                        },
                        ValueView::Handle { index, generation } => (
                            m2,
                            Ok(
                                Some(
                                    s.step(
                                        PStepView::PoolIdx { index, generation, span: e.span },
                                    ),
                                ),
                            ),
                        ),
                        _ => (m2, Ok(None)),
                    },
                },
                r => r,
            }
        },
        _ => (m, Ok(None)),
    }
}

/// Evaluate expressions from `i` on, in order.
#[verifier::opaque]
pub open spec fn eval_exprs<'t>(
    w: World<'t>,
    h: Here,
    m: State<'t>,
    es: Vec<Expr>,
    i: nat,
    acc: Seq<ValueView>,
) -> Mn<'t>
    decreases h.depth, eval_level(h.in_defer), es, es@.len() - i, 0nat,
{
    if i >= es@.len() {
        (m, Ok(Many::All(acc)))
    } else {
        match eval(w, h, m, es[i as int]) {
            (m1, Err(s)) => (m1, Err(s)),
            (m1, Ok(FlowView::Val(v))) => eval_exprs(w, h, m1, es, i + 1, acc.push(v)),
            (m1, Ok(f)) => (m1, Ok(Many::Leaves(f))),
        }
    }
}

/// Read operands from `i` on: places are read, never moved.
#[verifier::opaque]
pub open spec fn read_exprs<'t>(
    w: World<'t>,
    h: Here,
    m: State<'t>,
    es: Vec<Expr>,
    i: nat,
    acc: Seq<ValueView>,
) -> Mn<'t>
    decreases h.depth, eval_level(h.in_defer), es, es@.len() - i, 0nat,
{
    if i >= es@.len() {
        (m, Ok(Many::All(acc)))
    } else {
        match read_or_eval(w, h, m, es[i as int]) {
            (m1, Err(s)) => (m1, Err(s)),
            (m1, Ok(FlowView::Val(v))) => read_exprs(w, h, m1, es, i + 1, acc.push(v)),
            (m1, Ok(f)) => (m1, Ok(Many::Leaves(f))),
        }
    }
}

/// Evaluate call arguments from `i` on.
#[verifier::opaque]
pub open spec fn eval_args<'t>(
    w: World<'t>,
    h: Here,
    m: State<'t>,
    args: Vec<Arg>,
    i: nat,
    acc: Seq<ValueView>,
) -> Mn<'t>
    decreases h.depth, eval_level(h.in_defer), args, args@.len() - i, 0nat,
{
    if i >= args@.len() {
        (m, Ok(Many::All(acc)))
    } else {
        match eval(w, h, m, args[i as int].value) {
            (m1, Err(s)) => (m1, Err(s)),
            (m1, Ok(FlowView::Val(v))) => eval_args(w, h, m1, args, i + 1, acc.push(v)),
            (m1, Ok(f)) => (m1, Ok(Many::Leaves(f))),
        }
    }
}

/// Read call arguments from `i` on.
#[verifier::opaque]
pub open spec fn read_args<'t>(
    w: World<'t>,
    h: Here,
    m: State<'t>,
    args: Vec<Arg>,
    i: nat,
    acc: Seq<ValueView>,
) -> Mn<'t>
    decreases h.depth, eval_level(h.in_defer), args, args@.len() - i, 0nat,
{
    if i >= args@.len() {
        (m, Ok(Many::All(acc)))
    } else {
        match read_or_eval(w, h, m, args[i as int].value) {
            (m1, Err(s)) => (m1, Err(s)),
            (m1, Ok(FlowView::Val(v))) => read_args(w, h, m1, args, i + 1, acc.push(v)),
            (m1, Ok(f)) => (m1, Ok(Many::Leaves(f))),
        }
    }
}

/// A place is read without moving; anything else is evaluated.
#[verifier::opaque]
pub open spec fn read_or_eval<'t>(w: World<'t>, h: Here, m: State<'t>, e: Expr) -> Ev<'t>
    decreases h.depth, eval_level(h.in_defer), e, 4nat, 0nat,
{
    match place_of(w, h, m, e) {
        (m1, Err(s)) => (m1, Err(s)),
        (m1, Ok(Some(s))) => match m1.read_at(s, e.span) {
            Ok(v) => val(m1, v),
            Err(x) => stops(m1, x),
        },
        (m1, Ok(None)) => eval(w, h, m1, e),
    }
}

/// A place is taken (copied or moved out); anything else is evaluated.
#[verifier::opaque]
pub open spec fn take_or_eval<'t>(w: World<'t>, h: Here, m: State<'t>, e: Expr) -> Ev<'t>
    decreases h.depth, eval_level(h.in_defer), e, 4nat, 0nat,
{
    match place_of(w, h, m, e) {
        (m1, Err(s)) => (m1, Err(s)),
        (m1, Ok(Some(s))) => match m1.take_slot(s, e.span) {
            (m2, Ok(v)) => val(m2, v),
            (m2, Err(x)) => stops(m2, x),
        },
        (m1, Ok(None)) => eval(w, h, m1, e),
    }
}

// ---------------------------------------------------------------- scopes --

/// Run scope-exit duties, the first `n` of them, last declared first.
#[verifier::opaque]
pub open spec fn run_duties<'t>(
    w: World<'t>,
    h: Here,
    m: State<'t>,
    ds: Seq<Duty<'t>>,
    n: nat,
    on_error: bool,
) -> Did<'t>
    decreases h.depth, duty_level(h.in_defer), None::<nat>, n, 0nat,
{
    if n == 0 || n > ds.len() {
        (m, Ok(()))
    } else {
        match ds[n - 1] {
            Duty::Defer(e, is_err) => if (is_err && !on_error) || h.in_defer {
                run_duties(w, h, m, ds, (n - 1) as nat, on_error)
            } else {
                match eval(w, Here { in_defer: true, ..h }, m, *e) {
                    (m1, Err(s)) => (m1, Err(s)),
                    (m1, Ok(_)) => run_duties(w, h, m1, ds, (n - 1) as nat, on_error),
                }
            },
            Duty::DropLocal(i) => run_duties(
                w,
                h,
                match m.top_local(i) {
                    ValueView::Shared(c) => fewer_strong(m, c),
                    ValueView::Weak(c) => fewer_weak(m, c),
                    _ => m,
                },
                ds,
                (n - 1) as nat,
                on_error,
            ),
            Duty::FreeRegionLocal(i) => run_duties(
                w,
                h,
                match m.top_local(i) {
                    ValueView::Region(r) => if r < m.sh.regions.len() && m.sh.regions[r as int].live
                        && !m.sh.regions[r as int].frozen {
                        m.with_shadow(m.sh.free_region(r as int))
                    } else {
                        m
                    },
                    _ => m,
                },
                ds,
                (n - 1) as nat,
                on_error,
            ),
        }
    }
}

pub open spec fn fewer_strong<'t>(m: State<'t>, c: usize) -> State<'t> {
    if c < m.cells.len() && m.cells[c as int].strong > 0 {
        m.set_cell(
            c as int,
            RcCellView { strong: (m.cells[c as int].strong - 1) as u32, ..m.cells[c as int] },
        )
    } else {
        m
    }
}

pub open spec fn fewer_weak<'t>(m: State<'t>, c: usize) -> State<'t> {
    if c < m.cells.len() && m.cells[c as int].weak > 0 {
        m.set_cell(
            c as int,
            RcCellView { weak: (m.cells[c as int].weak - 1) as u32, ..m.cells[c as int] },
        )
    } else {
        m
    }
}

/// The duties of the innermost scope are taken from it.
pub open spec fn taken_duties<'t>(m: State<'t>) -> (State<'t>, Seq<Duty<'t>>) {
    if m.frames.len() == 0 || m.frames.last().scopes.len() == 0 {
        (m, Seq::empty())
    } else {
        let f = m.frames.last();
        let s = f.scopes.last();
        (
            m.with_top(
                FrameView {
                    scopes: f.scopes.update(
                        f.scopes.len() - 1,
                        ScopeView { duties: Seq::empty(), ..s },
                    ),
                    ..f
                },
            ),
            s.duties,
        )
    }
}

/// Run the innermost scope's duties and pop it.
#[verifier::opaque]
pub open spec fn close_scope<'t>(w: World<'t>, h: Here, m: State<'t>, on_error: bool) -> Did<'t>
    decreases h.depth, close_level(h.in_defer), None::<nat>, 0nat, 0nat,
{
    let (m1, ds) = taken_duties(m);
    match run_duties(w, h, m1, ds, ds.len(), on_error) {
        (m2, Err(s)) => (m2, Err(s)),
        (m2, Ok(_)) => (m2.pop_scope(), Ok(())),
    }
}

/// Close `n` scopes.
#[verifier::opaque]
pub open spec fn exit_scopes<'t>(w: World<'t>, h: Here, m: State<'t>, n: nat, on_error: bool) -> Did<
    't,
>
    decreases h.depth, close_level(h.in_defer), None::<nat>, n, 0nat,
{
    if n == 0 {
        (m, Ok(()))
    } else {
        match close_scope(w, h, m, on_error) {
            (m1, Err(s)) => (m1, Err(s)),
            (m1, Ok(_)) => exit_scopes(w, h, m1, (n - 1) as nat, on_error),
        }
    }
}

/// Close the innermost scope behind a flow.
#[verifier::opaque]
pub open spec fn leave<'t>(w: World<'t>, h: Here, m: State<'t>, f: FlowView) -> Ev<'t>
    decreases h.depth, close_level(h.in_defer), None::<nat>, 1nat, 0nat,
{
    match close_scope(w, h, m, f is Raise) {
        (m1, Err(s)) => (m1, Err(s)),
        (m1, Ok(_)) => (m1, Ok(f)),
    }
}

// ----------------------------------------------------------------- calls --

/// The name of argument `i`.
pub open spec fn param_name(ps: Seq<FnParam>, i: int) -> Seq<char> {
    if i < ps.len() {
        ps[i].name@
    } else {
        "_"@ + decimal(i as nat)
    }
}

/// A callee's frame: its arguments bound in one scope.
pub open spec fn entered<'t>(m: State<'t>, ps: Seq<FnParam>, args: Seq<ValueView>) -> State<'t> {
    State {
        frames: m.frames.push(
            FrameView {
                locals: args,
                scopes: seq![
                    ScopeView {
                        names: Seq::new(
                            args.len(),
                            |i: int| (param_name(ps, i), i as usize),
                        ),
                        duties: Seq::empty(),
                    },
                ],
                self_ty: m.pending_self,
                rigids: match m.pending_rigids {
                    Some(r) => r,
                    None => Seq::empty(),
                },
            },
        ),
        pending_self: None,
        pending_rigids: None,
        ..m
    }
}

pub open spec fn left<'t>(m: State<'t>) -> State<'t> {
    if m.frames.len() == 0 {
        m
    } else {
        State { frames: m.frames.drop_last(), ..m }
    }
}

pub open spec fn open_scopes(m: State<'_>) -> nat {
    if m.frames.len() == 0 {
        0
    } else {
        m.frames.last().scopes.len()
    }
}

/// Call a body with its argument values.
#[verifier::opaque]
pub open spec fn call_body<'t>(
    w: World<'t>,
    h: Here,
    m: State<'t>,
    body: int,
    args: Seq<ValueView>,
) -> Gave<'t>
    decreases h.depth, call_level(h.in_defer), None::<nat>, 0nat, 0nat,
{
    if h.depth == 0 {
        (m, Err(StopView::Budget(NO_DEPTH@)))
    } else if !(0 <= body < w.pkg.bodies@.len()) {
        (m, Err(StopView::Budget(NO_DEPTH@)))
    } else {
        match w.pkg.bodies@[body].kind {
            BodyKind::Fn(d) => match d.body {
                None => (m, Err(refused(NO_BODY@, d.span))),
                Some(block) => {
                    let inner = Here { body: body as usize, depth: (h.depth - 1) as usize, ..h };
                    let out = match eval_block(w, inner, entered(m, d.params@, args), block, true) {
                        (m1, Err(s)) => (m1, Err(s)),
                        (m1, Ok(FlowView::Val(v))) | (m1, Ok(FlowView::Return(v))) => closed_with(
                            exit_scopes(w, inner, m1, open_scopes(m1), false),
                            v,
                        ),
                        (m1, Ok(FlowView::Raise(v, _))) => closed_with(
                            exit_scopes(w, inner, m1, open_scopes(m1), true),
                            v,
                        ),
                        (m1, Ok(_)) => (m1, Ok(ValueView::Unit)),
                    };
                    (left(out.0), out.1)
                },
            },
            BodyKind::Init(e) => (m, Err(refused(NO_BODY@, e.span))),
        }
    }
}

pub open spec fn closed_with<'t>(d: Did<'t>, v: ValueView) -> Gave<'t> {
    match d {
        (m, Ok(_)) => (m, Ok(v)),
        (m, Err(s)) => (m, Err(s)),
    }
}

/// A call whose arguments were evaluated when `mark` protections were held:
/// those of its own arguments are released when it returns.
#[verifier::opaque]
pub open spec fn guarded_call<'t>(
    w: World<'t>,
    h: Here,
    m: State<'t>,
    body: int,
    args: Seq<ValueView>,
    mark: nat,
) -> Ev<'t>
    decreases h.depth, call_level(h.in_defer), None::<nat>, 1nat, 0nat,
{
    match call_body(w, h, m, body, args) {
        (m1, Err(s)) => (m1, Err(s)),
        (m1, Ok(v)) => returned((m1.released(mark), Ok(v))),
    }
}

/// What a call gives its caller: a row error rises.
pub open spec fn returned<'t>(g: Gave<'t>) -> Ev<'t> {
    match g {
        (m, Err(s)) => (m, Err(s)),
        (m, Ok(v)) => if v is ErrTag {
            (m, Ok(FlowView::Raise(v, false)))
        } else {
            val(m, v)
        },
    }
}

/// One argument under its declared mode: `mut` lends the place, `take`
/// moves, otherwise the value is read. Raw pointers are retagged; one that
/// is read is protected until the call returns.
#[verifier::opaque]
pub open spec fn eval_arg<'t>(
    w: World<'t>,
    h: Here,
    m: State<'t>,
    v: Expr,
    mode: Option<ParamMode>,
) -> Gave<'t>
    decreases h.depth, eval_level(h.in_defer), v, 6nat, 0nat,
{
    match v.kind {
        ExprKind::Prefix(PrefixOp::Mut, inner) | ExprKind::Prefix(PrefixOp::Take, inner) => arg_value(
            w,
            h,
            m,
            *inner,
            v.span,
            mode,
        ),
        _ => arg_value(w, h, m, v, v.span, mode),
    }
}

#[verifier::opaque]
pub open spec fn arg_value<'t>(
    w: World<'t>,
    h: Here,
    m: State<'t>,
    e: Expr,
    at: Span,
    mode: Option<ParamMode>,
) -> Gave<'t>
    decreases h.depth, eval_level(h.in_defer), e, 5nat, 0nat,
{
    match place_of(w, h, m, e) {
        (m1, Err(s)) => (m1, Err(s)),
        (m1, Ok(Some(s))) => match mode {
            Some(ParamMode::Take) => m1.take_slot(s, e.span),
            _ => match m1.read_at(s, e.span) {
                Err(x) => (m1, Err(x)),
                Ok(ValueView::Ptr(p)) => {
                    let (m2, q) = m1.lent(
                        p,
                        if mode is Some {
                            TagState::Active
                        } else {
                            TagState::Frozen
                        },
                        e.span,
                    );
                    (m2, Ok(ValueView::Ptr(q)))
                },
                Ok(v) => if mode is Some {
                    (m1, Ok(ValueView::Ref(s)))
                } else {
                    (m1, Ok(v))
                },
            },
        },
        (m1, Ok(None)) => match mode {
            Some(ParamMode::Mut) => (m1, Err(refused(MUT_OF_OTHER@, at))),
            _ => match eval(w, h, m1, e) {
                (m2, Err(s)) => (m2, Err(s)),
                (m2, Ok(FlowView::Val(v))) => (m2, Ok(v)),
                (m2, Ok(_)) => (m2, Err(refused(ARG_FLOW@, at))),
            },
        },
    }
}

pub open spec fn mode_of(sig: CallSig, i: nat) -> Option<ParamMode> {
    if i < sig.params@.len() {
        sig.params@[i as int].mode
    } else {
        None
    }
}

/// The arguments from `i` on under their declared modes; `skip` is the
/// parameter of argument 0.
#[verifier::opaque]
pub open spec fn moded_args<'t>(
    w: World<'t>,
    h: Here,
    m: State<'t>,
    sig: CallSig,
    args: Vec<Arg>,
    i: nat,
    skip: nat,
    acc: Seq<ValueView>,
) -> (State<'t>, Result<Seq<ValueView>, StopView>)
    decreases h.depth, eval_level(h.in_defer), args, args@.len() - i, 0nat,
{
    if i >= args@.len() {
        (m, Ok(acc))
    } else {
        match eval_arg(w, h, m, args[i as int].value, mode_of(sig, i + skip)) {
            (m1, Err(s)) => (m1, Err(s)),
            (m1, Ok(v)) => moded_args(w, h, m1, sig, args, i + 1, skip, acc.push(v)),
        }
    }
}

// ----------------------------------------------------------- expressions --

#[verifier::opaque]
pub open spec fn eval<'t>(w: World<'t>, h: Here, m: State<'t>, e: Expr) -> Ev<'t>
    decreases h.depth, eval_level(h.in_defer), e, 3nat, 0nat,
{
    match m.ticked() {
        (m1, Err(s)) => (m1, Err(s)),
        (m1, Ok(_)) => eval_kind(w, h, m1, e),
    }
}

#[verifier::opaque]
pub open spec fn eval_kind<'t>(w: World<'t>, h: Here, m: State<'t>, e: Expr) -> Ev<'t>
    decreases h.depth, eval_level(h.in_defer), e, 2nat, 0nat,
{
    match e.kind {
        ExprKind::Literal { .. } => eval_literal(w, h, m, e),
        ExprKind::Str(_) => eval_string(w, h, m, e),
        ExprKind::Paren(inner, _) => eval(w, h, m, *inner),
        ExprKind::Path(_) | ExprKind::Member(..) => eval_named(w, h, m, e),
        ExprKind::Bracket { .. } => eval_index(w, h, m, e),
        ExprKind::Tuple(_) => eval_tuple(w, h, m, e),
        ExprKind::Block(b) => eval_block(w, h, m, b, true),
        ExprKind::Prefix(..) => eval_prefix(w, h, m, e),
        ExprKind::Bin(..) => eval_bin(w, h, m, e),
        ExprKind::Cast(..) => eval_cast(w, h, m, e),
        ExprKind::Range { .. } => eval_range(w, h, m, e),
        ExprKind::Try(_) => eval_try(w, h, m, e),
        ExprKind::Call { .. } => eval_call(w, h, m, e),
        ExprKind::StructLit(_) => eval_struct(w, h, m, e),
        ExprKind::If { .. } => eval_if(w, h, m, e),
        ExprKind::Match { .. } => eval_match(w, h, m, e),
        ExprKind::While { .. } => eval_while(w, h, m, e),
        ExprKind::For { .. } => eval_for(w, h, m, e),
        ExprKind::Loop(_) => eval_loop(w, h, m, e),
        ExprKind::Else { .. } => eval_else(w, h, m, e),
        ExprKind::Return(_) => eval_return(w, h, m, e),
        ExprKind::Break => (m, Ok(FlowView::Break)),
        ExprKind::Continue => (m, Ok(FlowView::Continue)),
        ExprKind::Unsafe { body, .. } => eval_block(w, h, m, body, true),
        ExprKind::RegionBlock { .. } => eval_region_block(w, h, m, e),
        ExprKind::RegionValue(_) => val(
            m.with_shadow(m.sh.new_region(e.span)),
            ValueView::Region(m.sh.regions.len() as usize),
        ),
        ExprKind::In { .. } => eval_in(w, h, m, e),
        ExprKind::Freeze(_) => eval_freeze(w, h, m, e),
        ExprKind::Borrow { .. } => eval_door(w, h, m, e),
        ExprKind::Closure { .. } => stops(m, refused(NO_CLOSURE@, e.span)),
        ExprKind::Scope { .. }
        | ExprKind::Select(_)
        | ExprKind::When { .. }
        | ExprKind::Spawn(_) => stops(m, refused(NO_CONCURRENCY@, e.span)),
        ExprKind::InlineCode => stops(m, refused(NO_INLINE@, e.span)),
        _ => stops(m, refused(NO_SHAPE@, e.span)),
    }
}

pub open spec fn eval_literal<'t>(w: World<'t>, h: Here, m: State<'t>, e: Expr) -> Ev<'t> {
    match e.kind {
        ExprKind::Literal { char_value, float_bits } => match literal_value(
            w,
            h,
            e,
            char_value,
            float_bits,
        ) {
            Ok(v) => val(m, v),
            Err(s) => stops(m, s),
        },
        _ => unit(m),
    }
}

/// The holes of a string from `i` on, rendered.
#[verifier::opaque]
pub open spec fn eval_holes<'t>(
    w: World<'t>,
    h: Here,
    m: State<'t>,
    hs: Vec<Hole>,
    i: nat,
    acc: Seq<(u32, u32, Seq<u8>)>,
) -> (State<'t>, Result<(Seq<(u32, u32, Seq<u8>)>, Option<FlowView>), StopView>)
    decreases h.depth, eval_level(h.in_defer), hs, hs@.len() - i, 0nat,
{
    if i >= hs@.len() {
        (m, Ok((acc, None)))
    } else {
        let hole = hs[i as int];
        match hole.expr {
            None => eval_holes(w, h, m, hs, i + 1, acc.push((hole.lo, hole.hi, Seq::empty()))),
            Some(x) => match read_or_eval(w, h, m, x) {
                (m1, Err(s)) => (m1, Err(s)),
                (m1, Ok(FlowView::Val(v))) => match rendered(w, m1, hole, v, x.span) {
                    (m2, Err(s)) => (m2, Err(s)),
                    (m2, Ok(b)) => eval_holes(
                        w,
                        h,
                        m2,
                        hs,
                        i + 1,
                        acc.push((hole.lo, hole.hi, b)),
                    ),
                },
                (m1, Ok(f)) => (m1, Ok((acc, Some(f)))),
            },
        }
    }
}

/// A hole's value, rendered under its spec.
pub open spec fn rendered<'t>(w: World<'t>, m: State<'t>, hole: Hole, v: ValueView, at: Span) -> (
    State<'t>,
    Result<Seq<u8>, StopView>,
) {
    match show_value(w, m, v, at) {
        (m1, Err(s)) => (m1, Err(s)),
        (m1, Ok(b)) => match hole.spec {
            Some(spec) => crate::semantics::apply_spec(w, m1, spec, v, b),
            None => (m1, Ok(b)),
        },
    }
}

#[verifier::opaque]
pub open spec fn eval_string<'t>(w: World<'t>, h: Here, m: State<'t>, e: Expr) -> Ev<'t>
    decreases h.depth, eval_level(h.in_defer), e, 1nat, 0nat,
{
    match e.kind {
        ExprKind::Str(hs) => match eval_holes(w, h, m, hs, 0, Seq::empty()) {
            (m1, Err(s)) => (m1, Err(s)),
            (m1, Ok((_, Some(f)))) => (m1, Ok(f)),
            (m1, Ok((parts, None))) => match string_value(encode_utf8(e.text@), parts, e.span) {
                Ok(v) => val(m1, v),
                Err(s) => stops(m1, s),
            },
        },
        _ => unit(m),
    }
}

/// A path or member in value position: a place is taken, a declared row
/// tag rises, an item is looked up.
#[verifier::opaque]
pub open spec fn eval_named<'t>(w: World<'t>, h: Here, m: State<'t>, e: Expr) -> Ev<'t>
    decreases h.depth, eval_level(h.in_defer), e, 1nat, 0nat,
{
    match place_of(w, h, m, e) {
        (m1, Err(s)) => (m1, Err(s)),
        (m1, Ok(Some(s))) => match m1.take_slot(s, e.span) {
            (m2, Ok(v)) => val(m2, v),
            (m2, Err(x)) => stops(m2, x),
        },
        (m1, Ok(None)) => match e.kind {
            ExprKind::Path(name) => if raises_tag(w, h, e, e.text@) {
                (m1, Ok(FlowView::Raise(tagged(e.text@), false)))
            } else {
                item_value(w, h, m1, e)
            },
            ExprKind::Member(base, member) => match qualified_fn(w, h, m1, e) {
                Some(b) => val(m1, ValueView::Fn(b as usize)),
                None => match eval(w, h, m1, *base) {
                    (m2, Ok(FlowView::Val(v))) => project(m2, v, member@, e.span),
                    r => r,
                },
            },
            _ => stops(m1, refused(NO_ITEM@, e.span)),
        },
    }
}

/// The module an imported name stands for, from `i` on.
pub open spec fn import_at(v: Seq<(String, u32)>, name: Seq<char>, i: int) -> Option<u32>
    decreases v.len() - i,
{
    if i >= v.len() {
        None
    } else if v[i].0@ == name {
        Some(v[i].1)
    } else {
        import_at(v, name, i + 1)
    }
}

/// A qualified function in value position: the base names an imported
/// module that no local shadows.
pub open spec fn qualified_fn(w: World<'_>, h: Here, m: State<'_>, e: Expr) -> Option<int> {
    if !(kind_at(w, h, e) matches Some(TyKind::Fn(..))) {
        None
    } else {
        match e.kind {
            ExprKind::Member(base, member) => match base.kind {
                ExprKind::Path(name) => if !crate::text::has_infix(name@, "."@) && m.lookup(name@)
                    is None {
                    match import_at(w.pkg.bodies@[h.body as int].imports@, name@, 0) {
                        Some(target) => module_fn(w.pkg, target, member@),
                        None => None,
                    }
                } else {
                    None
                },
                _ => None,
            },
            _ => None,
        }
    }
}

/// A name that is no local: a function in value position.
pub open spec fn item_value<'t>(w: World<'t>, h: Here, m: State<'t>, e: Expr) -> Ev<'t> {
    let name = e.text@;
    if kind_at(w, h, e) matches Some(TyKind::Fn(..)) && simple_name(name) {
        let found = match module_fn(w.pkg, w.pkg.bodies@[h.body as int].module, name) {
            Some(b) => Some(b),
            None => any_fn(w.pkg, name, 0),
        };
        match found {
            Some(b) => val(m, ValueView::Fn(b as usize)),
            None => stops(m, refused(NO_ITEM@, e.span)),
        }
    } else {
        stops(m, refused(NO_ITEM@, e.span))
    }
}

/// `x[i]`: raw memory, a string slice, a container element.
#[verifier::opaque]
pub open spec fn eval_index<'t>(w: World<'t>, h: Here, m: State<'t>, e: Expr) -> Ev<'t>
    decreases h.depth, eval_level(h.in_defer), e, 1nat, 0nat,
{
    match e.kind {
        ExprKind::Bracket { callee, args, one_origin } => match kind_at(w, h, *callee) {
            Some(TyKind::Ptr(_)) => raw_index_read(w, h, m, e),
            Some(TyKind::Prim(Prim::Str)) => eval_str_slice(w, h, m, e),
            k => match place_of(w, h, m, e) {
                (m1, Err(s)) => (m1, Err(s)),
                (m1, Ok(Some(s))) => match m1.read_at(s, e.span) {
                    Ok(v) => val(m1, v),
                    Err(x) => stops(m1, x),
                },
                (m1, Ok(None)) => if k matches Some(TyKind::List(_)) {
                    match eval(w, h, m1, *callee) {
                        (m2, Ok(FlowView::Val(base))) => if args@.len() == 0 {
                            stops(m2, refused(NO_OPERAND@, e.span))
                        } else {
                            match eval(w, h, m2, args[0]) {
                                (m3, Ok(FlowView::Val(ValueView::Int(i)))) => match shift_origin(
                                    i,
                                    one_origin,
                                    e.span,
                                ) {
                                    Err(x) => stops(m3, x),
                                    Ok(k) => match m3.walk_read(
                                        base,
                                        seq![
                                            PStepView::ListIdx { index: k, span: args[0].span },
                                        ],
                                        0,
                                        e.span,
                                    ) {
                                        Ok(v) => val(m3, v),
                                        Err(x) => stops(m3, x),
                                    },
                                },
                                (m3, Ok(FlowView::Val(_))) => stops(
                                    m3,
                                    refused(NO_INT_INDEX@, e.span),
                                ),
                                r => r,
                            }
                        },
                        r => r,
                    }
                } else {
                    stops(m1, refused(NO_INDEX@, e.span))
                },
            },
        },
        _ => unit(m),
    }
}

#[verifier::opaque]
pub open spec fn eval_tuple<'t>(w: World<'t>, h: Here, m: State<'t>, e: Expr) -> Ev<'t>
    decreases h.depth, eval_level(h.in_defer), e, 1nat, 0nat,
{
    match e.kind {
        ExprKind::Tuple(es) => match eval_exprs(w, h, m, es, 0, Seq::empty()) {
            (m1, Err(s)) => (m1, Err(s)),
            (m1, Ok(Many::Leaves(f))) => (m1, Ok(f)),
            (m1, Ok(Many::All(vs))) => val(m1, ValueView::Struct(positional(vs))),
        },
        _ => unit(m),
    }
}

/// A tuple is a struct with numbered fields.
pub open spec fn positional(vs: Seq<ValueView>) -> Seq<(Seq<char>, ValueView)> {
    Seq::new(vs.len(), |i: int| (decimal(i as nat), vs[i]))
}

/// The field initializers from `i` on.
#[verifier::opaque]
pub open spec fn eval_fields<'t>(
    w: World<'t>,
    h: Here,
    m: State<'t>,
    fs: Vec<FieldInit>,
    i: nat,
    acc: Seq<ValueView>,
) -> Mn<'t>
    decreases h.depth, eval_level(h.in_defer), fs, fs@.len() - i, 0nat,
{
    if i >= fs@.len() {
        (m, Ok(Many::All(acc)))
    } else {
        match eval(w, h, m, fs[i as int].value) {
            (m1, Err(s)) => (m1, Err(s)),
            (m1, Ok(FlowView::Val(v))) => eval_fields(w, h, m1, fs, i + 1, acc.push(v)),
            (m1, Ok(f)) => (m1, Ok(Many::Leaves(f))),
        }
    }
}

#[verifier::opaque]
pub open spec fn eval_struct<'t>(w: World<'t>, h: Here, m: State<'t>, e: Expr) -> Ev<'t>
    decreases h.depth, eval_level(h.in_defer), e, 1nat, 0nat,
{
    match e.kind {
        ExprKind::StructLit(fs) => match eval_fields(w, h, m, fs, 0, Seq::empty()) {
            (m1, Err(s)) => (m1, Err(s)),
            (m1, Ok(Many::Leaves(f))) => (m1, Ok(f)),
            (m1, Ok(Many::All(vs))) => val(
                m1,
                ValueView::Struct(Seq::new(vs.len(), |i: int| (fs@[i].name@, vs[i]))),
            ),
        },
        _ => unit(m),
    }
}

/// A range from its endpoints as they are written: a lone one is the
/// start, and what is not written is zero. An inclusive one whose end has
/// no successor traps.
#[verifier::opaque]
pub open spec fn eval_range<'t>(w: World<'t>, h: Here, m: State<'t>, e: Expr) -> Ev<'t>
    decreases h.depth, eval_level(h.in_defer), e, 1nat, 0nat,
{
    match e.kind {
        ExprKind::Range { start, end, inclusive } => {
            let first = match start {
                Some(x) => eval(w, h, m, *x),
                None => match end {
                    Some(x) => eval(w, h, m, *x),
                    None => val(m, ValueView::Int(0)),
                },
            };
            match first {
                (m1, Ok(FlowView::Val(a))) => {
                    let second = match start {
                        Some(_) => match end {
                            Some(x) => eval(w, h, m1, *x),
                            None => val(m1, ValueView::Int(0)),
                        },
                        None => val(m1, ValueView::Int(0)),
                    };
                    match second {
                        (m2, Ok(FlowView::Val(b))) => match (a, b) {
                            (ValueView::Int(s), ValueView::Int(z)) => if !inclusive {
                                val(m2, ValueView::Range { start: s, end: z })
                            } else if z == i64::MAX {
                                stops(m2, trapped("overflow"@, "mem.ub.defined"@, e.span))
                            } else {
                                val(m2, ValueView::Range { start: s, end: (z + 1) as i64 })
                            },
                            _ => stops(m2, refused(NO_INT_RANGE@, e.span)),
                        },
                        r => r,
                    }
                },
                r => r,
            }
        },
        _ => unit(m),
    }
}

/// `?` propagates a row error, as a flow or as a bound value.
#[verifier::opaque]
pub open spec fn eval_try<'t>(w: World<'t>, h: Here, m: State<'t>, e: Expr) -> Ev<'t>
    decreases h.depth, eval_level(h.in_defer), e, 1nat, 0nat,
{
    match e.kind {
        ExprKind::Try(x) => match eval(w, h, m, *x) {
            (m1, Ok(FlowView::Raise(v, _))) => (m1, Ok(FlowView::Raise(v, true))),
            (m1, Ok(FlowView::Val(v))) => if v is ErrTag {
                (m1, Ok(FlowView::Raise(v, true)))
            } else {
                val(m1, v)
            },
            r => r,
        },
        _ => unit(m),
    }
}

#[verifier::opaque]
pub open spec fn eval_return<'t>(w: World<'t>, h: Here, m: State<'t>, e: Expr) -> Ev<'t>
    decreases h.depth, eval_level(h.in_defer), e, 1nat, 0nat,
{
    match e.kind {
        ExprKind::Return(Some(x)) => match eval(w, h, m, *x) {
            (m1, Ok(FlowView::Val(v))) => (m1, Ok(FlowView::Return(v))),
            (m1, Ok(FlowView::Raise(v, _))) => (m1, Ok(FlowView::Raise(v, true))),
            r => r,
        },
        _ => (m, Ok(FlowView::Return(ValueView::Unit))),
    }
}

#[verifier::opaque]
pub open spec fn eval_if<'t>(w: World<'t>, h: Here, m: State<'t>, e: Expr) -> Ev<'t>
    decreases h.depth, eval_level(h.in_defer), e, 1nat, 0nat,
{
    match e.kind {
        ExprKind::If { cond, then_block, els } => match eval(w, h, m, *cond) {
            (m1, Ok(FlowView::Val(v))) => match v {
                ValueView::Bool(true) => eval_block(w, h, m1, then_block, true),
                ValueView::Bool(false) => match els {
                    Some(x) => match x.kind {
                        ExprKind::Block(b) => eval_block(w, h, m1, b, true),
                        _ => eval(w, h, m1, *x),
                    },
                    None => unit(m1),
                },
                _ => stops(m1, refused(NO_CONDITION@, e.span)),
            },
            r => r,
        },
        _ => unit(m),
    }
}

/// The arms from `i` on against the scrutinee's value.
#[verifier::opaque]
pub open spec fn eval_arms<'t>(
    w: World<'t>,
    h: Here,
    m: State<'t>,
    arms: Vec<Arm>,
    i: nat,
    v: ValueView,
    domain: Option<Seq<Seq<char>>>,
) -> Ev<'t>
    decreases h.depth, eval_level(h.in_defer), arms, arms@.len() - i, 0nat,
{
    if i >= arms@.len() {
        unit(m)
    } else {
        let arm = arms[i as int];
        match arm.pattern {
            None => eval_arms(w, h, m, arms, i + 1, v, domain),
            Some(p) => match match_pattern(p, v, domain) {
                Matched::Refused(s) => stops(m, s),
                Matched::No => eval_arms(w, h, m, arms, i + 1, v, domain),
                hit => {
                    let m1 = match hit {
                        Matched::Binds(name) => m.push_scope().declare(name, v),
                        _ => m.push_scope(),
                    };
                    match arm.guard {
                        None => eval_arm_body(w, h, m1, arm),
                        Some(g) => match eval(w, h, m1, g) {
                            (m2, Err(s)) => (m2, Err(s)),
                            (m2, Ok(FlowView::Val(ValueView::Bool(true)))) => eval_arm_body(
                                w,
                                h,
                                m2,
                                arm,
                            ),
                            (m2, Ok(FlowView::Val(_))) => match close_scope(w, h, m2, false) {
                                (m3, Err(s)) => (m3, Err(s)),
                                (m3, Ok(_)) => eval_arms(w, h, m3, arms, i + 1, v, domain),
                            },
                            (m2, Ok(f)) => match close_scope(w, h, m2, false) {
                                (m3, Err(s)) => (m3, Err(s)),
                                (m3, Ok(_)) => (m3, Ok(f)),
                            },
                        },
                    }
                },
            },
        }
    }
}

#[verifier::opaque]
pub open spec fn eval_arm_body<'t>(w: World<'t>, h: Here, m: State<'t>, arm: Arm) -> Ev<'t>
    decreases h.depth, eval_level(h.in_defer), arm, 0nat, 0nat,
{
    let out = match arm.body {
        Some(x) => eval(w, h, m, x),
        None => unit(m),
    };
    match out {
        (m1, Err(s)) => (m1, Err(s)),
        (m1, Ok(f)) => leave(w, h, m1, f),
    }
}

#[verifier::opaque]
pub open spec fn eval_match<'t>(w: World<'t>, h: Here, m: State<'t>, e: Expr) -> Ev<'t>
    decreases h.depth, eval_level(h.in_defer), e, 1nat, 0nat,
{
    match e.kind {
        ExprKind::Match { scrutinee, arms } => match eval(w, h, m, *scrutinee) {
            (m1, Ok(FlowView::Val(v))) => eval_arms(
                w,
                h,
                m1,
                arms,
                0,
                v,
                domain_of(w, h, *scrutinee),
            ),
            r => r,
        },
        _ => unit(m),
    }
}

/// How many more iterations the step budget allows.
pub open spec fn laps(m: State<'_>) -> nat {
    if m.steps < m.step_limit {
        (m.step_limit - m.steps + 1) as nat
    } else {
        1
    }
}

/// A `while`, at most `n` laps: every lap costs a step.
pub open spec fn while_laps<'t>(w: World<'t>, h: Here, m: State<'t>, e: Expr, n: nat) -> Ev<'t>
    decreases h.depth, eval_level(h.in_defer), e, 0nat, n,
{
    match e.kind {
        ExprKind::While { cond, body } => if n == 0 {
            stops(m, StopView::Budget(NO_STEPS@))
        } else {
            match m.ticked() {
                (m1, Err(s)) => (m1, Err(s)),
                (m1, Ok(_)) => match eval(w, h, m1, *cond) {
                    (m2, Ok(FlowView::Val(ValueView::Bool(true)))) => match eval_block(
                        w,
                        h,
                        m2,
                        body,
                        false,
                    ) {
                        (m3, Ok(FlowView::Break)) => unit(m3),
                        (m3, Ok(FlowView::Continue)) | (m3, Ok(FlowView::Val(_))) => while_laps(
                            w,
                            h,
                            m3,
                            e,
                            (n - 1) as nat,
                        ),
                        r => r,
                    },
                    (m2, Ok(FlowView::Val(ValueView::Bool(false)))) => unit(m2),
                    (m2, Ok(FlowView::Val(_))) => stops(m2, refused(NO_CONDITION@, e.span)),
                    r => r,
                },
            }
        },
        _ => unit(m),
    }
}

#[verifier::opaque]
pub open spec fn eval_while<'t>(w: World<'t>, h: Here, m: State<'t>, e: Expr) -> Ev<'t>
    decreases h.depth, eval_level(h.in_defer), e, 1nat, 0nat,
{
    while_laps(w, h, m, e, laps(m))
}

/// A `loop`, at most `n` laps.
pub open spec fn loop_laps<'t>(w: World<'t>, h: Here, m: State<'t>, e: Expr, n: nat) -> Ev<'t>
    decreases h.depth, eval_level(h.in_defer), e, 0nat, n,
{
    match e.kind {
        ExprKind::Loop(body) => if n == 0 {
            stops(m, StopView::Budget(NO_STEPS@))
        } else {
            match m.ticked() {
                (m1, Err(s)) => (m1, Err(s)),
                (m1, Ok(_)) => match eval_block(w, h, m1, body, false) {
                    (m2, Ok(FlowView::Break)) => unit(m2),
                    (m2, Ok(FlowView::Continue)) | (m2, Ok(FlowView::Val(_))) => loop_laps(
                        w,
                        h,
                        m2,
                        e,
                        (n - 1) as nat,
                    ),
                    r => r,
                },
            }
        },
        _ => unit(m),
    }
}

#[verifier::opaque]
pub open spec fn eval_loop<'t>(w: World<'t>, h: Here, m: State<'t>, e: Expr) -> Ev<'t>
    decreases h.depth, eval_level(h.in_defer), e, 1nat, 0nat,
{
    loop_laps(w, h, m, e, laps(m))
}

/// What a `for` walks: a range or a list, as they are at entry.
pub enum Items {
    Range(i64, i64),
    List(Seq<ValueView>),
}

impl Items {
    pub open spec fn count(self) -> nat {
        match self {
            Items::Range(a, b) => if a < b {
                (b - a) as nat
            } else {
                0
            },
            Items::List(s) => s.len(),
        }
    }

    pub open spec fn item(self, i: int) -> ValueView {
        match self {
            Items::Range(a, _) => ValueView::Int((a + i) as i64),
            Items::List(s) => s[i],
        }
    }
}

/// The items from `i` on.
#[verifier::opaque]
pub open spec fn for_items<'t>(
    w: World<'t>,
    h: Here,
    m: State<'t>,
    e: Expr,
    items: Items,
    i: nat,
) -> Ev<'t>
    decreases h.depth, eval_level(h.in_defer), e, 0nat, items.count() - i,
{
    match e.kind {
        ExprKind::For { pattern, body, .. } => if i >= items.count() {
            unit(m)
        } else {
            match m.ticked() {
                (m1, Err(s)) => (m1, Err(s)),
                (m1, Ok(_)) => {
                    let bound = match pattern {
                        Some(p) => bind_pattern(m1.push_scope(), p, items.item(i as int)),
                        None => (m1.push_scope(), Ok(())),
                    };
                    match bound {
                        (m2, Err(s)) => (m2, Err(s)),
                        (m2, Ok(_)) => match eval_block(w, h, m2, body, false) {
                            (m3, Err(s)) => (m3, Err(s)),
                            (m3, Ok(FlowView::Break)) => match close_scope(w, h, m3, false) {
                                (m4, Err(s)) => (m4, Err(s)),
                                (m4, Ok(_)) => unit(m4),
                            },
                            (m3, Ok(FlowView::Continue)) | (m3, Ok(FlowView::Val(_))) => match close_scope(
                                w,
                                h,
                                m3,
                                false,
                            ) {
                                (m4, Err(s)) => (m4, Err(s)),
                                (m4, Ok(_)) => for_items(w, h, m4, e, items, i + 1),
                            },
                            (m3, Ok(f)) => leave(w, h, m3, f),
                        },
                    }
                },
            }
        },
        _ => unit(m),
    }
}

#[verifier::opaque]
pub open spec fn eval_for<'t>(w: World<'t>, h: Here, m: State<'t>, e: Expr) -> Ev<'t>
    decreases h.depth, eval_level(h.in_defer), e, 1nat, 0nat,
{
    match e.kind {
        ExprKind::For { iterable, .. } => match read_or_eval(w, h, m, *iterable) {
            (m1, Ok(FlowView::Val(v))) => match v {
                ValueView::Range { start, end } => for_items(
                    w,
                    h,
                    m1,
                    e,
                    Items::Range(start, end),
                    0,
                ),
                ValueView::List(id) => if id < m1.lists.len() {
                    for_items(w, h, m1, e, Items::List(m1.lists[id as int]), 0)
                } else {
                    stops(m1, refused(NO_ITERATION@, e.span))
                },
                _ => stops(m1, refused(NO_ITERATION@, e.span)),
            },
            r => r,
        },
        _ => unit(m),
    }
}

/// `else` catches a row error, as a flow or as a bound value.
#[verifier::opaque]
pub open spec fn eval_else<'t>(w: World<'t>, h: Here, m: State<'t>, e: Expr) -> Ev<'t>
    decreases h.depth, eval_level(h.in_defer), e, 1nat, 0nat,
{
    match e.kind {
        ExprKind::Else { scrutinized, .. } => match eval(w, h, m, *scrutinized) {
            (m1, Ok(FlowView::Raise(v, _))) => eval_handler(w, h, m1, e, v),
            (m1, Ok(FlowView::Val(v))) => if v is ErrTag {
                eval_handler(w, h, m1, e, v)
            } else {
                val(m1, v)
            },
            r => r,
        },
        _ => unit(m),
    }
}

#[verifier::opaque]
pub open spec fn eval_handler<'t>(
    w: World<'t>,
    h: Here,
    m: State<'t>,
    e: Expr,
    err: ValueView,
) -> Ev<'t>
    decreases h.depth, eval_level(h.in_defer), e, 0nat, 0nat,
{
    match e.kind {
        ExprKind::Else { handler, fallback, .. } => {
            let bound = match handler {
                Some(p) => bind_handler(m.push_scope(), p, err),
                None => (m.push_scope(), Ok(())),
            };
            match bound {
                (m1, Err(s)) => (m1, Err(s)),
                (m1, Ok(_)) => {
                    let out = match fallback {
                        Some(x) => eval(w, h, m1, *x),
                        None => unit(m1),
                    };
                    match out {
                        (m2, Err(s)) => (m2, Err(s)),
                        (m2, Ok(f)) => leave(w, h, m2, f),
                    }
                },
            }
        },
        _ => unit(m),
    }
}

/// `-<integer literal>` is the negated value in one step.
pub open spec fn negative_literal(w: World<'_>, h: Here, x: Expr) -> Option<int> {
    let text = x.text@;
    let float = match kind_at(w, h, x) {
        Some(TyKind::Prim(Prim::F64)) | Some(TyKind::Prim(Prim::F32)) => true,
        _ => false,
    };
    if x.kind is Literal && !float && wrap_at(w, h, x) is None && !(text.len() > 0 && text[0]
        == '\'') && text != "true"@ && text != "false"@ {
        match uint_literal(text) {
            Some(n) => Some(-n),
            None => None,
        }
    } else {
        None
    }
}

#[verifier::opaque]
pub open spec fn eval_prefix<'t>(w: World<'t>, h: Here, m: State<'t>, e: Expr) -> Ev<'t>
    decreases h.depth, eval_level(h.in_defer), e, 1nat, 0nat,
{
    match e.kind {
        ExprKind::Prefix(op, x) => match op {
            PrefixOp::Copy => match read_or_eval(w, h, m, *x) {
                (m1, Ok(FlowView::Val(v))) => match deep_copy(m1, v, m1.lists.len() + 1) {
                    (m2, Ok(c)) => val(m2, c),
                    (m2, Err(s)) => stops(m2, s),
                },
                r => r,
            },
            PrefixOp::Move => take_or_eval(w, h, m, *x),
            PrefixOp::Shared => match eval(w, h, m, *x) {
                (m1, Ok(FlowView::Val(v))) => val(
                    State {
                        cells: m1.cells.push(RcCellView { strong: 1, weak: 0, value: v }),
                        ..m1
                    },
                    ValueView::Shared(m1.cells.len() as usize),
                ),
                r => r,
            },
            PrefixOp::Minus => match negative_literal(w, h, *x) {
                Some(n) => if n >= i64::MIN {
                    val(m, ValueView::Int(n as i64))
                } else {
                    stops(m, refused(crate::semantics::NO_LITERAL@, e.span))
                },
                None => match eval(w, h, m, *x) {
                    (m1, Ok(FlowView::Val(v))) => match v {
                        ValueView::Int(n) => if n == i64::MIN {
                            stops(m1, trapped("overflow"@, "mem.ub.defined"@, e.span))
                        } else {
                            val(m1, ValueView::Int((-n) as i64))
                        },
                        ValueView::F64(b) => val(
                            m1,
                            ValueView::F64(b ^ 0x8000_0000_0000_0000),
                        ),
                        _ => stops(m1, refused(NO_NEGATION@, e.span)),
                    },
                    r => r,
                },
            },
            PrefixOp::Not => match eval(w, h, m, *x) {
                (m1, Ok(FlowView::Val(v))) => match v {
                    ValueView::Bool(b) => val(m1, ValueView::Bool(!b)),
                    _ => stops(m1, refused(NO_NOT@, e.span)),
                },
                r => r,
            },
            _ => eval(w, h, m, *x),
        },
        _ => unit(m),
    }
}

#[verifier::opaque]
pub open spec fn eval_bin<'t>(w: World<'t>, h: Here, m: State<'t>, e: Expr) -> Ev<'t>
    decreases h.depth, eval_level(h.in_defer), e, 1nat, 0nat,
{
    match e.kind {
        ExprKind::Bin(op, l, r) => match eval(w, h, m, *l) {
            (m1, Ok(FlowView::Val(a))) => if op is AndAnd || op is OrOr {
                match a {
                    ValueView::Bool(b) => if b == (op is OrOr) {
                        val(m1, a)
                    } else {
                        eval(w, h, m1, *r)
                    },
                    _ => stops(m1, refused(NO_LOGIC@, e.span)),
                }
            } else {
                match eval(w, h, m1, *r) {
                    (m2, Ok(FlowView::Val(b))) => bin_values(w, h, m2, e, op, a, b),
                    x => x,
                }
            },
            x => x,
        },
        _ => unit(m),
    }
}

#[verifier::opaque]
pub open spec fn eval_cast<'t>(w: World<'t>, h: Here, m: State<'t>, e: Expr) -> Ev<'t>
    decreases h.depth, eval_level(h.in_defer), e, 1nat, 0nat,
{
    match e.kind {
        ExprKind::Cast(x, info) => match info {
            Some(c) => match c.kind {
                CastKind::Raw => match read_or_eval(w, h, m, *x) {
                    (m1, Ok(FlowView::Val(v))) => bridge(
                        m1,
                        table_at(w, h, c.from),
                        table_at(w, h, c.to),
                        v,
                        e.span,
                    ),
                    r => r,
                },
                CastKind::CharToInt => match eval(w, h, m, *x) {
                    (m1, Ok(FlowView::Val(v))) => match v {
                        ValueView::Char(ch) => val(m1, ValueView::Int((ch as u32) as i64)),
                        _ => stops(m1, refused(NO_CHAR_CAST@, e.span)),
                    },
                    r => r,
                },
                CastKind::IntToChar => match eval(w, h, m, *x) {
                    (m1, Ok(FlowView::Val(v))) => match v {
                        ValueView::Int(n) => if 0 <= n <= u32::MAX && is_scalar(n as u32) {
                            val(m1, ValueView::Char(char_of(n as u32)))
                        } else {
                            stops(m1, trapped("overflow"@, "type.char.cast"@, e.span))
                        },
                        _ => stops(m1, refused(NO_INT_CAST@, e.span)),
                    },
                    r => r,
                },
                CastKind::Unsize => match read_or_eval(w, h, m, *x) {
                    (m1, Ok(FlowView::Val(v))) => match kind_at(w, h, *x) {
                        Some(TyKind::Nominal { name, .. }) => val(
                            m1,
                            ValueView::Dyn { concrete: name@, inner: Box::new(v) },
                        ),
                        _ => stops(m1, refused(NO_UNSIZE@, e.span)),
                    },
                    r => r,
                },
                CastKind::Value => eval_value_cast(w, h, m, e),
            },
            None => eval_value_cast(w, h, m, e),
        },
        _ => unit(m),
    }
}

/// The character of a scalar value.
pub open spec fn char_of(n: u32) -> char {
    n as char
}

pub open spec fn table_at(w: World<'_>, h: Here, id: crate::types::TyId) -> Option<TyKind> {
    if h.body < w.pkg.bodies@.len() {
        w.pkg.bodies@[h.body as int].table.at(id)
    } else {
        None
    }
}

#[verifier::opaque]
pub open spec fn eval_value_cast<'t>(w: World<'t>, h: Here, m: State<'t>, e: Expr) -> Ev<'t>
    decreases h.depth, eval_level(h.in_defer), e, 0nat, 0nat,
{
    match e.kind {
        ExprKind::Cast(x, _) => match eval(w, h, m, *x) {
            (m1, Ok(FlowView::Val(v))) => match v {
                ValueView::Int(n) => match cast_int(w, h, e, *x, n) {
                    Ok(r) => val(m1, r),
                    Err(s) => stops(m1, s),
                },
                _ => val(m1, v),
            },
            r => r,
        },
        _ => unit(m),
    }
}

/// A sugar region block: created, opened, named inside, freed at the
/// brace.
#[verifier::opaque]
pub open spec fn eval_region_block<'t>(w: World<'t>, h: Here, m: State<'t>, e: Expr) -> Ev<'t>
    decreases h.depth, eval_level(h.in_defer), e, 1nat, 0nat,
{
    match e.kind {
        ExprKind::RegionBlock { name, body, .. } => {
            let rid = m.sh.regions.len() as usize;
            let m0 = m.with_shadow(m.sh.new_region(e.span)).push_ambient(rid).push_scope();
            let m1 = match name {
                Some(b) => m0.declare(b.name@, ValueView::Region(rid)),
                None => m0,
            };
            match eval_block(w, h, m1, body, true) {
                (m2, Err(StopView::Ask(q))) => (m2, Err(StopView::Ask(q))),
                (m2, out) => {
                    let raised = out matches Ok(f) && f is Raise;
                    match close_scope(w, h, m2, raised) {
                        (m3, Err(s)) => (m3, Err(s)),
                        (m3, Ok(_)) => {
                            let m4 = m3.pop_ambient();
                            (m4.with_shadow(m4.sh.free_region(rid as int)), out)
                        },
                    }
                },
            }
        },
        _ => unit(m),
    }
}

#[verifier::opaque]
pub open spec fn eval_in<'t>(w: World<'t>, h: Here, m: State<'t>, e: Expr) -> Ev<'t>
    decreases h.depth, eval_level(h.in_defer), e, 1nat, 0nat,
{
    match e.kind {
        ExprKind::In { region, body } => match region {
            None => stops(m, refused(NO_IN_REGION@, e.span)),
            Some(x) => match read_or_eval(w, h, m, *x) {
                (m1, Ok(FlowView::Val(v))) => match v {
                    ValueView::Region(r) => {
                        let (m2, out) = eval_block(w, h, m1.push_ambient(r), body, true);
                        (m2.pop_ambient(), out)
                    },
                    _ => stops(m1, refused(NO_IN@, e.span)),
                },
                r => r,
            },
        },
        _ => unit(m),
    }
}

#[verifier::opaque]
pub open spec fn eval_freeze<'t>(w: World<'t>, h: Here, m: State<'t>, e: Expr) -> Ev<'t>
    decreases h.depth, eval_level(h.in_defer), e, 1nat, 0nat,
{
    match e.kind {
        ExprKind::Freeze(x) => match eval(w, h, m, *x) {
            (m1, Ok(FlowView::Val(v))) => match v {
                ValueView::Region(r) => val(m1.with_shadow(m1.sh.freeze_region(r as int)), v),
                _ => stops(m1, refused(NO_FREEZE@, e.span)),
            },
            r => r,
        },
        _ => unit(m),
    }
}

#[verifier::opaque]
pub open spec fn eval_door<'t>(w: World<'t>, h: Here, m: State<'t>, e: Expr) -> Ev<'t>
    decreases h.depth, eval_level(h.in_defer), e, 1nat, 0nat,
{
    match e.kind {
        ExprKind::Borrow { region, source } => match read_or_eval(w, h, m, *region) {
            (m1, Ok(FlowView::Val(r))) => match read_or_eval(w, h, m1, *source) {
                (m2, Ok(FlowView::Val(p))) => door_values(
                    m2,
                    r,
                    p,
                    pointee_at(w, h, e),
                    e.span,
                ),
                x => x,
            },
            x => x,
        },
        _ => unit(m),
    }
}

// -------------------------------------------------------------- raw tier --

/// The last integer among evaluated indices.
pub open spec fn last_int(vs: Seq<ValueView>, n: nat) -> i64
    decreases n,
{
    if n == 0 {
        0
    } else {
        match vs[n - 1] {
            ValueView::Int(i) => i,
            _ => last_int(vs, (n - 1) as nat),
        }
    }
}

/// The pointer and index of a raw element access.
#[verifier::opaque]
pub open spec fn raw_parts<'t>(w: World<'t>, h: Here, m: State<'t>, e: Expr) -> (
    State<'t>,
    Result<(PtrVal, i64), StopView>,
)
    decreases h.depth, eval_level(h.in_defer), e, 0nat, 0nat,
{
    match e.kind {
        ExprKind::Bracket { callee, args, .. } => match read_or_eval(w, h, m, *callee) {
            (m1, Err(s)) => (m1, Err(s)),
            (m1, Ok(FlowView::Val(ValueView::Ptr(p)))) => match eval_exprs(
                w,
                h,
                m1,
                args,
                0,
                Seq::empty(),
            ) {
                (m2, Err(s)) => (m2, Err(s)),
                (m2, Ok(Many::All(vs))) => (m2, Ok((p, last_int(vs, vs.len())))),
                (m2, Ok(Many::Leaves(_))) => (m2, Err(refused(RAW_FLOW@, e.span))),
            },
            (m1, Ok(FlowView::Val(_))) => (m1, Err(refused(RAW_RECEIVER@, e.span))),
            (m1, Ok(_)) => (m1, Err(refused(RAW_FLOW@, e.span))),
        },
        _ => (m, Err(refused(RAW_RECEIVER@, e.span))),
    }
}

/// What raw bytes produce: a `bool` must be a valid one.
pub open spec fn raw_loaded<'t>(m: State<'t>, p: PtrVal, b: Seq<u8>, is_bool: bool, at: Span) -> Ev<
    't,
> {
    let n = le_from(b, 0) as i64;
    if !is_bool {
        val(m, ValueView::Int(n))
    } else if n > 1 {
        stops(
            m,
            ub(
                UbRow::T1,
                "this read produces `"@ + decimal_int(n as int)
                    + "` as a `bool` — not a valid value of the type"@,
                at,
                crate::semantics::alloc_span(m, p, at),
            ),
        )
    } else {
        val(m, ValueView::Bool(n == 1))
    }
}

#[verifier::opaque]
pub open spec fn raw_index_read<'t>(w: World<'t>, h: Here, m: State<'t>, e: Expr) -> Ev<'t>
    decreases h.depth, eval_level(h.in_defer), e, 0nat, 1nat,
{
    match raw_parts(w, h, m, e) {
        (m1, Err(s)) => (m1, Err(s)),
        (m1, Ok((p, idx))) => {
            let size = pointee_at(w, h, e);
            match raw_read(m1, element(p, idx, size), size, e.span, "a raw pointer read"@) {
                (m2, Err(s)) => (m2, Err(s)),
                (m2, Ok(b)) => raw_loaded(
                    m2,
                    p,
                    b,
                    kind_at(w, h, e) matches Some(TyKind::Prim(Prim::Bool)),
                    e.span,
                ),
            }
        },
    }
}

pub open spec fn scalar_bits(v: ValueView) -> Option<i64> {
    match v {
        ValueView::Int(n) => Some(n),
        ValueView::Bool(b) => Some(
            if b {
                1
            } else {
                0
            },
        ),
        _ => None,
    }
}

/// The integer that raw bytes stand for at an element's type: the bytes of
/// a signed type carry its sign.
pub open spec fn raw_int(x: u64, bits: Option<u32>) -> i64 {
    match bits {
        Some(8) => if x >= 0x80 {
            (x - 0x100) as i64
        } else {
            x as i64
        },
        Some(16) => if x >= 0x8000 {
            (x - 0x1_0000) as i64
        } else {
            x as i64
        },
        Some(32) => if x >= 0x8000_0000 {
            (x - 0x1_0000_0000) as i64
        } else {
            x as i64
        },
        _ => x as i64,
    }
}

/// What a compound raw write stores: the operator on what stands there,
/// checked at the element's type.
pub open spec fn raw_combined<'t>(
    w: World<'t>,
    h: Here,
    m: State<'t>,
    e: Expr,
    op: AssignOp,
    q: PtrVal,
    n: i64,
    at: Span,
) -> (State<'t>, Result<i64, StopView>) {
    match op {
        AssignOp::Plain => (m, Ok(n)),
        AssignOp::Compound(b) => match raw_read(
            m,
            q,
            pointee_at(w, h, e),
            at,
            "a raw pointer read"@,
        ) {
            (m1, Err(s)) => (m1, Err(s)),
            (m1, Ok(cur)) => (
                m1,
                raw_outcome(
                    match wrap_at(w, h, e) {
                        Some((bits, unsigned)) => wrapping_op(
                            b,
                            le_from(cur, 0) as i64,
                            n,
                            bits,
                            unsigned,
                        ),
                        None => checked_op(
                            b,
                            raw_int(le_from(cur, 0), signed_at(w, h, e)),
                            n,
                            range_at(w, h, e),
                        ),
                    },
                    at,
                ),
            ),
        },
    }
}

pub open spec fn raw_outcome(o: IntOut, at: Span) -> Result<i64, StopView> {
    match o {
        IntOut::Gives(n) => Ok(n),
        IntOut::DivZero => Err(trapped("div-zero"@, "mem.ub.defined"@, at)),
        IntOut::Overflow => Err(trapped("overflow"@, "mem.ub.defined"@, at)),
        IntOut::Unruled => Err(refused(crate::semantics::NO_OPERATOR@, at)),
    }
}

/// A raw element write.
#[verifier::opaque]
pub open spec fn raw_index_write<'t>(
    w: World<'t>,
    h: Here,
    m: State<'t>,
    e: Expr,
    v: ValueView,
    op: AssignOp,
    at: Span,
) -> Ev<'t>
    decreases h.depth, eval_level(h.in_defer), e, 0nat, 1nat,
{
    match raw_parts(w, h, m, e) {
        (m1, Err(s)) => (m1, Err(s)),
        (m1, Ok((p, idx))) => {
            let size = pointee_at(w, h, e);
            let q = element(p, idx, size);
            match scalar_bits(v) {
                None => stops(m1, refused(RAW_VALUE@, at)),
                Some(n) => match raw_combined(w, h, m1, e, op, q, n, at) {
                    (m2, Err(s)) => (m2, Err(s)),
                    (m2, Ok(x)) => match raw_write(
                        m2,
                        q,
                        le_split(x as u64, size as nat),
                        at,
                        "a raw pointer write"@,
                    ) {
                        (m3, Err(s)) => (m3, Err(s)),
                        (m3, Ok(_)) => unit(m3),
                    },
                },
            }
        },
    }
}

// --------------------------------------------------------------- strings --

pub const NO_SLICE: &'static str = "str slicing of a non-str";

pub const NO_SLICE_SHAPE: &'static str = "this str index shape in checked execution";

pub const NO_SLICE_END: &'static str = "a non-integer slice endpoint";

pub const NO_FROM_END: &'static str = "a non-integer `^n` endpoint";

/// The last range among the index arguments.
pub open spec fn last_range(args: Seq<Expr>, n: nat) -> Option<int>
    decreases n,
{
    if n == 0 {
        None
    } else if args[n - 1].kind is Range {
        Some(n - 1)
    } else {
        last_range(args, (n - 1) as nat)
    }
}

/// One endpoint of a slice: a byte offset, or an offset from the end.
#[verifier::opaque]
pub open spec fn eval_bound<'t>(w: World<'t>, h: Here, m: State<'t>, e: Expr, len: nat) -> (
    State<'t>,
    Result<(i64, Option<FlowView>), StopView>,
)
    decreases h.depth, eval_level(h.in_defer), e, 4nat, 0nat,
{
    match e.kind {
        ExprKind::FromEnd(inner) => match eval(w, h, m, *inner) {
            (m1, Err(s)) => (m1, Err(s)),
            (m1, Ok(FlowView::Val(ValueView::Int(n)))) => (
                m1,
                Ok(((len - n) as i64, None)),
            ),
            (m1, Ok(FlowView::Val(_))) => (m1, Err(refused(NO_FROM_END@, e.span))),
            (m1, Ok(f)) => (m1, Ok((0, Some(f)))),
        },
        _ => match eval(w, h, m, e) {
            (m1, Err(s)) => (m1, Err(s)),
            (m1, Ok(FlowView::Val(ValueView::Int(n)))) => (m1, Ok((n, None))),
            (m1, Ok(FlowView::Val(_))) => (m1, Err(refused(NO_SLICE_END@, e.span))),
            (m1, Ok(f)) => (m1, Ok((0, Some(f)))),
        },
    }
}

/// A slice of a string's bytes, or the bounds trap.
pub open spec fn sliced<'t>(m: State<'t>, s: Seq<u8>, lo: i64, hi: i64, at: Span) -> Ev<'t> {
    if sliceable(s, lo as int, hi as int) {
        val(m, ValueView::Str(s.subrange(lo as int, hi as int)))
    } else {
        stops(m, trapped("bounds"@, "mem.ub.defined"@, at))
    }
}

/// `s[a..b]` on an evaluated string, with the range expression at hand.
#[verifier::opaque]
pub open spec fn slice_range<'t>(
    w: World<'t>,
    h: Here,
    m: State<'t>,
    s: Seq<u8>,
    range: Expr,
    one: bool,
    at: Span,
) -> Ev<'t>
    decreases h.depth, eval_level(h.in_defer), range, 5nat, 0nat,
{
    match range.kind {
        ExprKind::Range { start, end, inclusive } => {
            let first = match start {
                Some(x) => match eval_bound(w, h, m, *x, s.len()) {
                    (m1, Ok((n, None))) => match shift_origin(
                        n,
                        one && !(x.kind is FromEnd),
                        x.span,
                    ) {
                        Ok(k) => (m1, Ok((k, None))),
                        Err(e) => (m1, Err(e)),
                    },
                    r => r,
                },
                None => (m, Ok((0i64, None))),
            };
            match first {
                (m1, Err(x)) => (m1, Err(x)),
                (m1, Ok((_, Some(f)))) => (m1, Ok(f)),
                (m1, Ok((lo, None))) => match end {
                    None => sliced(m1, s, lo, past(s.len() as i64, inclusive), at),
                    Some(x) => match eval_bound(w, h, m1, *x, s.len()) {
                        (m2, Err(e)) => (m2, Err(e)),
                        (m2, Ok((_, Some(f)))) => (m2, Ok(f)),
                        (m2, Ok((hi, None))) => sliced(
                            m2,
                            s,
                            lo,
                            past(hi, inclusive && !(one && !(x.kind is FromEnd))),
                            at,
                        ),
                    },
                },
            }
        },
        _ => stops(m, refused(NO_SLICE_SHAPE@, at)),
    }
}

pub open spec fn past(hi: i64, inclusive: bool) -> i64 {
    if inclusive && hi < i64::MAX {
        (hi + 1) as i64
    } else {
        hi
    }
}

#[verifier::opaque]
pub open spec fn eval_str_slice<'t>(w: World<'t>, h: Here, m: State<'t>, e: Expr) -> Ev<'t>
    decreases h.depth, eval_level(h.in_defer), e, 0nat, 0nat,
{
    match e.kind {
        ExprKind::Bracket { callee, args, one_origin } => match read_or_eval(w, h, m, *callee) {
            (m1, Ok(FlowView::Val(v))) => match v {
                ValueView::Str(s) => match last_range(args@, args@.len()) {
                    Some(k) => if 0 <= k < args@.len() {
                        slice_range(w, h, m1, s, args[k], one_origin, e.span)
                    } else {
                        stops(m1, refused(NO_SLICE_SHAPE@, e.span))
                    },
                    None => stops(m1, refused(NO_SLICE_SHAPE@, e.span)),
                },
                _ => stops(m1, refused(NO_SLICE@, e.span)),
            },
            r => r,
        },
        _ => unit(m),
    }
}

// ------------------------------------------------------------ statements --

#[verifier::opaque]
pub open spec fn bind_decl<'t>(w: World<'t>, h: Here, m: State<'t>, b: Binder) -> Ev<'t>
    decreases h.depth, eval_level(h.in_defer), b, 1nat, 0nat,
{
    match (b.pattern, b.init) {
        (Some(p), Some(x)) => match p.kind {
            PatKind::Tuple(subs) => match place_of(w, h, m, x) {
                (m1, Err(s)) => (m1, Err(s)),
                (m1, Ok(Some(base))) => match bind_elements(m1, subs, base, 0) {
                    (m2, Err(s)) => (m2, Err(s)),
                    (m2, Ok(_)) => unit(m2),
                },
                (m1, Ok(None)) => bind_plain(w, h, m1, b),
            },
            _ => bind_plain(w, h, m, b),
        },
        _ => bind_plain(w, h, m, b),
    }
}

/// Bind a value; a raw row error binds too, only a propagated one
/// unwinds.
#[verifier::opaque]
pub open spec fn bind_plain<'t>(w: World<'t>, h: Here, m: State<'t>, b: Binder) -> Ev<'t>
    decreases h.depth, eval_level(h.in_defer), b, 0nat, 0nat,
{
    let valued = match b.init {
        Some(x) => eval(w, h, m, x),
        None => val(m, ValueView::Uninit),
    };
    match valued {
        (m1, Ok(FlowView::Val(v))) | (m1, Ok(FlowView::Raise(v, false))) => match b.pattern {
            Some(p) => match bind_pattern(m1, p, v) {
                (m2, Err(s)) => (m2, Err(s)),
                (m2, Ok(_)) => unit(m2),
            },
            None => unit(m1),
        },
        r => r,
    }
}

#[verifier::opaque]
pub open spec fn bind_decls<'t>(w: World<'t>, h: Here, m: State<'t>, bs: Vec<Binder>, i: nat) -> Ev<
    't,
>
    decreases h.depth, eval_level(h.in_defer), bs, bs@.len() - i, 0nat,
{
    if i >= bs@.len() {
        unit(m)
    } else {
        match bind_decl(w, h, m, bs[i as int]) {
            (m1, Ok(FlowView::Val(_))) => bind_decls(w, h, m1, bs, i + 1),
            r => r,
        }
    }
}

pub open spec fn compound_op(op: AssignOp) -> BinOp {
    match op {
        AssignOp::Compound(b) => b,
        AssignOp::Plain => BinOp::Other,
    }
}

/// Store an evaluated value into a place.
pub open spec fn store<'t>(
    w: World<'t>,
    h: Here,
    m: State<'t>,
    s: SlotView,
    v: ValueView,
    op: AssignOp,
    target: Expr,
    value: Expr,
    at: Span,
) -> Ev<'t> {
    let combined = if op is Plain {
        (m, Ok(v))
    } else {
        match m.read_at(s, target.span) {
            Err(x) => (m, Err(x)),
            Ok(cur) => arith_binop(
                w,
                m,
                compound_op(op),
                cur,
                v,
                wrap_at(w, h, value),
                range_at(w, h, value),
                at,
            ),
        }
    };
    match combined {
        (m1, Err(x)) => (m1, Err(x)),
        (m1, Ok(x)) => match m1.write_slot(s, x, target.span) {
            (m2, Err(y)) => (m2, Err(y)),
            (m2, Ok(_)) => unit(m2),
        },
    }
}

pub open spec fn raw_target(w: World<'_>, h: Here, target: Expr) -> bool {
    match target.kind {
        ExprKind::Bracket { callee, .. } => kind_at(w, h, *callee) matches Some(TyKind::Ptr(_)),
        _ => false,
    }
}

#[verifier::opaque]
pub open spec fn eval_assign<'t>(w: World<'t>, h: Here, m: State<'t>, s: Statement) -> Ev<'t>
    decreases h.depth, eval_level(h.in_defer), s, 0nat, 1nat,
{
    match s {
        Statement::Assign { span, op, place, value } => match eval(w, h, m, value) {
            (m1, Ok(FlowView::Val(v))) => if raw_target(w, h, place) {
                raw_index_write(w, h, m1, place, v, op, span)
            } else {
                assign_to(w, h, m1, s, v)
            },
            (m1, Ok(FlowView::Raise(v, false))) => if op is Plain && !raw_target(w, h, place) {
                assign_to(w, h, m1, s, v)
            } else {
                (m1, Ok(FlowView::Raise(v, false)))
            },
            r => r,
        },
        _ => unit(m),
    }
}

#[verifier::opaque]
pub open spec fn assign_to<'t>(w: World<'t>, h: Here, m: State<'t>, s: Statement, v: ValueView) -> Ev<
    't,
>
    decreases h.depth, eval_level(h.in_defer), s, 0nat, 0nat,
{
    match s {
        Statement::Assign { span, op, place, value } => match place_of(w, h, m, place) {
            (m1, Err(x)) => (m1, Err(x)),
            (m1, Ok(None)) => stops(m1, refused(NO_ASSIGN@, place.span)),
            (m1, Ok(Some(sl))) => store(w, h, m1, sl, v, op, place, value, span),
        },
        _ => unit(m),
    }
}

/// One statement; an expression statement answers its value.
#[verifier::opaque]
pub open spec fn eval_stmt<'t>(w: World<'t>, h: Here, m: State<'t>, s: Statement) -> Ev<'t>
    decreases h.depth, eval_level(h.in_defer), s, 1nat, 0nat,
{
    match s {
        Statement::Expr(e) => eval(w, h, m, e),
        Statement::Bind(bs) => bind_decls(w, h, m, bs, 0),
        Statement::Const { name, init } => {
            let valued = match init {
                Some(x) => eval(w, h, m, x),
                None => val(m, ValueView::Uninit),
            };
            match valued {
                (m1, Ok(FlowView::Val(v))) => match name {
                    Some(b) => unit(m1.declare(b.name@, v)),
                    None => unit(m1),
                },
                r => r,
            }
        },
        Statement::Assign { .. } => eval_assign(w, h, m, s),
        Statement::Defer { expr, on_error } => unit(m.oblige(Duty::Defer(&expr, on_error))),
        Statement::Assume { span, exprs } => match read_exprs(w, h, m, exprs, 0, Seq::empty()) {
            (m1, Err(x)) => (m1, Err(x)),
            (m1, Ok(Many::Leaves(f))) => (m1, Ok(f)),
            (m1, Ok(Many::All(vs))) => assume_values(m1, vs, span),
        },
        Statement::Fn { span, .. } => stops(m, refused(NO_LOCAL_FN@, span)),
        Statement::Item { span } => stops(m, refused(NO_LOCAL_ITEM@, span)),
        Statement::Empty => unit(m),
    }
}

pub open spec fn trails(s: Statement, trailing: Option<Span>) -> bool {
    s matches Statement::Expr(e) && trailing == Some(e.span)
}

/// The statements from `i` on; a flow that leaves closes the scope.
#[verifier::opaque]
pub open spec fn eval_stmts<'t>(
    w: World<'t>,
    h: Here,
    m: State<'t>,
    ss: Vec<Statement>,
    i: nat,
    trailing: Option<Span>,
    out: ValueView,
) -> Ev<'t>
    decreases h.depth, eval_level(h.in_defer), ss, ss@.len() - i, 0nat,
{
    if i >= ss@.len() {
        match close_scope(w, h, m, false) {
            (m1, Err(s)) => (m1, Err(s)),
            (m1, Ok(_)) => val(m1, out),
        }
    } else {
        match m.ticked() {
            (m1, Err(s)) => (m1, Err(s)),
            (m1, Ok(_)) => match eval_stmt(w, h, m1, ss[i as int]) {
                (m2, Err(s)) => (m2, Err(s)),
                (m2, Ok(FlowView::Val(v))) => eval_stmts(
                    w,
                    h,
                    m2,
                    ss,
                    i + 1,
                    trailing,
                    if trails(ss[i as int], trailing) {
                        v
                    } else {
                        out
                    },
                ),
                (m2, Ok(f)) => leave(w, h, m2, f),
            },
        }
    }
}

#[verifier::opaque]
pub open spec fn eval_block<'t>(
    w: World<'t>,
    h: Here,
    m: State<'t>,
    b: Block,
    want_value: bool,
) -> Ev<'t>
    decreases h.depth, eval_level(h.in_defer), b, 0nat, 0nat,
{
    eval_stmts(
        w,
        h,
        m.push_scope(),
        b.stmts,
        0,
        if want_value {
            b.trailing
        } else {
            None
        },
        ValueView::Unit,
    )
}

// ----------------------------------------------------------------- calls --

pub open spec fn fold_value(f: Fold) -> ValueView {
    match f {
        Fold::Unit => ValueView::Unit,
        Fold::Bool(b) => ValueView::Bool(b),
        Fold::Int(n) => ValueView::Int(n),
        Fold::Float(b) => ValueView::F64(b),
        Fold::Str(s) => ValueView::Str(encode_utf8(s@)),
    }
}

/// The callee is a container head (`List[int]`, `Pool[Node]`).
pub open spec fn is_ctor_head(callee: Expr) -> bool {
    match callee.kind {
        ExprKind::Bracket { callee: head, .. } => head.kind is Path,
        _ => false,
    }
}

#[verifier::opaque]
pub open spec fn eval_call<'t>(w: World<'t>, h: Here, m: State<'t>, e: Expr) -> Ev<'t>
    decreases h.depth, eval_level(h.in_defer), e, 1nat, 0nat,
{
    match e.kind {
        ExprKind::Call { callee, args, sig, fold, dispatch } => if fold is Some {
            val(m, fold_value(fold->0))
        } else if sig is Some && (sig->0).c_call {
            match read_args(w, h, m, args, 0, Seq::empty()) {
                (m1, Err(s)) => (m1, Err(s)),
                (m1, Ok(Many::Leaves(f))) => (m1, Ok(f)),
                (m1, Ok(Many::All(vs))) => c_call(m1, (sig->0).callee@, vs, e.span),
            }
        } else if kind_at(w, h, e) matches Some(TyKind::List(_)) && is_ctor_head(*callee) {
            val(m.new_list(Seq::empty()), m.next_list())
        } else if kind_at(w, h, e) matches Some(TyKind::Pool(_)) && is_ctor_head(*callee) {
            val(
                State { pools: m.pools.push(Seq::empty()), ..m },
                ValueView::Pool(m.pools.len() as usize),
            )
        } else if sig is Some && (sig->0).has_self && callee.kind is Member {
            eval_method_call(w, h, m, e)
        } else if sig is Some && (sig->0).ctor {
            match eval_args(w, h, m, args, 0, Seq::empty()) {
                (m1, Err(s)) => (m1, Err(s)),
                (m1, Ok(Many::Leaves(f))) => (m1, Ok(f)),
                (m1, Ok(Many::All(vs))) => val(
                    m1,
                    ValueView::Enum { variant: (sig->0).callee@, payload: vs },
                ),
            }
        } else {
            eval_named_call(w, h, m, e)
        },
        _ => unit(m),
    }
}

/// A call by name: a built-in, a raise, a dispatch, or a function.
#[verifier::opaque]
pub open spec fn eval_named_call<'t>(w: World<'t>, h: Here, m: State<'t>, e: Expr) -> Ev<'t>
    decreases h.depth, eval_level(h.in_defer), e, 0nat, 2nat,
{
    match e.kind {
        ExprKind::Call { callee, args, sig, dispatch, .. } => {
            let name = callee.text@;
            if name == "assert"@ {
                eval_assert(w, h, m, args, e.span)
            } else if is_builtin(name) {
                match read_args(w, h, m, args, 0, Seq::empty()) {
                    (m1, Err(s)) => (m1, Err(s)),
                    (m1, Ok(Many::Leaves(f))) => (m1, Ok(f)),
                    (m1, Ok(Many::All(vs))) => builtin_call(w, m1, name, vs, e.span),
                }
            } else {
                match sig {
                    None => if callee.kind is Path && raises_tag(w, h, e, name) {
                        match eval_args(w, h, m, args, 0, Seq::empty()) {
                            (m1, Err(s)) => (m1, Err(s)),
                            (m1, Ok(Many::Leaves(f))) => (m1, Ok(f)),
                            (m1, Ok(Many::All(vs))) => (
                                m1,
                                Ok(
                                    FlowView::Raise(
                                        ValueView::ErrTag { tag: name, payload: vs },
                                        false,
                                    ),
                                ),
                            ),
                        }
                    } else {
                        stops(m, refused(NO_CALL@, e.span))
                    },
                    Some(cs) => match dispatch {
                        Some(d) => eval_qualified(w, h, m, e),
                        None => eval_fn_call(w, h, m, e),
                    },
                }
            }
        },
        _ => unit(m),
    }
}

/// Only the first argument is the condition; the rest is the message,
/// evaluated on the failing path alone.
#[verifier::opaque]
pub open spec fn eval_assert<'t>(w: World<'t>, h: Here, m: State<'t>, args: Vec<Arg>, at: Span) -> Ev<
    't,
>
    decreases h.depth, eval_level(h.in_defer), args, args@.len() + 1, 0nat,
{
    if args@.len() == 0 {
        unit(m)
    } else {
        match eval(w, h, m, args[0].value) {
            (m1, Ok(FlowView::Val(v))) => if v == ValueView::Bool(true) {
                unit(m1)
            } else {
                match eval_args(w, h, m1, args, 1, Seq::empty()) {
                    (m2, Err(s)) => (m2, Err(s)),
                    (m2, Ok(Many::Leaves(f))) => (m2, Ok(f)),
                    (m2, Ok(Many::All(_))) => stops(
                        m2,
                        trapped("assert"@, "mem.ub.defined"@, at),
                    ),
                }
            },
            r => r,
        }
    }
}

/// Where a dispatch lands: the body and the type it runs for.
#[verifier::opaque]
pub open spec fn dispatched(
    w: World<'_>,
    h: Here,
    m: State<'_>,
    d: Dispatch,
    name: Seq<char>,
    recv: Expr,
    v: ValueView,
    at: Span,
) -> Result<(int, Seq<char>), StopView> {
    match d {
        Dispatch::Inherent { ty, .. } => match method_in(
            w.pkg,
            ty@,
            name,
            w.pkg.bodies@.len(),
        ) {
            Some(b) => Ok((b, ty@)),
            None => Err(refused(NO_METHOD_BODY@, at)),
        },
        Dispatch::Trait { module, name: tr, dyn_call, .. } => match dispatch_type(
            w,
            h,
            m,
            recv,
            dyn_call,
            v,
            at,
        ) {
            Err(s) => Err(s),
            Ok(c) => match trait_body(w.pkg, c, module, tr@, name) {
                Some(b) => Ok((b, c)),
                None => Err(refused(crate::semantics::NO_TRAIT_BODY@, at)),
            },
        },
    }
}

/// The receiver as the body sees it: a trait object enters as the
/// concrete value.
pub open spec fn unwrapped(d: Dispatch, v: ValueView) -> ValueView {
    match (d, v) {
        (Dispatch::Trait { .. }, ValueView::Dyn { inner, .. }) => *inner,
        _ => v,
    }
}

pub open spec fn method_name(d: Dispatch) -> Seq<char> {
    match d {
        Dispatch::Inherent { method, .. } => method@,
        Dispatch::Trait { method, .. } => method@,
    }
}

pub open spec fn with_self<'t>(m: State<'t>, ty: Seq<char>) -> State<'t> {
    State { pending_self: Some(ty), ..m }
}

/// A qualified dispatch: the first argument is the receiver.
#[verifier::opaque]
pub open spec fn eval_qualified<'t>(w: World<'t>, h: Here, m: State<'t>, e: Expr) -> Ev<'t>
    decreases h.depth, eval_level(h.in_defer), e, 0nat, 1nat,
{
    match e.kind {
        ExprKind::Call { args, sig: Some(cs), dispatch: Some(d), .. } => if args@.len() == 0 {
            stops(m, refused(NO_RECEIVER@, e.span))
        } else {
            let recv = args[0].value;
            match eval_arg(w, h, m, recv, mode_of(cs, 0)) {
                (m1, Err(s)) => (m1, Err(s)),
                (m1, Ok(v)) => match dispatched(w, h, m1, d, method_name(d), recv, v, e.span) {
                    Err(s) => stops(m1, s),
                    Ok((b, ty)) => match moded_args(
                        w,
                        h,
                        m1,
                        cs,
                        args,
                        1,
                        0,
                        seq![unwrapped(d, v)],
                    ) {
                        (m2, Err(s)) => (m2, Err(s)),
                        (m2, Ok(vs)) => guarded_call(
                            w,
                            h,
                            with_self(m2, ty),
                            b,
                            vs,
                            m.guards.len(),
                        ),
                    },
                },
            }
        },
        _ => unit(m),
    }
}

/// The body a call by name resolves to: its declaration, its module, any
/// module.
#[verifier::opaque]
pub open spec fn resolved_fn(w: World<'_>, h: Here, cs: CallSig) -> Option<int> {
    let declared = match cs.decl_span {
        Some(at) => fn_declared(w.pkg, at, w.pkg.bodies@.len()),
        None => None,
    };
    match declared {
        Some(b) => Some(b),
        None => match module_fn(w.pkg, w.pkg.bodies@[h.body as int].module, cs.callee@) {
            Some(b) => Some(b),
            None => any_fn(w.pkg, cs.callee@, 0),
        },
    }
}

/// What the callee's generic parameters stand for: the first `n`
/// arguments whose declared type is one of them.
#[verifier::opaque]
pub open spec fn generic_bindings(
    w: World<'_>,
    h: Here,
    m: State<'_>,
    generics: Seq<String>,
    ps: Seq<FnParam>,
    args: Seq<Arg>,
    n: nat,
) -> Seq<(Seq<char>, Seq<char>)>
    decreases n,
{
    if n == 0 {
        Seq::empty()
    } else {
        let rest = generic_bindings(w, h, m, generics, ps, args, (n - 1) as nat);
        match ps[n - 1].ty_text {
            Some(t) => {
                let generic = exists|i: int| 0 <= i < generics.len() && (#[trigger] generics[i])@
                    == t@;
                match concrete_name(w, h, m, args[n - 1].value) {
                    Some(c) => if generic && crate::semantics::rigid_at(rest, t@, 0) is None {
                        rest.push((t@, c))
                    } else {
                        rest
                    },
                    None => rest,
                }
            },
            None => rest,
        }
    }
}

#[verifier::opaque]
pub open spec fn with_generics<'t>(w: World<'t>, h: Here, m: State<'t>, body: int, args: Seq<Arg>) -> State<
    't,
> {
    match w.pkg.bodies@[body].kind {
        BodyKind::Fn(d) => {
            let n = if d.params@.len() < args.len() {
                d.params@.len()
            } else {
                args.len()
            };
            let r = generic_bindings(w, h, m, d.generics@, d.params@, args, n);
            if r.len() > 0 {
                State { pending_rigids: Some(r), ..m }
            } else {
                m
            }
        },
        _ => m,
    }
}

/// The body a function value names.
pub open spec fn held_fn(v: ValueView) -> Option<int> {
    match v {
        ValueView::Fn(b) => Some(b as int),
        _ => None,
    }
}

/// The body a call by name runs, if there is one: its declaration's, or
/// that of the function value the callee's place holds.
#[verifier::opaque]
pub open spec fn fn_target<'t>(w: World<'t>, h: Here, m: State<'t>, e: Expr) -> (
    State<'t>,
    Result<Option<int>, StopView>,
)
    decreases h.depth, eval_level(h.in_defer), e, 0nat, 0nat,
{
    match e.kind {
        ExprKind::Call { callee, sig: Some(cs), .. } => match resolved_fn(w, h, cs) {
            Some(b) => (m, Ok(Some(b))),
            None => match place_of(w, h, m, *callee) {
                (m1, Err(s)) => (m1, Err(s)),
                (m1, Ok(None)) => (m1, Ok(None)),
                (m1, Ok(Some(s))) => match m1.read_at(s, callee.span) {
                    Err(x) => (m1, Err(x)),
                    Ok(v) => (m1, Ok(held_fn(v))),
                },
            },
        },
        _ => (m, Ok(None)),
    }
}

/// Call a known body with the arguments of a call.
#[verifier::opaque]
pub open spec fn call_target<'t>(w: World<'t>, h: Here, m: State<'t>, e: Expr, b: int) -> Ev<'t>
    decreases h.depth, eval_level(h.in_defer), e, 0nat, 0nat,
{
    match e.kind {
        ExprKind::Call { args, sig: Some(cs), .. } => match moded_args(
            w,
            h,
            with_generics(w, h, m, b, args@),
            cs,
            args,
            0,
            0,
            Seq::empty(),
        ) {
            (m2, Err(s)) => (m2, Err(s)),
            (m2, Ok(vs)) => guarded_call(w, h, m2, b, vs, m.guards.len()),
        },
        _ => unit(m),
    }
}

/// A call of a function, by name or through a function value.
#[verifier::opaque]
pub open spec fn eval_fn_call<'t>(w: World<'t>, h: Here, m: State<'t>, e: Expr) -> Ev<'t>
    decreases h.depth, eval_level(h.in_defer), e, 0nat, 1nat,
{
    if h.body >= w.pkg.bodies@.len() {
        stops(m, refused(NO_CALLEE@, e.span))
    } else {
        match fn_target(w, h, m, e) {
            (m1, Err(s)) => (m1, Err(s)),
            (m1, Ok(None)) => stops(m1, refused(NO_CALLEE@, e.span)),
            (m1, Ok(Some(b))) => if !(0 <= b < w.pkg.bodies@.len()) {
                stops(m1, refused(NO_CALLEE@, e.span))
            } else {
                call_target(w, h, m1, e, b)
            },
        }
    }
}

// --------------------------------------------------------------- methods --

/// A method call: built-in surfaces by receiver type, else a dispatch.
#[verifier::opaque]
pub open spec fn eval_method_call<'t>(w: World<'t>, h: Here, m: State<'t>, e: Expr) -> Ev<'t>
    decreases h.depth, eval_level(h.in_defer), e, 0nat, 2nat,
{
    match e.kind {
        ExprKind::Call { callee, .. } => match callee.kind {
            ExprKind::Member(base, _) => match base.kind {
                ExprKind::Paren(inner, Some(_)) => eval_method(w, h, m, e, *inner),
                _ => eval_method(w, h, m, e, *base),
            },
            _ => unit(m),
        },
        _ => unit(m),
    }
}

/// The receiver is part of the call.
pub open spec fn receiver_in(e: Expr, recv: Expr) -> bool {
    decreases_to!(e => recv)
}

#[verifier::opaque]
pub open spec fn eval_method<'t>(w: World<'t>, h: Here, m: State<'t>, e: Expr, recv: Expr) -> Ev<'t>
    decreases h.depth, eval_level(h.in_defer), e, 0nat, 1nat,
{
    match e.kind {
        ExprKind::Call { args, sig: Some(cs), dispatch, .. } => if !receiver_in(e, recv) {
            unit(m)
        } else {
            match kind_at(w, h, recv) {
                Some(TyKind::Ptr(_)) => pointer_call(w, h, m, e, recv),
                Some(TyKind::List(_)) => list_call(w, h, m, e, recv),
                Some(TyKind::Pool(_)) => pool_call(w, h, m, e, recv),
                Some(TyKind::Shared(_)) | Some(TyKind::Weak(_)) => cell_call(w, h, m, e, recv),
                Some(TyKind::Prim(Prim::Str)) => str_call(w, h, m, e, recv),
                _ => match dispatch {
                    None => stops(m, refused(NO_METHOD@, e.span)),
                    Some(d) => match eval_arg(w, h, m, recv, mode_of(cs, 0)) {
                        (m1, Err(s)) => (m1, Err(s)),
                        (m1, Ok(v)) => match dispatched(
                            w,
                            h,
                            m1,
                            d,
                            cs.callee@,
                            recv,
                            v,
                            e.span,
                        ) {
                            Err(s) => stops(m1, s),
                            Ok((b, ty)) => match moded_args(
                                w,
                                h,
                                with_self(m1, ty),
                                cs,
                                args,
                                0,
                                1,
                                seq![unwrapped(d, v)],
                            ) {
                                (m2, Err(s)) => (m2, Err(s)),
                                (m2, Ok(vs)) => guarded_call(w, h, m2, b, vs, m.guards.len()),
                            },
                        },
                    },
                },
            }
        },
        _ => unit(m),
    }
}

/// A method on a raw pointer.
#[verifier::opaque]
pub open spec fn pointer_call<'t>(w: World<'t>, h: Here, m: State<'t>, e: Expr, recv: Expr) -> Ev<'t>
    decreases h.depth, eval_level(h.in_defer), e, 0nat, 0nat,
{
    match e.kind {
        ExprKind::Call { args, sig: Some(cs), .. } => if !receiver_in(e, recv) {
            unit(m)
        } else {
            match read_or_eval(w, h, m, recv) {
                (m1, Ok(FlowView::Val(v))) => match v {
                    ValueView::Ptr(p) => match eval_args(w, h, m1, args, 0, Seq::empty()) {
                        (m2, Err(s)) => (m2, Err(s)),
                        (m2, Ok(Many::Leaves(f))) => (m2, Ok(f)),
                        (m2, Ok(Many::All(vs))) => crate::methods::pointer_method(
                            m2,
                            cs.callee@,
                            p,
                            vs,
                            e.span,
                        ),
                    },
                    _ => stops(m1, refused(crate::methods::NOT_POINTER@, e.span)),
                },
                r => r,
            }
        },
        _ => unit(m),
    }
}

/// A method on a string.
#[verifier::opaque]
pub open spec fn str_call<'t>(w: World<'t>, h: Here, m: State<'t>, e: Expr, recv: Expr) -> Ev<'t>
    decreases h.depth, eval_level(h.in_defer), e, 0nat, 0nat,
{
    match e.kind {
        ExprKind::Call { args, sig: Some(cs), .. } => if !receiver_in(e, recv) {
            unit(m)
        } else {
            match read_or_eval(w, h, m, recv) {
                (m1, Ok(FlowView::Val(v))) => match v {
                    ValueView::Str(s) => match eval_args(w, h, m1, args, 0, Seq::empty()) {
                        (m2, Err(x)) => (m2, Err(x)),
                        (m2, Ok(Many::Leaves(f))) => (m2, Ok(f)),
                        (m2, Ok(Many::All(vs))) => crate::methods::str_method(
                            m2,
                            cs.callee@,
                            s,
                            vs,
                            e.span,
                        ),
                    },
                    _ => stops(m1, refused(crate::methods::NOT_STR@, e.span)),
                },
                r => r,
            }
        },
        _ => unit(m),
    }
}

/// The list a value names.
pub open spec fn held_list(v: ValueView) -> Option<usize> {
    match v {
        ValueView::List(id) => Some(id),
        _ => None,
    }
}

/// The pool a value names.
pub open spec fn held_pool(v: ValueView) -> Option<usize> {
    match v {
        ValueView::Pool(id) => Some(id),
        _ => None,
    }
}

/// The values pushed onto a list, each read as an argument.
#[verifier::opaque]
pub open spec fn push_args<'t>(
    w: World<'t>,
    h: Here,
    m: State<'t>,
    args: Vec<Arg>,
    i: nat,
    id: usize,
) -> Ev<'t>
    decreases h.depth, eval_level(h.in_defer), args, args@.len() - i, 0nat,
{
    if i >= args@.len() {
        unit(m)
    } else {
        match eval_arg(w, h, m, args[i as int].value, None) {
            (m1, Err(s)) => (m1, Err(s)),
            (m1, Ok(v)) => match m1.released(m.guards.len()).charged(16) {
                (m2, Err(s)) => (m2, Err(s)),
                (m2, Ok(_)) => push_args(
                    w,
                    h,
                    crate::methods::list_pushed(m2, id, v),
                    args,
                    i + 1,
                    id,
                ),
            },
        }
    }
}

/// A method on a list: a place is read without moving, a temporary is
/// evaluated; the mutators need a place.
#[verifier::opaque]
pub open spec fn list_call<'t>(w: World<'t>, h: Here, m: State<'t>, e: Expr, recv: Expr) -> Ev<'t>
    decreases h.depth, eval_level(h.in_defer), e, 0nat, 0nat,
{
    match e.kind {
        ExprKind::Call { args, sig: Some(cs), .. } => if !receiver_in(e, recv) {
            unit(m)
        } else {
            let method = cs.callee@;
            let (m0, placed) = place_of(w, h, m, recv);
            let valued = match placed {
                Err(s) => (m0, Err(s)),
                Ok(Some(s)) => match m0.read_at(s, recv.span) {
                    Ok(v) => val(m0, v),
                    Err(x) => stops(m0, x),
                },
                Ok(None) => eval(w, h, m0, recv),
            };
            let temporary = placed matches Ok(None);
            match valued {
                (m1, Ok(FlowView::Val(v))) => match held_list(v) {
                    Some(id) => if id >= m1.lists.len() {
                        stops(m1, refused(crate::methods::NOT_LIST@, e.span))
                    } else if temporary && crate::methods::mutates_list(method) {
                        stops(m1, refused(crate::methods::TEMPORARY_LIST@, e.span))
                    } else if method == "push"@ {
                        push_args(w, h, m1, args, 0, id)
                    } else if method == "get"@ {
                        if args@.len() == 0 {
                            stops(m1, refused(crate::methods::GET_NO_INDEX@, e.span))
                        } else {
                            match eval(w, h, m1, args[0].value) {
                                (m2, Ok(FlowView::Val(i))) => crate::methods::list_get(
                                    m2,
                                    id,
                                    i,
                                    e.span,
                                ),
                                r => r,
                            }
                        }
                    } else {
                        crate::methods::list_method(m1, method, id, e.span)
                    },
                    None => stops(m1, refused(crate::methods::NOT_LIST@, e.span)),
                },
                r => r,
            }
        },
        _ => unit(m),
    }
}

/// A method on a pool held in a place.
#[verifier::opaque]
pub open spec fn pool_call<'t>(w: World<'t>, h: Here, m: State<'t>, e: Expr, recv: Expr) -> Ev<'t>
    decreases h.depth, eval_level(h.in_defer), e, 0nat, 0nat,
{
    match e.kind {
        ExprKind::Call { args, sig: Some(cs), .. } => if !receiver_in(e, recv) {
            unit(m)
        } else {
            match place_of(w, h, m, recv) {
                (m1, Err(s)) => (m1, Err(s)),
                (m1, Ok(None)) => stops(m1, refused(crate::methods::TEMPORARY_POOL@, e.span)),
                (m1, Ok(Some(s))) => match m1.read_at(s, recv.span) {
                    Err(x) => stops(m1, x),
                    Ok(v) => match held_pool(v) {
                        None => stops(m1, refused(crate::methods::NOT_POOL@, e.span)),
                        Some(id) => if id >= m1.pools.len() {
                        stops(m1, refused(crate::methods::NOT_POOL@, e.span))
                    } else if args@.len() < crate::methods::pool_needs(cs.callee@) {
                        pool_short(w, h, m1, args, cs.callee@, e.span)
                    } else {
                        match eval_some(
                            w,
                            h,
                            m1,
                            args,
                            0,
                            crate::methods::pool_needs(cs.callee@),
                            Seq::empty(),
                        ) {
                            (m2, Err(x)) => (m2, Err(x)),
                            (m2, Ok(Many::Leaves(f))) => (m2, Ok(f)),
                            (m2, Ok(Many::All(vs))) => crate::methods::pool_method(
                                m2,
                                cs.callee@,
                                id,
                                vs,
                                e.span,
                            ),
                        }
                        },
                    },
                },
            }
        },
        _ => unit(m),
    }
}

/// A pool call up to its method: the state once the receiver and the
/// arguments are evaluated, the pool and the arguments; nothing when one
/// of them does not come to a value.
pub open spec fn pool_ready<'t>(w: World<'t>, h: Here, m: State<'t>, e: Expr, recv: Expr) -> Option<
    (State<'t>, usize, Seq<ValueView>),
> {
    match e.kind {
        ExprKind::Call { args, sig: Some(cs), .. } => match place_of(w, h, m, recv) {
            (m1, Ok(Some(s))) => match m1.read_at(s, recv.span) {
                Ok(v) => match held_pool(v) {
                    Some(id) => if id < m1.pools.len() && args@.len()
                        >= crate::methods::pool_needs(cs.callee@) {
                        match eval_some(
                            w,
                            h,
                            m1,
                            args,
                            0,
                            crate::methods::pool_needs(cs.callee@),
                            Seq::empty(),
                        ) {
                            (m2, Ok(Many::All(vs))) => Some((m2, id, vs)),
                            _ => None,
                        }
                    } else {
                        None
                    },
                    None => None,
                },
                _ => None,
            },
            _ => None,
        },
        _ => None,
    }
}

/// A method call on a pool does what the pool's method does: what holds of
/// the methods holds of the calls. A handle to a dead slot is not alive,
/// and filling or removing through it traps and changes nothing.
pub proof fn law_pool_call_is_its_method<'t>(
    w: World<'t>,
    h: Here,
    m: State<'t>,
    e: Expr,
    recv: Expr,
    index: usize,
    generation: i64,
)
    requires
        receiver_in(e, recv),
        kind_at(w, h, recv) matches Some(TyKind::Pool(_)),
        pool_ready(w, h, m, e, recv) is Some,
    ensures
        ({
            let (m2, id, vs) = pool_ready(w, h, m, e, recv).unwrap();
            let method = e.kind->sig.unwrap().callee@;
            let trap = trapped("stale-handle"@, "mem.shared.handle.2"@, e.span);
            let r = eval_method(w, h, m, e, recv);
            &&& r == crate::methods::pool_method(m2, method, id, vs, e.span)
            &&& crate::methods::dead_slot(m2, id as int, index) && nth(vs, 0)
                == (ValueView::Handle { index, generation }) ==> {
                &&& method == "alive"@ ==> r == val(m2, ValueView::Bool(false))
                &&& method == "init"@ || method == "remove"@ ==> r == stops(m2, trap)
            }
        }),
{
    let (m2, id, vs) = pool_ready(w, h, m, e, recv).unwrap();
    let method = e.kind->sig.unwrap().callee@;
    assert(eval_method(w, h, m, e, recv) == pool_call(w, h, m, e, recv)) by {
        reveal(eval_method);
        reveal(pool_call);
    }
    assert(pool_call(w, h, m, e, recv) == crate::methods::pool_method(
        m2,
        method,
        id,
        vs,
        e.span,
    )) by {
        reveal(pool_call);
        reveal(place_of);
        reveal(eval_some);
    }
    crate::methods::lemma_dead_handle(m2, id, index, generation, vs, e.span);
}

/// The first arguments, up to `n`.
#[verifier::opaque]
pub open spec fn eval_some<'t>(
    w: World<'t>,
    h: Here,
    m: State<'t>,
    args: Vec<Arg>,
    i: nat,
    n: nat,
    acc: Seq<ValueView>,
) -> Mn<'t>
    decreases h.depth, eval_level(h.in_defer), args, args@.len() - i, 0nat,
{
    if i >= args@.len() || i >= n {
        (m, Ok(Many::All(acc)))
    } else {
        match eval(w, h, m, args[i as int].value) {
            (m1, Err(s)) => (m1, Err(s)),
            (m1, Ok(FlowView::Val(v))) => eval_some(w, h, m1, args, i + 1, n, acc.push(v)),
            (m1, Ok(f)) => (m1, Ok(Many::Leaves(f))),
        }
    }
}

/// A pool method with too few arguments: those there are evaluated
/// first.
#[verifier::opaque]
pub open spec fn pool_short<'t>(
    w: World<'t>,
    h: Here,
    m: State<'t>,
    args: Vec<Arg>,
    method: Seq<char>,
    at: Span,
) -> Ev<'t>
    decreases h.depth, eval_level(h.in_defer), args, args@.len() + 1, 0nat,
{
    match eval_some(w, h, m, args, 0, args@.len(), Seq::empty()) {
        (m1, Err(s)) => (m1, Err(s)),
        (m1, Ok(Many::Leaves(f))) => (m1, Ok(f)),
        (m1, Ok(Many::All(_))) => stops(
            m1,
            refused(crate::methods::pool_missing(method, args@.len()), at),
        ),
    }
}

/// The checker typed the expression as a weak reference.
#[verifier::opaque]
pub open spec fn weak_at(w: World<'_>, h: Here, e: Expr) -> bool {
    kind_at(w, h, e) matches Some(TyKind::Weak(_))
}

/// A method on the cell a place holds.
#[verifier::opaque]
pub open spec fn cell_at<'t>(p: Pl<'t>, method: Seq<char>, weak: bool, held: Span, at: Span) -> Ev<
    't,
> {
    match p {
        (m, Err(s)) => (m, Err(s)),
        (m, Ok(None)) => stops(m, refused(crate::methods::TEMPORARY_CELL@, at)),
        (m, Ok(Some(s))) => match m.read_at(s, held) {
            Err(x) => stops(m, x),
            Ok(v) => crate::methods::cell_method(m, method, weak, v, at),
        },
    }
}

/// A method on a cell held in a place.
#[verifier::opaque]
pub open spec fn cell_call<'t>(w: World<'t>, h: Here, m: State<'t>, e: Expr, recv: Expr) -> Ev<'t>
    decreases h.depth, eval_level(h.in_defer), e, 0nat, 0nat,
{
    match e.kind {
        ExprKind::Call { sig: Some(cs), .. } => if !receiver_in(e, recv) {
            unit(m)
        } else {
            cell_at(
                place_of(w, h, m, recv),
                cs.callee@,
                weak_at(w, h, recv),
                recv.span,
                e.span,
            )
        },
        _ => unit(m),
    }
}

// ------------------------------------------------------------------- laws --

/// With no steps left every expression stops at its budget, and nothing
/// else happens.
pub proof fn law_no_steps_no_value<'t>(w: World<'t>, h: Here, m: State<'t>, e: Expr)
    requires
        m.steps >= m.step_limit,
    ensures
        eval(w, h, m, e) == stops(m, StopView::Budget(NO_STEPS@)),
{
    reveal(eval);
}

/// A call that may not nest stops at its budget, and nothing else happens.
pub proof fn law_no_depth_no_call<'t>(
    w: World<'t>,
    h: Here,
    m: State<'t>,
    body: int,
    args: Seq<ValueView>,
)
    requires
        h.depth == 0,
    ensures
        call_body(w, h, m, body, args) == (
            m,
            Err::<ValueView, StopView>(StopView::Budget(NO_DEPTH@)),
        ),
{
    reveal(call_body);
}

/// A region block that ends leaves its region freed.
pub proof fn law_region_block_frees<'t>(w: World<'t>, h: Here, m: State<'t>, e: Expr)
    requires
        e.kind is RegionBlock,
        m.sh.regions.len() < usize::MAX,
    ensures
        ({
            let (m1, out) = eval_region_block(w, h, m, e);
            let rid = m.sh.regions.len() as int;
            out is Ok && rid < m1.sh.regions.len() ==> !m1.sh.regions[rid].live
        }),
{
    reveal(eval_region_block);
}

/// A deferred expression does not run while another one does.
pub proof fn law_defer_does_not_nest<'t>(
    w: World<'t>,
    h: Here,
    m: State<'t>,
    e: &'t Expr,
    is_err: bool,
    on_error: bool,
)
    requires
        h.in_defer,
    ensures
        run_duties(w, h, m, seq![Duty::Defer(e, is_err)], 1, on_error) == (
            m,
            Ok::<(), StopView>(()),
        ),
{
    reveal_with_fuel(run_duties, 2);
}

} // verus!
