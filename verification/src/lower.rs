//! Typed-body to check-CFG lowering.
//!
//! The walk over a checked body leaves its effects in the graph, in
//! left-to-right evaluation order, attributes every allocation to a
//! region, and makes the context-free checks on the way. What it cannot
//! lower soundly it refuses with [`NotYet`].
//!
//! `defer`/`errdefer` are lowered at their exits: a scope's pending
//! obligations run again, in reverse, on every path that leaves it. While
//! they run, nested exits do not run them a second time.

use vstd::prelude::*;
use vstd::string::*;

use crate::ast::{
    Arg, Arm, AssignOp, Bind, Binder, Block as AstBlock, CastKind, Expr, ExprKind, FieldInit, Hole,
    PatKind, Pattern, PrefixOp, SelectArm, Statement, StrategySyntax,
};
use crate::cfg::{
    BlockId, CallView, ParamMode, RegionId, RegionKind, SiteId, SiteKind, StmtView, StrategyView,
};
use crate::diag::{Code, DiagView, NotYet, NotYetView, Span};
use crate::lowbind::{
    bind_ty, binds_of, bridge_text, checked_int, expr_kind, expr_ty, field_first, field_named,
    opt_fields_of, opt_kind, raw_indexed, strategy_of, trapping_op, UNNAMED,
};
use crate::lowregion::{held_sites, PASSED};
use crate::lowstate::{
    cells_in, insert_site, insert_sites, lemma_val_kept, Cleanup, Cx, Lowerer, LoopFrame, LowView,
    ScopeView, Val, ValView,
};
use crate::lowuse::{closing, needs_place_diag, unsafe_word};
use crate::place::{BaseView, PlaceId, PlaceTableView, PlaceView, ProjView};
use crate::text::{decimal, joined};
use crate::types::{CallSig, ItemSig, ParamSig, TableRef, Ty, TyKind};

verus! {

/// A walked state with the value, or with a refusal.
pub type Out<'t> = (LowView<'t>, Result<ValView, NotYetView>);

/// A walked state with nothing to say but a refusal.
pub type Done<'t> = (LowView<'t>, Result<(), NotYetView>);

/// A walked state with the place an expression names, if it names one.
pub type Placed<'t> = (LowView<'t>, Option<(PlaceId, Option<Ty>)>);

/// How deep the walk stands: pending obligations run below a body, and
/// do not run again from inside themselves.
pub open spec fn level(d: bool) -> nat {
    if d {
        1
    } else {
        4
    }
}

pub open spec fn exit_level(d: bool) -> nat {
    if d {
        0
    } else {
        3
    }
}

pub open spec fn fails<'t>(st: LowView<'t>, construct: Seq<char>, span: Span) -> Out<'t> {
    (st, Err(NotYetView { construct, span }))
}

pub open spec fn gives<'t>(st: LowView<'t>, v: ValView) -> Out<'t> {
    (st, Ok(v))
}

pub open spec fn gives_none<'t>(st: LowView<'t>) -> Out<'t> {
    (st, Ok(ValView::none()))
}

pub const NO_DYN_PLACE: &'static str = "a dyn cast of a place this checker cannot name (D47's conservative reading)";

pub const NO_FROM_END: &'static str = "end-relative `^n` slicing places (the std surface)";

pub const NO_INLINE: &'static str = "inline C / asm (unsafe tier)";

pub const NO_SHAPE: &'static str = "this expression shape (memory tier)";

pub const NO_REGION_FLOW: &'static str = "region flow beyond bindings and one-step iso fields";

pub const NO_FREEZE: &'static str = "freezing a region whose identity is not statically known";

pub const NO_BORROW: &'static str = "first-class borrow expressions (typeable with the region campaign)";

pub const NO_DEREF: &'static str = "the unsafe tier";

pub const NO_ITEMS: &'static str = "nested item declarations";

pub const NO_ASSIGN: &'static str = "assignment through this place shape";

pub const NO_CLOSURE_HOME: &'static str = "a capturing closure outside a binding or argument position (bind it or pass it)";

pub const NO_PAIR_HOME: &'static str = "a dyn pair outside a binding or argument position (bind it or pass it)";

/// What a call gathers while its arguments are lowered.
#[verifier::ext_equal]
pub struct Gathered {
    pub surface: CallView,
    /// Sites the callee may embed in its result.
    pub carry: Seq<SiteId>,
    /// Spelled `mut` arguments seen so far.
    pub muts: Seq<(PlaceId, Span)>,
    /// The payloads of a constructor.
    pub parts: Seq<(ValView, Span)>,
}

impl Gathered {
    pub open spec fn read(self, p: PlaceId, at: Span) -> Gathered {
        Gathered {
            surface: CallView { read_args: self.surface.read_args.push((p, at)), ..self.surface },
            ..self
        }
    }

    pub open spec fn reads(self, ps: Seq<PlaceId>, n: nat, at: Span) -> Gathered
        decreases n,
    {
        if n == 0 {
            self
        } else {
            self.reads(ps, (n - 1) as nat, at).read(ps[n - 1], at)
        }
    }

    pub open spec fn mutates(self, p: PlaceId, at: Span) -> Gathered {
        Gathered {
            surface: CallView { mut_args: self.surface.mut_args.push((p, at)), ..self.surface },
            ..self
        }
    }

    pub open spec fn takes(self, p: PlaceId, at: Span) -> Gathered {
        Gathered {
            surface: CallView { take_args: self.surface.take_args.push((p, at)), ..self.surface },
            ..self
        }
    }

    pub open spec fn carrying(self, sites: Seq<SiteId>) -> Gathered {
        Gathered { carry: self.carry + sites, ..self }
    }

    pub open spec fn claims_mut(self, p: PlaceId, at: Span) -> Gathered {
        Gathered { muts: self.muts.push((p, at)), ..self }
    }

    pub open spec fn part(self, v: ValView, at: Span) -> Gathered {
        Gathered { parts: self.parts.push((v, at)), ..self }
    }
}

/// A walked state with what the call gathered.
pub type Called<'t> = (LowView<'t>, Gathered, Result<(), NotYetView>);

// ------------------------------------------------------------- the walk --

/// The pending obligations of one scope, last declared first; `errdefer`
/// only on an error path.
pub open spec fn pending_in<'t>(c: Seq<Cleanup<'t>>, n: nat, on_error: bool) -> Seq<Cleanup<'t>>
    decreases n,
{
    if n == 0 {
        Seq::empty()
    } else {
        let rest = pending_in(c, (n - 1) as nat, on_error);
        match c[n - 1] {
            Cleanup::Defer(_, true) => if on_error {
                seq![c[n - 1]] + rest
            } else {
                rest
            },
            _ => seq![c[n - 1]] + rest,
        }
    }
}

/// The pending obligations of the scopes from `depth` up to `n`,
/// innermost first.
pub open spec fn pending<'t>(
    scopes: Seq<ScopeView<'t>>,
    n: nat,
    depth: nat,
    on_error: bool,
) -> Seq<Cleanup<'t>>
    decreases n,
{
    if n <= depth {
        Seq::empty()
    } else {
        pending_in(scopes[n - 1].cleanup, scopes[n - 1].cleanup.len(), on_error) + pending(
            scopes,
            (n - 1) as nat,
            depth,
            on_error,
        )
    }
}

#[verifier::opaque]
pub open spec fn run_pending<'t>(
    cx: Cx<'t>,
    st: LowView<'t>,
    list: Seq<Cleanup<'t>>,
    i: nat,
) -> Done<'t>
    decreases 2nat, None::<nat>, list.len() - i,
{
    if i >= list.len() {
        (st, Ok(()))
    } else {
        match list[i as int] {
            Cleanup::Defer(e, _) => match eval_value(cx, true, st, *e) {
                (s, Err(n)) => (s, Err(n)),
                (s, Ok(_)) => run_pending(cx, s, list, i + 1),
            },
            Cleanup::DropLocal(l) => {
                let s = st.intern_local(l, false);
                run_pending(
                    cx,
                    s.push(
                        StmtView::Drop {
                            place: s.bind_place(l),
                            span: s.locals[l.0 as int].span,
                        },
                    ),
                    list,
                    i + 1,
                )
            },
        }
    }
}

/// Run the obligations of the scopes from `depth` on.
#[verifier::opaque]
pub open spec fn emit_defers<'t>(
    cx: Cx<'t>,
    d: bool,
    st: LowView<'t>,
    depth: nat,
    on_error: bool,
) -> Done<'t>
    decreases exit_level(d), None::<nat>, 0nat,
{
    if d {
        (st, Ok(()))
    } else {
        run_pending(cx, st, pending(st.scopes, st.scopes.len(), depth, on_error), 0)
    }
}

/// Leave the innermost scope on the normal path.
#[verifier::opaque]
pub open spec fn close_scope<'t>(cx: Cx<'t>, d: bool, st: LowView<'t>, at: Span) -> Done<'t>
    decreases exit_level(d), None::<nat>, 1nat,
{
    let (s, r) = emit_defers(cx, d, st, (st.scopes.len() - 1) as nat, false);
    (s.close_rest(at), r)
}

/// The place an expression names. Interns the place and its field
/// siblings at every projection step.
#[verifier::opaque]
pub open spec fn as_place<'t>(cx: Cx<'t>, d: bool, st: LowView<'t>, e: Expr) -> Placed<'t>
    decreases level(d), e, 0nat,
{
    match e.kind {
        ExprKind::Paren(inner, _) => as_place(cx, d, st, *inner),
        ExprKind::Path(name) => match st.lookup(name@) {
            Some(l) => {
                let ty = st.tys[l.0 as int];
                let s = st.intern_local(l, cx.tabs.opt_copy_spec(ty));
                (s, Some((s.bind_place(l), ty)))
            },
            None => match cx.tabs.sigs.item(cx.module, name@) {
                Some(ItemSig::Global(g)) => {
                    let ty = match g.ty {
                        Some(id) => Some(Ty { table: TableRef::Sig, id }),
                        None => None,
                    };
                    let p = PlaceView {
                        base: BaseView::Global(cx.module, name@),
                        proj: Seq::empty(),
                    };
                    let s = st.intern(p, cx.tabs.opt_copy_spec(ty));
                    (s, Some((s.places.id_of(p), ty)))
                },
                _ => (st, None),
            },
        },
        ExprKind::Member(base, member) => match as_place(cx, d, st, *base) {
            (s, None) => (s, None),
            (s, Some((bid, bty))) => {
                let bp = s.places.at(bid);
                let fields = opt_fields_of(cx, bty);
                let s1 = match fields {
                    Some(fs) => s.intern_fields(cx, bp, fs, fs.len()),
                    None => s,
                };
                let found = match fields {
                    Some(fs) => field_named(fs, member@, fs.len()),
                    None => None,
                };
                let fty = match found {
                    Some(t) => Some(t),
                    None => expr_ty(e),
                };
                let p = bp.step(ProjView::Field(member@));
                let s2 = s1.intern(p, cx.tabs.opt_copy_spec(fty));
                (s2, Some((s2.places.id_of(p), fty)))
            },
        },
        ExprKind::Bracket { callee, args, .. } => match as_place(cx, d, st, *callee) {
            (s, None) => (s, None),
            (s, Some((bid, bty))) => match opt_kind(cx, bty) {
                Some(TyKind::Pool(_)) | Some(TyKind::List(_)) => match eval_merged(
                    cx,
                    d,
                    s,
                    args,
                    0,
                    ValView::none(),
                ) {
                    (s1, Err(_)) => (s1, None),
                    (s1, Ok(_)) => {
                        let p = s1.places.at(bid).step(ProjView::Opaque);
                        let ety = expr_ty(e);
                        let s2 = s1.intern(p, cx.tabs.opt_copy_spec(ety));
                        let pid = s2.places.id_of(p);
                        let s3 = match opt_kind(cx, bty) {
                            Some(TyKind::Pool(_)) => s2.push(
                                StmtView::HandleCheck { place: pid, span: e.span },
                            ),
                            _ => s2.push(StmtView::CheckedOp { span: e.span }),
                        };
                        (s3.trapping(), Some((pid, ety)))
                    },
                },
                _ => (s, None),
            },
        },
        _ => (st, None),
    }
}

/// Evaluate expressions from `i` on, in order; the values merge.
#[verifier::opaque]
pub open spec fn eval_merged<'t>(
    cx: Cx<'t>,
    d: bool,
    st: LowView<'t>,
    es: Vec<Expr>,
    i: nat,
    acc: ValView,
) -> Out<'t>
    decreases level(d), es, es@.len() - i,
{
    if i >= es@.len() {
        gives(st, acc)
    } else {
        match eval_value(cx, d, st, es[i as int]) {
            (s, Err(n)) => (s, Err(n)),
            (s, Ok(v)) => eval_merged(cx, d, s, es, i + 1, acc.merge(v)),
        }
    }
}

/// Read an operand: a place is read, never moved; a temporary is
/// evaluated.
#[verifier::opaque]
pub open spec fn read_operand<'t>(cx: Cx<'t>, d: bool, st: LowView<'t>, e: Expr) -> Out<'t>
    decreases level(d), e, 4nat,
{
    match as_place(cx, d, st, e) {
        (s, Some((p, _))) => gives_none(s.emit_read(p, e.span)),
        (s, None) => eval_value(cx, d, s, e),
    }
}

#[verifier::opaque]
pub open spec fn read_operands<'t>(
    cx: Cx<'t>,
    d: bool,
    st: LowView<'t>,
    es: Vec<Expr>,
    i: nat,
) -> Done<'t>
    decreases level(d), es, es@.len() - i,
{
    if i >= es@.len() {
        (st, Ok(()))
    } else {
        match read_operand(cx, d, st, es[i as int]) {
            (s, Err(n)) => (s, Err(n)),
            (s, Ok(_)) => read_operands(cx, d, s, es, i + 1),
        }
    }
}

/// Consume an operand: a place copies or moves, a temporary is
/// evaluated.
#[verifier::opaque]
pub open spec fn use_operand<'t>(cx: Cx<'t>, d: bool, st: LowView<'t>, e: Expr) -> Out<'t>
    decreases level(d), e, 4nat,
{
    match as_place(cx, d, st, e) {
        (s, Some((p, _))) => gives(
            s.use_value(p, e.span),
            if s.places.copies(p) {
                ValView::none()
            } else {
                s.val_of(p, e.span)
            },
        ),
        (s, None) => eval_value(cx, d, s, e),
    }
}

#[verifier::opaque]
pub open spec fn read_holes<'t>(
    cx: Cx<'t>,
    d: bool,
    st: LowView<'t>,
    hs: Vec<Hole>,
    i: nat,
) -> Done<'t>
    decreases level(d), hs, hs@.len() - i,
{
    if i >= hs@.len() {
        (st, Ok(()))
    } else {
        match hs[i as int].expr {
            None => read_holes(cx, d, st, hs, i + 1),
            Some(e) => match read_operand(cx, d, st, e) {
                (s, Err(n)) => (s, Err(n)),
                (s, Ok(_)) => read_holes(cx, d, s, hs, i + 1),
            },
        }
    }
}

/// A raw element access `p[i]`.
#[verifier::opaque]
pub open spec fn raw_index<'t>(cx: Cx<'t>, d: bool, st: LowView<'t>, e: Expr, write: bool) -> Done<
    't,
>
    decreases level(d), e, 1nat,
{
    let s0 = st.require_unsafe(
        if write {
            "a raw pointer write"@
        } else {
            "a raw pointer read"@
        },
        e.span,
    );
    match e.kind {
        ExprKind::Bracket { callee, args, .. } => match read_operand(cx, d, s0, *callee) {
            (s, Err(n)) => (s, Err(n)),
            (s, Ok(_)) => match read_operands(cx, d, s, args, 0) {
                (s1, Err(n)) => (s1, Err(n)),
                (s1, Ok(_)) => (
                    s1.push(
                        if write {
                            StmtView::RawWrite { ptr: callee.text@, span: e.span }
                        } else {
                            StmtView::RawRead { ptr: callee.text@, span: e.span }
                        },
                    ),
                    Ok(()),
                ),
            },
        },
        _ => (s0, Ok(())),
    }
}

/// A path, member or index expression in value position.
#[verifier::opaque]
pub open spec fn eval_named<'t>(cx: Cx<'t>, d: bool, st: LowView<'t>, e: Expr) -> Out<'t>
    decreases level(d), e, 2nat,
{
    if raw_indexed(cx, e) {
        match raw_index(cx, d, st, e, false) {
            (s, Err(n)) => (s, Err(n)),
            (s, Ok(_)) => gives_none(s),
        }
    } else {
        match as_place(cx, d, st, e) {
            (s, Some((p, _))) => gives(
                s.use_value(p, e.span),
                if s.places.copies(p) {
                    ValView::none()
                } else {
                    s.val_of(p, e.span)
                },
            ),
            (s, None) => match e.kind {
                ExprKind::Member(base, _) => eval_value(cx, d, s, *base),
                ExprKind::Bracket { callee, args, .. } => match eval_value(cx, d, s, *callee) {
                    (s1, Err(n)) => (s1, Err(n)),
                    (s1, Ok(v)) => eval_merged(
                        cx,
                        d,
                        s1,
                        args,
                        0,
                        ValView::none().merge(v),
                    ),
                },
                _ => gives_none(s),
            },
        }
    }
}

/// A dyn cast borrows its operand's place; a raw bridge reads it.
#[verifier::opaque]
pub open spec fn eval_cast<'t>(cx: Cx<'t>, d: bool, st: LowView<'t>, e: Expr) -> Out<'t>
    decreases level(d), e, 1nat,
{
    match e.kind {
        ExprKind::Cast(x, Some(c)) => match c.kind {
            CastKind::Unsize => match as_place(cx, d, st, *x) {
                (s, None) => fails(s, NO_DYN_PLACE@, e.span),
                (s, Some((p, _))) => {
                    let s1 = s.emit_read(p, e.span);
                    gives(
                        s1.unclaimed_at(e.span, false),
                        ValView { borrowed: seq![p], ..s1.val_of(p, e.span) },
                    )
                },
            },
            CastKind::Raw => match read_operand(
                cx,
                d,
                st.require_unsafe("a pointer cast"@, e.span),
                *x,
            ) {
                (s, Err(n)) => (s, Err(n)),
                (s, Ok(_)) => gives_none(
                    s.push(
                        StmtView::Expose {
                            what: x.text@,
                            dir: bridge_text(cx, c),
                            span: e.span,
                        },
                    ),
                ),
            },
            _ => eval_value(cx, d, st, *x),
        },
        ExprKind::Cast(x, None) => eval_value(cx, d, st, *x),
        _ => gives_none(st),
    }
}

/// A range endpoint: `^n` reads its inner offset.
#[verifier::opaque]
pub open spec fn eval_endpoint<'t>(cx: Cx<'t>, d: bool, st: LowView<'t>, e: Expr) -> Out<'t>
    decreases level(d), e, 4nat,
{
    match e.kind {
        ExprKind::FromEnd(inner) => eval_value(cx, d, st, *inner),
        _ => eval_value(cx, d, st, e),
    }
}

#[verifier::opaque]
pub open spec fn eval_range<'t>(cx: Cx<'t>, d: bool, st: LowView<'t>, e: Expr) -> Out<'t>
    decreases level(d), e, 1nat,
{
    match e.kind {
        ExprKind::Range { start, end, .. } => {
            let first = match start {
                Some(x) => eval_endpoint(cx, d, st, *x),
                None => gives_none(st),
            };
            match first {
                (s, Err(n)) => (s, Err(n)),
                (s, Ok(_)) => match end {
                    Some(x) => match eval_endpoint(cx, d, s, *x) {
                        (s1, Err(n)) => (s1, Err(n)),
                        (s1, Ok(_)) => gives_none(s1),
                    },
                    None => gives_none(s),
                },
            }
        },
        _ => gives_none(st),
    }
}

/// `?` is a branch: the error edge leaves the function, running
/// `errdefer`s and `defer`s.
#[verifier::opaque]
pub open spec fn eval_try<'t>(cx: Cx<'t>, d: bool, st: LowView<'t>, e: Expr) -> Out<'t>
    decreases level(d), e, 1nat,
{
    match e.kind {
        ExprKind::Try(inner) => match eval_value(cx, d, st, *inner) {
            (s, Err(n)) => (s, Err(n)),
            (s, Ok(v)) => {
                let err = s.next_block();
                let s1 = s.new_block();
                let ok = s1.next_block();
                let s2 = s1.new_block().goto(s.cur, ok).goto(s.cur, err).at(err);
                match emit_defers(cx, d, s2, 0, true) {
                    (s3, Err(n)) => (s3, Err(n)),
                    (s3, Ok(_)) => gives(
                        s3.goto(s3.cur, BlockId(1)).at(ok),
                        v,
                    ),
                }
            },
        },
        _ => gives_none(st),
    }
}

/// Leave for a block after the obligations from `depth` on; what follows
/// is dead code.
#[verifier::opaque]
pub open spec fn leave_to<'t>(
    cx: Cx<'t>,
    d: bool,
    st: LowView<'t>,
    depth: nat,
    to: BlockId,
) -> Out<'t>
    decreases exit_level(d), None::<nat>, 1nat,
{
    match emit_defers(cx, d, st, depth, false) {
        (s, Err(n)) => (s, Err(n)),
        (s, Ok(_)) => {
            let s1 = s.goto(s.cur, to);
            gives_none(s1.new_block().at(s1.next_block()))
        },
    }
}

#[verifier::opaque]
pub open spec fn eval_return<'t>(cx: Cx<'t>, d: bool, st: LowView<'t>, e: Expr) -> Out<'t>
    decreases level(d), e, 1nat,
{
    match e.kind {
        ExprKind::Return(Some(v)) => match eval_value(cx, d, st, *v) {
            (s, Err(n)) => (s, Err(n)),
            (s, Ok(val)) => leave_to(
                cx,
                d,
                s.demand_outlives_frame(val, v.span),
                0,
                BlockId(1),
            ),
        },
        _ => leave_to(cx, d, st, 0, BlockId(1)),
    }
}

/// The fields of a struct literal, evaluated in order.
#[verifier::opaque]
pub open spec fn eval_fields<'t>(
    cx: Cx<'t>,
    d: bool,
    st: LowView<'t>,
    fs: Vec<FieldInit>,
    i: nat,
    acc: Seq<ValView>,
) -> (LowView<'t>, Result<Seq<ValView>, NotYetView>)
    decreases level(d), fs, fs@.len() - i,
{
    if i >= fs@.len() {
        (st, Ok(acc))
    } else {
        match eval_value(cx, d, st, fs[i as int].value) {
            (s, Err(n)) => (s, Err(n)),
            (s, Ok(v)) => eval_fields(cx, d, s, fs, i + 1, acc.push(v)),
        }
    }
}

/// Embed field values into the construction: a region value moved into a
/// field is an ownership edge, everything else must be co-located.
#[verifier::opaque]
pub open spec fn embed_fields<'t>(
    st: LowView<'t>,
    fs: Seq<FieldInit>,
    vs: Seq<ValView>,
    i: int,
    region: RegionId,
    at: Span,
    acc: ValView,
) -> (LowView<'t>, ValView)
    decreases vs.len() - i,
{
    if i >= vs.len() {
        (st, acc)
    } else {
        let v = vs[i];
        let (s1, acc1) = match v.region {
            Some(r) => (
                st.set_moved(r).set_parent(r, region),
                ValView { region_fields: acc.region_fields.push((fs[i].name@, r)), ..acc },
            ),
            None => (st, acc),
        };
        let s2 = s1.demand_store(v.sites, 0, region, Some(at), fs[i].value.span);
        let merged = acc1.merge(v);
        embed_fields(
            s2,
            fs,
            vs,
            i + 1,
            region,
            at,
            ValView { region_fields: acc1.region_fields, ..merged },
        )
    }
}

#[verifier::opaque]
pub open spec fn eval_struct<'t>(cx: Cx<'t>, d: bool, st: LowView<'t>, e: Expr) -> Out<'t>
    decreases level(d), e, 1nat,
{
    match e.kind {
        ExprKind::StructLit(fs) => match eval_fields(cx, d, st, fs, 0, Seq::empty()) {
            (s, Err(n)) => (s, Err(n)),
            (s, Ok(vs)) => {
                let site = s.next_site();
                let s1 = s.alloc_site(cx.tabs.opt_text_of(expr_ty(e)), SiteKind::Lit, e.span);
                let region = s1.sites[site.0 as int].region;
                let (s2, v) = embed_fields(
                    s1,
                    fs@,
                    vs,
                    0,
                    region,
                    e.span,
                    ValView::site(site, e.span),
                );
                gives(s2, ValView { region: None, ..v })
            },
        },
        _ => gives_none(st),
    }
}

/// `copy`, `move`, `shared` and the plain operators.
#[verifier::opaque]
pub open spec fn eval_prefix<'t>(cx: Cx<'t>, d: bool, st: LowView<'t>, e: Expr) -> Out<'t>
    decreases level(d), e, 1nat,
{
    match e.kind {
        ExprKind::Prefix(op, x) => match op {
            PrefixOp::Copy => match as_place(cx, d, st, *x) {
                (s, Some((p, ty))) => {
                    let s1 = s.emit_read(p, x.span);
                    if s1.places.copies(p) {
                        gives_none(s1)
                    } else {
                        gives(
                            s1.alloc_site(cx.tabs.opt_text_of(ty), SiteKind::Lit, e.span),
                            ValView::site(s1.next_site(), e.span),
                        )
                    }
                },
                (s, None) => eval_value(cx, d, s, *x),
            },
            PrefixOp::Move => use_operand(cx, d, st, *x),
            PrefixOp::Amp => fails(st, NO_BORROW@, e.span),
            PrefixOp::Star => fails(st, NO_DEREF@, e.span),
            PrefixOp::Shared => match use_operand(cx, d, st, *x) {
                (s, Err(n)) => (s, Err(n)),
                (s, Ok(v)) => {
                    let s1 = share_all(s, v.sites, v.sites.len());
                    let site = s1.next_site();
                    gives(
                        s1.alloc_site(
                            cx.tabs.opt_text_of(expr_ty(e)),
                            SiteKind::Lit,
                            e.span,
                        ).share(site).add_cell(site),
                        ValView::site(site, e.span),
                    )
                },
            },
            _ => eval_value(cx, d, st, *x),
        },
        _ => gives_none(st),
    }
}

#[verifier::opaque]
pub open spec fn share_all<'t>(st: LowView<'t>, sites: Seq<SiteId>, n: nat) -> LowView<'t>
    decreases n,
{
    if n == 0 {
        st
    } else {
        share_all(st, sites, (n - 1) as nat).share(sites[n - 1])
    }
}

/// Short-circuit operators are control flow; checked arithmetic traps.
#[verifier::opaque]
pub open spec fn eval_bin<'t>(cx: Cx<'t>, d: bool, st: LowView<'t>, e: Expr) -> Out<'t>
    decreases level(d), e, 1nat,
{
    match e.kind {
        ExprKind::Bin(op, l, r) => match eval_value(cx, d, st, *l) {
            (s, Err(n)) => (s, Err(n)),
            (s, Ok(_)) => if op is AndAnd || op is OrOr {
                let rhs = s.next_block();
                let s1 = s.new_block();
                let join = s1.next_block();
                let s2 = s1.new_block().goto(s.cur, rhs).goto(s.cur, join).at(rhs);
                match eval_value(cx, d, s2, *r) {
                    (s3, Err(n)) => (s3, Err(n)),
                    (s3, Ok(_)) => gives_none(s3.goto(s3.cur, join).at(join)),
                }
            } else {
                match eval_value(cx, d, s, *r) {
                    (s1, Err(n)) => (s1, Err(n)),
                    (s1, Ok(_)) => if trapping_op(op) && (checked_int(cx, *l) || checked_int(
                        cx,
                        *r,
                    )) {
                        gives_none(s1.push(StmtView::CheckedOp { span: e.span }).trapping())
                    } else {
                        gives_none(s1)
                    },
                }
            },
        },
        _ => gives_none(st),
    }
}

#[verifier::opaque]
pub open spec fn eval_if<'t>(cx: Cx<'t>, d: bool, st: LowView<'t>, e: Expr) -> Out<'t>
    decreases level(d), e, 1nat,
{
    match e.kind {
        ExprKind::If { cond, then_block, els } => match eval_value(cx, d, st, *cond) {
            (s, Err(n)) => (s, Err(n)),
            (s, Ok(_)) => {
                let then_b = s.next_block();
                let s1 = s.new_block();
                let join = s1.next_block();
                let s2 = s1.new_block().goto(s.cur, then_b).at(then_b);
                match walk_block(cx, d, s2, then_block, true) {
                    (s3, Err(n)) => (s3, Err(n)),
                    (s3, Ok(v)) => {
                        let val = ValView::none().merge(v);
                        let s4 = s3.goto(s3.cur, join);
                        match els {
                            Some(x) => {
                                let else_b = s4.next_block();
                                let s5 = s4.new_block().goto(s.cur, else_b).at(else_b);
                                match eval_value(cx, d, s5, *x) {
                                    (s6, Err(n)) => (s6, Err(n)),
                                    (s6, Ok(w)) => gives(
                                        s6.goto(s6.cur, join).at(join),
                                        val.merge(w),
                                    ),
                                }
                            },
                            None => gives(s4.goto(s.cur, join).at(join), val),
                        }
                    },
                }
            },
        },
        _ => gives_none(st),
    }
}

/// The binders of one match arm. A non-`Copy` binding takes its piece
/// out of a place scrutinee: the whole place moves, once.
#[verifier::opaque]
pub open spec fn bind_arm<'t>(
    cx: Cx<'t>,
    st: LowView<'t>,
    bs: Seq<&Bind>,
    i: int,
    scrut: Option<(PlaceId, Span)>,
    held: Option<Seq<SiteId>>,
    moved: bool,
) -> LowView<'t>
    decreases bs.len() - i,
{
    if i >= bs.len() {
        st
    } else {
        let b = *bs[i];
        let l = st.next_local();
        let s = st.declare_init(cx, b);
        let s1 = match held {
            Some(h) => s.hold(l.0, h, b.span),
            None => s,
        };
        if !s1.locals[l.0 as int].is_copy && !moved && scrut is Some {
            bind_arm(
                cx,
                s1.emit_move((scrut->0).0, (scrut->0).1),
                bs,
                i + 1,
                scrut,
                held,
                true,
            )
        } else {
            bind_arm(cx, s1, bs, i + 1, scrut, held, moved)
        }
    }
}

#[verifier::opaque]
pub open spec fn eval_arms<'t>(
    cx: Cx<'t>,
    d: bool,
    st: LowView<'t>,
    arms: Vec<Arm>,
    i: nat,
    fan: BlockId,
    join: BlockId,
    scrut: Option<(PlaceId, Span)>,
    held: Option<Seq<SiteId>>,
    acc: ValView,
) -> Out<'t>
    decreases level(d), arms, arms@.len() - i,
{
    if i >= arms@.len() {
        gives(st.at(join), acc)
    } else {
        let arm = arms[i as int];
        let b = st.next_block();
        let s0 = st.new_block().goto(fan, b).at(b).push_scope();
        let s1 = match arm.pattern {
            Some(p) => bind_arm(cx, s0, binds_of(&p), 0, scrut, held, false),
            None => s0,
        };
        let guarded = match arm.guard {
            Some(g) => eval_value(cx, d, s1, g),
            None => gives_none(s1),
        };
        match guarded {
            (s2, Err(n)) => (s2, Err(n)),
            (s2, Ok(_)) => {
                let bodied = match arm.body {
                    Some(x) => match eval_value(cx, d, s2, x) {
                        (s3, Err(n)) => (s3, Err(n)),
                        (s3, Ok(v)) => gives(s3, acc.merge(v)),
                    },
                    None => gives(s2, acc),
                };
                match bodied {
                    (s3, Err(n)) => (s3, Err(n)),
                    (s3, Ok(acc1)) => match close_scope(cx, d, s3, closing(arm.span)) {
                        (s4, Err(n)) => (s4, Err(n)),
                        (s4, Ok(_)) => eval_arms(
                            cx,
                            d,
                            s4.goto(s4.cur, join),
                            arms,
                            i + 1,
                            fan,
                            join,
                            scrut,
                            held,
                            acc1,
                        ),
                    },
                }
            },
        }
    }
}

#[verifier::opaque]
pub open spec fn eval_match<'t>(cx: Cx<'t>, d: bool, st: LowView<'t>, e: Expr) -> Out<'t>
    decreases level(d), e, 1nat,
{
    match e.kind {
        ExprKind::Match { scrutinee, arms } => {
            let x = *scrutinee;
            match as_place(cx, d, st, x) {
                (s, Some((p, _))) => {
                    let s1 = s.emit_read(p, x.span);
                    let held = s1.val_of(p, x.span).sites;
                    eval_arms(
                        cx,
                        d,
                        s1.new_block(),
                        arms,
                        0,
                        s1.cur,
                        s1.next_block(),
                        Some((p, x.span)),
                        Some(held),
                        ValView::none(),
                    )
                },
                (s, None) => match eval_value(cx, d, s, x) {
                    (s1, Err(n)) => (s1, Err(n)),
                    (s1, Ok(_)) => eval_arms(
                        cx,
                        d,
                        s1.new_block(),
                        arms,
                        0,
                        s1.cur,
                        s1.next_block(),
                        None,
                        None,
                        ValView::none(),
                    ),
                },
            }
        },
        _ => gives_none(st),
    }
}

#[verifier::opaque]
pub open spec fn eval_while<'t>(cx: Cx<'t>, d: bool, st: LowView<'t>, e: Expr) -> Out<'t>
    decreases level(d), e, 1nat,
{
    match e.kind {
        ExprKind::While { cond, body } => {
            let head = st.next_block();
            let s = st.new_block().goto(st.cur, head).at(head);
            match eval_value(cx, d, s, *cond) {
                (s1, Err(n)) => (s1, Err(n)),
                (s1, Ok(_)) => {
                    let inner = s1.next_block();
                    let s2 = s1.new_block();
                    let exit = s2.next_block();
                    let s3 = s2.new_block().goto(s1.cur, inner).goto(s1.cur, exit).at(inner);
                    let s4 = s3.push_loop(
                        LoopFrame {
                            break_to: exit,
                            continue_to: head,
                            depth: s3.scopes.len() as usize,
                        },
                    );
                    match walk_block(cx, d, s4, body, false) {
                        (s5, Err(n)) => (s5, Err(n)),
                        (s5, Ok(_)) => {
                            let s6 = s5.pop_loop();
                            gives_none(s6.goto(s6.cur, head).at(exit))
                        },
                    }
                },
            }
        },
        _ => gives_none(st),
    }
}

/// Iterating a place is a READ with a claim held for the loop's extent,
/// never a move. Answers whether a claim was taken.
#[verifier::opaque]
pub open spec fn enter_for<'t>(cx: Cx<'t>, d: bool, st: LowView<'t>, x: Expr) -> (
    LowView<'t>,
    Result<bool, NotYetView>,
)
    decreases level(d), x, 4nat,
{
    match as_place(cx, d, st, x) {
        (s, Some((p, _))) => {
            let s1 = s.emit_read(p, x.span);
            if s1.places.copies(p) {
                (s1, Ok(false))
            } else {
                (s1.push_claim(p, x.span), Ok(true))
            }
        },
        (s, None) => match eval_value(cx, d, s, x) {
            (s1, Err(n)) => (s1, Err(n)),
            (s1, Ok(_)) => (s1, Ok(false)),
        },
    }
}

/// The head, body and exit blocks of a `for`, with the pattern bound.
pub open spec fn open_for<'t>(cx: Cx<'t>, st: LowView<'t>, pattern: Option<Pattern>) -> LowView<
    't,
> {
    let head = st.next_block();
    let s1 = st.new_block().goto(st.cur, head);
    let inner = s1.next_block();
    let s2 = s1.new_block();
    let exit = s2.next_block();
    let s3 = s2.new_block().goto(head, inner).goto(head, exit).at(inner).push_scope();
    let s4 = match pattern {
        Some(p) => s3.declare_refs(cx, binds_of(&p), binds_of(&p).len()),
        None => s3,
    };
    s4.push_loop(
        LoopFrame { break_to: exit, continue_to: head, depth: s4.scopes.len() as usize },
    )
}

#[verifier::opaque]
pub open spec fn eval_for<'t>(cx: Cx<'t>, d: bool, st: LowView<'t>, e: Expr) -> Out<'t>
    decreases level(d), e, 1nat,
{
    match e.kind {
        ExprKind::For { pattern, iterable, body } => match enter_for(cx, d, st, *iterable) {
            (s, Err(n)) => (s, Err(n)),
            (s, Ok(claimed)) => {
                let opened = open_for(cx, s, pattern);
                let frame = opened.loops.last();
                match walk_block(cx, d, opened, body, false) {
                    (s6, Err(n)) => (s6, Err(n)),
                    (s6, Ok(_)) => {
                        let s7 = s6.pop_loop();
                        let s8 = if claimed {
                            s7.pop_claim()
                        } else {
                            s7
                        };
                        match close_scope(cx, d, s8, closing(e.span)) {
                            (s9, Err(n)) => (s9, Err(n)),
                            (s9, Ok(_)) => gives_none(
                                s9.goto(s9.cur, frame.continue_to).at(frame.break_to),
                            ),
                        }
                    },
                }
            },
        },
        _ => gives_none(st),
    }
}

#[verifier::opaque]
pub open spec fn eval_loop<'t>(cx: Cx<'t>, d: bool, st: LowView<'t>, e: Expr) -> Out<'t>
    decreases level(d), e, 1nat,
{
    match e.kind {
        ExprKind::Loop(body) => {
            let head = st.next_block();
            let s = st.new_block();
            let exit = s.next_block();
            let s1 = s.new_block().goto(st.cur, head).at(head);
            let s2 = s1.push_loop(
                LoopFrame {
                    break_to: exit,
                    continue_to: head,
                    depth: s1.scopes.len() as usize,
                },
            );
            match walk_block(cx, d, s2, body, false) {
                (s3, Err(n)) => (s3, Err(n)),
                (s3, Ok(_)) => {
                    let s4 = s3.pop_loop();
                    gives_none(s4.goto(s4.cur, head).at(exit))
                },
            }
        },
        _ => gives_none(st),
    }
}

#[verifier::opaque]
pub open spec fn eval_else<'t>(cx: Cx<'t>, d: bool, st: LowView<'t>, e: Expr) -> Out<'t>
    decreases level(d), e, 1nat,
{
    match e.kind {
        ExprKind::Else { scrutinized, handler, fallback } => match eval_value(
            cx,
            d,
            st,
            *scrutinized,
        ) {
            (s, Err(n)) => (s, Err(n)),
            (s, Ok(v)) => {
                let val = ValView::none().merge(v);
                let fb = s.next_block();
                let s1 = s.new_block();
                let join = s1.next_block();
                let s2 = s1.new_block().goto(s.cur, join).goto(s.cur, fb).at(fb).push_scope();
                let s3 = match handler {
                    Some(p) => s2.declare_refs(cx, binds_of(&p), binds_of(&p).len()),
                    None => s2,
                };
                let bodied = match fallback {
                    Some(x) => match eval_value(cx, d, s3, *x) {
                        (s4, Err(n)) => (s4, Err(n)),
                        (s4, Ok(w)) => gives(s4, val.merge(w)),
                    },
                    None => gives(s3, val),
                };
                match bodied {
                    (s4, Err(n)) => (s4, Err(n)),
                    (s4, Ok(out)) => match close_scope(cx, d, s4, closing(e.span)) {
                        (s5, Err(n)) => (s5, Err(n)),
                        (s5, Ok(_)) => gives(s5.goto(s5.cur, join).at(join), out),
                    },
                }
            },
        },
        _ => gives_none(st),
    }
}

/// A region window's body: the region is ambient and open inside.
pub open spec fn enter_region<'t>(
    cx: Cx<'t>,
    st: LowView<'t>,
    name: Option<Bind>,
    bound: bool,
    strategy: StrategySyntax,
    at: Span,
) -> LowView<'t> {
    let text = match name {
        Some(b) => b.name@,
        None => UNNAMED@,
    };
    let intro = match name {
        Some(b) => b.span,
        None => at,
    };
    let rid = st.next_region();
    let s = st.new_region(text, RegionKind::Scope, strategy_of(strategy), intro).push(
        StmtView::RegionOpen { region: rid, span: intro },
    ).check_antichain(rid, intro, 0).push_open(rid, intro).push_ambient(rid).push_scope();
    match name {
        Some(b) => if bound {
            let l = s.next_local();
            let s1 = s.declare(cx.tabs, b.name@, b.span, bind_ty(b)).intern_local(l, false);
            s1.push(
                StmtView::Init { place: s1.bind_place(l), span: b.span },
            ).set_region_local(l.0, Some(rid))
        } else {
            s
        },
        None => s,
    }
}

/// `region name? (: strategy)? { .. }`: create, open, scope, free.
#[verifier::opaque]
pub open spec fn eval_region_block<'t>(cx: Cx<'t>, d: bool, st: LowView<'t>, e: Expr) -> Out<'t>
    decreases level(d), e, 1nat,
{
    match e.kind {
        ExprKind::RegionBlock { name, strategy, body } => {
            let rid = st.next_region();
            let mark = st.locals.len() as int;
            match walk_block(cx, d, enter_region(cx, st, name, true, strategy, e.span), body, true) {
                (s, Err(n)) => (s, Err(n)),
                (s, Ok(v)) => match close_scope(cx, d, s, closing(e.span)) {
                    (s1, Err(n)) => (s1, Err(n)),
                    (s1, Ok(_)) => {
                        let s2 = s1.pop_ambient().pop_open();
                        if s2.moved[rid.0 as int] {
                            gives(s2, ValView { region: None, ..v })
                        } else {
                            gives(
                                s2.sweep_close(rid, mark, closing(e.span), v).push(
                                    StmtView::RegionClose { region: rid, span: closing(e.span) },
                                ),
                                ValView { region: None, ..s2.swept(rid, v) },
                            )
                        }
                    },
                },
            }
        },
        _ => gives_none(st),
    }
}

/// `freeze region { .. }`: the closing brace promotes instead of
/// freeing.
#[verifier::opaque]
pub open spec fn eval_frozen_block<'t>(
    cx: Cx<'t>,
    d: bool,
    st: LowView<'t>,
    e: Expr,
    freeze_at: Span,
) -> Out<'t>
    decreases level(d), e, 1nat,
{
    match e.kind {
        ExprKind::RegionBlock { name, strategy, body } => {
            let rid = st.next_region();
            match walk_block(
                cx,
                d,
                enter_region(cx, st, name, false, strategy, e.span),
                body,
                true,
            ) {
                (s, Err(n)) => (s, Err(n)),
                (s, Ok(v)) => match close_scope(cx, d, s, closing(e.span)) {
                    (s1, Err(n)) => (s1, Err(n)),
                    (s1, Ok(_)) => gives(
                        s1.pop_ambient().pop_open().push(
                            StmtView::RegionClose { region: rid, span: closing(e.span) },
                        ).freeze(rid, freeze_at),
                        ValView { region: None, ..v },
                    ),
                },
            }
        },
        _ => gives_none(st),
    }
}

/// The region an `in` names: a binding, or a one-step field.
pub open spec fn region_named(st: LowView<'_>, p: PlaceId) -> Option<RegionId> {
    let pv = st.places.at(p);
    match pv.base {
        BaseView::Global(..) => None,
        BaseView::Local(l) => if pv.proj.len() == 0 {
            st.local_region(l)
        } else if pv.proj.len() == 1 && pv.proj[0] is Field {
            st.field_region(l, pv.proj[0]->Field_0)
        } else {
            None
        },
    }
}

pub const NOTE_REOPEN: &'static str = "`freeze` promotes the whole graph to `imm`: readable and shareable from anywhere, forever, and never writable again. Do the mutation before the freeze, or build a fresh region and `copy` what you need.";

pub open spec fn reopen_diag(region: Seq<char>, at: Span, frozen: Span) -> DiagView {
    DiagView::error(
        Code::E1012,
        at,
        region + " is frozen, so it cannot be opened for mutation"@,
    ).with_label("`in` opens a region for writing"@).with_secondary(
        frozen,
        crate::lowuse::FREEZE_HERE@,
    ).with_note(NOTE_REOPEN@)
}

/// The region an `in` opens.
#[verifier::opaque]
pub open spec fn find_region<'t>(cx: Cx<'t>, d: bool, st: LowView<'t>, e: Expr) -> (
    LowView<'t>,
    Result<RegionId, NotYetView>,
)
    decreases level(d), e, 0nat,
{
    match e.kind {
        ExprKind::In { region: Some(x), .. } => match as_place(cx, d, st, *x) {
            (s, Some((p, _))) => {
                let s1 = s.emit_read(p, x.span);
                match region_named(s1, p) {
                    Some(r) => (s1, Ok(r)),
                    None => (s1, Err(NotYetView { construct: NO_REGION_FLOW@, span: x.span })),
                }
            },
            (s, None) => (s, Err(NotYetView { construct: NO_REGION_FLOW@, span: x.span })),
        },
        _ => (st, Ok(st.ambient_region())),
    }
}

/// The region becomes ambient and open; a frozen one never reopens.
pub open spec fn open_region<'t>(st: LowView<'t>, rid: RegionId, at: Span) -> LowView<'t> {
    let s1 = match st.frozen_region[rid.0 as int] {
        Some(f) => st.conflict().report(reopen_diag(st.region_text(rid), at, f)),
        None => st,
    };
    s1.push(StmtView::RegionOpen { region: rid, span: at }).check_antichain(
        rid,
        at,
        0,
    ).push_open(rid, at).push_ambient(rid)
}

/// `in r { .. }`: rebind the ambient region for the block.
#[verifier::opaque]
pub open spec fn eval_in<'t>(cx: Cx<'t>, d: bool, st: LowView<'t>, e: Expr) -> Out<'t>
    decreases level(d), e, 1nat,
{
    match e.kind {
        ExprKind::In { region, body } => match find_region(cx, d, st, e) {
            (s, Err(n)) => (s, Err(n)),
            (s, Ok(rid)) => match walk_block(cx, d, open_region(s, rid, e.span), body, true) {
                (s3, Err(n)) => (s3, Err(n)),
                (s3, Ok(v)) => gives(
                    s3.pop_ambient().pop_open().push(
                        StmtView::RegionClose { region: rid, span: closing(e.span) },
                    ),
                    v,
                ),
            },
        },
        _ => gives_none(st),
    }
}

/// `freeze r`: consumes the region value and freezes the owned subtree.
#[verifier::opaque]
pub open spec fn eval_freeze<'t>(cx: Cx<'t>, d: bool, st: LowView<'t>, e: Expr) -> Out<'t>
    decreases level(d), e, 1nat,
{
    match e.kind {
        ExprKind::Freeze(x) => match x.kind {
            ExprKind::RegionBlock { .. } => eval_frozen_block(cx, d, st, *x, e.span),
            _ => {
                let (s, placed) = as_place(cx, d, st, *x);
                let found = if placed is Some && s.places.at((placed->0).0).proj.len() == 0 {
                    let p = (placed->0).0;
                    (s.use_value(p, x.span), Ok(s.place_region(p)))
                } else {
                    match eval_value(cx, d, s, *x) {
                        (s1, Err(n)) => (s1, Err(n)),
                        (s1, Ok(v)) => (s1, Ok(v.region)),
                    }
                };
                match found {
                    (s1, Err(n)) => (s1, Err(n)),
                    (s1, Ok(None)) => fails(s1, NO_FREEZE@, x.span),
                    (s1, Ok(Some(rid))) => gives(
                        s1.freeze(rid, e.span),
                        ValView::of_region(rid, e.span),
                    ),
                }
            },
        },
        _ => gives_none(st),
    }
}

#[verifier::opaque]
pub open spec fn eval_unsafe<'t>(cx: Cx<'t>, d: bool, st: LowView<'t>, e: Expr) -> Out<'t>
    decreases level(d), e, 1nat,
{
    match e.kind {
        ExprKind::Unsafe { body, line } => {
            let s = st.lint_safety(cx.lines@, e.text@, line as nat, e.span).push(
                StmtView::UnsafeEnter { span: unsafe_word(e.span) },
            );
            match walk_block(cx, d, s.with_unsafe(true), body, true) {
                (s1, Err(n)) => (s1.with_unsafe(s.in_unsafe), Err(n)),
                (s1, Ok(v)) => gives(
                    s1.with_unsafe(s.in_unsafe).push(
                        StmtView::UnsafeExit { span: closing(e.span) },
                    ),
                    v,
                ),
            }
        },
        _ => gives_none(st),
    }
}

/// `scope name? { .. }`: the handle binds over the body.
#[verifier::opaque]
pub open spec fn eval_scope<'t>(cx: Cx<'t>, d: bool, st: LowView<'t>, e: Expr) -> Out<'t>
    decreases level(d), e, 1nat,
{
    match e.kind {
        ExprKind::Scope { name, body } => {
            let s = st.push_scope();
            let s1 = match name {
                Some(b) => s.declare_init(cx, b),
                None => s,
            };
            match walk_block(cx, d, s1, body, true) {
                (s2, Err(n)) => (s2, Err(n)),
                (s2, Ok(v)) => match close_scope(cx, d, s2, closing(e.span)) {
                    (s3, Err(n)) => (s3, Err(n)),
                    (s3, Ok(_)) => gives(s3, v),
                },
            }
        },
        _ => gives_none(st),
    }
}

/// Read the captured locals; each is borrowed by the closure's value.
#[verifier::opaque]
pub open spec fn capture<'t>(
    st: LowView<'t>,
    names: Seq<String>,
    i: int,
    at: Span,
    acc: Seq<PlaceId>,
) -> (LowView<'t>, Seq<PlaceId>)
    decreases names.len() - i,
{
    if i >= names.len() {
        (st, acc)
    } else {
        match st.lookup(names[i]@) {
            None => capture(st, names, i + 1, at, acc),
            Some(l) => {
                let s = st.intern_local(l, st.locals[l.0 as int].is_copy);
                capture(
                    s.emit_read(s.bind_place(l), at),
                    names,
                    i + 1,
                    at,
                    acc.push(s.bind_place(l)),
                )
            },
        }
    }
}

/// A closure's body runs once, here; its value borrows every captured
/// place.
#[verifier::opaque]
pub open spec fn eval_closure<'t>(cx: Cx<'t>, d: bool, st: LowView<'t>, e: Expr) -> Out<'t>
    decreases level(d), e, 1nat,
{
    match e.kind {
        ExprKind::Closure { captures, params, body } => {
            let (s, borrowed) = capture(st, captures@, 0, e.span, Seq::empty());
            let s1 = s.push_scope().declare_inits(cx, params@, params@.len());
            let bodied = match body {
                Some(b) => eval_value(cx, d, s1, *b),
                None => gives_none(s1),
            };
            match bodied {
                (s2, Err(n)) => (s2, Err(n)),
                (s2, Ok(_)) => match close_scope(cx, d, s2, closing(e.span)) {
                    (s3, Err(n)) => (s3, Err(n)),
                    (s3, Ok(_)) => if borrowed.len() == 0 {
                        gives_none(s3)
                    } else {
                        gives(
                            s3.unclaimed_at(e.span, true),
                            ValView { origin: Some(e.span), borrowed, ..ValView::none() },
                        )
                    },
                },
            }
        },
        _ => gives_none(st),
    }
}

#[verifier::opaque]
pub open spec fn read_heads<'t>(
    cx: Cx<'t>,
    d: bool,
    st: LowView<'t>,
    arms: Vec<SelectArm>,
    i: nat,
) -> Done<'t>
    decreases level(d), arms, arms@.len() - i,
{
    if i >= arms@.len() {
        (st, Ok(()))
    } else {
        match arms[i as int].head {
            None => read_heads(cx, d, st, arms, i + 1),
            Some(h) => match read_operand(cx, d, st, h) {
                (s, Err(n)) => (s, Err(n)),
                (s, Ok(_)) => read_heads(cx, d, s, arms, i + 1),
            },
        }
    }
}

#[verifier::opaque]
pub open spec fn select_arms<'t>(
    cx: Cx<'t>,
    d: bool,
    st: LowView<'t>,
    arms: Vec<SelectArm>,
    i: nat,
    fan: BlockId,
    join: BlockId,
) -> Out<'t>
    decreases level(d), arms, arms@.len() - i,
{
    if i >= arms@.len() {
        gives_none(
            if arms@.len() == 0 {
                st.goto(fan, join).at(join)
            } else {
                st.at(join)
            },
        )
    } else {
        let arm = arms[i as int];
        let b = st.next_block();
        let s0 = st.new_block().goto(fan, b).at(b).push_scope();
        let s1 = match arm.pattern {
            Some(p) => s0.declare_refs(cx, binds_of(&p), binds_of(&p).len()),
            None => s0,
        };
        let bodied = match arm.body {
            Some(x) => eval_value(cx, d, s1, x),
            None => gives_none(s1),
        };
        match bodied {
            (s2, Err(n)) => (s2, Err(n)),
            (s2, Ok(_)) => match close_scope(cx, d, s2, closing(arm.span)) {
                (s3, Err(n)) => (s3, Err(n)),
                (s3, Ok(_)) => select_arms(
                    cx,
                    d,
                    s3.goto(s3.cur, join),
                    arms,
                    i + 1,
                    fan,
                    join,
                ),
            },
        }
    }
}

/// `select { .. }`: the arms are alternative branches.
#[verifier::opaque]
pub open spec fn eval_select<'t>(cx: Cx<'t>, d: bool, st: LowView<'t>, e: Expr) -> Out<'t>
    decreases level(d), e, 1nat,
{
    match e.kind {
        ExprKind::Select(arms) => match read_heads(cx, d, st, arms, 0) {
            (s, Err(n)) => (s, Err(n)),
            (s, Ok(_)) => select_arms(cx, d, s.new_block(), arms, 0, s.cur, s.next_block()),
        },
        _ => gives_none(st),
    }
}

/// The operands of a `when`: read, and simple paths rebind to their
/// payloads.
#[verifier::opaque]
pub open spec fn when_operands<'t>(
    cx: Cx<'t>,
    d: bool,
    st: LowView<'t>,
    es: Vec<Expr>,
    rebinds: Seq<Option<Bind>>,
    i: nat,
) -> Done<'t>
    decreases level(d), es, es@.len() - i,
{
    if i >= es@.len() {
        (st, Ok(()))
    } else {
        match read_operand(cx, d, st, es[i as int]) {
            (s, Err(n)) => (s, Err(n)),
            (s, Ok(_)) => {
                let s1 = if i < rebinds.len() && rebinds[i as int] is Some {
                    s.declare_init(cx, rebinds[i as int]->0)
                } else {
                    s
                };
                when_operands(cx, d, s1, es, rebinds, i + 1)
            },
        }
    }
}

#[verifier::opaque]
pub open spec fn eval_when<'t>(cx: Cx<'t>, d: bool, st: LowView<'t>, e: Expr) -> Out<'t>
    decreases level(d), e, 1nat,
{
    match e.kind {
        ExprKind::When { operands, rebinds, body } => match when_operands(
            cx,
            d,
            st.push_scope(),
            operands,
            rebinds@,
            0,
        ) {
            (s, Err(n)) => (s, Err(n)),
            (s, Ok(_)) => match walk_block(cx, d, s, body, true) {
                (s1, Err(n)) => (s1, Err(n)),
                (s1, Ok(v)) => match close_scope(cx, d, s1, closing(e.span)) {
                    (s2, Err(n)) => (s2, Err(n)),
                    (s2, Ok(_)) => gives(s2, v),
                },
            },
        },
        _ => gives_none(st),
    }
}

#[verifier::opaque]
pub open spec fn eval_args<'t>(
    cx: Cx<'t>,
    d: bool,
    st: LowView<'t>,
    args: Vec<Arg>,
    i: nat,
) -> Done<'t>
    decreases level(d), args, args@.len() - i,
{
    if i >= args@.len() {
        (st, Ok(()))
    } else {
        match eval_value(cx, d, st, args[i as int].value) {
            (s, Err(n)) => (s, Err(n)),
            (s, Ok(_)) => eval_args(cx, d, s, args, i + 1),
        }
    }
}

/// `borrow r from p`: the ring, a `region` on the left, a `*T` on the
/// right.
#[verifier::opaque]
pub open spec fn eval_borrow<'t>(cx: Cx<'t>, d: bool, st: LowView<'t>, e: Expr) -> Out<'t>
    decreases level(d), e, 1nat,
{
    match e.kind {
        ExprKind::Borrow { region, source } => match read_operand(
            cx,
            d,
            st.require_unsafe("the `borrow … from …` door"@, e.span),
            *region,
        ) {
            (s, Err(n)) => (s, Err(n)),
            (s, Ok(_)) => {
                let s1 = match expr_kind(cx, *region) {
                    Some(TyKind::RegionTy) | Some(TyKind::Error) | Some(TyKind::Never) => s,
                    _ => s.report(
                        crate::lowuse::door_diag(
                            region.span,
                            "a `region` value"@,
                            cx.tabs.opt_text_of(expr_ty(*region)),
                        ),
                    ),
                };
                match read_operand(cx, d, s1, *source) {
                    (s2, Err(n)) => (s2, Err(n)),
                    (s2, Ok(_)) => {
                        let s3 = match expr_kind(cx, *source) {
                            Some(TyKind::Ptr(_)) | Some(TyKind::Error) | Some(TyKind::Never) => s2,
                            _ => s2.report(
                                crate::lowuse::door_diag(
                                    source.span,
                                    "a raw pointer (`*T`)"@,
                                    cx.tabs.opt_text_of(expr_ty(*source)),
                                ),
                            ),
                        };
                        gives_none(
                            s3.push(
                                StmtView::Door {
                                    region: region.text@,
                                    ptr: source.text@,
                                    span: e.span,
                                },
                            ),
                        )
                    },
                }
            },
        },
        _ => gives_none(st),
    }
}

/// Evaluate an expression for its value: a place moves (or copies),
/// everything else recurses in evaluation order. Answers the value's
/// region provenance.
#[verifier::opaque]
pub open spec fn eval_value<'t>(cx: Cx<'t>, d: bool, st: LowView<'t>, e: Expr) -> Out<'t>
    decreases level(d), e, 3nat,
{
    match e.kind {
        ExprKind::Literal { .. } => gives_none(st),
        ExprKind::Path(_) | ExprKind::Member(..) | ExprKind::Bracket { .. } => eval_named(
            cx,
            d,
            st,
            e,
        ),
        ExprKind::Str(holes) => match read_holes(cx, d, st, holes, 0) {
            (s, Err(n)) => (s, Err(n)),
            (s, Ok(_)) => gives_none(s),
        },
        ExprKind::Paren(inner, _) => eval_value(cx, d, st, *inner),
        ExprKind::Tuple(es) => eval_merged(cx, d, st, es, 0, ValView::none()),
        ExprKind::Block(b) => walk_block(cx, d, st, b, true),
        ExprKind::Prefix(..) => eval_prefix(cx, d, st, e),
        ExprKind::Bin(..) => eval_bin(cx, d, st, e),
        ExprKind::Cast(..) => eval_cast(cx, d, st, e),
        ExprKind::Range { .. } => eval_range(cx, d, st, e),
        ExprKind::Try(_) => eval_try(cx, d, st, e),
        ExprKind::Call { .. } => eval_call(cx, d, st, e),
        ExprKind::StructLit(_) => eval_struct(cx, d, st, e),
        ExprKind::If { .. } => eval_if(cx, d, st, e),
        ExprKind::Match { .. } => eval_match(cx, d, st, e),
        ExprKind::While { .. } => eval_while(cx, d, st, e),
        ExprKind::For { .. } => eval_for(cx, d, st, e),
        ExprKind::Loop(_) => eval_loop(cx, d, st, e),
        ExprKind::Else { .. } => eval_else(cx, d, st, e),
        ExprKind::Return(_) => eval_return(cx, d, st, e),
        ExprKind::Break => if st.loops.len() == 0 {
            gives_none(st)
        } else {
            leave_to(cx, d, st, st.loops.last().depth as nat, st.loops.last().break_to)
        },
        ExprKind::Continue => if st.loops.len() == 0 {
            gives_none(st)
        } else {
            leave_to(cx, d, st, st.loops.last().depth as nat, st.loops.last().continue_to)
        },
        ExprKind::Closure { .. } => eval_closure(cx, d, st, e),
        ExprKind::FromEnd(_) => fails(st, NO_FROM_END@, e.span),
        ExprKind::RegionBlock { .. } => eval_region_block(cx, d, st, e),
        ExprKind::RegionValue(s) => gives(
            st.new_region(UNNAMED@, RegionKind::Value, strategy_of(s), e.span),
            ValView::of_region(st.next_region(), e.span),
        ),
        ExprKind::In { .. } => eval_in(cx, d, st, e),
        ExprKind::Freeze(_) => eval_freeze(cx, d, st, e),
        ExprKind::Unsafe { .. } => eval_unsafe(cx, d, st, e),
        ExprKind::InlineCode => fails(st, NO_INLINE@, e.span),
        ExprKind::Scope { .. } => eval_scope(cx, d, st, e),
        ExprKind::Select(_) => eval_select(cx, d, st, e),
        ExprKind::When { .. } => eval_when(cx, d, st, e),
        ExprKind::Spawn(args) => match eval_args(cx, d, st, args, 0) {
            (s, Err(n)) => (s, Err(n)),
            (s, Ok(_)) => gives_none(s),
        },
        ExprKind::Borrow { .. } => eval_borrow(cx, d, st, e),
        ExprKind::Other => fails(st, NO_SHAPE@, e.span),
    }
}

// ---------------------------------------------------------------- calls --

/// A `mut` receiver: all of it, or the fields of its view set.
pub open spec fn lend_receiver<'t>(
    cx: Cx<'t>,
    st: LowView<'t>,
    pl: PlaceId,
    ty: Option<Ty>,
    at: Span,
    p: ParamSig,
    g: Gathered,
) -> (LowView<'t>, Gathered) {
    let s1 = st.lend_mut(pl, at);
    let g1 = g.carrying(held_sites(s1.sites_of(pl)));
    match p.view {
        Some(fields) => lend_fields(
            cx,
            s1,
            s1.places.at(pl),
            opt_fields_of(cx, ty),
            fields@,
            0,
            at,
            g1,
        ),
        None => (s1, g1.mutates(pl, at)),
    }
}

/// The receiver under its declared mode.
#[verifier::opaque]
pub open spec fn lower_receiver<'t>(
    cx: Cx<'t>,
    d: bool,
    st: LowView<'t>,
    recv: Expr,
    at: Span,
    p: ParamSig,
    g: Gathered,
) -> Called<'t>
    decreases level(d), recv, 5nat,
{
    let (s, placed) = as_place(cx, d, st, recv);
    match p.mode {
        None => match placed {
            Some((pl, _)) => done_with(read_receiver(s, pl, at, g)),
            None => match eval_value(cx, d, s, recv) {
                (s1, Err(n)) => (s1, g, Err(n)),
                (s1, Ok(v)) => done_with(claim_receiver(s1, v, at, g)),
            },
        },
        Some(ParamMode::Mut) => match placed {
            Some((pl, ty)) => done_with(lend_receiver(cx, s, pl, ty, at, p, g)),
            None => (s.report(needs_place_diag(at)), g, Ok(())),
        },
        Some(ParamMode::Take) => match placed {
            Some((pl, _)) => done_with(take_receiver(s, pl, at, g)),
            None => match eval_value(cx, d, s, recv) {
                (s1, Err(n)) => (s1, g, Err(n)),
                (s1, Ok(v)) => done_with(pass_receiver(s1, v, g)),
            },
        },
    }
}

pub open spec fn done_with<'t>(x: (LowView<'t>, Gathered)) -> Called<'t> {
    (x.0, x.1, Ok(()))
}

/// A receiver read in place.
#[verifier::opaque]
pub open spec fn read_receiver<'t>(s: LowView<'t>, pl: PlaceId, at: Span, g: Gathered) -> (
    LowView<'t>,
    Gathered,
) {
    let s1 = s.emit_read(pl, at).mark_region_lent(pl);
    (
        s1,
        if s1.places.copies(pl) {
            g
        } else {
            g.read(pl, at)
        },
    )
}

/// A receiver read as a value.
#[verifier::opaque]
pub open spec fn claim_receiver<'t>(s: LowView<'t>, v: ValView, at: Span, g: Gathered) -> (
    LowView<'t>,
    Gathered,
) {
    (s.claim(v), g.reads(v.borrowed, v.borrowed.len(), at))
}

/// A receiver taken out of its place.
#[verifier::opaque]
pub open spec fn take_receiver<'t>(s: LowView<'t>, pl: PlaceId, at: Span, g: Gathered) -> (
    LowView<'t>,
    Gathered,
) {
    let s1 = s.escape_to_callee(pl);
    let g1 = g.carrying(held_sites(s1.sites_of(pl)));
    (s1.emit_move(pl, at), g1.takes(pl, at))
}

/// A receiver passed on as a value.
#[verifier::opaque]
pub open spec fn pass_receiver<'t>(s: LowView<'t>, v: ValView, g: Gathered) -> (
    LowView<'t>,
    Gathered,
) {
    (s.mark_escapes(v.sites, v.sites.len(), PASSED@), g.carrying(v.sites))
}

/// A view set narrows the exclusive footprint to the named fields.
#[verifier::opaque]
pub open spec fn lend_fields<'t>(
    cx: Cx<'t>,
    st: LowView<'t>,
    base: PlaceView,
    fields: Option<Seq<(Seq<char>, Ty)>>,
    view: Seq<String>,
    i: int,
    at: Span,
    g: Gathered,
) -> (LowView<'t>, Gathered)
    decreases view.len() - i,
{
    if i >= view.len() {
        (st, g)
    } else {
        let fty = match fields {
            Some(fs) => field_first(fs, view[i]@, 0),
            None => None,
        };
        let p = base.step(ProjView::Field(view[i]@));
        let s = st.intern(p, cx.tabs.opt_copy_spec(fty));
        lend_fields(cx, s, base, fields, view, i + 1, at, g.mutates(s.places.id_of(p), at))
    }
}

/// One argument under its declared mode.
#[verifier::opaque]
pub open spec fn lower_arg<'t>(
    cx: Cx<'t>,
    d: bool,
    st: LowView<'t>,
    cs: CallSig,
    p: ParamSig,
    arg: Arg,
    g: Gathered,
) -> Called<'t>
    decreases level(d), arg, 0nat,
{
    let v = arg.value;
    let st1 = st.check_mode(cs, p, v.span, arg.mode_span, arg.mode, p.mode);
    let (s, placed) = as_place(cx, d, st1, v);
    match p.mode {
        None => match placed {
            Some((pl, _)) => {
                let s1 = s.emit_read(pl, v.span).mark_region_lent(pl);
                if s1.places.copies(pl) {
                    (s1.check_copy_read(pl, v.span, g.muts, 0), g, Ok(()))
                } else {
                    (s1, g.read(pl, v.span), Ok(()))
                }
            },
            None => match eval_value(cx, d, s, v) {
                (s1, Err(n)) => (s1, g, Err(n)),
                (s1, Ok(av)) => (
                    s1.claim(av),
                    g.reads(av.borrowed, av.borrowed.len(), v.span),
                    Ok(()),
                ),
            },
        },
        Some(ParamMode::Mut) => match placed {
            Some((pl, _)) => {
                let s1 = s.lend_mut(pl, v.span);
                let g1 = g.carrying(held_sites(s1.sites_of(pl)));
                (s1, g1.mutates(pl, v.span).claims_mut(pl, v.span), Ok(()))
            },
            None => match eval_value(cx, d, s.report(needs_place_diag(v.span)), v) {
                (s1, Err(n)) => (s1, g, Err(n)),
                (s1, Ok(_)) => (s1, g, Ok(())),
            },
        },
        Some(ParamMode::Take) => match placed {
            Some((pl, _)) => {
                let s1 = s.escape_to_callee(pl);
                let g1 = g.carrying(held_sites(s1.sites_of(pl)));
                (s1.emit_move(pl, v.span), g1.takes(pl, v.span), Ok(()))
            },
            None => match eval_value(cx, d, s, v) {
                (s1, Err(n)) => (s1, g, Err(n)),
                (s1, Ok(av)) => (
                    s1.mark_escapes(av.sites, av.sites.len(), PASSED@),
                    g.carrying(av.sites),
                    Ok(()),
                ),
            },
        },
    }
}

/// The declared parameter of argument `i`.
pub open spec fn param_of(cs: CallSig, i: nat) -> Option<ParamSig> {
    let k = if cs.has_self {
        i + 1
    } else {
        i
    };
    if k < cs.params@.len() {
        Some(cs.params@[k as int])
    } else {
        None
    }
}

/// One argument. Without a resolved signature arguments are reads, never
/// silent moves.
#[verifier::opaque]
pub open spec fn lower_one<'t>(
    cx: Cx<'t>,
    d: bool,
    st: LowView<'t>,
    sig: Option<CallSig>,
    i: nat,
    arg: Arg,
    g: Gathered,
) -> Called<'t>
    decreases level(d), arg, 1nat,
{
    let v = arg.value;
    let param = match sig {
        Some(cs) => param_of(cs, i),
        None => None,
    };
    match (sig, param) {
        (Some(cs), Some(p)) => if cs.ctor {
            let s = match arg.mode {
                Some(m) => st.check_mode(cs, p, v.span, arg.mode_span, Some(m), None),
                None => st,
            };
            match eval_value(cx, d, s, v) {
                (s1, Err(n)) => (s1, g, Err(n)),
                (s1, Ok(pv)) => (s1, g.part(pv, v.span), Ok(())),
            }
        } else {
            lower_arg(cx, d, st, cs, p, arg, g)
        },
        _ => match read_operand(cx, d, st, v) {
            (s1, Err(n)) => (s1, g, Err(n)),
            (s1, Ok(_)) => (s1, g, Ok(())),
        },
    }
}

/// The arguments from `i` on, left to right.
#[verifier::opaque]
pub open spec fn lower_args<'t>(
    cx: Cx<'t>,
    d: bool,
    st: LowView<'t>,
    sig: Option<CallSig>,
    args: Vec<Arg>,
    i: nat,
    g: Gathered,
) -> Called<'t>
    decreases level(d), args, args@.len() - i,
{
    if i >= args@.len() {
        (st, g, Ok(()))
    } else {
        match lower_one(cx, d, st, sig, i, args[i as int], g) {
            (s1, g1, Err(n)) => (s1, g1, Err(n)),
            (s1, g1, Ok(_)) => lower_args(cx, d, s1, sig, args, i + 1, g1),
        }
    }
}

/// Every surface place against the view set.
#[verifier::opaque]
pub open spec fn check_views<'t>(st: LowView<'t>, args: Seq<(PlaceId, Span)>, i: int) -> LowView<'t>
    decreases args.len() - i,
{
    if i >= args.len() {
        st
    } else {
        check_views(st.check_view(args[i].0, args[i].1), args, i + 1)
    }
}

/// Embed constructor payloads, like struct fields.
#[verifier::opaque]
pub open spec fn embed_parts<'t>(
    st: LowView<'t>,
    parts: Seq<(ValView, Span)>,
    i: int,
    region: RegionId,
    at: Span,
    acc: ValView,
) -> (LowView<'t>, ValView)
    decreases parts.len() - i,
{
    if i >= parts.len() {
        (st, acc)
    } else {
        let (v, sp) = parts[i];
        let s = match v.region {
            Some(r) => st.set_moved(r).set_parent(r, region),
            None => st,
        };
        embed_parts(
            s.demand_store(v.sites, 0, region, Some(at), sp),
            parts,
            i + 1,
            region,
            at,
            acc.merge(v),
        )
    }
}

/// The call hands back a region, possibly behind an error row.
pub open spec fn returns_region(cx: Cx<'_>, t: Option<Ty>) -> bool {
    match opt_kind(cx, t) {
        Some(TyKind::RegionTy) => true,
        Some(TyKind::ErrUnion(ok, _)) => cx.tabs.table((t->0).table).at(ok) matches Some(
            TyKind::RegionTy,
        ),
        _ => false,
    }
}

/// The `mut` arguments that are no copies, in order.
#[verifier::opaque]
pub open spec fn mut_targets(t: PlaceTableView, args: Seq<(PlaceId, Span)>, n: nat) -> Seq<PlaceId>
    decreases n,
{
    if n == 0 {
        Seq::empty()
    } else {
        let rest = mut_targets(t, args, (n - 1) as nat);
        if t.copies(args[n - 1].0) {
            rest
        } else {
            rest.push(args[n - 1].0)
        }
    }
}

/// The `mut` targets may hold the call's fresh allocation.
#[verifier::opaque]
pub open spec fn hold_targets<'t>(
    st: LowView<'t>,
    places: Seq<PlaceId>,
    i: int,
    site: SiteId,
    at: Span,
) -> LowView<'t>
    decreases places.len() - i,
{
    if i >= places.len() {
        st
    } else {
        let s = match st.places.at(places[i]).base {
            BaseView::Local(l) => st.hold(l, seq![site], at),
            BaseView::Global(..) => st,
        };
        hold_targets(s, places, i + 1, site, at)
    }
}

/// Region attribution of a plain call: its result lands in the ambient
/// region, and `mut` arguments may be replaced with fresh ambient
/// allocations.
pub open spec fn finish_call<'t>(cx: Cx<'t>, st: LowView<'t>, e: Expr, g: Gathered) -> Out<'t> {
    let rt = expr_ty(e);
    let region = returns_region(cx, rt);
    let heap = !region && rt is Some && !cx.tabs.opt_copy_spec(rt);
    let targets = mut_targets(st.places, g.surface.mut_args, g.surface.mut_args.len());
    let surfaced = g.surface.mut_args.len() > 0 || g.surface.read_args.len() > 0
        || g.surface.take_args.len() > 0;
    let s = if surfaced || g.surface.c_call {
        st.push(StmtView::Call(g.surface))
    } else {
        st
    };
    let (s1, out) = if heap || targets.len() > 0 {
        let site = s.next_site();
        let text = if heap {
            cx.tabs.opt_text_of(rt)
        } else {
            g.surface.callee + "(..)"@
        };
        let a = s.alloc_site(text, SiteKind::CallResult, e.span);
        let b = match opt_kind(cx, rt) {
            Some(TyKind::Shared(_)) | Some(TyKind::Weak(_)) => a.share(site).add_cell(site),
            _ => a,
        };
        (
            hold_targets(b, targets, 0, site, e.span),
            if heap {
                ValView {
                    sites: insert_sites(seq![site], g.carry, g.carry.len()),
                    ..ValView::site(site, e.span)
                }
            } else {
                ValView::none()
            },
        )
    } else {
        (s, ValView::none())
    };
    if region {
        let rid = s1.next_region();
        gives(
            s1.new_region(
                UNNAMED@,
                RegionKind::Value,
                StrategyView::Arena,
                e.span,
            ).set_tainted(rid),
            ValView { region: Some(rid), origin: Some(e.span), ..out },
        )
    } else {
        gives(s1, out)
    }
}

pub open spec fn finish_ctor<'t>(cx: Cx<'t>, st: LowView<'t>, e: Expr, g: Gathered) -> Out<'t> {
    let site = st.next_site();
    let s = st.alloc_site(cx.tabs.opt_text_of(expr_ty(e)), SiteKind::Lit, e.span);
    let region = s.sites[site.0 as int].region;
    let (s1, v) = embed_parts(s, g.parts, 0, region, e.span, ValView::site(site, e.span));
    gives(s1, ValView { region: None, ..v })
}

pub open spec fn prov_op(callee: Seq<char>) -> bool {
    callee == "addr"@ || callee == "with_addr"@ || callee == "expose"@ || callee
        == "with_exposed"@
}

/// What a method call on a raw pointer records.
pub open spec fn record_prov<'t>(
    cx: Cx<'t>,
    st: LowView<'t>,
    cs: CallSig,
    recv: Expr,
    at: Span,
) -> LowView<'t> {
    if expr_kind(cx, recv) matches Some(TyKind::Ptr(_)) && prov_op(cs.callee@) {
        let s = st.require_unsafe("the provenance op `"@ + cs.callee@ + "`"@, at);
        let s1 = if cs.callee@ == "expose"@ {
            s.push(StmtView::Expose { what: recv.text@, dir: "ptr->int"@, span: at })
        } else if cs.callee@ == "with_exposed"@ {
            s.push(StmtView::Expose { what: recv.text@, dir: "int->ptr"@, span: at })
        } else {
            s
        };
        s1.push(StmtView::ProvOp { op: cs.callee@, ptr: recv.text@, span: at })
    } else {
        st
    }
}

/// The receiver of a method call, `clone` dups, provenance ops.
#[verifier::opaque]
pub open spec fn call_receiver<'t>(
    cx: Cx<'t>,
    d: bool,
    st: LowView<'t>,
    cs: CallSig,
    base: Expr,
    at: Span,
    g: Gathered,
) -> Called<'t>
    decreases level(d), base, 7nat,
{
    match base.kind {
        ExprKind::Paren(inner, Some(_)) => call_on(cx, d, st, cs, *inner, base.span, at, g),
        _ => call_on(cx, d, st, cs, base, base.span, at, g),
    }
}

#[verifier::opaque]
pub open spec fn call_on<'t>(
    cx: Cx<'t>,
    d: bool,
    st: LowView<'t>,
    cs: CallSig,
    recv: Expr,
    recv_at: Span,
    at: Span,
    g: Gathered,
) -> Called<'t>
    decreases level(d), recv, 6nat,
{
    let first = if cs.params@.len() > 0 {
        lower_receiver(cx, d, st, recv, recv_at, cs.params@[0], g)
    } else {
        (st, g, Ok(()))
    };
    match first {
        (s, g1, Err(n)) => (s, g1, Err(n)),
        (s, g1, Ok(_)) => {
            let named = recv.kind is Path || recv.kind is Member;
            let s1 = if cs.callee@ == "clone"@ && named && expr_kind(cx, recv) matches Some(
                TyKind::Shared(_),
            ) {
                match as_place(cx, d, s, recv) {
                    (s2, Some((p, _))) => s2.push(StmtView::Dup { place: p, span: at }),
                    (s2, None) => s2,
                }
            } else {
                s
            };
            (record_prov(cx, s1, cs, recv, at), g1, Ok(()))
        },
    }
}

/// A callee that is no receiver: a fn-typed place is read, another
/// expression evaluated.
#[verifier::opaque]
pub open spec fn call_callee<'t>(cx: Cx<'t>, d: bool, st: LowView<'t>, callee: Expr) -> Done<'t>
    decreases level(d), callee, 5nat,
{
    match callee.kind {
        ExprKind::Path(_) | ExprKind::Member(..) => match as_place(cx, d, st, callee) {
            (s, Some((p, _))) => (s.emit_read(p, callee.span), Ok(())),
            (s, None) => (s, Ok(())),
        },
        _ => match eval_value(cx, d, st, callee) {
            (s, Err(n)) => (s, Err(n)),
            (s, Ok(_)) => (s, Ok(())),
        },
    }
}

/// The surface a call starts from.
pub open spec fn call_start(e: Expr, callee: Expr, sig: Option<CallSig>) -> Gathered {
    Gathered {
        surface: CallView {
            callee: match sig {
                Some(cs) => cs.callee@,
                None => callee.text@,
            },
            span: e.span,
            mut_args: Seq::empty(),
            read_args: Seq::empty(),
            take_args: Seq::empty(),
            c_call: sig is Some && (sig->0).c_call,
        },
        carry: Seq::empty(),
        muts: Seq::empty(),
        parts: Seq::empty(),
    }
}

/// What is evaluated before the arguments: the receiver of a method, or
/// the callee. A constructor's callee is a type head, not a value.
#[verifier::opaque]
pub open spec fn call_head<'t>(cx: Cx<'t>, d: bool, st: LowView<'t>, e: Expr, g: Gathered) -> Called<
    't,
>
    decreases level(d), e, 1nat,
{
    match e.kind {
        ExprKind::Call { callee, sig, .. } => match (sig, callee.kind) {
            (Some(cs), ExprKind::Member(base, _)) => if cs.has_self {
                call_receiver(cx, d, st, cs, *base, e.span, g)
            } else if cs.ctor {
                (st, g, Ok(()))
            } else {
                match call_callee(cx, d, st, *callee) {
                    (s, r) => (s, g, r),
                }
            },
            _ => if sig is Some && (sig->0).ctor {
                (st, g, Ok(()))
            } else {
                match call_callee(cx, d, st, *callee) {
                    (s, r) => (s, g, r),
                }
            },
        },
        _ => (st, g, Ok(())),
    }
}

/// Every surface place against the view set, then what the call leaves
/// behind.
pub open spec fn call_tail<'t>(cx: Cx<'t>, st: LowView<'t>, e: Expr, ctor: bool, g: Gathered) -> Out<
    't,
> {
    let s = check_views(
        check_views(check_views(st, g.surface.mut_args, 0), g.surface.read_args, 0),
        g.surface.take_args,
        0,
    );
    if ctor {
        finish_ctor(cx, s, e, g)
    } else {
        finish_call(cx, s, e, g)
    }
}

#[verifier::opaque]
pub open spec fn eval_call<'t>(cx: Cx<'t>, d: bool, st: LowView<'t>, e: Expr) -> Out<'t>
    decreases level(d), e, 2nat,
{
    match e.kind {
        ExprKind::Call { callee, args, sig, .. } => {
            let g = call_start(e, *callee, sig);
            let s0 = if g.surface.c_call {
                st.require_unsafe("the C call `"@ + g.surface.callee + "`"@, e.span)
            } else {
                st
            };
            match call_head(cx, d, s0, e, g) {
                (s, _, Err(n)) => (s, Err(n)),
                (s, g1, Ok(_)) => match lower_args(cx, d, s, sig, args, 0, g1) {
                    (s1, _, Err(n)) => (s1, Err(n)),
                    (s1, g2, Ok(_)) => call_tail(
                        cx,
                        s1,
                        e,
                        sig is Some && (sig->0).ctor,
                        g2,
                    ),
                },
            }
        },
        _ => gives_none(st),
    }
}

// ----------------------------------------------------------- statements --

/// The element places of a tuple, interned from `i` on.
#[verifier::opaque]
pub open spec fn intern_elems<'t>(
    cx: Cx<'t>,
    st: LowView<'t>,
    base: PlaceView,
    elems: Option<Seq<(Seq<char>, Ty)>>,
    i: nat,
    n: nat,
    acc: Seq<PlaceId>,
) -> (LowView<'t>, Seq<PlaceId>)
    decreases n - i,
{
    if i >= n {
        (st, acc)
    } else {
        let p = base.step(ProjView::Field(decimal(i)));
        let s = st.intern(p, cx.tabs.opt_copy_spec(elem_ty(elems, i)));
        intern_elems(cx, s, base, elems, i + 1, n, acc.push(s.places.id_of(p)))
    }
}

pub open spec fn elem_ty(elems: Option<Seq<(Seq<char>, Ty)>>, i: nat) -> Option<Ty> {
    match elems {
        Some(es) => if i < es.len() {
            Some(es[i as int].1)
        } else {
            None
        },
        None => None,
    }
}

pub open spec fn elem_count(subs: nat, elems: Option<Seq<(Seq<char>, Ty)>>) -> nat {
    match elems {
        Some(es) => if es.len() > subs {
            es.len()
        } else {
            subs
        },
        None => subs,
    }
}

/// `let (x, y) = p` where `p` names a place: every element place is
/// interned, then each bound element is consumed from its own sub-place;
/// `_` elements are never touched.
pub open spec fn bind_tuple<'t>(
    cx: Cx<'t>,
    st: LowView<'t>,
    subs: Vec<Pattern>,
    base: PlaceId,
    ty: Option<Ty>,
) -> LowView<'t>
    decreases subs, subs@.len() + 1,
{
    let elems = opt_fields_of(cx, ty);
    let (s, ids) = intern_elems(
        cx,
        st,
        st.places.at(base),
        elems,
        0,
        elem_count(subs@.len(), elems),
        Seq::empty(),
    );
    bind_elems(cx, s, subs, 0, ids, elems)
}

pub open spec fn bind_elems<'t>(
    cx: Cx<'t>,
    st: LowView<'t>,
    subs: Vec<Pattern>,
    i: nat,
    ids: Seq<PlaceId>,
    elems: Option<Seq<(Seq<char>, Ty)>>,
) -> LowView<'t>
    decreases subs, subs@.len() - i,
{
    if i >= subs@.len() {
        st
    } else {
        let sub = subs[i as int];
        let ep = ids[i as int];
        let next = match sub.kind {
            PatKind::Wildcard => st,
            PatKind::Tuple(inner) => bind_tuple(cx, st, inner, ep, elem_ty(elems, i)),
            _ => if st.places.copies(ep) {
                st.use_value(ep, sub.span).bind_pattern(cx, sub, Some(ValView::none()))
            } else {
                st.pattern_move(sub.span).use_value(ep, sub.span).bind_pattern(
                    cx,
                    sub,
                    Some(st.val_of(ep, sub.span)),
                )
            },
        };
        bind_elems(cx, next, subs, i + 1, ids, elems)
    }
}

#[verifier::opaque]
pub open spec fn plain_binder<'t>(cx: Cx<'t>, d: bool, st: LowView<'t>, b: Binder) -> Done<'t>
    decreases level(d), b, 0nat,
{
    let valued = match b.init {
        Some(x) => match eval_value(cx, d, st, x) {
            (s, Err(n)) => (s, Err(n)),
            (s, Ok(v)) => (s, Ok(Some(v))),
        },
        None => (st, Ok(None::<ValView>)),
    };
    match valued {
        (s, Err(n)) => (s, Err(n)),
        (s, Ok(init)) => match b.pattern {
            Some(p) => (s.bind_pattern(cx, p, init), Ok(())),
            None => (s, Ok(())),
        },
    }
}

/// One binder of a `let`/`var`.
#[verifier::opaque]
pub open spec fn lower_binder<'t>(cx: Cx<'t>, d: bool, st: LowView<'t>, b: Binder) -> Done<'t>
    decreases level(d), b, 1nat,
{
    match (b.pattern, b.init) {
        (Some(p), Some(x)) => match p.kind {
            PatKind::Tuple(subs) => if raw_indexed(cx, x) {
                plain_binder(cx, d, st, b)
            } else {
                match as_place(cx, d, st, x) {
                    (s, Some((place, ty))) => (bind_tuple(cx, s, subs, place, ty), Ok(())),
                    (s, None) => plain_binder(cx, d, s, b),
                }
            },
            _ => plain_binder(cx, d, st, b),
        },
        _ => plain_binder(cx, d, st, b),
    }
}

/// Every binder, in source order.
#[verifier::opaque]
pub open spec fn lower_binders<'t>(
    cx: Cx<'t>,
    d: bool,
    st: LowView<'t>,
    bs: Vec<Binder>,
    i: nat,
) -> Done<'t>
    decreases level(d), bs, bs@.len() - i,
{
    if i >= bs@.len() {
        (st, Ok(()))
    } else {
        match lower_binder(cx, d, st, bs[i as int]) {
            (s, Err(n)) => (s, Err(n)),
            (s, Ok(_)) => lower_binders(cx, d, s, bs, i + 1),
        }
    }
}

/// The name of a local `const`.
pub open spec fn bind_const<'t>(cx: Cx<'t>, st: LowView<'t>, b: Bind, init: Option<ValView>) -> LowView<
    't,
> {
    let l = st.next_local();
    let s = st.declare_bind(cx, b);
    let place = s.bind_place(l);
    match init {
        Some(v) => s.push(StmtView::Init { place, span: b.span }).hold(l.0, v.sites, b.span),
        None => s.push(StmtView::Uninit { place, span: b.span }),
    }
}

/// The region flow of a plain assignment into a local's place.
pub open spec fn assign_local<'t>(
    st: LowView<'t>,
    l: u32,
    place: PlaceId,
    v: ValView,
    at: Span,
) -> LowView<'t> {
    let proj = st.places.at(place).proj;
    let held = st.sites_of(place);
    let s = if proj.len() > 0 {
        let s1 = match v.region {
            Some(r) => {
                let a = st.set_moved(r);
                let b = if held.len() > 0 {
                    a.set_parent(r, a.sites[held[0].0.0 as int].region)
                } else {
                    a
                };
                if proj.len() == 1 && proj[0] is Field {
                    b.put_field(l, proj[0]->Field_0, r)
                } else {
                    b
                }
            },
            None => st,
        };
        if held.len() > 0 {
            let c = held[0].0.0 as int;
            s1.demand_store(v.sites, 0, s1.sites[c].region, Some(s1.sites[c].span), at)
        } else {
            s1
        }
    } else {
        match v.region {
            Some(r) => match st.region_local[l as int] {
                Some(Some(prev)) => if prev != r {
                    st.set_region_local(l, None)
                } else {
                    st.set_region_local(l, Some(r))
                },
                _ => st.set_region_local(l, Some(r)),
            },
            None => st,
        }
    };
    s.hold(l, v.sites, at)
}

pub open spec fn compound_traps(op: AssignOp) -> bool {
    op matches AssignOp::Compound(b) && trapping_op(b)
}

/// The effect of an assignment on the place it names.
pub open spec fn assign_place<'t>(
    cx: Cx<'t>,
    st: LowView<'t>,
    p: PlaceId,
    v: ValView,
    span: Span,
    op: AssignOp,
    target: Expr,
) -> LowView<'t> {
    if op is Plain {
        let s = st.emit_init(p, target.span);
        match s.places.at(p).base {
            BaseView::Local(l) => assign_local(s, l, p, v, target.span),
            BaseView::Global(..) => s.demand_static(v.sites, 0, target.span),
        }
    } else {
        let s = st.emit_mutate(p, target.span);
        if compound_traps(op) && checked_int(cx, target) {
            s.push(StmtView::CheckedOp { span }).trapping()
        } else {
            s
        }
    }
}

#[verifier::opaque]
pub open spec fn lower_assign<'t>(
    cx: Cx<'t>,
    d: bool,
    st: LowView<'t>,
    stmt: Statement,
) -> Done<'t>
    decreases level(d), stmt, 0nat,
{
    match stmt {
        Statement::Assign { span, op, place: target, value } => match eval_value(
            cx,
            d,
            st,
            value,
        ) {
            (s, Err(n)) => (s, Err(n)),
            (s, Ok(v)) => if raw_indexed(cx, target) {
                let first = if op is Plain {
                    (s, Ok(()))
                } else {
                    raw_index(cx, d, s, target, false)
                };
                match first {
                    (s1, Err(n)) => (s1, Err(n)),
                    (s1, Ok(_)) => raw_index(cx, d, s1, target, true),
                }
            } else {
                match as_place(cx, d, s, target) {
                    (s1, None) => (
                        s1,
                        Err(NotYetView { construct: NO_ASSIGN@, span: target.span }),
                    ),
                    (s1, Some((p, _))) => (
                        assign_place(cx, s1, p, v, span, op, target),
                        Ok(()),
                    ),
                }
            },
        },
        _ => (st, Ok(())),
    }
}

pub const NOTE_ASSUME: &'static str = "safe values already carry stronger, checked aliasing facts (`mut` is exclusive, `read` is frozen) — `assume` exists only for `*T` values the checker cannot see through.";

pub open spec fn assume_diag(at: Span, shown: Seq<char>) -> DiagView {
    DiagView::error(
        Code::E1304,
        at,
        "`assume noalias` takes raw pointers, but this operand is `"@ + shown + "`"@,
    ).with_label("not a raw pointer"@).with_note(NOTE_ASSUME@)
}

/// The operands of `assume noalias`: read, and raw pointers only.
#[verifier::opaque]
pub open spec fn assume_operands<'t>(
    cx: Cx<'t>,
    d: bool,
    st: LowView<'t>,
    es: Vec<Expr>,
    i: nat,
) -> Done<'t>
    decreases level(d), es, es@.len() - i,
{
    if i >= es@.len() {
        (st, Ok(()))
    } else {
        let x = es[i as int];
        match read_operand(cx, d, st, x) {
            (s, Err(n)) => (s, Err(n)),
            (s, Ok(_)) => {
                let s1 = match expr_kind(cx, x) {
                    Some(TyKind::Ptr(_)) | Some(TyKind::Error) | Some(TyKind::Never) => s,
                    _ => s.report(assume_diag(x.span, cx.tabs.opt_text_of(expr_ty(x)))),
                };
                assume_operands(cx, d, s1, es, i + 1)
            },
        }
    }
}

pub open spec fn operand_texts(es: Seq<Expr>) -> Seq<Seq<char>> {
    Seq::new(es.len(), |i: int| es[i].text@)
}

/// A local `const` binds like a `let`.
#[verifier::opaque]
pub open spec fn lower_const<'t>(cx: Cx<'t>, d: bool, st: LowView<'t>, s: Statement) -> Out<'t>
    decreases level(d), s, 0nat,
{
    match s {
        Statement::Const { name, init } => match init {
            Some(x) => match eval_value(cx, d, st, x) {
                (s1, Err(n)) => (s1, Err(n)),
                (s1, Ok(v)) => match name {
                    Some(b) => gives_none(bind_const(cx, s1, b, Some(v))),
                    None => gives_none(s1),
                },
            },
            None => match name {
                Some(b) => gives_none(bind_const(cx, st, b, None)),
                None => gives_none(st),
            },
        },
        _ => gives_none(st),
    }
}

/// A nested named function: its body is a frame of its own, walked in its
/// own scope; its name binds as an initialized local.
#[verifier::opaque]
pub open spec fn lower_local_fn<'t>(cx: Cx<'t>, d: bool, st: LowView<'t>, s: Statement) -> Out<'t>
    decreases level(d), s, 0nat,
{
    match s {
        Statement::Fn { span, name, params, body } => {
            let s0 = st.push_scope().declare_inits(cx, params@, params@.len());
            let walked = match body {
                Some(b) => walk_block(cx, d, s0, b, false),
                None => gives_none(s0),
            };
            match walked {
                (s1, Err(n)) => (s1, Err(n)),
                (s1, Ok(_)) => match close_scope(cx, d, s1, closing(span)) {
                    (s2, Err(n)) => (s2, Err(n)),
                    (s2, Ok(_)) => match name {
                        Some(b) => gives_none(s2.declare_init(cx, b)),
                        None => gives_none(s2),
                    },
                },
            }
        },
        _ => gives_none(st),
    }
}

/// One statement. Answers the value of an expression statement.
#[verifier::opaque]
pub open spec fn walk_stmt<'t>(cx: Cx<'t>, d: bool, st: LowView<'t>, s: Statement) -> Out<'t>
    decreases level(d), s, 1nat,
{
    match s {
        Statement::Expr(e) => eval_value(cx, d, st, e),
        Statement::Bind(bs) => match lower_binders(cx, d, st, bs, 0) {
            (s1, Err(n)) => (s1, Err(n)),
            (s1, Ok(_)) => gives_none(s1),
        },
        Statement::Const { .. } => lower_const(cx, d, st, s),
        Statement::Assign { .. } => match lower_assign(cx, d, st, s) {
            (s1, Err(n)) => (s1, Err(n)),
            (s1, Ok(_)) => gives_none(s1),
        },
        Statement::Defer { expr, on_error } => gives_none(
            st.obliged(Cleanup::Defer(&expr, on_error)),
        ),
        Statement::Assume { span, exprs } => match assume_operands(
            cx,
            d,
            st.require_unsafe("`assume noalias`"@, span),
            exprs,
            0,
        ) {
            (s1, Err(n)) => (s1, Err(n)),
            (s1, Ok(_)) => gives_none(
                s1.push(
                    StmtView::Assume { ops: joined(operand_texts(exprs@), ", "@), span },
                ),
            ),
        },
        Statement::Fn { .. } => lower_local_fn(cx, d, st, s),
        Statement::Item { span } => fails(st, NO_ITEMS@, span),
        Statement::Empty => gives_none(st),
    }
}

/// The statement is the block's trailing value.
pub open spec fn is_trailing(s: Statement, trailing: Option<Span>) -> bool {
    s matches Statement::Expr(e) && trailing == Some(e.span)
}

#[verifier::opaque]
pub open spec fn walk_stmts<'t>(
    cx: Cx<'t>,
    d: bool,
    st: LowView<'t>,
    ss: Vec<Statement>,
    i: nat,
    trailing: Option<Span>,
    acc: ValView,
) -> Out<'t>
    decreases level(d), ss, ss@.len() - i,
{
    if i >= ss@.len() {
        gives(st, acc)
    } else {
        match walk_stmt(cx, d, st, ss[i as int]) {
            (s, Err(n)) => (s, Err(n)),
            (s, Ok(v)) => walk_stmts(
                cx,
                d,
                s,
                ss,
                i + 1,
                trailing,
                if is_trailing(ss[i as int], trailing) {
                    v
                } else {
                    acc
                },
            ),
        }
    }
}

/// A block in its own scope; only the trailing value flows onward.
#[verifier::opaque]
pub open spec fn walk_block<'t>(
    cx: Cx<'t>,
    d: bool,
    st: LowView<'t>,
    b: AstBlock,
    want_value: bool,
) -> Out<'t>
    decreases level(d), b, 0nat,
{
    let trailing = if want_value {
        b.trailing
    } else {
        None
    };
    match walk_stmts(cx, d, st.push_scope(), b.stmts, 0, trailing, ValView::none()) {
        (s, Err(n)) => (s, Err(n)),
        (s, Ok(v)) => match close_scope(cx, d, s, closing(b.span)) {
            (s1, Err(n)) => (s1, Err(n)),
            (s1, Ok(_)) => gives(s1, v),
        },
    }
}

// ------------------------------------------------- the walk, as executed --

pub open spec fn val_result(r: Result<Val, NotYet>) -> Result<ValView, NotYetView> {
    match r {
        Ok(v) => Ok(v@),
        Err(n) => Err(n@),
    }
}

pub open spec fn unit_result(r: Result<(), NotYet>) -> Result<(), NotYetView> {
    match r {
        Ok(_) => Ok(()),
        Err(n) => Err(n@),
    }
}

/// A produced value names only things that exist.
pub open spec fn result_ok(st: LowView<'_>, r: Result<Val, NotYet>) -> bool {
    r matches Ok(v) ==> st.val_ok(v@)
}

/// Every recorded drop is of a declared local.
pub open spec fn drops_in(list: Seq<Cleanup<'_>>, locals: nat) -> bool {
    forall|i: int|
        0 <= i < list.len() ==> ((#[trigger] list[i]) matches Cleanup::DropLocal(l) ==> l.0
            < locals)
}

/// The innermost scope is gone; nothing else is.
pub open spec fn left_scope<'t>(a: Lowerer<'t>, b: Lowerer<'t>) -> bool {
    &&& b.inv()
    &&& b.cx == a.cx
    &&& a@.keeps_ids(b@)
    &&& b@.scopes.len() + 1 >= a@.scopes.len()
    &&& b@.loops.len() >= a@.loops.len()
    &&& b@.ambient.len() >= a@.ambient.len()
    &&& b@.open.len() >= a@.open.len()
    &&& b@.claims.len() >= a@.claims.len()
}

pub proof fn lemma_none_ok(st: LowView<'_>)
    ensures
        st.val_ok(ValView::none()),
{
    reveal(cells_in);
}

pub proof fn lemma_site_ok(st: LowView<'_>, s: SiteId, at: Span)
    requires
        s.0 < st.sites.len(),
    ensures
        st.val_ok(ValView::site(s, at)),
{
    reveal(cells_in);
}

pub proof fn lemma_insert_cells(s: Seq<SiteId>, more: Seq<SiteId>, n: nat, sites: nat)
    requires
        cells_in(s, sites),
        cells_in(more, sites),
        n <= more.len(),
    ensures
        cells_in(insert_sites(s, more, n), sites),
    decreases n,
{
    if n > 0 {
        lemma_insert_cells(s, more, (n - 1) as nat, sites);
        reveal(cells_in);
        let a = insert_sites(s, more, (n - 1) as nat);
        let x = more[n - 1];
        let b = insert_site(a, x);
        if !a.contains(x) {
            crate::lowstate::lemma_slot_range(a, x, 0);
            assert forall|i: int| 0 <= i < b.len() implies (#[trigger] b[i]).0 < sites by {
                let k = crate::lowstate::site_slot(a, x, 0);
                if i < k {
                    assert(b[i] == a[i]);
                } else if i > k {
                    assert(b[i] == a[i - 1]);
                }
            }
        }
    }
}

pub proof fn lemma_merge_ok(st: LowView<'_>, a: ValView, b: ValView)
    requires
        st.val_ok(a),
        st.val_ok(b),
    ensures
        st.val_ok(a.merge(b)),
{
    lemma_insert_cells(a.sites, b.sites, b.sites.len(), st.sites.len());
    let m = a.merge(b);
    assert forall|i: int| 0 <= i < m.region_fields.len() implies (#[trigger] m.region_fields[i]).1.0
        < st.rt.regions.len() by {
        if i < a.region_fields.len() {
            assert(m.region_fields[i] == a.region_fields[i]);
        } else {
            assert(m.region_fields[i] == b.region_fields[i - a.region_fields.len()]);
        }
    }
}

pub open spec fn val_views(v: Seq<Val>) -> Seq<ValView> {
    Seq::new(v.len(), |i: int| v[i]@)
}

pub open spec fn vals_result(r: Result<Vec<Val>, NotYet>) -> Result<Seq<ValView>, NotYetView> {
    match r {
        Ok(v) => Ok(val_views(v@)),
        Err(n) => Err(n@),
    }
}

pub open spec fn vals_ok(st: LowView<'_>, v: Seq<ValView>) -> bool {
    forall|i: int| 0 <= i < v.len() ==> st.val_ok(#[trigger] v[i])
}

pub proof fn lemma_vals_kept(a: LowView<'_>, b: LowView<'_>, v: Seq<ValView>)
    requires
        vals_ok(a, v),
        a.keeps_ids(b),
    ensures
        vals_ok(b, v),
{
    assert forall|i: int| 0 <= i < v.len() implies b.val_ok(#[trigger] v[i]) by {
        lemma_val_kept(a, b, v[i]);
    }
}

pub open spec fn held_view(h: Option<&Vec<SiteId>>) -> Option<Seq<SiteId>> {
    match h {
        Some(v) => Some(v@),
        None => None,
    }
}

} // verus!
