//! The walk over statements and values: which place an expression names, what
//! using it records, in which order statements and pending obligations are
//! walked, and what the raw tier demands.

use vstd::prelude::*;

use crate::ast::{Arg, Block as AstBlock, Expr, ExprKind, PrefixOp, Statement};
use crate::cfg::{BlockId, CallView, CfgView, LocalId, ParamMode, SiteId, StmtView};
use crate::excl::{excl_diags, has_call, law_same_place_twice_is_refused, refused_at};
use crate::diag::{Code, NotYetView, Span};
use crate::lowbind::{expr_kind, raw_indexed};
use crate::lower::{
    as_place, assume_operands, call_head, call_on, close_scope, eval_call, eval_loop, eval_named,
    eval_prefix, eval_value, eval_while, lower_args, lower_receiver, pending_in, raw_index,
    read_operand, read_operands, run_pending, share_all, use_operand, walk_block, walk_stmt,
    walk_stmts, Gathered,
};
use crate::lowstate::{Cleanup, Cx, LowView, ValView};
use crate::moves::{
    empty_use_at, is_edge, is_path, law_move_on_a_cycle_is_reported, left_empty, move_diags,
};
use crate::place::{law_intern, law_overlap_reflexive, BaseView, PlaceId, PlaceView};
use crate::shape::{
    law_call_records_its_surface, law_loop_goes_round, law_surface_holds_both,
    law_uses_are_recorded, law_values_move, law_while_goes_round, leads, loop_shape, names_place,
    recorded, reported, stands, walked, while_shape,
};
use crate::types::{CallSig, TyKind};

verus! {

// ----------------------------------------------------------------- places --

/// A name stands for the whole local that it was declared as, with its type.
pub proof fn law_path_names_its_local<'t>(
    cx: Cx<'t>,
    d: bool,
    st: LowView<'t>,
    e: Expr,
    l: LocalId,
)
    requires
        e.kind matches ExprKind::Path(name) && st.lookup(name@) == Some(l),
        st.places.wf(),
        st.places.places.len() < u32::MAX,
    ensures
        ({
            let (s, r) = as_place(cx, d, st, e);
            &&& r matches Some((p, ty)) && s.places.has(p) && s.places.at(p) == (PlaceView {
                base: BaseView::Local(l.0),
                proj: Seq::empty(),
            }) && ty == st.tys[l.0 as int]
            &&& s.blocks == st.blocks && s.cur == st.cur && s.diags == st.diags
        }),
{
    reveal(as_place);
    let ty = st.tys[l.0 as int];
    law_intern(st.places, PlaceView::local(l.0), cx.tabs.opt_copy_spec(ty));
}

/// Parentheses name what they hold.
pub proof fn law_parentheses_are_transparent<'t>(
    cx: Cx<'t>,
    d: bool,
    st: LowView<'t>,
    e: Expr,
    x: Expr,
)
    requires
        e.kind matches ExprKind::Paren(y, _) && *y == x,
    ensures
        as_place(cx, d, st, e) == as_place(cx, d, st, x),
        eval_value(cx, d, st, e) == eval_value(cx, d, st, x),
{
    reveal_with_fuel(as_place, 2);
    reveal_with_fuel(eval_value, 2);
}

/// A place in value position is used as a value of its type is: it moves
/// out, unless it copies.
pub proof fn law_naming_a_value_moves_it<'t>(
    cx: Cx<'t>,
    d: bool,
    st: LowView<'t>,
    e: Expr,
    s: LowView<'t>,
    p: PlaceId,
)
    requires
        e.kind is Path || e.kind is Member,
        !raw_indexed(cx, e),
        as_place(cx, d, st, e).0 == s,
        as_place(cx, d, st, e).1 matches Some((x, _)) && x == p,
        stands(s, s.cur),
        s.places.at(p).base is Local,
        !walked(s, p),
    ensures
        ({
            let out = eval_value(cx, d, st, e);
            &&& out.1 is Ok
            &&& !s.places.copies(p) ==> recorded(
                s,
                out.0,
                StmtView::Move { place: p, span: e.span },
            )
            &&& s.places.copies(p) ==> recorded(s, out.0, StmtView::Read { place: p, span: e.span })
        }),
{
    reveal(eval_value);
    reveal(eval_named);
    reveal(as_place);
    assert(eval_value(cx, d, st, e) == eval_named(cx, d, st, e));
    law_values_move(s, p, e.span);
}

/// An operand that is only read is read where it stands, and stays.
pub proof fn law_reading_keeps<'t>(
    cx: Cx<'t>,
    d: bool,
    st: LowView<'t>,
    e: Expr,
    s: LowView<'t>,
    p: PlaceId,
)
    requires
        as_place(cx, d, st, e).0 == s,
        as_place(cx, d, st, e).1 matches Some((x, _)) && x == p,
        stands(s, s.cur),
    ensures
        read_operand(cx, d, st, e).1 is Ok,
        recorded(s, read_operand(cx, d, st, e).0, StmtView::Read { place: p, span: e.span }),
{
    reveal(read_operand);
    reveal(as_place);
    law_uses_are_recorded(s, p, e.span);
}

/// `move` consumes its operand; `copy` reads it and makes a fresh value.
pub proof fn law_move_and_copy<'t>(
    cx: Cx<'t>,
    d: bool,
    st: LowView<'t>,
    e: Expr,
    x: Expr,
    op: PrefixOp,
    s: LowView<'t>,
    p: PlaceId,
)
    requires
        e.kind matches ExprKind::Prefix(o, y) && o == op && *y == x,
        as_place(cx, d, st, x).0 == s,
        as_place(cx, d, st, x).1 matches Some((q, _)) && q == p,
        stands(s, s.cur),
        s.places.at(p).base is Local,
        !walked(s, p),
        !s.places.copies(p),
    ensures
        ({
            let (out, r) = eval_prefix(cx, d, st, e);
            let b = s.cur.0 as int;
            let n = s.blocks[b].stmts.len() as int;
            &&& op is Move ==> recorded(s, out, StmtView::Move { place: p, span: x.span })
            &&& op is Copy ==> out.blocks[b].stmts.len() == n + 2 && out.blocks[b].stmts[n] == (
            StmtView::Read { place: p, span: x.span }) && out.blocks[b].stmts[n + 1] == (
            StmtView::Alloc { site: SiteId(s.sites.len() as u32), span: e.span }) && out.sites.len()
                == s.sites.len() + 1
        }),
{
    reveal(eval_prefix);
    reveal(use_operand);
    reveal(as_place);
    law_values_move(s, p, x.span);
    law_uses_are_recorded(s, p, x.span);
    if op is Move {
        assert(eval_prefix(cx, d, st, e) == use_operand(cx, d, st, x));
    }
}

// ---------------------------------------------------------------- raw tier --

/// A raw access is recorded, as the read or the write that it is; outside
/// `unsafe` it is an E1301 besides, there.
pub proof fn law_raw_access_is_recorded<'t>(
    cx: Cx<'t>,
    d: bool,
    st: LowView<'t>,
    e: Expr,
    callee: Expr,
    args: Vec<Expr>,
    write: bool,
    s0: LowView<'t>,
    s1: LowView<'t>,
)
    requires
        e.kind matches ExprKind::Bracket { callee: c, args: a, .. } && *c == callee && a == args,
        st.in_unsafe ==> s0 == st,
        !st.in_unsafe ==> s0 == st.require_unsafe(
            if write {
                "a raw pointer write"@
            } else {
                "a raw pointer read"@
            },
            e.span,
        ),
        read_operand(cx, d, s0, callee).1 is Ok,
        read_operands(cx, d, read_operand(cx, d, s0, callee).0, args, 0) == (
            s1,
            Ok::<(), NotYetView>(()),
        ),
        stands(s1, s1.cur),
    ensures
        !st.in_unsafe ==> reported(st, s0, Code::E1301, e.span),
        recorded(
            s1,
            raw_index(cx, d, st, e, write).0,
            if write {
                StmtView::RawWrite { ptr: callee.text@, span: e.span }
            } else {
                StmtView::RawRead { ptr: callee.text@, span: e.span }
            },
        ),
{
    reveal(raw_index);
    reveal(read_operand);
    reveal(read_operands);
    if !st.in_unsafe {
        assert(s0.diags.drop_last() =~= st.diags);
    }
}

/// `assume noalias` takes raw pointers only: another operand is an E1304
/// where it stands.
pub proof fn law_assume_takes_pointers<'t>(
    cx: Cx<'t>,
    d: bool,
    st: LowView<'t>,
    es: Vec<Expr>,
    i: nat,
    s: LowView<'t>,
)
    requires
        i < es@.len(),
        read_operand(cx, d, st, es@[i as int]).0 == s,
        read_operand(cx, d, st, es@[i as int]).1 is Ok,
    ensures
        ({
            let x = es@[i as int];
            let fine = match expr_kind(cx, x) {
                Some(TyKind::Ptr(_)) | Some(TyKind::Error) | Some(TyKind::Never) => true,
                _ => false,
            };
            &&& fine ==> assume_operands(cx, d, st, es, i) == assume_operands(cx, d, s, es, i + 1)
            &&& !fine ==> exists|b: LowView<'t>| #[trigger]
                reported(s, b, Code::E1304, x.span) && b == (LowView { diags: b.diags, ..s })
                    && assume_operands(cx, d, st, es, i) == assume_operands(cx, d, b, es, i + 1)
        }),
{
    reveal(assume_operands);
    reveal(read_operand);
    let x = es@[i as int];
    let b = s.report(
        crate::lower::assume_diag(x.span, cx.tabs.opt_text_of(crate::lowbind::expr_ty(x))),
    );
    assert(b.diags.drop_last() =~= s.diags);
    assert(reported(s, b, Code::E1304, x.span));
}

// ---------------------------------------------------------------- counting --

/// `shared` makes a cell of its operand: a fresh allocation that outlives
/// its region, as does everything that it holds.
pub proof fn law_shared_outlives<'t>(
    cx: Cx<'t>,
    d: bool,
    st: LowView<'t>,
    e: Expr,
    x: Expr,
    s: LowView<'t>,
    v: ValView,
    i: int,
)
    requires
        e.kind matches ExprKind::Prefix(PrefixOp::Shared, y) && *y == x,
        use_operand(cx, d, st, x) == (s, Ok::<ValView, NotYetView>(v)),
        s.shared_site.len() == s.sites.len(),
        s.sites.len() < u32::MAX,
        forall|k: int| 0 <= k < v.sites.len() ==> (#[trigger] v.sites[k]).0 < s.sites.len(),
    ensures
        ({
            let (out, r) = eval_prefix(cx, d, st, e);
            let fresh = s.sites.len() as int;
            &&& r is Ok
            &&& out.sites.len() == s.sites.len() + 1
            &&& out.shared_site[fresh]
            &&& out.rc_cells.len() > 0 && out.rc_cells.last().0 == fresh
            &&& 0 <= i < v.sites.len() ==> out.shared_site[v.sites[i].0 as int]
        }),
{
    reveal(eval_prefix);
    reveal(use_operand);
    lemma_share(s, v.sites, v.sites.len());
    let s1 = share_all(s, v.sites, v.sites.len());
    if 0 <= i < v.sites.len() {
        assert(s1.shared_site[v.sites[i].0 as int]);
    }
}

proof fn lemma_share<'t>(st: LowView<'t>, sites: Seq<SiteId>, n: nat)
    requires
        n <= sites.len(),
        st.shared_site.len() == st.sites.len(),
        forall|k: int| 0 <= k < sites.len() ==> (#[trigger] sites[k]).0 < st.sites.len(),
    ensures
        ({
            let b = share_all(st, sites, n);
            &&& b == (LowView { shared_site: b.shared_site, ..st })
            &&& b.shared_site.len() == st.shared_site.len()
            &&& forall|k: int| 0 <= k < n ==> b.shared_site[(#[trigger] sites[k]).0 as int]
        }),
    decreases n,
{
    reveal(share_all);
    if n > 0 {
        lemma_share(st, sites, (n - 1) as nat);
        assert(sites[n - 1].0 < st.sites.len());
    }
}

/// Cloning a shared cell by its name is one owner more: it is recorded.
pub proof fn law_clone_is_recorded<'t>(
    cx: Cx<'t>,
    d: bool,
    st: LowView<'t>,
    cs: CallSig,
    recv: Expr,
    recv_at: Span,
    at: Span,
    g: Gathered,
    s: LowView<'t>,
    s2: LowView<'t>,
    p: PlaceId,
)
    requires
        cs.callee@ == "clone"@,
        recv.kind is Path || recv.kind is Member,
        expr_kind(cx, recv) matches Some(TyKind::Shared(_)),
        cs.params@.len() > 0,
        lower_receiver(cx, d, st, recv, recv_at, cs.params@[0], g).0 == s,
        lower_receiver(cx, d, st, recv, recv_at, cs.params@[0], g).2 is Ok,
        as_place(cx, d, s, recv).0 == s2,
        as_place(cx, d, s, recv).1 matches Some((q, _)) && q == p,
        stands(s2, s2.cur),
    ensures
        recorded(
            s2,
            call_on(cx, d, st, cs, recv, recv_at, at, g).0,
            StmtView::Dup { place: p, span: at },
        ),
{
    reveal(call_on);
    reveal(lower_receiver);
    reveal(as_place);
}

// -------------------------------------------------------------- statements --

/// Statements are walked one after another; what the trailing expression
/// gives is what the block gives, and nothing else is.
pub proof fn law_statements_are_walked_in_order<'t>(
    cx: Cx<'t>,
    d: bool,
    st: LowView<'t>,
    ss: Vec<Statement>,
    i: nat,
    trailing: Option<Span>,
    acc: ValView,
    s: LowView<'t>,
    v: ValView,
)
    requires
        i < ss@.len(),
        walk_stmt(cx, d, st, ss@[i as int]) == (s, Ok::<ValView, NotYetView>(v)),
    ensures
        ({
            let last = ss@[i as int] matches Statement::Expr(e) && trailing == Some(e.span);
            walk_stmts(cx, d, st, ss, i, trailing, acc) == walk_stmts(
                cx,
                d,
                s,
                ss,
                i + 1,
                trailing,
                if last {
                    v
                } else {
                    acc
                },
            )
        }),
{
    reveal(walk_stmts);
    reveal(walk_stmt);
}

/// A block is walked in a scope of its own, which is closed at its end.
pub proof fn law_blocks_are_scopes<'t>(
    cx: Cx<'t>,
    d: bool,
    st: LowView<'t>,
    b: AstBlock,
    want: bool,
    s: LowView<'t>,
    v: ValView,
)
    requires
        walk_stmts(
            cx,
            d,
            st.push_scope(),
            b.stmts,
            0,
            if want {
                b.trailing
            } else {
                None
            },
            ValView::none(),
        ) == (s, Ok::<ValView, NotYetView>(v)),
        walk_block(cx, d, st, b, want).1 is Ok,
    ensures
        st.push_scope().scopes.len() == st.scopes.len() + 1,
        st.push_scope().scopes.last().names.len() == 0,
        st.push_scope().scopes.last().cleanup.len() == 0,
        walk_block(cx, d, st, b, want).1 == Ok::<ValView, NotYetView>(v),
        exists|at: Span|
            at.hi == b.span.hi && at.file == b.span.file && walk_block(cx, d, st, b, want).0 == (
            #[trigger] close_scope(cx, d, s, at)).0,
{
    reveal(walk_block);
    reveal(walk_stmts);
    reveal(close_scope);
    let at = crate::lowuse::closing(b.span);
    assert(walk_block(cx, d, st, b, want).0 == close_scope(cx, d, s, at).0);
}

/// A `defer` is walked when its scope is left, not where it stands: it joins
/// the obligations of the innermost scope, behind those it has.
pub proof fn law_defer_is_an_obligation<'t>(
    cx: Cx<'t>,
    d: bool,
    st: LowView<'t>,
    s: Statement,
    expr: Expr,
    on_error: bool,
)
    requires
        s == (Statement::Defer { expr, on_error }),
        st.scopes.len() > 0,
    ensures
        ({
            let (out, r) = walk_stmt(cx, d, st, s);
            let was = st.scopes.last();
            let now = out.scopes.last();
            &&& r is Ok
            &&& out.blocks == st.blocks && out.diags == st.diags && out.cur == st.cur
            &&& now.names == was.names
            &&& now.cleanup.len() == was.cleanup.len() + 1
            &&& now.cleanup.drop_last() == was.cleanup
            &&& now.cleanup.last() matches Cleanup::Defer(e, x) && *e == expr && x == on_error
        }),
{
    reveal(walk_stmt);
    let now = walk_stmt(cx, d, st, s).0.scopes.last();
    assert(now.cleanup.drop_last() =~= st.scopes.last().cleanup);
}

/// The obligations of a scope are met in the reverse of their order; those
/// for errors only are left out on every other path.
pub proof fn law_obligations_are_met_last_first<'t>(c: Seq<Cleanup<'t>>, n: nat, on_error: bool)
    requires
        n <= c.len(),
        on_error || forall|i: int|
            0 <= i < n ==> !((#[trigger] c[i]) matches Cleanup::Defer(_, true)),
    ensures
        pending_in(c, n, on_error).len() == n,
        forall|i: int| 0 <= i < n ==> #[trigger] pending_in(c, n, on_error)[i] == c[n - 1 - i],
    decreases n,
{
    if n > 0 {
        law_obligations_are_met_last_first(c, (n - 1) as nat, on_error);
        assert(on_error || !(c[n - 1] matches Cleanup::Defer(_, true)));
        let rest = pending_in(c, (n - 1) as nat, on_error);
        let all = pending_in(c, n, on_error);
        assert(all == seq![c[n - 1]] + rest);
        assert forall|i: int| 0 <= i < n implies #[trigger] all[i] == c[n - 1 - i] by {
            if i > 0 {
                assert(all[i] == rest[i - 1]);
            }
        }
    }
}

/// An obligation for errors only is none on another path.
pub proof fn law_errors_only<'t>(c: Seq<Cleanup<'t>>, n: nat, i: int)
    requires
        n <= c.len(),
        0 <= i < pending_in(c, n, false).len(),
    ensures
        !(pending_in(c, n, false)[i] matches Cleanup::Defer(_, true)),
    decreases n,
{
    if n > 0 {
        let rest = pending_in(c, (n - 1) as nat, false);
        let all = pending_in(c, n, false);
        if all.len() == rest.len() {
            law_errors_only(c, (n - 1) as nat, i);
        } else if i > 0 {
            law_errors_only(c, (n - 1) as nat, i - 1);
            assert(all[i] == rest[i - 1]);
        }
    }
}

/// A counted local that goes out of scope is dropped: its whole place, once.
pub proof fn law_counted_local_is_dropped<'t>(
    cx: Cx<'t>,
    st: LowView<'t>,
    list: Seq<Cleanup<'t>>,
    i: nat,
    l: LocalId,
    s: LowView<'t>,
)
    requires
        i < list.len(),
        list[i as int] == Cleanup::<'t>::DropLocal(l),
        st.places.wf(),
        st.places.places.len() < u32::MAX,
        stands(st, st.cur),
    ensures
        exists|b: LowView<'t>, p: PlaceId|
            #![trigger recorded(st, b, StmtView::Drop { place: p, span: st.locals[l.0 as int].span })]
            b.places.at(p) == PlaceView::local(l.0) && recorded(
                st,
                b,
                StmtView::Drop { place: p, span: st.locals[l.0 as int].span },
            ) && run_pending(cx, st, list, i) == run_pending(cx, b, list, i + 1),
{
    reveal(run_pending);
    law_intern(st.places, PlaceView::local(l.0), false);
    let t = st.intern_local(l, false);
    let p = t.bind_place(l);
    let b = t.push(StmtView::Drop { place: p, span: t.locals[l.0 as int].span });
    assert(recorded(st, b, StmtView::Drop { place: p, span: st.locals[l.0 as int].span }));
    assert(b.places.at(p) == PlaceView::local(l.0));
    assert(run_pending(cx, st, list, i) == run_pending(cx, b, list, i + 1));
}

// ------------------------------------------------------------------ rounds --

/// The path comes to the block at `h`, and from there, by the block at `i`
/// where statement `k` takes the value of the place away, to its end; nothing
/// on that way gives the place a value again.
pub open spec fn takes_away(
    cfg: CfgView,
    path: Seq<int>,
    h: int,
    i: int,
    k: int,
    p: PlaceId,
    at: Span,
) -> bool {
    &&& cfg.wf()
    &&& is_path(cfg, path)
    &&& cfg.places.has(p)
    &&& 0 <= h <= i < path.len()
    &&& 0 <= path.last() < cfg.blocks.len()
    &&& 0 <= k < cfg.blocks[path[i]].stmts.len()
    &&& cfg.blocks[path[i]].stmts[k] == (StmtView::Move { place: p, span: at })
    &&& forall|j: int, n: int|
        h <= j < path.len() && 0 <= n < cfg.blocks[path[j]].stmts.len() ==> !(
        #[trigger] cfg.blocks[path[j]].stmts[n] matches StmtView::Init { place, .. }
            && cfg.places.overlaps(place, p))
}

proof fn lemma_second_round(
    cfg: CfgView,
    path: Seq<int>,
    h: int,
    i: int,
    k: int,
    p: PlaceId,
    at: Span,
)
    requires
        takes_away(cfg, path, h, i, k, p, at),
        is_edge(cfg, path.last(), path[h]),
    ensures
        empty_use_at(move_diags(cfg), at),
{
    let again = path + path.subrange(h, i + 1);
    let n = path.len() as int;
    assert(again.last() == path[i]);
    assert(is_path(cfg, again)) by {
        assert forall|j: int| 0 <= j < again.len() - 1 implies is_edge(
            cfg,
            #[trigger] again[j],
            again[j + 1],
        ) by {
            if j < n - 1 {
                assert(again[j] == path[j] && again[j + 1] == path[j + 1]);
                assert(is_edge(cfg, path[j], path[j + 1]));
            } else if j == n - 1 {
                assert(again[j + 1] == path[h]);
            } else {
                let x = h + (j - n);
                assert(again[j] == path[x] && again[j + 1] == path[x + 1]);
                assert(is_edge(cfg, path[x], path[x + 1]));
            }
        }
    }
    assert forall|j: int| h <= j < again.len() implies left_empty(
        cfg,
        #[trigger] again[j],
        0,
        cfg.blocks[again[j]].stmts.len() as int,
        p,
    ) by {
        let x = if j < n {
            j
        } else {
            h + (j - n)
        };
        assert(again[j] == path[x]);
    }
    assert(again[i] == path[i]);
    law_overlap_reflexive(cfg.places.at(p));
    law_move_on_a_cycle_is_reported(cfg, again, i, k, p, at);
}

proof fn lemma_leads_edge<'t>(cfg: CfgView, out: LowView<'t>, a: BlockId, b: BlockId)
    requires
        cfg.blocks == out.blocks,
        leads(out, a, b),
        stands(out, a),
    ensures
        is_edge(cfg, a.0 as int, b.0 as int),
{
    let s = out.blocks[a.0 as int].succs;
    let j = choose|j: int| 0 <= j < s.len() && s[j] == b;
    assert(cfg.blocks[a.0 as int].succs[j].0 as int == b.0 as int);
}

/// A value that a round of a `while` takes away, and that no step of the
/// round gives back, is gone in the next round: an E1001 where it is taken.
/// A round goes from the head, where the condition is evaluated, to the block
/// in which the body ends.
pub proof fn law_while_takes_only_once<'t>(
    cx: Cx<'t>,
    d: bool,
    st: LowView<'t>,
    e: Expr,
    cond: Expr,
    body: AstBlock,
    cfg: CfgView,
    path: Seq<int>,
    h: int,
    i: int,
    k: int,
    p: PlaceId,
    at: Span,
)
    requires
        e.kind matches ExprKind::While { cond: c, body: b } && *c == cond && b == body,
        eval_while(cx, d, st, e).1 is Ok,
        cfg.blocks == eval_while(cx, d, st, e).0.blocks,
        takes_away(cfg, path, h, i, k, p, at),
    ensures
        exists|start: LowView<'t>, tested: LowView<'t>, entry: LowView<'t>, fin: LowView<'t>|
            #[trigger] while_shape(
                cx,
                d,
                st,
                cond,
                body,
                eval_while(cx, d, st, e).0,
                start,
                tested,
                entry,
                fin,
            ) && (path[h] == start.cur.0 && path.last() == fin.cur.0 && stands(fin, fin.cur)
                ==> empty_use_at(move_diags(cfg), at)),
{
    let out = eval_while(cx, d, st, e).0;
    law_while_goes_round(cx, d, st, e, cond, body);
    let (start, tested, entry, fin) = choose|
        start: LowView<'t>,
        tested: LowView<'t>,
        entry: LowView<'t>,
        fin: LowView<'t>,
    | #[trigger]
        while_shape(cx, d, st, cond, body, out, start, tested, entry, fin);
    assert(while_shape(cx, d, st, cond, body, out, start, tested, entry, fin));
    if path[h] == start.cur.0 && path.last() == fin.cur.0 && stands(fin, fin.cur) {
        lemma_leads_edge(cfg, out, fin.cur, start.cur);
        lemma_second_round(cfg, path, h, i, k, p, at);
    }
}

/// The same of a `loop`: a round goes from its start to the block in which
/// its body ends.
pub proof fn law_loop_takes_only_once<'t>(
    cx: Cx<'t>,
    d: bool,
    st: LowView<'t>,
    e: Expr,
    body: AstBlock,
    cfg: CfgView,
    path: Seq<int>,
    h: int,
    i: int,
    k: int,
    p: PlaceId,
    at: Span,
)
    requires
        e.kind matches ExprKind::Loop(b) && b == body,
        eval_loop(cx, d, st, e).1 is Ok,
        cfg.blocks == eval_loop(cx, d, st, e).0.blocks,
        takes_away(cfg, path, h, i, k, p, at),
    ensures
        exists|entry: LowView<'t>, fin: LowView<'t>| #[trigger]
            loop_shape(cx, d, st, body, eval_loop(cx, d, st, e).0, entry, fin) && (path[h]
                == entry.cur.0 && path.last() == fin.cur.0 && stands(fin, fin.cur)
                ==> empty_use_at(move_diags(cfg), at)),
{
    let out = eval_loop(cx, d, st, e).0;
    law_loop_goes_round(cx, d, st, e, body);
    let (entry, fin) = choose|entry: LowView<'t>, fin: LowView<'t>| #[trigger]
        loop_shape(cx, d, st, body, out, entry, fin);
    assert(loop_shape(cx, d, st, body, out, entry, fin));
    if path[h] == entry.cur.0 && path.last() == fin.cur.0 && stands(fin, fin.cur) {
        lemma_leads_edge(cfg, out, fin.cur, entry.cur);
        lemma_second_round(cfg, path, h, i, k, p, at);
    }
}

/// A call that lends one place `mut` twice is refused, at the second of the
/// two arguments.
pub proof fn law_one_place_is_lent_once<'t>(
    cx: Cx<'t>,
    d: bool,
    st: LowView<'t>,
    e: Expr,
    callee: Expr,
    args: Vec<Arg>,
    cs: CallSig,
    g0: Gathered,
    cfg: CfgView,
    a: nat,
    b: nat,
    pl: PlaceId,
)
    requires
        e.kind matches ExprKind::Call { callee: c, args: v, sig, .. } && *c == callee && v == args
            && sig == Some(cs),
        !cs.ctor,
        !cs.c_call,
        !cs.has_self,
        g0.surface == (CallView {
            callee: cs.callee@,
            span: e.span,
            mut_args: Seq::empty(),
            read_args: Seq::empty(),
            take_args: Seq::empty(),
            c_call: false,
        }),
        g0.carry == Seq::<SiteId>::empty(),
        g0.muts == Seq::<(PlaceId, Span)>::empty(),
        g0.parts == Seq::<(ValView, Span)>::empty(),
        a < b < args@.len(),
        b < cs.params@.len(),
        cs.params@[a as int].mode == Some(ParamMode::Mut),
        cs.params@[b as int].mode == Some(ParamMode::Mut),
        cfg.blocks == eval_call(cx, d, st, e).0.blocks,
        ({
            let (s, g1, r) = call_head(cx, d, st, e, g0);
            let (s1, _, r2) = lower_args(cx, d, s, Some(cs), args, 0, g1);
            &&& r is Ok && r2 is Ok
            &&& stands(s1, s1.cur)
            &&& names_place(cx, d, s, cs, args, g1, a, pl)
            &&& names_place(cx, d, s, cs, args, g1, b, pl)
        }),
    ensures
        refused_at(excl_diags(cfg), args@[b as int].value.span),
{
    let (s, g1, r) = call_head(cx, d, st, e, g0);
    let (s1, g2, r2) = lower_args(cx, d, s, Some(cs), args, 0, g1);
    law_surface_holds_both(cx, d, s, cs, args, g1, a, b, pl);
    let m = g2.surface.mut_args;
    let (i, j) = choose|i: int, j: int|
        #![trigger m[i], m[j]]
        0 <= i < j < m.len() && m[i] == (pl, args@[a as int].value.span) && m[j] == (
            pl,
            args@[b as int].value.span,
        );
    law_call_records_its_surface(cx, d, st, e, callee, args, cs, g0);
    let x = s1.cur.0 as int;
    let k = s1.blocks[x].stmts.len() as int;
    assert(cfg.blocks[x].stmts[k] == StmtView::Call(g2.surface));
    assert(has_call(cfg, g2.surface));
    law_same_place_twice_is_refused(cfg, g2.surface, i, j);
}

} // verus!
