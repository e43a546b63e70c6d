//! What the walk makes of a body: the shape of the check graph, the uses it
//! records and the rules it reports, stated over the graph and the
//! diagnostics themselves.

use vstd::prelude::*;

use crate::ast::{
    Arg, Arm, AssignOp, Bind, Block as AstBlock, Expr, ExprKind, Statement, StrategySyntax,
};
use crate::cfg::{BlockId, CallView, LocalId, ParamMode, RegionId, RegionKind, SiteId, StmtView};
use crate::diag::{Code, NotYetView, Span};
use crate::lower::{
    as_place, bind_arm, call_head, call_on, call_receiver, call_start, check_views, claim_receiver,
    close_scope, emit_defers, enter_region, eval_arms, eval_bin, eval_call, eval_else, eval_for,
    eval_if, eval_loop, eval_region_block, eval_return, eval_try, eval_unsafe, eval_value,
    eval_while, finish_call, leave_to, lend_fields, lower_arg, lower_args, lower_assign, lower_one,
    lower_receiver, open_for, open_region, pass_receiver, read_operand, read_receiver, reopen_diag,
    take_receiver, walk_block, Gathered,
};
use crate::lowstate::{Cx, LowView, LoopFrame, ValView};
use crate::lowbind::{bind_ty, binds_of, field_first, opt_fields_of, strategy_of, UNNAMED};
use crate::lowregion::held_sites;
use crate::lowuse::closing;
use crate::place::{BaseView, PlaceId, PlaceView, ProjView};
use crate::types::{CallSig, ParamSig, Ty};

verus! {

/// The block stands in the graph.
pub open spec fn stands(st: LowView<'_>, b: BlockId) -> bool {
    b.0 < st.blocks.len()
}

/// Control may go from one block to the other.
pub open spec fn leads(st: LowView<'_>, from: BlockId, to: BlockId) -> bool {
    st.blocks[from.0 as int].succs.contains(to)
}

/// Nothing is reported.
pub open spec fn quiet(a: LowView<'_>, b: LowView<'_>) -> bool {
    b.diags == a.diags
}

/// One error more is reported: the rule's, there.
pub open spec fn reported(a: LowView<'_>, b: LowView<'_>, code: Code, at: Span) -> bool {
    &&& b.diags.len() == a.diags.len() + 1
    &&& b.diags.drop_last() == a.diags
    &&& b.diags.last().code == code
    &&& b.diags.last().primary == at
    &&& b.diags.last().severity is Error
}

/// One statement more stands at the end of the current block; the rest of
/// the graph is as it was.
pub open spec fn recorded(a: LowView<'_>, b: LowView<'_>, s: StmtView) -> bool {
    &&& b.cur == a.cur
    &&& b.blocks.len() == a.blocks.len()
    &&& b.blocks[a.cur.0 as int].stmts == a.blocks[a.cur.0 as int].stmts.push(s)
    &&& b.blocks[a.cur.0 as int].succs == a.blocks[a.cur.0 as int].succs
    &&& forall|i: int|
        0 <= i < a.blocks.len() && i != a.cur.0 as int ==> #[trigger] b.blocks[i] == a.blocks[i]
}

/// The state with `n` fresh blocks, in the first of which the walk goes on
/// (or stays where it was, with none): nothing but the edges out of the
/// block it came from, and the stack of loops, is another.
pub open spec fn opened<'t>(a: LowView<'t>, b: LowView<'t>, n: nat) -> bool {
    &&& b == (LowView { blocks: b.blocks, cur: b.cur, loops: b.loops, ..a })
    &&& b.blocks.len() == a.blocks.len() + n
    &&& b.cur == BlockId(a.blocks.len() as u32)
    &&& forall|i: int|
        0 <= i < a.blocks.len() ==> (#[trigger] b.blocks[i]).stmts == a.blocks[i].stmts && (i
            != a.cur.0 as int ==> b.blocks[i] == a.blocks[i])
    &&& forall|i: int|
        a.blocks.len() <= i < b.blocks.len() && i != a.cur.0 as int ==> (
        #[trigger] b.blocks[i]).stmts.len() == 0 && b.blocks[i].succs.len() == 0
}

// ------------------------------------------------------------------ loops --

/// How a `while` lies in the graph: `start` is the state at the loop head,
/// `tested` after the condition, `entry` at the body, `fin` after it.
pub open spec fn while_shape<'t>(
    cx: Cx<'t>,
    d: bool,
    st: LowView<'t>,
    cond: Expr,
    body: AstBlock,
    out: LowView<'t>,
    start: LowView<'t>,
    tested: LowView<'t>,
    entry: LowView<'t>,
    fin: LowView<'t>,
) -> bool {
    // The loop is entered at a fresh head, where the condition is evaluated.
    &&& stands(st, st.cur) ==> opened(st, start, 1)
    &&& start.loops == st.loops
    &&& stands(st, st.cur) ==> leads(start, st.cur, start.cur)
    &&& eval_value(cx, d, start, cond).0 == tested
    // The condition decides between the body and the exit.
    &&& stands(tested, tested.cur) ==> opened(tested, entry, 2)
    &&& out.cur == BlockId((tested.blocks.len() + 1) as u32)
    &&& walk_block(cx, d, entry, body, false).0 == fin
    &&& stands(tested, tested.cur) ==> leads(entry, tested.cur, entry.cur) && leads(
        entry,
        tested.cur,
        out.cur,
    )
    // Inside, `break` goes to the exit and `continue` to the head.
    &&& entry.loops.drop_last() == tested.loops
    &&& entry.loops.last().break_to == out.cur
    &&& entry.loops.last().continue_to == start.cur
    // The end of the body goes back to the head.
    &&& stands(fin, fin.cur) ==> leads(out, fin.cur, start.cur)
}

/// A `while` goes round: the block in which its body ends leads back to the
/// head, where the condition is evaluated again.
pub proof fn law_while_goes_round<'t>(
    cx: Cx<'t>,
    d: bool,
    st: LowView<'t>,
    e: Expr,
    cond: Expr,
    body: AstBlock,
)
    requires
        e.kind matches ExprKind::While { cond: c, body: b } && *c == cond && b == body,
        eval_while(cx, d, st, e).1 is Ok,
    ensures
        exists|start: LowView<'t>, tested: LowView<'t>, entry: LowView<'t>, fin: LowView<'t>|
            #[trigger] while_shape(
                cx,
                d,
                st,
                cond,
                body,
                eval_while(cx, d, st, e).0,
                start,
                tested,
                entry,
                fin,
            ),
{
    reveal(eval_while);
    reveal(eval_value);
    reveal(walk_block);
    let out = eval_while(cx, d, st, e).0;
    let head = st.next_block();
    let start = st.new_block().goto(st.cur, head).at(head);
    let tested = eval_value(cx, d, start, cond).0;
    let inner = tested.next_block();
    let s2 = tested.new_block();
    let exit = s2.next_block();
    let s3 = s2.new_block().goto(tested.cur, inner).goto(tested.cur, exit).at(inner);
    let entry = s3.push_loop(
        LoopFrame { break_to: exit, continue_to: head, depth: s3.scopes.len() as usize },
    );
    let fin = walk_block(cx, d, entry, body, false).0;
    lemma_goto(st.new_block(), st.cur, head);
    lemma_goto(s2.new_block(), tested.cur, inner);
    lemma_goto(s2.new_block().goto(tested.cur, inner), tested.cur, exit);
    if stands(tested, tested.cur) {
        lemma_goto_keeps(
            s2.new_block().goto(tested.cur, inner),
            tested.cur,
            exit,
            tested.cur,
            inner,
        );
    }
    lemma_goto(fin.pop_loop(), fin.cur, head);
    assert(entry.loops.drop_last() =~= tested.loops);
    assert(while_shape(cx, d, st, cond, body, out, start, tested, entry, fin));
}

proof fn lemma_goto(st: LowView<'_>, from: BlockId, to: BlockId)
    ensures
        stands(st, from) ==> leads(st.goto(from, to), from, to) && st.goto(
            from,
            to,
        ).blocks.len() == st.blocks.len(),
{
    if stands(st, from) {
        let b = st.blocks[from.0 as int];
        if !b.succs.contains(to) {
            assert(b.succs.push(to)[b.succs.len() as int] == to);
        }
    }
}

proof fn lemma_goto_keeps(st: LowView<'_>, from: BlockId, to: BlockId, a: BlockId, b: BlockId)
    requires
        leads(st, a, b),
        stands(st, a),
        stands(st, from),
    ensures
        leads(st.goto(from, to), a, b),
{
    let s = st.blocks[a.0 as int].succs;
    let i = choose|i: int| 0 <= i < s.len() && s[i] == b;
    if a == from && !s.contains(to) {
        assert(s.push(to)[i] == b);
    }
}

/// How a `loop` lies in the graph: `entry` is the state at the body, `fin`
/// after it.
pub open spec fn loop_shape<'t>(
    cx: Cx<'t>,
    d: bool,
    st: LowView<'t>,
    body: AstBlock,
    out: LowView<'t>,
    entry: LowView<'t>,
    fin: LowView<'t>,
) -> bool {
    &&& stands(st, st.cur) ==> opened(st, entry, 2)
    &&& out.cur == BlockId((st.blocks.len() + 1) as u32)
    &&& stands(st, st.cur) ==> leads(entry, st.cur, entry.cur)
    &&& walk_block(cx, d, entry, body, false).0 == fin
    &&& entry.loops.drop_last() == st.loops
    &&& entry.loops.last().break_to == out.cur
    &&& entry.loops.last().continue_to == entry.cur
    &&& stands(fin, fin.cur) ==> leads(out, fin.cur, entry.cur)
}

/// A `loop` goes round: the end of its body leads back to its start.
pub proof fn law_loop_goes_round<'t>(
    cx: Cx<'t>,
    d: bool,
    st: LowView<'t>,
    e: Expr,
    body: AstBlock,
)
    requires
        e.kind matches ExprKind::Loop(b) && b == body,
        eval_loop(cx, d, st, e).1 is Ok,
    ensures
        exists|entry: LowView<'t>, fin: LowView<'t>| #[trigger]
            loop_shape(cx, d, st, body, eval_loop(cx, d, st, e).0, entry, fin),
{
    reveal(eval_loop);
    reveal(walk_block);
    let out = eval_loop(cx, d, st, e).0;
    let head = st.next_block();
    let s = st.new_block();
    let exit = s.next_block();
    let s1 = s.new_block().goto(st.cur, head).at(head);
    let entry = s1.push_loop(
        LoopFrame { break_to: exit, continue_to: head, depth: s1.scopes.len() as usize },
    );
    let fin = walk_block(cx, d, entry, body, false).0;
    lemma_goto(s.new_block(), st.cur, head);
    lemma_goto(fin.pop_loop(), fin.cur, head);
    assert(entry.loops.drop_last() =~= st.loops);
    assert(loop_shape(cx, d, st, body, out, entry, fin));
}

/// How a `for` lies in the graph: `entry` is the state at the body, `fin`
/// after its scope is closed.
pub open spec fn for_shape<'t>(
    cx: Cx<'t>,
    d: bool,
    body: AstBlock,
    out: LowView<'t>,
    entry: LowView<'t>,
    fin: LowView<'t>,
) -> bool {
    &&& exists|ended: LowView<'t>, at: Span|
        close_scope(cx, d, ended, at).0 == fin && (ended == walk_block(cx, d, entry, body, false).0.pop_loop()
            || ended == walk_block(cx, d, entry, body, false).0.pop_loop().pop_claim())
    &&& entry.loops.last().break_to == out.cur
    &&& stands(fin, fin.cur) ==> leads(out, fin.cur, entry.loops.last().continue_to)
}

/// The head of a `for` decides between the body and the exit, and the body
/// starts with the loop's frame pushed.
pub proof fn law_for_opens<'t>(
    cx: Cx<'t>,
    st: LowView<'t>,
)
    requires
        st.blocks.len() + 2 < u32::MAX,
        stands(st, st.cur),
    ensures
        ({
            let entry = open_for(cx, st, None);
            let frame = entry.loops.last();
            &&& leads(entry, st.cur, frame.continue_to)
            &&& leads(entry, frame.continue_to, entry.cur)
            &&& leads(entry, frame.continue_to, frame.break_to)
            &&& entry.cur != frame.break_to
            &&& frame.continue_to != frame.break_to
            &&& !stands(st, frame.continue_to) && !stands(st, frame.break_to)
        }),
{
    let head = st.next_block();
    let s1 = st.new_block().goto(st.cur, head);
    let inner = s1.next_block();
    let s2 = s1.new_block();
    let exit = s2.next_block();
    let s3 = s2.new_block();
    lemma_goto(st.new_block(), st.cur, head);
    lemma_goto(s3, head, inner);
    lemma_goto(s3.goto(head, inner), head, exit);
    lemma_goto_keeps(s3.goto(head, inner), head, exit, head, inner);
    assert(leads(s3, st.cur, head));
    lemma_goto_keeps(s3, head, inner, st.cur, head);
    lemma_goto_keeps(s3.goto(head, inner), head, exit, st.cur, head);
}

/// A `for` goes round: the end of its body leads back to the head.
pub proof fn law_for_goes_round<'t>(
    cx: Cx<'t>,
    d: bool,
    st: LowView<'t>,
    e: Expr,
    body: AstBlock,
)
    requires
        e.kind matches ExprKind::For { body: b, .. } && b == body,
        eval_for(cx, d, st, e).1 is Ok,
    ensures
        exists|entry: LowView<'t>, fin: LowView<'t>| #[trigger]
            for_shape(cx, d, body, eval_for(cx, d, st, e).0, entry, fin),
{
    reveal(eval_for);
    reveal(crate::lower::enter_for);
    reveal(walk_block);
    reveal(close_scope);
    let out = eval_for(cx, d, st, e).0;
    match e.kind {
        ExprKind::For { pattern, iterable, .. } => {
            let (s, claimed) = crate::lower::enter_for(cx, d, st, *iterable);
            let entry = open_for(cx, s, pattern);
            let walked = walk_block(cx, d, entry, body, false).0;
            let s7 = walked.pop_loop();
            let ended = if claimed->Ok_0 {
                s7.pop_claim()
            } else {
                s7
            };
            let at = crate::lowuse::closing(e.span);
            let fin = close_scope(cx, d, ended, at).0;
            lemma_goto(fin, fin.cur, entry.loops.last().continue_to);
            assert(close_scope(cx, d, ended, at).0 == fin);
            assert(for_shape(cx, d, body, out, entry, fin));
        },
        _ => {},
    }
}

/// `break` leads to the loop's exit and `continue` to its head, after the
/// pending work of the scopes in between; what follows is a block of its
/// own that nothing leads to.
pub proof fn law_jumps_lead<'t>(cx: Cx<'t>, d: bool, st: LowView<'t>, e: Expr)
    requires
        e.kind is Break || e.kind is Continue,
        st.loops.len() > 0,
        eval_value(cx, d, st, e).1 is Ok,
    ensures
        ({
            let frame = st.loops.last();
            let done = emit_defers(cx, d, st, frame.depth as nat, false).0;
            let out = eval_value(cx, d, st, e).0;
            let target = if e.kind is Break {
                frame.break_to
            } else {
                frame.continue_to
            };
            &&& stands(done, done.cur) ==> leads(out, done.cur, target)
            &&& stands(done, done.cur) ==> out.cur == BlockId(done.blocks.len() as u32)
                && out.blocks.len() == done.blocks.len() + 1
            &&& out.blocks.last().stmts.len() == 0
        }),
{
    reveal(eval_value);
    reveal(leave_to);
    reveal(emit_defers);
    let frame = st.loops.last();
    let target = if e.kind is Break {
        frame.break_to
    } else {
        frame.continue_to
    };
    let done = emit_defers(cx, d, st, frame.depth as nat, false).0;
    lemma_goto(done, done.cur, target);
    assert(eval_value(cx, d, st, e) == leave_to(cx, d, st, frame.depth as nat, target));
}

/// `return` leads to the exit of the body, after all pending work.
pub proof fn law_return_leads_out<'t>(cx: Cx<'t>, d: bool, st: LowView<'t>, e: Expr)
    requires
        e.kind matches ExprKind::Return(None),
        eval_value(cx, d, st, e).1 is Ok,
    ensures
        ({
            let done = emit_defers(cx, d, st, 0, false).0;
            let out = eval_value(cx, d, st, e).0;
            &&& stands(done, done.cur) ==> leads(out, done.cur, BlockId(1))
            &&& stands(done, done.cur) ==> out.cur == BlockId(done.blocks.len() as u32)
        }),
{
    reveal(eval_value);
    reveal(eval_return);
    reveal(leave_to);
    reveal(emit_defers);
    let done = emit_defers(cx, d, st, 0, false).0;
    lemma_goto(done, done.cur, BlockId(1));
    assert(eval_value(cx, d, st, e) == eval_return(cx, d, st, e));
    assert(eval_return(cx, d, st, e) == leave_to(cx, d, st, 0, BlockId(1)));
}

// --------------------------------------------------------------- branches --

/// How an `if` without an `else` lies in the graph: `tested` is the state
/// after the condition, `entry` at the branch, `fin` after it.
pub open spec fn if_shape<'t>(
    cx: Cx<'t>,
    d: bool,
    st: LowView<'t>,
    cond: Expr,
    then_block: AstBlock,
    out: LowView<'t>,
    tested: LowView<'t>,
    entry: LowView<'t>,
    fin: LowView<'t>,
) -> bool {
    &&& eval_value(cx, d, st, cond).0 == tested
    &&& stands(tested, tested.cur) ==> opened(tested, entry, 2)
    &&& entry.loops == tested.loops
    &&& out.cur == BlockId((tested.blocks.len() + 1) as u32)
    &&& walk_block(cx, d, entry, then_block, true).0 == fin
    &&& stands(tested, tested.cur) ==> leads(entry, tested.cur, entry.cur)
    // Both ways meet behind the `if`: the branch's end and the condition's.
    &&& stands(fin, fin.cur) && stands(fin, tested.cur) ==> leads(out, fin.cur, out.cur)
        && leads(out, tested.cur, out.cur)
}

/// An `if` without an `else` may pass its branch by, and both ways meet
/// behind it.
pub proof fn law_if_may_pass<'t>(
    cx: Cx<'t>,
    d: bool,
    st: LowView<'t>,
    e: Expr,
    cond: Expr,
    then_block: AstBlock,
)
    requires
        e.kind matches ExprKind::If { cond: c, then_block: b, els: None } && *c == cond && b
            == then_block,
        eval_if(cx, d, st, e).1 is Ok,
    ensures
        exists|tested: LowView<'t>, entry: LowView<'t>, fin: LowView<'t>| #[trigger]
            if_shape(
                cx,
                d,
                st,
                cond,
                then_block,
                eval_if(cx, d, st, e).0,
                tested,
                entry,
                fin,
            ),
{
    reveal(eval_if);
    reveal(eval_value);
    reveal(walk_block);
    let out = eval_if(cx, d, st, e).0;
    let tested = eval_value(cx, d, st, cond).0;
    let then_b = tested.next_block();
    let s1 = tested.new_block();
    let join = s1.next_block();
    let entry = s1.new_block().goto(tested.cur, then_b).at(then_b);
    let fin = walk_block(cx, d, entry, then_block, true).0;
    let s4 = fin.goto(fin.cur, join);
    lemma_goto(s1.new_block(), tested.cur, then_b);
    lemma_goto(fin, fin.cur, join);
    lemma_goto(s4, tested.cur, join);
    if stands(fin, fin.cur) && stands(fin, tested.cur) {
        lemma_goto_keeps(s4, tested.cur, join, fin.cur, join);
    }
    assert(if_shape(cx, d, st, cond, then_block, out, tested, entry, fin));
}

/// How an `if` with an `else` lies in the graph.
pub open spec fn if_else_shape<'t>(
    cx: Cx<'t>,
    d: bool,
    st: LowView<'t>,
    cond: Expr,
    then_block: AstBlock,
    other: Expr,
    out: LowView<'t>,
    tested: LowView<'t>,
    entry: LowView<'t>,
    fin: LowView<'t>,
    second: LowView<'t>,
    last: LowView<'t>,
) -> bool {
    &&& eval_value(cx, d, st, cond).0 == tested
    &&& stands(tested, tested.cur) ==> opened(tested, entry, 2)
    &&& entry.loops == tested.loops
    &&& out.cur == BlockId((tested.blocks.len() + 1) as u32)
    &&& walk_block(cx, d, entry, then_block, true).0 == fin
    &&& second == (LowView { blocks: second.blocks, cur: second.cur, ..fin })
    &&& stands(fin, fin.cur) && stands(fin, tested.cur) ==> second.blocks.len() == fin.blocks.len()
        + 1 && second.cur == BlockId(fin.blocks.len() as u32)
    &&& eval_value(cx, d, second, other).0 == last
    &&& stands(tested, tested.cur) ==> leads(entry, tested.cur, entry.cur)
    // The other branch starts from the condition too, not behind the first.
    &&& stands(fin, fin.cur) && stands(fin, tested.cur) ==> leads(
        second,
        tested.cur,
        second.cur,
    )
    // Both branches meet behind the `if`.
    &&& stands(fin, fin.cur) && stands(fin, tested.cur) ==> leads(second, fin.cur, out.cur)
    &&& stands(last, last.cur) ==> leads(out, last.cur, out.cur)
}

/// Either branch of an `if` may run, not both, and they meet behind it.
pub proof fn law_if_branches<'t>(
    cx: Cx<'t>,
    d: bool,
    st: LowView<'t>,
    e: Expr,
    cond: Expr,
    then_block: AstBlock,
    other: Expr,
)
    requires
        e.kind matches ExprKind::If { cond: c, then_block: b, els: Some(x) } && *c == cond && b
            == then_block && *x == other,
        eval_if(cx, d, st, e).1 is Ok,
    ensures
        exists|
            tested: LowView<'t>,
            entry: LowView<'t>,
            fin: LowView<'t>,
            second: LowView<'t>,
            last: LowView<'t>,
        | #[trigger]
            if_else_shape(
                cx,
                d,
                st,
                cond,
                then_block,
                other,
                eval_if(cx, d, st, e).0,
                tested,
                entry,
                fin,
                second,
                last,
            ),
{
    reveal(eval_if);
    reveal(eval_value);
    reveal(walk_block);
    let out = eval_if(cx, d, st, e).0;
    let tested = eval_value(cx, d, st, cond).0;
    let then_b = tested.next_block();
    let s1 = tested.new_block();
    let join = s1.next_block();
    let entry = s1.new_block().goto(tested.cur, then_b).at(then_b);
    let fin = walk_block(cx, d, entry, then_block, true).0;
    let s4 = fin.goto(fin.cur, join);
    let else_b = s4.next_block();
    let second = s4.new_block().goto(tested.cur, else_b).at(else_b);
    let last = eval_value(cx, d, second, other).0;
    lemma_goto(s1.new_block(), tested.cur, then_b);
    lemma_goto(fin, fin.cur, join);
    lemma_goto(s4.new_block(), tested.cur, else_b);
    if stands(fin, fin.cur) && stands(fin, tested.cur) {
        assert(leads(s4.new_block(), fin.cur, join));
        lemma_goto_keeps(s4.new_block(), tested.cur, else_b, fin.cur, join);
    }
    lemma_goto(last, last.cur, join);
    assert(if_else_shape(
        cx,
        d,
        st,
        cond,
        then_block,
        other,
        out,
        tested,
        entry,
        fin,
        second,
        last,
    ));
}

/// How a short-circuit operator lies in the graph.
pub open spec fn logic_shape<'t>(
    cx: Cx<'t>,
    d: bool,
    st: LowView<'t>,
    l: Expr,
    r: Expr,
    out: LowView<'t>,
    tested: LowView<'t>,
    entry: LowView<'t>,
    fin: LowView<'t>,
) -> bool {
    &&& eval_value(cx, d, st, l).0 == tested
    &&& stands(tested, tested.cur) ==> opened(tested, entry, 2)
    &&& entry.loops == tested.loops
    &&& out.cur == BlockId((tested.blocks.len() + 1) as u32)
    &&& eval_value(cx, d, entry, r).0 == fin
    // The right side may run, or be passed by.
    &&& stands(tested, tested.cur) ==> leads(entry, tested.cur, entry.cur) && leads(
        entry,
        tested.cur,
        out.cur,
    )
    &&& stands(fin, fin.cur) ==> leads(out, fin.cur, out.cur)
}

/// The right side of `&&` and `||` may be passed by.
pub proof fn law_logic_branches<'t>(
    cx: Cx<'t>,
    d: bool,
    st: LowView<'t>,
    e: Expr,
    l: Expr,
    r: Expr,
)
    requires
        e.kind matches ExprKind::Bin(op, x, y) && (op is AndAnd || op is OrOr) && *x == l && *y
            == r,
        eval_bin(cx, d, st, e).1 is Ok,
    ensures
        exists|tested: LowView<'t>, entry: LowView<'t>, fin: LowView<'t>| #[trigger]
            logic_shape(cx, d, st, l, r, eval_bin(cx, d, st, e).0, tested, entry, fin),
{
    reveal(eval_bin);
    reveal(eval_value);
    let out = eval_bin(cx, d, st, e).0;
    let tested = eval_value(cx, d, st, l).0;
    let rhs = tested.next_block();
    let s1 = tested.new_block();
    let join = s1.next_block();
    let s2 = s1.new_block();
    let entry = s2.goto(tested.cur, rhs).goto(tested.cur, join).at(rhs);
    let fin = eval_value(cx, d, entry, r).0;
    lemma_goto(s2, tested.cur, rhs);
    lemma_goto(s2.goto(tested.cur, rhs), tested.cur, join);
    if stands(tested, tested.cur) {
        lemma_goto_keeps(s2.goto(tested.cur, rhs), tested.cur, join, tested.cur, rhs);
    }
    lemma_goto(fin, fin.cur, join);
    assert(logic_shape(cx, d, st, l, r, out, tested, entry, fin));
}

/// How `?` lies in the graph: the error way runs the pending work and
/// leaves the body, the other way goes on.
pub open spec fn try_shape<'t>(
    cx: Cx<'t>,
    d: bool,
    st: LowView<'t>,
    x: Expr,
    out: LowView<'t>,
    tested: LowView<'t>,
    entry: LowView<'t>,
    fin: LowView<'t>,
) -> bool {
    &&& eval_value(cx, d, st, x).0 == tested
    &&& stands(tested, tested.cur) ==> opened(tested, entry, 2)
    &&& entry.loops == tested.loops
    &&& out.cur == BlockId((tested.blocks.len() + 1) as u32)
    &&& emit_defers(cx, d, entry, 0, true).0 == fin
    &&& stands(tested, tested.cur) ==> leads(entry, tested.cur, entry.cur) && leads(
        entry,
        tested.cur,
        out.cur,
    )
    &&& stands(fin, fin.cur) ==> leads(out, fin.cur, BlockId(1))
}

/// `?` is a branch: on an error the body is left.
pub proof fn law_try_branches<'t>(cx: Cx<'t>, d: bool, st: LowView<'t>, e: Expr, x: Expr)
    requires
        e.kind matches ExprKind::Try(y) && *y == x,
        eval_try(cx, d, st, e).1 is Ok,
    ensures
        exists|tested: LowView<'t>, entry: LowView<'t>, fin: LowView<'t>| #[trigger]
            try_shape(cx, d, st, x, eval_try(cx, d, st, e).0, tested, entry, fin),
{
    reveal(eval_try);
    reveal(eval_value);
    reveal(emit_defers);
    let out = eval_try(cx, d, st, e).0;
    let tested = eval_value(cx, d, st, x).0;
    let err = tested.next_block();
    let s1 = tested.new_block();
    let ok = s1.next_block();
    let s2 = s1.new_block();
    let entry = s2.goto(tested.cur, ok).goto(tested.cur, err).at(err);
    let fin = emit_defers(cx, d, entry, 0, true).0;
    lemma_goto(s2, tested.cur, ok);
    lemma_goto(s2.goto(tested.cur, ok), tested.cur, err);
    if stands(tested, tested.cur) {
        lemma_goto_keeps(s2.goto(tested.cur, ok), tested.cur, err, tested.cur, ok);
    }
    lemma_goto(fin, fin.cur, BlockId(1));
    assert(try_shape(cx, d, st, x, out, tested, entry, fin));
}

// ------------------------------------------------------------------- uses --

/// What a use, an initialization or a change of a place leaves in the graph:
/// one statement that says so, of that place, there.
pub proof fn law_uses_are_recorded<'t>(st: LowView<'t>, p: PlaceId, at: Span)
    requires
        stands(st, st.cur),
    ensures
        recorded(st, st.emit_read(p, at), StmtView::Read { place: p, span: at }),
        recorded(st, st.emit_init(p, at), StmtView::Init { place: p, span: at }),
        recorded(st, st.emit_mutate(p, at), StmtView::Mutate { place: p, span: at }),
{
}

/// A value in value position is copied where its type copies, and otherwise
/// moves out of its place: the place is then empty. Module state never
/// moves, and neither does what an enclosing `for` walks.
pub proof fn law_values_move<'t>(st: LowView<'t>, p: PlaceId, at: Span)
    requires
        stands(st, st.cur),
    ensures
        st.places.copies(p) ==> recorded(
            st,
            st.use_value(p, at),
            StmtView::Read { place: p, span: at },
        ),
        !st.places.copies(p) && st.places.at(p).base is Local && !walked(st, p) ==> recorded(
            st,
            st.use_value(p, at),
            StmtView::Move { place: p, span: at },
        ),
        st.places.at(p).base is Local && !walked(st, p) ==> recorded(
            st,
            st.emit_move(p, at),
            StmtView::Move { place: p, span: at },
        ),
        st.places.at(p).base is Global || walked(st, p) ==> recorded(
            st,
            st.emit_move(p, at),
            StmtView::Read { place: p, span: at },
        ),
{
    lemma_claim_hit(st, p, st.claims.len());
    let v = st.check_view(p, at);
    lemma_claim_hit(v, p, v.claims.len());
    match v.place_region(p) {
        Some(rid) => {
            let x = v.check_transfer(rid, at);
            assert(x.blocks == st.blocks && x.cur == st.cur);
        },
        None => {},
    }
}

/// An enclosing `for` walks the place, or something that overlaps it.
pub open spec fn walked(st: LowView<'_>, p: PlaceId) -> bool {
    exists|i: int| 0 <= i < st.claims.len() && st.places.overlaps((#[trigger] st.claims[i]).0, p)
}

proof fn lemma_claim_hit(st: LowView<'_>, p: PlaceId, n: nat)
    requires
        n <= st.claims.len(),
    ensures
        st.claim_hit(p, n) is Some <==> exists|i: int|
            0 <= i < n && st.places.overlaps((#[trigger] st.claims[i]).0, p),
        st.claim_hit(p, n) matches Some(c) ==> exists|i: int| 0 <= i < n && #[trigger] st.claims[i] == c,
    decreases n,
{
    if n > 0 {
        lemma_claim_hit(st, p, (n - 1) as nat);
        if st.claim_hit(p, n) is Some {
            if st.places.overlaps(st.claims[n - 1].0, p) {
                assert(st.claims[n - 1] == st.claim_hit(p, n)->0);
            } else {
                let c = st.claim_hit(p, (n - 1) as nat)->0;
                let i = choose|i: int| 0 <= i < n - 1 && #[trigger] st.claims[i] == c;
                assert(st.claims[i] == c);
                let j = choose|j: int|
                    0 <= j < n - 1 && st.places.overlaps((#[trigger] st.claims[j]).0, p);
                assert(st.places.overlaps(st.claims[j].0, p));
            }
        }
    }
}

/// A loop's claim is found iff some enclosing `for` walks the place.
pub proof fn law_claims_hit<'t>(st: LowView<'t>, p: PlaceId)
    ensures
        st.claim_hit(p, st.claims.len()) is Some <==> walked(st, p),
{
    lemma_claim_hit(st, p, st.claims.len());
}

/// The innermost of the loops that walk the place answers: a write to what
/// an enclosing `for` walks is an E1013, and nothing else is.
pub proof fn law_walked_is_not_written<'t>(st: LowView<'t>, p: PlaceId, at: Span, verb: Seq<char>)
    ensures
        walked(st, p) ==> reported(st, st.check_iter_claim(p, at, verb), Code::E1013, at),
        !walked(st, p) ==> st.check_iter_claim(p, at, verb) == st,
{
    lemma_claim_hit(st, p, st.claims.len());
    if walked(st, p) {
        let b = st.check_iter_claim(p, at, verb);
        assert(b.diags.drop_last() =~= st.diags);
    }
}

/// A write that reaches a parameter declared without a mode is an E1014; a
/// write to anything else is none.
pub proof fn law_read_parameter_is_not_written<'t>(
    st: LowView<'t>,
    p: PlaceId,
    at: Span,
    verb: Seq<char>,
)
    ensures
        (st.places.at(p).base matches BaseView::Local(l) && st.locals[l as int].param_mode == Some(
            None::<ParamMode>,
        )) ==> reported(st, st.check_read_param(p, at, verb), Code::E1014, at),
        !(st.places.at(p).base matches BaseView::Local(l) && st.locals[l as int].param_mode == Some(
            None::<ParamMode>,
        )) ==> st.check_read_param(p, at, verb) == st,
{
    let b = st.check_read_param(p, at, verb);
    if b != st {
        assert(b.diags.drop_last() =~= st.diags);
    }
}

/// The first of the held sites that is frozen, if any is.
proof fn lemma_frozen_held(st: LowView<'_>, h: Seq<(SiteId, Span)>, i: int)
    requires
        0 <= i,
    ensures
        st.frozen_held(h, i) is Some <==> exists|k: int|
            i <= k < h.len() && st.frozen_site[(#[trigger] h[k]).0.0 as int] is Some,
    decreases h.len() - i,
{
    if i < h.len() {
        lemma_frozen_held(st, h, i + 1);
        if st.frozen_site[h[i].0.0 as int] is Some {
            assert(st.frozen_site[h[i].0.0 as int] is Some);
        }
    }
}

/// A write into data that was frozen is an E1012, whichever of the values
/// that the local may hold was frozen.
pub proof fn law_frozen_is_not_written<'t>(
    st: LowView<'t>,
    p: PlaceId,
    l: u32,
    k: int,
    at: Span,
    verb: Seq<char>,
)
    requires
        st.places.at(p).base == BaseView::Local(l),
        0 <= k < st.holds[l as int].len(),
        st.frozen_site[st.holds[l as int][k].0.0 as int] is Some,
    ensures
        reported(st, st.check_frozen_write(p, at, verb), Code::E1012, at),
{
    lemma_frozen_held(st, st.holds[l as int], 0);
    assert(st.sites_of(p) == st.holds[l as int]);
    assert(st.frozen_site[st.holds[l as int][k].0.0 as int] is Some);
    let b = st.check_frozen_write(p, at, verb);
    assert(b.diags.drop_last() =~= st.diags);
}

/// A write into data that was never frozen is no E1012.
pub proof fn law_unfrozen_is_written<'t>(
    st: LowView<'t>,
    p: PlaceId,
    l: u32,
    at: Span,
    verb: Seq<char>,
)
    requires
        st.places.at(p).base == BaseView::Local(l),
        forall|k: int|
            0 <= k < st.holds[l as int].len() ==> st.frozen_site[(
            #[trigger] st.holds[l as int][k]).0.0 as int] is None,
        st.local_region(l) is None,
    ensures
        st.check_frozen_write(p, at, verb) == st,
{
    lemma_frozen_held(st, st.holds[l as int], 0);
    assert(st.sites_of(p) == st.holds[l as int]);
}

/// Inside a method with a declared view of its receiver, touching it beyond
/// the named fields is an E1008, and touching anything else is none.
pub proof fn law_views_bind<'t>(st: LowView<'t>, p: PlaceId, at: Span)
    ensures
        st.view_set is None ==> st.check_view(p, at) == st,
        st.view_set matches Some((l, fields, _)) ==> {
            let place = st.places.at(p);
            let inside = place.base != BaseView::Local(l.0) || (place.proj.len() > 0
                && (place.proj[0] matches ProjView::Field(f) && fields.contains(f)));
            if inside {
                st.check_view(p, at) == st
            } else {
                reported(st, st.check_view(p, at), Code::E1008, at)
            }
        },
{
    let b = st.check_view(p, at);
    if b != st {
        assert(b.diags.drop_last() =~= st.diags);
    }
}

/// A raw-tier operation outside `unsafe` is an E1301; inside it is free.
pub proof fn law_ring_is_demanded<'t>(st: LowView<'t>, what: Seq<char>, at: Span)
    ensures
        st.in_unsafe ==> st.require_unsafe(what, at) == st,
        !st.in_unsafe ==> reported(st, st.require_unsafe(what, at), Code::E1301, at),
{
    let b = st.require_unsafe(what, at);
    if b != st {
        assert(b.diags.drop_last() =~= st.diags);
    }
}

// ------------------------------------------------------------------ calls --

/// A call site that does not spell the declared mode is an E1007 at its
/// argument, and one that does is none.
pub proof fn law_modes_agree<'t>(
    st: LowView<'t>,
    cs: CallSig,
    p: ParamSig,
    v: Span,
    token: Option<Span>,
    site: Option<ParamMode>,
    declared: Option<ParamMode>,
)
    ensures
        site == declared ==> st.check_mode(cs, p, v, token, site, declared) == st,
        site != declared ==> {
            let b = st.check_mode(cs, p, v, token, site, declared);
            b.diags.len() == st.diags.len() + 1 && b.diags.drop_last() == st.diags
                && b.diags.last().code == Code::E1007 && b.diags.last().severity is Error
        },
{
    let b = st.check_mode(cs, p, v, token, site, declared);
    if site != declared {
        assert(b.diags.drop_last() =~= st.diags);
    }
}

/// An argument that names a place joins the call's surface under its
/// declared mode, and under no other: `mut` lends it exclusively, `take`
/// takes it, and without a mode it is lent to be read, unless it copies.
/// Nothing that joined before it leaves.
pub proof fn law_arguments_join_the_surface<'t>(
    cx: Cx<'t>,
    d: bool,
    st: LowView<'t>,
    cs: CallSig,
    p: ParamSig,
    arg: Arg,
    g: Gathered,
    s: LowView<'t>,
    pl: PlaceId,
)
    requires
        ({
            let checked = st.check_mode(cs, p, arg.value.span, arg.mode_span, arg.mode, p.mode);
            let placed = as_place(cx, d, checked, arg.value);
            placed.0 == s && (placed.1 matches Some((x, _)) && x == pl)
        }),
    ensures
        ({
            let (out, g1, r) = lower_arg(cx, d, st, cs, p, arg, g);
            let me = (pl, arg.value.span);
            let was = g.surface;
            let now = g1.surface;
            &&& r is Ok
            &&& now.callee == was.callee && now.span == was.span && now.c_call == was.c_call
            &&& p.mode == Some(ParamMode::Mut) ==> now.mut_args == was.mut_args.push(me)
                && now.read_args == was.read_args && now.take_args == was.take_args
                && g1.muts == g.muts.push(me)
            &&& p.mode == Some(ParamMode::Take) ==> now.take_args == was.take_args.push(me)
                && now.read_args == was.read_args && now.mut_args == was.mut_args && g1.muts
                == g.muts
            &&& p.mode is None && !s.places.copies(pl) ==> now.read_args == was.read_args.push(me)
                && now.mut_args == was.mut_args && now.take_args == was.take_args && g1.muts
                == g.muts
            &&& p.mode is None && s.places.copies(pl) ==> now == was && g1.muts == g.muts
        }),
{
    reveal(lower_arg);
    reveal(as_place);
    reveal(eval_value);
    assert(s.emit_read(pl, arg.value.span).mark_region_lent(pl).places == s.places);
}

/// A `take` argument that names a local moves it, at the argument; one that
/// is read is read there; neither happens to a `mut` one.
pub proof fn law_arguments_are_used<'t>(
    cx: Cx<'t>,
    d: bool,
    st: LowView<'t>,
    cs: CallSig,
    p: ParamSig,
    arg: Arg,
    g: Gathered,
    s: LowView<'t>,
    pl: PlaceId,
)
    requires
        ({
            let checked = st.check_mode(cs, p, arg.value.span, arg.mode_span, arg.mode, p.mode);
            let placed = as_place(cx, d, checked, arg.value);
            placed.0 == s && (placed.1 matches Some((x, _)) && x == pl)
        }),
        stands(s, s.cur),
    ensures
        ({
            let out = lower_arg(cx, d, st, cs, p, arg, g).0;
            let at = arg.value.span;
            &&& p.mode is None ==> recorded(s, out, StmtView::Read { place: pl, span: at })
            &&& p.mode == Some(ParamMode::Take) && s.places.at(pl).base is Local && !walked(s, pl)
                ==> recorded(s, out, StmtView::Move { place: pl, span: at })
            &&& p.mode == Some(ParamMode::Mut) ==> out.blocks == s.blocks && out.cur == s.cur
        }),
{
    reveal(lower_arg);
    reveal(as_place);
    reveal(eval_value);
    let at = arg.value.span;
    if p.mode is None {
        let s1 = s.emit_read(pl, at).mark_region_lent(pl);
        law_uses_are_recorded(s, pl, at);
        lemma_copy_read_keeps(s1, pl, at, g.muts, 0);
    } else if p.mode == Some(ParamMode::Take) {
        let s1 = s.escape_to_callee(pl);
        lemma_escape_keeps(s, pl);
        law_values_move(s1, pl, at);
        assert(walked(s1, pl) == walked(s, pl));
    } else {
        lemma_escape_keeps(
            s.check_frozen_write(pl, at, "passed as `mut`"@).check_read_param(
                pl,
                at,
                "lent `mut`"@,
            ).check_iter_claim(pl, at, "lent `mut`"@).check_region_lend(pl, at),
            pl,
        );
    }
}

proof fn lemma_copy_read_keeps(
    st: LowView<'_>,
    p: PlaceId,
    at: Span,
    muts: Seq<(PlaceId, Span)>,
    i: int,
)
    ensures
        st.check_copy_read(p, at, muts, i).blocks == st.blocks,
        st.check_copy_read(p, at, muts, i).cur == st.cur,
    decreases muts.len() - i,
{
    if i < muts.len() {
        lemma_copy_read_keeps(st, p, at, muts, i + 1);
    }
}

proof fn lemma_escapes_keep(st: LowView<'_>, sites: Seq<SiteId>, n: nat, why: Seq<char>)
    ensures
        ({
            let b = st.mark_escapes(sites, n, why);
            b.blocks == st.blocks && b.cur == st.cur && b.places == st.places && b.claims
                == st.claims && b.diags == st.diags && b.view_set == st.view_set
        }),
    decreases n,
{
    if n > 0 {
        lemma_escapes_keep(st, sites, (n - 1) as nat, why);
    }
}

proof fn lemma_escape_keeps(st: LowView<'_>, p: PlaceId)
    ensures
        ({
            let b = st.escape_to_callee(p);
            b.blocks == st.blocks && b.cur == st.cur && b.places == st.places && b.claims
                == st.claims && b.diags == st.diags && b.view_set == st.view_set
        }),
{
    let s = st.mark_region_lent(p);
    let sites = crate::lowregion::held_sites(s.sites_of(p));
    lemma_escapes_keep(s, sites, sites.len(), crate::lowregion::PASSED@);
}

/// A copying argument that overlaps an earlier `mut` argument of the call is
/// an E1002 at it; one that overlaps none of them is none.
pub proof fn law_copy_after_mut<'t>(
    st: LowView<'t>,
    p: PlaceId,
    at: Span,
    muts: Seq<(PlaceId, Span)>,
    i: int,
)
    requires
        0 <= i,
    ensures
        (exists|k: int| i <= k < muts.len() && st.places.overlaps((#[trigger] muts[k]).0, p))
            ==> reported(st, st.check_copy_read(p, at, muts, i), Code::E1002, at),
        !(exists|k: int| i <= k < muts.len() && st.places.overlaps((#[trigger] muts[k]).0, p))
            ==> st.check_copy_read(p, at, muts, i) == st,
    decreases muts.len() - i,
{
    if i < muts.len() {
        if st.places.overlaps(muts[i].0, p) {
            let b = st.check_copy_read(p, at, muts, i);
            assert(b.diags.drop_last() =~= st.diags);
        } else {
            law_copy_after_mut(st, p, at, muts, i + 1);
        }
    }
}

/// A `mut` argument that names no place is an E1009.
pub proof fn law_mut_needs_a_place<'t>(
    cx: Cx<'t>,
    d: bool,
    st: LowView<'t>,
    cs: CallSig,
    p: ParamSig,
    arg: Arg,
    g: Gathered,
    s: LowView<'t>,
)
    requires
        p.mode == Some(ParamMode::Mut),
        as_place(
            cx,
            d,
            st.check_mode(cs, p, arg.value.span, arg.mode_span, arg.mode, p.mode),
            arg.value,
        ) == (s, None::<(PlaceId, Option<crate::types::Ty>)>),
    ensures
        exists|told: LowView<'t>| #[trigger]
            reported(s, told, Code::E1009, arg.value.span) && told == (LowView {
                diags: told.diags,
                ..s
            }) && eval_value(cx, d, told, arg.value).0 == lower_arg(cx, d, st, cs, p, arg, g).0,
        lower_arg(cx, d, st, cs, p, arg, g).1 == g,
{
    reveal(lower_arg);
    reveal(as_place);
    reveal(eval_value);
    let told = s.report(crate::lowuse::needs_place_diag(arg.value.span));
    assert(told.diags.drop_last() =~= s.diags);
    assert(reported(s, told, Code::E1009, arg.value.span));
}

/// A call with a surface is recorded with it, after everything its
/// arguments did, in the block they ended in.
pub proof fn law_calls_are_recorded<'t>(cx: Cx<'t>, st: LowView<'t>, e: Expr, g: Gathered)
    requires
        stands(st, st.cur),
        g.surface.mut_args.len() > 0 || g.surface.read_args.len() > 0 || g.surface.take_args.len()
            > 0 || g.surface.c_call,
    ensures
        ({
            let out = finish_call(cx, st, e, g).0;
            let b = st.cur.0 as int;
            let k = st.blocks[b].stmts.len() as int;
            &&& out.blocks.len() == st.blocks.len()
            &&& k < out.blocks[b].stmts.len()
            &&& out.blocks[b].stmts[k] == StmtView::Call(g.surface)
            &&& forall|i: int|
                0 <= i < k ==> #[trigger] out.blocks[b].stmts[i] == st.blocks[b].stmts[i]
        }),
{
    let s = st.push(StmtView::Call(g.surface));
    let targets = crate::lower::mut_targets(
        st.places,
        g.surface.mut_args,
        g.surface.mut_args.len(),
    );
    let site = s.next_site();
    lemma_holds_keep(s, targets, 0, site, e.span);
    let rt = crate::lowbind::expr_ty(e);
    let region = crate::lower::returns_region(cx, rt);
    let heap = !region && rt is Some && !cx.tabs.opt_copy_spec(rt);
    let text = if heap {
        cx.tabs.opt_text_of(rt)
    } else {
        g.surface.callee + "(..)"@
    };
    let a = s.alloc_site(text, crate::cfg::SiteKind::CallResult, e.span);
    lemma_holds_keep(a, targets, 0, site, e.span);
    lemma_holds_keep(a.share(site).add_cell(site), targets, 0, site, e.span);
}

proof fn lemma_holds_keep(
    st: LowView<'_>,
    ps: Seq<PlaceId>,
    i: int,
    site: SiteId,
    at: Span,
)
    ensures
        crate::lower::hold_targets(st, ps, i, site, at).blocks == st.blocks,
        crate::lower::hold_targets(st, ps, i, site, at).cur == st.cur,
    decreases ps.len() - i,
{
    reveal(crate::lower::hold_targets);
    if i < ps.len() {
        let s = match st.places.at(ps[i]).base {
            BaseView::Local(l) => st.hold(l, seq![site], at),
            BaseView::Global(..) => st,
        };
        lemma_holds_keep(s, ps, i + 1, site, at);
    }
}

/// A receiver joins the call's surface under its declared mode, and under
/// no other: all of it, or the fields that its view names.
pub proof fn law_receiver_joins_the_surface<'t>(
    cx: Cx<'t>,
    d: bool,
    st: LowView<'t>,
    recv: Expr,
    at: Span,
    p: ParamSig,
    g: Gathered,
    s: LowView<'t>,
    pl: PlaceId,
)
    requires
        as_place(cx, d, st, recv).0 == s,
        as_place(cx, d, st, recv).1 matches Some((x, _)) && x == pl,
    ensures
        ({
            let (out, g1, r) = lower_receiver(cx, d, st, recv, at, p, g);
            let was = g.surface;
            let now = g1.surface;
            &&& r is Ok
            &&& now.callee == was.callee && now.span == was.span && now.c_call == was.c_call
            &&& p.mode == Some(ParamMode::Mut) && p.view is None ==> now.mut_args
                == was.mut_args.push((pl, at)) && now.read_args == was.read_args && now.take_args
                == was.take_args
            &&& p.mode == Some(ParamMode::Mut) ==> (p.view matches Some(fields) ==> {
                &&& now.read_args == was.read_args && now.take_args == was.take_args
                &&& now.mut_args.len() == was.mut_args.len() + fields@.len()
                &&& forall|i: int|
                    0 <= i < was.mut_args.len() ==> #[trigger] now.mut_args[i] == was.mut_args[i]
                &&& forall|i: int|
                    was.mut_args.len() <= i < now.mut_args.len() ==> (
                    #[trigger] now.mut_args[i]).1 == at
            })
            &&& p.mode == Some(ParamMode::Take) ==> now.take_args == was.take_args.push((pl, at))
                && now.read_args == was.read_args && now.mut_args == was.mut_args
            &&& p.mode is None && !s.places.copies(pl) ==> now.read_args == was.read_args.push(
                (pl, at),
            ) && now.mut_args == was.mut_args && now.take_args == was.take_args
            &&& p.mode is None && s.places.copies(pl) ==> now == was
        }),
{
    reveal(lower_receiver);
    reveal(as_place);
    reveal(eval_value);
    reveal(read_receiver);
    reveal(take_receiver);
    assert(s.emit_read(pl, at).mark_region_lent(pl).places == s.places);
    if p.mode == Some(ParamMode::Mut) {
        if let Some(fields) = p.view {
            let s1 = s.lend_mut(pl, at);
            let ty = (as_place(cx, d, st, recv).1->0).1;
            lemma_fields_join(
                cx,
                s1,
                s1.places.at(pl),
                opt_fields_of(cx, ty),
                fields@,
                0,
                at,
                g.carrying(held_sites(s1.sites_of(pl))),
            );
        }
    }
}

proof fn lemma_fields_join<'t>(
    cx: Cx<'t>,
    st: LowView<'t>,
    base: PlaceView,
    fields: Option<Seq<(Seq<char>, Ty)>>,
    view: Seq<String>,
    i: int,
    at: Span,
    g: Gathered,
)
    requires
        0 <= i <= view.len(),
    ensures
        ({
            let was = g.surface;
            let now = lend_fields(cx, st, base, fields, view, i, at, g).1.surface;
            &&& now == (CallView { mut_args: now.mut_args, ..was })
            &&& now.mut_args.len() == was.mut_args.len() + view.len() - i
            &&& forall|k: int|
                0 <= k < was.mut_args.len() ==> #[trigger] now.mut_args[k] == was.mut_args[k]
            &&& forall|k: int|
                was.mut_args.len() <= k < now.mut_args.len() ==> (#[trigger] now.mut_args[k]).1
                    == at
        }),
    decreases view.len() - i,
{
    reveal(lend_fields);
    if i < view.len() {
        let fty = match fields {
            Some(fs) => field_first(fs, view[i]@, 0),
            None => None,
        };
        let p = base.step(ProjView::Field(view[i]@));
        let s = st.intern(p, cx.tabs.opt_copy_spec(fty));
        let g1 = g.mutates(s.places.id_of(p), at);
        lemma_fields_join(cx, s, base, fields, view, i + 1, at, g1);
        let now = lend_fields(cx, s, base, fields, view, i + 1, at, g1).1.surface;
        assert(now.mut_args[g.surface.mut_args.len() as int] == g1.surface.mut_args.last());
    }
}

/// The list begins with the other.
pub open spec fn begins(whole: Seq<(PlaceId, Span)>, part: Seq<(PlaceId, Span)>) -> bool {
    &&& part.len() <= whole.len()
    &&& forall|i: int| 0 <= i < part.len() ==> #[trigger] whole[i] == part[i]
}

/// The later surface holds what the earlier one held, in order.
pub open spec fn keeps_surface(was: CallView, now: CallView) -> bool {
    &&& now.callee == was.callee && now.span == was.span && now.c_call == was.c_call
    &&& begins(now.mut_args, was.mut_args)
    &&& begins(now.read_args, was.read_args)
    &&& begins(now.take_args, was.take_args)
}

proof fn lemma_reads_keep(g: Gathered, ps: Seq<PlaceId>, n: nat, at: Span)
    ensures
        keeps_surface(g.surface, g.reads(ps, n, at).surface),
    decreases n,
{
    if n > 0 {
        lemma_reads_keep(g, ps, (n - 1) as nat, at);
    }
}

proof fn lemma_one_keeps<'t>(
    cx: Cx<'t>,
    d: bool,
    st: LowView<'t>,
    sig: Option<CallSig>,
    i: nat,
    arg: Arg,
    g: Gathered,
)
    ensures
        keeps_surface(g.surface, lower_one(cx, d, st, sig, i, arg, g).1.surface),
{
    reveal(lower_one);
    reveal(lower_arg);
    reveal(as_place);
    reveal(eval_value);
    reveal(read_operand);
    let v = arg.value;
    match sig {
        Some(cs) => {
            let k: nat = if cs.has_self {
                i + 1
            } else {
                i
            };
            if k < cs.params@.len() && !cs.ctor {
                let p = cs.params@[k as int];
                let checked = st.check_mode(cs, p, v.span, arg.mode_span, arg.mode, p.mode);
                let (s, placed) = as_place(cx, d, checked, v);
                match placed {
                    Some((pl, _)) => {
                        law_arguments_join_the_surface(cx, d, st, cs, p, arg, g, s, pl);
                    },
                    None => {
                        if p.mode is None {
                            if let Ok(pv) = eval_value(cx, d, s, v).1 {
                                lemma_reads_keep(g, pv.borrowed, pv.borrowed.len(), v.span);
                            }
                        }
                    },
                }
            }
        },
        None => {},
    }
}

/// The state and the surface as the arguments from `i` on are reached, up to
/// the argument `k`.
pub open spec fn before_arg<'t>(
    cx: Cx<'t>,
    d: bool,
    st: LowView<'t>,
    sig: Option<CallSig>,
    args: Vec<Arg>,
    i: nat,
    g: Gathered,
    k: nat,
) -> (LowView<'t>, Gathered)
    decreases k - i,
{
    if i >= k {
        (st, g)
    } else {
        let (s1, g1, _) = lower_one(cx, d, st, sig, i, args@[i as int], g);
        before_arg(cx, d, s1, sig, args, i + 1, g1, k)
    }
}

proof fn lemma_args_keep<'t>(
    cx: Cx<'t>,
    d: bool,
    st: LowView<'t>,
    sig: Option<CallSig>,
    args: Vec<Arg>,
    i: nat,
    g: Gathered,
)
    ensures
        keeps_surface(g.surface, lower_args(cx, d, st, sig, args, i, g).1.surface),
    decreases args@.len() - i,
{
    reveal(lower_args);
    reveal(lower_one);
    if i < args@.len() {
        lemma_one_keeps(cx, d, st, sig, i, args@[i as int], g);
        let (s1, g1, r) = lower_one(cx, d, st, sig, i, args@[i as int], g);
        if r is Ok {
            lemma_args_keep(cx, d, s1, sig, args, i + 1, g1);
        }
    }
}

proof fn lemma_reaches_arg<'t>(
    cx: Cx<'t>,
    d: bool,
    st: LowView<'t>,
    sig: Option<CallSig>,
    args: Vec<Arg>,
    i: nat,
    g: Gathered,
    k: nat,
)
    requires
        i <= k < args@.len(),
        lower_args(cx, d, st, sig, args, i, g).2 is Ok,
    ensures
        ({
            let (s, h) = before_arg(cx, d, st, sig, args, i, g, k);
            let whole = lower_args(cx, d, st, sig, args, i, g);
            &&& lower_one(cx, d, s, sig, k, args@[k as int], h).2 is Ok
            &&& keeps_surface(g.surface, h.surface)
            &&& keeps_surface(lower_one(cx, d, s, sig, k, args@[k as int], h).1.surface, whole.1.surface)
        }),
    decreases k - i,
{
    reveal(lower_args);
    reveal(lower_one);
    let (s1, g1, r) = lower_one(cx, d, st, sig, i, args@[i as int], g);
    lemma_one_keeps(cx, d, st, sig, i, args@[i as int], g);
    if i < k {
        lemma_reaches_arg(cx, d, s1, sig, args, i + 1, g1, k);
    } else {
        lemma_args_keep(cx, d, s1, sig, args, i + 1, g1);
    }
}

proof fn lemma_one_is_its_argument<'t>(
    cx: Cx<'t>,
    d: bool,
    st: LowView<'t>,
    cs: CallSig,
    k: nat,
    arg: Arg,
    g: Gathered,
)
    requires
        !cs.ctor,
        (if cs.has_self {
            k + 1
        } else {
            k
        }) < cs.params@.len(),
    ensures
        ({
            let p = cs.params@[if cs.has_self {
                (k + 1) as int
            } else {
                k as int
            }];
            lower_one(cx, d, st, Some(cs), k, arg, g) == lower_arg(cx, d, st, cs, p, arg, g)
        }),
{
    reveal(lower_one);
    reveal(lower_arg);
}

/// Once the arguments of a call are walked, its surface holds each of them
/// that names a place under the mode its parameter declares: the parameter
/// at its position, behind `self` where there is one.
pub proof fn law_surface_holds_the_arguments<'t>(
    cx: Cx<'t>,
    d: bool,
    st: LowView<'t>,
    cs: CallSig,
    args: Vec<Arg>,
    g: Gathered,
    k: nat,
)
    requires
        k < args@.len(),
        !cs.ctor,
        lower_args(cx, d, st, Some(cs), args, 0, g).2 is Ok,
        (if cs.has_self {
            k + 1
        } else {
            k
        }) < cs.params@.len(),
    ensures
        ({
            let p = cs.params@[if cs.has_self {
                (k + 1) as int
            } else {
                k as int
            }];
            let arg = args@[k as int];
            let (s, h) = before_arg(cx, d, st, Some(cs), args, 0, g, k);
            let checked = s.check_mode(cs, p, arg.value.span, arg.mode_span, arg.mode, p.mode);
            let out = lower_args(cx, d, st, Some(cs), args, 0, g).1.surface;
            &&& keeps_surface(g.surface, h.surface)
            &&& keeps_surface(h.surface, out)
            &&& as_place(cx, d, checked, arg.value).1 matches Some((pl, _)) ==> {
                let me = (pl, arg.value.span);
                &&& p.mode == Some(ParamMode::Mut) ==> h.surface.mut_args.len()
                    < out.mut_args.len() && out.mut_args[h.surface.mut_args.len() as int] == me
                &&& p.mode == Some(ParamMode::Take) ==> h.surface.take_args.len()
                    < out.take_args.len() && out.take_args[h.surface.take_args.len() as int] == me
                &&& p.mode is None && !as_place(cx, d, checked, arg.value).0.places.copies(pl)
                    ==> h.surface.read_args.len() < out.read_args.len()
                    && out.read_args[h.surface.read_args.len() as int] == me
            }
        }),
{
    let p = cs.params@[if cs.has_self {
        (k + 1) as int
    } else {
        k as int
    }];
    let arg = args@[k as int];
    let (s, h) = before_arg(cx, d, st, Some(cs), args, 0, g, k);
    let checked = s.check_mode(cs, p, arg.value.span, arg.mode_span, arg.mode, p.mode);
    lemma_reaches_arg(cx, d, st, Some(cs), args, 0, g, k);
    lemma_one_keeps(cx, d, s, Some(cs), k, arg, h);
    let (s1, placed) = as_place(cx, d, checked, arg.value);
    if let Some((pl, _)) = placed {
        law_arguments_join_the_surface(cx, d, s, cs, p, arg, h, s1, pl);
        lemma_one_is_its_argument(cx, d, s, cs, k, arg, h);
    }
}

/// Two `mut` arguments of one call that name one place both stand in its
/// surface, one behind the other.
pub proof fn law_surface_holds_both<'t>(
    cx: Cx<'t>,
    d: bool,
    st: LowView<'t>,
    cs: CallSig,
    args: Vec<Arg>,
    g: Gathered,
    a: nat,
    b: nat,
    pl: PlaceId,
)
    requires
        a < b < args@.len(),
        !cs.ctor,
        !cs.has_self,
        b < cs.params@.len(),
        cs.params@[a as int].mode == Some(ParamMode::Mut),
        cs.params@[b as int].mode == Some(ParamMode::Mut),
        lower_args(cx, d, st, Some(cs), args, 0, g).2 is Ok,
        names_place(cx, d, st, cs, args, g, a, pl),
        names_place(cx, d, st, cs, args, g, b, pl),
    ensures
        exists|i: int, j: int|
            #![trigger lower_args(cx, d, st, Some(cs), args, 0, g).1.surface.mut_args[i],
                lower_args(cx, d, st, Some(cs), args, 0, g).1.surface.mut_args[j]]
            {
                let m = lower_args(cx, d, st, Some(cs), args, 0, g).1.surface.mut_args;
                &&& 0 <= i < j < m.len()
                &&& m[i] == (pl, args@[a as int].value.span)
                &&& m[j] == (pl, args@[b as int].value.span)
            },
{
    law_surface_holds_the_arguments(cx, d, st, cs, args, g, a);
    law_surface_holds_the_arguments(cx, d, st, cs, args, g, b);
    let (sa, ha) = before_arg(cx, d, st, Some(cs), args, 0, g, a);
    let (sb, hb) = before_arg(cx, d, st, Some(cs), args, 0, g, b);
    lemma_before_grows(cx, d, st, Some(cs), args, 0, g, a, b);
    let i = ha.surface.mut_args.len() as int;
    let j = hb.surface.mut_args.len() as int;
    let m = lower_args(cx, d, st, Some(cs), args, 0, g).1.surface.mut_args;
    let arg = args@[a as int];
    let p = cs.params@[a as int];
    let checked = sa.check_mode(cs, p, arg.value.span, arg.mode_span, arg.mode, p.mode);
    let s1 = as_place(cx, d, checked, arg.value).0;
    law_arguments_join_the_surface(cx, d, sa, cs, p, arg, ha, s1, pl);
    lemma_one_is_its_argument(cx, d, sa, cs, a, arg, ha);
    assert(m[i] == (pl, args@[a as int].value.span));
    assert(m[j] == (pl, args@[b as int].value.span));
    assert(0 <= i < j < m.len());
}

/// The argument, as the walk reaches it, names the place.
pub open spec fn names_place<'t>(
    cx: Cx<'t>,
    d: bool,
    st: LowView<'t>,
    cs: CallSig,
    args: Vec<Arg>,
    g: Gathered,
    k: nat,
    pl: PlaceId,
) -> bool {
    let (s, _) = before_arg(cx, d, st, Some(cs), args, 0, g, k);
    let p = cs.params@[if cs.has_self {
        (k + 1) as int
    } else {
        k as int
    }];
    let arg = args@[k as int];
    let checked = s.check_mode(cs, p, arg.value.span, arg.mode_span, arg.mode, p.mode);
    as_place(cx, d, checked, arg.value).1 matches Some((x, _)) && x == pl
}

proof fn lemma_before_keeps<'t>(
    cx: Cx<'t>,
    d: bool,
    st: LowView<'t>,
    sig: Option<CallSig>,
    args: Vec<Arg>,
    i: nat,
    g: Gathered,
    k: nat,
)
    ensures
        keeps_surface(g.surface, before_arg(cx, d, st, sig, args, i, g, k).1.surface),
    decreases k - i,
{
    if i < k {
        let (s1, g1, _) = lower_one(cx, d, st, sig, i, args@[i as int], g);
        lemma_one_keeps(cx, d, st, sig, i, args@[i as int], g);
        lemma_before_keeps(cx, d, s1, sig, args, i + 1, g1, k);
    }
}

proof fn lemma_before_grows<'t>(
    cx: Cx<'t>,
    d: bool,
    st: LowView<'t>,
    sig: Option<CallSig>,
    args: Vec<Arg>,
    i: nat,
    g: Gathered,
    a: nat,
    b: nat,
)
    requires
        i <= a < b,
    ensures
        ({
            let (s, h) = before_arg(cx, d, st, sig, args, i, g, a);
            keeps_surface(
                lower_one(cx, d, s, sig, a, args@[a as int], h).1.surface,
                before_arg(cx, d, st, sig, args, i, g, b).1.surface,
            )
        }),
    decreases a - i,
{
    let (s1, g1, _) = lower_one(cx, d, st, sig, i, args@[i as int], g);
    if i < a {
        lemma_before_grows(cx, d, s1, sig, args, i + 1, g1, a, b);
    } else {
        lemma_before_keeps(cx, d, s1, sig, args, i + 1, g1, b);
    }
}

/// A call is recorded with the surface that its receiver and its arguments
/// gave it, from an empty one, and it is one statement.
pub proof fn law_call_records_its_surface<'t>(
    cx: Cx<'t>,
    d: bool,
    st: LowView<'t>,
    e: Expr,
    callee: Expr,
    args: Vec<Arg>,
    cs: CallSig,
    g0: Gathered,
)
    requires
        e.kind matches ExprKind::Call { callee: c, args: a, sig, .. } && *c == callee && a == args
            && sig == Some(cs),
        !cs.ctor,
        !cs.c_call,
        g0.surface.callee == cs.callee@,
        g0.surface.span == e.span,
        !g0.surface.c_call,
        g0.surface.mut_args == Seq::<(PlaceId, Span)>::empty(),
        g0.surface.read_args == Seq::<(PlaceId, Span)>::empty(),
        g0.surface.take_args == Seq::<(PlaceId, Span)>::empty(),
        g0.carry == Seq::<SiteId>::empty(),
        g0.muts == Seq::<(PlaceId, Span)>::empty(),
        g0.parts == Seq::<(ValView, Span)>::empty(),
    ensures
        ({
            let (s, g1, r) = call_head(cx, d, st, e, g0);
            let (s1, g2, r2) = lower_args(cx, d, s, Some(cs), args, 0, g1);
            let out = eval_call(cx, d, st, e).0;
            let c = g2.surface;
            let b = s1.cur.0 as int;
            let k = s1.blocks[b].stmts.len() as int;
            r is Ok && r2 is Ok && stands(s1, s1.cur) && (c.mut_args.len() > 0 || c.read_args.len()
                > 0 || c.take_args.len() > 0) ==> {
                &&& b < out.blocks.len()
                &&& k < out.blocks[b].stmts.len()
                &&& out.blocks[b].stmts[k] == StmtView::Call(c)
                &&& c.callee == cs.callee@ && c.span == e.span
            }
        }),
{
    reveal(eval_call);
    reveal(call_head);
    reveal(lower_args);
    let (s, g1, r) = call_head(cx, d, st, e, g0);
    let (s1, g2, r2) = lower_args(cx, d, s, Some(cs), args, 0, g1);
    let g = call_start(e, callee, Some(cs));
    assert(g == g0);
    if r is Ok && r2 is Ok && stands(s1, s1.cur) {
        let a = check_views(s1, g2.surface.mut_args, 0);
        let b = check_views(a, g2.surface.read_args, 0);
        let c = check_views(b, g2.surface.take_args, 0);
        lemma_views_keep(s1, g2.surface.mut_args, 0);
        lemma_views_keep(a, g2.surface.read_args, 0);
        lemma_views_keep(b, g2.surface.take_args, 0);
        lemma_head_keeps(cx, d, st, e, g0);
        lemma_args_keep(cx, d, s, Some(cs), args, 0, g1);
        if g2.surface.mut_args.len() > 0 || g2.surface.read_args.len() > 0
            || g2.surface.take_args.len() > 0 {
            law_calls_are_recorded(cx, c, e, g2);
        }
    }
}

proof fn lemma_receiver_keeps<'t>(
    cx: Cx<'t>,
    d: bool,
    st: LowView<'t>,
    recv: Expr,
    at: Span,
    p: ParamSig,
    g: Gathered,
)
    ensures
        keeps_surface(g.surface, lower_receiver(cx, d, st, recv, at, p, g).1.surface),
{
    let (s, placed) = as_place(cx, d, st, recv);
    match placed {
        Some((pl, _)) => {
            law_receiver_joins_the_surface(cx, d, st, recv, at, p, g, s, pl);
            let now = lower_receiver(cx, d, st, recv, at, p, g).1.surface;
            match p.mode {
                Some(ParamMode::Mut) => {
                    assert(begins(now.mut_args, g.surface.mut_args)) by {
                        match p.view {
                            Some(_) => {},
                            None => {},
                        }
                    }
                },
                _ => {},
            }
        },
        None => {
            reveal(lower_receiver);
            reveal(as_place);
            reveal(eval_value);
            reveal(claim_receiver);
            reveal(pass_receiver);
            if p.mode is None {
                if let Ok(v) = eval_value(cx, d, s, recv).1 {
                    lemma_reads_keep(g, v.borrowed, v.borrowed.len(), at);
                }
            }
        },
    }
}

proof fn lemma_on_keeps<'t>(
    cx: Cx<'t>,
    d: bool,
    st: LowView<'t>,
    cs: CallSig,
    recv: Expr,
    recv_at: Span,
    at: Span,
    g: Gathered,
)
    ensures
        keeps_surface(g.surface, call_on(cx, d, st, cs, recv, recv_at, at, g).1.surface),
{
    reveal(call_on);
    if cs.params@.len() > 0 {
        lemma_receiver_keeps(cx, d, st, recv, recv_at, cs.params@[0], g);
        reveal(lower_receiver);
        assert(call_on(cx, d, st, cs, recv, recv_at, at, g).1 == lower_receiver(
            cx,
            d,
            st,
            recv,
            recv_at,
            cs.params@[0],
            g,
        ).1);
    }
}

proof fn lemma_head_keeps<'t>(cx: Cx<'t>, d: bool, st: LowView<'t>, e: Expr, g: Gathered)
    ensures
        keeps_surface(g.surface, call_head(cx, d, st, e, g).1.surface),
{
    reveal(call_head);
    if let ExprKind::Call { callee, sig, .. } = e.kind {
        if let (Some(cs), ExprKind::Member(base, _)) = (sig, callee.kind) {
            if cs.has_self {
                reveal(call_receiver);
                reveal(call_on);
                match base.kind {
                    ExprKind::Paren(inner, Some(_)) => {
                        lemma_on_keeps(cx, d, st, cs, *inner, base.span, e.span, g);
                    },
                    _ => {
                        lemma_on_keeps(cx, d, st, cs, *base, base.span, e.span, g);
                    },
                }
                assert(call_head(cx, d, st, e, g) == call_receiver(
                    cx,
                    d,
                    st,
                    cs,
                    *base,
                    e.span,
                    g,
                ));
            }
        }
    }
}

proof fn lemma_views_keep(st: LowView<'_>, args: Seq<(PlaceId, Span)>, i: int)
    ensures
        check_views(st, args, i).blocks == st.blocks,
        check_views(st, args, i).cur == st.cur,
    decreases args.len() - i,
{
    reveal(check_views);
    if i < args.len() {
        lemma_views_keep(st.check_view(args[i].0, args[i].1), args, i + 1);
    }
}

// ------------------------------------------------------------ assignments --

/// A plain assignment gives the place a new value; a compound one changes
/// it in place. The value comes first.
pub proof fn law_assignments_are_recorded<'t>(
    cx: Cx<'t>,
    d: bool,
    st: LowView<'t>,
    stmt: Statement,
    target: Expr,
    value: Expr,
    op: AssignOp,
    s: LowView<'t>,
    p: PlaceId,
)
    requires
        stmt matches Statement::Assign { place, value: v, op: o, .. } && place == target && v
            == value && o == op,
        !crate::lowbind::raw_indexed(cx, target),
        eval_value(cx, d, st, value).1 is Ok,
        ({
            let placed = as_place(cx, d, eval_value(cx, d, st, value).0, target);
            placed.0 == s && (placed.1 matches Some((x, _)) && x == p)
        }),
        stands(s, s.cur),
        s.places.at(p).base is Local,
    ensures
        ({
            let out = lower_assign(cx, d, st, stmt).0;
            let b = s.cur.0 as int;
            let k = s.blocks[b].stmts.len() as int;
            &&& k < out.blocks[b].stmts.len()
            &&& out.blocks[b].stmts[k] == (if op is Plain {
                StmtView::Init { place: p, span: target.span }
            } else {
                StmtView::Mutate { place: p, span: target.span }
            })
        }),
{
    reveal(lower_assign);
    reveal(eval_value);
    reveal(as_place);
    law_uses_are_recorded(s, p, target.span);
    let v = eval_value(cx, d, st, value).1->Ok_0;
    if op is Plain {
        let i = s.emit_init(p, target.span);
        match i.places.at(p).base {
            BaseView::Local(l) => {
                lemma_assign_local_keeps(i, l, p, v, target.span);
            },
            _ => {},
        }
    }
}

proof fn lemma_assign_local_keeps(st: LowView<'_>, l: u32, p: PlaceId, v: ValView, at: Span)
    ensures
        crate::lower::assign_local(st, l, p, v, at).blocks == st.blocks,
{
    let proj = st.places.at(p).proj;
    let held = st.sites_of(p);
    if proj.len() > 0 {
        let s1 = match v.region {
            Some(r) => {
                let a = st.set_moved(r);
                let b = if held.len() > 0 {
                    a.set_parent(r, a.sites[held[0].0.0 as int].region)
                } else {
                    a
                };
                if proj.len() == 1 && proj[0] is Field {
                    b.put_field(l, proj[0]->Field_0, r)
                } else {
                    b
                }
            },
            None => st,
        };
        assert(s1.blocks == st.blocks);
        if held.len() > 0 {
            let c = held[0].0.0 as int;
            lemma_store_keeps(s1, v.sites, 0, s1.sites[c].region, Some(s1.sites[c].span), at);
        }
    }
}

proof fn lemma_store_keeps(
    st: LowView<'_>,
    sites: Seq<SiteId>,
    i: int,
    target: crate::cfg::RegionId,
    container: Option<Span>,
    at: Span,
)
    ensures
        st.demand_store(sites, i, target, container, at).blocks == st.blocks,
    decreases sites.len() - i,
{
    if i < sites.len() {
        if st.store_exempt(sites[i]) {
            lemma_store_keeps(st, sites, i + 1, target, container, at);
        } else {
            let sr = st.sites[sites[i].0 as int].region;
            lemma_store_keeps(st.unify(target, sr), sites, i + 1, target, container, at);
        }
    }
}

// ---------------------------------------------------------------- windows --

/// A region block opens a window on a fresh region of its own: what is
/// allocated inside lives there, and the window is on record.
pub proof fn law_region_block_opens<'t>(
    cx: Cx<'t>,
    st: LowView<'t>,
    name: Option<Bind>,
    bound: bool,
    strategy: StrategySyntax,
    at: Span,
)
    requires
        stands(st, st.cur),
    ensures
        ({
            let b = enter_region(cx, st, name, bound, strategy, at);
            let rid = RegionId(st.rt.regions.len() as u32);
            let intro = match name {
                Some(x) => x.span,
                None => at,
            };
            let k = st.cur.0 as int;
            let n = st.blocks[k].stmts.len() as int;
            &&& b.ambient == st.ambient.push(rid)
            &&& b.open == st.open.push((rid, intro))
            &&& b.rt.regions.len() == st.rt.regions.len() + 1
            &&& b.rt.regions.last().kind is Scope
            &&& b.scopes.len() == st.scopes.len() + 1
            &&& b.cur == st.cur && b.blocks.len() == st.blocks.len()
            &&& b.blocks[k].stmts.len() > n && b.blocks[k].stmts[n] == (StmtView::RegionOpen {
                region: rid,
                span: intro,
            })
            &&& bound && name is Some && st.region_local.len() == st.locals.len()
                && st.locals.len() <= u32::MAX ==> b.region_local.last() == Some(Some(rid))
        }),
{
    let text = match name {
        Some(b) => b.name@,
        None => UNNAMED@,
    };
    let intro = match name {
        Some(b) => b.span,
        None => at,
    };
    let rid = st.next_region();
    let s = st.new_region(text, RegionKind::Scope, strategy_of(strategy), intro).push(
        StmtView::RegionOpen { region: rid, span: intro },
    );
    lemma_antichain_keeps(s, rid, intro, 0);
}

proof fn lemma_antichain_keeps(st: LowView<'_>, rid: RegionId, at: Span, i: int)
    ensures
        ({
            let b = st.check_antichain(rid, at, i);
            b == (LowView { diags: b.diags, conflicted: b.conflicted, ..st })
        }),
    decreases st.open.len() - i,
{
    if i < st.open.len() && !st.windows_clash(rid, st.open[i].0) {
        lemma_antichain_keeps(st, rid, at, i + 1);
    }
}

/// How a region block runs: its body inside the window, and then the window
/// closes and the region dies with what it holds, unless its value left.
pub open spec fn region_shape<'t>(
    cx: Cx<'t>,
    d: bool,
    st: LowView<'t>,
    name: Option<Bind>,
    strategy: StrategySyntax,
    body: AstBlock,
    at: Span,
    out: LowView<'t>,
    fin: LowView<'t>,
    v: ValView,
) -> bool {
    let rid = RegionId(st.rt.regions.len() as u32);
    let end = Span { file: at.file, lo: if at.hi == 0 { 0 } else { (at.hi - 1) as u32 }, hi: at.hi };
    let shut = LowView { ambient: fin.ambient.drop_last(), open: fin.open.drop_last(), ..fin };
    let walked = walk_block(cx, d, enter_region(cx, st, name, true, strategy, at), body, true);
    &&& walked.1 == Ok::<ValView, NotYetView>(v)
    &&& close_scope(cx, d, walked.0, end).0 == fin
    &&& out.ambient == fin.ambient.drop_last()
    &&& out.open == fin.open.drop_last()
    &&& fin.moved[rid.0 as int] ==> out == shut
    &&& !fin.moved[rid.0 as int] ==> out.diags == shut.sweep_close(
        rid,
        st.locals.len() as int,
        end,
        v,
    ).diags && (stands(fin, fin.cur) ==> recorded(
        fin,
        out,
        StmtView::RegionClose { region: rid, span: end },
    ))
}

/// A region block frees its region when it ends, and only then.
pub proof fn law_region_block_closes<'t>(
    cx: Cx<'t>,
    d: bool,
    st: LowView<'t>,
    e: Expr,
    name: Option<Bind>,
    strategy: StrategySyntax,
    body: AstBlock,
)
    requires
        e.kind matches ExprKind::RegionBlock { name: n, strategy: s, body: b } && n == name && s
            == strategy && b == body,
        eval_region_block(cx, d, st, e).1 is Ok,
    ensures
        exists|fin: LowView<'t>, v: ValView| #[trigger]
            region_shape(
                cx,
                d,
                st,
                name,
                strategy,
                body,
                e.span,
                eval_region_block(cx, d, st, e).0,
                fin,
                v,
            ),
{
    reveal(eval_region_block);
    reveal(walk_block);
    reveal(close_scope);
    let out = eval_region_block(cx, d, st, e).0;
    let rid = st.next_region();
    let mark = st.locals.len() as int;
    let (s, r) = walk_block(cx, d, enter_region(cx, st, name, true, strategy, e.span), body, true);
    let v = r->Ok_0;
    let end = closing(e.span);
    let fin = close_scope(cx, d, s, end).0;
    let shut = fin.pop_ambient().pop_open();
    if !fin.moved[rid.0 as int] {
        lemma_sweep_keeps(shut, rid, mark, end, v);
    }
    assert(region_shape(cx, d, st, name, strategy, body, e.span, out, fin, v));
}

proof fn lemma_sweep_keeps(st: LowView<'_>, rid: RegionId, mark: int, at: Span, v: ValView)
    ensures
        ({
            let b = st.sweep_close(rid, mark, at, v);
            &&& b.blocks == st.blocks && b.cur == st.cur && b.ambient == st.ambient && b.open
                == st.open
        }),
{
    let from = match v.origin {
        Some(o) => o,
        None => at,
    };
    lemma_value_keeps(st, v.sites, 0, rid, from, at);
    lemma_locals_keep(st.sweep_value(v.sites, 0, rid, from, at), 0, mark, rid, at);
}

proof fn lemma_value_keeps(
    st: LowView<'_>,
    sites: Seq<SiteId>,
    i: int,
    rid: RegionId,
    from: Span,
    at: Span,
)
    ensures
        ({
            let b = st.sweep_value(sites, i, rid, from, at);
            &&& b.blocks == st.blocks && b.cur == st.cur && b.ambient == st.ambient && b.open
                == st.open
        }),
    decreases sites.len() - i,
{
    if i < sites.len() {
        let s = if st.dies_with(sites[i], rid) && !st.site_conflicted(sites[i]) {
            st.close_escape(rid, sites[i], from, at, None)
        } else {
            st
        };
        lemma_value_keeps(s, sites, i + 1, rid, from, at);
    }
}

proof fn lemma_held_keeps(
    st: LowView<'_>,
    l: int,
    h: Seq<(SiteId, Span)>,
    j: int,
    rid: RegionId,
    at: Span,
)
    ensures
        ({
            let b = st.sweep_held(l, h, j, rid, at);
            &&& b.blocks == st.blocks && b.cur == st.cur && b.ambient == st.ambient && b.open
                == st.open
        }),
    decreases h.len() - j,
{
    if j < h.len() {
        let s = if st.dies_with(h[j].0, rid) && !st.site_conflicted(h[j].0) {
            st.close_escape(rid, h[j].0, h[j].1, at, Some(st.locals[l].name))
        } else {
            st
        };
        lemma_held_keeps(s, l, h, j + 1, rid, at);
    }
}

proof fn lemma_locals_keep(st: LowView<'_>, l: int, mark: int, rid: RegionId, at: Span)
    ensures
        ({
            let b = st.sweep_locals(l, mark, rid, at);
            &&& b.blocks == st.blocks && b.cur == st.cur && b.ambient == st.ambient && b.open
                == st.open
        }),
    decreases mark - l,
{
    if l < mark && l < st.holds.len() {
        lemma_held_keeps(st, l, st.holds[l], 0, rid, at);
        lemma_locals_keep(st.sweep_held(l, st.holds[l], 0, rid, at), l + 1, mark, rid, at);
    }
}

/// An `in` opens the region that it names: what is allocated inside lives
/// there. A frozen region never opens again: an E1012 there.
pub proof fn law_in_opens<'t>(st: LowView<'t>, rid: RegionId, at: Span)
    requires
        stands(st, st.cur),
    ensures
        ({
            let b = open_region(st, rid, at);
            &&& b.ambient == st.ambient.push(rid)
            &&& b.open == st.open.push((rid, at))
            &&& recorded(st, b, StmtView::RegionOpen { region: rid, span: at })
            &&& st.frozen_region[rid.0 as int] is Some ==> b.diags.len() > st.diags.len()
                && b.diags[st.diags.len() as int].code == Code::E1012
                && b.diags[st.diags.len() as int].primary == at
                && b.diags[st.diags.len() as int].severity is Error
            &&& st.frozen_region[rid.0 as int] is None ==> b.diags == st.check_antichain(
                rid,
                at,
                0,
            ).diags
        }),
{
    let s1 = match st.frozen_region[rid.0 as int] {
        Some(f) => st.conflict().report(reopen_diag(st.region_text(rid), at, f)),
        None => st,
    };
    let s2 = s1.push(StmtView::RegionOpen { region: rid, span: at });
    lemma_antichain_keeps(s2, rid, at, 0);
    lemma_antichain_grows(s2, rid, at, 0);
    lemma_antichain_alike(st, s2, rid, at, 0);
}

proof fn lemma_antichain_grows(st: LowView<'_>, rid: RegionId, at: Span, i: int)
    ensures
        ({
            let b = st.check_antichain(rid, at, i);
            &&& st.diags.len() <= b.diags.len()
            &&& forall|k: int| 0 <= k < st.diags.len() ==> #[trigger] b.diags[k] == st.diags[k]
        }),
    decreases st.open.len() - i,
{
    if i < st.open.len() && !st.windows_clash(rid, st.open[i].0) {
        lemma_antichain_grows(st, rid, at, i + 1);
    }
}

/// The rule looks at the regions and the windows, not at the graph.
proof fn lemma_antichain_alike<'t>(a: LowView<'t>, b: LowView<'t>, rid: RegionId, at: Span, i: int)
    requires
        b == (LowView { blocks: b.blocks, diags: b.diags, conflicted: b.conflicted, ..a }),
    ensures
        a.diags == b.diags ==> a.check_antichain(rid, at, i).diags == b.check_antichain(
            rid,
            at,
            i,
        ).diags,
    decreases a.open.len() - i,
{
    if i < a.open.len() {
        let o = a.open[i].0;
        crate::tenure::law_ownership_is_structural(a, b, o, rid);
        crate::tenure::law_ownership_is_structural(a, b, rid, o);
        if !a.windows_clash(rid, o) {
            lemma_antichain_alike(a, b, rid, at, i + 1);
        }
    }
}

/// Inside an `unsafe` block the ring is entered, and it is left again with
/// the block; both are on record.
pub open spec fn ring_shape<'t>(
    cx: Cx<'t>,
    d: bool,
    st: LowView<'t>,
    body: AstBlock,
    out: LowView<'t>,
    entry: LowView<'t>,
    at: Span,
) -> bool {
    let fin = walk_block(cx, d, entry, body, true).0;
    let word = entry.blocks[entry.cur.0 as int].stmts.last();
    &&& entry.in_unsafe
    &&& out.in_unsafe == st.in_unsafe
    &&& stands(st, st.cur) ==> recorded(st, entry, word) && (word matches StmtView::UnsafeEnter {
        span,
    } && span.lo == at.lo && span.file == at.file)
    &&& stands(fin, fin.cur) ==> recorded(
        fin,
        out,
        StmtView::UnsafeExit {
            span: Span {
                file: at.file,
                lo: if at.hi == 0 {
                    0
                } else {
                    (at.hi - 1) as u32
                },
                hi: at.hi,
            },
        },
    )
}

/// An `unsafe` block is the ring, and the ring is no wider.
pub proof fn law_unsafe_is_the_ring<'t>(
    cx: Cx<'t>,
    d: bool,
    st: LowView<'t>,
    e: Expr,
    body: AstBlock,
)
    requires
        e.kind matches ExprKind::Unsafe { body: b, .. } && b == body,
        eval_unsafe(cx, d, st, e).1 is Ok,
    ensures
        exists|entry: LowView<'t>| #[trigger]
            ring_shape(cx, d, st, body, eval_unsafe(cx, d, st, e).0, entry, e.span),
{
    reveal(eval_unsafe);
    reveal(walk_block);
    if let ExprKind::Unsafe { body: _, line } = e.kind {
        let s = st.lint_safety(cx.lines@, e.text@, line as nat, e.span).push(
            StmtView::UnsafeEnter { span: crate::lowuse::unsafe_word(e.span) },
        );
        let entry = s.with_unsafe(true);
        assert(ring_shape(cx, d, st, body, eval_unsafe(cx, d, st, e).0, entry, e.span));
    }
}

// --------------------------------------------------------------- matching --

/// How one arm of a `match` lies in the graph: `entry` at its fresh block,
/// `fin` after its scope is closed.
pub open spec fn arm_shape<'t>(
    st: LowView<'t>,
    fan: BlockId,
    join: BlockId,
    entry: LowView<'t>,
    fin: LowView<'t>,
    next: LowView<'t>,
) -> bool {
    &&& entry.cur == BlockId(st.blocks.len() as u32)
    &&& stands(st, fan) ==> leads(entry, fan, entry.cur)
    &&& entry.blocks.len() == st.blocks.len() + 1 || !stands(st, fan)
    &&& entry.scopes.len() == st.scopes.len() + 1
    &&& stands(fin, fin.cur) ==> leads(next, fin.cur, join)
}

/// Every arm of a `match` is reached from the value, by a block of its own,
/// and goes on behind the `match`; with no arm left the walk goes on there.
pub proof fn law_arms_fan_out<'t>(
    cx: Cx<'t>,
    d: bool,
    st: LowView<'t>,
    arms: Vec<Arm>,
    i: nat,
    fan: BlockId,
    join: BlockId,
    scrut: Option<(PlaceId, Span)>,
    held: Option<Seq<SiteId>>,
    acc: ValView,
)
    requires
        eval_arms(cx, d, st, arms, i, fan, join, scrut, held, acc).1 is Ok,
    ensures
        i >= arms@.len() ==> eval_arms(cx, d, st, arms, i, fan, join, scrut, held, acc).0
            == (LowView { cur: join, ..st }),
        i < arms@.len() ==> exists|
            entry: LowView<'t>,
            fin: LowView<'t>,
            next: LowView<'t>,
            acc1: ValView,
        |
            #![trigger arm_shape(st, fan, join, entry, fin, next), eval_arms(cx, d, next, arms, i + 1, fan, join, scrut, held, acc1)]
            arm_shape(st, fan, join, entry, fin, next) && eval_arms(
                cx,
                d,
                next,
                arms,
                i + 1,
                fan,
                join,
                scrut,
                held,
                acc1,
            ) == eval_arms(cx, d, st, arms, i, fan, join, scrut, held, acc) && arm_runs(
                cx,
                d,
                arms@[i as int],
                entry,
                scrut,
                held,
                fin,
            ),
{
    reveal(eval_arms);
    reveal(eval_value);
    reveal(close_scope);
    if i < arms@.len() {
        let arm = arms@[i as int];
        let b = st.next_block();
        let entry = st.new_block().goto(fan, b).at(b).push_scope();
        lemma_goto(st.new_block(), fan, b);
        let s1 = match arm.pattern {
            Some(p) => bind_arm(cx, entry, binds_of(&p), 0, scrut, held, false),
            None => entry,
        };
        let s2 = match arm.guard {
            Some(g) => eval_value(cx, d, s1, g).0,
            None => s1,
        };
        let (s3, acc1) = match arm.body {
            Some(x) => {
                let r = eval_value(cx, d, s2, x);
                (r.0, acc.merge(r.1->Ok_0))
            },
            None => (s2, acc),
        };
        let fin = close_scope(cx, d, s3, closing(arm.span)).0;
        let next = fin.goto(fin.cur, join);
        lemma_goto(fin, fin.cur, join);
        assert(arm_shape(st, fan, join, entry, fin, next));
        assert(arm_runs(cx, d, arm, entry, scrut, held, fin));
        assert(eval_arms(cx, d, next, arms, i + 1, fan, join, scrut, held, acc1) == eval_arms(
            cx,
            d,
            st,
            arms,
            i,
            fan,
            join,
            scrut,
            held,
            acc,
        ));
    }
}

/// The arm in its order: its names are bound, its guard is evaluated, its
/// body is, and its scope is closed.
pub open spec fn arm_runs<'t>(
    cx: Cx<'t>,
    d: bool,
    arm: Arm,
    entry: LowView<'t>,
    scrut: Option<(PlaceId, Span)>,
    held: Option<Seq<SiteId>>,
    fin: LowView<'t>,
) -> bool {
    let bound = match arm.pattern {
        Some(p) => bind_arm(cx, entry, binds_of(&p), 0, scrut, held, false),
        None => entry,
    };
    let guarded = match arm.guard {
        Some(g) => eval_value(cx, d, bound, g).0,
        None => bound,
    };
    let bodied = match arm.body {
        Some(x) => eval_value(cx, d, guarded, x).0,
        None => guarded,
    };
    fin == close_scope(cx, d, bodied, closing(arm.span)).0
}

/// An arm that takes a piece out of the value empties it: a binder whose
/// type does not copy moves the place that was matched, once.
pub proof fn law_arm_takes_its_piece<'t>(
    cx: Cx<'t>,
    st: LowView<'t>,
    bs: Seq<&Bind>,
    scrut: Option<(PlaceId, Span)>,
    held: Option<Seq<SiteId>>,
    moved: bool,
)
    requires
        bs.len() == 1,
    ensures
        ({
            let l = LocalId(st.locals.len() as u32);
            let b = *bs[0];
            let s = st.declare_init(cx, b);
            let s1 = match held {
                Some(h) => s.hold(l.0, h, b.span),
                None => s,
            };
            let out = bind_arm(cx, st, bs, 0, scrut, held, moved);
            &&& scrut matches Some((p, at)) ==> !cx.tabs.opt_copy_spec(bind_ty(b)) && !moved
                && st.locals.len() <= u32::MAX ==> out == s1.emit_move(p, at)
            &&& (scrut is None || moved || (cx.tabs.opt_copy_spec(bind_ty(b)) && st.locals.len()
                <= u32::MAX)) ==> out == s1
        }),
{
    reveal_with_fuel(bind_arm, 2);
}

/// How an `else` lies in the graph: the value's block leads to the fallback
/// and past it, and the fallback leads past it.
pub open spec fn else_shape<'t>(s: LowView<'t>, entry: LowView<'t>, fin: LowView<'t>, out: LowView<'t>) -> bool {
    &&& entry.cur == BlockId(s.blocks.len() as u32)
    &&& out.cur == BlockId((s.blocks.len() + 1) as u32)
    &&& stands(s, s.cur) ==> leads(entry, s.cur, entry.cur) && leads(entry, s.cur, out.cur)
    &&& stands(fin, fin.cur) ==> leads(out, fin.cur, out.cur)
}

/// The fallback of an `else` may be passed by, and goes on where it does.
pub proof fn law_else_may_pass<'t>(
    cx: Cx<'t>,
    d: bool,
    st: LowView<'t>,
    e: Expr,
    tried: Expr,
    fallback: Option<Box<Expr>>,
)
    requires
        e.kind matches ExprKind::Else { scrutinized, fallback: f, .. } && *scrutinized == tried && f
            == fallback,
        eval_else(cx, d, st, e).1 is Ok,
    ensures
        exists|entry: LowView<'t>, fin: LowView<'t>|
            #![trigger else_shape(eval_value(cx, d, st, tried).0, entry, fin, eval_else(cx, d, st, e).0)]
            else_shape(eval_value(cx, d, st, tried).0, entry, fin, eval_else(cx, d, st, e).0)
                && fin == close_scope(
                cx,
                d,
                (match fallback {
                    Some(x) => eval_value(cx, d, entry, *x).0,
                    None => entry,
                }),
                closing(e.span),
            ).0,
{
    reveal(eval_else);
    reveal(eval_value);
    reveal(close_scope);
    if let ExprKind::Else { scrutinized, handler, fallback: f } = e.kind {
        let s = eval_value(cx, d, st, tried).0;
        let fb = s.next_block();
        let s1 = s.new_block();
        let join = s1.next_block();
        let s2 = s1.new_block().goto(s.cur, join).goto(s.cur, fb).at(fb).push_scope();
        let entry = match handler {
            Some(p) => s2.declare_refs(cx, binds_of(&p), binds_of(&p).len()),
            None => s2,
        };
        if let Some(p) = handler {
            lemma_refs_keep(cx, s2, binds_of(&p), binds_of(&p).len());
        }
        let bodied = match f {
            Some(x) => eval_value(cx, d, entry, *x).0,
            None => entry,
        };
        let fin = close_scope(cx, d, bodied, closing(e.span)).0;
        lemma_goto(s1.new_block(), s.cur, join);
        lemma_goto(s1.new_block().goto(s.cur, join), s.cur, fb);
        if stands(s, s.cur) {
            lemma_goto_keeps(s1.new_block().goto(s.cur, join), s.cur, fb, s.cur, join);
        }
        lemma_goto(fin, fin.cur, join);
        assert(else_shape(s, entry, fin, eval_else(cx, d, st, e).0));
    }
}

proof fn lemma_refs_keep<'t>(cx: Cx<'t>, st: LowView<'t>, bs: Seq<&Bind>, n: nat)
    ensures
        ({
            let b = st.declare_refs(cx, bs, n);
            &&& b.cur == st.cur
            &&& stands(st, st.cur) ==> b.blocks.len() == st.blocks.len() && forall|i: int|
                0 <= i < st.blocks.len() ==> (#[trigger] b.blocks[i]).succs == st.blocks[i].succs
        }),
    decreases n,
{
    if n > 0 {
        lemma_refs_keep(cx, st, bs, (n - 1) as nat);
    }
}

} // verus!
