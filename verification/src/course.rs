//! The course of a run: statements in their order, the scopes they open and
//! the duties these leave, the calls and what they hand over, and how a run
//! ends.

use vstd::prelude::*;
use vstd::utf8::*;

use crate::ast::{
    Arg, AssignOp, BinOp, Binder, Block, BodyKind, CastKind, Expr, ExprKind, FieldInit, FnParam,
    Pattern, PrefixOp, Statement,
};
use crate::cfg::ParamMode;
use crate::diag::Span;
use crate::evaluate::{
    arg_value, assign_to, bind_plain, call_body, close_scope, entered, eval, eval_arg, eval_assign,
    eval_block, eval_cast, eval_fields, eval_for, eval_in, eval_prefix, eval_stmt, eval_stmts,
    eval_struct, eval_value_cast, exit_scopes, for_items, leave, mode_of, moded_args, place_of,
    read_or_eval, returned, run_duties, store, taken_duties, Items,
};
use crate::machine::{find_bound, find_local, Duty, FrameView, State};
use crate::meaning::{came_to, spent, trapped_as};
use crate::run::concluded;
use crate::semantics::{arith_binop, bind_pattern, cast_int, range_at, wrap_at, Here, Many, World};
use crate::shadow::TagState;
use crate::types::CallSig;
use crate::value::{FlowView, SlotView, StopView, ValueView};
use crate::verdict::VerdictView;

verus! {

// ------------------------------------------------------------- statements --

/// Statements run one after another, each at the cost of a step. What the
/// last expression gives is the block's value, where the block has one.
pub proof fn law_statements_run_in_order<'t>(
    w: World<'t>,
    h: Here,
    m: State<'t>,
    ss: Vec<Statement>,
    i: nat,
    trailing: Option<Span>,
    out: ValueView,
    m2: State<'t>,
    v: ValueView,
)
    requires
        i < ss@.len(),
        m.steps < m.step_limit,
        came_to(eval_stmt(w, h, spent(m), ss@[i as int]), m2, v),
    ensures
        ({
            let last = ss@[i as int] matches Statement::Expr(e) && trailing == Some(e.span);
            eval_stmts(w, h, m, ss, i, trailing, out) == eval_stmts(
                w,
                h,
                m2,
                ss,
                i + 1,
                trailing,
                if last {
                    v
                } else {
                    out
                },
            )
        }),
{
    reveal(eval_stmts);
    reveal(eval_stmt);
}

/// Behind the last statement the scope is closed, and the block gives its
/// value.
pub proof fn law_statements_end<'t>(
    w: World<'t>,
    h: Here,
    m: State<'t>,
    ss: Vec<Statement>,
    i: nat,
    trailing: Option<Span>,
    out: ValueView,
    m1: State<'t>,
)
    requires
        i >= ss@.len(),
        close_scope(w, h, m, false) == (m1, Ok::<(), StopView>(())),
    ensures
        came_to(eval_stmts(w, h, m, ss, i, trailing, out), m1, out),
{
    reveal(eval_stmts);
    reveal(close_scope);
}

/// A statement that leaves (a `return`, a `break`, a `continue`, an error)
/// ends the block there: nothing behind it runs, and its scope is closed, as
/// on an error iff it is one.
pub proof fn law_leaving_skips_the_rest<'t>(
    w: World<'t>,
    h: Here,
    m: State<'t>,
    ss: Vec<Statement>,
    i: nat,
    trailing: Option<Span>,
    out: ValueView,
    m2: State<'t>,
    f: FlowView,
    m3: State<'t>,
)
    requires
        i < ss@.len(),
        m.steps < m.step_limit,
        eval_stmt(w, h, spent(m), ss@[i as int]) == (m2, Ok::<FlowView, StopView>(f)),
        !(f is Val),
        close_scope(w, h, m2, f is Raise) == (m3, Ok::<(), StopView>(())),
    ensures
        eval_stmts(w, h, m, ss, i, trailing, out) == (m3, Ok::<FlowView, StopView>(f)),
{
    reveal(eval_stmts);
    reveal(eval_stmt);
    reveal(leave);
    reveal(close_scope);
    assert(leave(w, h, m2, f) == (m3, Ok::<FlowView, StopView>(f)));
    assert(eval_stmts(w, h, m, ss, i, trailing, out) == leave(w, h, m2, f));
}

/// A block runs in a scope of its own; wanted for no value it gives none.
pub proof fn law_block_has_a_scope<'t>(
    w: World<'t>,
    h: Here,
    m: State<'t>,
    b: Block,
    want: bool,
    m0: State<'t>,
)
    requires
        m.frames.len() > 0,
        m0.frames.len() == m.frames.len(),
        m0 == (State { frames: m0.frames, ..m }),
        m0.frames.drop_last() == m.frames.drop_last(),
        m0.frames.last() == (FrameView { scopes: m0.frames.last().scopes, ..m.frames.last() }),
        m0.frames.last().scopes.drop_last() == m.frames.last().scopes,
        m0.frames.last().scopes.len() == m.frames.last().scopes.len() + 1,
        m0.frames.last().scopes.last().names == Seq::<(Seq<char>, usize)>::empty(),
        m0.frames.last().scopes.last().duties == Seq::<Duty<'t>>::empty(),
    ensures
        eval_block(w, h, m, b, want) == eval_stmts(
            w,
            h,
            m0,
            b.stmts,
            0,
            if want {
                b.trailing
            } else {
                None
            },
            ValueView::Unit,
        ),
{
    reveal(eval_block);
    reveal(eval_stmts);
    let s = m.push_scope();
    assert(s.frames.last().scopes.drop_last() =~= m.frames.last().scopes);
    assert(s.frames.last().scopes =~= m0.frames.last().scopes) by {
        assert forall|i: int| 0 <= i < s.frames.last().scopes.len() implies s.frames.last().scopes[i]
            == m0.frames.last().scopes[i] by {
            if i < m.frames.last().scopes.len() {
                assert(m0.frames.last().scopes.drop_last()[i] == m0.frames.last().scopes[i]);
            }
        }
    }
    assert(s.frames =~= m0.frames) by {
        assert forall|i: int| 0 <= i < s.frames.len() implies s.frames[i] == m0.frames[i] by {
            if i < m.frames.len() - 1 {
                assert(m0.frames.drop_last()[i] == m.frames.drop_last()[i]);
            }
        }
    }
}

// ----------------------------------------------------------------- duties --

/// A deferred expression runs when its scope is closed, before those that
/// were deferred earlier; one for errors only then.
pub proof fn law_defers_run_last_first<'t>(
    w: World<'t>,
    h: Here,
    m: State<'t>,
    ds: Seq<Duty<'t>>,
    n: nat,
    on_error: bool,
    e: &'t Expr,
    for_errors: bool,
)
    requires
        0 < n <= ds.len(),
        ds[n - 1] == Duty::Defer(e, for_errors),
        !h.in_defer,
    ensures
        for_errors && !on_error ==> run_duties(w, h, m, ds, n, on_error) == run_duties(
            w,
            h,
            m,
            ds,
            (n - 1) as nat,
            on_error,
        ),
        !for_errors || on_error ==> ({
            let ran = eval(w, Here { in_defer: true, ..h }, m, *e);
            match ran.1 {
                Ok(_) => run_duties(w, h, m, ds, n, on_error) == run_duties(
                    w,
                    h,
                    ran.0,
                    ds,
                    (n - 1) as nat,
                    on_error,
                ),
                Err(s) => run_duties(w, h, m, ds, n, on_error) == (
                    ran.0,
                    Err::<(), StopView>(s),
                ),
            }
        }),
{
    reveal(run_duties);
    reveal(eval);
}

/// With no duty left nothing happens.
pub proof fn law_no_duty_no_change<'t>(
    w: World<'t>,
    h: Here,
    m: State<'t>,
    ds: Seq<Duty<'t>>,
    on_error: bool,
)
    ensures
        run_duties(w, h, m, ds, 0, on_error) == (m, Ok::<(), StopView>(())),
{
    reveal(run_duties);
}

/// A shared cell whose local goes out of scope has one owner less, and a
/// weak one one observer less; the value stays where it is.
pub proof fn law_dropped_cell_counts_down<'t>(
    w: World<'t>,
    h: Here,
    m: State<'t>,
    ds: Seq<Duty<'t>>,
    i: usize,
    c: usize,
    on_error: bool,
)
    requires
        ds.len() == 1,
        ds[0] == Duty::<'t>::DropLocal(i),
        m.frames.len() > 0,
        i < m.frames.last().locals.len(),
        c < m.cells.len(),
    ensures
        ({
            let r = run_duties(w, h, m, ds, 1, on_error);
            let was = m.cells[c as int];
            let now = r.0.cells[c as int];
            &&& r.1 is Ok
            &&& m.frames.last().locals[i as int] == ValueView::Shared(c) && was.strong > 0
                ==> now.strong == was.strong - 1 && now.weak == was.weak && now.value == was.value
            &&& m.frames.last().locals[i as int] == ValueView::Weak(c) && was.weak > 0 ==> now.weak
                == was.weak - 1 && now.strong == was.strong && now.value == was.value
            &&& r.0.cells.len() == m.cells.len()
            &&& forall|k: int|
                0 <= k < m.cells.len() && k != c && (m.frames.last().locals[i as int]
                    == ValueView::Shared(c) || m.frames.last().locals[i as int] == ValueView::Weak(
                    c,
                )) ==> #[trigger] r.0.cells[k] == m.cells[k]
        }),
{
    reveal_with_fuel(run_duties, 2);
}

/// A `defer` runs nothing yet: it leaves a duty with the innermost scope,
/// behind those it has.
pub proof fn law_defer_leaves_a_duty<'t>(
    w: World<'t>,
    h: Here,
    m: State<'t>,
    s: Statement,
    expr: Expr,
    for_errors: bool,
    m1: State<'t>,
)
    requires
        s == (Statement::Defer { expr, on_error: for_errors }),
        m.frames.len() > 0,
        m.frames.last().scopes.len() > 0,
        came_to(eval_stmt(w, h, m, s), m1, ValueView::Unit),
    ensures
        ({
            let was = m.frames.last().scopes.last();
            let now = m1.frames.last().scopes.last();
            &&& now.names == was.names
            &&& now.duties.len() == was.duties.len() + 1
            &&& now.duties.drop_last() == was.duties
            &&& now.duties.last() matches Duty::Defer(e, f) && *e == expr && f == for_errors
            &&& m1.stdout == m.stdout && m1.steps == m.steps
        }),
{
    reveal(eval_stmt);
    let was = m.frames.last().scopes.last();
    let now = m1.frames.last().scopes.last();
    assert(now.duties.drop_last() =~= was.duties);
}

/// Closing a scope runs its duties, all of them, and takes it off the frame.
pub proof fn law_closing_runs_the_duties<'t>(
    w: World<'t>,
    h: Here,
    m: State<'t>,
    on_error: bool,
    m2: State<'t>,
)
    requires
        m.frames.len() > 0,
        m.frames.last().scopes.len() > 0,
        ({
            let ds = m.frames.last().scopes.last().duties;
            run_duties(w, h, taken_duties(m).0, ds, ds.len(), on_error) == (
                m2,
                Ok::<(), StopView>(()),
            )
        }),
        m2.frames.len() > 0,
        m2.frames.last().scopes.len() > 0,
    ensures
        ({
            let r = close_scope(w, h, m, on_error);
            &&& r.1 is Ok
            &&& r.0.frames.len() == m2.frames.len()
            &&& r.0.frames.last().scopes == m2.frames.last().scopes.drop_last()
            &&& r.0.frames.last().locals == m2.frames.last().locals
        }),
{
    reveal(close_scope);
    reveal(run_duties);
}

// ------------------------------------------------------------------ calls --

/// An argument is handed over under its declared mode: `take` takes it out
/// of its place, `mut` hands over the place itself, and without a mode the
/// value is read. A raw pointer is lent anew, to be written through iff the
/// mode is `mut`.
pub proof fn law_arguments_are_handed_over<'t>(
    w: World<'t>,
    h: Here,
    m: State<'t>,
    e: Expr,
    at: Span,
    mode: Option<ParamMode>,
    m1: State<'t>,
    s: SlotView,
    v: ValueView,
)
    requires
        place_of(w, h, m, e) == (m1, Ok::<Option<SlotView>, StopView>(Some(s))),
        m1.read_at(s, e.span) == Ok::<ValueView, StopView>(v),
    ensures
        mode == Some(ParamMode::Take) ==> arg_value(w, h, m, e, at, mode) == m1.take_slot(
            s,
            e.span,
        ),
        mode == Some(ParamMode::Mut) && !(v is Ptr) ==> arg_value(w, h, m, e, at, mode) == (
            m1,
            Ok::<ValueView, StopView>(ValueView::Ref(s)),
        ),
        mode is None && !(v is Ptr) ==> arg_value(w, h, m, e, at, mode) == (
            m1,
            Ok::<ValueView, StopView>(v),
        ),
        v matches ValueView::Ptr(p) ==> mode != Some(ParamMode::Take) ==> {
            let (m2, q) = m1.lent(
                p,
                if mode is None {
                    TagState::Frozen
                } else {
                    TagState::Active
                },
                e.span,
            );
            arg_value(w, h, m, e, at, mode) == (m2, Ok::<ValueView, StopView>(ValueView::Ptr(q)))
        },
{
    reveal(arg_value);
    reveal(place_of);
    reveal(State::read_at);
}

/// Arguments are evaluated left to right, one value for each, under the mode
/// of the parameter at its position.
pub proof fn law_arguments_in_order<'t>(
    w: World<'t>,
    h: Here,
    m: State<'t>,
    sig: CallSig,
    args: Vec<Arg>,
    i: nat,
    skip: nat,
    acc: Seq<ValueView>,
)
    ensures
        ({
            let r = moded_args(w, h, m, sig, args, i, skip, acc);
            &&& i >= args@.len() ==> r == (m, Ok::<Seq<ValueView>, StopView>(acc))
            &&& r.1 matches Ok(vs) ==> i < args@.len() ==> {
                let mode = if i + skip < sig.params@.len() {
                    sig.params@[(i + skip) as int].mode
                } else {
                    None
                };
                let first = eval_arg(w, h, m, args@[i as int].value, mode);
                &&& vs.len() == acc.len() + args@.len() - i
                &&& forall|k: int| 0 <= k < acc.len() ==> #[trigger] vs[k] == acc[k]
                &&& first.1 == Ok::<ValueView, StopView>(vs[acc.len() as int])
                &&& r == moded_args(
                    w,
                    h,
                    first.0,
                    sig,
                    args,
                    i + 1,
                    skip,
                    acc.push(vs[acc.len() as int]),
                )
            }
        }),
    decreases args@.len() - i,
{
    reveal(moded_args);
    reveal(eval_arg);
    if i < args@.len() {
        let first = eval_arg(w, h, m, args@[i as int].value, mode_of(sig, i + skip));
        if let Ok(v) = first.1 {
            law_arguments_in_order(w, h, first.0, sig, args, i + 1, skip, acc.push(v));
            let r = moded_args(w, h, m, sig, args, i, skip, acc);
            if let Ok(vs) = r.1 {
                assert(vs[acc.len() as int] == acc.push(v)[acc.len() as int]);
                assert forall|k: int| 0 <= k < acc.len() implies #[trigger] vs[k] == acc[k] by {
                    assert(vs[k] == acc.push(v)[k]);
                }
            }
        }
    }
}

/// A call has a frame of its own: its parameters name its arguments, in
/// order, nothing of the caller's is in scope, and the caller's frames stay.
pub proof fn law_call_binds_its_parameters<'t>(
    m: State<'t>,
    ps: Seq<FnParam>,
    args: Seq<ValueView>,
    i: int,
)
    requires
        0 <= i < args.len() <= ps.len(),
        args.len() <= usize::MAX,
        forall|k: int| i < k < args.len() ==> (#[trigger] ps[k]).name@ != ps[i].name@,
    ensures
        ({
            let b = entered(m, ps, args);
            &&& b.frames.drop_last() == m.frames
            &&& b.frames.last().locals == args
            &&& b.lookup(ps[i].name@) matches Some(s) && s.local == i && s.frame as int
                == m.frames.len() as usize && s.path.len() == 0
            &&& b.stdout == m.stdout && b.steps == m.steps && b.sh == m.sh
        }),
{
    let b = entered(m, ps, args);
    assert(b.frames.drop_last() =~= m.frames);
    let names = b.frames.last().scopes[0].names;
    lemma_last_named(names, ps[i].name@, args.len(), i);
    reveal_with_fuel(find_bound, 2);
}

proof fn lemma_last_named(names: Seq<(Seq<char>, usize)>, name: Seq<char>, n: nat, i: int)
    requires
        0 <= i < n <= names.len(),
        names[i].0 == name,
        forall|k: int| i < k < n ==> (#[trigger] names[k]).0 != name,
    ensures
        find_local(names, name, n) == Some(names[i].1),
    decreases n,
{
    if i < n - 1 {
        assert(names[n - 1].0 != name);
        lemma_last_named(names, name, (n - 1) as nat, i);
    }
}

/// A call gives what its body gives or returns, and an error it raises;
/// every scope it opened is closed first, as on an error iff it is one, and
/// its frame is gone.
pub proof fn law_call_gives_its_body<'t>(
    w: World<'t>,
    h: Here,
    m: State<'t>,
    body: int,
    args: Seq<ValueView>,
    block: Block,
    m1: State<'t>,
    f: FlowView,
    v: ValueView,
    m2: State<'t>,
)
    requires
        h.depth > 0,
        0 <= body < w.pkg.bodies@.len(),
        w.pkg.bodies@[body].kind matches BodyKind::Fn(d) && d.body == Some(block) && eval_block(
            w,
            Here { body: body as usize, depth: (h.depth - 1) as usize, ..h },
            entered(m, d.params@, args),
            block,
            true,
        ) == (m1, Ok::<FlowView, StopView>(f)),
        f == FlowView::Val(v) || f == FlowView::Return(v) || (f matches FlowView::Raise(x, _) && x
            == v),
        m1.frames.len() > 0,
        exit_scopes(
            w,
            Here { body: body as usize, depth: (h.depth - 1) as usize, ..h },
            m1,
            m1.frames.last().scopes.len(),
            f is Raise,
        ) == (m2, Ok::<(), StopView>(())),
        m2.frames.len() > 0,
    ensures
        call_body(w, h, m, body, args) == (
            State { frames: m2.frames.drop_last(), ..m2 },
            Ok::<ValueView, StopView>(v),
        ),
{
    reveal(call_body);
    reveal(eval_block);
    reveal(exit_scopes);
}

/// An error that a call gives back rises in its caller; any other value is
/// the call's value.
pub proof fn law_errors_rise<'t>(m: State<'t>, v: ValueView)
    ensures
        v is ErrTag ==> returned((m, Ok::<ValueView, StopView>(v))) == (
            m,
            Ok::<FlowView, StopView>(FlowView::Raise(v, false)),
        ),
        !(v is ErrTag) ==> came_to(returned((m, Ok::<ValueView, StopView>(v))), m, v),
{
}

// ------------------------------------------------------------------ items --

/// A `for` walks its items one after another: each is bound by the pattern
/// in a scope of its own, which is closed before the next, and `continue`
/// goes on with the next.
pub proof fn law_for_walks_its_items<'t>(
    w: World<'t>,
    h: Here,
    m: State<'t>,
    e: Expr,
    p: Pattern,
    body: Block,
    items: Items,
    i: nat,
    m2: State<'t>,
    m3: State<'t>,
    f: FlowView,
    m4: State<'t>,
)
    requires
        e.kind matches ExprKind::For { pattern, body: b, .. } && pattern == Some(p) && b == body,
        m.steps < m.step_limit,
        bind_pattern(spent(m).push_scope(), p, items.item(i as int)) == (
            m2,
            Ok::<(), StopView>(()),
        ),
        eval_block(w, h, m2, body, false) == (m3, Ok::<FlowView, StopView>(f)),
        close_scope(w, h, m3, f is Raise) == (m4, Ok::<(), StopView>(())),
        i < items.count(),
    ensures
        f is Val || f is Continue ==> for_items(w, h, m, e, items, i) == for_items(
            w,
            h,
            m4,
            e,
            items,
            i + 1,
        ),
        f is Break ==> came_to(for_items(w, h, m, e, items, i), m4, ValueView::Unit),
        f is Return || f is Raise ==> for_items(w, h, m, e, items, i) == (
            m4,
            Ok::<FlowView, StopView>(f),
        ),
{
    reveal(for_items);
    reveal(eval_block);
    reveal(close_scope);
    reveal(leave);
    assert(leave(w, h, m3, f) == (m4, Ok::<FlowView, StopView>(f)));
    if f is Return || f is Raise {
        assert(for_items(w, h, m, e, items, i) == leave(w, h, m3, f));
    }
}

/// With no item left a `for` is done.
pub proof fn law_for_ends<'t>(w: World<'t>, h: Here, m: State<'t>, e: Expr, items: Items, i: nat)
    requires
        e.kind is For,
        i >= items.count(),
    ensures
        came_to(for_items(w, h, m, e, items, i), m, ValueView::Unit),
{
    reveal(for_items);
}

/// The items of a range are its numbers from the first up to, and without,
/// the last; those of a list are its elements in order.
pub proof fn law_items_are_the_range<'t>(a: i64, b: i64, s: Seq<ValueView>, i: int)
    ensures
        a <= b ==> Items::Range(a, b).count() == b - a,
        a > b ==> Items::Range(a, b).count() == 0,
        0 <= i < b - a ==> (Items::Range(a, b).item(i) matches ValueView::Int(n) && n == a + i),
        Items::List(s).count() == s.len(),
        Items::List(s).item(i) == s[i],
{
}

/// What a `for` walks is what its iterable gives, from the first item on.
pub proof fn law_for_walks_what_it_is_given<'t>(
    w: World<'t>,
    h: Here,
    m: State<'t>,
    e: Expr,
    x: Expr,
    m1: State<'t>,
    v: ValueView,
)
    requires
        e.kind matches ExprKind::For { iterable, .. } && *iterable == x,
        came_to(read_or_eval(w, h, m, x), m1, v),
    ensures
        v matches ValueView::Range { start, end } ==> eval_for(w, h, m, e) == for_items(
            w,
            h,
            m1,
            e,
            Items::Range(start, end),
            0,
        ),
        v matches ValueView::List(id) ==> id < m1.lists.len() ==> eval_for(w, h, m, e) == for_items(
            w,
            h,
            m1,
            e,
            Items::List(m1.lists[id as int]),
            0,
        ),
{
    reveal(eval_for);
    reveal(read_or_eval);
    reveal(for_items);
}

// ------------------------------------------------------------ assignments --

/// A plain assignment stores the value, and a compound one stores what the
/// operation makes of the old value and the new, in this order.
pub proof fn law_assignment_stores<'t>(
    w: World<'t>,
    h: Here,
    m: State<'t>,
    s: SlotView,
    v: ValueView,
    op: AssignOp,
    target: Expr,
    value: Expr,
    at: Span,
)
    ensures
        op is Plain ==> store(w, h, m, s, v, op, target, value, at).0 == m.write_slot(
            s,
            v,
            target.span,
        ).0,
        op is Plain ==> (store(w, h, m, s, v, op, target, value, at).1 is Ok <==> m.write_slot(
            s,
            v,
            target.span,
        ).1 is Ok),
{
}

/// Compound arithmetic on integers is exact or traps, as the plain is.
pub proof fn law_compound_is_exact<'t>(
    w: World<'t>,
    h: Here,
    m: State<'t>,
    s: SlotView,
    a: i64,
    b: i64,
    op: BinOp,
    target: Expr,
    value: Expr,
    at: Span,
)
    requires
        m.read_at(s, target.span) == Ok::<ValueView, StopView>(ValueView::Int(a)),
        wrap_at(w, h, value) is None,
        op is Plus || op is Minus || op is Star,
    ensures
        ({
            let n = if op is Plus {
                a + b
            } else if op is Minus {
                a - b
            } else {
                a * b
            };
            let fits = i64::MIN <= n <= i64::MAX && (range_at(w, h, value) matches Some((lo, hi))
                ==> lo <= n <= hi);
            let r = store(
                w,
                h,
                m,
                s,
                ValueView::Int(b),
                AssignOp::Compound(op),
                target,
                value,
                at,
            );
            if fits {
                exists|k: i64|
                    k == n && r.0 == (#[trigger] m.write_slot(
                        s,
                        ValueView::Int(k),
                        target.span,
                    )).0
            } else {
                trapped_as(r, m, "overflow"@)
            }
        }),
{
    reveal(arith_binop);
    let n = if op is Plus {
        a + b
    } else if op is Minus {
        a - b
    } else {
        a * b
    };
    let r = store(w, h, m, s, ValueView::Int(b), AssignOp::Compound(op), target, value, at);
    if i64::MIN <= n <= i64::MAX && (range_at(w, h, value) matches Some((lo, hi)) ==> lo <= n
        <= hi) {
        let k = n as i64;
        assert(k == n);
        assert(r.0 == m.write_slot(s, ValueView::Int(k), target.span).0);
    }
}

/// An assignment evaluates its value first, then finds its place.
pub proof fn law_value_before_place<'t>(
    w: World<'t>,
    h: Here,
    m: State<'t>,
    st: Statement,
    op: AssignOp,
    place: Expr,
    value: Expr,
    m1: State<'t>,
    v: ValueView,
    m2: State<'t>,
    s: SlotView,
)
    requires
        st matches Statement::Assign { op: o, place: p, value: x, .. } && o == op && p == place && x
            == value,
        !(place.kind is Bracket),
        came_to(eval(w, h, m, value), m1, v),
        place_of(w, h, m1, place) == (m2, Ok::<Option<SlotView>, StopView>(Some(s))),
    ensures
        eval_assign(w, h, m, st) == store(
            w,
            h,
            m2,
            s,
            v,
            op,
            place,
            value,
            st->Assign_span,
        ),
{
    reveal(eval_assign);
    reveal(assign_to);
    reveal(eval);
    reveal(place_of);
}

/// A binding evaluates its value and gives it to its pattern; without one
/// the name is not yet initialized.
pub proof fn law_binding_takes_its_value<'t>(
    w: World<'t>,
    h: Here,
    m: State<'t>,
    b: Binder,
    p: Pattern,
    m1: State<'t>,
    v: ValueView,
)
    requires
        b.pattern == Some(p),
        b.init matches Some(x) ==> came_to(eval(w, h, m, x), m1, v),
        b.init is None ==> m1 == m && v == ValueView::Uninit,
    ensures
        bind_plain(w, h, m, b).0 == bind_pattern(m1, p, v).0,
        bind_plain(w, h, m, b).1 is Ok <==> bind_pattern(m1, p, v).1 is Ok,
{
    reveal(bind_plain);
    reveal(eval);
}

// ------------------------------------------------------------------ casts --

/// A character cast to an integer is its code; an integer cast to a
/// character is the one with that code, and traps where there is none.
pub proof fn law_character_casts<'t>(
    w: World<'t>,
    h: Here,
    m: State<'t>,
    e: Expr,
    x: Expr,
    kind: CastKind,
    m1: State<'t>,
    v: ValueView,
)
    requires
        e.kind matches ExprKind::Cast(y, Some(c)) && *y == x && c.kind == kind,
        came_to(eval(w, h, m, x), m1, v),
    ensures
        kind is CharToInt ==> (v matches ValueView::Char(c) ==> exists|n: i64|
            n == c as u32 && #[trigger] came_to(eval_cast(w, h, m, e), m1, ValueView::Int(n))),
        kind is IntToChar ==> (v matches ValueView::Int(n) ==> {
            let scalar = 0 <= n <= 0xD7FF || 0xE000 <= n <= 0x10FFFF;
            if scalar {
                exists|c: char|
                    c as u32 == n && #[trigger] came_to(
                        eval_cast(w, h, m, e),
                        m1,
                        ValueView::Char(c),
                    )
            } else {
                trapped_as(eval_cast(w, h, m, e), m1, "overflow"@)
            }
        }),
{
    reveal(eval_cast);
    reveal(eval);
    match v {
        ValueView::Char(c) => {
            if kind is CharToInt {
                assert(came_to(
                    eval_cast(w, h, m, e),
                    m1,
                    ValueView::Int((c as u32) as i64),
                ));
            }
        },
        ValueView::Int(n) => {
            if kind is IntToChar && (0 <= n <= 0xD7FF || 0xE000 <= n <= 0x10FFFF) {
                assert(came_to(
                    eval_cast(w, h, m, e),
                    m1,
                    ValueView::Char(crate::evaluate::char_of(n as u32)),
                ));
            }
        },
        _ => {},
    }
}

/// A cast between integers keeps the number, or traps where the type does
/// not hold it; a wrapping type takes what it can hold of it.
pub proof fn law_integer_casts<'t>(
    w: World<'t>,
    h: Here,
    m: State<'t>,
    e: Expr,
    x: Expr,
    m1: State<'t>,
    n: i64,
)
    requires
        e.kind matches ExprKind::Cast(y, _) && *y == x,
        came_to(eval(w, h, m, x), m1, ValueView::Int(n)),
        wrap_at(w, h, e) is None,
        wrap_at(w, h, x) is None,
    ensures
        ({
            let fits = range_at(w, h, e) matches Some((lo, hi)) ==> lo <= n <= hi;
            if fits {
                came_to(eval_value_cast(w, h, m, e), m1, ValueView::Int(n))
            } else {
                trapped_as(eval_value_cast(w, h, m, e), m1, "overflow"@)
            }
        }),
{
    reveal(eval_value_cast);
    reveal(eval);
    reveal(cast_int);
}

// --------------------------------------------------------------- the heap --

/// A struct literal has its fields under their names, in order, each with
/// the value its initializer gave.
pub proof fn law_struct_literal<'t>(
    w: World<'t>,
    h: Here,
    m: State<'t>,
    e: Expr,
    fs: Vec<FieldInit>,
    m1: State<'t>,
    vs: Seq<ValueView>,
)
    requires
        e.kind matches ExprKind::StructLit(f) && f == fs,
        eval_fields(w, h, m, fs, 0, Seq::empty()) == (m1, Ok::<Many, StopView>(Many::All(vs))),
    ensures
        eval_struct(w, h, m, e) matches (m2, Ok(FlowView::Val(ValueView::Struct(parts)))) && m2
            == m1 && parts.len() == vs.len() && forall|i: int|
            0 <= i < parts.len() ==> (#[trigger] parts[i]).0 == fs@[i].name@ && parts[i].1 == vs[i],
{
    reveal(eval_struct);
    reveal(eval_fields);
}

/// Field initializers are evaluated in order, one value for each.
pub proof fn law_fields_in_order<'t>(
    w: World<'t>,
    h: Here,
    m: State<'t>,
    fs: Vec<FieldInit>,
    i: nat,
    acc: Seq<ValueView>,
    m1: State<'t>,
    v: ValueView,
)
    requires
        i < fs@.len(),
        came_to(eval(w, h, m, fs@[i as int].value), m1, v),
    ensures
        eval_fields(w, h, m, fs, i, acc) == eval_fields(w, h, m1, fs, i + 1, acc.push(v)),
{
    reveal(eval_fields);
    reveal(eval);
}

/// `shared` makes a cell with one owner, no observer, and the value; `copy`
/// of it, `freeze` and the rest are the machine's own.
pub proof fn law_shared_makes_a_cell<'t>(
    w: World<'t>,
    h: Here,
    m: State<'t>,
    e: Expr,
    x: Expr,
    m1: State<'t>,
    v: ValueView,
)
    requires
        e.kind matches ExprKind::Prefix(PrefixOp::Shared, y) && *y == x,
        came_to(eval(w, h, m, x), m1, v),
    ensures
        ({
            let r = eval_prefix(w, h, m, e);
            &&& r.0 == (State { cells: r.0.cells, ..m1 })
            &&& r.0.cells.len() == m1.cells.len() + 1
            &&& r.0.cells.drop_last() == m1.cells
            &&& r.0.cells.last().strong == 1 && r.0.cells.last().weak == 0
                && r.0.cells.last().value == v
            &&& r.1 == Ok::<FlowView, StopView>(
                FlowView::Val(ValueView::Shared(m1.cells.len() as usize)),
            )
        }),
{
    reveal(eval_prefix);
    reveal(eval);
    let r = eval_prefix(w, h, m, e);
    assert(r.0.cells.drop_last() =~= m1.cells);
}

/// Inside an `in` the region it names is the innermost, and behind it the
/// one from before is again.
pub proof fn law_in_is_ambient<'t>(
    w: World<'t>,
    h: Here,
    m: State<'t>,
    e: Expr,
    x: Expr,
    body: Block,
    m1: State<'t>,
    r: usize,
)
    requires
        e.kind matches ExprKind::In { region: Some(y), body: b } && *y == x && b == body,
        came_to(read_or_eval(w, h, m, x), m1, ValueView::Region(r)),
    ensures
        ({
            let inside = State { ambient: m1.ambient.push(r), ..m1 };
            let (m2, out) = eval_block(w, h, inside, body, true);
            &&& eval_in(w, h, m, e).1 == out
            &&& m2.ambient.len() > 0 ==> eval_in(w, h, m, e).0 == (State {
                ambient: m2.ambient.drop_last(),
                ..m2
            })
        }),
{
    reveal(eval_in);
    reveal(read_or_eval);
    reveal(eval_block);
}

// ---------------------------------------------------------------- the end --

/// A run that comes to its end exits with the number its entry gave, as far
/// as a byte holds it, with failure where that is an error, and with success
/// otherwise; what was printed stands, and an error is printed last.
pub proof fn law_run_ends<'t>(m: State<'t>, v: ValueView, root: Span)
    ensures
        ({
            let r = concluded((m, Ok::<ValueView, StopView>(v)), root);
            &&& r matches Ok(o) && (o.verdict matches VerdictView::Exit(code) && {
                &&& v matches ValueView::Int(n) ==> (n - code) % 256 == 0
                &&& v is ErrTag ==> code == 1
                &&& !(v is Int) && !(v is ErrTag) ==> code == 0
                &&& v matches ValueView::ErrTag { tag, .. } ==> o.stdout == decode_utf8(
                    m.stdout + encode_utf8("error: "@ + tag + "\n"@),
                )
                &&& !(v is ErrTag) ==> o.stdout == decode_utf8(m.stdout)
                &&& o.stderr == decode_utf8(m.stderr)
            })
        }),
{
}

/// A trap is a verdict, undefined behaviour is one, and an exit the program
/// asked for is that exit; what was printed before stands. What is refused,
/// and a question to the host, are no verdicts.
pub proof fn law_run_stops<'t>(m: State<'t>, s: StopView, root: Span)
    ensures
        ({
            let r = concluded((m, Err::<ValueView, StopView>(s)), root);
            &&& s matches StopView::Trap(t) ==> (r matches Ok(o) && o.verdict
                == VerdictView::Trap(t) && o.stdout == decode_utf8(m.stdout))
            &&& s matches StopView::Ub(f) ==> (r matches Ok(o) && o.verdict == VerdictView::Ub(f)
                && o.stdout == decode_utf8(m.stdout))
            &&& s matches StopView::Exit(c) ==> (r matches Ok(o) && o.verdict
                == VerdictView::Exit(c) && o.stdout == decode_utf8(m.stdout))
            &&& s is Refuse || s is Budget || s is Ask ==> r is Err
        }),
{
}

} // verus!
