//! What lending and dispatch come to: which uses of a byte view outlive the
//! call, what is warned of, and which body a call runs.

use vstd::prelude::*;

use crate::ast::{Arg, Body, BodyKind, Expr, ExprKind, Owner};
use crate::byteview::{
    byte_list, call_diags, callee_of, lent_diags, param_at, scan_expr, viewed, Found,
};
use crate::diag::{Code, DiagView, Span};
use crate::evaluate::{resolved_fn, unwrapped};
use crate::machine::State;
use crate::package::Package;
use crate::semantics::{
    any_fn, default_in, dispatch_type, fn_declared, fn_in, last_part, method_in, override_in,
    trait_body, Here, World,
};
use crate::types::{CallSig, FnSig};
use crate::value::{StopView, ValueView};

verus! {

// ------------------------------------------------------------------ views --

/// A view that is returned, or assigned, outlives the call there; one whose
/// name merely stands in another place is not known to.
pub proof fn law_returned_view_escapes(
    pkg: &Package,
    word: Seq<char>,
    stack: Seq<(Span, usize)>,
    st: Found,
    e: Expr,
    x: Expr,
)
    requires
        st.escape is None,
        x.kind matches ExprKind::Path(n) && n@ == word,
    ensures
        (e.kind matches ExprKind::Return(Some(y)) && *y == x) ==> scan_expr(
            pkg,
            word,
            stack,
            st,
            e,
            false,
        ).escape == Some(x.span),
        scan_expr(pkg, word, stack, st, x, true).escape == Some(x.span),
        scan_expr(pkg, word, stack, st, x, false) == (Found { opaque: true, ..st }),
{
    reveal_with_fuel(scan_expr, 2);
}

/// Reading an element of a view, its length, and walking it keep it within
/// the call.
pub proof fn law_reading_a_view_is_free(
    pkg: &Package,
    word: Seq<char>,
    stack: Seq<(Span, usize)>,
    st: Found,
    e: Expr,
    x: Expr,
)
    requires
        st.escape is None,
        x.kind matches ExprKind::Path(n) && n@ == word,
    ensures
        (e.kind matches ExprKind::Member(y, m) && *y == x && m@ == "len"@) ==> scan_expr(
            pkg,
            word,
            stack,
            st,
            e,
            false,
        ) == st,
        (e.kind matches ExprKind::Bracket { callee, args, .. } && *callee == x && args@.len() == 0)
            ==> scan_expr(pkg, word, stack, st, e, false) == st,
        (e.kind matches ExprKind::For { iterable, body, .. } && *iterable == x && body.stmts@.len()
            == 0) ==> scan_expr(pkg, word, stack, st, e, false) == st,
{
    reveal_with_fuel(scan_expr, 2);
    reveal_with_fuel(crate::byteview::scan_exprs, 2);
    reveal_with_fuel(crate::byteview::scan_stmts, 2);
}

/// Only a `List[int]` parameter without a mode takes a view.
pub proof fn law_only_read_lists_take_views(pkg: &Package, sig: FnSig, ix: usize)
    ensures
        ix >= sig.params@.len() ==> param_at(pkg, sig, ix, Seq::empty()) is Opaque,
        ix < sig.params@.len() && sig.params@[ix as int].mode is Some ==> param_at(
            pkg,
            sig,
            ix,
            Seq::empty(),
        ) is Opaque,
        ix < sig.params@.len() && !byte_list(pkg.sigs.table, sig.params@[ix as int].ty)
            ==> param_at(pkg, sig, ix, Seq::empty()) is Opaque,
{
    reveal_with_fuel(param_at, 1);
}

/// A warning of the rule stands in the list, there.
pub open spec fn copied_in(ds: Seq<DiagView>, at: Span) -> bool {
    exists|k: int|
        0 <= k < ds.len() && (#[trigger] ds[k]).code == Code::W1004 && ds[k].primary == at
            && ds[k].severity is Warning
}

proof fn lemma_lent(
    pkg: &Package,
    body: Body,
    args: Seq<Arg>,
    callee: Seq<char>,
    sig: FnSig,
    n: nat,
    i: int,
)
    requires
        0 <= i < n <= args.len(),
        i <= usize::MAX,
        i < sig.params@.len(),
        args[i].mode is None,
        viewed(body, args[i].value) is Some,
        param_at(pkg, sig, i as usize, Seq::empty()) is Escapes,
    ensures
        copied_in(lent_diags(pkg, body, args, callee, sig, n), args[i].value.span),
    decreases n,
{
    let rest = lent_diags(pkg, body, args, callee, sig, (n - 1) as nat);
    let all = lent_diags(pkg, body, args, callee, sig, n);
    let at = args[i].value.span;
    if i == n - 1 {
        assert(all[rest.len() as int].primary == at);
    } else {
        lemma_lent(pkg, body, args, callee, sig, (n - 1) as nat, i);
        let k = choose|k: int|
            0 <= k < rest.len() && (#[trigger] rest[k]).code == Code::W1004 && rest[k].primary
                == at && rest[k].severity is Warning;
        assert(all[k] == rest[k]);
    }
}

/// Bytes offered as a view to a parameter that outlives the call are copied,
/// and that is warned of at the argument.
pub proof fn law_copied_view_is_warned_of(
    pkg: &Package,
    body: Body,
    e: Expr,
    args: Vec<Arg>,
    cs: CallSig,
    sig: FnSig,
    i: int,
)
    requires
        e.kind matches ExprKind::Call { args: a, sig: s, .. } && a == args && s == Some(cs),
        !cs.has_self && !cs.ctor && !cs.c_call,
        callee_of(pkg, cs.callee@, cs.decl_span) == Some(sig),
        0 <= i < args@.len(),
        i <= usize::MAX,
        i < sig.params@.len(),
        args@[i].mode is None,
        viewed(body, args@[i].value) is Some,
        param_at(pkg, sig, i as usize, Seq::empty()) is Escapes,
    ensures
        copied_in(call_diags(pkg, body, e), args@[i].value.span),
{
    lemma_lent(pkg, body, args@, cs.callee@, sig, args@.len(), i);
}

/// A call that offers no view is not warned of.
pub proof fn law_no_view_no_warning(
    pkg: &Package,
    body: Body,
    args: Seq<Arg>,
    callee: Seq<char>,
    sig: FnSig,
    n: nat,
)
    requires
        n <= args.len(),
        forall|i: int|
            0 <= i < n ==> viewed(body, (#[trigger] args[i]).value) is None || args[i].mode is Some,
    ensures
        lent_diags(pkg, body, args, callee, sig, n).len() == 0,
    decreases n,
{
    if n > 0 {
        law_no_view_no_warning(pkg, body, args, callee, sig, (n - 1) as nat);
        assert(viewed(body, args[n - 1].value) is None || args[n - 1].mode is Some);
    }
}

// --------------------------------------------------------------- dispatch --

proof fn lemma_declared(p: &Package, at: Span, n: nat)
    requires
        n <= p.bodies@.len(),
    ensures
        fn_declared(p, at, n) matches Some(b) ==> 0 <= b < n && p.bodies@[b].owner is Module && (
        p.bodies@[b].kind matches BodyKind::Fn(d) && d.name_span == Some(at)),
        fn_declared(p, at, n) is None ==> forall|b: int|
            0 <= b < n && (#[trigger] p.bodies@[b]).owner is Module ==> !(p.bodies@[b].kind
                matches BodyKind::Fn(d) && d.name_span == Some(at)),
    decreases n,
{
    if n > 0 {
        lemma_declared(p, at, (n - 1) as nat);
    }
}

proof fn lemma_fn_in(p: &Package, module: u32, name: Seq<char>, n: nat)
    requires
        n <= p.bodies@.len(),
    ensures
        fn_in(p, module, name, n) matches Some(b) ==> 0 <= b < n && p.bodies@[b].owner is Module
            && p.bodies@[b].kind is Fn && p.bodies@[b].name@ == name && p.bodies@[b].module
            == module,
        fn_in(p, module, name, n) is None ==> forall|b: int|
            0 <= b < n && (#[trigger] p.bodies@[b]).owner is Module && p.bodies@[b].kind is Fn
                && p.bodies@[b].module == module ==> p.bodies@[b].name@ != name,
    decreases n,
{
    if n > 0 {
        lemma_fn_in(p, module, name, (n - 1) as nat);
    }
}

proof fn lemma_any(p: &Package, name: Seq<char>, i: int)
    requires
        0 <= i,
    ensures
        any_fn(p, name, i) matches Some(b) ==> i <= b < p.bodies@.len() && p.bodies@[b].owner
            is Module && p.bodies@[b].kind is Fn && p.bodies@[b].name@ == name,
    decreases p.bodies@.len() - i,
{
    if i < p.bodies@.len() {
        lemma_any(p, name, i + 1);
    }
}

/// A call by name runs the function declared where its signature says. Where
/// none is, it runs one of that name: of its own module, where that has one,
/// and otherwise of another.
pub proof fn law_call_runs_what_it_names(w: World<'_>, h: Here, cs: CallSig, k: int)
    requires
        0 <= k < w.pkg.bodies@.len(),
    ensures
        ({
            let module = w.pkg.bodies@[h.body as int].module;
            let there = w.pkg.bodies@[k];
            let r = resolved_fn(w, h, cs);
            &&& r matches Some(b) ==> 0 <= b < w.pkg.bodies@.len() && w.pkg.bodies@[b].owner
                is Module && w.pkg.bodies@[b].kind is Fn
            &&& cs.decl_span matches Some(at) ==> there.owner is Module && (there.kind
                matches BodyKind::Fn(d) && d.name_span == Some(at)) ==> (r matches Some(b) && (
            w.pkg.bodies@[b].kind matches BodyKind::Fn(f) && f.name_span == Some(at)))
            &&& cs.decl_span is None ==> (r matches Some(b) ==> w.pkg.bodies@[b].name@
                == cs.callee@)
            &&& cs.decl_span is None && there.owner is Module && there.kind is Fn && there.module
                == module && there.name@ == cs.callee@ ==> (r matches Some(b)
                && w.pkg.bodies@[b].module == module)
        }),
{
    reveal(resolved_fn);
    let p = w.pkg;
    let n = p.bodies@.len();
    if let Some(at) = cs.decl_span {
        lemma_declared(p, at, n);
    }
    lemma_fn_in(p, p.bodies@[h.body as int].module, cs.callee@, n);
    lemma_any(p, cs.callee@, 0);
}

proof fn lemma_method(p: &Package, ty: Seq<char>, name: Seq<char>, n: nat)
    requires
        n <= p.bodies@.len(),
    ensures
        method_in(p, ty, name, n) matches Some(b) ==> 0 <= b < n && p.bodies@[b].name@ == name && (
        p.bodies@[b].owner matches Owner::Impl { self_ty, trait_name: None } && self_ty@ == ty),
    decreases n,
{
    if n > 0 {
        lemma_method(p, ty, name, (n - 1) as nat);
    }
}

proof fn lemma_override(p: &Package, ty: Seq<char>, tr: Seq<char>, name: Seq<char>, n: nat)
    requires
        n <= p.bodies@.len(),
    ensures
        override_in(p, ty, tr, name, n) matches Some(b) ==> 0 <= b < n && p.bodies@[b].name@ == name
            && (p.bodies@[b].owner matches Owner::Impl { self_ty, trait_name: Some(t) } && self_ty@
            == ty && last_part(t@, t@.len()) == tr),
        override_in(p, ty, tr, name, n) is None ==> forall|b: int|
            0 <= b < n && (#[trigger] p.bodies@[b]).kind is Fn && p.bodies@[b].name@ == name ==> !(
            p.bodies@[b].owner matches Owner::Impl { self_ty, trait_name: Some(t) } && self_ty@
                == ty && last_part(t@, t@.len()) == tr),
    decreases n,
{
    if n > 0 {
        lemma_override(p, ty, tr, name, (n - 1) as nat);
    }
}

proof fn lemma_default(p: &Package, module: u32, tr: Seq<char>, name: Seq<char>, n: nat)
    requires
        n <= p.bodies@.len(),
    ensures
        default_in(p, module, tr, name, n) matches Some(b) ==> 0 <= b < n && p.bodies@[b].name@
            == name && (p.bodies@[b].owner matches Owner::Trait { name: t } && t@ == tr),
    decreases n,
{
    if n > 0 {
        lemma_default(p, module, tr, name, (n - 1) as nat);
    }
}

/// A trait's method runs the body that the type's own impl gives it; only
/// where the impl gives none does it run the trait's default.
pub proof fn law_impl_overrides_default(
    p: &Package,
    ty: Seq<char>,
    module: u32,
    tr: Seq<char>,
    name: Seq<char>,
    k: int,
)
    requires
        0 <= k < p.bodies@.len(),
    ensures
        ({
            let there = p.bodies@[k];
            let own = there.kind is Fn && there.name@ == name && (there.owner matches Owner::Impl {
                self_ty,
                trait_name: Some(t),
            } && self_ty@ == ty && last_part(t@, t@.len()) == tr);
            let r = trait_body(p, ty, module, tr, name);
            &&& own ==> (r matches Some(b) && (p.bodies@[b].owner matches Owner::Impl {
                self_ty,
                ..
            } && self_ty@ == ty))
            &&& r matches Some(b) ==> 0 <= b < p.bodies@.len() && p.bodies@[b].name@ == name
            &&& r matches Some(b) ==> !(p.bodies@[b].owner is Module)
        }),
{
    lemma_override(p, ty, tr, name, p.bodies@.len());
    lemma_default(p, module, tr, name, p.bodies@.len());
}

/// A call through a trait object runs the method of the type that it holds,
/// on the value that it holds.
pub proof fn law_dyn_call_follows_the_value(
    w: World<'_>,
    h: Here,
    m: State<'_>,
    recv: Expr,
    v: ValueView,
    at: Span,
    d: crate::ast::Dispatch,
)
    ensures
        v matches ValueView::Dyn { concrete, .. } ==> dispatch_type(w, h, m, recv, true, v, at)
            == Ok::<Seq<char>, StopView>(concrete),
        !(v is Dyn) ==> dispatch_type(w, h, m, recv, true, v, at) is Err,
        d is Trait ==> (v matches ValueView::Dyn { inner, .. } ==> unwrapped(d, v) == *inner),
        !(v is Dyn) ==> unwrapped(d, v) == v,
{
}

} // verus!
