//! Calls, run: built-ins, functions and dispatch.

use vstd::prelude::*;
use vstd::string::*;
use vstd::utf8::*;

use crate::ast::{Arg, BodyKind, Dispatch, Expr, ExprKind, FnDecl, Fold};
use crate::diag::Span;
use crate::evaluate::{
    NO_CALL, NO_CALLEE, NO_METHOD_BODY, NO_RECEIVER, call_target, dispatched, eval_args,
    eval_assert, eval_call, eval_fn_call, eval_method_call, eval_named_call, eval_qualified,
    fn_target, fold_value, generic_bindings, held_fn, is_ctor_head, method_name, resolved_fn,
    unwrapped, with_generics, with_self,
};
use crate::machine::{Machine, PoolSlot, State, advanced, pair_views, pool_views};
use crate::package::Package;
use crate::runargs::{Several, mode_at};
use crate::runbase::{
    find_any_fn, find_declared, find_method, find_module_fn, has_rigid, opt_body,
    resolve_trait_body,
};
use crate::runhost::names_builtin;
use crate::semantics::{Here, Many, NO_TRAIT_BODY, eval_level, unit, val};
use crate::text::{lit, str_eq};
use crate::types::{CallSig, TyKind};
use crate::value::{
    Flow, Stop, StopView, Value, ValueView, flow_result, lemma_vals, refuse, trap, vals,
};

verus! {

fn folded(f: &Fold) -> (r: Value)
    ensures
        r@ == fold_value(*f),
{
    match f {
        Fold::Unit => Value::Unit,
        Fold::Bool(b) => Value::Bool(*b),
        Fold::Int(n) => Value::Int(*n),
        Fold::Float(b) => Value::F64(*b),
        Fold::Str(s) => Value::Str(s.clone()),
    }
}

fn heads_ctor(callee: &Expr) -> (r: bool)
    ensures
        r == is_ctor_head(*callee),
{
    match &callee.kind {
        ExprKind::Bracket { callee: head, .. } => match &head.kind {
            ExprKind::Path(_) => true,
            _ => false,
        },
        _ => false,
    }
}

fn fn_held(v: &Value) -> (r: Option<usize>)
    ensures
        opt_body(r) == held_fn(v@),
{
    match v {
        Value::Fn(b) => Some(*b),
        _ => None,
    }
}

pub open spec fn body_result(r: Result<Option<usize>, Stop>) -> Result<Option<int>, StopView> {
    match r {
        Ok(b) => Ok(opt_body(b)),
        Err(s) => Err(s@),
    }
}

pub open spec fn target_result(r: Result<(usize, String), Stop>) -> Result<
    (int, Seq<char>),
    StopView,
> {
    match r {
        Ok((b, ty)) => Ok((b as int, ty@)),
        Err(s) => Err(s@),
    }
}

pub fn unwrap_receiver(d: &Dispatch, v: Value) -> (r: Value)
    ensures
        r@ == unwrapped(*d, v@),
{
    match d {
        Dispatch::Trait { .. } => match v {
            Value::Dyn { inner, .. } => *inner,
            v => v,
        },
        _ => v,
    }
}

fn dispatch_name(d: &Dispatch) -> (r: &str)
    ensures
        r@ == method_name(*d),
{
    match d {
        Dispatch::Inherent { method, .. } => method.as_str(),
        Dispatch::Trait { method, .. } => method.as_str(),
    }
}

fn is_generic(generics: &Vec<String>, t: &str) -> (r: bool)
    ensures
        r == (exists|i: int| 0 <= i < generics@.len() && (#[trigger] generics@[i])@ == t@),
{
    let mut i: usize = 0;
    while i < generics.len()
        invariant
            i <= generics@.len(),
            forall|k: int| 0 <= k < i ==> (#[trigger] generics@[k])@ != t@,
        decreases generics.len() - i,
    {
        if str_eq(generics[i].as_str(), t) {
            assert(generics@[i as int]@ == t@);
            return true;
        }
        i = i + 1;
    }
    false
}

pub fn only(v: Value) -> (r: Vec<Value>)
    ensures
        vals(r@) == seq![v@],
{
    let ghost vv = v@;
    let mut out: Vec<Value> = Vec::new();
    out.push(v);
    assert(vals(out@) =~= seq![vv]);
    out
}

impl<'t> Machine<'t> {
    /// A call: folded, C, a container, a method, a variant or by name.
    #[verifier::spinoff_prover]
    pub(crate) fn eval_call(&mut self, h: Here, e: &'t Expr) -> (r: Result<Flow, Stop>)
        requires
            old(self).inv(),
        ensures
            advanced(*old(self), *final(self)),
            (final(self)@, flow_result(r)) == eval_call(old(self).world(), h, old(self)@, *e),
        decreases h.depth, eval_level(h.in_defer), e, 1nat, 0nat,
    {
        proof {
            reveal(eval_call);
        }
        match &e.kind {
            ExprKind::Call { callee, args, sig, fold, .. } => {
                if let Some(f) = fold {
                    return Ok(Flow::Val(folded(f)));
                }
                if let Some(cs) = sig {
                    if cs.c_call {
                        return match self.read_args(h, args) {
                            Err(s) => Err(s),
                            Ok(Several::Leaves(f)) => Ok(f),
                            Ok(Several::All(vs)) => self.c_call(cs.callee.as_str(), &vs, e.span),
                        };
                    }
                }
                if heads_ctor(callee) {
                    match self.kind_at(h, e) {
                        Some(TyKind::List(_)) => {
                            let none: Vec<Value> = Vec::new();
                            assert(vals(none@) =~= Seq::<ValueView>::empty());
                            return Ok(Flow::Val(self.new_list(none)));
                        },
                        Some(TyKind::Pool(_)) => return Ok(Flow::Val(self.new_pool())),
                        _ => {},
                    }
                }
                self.eval_signed_call(h, e)
            },
            _ => Ok(Flow::Val(Value::Unit)),
        }
    }

    fn new_pool(&mut self) -> (r: Value)
        requires
            old(self).inv(),
        ensures
            advanced(*old(self), *final(self)),
            final(self)@ == (State {
                pools: old(self)@.pools.push(Seq::empty()),
                ..old(self)@
            }),
            r@ == ValueView::Pool(old(self)@.pools.len() as usize),
    {
        let ghost was = self@;
        let n: usize = self.pools.len();
        let none: Vec<PoolSlot> = Vec::new();
        self.pools.push(none);
        proof {
            assert(pool_views(none@) =~= Seq::empty());
            assert(self@.pools =~= was.pools.push(Seq::empty()));
            assert(self@ =~= State { pools: was.pools.push(Seq::empty()), ..was });
            reveal(Machine::inv);
        }
        Value::Pool(n)
    }

    /// A call whose callee takes arguments: a method, a variant or by name.
    #[verifier::spinoff_prover]
    pub(crate) fn eval_signed_call(&mut self, h: Here, e: &'t Expr) -> (r: Result<Flow, Stop>)
        requires
            old(self).inv(),
        ensures
            advanced(*old(self), *final(self)),
            (final(self)@, flow_result(r)) == (match e.kind {
                ExprKind::Call { callee, args, sig, .. } => if sig is Some && (sig->0).has_self
                    && callee.kind is Member {
                    eval_method_call(old(self).world(), h, old(self)@, *e)
                } else if sig is Some && (sig->0).ctor {
                    match eval_args(
                        old(self).world(),
                        h,
                        old(self)@,
                        args,
                        0,
                        Seq::empty(),
                    ) {
                        (m1, Err(s)) => (m1, Err(s)),
                        (m1, Ok(Many::Leaves(f))) => (m1, Ok(f)),
                        (m1, Ok(Many::All(vs))) => val(
                            m1,
                            ValueView::Enum { variant: (sig->0).callee@, payload: vs },
                        ),
                    }
                } else {
                    eval_named_call(old(self).world(), h, old(self)@, *e)
                },
                _ => unit(old(self)@),
            }),
        decreases h.depth, eval_level(h.in_defer), e, 0nat, 3nat,
    {
        match &e.kind {
            ExprKind::Call { callee, args, sig, .. } => {
                if let Some(cs) = sig {
                    let member = match &callee.kind {
                        ExprKind::Member(..) => true,
                        _ => false,
                    };
                    if cs.has_self && member {
                        return self.eval_method_call(h, e);
                    }
                    if cs.ctor {
                        return match self.eval_args(h, args, 0) {
                            Err(s) => Err(s),
                            Ok(Several::Leaves(f)) => Ok(f),
                            Ok(Several::All(vs)) => {
                                proof {
                                    lemma_vals(vs);
                                }
                                Ok(
                                    Flow::Val(
                                        Value::Enum { variant: cs.callee.clone(), payload: vs },
                                    ),
                                )
                            },
                        };
                    }
                }
                self.eval_named_call(h, e)
            },
            _ => Ok(Flow::Val(Value::Unit)),
        }
    }

    /// A call by name: a built-in, a raise, a dispatch, or a function.
    #[verifier::spinoff_prover]
    pub(crate) fn eval_named_call(&mut self, h: Here, e: &'t Expr) -> (r: Result<Flow, Stop>)
        requires
            old(self).inv(),
        ensures
            advanced(*old(self), *final(self)),
            (final(self)@, flow_result(r)) == eval_named_call(old(self).world(), h, old(self)@, *e),
        decreases h.depth, eval_level(h.in_defer), e, 0nat, 2nat,
    {
        proof {
            reveal(eval_named_call);
        }
        match &e.kind {
            ExprKind::Call { callee, args, sig, dispatch, .. } => {
                let name = callee.text.as_str();
                if str_eq(name, "assert") {
                    return self.eval_assert(h, args, e.span);
                }
                if names_builtin(name) {
                    return match self.read_args(h, args) {
                        Err(s) => Err(s),
                        Ok(Several::Leaves(f)) => Ok(f),
                        Ok(Several::All(vs)) => self.builtin_call(name, &vs, e.span),
                    };
                }
                match sig {
                    None => {
                        let path = match &callee.kind {
                            ExprKind::Path(_) => true,
                            _ => false,
                        };
                        if path && self.raises_tag(h, e, name) {
                            match self.eval_args(h, args, 0) {
                                Err(s) => Err(s),
                                Ok(Several::Leaves(f)) => Ok(f),
                                Ok(Several::All(vs)) => {
                                    proof {
                                        lemma_vals(vs);
                                    }
                                    Ok(
                                        Flow::Raise(
                                            Value::ErrTag { tag: lit(name), payload: vs },
                                            false,
                                        ),
                                    )
                                },
                            }
                        } else {
                            Err(refuse(NO_CALL, e.span))
                        }
                    },
                    Some(_) => match dispatch {
                        Some(_) => self.eval_qualified(h, e),
                        None => self.eval_fn_call(h, e),
                    },
                }
            },
            _ => Ok(Flow::Val(Value::Unit)),
        }
    }

    /// `assert`: only the first argument is the condition.
    #[verifier::spinoff_prover]
    pub(crate) fn eval_assert(
        &mut self,
        h: Here,
        args: &'t Vec<Arg>,
        at: Span,
    ) -> (r: Result<Flow, Stop>)
        requires
            old(self).inv(),
        ensures
            advanced(*old(self), *final(self)),
            (final(self)@, flow_result(r)) == eval_assert(old(self).world(), h, old(self)@, *args, at),
        decreases h.depth, eval_level(h.in_defer), args, 1nat, 0nat,
    {
        proof {
            reveal(eval_assert);
        }
        if args.len() == 0 {
            return Ok(Flow::Val(Value::Unit));
        }
        match self.eval(h, &args[0].value) {
            Ok(Flow::Val(v)) => {
                if let Value::Bool(true) = v {
                    return Ok(Flow::Val(Value::Unit));
                }
                match self.eval_args(h, args, 1) {
                    Err(s) => Err(s),
                    Ok(Several::Leaves(f)) => Ok(f),
                    Ok(Several::All(_)) => Err(trap("assert", "mem.ub.defined", at)),
                }
            },
            other => other,
        }
    }

    pub(crate) fn dispatched(&self, h: Here, d: &Dispatch, name: &str, recv: &Expr, v: &Value, at: Span) -> (r: Result<
        (usize, String),
        Stop,
    >)
        ensures
            target_result(r) == dispatched(
                self.world(),
                h,
                self@,
                *d,
                name@,
                *recv,
                v@,
                at,
            ),
            r matches Ok((b, _)) ==> b < self.pkg.bodies@.len(),
    {
        proof {
            reveal(dispatched);
        }
        match d {
            Dispatch::Inherent { ty, .. } => match find_method(self.pkg, ty.as_str(), name) {
                Some(b) => Ok((b, ty.clone())),
                None => Err(refuse(NO_METHOD_BODY, at)),
            },
            Dispatch::Trait { module, name: tr, dyn_call, .. } => match self.trait_concrete(
                h,
                recv,
                *dyn_call,
                v,
                at,
            ) {
                Err(s) => Err(s),
                Ok(c) => match resolve_trait_body(
                    self.pkg,
                    c.as_str(),
                    *module,
                    tr.as_str(),
                    name,
                ) {
                    Some(b) => Ok((b, c)),
                    None => Err(refuse(NO_TRAIT_BODY, at)),
                },
            },
        }
    }

    pub(crate) fn set_self(&mut self, ty: String)
        requires
            old(self).inv(),
        ensures
            advanced(*old(self), *final(self)),
            final(self)@ == with_self(old(self)@, ty@),
    {
        let ghost was = self@;
        let ghost name = ty@;
        self.pending_self = Some(ty);
        proof {
            assert(self@ =~= with_self(was, name));
            reveal(Machine::inv);
        }
    }

    fn resolved_fn(&self, h: Here, cs: &CallSig) -> (r: Option<usize>)
        requires
            h.body < self.pkg.bodies@.len(),
        ensures
            opt_body(r) == resolved_fn(self.world(), h, *cs),
            r matches Some(b) ==> b < self.pkg.bodies@.len(),
    {
        proof {
            reveal(resolved_fn);
        }
        let declared = match cs.decl_span {
            Some(at) => find_declared(self.pkg, at),
            None => None,
        };
        match declared {
            Some(b) => Some(b),
            None => match find_module_fn(
                self.pkg,
                self.pkg.bodies[h.body].module,
                cs.callee.as_str(),
            ) {
                Some(b) => Some(b),
                None => find_any_fn(self.pkg, cs.callee.as_str()),
            },
        }
    }

    fn generic_bindings(&self, h: Here, d: &FnDecl, args: &Vec<Arg>, count: usize) -> (r: Vec<
        (String, String),
    >)
        requires
            count <= d.params@.len(),
            count <= args@.len(),
        ensures
            pair_views(r@) == generic_bindings(
                self.world(),
                h,
                self@,
                d.generics@,
                d.params@,
                args@,
                count as nat,
            ),
    {
        proof {
            reveal(generic_bindings);
        }
        let mut out: Vec<(String, String)> = Vec::new();
        let mut n: usize = 0;
        assert(pair_views(out@) =~= Seq::empty());
        while n < count
            invariant
                n <= count,
                count <= d.params@.len(),
                count <= args@.len(),
                pair_views(out@) == generic_bindings(
                    self.world(),
                    h,
                    self@,
                    d.generics@,
                    d.params@,
                    args@,
                    n as nat,
                ),
            decreases count - n,
        {
            proof {
                reveal(generic_bindings);
            }
            if let Some(t) = &d.params[n].ty_text {
                if let Some(c) = self.ty_concrete_name(h, &args[n].value) {
                    if is_generic(&d.generics, t.as_str()) && !has_rigid(&out, t.as_str()) {
                        let ghost before = pair_views(out@);
                        let name = t.clone();
                        out.push((name, c));
                        assert(pair_views(out@) =~= before.push((t@, c@)));
                    }
                }
            }
            n = n + 1;
        }
        out
    }

    fn bind_generics(&mut self, h: Here, body: usize, args: &Vec<Arg>)
        requires
            old(self).inv(),
            body < old(self).pkg.bodies@.len(),
        ensures
            advanced(*old(self), *final(self)),
            final(self)@ == with_generics(
                old(self).world(),
                h,
                old(self)@,
                body as int,
                args@,
            ),
    {
        proof {
            reveal(with_generics);
        }
        let ghost was = self@;
        let pkg: &'t Package = self.pkg;
        if let BodyKind::Fn(d) = &pkg.bodies[body].kind {
            let n: usize = if d.params.len() < args.len() {
                d.params.len()
            } else {
                args.len()
            };
            let r = self.generic_bindings(h, d, args, n);
            let ghost rv = pair_views(r@);
            if r.len() > 0 {
                self.pending_rigids = Some(r);
                proof {
                    assert(self@ =~= State { pending_rigids: Some(rv), ..was });
                    reveal(Machine::inv);
                }
            }
        }
    }

    /// A qualified dispatch: the first argument is the receiver.
    #[verifier::spinoff_prover]
    pub(crate) fn eval_qualified(&mut self, h: Here, e: &'t Expr) -> (r: Result<Flow, Stop>)
        requires
            old(self).inv(),
        ensures
            advanced(*old(self), *final(self)),
            (final(self)@, flow_result(r)) == eval_qualified(old(self).world(), h, old(self)@, *e),
        decreases h.depth, eval_level(h.in_defer), e, 0nat, 1nat,
    {
        proof {
            reveal(eval_qualified);
        }
        match &e.kind {
            ExprKind::Call { args, sig: Some(cs), dispatch: Some(d), .. } => {
                if args.len() == 0 {
                    return Err(refuse(NO_RECEIVER, e.span));
                }
                let recv = &args[0].value;
                let mark: usize = self.guards.len();
                let v = match self.eval_arg(h, recv, mode_at(cs, 0)) {
                    Err(s) => return Err(s),
                    Ok(v) => v,
                };
                match self.dispatched(h, d, dispatch_name(d), recv, &v, e.span) {
                    Err(s) => Err(s),
                    Ok((b, ty)) => {
                        let first = only(unwrap_receiver(d, v));
                        match self.moded_args(h, cs, args, 1, 0, first) {
                            Err(s) => Err(s),
                            Ok(vs) => {
                                self.set_self(ty);
                                self.guarded_call(h, b, vs, mark)
                            },
                        }
                    },
                }
            },
            _ => Ok(Flow::Val(Value::Unit)),
        }
    }

    /// The body a call by name runs, if there is one.
    #[verifier::spinoff_prover]
    pub(crate) fn fn_target(&mut self, h: Here, e: &'t Expr) -> (r: Result<Option<usize>, Stop>)
        requires
            old(self).inv(),
            h.body < old(self).pkg.bodies@.len(),
        ensures
            advanced(*old(self), *final(self)),
            (final(self)@, body_result(r)) == fn_target(old(self).world(), h, old(self)@, *e),
        decreases h.depth, eval_level(h.in_defer), e, 0nat, 0nat,
    {
        proof {
            reveal(fn_target);
        }
        match &e.kind {
            ExprKind::Call { callee, sig: Some(cs), .. } => match self.resolved_fn(h, cs) {
                Some(b) => Ok(Some(b)),
                None => match self.place_of(h, callee) {
                    Err(s) => Err(s),
                    Ok(None) => Ok(None),
                    Ok(Some(s)) => match self.read_at(&s, callee.span) {
                        Err(x) => Err(x),
                        Ok(v) => Ok(fn_held(&v)),
                    },
                },
            },
            _ => Ok(None),
        }
    }

    /// Call a known body with the arguments of a call.
    #[verifier::spinoff_prover]
    pub(crate) fn call_target(&mut self, h: Here, e: &'t Expr, b: usize) -> (r: Result<Flow, Stop>)
        requires
            old(self).inv(),
            b < old(self).pkg.bodies@.len(),
        ensures
            advanced(*old(self), *final(self)),
            (final(self)@, flow_result(r)) == call_target(old(self).world(), h, old(self)@, *e, b as int),
        decreases h.depth, eval_level(h.in_defer), e, 0nat, 0nat,
    {
        proof {
            reveal(call_target);
        }
        match &e.kind {
            ExprKind::Call { args, sig: Some(cs), .. } => {
                let mark: usize = self.guards.len();
                self.bind_generics(h, b, args);
                let none: Vec<Value> = Vec::new();
                assert(vals(none@) =~= Seq::<ValueView>::empty());
                match self.moded_args(h, cs, args, 0, 0, none) {
                    Err(s) => Err(s),
                    Ok(vs) => self.guarded_call(h, b, vs, mark),
                }
            },
            _ => Ok(Flow::Val(Value::Unit)),
        }
    }

    /// A call of a function, by name or through a function value.
    #[verifier::spinoff_prover]
    pub(crate) fn eval_fn_call(&mut self, h: Here, e: &'t Expr) -> (r: Result<Flow, Stop>)
        requires
            old(self).inv(),
        ensures
            advanced(*old(self), *final(self)),
            (final(self)@, flow_result(r)) == eval_fn_call(old(self).world(), h, old(self)@, *e),
        decreases h.depth, eval_level(h.in_defer), e, 0nat, 1nat,
    {
        proof {
            reveal(eval_fn_call);
        }
        if h.body >= self.pkg.bodies.len() {
            return Err(refuse(NO_CALLEE, e.span));
        }
        match self.fn_target(h, e) {
            Err(s) => Err(s),
            Ok(None) => Err(refuse(NO_CALLEE, e.span)),
            Ok(Some(b)) => {
                if b >= self.pkg.bodies.len() {
                    return Err(refuse(NO_CALLEE, e.span));
                }
                self.call_target(h, e, b)
            },
        }
    }
}

} // verus!
