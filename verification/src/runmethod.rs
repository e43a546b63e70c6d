//! Method calls, run.

use vstd::prelude::*;
use vstd::string::*;
use vstd::utf8::*;

use crate::ast::{Arg, Expr, ExprKind};
use crate::diag::Span;
use crate::evaluate::{
    NO_METHOD, cell_at, cell_call, dispatched, eval_arg, eval_method, eval_method_call,
    guarded_call, held_list, held_pool, list_call, mode_of, moded_args, pointer_call, pool_call,
    pool_short, receiver_in, str_call, unwrapped, weak_at, with_self,
};
use crate::machine::{Machine, advanced};
use crate::methods::{
    GET_NO_INDEX, NOT_LIST, NOT_POINTER, NOT_POOL, NOT_STR, TEMPORARY_CELL, TEMPORARY_LIST,
    TEMPORARY_POOL, is_list_mutator, pool_arity, pool_misses,
};
use crate::runargs::{Several, mode_at};
use crate::runcall::{only, unwrap_receiver};
use crate::semantics::{Here, eval_level, stops, unit};
use crate::text::str_eq;
use crate::types::{Prim, TyKind};
use crate::value::{Flow, Stop, Value, bytes_of, flow_result, refuse, refused};

verus! {

fn list_held(v: &Value) -> (r: Option<usize>)
    ensures
        r == held_list(v@),
{
    match v {
        Value::List(id) => Some(*id),
        _ => None,
    }
}

fn pool_held(v: &Value) -> (r: Option<usize>)
    ensures
        r == held_pool(v@),
{
    match v {
        Value::Pool(id) => Some(*id),
        _ => None,
    }
}

impl<'t> Machine<'t> {
    /// A method call: built-in surfaces by receiver type, else a dispatch.
    #[verifier::spinoff_prover]
    pub(crate) fn eval_method_call(&mut self, h: Here, e: &'t Expr) -> (r: Result<Flow, Stop>)
        requires
            old(self).inv(),
        ensures
            advanced(*old(self), *final(self)),
            (final(self)@, flow_result(r)) == eval_method_call(old(self).world(), h, old(self)@, *e),
        decreases h.depth, eval_level(h.in_defer), e, 0nat, 2nat,
    {
        proof {
            reveal(eval_method_call);
        }
        match &e.kind {
            ExprKind::Call { callee, .. } => match &callee.kind {
                ExprKind::Member(base, _) => match &base.kind {
                    ExprKind::Paren(inner, Some(_)) => self.eval_method(h, e, inner),
                    _ => self.eval_method(h, e, base),
                },
                _ => Ok(Flow::Val(Value::Unit)),
            },
            _ => Ok(Flow::Val(Value::Unit)),
        }
    }

    /// A method call on its receiver.
    #[verifier::spinoff_prover]
    pub(crate) fn eval_method(
        &mut self,
        h: Here,
        e: &'t Expr,
        recv: &'t Expr,
    ) -> (r: Result<Flow, Stop>)
        requires
            old(self).inv(),
            receiver_in(*e, *recv),
        ensures
            advanced(*old(self), *final(self)),
            (final(self)@, flow_result(r)) == eval_method(old(self).world(), h, old(self)@, *e, *recv),
        decreases h.depth, eval_level(h.in_defer), e, 0nat, 1nat,
    {
        proof {
            reveal(eval_method);
        }
        match &e.kind {
            ExprKind::Call { sig: Some(_), .. } => match self.kind_at(h, recv) {
                Some(TyKind::Ptr(_)) => self.pointer_call(h, e, recv),
                Some(TyKind::List(_)) => self.list_call(h, e, recv),
                Some(TyKind::Pool(_)) => self.pool_call(h, e, recv),
                Some(TyKind::Shared(_)) => self.cell_call(h, e, recv),
                Some(TyKind::Weak(_)) => self.cell_call(h, e, recv),
                Some(TyKind::Prim(Prim::Str)) => self.str_call(h, e, recv),
                _ => self.dispatch_call(h, e, recv),
            },
            _ => Ok(Flow::Val(Value::Unit)),
        }
    }

    /// A method on a raw pointer.
    #[verifier::spinoff_prover]
    pub(crate) fn pointer_call(
        &mut self,
        h: Here,
        e: &'t Expr,
        recv: &'t Expr,
    ) -> (r: Result<Flow, Stop>)
        requires
            old(self).inv(),
            receiver_in(*e, *recv),
        ensures
            advanced(*old(self), *final(self)),
            (final(self)@, flow_result(r)) == pointer_call(old(self).world(), h, old(self)@, *e, *recv),
        decreases h.depth, eval_level(h.in_defer), e, 0nat, 0nat,
    {
        proof {
            reveal(pointer_call);
        }
        match &e.kind {
            ExprKind::Call { args, sig: Some(cs), .. } => match self.read_or_eval(h, recv) {
                Ok(Flow::Val(v)) => match v {
                    Value::Ptr(p) => match self.eval_args(h, args, 0) {
                        Err(s) => Err(s),
                        Ok(Several::Leaves(f)) => Ok(f),
                        Ok(Several::All(vs)) => self.pointer_method(cs.callee.as_str(), p, &vs, e.span),
                    },
                    _ => Err(refuse(NOT_POINTER, e.span)),
                },
                other => other,
            },
            _ => Ok(Flow::Val(Value::Unit)),
        }
    }

    /// A method on a string.
    #[verifier::spinoff_prover]
    pub(crate) fn str_call(
        &mut self,
        h: Here,
        e: &'t Expr,
        recv: &'t Expr,
    ) -> (r: Result<Flow, Stop>)
        requires
            old(self).inv(),
            receiver_in(*e, *recv),
        ensures
            advanced(*old(self), *final(self)),
            (final(self)@, flow_result(r)) == str_call(old(self).world(), h, old(self)@, *e, *recv),
        decreases h.depth, eval_level(h.in_defer), e, 0nat, 0nat,
    {
        proof {
            reveal(str_call);
        }
        match &e.kind {
            ExprKind::Call { args, sig: Some(cs), .. } => match self.read_or_eval(h, recv) {
                Ok(Flow::Val(v)) => match v {
                    Value::Str(s) => match self.eval_args(h, args, 0) {
                        Err(x) => Err(x),
                        Ok(Several::Leaves(f)) => Ok(f),
                        Ok(Several::All(vs)) => {
                            proof {
                                encode_utf8_valid_utf8(s@);
                            }
                            let b = bytes_of(s.as_str());
                            self.str_method(cs.callee.as_str(), &b, &vs, e.span)
                        },
                    },
                    _ => Err(refuse(NOT_STR, e.span)),
                },
                other => other,
            },
            _ => Ok(Flow::Val(Value::Unit)),
        }
    }

    /// A method call that dispatches to a body.
    #[verifier::spinoff_prover]
    pub(crate) fn dispatch_call(
        &mut self,
        h: Here,
        e: &'t Expr,
        recv: &'t Expr,
    ) -> (r: Result<Flow, Stop>)
        requires
            old(self).inv(),
            receiver_in(*e, *recv),
        ensures
            advanced(*old(self), *final(self)),
            (final(self)@, flow_result(r)) == (match e.kind {
                ExprKind::Call { args, sig: Some(cs), dispatch, .. } => match dispatch {
                    None => stops(old(self)@, refused(NO_METHOD@, e.span)),
                    Some(d) => match eval_arg(
                        old(self).world(),
                        h,
                        old(self)@,
                        *recv,
                        mode_of(cs, 0),
                    ) {
                        (m1, Err(s)) => (m1, Err(s)),
                        (m1, Ok(v)) => match dispatched(
                            old(self).world(),
                            h,
                            m1,
                            d,
                            cs.callee@,
                            *recv,
                            v,
                            e.span,
                        ) {
                            Err(s) => stops(m1, s),
                            Ok((b, ty)) => match moded_args(
                                old(self).world(),
                                h,
                                with_self(m1, ty),
                                cs,
                                args,
                                0,
                                1,
                                seq![unwrapped(d, v)],
                            ) {
                                (m2, Err(s)) => (m2, Err(s)),
                                (m2, Ok(vs)) => guarded_call(
                                    old(self).world(),
                                    h,
                                    m2,
                                    b,
                                    vs,
                                    old(self)@.guards.len(),
                                ),
                            },
                        },
                    },
                },
                _ => unit(old(self)@),
            }),
        decreases h.depth, eval_level(h.in_defer), e, 0nat, 0nat,
    {
        match &e.kind {
            ExprKind::Call { args, sig: Some(cs), dispatch, .. } => match dispatch {
                None => Err(refuse(NO_METHOD, e.span)),
                Some(d) => {
                    let mark: usize = self.guards.len();
                    let v = match self.eval_arg(h, recv, mode_at(cs, 0)) {
                        Err(s) => return Err(s),
                        Ok(v) => v,
                    };
                    match self.dispatched(h, d, cs.callee.as_str(), recv, &v, e.span) {
                        Err(s) => Err(s),
                        Ok((b, ty)) => {
                            self.set_self(ty);
                            let first = only(unwrap_receiver(d, v));
                            match self.moded_args(h, cs, args, 0, 1, first) {
                                Err(s) => Err(s),
                                Ok(vs) => self.guarded_call(h, b, vs, mark),
                            }
                        },
                    }
                },
            },
            _ => Ok(Flow::Val(Value::Unit)),
        }
    }

    /// A method on a list.
    #[verifier::spinoff_prover]
    pub(crate) fn list_call(
        &mut self,
        h: Here,
        e: &'t Expr,
        recv: &'t Expr,
    ) -> (r: Result<Flow, Stop>)
        requires
            old(self).inv(),
            receiver_in(*e, *recv),
        ensures
            advanced(*old(self), *final(self)),
            (final(self)@, flow_result(r)) == list_call(old(self).world(), h, old(self)@, *e, *recv),
        decreases h.depth, eval_level(h.in_defer), e, 0nat, 0nat,
    {
        proof {
            reveal(list_call);
        }
        match &e.kind {
            ExprKind::Call { args, sig: Some(cs), .. } => {
                let method = cs.callee.as_str();
                let mut temporary = false;
                let valued = match self.place_of(h, recv) {
                    Err(s) => return Err(s),
                    Ok(Some(s)) => match self.read_at(&s, recv.span) {
                        Ok(v) => Ok(Flow::Val(v)),
                        Err(x) => return Err(x),
                    },
                    Ok(None) => {
                        temporary = true;
                        self.eval(h, recv)
                    },
                };
                match valued {
                    Ok(Flow::Val(v)) => match list_held(&v) {
                        Some(id) => {
                            if id >= self.lists.len() {
                                return Err(refuse(NOT_LIST, e.span));
                            }
                            if temporary && is_list_mutator(method) {
                                return Err(refuse(TEMPORARY_LIST, e.span));
                            }
                            if str_eq(method, "push") {
                                self.push_args(h, args, id)
                            } else if str_eq(method, "get") {
                                if args.len() == 0 {
                                    return Err(refuse(GET_NO_INDEX, e.span));
                                }
                                match self.eval(h, &args[0].value) {
                                    Ok(Flow::Val(i)) => self.list_get(id, &i, e.span),
                                    other => other,
                                }
                            } else {
                                self.list_method(method, id, e.span)
                            }
                        },
                        None => Err(refuse(NOT_LIST, e.span)),
                    },
                    other => other,
                }
            },
            _ => Ok(Flow::Val(Value::Unit)),
        }
    }

    /// A method on a pool held in a place.
    #[verifier::spinoff_prover]
    pub(crate) fn pool_call(
        &mut self,
        h: Here,
        e: &'t Expr,
        recv: &'t Expr,
    ) -> (r: Result<Flow, Stop>)
        requires
            old(self).inv(),
            receiver_in(*e, *recv),
        ensures
            advanced(*old(self), *final(self)),
            (final(self)@, flow_result(r)) == pool_call(old(self).world(), h, old(self)@, *e, *recv),
        decreases h.depth, eval_level(h.in_defer), e, 0nat, 0nat,
    {
        proof {
            reveal(pool_call);
        }
        match &e.kind {
            ExprKind::Call { args, sig: Some(cs), .. } => match self.place_of(h, recv) {
                Err(s) => Err(s),
                Ok(None) => Err(refuse(TEMPORARY_POOL, e.span)),
                Ok(Some(s)) => match self.read_at(&s, recv.span) {
                    Err(x) => Err(x),
                    Ok(v) => {
                        let id = match pool_held(&v) {
                            Some(id) => id,
                            None => return Err(refuse(NOT_POOL, e.span)),
                        };
                        if id >= self.pools.len() {
                            return Err(refuse(NOT_POOL, e.span));
                        }
                        let needs: usize = pool_arity(cs.callee.as_str());
                        if args.len() < needs {
                            return self.pool_short(h, args, cs.callee.as_str(), e.span);
                        }
                        match self.eval_some(h, args, needs) {
                            Err(x) => Err(x),
                            Ok(Several::Leaves(f)) => Ok(f),
                            Ok(Several::All(vs)) => self.pool_method(
                                cs.callee.as_str(),
                                id,
                                &vs,
                                e.span,
                            ),
                        }
                    },
                },
            },
            _ => Ok(Flow::Val(Value::Unit)),
        }
    }

    /// A pool method with too few arguments.
    #[verifier::spinoff_prover]
    pub(crate) fn pool_short(
        &mut self,
        h: Here,
        args: &'t Vec<Arg>,
        method: &str,
        at: Span,
    ) -> (r: Result<Flow, Stop>)
        requires
            old(self).inv(),
        ensures
            advanced(*old(self), *final(self)),
            (final(self)@, flow_result(r)) == pool_short(old(self).world(), h, old(self)@, *args, method@, at),
        decreases h.depth, eval_level(h.in_defer), args, 1nat, 0nat,
    {
        proof {
            reveal(pool_short);
        }
        let n: usize = args.len();
        match self.eval_some(h, args, n) {
            Err(s) => Err(s),
            Ok(Several::Leaves(f)) => Ok(f),
            Ok(Several::All(_)) => Err(refuse(pool_misses(method, n), at)),
        }
    }

    fn weak_at(&self, h: Here, e: &Expr) -> (r: bool)
        ensures
            r == weak_at(self.world(), h, *e),
    {
        proof {
            reveal(weak_at);
        }
        match self.kind_at(h, e) {
            Some(TyKind::Weak(_)) => true,
            _ => false,
        }
    }

    /// A method on a cell held in a place.
    #[verifier::spinoff_prover]
    pub(crate) fn cell_call(
        &mut self,
        h: Here,
        e: &'t Expr,
        recv: &'t Expr,
    ) -> (r: Result<Flow, Stop>)
        requires
            old(self).inv(),
            receiver_in(*e, *recv),
        ensures
            advanced(*old(self), *final(self)),
            (final(self)@, flow_result(r)) == cell_call(old(self).world(), h, old(self)@, *e, *recv),
        decreases h.depth, eval_level(h.in_defer), e, 0nat, 0nat,
    {
        proof {
            reveal(cell_call);
        }
        proof {
            reveal(cell_at);
        }
        match &e.kind {
            ExprKind::Call { sig: Some(cs), .. } => match self.place_of(h, recv) {
                Err(s) => Err(s),
                Ok(None) => Err(refuse(TEMPORARY_CELL, e.span)),
                Ok(Some(s)) => match self.read_at(&s, recv.span) {
                    Err(x) => Err(x),
                    Ok(v) => {
                        let weak = self.weak_at(h, recv);
                        self.cell_method(cs.callee.as_str(), weak, &v, e.span)
                    },
                },
            },
            _ => Ok(Flow::Val(Value::Unit)),
        }
    }
}

} // verus!
