//! Statements, run.

use vstd::prelude::*;
use vstd::string::*;
use vstd::utf8::*;

use crate::ast::{AssignOp, Binder, Block, Expr, ExprKind, PatKind, Statement};
use crate::diag::Span;
use crate::evaluate::{
    NO_ASSIGN, NO_LOCAL_FN, NO_LOCAL_ITEM, assign_to, bind_decl, bind_decls, bind_plain,
    eval_assign, eval_block, eval_stmt, eval_stmts, raw_target, store, trails,
};
use crate::machine::{Duty, Machine, advanced};
use crate::runargs::Several;
use crate::semantics::{Here, eval_level};
use crate::types::TyKind;
use crate::value::{Flow, Slot, Stop, Value, ValueView, flow_result, refuse};

verus! {

pub fn is_trailing(s: &Statement, trailing: Option<Span>) -> (r: bool)
    ensures
        r == trails(*s, trailing),
{
    match (s, trailing) {
        (Statement::Expr(e), Some(at)) => at == e.span,
        _ => false,
    }
}

impl<'t> Machine<'t> {
    /// One binder of a declaration.
    #[verifier::spinoff_prover]
    pub(crate) fn bind_decl(&mut self, h: Here, b: &'t Binder) -> (r: Result<Flow, Stop>)
        requires
            old(self).inv(),
        ensures
            advanced(*old(self), *final(self)),
            (final(self)@, flow_result(r)) == bind_decl(old(self).world(), h, old(self)@, *b),
        decreases h.depth, eval_level(h.in_defer), b, 1nat, 0nat,
    {
        proof {
            reveal(bind_decl);
        }
        match (&b.pattern, &b.init) {
            (Some(p), Some(x)) => match &p.kind {
                PatKind::Tuple(subs) => match self.place_of(h, x) {
                    Err(s) => Err(s),
                    Ok(Some(base)) => match self.bind_tuple_elements(subs, &base) {
                        Err(s) => Err(s),
                        Ok(_) => Ok(Flow::Val(Value::Unit)),
                    },
                    Ok(None) => self.bind_plain(h, b),
                },
                _ => self.bind_plain(h, b),
            },
            _ => self.bind_plain(h, b),
        }
    }

    /// Bind a value; a raw row error binds too.
    #[verifier::spinoff_prover]
    pub(crate) fn bind_plain(&mut self, h: Here, b: &'t Binder) -> (r: Result<Flow, Stop>)
        requires
            old(self).inv(),
        ensures
            advanced(*old(self), *final(self)),
            (final(self)@, flow_result(r)) == bind_plain(old(self).world(), h, old(self)@, *b),
        decreases h.depth, eval_level(h.in_defer), b, 0nat, 0nat,
    {
        proof {
            reveal(bind_plain);
        }
        let valued = match &b.init {
            Some(x) => self.eval(h, x),
            None => Ok(Flow::Val(Value::Uninit)),
        };
        let v = match valued {
            Ok(Flow::Val(v)) => v,
            Ok(Flow::Raise(v, false)) => v,
            other => return other,
        };
        match &b.pattern {
            Some(p) => match self.bind_pattern(p, v) {
                Err(s) => Err(s),
                Ok(_) => Ok(Flow::Val(Value::Unit)),
            },
            None => Ok(Flow::Val(Value::Unit)),
        }
    }

    #[verifier::spinoff_prover]
    pub(crate) fn bind_decls(&mut self, h: Here, bs: &'t Vec<Binder>) -> (r: Result<Flow, Stop>)
        requires
            old(self).inv(),
        ensures
            advanced(*old(self), *final(self)),
            (final(self)@, flow_result(r)) == bind_decls(old(self).world(), h, old(self)@, *bs, 0),
        decreases h.depth, eval_level(h.in_defer), bs, 0nat, 0nat,
    {
        proof {
            reveal(bind_decls);
        }
        let ghost start = *self;
        let ghost w = self.world();
        let mut i: usize = 0;
        while i < bs.len()
            invariant
                start == *old(self),
                w == start.world(),
                advanced(start, *self),
                bind_decls(w, h, start@, *bs, 0) == bind_decls(w, h, self@, *bs, i as nat),
            decreases bs.len() - i,
        {
            proof {
                reveal(bind_decls);
            }
            match self.bind_decl(h, &bs[i]) {
                Ok(Flow::Val(_)) => {},
                other => return other,
            }
            i = i + 1;
        }
        Ok(Flow::Val(Value::Unit))
    }

    fn raw_target(&self, h: Here, target: &Expr) -> (r: bool)
        ensures
            r == raw_target(self.world(), h, *target),
    {
        match &target.kind {
            ExprKind::Bracket { callee, .. } => match self.kind_at(h, callee) {
                Some(TyKind::Ptr(_)) => true,
                _ => false,
            },
            _ => false,
        }
    }

    /// Store an evaluated value into a place.
    #[verifier::spinoff_prover]
    pub(crate) fn store(
        &mut self,
        h: Here,
        s: &Slot,
        v: Value,
        op: AssignOp,
        target: &'t Expr,
        value: &'t Expr,
        at: Span,
    ) -> (r: Result<Flow, Stop>)
        requires
            old(self).inv(),
        ensures
            advanced(*old(self), *final(self)),
            (final(self)@, flow_result(r)) == store(
                old(self).world(),
                h,
                old(self)@,
                s@,
                v@,
                op,
                *target,
                *value,
                at,
            ),
    {
        let combined = match op {
            AssignOp::Plain => Ok(v),
            AssignOp::Compound(b) => match self.read_at(s, target.span) {
                Err(x) => Err(x),
                Ok(cur) => {
                    let wrap = self.wrap_at(h, value);
                    let range = self.range_at(h, value);
                    self.arith_binop(b, cur, v, wrap, range, at)
                },
            },
        };
        match combined {
            Err(x) => Err(x),
            Ok(x) => match self.write_place(s, x, target.span) {
                Err(y) => Err(y),
                Ok(_) => Ok(Flow::Val(Value::Unit)),
            },
        }
    }

    /// An assignment.
    #[verifier::spinoff_prover]
    pub(crate) fn eval_assign(&mut self, h: Here, s: &'t Statement) -> (r: Result<Flow, Stop>)
        requires
            old(self).inv(),
        ensures
            advanced(*old(self), *final(self)),
            (final(self)@, flow_result(r)) == eval_assign(old(self).world(), h, old(self)@, *s),
        decreases h.depth, eval_level(h.in_defer), s, 0nat, 1nat,
    {
        proof {
            reveal(eval_assign);
        }
        match s {
            Statement::Assign { span, op, place, value } => {
                let plain = *op == AssignOp::Plain;
                let raw = self.raw_target(h, place);
                match self.eval(h, value) {
                    Ok(Flow::Val(v)) => if raw {
                        self.raw_index_write(h, place, v, *op, *span)
                    } else {
                        self.assign_to(h, s, v)
                    },
                    Ok(Flow::Raise(v, false)) => if plain && !raw {
                        self.assign_to(h, s, v)
                    } else {
                        Ok(Flow::Raise(v, false))
                    },
                    other => other,
                }
            },
            _ => Ok(Flow::Val(Value::Unit)),
        }
    }

    #[verifier::spinoff_prover]
    pub(crate) fn assign_to(
        &mut self,
        h: Here,
        s: &'t Statement,
        v: Value,
    ) -> (r: Result<Flow, Stop>)
        requires
            old(self).inv(),
        ensures
            advanced(*old(self), *final(self)),
            (final(self)@, flow_result(r)) == assign_to(old(self).world(), h, old(self)@, *s, v@),
        decreases h.depth, eval_level(h.in_defer), s, 0nat, 0nat,
    {
        proof {
            reveal(assign_to);
        }
        match s {
            Statement::Assign { span, op, place, value } => match self.place_of(h, place) {
                Err(x) => Err(x),
                Ok(None) => Err(refuse(NO_ASSIGN, place.span)),
                Ok(Some(sl)) => self.store(h, &sl, v, *op, place, value, *span),
            },
            _ => Ok(Flow::Val(Value::Unit)),
        }
    }

    /// One statement.
    #[verifier::spinoff_prover]
    pub(crate) fn eval_stmt(&mut self, h: Here, s: &'t Statement) -> (r: Result<Flow, Stop>)
        requires
            old(self).inv(),
        ensures
            advanced(*old(self), *final(self)),
            (final(self)@, flow_result(r)) == eval_stmt(old(self).world(), h, old(self)@, *s),
        decreases h.depth, eval_level(h.in_defer), s, 1nat, 0nat,
    {
        proof {
            reveal(eval_stmt);
        }
        match s {
            Statement::Expr(e) => self.eval(h, e),
            Statement::Bind(bs) => self.bind_decls(h, bs),
            Statement::Const { name, init } => {
                let valued = match init {
                    Some(x) => self.eval(h, x),
                    None => Ok(Flow::Val(Value::Uninit)),
                };
                match valued {
                    Ok(Flow::Val(v)) => {
                        if let Some(b) = name {
                            let _ = self.declare(b.name.as_str(), v);
                        }
                        Ok(Flow::Val(Value::Unit))
                    },
                    other => other,
                }
            },
            Statement::Assign { .. } => self.eval_assign(h, s),
            Statement::Defer { expr, on_error } => {
                self.oblige(Duty::Defer(expr, *on_error));
                Ok(Flow::Val(Value::Unit))
            },
            Statement::Assume { span, exprs } => match self.read_exprs(h, exprs) {
                Err(x) => Err(x),
                Ok(Several::Leaves(f)) => Ok(f),
                Ok(Several::All(vs)) => self.assume_values(&vs, *span),
            },
            Statement::Fn { span, .. } => Err(refuse(NO_LOCAL_FN, *span)),
            Statement::Item { span } => Err(refuse(NO_LOCAL_ITEM, *span)),
            Statement::Empty => Ok(Flow::Val(Value::Unit)),
        }
    }

    /// Statements in order; a flow that leaves closes the scope.
    #[verifier::spinoff_prover]
    pub(crate) fn eval_stmts(
        &mut self,
        h: Here,
        ss: &'t Vec<Statement>,
        trailing: Option<Span>,
    ) -> (r: Result<Flow, Stop>)
        requires
            old(self).inv(),
        ensures
            advanced(*old(self), *final(self)),
            (final(self)@, flow_result(r)) == eval_stmts(
                old(self).world(),
                h,
                old(self)@,
                *ss,
                0,
                trailing,
                ValueView::Unit,
            ),
        decreases h.depth, eval_level(h.in_defer), ss, 0nat, 0nat,
    {
        proof {
            reveal(eval_stmts);
        }
        let ghost start = *self;
        let ghost w = self.world();
        let mut out = Value::Unit;
        let mut i: usize = 0;
        while i < ss.len()
            invariant
                i <= ss@.len(),
                start == *old(self),
                w == start.world(),
                advanced(start, *self),
                eval_stmts(w, h, start@, *ss, 0, trailing, ValueView::Unit) == eval_stmts(
                    w,
                    h,
                    self@,
                    *ss,
                    i as nat,
                    trailing,
                    out@,
                ),
            decreases ss.len() - i,
        {
            proof {
                reveal(eval_stmts);
            }
            match self.tick() {
                Err(s) => return Err(s),
                Ok(_) => {},
            }
            match self.eval_stmt(h, &ss[i]) {
                Err(s) => return Err(s),
                Ok(Flow::Val(v)) => {
                    if is_trailing(&ss[i], trailing) {
                        out = v;
                    }
                },
                Ok(f) => return self.leave(h, f),
            }
            i = i + 1;
        }
        match self.close_scope(h, false) {
            Err(s) => Err(s),
            Ok(_) => Ok(Flow::Val(out)),
        }
    }

    /// A block in a scope of its own.
    #[verifier::spinoff_prover]
    pub(crate) fn eval_block(
        &mut self,
        h: Here,
        b: &'t Block,
        want_value: bool,
    ) -> (r: Result<Flow, Stop>)
        requires
            old(self).inv(),
        ensures
            advanced(*old(self), *final(self)),
            (final(self)@, flow_result(r)) == eval_block(old(self).world(), h, old(self)@, *b, want_value),
        decreases h.depth, eval_level(h.in_defer), b, 0nat, 0nat,
    {
        proof {
            reveal(eval_block);
        }
        self.push_scope();
        let trailing = if want_value {
            b.trailing
        } else {
            None
        };
        self.eval_stmts(h, &b.stmts, trailing)
    }
}

} // verus!
