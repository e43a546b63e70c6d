//! Control flow, run: branches, matches, loops and handlers.

use vstd::prelude::*;
use vstd::string::*;
use vstd::utf8::*;

use crate::ast::{Arm, Expr, ExprKind};
use crate::evaluate::{
    Items, NO_CONDITION, NO_ITERATION, eval_arm_body, eval_arms, eval_else, eval_for, eval_handler,
    eval_if, eval_loop, eval_match, eval_while, for_items, laps, loop_laps, while_laps,
};
use crate::machine::{Machine, advanced};
use crate::runbase::{Hit, opt_texts, pattern_hits};
use crate::semantics::{Here, eval_level};
use crate::value::{Flow, Stop, Value, flow_result, refuse, vals};

verus! {

/// What a `for` walks.
pub enum Walked {
    Range(i64, i64),
    List(Vec<Value>),
}

impl View for Walked {
    type V = Items;

    open spec fn view(&self) -> Items {
        match *self {
            Walked::Range(a, b) => Items::Range(a, b),
            Walked::List(v) => Items::List(vals(v@)),
        }
    }
}

impl Walked {
    fn count(&self) -> (r: u64)
        ensures
            r == self@.count(),
    {
        match self {
            Walked::Range(a, b) => if *a < *b {
                let d: i128 = (*b as i128) - (*a as i128);
                d as u64
            } else {
                0
            },
            Walked::List(v) => v.len() as u64,
        }
    }

    fn item(&self, i: u64) -> (r: Value)
        requires
            i < self@.count(),
        ensures
            r@ == self@.item(i as int),
    {
        match self {
            Walked::Range(a, _) => {
                let n: i128 = (*a as i128) + (i as i128);
                Value::Int(n as i64)
            },
            Walked::List(v) => {
                let len: usize = v.len();
                assert(vals(v@)[i as int] == v@[i as int]@);
                v[i as usize].duplicate()
            },
        }
    }
}

impl<'t> Machine<'t> {
    #[verifier::spinoff_prover]
    pub(crate) fn eval_if(&mut self, h: Here, e: &'t Expr) -> (r: Result<Flow, Stop>)
        requires
            old(self).inv(),
        ensures
            advanced(*old(self), *final(self)),
            (final(self)@, flow_result(r)) == eval_if(old(self).world(), h, old(self)@, *e),
        decreases h.depth, eval_level(h.in_defer), e, 1nat, 0nat,
    {
        proof {
            reveal(eval_if);
        }
        match &e.kind {
            ExprKind::If { cond, then_block, els } => match self.eval(h, cond) {
                Ok(Flow::Val(v)) => match v {
                    Value::Bool(true) => self.eval_block(h, then_block, true),
                    Value::Bool(false) => match els {
                        Some(x) => match &x.kind {
                            ExprKind::Block(b) => self.eval_block(h, b, true),
                            _ => self.eval(h, x),
                        },
                        None => Ok(Flow::Val(Value::Unit)),
                    },
                    _ => Err(refuse(NO_CONDITION, e.span)),
                },
                other => other,
            },
            _ => Ok(Flow::Val(Value::Unit)),
        }
    }

    /// The arms in order against the scrutinee's value.
    #[verifier::spinoff_prover]
    pub(crate) fn eval_arms(
        &mut self,
        h: Here,
        arms: &'t Vec<Arm>,
        v: &Value,
        domain: &Option<Vec<String>>,
    ) -> (r: Result<Flow, Stop>)
        requires
            old(self).inv(),
        ensures
            advanced(*old(self), *final(self)),
            (final(self)@, flow_result(r)) == eval_arms(
                old(self).world(),
                h,
                old(self)@,
                *arms,
                0,
                v@,
                opt_texts(*domain),
            ),
        decreases h.depth, eval_level(h.in_defer), arms, 0nat, 0nat,
    {
        proof {
            reveal(eval_arms);
        }
        let ghost start = *self;
        let ghost w = self.world();
        let ghost d = opt_texts(*domain);
        let mut i: usize = 0;
        while i < arms.len()
            invariant
                start == *old(self),
                w == start.world(),
                d == opt_texts(*domain),
                advanced(start, *self),
                eval_arms(w, h, start@, *arms, 0, v@, d) == eval_arms(
                    w,
                    h,
                    self@,
                    *arms,
                    i as nat,
                    v@,
                    d,
                ),
            decreases arms.len() - i,
        {
            proof {
                reveal(eval_arms);
            }
            let arm = &arms[i];
            if let Some(p) = &arm.pattern {
                let hit = pattern_hits(p, v, domain);
                let taken = match &hit {
                    Hit::No => false,
                    _ => true,
                };
                if taken {
                    match hit {
                        Hit::Refused(s) => return Err(s),
                        Hit::Binds(name) => {
                            self.push_scope();
                            let _ = self.declare(name.as_str(), v.duplicate());
                        },
                        _ => self.push_scope(),
                    }
                    match &arm.guard {
                        None => return self.eval_arm_body(h, arm),
                        Some(g) => match self.eval(h, g) {
                            Err(s) => return Err(s),
                            Ok(Flow::Val(Value::Bool(true))) => return self.eval_arm_body(h, arm),
                            Ok(Flow::Val(_)) => match self.close_scope(h, false) {
                                Err(s) => return Err(s),
                                Ok(_) => {},
                            },
                            Ok(f) => match self.close_scope(h, false) {
                                Err(s) => return Err(s),
                                Ok(_) => return Ok(f),
                            },
                        },
                    }
                }
            }
            i = i + 1;
        }
        Ok(Flow::Val(Value::Unit))
    }

    #[verifier::spinoff_prover]
    pub(crate) fn eval_arm_body(&mut self, h: Here, arm: &'t Arm) -> (r: Result<Flow, Stop>)
        requires
            old(self).inv(),
        ensures
            advanced(*old(self), *final(self)),
            (final(self)@, flow_result(r)) == eval_arm_body(old(self).world(), h, old(self)@, *arm),
        decreases h.depth, eval_level(h.in_defer), arm, 0nat, 0nat,
    {
        proof {
            reveal(eval_arm_body);
        }
        let out = match &arm.body {
            Some(x) => self.eval(h, x),
            None => Ok(Flow::Val(Value::Unit)),
        };
        match out {
            Err(s) => Err(s),
            Ok(f) => self.leave(h, f),
        }
    }

    #[verifier::spinoff_prover]
    pub(crate) fn eval_match(&mut self, h: Here, e: &'t Expr) -> (r: Result<Flow, Stop>)
        requires
            old(self).inv(),
        ensures
            advanced(*old(self), *final(self)),
            (final(self)@, flow_result(r)) == eval_match(old(self).world(), h, old(self)@, *e),
        decreases h.depth, eval_level(h.in_defer), e, 1nat, 0nat,
    {
        proof {
            reveal(eval_match);
        }
        match &e.kind {
            ExprKind::Match { scrutinee, arms } => match self.eval(h, scrutinee) {
                Ok(Flow::Val(v)) => {
                    let domain = self.match_domain_names(h, scrutinee);
                    self.eval_arms(h, arms, &v, &domain)
                },
                other => other,
            },
            _ => Ok(Flow::Val(Value::Unit)),
        }
    }

    #[verifier::spinoff_prover]
    pub(crate) fn eval_while(&mut self, h: Here, e: &'t Expr) -> (r: Result<Flow, Stop>)
        requires
            old(self).inv(),
        ensures
            advanced(*old(self), *final(self)),
            (final(self)@, flow_result(r)) == eval_while(old(self).world(), h, old(self)@, *e),
        decreases h.depth, eval_level(h.in_defer), e, 1nat, 0nat,
    {
        proof {
            reveal(eval_while);
        }
        match &e.kind {
            ExprKind::While { cond, body } => {
                let ghost start = *self;
                let ghost w = self.world();
                let ghost mut n: nat = laps(self@);
                loop
                    invariant
                        e.kind == (ExprKind::While { cond: *cond, body: *body }),
                        start == *old(self),
                        w == start.world(),
                        advanced(start, *self),
                        n >= 1,
                        n >= self@.step_limit - self@.steps + 1,
                        while_laps(w, h, start@, *e, laps(start@)) == while_laps(w, h, self@, *e, n),
                    decreases n,
                {
                    proof {
                        reveal(eval_while);
                    }
                    match self.tick() {
                        Err(s) => return Err(s),
                        Ok(_) => {},
                    }
                    match self.eval(h, cond) {
                        Ok(Flow::Val(Value::Bool(true))) => match self.eval_block(h, body, false) {
                            Ok(Flow::Break) => return Ok(Flow::Val(Value::Unit)),
                            Ok(Flow::Continue) => {},
                            Ok(Flow::Val(_)) => {},
                            other => return other,
                        },
                        Ok(Flow::Val(Value::Bool(false))) => return Ok(Flow::Val(Value::Unit)),
                        Ok(Flow::Val(_)) => return Err(refuse(NO_CONDITION, e.span)),
                        other => return other,
                    }
                    proof {
                        n = (n - 1) as nat;
                    }
                }
            },
            _ => Ok(Flow::Val(Value::Unit)),
        }
    }

    #[verifier::spinoff_prover]
    pub(crate) fn eval_loop(&mut self, h: Here, e: &'t Expr) -> (r: Result<Flow, Stop>)
        requires
            old(self).inv(),
        ensures
            advanced(*old(self), *final(self)),
            (final(self)@, flow_result(r)) == eval_loop(old(self).world(), h, old(self)@, *e),
        decreases h.depth, eval_level(h.in_defer), e, 1nat, 0nat,
    {
        proof {
            reveal(eval_loop);
        }
        match &e.kind {
            ExprKind::Loop(body) => {
                let ghost start = *self;
                let ghost w = self.world();
                let ghost mut n: nat = laps(self@);
                loop
                    invariant
                        e.kind == ExprKind::Loop(*body),
                        start == *old(self),
                        w == start.world(),
                        advanced(start, *self),
                        n >= 1,
                        n >= self@.step_limit - self@.steps + 1,
                        loop_laps(w, h, start@, *e, laps(start@)) == loop_laps(w, h, self@, *e, n),
                    decreases n,
                {
                    proof {
                        reveal(eval_loop);
                    }
                    match self.tick() {
                        Err(s) => return Err(s),
                        Ok(_) => {},
                    }
                    match self.eval_block(h, body, false) {
                        Ok(Flow::Break) => return Ok(Flow::Val(Value::Unit)),
                        Ok(Flow::Continue) => {},
                        Ok(Flow::Val(_)) => {},
                        other => return other,
                    }
                    proof {
                        n = (n - 1) as nat;
                    }
                }
            },
            _ => Ok(Flow::Val(Value::Unit)),
        }
    }

    /// The items of a `for` in order.
    #[verifier::spinoff_prover]
    pub(crate) fn for_items(
        &mut self,
        h: Here,
        e: &'t Expr,
        items: &Walked,
    ) -> (r: Result<Flow, Stop>)
        requires
            old(self).inv(),
        ensures
            advanced(*old(self), *final(self)),
            (final(self)@, flow_result(r)) == for_items(old(self).world(), h, old(self)@, *e, items@, 0),
        decreases h.depth, eval_level(h.in_defer), e, 0nat, 0nat,
    {
        proof {
            reveal(for_items);
        }
        match &e.kind {
            ExprKind::For { pattern, body, .. } => {
                let ghost start = *self;
                let ghost w = self.world();
                let count: u64 = items.count();
                let mut i: u64 = 0;
                while i < count
                    invariant
                        e.kind matches ExprKind::For { pattern: p0, body: b0, .. } && p0 == *pattern
                            && b0 == *body,
                        count == items@.count(),
                        start == *old(self),
                        w == start.world(),
                        advanced(start, *self),
                        for_items(w, h, start@, *e, items@, 0) == for_items(
                            w,
                            h,
                            self@,
                            *e,
                            items@,
                            i as nat,
                        ),
                    decreases count - i,
                {
                    proof {
                        reveal(for_items);
                    }
                    match self.tick() {
                        Err(s) => return Err(s),
                        Ok(_) => {},
                    }
                    self.push_scope();
                    if let Some(p) = pattern {
                        let v = items.item(i);
                        match self.bind_pattern(p, v) {
                            Err(s) => return Err(s),
                            Ok(_) => {},
                        }
                    }
                    match self.eval_block(h, body, false) {
                        Err(s) => return Err(s),
                        Ok(Flow::Break) => match self.close_scope(h, false) {
                            Err(s) => return Err(s),
                            Ok(_) => return Ok(Flow::Val(Value::Unit)),
                        },
                        Ok(Flow::Continue) => match self.close_scope(h, false) {
                            Err(s) => return Err(s),
                            Ok(_) => {},
                        },
                        Ok(Flow::Val(_)) => match self.close_scope(h, false) {
                            Err(s) => return Err(s),
                            Ok(_) => {},
                        },
                        Ok(f) => return self.leave(h, f),
                    }
                    i = i + 1;
                }
                Ok(Flow::Val(Value::Unit))
            },
            _ => Ok(Flow::Val(Value::Unit)),
        }
    }

    #[verifier::spinoff_prover]
    pub(crate) fn eval_for(&mut self, h: Here, e: &'t Expr) -> (r: Result<Flow, Stop>)
        requires
            old(self).inv(),
        ensures
            advanced(*old(self), *final(self)),
            (final(self)@, flow_result(r)) == eval_for(old(self).world(), h, old(self)@, *e),
        decreases h.depth, eval_level(h.in_defer), e, 1nat, 0nat,
    {
        proof {
            reveal(eval_for);
        }
        match &e.kind {
            ExprKind::For { iterable, .. } => match self.read_or_eval(h, iterable) {
                Ok(Flow::Val(v)) => match v {
                    Value::Range { start, end } => self.for_items(h, e, &Walked::Range(start, end)),
                    Value::List(id) => {
                        if id >= self.lists.len() {
                            return Err(refuse(NO_ITERATION, e.span));
                        }
                        let items = Value::duplicate_all(&self.lists[id]);
                        assert(self@.lists[id as int] == vals(items@));
                        self.for_items(h, e, &Walked::List(items))
                    },
                    _ => Err(refuse(NO_ITERATION, e.span)),
                },
                other => other,
            },
            _ => Ok(Flow::Val(Value::Unit)),
        }
    }

    /// `else` catches a row error, as a flow or as a bound value.
    #[verifier::spinoff_prover]
    pub(crate) fn eval_else(&mut self, h: Here, e: &'t Expr) -> (r: Result<Flow, Stop>)
        requires
            old(self).inv(),
        ensures
            advanced(*old(self), *final(self)),
            (final(self)@, flow_result(r)) == eval_else(old(self).world(), h, old(self)@, *e),
        decreases h.depth, eval_level(h.in_defer), e, 1nat, 0nat,
    {
        proof {
            reveal(eval_else);
        }
        match &e.kind {
            ExprKind::Else { scrutinized, .. } => match self.eval(h, scrutinized) {
                Ok(Flow::Raise(v, _)) => self.eval_handler(h, e, v),
                Ok(Flow::Val(v)) => {
                    let raised = match &v {
                        Value::ErrTag { .. } => true,
                        _ => false,
                    };
                    if raised {
                        self.eval_handler(h, e, v)
                    } else {
                        Ok(Flow::Val(v))
                    }
                },
                other => other,
            },
            _ => Ok(Flow::Val(Value::Unit)),
        }
    }

    #[verifier::spinoff_prover]
    pub(crate) fn eval_handler(
        &mut self,
        h: Here,
        e: &'t Expr,
        err: Value,
    ) -> (r: Result<Flow, Stop>)
        requires
            old(self).inv(),
        ensures
            advanced(*old(self), *final(self)),
            (final(self)@, flow_result(r)) == eval_handler(old(self).world(), h, old(self)@, *e, err@),
        decreases h.depth, eval_level(h.in_defer), e, 0nat, 0nat,
    {
        proof {
            reveal(eval_handler);
        }
        match &e.kind {
            ExprKind::Else { handler, fallback, .. } => {
                self.push_scope();
                if let Some(p) = handler {
                    match self.bind_handler(p, err) {
                        Err(s) => return Err(s),
                        Ok(_) => {},
                    }
                }
                let out = match fallback {
                    Some(x) => self.eval(h, x),
                    None => Ok(Flow::Val(Value::Unit)),
                };
                match out {
                    Err(s) => Err(s),
                    Ok(f) => self.leave(h, f),
                }
            },
            _ => Ok(Flow::Val(Value::Unit)),
        }
    }
}

} // verus!
