//! Operators, run: `?`, `return`, prefixes, binary operators and casts.

use vstd::prelude::*;
use vstd::string::*;
use vstd::utf8::*;

use crate::ast::{BinOp, CastKind, Expr, ExprKind, PrefixOp};
use crate::diag::Span;
use crate::evaluate::{
    NO_CHAR_CAST, NO_INT_CAST, NO_LOGIC, NO_NEGATION, NO_NOT, NO_UNSIZE, char_of, eval_bin,
    eval_cast, eval_prefix, eval_return, eval_try, eval_value_cast, negative_literal,
};
use crate::literal::parse_uint_literal;
use crate::machine::{Machine, RcCell, RcCellView, State, advanced};
use crate::methods::char_val;
use crate::semantics::{Here, NO_LITERAL, eval_level};
use crate::text::{chars_of, str_eq};
use crate::types::{Prim, TyKind};
use crate::value::{
    Flow, FlowView, Stop, Value, ValueView, flow_result, refuse, refused, trap, trapped,
};

verus! {

fn int_to_char(v: Value, at: Span) -> (r: Result<Flow, Stop>)
    ensures
        flow_result(r) == (match v@ {
            ValueView::Int(n) => if 0 <= n <= u32::MAX && is_scalar(n as u32) {
                Ok(FlowView::Val(ValueView::Char(char_of(n as u32))))
            } else {
                Err(trapped("overflow"@, "type.char.cast"@, at))
            },
            _ => Err(refused(NO_INT_CAST@, at)),
        }),
{
    match v {
        Value::Int(n) => {
            if n < 0 || n > 0xffff_ffff {
                return Err(trap("overflow", "type.char.cast", at));
            }
            match char::from_u32(n as u32) {
                Some(c) => {
                    proof {
                        char_u32_cast(c, n as u32);
                    }
                    Ok(Flow::Val(char_val(c)))
                },
                None => Err(trap("overflow", "type.char.cast", at)),
            }
        },
        _ => Err(refuse(NO_INT_CAST, at)),
    }
}

impl<'t> Machine<'t> {
    /// `?` propagates a row error, as a flow or as a bound value.
    #[verifier::spinoff_prover]
    pub(crate) fn eval_try(&mut self, h: Here, e: &'t Expr) -> (r: Result<Flow, Stop>)
        requires
            old(self).inv(),
        ensures
            advanced(*old(self), *final(self)),
            (final(self)@, flow_result(r)) == eval_try(old(self).world(), h, old(self)@, *e),
        decreases h.depth, eval_level(h.in_defer), e, 1nat, 0nat,
    {
        proof {
            reveal(eval_try);
        }
        match &e.kind {
            ExprKind::Try(x) => match self.eval(h, x) {
                Ok(Flow::Raise(v, _)) => Ok(Flow::Raise(v, true)),
                Ok(Flow::Val(v)) => {
                    let raised = match &v {
                        Value::ErrTag { .. } => true,
                        _ => false,
                    };
                    if raised {
                        Ok(Flow::Raise(v, true))
                    } else {
                        Ok(Flow::Val(v))
                    }
                },
                other => other,
            },
            _ => Ok(Flow::Val(Value::Unit)),
        }
    }

    #[verifier::spinoff_prover]
    pub(crate) fn eval_return(&mut self, h: Here, e: &'t Expr) -> (r: Result<Flow, Stop>)
        requires
            old(self).inv(),
        ensures
            advanced(*old(self), *final(self)),
            (final(self)@, flow_result(r)) == eval_return(old(self).world(), h, old(self)@, *e),
        decreases h.depth, eval_level(h.in_defer), e, 1nat, 0nat,
    {
        proof {
            reveal(eval_return);
        }
        match &e.kind {
            ExprKind::Return(Some(x)) => match self.eval(h, x) {
                Ok(Flow::Val(v)) => Ok(Flow::Return(v)),
                Ok(Flow::Raise(v, _)) => Ok(Flow::Raise(v, true)),
                other => other,
            },
            _ => Ok(Flow::Return(Value::Unit)),
        }
    }

    fn negative_literal(&self, h: Here, x: &Expr) -> (r: Option<u64>)
        ensures
            match r {
                Some(n) => negative_literal(self.world(), h, *x) == Some(-(n as int)),
                None => negative_literal(self.world(), h, *x) is None,
            },
    {
        let text = x.text.as_str();
        let float = match self.kind_at(h, x) {
            Some(TyKind::Prim(Prim::F64)) => true,
            Some(TyKind::Prim(Prim::F32)) => true,
            _ => false,
        };
        let literal = match &x.kind {
            ExprKind::Literal { .. } => true,
            _ => false,
        };
        let cs = chars_of(text);
        let quoted = cs.len() > 0 && cs[0] == '\'';
        if literal && !float && self.wrap_at(h, x).is_none() && !quoted && !str_eq(text, "true")
            && !str_eq(text, "false") {
            parse_uint_literal(text)
        } else {
            None
        }
    }

    fn new_cell(&mut self, v: Value) -> (r: usize)
        requires
            old(self).inv(),
        ensures
            advanced(*old(self), *final(self)),
            final(self)@ == (State {
                cells: old(self)@.cells.push(RcCellView { strong: 1, weak: 0, value: v@ }),
                ..old(self)@
            }),
            r == old(self)@.cells.len(),
    {
        let ghost was = self@;
        let ghost vv = v@;
        let n: usize = self.cells.len();
        self.cells.push(RcCell { strong: 1, weak: 0, value: v });
        proof {
            let cells = was.cells.push(RcCellView { strong: 1, weak: 0, value: vv });
            assert(self@.cells =~= cells);
            assert(self@ =~= State { cells, ..was });
            reveal(Machine::inv);
        }
        n
    }

    #[verifier::spinoff_prover]
    pub(crate) fn eval_prefix(&mut self, h: Here, e: &'t Expr) -> (r: Result<Flow, Stop>)
        requires
            old(self).inv(),
        ensures
            advanced(*old(self), *final(self)),
            (final(self)@, flow_result(r)) == eval_prefix(old(self).world(), h, old(self)@, *e),
        decreases h.depth, eval_level(h.in_defer), e, 1nat, 0nat,
    {
        proof {
            reveal(eval_prefix);
        }
        match &e.kind {
            ExprKind::Prefix(op, x) => match op {
                PrefixOp::Copy => match self.read_or_eval(h, x) {
                    Ok(Flow::Val(v)) => {
                        let fuel: u128 = (self.lists.len() as u128) + 1;
                        match self.deep_copy(&v, fuel) {
                            Ok(c) => Ok(Flow::Val(c)),
                            Err(s) => Err(s),
                        }
                    },
                    other => other,
                },
                PrefixOp::Move => self.take_or_eval(h, x),
                PrefixOp::Shared => match self.eval(h, x) {
                    Ok(Flow::Val(v)) => {
                        let c = self.new_cell(v);
                        Ok(Flow::Val(Value::Shared(c)))
                    },
                    other => other,
                },
                PrefixOp::Minus => self.eval_negated(h, e),
                PrefixOp::Not => match self.eval(h, x) {
                    Ok(Flow::Val(v)) => match v {
                        Value::Bool(b) => Ok(Flow::Val(Value::Bool(!b))),
                        _ => Err(refuse(NO_NOT, e.span)),
                    },
                    other => other,
                },
                _ => self.eval(h, x),
            },
            _ => Ok(Flow::Val(Value::Unit)),
        }
    }

    /// A negation.
    #[verifier::spinoff_prover]
    pub(crate) fn eval_negated(&mut self, h: Here, e: &'t Expr) -> (r: Result<Flow, Stop>)
        requires
            old(self).inv(),
            e.kind matches ExprKind::Prefix(PrefixOp::Minus, _),
        ensures
            advanced(*old(self), *final(self)),
            (final(self)@, flow_result(r)) == eval_prefix(old(self).world(), h, old(self)@, *e),
        decreases h.depth, eval_level(h.in_defer), e, 0nat, 0nat,
    {
        proof {
            reveal(eval_prefix);
        }
        match &e.kind {
            ExprKind::Prefix(PrefixOp::Minus, x) => match self.negative_literal(h, x) {
                Some(n) => if n <= 0x8000_0000_0000_0000 {
                    let v: i128 = -(n as i128);
                    Ok(Flow::Val(Value::Int(v as i64)))
                } else {
                    Err(refuse(NO_LITERAL, e.span))
                },
                None => match self.eval(h, x) {
                    Ok(Flow::Val(v)) => match v {
                        Value::Int(n) => if n == i64::MIN {
                            Err(trap("overflow", "mem.ub.defined", e.span))
                        } else {
                            Ok(Flow::Val(Value::Int(-n)))
                        },
                        Value::F64(b) => Ok(Flow::Val(Value::F64(b ^ 0x8000_0000_0000_0000))),
                        _ => Err(refuse(NO_NEGATION, e.span)),
                    },
                    other => other,
                },
            },
            _ => Ok(Flow::Val(Value::Unit)),
        }
    }

    #[verifier::spinoff_prover]
    pub(crate) fn eval_bin(&mut self, h: Here, e: &'t Expr) -> (r: Result<Flow, Stop>)
        requires
            old(self).inv(),
        ensures
            advanced(*old(self), *final(self)),
            (final(self)@, flow_result(r)) == eval_bin(old(self).world(), h, old(self)@, *e),
        decreases h.depth, eval_level(h.in_defer), e, 1nat, 0nat,
    {
        proof {
            reveal(eval_bin);
        }
        match &e.kind {
            ExprKind::Bin(op, l, r) => match self.eval(h, l) {
                Ok(Flow::Val(a)) => {
                    let or = *op == BinOp::OrOr;
                    if or || *op == BinOp::AndAnd {
                        match a {
                            Value::Bool(b) => if b == or {
                                Ok(Flow::Val(Value::Bool(b)))
                            } else {
                                self.eval(h, r)
                            },
                            _ => Err(refuse(NO_LOGIC, e.span)),
                        }
                    } else {
                        match self.eval(h, r) {
                            Ok(Flow::Val(b)) => self.bin_values(h, e, *op, a, b),
                            other => other,
                        }
                    }
                },
                other => other,
            },
            _ => Ok(Flow::Val(Value::Unit)),
        }
    }

    #[verifier::spinoff_prover]
    pub(crate) fn eval_cast(&mut self, h: Here, e: &'t Expr) -> (r: Result<Flow, Stop>)
        requires
            old(self).inv(),
        ensures
            advanced(*old(self), *final(self)),
            (final(self)@, flow_result(r)) == eval_cast(old(self).world(), h, old(self)@, *e),
        decreases h.depth, eval_level(h.in_defer), e, 1nat, 0nat,
    {
        proof {
            reveal(eval_cast);
        }
        match &e.kind {
            ExprKind::Cast(x, info) => match info {
                Some(c) => match c.kind {
                    CastKind::Raw => match self.read_or_eval(h, x) {
                        Ok(Flow::Val(v)) => {
                            let from = self.table_kind(h, c.from);
                            let to = self.table_kind(h, c.to);
                            self.bridge(from, to, &v, e.span)
                        },
                        other => other,
                    },
                    CastKind::CharToInt => match self.eval(h, x) {
                        Ok(Flow::Val(v)) => match v {
                            Value::Char(ch) => Ok(Flow::Val(Value::Int((ch as u32) as i64))),
                            _ => Err(refuse(NO_CHAR_CAST, e.span)),
                        },
                        other => other,
                    },
                    CastKind::IntToChar => match self.eval(h, x) {
                        Ok(Flow::Val(v)) => int_to_char(v, e.span),
                        other => other,
                    },
                    CastKind::Unsize => match self.read_or_eval(h, x) {
                        Ok(Flow::Val(v)) => match self.kind_at(h, x) {
                            Some(TyKind::Nominal { name, .. }) => Ok(
                                Flow::Val(Value::Dyn { concrete: name.clone(), inner: Box::new(v) }),
                            ),
                            _ => Err(refuse(NO_UNSIZE, e.span)),
                        },
                        other => other,
                    },
                    CastKind::Value => self.eval_value_cast(h, e),
                },
                None => self.eval_value_cast(h, e),
            },
            _ => Ok(Flow::Val(Value::Unit)),
        }
    }

    #[verifier::spinoff_prover]
    pub(crate) fn eval_value_cast(&mut self, h: Here, e: &'t Expr) -> (r: Result<Flow, Stop>)
        requires
            old(self).inv(),
        ensures
            advanced(*old(self), *final(self)),
            (final(self)@, flow_result(r)) == eval_value_cast(old(self).world(), h, old(self)@, *e),
        decreases h.depth, eval_level(h.in_defer), e, 0nat, 0nat,
    {
        proof {
            reveal(eval_value_cast);
        }
        match &e.kind {
            ExprKind::Cast(x, _) => match self.eval(h, x) {
                Ok(Flow::Val(v)) => match v {
                    Value::Int(n) => match self.cast_int(h, e, x, n) {
                        Ok(r) => Ok(Flow::Val(r)),
                        Err(s) => Err(s),
                    },
                    v => Ok(Flow::Val(v)),
                },
                other => other,
            },
            _ => Ok(Flow::Val(Value::Unit)),
        }
    }
}

} // verus!
