//! Operands: places, lists of expressions and call arguments, run.

use vstd::prelude::*;
use vstd::string::*;
use vstd::utf8::*;

use crate::ast::{Arg, Expr, ExprKind, FieldInit, PrefixOp};
use crate::cfg::ParamMode;
use crate::diag::Span;
use crate::evaluate::{
    ARG_FLOW, MUT_OF_OTHER, arg_value, eval_arg, eval_args, eval_exprs, eval_fields, eval_some,
    mode_of, moded_args, place_of, push_args, read_args, read_exprs, read_or_eval, take_or_eval,
};
use crate::machine::{Machine, advanced, opt_slot};
use crate::runbase::{is_simple_name, shifted_index};
use crate::runheap::vals_result;
use crate::semantics::{Here, Many, eval_level, nth, shift_origin};
use crate::shadow::TagState;
use crate::types::{CallSig, TyKind};
use crate::value::{
    Flow, PStep, PStepView, Slot, SlotView, Stop, StopView, Value, ValueView, flow_result, refuse,
    vals, value_result,
};

verus! {

/// Several values in order, or the flow that ended them.
pub enum Several {
    All(Vec<Value>),
    Leaves(Flow),
}

impl View for Several {
    type V = Many;

    open spec fn view(&self) -> Many {
        match *self {
            Several::All(v) => Many::All(vals(v@)),
            Several::Leaves(f) => Many::Leaves(f@),
        }
    }
}

pub open spec fn many_result(r: Result<Several, Stop>) -> Result<Many, StopView> {
    match r {
        Ok(s) => Ok(s@),
        Err(x) => Err(x@),
    }
}

pub open spec fn slot_result(r: Result<Option<Slot>, Stop>) -> Result<Option<SlotView>, StopView> {
    match r {
        Ok(s) => Ok(opt_slot(s)),
        Err(x) => Err(x@),
    }
}

/// The last of several values.
fn last_value(vs: &Vec<Value>) -> (r: Value)
    ensures
        r@ == nth(vals(vs@), vals(vs@).len() - 1),
{
    let n: usize = vs.len();
    if n == 0 {
        Value::Uninit
    } else {
        assert(vals(vs@)[n - 1] == vs@[n - 1]@);
        vs[n - 1].duplicate()
    }
}

pub fn mode_at(sig: &CallSig, i: usize) -> (r: Option<ParamMode>)
    ensures
        r == mode_of(*sig, i as nat),
{
    if i < sig.params.len() {
        sig.params[i].mode
    } else {
        None
    }
}

impl<'t> Machine<'t> {
    /// The place an expression names, its indices evaluated.
    #[verifier::spinoff_prover]
    pub(crate) fn place_of(&mut self, h: Here, e: &'t Expr) -> (r: Result<Option<Slot>, Stop>)
        requires
            old(self).inv(),
        ensures
            advanced(*old(self), *final(self)),
            (final(self)@, slot_result(r)) == place_of(old(self).world(), h, old(self)@, *e),
        decreases h.depth, eval_level(h.in_defer), e, 0nat, 0nat,
    {
        proof {
            reveal(place_of);
        }
        match &e.kind {
            ExprKind::Path(name) => if is_simple_name(name.as_str()) {
                Ok(self.lookup(name.as_str()))
            } else {
                Ok(None)
            },
            ExprKind::Paren(inner, _) => self.place_of(h, inner),
            ExprKind::Member(base, member) => {
                let found = match &base.kind {
                    ExprKind::Paren(inner, Some(_)) => self.place_of(h, inner),
                    _ => self.place_of(h, base),
                };
                match found {
                    Ok(Some(mut s)) => {
                        s.step(PStep::Field(member.clone()));
                        Ok(Some(s))
                    },
                    other => other,
                }
            },
            ExprKind::Bracket { callee, args, one_origin } => {
                if let Some(TyKind::Ptr(_)) = self.kind_at(h, callee) {
                    return Ok(None);
                }
                match self.place_of(h, callee) {
                    Ok(Some(s)) => self.index_place(h, s, args, *one_origin, e.span),
                    other => other,
                }
            },
            _ => Ok(None),
        }
    }

    #[verifier::spinoff_prover]
    pub(crate) fn index_place(
        &mut self,
        h: Here,
        s: Slot,
        args: &'t Vec<Expr>,
        one: bool,
        at: Span,
    ) -> (r: Result<Option<Slot>, Stop>)
        requires
            old(self).inv(),
        ensures
            advanced(*old(self), *final(self)),
            (final(self)@, slot_result(r)) == (match eval_exprs(
                old(self).world(),
                h,
                old(self)@,
                *args,
                0,
                Seq::empty(),
            ) {
                (m2, Err(x)) => (m2, Err(x)),
                (m2, Ok(Many::Leaves(_))) => (m2, Ok(None)),
                (m2, Ok(Many::All(vs))) => match nth(vs, vs.len() - 1) {
                    ValueView::Int(i) => match shift_origin(i, one, at) {
                        Ok(k) => (
                            m2,
                            Ok(Some(s@.step(PStepView::ListIdx { index: k, span: at }))),
                        ),
                        Err(x) => (m2, Err(x)),
                    },
                    ValueView::Handle { index, generation } => (
                        m2,
                        Ok(Some(s@.step(PStepView::PoolIdx { index, generation, span: at }))),
                    ),
                    _ => (m2, Ok(None)),
                },
            }),
        decreases h.depth, eval_level(h.in_defer), args, 1nat, 0nat,
    {
        let mut s = s;
        match self.eval_exprs(h, args) {
            Err(x) => Err(x),
            Ok(Several::Leaves(_)) => Ok(None),
            Ok(Several::All(vs)) => match last_value(&vs) {
                Value::Int(i) => match shifted_index(i, one, at) {
                    Ok(k) => {
                        s.step(PStep::ListIdx { index: k, span: at });
                        Ok(Some(s))
                    },
                    Err(x) => Err(x),
                },
                Value::Handle { index, generation } => {
                    s.step(PStep::PoolIdx { index, generation, span: at });
                    Ok(Some(s))
                },
                _ => Ok(None),
            },
        }
    }

    /// Evaluate expressions in order.
    #[verifier::spinoff_prover]
    pub(crate) fn eval_exprs(&mut self, h: Here, es: &'t Vec<Expr>) -> (r: Result<Several, Stop>)
        requires
            old(self).inv(),
        ensures
            advanced(*old(self), *final(self)),
            (final(self)@, many_result(r)) == eval_exprs(
                old(self).world(),
                h,
                old(self)@,
                *es,
                0,
                Seq::empty(),
            ),
        decreases h.depth, eval_level(h.in_defer), es, 0nat, 0nat,
    {
        proof {
            reveal(eval_exprs);
        }
        let ghost start = *self;
        let ghost w = self.world();
        let mut out: Vec<Value> = Vec::new();
        let mut i: usize = 0;
        assert(vals(out@) =~= Seq::empty());
        while i < es.len()
            invariant
                start == *old(self),
                w == start.world(),
                advanced(start, *self),
                eval_exprs(w, h, start@, *es, 0, Seq::empty()) == eval_exprs(
                    w,
                    h,
                    self@,
                    *es,
                    i as nat,
                    vals(out@),
                ),
            decreases es.len() - i,
        {
            proof {
                reveal(eval_exprs);
            }
            match self.eval(h, &es[i]) {
                Err(s) => return Err(s),
                Ok(Flow::Val(v)) => {
                    let ghost before = vals(out@);
                    out.push(v);
                    assert(vals(out@) =~= before.push(v@));
                },
                Ok(f) => return Ok(Several::Leaves(f)),
            }
            i = i + 1;
        }
        Ok(Several::All(out))
    }

    /// Read operands in order.
    #[verifier::spinoff_prover]
    pub(crate) fn read_exprs(&mut self, h: Here, es: &'t Vec<Expr>) -> (r: Result<Several, Stop>)
        requires
            old(self).inv(),
        ensures
            advanced(*old(self), *final(self)),
            (final(self)@, many_result(r)) == read_exprs(
                old(self).world(),
                h,
                old(self)@,
                *es,
                0,
                Seq::empty(),
            ),
        decreases h.depth, eval_level(h.in_defer), es, 0nat, 0nat,
    {
        proof {
            reveal(read_exprs);
        }
        let ghost start = *self;
        let ghost w = self.world();
        let mut out: Vec<Value> = Vec::new();
        let mut i: usize = 0;
        assert(vals(out@) =~= Seq::empty());
        while i < es.len()
            invariant
                start == *old(self),
                w == start.world(),
                advanced(start, *self),
                read_exprs(w, h, start@, *es, 0, Seq::empty()) == read_exprs(
                    w,
                    h,
                    self@,
                    *es,
                    i as nat,
                    vals(out@),
                ),
            decreases es.len() - i,
        {
            proof {
                reveal(read_exprs);
            }
            match self.read_or_eval(h, &es[i]) {
                Err(s) => return Err(s),
                Ok(Flow::Val(v)) => {
                    let ghost before = vals(out@);
                    out.push(v);
                    assert(vals(out@) =~= before.push(v@));
                },
                Ok(f) => return Ok(Several::Leaves(f)),
            }
            i = i + 1;
        }
        Ok(Several::All(out))
    }

    /// Evaluate call arguments in order.
    #[verifier::spinoff_prover]
    pub(crate) fn eval_args(
        &mut self,
        h: Here,
        args: &'t Vec<Arg>,
        from: usize,
    ) -> (r: Result<Several, Stop>)
        requires
            old(self).inv(),
        ensures
            advanced(*old(self), *final(self)),
            (final(self)@, many_result(r)) == eval_args(
                old(self).world(),
                h,
                old(self)@,
                *args,
                from as nat,
                Seq::empty(),
            ),
        decreases h.depth, eval_level(h.in_defer), args, 0nat, 0nat,
    {
        proof {
            reveal(eval_args);
        }
        let ghost start = *self;
        let ghost w = self.world();
        let mut out: Vec<Value> = Vec::new();
        let mut i: usize = from;
        assert(vals(out@) =~= Seq::empty());
        while i < args.len()
            invariant
                start == *old(self),
                w == start.world(),
                advanced(start, *self),
                eval_args(w, h, start@, *args, from as nat, Seq::empty()) == eval_args(
                    w,
                    h,
                    self@,
                    *args,
                    i as nat,
                    vals(out@),
                ),
            decreases args.len() - i,
        {
            proof {
                reveal(eval_args);
            }
            match self.eval(h, &args[i].value) {
                Err(s) => return Err(s),
                Ok(Flow::Val(v)) => {
                    let ghost before = vals(out@);
                    out.push(v);
                    assert(vals(out@) =~= before.push(v@));
                },
                Ok(f) => return Ok(Several::Leaves(f)),
            }
            i = i + 1;
        }
        Ok(Several::All(out))
    }

    /// Read call arguments in order.
    #[verifier::spinoff_prover]
    pub(crate) fn read_args(&mut self, h: Here, args: &'t Vec<Arg>) -> (r: Result<Several, Stop>)
        requires
            old(self).inv(),
        ensures
            advanced(*old(self), *final(self)),
            (final(self)@, many_result(r)) == read_args(
                old(self).world(),
                h,
                old(self)@,
                *args,
                0,
                Seq::empty(),
            ),
        decreases h.depth, eval_level(h.in_defer), args, 0nat, 0nat,
    {
        proof {
            reveal(read_args);
        }
        let ghost start = *self;
        let ghost w = self.world();
        let mut out: Vec<Value> = Vec::new();
        let mut i: usize = 0;
        assert(vals(out@) =~= Seq::empty());
        while i < args.len()
            invariant
                start == *old(self),
                w == start.world(),
                advanced(start, *self),
                read_args(w, h, start@, *args, 0, Seq::empty()) == read_args(
                    w,
                    h,
                    self@,
                    *args,
                    i as nat,
                    vals(out@),
                ),
            decreases args.len() - i,
        {
            proof {
                reveal(read_args);
            }
            match self.read_or_eval(h, &args[i].value) {
                Err(s) => return Err(s),
                Ok(Flow::Val(v)) => {
                    let ghost before = vals(out@);
                    out.push(v);
                    assert(vals(out@) =~= before.push(v@));
                },
                Ok(f) => return Ok(Several::Leaves(f)),
            }
            i = i + 1;
        }
        Ok(Several::All(out))
    }

    /// The first arguments, up to `n`.
    #[verifier::spinoff_prover]
    pub(crate) fn eval_some(
        &mut self,
        h: Here,
        args: &'t Vec<Arg>,
        n: usize,
    ) -> (r: Result<Several, Stop>)
        requires
            old(self).inv(),
        ensures
            advanced(*old(self), *final(self)),
            (final(self)@, many_result(r)) == eval_some(
                old(self).world(),
                h,
                old(self)@,
                *args,
                0,
                n as nat,
                Seq::empty(),
            ),
        decreases h.depth, eval_level(h.in_defer), args, 0nat, 0nat,
    {
        proof {
            reveal(eval_some);
        }
        let ghost start = *self;
        let ghost w = self.world();
        let mut out: Vec<Value> = Vec::new();
        let mut i: usize = 0;
        assert(vals(out@) =~= Seq::empty());
        while i < args.len() && i < n
            invariant
                start == *old(self),
                w == start.world(),
                advanced(start, *self),
                eval_some(w, h, start@, *args, 0, n as nat, Seq::empty()) == eval_some(
                    w,
                    h,
                    self@,
                    *args,
                    i as nat,
                    n as nat, vals(out@),
                ),
            decreases args.len() - i,
        {
            proof {
                reveal(eval_some);
            }
            match self.eval(h, &args[i].value) {
                Err(s) => return Err(s),
                Ok(Flow::Val(v)) => {
                    let ghost before = vals(out@);
                    out.push(v);
                    assert(vals(out@) =~= before.push(v@));
                },
                Ok(f) => return Ok(Several::Leaves(f)),
            }
            i = i + 1;
        }
        Ok(Several::All(out))
    }

    /// The field initializers in order.
    #[verifier::spinoff_prover]
    pub(crate) fn eval_fields(
        &mut self,
        h: Here,
        fs: &'t Vec<FieldInit>,
    ) -> (r: Result<Several, Stop>)
        requires
            old(self).inv(),
        ensures
            advanced(*old(self), *final(self)),
            (final(self)@, many_result(r)) == eval_fields(
                old(self).world(),
                h,
                old(self)@,
                *fs,
                0,
                Seq::empty(),
            ),
        decreases h.depth, eval_level(h.in_defer), fs, 0nat, 0nat,
    {
        proof {
            reveal(eval_fields);
        }
        let ghost start = *self;
        let ghost w = self.world();
        let mut out: Vec<Value> = Vec::new();
        let mut i: usize = 0;
        assert(vals(out@) =~= Seq::empty());
        while i < fs.len()
            invariant
                start == *old(self),
                w == start.world(),
                advanced(start, *self),
                eval_fields(w, h, start@, *fs, 0, Seq::empty()) == eval_fields(
                    w,
                    h,
                    self@,
                    *fs,
                    i as nat,
                    vals(out@),
                ),
            decreases fs.len() - i,
        {
            proof {
                reveal(eval_fields);
            }
            match self.eval(h, &fs[i].value) {
                Err(s) => return Err(s),
                Ok(Flow::Val(v)) => {
                    let ghost before = vals(out@);
                    out.push(v);
                    assert(vals(out@) =~= before.push(v@));
                },
                Ok(f) => return Ok(Several::Leaves(f)),
            }
            i = i + 1;
        }
        Ok(Several::All(out))
    }

    /// A place is read without moving; anything else is evaluated.
    #[verifier::spinoff_prover]
    pub(crate) fn read_or_eval(&mut self, h: Here, e: &'t Expr) -> (r: Result<Flow, Stop>)
        requires
            old(self).inv(),
        ensures
            advanced(*old(self), *final(self)),
            (final(self)@, flow_result(r)) == read_or_eval(old(self).world(), h, old(self)@, *e),
        decreases h.depth, eval_level(h.in_defer), e, 4nat, 0nat,
    {
        proof {
            reveal(read_or_eval);
        }
        match self.place_of(h, e) {
            Err(s) => Err(s),
            Ok(Some(s)) => match self.read_at(&s, e.span) {
                Ok(v) => Ok(Flow::Val(v)),
                Err(x) => Err(x),
            },
            Ok(None) => self.eval(h, e),
        }
    }

    /// A place is taken; anything else is evaluated.
    #[verifier::spinoff_prover]
    pub(crate) fn take_or_eval(&mut self, h: Here, e: &'t Expr) -> (r: Result<Flow, Stop>)
        requires
            old(self).inv(),
        ensures
            advanced(*old(self), *final(self)),
            (final(self)@, flow_result(r)) == take_or_eval(old(self).world(), h, old(self)@, *e),
        decreases h.depth, eval_level(h.in_defer), e, 4nat, 0nat,
    {
        proof {
            reveal(take_or_eval);
        }
        match self.place_of(h, e) {
            Err(s) => Err(s),
            Ok(Some(s)) => match self.take_value(&s, e.span) {
                Ok(v) => Ok(Flow::Val(v)),
                Err(x) => Err(x),
            },
            Ok(None) => self.eval(h, e),
        }
    }

    /// One argument under its declared mode.
    #[verifier::spinoff_prover]
    pub(crate) fn eval_arg(
        &mut self,
        h: Here,
        v: &'t Expr,
        mode: Option<ParamMode>,
    ) -> (r: Result<Value, Stop>)
        requires
            old(self).inv(),
        ensures
            advanced(*old(self), *final(self)),
            (final(self)@, value_result(r)) == eval_arg(old(self).world(), h, old(self)@, *v, mode),
        decreases h.depth, eval_level(h.in_defer), v, 6nat, 0nat,
    {
        proof {
            reveal(eval_arg);
        }
        match &v.kind {
            ExprKind::Prefix(PrefixOp::Mut, inner) => self.arg_value(h, inner, v.span, mode),
            ExprKind::Prefix(PrefixOp::Take, inner) => self.arg_value(h, inner, v.span, mode),
            _ => self.arg_value(h, v, v.span, mode),
        }
    }

    #[verifier::spinoff_prover]
    pub(crate) fn arg_value(
        &mut self,
        h: Here,
        e: &'t Expr,
        at: Span,
        mode: Option<ParamMode>,
    ) -> (r: Result<Value, Stop>)
        requires
            old(self).inv(),
        ensures
            advanced(*old(self), *final(self)),
            (final(self)@, value_result(r)) == arg_value(old(self).world(), h, old(self)@, *e, at, mode),
        decreases h.depth, eval_level(h.in_defer), e, 5nat, 0nat,
    {
        proof {
            reveal(arg_value);
        }
        match self.place_of(h, e) {
            Err(s) => Err(s),
            Ok(Some(s)) => {
                if let Some(ParamMode::Take) = mode {
                    return self.take_value(&s, e.span);
                }
                match self.read_at(&s, e.span) {
                    Err(x) => Err(x),
                    Ok(Value::Ptr(p)) => {
                        let state = if mode.is_some() {
                            TagState::Active
                        } else {
                            TagState::Frozen
                        };
                        Ok(Value::Ptr(self.lend(p, state, e.span)))
                    },
                    Ok(v) => if mode.is_some() {
                        Ok(Value::Ref(s))
                    } else {
                        Ok(v)
                    },
                }
            },
            Ok(None) => {
                if let Some(ParamMode::Mut) = mode {
                    return Err(refuse(MUT_OF_OTHER, at));
                }
                match self.eval(h, e) {
                    Err(s) => Err(s),
                    Ok(Flow::Val(v)) => Ok(v),
                    Ok(_) => Err(refuse(ARG_FLOW, at)),
                }
            },
        }
    }

    /// The arguments from `from` on under their declared modes.
    #[verifier::spinoff_prover]
    pub(crate) fn moded_args(
        &mut self,
        h: Here,
        sig: &'t CallSig,
        args: &'t Vec<Arg>,
        from: usize,
        skip: usize,
        first: Vec<Value>,
    ) -> (r: Result<Vec<Value>, Stop>)
        requires
            old(self).inv(),
            skip <= 1,
        ensures
            advanced(*old(self), *final(self)),
            (final(self)@, vals_result(r)) == moded_args(
                old(self).world(),
                h,
                old(self)@,
                *sig,
                *args,
                from as nat,
                skip as nat,
                vals(first@),
            ),
        decreases h.depth, eval_level(h.in_defer), args, 0nat, 0nat,
    {
        proof {
            reveal(moded_args);
        }
        let ghost start = *self;
        let ghost w = self.world();
        let ghost acc = vals(first@);
        let mut out = first;
        let mut i: usize = from;
        while i < args.len()
            invariant
                start == *old(self),
                w == start.world(),
                skip <= 1,
                acc == vals(first@),
                advanced(start, *self),
                moded_args(w, h, start@, *sig, *args, from as nat, skip as nat, acc) == moded_args(
                    w,
                    h,
                    self@,
                    *sig,
                    *args,
                    i as nat,
                    skip as nat,
                    vals(out@),
                ),
            decreases args.len() - i,
        {
            proof {
                reveal(moded_args);
            }
            match self.eval_arg(h, &args[i].value, mode_at(sig, i + skip)) {
                Err(s) => return Err(s),
                Ok(v) => {
                    let ghost before = vals(out@);
                    out.push(v);
                    assert(vals(out@) =~= before.push(v@));
                },
            }
            i = i + 1;
        }
        Ok(out)
    }

    /// The values pushed onto a list, each read as an argument.
    #[verifier::spinoff_prover]
    pub(crate) fn push_args(
        &mut self,
        h: Here,
        args: &'t Vec<Arg>,
        id: usize,
    ) -> (r: Result<Flow, Stop>)
        requires
            old(self).inv(),
        ensures
            advanced(*old(self), *final(self)),
            (final(self)@, flow_result(r)) == push_args(old(self).world(), h, old(self)@, *args, 0, id),
        decreases h.depth, eval_level(h.in_defer), args, 0nat, 0nat,
    {
        proof {
            reveal(push_args);
        }
        let ghost start = *self;
        let ghost w = self.world();
        let mut i: usize = 0;
        while i < args.len()
            invariant
                start == *old(self),
                w == start.world(),
                advanced(start, *self),
                push_args(w, h, start@, *args, 0, id) == push_args(w, h, self@, *args, i as nat, id),
            decreases args.len() - i,
        {
            proof {
                reveal(push_args);
            }
            let mark: usize = self.guards.len();
            match self.eval_arg(h, &args[i].value, None) {
                Err(s) => return Err(s),
                Ok(v) => {
                    self.release(mark);
                    match self.charge_mem(16) {
                        Err(s) => return Err(s),
                        Ok(_) => self.list_push(id, v),
                    }
                },
            }
            i = i + 1;
        }
        Ok(Flow::Val(Value::Unit))
    }
}

} // verus!
