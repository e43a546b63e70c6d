//! Regions, raw memory and string slices, run.

use vstd::prelude::*;
use vstd::string::*;
use vstd::utf8::*;

use crate::arith::{IntOut, checked_arith, le_bytes, le_number, wrapping_arith};
use crate::ast::{AssignOp, Expr, ExprKind};
use crate::diag::Span;
use crate::evaluate::{
    NO_FREEZE, NO_FROM_END, NO_IN, NO_IN_REGION, NO_SLICE, NO_SLICE_END, NO_SLICE_SHAPE, RAW_FLOW,
    RAW_RECEIVER, RAW_VALUE, eval_bound, eval_door, eval_freeze, eval_in, eval_region_block,
    eval_str_slice, last_int, last_range, past, raw_combined, raw_index_read, raw_index_write,
    raw_int, raw_loaded, raw_outcome, raw_parts, scalar_bits, slice_range,
};
use crate::literal::slice_of;
use crate::machine::{Machine, advanced};
use crate::runargs::Several;
use crate::runbase::{opt_body, shifted_index};
use crate::runheap::{element_of, signed_word};
use crate::semantics::{Here, NO_OPERATOR, eval_level};
use crate::shadow::PtrVal;
use crate::strs::{is_boundary, law_slice_is_text, sliceable};
use crate::text::{dec_i128, lit};
use crate::types::{Prim, TyKind};
use crate::value::{
    Flow, FlowView, Stop, StopView, Value, ValueView, bytes_of, flow_result, refuse, str_value,
    trap, trapped, vals,
};
use crate::verdict::{UbFinding, UbRow};

verus! {

pub open spec fn raw_result(r: Result<(PtrVal, i64), Stop>) -> Result<(PtrVal, i64), StopView> {
    match r {
        Ok(x) => Ok(x),
        Err(s) => Err(s@),
    }
}

pub open spec fn bound_result(r: Result<(i64, Option<Flow>), Stop>) -> Result<
    (i64, Option<FlowView>),
    StopView,
> {
    match r {
        Ok((n, f)) => Ok(
            (
                n,
                match f {
                    Some(f) => Some(f@),
                    None => None,
                },
            ),
        ),
        Err(s) => Err(s@),
    }
}

fn final_int(vs: &Vec<Value>) -> (r: i64)
    ensures
        r == last_int(vals(vs@), vals(vs@).len()),
{
    let ghost all = vals(vs@);
    let mut n: usize = vs.len();
    while n > 0
        invariant
            n <= vs@.len(),
            all == vals(vs@),
            last_int(all, all.len()) == last_int(all, n as nat),
        decreases n,
    {
        assert(all[n - 1] == vs@[n - 1]@);
        if let Value::Int(i) = &vs[n - 1] {
            return *i;
        }
        n = n - 1;
    }
    0
}

fn final_range(args: &Vec<Expr>) -> (r: Option<usize>)
    ensures
        opt_body(r) == last_range(args@, args@.len()),
        r matches Some(k) ==> k < args@.len(),
{
    let mut n: usize = args.len();
    while n > 0
        invariant
            n <= args@.len(),
            last_range(args@, args@.len()) == last_range(args@, n as nat),
        decreases n,
    {
        if let ExprKind::Range { .. } = &args[n - 1].kind {
            return Some(n - 1);
        }
        n = n - 1;
    }
    None
}

fn scalar_of(v: &Value) -> (r: Option<i64>)
    ensures
        r == scalar_bits(v@),
{
    match v {
        Value::Int(n) => Some(*n),
        Value::Bool(b) => if *b {
            Some(1)
        } else {
            Some(0)
        },
        _ => None,
    }
}

fn past_end(hi: i64, inclusive: bool) -> (r: i64)
    ensures
        r == past(hi, inclusive),
{
    if inclusive && hi < i64::MAX {
        hi + 1
    } else {
        hi
    }
}

fn counts_from_end(x: &Expr) -> (r: bool)
    ensures
        r == (x.kind is FromEnd),
{
    match &x.kind {
        ExprKind::FromEnd(_) => true,
        _ => false,
    }
}

fn cut_string(s: &Vec<u8>, lo: i64, hi: i64, at: Span) -> (r: Result<Flow, Stop>)
    requires
        valid_utf8(s@),
    ensures
        flow_result(r) == (if sliceable(s@, lo as int, hi as int) {
            Ok(FlowView::Val(ValueView::Str(s@.subrange(lo as int, hi as int))))
        } else {
            Err(trapped("bounds"@, "mem.ub.defined"@, at))
        }),
{
    let n: usize = s.len();
    if lo < 0 || hi < lo || (hi as u64) > (n as u64) {
        return Err(trap("bounds", "mem.ub.defined", at));
    }
    let a: usize = lo as usize;
    let b: usize = hi as usize;
    if is_boundary(s, a) && is_boundary(s, b) {
        proof {
            law_slice_is_text(s@, lo as int, hi as int);
        }
        Ok(Flow::Val(str_value(&slice_of(s, a, b))))
    } else {
        Err(trap("bounds", "mem.ub.defined", at))
    }
}

#[verifier::truncate]
fn int_at(x: u64, bits: Option<u32>) -> (r: i64)
    ensures
        r == raw_int(x, bits),
{
    let wide: i128 = x as i128;
    match bits {
        Some(8) => if x >= 0x80 {
            (wide - 0x100) as i64
        } else {
            x as i64
        },
        Some(16) => if x >= 0x8000 {
            (wide - 0x1_0000) as i64
        } else {
            x as i64
        },
        Some(32) => if x >= 0x8000_0000 {
            (wide - 0x1_0000_0000) as i64
        } else {
            x as i64
        },
        _ => x as i64,
    }
}

pub open spec fn int_stop(r: Result<i64, Stop>) -> Result<i64, StopView> {
    match r {
        Ok(n) => Ok(n),
        Err(s) => Err(s@),
    }
}

fn outcome_of(o: IntOut, at: Span) -> (r: Result<i64, Stop>)
    ensures
        int_stop(r) == raw_outcome(o, at),
{
    match o {
        IntOut::Gives(n) => Ok(n),
        IntOut::DivZero => Err(trap("div-zero", "mem.ub.defined", at)),
        IntOut::Overflow => Err(trap("overflow", "mem.ub.defined", at)),
        IntOut::Unruled => Err(refuse(NO_OPERATOR, at)),
    }
}

impl<'t> Machine<'t> {
    /// A region block: created, opened, named inside, freed at the brace.
    #[verifier::spinoff_prover]
    pub(crate) fn eval_region_block(&mut self, h: Here, e: &'t Expr) -> (r: Result<Flow, Stop>)
        requires
            old(self).inv(),
        ensures
            advanced(*old(self), *final(self)),
            (final(self)@, flow_result(r)) == eval_region_block(old(self).world(), h, old(self)@, *e),
        decreases h.depth, eval_level(h.in_defer), e, 1nat, 0nat,
    {
        proof {
            reveal(eval_region_block);
        }
        match &e.kind {
            ExprKind::RegionBlock { name, body, .. } => {
                let rid = self.new_region(e.span);
                self.push_ambient(rid);
                self.push_scope();
                if let Some(b) = name {
                    let _ = self.declare(b.name.as_str(), Value::Region(rid));
                }
                let out = self.eval_block(h, body, true);
                if let Err(Stop::Ask(q)) = out {
                    return Err(Stop::Ask(q));
                }
                let raised = match &out {
                    Ok(Flow::Raise(..)) => true,
                    _ => false,
                };
                match self.close_scope(h, raised) {
                    Err(s) => Err(s),
                    Ok(_) => {
                        self.pop_ambient();
                        self.free_region(rid);
                        out
                    },
                }
            },
            _ => Ok(Flow::Val(Value::Unit)),
        }
    }

    #[verifier::spinoff_prover]
    pub(crate) fn eval_in(&mut self, h: Here, e: &'t Expr) -> (r: Result<Flow, Stop>)
        requires
            old(self).inv(),
        ensures
            advanced(*old(self), *final(self)),
            (final(self)@, flow_result(r)) == eval_in(old(self).world(), h, old(self)@, *e),
        decreases h.depth, eval_level(h.in_defer), e, 1nat, 0nat,
    {
        proof {
            reveal(eval_in);
        }
        match &e.kind {
            ExprKind::In { region, body } => match region {
                None => Err(refuse(NO_IN_REGION, e.span)),
                Some(x) => match self.read_or_eval(h, x) {
                    Ok(Flow::Val(v)) => match v {
                        Value::Region(r) => {
                            self.push_ambient(r);
                            let out = self.eval_block(h, body, true);
                            self.pop_ambient();
                            out
                        },
                        _ => Err(refuse(NO_IN, e.span)),
                    },
                    other => other,
                },
            },
            _ => Ok(Flow::Val(Value::Unit)),
        }
    }

    fn freeze_region(&mut self, r: usize)
        requires
            old(self).inv(),
        ensures
            advanced(*old(self), *final(self)),
            final(self)@ == old(self)@.with_shadow(old(self)@.sh.freeze_region(r as int)),
    {
        let ghost was = self@;
        proof {
            reveal(Machine::inv);
        }
        self.sh.freeze_region(r);
        assert(self@ =~= was.with_shadow(was.sh.freeze_region(r as int)));
    }

    #[verifier::spinoff_prover]
    pub(crate) fn eval_freeze(&mut self, h: Here, e: &'t Expr) -> (r: Result<Flow, Stop>)
        requires
            old(self).inv(),
        ensures
            advanced(*old(self), *final(self)),
            (final(self)@, flow_result(r)) == eval_freeze(old(self).world(), h, old(self)@, *e),
        decreases h.depth, eval_level(h.in_defer), e, 1nat, 0nat,
    {
        proof {
            reveal(eval_freeze);
        }
        match &e.kind {
            ExprKind::Freeze(x) => match self.eval(h, x) {
                Ok(Flow::Val(v)) => match v {
                    Value::Region(r) => {
                        self.freeze_region(r);
                        Ok(Flow::Val(Value::Region(r)))
                    },
                    _ => Err(refuse(NO_FREEZE, e.span)),
                },
                other => other,
            },
            _ => Ok(Flow::Val(Value::Unit)),
        }
    }

    #[verifier::spinoff_prover]
    pub(crate) fn eval_door(&mut self, h: Here, e: &'t Expr) -> (r: Result<Flow, Stop>)
        requires
            old(self).inv(),
        ensures
            advanced(*old(self), *final(self)),
            (final(self)@, flow_result(r)) == eval_door(old(self).world(), h, old(self)@, *e),
        decreases h.depth, eval_level(h.in_defer), e, 1nat, 0nat,
    {
        proof {
            reveal(eval_door);
        }
        match &e.kind {
            ExprKind::Borrow { region, source } => match self.read_or_eval(h, region) {
                Ok(Flow::Val(r)) => match self.read_or_eval(h, source) {
                    Ok(Flow::Val(p)) => {
                        let size = self.pointee_at(h, e);
                        self.door_values(&r, &p, size, e.span)
                    },
                    other => other,
                },
                other => other,
            },
            _ => Ok(Flow::Val(Value::Unit)),
        }
    }

    /// The pointer and index of a raw element access.
    #[verifier::spinoff_prover]
    pub(crate) fn raw_parts(&mut self, h: Here, e: &'t Expr) -> (r: Result<(PtrVal, i64), Stop>)
        requires
            old(self).inv(),
        ensures
            advanced(*old(self), *final(self)),
            (final(self)@, raw_result(r)) == raw_parts(old(self).world(), h, old(self)@, *e),
        decreases h.depth, eval_level(h.in_defer), e, 0nat, 0nat,
    {
        proof {
            reveal(raw_parts);
        }
        match &e.kind {
            ExprKind::Bracket { callee, args, .. } => match self.read_or_eval(h, callee) {
                Err(s) => Err(s),
                Ok(Flow::Val(Value::Ptr(p))) => match self.eval_exprs(h, args) {
                    Err(s) => Err(s),
                    Ok(Several::All(vs)) => Ok((p, final_int(&vs))),
                    Ok(Several::Leaves(_)) => Err(refuse(RAW_FLOW, e.span)),
                },
                Ok(Flow::Val(_)) => Err(refuse(RAW_RECEIVER, e.span)),
                Ok(_) => Err(refuse(RAW_FLOW, e.span)),
            },
            _ => Err(refuse(RAW_RECEIVER, e.span)),
        }
    }

    fn raw_loaded(&self, p: PtrVal, b: &Vec<u8>, is_bool: bool, at: Span) -> (r: Result<Flow, Stop>)
        ensures
            (self@, flow_result(r)) == raw_loaded(self@, p, b@, is_bool, at),
    {
        let n: i64 = signed_word(le_number(b));
        if !is_bool {
            return Ok(Flow::Val(Value::Int(n)));
        }
        if n > 1 {
            let digits = dec_i128(n as i128);
            let message = lit("this read produces `").concat(digits.as_str()).concat(
                "` as a `bool` — not a valid value of the type",
            );
            let tag_span = self.alloc_span(p, at);
            return Err(Stop::Ub(UbFinding { row: UbRow::T1, message, span: at, tag_span }));
        }
        Ok(Flow::Val(Value::Bool(n == 1)))
    }

    /// A raw element read.
    #[verifier::spinoff_prover]
    pub(crate) fn raw_index_read(&mut self, h: Here, e: &'t Expr) -> (r: Result<Flow, Stop>)
        requires
            old(self).inv(),
        ensures
            advanced(*old(self), *final(self)),
            (final(self)@, flow_result(r)) == raw_index_read(old(self).world(), h, old(self)@, *e),
        decreases h.depth, eval_level(h.in_defer), e, 0nat, 1nat,
    {
        proof {
            reveal(raw_index_read);
        }
        match self.raw_parts(h, e) {
            Err(s) => Err(s),
            Ok((p, idx)) => {
                let size = self.pointee_at(h, e);
                match self.raw_read(element_of(p, idx, size), size, e.span, "a raw pointer read") {
                    Err(s) => Err(s),
                    Ok(b) => {
                        let is_bool = match self.kind_at(h, e) {
                            Some(TyKind::Prim(Prim::Bool)) => true,
                            _ => false,
                        };
                        self.raw_loaded(p, &b, is_bool, e.span)
                    },
                }
            },
        }
    }

    /// What a compound raw write stores.
    fn raw_combined(&mut self, h: Here, e: &Expr, op: AssignOp, q: PtrVal, n: i64, at: Span) -> (r:
        Result<i64, Stop>)
        requires
            old(self).inv(),
        ensures
            advanced(*old(self), *final(self)),
            (final(self)@, int_stop(r)) == raw_combined(
                old(self).world(),
                h,
                old(self)@,
                *e,
                op,
                q,
                n,
                at,
            ),
    {
        match op {
            AssignOp::Plain => Ok(n),
            AssignOp::Compound(b) => {
                let size = self.pointee_at(h, e);
                match self.raw_read(q, size, at, "a raw pointer read") {
                    Err(s) => Err(s),
                    Ok(cur) => {
                        let x = le_number(&cur);
                        let out = match self.wrap_at(h, e) {
                            Some((bits, unsigned)) => wrapping_arith(
                                b,
                                signed_word(x),
                                n,
                                bits,
                                unsigned,
                            ),
                            None => checked_arith(
                                b,
                                int_at(x, self.signed_at(h, e)),
                                n,
                                self.range_at(h, e),
                            ),
                        };
                        outcome_of(out, at)
                    },
                }
            },
        }
    }

    /// A raw element write.
    #[verifier::spinoff_prover]
    #[verifier::truncate]
    pub(crate) fn raw_index_write(
        &mut self,
        h: Here,
        e: &'t Expr,
        v: Value,
        op: AssignOp,
        at: Span,
    ) -> (r: Result<Flow, Stop>)
        requires
            old(self).inv(),
        ensures
            advanced(*old(self), *final(self)),
            (final(self)@, flow_result(r)) == raw_index_write(
                old(self).world(),
                h,
                old(self)@,
                *e,
                v@,
                op,
                at,
            ),
        decreases h.depth, eval_level(h.in_defer), e, 0nat, 1nat,
    {
        proof {
            reveal(raw_index_write);
        }
        match self.raw_parts(h, e) {
            Err(s) => Err(s),
            Ok((p, idx)) => {
                let size = self.pointee_at(h, e);
                let q = element_of(p, idx, size);
                match scalar_of(&v) {
                    None => Err(refuse(RAW_VALUE, at)),
                    Some(n) => match self.raw_combined(h, e, op, q, n, at) {
                        Err(s) => Err(s),
                        Ok(x) => {
                            let data = le_bytes(x as u64, size);
                            match self.raw_write(q, &data, at, "a raw pointer write") {
                                Err(s) => Err(s),
                                Ok(_) => Ok(Flow::Val(Value::Unit)),
                            }
                        },
                    },
                }
            },
        }
    }

    /// One endpoint of a slice.
    #[verifier::spinoff_prover]
    #[verifier::truncate]
    pub(crate) fn eval_bound(
        &mut self,
        h: Here,
        e: &'t Expr,
        len: usize,
    ) -> (r: Result<(i64, Option<Flow>), Stop>)
        requires
            old(self).inv(),
        ensures
            advanced(*old(self), *final(self)),
            (final(self)@, bound_result(r)) == eval_bound(old(self).world(), h, old(self)@, *e, len as nat),
        decreases h.depth, eval_level(h.in_defer), e, 4nat, 0nat,
    {
        proof {
            reveal(eval_bound);
        }
        match &e.kind {
            ExprKind::FromEnd(inner) => match self.eval(h, inner) {
                Err(s) => Err(s),
                Ok(Flow::Val(Value::Int(n))) => Ok((((len as i128) - (n as i128)) as i64, None)),
                Ok(Flow::Val(_)) => Err(refuse(NO_FROM_END, e.span)),
                Ok(f) => Ok((0, Some(f))),
            },
            _ => match self.eval(h, e) {
                Err(s) => Err(s),
                Ok(Flow::Val(Value::Int(n))) => Ok((n, None)),
                Ok(Flow::Val(_)) => Err(refuse(NO_SLICE_END, e.span)),
                Ok(f) => Ok((0, Some(f))),
            },
        }
    }

    /// `s[a..b]` on an evaluated string.
    #[verifier::spinoff_prover]
    #[verifier::truncate]
    pub(crate) fn slice_range(
        &mut self,
        h: Here,
        s: &Vec<u8>,
        range: &'t Expr,
        one: bool,
        at: Span,
    ) -> (r: Result<Flow, Stop>)
        requires
            old(self).inv(),
            valid_utf8(s@),
        ensures
            advanced(*old(self), *final(self)),
            (final(self)@, flow_result(r)) == slice_range(old(self).world(), h, old(self)@, s@, *range, one, at),
        decreases h.depth, eval_level(h.in_defer), range, 5nat, 0nat,
    {
        proof {
            reveal(slice_range);
        }
        match &range.kind {
            ExprKind::Range { start, end, inclusive } => {
                let lo: i64 = match start {
                    Some(x) => match self.eval_bound(h, x, s.len()) {
                        Ok((n, None)) => match shifted_index(n, one && !counts_from_end(x), x.span) {
                            Ok(k) => k,
                            Err(e) => return Err(e),
                        },
                        Ok((_, Some(f))) => return Ok(f),
                        Err(e) => return Err(e),
                    },
                    None => 0,
                };
                match end {
                    None => cut_string(s, lo, past_end(s.len() as i64, *inclusive), at),
                    Some(x) => match self.eval_bound(h, x, s.len()) {
                        Err(e) => Err(e),
                        Ok((_, Some(f))) => Ok(f),
                        Ok((hi, None)) => {
                            let open = *inclusive && !(one && !counts_from_end(x));
                            cut_string(s, lo, past_end(hi, open), at)
                        },
                    },
                }
            },
            _ => Err(refuse(NO_SLICE_SHAPE, at)),
        }
    }

    #[verifier::spinoff_prover]
    pub(crate) fn eval_str_slice(&mut self, h: Here, e: &'t Expr) -> (r: Result<Flow, Stop>)
        requires
            old(self).inv(),
        ensures
            advanced(*old(self), *final(self)),
            (final(self)@, flow_result(r)) == eval_str_slice(old(self).world(), h, old(self)@, *e),
        decreases h.depth, eval_level(h.in_defer), e, 0nat, 0nat,
    {
        proof {
            reveal(eval_str_slice);
        }
        match &e.kind {
            ExprKind::Bracket { callee, args, one_origin } => match self.read_or_eval(h, callee) {
                Ok(Flow::Val(v)) => match v {
                    Value::Str(s) => match final_range(args) {
                        Some(k) => {
                            proof {
                                encode_utf8_valid_utf8(s@);
                            }
                            let b = bytes_of(s.as_str());
                            self.slice_range(h, &b, &args[k], *one_origin, e.span)
                        },
                        None => Err(refuse(NO_SLICE_SHAPE, e.span)),
                    },
                    _ => Err(refuse(NO_SLICE, e.span)),
                },
                other => other,
            },
            _ => Ok(Flow::Val(Value::Unit)),
        }
    }
}

} // verus!
