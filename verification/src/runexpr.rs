//! Expressions, run: names, literals, strings and aggregates.

use vstd::prelude::*;
use vstd::string::*;
use vstd::utf8::*;

use crate::ast::{Expr, ExprKind, FieldInit, Hole};
use crate::diag::Span;
use crate::evaluate::{
    NO_CLOSURE, NO_CONCURRENCY, NO_INDEX, NO_INLINE, NO_INT_INDEX, NO_INT_RANGE, NO_ITEM,
    NO_OPERAND, NO_SHAPE, eval, eval_fields, eval_holes, eval_index, eval_kind, eval_literal,
    eval_named, eval_range, eval_string, eval_struct, eval_tuple, import_at, item_value, positional,
    qualified_fn, rendered,
};
use crate::machine::{Machine, State, advanced};
use crate::runargs::Several;
use crate::runbase::{find_any_fn, find_module_fn, is_simple_name, opt_body, shifted_index};
use crate::runheap::{build_string, bytes_result, hole_views};
use crate::semantics::{Here, Many, World, eval_level, shift_origin, stops, unit, val};
use crate::text::{contains_text, dec, decimal, str_eq};
use crate::types::{Prim, TyKind};
use crate::value::{
    Flow, FlowView, PStep, PStepView, Stop, StopView, Value, ValueView, bytes_of, err_tag,
    flow_result, lemma_named, named_vals, refuse, refused, step_views, trap, vals,
};

verus! {

/// The rendered holes of a string, or the flow that ended them.
pub open spec fn holes_result(
    r: Result<(Vec<(u32, u32, Vec<u8>)>, Option<Flow>), Stop>,
) -> Result<(Seq<(u32, u32, Seq<u8>)>, Option<FlowView>), StopView> {
    match r {
        Ok((v, f)) => Ok(
            (
                hole_views(v@),
                match f {
                    Some(f) => Some(f@),
                    None => None,
                },
            ),
        ),
        Err(s) => Err(s@),
    }
}

fn find_import(v: &Vec<(String, u32)>, name: &str) -> (r: Option<u32>)
    ensures
        r == import_at(v@, name@, 0),
{
    let mut i: usize = 0;
    while i < v.len()
        invariant
            i <= v@.len(),
            import_at(v@, name@, 0) == import_at(v@, name@, i as int),
        decreases v.len() - i,
    {
        if str_eq(v[i].0.as_str(), name) {
            return Some(v[i].1);
        }
        i = i + 1;
    }
    None
}

fn numbered(vs: Vec<Value>) -> (r: Vec<(String, Value)>)
    ensures
        named_vals(r@) == positional(vals(vs@)),
{
    let mut out: Vec<(String, Value)> = Vec::new();
    let mut i: usize = 0;
    while i < vs.len()
        invariant
            i <= vs@.len(),
            out@.len() == i,
            forall|k: int|
                0 <= k < i ==> (#[trigger] out@[k]).0@ == decimal(k as nat) && out@[k].1@
                    == vs@[k]@,
        decreases vs.len() - i,
    {
        out.push((dec(i as u64), vs[i].duplicate()));
        i = i + 1;
    }
    assert(named_vals(out@) =~= positional(vals(vs@)));
    out
}

fn fielded(fs: &Vec<FieldInit>, vs: Vec<Value>) -> (r: Vec<(String, Value)>)
    requires
        vs@.len() == fs@.len(),
    ensures
        named_vals(r@) == Seq::new(vals(vs@).len(), |i: int| (fs@[i].name@, vals(vs@)[i])),
{
    let mut out: Vec<(String, Value)> = Vec::new();
    let mut i: usize = 0;
    while i < vs.len()
        invariant
            i <= vs@.len(),
            vs@.len() == fs@.len(),
            out@.len() == i,
            forall|k: int|
                0 <= k < i ==> (#[trigger] out@[k]).0@ == fs@[k].name@ && out@[k].1@ == vs@[k]@,
        decreases vs.len() - i,
    {
        out.push((fs[i].name.clone(), vs[i].duplicate()));
        i = i + 1;
    }
    assert(named_vals(out@) =~= Seq::new(
        vals(vs@).len(),
        |i: int| (fs@[i].name@, vals(vs@)[i]),
    ));
    out
}

/// Every initializer gives one value.
proof fn lemma_fields_counted<'t>(
    w: World<'t>,
    h: Here,
    m: State<'t>,
    fs: Vec<FieldInit>,
    i: nat,
    acc: Seq<ValueView>,
)
    requires
        i <= fs@.len(),
        acc.len() == i,
    ensures
        eval_fields(w, h, m, fs, i, acc).1 matches Ok(Many::All(vs)) ==> vs.len() == fs@.len(),
    decreases fs@.len() - i,
{
    reveal(eval_fields);
    reveal(eval);
    if i < fs@.len() {
        match eval(w, h, m, fs[i as int].value) {
            (m1, Ok(FlowView::Val(v))) => {
                lemma_fields_counted(w, h, m1, fs, i + 1, acc.push(v));
            },
            _ => {},
        }
    }
}

impl<'t> Machine<'t> {
    /// Evaluate an expression: one step of the budget, then its kind.
    #[verifier::spinoff_prover]
    pub(crate) fn eval(&mut self, h: Here, e: &'t Expr) -> (r: Result<Flow, Stop>)
        requires
            old(self).inv(),
        ensures
            advanced(*old(self), *final(self)),
            (final(self)@, flow_result(r)) == eval(old(self).world(), h, old(self)@, *e),
        decreases h.depth, eval_level(h.in_defer), e, 3nat, 0nat,
    {
        proof {
            reveal(eval);
        }
        match self.tick() {
            Err(s) => Err(s),
            Ok(_) => self.eval_kind(h, e),
        }
    }

    #[verifier::spinoff_prover]
    pub(crate) fn eval_kind(&mut self, h: Here, e: &'t Expr) -> (r: Result<Flow, Stop>)
        requires
            old(self).inv(),
        ensures
            advanced(*old(self), *final(self)),
            (final(self)@, flow_result(r)) == eval_kind(old(self).world(), h, old(self)@, *e),
        decreases h.depth, eval_level(h.in_defer), e, 2nat, 0nat,
    {
        proof {
            reveal(eval_kind);
        }
        match &e.kind {
            ExprKind::Literal { .. } => self.eval_literal(h, e),
            ExprKind::Str(_) => self.eval_string(h, e),
            ExprKind::Paren(inner, _) => self.eval(h, inner),
            ExprKind::Path(_) => self.eval_named(h, e),
            ExprKind::Member(..) => self.eval_named(h, e),
            ExprKind::Bracket { .. } => self.eval_index(h, e),
            ExprKind::Tuple(_) => self.eval_tuple(h, e),
            ExprKind::Block(b) => self.eval_block(h, b, true),
            ExprKind::Prefix(..) => self.eval_prefix(h, e),
            ExprKind::Bin(..) => self.eval_bin(h, e),
            ExprKind::Cast(..) => self.eval_cast(h, e),
            ExprKind::Range { .. } => self.eval_range(h, e),
            ExprKind::Try(_) => self.eval_try(h, e),
            ExprKind::Call { .. } => self.eval_call(h, e),
            ExprKind::StructLit(_) => self.eval_struct(h, e),
            ExprKind::If { .. } => self.eval_if(h, e),
            ExprKind::Match { .. } => self.eval_match(h, e),
            ExprKind::While { .. } => self.eval_while(h, e),
            ExprKind::For { .. } => self.eval_for(h, e),
            ExprKind::Loop(_) => self.eval_loop(h, e),
            ExprKind::Else { .. } => self.eval_else(h, e),
            ExprKind::Return(_) => self.eval_return(h, e),
            ExprKind::Break => Ok(Flow::Break),
            ExprKind::Continue => Ok(Flow::Continue),
            ExprKind::Unsafe { body, .. } => self.eval_block(h, body, true),
            ExprKind::RegionBlock { .. } => self.eval_region_block(h, e),
            ExprKind::RegionValue(_) => {
                let r = self.new_region(e.span);
                Ok(Flow::Val(Value::Region(r)))
            },
            ExprKind::In { .. } => self.eval_in(h, e),
            ExprKind::Freeze(_) => self.eval_freeze(h, e),
            ExprKind::Borrow { .. } => self.eval_door(h, e),
            ExprKind::Closure { .. } => Err(refuse(NO_CLOSURE, e.span)),
            ExprKind::Scope { .. } | ExprKind::Select(_) | ExprKind::When { .. } | ExprKind::Spawn(_) => {
                Err(refuse(NO_CONCURRENCY, e.span))
            },
            ExprKind::InlineCode => Err(refuse(NO_INLINE, e.span)),
            _ => Err(refuse(NO_SHAPE, e.span)),
        }
    }

    pub(crate) fn new_region(&mut self, at: Span) -> (r: usize)
        requires
            old(self).inv(),
        ensures
            advanced(*old(self), *final(self)),
            final(self)@ == old(self)@.with_shadow(old(self)@.sh.new_region(at)),
            r == old(self)@.sh.regions.len(),
    {
        let ghost was = self@;
        proof {
            reveal(Machine::inv);
        }
        let r = self.sh.new_region(at);
        assert(self@ =~= was.with_shadow(was.sh.new_region(at)));
        r
    }

    fn eval_literal(&self, h: Here, e: &Expr) -> (r: Result<Flow, Stop>)
        ensures
            (self@, flow_result(r)) == eval_literal(self.world(), h, self@, *e),
    {
        match &e.kind {
            ExprKind::Literal { char_value, float_bits } => match self.literal(
                h,
                e,
                *char_value,
                *float_bits,
            ) {
                Ok(v) => Ok(Flow::Val(v)),
                Err(s) => Err(s),
            },
            _ => Ok(Flow::Val(Value::Unit)),
        }
    }

    /// The holes of a string, rendered.
    #[verifier::spinoff_prover]
    pub(crate) fn eval_holes(
        &mut self,
        h: Here,
        hs: &'t Vec<Hole>,
    ) -> (r: Result<(Vec<(u32, u32, Vec<u8>)>, Option<Flow>), Stop>)
        requires
            old(self).inv(),
        ensures
            advanced(*old(self), *final(self)),
            (final(self)@, holes_result(r)) == eval_holes(old(self).world(), h, old(self)@, *hs, 0, Seq::empty()),
        decreases h.depth, eval_level(h.in_defer), hs, 0nat, 0nat,
    {
        proof {
            reveal(eval_holes);
        }
        let ghost start = *self;
        let ghost w = self.world();
        let mut out: Vec<(u32, u32, Vec<u8>)> = Vec::new();
        let mut i: usize = 0;
        assert(hole_views(out@) =~= Seq::empty());
        while i < hs.len()
            invariant
                start == *old(self),
                w == start.world(),
                advanced(start, *self),
                eval_holes(w, h, start@, *hs, 0, Seq::empty()) == eval_holes(
                    w,
                    h,
                    self@,
                    *hs,
                    i as nat,
                    hole_views(out@),
                ),
            decreases hs.len() - i,
        {
            proof {
                reveal(eval_holes);
            }
            let hole = &hs[i];
            let ghost before = hole_views(out@);
            match &hole.expr {
                None => {
                    let none: Vec<u8> = Vec::new();
                    out.push((hole.lo, hole.hi, none));
                    assert(none@ =~= Seq::<u8>::empty());
                    assert(hole_views(out@) =~= before.push((hole.lo, hole.hi, Seq::empty())));
                },
                Some(x) => match self.read_or_eval(h, x) {
                    Err(s) => return Err(s),
                    Ok(Flow::Val(v)) => match self.render_hole(hole, &v, x.span) {
                        Err(s) => return Err(s),
                        Ok(b) => {
                            out.push((hole.lo, hole.hi, b));
                            assert(hole_views(out@) =~= before.push((hole.lo, hole.hi, b@)));
                        },
                    },
                    Ok(f) => return Ok((out, Some(f))),
                },
            }
            i = i + 1;
        }
        Ok((out, None))
    }

    fn render_hole(&mut self, hole: &Hole, v: &Value, at: Span) -> (r: Result<Vec<u8>, Stop>)
        requires
            old(self).inv(),
        ensures
            advanced(*old(self), *final(self)),
            (final(self)@, bytes_result(r)) == rendered(
                old(self).world(),
                old(self)@,
                *hole,
                v@,
                at,
            ),
    {
        match self.show_value(v, at) {
            Err(s) => Err(s),
            Ok(b) => match &hole.spec {
                Some(spec) => self.apply_spec(spec, v, b),
                None => Ok(b),
            },
        }
    }

    #[verifier::spinoff_prover]
    pub(crate) fn eval_string(&mut self, h: Here, e: &'t Expr) -> (r: Result<Flow, Stop>)
        requires
            old(self).inv(),
        ensures
            advanced(*old(self), *final(self)),
            (final(self)@, flow_result(r)) == eval_string(old(self).world(), h, old(self)@, *e),
        decreases h.depth, eval_level(h.in_defer), e, 1nat, 0nat,
    {
        proof {
            reveal(eval_string);
        }
        match &e.kind {
            ExprKind::Str(hs) => match self.eval_holes(h, hs) {
                Err(s) => Err(s),
                Ok((_, Some(f))) => Ok(f),
                Ok((parts, None)) => {
                    let b = bytes_of(e.text.as_str());
                    match build_string(&b, &parts, e.span) {
                        Ok(v) => Ok(Flow::Val(v)),
                        Err(s) => Err(s),
                    }
                },
            },
            _ => Ok(Flow::Val(Value::Unit)),
        }
    }

    /// A path or member in value position.
    #[verifier::spinoff_prover]
    pub(crate) fn eval_named(&mut self, h: Here, e: &'t Expr) -> (r: Result<Flow, Stop>)
        requires
            old(self).inv(),
        ensures
            advanced(*old(self), *final(self)),
            (final(self)@, flow_result(r)) == eval_named(old(self).world(), h, old(self)@, *e),
        decreases h.depth, eval_level(h.in_defer), e, 1nat, 0nat,
    {
        proof {
            reveal(eval_named);
        }
        match self.place_of(h, e) {
            Err(s) => Err(s),
            Ok(Some(s)) => match self.take_value(&s, e.span) {
                Ok(v) => Ok(Flow::Val(v)),
                Err(x) => Err(x),
            },
            Ok(None) => match &e.kind {
                ExprKind::Path(_) => if self.raises_tag(h, e, e.text.as_str()) {
                    Ok(Flow::Raise(err_tag(e.text.as_str()), false))
                } else {
                    self.item_value(h, e)
                },
                ExprKind::Member(base, member) => match self.qualified_fn(h, e) {
                    Some(b) => Ok(Flow::Val(Value::Fn(b))),
                    None => match self.eval(h, base) {
                        Ok(Flow::Val(v)) => self.project(&v, member.as_str(), e.span),
                        other => other,
                    },
                },
                _ => Err(refuse(NO_ITEM, e.span)),
            },
        }
    }

    fn qualified_fn(&self, h: Here, e: &Expr) -> (r: Option<usize>)
        ensures
            opt_body(r) == qualified_fn(self.world(), h, self@, *e),
    {
        match self.kind_at(h, e) {
            Some(TyKind::Fn(..)) => {},
            _ => return None,
        }
        match &e.kind {
            ExprKind::Member(base, member) => match &base.kind {
                ExprKind::Path(name) => {
                    if contains_text(name.as_str(), ".") || self.lookup(name.as_str()).is_some() {
                        return None;
                    }
                    match find_import(&self.pkg.bodies[h.body].imports, name.as_str()) {
                        Some(target) => find_module_fn(self.pkg, target, member.as_str()),
                        None => None,
                    }
                },
                _ => None,
            },
            _ => None,
        }
    }

    fn item_value(&self, h: Here, e: &Expr) -> (r: Result<Flow, Stop>)
        ensures
            (self@, flow_result(r)) == item_value(self.world(), h, self@, *e),
    {
        let name = e.text.as_str();
        let func = match self.kind_at(h, e) {
            Some(TyKind::Fn(..)) => true,
            _ => false,
        };
        if !(func && is_simple_name(name)) {
            return Err(refuse(NO_ITEM, e.span));
        }
        let found = match find_module_fn(self.pkg, self.pkg.bodies[h.body].module, name) {
            Some(b) => Some(b),
            None => find_any_fn(self.pkg, name),
        };
        match found {
            Some(b) => Ok(Flow::Val(Value::Fn(b))),
            None => Err(refuse(NO_ITEM, e.span)),
        }
    }

    /// `x[i]`: raw memory, a string slice, a container element.
    #[verifier::spinoff_prover]
    pub(crate) fn eval_index(&mut self, h: Here, e: &'t Expr) -> (r: Result<Flow, Stop>)
        requires
            old(self).inv(),
        ensures
            advanced(*old(self), *final(self)),
            (final(self)@, flow_result(r)) == eval_index(old(self).world(), h, old(self)@, *e),
        decreases h.depth, eval_level(h.in_defer), e, 1nat, 0nat,
    {
        proof {
            reveal(eval_index);
        }
        match &e.kind {
            ExprKind::Bracket { callee, .. } => match self.kind_at(h, callee) {
                Some(TyKind::Ptr(_)) => self.raw_index_read(h, e),
                Some(TyKind::Prim(Prim::Str)) => self.eval_str_slice(h, e),
                k => {
                    let list = match k {
                        Some(TyKind::List(_)) => true,
                        _ => false,
                    };
                    match self.place_of(h, e) {
                        Err(s) => Err(s),
                        Ok(Some(s)) => match self.read_at(&s, e.span) {
                            Ok(v) => Ok(Flow::Val(v)),
                            Err(x) => Err(x),
                        },
                        Ok(None) => if list {
                            self.index_temporary(h, e)
                        } else {
                            Err(refuse(NO_INDEX, e.span))
                        },
                    }
                },
            },
            _ => Ok(Flow::Val(Value::Unit)),
        }
    }

    /// An element of a list that is held by no place.
    #[verifier::spinoff_prover]
    pub(crate) fn index_temporary(&mut self, h: Here, e: &'t Expr) -> (r: Result<Flow, Stop>)
        requires
            old(self).inv(),
        ensures
            advanced(*old(self), *final(self)),
            (final(self)@, flow_result(r)) == (match e.kind {
                ExprKind::Bracket { callee, args, one_origin } => match eval(
                    old(self).world(),
                    h,
                    old(self)@,
                    *callee,
                ) {
                    (m2, Ok(FlowView::Val(base))) => if args@.len() == 0 {
                        stops(m2, refused(NO_OPERAND@, e.span))
                    } else {
                        match eval(old(self).world(), h, m2, args[0]) {
                            (m3, Ok(FlowView::Val(ValueView::Int(i)))) => match shift_origin(
                                i,
                                one_origin,
                                e.span,
                            ) {
                                Err(x) => stops(m3, x),
                                Ok(k) => match m3.walk_read(
                                    base,
                                    seq![PStepView::ListIdx { index: k, span: args[0].span }],
                                    0,
                                    e.span,
                                ) {
                                    Ok(v) => val(m3, v),
                                    Err(x) => stops(m3, x),
                                },
                            },
                            (m3, Ok(FlowView::Val(_))) => stops(
                                m3,
                                refused(NO_INT_INDEX@, e.span),
                            ),
                            r => r,
                        }
                    },
                    r => r,
                },
                _ => unit(old(self)@),
            }),
        decreases h.depth, eval_level(h.in_defer), e, 0nat, 0nat,
    {
        match &e.kind {
            ExprKind::Bracket { callee, args, one_origin } => match self.eval(h, callee) {
                Ok(Flow::Val(base)) => {
                    if args.len() == 0 {
                        return Err(refuse(NO_OPERAND, e.span));
                    }
                    match self.eval(h, &args[0]) {
                        Ok(Flow::Val(Value::Int(i))) => match shifted_index(i, *one_origin, e.span) {
                            Err(x) => Err(x),
                            Ok(k) => {
                                let mut path: Vec<PStep> = Vec::new();
                                path.push(PStep::ListIdx { index: k, span: args[0].span });
                                assert(step_views(path@) =~= seq![
                                    PStepView::ListIdx { index: k, span: args[0].span },
                                ]);
                                match self.walk_read(base, &path, 0, e.span) {
                                    Ok(v) => Ok(Flow::Val(v)),
                                    Err(x) => Err(x),
                                }
                            },
                        },
                        Ok(Flow::Val(_)) => Err(refuse(NO_INT_INDEX, e.span)),
                        other => other,
                    }
                },
                other => other,
            },
            _ => Ok(Flow::Val(Value::Unit)),
        }
    }

    #[verifier::spinoff_prover]
    pub(crate) fn eval_tuple(&mut self, h: Here, e: &'t Expr) -> (r: Result<Flow, Stop>)
        requires
            old(self).inv(),
        ensures
            advanced(*old(self), *final(self)),
            (final(self)@, flow_result(r)) == eval_tuple(old(self).world(), h, old(self)@, *e),
        decreases h.depth, eval_level(h.in_defer), e, 1nat, 0nat,
    {
        proof {
            reveal(eval_tuple);
        }
        match &e.kind {
            ExprKind::Tuple(es) => match self.eval_exprs(h, es) {
                Err(s) => Err(s),
                Ok(Several::Leaves(f)) => Ok(f),
                Ok(Several::All(vs)) => {
                    let fs = numbered(vs);
                    proof {
                        lemma_named(fs);
                    }
                    Ok(Flow::Val(Value::Struct(fs)))
                },
            },
            _ => Ok(Flow::Val(Value::Unit)),
        }
    }

    #[verifier::spinoff_prover]
    pub(crate) fn eval_struct(&mut self, h: Here, e: &'t Expr) -> (r: Result<Flow, Stop>)
        requires
            old(self).inv(),
        ensures
            advanced(*old(self), *final(self)),
            (final(self)@, flow_result(r)) == eval_struct(old(self).world(), h, old(self)@, *e),
        decreases h.depth, eval_level(h.in_defer), e, 1nat, 0nat,
    {
        proof {
            reveal(eval_struct);
        }
        match &e.kind {
            ExprKind::StructLit(fs) => {
                proof {
                    lemma_fields_counted(self.world(), h, self@, *fs, 0, Seq::empty());
                }
                match self.eval_fields(h, fs) {
                    Err(s) => Err(s),
                    Ok(Several::Leaves(f)) => Ok(f),
                    Ok(Several::All(vs)) => {
                        assert(vals(vs@).len() == vs@.len());
                        let out = fielded(fs, vs);
                        proof {
                            lemma_named(out);
                        }
                        Ok(Flow::Val(Value::Struct(out)))
                    },
                }
            },
            _ => Ok(Flow::Val(Value::Unit)),
        }
    }

    #[verifier::spinoff_prover]
    pub(crate) fn eval_range(&mut self, h: Here, e: &'t Expr) -> (r: Result<Flow, Stop>)
        requires
            old(self).inv(),
        ensures
            advanced(*old(self), *final(self)),
            (final(self)@, flow_result(r)) == eval_range(old(self).world(), h, old(self)@, *e),
        decreases h.depth, eval_level(h.in_defer), e, 1nat, 0nat,
    {
        proof {
            reveal(eval_range);
        }
        match &e.kind {
            ExprKind::Range { start, end, inclusive } => {
                let first = match start {
                    Some(x) => self.eval(h, x),
                    None => match end {
                        Some(x) => self.eval(h, x),
                        None => Ok(Flow::Val(Value::Int(0))),
                    },
                };
                let a = match first {
                    Ok(Flow::Val(a)) => a,
                    other => return other,
                };
                let second = match start {
                    Some(_) => match end {
                        Some(x) => self.eval(h, x),
                        None => Ok(Flow::Val(Value::Int(0))),
                    },
                    None => Ok(Flow::Val(Value::Int(0))),
                };
                let b = match second {
                    Ok(Flow::Val(b)) => b,
                    other => return other,
                };
                match (a, b) {
                    (Value::Int(s), Value::Int(z)) => {
                        if !*inclusive {
                            return Ok(Flow::Val(Value::Range { start: s, end: z }));
                        }
                        if z == i64::MAX {
                            return Err(trap("overflow", "mem.ub.defined", e.span));
                        }
                        Ok(Flow::Val(Value::Range { start: s, end: z + 1 }))
                    },
                    _ => Err(refuse(NO_INT_RANGE, e.span)),
                }
            },
            _ => Ok(Flow::Val(Value::Unit)),
        }
    }
}

} // verus!
