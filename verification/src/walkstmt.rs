//! Statements: bindings, assignments and blocks.

use vstd::prelude::*;
use vstd::string::*;

use crate::ast::{AssignOp, Bind, Binder, Expr, PatKind, Pattern, Statement, Block as AstBlock};
use crate::cfg::{Local, Stmt, base_ok};
use crate::diag::{Code, Diagnostic, NotYet, Span, texts};
use crate::lowbind::{is_checked_int, is_raw_index, is_trapping, kind_of, opt_fields_of, ty_of};
use crate::lower::{
    lower_const, lower_local_fn, assign_place, NOTE_ASSUME, NO_ASSIGN, NO_ITEMS, assign_local,
    assume_operands, bind_const, bind_elems, bind_tuple, elem_count, elem_ty, intern_elems,
    is_trailing, lemma_none_ok, level, lower_assign, lower_binder, lower_binders, operand_texts,
    plain_binder, result_ok, unit_result, val_result, walk_block, walk_stmt, walk_stmts,
};
use crate::lowstate::{Cleanup, Lowerer, Val, ValView, lemma_val_kept, stepped};
use crate::lowuse::end_span;
use crate::place::{Base, Place, PlaceId, Proj};
use crate::text::{dec, join, joined, lit};
use crate::types::{Ty, TyKind, field_views, opt_fields};

verus! {

impl<'t> Lowerer<'t> {
    #[verifier::spinoff_prover]
    pub(crate) fn intern_elems(&mut self, base: &Place, elems: &Option<Vec<(String, Ty)>>, n: usize) -> (r:
        Vec<PlaceId>)
        requires
            old(self).inv(),
            base_ok(base@.base, old(self)@.locals.len()),
        ensures
            stepped(*old(self), *final(self)),
            (final(self)@, r@) == intern_elems(
                old(self).cx,
                old(self)@,
                base@,
                opt_fields(*elems),
                0,
                n as nat,
                Seq::empty(),
            ),
            r@.len() == n,
            forall|k: int| 0 <= k < r@.len() ==> final(self)@.places.has(#[trigger] r@[k]),
    {
        proof {
            reveal(intern_elems);
        }
        let ghost start = *self;
        let ghost ev = opt_fields(*elems);
        let mut ids: Vec<PlaceId> = Vec::new();
        assert(ids@ =~= Seq::empty());
        let mut i: usize = 0;
        while i < n
            invariant
                i <= n,
                ids@.len() == i,
                ev == opt_fields(*elems),
                base_ok(base@.base, start@.locals.len()),
                start == *old(self),
                stepped(start, *self),
                forall|k: int| 0 <= k < ids@.len() ==> self@.places.has(#[trigger] ids@[k]),
                intern_elems(start.cx, start@, base@, ev, 0, n as nat, Seq::empty())
                    == intern_elems(start.cx, self@, base@, ev, i as nat, n as nat, ids@),
            decreases n - i,
        {
            proof {
                reveal(intern_elems);
            }
            let ghost before = self@;
            let ghost was = ids@;
            let ty = ty_of_elem(elems, i);
            let copy = self.cx.tabs.opt_copy(ty);
            let index = dec(i as u64);
            let id = self.intern(base.field(index.as_str()), copy);
            ids.push(id);
            i = i + 1;
            proof {
                assert forall|k: int| 0 <= k < ids@.len() implies self@.places.has(
                    #[trigger] ids@[k],
                ) by {
                    if k < was.len() {
                        assert(before.places.has(was[k]));
                    }
                }
            }
        }
        ids
    }

    /// `let (x, y) = p` where `p` names a place.
    #[verifier::spinoff_prover]
    pub(crate) fn bind_tuple_from_place(&mut self, subs: &'t Vec<Pattern>, base: PlaceId, ty: Option<Ty>)
        requires
            old(self).inv(),
            old(self)@.places.has(base),
        ensures
            stepped(*old(self), *final(self)),
            final(self)@ == bind_tuple(old(self).cx, old(self)@, *subs, base, ty),
        decreases subs, 0nat,
    {
        let ghost start = *self;
        let elems = match ty {
            Some(t) => self.cx.tabs.fields_of(t),
            None => None,
        };
        let ghost ev = opt_fields(elems);
        assert(ev == opt_fields_of(start.cx, ty));
        let bp = self.places.get(base).duplicate();
        assert(base_ok(self@.places.places[base.0 as int].base, self@.locals.len()));
        let n: usize = match &elems {
            Some(es) => if es.len() > subs.len() {
                es.len()
            } else {
                subs.len()
            },
            None => subs.len(),
        };
        assert(n as nat == elem_count(subs@.len(), ev));
        let ids = self.intern_elems(&bp, &elems, n);
        let ghost mid = self@;
        let mut i: usize = 0;
        while i < subs.len()
            invariant
                i <= subs.len(),
                ids@.len() == n,
                n >= subs.len(),
                ev == opt_fields(elems),
                start == *old(self),
                stepped(start, *self),
                mid.keeps_ids(self@),
                forall|k: int| 0 <= k < ids@.len() ==> mid.places.has(#[trigger] ids@[k]),
                bind_elems(start.cx, mid, *subs, 0, ids@, ev) == bind_elems(
                    start.cx,
                    self@,
                    *subs,
                    i as nat,
                    ids@,
                    ev,
                ),
            decreases subs.len() - i,
        {
            let sub = &subs[i];
            let ep = ids[i];
            assert(mid.places.has(ids@[i as int]));
            match &sub.kind {
                PatKind::Wildcard => {},
                PatKind::Tuple(inner) => {
                    let ety = ty_of_elem(&elems, i);
                    self.bind_tuple_from_place(inner, ep, ety);
                },
                _ => {
                    if self.places.is_copy(ep) {
                        self.use_value(ep, sub.span);
                        proof {
                            lemma_none_ok(self@);
                        }
                        let none = Val::none();
                        self.bind_pattern_inits(sub, Some(&none));
                    } else {
                        let ghost had = self@;
                        let v = self.val_of(ep, sub.span);
                        self.pattern_move(sub.span);
                        self.use_value(ep, sub.span);
                        proof {
                            lemma_val_kept(had, self@, v@);
                        }
                        self.bind_pattern_inits(sub, Some(&v));
                    }
                },
            }
            i = i + 1;
        }
    }

    #[verifier::spinoff_prover]
    pub(crate) fn plain_binder(&mut self, d: bool, b: &'t Binder) -> (r: Result<(), NotYet>)
        requires
            old(self).inv(),
        ensures
            stepped(*old(self), *final(self)),
            (final(self)@, unit_result(r)) == plain_binder(old(self).cx, d, old(self)@, *b),
        decreases level(d), b, 0nat,
    {
        proof {
            reveal(plain_binder);
        }
        match &b.init {
            Some(x) => {
                let v = match self.eval_value(d, x) {
                    Err(n) => return Err(n),
                    Ok(v) => v,
                };
                if let Some(p) = &b.pattern {
                    self.bind_pattern_inits(p, Some(&v));
                }
            },
            None => {
                if let Some(p) = &b.pattern {
                    self.bind_pattern_inits(p, None);
                }
            },
        }
        Ok(())
    }

    #[verifier::spinoff_prover]
    pub(crate) fn lower_binder(&mut self, d: bool, b: &'t Binder) -> (r: Result<(), NotYet>)
        requires
            old(self).inv(),
        ensures
            stepped(*old(self), *final(self)),
            (final(self)@, unit_result(r)) == lower_binder(old(self).cx, d, old(self)@, *b),
        decreases level(d), b, 1nat,
    {
        proof {
            reveal(lower_binder);
        }
        if let Some(p) = &b.pattern {
            if let Some(x) = &b.init {
                if let PatKind::Tuple(subs) = &p.kind {
                    if !is_raw_index(&self.cx, x) {
                        if let Some((place, ty)) = self.as_place(d, x) {
                            self.bind_tuple_from_place(subs, place, ty);
                            return Ok(());
                        }
                    }
                }
            }
        }
        self.plain_binder(d, b)
    }

    #[verifier::spinoff_prover]
    pub(crate) fn lower_binders(&mut self, d: bool, bs: &'t Vec<Binder>) -> (r: Result<(), NotYet>)
        requires
            old(self).inv(),
        ensures
            stepped(*old(self), *final(self)),
            (final(self)@, unit_result(r)) == lower_binders(old(self).cx, d, old(self)@, *bs, 0),
        decreases level(d), bs, 0nat,
    {
        proof {
            reveal(lower_binders);
        }
        let ghost start = *self;
        let mut i: usize = 0;
        while i < bs.len()
            invariant
                i <= bs.len(),
                start == *old(self),
                stepped(start, *self),
                lower_binders(start.cx, d, start@, *bs, 0) == lower_binders(
                    start.cx,
                    d,
                    self@,
                    *bs,
                    i as nat,
                ),
            decreases bs.len() - i,
        {
            proof {
                reveal(lower_binders);
            }
            match self.lower_binder(d, &bs[i]) {
                Err(n) => return Err(n),
                Ok(_) => {},
            }
            i = i + 1;
        }
        Ok(())
    }

    #[verifier::spinoff_prover]
    pub(crate) fn bind_const(&mut self, b: &Bind, init: Option<&Val>)
        requires
            old(self).inv(),
            init matches Some(v) ==> old(self)@.val_ok(v@),
        ensures
            stepped(*old(self), *final(self)),
            final(self)@ == bind_const(
                old(self).cx,
                old(self)@,
                *b,
                match init {
                    Some(v) => Some(v@),
                    None => None,
                },
            ),
    {
        let ghost start = self@;
        let (l, place) = self.declare_bind(b);
        match init {
            Some(v) => {
                self.push(Stmt::Init { place, span: b.span });
                proof {
                    lemma_val_kept(start, self@, v@);
                }
                self.hold(l.0, &v.sites, b.span);
            },
            None => {
                self.push(Stmt::Uninit { place, span: b.span });
            },
        }
    }

    #[verifier::spinoff_prover]
    pub(crate) fn assign_local(&mut self, l: u32, place: PlaceId, v: &Val, at: Span)
        requires
            old(self).inv(),
            old(self)@.val_ok(v@),
            old(self)@.places.has(place),
            l < old(self)@.locals.len(),
        ensures
            stepped(*old(self), *final(self)),
            final(self)@ == assign_local(old(self)@, l, place, v@, at),
    {
        let ghost start = *self;
        let held = self.sites_of(place);
        let (steps, field) = {
            let p = self.places.get(place);
            let field = if p.proj.len() == 1 {
                assert(self@.places.at(place).proj[0] == p.proj@[0]@);
                match &p.proj[0] {
                    Proj::Field(f) => Some(f.clone()),
                    _ => None,
                }
            } else {
                None
            };
            (p.proj.len(), field)
        };
        if steps > 0 {
            if let Some(r) = v.region {
                self.set_moved(r);
                if held.len() > 0 {
                    assert(held@[0].0.0 < start@.sites.len());
                    let target = self.site_region(held[0].0);
                    self.set_parent(r, target);
                }
                if let Some(f) = field {
                    self.put_field(l, f.as_str(), r);
                }
            }
            proof {
                lemma_val_kept(start@, self@, v@);
            }
            if held.len() > 0 {
                assert(held@[0].0.0 < start@.sites.len());
                let target = self.site_region(held[0].0);
                assert(self@.sites[held@[0].0.0 as int] == self.sites@[held@[0].0.0 as int]@);
                let cspan = self.sites[held[0].0.0 as usize].span;
                self.demand_store(&v.sites, target, Some(cspan), at);
            }
        } else if let Some(r) = v.region {
            let rebound = match self.region_local[l as usize] {
                Some(Some(prev)) => prev != r,
                _ => false,
            };
            if rebound {
                self.set_region_local(l, None);
            } else {
                self.set_region_local(l, Some(r));
            }
        }
        proof {
            lemma_val_kept(start@, self@, v@);
        }
        self.hold(l, &v.sites, at);
    }

    #[verifier::spinoff_prover]
    pub(crate) fn assign_place(
        &mut self,
        p: PlaceId,
        v: &Val,
        span: Span,
        op: AssignOp,
        target: &'t Expr,
    )
        requires
            old(self).inv(),
            old(self)@.places.has(p),
            old(self)@.val_ok(v@),
        ensures
            stepped(*old(self), *final(self)),
            final(self)@ == assign_place(old(self).cx, old(self)@, p, v@, span, op, *target),
    {
        let ghost start = self@;
        match op {
            AssignOp::Plain => {
                self.emit_init(p, target.span);
                proof {
                    lemma_val_kept(start, self@, v@);
                }
                assert(base_ok(self@.places.places[p.0 as int].base, self@.locals.len()));
                let local = match &self.places.get(p).base {
                    Base::Local(l) => Some(*l),
                    Base::Global(..) => None,
                };
                match local {
                    Some(l) => self.assign_local(l, p, v, target.span),
                    None => self.demand_static(&v.sites, target.span),
                }
            },
            AssignOp::Compound(b) => {
                self.emit_mutate(p, target.span);
                if is_trapping(b) && is_checked_int(&self.cx, target) {
                    self.push(Stmt::CheckedOp { span });
                    self.set_trap();
                }
            },
        }
    }

    #[verifier::spinoff_prover]
    pub(crate) fn lower_assign(&mut self, d: bool, s: &'t Statement) -> (r: Result<(), NotYet>)
        requires
            old(self).inv(),
        ensures
            stepped(*old(self), *final(self)),
            (final(self)@, unit_result(r)) == lower_assign(old(self).cx, d, old(self)@, *s),
        decreases level(d), s, 0nat,
    {
        proof {
            reveal(lower_assign);
        }
        match s {
            Statement::Assign { span, op, place: target, value } => {
                let v = match self.eval_value(d, value) {
                    Err(n) => return Err(n),
                    Ok(v) => v,
                };
                let ghost had = self@;
                let plain = match op {
                    AssignOp::Plain => true,
                    AssignOp::Compound(_) => false,
                };
                if is_raw_index(&self.cx, target) {
                    if !plain {
                        match self.raw_index(d, target, false) {
                            Err(n) => return Err(n),
                            Ok(_) => {},
                        }
                    }
                    return self.raw_index(d, target, true);
                }
                match self.as_place(d, target) {
                    None => Err(NotYet { construct: NO_ASSIGN, span: target.span }),
                    Some((p, _)) => {
                        proof {
                            lemma_val_kept(had, self@, v@);
                        }
                        self.assign_place(p, &v, *span, *op, target);
                        Ok(())
                    },
                }
            },
            _ => Ok(()),
        }
    }

    #[verifier::spinoff_prover]
    pub(crate) fn assume_operands(&mut self, d: bool, es: &'t Vec<Expr>) -> (r: Result<(), NotYet>)
        requires
            old(self).inv(),
        ensures
            stepped(*old(self), *final(self)),
            (final(self)@, unit_result(r)) == assume_operands(old(self).cx, d, old(self)@, *es, 0),
        decreases level(d), es, 0nat,
    {
        proof {
            reveal(assume_operands);
        }
        let ghost start = *self;
        let mut i: usize = 0;
        while i < es.len()
            invariant
                i <= es.len(),
                start == *old(self),
                stepped(start, *self),
                assume_operands(start.cx, d, start@, *es, 0) == assume_operands(
                    start.cx,
                    d,
                    self@,
                    *es,
                    i as nat,
                ),
            decreases es.len() - i,
        {
            proof {
                reveal(assume_operands);
            }
            let x = &es[i];
            match self.read_operand(d, x) {
                Err(n) => return Err(n),
                Ok(_) => {},
            }
            match kind_of(&self.cx, ty_of(x)) {
                Some(TyKind::Ptr(_)) | Some(TyKind::Error) | Some(TyKind::Never) => {},
                _ => {
                    let shown = self.cx.tabs.opt_render(ty_of(x));
                    self.report(
                        Diagnostic::error(
                            Code::E1304,
                            x.span,
                            lit(
                                "`assume noalias` takes raw pointers, but this operand is `",
                            ).concat(shown.as_str()).concat("`"),
                        ).with_label(lit("not a raw pointer")).with_note(lit(NOTE_ASSUME)),
                    );
                },
            }
            i = i + 1;
        }
        Ok(())
    }

    #[verifier::spinoff_prover]
    pub(crate) fn lower_const(&mut self, d: bool, s: &'t Statement) -> (r: Result<Val, NotYet>)
        requires
            old(self).inv(),
        ensures
            stepped(*old(self), *final(self)),
            result_ok(final(self)@, r),
            (final(self)@, val_result(r)) == lower_const(old(self).cx, d, old(self)@, *s),
        decreases level(d), s, 0nat,
    {
        proof {
            reveal(lower_const);
        }
        if let Statement::Const { name, init } = s {
            match init {
                Some(x) => {
                    let v = match self.eval_value(d, x) {
                        Err(n) => return Err(n),
                        Ok(v) => v,
                    };
                    if let Some(b) = name {
                        self.bind_const(b, Some(&v));
                    }
                },
                None => {
                    if let Some(b) = name {
                        self.bind_const(b, None);
                    }
                },
            }
        }
        proof {
            lemma_none_ok(self@);
        }
        Ok(Val::none())
    }

    #[verifier::spinoff_prover]
    pub(crate) fn lower_local_fn(&mut self, d: bool, s: &'t Statement) -> (r: Result<Val, NotYet>)
        requires
            old(self).inv(),
        ensures
            stepped(*old(self), *final(self)),
            result_ok(final(self)@, r),
            (final(self)@, val_result(r)) == lower_local_fn(old(self).cx, d, old(self)@, *s),
        decreases level(d), s, 0nat,
    {
        proof {
            reveal(lower_local_fn);
        }
        if let Statement::Fn { span, name, params, body } = s {
            self.push_scope();
            self.declare_inits(params);
            if let Some(b) = body {
                match self.walk_block(d, b, false) {
                    Err(n) => return Err(n),
                    Ok(_) => {},
                }
            }
            match self.close_scope(d, end_span(*span)) {
                Err(n) => return Err(n),
                Ok(_) => {},
            }
            if let Some(b) = name {
                let _ = self.declare_init(b);
            }
        }
        proof {
            lemma_none_ok(self@);
        }
        Ok(Val::none())
    }

    #[verifier::spinoff_prover]
    pub(crate) fn walk_stmt(&mut self, d: bool, s: &'t Statement) -> (r: Result<Val, NotYet>)
        requires
            old(self).inv(),
        ensures
            stepped(*old(self), *final(self)),
            result_ok(final(self)@, r),
            (final(self)@, val_result(r)) == walk_stmt(old(self).cx, d, old(self)@, *s),
        decreases level(d), s, 1nat,
    {
        proof {
            reveal(walk_stmt);
        }
        match s {
            Statement::Expr(e) => return self.eval_value(d, e),
            Statement::Bind(bs) => match self.lower_binders(d, bs) {
                Err(n) => return Err(n),
                Ok(_) => {},
            },
            Statement::Const { .. } => return self.lower_const(d, s),
            Statement::Assign { .. } => match self.lower_assign(d, s) {
                Err(n) => return Err(n),
                Ok(_) => {},
            },
            Statement::Defer { expr, on_error } => {
                self.oblige(Cleanup::Defer(expr, *on_error));
            },
            Statement::Assume { span, exprs } => {
                self.require_unsafe("`assume noalias`", *span);
                match self.assume_operands(d, exprs) {
                    Err(n) => return Err(n),
                    Ok(_) => {},
                }
                let ops = join_operands(exprs);
                self.push(Stmt::Assume { ops, span: *span });
            },
            Statement::Fn { .. } => return self.lower_local_fn(d, s),
            Statement::Item { span } => return Err(NotYet { construct: NO_ITEMS, span: *span }),
            Statement::Empty => {},
        }
        proof {
            lemma_none_ok(self@);
        }
        Ok(Val::none())
    }

    #[verifier::spinoff_prover]
    pub(crate) fn walk_stmts(&mut self, d: bool, ss: &'t Vec<Statement>, trailing: Option<Span>) -> (r: Result<
        Val,
        NotYet,
    >)
        requires
            old(self).inv(),
        ensures
            stepped(*old(self), *final(self)),
            result_ok(final(self)@, r),
            (final(self)@, val_result(r)) == walk_stmts(
                old(self).cx,
                d,
                old(self)@,
                *ss,
                0,
                trailing,
                ValView::none(),
            ),
        decreases level(d), ss, 0nat,
    {
        proof {
            reveal(walk_stmts);
        }
        let ghost start = *self;
        let mut acc = Val::none();
        proof {
            lemma_none_ok(self@);
        }
        let mut i: usize = 0;
        while i < ss.len()
            invariant
                i <= ss.len(),
                start == *old(self),
                stepped(start, *self),
                self@.val_ok(acc@),
                walk_stmts(start.cx, d, start@, *ss, 0, trailing, ValView::none()) == walk_stmts(
                    start.cx,
                    d,
                    self@,
                    *ss,
                    i as nat,
                    trailing,
                    acc@,
                ),
            decreases ss.len() - i,
        {
            proof {
                reveal(walk_stmts);
            }
            let ghost before = self@;
            let v = match self.walk_stmt(d, &ss[i]) {
                Err(n) => return Err(n),
                Ok(v) => v,
            };
            proof {
                lemma_val_kept(before, self@, acc@);
            }
            let value = match (&ss[i], trailing) {
                (Statement::Expr(e), Some(t)) => e.span == t,
                _ => false,
            };
            assert(value == is_trailing(ss[i as int], trailing));
            if value {
                acc = v;
            }
            i = i + 1;
        }
        Ok(acc)
    }

    /// A block in its own scope.
    #[verifier::spinoff_prover]
    pub(crate) fn walk_block(&mut self, d: bool, b: &'t AstBlock, want_value: bool) -> (r: Result<Val, NotYet>)
        requires
            old(self).inv(),
        ensures
            stepped(*old(self), *final(self)),
            result_ok(final(self)@, r),
            (final(self)@, val_result(r)) == walk_block(
                old(self).cx,
                d,
                old(self)@,
                *b,
                want_value,
            ),
        decreases level(d), b, 0nat,
    {
        proof {
            reveal(walk_block);
        }
        let trailing = if want_value {
            b.trailing
        } else {
            None
        };
        self.push_scope();
        let v = match self.walk_stmts(d, &b.stmts, trailing) {
            Err(n) => return Err(n),
            Ok(v) => v,
        };
        let ghost had = self@;
        match self.close_scope(d, end_span(b.span)) {
            Err(n) => return Err(n),
            Ok(_) => {},
        }
        proof {
            lemma_val_kept(had, self@, v@);
        }
        Ok(v)
    }
}

fn ty_of_elem(elems: &Option<Vec<(String, Ty)>>, i: usize) -> (r: Option<Ty>)
    ensures
        r == elem_ty(opt_fields(*elems), i as nat),
{
    match elems {
        Some(es) => if i < es.len() {
            assert(field_views(es@)[i as int] == (es@[i as int].0@, es@[i as int].1));
            Some(es[i].1)
        } else {
            None
        },
        None => None,
    }
}

fn join_operands(es: &Vec<Expr>) -> (r: String)
    ensures
        r@ == joined(operand_texts(es@), ", "@),
{
    let mut texts: Vec<String> = Vec::new();
    let mut i: usize = 0;
    while i < es.len()
        invariant
            i <= es.len(),
            crate::diag::texts(texts@) == operand_texts(es@).take(i as int),
        decreases es.len() - i,
    {
        let ghost was = crate::diag::texts(texts@);
        texts.push(es[i].text.clone());
        assert(crate::diag::texts(texts@) =~= was.push(es@[i as int].text@));
        i = i + 1;
        assert(crate::diag::texts(texts@) =~= operand_texts(es@).take(i as int));
    }
    assert(crate::diag::texts(texts@) =~= operand_texts(es@));
    join(&texts, ", ")
}

} // verus!
