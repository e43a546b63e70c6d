//! Places, operands and plain expressions of the walk, and the exits.

use vstd::prelude::*;
use vstd::string::*;

use crate::ast::{Arg, Block, CastKind, Expr, ExprKind, Hole};
use crate::cfg::{BlockId, RegionKind, Stmt, base_ok};
use crate::diag::{NotYet, Span};
use crate::lowbind::{
    UNNAMED, bridge_of, is_raw_index, kind_of, opt_fields_of, parse_strategy, ty_of,
};
use crate::lower::{
    NO_DYN_PLACE, NO_FROM_END, NO_INLINE, NO_SHAPE, as_place, close_scope, drops_in, emit_defers,
    eval_args, eval_cast, eval_endpoint, eval_merged, eval_named, eval_range, eval_return, eval_try,
    eval_value, exit_level, leave_to, left_scope, lemma_merge_ok, lemma_none_ok, level, pending,
    pending_in, raw_index, read_holes, read_operand, read_operands, result_ok, run_pending,
    unit_result, use_operand, val_result,
};
use crate::lowstate::{
    Cleanup, Lowerer, Scope, Val, ValView, cells_in, lemma_val_kept, loops_in, scope_in, scopes_in,
    stepped,
};
use crate::place::{Base, Place, PlaceId, Proj, ProjView};
use crate::types::{ItemSig, TableRef, Ty, TyKind, opt_fields};

verus! {

fn pend_scope<'t>(c: &Vec<Cleanup<'t>>, on_error: bool, out: &mut Vec<Cleanup<'t>>, locals: Ghost<nat>)
    requires
        drops_in(c@, locals@),
        drops_in(old(out)@, locals@),
    ensures
        final(out)@ == old(out)@ + pending_in(c@, c@.len(), on_error),
        drops_in(final(out)@, locals@),
{
    let ghost before = out@;
    let mut n: usize = c.len();
    assert(out@ + pending_in(c@, n as nat, on_error) =~= before + pending_in(
        c@,
        c@.len(),
        on_error,
    ));
    while n > 0
        invariant
            n <= c.len(),
            drops_in(c@, locals@),
            drops_in(out@, locals@),
            out@ + pending_in(c@, n as nat, on_error) == before + pending_in(
                c@,
                c@.len(),
                on_error,
            ),
        decreases n,
    {
        let ghost was = out@;
        let item = c[n - 1];
        let skip = match item {
            Cleanup::Defer(_, is_err) => is_err && !on_error,
            Cleanup::DropLocal(_) => false,
        };
        if !skip {
            out.push(item);
        }
        n = n - 1;
        assert(out@ + pending_in(c@, n as nat, on_error) =~= was + pending_in(
            c@,
            (n + 1) as nat,
            on_error,
        ));
    }
    assert(out@ =~= before + pending_in(c@, c@.len(), on_error));
}

impl<'t> Lowerer<'t> {
    /// The obligations of the scopes from `depth` on, innermost first.
    #[verifier::spinoff_prover]
    pub(crate) fn pending_from(&self, depth: usize, on_error: bool) -> (r: Vec<Cleanup<'t>>)
        requires
            self.inv(),
        ensures
            r@ == pending(self@.scopes, self@.scopes.len(), depth as nat, on_error),
            drops_in(r@, self@.locals.len()),
    {
        let mut out: Vec<Cleanup<'t>> = Vec::new();
        let ghost st = self@;
        let mut n: usize = self.scopes.len();
        assert(out@ + pending(st.scopes, n as nat, depth as nat, on_error) =~= pending(
            st.scopes,
            st.scopes.len(),
            depth as nat,
            on_error,
        ));
        while n > depth
            invariant
                n <= self.scopes.len(),
                st == self@,
                self.inv(),
                drops_in(out@, st.locals.len()),
                out@ + pending(st.scopes, n as nat, depth as nat, on_error) == pending(
                    st.scopes,
                    st.scopes.len(),
                    depth as nat,
                    on_error,
                ),
            decreases n,
        {
            let ghost was = out@;
            proof {
                reveal(scopes_in);
                assert(scope_in(st.scopes[n - 1], st.locals.len()));
                assert(st.scopes[n - 1] == self.scopes@[n - 1]@);
            }
            pend_scope(&self.scopes[n - 1].cleanup, on_error, &mut out, Ghost(st.locals.len()));
            n = n - 1;
            assert(out@ + pending(st.scopes, n as nat, depth as nat, on_error) =~= was + pending(
                st.scopes,
                (n + 1) as nat,
                depth as nat,
                on_error,
            ));
        }
        assert(out@ =~= pending(st.scopes, st.scopes.len(), depth as nat, on_error));
        out
    }

    #[verifier::spinoff_prover]
    pub(crate) fn run_pending(&mut self, list: &Vec<Cleanup<'t>>) -> (r: Result<(), NotYet>)
        requires
            old(self).inv(),
            drops_in(list@, old(self)@.locals.len()),
        ensures
            stepped(*old(self), *final(self)),
            (final(self)@, unit_result(r)) == run_pending(old(self).cx, old(self)@, list@, 0),
        decreases 2nat, None::<nat>, 0nat,
    {
        proof {
            reveal(run_pending);
        }
        let ghost start = *self;
        let mut i: usize = 0;
        while i < list.len()
            invariant
                i <= list.len(),
                start == *old(self),
                stepped(start, *self),
                drops_in(list@, start@.locals.len()),
                run_pending(start.cx, start@, list@, 0) == run_pending(
                    start.cx,
                    self@,
                    list@,
                    i as nat,
                ),
            decreases list.len() - i,
        {
            proof {
                reveal(run_pending);
            }
            match list[i] {
                Cleanup::Defer(e, _) => {
                    match self.eval_value(true, e) {
                        Err(n) => return Err(n),
                        Ok(_) => {},
                    }
                },
                Cleanup::DropLocal(l) => {
                    let place = self.intern_local(l, false);
                    assert(self@.locals[l.0 as int] == self.locals@[l.0 as int]@);
                    let span = self.locals[l.0 as usize].span;
                    self.push(Stmt::Drop { place, span });
                },
            }
            i = i + 1;
        }
        Ok(())
    }

    #[verifier::spinoff_prover]
    pub(crate) fn emit_defers(&mut self, d: bool, depth: usize, on_error: bool) -> (r: Result<(), NotYet>)
        requires
            old(self).inv(),
        ensures
            stepped(*old(self), *final(self)),
            (final(self)@, unit_result(r)) == emit_defers(
                old(self).cx,
                d,
                old(self)@,
                depth as nat,
                on_error,
            ),
        decreases exit_level(d), None::<nat>, 0nat,
    {
        proof {
            reveal(emit_defers);
        }
        if d {
            Ok(())
        } else {
            let list = self.pending_from(depth, on_error);
            self.run_pending(&list)
        }
    }

    /// Leave the innermost scope: its obligations run, its first-class
    /// regions are freed.
    #[verifier::spinoff_prover]
    pub(crate) fn close_scope(&mut self, d: bool, at: Span) -> (r: Result<(), NotYet>)
        requires
            old(self).inv(),
            old(self)@.scopes.len() > 0,
        ensures
            left_scope(*old(self), *final(self)),
            (final(self)@, unit_result(r)) == close_scope(old(self).cx, d, old(self)@, at),
        decreases exit_level(d), None::<nat>, 1nat,
    {
        proof {
            reveal(close_scope);
        }
        let depth: usize = self.scopes.len() - 1;
        let r = self.emit_defers(d, depth, false);
        self.close_rest(at);
        r
    }

    #[verifier::spinoff_prover]
    pub(crate) fn leave_to(&mut self, d: bool, depth: usize, to: BlockId) -> (r: Result<Val, NotYet>)
        requires
            old(self).inv(),
            to.0 < old(self)@.blocks.len(),
        ensures
            stepped(*old(self), *final(self)),
            result_ok(final(self)@, r),
            (final(self)@, val_result(r)) == leave_to(
                old(self).cx,
                d,
                old(self)@,
                depth as nat,
                to,
            ),
        decreases exit_level(d), None::<nat>, 1nat,
    {
        proof {
            reveal(leave_to);
        }
        match self.emit_defers(d, depth, false) {
            Err(n) => return Err(n),
            Ok(_) => {},
        }
        let cur = self.cur;
        self.goto(cur, to);
        let dead = self.new_block();
        self.at(dead);
        proof {
            lemma_none_ok(self@);
        }
        Ok(Val::none())
    }

    /// The place an expression names, if it names one.
    #[verifier::spinoff_prover]
    pub(crate) fn as_place(&mut self, d: bool, e: &'t Expr) -> (r: Option<(PlaceId, Option<Ty>)>)
        requires
            old(self).inv(),
        ensures
            stepped(*old(self), *final(self)),
            (final(self)@, r) == as_place(old(self).cx, d, old(self)@, *e),
            r matches Some((p, _)) ==> final(self)@.places.has(p),
        decreases level(d), e, 0nat,
    {
        proof {
            reveal(as_place);
        }
        let ghost start = *self;
        match &e.kind {
            ExprKind::Paren(inner, _) => self.as_place(d, inner),
            ExprKind::Path(name) => {
                match self.lookup(name.as_str()) {
                    Some(l) => {
                        let ty = self.tys[l.0 as usize];
                        let copy = self.cx.tabs.opt_copy(ty);
                        let p = self.intern_local(l, copy);
                        Some((p, ty))
                    },
                    None => {
                        let module = self.cx.module;
                        match self.cx.tabs.sigs.get(module, name.as_str()) {
                            Some(ItemSig::Global(g)) => {
                                let ty = match g.ty {
                                    Some(id) => Some(Ty { table: TableRef::Sig, id }),
                                    None => None,
                                };
                                let copy = self.cx.tabs.opt_copy(ty);
                                let place = Place {
                                    base: Base::Global(module, name.clone()),
                                    proj: Vec::new(),
                                };
                                assert(place@.proj =~= Seq::<ProjView>::empty());
                                let p = self.intern(place, copy);
                                Some((p, ty))
                            },
                            _ => None,
                        }
                    },
                }
            },
            ExprKind::Member(base, member) => {
                let (bid, bty) = match self.as_place(d, base) {
                    Some(x) => x,
                    None => return None,
                };
                let bp = self.places.get(bid).duplicate();
                assert(base_ok(self@.places.places[bid.0 as int].base, self@.locals.len()));
                let fields = match bty {
                    Some(t) => self.cx.tabs.fields_of(t),
                    None => None,
                };
                assert(opt_fields(fields) == opt_fields_of(start.cx, bty));
                let found = match &fields {
                    Some(fs) => self.intern_fields(&bp, fs, member.as_str()),
                    None => None,
                };
                let fty = match found {
                    Some(t) => Some(t),
                    None => ty_of(e),
                };
                let copy = self.cx.tabs.opt_copy(fty);
                let p = self.intern(bp.field(member.as_str()), copy);
                Some((p, fty))
            },
            ExprKind::Bracket { callee, args, .. } => {
                let (bid, bty) = match self.as_place(d, callee) {
                    Some(x) => x,
                    None => return None,
                };
                let pool = match kind_of(&self.cx, bty) {
                    Some(TyKind::Pool(_)) => true,
                    Some(TyKind::List(_)) => false,
                    _ => return None,
                };
                proof {
                    lemma_none_ok(self@);
                }
                match self.eval_merged(d, args, Val::none()) {
                    Err(_) => return None,
                    Ok(_) => {},
                }
                let place = self.places.get(bid).step(Proj::Opaque);
                assert(base_ok(self@.places.places[bid.0 as int].base, self@.locals.len()));
                let ety = ty_of(e);
                let copy = self.cx.tabs.opt_copy(ety);
                let pid = self.intern(place, copy);
                if pool {
                    self.push(Stmt::HandleCheck { place: pid, span: e.span });
                } else {
                    self.push(Stmt::CheckedOp { span: e.span });
                }
                self.set_trap();
                Some((pid, ety))
            },
            _ => None,
        }
    }

    #[verifier::spinoff_prover]
    pub(crate) fn eval_merged(&mut self, d: bool, es: &'t Vec<Expr>, first: Val) -> (r: Result<Val, NotYet>)
        requires
            old(self).inv(),
            old(self)@.val_ok(first@),
        ensures
            stepped(*old(self), *final(self)),
            result_ok(final(self)@, r),
            (final(self)@, val_result(r)) == eval_merged(
                old(self).cx,
                d,
                old(self)@,
                *es,
                0,
                first@,
            ),
        decreases level(d), es, 0nat,
    {
        proof {
            reveal(eval_merged);
        }
        let ghost start = *self;
        let ghost v0 = first@;
        let mut acc = first;
        let mut i: usize = 0;
        while i < es.len()
            invariant
                i <= es.len(),
                start == *old(self),
                v0 == first@,
                stepped(start, *self),
                self@.val_ok(acc@),
                eval_merged(start.cx, d, start@, *es, 0, v0) == eval_merged(
                    start.cx,
                    d,
                    self@,
                    *es,
                    i as nat,
                    acc@,
                ),
            decreases es.len() - i,
        {
            proof {
                reveal(eval_merged);
            }
            let ghost before = self@;
            match self.eval_value(d, &es[i]) {
                Err(n) => return Err(n),
                Ok(v) => {
                    proof {
                        lemma_val_kept(before, self@, acc@);
                        lemma_merge_ok(self@, acc@, v@);
                    }
                    acc.merge(v);
                },
            }
            i = i + 1;
        }
        Ok(acc)
    }

    #[verifier::spinoff_prover]
    pub(crate) fn read_operand(&mut self, d: bool, e: &'t Expr) -> (r: Result<Val, NotYet>)
        requires
            old(self).inv(),
        ensures
            stepped(*old(self), *final(self)),
            result_ok(final(self)@, r),
            (final(self)@, val_result(r)) == read_operand(old(self).cx, d, old(self)@, *e),
        decreases level(d), e, 4nat,
    {
        proof {
            reveal(read_operand);
        }
        match self.as_place(d, e) {
            Some((p, _)) => {
                self.emit_read(p, e.span);
                proof {
                    lemma_none_ok(self@);
                }
                Ok(Val::none())
            },
            None => self.eval_value(d, e),
        }
    }

    #[verifier::spinoff_prover]
    pub(crate) fn read_operands(&mut self, d: bool, es: &'t Vec<Expr>) -> (r: Result<(), NotYet>)
        requires
            old(self).inv(),
        ensures
            stepped(*old(self), *final(self)),
            (final(self)@, unit_result(r)) == read_operands(old(self).cx, d, old(self)@, *es, 0),
        decreases level(d), es, 0nat,
    {
        proof {
            reveal(read_operands);
        }
        let ghost start = *self;
        let mut i: usize = 0;
        while i < es.len()
            invariant
                i <= es.len(),
                start == *old(self),
                stepped(start, *self),
                read_operands(start.cx, d, start@, *es, 0) == read_operands(
                    start.cx,
                    d,
                    self@,
                    *es,
                    i as nat,
                ),
            decreases es.len() - i,
        {
            proof {
                reveal(read_operands);
            }
            match self.read_operand(d, &es[i]) {
                Err(n) => return Err(n),
                Ok(_) => {},
            }
            i = i + 1;
        }
        Ok(())
    }

    /// Consume a named place: a copy, or a move with what it holds.
    #[verifier::spinoff_prover]
    pub(crate) fn consume(&mut self, p: PlaceId, at: Span) -> (v: Val)
        requires
            old(self).inv(),
            old(self)@.places.has(p),
        ensures
            stepped(*old(self), *final(self)),
            final(self)@.val_ok(v@),
            final(self)@ == old(self)@.use_value(p, at),
            v@ == (if old(self)@.places.copies(p) {
                ValView::none()
            } else {
                old(self)@.val_of(p, at)
            }),
    {
        let ghost start = self@;
        let v = if self.places.is_copy(p) {
            proof {
                lemma_none_ok(self@);
            }
            Val::none()
        } else {
            self.val_of(p, at)
        };
        self.use_value(p, at);
        proof {
            lemma_val_kept(start, self@, v@);
        }
        v
    }

    #[verifier::spinoff_prover]
    pub(crate) fn use_operand(&mut self, d: bool, e: &'t Expr) -> (r: Result<Val, NotYet>)
        requires
            old(self).inv(),
        ensures
            stepped(*old(self), *final(self)),
            result_ok(final(self)@, r),
            (final(self)@, val_result(r)) == use_operand(old(self).cx, d, old(self)@, *e),
        decreases level(d), e, 4nat,
    {
        proof {
            reveal(use_operand);
        }
        match self.as_place(d, e) {
            Some((p, _)) => Ok(self.consume(p, e.span)),
            None => self.eval_value(d, e),
        }
    }

    #[verifier::spinoff_prover]
    pub(crate) fn read_holes(&mut self, d: bool, hs: &'t Vec<Hole>) -> (r: Result<(), NotYet>)
        requires
            old(self).inv(),
        ensures
            stepped(*old(self), *final(self)),
            (final(self)@, unit_result(r)) == read_holes(old(self).cx, d, old(self)@, *hs, 0),
        decreases level(d), hs, 0nat,
    {
        proof {
            reveal(read_holes);
        }
        let ghost start = *self;
        let mut i: usize = 0;
        while i < hs.len()
            invariant
                i <= hs.len(),
                start == *old(self),
                stepped(start, *self),
                read_holes(start.cx, d, start@, *hs, 0) == read_holes(
                    start.cx,
                    d,
                    self@,
                    *hs,
                    i as nat,
                ),
            decreases hs.len() - i,
        {
            proof {
                reveal(read_holes);
            }
            if let Some(x) = &hs[i].expr {
                match self.read_operand(d, x) {
                    Err(n) => return Err(n),
                    Ok(_) => {},
                }
            }
            i = i + 1;
        }
        Ok(())
    }

    #[verifier::spinoff_prover]
    pub(crate) fn raw_index(&mut self, d: bool, e: &'t Expr, write: bool) -> (r: Result<(), NotYet>)
        requires
            old(self).inv(),
        ensures
            stepped(*old(self), *final(self)),
            (final(self)@, unit_result(r)) == raw_index(old(self).cx, d, old(self)@, *e, write),
        decreases level(d), e, 1nat,
    {
        proof {
            reveal(raw_index);
        }
        self.require_unsafe(
            if write {
                "a raw pointer write"
            } else {
                "a raw pointer read"
            },
            e.span,
        );
        match &e.kind {
            ExprKind::Bracket { callee, args, .. } => {
                match self.read_operand(d, callee) {
                    Err(n) => return Err(n),
                    Ok(_) => {},
                }
                match self.read_operands(d, args) {
                    Err(n) => return Err(n),
                    Ok(_) => {},
                }
                let ptr = callee.text.clone();
                if write {
                    self.push(Stmt::RawWrite { ptr, span: e.span });
                } else {
                    self.push(Stmt::RawRead { ptr, span: e.span });
                }
                Ok(())
            },
            _ => Ok(()),
        }
    }

    #[verifier::spinoff_prover]
    pub(crate) fn eval_named(&mut self, d: bool, e: &'t Expr) -> (r: Result<Val, NotYet>)
        requires
            old(self).inv(),
        ensures
            stepped(*old(self), *final(self)),
            result_ok(final(self)@, r),
            (final(self)@, val_result(r)) == eval_named(old(self).cx, d, old(self)@, *e),
        decreases level(d), e, 2nat,
    {
        proof {
            reveal(eval_named);
        }
        if is_raw_index(&self.cx, e) {
            match self.raw_index(d, e, false) {
                Err(n) => return Err(n),
                Ok(_) => {},
            }
            proof {
                lemma_none_ok(self@);
            }
            return Ok(Val::none());
        }
        match self.as_place(d, e) {
            Some((p, _)) => Ok(self.consume(p, e.span)),
            None => match &e.kind {
                ExprKind::Member(base, _) => self.eval_value(d, base),
                ExprKind::Bracket { callee, args, .. } => {
                    let v = match self.eval_value(d, callee) {
                        Err(n) => return Err(n),
                        Ok(v) => v,
                    };
                    let mut acc = Val::none();
                    proof {
                        lemma_none_ok(self@);
                        lemma_merge_ok(self@, acc@, v@);
                    }
                    acc.merge(v);
                    self.eval_merged(d, args, acc)
                },
                _ => {
                    proof {
                        lemma_none_ok(self@);
                    }
                    Ok(Val::none())
                },
            },
        }
    }

    #[verifier::spinoff_prover]
    pub(crate) fn eval_cast(&mut self, d: bool, e: &'t Expr) -> (r: Result<Val, NotYet>)
        requires
            old(self).inv(),
        ensures
            stepped(*old(self), *final(self)),
            result_ok(final(self)@, r),
            (final(self)@, val_result(r)) == eval_cast(old(self).cx, d, old(self)@, *e),
        decreases level(d), e, 1nat,
    {
        proof {
            reveal(eval_cast);
        }
        match &e.kind {
            ExprKind::Cast(x, Some(c)) => match c.kind {
                CastKind::Unsize => match self.as_place(d, x) {
                    None => Err(NotYet { construct: NO_DYN_PLACE, span: e.span }),
                    Some((p, _)) => {
                        self.emit_read(p, e.span);
                        let mut v = self.val_of(p, e.span);
                        let ghost before = v@;
                        let mut borrowed: Vec<PlaceId> = Vec::new();
                        borrowed.push(p);
                        v.borrowed = borrowed;
                        let ghost mid = self@;
                        self.unclaimed_at(e.span, false);
                        proof {
                            assert(v@ =~= (ValView { borrowed: seq![p], ..before }));
                            assert(mid.val_ok(v@));
                            lemma_val_kept(mid, self@, v@);
                        }
                        Ok(v)
                    },
                },
                CastKind::Raw => {
                    self.require_unsafe("a pointer cast", e.span);
                    match self.read_operand(d, x) {
                        Err(n) => return Err(n),
                        Ok(_) => {},
                    }
                    let dir = bridge_of(&self.cx, c);
                    self.push(Stmt::Expose { what: x.text.clone(), dir, span: e.span });
                    proof {
                        lemma_none_ok(self@);
                    }
                    Ok(Val::none())
                },
                _ => self.eval_value(d, x),
            },
            ExprKind::Cast(x, None) => self.eval_value(d, x),
            _ => {
                proof {
                    lemma_none_ok(self@);
                }
                Ok(Val::none())
            },
        }
    }

    #[verifier::spinoff_prover]
    pub(crate) fn eval_endpoint(&mut self, d: bool, e: &'t Expr) -> (r: Result<Val, NotYet>)
        requires
            old(self).inv(),
        ensures
            stepped(*old(self), *final(self)),
            result_ok(final(self)@, r),
            (final(self)@, val_result(r)) == eval_endpoint(old(self).cx, d, old(self)@, *e),
        decreases level(d), e, 4nat,
    {
        proof {
            reveal(eval_endpoint);
        }
        match &e.kind {
            ExprKind::FromEnd(inner) => self.eval_value(d, inner),
            _ => self.eval_value(d, e),
        }
    }

    #[verifier::spinoff_prover]
    pub(crate) fn eval_range(&mut self, d: bool, e: &'t Expr) -> (r: Result<Val, NotYet>)
        requires
            old(self).inv(),
        ensures
            stepped(*old(self), *final(self)),
            result_ok(final(self)@, r),
            (final(self)@, val_result(r)) == eval_range(old(self).cx, d, old(self)@, *e),
        decreases level(d), e, 1nat,
    {
        proof {
            reveal(eval_range);
        }
        if let ExprKind::Range { start, end, .. } = &e.kind {
            if let Some(x) = start {
                match self.eval_endpoint(d, x) {
                    Err(n) => return Err(n),
                    Ok(_) => {},
                }
            }
            if let Some(x) = end {
                match self.eval_endpoint(d, x) {
                    Err(n) => return Err(n),
                    Ok(_) => {},
                }
            }
        }
        proof {
            lemma_none_ok(self@);
        }
        Ok(Val::none())
    }

    #[verifier::spinoff_prover]
    pub(crate) fn eval_try(&mut self, d: bool, e: &'t Expr) -> (r: Result<Val, NotYet>)
        requires
            old(self).inv(),
        ensures
            stepped(*old(self), *final(self)),
            result_ok(final(self)@, r),
            (final(self)@, val_result(r)) == eval_try(old(self).cx, d, old(self)@, *e),
        decreases level(d), e, 1nat,
    {
        proof {
            reveal(eval_try);
        }
        match &e.kind {
            ExprKind::Try(inner) => {
                let v = match self.eval_value(d, inner) {
                    Err(n) => return Err(n),
                    Ok(v) => v,
                };
                let ghost had = self@;
                let cur = self.cur;
                let err = self.new_block();
                let ok = self.new_block();
                self.goto(cur, ok);
                self.goto(cur, err);
                self.at(err);
                match self.emit_defers(d, 0, true) {
                    Err(n) => return Err(n),
                    Ok(_) => {},
                }
                let from = self.cur;
                self.goto(from, BlockId(1));
                self.at(ok);
                proof {
                    lemma_val_kept(had, self@, v@);
                }
                Ok(v)
            },
            _ => {
                proof {
                    lemma_none_ok(self@);
                }
                Ok(Val::none())
            },
        }
    }

    #[verifier::spinoff_prover]
    pub(crate) fn eval_return(&mut self, d: bool, e: &'t Expr) -> (r: Result<Val, NotYet>)
        requires
            old(self).inv(),
        ensures
            stepped(*old(self), *final(self)),
            result_ok(final(self)@, r),
            (final(self)@, val_result(r)) == eval_return(old(self).cx, d, old(self)@, *e),
        decreases level(d), e, 1nat,
    {
        proof {
            reveal(eval_return);
        }
        if let ExprKind::Return(Some(v)) = &e.kind {
            match self.eval_value(d, v) {
                Err(n) => return Err(n),
                Ok(val) => {
                    self.demand_outlives_frame(&val, v.span);
                },
            }
        }
        self.leave_to(d, 0, BlockId(1))
    }

    #[verifier::spinoff_prover]
    pub(crate) fn eval_args(&mut self, d: bool, args: &'t Vec<Arg>) -> (r: Result<(), NotYet>)
        requires
            old(self).inv(),
        ensures
            stepped(*old(self), *final(self)),
            (final(self)@, unit_result(r)) == eval_args(old(self).cx, d, old(self)@, *args, 0),
        decreases level(d), args, 0nat,
    {
        proof {
            reveal(eval_args);
        }
        let ghost start = *self;
        let mut i: usize = 0;
        while i < args.len()
            invariant
                i <= args.len(),
                start == *old(self),
                stepped(start, *self),
                eval_args(start.cx, d, start@, *args, 0) == eval_args(
                    start.cx,
                    d,
                    self@,
                    *args,
                    i as nat,
                ),
            decreases args.len() - i,
        {
            proof {
                reveal(eval_args);
            }
            match self.eval_value(d, &args[i].value) {
                Err(n) => return Err(n),
                Ok(_) => {},
            }
            i = i + 1;
        }
        Ok(())
    }

    /// Evaluate an expression for its value.
    #[verifier::spinoff_prover]
    pub(crate) fn eval_value(&mut self, d: bool, e: &'t Expr) -> (r: Result<Val, NotYet>)
        requires
            old(self).inv(),
        ensures
            stepped(*old(self), *final(self)),
            result_ok(final(self)@, r),
            (final(self)@, val_result(r)) == eval_value(old(self).cx, d, old(self)@, *e),
        decreases level(d), e, 3nat,
    {
        proof {
            reveal(eval_value);
        }
        proof {
            lemma_none_ok(self@);
        }
        match &e.kind {
            ExprKind::Literal { .. } => Ok(Val::none()),
            ExprKind::Path(_) | ExprKind::Member(..) | ExprKind::Bracket { .. } => self.eval_named(
                d,
                e,
            ),
            ExprKind::Str(holes) => match self.read_holes(d, holes) {
                Err(n) => Err(n),
                Ok(_) => {
                    proof {
                        lemma_none_ok(self@);
                    }
                    Ok(Val::none())
                },
            },
            ExprKind::Paren(inner, _) => self.eval_value(d, inner),
            ExprKind::Tuple(es) => self.eval_merged(d, es, Val::none()),
            ExprKind::Block(b) => self.walk_block(d, b, true),
            ExprKind::Prefix(..) => self.eval_prefix(d, e),
            ExprKind::Bin(..) => self.eval_bin(d, e),
            ExprKind::Cast(..) => self.eval_cast(d, e),
            ExprKind::Range { .. } => self.eval_range(d, e),
            ExprKind::Try(_) => self.eval_try(d, e),
            ExprKind::Call { .. } => self.eval_call(d, e),
            ExprKind::StructLit(_) => self.eval_struct(d, e),
            ExprKind::If { .. } => self.eval_if(d, e),
            ExprKind::Match { .. } => self.eval_match(d, e),
            ExprKind::While { .. } => self.eval_while(d, e),
            ExprKind::For { .. } => self.eval_for(d, e),
            ExprKind::Loop(_) => self.eval_loop(d, e),
            ExprKind::Else { .. } => self.eval_else(d, e),
            ExprKind::Return(_) => self.eval_return(d, e),
            ExprKind::Break => {
                let n: usize = self.loops.len();
                if n == 0 {
                    return Ok(Val::none());
                }
                let f = self.loops[n - 1];
                proof {
                    reveal(loops_in);
                    assert(self@.loops[n - 1].break_to.0 < self@.blocks.len());
                }
                self.leave_to(d, f.depth, f.break_to)
            },
            ExprKind::Continue => {
                let n: usize = self.loops.len();
                if n == 0 {
                    return Ok(Val::none());
                }
                let f = self.loops[n - 1];
                proof {
                    reveal(loops_in);
                    assert(self@.loops[n - 1].continue_to.0 < self@.blocks.len());
                }
                self.leave_to(d, f.depth, f.continue_to)
            },
            ExprKind::Closure { .. } => self.eval_closure(d, e),
            ExprKind::FromEnd(_) => Err(NotYet { construct: NO_FROM_END, span: e.span }),
            ExprKind::RegionBlock { .. } => self.eval_region_block(d, e),
            ExprKind::RegionValue(s) => {
                let strat = parse_strategy(s);
                let rid = self.new_region(UNNAMED, RegionKind::Value, strat, e.span);
                proof {
                    reveal(cells_in);
                }
                Ok(Val::of_region(rid, e.span))
            },
            ExprKind::In { .. } => self.eval_in(d, e),
            ExprKind::Freeze(_) => self.eval_freeze(d, e),
            ExprKind::Unsafe { .. } => self.eval_unsafe(d, e),
            ExprKind::InlineCode => Err(NotYet { construct: NO_INLINE, span: e.span }),
            ExprKind::Scope { .. } => self.eval_scope(d, e),
            ExprKind::Select(_) => self.eval_select(d, e),
            ExprKind::When { .. } => self.eval_when(d, e),
            ExprKind::Spawn(args) => match self.eval_args(d, args) {
                Err(n) => Err(n),
                Ok(_) => {
                    proof {
                        lemma_none_ok(self@);
                    }
                    Ok(Val::none())
                },
            },
            ExprKind::Borrow { .. } => self.eval_borrow(d, e),
            ExprKind::Other => Err(NotYet { construct: NO_SHAPE, span: e.span }),
        }
    }
}

} // verus!
