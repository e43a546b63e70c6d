//! Constructions, region forms and closures of the walk.

use vstd::prelude::*;
use vstd::string::*;

use crate::ast::{Bind, Expr, ExprKind, FieldInit, PrefixOp, StrategySyntax};
use crate::cfg::{Local, RegionId, RegionKind, SiteId, SiteKind, Stmt, base_ok};
use crate::diag::{NotYetView, Code, Diagnostic, NotYet, Span};
use crate::lowbind::{UNNAMED, kind_of, parse_strategy, ty_of, ty_of_bind};
use crate::lower::{
    find_region, open_region, reopen_diag, NOTE_REOPEN, NO_BORROW, NO_DEREF, NO_FREEZE,
    NO_REGION_FLOW, capture, embed_fields, enter_region, eval_borrow, eval_closure, eval_fields,
    eval_freeze, eval_frozen_block, eval_in, eval_prefix, eval_region_block, eval_scope,
    eval_struct, eval_unsafe, lemma_merge_ok, lemma_none_ok, lemma_site_ok, lemma_vals_kept, level,
    region_named, result_ok, share_all, val_result, val_views, vals_ok, vals_result,
};
use crate::lowstate::{
    Lowerer, Scope, Val, ValView, cells_in, field_regions, lemma_val_kept, stepped,
};
use crate::lowuse::{FREEZE_HERE, end_span, unsafe_kw};
use crate::place::{Base, PlaceId, Proj};
use crate::text::lit;
use crate::types::TyKind;

verus! {

impl<'t> Lowerer<'t> {
    #[verifier::spinoff_prover]
    pub(crate) fn eval_fields(&mut self, d: bool, fs: &'t Vec<FieldInit>) -> (r: Result<Vec<Val>, NotYet>)
        requires
            old(self).inv(),
        ensures
            stepped(*old(self), *final(self)),
            r matches Ok(vs) ==> vals_ok(final(self)@, val_views(vs@)) && vs@.len() == fs@.len(),
            (final(self)@, vals_result(r)) == eval_fields(
                old(self).cx,
                d,
                old(self)@,
                *fs,
                0,
                Seq::empty(),
            ),
        decreases level(d), fs, 0nat,
    {
        proof {
            reveal(eval_fields);
        }
        let ghost start = *self;
        let mut vs: Vec<Val> = Vec::new();
        assert(val_views(vs@) =~= Seq::empty());
        let mut i: usize = 0;
        while i < fs.len()
            invariant
                i <= fs.len(),
                vs@.len() == i,
                start == *old(self),
                stepped(start, *self),
                vals_ok(self@, val_views(vs@)),
                eval_fields(start.cx, d, start@, *fs, 0, Seq::empty()) == eval_fields(
                    start.cx,
                    d,
                    self@,
                    *fs,
                    i as nat,
                    val_views(vs@),
                ),
            decreases fs.len() - i,
        {
            proof {
                reveal(eval_fields);
            }
            let ghost before = self@;
            let ghost was = val_views(vs@);
            match self.eval_value(d, &fs[i].value) {
                Err(n) => return Err(n),
                Ok(v) => {
                    let ghost vv = v@;
                    vs.push(v);
                    proof {
                        assert(val_views(vs@) =~= was.push(vv));
                        assert forall|k: int| 0 <= k < vs@.len() implies self@.val_ok(
                            #[trigger] val_views(vs@)[k],
                        ) by {
                            if k < i {
                                lemma_val_kept(before, self@, was[k]);
                            }
                        }
                    }
                },
            }
            i = i + 1;
        }
        Ok(vs)
    }

    #[verifier::spinoff_prover]
    pub(crate) fn embed_fields(&mut self, fs: &Vec<FieldInit>, vs: Vec<Val>, region: RegionId, at: Span, first: Val) -> (r: Val)
        requires
            old(self).inv(),
            vs@.len() == fs@.len(),
            vals_ok(old(self)@, val_views(vs@)),
            old(self)@.val_ok(first@),
            region.0 < old(self)@.rt.regions.len(),
        ensures
            stepped(*old(self), *final(self)),
            final(self)@.val_ok(r@),
            (final(self)@, r@) == embed_fields(
                old(self)@,
                fs@,
                val_views(vs@),
                0,
                region,
                at,
                first@,
            ),
    {
        proof {
            reveal(embed_fields);
        }
        let ghost start = *self;
        let ghost v0 = first@;
        let ghost all = val_views(vs@);
        let mut acc = first;
        let mut i: usize = 0;
        while i < vs.len()
            invariant
                i <= vs.len(),
                vs@.len() == fs@.len(),
                all == val_views(vs@),
                vals_ok(start@, all),
                start == *old(self),
                v0 == first@,
                stepped(start, *self),
                region.0 < start@.rt.regions.len(),
                self@.val_ok(acc@),
                embed_fields(start@, fs@, all, 0, region, at, v0) == embed_fields(
                    self@,
                    fs@,
                    all,
                    i as int,
                    region,
                    at,
                    acc@,
                ),
            decreases vs.len() - i,
        {
            proof {
                reveal(embed_fields);
            }
            let ghost before = self@;
            let ghost acc_was = acc@;
            let v = &vs[i];
            assert(all[i as int] == v@);
            proof {
                lemma_val_kept(start@, self@, v@);
            }
            if let Some(r) = v.region {
                self.set_moved(r);
                self.set_parent(r, region);
                let ghost fields_was = acc.region_fields@;
                acc.region_fields.push((fs[i].name.clone(), r));
                proof {
                    assert(crate::lowstate::field_regions(acc.region_fields@)
                        =~= crate::lowstate::field_regions(fields_was).push((fs@[i as int].name@, r)));
                    assert(acc@ =~= (ValView {
                        region_fields: acc_was.region_fields.push((fs@[i as int].name@, r)),
                        ..acc_was
                    }));
                    assert(before.val_ok(acc@)) by {
                        assert forall|k: int| 0 <= k < acc@.region_fields.len() implies (
                        #[trigger] acc@.region_fields[k]).1.0 < before.rt.regions.len() by {
                            if k < acc_was.region_fields.len() {
                                assert(acc@.region_fields[k] == acc_was.region_fields[k]);
                            }
                        }
                    }
                }
            }
            let ghost acc1 = acc@;
            proof {
                lemma_val_kept(start@, self@, v@);
            }
            self.demand_store(&v.sites, region, Some(at), fs[i].value.span);
            proof {
                lemma_val_kept(start@, self@, v@);
                lemma_val_kept(before, self@, acc1);
                lemma_merge_ok(self@, acc1, v@);
            }
            acc = merge_keeping(acc, v);
            assert(self@.val_ok(acc@));
            i = i + 1;
        }
        acc
    }

    #[verifier::spinoff_prover]
    pub(crate) fn eval_struct(&mut self, d: bool, e: &'t Expr) -> (r: Result<Val, NotYet>)
        requires
            old(self).inv(),
        ensures
            stepped(*old(self), *final(self)),
            result_ok(final(self)@, r),
            (final(self)@, val_result(r)) == eval_struct(old(self).cx, d, old(self)@, *e),
        decreases level(d), e, 1nat,
    {
        proof {
            reveal(eval_struct);
        }
        match &e.kind {
            ExprKind::StructLit(fs) => {
                let vs = match self.eval_fields(d, fs) {
                    Err(n) => return Err(n),
                    Ok(vs) => vs,
                };
                let ghost had = self@;
                let ty = self.cx.tabs.opt_render(ty_of(e));
                let site = self.alloc_site(ty, SiteKind::Lit, e.span);
                let region = self.site_region(site);
                proof {
                    lemma_site_ok(self@, site, e.span);
                    lemma_vals_kept(had, self@, val_views(vs@));
                }
                let mut v = self.embed_fields(fs, vs, region, e.span, Val::site(site, e.span));
                let ghost was = v@;
                v.region = None;
                assert(v@ =~= (ValView { region: None, ..was }));
                Ok(v)
            },
            _ => {
                proof {
                    lemma_none_ok(self@);
                }
                Ok(Val::none())
            },
        }
    }

    #[verifier::spinoff_prover]
    pub(crate) fn share_all(&mut self, sites: &Vec<SiteId>)
        requires
            old(self).inv(),
            cells_in(sites@, old(self)@.sites.len()),
        ensures
            stepped(*old(self), *final(self)),
            final(self)@ == share_all(old(self)@, sites@, sites@.len()),
    {
        proof {
            reveal(share_all);
        }
        let ghost start = *self;
        let mut i: usize = 0;
        while i < sites.len()
            invariant
                i <= sites.len(),
                start == *old(self),
                stepped(start, *self),
                cells_in(sites@, start@.sites.len()),
                self@ == share_all(start@, sites@, i as nat),
            decreases sites.len() - i,
        {
            proof {
                reveal(share_all);
            }
            proof {
                reveal(cells_in);
                assert(sites@[i as int].0 < start@.sites.len());
            }
            self.share(sites[i]);
            i = i + 1;
        }
    }

    #[verifier::spinoff_prover]
    pub(crate) fn eval_prefix(&mut self, d: bool, e: &'t Expr) -> (r: Result<Val, NotYet>)
        requires
            old(self).inv(),
        ensures
            stepped(*old(self), *final(self)),
            result_ok(final(self)@, r),
            (final(self)@, val_result(r)) == eval_prefix(old(self).cx, d, old(self)@, *e),
        decreases level(d), e, 1nat,
    {
        proof {
            reveal(eval_prefix);
        }
        match &e.kind {
            ExprKind::Prefix(op, x) => match op {
                PrefixOp::Copy => match self.as_place(d, x) {
                    Some((p, ty)) => {
                        self.emit_read(p, x.span);
                        if self.places.is_copy(p) {
                            proof {
                                lemma_none_ok(self@);
                            }
                            Ok(Val::none())
                        } else {
                            let text = self.cx.tabs.opt_render(ty);
                            let site = self.alloc_site(text, SiteKind::Lit, e.span);
                            proof {
                                lemma_site_ok(self@, site, e.span);
                            }
                            Ok(Val::site(site, e.span))
                        }
                    },
                    None => self.eval_value(d, x),
                },
                PrefixOp::Move => self.use_operand(d, x),
                PrefixOp::Amp => Err(NotYet { construct: NO_BORROW, span: e.span }),
                PrefixOp::Star => Err(NotYet { construct: NO_DEREF, span: e.span }),
                PrefixOp::Shared => {
                    let v = match self.use_operand(d, x) {
                        Err(n) => return Err(n),
                        Ok(v) => v,
                    };
                    self.share_all(&v.sites);
                    let text = self.cx.tabs.opt_render(ty_of(e));
                    let site = self.alloc_site(text, SiteKind::Lit, e.span);
                    self.share(site);
                    self.add_cell(site);
                    proof {
                        lemma_site_ok(self@, site, e.span);
                    }
                    Ok(Val::site(site, e.span))
                },
                _ => self.eval_value(d, x),
            },
            _ => {
                proof {
                    lemma_none_ok(self@);
                }
                Ok(Val::none())
            },
        }
    }

    #[verifier::spinoff_prover]
    pub(crate) fn enter_region(
        &mut self,
        name: &Option<Bind>,
        bound: bool,
        strategy: &StrategySyntax,
        at: Span,
    ) -> (rid: RegionId)
        requires
            old(self).inv(),
        ensures
            stepped(*old(self), *final(self)),
            rid == old(self)@.next_region(),
            rid.0 < final(self)@.rt.regions.len(),
            final(self)@ == enter_region(old(self).cx, old(self)@, *name, bound, *strategy, at),
            final(self)@.scopes.len() > old(self)@.scopes.len(),
            final(self)@.ambient.len() > old(self)@.ambient.len(),
            final(self)@.open.len() > old(self)@.open.len(),
    {
        let (text, intro) = match name {
            Some(b) => (b.name.as_str(), b.span),
            None => (UNNAMED, at),
        };
        let strat = parse_strategy(strategy);
        let rid = self.new_region(text, RegionKind::Scope, strat, intro);
        self.push(Stmt::RegionOpen { region: rid, span: intro });
        self.check_open_antichain(rid, intro);
        self.push_open(rid, intro);
        self.push_ambient(rid);
        self.push_scope();
        if let Some(b) = name {
            if bound {
                let l = self.declare(b.name.as_str(), b.span, ty_of_bind(b));
                let place = self.intern_local(l, false);
                self.push(Stmt::Init { place, span: b.span });
                self.set_region_local(l.0, Some(rid));
            }
        }
        rid
    }

    #[verifier::spinoff_prover]
    pub(crate) fn eval_region_block(&mut self, d: bool, e: &'t Expr) -> (r: Result<Val, NotYet>)
        requires
            old(self).inv(),
        ensures
            stepped(*old(self), *final(self)),
            result_ok(final(self)@, r),
            (final(self)@, val_result(r)) == eval_region_block(old(self).cx, d, old(self)@, *e),
        decreases level(d), e, 1nat,
    {
        proof {
            reveal(eval_region_block);
        }
        match &e.kind {
            ExprKind::RegionBlock { name, strategy, body } => {
                let mark: usize = self.locals.len();
                let rid = self.enter_region(name, true, strategy, e.span);
                let mut v = match self.walk_block(d, body, true) {
                    Err(n) => return Err(n),
                    Ok(v) => v,
                };
                let ghost had = self@;
                let close = end_span(e.span);
                match self.close_scope(d, close) {
                    Err(n) => return Err(n),
                    Ok(_) => {},
                }
                self.pop_ambient();
                self.pop_open();
                proof {
                    lemma_val_kept(had, self@, v@);
                }
                if !self.moved[rid.0 as usize] {
                    let ghost pre = self@;
                    self.sweep_close(rid, mark, close, &mut v);
                    self.push(Stmt::RegionClose { region: rid, span: close });
                    proof {
                        lemma_val_kept(pre, self@, v@);
                    }
                }
                let ghost was = v@;
                v.region = None;
                assert(v@ =~= (ValView { region: None, ..was }));
                Ok(v)
            },
            _ => {
                proof {
                    lemma_none_ok(self@);
                }
                Ok(Val::none())
            },
        }
    }

    #[verifier::spinoff_prover]
    pub(crate) fn eval_frozen_block(&mut self, d: bool, e: &'t Expr, freeze_at: Span) -> (r: Result<
        Val,
        NotYet,
    >)
        requires
            old(self).inv(),
        ensures
            stepped(*old(self), *final(self)),
            result_ok(final(self)@, r),
            (final(self)@, val_result(r)) == eval_frozen_block(
                old(self).cx,
                d,
                old(self)@,
                *e,
                freeze_at,
            ),
        decreases level(d), e, 1nat,
    {
        proof {
            reveal(eval_frozen_block);
        }
        match &e.kind {
            ExprKind::RegionBlock { name, strategy, body } => {
                let rid = self.enter_region(name, false, strategy, e.span);
                let mut v = match self.walk_block(d, body, true) {
                    Err(n) => return Err(n),
                    Ok(v) => v,
                };
                let ghost had = self@;
                let close = end_span(e.span);
                match self.close_scope(d, close) {
                    Err(n) => return Err(n),
                    Ok(_) => {},
                }
                self.pop_ambient();
                self.pop_open();
                self.push(Stmt::RegionClose { region: rid, span: close });
                self.freeze(rid, freeze_at);
                proof {
                    lemma_val_kept(had, self@, v@);
                }
                let ghost was = v@;
                v.region = None;
                assert(v@ =~= (ValView { region: None, ..was }));
                Ok(v)
            },
            _ => {
                proof {
                    lemma_none_ok(self@);
                }
                Ok(Val::none())
            },
        }
    }

    #[verifier::spinoff_prover]
    pub(crate) fn region_named(&self, p: PlaceId) -> (r: Option<RegionId>)
        requires
            self.inv(),
            self@.places.has(p),
        ensures
            r == region_named(self@, p),
            r matches Some(x) ==> x.0 < self@.rt.regions.len(),
    {
        let place = self.places.get(p);
        let ghost pv = self@.places.at(p);
        assert(base_ok(self@.places.places[p.0 as int].base, self@.locals.len()));
        match &place.base {
            Base::Global(..) => None,
            Base::Local(l) => if place.proj.len() == 0 {
                self.local_region(*l)
            } else if place.proj.len() == 1 {
                assert(pv.proj[0] == place.proj@[0]@);
                match &place.proj[0] {
                    Proj::Field(f) => self.field_region(*l, f.as_str()),
                    _ => None,
                }
            } else {
                None
            },
        }
    }

    #[verifier::spinoff_prover]
    pub(crate) fn find_region(&mut self, d: bool, e: &'t Expr) -> (r: Result<RegionId, NotYet>)
        requires
            old(self).inv(),
        ensures
            stepped(*old(self), *final(self)),
            (final(self)@, region_result(r)) == find_region(old(self).cx, d, old(self)@, *e),
            r matches Ok(x) ==> x.0 < final(self)@.rt.regions.len(),
        decreases level(d), e, 0nat,
    {
        proof {
            reveal(find_region);
        }
        match &e.kind {
            ExprKind::In { region: Some(x), .. } => {
                let known = match self.as_place(d, x) {
                    Some((p, _)) => {
                        self.emit_read(p, x.span);
                        self.region_named(p)
                    },
                    None => None,
                };
                match known {
                    Some(r) => Ok(r),
                    None => Err(NotYet { construct: NO_REGION_FLOW, span: x.span }),
                }
            },
            _ => Ok(self.ambient_region()),
        }
    }

    #[verifier::spinoff_prover]
    pub(crate) fn open_region(&mut self, rid: RegionId, at: Span)
        requires
            old(self).inv(),
            rid.0 < old(self)@.rt.regions.len(),
        ensures
            stepped(*old(self), *final(self)),
            final(self)@ == open_region(old(self)@, rid, at),
            final(self)@.ambient.len() > old(self)@.ambient.len(),
            final(self)@.open.len() > old(self)@.open.len(),
    {
        let ghost start = self@;
        if let Some(f) = self.frozen_region[rid.0 as usize] {
            let text = self.show_region(rid);
            self.conflict();
            let d = Diagnostic::error(
                Code::E1012,
                at,
                text.concat(" is frozen, so it cannot be opened for mutation"),
            ).with_label(lit("`in` opens a region for writing")).with_secondary(
                f,
                lit(crate::lowuse::FREEZE_HERE),
            ).with_note(lit(NOTE_REOPEN));
            assert(d@ == reopen_diag(start.region_text(rid), at, f));
            self.report(d);
        }
        self.push(Stmt::RegionOpen { region: rid, span: at });
        self.check_open_antichain(rid, at);
        self.push_open(rid, at);
        self.push_ambient(rid);
    }

    #[verifier::spinoff_prover]
    pub(crate) fn eval_in(&mut self, d: bool, e: &'t Expr) -> (r: Result<Val, NotYet>)
        requires
            old(self).inv(),
        ensures
            stepped(*old(self), *final(self)),
            result_ok(final(self)@, r),
            (final(self)@, val_result(r)) == eval_in(old(self).cx, d, old(self)@, *e),
        decreases level(d), e, 1nat,
    {
        proof {
            reveal(eval_in);
        }
        match &e.kind {
            ExprKind::In { region, body } => {
                let rid = match self.find_region(d, e) {
                    Err(n) => return Err(n),
                    Ok(r) => r,
                };
                self.open_region(rid, e.span);
                let v = match self.walk_block(d, body, true) {
                    Err(n) => return Err(n),
                    Ok(v) => v,
                };
                let ghost had = self@;
                self.pop_ambient();
                self.pop_open();
                self.push(Stmt::RegionClose { region: rid, span: end_span(e.span) });
                proof {
                    lemma_val_kept(had, self@, v@);
                }
                Ok(v)
            },
            _ => {
                proof {
                    lemma_none_ok(self@);
                }
                Ok(Val::none())
            },
        }
    }

    #[verifier::spinoff_prover]
    pub(crate) fn eval_freeze(&mut self, d: bool, e: &'t Expr) -> (r: Result<Val, NotYet>)
        requires
            old(self).inv(),
        ensures
            stepped(*old(self), *final(self)),
            result_ok(final(self)@, r),
            (final(self)@, val_result(r)) == eval_freeze(old(self).cx, d, old(self)@, *e),
        decreases level(d), e, 1nat,
    {
        proof {
            reveal(eval_freeze);
        }
        match &e.kind {
            ExprKind::Freeze(x) => {
                if let ExprKind::RegionBlock { .. } = &x.kind {
                    return self.eval_frozen_block(d, x, e.span);
                }
                let whole = match self.as_place(d, x) {
                    Some((p, _)) => if self.places.get(p).proj.len() == 0 {
                        Some(p)
                    } else {
                        None
                    },
                    None => None,
                };
                let known = match whole {
                    Some(p) => {
                        let r = self.place_region(p);
                        self.use_value(p, x.span);
                        r
                    },
                    None => match self.eval_value(d, x) {
                        Err(n) => return Err(n),
                        Ok(v) => v.region,
                    },
                };
                match known {
                    None => Err(NotYet { construct: NO_FREEZE, span: x.span }),
                    Some(rid) => {
                        self.freeze(rid, e.span);
                        proof {
                            reveal(cells_in);
                        }
                        Ok(Val::of_region(rid, e.span))
                    },
                }
            },
            _ => {
                proof {
                    lemma_none_ok(self@);
                }
                Ok(Val::none())
            },
        }
    }

    #[verifier::spinoff_prover]
    pub(crate) fn eval_unsafe(&mut self, d: bool, e: &'t Expr) -> (r: Result<Val, NotYet>)
        requires
            old(self).inv(),
        ensures
            stepped(*old(self), *final(self)),
            result_ok(final(self)@, r),
            (final(self)@, val_result(r)) == eval_unsafe(old(self).cx, d, old(self)@, *e),
        decreases level(d), e, 1nat,
    {
        proof {
            reveal(eval_unsafe);
        }
        match &e.kind {
            ExprKind::Unsafe { body, line } => {
                self.lint_safety(e.text.as_str(), *line, e.span);
                self.push(Stmt::UnsafeEnter { span: unsafe_kw(e.span) });
                let saved = self.in_unsafe;
                self.set_unsafe(true);
                let walked = self.walk_block(d, body, true);
                let ghost had = self@;
                self.set_unsafe(saved);
                match walked {
                    Err(n) => Err(n),
                    Ok(v) => {
                        self.push(Stmt::UnsafeExit { span: end_span(e.span) });
                        proof {
                            lemma_val_kept(had, self@, v@);
                        }
                        Ok(v)
                    },
                }
            },
            _ => {
                proof {
                    lemma_none_ok(self@);
                }
                Ok(Val::none())
            },
        }
    }

    #[verifier::spinoff_prover]
    pub(crate) fn eval_scope(&mut self, d: bool, e: &'t Expr) -> (r: Result<Val, NotYet>)
        requires
            old(self).inv(),
        ensures
            stepped(*old(self), *final(self)),
            result_ok(final(self)@, r),
            (final(self)@, val_result(r)) == eval_scope(old(self).cx, d, old(self)@, *e),
        decreases level(d), e, 1nat,
    {
        proof {
            reveal(eval_scope);
        }
        match &e.kind {
            ExprKind::Scope { name, body } => {
                self.push_scope();
                if let Some(b) = name {
                    let _ = self.declare_init(b);
                }
                let v = match self.walk_block(d, body, true) {
                    Err(n) => return Err(n),
                    Ok(v) => v,
                };
                let ghost had = self@;
                match self.close_scope(d, end_span(e.span)) {
                    Err(n) => return Err(n),
                    Ok(_) => {},
                }
                proof {
                    lemma_val_kept(had, self@, v@);
                }
                Ok(v)
            },
            _ => {
                proof {
                    lemma_none_ok(self@);
                }
                Ok(Val::none())
            },
        }
    }

    #[verifier::spinoff_prover]
    pub(crate) fn capture(&mut self, names: &Vec<String>, at: Span) -> (r: Vec<PlaceId>)
        requires
            old(self).inv(),
        ensures
            stepped(*old(self), *final(self)),
            (final(self)@, r@) == capture(old(self)@, names@, 0, at, Seq::empty()),
            forall|k: int| 0 <= k < r@.len() ==> final(self)@.places.has(#[trigger] r@[k]),
    {
        proof {
            reveal(capture);
        }
        let ghost start = *self;
        let mut out: Vec<PlaceId> = Vec::new();
        assert(out@ =~= Seq::empty());
        let mut i: usize = 0;
        while i < names.len()
            invariant
                i <= names.len(),
                start == *old(self),
                stepped(start, *self),
                forall|k: int| 0 <= k < out@.len() ==> self@.places.has(#[trigger] out@[k]),
                capture(start@, names@, 0, at, Seq::empty()) == capture(
                    self@,
                    names@,
                    i as int,
                    at,
                    out@,
                ),
            decreases names.len() - i,
        {
            proof {
                reveal(capture);
            }
            let ghost before = self@;
            let ghost was = out@;
            if let Some(l) = self.lookup(names[i].as_str()) {
                assert(self@.locals[l.0 as int] == self.locals@[l.0 as int]@);
                let copy = self.locals[l.0 as usize].is_copy;
                let p = self.intern_local(l, copy);
                self.emit_read(p, at);
                out.push(p);
                proof {
                    assert forall|k: int| 0 <= k < out@.len() implies self@.places.has(
                        #[trigger] out@[k],
                    ) by {
                        if k < was.len() {
                            assert(before.places.has(was[k]));
                        }
                    }
                }
            }
            i = i + 1;
        }
        out
    }

    #[verifier::spinoff_prover]
    pub(crate) fn eval_closure(&mut self, d: bool, e: &'t Expr) -> (r: Result<Val, NotYet>)
        requires
            old(self).inv(),
        ensures
            stepped(*old(self), *final(self)),
            result_ok(final(self)@, r),
            (final(self)@, val_result(r)) == eval_closure(old(self).cx, d, old(self)@, *e),
        decreases level(d), e, 1nat,
    {
        proof {
            reveal(eval_closure);
        }
        match &e.kind {
            ExprKind::Closure { captures, params, body } => {
                let borrowed = self.capture(captures, e.span);
                let ghost had = self@;
                self.push_scope();
                self.declare_inits(params);
                if let Some(b) = body {
                    match self.eval_value(d, b) {
                        Err(n) => return Err(n),
                        Ok(_) => {},
                    }
                }
                match self.close_scope(d, end_span(e.span)) {
                    Err(n) => return Err(n),
                    Ok(_) => {},
                }
                if borrowed.len() == 0 {
                    proof {
                        lemma_none_ok(self@);
                    }
                    return Ok(Val::none());
                }
                self.unclaimed_at(e.span, true);
                let ghost places = borrowed@;
                let v = Val {
                    sites: Vec::new(),
                    region: None,
                    origin: Some(e.span),
                    region_fields: Vec::new(),
                    borrowed,
                };
                proof {
                    assert(v@ =~= (ValView {
                        origin: Some(e.span),
                        borrowed: places,
                        ..ValView::none()
                    }));
                    reveal(cells_in);
                    assert forall|k: int| 0 <= k < places.len() implies self@.places.has(
                        #[trigger] places[k],
                    ) by {
                        assert(had.places.has(places[k]));
                    }
                }
                Ok(v)
            },
            _ => {
                proof {
                    lemma_none_ok(self@);
                }
                Ok(Val::none())
            },
        }
    }

    #[verifier::spinoff_prover]
    pub(crate) fn eval_borrow(&mut self, d: bool, e: &'t Expr) -> (r: Result<Val, NotYet>)
        requires
            old(self).inv(),
        ensures
            stepped(*old(self), *final(self)),
            result_ok(final(self)@, r),
            (final(self)@, val_result(r)) == eval_borrow(old(self).cx, d, old(self)@, *e),
        decreases level(d), e, 1nat,
    {
        proof {
            reveal(eval_borrow);
        }
        match &e.kind {
            ExprKind::Borrow { region, source } => {
                self.require_unsafe("the `borrow … from …` door", e.span);
                match self.read_operand(d, region) {
                    Err(n) => return Err(n),
                    Ok(_) => {},
                }
                match kind_of(&self.cx, ty_of(region)) {
                    Some(TyKind::RegionTy) | Some(TyKind::Error) | Some(TyKind::Never) => {},
                    _ => {
                        let shown = self.cx.tabs.opt_render(ty_of(region));
                        self.door_misuse(region.span, "a `region` value", shown.as_str());
                    },
                }
                match self.read_operand(d, source) {
                    Err(n) => return Err(n),
                    Ok(_) => {},
                }
                match kind_of(&self.cx, ty_of(source)) {
                    Some(TyKind::Ptr(_)) | Some(TyKind::Error) | Some(TyKind::Never) => {},
                    _ => {
                        let shown = self.cx.tabs.opt_render(ty_of(source));
                        self.door_misuse(source.span, "a raw pointer (`*T`)", shown.as_str());
                    },
                }
                self.push(
                    Stmt::Door {
                        region: region.text.clone(),
                        ptr: source.text.clone(),
                        span: e.span,
                    },
                );
                proof {
                    lemma_none_ok(self@);
                }
                Ok(Val::none())
            },
            _ => {
                proof {
                    lemma_none_ok(self@);
                }
                Ok(Val::none())
            },
        }
    }
}

/// Merge, with the first value's fields kept.
fn merge_keeping(a: Val, b: &Val) -> (r: Val)
    ensures
        r@ == (ValView { region_fields: a@.region_fields, ..a@.merge(b@) }),
{
    let ghost av = a@;
    let mut r = a;
    let mut more = b.duplicate();
    more.region_fields = Vec::new();
    let ghost mv = more@;
    r.merge(more);
    assert(mv.region_fields =~= Seq::empty());
    assert(r@.region_fields =~= av.region_fields);
    r
}

pub open spec fn region_result(r: Result<RegionId, NotYet>) -> Result<RegionId, NotYetView> {
    match r {
        Ok(b) => Ok(b),
        Err(n) => Err(n@),
    }
}

} // verus!
