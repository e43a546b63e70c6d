//! Calls: receivers, arguments, and what a call leaves behind.

use vstd::prelude::*;
use vstd::string::*;

use crate::ast::{Arg, Expr, ExprKind};
use crate::cfg::{
    CallSurface, CallView, Local, ParamMode, RegionId, RegionKind, SiteId, SiteKind, Stmt, Strategy,
    args_ok, base_ok,
};
use crate::diag::{NotYet, Span};
use crate::lowbind::{UNNAMED, first_field, kind_of, opt_fields_of, ty_of};
use crate::lower::{
    Gathered, call_callee, call_head, call_on, call_receiver, call_start, call_tail, check_views,
    claim_receiver, embed_parts, eval_call, finish_call, finish_ctor, hold_targets,
    lemma_insert_cells, lemma_merge_ok, lemma_none_ok, lemma_site_ok, lend_fields, lend_receiver,
    level, lower_arg, lower_args, lower_one, lower_receiver, mut_targets, pass_receiver, prov_op,
    read_receiver, record_prov, result_ok, returns_region, take_receiver, unit_result, val_result,
};
use crate::lowregion::PASSED;
use crate::lowstate::{
    Cx, LowView, Lowerer, Val, ValView, add_site, cells_in, claims_in, insert_sites, lemma_val_kept,
    stepped,
};
use crate::place::{Base, Place, PlaceId};
use crate::text::{lit, str_eq};
use crate::types::{CallSig, ParamSig, Ty, TyKind, opt_fields};

verus! {

impl<'t> Lowerer<'t> {
    /// Read a receiver in place.
    #[verifier::spinoff_prover]
    fn read_receiver(&mut self, pl: PlaceId, at: Span, g: &mut Gather)
        requires
            old(self).inv(),
            gather_ok(old(self)@, old(g)@),
            old(self)@.places.has(pl),
        ensures
            stepped(*old(self), *final(self)),
            gather_ok(final(self)@, final(g)@),
            (final(self)@, final(g)@) == read_receiver(old(self)@, pl, at, old(g)@),
    {
        let ghost start = *self;
        let ghost g0 = g@;
        proof {
            reveal(read_receiver);
        }
        self.emit_read(pl, at);
        self.mark_region_lent(pl);
        proof {
            lemma_gather_kept(start@, self@, g0);
        }
        if !self.places.is_copy(pl) {
            g.read(pl, at, Ghost(self@));
        }
    }

    /// Read a receiver that is a value.
    #[verifier::spinoff_prover]
    fn claim_receiver(&mut self, v: &Val, at: Span, g: &mut Gather)
        requires
            old(self).inv(),
            gather_ok(old(self)@, old(g)@),
            old(self)@.val_ok(v@),
        ensures
            stepped(*old(self), *final(self)),
            gather_ok(final(self)@, final(g)@),
            (final(self)@, final(g)@) == claim_receiver(old(self)@, v@, at, old(g)@),
    {
        let ghost start = *self;
        let ghost g0 = g@;
        proof {
            reveal(claim_receiver);
        }
        self.claim(v);
        proof {
            lemma_gather_kept(start@, self@, g0);
            lemma_val_kept(start@, self@, v@);
        }
        g.reads(&v.borrowed, at, Ghost(self@));
    }

    /// Take a receiver out of its place.
    #[verifier::spinoff_prover]
    fn take_receiver(&mut self, pl: PlaceId, at: Span, g: &mut Gather)
        requires
            old(self).inv(),
            gather_ok(old(self)@, old(g)@),
            old(self)@.places.has(pl),
        ensures
            stepped(*old(self), *final(self)),
            gather_ok(final(self)@, final(g)@),
            (final(self)@, final(g)@) == take_receiver(old(self)@, pl, at, old(g)@),
    {
        let ghost start = *self;
        let ghost g0 = g@;
        proof {
            reveal(take_receiver);
        }
        let carried = self.escape_to_callee(pl);
        proof {
            lemma_gather_kept(start@, self@, g0);
        }
        g.carrying(&carried, Ghost(self@));
        let ghost had = self@;
        let ghost g1 = g@;
        self.emit_move(pl, at);
        proof {
            lemma_gather_kept(had, self@, g1);
        }
        g.takes(pl, at, Ghost(self@));
    }

    /// Pass a receiver on as a value.
    #[verifier::spinoff_prover]
    fn pass_receiver(&mut self, v: &Val, g: &mut Gather)
        requires
            old(self).inv(),
            gather_ok(old(self)@, old(g)@),
            old(self)@.val_ok(v@),
        ensures
            stepped(*old(self), *final(self)),
            gather_ok(final(self)@, final(g)@),
            (final(self)@, final(g)@) == pass_receiver(old(self)@, v@, old(g)@),
    {
        let ghost start = *self;
        let ghost g0 = g@;
        proof {
            reveal(pass_receiver);
        }
        self.mark_escapes(&v.sites, PASSED);
        proof {
            lemma_gather_kept(start@, self@, g0);
            lemma_val_kept(start@, self@, v@);
        }
        g.carrying(&v.sites, Ghost(self@));
    }

    /// The receiver under its declared mode.
    #[verifier::spinoff_prover]
    pub(crate) fn lower_receiver(&mut self, d: bool, recv: &'t Expr, at: Span, p: &ParamSig, g: &mut Gather) -> (r:
        Result<(), NotYet>)
        requires
            old(self).inv(),
            gather_ok(old(self)@, old(g)@),
        ensures
            stepped(*old(self), *final(self)),
            gather_ok(final(self)@, final(g)@),
            (final(self)@, final(g)@, unit_result(r)) == lower_receiver(
                old(self).cx,
                d,
                old(self)@,
                *recv,
                at,
                *p,
                old(g)@,
            ),
        decreases level(d), recv, 5nat,
    {
        proof {
            reveal(lower_receiver);
        }
        let ghost start = *self;
        let ghost g0 = g@;
        let placed = self.as_place(d, recv);
        proof {
            lemma_gather_kept(start@, self@, g0);
        }
        let ghost mid = *self;
        match (p.mode, placed) {
            (None, Some((pl, _))) => {
                self.read_receiver(pl, at, g);
                Ok(())
            },
            (Some(ParamMode::Mut), Some((pl, ty))) => {
                self.lend_receiver(pl, ty, at, p, g);
                Ok(())
            },
            (Some(ParamMode::Mut), None) => {
                self.mut_needs_place(at);
                proof {
                    lemma_gather_kept(mid@, self@, g0);
                }
                Ok(())
            },
            (Some(ParamMode::Take), Some((pl, _))) => {
                self.take_receiver(pl, at, g);
                Ok(())
            },
            (mode, None) => {
                let v = self.eval_value(d, recv);
                proof {
                    lemma_gather_kept(mid@, self@, g0);
                }
                match v {
                    Err(n) => Err(n),
                    Ok(v) => {
                        if mode.is_none() {
                            self.claim_receiver(&v, at, g);
                        } else {
                            self.pass_receiver(&v, g);
                        }
                        Ok(())
                    },
                }
            },
        }
    }

    #[verifier::spinoff_prover]
    pub(crate) fn lend_receiver(
        &mut self,
        pl: PlaceId,
        ty: Option<Ty>,
        at: Span,
        p: &ParamSig,
        g: &mut Gather,
    )
        requires
            old(self).inv(),
            old(self)@.places.has(pl),
            gather_ok(old(self)@, old(g)@),
        ensures
            stepped(*old(self), *final(self)),
            gather_ok(final(self)@, final(g)@),
            (final(self)@, final(g)@) == lend_receiver(
                old(self).cx,
                old(self)@,
                pl,
                ty,
                at,
                *p,
                old(g)@,
            ),
    {
        let ghost start = *self;
        let ghost g0 = g@;
        let carried = self.lend_mut(pl, at);
        proof {
            lemma_gather_kept(start@, self@, g0);
        }
        g.carrying(&carried, Ghost(self@));
        match &p.view {
            Some(fields) => {
                let base = self.places.get(pl).duplicate();
                assert(base_ok(self@.places.places[pl.0 as int].base, self@.locals.len()));
                let known = match ty {
                    Some(t) => self.cx.tabs.fields_of(t),
                    None => None,
                };
                assert(opt_fields(known) == opt_fields_of(start.cx, ty));
                self.lend_fields(&base, &known, fields, at, g);
            },
            None => {
                g.mutates(pl, at, Ghost(self@));
            },
        }
    }

    #[verifier::spinoff_prover]
    pub(crate) fn lend_fields(
        &mut self,
        base: &Place,
        fields: &Option<Vec<(String, Ty)>>,
        view: &Vec<String>,
        at: Span,
        g: &mut Gather,
    )
        requires
            old(self).inv(),
            gather_ok(old(self)@, old(g)@),
            base_ok(base@.base, old(self)@.locals.len()),
        ensures
            stepped(*old(self), *final(self)),
            gather_ok(final(self)@, final(g)@),
            (final(self)@, final(g)@) == lend_fields(
                old(self).cx,
                old(self)@,
                base@,
                opt_fields(*fields),
                view@,
                0,
                at,
                old(g)@,
            ),
    {
        proof {
            reveal(lend_fields);
        }
        let ghost start = *self;
        let ghost g0 = g@;
        let ghost fv = opt_fields(*fields);
        let mut i: usize = 0;
        while i < view.len()
            invariant
                i <= view.len(),
                start == *old(self),
                g0 == old(g)@,
                stepped(start, *self),
                gather_ok(self@, g@),
                base_ok(base@.base, start@.locals.len()),
                fv == opt_fields(*fields),
                lend_fields(start.cx, start@, base@, fv, view@, 0, at, g0) == lend_fields(
                    start.cx,
                    self@,
                    base@,
                    fv,
                    view@,
                    i as int,
                    at,
                    g@,
                ),
            decreases view.len() - i,
        {
            proof {
                reveal(lend_fields);
            }
            let ghost before = self@;
            let ghost was = g@;
            let fty = match fields {
                Some(fs) => first_field(fs, view[i].as_str()),
                None => None,
            };
            let copy = self.cx.tabs.opt_copy(fty);
            let id = self.intern(base.field(view[i].as_str()), copy);
            proof {
                lemma_gather_kept(before, self@, was);
            }
            g.mutates(id, at, Ghost(self@));
            i = i + 1;
        }
    }

    #[verifier::spinoff_prover]
    #[verifier::rlimit(30)]
    pub(crate) fn lower_arg(&mut self, d: bool, cs: &CallSig, p: &ParamSig, arg: &'t Arg, g: &mut Gather) -> (r:
        Result<(), NotYet>)
        requires
            old(self).inv(),
            gather_ok(old(self)@, old(g)@),
        ensures
            stepped(*old(self), *final(self)),
            gather_ok(final(self)@, final(g)@),
            (final(self)@, final(g)@, unit_result(r)) == lower_arg(
                old(self).cx,
                d,
                old(self)@,
                *cs,
                *p,
                *arg,
                old(g)@,
            ),
        decreases level(d), arg, 0nat,
    {
        proof {
            reveal(lower_arg);
        }
        let ghost start = *self;
        let ghost g0 = g@;
        let v = &arg.value;
        self.mode_mismatch(cs, p, v.span, arg.mode_span, arg.mode, p.mode);
        let placed = self.as_place(d, v);
        match p.mode {
            None => match placed {
                Some((pl, _)) => {
                    self.emit_read(pl, v.span);
                    self.mark_region_lent(pl);
                    proof {
                        lemma_gather_kept(start@, self@, g0);
                    }
                    if self.places.is_copy(pl) {
                        let ghost had = self@;
                        self.check_copy_read(pl, v.span, &g.muts);
                        proof {
                            lemma_gather_kept(had, self@, g0);
                        }
                    } else {
                        g.read(pl, v.span, Ghost(self@));
                    }
                    Ok(())
                },
                None => {
                    let av = match self.eval_value(d, v) {
                        Err(n) => {
                            proof {
                                lemma_gather_kept(start@, self@, g0);
                            }
                            return Err(n);
                        },
                        Ok(av) => av,
                    };
                    let ghost had = self@;
                    self.claim(&av);
                    proof {
                        lemma_gather_kept(start@, self@, g0);
                        lemma_val_kept(had, self@, av@);
                    }
                    g.reads(&av.borrowed, v.span, Ghost(self@));
                    Ok(())
                },
            },
            Some(ParamMode::Mut) => match placed {
                Some((pl, _)) => {
                    let carried = self.lend_mut(pl, v.span);
                    proof {
                        lemma_gather_kept(start@, self@, g0);
                    }
                    g.carrying(&carried, Ghost(self@));
                    g.mutates(pl, v.span, Ghost(self@));
                    g.claims_mut(pl, v.span, Ghost(self@));
                    Ok(())
                },
                None => {
                    self.mut_needs_place(v.span);
                    match self.eval_value(d, v) {
                        Err(n) => {
                            proof {
                                lemma_gather_kept(start@, self@, g0);
                            }
                            Err(n)
                        },
                        Ok(_) => {
                            proof {
                                lemma_gather_kept(start@, self@, g0);
                            }
                            Ok(())
                        },
                    }
                },
            },
            Some(ParamMode::Take) => match placed {
                Some((pl, _)) => {
                    let carried = self.escape_to_callee(pl);
                    proof {
                        lemma_gather_kept(start@, self@, g0);
                    }
                    g.carrying(&carried, Ghost(self@));
                    let ghost had = self@;
                    let ghost g1 = g@;
                    self.emit_move(pl, v.span);
                    proof {
                        lemma_gather_kept(had, self@, g1);
                    }
                    g.takes(pl, v.span, Ghost(self@));
                    Ok(())
                },
                None => {
                    let av = match self.eval_value(d, v) {
                        Err(n) => {
                            proof {
                                lemma_gather_kept(start@, self@, g0);
                            }
                            return Err(n);
                        },
                        Ok(av) => av,
                    };
                    let ghost had = self@;
                    self.mark_escapes(&av.sites, PASSED);
                    proof {
                        lemma_gather_kept(start@, self@, g0);
                        lemma_val_kept(had, self@, av@);
                    }
                    g.carrying(&av.sites, Ghost(self@));
                    Ok(())
                },
            },
        }
    }

    /// One argument of a call with or without a resolved signature.
    #[verifier::spinoff_prover]
    pub(crate) fn lower_one(&mut self, d: bool, sig: &Option<CallSig>, i: usize, arg: &'t Arg, g: &mut Gather) -> (r:
        Result<(), NotYet>)
        requires
            old(self).inv(),
            gather_ok(old(self)@, old(g)@),
        ensures
            stepped(*old(self), *final(self)),
            gather_ok(final(self)@, final(g)@),
            (final(self)@, final(g)@, unit_result(r)) == lower_one(
                old(self).cx,
                d,
                old(self)@,
                *sig,
                i as nat,
                *arg,
                old(g)@,
            ),
        decreases level(d), arg, 1nat,
    {
        proof {
            reveal(lower_one);
        }
        let ghost start = *self;
        let ghost g0 = g@;
        let v = &arg.value;
        if let Some(cs) = sig {
            let param: Option<&ParamSig> = if cs.has_self {
                if cs.params.len() > 0 && i < cs.params.len() - 1 {
                    Some(&cs.params[i + 1])
                } else {
                    None
                }
            } else if i < cs.params.len() {
                Some(&cs.params[i])
            } else {
                None
            };
            if let Some(p) = param {
                if cs.ctor {
                    if let Some(m) = arg.mode {
                        self.mode_mismatch(cs, p, v.span, arg.mode_span, Some(m), None);
                    }
                    match self.eval_value(d, v) {
                        Err(n) => {
                            proof {
                                lemma_gather_kept(start@, self@, g0);
                            }
                            return Err(n);
                        },
                        Ok(pv) => {
                            proof {
                                lemma_gather_kept(start@, self@, g0);
                            }
                            g.part(pv, v.span, Ghost(self@));
                        },
                    }
                    return Ok(());
                }
                return self.lower_arg(d, cs, p, arg, g);
            }
        }
        match self.read_operand(d, v) {
            Err(n) => {
                proof {
                    lemma_gather_kept(start@, self@, g0);
                }
                Err(n)
            },
            Ok(_) => {
                proof {
                    lemma_gather_kept(start@, self@, g0);
                }
                Ok(())
            },
        }
    }

    #[verifier::spinoff_prover]
    pub(crate) fn lower_args(&mut self, d: bool, sig: &Option<CallSig>, args: &'t Vec<Arg>, g: &mut Gather) -> (r:
        Result<(), NotYet>)
        requires
            old(self).inv(),
            gather_ok(old(self)@, old(g)@),
        ensures
            stepped(*old(self), *final(self)),
            gather_ok(final(self)@, final(g)@),
            (final(self)@, final(g)@, unit_result(r)) == lower_args(
                old(self).cx,
                d,
                old(self)@,
                *sig,
                *args,
                0,
                old(g)@,
            ),
        decreases level(d), args, 0nat,
    {
        proof {
            reveal(lower_args);
        }
        let ghost start = *self;
        let ghost g0 = g@;
        let mut i: usize = 0;
        while i < args.len()
            invariant
                i <= args.len(),
                start == *old(self),
                g0 == old(g)@,
                stepped(start, *self),
                gather_ok(self@, g@),
                lower_args(start.cx, d, start@, *sig, *args, 0, g0) == lower_args(
                    start.cx,
                    d,
                    self@,
                    *sig,
                    *args,
                    i as nat,
                    g@,
                ),
            decreases args.len() - i,
        {
            proof {
                reveal(lower_args);
            }
            match self.lower_one(d, sig, i, &args[i], g) {
                Err(n) => return Err(n),
                Ok(_) => {},
            }
            i = i + 1;
        }
        Ok(())
    }

    #[verifier::spinoff_prover]
    pub(crate) fn check_views(&mut self, args: &Vec<(PlaceId, Span)>)
        requires
            old(self).inv(),
            args_ok(old(self)@.places, args@),
        ensures
            stepped(*old(self), *final(self)),
            final(self)@ == check_views(old(self)@, args@, 0),
    {
        proof {
            reveal(check_views);
        }
        let ghost start = *self;
        let mut i: usize = 0;
        while i < args.len()
            invariant
                i <= args.len(),
                start == *old(self),
                stepped(start, *self),
                args_ok(start@.places, args@),
                check_views(start@, args@, 0) == check_views(self@, args@, i as int),
            decreases args.len() - i,
        {
            proof {
                reveal(check_views);
            }
            let (p, at) = args[i];
            assert(start@.places.has(args@[i as int].0));
            self.check_view(p, at);
            i = i + 1;
        }
    }

    #[verifier::spinoff_prover]
    pub(crate) fn embed_parts(&mut self, parts: &Vec<(Val, Span)>, region: RegionId, at: Span, first: Val) -> (r:
        Val)
        requires
            old(self).inv(),
            parts_ok(old(self)@, part_views(parts@)),
            old(self)@.val_ok(first@),
            region.0 < old(self)@.rt.regions.len(),
        ensures
            stepped(*old(self), *final(self)),
            final(self)@.val_ok(r@),
            (final(self)@, r@) == embed_parts(
                old(self)@,
                part_views(parts@),
                0,
                region,
                at,
                first@,
            ),
    {
        proof {
            reveal(embed_parts);
        }
        let ghost start = *self;
        let ghost v0 = first@;
        let ghost all = part_views(parts@);
        let mut acc = first;
        let mut i: usize = 0;
        while i < parts.len()
            invariant
                i <= parts.len(),
                all == part_views(parts@),
                parts_ok(start@, all),
                start == *old(self),
                v0 == first@,
                stepped(start, *self),
                region.0 < start@.rt.regions.len(),
                self@.val_ok(acc@),
                embed_parts(start@, all, 0, region, at, v0) == embed_parts(
                    self@,
                    all,
                    i as int,
                    region,
                    at,
                    acc@,
                ),
            decreases parts.len() - i,
        {
            proof {
                reveal(embed_parts);
            }
            let ghost before = self@;
            let v = &parts[i].0;
            assert(all[i as int] == (v@, parts@[i as int].1));
            proof {
                lemma_val_kept(start@, self@, v@);
            }
            if let Some(r) = v.region {
                self.set_moved(r);
                self.set_parent(r, region);
            }
            proof {
                lemma_val_kept(start@, self@, v@);
            }
            self.demand_store(&v.sites, region, Some(at), parts[i].1);
            proof {
                lemma_val_kept(start@, self@, v@);
                lemma_val_kept(before, self@, acc@);
                lemma_merge_ok(self@, acc@, v@);
            }
            acc.merge(v.duplicate());
            i = i + 1;
        }
        acc
    }

    #[verifier::spinoff_prover]
    pub(crate) fn finish_ctor(&mut self, e: &'t Expr, g: Gather) -> (r: Result<Val, NotYet>)
        requires
            old(self).inv(),
            gather_ok(old(self)@, g@),
        ensures
            stepped(*old(self), *final(self)),
            result_ok(final(self)@, r),
            (final(self)@, val_result(r)) == finish_ctor(old(self).cx, old(self)@, *e, g@),
    {
        let ghost start = *self;
        let ty = self.cx.tabs.opt_render(ty_of(e));
        let site = self.alloc_site(ty, SiteKind::Lit, e.span);
        let region = self.site_region(site);
        proof {
            lemma_site_ok(self@, site, e.span);
            lemma_gather_kept(start@, self@, g@);
        }
        let mut v = self.embed_parts(&g.parts, region, e.span, Val::site(site, e.span));
        let ghost was = v@;
        v.region = None;
        assert(v@ =~= (ValView { region: None, ..was }));
        Ok(v)
    }

    #[verifier::spinoff_prover]
    pub(crate) fn mut_targets(&self, args: &Vec<(PlaceId, Span)>) -> (r: Vec<PlaceId>)
        requires
            self@.places.wf(),
            args_ok(self@.places, args@),
        ensures
            r@ == mut_targets(self@.places, args@, args@.len()),
            forall|k: int| 0 <= k < r@.len() ==> self@.places.has(#[trigger] r@[k]),
    {
        proof {
            reveal(mut_targets);
        }
        let mut out: Vec<PlaceId> = Vec::new();
        let mut i: usize = 0;
        while i < args.len()
            invariant
                i <= args.len(),
                self@.places.wf(),
                args_ok(self@.places, args@),
                out@ == mut_targets(self@.places, args@, i as nat),
                forall|k: int| 0 <= k < out@.len() ==> self@.places.has(#[trigger] out@[k]),
            decreases args.len() - i,
        {
            proof {
                reveal(mut_targets);
            }
            let p = args[i].0;
            assert(self@.places.has(args@[i as int].0));
            if !self.places.is_copy(p) {
                out.push(p);
            }
            i = i + 1;
        }
        out
    }

    #[verifier::spinoff_prover]
    pub(crate) fn hold_targets(&mut self, places: &Vec<PlaceId>, site: SiteId, at: Span)
        requires
            old(self).inv(),
            site.0 < old(self)@.sites.len(),
            forall|k: int| 0 <= k < places@.len() ==> old(self)@.places.has(#[trigger] places@[k]),
        ensures
            stepped(*old(self), *final(self)),
            final(self)@ == hold_targets(old(self)@, places@, 0, site, at),
    {
        proof {
            reveal(hold_targets);
        }
        let ghost start = *self;
        let mut one: Vec<SiteId> = Vec::new();
        one.push(site);
        assert(one@ =~= seq![site]);
        let mut i: usize = 0;
        while i < places.len()
            invariant
                i <= places.len(),
                one@ == seq![site],
                site.0 < start@.sites.len(),
                start == *old(self),
                stepped(start, *self),
                forall|k: int| 0 <= k < places@.len() ==> start@.places.has(#[trigger] places@[k]),
                hold_targets(start@, places@, 0, site, at) == hold_targets(
                    self@,
                    places@,
                    i as int,
                    site,
                    at,
                ),
            decreases places.len() - i,
        {
            proof {
                reveal(hold_targets);
            }
            let p = places[i];
            assert(start@.places.has(places@[i as int]));
            assert(base_ok(self@.places.places[p.0 as int].base, self@.locals.len()));
            let local = match &self.places.get(p).base {
                Base::Local(l) => Some(*l),
                Base::Global(..) => None,
            };
            if let Some(l) = local {
                proof {
                    reveal(cells_in);
                }
                self.hold(l, &one, at);
            }
            i = i + 1;
        }
    }

    #[verifier::spinoff_prover]
    pub(crate) fn finish_call(&mut self, e: &'t Expr, g: Gather) -> (r: Result<Val, NotYet>)
        requires
            old(self).inv(),
            gather_ok(old(self)@, g@),
        ensures
            stepped(*old(self), *final(self)),
            result_ok(final(self)@, r),
            (final(self)@, val_result(r)) == finish_call(old(self).cx, old(self)@, *e, g@),
    {
        let ghost start = *self;
        let ghost gv = g@;
        let rt = ty_of(e);
        let region = is_region_return(&self.cx, rt);
        let heap = !region && rt.is_some() && !self.cx.tabs.opt_copy(rt);
        let targets = self.mut_targets(&g.surface.mut_args);
        let surfaced = g.surface.mut_args.len() > 0 || g.surface.read_args.len() > 0
            || g.surface.take_args.len() > 0;
        let c_call = g.surface.c_call;
        let text = if heap {
            self.cx.tabs.opt_render(rt)
        } else {
            lit(g.surface.callee.as_str()).concat("(..)")
        };
        let carry = g.carry;
        if surfaced || c_call {
            self.push(Stmt::Call(g.surface));
        }
        proof {
            lemma_none_ok(self@);
        }
        let mut out = Val::none();
        if heap || targets.len() > 0 {
            let site = self.alloc_site(text, SiteKind::CallResult, e.span);
            let cell = match kind_of(&self.cx, rt) {
                Some(TyKind::Shared(_)) | Some(TyKind::Weak(_)) => true,
                _ => false,
            };
            if cell {
                self.share(site);
                self.add_cell(site);
            }
            self.hold_targets(&targets, site, e.span);
            proof {
                lemma_none_ok(self@);
            }
            if heap {
                out = Val::site(site, e.span);
                proof {
                    lemma_site_ok(self@, site, e.span);
                    lemma_gather_kept(start@, self@, gv);
                }
                let ghost first = out@;
                let mut i: usize = 0;
                while i < carry.len()
                    invariant
                        i <= carry.len(),
                        out@ == (ValView {
                            sites: insert_sites(first.sites, carry@, i as nat),
                            ..first
                        }),
                    decreases carry.len() - i,
                {
                    add_site(&mut out.sites, carry[i]);
                    i = i + 1;
                    assert(out@ =~= (ValView {
                        sites: insert_sites(first.sites, carry@, i as nat),
                        ..first
                    }));
                }
                proof {
                    lemma_insert_cells(first.sites, carry@, carry@.len(), self@.sites.len());
                }
            }
        }
        if region {
            let ghost had = self@;
            let ghost was = out@;
            let rid = self.new_region(UNNAMED, RegionKind::Value, Strategy::Arena, e.span);
            self.set_tainted(rid);
            out.region = Some(rid);
            out.origin = Some(e.span);
            proof {
                lemma_val_kept(had, self@, was);
                assert(out@ =~= (ValView { region: Some(rid), origin: Some(e.span), ..was }));
            }
        }
        Ok(out)
    }

    #[verifier::spinoff_prover]
    pub(crate) fn record_prov(&mut self, cs: &CallSig, recv: &'t Expr, at: Span)
        requires
            old(self).inv(),
        ensures
            stepped(*old(self), *final(self)),
            final(self)@ == record_prov(old(self).cx, old(self)@, *cs, *recv, at),
    {
        let ptr = match kind_of(&self.cx, ty_of(recv)) {
            Some(TyKind::Ptr(_)) => true,
            _ => false,
        };
        if ptr && is_prov_op(cs.callee.as_str()) {
            let what = lit("the provenance op `").concat(cs.callee.as_str()).concat("`");
            self.require_unsafe(what.as_str(), at);
            if str_eq(cs.callee.as_str(), "expose") {
                self.push(Stmt::Expose { what: recv.text.clone(), dir: "ptr->int", span: at });
            } else if str_eq(cs.callee.as_str(), "with_exposed") {
                self.push(Stmt::Expose { what: recv.text.clone(), dir: "int->ptr", span: at });
            }
            self.push(
                Stmt::ProvOp { op: cs.callee.clone(), ptr: recv.text.clone(), span: at },
            );
        }
    }

    #[verifier::spinoff_prover]
    pub(crate) fn call_receiver(&mut self, d: bool, cs: &CallSig, base: &'t Expr, at: Span, g: &mut Gather) -> (r:
        Result<(), NotYet>)
        requires
            old(self).inv(),
            gather_ok(old(self)@, old(g)@),
        ensures
            stepped(*old(self), *final(self)),
            gather_ok(final(self)@, final(g)@),
            (final(self)@, final(g)@, unit_result(r)) == call_receiver(
                old(self).cx,
                d,
                old(self)@,
                *cs,
                *base,
                at,
                old(g)@,
            ),
        decreases level(d), base, 7nat,
    {
        proof {
            reveal(call_receiver);
        }
        match &base.kind {
            ExprKind::Paren(inner, Some(_)) => self.call_on(d, cs, inner, base.span, at, g),
            _ => self.call_on(d, cs, base, base.span, at, g),
        }
    }

    #[verifier::spinoff_prover]
    pub(crate) fn call_on(
        &mut self,
        d: bool,
        cs: &CallSig,
        recv: &'t Expr,
        recv_at: Span,
        at: Span,
        g: &mut Gather,
    ) -> (r: Result<(), NotYet>)
        requires
            old(self).inv(),
            gather_ok(old(self)@, old(g)@),
        ensures
            stepped(*old(self), *final(self)),
            gather_ok(final(self)@, final(g)@),
            (final(self)@, final(g)@, unit_result(r)) == call_on(
                old(self).cx,
                d,
                old(self)@,
                *cs,
                *recv,
                recv_at,
                at,
                old(g)@,
            ),
        decreases level(d), recv, 6nat,
    {
        proof {
            reveal(call_on);
        }
        if cs.params.len() > 0 {
            match self.lower_receiver(d, recv, recv_at, &cs.params[0], g) {
                Err(n) => return Err(n),
                Ok(_) => {},
            }
        }
        let ghost had = self@;
        let named = match &recv.kind {
            ExprKind::Path(_) | ExprKind::Member(..) => true,
            _ => false,
        };
        let shared = match kind_of(&self.cx, ty_of(recv)) {
            Some(TyKind::Shared(_)) => true,
            _ => false,
        };
        if str_eq(cs.callee.as_str(), "clone") && named && shared {
            if let Some((p, _)) = self.as_place(d, recv) {
                self.push(Stmt::Dup { place: p, span: at });
            }
        }
        self.record_prov(cs, recv, at);
        proof {
            lemma_gather_kept(had, self@, g@);
        }
        Ok(())
    }

    #[verifier::spinoff_prover]
    pub(crate) fn call_callee(&mut self, d: bool, callee: &'t Expr) -> (r: Result<(), NotYet>)
        requires
            old(self).inv(),
        ensures
            stepped(*old(self), *final(self)),
            (final(self)@, unit_result(r)) == call_callee(old(self).cx, d, old(self)@, *callee),
        decreases level(d), callee, 5nat,
    {
        proof {
            reveal(call_callee);
        }
        match &callee.kind {
            ExprKind::Path(_) | ExprKind::Member(..) => {
                if let Some((p, _)) = self.as_place(d, callee) {
                    self.emit_read(p, callee.span);
                }
                Ok(())
            },
            _ => match self.eval_value(d, callee) {
                Err(n) => Err(n),
                Ok(_) => Ok(()),
            },
        }
    }

    #[verifier::spinoff_prover]
    pub(crate) fn call_head(&mut self, d: bool, e: &'t Expr, g: &mut Gather) -> (r: Result<
        (),
        NotYet,
    >)
        requires
            old(self).inv(),
            gather_ok(old(self)@, old(g)@),
        ensures
            stepped(*old(self), *final(self)),
            gather_ok(final(self)@, final(g)@),
            (final(self)@, final(g)@, unit_result(r)) == call_head(
                old(self).cx,
                d,
                old(self)@,
                *e,
                old(g)@,
            ),
        decreases level(d), e, 1nat,
    {
        proof {
            reveal(call_head);
        }
        let ghost start = *self;
        if let ExprKind::Call { callee, sig, .. } = &e.kind {
            let mut ctor = false;
            if let Some(cs) = sig {
                if cs.has_self {
                    if let ExprKind::Member(base, _) = &callee.kind {
                        return self.call_receiver(d, cs, base, e.span, g);
                    }
                }
                ctor = cs.ctor;
            }
            if !ctor {
                let r = self.call_callee(d, callee);
                proof {
                    lemma_gather_kept(start@, self@, g@);
                }
                return r;
            }
        }
        Ok(())
    }

    #[verifier::spinoff_prover]
    pub(crate) fn call_tail(&mut self, e: &'t Expr, ctor: bool, g: Gather) -> (r: Result<Val, NotYet>)
        requires
            old(self).inv(),
            gather_ok(old(self)@, g@),
        ensures
            stepped(*old(self), *final(self)),
            result_ok(final(self)@, r),
            (final(self)@, val_result(r)) == call_tail(old(self).cx, old(self)@, *e, ctor, g@),
    {
        let ghost had = self@;
        self.check_views(&g.surface.mut_args);
        proof {
            lemma_gather_kept(had, self@, g@);
        }
        self.check_views(&g.surface.read_args);
        proof {
            lemma_gather_kept(had, self@, g@);
        }
        self.check_views(&g.surface.take_args);
        proof {
            lemma_gather_kept(had, self@, g@);
        }
        if ctor {
            self.finish_ctor(e, g)
        } else {
            self.finish_call(e, g)
        }
    }

    #[verifier::spinoff_prover]
    pub(crate) fn eval_call(&mut self, d: bool, e: &'t Expr) -> (r: Result<Val, NotYet>)
        requires
            old(self).inv(),
        ensures
            stepped(*old(self), *final(self)),
            result_ok(final(self)@, r),
            (final(self)@, val_result(r)) == eval_call(old(self).cx, d, old(self)@, *e),
        decreases level(d), e, 2nat,
    {
        proof {
            reveal(eval_call);
        }
        match &e.kind {
            ExprKind::Call { callee, args, sig, .. } => {
                let mut g = match sig {
                    Some(cs) => Gather::start(cs.callee.clone(), e.span, cs.c_call),
                    None => Gather::start(callee.text.clone(), e.span, false),
                };
                assert(g@ == call_start(*e, **callee, *sig));
                if g.surface.c_call {
                    let what = lit("the C call `").concat(g.surface.callee.as_str()).concat("`");
                    self.require_unsafe(what.as_str(), e.span);
                }
                proof {
                    reveal(cells_in);
                    reveal(claims_in);
                    assert(gather_ok(self@, g@));
                }
                match self.call_head(d, e, &mut g) {
                    Err(n) => return Err(n),
                    Ok(_) => {},
                }
                match self.lower_args(d, sig, args, &mut g) {
                    Err(n) => return Err(n),
                    Ok(_) => {},
                }
                let ctor = match sig {
                    Some(cs) => cs.ctor,
                    None => false,
                };
                self.call_tail(e, ctor, g)
            },
            _ => {
                proof {
                    lemma_none_ok(self@);
                }
                Ok(Val::none())
            },
        }
    }
}

fn is_region_return(cx: &Cx<'_>, t: Option<Ty>) -> (r: bool)
    ensures
        r == returns_region(*cx, t),
{
    match t {
        None => false,
        Some(x) => match kind_of(cx, t) {
            Some(TyKind::RegionTy) => true,
            Some(TyKind::ErrUnion(ok, _)) => match cx.tabs.get(x.table).kind(*ok) {
                Some(TyKind::RegionTy) => true,
                _ => false,
            },
            _ => false,
        },
    }
}

fn is_prov_op(callee: &str) -> (r: bool)
    ensures
        r == prov_op(callee@),
{
    str_eq(callee, "addr") || str_eq(callee, "with_addr") || str_eq(callee, "expose") || str_eq(
        callee,
        "with_exposed",
    )
}

/// What a call gathers while its arguments are lowered.
pub struct Gather {
    pub surface: CallSurface,
    pub carry: Vec<SiteId>,
    pub muts: Vec<(PlaceId, Span)>,
    pub parts: Vec<(Val, Span)>,
}

pub open spec fn part_views(v: Seq<(Val, Span)>) -> Seq<(ValView, Span)> {
    Seq::new(v.len(), |i: int| (v[i].0@, v[i].1))
}

pub open spec fn parts_ok(st: LowView<'_>, v: Seq<(ValView, Span)>) -> bool {
    forall|i: int| 0 <= i < v.len() ==> st.val_ok((#[trigger] v[i]).0)
}

impl View for Gather {
    type V = Gathered;

    open spec fn view(&self) -> Gathered {
        Gathered {
            surface: self.surface@,
            carry: self.carry@,
            muts: self.muts@,
            parts: part_views(self.parts@),
        }
    }
}

/// What was gathered names only things that exist.
pub open spec fn gather_ok(st: LowView<'_>, g: Gathered) -> bool {
    &&& args_ok(st.places, g.surface.mut_args)
    &&& args_ok(st.places, g.surface.read_args)
    &&& args_ok(st.places, g.surface.take_args)
    &&& cells_in(g.carry, st.sites.len())
    &&& claims_in(g.muts, st.places)
    &&& parts_ok(st, g.parts)
}

pub proof fn lemma_gather_kept(a: LowView<'_>, b: LowView<'_>, g: Gathered)
    requires
        gather_ok(a, g),
        a.keeps_ids(b),
    ensures
        gather_ok(b, g),
{
    reveal(cells_in);
    reveal(claims_in);
    let s = g.surface;
    assert forall|i: int| 0 <= i < s.mut_args.len() implies b.places.has((#[trigger] s.mut_args[i]).0) by {
        assert(a.places.has(s.mut_args[i].0));
    }
    assert forall|i: int| 0 <= i < s.read_args.len() implies b.places.has(
        (#[trigger] s.read_args[i]).0,
    ) by {
        assert(a.places.has(s.read_args[i].0));
    }
    assert forall|i: int| 0 <= i < s.take_args.len() implies b.places.has(
        (#[trigger] s.take_args[i]).0,
    ) by {
        assert(a.places.has(s.take_args[i].0));
    }
    assert forall|i: int| 0 <= i < g.muts.len() implies b.places.has((#[trigger] g.muts[i]).0) by {
        assert(a.places.has(g.muts[i].0));
    }
    assert forall|i: int| 0 <= i < g.parts.len() implies b.val_ok((#[trigger] g.parts[i]).0) by {
        lemma_val_kept(a, b, g.parts[i].0);
    }
}

impl Gather {
    fn start(callee: String, span: Span, c_call: bool) -> (g: Gather)
        ensures
            g@ == (Gathered {
                surface: CallView {
                    callee: callee@,
                    span,
                    mut_args: Seq::empty(),
                    read_args: Seq::empty(),
                    take_args: Seq::empty(),
                    c_call,
                },
                carry: Seq::empty(),
                muts: Seq::empty(),
                parts: Seq::empty(),
            }),
    {
        let g = Gather {
            surface: CallSurface {
                callee,
                span,
                mut_args: Vec::new(),
                read_args: Vec::new(),
                take_args: Vec::new(),
                c_call,
            },
            carry: Vec::new(),
            muts: Vec::new(),
            parts: Vec::new(),
        };
        assert(g@.parts =~= Seq::empty());
        g
    }

    fn read(&mut self, p: PlaceId, at: Span, st: Ghost<LowView<'_>>)
        requires
            gather_ok(st@, old(self)@),
            st@.places.has(p),
        ensures
            gather_ok(st@, final(self)@),
            final(self)@ == old(self)@.read(p, at),
    {
        let ghost g = self@;
        self.surface.read_args.push((p, at));
        proof {
            assert(self@ =~= g.read(p, at));
        }
    }

    fn mutates(&mut self, p: PlaceId, at: Span, st: Ghost<LowView<'_>>)
        requires
            gather_ok(st@, old(self)@),
            st@.places.has(p),
        ensures
            gather_ok(st@, final(self)@),
            final(self)@ == old(self)@.mutates(p, at),
    {
        let ghost g = self@;
        self.surface.mut_args.push((p, at));
        proof {
            assert(self@ =~= g.mutates(p, at));
        }
    }

    fn takes(&mut self, p: PlaceId, at: Span, st: Ghost<LowView<'_>>)
        requires
            gather_ok(st@, old(self)@),
            st@.places.has(p),
        ensures
            gather_ok(st@, final(self)@),
            final(self)@ == old(self)@.takes(p, at),
    {
        let ghost g = self@;
        self.surface.take_args.push((p, at));
        proof {
            assert(self@ =~= g.takes(p, at));
        }
    }

    fn claims_mut(&mut self, p: PlaceId, at: Span, st: Ghost<LowView<'_>>)
        requires
            gather_ok(st@, old(self)@),
            st@.places.has(p),
        ensures
            gather_ok(st@, final(self)@),
            final(self)@ == old(self)@.claims_mut(p, at),
    {
        let ghost g = self@;
        self.muts.push((p, at));
        proof {
            assert(self@ =~= g.claims_mut(p, at));
            reveal(claims_in);
        }
    }

    fn reads(&mut self, ps: &Vec<PlaceId>, at: Span, st: Ghost<LowView<'_>>)
        requires
            gather_ok(st@, old(self)@),
            forall|k: int| 0 <= k < ps@.len() ==> st@.places.has(#[trigger] ps@[k]),
        ensures
            gather_ok(st@, final(self)@),
            final(self)@ == old(self)@.reads(ps@, ps@.len(), at),
    {
        let ghost g = self@;
        let mut i: usize = 0;
        while i < ps.len()
            invariant
                i <= ps.len(),
                gather_ok(st@, self@),
                forall|k: int| 0 <= k < ps@.len() ==> st@.places.has(#[trigger] ps@[k]),
                self@ == g.reads(ps@, i as nat, at),
            decreases ps.len() - i,
        {
            assert(st@.places.has(ps@[i as int]));
            self.read(ps[i], at, st);
            i = i + 1;
        }
    }

    fn carrying(&mut self, sites: &Vec<SiteId>, st: Ghost<LowView<'_>>)
        requires
            gather_ok(st@, old(self)@),
            cells_in(sites@, st@.sites.len()),
        ensures
            gather_ok(st@, final(self)@),
            final(self)@ == old(self)@.carrying(sites@),
    {
        let ghost g = self@;
        let mut i: usize = 0;
        assert(self@ =~= g.carrying(sites@.take(0)));
        while i < sites.len()
            invariant
                i <= sites.len(),
                self@ == g.carrying(sites@.take(i as int)),
            decreases sites.len() - i,
        {
            self.carry.push(sites[i]);
            i = i + 1;
            assert(self@ =~= g.carrying(sites@.take(i as int)));
        }
        assert(sites@.take(i as int) =~= sites@);
        proof {
            reveal(cells_in);
            assert forall|k: int| 0 <= k < self@.carry.len() implies (#[trigger] self@.carry[k]).0
                < st@.sites.len() by {
                if k < g.carry.len() {
                    assert(self@.carry[k] == g.carry[k]);
                } else {
                    assert(self@.carry[k] == sites@[k - g.carry.len()]);
                }
            }
        }
    }

    fn part(&mut self, v: Val, at: Span, st: Ghost<LowView<'_>>)
        requires
            gather_ok(st@, old(self)@),
            st@.val_ok(v@),
        ensures
            gather_ok(st@, final(self)@),
            final(self)@ == old(self)@.part(v@, at),
    {
        let ghost g = self@;
        let ghost vv = v@;
        self.parts.push((v, at));
        proof {
            assert(self@.parts =~= g.parts.push((vv, at)));
            assert(self@ =~= g.part(vv, at));
        }
    }
}

} // verus!
