//! The entry points of the lowering: a function body or a module-level
//! initializer becomes a check CFG with its region record.

use vstd::prelude::*;

use crate::ast::{Block as AstBlock, Expr};
use crate::cfg::{
    Block, BlockId, Cfg, CfgView, LocalView, Region, RegionId, RegionKind, RegionView, SiteId,
    SiteKind, Strategy, StrategyView,
};
use crate::diag::{diag_views, texts, DiagView, Diagnostic, NotYet, NotYetView, Span};
use crate::lower::{close_scope, eval_value, unit_result, walk_block, NO_CLOSURE_HOME, NO_PAIR_HOME};
use crate::lowstate::{
    block_in, blocks_in, cells_in, claims_in, field_regions_in, holds_in, loans_in, loops_in,
    opens_in, parents_in, region_locals_in, regions_in, scopes_in, sites_in, stepped, Cx, Lowerer,
    LowView,
};
use crate::lowuse::{closing, end_span};
use crate::place::{PlaceTable, PlaceTableView};
use crate::regions::{
    law_barren, law_summary_wf, summarize, summary_of, RegionSummary, RegionTable, RegionTableView,
    SummaryView,
};
use crate::text::{lit, str_eq};
use crate::types::{ParamSig, TableRef, Ty, TyKind};

verus! {

/// A lowered body.
pub struct Lowered {
    pub cfg: Cfg,
    /// The context-free diagnostics of the walk.
    pub diags: Vec<Diagnostic>,
    pub regions: RegionSummary,
    /// The `shared` cells, each with its static atomicity bit.
    pub rc_cells: Vec<(SiteId, bool)>,
}

#[verifier::ext_equal]
pub struct LoweredView {
    pub cfg: CfgView,
    pub diags: Seq<DiagView>,
    pub regions: SummaryView,
    pub rc_cells: Seq<(SiteId, bool)>,
}

impl View for Lowered {
    type V = LoweredView;

    open spec fn view(&self) -> LoweredView {
        LoweredView {
            cfg: self.cfg@,
            diags: diag_views(self.diags@),
            regions: self.regions@,
            rc_cells: self.rc_cells@,
        }
    }
}

impl LoweredView {
    /// What the passes over a lowered body rely on.
    pub open spec fn wf(self) -> bool {
        &&& self.cfg.wf()
        &&& self.regions.wf()
        &&& forall|i: int|
            0 <= i < self.rc_cells.len() ==> (#[trigger] self.rc_cells[i]).0.0
                < self.cfg.sites.len()
        &&& forall|i: int|
            0 <= i < self.regions.promoted.len() ==> (#[trigger] self.regions.promoted[i]).0
                < self.regions.regions.len()
        &&& forall|i: int|
            0 <= i < self.regions.never_allocates.len() ==> (
            #[trigger] self.regions.never_allocates[i]).0 < self.regions.regions.len()
    }
}

/// The state before anything was lowered: the entry and exit blocks, and
/// one region, ambient.
pub open spec fn begun<'t>(name: Seq<char>, kind: RegionKind, at: Span) -> LowView<'t> {
    let empty = crate::cfg::BlockView { stmts: Seq::empty(), succs: Seq::empty(), trap: false };
    LowView {
        blocks: seq![empty, empty],
        locals: Seq::empty(),
        tys: Seq::empty(),
        places: PlaceTableView::empty(),
        cur: BlockId(0),
        scopes: Seq::empty(),
        loops: Seq::empty(),
        view_set: None,
        diags: Seq::empty(),
        rt: RegionTableView::empty().new_region(
            RegionView { name, kind, strategy: StrategyView::Arena, span: at },
        ),
        ambient: seq![RegionId(0)],
        sites: Seq::empty(),
        escape: Seq::empty(),
        holds: Seq::empty(),
        region_local: Seq::empty(),
        moved: seq![false],
        tainted: seq![false],
        lent: seq![false],
        promoted: Seq::empty(),
        conflicted: false,
        pattern_moves: Seq::empty(),
        static_region: if kind is Static {
            Some(RegionId(0))
        } else {
            None
        },
        open: Seq::empty(),
        parent: seq![None],
        frozen_region: seq![None],
        frozen_site: Seq::empty(),
        region_field: Seq::empty(),
        shared_site: Seq::empty(),
        rc_cells: Seq::empty(),
        claims: Seq::empty(),
        in_unsafe: false,
        loans: Seq::empty(),
        unclaimed: Seq::empty(),
    }
}

pub open spec fn param_ty(p: ParamSig) -> Ty {
    Ty { table: TableRef::Sig, id: p.ty }
}

/// A parameter, declared with its mode; a `self` with a view set pins the
/// body to the viewed fields.
pub open spec fn param_declared<'t>(cx: Cx<'t>, st: LowView<'t>, p: ParamSig) -> LowView<'t> {
    let l = st.next_local();
    let s = st.declare(cx.tabs, p.name@, p.span, Some(param_ty(p)));
    LowView {
        locals: s.locals.update(
            l.0 as int,
            LocalView { param_mode: Some(p.mode), ..s.locals[l.0 as int] },
        ),
        view_set: match p.view {
            Some(fields) => if p.name@ == "self"@ {
                Some((l, texts(fields@), p.span))
            } else {
                s.view_set
            },
            None => s.view_set,
        },
        ..s
    }
}

/// A parameter: a heap-reaching position gets a fresh region variable,
/// and a region parameter denotes one.
pub open spec fn bind_param<'t>(cx: Cx<'t>, st: LowView<'t>, p: ParamSig) -> LowView<'t> {
    let l = st.next_local();
    let ty = param_ty(p);
    let s1 = param_declared(cx, st, p);
    let rid = s1.next_region();
    let s2 = s1.new_region(p.name@, RegionKind::Param, StrategyView::Arena, p.span);
    if cx.tabs.at(ty) matches Some(TyKind::RegionTy) {
        s2.set_region_local(l.0, Some(rid))
    } else if !cx.tabs.is_copy_spec(ty) {
        s2.add_site(cx.tabs.text_of(ty), rid, SiteKind::Param, p.span).hold(
            l.0,
            seq![s2.next_site()],
            p.span,
        )
    } else {
        s1
    }
}

pub open spec fn bind_params<'t>(cx: Cx<'t>, st: LowView<'t>, ps: Seq<ParamSig>, i: int) -> LowView<
    't,
>
    decreases ps.len() - i,
{
    if i >= ps.len() {
        st
    } else {
        bind_params(cx, bind_param(cx, st, ps[i]), ps, i + 1)
    }
}

/// A borrowing value may land in a binding or in a call's surface,
/// nowhere else: the first that did not is refused by name.
pub open spec fn unclaimed_refusal(st: LowView<'_>) -> Result<(), NotYetView> {
    if st.unclaimed.len() == 0 {
        Ok(())
    } else {
        Err(
            NotYetView {
                construct: if st.unclaimed[0].1 {
                    NO_CLOSURE_HOME@
                } else {
                    NO_PAIR_HOME@
                },
                span: st.unclaimed[0].0,
            },
        )
    }
}

/// The outermost scope closes, every borrowing value has a home, and the
/// last block leaves.
pub open spec fn walked_out<'t>(cx: Cx<'t>, st: LowView<'t>, at: Span) -> Result<
    LowView<'t>,
    NotYetView,
> {
    match close_scope(cx, false, st, at) {
        (_, Err(n)) => Err(n),
        (s, Ok(_)) => match unclaimed_refusal(s) {
            Err(n) => Err(n),
            Ok(_) => Ok(s.goto(s.cur, BlockId(1))),
        },
    }
}

/// A function body. Its trailing value is the function's result, which
/// lands in the caller's region.
pub open spec fn fn_walked<'t>(cx: Cx<'t>, params: Seq<ParamSig>, body: AstBlock) -> Result<
    LowView<'t>,
    NotYetView,
> {
    let close = closing(body.span);
    let st = bind_params(
        cx,
        begun("caller"@, RegionKind::Caller, close).push_scope(),
        params,
        0,
    );
    match walk_block(cx, false, st, body, true) {
        (_, Err(n)) => Err(n),
        (s, Ok(v)) => walked_out(
            cx,
            s.demand_outlives_frame(
                v,
                match v.origin {
                    Some(at) => at,
                    None => close,
                },
            ),
            close,
        ),
    }
}

/// A module-level initializer: a body without parameters whose ambient
/// region is the static one.
pub open spec fn init_walked<'t>(cx: Cx<'t>, init: Expr) -> Result<LowView<'t>, NotYetView> {
    match eval_value(
        cx,
        false,
        begun("static"@, RegionKind::Static, init.span).push_scope(),
        init,
    ) {
        (_, Err(n)) => Err(n),
        (s, Ok(_)) => walked_out(cx, s, closing(init.span)),
    }
}

/// A cell is atomic exactly when a freeze reached it.
pub open spec fn cell_bits(st: LowView<'_>) -> Seq<(SiteId, bool)> {
    Seq::new(
        st.rc_cells.len(),
        |i: int| (st.rc_cells[i], st.frozen_site[st.rc_cells[i].0 as int] is Some),
    )
}

/// The finished body.
pub open spec fn finished(name: Seq<char>, st: LowView<'_>) -> LoweredView {
    LoweredView {
        cfg: CfgView {
            name,
            blocks: st.blocks,
            locals: st.locals,
            places: st.places,
            loans: st.loans,
            regions: st.rt.regions,
            sites: st.sites,
            entry: BlockId(0),
            exit: BlockId(1),
            pattern_moves: st.pattern_moves,
        },
        diags: st.diags,
        regions: summary_of(name, st.rt, st.sites, st.escape, st.promoted, st.conflicted),
        rc_cells: cell_bits(st),
    }
}

pub open spec fn finish_with(name: Seq<char>, r: Result<LowView<'_>, NotYetView>) -> Result<
    LoweredView,
    NotYetView,
> {
    match r {
        Ok(st) => Ok(finished(name, st)),
        Err(n) => Err(n),
    }
}

pub open spec fn lowered_result(r: Result<Lowered, NotYet>) -> Result<LoweredView, NotYetView> {
    match r {
        Ok(l) => Ok(l@),
        Err(n) => Err(n@),
    }
}

fn duplicate_regions(v: &Vec<Region>) -> (r: Vec<Region>)
    ensures
        crate::cfg::region_views(r@) == crate::cfg::region_views(v@),
{
    let mut out: Vec<Region> = Vec::new();
    let mut i: usize = 0;
    while i < v.len()
        invariant
            i <= v.len(),
            out@.len() == i,
            forall|k: int| 0 <= k < i ==> (#[trigger] out@[k])@ == v@[k]@,
        decreases v.len() - i,
    {
        let strategy = match &v[i].strategy {
            Strategy::Arena => Strategy::Arena,
            Strategy::Rc => Strategy::Rc,
            Strategy::Pool(p) => Strategy::Pool(p.clone()),
        };
        let r = Region { name: v[i].name.clone(), kind: v[i].kind, strategy, span: v[i].span };
        assert(r@ =~= v@[i as int]@);
        out.push(r);
        i = i + 1;
    }
    assert(crate::cfg::region_views(out@) =~= crate::cfg::region_views(v@));
    out
}

fn copy_texts(v: &Vec<String>) -> (r: Vec<String>)
    ensures
        texts(r@) == texts(v@),
{
    let mut out: Vec<String> = Vec::new();
    let mut i: usize = 0;
    while i < v.len()
        invariant
            i <= v.len(),
            out@.len() == i,
            forall|k: int| 0 <= k < i ==> (#[trigger] out@[k])@ == v@[k]@,
        decreases v.len() - i,
    {
        out.push(v[i].clone());
        i = i + 1;
    }
    assert(texts(out@) =~= texts(v@));
    out
}

impl<'t> Lowerer<'t> {
    /// The entry and exit blocks, and one ambient region.
    pub fn new(cx: Cx<'t>, name: &str, kind: RegionKind, at: Span) -> (r: Lowerer<'t>)
        requires
            cx.tabs.wf(),
        ensures
            r.inv(),
            r.cx == cx,
            r@ == begun::<'t>(name@, kind, at),
    {
        let region = Region { name: lit(name), kind, strategy: Strategy::Arena, span: at };
        assert(region@ =~= RegionView { name: name@, kind, strategy: StrategyView::Arena, span: at });
        let mut rt = RegionTable::default();
        let _ = rt.new_region(region);
        let mut blocks: Vec<Block> = Vec::new();
        blocks.push(Block::empty());
        blocks.push(Block::empty());
        let static_region = match kind {
            RegionKind::Static => Some(RegionId(0)),
            _ => None,
        };
        let r = Lowerer {
            cx,
            blocks,
            locals: Vec::new(),
            tys: Vec::new(),
            places: PlaceTable::new(),
            cur: BlockId(0),
            scopes: Vec::new(),
            loops: Vec::new(),
            view_set: None,
            diags: Vec::new(),
            rt,
            ambient: vec![RegionId(0)],
            sites: Vec::new(),
            escape: Vec::new(),
            holds: Vec::new(),
            region_local: Vec::new(),
            moved: vec![false],
            tainted: vec![false],
            lent: vec![false],
            promoted: Vec::new(),
            conflicted: false,
            pattern_moves: Vec::new(),
            static_region,
            open: Vec::new(),
            parent: vec![None],
            frozen_region: vec![None],
            frozen_site: Vec::new(),
            region_field: Vec::new(),
            shared_site: Vec::new(),
            rc_cells: Vec::new(),
            claims: Vec::new(),
            in_unsafe: false,
            loans: Vec::new(),
            unclaimed: Vec::new(),
        };
        proof {
            let v = begun::<'t>(name@, kind, at);
            assert(r@.blocks =~= v.blocks);
            assert(r@.locals =~= v.locals);
            assert(r@.scopes =~= v.scopes);
            assert(r@.diags =~= v.diags);
            assert(r@.sites =~= v.sites);
            assert(r@.escape =~= v.escape);
            assert(r@.holds =~= v.holds);
            assert(r@.region_field =~= v.region_field);
            assert(r@.ambient =~= v.ambient);
            assert(r@.moved =~= v.moved);
            assert(r@.parent =~= v.parent);
            assert(r@.frozen_region =~= v.frozen_region);
            assert(r@ =~= v);
            r.rt.lemma_inv();
            reveal(blocks_in);
            reveal(loans_in);
            reveal(loops_in);
            reveal(claims_in);
            reveal(scopes_in);
            reveal(holds_in);
            reveal(region_locals_in);
            reveal(regions_in);
            reveal(opens_in);
            reveal(parents_in);
            reveal(field_regions_in);
            reveal(sites_in);
            reveal(cells_in);
            assert forall|i: int| 0 <= i < r@.blocks.len() implies block_in(
                #[trigger] r@.blocks[i],
                r@.places,
                r@.loans.len(),
                r@.blocks.len(),
            ) by {
                assert(r@.blocks[i].stmts.len() == 0);
            }
            assert(r@.graph_ok());
        }
        r
    }

    fn bind_param(&mut self, p: &ParamSig)
        requires
            old(self).inv(),
        ensures
            stepped(*old(self), *final(self)),
            final(self)@ == bind_param(old(self).cx, old(self)@, *p),
    {
        let ghost start = *self;
        let ty = Ty { table: TableRef::Sig, id: p.ty };
        let l = self.declare(p.name.as_str(), p.span, Some(ty));
        let ghost s = self@;
        let ghost mid = *self;
        assert(s.locals[l.0 as int] == self.locals@[l.0 as int]@);
        self.locals[l.0 as usize].param_mode = Some(p.mode);
        if let Some(fields) = &p.view {
            if str_eq(p.name.as_str(), "self") {
                self.view_set = Some((l, copy_texts(fields), p.span));
            }
        }
        let ghost s1 = param_declared(start.cx, start@, *p);
        proof {
            assert(self@.locals =~= s1.locals);
            assert(self@ =~= s1);
            assert(self@.wf());
            assert(stepped(start, *self));
        }
        let region = match self.cx.tabs.get(ty.table).kind(ty.id) {
            Some(TyKind::RegionTy) => true,
            _ => false,
        };
        if region {
            let rid = self.new_region(p.name.as_str(), RegionKind::Param, Strategy::Arena, p.span);
            self.set_region_local(l.0, Some(rid));
        } else if !self.cx.tabs.is_copy(ty) {
            let rid = self.new_region(p.name.as_str(), RegionKind::Param, Strategy::Arena, p.span);
            let text = self.cx.tabs.render(ty);
            let site = self.add_site(text, rid, SiteKind::Param, p.span);
            let mut one: Vec<SiteId> = Vec::new();
            one.push(site);
            proof {
                assert(one@ =~= seq![site]);
                reveal(cells_in);
            }
            self.hold(l.0, &one, p.span);
        }
    }

    fn bind_params(&mut self, ps: &Vec<ParamSig>)
        requires
            old(self).inv(),
        ensures
            stepped(*old(self), *final(self)),
            final(self)@ == bind_params(old(self).cx, old(self)@, ps@, 0),
    {
        let ghost start = *self;
        let mut i: usize = 0;
        while i < ps.len()
            invariant
                i <= ps.len(),
                stepped(start, *self),
                bind_params(start.cx, start@, ps@, 0) == bind_params(
                    start.cx,
                    self@,
                    ps@,
                    i as int,
                ),
            decreases ps.len() - i,
        {
            self.bind_param(&ps[i]);
            i = i + 1;
        }
    }

    fn check_unclaimed_dyn(&self) -> (r: Result<(), NotYet>)
        ensures
            unit_result(r) == unclaimed_refusal(self@),
    {
        if self.unclaimed.len() == 0 {
            Ok(())
        } else {
            let (span, closure) = self.unclaimed[0];
            Err(
                NotYet {
                    construct: if closure {
                        NO_CLOSURE_HOME
                    } else {
                        NO_PAIR_HOME
                    },
                    span,
                },
            )
        }
    }

    fn walk_out(self, name: &str, at: Span) -> (r: Result<Lowered, NotYet>)
        requires
            self.inv(),
            self@.scopes.len() > 0,
        ensures
            lowered_result(r) == finish_with(name@, walked_out(self.cx, self@, at)),
            r matches Ok(l) ==> l@.wf(),
    {
        let mut low = self;
        match low.close_scope(false, at) {
            Err(n) => return Err(n),
            Ok(_) => {},
        }
        match low.check_unclaimed_dyn() {
            Err(n) => return Err(n),
            Ok(_) => {},
        }
        let cur = low.cur;
        low.goto(cur, BlockId(1));
        Ok(low.finish(name))
    }

    /// Lower a function body; the parameters come from its signature.
    pub fn lower_fn(cx: Cx<'t>, name: &str, params: &Vec<ParamSig>, body: &'t AstBlock) -> (r: Result<
        Lowered,
        NotYet,
    >)
        requires
            cx.tabs.wf(),
        ensures
            lowered_result(r) == finish_with(name@, fn_walked(cx, params@, *body)),
            r matches Ok(l) ==> l@.wf(),
    {
        let close = end_span(body.span);
        let mut low = Lowerer::new(cx, "caller", RegionKind::Caller, close);
        low.push_scope();
        low.bind_params(params);
        let v = match low.walk_block(false, body, true) {
            Err(n) => return Err(n),
            Ok(v) => v,
        };
        let at = match v.origin {
            Some(s) => s,
            None => close,
        };
        low.demand_outlives_frame(&v, at);
        low.walk_out(name, close)
    }

    /// Lower a module-level initializer.
    pub fn lower_init(cx: Cx<'t>, name: &str, init: &'t Expr) -> (r: Result<Lowered, NotYet>)
        requires
            cx.tabs.wf(),
        ensures
            lowered_result(r) == finish_with(name@, init_walked(cx, *init)),
            r matches Ok(l) ==> l@.wf(),
    {
        let mut low = Lowerer::new(cx, "static", RegionKind::Static, init.span);
        low.push_scope();
        match low.eval_value(false, init) {
            Err(n) => return Err(n),
            Ok(_) => {},
        }
        low.walk_out(name, end_span(init.span))
    }

    fn finish(self, name: &str) -> (r: Lowered)
        requires
            self.inv(),
        ensures
            r@ == finished(name@, self@),
            r@.wf(),
    {
        let ghost st = self@;
        let mut cells: Vec<(SiteId, bool)> = Vec::new();
        let mut i: usize = 0;
        while i < self.rc_cells.len()
            invariant
                i <= self.rc_cells.len(),
                st == self@,
                self.inv(),
                cells@ == cell_bits(st).take(i as int),
            decreases self.rc_cells.len() - i,
        {
            let s = self.rc_cells[i];
            proof {
                reveal(cells_in);
                assert(st.rc_cells[i as int].0 < st.sites.len());
            }
            cells.push((s, self.frozen_site[s.0 as usize].is_some()));
            i = i + 1;
            assert(cells@ =~= cell_bits(st).take(i as int));
        }
        assert(cells@ =~= cell_bits(st));
        proof {
            reveal(sites_in);
            reveal(regions_in);
            reveal(cells_in);
            assert forall|k: int| 0 <= k < self.sites@.len() implies self.rt@.has(
                (#[trigger] self.sites@[k]).region,
            ) by {
                assert(st.sites[k] == self.sites@[k]@);
            }
            law_summary_wf(name@, st.rt, st.sites, st.escape, st.promoted, st.conflicted);
        }
        let regions = summarize(
            name,
            self.rt,
            &self.sites,
            &self.escape,
            &self.promoted,
            self.conflicted,
        );
        let copies = duplicate_regions(&regions.regions);
        let r = Lowered {
            cfg: Cfg {
                name: lit(name),
                blocks: self.blocks,
                locals: self.locals,
                places: self.places,
                loans: self.loans,
                regions: copies,
                sites: self.sites,
                entry: BlockId(0),
                exit: BlockId(1),
                pattern_moves: self.pattern_moves,
            },
            diags: self.diags,
            regions,
            rc_cells: cells,
        };
        proof {
            assert(r@ =~= finished(name@, st));
            reveal(blocks_in);
            reveal(loans_in);
            let c = r@.cfg;
            assert forall|k: int| 0 <= k < c.blocks.len() implies c.block_ok(
                #[trigger] c.blocks[k],
            ) by {
                assert(block_in(st.blocks[k], st.places, st.loans.len(), st.blocks.len()));
            }
            assert(c.wf());
            let never = r@.regions.never_allocates;
            assert forall|k: int| 0 <= k < never.len() implies (#[trigger] never[k]).0
                < st.rt.regions.len() by {
                assert(never.contains(never[k]));
                law_barren(st.rt, st.sites, st.promoted, never[k]);
                let j = choose|j: int| 0 <= j < st.promoted.len() && st.promoted[j] == never[k];
                assert(st.promoted[j].0 < st.rt.regions.len());
            }
        }
        r
    }
}

} // verus!
