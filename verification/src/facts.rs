//! Fact export: per-function summary records for the optimizer.
//!
//! - `mut` parameter: `noalias` + `dereferenceable` for the call;
//! - `read` parameter: immutable for the call (frozen);
//! - whole-value move sites: memcpy-and-forget;
//! - allocation sites with their inferred regions;
//! - promoted regions and non-escaping allocations: stack placement;
//! - recorded reference-count dups and drops, `shared` cells with the
//!   static atomicity bit, and generational handle checks;
//! - the unsafe tier's attribution facts: every raw-tier operation names
//!   the source operation a dynamic verdict goes back to.

use vstd::prelude::*;
use vstd::string::*;

use crate::cfg::{
    show_span, span_text, stmt_ok, BlockView, CallView, Cfg, CfgView, LocalView, ParamMode, SiteId,
    SiteKind, Stmt, StmtView,
};
use crate::diag::{texts, Span};
use crate::place::PlaceId;
use crate::regions::{RegionSummary, SiteSummaryView, SummaryView};
use crate::text::lit;

verus! {

#[derive(Debug)]
pub struct FnFacts {
    pub name: String,
    /// `mut` parameters: exclusive for the call.
    pub mut_params: Vec<String>,
    /// `read` parameters: immutable for the call.
    pub read_params: Vec<String>,
    /// `take` parameters: owned on entry.
    pub take_params: Vec<String>,
    /// Whole-value move sites (place, span).
    pub move_sites: Vec<(String, Span)>,
    /// Allocations attributed to regions: (type, region, span).
    pub alloc_sites: Vec<(String, String, Span)>,
    /// Frame-local regions: the create/free pair disappears.
    pub promoted_regions: Vec<(String, Span)>,
    /// Individually stackable allocations: (type, span).
    pub stack_allocs: Vec<(String, Span)>,
    /// Recorded count increments (place, span).
    pub dups: Vec<(String, Span)>,
    /// Recorded count decrements (place, declaration span).
    pub drops: Vec<(String, Span)>,
    /// `shared`/`weak` cell allocations with the static atomicity bit.
    pub cells: Vec<(String, Span, bool)>,
    /// Generational checks at pool slot accesses.
    pub handle_checks: Vec<(String, Span)>,
    /// `unsafe { }` block spans.
    pub unsafe_blocks: Vec<Span>,
    /// `assume noalias` facts: (rendered operands, span).
    pub assumes: Vec<(String, Span)>,
    /// Raw accesses: (rendered pointer, is write, span).
    pub raw_accesses: Vec<(String, bool, Span)>,
    /// Provenance bridges: (rendered value, direction, span).
    pub exposes: Vec<(String, &'static str, Span)>,
    /// Re-entry doors: (region, rendered pointer, span).
    pub doors: Vec<(String, String, Span)>,
    /// Strict-provenance operations: (operation, rendered pointer, span).
    pub prov_ops: Vec<(String, String, Span)>,
    /// Calls through the C namespace: (callee, span).
    pub c_calls: Vec<(String, Span)>,
}

#[verifier::ext_equal]
pub struct FactsView {
    pub name: Seq<char>,
    pub mut_params: Seq<Seq<char>>,
    pub read_params: Seq<Seq<char>>,
    pub take_params: Seq<Seq<char>>,
    pub move_sites: Seq<(Seq<char>, Span)>,
    pub alloc_sites: Seq<(Seq<char>, Seq<char>, Span)>,
    pub promoted_regions: Seq<(Seq<char>, Span)>,
    pub stack_allocs: Seq<(Seq<char>, Span)>,
    pub dups: Seq<(Seq<char>, Span)>,
    pub drops: Seq<(Seq<char>, Span)>,
    pub cells: Seq<(Seq<char>, Span, bool)>,
    pub handle_checks: Seq<(Seq<char>, Span)>,
    pub unsafe_blocks: Seq<Span>,
    pub assumes: Seq<(Seq<char>, Span)>,
    pub raw_accesses: Seq<(Seq<char>, bool, Span)>,
    pub exposes: Seq<(Seq<char>, Seq<char>, Span)>,
    pub doors: Seq<(Seq<char>, Seq<char>, Span)>,
    pub prov_ops: Seq<(Seq<char>, Seq<char>, Span)>,
    pub c_calls: Seq<(Seq<char>, Span)>,
}

/// Named spans, as values.
pub open spec fn named(v: Seq<(String, Span)>) -> Seq<(Seq<char>, Span)> {
    Seq::new(v.len(), |i: int| (v[i].0@, v[i].1))
}

/// Doubly named spans, as values.
pub open spec fn named2(v: Seq<(String, String, Span)>) -> Seq<(Seq<char>, Seq<char>, Span)> {
    Seq::new(v.len(), |i: int| (v[i].0@, v[i].1@, v[i].2))
}

pub open spec fn flagged(v: Seq<(String, Span, bool)>) -> Seq<(Seq<char>, Span, bool)> {
    Seq::new(v.len(), |i: int| (v[i].0@, v[i].1, v[i].2))
}

pub open spec fn raw_views(v: Seq<(String, bool, Span)>) -> Seq<(Seq<char>, bool, Span)> {
    Seq::new(v.len(), |i: int| (v[i].0@, v[i].1, v[i].2))
}

pub open spec fn bridge_views(v: Seq<(String, &'static str, Span)>) -> Seq<
    (Seq<char>, Seq<char>, Span),
> {
    Seq::new(v.len(), |i: int| (v[i].0@, v[i].1@, v[i].2))
}

impl View for FnFacts {
    type V = FactsView;

    open spec fn view(&self) -> FactsView {
        FactsView {
            name: self.name@,
            mut_params: texts(self.mut_params@),
            read_params: texts(self.read_params@),
            take_params: texts(self.take_params@),
            move_sites: named(self.move_sites@),
            alloc_sites: named2(self.alloc_sites@),
            promoted_regions: named(self.promoted_regions@),
            stack_allocs: named(self.stack_allocs@),
            dups: named(self.dups@),
            drops: named(self.drops@),
            cells: flagged(self.cells@),
            handle_checks: named(self.handle_checks@),
            unsafe_blocks: self.unsafe_blocks@,
            assumes: named(self.assumes@),
            raw_accesses: raw_views(self.raw_accesses@),
            exposes: bridge_views(self.exposes@),
            doors: named2(self.doors@),
            prov_ops: named2(self.prov_ops@),
            c_calls: named(self.c_calls@),
        }
    }
}

/// The answers that `f` gives along a sequence, in order.
pub open spec fn picked<A, B>(s: Seq<A>, f: spec_fn(A) -> Option<B>) -> Seq<B>
    decreases s.len(),
{
    if s.len() == 0 {
        Seq::empty()
    } else {
        let rest = picked(s.drop_last(), f);
        match f(s.last()) {
            Some(x) => rest.push(x),
            None => rest,
        }
    }
}

pub proof fn lemma_picked_push<A, B>(s: Seq<A>, x: A, f: spec_fn(A) -> Option<B>)
    ensures
        picked(s.push(x), f) == match f(x) {
            Some(y) => picked(s, f).push(y),
            None => picked(s, f),
        },
{
    assert(s.push(x).drop_last() =~= s);
}

/// The statements of the first `n` blocks, in order.
pub open spec fn flat(blocks: Seq<BlockView>, n: nat) -> Seq<StmtView>
    decreases n,
{
    if n == 0 {
        Seq::empty()
    } else {
        flat(blocks, (n - 1) as nat) + blocks[n - 1].stmts
    }
}

pub open spec fn param_fact(want: Option<ParamMode>) -> spec_fn(LocalView) -> Option<Seq<char>> {
    |l: LocalView|
        if l.param_mode == Some(want) {
            Some(l.name)
        } else {
            None
        }
}

pub open spec fn move_fact(cfg: CfgView) -> spec_fn(StmtView) -> Option<(Seq<char>, Span)> {
    |s: StmtView|
        match s {
            StmtView::Move { place, span } => if cfg.places.at(place).proj.len() == 0 {
                Some((cfg.show(place), span))
            } else {
                None
            },
            _ => None,
        }
}

pub open spec fn dup_fact(cfg: CfgView) -> spec_fn(StmtView) -> Option<(Seq<char>, Span)> {
    |s: StmtView|
        match s {
            StmtView::Dup { place, span } => Some((cfg.show(place), span)),
            _ => None,
        }
}

pub open spec fn drop_fact(cfg: CfgView) -> spec_fn(StmtView) -> Option<(Seq<char>, Span)> {
    |s: StmtView|
        match s {
            StmtView::Drop { place, span } => Some((cfg.show(place), span)),
            _ => None,
        }
}

pub open spec fn handle_fact(cfg: CfgView) -> spec_fn(StmtView) -> Option<(Seq<char>, Span)> {
    |s: StmtView|
        match s {
            StmtView::HandleCheck { place, span } => Some((cfg.show(place), span)),
            _ => None,
        }
}

pub open spec fn unsafe_fact() -> spec_fn(StmtView) -> Option<Span> {
    |s: StmtView|
        match s {
            StmtView::UnsafeEnter { span } => Some(span),
            _ => None,
        }
}

pub open spec fn assume_fact() -> spec_fn(StmtView) -> Option<(Seq<char>, Span)> {
    |s: StmtView|
        match s {
            StmtView::Assume { ops, span } => Some((ops, span)),
            _ => None,
        }
}

pub open spec fn raw_fact() -> spec_fn(StmtView) -> Option<(Seq<char>, bool, Span)> {
    |s: StmtView|
        match s {
            StmtView::RawRead { ptr, span } => Some((ptr, false, span)),
            StmtView::RawWrite { ptr, span } => Some((ptr, true, span)),
            _ => None,
        }
}

pub open spec fn expose_fact() -> spec_fn(StmtView) -> Option<(Seq<char>, Seq<char>, Span)> {
    |s: StmtView|
        match s {
            StmtView::Expose { what, dir, span } => Some((what, dir, span)),
            _ => None,
        }
}

pub open spec fn door_fact() -> spec_fn(StmtView) -> Option<(Seq<char>, Seq<char>, Span)> {
    |s: StmtView|
        match s {
            StmtView::Door { region, ptr, span } => Some((region, ptr, span)),
            _ => None,
        }
}

pub open spec fn prov_fact() -> spec_fn(StmtView) -> Option<(Seq<char>, Seq<char>, Span)> {
    |s: StmtView|
        match s {
            StmtView::ProvOp { op, ptr, span } => Some((op, ptr, span)),
            _ => None,
        }
}

pub open spec fn c_call_fact() -> spec_fn(StmtView) -> Option<(Seq<char>, Span)> {
    |s: StmtView|
        match s {
            StmtView::Call(c) => if c.c_call {
                Some((c.callee, c.span))
            } else {
                None
            },
            _ => None,
        }
}

/// Parameter pseudo-sites are the *caller's* allocations; every other
/// site is attributed to its region.
pub open spec fn alloc_fact(regions: SummaryView) -> spec_fn(SiteSummaryView) -> Option<
    (Seq<char>, Seq<char>, Span),
> {
    |s: SiteSummaryView|
        if s.kind is Param {
            None
        } else {
            Some((s.ty, regions.resolved[s.region.0 as int], s.span))
        }
}

pub open spec fn stack_fact() -> spec_fn(SiteSummaryView) -> Option<(Seq<char>, Span)> {
    |s: SiteSummaryView|
        if !(s.kind is Param) && s.stacked {
            Some((s.ty, s.span))
        } else {
            None
        }
}

/// The facts of one lowered body.
pub open spec fn facts_of(cfg: CfgView, regions: SummaryView, cells: Seq<(SiteId, bool)>) -> FactsView {
    let all = flat(cfg.blocks, cfg.blocks.len());
    FactsView {
        name: cfg.name,
        mut_params: picked(cfg.locals, param_fact(Some(ParamMode::Mut))),
        read_params: picked(cfg.locals, param_fact(None)),
        take_params: picked(cfg.locals, param_fact(Some(ParamMode::Take))),
        move_sites: picked(all, move_fact(cfg)),
        alloc_sites: picked(regions.sites, alloc_fact(regions)),
        promoted_regions: Seq::new(
            regions.promoted.len(),
            |i: int|
                (
                    regions.regions[regions.promoted[i].0 as int].name,
                    regions.regions[regions.promoted[i].0 as int].span,
                ),
        ),
        stack_allocs: picked(regions.sites, stack_fact()),
        dups: picked(all, dup_fact(cfg)),
        drops: picked(all, drop_fact(cfg)),
        cells: Seq::new(
            cells.len(),
            |i: int|
                (
                    cfg.sites[cells[i].0.0 as int].ty,
                    cfg.sites[cells[i].0.0 as int].span,
                    cells[i].1,
                ),
        ),
        handle_checks: picked(all, handle_fact(cfg)),
        unsafe_blocks: picked(all, unsafe_fact()),
        assumes: picked(all, assume_fact()),
        raw_accesses: picked(all, raw_fact()),
        exposes: picked(all, expose_fact()),
        doors: picked(all, door_fact()),
        prov_ops: picked(all, prov_fact()),
        c_calls: picked(all, c_call_fact()),
    }
}

/// The part of the facts read off the statements.
spec fn stmt_facts(f: FactsView, cfg: CfgView, all: Seq<StmtView>) -> bool {
    &&& f.move_sites == picked(all, move_fact(cfg))
    &&& f.dups == picked(all, dup_fact(cfg))
    &&& f.drops == picked(all, drop_fact(cfg))
    &&& f.handle_checks == picked(all, handle_fact(cfg))
    &&& f.unsafe_blocks == picked(all, unsafe_fact())
    &&& f.assumes == picked(all, assume_fact())
    &&& f.raw_accesses == picked(all, raw_fact())
    &&& f.exposes == picked(all, expose_fact())
    &&& f.doors == picked(all, door_fact())
    &&& f.prov_ops == picked(all, prov_fact())
    &&& f.c_calls == picked(all, c_call_fact())
}

/// The two records agree on everything that is not read off statements.
spec fn same_rest(a: FactsView, b: FactsView) -> bool {
    &&& a.name == b.name
    &&& a.mut_params == b.mut_params
    &&& a.read_params == b.read_params
    &&& a.take_params == b.take_params
    &&& a.alloc_sites == b.alloc_sites
    &&& a.promoted_regions == b.promoted_regions
    &&& a.stack_allocs == b.stack_allocs
    &&& a.cells == b.cells
}

proof fn lemma_stmt_facts_push(cfg: CfgView, all: Seq<StmtView>, s: StmtView)
    ensures
        picked(all.push(s), move_fact(cfg)) == match move_fact(cfg)(s) {
            Some(y) => picked(all, move_fact(cfg)).push(y),
            None => picked(all, move_fact(cfg)),
        },
        picked(all.push(s), dup_fact(cfg)) == match dup_fact(cfg)(s) {
            Some(y) => picked(all, dup_fact(cfg)).push(y),
            None => picked(all, dup_fact(cfg)),
        },
        picked(all.push(s), drop_fact(cfg)) == match drop_fact(cfg)(s) {
            Some(y) => picked(all, drop_fact(cfg)).push(y),
            None => picked(all, drop_fact(cfg)),
        },
        picked(all.push(s), handle_fact(cfg)) == match handle_fact(cfg)(s) {
            Some(y) => picked(all, handle_fact(cfg)).push(y),
            None => picked(all, handle_fact(cfg)),
        },
        picked(all.push(s), unsafe_fact()) == match unsafe_fact()(s) {
            Some(y) => picked(all, unsafe_fact()).push(y),
            None => picked(all, unsafe_fact()),
        },
        picked(all.push(s), assume_fact()) == match assume_fact()(s) {
            Some(y) => picked(all, assume_fact()).push(y),
            None => picked(all, assume_fact()),
        },
        picked(all.push(s), raw_fact()) == match raw_fact()(s) {
            Some(y) => picked(all, raw_fact()).push(y),
            None => picked(all, raw_fact()),
        },
        picked(all.push(s), expose_fact()) == match expose_fact()(s) {
            Some(y) => picked(all, expose_fact()).push(y),
            None => picked(all, expose_fact()),
        },
        picked(all.push(s), door_fact()) == match door_fact()(s) {
            Some(y) => picked(all, door_fact()).push(y),
            None => picked(all, door_fact()),
        },
        picked(all.push(s), prov_fact()) == match prov_fact()(s) {
            Some(y) => picked(all, prov_fact()).push(y),
            None => picked(all, prov_fact()),
        },
        picked(all.push(s), c_call_fact()) == match c_call_fact()(s) {
            Some(y) => picked(all, c_call_fact()).push(y),
            None => picked(all, c_call_fact()),
        },
{
    lemma_picked_push(all, s, move_fact(cfg));
    lemma_picked_push(all, s, dup_fact(cfg));
    lemma_picked_push(all, s, drop_fact(cfg));
    lemma_picked_push(all, s, handle_fact(cfg));
    lemma_picked_push(all, s, unsafe_fact());
    lemma_picked_push(all, s, assume_fact());
    lemma_picked_push(all, s, raw_fact());
    lemma_picked_push(all, s, expose_fact());
    lemma_picked_push(all, s, door_fact());
    lemma_picked_push(all, s, prov_fact());
    lemma_picked_push(all, s, c_call_fact());
}

fn push_named(v: &mut Vec<(String, Span)>, name: String, span: Span)
    ensures
        named(final(v)@) == named(old(v)@).push((name@, span)),
{
    let ghost before = named(v@);
    v.push((name, span));
    assert(named(v@) =~= before.push((name@, span)));
}

fn push_named2(v: &mut Vec<(String, String, Span)>, a: String, b: String, span: Span)
    ensures
        named2(final(v)@) == named2(old(v)@).push((a@, b@, span)),
{
    let ghost before = named2(v@);
    v.push((a, b, span));
    assert(named2(v@) =~= before.push((a@, b@, span)));
}

/// Record what one statement says.
fn collect_stmt(cfg: &Cfg, stmt: &Stmt, facts: &mut FnFacts, Ghost(all): Ghost<Seq<StmtView>>)
    requires
        cfg@.wf(),
        stmt_ok(stmt@, cfg@.places, cfg@.loans.len()),
        stmt_facts(old(facts)@, cfg@, all),
    ensures
        stmt_facts(final(facts)@, cfg@, all.push(stmt@)),
        same_rest(final(facts)@, old(facts)@),
{
    proof {
        lemma_stmt_facts_push(cfg@, all, stmt@);
    }
    match stmt {
        Stmt::Move { place, span } => {
            let p = cfg.places.get(*place);
            if p.proj.len() == 0 {
                push_named(&mut facts.move_sites, cfg.show_place(*place), *span);
            }
        },
        Stmt::Dup { place, span } => {
            push_named(&mut facts.dups, cfg.show_place(*place), *span);
        },
        Stmt::Drop { place, span } => {
            push_named(&mut facts.drops, cfg.show_place(*place), *span);
        },
        Stmt::HandleCheck { place, span } => {
            push_named(&mut facts.handle_checks, cfg.show_place(*place), *span);
        },
        Stmt::UnsafeEnter { span } => {
            facts.unsafe_blocks.push(*span);
        },
        Stmt::Assume { ops, span } => {
            push_named(&mut facts.assumes, ops.clone(), *span);
        },
        Stmt::RawRead { ptr, span } => {
            let ghost before = raw_views(facts.raw_accesses@);
            facts.raw_accesses.push((ptr.clone(), false, *span));
            assert(raw_views(facts.raw_accesses@) =~= before.push((ptr@, false, *span)));
        },
        Stmt::RawWrite { ptr, span } => {
            let ghost before = raw_views(facts.raw_accesses@);
            facts.raw_accesses.push((ptr.clone(), true, *span));
            assert(raw_views(facts.raw_accesses@) =~= before.push((ptr@, true, *span)));
        },
        Stmt::Expose { what, dir, span } => {
            let ghost before = bridge_views(facts.exposes@);
            facts.exposes.push((what.clone(), *dir, *span));
            assert(bridge_views(facts.exposes@) =~= before.push((what@, dir@, *span)));
        },
        Stmt::Door { region, ptr, span } => {
            push_named2(&mut facts.doors, region.clone(), ptr.clone(), *span);
        },
        Stmt::ProvOp { op, ptr, span } => {
            push_named2(&mut facts.prov_ops, op.clone(), ptr.clone(), *span);
        },
        Stmt::Call(c) => {
            if c.c_call {
                push_named(&mut facts.c_calls, c.callee.clone(), c.span);
            }
        },
        _ => {},
    }
}

fn params_with(cfg: &Cfg, want: Option<ParamMode>) -> (r: Vec<String>)
    ensures
        texts(r@) == picked(cfg@.locals, param_fact(want)),
{
    let mut out: Vec<String> = Vec::new();
    let ghost locals = cfg@.locals;
    let mut i: usize = 0;
    assert(locals.take(0) =~= Seq::empty());
    assert(texts(out@) =~= Seq::empty());
    while i < cfg.locals.len()
        invariant
            i <= cfg.locals.len(),
            locals == cfg@.locals,
            texts(out@) == picked(locals.take(i as int), param_fact(want)),
        decreases cfg.locals.len() - i,
    {
        let l = &cfg.locals[i];
        proof {
            assert(locals[i as int] == l@);
            assert(locals.take(i + 1) =~= locals.take(i as int).push(l@));
            lemma_picked_push(locals.take(i as int), l@, param_fact(want));
        }
        let hit = match l.param_mode {
            Some(m) => m == want,
            None => false,
        };
        let ghost before = texts(out@);
        if hit {
            out.push(l.name.clone());
            assert(texts(out@) =~= before.push(l.name@));
        }
        i = i + 1;
    }
    assert(locals.take(i as int) =~= locals);
    out
}

/// The facts of one lowered body.
pub fn collect(cfg: &Cfg, regions: &RegionSummary, cells: &Vec<(SiteId, bool)>) -> (r: FnFacts)
    requires
        cfg@.wf(),
        regions@.wf(),
        forall|i: int| 0 <= i < cells.len() ==> (#[trigger] cells@[i]).0.0 < cfg@.sites.len(),
        forall|i: int|
            0 <= i < regions@.promoted.len() ==> (#[trigger] regions@.promoted[i]).0
                < regions@.regions.len(),
    ensures
        r@ == facts_of(cfg@, regions@, cells@),
{
    let ghost want = facts_of(cfg@, regions@, cells@);
    let mut cell_facts: Vec<(String, Span, bool)> = Vec::new();
    let mut i: usize = 0;
    while i < cells.len()
        invariant
            i <= cells.len(),
            want == facts_of(cfg@, regions@, cells@),
            forall|k: int| 0 <= k < cells.len() ==> (#[trigger] cells@[k]).0.0 < cfg@.sites.len(),
            flagged(cell_facts@) == want.cells.take(i as int),
        decreases cells.len() - i,
    {
        let (site, atomic) = cells[i];
        assert(cells@[i as int].0.0 < cfg@.sites.len());
        let s = &cfg.sites[site.0 as usize];
        assert(cfg@.sites[site.0 as int] == s@);
        let ghost before = flagged(cell_facts@);
        cell_facts.push((s.ty.clone(), s.span, atomic));
        assert(flagged(cell_facts@) =~= before.push((s.ty@, s.span, atomic)));
        i = i + 1;
        assert(flagged(cell_facts@) =~= want.cells.take(i as int));
    }
    assert(want.cells.take(i as int) =~= want.cells);
    let mut allocs: Vec<(String, String, Span)> = Vec::new();
    let mut stacks: Vec<(String, Span)> = Vec::new();
    let ghost sites = regions@.sites;
    let mut j: usize = 0;
    assert(sites.take(0) =~= Seq::empty());
    assert(named2(allocs@) =~= Seq::empty());
    assert(named(stacks@) =~= Seq::empty());
    while j < regions.sites.len()
        invariant
            j <= regions.sites.len(),
            regions@.wf(),
            sites == regions@.sites,
            named2(allocs@) == picked(sites.take(j as int), alloc_fact(regions@)),
            named(stacks@) == picked(sites.take(j as int), stack_fact()),
        decreases regions.sites.len() - j,
    {
        let s = &regions.sites[j];
        proof {
            assert(sites[j as int] == s@);
            assert(sites.take(j + 1) =~= sites.take(j as int).push(s@));
            lemma_picked_push(sites.take(j as int), s@, alloc_fact(regions@));
            lemma_picked_push(sites.take(j as int), s@, stack_fact());
        }
        if s.kind != SiteKind::Param {
            assert(s@.region.0 < regions@.regions.len());
            let r = &regions.resolved[s.region.0 as usize];
            assert(regions@.resolved[s.region.0 as int] == r@);
            push_named2(&mut allocs, s.ty.clone(), r.clone(), s.span);
            if s.stacked {
                push_named(&mut stacks, s.ty.clone(), s.span);
            }
        }
        j = j + 1;
    }
    assert(sites.take(j as int) =~= sites);
    let mut promoted: Vec<(String, Span)> = Vec::new();
    let mut k: usize = 0;
    while k < regions.promoted.len()
        invariant
            k <= regions.promoted.len(),
            want == facts_of(cfg@, regions@, cells@),
            forall|q: int|
                0 <= q < regions@.promoted.len() ==> (#[trigger] regions@.promoted[q]).0
                    < regions@.regions.len(),
            named(promoted@) == want.promoted_regions.take(k as int),
        decreases regions.promoted.len() - k,
    {
        let id = regions.promoted[k];
        assert(regions@.promoted[k as int].0 < regions@.regions.len());
        let r = &regions.regions[id.0 as usize];
        assert(regions@.regions[id.0 as int] == r@);
        push_named(&mut promoted, r.name.clone(), r.span);
        k = k + 1;
        assert(named(promoted@) =~= want.promoted_regions.take(k as int));
    }
    assert(want.promoted_regions.take(k as int) =~= want.promoted_regions);
    let mut facts = FnFacts {
        name: cfg.name.clone(),
        mut_params: params_with(cfg, Some(ParamMode::Mut)),
        read_params: params_with(cfg, None),
        take_params: params_with(cfg, Some(ParamMode::Take)),
        move_sites: Vec::new(),
        alloc_sites: allocs,
        promoted_regions: promoted,
        stack_allocs: stacks,
        dups: Vec::new(),
        drops: Vec::new(),
        cells: cell_facts,
        handle_checks: Vec::new(),
        unsafe_blocks: Vec::new(),
        assumes: Vec::new(),
        raw_accesses: Vec::new(),
        exposes: Vec::new(),
        doors: Vec::new(),
        prov_ops: Vec::new(),
        c_calls: Vec::new(),
    };
    let ghost first = facts@;
    proof {
        let none = Seq::<StmtView>::empty();
        assert(first.move_sites =~= picked(none, move_fact(cfg@)));
        assert(first.dups =~= picked(none, dup_fact(cfg@)));
        assert(first.drops =~= picked(none, drop_fact(cfg@)));
        assert(first.handle_checks =~= picked(none, handle_fact(cfg@)));
        assert(first.unsafe_blocks =~= picked(none, unsafe_fact()));
        assert(first.assumes =~= picked(none, assume_fact()));
        assert(first.raw_accesses =~= picked(none, raw_fact()));
        assert(first.exposes =~= picked(none, expose_fact()));
        assert(first.doors =~= picked(none, door_fact()));
        assert(first.prov_ops =~= picked(none, prov_fact()));
        assert(first.c_calls =~= picked(none, c_call_fact()));
    }
    let mut b: usize = 0;
    while b < cfg.blocks.len()
        invariant
            b <= cfg.blocks.len(),
            cfg@.wf(),
            stmt_facts(facts@, cfg@, flat(cfg@.blocks, b as nat)),
            same_rest(facts@, first),
        decreases cfg.blocks.len() - b,
    {
        let block = &cfg.blocks[b];
        let ghost bv = cfg@.blocks[b as int];
        let ghost done = flat(cfg@.blocks, b as nat);
        assert(cfg@.block_ok(bv));
        let mut s: usize = 0;
        assert(done + bv.stmts.take(0) =~= done);
        while s < block.stmts.len()
            invariant
                s <= block.stmts.len(),
                cfg@.wf(),
                bv == block@,
                forall|q: int|
                    0 <= q < bv.stmts.len() ==> stmt_ok(
                        #[trigger] bv.stmts[q],
                        cfg@.places,
                        cfg@.loans.len(),
                    ),
                stmt_facts(facts@, cfg@, done + bv.stmts.take(s as int)),
                same_rest(facts@, first),
            decreases block.stmts.len() - s,
        {
            assert(bv.stmts[s as int] == block.stmts@[s as int]@);
            collect_stmt(cfg, &block.stmts[s], &mut facts, Ghost(done + bv.stmts.take(s as int)));
            assert((done + bv.stmts.take(s as int)).push(bv.stmts[s as int]) =~= done
                + bv.stmts.take(s + 1));
            s = s + 1;
        }
        assert(bv.stmts.take(s as int) =~= bv.stmts);
        b = b + 1;
    }
    assert(facts@ =~= want);
    facts
}

// -------------------------------------------------------- rendering --

/// One text per element, concatenated.
pub open spec fn lines<T>(v: Seq<T>, f: spec_fn(T) -> Seq<char>) -> Seq<char>
    decreases v.len(),
{
    if v.len() == 0 {
        Seq::empty()
    } else {
        lines(v.drop_last(), f) + f(v.last())
    }
}

proof fn lemma_lines_push<T>(v: Seq<T>, n: int, f: spec_fn(T) -> Seq<char>)
    requires
        0 <= n < v.len(),
    ensures
        lines(v.take(n + 1), f) == lines(v.take(n), f) + f(v[n]),
{
    assert(v.take(n + 1).drop_last() =~= v.take(n));
    assert(v.take(n + 1).last() == v[n]);
}

/// `<head><name><tail>`.
pub open spec fn name_line(head: Seq<char>, tail: Seq<char>) -> spec_fn(Seq<char>) -> Seq<char> {
    |n: Seq<char>| head + n + tail + "\n"@
}

/// `<head><name> @lo..hi<tail>`.
pub open spec fn site_line(head: Seq<char>, tail: Seq<char>) -> spec_fn((Seq<char>, Span)) -> Seq<
    char,
> {
    |s: (Seq<char>, Span)| head + s.0 + " "@ + span_text(s.1) + tail + "\n"@
}

pub open spec fn alloc_line() -> spec_fn((Seq<char>, Seq<char>, Span)) -> Seq<char> {
    |s: (Seq<char>, Seq<char>, Span)|
        "  alloc "@ + s.0 + " "@ + span_text(s.2) + " -> "@ + s.1 + "\n"@
}

pub open spec fn cell_line() -> spec_fn((Seq<char>, Span, bool)) -> Seq<char> {
    |s: (Seq<char>, Span, bool)|
        "  rc-cell "@ + s.0 + " "@ + span_text(s.1) + " -> "@ + (if s.2 {
            "atomic (reaches a freeze/transfer point)"@
        } else {
            "non-atomic (thread-exclusive by region structure)"@
        }) + "\n"@
}

pub open spec fn unsafe_line() -> spec_fn(Span) -> Seq<char> {
    |s: Span| "  unsafe-block "@ + span_text(s) + " -> D11 ring 1 (audit surface)\n"@
}

pub open spec fn raw_line() -> spec_fn((Seq<char>, bool, Span)) -> Seq<char> {
    |s: (Seq<char>, bool, Span)|
        "  "@ + (if s.1 {
            "raw-write"@
        } else {
            "raw-read"@
        }) + " "@ + s.0 + " "@ + span_text(s.2) + " -> unchecked here; dynamic rows "@ + (if s.1 {
            "P1/P2/P3/P4/L2/T2"@
        } else {
            "P1/P3/P4/L1/L2"@
        }) + " (s23/is04)\n"@
}

pub open spec fn expose_line() -> spec_fn((Seq<char>, Seq<char>, Span)) -> Seq<char> {
    |s: (Seq<char>, Seq<char>, Span)|
        "  expose "@ + s.0 + " ("@ + s.1 + ") "@ + span_text(s.2)
            + " -> [mem.prov.expose] event\n"@
}

pub open spec fn door_line() -> spec_fn((Seq<char>, Seq<char>, Span)) -> Seq<char> {
    |s: (Seq<char>, Seq<char>, Span)|
        "  door borrow "@ + s.0 + " from "@ + s.1 + " "@ + span_text(s.2)
            + " -> P6 obligation at the door; O6 past it\n"@
}

pub open spec fn prov_line() -> spec_fn((Seq<char>, Seq<char>, Span)) -> Seq<char> {
    |s: (Seq<char>, Seq<char>, Span)|
        "  prov "@ + s.0 + " "@ + s.1 + " "@ + span_text(s.2)
            + " -> derivation, not access (creation-is-not-a-use)\n"@
}

pub const MUT_TAIL: &'static str = " -> noalias, dereferenceable";

pub const READ_TAIL: &'static str = " -> immutable-for-call (frozen)";

pub const TAKE_TAIL: &'static str = " -> owned";

pub const MOVE_TAIL: &'static str = " -> memcpy-and-forget";

pub const PROMOTE_TAIL: &'static str = " -> stack (create/free elided)";

pub const STACK_TAIL: &'static str = " (never escapes)";

pub const DUP_TAIL: &'static str = " -> rc+1 (fan-out)";

pub const DROP_TAIL: &'static str = " -> scope exit, LIFO with defers; migratable to last use";

pub const HANDLE_TAIL: &'static str = " -> generation check (hoistable in unfreed window)";

pub const ASSUME_TAIL: &'static str = " -> O5 licence; violation = UB P5 (s23 checks)";

pub const C_CALL_TAIL: &'static str = " -> implicit region for the call's extent ([mem.boundary.ffi])";

impl FactsView {
    /// The whole record, one line per fact.
    pub open spec fn text(self) -> Seq<char> {
        "facts fn "@ + self.name + "\n"@ + lines(
            self.mut_params,
            name_line("  mut "@, MUT_TAIL@),
        ) + lines(self.read_params, name_line("  read "@, READ_TAIL@)) + lines(
            self.take_params,
            name_line("  take "@, TAKE_TAIL@),
        ) + lines(self.move_sites, site_line("  move "@, MOVE_TAIL@)) + lines(
            self.alloc_sites,
            alloc_line(),
        ) + lines(self.promoted_regions, site_line("  promote region "@, PROMOTE_TAIL@)) + lines(
            self.stack_allocs,
            site_line("  stack-alloc "@, STACK_TAIL@),
        ) + lines(self.dups, site_line("  dup "@, DUP_TAIL@)) + lines(
            self.drops,
            site_line("  drop "@, DROP_TAIL@),
        ) + lines(self.cells, cell_line()) + lines(
            self.handle_checks,
            site_line("  handle-check "@, HANDLE_TAIL@),
        ) + lines(self.unsafe_blocks, unsafe_line()) + lines(
            self.assumes,
            site_line("  assume-noalias "@, ASSUME_TAIL@),
        ) + lines(self.raw_accesses, raw_line()) + lines(self.exposes, expose_line()) + lines(
            self.doors,
            door_line(),
        ) + lines(self.prov_ops, prov_line()) + lines(
            self.c_calls,
            site_line("  c-call "@, C_CALL_TAIL@),
        )
    }
}

/// One line per name.
fn write_names(out: &mut String, v: &Vec<String>, head_text: &str, tail: &str)
    ensures
        final(out)@ == old(out)@ + lines(texts(v@), name_line(head_text@, tail@)),
{
    let ghost head = out@;
    let ghost all = texts(v@);
    let mut i: usize = 0;
    assert(all.take(0) =~= Seq::empty());
    assert(out@ =~= head + lines(all.take(0), name_line(head_text@, tail@)));
    while i < v.len()
        invariant
            i <= v.len(),
            all == texts(v@),
            out@ == head + lines(all.take(i as int), name_line(head_text@, tail@)),
        decreases v.len() - i,
    {
        proof {
            lemma_lines_push(all, i as int, name_line(head_text@, tail@));
        }
        let line = lit(head_text).concat(v[i].as_str()).concat(tail).concat("\n");
        out.append(line.as_str());
        i = i + 1;
        assert(out@ =~= head + lines(all.take(i as int), name_line(head_text@, tail@)));
    }
    assert(all.take(i as int) =~= all);
}

/// One line per named span.
fn write_sites(out: &mut String, v: &Vec<(String, Span)>, head_text: &str, tail: &str)
    ensures
        final(out)@ == old(out)@ + lines(named(v@), site_line(head_text@, tail@)),
{
    let ghost head = out@;
    let ghost all = named(v@);
    let mut i: usize = 0;
    assert(all.take(0) =~= Seq::empty());
    assert(out@ =~= head + lines(all.take(0), site_line(head_text@, tail@)));
    while i < v.len()
        invariant
            i <= v.len(),
            all == named(v@),
            out@ == head + lines(all.take(i as int), site_line(head_text@, tail@)),
        decreases v.len() - i,
    {
        proof {
            lemma_lines_push(all, i as int, site_line(head_text@, tail@));
        }
        let line = lit(head_text).concat(v[i].0.as_str()).concat(" ").concat(show_span(v[i].1).as_str()).concat(tail).concat("\n");
        out.append(line.as_str());
        i = i + 1;
        assert(out@ =~= head + lines(all.take(i as int), site_line(head_text@, tail@)));
    }
    assert(all.take(i as int) =~= all);
}

/// One line per allocation.
fn write_allocs(out: &mut String, v: &Vec<(String, String, Span)>)
    ensures
        final(out)@ == old(out)@ + lines(named2(v@), alloc_line()),
{
    let ghost head = out@;
    let ghost all = named2(v@);
    let mut i: usize = 0;
    assert(all.take(0) =~= Seq::empty());
    assert(out@ =~= head + lines(all.take(0), alloc_line()));
    while i < v.len()
        invariant
            i <= v.len(),
            all == named2(v@),
            out@ == head + lines(all.take(i as int), alloc_line()),
        decreases v.len() - i,
    {
        proof {
            lemma_lines_push(all, i as int, alloc_line());
        }
        let line = lit("  alloc ").concat(v[i].0.as_str()).concat(" ").concat(show_span(v[i].2).as_str()).concat(" -> ").concat(v[i].1.as_str()).concat("\n");
        out.append(line.as_str());
        i = i + 1;
        assert(out@ =~= head + lines(all.take(i as int), alloc_line()));
    }
    assert(all.take(i as int) =~= all);
}

/// One line per cell.
fn write_cells(out: &mut String, v: &Vec<(String, Span, bool)>)
    ensures
        final(out)@ == old(out)@ + lines(flagged(v@), cell_line()),
{
    let ghost head = out@;
    let ghost all = flagged(v@);
    let mut i: usize = 0;
    assert(all.take(0) =~= Seq::empty());
    assert(out@ =~= head + lines(all.take(0), cell_line()));
    while i < v.len()
        invariant
            i <= v.len(),
            all == flagged(v@),
            out@ == head + lines(all.take(i as int), cell_line()),
        decreases v.len() - i,
    {
        proof {
            lemma_lines_push(all, i as int, cell_line());
        }
        let line = lit("  rc-cell ").concat(v[i].0.as_str()).concat(" ").concat(show_span(v[i].1).as_str()).concat(" -> ").concat(if v[i].2 { "atomic (reaches a freeze/transfer point)" } else { "non-atomic (thread-exclusive by region structure)" }).concat("\n");
        out.append(line.as_str());
        i = i + 1;
        assert(out@ =~= head + lines(all.take(i as int), cell_line()));
    }
    assert(all.take(i as int) =~= all);
}

/// One line per `unsafe` block.
fn write_unsafe(out: &mut String, v: &Vec<Span>)
    ensures
        final(out)@ == old(out)@ + lines(v@, unsafe_line()),
{
    let ghost head = out@;
    let ghost all = v@;
    let mut i: usize = 0;
    assert(all.take(0) =~= Seq::empty());
    assert(out@ =~= head + lines(all.take(0), unsafe_line()));
    while i < v.len()
        invariant
            i <= v.len(),
            all == v@,
            out@ == head + lines(all.take(i as int), unsafe_line()),
        decreases v.len() - i,
    {
        proof {
            lemma_lines_push(all, i as int, unsafe_line());
        }
        let line = lit("  unsafe-block ").concat(show_span(v[i]).as_str()).concat(" -> D11 ring 1 (audit surface)\n");
        out.append(line.as_str());
        i = i + 1;
        assert(out@ =~= head + lines(all.take(i as int), unsafe_line()));
    }
    assert(all.take(i as int) =~= all);
}

/// One line per raw access.
fn write_raw(out: &mut String, v: &Vec<(String, bool, Span)>)
    ensures
        final(out)@ == old(out)@ + lines(raw_views(v@), raw_line()),
{
    let ghost head = out@;
    let ghost all = raw_views(v@);
    let mut i: usize = 0;
    assert(all.take(0) =~= Seq::empty());
    assert(out@ =~= head + lines(all.take(0), raw_line()));
    while i < v.len()
        invariant
            i <= v.len(),
            all == raw_views(v@),
            out@ == head + lines(all.take(i as int), raw_line()),
        decreases v.len() - i,
    {
        proof {
            lemma_lines_push(all, i as int, raw_line());
        }
        let line = lit("  ").concat(if v[i].1 { "raw-write" } else { "raw-read" }).concat(" ").concat(v[i].0.as_str()).concat(" ").concat(show_span(v[i].2).as_str()).concat(" -> unchecked here; dynamic rows ").concat(if v[i].1 { "P1/P2/P3/P4/L2/T2" } else { "P1/P3/P4/L1/L2" }).concat(" (s23/is04)\n");
        out.append(line.as_str());
        i = i + 1;
        assert(out@ =~= head + lines(all.take(i as int), raw_line()));
    }
    assert(all.take(i as int) =~= all);
}

/// One line per provenance bridge.
fn write_exposes(out: &mut String, v: &Vec<(String, &'static str, Span)>)
    ensures
        final(out)@ == old(out)@ + lines(bridge_views(v@), expose_line()),
{
    let ghost head = out@;
    let ghost all = bridge_views(v@);
    let mut i: usize = 0;
    assert(all.take(0) =~= Seq::empty());
    assert(out@ =~= head + lines(all.take(0), expose_line()));
    while i < v.len()
        invariant
            i <= v.len(),
            all == bridge_views(v@),
            out@ == head + lines(all.take(i as int), expose_line()),
        decreases v.len() - i,
    {
        proof {
            lemma_lines_push(all, i as int, expose_line());
        }
        let line = lit("  expose ").concat(v[i].0.as_str()).concat(" (").concat(v[i].1).concat(") ").concat(show_span(v[i].2).as_str()).concat(" -> [mem.prov.expose] event\n");
        out.append(line.as_str());
        i = i + 1;
        assert(out@ =~= head + lines(all.take(i as int), expose_line()));
    }
    assert(all.take(i as int) =~= all);
}

/// One line per door.
fn write_doors(out: &mut String, v: &Vec<(String, String, Span)>)
    ensures
        final(out)@ == old(out)@ + lines(named2(v@), door_line()),
{
    let ghost head = out@;
    let ghost all = named2(v@);
    let mut i: usize = 0;
    assert(all.take(0) =~= Seq::empty());
    assert(out@ =~= head + lines(all.take(0), door_line()));
    while i < v.len()
        invariant
            i <= v.len(),
            all == named2(v@),
            out@ == head + lines(all.take(i as int), door_line()),
        decreases v.len() - i,
    {
        proof {
            lemma_lines_push(all, i as int, door_line());
        }
        let line = lit("  door borrow ").concat(v[i].0.as_str()).concat(" from ").concat(v[i].1.as_str()).concat(" ").concat(show_span(v[i].2).as_str()).concat(" -> P6 obligation at the door; O6 past it\n");
        out.append(line.as_str());
        i = i + 1;
        assert(out@ =~= head + lines(all.take(i as int), door_line()));
    }
    assert(all.take(i as int) =~= all);
}

/// One line per strict-provenance operation.
fn write_prov(out: &mut String, v: &Vec<(String, String, Span)>)
    ensures
        final(out)@ == old(out)@ + lines(named2(v@), prov_line()),
{
    let ghost head = out@;
    let ghost all = named2(v@);
    let mut i: usize = 0;
    assert(all.take(0) =~= Seq::empty());
    assert(out@ =~= head + lines(all.take(0), prov_line()));
    while i < v.len()
        invariant
            i <= v.len(),
            all == named2(v@),
            out@ == head + lines(all.take(i as int), prov_line()),
        decreases v.len() - i,
    {
        proof {
            lemma_lines_push(all, i as int, prov_line());
        }
        let line = lit("  prov ").concat(v[i].0.as_str()).concat(" ").concat(v[i].1.as_str()).concat(" ").concat(show_span(v[i].2).as_str()).concat(" -> derivation, not access (creation-is-not-a-use)\n");
        out.append(line.as_str());
        i = i + 1;
        assert(out@ =~= head + lines(all.take(i as int), prov_line()));
    }
    assert(all.take(i as int) =~= all);
}

impl FnFacts {
    /// Deterministic textual form.
    pub fn render(&self) -> (r: String)
        ensures
            r@ == self@.text(),
    {
        let mut out = lit("facts fn ").concat(self.name.as_str()).concat("\n");
        write_names(&mut out, &self.mut_params, "  mut ", MUT_TAIL);
        write_names(&mut out, &self.read_params, "  read ", READ_TAIL);
        write_names(&mut out, &self.take_params, "  take ", TAKE_TAIL);
        write_sites(&mut out, &self.move_sites, "  move ", MOVE_TAIL);
        write_allocs(&mut out, &self.alloc_sites);
        write_sites(&mut out, &self.promoted_regions, "  promote region ", PROMOTE_TAIL);
        write_sites(&mut out, &self.stack_allocs, "  stack-alloc ", STACK_TAIL);
        write_sites(&mut out, &self.dups, "  dup ", DUP_TAIL);
        write_sites(&mut out, &self.drops, "  drop ", DROP_TAIL);
        write_cells(&mut out, &self.cells);
        write_sites(&mut out, &self.handle_checks, "  handle-check ", HANDLE_TAIL);
        write_unsafe(&mut out, &self.unsafe_blocks);
        write_sites(&mut out, &self.assumes, "  assume-noalias ", ASSUME_TAIL);
        write_raw(&mut out, &self.raw_accesses);
        write_exposes(&mut out, &self.exposes);
        write_doors(&mut out, &self.doors);
        write_prov(&mut out, &self.prov_ops);
        write_sites(&mut out, &self.c_calls, "  c-call ", C_CALL_TAIL);
        out
    }
}

// ------------------------------------------------------------------- laws --

proof fn lemma_picked_iff<A, B>(s: Seq<A>, f: spec_fn(A) -> Option<B>, y: B)
    ensures
        picked(s, f).contains(y) <==> exists|i: int| 0 <= i < s.len() && f(#[trigger] s[i]) == Some(y),
    decreases s.len(),
{
    if s.len() > 0 {
        let rest = picked(s.drop_last(), f);
        let all = picked(s, f);
        lemma_picked_iff(s.drop_last(), f, y);
        if all.contains(y) {
            let k = choose|k: int| 0 <= k < all.len() && all[k] == y;
            if k < rest.len() {
                assert(rest[k] == y);
                let i = choose|i: int|
                    0 <= i < s.drop_last().len() && f(#[trigger] s.drop_last()[i]) == Some(y);
                assert(f(s[i]) == Some(y));
            } else {
                assert(f(s[s.len() - 1]) == Some(y));
            }
        }
        if exists|i: int| 0 <= i < s.len() && f(#[trigger] s[i]) == Some(y) {
            let i = choose|i: int| 0 <= i < s.len() && f(#[trigger] s[i]) == Some(y);
            if i < s.len() - 1 {
                assert(f(s.drop_last()[i]) == Some(y));
                let k = choose|k: int| 0 <= k < rest.len() && rest[k] == y;
                assert(all[k] == y);
            } else {
                assert(all[rest.len() as int] == y);
            }
        }
    }
}

/// The statement stands in the graph.
pub open spec fn has_stmt(cfg: CfgView, s: StmtView) -> bool {
    exists|b: int, k: int|
        0 <= b < cfg.blocks.len() && 0 <= k < (#[trigger] cfg.blocks[b]).stmts.len()
            && cfg.blocks[b].stmts[k] == s && #[trigger] nth_stmt(b, k)
}

/// A position in a graph.
pub open spec fn nth_stmt(b: int, k: int) -> bool {
    true
}

proof fn lemma_flat_iff(blocks: Seq<BlockView>, n: nat, s: StmtView)
    requires
        n <= blocks.len(),
    ensures
        flat(blocks, n).contains(s) <==> exists|b: int, k: int|
            0 <= b < n && 0 <= k < (#[trigger] blocks[b]).stmts.len() && blocks[b].stmts[k] == s
                && #[trigger] nth_stmt(b, k),
    decreases n,
{
    if n > 0 {
        let a = flat(blocks, (n - 1) as nat);
        let c = blocks[n - 1].stmts;
        lemma_flat_iff(blocks, (n - 1) as nat, s);
        if flat(blocks, n).contains(s) {
            let i = choose|i: int| 0 <= i < (a + c).len() && (a + c)[i] == s;
            if i < a.len() {
                assert(a[i] == s);
            } else {
                let b = n - 1;
                let k = i - a.len();
                assert(blocks[b].stmts[k] == s && nth_stmt(b, k));
            }
        }
        if exists|b: int, k: int|
            0 <= b < n && 0 <= k < (#[trigger] blocks[b]).stmts.len() && blocks[b].stmts[k] == s
                && #[trigger] nth_stmt(b, k) {
            let (b, k) = choose|b: int, k: int|
                0 <= b < n && 0 <= k < (#[trigger] blocks[b]).stmts.len() && blocks[b].stmts[k]
                    == s && #[trigger] nth_stmt(b, k);
            if b < n - 1 {
                assert(blocks[b].stmts[k] == s && nth_stmt(b, k));
                let i = choose|i: int| 0 <= i < a.len() && a[i] == s;
                assert((a + c)[i] == s);
            } else {
                assert((a + c)[a.len() + k] == s);
            }
        }
    }
}

proof fn lemma_fact_iff<B>(cfg: CfgView, f: spec_fn(StmtView) -> Option<B>, y: B)
    ensures
        picked(flat(cfg.blocks, cfg.blocks.len()), f).contains(y) <==> exists|s: StmtView|
            #[trigger] has_stmt(cfg, s) && f(s) == Some(y),
{
    let all = flat(cfg.blocks, cfg.blocks.len());
    lemma_picked_iff(all, f, y);
    if picked(all, f).contains(y) {
        let i = choose|i: int| 0 <= i < all.len() && f(#[trigger] all[i]) == Some(y);
        lemma_flat_iff(cfg.blocks, cfg.blocks.len(), all[i]);
        assert(all.contains(all[i]));
        assert(has_stmt(cfg, all[i]));
    }
    if exists|s: StmtView| #[trigger] has_stmt(cfg, s) && f(s) == Some(y) {
        let s = choose|s: StmtView| #[trigger] has_stmt(cfg, s) && f(s) == Some(y);
        lemma_flat_iff(cfg.blocks, cfg.blocks.len(), s);
        let i = choose|i: int| 0 <= i < all.len() && all[i] == s;
        assert(f(all[i]) == Some(y));
    }
}

/// Some parameter of the name is declared with the mode.
pub open spec fn declares(cfg: CfgView, name: Seq<char>, mode: Option<ParamMode>) -> bool {
    exists|i: int|
        0 <= i < cfg.locals.len() && (#[trigger] cfg.locals[i]).name == name
            && cfg.locals[i].param_mode == Some(mode)
}

/// A parameter is exported as exclusive iff it is declared `mut`, as
/// immutable iff it is declared without a mode, and as owned iff it is
/// declared `take`.
pub proof fn law_parameters_by_mode(
    cfg: CfgView,
    regions: SummaryView,
    cells: Seq<(SiteId, bool)>,
    name: Seq<char>,
)
    ensures
        facts_of(cfg, regions, cells).mut_params.contains(name) <==> declares(
            cfg,
            name,
            Some(ParamMode::Mut),
        ),
        facts_of(cfg, regions, cells).read_params.contains(name) <==> declares(cfg, name, None),
        facts_of(cfg, regions, cells).take_params.contains(name) <==> declares(
            cfg,
            name,
            Some(ParamMode::Take),
        ),
{
    lemma_picked_iff(cfg.locals, param_fact(Some(ParamMode::Mut)), name);
    lemma_picked_iff(cfg.locals, param_fact(None), name);
    lemma_picked_iff(cfg.locals, param_fact(Some(ParamMode::Take)), name);
    lemma_mode_declared(cfg, name, Some(ParamMode::Mut));
    lemma_mode_declared(cfg, name, None);
    lemma_mode_declared(cfg, name, Some(ParamMode::Take));
}

proof fn lemma_mode_declared(cfg: CfgView, name: Seq<char>, mode: Option<ParamMode>)
    ensures
        declares(cfg, name, mode) <==> exists|i: int|
            0 <= i < cfg.locals.len() && param_fact(mode)(#[trigger] cfg.locals[i]) == Some(name),
{
    if declares(cfg, name, mode) {
        let i = choose|i: int|
            0 <= i < cfg.locals.len() && (#[trigger] cfg.locals[i]).name == name
                && cfg.locals[i].param_mode == Some(mode);
        assert(param_fact(mode)(cfg.locals[i]) == Some(name));
    }
}

/// A whole-value move is exported iff the graph moves a whole local or
/// global there.
pub proof fn law_moves_exported(
    cfg: CfgView,
    regions: SummaryView,
    cells: Seq<(SiteId, bool)>,
    text: Seq<char>,
    span: Span,
)
    ensures
        facts_of(cfg, regions, cells).move_sites.contains((text, span)) <==> exists|place: PlaceId|
            #[trigger] has_stmt(cfg, StmtView::Move { place, span }) && cfg.show(place) == text
                && cfg.places.at(place).proj.len() == 0,
{
    lemma_fact_iff(cfg, move_fact(cfg), (text, span));
    assert forall|place: PlaceId| #[trigger]
        has_stmt(cfg, StmtView::Move { place, span }) && cfg.show(place) == text && cfg.places.at(
            place,
        ).proj.len() == 0 implies move_fact(cfg)(StmtView::Move { place, span }) == Some(
        (text, span),
    ) by {}
}

/// Count increments, decrements and generational checks are exported iff
/// the graph records them.
pub proof fn law_counts_exported(
    cfg: CfgView,
    regions: SummaryView,
    cells: Seq<(SiteId, bool)>,
    text: Seq<char>,
    span: Span,
)
    ensures
        facts_of(cfg, regions, cells).dups.contains((text, span)) <==> exists|place: PlaceId|
            #[trigger] has_stmt(cfg, StmtView::Dup { place, span }) && cfg.show(place) == text,
        facts_of(cfg, regions, cells).drops.contains((text, span)) <==> exists|place: PlaceId|
            #[trigger] has_stmt(cfg, StmtView::Drop { place, span }) && cfg.show(place) == text,
        facts_of(cfg, regions, cells).handle_checks.contains((text, span)) <==> exists|
            place: PlaceId,
        |
            #[trigger] has_stmt(cfg, StmtView::HandleCheck { place, span }) && cfg.show(place)
                == text,
{
    lemma_fact_iff(cfg, dup_fact(cfg), (text, span));
    lemma_fact_iff(cfg, drop_fact(cfg), (text, span));
    lemma_fact_iff(cfg, handle_fact(cfg), (text, span));
    assert forall|place: PlaceId| #[trigger]
        has_stmt(cfg, StmtView::Dup { place, span }) && cfg.show(place) == text implies dup_fact(cfg)(
        StmtView::Dup { place, span },
    ) == Some((text, span)) by {}
    assert forall|place: PlaceId| #[trigger]
        has_stmt(cfg, StmtView::Drop { place, span }) && cfg.show(place) == text implies drop_fact(
        cfg,
    )(StmtView::Drop { place, span }) == Some((text, span)) by {}
    assert forall|place: PlaceId| #[trigger]
        has_stmt(cfg, StmtView::HandleCheck { place, span }) && cfg.show(place)
            == text implies handle_fact(cfg)(StmtView::HandleCheck { place, span }) == Some(
        (text, span),
    ) by {}
}

/// Every raw-tier operation of the graph is exported where it stands, a
/// read as a read and a write as a write, and nothing else is.
pub proof fn law_raw_operations_exported(
    cfg: CfgView,
    regions: SummaryView,
    cells: Seq<(SiteId, bool)>,
    a: Seq<char>,
    b: Seq<char>,
    span: Span,
)
    ensures
        ({
            let f = facts_of(cfg, regions, cells);
            &&& f.unsafe_blocks.contains(span) <==> has_stmt(cfg, StmtView::UnsafeEnter { span })
            &&& f.assumes.contains((a, span)) <==> has_stmt(cfg, StmtView::Assume { ops: a, span })
            &&& f.raw_accesses.contains((a, false, span)) <==> has_stmt(
                cfg,
                StmtView::RawRead { ptr: a, span },
            )
            &&& f.raw_accesses.contains((a, true, span)) <==> has_stmt(
                cfg,
                StmtView::RawWrite { ptr: a, span },
            )
            &&& f.exposes.contains((a, b, span)) <==> has_stmt(
                cfg,
                StmtView::Expose { what: a, dir: b, span },
            )
            &&& f.doors.contains((a, b, span)) <==> has_stmt(
                cfg,
                StmtView::Door { region: a, ptr: b, span },
            )
            &&& f.prov_ops.contains((a, b, span)) <==> has_stmt(
                cfg,
                StmtView::ProvOp { op: a, ptr: b, span },
            )
            &&& f.c_calls.contains((a, span)) <==> exists|c: CallView| #[trigger]
                has_stmt(cfg, StmtView::Call(c)) && c.c_call && c.callee == a && c.span == span
        }),
{
    lemma_fact_iff(cfg, unsafe_fact(), span);
    lemma_fact_iff(cfg, assume_fact(), (a, span));
    lemma_fact_iff(cfg, raw_fact(), (a, false, span));
    lemma_fact_iff(cfg, raw_fact(), (a, true, span));
    lemma_fact_iff(cfg, expose_fact(), (a, b, span));
    lemma_fact_iff(cfg, door_fact(), (a, b, span));
    lemma_fact_iff(cfg, prov_fact(), (a, b, span));
    lemma_fact_iff(cfg, c_call_fact(), (a, span));
    assert forall|c: CallView| #[trigger]
        has_stmt(cfg, StmtView::Call(c)) && c.c_call && c.callee == a && c.span
            == span implies c_call_fact()(StmtView::Call(c)) == Some((a, span)) by {}
}

/// Every allocation of the body itself is exported with its region, the
/// caller's are not; and one that never leaves the frame, and no other, is
/// exported as stackable.
pub proof fn law_allocations_exported(
    cfg: CfgView,
    regions: SummaryView,
    cells: Seq<(SiteId, bool)>,
    ty: Seq<char>,
    region: Seq<char>,
    span: Span,
)
    ensures
        facts_of(cfg, regions, cells).alloc_sites.contains((ty, region, span)) <==> exists|i: int|
            0 <= i < regions.sites.len() && !((#[trigger] regions.sites[i]).kind is Param)
                && regions.sites[i].ty == ty && regions.sites[i].span == span
                && regions.resolved[regions.sites[i].region.0 as int] == region,
        facts_of(cfg, regions, cells).stack_allocs.contains((ty, span)) <==> exists|i: int|
            0 <= i < regions.sites.len() && !((#[trigger] regions.sites[i]).kind is Param)
                && regions.sites[i].stacked && regions.sites[i].ty == ty && regions.sites[i].span
                == span,
{
    lemma_picked_iff(regions.sites, alloc_fact(regions), (ty, region, span));
    lemma_picked_iff(regions.sites, stack_fact(), (ty, span));
    assert forall|i: int|
        0 <= i < regions.sites.len() && !((#[trigger] regions.sites[i]).kind is Param)
            && regions.sites[i].ty == ty && regions.sites[i].span == span
            && regions.resolved[regions.sites[i].region.0 as int] == region implies alloc_fact(
        regions,
    )(regions.sites[i]) == Some((ty, region, span)) by {}
    assert forall|i: int|
        0 <= i < regions.sites.len() && !((#[trigger] regions.sites[i]).kind is Param)
            && regions.sites[i].stacked && regions.sites[i].ty == ty && regions.sites[i].span
            == span implies stack_fact()(regions.sites[i]) == Some((ty, span)) by {}
}

/// Every promoted region and every cell is exported, in order, a cell with
/// its atomicity.
pub proof fn law_regions_and_cells_exported(
    cfg: CfgView,
    regions: SummaryView,
    cells: Seq<(SiteId, bool)>,
    i: int,
)
    ensures
        ({
            let f = facts_of(cfg, regions, cells);
            &&& f.promoted_regions.len() == regions.promoted.len()
            &&& f.cells.len() == cells.len()
            &&& 0 <= i < regions.promoted.len() ==> {
                let r = regions.regions[regions.promoted[i].0 as int];
                f.promoted_regions[i] == (r.name, r.span)
            }
            &&& 0 <= i < cells.len() ==> {
                let site = cfg.sites[cells[i].0.0 as int];
                f.cells[i] == (site.ty, site.span, cells[i].1)
            }
        }),
{
}

} // verus!
