//! The lowering state: the graph under construction, the region
//! variables, and what is known about every allocation site, local and
//! region so far. The walk over a body ([`crate::lower`]) is made of the
//! steps defined here.

use vstd::prelude::*;
use vstd::string::*;

use crate::ast::Expr;
use crate::cfg::{
    base_ok, block_views, local_views, places_ok, render_place, site_views, stmt_ok, AllocSite,
    Block, BlockId, BlockView, Loan, Local, LocalId, LocalView, Region, RegionId, RegionKind,
    RegionView, SiteId, SiteView, Stmt, StmtView, Strategy, StrategyView,
};
use crate::diag::{diag_views, lemma_diag_views_push, texts, DiagView, Diagnostic, Span};
use crate::place::{
    lemma_intern_wf, Base, BaseView, Place, PlaceId, PlaceTable, PlaceTableView, PlaceView,
};
use crate::regions::{opt_strs, Binding, RegionTable, RegionTableView, Unify};
use crate::text::{lit, str_eq};
use crate::types::{Tables, Ty};

verus! {

// -------------------------------------------------------------- values --

/// A value's region provenance: which allocation sites the value may
/// contain, and which first-class region it denotes, when one is
/// statically known.
pub struct Val {
    /// Site ids in ascending order.
    pub sites: Vec<SiteId>,
    /// The region this expression denotes.
    pub region: Option<RegionId>,
    /// The span that produced the first site.
    pub origin: Option<Span>,
    /// Fields that hold a region value with known identity.
    pub region_fields: Vec<(String, RegionId)>,
    /// The places this value borrows (a dyn pair's operand, a closure's
    /// captures).
    pub borrowed: Vec<PlaceId>,
}

#[verifier::ext_equal]
pub struct ValView {
    pub sites: Seq<SiteId>,
    pub region: Option<RegionId>,
    pub origin: Option<Span>,
    pub region_fields: Seq<(Seq<char>, RegionId)>,
    pub borrowed: Seq<PlaceId>,
}

pub open spec fn field_regions(v: Seq<(String, RegionId)>) -> Seq<(Seq<char>, RegionId)> {
    Seq::new(v.len(), |i: int| (v[i].0@, v[i].1))
}

impl View for Val {
    type V = ValView;

    open spec fn view(&self) -> ValView {
        ValView {
            sites: self.sites@,
            region: self.region,
            origin: self.origin,
            region_fields: field_regions(self.region_fields@),
            borrowed: self.borrowed@,
        }
    }
}

/// The least index from `i` on at which a greater site stands.
pub open spec fn site_slot(s: Seq<SiteId>, x: SiteId, i: int) -> int
    decreases s.len() - i,
{
    if i >= s.len() || s[i].0 > x.0 {
        i
    } else {
        site_slot(s, x, i + 1)
    }
}

/// The ascending list with one more site.
pub open spec fn insert_site(s: Seq<SiteId>, x: SiteId) -> Seq<SiteId> {
    if s.contains(x) {
        s
    } else {
        s.insert(site_slot(s, x, 0), x)
    }
}

/// The list with the first `n` of `more` added.
pub open spec fn insert_sites(s: Seq<SiteId>, more: Seq<SiteId>, n: nat) -> Seq<SiteId>
    decreases n,
{
    if n == 0 {
        s
    } else {
        insert_site(insert_sites(s, more, (n - 1) as nat), more[n - 1])
    }
}

impl ValView {
    pub open spec fn none() -> ValView {
        ValView {
            sites: Seq::empty(),
            region: None,
            origin: None,
            region_fields: Seq::empty(),
            borrowed: Seq::empty(),
        }
    }

    pub open spec fn site(id: SiteId, span: Span) -> ValView {
        ValView { sites: seq![id], origin: Some(span), ..ValView::none() }
    }

    pub open spec fn of_region(r: RegionId, span: Span) -> ValView {
        ValView { region: Some(r), origin: Some(span), ..ValView::none() }
    }

    /// The union of two values (a merge of paths or of parts). Two
    /// different region values lose their identity.
    pub open spec fn merge(self, other: ValView) -> ValView {
        ValView {
            sites: insert_sites(self.sites, other.sites, other.sites.len()),
            origin: if self.origin is None {
                other.origin
            } else {
                self.origin
            },
            region: match (self.region, other.region) {
                (Some(a), Some(b)) => if a == b {
                    Some(a)
                } else {
                    None
                },
                (Some(a), None) => Some(a),
                (None, b) => b,
            },
            region_fields: self.region_fields + other.region_fields,
            borrowed: self.borrowed,
        }
    }
}

pub fn add_site(v: &mut Vec<SiteId>, x: SiteId)
    ensures
        final(v)@ == insert_site(old(v)@, x),
{
    let ghost s = v@;
    let mut slot: usize = v.len();
    let mut i: usize = 0;
    while i < v.len()
        invariant
            i <= v.len(),
            s == v@,
            forall|k: int| 0 <= k < i ==> s[k] != x,
            slot == v.len() ==> site_slot(s, x, 0) == site_slot(s, x, i as int),
            slot < v.len() ==> site_slot(s, x, 0) == slot,
            slot <= v.len(),
        decreases v.len() - i,
    {
        if v[i] == x {
            return;
        }
        if v[i].0 > x.0 && slot == v.len() {
            slot = i;
        }
        i = i + 1;
    }
    assert(!s.contains(x));
    v.insert(slot, x);
}

impl Val {
    pub fn none() -> (r: Val)
        ensures
            r@ == ValView::none(),
    {
        let r = Val {
            sites: Vec::new(),
            region: None,
            origin: None,
            region_fields: Vec::new(),
            borrowed: Vec::new(),
        };
        assert(r@ =~= ValView::none());
        r
    }

    pub fn site(id: SiteId, span: Span) -> (r: Val)
        ensures
            r@ == ValView::site(id, span),
    {
        let mut sites: Vec<SiteId> = Vec::new();
        sites.push(id);
        let r = Val {
            sites,
            region: None,
            origin: Some(span),
            region_fields: Vec::new(),
            borrowed: Vec::new(),
        };
        assert(r@ =~= ValView::site(id, span));
        r
    }

    pub fn of_region(id: RegionId, span: Span) -> (r: Val)
        ensures
            r@ == ValView::of_region(id, span),
    {
        let r = Val {
            sites: Vec::new(),
            region: Some(id),
            origin: Some(span),
            region_fields: Vec::new(),
            borrowed: Vec::new(),
        };
        assert(r@ =~= ValView::of_region(id, span));
        r
    }

    pub fn merge(&mut self, other: Val)
        ensures
            final(self)@ == old(self)@.merge(other@),
    {
        let ghost a = self@;
        let ghost b = other@;
        let mut i: usize = 0;
        while i < other.sites.len()
            invariant
                i <= other.sites.len(),
                b == other@,
                self@ == (ValView { sites: insert_sites(a.sites, b.sites, i as nat), ..a }),
            decreases other.sites.len() - i,
        {
            add_site(&mut self.sites, other.sites[i]);
            i = i + 1;
            assert(self@ =~= (ValView { sites: insert_sites(a.sites, b.sites, i as nat), ..a }));
        }
        if self.origin.is_none() {
            self.origin = other.origin;
        }
        self.region =
        match (self.region, other.region) {
            (Some(x), Some(y)) => if x == y {
                Some(x)
            } else {
                None
            },
            (Some(x), None) => Some(x),
            (None, y) => y,
        };
        let mut j: usize = 0;
        let ghost fields = b.region_fields;
        assert(fields.take(0) =~= Seq::empty());
        assert(self@.region_fields =~= a.region_fields + fields.take(0));
        while j < other.region_fields.len()
            invariant
                j <= other.region_fields.len(),
                fields == field_regions(other.region_fields@),
                self.sites@ == insert_sites(a.sites, b.sites, b.sites.len()),
                self.region == a.merge(b).region,
                self.origin == a.merge(b).origin,
                self.borrowed@ == a.borrowed,
                field_regions(self.region_fields@) == a.region_fields + fields.take(j as int),
            decreases other.region_fields.len() - j,
        {
            let ghost before = field_regions(self.region_fields@);
            let f = &other.region_fields[j];
            self.region_fields.push((f.0.clone(), f.1));
            assert(field_regions(self.region_fields@) =~= before.push((f.0@, f.1)));
            j = j + 1;
            assert(field_regions(self.region_fields@) =~= a.region_fields + fields.take(j as int));
        }
        assert(fields.take(j as int) =~= fields);
        assert(self@ =~= a.merge(b));
    }

    pub fn duplicate(&self) -> (r: Val)
        ensures
            r@ == self@,
    {
        let mut sites: Vec<SiteId> = Vec::new();
        let mut i: usize = 0;
        while i < self.sites.len()
            invariant
                i <= self.sites.len(),
                sites@ == self.sites@.take(i as int),
            decreases self.sites.len() - i,
        {
            sites.push(self.sites[i]);
            i = i + 1;
            assert(sites@ =~= self.sites@.take(i as int));
        }
        let mut fields: Vec<(String, RegionId)> = Vec::new();
        let mut j: usize = 0;
        while j < self.region_fields.len()
            invariant
                j <= self.region_fields.len(),
                fields.len() == j,
                forall|k: int|
                    0 <= k < j ==> field_regions(fields@)[k] == field_regions(
                        self.region_fields@,
                    )[k],
            decreases self.region_fields.len() - j,
        {
            let ghost before = fields@;
            fields.push((self.region_fields[j].0.clone(), self.region_fields[j].1));
            assert forall|k: int| 0 <= k < j + 1 implies field_regions(fields@)[k]
                == field_regions(self.region_fields@)[k] by {
                if k < j {
                    assert(field_regions(before)[k] == field_regions(self.region_fields@)[k]);
                }
            }
            j = j + 1;
        }
        let mut borrowed: Vec<PlaceId> = Vec::new();
        let mut k: usize = 0;
        while k < self.borrowed.len()
            invariant
                k <= self.borrowed.len(),
                borrowed@ == self.borrowed@.take(k as int),
            decreases self.borrowed.len() - k,
        {
            borrowed.push(self.borrowed[k]);
            k = k + 1;
            assert(borrowed@ =~= self.borrowed@.take(k as int));
        }
        let r = Val {
            sites,
            region: self.region,
            origin: self.origin,
            region_fields: fields,
            borrowed,
        };
        assert(r@.sites =~= self@.sites);
        assert(r@.borrowed =~= self@.borrowed);
        assert(r@ =~= self@);
        r
    }
}

spec fn ascending(s: Seq<SiteId>) -> bool {
    forall|i: int, j: int| 0 <= i < j < s.len() ==> (#[trigger] s[i]).0 < (#[trigger] s[j]).0
}

proof fn lemma_slot(s: Seq<SiteId>, x: SiteId, i: int)
    requires
        0 <= i <= s.len(),
        ascending(s),
        forall|k: int| 0 <= k < i ==> (#[trigger] s[k]).0 <= x.0,
    ensures
        i <= site_slot(s, x, i) <= s.len(),
        forall|k: int| 0 <= k < site_slot(s, x, i) ==> (#[trigger] s[k]).0 <= x.0,
        forall|k: int| site_slot(s, x, i) <= k < s.len() ==> (#[trigger] s[k]).0 > x.0,
    decreases s.len() - i,
{
    if i < s.len() && s[i].0 <= x.0 {
        lemma_slot(s, x, i + 1);
    }
}

pub proof fn lemma_slot_range(s: Seq<SiteId>, x: SiteId, i: int)
    requires
        0 <= i <= s.len(),
    ensures
        i <= site_slot(s, x, i) <= s.len(),
    decreases s.len() - i,
{
    if i < s.len() && s[i].0 <= x.0 {
        lemma_slot_range(s, x, i + 1);
    }
}

proof fn lemma_insert_ascending(s: Seq<SiteId>, x: SiteId)
    requires
        ascending(s),
    ensures
        ascending(insert_site(s, x)),
        forall|y: SiteId|
            #[trigger] insert_site(s, x).contains(y) <==> s.contains(y) || y == x,
{
    if !s.contains(x) {
        lemma_slot(s, x, 0);
        let p = site_slot(s, x, 0);
        let r = s.insert(p, x);
        assert forall|i: int, j: int| 0 <= i < j < r.len() implies (#[trigger] r[i]).0 < (
        #[trigger] r[j]).0 by {
            if i == p {
                assert(r[j] == s[j - 1]);
            } else if j == p {
                assert(r[i] == s[i]);
                assert(s.contains(s[i]));
            } else if i < p && j > p {
                assert(r[i] == s[i] && r[j] == s[j - 1]);
            } else if i > p {
                assert(r[i] == s[i - 1] && r[j] == s[j - 1]);
            }
        }
        assert forall|y: SiteId| #[trigger] r.contains(y) <==> s.contains(y) || y == x by {
            if r.contains(y) {
                let k = choose|k: int| 0 <= k < r.len() && r[k] == y;
                if k < p {
                    assert(s[k] == y);
                } else if k > p {
                    assert(s[k - 1] == y);
                }
            }
            if s.contains(y) {
                let k = choose|k: int| 0 <= k < s.len() && s[k] == y;
                if k < p {
                    assert(r[k] == y);
                } else {
                    assert(r[k + 1] == y);
                }
            }
            if y == x {
                assert(r[p] == x);
            }
        }
    }
}

proof fn lemma_insert_sites(s: Seq<SiteId>, more: Seq<SiteId>, n: nat)
    requires
        ascending(s),
        n <= more.len(),
    ensures
        ascending(insert_sites(s, more, n)),
        forall|y: SiteId|
            #[trigger] insert_sites(s, more, n).contains(y) <==> s.contains(y) || more.take(
                n as int,
            ).contains(y),
    decreases n,
{
    if n == 0 {
        assert(!exists|y: SiteId| more.take(0).contains(y));
    } else {
        let m = (n - 1) as nat;
        lemma_insert_sites(s, more, m);
        lemma_insert_ascending(insert_sites(s, more, m), more[n - 1]);
        assert forall|y: SiteId| #[trigger] insert_sites(s, more, n).contains(y) <==> s.contains(y)
            || more.take(n as int).contains(y) by {
            let a = more.take(n as int);
            let b = more.take(m as int);
            assert(a =~= b.push(more[n - 1]));
            if b.contains(y) {
                let k = choose|k: int| 0 <= k < b.len() && b[k] == y;
                assert(a[k] == y);
            }
            if y == more[n - 1] {
                assert(a[n - 1] == y);
            }
            if a.contains(y) {
                let k = choose|k: int| 0 <= k < a.len() && a[k] == y;
                if k < m {
                    assert(b[k] == y);
                }
            }
        }
    }
}

/// A merge keeps the site list ascending and is the union of the two: a
/// may-set is never strong-updated.
pub proof fn law_merge_is_union(a: ValView, b: ValView, y: SiteId)
    requires
        forall|i: int, j: int|
            0 <= i < j < a.sites.len() ==> (#[trigger] a.sites[i]).0 < (#[trigger] a.sites[j]).0,
    ensures
        forall|i: int, j: int|
            0 <= i < j < a.merge(b).sites.len() ==> (#[trigger] a.merge(b).sites[i]).0 < (
            #[trigger] a.merge(b).sites[j]).0,
        a.merge(b).sites.contains(y) <==> a.sites.contains(y) || b.sites.contains(y),
{
    assert(ascending(a.sites));
    lemma_insert_sites(a.sites, b.sites, b.sites.len());
    assert(b.sites.take(b.sites.len() as int) =~= b.sites);
    assert(ascending(a.merge(b).sites));
    assert(a.merge(b).sites.contains(y) <==> a.sites.contains(y) || b.sites.contains(y));
}

// --------------------------------------------------------------- state --

/// What a body is lowered against.
#[derive(Clone, Copy)]
pub struct Cx<'t> {
    pub tabs: Tables<'t>,
    pub module: u32,
    /// The source file's lines.
    pub lines: &'t Vec<String>,
}

/// One scope-exit cleanup obligation.
#[derive(Clone, Copy)]
pub enum Cleanup<'t> {
    /// `defer` / `errdefer` (true for `errdefer`).
    Defer(&'t Expr, bool),
    /// A `shared`/`weak`-typed local's recorded drop.
    DropLocal(LocalId),
}

pub struct Scope<'t> {
    pub names: Vec<(String, LocalId)>,
    /// Obligations in declaration order; they run in reverse.
    pub cleanup: Vec<Cleanup<'t>>,
    /// How many locals were declared before the scope.
    pub mark: usize,
}

#[derive(Clone, Copy, PartialEq, Eq, Structural)]
pub struct LoopFrame {
    pub break_to: BlockId,
    pub continue_to: BlockId,
    pub depth: usize,
}

#[verifier::ext_equal]
pub struct ScopeView<'t> {
    pub names: Seq<(Seq<char>, LocalId)>,
    pub cleanup: Seq<Cleanup<'t>>,
    pub mark: usize,
}

pub open spec fn name_views(v: Seq<(String, LocalId)>) -> Seq<(Seq<char>, LocalId)> {
    Seq::new(v.len(), |i: int| (v[i].0@, v[i].1))
}

impl<'t> View for Scope<'t> {
    type V = ScopeView<'t>;

    open spec fn view(&self) -> ScopeView<'t> {
        ScopeView { names: name_views(self.names@), cleanup: self.cleanup@, mark: self.mark }
    }
}

pub open spec fn scope_views<'t>(v: Seq<Scope<'t>>) -> Seq<ScopeView<'t>> {
    Seq::new(v.len(), |i: int| v[i]@)
}

pub open spec fn hold_views(v: Seq<Vec<(SiteId, Span)>>) -> Seq<Seq<(SiteId, Span)>> {
    Seq::new(v.len(), |i: int| v[i]@)
}

pub open spec fn region_field_views(v: Seq<(u32, String, RegionId)>) -> Seq<
    (u32, Seq<char>, RegionId),
> {
    Seq::new(v.len(), |i: int| (v[i].0, v[i].1@, v[i].2))
}

/// A declared view set: the `self` local, the viewed fields, where it is
/// declared.
pub open spec fn view_set_view(o: Option<(LocalId, Vec<String>, Span)>) -> Option<
    (LocalId, Seq<Seq<char>>, Span),
> {
    match o {
        Some((l, fs, s)) => Some((l, texts(fs@), s)),
        None => None,
    }
}

/// The lowering state as a value.
#[verifier::ext_equal]
pub struct LowView<'t> {
    pub blocks: Seq<BlockView>,
    pub locals: Seq<LocalView>,
    pub tys: Seq<Option<Ty>>,
    pub places: PlaceTableView,
    pub cur: BlockId,
    pub scopes: Seq<ScopeView<'t>>,
    pub loops: Seq<LoopFrame>,
    pub view_set: Option<(LocalId, Seq<Seq<char>>, Span)>,
    pub diags: Seq<DiagView>,
    pub rt: RegionTableView,
    /// The ambient-region stack.
    pub ambient: Seq<RegionId>,
    pub sites: Seq<SiteView>,
    /// Per site: why the value may leave the frame.
    pub escape: Seq<Option<Seq<char>>>,
    /// Per local: the sites its value may contain, each with the span
    /// where it flowed in, by ascending site.
    pub holds: Seq<Seq<(SiteId, Span)>>,
    /// Per local: the region it denotes; the inner `None` once it was
    /// rebound to another region.
    pub region_local: Seq<Option<Option<RegionId>>>,
    /// Per region: its free is no longer this frame's.
    pub moved: Seq<bool>,
    /// Per region: an escape or placement error involved it.
    pub tainted: Seq<bool>,
    /// Per region: its handle was lent to a callee.
    pub lent: Seq<bool>,
    pub promoted: Seq<RegionId>,
    pub conflicted: bool,
    pub pattern_moves: Seq<Span>,
    pub static_region: Option<RegionId>,
    /// The open windows, outermost first.
    pub open: Seq<(RegionId, Span)>,
    /// Per region: the region of the aggregate it was embedded into.
    pub parent: Seq<Option<RegionId>>,
    /// Per region: where it was frozen.
    pub frozen_region: Seq<Option<Span>>,
    /// Per site: where its data was frozen.
    pub frozen_site: Seq<Option<Span>>,
    /// Field paths with statically known region identity.
    pub region_field: Seq<(u32, Seq<char>, RegionId)>,
    /// Per site: owned by a `shared` cell.
    pub shared_site: Seq<bool>,
    pub rc_cells: Seq<SiteId>,
    /// The places the enclosing `for` loops iterate.
    pub claims: Seq<(PlaceId, Span)>,
    pub in_unsafe: bool,
    pub loans: Seq<Loan>,
    /// Borrowing values not yet bound or passed (true for closures).
    pub unclaimed: Seq<(Span, bool)>,
}

pub struct Lowerer<'t> {
    pub cx: Cx<'t>,
    pub blocks: Vec<Block>,
    pub locals: Vec<Local>,
    pub tys: Vec<Option<Ty>>,
    pub places: PlaceTable,
    pub cur: BlockId,
    pub scopes: Vec<Scope<'t>>,
    pub loops: Vec<LoopFrame>,
    pub view_set: Option<(LocalId, Vec<String>, Span)>,
    pub diags: Vec<Diagnostic>,
    pub rt: RegionTable,
    pub ambient: Vec<RegionId>,
    pub sites: Vec<AllocSite>,
    pub escape: Vec<Option<&'static str>>,
    pub holds: Vec<Vec<(SiteId, Span)>>,
    pub region_local: Vec<Option<Option<RegionId>>>,
    pub moved: Vec<bool>,
    pub tainted: Vec<bool>,
    pub lent: Vec<bool>,
    pub promoted: Vec<RegionId>,
    pub conflicted: bool,
    pub pattern_moves: Vec<Span>,
    pub static_region: Option<RegionId>,
    pub open: Vec<(RegionId, Span)>,
    pub parent: Vec<Option<RegionId>>,
    pub frozen_region: Vec<Option<Span>>,
    pub frozen_site: Vec<Option<Span>>,
    pub region_field: Vec<(u32, String, RegionId)>,
    pub shared_site: Vec<bool>,
    pub rc_cells: Vec<SiteId>,
    pub claims: Vec<(PlaceId, Span)>,
    pub in_unsafe: bool,
    pub loans: Vec<Loan>,
    pub unclaimed: Vec<(Span, bool)>,
}

impl<'t> View for Lowerer<'t> {
    type V = LowView<'t>;

    open spec fn view(&self) -> LowView<'t> {
        LowView {
            blocks: block_views(self.blocks@),
            locals: local_views(self.locals@),
            tys: self.tys@,
            places: self.places@,
            cur: self.cur,
            scopes: scope_views(self.scopes@),
            loops: self.loops@,
            view_set: view_set_view(self.view_set),
            diags: diag_views(self.diags@),
            rt: self.rt@,
            ambient: self.ambient@,
            sites: site_views(self.sites@),
            escape: opt_strs(self.escape@),
            holds: hold_views(self.holds@),
            region_local: self.region_local@,
            moved: self.moved@,
            tainted: self.tainted@,
            lent: self.lent@,
            promoted: self.promoted@,
            conflicted: self.conflicted,
            pattern_moves: self.pattern_moves@,
            static_region: self.static_region,
            open: self.open@,
            parent: self.parent@,
            frozen_region: self.frozen_region@,
            frozen_site: self.frozen_site@,
            region_field: region_field_views(self.region_field@),
            shared_site: self.shared_site@,
            rc_cells: self.rc_cells@,
            claims: self.claims@,
            in_unsafe: self.in_unsafe,
            loans: self.loans@,
            unclaimed: self.unclaimed@,
        }
    }
}

// ----------------------------------------------------- well-formedness --

pub open spec fn block_in(b: BlockView, places: PlaceTableView, loans: nat, blocks: nat) -> bool {
    &&& forall|j: int| 0 <= j < b.stmts.len() ==> stmt_ok(#[trigger] b.stmts[j], places, loans)
    &&& forall|j: int| 0 <= j < b.succs.len() ==> (#[trigger] b.succs[j]).0 < blocks
}

#[verifier::opaque]
pub open spec fn blocks_in(blocks: Seq<BlockView>, places: PlaceTableView, loans: nat) -> bool {
    forall|i: int|
        0 <= i < blocks.len() ==> block_in(#[trigger] blocks[i], places, loans, blocks.len())
}

#[verifier::opaque]
pub open spec fn loans_in(loans: Seq<Loan>, places: PlaceTableView) -> bool {
    forall|i: int| 0 <= i < loans.len() ==> places.has((#[trigger] loans[i]).place)
}

#[verifier::opaque]
pub open spec fn loops_in(loops: Seq<LoopFrame>, blocks: nat) -> bool {
    forall|i: int|
        0 <= i < loops.len() ==> (#[trigger] loops[i]).break_to.0 < blocks
            && loops[i].continue_to.0 < blocks
}

#[verifier::opaque]
pub open spec fn claims_in(claims: Seq<(PlaceId, Span)>, places: PlaceTableView) -> bool {
    forall|i: int| 0 <= i < claims.len() ==> places.has((#[trigger] claims[i]).0)
}

pub open spec fn scope_in(s: ScopeView<'_>, locals: nat) -> bool {
    &&& forall|j: int| 0 <= j < s.names.len() ==> (#[trigger] s.names[j]).1.0 < locals
    &&& forall|j: int|
        0 <= j < s.cleanup.len() ==> ((#[trigger] s.cleanup[j]) matches Cleanup::DropLocal(l)
            ==> l.0 < locals)
}

#[verifier::opaque]
pub open spec fn scopes_in(scopes: Seq<ScopeView<'_>>, locals: nat) -> bool {
    forall|i: int| 0 <= i < scopes.len() ==> scope_in(#[trigger] scopes[i], locals)
}

pub open spec fn hold_in(h: Seq<(SiteId, Span)>, sites: nat) -> bool {
    forall|j: int| 0 <= j < h.len() ==> (#[trigger] h[j]).0.0 < sites
}

#[verifier::opaque]
pub open spec fn holds_in(holds: Seq<Seq<(SiteId, Span)>>, sites: nat) -> bool {
    forall|i: int| 0 <= i < holds.len() ==> hold_in(#[trigger] holds[i], sites)
}

#[verifier::opaque]
pub open spec fn region_locals_in(v: Seq<Option<Option<RegionId>>>, regions: nat) -> bool {
    forall|i: int|
        0 <= i < v.len() ==> ((#[trigger] v[i]) matches Some(Some(r)) ==> r.0 < regions)
}

#[verifier::opaque]
pub open spec fn regions_in(v: Seq<RegionId>, regions: nat) -> bool {
    forall|i: int| 0 <= i < v.len() ==> (#[trigger] v[i]).0 < regions
}

#[verifier::opaque]
pub open spec fn opens_in(v: Seq<(RegionId, Span)>, regions: nat) -> bool {
    forall|i: int| 0 <= i < v.len() ==> (#[trigger] v[i]).0.0 < regions
}

#[verifier::opaque]
pub open spec fn parents_in(v: Seq<Option<RegionId>>, regions: nat) -> bool {
    forall|i: int| 0 <= i < v.len() ==> ((#[trigger] v[i]) matches Some(r) ==> r.0 < regions)
}

#[verifier::opaque]
pub open spec fn field_regions_in(v: Seq<(u32, Seq<char>, RegionId)>, regions: nat) -> bool {
    forall|i: int| 0 <= i < v.len() ==> (#[trigger] v[i]).2.0 < regions
}

#[verifier::opaque]
pub open spec fn sites_in(v: Seq<SiteView>, regions: nat) -> bool {
    forall|i: int| 0 <= i < v.len() ==> (#[trigger] v[i]).region.0 < regions
}

#[verifier::opaque]
pub open spec fn cells_in(v: Seq<SiteId>, sites: nat) -> bool {
    forall|i: int| 0 <= i < v.len() ==> (#[trigger] v[i]).0 < sites
}

impl<'t> LowView<'t> {
    /// The graph names only things that exist.
    pub open spec fn graph_ok(self) -> bool {
        &&& self.cur.0 < self.blocks.len()
        &&& self.blocks.len() >= 2
        &&& self.places.wf()
        &&& places_ok(self.places, self.locals.len())
        &&& blocks_in(self.blocks, self.places, self.loans.len())
        &&& loans_in(self.loans, self.places)
        &&& loops_in(self.loops, self.blocks.len())
        &&& claims_in(self.claims, self.places)
    }

    /// Every local has its records.
    pub open spec fn locals_ok(self) -> bool {
        &&& self.tys.len() == self.locals.len()
        &&& self.holds.len() == self.locals.len()
        &&& self.region_local.len() == self.locals.len()
        &&& scopes_in(self.scopes, self.locals.len())
        &&& holds_in(self.holds, self.sites.len())
        &&& region_locals_in(self.region_local, self.rt.regions.len())
    }

    /// Every region has its records.
    pub open spec fn regions_ok(self) -> bool {
        let n = self.rt.regions.len();
        &&& self.moved.len() == n
        &&& self.tainted.len() == n
        &&& self.lent.len() == n
        &&& self.parent.len() == n
        &&& self.frozen_region.len() == n
        &&& self.ambient.len() > 0
        &&& regions_in(self.ambient, n)
        &&& regions_in(self.promoted, n)
        &&& opens_in(self.open, n)
        &&& parents_in(self.parent, n)
        &&& field_regions_in(self.region_field, n)
        &&& (self.static_region matches Some(r) ==> r.0 < n)
    }

    /// Every site has its records.
    pub open spec fn sites_ok(self) -> bool {
        &&& self.escape.len() == self.sites.len()
        &&& self.frozen_site.len() == self.sites.len()
        &&& self.shared_site.len() == self.sites.len()
        &&& sites_in(self.sites, self.rt.regions.len())
        &&& cells_in(self.rc_cells, self.sites.len())
    }

    pub open spec fn wf(self) -> bool {
        self.graph_ok() && self.locals_ok() && self.regions_ok() && self.sites_ok()
    }

    /// Nothing that was named before has gone away.
    pub open spec fn keeps_ids(self, next: LowView<'t>) -> bool {
        &&& self.blocks.len() <= next.blocks.len()
        &&& self.locals.len() <= next.locals.len()
        &&& self.places.places.len() <= next.places.places.len()
        &&& self.rt.regions.len() <= next.rt.regions.len()
        &&& self.sites.len() <= next.sites.len()
        &&& self.loans.len() <= next.loans.len()
    }

    /// Nor has any stack been popped below where it was.
    pub open spec fn keeps_stacks(self, next: LowView<'t>) -> bool {
        &&& self.scopes.len() <= next.scopes.len()
        &&& self.loops.len() <= next.loops.len()
        &&& self.ambient.len() <= next.ambient.len()
        &&& self.open.len() <= next.open.len()
        &&& self.claims.len() <= next.claims.len()
    }

    /// The value names only things that exist.
    pub open spec fn val_ok(self, v: ValView) -> bool {
        &&& cells_in(v.sites, self.sites.len())
        &&& (v.region matches Some(r) ==> r.0 < self.rt.regions.len())
        &&& forall|i: int|
            0 <= i < v.region_fields.len() ==> (#[trigger] v.region_fields[i]).1.0
                < self.rt.regions.len()
        &&& forall|i: int|
            0 <= i < v.borrowed.len() ==> self.places.has(#[trigger] v.borrowed[i])
    }
}

impl<'t> Lowerer<'t> {
    pub open spec fn inv(&self) -> bool {
        &&& self.rt.inv()
        &&& self@.rt.wf()
        &&& self@.wf()
        &&& self.cx.tabs.wf()
    }
}

/// A step kept what callers hold on to.
pub open spec fn stepped<'t>(a: Lowerer<'t>, b: Lowerer<'t>) -> bool {
    &&& b.inv()
    &&& b.cx == a.cx
    &&& a@.keeps_ids(b@)
    &&& a@.keeps_stacks(b@)
}

pub proof fn lemma_val_kept(a: LowView<'_>, b: LowView<'_>, v: ValView)
    requires
        a.val_ok(v),
        a.keeps_ids(b),
    ensures
        b.val_ok(v),
{
    reveal(cells_in);
}

pub proof fn lemma_blocks_more(
    blocks: Seq<BlockView>,
    p: PlaceTableView,
    loans: nat,
    q: PlaceTableView,
    more: nat,
)
    requires
        blocks_in(blocks, p, loans),
        p.places.len() <= q.places.len(),
        loans <= more,
    ensures
        blocks_in(blocks, q, more),
{
    reveal(blocks_in);
    assert forall|i: int| 0 <= i < blocks.len() implies block_in(
        #[trigger] blocks[i],
        q,
        more,
        blocks.len(),
    ) by {
        let b = blocks[i];
        assert(block_in(b, p, loans, blocks.len()));
        assert forall|j: int| 0 <= j < b.stmts.len() implies stmt_ok(
            #[trigger] b.stmts[j],
            q,
            more,
        ) by {
            lemma_stmt_more(b.stmts[j], p, loans, q, more);
        }
    }
}

proof fn lemma_stmt_more(s: StmtView, p: PlaceTableView, loans: nat, q: PlaceTableView, more: nat)
    requires
        stmt_ok(s, p, loans),
        p.places.len() <= q.places.len(),
        loans <= more,
    ensures
        stmt_ok(s, q, more),
{
    if let StmtView::Call(c) = s {
        assert forall|i: int| 0 <= i < c.mut_args.len() implies q.has((#[trigger] c.mut_args[i]).0) by {
            assert(p.has(c.mut_args[i].0));
        }
        assert forall|i: int| 0 <= i < c.read_args.len() implies q.has(
            (#[trigger] c.read_args[i]).0,
        ) by {
            assert(p.has(c.read_args[i].0));
        }
        assert forall|i: int| 0 <= i < c.take_args.len() implies q.has(
            (#[trigger] c.take_args[i]).0,
        ) by {
            assert(p.has(c.take_args[i].0));
        }
    }
}

// ------------------------------------------------------------- blocks --

impl<'t> LowView<'t> {
    pub open spec fn new_block(self) -> LowView<'t> {
        LowView {
            blocks: self.blocks.push(
                BlockView { stmts: Seq::empty(), succs: Seq::empty(), trap: false },
            ),
            ..self
        }
    }

    /// The id the next block gets.
    pub open spec fn next_block(self) -> BlockId {
        BlockId(self.blocks.len() as u32)
    }

    pub open spec fn goto(self, from: BlockId, to: BlockId) -> LowView<'t> {
        let b = self.blocks[from.0 as int];
        if b.succs.contains(to) {
            self
        } else {
            LowView {
                blocks: self.blocks.update(
                    from.0 as int,
                    BlockView { succs: b.succs.push(to), ..b },
                ),
                ..self
            }
        }
    }

    /// Append an effect to the current block.
    pub open spec fn push(self, s: StmtView) -> LowView<'t> {
        let b = self.blocks[self.cur.0 as int];
        LowView {
            blocks: self.blocks.update(
                self.cur.0 as int,
                BlockView { stmts: b.stmts.push(s), ..b },
            ),
            ..self
        }
    }

    /// The current block may trap.
    pub open spec fn trapping(self) -> LowView<'t> {
        let b = self.blocks[self.cur.0 as int];
        LowView {
            blocks: self.blocks.update(self.cur.0 as int, BlockView { trap: true, ..b }),
            ..self
        }
    }

    pub open spec fn at(self, b: BlockId) -> LowView<'t> {
        LowView { cur: b, ..self }
    }

    pub open spec fn report(self, d: DiagView) -> LowView<'t> {
        LowView { diags: self.diags.push(d), ..self }
    }

    pub open spec fn conflict(self) -> LowView<'t> {
        LowView { conflicted: true, ..self }
    }
}

fn succs_contain(v: &Vec<BlockId>, b: BlockId) -> (r: bool)
    ensures
        r == v@.contains(b),
{
    let mut i: usize = 0;
    while i < v.len()
        invariant
            i <= v.len(),
            forall|k: int| 0 <= k < i ==> v@[k] != b,
        decreases v.len() - i,
    {
        if v[i] == b {
            return true;
        }
        i = i + 1;
    }
    false
}

impl<'t> Lowerer<'t> {
    #[verifier::truncate]
    pub fn new_block(&mut self) -> (id: BlockId)
        requires
            old(self).inv(),
        ensures
            stepped(*old(self), *final(self)),
            final(self)@ == old(self)@.new_block(),
            id == old(self)@.next_block(),
            id.0 < final(self)@.blocks.len(),
    {
        let ghost st = self@;
        let n: usize = self.blocks.len();
        self.blocks.push(Block::empty());
        proof {
            assert(self@.blocks =~= st.new_block().blocks);
            assert(self@ =~= st.new_block());
            reveal(blocks_in);
            reveal(loops_in);
            assert forall|i: int| 0 <= i < self@.blocks.len() implies block_in(
                #[trigger] self@.blocks[i],
                self@.places,
                self@.loans.len(),
                self@.blocks.len(),
            ) by {
                if i < st.blocks.len() {
                    assert(block_in(st.blocks[i], st.places, st.loans.len(), st.blocks.len()));
                }
            }
        }
        BlockId(n as u32)
    }

    pub fn goto(&mut self, from: BlockId, to: BlockId)
        requires
            old(self).inv(),
            from.0 < old(self)@.blocks.len(),
            to.0 < old(self)@.blocks.len(),
        ensures
            stepped(*old(self), *final(self)),
            final(self)@ == old(self)@.goto(from, to),
            final(self)@.blocks.len() == old(self)@.blocks.len(),
    {
        let ghost st = self@;
        let i: usize = from.0 as usize;
        assert(st.blocks[i as int] == self.blocks@[i as int]@);
        if !succs_contain(&self.blocks[i].succs, to) {
            self.blocks[i].succs.push(to);
            proof {
                assert(self@.blocks =~= st.goto(from, to).blocks);
                assert(self@ =~= st.goto(from, to));
                reveal(blocks_in);
                assert forall|k: int| 0 <= k < self@.blocks.len() implies block_in(
                    #[trigger] self@.blocks[k],
                    self@.places,
                    self@.loans.len(),
                    self@.blocks.len(),
                ) by {
                    assert(block_in(st.blocks[k], st.places, st.loans.len(), st.blocks.len()));
                }
            }
        }
    }

    pub fn push(&mut self, s: Stmt)
        requires
            old(self).inv(),
            stmt_ok(s@, old(self)@.places, old(self)@.loans.len()),
        ensures
            stepped(*old(self), *final(self)),
            final(self)@ == old(self)@.push(s@),
    {
        let ghost st = self@;
        let ghost sv = s@;
        let i: usize = self.cur.0 as usize;
        assert(st.blocks[i as int] == self.blocks@[i as int]@);
        let ghost before = self.blocks@[i as int].stmts@;
        self.blocks[i].stmts.push(s);
        proof {
            assert(crate::cfg::stmt_views(self.blocks@[i as int].stmts@) =~= crate::cfg::stmt_views(
                before,
            ).push(sv));
            assert(self@.blocks =~= st.push(sv).blocks);
            assert(self@ =~= st.push(sv));
            reveal(blocks_in);
            assert forall|k: int| 0 <= k < self@.blocks.len() implies block_in(
                #[trigger] self@.blocks[k],
                self@.places,
                self@.loans.len(),
                self@.blocks.len(),
            ) by {
                assert(block_in(st.blocks[k], st.places, st.loans.len(), st.blocks.len()));
            }
        }
    }

    pub fn set_trap(&mut self)
        requires
            old(self).inv(),
        ensures
            stepped(*old(self), *final(self)),
            final(self)@ == old(self)@.trapping(),
    {
        let ghost st = self@;
        let i: usize = self.cur.0 as usize;
        assert(st.blocks[i as int] == self.blocks@[i as int]@);
        self.blocks[i].trap = true;
        proof {
            assert(self@.blocks =~= st.trapping().blocks);
            assert(self@ =~= st.trapping());
            reveal(blocks_in);
            assert forall|k: int| 0 <= k < self@.blocks.len() implies block_in(
                #[trigger] self@.blocks[k],
                self@.places,
                self@.loans.len(),
                self@.blocks.len(),
            ) by {
                assert(block_in(st.blocks[k], st.places, st.loans.len(), st.blocks.len()));
            }
        }
    }

    /// Continue in another block.
    pub fn at(&mut self, b: BlockId)
        requires
            old(self).inv(),
            b.0 < old(self)@.blocks.len(),
        ensures
            stepped(*old(self), *final(self)),
            final(self)@ == old(self)@.at(b),
    {
        let ghost st = self@;
        self.cur = b;
        assert(self@ =~= st.at(b));
    }

    pub fn report(&mut self, d: Diagnostic)
        requires
            old(self).inv(),
        ensures
            stepped(*old(self), *final(self)),
            final(self)@ == old(self)@.report(d@),
    {
        let ghost st = self@;
        proof {
            lemma_diag_views_push(self.diags@, d);
        }
        self.diags.push(d);
        assert(self@ =~= st.report(d@));
    }

    pub fn conflict(&mut self)
        requires
            old(self).inv(),
        ensures
            stepped(*old(self), *final(self)),
            final(self)@ == old(self)@.conflict(),
    {
        let ghost st = self@;
        self.conflicted = true;
        assert(self@ =~= st.conflict());
    }
}

// ------------------------------------------------- locals and scopes --

/// The last binding of the name among the first `n` of a scope.
pub open spec fn find_name(names: Seq<(Seq<char>, LocalId)>, name: Seq<char>, n: nat) -> Option<
    LocalId,
>
    decreases n,
{
    if n == 0 {
        None
    } else if names[n - 1].0 == name {
        Some(names[n - 1].1)
    } else {
        find_name(names, name, (n - 1) as nat)
    }
}

/// The innermost binding of the name among the first `n` scopes.
pub open spec fn find_scoped<'t>(scopes: Seq<ScopeView<'t>>, name: Seq<char>, n: nat) -> Option<
    LocalId,
>
    decreases n,
{
    if n == 0 {
        None
    } else {
        match find_name(scopes[n - 1].names, name, scopes[n - 1].names.len()) {
            Some(l) => Some(l),
            None => find_scoped(scopes, name, (n - 1) as nat),
        }
    }
}

impl<'t> LowView<'t> {
    pub open spec fn lookup(self, name: Seq<char>) -> Option<LocalId> {
        find_scoped(self.scopes, name, self.scopes.len())
    }

    pub open spec fn next_local(self) -> LocalId {
        LocalId(self.locals.len() as u32)
    }

    /// The innermost scope with one more name.
    pub open spec fn named(self, name: Seq<char>, id: LocalId) -> Seq<ScopeView<'t>> {
        if self.scopes.len() == 0 {
            self.scopes
        } else {
            let top = self.scopes.last();
            self.scopes.update(
                self.scopes.len() - 1,
                ScopeView { names: top.names.push((name, id)), ..top },
            )
        }
    }

    pub open spec fn declare(
        self,
        tabs: Tables<'_>,
        name: Seq<char>,
        span: Span,
        ty: Option<Ty>,
    ) -> LowView<'t> {
        LowView {
            locals: self.locals.push(
                LocalView {
                    name,
                    span,
                    ty: tabs.opt_text_of(ty),
                    is_copy: tabs.opt_copy_spec(ty),
                    param_mode: None,
                },
            ),
            tys: self.tys.push(ty),
            holds: self.holds.push(Seq::empty()),
            region_local: self.region_local.push(None),
            scopes: self.named(name, self.next_local()),
            ..self
        }
    }

    pub open spec fn push_scope(self) -> LowView<'t> {
        LowView {
            scopes: self.scopes.push(
                ScopeView {
                    names: Seq::empty(),
                    cleanup: Seq::empty(),
                    mark: self.locals.len() as usize,
                },
            ),
            ..self
        }
    }

    pub open spec fn pop_scope(self) -> LowView<'t> {
        LowView { scopes: self.scopes.drop_last(), ..self }
    }

    /// One more obligation of the innermost scope.
    pub open spec fn obliged(self, c: Cleanup<'t>) -> LowView<'t> {
        if self.scopes.len() == 0 {
            self
        } else {
            let top = self.scopes.last();
            LowView {
                scopes: self.scopes.update(
                    self.scopes.len() - 1,
                    ScopeView { cleanup: top.cleanup.push(c), ..top },
                ),
                ..self
            }
        }
    }

    pub open spec fn intern(self, p: PlaceView, is_copy: bool) -> LowView<'t> {
        LowView { places: self.places.intern(p, is_copy), ..self }
    }

    /// The whole place of a local.
    pub open spec fn intern_local(self, l: LocalId, is_copy: bool) -> LowView<'t> {
        self.intern(PlaceView::local(l.0), is_copy)
    }

    pub open spec fn shown(self, id: PlaceId) -> Seq<char> {
        crate::cfg::place_text(self.locals, self.places.at(id))
    }
}

proof fn lemma_places_more(p: PlaceTableView, a: nat, b: nat)
    requires
        places_ok(p, a),
        a <= b,
    ensures
        places_ok(p, b),
{
    assert forall|i: int| 0 <= i < p.places.len() implies base_ok((#[trigger] p.places[i]).base, b) by {
        assert(base_ok(p.places[i].base, a));
    }
}

proof fn lemma_find_name_in(names: Seq<(Seq<char>, LocalId)>, name: Seq<char>, n: nat, locals: nat)
    requires
        n <= names.len(),
        forall|j: int| 0 <= j < names.len() ==> (#[trigger] names[j]).1.0 < locals,
    ensures
        find_name(names, name, n) matches Some(l) ==> l.0 < locals,
    decreases n,
{
    if n > 0 {
        lemma_find_name_in(names, name, (n - 1) as nat, locals);
    }
}

proof fn lemma_lookup_in<'t>(scopes: Seq<ScopeView<'t>>, name: Seq<char>, n: nat, locals: nat)
    requires
        n <= scopes.len(),
        scopes_in(scopes, locals),
    ensures
        find_scoped(scopes, name, n) matches Some(l) ==> l.0 < locals,
    decreases n,
{
    reveal(scopes_in);
    if n > 0 {
        assert(scope_in(scopes[n - 1], locals));
        lemma_find_name_in(
            scopes[n - 1].names,
            name,
            scopes[n - 1].names.len(),
            locals,
        );
        lemma_lookup_in(scopes, name, (n - 1) as nat, locals);
    }
}

impl<'t> Lowerer<'t> {
    #[verifier::truncate]
    pub fn declare(&mut self, name: &str, span: Span, ty: Option<Ty>) -> (id: LocalId)
        requires
            old(self).inv(),
        ensures
            stepped(*old(self), *final(self)),
            final(self)@ == old(self)@.declare(old(self).cx.tabs, name@, span, ty),
            id == old(self)@.next_local(),
            id.0 < final(self)@.locals.len(),
            final(self)@.blocks == old(self)@.blocks,
    {
        let ghost st = self@;
        let n: usize = self.locals.len();
        let id = LocalId(n as u32);
        let ty_text = self.cx.tabs.opt_render(ty);
        let is_copy = self.cx.tabs.opt_copy(ty);
        self.locals.push(
            Local { name: lit(name), span, ty: ty_text, is_copy, param_mode: None },
        );
        self.tys.push(ty);
        self.holds.push(Vec::new());
        self.region_local.push(None);
        let ghost want = st.declare(self.cx.tabs, name@, span, ty);
        assert(self@.locals =~= want.locals);
        assert(self@.holds =~= want.holds);
        assert(self@.region_local =~= want.region_local);
        if self.scopes.len() > 0 {
            let top: usize = self.scopes.len() - 1;
            assert(st.scopes[top as int] == self.scopes@[top as int]@);
            let ghost before = self.scopes@[top as int].names@;
            self.scopes[top].names.push((lit(name), id));
            assert(name_views(self.scopes@[top as int].names@) =~= name_views(before).push(
                (name@, id),
            ));
        }
        proof {
            assert(self@.scopes =~= want.scopes);
            assert(self@ =~= want);
            lemma_places_more(st.places, st.locals.len(), self@.locals.len());
            reveal(scopes_in);
            reveal(holds_in);
            reveal(region_locals_in);
            assert forall|i: int| 0 <= i < self@.scopes.len() implies scope_in(
                #[trigger] self@.scopes[i],
                self@.locals.len(),
            ) by {
                assert(scope_in(st.scopes[i], st.locals.len()));
            }
            assert forall|i: int| 0 <= i < self@.holds.len() implies hold_in(
                #[trigger] self@.holds[i],
                self@.sites.len(),
            ) by {
                if i < st.holds.len() {
                    assert(hold_in(st.holds[i], st.sites.len()));
                }
            }
            assert forall|i: int| 0 <= i < self@.region_local.len() && (
            #[trigger] self@.region_local[i]) matches Some(Some(r)) implies (
            self@.region_local[i]->0->0).0 < self@.rt.regions.len() by {
                assert(st.region_local[i] == self@.region_local[i]);
            }
        }
        id
    }

    pub fn lookup(&self, name: &str) -> (r: Option<LocalId>)
        requires
            self@.locals_ok(),
        ensures
            r == self@.lookup(name@),
            r matches Some(l) ==> l.0 < self@.locals.len(),
    {
        proof {
            lemma_lookup_in(self@.scopes, name@, self@.scopes.len(), self@.locals.len());
        }
        let mut i: usize = self.scopes.len();
        while i > 0
            invariant
                i <= self.scopes.len(),
                self@.lookup(name@) matches Some(l) ==> l.0 < self@.locals.len(),
                self@.lookup(name@) == find_scoped(self@.scopes, name@, i as nat),
            decreases i,
        {
            let names = &self.scopes[i - 1].names;
            let ghost sv = self@.scopes[i - 1];
            assert(sv == self.scopes@[i - 1]@);
            let mut j: usize = names.len();
            while j > 0
                invariant
                    j <= names.len(),
                    0 < i <= self.scopes.len(),
                    self@.lookup(name@) matches Some(l) ==> l.0 < self@.locals.len(),
                    sv == self@.scopes[i - 1],
                    sv.names == name_views(names@),
                    self@.lookup(name@) == find_scoped(self@.scopes, name@, i as nat),
                    find_name(sv.names, name@, sv.names.len()) == find_name(
                        sv.names,
                        name@,
                        j as nat,
                    ),
                decreases j,
            {
                assert(sv.names[j - 1] == (names@[j - 1].0@, names@[j - 1].1));
                if str_eq(names[j - 1].0.as_str(), name) {
                    return Some(names[j - 1].1);
                }
                j = j - 1;
            }
            i = i - 1;
        }
        None
    }

    pub fn push_scope(&mut self)
        requires
            old(self).inv(),
        ensures
            stepped(*old(self), *final(self)),
            final(self)@ == old(self)@.push_scope(),
            final(self)@.scopes.len() == old(self)@.scopes.len() + 1,
    {
        let ghost st = self@;
        let mark: usize = self.locals.len();
        self.scopes.push(Scope { names: Vec::new(), cleanup: Vec::new(), mark });
        proof {
            let top = self@.scopes[st.scopes.len() as int];
            assert(top.names =~= Seq::empty());
            assert(top.cleanup =~= Seq::empty());
            assert(self@.scopes =~= st.push_scope().scopes);
            assert(self@ =~= st.push_scope());
            reveal(scopes_in);
            assert forall|i: int| 0 <= i < self@.scopes.len() implies scope_in(
                #[trigger] self@.scopes[i],
                self@.locals.len(),
            ) by {
                if i < st.scopes.len() {
                    assert(scope_in(st.scopes[i], st.locals.len()));
                }
            }
        }
    }

    pub fn pop_scope(&mut self)
        requires
            old(self).inv(),
            old(self)@.scopes.len() > 0,
        ensures
            final(self).inv(),
            final(self).cx == old(self).cx,
            final(self)@ == old(self)@.pop_scope(),
    {
        let ghost st = self@;
        let _ = self.scopes.pop();
        proof {
            assert(self@.scopes =~= st.pop_scope().scopes);
            assert(self@ =~= st.pop_scope());
            reveal(scopes_in);
            assert forall|i: int| 0 <= i < self@.scopes.len() implies scope_in(
                #[trigger] self@.scopes[i],
                self@.locals.len(),
            ) by {
                assert(scope_in(st.scopes[i], st.locals.len()));
            }
        }
    }

    pub fn oblige(&mut self, c: Cleanup<'t>)
        requires
            old(self).inv(),
            c matches Cleanup::DropLocal(l) ==> l.0 < old(self)@.locals.len(),
        ensures
            stepped(*old(self), *final(self)),
            final(self)@ == old(self)@.obliged(c),
    {
        let ghost st = self@;
        if self.scopes.len() > 0 {
            let top: usize = self.scopes.len() - 1;
            assert(st.scopes[top as int] == self.scopes@[top as int]@);
            self.scopes[top].cleanup.push(c);
        }
        proof {
            assert(self@.scopes =~= st.obliged(c).scopes);
            assert(self@ =~= st.obliged(c));
            reveal(scopes_in);
            assert forall|i: int| 0 <= i < self@.scopes.len() implies scope_in(
                #[trigger] self@.scopes[i],
                self@.locals.len(),
            ) by {
                assert(scope_in(st.scopes[i], st.locals.len()));
            }
        }
    }

    pub fn intern(&mut self, p: Place, is_copy: bool) -> (id: PlaceId)
        requires
            old(self).inv(),
            base_ok(p@.base, old(self)@.locals.len()),
        ensures
            stepped(*old(self), *final(self)),
            final(self)@ == old(self)@.intern(p@, is_copy),
            id == final(self)@.places.id_of(p@),
            final(self)@.places.has(id),
    {
        let ghost st = self@;
        let ghost pv = p@;
        let id = self.places.intern(p, is_copy);
        proof {
            assert(self@ =~= st.intern(pv, is_copy));
            lemma_intern_wf(st.places, pv, is_copy);
            lemma_blocks_more(
                st.blocks,
                st.places,
                st.loans.len(),
                self@.places,
                st.loans.len(),
            );
            reveal(loans_in);
            reveal(claims_in);
            assert forall|i: int| 0 <= i < self@.places.places.len() implies base_ok(
                (#[trigger] self@.places.places[i]).base,
                self@.locals.len(),
            ) by {
                if i < st.places.places.len() {
                    assert(base_ok(st.places.places[i].base, st.locals.len()));
                }
            }
        }
        id
    }

    pub fn intern_local(&mut self, l: LocalId, is_copy: bool) -> (id: PlaceId)
        requires
            old(self).inv(),
            l.0 < old(self)@.locals.len(),
        ensures
            stepped(*old(self), *final(self)),
            final(self)@ == old(self)@.intern_local(l, is_copy),
            id == final(self)@.places.id_of(PlaceView::local(l.0)),
            final(self)@.places.has(id),
    {
        self.intern(Place::of_local(l.0), is_copy)
    }

    /// Render a place by its current name.
    pub fn show_place_now(&self, id: PlaceId) -> (r: String)
        requires
            self@.graph_ok(),
            self@.places.has(id),
        ensures
            r@ == self@.shown(id),
    {
        assert(base_ok(self@.places.places[id.0 as int].base, self@.locals.len()));
        render_place(&self.locals, self.places.get(id))
    }
}

// ------------------------------------------------------------- regions --

impl<'t> LowView<'t> {
    pub open spec fn next_region(self) -> RegionId {
        RegionId(self.rt.regions.len() as u32)
    }

    pub open spec fn new_region(
        self,
        name: Seq<char>,
        kind: RegionKind,
        strategy: StrategyView,
        span: Span,
    ) -> LowView<'t> {
        LowView {
            rt: self.rt.new_region(RegionView { name, kind, strategy, span }),
            moved: self.moved.push(false),
            tainted: self.tainted.push(false),
            lent: self.lent.push(false),
            parent: self.parent.push(None),
            frozen_region: self.frozen_region.push(None),
            ..self
        }
    }

    pub open spec fn ambient_region(self) -> RegionId {
        self.ambient.last()
    }

    pub open spec fn set_moved(self, r: RegionId) -> LowView<'t> {
        LowView { moved: self.moved.update(r.0 as int, true), ..self }
    }

    pub open spec fn set_tainted(self, r: RegionId) -> LowView<'t> {
        LowView { tainted: self.tainted.update(r.0 as int, true), ..self }
    }

    pub open spec fn set_lent(self, r: RegionId) -> LowView<'t> {
        LowView { lent: self.lent.update(r.0 as int, true), ..self }
    }

    pub open spec fn set_parent(self, r: RegionId, p: RegionId) -> LowView<'t> {
        LowView { parent: self.parent.update(r.0 as int, Some(p)), ..self }
    }

    pub open spec fn unify(self, a: RegionId, b: RegionId) -> LowView<'t> {
        LowView { rt: self.rt.unify(a, b), ..self }
    }

    pub open spec fn set_region_local(self, l: u32, r: Option<RegionId>) -> LowView<'t> {
        LowView { region_local: self.region_local.update(l as int, Some(r)), ..self }
    }

    /// The region a whole local denotes, when it is known.
    pub open spec fn local_region(self, l: u32) -> Option<RegionId> {
        match self.region_local[l as int] {
            Some(r) => r,
            None => None,
        }
    }

    /// The local behind a whole-local place.
    pub open spec fn whole_local(self, place: PlaceId) -> Option<u32> {
        let p = self.places.at(place);
        match p.base {
            BaseView::Local(l) => if p.proj.len() == 0 {
                Some(l)
            } else {
                None
            },
            BaseView::Global(..) => None,
        }
    }

    /// The region value a whole-local place holds.
    pub open spec fn place_region(self, place: PlaceId) -> Option<RegionId> {
        match self.whole_local(place) {
            Some(l) => self.local_region(l),
            None => None,
        }
    }

    /// A region binding's handle crosses a call boundary.
    pub open spec fn mark_region_lent(self, place: PlaceId) -> LowView<'t> {
        match self.place_region(place) {
            Some(r) => self.set_lent(r),
            None => self,
        }
    }

    pub open spec fn push_ambient(self, r: RegionId) -> LowView<'t> {
        LowView { ambient: self.ambient.push(r), ..self }
    }

    pub open spec fn pop_ambient(self) -> LowView<'t> {
        LowView { ambient: self.ambient.drop_last(), ..self }
    }

    pub open spec fn push_open(self, r: RegionId, at: Span) -> LowView<'t> {
        LowView { open: self.open.push((r, at)), ..self }
    }

    pub open spec fn pop_open(self) -> LowView<'t> {
        LowView { open: self.open.drop_last(), ..self }
    }

    /// The static region, created on first demand.
    pub open spec fn with_static(self, span: Span) -> LowView<'t> {
        match self.static_region {
            Some(_) => self,
            None => LowView {
                static_region: Some(self.next_region()),
                ..self.new_region("static"@, RegionKind::Static, StrategyView::Arena, span)
            },
        }
    }
}

impl<'t> Lowerer<'t> {
    pub fn new_region(&mut self, name: &str, kind: RegionKind, strategy: Strategy, span: Span) -> (id:
        RegionId)
        requires
            old(self).inv(),
        ensures
            stepped(*old(self), *final(self)),
            final(self)@ == old(self)@.new_region(name@, kind, strategy@, span),
            id == old(self)@.next_region(),
            id.0 < final(self)@.rt.regions.len(),
            final(self)@.blocks == old(self)@.blocks,
    {
        let ghost st = self@;
        let ghost sv = strategy@;
        let region = Region { name: lit(name), kind, strategy, span };
        assert(region@ =~= RegionView { name: name@, kind, strategy: sv, span });
        let id = self.rt.new_region(region);
        self.moved.push(false);
        self.tainted.push(false);
        self.lent.push(false);
        self.parent.push(None);
        self.frozen_region.push(None);
        proof {
            self.rt.lemma_inv();
            assert(self@ =~= st.new_region(name@, kind, sv, span));
            lemma_more_regions(st, self@);
            reveal(parents_in);
        }
        id
    }

    /// The current ambient region (`[mem.region.create.3]`).
    pub fn ambient_region(&self) -> (r: RegionId)
        requires
            self@.regions_ok(),
        ensures
            r == self@.ambient_region(),
            r.0 < self@.rt.regions.len(),
    {
        let n: usize = self.ambient.len();
        proof {
            reveal(regions_in);
            assert(self.ambient@[n - 1].0 < self@.rt.regions.len());
        }
        self.ambient[n - 1]
    }

    pub fn set_moved(&mut self, r: RegionId)
        requires
            old(self).inv(),
            r.0 < old(self)@.rt.regions.len(),
        ensures
            stepped(*old(self), *final(self)),
            final(self)@ == old(self)@.set_moved(r),
    {
        let ghost st = self@;
        self.moved.set(r.0 as usize, true);
        assert(self@ =~= st.set_moved(r));
    }

    pub fn set_tainted(&mut self, r: RegionId)
        requires
            old(self).inv(),
            r.0 < old(self)@.rt.regions.len(),
        ensures
            stepped(*old(self), *final(self)),
            final(self)@ == old(self)@.set_tainted(r),
    {
        let ghost st = self@;
        self.tainted.set(r.0 as usize, true);
        assert(self@ =~= st.set_tainted(r));
    }

    pub fn set_parent(&mut self, r: RegionId, p: RegionId)
        requires
            old(self).inv(),
            r.0 < old(self)@.rt.regions.len(),
            p.0 < old(self)@.rt.regions.len(),
        ensures
            stepped(*old(self), *final(self)),
            final(self)@ == old(self)@.set_parent(r, p),
    {
        let ghost st = self@;
        self.parent.set(r.0 as usize, Some(p));
        proof {
            assert(self@ =~= st.set_parent(r, p));
            reveal(parents_in);
        }
    }

    pub fn unify(&mut self, a: RegionId, b: RegionId) -> (r: Unify)
        requires
            old(self).inv(),
            a.0 < old(self)@.rt.regions.len(),
            b.0 < old(self)@.rt.regions.len(),
        ensures
            stepped(*old(self), *final(self)),
            final(self)@ == old(self)@.unify(a, b),
            r == old(self)@.rt.outcome(a, b),
            r matches Unify::Conflict(Binding::Local(l), _) ==> l.0 < final(self)@.rt.regions.len(),
            r matches Unify::Conflict(_, Binding::Local(l)) ==> l.0 < final(self)@.rt.regions.len(),
    {
        let ghost st = self@;
        let r = self.rt.unify(a, b);
        proof {
            self.rt.lemma_inv();
            assert(self@ =~= st.unify(a, b));
        }
        r
    }

    /// Are the two regions one?
    pub fn same_region(&mut self, a: RegionId, b: RegionId) -> (r: bool)
        requires
            old(self).inv(),
            a.0 < old(self)@.rt.regions.len(),
            b.0 < old(self)@.rt.regions.len(),
        ensures
            stepped(*old(self), *final(self)),
            final(self)@ == old(self)@,
            r == old(self)@.rt.same(a, b),
    {
        let ghost st = self@;
        let r = self.rt.same(a, b);
        assert(self@ =~= st);
        r
    }

    /// What a region's class is bound to.
    pub fn binding_of(&mut self, r: RegionId) -> (b: Option<Binding>)
        requires
            old(self).inv(),
            r.0 < old(self)@.rt.regions.len(),
        ensures
            stepped(*old(self), *final(self)),
            final(self)@ == old(self)@,
            b == old(self)@.rt.binding(r),
            b matches Some(Binding::Local(l)) ==> l.0 < old(self)@.rt.regions.len(),
    {
        let ghost st = self@;
        let b = self.rt.binding(r);
        assert(self@ =~= st);
        b
    }

    pub fn set_region_local(&mut self, l: u32, r: Option<RegionId>)
        requires
            old(self).inv(),
            l < old(self)@.locals.len(),
            r matches Some(x) ==> x.0 < old(self)@.rt.regions.len(),
        ensures
            stepped(*old(self), *final(self)),
            final(self)@ == old(self)@.set_region_local(l, r),
    {
        let ghost st = self@;
        self.region_local.set(l as usize, Some(r));
        proof {
            assert(self@ =~= st.set_region_local(l, r));
            reveal(region_locals_in);
        }
    }

    pub fn local_region(&self, l: u32) -> (r: Option<RegionId>)
        requires
            self@.locals_ok(),
            l < self@.locals.len(),
        ensures
            r == self@.local_region(l),
            r matches Some(x) ==> x.0 < self@.rt.regions.len(),
    {
        proof {
            reveal(region_locals_in);
            assert(self@.region_local[l as int] matches Some(Some(r)) ==> r.0
                < self@.rt.regions.len());
        }
        match self.region_local[l as usize] {
            Some(r) => r,
            None => None,
        }
    }

    /// The local behind a whole-local place.
    pub fn whole_local(&self, place: PlaceId) -> (r: Option<u32>)
        requires
            self@.graph_ok(),
            self@.places.has(place),
        ensures
            r == self@.whole_local(place),
            r matches Some(l) ==> l < self@.locals.len(),
    {
        assert(base_ok(self@.places.places[place.0 as int].base, self@.locals.len()));
        let p = self.places.get(place);
        match &p.base {
            Base::Local(l) => if p.proj.len() == 0 {
                Some(*l)
            } else {
                None
            },
            Base::Global(..) => None,
        }
    }

    pub fn place_region(&self, place: PlaceId) -> (r: Option<RegionId>)
        requires
            self@.graph_ok(),
            self@.locals_ok(),
            self@.places.has(place),
        ensures
            r == self@.place_region(place),
            r matches Some(x) ==> x.0 < self@.rt.regions.len(),
    {
        match self.whole_local(place) {
            Some(l) => self.local_region(l),
            None => None,
        }
    }

    pub fn mark_region_lent(&mut self, place: PlaceId)
        requires
            old(self).inv(),
            old(self)@.places.has(place),
        ensures
            stepped(*old(self), *final(self)),
            final(self)@ == old(self)@.mark_region_lent(place),
    {
        let ghost st = self@;
        match self.place_region(place) {
            Some(r) => {
                self.lent.set(r.0 as usize, true);
                assert(self@ =~= st.set_lent(r));
            },
            None => {},
        }
    }

    pub fn push_ambient(&mut self, r: RegionId)
        requires
            old(self).inv(),
            r.0 < old(self)@.rt.regions.len(),
        ensures
            stepped(*old(self), *final(self)),
            final(self)@ == old(self)@.push_ambient(r),
            final(self)@.ambient.len() == old(self)@.ambient.len() + 1,
    {
        let ghost st = self@;
        self.ambient.push(r);
        proof {
            assert(self@ =~= st.push_ambient(r));
            reveal(regions_in);
        }
    }

    pub fn pop_ambient(&mut self)
        requires
            old(self).inv(),
            old(self)@.ambient.len() > 1,
        ensures
            final(self).inv(),
            final(self).cx == old(self).cx,
            final(self)@ == old(self)@.pop_ambient(),
    {
        let ghost st = self@;
        let _ = self.ambient.pop();
        proof {
            assert(self@.ambient =~= st.pop_ambient().ambient);
            assert(self@ =~= st.pop_ambient());
            reveal(regions_in);
            assert forall|i: int| 0 <= i < self@.ambient.len() implies (
            #[trigger] self@.ambient[i]).0 < self@.rt.regions.len() by {
                assert(st.ambient[i].0 < st.rt.regions.len());
            }
        }
    }

    pub fn push_open(&mut self, r: RegionId, at: Span)
        requires
            old(self).inv(),
            r.0 < old(self)@.rt.regions.len(),
        ensures
            stepped(*old(self), *final(self)),
            final(self)@ == old(self)@.push_open(r, at),
            final(self)@.open.len() == old(self)@.open.len() + 1,
    {
        let ghost st = self@;
        self.open.push((r, at));
        proof {
            assert(self@ =~= st.push_open(r, at));
            reveal(opens_in);
        }
    }

    pub fn pop_open(&mut self)
        requires
            old(self).inv(),
            old(self)@.open.len() > 0,
        ensures
            final(self).inv(),
            final(self).cx == old(self).cx,
            final(self)@ == old(self)@.pop_open(),
    {
        let ghost st = self@;
        let _ = self.open.pop();
        proof {
            assert(self@.open =~= st.pop_open().open);
            assert(self@ =~= st.pop_open());
            reveal(opens_in);
            assert forall|i: int| 0 <= i < self@.open.len() implies (#[trigger] self@.open[i]).0.0
                < self@.rt.regions.len() by {
                assert(st.open[i].0.0 < st.rt.regions.len());
            }
        }
    }

    /// The static region, created on first demand.
    pub fn static_region_at(&mut self, span: Span) -> (r: RegionId)
        requires
            old(self).inv(),
        ensures
            stepped(*old(self), *final(self)),
            final(self)@ == old(self)@.with_static(span),
            final(self)@.static_region == Some(r),
            r.0 < final(self)@.rt.regions.len(),
    {
        if let Some(id) = self.static_region {
            return id;
        }
        let ghost st = self@;
        let id = self.new_region("static", RegionKind::Static, Strategy::Arena, span);
        self.static_region = Some(id);
        assert(self@ =~= st.with_static(span));
        id
    }
}

/// More regions never invalidate a record.
pub proof fn lemma_more_regions(a: LowView<'_>, b: LowView<'_>)
    requires
        a.wf(),
        a.rt.regions.len() <= b.rt.regions.len(),
    ensures
        region_locals_in(a.region_local, b.rt.regions.len()),
        regions_in(a.ambient, b.rt.regions.len()),
        regions_in(a.promoted, b.rt.regions.len()),
        opens_in(a.open, b.rt.regions.len()),
        parents_in(a.parent, b.rt.regions.len()),
        field_regions_in(a.region_field, b.rt.regions.len()),
        sites_in(a.sites, b.rt.regions.len()),
{
    reveal(region_locals_in);
    reveal(regions_in);
    reveal(opens_in);
    reveal(parents_in);
    reveal(field_regions_in);
    reveal(sites_in);
}

} // verus!
