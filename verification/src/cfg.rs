//! The check CFG: basic blocks of *effect statements* over places, with
//! explicit edges for `if`/`match`/loops, explicit error-union edges
//! (`?` is a branch), and trap edges for checked arithmetic.
//!
//! Statements record what an expression *does to places*, in
//! left-to-right evaluation order. Temporaries never appear: a value
//! with no place needs no tracking. Blocks, statements, locals, places
//! and loans are created in walk order. Nothing is analyzed past a trap.

use vstd::prelude::*;
use vstd::string::*;

use crate::diag::{texts, Span};
use crate::place::{Base, BaseView, PlaceId, PlaceTable, PlaceTableView, PlaceView, Proj, ProjView};
use crate::text::{dec, decimal, join, joined, lit};

verus! {

/// A declared argument mode other than plain `read`.
#[derive(Debug, Clone, Copy, PartialEq, Eq, Structural)]
pub enum ParamMode {
    Mut,
    Take,
}

/// A function-local binding (parameters first, then bindings in walk
/// order).
#[derive(Debug, Clone, Copy, PartialEq, Eq, PartialOrd, Ord, Hash, Structural)]
pub struct LocalId(pub u32);

#[derive(Debug, Clone)]
pub struct Local {
    pub name: String,
    /// The binding-site span.
    pub span: Span,
    /// Rendered type (dump surface only).
    pub ty: String,
    pub is_copy: bool,
    /// `Some` for parameters, with the declared mode (`None` inside the
    /// option is `read`).
    pub param_mode: Option<Option<ParamMode>>,
}

#[derive(Debug, Clone, Copy, PartialEq, Eq, PartialOrd, Ord, Hash, Structural)]
pub struct BlockId(pub u32);

#[derive(Debug, Clone, Copy, PartialEq, Eq, PartialOrd, Ord, Hash, Structural)]
pub struct LoanId(pub u32);

#[derive(Debug, Clone, Copy, PartialEq, Eq, PartialOrd, Ord, Hash, Structural)]
pub struct RegionId(pub u32);

#[derive(Debug, Clone, Copy, PartialEq, Eq, PartialOrd, Ord, Hash, Structural)]
pub struct SiteId(pub u32);

#[derive(Debug, Clone, Copy, PartialEq, Eq, Structural)]
pub enum LoanKind {
    Shared,
    Unique,
}

/// A first-class local borrow.
#[derive(Debug, Clone, Copy, PartialEq, Eq, Structural)]
pub struct Loan {
    pub place: PlaceId,
    pub kind: LoanKind,
    /// The local the borrow is bound to; its last use (backward
    /// liveness) ends the loan.
    pub borrower: LocalId,
    pub origin: Span,
    /// Two-phase (`v.push(v.len())` shape): reserved, conflicting with
    /// writes only, until its `Activate` statement runs.
    pub two_phase: bool,
}

/// What introduced a region.
#[derive(Debug, Clone, Copy, PartialEq, Eq, Structural)]
pub enum RegionKind {
    /// The implicit caller-region parameter.
    Caller,
    /// Module state.
    Static,
    /// A heap-reaching parameter position.
    Param,
    /// `region name { .. }`.
    Scope,
    /// A first-class region value.
    Value,
}

/// A region's allocation strategy: it changes cost, never safety.
#[derive(Debug, Clone)]
pub enum Strategy {
    Arena,
    Rc,
    Pool(String),
}

#[derive(Debug, Clone)]
pub struct Region {
    pub name: String,
    pub kind: RegionKind,
    pub strategy: Strategy,
    pub span: Span,
}

/// What kind of expression an allocation site is.
#[derive(Debug, Clone, Copy, PartialEq, Eq, Structural)]
pub enum SiteKind {
    Lit,
    CallResult,
    Param,
}

#[derive(Debug, Clone)]
pub struct AllocSite {
    pub span: Span,
    pub ty: String,
    pub region: RegionId,
    pub kind: SiteKind,
}

/// One call's argument surface: the places lent or taken for the call's
/// extent, checked pairwise for exclusivity (`[mem.tier0.excl]`).
#[derive(Debug, Clone)]
pub struct CallSurface {
    pub callee: String,
    pub span: Span,
    /// `mut` arguments/receiver: exclusive for the whole call. A view
    /// set (`mut self.{x, y}`) is one entry per viewed field.
    pub mut_args: Vec<(PlaceId, Span)>,
    /// Non-`Copy` `read`-mode place arguments: immutably lent for the
    /// whole call.
    pub read_args: Vec<(PlaceId, Span)>,
    /// `take` arguments: already moved by their evaluation-order `Move`
    /// statements; listed here for pairwise conflicts.
    pub take_args: Vec<(PlaceId, Span)>,
    /// The call goes through the C namespace.
    pub c_call: bool,
}

/// One effect statement.
#[derive(Debug, Clone)]
#[allow(inconsistent_fields)]
pub enum Stmt {
    /// Non-consuming use.
    Read { place: PlaceId, span: Span },
    /// Consuming use: the place becomes uninitialized.
    Move { place: PlaceId, span: Span },
    /// Whole-place (re)initialization: revives.
    Init { place: PlaceId, span: Span },
    /// Read-and-write in place (compound assignment).
    Mutate { place: PlaceId, span: Span },
    /// A local declared without an initializer.
    Uninit { place: PlaceId, span: Span },
    /// A call's argument surface (pairwise exclusivity).
    Call(CallSurface),
    /// Loan gen (first-class borrow).
    Borrow { loan: LoanId, span: Span },
    /// A use through a loan's borrower.
    UseBorrower { local: LocalId, span: Span },
    /// Two-phase activation: the loan's first write-capable use.
    Activate { loan: LoanId, span: Span },
    /// A checked arithmetic site: the block carries a trap edge.
    CheckedOp { span: Span },
    /// An allocation attributed to its region.
    Alloc { site: SiteId, span: Span },
    /// A region window opens.
    RegionOpen { region: RegionId, span: Span },
    /// A region window closes.
    RegionClose { region: RegionId, span: Span },
    /// A reference count goes up (explicit `clone()`).
    Dup { place: PlaceId, span: Span },
    /// A reference count goes down (scope exit).
    Drop { place: PlaceId, span: Span },
    /// A generational check at a pool slot access.
    HandleCheck { place: PlaceId, span: Span },
    /// An `unsafe` block begins.
    UnsafeEnter { span: Span },
    /// An `unsafe` block ends.
    UnsafeExit { span: Span },
    /// `assume noalias`.
    Assume { ops: String, span: Span },
    /// A read through a raw pointer.
    RawRead { ptr: String, span: Span },
    /// A write through a raw pointer.
    RawWrite { ptr: String, span: Span },
    /// A provenance bridge.
    Expose { what: String, dir: &'static str, span: Span },
    /// A re-entry door (`borrow r from p`).
    Door { region: String, ptr: String, span: Span },
    /// A strict-provenance operation.
    ProvOp { op: String, ptr: String, span: Span },
}

#[derive(Debug)]
pub struct Block {
    pub stmts: Vec<Stmt>,
    pub succs: Vec<BlockId>,
    /// At least one statement can trap; executions may end here.
    pub trap: bool,
}

/// The per-function check CFG.
#[derive(Debug)]
pub struct Cfg {
    pub name: String,
    pub blocks: Vec<Block>,
    pub locals: Vec<Local>,
    pub places: PlaceTable,
    pub loans: Vec<Loan>,
    pub regions: Vec<Region>,
    pub sites: Vec<AllocSite>,
    pub entry: BlockId,
    /// The single normal/error exit (nothing is analyzed past it).
    pub exit: BlockId,
    /// Move sites that are binding patterns (`copy` is no pattern
    /// grammar, so no `copy` is suggested there).
    pub pattern_moves: Vec<Span>,
}

// ------------------------------------------------------------ views --

#[verifier::ext_equal]
pub struct LocalView {
    pub name: Seq<char>,
    pub span: Span,
    pub ty: Seq<char>,
    pub is_copy: bool,
    pub param_mode: Option<Option<ParamMode>>,
}

pub enum StrategyView {
    Arena,
    Rc,
    Pool(Seq<char>),
}

#[verifier::ext_equal]
pub struct RegionView {
    pub name: Seq<char>,
    pub kind: RegionKind,
    pub strategy: StrategyView,
    pub span: Span,
}

#[verifier::ext_equal]
pub struct SiteView {
    pub span: Span,
    pub ty: Seq<char>,
    pub region: RegionId,
    pub kind: SiteKind,
}

#[verifier::ext_equal]
pub struct CallView {
    pub callee: Seq<char>,
    pub span: Span,
    pub mut_args: Seq<(PlaceId, Span)>,
    pub read_args: Seq<(PlaceId, Span)>,
    pub take_args: Seq<(PlaceId, Span)>,
    pub c_call: bool,
}

#[allow(inconsistent_fields)]
pub enum StmtView {
    Read { place: PlaceId, span: Span },
    Move { place: PlaceId, span: Span },
    Init { place: PlaceId, span: Span },
    Mutate { place: PlaceId, span: Span },
    Uninit { place: PlaceId, span: Span },
    Call(CallView),
    Borrow { loan: LoanId, span: Span },
    UseBorrower { local: LocalId, span: Span },
    Activate { loan: LoanId, span: Span },
    CheckedOp { span: Span },
    Alloc { site: SiteId, span: Span },
    RegionOpen { region: RegionId, span: Span },
    RegionClose { region: RegionId, span: Span },
    Dup { place: PlaceId, span: Span },
    Drop { place: PlaceId, span: Span },
    HandleCheck { place: PlaceId, span: Span },
    UnsafeEnter { span: Span },
    UnsafeExit { span: Span },
    Assume { ops: Seq<char>, span: Span },
    RawRead { ptr: Seq<char>, span: Span },
    RawWrite { ptr: Seq<char>, span: Span },
    Expose { what: Seq<char>, dir: Seq<char>, span: Span },
    Door { region: Seq<char>, ptr: Seq<char>, span: Span },
    ProvOp { op: Seq<char>, ptr: Seq<char>, span: Span },
}

#[verifier::ext_equal]
pub struct BlockView {
    pub stmts: Seq<StmtView>,
    pub succs: Seq<BlockId>,
    pub trap: bool,
}

#[verifier::ext_equal]
pub struct CfgView {
    pub name: Seq<char>,
    pub blocks: Seq<BlockView>,
    pub locals: Seq<LocalView>,
    pub places: PlaceTableView,
    pub loans: Seq<Loan>,
    pub regions: Seq<RegionView>,
    pub sites: Seq<SiteView>,
    pub entry: BlockId,
    pub exit: BlockId,
    pub pattern_moves: Seq<Span>,
}

impl View for Local {
    type V = LocalView;

    open spec fn view(&self) -> LocalView {
        LocalView {
            name: self.name@,
            span: self.span,
            ty: self.ty@,
            is_copy: self.is_copy,
            param_mode: self.param_mode,
        }
    }
}

impl View for Strategy {
    type V = StrategyView;

    open spec fn view(&self) -> StrategyView {
        match *self {
            Strategy::Arena => StrategyView::Arena,
            Strategy::Rc => StrategyView::Rc,
            Strategy::Pool(t) => StrategyView::Pool(t@),
        }
    }
}

impl View for Region {
    type V = RegionView;

    open spec fn view(&self) -> RegionView {
        RegionView {
            name: self.name@,
            kind: self.kind,
            strategy: self.strategy@,
            span: self.span,
        }
    }
}

impl View for AllocSite {
    type V = SiteView;

    open spec fn view(&self) -> SiteView {
        SiteView { span: self.span, ty: self.ty@, region: self.region, kind: self.kind }
    }
}

impl View for CallSurface {
    type V = CallView;

    open spec fn view(&self) -> CallView {
        CallView {
            callee: self.callee@,
            span: self.span,
            mut_args: self.mut_args@,
            read_args: self.read_args@,
            take_args: self.take_args@,
            c_call: self.c_call,
        }
    }
}

impl View for Stmt {
    type V = StmtView;

    open spec fn view(&self) -> StmtView {
        match *self {
            Stmt::Read { place, span } => StmtView::Read { place, span },
            Stmt::Move { place, span } => StmtView::Move { place, span },
            Stmt::Init { place, span } => StmtView::Init { place, span },
            Stmt::Mutate { place, span } => StmtView::Mutate { place, span },
            Stmt::Uninit { place, span } => StmtView::Uninit { place, span },
            Stmt::Call(c) => StmtView::Call(c@),
            Stmt::Borrow { loan, span } => StmtView::Borrow { loan, span },
            Stmt::UseBorrower { local, span } => StmtView::UseBorrower { local, span },
            Stmt::Activate { loan, span } => StmtView::Activate { loan, span },
            Stmt::CheckedOp { span } => StmtView::CheckedOp { span },
            Stmt::Alloc { site, span } => StmtView::Alloc { site, span },
            Stmt::RegionOpen { region, span } => StmtView::RegionOpen { region, span },
            Stmt::RegionClose { region, span } => StmtView::RegionClose { region, span },
            Stmt::Dup { place, span } => StmtView::Dup { place, span },
            Stmt::Drop { place, span } => StmtView::Drop { place, span },
            Stmt::HandleCheck { place, span } => StmtView::HandleCheck { place, span },
            Stmt::UnsafeEnter { span } => StmtView::UnsafeEnter { span },
            Stmt::UnsafeExit { span } => StmtView::UnsafeExit { span },
            Stmt::Assume { ops, span } => StmtView::Assume { ops: ops@, span },
            Stmt::RawRead { ptr, span } => StmtView::RawRead { ptr: ptr@, span },
            Stmt::RawWrite { ptr, span } => StmtView::RawWrite { ptr: ptr@, span },
            Stmt::Expose { what, dir, span } => StmtView::Expose {
                what: what@,
                dir: dir@,
                span,
            },
            Stmt::Door { region, ptr, span } => StmtView::Door {
                region: region@,
                ptr: ptr@,
                span,
            },
            Stmt::ProvOp { op, ptr, span } => StmtView::ProvOp { op: op@, ptr: ptr@, span },
        }
    }
}

/// Statements, as values.
pub open spec fn stmt_views(v: Seq<Stmt>) -> Seq<StmtView> {
    Seq::new(v.len(), |i: int| v[i]@)
}

/// Locals, as values.
pub open spec fn local_views(v: Seq<Local>) -> Seq<LocalView> {
    Seq::new(v.len(), |i: int| v[i]@)
}

/// Blocks, as values.
pub open spec fn block_views(v: Seq<Block>) -> Seq<BlockView> {
    Seq::new(v.len(), |i: int| v[i]@)
}

/// Regions, as values.
pub open spec fn region_views(v: Seq<Region>) -> Seq<RegionView> {
    Seq::new(v.len(), |i: int| v[i]@)
}

/// Allocation sites, as values.
pub open spec fn site_views(v: Seq<AllocSite>) -> Seq<SiteView> {
    Seq::new(v.len(), |i: int| v[i]@)
}

impl View for Block {
    type V = BlockView;

    open spec fn view(&self) -> BlockView {
        BlockView { stmts: stmt_views(self.stmts@), succs: self.succs@, trap: self.trap }
    }
}

impl View for Cfg {
    type V = CfgView;

    open spec fn view(&self) -> CfgView {
        CfgView {
            name: self.name@,
            blocks: block_views(self.blocks@),
            locals: local_views(self.locals@),
            places: self.places@,
            loans: self.loans@,
            regions: region_views(self.regions@),
            sites: site_views(self.sites@),
            entry: self.entry,
            exit: self.exit,
            pattern_moves: self.pattern_moves@,
        }
    }
}

// ------------------------------------------------- well-formedness --

/// Every place of an argument list is interned.
pub open spec fn args_ok(t: PlaceTableView, args: Seq<(PlaceId, Span)>) -> bool {
    forall|i: int| 0 <= i < args.len() ==> t.has((#[trigger] args[i]).0)
}

/// The statement names only things that exist: interned places and
/// recorded loans.
pub open spec fn stmt_ok(s: StmtView, t: PlaceTableView, loans: nat) -> bool {
    match s {
        StmtView::Read { place, .. }
        | StmtView::Move { place, .. }
        | StmtView::Init { place, .. }
        | StmtView::Mutate { place, .. }
        | StmtView::Uninit { place, .. }
        | StmtView::Dup { place, .. }
        | StmtView::Drop { place, .. }
        | StmtView::HandleCheck { place, .. } => t.has(place),
        StmtView::Call(c) => {
            &&& args_ok(t, c.mut_args)
            &&& args_ok(t, c.read_args)
            &&& args_ok(t, c.take_args)
        },
        StmtView::Borrow { loan, .. } | StmtView::Activate { loan, .. } => loan.0 < loans,
        _ => true,
    }
}

/// A local base names a declared local.
pub open spec fn base_ok(b: BaseView, locals: nat) -> bool {
    match b {
        BaseView::Local(l) => l < locals,
        BaseView::Global(..) => true,
    }
}

/// Every interned place has a declared base.
pub open spec fn places_ok(t: PlaceTableView, locals: nat) -> bool {
    forall|i: int| 0 <= i < t.places.len() ==> base_ok((#[trigger] t.places[i]).base, locals)
}

impl CfgView {
    pub open spec fn block_ok(self, b: BlockView) -> bool {
        &&& forall|j: int|
            0 <= j < b.stmts.len() ==> stmt_ok(#[trigger] b.stmts[j], self.places, self.loans.len())
        &&& forall|j: int| 0 <= j < b.succs.len() ==> (#[trigger] b.succs[j]).0 < self.blocks.len()
    }

    /// The graph names only things that exist.
    pub open spec fn wf(self) -> bool {
        &&& self.places.wf()
        &&& places_ok(self.places, self.locals.len())
        &&& self.entry.0 < self.blocks.len()
        &&& forall|i: int| 0 <= i < self.blocks.len() ==> self.block_ok(#[trigger] self.blocks[i])
        &&& forall|i: int|
            0 <= i < self.loans.len() ==> self.places.has((#[trigger] self.loans[i]).place)
    }
}

// -------------------------------------------------------- rendering --

/// A base by name.
pub open spec fn base_text(locals: Seq<LocalView>, b: BaseView) -> Seq<char> {
    match b {
        BaseView::Local(l) => locals[l as int].name,
        BaseView::Global(_, n) => n,
    }
}

/// A path suffix: `.x` per field, `[_]` per index.
pub open spec fn path_text(proj: Seq<ProjView>) -> Seq<char>
    decreases proj.len(),
{
    if proj.len() == 0 {
        Seq::empty()
    } else {
        path_text(proj.drop_last()) + (match proj.last() {
            ProjView::Field(f) => "."@ + f,
            ProjView::Opaque => "[_]"@,
        })
    }
}

/// A place for diagnostics: `p`, `p.x`, `xs[_]`.
pub open spec fn place_text(locals: Seq<LocalView>, p: PlaceView) -> Seq<char> {
    base_text(locals, p.base) + path_text(p.proj)
}

/// Render a place over a local list.
pub fn render_place(locals: &Vec<Local>, place: &crate::place::Place) -> (r: String)
    requires
        base_ok(place@.base, locals.len() as nat),
    ensures
        r@ == place_text(local_views(locals@), place@),
{
    let mut out = match &place.base {
        Base::Local(l) => locals[*l as usize].name.clone(),
        Base::Global(_, name) => name.clone(),
    };
    let ghost head = out@;
    let ghost proj = place@.proj;
    let mut i: usize = 0;
    assert(proj.take(0) =~= Seq::empty());
    assert(out@ =~= head + path_text(proj.take(0)));
    while i < place.proj.len()
        invariant
            i <= place.proj.len(),
            proj == crate::place::path_view(place.proj@),
            out@ == head + path_text(proj.take(i as int)),
        decreases place.proj.len() - i,
    {
        proof {
            assert(proj.take(i + 1).drop_last() =~= proj.take(i as int));
            assert(proj.take(i + 1).last() == proj[i as int]);
        }
        let ghost before = out@;
        match &place.proj[i] {
            Proj::Field(f) => {
                out.append(".");
                out.append(f.as_str());
                assert(out@ =~= before + ("."@ + f@));
            },
            Proj::Opaque => {
                out.append("[_]");
            },
        }
        i = i + 1;
        assert(out@ =~= head + path_text(proj.take(i as int)));
    }
    assert(proj.take(i as int) =~= proj);
    out
}

/// `@lo..hi`.
pub open spec fn span_text(s: Span) -> Seq<char> {
    "@"@ + decimal(s.lo as nat) + ".."@ + decimal(s.hi as nat)
}

/// Render a span as `@lo..hi`.
pub fn show_span(s: Span) -> (r: String)
    ensures
        r@ == span_text(s),
{
    lit("@").concat(dec(s.lo as u64).as_str()).concat("..").concat(dec(s.hi as u64).as_str())
}

pub open spec fn mode_text(m: Option<Option<ParamMode>>) -> Seq<char> {
    match m {
        None => ""@,
        Some(None) => " param(read)"@,
        Some(Some(ParamMode::Mut)) => " param(mut)"@,
        Some(Some(ParamMode::Take)) => " param(take)"@,
    }
}

fn show_mode(m: Option<Option<ParamMode>>) -> (r: &'static str)
    ensures
        r@ == mode_text(m),
{
    match m {
        None => "",
        Some(None) => " param(read)",
        Some(Some(ParamMode::Mut)) => " param(mut)",
        Some(Some(ParamMode::Take)) => " param(take)",
    }
}

impl CfgView {
    pub open spec fn show(self, id: PlaceId) -> Seq<char> {
        place_text(self.locals, self.places.at(id))
    }

    /// One dump line per local: `  _i name: ty copy param(mode)`.
    pub open spec fn local_line(self, i: int) -> Seq<char> {
        let l = self.locals[i];
        "  _"@ + decimal(i as nat) + " "@ + l.name + ": "@ + l.ty + (if l.is_copy {
            " copy"@
        } else {
            ""@
        }) + mode_text(l.param_mode) + "\n"@
    }

    pub open spec fn local_lines(self, n: nat) -> Seq<char>
        decreases n,
    {
        if n == 0 {
            Seq::empty()
        } else {
            self.local_lines((n - 1) as nat) + self.local_line(n - 1)
        }
    }

    /// The parts of a call's argument surface: `mut a`, `read b`, ..
    pub open spec fn arg_texts(self, args: Seq<(PlaceId, Span)>, tag: Seq<char>) -> Seq<Seq<char>> {
        Seq::new(args.len(), |i: int| tag + " "@ + self.show(args[i].0))
    }

    pub open spec fn stmt_text(self, s: StmtView) -> Seq<char> {
        match s {
            StmtView::Read { place, span } => "read "@ + self.show(place) + " "@ + span_text(span),
            StmtView::Move { place, span } => "move "@ + self.show(place) + " "@ + span_text(span),
            StmtView::Init { place, span } => "init "@ + self.show(place) + " "@ + span_text(span),
            StmtView::Mutate { place, span } => "mutate "@ + self.show(place) + " "@ + span_text(
                span,
            ),
            StmtView::Uninit { place, span } => "uninit "@ + self.show(place) + " "@ + span_text(
                span,
            ),
            StmtView::Call(c) => "call "@ + c.callee + " ["@ + joined(
                self.arg_texts(c.mut_args, "mut"@) + self.arg_texts(c.read_args, "read"@)
                    + self.arg_texts(c.take_args, "take"@),
                ", "@,
            ) + "] "@ + span_text(c.span),
            StmtView::Borrow { loan, span } => {
                let l = self.loans[loan.0 as int];
                "borrow"@ + (if l.two_phase {
                    " (two-phase)"@
                } else {
                    ""@
                }) + " l"@ + decimal(loan.0 as nat) + " = &"@ + (if l.kind is Unique {
                    "mut "@
                } else {
                    ""@
                }) + self.show(l.place) + " "@ + span_text(span)
            },
            StmtView::UseBorrower { local, span } => "use-borrower _"@ + decimal(local.0 as nat)
                + " "@ + span_text(span),
            StmtView::Activate { loan, span } => "activate l"@ + decimal(loan.0 as nat) + " "@
                + span_text(span),
            StmtView::CheckedOp { span } => "checked-op "@ + span_text(span),
            StmtView::Alloc { site, span } => "alloc s"@ + decimal(site.0 as nat) + " "@
                + span_text(span),
            StmtView::RegionOpen { region, span } => "region-open r"@ + decimal(region.0 as nat)
                + " "@ + span_text(span),
            StmtView::RegionClose { region, span } => "region-close r"@ + decimal(region.0 as nat)
                + " "@ + span_text(span),
            StmtView::Dup { place, span } => "dup "@ + self.show(place) + " "@ + span_text(span),
            StmtView::Drop { place, span } => "drop "@ + self.show(place) + " "@ + span_text(span),
            StmtView::HandleCheck { place, span } => "handle-check "@ + self.show(place) + " "@
                + span_text(span),
            StmtView::UnsafeEnter { span } => "unsafe-enter "@ + span_text(span),
            StmtView::UnsafeExit { span } => "unsafe-exit "@ + span_text(span),
            StmtView::Assume { ops, span } => "assume-noalias "@ + ops + " "@ + span_text(span),
            StmtView::RawRead { ptr, span } => "raw-read "@ + ptr + " "@ + span_text(span),
            StmtView::RawWrite { ptr, span } => "raw-write "@ + ptr + " "@ + span_text(span),
            StmtView::Expose { what, dir, span } => "expose "@ + what + " ("@ + dir + ") "@
                + span_text(span),
            StmtView::Door { region, ptr, span } => "door "@ + region + " from "@ + ptr + " "@
                + span_text(span),
            StmtView::ProvOp { op, ptr, span } => "prov "@ + op + " "@ + ptr + " "@ + span_text(
                span,
            ),
        }
    }

    pub open spec fn stmt_lines(self, b: BlockView, n: nat) -> Seq<char>
        decreases n,
    {
        if n == 0 {
            Seq::empty()
        } else {
            self.stmt_lines(b, (n - 1) as nat) + "    "@ + self.stmt_text(b.stmts[n - 1]) + "\n"@
        }
    }

    /// The outgoing edges of a block, `trap` last.
    pub open spec fn edge_texts(b: BlockView) -> Seq<Seq<char>> {
        let named = Seq::new(b.succs.len(), |i: int| "b"@ + decimal(b.succs[i].0 as nat));
        if b.trap {
            named.push("trap"@)
        } else {
            named
        }
    }

    pub open spec fn block_text(self, i: int) -> Seq<char> {
        let b = self.blocks[i];
        let edges = CfgView::edge_texts(b);
        "  b"@ + decimal(i as nat) + ":\n"@ + self.stmt_lines(b, b.stmts.len()) + (if edges.len()
            > 0 {
            "    -> "@ + joined(edges, ", "@) + "\n"@
        } else {
            ""@
        })
    }

    pub open spec fn block_texts(self, n: nat) -> Seq<char>
        decreases n,
    {
        if n == 0 {
            Seq::empty()
        } else {
            self.block_texts((n - 1) as nat) + self.block_text(n - 1)
        }
    }

    /// The whole dump: the header, one line per local, then the blocks.
    pub open spec fn dump_text(self) -> Seq<char> {
        "fn "@ + self.name + "\n"@ + self.local_lines(self.locals.len()) + self.block_texts(
            self.blocks.len(),
        )
    }
}

impl Block {
    pub fn empty() -> (r: Block)
        ensures
            r@ == (BlockView { stmts: Seq::empty(), succs: Seq::empty(), trap: false }),
    {
        let r = Block { stmts: Vec::new(), succs: Vec::new(), trap: false };
        assert(r@.stmts =~= Seq::empty());
        r
    }
}

impl Default for Block {
    fn default() -> (r: Block)
        ensures
            r@ == (BlockView { stmts: Seq::empty(), succs: Seq::empty(), trap: false }),
    {
        Block::empty()
    }
}

impl Cfg {
    pub fn block(&self, id: BlockId) -> (r: &Block)
        requires
            id.0 < self@.blocks.len(),
        ensures
            r@ == self@.blocks[id.0 as int],
            *r == self.blocks@[id.0 as int],
    {
        &self.blocks[id.0 as usize]
    }

    pub fn local(&self, id: LocalId) -> (r: &Local)
        requires
            id.0 < self@.locals.len(),
        ensures
            r@ == self@.locals[id.0 as int],
    {
        &self.locals[id.0 as usize]
    }

    /// Render a place for diagnostics: `p`, `p.x`, `xs[_]`.
    pub fn show_place(&self, id: PlaceId) -> (r: String)
        requires
            self@.wf(),
            self@.places.has(id),
        ensures
            r@ == self@.show(id),
    {
        assert(base_ok(self@.places.places[id.0 as int].base, self@.locals.len()));
        render_place(&self.locals, self.places.get(id))
    }

    fn push_args(&self, parts: &mut Vec<String>, args: &Vec<(PlaceId, Span)>, tag: &str)
        requires
            self@.wf(),
            args_ok(self@.places, args@),
        ensures
            texts(final(parts)@) == texts(old(parts)@) + self@.arg_texts(args@, tag@),
    {
        let ghost before = texts(parts@);
        let mut i: usize = 0;
        assert(texts(parts@) =~= before + self@.arg_texts(args@.take(0), tag@));
        while i < args.len()
            invariant
                i <= args.len(),
                self@.wf(),
                args_ok(self@.places, args@),
                texts(parts@) == before + self@.arg_texts(args@.take(i as int), tag@),
            decreases args.len() - i,
        {
            let ghost prior = texts(parts@);
            let part = lit(tag).concat(" ").concat(self.show_place(args[i].0).as_str());
            let ghost pt = part@;
            parts.push(part);
            i = i + 1;
            assert(texts(parts@) =~= prior.push(pt));
            assert(self@.arg_texts(args@.take(i as int), tag@) =~= self@.arg_texts(
                args@.take(i - 1),
                tag@,
            ).push(pt));
            assert(texts(parts@) =~= before + self@.arg_texts(args@.take(i as int), tag@));
        }
        assert(args@.take(i as int) =~= args@);
    }

    fn show_stmt(&self, s: &Stmt) -> (r: String)
        requires
            self@.wf(),
            stmt_ok(s@, self@.places, self@.loans.len()),
        ensures
            r@ == self@.stmt_text(s@),
    {
        match s {
            Stmt::Read { place, span } => lit("read ").concat(
                self.show_place(*place).as_str(),
            ).concat(" ").concat(show_span(*span).as_str()),
            Stmt::Move { place, span } => lit("move ").concat(
                self.show_place(*place).as_str(),
            ).concat(" ").concat(show_span(*span).as_str()),
            Stmt::Init { place, span } => lit("init ").concat(
                self.show_place(*place).as_str(),
            ).concat(" ").concat(show_span(*span).as_str()),
            Stmt::Mutate { place, span } => lit("mutate ").concat(
                self.show_place(*place).as_str(),
            ).concat(" ").concat(show_span(*span).as_str()),
            Stmt::Uninit { place, span } => lit("uninit ").concat(
                self.show_place(*place).as_str(),
            ).concat(" ").concat(show_span(*span).as_str()),
            Stmt::Call(c) => {
                let mut parts: Vec<String> = Vec::new();
                self.push_args(&mut parts, &c.mut_args, "mut");
                self.push_args(&mut parts, &c.read_args, "read");
                self.push_args(&mut parts, &c.take_args, "take");
                assert(texts(parts@) =~= self@.arg_texts(c.mut_args@, "mut"@) + self@.arg_texts(
                    c.read_args@,
                    "read"@,
                ) + self@.arg_texts(c.take_args@, "take"@));
                lit("call ").concat(c.callee.as_str()).concat(" [").concat(
                    join(&parts, ", ").as_str(),
                ).concat("] ").concat(show_span(c.span).as_str())
            },
            Stmt::Borrow { loan, span } => {
                let l: &Loan = &self.loans[loan.0 as usize];
                lit("borrow").concat(if l.two_phase { " (two-phase)" } else { "" }).concat(
                    " l",
                ).concat(dec(loan.0 as u64).as_str()).concat(" = &").concat(
                    if l.kind == LoanKind::Unique { "mut " } else { "" },
                ).concat(self.show_place(l.place).as_str()).concat(" ").concat(
                    show_span(*span).as_str(),
                )
            },
            Stmt::UseBorrower { local, span } => lit("use-borrower _").concat(
                dec(local.0 as u64).as_str(),
            ).concat(" ").concat(show_span(*span).as_str()),
            Stmt::Activate { loan, span } => lit("activate l").concat(
                dec(loan.0 as u64).as_str(),
            ).concat(" ").concat(show_span(*span).as_str()),
            Stmt::CheckedOp { span } => lit("checked-op ").concat(show_span(*span).as_str()),
            Stmt::Alloc { site, span } => lit("alloc s").concat(dec(site.0 as u64).as_str()).concat(
                " ",
            ).concat(show_span(*span).as_str()),
            Stmt::RegionOpen { region, span } => lit("region-open r").concat(
                dec(region.0 as u64).as_str(),
            ).concat(" ").concat(show_span(*span).as_str()),
            Stmt::RegionClose { region, span } => lit("region-close r").concat(
                dec(region.0 as u64).as_str(),
            ).concat(" ").concat(show_span(*span).as_str()),
            Stmt::Dup { place, span } => lit("dup ").concat(
                self.show_place(*place).as_str(),
            ).concat(" ").concat(show_span(*span).as_str()),
            Stmt::Drop { place, span } => lit("drop ").concat(
                self.show_place(*place).as_str(),
            ).concat(" ").concat(show_span(*span).as_str()),
            Stmt::HandleCheck { place, span } => lit("handle-check ").concat(
                self.show_place(*place).as_str(),
            ).concat(" ").concat(show_span(*span).as_str()),
            Stmt::UnsafeEnter { span } => lit("unsafe-enter ").concat(show_span(*span).as_str()),
            Stmt::UnsafeExit { span } => lit("unsafe-exit ").concat(show_span(*span).as_str()),
            Stmt::Assume { ops, span } => lit("assume-noalias ").concat(ops.as_str()).concat(
                " ",
            ).concat(show_span(*span).as_str()),
            Stmt::RawRead { ptr, span } => lit("raw-read ").concat(ptr.as_str()).concat(
                " ",
            ).concat(show_span(*span).as_str()),
            Stmt::RawWrite { ptr, span } => lit("raw-write ").concat(ptr.as_str()).concat(
                " ",
            ).concat(show_span(*span).as_str()),
            Stmt::Expose { what, dir, span } => lit("expose ").concat(what.as_str()).concat(
                " (",
            ).concat(dir).concat(") ").concat(show_span(*span).as_str()),
            Stmt::Door { region, ptr, span } => lit("door ").concat(region.as_str()).concat(
                " from ",
            ).concat(ptr.as_str()).concat(" ").concat(show_span(*span).as_str()),
            Stmt::ProvOp { op, ptr, span } => lit("prov ").concat(op.as_str()).concat(" ").concat(
                ptr.as_str(),
            ).concat(" ").concat(show_span(*span).as_str()),
        }
    }

    fn dump_block(&self, i: usize) -> (r: String)
        requires
            self@.wf(),
            i < self.blocks.len(),
        ensures
            r@ == self@.block_text(i as int),
    {
        let b: &Block = &self.blocks[i];
        let ghost bv = self@.blocks[i as int];
        assert(self@.block_ok(bv));
        let mut out = lit("  b").concat(dec(i as u64).as_str()).concat(":\n");
        let ghost head = out@;
        let mut j: usize = 0;
        assert(out@ =~= head + self@.stmt_lines(bv, 0));
        while j < b.stmts.len()
            invariant
                j <= b.stmts.len(),
                bv == b@,
                self@.wf(),
                self@.block_ok(bv),
                out@ == head + self@.stmt_lines(bv, j as nat),
            decreases b.stmts.len() - j,
        {
            assert(bv.stmts[j as int] == b.stmts@[j as int]@);
            let ghost prior = out@;
            out.append("    ");
            out.append(self.show_stmt(&b.stmts[j]).as_str());
            out.append("\n");
            j = j + 1;
            assert(out@ =~= head + self@.stmt_lines(bv, j as nat));
        }
        let mut edges: Vec<String> = Vec::new();
        let ghost named = Seq::new(bv.succs.len(), |k: int| "b"@ + decimal(bv.succs[k].0 as nat));
        let mut k: usize = 0;
        while k < b.succs.len()
            invariant
                k <= b.succs.len(),
                bv == b@,
                named == Seq::new(bv.succs.len(), |k: int| "b"@ + decimal(bv.succs[k].0 as nat)),
                texts(edges@) == named.take(k as int),
            decreases b.succs.len() - k,
        {
            let ghost prior = texts(edges@);
            let e = lit("b").concat(dec(b.succs[k].0 as u64).as_str());
            let ghost et = e@;
            edges.push(e);
            k = k + 1;
            assert(texts(edges@) =~= prior.push(et));
            assert(texts(edges@) =~= named.take(k as int));
        }
        assert(named.take(k as int) =~= named);
        if b.trap {
            edges.push(lit("trap"));
            assert(texts(edges@) =~= named.push("trap"@));
        }
        assert(texts(edges@) == CfgView::edge_texts(bv));
        if edges.len() > 0 {
            let tail = lit("    -> ").concat(join(&edges, ", ").as_str()).concat("\n");
            out.append(tail.as_str());
        } else {
            out.append("");
        }
        out
    }

    /// The deterministic textual dump: byte-offset spans, walk-order ids.
    pub fn dump(&self) -> (r: String)
        requires
            self@.wf(),
        ensures
            r@ == self@.dump_text(),
    {
        let mut out = lit("fn ").concat(self.name.as_str()).concat("\n");
        let ghost head = out@;
        let mut i: usize = 0;
        assert(out@ =~= head + self@.local_lines(0));
        while i < self.locals.len()
            invariant
                i <= self.locals.len(),
                out@ == head + self@.local_lines(i as nat),
            decreases self.locals.len() - i,
        {
            let l: &Local = &self.locals[i];
            assert(self@.locals[i as int] == l@);
            let line = lit("  _").concat(dec(i as u64).as_str()).concat(" ").concat(
                l.name.as_str(),
            ).concat(": ").concat(l.ty.as_str()).concat(
                if l.is_copy { " copy" } else { "" },
            ).concat(show_mode(l.param_mode)).concat("\n");
            out.append(line.as_str());
            i = i + 1;
            assert(out@ =~= head + self@.local_lines(i as nat));
        }
        let ghost head2 = out@;
        let mut b: usize = 0;
        assert(out@ =~= head2 + self@.block_texts(0));
        while b < self.blocks.len()
            invariant
                b <= self.blocks.len(),
                self@.wf(),
                out@ == head2 + self@.block_texts(b as nat),
            decreases self.blocks.len() - b,
        {
            out.append(self.dump_block(b).as_str());
            b = b + 1;
            assert(out@ =~= head2 + self@.block_texts(b as nat));
        }
        out
    }
}

} // verus!
