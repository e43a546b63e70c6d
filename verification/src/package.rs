//! The package level: every checked body is lowered and run through the
//! passes, and the results are gathered in body order.

use vstd::prelude::*;
use vstd::string::*;

use crate::ast::{Body, BodyKind, Owner};
use crate::byteview::{body_warnings, check_body, Lender};
use crate::boundary::{boundary_diags, unsafe_sig_check};
use crate::cfg::{Cfg, CfgView, RegionId, RegionView, Stmt, StmtView};
use crate::diag::{
    diag_views, lemma_diag_views_push, not_yet_views, Code, DiagView, Diagnostic, NotYet,
    NotYetView, Span,
};
use crate::excl::excl_diags;
use crate::facts::{facts_of, FactsView, FnFacts};
use crate::loans::loan_diags;
use crate::lowering::{finish_with, fn_walked, init_walked, lowered_result, Lowered, LoweredView};
use crate::lowstate::{Cx, Lowerer};
use crate::moves::move_diags;
use crate::regions::{RegionSummary, SummaryView};
use crate::shared::{shared_diags, shared_refusals};
use crate::text::{lit, str_eq};
use crate::types::{ImplSig, ItemSig, MethodSig, ParamSig, SigTables, Tables, TraitSig};

verus! {

/// One source file.
#[derive(Debug)]
pub struct SourceFile {
    pub lines: Vec<String>,
    /// The span of the whole tree.
    pub root: Span,
    /// The top-level functions by name, each with its parameter count, in
    /// declaration order.
    pub fns: Vec<(String, usize)>,
}

/// A type-checked package: its signatures and its checked bodies.
#[derive(Debug)]
pub struct Package {
    pub sigs: SigTables,
    pub bodies: Vec<Body>,
    pub files: Vec<SourceFile>,
    /// Per module, its path.
    pub modules: Vec<Vec<String>>,
}

/// What checking a package found.
pub struct MemCheck {
    /// Sorted by position, then by code.
    pub diagnostics: Vec<Diagnostic>,
    /// Every refusal, in body order.
    pub not_yet: Vec<NotYet>,
    pub facts: Vec<FnFacts>,
    pub regions: Vec<RegionSummary>,
}

#[verifier::ext_equal]
pub struct CheckView {
    pub diagnostics: Seq<DiagView>,
    pub not_yet: Seq<NotYetView>,
    pub facts: Seq<FactsView>,
    pub regions: Seq<SummaryView>,
}

pub open spec fn fact_views(v: Seq<FnFacts>) -> Seq<FactsView> {
    Seq::new(v.len(), |i: int| v[i]@)
}

pub open spec fn summary_views(v: Seq<RegionSummary>) -> Seq<SummaryView> {
    Seq::new(v.len(), |i: int| v[i]@)
}

impl View for MemCheck {
    type V = CheckView;

    open spec fn view(&self) -> CheckView {
        CheckView {
            diagnostics: diag_views(self.diagnostics@),
            not_yet: not_yet_views(self.not_yet@),
            facts: fact_views(self.facts@),
            regions: summary_views(self.regions@),
        }
    }
}

// --------------------------------------------------------------- bodies --

/// The parameters of the first method of that name, from `i` on.
pub open spec fn method_params(ms: Seq<MethodSig>, name: Seq<char>, i: int) -> Option<Vec<ParamSig>>
    decreases ms.len() - i,
{
    if i >= ms.len() {
        None
    } else if ms[i].name@ == name {
        Some(ms[i].sig.params)
    } else {
        method_params(ms, name, i + 1)
    }
}

/// The first impl block at that declaration, from `i` on.
pub open spec fn impl_at(v: Seq<ImplSig>, file: u32, decl: u32, i: int) -> Option<int>
    decreases v.len() - i,
{
    if i >= v.len() {
        None
    } else if v[i].file == file && v[i].decl == decl {
        Some(i)
    } else {
        impl_at(v, file, decl, i + 1)
    }
}

/// The first trait of that name, from `i` on.
pub open spec fn trait_at(v: Seq<TraitSig>, module: u32, name: Seq<char>, i: int) -> Option<int>
    decreases v.len() - i,
{
    if i >= v.len() {
        None
    } else if v[i].module == module && v[i].name@ == name {
        Some(i)
    } else {
        trait_at(v, module, name, i + 1)
    }
}

/// The declared parameter list of a function body: module item, impl
/// method, or trait default body.
pub open spec fn params_of(sigs: SigTables, b: Body) -> Option<Vec<ParamSig>> {
    match b.owner {
        Owner::Module => match sigs.item(b.module, b.name@) {
            Some(ItemSig::Fn(f)) => Some(f.params),
            _ => None,
        },
        Owner::Impl { .. } => match impl_at(sigs.impls@, b.file, b.decl, 0) {
            Some(k) => method_params(sigs.impls@[k].methods@, b.name@, 0),
            None => None,
        },
        Owner::Trait { name } => match trait_at(sigs.traits@, b.module, name@, 0) {
            Some(k) => method_params(sigs.traits@[k].methods@, b.name@, 0),
            None => None,
        },
    }
}

pub open spec fn opt_params(o: Option<&Vec<ParamSig>>) -> Option<Vec<ParamSig>> {
    match o {
        Some(p) => Some(*p),
        None => None,
    }
}

fn find_method<'a>(ms: &'a Vec<MethodSig>, name: &str) -> (r: Option<&'a Vec<ParamSig>>)
    ensures
        opt_params(r) == method_params(ms@, name@, 0),
{
    let mut i: usize = 0;
    while i < ms.len()
        invariant
            i <= ms.len(),
            method_params(ms@, name@, 0) == method_params(ms@, name@, i as int),
        decreases ms.len() - i,
    {
        if str_eq(ms[i].name.as_str(), name) {
            return Some(&ms[i].sig.params);
        }
        i = i + 1;
    }
    None
}

/// The declared parameter list of a function body.
pub fn fn_params<'a>(sigs: &'a SigTables, b: &Body) -> (r: Option<&'a Vec<ParamSig>>)
    ensures
        opt_params(r) == params_of(*sigs, *b),
{
    match &b.owner {
        Owner::Module => match sigs.get(b.module, b.name.as_str()) {
            Some(ItemSig::Fn(f)) => Some(&f.params),
            _ => None,
        },
        Owner::Impl { .. } => {
            let mut i: usize = 0;
            while i < sigs.impls.len()
                invariant
                    i <= sigs.impls.len(),
                    impl_at(sigs.impls@, b.file, b.decl, 0) == impl_at(
                        sigs.impls@,
                        b.file,
                        b.decl,
                        i as int,
                    ),
                    b.owner is Impl,
                decreases sigs.impls.len() - i,
            {
                if sigs.impls[i].file == b.file && sigs.impls[i].decl == b.decl {
                    return find_method(&sigs.impls[i].methods, b.name.as_str());
                }
                i = i + 1;
            }
            None
        },
        Owner::Trait { name } => {
            let mut i: usize = 0;
            while i < sigs.traits.len()
                invariant
                    i <= sigs.traits.len(),
                    trait_at(sigs.traits@, b.module, name@, 0) == trait_at(
                        sigs.traits@,
                        b.module,
                        name@,
                        i as int,
                    ),
                    b.owner == (Owner::Trait { name: *name }),
                decreases sigs.traits.len() - i,
            {
                if sigs.traits[i].module == b.module && str_eq(
                    sigs.traits[i].name.as_str(),
                    name.as_str(),
                ) {
                    return find_method(&sigs.traits[i].methods, b.name.as_str());
                }
                i = i + 1;
            }
            None
        },
    }
}

/// What a body of the package is lowered against.
pub open spec fn context<'t>(pkg: &'t Package, b: &'t Body) -> Cx<'t> {
    Cx {
        tabs: Tables { sigs: &pkg.sigs, body: &b.table },
        module: b.module,
        lines: &pkg.files@[b.file as int].lines,
    }
}

/// A body, lowered. `None`: the item has no lowerable body.
pub open spec fn body_lowered(pkg: &Package, b: &Body) -> Option<Result<LoweredView, NotYetView>> {
    if b.file >= pkg.files@.len() {
        None
    } else {
        let cx = context(pkg, b);
        match b.kind {
            BodyKind::Fn(d) => match (d.body, params_of(pkg.sigs, *b)) {
                (Some(block), Some(params)) => Some(
                    finish_with(b.name@, fn_walked(cx, params@, block)),
                ),
                _ => None,
            },
            BodyKind::Init(init) => Some(finish_with(b.name@, init_walked(cx, init))),
        }
    }
}

pub open spec fn opt_lowered(o: Option<Result<Lowered, NotYet>>) -> Option<
    Result<LoweredView, NotYetView>,
> {
    match o {
        Some(r) => Some(lowered_result(r)),
        None => None,
    }
}

/// Lower one checked body.
pub fn lower_body(pkg: &Package, b: &Body) -> (r: Option<Result<Lowered, NotYet>>)
    requires
        pkg.sigs.table.wf(),
    ensures
        opt_lowered(r) == body_lowered(pkg, b),
        r matches Some(Ok(l)) ==> l@.wf(),
{
    if (b.file as usize) >= pkg.files.len() {
        return None;
    }
    let cx = Cx {
        tabs: Tables { sigs: &pkg.sigs, body: &b.table },
        module: b.module,
        lines: &pkg.files[b.file as usize].lines,
    };
    match &b.kind {
        BodyKind::Fn(d) => match &d.body {
            Some(block) => match fn_params(&pkg.sigs, b) {
                Some(params) => Some(Lowerer::lower_fn(cx, b.name.as_str(), params, block)),
                None => None,
            },
            None => None,
        },
        BodyKind::Init(init) => Some(Lowerer::lower_init(cx, b.name.as_str(), init)),
    }
}

// ------------------------------------------------------ empty regions --

pub const NOTE_EMPTY: &'static str = "no allocation is attributed to this region and its handle stays in this frame; delete the region, or move the allocation it was written for inside it.";

/// A region that inference proves empty.
pub open spec fn empty_diag(r: RegionView) -> DiagView {
    DiagView::warning(
        Code::W1001,
        r.span,
        "the region `"@ + r.name + "` never allocates"@,
    ).with_label("nothing lives here"@).with_note(NOTE_EMPTY@)
}

pub open spec fn exposes_region_base(s: StmtView) -> bool {
    s matches StmtView::Expose { dir, .. } && dir == "region->ptr"@
}

/// The body hands a region's base to the raw tier, where code this
/// checker cannot see may fill it.
pub open spec fn exposes_region(c: CfgView) -> bool {
    exists|i: int, j: int|
        0 <= i < c.blocks.len() && 0 <= j < c.blocks[i].stmts.len() && exposes_region_base(
            #[trigger] c.blocks[i].stmts[j],
        )
}

pub open spec fn in_std(modules: Seq<Vec<String>>, module: u32) -> bool {
    module < modules.len() && modules[module as int]@.len() > 0 && modules[module as int]@[0]@
        == "std"@
}

pub open spec fn empty_diags(s: SummaryView, n: nat) -> Seq<DiagView>
    decreases n,
{
    if n == 0 {
        Seq::empty()
    } else {
        empty_diags(s, (n - 1) as nat).push(
            empty_diag(s.regions[s.never_allocates[n - 1].0 as int]),
        )
    }
}

fn is_region_base(s: &Stmt) -> (r: bool)
    ensures
        r == exposes_region_base(s@),
{
    match s {
        Stmt::Expose { dir, .. } => str_eq(dir, "region->ptr"),
        _ => false,
    }
}

fn hands_out_base(c: &Cfg) -> (r: bool)
    ensures
        r == exposes_region(c@),
{
    let mut i: usize = 0;
    while i < c.blocks.len()
        invariant
            i <= c.blocks.len(),
            forall|k: int, j: int|
                0 <= k < i && 0 <= j < c@.blocks[k].stmts.len() ==> !exposes_region_base(
                    #[trigger] c@.blocks[k].stmts[j],
                ),
        decreases c.blocks.len() - i,
    {
        let b = &c.blocks[i];
        assert(c@.blocks[i as int] == b@);
        let mut j: usize = 0;
        while j < b.stmts.len()
            invariant
                i < c.blocks.len(),
                c@.blocks[i as int] == b@,
                j <= b.stmts.len(),
                forall|k: int|
                    0 <= k < j ==> !exposes_region_base(#[trigger] c@.blocks[i as int].stmts[k]),
            decreases b.stmts.len() - j,
        {
            assert(c@.blocks[i as int].stmts[j as int] == b.stmts@[j as int]@);
            if is_region_base(&b.stmts[j]) {
                return true;
            }
            j = j + 1;
        }
        i = i + 1;
    }
    false
}

fn module_in_std(modules: &Vec<Vec<String>>, module: u32) -> (r: bool)
    ensures
        r == in_std(modules@, module),
{
    if (module as usize) < modules.len() {
        let p = &modules[module as usize];
        p.len() > 0 && str_eq(p[0].as_str(), "std")
    } else {
        false
    }
}

// -------------------------------------------------------------- passes --

/// Every path-sensitive pass over one check CFG.
pub open spec fn cfg_diags(c: CfgView) -> Seq<DiagView> {
    move_diags(c) + excl_diags(c) + loan_diags(c)
}

/// Run every path-sensitive pass over one check CFG (the moves, call
/// exclusivity, and loan analyses): a function of the graph alone.
pub fn check_cfg(cfg: &Cfg) -> (r: Vec<Diagnostic>)
    requires
        cfg@.wf(),
    ensures
        diag_views(r@) == cfg_diags(cfg@),
{
    let mut diags: Vec<Diagnostic> = Vec::new();
    crate::moves::check(cfg, &mut diags);
    crate::excl::check(cfg, &mut diags);
    crate::loans::check(cfg, &mut diags);
    assert(diag_views(diags@) =~= cfg_diags(cfg@));
    diags
}

/// What one body adds.
pub open spec fn body_diags(pkg: &Package, b: &Body, l: LoweredView) -> Seq<DiagView> {
    l.diags + cfg_diags(l.cfg) + (if exposes_region(l.cfg) || in_std(pkg.modules@, b.module) {
        Seq::empty()
    } else {
        empty_diags(l.regions, l.regions.never_allocates.len())
    })
}

/// A body's byte-view warnings come first, then what its lowering found.
pub open spec fn with_body(c: CheckView, pkg: &Package, b: &Body) -> CheckView {
    with_lowered(
        CheckView { diagnostics: c.diagnostics + body_warnings(pkg, *b), ..c },
        pkg,
        b,
    )
}

pub open spec fn with_lowered(c: CheckView, pkg: &Package, b: &Body) -> CheckView {
    match body_lowered(pkg, b) {
        None => c,
        Some(Err(n)) => CheckView { not_yet: c.not_yet.push(n), ..c },
        Some(Ok(l)) => CheckView {
            diagnostics: c.diagnostics + body_diags(pkg, b, l),
            facts: c.facts.push(facts_of(l.cfg, l.regions, l.rc_cells)),
            regions: c.regions.push(l.regions),
            ..c
        },
    }
}

/// The signature tables are checked before any body, then the first `n`
/// bodies, in order.
pub open spec fn checked_bodies(pkg: &Package, n: nat) -> CheckView
    decreases n,
{
    if n == 0 {
        CheckView {
            diagnostics: boundary_diags(pkg.sigs) + shared_diags(pkg.sigs),
            not_yet: shared_refusals(pkg.sigs),
            facts: Seq::empty(),
            regions: Seq::empty(),
        }
    } else {
        with_body(checked_bodies(pkg, (n - 1) as nat), pkg, &pkg.bodies@[n - 1])
    }
}

pub open spec fn package_checked(pkg: &Package) -> CheckView {
    let c = checked_bodies(pkg, pkg.bodies@.len());
    CheckView { diagnostics: sorted_diags(c.diagnostics, c.diagnostics.len()), ..c }
}

// ---------------------------------------------------------------- order --

/// Diagnostics stand by file, position and code.
pub open spec fn stands_before(a: DiagView, b: DiagView) -> bool {
    if a.primary.file != b.primary.file {
        a.primary.file < b.primary.file
    } else if a.primary.lo != b.primary.lo {
        a.primary.lo < b.primary.lo
    } else if a.primary.hi != b.primary.hi {
        a.primary.hi < b.primary.hi
    } else {
        a.code.rank_spec() < b.code.rank_spec()
    }
}

/// The place of a diagnostic among sorted ones: after all that do not
/// stand behind it.
pub open spec fn slot_of(s: Seq<DiagView>, d: DiagView, n: nat) -> nat
    decreases n,
{
    if n == 0 {
        0
    } else if stands_before(d, s[n - 1]) {
        slot_of(s, d, (n - 1) as nat)
    } else {
        n
    }
}

/// The first `n`, sorted; equal ones keep their order.
pub open spec fn sorted_diags(s: Seq<DiagView>, n: nat) -> Seq<DiagView>
    decreases n,
{
    if n == 0 {
        Seq::empty()
    } else {
        let rest = sorted_diags(s, (n - 1) as nat);
        rest.insert(slot_of(rest, s[n - 1], rest.len()) as int, s[n - 1])
    }
}

pub open spec fn in_order(s: Seq<DiagView>) -> bool {
    forall|i: int, j: int| 0 <= i < j < s.len() ==> !stands_before(#[trigger] s[j], #[trigger] s[i])
}

proof fn lemma_slot(s: Seq<DiagView>, d: DiagView, n: nat)
    requires
        in_order(s),
        n <= s.len(),
        forall|k: int| n <= k < s.len() ==> stands_before(d, #[trigger] s[k]),
    ensures
        slot_of(s, d, n) <= n,
        forall|k: int| slot_of(s, d, n) <= k < s.len() ==> stands_before(d, #[trigger] s[k]),
        forall|k: int| 0 <= k < slot_of(s, d, n) ==> !stands_before(d, #[trigger] s[k]),
    decreases n,
{
    if n > 0 {
        if stands_before(d, s[n - 1]) {
            lemma_slot(s, d, (n - 1) as nat);
        } else {
            assert forall|k: int| 0 <= k < n implies !stands_before(d, #[trigger] s[k]) by {
                if k < n - 1 {
                    assert(!stands_before(s[n - 1], s[k]));
                }
            }
        }
    }
}

/// The reported diagnostics stand in order, and none is lost or made up.
pub proof fn law_sorted(s: Seq<DiagView>, n: nat)
    requires
        n <= s.len(),
    ensures
        in_order(sorted_diags(s, n)),
        sorted_diags(s, n).len() == n,
        sorted_diags(s, n).to_multiset() =~= s.take(n as int).to_multiset(),
    decreases n,
{
    if n == 0 {
        assert(s.take(0) =~= Seq::empty());
    } else {
        law_sorted(s, (n - 1) as nat);
        let rest = sorted_diags(s, (n - 1) as nat);
        let d = s[n - 1];
        lemma_slot(rest, d, rest.len());
        let k = slot_of(rest, d, rest.len()) as int;
        let r = rest.insert(k, d);
        assert forall|i: int, j: int| 0 <= i < j < r.len() implies !stands_before(
            #[trigger] r[j],
            #[trigger] r[i],
        ) by {
            let a = if i < k {
                rest[i]
            } else if i == k {
                d
            } else {
                rest[i - 1]
            };
            let b = if j < k {
                rest[j]
            } else if j == k {
                d
            } else {
                rest[j - 1]
            };
            assert(r[i] == a && r[j] == b);
            if i == k {
                assert(stands_before(d, rest[j - 1]));
            } else if j == k {
                assert(!stands_before(d, rest[i]));
            } else {
                let i0 = if i < k {
                    i
                } else {
                    i - 1
                };
                let j0 = if j < k {
                    j
                } else {
                    j - 1
                };
                assert(!stands_before(rest[j0], rest[i0]));
            }
        }
        vstd::seq_lib::to_multiset_insert(rest, k, d);
        assert(s.take(n as int) =~= s.take(n - 1).push(d));
        vstd::seq_lib::to_multiset_build(s.take(n - 1), d);
    }
}

fn goes_before(a: &Diagnostic, b: &Diagnostic) -> (r: bool)
    ensures
        r == stands_before(a@, b@),
{
    if a.primary.file != b.primary.file {
        a.primary.file < b.primary.file
    } else if a.primary.lo != b.primary.lo {
        a.primary.lo < b.primary.lo
    } else if a.primary.hi != b.primary.hi {
        a.primary.hi < b.primary.hi
    } else {
        a.code.rank() < b.code.rank()
    }
}

/// Sort diagnostics by position and code; equal ones keep their order.
pub fn sort_diagnostics(diags: Vec<Diagnostic>) -> (r: Vec<Diagnostic>)
    ensures
        diag_views(r@) == sorted_diags(diag_views(diags@), diags@.len()),
{
    let ghost all = diag_views(diags@);
    let n: usize = diags.len();
    let mut rest = diags;
    let mut out: Vec<Diagnostic> = Vec::new();
    let mut i: usize = 0;
    assert(diag_views(out@) =~= sorted_diags(all, 0));
    assert(diag_views(rest@) =~= all.skip(0));
    while i < n
        invariant
            i <= n,
            all.len() == n,
            rest@.len() == n - i,
            diag_views(rest@) == all.skip(i as int),
            diag_views(out@) == sorted_diags(all, i as nat),
        decreases n - i,
    {
        let ghost was = diag_views(out@);
        let ghost rest_was = rest@;
        let d = rest.remove(0);
        let ghost dv = d@;
        assert(dv == all[i as int]) by {
            assert(diag_views(rest_was)[0] == all.skip(i as int)[0]);
        }
        let mut k: usize = out.len();
        while k > 0 && goes_before(&d, &out[k - 1])
            invariant
                k <= out.len(),
                was == diag_views(out@),
                dv == d@,
                slot_of(was, dv, was.len()) == slot_of(was, dv, k as nat),
            decreases k,
        {
            assert(was[k - 1] == out@[k - 1]@);
            k = k - 1;
        }
        assert(k as nat == slot_of(was, dv, k as nat)) by {
            if k > 0 {
                assert(was[k - 1] == out@[k - 1]@);
            }
        }
        out.insert(k, d);
        assert(diag_views(out@) =~= was.insert(k as int, dv));
        i = i + 1;
        assert(diag_views(rest@) =~= all.skip(i as int)) by {
            assert forall|j: int| 0 <= j < rest@.len() implies diag_views(rest@)[j] == all.skip(
                i as int,
            )[j] by {
                assert(rest@[j] == rest_was[j + 1]);
                assert(diag_views(rest_was)[j + 1] == all.skip(i - 1)[j + 1]);
            }
        }
    }
    out
}

// -------------------------------------------------------------- package --

fn add_empty(diags: &mut Vec<Diagnostic>, s: &RegionSummary)
    requires
        forall|i: int|
            0 <= i < s@.never_allocates.len() ==> (#[trigger] s@.never_allocates[i]).0
                < s@.regions.len(),
    ensures
        diag_views(final(diags)@) == diag_views(old(diags)@) + empty_diags(
            s@,
            s@.never_allocates.len(),
        ),
{
    let ghost before = diag_views(diags@);
    let mut i: usize = 0;
    assert(diag_views(diags@) =~= before + empty_diags(s@, 0));
    while i < s.never_allocates.len()
        invariant
            i <= s.never_allocates.len(),
            forall|k: int|
                0 <= k < s@.never_allocates.len() ==> (#[trigger] s@.never_allocates[k]).0
                    < s@.regions.len(),
            diag_views(diags@) == before + empty_diags(s@, i as nat),
        decreases s.never_allocates.len() - i,
    {
        let rid: RegionId = s.never_allocates[i];
        assert(s@.never_allocates[i as int].0 < s@.regions.len());
        let r = &s.regions[rid.0 as usize];
        assert(s@.regions[rid.0 as int] == r@);
        let d = Diagnostic::warning(
            Code::W1001,
            r.span,
            lit("the region `").concat(r.name.as_str()).concat("` never allocates"),
        ).with_label(lit("nothing lives here")).with_note(lit(NOTE_EMPTY));
        assert(d@ == empty_diag(r@));
        proof {
            lemma_diag_views_push(diags@, d);
        }
        diags.push(d);
        i = i + 1;
        assert(diag_views(diags@) =~= before + empty_diags(s@, i as nat));
    }
}

impl MemCheck {
    fn add_body(&mut self, pkg: &Package, b: &Body)
        requires
            pkg.sigs.table.wf(),
        ensures
            final(self)@ == with_body(old(self)@, pkg, b),
    {
        check_body(&Lender::new(pkg), b, &mut self.diagnostics);
        let ghost c = self@;
        assert(c =~= CheckView {
            diagnostics: old(self)@.diagnostics + body_warnings(pkg, *b),
            ..old(self)@
        });
        match lower_body(pkg, b) {
            None => {},
            Some(Err(n)) => {
                let ghost nv = n@;
                self.not_yet.push(n);
                assert(self@.not_yet =~= c.not_yet.push(nv));
                assert(self@ =~= with_lowered(c, pkg, b));
            },
            Some(Ok(l)) => {
                let ghost lv = l@;
                let std = module_in_std(&pkg.modules, b.module);
                let exposed = hands_out_base(&l.cfg);
                let diags = l.diags;
                let more = check_cfg(&l.cfg);
                append_diags(&mut self.diagnostics, diags);
                append_diags(&mut self.diagnostics, more);
                if !exposed && !std {
                    add_empty(&mut self.diagnostics, &l.regions);
                }
                assert(diag_views(self.diagnostics@) =~= c.diagnostics + body_diags(pkg, b, lv));
                let f = crate::facts::collect(&l.cfg, &l.regions, &l.rc_cells);
                let ghost fv = f@;
                self.facts.push(f);
                assert(self@.facts =~= c.facts.push(fv));
                self.regions.push(l.regions);
                assert(self@.regions =~= c.regions.push(lv.regions));
                assert(self@ =~= with_lowered(c, pkg, b));
            },
        }
    }
}

fn append_diags(to: &mut Vec<Diagnostic>, from: Vec<Diagnostic>)
    ensures
        diag_views(final(to)@) == diag_views(old(to)@) + diag_views(from@),
{
    let ghost a = to@;
    let mut from = from;
    let ghost b = from@;
    to.append(&mut from);
    assert(diag_views(to@) =~= diag_views(a) + diag_views(b));
}

/// Check every checked body of the package.
pub fn check_package(pkg: &Package) -> (r: MemCheck)
    requires
        pkg.sigs.table.wf(),
    ensures
        r@ == package_checked(pkg),
{
    let mut out = MemCheck {
        diagnostics: Vec::new(),
        not_yet: Vec::new(),
        facts: Vec::new(),
        regions: Vec::new(),
    };
    unsafe_sig_check(&pkg.sigs, &mut out.diagnostics);
    crate::shared::check(&pkg.sigs, &mut out.diagnostics, &mut out.not_yet);
    assert(out@ =~= checked_bodies(pkg, 0));
    let mut i: usize = 0;
    while i < pkg.bodies.len()
        invariant
            i <= pkg.bodies.len(),
            pkg.sigs.table.wf(),
            out@ == checked_bodies(pkg, i as nat),
        decreases pkg.bodies.len() - i,
    {
        out.add_body(pkg, &pkg.bodies[i]);
        i = i + 1;
    }
    let MemCheck { diagnostics, not_yet, facts, regions } = out;
    let r = MemCheck { diagnostics: sort_diagnostics(diagnostics), not_yet, facts, regions };
    assert(r@ =~= package_checked(pkg));
    r
}

pub open spec fn cfg_dumps(pkg: &Package, n: nat) -> Seq<char>
    decreases n,
{
    if n == 0 {
        Seq::empty()
    } else {
        let rest = cfg_dumps(pkg, (n - 1) as nat);
        match body_lowered(pkg, &pkg.bodies@[n - 1]) {
            Some(Ok(l)) => rest + l.cfg.dump_text() + "\n"@,
            _ => rest,
        }
    }
}

pub open spec fn region_dumps(pkg: &Package, n: nat) -> Seq<char>
    decreases n,
{
    if n == 0 {
        Seq::empty()
    } else {
        let rest = region_dumps(pkg, (n - 1) as nat);
        match body_lowered(pkg, &pkg.bodies@[n - 1]) {
            Some(Ok(l)) => rest + l.regions.text() + "\n"@,
            _ => rest,
        }
    }
}

/// The check-CFG dumps of every lowerable body, in body order.
pub fn dump_package(pkg: &Package) -> (r: String)
    requires
        pkg.sigs.table.wf(),
    ensures
        r@ == cfg_dumps(pkg, pkg.bodies@.len()),
{
    let mut out = lit("");
    proof {
        reveal_strlit("");
        assert(out@ =~= Seq::empty());
    }
    let mut i: usize = 0;
    while i < pkg.bodies.len()
        invariant
            i <= pkg.bodies.len(),
            pkg.sigs.table.wf(),
            out@ == cfg_dumps(pkg, i as nat),
        decreases pkg.bodies.len() - i,
    {
        if let Some(Ok(l)) = lower_body(pkg, &pkg.bodies[i]) {
            out = out.concat(l.cfg.dump().as_str()).concat("\n");
        }
        i = i + 1;
    }
    out
}

/// The region-inference dumps of every lowerable body, in body order.
pub fn dump_regions_package(pkg: &Package) -> (r: String)
    requires
        pkg.sigs.table.wf(),
    ensures
        r@ == region_dumps(pkg, pkg.bodies@.len()),
{
    let mut out = lit("");
    proof {
        reveal_strlit("");
        assert(out@ =~= Seq::empty());
    }
    let mut i: usize = 0;
    while i < pkg.bodies.len()
        invariant
            i <= pkg.bodies.len(),
            pkg.sigs.table.wf(),
            out@ == region_dumps(pkg, i as nat),
        decreases pkg.bodies.len() - i,
    {
        if let Some(Ok(l)) = lower_body(pkg, &pkg.bodies[i]) {
            out = out.concat(l.regions.render().as_str()).concat("\n");
        }
        i = i + 1;
    }
    out
}

/// A package is checked as a whole or in order, body by body: the record
/// of a prefix of its bodies is a prefix of the record.
pub proof fn law_bodies_in_order(pkg: &Package, m: nat, n: nat)
    requires
        m <= n,
    ensures
        checked_bodies(pkg, m).diagnostics.len() <= checked_bodies(pkg, n).diagnostics.len(),
        checked_bodies(pkg, m).diagnostics =~= checked_bodies(pkg, n).diagnostics.take(
            checked_bodies(pkg, m).diagnostics.len() as int,
        ),
        checked_bodies(pkg, m).not_yet.len() <= checked_bodies(pkg, n).not_yet.len(),
        checked_bodies(pkg, m).not_yet =~= checked_bodies(pkg, n).not_yet.take(
            checked_bodies(pkg, m).not_yet.len() as int,
        ),
    decreases n,
{
    if m < n {
        law_bodies_in_order(pkg, m, (n - 1) as nat);
    }
}

proof fn lemma_listed(s: Seq<DiagView>, d: DiagView)
    requires
        s.contains(d),
    ensures
        sorted_diags(s, s.len()).contains(d),
{
    law_sorted(s, s.len());
    assert(s.take(s.len() as int) =~= s);
    let r = sorted_diags(s, s.len());
    broadcast use vstd::seq_lib::group_to_multiset_ensures;

    assert(s.to_multiset().contains(d));
    assert(r.to_multiset().contains(d));
}

proof fn lemma_kept(pkg: &Package, m: nat, n: nat, d: DiagView)
    requires
        m <= n,
        checked_bodies(pkg, m).diagnostics.contains(d),
    ensures
        checked_bodies(pkg, n).diagnostics.contains(d),
{
    law_bodies_in_order(pkg, m, n);
    let a = checked_bodies(pkg, m).diagnostics;
    let b = checked_bodies(pkg, n).diagnostics;
    let i = choose|i: int| 0 <= i < a.len() && a[i] == d;
    assert(b.take(a.len() as int)[i] == b[i]);
}

/// Nothing that a pass finds is lost: what the walk of a body reports, and
/// what the analysis of moves, that of calls and that of loans report of its
/// graph, is among the diagnostics of the package.
pub proof fn law_every_finding_is_reported(pkg: &Package, k: int, l: LoweredView, d: DiagView)
    requires
        0 <= k < pkg.bodies@.len(),
        body_lowered(pkg, &pkg.bodies@[k]) == Some(Ok::<LoweredView, NotYetView>(l)),
        l.diags.contains(d) || move_diags(l.cfg).contains(d) || excl_diags(l.cfg).contains(d)
            || loan_diags(l.cfg).contains(d),
    ensures
        package_checked(pkg).diagnostics.contains(d),
{
    let b = &pkg.bodies@[k];
    let before = checked_bodies(pkg, k as nat);
    let first = before.diagnostics + body_warnings(pkg, *b);
    let rest = if exposes_region(l.cfg) || in_std(pkg.modules@, b.module) {
        Seq::empty()
    } else {
        empty_diags(l.regions, l.regions.never_allocates.len())
    };
    let here = checked_bodies(pkg, (k + 1) as nat).diagnostics;
    let x = move_diags(l.cfg);
    let y = excl_diags(l.cfg);
    let z = loan_diags(l.cfg);
    assert(here == first + (l.diags + (x + y + z) + rest));
    if l.diags.contains(d) {
        let i = choose|i: int| 0 <= i < l.diags.len() && l.diags[i] == d;
        assert(here[first.len() + i] == d);
    } else if x.contains(d) {
        let i = choose|i: int| 0 <= i < x.len() && x[i] == d;
        assert(here[first.len() + l.diags.len() + i] == d);
    } else if y.contains(d) {
        let i = choose|i: int| 0 <= i < y.len() && y[i] == d;
        assert(here[first.len() + l.diags.len() + x.len() + i] == d);
    } else {
        let i = choose|i: int| 0 <= i < z.len() && z[i] == d;
        assert(here[first.len() + l.diags.len() + x.len() + y.len() + i] == d);
    }
    lemma_kept(pkg, (k + 1) as nat, pkg.bodies@.len(), d);
    lemma_listed(checked_bodies(pkg, pkg.bodies@.len()).diagnostics, d);
}

/// Nor is what the signatures show, before any body: a pointer that crosses
/// a boundary, and a type that owns itself.
pub proof fn law_every_signature_finding_is_reported(pkg: &Package, d: DiagView)
    requires
        boundary_diags(pkg.sigs).contains(d) || shared_diags(pkg.sigs).contains(d),
    ensures
        package_checked(pkg).diagnostics.contains(d),
{
    let a = boundary_diags(pkg.sigs);
    let b = shared_diags(pkg.sigs);
    if a.contains(d) {
        let i = choose|i: int| 0 <= i < a.len() && a[i] == d;
        assert((a + b)[i] == d);
    } else {
        let i = choose|i: int| 0 <= i < b.len() && b[i] == d;
        assert((a + b)[a.len() + i] == d);
    }
    lemma_kept(pkg, 0, pkg.bodies@.len(), d);
    lemma_listed(checked_bodies(pkg, pkg.bodies@.len()).diagnostics, d);
}

/// A body that cannot be checked yet is refused, never passed over.
pub proof fn law_unchecked_is_refused(pkg: &Package, k: int, n: NotYetView)
    requires
        0 <= k < pkg.bodies@.len(),
        body_lowered(pkg, &pkg.bodies@[k]) == Some(Err::<LoweredView, NotYetView>(n)),
    ensures
        package_checked(pkg).not_yet.contains(n),
{
    let a = checked_bodies(pkg, (k + 1) as nat).not_yet;
    let b = checked_bodies(pkg, pkg.bodies@.len()).not_yet;
    assert(a.last() == n);
    law_bodies_in_order(pkg, (k + 1) as nat, pkg.bodies@.len());
    assert(b.take(a.len() as int)[a.len() - 1] == b[a.len() - 1]);
    assert(b[a.len() - 1] == n);
}

/// The diagnostics of a package stand by file and, within one, by position.
pub proof fn law_findings_stand_by_position(pkg: &Package, i: int, j: int)
    requires
        0 <= i < j < package_checked(pkg).diagnostics.len(),
    ensures
        ({
            let a = package_checked(pkg).diagnostics[i].primary;
            let b = package_checked(pkg).diagnostics[j].primary;
            a.file <= b.file && (a.file == b.file ==> a.lo <= b.lo)
        }),
{
    let c = checked_bodies(pkg, pkg.bodies@.len()).diagnostics;
    law_sorted(c, c.len());
    let s = sorted_diags(c, c.len());
    assert(!stands_before(s[j], s[i]));
}

proof fn lemma_empty_listed(s: SummaryView, n: nat, i: int)
    requires
        0 <= i < n <= s.never_allocates.len(),
    ensures
        empty_diags(s, n).len() == n,
        empty_diags(s, n)[i] == empty_diag(s.regions[s.never_allocates[i].0 as int]),
    decreases n,
{
    lemma_empty_len(s, (n - 1) as nat);
    if i < n - 1 {
        lemma_empty_listed(s, (n - 1) as nat, i);
    }
}

proof fn lemma_empty_len(s: SummaryView, n: nat)
    ensures
        empty_diags(s, n).len() == n,
    decreases n,
{
    if n > 0 {
        lemma_empty_len(s, (n - 1) as nat);
    }
}

/// A region that never allocates is warned of where it is introduced, unless
/// the body hands a region's base to code that may fill it, or belongs to
/// the standard library.
pub proof fn law_empty_region_is_warned(pkg: &Package, k: int, l: LoweredView, i: int)
    requires
        0 <= k < pkg.bodies@.len(),
        body_lowered(pkg, &pkg.bodies@[k]) == Some(Ok::<LoweredView, NotYetView>(l)),
        0 <= i < l.regions.never_allocates.len(),
        !exposes_region(l.cfg),
        !in_std(pkg.modules@, pkg.bodies@[k].module),
    ensures
        exists|n: int|
            0 <= n < package_checked(pkg).diagnostics.len() && (
            #[trigger] package_checked(pkg).diagnostics[n]).code == Code::W1001
                && package_checked(pkg).diagnostics[n].severity is Warning
                && package_checked(pkg).diagnostics[n].primary
                == l.regions.regions[l.regions.never_allocates[i].0 as int].span,
{
    let b = &pkg.bodies@[k];
    let before = checked_bodies(pkg, k as nat);
    let first = before.diagnostics + body_warnings(pkg, *b);
    let rest = empty_diags(l.regions, l.regions.never_allocates.len());
    let here = checked_bodies(pkg, (k + 1) as nat).diagnostics;
    let c = cfg_diags(l.cfg);
    lemma_empty_listed(l.regions, l.regions.never_allocates.len(), i);
    let d = empty_diag(l.regions.regions[l.regions.never_allocates[i].0 as int]);
    assert(here == first + (l.diags + c + rest));
    assert(here[first.len() + l.diags.len() + c.len() + i] == d);
    lemma_kept(pkg, (k + 1) as nat, pkg.bodies@.len(), d);
    lemma_listed(checked_bodies(pkg, pkg.bodies@.len()).diagnostics, d);
    let s = package_checked(pkg).diagnostics;
    let n = choose|n: int| 0 <= n < s.len() && s[n] == d;
    assert(s[n].code == Code::W1001);
}

} // verus!
