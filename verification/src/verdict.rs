//! What a checked execution can end with: the undefined-behavior rows and
//! their findings, deterministic traps, refusals, and the budget.

use vstd::prelude::*;
use vstd::string::*;

use crate::diag::{Code, DiagView, Diagnostic, Span};
use crate::facts::{bridge_views, named, named2, raw_views, FactsView, FnFacts};
use crate::text::lit;

verus! {

/// One undefined-behavior row the machine can reach.
#[derive(Debug, Clone, Copy, PartialEq, Eq, Structural)]
pub enum UbRow {
    P1,
    P2,
    P3,
    P4,
    P5,
    P6,
    L1,
    L2,
    T1,
}

pub const LICENSED_P1: &'static str = "O1: `mut` params lower to `noalias` + `dereferenceable`; unique-tag stores forward without memory checks";

pub const LICENSED_P2: &'static str = "O2: `read` params are immutable-for-the-call — loads hoist/CSE across opaque calls; `imm` data const-propagates";

pub const LICENSED_P3: &'static str = "O3a: `dereferenceable(n)` on known-size accesses; bounds-based alias disproof between distinct allocations";

pub const LICENSED_P4: &'static str = "O3b: one alias-scope domain per region — pointers into distinct regions never alias; O4: closed regions yield `invariant.load`";

pub const LICENSED_P5: &'static str = "O5: the asserted ranges get `noalias` treatment in Tier-3 code — vectorization/reordering as if proven";

pub const LICENSED_P6: &'static str = "O6: safe-tier code after the door keeps all safe-tier entitlements (O1–O4) — safe code never re-checks";

pub const LICENSED_L1: &'static str = "O7: moves lower to memcpy-and-forget; dead-store elimination on moved-from places; no zero-init of locals";

pub const LICENSED_L2: &'static str = "O8: escape analysis / stack promotion without conservatively pinning addresses";

pub const LICENSED_T1: &'static str = "O9: niche packing; match jump tables without default arms; UTF-8 fast paths without re-validation";

impl UbRow {
    pub open spec fn name_text(self) -> Seq<char> {
        match self {
            UbRow::P1 => "P1"@,
            UbRow::P2 => "P2"@,
            UbRow::P3 => "P3"@,
            UbRow::P4 => "P4"@,
            UbRow::P5 => "P5"@,
            UbRow::P6 => "P6"@,
            UbRow::L1 => "L1"@,
            UbRow::L2 => "L2"@,
            UbRow::T1 => "T1"@,
        }
    }

    /// The clause the row's rule lives at.
    pub open spec fn clause_text(self) -> Seq<char> {
        match self {
            UbRow::P1 | UbRow::P2 => "mem.prov.state"@,
            UbRow::P4 => "mem.prov.region"@,
            UbRow::P5 => "mem.unsafe.raw.2"@,
            UbRow::P6 => "mem.unsafe.door"@,
            UbRow::L2 => "mem.unsafe.raw.1"@,
            UbRow::P3 | UbRow::L1 | UbRow::T1 => "mem.ub"@,
        }
    }

    /// The licensed optimization this row's behavior would break.
    pub open spec fn licensed_text(self) -> Seq<char> {
        match self {
            UbRow::P1 => LICENSED_P1@,
            UbRow::P2 => LICENSED_P2@,
            UbRow::P3 => LICENSED_P3@,
            UbRow::P4 => LICENSED_P4@,
            UbRow::P5 => LICENSED_P5@,
            UbRow::P6 => LICENSED_P6@,
            UbRow::L1 => LICENSED_L1@,
            UbRow::L2 => LICENSED_L2@,
            UbRow::T1 => LICENSED_T1@,
        }
    }

    pub fn as_str(self) -> (r: &'static str)
        ensures
            r@ == self.name_text(),
    {
        match self {
            UbRow::P1 => "P1",
            UbRow::P2 => "P2",
            UbRow::P3 => "P3",
            UbRow::P4 => "P4",
            UbRow::P5 => "P5",
            UbRow::P6 => "P6",
            UbRow::L1 => "L1",
            UbRow::L2 => "L2",
            UbRow::T1 => "T1",
        }
    }

    /// The clause the row's rule lives at.
    pub fn clause(self) -> (r: &'static str)
        ensures
            r@ == self.clause_text(),
    {
        match self {
            UbRow::P1 | UbRow::P2 => "mem.prov.state",
            UbRow::P4 => "mem.prov.region",
            UbRow::P5 => "mem.unsafe.raw.2",
            UbRow::P6 => "mem.unsafe.door",
            UbRow::L2 => "mem.unsafe.raw.1",
            UbRow::P3 | UbRow::L1 | UbRow::T1 => "mem.ub",
        }
    }

    /// The licensed optimization this row's behavior would break.
    pub fn licensed(self) -> (r: &'static str)
        ensures
            r@ == self.licensed_text(),
    {
        match self {
            UbRow::P1 => LICENSED_P1,
            UbRow::P2 => LICENSED_P2,
            UbRow::P3 => LICENSED_P3,
            UbRow::P4 => LICENSED_P4,
            UbRow::P5 => LICENSED_P5,
            UbRow::P6 => LICENSED_P6,
            UbRow::L1 => LICENSED_L1,
            UbRow::L2 => LICENSED_L2,
            UbRow::T1 => LICENSED_T1,
        }
    }
}

/// A finding: the row, what happened, the access span, and the span that
/// created the responsible tag.
#[derive(Debug)]
pub struct UbFinding {
    pub row: UbRow,
    pub message: String,
    pub span: Span,
    pub tag_span: Span,
}

#[verifier::ext_equal]
pub struct FindingView {
    pub row: UbRow,
    pub message: Seq<char>,
    pub span: Span,
    pub tag_span: Span,
}

impl View for UbFinding {
    type V = FindingView;

    open spec fn view(&self) -> FindingView {
        FindingView {
            row: self.row,
            message: self.message@,
            span: self.span,
            tag_span: self.tag_span,
        }
    }
}

/// A deterministic fault: its kind, the clause that defines it, the site.
#[derive(Debug, Clone, Copy)]
pub struct TrapInfo {
    pub kind: &'static str,
    pub clause: &'static str,
    pub span: Span,
}

#[verifier::ext_equal]
pub struct TrapView {
    pub kind: Seq<char>,
    pub clause: Seq<char>,
    pub span: Span,
}

impl View for TrapInfo {
    type V = TrapView;

    open spec fn view(&self) -> TrapView {
        TrapView { kind: self.kind@, clause: self.clause@, span: self.span }
    }
}

/// The outcome of one checked execution.
#[derive(Debug)]
pub enum Verdict {
    Exit(u8),
    Trap(TrapInfo),
    Ub(UbFinding),
}

pub enum VerdictView {
    Exit(u8),
    Trap(TrapView),
    Ub(FindingView),
}

impl View for Verdict {
    type V = VerdictView;

    open spec fn view(&self) -> VerdictView {
        match *self {
            Verdict::Exit(c) => VerdictView::Exit(c),
            Verdict::Trap(t) => VerdictView::Trap(t@),
            Verdict::Ub(f) => VerdictView::Ub(f@),
        }
    }
}

/// A completed run: the verdict and everything the program printed.
#[derive(Debug)]
pub struct RunOutcome {
    pub verdict: Verdict,
    pub stdout: String,
    pub stderr: String,
}

#[verifier::ext_equal]
pub struct OutcomeView {
    pub verdict: VerdictView,
    pub stdout: Seq<char>,
    pub stderr: Seq<char>,
}

impl View for RunOutcome {
    type V = OutcomeView;

    open spec fn view(&self) -> OutcomeView {
        OutcomeView { verdict: self.verdict@, stdout: self.stdout@, stderr: self.stderr@ }
    }
}

/// Execution budget: steps (every expression evaluation counts one) and
/// total shadow-memory bytes. Exhaustion is a refusal, never a verdict.
#[derive(Debug, Clone, Copy)]
pub struct Budget {
    pub steps: u64,
    pub mem_bytes: u64,
}

pub const DEFAULT_STEPS: u64 = 20_000_000;

pub const DEFAULT_BYTES: u64 = 268_435_456;

impl Default for Budget {
    fn default() -> (r: Budget)
        ensures
            r.steps == DEFAULT_STEPS,
            r.mem_bytes == DEFAULT_BYTES,
    {
        Budget { steps: DEFAULT_STEPS, mem_bytes: DEFAULT_BYTES }
    }
}

/// The user-facing diagnostic of a finding.
pub open spec fn ub_diag(f: FindingView) -> DiagView {
    DiagView::error(
        Code::E1401,
        f.span,
        "undefined behavior: [mem.ub] row "@ + f.row.name_text() + " — "@ + f.message,
    ).with_label("the operation that reaches undefined behavior"@).with_secondary(
        f.tag_span,
        "the provenance this operation violates was created here"@,
    ).with_note("this row licenses "@ + f.row.licensed_text() + UB_NOTE@ + f.row.clause_text()
        + "]). The `--checked` machine reports it deterministically instead."@)
}

pub const UB_NOTE: &'static str = " — compiled code may already have been transformed under that assumption, so the behavior of an unchecked build is undefined ([";

/// Render a finding: the row, the responsible operation, and the licensed
/// optimization it would break.
pub fn ub_diagnostic(f: &UbFinding) -> (r: Diagnostic)
    ensures
        r@ == ub_diag(f@),
{
    Diagnostic::error(
        Code::E1401,
        f.span,
        lit("undefined behavior: [mem.ub] row ").concat(f.row.as_str()).concat(" — ").concat(
            f.message.as_str(),
        ),
    ).with_label(lit("the operation that reaches undefined behavior")).with_secondary(
        f.tag_span,
        lit("the provenance this operation violates was created here"),
    ).with_note(
        lit("this row licenses ").concat(f.row.licensed()).concat(UB_NOTE).concat(
            f.row.clause(),
        ).concat("]). The `--checked` machine reports it deterministically instead."),
    )
}

// --------------------------------------------------------- attribution --

/// The recorded operation's span contains the finding's.
pub open spec fn contains_span(outer: Span, inner: Span) -> bool {
    outer.file == inner.file && outer.lo <= inner.lo && inner.hi <= outer.hi
}

pub open spec fn hit_named(v: Seq<(Seq<char>, Span)>, at: Span, i: int) -> Option<(Seq<char>, Span)>
    decreases v.len() - i,
{
    if i >= v.len() {
        None
    } else if contains_span(v[i].1, at) {
        Some(v[i])
    } else {
        hit_named(v, at, i + 1)
    }
}

pub open spec fn hit_raw(v: Seq<(Seq<char>, bool, Span)>, at: Span, i: int) -> Option<
    (Seq<char>, Span),
>
    decreases v.len() - i,
{
    if i >= v.len() {
        None
    } else if contains_span(v[i].2, at) {
        Some((v[i].0, v[i].2))
    } else {
        hit_raw(v, at, i + 1)
    }
}

pub open spec fn hit_pair(v: Seq<(Seq<char>, Seq<char>, Span)>, at: Span, i: int) -> Option<
    (Seq<char>, Span),
>
    decreases v.len() - i,
{
    if i >= v.len() {
        None
    } else if contains_span(v[i].2, at) {
        Some((v[i].0, v[i].2))
    } else {
        hit_pair(v, at, i + 1)
    }
}

pub open spec fn first_of(
    a: Option<(Seq<char>, Span)>,
    b: Option<(Seq<char>, Span)>,
) -> Option<(Seq<char>, Span)> {
    match a {
        Some(x) => Some(x),
        None => b,
    }
}

/// The recorded raw-tier operation of one function that the finding falls
/// in: raw accesses first, then assumptions, doors, bridges and C calls.
pub open spec fn hit_in(f: FactsView, at: Span) -> Option<(Seq<char>, Span)> {
    first_of(
        hit_raw(f.raw_accesses, at, 0),
        first_of(
            hit_named(f.assumes, at, 0),
            first_of(
                hit_pair(f.doors, at, 0),
                first_of(hit_pair(f.exposes, at, 0), hit_named(f.c_calls, at, 0)),
            ),
        ),
    )
}

pub open spec fn attributed(facts: Seq<FnFacts>, at: Span, i: int) -> Option<(Seq<char>, Span)>
    decreases facts.len() - i,
{
    if i >= facts.len() {
        None
    } else {
        first_of(hit_in(facts[i]@, at), attributed(facts, at, i + 1))
    }
}

pub open spec fn hit_view(o: Option<(&str, Span)>) -> Option<(Seq<char>, Span)> {
    match o {
        Some((t, s)) => Some((t@, s)),
        None => None,
    }
}

fn covers(outer: Span, inner: Span) -> (r: bool)
    ensures
        r == contains_span(outer, inner),
{
    outer.file == inner.file && outer.lo <= inner.lo && inner.hi <= outer.hi
}

fn find_named<'f>(v: &'f Vec<(String, Span)>, at: Span) -> (r: Option<(&'f str, Span)>)
    ensures
        hit_view(r) == hit_named(named(v@), at, 0),
{
    let mut i: usize = 0;
    while i < v.len()
        invariant
            i <= v.len(),
            hit_named(named(v@), at, 0) == hit_named(named(v@), at, i as int),
        decreases v.len() - i,
    {
        assert(named(v@)[i as int] == (v@[i as int].0@, v@[i as int].1));
        if covers(v[i].1, at) {
            return Some((v[i].0.as_str(), v[i].1));
        }
        i = i + 1;
    }
    None
}

fn find_raw<'f>(v: &'f Vec<(String, bool, Span)>, at: Span) -> (r: Option<(&'f str, Span)>)
    ensures
        hit_view(r) == hit_raw(raw_views(v@), at, 0),
{
    let mut i: usize = 0;
    while i < v.len()
        invariant
            i <= v.len(),
            hit_raw(raw_views(v@), at, 0) == hit_raw(raw_views(v@), at, i as int),
        decreases v.len() - i,
    {
        assert(raw_views(v@)[i as int] == (v@[i as int].0@, v@[i as int].1, v@[i as int].2));
        if covers(v[i].2, at) {
            return Some((v[i].0.as_str(), v[i].2));
        }
        i = i + 1;
    }
    None
}

fn find_pair<'f>(v: &'f Vec<(String, String, Span)>, at: Span) -> (r: Option<(&'f str, Span)>)
    ensures
        hit_view(r) == hit_pair(named2(v@), at, 0),
{
    let mut i: usize = 0;
    while i < v.len()
        invariant
            i <= v.len(),
            hit_pair(named2(v@), at, 0) == hit_pair(named2(v@), at, i as int),
        decreases v.len() - i,
    {
        assert(named2(v@)[i as int] == (v@[i as int].0@, v@[i as int].1@, v@[i as int].2));
        if covers(v[i].2, at) {
            return Some((v[i].0.as_str(), v[i].2));
        }
        i = i + 1;
    }
    None
}

fn find_bridge<'f>(v: &'f Vec<(String, &'static str, Span)>, at: Span) -> (r: Option<
    (&'f str, Span),
>)
    ensures
        hit_view(r) == hit_pair(bridge_views(v@), at, 0),
{
    let mut i: usize = 0;
    while i < v.len()
        invariant
            i <= v.len(),
            hit_pair(bridge_views(v@), at, 0) == hit_pair(bridge_views(v@), at, i as int),
        decreases v.len() - i,
    {
        assert(bridge_views(v@)[i as int] == (v@[i as int].0@, v@[i as int].1@, v@[i as int].2));
        if covers(v[i].2, at) {
            return Some((v[i].0.as_str(), v[i].2));
        }
        i = i + 1;
    }
    None
}

fn find_in<'f>(f: &'f FnFacts, at: Span) -> (r: Option<(&'f str, Span)>)
    ensures
        hit_view(r) == hit_in(f@, at),
{
    if let Some(h) = find_raw(&f.raw_accesses, at) {
        return Some(h);
    }
    if let Some(h) = find_named(&f.assumes, at) {
        return Some(h);
    }
    if let Some(h) = find_pair(&f.doors, at) {
        return Some(h);
    }
    if let Some(h) = find_bridge(&f.exposes, at) {
        return Some(h);
    }
    find_named(&f.c_calls, at)
}

/// The recorded raw-tier operation whose span contains the finding's, if
/// any: the fact the verdict is attributed to.
pub fn attribute<'f>(finding: &UbFinding, facts: &'f Vec<FnFacts>) -> (r: Option<(&'f str, Span)>)
    ensures
        hit_view(r) == attributed(facts@, finding.span, 0),
{
    let mut i: usize = 0;
    while i < facts.len()
        invariant
            i <= facts.len(),
            attributed(facts@, finding.span, 0) == attributed(facts@, finding.span, i as int),
        decreases facts.len() - i,
    {
        if let Some(h) = find_in(&facts[i], finding.span) {
            return Some(h);
        }
        i = i + 1;
    }
    None
}

pub open spec fn records_named(v: Seq<(Seq<char>, Span)>, t: Seq<char>, s: Span) -> bool {
    exists|j: int| 0 <= j < v.len() && (#[trigger] v[j]).0 == t && v[j].1 == s
}

pub open spec fn records_raw(v: Seq<(Seq<char>, bool, Span)>, t: Seq<char>, s: Span) -> bool {
    exists|j: int| 0 <= j < v.len() && (#[trigger] v[j]).0 == t && v[j].2 == s
}

pub open spec fn records_pair(
    v: Seq<(Seq<char>, Seq<char>, Span)>,
    t: Seq<char>,
    s: Span,
) -> bool {
    exists|j: int| 0 <= j < v.len() && (#[trigger] v[j]).0 == t && v[j].2 == s
}

/// The function's facts record the raw-tier operation at the span.
pub open spec fn records(f: FactsView, t: Seq<char>, s: Span) -> bool {
    ||| records_raw(f.raw_accesses, t, s)
    ||| records_named(f.assumes, t, s)
    ||| records_pair(f.doors, t, s)
    ||| records_pair(f.exposes, t, s)
    ||| records_named(f.c_calls, t, s)
}

/// An attributed operation is a recorded one whose span contains the
/// finding's; nothing is attributed exactly when no recorded operation's
/// span does.
pub proof fn law_attribution_contains(facts: Seq<FnFacts>, at: Span, i: int)
    requires
        0 <= i,
    ensures
        attributed(facts, at, i) matches Some((t, s)) ==> contains_span(s, at) && exists|k: int|
            i <= k < facts.len() && records((#[trigger] facts[k])@, t, s),
        attributed(facts, at, i) is None <==> (forall|k: int, t: Seq<char>, s: Span|
            i <= k < facts.len() && #[trigger] records(facts[k]@, t, s) ==> !contains_span(s, at)),
    decreases facts.len() - i,
{
    if i < facts.len() {
        law_attribution_contains(facts, at, i + 1);
        let f = facts[i]@;
        lemma_named_contains(f.assumes, at, 0);
        lemma_named_contains(f.c_calls, at, 0);
        lemma_raw_contains(f.raw_accesses, at, 0);
        lemma_pair_contains(f.doors, at, 0);
        lemma_pair_contains(f.exposes, at, 0);
        match hit_in(f, at) {
            Some((t, s)) => {
                assert(records(facts[i]@, t, s));
            },
            None => {
                assert forall|k: int, t: Seq<char>, s: Span|
                    attributed(facts, at, i) is None && i <= k < facts.len() && #[trigger] records(
                        facts[k]@,
                        t,
                        s,
                    ) implies !contains_span(s, at) by {
                    if k == i {
                        assert(records(f, t, s));
                    }
                }
            },
        }
    }
}

proof fn lemma_named_contains(v: Seq<(Seq<char>, Span)>, at: Span, i: int)
    requires
        0 <= i,
    ensures
        hit_named(v, at, i) matches Some((t, s)) ==> contains_span(s, at) && exists|j: int|
            i <= j < v.len() && (#[trigger] v[j]).0 == t && v[j].1 == s,
        hit_named(v, at, i) is None ==> forall|j: int|
            i <= j < v.len() ==> !contains_span((#[trigger] v[j]).1, at),
    decreases v.len() - i,
{
    if i < v.len() {
        lemma_named_contains(v, at, i + 1);
        if contains_span(v[i].1, at) {
            assert(v[i].0 == v[i].0);
        }
    }
}

proof fn lemma_raw_contains(v: Seq<(Seq<char>, bool, Span)>, at: Span, i: int)
    requires
        0 <= i,
    ensures
        hit_raw(v, at, i) matches Some((t, s)) ==> contains_span(s, at) && exists|j: int|
            i <= j < v.len() && (#[trigger] v[j]).0 == t && v[j].2 == s,
        hit_raw(v, at, i) is None ==> forall|j: int|
            i <= j < v.len() ==> !contains_span((#[trigger] v[j]).2, at),
    decreases v.len() - i,
{
    if i < v.len() {
        lemma_raw_contains(v, at, i + 1);
        if contains_span(v[i].2, at) {
            assert(v[i].0 == v[i].0);
        }
    }
}

proof fn lemma_pair_contains(v: Seq<(Seq<char>, Seq<char>, Span)>, at: Span, i: int)
    requires
        0 <= i,
    ensures
        hit_pair(v, at, i) matches Some((t, s)) ==> contains_span(s, at) && exists|j: int|
            i <= j < v.len() && (#[trigger] v[j]).0 == t && v[j].2 == s,
        hit_pair(v, at, i) is None ==> forall|j: int|
            i <= j < v.len() ==> !contains_span((#[trigger] v[j]).2, at),
    decreases v.len() - i,
{
    if i < v.len() {
        lemma_pair_contains(v, at, i + 1);
        if contains_span(v[i].2, at) {
            assert(v[i].0 == v[i].0);
        }
    }
}

// -------------------------------------------------------------- failures --

/// How a host operation failed.
#[derive(Debug, Clone, Copy, PartialEq, Eq, Structural)]
pub enum HostError {
    ConnectionRefused,
    TimedOut,
    WouldBlock,
    ConnectionReset,
    ConnectionAborted,
    BrokenPipe,
    NotConnected,
    NotFound,
    PermissionDenied,
    AlreadyExists,
    CrossesDevices,
    Other,
}

/// The network row tag of a failure.
pub open spec fn net_tag(e: HostError) -> Seq<char> {
    match e {
        HostError::ConnectionRefused => "refused"@,
        HostError::TimedOut | HostError::WouldBlock => "timeout"@,
        HostError::ConnectionReset
        | HostError::ConnectionAborted
        | HostError::BrokenPipe
        | HostError::NotConnected => "closed"@,
        _ => "io"@,
    }
}

/// The network row tag of a failure.
pub fn net_err_tag(kind: HostError) -> (r: &'static str)
    ensures
        r@ == net_tag(kind),
{
    match kind {
        HostError::ConnectionRefused => "refused",
        HostError::TimedOut | HostError::WouldBlock => "timeout",
        HostError::ConnectionReset
        | HostError::ConnectionAborted
        | HostError::BrokenPipe
        | HostError::NotConnected => "closed",
        _ => "io",
    }
}

/// The file row tag of a failure.
pub open spec fn fs_tag(e: HostError) -> Seq<char> {
    match e {
        HostError::NotFound => "not_found"@,
        HostError::PermissionDenied => "denied"@,
        HostError::AlreadyExists => "exists"@,
        HostError::CrossesDevices => "cross_device"@,
        _ => "io"@,
    }
}

/// The file row tag of a failure.
pub fn fs_err_tag(kind: HostError) -> (r: &'static str)
    ensures
        r@ == fs_tag(kind),
{
    match kind {
        HostError::NotFound => "not_found",
        HostError::PermissionDenied => "denied",
        HostError::AlreadyExists => "exists",
        HostError::CrossesDevices => "cross_device",
        _ => "io",
    }
}

} // verus!
