//! Source spans and diagnostics.

use vstd::prelude::*;

verus! {

/// A half-open byte range of one source file.
#[derive(Debug, Clone, Copy, PartialEq, Eq, PartialOrd, Ord, Hash, Structural)]
pub struct Span {
    pub file: u32,
    pub lo: u32,
    pub hi: u32,
}

impl Span {
    pub fn new(file: u32, lo: u32, hi: u32) -> (r: Span)
        ensures
            r == (Span { file, lo, hi }),
    {
        Span { file, lo, hi }
    }
}

/// Diagnostic codes: `E` refuses the program, `W` advises.
#[derive(Debug, Clone, Copy, PartialEq, Eq, Structural)]
pub enum Code {
    /// Use of a moved or never-initialized place.
    E1001,
    /// Exclusivity conflict.
    E1002,
    /// Two regions would have to be one.
    E1004,
    /// Transfer or freeze of an open region.
    E1005,
    /// Strong `shared` cycle at the type level.
    E1006,
    /// Call-site mode disagrees with the declaration.
    E1007,
    /// Touch outside a declared view set.
    E1008,
    /// `mut` argument that is not a place.
    E1009,
    /// A value outlives its region.
    E1010,
    /// Nested open windows of related regions.
    E1011,
    /// Write into frozen data.
    E1012,
    /// Mutation of an iterated container.
    E1013,
    /// Write through a `read` parameter.
    E1014,
    /// Raw-tier operation outside `unsafe`.
    E1301,
    /// Raw pointer in a signature or an exported type.
    E1302,
    /// `assume noalias` of something that is no raw pointer.
    E1304,
    /// Misused `borrow .. from ..` door.
    E1305,
    /// Undefined behavior found while running.
    E1401,
    /// A region nothing is ever allocated in.
    W1001,
    /// A byte view that has to be copied.
    W1004,
    /// `unsafe` block without its invariant.
    W1301,
}

impl Code {
    /// The position of the code in the listing order (errors by number,
    /// then warnings).
    pub open spec fn rank_spec(self) -> int {
        match self {
            Code::E1001 => 1001,
            Code::E1002 => 1002,
            Code::E1004 => 1004,
            Code::E1005 => 1005,
            Code::E1006 => 1006,
            Code::E1007 => 1007,
            Code::E1008 => 1008,
            Code::E1009 => 1009,
            Code::E1010 => 1010,
            Code::E1011 => 1011,
            Code::E1012 => 1012,
            Code::E1013 => 1013,
            Code::E1014 => 1014,
            Code::E1301 => 1301,
            Code::E1302 => 1302,
            Code::E1304 => 1304,
            Code::E1305 => 1305,
            Code::E1401 => 1401,
            Code::W1001 => 11001,
            Code::W1004 => 11004,
            Code::W1301 => 11301,
        }
    }

    pub fn rank(self) -> (r: u32)
        ensures
            r == self.rank_spec(),
    {
        match self {
            Code::E1001 => 1001,
            Code::E1002 => 1002,
            Code::E1004 => 1004,
            Code::E1005 => 1005,
            Code::E1006 => 1006,
            Code::E1007 => 1007,
            Code::E1008 => 1008,
            Code::E1009 => 1009,
            Code::E1010 => 1010,
            Code::E1011 => 1011,
            Code::E1012 => 1012,
            Code::E1013 => 1013,
            Code::E1014 => 1014,
            Code::E1301 => 1301,
            Code::E1302 => 1302,
            Code::E1304 => 1304,
            Code::E1305 => 1305,
            Code::E1401 => 1401,
            Code::W1001 => 11001,
            Code::W1004 => 11004,
            Code::W1301 => 11301,
        }
    }
}

#[derive(Debug, Clone, Copy, PartialEq, Eq, Structural)]
pub enum Severity {
    Error,
    Warning,
}

/// How sure a suggested edit is.
#[derive(Debug, Clone, Copy, PartialEq, Eq, Structural)]
pub enum Applicability {
    MachineApplicable,
    Maybe,
}

/// A suggested edit: each span is replaced by its text.
#[derive(Debug, Clone)]
pub struct Suggestion {
    pub message: String,
    pub edits: Vec<(Span, String)>,
    pub applicability: Applicability,
}

#[verifier::ext_equal]
pub struct SuggestionView {
    pub message: Seq<char>,
    pub edits: Seq<(Span, Seq<char>)>,
    pub applicability: Applicability,
}

/// Texts anchored at spans, as values.
pub open spec fn anchored(v: Seq<(Span, String)>) -> Seq<(Span, Seq<char>)> {
    Seq::new(v.len(), |i: int| (v[i].0, v[i].1@))
}

/// Texts, as values.
pub open spec fn texts(v: Seq<String>) -> Seq<Seq<char>> {
    Seq::new(v.len(), |i: int| v[i]@)
}

/// An optional text, as a value.
pub open spec fn opt_text(o: Option<String>) -> Option<Seq<char>> {
    match o {
        Some(s) => Some(s@),
        None => None,
    }
}

impl View for Suggestion {
    type V = SuggestionView;

    open spec fn view(&self) -> SuggestionView {
        SuggestionView {
            message: self.message@,
            edits: anchored(self.edits@),
            applicability: self.applicability,
        }
    }
}

impl Suggestion {
    /// A suggestion of a single edit.
    pub fn one(message: String, at: Span, with: String, applicability: Applicability) -> (r: Self)
        ensures
            r@ == (SuggestionView {
                message: message@,
                edits: seq![(at, with@)],
                applicability,
            }),
    {
        let mut edits: Vec<(Span, String)> = Vec::new();
        let ghost w = with@;
        edits.push((at, with));
        assert(anchored(edits@) =~= seq![(at, w)]);
        Suggestion { message, edits, applicability }
    }
}

/// One diagnostic: what is wrong, where, and what to do about it.
#[derive(Debug, Clone)]
pub struct Diagnostic {
    pub code: Code,
    pub severity: Severity,
    pub primary: Span,
    pub message: String,
    pub label: Option<String>,
    pub secondary: Vec<(Span, String)>,
    pub notes: Vec<String>,
    pub suggestions: Vec<Suggestion>,
}

#[verifier::ext_equal]
pub struct DiagView {
    pub code: Code,
    pub severity: Severity,
    pub primary: Span,
    pub message: Seq<char>,
    pub label: Option<Seq<char>>,
    pub secondary: Seq<(Span, Seq<char>)>,
    pub notes: Seq<Seq<char>>,
    pub suggestions: Seq<SuggestionView>,
}

/// Suggestions, as values.
pub open spec fn suggestion_views(v: Seq<Suggestion>) -> Seq<SuggestionView> {
    Seq::new(v.len(), |i: int| v[i]@)
}

impl View for Diagnostic {
    type V = DiagView;

    open spec fn view(&self) -> DiagView {
        DiagView {
            code: self.code,
            severity: self.severity,
            primary: self.primary,
            message: self.message@,
            label: opt_text(self.label),
            secondary: anchored(self.secondary@),
            notes: texts(self.notes@),
            suggestions: suggestion_views(self.suggestions@),
        }
    }
}

/// Diagnostics, as values.
pub open spec fn diag_views(v: Seq<Diagnostic>) -> Seq<DiagView> {
    Seq::new(v.len(), |i: int| v[i]@)
}

pub broadcast proof fn lemma_diag_views_push(v: Seq<Diagnostic>, d: Diagnostic)
    ensures
        #[trigger] diag_views(v.push(d)) == diag_views(v).push(d@),
{
    assert(diag_views(v.push(d)) =~= diag_views(v).push(d@));
}

impl DiagView {
    pub open spec fn plain(code: Code, severity: Severity, at: Span, message: Seq<char>) -> DiagView {
        DiagView {
            code,
            severity,
            primary: at,
            message,
            label: None,
            secondary: Seq::empty(),
            notes: Seq::empty(),
            suggestions: Seq::empty(),
        }
    }

    pub open spec fn error(code: Code, at: Span, message: Seq<char>) -> DiagView {
        DiagView::plain(code, Severity::Error, at, message)
    }

    pub open spec fn warning(code: Code, at: Span, message: Seq<char>) -> DiagView {
        DiagView::plain(code, Severity::Warning, at, message)
    }

    pub open spec fn with_label(self, label: Seq<char>) -> DiagView {
        DiagView { label: Some(label), ..self }
    }

    pub open spec fn with_secondary(self, at: Span, text: Seq<char>) -> DiagView {
        DiagView { secondary: self.secondary.push((at, text)), ..self }
    }

    pub open spec fn with_note(self, note: Seq<char>) -> DiagView {
        DiagView { notes: self.notes.push(note), ..self }
    }

    pub open spec fn with_suggestion(self, s: SuggestionView) -> DiagView {
        DiagView { suggestions: self.suggestions.push(s), ..self }
    }
}

impl Diagnostic {
    fn plain(code: Code, severity: Severity, at: Span, message: String) -> (r: Diagnostic)
        ensures
            r@ == DiagView::plain(code, severity, at, message@),
    {
        let r = Diagnostic {
            code,
            severity,
            primary: at,
            message,
            label: None,
            secondary: Vec::new(),
            notes: Vec::new(),
            suggestions: Vec::new(),
        };
        assert(r@ =~= DiagView::plain(code, severity, at, message@));
        r
    }

    /// An error at `at`.
    pub fn error(code: Code, at: Span, message: String) -> (r: Diagnostic)
        ensures
            r@ == DiagView::error(code, at, message@),
    {
        Diagnostic::plain(code, Severity::Error, at, message)
    }

    /// A warning at `at`.
    pub fn warning(code: Code, at: Span, message: String) -> (r: Diagnostic)
        ensures
            r@ == DiagView::warning(code, at, message@),
    {
        Diagnostic::plain(code, Severity::Warning, at, message)
    }

    /// The span the diagnostic points at.
    pub fn span(&self) -> (r: Span)
        ensures
            r == self@.primary,
    {
        self.primary
    }

    pub fn with_label(self, label: String) -> (r: Diagnostic)
        ensures
            r@ == self@.with_label(label@),
    {
        let mut d = self;
        d.label = Some(label);
        assert(d@ =~= self@.with_label(label@));
        d
    }

    pub fn with_secondary(self, at: Span, text: String) -> (r: Diagnostic)
        ensures
            r@ == self@.with_secondary(at, text@),
    {
        let mut d = self;
        d.secondary.push((at, text));
        assert(anchored(d.secondary@) =~= anchored(self.secondary@).push((at, text@)));
        assert(d@ =~= self@.with_secondary(at, text@));
        d
    }

    pub fn with_note(self, note: String) -> (r: Diagnostic)
        ensures
            r@ == self@.with_note(note@),
    {
        let mut d = self;
        d.notes.push(note);
        assert(texts(d.notes@) =~= texts(self.notes@).push(note@));
        assert(d@ =~= self@.with_note(note@));
        d
    }

    pub fn with_suggestion(self, s: Suggestion) -> (r: Diagnostic)
        ensures
            r@ == self@.with_suggestion(s@),
    {
        let mut d = self;
        d.suggestions.push(s);
        assert(suggestion_views(d.suggestions@) =~= suggestion_views(self.suggestions@).push(s@));
        assert(d@ =~= self@.with_suggestion(s@));
        d
    }
}

/// An honest refusal: a construct this checker does not decide.
#[derive(Debug, Clone, Copy)]
pub struct NotYet {
    pub construct: &'static str,
    pub span: Span,
}

#[verifier::ext_equal]
pub struct NotYetView {
    pub construct: Seq<char>,
    pub span: Span,
}

impl View for NotYet {
    type V = NotYetView;

    open spec fn view(&self) -> NotYetView {
        NotYetView { construct: self.construct@, span: self.span }
    }
}

/// Refusals, as values.
pub open spec fn not_yet_views(v: Seq<NotYet>) -> Seq<NotYetView> {
    Seq::new(v.len(), |i: int| v[i]@)
}

} // verus!
