//! Uses of places while a body is lowered: the write checks (frozen
//! data, `read` parameters, iterated containers, view sets), the effect
//! statements a use leaves, the unsafe ring, and call-site modes.

use vstd::prelude::*;
use vstd::string::*;

use crate::cfg::{base_ok, ParamMode, Stmt, StmtView};
use crate::diag::{
    texts, Applicability, Code, DiagView, Diagnostic, Span, Suggestion, SuggestionView,
};
use crate::lowstate::{claims_in, stepped, Lowerer, LowView};
use crate::place::{Base, BaseView, PlaceId, Proj, ProjView};
use crate::text::{
    at_position, chars_of, contains_text, has_infix, join, joined, lit, skip_space, space_end,
    stands_at, str_eq, string_of,
};
use crate::types::{CallSig, ParamSig};

verus! {

// -------------------------------------------------------- write checks --

pub const FREEZE_HERE: &'static str = "the freeze happens here — the promotion to `imm` is deep and permanent";

pub const NOTE_FROZEN: &'static str = "`freeze` promotes the whole graph to `imm`: shareable from anywhere, forever, and never writable again. Build the value completely before freezing it, or keep a mutable copy (`copy`) alongside the frozen one.";

pub open spec fn frozen_write_diag(
    shown: Seq<char>,
    verb: Seq<char>,
    at: Span,
    frozen: Span,
) -> DiagView {
    DiagView::error(
        Code::E1012,
        at,
        "`"@ + shown + "` is frozen, so it cannot be "@ + verb,
    ).with_label("this needs the data to be mutable"@).with_secondary(
        frozen,
        FREEZE_HERE@,
    ).with_note(NOTE_FROZEN@)
}

pub const NOTE_READ: &'static str = "a `read` parameter is the caller's value, lent immutably [mem.tier0.mode.read]. Declare it `mut` if this function's purpose is to change it (call sites then spell the mutation), `take` it if the function consumes it, or mutate this function's own `copy`.";

pub open spec fn read_write_diag(
    shown: Seq<char>,
    verb: Seq<char>,
    at: Span,
    name: Seq<char>,
    decl: Span,
) -> DiagView {
    DiagView::error(
        Code::E1014,
        at,
        "`"@ + shown + "` is `read` for the whole call, so it cannot be "@ + verb,
    ).with_label("write through a `read` parameter"@).with_secondary(
        decl,
        "`"@ + name
            + "` is declared without a mode — that spells `read`, immutable for the call"@,
    ).with_note(NOTE_READ@)
}

pub const NOTE_ITER: &'static str = "iterating holds a read claim on the container for the loop's extent [mem.iter.excl]. Collect the changes into a second list and apply them after the loop — or use an index loop (`var i = 0` … `while i < xs.len`), whose condition re-reads the length every pass.";

pub open spec fn iter_diag(
    shown: Seq<char>,
    verb: Seq<char>,
    at: Span,
    container: Seq<char>,
    head: Span,
) -> DiagView {
    DiagView::error(
        Code::E1013,
        at,
        "`"@ + shown + "` is being iterated, so it cannot be "@ + verb,
    ).with_label("the container changes under the loop"@).with_secondary(
        head,
        "the `for` loop holds `"@ + container + "` from here, for its whole extent"@,
    ).with_note(NOTE_ITER@)
}

pub const NOTE_VIEW: &'static str = "callers rely on the view: they may use the other fields while this method runs. Add the field to the view set, or take plain `mut self`.";

pub open spec fn view_diag(
    shown: Seq<char>,
    at: Span,
    fields: Seq<Seq<char>>,
    decl: Span,
) -> DiagView {
    DiagView::error(
        Code::E1008,
        at,
        "this method declares a view of `self.{"@ + joined(fields, ", "@) + "}`, but touches `"@
            + shown + "`"@,
    ).with_label("outside the declared view"@).with_secondary(
        decl,
        "the view set is declared here"@,
    ).with_note(NOTE_VIEW@)
}

impl<'t> LowView<'t> {
    /// A write reaching frozen data.
    pub open spec fn check_frozen_write(self, place: PlaceId, at: Span, verb: Seq<char>) -> LowView<
        't,
    > {
        match self.frozen_at(place) {
            Some(f) => self.conflict().report(
                frozen_write_diag(self.shown(place), verb, at, f),
            ),
            None => self,
        }
    }

    /// A write reaching a `read`-mode parameter, projections included.
    pub open spec fn check_read_param(self, place: PlaceId, at: Span, verb: Seq<char>) -> LowView<
        't,
    > {
        match self.places.at(place).base {
            BaseView::Local(l) => {
                let p = self.locals[l as int];
                if p.param_mode == Some(None::<ParamMode>) {
                    self.report(read_write_diag(self.shown(place), verb, at, p.name, p.span))
                } else {
                    self
                }
            },
            BaseView::Global(..) => self,
        }
    }

    /// The innermost of the first `n` claims that the place touches.
    pub open spec fn claim_hit(self, place: PlaceId, n: nat) -> Option<(PlaceId, Span)>
        decreases n,
    {
        if n == 0 {
            None
        } else if self.places.overlaps(self.claims[n - 1].0, place) {
            Some(self.claims[n - 1])
        } else {
            self.claim_hit(place, (n - 1) as nat)
        }
    }

    /// A mutating use of a place an enclosing `for` iterates.
    pub open spec fn check_iter_claim(self, place: PlaceId, at: Span, verb: Seq<char>) -> LowView<
        't,
    > {
        match self.claim_hit(place, self.claims.len()) {
            Some((c, head)) => self.report(
                iter_diag(self.shown(place), verb, at, self.shown(c), head),
            ),
            None => self,
        }
    }

    /// The place lies outside the declared view of `self`.
    pub open spec fn outside_view(self, place: PlaceId) -> bool {
        match self.view_set {
            None => false,
            Some((l, fields, _)) => {
                let p = self.places.at(place);
                p.base == BaseView::Local(l.0) && (p.proj.len() == 0 || match p.proj[0] {
                    ProjView::Field(f) => !fields.contains(f),
                    ProjView::Opaque => true,
                })
            },
        }
    }

    /// Inside `fn m(mut self.{x, y})` every touch of `self` stays inside
    /// the view.
    pub open spec fn check_view(self, place: PlaceId, at: Span) -> LowView<'t> {
        if self.outside_view(place) {
            self.report(
                view_diag(self.shown(place), at, (self.view_set->0).1, (self.view_set->0).2),
            )
        } else {
            self
        }
    }
}

fn text_in(v: &Vec<String>, s: &str) -> (r: bool)
    ensures
        r == texts(v@).contains(s@),
{
    let mut i: usize = 0;
    while i < v.len()
        invariant
            i <= v.len(),
            forall|k: int| 0 <= k < i ==> texts(v@)[k] != s@,
        decreases v.len() - i,
    {
        assert(texts(v@)[i as int] == v@[i as int]@);
        if str_eq(v[i].as_str(), s) {
            return true;
        }
        i = i + 1;
    }
    false
}

impl<'t> Lowerer<'t> {
    pub fn check_frozen_write(&mut self, place: PlaceId, at: Span, verb: &str)
        requires
            old(self).inv(),
            old(self)@.places.has(place),
        ensures
            stepped(*old(self), *final(self)),
            final(self)@ == old(self)@.check_frozen_write(place, at, verb@),
    {
        if let Some(f) = self.frozen_at(place) {
            let shown = self.show_place_now(place);
            self.conflict();
            self.report(
                Diagnostic::error(
                    Code::E1012,
                    at,
                    lit("`").concat(shown.as_str()).concat(
                        "` is frozen, so it cannot be ",
                    ).concat(verb),
                ).with_label(lit("this needs the data to be mutable")).with_secondary(
                    f,
                    lit(FREEZE_HERE),
                ).with_note(lit(NOTE_FROZEN)),
            );
        }
    }

    pub fn check_read_param(&mut self, place: PlaceId, at: Span, verb: &str)
        requires
            old(self).inv(),
            old(self)@.places.has(place),
        ensures
            stepped(*old(self), *final(self)),
            final(self)@ == old(self)@.check_read_param(place, at, verb@),
    {
        assert(base_ok(self@.places.places[place.0 as int].base, self@.locals.len()));
        let base = self.places.get(place).base.duplicate();
        if let Base::Local(l) = base {
            let li: usize = l as usize;
            assert(self@.locals[l as int] == self.locals@[l as int]@);
            let reads = match self.locals[li].param_mode {
                Some(None) => true,
                _ => false,
            };
            if reads {
                let name = self.locals[li].name.clone();
                let decl = self.locals[li].span;
                let shown = self.show_place_now(place);
                self.report(
                    Diagnostic::error(
                        Code::E1014,
                        at,
                        lit("`").concat(shown.as_str()).concat(
                            "` is `read` for the whole call, so it cannot be ",
                        ).concat(verb),
                    ).with_label(lit("write through a `read` parameter")).with_secondary(
                        decl,
                        lit("`").concat(name.as_str()).concat(
                            "` is declared without a mode — that spells `read`, immutable for the call",
                        ),
                    ).with_note(lit(NOTE_READ)),
                );
            }
        }
    }

    /// Answers whether it reported.
    pub fn check_iter_claim(&mut self, place: PlaceId, at: Span, verb: &str) -> (reported: bool)
        requires
            old(self).inv(),
            old(self)@.places.has(place),
        ensures
            stepped(*old(self), *final(self)),
            final(self)@ == old(self)@.check_iter_claim(place, at, verb@),
            reported == (old(self)@.claim_hit(place, old(self)@.claims.len()) is Some),
    {
        let ghost st = self@;
        let mut i: usize = self.claims.len();
        while i > 0
            invariant
                i <= self.claims.len(),
                *self == *old(self),
                self@ == st,
                old(self).inv(),
                st.places.has(place),
                st.claim_hit(place, st.claims.len()) == st.claim_hit(place, i as nat),
            decreases i,
        {
            let (c, head) = self.claims[i - 1];
            proof {
                reveal(claims_in);
                assert(st.places.has(st.claims[i - 1].0));
            }
            if self.places.overlap(c, place) {
                let shown = self.show_place_now(place);
                let container = self.show_place_now(c);
                self.report(
                    Diagnostic::error(
                        Code::E1013,
                        at,
                        lit("`").concat(shown.as_str()).concat(
                            "` is being iterated, so it cannot be ",
                        ).concat(verb),
                    ).with_label(lit("the container changes under the loop")).with_secondary(
                        head,
                        lit("the `for` loop holds `").concat(container.as_str()).concat(
                            "` from here, for its whole extent",
                        ),
                    ).with_note(lit(NOTE_ITER)),
                );
                return true;
            }
            i = i - 1;
        }
        false
    }

    fn outside_view(&self, place: PlaceId) -> (r: bool)
        requires
            self@.graph_ok(),
            self@.places.has(place),
        ensures
            r == self@.outside_view(place),
    {
        match &self.view_set {
            None => false,
            Some((l, fields, _)) => {
                let p = self.places.get(place);
                let on_self = match &p.base {
                    Base::Local(b) => *b == l.0,
                    Base::Global(..) => false,
                };
                if !on_self {
                    return false;
                }
                if p.proj.len() == 0 {
                    return true;
                }
                assert(p@.proj[0] == p.proj@[0]@);
                match &p.proj[0] {
                    Proj::Field(f) => !text_in(fields, f.as_str()),
                    Proj::Opaque => true,
                }
            },
        }
    }

    pub fn check_view(&mut self, place: PlaceId, at: Span)
        requires
            old(self).inv(),
            old(self)@.places.has(place),
        ensures
            stepped(*old(self), *final(self)),
            final(self)@ == old(self)@.check_view(place, at),
    {
        if self.outside_view(place) {
            let shown = self.show_place_now(place);
            let (list, decl) = match &self.view_set {
                Some((_, fields, decl)) => (join(fields, ", "), *decl),
                None => (lit(""), at),
            };
            self.report(
                Diagnostic::error(
                    Code::E1008,
                    at,
                    lit("this method declares a view of `self.{").concat(list.as_str()).concat(
                        "}`, but touches `",
                    ).concat(shown.as_str()).concat("`"),
                ).with_label(lit("outside the declared view")).with_secondary(
                    decl,
                    lit("the view set is declared here"),
                ).with_note(lit(NOTE_VIEW)),
            );
        }
    }
}

// ----------------------------------------------------------- place uses --

impl<'t> LowView<'t> {
    pub open spec fn emit_read(self, place: PlaceId, at: Span) -> LowView<'t> {
        self.check_view(place, at).push(StmtView::Read { place, span: at })
    }

    /// A consuming use. Module state is never move-tracked; a move of an
    /// iterated container recovers as a read; a region value moves only
    /// closed, and its free is no longer this frame's.
    pub open spec fn emit_move(self, place: PlaceId, at: Span) -> LowView<'t> {
        let st = self.check_view(place, at);
        if st.places.at(place).base is Global {
            st.push(StmtView::Read { place, span: at })
        } else if st.claim_hit(place, st.claims.len()) is Some {
            st.check_iter_claim(place, at, "moved away"@).push(StmtView::Read { place, span: at })
        } else {
            let next = match st.place_region(place) {
                Some(rid) => st.check_transfer(rid, at).set_moved(rid),
                None => st,
            };
            next.push(StmtView::Move { place, span: at })
        }
    }

    /// A (re)initialization. A projected one writes *into* the value.
    pub open spec fn emit_init(self, place: PlaceId, at: Span) -> LowView<'t> {
        let projected = self.places.at(place).proj.len() > 0;
        let verb = if projected {
            "assigned through"@
        } else {
            "assigned"@
        };
        let st = self.check_view(place, at);
        let st1 = if projected {
            st.check_frozen_write(place, at, "assigned through"@)
        } else {
            st
        };
        st1.check_read_param(place, at, verb).check_iter_claim(place, at, "assigned"@).push(
            StmtView::Init { place, span: at },
        )
    }

    pub open spec fn emit_mutate(self, place: PlaceId, at: Span) -> LowView<'t> {
        self.check_view(place, at).check_frozen_write(place, at, "modified"@).check_read_param(
            place,
            at,
            "modified"@,
        ).check_iter_claim(place, at, "modified"@).push(StmtView::Mutate { place, span: at })
    }

    /// Use a place in value position: `Copy` copies, otherwise the value
    /// moves out (`[mem.tier0.move.1]`).
    pub open spec fn use_value(self, place: PlaceId, at: Span) -> LowView<'t> {
        if self.places.copies(place) {
            self.emit_read(place, at)
        } else {
            self.emit_move(place, at)
        }
    }

    /// Lending a region value `mut` while its window is open is the same
    /// pin as moving it.
    pub open spec fn check_region_lend(self, place: PlaceId, at: Span) -> LowView<'t> {
        match self.place_region(place) {
            Some(rid) => self.check_transfer(rid, at),
            None => self,
        }
    }
}

impl<'t> Lowerer<'t> {
    pub fn emit_read(&mut self, place: PlaceId, at: Span)
        requires
            old(self).inv(),
            old(self)@.places.has(place),
        ensures
            stepped(*old(self), *final(self)),
            final(self)@ == old(self)@.emit_read(place, at),
    {
        self.check_view(place, at);
        self.push(Stmt::Read { place, span: at });
    }

    pub fn emit_move(&mut self, place: PlaceId, at: Span)
        requires
            old(self).inv(),
            old(self)@.places.has(place),
        ensures
            stepped(*old(self), *final(self)),
            final(self)@ == old(self)@.emit_move(place, at),
    {
        self.check_view(place, at);
        let global = match &self.places.get(place).base {
            Base::Global(..) => true,
            Base::Local(_) => false,
        };
        if global {
            self.push(Stmt::Read { place, span: at });
            return;
        }
        if self.check_iter_claim(place, at, "moved away") {
            self.push(Stmt::Read { place, span: at });
            return;
        }
        if let Some(rid) = self.place_region(place) {
            let _ = self.check_transfer_closed(rid, at);
            self.set_moved(rid);
        }
        self.push(Stmt::Move { place, span: at });
    }

    pub fn emit_init(&mut self, place: PlaceId, at: Span)
        requires
            old(self).inv(),
            old(self)@.places.has(place),
        ensures
            stepped(*old(self), *final(self)),
            final(self)@ == old(self)@.emit_init(place, at),
    {
        let projected = self.places.get(place).proj.len() > 0;
        self.check_view(place, at);
        if projected {
            self.check_frozen_write(place, at, "assigned through");
        }
        let verb = if projected { "assigned through" } else { "assigned" };
        self.check_read_param(place, at, verb);
        let _ = self.check_iter_claim(place, at, "assigned");
        self.push(Stmt::Init { place, span: at });
    }

    pub fn emit_mutate(&mut self, place: PlaceId, at: Span)
        requires
            old(self).inv(),
            old(self)@.places.has(place),
        ensures
            stepped(*old(self), *final(self)),
            final(self)@ == old(self)@.emit_mutate(place, at),
    {
        self.check_view(place, at);
        self.check_frozen_write(place, at, "modified");
        self.check_read_param(place, at, "modified");
        let _ = self.check_iter_claim(place, at, "modified");
        self.push(Stmt::Mutate { place, span: at });
    }

    pub fn use_value(&mut self, place: PlaceId, at: Span)
        requires
            old(self).inv(),
            old(self)@.places.has(place),
        ensures
            stepped(*old(self), *final(self)),
            final(self)@ == old(self)@.use_value(place, at),
    {
        if self.places.is_copy(place) {
            self.emit_read(place, at);
        } else {
            self.emit_move(place, at);
        }
    }

    pub fn check_region_lend(&mut self, place: PlaceId, at: Span)
        requires
            old(self).inv(),
            old(self)@.places.has(place),
        ensures
            stepped(*old(self), *final(self)),
            final(self)@ == old(self)@.check_region_lend(place, at),
    {
        if let Some(rid) = self.place_region(place) {
            let _ = self.check_transfer_closed(rid, at);
        }
    }
}

// ------------------------------------------------- copy reads in a call --

pub open spec fn copy_read_diag(
    a: Seq<char>,
    b: Seq<char>,
    inside: bool,
    at: Span,
    mut_at: Span,
) -> DiagView {
    let relation = if inside {
        "`"@ + b + "` is inside `"@ + a
            + "` — a path and its prefix conflict [mem.model.path.disjoint]."@
    } else {
        "`"@ + a + "` and `"@ + b + "` can reach the same memory."@
    };
    DiagView::error(
        Code::E1002,
        at,
        "`"@ + b + "` is read for this call after `"@ + a + "` goes `mut` in it"@,
    ).with_label("read of a place being mutated"@).with_secondary(
        mut_at,
        "`"@ + a + "` is passed `mut` here"@,
    ).with_note(
        relation + " Read the value into a local before the call, or pass disjoint fields."@,
    )
}

impl<'t> LowView<'t> {
    /// A `Copy` read overlapping an EARLIER `mut` argument of the same
    /// call: the first such claim is reported.
    pub open spec fn check_copy_read(
        self,
        place: PlaceId,
        at: Span,
        muts: Seq<(PlaceId, Span)>,
        i: int,
    ) -> LowView<'t>
        decreases muts.len() - i,
    {
        if i >= muts.len() {
            self
        } else if self.places.overlaps(muts[i].0, place) {
            self.report(
                copy_read_diag(
                    self.shown(muts[i].0),
                    self.shown(place),
                    self.places.is_prefix_of(muts[i].0, place),
                    at,
                    muts[i].1,
                ),
            )
        } else {
            self.check_copy_read(place, at, muts, i + 1)
        }
    }
}

impl<'t> Lowerer<'t> {
    pub fn check_copy_read(&mut self, place: PlaceId, at: Span, muts: &Vec<(PlaceId, Span)>)
        requires
            old(self).inv(),
            old(self)@.places.has(place),
            claims_in(muts@, old(self)@.places),
        ensures
            stepped(*old(self), *final(self)),
            final(self)@ == old(self)@.check_copy_read(place, at, muts@, 0),
    {
        let ghost st = self@;
        let mut i: usize = 0;
        while i < muts.len()
            invariant
                i <= muts.len(),
                *self == *old(self),
                self@ == st,
                old(self).inv(),
                st.places.has(place),
                claims_in(muts@, st.places),
                st.check_copy_read(place, at, muts@, 0) == st.check_copy_read(
                    place,
                    at,
                    muts@,
                    i as int,
                ),
            decreases muts.len() - i,
        {
            let (m, mspan) = muts[i];
            proof {
                reveal(claims_in);
                assert(st.places.has(muts@[i as int].0));
            }
            if self.places.overlap(m, place) {
                let a = self.show_place_now(m);
                let b = self.show_place_now(place);
                let relation = if self.places.covers(m, place) {
                    lit("`").concat(b.as_str()).concat("` is inside `").concat(a.as_str()).concat(
                        "` — a path and its prefix conflict [mem.model.path.disjoint].",
                    )
                } else {
                    lit("`").concat(a.as_str()).concat("` and `").concat(b.as_str()).concat(
                        "` can reach the same memory.",
                    )
                };
                self.report(
                    Diagnostic::error(
                        Code::E1002,
                        at,
                        lit("`").concat(b.as_str()).concat(
                            "` is read for this call after `",
                        ).concat(a.as_str()).concat("` goes `mut` in it"),
                    ).with_label(lit("read of a place being mutated")).with_secondary(
                        mspan,
                        lit("`").concat(a.as_str()).concat("` is passed `mut` here"),
                    ).with_note(
                        relation.concat(
                            " Read the value into a local before the call, or pass disjoint fields.",
                        ),
                    ),
                );
                return;
            }
            i = i + 1;
        }
    }
}

// ------------------------------------------------------- the unsafe ring --

pub const NOTE_RING: &'static str = "raw pointers are inert data anywhere — only the tier's operations need the ring. Wrap this in `unsafe { }` and state the invariant in a `# Safety:` comment; the rules inside are simpler than the safe tier's, not stricter.";

pub open spec fn ring_diag(what: Seq<char>, at: Span) -> DiagView {
    DiagView::error(Code::E1301, at, what + " needs an `unsafe` block"@).with_label(
        "raw-tier operation in safe code"@,
    ).with_note(NOTE_RING@)
}

pub const NOTE_DOOR: &'static str = "door 1 asserts \"this pointer addresses that region's live allocation\" — it needs the region on the left and the raw pointer on the right. The other door is a checked `handle`, which re-validates its generation at every access.";

pub open spec fn door_diag(at: Span, wanted: Seq<char>, got: Seq<char>) -> DiagView {
    DiagView::error(
        Code::E1305,
        at,
        "`borrow … from …` needs "@ + wanted + " here, but this is `"@ + got + "`"@,
    ).with_label("the door's claim has nothing to check against"@).with_note(NOTE_DOOR@)
}

pub const NOTE_SAFETY: &'static str = "the block discharges a proof obligation the checker cannot; write the invariant down for the auditors who will read this ring (`// # Safety: …` above the block).";

pub open spec fn safety_diag(at: Span) -> DiagView {
    DiagView::warning(
        Code::W1301,
        at,
        "this `unsafe` block does not state its invariant"@,
    ).with_label("add a `# Safety:` comment"@).with_note(NOTE_SAFETY@)
}

pub const NOTE_TEMPORARY: &'static str = "the callee's writes would vanish with the temporary. Bind the value first: `var t = …`, then pass `mut t`.";

pub open spec fn needs_place_diag(at: Span) -> DiagView {
    DiagView::error(
        Code::E1009,
        at,
        "a `mut` argument must name a place — a variable or a field path"@,
    ).with_label("this is a temporary value"@).with_note(NOTE_TEMPORARY@)
}

/// The line without its leading spaces.
pub open spec fn unindented(line: Seq<char>) -> Seq<char> {
    line.subrange(space_end(line, 0), line.len() as int)
}

pub open spec fn is_comment(line: Seq<char>) -> bool {
    stands_at(unindented(line), "//"@, 0)
}

/// Among the contiguous comment lines right above line `n`, one states
/// the invariant.
pub open spec fn stated_above(lines: Seq<String>, n: nat) -> bool
    decreases n,
{
    n > 0 && n <= lines.len() && is_comment(lines[n - 1]@) && (has_infix(
        lines[n - 1]@,
        "# Safety"@,
    ) || stated_above(lines, (n - 1) as nat))
}

/// The keyword of an `unsafe` block.
pub open spec fn unsafe_word(s: Span) -> Span {
    Span {
        file: s.file,
        lo: s.lo,
        hi: if s.lo + 6 <= s.hi {
            (s.lo + 6) as u32
        } else {
            s.hi
        },
    }
}

/// The closing-brace span of a braced construct.
pub open spec fn closing(s: Span) -> Span {
    Span { file: s.file, lo: if s.hi == 0 { 0 } else { (s.hi - 1) as u32 }, hi: s.hi }
}

/// The closing-brace span of a braced construct.
pub fn end_span(s: Span) -> (r: Span)
    ensures
        r == closing(s),
{
    Span::new(s.file, if s.hi == 0 { 0 } else { s.hi - 1 }, s.hi)
}

pub fn unsafe_kw(s: Span) -> (r: Span)
    ensures
        r == unsafe_word(s),
{
    let end: u64 = s.lo as u64 + 6;
    let hi: u32 = if end <= s.hi as u64 {
        end as u32
    } else {
        s.hi
    };
    Span::new(s.file, s.lo, hi)
}

impl<'t> LowView<'t> {
    pub open spec fn require_unsafe(self, what: Seq<char>, at: Span) -> LowView<'t> {
        if self.in_unsafe {
            self
        } else {
            self.report(ring_diag(what, at))
        }
    }

    /// An `unsafe` block should state the invariant it maintains, inside
    /// it or in the comment lines right above.
    pub open spec fn lint_safety(self, lines: Seq<String>, text: Seq<char>, line: nat, at: Span) -> LowView<
        't,
    > {
        if has_infix(text, "# Safety"@) || stated_above(lines, line) {
            self
        } else {
            self.report(safety_diag(unsafe_word(at)))
        }
    }
}

fn line_is_comment(line: &str) -> (r: bool)
    ensures
        r == is_comment(line@),
{
    let cs = chars_of(line);
    let k = skip_space(&cs, 0);
    let rest = string_of(&cs, k, cs.len());
    let rc = chars_of(rest.as_str());
    let slashes = chars_of("//");
    at_position(&rc, &slashes, 0)
}

fn comment_above(lines: &Vec<String>, line: u32) -> (r: bool)
    ensures
        r == stated_above(lines@, line as nat),
{
    let mut n: u32 = line;
    while n > 0
        invariant
            stated_above(lines@, line as nat) == stated_above(lines@, n as nat),
        decreases n,
    {
        if n as usize > lines.len() {
            return false;
        }
        let l = lines[n as usize - 1].as_str();
        if !line_is_comment(l) {
            return false;
        }
        if contains_text(l, "# Safety") {
            return true;
        }
        n = n - 1;
    }
    false
}

impl<'t> Lowerer<'t> {
    pub fn require_unsafe(&mut self, what: &str, at: Span)
        requires
            old(self).inv(),
        ensures
            stepped(*old(self), *final(self)),
            final(self)@ == old(self)@.require_unsafe(what@, at),
    {
        if !self.in_unsafe {
            self.report(
                Diagnostic::error(
                    Code::E1301,
                    at,
                    lit(what).concat(" needs an `unsafe` block"),
                ).with_label(lit("raw-tier operation in safe code")).with_note(lit(NOTE_RING)),
            );
        }
    }

    pub fn lint_safety(&mut self, text: &str, line: u32, at: Span)
        requires
            old(self).inv(),
        ensures
            stepped(*old(self), *final(self)),
            final(self)@ == old(self)@.lint_safety(old(self).cx.lines@, text@, line as nat, at),
    {
        if contains_text(text, "# Safety") || comment_above(self.cx.lines, line) {
            return;
        }
        self.report(
            Diagnostic::warning(
                Code::W1301,
                unsafe_kw(at),
                lit("this `unsafe` block does not state its invariant"),
            ).with_label(lit("add a `# Safety:` comment")).with_note(lit(NOTE_SAFETY)),
        );
    }

    pub fn door_misuse(&mut self, at: Span, wanted: &str, got: &str)
        requires
            old(self).inv(),
        ensures
            stepped(*old(self), *final(self)),
            final(self)@ == old(self)@.report(door_diag(at, wanted@, got@)),
    {
        self.report(
            Diagnostic::error(
                Code::E1305,
                at,
                lit("`borrow … from …` needs ").concat(wanted).concat(
                    " here, but this is `",
                ).concat(got).concat("`"),
            ).with_label(lit("the door's claim has nothing to check against")).with_note(
                lit(NOTE_DOOR),
            ),
        );
    }

    pub fn mut_needs_place(&mut self, at: Span)
        requires
            old(self).inv(),
        ensures
            stepped(*old(self), *final(self)),
            final(self)@ == old(self)@.report(needs_place_diag(at)),
    {
        self.report(
            Diagnostic::error(
                Code::E1009,
                at,
                lit("a `mut` argument must name a place — a variable or a field path"),
            ).with_label(lit("this is a temporary value")).with_note(lit(NOTE_TEMPORARY)),
        );
    }
}

// ------------------------------------------------------ call-site modes --

pub open spec fn mode_word(m: ParamMode) -> Seq<char> {
    match m {
        ParamMode::Mut => "mut"@,
        ParamMode::Take => "take"@,
    }
}

fn word_of(m: ParamMode) -> (r: &'static str)
    ensures
        r@ == mode_word(m),
{
    match m {
        ParamMode::Mut => "mut",
        ParamMode::Take => "take",
    }
}

pub open spec fn param_text(p: ParamSig) -> Seq<char> {
    if p.name@.len() == 0 {
        "this parameter"@
    } else {
        "`"@ + p.name@ + "`"@
    }
}

pub open spec fn mode_message(
    cs: CallSig,
    p: ParamSig,
    site: Option<ParamMode>,
    declared: Option<ParamMode>,
) -> Seq<char> {
    match (site, declared) {
        (None, Some(m)) => "`"@ + cs.callee@ + "` declares "@ + param_text(p) + " as `"@
            + mode_word(m) + "`, but the call site does not say so"@,
        (Some(_), None) => if cs.ctor {
            "`"@ + cs.callee@ + "` builds a value: its arguments carry no call-site mode"@
        } else {
            "`"@ + cs.callee@ + "` takes "@ + param_text(p)
                + " as plain `read` — no mode is written for it"@
        },
        (Some(s), Some(d)) => "`"@ + cs.callee@ + "` declares "@ + param_text(p) + " as `"@
            + mode_word(d) + "`, but the call site says `"@ + mode_word(s) + "`"@,
        (None, None) => ""@,
    }
}

pub open spec fn one_edit(message: Seq<char>, at: Span, with: Seq<char>) -> SuggestionView {
    SuggestionView {
        message,
        edits: seq![(at, with)],
        applicability: Applicability::MachineApplicable,
    }
}

pub open spec fn mode_fix(
    v: Span,
    token: Option<Span>,
    site: Option<ParamMode>,
    declared: Option<ParamMode>,
) -> Option<SuggestionView> {
    match (site, declared) {
        (None, Some(m)) => Some(
            one_edit(
                "write the argument's mode: `"@ + mode_word(m) + " …`"@,
                Span { file: v.file, lo: v.lo, hi: v.lo },
                mode_word(m) + " "@,
            ),
        ),
        (Some(m), None) => match token {
            Some(ts) => Some(
                one_edit(
                    "remove the `"@ + mode_word(m) + "`"@,
                    Span { file: ts.file, lo: ts.lo, hi: v.lo },
                    ""@,
                ),
            ),
            None => None,
        },
        (Some(_), Some(d)) => match token {
            Some(ts) => Some(one_edit("write `"@ + mode_word(d) + "`"@, ts, mode_word(d))),
            None => None,
        },
        (None, None) => None,
    }
}

pub open spec fn mode_diag(
    cs: CallSig,
    p: ParamSig,
    v: Span,
    token: Option<Span>,
    site: Option<ParamMode>,
    declared: Option<ParamMode>,
) -> DiagView {
    let decl = if p.name@.len() == 0 && cs.decl_span is Some {
        cs.decl_span->0
    } else {
        p.span
    };
    let d = DiagView::error(Code::E1007, v, mode_message(cs, p, site, declared)).with_label(
        "this argument"@,
    ).with_secondary(decl, "the parameter is declared here"@);
    match mode_fix(v, token, site, declared) {
        Some(s) => d.with_suggestion(s),
        None => d,
    }
}

impl<'t> LowView<'t> {
    /// Call-site mode agreement: the argument's spelling must equal the
    /// parameter's declaration.
    pub open spec fn check_mode(
        self,
        cs: CallSig,
        p: ParamSig,
        v: Span,
        token: Option<Span>,
        site: Option<ParamMode>,
        declared: Option<ParamMode>,
    ) -> LowView<'t> {
        if site == declared {
            self
        } else {
            self.report(mode_diag(cs, p, v, token, site, declared))
        }
    }
}

/// A call site that spells the declared mode is never reported.
pub proof fn law_agreeing_mode_accepted(
    st: LowView<'_>,
    cs: CallSig,
    p: ParamSig,
    v: Span,
    token: Option<Span>,
    mode: Option<ParamMode>,
)
    ensures
        st.check_mode(cs, p, v, token, mode, mode) == st,
{
}

impl<'t> Lowerer<'t> {
    pub fn mode_mismatch(
        &mut self,
        cs: &CallSig,
        p: &ParamSig,
        v: Span,
        token: Option<Span>,
        site: Option<ParamMode>,
        declared: Option<ParamMode>,
    )
        requires
            old(self).inv(),
        ensures
            stepped(*old(self), *final(self)),
            final(self)@ == old(self)@.check_mode(*cs, *p, v, token, site, declared),
    {
        let pname = if p.name.as_str().is_empty() {
            lit("this parameter")
        } else {
            lit("`").concat(p.name.as_str()).concat("`")
        };
        let callee = cs.callee.as_str();
        let (message, fix) = match (site, declared) {
            (None, Some(m)) => (
                lit("`").concat(callee).concat("` declares ").concat(pname.as_str()).concat(
                    " as `",
                ).concat(word_of(m)).concat("`, but the call site does not say so"),
                Some(
                    Suggestion::one(
                        lit("write the argument's mode: `").concat(word_of(m)).concat(" …`"),
                        Span::new(v.file, v.lo, v.lo),
                        lit(word_of(m)).concat(" "),
                        Applicability::MachineApplicable,
                    ),
                ),
            ),
            (Some(m), None) => (
                if cs.ctor {
                    lit("`").concat(callee).concat(
                        "` builds a value: its arguments carry no call-site mode",
                    )
                } else {
                    lit("`").concat(callee).concat("` takes ").concat(pname.as_str()).concat(
                        " as plain `read` — no mode is written for it",
                    )
                },
                match token {
                    Some(ts) => Some(
                        Suggestion::one(
                            lit("remove the `").concat(word_of(m)).concat("`"),
                            Span::new(ts.file, ts.lo, v.lo),
                            lit(""),
                            Applicability::MachineApplicable,
                        ),
                    ),
                    None => None,
                },
            ),
            (Some(s), Some(d)) => {
                if s == d {
                    return;
                }
                (
                    lit("`").concat(callee).concat("` declares ").concat(pname.as_str()).concat(
                        " as `",
                    ).concat(word_of(d)).concat("`, but the call site says `").concat(
                        word_of(s),
                    ).concat("`"),
                    match token {
                        Some(ts) => Some(
                            Suggestion::one(
                                lit("write `").concat(word_of(d)).concat("`"),
                                ts,
                                lit(word_of(d)),
                                Applicability::MachineApplicable,
                            ),
                        ),
                        None => None,
                    },
                )
            },
            (None, None) => {
                return;
            },
        };
        let decl = if p.name.as_str().is_empty() {
            match cs.decl_span {
                Some(d) => d,
                None => p.span,
            }
        } else {
            p.span
        };
        let d = Diagnostic::error(Code::E1007, v, message).with_label(
            lit("this argument"),
        ).with_secondary(decl, lit("the parameter is declared here"));
        let d2 = match fix {
            Some(s) => d.with_suggestion(s),
            None => d,
        };
        self.report(d2);
    }
}

} // verus!
