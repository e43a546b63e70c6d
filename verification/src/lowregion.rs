//! Allocation sites and the region checker: which region an allocation
//! belongs to, where its value may flow, and what opening, transferring
//! and freezing a region demand.

use vstd::prelude::*;
use vstd::string::*;

use crate::cfg::{base_ok, AllocSite, RegionId, SiteId, SiteKind, SiteView, Stmt, StmtView};
use crate::diag::{Code, DiagView, Diagnostic, Span};
use crate::lowstate::{
    cells_in, hold_in, holds_in, regions_in, sites_in, stepped, Lowerer, LowView, Val, ValView,
};
use crate::place::{Base, BaseView, PlaceId};
use crate::regions::{opt_str, Binding, Unify};
use crate::text::{lit, str_eq};

verus! {

/// The least index from `i` on at which a later site stands.
pub open spec fn hold_slot(h: Seq<(SiteId, Span)>, x: SiteId, i: int) -> int
    decreases h.len() - i,
{
    if i >= h.len() || h[i].0.0 > x.0 {
        i
    } else {
        hold_slot(h, x, i + 1)
    }
}

pub open spec fn holds_site(h: Seq<(SiteId, Span)>, x: SiteId) -> bool {
    exists|i: int| 0 <= i < h.len() && (#[trigger] h[i]).0 == x
}

/// One more held site; the first flow-in span stays.
pub open spec fn hold_one(h: Seq<(SiteId, Span)>, x: SiteId, at: Span) -> Seq<(SiteId, Span)> {
    if holds_site(h, x) {
        h
    } else {
        h.insert(hold_slot(h, x, 0), (x, at))
    }
}

pub open spec fn hold_all(
    h: Seq<(SiteId, Span)>,
    sites: Seq<SiteId>,
    n: nat,
    at: Span,
) -> Seq<(SiteId, Span)>
    decreases n,
{
    if n == 0 {
        h
    } else {
        hold_one(hold_all(h, sites, (n - 1) as nat, at), sites[n - 1], at)
    }
}

pub open spec fn held_sites(h: Seq<(SiteId, Span)>) -> Seq<SiteId> {
    Seq::new(h.len(), |i: int| h[i].0)
}

/// The first unclaimed entry made at the span, from `i` on.
pub open spec fn claim_index(v: Seq<(Span, bool)>, at: Span, i: int) -> Option<int>
    decreases v.len() - i,
{
    if i >= v.len() {
        None
    } else if v[i].0 == at {
        Some(i)
    } else {
        claim_index(v, at, i + 1)
    }
}

pub const CONFLICTING: &'static str = "conflicting placement";

pub const OUTLIVES: &'static str = "outlives its region";

pub const RETURNED: &'static str = "returned";

pub const MODULE_STATE: &'static str = "module state";

pub const PASSED: &'static str = "passed to a call";

pub const LADDER: &'static str = "to keep the value, allocate it where it must live: build it outside the region block, or aim the allocation at a longer-lived region explicitly (`let r = region()` … `in r { … }`); widening the region block to cover every use also works. Two keep-alive alternatives change the ownership instead: `freeze` the region (immutable forever) or make the value a `shared` cell (reference-counted, never dangles).";

impl<'t> LowView<'t> {
    pub open spec fn next_site(self) -> SiteId {
        SiteId(self.sites.len() as u32)
    }

    pub open spec fn add_site(
        self,
        ty: Seq<char>,
        region: RegionId,
        kind: SiteKind,
        span: Span,
    ) -> LowView<'t> {
        LowView {
            sites: self.sites.push(SiteView { span, ty, region, kind }),
            escape: self.escape.push(None),
            frozen_site: self.frozen_site.push(None),
            shared_site: self.shared_site.push(false),
            ..self
        }
    }

    /// An allocation at the ambient region, with its statement: every
    /// allocation is attributable in the dump.
    pub open spec fn alloc_site(self, ty: Seq<char>, kind: SiteKind, span: Span) -> LowView<'t> {
        let s = self.add_site(ty, self.ambient_region(), kind, span);
        if kind is Param {
            s
        } else {
            s.push(StmtView::Alloc { site: self.next_site(), span })
        }
    }

    /// The first reason a value leaves the frame stays.
    pub open spec fn mark_escape(self, s: SiteId, why: Seq<char>) -> LowView<'t> {
        if self.escape[s.0 as int] is None {
            LowView { escape: self.escape.update(s.0 as int, Some(why)), ..self }
        } else {
            self
        }
    }

    pub open spec fn mark_escapes(self, sites: Seq<SiteId>, n: nat, why: Seq<char>) -> LowView<'t>
        decreases n,
    {
        if n == 0 {
            self
        } else {
            self.mark_escapes(sites, (n - 1) as nat, why).mark_escape(sites[n - 1], why)
        }
    }

    /// Sites a place's value may contain: a field shares the whole
    /// value's set.
    pub open spec fn sites_of(self, place: PlaceId) -> Seq<(SiteId, Span)> {
        match self.places.at(place).base {
            BaseView::Local(l) => self.holds[l as int],
            BaseView::Global(..) => Seq::empty(),
        }
    }

    pub open spec fn val_of(self, place: PlaceId, at: Span) -> ValView {
        ValView {
            sites: held_sites(self.sites_of(place)),
            region: self.place_region(place),
            origin: Some(at),
            ..ValView::none()
        }
    }

    pub open spec fn hold(self, l: u32, sites: Seq<SiteId>, at: Span) -> LowView<'t> {
        LowView {
            holds: self.holds.update(
                l as int,
                hold_all(self.holds[l as int], sites, sites.len(), at),
            ),
            ..self
        }
    }

    pub open spec fn share(self, s: SiteId) -> LowView<'t> {
        LowView { shared_site: self.shared_site.update(s.0 as int, true), ..self }
    }

    pub open spec fn add_cell(self, s: SiteId) -> LowView<'t> {
        LowView { rc_cells: self.rc_cells.push(s), ..self }
    }

    /// The borrow of a produced value found a home.
    pub open spec fn claim(self, v: ValView) -> LowView<'t> {
        if v.borrowed.len() == 0 || v.origin is None {
            self
        } else {
            match claim_index(self.unclaimed, v.origin->0, 0) {
                Some(i) => LowView { unclaimed: self.unclaimed.remove(i), ..self },
                None => self,
            }
        }
    }

    /// A region by its introduction.
    pub open spec fn region_text(self, r: RegionId) -> Seq<char> {
        match self.rt.binding(r) {
            Some(Binding::Caller) => "the caller's region"@,
            Some(Binding::Static) => "the static region (module state)"@,
            Some(Binding::Local(l)) => "region `"@ + self.rt.regions[l.0 as int].name + "`"@,
            None => "`"@ + self.rt.regions[r.0 as int].name + "`'s region"@,
        }
    }

    /// Where a local region is introduced.
    pub open spec fn region_intro(self, r: RegionId) -> Option<(Seq<char>, Span)> {
        match self.rt.binding(r) {
            Some(Binding::Local(l)) => Some(
                (self.rt.regions[l.0 as int].name, self.rt.regions[l.0 as int].span),
            ),
            _ => None,
        }
    }

    pub open spec fn site_conflicted(self, s: SiteId) -> bool {
        self.escape[s.0 as int] == Some(CONFLICTING@)
    }

    pub open spec fn taint(self, b: Binding) -> LowView<'t> {
        match b {
            Binding::Local(r) => self.set_tainted(r),
            _ => self,
        }
    }
}

impl<'t> Lowerer<'t> {
    #[verifier::truncate]
    pub fn add_site(&mut self, ty: String, region: RegionId, kind: SiteKind, span: Span) -> (id:
        SiteId)
        requires
            old(self).inv(),
            region.0 < old(self)@.rt.regions.len(),
        ensures
            stepped(*old(self), *final(self)),
            final(self)@ == old(self)@.add_site(ty@, region, kind, span),
            id == old(self)@.next_site(),
            id.0 < final(self)@.sites.len(),
    {
        let ghost st = self@;
        let ghost tv = ty@;
        let n: usize = self.sites.len();
        self.sites.push(AllocSite { span, ty, region, kind });
        self.escape.push(None);
        self.frozen_site.push(None);
        self.shared_site.push(false);
        proof {
            let want = st.add_site(tv, region, kind, span);
            assert(self@.sites =~= want.sites);
            assert(self@.escape =~= want.escape);
            assert(self@ =~= want);
            reveal(sites_in);
            reveal(cells_in);
            reveal(holds_in);
            assert forall|i: int| 0 <= i < self@.sites.len() implies (
            #[trigger] self@.sites[i]).region.0 < self@.rt.regions.len() by {
                if i < st.sites.len() {
                    assert(st.sites[i].region.0 < st.rt.regions.len());
                }
            }
            assert forall|i: int| 0 <= i < self@.holds.len() implies hold_in(
                #[trigger] self@.holds[i],
                self@.sites.len(),
            ) by {
                assert(hold_in(st.holds[i], st.sites.len()));
            }
        }
        SiteId(n as u32)
    }

    pub fn alloc_site(&mut self, ty: String, kind: SiteKind, span: Span) -> (id: SiteId)
        requires
            old(self).inv(),
        ensures
            stepped(*old(self), *final(self)),
            final(self)@ == old(self)@.alloc_site(ty@, kind, span),
            id == old(self)@.next_site(),
            id.0 < final(self)@.sites.len(),
    {
        let r = self.ambient_region();
        let id = self.add_site(ty, r, kind, span);
        if kind != SiteKind::Param {
            self.push(Stmt::Alloc { site: id, span });
        }
        id
    }

    pub fn mark_escape(&mut self, s: SiteId, why: &'static str)
        requires
            old(self).inv(),
            s.0 < old(self)@.sites.len(),
        ensures
            stepped(*old(self), *final(self)),
            final(self)@ == old(self)@.mark_escape(s, why@),
    {
        let ghost st = self@;
        assert(st.escape[s.0 as int] == opt_str(self.escape@[s.0 as int]));
        if self.escape[s.0 as usize].is_none() {
            self.escape.set(s.0 as usize, Some(why));
            assert(self@.escape =~= st.mark_escape(s, why@).escape);
            assert(self@ =~= st.mark_escape(s, why@));
        }
    }

    pub fn mark_escapes(&mut self, sites: &Vec<SiteId>, why: &'static str)
        requires
            old(self).inv(),
            cells_in(sites@, old(self)@.sites.len()),
        ensures
            stepped(*old(self), *final(self)),
            final(self)@ == old(self)@.mark_escapes(sites@, sites@.len(), why@),
    {
        let ghost st = self@;
        let mut i: usize = 0;
        while i < sites.len()
            invariant
                i <= sites.len(),
                stepped(*old(self), *self),
                st == old(self)@,
                cells_in(sites@, st.sites.len()),
                self@ == st.mark_escapes(sites@, i as nat, why@),
                self@.sites == st.sites,
            decreases sites.len() - i,
        {
            proof {
                reveal(cells_in);
            }
            self.mark_escape(sites[i], why);
            i = i + 1;
        }
    }

    /// Sites a place's value may contain.
    pub fn sites_of(&self, place: PlaceId) -> (r: Vec<(SiteId, Span)>)
        requires
            self@.graph_ok(),
            self@.locals_ok(),
            self@.places.has(place),
        ensures
            r@ == self@.sites_of(place),
            hold_in(r@, self@.sites.len()),
    {
        assert(base_ok(self@.places.places[place.0 as int].base, self@.locals.len()));
        let mut out: Vec<(SiteId, Span)> = Vec::new();
        match &self.places.get(place).base {
            Base::Local(l) => {
                let h = &self.holds[*l as usize];
                proof {
                    reveal(holds_in);
                    assert(self@.holds[*l as int] == h@);
                    assert(hold_in(self@.holds[*l as int], self@.sites.len()));
                }
                let mut i: usize = 0;
                while i < h.len()
                    invariant
                        i <= h.len(),
                        out@ == h@.take(i as int),
                    decreases h.len() - i,
                {
                    out.push(h[i]);
                    i = i + 1;
                    assert(out@ =~= h@.take(i as int));
                }
                assert(out@ =~= h@);
            },
            Base::Global(..) => {
                assert(out@ =~= Seq::empty());
            },
        }
        out
    }

    pub fn val_of(&self, place: PlaceId, at: Span) -> (r: Val)
        requires
            self@.graph_ok(),
            self@.locals_ok(),
            self@.places.has(place),
        ensures
            r@ == self@.val_of(place, at),
            self@.val_ok(r@),
    {
        let h = self.sites_of(place);
        let mut sites: Vec<SiteId> = Vec::new();
        let mut i: usize = 0;
        while i < h.len()
            invariant
                i <= h.len(),
                sites@ == held_sites(h@).take(i as int),
            decreases h.len() - i,
        {
            sites.push(h[i].0);
            i = i + 1;
            assert(sites@ =~= held_sites(h@).take(i as int));
        }
        let r = Val {
            sites,
            region: self.place_region(place),
            origin: Some(at),
            region_fields: Vec::new(),
            borrowed: Vec::new(),
        };
        assert(r@.sites =~= held_sites(h@));
        assert(r@ =~= self@.val_of(place, at));
        proof {
            reveal(cells_in);
            assert forall|k: int| 0 <= k < r@.sites.len() implies (#[trigger] r@.sites[k]).0
                < self@.sites.len() by {
                assert(h@[k].0.0 < self@.sites.len());
            }
        }
        r
    }

    pub fn hold(&mut self, l: u32, sites: &Vec<SiteId>, at: Span)
        requires
            old(self).inv(),
            l < old(self)@.locals.len(),
            cells_in(sites@, old(self)@.sites.len()),
        ensures
            stepped(*old(self), *final(self)),
            final(self)@ == old(self)@.hold(l, sites@, at),
    {
        let ghost st = self@;
        let li: usize = l as usize;
        let ghost h0 = st.holds[l as int];
        assert(h0 == self.holds@[l as int]@);
        let mut h: Vec<(SiteId, Span)> = Vec::new();
        let mut c: usize = 0;
        while c < self.holds[li].len()
            invariant
                li < self.holds.len(),
                h0 == self.holds@[li as int]@,
                c <= h0.len(),
                h@ == h0.take(c as int),
            decreases h0.len() - c,
        {
            h.push(self.holds[li][c]);
            c = c + 1;
            assert(h@ =~= h0.take(c as int));
        }
        assert(h@ =~= h0);
        proof {
            reveal(holds_in);
            assert(hold_in(h0, st.sites.len()));
        }
        let mut i: usize = 0;
        while i < sites.len()
            invariant
                i <= sites.len(),
                cells_in(sites@, st.sites.len()),
                h@ == hold_all(h0, sites@, i as nat, at),
                hold_in(h@, st.sites.len()),
            decreases sites.len() - i,
        {
            proof {
                reveal(cells_in);
                assert(sites@[i as int].0 < st.sites.len());
            }
            let x = sites[i];
            let ghost hv = h@;
            let mut slot: usize = h.len();
            let mut known = false;
            let mut k: usize = 0;
            while k < h.len()
                invariant
                    k <= h.len(),
                    hv == h@,
                    known == (exists|q: int| 0 <= q < k && (#[trigger] hv[q]).0 == x),
                    slot <= h.len(),
                    slot == h.len() ==> hold_slot(hv, x, 0) == hold_slot(hv, x, k as int),
                    slot < h.len() ==> hold_slot(hv, x, 0) == slot,
                decreases h.len() - k,
            {
                if h[k].0 == x {
                    known = true;
                    assert(hv[k as int].0 == x);
                }
                if h[k].0.0 > x.0 && slot == h.len() {
                    slot = k;
                }
                k = k + 1;
            }
            if !known {
                h.insert(slot, (x, at));
                assert forall|j: int| 0 <= j < h@.len() implies (#[trigger] h@[j]).0.0
                    < st.sites.len() by {
                    if j < slot {
                        assert(h@[j] == hv[j]);
                    } else if j > slot {
                        assert(h@[j] == hv[j - 1]);
                    }
                }
            }
            assert(h@ == hold_one(hv, x, at));
            i = i + 1;
        }
        self.holds.set(li, h);
        proof {
            assert(self@.holds =~= st.hold(l, sites@, at).holds);
            assert(self@ =~= st.hold(l, sites@, at));
            assert forall|j: int| 0 <= j < self@.holds.len() implies hold_in(
                #[trigger] self@.holds[j],
                self@.sites.len(),
            ) by {
                assert(hold_in(st.holds[j], st.sites.len()));
            }
        }
    }

    pub fn share(&mut self, s: SiteId)
        requires
            old(self).inv(),
            s.0 < old(self)@.sites.len(),
        ensures
            stepped(*old(self), *final(self)),
            final(self)@ == old(self)@.share(s),
    {
        let ghost st = self@;
        self.shared_site.set(s.0 as usize, true);
        assert(self@ =~= st.share(s));
    }

    pub fn add_cell(&mut self, s: SiteId)
        requires
            old(self).inv(),
            s.0 < old(self)@.sites.len(),
        ensures
            stepped(*old(self), *final(self)),
            final(self)@ == old(self)@.add_cell(s),
    {
        let ghost st = self@;
        self.rc_cells.push(s);
        proof {
            assert(self@ =~= st.add_cell(s));
            reveal(cells_in);
        }
    }

    pub fn claim(&mut self, v: &Val)
        requires
            old(self).inv(),
        ensures
            stepped(*old(self), *final(self)),
            final(self)@ == old(self)@.claim(v@),
    {
        let ghost st = self@;
        if v.borrowed.len() == 0 {
            return;
        }
        if let Some(at) = v.origin {
            let mut i: usize = 0;
            while i < self.unclaimed.len()
                invariant
                    i <= self.unclaimed.len(),
                    st == self@,
                    *self == *old(self),
                    v.borrowed@.len() > 0,
                    v.origin == Some(at),
                    claim_index(st.unclaimed, at, 0) == claim_index(st.unclaimed, at, i as int),
                    old(self).inv(),
                decreases self.unclaimed.len() - i,
            {
                if self.unclaimed[i].0 == at {
                    let _ = self.unclaimed.remove(i);
                    assert(self@ =~= st.claim(v@));
                    return;
                }
                i = i + 1;
            }
        }
    }

    pub fn show_region(&mut self, r: RegionId) -> (text: String)
        requires
            old(self).inv(),
            r.0 < old(self)@.rt.regions.len(),
        ensures
            stepped(*old(self), *final(self)),
            final(self)@ == old(self)@,
            text@ == old(self)@.region_text(r),
    {
        match self.binding_of(r) {
            Some(Binding::Caller) => lit("the caller's region"),
            Some(Binding::Static) => lit("the static region (module state)"),
            Some(Binding::Local(l)) => lit("region `").concat(
                self.rt.region(l).name.as_str(),
            ).concat("`"),
            None => lit("`").concat(self.rt.region(r).name.as_str()).concat("`'s region"),
        }
    }

    /// Where a local region is introduced, with the secondary text.
    pub fn with_intro(&mut self, r: RegionId, d: Diagnostic, tail: &str) -> (out: Diagnostic)
        requires
            old(self).inv(),
            r.0 < old(self)@.rt.regions.len(),
        ensures
            stepped(*old(self), *final(self)),
            final(self)@ == old(self)@,
            out@ == intro_noted(old(self)@, r, d@, tail@),
    {
        match self.binding_of(r) {
            Some(Binding::Local(l)) => {
                let region = self.rt.region(l);
                d.with_secondary(
                    region.span,
                    lit("region `").concat(region.name.as_str()).concat(tail),
                )
            },
            _ => d,
        }
    }

    pub fn is_conflicted(&self, s: SiteId) -> (r: bool)
        requires
            self@.sites_ok(),
            s.0 < self@.sites.len(),
        ensures
            r == self@.site_conflicted(s),
    {
        assert(self@.escape[s.0 as int] == opt_str(self.escape@[s.0 as int]));
        match self.escape[s.0 as usize] {
            Some(why) => str_eq(why, CONFLICTING),
            None => false,
        }
    }

    fn taint(&mut self, b: Binding)
        requires
            old(self).inv(),
            b matches Binding::Local(r) ==> r.0 < old(self)@.rt.regions.len(),
        ensures
            stepped(*old(self), *final(self)),
            final(self)@ == old(self)@.taint(b),
    {
        match b {
            Binding::Local(r) => self.set_tainted(r),
            _ => {},
        }
    }
}

/// The diagnostic with the region's introduction, when it is local.
pub open spec fn intro_noted(st: LowView<'_>, r: RegionId, d: DiagView, tail: Seq<char>) -> DiagView {
    match st.region_intro(r) {
        Some((name, at)) => d.with_secondary(at, "region `"@ + name + tail),
        None => d,
    }
}

// ------------------------------------------------------------- demands --

pub const NOTE_PARAMS: &'static str = "each parameter's data lives in its own (generalized) region — the Cyclone default that keeps signatures annotation-free. A signature surface for declaring two parameters share a region is planned; today, `copy` the value into its container's region, or restructure so the allocation happens alongside the container.";

pub open spec fn params_merged_diag(
    at: Span,
    from: Seq<char>,
    into: Seq<char>,
    alloc: Span,
    container: Option<Span>,
) -> DiagView {
    let d = DiagView::error(
        Code::E1004,
        at,
        "this stores a value from "@ + from + " into "@ + into
            + " — parameter regions are independent by default"@,
    ).with_label("the store that would tie the two regions together"@).with_secondary(
        alloc,
        "the value arrives here, in "@ + from,
    );
    (match container {
        Some(c) => d.with_secondary(c, "the container lives in "@ + into),
        None => d,
    }).with_note(NOTE_PARAMS@)
}

pub open spec fn conflict_diag(
    st: LowView<'_>,
    at: Span,
    sr: RegionId,
    from: Seq<char>,
    into: Seq<char>,
    alloc: Span,
    container: Option<Span>,
) -> DiagView {
    let d = DiagView::error(
        Code::E1004,
        at,
        "this value is allocated in "@ + from + ", but it is being stored into a value living in "@
            + into,
    ).with_label("the two regions must be one"@).with_secondary(
        alloc,
        "allocated here, into "@ + from,
    );
    let d1 = match container {
        Some(c) => d.with_secondary(c, "the container is allocated here, into "@ + into),
        None => d,
    };
    intro_noted(st, sr, d1, "` is created here"@).with_note(LADDER@)
}

impl<'t> LowView<'t> {
    /// Data with no co-location demand: already reported, frozen, or
    /// owned by a `shared` cell.
    pub open spec fn store_exempt(self, s: SiteId) -> bool {
        self.site_conflicted(s) || self.frozen_site[s.0 as int] is Some
            || self.shared_site[s.0 as int]
    }

    /// An embedding store: moving a value into an aggregate demands
    /// co-location, site by site, until a demand fails.
    pub open spec fn demand_store(
        self,
        sites: Seq<SiteId>,
        i: int,
        target: RegionId,
        container: Option<Span>,
        at: Span,
    ) -> LowView<'t>
        decreases sites.len() - i,
    {
        if i >= sites.len() {
            self
        } else if self.store_exempt(sites[i]) {
            self.demand_store(sites, i + 1, target, container, at)
        } else {
            let s = sites[i];
            let sr = self.sites[s.0 as int].region;
            let alloc = self.sites[s.0 as int].span;
            let from = self.region_text(sr);
            let into = self.region_text(target);
            let next = self.unify(target, sr);
            match self.rt.outcome(target, sr) {
                Unify::Met => next.demand_store(sites, i + 1, target, container, at),
                Unify::ParamsMerged => next.conflict().mark_escape(s, CONFLICTING@).report(
                    params_merged_diag(at, from, into, alloc, container),
                ),
                Unify::Conflict(a, b) => {
                    let st = next.conflict().mark_escape(s, CONFLICTING@).taint(a).taint(b);
                    st.report(conflict_diag(st, at, sr, from, into, alloc, container))
                },
            }
        }
    }
}

impl<'t> Lowerer<'t> {
    fn store_exempt(&self, s: SiteId) -> (r: bool)
        requires
            self@.sites_ok(),
            s.0 < self@.sites.len(),
        ensures
            r == self@.store_exempt(s),
    {
        self.is_conflicted(s) || self.frozen_site[s.0 as usize].is_some()
            || self.shared_site[s.0 as usize]
    }

    pub fn site_region(&self, s: SiteId) -> (r: RegionId)
        requires
            self@.sites_ok(),
            s.0 < self@.sites.len(),
        ensures
            r == self@.sites[s.0 as int].region,
            r.0 < self@.rt.regions.len(),
    {
        proof {
            reveal(sites_in);
            assert(self@.sites[s.0 as int].region.0 < self@.rt.regions.len());
        }
        self.sites[s.0 as usize].region
    }

    pub fn demand_store(
        &mut self,
        sites: &Vec<SiteId>,
        target: RegionId,
        container: Option<Span>,
        at: Span,
    )
        requires
            old(self).inv(),
            cells_in(sites@, old(self)@.sites.len()),
            target.0 < old(self)@.rt.regions.len(),
        ensures
            stepped(*old(self), *final(self)),
            final(self)@ == old(self)@.demand_store(sites@, 0, target, container, at),
    {
        let ghost st = self@;
        let mut i: usize = 0;
        while i < sites.len()
            invariant
                i <= sites.len(),
                stepped(*old(self), *self),
                st == old(self)@,
                cells_in(sites@, st.sites.len()),
                target.0 < st.rt.regions.len(),
                st.demand_store(sites@, 0, target, container, at) == self@.demand_store(
                    sites@,
                    i as int,
                    target,
                    container,
                    at,
                ),
            decreases sites.len() - i,
        {
            let s = sites[i];
            proof {
                reveal(cells_in);
                assert(sites@[i as int].0 < st.sites.len());
            }
            if !self.store_exempt(s) {
                let sr = self.site_region(s);
                let alloc = self.sites[s.0 as usize].span;
                assert(self@.sites[s.0 as int].span == alloc);
                let from = self.show_region(sr);
                let into = self.show_region(target);
                match self.unify(target, sr) {
                    Unify::Met => {},
                    Unify::ParamsMerged => {
                        self.conflict();
                        self.mark_escape(s, CONFLICTING);
                        let mut d = Diagnostic::error(
                            Code::E1004,
                            at,
                            lit("this stores a value from ").concat(from.as_str()).concat(
                                " into ",
                            ).concat(into.as_str()).concat(
                                " — parameter regions are independent by default",
                            ),
                        ).with_label(
                            lit("the store that would tie the two regions together"),
                        ).with_secondary(
                            alloc,
                            lit("the value arrives here, in ").concat(from.as_str()),
                        );
                        if let Some(c) = container {
                            d =
                            d.with_secondary(c, lit("the container lives in ").concat(into.as_str()));
                        }
                        self.report(d.with_note(lit(NOTE_PARAMS)));
                        return;
                    },
                    Unify::Conflict(a, b) => {
                        self.conflict();
                        self.mark_escape(s, CONFLICTING);
                        self.taint(a);
                        self.taint(b);
                        let mut d = Diagnostic::error(
                            Code::E1004,
                            at,
                            lit("this value is allocated in ").concat(from.as_str()).concat(
                                ", but it is being stored into a value living in ",
                            ).concat(into.as_str()),
                        ).with_label(lit("the two regions must be one")).with_secondary(
                            alloc,
                            lit("allocated here, into ").concat(from.as_str()),
                        );
                        if let Some(c) = container {
                            d =
                            d.with_secondary(
                                c,
                                lit("the container is allocated here, into ").concat(into.as_str()),
                            );
                        }
                        let d2 = self.with_intro(sr, d, "` is created here");
                        self.report(d2.with_note(lit(LADDER)));
                        return;
                    },
                }
            }
            i = i + 1;
        }
    }
}

// ---------------------------------------------------- leaving the frame --

pub open spec fn frame_escape_diag(st: LowView<'_>, at: Span, sr: RegionId, alloc: Span) -> DiagView {
    let region = st.region_text(sr);
    intro_noted(
        st,
        sr,
        DiagView::error(
            Code::E1010,
            at,
            "this value is allocated in "@ + region
                + ", which is freed before the caller could ever use it"@,
        ).with_label("the value would outlive its region"@).with_secondary(
            alloc,
            "allocated here, into "@ + region,
        ),
        "` is created here and freed with its scope — everything in it is freed wholesale"@,
    ).with_note(LADDER@)
}

pub open spec fn static_escape_diag(
    at: Span,
    region: Seq<char>,
    alloc: Span,
) -> DiagView {
    DiagView::error(
        Code::E1010,
        at,
        "module state outlives every call, but this value is allocated in "@ + region
            + ", which does not"@,
    ).with_label("stored into module state here"@).with_secondary(
        alloc,
        "allocated here, into "@ + region,
    ).with_note(LADDER@)
}

impl<'t> LowView<'t> {
    /// One site of a value that leaves the frame.
    pub open spec fn outlive_one(self, s: SiteId, at: Span) -> LowView<'t> {
        let sr = self.sites[s.0 as int].region;
        if self.site_conflicted(s) {
            self
        } else if self.frozen_site[s.0 as int] is Some || self.shared_site[s.0 as int] {
            self.mark_escape(s, RETURNED@)
        } else {
            match self.rt.binding(sr) {
                Some(Binding::Static) | Some(Binding::Caller) => self.mark_escape(s, RETURNED@),
                None => self.unify(self.ambient[0], sr).mark_escape(s, RETURNED@),
                Some(Binding::Local(rid)) => {
                    let st = self.conflict().set_tainted(rid).mark_escape(s, OUTLIVES@);
                    st.report(frame_escape_diag(st, at, sr, self.sites[s.0 as int].span))
                },
            }
        }
    }

    pub open spec fn outlive_from(self, sites: Seq<SiteId>, i: int, at: Span) -> LowView<'t>
        decreases sites.len() - i,
    {
        if i >= sites.len() {
            self
        } else {
            self.outlive_one(sites[i], at).outlive_from(sites, i + 1, at)
        }
    }

    /// A value leaves the frame: its region must outlive the caller. A
    /// region value leaving is a legal move; its free is no longer ours.
    pub open spec fn demand_outlives_frame(self, v: ValView, at: Span) -> LowView<'t> {
        let st = self.outlive_from(v.sites, 0, at);
        match v.region {
            Some(r) => st.set_moved(r),
            None => st,
        }
    }

    pub open spec fn static_one(self, s: SiteId, at: Span) -> LowView<'t> {
        let sr = self.sites[s.0 as int].region;
        if self.frozen_site[s.0 as int] is Some || self.shared_site[s.0 as int] {
            self.mark_escape(s, MODULE_STATE@)
        } else {
            match self.rt.binding(sr) {
                Some(Binding::Static) => self.mark_escape(s, MODULE_STATE@),
                None => {
                    let st = self.with_static(at);
                    st.unify(st.static_region->0, sr).mark_escape(s, MODULE_STATE@)
                },
                Some(b) => {
                    let st = self.conflict().mark_escape(s, MODULE_STATE@);
                    let region = st.region_text(sr);
                    st.taint(b).report(
                        static_escape_diag(at, region, self.sites[s.0 as int].span),
                    )
                },
            }
        }
    }

    /// A store into module state: the target is the static region.
    pub open spec fn demand_static(self, sites: Seq<SiteId>, i: int, at: Span) -> LowView<'t>
        decreases sites.len() - i,
    {
        if i >= sites.len() {
            self
        } else {
            self.static_one(sites[i], at).demand_static(sites, i + 1, at)
        }
    }
}

impl<'t> Lowerer<'t> {
    fn outlive_one(&mut self, s: SiteId, at: Span)
        requires
            old(self).inv(),
            s.0 < old(self)@.sites.len(),
        ensures
            stepped(*old(self), *final(self)),
            final(self)@ == old(self)@.outlive_one(s, at),
            final(self)@.sites.len() == old(self)@.sites.len(),
    {
        if self.is_conflicted(s) {
            return;
        }
        if self.frozen_site[s.0 as usize].is_some() || self.shared_site[s.0 as usize] {
            self.mark_escape(s, RETURNED);
            return;
        }
        let sr = self.site_region(s);
        let alloc = self.sites[s.0 as usize].span;
        assert(self@.sites[s.0 as int].span == alloc);
        match self.binding_of(sr) {
            Some(Binding::Static) | Some(Binding::Caller) => {
                self.mark_escape(s, RETURNED);
            },
            None => {
                let caller = self.ambient[0];
                proof {
                    reveal(regions_in);
                    assert(self@.ambient[0].0 < self@.rt.regions.len());
                }
                let _ = self.unify(caller, sr);
                self.mark_escape(s, RETURNED);
            },
            Some(Binding::Local(rid)) => {
                self.conflict();
                self.set_tainted(rid);
                self.mark_escape(s, OUTLIVES);
                let region = self.show_region(sr);
                let d = Diagnostic::error(
                    Code::E1010,
                    at,
                    lit("this value is allocated in ").concat(region.as_str()).concat(
                        ", which is freed before the caller could ever use it",
                    ),
                ).with_label(lit("the value would outlive its region")).with_secondary(
                    alloc,
                    lit("allocated here, into ").concat(region.as_str()),
                );
                let d2 = self.with_intro(
                    sr,
                    d,
                    "` is created here and freed with its scope — everything in it is freed wholesale",
                );
                self.report(d2.with_note(lit(LADDER)));
            },
        }
    }

    pub fn demand_outlives_frame(&mut self, v: &Val, at: Span)
        requires
            old(self).inv(),
            old(self)@.val_ok(v@),
        ensures
            stepped(*old(self), *final(self)),
            final(self)@ == old(self)@.demand_outlives_frame(v@, at),
    {
        let ghost st = self@;
        let mut i: usize = 0;
        while i < v.sites.len()
            invariant
                i <= v.sites.len(),
                stepped(*old(self), *self),
                st == old(self)@,
                cells_in(v.sites@, st.sites.len()),
                st.outlive_from(v.sites@, 0, at) == self@.outlive_from(v.sites@, i as int, at),
            decreases v.sites.len() - i,
        {
            proof {
                reveal(cells_in);
                assert(v.sites@[i as int].0 < st.sites.len());
            }
            self.outlive_one(v.sites[i], at);
            i = i + 1;
        }
        if let Some(r) = v.region {
            self.set_moved(r);
        }
    }

    fn static_one(&mut self, s: SiteId, at: Span)
        requires
            old(self).inv(),
            s.0 < old(self)@.sites.len(),
        ensures
            stepped(*old(self), *final(self)),
            final(self)@ == old(self)@.static_one(s, at),
    {
        if self.frozen_site[s.0 as usize].is_some() || self.shared_site[s.0 as usize] {
            self.mark_escape(s, MODULE_STATE);
            return;
        }
        let sr = self.site_region(s);
        let alloc = self.sites[s.0 as usize].span;
        assert(self@.sites[s.0 as int].span == alloc);
        match self.binding_of(sr) {
            Some(Binding::Static) => {
                self.mark_escape(s, MODULE_STATE);
            },
            None => {
                let st = self.static_region_at(at);
                let _ = self.unify(st, sr);
                self.mark_escape(s, MODULE_STATE);
            },
            Some(b) => {
                self.conflict();
                self.mark_escape(s, MODULE_STATE);
                let region = self.show_region(sr);
                self.taint(b);
                self.report(
                    Diagnostic::error(
                        Code::E1010,
                        at,
                        lit(
                            "module state outlives every call, but this value is allocated in ",
                        ).concat(region.as_str()).concat(", which does not"),
                    ).with_label(lit("stored into module state here")).with_secondary(
                        alloc,
                        lit("allocated here, into ").concat(region.as_str()),
                    ).with_note(lit(LADDER)),
                );
            },
        }
    }

    pub fn demand_static(&mut self, sites: &Vec<SiteId>, at: Span)
        requires
            old(self).inv(),
            cells_in(sites@, old(self)@.sites.len()),
        ensures
            stepped(*old(self), *final(self)),
            final(self)@ == old(self)@.demand_static(sites@, 0, at),
    {
        let ghost st = self@;
        let mut i: usize = 0;
        while i < sites.len()
            invariant
                i <= sites.len(),
                stepped(*old(self), *self),
                st == old(self)@,
                cells_in(sites@, st.sites.len()),
                st.demand_static(sites@, 0, at) == self@.demand_static(sites@, i as int, at),
            decreases sites.len() - i,
        {
            proof {
                reveal(cells_in);
                assert(sites@[i as int].0 < st.sites.len());
            }
            self.static_one(sites[i], at);
            i = i + 1;
        }
    }
}

} // verus!
