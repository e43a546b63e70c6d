//! The checks made while a body is lowered: region close sweeps, open
//! windows, transfers and freezes, frozen writes, `read` parameters,
//! iteration claims, view sets, and the effects of using a place.

use vstd::prelude::*;
use vstd::string::*;

use crate::cfg::{base_ok, RegionId, SiteId};
use crate::diag::{Code, DiagView, Diagnostic, Span};
use crate::lowregion::{intro_noted, LADDER, OUTLIVES};
use crate::lowstate::{
    cells_in, hold_in, holds_in, opens_in, parents_in, regions_in, sites_in, stepped, Lowerer,
    LowView, Val, ValView,
};
use crate::place::{Base, BaseView, PlaceId};
use crate::text::lit;

verus! {

// -------------------------------------------------- region close sweep --

pub const FREED_WHOLESALE: &'static str = "the region is freed here — everything in it is freed wholesale, as one unit";

/// A value that still holds a dying region's data: a binding by name, or
/// the block's own value.
pub open spec fn close_escape_diag(
    st: LowView<'_>,
    rid: RegionId,
    site: SiteId,
    escape_at: Span,
    close_at: Span,
    binding: Option<Seq<char>>,
) -> DiagView {
    let region = st.region_text(rid);
    let alloc = st.sites[site.0 as int].span;
    let d = (match binding {
        Some(name) => DiagView::error(
            Code::E1010,
            escape_at,
            "`"@ + name + "` still holds a value allocated in "@ + region
                + " when the region is freed"@,
        ).with_label("the value flows out of the region here"@),
        None => DiagView::error(
            Code::E1010,
            escape_at,
            "this value is allocated in "@ + region + ", which is freed when the block ends"@,
        ).with_label("the block's value would outlive the region"@),
    }).with_secondary(alloc, "allocated here, into "@ + region);
    intro_noted(st, rid, d, "` is created here"@).with_secondary(
        close_at,
        FREED_WHOLESALE@,
    ).with_note(LADDER@)
}

impl<'t> LowView<'t> {
    pub open spec fn close_escape(
        self,
        rid: RegionId,
        site: SiteId,
        escape_at: Span,
        close_at: Span,
        binding: Option<Seq<char>>,
    ) -> LowView<'t> {
        let st = self.conflict().set_tainted(rid).mark_escape(site, OUTLIVES@);
        st.report(close_escape_diag(st, rid, site, escape_at, close_at, binding))
    }

    /// The site's data dies with the region.
    pub open spec fn dies_with(self, s: SiteId, rid: RegionId) -> bool {
        !self.shared_site[s.0 as int] && self.rt.same(self.sites[s.0 as int].region, rid)
    }

    /// The block's own value against the dying region.
    pub open spec fn sweep_value(
        self,
        sites: Seq<SiteId>,
        i: int,
        rid: RegionId,
        escape_at: Span,
        close_at: Span,
    ) -> LowView<'t>
        decreases sites.len() - i,
    {
        if i >= sites.len() {
            self
        } else if self.dies_with(sites[i], rid) && !self.site_conflicted(sites[i]) {
            self.close_escape(rid, sites[i], escape_at, close_at, None).sweep_value(
                sites,
                i + 1,
                rid,
                escape_at,
                close_at,
            )
        } else {
            self.sweep_value(sites, i + 1, rid, escape_at, close_at)
        }
    }

    /// The sites that survive the region.
    pub open spec fn survivors(self, sites: Seq<SiteId>, n: nat, rid: RegionId) -> Seq<SiteId>
        decreases n,
    {
        if n == 0 {
            Seq::empty()
        } else if self.dies_with(sites[n - 1], rid) {
            self.survivors(sites, (n - 1) as nat, rid)
        } else {
            self.survivors(sites, (n - 1) as nat, rid).push(sites[n - 1])
        }
    }

    /// One outer local's held sites against the dying region.
    pub open spec fn sweep_held(
        self,
        l: int,
        h: Seq<(SiteId, Span)>,
        j: int,
        rid: RegionId,
        close_at: Span,
    ) -> LowView<'t>
        decreases h.len() - j,
    {
        if j >= h.len() {
            self
        } else if self.dies_with(h[j].0, rid) && !self.site_conflicted(h[j].0) {
            self.close_escape(rid, h[j].0, h[j].1, close_at, Some(self.locals[l].name)).sweep_held(
                l,
                h,
                j + 1,
                rid,
                close_at,
            )
        } else {
            self.sweep_held(l, h, j + 1, rid, close_at)
        }
    }

    /// The bindings that outlive the region, from local `l` on.
    pub open spec fn sweep_locals(
        self,
        l: int,
        mark: int,
        rid: RegionId,
        close_at: Span,
    ) -> LowView<'t>
        decreases mark - l,
    {
        if l >= mark || l >= self.holds.len() {
            self
        } else {
            self.sweep_held(l, self.holds[l], 0, rid, close_at).sweep_locals(
                l + 1,
                mark,
                rid,
                close_at,
            )
        }
    }

    /// A clean, frame-local, unmoved region is the promotion fact.
    pub open spec fn promote_if_clean(self, rid: RegionId) -> LowView<'t> {
        let r = rid.0 as int;
        if !self.tainted[r] && !self.moved[r] && !self.lent[r] {
            LowView { promoted: self.promoted.push(rid), ..self }
        } else {
            self
        }
    }

    /// The region dies as a unit at its close (`[mem.region.intra.2]`).
    pub open spec fn sweep_close(
        self,
        rid: RegionId,
        mark: int,
        close_at: Span,
        v: ValView,
    ) -> LowView<'t> {
        let escape_at = match v.origin {
            Some(o) => o,
            None => close_at,
        };
        self.sweep_value(v.sites, 0, rid, escape_at, close_at).sweep_locals(
            0,
            mark,
            rid,
            close_at,
        ).promote_if_clean(rid)
    }

    /// What is left of the block's value.
    pub open spec fn swept(self, rid: RegionId, v: ValView) -> ValView {
        ValView { sites: self.survivors(v.sites, v.sites.len(), rid), ..v }
    }
}

/// A promoted region is clean: no escape or placement error involved it,
/// it was not moved away and its handle was not lent.
pub proof fn law_promoted_is_clean(st: LowView<'_>, rid: RegionId)
    requires
        st.promote_if_clean(rid).promoted != st.promoted,
    ensures
        !st.tainted[rid.0 as int],
        !st.moved[rid.0 as int],
        !st.lent[rid.0 as int],
{
}

/// A `shared` cell outlives its creation region: it is never swept.
pub proof fn law_shared_survives(st: LowView<'_>, s: SiteId, rid: RegionId)
    requires
        st.shared_site[s.0 as int],
    ensures
        !st.dies_with(s, rid),
{
}

impl<'t> Lowerer<'t> {
    fn close_escape(
        &mut self,
        rid: RegionId,
        site: SiteId,
        escape_at: Span,
        close_at: Span,
        binding: Option<String>,
    )
        requires
            old(self).inv(),
            rid.0 < old(self)@.rt.regions.len(),
            site.0 < old(self)@.sites.len(),
        ensures
            stepped(*old(self), *final(self)),
            final(self)@ == old(self)@.close_escape(
                rid,
                site,
                escape_at,
                close_at,
                crate::diag::opt_text(binding),
            ),
            final(self)@.sites == old(self)@.sites,
            final(self)@.shared_site == old(self)@.shared_site,
            final(self)@.rt == old(self)@.rt,
            final(self)@.holds == old(self)@.holds,
            final(self)@.locals == old(self)@.locals,
    {
        self.conflict();
        self.set_tainted(rid);
        self.mark_escape(site, OUTLIVES);
        let region = self.show_region(rid);
        let alloc = self.sites[site.0 as usize].span;
        assert(self@.sites[site.0 as int].span == alloc);
        let d = match binding {
            Some(name) => Diagnostic::error(
                Code::E1010,
                escape_at,
                lit("`").concat(name.as_str()).concat("` still holds a value allocated in ").concat(
                    region.as_str(),
                ).concat(" when the region is freed"),
            ).with_label(lit("the value flows out of the region here")),
            None => Diagnostic::error(
                Code::E1010,
                escape_at,
                lit("this value is allocated in ").concat(region.as_str()).concat(
                    ", which is freed when the block ends",
                ),
            ).with_label(lit("the block's value would outlive the region")),
        };
        let d1 = d.with_secondary(alloc, lit("allocated here, into ").concat(region.as_str()));
        let d2 = self.with_intro(rid, d1, "` is created here");
        self.report(
            d2.with_secondary(close_at, lit(FREED_WHOLESALE)).with_note(lit(LADDER)),
        );
    }

    fn dies_with(&mut self, s: SiteId, rid: RegionId) -> (r: bool)
        requires
            old(self).inv(),
            s.0 < old(self)@.sites.len(),
            rid.0 < old(self)@.rt.regions.len(),
        ensures
            stepped(*old(self), *final(self)),
            final(self)@ == old(self)@,
            r == old(self)@.dies_with(s, rid),
    {
        if self.shared_site[s.0 as usize] {
            return false;
        }
        let sr = self.site_region(s);
        self.same_region(sr, rid)
    }

    /// The region dies as a unit at its close.
    pub fn sweep_close(&mut self, rid: RegionId, mark: usize, close_at: Span, v: &mut Val)
        requires
            old(self).inv(),
            rid.0 < old(self)@.rt.regions.len(),
            old(self)@.val_ok(old(v)@),
        ensures
            stepped(*old(self), *final(self)),
            final(self)@ == old(self)@.sweep_close(rid, mark as int, close_at, old(v)@),
            final(v)@ == old(self)@.swept(rid, old(v)@),
            old(self)@.val_ok(final(v)@),
    {
        let ghost st = self@;
        let ghost v0 = v@;
        let escape_at = match v.origin {
            Some(o) => o,
            None => close_at,
        };
        let mut kept: Vec<SiteId> = Vec::new();
        let mut i: usize = 0;
        proof {
            reveal(cells_in);
        }
        while i < v.sites.len()
            invariant
                i <= v.sites.len(),
                *v == *old(v),
                v0 == v@,
                stepped(*old(self), *self),
                st == old(self)@,
                rid.0 < st.rt.regions.len(),
                cells_in(v.sites@, st.sites.len()),
                cells_in(kept@, st.sites.len()),
                self@.sites == st.sites,
                self@.shared_site == st.shared_site,
                self@.rt == st.rt,
                st.sweep_value(v0.sites, 0, rid, escape_at, close_at) == self@.sweep_value(
                    v0.sites,
                    i as int,
                    rid,
                    escape_at,
                    close_at,
                ),
                kept@ == st.survivors(v0.sites, i as nat, rid),
            decreases v.sites.len() - i,
        {
            let s = v.sites[i];
            proof {
                reveal(cells_in);
                assert(v.sites@[i as int].0 < st.sites.len());
            }
            if self.dies_with(s, rid) {
                if !self.is_conflicted(s) {
                    self.close_escape(rid, s, escape_at, close_at, None);
                }
            } else {
                kept.push(s);
            }
            i = i + 1;
        }
        v.sites = kept;
        proof {
            assert(v@ =~= st.swept(rid, v0));
        }
        let ghost st1 = self@;
        let mut l: usize = 0;
        while l < mark && l < self.holds.len()
            invariant
                l <= mark,
                stepped(*old(self), *self),
                st == old(self)@,
                rid.0 < st.rt.regions.len(),
                st1.sweep_locals(0, mark as int, rid, close_at) == self@.sweep_locals(
                    l as int,
                    mark as int,
                    rid,
                    close_at,
                ),
            decreases mark - l,
        {
            let ghost st2 = self@;
            let ghost h = self@.holds[l as int];
            assert(h == self.holds@[l as int]@);
            proof {
                reveal(holds_in);
                assert(hold_in(self@.holds[l as int], self@.sites.len()));
            }
            let mut j: usize = 0;
            while j < self.holds[l].len()
                invariant
                    l < mark,
                    l < self.holds.len(),
                    h == self.holds@[l as int]@,
                    h == st2.holds[l as int],
                    j <= h.len(),
                    hold_in(h, st2.sites.len()),
                    stepped(*old(self), *self),
                    rid.0 < st.rt.regions.len(),
                    st == old(self)@,
                    self@.sites == st2.sites,
                    self@.holds == st2.holds,
                    self@.locals == st2.locals,
                    st2.locals.len() == st2.holds.len(),
                    st2.sweep_held(l as int, h, 0, rid, close_at) == self@.sweep_held(
                        l as int,
                        h,
                        j as int,
                        rid,
                        close_at,
                    ),
                decreases h.len() - j,
            {
                let (s, sp) = self.holds[l][j];
                assert(h[j as int] == (s, sp));
                if self.dies_with(s, rid) {
                    if !self.is_conflicted(s) {
                        assert(self@.locals[l as int].name == self.locals@[l as int].name@);
                        let name = self.locals[l].name.clone();
                        self.close_escape(rid, s, sp, close_at, Some(name));
                        assert(self@.holds[l as int] == self.holds@[l as int]@);
                    }
                }
                j = j + 1;
            }
            l = l + 1;
        }
        let r: usize = rid.0 as usize;
        if !self.tainted[r] && !self.moved[r] && !self.lent[r] {
            let ghost st3 = self@;
            self.promoted.push(rid);
            proof {
                assert(self@ =~= st3.promote_if_clean(rid));
                reveal(regions_in);
            }
        }
        proof {
            lemma_survivors_in(st, v0.sites, v0.sites.len(), rid);
        }
    }
}

proof fn lemma_survivors_in(st: LowView<'_>, sites: Seq<SiteId>, n: nat, rid: RegionId)
    requires
        cells_in(sites, st.sites.len()),
        n <= sites.len(),
    ensures
        cells_in(st.survivors(sites, n, rid), st.sites.len()),
    decreases n,
{
    reveal(cells_in);
    if n > 0 {
        lemma_survivors_in(st, sites, (n - 1) as nat, rid);
    }
}

// ------------------------------------------------- the region forest --

impl<'t> LowView<'t> {
    /// The owner of a region: the smallest index of its class that
    /// carries a parent edge answers.
    pub open spec fn parent_from(self, r: RegionId, k: int) -> Option<RegionId>
        decreases self.parent.len() - k,
    {
        if k >= self.parent.len() {
            None
        } else if self.parent[k] is Some && self.rt.same(RegionId(k as u32), r) {
            self.parent[k]
        } else {
            self.parent_from(r, k + 1)
        }
    }

    pub open spec fn parent_of(self, r: RegionId) -> Option<RegionId> {
        self.parent_from(r, 0)
    }

    /// `anc` owns `r`, transitively, within `fuel` edges.
    pub open spec fn owns_within(self, anc: RegionId, r: RegionId, fuel: nat) -> bool
        decreases fuel,
    {
        fuel > 0 && match self.parent_of(r) {
            None => false,
            Some(p) => self.rt.same(p, anc) || self.owns_within(anc, p, (fuel - 1) as nat),
        }
    }

    /// `anc` owns `r`, transitively: no chain of owners is longer than
    /// there are regions.
    pub open spec fn owns(self, anc: RegionId, r: RegionId) -> bool {
        self.owns_within(anc, r, self.rt.regions.len())
    }
}

impl<'t> Lowerer<'t> {
    #[verifier::truncate]
    fn parent_of(&mut self, r: RegionId) -> (p: Option<RegionId>)
        requires
            old(self).inv(),
            r.0 < old(self)@.rt.regions.len(),
        ensures
            stepped(*old(self), *final(self)),
            final(self)@ == old(self)@,
            p == old(self)@.parent_of(r),
            p matches Some(x) ==> x.0 < old(self)@.rt.regions.len(),
    {
        let ghost st = self@;
        let mut k: usize = 0;
        while k < self.parent.len()
            invariant
                k <= self.parent.len(),
                self@ == st,
                st == old(self)@,
                stepped(*old(self), *self),
                r.0 < st.rt.regions.len(),
                st.parent_of(r) == st.parent_from(r, k as int),
            decreases self.parent.len() - k,
        {
            if let Some(p) = self.parent[k] {
                proof {
                    reveal(parents_in);
                    assert(st.parent[k as int] matches Some(x) ==> x.0 < st.rt.regions.len());
                }
                if self.same_region(RegionId(k as u32), r) {
                    return Some(p);
                }
            }
            k = k + 1;
        }
        None
    }

    /// Does `anc` own `r`, transitively?
    fn owns(&mut self, anc: RegionId, r: RegionId) -> (b: bool)
        requires
            old(self).inv(),
            anc.0 < old(self)@.rt.regions.len(),
            r.0 < old(self)@.rt.regions.len(),
        ensures
            stepped(*old(self), *final(self)),
            final(self)@ == old(self)@,
            b == old(self)@.owns(anc, r),
    {
        let ghost st = self@;
        let mut cur = r;
        let mut fuel: usize = self.rt.len();
        while fuel > 0
            invariant
                self@ == st,
                st == old(self)@,
                stepped(*old(self), *self),
                anc.0 < st.rt.regions.len(),
                cur.0 < st.rt.regions.len(),
                st.owns(anc, r) == st.owns_within(anc, cur, fuel as nat),
            decreases fuel,
        {
            match self.parent_of(cur) {
                None => {
                    return false;
                },
                Some(p) => {
                    if self.same_region(p, anc) {
                        return true;
                    }
                    cur = p;
                },
            }
            fuel = fuel - 1;
        }
        false
    }
}

// --------------------------------------------------------- open windows --

pub const NOTE_WINDOWS: &'static str = ". Two regions may be open at once only when neither owns the other (they are siblings in the region forest) — close the first block before opening this one, or open the child through its own scope after the owner's window ends.";

pub open spec fn windows_diag(
    st: LowView<'_>,
    rid: RegionId,
    at: Span,
    other: RegionId,
    other_at: Span,
) -> DiagView {
    let this = st.region_text(rid);
    let that = st.region_text(other);
    let relation = if st.owns(other, rid) {
        that + " owns "@ + this + ", so its open window already reaches this data"@
    } else {
        this + " owns "@ + that
            + ", so this open window would reach data that is already open"@
    };
    DiagView::error(
        Code::E1011,
        at,
        "this would open "@ + this + " while "@ + that + " is still open"@,
    ).with_label("the second open window starts here"@).with_secondary(
        other_at,
        that + " is opened here, and is still open"@,
    ).with_note(relation + NOTE_WINDOWS@)
}

pub const NOTE_CLOSED: &'static str = "a region transfers or freezes as a closed subtree only — the open window pins its handle. End the `region`/`in` block first, or move the value before opening the region.";

pub open spec fn transfer_diag(
    st: LowView<'_>,
    rid: RegionId,
    at: Span,
    other: RegionId,
    other_at: Span,
) -> DiagView {
    let region = st.region_text(rid);
    let child = st.region_text(other);
    if st.rt.same(other, rid) {
        DiagView::error(
            Code::E1005,
            at,
            region + " is open, so its handle cannot move or freeze"@,
        ).with_label("the transfer happens inside the open window"@).with_secondary(
            other_at,
            region + " is open here"@ + ", until its block ends"@,
        ).with_note(NOTE_CLOSED@)
    } else {
        DiagView::error(
            Code::E1005,
            at,
            region + " contains an open child region, so it cannot move or freeze"@,
        ).with_label("the transfer happens inside the open window"@).with_secondary(
            other_at,
            child + " — owned by "@ + region + " — is open here"@ + ", until its block ends"@,
        ).with_note(NOTE_CLOSED@)
    }
}

impl<'t> LowView<'t> {
    /// The two windows may not be open together.
    pub open spec fn windows_clash(self, rid: RegionId, other: RegionId) -> bool {
        !self.rt.same(other, rid) && (self.owns(other, rid) || self.owns(rid, other))
    }

    /// The open set must be an antichain in the region forest; the first
    /// clash is reported.
    pub open spec fn check_antichain(self, rid: RegionId, at: Span, i: int) -> LowView<'t>
        decreases self.open.len() - i,
    {
        if i >= self.open.len() {
            self
        } else if self.windows_clash(rid, self.open[i].0) {
            self.conflict().report(
                windows_diag(self, rid, at, self.open[i].0, self.open[i].1),
            )
        } else {
            self.check_antichain(rid, at, i + 1)
        }
    }

    /// The open window pins the region's handle.
    pub open spec fn pins(self, rid: RegionId, other: RegionId) -> bool {
        self.rt.same(other, rid) || self.owns(rid, other)
    }

    /// The first open window that pins the region, from `i` on.
    pub open spec fn pinned_from(self, rid: RegionId, i: int) -> Option<(RegionId, Span)>
        decreases self.open.len() - i,
    {
        if i >= self.open.len() {
            None
        } else if self.pins(rid, self.open[i].0) {
            Some(self.open[i])
        } else {
            self.pinned_from(rid, i + 1)
        }
    }

    /// A region moves or freezes as a *closed* subtree only.
    pub open spec fn check_transfer(self, rid: RegionId, at: Span) -> LowView<'t> {
        match self.pinned_from(rid, 0) {
            Some((o, o_at)) => self.conflict().set_tainted(rid).report(
                transfer_diag(self, rid, at, o, o_at),
            ),
            None => self,
        }
    }
}

/// Siblings co-open: regions of which neither owns the other never
/// clash, and re-opening an open region is fine.
pub proof fn law_siblings_co_open(st: LowView<'_>, a: RegionId, b: RegionId)
    requires
        st.rt.same(b, a) || (!st.owns(a, b) && !st.owns(b, a)),
    ensures
        !st.windows_clash(a, b),
{
}

impl<'t> Lowerer<'t> {
    fn open_at(&self, i: usize) -> (r: (RegionId, Span))
        requires
            self@.regions_ok(),
            i < self.open.len(),
        ensures
            r == self@.open[i as int],
            r.0.0 < self@.rt.regions.len(),
    {
        proof {
            reveal(opens_in);
            assert(self@.open[i as int].0.0 < self@.rt.regions.len());
        }
        self.open[i]
    }

    pub fn check_open_antichain(&mut self, rid: RegionId, at: Span)
        requires
            old(self).inv(),
            rid.0 < old(self)@.rt.regions.len(),
        ensures
            stepped(*old(self), *final(self)),
            final(self)@ == old(self)@.check_antichain(rid, at, 0),
            final(self)@.open == old(self)@.open,
            final(self)@.ambient == old(self)@.ambient,
    {
        let ghost st = self@;
        let mut i: usize = 0;
        while i < self.open.len()
            invariant
                i <= self.open.len(),
                self@ == st,
                st == old(self)@,
                stepped(*old(self), *self),
                rid.0 < st.rt.regions.len(),
                st.check_antichain(rid, at, 0) == st.check_antichain(rid, at, i as int),
            decreases self.open.len() - i,
        {
            let (o, o_at) = self.open_at(i);
            if !self.same_region(o, rid) {
                let above = self.owns(o, rid);
                let below = self.owns(rid, o);
                if above || below {
                    let this = self.show_region(rid);
                    let that = self.show_region(o);
                    let relation = if above {
                        lit(that.as_str()).concat(" owns ").concat(this.as_str()).concat(
                            ", so its open window already reaches this data",
                        )
                    } else {
                        lit(this.as_str()).concat(" owns ").concat(that.as_str()).concat(
                            ", so this open window would reach data that is already open",
                        )
                    };
                    let d = Diagnostic::error(
                        Code::E1011,
                        at,
                        lit("this would open ").concat(this.as_str()).concat(" while ").concat(
                            that.as_str(),
                        ).concat(" is still open"),
                    ).with_label(lit("the second open window starts here")).with_secondary(
                        o_at,
                        lit(that.as_str()).concat(" is opened here, and is still open"),
                    ).with_note(relation.concat(NOTE_WINDOWS));
                    self.conflict();
                    self.report(d);
                    return;
                }
            }
            i = i + 1;
        }
    }

    /// Reports when the region is pinned by an open window.
    pub fn check_transfer_closed(&mut self, rid: RegionId, at: Span) -> (reported: bool)
        requires
            old(self).inv(),
            rid.0 < old(self)@.rt.regions.len(),
        ensures
            stepped(*old(self), *final(self)),
            final(self)@ == old(self)@.check_transfer(rid, at),
            reported == (old(self)@.pinned_from(rid, 0) is Some),
    {
        let ghost st = self@;
        let mut i: usize = 0;
        while i < self.open.len()
            invariant
                i <= self.open.len(),
                self@ == st,
                st == old(self)@,
                stepped(*old(self), *self),
                rid.0 < st.rt.regions.len(),
                st.pinned_from(rid, 0) == st.pinned_from(rid, i as int),
            decreases self.open.len() - i,
        {
            let (o, o_at) = self.open_at(i);
            let itself = self.same_region(o, rid);
            if itself || self.owns(rid, o) {
                let region = self.show_region(rid);
                let child = self.show_region(o);
                let d = if itself {
                    Diagnostic::error(
                        Code::E1005,
                        at,
                        lit(region.as_str()).concat(
                            " is open, so its handle cannot move or freeze",
                        ),
                    ).with_label(
                        lit("the transfer happens inside the open window"),
                    ).with_secondary(
                        o_at,
                        lit(region.as_str()).concat(" is open here").concat(
                            ", until its block ends",
                        ),
                    ).with_note(lit(NOTE_CLOSED))
                } else {
                    Diagnostic::error(
                        Code::E1005,
                        at,
                        lit(region.as_str()).concat(
                            " contains an open child region, so it cannot move or freeze",
                        ),
                    ).with_label(
                        lit("the transfer happens inside the open window"),
                    ).with_secondary(
                        o_at,
                        lit(child.as_str()).concat(" — owned by ").concat(region.as_str()).concat(
                            " — is open here",
                        ).concat(", until its block ends"),
                    ).with_note(lit(NOTE_CLOSED))
                };
                self.conflict();
                self.set_tainted(rid);
                self.report(d);
                return true;
            }
            i = i + 1;
        }
        false
    }
}

// ------------------------------------------------------------- freezing --

impl<'t> LowView<'t> {
    /// The region is `rid` or owned by it.
    pub open spec fn in_subtree(self, rid: RegionId, i: int) -> bool {
        i == rid.0 as int || self.owns(rid, RegionId(i as u32))
    }

    /// The site's data lives in the frozen subtree.
    pub open spec fn site_in_subtree(self, rid: RegionId, s: int) -> bool {
        self.rt.same(self.sites[s].region, rid) || self.owns(rid, self.sites[s].region)
    }

    /// Freeze a region and everything it owns: immutable forever, never
    /// freed, referencable from anywhere. The first freeze stays.
    pub open spec fn freeze(self, rid: RegionId, at: Span) -> LowView<'t> {
        LowView {
            frozen_region: Seq::new(
                self.frozen_region.len(),
                |i: int|
                    if self.frozen_region[i] is None && self.in_subtree(rid, i) {
                        Some(at)
                    } else {
                        self.frozen_region[i]
                    },
            ),
            moved: Seq::new(
                self.moved.len(),
                |i: int| self.moved[i] || self.in_subtree(rid, i),
            ),
            frozen_site: Seq::new(
                self.frozen_site.len(),
                |s: int|
                    if self.frozen_site[s] is None && self.site_in_subtree(rid, s) {
                        Some(at)
                    } else {
                        self.frozen_site[s]
                    },
            ),
            ..self
        }
    }

    /// Where a place's value (or the region value it is) was frozen.
    pub open spec fn frozen_held(self, h: Seq<(SiteId, Span)>, i: int) -> Option<Span>
        decreases h.len() - i,
    {
        if i >= h.len() {
            None
        } else {
            match self.frozen_site[h[i].0.0 as int] {
                Some(f) => Some(f),
                None => self.frozen_held(h, i + 1),
            }
        }
    }

    pub open spec fn frozen_at(self, place: PlaceId) -> Option<Span> {
        match self.frozen_held(self.sites_of(place), 0) {
            Some(f) => Some(f),
            None => match self.places.at(place).base {
                BaseView::Local(l) => match self.local_region(l) {
                    Some(rid) => self.frozen_region[rid.0 as int],
                    None => None,
                },
                BaseView::Global(..) => None,
            },
        }
    }
}

/// Freezing is permanent: what is frozen stays frozen where it was.
pub proof fn law_freeze_is_permanent(st: LowView<'_>, rid: RegionId, at: Span, s: int)
    requires
        0 <= s < st.frozen_site.len(),
        st.frozen_site[s] is Some,
    ensures
        st.freeze(rid, at).frozen_site[s] == st.frozen_site[s],
{
}

/// Freezing is deep: every site of the region and of the regions it owns
/// is frozen afterwards.
pub proof fn law_freeze_is_deep(st: LowView<'_>, rid: RegionId, at: Span, s: int)
    requires
        0 <= s < st.frozen_site.len(),
        st.site_in_subtree(rid, s),
    ensures
        st.freeze(rid, at).frozen_site[s] is Some,
{
}

impl<'t> Lowerer<'t> {
    #[verifier::truncate]
    pub fn freeze(&mut self, rid: RegionId, at: Span)
        requires
            old(self).inv(),
            rid.0 < old(self)@.rt.regions.len(),
        ensures
            stepped(*old(self), *final(self)),
            final(self)@ == old(self)@.freeze(rid, at),
    {
        let ghost st = self@;
        let n: usize = self.frozen_region.len();
        let mut i: usize = 0;
        while i < n
            invariant
                i <= n,
                n == st.frozen_region.len(),
                n == st.rt.regions.len(),
                st == old(self)@,
                st.wf(),
                stepped(*old(self), *self),
                rid.0 < st.rt.regions.len(),
                self@.frozen_region.len() == n,
                self@.moved.len() == n,
                forall|k: int|
                    0 <= k < i ==> #[trigger] self@.frozen_region[k] == st.freeze(
                        rid,
                        at,
                    ).frozen_region[k],
                forall|k: int|
                    i <= k < n ==> #[trigger] self@.frozen_region[k] == st.frozen_region[k],
                forall|k: int|
                    0 <= k < i ==> #[trigger] self@.moved[k] == st.freeze(rid, at).moved[k],
                forall|k: int| i <= k < n ==> #[trigger] self@.moved[k] == st.moved[k],
                self@ == (LowView {
                    frozen_region: self@.frozen_region,
                    moved: self@.moved,
                    ..st
                }),
            decreases n - i,
        {
            let id = RegionId(i as u32);
            let ghost before = self@;
            assert forall|k: RegionId, f: nat| before.owns_within(rid, k, f) == st.owns_within(rid, k, f) by {
                lemma_owns_same(before, st, rid, k, f);
            }
            let inside = i == rid.0 as usize || self.owns(rid, id);
            assert(inside == st.in_subtree(rid, i as int));
            if inside {
                if self.frozen_region[i].is_none() {
                    self.frozen_region.set(i, Some(at));
                }
                self.moved.set(i, true);
            }
            assert(self@ =~= (LowView {
                frozen_region: self@.frozen_region,
                moved: self@.moved,
                ..st
            }));
            i = i + 1;
        }
        let m: usize = self.sites.len();
        let mut s: usize = 0;
        let ghost st1 = self@;
        assert(st1.frozen_region =~= st.freeze(rid, at).frozen_region);
        assert(st1.moved =~= st.freeze(rid, at).moved);
        while s < m
            invariant
                s <= m,
                m == st.sites.len(),
                st == old(self)@,
                st.wf(),
                stepped(*old(self), *self),
                rid.0 < st.rt.regions.len(),
                st1 == (LowView {
                    frozen_region: st1.frozen_region,
                    moved: st1.moved,
                    ..st
                }),
                self@.frozen_site.len() == m,
                forall|k: int|
                    0 <= k < s ==> #[trigger] self@.frozen_site[k] == st.freeze(
                        rid,
                        at,
                    ).frozen_site[k],
                forall|k: int| s <= k < m ==> #[trigger] self@.frozen_site[k] == st.frozen_site[k],
                self@ == (LowView { frozen_site: self@.frozen_site, ..st1 }),
            decreases m - s,
        {
            let ghost before = self@;
            assert forall|k: RegionId, f: nat| before.owns_within(rid, k, f) == st.owns_within(rid, k, f) by {
                lemma_owns_same(before, st, rid, k, f);
            }
            proof {
                reveal(sites_in);
                assert(before.sites[s as int].region.0 < before.rt.regions.len());
            }
            let sr = self.sites[s].region;
            assert(sr == st.sites[s as int].region);
            let inside = self.same_region(sr, rid) || self.owns(rid, sr);
            assert(inside == st.site_in_subtree(rid, s as int));
            if inside && self.frozen_site[s].is_none() {
                self.frozen_site.set(s, Some(at));
            }
            assert(self@ =~= (LowView { frozen_site: self@.frozen_site, ..st1 }));
            s = s + 1;
        }
        assert(self@.frozen_site =~= st.freeze(rid, at).frozen_site);
        assert(self@ =~= st.freeze(rid, at));
    }

    pub fn frozen_at(&self, place: PlaceId) -> (r: Option<Span>)
        requires
            self.inv(),
            self@.places.has(place),
        ensures
            r == self@.frozen_at(place),
    {
        let h = self.sites_of(place);
        let mut i: usize = 0;
        while i < h.len()
            invariant
                i <= h.len(),
                self@.sites_ok(),
                h@ == self@.sites_of(place),
                hold_in(h@, self@.sites.len()),
                self@.frozen_held(h@, 0) == self@.frozen_held(h@, i as int),
            decreases h.len() - i,
        {
            assert(h@[i as int].0.0 < self@.sites.len());
            if let Some(f) = self.frozen_site[h[i].0.0 as usize] {
                return Some(f);
            }
            i = i + 1;
        }
        assert(base_ok(self@.places.places[place.0 as int].base, self@.locals.len()));
        match &self.places.get(place).base {
            Base::Local(l) => match self.local_region(*l) {
                Some(rid) => self.frozen_region[rid.0 as usize],
                None => None,
            },
            Base::Global(..) => None,
        }
    }
}

proof fn lemma_parent_same(a: LowView<'_>, b: LowView<'_>, r: RegionId, k: int)
    requires
        a.parent == b.parent,
        a.rt == b.rt,
    ensures
        a.parent_from(r, k) == b.parent_from(r, k),
    decreases a.parent.len() - k,
{
    if k < a.parent.len() {
        lemma_parent_same(a, b, r, k + 1);
    }
}

proof fn lemma_owns_same(a: LowView<'_>, b: LowView<'_>, anc: RegionId, r: RegionId, fuel: nat)
    requires
        a.parent == b.parent,
        a.rt == b.rt,
    ensures
        a.owns_within(anc, r, fuel) == b.owns_within(anc, r, fuel),
    decreases fuel,
{
    lemma_parent_same(a, b, r, 0);
    if fuel > 0 {
        match a.parent_of(r) {
            Some(p) => lemma_owns_same(a, b, anc, p, (fuel - 1) as nat),
            None => {},
        }
    }
}

} // verus!
