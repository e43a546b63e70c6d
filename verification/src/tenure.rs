//! What the walk demands of values and where they live: which writes are
//! refused, which regions a value may leave, what dies with a region and
//! what a name stands for, stated over the state and its diagnostics.

use vstd::prelude::*;

use crate::cfg::{BlockId, LocalId, ParamMode, RegionId, SiteId, SiteKind, StmtView};
use crate::diag::{Code, Span};
use crate::lowering::{bind_param, finished, param_declared, walked_out};
use crate::lowregion::{CONFLICTING, OUTLIVES};
use crate::lowstate::{Cx, LowView, ValView};
use crate::place::{BaseView, PlaceId, ProjView};
use crate::shape::{
    law_frozen_is_not_written, law_read_parameter_is_not_written, law_views_bind,
    law_walked_is_not_written, recorded, reported, stands, walked,
};
use crate::types::{ParamSig, TableRef, Tables, Ty, TyKind};

verus! {

// ----------------------------------------------------------------- writes --

/// What was reported stays reported.
pub open spec fn keeps_told(a: LowView<'_>, b: LowView<'_>) -> bool {
    &&& a.diags.len() <= b.diags.len()
    &&& forall|i: int| 0 <= i < a.diags.len() ==> #[trigger] b.diags[i] == a.diags[i]
}

/// Among what is newly reported is an error of the rule, there.
pub open spec fn told(a: LowView<'_>, b: LowView<'_>, code: Code, at: Span) -> bool {
    exists|k: int|
        a.diags.len() <= k < b.diags.len() && (#[trigger] b.diags[k]).code == code
            && b.diags[k].primary == at && b.diags[k].severity is Error
}

/// The place belongs to a parameter declared without a mode.
pub open spec fn only_read(st: LowView<'_>, p: PlaceId) -> bool {
    st.places.at(p).base matches BaseView::Local(l) && st.locals[l as int].param_mode == Some(
        None::<ParamMode>,
    )
}

/// The place's local may hold data that was frozen, or is itself a region
/// that was.
pub open spec fn holds_frozen(st: LowView<'_>, p: PlaceId) -> bool {
    st.places.at(p).base matches BaseView::Local(l) && ((exists|k: int|
        0 <= k < st.holds[l as int].len() && st.frozen_site[(
        #[trigger] st.holds[l as int][k]).0.0 as int] is Some) || (st.region_local[l as int]
        matches Some(Some(r)) && st.frozen_region[r.0 as int] is Some))
}

/// The place touches a receiver beyond the fields its declared view names.
pub open spec fn beyond_view(st: LowView<'_>, p: PlaceId) -> bool {
    st.view_set matches Some((l, fields, _)) && {
        let place = st.places.at(p);
        place.base == BaseView::Local(l.0) && !(place.proj.len() > 0 && (place.proj[0]
            matches ProjView::Field(f) && fields.contains(f)))
    }
}

/// The place is a region value, and an open window reaches into it.
pub open spec fn pinned_open(st: LowView<'_>, p: PlaceId) -> bool {
    st.places.at(p).base matches BaseView::Local(l) && st.places.at(p).proj.len() == 0 && (
    st.region_local[l as int] matches Some(Some(r)) && exists|i: int|
        0 <= i < st.open.len() && (st.rt.same((#[trigger] st.open[i]).0, r) || st.owns(
            r,
            st.open[i].0,
        )))
}

proof fn lemma_frozen(st: LowView<'_>, h: Seq<(SiteId, Span)>, i: int)
    requires
        0 <= i,
    ensures
        st.frozen_held(h, i) is Some <==> exists|k: int|
            i <= k < h.len() && st.frozen_site[(#[trigger] h[k]).0.0 as int] is Some,
    decreases h.len() - i,
{
    if i < h.len() {
        lemma_frozen(st, h, i + 1);
        if st.frozen_site[h[i].0.0 as int] is Some {
            assert(st.frozen_site[h[i].0.0 as int] is Some);
        }
    }
}

/// A write into frozen data is an E1012 there, and no other write is.
pub proof fn law_frozen_write<'t>(st: LowView<'t>, p: PlaceId, at: Span, verb: Seq<char>)
    ensures
        holds_frozen(st, p) ==> reported(st, st.check_frozen_write(p, at, verb), Code::E1012, at),
        !holds_frozen(st, p) ==> st.check_frozen_write(p, at, verb) == st,
{
    lemma_frozen(st, st.sites_of(p), 0);
    match st.places.at(p).base {
        BaseView::Local(l) => {
            assert(st.sites_of(p) == st.holds[l as int]);
            if exists|k: int|
                0 <= k < st.holds[l as int].len() && st.frozen_site[(
                #[trigger] st.holds[l as int][k]).0.0 as int] is Some {
                let k = choose|k: int|
                    0 <= k < st.holds[l as int].len() && st.frozen_site[(
                    #[trigger] st.holds[l as int][k]).0.0 as int] is Some;
                law_frozen_is_not_written(st, p, l, k, at, verb);
            }
        },
        _ => {},
    }
    let b = st.check_frozen_write(p, at, verb);
    if b != st {
        assert(b.diags.drop_last() =~= st.diags);
    }
}

proof fn lemma_pinned<'t>(st: LowView<'t>, rid: RegionId, i: int)
    requires
        0 <= i,
    ensures
        st.pinned_from(rid, i) is Some <==> exists|k: int|
            i <= k < st.open.len() && (st.rt.same((#[trigger] st.open[k]).0, rid) || st.owns(
                rid,
                st.open[k].0,
            )),
    decreases st.open.len() - i,
{
    if i < st.open.len() {
        lemma_pinned(st, rid, i + 1);
        if st.pins(rid, st.open[i].0) {
            assert(st.rt.same(st.open[i].0, rid) || st.owns(rid, st.open[i].0));
        }
    }
}

/// A region whose window is open, or that owns one whose window is, neither
/// moves nor freezes: an E1005 there. A closed one may.
pub proof fn law_open_region_stays<'t>(st: LowView<'t>, rid: RegionId, at: Span)
    ensures
        ({
            let pinned = exists|i: int|
                0 <= i < st.open.len() && (st.rt.same((#[trigger] st.open[i]).0, rid) || st.owns(
                    rid,
                    st.open[i].0,
                ));
            if pinned {
                reported(st, st.check_transfer(rid, at), Code::E1005, at)
            } else {
                st.check_transfer(rid, at) == st
            }
        }),
{
    lemma_pinned(st, rid, 0);
    let b = st.check_transfer(rid, at);
    if st.pinned_from(rid, 0) is Some {
        assert(b.diags.drop_last() =~= st.diags);
    }
}

/// Two windows may be open together only where neither region owns the
/// other: otherwise opening the second is an E1011 there.
pub proof fn law_windows_are_siblings<'t>(st: LowView<'t>, rid: RegionId, at: Span, i: int)
    requires
        0 <= i,
    ensures
        ({
            let clash = exists|k: int|
                i <= k < st.open.len() && !st.rt.same((#[trigger] st.open[k]).0, rid) && (st.owns(
                    st.open[k].0,
                    rid,
                ) || st.owns(rid, st.open[k].0));
            if clash {
                reported(st, st.check_antichain(rid, at, i), Code::E1011, at)
            } else {
                st.check_antichain(rid, at, i) == st
            }
        }),
    decreases st.open.len() - i,
{
    if i < st.open.len() {
        let o = st.open[i].0;
        if !st.rt.same(o, rid) && (st.owns(o, rid) || st.owns(rid, o)) {
            let b = st.check_antichain(rid, at, i);
            assert(b.diags.drop_last() =~= st.diags);
            assert(!st.rt.same(st.open[i].0, rid));
        } else {
            law_windows_are_siblings(st, rid, at, i + 1);
        }
    }
}

/// A region owns what names it as its parent, and what that owns.
pub proof fn law_parents_own<'t>(st: LowView<'t>, k: int, p: RegionId, r: RegionId)
    requires
        0 <= k < st.parent.len(),
        k <= u32::MAX,
        st.parent[k] == Some(p),
        st.rt.same(RegionId(k as u32), r),
        forall|i: int|
            0 <= i < k ==> !((#[trigger] st.parent[i]) is Some && st.rt.same(RegionId(i as u32), r)),
        st.rt.regions.len() > 0,
    ensures
        st.owns(p, r),
        forall|anc: RegionId, n: nat| #[trigger]
            st.owns_within(anc, p, n) ==> st.owns_within(anc, r, n + 1),
{
    lemma_parent(st, r, 0, k);
    assert(st.rt.same(p, p));
}

proof fn lemma_parent<'t>(st: LowView<'t>, r: RegionId, i: int, k: int)
    requires
        0 <= i <= k < st.parent.len(),
        st.parent[k] is Some && st.rt.same(RegionId(k as u32), r),
        forall|j: int|
            i <= j < k ==> !((#[trigger] st.parent[j]) is Some && st.rt.same(RegionId(j as u32), r)),
    ensures
        st.parent_from(r, i) == st.parent[k],
    decreases k - i,
{
    if i < k {
        assert(!(st.parent[i] is Some && st.rt.same(RegionId(i as u32), r)));
        lemma_parent(st, r, i + 1, k);
    }
}

/// Nothing owns a region without a parent.
pub proof fn law_orphans_are_free<'t>(st: LowView<'t>, anc: RegionId, r: RegionId, i: int)
    requires
        0 <= i,
        forall|j: int|
            i <= j < st.parent.len() ==> !((#[trigger] st.parent[j]) is Some && st.rt.same(
                RegionId(j as u32),
                r,
            )),
    ensures
        st.parent_from(r, i) is None,
        i == 0 ==> !st.owns(anc, r),
    decreases st.parent.len() - i,
{
    if i < st.parent.len() {
        assert(!(st.parent[i] is Some && st.rt.same(RegionId(i as u32), r)));
        law_orphans_are_free(st, anc, r, i + 1);
    }
}

/// A change in place is held to every rule of writing: frozen data, a
/// parameter without a mode, a walked container and a declared view each
/// refuse it there. Where none does, nothing is said.
pub proof fn law_changes_are_checked<'t>(st: LowView<'t>, p: PlaceId, at: Span)
    ensures
        ({
            let b = st.emit_mutate(p, at);
            &&& keeps_told(st, b)
            &&& holds_frozen(st, p) ==> told(st, b, Code::E1012, at)
            &&& only_read(st, p) ==> told(st, b, Code::E1014, at)
            &&& walked(st, p) ==> told(st, b, Code::E1013, at)
            &&& beyond_view(st, p) ==> told(st, b, Code::E1008, at)
            &&& !holds_frozen(st, p) && !only_read(st, p) && !walked(st, p) && !beyond_view(st, p)
                ==> b.diags == st.diags
        }),
{
    let s1 = st.check_view(p, at);
    let s2 = s1.check_frozen_write(p, at, "modified"@);
    let s3 = s2.check_read_param(p, at, "modified"@);
    let s4 = s3.check_iter_claim(p, at, "modified"@);
    law_views_bind(st, p, at);
    law_frozen_write(s1, p, at, "modified"@);
    law_read_parameter_is_not_written(s2, p, at, "modified"@);
    law_walked_is_not_written(s3, p, at, "modified"@);
    assert(st.emit_mutate(p, at).diags == s4.diags);
    assert(holds_frozen(s1, p) == holds_frozen(st, p));
    assert(walked(s3, p) == walked(st, p));
    lemma_stack(st, s1, s2, s3, s4, at);
}

/// Four rules in turn, each of which says one thing or nothing.
proof fn lemma_stack<'t>(
    s0: LowView<'t>,
    s1: LowView<'t>,
    s2: LowView<'t>,
    s3: LowView<'t>,
    s4: LowView<'t>,
    at: Span,
)
    requires
        s1.diags == s0.diags || reported(s0, s1, Code::E1008, at),
        s2.diags == s1.diags || reported(s1, s2, Code::E1012, at),
        s3.diags == s2.diags || reported(s2, s3, Code::E1014, at),
        s4.diags == s3.diags || reported(s3, s4, Code::E1013, at),
    ensures
        keeps_told(s0, s4),
        s1.diags != s0.diags ==> told(s0, s4, Code::E1008, at),
        s2.diags != s1.diags ==> told(s0, s4, Code::E1012, at),
        s3.diags != s2.diags ==> told(s0, s4, Code::E1014, at),
        s4.diags != s3.diags ==> told(s0, s4, Code::E1013, at),
{
    assert forall|a: LowView<'t>, b: LowView<'t>, c: Code| #[trigger]
        reported(a, b, c, at) implies keeps_told(a, b) && b.diags[a.diags.len() as int].code == c
        && b.diags[a.diags.len() as int].primary == at && b.diags[a.diags.len() as int].severity
        is Error by {
        assert forall|i: int| 0 <= i < a.diags.len() implies #[trigger] b.diags[i] == a.diags[i] by {
            assert(b.diags.drop_last()[i] == b.diags[i]);
        }
    }
    if s1.diags != s0.diags {
        assert(s4.diags[s0.diags.len() as int].code == Code::E1008);
    }
    if s2.diags != s1.diags {
        assert(s4.diags[s1.diags.len() as int].code == Code::E1012);
    }
    if s3.diags != s2.diags {
        assert(s4.diags[s2.diags.len() as int].code == Code::E1014);
    }
    if s4.diags != s3.diags {
        assert(s4.diags[s3.diags.len() as int].code == Code::E1013);
    }
}

/// A new value is held to them too; replacing a whole value is no write
/// into the frozen one it replaces.
pub proof fn law_initializations_are_checked<'t>(st: LowView<'t>, p: PlaceId, at: Span)
    ensures
        ({
            let b = st.emit_init(p, at);
            let into = holds_frozen(st, p) && st.places.at(p).proj.len() > 0;
            &&& keeps_told(st, b)
            &&& into ==> told(st, b, Code::E1012, at)
            &&& only_read(st, p) ==> told(st, b, Code::E1014, at)
            &&& walked(st, p) ==> told(st, b, Code::E1013, at)
            &&& beyond_view(st, p) ==> told(st, b, Code::E1008, at)
            &&& !into && !only_read(st, p) && !walked(st, p) && !beyond_view(st, p) ==> b.diags
                == st.diags
        }),
{
    let projected = st.places.at(p).proj.len() > 0;
    let verb = if projected {
        "assigned through"@
    } else {
        "assigned"@
    };
    let s1 = st.check_view(p, at);
    let s2 = if projected {
        s1.check_frozen_write(p, at, "assigned through"@)
    } else {
        s1
    };
    let s3 = s2.check_read_param(p, at, verb);
    let s4 = s3.check_iter_claim(p, at, "assigned"@);
    law_views_bind(st, p, at);
    law_frozen_write(s1, p, at, "assigned through"@);
    law_read_parameter_is_not_written(s2, p, at, verb);
    law_walked_is_not_written(s3, p, at, "assigned"@);
    assert(st.emit_init(p, at).diags == s4.diags);
    assert(holds_frozen(s1, p) == holds_frozen(st, p));
    assert(walked(s3, p) == walked(st, p));
    lemma_stack(st, s1, s2, s3, s4, at);
}

/// Lending a place `mut` is held to the rules of writing, and a region
/// value whose window is open is not lent so.
pub proof fn law_lends_are_checked<'t>(st: LowView<'t>, p: PlaceId, at: Span)
    ensures
        ({
            let b = st.lend_mut(p, at);
            &&& keeps_told(st, b)
            &&& holds_frozen(st, p) ==> told(st, b, Code::E1012, at)
            &&& only_read(st, p) ==> told(st, b, Code::E1014, at)
            &&& walked(st, p) ==> told(st, b, Code::E1013, at)
            &&& pinned_open(st, p) ==> told(st, b, Code::E1005, at)
            &&& !holds_frozen(st, p) && !only_read(st, p) && !walked(st, p) && !pinned_open(st, p)
                ==> b.diags == st.diags
        }),
{
    let s2 = st.check_frozen_write(p, at, "passed as `mut`"@);
    let s3 = s2.check_read_param(p, at, "lent `mut`"@);
    let s4 = s3.check_iter_claim(p, at, "lent `mut`"@);
    let s5 = s4.check_region_lend(p, at);
    law_frozen_write(st, p, at, "passed as `mut`"@);
    law_read_parameter_is_not_written(s2, p, at, "lent `mut`"@);
    law_walked_is_not_written(s3, p, at, "lent `mut`"@);
    assert(walked(s3, p) == walked(st, p));
    lemma_stack(st, st, s2, s3, s4, at);
    if let Some(r) = s4.place_region(p) {
        law_open_region_stays(s4, r, at);
        lemma_same_owns(st, s4);
        assert(st.rt == s4.rt && st.open == s4.open);
    }
    lemma_pass(s5, p);
    if s5.diags != s4.diags {
        assert(s5.diags[s4.diags.len() as int].code == Code::E1005);
        assert forall|i: int| 0 <= i < s4.diags.len() implies #[trigger] s5.diags[i]
            == s4.diags[i] by {
            assert(s5.diags.drop_last()[i] == s5.diags[i]);
        }
    }
    lemma_told_on(st, s4, s5, at);
}

proof fn lemma_told_on<'t>(a: LowView<'t>, b: LowView<'t>, c: LowView<'t>, at: Span)
    requires
        keeps_told(a, b),
        keeps_told(b, c),
    ensures
        keeps_told(a, c),
        forall|code: Code| #[trigger] told(a, b, code, at) ==> told(a, c, code, at),
{
    assert forall|code: Code| #[trigger] told(a, b, code, at) implies told(a, c, code, at) by {
        let k = choose|k: int|
            a.diags.len() <= k < b.diags.len() && (#[trigger] b.diags[k]).code == code
                && b.diags[k].primary == at && b.diags[k].severity is Error;
        assert(c.diags[k] == b.diags[k]);
    }
}

proof fn lemma_pass<'t>(st: LowView<'t>, p: PlaceId)
    ensures
        st.escape_to_callee(p).diags == st.diags,
{
    let s = st.mark_region_lent(p);
    let sites = crate::lowregion::held_sites(s.sites_of(p));
    lemma_marks(s, sites, sites.len(), crate::lowregion::PASSED@);
}

proof fn lemma_marks<'t>(st: LowView<'t>, sites: Seq<SiteId>, n: nat, why: Seq<char>)
    ensures
        st.mark_escapes(sites, n, why).diags == st.diags,
    decreases n,
{
    if n > 0 {
        lemma_marks(st, sites, (n - 1) as nat, why);
    }
}

/// Who owns whom is a matter of the regions and their parents alone.
proof fn lemma_same_owns<'t>(a: LowView<'t>, b: LowView<'t>)
    requires
        a.rt == b.rt,
        a.parent == b.parent,
    ensures
        forall|x: RegionId, y: RegionId| #[trigger] a.owns(x, y) == b.owns(x, y),
{
    assert forall|x: RegionId, y: RegionId| #[trigger] a.owns(x, y) == b.owns(x, y) by {
        lemma_same_within(a, b, x, y, a.rt.regions.len());
    }
}

/// Two states with the same regions and the same parents agree on who owns
/// whom.
pub proof fn law_ownership_is_structural<'t>(
    a: LowView<'t>,
    b: LowView<'t>,
    x: RegionId,
    y: RegionId,
)
    requires
        a.rt == b.rt,
        a.parent == b.parent,
    ensures
        a.owns(x, y) == b.owns(x, y),
{
    lemma_same_within(a, b, x, y, a.rt.regions.len());
}

proof fn lemma_same_within<'t>(a: LowView<'t>, b: LowView<'t>, x: RegionId, y: RegionId, n: nat)
    requires
        a.rt == b.rt,
        a.parent == b.parent,
    ensures
        a.owns_within(x, y, n) == b.owns_within(x, y, n),
    decreases n,
{
    lemma_same_parent(a, b, y, 0);
    if n > 0 {
        if let Some(p) = a.parent_of(y) {
            lemma_same_within(a, b, x, p, (n - 1) as nat);
        }
    }
}

proof fn lemma_same_parent<'t>(a: LowView<'t>, b: LowView<'t>, r: RegionId, i: int)
    requires
        a.rt == b.rt,
        a.parent == b.parent,
    ensures
        a.parent_from(r, i) == b.parent_from(r, i),
    decreases a.parent.len() - i,
{
    if i < a.parent.len() {
        lemma_same_parent(a, b, r, i + 1);
    }
}

/// A move of what an enclosing `for` walks is an E1013 there, one beyond the
/// declared view an E1008, one of a region whose window is open an E1005;
/// another move is none of them. A region value that moves is no longer this
/// frame's to free.
pub proof fn law_moves_are_checked<'t>(st: LowView<'t>, p: PlaceId, at: Span)
    requires
        st.places.at(p).base is Local,
    ensures
        ({
            let b = st.emit_move(p, at);
            &&& walked(st, p) ==> told(st, b, Code::E1013, at)
            &&& beyond_view(st, p) ==> told(st, b, Code::E1008, at)
            &&& !walked(st, p) && pinned_open(st, p) ==> told(st, b, Code::E1005, at)
            &&& !walked(st, p) && !beyond_view(st, p) && !pinned_open(st, p) ==> b.diags
                == st.diags
            &&& !walked(st, p) ==> (st.place_region(p) matches Some(r) ==> r.0 < st.moved.len()
                ==> b.moved[r.0 as int])
        }),
{
    let s1 = st.check_view(p, at);
    law_views_bind(st, p, at);
    law_walked_is_not_written(s1, p, at, "moved away"@);
    assert(walked(s1, p) == walked(st, p));
    crate::shape::law_claims_hit(s1, p);
    let s2 = s1.check_iter_claim(p, at, "moved away"@);
    lemma_stack(st, s1, s1, s1, s2, at);
    if !walked(st, p) {
        match s1.place_region(p) {
            Some(r) => {
                law_open_region_stays(s1, r, at);
                lemma_same_owns(st, s1);
                let s3 = s1.check_transfer(r, at);
                if s3.diags != s1.diags {
                    assert(s3.diags[s1.diags.len() as int].code == Code::E1005);
                    assert forall|i: int| 0 <= i < s1.diags.len() implies #[trigger] s3.diags[i]
                        == s1.diags[i] by {
                        assert(s3.diags.drop_last()[i] == s3.diags[i]);
                    }
                }
                lemma_told_on(st, s1, s3, at);
            },
            None => {},
        }
    }
}

// ---------------------------------------------------------------- leaving --

/// A value allocated in a region of this frame may not leave it: an E1010
/// there. One that was frozen, that a shared cell owns, or that lives in a
/// region that outlives the frame may.
pub proof fn law_frame_data_stays<'t>(st: LowView<'t>, s: SiteId, at: Span)
    ensures
        ({
            let k = s.0 as int;
            let r = st.sites[k].region;
            let exempt = st.escape[k] == Some(CONFLICTING@) || st.frozen_site[k] is Some
                || st.shared_site[k];
            if !exempt && st.rt.binding(r) is Some && (st.rt.binding(r)->0) is Local {
                reported(st, st.outlive_one(s, at), Code::E1010, at)
            } else {
                st.outlive_one(s, at).diags == st.diags
            }
        }),
{
    let b = st.outlive_one(s, at);
    if b.diags != st.diags {
        assert(b.diags.drop_last() =~= st.diags);
    }
}

/// Module state outlives every call: storing a value into it that lives in
/// the caller's region or in one of this frame is an E1010 there.
pub proof fn law_module_state_outlives<'t>(st: LowView<'t>, s: SiteId, at: Span)
    ensures
        ({
            let k = s.0 as int;
            let r = st.sites[k].region;
            let exempt = st.frozen_site[k] is Some || st.shared_site[k];
            if !exempt && st.rt.binding(r) is Some && !((st.rt.binding(r)->0) is Static) {
                reported(st, st.static_one(s, at), Code::E1010, at)
            } else {
                st.static_one(s, at).diags == st.diags
            }
        }),
{
    let b = st.static_one(s, at);
    if b.diags != st.diags {
        assert(b.diags.drop_last() =~= st.diags);
    }
}

/// Storing one value inside another demands one region of both: where the
/// two cannot be one, an E1004 there; where they can, they are one from then
/// on. Data that was frozen, that a shared cell owns, or that was reported
/// already is not asked.
pub proof fn law_stores_join_regions<'t>(
    st: LowView<'t>,
    sites: Seq<SiteId>,
    i: int,
    target: RegionId,
    container: Option<Span>,
    at: Span,
)
    requires
        0 <= i < sites.len(),
    ensures
        ({
            let k = sites[i].0 as int;
            let r = st.sites[k].region;
            let out = st.demand_store(sites, i, target, container, at);
            let exempt = st.escape[k] == Some(CONFLICTING@) || st.frozen_site[k] is Some
                || st.shared_site[k];
            let one = st.rt.same(target, r);
            let bound = (st.rt.binding(target), st.rt.binding(r));
            if exempt {
                out == st.demand_store(sites, i + 1, target, container, at)
            } else if one || (bound.0 is Some) != (bound.1 is Some) || (bound.0 is Some && bound.0
                == bound.1) {
                out == (LowView { rt: st.rt.unify(target, r), ..st }).demand_store(
                    sites,
                    i + 1,
                    target,
                    container,
                    at,
                )
            } else {
                reported(st, out, Code::E1004, at) && out.escape == (if st.escape[k] is None {
                    st.escape.update(k, Some(CONFLICTING@))
                } else {
                    st.escape
                })
            }
        }),
{
    let out = st.demand_store(sites, i, target, container, at);
    let r = st.sites[sites[i].0 as int].region;
    if !st.store_exempt(sites[i]) && !(st.rt.outcome(target, r) is Met) {
        assert(out.diags.drop_last() =~= st.diags);
    }
}

// ---------------------------------------------------------------- closing --

/// The data dies with the region: it lives there, and no shared cell owns
/// it.
pub open spec fn perishes(st: LowView<'_>, s: SiteId, rid: RegionId) -> bool {
    !st.shared_site[s.0 as int] && st.rt.same(st.sites[s.0 as int].region, rid)
        && st.escape[s.0 as int] != Some(CONFLICTING@)
}

/// Two states that agree on what dies with a region.
spec fn agree(a: LowView<'_>, b: LowView<'_>) -> bool {
    &&& a.sites == b.sites
    &&& a.shared_site == b.shared_site
    &&& a.rt == b.rt
    &&& a.holds == b.holds
    &&& forall|s: SiteId, rid: RegionId|
        s.0 < a.sites.len() ==> #[trigger] perishes(a, s, rid) == perishes(b, s, rid)
}

proof fn lemma_escape_agrees<'t>(
    st: LowView<'t>,
    rid: RegionId,
    site: SiteId,
    escape_at: Span,
    close_at: Span,
    binding: Option<Seq<char>>,
)
    requires
        st.escape.len() == st.sites.len(),
        site.0 < st.sites.len(),
    ensures
        ({
            let b = st.close_escape(rid, site, escape_at, close_at, binding);
            &&& agree(st, b)
            &&& reported(st, b, Code::E1010, escape_at)
            &&& b.escape.len() == b.sites.len()
        }),
{
    let b = st.close_escape(rid, site, escape_at, close_at, binding);
    reveal_strlit("conflicting placement");
    reveal_strlit("outlives its region");
    assert(CONFLICTING@ == "conflicting placement"@);
    assert(OUTLIVES@ == "outlives its region"@);
    assert(CONFLICTING@.len() != OUTLIVES@.len());
    assert(b.diags.drop_last() =~= st.diags);
    assert forall|s: SiteId, r: RegionId| s.0 < st.sites.len() implies #[trigger] perishes(st, s, r)
        == perishes(b, s, r) by {
    }
}

proof fn lemma_report_told<'t>(a: LowView<'t>, b: LowView<'t>, at: Span)
    requires
        reported(a, b, Code::E1010, at),
    ensures
        keeps_told(a, b),
        told(a, b, Code::E1010, at),
{
    assert forall|i: int| 0 <= i < a.diags.len() implies #[trigger] b.diags[i] == a.diags[i] by {
        assert(b.diags.drop_last()[i] == b.diags[i]);
    }
    assert(b.diags[a.diags.len() as int].code == Code::E1010);
}

proof fn lemma_sweep_value<'t>(
    st: LowView<'t>,
    sites: Seq<SiteId>,
    i: int,
    rid: RegionId,
    escape_at: Span,
    close_at: Span,
)
    requires
        0 <= i,
        st.escape.len() == st.sites.len(),
        forall|k: int| 0 <= k < sites.len() ==> (#[trigger] sites[k]).0 < st.sites.len(),
    ensures
        ({
            let b = st.sweep_value(sites, i, rid, escape_at, close_at);
            &&& agree(st, b)
            &&& keeps_told(st, b)
            &&& b.escape.len() == b.sites.len()
            &&& (exists|k: int| i <= k < sites.len() && perishes(st, #[trigger] sites[k], rid))
                ==> told(st, b, Code::E1010, escape_at)
            &&& !(exists|k: int| i <= k < sites.len() && perishes(st, #[trigger] sites[k], rid))
                ==> b.diags == st.diags && b.tainted == st.tainted
        }),
    decreases sites.len() - i,
{
    if i < sites.len() {
        let s1 = if perishes(st, sites[i], rid) {
            st.close_escape(rid, sites[i], escape_at, close_at, None)
        } else {
            st
        };
        if perishes(st, sites[i], rid) {
            lemma_escape_agrees(st, rid, sites[i], escape_at, close_at, None);
            lemma_report_told(st, s1, escape_at);
        }
        lemma_sweep_value(s1, sites, i + 1, rid, escape_at, close_at);
        let b = s1.sweep_value(sites, i + 1, rid, escape_at, close_at);
        assert(b == st.sweep_value(sites, i, rid, escape_at, close_at));
        lemma_told_on(st, s1, b, escape_at);
        if exists|k: int| i <= k < sites.len() && perishes(st, #[trigger] sites[k], rid) {
            let k = choose|k: int| i <= k < sites.len() && perishes(st, #[trigger] sites[k], rid);
            if k > i {
                assert(perishes(s1, sites[k], rid));
                assert(told(s1, b, Code::E1010, escape_at));
                lemma_told_from(st, s1, b, escape_at);
            }
        } else {
            assert forall|k: int| i + 1 <= k < sites.len() implies !perishes(
                s1,
                #[trigger] sites[k],
                rid,
            ) by {
                assert(!perishes(st, sites[k], rid));
            }
        }
    }
}

proof fn lemma_told_from<'t>(a: LowView<'t>, b: LowView<'t>, c: LowView<'t>, at: Span)
    requires
        keeps_told(a, b),
        told(b, c, Code::E1010, at),
    ensures
        told(a, c, Code::E1010, at),
{
    let k = choose|k: int|
        b.diags.len() <= k < c.diags.len() && (#[trigger] c.diags[k]).code == Code::E1010
            && c.diags[k].primary == at && c.diags[k].severity is Error;
    assert(c.diags[k].primary == at);
}

proof fn lemma_sweep_held<'t>(
    st: LowView<'t>,
    l: int,
    h: Seq<(SiteId, Span)>,
    j: int,
    rid: RegionId,
    close_at: Span,
)
    requires
        0 <= j,
        st.escape.len() == st.sites.len(),
        forall|k: int| 0 <= k < h.len() ==> (#[trigger] h[k]).0.0 < st.sites.len(),
    ensures
        ({
            let b = st.sweep_held(l, h, j, rid, close_at);
            &&& agree(st, b)
            &&& keeps_told(st, b)
            &&& b.escape.len() == b.sites.len()
            &&& forall|k: int|
                j <= k < h.len() && perishes(st, (#[trigger] h[k]).0, rid) ==> told(
                    st,
                    b,
                    Code::E1010,
                    h[k].1,
                )
            &&& !(exists|k: int| j <= k < h.len() && perishes(st, (#[trigger] h[k]).0, rid))
                ==> b.diags == st.diags && b.tainted == st.tainted
        }),
    decreases h.len() - j,
{
    if j < h.len() {
        let s1 = if perishes(st, h[j].0, rid) {
            st.close_escape(rid, h[j].0, h[j].1, close_at, Some(st.locals[l].name))
        } else {
            st
        };
        if perishes(st, h[j].0, rid) {
            lemma_escape_agrees(st, rid, h[j].0, h[j].1, close_at, Some(st.locals[l].name));
            lemma_report_told(st, s1, h[j].1);
        }
        lemma_sweep_held(s1, l, h, j + 1, rid, close_at);
        let b = s1.sweep_held(l, h, j + 1, rid, close_at);
        assert(b == st.sweep_held(l, h, j, rid, close_at));
        assert forall|k: int| j <= k < h.len() && perishes(st, (#[trigger] h[k]).0, rid) implies told(
            st,
            b,
            Code::E1010,
            h[k].1,
        ) by {
            if k > j {
                assert(perishes(s1, h[k].0, rid));
                lemma_told_from(st, s1, b, h[k].1);
            } else {
                lemma_told_on(st, s1, b, h[k].1);
            }
        }
        if !(exists|k: int| j <= k < h.len() && perishes(st, (#[trigger] h[k]).0, rid)) {
            assert(!perishes(st, h[j].0, rid));
            assert forall|k: int| j + 1 <= k < h.len() implies !perishes(
                s1,
                (#[trigger] h[k]).0,
                rid,
            ) by {
                assert(!perishes(st, h[k].0, rid));
            }
        }
    }
}

proof fn lemma_sweep_locals<'t>(st: LowView<'t>, l: int, mark: int, rid: RegionId, close_at: Span)
    requires
        0 <= l,
        st.escape.len() == st.sites.len(),
        forall|x: int, k: int|
            0 <= x < st.holds.len() && 0 <= k < st.holds[x].len() ==> (
            #[trigger] st.holds[x][k]).0.0 < st.sites.len(),
    ensures
        ({
            let b = st.sweep_locals(l, mark, rid, close_at);
            &&& agree(st, b)
            &&& keeps_told(st, b)
            &&& forall|x: int, k: int|
                l <= x < mark && x < st.holds.len() && 0 <= k < st.holds[x].len() && perishes(
                    st,
                    (#[trigger] st.holds[x][k]).0,
                    rid,
                ) ==> told(st, b, Code::E1010, st.holds[x][k].1)
            &&& !(exists|x: int, k: int|
                l <= x < mark && x < st.holds.len() && 0 <= k < st.holds[x].len() && perishes(
                    st,
                    (#[trigger] st.holds[x][k]).0,
                    rid,
                )) ==> b.diags == st.diags && b.tainted == st.tainted
        }),
    decreases mark - l,
{
    if l < mark && l < st.holds.len() {
        let s1 = st.sweep_held(l, st.holds[l], 0, rid, close_at);
        lemma_sweep_held(st, l, st.holds[l], 0, rid, close_at);
        lemma_sweep_locals(s1, l + 1, mark, rid, close_at);
        let b = s1.sweep_locals(l + 1, mark, rid, close_at);
        assert forall|x: int, k: int|
            l <= x < mark && x < st.holds.len() && 0 <= k < st.holds[x].len() && perishes(
                st,
                (#[trigger] st.holds[x][k]).0,
                rid,
            ) implies told(st, b, Code::E1010, st.holds[x][k].1) by {
            let at = st.holds[x][k].1;
            if x == l {
                assert(told(st, s1, Code::E1010, at));
                lemma_told_on(st, s1, b, at);
            } else {
                assert(perishes(s1, s1.holds[x][k].0, rid));
                assert(told(s1, b, Code::E1010, at));
                lemma_told_from(st, s1, b, at);
            }
        }
        if !(exists|x: int, k: int|
            l <= x < mark && x < st.holds.len() && 0 <= k < st.holds[x].len() && perishes(
                st,
                (#[trigger] st.holds[x][k]).0,
                rid,
            )) {
            assert forall|k: int| 0 <= k < st.holds[l].len() implies !perishes(
                st,
                (#[trigger] st.holds[l][k]).0,
                rid,
            ) by {}
            assert forall|x: int, k: int|
                l + 1 <= x < mark && x < s1.holds.len() && 0 <= k < s1.holds[x].len() implies !perishes(
                s1,
                (#[trigger] s1.holds[x][k]).0,
                rid,
            ) by {
                assert(!perishes(st, st.holds[x][k].0, rid));
            }
        }
    }
}

/// Data dies with its region, as one: a block's value that holds any of it
/// when the region closes is an E1010 where the value comes from, and a name
/// from outside the block that may hold any is one where it flowed in.
/// Where nothing of the kind is held, nothing is said.
pub proof fn law_nothing_outlives_its_region<'t>(
    st: LowView<'t>,
    rid: RegionId,
    mark: int,
    close_at: Span,
    v: ValView,
)
    requires
        st.escape.len() == st.sites.len(),
        forall|k: int| 0 <= k < v.sites.len() ==> (#[trigger] v.sites[k]).0 < st.sites.len(),
        forall|x: int, k: int|
            0 <= x < st.holds.len() && 0 <= k < st.holds[x].len() ==> (
            #[trigger] st.holds[x][k]).0.0 < st.sites.len(),
    ensures
        ({
            let b = st.sweep_close(rid, mark, close_at, v);
            let from = match v.origin {
                Some(o) => o,
                None => close_at,
            };
            let value = exists|k: int|
                0 <= k < v.sites.len() && perishes(st, #[trigger] v.sites[k], rid);
            let held = exists|x: int, k: int|
                0 <= x < mark && x < st.holds.len() && 0 <= k < st.holds[x].len() && perishes(
                    st,
                    (#[trigger] st.holds[x][k]).0,
                    rid,
                );
            &&& value ==> told(st, b, Code::E1010, from)
            &&& forall|x: int, k: int|
                0 <= x < mark && x < st.holds.len() && 0 <= k < st.holds[x].len() && perishes(
                    st,
                    (#[trigger] st.holds[x][k]).0,
                    rid,
                ) ==> told(st, b, Code::E1010, st.holds[x][k].1)
            &&& !value && !held ==> b.diags == st.diags && b.tainted == st.tainted
        }),
{
    let from = match v.origin {
        Some(o) => o,
        None => close_at,
    };
    let s1 = st.sweep_value(v.sites, 0, rid, from, close_at);
    let s2 = s1.sweep_locals(0, mark, rid, close_at);
    let b = s2.promote_if_clean(rid);
    lemma_sweep_value(st, v.sites, 0, rid, from, close_at);
    lemma_sweep_locals(s1, 0, mark, rid, close_at);
    assert(b == st.sweep_close(rid, mark, close_at, v));
    assert(b.diags == s2.diags);
    lemma_told_on(st, s1, s2, from);
    if exists|k: int| 0 <= k < v.sites.len() && perishes(st, #[trigger] v.sites[k], rid) {
        assert(told(st, s1, Code::E1010, from));
        assert(told(st, s2, Code::E1010, from));
        lemma_told_on(st, s2, b, from);
    }
    assert forall|x: int, k: int|
        0 <= x < mark && x < st.holds.len() && 0 <= k < st.holds[x].len() && perishes(
            st,
            (#[trigger] st.holds[x][k]).0,
            rid,
        ) implies told(st, b, Code::E1010, st.holds[x][k].1) by {
        let at = st.holds[x][k].1;
        assert(perishes(s1, s1.holds[x][k].0, rid));
        assert(told(s1, s2, Code::E1010, at));
        lemma_told_from(st, s1, s2, at);
        lemma_told_on(st, s2, b, at);
    }
    if !(exists|x: int, k: int|
        0 <= x < mark && x < st.holds.len() && 0 <= k < st.holds[x].len() && perishes(
            st,
            (#[trigger] st.holds[x][k]).0,
            rid,
        )) {
        assert forall|x: int, k: int|
            0 <= x < mark && x < s1.holds.len() && 0 <= k < s1.holds[x].len() implies !perishes(
            s1,
            (#[trigger] s1.holds[x][k]).0,
            rid,
        ) by {
            assert(!perishes(st, st.holds[x][k].0, rid));
        }
    }
}

/// A region is a stack frame's own iff nothing went wrong with it, it never
/// moved and its handle never left.
pub proof fn law_promoted_iff_clean<'t>(st: LowView<'t>, rid: RegionId)
    ensures
        ({
            let r = rid.0 as int;
            let b = st.promote_if_clean(rid);
            if st.tainted[r] || st.moved[r] || st.lent[r] {
                b == st
            } else {
                b.promoted == st.promoted.push(rid) && b.diags == st.diags && b.blocks == st.blocks
            }
        }),
{
}

/// Freezing reaches the region and what it owns, and nothing else; what is
/// frozen is no longer this frame's to free.
pub proof fn law_freeze_reaches_the_subtree<'t>(st: LowView<'t>, rid: RegionId, at: Span, i: int)
    ensures
        0 <= i < st.frozen_site.len() ==> (st.freeze(rid, at).frozen_site[i] == (
        if st.frozen_site[i] is None && (st.rt.same(st.sites[i].region, rid) || st.owns(
            rid,
            st.sites[i].region,
        )) {
            Some(at)
        } else {
            st.frozen_site[i]
        })),
        0 <= i < st.frozen_region.len() ==> (st.freeze(rid, at).frozen_region[i] == (
        if st.frozen_region[i] is None && (i == rid.0 as int || st.owns(rid, RegionId(i as u32))) {
            Some(at)
        } else {
            st.frozen_region[i]
        })),
        0 <= i < st.moved.len() ==> (st.freeze(rid, at).moved[i] == (st.moved[i] || i
            == rid.0 as int || st.owns(rid, RegionId(i as u32)))),
{
}

// ------------------------------------------------------------------ names --

/// A name stands for what declared it last in the innermost scope that has
/// it; the other names are as they were, and they are again once the scope
/// has ended.
pub proof fn law_names_are_lexical<'t>(
    st: LowView<'t>,
    tabs: Tables<'_>,
    name: Seq<char>,
    other: Seq<char>,
    span: Span,
    ty: Option<Ty>,
)
    requires
        st.scopes.len() > 0,
        other != name,
    ensures
        ({
            let b = st.declare(tabs, name, span, ty);
            &&& b.lookup(name) == Some(LocalId(st.locals.len() as u32))
            &&& b.lookup(other) == st.lookup(other)
            &&& b.locals.last().name == name && b.locals.last().span == span
            &&& st.push_scope().lookup(name) == st.lookup(name)
            &&& st.push_scope().declare(tabs, name, span, ty).lookup(name) == Some(
                LocalId(st.locals.len() as u32),
            )
            &&& st.push_scope().declare(tabs, name, span, ty).pop_scope().lookup(name)
                == st.lookup(name)
        }),
{
    let n = st.scopes.len();
    let b = st.declare(tabs, name, span, ty);
    let top = st.scopes.last();
    let names = top.names.push((name, st.next_local()));
    lemma_found_earlier(top.names, names, other, top.names.len());
    lemma_scoped_prefix(st.scopes, b.scopes, other, (n - 1) as nat);
    let inner = st.push_scope();
    lemma_scoped_prefix(st.scopes, inner.scopes, name, n);
    assert(crate::lowstate::find_name(inner.scopes[n as int].names, name, 0) is None);
    let deep = inner.declare(tabs, name, span, ty);
    assert(deep.pop_scope().scopes =~= st.scopes);
    assert(deep.scopes[n as int].names =~= Seq::empty().push((name, st.next_local())));
    reveal_with_fuel(crate::lowstate::find_name, 2);
}

proof fn lemma_found_earlier(
    a: Seq<(Seq<char>, LocalId)>,
    b: Seq<(Seq<char>, LocalId)>,
    name: Seq<char>,
    n: nat,
)
    requires
        n <= a.len() <= b.len(),
        forall|i: int| 0 <= i < a.len() ==> #[trigger] b[i] == a[i],
    ensures
        crate::lowstate::find_name(a, name, n) == crate::lowstate::find_name(b, name, n),
    decreases n,
{
    if n > 0 {
        lemma_found_earlier(a, b, name, (n - 1) as nat);
    }
}

proof fn lemma_scoped_prefix<'t>(
    a: Seq<crate::lowstate::ScopeView<'t>>,
    b: Seq<crate::lowstate::ScopeView<'t>>,
    name: Seq<char>,
    n: nat,
)
    requires
        n <= a.len() <= b.len(),
        forall|i: int| 0 <= i < n ==> #[trigger] b[i] == a[i],
    ensures
        crate::lowstate::find_scoped(a, name, n) == crate::lowstate::find_scoped(b, name, n),
    decreases n,
{
    if n > 0 {
        assert(b[n - 1] == a[n - 1]);
        lemma_scoped_prefix(a, b, name, (n - 1) as nat);
    }
}

/// An allocation lives in the innermost region, and is recorded.
pub proof fn law_allocations_are_ambient<'t>(
    st: LowView<'t>,
    ty: Seq<char>,
    kind: SiteKind,
    span: Span,
)
    requires
        stands(st, st.cur),
        !(kind is Param),
    ensures
        ({
            let b = st.alloc_site(ty, kind, span);
            let id = SiteId(st.sites.len() as u32);
            &&& b.sites.len() == st.sites.len() + 1
            &&& b.sites.last().region == st.ambient.last()
            &&& b.sites.last().span == span && b.sites.last().ty == ty && b.sites.last().kind
                == kind
            &&& recorded(st, b, StmtView::Alloc { site: id, span })
            &&& b.escape.last() is None && b.frozen_site.last() is None && !b.shared_site.last()
        }),
{
}

/// A name may hold what it held, and what flows in.
pub proof fn law_holdings_grow<'t>(st: LowView<'t>, l: u32, sites: Seq<SiteId>, at: Span, s: SiteId)
    requires
        l < st.holds.len(),
    ensures
        ({
            let b = st.hold(l, sites, at);
            (exists|i: int| 0 <= i < b.holds[l as int].len() && (
            #[trigger] b.holds[l as int][i]).0 == s) <==> (exists|i: int|
                0 <= i < st.holds[l as int].len() && (#[trigger] st.holds[l as int][i]).0 == s)
                || sites.contains(s)
        }),
{
    lemma_held(st.holds[l as int], sites, sites.len(), at, s);
    let b = st.hold(l, sites, at);
    let h = crate::lowregion::hold_all(st.holds[l as int], sites, sites.len(), at);
    assert(b.holds[l as int] == h);
    if sites.contains(s) {
        let k = choose|k: int| 0 <= k < sites.len() && sites[k] == s;
        assert(sites[k] == s);
    }
}

proof fn lemma_held(h: Seq<(SiteId, Span)>, sites: Seq<SiteId>, n: nat, at: Span, s: SiteId)
    requires
        n <= sites.len(),
    ensures
        crate::lowregion::holds_site(crate::lowregion::hold_all(h, sites, n, at), s) <==> (
        crate::lowregion::holds_site(h, s) || exists|k: int| 0 <= k < n && #[trigger] sites[k] == s),
    decreases n,
{
    if n > 0 {
        lemma_held(h, sites, (n - 1) as nat, at, s);
        let before = crate::lowregion::hold_all(h, sites, (n - 1) as nat, at);
        let x = sites[n - 1];
        if !crate::lowregion::holds_site(before, x) {
            let j = crate::lowregion::hold_slot(before, x, 0);
            lemma_slot(before, x, 0);
            let after = before.insert(j, (x, at));
            assert(after[j].0 == x);
            if crate::lowregion::holds_site(before, s) {
                let i = choose|i: int| 0 <= i < before.len() && (#[trigger] before[i]).0 == s;
                if i < j {
                    assert(after[i].0 == s);
                } else {
                    assert(after[i + 1].0 == s);
                }
            }
            if crate::lowregion::holds_site(after, s) && s != x {
                let i = choose|i: int| 0 <= i < after.len() && (#[trigger] after[i]).0 == s;
                if i < j {
                    assert(before[i].0 == s);
                } else {
                    assert(before[i - 1].0 == s);
                }
            }
        }
        if s == x {
            assert(sites[n - 1] == s);
        }
        if exists|k: int| 0 <= k < n - 1 && #[trigger] sites[k] == s {
            let k = choose|k: int| 0 <= k < n - 1 && #[trigger] sites[k] == s;
            assert(sites[k] == s);
        }
    }
}

proof fn lemma_slot(h: Seq<(SiteId, Span)>, x: SiteId, i: int)
    requires
        0 <= i <= h.len(),
    ensures
        i <= crate::lowregion::hold_slot(h, x, i) <= h.len(),
    decreases h.len() - i,
{
    if i < h.len() && !(h[i].0.0 > x.0) {
        lemma_slot(h, x, i + 1);
    }
}

/// A loan is shared, of the place, to the name, and recorded.
pub proof fn law_loans_are_recorded<'t>(
    st: LowView<'t>,
    place: PlaceId,
    borrower: LocalId,
    at: Span,
)
    requires
        stands(st, st.cur),
    ensures
        ({
            let b = st.add_loan(place, borrower, at);
            let loan = b.loans.last();
            &&& b.loans.len() == st.loans.len() + 1
            &&& loan.place == place && loan.borrower == borrower && loan.origin == at
            &&& loan.kind is Shared && !loan.two_phase
            &&& recorded(
                st,
                b,
                StmtView::Borrow { loan: crate::cfg::LoanId(st.loans.len() as u32), span: at },
            )
        }),
{
}

/// An `unsafe` block that states its invariant nowhere is warned of, and no
/// other is.
pub proof fn law_invariants_are_stated<'t>(
    st: LowView<'t>,
    lines: Seq<String>,
    text: Seq<char>,
    line: nat,
    at: Span,
)
    ensures
        ({
            let b = st.lint_safety(lines, text, line, at);
            if crate::text::has_infix(text, "# Safety"@) || crate::lowuse::stated_above(
                lines,
                line,
            ) {
                b == st
            } else {
                b.diags.len() == st.diags.len() + 1 && b.diags.last().code == Code::W1301
                    && b.diags.last().severity is Warning && b.diags.last().primary.lo == at.lo
            }
        }),
{
}

// ----------------------------------------------------------------- bodies --

/// A parameter is a local of the body with its declared mode. Its data, where
/// its type is no copy, arrives in a region of its own, and a region
/// parameter stands for one.
pub proof fn law_parameters_are_bound<'t>(cx: Cx<'t>, st: LowView<'t>, p: ParamSig)
    requires
        st.locals.len() < u32::MAX,
        st.holds.len() == st.locals.len(),
        st.region_local.len() == st.locals.len(),
        st.sites.len() < u32::MAX,
    ensures
        ({
            let b = bind_param(cx, st, p);
            let l = st.locals.len() as int;
            let rid = RegionId(st.rt.regions.len() as u32);
            let ty = Ty { table: TableRef::Sig, id: p.ty };
            &&& b.locals.len() == l + 1
            &&& b.locals[l].name == p.name@ && b.locals[l].span == p.span
            &&& b.locals[l].param_mode == Some(p.mode)
            &&& forall|i: int| 0 <= i < l ==> #[trigger] b.locals[i] == st.locals[i]
            &&& cx.tabs.at(ty) matches Some(TyKind::RegionTy) ==> b.region_local[l] == Some(
                Some(rid),
            ) && b.rt.regions.last().kind is Param
            &&& !(cx.tabs.at(ty) matches Some(TyKind::RegionTy)) && !cx.tabs.is_copy_spec(ty)
                ==> b.sites.len() == st.sites.len() + 1 && b.sites.last().region == rid
                && b.rt.regions.last().kind is Param && b.holds[l].len() == 1
                && b.holds[l][0].0.0 == st.sites.len()
            &&& !(cx.tabs.at(ty) matches Some(TyKind::RegionTy)) && cx.tabs.is_copy_spec(ty)
                ==> b.sites == st.sites && b.rt == st.rt
            &&& p.view matches Some(fields) ==> p.name@ == "self"@ ==> (b.view_set matches Some((
                x,
                fs,
                _,
            )) && x.0 == l && fs == crate::diag::texts(fields@))
        }),
{
    let s1 = param_declared(cx, st, p);
    let l = st.next_local();
    reveal_with_fuel(crate::lowregion::hold_all, 2);
    reveal_with_fuel(crate::lowregion::hold_slot, 1);
}

/// A body that is walked to its end leads to the exit.
pub proof fn law_body_leads_out<'t>(cx: Cx<'t>, st: LowView<'t>, at: Span)
    ensures
        walked_out(cx, st, at) matches Ok(b) ==> ({
            let s = crate::lower::close_scope(cx, false, st, at).0;
            &&& b.cur == s.cur
            &&& stands(s, s.cur) ==> b.blocks[s.cur.0 as int].succs.contains(BlockId(1))
            &&& b.diags == s.diags
        }),
{
    if let Ok(b) = walked_out(cx, st, at) {
        let s = crate::lower::close_scope(cx, false, st, at).0;
        let k = s.cur.0 as int;
        if stands(s, s.cur) && !s.blocks[k].succs.contains(BlockId(1)) {
            assert(s.blocks[k].succs.push(BlockId(1))[s.blocks[k].succs.len() as int] == BlockId(
                1,
            ));
        }
    }
}

/// A finished body hands on its graph, its places, its loans and what was
/// reported of it as they are; a cell is atomic iff a freeze reached it.
pub proof fn law_finished_is_handed_on<'t>(name: Seq<char>, st: LowView<'t>, i: int)
    ensures
        ({
            let l = finished(name, st);
            &&& l.diags == st.diags
            &&& l.cfg.blocks == st.blocks && l.cfg.places == st.places && l.cfg.loans == st.loans
            &&& l.cfg.locals == st.locals && l.cfg.sites == st.sites && l.cfg.name == name
            &&& l.cfg.entry == BlockId(0) && l.cfg.exit == BlockId(1)
            &&& l.rc_cells.len() == st.rc_cells.len()
            &&& 0 <= i < st.rc_cells.len() ==> l.rc_cells[i].0 == st.rc_cells[i]
                && l.rc_cells[i].1 == (st.frozen_site[st.rc_cells[i].0 as int] is Some)
        }),
{
}

} // verus!
