//! What bindings and stores settle: the name a value gets, the effect that
//! records it, and which region owns a region stored inside another value.

use vstd::prelude::*;

use crate::ast::{Bind, FieldInit};
use crate::cfg::{LocalId, RegionId, SiteId, StmtView};
use crate::diag::Span;
use crate::lower::{assign_local, embed_fields, embed_parts};
use crate::lowbind::{bind_ty, opt_kind, UNNAMED};
use crate::lowstate::{Cleanup, Cx, LowView, ValView};
use crate::place::{law_intern, BaseView, PlaceId, PlaceView};
use crate::shape::stands;
use crate::types::TyKind;

verus! {

// --------------------------------------------------------------- bindings --

/// The graph, the places, the loans and the known regions of locals are
/// alike.
spec fn same_ground(a: LowView<'_>, b: LowView<'_>) -> bool {
    &&& a.blocks == b.blocks
    &&& a.cur == b.cur
    &&& a.places == b.places
    &&& a.loans == b.loans
    &&& a.region_local == b.region_local
}

/// The effects of the current block.
pub open spec fn effects(st: LowView<'_>) -> Seq<StmtView> {
    st.blocks[st.cur.0 as int].stmts
}

/// What was recorded from `from` on lends the `j`-th of the places to the
/// local.
pub open spec fn lends(st: LowView<'_>, from: int, places: Seq<PlaceId>, l: LocalId, j: int) -> bool {
    &&& from + j < effects(st).len()
    &&& effects(st)[from + j] matches StmtView::Borrow { loan, .. } && loan.0 < st.loans.len()
        && st.loans[loan.0 as int].place == places[j] && st.loans[loan.0 as int].borrower == l
}

proof fn lemma_loans_keep<'t>(st: LowView<'t>, places: Seq<PlaceId>, n: nat, l: LocalId, at: Span)
    requires
        stands(st, st.cur),
        n <= places.len(),
        st.loans.len() + n <= u32::MAX,
    ensures
        ({
            let out = st.add_loans(places, n, l, at);
            let from = effects(st).len() as int;
            &&& out.cur == st.cur && out.places == st.places && out.region_local
                == st.region_local && out.blocks.len() == st.blocks.len()
            &&& out.loans.len() == st.loans.len() + n
            &&& effects(out).len() == from + n
            &&& forall|k: int| 0 <= k < from ==> #[trigger] effects(out)[k] == effects(st)[k]
            &&& forall|j: int| 0 <= j < n ==> #[trigger] lends(out, from, places, l, j)
        }),
    decreases n,
{
    if n > 0 {
        let m = (n - 1) as nat;
        lemma_loans_keep(st, places, m, l, at);
        let mid = st.add_loans(places, m, l, at);
        let out = st.add_loans(places, n, l, at);
        let from = effects(st).len() as int;
        assert forall|j: int| 0 <= j < n implies #[trigger] lends(out, from, places, l, j) by {
            if j < m {
                assert(lends(mid, from, places, l, j));
                assert(effects(out)[from + j] == effects(mid)[from + j]);
            }
        }
        assert forall|k: int| 0 <= k < from implies #[trigger] effects(out)[k] == effects(st)[k] by {
            assert(effects(mid)[k] == effects(st)[k]);
        }
    }
}

proof fn lemma_fields_keep<'t>(st: LowView<'t>, l: u32, fs: Seq<(Seq<char>, RegionId)>, n: nat)
    ensures
        same_ground(st, st.put_fields(l, fs, n)),
    decreases n,
{
    if n > 0 {
        lemma_fields_keep(st, l, fs, (n - 1) as nat);
    }
}

/// A binding makes a place of its own: with a value it is initialized, and
/// without one it is not. A lone binding of a region value is known to be
/// that region, and one of a value that borrows is lent each place that the
/// value borrows.
pub proof fn law_bindings_are_recorded<'t>(
    cx: Cx<'t>,
    st: LowView<'t>,
    b: Bind,
    init: Option<ValView>,
    single: bool,
)
    requires
        stands(st, st.cur),
        st.places.wf(),
        st.places.places.len() < u32::MAX,
        st.locals.len() < u32::MAX,
        st.region_local.len() == st.locals.len(),
        init matches Some(v) ==> st.loans.len() + v.borrowed.len() <= u32::MAX,
    ensures
        ({
            let out = st.bind_one(cx, b, init, single);
            let l = st.locals.len();
            let from = effects(st).len() as int;
            &&& out.cur == st.cur
            &&& forall|k: int| 0 <= k < from ==> #[trigger] effects(out)[k] == effects(st)[k]
            &&& effects(out).len() > from
            &&& match effects(out)[from] {
                StmtView::Init { place, span } => init is Some && span == b.span && bound_to(
                    out,
                    place,
                    l as u32,
                ),
                StmtView::Uninit { place, span } => init is None && span == b.span && bound_to(
                    out,
                    place,
                    l as u32,
                ),
                _ => false,
            }
            &&& single && (init matches Some(v) && v.region is Some) ==> out.region_local[l as int]
                == Some((init->Some_0).region)
            &&& single && init is Some ==> forall|j: int|
                0 <= j < (init->Some_0).borrowed.len() ==> #[trigger] lends(
                    out,
                    from + 1,
                    (init->Some_0).borrowed,
                    LocalId(l as u32),
                    j,
                )
        }),
{
    let l = st.next_local();
    let st0 = st.declare(cx.tabs, b.name@, b.span, bind_ty(b));
    let st1 = match opt_kind(cx, bind_ty(b)) {
        Some(TyKind::Shared(_)) | Some(TyKind::Weak(_)) => st0.obliged(Cleanup::DropLocal(l)),
        _ => st0,
    };
    let c = st1.locals[l.0 as int].is_copy;
    let s = st1.intern_local(l, c);
    law_intern(st1.places, PlaceView::local(l.0), c);
    let p = s.bind_place(l);
    let whole = PlaceView { base: BaseView::Local(l.0), proj: Seq::empty() };
    assert(PlaceView::local(l.0) == whole);
    assert(bound_to(s, p, l.0));
    if let Some(v) = init {
        let st2 = s.push(StmtView::Init { place: p, span: b.span }).hold(l.0, v.sites, b.span);
        let from = effects(st).len() as int;
        assert(effects(st2).len() == from + 1);
        lemma_loans_keep(st2, v.borrowed, v.borrowed.len(), l, b.span);
        let st3 = if v.borrowed.len() > 0 {
            st2.add_loans(v.borrowed, v.borrowed.len(), l, b.span).claim(v)
        } else {
            st2
        };
        let st4 = match v.region {
            Some(r) => (if st3.rt.regions[r.0 as int].name == UNNAMED@ {
                st3.rename_region(r, b.name@, b.span)
            } else {
                st3
            }).set_region_local(l.0, Some(r)),
            None => st3,
        };
        lemma_fields_keep(st4, l.0, v.region_fields, v.region_fields.len());
        let out = st.bind_one(cx, b, init, single);
        if single {
            let lent = st2.add_loans(v.borrowed, v.borrowed.len(), l, b.span);
            assert forall|j: int| 0 <= j < v.borrowed.len() implies #[trigger] lends(
                out,
                from + 1,
                v.borrowed,
                l,
                j,
            ) by {
                assert(lends(lent, from + 1, v.borrowed, l, j));
            }
            assert forall|k: int| 0 <= k <= from implies effects(out)[k] == effects(st2)[k] by {
                assert(effects(lent)[k] == effects(st2)[k]);
            }
            assert(effects(out)[from] == effects(st2)[from]);
        }
    }
}

/// The place is that local, as a whole.
pub open spec fn bound_to(st: LowView<'_>, p: PlaceId, l: u32) -> bool {
    st.places.has(p) && st.places.at(p) == (PlaceView {
        base: BaseView::Local(l),
        proj: Seq::empty(),
    })
}

// ----------------------------------------------------------------- stores --

proof fn lemma_store_keeps<'t>(
    st: LowView<'t>,
    sites: Seq<SiteId>,
    i: int,
    target: RegionId,
    container: Option<Span>,
    at: Span,
)
    ensures
        st.demand_store(sites, i, target, container, at).moved == st.moved,
        st.demand_store(sites, i, target, container, at).parent == st.parent,
        st.demand_store(sites, i, target, container, at).region_local == st.region_local,
    decreases sites.len() - i,
{
    if i < sites.len() {
        let next = st.unify(target, st.sites[sites[i].0 as int].region);
        lemma_store_keeps(st, sites, i + 1, target, container, at);
        lemma_store_keeps(next, sites, i + 1, target, container, at);
    }
}

/// The region was given away, into that other one.
pub open spec fn settled(st: LowView<'_>, r: RegionId, owner: RegionId) -> bool {
    st.moved[r.0 as int] && st.parent[r.0 as int] == Some(owner)
}

/// The region is one that is known here.
pub open spec fn known(st: LowView<'_>, r: RegionId) -> bool {
    r.0 < st.moved.len() && r.0 < st.parent.len()
}

proof fn lemma_parts_keep<'t>(
    st: LowView<'t>,
    parts: Seq<(ValView, Span)>,
    i: int,
    region: RegionId,
    at: Span,
    acc: ValView,
    r: RegionId,
)
    requires
        0 <= i,
        settled(st, r, region),
        known(st, r),
        forall|j: int|
            i <= j < parts.len() ==> ((#[trigger] parts[j]).0.region matches Some(q) ==> known(
                st,
                q,
            )),
    ensures
        settled(embed_parts(st, parts, i, region, at, acc).0, r, region),
    decreases parts.len() - i,
{
    reveal(embed_parts);
    if i < parts.len() {
        let (v, sp) = parts[i];
        let s = match v.region {
            Some(q) => st.set_moved(q).set_parent(q, region),
            None => st,
        };
        lemma_store_keeps(s, v.sites, 0, region, Some(at), sp);
        let next = s.demand_store(v.sites, 0, region, Some(at), sp);
        assert(parts[i].0.region matches Some(q) ==> known(st, q));
        lemma_parts_keep(next, parts, i + 1, region, at, acc.merge(v), r);
    }
}

/// A region value that becomes part of another value is owned from then on
/// by the region that the other lives in.
pub proof fn law_parts_are_owned<'t>(
    st: LowView<'t>,
    parts: Seq<(ValView, Span)>,
    i: int,
    region: RegionId,
    at: Span,
    acc: ValView,
    k: int,
    r: RegionId,
)
    requires
        0 <= i <= k < parts.len(),
        parts[k].0.region == Some(r),
        forall|j: int|
            i <= j < parts.len() ==> ((#[trigger] parts[j]).0.region matches Some(q) ==> known(
                st,
                q,
            )),
    ensures
        settled(embed_parts(st, parts, i, region, at, acc).0, r, region),
    decreases k - i,
{
    reveal(embed_parts);
    let (v, sp) = parts[i];
    let s = match v.region {
        Some(q) => st.set_moved(q).set_parent(q, region),
        None => st,
    };
    lemma_store_keeps(s, v.sites, 0, region, Some(at), sp);
    let next = s.demand_store(v.sites, 0, region, Some(at), sp);
    assert(parts[i].0.region matches Some(q) ==> known(st, q));
    if i == k {
        assert(settled(next, r, region));
        lemma_parts_keep(next, parts, i + 1, region, at, acc.merge(v), r);
    } else {
        law_parts_are_owned(next, parts, i + 1, region, at, acc.merge(v), k, r);
    }
}

proof fn lemma_inits_keep<'t>(
    st: LowView<'t>,
    fs: Seq<FieldInit>,
    vs: Seq<ValView>,
    i: int,
    region: RegionId,
    at: Span,
    acc: ValView,
    r: RegionId,
)
    requires
        0 <= i,
        settled(st, r, region),
        known(st, r),
        forall|j: int|
            i <= j < vs.len() ==> ((#[trigger] vs[j]).region matches Some(q) ==> known(st, q)),
    ensures
        settled(embed_fields(st, fs, vs, i, region, at, acc).0, r, region),
    decreases vs.len() - i,
{
    reveal(embed_fields);
    if i < vs.len() {
        let v = vs[i];
        let (s1, acc1) = match v.region {
            Some(q) => (
                st.set_moved(q).set_parent(q, region),
                ValView { region_fields: acc.region_fields.push((fs[i].name@, q)), ..acc },
            ),
            None => (st, acc),
        };
        lemma_store_keeps(s1, v.sites, 0, region, Some(at), fs[i].value.span);
        let s2 = s1.demand_store(v.sites, 0, region, Some(at), fs[i].value.span);
        let merged = acc1.merge(v);
        assert(vs[i].region matches Some(q) ==> known(st, q));
        let acc2 = ValView { region_fields: acc1.region_fields, ..merged };
        lemma_inits_keep(s2, fs, vs, i + 1, region, at, acc2, r);
    }
}

/// A region value that a struct literal puts in a field is owned from then
/// on by the region that the struct lives in.
pub proof fn law_fields_are_owned<'t>(
    st: LowView<'t>,
    fs: Seq<FieldInit>,
    vs: Seq<ValView>,
    i: int,
    region: RegionId,
    at: Span,
    acc: ValView,
    k: int,
    r: RegionId,
)
    requires
        0 <= i <= k < vs.len(),
        vs[k].region == Some(r),
        forall|j: int|
            i <= j < vs.len() ==> ((#[trigger] vs[j]).region matches Some(q) ==> known(st, q)),
    ensures
        settled(embed_fields(st, fs, vs, i, region, at, acc).0, r, region),
    decreases k - i,
{
    reveal(embed_fields);
    let v = vs[i];
    let (s1, acc1) = match v.region {
        Some(q) => (
            st.set_moved(q).set_parent(q, region),
            ValView { region_fields: acc.region_fields.push((fs[i].name@, q)), ..acc },
        ),
        None => (st, acc),
    };
    lemma_store_keeps(s1, v.sites, 0, region, Some(at), fs[i].value.span);
    let s2 = s1.demand_store(v.sites, 0, region, Some(at), fs[i].value.span);
    let merged = acc1.merge(v);
    let acc2 = ValView { region_fields: acc1.region_fields, ..merged };
    assert(vs[i].region matches Some(q) ==> known(st, q));
    if i == k {
        assert(settled(s2, r, region));
        lemma_inits_keep(s2, fs, vs, i + 1, region, at, acc2, r);
    } else {
        law_fields_are_owned(s2, fs, vs, i + 1, region, at, acc2, k, r);
    }
}

/// A region value assigned into a part of a local is given away, and owned
/// by the region that the local's data lives in. Assigned to a whole local,
/// the local is known to be that region, unless it was known to be another:
/// then it is known to be neither.
pub proof fn law_assigned_regions_are_owned<'t>(
    st: LowView<'t>,
    l: u32,
    p: PlaceId,
    v: ValView,
    at: Span,
    r: RegionId,
)
    requires
        v.region == Some(r),
        known(st, r),
        l < st.region_local.len(),
    ensures
        ({
            let out = assign_local(st, l, p, v, at);
            let inside = st.places.at(p).proj.len() > 0;
            &&& inside ==> out.moved[r.0 as int]
            &&& inside && st.sites_of(p).len() > 0 ==> settled(
                out,
                r,
                st.sites[st.sites_of(p)[0].0.0 as int].region,
            )
            &&& inside ==> out.region_local == st.region_local
            &&& !inside && !(st.region_local[l as int] matches Some(Some(q)) && q != r)
                ==> out.region_local[l as int] == Some(Some(r))
            &&& !inside && (st.region_local[l as int] matches Some(Some(q)) && q != r)
                ==> out.region_local[l as int] == Some(None::<RegionId>)
            &&& !inside ==> out.moved == st.moved && out.parent == st.parent
        }),
{
    let proj = st.places.at(p).proj;
    let held = st.sites_of(p);
    if proj.len() > 0 {
        let a = st.set_moved(r);
        let b = if held.len() > 0 {
            a.set_parent(r, a.sites[held[0].0.0 as int].region)
        } else {
            a
        };
        let s1 = if proj.len() == 1 && proj[0] is Field {
            b.put_field(l, proj[0]->Field_0, r)
        } else {
            b
        };
        if held.len() > 0 {
            let c = held[0].0.0 as int;
            lemma_store_keeps(s1, v.sites, 0, s1.sites[c].region, Some(s1.sites[c].span), at);
        }
    }
}

} // verus!
