//! In which order the parts of a construct are taken: all of them, each in
//! the state that the one before it left.

use vstd::prelude::*;

use crate::ast::{Arm, Binder, Expr, ExprKind, Hole, Pattern};
use crate::cfg::{SiteId, StmtView};
use crate::evaluate::{
    bind_decl, bind_decls, eval, eval_arm_body, eval_exprs, eval_match, eval_named, eval_tuple,
    place_of, read_or_eval,
};
use crate::lowbind::binds_of;
use crate::lower::{
    as_place, eval_endpoint, eval_merged, eval_range, eval_value, lower_binder, lower_binders,
    plain_binder, read_holes, read_operand,
};
use crate::lowstate::{insert_sites, site_slot, Cx, LowView, ValView};
use crate::machine::State;
use crate::meaning::{came_to, law_first_fitting_arm_runs};
use crate::place::PlaceId;
use crate::semantics::{domain_of, match_pattern, Here, Many, Matched, World};
use crate::shape::{recorded, stands};
use crate::text::decimal;
use crate::value::{FlowView, SlotView, StopView, ValueView};

verus! {

// ---------------------------------------------------------------- walking --

/// The values are walked one after the other from the `i`-th on: `ss` holds
/// the states between them and `vs` what they give.
pub open spec fn in_turn<'t>(
    cx: Cx<'t>,
    d: bool,
    es: Seq<Expr>,
    i: int,
    ss: Seq<LowView<'t>>,
    vs: Seq<ValView>,
) -> bool {
    &&& ss.len() == es.len() + 1 && vs.len() == es.len()
    &&& forall|k: int|
        i <= k < es.len() ==> (#[trigger] eval_value(cx, d, ss[k], es[k])).0 == ss[k + 1]
            && eval_value(cx, d, ss[k], es[k]).1 == Ok::<ValView, crate::diag::NotYetView>(vs[k])
}

proof fn lemma_slot_in(s: Seq<SiteId>, x: SiteId, i: int)
    requires
        0 <= i <= s.len(),
    ensures
        0 <= site_slot(s, x, i) <= s.len(),
    decreases s.len() - i,
{
    if i < s.len() {
        lemma_slot_in(s, x, i + 1);
    }
}

proof fn lemma_inserted(s: Seq<SiteId>, more: Seq<SiteId>, n: nat, x: SiteId)
    requires
        n <= more.len(),
        s.contains(x) || exists|j: int| 0 <= j < n && more[j] == x,
    ensures
        insert_sites(s, more, n).contains(x),
    decreases n,
{
    if n > 0 {
        let m = (n - 1) as nat;
        let rest = insert_sites(s, more, m);
        let y = more[n - 1];
        if s.contains(x) || exists|j: int| 0 <= j < m && more[j] == x {
            lemma_inserted(s, more, m, x);
        }
        if !rest.contains(y) {
            let at = site_slot(rest, y, 0);
            lemma_slot_in(rest, y, 0);
            let all = rest.insert(at, y);
            assert(all[at] == y);
            if rest.contains(x) {
                let k = choose|k: int| 0 <= k < rest.len() && rest[k] == x;
                if k < at {
                    assert(all[k] == x);
                } else {
                    assert(all[k + 1] == x);
                }
            }
        }
    }
}

/// A value made of others holds what each of them holds.
pub proof fn law_merged_holds_both(a: ValView, b: ValView, x: SiteId)
    ensures
        a.sites.contains(x) || b.sites.contains(x) ==> a.merge(b).sites.contains(x),
{
    if a.sites.contains(x) || b.sites.contains(x) {
        if b.sites.contains(x) {
            let j = choose|j: int| 0 <= j < b.sites.len() && b.sites[j] == x;
            assert(0 <= j < b.sites.len() && b.sites[j] == x);
        }
        lemma_inserted(a.sites, b.sites, b.sites.len(), x);
    }
}

/// The parts of a tuple are walked in order, every one, and the tuple holds
/// what each of them holds.
pub proof fn law_parts_are_walked_in_turn<'t>(
    cx: Cx<'t>,
    d: bool,
    es: Vec<Expr>,
    i: nat,
    acc: ValView,
    ss: Seq<LowView<'t>>,
    vs: Seq<ValView>,
    x: SiteId,
)
    requires
        i <= es@.len(),
        in_turn(cx, d, es@, i as int, ss, vs),
    ensures
        ({
            let out = eval_merged(cx, d, ss[i as int], es, i, acc);
            &&& out.0 == ss.last()
            &&& out.1 is Ok
            &&& acc.sites.contains(x) || (exists|k: int|
                i <= k < vs.len() && (#[trigger] vs[k]).sites.contains(x)) ==> (
            out.1->Ok_0).sites.contains(x)
        }),
    decreases es@.len() - i,
{
    reveal(eval_merged);
    reveal(eval_value);
    if i < es@.len() {
        let v = vs[i as int];
        assert(eval_value(cx, d, ss[i as int], es@[i as int]).0 == ss[i as int + 1]);
        law_merged_holds_both(acc, v, x);
        law_parts_are_walked_in_turn(cx, d, es, i + 1, acc.merge(v), ss, vs, x);
        let out = eval_merged(cx, d, ss[i as int], es, i, acc);
        assert(out == eval_merged(cx, d, ss[i as int + 1], es, i + 1, acc.merge(v)));
        if exists|k: int| i <= k < vs.len() && (#[trigger] vs[k]).sites.contains(x) {
            let k = choose|k: int| i <= k < vs.len() && (#[trigger] vs[k]).sites.contains(x);
            if k > i {
                assert(vs[k].sites.contains(x));
            }
        }
    }
}

/// Both ends of a range are walked, the first one first.
pub proof fn law_range_walks_both_ends<'t>(
    cx: Cx<'t>,
    d: bool,
    st: LowView<'t>,
    e: Expr,
    x: Expr,
    y: Expr,
    s1: LowView<'t>,
    s2: LowView<'t>,
)
    requires
        e.kind matches ExprKind::Range { start: Some(p), end: Some(q), .. } && *p == x && *q == y,
        !(x.kind is FromEnd) && !(y.kind is FromEnd),
        eval_value(cx, d, st, x).0 == s1 && eval_value(cx, d, st, x).1 is Ok,
        eval_value(cx, d, s1, y).0 == s2 && eval_value(cx, d, s1, y).1 is Ok,
    ensures
        eval_range(cx, d, st, e).0 == s2,
        eval_range(cx, d, st, e).1 is Ok,
{
    reveal(eval_range);
    reveal(eval_endpoint);
    reveal(eval_value);
}

/// What the holes of a string name is read in order, and stays.
pub proof fn law_holes_are_read_in_turn<'t>(
    cx: Cx<'t>,
    d: bool,
    hs: Vec<Hole>,
    i: nat,
    ss: Seq<LowView<'t>>,
)
    requires
        i <= hs@.len(),
        ss.len() == hs@.len() + 1,
        forall|k: int|
            i <= k < hs@.len() ==> match (#[trigger] hs@[k]).expr {
                None => ss[k + 1] == ss[k],
                Some(e) => read_operand(cx, d, ss[k], e).0 == ss[k + 1] && read_operand(
                    cx,
                    d,
                    ss[k],
                    e,
                ).1 is Ok,
            },
    ensures
        read_holes(cx, d, ss[i as int], hs, i).0 == ss.last(),
        read_holes(cx, d, ss[i as int], hs, i).1 is Ok,
    decreases hs@.len() - i,
{
    reveal(read_holes);
    if i < hs@.len() {
        let hole = hs@[i as int];
        law_holes_are_read_in_turn(cx, d, hs, i + 1, ss);
        assert(read_holes(cx, d, ss[i as int], hs, i) == read_holes(
            cx,
            d,
            ss[i as int + 1],
            hs,
            i + 1,
        ));
    }
}

/// The declarations of a statement are made in order.
pub proof fn law_binders_in_turn<'t>(
    cx: Cx<'t>,
    d: bool,
    bs: Vec<Binder>,
    i: nat,
    ss: Seq<LowView<'t>>,
)
    requires
        i <= bs@.len(),
        ss.len() == bs@.len() + 1,
        forall|k: int|
            i <= k < bs@.len() ==> (#[trigger] lower_binder(cx, d, ss[k], bs@[k])).0 == ss[k + 1]
                && lower_binder(cx, d, ss[k], bs@[k]).1 is Ok,
    ensures
        lower_binders(cx, d, ss[i as int], bs, i).0 == ss.last(),
        lower_binders(cx, d, ss[i as int], bs, i).1 is Ok,
    decreases bs@.len() - i,
{
    reveal(lower_binders);
    if i < bs@.len() {
        assert(lower_binder(cx, d, ss[i as int], bs@[i as int]).0 == ss[i as int + 1]);
        law_binders_in_turn(cx, d, bs, i + 1, ss);
    }
}

/// A declaration walks its value first and then binds its name to it.
pub proof fn law_value_before_name<'t>(
    cx: Cx<'t>,
    d: bool,
    st: LowView<'t>,
    b: Binder,
    p: Pattern,
    x: Expr,
    s: LowView<'t>,
    v: ValView,
)
    requires
        b.pattern == Some(p),
        b.init == Some(x),
        binds_of(&p).len() == 1,
        eval_value(cx, d, st, x).0 == s,
        eval_value(cx, d, st, x).1 matches Ok(u) && u == v,
    ensures
        plain_binder(cx, d, st, b).0 == s.bind_one(cx, *binds_of(&p)[0], Some(v), true),
        plain_binder(cx, d, st, b).1 is Ok,
{
    reveal(plain_binder);
    reveal(eval_value);
    let bs = binds_of(&p);
    let one = s.bind_one(cx, *bs[0], Some(v), true);
    assert(one.bind_all(cx, bs, 1, Some(v)) == one);
    assert(s.bind_all(cx, bs, 0, Some(v)) == one);
}

/// A `match` on a place reads it, and its arms fan out from there.
pub proof fn law_match_reads_its_place<'t>(
    cx: Cx<'t>,
    d: bool,
    st: LowView<'t>,
    e: Expr,
    x: Expr,
    arms: Vec<Arm>,
    s: LowView<'t>,
    p: PlaceId,
)
    requires
        e.kind matches ExprKind::Match { scrutinee, arms: a } && *scrutinee == x && a == arms,
        as_place(cx, d, st, x).0 == s,
        as_place(cx, d, st, x).1 matches Some((q, _)) && q == p,
        stands(s, s.cur),
    ensures
        exists|s1: LowView<'t>|
            #![trigger recorded(s, s1, StmtView::Read { place: p, span: x.span })]
            recorded(s, s1, StmtView::Read { place: p, span: x.span })
                && crate::lower::eval_match(cx, d, st, e) == crate::lower::eval_arms(
                cx,
                d,
                s1.new_block(),
                arms,
                0,
                s.cur,
                s1.next_block(),
                Some((p, x.span)),
                Some(s1.val_of(p, x.span).sites),
                ValView::none(),
            ),
{
    reveal(crate::lower::eval_match);
    reveal(as_place);
    reveal(crate::lower::eval_arms);
    let s1 = s.emit_read(p, x.span);
    assert(recorded(s, s1, StmtView::Read { place: p, span: x.span }));
}

// ---------------------------------------------------------------- running --

proof fn lemma_all_in_turn<'t>(
    w: World<'t>,
    h: Here,
    es: Vec<Expr>,
    i: nat,
    ms: Seq<State<'t>>,
    vs: Seq<ValueView>,
)
    requires
        i <= es@.len(),
        ms.len() == es@.len() + 1 && vs.len() == es@.len(),
        forall|k: int|
            i <= k < es@.len() ==> came_to(
                #[trigger] eval(w, h, ms[k], es@[k]),
                ms[k + 1],
                vs[k],
            ),
    ensures
        eval_exprs(w, h, ms[i as int], es, i, vs.take(i as int)) == (
            ms.last(),
            Ok::<Many, StopView>(Many::All(vs)),
        ),
    decreases es@.len() - i,
{
    reveal(eval_exprs);
    reveal(eval);
    if i < es@.len() {
        assert(came_to(eval(w, h, ms[i as int], es@[i as int]), ms[i as int + 1], vs[i as int]));
        assert(vs.take(i as int).push(vs[i as int]) =~= vs.take(i as int + 1));
        lemma_all_in_turn(w, h, es, i + 1, ms, vs);
    } else {
        assert(vs.take(i as int) =~= vs);
    }
}

/// A tuple's parts run in order, and each is its field of that number.
pub proof fn law_tuple_holds_its_parts<'t>(
    w: World<'t>,
    h: Here,
    e: Expr,
    es: Vec<Expr>,
    ms: Seq<State<'t>>,
    vs: Seq<ValueView>,
)
    requires
        e.kind matches ExprKind::Tuple(x) && x == es,
        ms.len() == es@.len() + 1 && vs.len() == es@.len(),
        forall|k: int|
            0 <= k < es@.len() ==> came_to(
                #[trigger] eval(w, h, ms[k], es@[k]),
                ms[k + 1],
                vs[k],
            ),
    ensures
        ({
            let r = eval_tuple(w, h, ms[0], e);
            &&& r.0 == ms.last()
            &&& r.1 matches Ok(FlowView::Val(ValueView::Struct(fs))) && fs.len() == vs.len()
                && forall|k: int|
                0 <= k < fs.len() ==> (#[trigger] fs[k]).0 == decimal(k as nat) && fs[k].1 == vs[k]
        }),
{
    reveal(eval_tuple);
    reveal(eval_exprs);
    assert(vs.take(0) =~= Seq::empty());
    lemma_all_in_turn(w, h, es, 0, ms, vs);
}

/// A `match` asks its arms from the first one on.
pub proof fn law_match_asks_the_first_arm<'t>(
    w: World<'t>,
    h: Here,
    m: State<'t>,
    e: Expr,
    x: Expr,
    arms: Vec<Arm>,
    m1: State<'t>,
    v: ValueView,
)
    requires
        e.kind matches ExprKind::Match { scrutinee, arms: a } && *scrutinee == x && a == arms,
        came_to(eval(w, h, m, x), m1, v),
        arms@.len() > 0,
        arms@[0].pattern is Some,
        arms@[0].guard is None,
    ensures
        match_pattern(arms@[0].pattern->0, v, domain_of(w, h, x)) is Yes ==> eval_match(w, h, m, e)
            == eval_arm_body(w, h, m1.push_scope(), arms@[0]),
        match_pattern(arms@[0].pattern->0, v, domain_of(w, h, x)) matches Matched::Binds(n)
            ==> eval_match(w, h, m, e) == eval_arm_body(
            w,
            h,
            m1.push_scope().declare(n, v),
            arms@[0],
        ),
{
    reveal(eval_match);
    reveal(eval);
    reveal(crate::evaluate::eval_arms);
    law_first_fitting_arm_runs(w, h, m1, arms, 0, v, domain_of(w, h, x));
}

/// A place in value position hands its value over; one that is only read
/// keeps it.
pub proof fn law_value_position_takes<'t>(
    w: World<'t>,
    h: Here,
    m: State<'t>,
    e: Expr,
    m1: State<'t>,
    slot: SlotView,
    m2: State<'t>,
    v: ValueView,
)
    requires
        place_of(w, h, m, e).0 == m1,
        place_of(w, h, m, e).1 == Ok::<Option<SlotView>, StopView>(Some(slot)),
    ensures
        m1.take_slot(slot, e.span) == (m2, Ok::<ValueView, StopView>(v)) ==> came_to(
            eval_named(w, h, m, e),
            m2,
            v,
        ),
        m1.read_at(slot, e.span) == Ok::<ValueView, StopView>(v) ==> came_to(
            read_or_eval(w, h, m, e),
            m1,
            v,
        ),
{
    reveal(eval_named);
    reveal(read_or_eval);
    reveal(place_of);
}

/// The declarations of a statement run in order.
pub proof fn law_declarations_in_turn<'t>(
    w: World<'t>,
    h: Here,
    bs: Vec<Binder>,
    i: nat,
    ms: Seq<State<'t>>,
)
    requires
        i <= bs@.len(),
        ms.len() == bs@.len() + 1,
        forall|k: int|
            i <= k < bs@.len() ==> (#[trigger] bind_decl(w, h, ms[k], bs@[k])).0 == ms[k + 1] && (
            bind_decl(w, h, ms[k], bs@[k]).1 matches Ok(FlowView::Val(_))),
    ensures
        came_to(bind_decls(w, h, ms[i as int], bs, i), ms.last(), ValueView::Unit),
    decreases bs@.len() - i,
{
    reveal(bind_decls);
    if i < bs@.len() {
        assert(bind_decl(w, h, ms[i as int], bs@[i as int]).0 == ms[i as int + 1]);
        law_declarations_in_turn(w, h, bs, i + 1, ms);
    }
}

} // verus!
