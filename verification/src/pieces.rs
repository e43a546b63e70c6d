//! Parts of values and parts of bodies: slices and elements, copies,
//! assertions, captures, and the arms, doors and frozen blocks of the walk.

use vstd::arithmetic::power2::*;
use vstd::prelude::*;

use crate::ast::{Arg, Expr, ExprKind, SelectArm};
use crate::cfg::{BlockId, RegionId, StmtView};
use crate::diag::{Code, Span};
use crate::evaluate::{
    eval, eval_args, eval_assert, eval_bound, eval_index, eval_range, place_of, slice_range,
};
use crate::literal::{bits_of, number_of, range_of_prim, size_of_prim};
use crate::lowbind::{binds_of, expr_kind};
use crate::lower::{
    as_place, capture, close_scope, enter_region, eval_borrow, eval_cast, eval_closure, eval_freeze,
    eval_frozen_block, eval_value, read_operand, select_arms, walk_block,
};
use crate::lowstate::{Cx, LowView};
use crate::lowuse::closing;
use crate::machine::State;
use crate::meaning::{came_to, trapped_as};
use crate::place::{law_intern, BaseView, PlaceId, PlaceView};
use crate::semantics::{copy_all, deep_copy, kind_at, shift_origin, Here, World};
use crate::shape::{arm_shape, law_ring_is_demanded, leads, recorded, reported, stands};
use crate::strs::{boundary, sliceable};
use crate::types::{Prim, TyKind};
use crate::value::{SlotView, StopView, ValueView};

verus! {

// ----------------------------------------------------------------- slices --

/// A slice holds the bytes of its text from its first end up to its last:
/// an inclusive one the last too. Counted from one, both ends name bytes and
/// the last is always held. Ends outside the text, or within a character,
/// trap.
pub proof fn law_slice_holds_the_span<'t>(
    w: World<'t>,
    h: Here,
    m: State<'t>,
    s: Seq<u8>,
    range: Expr,
    one: bool,
    at: Span,
    x: Expr,
    y: Expr,
    incl: bool,
    m1: State<'t>,
    m2: State<'t>,
    a: i64,
    b: i64,
)
    requires
        range.kind matches ExprKind::Range { start: Some(p), end: Some(q), inclusive } && *p == x
            && *q == y && inclusive == incl,
        !(x.kind is FromEnd) && !(y.kind is FromEnd),
        came_to(eval(w, h, m, x), m1, ValueView::Int(a)),
        came_to(eval(w, h, m1, y), m2, ValueView::Int(b)),
        i64::MIN < a && b < i64::MAX,
    ensures
        ({
            let first = if one {
                a - 1
            } else {
                a as int
            };
            let count = b - a + (if one || incl {
                1int
            } else {
                0int
            });
            let r = slice_range(w, h, m, s, range, one, at);
            if 0 <= first && 0 <= count && first + count <= s.len() && boundary(s, first)
                && boundary(s, first + count) {
                exists|t: Seq<u8>|
                    #![trigger came_to(r, m2, ValueView::Str(t))]
                    came_to(r, m2, ValueView::Str(t)) && t.len() == count && forall|i: int|
                        0 <= i < count ==> t[i] == s[first + i]
            } else {
                trapped_as(r, m2, "bounds"@)
            }
        }),
{
    reveal(slice_range);
    reveal(eval_bound);
    let first = if one {
        a - 1
    } else {
        a as int
    };
    let count = b - a + (if one || incl {
        1int
    } else {
        0int
    });
    let r = slice_range(w, h, m, s, range, one, at);
    if sliceable(s, first, first + count) {
        let t = s.subrange(first, first + count);
        assert(came_to(r, m2, ValueView::Str(t)));
    }
}

/// An end that counts from the end of the text lies that far before it.
pub proof fn law_from_end<'t>(
    w: World<'t>,
    h: Here,
    m: State<'t>,
    e: Expr,
    x: Expr,
    len: nat,
    m1: State<'t>,
    n: i64,
)
    requires
        e.kind matches ExprKind::FromEnd(y) && *y == x,
        came_to(eval(w, h, m, x), m1, ValueView::Int(n)),
        0 <= n <= len <= i64::MAX,
    ensures
        eval_bound(w, h, m, e, len).0 == m1,
        eval_bound(w, h, m, e, len).1 matches Ok((k, None)) && k + n == len,
{
    reveal(eval_bound);
}

/// Counted from one, the element is one before its number; there is none
/// before the smallest.
pub proof fn law_origin(i: i64, at: Span)
    ensures
        shift_origin(i, false, at) == Ok::<i64, StopView>(i),
        i > i64::MIN ==> (shift_origin(i, true, at) matches Ok(k) && k + 1 == i),
        i == i64::MIN ==> shift_origin(i, true, at) is Err,
{
}

/// An index reads what its place holds, and changes nothing.
pub proof fn law_index_reads<'t>(
    w: World<'t>,
    h: Here,
    m: State<'t>,
    e: Expr,
    m1: State<'t>,
    slot: SlotView,
    v: ValueView,
)
    requires
        e.kind matches ExprKind::Bracket { callee, .. } && !(kind_at(w, h, *callee) matches Some(
            TyKind::Ptr(_),
        )) && kind_at(w, h, *callee) != Some(TyKind::Prim(Prim::Str)),
        place_of(w, h, m, e).0 == m1,
        place_of(w, h, m, e).1 == Ok::<Option<SlotView>, StopView>(Some(slot)),
    ensures
        m1.read_at(slot, e.span) == Ok::<ValueView, StopView>(v) ==> came_to(
            eval_index(w, h, m, e),
            m1,
            v,
        ),
        m1.read_at(slot, e.span) is Err ==> eval_index(w, h, m, e).1 is Err,
{
    reveal(eval_index);
    reveal(place_of);
}

/// `assert` passes what is true and traps on anything else.
pub proof fn law_assert_passes_the_true<'t>(
    w: World<'t>,
    h: Here,
    m: State<'t>,
    args: Vec<Arg>,
    at: Span,
    m1: State<'t>,
    b: bool,
)
    requires
        args@.len() == 1,
        came_to(eval(w, h, m, args@[0].value), m1, ValueView::Bool(b)),
    ensures
        b ==> came_to(eval_assert(w, h, m, args, at), m1, ValueView::Unit),
        !b ==> trapped_as(eval_assert(w, h, m, args, at), m1, "assert"@),
{
    reveal(eval_assert);
    reveal(eval_args);
}

/// A range of values starts at its first and stops before its second; an
/// inclusive one stops after it, and traps where there is nothing after.
pub proof fn law_range_stops_before_its_end<'t>(
    w: World<'t>,
    h: Here,
    m: State<'t>,
    e: Expr,
    x: Expr,
    y: Expr,
    incl: bool,
    m1: State<'t>,
    m2: State<'t>,
    a: i64,
    b: i64,
)
    requires
        e.kind matches ExprKind::Range { start: Some(p), end: Some(q), inclusive } && *p == x && *q
            == y && inclusive == incl,
        came_to(eval(w, h, m, x), m1, ValueView::Int(a)),
        came_to(eval(w, h, m1, y), m2, ValueView::Int(b)),
    ensures
        !incl ==> came_to(eval_range(w, h, m, e), m2, ValueView::Range { start: a, end: b }),
        incl && b < i64::MAX ==> exists|z: i64|
            #![trigger came_to(eval_range(w, h, m, e), m2, ValueView::Range { start: a, end: z })]
            z - 1 == b && came_to(
                eval_range(w, h, m, e),
                m2,
                ValueView::Range { start: a, end: z },
            ),
        incl && b == i64::MAX ==> trapped_as(eval_range(w, h, m, e), m2, "overflow"@),
{
    reveal(eval_range);
    if incl && b < i64::MAX {
        let z: i64 = (b + 1) as i64;
        assert(came_to(eval_range(w, h, m, e), m2, ValueView::Range { start: a, end: z }));
    }
}

// ---------------------------------------------------------------- numbers --

/// An integer type holds as many values as its width has patterns, half of
/// them negative where it is signed, and takes a byte for every eight bits.
/// The widest are bounded by the machine word alone.
pub proof fn law_widths(p: Prim)
    ensures
        bits_of(p) matches Some(b) ==> size_of_prim(p) * 8 == b,
        range_of_prim(p) matches Some((lo, hi)) ==> {
            let b = bits_of(p)->Some_0;
            &&& bits_of(p) is Some
            &&& b < 64 ==> hi - lo + 1 == pow2(b as nat)
            &&& b == 64 ==> lo == 0 && hi == i64::MAX
            &&& lo == 0 || lo + hi == -1
        },
        (p is I8 || p is I16 || p is I32) ==> (range_of_prim(p) matches Some((lo, _)) && lo < 0),
        (p is U8 || p is U16 || p is U32 || p is U64 || p is Byte || p is Uint) ==> (range_of_prim(
            p,
        ) matches Some((lo, _)) && lo == 0),
        (p is I64 || p is Int) ==> range_of_prim(p) is None,
{
    lemma2_to64();
}

/// A numeral with a minus is the negative of the numeral, and one with a
/// plus is the numeral.
pub proof fn law_signs(s: Seq<u32>, radix: nat, n: int)
    requires
        s.len() > 0,
        s[0] != 43 && s[0] != 45,
        number_of(s, radix, true) == Some(n),
    ensures
        number_of(seq![45u32] + s, radix, true) == Some(-n),
        number_of(seq![43u32] + s, radix, true) == Some(n),
        number_of(seq![43u32] + s, radix, false) == Some(n),
        n >= 0,
{
    assert((seq![45u32] + s).skip(1) =~= s);
    assert((seq![43u32] + s).skip(1) =~= s);
}

// ----------------------------------------------------------------- copies --

/// The value holds no storage of its own.
pub open spec fn plain(v: ValueView) -> bool {
    !(v is List || v is Pool || v is Struct || v is Shared)
}

proof fn lemma_plain_copies<'t>(
    m: State<'t>,
    vs: Seq<ValueView>,
    fuel: nat,
    i: nat,
    acc: Seq<ValueView>,
)
    requires
        i <= vs.len(),
        acc == vs.take(i as int),
        forall|k: int| 0 <= k < vs.len() ==> plain(#[trigger] vs[k]),
    ensures
        copy_all(m, vs, fuel, i, acc) == (m, Ok::<Seq<ValueView>, StopView>(vs)),
    decreases vs.len() - i,
{
    if i < vs.len() {
        assert(plain(vs[i as int]));
        assert(deep_copy(m, vs[i as int], fuel) == (m, Ok::<ValueView, StopView>(vs[i as int])));
        assert(acc.push(vs[i as int]) =~= vs.take(i as int + 1));
        lemma_plain_copies(m, vs, fuel, i + 1, acc.push(vs[i as int]));
    } else {
        assert(vs.take(i as int) =~= vs);
    }
}

/// A copy of a list is another list with the same items, and the first is as
/// it was; a copy of a counted value is one more hold on it.
pub proof fn law_copy_is_apart<'t>(m: State<'t>, v: ValueView, id: usize, fuel: nat)
    requires
        fuel > 0,
        m.lists.len() <= usize::MAX,
    ensures
        v == ValueView::List(id) && id < m.lists.len() && (forall|k: int|
            0 <= k < m.lists[id as int].len() ==> plain(#[trigger] m.lists[id as int][k])) ==> {
            let (m1, r) = deep_copy(m, v, fuel);
            r matches Ok(ValueView::List(n)) && n != id && n < m1.lists.len() && m1.lists[n as int]
                == m.lists[id as int] && m1.lists[id as int] == m.lists[id as int]
        },
        v == ValueView::Shared(id) && id < m.cells.len() && m.cells[id as int].strong < u32::MAX
            ==> {
            let (m1, r) = deep_copy(m, v, fuel);
            r == Ok::<ValueView, StopView>(v) && m1.cells[id as int].strong
                == m.cells[id as int].strong + 1 && m1.lists == m.lists
        },
        plain(v) ==> deep_copy(m, v, fuel) == (m, Ok::<ValueView, StopView>(v)),
{
    if v == ValueView::List(id) && id < m.lists.len() && (forall|k: int|
        0 <= k < m.lists[id as int].len() ==> plain(#[trigger] m.lists[id as int][k])) {
        let vs = m.lists[id as int];
        assert(vs.take(0) =~= Seq::empty());
        lemma_plain_copies(m, vs, (fuel - 1) as nat, 0, Seq::empty());
    }
}

// --------------------------------------------------------------- captures --

proof fn lemma_capture<'t>(
    st: LowView<'t>,
    names: Seq<String>,
    i: int,
    at: Span,
    acc: Seq<PlaceId>,
)
    requires
        0 <= i <= names.len(),
        st.places.wf(),
        st.places.places.len() + names.len() - i <= u32::MAX,
        forall|j: int| 0 <= j < acc.len() ==> st.places.has(#[trigger] acc[j]),
    ensures
        ({
            let (s, out) = capture(st, names, i, at, acc);
            &&& s.scopes == st.scopes
            &&& acc.len() <= out.len()
            &&& forall|j: int| 0 <= j < acc.len() ==> #[trigger] out[j] == acc[j]
            &&& forall|p: PlaceId| #[trigger]
                st.places.has(p) ==> s.places.has(p) && s.places.at(p) == st.places.at(p)
        }),
    decreases names.len() - i,
{
    reveal(capture);
    if i < names.len() {
        match st.lookup(names[i]@) {
            None => {
                lemma_capture(st, names, i + 1, at, acc);
            },
            Some(l) => {
                let c = st.locals[l.0 as int].is_copy;
                let s = st.intern_local(l, c);
                law_intern(st.places, PlaceView::local(l.0), c);
                let id = s.bind_place(l);
                let next = s.emit_read(id, at);
                let grown = acc.push(id);
                assert(next.places == s.places);
                assert forall|j: int| 0 <= j < grown.len() implies next.places.has(
                    #[trigger] grown[j],
                ) by {
                    if j < acc.len() {
                        assert(st.places.has(acc[j]));
                        assert(s.places.at(acc[j]) == st.places.at(acc[j]));
                    }
                }
                lemma_capture(next, names, i + 1, at, grown);
                let (f, out) = capture(st, names, i, at, acc);
                assert forall|p: PlaceId| #[trigger] st.places.has(p) implies f.places.has(p)
                    && f.places.at(p) == st.places.at(p) by {
                    assert(s.places.at(p) == st.places.at(p));
                    assert(next.places.has(p));
                }
                assert forall|j: int| 0 <= j < acc.len() implies #[trigger] out[j] == acc[j] by {
                    assert(grown[j] == acc[j]);
                    assert(out[j] == grown[j]);
                }
            },
        }
    }
}

/// The local's whole place is among those.
pub open spec fn borrows_local(s: LowView<'_>, out: Seq<PlaceId>, l: u32) -> bool {
    exists|j: int|
        0 <= j < out.len() && s.places.has(#[trigger] out[j]) && s.places.at(out[j]) == (PlaceView {
            base: BaseView::Local(l),
            proj: Seq::empty(),
        })
}

/// A closure borrows every local that it captures, as a whole.
pub proof fn law_captures_are_borrowed<'t>(
    st: LowView<'t>,
    names: Seq<String>,
    i: int,
    at: Span,
    acc: Seq<PlaceId>,
    k: int,
)
    requires
        0 <= i <= k < names.len(),
        st.places.wf(),
        st.places.places.len() + names.len() - i <= u32::MAX,
        forall|j: int| 0 <= j < acc.len() ==> st.places.has(#[trigger] acc[j]),
        st.lookup(names[k]@) is Some,
    ensures
        ({
            let (s, out) = capture(st, names, i, at, acc);
            borrows_local(s, out, (st.lookup(names[k]@)->Some_0).0)
        }),
    decreases names.len() - i,
{
    reveal(capture);
    match st.lookup(names[i]@) {
        None => {
            law_captures_are_borrowed(st, names, i + 1, at, acc, k);
        },
        Some(l) => {
            let c = st.locals[l.0 as int].is_copy;
            let s = st.intern_local(l, c);
            law_intern(st.places, PlaceView::local(l.0), c);
            let id = s.bind_place(l);
            let next = s.emit_read(id, at);
            let grown = acc.push(id);
            assert(next.places == s.places);
            assert(next.scopes == st.scopes);
            assert forall|j: int| 0 <= j < grown.len() implies next.places.has(
                #[trigger] grown[j],
            ) by {
                if j < acc.len() {
                    assert(st.places.has(acc[j]));
                    assert(s.places.at(acc[j]) == st.places.at(acc[j]));
                }
            }
            if k == i {
                lemma_capture(next, names, i + 1, at, grown);
                let (f, out) = capture(st, names, i, at, acc);
                assert(next.places.has(id));
                assert(grown[acc.len() as int] == id);
                assert(capture(next, names, i + 1, at, grown) == (f, out));
                assert(out[acc.len() as int] == id);
                assert(f.places.at(id) == PlaceView::local(l.0));
                let whole = PlaceView { base: BaseView::Local(l.0), proj: Seq::empty() };
                assert(PlaceView::local(l.0) == whole);
                assert(0 <= acc.len() < out.len() && f.places.has(out[acc.len() as int])
                    && f.places.at(out[acc.len() as int]) == whole);
                assert(borrows_local(f, out, l.0));
            } else {
                assert(next.lookup(names[k]@) == st.lookup(names[k]@));
                assert(capture(next, names, i + 1, at, grown) == capture(st, names, i, at, acc));
                law_captures_are_borrowed(next, names, i + 1, at, grown, k);
            }
        },
    }
}

/// A closure that captures something is a value that borrows it.
pub proof fn law_closure_carries_its_captures<'t>(
    cx: Cx<'t>,
    d: bool,
    st: LowView<'t>,
    e: Expr,
    names: Vec<String>,
)
    requires
        e.kind matches ExprKind::Closure { captures, .. } && captures == names,
        eval_closure(cx, d, st, e).1 is Ok,
    ensures
        capture(st, names@, 0, e.span, Seq::empty()).1.len() > 0 ==> (eval_closure(
            cx,
            d,
            st,
            e,
        ).1->Ok_0).borrowed == capture(st, names@, 0, e.span, Seq::empty()).1,
        capture(st, names@, 0, e.span, Seq::empty()).1.len() == 0 ==> (eval_closure(
            cx,
            d,
            st,
            e,
        ).1->Ok_0).borrowed.len() == 0,
{
    reveal(eval_closure);
    reveal(eval_value);
    reveal(close_scope);
}

// ------------------------------------------------------------------- walk --

proof fn lemma_goes(st: LowView<'_>, from: BlockId, to: BlockId)
    ensures
        stands(st, from) ==> leads(st.goto(from, to), from, to) && st.goto(
            from,
            to,
        ).blocks.len() == st.blocks.len(),
{
    if stands(st, from) {
        let b = st.blocks[from.0 as int];
        if !b.succs.contains(to) {
            assert(b.succs.push(to)[b.succs.len() as int] == to);
        }
    }
}

/// Every arm of a `select` is reached by a block of its own and goes on
/// behind it; with no arm at all the walk goes straight on.
pub proof fn law_select_fans_out<'t>(
    cx: Cx<'t>,
    d: bool,
    st: LowView<'t>,
    arms: Vec<SelectArm>,
    i: nat,
    fan: BlockId,
    join: BlockId,
)
    requires
        select_arms(cx, d, st, arms, i, fan, join).1 is Ok,
        stands(st, fan),
    ensures
        i >= arms@.len() ==> select_arms(cx, d, st, arms, i, fan, join).0.cur == join,
        arms@.len() == 0 ==> leads(select_arms(cx, d, st, arms, i, fan, join).0, fan, join),
        i < arms@.len() ==> exists|entry: LowView<'t>, fin: LowView<'t>, next: LowView<'t>|
            #![trigger arm_shape(st, fan, join, entry, fin, next)]
            arm_shape(st, fan, join, entry, fin, next) && select_arms(
                cx,
                d,
                next,
                arms,
                i + 1,
                fan,
                join,
            ) == select_arms(cx, d, st, arms, i, fan, join),
{
    reveal(select_arms);
    reveal(eval_value);
    reveal(close_scope);
    lemma_goes(st, fan, join);
    if i < arms@.len() {
        let arm = arms@[i as int];
        let b = st.next_block();
        let entry = st.new_block().goto(fan, b).at(b).push_scope();
        lemma_goes(st.new_block(), fan, b);
        let s1 = match arm.pattern {
            Some(p) => entry.declare_refs(cx, binds_of(&p), binds_of(&p).len()),
            None => entry,
        };
        let s2 = match arm.body {
            Some(x) => eval_value(cx, d, s1, x).0,
            None => s1,
        };
        let fin = close_scope(cx, d, s2, closing(arm.span)).0;
        let next = fin.goto(fin.cur, join);
        lemma_goes(fin, fin.cur, join);
        assert(arm_shape(st, fan, join, entry, fin, next));
    }
}

/// A region block that is frozen as it ends is closed and then immutable.
pub proof fn law_frozen_block_is_frozen<'t>(
    cx: Cx<'t>,
    d: bool,
    st: LowView<'t>,
    e: Expr,
    at: Span,
)
    requires
        e.kind is RegionBlock,
        eval_frozen_block(cx, d, st, e, at).1 is Ok,
    ensures
        ({
            let (s, r) = eval_frozen_block(cx, d, st, e, at);
            let rid = RegionId(st.rt.regions.len() as u32);
            &&& (r->Ok_0).region is None
            &&& rid.0 < s.frozen_region.len() ==> s.frozen_region[rid.0 as int] is Some
            &&& rid.0 < s.moved.len() ==> s.moved[rid.0 as int]
            &&& e.kind matches ExprKind::RegionBlock { name, strategy, body } ==> {
                let entry = enter_region(cx, st, name, false, strategy, e.span);
                let walked = walk_block(cx, d, entry, body, true).0;
                let fin = close_scope(cx, d, walked, closing(e.span)).0;
                stands(fin, fin.cur) ==> recorded(
                    fin,
                    s,
                    StmtView::RegionClose { region: rid, span: closing(e.span) },
                )
            }
        }),
{
    reveal(eval_frozen_block);
    reveal(walk_block);
    reveal(close_scope);
    if let ExprKind::RegionBlock { name, strategy, body } = e.kind {
        let rid = st.next_region();
        let s0 = enter_region(cx, st, name, false, strategy, e.span);
        let s1 = walk_block(cx, d, s0, body, true).0;
        let fin = close_scope(cx, d, s1, closing(e.span)).0.pop_ambient().pop_open();
        let shut = StmtView::RegionClose { region: rid, span: closing(e.span) };
        let (s, r) = eval_frozen_block(cx, d, st, e, at);
        assert(s == fin.push(shut).freeze(rid, at));
    }
}

/// Freezing a local that is a region freezes that region, and the value goes
/// on being it; what is no region is not supported.
pub proof fn law_freeze_freezes<'t>(
    cx: Cx<'t>,
    d: bool,
    st: LowView<'t>,
    e: Expr,
    x: Expr,
    s: LowView<'t>,
    p: PlaceId,
)
    requires
        e.kind matches ExprKind::Freeze(y) && *y == x,
        !(x.kind is RegionBlock),
        as_place(cx, d, st, x).0 == s,
        as_place(cx, d, st, x).1 matches Some((q, _)) && q == p,
        s.places.at(p).proj.len() == 0,
    ensures
        ({
            let (out, r) = eval_freeze(cx, d, st, e);
            &&& s.place_region(p) matches Some(rid) ==> (r matches Ok(v) && v.region == Some(rid)
                && (rid.0 < out.frozen_region.len() ==> out.frozen_region[rid.0 as int] is Some))
            &&& s.place_region(p) is None ==> r is Err
        }),
{
    reveal(eval_freeze);
    reveal(as_place);
    reveal(eval_value);
}

/// A value made a trait object borrows the place that it stands in.
pub proof fn law_trait_object_borrows<'t>(
    cx: Cx<'t>,
    d: bool,
    st: LowView<'t>,
    e: Expr,
    x: Expr,
    s: LowView<'t>,
    p: PlaceId,
)
    requires
        e.kind matches ExprKind::Cast(y, Some(c)) && *y == x && c.kind is Unsize,
        as_place(cx, d, st, x).0 == s,
        as_place(cx, d, st, x).1 matches Some((q, _)) && q == p,
    ensures
        eval_cast(cx, d, st, e).1 matches Ok(v) && v.borrowed.contains(p) && v.borrowed.len() == 1,
        stands(s, s.cur) ==> recorded(
            s,
            eval_cast(cx, d, st, e).0,
            StmtView::Read { place: p, span: e.span },
        ),
{
    reveal(eval_cast);
    reveal(as_place);
    let v = eval_cast(cx, d, st, e).1->Ok_0;
    assert(v.borrowed[0] == p);
}

/// A `borrow` door needs the ring, a region and a raw pointer: what is not
/// one is an E1305 where it stands. The door itself is recorded last.
pub proof fn law_door_is_checked<'t>(
    cx: Cx<'t>,
    d: bool,
    st: LowView<'t>,
    e: Expr,
    region: Expr,
    source: Expr,
)
    requires
        e.kind matches ExprKind::Borrow { region: r, source: s } && *r == region && *s == source,
        eval_borrow(cx, d, st, e).1 is Ok,
    ensures
        exists|s0: LowView<'t>, s1: LowView<'t>, s2: LowView<'t>, s3: LowView<'t>, s4: LowView<'t>|
            #![trigger door_shape(cx, d, st, e, region, source, s0, s1, s2, s3, s4)]
            door_shape(cx, d, st, e, region, source, s0, s1, s2, s3, s4) && (stands(s4, s4.cur)
                ==> recorded(
                s4,
                eval_borrow(cx, d, st, e).0,
                StmtView::Door { region: region.text@, ptr: source.text@, span: e.span },
            )),
{
    reveal(eval_borrow);
    reveal(read_operand);
    let s0 = st.require_unsafe("the `borrow … from …` door"@, e.span);
    law_ring_is_demanded(st, "the `borrow … from …` door"@, e.span);
    let s1 = read_operand(cx, d, s0, region).0;
    let fine = expr_kind(cx, region) matches Some(TyKind::RegionTy) || expr_kind(
        cx,
        region,
    ) matches Some(TyKind::Error) || expr_kind(cx, region) matches Some(TyKind::Never);
    let s2 = if fine {
        s1
    } else {
        s1.report(
            crate::lowuse::door_diag(
                region.span,
                "a `region` value"@,
                cx.tabs.opt_text_of(crate::lowbind::expr_ty(region)),
            ),
        )
    };
    assert(fine || s2.diags.drop_last() =~= s1.diags);
    let s3 = read_operand(cx, d, s2, source).0;
    let good = expr_kind(cx, source) matches Some(TyKind::Ptr(_)) || expr_kind(
        cx,
        source,
    ) matches Some(TyKind::Error) || expr_kind(cx, source) matches Some(TyKind::Never);
    let s4 = if good {
        s3
    } else {
        s3.report(
            crate::lowuse::door_diag(
                source.span,
                "a raw pointer (`*T`)"@,
                cx.tabs.opt_text_of(crate::lowbind::expr_ty(source)),
            ),
        )
    };
    assert(good || s4.diags.drop_last() =~= s3.diags);
    assert(door_shape(cx, d, st, e, region, source, s0, s1, s2, s3, s4));
}

/// How a door is walked: `s0` is past the ring's demand, `s1` and `s2` are
/// before and after the region is judged, `s3` and `s4` the pointer.
pub open spec fn door_shape<'t>(
    cx: Cx<'t>,
    d: bool,
    st: LowView<'t>,
    e: Expr,
    region: Expr,
    source: Expr,
    s0: LowView<'t>,
    s1: LowView<'t>,
    s2: LowView<'t>,
    s3: LowView<'t>,
    s4: LowView<'t>,
) -> bool {
    let fine = expr_kind(cx, region) matches Some(TyKind::RegionTy) || expr_kind(
        cx,
        region,
    ) matches Some(TyKind::Error) || expr_kind(cx, region) matches Some(TyKind::Never);
    let good = expr_kind(cx, source) matches Some(TyKind::Ptr(_)) || expr_kind(
        cx,
        source,
    ) matches Some(TyKind::Error) || expr_kind(cx, source) matches Some(TyKind::Never);
    &&& if st.in_unsafe {
        s0 == st
    } else {
        reported(st, s0, Code::E1301, e.span)
    }
    &&& read_operand(cx, d, s0, region).0 == s1
    &&& if fine {
        s2 == s1
    } else {
        reported(s1, s2, Code::E1305, region.span)
    }
    &&& read_operand(cx, d, s2, source).0 == s3
    &&& if good {
        s4 == s3
    } else {
        reported(s3, s4, Code::E1305, source.span)
    }
}

} // verus!
