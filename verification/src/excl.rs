//! Call-surface exclusivity (`[mem.tier0.excl]`, E1002): within one
//! call, a `mut` place must have no other live access path, and a
//! `take`d place may not be lent at all.
//!
//! Call-extent loans begin and end inside a single call statement, so
//! this check is pairwise over the [`crate::cfg::CallSurface`]. `Copy`
//! values passed `read` were copied during argument evaluation and never
//! appear in the surface; what remains really is live for the call.

use vstd::prelude::*;
use vstd::string::*;

use crate::cfg::{args_ok, stmt_ok, CallSurface, CallView, Cfg, CfgView, Stmt, StmtView};
use crate::diag::{diag_views, lemma_diag_views_push, Code, DiagView, Diagnostic, Span};
use crate::place::{law_overlap_reflexive, PlaceId};
use crate::text::lit;

verus! {

pub const NOTE_SAME: &'static str = "the same place twice is never disjoint.";

pub const NOTE_PREFIX: &'static str = "` — a path and its prefix conflict [mem.model.path.disjoint]. Disjoint fields (`x.a` with `x.b`) are fine together.";

pub const NOTE_REACH: &'static str = "the two paths can reach the same memory.";

/// Why the two places overlap.
pub open spec fn overlap_text(cfg: CfgView, a: PlaceId, b: PlaceId) -> Seq<char> {
    if a == b {
        NOTE_SAME@
    } else if cfg.places.is_prefix_of(a, b) {
        "`"@ + cfg.show(b) + "` is inside `"@ + cfg.show(a) + NOTE_PREFIX@
    } else if cfg.places.is_prefix_of(b, a) {
        "`"@ + cfg.show(a) + "` is inside `"@ + cfg.show(b) + NOTE_PREFIX@
    } else {
        NOTE_REACH@
    }
}

fn overlap_note(cfg: &Cfg, a: PlaceId, b: PlaceId) -> (r: String)
    requires
        cfg@.wf(),
        cfg@.places.has(a),
        cfg@.places.has(b),
    ensures
        r@ == overlap_text(cfg@, a, b),
{
    if a == b {
        lit(NOTE_SAME)
    } else if cfg.places.covers(a, b) {
        lit("`").concat(cfg.show_place(b).as_str()).concat("` is inside `").concat(
            cfg.show_place(a).as_str(),
        ).concat(NOTE_PREFIX)
    } else if cfg.places.covers(b, a) {
        lit("`").concat(cfg.show_place(a).as_str()).concat("` is inside `").concat(
            cfg.show_place(b).as_str(),
        ).concat(NOTE_PREFIX)
    } else {
        lit(NOTE_REACH)
    }
}

/// Two exclusive claims of one call.
pub open spec fn mut_mut(cfg: CfgView, m: (PlaceId, Span), m2: (PlaceId, Span)) -> DiagView {
    DiagView::error(
        Code::E1002,
        m2.1,
        "`"@ + cfg.show(m2.0) + "` cannot go `mut` here: it overlaps `"@ + cfg.show(m.0)
            + "`, already passed `mut` in this call"@,
    ).with_label("second exclusive claim on the same place"@).with_secondary(
        m.1,
        "`"@ + cfg.show(m.0) + "` is passed `mut` here"@,
    ).with_note(overlap_text(cfg, m.0, m2.0))
}

/// A read of a place the call mutates.
pub open spec fn mut_read(cfg: CfgView, m: (PlaceId, Span), r: (PlaceId, Span)) -> DiagView {
    DiagView::error(
        Code::E1002,
        r.1,
        "`"@ + cfg.show(r.0) + "` is lent for this call while `"@ + cfg.show(m.0)
            + "` goes `mut` in it"@,
    ).with_label("read of a place being mutated"@).with_secondary(
        m.1,
        "`"@ + cfg.show(m.0) + "` is passed `mut` here"@,
    ).with_note(overlap_text(cfg, m.0, r.0))
}

/// A move of a place the call mutates.
pub open spec fn mut_take(cfg: CfgView, m: (PlaceId, Span), t: (PlaceId, Span)) -> DiagView {
    DiagView::error(
        Code::E1002,
        t.1,
        "`"@ + cfg.show(t.0) + "` moves away in this call while `"@ + cfg.show(m.0)
            + "` goes `mut` in it"@,
    ).with_label("moved while being mutated"@).with_secondary(
        m.1,
        "`"@ + cfg.show(m.0) + "` is passed `mut` here"@,
    )
}

/// A move of a place the call reads.
pub open spec fn read_take(cfg: CfgView, r: (PlaceId, Span), t: (PlaceId, Span)) -> DiagView {
    DiagView::error(
        Code::E1002,
        t.1,
        "`"@ + cfg.show(t.0) + "` moves away in this call while `"@ + cfg.show(r.0)
            + "` is lent to it"@,
    ).with_label("moved while lent"@).with_secondary(
        r.1,
        "`"@ + cfg.show(r.0) + "` is read by this call"@,
    )
}

/// The four conflicts of a call surface.
pub enum Pair {
    MutMut,
    MutRead,
    MutTake,
    ReadTake,
}

pub open spec fn pair_diag(
    cfg: CfgView,
    kind: Pair,
    a: (PlaceId, Span),
    b: (PlaceId, Span),
) -> DiagView {
    match kind {
        Pair::MutMut => mut_mut(cfg, a, b),
        Pair::MutRead => mut_read(cfg, a, b),
        Pair::MutTake => mut_take(cfg, a, b),
        Pair::ReadTake => read_take(cfg, a, b),
    }
}

/// The conflicts of `a` with `others[from..to]`, in order.
pub open spec fn row(
    cfg: CfgView,
    kind: Pair,
    a: (PlaceId, Span),
    others: Seq<(PlaceId, Span)>,
    from: int,
    to: int,
) -> Seq<DiagView>
    decreases to - from,
{
    if to <= from {
        Seq::empty()
    } else {
        let rest = row(cfg, kind, a, others, from, to - 1);
        if cfg.places.overlaps(a.0, others[to - 1].0) {
            rest.push(pair_diag(cfg, kind, a, others[to - 1]))
        } else {
            rest
        }
    }
}

/// The conflicts of the first `n` exclusive claims with everything else
/// the call holds.
pub open spec fn mut_rows(cfg: CfgView, c: CallView, n: nat) -> Seq<DiagView>
    decreases n,
{
    if n == 0 {
        Seq::empty()
    } else {
        let i = n - 1;
        let m = c.mut_args[i];
        mut_rows(cfg, c, i as nat) + row(
            cfg,
            Pair::MutMut,
            m,
            c.mut_args,
            i + 1,
            c.mut_args.len() as int,
        ) + row(cfg, Pair::MutRead, m, c.read_args, 0, c.read_args.len() as int) + row(
            cfg,
            Pair::MutTake,
            m,
            c.take_args,
            0,
            c.take_args.len() as int,
        )
    }
}

/// The conflicts of the first `n` reads with the moves.
pub open spec fn read_rows(cfg: CfgView, c: CallView, n: nat) -> Seq<DiagView>
    decreases n,
{
    if n == 0 {
        Seq::empty()
    } else {
        read_rows(cfg, c, (n - 1) as nat) + row(
            cfg,
            Pair::ReadTake,
            c.read_args[n - 1],
            c.take_args,
            0,
            c.take_args.len() as int,
        )
    }
}

pub open spec fn call_diags(cfg: CfgView, c: CallView) -> Seq<DiagView> {
    mut_rows(cfg, c, c.mut_args.len()) + read_rows(cfg, c, c.read_args.len())
}

pub open spec fn stmt_diags(cfg: CfgView, s: StmtView) -> Seq<DiagView> {
    match s {
        StmtView::Call(c) => call_diags(cfg, c),
        _ => Seq::empty(),
    }
}

pub open spec fn stmts_diags(cfg: CfgView, stmts: Seq<StmtView>, n: nat) -> Seq<DiagView>
    decreases n,
{
    if n == 0 {
        Seq::empty()
    } else {
        stmts_diags(cfg, stmts, (n - 1) as nat) + stmt_diags(cfg, stmts[n - 1])
    }
}

pub open spec fn blocks_diags(cfg: CfgView, n: nat) -> Seq<DiagView>
    decreases n,
{
    if n == 0 {
        Seq::empty()
    } else {
        blocks_diags(cfg, (n - 1) as nat) + stmts_diags(
            cfg,
            cfg.blocks[n - 1].stmts,
            cfg.blocks[n - 1].stmts.len(),
        )
    }
}

/// Every exclusivity conflict of the graph, in block, statement and
/// argument order.
pub open spec fn excl_diags(cfg: CfgView) -> Seq<DiagView> {
    blocks_diags(cfg, cfg.blocks.len())
}

/// No place of the list overlaps `p`.
pub open spec fn clear_of(
    cfg: CfgView,
    p: PlaceId,
    others: Seq<(PlaceId, Span)>,
    from: int,
) -> bool {
    forall|j: int| from <= j < others.len() ==> !cfg.places.overlaps(p, (#[trigger] others[j]).0)
}

/// A `mut` place has no other access path in the call, and nothing lent
/// moves away.
pub open spec fn exclusive(cfg: CfgView, c: CallView) -> bool {
    &&& forall|i: int|
        0 <= i < c.mut_args.len() ==> {
            &&& clear_of(cfg, (#[trigger] c.mut_args[i]).0, c.mut_args, i + 1)
            &&& clear_of(cfg, c.mut_args[i].0, c.read_args, 0)
            &&& clear_of(cfg, c.mut_args[i].0, c.take_args, 0)
        }
    &&& forall|i: int|
        0 <= i < c.read_args.len() ==> clear_of(
            cfg,
            (#[trigger] c.read_args[i]).0,
            c.take_args,
            0,
        )
}

proof fn lemma_row_empty(
    cfg: CfgView,
    kind: Pair,
    a: (PlaceId, Span),
    others: Seq<(PlaceId, Span)>,
    from: int,
    to: int,
)
    requires
        0 <= from,
        to <= others.len(),
    ensures
        row(cfg, kind, a, others, from, to).len() == 0 <==> (forall|j: int|
            from <= j < to ==> !cfg.places.overlaps(a.0, (#[trigger] others[j]).0)),
    decreases to - from,
{
    if to > from {
        lemma_row_empty(cfg, kind, a, others, from, to - 1);
        if cfg.places.overlaps(a.0, others[to - 1].0) {
            assert(row(cfg, kind, a, others, from, to).len() > 0);
        }
    }
}

proof fn lemma_mut_rows_empty(cfg: CfgView, c: CallView, n: nat)
    requires
        n <= c.mut_args.len(),
    ensures
        mut_rows(cfg, c, n).len() == 0 <==> (forall|i: int|
            0 <= i < n ==> {
                &&& clear_of(cfg, (#[trigger] c.mut_args[i]).0, c.mut_args, i + 1)
                &&& clear_of(cfg, c.mut_args[i].0, c.read_args, 0)
                &&& clear_of(cfg, c.mut_args[i].0, c.take_args, 0)
            }),
    decreases n,
{
    if n > 0 {
        let i = n - 1;
        let m = c.mut_args[i];
        lemma_mut_rows_empty(cfg, c, i as nat);
        lemma_row_empty(cfg, Pair::MutMut, m, c.mut_args, i + 1, c.mut_args.len() as int);
        lemma_row_empty(cfg, Pair::MutRead, m, c.read_args, 0, c.read_args.len() as int);
        lemma_row_empty(cfg, Pair::MutTake, m, c.take_args, 0, c.take_args.len() as int);
    }
}

proof fn lemma_read_rows_empty(cfg: CfgView, c: CallView, n: nat)
    requires
        n <= c.read_args.len(),
    ensures
        read_rows(cfg, c, n).len() == 0 <==> (forall|i: int|
            0 <= i < n ==> clear_of(cfg, (#[trigger] c.read_args[i]).0, c.take_args, 0)),
    decreases n,
{
    if n > 0 {
        lemma_read_rows_empty(cfg, c, (n - 1) as nat);
        lemma_row_empty(
            cfg,
            Pair::ReadTake,
            c.read_args[n - 1],
            c.take_args,
            0,
            c.take_args.len() as int,
        );
    }
}

/// A call is accepted iff its surface is exclusive: disjoint places go
/// `mut` together, and nothing else does.
pub proof fn law_call_accepted_iff_exclusive(cfg: CfgView, c: CallView)
    ensures
        call_diags(cfg, c).len() == 0 <==> exclusive(cfg, c),
{
    lemma_mut_rows_empty(cfg, c, c.mut_args.len());
    lemma_read_rows_empty(cfg, c, c.read_args.len());
}

/// An error of the rule stands in the list, there.
pub open spec fn refused_at(ds: Seq<DiagView>, at: Span) -> bool {
    exists|k: int|
        0 <= k < ds.len() && (#[trigger] ds[k]).code == Code::E1002 && ds[k].primary == at
            && ds[k].severity is Error
}

/// The call stands in the graph.
pub open spec fn has_call(cfg: CfgView, c: CallView) -> bool {
    exists|b: int, k: int|
        0 <= b < cfg.blocks.len() && 0 <= k < cfg.blocks[b].stmts.len()
            && #[trigger] cfg.blocks[b].stmts[k] == StmtView::Call(c)
}

proof fn lemma_refused_in(a: Seq<DiagView>, b: Seq<DiagView>, c: Seq<DiagView>, at: Span)
    requires
        refused_at(b, at),
    ensures
        refused_at(a + b + c, at),
{
    let k = choose|k: int|
        0 <= k < b.len() && (#[trigger] b[k]).code == Code::E1002 && b[k].primary == at
            && b[k].severity is Error;
    assert((a + b + c)[a.len() + k] == b[k]);
}

proof fn lemma_row_refuses(
    cfg: CfgView,
    kind: Pair,
    a: (PlaceId, Span),
    others: Seq<(PlaceId, Span)>,
    from: int,
    to: int,
    j: int,
)
    requires
        from <= j < to,
        cfg.places.overlaps(a.0, others[j].0),
    ensures
        refused_at(row(cfg, kind, a, others, from, to), others[j].1),
    decreases to - from,
{
    let rest = row(cfg, kind, a, others, from, to - 1);
    if j == to - 1 {
        assert(row(cfg, kind, a, others, from, to)[rest.len() as int].primary == others[j].1);
    } else {
        lemma_row_refuses(cfg, kind, a, others, from, to - 1, j);
        let k = choose|k: int|
            0 <= k < rest.len() && (#[trigger] rest[k]).code == Code::E1002 && rest[k].primary
                == others[j].1 && rest[k].severity is Error;
        assert(row(cfg, kind, a, others, from, to)[k] == rest[k]);
    }
}

proof fn lemma_mut_rows_refuse(cfg: CfgView, c: CallView, n: nat, i: int, at: Span)
    requires
        0 <= i < n <= c.mut_args.len(),
        refused_at(mut_rows(cfg, c, (i + 1) as nat), at),
    ensures
        refused_at(mut_rows(cfg, c, n), at),
    decreases n,
{
    if n > i + 1 {
        lemma_mut_rows_refuse(cfg, c, (n - 1) as nat, i, at);
        let before = mut_rows(cfg, c, (n - 1) as nat);
        let m = c.mut_args[n - 1];
        let x = row(cfg, Pair::MutMut, m, c.mut_args, n as int, c.mut_args.len() as int);
        let y = row(cfg, Pair::MutRead, m, c.read_args, 0, c.read_args.len() as int);
        let z = row(cfg, Pair::MutTake, m, c.take_args, 0, c.take_args.len() as int);
        lemma_refused_in(Seq::empty(), before, x + y + z, at);
        assert(Seq::<DiagView>::empty() + before + (x + y + z) =~= mut_rows(cfg, c, n));
    }
}

proof fn lemma_mut_refuses(cfg: CfgView, c: CallView, i: int, kind: Pair, j: int)
    requires
        0 <= i < c.mut_args.len(),
        kind is MutMut ==> i < j < c.mut_args.len() && cfg.places.overlaps(
            c.mut_args[i].0,
            c.mut_args[j].0,
        ),
        kind is MutRead ==> 0 <= j < c.read_args.len() && cfg.places.overlaps(
            c.mut_args[i].0,
            c.read_args[j].0,
        ),
        kind is MutTake ==> 0 <= j < c.take_args.len() && cfg.places.overlaps(
            c.mut_args[i].0,
            c.take_args[j].0,
        ),
        !(kind is ReadTake),
    ensures
        refused_at(
            call_diags(cfg, c),
            if kind is MutMut {
                c.mut_args[j].1
            } else if kind is MutRead {
                c.read_args[j].1
            } else {
                c.take_args[j].1
            },
        ),
{
    let m = c.mut_args[i];
    let before = mut_rows(cfg, c, i as nat);
    let x = row(cfg, Pair::MutMut, m, c.mut_args, i + 1, c.mut_args.len() as int);
    let y = row(cfg, Pair::MutRead, m, c.read_args, 0, c.read_args.len() as int);
    let z = row(cfg, Pair::MutTake, m, c.take_args, 0, c.take_args.len() as int);
    let at = if kind is MutMut {
        lemma_row_refuses(cfg, kind, m, c.mut_args, i + 1, c.mut_args.len() as int, j);
        lemma_refused_in(before, x, y + z, c.mut_args[j].1);
        assert(before + x + (y + z) =~= mut_rows(cfg, c, (i + 1) as nat));
        c.mut_args[j].1
    } else if kind is MutRead {
        lemma_row_refuses(cfg, kind, m, c.read_args, 0, c.read_args.len() as int, j);
        lemma_refused_in(before + x, y, z, c.read_args[j].1);
        c.read_args[j].1
    } else {
        lemma_row_refuses(cfg, kind, m, c.take_args, 0, c.take_args.len() as int, j);
        lemma_refused_in(before + x + y, z, Seq::empty(), c.take_args[j].1);
        assert(before + x + y + z + Seq::<DiagView>::empty() =~= mut_rows(
            cfg,
            c,
            (i + 1) as nat,
        ));
        c.take_args[j].1
    };
    lemma_mut_rows_refuse(cfg, c, c.mut_args.len(), i, at);
    let all = mut_rows(cfg, c, c.mut_args.len());
    lemma_refused_in(Seq::empty(), all, read_rows(cfg, c, c.read_args.len()), at);
    assert(Seq::<DiagView>::empty() + all =~= all);
}

proof fn lemma_read_rows_refuse(cfg: CfgView, c: CallView, n: nat, i: int, j: int)
    requires
        0 <= i < n <= c.read_args.len(),
        0 <= j < c.take_args.len(),
        cfg.places.overlaps(c.read_args[i].0, c.take_args[j].0),
    ensures
        refused_at(read_rows(cfg, c, n), c.take_args[j].1),
    decreases n,
{
    let at = c.take_args[j].1;
    let before = read_rows(cfg, c, (n - 1) as nat);
    let last = row(
        cfg,
        Pair::ReadTake,
        c.read_args[n - 1],
        c.take_args,
        0,
        c.take_args.len() as int,
    );
    if i == n - 1 {
        lemma_row_refuses(
            cfg,
            Pair::ReadTake,
            c.read_args[i],
            c.take_args,
            0,
            c.take_args.len() as int,
            j,
        );
        lemma_refused_in(before, last, Seq::empty(), at);
        assert(before + last + Seq::<DiagView>::empty() =~= read_rows(cfg, c, n));
    } else {
        lemma_read_rows_refuse(cfg, c, (n - 1) as nat, i, j);
        lemma_refused_in(Seq::empty(), before, last, at);
        assert(Seq::<DiagView>::empty() + before + last =~= read_rows(cfg, c, n));
    }
}

proof fn lemma_stmts_refuse(cfg: CfgView, stmts: Seq<StmtView>, n: nat, k: int, at: Span)
    requires
        0 <= k < n <= stmts.len(),
        stmts[k] matches StmtView::Call(c) && refused_at(call_diags(cfg, c), at),
    ensures
        refused_at(stmts_diags(cfg, stmts, n), at),
    decreases n,
{
    let before = stmts_diags(cfg, stmts, (n - 1) as nat);
    let last = stmt_diags(cfg, stmts[n - 1]);
    if k == n - 1 {
        lemma_refused_in(before, last, Seq::empty(), at);
        assert(before + last + Seq::<DiagView>::empty() =~= stmts_diags(cfg, stmts, n));
    } else {
        lemma_stmts_refuse(cfg, stmts, (n - 1) as nat, k, at);
        lemma_refused_in(Seq::empty(), before, last, at);
        assert(Seq::<DiagView>::empty() + before + last =~= stmts_diags(cfg, stmts, n));
    }
}

proof fn lemma_blocks_refuse(cfg: CfgView, n: nat, b: int, k: int, at: Span)
    requires
        0 <= b < n <= cfg.blocks.len(),
        0 <= k < cfg.blocks[b].stmts.len(),
        cfg.blocks[b].stmts[k] matches StmtView::Call(c) && refused_at(call_diags(cfg, c), at),
    ensures
        refused_at(blocks_diags(cfg, n), at),
    decreases n,
{
    let before = blocks_diags(cfg, (n - 1) as nat);
    let stmts = cfg.blocks[n - 1].stmts;
    let last = stmts_diags(cfg, stmts, stmts.len());
    if b == n - 1 {
        lemma_stmts_refuse(cfg, stmts, stmts.len(), k, at);
        lemma_refused_in(before, last, Seq::empty(), at);
        assert(before + last + Seq::<DiagView>::empty() =~= blocks_diags(cfg, n));
    } else {
        lemma_blocks_refuse(cfg, (n - 1) as nat, b, k, at);
        lemma_refused_in(Seq::empty(), before, last, at);
        assert(Seq::<DiagView>::empty() + before + last =~= blocks_diags(cfg, n));
    }
}

proof fn lemma_call_refuses(cfg: CfgView, c: CallView, at: Span)
    requires
        has_call(cfg, c),
        refused_at(call_diags(cfg, c), at),
    ensures
        refused_at(excl_diags(cfg), at),
{
    let (b, k) = choose|b: int, k: int|
        0 <= b < cfg.blocks.len() && 0 <= k < cfg.blocks[b].stmts.len()
            && #[trigger] cfg.blocks[b].stmts[k] == StmtView::Call(c);
    lemma_blocks_refuse(cfg, cfg.blocks.len(), b, k, at);
}

/// Two `mut` arguments of one call that overlap are refused, at the second.
pub proof fn law_overlapping_mut_is_refused(cfg: CfgView, c: CallView, i: int, j: int)
    requires
        has_call(cfg, c),
        0 <= i < j < c.mut_args.len(),
        cfg.places.overlaps(c.mut_args[i].0, c.mut_args[j].0),
    ensures
        refused_at(excl_diags(cfg), c.mut_args[j].1),
{
    lemma_mut_refuses(cfg, c, i, Pair::MutMut, j);
    lemma_call_refuses(cfg, c, c.mut_args[j].1);
}

/// A call that names one place twice under `mut` is refused, at the second.
pub proof fn law_same_place_twice_is_refused(cfg: CfgView, c: CallView, i: int, j: int)
    requires
        has_call(cfg, c),
        0 <= i < j < c.mut_args.len(),
        c.mut_args[i].0 == c.mut_args[j].0,
    ensures
        refused_at(excl_diags(cfg), c.mut_args[j].1),
{
    law_overlap_reflexive(cfg.places.at(c.mut_args[i].0));
    law_overlapping_mut_is_refused(cfg, c, i, j);
}

/// A place lent to a call that mutates what it overlaps is refused, at the
/// read; and so is one that moves away in such a call, at the move.
pub proof fn law_use_of_a_mut_is_refused(cfg: CfgView, c: CallView, i: int, j: int)
    requires
        has_call(cfg, c),
        0 <= i < c.mut_args.len(),
    ensures
        0 <= j < c.read_args.len() && cfg.places.overlaps(c.mut_args[i].0, c.read_args[j].0)
            ==> refused_at(excl_diags(cfg), c.read_args[j].1),
        0 <= j < c.take_args.len() && cfg.places.overlaps(c.mut_args[i].0, c.take_args[j].0)
            ==> refused_at(excl_diags(cfg), c.take_args[j].1),
{
    if 0 <= j < c.read_args.len() && cfg.places.overlaps(c.mut_args[i].0, c.read_args[j].0) {
        lemma_mut_refuses(cfg, c, i, Pair::MutRead, j);
        lemma_call_refuses(cfg, c, c.read_args[j].1);
    }
    if 0 <= j < c.take_args.len() && cfg.places.overlaps(c.mut_args[i].0, c.take_args[j].0) {
        lemma_mut_refuses(cfg, c, i, Pair::MutTake, j);
        lemma_call_refuses(cfg, c, c.take_args[j].1);
    }
}

/// What is lent to a call may not move away in it: refused, at the move.
pub proof fn law_take_of_a_read_is_refused(cfg: CfgView, c: CallView, i: int, j: int)
    requires
        has_call(cfg, c),
        0 <= i < c.read_args.len(),
        0 <= j < c.take_args.len(),
        cfg.places.overlaps(c.read_args[i].0, c.take_args[j].0),
    ensures
        refused_at(excl_diags(cfg), c.take_args[j].1),
{
    let at = c.take_args[j].1;
    lemma_read_rows_refuse(cfg, c, c.read_args.len(), i, j);
    let before = mut_rows(cfg, c, c.mut_args.len());
    let last = read_rows(cfg, c, c.read_args.len());
    lemma_refused_in(before, last, Seq::empty(), at);
    assert(before + last + Seq::<DiagView>::empty() =~= call_diags(cfg, c));
    lemma_call_refuses(cfg, c, at);
}

proof fn lemma_stmts_clean(cfg: CfgView, stmts: Seq<StmtView>, n: nat)
    requires
        n <= stmts.len(),
        forall|k: int|
            0 <= k < n ==> (#[trigger] stmts[k] matches StmtView::Call(c) ==> exclusive(cfg, c)),
    ensures
        stmts_diags(cfg, stmts, n).len() == 0,
    decreases n,
{
    if n > 0 {
        lemma_stmts_clean(cfg, stmts, (n - 1) as nat);
        if let StmtView::Call(c) = stmts[n - 1] {
            law_call_accepted_iff_exclusive(cfg, c);
        }
    }
}

proof fn lemma_blocks_clean(cfg: CfgView, n: nat)
    requires
        n <= cfg.blocks.len(),
        forall|c: CallView| #[trigger] has_call(cfg, c) ==> exclusive(cfg, c),
    ensures
        blocks_diags(cfg, n).len() == 0,
    decreases n,
{
    if n > 0 {
        lemma_blocks_clean(cfg, (n - 1) as nat);
        let stmts = cfg.blocks[n - 1].stmts;
        assert forall|k: int| 0 <= k < stmts.len() implies (#[trigger] stmts[k] matches StmtView::Call(
            c,
        ) ==> exclusive(cfg, c)) by {
            if let StmtView::Call(c) = stmts[k] {
                assert(cfg.blocks[n - 1].stmts[k] == StmtView::Call(c));
                assert(has_call(cfg, c));
            }
        }
        lemma_stmts_clean(cfg, stmts, stmts.len());
    }
}

/// A graph whose calls mutate what nothing else in them reaches, and move
/// nothing that they lend, is accepted.
pub proof fn law_exclusive_calls_are_accepted(cfg: CfgView)
    requires
        forall|c: CallView, i: int, j: int|
            #![trigger has_call(cfg, c), c.mut_args[i], c.mut_args[j]]
            has_call(cfg, c) && 0 <= i < j < c.mut_args.len() ==> !cfg.places.overlaps(
                c.mut_args[i].0,
                c.mut_args[j].0,
            ),
        forall|c: CallView, i: int, j: int|
            #![trigger has_call(cfg, c), c.mut_args[i], c.read_args[j]]
            has_call(cfg, c) && 0 <= i < c.mut_args.len() && 0 <= j < c.read_args.len()
                ==> !cfg.places.overlaps(c.mut_args[i].0, c.read_args[j].0),
        forall|c: CallView, i: int, j: int|
            #![trigger has_call(cfg, c), c.mut_args[i], c.take_args[j]]
            has_call(cfg, c) && 0 <= i < c.mut_args.len() && 0 <= j < c.take_args.len()
                ==> !cfg.places.overlaps(c.mut_args[i].0, c.take_args[j].0),
        forall|c: CallView, i: int, j: int|
            #![trigger has_call(cfg, c), c.read_args[i], c.take_args[j]]
            has_call(cfg, c) && 0 <= i < c.read_args.len() && 0 <= j < c.take_args.len()
                ==> !cfg.places.overlaps(c.read_args[i].0, c.take_args[j].0),
    ensures
        excl_diags(cfg).len() == 0,
{
    assert forall|c: CallView| #[trigger] has_call(cfg, c) implies exclusive(cfg, c) by {}
    lemma_blocks_clean(cfg, cfg.blocks.len());
}

/// Push the conflicts of `a` with `others[from..]`.
fn check_row(
    cfg: &Cfg,
    kind: Pair,
    a: (PlaceId, Span),
    others: &Vec<(PlaceId, Span)>,
    from: usize,
    diags: &mut Vec<Diagnostic>,
)
    requires
        cfg@.wf(),
        cfg@.places.has(a.0),
        args_ok(cfg@.places, others@),
        from <= others.len(),
    ensures
        diag_views(final(diags)@) == diag_views(old(diags)@) + row(
            cfg@,
            kind,
            a,
            others@,
            from as int,
            others.len() as int,
        ),
{
    let ghost before = diag_views(diags@);
    let mut j: usize = from;
    assert(before =~= before + row(cfg@, kind, a, others@, from as int, from as int));
    while j < others.len()
        invariant
            from <= j <= others.len(),
            cfg@.wf(),
            cfg@.places.has(a.0),
            args_ok(cfg@.places, others@),
            diag_views(diags@) == before + row(cfg@, kind, a, others@, from as int, j as int),
        decreases others.len() - j,
    {
        let b = others[j];
        if cfg.places.overlap(a.0, b.0) {
            let sa = cfg.show_place(a.0);
            let sb = cfg.show_place(b.0);
            let d = match kind {
                Pair::MutMut => Diagnostic::error(
                    Code::E1002,
                    b.1,
                    lit("`").concat(sb.as_str()).concat(
                        "` cannot go `mut` here: it overlaps `",
                    ).concat(sa.as_str()).concat("`, already passed `mut` in this call"),
                ).with_label(lit("second exclusive claim on the same place")).with_secondary(
                    a.1,
                    lit("`").concat(sa.as_str()).concat("` is passed `mut` here"),
                ).with_note(overlap_note(cfg, a.0, b.0)),
                Pair::MutRead => Diagnostic::error(
                    Code::E1002,
                    b.1,
                    lit("`").concat(sb.as_str()).concat("` is lent for this call while `").concat(
                        sa.as_str(),
                    ).concat("` goes `mut` in it"),
                ).with_label(lit("read of a place being mutated")).with_secondary(
                    a.1,
                    lit("`").concat(sa.as_str()).concat("` is passed `mut` here"),
                ).with_note(overlap_note(cfg, a.0, b.0)),
                Pair::MutTake => Diagnostic::error(
                    Code::E1002,
                    b.1,
                    lit("`").concat(sb.as_str()).concat(
                        "` moves away in this call while `",
                    ).concat(sa.as_str()).concat("` goes `mut` in it"),
                ).with_label(lit("moved while being mutated")).with_secondary(
                    a.1,
                    lit("`").concat(sa.as_str()).concat("` is passed `mut` here"),
                ),
                Pair::ReadTake => Diagnostic::error(
                    Code::E1002,
                    b.1,
                    lit("`").concat(sb.as_str()).concat(
                        "` moves away in this call while `",
                    ).concat(sa.as_str()).concat("` is lent to it"),
                ).with_label(lit("moved while lent")).with_secondary(
                    a.1,
                    lit("`").concat(sa.as_str()).concat("` is read by this call"),
                ),
            };
            assert(d@ == pair_diag(cfg@, kind, a, b));
            proof {
                lemma_diag_views_push(diags@, d);
            }
            diags.push(d);
        }
        j = j + 1;
        assert(diag_views(diags@) =~= before + row(cfg@, kind, a, others@, from as int, j as int));
    }
}

fn check_call(cfg: &Cfg, c: &CallSurface, diags: &mut Vec<Diagnostic>)
    requires
        cfg@.wf(),
        args_ok(cfg@.places, c.mut_args@),
        args_ok(cfg@.places, c.read_args@),
        args_ok(cfg@.places, c.take_args@),
    ensures
        diag_views(final(diags)@) == diag_views(old(diags)@) + call_diags(cfg@, c@),
{
    let ghost before = diag_views(diags@);
    let mut i: usize = 0;
    assert(before =~= before + mut_rows(cfg@, c@, 0));
    while i < c.mut_args.len()
        invariant
            i <= c.mut_args.len(),
            cfg@.wf(),
            args_ok(cfg@.places, c.mut_args@),
            args_ok(cfg@.places, c.read_args@),
            args_ok(cfg@.places, c.take_args@),
            diag_views(diags@) == before + mut_rows(cfg@, c@, i as nat),
        decreases c.mut_args.len() - i,
    {
        let m = c.mut_args[i];
        check_row(cfg, Pair::MutMut, m, &c.mut_args, i + 1, diags);
        check_row(cfg, Pair::MutRead, m, &c.read_args, 0, diags);
        check_row(cfg, Pair::MutTake, m, &c.take_args, 0, diags);
        i = i + 1;
        assert(diag_views(diags@) =~= before + mut_rows(cfg@, c@, i as nat));
    }
    let ghost middle = diag_views(diags@);
    let mut j: usize = 0;
    assert(middle =~= middle + read_rows(cfg@, c@, 0));
    while j < c.read_args.len()
        invariant
            j <= c.read_args.len(),
            cfg@.wf(),
            args_ok(cfg@.places, c.read_args@),
            args_ok(cfg@.places, c.take_args@),
            diag_views(diags@) == middle + read_rows(cfg@, c@, j as nat),
        decreases c.read_args.len() - j,
    {
        check_row(cfg, Pair::ReadTake, c.read_args[j], &c.take_args, 0, diags);
        j = j + 1;
        assert(diag_views(diags@) =~= middle + read_rows(cfg@, c@, j as nat));
    }
    assert(diag_views(diags@) =~= before + call_diags(cfg@, c@));
}

/// Report every exclusivity conflict of the graph.
pub fn check(cfg: &Cfg, diags: &mut Vec<Diagnostic>)
    requires
        cfg@.wf(),
    ensures
        diag_views(final(diags)@) == diag_views(old(diags)@) + excl_diags(cfg@),
{
    let ghost before = diag_views(diags@);
    let mut i: usize = 0;
    assert(before =~= before + blocks_diags(cfg@, 0));
    while i < cfg.blocks.len()
        invariant
            i <= cfg.blocks.len(),
            cfg@.wf(),
            diag_views(diags@) == before + blocks_diags(cfg@, i as nat),
        decreases cfg.blocks.len() - i,
    {
        let b = &cfg.blocks[i];
        let ghost sv = cfg@.blocks[i as int].stmts;
        assert(cfg@.block_ok(cfg@.blocks[i as int]));
        let ghost middle = diag_views(diags@);
        let mut j: usize = 0;
        assert(middle =~= middle + stmts_diags(cfg@, sv, 0));
        while j < b.stmts.len()
            invariant
                j <= b.stmts.len(),
                cfg@.wf(),
                sv == b@.stmts,
                forall|k: int|
                    0 <= k < sv.len() ==> stmt_ok(
                        #[trigger] sv[k],
                        cfg@.places,
                        cfg@.loans.len(),
                    ),
                diag_views(diags@) == middle + stmts_diags(cfg@, sv, j as nat),
            decreases b.stmts.len() - j,
        {
            assert(sv[j as int] == b.stmts@[j as int]@);
            let ghost prior = diag_views(diags@);
            match &b.stmts[j] {
                Stmt::Call(c) => {
                    check_call(cfg, c, diags);
                },
                _ => {
                    assert(prior =~= prior + stmt_diags(cfg@, sv[j as int]));
                },
            }
            j = j + 1;
            assert(diag_views(diags@) =~= middle + stmts_diags(cfg@, sv, j as nat));
        }
        i = i + 1;
        assert(diag_views(diags@) =~= before + blocks_diags(cfg@, i as nat));
    }
}

} // verus!
