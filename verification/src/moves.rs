//! Maybe-uninitialized dataflow: use-after-move and use-of-uninit,
//! field-granular, with move-site provenance (`[mem.tier0.move]`,
//! E1001).
//!
//! Forward may-analysis over the check CFG. The state is the set of
//! *maybe moved-out* places, each with what emptied it. Joins union (a
//! place moved on any path in is maybe-moved), and reporting is one
//! deterministic sweep after the fixpoint.
//!
//! Partial moves are the point: `let x = s.a` poisons `s.a` (and every
//! path under it, and any whole-`s` use) while `s.b` stays live.
//! Re-initializing a place revives it (`[mem.tier0.move.4]`);
//! re-initializing *part* of a wholly-moved value expands the old move
//! into per-field residue over the interned places.

use vstd::prelude::*;
use vstd::string::*;

use crate::cfg::{args_ok, stmt_ok, BlockId, Cfg, CfgView, Stmt, StmtView};
use crate::diag::{
    diag_views, lemma_diag_views_push, Applicability, Code, DiagView, Diagnostic, Span, Suggestion,
    SuggestionView,
};
use crate::measure::{lemma_total_le, lemma_total_lt, total};
use crate::place::PlaceId;
use crate::text::lit;

verus! {

/// Why a place is empty: moved at the span, or declared without a value
/// there.
#[derive(Debug, Clone, Copy, PartialEq, Eq, Structural)]
pub struct Emptied {
    pub span: Span,
    pub uninit_decl: bool,
}

/// Per interned place: why it may be empty, if it may.
pub type State = Seq<Option<Emptied>>;

/// `a` begins before `b` (or at the same point and ends before it).
pub open spec fn earlier(a: Emptied, b: Emptied) -> bool {
    a.span.lo < b.span.lo || (a.span.lo == b.span.lo && a.span.hi < b.span.hi)
}

/// One place at a merge: the earliest cause wins.
pub open spec fn join_one(into: Option<Emptied>, from: Option<Emptied>) -> Option<Emptied> {
    match (into, from) {
        (None, _) => from,
        (_, None) => into,
        (Some(e), Some(w)) => if earlier(w, e) {
            from
        } else {
            into
        },
    }
}

pub open spec fn join_states(into: State, from: State) -> State {
    Seq::new(into.len(), |i: int| join_one(into[i], from[i]))
}

/// The place `m` is empty, holds `init`, and is more than `init`.
pub open spec fn contains_init(cfg: CfgView, s: State, m: int, init: PlaceId) -> bool {
    &&& s[m] is Some
    &&& cfg.places.is_prefix_of(PlaceId(m as u32), init)
    &&& !cfg.places.is_prefix_of(init, PlaceId(m as u32))
}

/// The first (by id, below `n`) emptied container of `init` that also
/// holds `q`.
pub open spec fn container_cause(
    cfg: CfgView,
    s: State,
    init: PlaceId,
    q: PlaceId,
    n: nat,
) -> Option<Emptied>
    decreases n,
{
    if n == 0 {
        None
    } else {
        match container_cause(cfg, s, init, q, (n - 1) as nat) {
            Some(e) => Some(e),
            None => if contains_init(cfg, s, n - 1, init) && cfg.places.is_prefix_of(
                PlaceId((n - 1) as u32),
                q,
            ) {
                s[n - 1]
            } else {
                None
            },
        }
    }
}

/// One place after an initialization: what it overlaps is revived;
/// outside it, an emptied container leaves its untouched residue empty.
pub open spec fn init_one(cfg: CfgView, s: State, init: PlaceId, q: int) -> Option<Emptied> {
    if cfg.places.overlaps(init, PlaceId(q as u32)) {
        None
    } else {
        match s[q] {
            Some(e) => Some(e),
            None => container_cause(cfg, s, init, PlaceId(q as u32), s.len()),
        }
    }
}

/// The state with one place emptied.
pub open spec fn emptied_at(s: State, place: PlaceId, why: Emptied) -> State {
    Seq::new(
        s.len(),
        |q: int|
            if q == place.0 as int {
                Some(why)
            } else {
                s[q]
            },
    )
}

/// The state after one statement.
pub open spec fn transfer_state(cfg: CfgView, st: StmtView, s: State) -> State {
    match st {
        StmtView::Move { place, span } => emptied_at(
            s,
            place,
            Emptied { span, uninit_decl: false },
        ),
        StmtView::Uninit { place, span } => emptied_at(
            s,
            place,
            Emptied { span, uninit_decl: true },
        ),
        StmtView::Init { place, .. } => Seq::new(s.len(), |q: int| init_one(cfg, s, place, q)),
        _ => s,
    }
}

/// The state after the first `n` statements.
pub open spec fn run_stmts(cfg: CfgView, stmts: Seq<StmtView>, n: nat, s: State) -> State
    decreases n,
{
    if n == 0 {
        s
    } else {
        transfer_state(cfg, stmts[n - 1], run_stmts(cfg, stmts, (n - 1) as nat, s))
    }
}

/// The state at a block's end.
pub open spec fn run_block(cfg: CfgView, b: int, s: State) -> State {
    run_stmts(cfg, cfg.blocks[b].stmts, cfg.blocks[b].stmts.len(), s)
}

/// Per block: the state on entry, once the block is known reachable.
pub type Entries = Seq<Option<State>>;

/// Flow a block's end state into one successor.
pub open spec fn flow_into(slot: Option<State>, s: State) -> Option<State> {
    match slot {
        None => Some(s),
        Some(x) => Some(join_states(x, s)),
    }
}

/// Flow `s` into the first `n` successors; changed blocks join the
/// worklist.
pub open spec fn flow_succs(
    succs: Seq<BlockId>,
    n: nat,
    s: State,
    e: Entries,
    work: Seq<BlockId>,
) -> (Entries, Seq<BlockId>)
    decreases n,
{
    if n == 0 {
        (e, work)
    } else {
        let (e1, w1) = flow_succs(succs, (n - 1) as nat, s, e, work);
        let t = succs[n - 1];
        let now = flow_into(e1[t.0 as int], s);
        (
            e1.update(t.0 as int, now),
            if now != e1[t.0 as int] && !w1.contains(t) {
                w1.push(t)
            } else {
                w1
            },
        )
    }
}

/// One worklist step: the last block runs.
pub open spec fn work_step(cfg: CfgView, e: Entries, work: Seq<BlockId>) -> (
    Entries,
    Seq<BlockId>,
) {
    let b = work.last();
    let out = run_block(cfg, b.0 as int, e[b.0 as int]->0);
    let succs = cfg.blocks[b.0 as int].succs;
    flow_succs(succs, succs.len(), out, e, work.drop_last())
}

/// How many place ids the table has given out.
pub open spec fn id_count(cfg: CfgView) -> nat {
    if cfg.places.places.len() <= 0x1_0000_0000 {
        cfg.places.places.len()
    } else {
        0x1_0000_0000
    }
}

pub open spec fn empty_state(cfg: CfgView) -> State {
    Seq::new(id_count(cfg), |i: int| None::<Emptied>)
}

pub open spec fn first_entries(cfg: CfgView) -> Entries {
    Seq::new(
        cfg.blocks.len(),
        |b: int|
            if b == cfg.entry.0 as int {
                Some(empty_state(cfg))
            } else {
                None
            },
    )
}

/// The worklist iteration after `n` steps.
pub open spec fn iterate(cfg: CfgView, n: nat) -> (Entries, Seq<BlockId>)
    decreases n,
{
    if n == 0 {
        (first_entries(cfg), seq![cfg.entry])
    } else {
        let (e, w) = iterate(cfg, (n - 1) as nat);
        if w.len() == 0 {
            (e, w)
        } else {
            work_step(cfg, e, w)
        }
    }
}

pub open spec fn settled(cfg: CfgView, n: nat) -> bool {
    iterate(cfg, n).1.len() == 0
}

/// The entry states at the fixpoint.
pub open spec fn solution(cfg: CfgView) -> Entries {
    iterate(cfg, choose|n: nat| settled(cfg, n)).0
}

/// Once settled, nothing changes: the fixpoint does not depend on how
/// long the iteration runs.
pub proof fn law_settled_unique(cfg: CfgView, m: nat, n: nat)
    requires
        settled(cfg, m),
        settled(cfg, n),
    ensures
        iterate(cfg, m) == iterate(cfg, n),
{
    if m <= n {
        lemma_settled_stays(cfg, m, n);
    } else {
        lemma_settled_stays(cfg, n, m);
    }
}

proof fn lemma_settled_stays(cfg: CfgView, m: nat, n: nat)
    requires
        settled(cfg, m),
        m <= n,
    ensures
        iterate(cfg, m) == iterate(cfg, n),
    decreases n,
{
    if m < n {
        lemma_settled_stays(cfg, m, (n - 1) as nat);
    }
}

// --------------------------------------------------------- reporting --

/// A use of a maybe-empty place.
#[derive(Debug, Clone, Copy, PartialEq, Eq, Structural)]
pub struct Hit {
    pub use_span: Span,
    pub place: PlaceId,
    pub why: Emptied,
    pub moved: PlaceId,
}

/// The places a statement uses while it runs, in order.
pub open spec fn uses(cfg: CfgView, st: StmtView) -> Seq<(PlaceId, Span)> {
    match st {
        StmtView::Read { place, span } | StmtView::Mutate { place, span } | StmtView::Move {
            place,
            span,
        } => seq![(place, span)],
        StmtView::Call(c) => c.mut_args + c.read_args,
        StmtView::Borrow { loan, span } => seq![(cfg.loans[loan.0 as int].place, span)],
        _ => Seq::empty(),
    }
}

/// The first (by id, below `n`) maybe-empty place that overlaps `place`.
pub open spec fn first_empty(cfg: CfgView, s: State, place: PlaceId, n: nat) -> Option<PlaceId>
    decreases n,
{
    if n == 0 {
        None
    } else {
        match first_empty(cfg, s, place, (n - 1) as nat) {
            Some(m) => Some(m),
            None => if s[n - 1] is Some && cfg.places.overlaps(PlaceId((n - 1) as u32), place) {
                Some(PlaceId((n - 1) as u32))
            } else {
                None
            },
        }
    }
}

/// At most one report per use.
pub open spec fn use_hits(cfg: CfgView, s: State, u: (PlaceId, Span)) -> Seq<Hit> {
    match first_empty(cfg, s, u.0, s.len()) {
        Some(m) => seq![Hit { use_span: u.1, place: u.0, why: s[m.0 as int]->0, moved: m }],
        None => Seq::empty(),
    }
}

pub open spec fn uses_hits(cfg: CfgView, s: State, us: Seq<(PlaceId, Span)>, n: nat) -> Seq<Hit>
    decreases n,
{
    if n == 0 {
        Seq::empty()
    } else {
        uses_hits(cfg, s, us, (n - 1) as nat) + use_hits(cfg, s, us[n - 1])
    }
}

/// The hits of a statement against the state before it.
pub open spec fn stmt_hits(cfg: CfgView, s: State, st: StmtView) -> Seq<Hit> {
    uses_hits(cfg, s, uses(cfg, st), uses(cfg, st).len())
}

pub open spec fn block_hits(cfg: CfgView, stmts: Seq<StmtView>, n: nat, s: State) -> Seq<Hit>
    decreases n,
{
    if n == 0 {
        Seq::empty()
    } else {
        block_hits(cfg, stmts, (n - 1) as nat, s) + stmt_hits(
            cfg,
            run_stmts(cfg, stmts, (n - 1) as nat, s),
            stmts[n - 1],
        )
    }
}

/// The hits of the first `n` blocks; unreachable blocks have none.
pub open spec fn sweep(cfg: CfgView, e: Entries, n: nat) -> Seq<Hit>
    decreases n,
{
    if n == 0 {
        Seq::empty()
    } else {
        sweep(cfg, e, (n - 1) as nat) + (match e[n - 1] {
            Some(s) => block_hits(cfg, cfg.blocks[n - 1].stmts, cfg.blocks[n - 1].stmts.len(), s),
            None => Seq::empty(),
        })
    }
}

/// The same use, of the same place, emptied at the same span.
pub open spec fn same_hit(a: Hit, b: Hit) -> bool {
    a.use_span == b.use_span && a.place == b.place && a.why.span == b.why.span
}

pub open spec fn seen(d: Seq<Hit>, h: Hit) -> bool {
    exists|i: int| 0 <= i < d.len() && same_hit(#[trigger] d[i], h)
}

/// The hits without repetitions, first occurrences in order.
pub open spec fn dedup(h: Seq<Hit>) -> Seq<Hit>
    decreases h.len(),
{
    if h.len() == 0 {
        Seq::empty()
    } else {
        let d = dedup(h.drop_last());
        if seen(d, h.last()) {
            d
        } else {
            d.push(h.last())
        }
    }
}

pub const NOTE_ASSIGN: &'static str = "assign to it first; a place becomes usable the moment it holds a value.";

pub const NOTE_DISJOINT: &'static str = "; moving one empties the other. Disjoint fields stay usable.";

pub const NOTE_REVIVE: &'static str = "re-initializing the place (assigning to it) also makes it usable again.";

/// The diagnostic of one hit.
pub open spec fn hit_diag(cfg: CfgView, h: Hit) -> DiagView {
    let shown = cfg.show(h.place);
    let shown_moved = cfg.show(h.moved);
    if h.why.uninit_decl {
        DiagView::error(
            Code::E1001,
            h.use_span,
            "`"@ + shown + "` is used here but has no value yet"@,
        ).with_label("used while uninitialized"@).with_secondary(
            h.why.span,
            "`"@ + shown_moved + "` is declared without a value here"@,
        ).with_note(NOTE_ASSIGN@)
    } else {
        let d = DiagView::error(
            Code::E1001,
            h.use_span,
            "`"@ + shown + "` is used here after its value moved away"@,
        ).with_label("used after the move"@).with_secondary(
            h.why.span,
            "`"@ + shown_moved + "` moved here"@,
        );
        let d1 = if h.place == h.moved {
            d
        } else if cfg.places.is_prefix_of(h.moved, h.place) {
            d.with_note("`"@ + shown + "` is part of `"@ + shown_moved + "`"@ + NOTE_DISJOINT@)
        } else {
            d.with_note("`"@ + shown_moved + "` is part of `"@ + shown + "`"@ + NOTE_DISJOINT@)
        };
        let d2 = if cfg.pattern_moves.contains(h.why.span) {
            d1
        } else {
            d1.with_suggestion(
                SuggestionView {
                    message: "to keep the original, copy it at the move"@,
                    edits: seq![
                        (
                            Span { file: h.why.span.file, lo: h.why.span.lo, hi: h.why.span.lo },
                            "copy "@,
                        ),
                    ],
                    applicability: Applicability::Maybe,
                },
            )
        };
        d2.with_note(NOTE_REVIVE@)
    }
}

pub open spec fn hit_diags(cfg: CfgView, h: Seq<Hit>) -> Seq<DiagView> {
    Seq::new(h.len(), |i: int| hit_diag(cfg, h[i]))
}

/// Every use-after-move and use-of-uninit of the graph, in block and
/// statement order.
pub open spec fn move_diags(cfg: CfgView) -> Seq<DiagView> {
    hit_diags(cfg, dedup(sweep(cfg, solution(cfg), cfg.blocks.len())))
}

// -------------------------------------------------------- executable --

/// The shape of a state over the graph's places.
pub open spec fn state_ok(cfg: CfgView, s: State) -> bool {
    s.len() == id_count(cfg)
}

fn copy_state(s: &Vec<Option<Emptied>>) -> (r: Vec<Option<Emptied>>)
    ensures
        r@ == s@,
{
    let mut out: Vec<Option<Emptied>> = Vec::new();
    let mut i: usize = 0;
    while i < s.len()
        invariant
            i <= s.len(),
            out@ == s@.take(i as int),
        decreases s.len() - i,
    {
        out.push(s[i]);
        i = i + 1;
        assert(out@ =~= s@.take(i as int));
    }
    assert(out@ =~= s@);
    out
}

/// Join `from` into `into`; answers whether anything changed.
fn join(into: &mut Vec<Option<Emptied>>, from: &Vec<Option<Emptied>>) -> (changed: bool)
    requires
        old(into).len() == from.len(),
    ensures
        final(into)@ == join_states(old(into)@, from@),
        changed == (final(into)@ != old(into)@),
{
    let ghost start = into@;
    let mut changed = false;
    let mut i: usize = 0;
    while i < from.len()
        invariant
            i <= from.len(),
            into.len() == from.len(),
            start.len() == from.len(),
            forall|k: int| 0 <= k < i ==> into@[k] == join_one(start[k], from@[k]),
            forall|k: int| i <= k < into.len() ==> into@[k] == start[k],
            changed == (exists|k: int| 0 <= k < i && #[trigger] into@[k] != start[k]),
        decreases from.len() - i,
    {
        let ghost prior = into@;
        let better = match (into[i], from[i]) {
            (_, None) => false,
            (None, Some(_)) => true,
            (Some(e), Some(w)) => w.span.lo < e.span.lo || (w.span.lo == e.span.lo && w.span.hi
                < e.span.hi),
        };
        if better {
            into.set(i, from[i]);
            changed = true;
            assert(into@[i as int] != start[i as int]);
        } else {
            assert(into@[i as int] == start[i as int]);
        }
        assert forall|k: int| 0 <= k < i implies into@[k] == prior[k] by {}
        i = i + 1;
    }
    proof {
        assert(into@ =~= join_states(start, from@));
        if !changed {
            assert(into@ =~= start);
        }
    }
    changed
}

/// The residue an initialization leaves at `q`.
fn cause_of(cfg: &Cfg, s: &Vec<Option<Emptied>>, init: PlaceId, q: PlaceId) -> (r: Option<Emptied>)
    requires
        cfg@.wf(),
        state_ok(cfg@, s@),
        cfg@.places.has(init),
        cfg@.places.has(q),
    ensures
        r == container_cause(cfg@, s@, init, q, s.len() as nat),
{
    let mut m: usize = 0;
    while m < s.len()
        invariant
            m <= s.len(),
            cfg@.wf(),
            state_ok(cfg@, s@),
            cfg@.places.has(init),
            cfg@.places.has(q),
            container_cause(cfg@, s@, init, q, m as nat) is None,
        decreases s.len() - m,
    {
        let id = PlaceId(m as u32);
        if s[m].is_some() && cfg.places.covers(id, init) && !cfg.places.covers(init, id)
            && cfg.places.covers(id, q) {
            proof {
                lemma_cause_stays(cfg@, s@, init, q, (m + 1) as nat, s.len() as nat);
            }
            return s[m];
        }
        m = m + 1;
    }
    None
}

proof fn lemma_cause_stays(cfg: CfgView, s: State, init: PlaceId, q: PlaceId, m: nat, n: nat)
    requires
        m <= n,
        container_cause(cfg, s, init, q, m) is Some,
    ensures
        container_cause(cfg, s, init, q, n) == container_cause(cfg, s, init, q, m),
    decreases n,
{
    if m < n {
        lemma_cause_stays(cfg, s, init, q, m, (n - 1) as nat);
    }
}

/// Apply one statement.
fn transfer(cfg: &Cfg, stmt: &Stmt, state: &mut Vec<Option<Emptied>>)
    requires
        cfg@.wf(),
        stmt_ok(stmt@, cfg@.places, cfg@.loans.len()),
        state_ok(cfg@, old(state)@),
    ensures
        final(state)@ == transfer_state(cfg@, stmt@, old(state)@),
        state_ok(cfg@, final(state)@),
{
    match stmt {
        Stmt::Move { place, span } => {
            state.set(place.0 as usize, Some(Emptied { span: *span, uninit_decl: false }));
            assert(state@ =~= transfer_state(cfg@, stmt@, old(state)@));
        },
        Stmt::Uninit { place, span } => {
            state.set(place.0 as usize, Some(Emptied { span: *span, uninit_decl: true }));
            assert(state@ =~= transfer_state(cfg@, stmt@, old(state)@));
        },
        Stmt::Init { place, span: _ } => {
            let init = *place;
            let ghost s = state@;
            let mut out: Vec<Option<Emptied>> = Vec::new();
            let mut q: usize = 0;
            while q < state.len()
                invariant
                    q <= state.len(),
                    s == state@,
                    cfg@.wf(),
                    state_ok(cfg@, s),
                    cfg@.places.has(init),
                    out.len() == q,
                    forall|k: int| 0 <= k < q ==> out@[k] == init_one(cfg@, s, init, k),
                decreases state.len() - q,
            {
                let id = PlaceId(q as u32);
                let next = if cfg.places.overlap(init, id) {
                    None
                } else if state[q].is_some() {
                    state[q]
                } else {
                    cause_of(cfg, state, init, id)
                };
                out.push(next);
                q = q + 1;
            }
            assert(out@ =~= transfer_state(cfg@, stmt@, s));
            *state = out;
        },
        _ => {},
    }
}

/// Run a block's statements.
fn transfer_block(cfg: &Cfg, b: BlockId, state: &mut Vec<Option<Emptied>>)
    requires
        cfg@.wf(),
        b.0 < cfg@.blocks.len(),
        state_ok(cfg@, old(state)@),
    ensures
        final(state)@ == run_block(cfg@, b.0 as int, old(state)@),
        state_ok(cfg@, final(state)@),
{
    let ghost s = state@;
    let block = cfg.block(b);
    let ghost stmts = cfg@.blocks[b.0 as int].stmts;
    assert(cfg@.block_ok(cfg@.blocks[b.0 as int]));
    let mut j: usize = 0;
    while j < block.stmts.len()
        invariant
            j <= block.stmts.len(),
            cfg@.wf(),
            stmts == block@.stmts,
            forall|k: int|
                0 <= k < stmts.len() ==> stmt_ok(
                    #[trigger] stmts[k],
                    cfg@.places,
                    cfg@.loans.len(),
                ),
            state_ok(cfg@, state@),
            state@ == run_stmts(cfg@, stmts, j as nat, s),
        decreases block.stmts.len() - j,
    {
        assert(stmts[j as int] == block.stmts@[j as int]@);
        transfer(cfg, &block.stmts[j], state);
        j = j + 1;
    }
}

pub open spec fn entries_view(v: Seq<Option<Vec<Option<Emptied>>>>) -> Entries {
    Seq::new(
        v.len(),
        |i: int|
            match v[i] {
                Some(s) => Some(s@),
                None => None,
            },
    )
}

/// Reachable blocks have states of the right shape.
pub open spec fn entries_ok(cfg: CfgView, e: Entries) -> bool {
    &&& e.len() == cfg.blocks.len()
    &&& forall|b: int| 0 <= b < e.len() ==> ((#[trigger] e[b]) matches Some(s) ==> state_ok(cfg, s))
}

/// Worklist blocks exist and are known reachable.
pub open spec fn work_ok(cfg: CfgView, e: Entries, work: Seq<BlockId>) -> bool {
    forall|i: int|
        0 <= i < work.len() ==> (#[trigger] work[i]).0 < cfg.blocks.len() && e[work[i].0 as int]
            is Some
}

/// How far a place is from its earliest possible cause.
pub open spec fn cause_rank(o: Option<Emptied>) -> nat {
    match o {
        None => 0x1_0000_0000_0000_0000,
        Some(w) => (w.span.lo as nat) * 0x1_0000_0000 + (w.span.hi as nat),
    }
}

pub open spec fn state_rank(s: State) -> nat {
    total(Seq::new(s.len(), |i: int| cause_rank(s[i])))
}

pub open spec fn slot_rank(o: Option<State>) -> nat {
    match o {
        None => 0,
        Some(s) => state_rank(s),
    }
}

pub open spec fn entries_rank(e: Entries) -> nat {
    total(Seq::new(e.len(), |b: int| slot_rank(e[b])))
}

pub open spec fn unvisited(e: Entries) -> nat {
    total(
        Seq::new(
            e.len(),
            |b: int|
                if e[b] is None {
                    1nat
                } else {
                    0nat
                },
        ),
    )
}

proof fn lemma_join_rank(x: State, s: State)
    requires
        x.len() == s.len(),
    ensures
        state_rank(join_states(x, s)) <= state_rank(x),
        join_states(x, s) != x ==> state_rank(join_states(x, s)) < state_rank(x),
{
    let j = join_states(x, s);
    let a = Seq::new(j.len(), |i: int| cause_rank(j[i]));
    let b = Seq::new(x.len(), |i: int| cause_rank(x[i]));
    assert forall|i: int| 0 <= i < a.len() implies #[trigger] a[i] <= b[i] && (j[i] != x[i] ==> a[i]
        < b[i]) by {
        assert(j[i] == join_one(x[i], s[i]));
    }
    lemma_total_le(a, b);
    if j != x {
        assert(!(j =~= x));
        let k = choose|k: int| 0 <= k < j.len() && j[k] != x[k];
        lemma_total_lt(a, b, k);
    }
}

/// A flow into one block makes progress exactly when it changes it.
proof fn lemma_flow_progress(cfg: CfgView, e: Entries, t: int, s: State)
    requires
        entries_ok(cfg, e),
        state_ok(cfg, s),
        0 <= t < e.len(),
    ensures
        ({
            let f = e.update(t, flow_into(e[t], s));
            &&& entries_ok(cfg, f)
            &&& unvisited(f) <= unvisited(e)
            &&& flow_into(e[t], s) != e[t] ==> unvisited(f) < unvisited(e) || (unvisited(f)
                == unvisited(e) && entries_rank(f) < entries_rank(e))
            &&& flow_into(e[t], s) == e[t] ==> f == e
        }),
{
    let f = e.update(t, flow_into(e[t], s));
    assert forall|b: int| 0 <= b < f.len() implies ((#[trigger] f[b]) matches Some(x) ==> state_ok(
        cfg,
        x,
    )) by {
        assert(e[b] matches Some(x) ==> state_ok(cfg, x));
    }
    let ua = Seq::new(
        f.len(),
        |b: int|
            if f[b] is None {
                1nat
            } else {
                0nat
            },
    );
    let ub = Seq::new(
        e.len(),
        |b: int|
            if e[b] is None {
                1nat
            } else {
                0nat
            },
    );
    assert(forall|i: int| 0 <= i < ua.len() ==> #[trigger] ua[i] <= ub[i]);
    lemma_total_le(ua, ub);
    if e[t] is None {
        lemma_total_lt(ua, ub, t);
    } else {
        assert(ua =~= ub);
        let x = e[t]->0;
        lemma_join_rank(x, s);
        let ra = Seq::new(f.len(), |b: int| slot_rank(f[b]));
        let rb = Seq::new(e.len(), |b: int| slot_rank(e[b]));
        assert forall|i: int| 0 <= i < ra.len() implies #[trigger] ra[i] <= rb[i] by {
            if i == t {
                assert(f[i] == Some(join_states(x, s)));
            }
        }
        if flow_into(e[t], s) != e[t] {
            lemma_total_lt(ra, rb, t);
        } else {
            assert(f =~= e);
        }
    }
}

fn work_contains(work: &Vec<BlockId>, b: BlockId) -> (r: bool)
    ensures
        r == work@.contains(b),
{
    let mut i: usize = 0;
    while i < work.len()
        invariant
            i <= work.len(),
            forall|k: int| 0 <= k < i ==> work@[k] != b,
        decreases work.len() - i,
    {
        if work[i] == b {
            return true;
        }
        i = i + 1;
    }
    false
}

/// The second measure is smaller than the first.
spec fn progressed(e: Entries, work: Seq<BlockId>, f: Entries, next: Seq<BlockId>) -> bool {
    ||| unvisited(f) < unvisited(e)
    ||| unvisited(f) == unvisited(e) && entries_rank(f) < entries_rank(e)
    ||| f == e && next == work
}

proof fn lemma_flow_succs(
    cfg: CfgView,
    succs: Seq<BlockId>,
    n: nat,
    s: State,
    e: Entries,
    work: Seq<BlockId>,
)
    requires
        entries_ok(cfg, e),
        work_ok(cfg, e, work),
        state_ok(cfg, s),
        n <= succs.len(),
        forall|k: int| 0 <= k < succs.len() ==> (#[trigger] succs[k]).0 < cfg.blocks.len(),
    ensures
        entries_ok(cfg, flow_succs(succs, n, s, e, work).0),
        work_ok(cfg, flow_succs(succs, n, s, e, work).0, flow_succs(succs, n, s, e, work).1),
        progressed(
            e,
            work,
            flow_succs(succs, n, s, e, work).0,
            flow_succs(succs, n, s, e, work).1,
        ),
    decreases n,
{
    if n > 0 {
        lemma_flow_succs(cfg, succs, (n - 1) as nat, s, e, work);
        let (e1, w1) = flow_succs(succs, (n - 1) as nat, s, e, work);
        let (e2, w2) = flow_succs(succs, n, s, e, work);
        let t = succs[n - 1];
        assert(t.0 < cfg.blocks.len());
        lemma_flow_progress(cfg, e1, t.0 as int, s);
        assert forall|k: int| 0 <= k < w2.len() implies (#[trigger] w2[k]).0 < cfg.blocks.len()
            && e2[w2[k].0 as int] is Some by {
            if k < w1.len() {
                assert(w1[k].0 < cfg.blocks.len() && e1[w1[k].0 as int] is Some);
            }
        }
    }
}

proof fn lemma_run_stmts_ok(cfg: CfgView, stmts: Seq<StmtView>, n: nat, s: State)
    requires
        state_ok(cfg, s),
    ensures
        state_ok(cfg, run_stmts(cfg, stmts, n, s)),
    decreases n,
{
    if n > 0 {
        lemma_run_stmts_ok(cfg, stmts, (n - 1) as nat, s);
    }
}

/// One worklist step keeps the shapes and makes progress.
proof fn lemma_work_step(cfg: CfgView, e: Entries, work: Seq<BlockId>)
    requires
        cfg.wf(),
        entries_ok(cfg, e),
        work_ok(cfg, e, work),
        work.len() > 0,
    ensures
        entries_ok(cfg, work_step(cfg, e, work).0),
        work_ok(cfg, work_step(cfg, e, work).0, work_step(cfg, e, work).1),
        progressed(e, work.drop_last(), work_step(cfg, e, work).0, work_step(cfg, e, work).1),
{
    let b = work.last();
    assert(work[work.len() - 1] == b);
    assert(e[b.0 as int] matches Some(x) ==> state_ok(cfg, x));
    lemma_run_stmts_ok(
        cfg,
        cfg.blocks[b.0 as int].stmts,
        cfg.blocks[b.0 as int].stmts.len(),
        e[b.0 as int]->0,
    );
    let out = run_block(cfg, b.0 as int, e[b.0 as int]->0);
    assert(cfg.block_ok(cfg.blocks[b.0 as int]));
    let rest = work.drop_last();
    assert forall|k: int| 0 <= k < rest.len() implies (#[trigger] rest[k]).0 < cfg.blocks.len()
        && e[rest[k].0 as int] is Some by {
        assert(work[k] == rest[k]);
    }
    let succs = cfg.blocks[b.0 as int].succs;
    lemma_flow_succs(cfg, succs, succs.len(), out, e, rest);
}

proof fn lemma_first_ok(cfg: CfgView)
    requires
        cfg.wf(),
    ensures
        entries_ok(cfg, first_entries(cfg)),
        work_ok(cfg, first_entries(cfg), seq![cfg.entry]),
{
}

proof fn lemma_iterate_ok(cfg: CfgView, n: nat)
    requires
        cfg.wf(),
    ensures
        entries_ok(cfg, iterate(cfg, n).0),
        work_ok(cfg, iterate(cfg, n).0, iterate(cfg, n).1),
    decreases n,
{
    if n == 0 {
        lemma_first_ok(cfg);
    } else {
        lemma_iterate_ok(cfg, (n - 1) as nat);
        let (e, w) = iterate(cfg, (n - 1) as nat);
        if w.len() > 0 {
            lemma_work_step(cfg, e, w);
        }
    }
}

proof fn lemma_settles_from(cfg: CfgView, n: nat)
    requires
        cfg.wf(),
    ensures
        exists|m: nat| settled(cfg, m),
    decreases
            unvisited(iterate(cfg, n).0),
            entries_rank(iterate(cfg, n).0),
            iterate(cfg, n).1.len(),
{
    lemma_iterate_ok(cfg, n);
    let (e, w) = iterate(cfg, n);
    if w.len() == 0 {
        assert(settled(cfg, n));
    } else {
        lemma_work_step(cfg, e, w);
        assert(iterate(cfg, n + 1) == work_step(cfg, e, w));
        lemma_settles_from(cfg, n + 1);
    }
}

/// The analysis of a well-formed graph settles.
pub proof fn law_settles(cfg: CfgView)
    requires
        cfg.wf(),
    ensures
        exists|n: nat| settled(cfg, n),
{
    lemma_settles_from(cfg, 0);
}

/// Flow a block's end state into all its successors.
fn flow_out(
    cfg: &Cfg,
    b: BlockId,
    state: &Vec<Option<Emptied>>,
    entry: &mut Vec<Option<Vec<Option<Emptied>>>>,
    work: &mut Vec<BlockId>,
)
    requires
        cfg@.wf(),
        b.0 < cfg@.blocks.len(),
        state_ok(cfg@, state@),
        entries_ok(cfg@, entries_view(old(entry)@)),
        work_ok(cfg@, entries_view(old(entry)@), old(work)@),
    ensures
        (entries_view(final(entry)@), final(work)@) == flow_succs(
            cfg@.blocks[b.0 as int].succs,
            cfg@.blocks[b.0 as int].succs.len(),
            state@,
            entries_view(old(entry)@),
            old(work)@,
        ),
{
    let block = cfg.block(b);
    let ghost succs = cfg@.blocks[b.0 as int].succs;
    assert(cfg@.block_ok(cfg@.blocks[b.0 as int]));
    let ghost e0 = entries_view(entry@);
    let ghost w0 = work@;
    let mut i: usize = 0;
    while i < block.succs.len()
        invariant
            i <= block.succs.len(),
            cfg@.wf(),
            state_ok(cfg@, state@),
            succs == block.succs@,
            forall|k: int| 0 <= k < succs.len() ==> (#[trigger] succs[k]).0 < cfg@.blocks.len(),
            entries_ok(cfg@, e0),
            work_ok(cfg@, e0, w0),
            (entries_view(entry@), work@) == flow_succs(succs, i as nat, state@, e0, w0),
        decreases block.succs.len() - i,
    {
        let succ = block.succs[i];
        let t: usize = succ.0 as usize;
        let ghost e1 = entries_view(entry@);
        assert(succs[i as int] == succ);
        proof {
            lemma_flow_succs(cfg@, succs, i as nat, state@, e0, w0);
        }
        let (next, changed) = match &entry[t] {
            None => (copy_state(state), true),
            Some(existing) => {
                assert(e1[t as int] == Some(existing@));
                let mut x = copy_state(existing);
                let c = join(&mut x, state);
                (x, c)
            },
        };
        assert(flow_into(e1[t as int], state@) == Some(next@));
        assert(changed == (flow_into(e1[t as int], state@) != e1[t as int]));
        entry.set(t, Some(next));
        assert(entries_view(entry@) =~= e1.update(t as int, flow_into(e1[t as int], state@)));
        if changed && !work_contains(work, succ) {
            work.push(succ);
        }
        i = i + 1;
    }
}

/// The fixpoint of the forward analysis.
fn solve(cfg: &Cfg) -> (r: Vec<Option<Vec<Option<Emptied>>>>)
    requires
        cfg@.wf(),
    ensures
        entries_view(r@) == solution(cfg@),
        entries_ok(cfg@, entries_view(r@)),
{
    let n: usize = cfg.blocks.len();
    let all: usize = cfg.places.len();
    let np: usize = if all as u64 <= 0x1_0000_0000 {
        all
    } else {
        0x1_0000_0000u64 as usize
    };
    let mut start: Vec<Option<Emptied>> = Vec::new();
    let mut k: usize = 0;
    while k < np
        invariant
            k <= np,
            start.len() == k,
            forall|i: int| 0 <= i < k ==> start@[i] is None,
        decreases np - k,
    {
        start.push(None);
        k = k + 1;
    }
    assert(start@ =~= empty_state(cfg@));
    let mut entry: Vec<Option<Vec<Option<Emptied>>>> = Vec::new();
    let mut b: usize = 0;
    while b < n
        invariant
            b <= n,
            n == cfg.blocks.len(),
            cfg@.wf(),
            start@ == empty_state(cfg@),
            entry.len() == b,
            forall|i: int|
                0 <= i < b ==> #[trigger] entries_view(entry@)[i] == first_entries(cfg@)[i],
        decreases n - b,
    {
        let ghost prior = entry@;
        if b == cfg.entry.0 as usize {
            entry.push(Some(copy_state(&start)));
        } else {
            entry.push(None);
        }
        assert forall|i: int| 0 <= i < b + 1 implies #[trigger] entries_view(entry@)[i]
            == first_entries(cfg@)[i] by {
            if i < b {
                assert(entries_view(prior)[i] == first_entries(cfg@)[i]);
            }
        }
        b = b + 1;
    }
    assert(entries_view(entry@) =~= first_entries(cfg@));
    let mut work: Vec<BlockId> = Vec::new();
    work.push(cfg.entry);
    assert(work@ =~= seq![cfg.entry]);
    let ghost mut steps: nat = 0;
    assert(entries_ok(cfg@, entries_view(entry@)));
    while work.len() > 0
        invariant
            cfg@.wf(),
            entries_ok(cfg@, entries_view(entry@)),
            work_ok(cfg@, entries_view(entry@), work@),
            iterate(cfg@, steps) == (entries_view(entry@), work@),
        decreases
                unvisited(entries_view(entry@)),
                entries_rank(entries_view(entry@)),
                work.len(),
    {
        let ghost e = entries_view(entry@);
        let ghost w = work@;
        let at: usize = work.len() - 1;
        let b = work[at];
        assert(w[at as int] == b);
        let mut state = match &entry[b.0 as usize] {
            Some(s) => {
                assert(e[b.0 as int] == Some(s@));
                copy_state(s)
            },
            None => {
                assert(e[b.0 as int] is None);
                Vec::new()
            },
        };
        transfer_block(cfg, b, &mut state);
        work.truncate(at);
        assert(work@ =~= w.drop_last());
        assert(work_ok(cfg@, e, work@)) by {
            assert forall|k: int| 0 <= k < work@.len() implies (#[trigger] work@[k]).0
                < cfg@.blocks.len() && e[work@[k].0 as int] is Some by {
                assert(w[k] == work@[k]);
            }
        }
        flow_out(cfg, b, &state, &mut entry, &mut work);
        proof {
            lemma_work_step(cfg@, e, w);
            steps = steps + 1;
        }
    }
    proof {
        assert(settled(cfg@, steps));
        let m = choose|n: nat| settled(cfg@, n);
        law_settled_unique(cfg@, m, steps);
    }
    entry
}

/// The first maybe-empty place that a use touches.
fn find_empty(cfg: &Cfg, s: &Vec<Option<Emptied>>, place: PlaceId) -> (r: Option<PlaceId>)
    requires
        cfg@.wf(),
        state_ok(cfg@, s@),
        cfg@.places.has(place),
    ensures
        r == first_empty(cfg@, s@, place, s.len() as nat),
        r matches Some(m) ==> cfg@.places.has(m) && s@[m.0 as int] is Some,
{
    let mut m: usize = 0;
    while m < s.len()
        invariant
            m <= s.len(),
            cfg@.wf(),
            state_ok(cfg@, s@),
            cfg@.places.has(place),
            first_empty(cfg@, s@, place, m as nat) is None,
        decreases s.len() - m,
    {
        let id = PlaceId(m as u32);
        if s[m].is_some() && cfg.places.overlap(id, place) {
            proof {
                lemma_first_stays(cfg@, s@, place, (m + 1) as nat, s.len() as nat);
            }
            return Some(id);
        }
        m = m + 1;
    }
    None
}

proof fn lemma_first_stays(cfg: CfgView, s: State, place: PlaceId, m: nat, n: nat)
    requires
        m <= n,
        first_empty(cfg, s, place, m) is Some,
    ensures
        first_empty(cfg, s, place, n) == first_empty(cfg, s, place, m),
    decreases n,
{
    if m < n {
        lemma_first_stays(cfg, s, place, m, (n - 1) as nat);
    }
}

/// Is the hit already recorded?
fn was_seen(d: &Vec<Hit>, h: Hit) -> (r: bool)
    ensures
        r == seen(d@, h),
{
    let mut i: usize = 0;
    while i < d.len()
        invariant
            i <= d.len(),
            forall|k: int| 0 <= k < i ==> !same_hit(#[trigger] d@[k], h),
        decreases d.len() - i,
    {
        let x = d[i];
        if x.use_span == h.use_span && x.place == h.place && x.why.span == h.why.span {
            assert(same_hit(d@[i as int], h));
            return true;
        }
        i = i + 1;
    }
    false
}

proof fn lemma_dedup_push(h: Seq<Hit>, x: Hit)
    ensures
        dedup(h.push(x)) == if seen(dedup(h), x) {
            dedup(h)
        } else {
            dedup(h).push(x)
        },
{
    assert(h.push(x).drop_last() =~= h);
}

/// Every recorded hit names interned places.
spec fn hits_ok(cfg: CfgView, h: Seq<Hit>) -> bool {
    forall|i: int|
        0 <= i < h.len() ==> cfg.places.has((#[trigger] h[i]).place) && cfg.places.has(h[i].moved)
}

/// Check one use against the state.
fn check_use(
    cfg: &Cfg,
    s: &Vec<Option<Emptied>>,
    place: PlaceId,
    span: Span,
    out: &mut Vec<Hit>,
    Ghost(all): Ghost<Seq<Hit>>,
)
    requires
        cfg@.wf(),
        state_ok(cfg@, s@),
        cfg@.places.has(place),
        old(out)@ == dedup(all),
        hits_ok(cfg@, old(out)@),
    ensures
        final(out)@ == dedup(all + use_hits(cfg@, s@, (place, span))),
        hits_ok(cfg@, final(out)@),
{
    match find_empty(cfg, s, place) {
        None => {
            assert(all + use_hits(cfg@, s@, (place, span)) =~= all);
        },
        Some(m) => {
            match s[m.0 as usize] {
                Some(why) => {
                    let h = Hit { use_span: span, place, why, moved: m };
                    proof {
                        assert(use_hits(cfg@, s@, (place, span)) =~= seq![h]);
                        assert(all + seq![h] =~= all.push(h));
                        lemma_dedup_push(all, h);
                    }
                    if !was_seen(out, h) {
                        out.push(h);
                    }
                },
                None => {},
            }
        },
    }
}

/// Check a list of uses against the state.
fn check_uses(
    cfg: &Cfg,
    s: &Vec<Option<Emptied>>,
    us: &Vec<(PlaceId, Span)>,
    out: &mut Vec<Hit>,
    Ghost(all): Ghost<Seq<Hit>>,
)
    requires
        cfg@.wf(),
        state_ok(cfg@, s@),
        args_ok(cfg@.places, us@),
        old(out)@ == dedup(all),
        hits_ok(cfg@, old(out)@),
    ensures
        final(out)@ == dedup(all + uses_hits(cfg@, s@, us@, us.len() as nat)),
        hits_ok(cfg@, final(out)@),
{
    let mut i: usize = 0;
    assert(all + uses_hits(cfg@, s@, us@, 0) =~= all);
    while i < us.len()
        invariant
            i <= us.len(),
            cfg@.wf(),
            state_ok(cfg@, s@),
            args_ok(cfg@.places, us@),
            out@ == dedup(all + uses_hits(cfg@, s@, us@, i as nat)),
            hits_ok(cfg@, out@),
        decreases us.len() - i,
    {
        let u = us[i];
        check_use(cfg, s, u.0, u.1, out, Ghost(all + uses_hits(cfg@, s@, us@, i as nat)));
        i = i + 1;
        assert(all + uses_hits(cfg@, s@, us@, (i - 1) as nat) + use_hits(cfg@, s@, u) =~= all
            + uses_hits(cfg@, s@, us@, i as nat));
    }
}

proof fn lemma_uses_prefix(
    cfg: CfgView,
    s: State,
    a: Seq<(PlaceId, Span)>,
    b: Seq<(PlaceId, Span)>,
    n: nat,
)
    requires
        n <= a.len(),
    ensures
        uses_hits(cfg, s, a + b, n) == uses_hits(cfg, s, a, n),
    decreases n,
{
    if n > 0 {
        lemma_uses_prefix(cfg, s, a, b, (n - 1) as nat);
        assert((a + b)[n - 1] == a[n - 1]);
    }
}

proof fn lemma_uses_concat(
    cfg: CfgView,
    s: State,
    a: Seq<(PlaceId, Span)>,
    b: Seq<(PlaceId, Span)>,
    n: nat,
)
    requires
        n <= b.len(),
    ensures
        uses_hits(cfg, s, a + b, a.len() + n) == uses_hits(cfg, s, a, a.len()) + uses_hits(
            cfg,
            s,
            b,
            n,
        ),
    decreases n,
{
    if n == 0 {
        lemma_uses_prefix(cfg, s, a, b, a.len());
        assert(uses_hits(cfg, s, a, a.len()) + uses_hits(cfg, s, b, 0) =~= uses_hits(
            cfg,
            s,
            a,
            a.len(),
        ));
    } else {
        lemma_uses_concat(cfg, s, a, b, (n - 1) as nat);
        assert((a + b)[a.len() + n - 1] == b[n - 1]);
        assert(uses_hits(cfg, s, a + b, a.len() + n) =~= uses_hits(cfg, s, a, a.len()) + uses_hits(
            cfg,
            s,
            b,
            n,
        ));
    }
}

/// Check the uses of one statement.
fn check_stmt(
    cfg: &Cfg,
    s: &Vec<Option<Emptied>>,
    stmt: &Stmt,
    out: &mut Vec<Hit>,
    Ghost(all): Ghost<Seq<Hit>>,
)
    requires
        cfg@.wf(),
        state_ok(cfg@, s@),
        stmt_ok(stmt@, cfg@.places, cfg@.loans.len()),
        old(out)@ == dedup(all),
        hits_ok(cfg@, old(out)@),
    ensures
        final(out)@ == dedup(all + stmt_hits(cfg@, s@, stmt@)),
        hits_ok(cfg@, final(out)@),
{
    proof {
        reveal_with_fuel(uses_hits, 2);
    }
    match stmt {
        Stmt::Read { place, span } | Stmt::Mutate { place, span } | Stmt::Move { place, span } => {
            check_use(cfg, s, *place, *span, out, Ghost(all));
            assert(stmt_hits(cfg@, s@, stmt@) =~= use_hits(cfg@, s@, (*place, *span)));
        },
        Stmt::Call(c) => {
            check_uses(cfg, s, &c.mut_args, out, Ghost(all));
            let ghost first = uses_hits(cfg@, s@, c.mut_args@, c.mut_args@.len());
            check_uses(cfg, s, &c.read_args, out, Ghost(all + first));
            proof {
                lemma_uses_concat(cfg@, s@, c.mut_args@, c.read_args@, c.read_args@.len());
                assert(all + first + uses_hits(cfg@, s@, c.read_args@, c.read_args@.len()) =~= all
                    + stmt_hits(cfg@, s@, stmt@));
            }
        },
        Stmt::Borrow { loan, span } => {
            let place = cfg.loans[loan.0 as usize].place;
            assert(cfg@.loans[loan.0 as int].place == place);
            check_use(cfg, s, place, *span, out, Ghost(all));
            assert(stmt_hits(cfg@, s@, stmt@) =~= use_hits(cfg@, s@, (place, *span)));
        },
        _ => {
            assert(all + stmt_hits(cfg@, s@, stmt@) =~= all);
        },
    }
}

/// The report sweep over the fixpoint.
fn collect_hits(cfg: &Cfg, entry: &Vec<Option<Vec<Option<Emptied>>>>) -> (out: Vec<Hit>)
    requires
        cfg@.wf(),
        entries_ok(cfg@, entries_view(entry@)),
    ensures
        out@ == dedup(sweep(cfg@, entries_view(entry@), cfg@.blocks.len())),
        hits_ok(cfg@, out@),
{
    let ghost e = entries_view(entry@);
    let mut out: Vec<Hit> = Vec::new();
    let mut i: usize = 0;
    assert(out@ =~= dedup(sweep(cfg@, e, 0)));
    while i < cfg.blocks.len()
        invariant
            i <= cfg.blocks.len(),
            cfg@.wf(),
            e == entries_view(entry@),
            entries_ok(cfg@, e),
            out@ == dedup(sweep(cfg@, e, i as nat)),
            hits_ok(cfg@, out@),
        decreases cfg.blocks.len() - i,
    {
        let ghost done = sweep(cfg@, e, i as nat);
        let block = &cfg.blocks[i];
        let ghost stmts = cfg@.blocks[i as int].stmts;
        assert(cfg@.block_ok(cfg@.blocks[i as int]));
        match &entry[i] {
            Some(s0) => {
                let ghost first = s0@;
                assert(e[i as int] == Some(first));
                let mut state = copy_state(s0);
                let mut j: usize = 0;
                assert(done + block_hits(cfg@, stmts, 0, first) =~= done);
                while j < block.stmts.len()
                    invariant
                        j <= block.stmts.len(),
                        cfg@.wf(),
                        stmts == block@.stmts,
                        forall|k: int|
                            0 <= k < stmts.len() ==> stmt_ok(
                                #[trigger] stmts[k],
                                cfg@.places,
                                cfg@.loans.len(),
                            ),
                        state_ok(cfg@, state@),
                        state@ == run_stmts(cfg@, stmts, j as nat, first),
                        out@ == dedup(done + block_hits(cfg@, stmts, j as nat, first)),
                        hits_ok(cfg@, out@),
                    decreases block.stmts.len() - j,
                {
                    assert(stmts[j as int] == block.stmts@[j as int]@);
                    let ghost all = done + block_hits(cfg@, stmts, j as nat, first);
                    check_stmt(cfg, &state, &block.stmts[j], &mut out, Ghost(all));
                    assert(all + stmt_hits(cfg@, state@, stmts[j as int]) =~= done + block_hits(
                        cfg@,
                        stmts,
                        (j + 1) as nat,
                        first,
                    ));
                    transfer(cfg, &block.stmts[j], &mut state);
                    j = j + 1;
                }
                assert(sweep(cfg@, e, (i + 1) as nat) =~= done + block_hits(
                    cfg@,
                    stmts,
                    j as nat,
                    first,
                ));
            },
            None => {
                assert(e[i as int] is None);
                assert(sweep(cfg@, e, (i + 1) as nat) =~= done);
            },
        }
        i = i + 1;
    }
    out
}

fn span_in(v: &Vec<Span>, s: Span) -> (r: bool)
    ensures
        r == v@.contains(s),
{
    let mut i: usize = 0;
    while i < v.len()
        invariant
            i <= v.len(),
            forall|k: int| 0 <= k < i ==> v@[k] != s,
        decreases v.len() - i,
    {
        if v[i] == s {
            return true;
        }
        i = i + 1;
    }
    false
}

/// Word one hit.
fn report(cfg: &Cfg, h: Hit) -> (r: Diagnostic)
    requires
        cfg@.wf(),
        cfg@.places.has(h.place),
        cfg@.places.has(h.moved),
    ensures
        r@ == hit_diag(cfg@, h),
{
    let shown = cfg.show_place(h.place);
    let shown_moved = cfg.show_place(h.moved);
    if h.why.uninit_decl {
        return Diagnostic::error(
            Code::E1001,
            h.use_span,
            lit("`").concat(shown.as_str()).concat("` is used here but has no value yet"),
        ).with_label(lit("used while uninitialized")).with_secondary(
            h.why.span,
            lit("`").concat(shown_moved.as_str()).concat("` is declared without a value here"),
        ).with_note(lit(NOTE_ASSIGN));
    }
    let mut d = Diagnostic::error(
        Code::E1001,
        h.use_span,
        lit("`").concat(shown.as_str()).concat("` is used here after its value moved away"),
    ).with_label(lit("used after the move")).with_secondary(
        h.why.span,
        lit("`").concat(shown_moved.as_str()).concat("` moved here"),
    );
    if h.place != h.moved {
        if cfg.places.covers(h.moved, h.place) {
            d = d.with_note(
                lit("`").concat(shown.as_str()).concat("` is part of `").concat(
                    shown_moved.as_str(),
                ).concat("`").concat(NOTE_DISJOINT),
            );
        } else {
            d = d.with_note(
                lit("`").concat(shown_moved.as_str()).concat("` is part of `").concat(
                    shown.as_str(),
                ).concat("`").concat(NOTE_DISJOINT),
            );
        }
    }
    if !span_in(&cfg.pattern_moves, h.why.span) {
        d = d.with_suggestion(
            Suggestion::one(
                lit("to keep the original, copy it at the move"),
                Span::new(h.why.span.file, h.why.span.lo, h.why.span.lo),
                lit("copy "),
                Applicability::Maybe,
            ),
        );
    }
    d.with_note(lit(NOTE_REVIVE))
}

/// Report every use of a maybe-moved or never-initialized place.
pub fn check(cfg: &Cfg, diags: &mut Vec<Diagnostic>)
    requires
        cfg@.wf(),
    ensures
        diag_views(final(diags)@) == diag_views(old(diags)@) + move_diags(cfg@),
{
    let entry = solve(cfg);
    let hits = collect_hits(cfg, &entry);
    let ghost before = diag_views(diags@);
    let ghost all = hit_diags(cfg@, hits@);
    let mut i: usize = 0;
    assert(before =~= before + all.take(0));
    while i < hits.len()
        invariant
            i <= hits.len(),
            cfg@.wf(),
            hits_ok(cfg@, hits@),
            all == hit_diags(cfg@, hits@),
            diag_views(diags@) == before + all.take(i as int),
        decreases hits.len() - i,
    {
        let d = report(cfg, hits[i]);
        proof {
            lemma_diag_views_push(diags@, d);
        }
        diags.push(d);
        i = i + 1;
        assert(diag_views(diags@) =~= before + all.take(i as int));
    }
    assert(all.take(i as int) =~= all);
}

// -------------------------------------------------------------- laws --

/// The path runs along edges of the graph, from the entry.
pub open spec fn is_path(cfg: CfgView, path: Seq<int>) -> bool {
    &&& path.len() > 0
    &&& path[0] == cfg.entry.0 as int
    &&& forall|i: int|
        0 <= i < path.len() - 1 ==> is_edge(cfg, #[trigger] path[i], path[i + 1])
}

pub open spec fn is_edge(cfg: CfgView, a: int, b: int) -> bool {
    &&& 0 <= a < cfg.blocks.len()
    &&& exists|j: int|
        0 <= j < cfg.blocks[a].succs.len() && (#[trigger] cfg.blocks[a].succs[j]).0 as int == b
}

/// The state on reaching the end of one path, nothing merged.
pub open spec fn path_state(cfg: CfgView, path: Seq<int>) -> State
    decreases path.len(),
{
    if path.len() <= 1 {
        empty_state(cfg)
    } else {
        run_block(cfg, path[path.len() - 2], path_state(cfg, path.drop_last()))
    }
}

pub open spec fn path_to(cfg: CfgView, path: Seq<int>, b: int) -> bool {
    is_path(cfg, path) && path.last() == b
}

/// Some path reaches the block with the place emptied.
pub open spec fn emptied_on_some_path(cfg: CfgView, b: int, p: int) -> bool {
    exists|path: Seq<int>| path_to(cfg, path, b) && (#[trigger] path_state(cfg, path))[p] is Some
}

/// Every place empty in `a` is empty in `b`.
spec fn within(a: State, b: State) -> bool {
    a.len() == b.len() && forall|i: int| 0 <= i < a.len() && #[trigger] a[i] is Some ==> b[i] is Some
}

proof fn lemma_cause_some(cfg: CfgView, s: State, init: PlaceId, q: PlaceId, n: nat)
    ensures
        container_cause(cfg, s, init, q, n) is Some <==> exists|m: int|
            0 <= m < n && #[trigger] contains_init(cfg, s, m, init) && cfg.places.is_prefix_of(
                PlaceId(m as u32),
                q,
            ),
    decreases n,
{
    if n > 0 {
        lemma_cause_some(cfg, s, init, q, (n - 1) as nat);
        if container_cause(cfg, s, init, q, n) is Some {
            if container_cause(cfg, s, init, q, (n - 1) as nat) is Some {
                let m = choose|m: int|
                    0 <= m < n - 1 && #[trigger] contains_init(cfg, s, m, init)
                        && cfg.places.is_prefix_of(PlaceId(m as u32), q);
                assert(contains_init(cfg, s, m, init));
            } else {
                assert(contains_init(cfg, s, n - 1, init));
            }
        }
    }
}

/// What is empty after a statement depends on one place being empty
/// before it, or on none.
spec fn depends(cfg: CfgView, st: StmtView, q: int, p: int) -> bool {
    forall|s: State|
        s.len() == id_count(cfg) && s[p] is Some ==> (#[trigger] transfer_state(cfg, st, s))[q] is Some
}

proof fn lemma_transfer_source(cfg: CfgView, st: StmtView, s: State, q: int)
    requires
        s.len() == id_count(cfg),
        0 <= q < s.len(),
        transfer_state(cfg, st, s)[q] is Some,
    ensures
        (forall|x: State|
            x.len() == id_count(cfg) ==> (#[trigger] transfer_state(cfg, st, x))[q] is Some) || (
        exists|p: int| 0 <= p < s.len() && s[p] is Some && #[trigger] depends(cfg, st, q, p)),
{
    match st {
        StmtView::Move { place, .. } | StmtView::Uninit { place, .. } => {
            if place.0 as int != q {
                assert(depends(cfg, st, q, q));
            }
        },
        StmtView::Init { place, .. } => {
            if s[q] is Some {
                assert(depends(cfg, st, q, q));
            } else {
                lemma_cause_some(cfg, s, place, PlaceId(q as u32), s.len());
                let m = choose|m: int|
                    0 <= m < s.len() && #[trigger] contains_init(cfg, s, m, place)
                        && cfg.places.is_prefix_of(PlaceId(m as u32), PlaceId(q as u32));
                assert forall|x: State| x.len() == id_count(cfg) && x[m] is Some implies (
                #[trigger] transfer_state(cfg, st, x))[q] is Some by {
                    assert(contains_init(cfg, x, m, place));
                    lemma_cause_some(cfg, x, place, PlaceId(q as u32), x.len());
                }
                assert(depends(cfg, st, q, m));
            }
        },
        _ => {
            assert(depends(cfg, st, q, q));
        },
    }
}

/// The same for a run of statements.
spec fn run_depends(cfg: CfgView, stmts: Seq<StmtView>, n: nat, q: int, p: int) -> bool {
    forall|s: State|
        s.len() == id_count(cfg) && s[p] is Some ==> (#[trigger] run_stmts(cfg, stmts, n, s))[q]
            is Some
}

spec fn run_always(cfg: CfgView, stmts: Seq<StmtView>, n: nat, q: int) -> bool {
    forall|s: State|
        s.len() == id_count(cfg) ==> (#[trigger] run_stmts(cfg, stmts, n, s))[q] is Some
}

proof fn lemma_run_source(cfg: CfgView, stmts: Seq<StmtView>, n: nat, s: State, q: int)
    requires
        s.len() == id_count(cfg),
        0 <= q < s.len(),
        run_stmts(cfg, stmts, n, s)[q] is Some,
    ensures
        run_always(cfg, stmts, n, q) || exists|p: int|
            0 <= p < s.len() && s[p] is Some && #[trigger] run_depends(cfg, stmts, n, q, p),
    decreases n,
{
    if n == 0 {
        assert(run_depends(cfg, stmts, 0, q, q));
    } else {
        let m = (n - 1) as nat;
        let mid = run_stmts(cfg, stmts, m, s);
        let st = stmts[n - 1];
        lemma_run_stmts_ok(cfg, stmts, m, s);
        lemma_transfer_source(cfg, st, mid, q);
        if forall|x: State|
            x.len() == id_count(cfg) ==> (#[trigger] transfer_state(cfg, st, x))[q] is Some {
            assert forall|x: State| x.len() == id_count(cfg) implies (#[trigger] run_stmts(
                cfg,
                stmts,
                n,
                x,
            ))[q] is Some by {
                lemma_run_stmts_ok(cfg, stmts, m, x);
            }
            assert(run_always(cfg, stmts, n, q));
        } else {
            let k = choose|k: int|
                0 <= k < mid.len() && mid[k] is Some && #[trigger] depends(cfg, st, q, k);
            lemma_run_source(cfg, stmts, m, s, k);
            if run_always(cfg, stmts, m, k) {
                assert forall|x: State| x.len() == id_count(cfg) implies (#[trigger] run_stmts(
                    cfg,
                    stmts,
                    n,
                    x,
                ))[q] is Some by {
                    lemma_run_stmts_ok(cfg, stmts, m, x);
                    assert(run_stmts(cfg, stmts, m, x)[k] is Some);
                }
                assert(run_always(cfg, stmts, n, q));
            } else {
                let p = choose|p: int|
                    0 <= p < s.len() && s[p] is Some && #[trigger] run_depends(
                        cfg,
                        stmts,
                        m,
                        k,
                        p,
                    );
                assert forall|x: State| x.len() == id_count(cfg) && x[p] is Some implies (
                #[trigger] run_stmts(cfg, stmts, n, x))[q] is Some by {
                    lemma_run_stmts_ok(cfg, stmts, m, x);
                    assert(run_stmts(cfg, stmts, m, x)[k] is Some);
                }
                assert(run_depends(cfg, stmts, n, q, p));
            }
        }
    }
}

proof fn lemma_run_mono(cfg: CfgView, stmts: Seq<StmtView>, n: nat, a: State, b: State)
    requires
        a.len() == id_count(cfg),
        within(a, b),
    ensures
        within(run_stmts(cfg, stmts, n, a), run_stmts(cfg, stmts, n, b)),
{
    lemma_run_stmts_ok(cfg, stmts, n, a);
    lemma_run_stmts_ok(cfg, stmts, n, b);
    let x = run_stmts(cfg, stmts, n, a);
    let y = run_stmts(cfg, stmts, n, b);
    assert forall|q: int| 0 <= q < x.len() && #[trigger] x[q] is Some implies y[q] is Some by {
        lemma_run_source(cfg, stmts, n, a, q);
        if !run_always(cfg, stmts, n, q) {
            let p = choose|p: int|
                0 <= p < a.len() && a[p] is Some && #[trigger] run_depends(cfg, stmts, n, q, p);
            assert(b[p] is Some);
            assert(run_depends(cfg, stmts, n, q, p));
        }
    }
}

/// Every recorded state is justified by paths.
spec fn justified(cfg: CfgView, e: Entries) -> bool {
    forall|b: int|
        0 <= b < e.len() && #[trigger] e[b] is Some ==> {
            &&& exists|path: Seq<int>| path_to(cfg, path, b)
            &&& forall|p: int|
                0 <= p < id_count(cfg) && #[trigger] (e[b]->0)[p] is Some ==> emptied_on_some_path(
                    cfg,
                    b,
                    p,
                )
        }
}

proof fn lemma_path_extend(cfg: CfgView, path: Seq<int>, b: int, t: int)
    requires
        path_to(cfg, path, b),
        is_edge(cfg, b, t),
    ensures
        path_to(cfg, path.push(t), t),
        path_state(cfg, path.push(t)) == run_block(cfg, b, path_state(cfg, path)),
{
    let long = path.push(t);
    assert forall|i: int| 0 <= i < long.len() - 1 implies is_edge(
        cfg,
        #[trigger] long[i],
        long[i + 1],
    ) by {
        if i < path.len() - 1 {
            assert(is_edge(cfg, path[i], path[i + 1]));
        }
    }
    assert(long.drop_last() =~= path);
}

proof fn lemma_path_state_ok(cfg: CfgView, path: Seq<int>)
    ensures
        state_ok(cfg, path_state(cfg, path)),
    decreases path.len(),
{
    if path.len() > 1 {
        lemma_path_state_ok(cfg, path.drop_last());
        let b = path[path.len() - 2];
        lemma_run_stmts_ok(
            cfg,
            cfg.blocks[b].stmts,
            cfg.blocks[b].stmts.len(),
            path_state(cfg, path.drop_last()),
        );
    }
}

/// The end state of a justified block is justified at each successor.
proof fn lemma_out_justified(cfg: CfgView, e: Entries, b: int, t: int)
    requires
        entries_ok(cfg, e),
        justified(cfg, e),
        0 <= b < e.len(),
        e[b] is Some,
        is_edge(cfg, b, t),
    ensures
        exists|path: Seq<int>| path_to(cfg, path, t),
        forall|q: int|
            0 <= q < id_count(cfg) && #[trigger] run_block(cfg, b, e[b]->0)[q] is Some
                ==> emptied_on_some_path(cfg, t, q),
{
    let s = e[b]->0;
    let stmts = cfg.blocks[b].stmts;
    let n = stmts.len();
    let any = choose|path: Seq<int>| path_to(cfg, path, b);
    lemma_path_extend(cfg, any, b, t);
    assert forall|q: int| 0 <= q < id_count(cfg) && #[trigger] run_block(cfg, b, s)[q]
        is Some implies emptied_on_some_path(cfg, t, q) by {
        lemma_run_source(cfg, stmts, n, s, q);
        if run_always(cfg, stmts, n, q) {
            lemma_path_state_ok(cfg, any);
            assert(run_stmts(cfg, stmts, n, path_state(cfg, any))[q] is Some);
            assert(path_state(cfg, any.push(t))[q] is Some);
        } else {
            let p = choose|p: int|
                0 <= p < s.len() && s[p] is Some && #[trigger] run_depends(cfg, stmts, n, q, p);
            assert(emptied_on_some_path(cfg, b, p));
            let path = choose|path: Seq<int>|
                path_to(cfg, path, b) && (#[trigger] path_state(cfg, path))[p] is Some;
            lemma_path_extend(cfg, path, b, t);
            lemma_path_state_ok(cfg, path);
            assert(run_depends(cfg, stmts, n, q, p));
            assert(run_stmts(cfg, stmts, n, path_state(cfg, path))[q] is Some);
            assert(path_state(cfg, path.push(t))[q] is Some);
        }
    }
}

proof fn lemma_flow_justified(
    cfg: CfgView,
    b: int,
    n: nat,
    s: State,
    e: Entries,
    work: Seq<BlockId>,
)
    requires
        cfg.wf(),
        0 <= b < cfg.blocks.len(),
        entries_ok(cfg, e),
        work_ok(cfg, e, work),
        justified(cfg, e),
        state_ok(cfg, s),
        n <= cfg.blocks[b].succs.len(),
        e[b] is Some,
        s == run_block(cfg, b, e[b]->0),
    ensures
        justified(cfg, flow_succs(cfg.blocks[b].succs, n, s, e, work).0),
    decreases n,
{
    if n > 0 {
        let succs = cfg.blocks[b].succs;
        assert(cfg.block_ok(cfg.blocks[b]));
        lemma_flow_justified(cfg, b, (n - 1) as nat, s, e, work);
        lemma_flow_succs(cfg, succs, (n - 1) as nat, s, e, work);
        let (e1, w1) = flow_succs(succs, (n - 1) as nat, s, e, work);
        let e2 = flow_succs(succs, n, s, e, work).0;
        let t = succs[n - 1].0 as int;
        assert(is_edge(cfg, b, t)) by {
            assert(cfg.blocks[b].succs[n - 1].0 as int == t);
        }
        lemma_out_justified(cfg, e, b, t);
        assert forall|c: int| 0 <= c < e2.len() && #[trigger] e2[c] is Some implies {
            &&& exists|path: Seq<int>| path_to(cfg, path, c)
            &&& forall|p: int|
                0 <= p < id_count(cfg) && #[trigger] (e2[c]->0)[p] is Some ==> emptied_on_some_path(
                    cfg,
                    c,
                    p,
                )
        } by {
            if c != t {
                assert(e2[c] == e1[c]);
                assert(e1[c] is Some);
            } else {
                assert(e1[t] is Some || e1[t] is None);
                assert forall|p: int| 0 <= p < id_count(cfg) && #[trigger] (e2[c]->0)[p]
                    is Some implies emptied_on_some_path(cfg, c, p) by {
                    if e1[t] is Some && (e1[t]->0)[p] is Some {
                        assert(emptied_on_some_path(cfg, t, p));
                    } else {
                        assert(s[p] is Some);
                        assert(run_block(cfg, b, e[b]->0)[p] is Some);
                    }
                }
            }
        }
    }
}

/// Blocks off the worklist have flowed into all their successors.
spec fn absorbed(cfg: CfgView, e: Entries, work: Seq<BlockId>) -> bool {
    forall|b: int, j: int|
        0 <= b < e.len() && e[b] is Some && !work.contains(BlockId(b as u32)) && b <= u32::MAX && 0
            <= j < cfg.blocks[b].succs.len() ==> took(
            cfg,
            e,
            b,
            (#[trigger] cfg.blocks[b].succs[j]).0 as int,
        )
}

spec fn took(cfg: CfgView, e: Entries, b: int, t: int) -> bool {
    e[t] is Some && within(run_block(cfg, b, e[b]->0), e[t]->0)
}

/// Entry states only grow, and a changed block is on the worklist.
spec fn grew(cfg: CfgView, e: Entries, work: Seq<BlockId>, f: Entries, next: Seq<BlockId>) -> bool {
    &&& f.len() == e.len()
    &&& forall|b: int|
        0 <= b < e.len() ==> ((#[trigger] e[b]) is Some ==> f[b] is Some && within(
            e[b]->0,
            f[b]->0,
        ))
    &&& forall|b: int|
        0 <= b < e.len() && #[trigger] f[b] != e[b] ==> b <= u32::MAX && next.contains(
            BlockId(b as u32),
        )
    &&& forall|x: BlockId| #[trigger] work.contains(x) ==> next.contains(x)
}

proof fn lemma_flow_grew(
    cfg: CfgView,
    succs: Seq<BlockId>,
    n: nat,
    s: State,
    e: Entries,
    work: Seq<BlockId>,
)
    requires
        entries_ok(cfg, e),
        work_ok(cfg, e, work),
        state_ok(cfg, s),
        n <= succs.len(),
        forall|k: int| 0 <= k < succs.len() ==> (#[trigger] succs[k]).0 < cfg.blocks.len(),
    ensures
        ({
            let (f, next) = flow_succs(succs, n, s, e, work);
            &&& grew(cfg, e, work, f, next)
            &&& forall|j: int|
                0 <= j < n ==> f[(#[trigger] succs[j]).0 as int] is Some && within(
                    s,
                    f[succs[j].0 as int]->0,
                )
        }),
    decreases n,
{
    if n > 0 {
        let m = (n - 1) as nat;
        lemma_flow_grew(cfg, succs, m, s, e, work);
        lemma_flow_succs(cfg, succs, m, s, e, work);
        let (e1, w1) = flow_succs(succs, m, s, e, work);
        let (f, next) = flow_succs(succs, n, s, e, work);
        let t = succs[n - 1];
        let ti = t.0 as int;
        assert(t.0 < cfg.blocks.len());
        let now = flow_into(e1[ti], s);
        assert(e1[ti] matches Some(x) ==> state_ok(cfg, x));
        assert(f[ti] == now);
        assert forall|x: BlockId| #[trigger] w1.contains(x) implies next.contains(x) by {
            let k = choose|k: int| 0 <= k < w1.len() && w1[k] == x;
            assert(next[k] == x);
        }
        if now != e1[ti] {
            if !w1.contains(t) {
                assert(next[w1.len() as int] == t);
            }
            assert(next.contains(t));
        }
        assert(BlockId(ti as u32) == t);
        assert forall|b: int| 0 <= b < e.len() && (#[trigger] e[b]) is Some implies f[b] is Some
            && within(e[b]->0, f[b]->0) by {
            assert(e1[b] is Some && within(e[b]->0, e1[b]->0));
            if b == ti {
                assert forall|i: int| 0 <= i < (e[b]->0).len() && #[trigger] (e[b]->0)[i]
                    is Some implies (f[b]->0)[i] is Some by {
                    assert((e1[b]->0)[i] is Some);
                }
            }
        }
        assert forall|b: int| 0 <= b < e.len() && #[trigger] f[b] != e[b] implies b <= u32::MAX
            && next.contains(BlockId(b as u32)) by {
            if b == ti {
                if now == e1[ti] {
                    assert(e1[b] != e[b]);
                    assert(w1.contains(BlockId(b as u32)));
                }
            } else {
                assert(e1[b] != e[b]);
                assert(w1.contains(BlockId(b as u32)));
            }
        }
        assert forall|j: int| 0 <= j < n implies f[(#[trigger] succs[j]).0 as int] is Some && within(
            s,
            f[succs[j].0 as int]->0,
        ) by {
            let k = succs[j].0 as int;
            if j < n - 1 {
                assert(e1[k] is Some && within(s, e1[k]->0));
            }
            if k == ti {
                assert forall|i: int| 0 <= i < s.len() && #[trigger] s[i] is Some implies (f[k]->0)[i]
                    is Some by {}
            }
        }
    }
}

proof fn lemma_step_invariants(cfg: CfgView, e: Entries, work: Seq<BlockId>)
    requires
        cfg.wf(),
        entries_ok(cfg, e),
        work_ok(cfg, e, work),
        work.len() > 0,
        justified(cfg, e),
        absorbed(cfg, e, work),
    ensures
        justified(cfg, work_step(cfg, e, work).0),
        absorbed(cfg, work_step(cfg, e, work).0, work_step(cfg, e, work).1),
{
    let b = work.last();
    let bi = b.0 as int;
    assert(work[work.len() - 1] == b);
    assert(e[bi] matches Some(x) ==> state_ok(cfg, x));
    let stmts = cfg.blocks[bi].stmts;
    lemma_run_stmts_ok(cfg, stmts, stmts.len(), e[bi]->0);
    let out = run_block(cfg, bi, e[bi]->0);
    assert(cfg.block_ok(cfg.blocks[bi]));
    let rest = work.drop_last();
    assert forall|k: int| 0 <= k < rest.len() implies (#[trigger] rest[k]).0 < cfg.blocks.len()
        && e[rest[k].0 as int] is Some by {
        assert(work[k] == rest[k]);
    }
    let succs = cfg.blocks[bi].succs;
    lemma_flow_justified(cfg, bi, succs.len(), out, e, rest);
    lemma_flow_grew(cfg, succs, succs.len(), out, e, rest);
    lemma_flow_succs(cfg, succs, succs.len(), out, e, rest);
    let (f, next) = work_step(cfg, e, work);
    assert forall|c: int, j: int|
        0 <= c < f.len() && f[c] is Some && !next.contains(BlockId(c as u32)) && c <= u32::MAX && 0
            <= j < cfg.blocks[c].succs.len() implies took(
        cfg,
        f,
        c,
        (#[trigger] cfg.blocks[c].succs[j]).0 as int,
    ) by {
        let t = cfg.blocks[c].succs[j].0 as int;
        assert(cfg.block_ok(cfg.blocks[c]));
        assert(f[c] == e[c]);
        if c == bi {
            assert(cfg.blocks[c].succs[j] == succs[j]);
        } else {
            assert(!work.contains(BlockId(c as u32))) by {
                if work.contains(BlockId(c as u32)) {
                    let k = choose|k: int| 0 <= k < work.len() && work[k] == BlockId(c as u32);
                    assert(k < work.len() - 1);
                    assert(rest[k] == BlockId(c as u32));
                    assert(rest.contains(BlockId(c as u32)));
                }
            }
            assert(took(cfg, e, c, t));
            assert(e[t] is Some);
            assert(within(e[t]->0, f[t]->0));
            let r = run_block(cfg, c, e[c]->0);
            assert forall|i: int| 0 <= i < r.len() && #[trigger] r[i] is Some implies (f[t]->0)[i]
                is Some by {
                assert((e[t]->0)[i] is Some);
            }
        }
    }
}

proof fn lemma_iterate_invariants(cfg: CfgView, n: nat)
    requires
        cfg.wf(),
    ensures
        justified(cfg, iterate(cfg, n).0),
        absorbed(cfg, iterate(cfg, n).0, iterate(cfg, n).1),
        iterate(cfg, n).0[cfg.entry.0 as int] is Some,
    decreases n,
{
    if n == 0 {
        let e = first_entries(cfg);
        let start = seq![cfg.entry.0 as int];
        assert(path_to(cfg, start, cfg.entry.0 as int));
        assert(iterate(cfg, 0).1[0] == cfg.entry);
        assert forall|b: int| 0 <= b < e.len() && #[trigger] e[b] is Some implies b
            == cfg.entry.0 as int by {}
        assert forall|b: int, j: int|
            0 <= b < e.len() && e[b] is Some && !iterate(cfg, 0).1.contains(BlockId(b as u32)) && b
                <= u32::MAX && 0 <= j < cfg.blocks[b].succs.len() implies took(
            cfg,
            e,
            b,
            (#[trigger] cfg.blocks[b].succs[j]).0 as int,
        ) by {
            assert(b == cfg.entry.0 as int);
            assert(BlockId(b as u32) == cfg.entry);
        }
    } else {
        lemma_iterate_invariants(cfg, (n - 1) as nat);
        lemma_iterate_ok(cfg, (n - 1) as nat);
        let (e, w) = iterate(cfg, (n - 1) as nat);
        if w.len() > 0 {
            lemma_step_invariants(cfg, e, w);
            let b = w.last();
            assert(w[w.len() - 1] == b);
            assert(e[b.0 as int] matches Some(x) ==> state_ok(cfg, x));
            let stmts = cfg.blocks[b.0 as int].stmts;
            lemma_run_stmts_ok(cfg, stmts, stmts.len(), e[b.0 as int]->0);
            assert(cfg.block_ok(cfg.blocks[b.0 as int]));
            let rest = w.drop_last();
            assert forall|k: int| 0 <= k < rest.len() implies (#[trigger] rest[k]).0
                < cfg.blocks.len() && e[rest[k].0 as int] is Some by {
                assert(w[k] == rest[k]);
            }
            let succs = cfg.blocks[b.0 as int].succs;
            lemma_flow_grew(
                cfg,
                succs,
                succs.len(),
                run_block(cfg, b.0 as int, e[b.0 as int]->0),
                e,
                rest,
            );
            assert(e[cfg.entry.0 as int] is Some);
        }
    }
}

proof fn lemma_paths_covered(cfg: CfgView, e: Entries, path: Seq<int>)
    requires
        cfg.wf(),
        entries_ok(cfg, e),
        absorbed(cfg, e, Seq::empty()),
        e[cfg.entry.0 as int] is Some,
        is_path(cfg, path),
    ensures
        0 <= path.last() <= u32::MAX,
        path.last() < e.len(),
        e[path.last()] is Some,
        within(path_state(cfg, path), e[path.last()]->0),
    decreases path.len(),
{
    lemma_path_state_ok(cfg, path);
    if path.len() == 1 {
        assert(e[cfg.entry.0 as int] matches Some(x) ==> state_ok(cfg, x));
    } else {
        let init = path.drop_last();
        assert forall|i: int| 0 <= i < init.len() - 1 implies is_edge(
            cfg,
            #[trigger] init[i],
            init[i + 1],
        ) by {
            assert(is_edge(cfg, path[i], path[i + 1]));
        }
        lemma_paths_covered(cfg, e, init);
        let b = path[path.len() - 2];
        assert(init.last() == b);
        assert(is_edge(cfg, b, path[path.len() - 2 + 1]));
        let t = path.last();
        let j = choose|j: int|
            0 <= j < cfg.blocks[b].succs.len() && (#[trigger] cfg.blocks[b].succs[j]).0 as int == t;
        assert(cfg.block_ok(cfg.blocks[b]));
        assert(!Seq::<BlockId>::empty().contains(BlockId(b as u32)));
        assert(took(cfg, e, b, cfg.blocks[b].succs[j].0 as int));
        lemma_path_state_ok(cfg, init);
        let stmts = cfg.blocks[b].stmts;
        lemma_run_mono(cfg, stmts, stmts.len(), path_state(cfg, init), e[b]->0);
        let x = path_state(cfg, path);
        assert(x == run_block(cfg, b, path_state(cfg, init)));
        assert forall|i: int| 0 <= i < x.len() && #[trigger] x[i] is Some implies (e[t]->0)[i]
            is Some by {
            assert(run_block(cfg, b, e[b]->0)[i] is Some);
        }
    }
}

/// A block has an entry state iff some path reaches it, and a place is
/// maybe empty there iff some path arrives with it emptied: moves on any
/// path in count, and nothing else does.
pub proof fn law_maybe_moved_iff_some_path(cfg: CfgView, b: int, p: int)
    requires
        cfg.wf(),
        0 <= b < cfg.blocks.len(),
        0 <= p < id_count(cfg),
    ensures
        solution(cfg)[b] is Some <==> exists|path: Seq<int>| path_to(cfg, path, b),
        (solution(cfg)[b] is Some && (solution(cfg)[b]->0)[p] is Some) <==> emptied_on_some_path(
            cfg,
            b,
            p,
        ),
{
    law_settles(cfg);
    let n = choose|n: nat| settled(cfg, n);
    lemma_iterate_ok(cfg, n);
    lemma_iterate_invariants(cfg, n);
    let (e, w) = iterate(cfg, n);
    assert(w =~= Seq::empty());
    if exists|path: Seq<int>| path_to(cfg, path, b) {
        let path = choose|path: Seq<int>| path_to(cfg, path, b);
        lemma_paths_covered(cfg, e, path);
    }
    if emptied_on_some_path(cfg, b, p) {
        let path = choose|path: Seq<int>|
            path_to(cfg, path, b) && (#[trigger] path_state(cfg, path))[p] is Some;
        lemma_paths_covered(cfg, e, path);
        lemma_path_state_ok(cfg, path);
        assert(path_state(cfg, path)[p] is Some);
    }
    if e[b] is Some && (e[b]->0)[p] is Some {
        assert(emptied_on_some_path(cfg, b, p));
    }
}

/// Re-initializing a place makes it usable again: right after the
/// initialization no overlapping place is maybe empty.
pub proof fn law_init_revives(cfg: CfgView, s: State, init: PlaceId, span: Span, q: int)
    requires
        state_ok(cfg, s),
        0 <= q < s.len(),
        cfg.places.overlaps(init, PlaceId(q as u32)),
    ensures
        transfer_state(cfg, StmtView::Init { place: init, span }, s)[q] is None,
{
}

/// Disjoint fields stay usable: emptying a place changes no other
/// place's state.
pub proof fn law_move_is_local(cfg: CfgView, s: State, place: PlaceId, span: Span, q: int)
    requires
        state_ok(cfg, s),
        cfg.places.has(place),
        0 <= q < s.len(),
        q != place.0 as int,
    ensures
        transfer_state(cfg, StmtView::Move { place, span }, s)[q] == s[q],
        transfer_state(cfg, StmtView::Move { place, span }, s)[place.0 as int] is Some,
{
}

proof fn lemma_first_empty_some(cfg: CfgView, s: State, place: PlaceId, n: nat)
    requires
        n <= s.len(),
    ensures
        first_empty(cfg, s, place, n) is Some <==> exists|m: int|
            0 <= m < n && #[trigger] s[m] is Some && cfg.places.overlaps(PlaceId(m as u32), place),
    decreases n,
{
    if n > 0 {
        lemma_first_empty_some(cfg, s, place, (n - 1) as nat);
        if first_empty(cfg, s, place, n) is Some {
            if first_empty(cfg, s, place, (n - 1) as nat) is Some {
                let m = choose|m: int|
                    0 <= m < n - 1 && #[trigger] s[m] is Some && cfg.places.overlaps(
                        PlaceId(m as u32),
                        place,
                    );
                assert(s[m] is Some);
            } else {
                assert(s[n - 1] is Some);
            }
        }
    }
}

/// A use is reported iff it overlaps a maybe-empty place.
pub proof fn law_use_reported_iff_empty(cfg: CfgView, s: State, u: (PlaceId, Span))
    ensures
        use_hits(cfg, s, u).len() > 0 <==> exists|m: int|
            0 <= m < s.len() && #[trigger] s[m] is Some && cfg.places.overlaps(
                PlaceId(m as u32),
                u.0,
            ),
{
    lemma_first_empty_some(cfg, s, u.0, s.len());
}

// ------------------------------------------------ what is reported, and when --

/// None of the statements from `i` up to `j` gives a new value to the place
/// or to something that overlaps it.
pub open spec fn left_empty(cfg: CfgView, b: int, i: int, j: int, p: PlaceId) -> bool {
    forall|k: int|
        i <= k < j && 0 <= k < cfg.blocks[b].stmts.len() ==> !(#[trigger] cfg.blocks[b].stmts[k]
            matches StmtView::Init { place, .. } && cfg.places.overlaps(place, p))
}

/// The statement takes the place's value away, or declares it without one.
pub open spec fn empties(st: StmtView, p: PlaceId) -> bool {
    match st {
        StmtView::Move { place, .. } | StmtView::Uninit { place, .. } => place == p,
        _ => false,
    }
}

/// The statement uses the place, there.
pub open spec fn touches(cfg: CfgView, st: StmtView, q: PlaceId, at: Span) -> bool {
    match st {
        StmtView::Read { place, span } => place == q && span == at,
        StmtView::Mutate { place, span } => place == q && span == at,
        StmtView::Move { place, span } => place == q && span == at,
        StmtView::Call(c) => c.mut_args.contains((q, at)) || c.read_args.contains((q, at)),
        StmtView::Borrow { loan, span } => cfg.loans[loan.0 as int].place == q && span == at,
        _ => false,
    }
}

/// Some E1001 is reported at the span.
pub open spec fn empty_use_at(ds: Seq<DiagView>, at: Span) -> bool {
    exists|i: int| 0 <= i < ds.len() && (#[trigger] ds[i]).code == Code::E1001 && ds[i].primary == at
}

proof fn lemma_stays_empty(cfg: CfgView, b: int, i: nat, n: nat, s: State, p: PlaceId)
    requires
        state_ok(cfg, s),
        cfg.places.has(p),
        i <= n <= cfg.blocks[b].stmts.len(),
        run_stmts(cfg, cfg.blocks[b].stmts, i, s)[p.0 as int] is Some,
        left_empty(cfg, b, i as int, n as int, p),
    ensures
        run_stmts(cfg, cfg.blocks[b].stmts, n, s)[p.0 as int] is Some,
    decreases n - i,
{
    if i < n {
        let stmts = cfg.blocks[b].stmts;
        lemma_stays_empty(cfg, b, i, (n - 1) as nat, s, p);
        lemma_run_stmts_ok(cfg, stmts, (n - 1) as nat, s);
        let k = n - 1;
        assert(!(stmts[k] matches StmtView::Init { place, .. } && cfg.places.overlaps(place, p)));
        assert(PlaceId(p.0 as int as u32) == p);
    }
}

proof fn lemma_emptied_here(cfg: CfgView, b: int, k: nat, n: nat, s: State, p: PlaceId)
    requires
        state_ok(cfg, s),
        cfg.places.has(p),
        k < n <= cfg.blocks[b].stmts.len(),
        empties(cfg.blocks[b].stmts[k as int], p),
        left_empty(cfg, b, (k + 1) as int, n as int, p),
    ensures
        run_stmts(cfg, cfg.blocks[b].stmts, n, s)[p.0 as int] is Some,
{
    let stmts = cfg.blocks[b].stmts;
    lemma_run_stmts_ok(cfg, stmts, k, s);
    assert(run_stmts(cfg, stmts, k + 1, s)[p.0 as int] is Some);
    lemma_stays_empty(cfg, b, k + 1, n, s, p);
}

proof fn lemma_path_prefix(cfg: CfgView, path: Seq<int>)
    requires
        is_path(cfg, path),
        path.len() > 1,
    ensures
        is_path(cfg, path.drop_last()),
{
    let init = path.drop_last();
    assert forall|i: int| 0 <= i < init.len() - 1 implies is_edge(
        cfg,
        #[trigger] init[i],
        init[i + 1],
    ) by {
        assert(is_edge(cfg, path[i], path[i + 1]));
    }
}

/// The place was emptied at statement `k` of the path's block `i`, and no
/// block on the rest of the way gives it a value again.
pub open spec fn emptied_along(cfg: CfgView, path: Seq<int>, i: int, k: int, p: PlaceId) -> bool {
    &&& 0 <= i < path.len() - 1
    &&& 0 <= k < cfg.blocks[path[i]].stmts.len()
    &&& empties(cfg.blocks[path[i]].stmts[k], p)
    &&& left_empty(cfg, path[i], k + 1, cfg.blocks[path[i]].stmts.len() as int, p)
    &&& forall|j: int|
        i < j < path.len() - 1 ==> left_empty(
            cfg,
            #[trigger] path[j],
            0,
            cfg.blocks[path[j]].stmts.len() as int,
            p,
        )
}

proof fn lemma_emptied_along(cfg: CfgView, path: Seq<int>, i: int, k: int, p: PlaceId)
    requires
        cfg.wf(),
        is_path(cfg, path),
        cfg.places.has(p),
        emptied_along(cfg, path, i, k, p),
    ensures
        path_state(cfg, path)[p.0 as int] is Some,
    decreases path.len(),
{
    let init = path.drop_last();
    let last = path[path.len() - 2];
    lemma_path_prefix(cfg, path);
    lemma_path_state_ok(cfg, init);
    assert(init.last() == last);
    let s = path_state(cfg, init);
    if i == path.len() - 2 {
        lemma_emptied_here(cfg, last, k as nat, cfg.blocks[last].stmts.len(), s, p);
    } else {
        assert forall|j: int| i < j < init.len() - 1 implies left_empty(
            cfg,
            #[trigger] init[j],
            0,
            cfg.blocks[init[j]].stmts.len() as int,
            p,
        ) by {
            assert(init[j] == path[j]);
        }
        assert(init[i] == path[i]);
        lemma_emptied_along(cfg, init, i, k, p);
        let j = path.len() - 2;
        assert(left_empty(cfg, path[j], 0, cfg.blocks[path[j]].stmts.len() as int, p));
        lemma_stays_empty(cfg, last, 0, cfg.blocks[last].stmts.len(), s, p);
    }
}

proof fn lemma_dedup_keeps(h: Seq<Hit>, i: int)
    requires
        0 <= i < h.len(),
    ensures
        seen(dedup(h), h[i]),
    decreases h.len(),
{
    let d = dedup(h.drop_last());
    if i < h.len() - 1 {
        lemma_dedup_keeps(h.drop_last(), i);
        let k = choose|k: int| 0 <= k < d.len() && same_hit(#[trigger] d[k], h.drop_last()[i]);
        assert(dedup(h)[k] == d[k]);
    } else if !seen(d, h.last()) {
        assert(dedup(h)[d.len() as int] == h.last());
        assert(same_hit(dedup(h)[d.len() as int], h[i]));
    }
}

/// Some hit stands at the span.
spec fn hit_at(h: Seq<Hit>, at: Span) -> bool {
    exists|i: int| 0 <= i < h.len() && (#[trigger] h[i]).use_span == at
}

proof fn lemma_hit_add(a: Seq<Hit>, b: Seq<Hit>, at: Span)
    ensures
        hit_at(a, at) || hit_at(b, at) ==> hit_at(a + b, at),
{
    let s = a + b;
    if hit_at(a, at) {
        let i = choose|i: int| 0 <= i < a.len() && (#[trigger] a[i]).use_span == at;
        assert(s[i] == a[i]);
    }
    if hit_at(b, at) {
        let i = choose|i: int| 0 <= i < b.len() && (#[trigger] b[i]).use_span == at;
        assert(s[a.len() + i] == b[i]);
    }
}

proof fn lemma_uses_hit(cfg: CfgView, s: State, us: Seq<(PlaceId, Span)>, n: nat, i: int)
    requires
        0 <= i < n <= us.len(),
        use_hits(cfg, s, us[i]).len() > 0,
    ensures
        hit_at(uses_hits(cfg, s, us, n), us[i].1),
    decreases n,
{
    let a = uses_hits(cfg, s, us, (n - 1) as nat);
    let b = use_hits(cfg, s, us[n - 1]);
    if i < n - 1 {
        lemma_uses_hit(cfg, s, us, (n - 1) as nat, i);
    } else {
        assert(b[0].use_span == us[i].1);
    }
    lemma_hit_add(a, b, us[i].1);
}

proof fn lemma_block_hit(cfg: CfgView, stmts: Seq<StmtView>, n: nat, s: State, k: int, at: Span)
    requires
        0 <= k < n <= stmts.len(),
        hit_at(stmt_hits(cfg, run_stmts(cfg, stmts, k as nat, s), stmts[k]), at),
    ensures
        hit_at(block_hits(cfg, stmts, n, s), at),
    decreases n,
{
    if k < n - 1 {
        lemma_block_hit(cfg, stmts, (n - 1) as nat, s, k, at);
    }
    lemma_hit_add(
        block_hits(cfg, stmts, (n - 1) as nat, s),
        stmt_hits(cfg, run_stmts(cfg, stmts, (n - 1) as nat, s), stmts[n - 1]),
        at,
    );
}

proof fn lemma_sweep_hit(cfg: CfgView, e: Entries, n: nat, b: int, at: Span)
    requires
        0 <= b < n <= e.len(),
        e[b] is Some,
        hit_at(block_hits(cfg, cfg.blocks[b].stmts, cfg.blocks[b].stmts.len(), e[b]->0), at),
    ensures
        hit_at(sweep(cfg, e, n), at),
    decreases n,
{
    if b < n - 1 {
        lemma_sweep_hit(cfg, e, (n - 1) as nat, b, at);
    }
    lemma_hit_add(
        sweep(cfg, e, (n - 1) as nat),
        match e[n - 1] {
            Some(s) => block_hits(cfg, cfg.blocks[n - 1].stmts, cfg.blocks[n - 1].stmts.len(), s),
            None => Seq::empty(),
        },
        at,
    );
}

proof fn lemma_touch_reported(
    cfg: CfgView,
    b: int,
    k: int,
    p: PlaceId,
    q: PlaceId,
    at: Span,
)
    requires
        cfg.wf(),
        0 <= b < cfg.blocks.len(),
        0 <= k < cfg.blocks[b].stmts.len(),
        cfg.places.has(p),
        solution(cfg).len() == cfg.blocks.len(),
        solution(cfg)[b] is Some,
        state_ok(cfg, solution(cfg)[b]->0),
        run_stmts(cfg, cfg.blocks[b].stmts, k as nat, solution(cfg)[b]->0)[p.0 as int] is Some,
        touches(cfg, cfg.blocks[b].stmts[k], q, at),
        cfg.places.overlaps(p, q),
    ensures
        empty_use_at(move_diags(cfg), at),
{
    let stmts = cfg.blocks[b].stmts;
    let st = stmts[k];
    let s0 = solution(cfg)[b]->0;
    let s = run_stmts(cfg, stmts, k as nat, s0);
    lemma_run_stmts_ok(cfg, stmts, k as nat, s0);
    let us = uses(cfg, st);
    let i = match st {
        StmtView::Call(c) => if c.mut_args.contains((q, at)) {
            choose|i: int| 0 <= i < c.mut_args.len() && c.mut_args[i] == (q, at)
        } else {
            c.mut_args.len() + choose|i: int| 0 <= i < c.read_args.len() && c.read_args[i] == (q, at)
        },
        _ => 0,
    };
    assert(us[i] == (q, at));
    assert(s[p.0 as int] is Some && PlaceId(p.0 as int as u32) == p);
    law_use_reported_iff_empty(cfg, s, us[i]);
    lemma_uses_hit(cfg, s, us, us.len(), i);
    lemma_block_hit(cfg, stmts, stmts.len(), s0, k, at);
    let e = solution(cfg);
    lemma_sweep_hit(cfg, e, cfg.blocks.len(), b, at);
    let all = sweep(cfg, e, cfg.blocks.len());
    let x = choose|x: int| 0 <= x < all.len() && (#[trigger] all[x]).use_span == at;
    lemma_dedup_keeps(all, x);
    let d = dedup(all);
    let y = choose|y: int| 0 <= y < d.len() && same_hit(#[trigger] d[y], all[x]);
    assert(move_diags(cfg)[y].code == Code::E1001);
    assert(move_diags(cfg)[y].primary == at);
}

proof fn lemma_solution_ok(cfg: CfgView, b: int)
    requires
        cfg.wf(),
        0 <= b < cfg.blocks.len(),
    ensures
        solution(cfg).len() == cfg.blocks.len(),
        solution(cfg)[b] matches Some(s) ==> state_ok(cfg, s),
{
    law_settles(cfg);
    let n = choose|n: nat| settled(cfg, n);
    lemma_iterate_ok(cfg, n);
}

/// A value that some way through the body took away, and that nothing on
/// that way put back, may not be used at its end: the use is an E1001, of
/// the whole place, of a part of it or of what holds it.
pub proof fn law_use_after_move_is_reported(
    cfg: CfgView,
    path: Seq<int>,
    i: int,
    k: int,
    p: PlaceId,
    u: int,
    q: PlaceId,
    at: Span,
)
    requires
        cfg.wf(),
        is_path(cfg, path),
        cfg.places.has(p),
        emptied_along(cfg, path, i, k, p),
        0 <= u < cfg.blocks[path.last()].stmts.len(),
        left_empty(cfg, path.last(), 0, u, p),
        touches(cfg, cfg.blocks[path.last()].stmts[u], q, at),
        cfg.places.overlaps(p, q),
    ensures
        empty_use_at(move_diags(cfg), at),
{
    let b = path.last();
    lemma_emptied_along(cfg, path, i, k, p);
    lemma_path_state_ok(cfg, path);
    assert(path_to(cfg, path, b));
    assert(is_edge(cfg, path[path.len() - 2], path[path.len() - 2 + 1]));
    assert(cfg.block_ok(cfg.blocks[path[path.len() - 2]]));
    assert(0 <= p.0 < id_count(cfg));
    assert(path_state(cfg, path)[p.0 as int] is Some);
    assert(emptied_on_some_path(cfg, b, p.0 as int));
    law_maybe_moved_iff_some_path(cfg, b, p.0 as int);
    lemma_solution_ok(cfg, b);
    lemma_stays_empty(cfg, b, 0, u as nat, solution(cfg)[b]->0, p);
    lemma_touch_reported(cfg, b, u, p, q, at);
}

/// A move on a cycle of the graph that nothing undoes is an E1001 at the
/// move itself: the next round uses what this one took.
pub proof fn law_move_on_a_cycle_is_reported(
    cfg: CfgView,
    path: Seq<int>,
    i: int,
    k: int,
    p: PlaceId,
    at: Span,
)
    requires
        cfg.wf(),
        is_path(cfg, path),
        cfg.places.has(p),
        0 <= i < path.len() - 1,
        path[i] == path.last(),
        0 <= k < cfg.blocks[path[i]].stmts.len(),
        cfg.blocks[path[i]].stmts[k] == (StmtView::Move { place: p, span: at }),
        emptied_along(cfg, path, i, k, p),
        left_empty(cfg, path.last(), 0, k, p),
        cfg.places.overlaps(p, p),
    ensures
        empty_use_at(move_diags(cfg), at),
{
    law_use_after_move_is_reported(cfg, path, i, k, p, k, p, at);
}

/// A value taken away in a reachable block may not be used later in it.
pub proof fn law_use_after_move_in_a_block_is_reported(
    cfg: CfgView,
    path: Seq<int>,
    k: int,
    p: PlaceId,
    u: int,
    q: PlaceId,
    at: Span,
)
    requires
        cfg.wf(),
        is_path(cfg, path),
        0 <= path.last() < cfg.blocks.len(),
        cfg.places.has(p),
        0 <= k < u < cfg.blocks[path.last()].stmts.len(),
        empties(cfg.blocks[path.last()].stmts[k], p),
        left_empty(cfg, path.last(), k + 1, u, p),
        touches(cfg, cfg.blocks[path.last()].stmts[u], q, at),
        cfg.places.overlaps(p, q),
    ensures
        empty_use_at(move_diags(cfg), at),
{
    let b = path.last();
    assert(path_to(cfg, path, b));
    assert(0 <= p.0 < id_count(cfg));
    law_maybe_moved_iff_some_path(cfg, b, p.0 as int);
    lemma_solution_ok(cfg, b);
    lemma_emptied_here(cfg, b, k as nat, u as nat, solution(cfg)[b]->0, p);
    lemma_touch_reported(cfg, b, u, p, q, at);
}

} // verus!
