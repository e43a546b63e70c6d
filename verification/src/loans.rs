//! Local loan checking: per-function loan-set dataflow, *loans, not
//! lifetimes* (`[mem.tier0.borrow]`).
//!
//! A loan is created wherever a borrow occurs. Kill rules: (a) the
//! borrowed place is overwritten or moved, (b) the borrowing local's
//! last use passes (backward liveness over the CFG, not lexical scope).
//! A loan conflicts only while it is *needed*: gen-reached **and** its
//! borrower still live.
//!
//! Error conditions at each statement, for every needed loan L:
//! - a write (`Init`/`Mutate`) or move of a place overlapping L.place;
//! - a read of a place overlapping a **unique, activated** L.place (a
//!   reserved two-phase loan tolerates reads until its activation);
//! - a new borrow overlapping L, unless both are shared or L is reserved
//!   and the new one shared.

use vstd::prelude::*;
use vstd::string::*;

use crate::cfg::{
    args_ok, stmt_ok, BlockId, CallView, Cfg, CfgView, LoanKind, LocalId, Stmt, StmtView,
};
use crate::diag::{diag_views, lemma_diag_views_push, Code, DiagView, Diagnostic, Span};
use crate::measure::{lemma_total_le, lemma_total_lt, total};
use crate::moves::{is_edge, is_path, path_to};
use crate::place::{Base, BaseView, PlaceId};
use crate::text::lit;

verus! {

// ------------------------------------------------- borrower liveness --

/// The statement uses the borrower of loan `i`: through it, or by a read
/// or move of a place based on it.
pub open spec fn uses_borrower(cfg: CfgView, st: StmtView, i: int) -> bool {
    match st {
        StmtView::UseBorrower { local, .. } => local == cfg.loans[i].borrower,
        StmtView::Read { place, .. } | StmtView::Move { place, .. } => cfg.places.at(place).base
            == BaseView::Local(cfg.loans[i].borrower.0),
        _ => false,
    }
}

/// Some statement from `from` on uses the borrower of loan `i`.
pub open spec fn used_from(cfg: CfgView, stmts: Seq<StmtView>, from: int, i: int) -> bool {
    exists|j: int| from <= j < stmts.len() && uses_borrower(cfg, #[trigger] stmts[j], i)
}

/// Within `n` edges of the end of block `b`, some block uses the
/// borrower of loan `i`.
pub open spec fn used_within(cfg: CfgView, b: int, i: int, n: nat) -> bool
    decreases n,
{
    n > 0 && exists|j: int|
        0 <= j < cfg.blocks[b].succs.len() && {
            let t = (#[trigger] cfg.blocks[b].succs[j]).0 as int;
            used_from(cfg, cfg.blocks[t].stmts, 0, i) || used_within(cfg, t, i, (n - 1) as nat)
        }
}

/// The borrower of loan `i` is live at the end of block `b`: some path
/// onward uses it.
pub open spec fn live_out(cfg: CfgView, b: int, i: int) -> bool {
    exists|n: nat| #[trigger] used_within(cfg, b, i, n)
}

/// The borrower of loan `i` is live after statement `j` of block `b`.
pub open spec fn live_after(cfg: CfgView, b: int, j: int, i: int) -> bool {
    used_from(cfg, cfg.blocks[b].stmts, j + 1, i) || live_out(cfg, b, i)
}

// --------------------------------------------------------- loan flow --

/// The loans in flight and those activated.
#[verifier::ext_equal]
pub struct FlowView {
    pub live: Seq<bool>,
    pub active: Seq<bool>,
}

/// Kill rule (a): overwriting or moving a place kills the loans it
/// overlaps.
pub open spec fn kills(cfg: CfgView, st: StmtView, i: int) -> bool {
    match st {
        StmtView::Mutate { place, .. } | StmtView::Move { place, .. } | StmtView::Init {
            place,
            ..
        } => cfg.places.overlaps(cfg.loans[i].place, place),
        _ => false,
    }
}

pub open spec fn gens_live(cfg: CfgView, st: StmtView, i: int) -> bool {
    st matches StmtView::Borrow { loan, .. } && loan.0 as int == i
}

/// A loan is active from its borrow, or, reserved, from its activation.
pub open spec fn gens_active(cfg: CfgView, st: StmtView, i: int) -> bool {
    match st {
        StmtView::Borrow { loan, .. } => loan.0 as int == i && !cfg.loans[i].two_phase,
        StmtView::Activate { loan, .. } => loan.0 as int == i,
        _ => false,
    }
}

pub open spec fn transfer_flow(cfg: CfgView, st: StmtView, f: FlowView) -> FlowView {
    FlowView {
        live: Seq::new(
            cfg.loans.len(),
            |i: int| gens_live(cfg, st, i) || (f.live[i] && !kills(cfg, st, i)),
        ),
        active: Seq::new(
            cfg.loans.len(),
            |i: int| gens_active(cfg, st, i) || (f.active[i] && !kills(cfg, st, i)),
        ),
    }
}

pub open spec fn run_flow(cfg: CfgView, stmts: Seq<StmtView>, n: nat, f: FlowView) -> FlowView
    decreases n,
{
    if n == 0 {
        f
    } else {
        transfer_flow(cfg, stmts[n - 1], run_flow(cfg, stmts, (n - 1) as nat, f))
    }
}

pub open spec fn block_flow(cfg: CfgView, b: int, f: FlowView) -> FlowView {
    run_flow(cfg, cfg.blocks[b].stmts, cfg.blocks[b].stmts.len(), f)
}

pub open spec fn no_loans(cfg: CfgView) -> FlowView {
    FlowView {
        live: Seq::new(cfg.loans.len(), |i: int| false),
        active: Seq::new(cfg.loans.len(), |i: int| false),
    }
}

/// The flow on reaching the end of one path.
pub open spec fn path_flow(cfg: CfgView, path: Seq<int>) -> FlowView
    decreases path.len(),
{
    if path.len() <= 1 {
        no_loans(cfg)
    } else {
        block_flow(cfg, path[path.len() - 2], path_flow(cfg, path.drop_last()))
    }
}

pub open spec fn live_on_some_path(cfg: CfgView, b: int, i: int) -> bool {
    exists|path: Seq<int>| path_to(cfg, path, b) && (#[trigger] path_flow(cfg, path)).live[i]
}

pub open spec fn active_on_some_path(cfg: CfgView, b: int, i: int) -> bool {
    exists|path: Seq<int>| path_to(cfg, path, b) && (#[trigger] path_flow(cfg, path)).active[i]
}

pub open spec fn reachable(cfg: CfgView, b: int) -> bool {
    exists|path: Seq<int>| path_to(cfg, path, b)
}

/// The flow on entry to a block: a loan is in flight (or active) there
/// iff it is on some path in.
pub open spec fn entry_flow(cfg: CfgView, b: int) -> FlowView {
    FlowView {
        live: Seq::new(cfg.loans.len(), |i: int| live_on_some_path(cfg, b, i)),
        active: Seq::new(cfg.loans.len(), |i: int| active_on_some_path(cfg, b, i)),
    }
}

// --------------------------------------------------------- reporting --

pub const NOTE_NEEDED: &'static str = "the loan is still needed by a later use of the borrowing name; once its last use passes, the place is free again.";

pub open spec fn loan_diag(cfg: CfgView, at: Span, message: Seq<char>, i: int) -> DiagView {
    DiagView::error(Code::E1002, at, message).with_label("conflicting access"@).with_secondary(
        cfg.loans[i].origin,
        "the value is lent here"@,
    ).with_note(NOTE_NEEDED@)
}

/// The access conflicts with loan `i`, if the loan is needed: writes
/// always do, reads only with an activated unique loan.
pub open spec fn conflicts_with(
    cfg: CfgView,
    f: FlowView,
    needed: spec_fn(int) -> bool,
    place: PlaceId,
    write: bool,
    i: int,
) -> bool {
    &&& f.live[i] && needed(i)
    &&& cfg.places.overlaps(cfg.loans[i].place, place)
    &&& write || (cfg.loans[i].kind is Unique && f.active[i])
}

/// The conflicts of one access with the first `n` loans.
pub open spec fn access_diags(
    cfg: CfgView,
    f: FlowView,
    needed: spec_fn(int) -> bool,
    place: PlaceId,
    at: Span,
    write: bool,
    n: nat,
) -> Seq<DiagView>
    decreases n,
{
    if n == 0 {
        Seq::empty()
    } else {
        let rest = access_diags(cfg, f, needed, place, at, write, (n - 1) as nat);
        if conflicts_with(cfg, f, needed, place, write, n - 1) {
            rest.push(
                loan_diag(
                    cfg,
                    at,
                    "`"@ + cfg.show(place) + "` cannot be "@ + (if write {
                        "changed"@
                    } else {
                        "read"@
                    }) + " while `"@ + cfg.show(cfg.loans[n - 1].place) + "` is lent out"@,
                    n - 1,
                ),
            )
        } else {
            rest
        }
    }
}

/// The new loan conflicts with loan `i`.
pub open spec fn borrow_conflicts(
    cfg: CfgView,
    f: FlowView,
    needed: spec_fn(int) -> bool,
    loan: int,
    i: int,
) -> bool {
    let new = cfg.loans[loan];
    let prior = cfg.loans[i];
    &&& i != loan
    &&& f.live[i] && needed(i)
    &&& cfg.places.overlaps(prior.place, new.place)
    &&& !(prior.kind is Shared && new.kind is Shared)
    &&& !(prior.two_phase && !f.active[i] && new.kind is Shared)
}

pub open spec fn borrow_diags(
    cfg: CfgView,
    f: FlowView,
    needed: spec_fn(int) -> bool,
    loan: int,
    at: Span,
    n: nat,
) -> Seq<DiagView>
    decreases n,
{
    if n == 0 {
        Seq::empty()
    } else {
        let rest = borrow_diags(cfg, f, needed, loan, at, (n - 1) as nat);
        if borrow_conflicts(cfg, f, needed, loan, n - 1) {
            rest.push(
                loan_diag(
                    cfg,
                    at,
                    "`"@ + cfg.show(cfg.loans[loan].place) + "` is already lent out via `"@
                        + cfg.show(cfg.loans[n - 1].place) + "`"@,
                    n - 1,
                ),
            )
        } else {
            rest
        }
    }
}

pub open spec fn args_diags(
    cfg: CfgView,
    f: FlowView,
    needed: spec_fn(int) -> bool,
    args: Seq<(PlaceId, Span)>,
    write: bool,
    n: nat,
) -> Seq<DiagView>
    decreases n,
{
    if n == 0 {
        Seq::empty()
    } else {
        args_diags(cfg, f, needed, args, write, (n - 1) as nat) + access_diags(
            cfg,
            f,
            needed,
            args[n - 1].0,
            args[n - 1].1,
            write,
            cfg.loans.len(),
        )
    }
}

/// The conflicts of one statement, against the flow before it and the
/// borrowers live after it.
pub open spec fn stmt_diags(
    cfg: CfgView,
    f: FlowView,
    needed: spec_fn(int) -> bool,
    st: StmtView,
) -> Seq<DiagView> {
    match st {
        StmtView::Read { place, span } => access_diags(
            cfg,
            f,
            needed,
            place,
            span,
            false,
            cfg.loans.len(),
        ),
        StmtView::Mutate { place, span } | StmtView::Move { place, span } | StmtView::Init {
            place,
            span,
        } => access_diags(cfg, f, needed, place, span, true, cfg.loans.len()),
        StmtView::Call(c) => args_diags(cfg, f, needed, c.mut_args, true, c.mut_args.len())
            + args_diags(cfg, f, needed, c.read_args, false, c.read_args.len()) + args_diags(
            cfg,
            f,
            needed,
            c.take_args,
            true,
            c.take_args.len(),
        ),
        StmtView::Borrow { loan, span } => borrow_diags(
            cfg,
            f,
            needed,
            loan.0 as int,
            span,
            cfg.loans.len(),
        ),
        _ => Seq::empty(),
    }
}

pub open spec fn needed_at(cfg: CfgView, b: int, j: int) -> spec_fn(int) -> bool {
    |i: int| live_after(cfg, b, j, i)
}

/// The conflicts of the first `n` statements of block `b`.
pub open spec fn block_diags(cfg: CfgView, b: int, n: nat) -> Seq<DiagView>
    decreases n,
{
    if n == 0 {
        Seq::empty()
    } else {
        block_diags(cfg, b, (n - 1) as nat) + stmt_diags(
            cfg,
            run_flow(cfg, cfg.blocks[b].stmts, (n - 1) as nat, entry_flow(cfg, b)),
            needed_at(cfg, b, n - 1),
            cfg.blocks[b].stmts[n - 1],
        )
    }
}

pub open spec fn blocks_diags(cfg: CfgView, n: nat) -> Seq<DiagView>
    decreases n,
{
    if n == 0 {
        Seq::empty()
    } else {
        blocks_diags(cfg, (n - 1) as nat) + (if reachable(cfg, n - 1) {
            block_diags(cfg, n - 1, cfg.blocks[n - 1].stmts.len())
        } else {
            Seq::empty()
        })
    }
}

/// Every loan conflict of the graph's reachable blocks, in block,
/// statement and loan order.
pub open spec fn loan_diags(cfg: CfgView) -> Seq<DiagView> {
    blocks_diags(cfg, cfg.blocks.len())
}

// -------------------------------------------------------------- laws --

/// Shared loans coexist: a shared borrow never conflicts with another
/// shared loan.
pub proof fn law_shared_coexist(
    cfg: CfgView,
    f: FlowView,
    needed: spec_fn(int) -> bool,
    loan: int,
    i: int,
)
    requires
        cfg.loans[loan].kind is Shared,
        cfg.loans[i].kind is Shared,
    ensures
        !borrow_conflicts(cfg, f, needed, loan, i),
{
}

/// A loan whose borrower is not used any more conflicts with nothing.
pub proof fn law_dead_loan_is_free(
    cfg: CfgView,
    f: FlowView,
    b: int,
    j: int,
    place: PlaceId,
    write: bool,
    i: int,
)
    requires
        !live_after(cfg, b, j, i),
    ensures
        !conflicts_with(cfg, f, needed_at(cfg, b, j), place, write, i),
{
}

/// Overwriting or moving the lent place ends the loan.
pub proof fn law_overwrite_kills(cfg: CfgView, st: StmtView, f: FlowView, i: int)
    requires
        0 <= i < cfg.loans.len(),
        kills(cfg, st, i),
    ensures
        !transfer_flow(cfg, st, f).live[i],
        !transfer_flow(cfg, st, f).active[i],
{
}

/// A reserved loan tolerates reads until it is activated.
pub proof fn law_reserved_tolerates_reads(
    cfg: CfgView,
    f: FlowView,
    needed: spec_fn(int) -> bool,
    place: PlaceId,
    i: int,
)
    requires
        !f.active[i],
    ensures
        !conflicts_with(cfg, f, needed, place, false, i),
{
}

/// A shared loan tolerates reads.
pub proof fn law_shared_tolerates_reads(
    cfg: CfgView,
    f: FlowView,
    needed: spec_fn(int) -> bool,
    place: PlaceId,
    i: int,
)
    requires
        cfg.loans[i].kind is Shared,
    ensures
        !conflicts_with(cfg, f, needed, place, false, i),
{
}

/// The statement goes through the local: it uses it as a borrower, or reads
/// or moves something based on it.
pub open spec fn through(cfg: CfgView, st: StmtView, local: LocalId) -> bool {
    ||| st matches StmtView::UseBorrower { local: l, .. } && l == local
    ||| st matches StmtView::Read { place, .. } && cfg.places.at(place).base == BaseView::Local(
        local.0,
    )
    ||| st matches StmtView::Move { place, .. } && cfg.places.at(place).base == BaseView::Local(
        local.0,
    )
}

/// The statement writes the place or moves it away, there.
pub open spec fn changes_at(st: StmtView, place: PlaceId, at: Span) -> bool {
    ||| st == StmtView::Init { place, span: at }
    ||| st == StmtView::Mutate { place, span: at }
    ||| st == StmtView::Move { place, span: at }
}

/// An error of the rule stands in the list, there.
pub open spec fn lent_out_at(ds: Seq<DiagView>, at: Span) -> bool {
    exists|k: int|
        0 <= k < ds.len() && (#[trigger] ds[k]).code == Code::E1002 && ds[k].primary == at
            && ds[k].severity is Error
}

/// The value is lent at statement `from` of the block, the place is neither
/// changed nor moved away between there and statement `j`, and a later
/// statement of the block, or of a block it may go on to, goes through the
/// name that borrows it.
pub open spec fn lent_over(cfg: CfgView, b: int, loan: int, from: int, j: int) -> bool {
    let stmts = cfg.blocks[b].stmts;
    &&& 0 <= b < cfg.blocks.len()
    &&& 0 <= loan < cfg.loans.len()
    &&& 0 <= from < j < stmts.len()
    &&& stmts[from] matches StmtView::Borrow { loan: l, .. } && l.0 as int == loan
    &&& forall|k: int, p: PlaceId, at: Span|
        from < k < j && #[trigger] changes_at(stmts[k], p, at) ==> !cfg.places.overlaps(
            cfg.loans[loan].place,
            p,
        )
    &&& {
        ||| exists|k: int|
            j < k < stmts.len() && through(cfg, #[trigger] stmts[k], cfg.loans[loan].borrower)
        ||| exists|t: int, k: int|
            0 <= t < cfg.blocks[b].succs.len() && 0 <= k
                < cfg.blocks[cfg.blocks[b].succs[t].0 as int].stmts.len() && through(
                cfg,
                #[trigger] cfg.blocks[cfg.blocks[b].succs[t].0 as int].stmts[k],
                cfg.loans[loan].borrower,
            )
    }
}

proof fn lemma_lent_in(a: Seq<DiagView>, b: Seq<DiagView>, c: Seq<DiagView>, at: Span)
    requires
        lent_out_at(b, at),
    ensures
        lent_out_at(a + b + c, at),
{
    let k = choose|k: int|
        0 <= k < b.len() && (#[trigger] b[k]).code == Code::E1002 && b[k].primary == at
            && b[k].severity is Error;
    assert((a + b + c)[a.len() + k] == b[k]);
}

proof fn lemma_lent_flows(
    cfg: CfgView,
    b: int,
    loan: int,
    from: int,
    j: int,
    n: int,
    f: FlowView,
)
    requires
        lent_over(cfg, b, loan, from, j),
        from < n <= j,
    ensures
        run_flow(cfg, cfg.blocks[b].stmts, n as nat, f).live[loan],
        !cfg.loans[loan].two_phase ==> run_flow(
            cfg,
            cfg.blocks[b].stmts,
            n as nat,
            f,
        ).active[loan],
    decreases n,
{
    let stmts = cfg.blocks[b].stmts;
    if n > from + 1 {
        lemma_lent_flows(cfg, b, loan, from, j, n - 1, f);
        let st = stmts[n - 1];
        match st {
            StmtView::Mutate { place, span } => {
                assert(changes_at(st, place, span));
            },
            StmtView::Move { place, span } => {
                assert(changes_at(st, place, span));
            },
            StmtView::Init { place, span } => {
                assert(changes_at(st, place, span));
            },
            _ => {},
        }
        assert(!kills(cfg, st, loan));
    }
}

proof fn lemma_lent_needed(cfg: CfgView, b: int, loan: int, from: int, j: int)
    requires
        lent_over(cfg, b, loan, from, j),
    ensures
        live_after(cfg, b, j, loan),
{
    let stmts = cfg.blocks[b].stmts;
    let local = cfg.loans[loan].borrower;
    if exists|k: int| j < k < stmts.len() && through(cfg, #[trigger] stmts[k], local) {
        let k = choose|k: int| j < k < stmts.len() && through(cfg, #[trigger] stmts[k], local);
        assert(uses_borrower(cfg, stmts[k], loan));
    } else {
        let (t, k) = choose|t: int, k: int|
            0 <= t < cfg.blocks[b].succs.len() && 0 <= k
                < cfg.blocks[cfg.blocks[b].succs[t].0 as int].stmts.len() && through(
                cfg,
                #[trigger] cfg.blocks[cfg.blocks[b].succs[t].0 as int].stmts[k],
                local,
            );
        let to = cfg.blocks[b].succs[t].0 as int;
        assert(uses_borrower(cfg, cfg.blocks[to].stmts[k], loan));
        assert(used_from(cfg, cfg.blocks[to].stmts, 0, loan));
        assert(used_within(cfg, b, loan, 1));
    }
}

proof fn lemma_access_lent(
    cfg: CfgView,
    f: FlowView,
    needed: spec_fn(int) -> bool,
    place: PlaceId,
    at: Span,
    write: bool,
    n: nat,
    i: int,
)
    requires
        0 <= i < n,
        f.live[i],
        needed(i),
        cfg.places.overlaps(cfg.loans[i].place, place),
        write || (cfg.loans[i].kind is Unique && f.active[i]),
    ensures
        lent_out_at(access_diags(cfg, f, needed, place, at, write, n), at),
    decreases n,
{
    let rest = access_diags(cfg, f, needed, place, at, write, (n - 1) as nat);
    let all = access_diags(cfg, f, needed, place, at, write, n);
    if i == n - 1 {
        assert(all[rest.len() as int].primary == at);
    } else {
        lemma_access_lent(cfg, f, needed, place, at, write, (n - 1) as nat, i);
        let k = choose|k: int|
            0 <= k < rest.len() && (#[trigger] rest[k]).code == Code::E1002 && rest[k].primary
                == at && rest[k].severity is Error;
        assert(all[k] == rest[k]);
    }
}

proof fn lemma_args_lent(
    cfg: CfgView,
    f: FlowView,
    needed: spec_fn(int) -> bool,
    args: Seq<(PlaceId, Span)>,
    write: bool,
    n: nat,
    a: int,
    i: int,
)
    requires
        0 <= i < cfg.loans.len(),
        0 <= a < n <= args.len(),
        f.live[i],
        needed(i),
        cfg.places.overlaps(cfg.loans[i].place, args[a].0),
        write || (cfg.loans[i].kind is Unique && f.active[i]),
    ensures
        lent_out_at(args_diags(cfg, f, needed, args, write, n), args[a].1),
    decreases n,
{
    let at = args[a].1;
    let before = args_diags(cfg, f, needed, args, write, (n - 1) as nat);
    let last = access_diags(
        cfg,
        f,
        needed,
        args[n - 1].0,
        args[n - 1].1,
        write,
        cfg.loans.len(),
    );
    if a == n - 1 {
        lemma_access_lent(cfg, f, needed, args[a].0, at, write, cfg.loans.len(), i);
        lemma_lent_in(before, last, Seq::empty(), at);
        assert(before + last + Seq::<DiagView>::empty() =~= before + last);
    } else {
        lemma_args_lent(cfg, f, needed, args, write, (n - 1) as nat, a, i);
        lemma_lent_in(Seq::empty(), before, last, at);
        assert(Seq::<DiagView>::empty() + before + last =~= before + last);
    }
}

proof fn lemma_borrow_lent(
    cfg: CfgView,
    f: FlowView,
    needed: spec_fn(int) -> bool,
    loan: int,
    at: Span,
    n: nat,
    i: int,
)
    requires
        0 <= i < n,
        borrow_conflicts(cfg, f, needed, loan, i),
    ensures
        lent_out_at(borrow_diags(cfg, f, needed, loan, at, n), at),
    decreases n,
{
    let rest = borrow_diags(cfg, f, needed, loan, at, (n - 1) as nat);
    let all = borrow_diags(cfg, f, needed, loan, at, n);
    if i == n - 1 {
        assert(all[rest.len() as int].primary == at);
    } else {
        lemma_borrow_lent(cfg, f, needed, loan, at, (n - 1) as nat, i);
        let k = choose|k: int|
            0 <= k < rest.len() && (#[trigger] rest[k]).code == Code::E1002 && rest[k].primary
                == at && rest[k].severity is Error;
        assert(all[k] == rest[k]);
    }
}

proof fn lemma_block_lent(cfg: CfgView, b: int, n: nat, j: int, at: Span)
    requires
        0 <= j < n <= cfg.blocks[b].stmts.len(),
        lent_out_at(
            stmt_diags(
                cfg,
                run_flow(cfg, cfg.blocks[b].stmts, j as nat, entry_flow(cfg, b)),
                needed_at(cfg, b, j),
                cfg.blocks[b].stmts[j],
            ),
            at,
        ),
    ensures
        lent_out_at(block_diags(cfg, b, n), at),
    decreases n,
{
    let before = block_diags(cfg, b, (n - 1) as nat);
    let last = stmt_diags(
        cfg,
        run_flow(cfg, cfg.blocks[b].stmts, (n - 1) as nat, entry_flow(cfg, b)),
        needed_at(cfg, b, n - 1),
        cfg.blocks[b].stmts[n - 1],
    );
    if j == n - 1 {
        lemma_lent_in(before, last, Seq::empty(), at);
        assert(before + last + Seq::<DiagView>::empty() =~= before + last);
    } else {
        lemma_block_lent(cfg, b, (n - 1) as nat, j, at);
        lemma_lent_in(Seq::empty(), before, last, at);
        assert(Seq::<DiagView>::empty() + before + last =~= before + last);
    }
}

proof fn lemma_graph_lent(cfg: CfgView, n: nat, b: int, at: Span)
    requires
        0 <= b < n <= cfg.blocks.len(),
        reachable(cfg, b),
        lent_out_at(block_diags(cfg, b, cfg.blocks[b].stmts.len()), at),
    ensures
        lent_out_at(blocks_diags(cfg, n), at),
    decreases n,
{
    let before = blocks_diags(cfg, (n - 1) as nat);
    let last = if reachable(cfg, n - 1) {
        block_diags(cfg, n - 1, cfg.blocks[n - 1].stmts.len())
    } else {
        Seq::empty()
    };
    if b == n - 1 {
        lemma_lent_in(before, last, Seq::empty(), at);
        assert(before + last + Seq::<DiagView>::empty() =~= before + last);
    } else {
        lemma_graph_lent(cfg, (n - 1) as nat, b, at);
        lemma_lent_in(Seq::empty(), before, last, at);
        assert(Seq::<DiagView>::empty() + before + last =~= before + last);
    }
}

proof fn lemma_stmt_lent(cfg: CfgView, path: Seq<int>, b: int, j: int, at: Span)
    requires
        path_to(cfg, path, b),
        0 <= b < cfg.blocks.len(),
        0 <= j < cfg.blocks[b].stmts.len(),
        lent_out_at(
            stmt_diags(
                cfg,
                run_flow(cfg, cfg.blocks[b].stmts, j as nat, entry_flow(cfg, b)),
                needed_at(cfg, b, j),
                cfg.blocks[b].stmts[j],
            ),
            at,
        ),
    ensures
        lent_out_at(loan_diags(cfg), at),
{
    assert(reachable(cfg, b));
    lemma_block_lent(cfg, b, cfg.blocks[b].stmts.len(), j, at);
    lemma_graph_lent(cfg, cfg.blocks.len(), b, at);
}

/// While a value is lent out and its borrower is used later, changing what
/// overlaps it, or moving it away, is an error there: any loan objects.
pub proof fn law_lent_is_not_changed(
    cfg: CfgView,
    path: Seq<int>,
    b: int,
    loan: int,
    from: int,
    j: int,
    place: PlaceId,
    at: Span,
)
    requires
        path_to(cfg, path, b),
        lent_over(cfg, b, loan, from, j),
        changes_at(cfg.blocks[b].stmts[j], place, at),
        cfg.places.overlaps(cfg.loans[loan].place, place),
    ensures
        lent_out_at(loan_diags(cfg), at),
{
    let f = run_flow(cfg, cfg.blocks[b].stmts, j as nat, entry_flow(cfg, b));
    lemma_lent_flows(cfg, b, loan, from, j, j, entry_flow(cfg, b));
    lemma_lent_needed(cfg, b, loan, from, j);
    lemma_access_lent(cfg, f, needed_at(cfg, b, j), place, at, true, cfg.loans.len(), loan);
    lemma_stmt_lent(cfg, path, b, j, at);
}

/// While a value is lent out exclusively, and not merely reserved, reading
/// what overlaps it is an error there.
pub proof fn law_lent_exclusively_is_not_read(
    cfg: CfgView,
    path: Seq<int>,
    b: int,
    loan: int,
    from: int,
    j: int,
    place: PlaceId,
    at: Span,
)
    requires
        path_to(cfg, path, b),
        lent_over(cfg, b, loan, from, j),
        cfg.loans[loan].kind is Unique,
        !cfg.loans[loan].two_phase,
        cfg.blocks[b].stmts[j] == (StmtView::Read { place, span: at }),
        cfg.places.overlaps(cfg.loans[loan].place, place),
    ensures
        lent_out_at(loan_diags(cfg), at),
{
    let f = run_flow(cfg, cfg.blocks[b].stmts, j as nat, entry_flow(cfg, b));
    lemma_lent_flows(cfg, b, loan, from, j, j, entry_flow(cfg, b));
    lemma_lent_needed(cfg, b, loan, from, j);
    lemma_access_lent(cfg, f, needed_at(cfg, b, j), place, at, false, cfg.loans.len(), loan);
    lemma_stmt_lent(cfg, path, b, j, at);
}

/// While a value is lent out, another loan of what overlaps it is an error
/// there, unless both are shared, or the first is only reserved and the
/// second shared.
pub proof fn law_lent_is_not_lent_again(
    cfg: CfgView,
    path: Seq<int>,
    b: int,
    loan: int,
    from: int,
    j: int,
    second: int,
    at: Span,
)
    requires
        path_to(cfg, path, b),
        lent_over(cfg, b, loan, from, j),
        cfg.blocks[b].stmts[j] matches StmtView::Borrow { loan: l, span } && l.0 as int == second
            && span == at,
        second != loan,
        cfg.places.overlaps(cfg.loans[loan].place, cfg.loans[second].place),
        cfg.loans[second].kind is Unique || (cfg.loans[loan].kind is Unique
            && !cfg.loans[loan].two_phase),
    ensures
        lent_out_at(loan_diags(cfg), at),
{
    let f = run_flow(cfg, cfg.blocks[b].stmts, j as nat, entry_flow(cfg, b));
    let needed = needed_at(cfg, b, j);
    lemma_lent_flows(cfg, b, loan, from, j, j, entry_flow(cfg, b));
    lemma_lent_needed(cfg, b, loan, from, j);
    assert(borrow_conflicts(cfg, f, needed, second, loan));
    lemma_borrow_lent(cfg, f, needed, second, at, cfg.loans.len(), loan);
    lemma_stmt_lent(cfg, path, b, j, at);
}

/// While a value is lent out, a call that mutates or takes what overlaps it
/// is an error at that argument; one that reads it is, where the loan is
/// exclusive and not merely reserved.
pub proof fn law_lent_is_not_passed(
    cfg: CfgView,
    path: Seq<int>,
    b: int,
    loan: int,
    from: int,
    j: int,
    c: CallView,
    a: int,
)
    requires
        path_to(cfg, path, b),
        lent_over(cfg, b, loan, from, j),
        cfg.blocks[b].stmts[j] == StmtView::Call(c),
    ensures
        0 <= a < c.mut_args.len() && cfg.places.overlaps(cfg.loans[loan].place, c.mut_args[a].0)
            ==> lent_out_at(loan_diags(cfg), c.mut_args[a].1),
        0 <= a < c.take_args.len() && cfg.places.overlaps(cfg.loans[loan].place, c.take_args[a].0)
            ==> lent_out_at(loan_diags(cfg), c.take_args[a].1),
        0 <= a < c.read_args.len() && cfg.places.overlaps(cfg.loans[loan].place, c.read_args[a].0)
            && cfg.loans[loan].kind is Unique && !cfg.loans[loan].two_phase ==> lent_out_at(
            loan_diags(cfg),
            c.read_args[a].1,
        ),
{
    let f = run_flow(cfg, cfg.blocks[b].stmts, j as nat, entry_flow(cfg, b));
    let needed = needed_at(cfg, b, j);
    lemma_lent_flows(cfg, b, loan, from, j, j, entry_flow(cfg, b));
    lemma_lent_needed(cfg, b, loan, from, j);
    let x = args_diags(cfg, f, needed, c.mut_args, true, c.mut_args.len());
    let y = args_diags(cfg, f, needed, c.read_args, false, c.read_args.len());
    let z = args_diags(cfg, f, needed, c.take_args, true, c.take_args.len());
    let all = stmt_diags(cfg, f, needed, StmtView::Call(c));
    if 0 <= a < c.mut_args.len() && cfg.places.overlaps(cfg.loans[loan].place, c.mut_args[a].0) {
        let at = c.mut_args[a].1;
        lemma_args_lent(cfg, f, needed, c.mut_args, true, c.mut_args.len(), a, loan);
        lemma_lent_in(Seq::empty(), x, y + z, at);
        assert(Seq::<DiagView>::empty() + x + (y + z) =~= all);
        lemma_stmt_lent(cfg, path, b, j, at);
    }
    if 0 <= a < c.take_args.len() && cfg.places.overlaps(cfg.loans[loan].place, c.take_args[a].0) {
        let at = c.take_args[a].1;
        lemma_args_lent(cfg, f, needed, c.take_args, true, c.take_args.len(), a, loan);
        lemma_lent_in(x + y, z, Seq::empty(), at);
        assert(x + y + z + Seq::<DiagView>::empty() =~= all);
        lemma_stmt_lent(cfg, path, b, j, at);
    }
    if 0 <= a < c.read_args.len() && cfg.places.overlaps(cfg.loans[loan].place, c.read_args[a].0)
        && cfg.loans[loan].kind is Unique && !cfg.loans[loan].two_phase {
        let at = c.read_args[a].1;
        lemma_args_lent(cfg, f, needed, c.read_args, false, c.read_args.len(), a, loan);
        lemma_lent_in(x, y, z, at);
        lemma_stmt_lent(cfg, path, b, j, at);
    }
}

/// A loan in flight at the end of a path is in flight in every block that
/// the path may go on to.
pub proof fn law_loans_flow_on(cfg: CfgView, path: Seq<int>, b: int, to: int, i: int)
    requires
        path_to(cfg, path, b),
        path_to(cfg, path.push(to), to),
        block_flow(cfg, b, path_flow(cfg, path)).live[i],
        0 <= i < cfg.loans.len(),
    ensures
        entry_flow(cfg, to).live[i],
{
    let longer = path.push(to);
    assert(longer.drop_last() =~= path);
    assert(path_flow(cfg, longer).live[i]);
}

/// A graph that lends nothing has no conflict.
pub proof fn law_no_loan_no_conflict(cfg: CfgView)
    requires
        cfg.loans.len() == 0,
    ensures
        loan_diags(cfg).len() == 0,
{
    lemma_no_loan_blocks(cfg, cfg.blocks.len());
}

proof fn lemma_no_loan_blocks(cfg: CfgView, n: nat)
    requires
        cfg.loans.len() == 0,
    ensures
        blocks_diags(cfg, n).len() == 0,
    decreases n,
{
    if n > 0 {
        lemma_no_loan_blocks(cfg, (n - 1) as nat);
        lemma_no_loan_block(cfg, n - 1, cfg.blocks[n - 1].stmts.len());
    }
}

proof fn lemma_no_loan_block(cfg: CfgView, b: int, n: nat)
    requires
        cfg.loans.len() == 0,
    ensures
        block_diags(cfg, b, n).len() == 0,
    decreases n,
{
    if n > 0 {
        lemma_no_loan_block(cfg, b, (n - 1) as nat);
        if let StmtView::Call(c) = cfg.blocks[b].stmts[n - 1] {
            let f = run_flow(cfg, cfg.blocks[b].stmts, (n - 1) as nat, entry_flow(cfg, b));
            let needed = needed_at(cfg, b, n - 1);
            lemma_no_loan_args(cfg, f, needed, c.mut_args, true, c.mut_args.len());
            lemma_no_loan_args(cfg, f, needed, c.read_args, false, c.read_args.len());
            lemma_no_loan_args(cfg, f, needed, c.take_args, true, c.take_args.len());
        }
    }
}

proof fn lemma_no_loan_args(
    cfg: CfgView,
    f: FlowView,
    needed: spec_fn(int) -> bool,
    args: Seq<(PlaceId, Span)>,
    write: bool,
    n: nat,
)
    requires
        cfg.loans.len() == 0,
    ensures
        args_diags(cfg, f, needed, args, write, n).len() == 0,
    decreases n,
{
    if n > 0 {
        lemma_no_loan_args(cfg, f, needed, args, write, (n - 1) as nat);
    }
}

spec fn flow_ok(cfg: CfgView, f: FlowView) -> bool {
    f.live.len() == cfg.loans.len() && f.active.len() == cfg.loans.len()
}

proof fn lemma_run_ok(cfg: CfgView, stmts: Seq<StmtView>, n: nat, f: FlowView)
    requires
        flow_ok(cfg, f),
    ensures
        flow_ok(cfg, run_flow(cfg, stmts, n, f)),
    decreases n,
{
    if n > 0 {
        lemma_run_ok(cfg, stmts, (n - 1) as nat, f);
    }
}

proof fn lemma_path_ok(cfg: CfgView, path: Seq<int>)
    ensures
        flow_ok(cfg, path_flow(cfg, path)),
    decreases path.len(),
{
    if path.len() > 1 {
        lemma_path_ok(cfg, path.drop_last());
        let b = path[path.len() - 2];
        lemma_run_ok(
            cfg,
            cfg.blocks[b].stmts,
            cfg.blocks[b].stmts.len(),
            path_flow(cfg, path.drop_last()),
        );
    }
}

/// Each bit flows on its own, and only from itself.
proof fn lemma_run_bit(cfg: CfgView, stmts: Seq<StmtView>, n: nat, f: FlowView, g: FlowView, i: int)
    requires
        flow_ok(cfg, f),
        flow_ok(cfg, g),
        0 <= i < cfg.loans.len(),
    ensures
        (f.live[i] ==> g.live[i]) && run_flow(cfg, stmts, n, f).live[i] ==> run_flow(
            cfg,
            stmts,
            n,
            g,
        ).live[i],
        (f.active[i] ==> g.active[i]) && run_flow(cfg, stmts, n, f).active[i] ==> run_flow(
            cfg,
            stmts,
            n,
            g,
        ).active[i],
    decreases n,
{
    if n > 0 {
        lemma_run_bit(cfg, stmts, (n - 1) as nat, f, g, i);
    }
}

// -------------------------------------------------------- executable --

struct Flow {
    live: Vec<bool>,
    active: Vec<bool>,
}

impl View for Flow {
    type V = FlowView;

    closed spec fn view(&self) -> FlowView {
        FlowView { live: self.live@, active: self.active@ }
    }
}

fn copy_bits(v: &Vec<bool>) -> (r: Vec<bool>)
    ensures
        r@ == v@,
{
    let mut out: Vec<bool> = Vec::new();
    let mut i: usize = 0;
    while i < v.len()
        invariant
            i <= v.len(),
            out@ == v@.take(i as int),
        decreases v.len() - i,
    {
        out.push(v[i]);
        i = i + 1;
        assert(out@ =~= v@.take(i as int));
    }
    assert(out@ =~= v@);
    out
}

fn copy_flow(f: &Flow) -> (r: Flow)
    ensures
        r@ == f@,
{
    Flow { live: copy_bits(&f.live), active: copy_bits(&f.active) }
}

/// The borrower that a statement uses, if any.
fn borrower_of_stmt(cfg: &Cfg, stmt: &Stmt) -> (r: Option<u32>)
    requires
        stmt_ok(stmt@, cfg@.places, cfg@.loans.len()),
    ensures
        forall|i: int|
            #![trigger uses_borrower(cfg@, stmt@, i)]
            uses_borrower(cfg@, stmt@, i) <==> r == Some(cfg@.loans[i].borrower.0),
{
    match stmt {
        Stmt::UseBorrower { local, .. } => Some(local.0),
        Stmt::Read { place, .. } | Stmt::Move { place, .. } => {
            match &cfg.places.get(*place).base {
                Base::Local(l) => Some(*l),
                Base::Global(..) => None,
            }
        },
        _ => None,
    }
}

/// Mark the loans a statement's borrower holds.
fn mark_borrower(cfg: &Cfg, stmt: &Stmt, live: &mut Vec<bool>)
    requires
        stmt_ok(stmt@, cfg@.places, cfg@.loans.len()),
        old(live).len() == cfg@.loans.len(),
    ensures
        final(live).len() == cfg@.loans.len(),
        forall|i: int|
            0 <= i < cfg@.loans.len() ==> final(live)@[i] == (old(live)@[i] || uses_borrower(
                cfg@,
                stmt@,
                i,
            )),
{
    match borrower_of_stmt(cfg, stmt) {
        None => {},
        Some(local) => {
            let ghost start = live@;
            let mut i: usize = 0;
            while i < cfg.loans.len()
                invariant
                    i <= cfg.loans.len(),
                    live.len() == cfg@.loans.len(),
                    start.len() == cfg@.loans.len(),
                    forall|k: int|
                        #![trigger uses_borrower(cfg@, stmt@, k)]
                        uses_borrower(cfg@, stmt@, k) <==> Some(local) == Some(
                            cfg@.loans[k].borrower.0,
                        ),
                    forall|k: int|
                        0 <= k < i ==> #[trigger] live@[k] == (start[k] || uses_borrower(cfg@, stmt@, k)),
                    forall|k: int| i <= k < live.len() ==> #[trigger] live@[k] == start[k],
                decreases cfg.loans.len() - i,
            {
                assert(uses_borrower(cfg@, stmt@, i as int) <==> cfg@.loans[i as int].borrower.0
                    == local);
                let now: bool = live[i] || cfg.loans[i].borrower.0 == local;
                live.set(i, now);
                i = i + 1;
            }
        },
    }
}

/// The borrowers live at a block's start, from those live at its end.
fn block_live_in(cfg: &Cfg, b: usize, out: &Vec<bool>) -> (live: Vec<bool>)
    requires
        cfg@.wf(),
        b < cfg.blocks.len(),
        out.len() == cfg@.loans.len(),
    ensures
        live.len() == cfg@.loans.len(),
        forall|i: int|
            0 <= i < cfg@.loans.len() ==> live@[i] == (out@[i] || used_from(
                cfg@,
                cfg@.blocks[b as int].stmts,
                0,
                i,
            )),
{
    let mut live = copy_bits(out);
    let block = &cfg.blocks[b];
    let ghost stmts = cfg@.blocks[b as int].stmts;
    assert(cfg@.block_ok(cfg@.blocks[b as int]));
    let mut j: usize = block.stmts.len();
    while j > 0
        invariant
            j <= block.stmts.len(),
            stmts == block@.stmts,
            forall|k: int|
                0 <= k < stmts.len() ==> stmt_ok(
                    #[trigger] stmts[k],
                    cfg@.places,
                    cfg@.loans.len(),
                ),
            live.len() == cfg@.loans.len(),
            out.len() == cfg@.loans.len(),
            forall|i: int|
                0 <= i < cfg@.loans.len() ==> live@[i] == (out@[i] || used_from(
                    cfg@,
                    stmts,
                    j as int,
                    i,
                )),
        decreases j,
    {
        j = j - 1;
        let ghost before = live@;
        assert(stmts[j as int] == block.stmts@[j as int]@);
        mark_borrower(cfg, &block.stmts[j], &mut live);
        assert forall|i: int| 0 <= i < cfg@.loans.len() implies live@[i] == (out@[i] || used_from(
            cfg@,
            stmts,
            j as int,
            i,
        )) by {
            lemma_used_step(cfg@, stmts, j as int, i);
            assert(before[i] == (out@[i] || used_from(cfg@, stmts, j + 1, i)));
        }
    }
    live
}

proof fn lemma_used_step(cfg: CfgView, stmts: Seq<StmtView>, j: int, i: int)
    requires
        0 <= j < stmts.len(),
    ensures
        used_from(cfg, stmts, j, i) == (uses_borrower(cfg, stmts[j], i) || used_from(
            cfg,
            stmts,
            j + 1,
            i,
        )),
{
    if used_from(cfg, stmts, j, i) && !uses_borrower(cfg, stmts[j], i) {
        let k = choose|k: int| j <= k < stmts.len() && uses_borrower(cfg, #[trigger] stmts[k], i);
        assert(k >= j + 1);
    }
    if used_from(cfg, stmts, j + 1, i) {
        let k = choose|k: int|
            j + 1 <= k < stmts.len() && uses_borrower(cfg, #[trigger] stmts[k], i);
        assert(uses_borrower(cfg, stmts[k], i));
    }
}

proof fn lemma_used_within_mono(cfg: CfgView, b: int, i: int, m: nat, n: nat)
    requires
        m <= n,
        used_within(cfg, b, i, m),
    ensures
        used_within(cfg, b, i, n),
    decreases n,
{
    let j = choose|j: int|
        0 <= j < cfg.blocks[b].succs.len() && {
            let t = (#[trigger] cfg.blocks[b].succs[j]).0 as int;
            used_from(cfg, cfg.blocks[t].stmts, 0, i) || used_within(cfg, t, i, (m - 1) as nat)
        };
    let t = cfg.blocks[b].succs[j].0 as int;
    if !used_from(cfg, cfg.blocks[t].stmts, 0, i) {
        lemma_used_within_mono(cfg, t, i, (m - 1) as nat, (n - 1) as nat);
    }
    assert(used_from(cfg, cfg.blocks[t].stmts, 0, i) || used_within(cfg, t, i, (n - 1) as nat));
}

/// Liveness in equation form.
proof fn lemma_live_out_step(cfg: CfgView, b: int, i: int, j: int)
    requires
        0 <= j < cfg.blocks[b].succs.len(),
        ({
            let t = cfg.blocks[b].succs[j].0 as int;
            used_from(cfg, cfg.blocks[t].stmts, 0, i) || live_out(cfg, t, i)
        }),
    ensures
        live_out(cfg, b, i),
{
    let t = cfg.blocks[b].succs[j].0 as int;
    if used_from(cfg, cfg.blocks[t].stmts, 0, i) {
        assert(cfg.blocks[b].succs[j].0 as int == t);
        assert(used_within(cfg, b, i, 1));
    } else {
        let n = choose|n: nat| #[trigger] used_within(cfg, t, i, n);
        assert(cfg.blocks[b].succs[j].0 as int == t);
        assert(used_within(cfg, t, i, ((n + 1) - 1) as nat));
        assert(used_within(cfg, b, i, n + 1));
    }
}

spec fn bits_view(v: Seq<Vec<bool>>) -> Seq<Seq<bool>> {
    Seq::new(v.len(), |b: int| v[b]@)
}

/// The bits hold only true liveness facts.
spec fn bits_sound(cfg: CfgView, bits: Seq<Seq<bool>>) -> bool {
    &&& bits.len() == cfg.blocks.len()
    &&& forall|b: int| 0 <= b < bits.len() ==> (#[trigger] bits[b]).len() == cfg.loans.len()
    &&& forall|b: int, i: int|
        0 <= b < bits.len() && 0 <= i < cfg.loans.len() && #[trigger] bits[b][i] ==> live_out(
            cfg,
            b,
            i,
        )
}

/// What block `b` should hold, read off its successors.
spec fn wanted(cfg: CfgView, bits: Seq<Seq<bool>>, b: int, i: int, n: int) -> bool {
    exists|j: int|
        0 <= j < n && {
            let t = (#[trigger] cfg.blocks[b].succs[j]).0 as int;
            used_from(cfg, cfg.blocks[t].stmts, 0, i) || bits[t][i]
        }
}

/// Every block agrees with its successors.
spec fn bits_stable(cfg: CfgView, bits: Seq<Seq<bool>>) -> bool {
    forall|b: int, i: int|
        0 <= b < cfg.blocks.len() && 0 <= i < cfg.loans.len() ==> #[trigger] bits[b][i] == wanted(
            cfg,
            bits,
            b,
            i,
            cfg.blocks[b].succs.len() as int,
        )
}

proof fn lemma_stable_complete(cfg: CfgView, bits: Seq<Seq<bool>>, b: int, i: int, n: nat)
    requires
        cfg.wf(),
        bits_stable(cfg, bits),
        0 <= b < cfg.blocks.len(),
        0 <= i < cfg.loans.len(),
        used_within(cfg, b, i, n),
    ensures
        bits[b][i],
    decreases n,
{
    let j = choose|j: int|
        0 <= j < cfg.blocks[b].succs.len() && {
            let t = (#[trigger] cfg.blocks[b].succs[j]).0 as int;
            used_from(cfg, cfg.blocks[t].stmts, 0, i) || used_within(cfg, t, i, (n - 1) as nat)
        };
    let t = cfg.blocks[b].succs[j].0 as int;
    assert(cfg.block_ok(cfg.blocks[b]));
    if !used_from(cfg, cfg.blocks[t].stmts, 0, i) {
        lemma_stable_complete(cfg, bits, t, i, (n - 1) as nat);
    }
    assert(wanted(cfg, bits, b, i, cfg.blocks[b].succs.len() as int));
}

spec fn unset(s: Seq<bool>) -> nat {
    total(
        Seq::new(
            s.len(),
            |i: int|
                if s[i] {
                    0nat
                } else {
                    1nat
                },
        ),
    )
}

spec fn unset_all(bits: Seq<Seq<bool>>) -> nat {
    total(Seq::new(bits.len(), |b: int| unset(bits[b])))
}

proof fn lemma_unset(a: Seq<bool>, b: Seq<bool>)
    requires
        a.len() == b.len(),
        forall|i: int| 0 <= i < a.len() && #[trigger] a[i] ==> b[i],
    ensures
        unset(b) <= unset(a),
        a != b ==> unset(b) < unset(a),
{
    let x = Seq::new(
        a.len(),
        |i: int|
            if a[i] {
                0nat
            } else {
                1nat
            },
    );
    let y = Seq::new(
        b.len(),
        |i: int|
            if b[i] {
                0nat
            } else {
                1nat
            },
    );
    lemma_total_le(y, x);
    if a != b {
        assert(!(a =~= b));
        let k = choose|k: int| 0 <= k < a.len() && a[k] != b[k];
        lemma_total_lt(y, x, k);
    }
}

proof fn lemma_unset_all(bits: Seq<Seq<bool>>, b: int, new: Seq<bool>)
    requires
        0 <= b < bits.len(),
        bits[b].len() == new.len(),
        forall|i: int| 0 <= i < new.len() && #[trigger] bits[b][i] ==> new[i],
        bits[b] != new,
    ensures
        unset_all(bits.update(b, new)) < unset_all(bits),
{
    let x = Seq::new(bits.len(), |c: int| unset(bits[c]));
    let y = Seq::new(bits.len(), |c: int| unset(bits.update(b, new)[c]));
    assert(y =~= Seq::new(
        bits.update(b, new).len(),
        |c: int| unset(bits.update(b, new)[c]),
    ));
    lemma_unset(bits[b], new);
    assert forall|c: int| 0 <= c < y.len() implies #[trigger] y[c] <= x[c] by {}
    lemma_total_lt(y, x, b);
}

fn same_bits(a: &Vec<bool>, b: &Vec<bool>) -> (r: bool)
    requires
        a.len() == b.len(),
    ensures
        r == (a@ == b@),
{
    let mut i: usize = 0;
    while i < a.len()
        invariant
            i <= a.len() == b.len(),
            forall|k: int| 0 <= k < i ==> a@[k] == b@[k],
        decreases a.len() - i,
    {
        if a[i] != b[i] {
            return false;
        }
        i = i + 1;
    }
    assert(a@ =~= b@);
    true
}

fn zeros(n: usize) -> (r: Vec<bool>)
    ensures
        r@ == Seq::new(n as nat, |i: int| false),
{
    let mut out: Vec<bool> = Vec::new();
    let mut i: usize = 0;
    while i < n
        invariant
            i <= n,
            out.len() == i,
            forall|k: int| 0 <= k < i ==> !out@[k],
        decreases n - i,
    {
        out.push(false);
        i = i + 1;
    }
    assert(out@ =~= Seq::new(n as nat, |i: int| false));
    out
}

/// What block `b` should hold, read off its successors.
fn read_succs(cfg: &Cfg, bits: &Vec<Vec<bool>>, b: usize) -> (out: Vec<bool>)
    requires
        cfg@.wf(),
        b < cfg.blocks.len(),
        bits.len() == cfg.blocks.len(),
        forall|c: int| 0 <= c < bits.len() ==> (#[trigger] bits@[c]).len() == cfg@.loans.len(),
    ensures
        out.len() == cfg@.loans.len(),
        forall|i: int|
            0 <= i < out.len() ==> out@[i] == wanted(
                cfg@,
                bits_view(bits@),
                b as int,
                i,
                cfg@.blocks[b as int].succs.len() as int,
            ),
{
    let mut out = zeros(cfg.loans.len());
    let block = &cfg.blocks[b];
    let ghost succs = cfg@.blocks[b as int].succs;
    let ghost bv = bits_view(bits@);
    assert(cfg@.block_ok(cfg@.blocks[b as int]));
    let mut j: usize = 0;
    while j < block.succs.len()
        invariant
            j <= block.succs.len(),
            cfg@.wf(),
            b < cfg.blocks.len(),
            succs == block.succs@,
            succs == cfg@.blocks[b as int].succs,
            forall|k: int| 0 <= k < succs.len() ==> (#[trigger] succs[k]).0 < cfg@.blocks.len(),
            bits.len() == cfg.blocks.len(),
            bv == bits_view(bits@),
            forall|c: int| 0 <= c < bits.len() ==> (#[trigger] bits@[c]).len() == cfg@.loans.len(),
            out.len() == cfg@.loans.len(),
            forall|i: int| 0 <= i < out.len() ==> out@[i] == wanted(cfg@, bv, b as int, i, j as int),
        decreases block.succs.len() - j,
    {
        let t: usize = block.succs[j].0 as usize;
        assert(succs[j as int].0 as int == t as int);
        let live = block_live_in(cfg, t, &bits[t]);
        let ghost before = out@;
        let mut i: usize = 0;
        while i < cfg.loans.len()
            invariant
                i <= cfg.loans.len(),
                out.len() == cfg@.loans.len(),
                live.len() == cfg@.loans.len(),
                before.len() == out.len(),
                forall|k: int| 0 <= k < i ==> #[trigger] out@[k] == (before[k] || live@[k]),
                forall|k: int| i <= k < out.len() ==> #[trigger] out@[k] == before[k],
            decreases cfg.loans.len() - i,
        {
            let now: bool = out[i] || live[i];
            out.set(i, now);
            i = i + 1;
        }
        assert forall|i: int| 0 <= i < out.len() implies out@[i] == wanted(
            cfg@,
            bv,
            b as int,
            i,
            j + 1,
        ) by {
            assert(before[i] == wanted(cfg@, bv, b as int, i, j as int));
            assert(bv[t as int][i] == bits@[t as int]@[i]);
            assert(cfg@.blocks[b as int].succs[j as int].0 as int == t as int);
            if wanted(cfg@, bv, b as int, i, j + 1) && !wanted(cfg@, bv, b as int, i, j as int) {
                let k = choose|k: int|
                    0 <= k < j + 1 && {
                        let t = (#[trigger] cfg@.blocks[b as int].succs[k]).0 as int;
                        used_from(cfg@, cfg@.blocks[t].stmts, 0, i) || bv[t][i]
                    };
                assert(k == j);
            }
            if wanted(cfg@, bv, b as int, i, j as int) {
                let k = choose|k: int|
                    0 <= k < j && {
                        let t = (#[trigger] cfg@.blocks[b as int].succs[k]).0 as int;
                        used_from(cfg@, cfg@.blocks[t].stmts, 0, i) || bv[t][i]
                    };
                assert(cfg@.blocks[b as int].succs[k].0 as int == cfg@.blocks[b as int].succs[k].0);
            }
        }
        j = j + 1;
    }
    out
}

proof fn lemma_wanted_sound(cfg: CfgView, bits: Seq<Seq<bool>>, b: int, i: int)
    requires
        cfg.wf(),
        bits_sound(cfg, bits),
        0 <= b < cfg.blocks.len(),
        0 <= i < cfg.loans.len(),
        wanted(cfg, bits, b, i, cfg.blocks[b].succs.len() as int),
    ensures
        live_out(cfg, b, i),
{
    let j = choose|j: int|
        0 <= j < cfg.blocks[b].succs.len() && {
            let t = (#[trigger] cfg.blocks[b].succs[j]).0 as int;
            used_from(cfg, cfg.blocks[t].stmts, 0, i) || bits[t][i]
        };
    assert(cfg.block_ok(cfg.blocks[b]));
    lemma_live_out_step(cfg, b, i, j);
}

/// Bits only ever turn on: each block's bits are below what its
/// successors ask for.
spec fn bits_behind(cfg: CfgView, bits: Seq<Seq<bool>>) -> bool {
    forall|b: int, i: int|
        0 <= b < cfg.blocks.len() && 0 <= i < cfg.loans.len() && #[trigger] bits[b][i] ==> wanted(
            cfg,
            bits,
            b,
            i,
            cfg.blocks[b].succs.len() as int,
        )
}

proof fn lemma_behind_update(cfg: CfgView, bits: Seq<Seq<bool>>, b: int, new: Seq<bool>)
    requires
        cfg.wf(),
        bits_sound(cfg, bits),
        bits_behind(cfg, bits),
        0 <= b < cfg.blocks.len(),
        new.len() == cfg.loans.len(),
        forall|i: int|
            0 <= i < new.len() ==> #[trigger] new[i] == wanted(
                cfg,
                bits,
                b,
                i,
                cfg.blocks[b].succs.len() as int,
            ),
    ensures
        bits_behind(cfg, bits.update(b, new)),
        bits_sound(cfg, bits.update(b, new)),
        forall|i: int| 0 <= i < new.len() && #[trigger] bits[b][i] ==> new[i],
{
    let next = bits.update(b, new);
    assert forall|i: int| 0 <= i < new.len() && #[trigger] bits[b][i] implies new[i] by {
        assert(new[i] == wanted(cfg, bits, b, i, cfg.blocks[b].succs.len() as int));
    }
    assert forall|c: int, i: int|
        0 <= c < cfg.blocks.len() && 0 <= i < cfg.loans.len() && #[trigger] next[c][i] implies wanted(
        cfg,
        next,
        c,
        i,
        cfg.blocks[c].succs.len() as int,
    ) by {
        assert(wanted(cfg, bits, c, i, cfg.blocks[c].succs.len() as int)) by {
            if c == b {
                assert(new[i] == next[c][i]);
            } else {
                assert(bits[c][i]);
            }
        }
        let j = choose|j: int|
            0 <= j < cfg.blocks[c].succs.len() && {
                let t = (#[trigger] cfg.blocks[c].succs[j]).0 as int;
                used_from(cfg, cfg.blocks[t].stmts, 0, i) || bits[t][i]
            };
        let t = cfg.blocks[c].succs[j].0 as int;
        assert(cfg.block_ok(cfg.blocks[c]));
        if bits[t][i] && t == b {
            assert(new[i]);
        }
        assert(used_from(cfg, cfg.blocks[t].stmts, 0, i) || next[t][i]);
    }
    assert forall|c: int, i: int|
        0 <= c < next.len() && 0 <= i < cfg.loans.len() && #[trigger] next[c][i] implies live_out(
        cfg,
        c,
        i,
    ) by {
        if c == b {
            assert(new[i] == wanted(cfg, bits, b, i, cfg.blocks[b].succs.len() as int));
            lemma_wanted_sound(cfg, bits, b, i);
        } else {
            assert(bits[c][i]);
        }
    }
    assert forall|c: int| 0 <= c < next.len() implies (#[trigger] next[c]).len() == cfg.loans.len() by {
        if c != b {
            assert(bits[c].len() == cfg.loans.len());
        }
    }
}

/// Backward borrower liveness, to the fixpoint.
fn solve_live_out(cfg: &Cfg) -> (bits: Vec<Vec<bool>>)
    requires
        cfg@.wf(),
    ensures
        bits.len() == cfg.blocks.len(),
        forall|b: int| 0 <= b < bits.len() ==> (#[trigger] bits@[b]).len() == cfg@.loans.len(),
        forall|b: int, i: int|
            0 <= b < bits.len() && 0 <= i < cfg@.loans.len() ==> #[trigger] bits@[b]@[i]
                == live_out(cfg@, b, i),
{
    let n: usize = cfg.blocks.len();
    let mut bits: Vec<Vec<bool>> = Vec::new();
    let mut k: usize = 0;
    while k < n
        invariant
            k <= n,
            bits.len() == k,
            forall|b: int|
                0 <= b < k ==> (#[trigger] bits@[b])@ == Seq::new(
                    cfg@.loans.len(),
                    |i: int| false,
                ),
        decreases n - k,
    {
        bits.push(zeros(cfg.loans.len()));
        k = k + 1;
    }
    let mut changed = true;
    while changed
        invariant
            cfg@.wf(),
            n == cfg.blocks.len(),
            bits.len() == n,
            bits_sound(cfg@, bits_view(bits@)),
            bits_behind(cfg@, bits_view(bits@)),
            !changed ==> bits_stable(cfg@, bits_view(bits@)),
        decreases
                unset_all(bits_view(bits@)),
                if changed {
                    1int
                } else {
                    0int
                },
    {
        changed = false;
        let ghost start = bits_view(bits@);
        let mut b: usize = n;
        while b > 0
            invariant
                cfg@.wf(),
                n == cfg.blocks.len(),
                b <= n,
                bits.len() == n,
                bits_sound(cfg@, bits_view(bits@)),
                bits_behind(cfg@, bits_view(bits@)),
                changed ==> unset_all(bits_view(bits@)) < unset_all(start),
                !changed ==> bits_view(bits@) == start,
                !changed ==> forall|c: int, i: int|
                    b <= c < cfg@.blocks.len() && 0 <= i < cfg@.loans.len()
                        ==> #[trigger] start[c][i] == wanted(
                        cfg@,
                        start,
                        c,
                        i,
                        cfg@.blocks[c].succs.len() as int,
                    ),
            decreases b,
        {
            b = b - 1;
            let ghost bv = bits_view(bits@);
            assert forall|c: int| 0 <= c < bits.len() implies (#[trigger] bits@[c]).len()
                == cfg@.loans.len() by {
                assert(bv[c].len() == cfg@.loans.len());
            }
            let out = read_succs(cfg, &bits, b);
            let ghost new = out@;
            assert forall|i: int| 0 <= i < new.len() implies #[trigger] new[i] == wanted(
                cfg@,
                bv,
                b as int,
                i,
                cfg@.blocks[b as int].succs.len() as int,
            ) by {}
            proof {
                lemma_behind_update(cfg@, bv, b as int, new);
            }
            assert(bv[b as int] == bits@[b as int]@);
            if !same_bits(&out, &bits[b]) {
                proof {
                    lemma_unset_all(bv, b as int, new);
                }
                bits.set(b, out);
                changed = true;
                assert(bits_view(bits@) =~= bv.update(b as int, new));
            }
        }
    }
    proof {
        let bv = bits_view(bits@);
        assert forall|b: int, i: int| 0 <= b < bits.len() && 0 <= i < cfg@.loans.len() implies
            #[trigger] bits@[b]@[i] == live_out(cfg@, b, i) by {
            assert(bv[b][i] == bits@[b]@[i]);
            if live_out(cfg@, b, i) {
                let m = choose|m: nat| #[trigger] used_within(cfg@, b, i, m);
                lemma_stable_complete(cfg@, bv, b, i, m);
            }
        }
        assert forall|b: int| 0 <= b < bits.len() implies (#[trigger] bits@[b]).len()
            == cfg@.loans.len() by {
            assert(bv[b].len() == cfg@.loans.len());
        }
    }
    bits
}

// ------------------------------------------------------ forward flow --

spec fn flows_view(v: Seq<Option<Flow>>) -> Seq<Option<FlowView>> {
    Seq::new(
        v.len(),
        |b: int|
            match v[b] {
                Some(f) => Some(f@),
                None => None,
            },
    )
}

spec fn flows_ok(cfg: CfgView, e: Seq<Option<FlowView>>) -> bool {
    &&& e.len() == cfg.blocks.len()
    &&& forall|b: int| 0 <= b < e.len() ==> ((#[trigger] e[b]) matches Some(f) ==> flow_ok(cfg, f))
}

spec fn work_ok(cfg: CfgView, e: Seq<Option<FlowView>>, work: Seq<BlockId>) -> bool {
    forall|i: int|
        0 <= i < work.len() ==> (#[trigger] work[i]).0 < cfg.blocks.len() && e[work[i].0 as int]
            is Some
}

/// Every bit of `a` is set in `b`.
spec fn flow_le(a: FlowView, b: FlowView) -> bool {
    &&& a.live.len() == b.live.len()
    &&& a.active.len() == b.active.len()
    &&& forall|i: int| 0 <= i < a.live.len() && #[trigger] a.live[i] ==> b.live[i]
    &&& forall|i: int| 0 <= i < a.active.len() && #[trigger] a.active[i] ==> b.active[i]
}

/// The recorded flows are justified by paths.
spec fn justified(cfg: CfgView, e: Seq<Option<FlowView>>) -> bool {
    forall|b: int|
        0 <= b < e.len() && #[trigger] e[b] is Some ==> reachable(cfg, b) && on_paths(
            cfg,
            e[b]->0,
            b,
        )
}

spec fn on_paths(cfg: CfgView, f: FlowView, b: int) -> bool {
    &&& forall|i: int|
        0 <= i < cfg.loans.len() && #[trigger] f.live[i] ==> live_on_some_path(cfg, b, i)
    &&& forall|i: int|
        0 <= i < cfg.loans.len() && #[trigger] f.active[i] ==> active_on_some_path(cfg, b, i)
}

/// The block's end flow has reached block `t`.
spec fn took(cfg: CfgView, e: Seq<Option<FlowView>>, b: int, t: int) -> bool {
    e[t] is Some && flow_le(block_flow(cfg, b, e[b]->0), e[t]->0)
}

/// Blocks off the worklist have flowed into all their successors.
spec fn absorbed(cfg: CfgView, e: Seq<Option<FlowView>>, work: Seq<BlockId>) -> bool {
    forall|b: int, j: int|
        0 <= b < e.len() && e[b] is Some && !work.contains(BlockId(b as u32)) && b <= u32::MAX && 0
            <= j < cfg.blocks[b].succs.len() ==> took(
            cfg,
            e,
            b,
            (#[trigger] cfg.blocks[b].succs[j]).0 as int,
        )
}

/// Flows only grow, and a changed block is on the worklist.
spec fn grew(
    e: Seq<Option<FlowView>>,
    work: Seq<BlockId>,
    f: Seq<Option<FlowView>>,
    next: Seq<BlockId>,
) -> bool {
    &&& f.len() == e.len()
    &&& forall|b: int|
        0 <= b < e.len() && #[trigger] e[b] is Some ==> f[b] is Some && flow_le(e[b]->0, f[b]->0)
    &&& forall|b: int|
        0 <= b < e.len() && #[trigger] f[b] != e[b] ==> b <= u32::MAX && next.contains(
            BlockId(b as u32),
        )
    &&& forall|x: BlockId| #[trigger] work.contains(x) ==> next.contains(x)
}

spec fn unseen(e: Seq<Option<FlowView>>) -> nat {
    total(
        Seq::new(
            e.len(),
            |b: int|
                if e[b] is None {
                    1nat
                } else {
                    0nat
                },
        ),
    )
}

spec fn slot_unset(o: Option<FlowView>) -> nat {
    match o {
        None => 0,
        Some(f) => unset(f.live) + unset(f.active),
    }
}

spec fn flow_unset(e: Seq<Option<FlowView>>) -> nat {
    total(Seq::new(e.len(), |b: int| slot_unset(e[b])))
}

spec fn progressed(
    e: Seq<Option<FlowView>>,
    work: Seq<BlockId>,
    f: Seq<Option<FlowView>>,
    next: Seq<BlockId>,
) -> bool {
    ||| unseen(f) < unseen(e)
    ||| unseen(f) == unseen(e) && flow_unset(f) < flow_unset(e)
    ||| f == e && next == work
}

/// Replacing one block's flow by a larger one is progress.
proof fn lemma_grow_progress(cfg: CfgView, e: Seq<Option<FlowView>>, t: int, new: FlowView)
    requires
        flows_ok(cfg, e),
        0 <= t < e.len(),
        flow_ok(cfg, new),
        e[t] is Some ==> flow_le(e[t]->0, new),
        e[t] != Some(new),
    ensures
        flows_ok(cfg, e.update(t, Some(new))),
        unseen(e.update(t, Some(new))) < unseen(e) || (unseen(e.update(t, Some(new))) == unseen(e)
            && flow_unset(e.update(t, Some(new))) < flow_unset(e)),
{
    let f = e.update(t, Some(new));
    assert forall|b: int| 0 <= b < f.len() && (#[trigger] f[b]) is Some implies flow_ok(
        cfg,
        f[b]->0,
    ) by {
        if b != t {
            assert(e[b] is Some);
        }
    }
    let ua = Seq::new(
        f.len(),
        |b: int|
            if f[b] is None {
                1nat
            } else {
                0nat
            },
    );
    let ub = Seq::new(
        e.len(),
        |b: int|
            if e[b] is None {
                1nat
            } else {
                0nat
            },
    );
    assert(forall|i: int| 0 <= i < ua.len() ==> #[trigger] ua[i] <= ub[i]);
    lemma_total_le(ua, ub);
    if e[t] is None {
        lemma_total_lt(ua, ub, t);
    } else {
        assert(ua =~= ub);
        let x = e[t]->0;
        lemma_unset(x.live, new.live);
        lemma_unset(x.active, new.active);
        assert(x.live != new.live || x.active != new.active) by {
            if x.live == new.live && x.active == new.active {
                assert(x =~= new);
            }
        }
        let ra = Seq::new(f.len(), |b: int| slot_unset(f[b]));
        let rb = Seq::new(e.len(), |b: int| slot_unset(e[b]));
        assert forall|i: int| 0 <= i < ra.len() implies #[trigger] ra[i] <= rb[i] by {}
        lemma_total_lt(ra, rb, t);
    }
}

/// The end flow of a justified block is justified at each successor.
proof fn lemma_out_on_paths(cfg: CfgView, f: FlowView, b: int, t: int)
    requires
        flow_ok(cfg, f),
        reachable(cfg, b),
        on_paths(cfg, f, b),
        is_edge(cfg, b, t),
    ensures
        reachable(cfg, t),
        on_paths(cfg, block_flow(cfg, b, f), t),
{
    let stmts = cfg.blocks[b].stmts;
    let n = stmts.len();
    let any = choose|path: Seq<int>| path_to(cfg, path, b);
    lemma_path_extend(cfg, any, b, t);
    lemma_path_ok(cfg, any);
    let out = block_flow(cfg, b, f);
    assert forall|i: int| 0 <= i < cfg.loans.len() && #[trigger] out.live[i] implies live_on_some_path(
        cfg,
        t,
        i,
    ) by {
        let path = if f.live[i] {
            choose|path: Seq<int>|
                path_to(cfg, path, b) && (#[trigger] path_flow(cfg, path)).live[i]
        } else {
            any
        };
        lemma_path_extend(cfg, path, b, t);
        lemma_path_ok(cfg, path);
        lemma_run_bit(cfg, stmts, n, f, path_flow(cfg, path), i);
        assert(path_flow(cfg, path.push(t)).live[i]);
    }
    assert forall|i: int| 0 <= i < cfg.loans.len() && #[trigger] out.active[i] implies
        active_on_some_path(cfg, t, i) by {
        let path = if f.active[i] {
            choose|path: Seq<int>|
                path_to(cfg, path, b) && (#[trigger] path_flow(cfg, path)).active[i]
        } else {
            any
        };
        lemma_path_extend(cfg, path, b, t);
        lemma_path_ok(cfg, path);
        lemma_run_bit(cfg, stmts, n, f, path_flow(cfg, path), i);
        assert(path_flow(cfg, path.push(t)).active[i]);
    }
}

proof fn lemma_path_extend(cfg: CfgView, path: Seq<int>, b: int, t: int)
    requires
        path_to(cfg, path, b),
        is_edge(cfg, b, t),
    ensures
        path_to(cfg, path.push(t), t),
        path_flow(cfg, path.push(t)) == block_flow(cfg, b, path_flow(cfg, path)),
{
    let long = path.push(t);
    assert forall|i: int| 0 <= i < long.len() - 1 implies is_edge(
        cfg,
        #[trigger] long[i],
        long[i + 1],
    ) by {
        if i < path.len() - 1 {
            assert(is_edge(cfg, path[i], path[i + 1]));
        }
    }
    assert(long.drop_last() =~= path);
}

/// A settled table covers every path.
proof fn lemma_paths_covered(cfg: CfgView, e: Seq<Option<FlowView>>, path: Seq<int>)
    requires
        cfg.wf(),
        flows_ok(cfg, e),
        absorbed(cfg, e, Seq::empty()),
        e[cfg.entry.0 as int] is Some,
        is_path(cfg, path),
    ensures
        0 <= path.last() <= u32::MAX,
        path.last() < e.len(),
        e[path.last()] is Some,
        flow_le(path_flow(cfg, path), e[path.last()]->0),
    decreases path.len(),
{
    lemma_path_ok(cfg, path);
    if path.len() == 1 {
        assert(e[cfg.entry.0 as int] matches Some(x) ==> flow_ok(cfg, x));
    } else {
        let init = path.drop_last();
        assert forall|i: int| 0 <= i < init.len() - 1 implies is_edge(
            cfg,
            #[trigger] init[i],
            init[i + 1],
        ) by {
            assert(is_edge(cfg, path[i], path[i + 1]));
        }
        lemma_paths_covered(cfg, e, init);
        let b = path[path.len() - 2];
        assert(init.last() == b);
        assert(is_edge(cfg, b, path[path.len() - 2 + 1]));
        let t = path.last();
        let j = choose|j: int|
            0 <= j < cfg.blocks[b].succs.len() && (#[trigger] cfg.blocks[b].succs[j]).0 as int == t;
        assert(cfg.block_ok(cfg.blocks[b]));
        assert(!Seq::<BlockId>::empty().contains(BlockId(b as u32)));
        assert(took(cfg, e, b, cfg.blocks[b].succs[j].0 as int));
        lemma_path_ok(cfg, init);
        assert(e[b] matches Some(x) ==> flow_ok(cfg, x));
        let stmts = cfg.blocks[b].stmts;
        let x = path_flow(cfg, path);
        let out = block_flow(cfg, b, e[b]->0);
        assert(x == block_flow(cfg, b, path_flow(cfg, init)));
        assert forall|i: int| 0 <= i < x.live.len() && #[trigger] x.live[i] implies (e[t]->0).live[i] by {
            lemma_run_bit(cfg, stmts, stmts.len(), path_flow(cfg, init), e[b]->0, i);
            assert(out.live[i]);
        }
        assert forall|i: int| 0 <= i < x.active.len() && #[trigger] x.active[i] implies (
        e[t]->0).active[i] by {
            lemma_run_bit(cfg, stmts, stmts.len(), path_flow(cfg, init), e[b]->0, i);
            assert(out.active[i]);
        }
    }
}

/// Kill rule (a), gen and activation of one statement.
fn transfer(cfg: &Cfg, stmt: &Stmt, flow: &mut Flow)
    requires
        cfg@.wf(),
        stmt_ok(stmt@, cfg@.places, cfg@.loans.len()),
        flow_ok(cfg@, old(flow)@),
    ensures
        final(flow)@ == transfer_flow(cfg@, stmt@, old(flow)@),
{
    let ghost before = flow@;
    match stmt {
        Stmt::Mutate { place, .. } | Stmt::Move { place, .. } | Stmt::Init { place, .. } => {
            kill_overlapping(cfg, flow, *place, Ghost(stmt@));
        },
        Stmt::Borrow { loan, .. } => {
            let i: usize = loan.0 as usize;
            flow.live.set(i, true);
            if !cfg.loans[i].two_phase {
                flow.active.set(i, true);
            }
            assert(flow@ =~= transfer_flow(cfg@, stmt@, before));
        },
        Stmt::Activate { loan, .. } => {
            flow.active.set(loan.0 as usize, true);
            assert(flow@ =~= transfer_flow(cfg@, stmt@, before));
        },
        _ => {
            assert(flow@ =~= transfer_flow(cfg@, stmt@, before));
        },
    }
}

/// Overwriting or moving a place kills the loans it overlaps.
fn kill_overlapping(cfg: &Cfg, flow: &mut Flow, place: PlaceId, Ghost(st): Ghost<StmtView>)
    requires
        cfg@.wf(),
        cfg@.places.has(place),
        flow_ok(cfg@, old(flow)@),
        forall|i: int|
            #![trigger kills(cfg@, st, i)]
            kills(cfg@, st, i) <==> cfg@.places.overlaps(cfg@.loans[i].place, place),
        forall|i: int| !gens_live(cfg@, st, i) && !gens_active(cfg@, st, i),
    ensures
        final(flow)@ == transfer_flow(cfg@, st, old(flow)@),
{
    let ghost before = flow@;
    let mut i: usize = 0;
    while i < cfg.loans.len()
        invariant
            i <= cfg.loans.len(),
            cfg@.wf(),
            cfg@.places.has(place),
            flow_ok(cfg@, flow@),
            flow_ok(cfg@, before),
            forall|i: int|
                #![trigger kills(cfg@, st, i)]
                kills(cfg@, st, i) <==> cfg@.places.overlaps(cfg@.loans[i].place, place),
            forall|k: int|
                0 <= k < i ==> #[trigger] flow@.live[k] == (before.live[k] && !kills(cfg@, st, k)),
            forall|k: int|
                0 <= k < i ==> #[trigger] flow@.active[k] == (before.active[k] && !kills(
                    cfg@,
                    st,
                    k,
                )),
            forall|k: int| i <= k < flow@.live.len() ==> #[trigger] flow@.live[k] == before.live[k],
            forall|k: int|
                i <= k < flow@.active.len() ==> #[trigger] flow@.active[k] == before.active[k],
        decreases cfg.loans.len() - i,
    {
        assert(cfg@.places.has(cfg@.loans[i as int].place));
        let dead = cfg.places.overlap(cfg.loans[i].place, place);
        assert(dead == kills(cfg@, st, i as int));
        let live: bool = flow.live[i] && !dead;
        let active: bool = flow.active[i] && !dead;
        flow.live.set(i, live);
        flow.active.set(i, active);
        i = i + 1;
    }
    assert(flow@ =~= transfer_flow(cfg@, st, before));
}

/// Run a block's statements.
fn transfer_block(cfg: &Cfg, b: usize, flow: &mut Flow)
    requires
        cfg@.wf(),
        b < cfg.blocks.len(),
        flow_ok(cfg@, old(flow)@),
    ensures
        final(flow)@ == block_flow(cfg@, b as int, old(flow)@),
        flow_ok(cfg@, final(flow)@),
{
    let ghost f0 = flow@;
    let block = &cfg.blocks[b];
    let ghost stmts = cfg@.blocks[b as int].stmts;
    assert(cfg@.block_ok(cfg@.blocks[b as int]));
    let mut j: usize = 0;
    while j < block.stmts.len()
        invariant
            j <= block.stmts.len(),
            cfg@.wf(),
            stmts == block@.stmts,
            forall|k: int|
                0 <= k < stmts.len() ==> stmt_ok(
                    #[trigger] stmts[k],
                    cfg@.places,
                    cfg@.loans.len(),
                ),
            flow_ok(cfg@, flow@),
            flow@ == run_flow(cfg@, stmts, j as nat, f0),
        decreases block.stmts.len() - j,
    {
        assert(stmts[j as int] == block.stmts@[j as int]@);
        transfer(cfg, &block.stmts[j], flow);
        j = j + 1;
    }
}

fn union_bits(a: &Vec<bool>, b: &Vec<bool>) -> (r: Vec<bool>)
    requires
        a.len() == b.len(),
    ensures
        r.len() == a.len(),
        forall|i: int| 0 <= i < r.len() ==> #[trigger] r@[i] == (a@[i] || b@[i]),
{
    let mut out: Vec<bool> = Vec::new();
    let mut i: usize = 0;
    while i < a.len()
        invariant
            i <= a.len() == b.len(),
            out.len() == i,
            forall|k: int| 0 <= k < i ==> #[trigger] out@[k] == (a@[k] || b@[k]),
        decreases a.len() - i,
    {
        out.push(a[i] || b[i]);
        i = i + 1;
    }
    out
}

fn work_contains(work: &Vec<BlockId>, b: BlockId) -> (r: bool)
    ensures
        r == work@.contains(b),
{
    let mut i: usize = 0;
    while i < work.len()
        invariant
            i <= work.len(),
            forall|k: int| 0 <= k < i ==> work@[k] != b,
        decreases work.len() - i,
    {
        if work[i] == b {
            return true;
        }
        i = i + 1;
    }
    false
}

/// Join `flow` into one successor; a changed block joins the worklist.
fn flow_one(
    cfg: &Cfg,
    b: usize,
    succ: BlockId,
    flow: &Flow,
    entry: &mut Vec<Option<Flow>>,
    work: &mut Vec<BlockId>,
)
    requires
        cfg@.wf(),
        b < cfg.blocks.len(),
        succ.0 < cfg@.blocks.len(),
        is_edge(cfg@, b as int, succ.0 as int),
        flow_ok(cfg@, flow@),
        reachable(cfg@, succ.0 as int),
        on_paths(cfg@, flow@, succ.0 as int),
        flows_ok(cfg@, flows_view(old(entry)@)),
        work_ok(cfg@, flows_view(old(entry)@), old(work)@),
        justified(cfg@, flows_view(old(entry)@)),
    ensures
        flows_ok(cfg@, flows_view(final(entry)@)),
        work_ok(cfg@, flows_view(final(entry)@), final(work)@),
        justified(cfg@, flows_view(final(entry)@)),
        grew(flows_view(old(entry)@), old(work)@, flows_view(final(entry)@), final(work)@),
        progressed(flows_view(old(entry)@), old(work)@, flows_view(final(entry)@), final(work)@),
        flows_view(final(entry)@)[succ.0 as int] is Some,
        flow_le(flow@, flows_view(final(entry)@)[succ.0 as int]->0),
{
    let t: usize = succ.0 as usize;
    let ghost e1 = flows_view(entry@);
    let ghost w1 = work@;
    assert(e1[t as int] matches Some(x) ==> flow_ok(cfg@, x));
    let (next, changed) = match &entry[t] {
        None => {
            assert(e1[t as int] is None);
            (copy_flow(flow), true)
        },
        Some(prev) => {
            assert(e1[t as int] == Some(prev@));
            let live = union_bits(&prev.live, &flow.live);
            let active = union_bits(&prev.active, &flow.active);
            let same = same_bits(&live, &prev.live) && same_bits(&active, &prev.active);
            (Flow { live, active }, !same)
        },
    };
    let ghost nv = next@;
    assert(flow_ok(cfg@, nv));
    assert(flow_le(flow@, nv));
    assert(e1[t as int] is Some ==> flow_le(e1[t as int]->0, nv));
    assert(changed == (e1[t as int] != Some(nv))) by {
        if !changed {
            assert(e1[t as int]->0 =~= nv);
        }
    }
    proof {
        if changed {
            lemma_grow_progress(cfg@, e1, t as int, nv);
        }
        assert(justified(cfg@, e1));
        assert(on_paths(cfg@, nv, t as int)) by {
            if e1[t as int] is Some {
                assert(on_paths(cfg@, e1[t as int]->0, t as int));
                assert forall|i: int| 0 <= i < cfg@.loans.len() && #[trigger] nv.live[i] implies
                    live_on_some_path(cfg@, t as int, i) by {
                    if !flow@.live[i] {
                        assert((e1[t as int]->0).live[i]);
                    }
                }
                assert forall|i: int| 0 <= i < cfg@.loans.len() && #[trigger] nv.active[i] implies
                    active_on_some_path(cfg@, t as int, i) by {
                    if !flow@.active[i] {
                        assert((e1[t as int]->0).active[i]);
                    }
                }
            }
        }
    }
    entry.set(t, Some(next));
    let ghost e2 = flows_view(entry@);
    assert(e2 =~= e1.update(t as int, Some(nv)));
    if !changed {
        assert(e2 =~= e1);
    }
    if changed && !work_contains(work, succ) {
        work.push(succ);
    }
    proof {
        let w2 = work@;
        assert forall|k: int| 0 <= k < w2.len() implies (#[trigger] w2[k]).0 < cfg@.blocks.len()
            && e2[w2[k].0 as int] is Some by {
            if k < w1.len() {
                assert(w1[k].0 < cfg@.blocks.len() && e1[w1[k].0 as int] is Some);
            }
        }
        assert forall|x: BlockId| #[trigger] w1.contains(x) implies w2.contains(x) by {
            let k = choose|k: int| 0 <= k < w1.len() && w1[k] == x;
            assert(w2[k] == x);
        }
        if changed {
            if !w1.contains(succ) {
                assert(w2[w1.len() as int] == succ);
            }
            assert(w2.contains(succ));
        }
        assert(BlockId(t as u32) == succ);
        assert forall|c: int| 0 <= c < e1.len() && #[trigger] e1[c] is Some implies e2[c] is Some
            && flow_le(e1[c]->0, e2[c]->0) by {
            assert(e1[c] matches Some(x) ==> flow_ok(cfg@, x));
        }
        assert forall|c: int| 0 <= c < e2.len() && #[trigger] e2[c] is Some implies reachable(
            cfg@,
            c,
        ) && on_paths(cfg@, e2[c]->0, c) by {
            if c != t as int {
                assert(e1[c] is Some);
            }
        }
        if !changed {
            assert(flows_ok(cfg@, e2));
        }
    }
}

proof fn lemma_grew_trans(
    a: Seq<Option<FlowView>>,
    wa: Seq<BlockId>,
    b: Seq<Option<FlowView>>,
    wb: Seq<BlockId>,
    c: Seq<Option<FlowView>>,
    wc: Seq<BlockId>,
)
    requires
        grew(a, wa, b, wb),
        grew(b, wb, c, wc),
        progressed(a, wa, b, wb),
        progressed(b, wb, c, wc),
    ensures
        grew(a, wa, c, wc),
        progressed(a, wa, c, wc),
{
    assert forall|k: int| 0 <= k < a.len() && #[trigger] a[k] is Some implies c[k] is Some
        && flow_le(a[k]->0, c[k]->0) by {
        assert(b[k] is Some && flow_le(a[k]->0, b[k]->0));
        assert(flow_le(b[k]->0, c[k]->0));
        let x = a[k]->0;
        let z = c[k]->0;
        assert forall|i: int| 0 <= i < x.live.len() && #[trigger] x.live[i] implies z.live[i] by {
            assert((b[k]->0).live[i]);
        }
        assert forall|i: int| 0 <= i < x.active.len() && #[trigger] x.active[i] implies z.active[i] by {
            assert((b[k]->0).active[i]);
        }
    }
    assert forall|k: int| 0 <= k < a.len() && #[trigger] c[k] != a[k] implies k <= u32::MAX
        && wc.contains(BlockId(k as u32)) by {
        if b[k] != a[k] {
            assert(wb.contains(BlockId(k as u32)));
        } else {
            assert(c[k] != b[k]);
        }
    }
    assert forall|x: BlockId| #[trigger] wa.contains(x) implies wc.contains(x) by {
        assert(wb.contains(x));
    }
}

/// Flow a block's end into all its successors.
fn flow_all(
    cfg: &Cfg,
    b: usize,
    flow: &Flow,
    entry: &mut Vec<Option<Flow>>,
    work: &mut Vec<BlockId>,
)
    requires
        cfg@.wf(),
        b < cfg.blocks.len(),
        flows_ok(cfg@, flows_view(old(entry)@)),
        work_ok(cfg@, flows_view(old(entry)@), old(work)@),
        justified(cfg@, flows_view(old(entry)@)),
        flows_view(old(entry)@)[b as int] is Some,
        flow@ == block_flow(cfg@, b as int, flows_view(old(entry)@)[b as int]->0),
        flow_ok(cfg@, flow@),
    ensures
        flows_ok(cfg@, flows_view(final(entry)@)),
        work_ok(cfg@, flows_view(final(entry)@), final(work)@),
        justified(cfg@, flows_view(final(entry)@)),
        grew(flows_view(old(entry)@), old(work)@, flows_view(final(entry)@), final(work)@),
        progressed(flows_view(old(entry)@), old(work)@, flows_view(final(entry)@), final(work)@),
        forall|j: int|
            0 <= j < cfg@.blocks[b as int].succs.len() ==> {
                let t = (#[trigger] cfg@.blocks[b as int].succs[j]).0 as int;
                flows_view(final(entry)@)[t] is Some && flow_le(
                    flow@,
                    flows_view(final(entry)@)[t]->0,
                )
            },
{
    let ghost e0 = flows_view(entry@);
    let ghost w0 = work@;
    let block = &cfg.blocks[b];
    let ghost succs = cfg@.blocks[b as int].succs;
    assert(cfg@.block_ok(cfg@.blocks[b as int]));
    proof {
        assert(e0[b as int] matches Some(x) ==> flow_ok(cfg@, x));
        assert(justified(cfg@, e0));
        assert forall|c: int| 0 <= c < e0.len() && #[trigger] e0[c] is Some implies flow_le(
            e0[c]->0,
            e0[c]->0,
        ) by {}
    }
    let mut j: usize = 0;
    while j < block.succs.len()
        invariant
            j <= block.succs.len(),
            cfg@.wf(),
            b < cfg.blocks.len(),
            succs == block.succs@,
            succs == cfg@.blocks[b as int].succs,
            forall|k: int| 0 <= k < succs.len() ==> (#[trigger] succs[k]).0 < cfg@.blocks.len(),
            flow_ok(cfg@, flow@),
            flows_ok(cfg@, e0),
            justified(cfg@, e0),
            e0[b as int] is Some,
            flow@ == block_flow(cfg@, b as int, e0[b as int]->0),
            flows_ok(cfg@, flows_view(entry@)),
            work_ok(cfg@, flows_view(entry@), work@),
            justified(cfg@, flows_view(entry@)),
            grew(e0, w0, flows_view(entry@), work@),
            progressed(e0, w0, flows_view(entry@), work@),
            forall|k: int|
                0 <= k < j ==> {
                    let t = (#[trigger] succs[k]).0 as int;
                    flows_view(entry@)[t] is Some && flow_le(flow@, flows_view(entry@)[t]->0)
                },
        decreases block.succs.len() - j,
    {
        let succ = block.succs[j];
        let ghost t = succ.0 as int;
        assert(succs[j as int] == succ);
        proof {
            assert(cfg@.blocks[b as int].succs[j as int].0 as int == t);
            assert(is_edge(cfg@, b as int, t));
            assert(e0[b as int] matches Some(x) ==> flow_ok(cfg@, x));
            lemma_out_on_paths(cfg@, e0[b as int]->0, b as int, t);
        }
        let ghost e1 = flows_view(entry@);
        let ghost w1 = work@;
        flow_one(cfg, b, succ, flow, entry, work);
        let ghost e2 = flows_view(entry@);
        proof {
            lemma_grew_trans(e0, w0, e1, w1, e2, work@);
            assert forall|k: int| 0 <= k < j + 1 implies {
                let t = (#[trigger] succs[k]).0 as int;
                e2[t] is Some && flow_le(flow@, e2[t]->0)
            } by {
                if k < j {
                    let u = succs[k].0 as int;
                    assert(e1[u] is Some && flow_le(flow@, e1[u]->0));
                    assert(flow_le(e1[u]->0, e2[u]->0));
                    let x = e2[u]->0;
                    assert forall|i: int| 0 <= i < flow@.live.len() && #[trigger] flow@.live[i] implies
                        x.live[i] by {
                        assert((e1[u]->0).live[i]);
                    }
                    assert forall|i: int|
                        0 <= i < flow@.active.len() && #[trigger] flow@.active[i] implies
                        x.active[i] by {
                        assert((e1[u]->0).active[i]);
                    }
                }
            }
        }
        j = j + 1;
    }
}

/// One worklist step keeps blocks off the worklist absorbed.
proof fn lemma_absorbed_step(
    cfg: CfgView,
    e: Seq<Option<FlowView>>,
    work: Seq<BlockId>,
    f: Seq<Option<FlowView>>,
    next: Seq<BlockId>,
)
    requires
        cfg.wf(),
        flows_ok(cfg, e),
        work_ok(cfg, e, work),
        work.len() > 0,
        absorbed(cfg, e, work),
        flows_ok(cfg, f),
        grew(e, work.drop_last(), f, next),
        ({
            let b = work.last().0 as int;
            forall|j: int|
                0 <= j < cfg.blocks[b].succs.len() ==> {
                    let t = (#[trigger] cfg.blocks[b].succs[j]).0 as int;
                    f[t] is Some && flow_le(block_flow(cfg, b, e[b]->0), f[t]->0)
                }
        }),
    ensures
        absorbed(cfg, f, next),
{
    let bi = work.last().0 as int;
    let rest = work.drop_last();
    assert forall|c: int, j: int|
        0 <= c < f.len() && f[c] is Some && !next.contains(BlockId(c as u32)) && c <= u32::MAX && 0
            <= j < cfg.blocks[c].succs.len() implies took(
        cfg,
        f,
        c,
        (#[trigger] cfg.blocks[c].succs[j]).0 as int,
    ) by {
        let t = cfg.blocks[c].succs[j].0 as int;
        assert(cfg.block_ok(cfg.blocks[c]));
        assert(f[c] == e[c]);
        if c != bi {
            assert(!work.contains(BlockId(c as u32))) by {
                if work.contains(BlockId(c as u32)) {
                    let k = choose|k: int| 0 <= k < work.len() && work[k] == BlockId(c as u32);
                    assert(k < work.len() - 1);
                    assert(rest[k] == BlockId(c as u32));
                    assert(rest.contains(BlockId(c as u32)));
                }
            }
            assert(took(cfg, e, c, t));
            assert(e[t] is Some && flow_le(e[t]->0, f[t]->0));
            let r = block_flow(cfg, c, e[c]->0);
            let x = f[t]->0;
            assert forall|i: int| 0 <= i < r.live.len() && #[trigger] r.live[i] implies x.live[i] by {
                assert((e[t]->0).live[i]);
            }
            assert forall|i: int| 0 <= i < r.active.len() && #[trigger] r.active[i] implies
                x.active[i] by {
                assert((e[t]->0).active[i]);
            }
        }
    }
}

/// The forward loan flow, to the fixpoint.
fn solve_flow(cfg: &Cfg) -> (entry: Vec<Option<Flow>>)
    requires
        cfg@.wf(),
    ensures
        entry.len() == cfg.blocks.len(),
        forall|b: int|
            0 <= b < entry.len() ==> {
                let f = #[trigger] flows_view(entry@)[b];
                if reachable(cfg@, b) {
                    f == Some(entry_flow(cfg@, b))
                } else {
                    f is None
                }
            },
{
    let n: usize = cfg.blocks.len();
    let start: usize = cfg.entry.0 as usize;
    let mut entry: Vec<Option<Flow>> = Vec::new();
    let mut k: usize = 0;
    while k < n
        invariant
            k <= n,
            entry.len() == k,
            forall|b: int|
                0 <= b < k ==> #[trigger] flows_view(entry@)[b] == if b == start as int {
                    Some(no_loans(cfg@))
                } else {
                    None::<FlowView>
                },
        decreases n - k,
    {
        let ghost prior = entry@;
        if k == start {
            let f = Flow { live: zeros(cfg.loans.len()), active: zeros(cfg.loans.len()) };
            assert(f@ =~= no_loans(cfg@));
            entry.push(Some(f));
        } else {
            entry.push(None);
        }
        assert forall|b: int| 0 <= b < k + 1 implies #[trigger] flows_view(entry@)[b] == if b
            == start as int {
            Some(no_loans(cfg@))
        } else {
            None::<FlowView>
        } by {
            if b < k {
                assert(flows_view(prior)[b] == flows_view(entry@)[b]);
            }
        }
        k = k + 1;
    }
    let mut work: Vec<BlockId> = Vec::new();
    work.push(cfg.entry);
    proof {
        let e = flows_view(entry@);
        let first = seq![cfg@.entry.0 as int];
        assert(path_to(cfg@, first, start as int));
        assert(reachable(cfg@, start as int));
        assert forall|b: int| 0 <= b < e.len() && #[trigger] e[b] is Some implies reachable(
            cfg@,
            b,
        ) && on_paths(cfg@, e[b]->0, b) by {
            assert(b == start as int);
        }
        assert(work@[0] == cfg.entry);
        assert forall|b: int, j: int|
            0 <= b < e.len() && e[b] is Some && !work@.contains(BlockId(b as u32)) && b <= u32::MAX
                && 0 <= j < cfg@.blocks[b].succs.len() implies took(
            cfg@,
            e,
            b,
            (#[trigger] cfg@.blocks[b].succs[j]).0 as int,
        ) by {
            assert(b == start as int);
            assert(BlockId(b as u32) == cfg.entry);
        }
        assert(flows_ok(cfg@, e));
    }
    while work.len() > 0
        invariant
            cfg@.wf(),
            flows_ok(cfg@, flows_view(entry@)),
            work_ok(cfg@, flows_view(entry@), work@),
            justified(cfg@, flows_view(entry@)),
            absorbed(cfg@, flows_view(entry@), work@),
            flows_view(entry@)[cfg@.entry.0 as int] is Some,
        decreases unseen(flows_view(entry@)), flow_unset(flows_view(entry@)), work.len(),
    {
        let ghost e = flows_view(entry@);
        let ghost w = work@;
        let at: usize = work.len() - 1;
        let b = work[at];
        assert(w[at as int] == b);
        assert(e[b.0 as int] matches Some(x) ==> flow_ok(cfg@, x));
        let mut flow = match &entry[b.0 as usize] {
            Some(f) => {
                assert(e[b.0 as int] == Some(f@));
                copy_flow(f)
            },
            None => {
                assert(e[b.0 as int] is None);
                Flow { live: Vec::new(), active: Vec::new() }
            },
        };
        transfer_block(cfg, b.0 as usize, &mut flow);
        work.truncate(at);
        assert(work@ =~= w.drop_last());
        assert(work_ok(cfg@, e, work@)) by {
            assert forall|k: int| 0 <= k < work@.len() implies (#[trigger] work@[k]).0
                < cfg@.blocks.len() && e[work@[k].0 as int] is Some by {
                assert(w[k] == work@[k]);
            }
        }
        flow_all(cfg, b.0 as usize, &flow, &mut entry, &mut work);
        proof {
            let f = flows_view(entry@);
            lemma_absorbed_step(cfg@, e, w, f, work@);
            assert(e[cfg@.entry.0 as int] is Some);
        }
    }
    proof {
        let e = flows_view(entry@);
        assert(work@ =~= Seq::empty());
        assert forall|b: int| 0 <= b < entry.len() implies {
            let f = #[trigger] e[b];
            if reachable(cfg@, b) {
                f == Some(entry_flow(cfg@, b))
            } else {
                f is None
            }
        } by {
            if reachable(cfg@, b) {
                let any = choose|path: Seq<int>| path_to(cfg@, path, b);
                lemma_paths_covered(cfg@, e, any);
                assert(e[b] is Some);
                let f = e[b]->0;
                assert(e[b] matches Some(x) ==> flow_ok(cfg@, x));
                assert(on_paths(cfg@, f, b));
                let want = entry_flow(cfg@, b);
                assert forall|i: int| 0 <= i < cfg@.loans.len() implies f.live[i] == want.live[i]
                    && f.active[i] == want.active[i] by {
                    if live_on_some_path(cfg@, b, i) {
                        let path = choose|path: Seq<int>|
                            path_to(cfg@, path, b) && (#[trigger] path_flow(cfg@, path)).live[i];
                        lemma_paths_covered(cfg@, e, path);
                        lemma_path_ok(cfg@, path);
                        assert(path_flow(cfg@, path).live[i]);
                    }
                    if active_on_some_path(cfg@, b, i) {
                        let path = choose|path: Seq<int>|
                            path_to(cfg@, path, b) && (#[trigger] path_flow(cfg@, path)).active[i];
                        lemma_paths_covered(cfg@, e, path);
                        lemma_path_ok(cfg@, path);
                        assert(path_flow(cfg@, path).active[i]);
                    }
                }
                assert(f.live =~= want.live);
                assert(f.active =~= want.active);
            } else if e[b] is Some {
                assert(reachable(cfg@, b));
            }
        }
    }
    entry
}

// ------------------------------------------------------ report sweep --

/// Per statement, last one first: the borrowers live after it.
fn live_after_rev(cfg: &Cfg, b: usize, out: &Vec<bool>) -> (r: Vec<Vec<bool>>)
    requires
        cfg@.wf(),
        b < cfg.blocks.len(),
        out.len() == cfg@.loans.len(),
        forall|i: int| 0 <= i < out.len() ==> #[trigger] out@[i] == live_out(cfg@, b as int, i),
    ensures
        r.len() == cfg@.blocks[b as int].stmts.len(),
        forall|k: int|
            0 <= k < r.len() ==> (#[trigger] r@[k]).len() == cfg@.loans.len() && forall|i: int|
                0 <= i < cfg@.loans.len() ==> #[trigger] r@[k]@[i] == live_after(
                    cfg@,
                    b as int,
                    r.len() - 1 - k,
                    i,
                ),
{
    let block = &cfg.blocks[b];
    let ghost stmts = cfg@.blocks[b as int].stmts;
    assert(cfg@.block_ok(cfg@.blocks[b as int]));
    let mut live = copy_bits(out);
    let mut r: Vec<Vec<bool>> = Vec::new();
    let mut j: usize = block.stmts.len();
    while j > 0
        invariant
            j <= block.stmts.len(),
            b < cfg.blocks.len(),
            stmts == block@.stmts,
            stmts == cfg@.blocks[b as int].stmts,
            forall|k: int|
                0 <= k < stmts.len() ==> stmt_ok(
                    #[trigger] stmts[k],
                    cfg@.places,
                    cfg@.loans.len(),
                ),
            out.len() == cfg@.loans.len(),
            forall|i: int| 0 <= i < out.len() ==> #[trigger] out@[i] == live_out(cfg@, b as int, i),
            live.len() == cfg@.loans.len(),
            forall|i: int|
                0 <= i < live.len() ==> #[trigger] live@[i] == (out@[i] || used_from(
                    cfg@,
                    stmts,
                    j as int,
                    i,
                )),
            r.len() == stmts.len() - j,
            forall|k: int|
                0 <= k < r.len() ==> (#[trigger] r@[k]).len() == cfg@.loans.len() && forall|i: int|
                    0 <= i < cfg@.loans.len() ==> #[trigger] r@[k]@[i] == live_after(
                        cfg@,
                        b as int,
                        stmts.len() - 1 - k,
                        i,
                    ),
        decreases j,
    {
        j = j - 1;
        let ghost before = live@;
        let ghost prior = r@;
        assert(stmts[j as int] == block.stmts@[j as int]@);
        r.push(copy_bits(&live));
        assert forall|k: int| 0 <= k < r.len() implies (#[trigger] r@[k]).len() == cfg@.loans.len()
            && forall|i: int|
            0 <= i < cfg@.loans.len() ==> #[trigger] r@[k]@[i] == live_after(
                cfg@,
                b as int,
                stmts.len() - 1 - k,
                i,
            ) by {
            if k < prior.len() {
                assert(r@[k] == prior[k]);
            } else {
                assert(stmts.len() - 1 - k == j);
                assert(r@[k]@ == before);
            }
        }
        mark_borrower(cfg, &block.stmts[j], &mut live);
        assert forall|i: int| 0 <= i < live.len() implies #[trigger] live@[i] == (out@[i]
            || used_from(cfg@, stmts, j as int, i)) by {
            lemma_used_step(cfg@, stmts, j as int, i);
            assert(before[i] == (out@[i] || used_from(cfg@, stmts, j + 1, i)));
        }
    }
    r
}

/// The bits hold the predicate.
spec fn bits_are(cfg: CfgView, bits: Seq<bool>, p: spec_fn(int) -> bool) -> bool {
    bits.len() == cfg.loans.len() && forall|i: int|
        0 <= i < bits.len() ==> #[trigger] bits[i] == p(i)
}

fn word_conflict(cfg: &Cfg, at: Span, message: String, i: usize) -> (d: Diagnostic)
    requires
        i < cfg.loans.len(),
    ensures
        d@ == loan_diag(cfg@, at, message@, i as int),
{
    Diagnostic::error(Code::E1002, at, message).with_label(
        lit("conflicting access"),
    ).with_secondary(cfg.loans[i].origin, lit("the value is lent here")).with_note(lit(NOTE_NEEDED))
}

/// Report the conflicts of one access.
fn conflicts(
    cfg: &Cfg,
    flow: &Flow,
    needed: &Vec<bool>,
    place: PlaceId,
    at: Span,
    write: bool,
    diags: &mut Vec<Diagnostic>,
    Ghost(p): Ghost<spec_fn(int) -> bool>,
)
    requires
        cfg@.wf(),
        cfg@.places.has(place),
        flow_ok(cfg@, flow@),
        bits_are(cfg@, needed@, p),
    ensures
        diag_views(final(diags)@) == diag_views(old(diags)@) + access_diags(
            cfg@,
            flow@,
            p,
            place,
            at,
            write,
            cfg@.loans.len(),
        ),
{
    let ghost before = diag_views(diags@);
    let mut i: usize = 0;
    assert(before =~= before + access_diags(cfg@, flow@, p, place, at, write, 0));
    while i < cfg.loans.len()
        invariant
            i <= cfg.loans.len(),
            cfg@.wf(),
            cfg@.places.has(place),
            flow_ok(cfg@, flow@),
            bits_are(cfg@, needed@, p),
            diag_views(diags@) == before + access_diags(
                cfg@,
                flow@,
                p,
                place,
                at,
                write,
                i as nat,
            ),
        decreases cfg.loans.len() - i,
    {
        let loan = cfg.loans[i];
        assert(cfg@.places.has(cfg@.loans[i as int].place));
        assert(needed@[i as int] == p(i as int));
        if flow.live[i] && needed[i] && cfg.places.overlap(loan.place, place) && (write || (loan.kind
            == LoanKind::Unique && flow.active[i])) {
            let what = cfg.show_place(place);
            let lent = cfg.show_place(loan.place);
            let verb = if write { "changed" } else { "read" };
            let d = word_conflict(
                cfg,
                at,
                lit("`").concat(what.as_str()).concat("` cannot be ").concat(verb).concat(
                    " while `",
                ).concat(lent.as_str()).concat("` is lent out"),
                i,
            );
            proof {
                lemma_diag_views_push(diags@, d);
            }
            diags.push(d);
        }
        i = i + 1;
        assert(diag_views(diags@) =~= before + access_diags(
            cfg@,
            flow@,
            p,
            place,
            at,
            write,
            i as nat,
        ));
    }
}

/// Report the conflicts of a new borrow.
fn borrow_check(
    cfg: &Cfg,
    flow: &Flow,
    needed: &Vec<bool>,
    loan: usize,
    at: Span,
    diags: &mut Vec<Diagnostic>,
    Ghost(p): Ghost<spec_fn(int) -> bool>,
)
    requires
        cfg@.wf(),
        loan < cfg.loans.len(),
        flow_ok(cfg@, flow@),
        bits_are(cfg@, needed@, p),
    ensures
        diag_views(final(diags)@) == diag_views(old(diags)@) + borrow_diags(
            cfg@,
            flow@,
            p,
            loan as int,
            at,
            cfg@.loans.len(),
        ),
{
    let ghost before = diag_views(diags@);
    let new = cfg.loans[loan];
    assert(cfg@.places.has(cfg@.loans[loan as int].place));
    let mut i: usize = 0;
    assert(before =~= before + borrow_diags(cfg@, flow@, p, loan as int, at, 0));
    while i < cfg.loans.len()
        invariant
            i <= cfg.loans.len(),
            cfg@.wf(),
            loan < cfg.loans.len(),
            new == cfg@.loans[loan as int],
            cfg@.places.has(new.place),
            flow_ok(cfg@, flow@),
            bits_are(cfg@, needed@, p),
            diag_views(diags@) == before + borrow_diags(
                cfg@,
                flow@,
                p,
                loan as int,
                at,
                i as nat,
            ),
        decreases cfg.loans.len() - i,
    {
        let prior = cfg.loans[i];
        assert(cfg@.places.has(cfg@.loans[i as int].place));
        assert(needed@[i as int] == p(i as int));
        if i != loan && flow.live[i] && needed[i] && cfg.places.overlap(prior.place, new.place) {
            let both_shared = prior.kind == LoanKind::Shared && new.kind == LoanKind::Shared;
            let reserved = prior.two_phase && !flow.active[i];
            if !both_shared && !(reserved && new.kind == LoanKind::Shared) {
                let lent = cfg.show_place(prior.place);
                let d = word_conflict(
                    cfg,
                    at,
                    lit("`").concat(cfg.show_place(new.place).as_str()).concat(
                        "` is already lent out via `",
                    ).concat(lent.as_str()).concat("`"),
                    i,
                );
                proof {
                    lemma_diag_views_push(diags@, d);
                }
                diags.push(d);
            }
        }
        i = i + 1;
        assert(diag_views(diags@) =~= before + borrow_diags(
            cfg@,
            flow@,
            p,
            loan as int,
            at,
            i as nat,
        ));
    }
}

fn args_check(
    cfg: &Cfg,
    flow: &Flow,
    needed: &Vec<bool>,
    args: &Vec<(PlaceId, Span)>,
    write: bool,
    diags: &mut Vec<Diagnostic>,
    Ghost(p): Ghost<spec_fn(int) -> bool>,
)
    requires
        cfg@.wf(),
        args_ok(cfg@.places, args@),
        flow_ok(cfg@, flow@),
        bits_are(cfg@, needed@, p),
    ensures
        diag_views(final(diags)@) == diag_views(old(diags)@) + args_diags(
            cfg@,
            flow@,
            p,
            args@,
            write,
            args.len() as nat,
        ),
{
    let ghost before = diag_views(diags@);
    let mut i: usize = 0;
    assert(before =~= before + args_diags(cfg@, flow@, p, args@, write, 0));
    while i < args.len()
        invariant
            i <= args.len(),
            cfg@.wf(),
            args_ok(cfg@.places, args@),
            flow_ok(cfg@, flow@),
            bits_are(cfg@, needed@, p),
            diag_views(diags@) == before + args_diags(cfg@, flow@, p, args@, write, i as nat),
        decreases args.len() - i,
    {
        let a = args[i];
        conflicts(cfg, flow, needed, a.0, a.1, write, diags, Ghost(p));
        i = i + 1;
        assert(diag_views(diags@) =~= before + args_diags(cfg@, flow@, p, args@, write, i as nat));
    }
}

/// Report the conflicts of one statement.
fn stmt_check(
    cfg: &Cfg,
    flow: &Flow,
    needed: &Vec<bool>,
    stmt: &Stmt,
    diags: &mut Vec<Diagnostic>,
    Ghost(p): Ghost<spec_fn(int) -> bool>,
)
    requires
        cfg@.wf(),
        stmt_ok(stmt@, cfg@.places, cfg@.loans.len()),
        flow_ok(cfg@, flow@),
        bits_are(cfg@, needed@, p),
    ensures
        diag_views(final(diags)@) == diag_views(old(diags)@) + stmt_diags(
            cfg@,
            flow@,
            p,
            stmt@,
        ),
{
    let ghost before = diag_views(diags@);
    match stmt {
        Stmt::Read { place, span } => {
            conflicts(cfg, flow, needed, *place, *span, false, diags, Ghost(p));
        },
        Stmt::Mutate { place, span } | Stmt::Move { place, span } | Stmt::Init { place, span } => {
            conflicts(cfg, flow, needed, *place, *span, true, diags, Ghost(p));
        },
        Stmt::Call(c) => {
            args_check(cfg, flow, needed, &c.mut_args, true, diags, Ghost(p));
            args_check(cfg, flow, needed, &c.read_args, false, diags, Ghost(p));
            args_check(cfg, flow, needed, &c.take_args, true, diags, Ghost(p));
            assert(diag_views(diags@) =~= before + stmt_diags(cfg@, flow@, p, stmt@));
        },
        Stmt::Borrow { loan, span } => {
            borrow_check(cfg, flow, needed, loan.0 as usize, *span, diags, Ghost(p));
        },
        _ => {
            assert(before =~= before + stmt_diags(cfg@, flow@, p, stmt@));
        },
    }
}

/// Report the conflicts of one reachable block.
fn block_check(cfg: &Cfg, b: usize, first: &Flow, out: &Vec<bool>, diags: &mut Vec<Diagnostic>)
    requires
        cfg@.wf(),
        b < cfg.blocks.len(),
        first@ == entry_flow(cfg@, b as int),
        out.len() == cfg@.loans.len(),
        forall|i: int| 0 <= i < out.len() ==> #[trigger] out@[i] == live_out(cfg@, b as int, i),
    ensures
        diag_views(final(diags)@) == diag_views(old(diags)@) + block_diags(
            cfg@,
            b as int,
            cfg@.blocks[b as int].stmts.len(),
        ),
{
    let ghost before = diag_views(diags@);
    let block = &cfg.blocks[b];
    let ghost stmts = cfg@.blocks[b as int].stmts;
    assert(cfg@.block_ok(cfg@.blocks[b as int]));
    let after = live_after_rev(cfg, b, out);
    let mut flow = copy_flow(first);
    let mut j: usize = 0;
    assert(before =~= before + block_diags(cfg@, b as int, 0));
    while j < block.stmts.len()
        invariant
            j <= block.stmts.len(),
            cfg@.wf(),
            b < cfg.blocks.len(),
            stmts == block@.stmts,
            stmts == cfg@.blocks[b as int].stmts,
            forall|k: int|
                0 <= k < stmts.len() ==> stmt_ok(
                    #[trigger] stmts[k],
                    cfg@.places,
                    cfg@.loans.len(),
                ),
            after.len() == stmts.len(),
            forall|k: int|
                0 <= k < after.len() ==> (#[trigger] after@[k]).len() == cfg@.loans.len()
                    && forall|i: int|
                    0 <= i < cfg@.loans.len() ==> #[trigger] after@[k]@[i] == live_after(
                        cfg@,
                        b as int,
                        after.len() - 1 - k,
                        i,
                    ),
            flow_ok(cfg@, flow@),
            flow@ == run_flow(cfg@, stmts, j as nat, entry_flow(cfg@, b as int)),
            diag_views(diags@) == before + block_diags(cfg@, b as int, j as nat),
        decreases block.stmts.len() - j,
    {
        assert(stmts[j as int] == block.stmts@[j as int]@);
        let k: usize = after.len() - 1 - j;
        let ghost p = needed_at(cfg@, b as int, j as int);
        assert(bits_are(cfg@, after@[k as int]@, p)) by {
            let v = after@[k as int];
            assert(v.len() == cfg@.loans.len());
            assert forall|i: int| 0 <= i < v@.len() implies #[trigger] v@[i] == p(i) by {
                assert(after@[k as int]@[i] == live_after(cfg@, b as int, after.len() - 1 - k, i));
            }
        }
        stmt_check(cfg, &flow, &after[k], &block.stmts[j], diags, Ghost(p));
        transfer(cfg, &block.stmts[j], &mut flow);
        j = j + 1;
        assert(diag_views(diags@) =~= before + block_diags(cfg@, b as int, j as nat));
    }
}

/// Report every loan conflict of the graph.
pub fn check(cfg: &Cfg, diags: &mut Vec<Diagnostic>)
    requires
        cfg@.wf(),
    ensures
        diag_views(final(diags)@) == diag_views(old(diags)@) + loan_diags(cfg@),
{
    let bits = solve_live_out(cfg);
    let entry = solve_flow(cfg);
    let ghost before = diag_views(diags@);
    let mut b: usize = 0;
    assert(before =~= before + blocks_diags(cfg@, 0));
    while b < cfg.blocks.len()
        invariant
            b <= cfg.blocks.len(),
            cfg@.wf(),
            bits.len() == cfg.blocks.len(),
            forall|c: int| 0 <= c < bits.len() ==> (#[trigger] bits@[c]).len() == cfg@.loans.len(),
            forall|c: int, i: int|
                0 <= c < bits.len() && 0 <= i < cfg@.loans.len() ==> #[trigger] bits@[c]@[i]
                    == live_out(cfg@, c, i),
            entry.len() == cfg.blocks.len(),
            forall|c: int|
                0 <= c < entry.len() ==> {
                    let f = #[trigger] flows_view(entry@)[c];
                    if reachable(cfg@, c) {
                        f == Some(entry_flow(cfg@, c))
                    } else {
                        f is None
                    }
                },
            diag_views(diags@) == before + blocks_diags(cfg@, b as nat),
        decreases cfg.blocks.len() - b,
    {
        let ghost f = flows_view(entry@)[b as int];
        let ghost prior = diag_views(diags@);
        match &entry[b] {
            Some(first) => {
                assert(f == Some(first@));
                assert(bits@[b as int].len() == cfg@.loans.len());
                block_check(cfg, b, first, &bits[b], diags);
            },
            None => {
                assert(f is None);
                assert(prior =~= prior + Seq::<DiagView>::empty());
            },
        }
        b = b + 1;
        assert(diag_views(diags@) =~= before + blocks_diags(cfg@, b as nat));
    }
}

} // verus!
