use wolf_mem::cfg::{Block, BlockId, Cfg, Loan, LoanId, LoanKind, Local, LocalId, Stmt};
use wolf_mem::diag::{Code, Diagnostic, Span};
use wolf_mem::loans::check;
use wolf_mem::place::{Base, Place, PlaceId, PlaceTable};

fn span(lo: u32, hi: u32) -> Span {
    Span { file: 0, lo, hi }
}

struct Builder {
    cfg: Cfg,
}

impl Builder {
    fn new(locals: &[&str]) -> Builder {
        let mut places = PlaceTable::new();
        for (i, _) in locals.iter().enumerate() {
            places.intern(
                Place {
                    base: Base::Local(i as u32),
                    proj: Vec::new(),
                },
                false,
            );
        }
        Builder {
            cfg: Cfg {
                name: "test".to_string(),
                blocks: vec![Block::default()],
                locals: locals
                    .iter()
                    .map(|n| Local {
                        name: n.to_string(),
                        span: span(0, 0),
                        ty: "?".to_string(),
                        is_copy: false,
                        param_mode: None,
                    })
                    .collect(),
                places,
                loans: Vec::new(),
                regions: Vec::new(),
                sites: Vec::new(),
                entry: BlockId(0),
                exit: BlockId(0),
                pattern_moves: Vec::new(),
            },
        }
    }

    fn place(&mut self, local: u32) -> PlaceId {
        self.cfg.places.intern(
            Place {
                base: Base::Local(local),
                proj: Vec::new(),
            },
            false,
        )
    }

    fn block(&mut self) -> BlockId {
        self.cfg.blocks.push(Block::default());
        BlockId(self.cfg.blocks.len() as u32 - 1)
    }

    fn edge(&mut self, from: BlockId, to: BlockId) {
        self.cfg.blocks[from.0 as usize].succs.push(to);
    }

    fn stmt(&mut self, b: BlockId, s: Stmt) {
        self.cfg.blocks[b.0 as usize].stmts.push(s);
    }

    fn loan(&mut self, place: PlaceId, kind: LoanKind, borrower: u32, two_phase: bool) -> u32 {
        self.cfg.loans.push(Loan {
            place,
            kind,
            borrower: LocalId(borrower),
            origin: span(1, 2),
            two_phase,
        });
        self.cfg.loans.len() as u32 - 1
    }

    fn run(&self) -> Vec<Diagnostic> {
        let mut diags = Vec::new();
        check(&self.cfg, &mut diags);
        diags
    }
}

/// A borrow's last use passes
/// before the mutation — loans die at last use, not scope exit.
#[test]
fn nll_case_1_last_use_before_mutation() {
    // let p = &v; use(p); v = …;   — legal
    let mut b = Builder::new(&["v", "p"]);
    let v = b.place(0);
    let l = b.loan(v, LoanKind::Unique, 1, false);
    let b0 = BlockId(0);
    b.stmt(
        b0,
        Stmt::Borrow {
            loan: LoanId(l),
            span: span(1, 2),
        },
    );
    b.stmt(
        b0,
        Stmt::UseBorrower {
            local: LocalId(1),
            span: span(3, 4),
        },
    );
    b.stmt(
        b0,
        Stmt::Init {
            place: v,
            span: span(5, 6),
        },
    );
    assert!(b.run().is_empty(), "loan dead after last use");
}

/// The rejecting counterpart: the borrower is used *after* the
/// mutation, so the write conflicts.
#[test]
fn write_while_loan_needed_rejected() {
    let mut b = Builder::new(&["v", "p"]);
    let v = b.place(0);
    let l = b.loan(v, LoanKind::Unique, 1, false);
    let b0 = BlockId(0);
    b.stmt(
        b0,
        Stmt::Borrow {
            loan: LoanId(l),
            span: span(1, 2),
        },
    );
    b.stmt(
        b0,
        Stmt::Init {
            place: v,
            span: span(3, 4),
        },
    );
    b.stmt(
        b0,
        Stmt::UseBorrower {
            local: LocalId(1),
            span: span(5, 6),
        },
    );
    let diags = b.run();
    assert_eq!(diags.len(), 1);
    assert_eq!(diags[0].code, Code::E1002);
}

/// A loan created and used in one
/// branch does not poison the other branch.
#[test]
fn nll_case_2_branch_local_loan() {
    // if c { let p = &v; use(p); } else { v = …; }
    let mut b = Builder::new(&["v", "p"]);
    let v = b.place(0);
    let l = b.loan(v, LoanKind::Unique, 1, false);
    let b0 = BlockId(0);
    let then_b = b.block();
    let else_b = b.block();
    let join = b.block();
    b.edge(b0, then_b);
    b.edge(b0, else_b);
    b.edge(then_b, join);
    b.edge(else_b, join);
    b.stmt(
        then_b,
        Stmt::Borrow {
            loan: LoanId(l),
            span: span(1, 2),
        },
    );
    b.stmt(
        then_b,
        Stmt::UseBorrower {
            local: LocalId(1),
            span: span(3, 4),
        },
    );
    b.stmt(
        else_b,
        Stmt::Init {
            place: v,
            span: span(5, 6),
        },
    );
    assert!(b.run().is_empty(), "the else branch never sees the loan");
}

/// The loan escapes only on the early-return path, so the mutation on
/// the fall-through path is legal: the loan is not live where the
/// mutation happens.
#[test]
fn nll_case_3_polonius_conditional_escape_accepted() {
    // if c { use(p); return } v = …;
    let mut b = Builder::new(&["v", "p"]);
    let v = b.place(0);
    let l = b.loan(v, LoanKind::Unique, 1, false);
    let b0 = BlockId(0);
    let escape = b.block();
    let fall = b.block();
    b.edge(b0, escape);
    b.edge(b0, fall);
    b.stmt(
        b0,
        Stmt::Borrow {
            loan: LoanId(l),
            span: span(1, 2),
        },
    );
    b.stmt(
        escape,
        Stmt::UseBorrower {
            local: LocalId(1),
            span: span(3, 4),
        },
    );
    b.stmt(
        fall,
        Stmt::Init {
            place: v,
            span: span(5, 6),
        },
    );
    assert!(
        b.run().is_empty(),
        "loans-not-lifetimes accepts the Polonius case"
    );
}

/// Two-phase: a reserved unique loan tolerates reads until its
/// activation, and conflicts with them after.
#[test]
fn two_phase_reserved_reads_ok_active_reads_conflict() {
    let mut b = Builder::new(&["v", "p"]);
    let v = b.place(0);
    let l = b.loan(v, LoanKind::Unique, 1, true);
    let b0 = BlockId(0);
    b.stmt(
        b0,
        Stmt::Borrow {
            loan: LoanId(l),
            span: span(1, 2),
        },
    );
    b.stmt(
        b0,
        Stmt::Read {
            place: v,
            span: span(3, 4),
        },
    ); // reserved: ok
    b.stmt(
        b0,
        Stmt::Activate {
            loan: LoanId(l),
            span: span(5, 6),
        },
    );
    b.stmt(
        b0,
        Stmt::Read {
            place: v,
            span: span(7, 8),
        },
    ); // active: conflict
    b.stmt(
        b0,
        Stmt::UseBorrower {
            local: LocalId(1),
            span: span(9, 10),
        },
    );
    let diags = b.run();
    assert_eq!(diags.len(), 1, "only the post-activation read conflicts");
    assert_eq!(diags[0].span().lo, 7);
}

/// Kill rule (a): overwriting the base ends the loan.
#[test]
fn overwrite_kills_loan() {
    let mut b = Builder::new(&["v", "p"]);
    let v = b.place(0);
    let l = b.loan(v, LoanKind::Unique, 1, false);
    let b0 = BlockId(0);
    b.stmt(
        b0,
        Stmt::Borrow {
            loan: LoanId(l),
            span: span(1, 2),
        },
    );
    // The overwrite itself conflicts (borrower still live)…
    b.stmt(
        b0,
        Stmt::Init {
            place: v,
            span: span(3, 4),
        },
    );
    // …but afterwards the loan is dead: this read is fine.
    b.stmt(
        b0,
        Stmt::Read {
            place: v,
            span: span(5, 6),
        },
    );
    b.stmt(
        b0,
        Stmt::UseBorrower {
            local: LocalId(1),
            span: span(7, 8),
        },
    );
    let diags = b.run();
    assert_eq!(diags.len(), 1);
    assert_eq!(diags[0].span().lo, 3);
}

/// Shared loans coexist; a unique borrow over a live shared loan
/// does not.
#[test]
fn shared_shared_ok_unique_over_shared_rejected() {
    let mut b = Builder::new(&["v", "p", "q"]);
    let v = b.place(0);
    let l1 = b.loan(v, LoanKind::Shared, 1, false);
    let l2 = b.loan(v, LoanKind::Shared, 2, false);
    let b0 = BlockId(0);
    b.stmt(
        b0,
        Stmt::Borrow {
            loan: LoanId(l1),
            span: span(1, 2),
        },
    );
    b.stmt(
        b0,
        Stmt::Borrow {
            loan: LoanId(l2),
            span: span(3, 4),
        },
    );
    b.stmt(
        b0,
        Stmt::UseBorrower {
            local: LocalId(1),
            span: span(5, 6),
        },
    );
    b.stmt(
        b0,
        Stmt::UseBorrower {
            local: LocalId(2),
            span: span(7, 8),
        },
    );
    assert!(b.run().is_empty(), "shared loans coexist");

    let mut b = Builder::new(&["v", "p", "q"]);
    let v = b.place(0);
    let l1 = b.loan(v, LoanKind::Shared, 1, false);
    let l2 = b.loan(v, LoanKind::Unique, 2, false);
    let b0 = BlockId(0);
    b.stmt(
        b0,
        Stmt::Borrow {
            loan: LoanId(l1),
            span: span(1, 2),
        },
    );
    b.stmt(
        b0,
        Stmt::Borrow {
            loan: LoanId(l2),
            span: span(3, 4),
        },
    );
    b.stmt(
        b0,
        Stmt::UseBorrower {
            local: LocalId(2),
            span: span(5, 6),
        },
    );
    b.stmt(
        b0,
        Stmt::UseBorrower {
            local: LocalId(1),
            span: span(7, 8),
        },
    );
    let diags = b.run();
    assert_eq!(diags.len(), 1, "unique over live shared conflicts");
}

/// Loops reach a fixpoint and stay deterministic: the same CFG
/// checks to the same verdict twice.
#[test]
fn loop_fixpoint_deterministic() {
    let mut b = Builder::new(&["v", "p"]);
    let v = b.place(0);
    let l = b.loan(v, LoanKind::Unique, 1, false);
    let b0 = BlockId(0);
    let head = b.block();
    let body = b.block();
    let exit = b.block();
    b.edge(b0, head);
    b.edge(head, body);
    b.edge(head, exit);
    b.edge(body, head);
    b.stmt(
        b0,
        Stmt::Borrow {
            loan: LoanId(l),
            span: span(1, 2),
        },
    );
    b.stmt(
        body,
        Stmt::Init {
            place: v,
            span: span(3, 4),
        },
    );
    b.stmt(
        exit,
        Stmt::UseBorrower {
            local: LocalId(1),
            span: span(5, 6),
        },
    );
    let first = b.run();
    let second = b.run();
    assert_eq!(first.len(), second.len());
    assert_eq!(first.len(), 1, "loop-carried conflict found once");
}
