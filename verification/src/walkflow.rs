//! Branches, loops and selections of the walk.

use vstd::prelude::*;
use vstd::string::*;

use crate::ast::{Arm, BinOp, Bind, Expr, ExprKind, Pattern, SelectArm};
use crate::cfg::{BlockId, SiteId, Stmt};
use crate::diag::{NotYetView, NotYet, Span};
use crate::lowbind::{binds_in, binds_of, is_checked_int, is_trapping};
use crate::lower::{
    enter_for, open_for, bind_arm, eval_arms, eval_bin, eval_else, eval_for, eval_if, eval_loop,
    eval_match, eval_select, eval_when, eval_while, held_view, lemma_merge_ok, lemma_none_ok, level,
    read_heads, result_ok, select_arms, unit_result, val_result, when_operands,
};
use crate::lowstate::{LoopFrame, Lowerer, Val, ValView, cells_in, lemma_val_kept, stepped};
use crate::lowuse::end_span;
use crate::place::PlaceId;

verus! {

impl<'t> Lowerer<'t> {
    #[verifier::spinoff_prover]
    pub(crate) fn eval_bin(&mut self, d: bool, e: &'t Expr) -> (r: Result<Val, NotYet>)
        requires
            old(self).inv(),
        ensures
            stepped(*old(self), *final(self)),
            result_ok(final(self)@, r),
            (final(self)@, val_result(r)) == eval_bin(old(self).cx, d, old(self)@, *e),
        decreases level(d), e, 1nat,
    {
        proof {
            reveal(eval_bin);
        }
        match &e.kind {
            ExprKind::Bin(op, l, r) => {
                match self.eval_value(d, l) {
                    Err(n) => return Err(n),
                    Ok(_) => {},
                }
                if *op == BinOp::AndAnd || *op == BinOp::OrOr {
                    let cur = self.cur;
                    let rhs = self.new_block();
                    let join = self.new_block();
                    self.goto(cur, rhs);
                    self.goto(cur, join);
                    self.at(rhs);
                    match self.eval_value(d, r) {
                        Err(n) => return Err(n),
                        Ok(_) => {},
                    }
                    let from = self.cur;
                    self.goto(from, join);
                    self.at(join);
                } else {
                    match self.eval_value(d, r) {
                        Err(n) => return Err(n),
                        Ok(_) => {},
                    }
                    if is_trapping(*op) && (is_checked_int(&self.cx, l) || is_checked_int(
                        &self.cx,
                        r,
                    )) {
                        self.push(Stmt::CheckedOp { span: e.span });
                        self.set_trap();
                    }
                }
                proof {
                    lemma_none_ok(self@);
                }
                Ok(Val::none())
            },
            _ => {
                proof {
                    lemma_none_ok(self@);
                }
                Ok(Val::none())
            },
        }
    }

    #[verifier::spinoff_prover]
    pub(crate) fn eval_if(&mut self, d: bool, e: &'t Expr) -> (r: Result<Val, NotYet>)
        requires
            old(self).inv(),
        ensures
            stepped(*old(self), *final(self)),
            result_ok(final(self)@, r),
            (final(self)@, val_result(r)) == eval_if(old(self).cx, d, old(self)@, *e),
        decreases level(d), e, 1nat,
    {
        proof {
            reveal(eval_if);
        }
        match &e.kind {
            ExprKind::If { cond, then_block, els } => {
                match self.eval_value(d, cond) {
                    Err(n) => return Err(n),
                    Ok(_) => {},
                }
                let fork = self.cur;
                let then_b = self.new_block();
                let join = self.new_block();
                self.goto(fork, then_b);
                self.at(then_b);
                let v = match self.walk_block(d, then_block, true) {
                    Err(n) => return Err(n),
                    Ok(v) => v,
                };
                let mut val = Val::none();
                proof {
                    lemma_none_ok(self@);
                    lemma_merge_ok(self@, val@, v@);
                }
                val.merge(v);
                let ghost had = self@;
                let from = self.cur;
                self.goto(from, join);
                match els {
                    Some(x) => {
                        let else_b = self.new_block();
                        self.goto(fork, else_b);
                        self.at(else_b);
                        let w = match self.eval_value(d, x) {
                            Err(n) => return Err(n),
                            Ok(w) => w,
                        };
                        proof {
                            lemma_val_kept(had, self@, val@);
                            lemma_merge_ok(self@, val@, w@);
                        }
                        val.merge(w);
                        let ghost got = self@;
                        let from = self.cur;
                        self.goto(from, join);
                        self.at(join);
                        proof {
                            lemma_val_kept(got, self@, val@);
                        }
                    },
                    None => {
                        self.goto(fork, join);
                        self.at(join);
                        proof {
                            lemma_val_kept(had, self@, val@);
                        }
                    },
                }
                Ok(val)
            },
            _ => {
                proof {
                    lemma_none_ok(self@);
                }
                Ok(Val::none())
            },
        }
    }

    #[verifier::spinoff_prover]
    pub(crate) fn bind_arm(&mut self, p: &Pattern, scrut: Option<(PlaceId, Span)>, held: Option<&Vec<SiteId>>)
        requires
            old(self).inv(),
            scrut matches Some((pl, _)) ==> old(self)@.places.has(pl),
            held matches Some(h) ==> cells_in(h@, old(self)@.sites.len()),
        ensures
            stepped(*old(self), *final(self)),
            final(self)@ == bind_arm(
                old(self).cx,
                old(self)@,
                binds_of(p),
                0,
                scrut,
                held_view(held),
                false,
            ),
    {
        proof {
            reveal(bind_arm);
        }
        let ghost start = *self;
        let ghost hv = held_view(held);
        let bs = binds_in(p);
        let mut moved = false;
        let mut i: usize = 0;
        while i < bs.len()
            invariant
                i <= bs.len(),
                bs@ == binds_of(p),
                start == *old(self),
                stepped(start, *self),
                hv == held_view(held),
                scrut matches Some((pl, _)) ==> start@.places.has(pl),
                held matches Some(h) ==> cells_in(h@, start@.sites.len()),
                bind_arm(start.cx, start@, bs@, 0, scrut, hv, false) == bind_arm(
                    start.cx,
                    self@,
                    bs@,
                    i as int,
                    scrut,
                    hv,
                    moved,
                ),
            decreases bs.len() - i,
        {
            proof {
                reveal(bind_arm);
            }
            let b = bs[i];
            let l = self.declare_init(b);
            if let Some(h) = held {
                proof {
                    reveal(cells_in);
                }
                self.hold(l.0, h, b.span);
            }
            assert(self@.locals[l.0 as int] == self.locals@[l.0 as int]@);
            let copy = self.locals[l.0 as usize].is_copy;
            if let Some((pl, at)) = scrut {
                if !copy && !moved {
                    self.emit_move(pl, at);
                    moved = true;
                }
            }
            i = i + 1;
        }
    }

    #[verifier::spinoff_prover]
    #[verifier::rlimit(30)]
    pub(crate) fn eval_arms(
        &mut self,
        d: bool,
        arms: &'t Vec<Arm>,
        fan: BlockId,
        join: BlockId,
        scrut: Option<(PlaceId, Span)>,
        held: Option<&Vec<SiteId>>,
    ) -> (r: Result<Val, NotYet>)
        requires
            old(self).inv(),
            fan.0 < old(self)@.blocks.len(),
            join.0 < old(self)@.blocks.len(),
            scrut matches Some((pl, _)) ==> old(self)@.places.has(pl),
            held matches Some(h) ==> cells_in(h@, old(self)@.sites.len()),
        ensures
            stepped(*old(self), *final(self)),
            result_ok(final(self)@, r),
            (final(self)@, val_result(r)) == eval_arms(
                old(self).cx,
                d,
                old(self)@,
                *arms,
                0,
                fan,
                join,
                scrut,
                held_view(held),
                ValView::none(),
            ),
        decreases level(d), arms, 0nat,
    {
        proof {
            reveal(eval_arms);
        }
        let ghost start = *self;
        let ghost hv = held_view(held);
        let mut acc = Val::none();
        proof {
            lemma_none_ok(self@);
        }
        let mut i: usize = 0;
        while i < arms.len()
            invariant
                i <= arms.len(),
                start == *old(self),
                stepped(start, *self),
                self@.val_ok(acc@),
                fan.0 < start@.blocks.len(),
                join.0 < start@.blocks.len(),
                hv == held_view(held),
                scrut matches Some((pl, _)) ==> start@.places.has(pl),
                held matches Some(h) ==> cells_in(h@, start@.sites.len()),
                eval_arms(
                    start.cx,
                    d,
                    start@,
                    *arms,
                    0,
                    fan,
                    join,
                    scrut,
                    hv,
                    ValView::none(),
                ) == eval_arms(
                    start.cx,
                    d,
                    self@,
                    *arms,
                    i as nat,
                    fan,
                    join,
                    scrut,
                    hv,
                    acc@,
                ),
            decreases arms.len() - i,
        {
            proof {
                reveal(eval_arms);
            }
            let ghost before = self@;
            let arm = &arms[i];
            let b = self.new_block();
            self.goto(fan, b);
            self.at(b);
            self.push_scope();
            if let Some(p) = &arm.pattern {
                proof {
                    reveal(cells_in);
                }
                self.bind_arm(p, scrut, held);
            }
            if let Some(g) = &arm.guard {
                match self.eval_value(d, g) {
                    Err(n) => return Err(n),
                    Ok(_) => {},
                }
            }
            proof {
                lemma_val_kept(before, self@, acc@);
            }
            if let Some(x) = &arm.body {
                match self.eval_value(d, x) {
                    Err(n) => return Err(n),
                    Ok(v) => {
                        proof {
                            lemma_val_kept(before, self@, acc@);
                            lemma_merge_ok(self@, acc@, v@);
                        }
                        acc.merge(v);
                    },
                }
            }
            let ghost had = self@;
            match self.close_scope(d, end_span(arm.span)) {
                Err(n) => return Err(n),
                Ok(_) => {},
            }
            let from = self.cur;
            self.goto(from, join);
            proof {
                lemma_val_kept(had, self@, acc@);
            }
            i = i + 1;
        }
        let ghost had = self@;
        self.at(join);
        proof {
            lemma_val_kept(had, self@, acc@);
        }
        Ok(acc)
    }

    #[verifier::spinoff_prover]
    pub(crate) fn eval_match(&mut self, d: bool, e: &'t Expr) -> (r: Result<Val, NotYet>)
        requires
            old(self).inv(),
        ensures
            stepped(*old(self), *final(self)),
            result_ok(final(self)@, r),
            (final(self)@, val_result(r)) == eval_match(old(self).cx, d, old(self)@, *e),
        decreases level(d), e, 1nat,
    {
        proof {
            reveal(eval_match);
        }
        match &e.kind {
            ExprKind::Match { scrutinee, arms } => match self.as_place(d, scrutinee) {
                Some((p, _)) => {
                    self.emit_read(p, scrutinee.span);
                    let held = self.val_of(p, scrutinee.span);
                    let fan = self.cur;
                    let join = self.new_block();
                    self.eval_arms(
                        d,
                        arms,
                        fan,
                        join,
                        Some((p, scrutinee.span)),
                        Some(&held.sites),
                    )
                },
                None => {
                    match self.eval_value(d, scrutinee) {
                        Err(n) => return Err(n),
                        Ok(_) => {},
                    }
                    let fan = self.cur;
                    let join = self.new_block();
                    self.eval_arms(d, arms, fan, join, None, None)
                },
            },
            _ => {
                proof {
                    lemma_none_ok(self@);
                }
                Ok(Val::none())
            },
        }
    }

    #[verifier::spinoff_prover]
    pub(crate) fn eval_while(&mut self, d: bool, e: &'t Expr) -> (r: Result<Val, NotYet>)
        requires
            old(self).inv(),
        ensures
            stepped(*old(self), *final(self)),
            result_ok(final(self)@, r),
            (final(self)@, val_result(r)) == eval_while(old(self).cx, d, old(self)@, *e),
        decreases level(d), e, 1nat,
    {
        proof {
            reveal(eval_while);
        }
        match &e.kind {
            ExprKind::While { cond, body } => {
                let from = self.cur;
                let head = self.new_block();
                self.goto(from, head);
                self.at(head);
                match self.eval_value(d, cond) {
                    Err(n) => return Err(n),
                    Ok(_) => {},
                }
                let fork = self.cur;
                let inner = self.new_block();
                let exit = self.new_block();
                self.goto(fork, inner);
                self.goto(fork, exit);
                self.at(inner);
                let depth: usize = self.scopes.len();
                self.push_loop(LoopFrame { break_to: exit, continue_to: head, depth });
                match self.walk_block(d, body, false) {
                    Err(n) => return Err(n),
                    Ok(_) => {},
                }
                self.pop_loop();
                let from = self.cur;
                self.goto(from, head);
                self.at(exit);
                proof {
                    lemma_none_ok(self@);
                }
                Ok(Val::none())
            },
            _ => {
                proof {
                    lemma_none_ok(self@);
                }
                Ok(Val::none())
            },
        }
    }

    #[verifier::spinoff_prover]
    pub(crate) fn enter_for(&mut self, d: bool, x: &'t Expr) -> (r: Result<bool, NotYet>)
        requires
            old(self).inv(),
        ensures
            stepped(*old(self), *final(self)),
            (final(self)@, bool_result(r)) == enter_for(old(self).cx, d, old(self)@, *x),
            r == Ok::<bool, NotYet>(true) ==> final(self)@.claims.len() > old(self)@.claims.len(),
        decreases level(d), x, 4nat,
    {
        proof {
            reveal(enter_for);
        }
        match self.as_place(d, x) {
            Some((p, _)) => {
                self.emit_read(p, x.span);
                if self.places.is_copy(p) {
                    Ok(false)
                } else {
                    self.push_claim(p, x.span);
                    Ok(true)
                }
            },
            None => match self.eval_value(d, x) {
                Err(n) => Err(n),
                Ok(_) => Ok(false),
            },
        }
    }

    #[verifier::spinoff_prover]
    pub(crate) fn open_for(&mut self, pattern: &Option<Pattern>) -> (r: LoopFrame)
        requires
            old(self).inv(),
        ensures
            stepped(*old(self), *final(self)),
            final(self)@ == open_for(old(self).cx, old(self)@, *pattern),
            final(self)@.loops.len() > old(self)@.loops.len(),
            final(self)@.scopes.len() > old(self)@.scopes.len(),
            r == final(self)@.loops.last(),
            r.break_to.0 < final(self)@.blocks.len(),
            r.continue_to.0 < final(self)@.blocks.len(),
    {
        let from = self.cur;
        let head = self.new_block();
        self.goto(from, head);
        let inner = self.new_block();
        let exit = self.new_block();
        self.goto(head, inner);
        self.goto(head, exit);
        self.at(inner);
        self.push_scope();
        if let Some(p) = pattern {
            self.declare_pattern(p);
        }
        let depth: usize = self.scopes.len();
        let frame = LoopFrame { break_to: exit, continue_to: head, depth };
        self.push_loop(frame);
        frame
    }

    #[verifier::spinoff_prover]
    pub(crate) fn eval_for(&mut self, d: bool, e: &'t Expr) -> (r: Result<Val, NotYet>)
        requires
            old(self).inv(),
        ensures
            stepped(*old(self), *final(self)),
            result_ok(final(self)@, r),
            (final(self)@, val_result(r)) == eval_for(old(self).cx, d, old(self)@, *e),
        decreases level(d), e, 1nat,
    {
        proof {
            reveal(eval_for);
        }
        match &e.kind {
            ExprKind::For { pattern, iterable, body } => {
                let claimed = match self.enter_for(d, iterable) {
                    Err(n) => return Err(n),
                    Ok(c) => c,
                };
                let frame = self.open_for(pattern);
                match self.walk_block(d, body, false) {
                    Err(n) => return Err(n),
                    Ok(_) => {},
                }
                self.pop_loop();
                if claimed {
                    self.pop_claim();
                }
                match self.close_scope(d, end_span(e.span)) {
                    Err(n) => return Err(n),
                    Ok(_) => {},
                }
                let from = self.cur;
                self.goto(from, frame.continue_to);
                self.at(frame.break_to);
                proof {
                    lemma_none_ok(self@);
                }
                Ok(Val::none())
            },
            _ => {
                proof {
                    lemma_none_ok(self@);
                }
                Ok(Val::none())
            },
        }
    }

    #[verifier::spinoff_prover]
    pub(crate) fn eval_loop(&mut self, d: bool, e: &'t Expr) -> (r: Result<Val, NotYet>)
        requires
            old(self).inv(),
        ensures
            stepped(*old(self), *final(self)),
            result_ok(final(self)@, r),
            (final(self)@, val_result(r)) == eval_loop(old(self).cx, d, old(self)@, *e),
        decreases level(d), e, 1nat,
    {
        proof {
            reveal(eval_loop);
        }
        match &e.kind {
            ExprKind::Loop(body) => {
                let from = self.cur;
                let head = self.new_block();
                let exit = self.new_block();
                self.goto(from, head);
                self.at(head);
                let depth: usize = self.scopes.len();
                self.push_loop(LoopFrame { break_to: exit, continue_to: head, depth });
                match self.walk_block(d, body, false) {
                    Err(n) => return Err(n),
                    Ok(_) => {},
                }
                self.pop_loop();
                let from = self.cur;
                self.goto(from, head);
                self.at(exit);
                proof {
                    lemma_none_ok(self@);
                }
                Ok(Val::none())
            },
            _ => {
                proof {
                    lemma_none_ok(self@);
                }
                Ok(Val::none())
            },
        }
    }

    #[verifier::spinoff_prover]
    #[verifier::rlimit(30)]
    pub(crate) fn eval_else(&mut self, d: bool, e: &'t Expr) -> (r: Result<Val, NotYet>)
        requires
            old(self).inv(),
        ensures
            stepped(*old(self), *final(self)),
            result_ok(final(self)@, r),
            (final(self)@, val_result(r)) == eval_else(old(self).cx, d, old(self)@, *e),
        decreases level(d), e, 1nat,
    {
        proof {
            reveal(eval_else);
        }
        match &e.kind {
            ExprKind::Else { scrutinized, handler, fallback } => {
                let v = match self.eval_value(d, scrutinized) {
                    Err(n) => return Err(n),
                    Ok(v) => v,
                };
                let mut val = Val::none();
                proof {
                    lemma_none_ok(self@);
                    lemma_merge_ok(self@, val@, v@);
                }
                val.merge(v);
                let ghost had = self@;
                let fork = self.cur;
                let fb = self.new_block();
                let join = self.new_block();
                self.goto(fork, join);
                self.goto(fork, fb);
                self.at(fb);
                self.push_scope();
                if let Some(p) = handler {
                    self.declare_pattern(p);
                }
                proof {
                    lemma_val_kept(had, self@, val@);
                }
                if let Some(x) = fallback {
                    match self.eval_value(d, x) {
                        Err(n) => return Err(n),
                        Ok(w) => {
                            proof {
                                lemma_val_kept(had, self@, val@);
                                lemma_merge_ok(self@, val@, w@);
                            }
                            val.merge(w);
                        },
                    }
                }
                let ghost got = self@;
                match self.close_scope(d, end_span(e.span)) {
                    Err(n) => return Err(n),
                    Ok(_) => {},
                }
                let from = self.cur;
                self.goto(from, join);
                self.at(join);
                proof {
                    lemma_val_kept(got, self@, val@);
                }
                Ok(val)
            },
            _ => {
                proof {
                    lemma_none_ok(self@);
                }
                Ok(Val::none())
            },
        }
    }

    #[verifier::spinoff_prover]
    pub(crate) fn read_heads(&mut self, d: bool, arms: &'t Vec<SelectArm>) -> (r: Result<(), NotYet>)
        requires
            old(self).inv(),
        ensures
            stepped(*old(self), *final(self)),
            (final(self)@, unit_result(r)) == read_heads(old(self).cx, d, old(self)@, *arms, 0),
        decreases level(d), arms, 0nat,
    {
        proof {
            reveal(read_heads);
        }
        let ghost start = *self;
        let mut i: usize = 0;
        while i < arms.len()
            invariant
                i <= arms.len(),
                start == *old(self),
                stepped(start, *self),
                read_heads(start.cx, d, start@, *arms, 0) == read_heads(
                    start.cx,
                    d,
                    self@,
                    *arms,
                    i as nat,
                ),
            decreases arms.len() - i,
        {
            proof {
                reveal(read_heads);
            }
            if let Some(h) = &arms[i].head {
                match self.read_operand(d, h) {
                    Err(n) => return Err(n),
                    Ok(_) => {},
                }
            }
            i = i + 1;
        }
        Ok(())
    }

    #[verifier::spinoff_prover]
    pub(crate) fn select_arms(&mut self, d: bool, arms: &'t Vec<SelectArm>, fan: BlockId, join: BlockId) -> (r:
        Result<Val, NotYet>)
        requires
            old(self).inv(),
            fan.0 < old(self)@.blocks.len(),
            join.0 < old(self)@.blocks.len(),
        ensures
            stepped(*old(self), *final(self)),
            result_ok(final(self)@, r),
            (final(self)@, val_result(r)) == select_arms(
                old(self).cx,
                d,
                old(self)@,
                *arms,
                0,
                fan,
                join,
            ),
        decreases level(d), arms, 0nat,
    {
        proof {
            reveal(select_arms);
        }
        let ghost start = *self;
        let mut i: usize = 0;
        while i < arms.len()
            invariant
                i <= arms.len(),
                start == *old(self),
                stepped(start, *self),
                fan.0 < start@.blocks.len(),
                join.0 < start@.blocks.len(),
                select_arms(start.cx, d, start@, *arms, 0, fan, join) == select_arms(
                    start.cx,
                    d,
                    self@,
                    *arms,
                    i as nat,
                    fan,
                    join,
                ),
            decreases arms.len() - i,
        {
            proof {
                reveal(select_arms);
            }
            let arm = &arms[i];
            let b = self.new_block();
            self.goto(fan, b);
            self.at(b);
            self.push_scope();
            if let Some(p) = &arm.pattern {
                self.declare_pattern(p);
            }
            if let Some(x) = &arm.body {
                match self.eval_value(d, x) {
                    Err(n) => return Err(n),
                    Ok(_) => {},
                }
            }
            match self.close_scope(d, end_span(arm.span)) {
                Err(n) => return Err(n),
                Ok(_) => {},
            }
            let from = self.cur;
            self.goto(from, join);
            i = i + 1;
        }
        if arms.len() == 0 {
            self.goto(fan, join);
        }
        self.at(join);
        proof {
            lemma_none_ok(self@);
        }
        Ok(Val::none())
    }

    #[verifier::spinoff_prover]
    pub(crate) fn eval_select(&mut self, d: bool, e: &'t Expr) -> (r: Result<Val, NotYet>)
        requires
            old(self).inv(),
        ensures
            stepped(*old(self), *final(self)),
            result_ok(final(self)@, r),
            (final(self)@, val_result(r)) == eval_select(old(self).cx, d, old(self)@, *e),
        decreases level(d), e, 1nat,
    {
        proof {
            reveal(eval_select);
        }
        match &e.kind {
            ExprKind::Select(arms) => {
                match self.read_heads(d, arms) {
                    Err(n) => return Err(n),
                    Ok(_) => {},
                }
                let fan = self.cur;
                let join = self.new_block();
                self.select_arms(d, arms, fan, join)
            },
            _ => {
                proof {
                    lemma_none_ok(self@);
                }
                Ok(Val::none())
            },
        }
    }

    #[verifier::spinoff_prover]
    pub(crate) fn when_operands(&mut self, d: bool, es: &'t Vec<Expr>, rebinds: &Vec<Option<Bind>>) -> (r:
        Result<(), NotYet>)
        requires
            old(self).inv(),
        ensures
            stepped(*old(self), *final(self)),
            (final(self)@, unit_result(r)) == when_operands(
                old(self).cx,
                d,
                old(self)@,
                *es,
                rebinds@,
                0,
            ),
        decreases level(d), es, 0nat,
    {
        proof {
            reveal(when_operands);
        }
        let ghost start = *self;
        let mut i: usize = 0;
        while i < es.len()
            invariant
                i <= es.len(),
                start == *old(self),
                stepped(start, *self),
                when_operands(start.cx, d, start@, *es, rebinds@, 0) == when_operands(
                    start.cx,
                    d,
                    self@,
                    *es,
                    rebinds@,
                    i as nat,
                ),
            decreases es.len() - i,
        {
            proof {
                reveal(when_operands);
            }
            match self.read_operand(d, &es[i]) {
                Err(n) => return Err(n),
                Ok(_) => {},
            }
            if i < rebinds.len() {
                if let Some(b) = &rebinds[i] {
                    let _ = self.declare_init(b);
                }
            }
            i = i + 1;
        }
        Ok(())
    }

    #[verifier::spinoff_prover]
    pub(crate) fn eval_when(&mut self, d: bool, e: &'t Expr) -> (r: Result<Val, NotYet>)
        requires
            old(self).inv(),
        ensures
            stepped(*old(self), *final(self)),
            result_ok(final(self)@, r),
            (final(self)@, val_result(r)) == eval_when(old(self).cx, d, old(self)@, *e),
        decreases level(d), e, 1nat,
    {
        proof {
            reveal(eval_when);
        }
        match &e.kind {
            ExprKind::When { operands, rebinds, body } => {
                self.push_scope();
                match self.when_operands(d, operands, rebinds) {
                    Err(n) => return Err(n),
                    Ok(_) => {},
                }
                let v = match self.walk_block(d, body, true) {
                    Err(n) => return Err(n),
                    Ok(v) => v,
                };
                let ghost had = self@;
                match self.close_scope(d, end_span(e.span)) {
                    Err(n) => return Err(n),
                    Ok(_) => {},
                }
                proof {
                    lemma_val_kept(had, self@, v@);
                }
                Ok(v)
            },
            _ => {
                proof {
                    lemma_none_ok(self@);
                }
                Ok(Val::none())
            },
        }
    }
}

pub open spec fn bool_result(r: Result<bool, NotYet>) -> Result<bool, NotYetView> {
    match r {
        Ok(b) => Ok(b),
        Err(n) => Err(n@),
    }
}

} // verus!
