//! The byte-view lend: what a `List[int]` parameter may do with bytes it was
//! handed as a view rather than a copy.
//! 
//! A view passed to a callee is lent for the call: the callee may read it,
//! and it may not outlive the call. Only a parameter whose every use is a
//! read position, or a re-lend into another such parameter, takes a view;
//! a use that provably outlives the call is warned about, since the bytes
//! are copied there.

use vstd::prelude::*;
use vstd::string::*;
use vstd::utf8::*;

use crate::ast::{
    Arg, Arm, Bind, Binder, Block, Body, BodyKind, Expr, ExprKind, FieldInit, Hole, Owner, Pattern,
    SelectArm, Statement,
};
use crate::diag::{Code, DiagView, Diagnostic, Span, diag_views};
use crate::evaluate::trails;
use crate::lowbind::{binds_in, binds_of};
use crate::package::Package;
use crate::runbase::opt_body;
use crate::runstmt::is_trailing;
use crate::text::{lit, str_eq};
use crate::types::{FnSig, ItemEntry, ItemSig, ParamSig, Prim, TyId, TyKind, TypeTable};

verus! {

/// How long a re-lend chain is followed before the answer is `Opaque`.
pub const MAX_DEPTH: usize = 16;

/// What a callee does with a `List[int]` parameter offered as a view.
#[derive(Debug, Clone, Copy, PartialEq, Eq, Structural)]
pub enum Lend {
    /// Every use is a read: the view may cross the call.
    Lendable,
    /// A use provably outlives the call. The span is that use.
    Escapes(Span),
    /// Some use is outside the modelled surface: the bytes are copied.
    Opaque,
}

/// What a walk of the body found so far.
#[derive(Debug, Clone, Copy, PartialEq, Eq, Structural)]
pub struct Found {
    pub escape: Option<Span>,
    pub opaque: bool,
}

impl Found {
    /// The first escape stands.
    pub open spec fn escapes(self, at: Span) -> Found {
        if self.escape is Some {
            self
        } else {
            Found { escape: Some(at), ..self }
        }
    }

    pub open spec fn hidden(self) -> Found {
        Found { opaque: true, ..self }
    }

    pub open spec fn lend(self) -> Lend {
        match self.escape {
            Some(s) => Lend::Escapes(s),
            None => if self.opaque {
                Lend::Opaque
            } else {
                Lend::Lendable
            },
        }
    }

    fn escaping(self, at: Span) -> (r: Found)
        ensures
            r == self.escapes(at),
    {
        if self.escape.is_some() {
            self
        } else {
            Found { escape: Some(at), opaque: self.opaque }
        }
    }

    fn mark_opaque(self) -> (r: Found)
        ensures
            r == self.hidden(),
    {
        Found { escape: self.escape, opaque: true }
    }

    fn verdict(self) -> (r: Lend)
        ensures
            r == self.lend(),
    {
        match self.escape {
            Some(s) => Lend::Escapes(s),
            None => if self.opaque {
                Lend::Opaque
            } else {
                Lend::Lendable
            },
        }
    }
}

/// The type a byte view has: `List[int]`.
pub open spec fn byte_list(table: TypeTable, ty: TyId) -> bool {
    match table.at(ty) {
        Some(TyKind::List(elem)) => table.at(elem) == Some(TyKind::Prim(Prim::Int)),
        _ => false,
    }
}

/// Is this the type a byte view has?
pub fn is_byte_list(table: &TypeTable, ty: TyId) -> (r: bool)
    ensures
        r == byte_list(*table, ty),
{
    match table.kind(ty) {
        Some(TyKind::List(elem)) => match table.kind(*elem) {
            Some(TyKind::Prim(Prim::Int)) => true,
            _ => false,
        },
        _ => false,
    }
}

pub open spec fn bare(e: Expr) -> Expr {
    match e.kind {
        ExprKind::Paren(inner, _) => *inner,
        _ => e,
    }
}

fn unparen(e: &Expr) -> (r: &Expr)
    ensures
        *r == bare(*e),
{
    match &e.kind {
        ExprKind::Paren(inner, _) => inner,
        _ => e,
    }
}

/// The type behind distinct and wrapping ones, at most `n` steps.
pub open spec fn stripped(table: TypeTable, ty: TyId, n: nat) -> Option<TyKind>
    decreases n,
{
    if n == 0 {
        None
    } else {
        match table.at(ty) {
            Some(TyKind::Distinct(t)) => stripped(table, t, (n - 1) as nat),
            Some(TyKind::Wrapping(t)) => stripped(table, t, (n - 1) as nat),
            k => k,
        }
    }
}

pub open spec fn is_str(table: TypeTable, ty: Option<TyId>) -> bool {
    ty matches Some(id) && stripped(table, id, 16) == Some(TyKind::Prim(Prim::Str))
}

fn strips_to_str(table: &TypeTable, ty: Option<TyId>) -> (r: bool)
    ensures
        r == is_str(*table, ty),
{
    let mut id = match ty {
        Some(id) => id,
        None => return false,
    };
    let ghost first = id;
    let mut n: usize = 16;
    while n > 0
        invariant
            n <= 16,
            ty == Some(first),
            stripped(*table, first, 16) == stripped(*table, id, n as nat),
        decreases n,
    {
        match table.kind(id) {
            Some(TyKind::Distinct(t)) => id = *t,
            Some(TyKind::Wrapping(t)) => id = *t,
            Some(TyKind::Prim(Prim::Str)) => return true,
            _ => return false,
        }
        n = n - 1;
    }
    false
}

/// `<str>.bytes()`: the receiver.
pub open spec fn viewed(body: Body, e: Expr) -> Option<Expr> {
    match e.kind {
        ExprKind::Call { callee, .. } => match callee.kind {
            ExprKind::Member(base, m) => if m@ == "bytes"@ && is_str(body.table, bare(*base).ty) {
                Some(bare(*base))
            } else {
                None
            },
            _ => None,
        },
        _ => None,
    }
}

/// `<str>.bytes()` — the view, with its `str` receiver.
pub fn view_recv<'t>(body: &Body, e: &'t Expr) -> (r: Option<&'t Expr>)
    ensures
        match r {
            Some(x) => viewed(*body, *e) == Some(*x),
            None => viewed(*body, *e) is None,
        },
{
    match &e.kind {
        ExprKind::Call { callee, .. } => match &callee.kind {
            ExprKind::Member(base, m) => {
                let recv = unparen(base);
                if str_eq(m.as_str(), "bytes") && strips_to_str(&body.table, recv.ty) {
                    Some(recv)
                } else {
                    None
                }
            },
            _ => None,
        },
        _ => None,
    }
}

// -------------------------------------------------------------- rebinding --

pub open spec fn pattern_binds(p: Option<Pattern>, name: Seq<char>) -> bool {
    match p {
        Some(q) => exists|i: int|
            0 <= i < binds_of(&q).len() && (#[trigger] binds_of(&q)[i]).name@ == name,
        None => false,
    }
}

fn binds_name(p: &Option<Pattern>, name: &str) -> (r: bool)
    ensures
        r == pattern_binds(*p, name@),
{
    match p {
        Some(q) => {
            let bs = binds_in(q);
            let mut i: usize = 0;
            while i < bs.len()
                invariant
                    i <= bs@.len(),
                    *p == Some(*q),
                    bs@ == binds_of(q),
                    forall|k: int| 0 <= k < i ==> (#[trigger] bs@[k]).name@ != name@,
                decreases bs.len() - i,
            {
                if str_eq(bs[i].name.as_str(), name) {
                    assert(binds_of(q)[i as int].name@ == name@);
                    return true;
                }
                i = i + 1;
            }
            false
        },
        None => false,
    }
}

pub open spec fn bind_is(b: Option<Bind>, name: Seq<char>) -> bool {
    b matches Some(x) && x.name@ == name
}

fn is_bind(b: &Option<Bind>, name: &str) -> (r: bool)
    ensures
        r == bind_is(*b, name@),
{
    match b {
        Some(x) => str_eq(x.name.as_str(), name),
        None => false,
    }
}

pub open spec fn any_named(v: Seq<Bind>, name: Seq<char>) -> bool {
    exists|i: int| 0 <= i < v.len() && (#[trigger] v[i]).name@ == name
}

fn has_named(v: &Vec<Bind>, name: &str) -> (r: bool)
    ensures
        r == any_named(v@, name@),
{
    let mut i: usize = 0;
    while i < v.len()
        invariant
            i <= v@.len(),
            forall|k: int| 0 <= k < i ==> (#[trigger] v@[k]).name@ != name@,
        decreases v.len() - i,
    {
        if str_eq(v[i].name.as_str(), name) {
            assert(v@[i as int].name@ == name@);
            return true;
        }
        i = i + 1;
    }
    false
}

pub open spec fn any_bound(v: Seq<Option<Bind>>, name: Seq<char>) -> bool {
    exists|i: int| 0 <= i < v.len() && bind_is(#[trigger] v[i], name)
}

fn has_bound(v: &Vec<Option<Bind>>, name: &str) -> (r: bool)
    ensures
        r == any_bound(v@, name@),
{
    let mut i: usize = 0;
    while i < v.len()
        invariant
            i <= v@.len(),
            forall|k: int| 0 <= k < i ==> !bind_is(#[trigger] v@[k], name@),
        decreases v.len() - i,
    {
        if is_bind(&v[i], name) {
            assert(bind_is(v@[i as int], name@));
            return true;
        }
        i = i + 1;
    }
    false
}

/// Does anything in the expression bind the name again, or did it before?
pub open spec fn rebinds_expr(word: Seq<char>, st: bool, e: Expr) -> bool
    decreases e, 1nat,
{
    match e.kind {
        ExprKind::Str(hs) => rebinds_holes(word, st, hs, 0),
        ExprKind::Paren(x, _) => rebinds_expr(word, st, *x),
        ExprKind::Member(x, _) => rebinds_expr(word, st, *x),
        ExprKind::Bracket { callee, args, .. } => {
            let st = rebinds_expr(word, st, *callee);
            let st = rebinds_exprs(word, st, args, 0);
            st
        },
        ExprKind::Tuple(es) => rebinds_exprs(word, st, es, 0),
        ExprKind::Block(b) => rebinds_stmts(word, st, b.stmts, 0),
        ExprKind::Prefix(_, x) => rebinds_expr(word, st, *x),
        ExprKind::Bin(_, l, r) => {
            let st = rebinds_expr(word, st, *l);
            let st = rebinds_expr(word, st, *r);
            st
        },
        ExprKind::Cast(x, _) => rebinds_expr(word, st, *x),
        ExprKind::Range { start, end, .. } => {
            let st = match start {
                Some(x) => rebinds_expr(word, st, *x),
                None => st,
            };
            let st = match end {
                Some(x) => rebinds_expr(word, st, *x),
                None => st,
            };
            st
        },
        ExprKind::FromEnd(x) => rebinds_expr(word, st, *x),
        ExprKind::Try(x) => rebinds_expr(word, st, *x),
        ExprKind::Call { callee, args, .. } => {
            let st = rebinds_expr(word, st, *callee);
            let st = rebinds_args(word, st, args, 0);
            st
        },
        ExprKind::StructLit(fs) => rebinds_fields(word, st, fs, 0),
        ExprKind::If { cond, then_block, els } => {
            let st = rebinds_expr(word, st, *cond);
            let st = rebinds_stmts(word, st, then_block.stmts, 0);
            let st = match els {
                Some(x) => rebinds_expr(word, st, *x),
                None => st,
            };
            st
        },
        ExprKind::Match { scrutinee, arms } => {
            let st = rebinds_expr(word, st, *scrutinee);
            let st = rebinds_arms(word, st, arms, 0);
            st
        },
        ExprKind::While { cond, body } => {
            let st = rebinds_expr(word, st, *cond);
            let st = rebinds_stmts(word, st, body.stmts, 0);
            st
        },
        ExprKind::For { pattern, iterable, body } => rebinds_stmts(word, rebinds_expr(word, st || pattern_binds(pattern, word), *iterable), body.stmts, 0),
        ExprKind::Loop(b) => rebinds_stmts(word, st, b.stmts, 0),
        ExprKind::Else { scrutinized, handler, fallback } => (match fallback {
            Some(x) => rebinds_expr(word, rebinds_expr(word, st || pattern_binds(handler, word), *scrutinized), *x),
            None => rebinds_expr(word, st || pattern_binds(handler, word), *scrutinized),
        }),
        ExprKind::Return(x) => {
            let st = match x {
                Some(x) => rebinds_expr(word, st, *x),
                None => st,
            };
            st
        },
        ExprKind::Closure { params, body, .. } => (match body {
            Some(x) => rebinds_expr(word, st || any_named(params@, word), *x),
            None => st || any_named(params@, word),
        }),
        ExprKind::RegionBlock { name: bound, body, .. } => rebinds_stmts(word, st || bind_is(bound, word), body.stmts, 0),
        ExprKind::In { region, body } => {
            let st = match region {
                Some(x) => rebinds_expr(word, st, *x),
                None => st,
            };
            let st = rebinds_stmts(word, st, body.stmts, 0);
            st
        },
        ExprKind::Freeze(x) => rebinds_expr(word, st, *x),
        ExprKind::Unsafe { body, .. } => rebinds_stmts(word, st, body.stmts, 0),
        ExprKind::Scope { name: bound, body } => rebinds_stmts(word, st || bind_is(bound, word), body.stmts, 0),
        ExprKind::Select(arms) => rebinds_selects(word, st, arms, 0),
        ExprKind::When { operands, rebinds, body } => rebinds_stmts(word, rebinds_exprs(word, st || any_bound(rebinds@, word), operands, 0), body.stmts, 0),
        ExprKind::Spawn(args) => rebinds_args(word, st, args, 0),
        ExprKind::Borrow { region, source } => {
            let st = rebinds_expr(word, st, *region);
            let st = rebinds_expr(word, st, *source);
            st
        },
        _ => st,
    }
}

fn seek_expr(word: &str, st: bool, e: &Expr) -> (r: bool)
    ensures
        r == rebinds_expr(word@, st, *e),
    decreases e, 1nat,
{
    match &e.kind {
        ExprKind::Str(hs) => seek_holes(word, st, hs),
        ExprKind::Paren(x, _) => seek_expr(word, st, x),
        ExprKind::Member(x, _) => seek_expr(word, st, x),
        ExprKind::Bracket { callee, args, .. } => {
            let st = seek_expr(word, st, callee);
            let st = seek_exprs(word, st, args);
            st
        },
        ExprKind::Tuple(es) => seek_exprs(word, st, es),
        ExprKind::Block(b) => seek_stmts(word, st, &b.stmts),
        ExprKind::Prefix(_, x) => seek_expr(word, st, x),
        ExprKind::Bin(_, l, r) => {
            let st = seek_expr(word, st, l);
            let st = seek_expr(word, st, r);
            st
        },
        ExprKind::Cast(x, _) => seek_expr(word, st, x),
        ExprKind::Range { start, end, .. } => {
            let st = match start {
                Some(x) => seek_expr(word, st, x),
                None => st,
            };
            let st = match end {
                Some(x) => seek_expr(word, st, x),
                None => st,
            };
            st
        },
        ExprKind::FromEnd(x) => seek_expr(word, st, x),
        ExprKind::Try(x) => seek_expr(word, st, x),
        ExprKind::Call { callee, args, .. } => {
            let st = seek_expr(word, st, callee);
            let st = seek_args(word, st, args);
            st
        },
        ExprKind::StructLit(fs) => seek_fields(word, st, fs),
        ExprKind::If { cond, then_block, els } => {
            let st = seek_expr(word, st, cond);
            let st = seek_stmts(word, st, &then_block.stmts);
            let st = match els {
                Some(x) => seek_expr(word, st, x),
                None => st,
            };
            st
        },
        ExprKind::Match { scrutinee, arms } => {
            let st = seek_expr(word, st, scrutinee);
            let st = seek_arms(word, st, arms);
            st
        },
        ExprKind::While { cond, body } => {
            let st = seek_expr(word, st, cond);
            let st = seek_stmts(word, st, &body.stmts);
            st
        },
        ExprKind::For { pattern, iterable, body } => {
            let st = st || binds_name(pattern, word);
            let st = seek_expr(word, st, iterable);
            seek_stmts(word, st, &body.stmts)
        },
        ExprKind::Loop(b) => seek_stmts(word, st, &b.stmts),
        ExprKind::Else { scrutinized, handler, fallback } => {
            let st = st || binds_name(handler, word);
            let st = seek_expr(word, st, scrutinized);
            match fallback {
                Some(x) => seek_expr(word, st, x),
                None => st,
            }
        },
        ExprKind::Return(x) => {
            let st = match x {
                Some(x) => seek_expr(word, st, x),
                None => st,
            };
            st
        },
        ExprKind::Closure { params, body, .. } => {
            let st = st || has_named(params, word);
            match body {
                Some(x) => seek_expr(word, st, x),
                None => st,
            }
        },
        ExprKind::RegionBlock { name: bound, body, .. } => {
            let st = st || is_bind(bound, word);
            seek_stmts(word, st, &body.stmts)
        },
        ExprKind::In { region, body } => {
            let st = match region {
                Some(x) => seek_expr(word, st, x),
                None => st,
            };
            let st = seek_stmts(word, st, &body.stmts);
            st
        },
        ExprKind::Freeze(x) => seek_expr(word, st, x),
        ExprKind::Unsafe { body, .. } => seek_stmts(word, st, &body.stmts),
        ExprKind::Scope { name: bound, body } => {
            let st = st || is_bind(bound, word);
            seek_stmts(word, st, &body.stmts)
        },
        ExprKind::Select(arms) => seek_selects(word, st, arms),
        ExprKind::When { operands, rebinds, body } => {
            let st = st || has_bound(rebinds, word);
            let st = seek_exprs(word, st, operands);
            seek_stmts(word, st, &body.stmts)
        },
        ExprKind::Spawn(args) => seek_args(word, st, args),
        ExprKind::Borrow { region, source } => {
            let st = seek_expr(word, st, region);
            let st = seek_expr(word, st, source);
            st
        },
        _ => st,
    }
}

pub open spec fn rebinds_stmt(word: Seq<char>, st: bool, s: Statement) -> bool
    decreases s, 0nat,
{
    match s {
        Statement::Expr(e) => rebinds_expr(word, st, e),
        Statement::Bind(bs) => rebinds_binders(word, st, bs, 0),
        Statement::Const { name: bound, init } => (match init {
            Some(x) => rebinds_expr(word, st || bind_is(bound, word), x),
            None => st || bind_is(bound, word),
        }),
        Statement::Assign { place, value, .. } => {
            let st = rebinds_expr(word, st, place);
            let st = rebinds_expr(word, st, value);
            st
        },
        Statement::Defer { expr, .. } => rebinds_expr(word, st, expr),
        Statement::Assume { exprs, .. } => rebinds_exprs(word, st, exprs, 0),
        Statement::Fn { name: bound, params, body, .. } => (match body {
            Some(b) => rebinds_stmts(word, st || bind_is(bound, word) || any_named(params@, word), b.stmts, 0),
            None => st || bind_is(bound, word) || any_named(params@, word),
        }),
        _ => st,
    }
}

fn seek_stmt(word: &str, st: bool, s: &Statement) -> (r: bool)
    ensures
        r == rebinds_stmt(word@, st, *s),
    decreases s, 0nat,
{
    match s {
        Statement::Expr(e) => seek_expr(word, st, e),
        Statement::Bind(bs) => seek_binders(word, st, bs),
        Statement::Const { name: bound, init } => {
            let st = st || is_bind(bound, word);
            match init {
                Some(x) => seek_expr(word, st, x),
                None => st,
            }
        },
        Statement::Assign { place, value, .. } => {
            let st = seek_expr(word, st, place);
            let st = seek_expr(word, st, value);
            st
        },
        Statement::Defer { expr, .. } => seek_expr(word, st, expr),
        Statement::Assume { exprs, .. } => seek_exprs(word, st, exprs),
        Statement::Fn { name: bound, params, body, .. } => {
            let st = st || is_bind(bound, word) || has_named(params, word);
            match body {
                Some(b) => seek_stmts(word, st, &b.stmts),
                None => st,
            }
        },
        _ => st,
    }
}

pub open spec fn rebinds_exprs(word: Seq<char>, st: bool, v: Vec<Expr>, i: nat) -> bool
    decreases v, v@.len() - i,
{
    if i >= v@.len() {
        st
    } else {
        rebinds_exprs(word, rebinds_expr(word, st, v[i as int]), v, i + 1)
    }
}

fn seek_exprs(word: &str, st: bool, v: &Vec<Expr>) -> (r: bool)
    ensures
        r == rebinds_exprs(word@, st, *v, 0),
    decreases v, 0nat,
{
    let ghost first = st;
    let mut st = st;
    let mut i: usize = 0;
    while i < v.len()
        invariant
            i <= v@.len(),
            rebinds_exprs(word@, first, *v, 0) == rebinds_exprs(word@, st, *v, i as nat),
        decreases v.len() - i,
    {
        let next = seek_expr(word, st, &v[i]);
        st = next;
        i = i + 1;
    }
    st
}

pub open spec fn rebinds_args(word: Seq<char>, st: bool, v: Vec<Arg>, i: nat) -> bool
    decreases v, v@.len() - i,
{
    if i >= v@.len() {
        st
    } else {
        rebinds_args(word, rebinds_expr(word, st, v[i as int].value), v, i + 1)
    }
}

fn seek_args(word: &str, st: bool, v: &Vec<Arg>) -> (r: bool)
    ensures
        r == rebinds_args(word@, st, *v, 0),
    decreases v, 0nat,
{
    let ghost first = st;
    let mut st = st;
    let mut i: usize = 0;
    while i < v.len()
        invariant
            i <= v@.len(),
            rebinds_args(word@, first, *v, 0) == rebinds_args(word@, st, *v, i as nat),
        decreases v.len() - i,
    {
        let next = seek_expr(word, st, &v[i].value);
        st = next;
        i = i + 1;
    }
    st
}

pub open spec fn rebinds_fields(word: Seq<char>, st: bool, v: Vec<FieldInit>, i: nat) -> bool
    decreases v, v@.len() - i,
{
    if i >= v@.len() {
        st
    } else {
        rebinds_fields(word, rebinds_expr(word, st, v[i as int].value), v, i + 1)
    }
}

fn seek_fields(word: &str, st: bool, v: &Vec<FieldInit>) -> (r: bool)
    ensures
        r == rebinds_fields(word@, st, *v, 0),
    decreases v, 0nat,
{
    let ghost first = st;
    let mut st = st;
    let mut i: usize = 0;
    while i < v.len()
        invariant
            i <= v@.len(),
            rebinds_fields(word@, first, *v, 0) == rebinds_fields(word@, st, *v, i as nat),
        decreases v.len() - i,
    {
        let next = seek_expr(word, st, &v[i].value);
        st = next;
        i = i + 1;
    }
    st
}

pub open spec fn rebinds_holes(word: Seq<char>, st: bool, v: Vec<Hole>, i: nat) -> bool
    decreases v, v@.len() - i,
{
    if i >= v@.len() {
        st
    } else {
        let st = match v[i as int].expr {
            Some(x) => rebinds_expr(word, st, x),
            None => st,
        };
        rebinds_holes(word, st, v, i + 1)
    }
}

fn seek_holes(word: &str, st: bool, v: &Vec<Hole>) -> (r: bool)
    ensures
        r == rebinds_holes(word@, st, *v, 0),
    decreases v, 0nat,
{
    let ghost first = st;
    let mut st = st;
    let mut i: usize = 0;
    while i < v.len()
        invariant
            i <= v@.len(),
            rebinds_holes(word@, first, *v, 0) == rebinds_holes(word@, st, *v, i as nat),
        decreases v.len() - i,
    {
        let next = {
            let st = match &v[i].expr {
                Some(x) => seek_expr(word, st, x),
                None => st,
            };
            st
        };
        st = next;
        i = i + 1;
    }
    st
}

pub open spec fn rebinds_arms(word: Seq<char>, st: bool, v: Vec<Arm>, i: nat) -> bool
    decreases v, v@.len() - i,
{
    if i >= v@.len() {
        st
    } else {
        rebinds_arms(word, (match v[i as int].body {
            Some(x) => rebinds_expr(word, (match v[i as int].guard {
                Some(x) => rebinds_expr(word, st || pattern_binds(v[i as int].pattern, word), x),
                None => st || pattern_binds(v[i as int].pattern, word),
            }), x),
            None => (match v[i as int].guard {
                Some(x) => rebinds_expr(word, st || pattern_binds(v[i as int].pattern, word), x),
                None => st || pattern_binds(v[i as int].pattern, word),
            }),
        }), v, i + 1)
    }
}

fn seek_arms(word: &str, st: bool, v: &Vec<Arm>) -> (r: bool)
    ensures
        r == rebinds_arms(word@, st, *v, 0),
    decreases v, 0nat,
{
    let ghost first = st;
    let mut st = st;
    let mut i: usize = 0;
    while i < v.len()
        invariant
            i <= v@.len(),
            rebinds_arms(word@, first, *v, 0) == rebinds_arms(word@, st, *v, i as nat),
        decreases v.len() - i,
    {
        let next = {
            let st = st || binds_name(&v[i].pattern, word);
            let st = match &v[i].guard {
                Some(x) => seek_expr(word, st, x),
                None => st,
            };
            let st = match &v[i].body {
                Some(x) => seek_expr(word, st, x),
                None => st,
            };
            st
        };
        st = next;
        i = i + 1;
    }
    st
}

pub open spec fn rebinds_selects(word: Seq<char>, st: bool, v: Vec<SelectArm>, i: nat) -> bool
    decreases v, v@.len() - i,
{
    if i >= v@.len() {
        st
    } else {
        rebinds_selects(word, (match v[i as int].body {
            Some(x) => rebinds_expr(word, (match v[i as int].head {
                Some(x) => rebinds_expr(word, st || pattern_binds(v[i as int].pattern, word), x),
                None => st || pattern_binds(v[i as int].pattern, word),
            }), x),
            None => (match v[i as int].head {
                Some(x) => rebinds_expr(word, st || pattern_binds(v[i as int].pattern, word), x),
                None => st || pattern_binds(v[i as int].pattern, word),
            }),
        }), v, i + 1)
    }
}

fn seek_selects(word: &str, st: bool, v: &Vec<SelectArm>) -> (r: bool)
    ensures
        r == rebinds_selects(word@, st, *v, 0),
    decreases v, 0nat,
{
    let ghost first = st;
    let mut st = st;
    let mut i: usize = 0;
    while i < v.len()
        invariant
            i <= v@.len(),
            rebinds_selects(word@, first, *v, 0) == rebinds_selects(word@, st, *v, i as nat),
        decreases v.len() - i,
    {
        let next = {
            let st = st || binds_name(&v[i].pattern, word);
            let st = match &v[i].head {
                Some(x) => seek_expr(word, st, x),
                None => st,
            };
            let st = match &v[i].body {
                Some(x) => seek_expr(word, st, x),
                None => st,
            };
            st
        };
        st = next;
        i = i + 1;
    }
    st
}

pub open spec fn rebinds_binders(word: Seq<char>, st: bool, v: Vec<Binder>, i: nat) -> bool
    decreases v, v@.len() - i,
{
    if i >= v@.len() {
        st
    } else {
        rebinds_binders(word, (match v[i as int].init {
            Some(x) => rebinds_expr(word, st || pattern_binds(v[i as int].pattern, word), x),
            None => st || pattern_binds(v[i as int].pattern, word),
        }), v, i + 1)
    }
}

fn seek_binders(word: &str, st: bool, v: &Vec<Binder>) -> (r: bool)
    ensures
        r == rebinds_binders(word@, st, *v, 0),
    decreases v, 0nat,
{
    let ghost first = st;
    let mut st = st;
    let mut i: usize = 0;
    while i < v.len()
        invariant
            i <= v@.len(),
            rebinds_binders(word@, first, *v, 0) == rebinds_binders(word@, st, *v, i as nat),
        decreases v.len() - i,
    {
        let next = {
            let st = st || binds_name(&v[i].pattern, word);
            let st = match &v[i].init {
                Some(x) => seek_expr(word, st, x),
                None => st,
            };
            st
        };
        st = next;
        i = i + 1;
    }
    st
}

pub open spec fn rebinds_stmts(word: Seq<char>, st: bool, v: Vec<Statement>, i: nat) -> bool
    decreases v, v@.len() - i,
{
    if i >= v@.len() {
        st
    } else {
        rebinds_stmts(word, rebinds_stmt(word, st, v[i as int]), v, i + 1)
    }
}

fn seek_stmts(word: &str, st: bool, v: &Vec<Statement>) -> (r: bool)
    ensures
        r == rebinds_stmts(word@, st, *v, 0),
    decreases v, 0nat,
{
    let ghost first = st;
    let mut st = st;
    let mut i: usize = 0;
    while i < v.len()
        invariant
            i <= v@.len(),
            rebinds_stmts(word@, first, *v, 0) == rebinds_stmts(word@, st, *v, i as nat),
        decreases v.len() - i,
    {
        let next = seek_stmt(word, st, &v[i]);
        st = next;
        i = i + 1;
    }
    st
}


// ------------------------------------------------------------- signatures --

/// The functions of that name among the first `n` items of a module.
pub open spec fn fns_named(m: Seq<ItemEntry>, name: Seq<char>, n: nat) -> Seq<FnSig>
    decreases n,
{
    if n == 0 {
        Seq::empty()
    } else {
        let rest = fns_named(m, name, (n - 1) as nat);
        match m[n - 1].sig {
            ItemSig::Fn(f) => if m[n - 1].name@ == name {
                rest.push(f)
            } else {
                rest
            },
            _ => rest,
        }
    }
}

/// The functions of that name in the first `n` modules.
pub open spec fn candidates(ms: Seq<Vec<ItemEntry>>, name: Seq<char>, n: nat) -> Seq<FnSig>
    decreases n,
{
    if n == 0 {
        Seq::empty()
    } else {
        candidates(ms, name, (n - 1) as nat) + fns_named(ms[n - 1]@, name, ms[n - 1]@.len())
    }
}

/// The first candidate declared there, from `i` on.
pub open spec fn declared_at(v: Seq<FnSig>, at: Span, i: int) -> Option<FnSig>
    decreases v.len() - i,
{
    if i >= v.len() {
        None
    } else if v[i].name_span == at {
        Some(v[i])
    } else {
        declared_at(v, at, i + 1)
    }
}

/// The signature a callee name resolves to: the one declared there, or
/// the only one of that name.
pub open spec fn callee_of(pkg: &Package, name: Seq<char>, decl: Option<Span>) -> Option<FnSig> {
    let v = candidates(pkg.sigs.modules@, name, pkg.sigs.modules@.len());
    match decl {
        Some(at) => declared_at(v, at, 0),
        None => if v.len() == 1 {
            Some(v[0])
        } else {
            None
        },
    }
}

pub open spec fn sig_views(v: Seq<&FnSig>) -> Seq<FnSig> {
    Seq::new(v.len(), |i: int| *v[i])
}

fn collect_fns<'a>(m: &'a Vec<ItemEntry>, name: &str, out: &mut Vec<&'a FnSig>)
    ensures
        sig_views(final(out)@) == sig_views(old(out)@) + fns_named(m@, name@, m@.len()),
{
    let ghost before = sig_views(out@);
    let mut i: usize = 0;
    assert(sig_views(out@) =~= before + fns_named(m@, name@, 0));
    while i < m.len()
        invariant
            i <= m@.len(),
            sig_views(out@) == before + fns_named(m@, name@, i as nat),
        decreases m.len() - i,
    {
        let ghost cur = sig_views(out@);
        if let ItemSig::Fn(f) = &m[i].sig {
            if str_eq(m[i].name.as_str(), name) {
                out.push(f);
                assert(sig_views(out@) =~= cur.push(*f));
            }
        }
        assert(sig_views(out@) =~= before + fns_named(m@, name@, (i + 1) as nat));
        i = i + 1;
    }
}

fn find_callee<'a>(pkg: &'a Package, name: &str, decl: Option<Span>) -> (r: Option<&'a FnSig>)
    ensures
        match r {
            Some(f) => callee_of(pkg, name@, decl) == Some(*f),
            None => callee_of(pkg, name@, decl) is None,
        },
{
    let ms = &pkg.sigs.modules;
    let mut out: Vec<&'a FnSig> = Vec::new();
    let mut i: usize = 0;
    assert(sig_views(out@) =~= candidates(ms@, name@, 0));
    while i < ms.len()
        invariant
            i <= ms@.len(),
            sig_views(out@) == candidates(ms@, name@, i as nat),
        decreases ms.len() - i,
    {
        collect_fns(&ms[i], name, &mut out);
        i = i + 1;
    }
    let ghost all = sig_views(out@);
    match decl {
        Some(at) => {
            let mut k: usize = 0;
            while k < out.len()
                invariant
                    k <= out@.len(),
                    all == sig_views(out@),
                    all == candidates(pkg.sigs.modules@, name@, pkg.sigs.modules@.len()),
                    decl == Some(at),
                    declared_at(all, at, 0) == declared_at(all, at, k as int),
                decreases out.len() - k,
            {
                assert(all[k as int] == *out@[k as int]);
                if out[k].name_span == at {
                    return Some(out[k]);
                }
                k = k + 1;
            }
            None
        },
        None => if out.len() == 1 {
            assert(all[0] == *out@[0]);
            Some(out[0])
        } else {
            None
        },
    }
}

/// The body declared at a name, the last among the first `n`.
pub open spec fn body_at(p: &Package, at: Span, n: nat) -> Option<int>
    decreases n,
{
    if n == 0 {
        None
    } else if !(p.bodies@[n - 1].owner is Trait) && (p.bodies@[n - 1].kind matches BodyKind::Fn(d)
        && d.name_span == Some(at)) {
        Some(n - 1)
    } else {
        body_at(p, at, (n - 1) as nat)
    }
}

fn find_body(p: &Package, at: Span) -> (r: Option<usize>)
    ensures
        opt_body(r) == body_at(p, at, p.bodies@.len()),
        r matches Some(i) ==> i < p.bodies@.len(),
{
    let mut n: usize = p.bodies.len();
    while n > 0
        invariant
            n <= p.bodies@.len(),
            body_at(p, at, p.bodies@.len()) == body_at(p, at, n as nat),
        decreases n,
    {
        let b = &p.bodies[n - 1];
        let apart = match &b.owner {
            Owner::Trait { .. } => false,
            _ => true,
        };
        let here = match &b.kind {
            BodyKind::Fn(d) => match d.name_span {
                Some(s) => s == at,
                None => false,
            },
            _ => false,
        };
        if apart && here {
            return Some(n - 1);
        }
        n = n - 1;
    }
    None
}

// ---------------------------------------------------------------- the walk --

/// How many more re-lends may nest.
pub open spec fn fuel(stack: Seq<(Span, usize)>) -> nat {
    if stack.len() < MAX_DEPTH {
        (MAX_DEPTH - stack.len()) as nat
    } else {
        0
    }
}

/// The expression is exactly the parameter's name.
pub open spec fn is_param(e: Expr, name: Seq<char>) -> bool {
    bare(e).kind matches ExprKind::Path(n) && n@ == name
}

fn names_param(e: &Expr, name: &str) -> (r: bool)
    ensures
        r == is_param(*e, name@),
{
    match &unparen(e).kind {
        ExprKind::Path(n) => str_eq(n.as_str(), name),
        _ => false,
    }
}

pub open spec fn tail_of(b: Block, esc: bool) -> Option<Span> {
    if esc {
        b.trailing
    } else {
        None
    }
}

fn block_tail(b: &Block, esc: bool) -> (r: Option<Span>)
    ensures
        r == tail_of(*b, esc),
{
    if esc {
        b.trailing
    } else {
        None
    }
}

pub open spec fn is_query(m: Seq<char>) -> bool {
    m == "len"@ || m == "count"@ || m == "is_empty"@ || m == "get"@ || m == "first"@ || m
        == "last"@
}

fn queries(m: &str) -> (r: bool)
    ensures
        r == is_query(m@),
{
    str_eq(m, "len") || str_eq(m, "count") || str_eq(m, "is_empty") || str_eq(m, "get") || str_eq(
        m,
        "first",
    ) || str_eq(m, "last")
}

pub open spec fn path_name(e: Expr) -> Option<Seq<char>> {
    match e.kind {
        ExprKind::Path(n) => Some(n@),
        _ => None,
    }
}

/// A call: the queries on a view, a re-lend into another function, or
/// neither. A callee that is not the view is an expression like any other.
pub open spec fn scan_call(
    pkg: &Package,
    name: Seq<char>,
    stack: Seq<(Span, usize)>,
    st: Found,
    e: Expr,
) -> Found
    decreases fuel(stack), 1nat, e, 0nat,
{
    match e.kind {
        ExprKind::Call { callee, args, .. } => match callee.kind {
            ExprKind::Member(base, m) => if is_param(*base, name) {
                scan_args(
                    pkg,
                    name,
                    stack,
                    if is_query(m@) {
                        st
                    } else {
                        st.hidden()
                    },
                    args,
                    0,
                    false,
                )
            } else {
                scan_lent(
                    pkg,
                    name,
                    stack,
                    scan_expr(pkg, name, stack, st, *callee, false),
                    args,
                    0,
                    None,
                )
            },
            _ => scan_lent(
                pkg,
                name,
                stack,
                scan_expr(pkg, name, stack, st, *callee, false),
                args,
                0,
                path_name(*callee),
            ),
        },
        _ => st,
    }
}

/// The arguments of a plain call from `i` on: one that is the parameter
/// re-lends it, and the callee's own verdict decides.
pub open spec fn scan_lent(
    pkg: &Package,
    name: Seq<char>,
    stack: Seq<(Span, usize)>,
    st: Found,
    args: Vec<Arg>,
    i: nat,
    callee: Option<Seq<char>>,
) -> Found
    decreases fuel(stack), 1nat, args, args@.len() - i,
{
    if i >= args@.len() {
        st
    } else if !is_param(args[i as int].value, name) {
        scan_lent(
            pkg,
            name,
            stack,
            scan_expr(pkg, name, stack, st, args[i as int].value, false),
            args,
            i + 1,
            callee,
        )
    } else if args[i as int].mode is Some {
        st.escapes(args[i as int].value.span)
    } else {
        let next = match callee {
            None => st.hidden(),
            Some(n) => match callee_of(pkg, n, None) {
                None => st.hidden(),
                Some(sig) => match param_at(pkg, sig, i as usize, stack) {
                    Lend::Lendable => st,
                    Lend::Escapes(_) => st.escapes(args[i as int].value.span),
                    Lend::Opaque => st.hidden(),
                },
            },
        };
        scan_lent(pkg, name, stack, next, args, i + 1, callee)
    }
}

/// What a function does with a parameter offered as a view. `stack` holds
/// the parameters whose verdict is being computed: meeting one again is a
/// cycle, which adds no use.
pub open spec fn param_at(pkg: &Package, sig: FnSig, ix: usize, stack: Seq<(Span, usize)>) -> Lend
    decreases fuel(stack), 0nat, None::<nat>, 0nat,
{
    if stack.contains((sig.name_span, ix)) {
        Lend::Lendable
    } else if stack.len() >= MAX_DEPTH || ix >= sig.params@.len() {
        Lend::Opaque
    } else {
        let p = sig.params@[ix as int];
        if p.mode is Some || !byte_list(pkg.sigs.table, p.ty) {
            Lend::Opaque
        } else {
            match body_at(pkg, sig.name_span, pkg.bodies@.len()) {
                Some(b) => match pkg.bodies@[b].kind {
                    BodyKind::Fn(d) => match d.body {
                        Some(block) => if rebinds_stmts(p.name@, false, block.stmts, 0) {
                            Lend::Opaque
                        } else {
                            scan_stmts(
                                pkg,
                                p.name@,
                                stack.push((sig.name_span, ix)),
                                Found { escape: None, opaque: false },
                                block.stmts,
                                0,
                                block.trailing,
                            ).lend()
                        },
                        None => Lend::Opaque,
                    },
                    _ => Lend::Opaque,
                },
                None => Lend::Opaque,
            }
        }
    }
}

/// One expression of the body. `esc`: a bare occurrence of the parameter
/// here leaves the call (a return, a tail, an assignment's right side).
pub open spec fn scan_expr(pkg: &Package, word: Seq<char>, stack: Seq<(Span, usize)>, st: Found, e: Expr, esc: bool) -> Found
    decreases fuel(stack), 1nat, e, 1nat,
{
    if st.escape is Some {
        st
    } else {
        match e.kind {
            ExprKind::Str(hs) => scan_holes(pkg, word, stack, st, hs, 0, false),
            ExprKind::Paren(x, _) => scan_expr(pkg, word, stack, st, *x, esc),
            ExprKind::Member(x, m) => if is_param(*x, word) {
                if m@ == "len"@ {
                    st
                } else {
                    st.hidden()
                }
            } else {
                scan_expr(pkg, word, stack, st, *x, false)
            },
            ExprKind::Bracket { callee, args, .. } => if is_param(*callee, word) {
                scan_exprs(pkg, word, stack, st, args, 0, false)
            } else {
                scan_exprs(pkg, word, stack, scan_expr(pkg, word, stack, st, *callee, false), args, 0, false)
            },
            ExprKind::Tuple(es) => scan_exprs(pkg, word, stack, st, es, 0, false),
            ExprKind::Block(b) => scan_stmts(pkg, word, stack, st, b.stmts, 0, tail_of(b, esc)),
            ExprKind::Prefix(_, x) => scan_expr(pkg, word, stack, st, *x, false),
            ExprKind::Bin(_, l, r) => {
                let st = scan_expr(pkg, word, stack, st, *l, false);
                let st = scan_expr(pkg, word, stack, st, *r, false);
                st
            },
            ExprKind::Cast(x, _) => scan_expr(pkg, word, stack, st, *x, false),
            ExprKind::Range { start, end, .. } => {
                let st = match start {
                    Some(x) => scan_expr(pkg, word, stack, st, *x, false),
                    None => st,
                };
                let st = match end {
                    Some(x) => scan_expr(pkg, word, stack, st, *x, false),
                    None => st,
                };
                st
            },
            ExprKind::FromEnd(x) => scan_expr(pkg, word, stack, st, *x, false),
            ExprKind::Try(x) => scan_expr(pkg, word, stack, st, *x, false),
            ExprKind::Call { .. } => scan_call(pkg, word, stack, st, e),
            ExprKind::StructLit(fs) => scan_fields(pkg, word, stack, st, fs, 0, false),
            ExprKind::If { cond, then_block, els } => {
                let st = scan_expr(pkg, word, stack, st, *cond, esc);
                let st = scan_stmts(pkg, word, stack, st, then_block.stmts, 0, tail_of(then_block, esc));
                match els {
                    Some(x) => scan_expr(pkg, word, stack, st, *x, esc),
                    None => st,
                }
            },
            ExprKind::Match { scrutinee, arms } => scan_arms(pkg, word, stack, scan_expr(pkg, word, stack, st, *scrutinee, esc), arms, 0, esc),
            ExprKind::While { cond, body } => {
                let st = scan_expr(pkg, word, stack, st, *cond, false);
                let st = scan_stmts(pkg, word, stack, st, body.stmts, 0, None);
                st
            },
            ExprKind::For { iterable, body, .. } => if is_param(*iterable, word) {
                scan_stmts(pkg, word, stack, st, body.stmts, 0, None)
            } else {
                scan_stmts(pkg, word, stack, scan_expr(pkg, word, stack, st, *iterable, false), body.stmts, 0, None)
            },
            ExprKind::Loop(b) => scan_stmts(pkg, word, stack, st, b.stmts, 0, None),
            ExprKind::Else { scrutinized, fallback, .. } => {
                let st = scan_expr(pkg, word, stack, st, *scrutinized, false);
                let st = match fallback {
                    Some(x) => scan_expr(pkg, word, stack, st, *x, false),
                    None => st,
                };
                st
            },
            ExprKind::Return(x) => match x {
                Some(x) => scan_expr(pkg, word, stack, st, *x, true),
                None => st,
            },
            ExprKind::Closure { body, .. } => {
                let st = match body {
                    Some(x) => scan_expr(pkg, word, stack, st, *x, false),
                    None => st,
                };
                st
            },
            ExprKind::RegionBlock { body, .. } => scan_stmts(pkg, word, stack, st, body.stmts, 0, None),
            ExprKind::In { region, body } => {
                let st = match region {
                    Some(x) => scan_expr(pkg, word, stack, st, *x, false),
                    None => st,
                };
                let st = scan_stmts(pkg, word, stack, st, body.stmts, 0, None);
                st
            },
            ExprKind::Freeze(x) => scan_expr(pkg, word, stack, st, *x, false),
            ExprKind::Unsafe { body, .. } => scan_stmts(pkg, word, stack, st, body.stmts, 0, None),
            ExprKind::Scope { body, .. } => scan_stmts(pkg, word, stack, st, body.stmts, 0, None),
            ExprKind::Select(arms) => scan_selects(pkg, word, stack, st, arms, 0, false),
            ExprKind::When { operands, body, .. } => {
                let st = scan_exprs(pkg, word, stack, st, operands, 0, false);
                let st = scan_stmts(pkg, word, stack, st, body.stmts, 0, None);
                st
            },
            ExprKind::Spawn(args) => scan_args(pkg, word, stack, st, args, 0, false),
            ExprKind::Borrow { region, source } => {
                let st = scan_expr(pkg, word, stack, st, *region, false);
                let st = scan_expr(pkg, word, stack, st, *source, false);
                st
            },
            ExprKind::Path(n) => if n@ != word {
                st
            } else if esc {
                st.escapes(e.span)
            } else {
                st.hidden()
            },
            _ => st,
        }
    }
}

fn walk_expr(pkg: &Package, word: &str, stack: &Vec<(Span, usize)>, st: Found, e: &Expr, esc: bool) -> (r: Found)
    ensures
        r == scan_expr(pkg, word@, stack@, st, *e, esc),
    decreases fuel(stack@), 1nat, e, 1nat,
{
    if st.escape.is_some() {
        return st;
    }
    match &e.kind {
        ExprKind::Str(hs) => walk_holes(pkg, word, stack, st, hs, false),
        ExprKind::Paren(x, _) => walk_expr(pkg, word, stack, st, x, esc),
        ExprKind::Member(x, m) => if names_param(x, word) {
            if str_eq(m.as_str(), "len") {
                st
            } else {
                st.mark_opaque()
            }
        } else {
            walk_expr(pkg, word, stack, st, x, false)
        },
        ExprKind::Bracket { callee, args, .. } => if names_param(callee, word) {
            walk_exprs(pkg, word, stack, st, args, false)
        } else {
            let st = walk_expr(pkg, word, stack, st, callee, false);
            walk_exprs(pkg, word, stack, st, args, false)
        },
        ExprKind::Tuple(es) => walk_exprs(pkg, word, stack, st, es, false),
        ExprKind::Block(b) => walk_stmts(pkg, word, stack, st, &b.stmts, block_tail(b, esc)),
        ExprKind::Prefix(_, x) => walk_expr(pkg, word, stack, st, x, false),
        ExprKind::Bin(_, l, r) => {
            let st = walk_expr(pkg, word, stack, st, l, false);
            let st = walk_expr(pkg, word, stack, st, r, false);
            st
        },
        ExprKind::Cast(x, _) => walk_expr(pkg, word, stack, st, x, false),
        ExprKind::Range { start, end, .. } => {
            let st = match start {
                Some(x) => walk_expr(pkg, word, stack, st, x, false),
                None => st,
            };
            let st = match end {
                Some(x) => walk_expr(pkg, word, stack, st, x, false),
                None => st,
            };
            st
        },
        ExprKind::FromEnd(x) => walk_expr(pkg, word, stack, st, x, false),
        ExprKind::Try(x) => walk_expr(pkg, word, stack, st, x, false),
        ExprKind::Call { .. } => walk_call(pkg, word, stack, st, e),
        ExprKind::StructLit(fs) => walk_fields(pkg, word, stack, st, fs, false),
        ExprKind::If { cond, then_block, els } => {
            let st = walk_expr(pkg, word, stack, st, cond, esc);
            let st = walk_stmts(pkg, word, stack, st, &then_block.stmts, block_tail(then_block, esc));
            match els {
                Some(x) => walk_expr(pkg, word, stack, st, x, esc),
                None => st,
            }
        },
        ExprKind::Match { scrutinee, arms } => {
            let st = walk_expr(pkg, word, stack, st, scrutinee, esc);
            walk_arms(pkg, word, stack, st, arms, esc)
        },
        ExprKind::While { cond, body } => {
            let st = walk_expr(pkg, word, stack, st, cond, false);
            let st = walk_stmts(pkg, word, stack, st, &body.stmts, None);
            st
        },
        ExprKind::For { iterable, body, .. } => if names_param(iterable, word) {
            walk_stmts(pkg, word, stack, st, &body.stmts, None)
        } else {
            let st = walk_expr(pkg, word, stack, st, iterable, false);
            walk_stmts(pkg, word, stack, st, &body.stmts, None)
        },
        ExprKind::Loop(b) => walk_stmts(pkg, word, stack, st, &b.stmts, None),
        ExprKind::Else { scrutinized, fallback, .. } => {
            let st = walk_expr(pkg, word, stack, st, scrutinized, false);
            let st = match fallback {
                Some(x) => walk_expr(pkg, word, stack, st, x, false),
                None => st,
            };
            st
        },
        ExprKind::Return(x) => match x {
            Some(x) => walk_expr(pkg, word, stack, st, x, true),
            None => st,
        },
        ExprKind::Closure { body, .. } => {
            let st = match body {
                Some(x) => walk_expr(pkg, word, stack, st, x, false),
                None => st,
            };
            st
        },
        ExprKind::RegionBlock { body, .. } => walk_stmts(pkg, word, stack, st, &body.stmts, None),
        ExprKind::In { region, body } => {
            let st = match region {
                Some(x) => walk_expr(pkg, word, stack, st, x, false),
                None => st,
            };
            let st = walk_stmts(pkg, word, stack, st, &body.stmts, None);
            st
        },
        ExprKind::Freeze(x) => walk_expr(pkg, word, stack, st, x, false),
        ExprKind::Unsafe { body, .. } => walk_stmts(pkg, word, stack, st, &body.stmts, None),
        ExprKind::Scope { body, .. } => walk_stmts(pkg, word, stack, st, &body.stmts, None),
        ExprKind::Select(arms) => walk_selects(pkg, word, stack, st, arms, false),
        ExprKind::When { operands, body, .. } => {
            let st = walk_exprs(pkg, word, stack, st, operands, false);
            let st = walk_stmts(pkg, word, stack, st, &body.stmts, None);
            st
        },
        ExprKind::Spawn(args) => walk_args(pkg, word, stack, st, args, false),
        ExprKind::Borrow { region, source } => {
            let st = walk_expr(pkg, word, stack, st, region, false);
            let st = walk_expr(pkg, word, stack, st, source, false);
            st
        },
        ExprKind::Path(n) => if !str_eq(n.as_str(), word) {
            st
        } else if esc {
            st.escaping(e.span)
        } else {
            st.mark_opaque()
        },
        _ => st,
    }
}

pub open spec fn scan_stmt(pkg: &Package, word: Seq<char>, stack: Seq<(Span, usize)>, st: Found, s: Statement, esc: bool) -> Found
    decreases fuel(stack), 1nat, s, 0nat,
{
    match s {
        Statement::Expr(e) => scan_expr(pkg, word, stack, st, e, esc),
        Statement::Bind(bs) => scan_binders(pkg, word, stack, st, bs, 0, false),
        Statement::Const { init, .. } => {
            let st = match init {
                Some(x) => scan_expr(pkg, word, stack, st, x, false),
                None => st,
            };
            st
        },
        Statement::Assign { place, value, .. } => scan_expr(pkg, word, stack, scan_expr(pkg, word, stack, st, place, false), value, true),
        Statement::Defer { expr, .. } => scan_expr(pkg, word, stack, st, expr, false),
        Statement::Assume { exprs, .. } => scan_exprs(pkg, word, stack, st, exprs, 0, false),
        Statement::Fn { body, .. } => {
            let st = match body {
                Some(b) => scan_stmts(pkg, word, stack, st, b.stmts, 0, None),
                None => st,
            };
            st
        },
        _ => st,
    }
}

fn walk_stmt(pkg: &Package, word: &str, stack: &Vec<(Span, usize)>, st: Found, s: &Statement, esc: bool) -> (r: Found)
    ensures
        r == scan_stmt(pkg, word@, stack@, st, *s, esc),
    decreases fuel(stack@), 1nat, s, 0nat,
{
    match s {
        Statement::Expr(e) => walk_expr(pkg, word, stack, st, e, esc),
        Statement::Bind(bs) => walk_binders(pkg, word, stack, st, bs, false),
        Statement::Const { init, .. } => {
            let st = match init {
                Some(x) => walk_expr(pkg, word, stack, st, x, false),
                None => st,
            };
            st
        },
        Statement::Assign { place, value, .. } => {
            let st = walk_expr(pkg, word, stack, st, place, false);
            walk_expr(pkg, word, stack, st, value, true)
        },
        Statement::Defer { expr, .. } => walk_expr(pkg, word, stack, st, expr, false),
        Statement::Assume { exprs, .. } => walk_exprs(pkg, word, stack, st, exprs, false),
        Statement::Fn { body, .. } => {
            let st = match body {
                Some(b) => walk_stmts(pkg, word, stack, st, &b.stmts, None),
                None => st,
            };
            st
        },
        _ => st,
    }
}

pub open spec fn scan_exprs(pkg: &Package, word: Seq<char>, stack: Seq<(Span, usize)>, st: Found, v: Vec<Expr>, i: nat, esc: bool) -> Found
    decreases fuel(stack), 1nat, v, v@.len() - i,
{
    if i >= v@.len() {
        st
    } else {
        scan_exprs(pkg, word, stack, scan_expr(pkg, word, stack, st, v[i as int], esc), v, i + 1, esc)
    }
}

fn walk_exprs(pkg: &Package, word: &str, stack: &Vec<(Span, usize)>, st: Found, v: &Vec<Expr>, esc: bool) -> (r: Found)
    ensures
        r == scan_exprs(pkg, word@, stack@, st, *v, 0, esc),
    decreases fuel(stack@), 1nat, v, 0nat,
{
    let ghost first = st;
    let mut st = st;
    let mut i: usize = 0;
    while i < v.len()
        invariant
            i <= v@.len(),
            scan_exprs(pkg, word@, stack@, first, *v, 0, esc) == scan_exprs(pkg, word@, stack@, st, *v, i as nat, esc),
        decreases v.len() - i,
    {
        let next = walk_expr(pkg, word, stack, st, &v[i], esc);
        st = next;
        i = i + 1;
    }
    st
}

pub open spec fn scan_args(pkg: &Package, word: Seq<char>, stack: Seq<(Span, usize)>, st: Found, v: Vec<Arg>, i: nat, esc: bool) -> Found
    decreases fuel(stack), 1nat, v, v@.len() - i,
{
    if i >= v@.len() {
        st
    } else {
        scan_args(pkg, word, stack, scan_expr(pkg, word, stack, st, v[i as int].value, esc), v, i + 1, esc)
    }
}

fn walk_args(pkg: &Package, word: &str, stack: &Vec<(Span, usize)>, st: Found, v: &Vec<Arg>, esc: bool) -> (r: Found)
    ensures
        r == scan_args(pkg, word@, stack@, st, *v, 0, esc),
    decreases fuel(stack@), 1nat, v, 0nat,
{
    let ghost first = st;
    let mut st = st;
    let mut i: usize = 0;
    while i < v.len()
        invariant
            i <= v@.len(),
            scan_args(pkg, word@, stack@, first, *v, 0, esc) == scan_args(pkg, word@, stack@, st, *v, i as nat, esc),
        decreases v.len() - i,
    {
        let next = walk_expr(pkg, word, stack, st, &v[i].value, esc);
        st = next;
        i = i + 1;
    }
    st
}

pub open spec fn scan_fields(pkg: &Package, word: Seq<char>, stack: Seq<(Span, usize)>, st: Found, v: Vec<FieldInit>, i: nat, esc: bool) -> Found
    decreases fuel(stack), 1nat, v, v@.len() - i,
{
    if i >= v@.len() {
        st
    } else {
        scan_fields(pkg, word, stack, scan_expr(pkg, word, stack, st, v[i as int].value, esc), v, i + 1, esc)
    }
}

fn walk_fields(pkg: &Package, word: &str, stack: &Vec<(Span, usize)>, st: Found, v: &Vec<FieldInit>, esc: bool) -> (r: Found)
    ensures
        r == scan_fields(pkg, word@, stack@, st, *v, 0, esc),
    decreases fuel(stack@), 1nat, v, 0nat,
{
    let ghost first = st;
    let mut st = st;
    let mut i: usize = 0;
    while i < v.len()
        invariant
            i <= v@.len(),
            scan_fields(pkg, word@, stack@, first, *v, 0, esc) == scan_fields(pkg, word@, stack@, st, *v, i as nat, esc),
        decreases v.len() - i,
    {
        let next = walk_expr(pkg, word, stack, st, &v[i].value, esc);
        st = next;
        i = i + 1;
    }
    st
}

pub open spec fn scan_holes(pkg: &Package, word: Seq<char>, stack: Seq<(Span, usize)>, st: Found, v: Vec<Hole>, i: nat, esc: bool) -> Found
    decreases fuel(stack), 1nat, v, v@.len() - i,
{
    if i >= v@.len() {
        st
    } else {
        let st = match v[i as int].expr {
            Some(x) => scan_expr(pkg, word, stack, st, x, esc),
            None => st,
        };
        scan_holes(pkg, word, stack, st, v, i + 1, esc)
    }
}

fn walk_holes(pkg: &Package, word: &str, stack: &Vec<(Span, usize)>, st: Found, v: &Vec<Hole>, esc: bool) -> (r: Found)
    ensures
        r == scan_holes(pkg, word@, stack@, st, *v, 0, esc),
    decreases fuel(stack@), 1nat, v, 0nat,
{
    let ghost first = st;
    let mut st = st;
    let mut i: usize = 0;
    while i < v.len()
        invariant
            i <= v@.len(),
            scan_holes(pkg, word@, stack@, first, *v, 0, esc) == scan_holes(pkg, word@, stack@, st, *v, i as nat, esc),
        decreases v.len() - i,
    {
        let next = {
            let st = match &v[i].expr {
                Some(x) => walk_expr(pkg, word, stack, st, x, esc),
                None => st,
            };
            st
        };
        st = next;
        i = i + 1;
    }
    st
}

pub open spec fn scan_arms(pkg: &Package, word: Seq<char>, stack: Seq<(Span, usize)>, st: Found, v: Vec<Arm>, i: nat, esc: bool) -> Found
    decreases fuel(stack), 1nat, v, v@.len() - i,
{
    if i >= v@.len() {
        st
    } else {
        let st = match v[i as int].guard {
            Some(x) => scan_expr(pkg, word, stack, st, x, esc),
            None => st,
        };
        let st = match v[i as int].body {
            Some(x) => scan_expr(pkg, word, stack, st, x, esc),
            None => st,
        };
        scan_arms(pkg, word, stack, st, v, i + 1, esc)
    }
}

fn walk_arms(pkg: &Package, word: &str, stack: &Vec<(Span, usize)>, st: Found, v: &Vec<Arm>, esc: bool) -> (r: Found)
    ensures
        r == scan_arms(pkg, word@, stack@, st, *v, 0, esc),
    decreases fuel(stack@), 1nat, v, 0nat,
{
    let ghost first = st;
    let mut st = st;
    let mut i: usize = 0;
    while i < v.len()
        invariant
            i <= v@.len(),
            scan_arms(pkg, word@, stack@, first, *v, 0, esc) == scan_arms(pkg, word@, stack@, st, *v, i as nat, esc),
        decreases v.len() - i,
    {
        let next = {
            let st = match &v[i].guard {
                Some(x) => walk_expr(pkg, word, stack, st, x, esc),
                None => st,
            };
            let st = match &v[i].body {
                Some(x) => walk_expr(pkg, word, stack, st, x, esc),
                None => st,
            };
            st
        };
        st = next;
        i = i + 1;
    }
    st
}

pub open spec fn scan_selects(pkg: &Package, word: Seq<char>, stack: Seq<(Span, usize)>, st: Found, v: Vec<SelectArm>, i: nat, esc: bool) -> Found
    decreases fuel(stack), 1nat, v, v@.len() - i,
{
    if i >= v@.len() {
        st
    } else {
        let st = match v[i as int].head {
            Some(x) => scan_expr(pkg, word, stack, st, x, esc),
            None => st,
        };
        let st = match v[i as int].body {
            Some(x) => scan_expr(pkg, word, stack, st, x, esc),
            None => st,
        };
        scan_selects(pkg, word, stack, st, v, i + 1, esc)
    }
}

fn walk_selects(pkg: &Package, word: &str, stack: &Vec<(Span, usize)>, st: Found, v: &Vec<SelectArm>, esc: bool) -> (r: Found)
    ensures
        r == scan_selects(pkg, word@, stack@, st, *v, 0, esc),
    decreases fuel(stack@), 1nat, v, 0nat,
{
    let ghost first = st;
    let mut st = st;
    let mut i: usize = 0;
    while i < v.len()
        invariant
            i <= v@.len(),
            scan_selects(pkg, word@, stack@, first, *v, 0, esc) == scan_selects(pkg, word@, stack@, st, *v, i as nat, esc),
        decreases v.len() - i,
    {
        let next = {
            let st = match &v[i].head {
                Some(x) => walk_expr(pkg, word, stack, st, x, esc),
                None => st,
            };
            let st = match &v[i].body {
                Some(x) => walk_expr(pkg, word, stack, st, x, esc),
                None => st,
            };
            st
        };
        st = next;
        i = i + 1;
    }
    st
}

pub open spec fn scan_binders(pkg: &Package, word: Seq<char>, stack: Seq<(Span, usize)>, st: Found, v: Vec<Binder>, i: nat, esc: bool) -> Found
    decreases fuel(stack), 1nat, v, v@.len() - i,
{
    if i >= v@.len() {
        st
    } else {
        let st = match v[i as int].init {
            Some(x) => scan_expr(pkg, word, stack, st, x, esc),
            None => st,
        };
        scan_binders(pkg, word, stack, st, v, i + 1, esc)
    }
}

fn walk_binders(pkg: &Package, word: &str, stack: &Vec<(Span, usize)>, st: Found, v: &Vec<Binder>, esc: bool) -> (r: Found)
    ensures
        r == scan_binders(pkg, word@, stack@, st, *v, 0, esc),
    decreases fuel(stack@), 1nat, v, 0nat,
{
    let ghost first = st;
    let mut st = st;
    let mut i: usize = 0;
    while i < v.len()
        invariant
            i <= v@.len(),
            scan_binders(pkg, word@, stack@, first, *v, 0, esc) == scan_binders(pkg, word@, stack@, st, *v, i as nat, esc),
        decreases v.len() - i,
    {
        let next = {
            let st = match &v[i].init {
                Some(x) => walk_expr(pkg, word, stack, st, x, esc),
                None => st,
            };
            st
        };
        st = next;
        i = i + 1;
    }
    st
}

pub open spec fn scan_stmts(pkg: &Package, word: Seq<char>, stack: Seq<(Span, usize)>, st: Found, v: Vec<Statement>, i: nat, tail: Option<Span>) -> Found
    decreases fuel(stack), 1nat, v, v@.len() - i,
{
    if i >= v@.len() {
        st
    } else {
        scan_stmts(pkg, word, stack, scan_stmt(pkg, word, stack, st, v[i as int], trails(v[i as int], tail)), v, i + 1, tail)
    }
}

fn walk_stmts(pkg: &Package, word: &str, stack: &Vec<(Span, usize)>, st: Found, v: &Vec<Statement>, tail: Option<Span>) -> (r: Found)
    ensures
        r == scan_stmts(pkg, word@, stack@, st, *v, 0, tail),
    decreases fuel(stack@), 1nat, v, 0nat,
{
    let ghost first = st;
    let mut st = st;
    let mut i: usize = 0;
    while i < v.len()
        invariant
            i <= v@.len(),
            scan_stmts(pkg, word@, stack@, first, *v, 0, tail) == scan_stmts(pkg, word@, stack@, st, *v, i as nat, tail),
        decreases v.len() - i,
    {
        let next = walk_stmt(pkg, word, stack, st, &v[i], is_trailing(&v[i], tail));
        st = next;
        i = i + 1;
    }
    st
}

fn walk_call(
    pkg: &Package,
    name: &str,
    stack: &Vec<(Span, usize)>,
    st: Found,
    e: &Expr,
) -> (r: Found)
    ensures
        r == scan_call(pkg, name@, stack@, st, *e),
    decreases fuel(stack@), 1nat, e, 0nat,
{
    match &e.kind {
        ExprKind::Call { callee, args, .. } => match &callee.kind {
            ExprKind::Member(base, m) => if names_param(base, name) {
                let st = if queries(m.as_str()) {
                    st
                } else {
                    st.mark_opaque()
                };
                walk_args(pkg, name, stack, st, args, false)
            } else {
                let st = walk_expr(pkg, name, stack, st, callee, false);
                walk_lent(pkg, name, stack, st, args, None)
            },
            ExprKind::Path(n) => {
                let st = walk_expr(pkg, name, stack, st, callee, false);
                walk_lent(pkg, name, stack, st, args, Some(n.as_str()))
            },
            _ => {
                let st = walk_expr(pkg, name, stack, st, callee, false);
                walk_lent(pkg, name, stack, st, args, None)
            },
        },
        _ => st,
    }
}

pub open spec fn opt_str(o: Option<&str>) -> Option<Seq<char>> {
    match o {
        Some(s) => Some(s@),
        None => None,
    }
}

fn walk_lent(
    pkg: &Package,
    name: &str,
    stack: &Vec<(Span, usize)>,
    st: Found,
    args: &Vec<Arg>,
    callee: Option<&str>,
) -> (r: Found)
    ensures
        r == scan_lent(pkg, name@, stack@, st, *args, 0, opt_str(callee)),
    decreases fuel(stack@), 1nat, args, 0nat,
{
    let ghost c = opt_str(callee);
    let mut cur = st;
    let mut i: usize = 0;
    while i < args.len()
        invariant
            i <= args@.len(),
            c == opt_str(callee),
            scan_lent(pkg, name@, stack@, st, *args, 0, c) == scan_lent(
                pkg,
                name@,
                stack@,
                cur,
                *args,
                i as nat,
                c,
            ),
        decreases args.len() - i,
    {
        let v = &args[i].value;
        if !names_param(v, name) {
            let next = walk_expr(pkg, name, stack, cur, v, false);
            cur = next;
        } else if args[i].mode.is_some() {
            return cur.escaping(v.span);
        } else {
            let sig = match callee {
                Some(n) => find_callee(pkg, n, None),
                None => None,
            };
            match sig {
                None => cur = cur.mark_opaque(),
                Some(sig) => match lend_at(pkg, sig, i, stack) {
                    Lend::Lendable => {},
                    Lend::Escapes(_) => cur = cur.escaping(v.span),
                    Lend::Opaque => cur = cur.mark_opaque(),
                },
            }
        }
        i = i + 1;
    }
    cur
}

fn in_stack(stack: &Vec<(Span, usize)>, at: Span, ix: usize) -> (r: bool)
    ensures
        r == stack@.contains((at, ix)),
{
    let mut i: usize = 0;
    while i < stack.len()
        invariant
            i <= stack@.len(),
            forall|k: int| 0 <= k < i ==> stack@[k] != (at, ix),
        decreases stack.len() - i,
    {
        if stack[i].0 == at && stack[i].1 == ix {
            assert(stack@[i as int] == (at, ix));
            return true;
        }
        i = i + 1;
    }
    false
}

fn pushed(stack: &Vec<(Span, usize)>, at: Span, ix: usize) -> (r: Vec<(Span, usize)>)
    ensures
        r@ == stack@.push((at, ix)),
{
    let mut out: Vec<(Span, usize)> = Vec::new();
    let mut i: usize = 0;
    while i < stack.len()
        invariant
            i <= stack@.len(),
            out@ == stack@.take(i as int),
        decreases stack.len() - i,
    {
        out.push(stack[i]);
        i = i + 1;
        assert(out@ =~= stack@.take(i as int));
    }
    out.push((at, ix));
    assert(out@ =~= stack@.push((at, ix)));
    out
}

fn lend_at(pkg: &Package, sig: &FnSig, ix: usize, stack: &Vec<(Span, usize)>) -> (r: Lend)
    ensures
        r == param_at(pkg, *sig, ix, stack@),
    decreases fuel(stack@), 0nat, None::<nat>, 0nat,
{
    if in_stack(stack, sig.name_span, ix) {
        return Lend::Lendable;
    }
    if stack.len() >= MAX_DEPTH || ix >= sig.params.len() {
        return Lend::Opaque;
    }
    let p = &sig.params[ix];
    if p.mode.is_some() || !is_byte_list(&pkg.sigs.table, p.ty) {
        return Lend::Opaque;
    }
    let b = match find_body(pkg, sig.name_span) {
        Some(b) => b,
        None => return Lend::Opaque,
    };
    match &pkg.bodies[b].kind {
        BodyKind::Fn(d) => match &d.body {
            Some(block) => {
                let name = p.name.as_str();
                if seek_stmts(name, false, &block.stmts) {
                    return Lend::Opaque;
                }
                let inner = pushed(stack, sig.name_span, ix);
                let none = Found { escape: None, opaque: false };
                walk_stmts(pkg, name, &inner, none, &block.stmts, block.trailing).verdict()
            },
            None => Lend::Opaque,
        },
        _ => Lend::Opaque,
    }
}

/// The lend analysis over a package's function bodies.
pub struct Lender<'a> {
    pub pkg: &'a Package,
}

impl<'a> Lender<'a> {
    pub fn new(pkg: &'a Package) -> (r: Lender<'a>)
        ensures
            r.pkg == pkg,
    {
        Lender { pkg }
    }

    /// May parameter `ix` of the function receive a byte view?
    pub fn param(&self, sig: &FnSig, ix: usize) -> (r: Lend)
        ensures
            r == param_at(self.pkg, *sig, ix, Seq::empty()),
    {
        let none: Vec<(Span, usize)> = Vec::new();
        assert(none@ =~= Seq::empty());
        lend_at(self.pkg, sig, ix, &none)
    }

    /// The signature a callee name resolves to.
    pub fn callee_sig(&self, name: &str, decl: Option<Span>) -> (r: Option<&'a FnSig>)
        ensures
            match r {
                Some(f) => callee_of(self.pkg, name@, decl) == Some(*f),
                None => callee_of(self.pkg, name@, decl) is None,
            },
    {
        find_callee(self.pkg, name, decl)
    }
}

// ------------------------------------------------------- the degraded lend --

pub const LEND_LABEL: &'static str = "a byte view of the string's own storage; materialized to a `List[int]` here";

pub const LEND_NOTE: &'static str = "the program means what it meant; it paid one copy the lend was meant to save. If the copy is what you wanted, bind the bytes first — `let bs = s.bytes()` — and pass `bs`; that costs exactly what this call costs and says so. If it is not, the callee is the thing to change: a callee that only reads its parameter lends for free. A LENT view costs nothing and lasts only for the call. (This shape was refused as E1015 before the copy became the answer; that code is retired.)";

/// The warning of a lend that was copied.
pub open spec fn copied_diag(callee: Seq<char>, p: ParamSig, lend: Span, keep: Span) -> DiagView {
    DiagView::warning(
        Code::W1004,
        lend,
        "these bytes were offered to `"@ + callee + "` as a LEND, but `"@ + callee
            + "` keeps them past the call — so they were copied instead"@,
    ).with_label(LEND_LABEL@).with_secondary(
        keep,
        "`"@ + p.name@ + "` outlives the call here"@,
    ).with_secondary(p.span, "`"@ + p.name@ + "` is declared here"@).with_note(LEND_NOTE@)
}

fn w1004(callee: &str, p: &ParamSig, lend: Span, keep: Span) -> (r: Diagnostic)
    ensures
        r@ == copied_diag(callee@, *p, lend, keep),
{
    let message = lit("these bytes were offered to `").concat(callee).concat(
        "` as a LEND, but `",
    ).concat(callee).concat("` keeps them past the call — so they were copied instead");
    Diagnostic::warning(Code::W1004, lend, message).with_label(lit(LEND_LABEL)).with_secondary(
        keep,
        lit("`").concat(p.name.as_str()).concat("` outlives the call here"),
    ).with_secondary(
        p.span,
        lit("`").concat(p.name.as_str()).concat("` is declared here"),
    ).with_note(lit(LEND_NOTE))
}

/// The view argument `i` lends is copied there.
pub open spec fn copied_at(pkg: &Package, body: Body, a: Arg, sig: FnSig, i: usize) -> Option<Span> {
    if a.mode is Some || viewed(body, a.value) is None {
        None
    } else {
        match param_at(pkg, sig, i, Seq::empty()) {
            Lend::Escapes(keep) => Some(keep),
            _ => None,
        }
    }
}

/// The warnings of the first `n` arguments of a call.
pub open spec fn lent_diags(
    pkg: &Package,
    body: Body,
    args: Seq<Arg>,
    callee: Seq<char>,
    sig: FnSig,
    n: nat,
) -> Seq<DiagView>
    decreases n,
{
    if n == 0 {
        Seq::empty()
    } else {
        let rest = lent_diags(pkg, body, args, callee, sig, (n - 1) as nat);
        match copied_at(pkg, body, args[n - 1], sig, (n - 1) as usize) {
            Some(keep) => if n - 1 < sig.params@.len() {
                rest.push(copied_diag(callee, sig.params@[n - 1], args[n - 1].value.span, keep))
            } else {
                rest
            },
            None => rest,
        }
    }
}

/// The warnings of one call.
pub open spec fn call_diags(pkg: &Package, body: Body, e: Expr) -> Seq<DiagView> {
    match e.kind {
        ExprKind::Call { args, sig: Some(cs), .. } => if cs.has_self || cs.ctor || cs.c_call {
            Seq::empty()
        } else {
            match callee_of(pkg, cs.callee@, cs.decl_span) {
                Some(sig) => lent_diags(pkg, body, args@, cs.callee@, sig, args@.len()),
                None => Seq::empty(),
            }
        },
        _ => Seq::empty(),
    }
}

fn report_call(pkg: &Package, body: &Body, st: Vec<Diagnostic>, e: &Expr) -> (r: Vec<Diagnostic>)
    ensures
        diag_views(r@) == diag_views(st@) + call_diags(pkg, *body, *e),
{
    let ghost before = diag_views(st@);
    let mut st = st;
    assert(before + Seq::<DiagView>::empty() =~= before);
    match &e.kind {
        ExprKind::Call { args, sig: Some(cs), .. } => {
            if cs.has_self || cs.ctor || cs.c_call {
                return st;
            }
            let sig = match find_callee(pkg, cs.callee.as_str(), cs.decl_span) {
                Some(sig) => sig,
                None => return st,
            };
            let lender = Lender::new(pkg);
            let mut i: usize = 0;
            while i < args.len()
                invariant
                    i <= args@.len(),
                    lender.pkg == pkg,
                    diag_views(st@) == before + lent_diags(
                        pkg,
                        *body,
                        args@,
                        cs.callee@,
                        *sig,
                        i as nat,
                    ),
                decreases args.len() - i,
            {
                let a = &args[i];
                let ghost cur = diag_views(st@);
                if a.mode.is_none() && view_recv(body, &a.value).is_some() {
                    if let Lend::Escapes(keep) = lender.param(sig, i) {
                        if i < sig.params.len() {
                            let d = w1004(cs.callee.as_str(), &sig.params[i], a.value.span, keep);
                            st.push(d);
                            assert(diag_views(st@) =~= cur.push(d@));
                        }
                    }
                }
                assert(diag_views(st@) =~= before + lent_diags(
                    pkg,
                    *body,
                    args@,
                    cs.callee@,
                    *sig,
                    (i + 1) as nat,
                ));
                i = i + 1;
            }
            st
        },
        _ => st,
    }
}

/// The warnings of the calls in an expression, behind those before.
pub open spec fn calls_expr(pkg: &Package, home: Body, st: Seq<DiagView>, e: Expr) -> Seq<DiagView>
    decreases e, 1nat,
{
    match e.kind {
        ExprKind::Str(hs) => calls_holes(pkg, home, st, hs, 0),
        ExprKind::Paren(x, _) => calls_expr(pkg, home, st, *x),
        ExprKind::Member(x, _) => calls_expr(pkg, home, st, *x),
        ExprKind::Bracket { callee, args, .. } => {
            let st = calls_expr(pkg, home, st, *callee);
            let st = calls_exprs(pkg, home, st, args, 0);
            st
        },
        ExprKind::Tuple(es) => calls_exprs(pkg, home, st, es, 0),
        ExprKind::Block(b) => calls_stmts(pkg, home, st, b.stmts, 0),
        ExprKind::Prefix(_, x) => calls_expr(pkg, home, st, *x),
        ExprKind::Bin(_, l, r) => {
            let st = calls_expr(pkg, home, st, *l);
            let st = calls_expr(pkg, home, st, *r);
            st
        },
        ExprKind::Cast(x, _) => calls_expr(pkg, home, st, *x),
        ExprKind::Range { start, end, .. } => {
            let st = match start {
                Some(x) => calls_expr(pkg, home, st, *x),
                None => st,
            };
            let st = match end {
                Some(x) => calls_expr(pkg, home, st, *x),
                None => st,
            };
            st
        },
        ExprKind::FromEnd(x) => calls_expr(pkg, home, st, *x),
        ExprKind::Try(x) => calls_expr(pkg, home, st, *x),
        ExprKind::Call { callee, args, .. } => calls_args(pkg, home, calls_expr(pkg, home, st + call_diags(pkg, home, e), *callee), args, 0),
        ExprKind::StructLit(fs) => calls_fields(pkg, home, st, fs, 0),
        ExprKind::If { cond, then_block, els } => {
            let st = calls_expr(pkg, home, st, *cond);
            let st = calls_stmts(pkg, home, st, then_block.stmts, 0);
            let st = match els {
                Some(x) => calls_expr(pkg, home, st, *x),
                None => st,
            };
            st
        },
        ExprKind::Match { scrutinee, arms } => {
            let st = calls_expr(pkg, home, st, *scrutinee);
            let st = calls_arms(pkg, home, st, arms, 0);
            st
        },
        ExprKind::While { cond, body } => {
            let st = calls_expr(pkg, home, st, *cond);
            let st = calls_stmts(pkg, home, st, body.stmts, 0);
            st
        },
        ExprKind::For { iterable, body, .. } => {
            let st = calls_expr(pkg, home, st, *iterable);
            let st = calls_stmts(pkg, home, st, body.stmts, 0);
            st
        },
        ExprKind::Loop(b) => calls_stmts(pkg, home, st, b.stmts, 0),
        ExprKind::Else { scrutinized, fallback, .. } => {
            let st = calls_expr(pkg, home, st, *scrutinized);
            let st = match fallback {
                Some(x) => calls_expr(pkg, home, st, *x),
                None => st,
            };
            st
        },
        ExprKind::Return(x) => {
            let st = match x {
                Some(x) => calls_expr(pkg, home, st, *x),
                None => st,
            };
            st
        },
        ExprKind::Closure { body, .. } => {
            let st = match body {
                Some(x) => calls_expr(pkg, home, st, *x),
                None => st,
            };
            st
        },
        ExprKind::RegionBlock { body, .. } => calls_stmts(pkg, home, st, body.stmts, 0),
        ExprKind::In { region, body } => {
            let st = match region {
                Some(x) => calls_expr(pkg, home, st, *x),
                None => st,
            };
            let st = calls_stmts(pkg, home, st, body.stmts, 0);
            st
        },
        ExprKind::Freeze(x) => calls_expr(pkg, home, st, *x),
        ExprKind::Unsafe { body, .. } => calls_stmts(pkg, home, st, body.stmts, 0),
        ExprKind::Scope { body, .. } => calls_stmts(pkg, home, st, body.stmts, 0),
        ExprKind::Select(arms) => calls_selects(pkg, home, st, arms, 0),
        ExprKind::When { operands, body, .. } => {
            let st = calls_exprs(pkg, home, st, operands, 0);
            let st = calls_stmts(pkg, home, st, body.stmts, 0);
            st
        },
        ExprKind::Spawn(args) => calls_args(pkg, home, st, args, 0),
        ExprKind::Borrow { region, source } => {
            let st = calls_expr(pkg, home, st, *region);
            let st = calls_expr(pkg, home, st, *source);
            st
        },
        _ => st,
    }
}

fn gather_expr(pkg: &Package, home: &Body, st: Vec<Diagnostic>, e: &Expr) -> (r: Vec<Diagnostic>)
    ensures
        diag_views(r@) == calls_expr(pkg, *home, diag_views(st@), *e),
    decreases e, 1nat,
{
    match &e.kind {
        ExprKind::Str(hs) => gather_holes(pkg, home, st, hs),
        ExprKind::Paren(x, _) => gather_expr(pkg, home, st, x),
        ExprKind::Member(x, _) => gather_expr(pkg, home, st, x),
        ExprKind::Bracket { callee, args, .. } => {
            let st = gather_expr(pkg, home, st, callee);
            let st = gather_exprs(pkg, home, st, args);
            st
        },
        ExprKind::Tuple(es) => gather_exprs(pkg, home, st, es),
        ExprKind::Block(b) => gather_stmts(pkg, home, st, &b.stmts),
        ExprKind::Prefix(_, x) => gather_expr(pkg, home, st, x),
        ExprKind::Bin(_, l, r) => {
            let st = gather_expr(pkg, home, st, l);
            let st = gather_expr(pkg, home, st, r);
            st
        },
        ExprKind::Cast(x, _) => gather_expr(pkg, home, st, x),
        ExprKind::Range { start, end, .. } => {
            let st = match start {
                Some(x) => gather_expr(pkg, home, st, x),
                None => st,
            };
            let st = match end {
                Some(x) => gather_expr(pkg, home, st, x),
                None => st,
            };
            st
        },
        ExprKind::FromEnd(x) => gather_expr(pkg, home, st, x),
        ExprKind::Try(x) => gather_expr(pkg, home, st, x),
        ExprKind::Call { callee, args, .. } => {
            let st = report_call(pkg, home, st, e);
            let st = gather_expr(pkg, home, st, callee);
            gather_args(pkg, home, st, args)
        },
        ExprKind::StructLit(fs) => gather_fields(pkg, home, st, fs),
        ExprKind::If { cond, then_block, els } => {
            let st = gather_expr(pkg, home, st, cond);
            let st = gather_stmts(pkg, home, st, &then_block.stmts);
            let st = match els {
                Some(x) => gather_expr(pkg, home, st, x),
                None => st,
            };
            st
        },
        ExprKind::Match { scrutinee, arms } => {
            let st = gather_expr(pkg, home, st, scrutinee);
            let st = gather_arms(pkg, home, st, arms);
            st
        },
        ExprKind::While { cond, body } => {
            let st = gather_expr(pkg, home, st, cond);
            let st = gather_stmts(pkg, home, st, &body.stmts);
            st
        },
        ExprKind::For { iterable, body, .. } => {
            let st = gather_expr(pkg, home, st, iterable);
            let st = gather_stmts(pkg, home, st, &body.stmts);
            st
        },
        ExprKind::Loop(b) => gather_stmts(pkg, home, st, &b.stmts),
        ExprKind::Else { scrutinized, fallback, .. } => {
            let st = gather_expr(pkg, home, st, scrutinized);
            let st = match fallback {
                Some(x) => gather_expr(pkg, home, st, x),
                None => st,
            };
            st
        },
        ExprKind::Return(x) => {
            let st = match x {
                Some(x) => gather_expr(pkg, home, st, x),
                None => st,
            };
            st
        },
        ExprKind::Closure { body, .. } => {
            let st = match body {
                Some(x) => gather_expr(pkg, home, st, x),
                None => st,
            };
            st
        },
        ExprKind::RegionBlock { body, .. } => gather_stmts(pkg, home, st, &body.stmts),
        ExprKind::In { region, body } => {
            let st = match region {
                Some(x) => gather_expr(pkg, home, st, x),
                None => st,
            };
            let st = gather_stmts(pkg, home, st, &body.stmts);
            st
        },
        ExprKind::Freeze(x) => gather_expr(pkg, home, st, x),
        ExprKind::Unsafe { body, .. } => gather_stmts(pkg, home, st, &body.stmts),
        ExprKind::Scope { body, .. } => gather_stmts(pkg, home, st, &body.stmts),
        ExprKind::Select(arms) => gather_selects(pkg, home, st, arms),
        ExprKind::When { operands, body, .. } => {
            let st = gather_exprs(pkg, home, st, operands);
            let st = gather_stmts(pkg, home, st, &body.stmts);
            st
        },
        ExprKind::Spawn(args) => gather_args(pkg, home, st, args),
        ExprKind::Borrow { region, source } => {
            let st = gather_expr(pkg, home, st, region);
            let st = gather_expr(pkg, home, st, source);
            st
        },
        _ => st,
    }
}

pub open spec fn calls_stmt(pkg: &Package, home: Body, st: Seq<DiagView>, s: Statement) -> Seq<DiagView>
    decreases s, 0nat,
{
    match s {
        Statement::Expr(e) => calls_expr(pkg, home, st, e),
        Statement::Bind(bs) => calls_binders(pkg, home, st, bs, 0),
        Statement::Const { init, .. } => {
            let st = match init {
                Some(x) => calls_expr(pkg, home, st, x),
                None => st,
            };
            st
        },
        Statement::Assign { place, value, .. } => {
            let st = calls_expr(pkg, home, st, place);
            let st = calls_expr(pkg, home, st, value);
            st
        },
        Statement::Defer { expr, .. } => calls_expr(pkg, home, st, expr),
        Statement::Assume { exprs, .. } => calls_exprs(pkg, home, st, exprs, 0),
        Statement::Fn { body, .. } => {
            let st = match body {
                Some(b) => calls_stmts(pkg, home, st, b.stmts, 0),
                None => st,
            };
            st
        },
        _ => st,
    }
}

fn gather_stmt(pkg: &Package, home: &Body, st: Vec<Diagnostic>, s: &Statement) -> (r: Vec<Diagnostic>)
    ensures
        diag_views(r@) == calls_stmt(pkg, *home, diag_views(st@), *s),
    decreases s, 0nat,
{
    match s {
        Statement::Expr(e) => gather_expr(pkg, home, st, e),
        Statement::Bind(bs) => gather_binders(pkg, home, st, bs),
        Statement::Const { init, .. } => {
            let st = match init {
                Some(x) => gather_expr(pkg, home, st, x),
                None => st,
            };
            st
        },
        Statement::Assign { place, value, .. } => {
            let st = gather_expr(pkg, home, st, place);
            let st = gather_expr(pkg, home, st, value);
            st
        },
        Statement::Defer { expr, .. } => gather_expr(pkg, home, st, expr),
        Statement::Assume { exprs, .. } => gather_exprs(pkg, home, st, exprs),
        Statement::Fn { body, .. } => {
            let st = match body {
                Some(b) => gather_stmts(pkg, home, st, &b.stmts),
                None => st,
            };
            st
        },
        _ => st,
    }
}

pub open spec fn calls_exprs(pkg: &Package, home: Body, st: Seq<DiagView>, v: Vec<Expr>, i: nat) -> Seq<DiagView>
    decreases v, v@.len() - i,
{
    if i >= v@.len() {
        st
    } else {
        calls_exprs(pkg, home, calls_expr(pkg, home, st, v[i as int]), v, i + 1)
    }
}

fn gather_exprs(pkg: &Package, home: &Body, st: Vec<Diagnostic>, v: &Vec<Expr>) -> (r: Vec<Diagnostic>)
    ensures
        diag_views(r@) == calls_exprs(pkg, *home, diag_views(st@), *v, 0),
    decreases v, 0nat,
{
    let ghost first = diag_views(st@);
    let mut st = st;
    let mut i: usize = 0;
    while i < v.len()
        invariant
            i <= v@.len(),
            calls_exprs(pkg, *home, first, *v, 0) == calls_exprs(pkg, *home, diag_views(st@), *v, i as nat),
        decreases v.len() - i,
    {
        let next = gather_expr(pkg, home, st, &v[i]);
        st = next;
        i = i + 1;
    }
    st
}

pub open spec fn calls_args(pkg: &Package, home: Body, st: Seq<DiagView>, v: Vec<Arg>, i: nat) -> Seq<DiagView>
    decreases v, v@.len() - i,
{
    if i >= v@.len() {
        st
    } else {
        calls_args(pkg, home, calls_expr(pkg, home, st, v[i as int].value), v, i + 1)
    }
}

fn gather_args(pkg: &Package, home: &Body, st: Vec<Diagnostic>, v: &Vec<Arg>) -> (r: Vec<Diagnostic>)
    ensures
        diag_views(r@) == calls_args(pkg, *home, diag_views(st@), *v, 0),
    decreases v, 0nat,
{
    let ghost first = diag_views(st@);
    let mut st = st;
    let mut i: usize = 0;
    while i < v.len()
        invariant
            i <= v@.len(),
            calls_args(pkg, *home, first, *v, 0) == calls_args(pkg, *home, diag_views(st@), *v, i as nat),
        decreases v.len() - i,
    {
        let next = gather_expr(pkg, home, st, &v[i].value);
        st = next;
        i = i + 1;
    }
    st
}

pub open spec fn calls_fields(pkg: &Package, home: Body, st: Seq<DiagView>, v: Vec<FieldInit>, i: nat) -> Seq<DiagView>
    decreases v, v@.len() - i,
{
    if i >= v@.len() {
        st
    } else {
        calls_fields(pkg, home, calls_expr(pkg, home, st, v[i as int].value), v, i + 1)
    }
}

fn gather_fields(pkg: &Package, home: &Body, st: Vec<Diagnostic>, v: &Vec<FieldInit>) -> (r: Vec<Diagnostic>)
    ensures
        diag_views(r@) == calls_fields(pkg, *home, diag_views(st@), *v, 0),
    decreases v, 0nat,
{
    let ghost first = diag_views(st@);
    let mut st = st;
    let mut i: usize = 0;
    while i < v.len()
        invariant
            i <= v@.len(),
            calls_fields(pkg, *home, first, *v, 0) == calls_fields(pkg, *home, diag_views(st@), *v, i as nat),
        decreases v.len() - i,
    {
        let next = gather_expr(pkg, home, st, &v[i].value);
        st = next;
        i = i + 1;
    }
    st
}

pub open spec fn calls_holes(pkg: &Package, home: Body, st: Seq<DiagView>, v: Vec<Hole>, i: nat) -> Seq<DiagView>
    decreases v, v@.len() - i,
{
    if i >= v@.len() {
        st
    } else {
        let st = match v[i as int].expr {
            Some(x) => calls_expr(pkg, home, st, x),
            None => st,
        };
        calls_holes(pkg, home, st, v, i + 1)
    }
}

fn gather_holes(pkg: &Package, home: &Body, st: Vec<Diagnostic>, v: &Vec<Hole>) -> (r: Vec<Diagnostic>)
    ensures
        diag_views(r@) == calls_holes(pkg, *home, diag_views(st@), *v, 0),
    decreases v, 0nat,
{
    let ghost first = diag_views(st@);
    let mut st = st;
    let mut i: usize = 0;
    while i < v.len()
        invariant
            i <= v@.len(),
            calls_holes(pkg, *home, first, *v, 0) == calls_holes(pkg, *home, diag_views(st@), *v, i as nat),
        decreases v.len() - i,
    {
        let next = {
            let st = match &v[i].expr {
                Some(x) => gather_expr(pkg, home, st, x),
                None => st,
            };
            st
        };
        st = next;
        i = i + 1;
    }
    st
}

pub open spec fn calls_arms(pkg: &Package, home: Body, st: Seq<DiagView>, v: Vec<Arm>, i: nat) -> Seq<DiagView>
    decreases v, v@.len() - i,
{
    if i >= v@.len() {
        st
    } else {
        let st = match v[i as int].guard {
            Some(x) => calls_expr(pkg, home, st, x),
            None => st,
        };
        let st = match v[i as int].body {
            Some(x) => calls_expr(pkg, home, st, x),
            None => st,
        };
        calls_arms(pkg, home, st, v, i + 1)
    }
}

fn gather_arms(pkg: &Package, home: &Body, st: Vec<Diagnostic>, v: &Vec<Arm>) -> (r: Vec<Diagnostic>)
    ensures
        diag_views(r@) == calls_arms(pkg, *home, diag_views(st@), *v, 0),
    decreases v, 0nat,
{
    let ghost first = diag_views(st@);
    let mut st = st;
    let mut i: usize = 0;
    while i < v.len()
        invariant
            i <= v@.len(),
            calls_arms(pkg, *home, first, *v, 0) == calls_arms(pkg, *home, diag_views(st@), *v, i as nat),
        decreases v.len() - i,
    {
        let next = {
            let st = match &v[i].guard {
                Some(x) => gather_expr(pkg, home, st, x),
                None => st,
            };
            let st = match &v[i].body {
                Some(x) => gather_expr(pkg, home, st, x),
                None => st,
            };
            st
        };
        st = next;
        i = i + 1;
    }
    st
}

pub open spec fn calls_selects(pkg: &Package, home: Body, st: Seq<DiagView>, v: Vec<SelectArm>, i: nat) -> Seq<DiagView>
    decreases v, v@.len() - i,
{
    if i >= v@.len() {
        st
    } else {
        let st = match v[i as int].head {
            Some(x) => calls_expr(pkg, home, st, x),
            None => st,
        };
        let st = match v[i as int].body {
            Some(x) => calls_expr(pkg, home, st, x),
            None => st,
        };
        calls_selects(pkg, home, st, v, i + 1)
    }
}

fn gather_selects(pkg: &Package, home: &Body, st: Vec<Diagnostic>, v: &Vec<SelectArm>) -> (r: Vec<Diagnostic>)
    ensures
        diag_views(r@) == calls_selects(pkg, *home, diag_views(st@), *v, 0),
    decreases v, 0nat,
{
    let ghost first = diag_views(st@);
    let mut st = st;
    let mut i: usize = 0;
    while i < v.len()
        invariant
            i <= v@.len(),
            calls_selects(pkg, *home, first, *v, 0) == calls_selects(pkg, *home, diag_views(st@), *v, i as nat),
        decreases v.len() - i,
    {
        let next = {
            let st = match &v[i].head {
                Some(x) => gather_expr(pkg, home, st, x),
                None => st,
            };
            let st = match &v[i].body {
                Some(x) => gather_expr(pkg, home, st, x),
                None => st,
            };
            st
        };
        st = next;
        i = i + 1;
    }
    st
}

pub open spec fn calls_binders(pkg: &Package, home: Body, st: Seq<DiagView>, v: Vec<Binder>, i: nat) -> Seq<DiagView>
    decreases v, v@.len() - i,
{
    if i >= v@.len() {
        st
    } else {
        let st = match v[i as int].init {
            Some(x) => calls_expr(pkg, home, st, x),
            None => st,
        };
        calls_binders(pkg, home, st, v, i + 1)
    }
}

fn gather_binders(pkg: &Package, home: &Body, st: Vec<Diagnostic>, v: &Vec<Binder>) -> (r: Vec<Diagnostic>)
    ensures
        diag_views(r@) == calls_binders(pkg, *home, diag_views(st@), *v, 0),
    decreases v, 0nat,
{
    let ghost first = diag_views(st@);
    let mut st = st;
    let mut i: usize = 0;
    while i < v.len()
        invariant
            i <= v@.len(),
            calls_binders(pkg, *home, first, *v, 0) == calls_binders(pkg, *home, diag_views(st@), *v, i as nat),
        decreases v.len() - i,
    {
        let next = {
            let st = match &v[i].init {
                Some(x) => gather_expr(pkg, home, st, x),
                None => st,
            };
            st
        };
        st = next;
        i = i + 1;
    }
    st
}

pub open spec fn calls_stmts(pkg: &Package, home: Body, st: Seq<DiagView>, v: Vec<Statement>, i: nat) -> Seq<DiagView>
    decreases v, v@.len() - i,
{
    if i >= v@.len() {
        st
    } else {
        calls_stmts(pkg, home, calls_stmt(pkg, home, st, v[i as int]), v, i + 1)
    }
}

fn gather_stmts(pkg: &Package, home: &Body, st: Vec<Diagnostic>, v: &Vec<Statement>) -> (r: Vec<Diagnostic>)
    ensures
        diag_views(r@) == calls_stmts(pkg, *home, diag_views(st@), *v, 0),
    decreases v, 0nat,
{
    let ghost first = diag_views(st@);
    let mut st = st;
    let mut i: usize = 0;
    while i < v.len()
        invariant
            i <= v@.len(),
            calls_stmts(pkg, *home, first, *v, 0) == calls_stmts(pkg, *home, diag_views(st@), *v, i as nat),
        decreases v.len() - i,
    {
        let next = gather_stmt(pkg, home, st, &v[i]);
        st = next;
        i = i + 1;
    }
    st
}

// ---------------------------------------------------------- read positions --

/// Every occurrence of the name in the expression is a read position or a
/// re-lend into a parameter that lends.
pub open spec fn reads_expr(pkg: &Package, word: Seq<char>, stack: Seq<(Span, usize)>, e: Expr) -> bool
    decreases e, 1nat,
{
    match e.kind {
        ExprKind::Str(hs) => reads_holes(pkg, word, stack, hs, 0),
        ExprKind::Paren(x, _) => reads_expr(pkg, word, stack, *x),
        ExprKind::Member(x, m) => if is_param(*x, word) {
            m@ == "len"@
        } else {
            reads_expr(pkg, word, stack, *x)
        },
        ExprKind::Bracket { callee, args, .. } => (is_param(*callee, word) || reads_expr(pkg, word, stack, *callee)) && reads_exprs(pkg, word, stack, args, 0),
        ExprKind::Tuple(es) => reads_exprs(pkg, word, stack, es, 0),
        ExprKind::Block(b) => reads_stmts(pkg, word, stack, b.stmts, 0),
        ExprKind::Prefix(_, x) => reads_expr(pkg, word, stack, *x),
        ExprKind::Bin(_, l, r) => {
                &&& reads_expr(pkg, word, stack, *l)
                &&& reads_expr(pkg, word, stack, *r)
        },
        ExprKind::Cast(x, _) => reads_expr(pkg, word, stack, *x),
        ExprKind::Range { start, end, .. } => {
                &&& match start {
                    Some(x) => reads_expr(pkg, word, stack, *x),
                    None => true,
                }
                &&& match end {
                    Some(x) => reads_expr(pkg, word, stack, *x),
                    None => true,
                }
        },
        ExprKind::FromEnd(x) => reads_expr(pkg, word, stack, *x),
        ExprKind::Try(x) => reads_expr(pkg, word, stack, *x),
        ExprKind::Call { .. } => reads_call(pkg, word, stack, e),
        ExprKind::StructLit(fs) => reads_fields(pkg, word, stack, fs, 0),
        ExprKind::If { cond, then_block, els } => {
                &&& reads_expr(pkg, word, stack, *cond)
                &&& reads_stmts(pkg, word, stack, then_block.stmts, 0)
                &&& match els {
                    Some(x) => reads_expr(pkg, word, stack, *x),
                    None => true,
                }
        },
        ExprKind::Match { scrutinee, arms } => {
                &&& reads_expr(pkg, word, stack, *scrutinee)
                &&& reads_arms(pkg, word, stack, arms, 0)
        },
        ExprKind::While { cond, body } => {
                &&& reads_expr(pkg, word, stack, *cond)
                &&& reads_stmts(pkg, word, stack, body.stmts, 0)
        },
        ExprKind::For { iterable, body, .. } => (is_param(*iterable, word) || reads_expr(pkg, word, stack, *iterable)) && reads_stmts(pkg, word, stack, body.stmts, 0),
        ExprKind::Loop(b) => reads_stmts(pkg, word, stack, b.stmts, 0),
        ExprKind::Else { scrutinized, fallback, .. } => {
                &&& reads_expr(pkg, word, stack, *scrutinized)
                &&& match fallback {
                    Some(x) => reads_expr(pkg, word, stack, *x),
                    None => true,
                }
        },
        ExprKind::Return(x) => match x {
            Some(x) => reads_expr(pkg, word, stack, *x),
            None => true,
        },
        ExprKind::Closure { body, .. } => match body {
            Some(x) => reads_expr(pkg, word, stack, *x),
            None => true,
        },
        ExprKind::RegionBlock { body, .. } => reads_stmts(pkg, word, stack, body.stmts, 0),
        ExprKind::In { region, body } => {
                &&& match region {
                    Some(x) => reads_expr(pkg, word, stack, *x),
                    None => true,
                }
                &&& reads_stmts(pkg, word, stack, body.stmts, 0)
        },
        ExprKind::Freeze(x) => reads_expr(pkg, word, stack, *x),
        ExprKind::Unsafe { body, .. } => reads_stmts(pkg, word, stack, body.stmts, 0),
        ExprKind::Scope { body, .. } => reads_stmts(pkg, word, stack, body.stmts, 0),
        ExprKind::Select(arms) => reads_selects(pkg, word, stack, arms, 0),
        ExprKind::When { operands, body, .. } => {
                &&& reads_exprs(pkg, word, stack, operands, 0)
                &&& reads_stmts(pkg, word, stack, body.stmts, 0)
        },
        ExprKind::Spawn(args) => reads_args(pkg, word, stack, args, 0),
        ExprKind::Borrow { region, source } => {
                &&& reads_expr(pkg, word, stack, *region)
                &&& reads_expr(pkg, word, stack, *source)
        },
        ExprKind::Path(n) => n@ != word,
        _ => true,
    }
}

/// The same of a statement.
pub open spec fn reads_stmt(pkg: &Package, word: Seq<char>, stack: Seq<(Span, usize)>, s: Statement) -> bool
    decreases s, 0nat,
{
    match s {
        Statement::Expr(e) => reads_expr(pkg, word, stack, e),
        Statement::Bind(bs) => reads_binders(pkg, word, stack, bs, 0),
        Statement::Const { init, .. } => match init {
            Some(x) => reads_expr(pkg, word, stack, x),
            None => true,
        },
        Statement::Assign { place, value, .. } => {
                &&& reads_expr(pkg, word, stack, place)
                &&& reads_expr(pkg, word, stack, value)
        },
        Statement::Defer { expr, .. } => reads_expr(pkg, word, stack, expr),
        Statement::Assume { exprs, .. } => reads_exprs(pkg, word, stack, exprs, 0),
        Statement::Fn { body, .. } => match body {
            Some(b) => reads_stmts(pkg, word, stack, b.stmts, 0),
            None => true,
        },
        _ => true,
    }
}

/// The same of a call: a query of the view, or a re-lend.
pub open spec fn reads_call(pkg: &Package, word: Seq<char>, stack: Seq<(Span, usize)>, e: Expr) -> bool
    decreases e, 0nat,
{
    match e.kind {
        ExprKind::Call { callee, args, .. } => match callee.kind {
            ExprKind::Member(base, m) => if is_param(*base, word) {
                is_query(m@) && reads_args(pkg, word, stack, args, 0)
            } else {
                reads_expr(pkg, word, stack, *callee) && reads_lent(pkg, word, stack, args, 0, None)
            },
            _ => reads_expr(pkg, word, stack, *callee) && reads_lent(pkg, word, stack, args, 0, path_name(*callee)),
        },
        _ => true,
    }
}

/// The callee, if known, lends what it gets as argument `i`.
pub open spec fn re_lent(
    pkg: &Package,
    stack: Seq<(Span, usize)>,
    callee: Option<Seq<char>>,
    i: nat,
) -> bool {
    callee matches Some(n) && (callee_of(pkg, n, None) matches Some(sig) && param_at(
        pkg,
        sig,
        i as usize,
        stack,
    ) == Lend::Lendable)
}

/// The same of the arguments of a plain call, from `i` on.
pub open spec fn reads_lent(pkg: &Package, word: Seq<char>, stack: Seq<(Span, usize)>, args: Vec<Arg>, i: nat, callee: Option<Seq<char>>) -> bool
    decreases args, args@.len() - i,
{
    if i >= args@.len() {
        true
    } else {
        &&& if is_param(args[i as int].value, word) {
            args[i as int].mode is None && re_lent(pkg, stack, callee, i)
        } else {
            reads_expr(pkg, word, stack, args[i as int].value)
        }
        &&& reads_lent(pkg, word, stack, args, i + 1, callee)
    }
}

pub open spec fn reads_exprs(pkg: &Package, word: Seq<char>, stack: Seq<(Span, usize)>, v: Vec<Expr>, i: nat) -> bool
    decreases v, v@.len() - i,
{
    if i >= v@.len() {
        true
    } else {
            &&& reads_expr(pkg, word, stack, v[i as int])
            &&& reads_exprs(pkg, word, stack, v, i + 1)
    }
}

pub open spec fn reads_args(pkg: &Package, word: Seq<char>, stack: Seq<(Span, usize)>, v: Vec<Arg>, i: nat) -> bool
    decreases v, v@.len() - i,
{
    if i >= v@.len() {
        true
    } else {
            &&& reads_expr(pkg, word, stack, v[i as int].value)
            &&& reads_args(pkg, word, stack, v, i + 1)
    }
}

pub open spec fn reads_fields(pkg: &Package, word: Seq<char>, stack: Seq<(Span, usize)>, v: Vec<FieldInit>, i: nat) -> bool
    decreases v, v@.len() - i,
{
    if i >= v@.len() {
        true
    } else {
            &&& reads_expr(pkg, word, stack, v[i as int].value)
            &&& reads_fields(pkg, word, stack, v, i + 1)
    }
}

pub open spec fn reads_holes(pkg: &Package, word: Seq<char>, stack: Seq<(Span, usize)>, v: Vec<Hole>, i: nat) -> bool
    decreases v, v@.len() - i,
{
    if i >= v@.len() {
        true
    } else {
            &&& match v[i as int].expr {
                Some(x) => reads_expr(pkg, word, stack, x),
                None => true,
            }
            &&& reads_holes(pkg, word, stack, v, i + 1)
    }
}

pub open spec fn reads_arms(pkg: &Package, word: Seq<char>, stack: Seq<(Span, usize)>, v: Vec<Arm>, i: nat) -> bool
    decreases v, v@.len() - i,
{
    if i >= v@.len() {
        true
    } else {
            &&& match v[i as int].guard {
                Some(x) => reads_expr(pkg, word, stack, x),
                None => true,
            }
            &&& match v[i as int].body {
                Some(x) => reads_expr(pkg, word, stack, x),
                None => true,
            }
            &&& reads_arms(pkg, word, stack, v, i + 1)
    }
}

pub open spec fn reads_selects(pkg: &Package, word: Seq<char>, stack: Seq<(Span, usize)>, v: Vec<SelectArm>, i: nat) -> bool
    decreases v, v@.len() - i,
{
    if i >= v@.len() {
        true
    } else {
            &&& match v[i as int].head {
                Some(x) => reads_expr(pkg, word, stack, x),
                None => true,
            }
            &&& match v[i as int].body {
                Some(x) => reads_expr(pkg, word, stack, x),
                None => true,
            }
            &&& reads_selects(pkg, word, stack, v, i + 1)
    }
}

pub open spec fn reads_binders(pkg: &Package, word: Seq<char>, stack: Seq<(Span, usize)>, v: Vec<Binder>, i: nat) -> bool
    decreases v, v@.len() - i,
{
    if i >= v@.len() {
        true
    } else {
            &&& match v[i as int].init {
                Some(x) => reads_expr(pkg, word, stack, x),
                None => true,
            }
            &&& reads_binders(pkg, word, stack, v, i + 1)
    }
}

pub open spec fn reads_stmts(pkg: &Package, word: Seq<char>, stack: Seq<(Span, usize)>, v: Vec<Statement>, i: nat) -> bool
    decreases v, v@.len() - i,
{
    if i >= v@.len() {
        true
    } else {
            &&& reads_stmt(pkg, word, stack, v[i as int])
            &&& reads_stmts(pkg, word, stack, v, i + 1)
    }
}

/// Nothing but reads and re-lends was met.
pub open spec fn clean(f: Found) -> bool {
    f.escape is None && !f.opaque
}

proof fn clean_expr(
    pkg: &Package,
    word: Seq<char>,
    stack: Seq<(Span, usize)>,
    st: Found,
    e: Expr,
    esc: bool,
)
    ensures
        clean(scan_expr(pkg, word, stack, st, e, esc)) ==> clean(st) && reads_expr(pkg, word, stack, e),
    decreases fuel(stack), 1nat, e, 1nat,
{
    if !(st.escape is Some) {
        match e.kind {
            ExprKind::Str(hs) => {
                clean_holes(pkg, word, stack, st, hs, 0, false);
            },
            ExprKind::Paren(x, _) => {
                clean_expr(pkg, word, stack, st, *x, esc);
            },
            ExprKind::Member(x, m) => {
                if !(is_param(*x, word)) {
                    clean_expr(pkg, word, stack, st, *x, false);
                }
            },
            ExprKind::Bracket { callee, args, .. } => {
                if is_param(*callee, word) {
                    clean_exprs(pkg, word, stack, st, args, 0, false);
                } else {
                    clean_expr(pkg, word, stack, st, *callee, false);
                    clean_exprs(pkg, word, stack, scan_expr(pkg, word, stack, st, *callee, false), args, 0, false);
                }
            },
            ExprKind::Tuple(es) => {
                clean_exprs(pkg, word, stack, st, es, 0, false);
            },
            ExprKind::Block(b) => {
                clean_stmts(pkg, word, stack, st, b.stmts, 0, tail_of(b, esc));
            },
            ExprKind::Prefix(_, x) => {
                clean_expr(pkg, word, stack, st, *x, false);
            },
            ExprKind::Bin(_, l, r) => {
                clean_expr(pkg, word, stack, st, *l, false);
                let st = scan_expr(pkg, word, stack, st, *l, false);
                clean_expr(pkg, word, stack, st, *r, false);
            },
            ExprKind::Cast(x, _) => {
                clean_expr(pkg, word, stack, st, *x, false);
            },
            ExprKind::Range { start, end, .. } => {
                match start {
                    Some(x) => {
                        clean_expr(pkg, word, stack, st, *x, false);
                    },
                    _ => {},
                }
                let st = match start { Some(x) => scan_expr(pkg, word, stack, st, *x, false), None => st, };
                match end {
                    Some(x) => {
                        clean_expr(pkg, word, stack, st, *x, false);
                    },
                    _ => {},
                }
            },
            ExprKind::FromEnd(x) => {
                clean_expr(pkg, word, stack, st, *x, false);
            },
            ExprKind::Try(x) => {
                clean_expr(pkg, word, stack, st, *x, false);
            },
            ExprKind::Call { .. } => {
                clean_call(pkg, word, stack, st, e);
            },
            ExprKind::StructLit(fs) => {
                clean_fields(pkg, word, stack, st, fs, 0, false);
            },
            ExprKind::If { cond, then_block, els } => {
                clean_expr(pkg, word, stack, st, *cond, esc);
                let st = scan_expr(pkg, word, stack, st, *cond, esc);
                clean_stmts(pkg, word, stack, st, then_block.stmts, 0, tail_of(then_block, esc));
                let st = scan_stmts(pkg, word, stack, st, then_block.stmts, 0, tail_of(then_block, esc));
                match els {
                    Some(x) => {
                        clean_expr(pkg, word, stack, st, *x, esc);
                    },
                    _ => {},
                }
            },
            ExprKind::Match { scrutinee, arms } => {
                clean_expr(pkg, word, stack, st, *scrutinee, esc);
                clean_arms(pkg, word, stack, scan_expr(pkg, word, stack, st, *scrutinee, esc), arms, 0, esc);
            },
            ExprKind::While { cond, body } => {
                clean_expr(pkg, word, stack, st, *cond, false);
                let st = scan_expr(pkg, word, stack, st, *cond, false);
                clean_stmts(pkg, word, stack, st, body.stmts, 0, None);
            },
            ExprKind::For { iterable, body, .. } => {
                if is_param(*iterable, word) {
                    clean_stmts(pkg, word, stack, st, body.stmts, 0, None);
                } else {
                    clean_expr(pkg, word, stack, st, *iterable, false);
                    clean_stmts(pkg, word, stack, scan_expr(pkg, word, stack, st, *iterable, false), body.stmts, 0, None);
                }
            },
            ExprKind::Loop(b) => {
                clean_stmts(pkg, word, stack, st, b.stmts, 0, None);
            },
            ExprKind::Else { scrutinized, fallback, .. } => {
                clean_expr(pkg, word, stack, st, *scrutinized, false);
                let st = scan_expr(pkg, word, stack, st, *scrutinized, false);
                match fallback {
                    Some(x) => {
                        clean_expr(pkg, word, stack, st, *x, false);
                    },
                    _ => {},
                }
            },
            ExprKind::Return(x) => {
                match x {
                    Some(x) => {
                        clean_expr(pkg, word, stack, st, *x, true);
                    },
                    _ => {},
                }
            },
            ExprKind::Closure { body, .. } => {
                match body {
                    Some(x) => {
                        clean_expr(pkg, word, stack, st, *x, false);
                    },
                    _ => {},
                }
            },
            ExprKind::RegionBlock { body, .. } => {
                clean_stmts(pkg, word, stack, st, body.stmts, 0, None);
            },
            ExprKind::In { region, body } => {
                match region {
                    Some(x) => {
                        clean_expr(pkg, word, stack, st, *x, false);
                    },
                    _ => {},
                }
                let st = match region { Some(x) => scan_expr(pkg, word, stack, st, *x, false), None => st, };
                clean_stmts(pkg, word, stack, st, body.stmts, 0, None);
            },
            ExprKind::Freeze(x) => {
                clean_expr(pkg, word, stack, st, *x, false);
            },
            ExprKind::Unsafe { body, .. } => {
                clean_stmts(pkg, word, stack, st, body.stmts, 0, None);
            },
            ExprKind::Scope { body, .. } => {
                clean_stmts(pkg, word, stack, st, body.stmts, 0, None);
            },
            ExprKind::Select(arms) => {
                clean_selects(pkg, word, stack, st, arms, 0, false);
            },
            ExprKind::When { operands, body, .. } => {
                clean_exprs(pkg, word, stack, st, operands, 0, false);
                let st = scan_exprs(pkg, word, stack, st, operands, 0, false);
                clean_stmts(pkg, word, stack, st, body.stmts, 0, None);
            },
            ExprKind::Spawn(args) => {
                clean_args(pkg, word, stack, st, args, 0, false);
            },
            ExprKind::Borrow { region, source } => {
                clean_expr(pkg, word, stack, st, *region, false);
                let st = scan_expr(pkg, word, stack, st, *region, false);
                clean_expr(pkg, word, stack, st, *source, false);
            },
            _ => {},
        }
    }
}

proof fn clean_stmt(
    pkg: &Package,
    word: Seq<char>,
    stack: Seq<(Span, usize)>,
    st: Found,
    s: Statement,
    esc: bool,
)
    ensures
        clean(scan_stmt(pkg, word, stack, st, s, esc)) ==> clean(st) && reads_stmt(pkg, word, stack, s),
    decreases fuel(stack), 1nat, s, 0nat,
{
    match s {
        Statement::Expr(e) => {
            clean_expr(pkg, word, stack, st, e, esc);
        },
        Statement::Bind(bs) => {
            clean_binders(pkg, word, stack, st, bs, 0, false);
        },
        Statement::Const { init, .. } => {
            match init {
                Some(x) => {
                    clean_expr(pkg, word, stack, st, x, false);
                },
                _ => {},
            }
        },
        Statement::Assign { place, value, .. } => {
            clean_expr(pkg, word, stack, st, place, false);
            clean_expr(pkg, word, stack, scan_expr(pkg, word, stack, st, place, false), value, true);
        },
        Statement::Defer { expr, .. } => {
            clean_expr(pkg, word, stack, st, expr, false);
        },
        Statement::Assume { exprs, .. } => {
            clean_exprs(pkg, word, stack, st, exprs, 0, false);
        },
        Statement::Fn { body, .. } => {
            match body {
                Some(b) => {
                    clean_stmts(pkg, word, stack, st, b.stmts, 0, None);
                },
                _ => {},
            }
        },
        _ => {},
    }
}

proof fn clean_exprs(
    pkg: &Package,
    word: Seq<char>,
    stack: Seq<(Span, usize)>,
    st: Found,
    v: Vec<Expr>,
    i: nat,
    esc: bool,
)
    ensures
        clean(scan_exprs(pkg, word, stack, st, v, i, esc)) ==> clean(st) && reads_exprs(pkg, word, stack, v, i),
    decreases fuel(stack), 1nat, v, v@.len() - i,
{
    if i < v@.len() {
        clean_expr(pkg, word, stack, st, v[i as int], esc);
        clean_exprs(pkg, word, stack, scan_expr(pkg, word, stack, st, v[i as int], esc), v, i + 1, esc);
    }
}

proof fn clean_args(
    pkg: &Package,
    word: Seq<char>,
    stack: Seq<(Span, usize)>,
    st: Found,
    v: Vec<Arg>,
    i: nat,
    esc: bool,
)
    ensures
        clean(scan_args(pkg, word, stack, st, v, i, esc)) ==> clean(st) && reads_args(pkg, word, stack, v, i),
    decreases fuel(stack), 1nat, v, v@.len() - i,
{
    if i < v@.len() {
        clean_expr(pkg, word, stack, st, v[i as int].value, esc);
        clean_args(pkg, word, stack, scan_expr(pkg, word, stack, st, v[i as int].value, esc), v, i + 1, esc);
    }
}

proof fn clean_fields(
    pkg: &Package,
    word: Seq<char>,
    stack: Seq<(Span, usize)>,
    st: Found,
    v: Vec<FieldInit>,
    i: nat,
    esc: bool,
)
    ensures
        clean(scan_fields(pkg, word, stack, st, v, i, esc)) ==> clean(st) && reads_fields(pkg, word, stack, v, i),
    decreases fuel(stack), 1nat, v, v@.len() - i,
{
    if i < v@.len() {
        clean_expr(pkg, word, stack, st, v[i as int].value, esc);
        clean_fields(pkg, word, stack, scan_expr(pkg, word, stack, st, v[i as int].value, esc), v, i + 1, esc);
    }
}

proof fn clean_holes(
    pkg: &Package,
    word: Seq<char>,
    stack: Seq<(Span, usize)>,
    st: Found,
    v: Vec<Hole>,
    i: nat,
    esc: bool,
)
    ensures
        clean(scan_holes(pkg, word, stack, st, v, i, esc)) ==> clean(st) && reads_holes(pkg, word, stack, v, i),
    decreases fuel(stack), 1nat, v, v@.len() - i,
{
    if i < v@.len() {
        match v[i as int].expr {
            Some(x) => {
                clean_expr(pkg, word, stack, st, x, esc);
            },
            _ => {},
        }
        let st = match v[i as int].expr { Some(x) => scan_expr(pkg, word, stack, st, x, esc), None => st, };
        clean_holes(pkg, word, stack, st, v, i + 1, esc);
    }
}

proof fn clean_arms(
    pkg: &Package,
    word: Seq<char>,
    stack: Seq<(Span, usize)>,
    st: Found,
    v: Vec<Arm>,
    i: nat,
    esc: bool,
)
    ensures
        clean(scan_arms(pkg, word, stack, st, v, i, esc)) ==> clean(st) && reads_arms(pkg, word, stack, v, i),
    decreases fuel(stack), 1nat, v, v@.len() - i,
{
    if i < v@.len() {
        match v[i as int].guard {
            Some(x) => {
                clean_expr(pkg, word, stack, st, x, esc);
            },
            _ => {},
        }
        let st = match v[i as int].guard { Some(x) => scan_expr(pkg, word, stack, st, x, esc), None => st, };
        match v[i as int].body {
            Some(x) => {
                clean_expr(pkg, word, stack, st, x, esc);
            },
            _ => {},
        }
        let st = match v[i as int].body { Some(x) => scan_expr(pkg, word, stack, st, x, esc), None => st, };
        clean_arms(pkg, word, stack, st, v, i + 1, esc);
    }
}

proof fn clean_selects(
    pkg: &Package,
    word: Seq<char>,
    stack: Seq<(Span, usize)>,
    st: Found,
    v: Vec<SelectArm>,
    i: nat,
    esc: bool,
)
    ensures
        clean(scan_selects(pkg, word, stack, st, v, i, esc)) ==> clean(st) && reads_selects(pkg, word, stack, v, i),
    decreases fuel(stack), 1nat, v, v@.len() - i,
{
    if i < v@.len() {
        match v[i as int].head {
            Some(x) => {
                clean_expr(pkg, word, stack, st, x, esc);
            },
            _ => {},
        }
        let st = match v[i as int].head { Some(x) => scan_expr(pkg, word, stack, st, x, esc), None => st, };
        match v[i as int].body {
            Some(x) => {
                clean_expr(pkg, word, stack, st, x, esc);
            },
            _ => {},
        }
        let st = match v[i as int].body { Some(x) => scan_expr(pkg, word, stack, st, x, esc), None => st, };
        clean_selects(pkg, word, stack, st, v, i + 1, esc);
    }
}

proof fn clean_binders(
    pkg: &Package,
    word: Seq<char>,
    stack: Seq<(Span, usize)>,
    st: Found,
    v: Vec<Binder>,
    i: nat,
    esc: bool,
)
    ensures
        clean(scan_binders(pkg, word, stack, st, v, i, esc)) ==> clean(st) && reads_binders(pkg, word, stack, v, i),
    decreases fuel(stack), 1nat, v, v@.len() - i,
{
    if i < v@.len() {
        match v[i as int].init {
            Some(x) => {
                clean_expr(pkg, word, stack, st, x, esc);
            },
            _ => {},
        }
        let st = match v[i as int].init { Some(x) => scan_expr(pkg, word, stack, st, x, esc), None => st, };
        clean_binders(pkg, word, stack, st, v, i + 1, esc);
    }
}

proof fn clean_stmts(
    pkg: &Package,
    word: Seq<char>,
    stack: Seq<(Span, usize)>,
    st: Found,
    v: Vec<Statement>,
    i: nat,
    tail: Option<Span>,
)
    ensures
        clean(scan_stmts(pkg, word, stack, st, v, i, tail)) ==> clean(st) && reads_stmts(pkg, word, stack, v, i),
    decreases fuel(stack), 1nat, v, v@.len() - i,
{
    if i < v@.len() {
        clean_stmt(pkg, word, stack, st, v[i as int], trails(v[i as int], tail));
        clean_stmts(pkg, word, stack, scan_stmt(pkg, word, stack, st, v[i as int], trails(v[i as int], tail)), v, i + 1, tail);
    }
}

proof fn clean_call(
    pkg: &Package,
    name: Seq<char>,
    stack: Seq<(Span, usize)>,
    st: Found,
    e: Expr,
)
    ensures
        clean(scan_call(pkg, name, stack, st, e)) ==> clean(st) && reads_call(pkg, name, stack, e),
    decreases fuel(stack), 1nat, e, 0nat,
{
    match e.kind {
        ExprKind::Call { callee, args, .. } => {
            match callee.kind {
                ExprKind::Member(base, m) => {
                    if is_param(*base, name) {
                        clean_args(pkg, name, stack, if is_query(m@) { st }else { st.hidden() }, args, 0, false);
                    } else {
                        clean_expr(pkg, name, stack, st, *callee, false);
                        clean_lent(pkg, name, stack, scan_expr(pkg, name, stack, st, *callee, false), args, 0, None);
                    }
                },
                _ => {
                    clean_expr(pkg, name, stack, st, *callee, false);
                    clean_lent(pkg, name, stack, scan_expr(pkg, name, stack, st, *callee, false), args, 0, path_name(*callee));
                },
            }
        },
        _ => {},
    }
}

proof fn clean_lent(
    pkg: &Package,
    name: Seq<char>,
    stack: Seq<(Span, usize)>,
    st: Found,
    args: Vec<Arg>,
    i: nat,
    callee: Option<Seq<char>>,
)
    ensures
        clean(scan_lent(pkg, name, stack, st, args, i, callee)) ==> clean(st) && reads_lent(pkg, name, stack, args, i, callee),
    decreases fuel(stack), 1nat, args, args@.len() - i,
{
    if i < args@.len() {
        if !is_param(args[i as int].value, name) {
            clean_expr(pkg, name, stack, st, args[i as int].value, false);
            clean_lent(pkg, name, stack, scan_expr(pkg, name, stack, st, args[i as int].value, false), args, i + 1, callee);
        } else {
            if !(args[i as int].mode is Some) {
                let next = match callee { None => st.hidden(), Some(n) => match callee_of(pkg, n, None) { None => st.hidden(), Some(sig) => match param_at(pkg, sig, i as usize, stack) { Lend::Lendable => st, Lend::Escapes(_) => st.escapes(args[i as int].value.span), Lend::Opaque => st.hidden(), }, }, };
                clean_lent(pkg, name, stack, next, args, i + 1, callee);
            }
        }
    }
}

/// The warnings of a body: every byte view lent to a parameter that the
/// callee makes outlive the call.
pub open spec fn body_warnings(pkg: &Package, body: Body) -> Seq<DiagView> {
    match body.kind {
        BodyKind::Fn(d) => match d.body {
            Some(b) => calls_stmts(pkg, body, Seq::empty(), b.stmts, 0),
            None => Seq::empty(),
        },
        BodyKind::Init(e) => calls_expr(pkg, body, Seq::empty(), e),
    }
}

/// Report every byte view of a checked body that is lent to a parameter
/// which the callee makes outlive the call. Only provable escapes are
/// reported.
pub fn check_body(lender: &Lender<'_>, body: &Body, diags: &mut Vec<Diagnostic>)
    ensures
        diag_views(final(diags)@) == diag_views(old(diags)@) + body_warnings(lender.pkg, *body),
{
    let none: Vec<Diagnostic> = Vec::new();
    assert(diag_views(none@) =~= Seq::<DiagView>::empty());
    let found = match &body.kind {
        BodyKind::Fn(d) => match &d.body {
            Some(b) => gather_stmts(lender.pkg, body, none, &b.stmts),
            None => none,
        },
        BodyKind::Init(e) => gather_expr(lender.pkg, body, none, e),
    };
    append_diags(diags, found);
}

fn append_diags(out: &mut Vec<Diagnostic>, more: Vec<Diagnostic>)
    ensures
        diag_views(final(out)@) == diag_views(old(out)@) + diag_views(more@),
{
    let ghost before = out@;
    let ghost extra = more@;
    let mut more = more;
    out.append(&mut more);
    assert(diag_views(out@) =~= diag_views(before) + diag_views(extra));
}

/// A view crosses a call only into a `read` parameter of type `List[int]`
/// whose body was seen and binds the name nowhere else, and every
/// occurrence of the name in that body is a read position or a re-lend
/// into a parameter that lends.
pub proof fn law_lent_is_read(pkg: &Package, sig: FnSig, ix: usize)
    requires
        param_at(pkg, sig, ix, Seq::empty()) == Lend::Lendable,
    ensures
        ix < sig.params@.len(),
        sig.params@[ix as int].mode is None,
        byte_list(pkg.sigs.table, sig.params@[ix as int].ty),
        body_at(pkg, sig.name_span, pkg.bodies@.len()) matches Some(b) && (
        pkg.bodies@[b].kind matches BodyKind::Fn(d) && (d.body matches Some(block)
            && !rebinds_stmts(sig.params@[ix as int].name@, false, block.stmts, 0) && reads_stmts(
            pkg,
            sig.params@[ix as int].name@,
            seq![(sig.name_span, ix)],
            block.stmts,
            0,
        ))),
{
    let b = body_at(pkg, sig.name_span, pkg.bodies@.len())->0;
    match pkg.bodies@[b].kind {
        BodyKind::Fn(d) => match d.body {
            Some(block) => {
                let stack = Seq::<(Span, usize)>::empty().push((sig.name_span, ix));
                assert(stack =~= seq![(sig.name_span, ix)]);
                clean_stmts(
                    pkg,
                    sig.params@[ix as int].name@,
                    stack,
                    Found { escape: None, opaque: false },
                    block.stmts,
                    0,
                    block.trailing,
                );
            },
            None => {},
        },
        _ => {},
    }
}

/// A parameter that is re-lent to itself adds no use: the cycle lends.
pub proof fn law_cycle_lends(pkg: &Package, sig: FnSig, ix: usize, stack: Seq<(Span, usize)>)
    requires
        stack.contains((sig.name_span, ix)),
    ensures
        param_at(pkg, sig, ix, stack) == Lend::Lendable,
{
}

/// The first escape of a walk stands, whatever follows.
pub proof fn law_escape_stands(
    pkg: &Package,
    name: Seq<char>,
    stack: Seq<(Span, usize)>,
    st: Found,
    e: Expr,
    esc: bool,
)
    requires
        st.escape is Some,
    ensures
        scan_expr(pkg, name, stack, st, e, esc) == st,
{
}


} // verus!
