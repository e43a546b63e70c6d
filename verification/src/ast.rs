//! The checked bodies: expression trees with the facts the type checker
//! recorded at each node (types, call surfaces, casts, dispatch).

use vstd::prelude::*;

use crate::cfg::ParamMode;
use crate::diag::Span;
use crate::types::{CallSig, TyId, TypeTable};

verus! {

/// A name bound at a span, with its checked type.
#[derive(Debug)]
pub struct Bind {
    pub name: String,
    pub span: Span,
    pub ty: Option<TyId>,
}

/// One expression: where it stands, how it is spelled, what type the
/// checker gave it.
#[derive(Debug)]
pub struct Expr {
    pub span: Span,
    pub text: String,
    pub ty: Option<TyId>,
    pub kind: ExprKind,
}

#[derive(Debug, Clone, Copy, PartialEq, Eq, Structural)]
pub enum PrefixOp {
    Copy,
    Move,
    Amp,
    Star,
    Shared,
    Minus,
    Not,
    Mut,
    Take,
    Other,
}

#[derive(Debug, Clone, Copy, PartialEq, Eq, Structural)]
pub enum BinOp {
    AndAnd,
    OrOr,
    Plus,
    Minus,
    Star,
    Slash,
    Percent,
    Amp,
    Pipe,
    Caret,
    Shl,
    Shr,
    EqEq,
    NotEq,
    Lt,
    Gt,
    LtEq,
    GtEq,
    Other,
}

/// `=`, or the operator of a compound assignment.
#[derive(Debug, Clone, Copy, PartialEq, Eq, Structural)]
pub enum AssignOp {
    Plain,
    Compound(BinOp),
}

#[derive(Debug, Clone, Copy, PartialEq, Eq, Structural)]
pub enum CastKind {
    /// A raw pointer bridge.
    Raw,
    /// `place as dyn Trait`.
    Unsize,
    CharToInt,
    IntToChar,
    /// A numeric, adapter or identity cast.
    Value,
}

/// What the checker recorded about a cast.
#[derive(Debug, Clone, Copy)]
pub struct CastInfo {
    pub from: TyId,
    pub to: TyId,
    pub kind: CastKind,
}

/// A folded comptime call: the call site is this constant.
#[derive(Debug)]
pub enum Fold {
    Unit,
    Bool(bool),
    Int(i64),
    /// The bits of a 64-bit float.
    Float(u64),
    Str(String),
}

/// The method a call resolved to.
#[derive(Debug)]
pub enum Dispatch {
    Inherent { ty: String, method: String },
    Trait { module: u32, name: String, method: String, dyn_call: bool },
}

/// How a region's strategy is spelled.
#[derive(Debug)]
pub enum StrategySyntax {
    Absent,
    /// `pool(T)`: the element type's text.
    Type(String),
    /// A bare word.
    Word(String),
}

#[derive(Debug)]
pub struct Arg {
    pub value: Expr,
    pub mode: Option<ParamMode>,
    /// The mode keyword's span.
    pub mode_span: Option<Span>,
}

#[derive(Debug)]
pub struct FieldInit {
    pub name: String,
    pub value: Expr,
}

/// One interpolation hole of a string: its byte range inside the
/// literal's text.
#[derive(Debug)]
pub struct Hole {
    pub lo: u32,
    pub hi: u32,
    pub expr: Option<Expr>,
    pub spec: Option<FormatSpec>,
}

#[derive(Debug)]
pub struct FormatSpec {
    pub span: Span,
    pub text: String,
    /// The spec itself holds an interpolation.
    pub computed: bool,
}

#[derive(Debug)]
pub struct Arm {
    pub span: Span,
    pub pattern: Option<Pattern>,
    pub guard: Option<Expr>,
    pub body: Option<Expr>,
}

#[derive(Debug)]
pub struct SelectArm {
    pub span: Span,
    /// The arm's source or duration.
    pub head: Option<Expr>,
    pub pattern: Option<Pattern>,
    pub body: Option<Expr>,
}

#[derive(Debug)]
pub enum ExprKind {
    /// A scalar literal; a char literal carries its value, a literal
    /// typed as a float its bits.
    Literal { char_value: Option<char>, float_bits: Option<u64> },
    Str(Vec<Hole>),
    Paren(Box<Expr>, Option<ParamMode>),
    Path(String),
    Member(Box<Expr>, String),
    /// `x[i]`; `one_origin` marks a site where indices count from one.
    Bracket { callee: Box<Expr>, args: Vec<Expr>, one_origin: bool },
    Tuple(Vec<Expr>),
    Block(Block),
    Prefix(PrefixOp, Box<Expr>),
    Bin(BinOp, Box<Expr>, Box<Expr>),
    Cast(Box<Expr>, Option<CastInfo>),
    Range { start: Option<Box<Expr>>, end: Option<Box<Expr>>, inclusive: bool },
    FromEnd(Box<Expr>),
    Try(Box<Expr>),
    Call {
        callee: Box<Expr>,
        args: Vec<Arg>,
        sig: Option<CallSig>,
        fold: Option<Fold>,
        dispatch: Option<Dispatch>,
    },
    StructLit(Vec<FieldInit>),
    If { cond: Box<Expr>, then_block: Block, els: Option<Box<Expr>> },
    Match { scrutinee: Box<Expr>, arms: Vec<Arm> },
    While { cond: Box<Expr>, body: Block },
    For { pattern: Option<Pattern>, iterable: Box<Expr>, body: Block },
    Loop(Block),
    Else { scrutinized: Box<Expr>, handler: Option<Pattern>, fallback: Option<Box<Expr>> },
    Return(Option<Box<Expr>>),
    Break,
    Continue,
    Closure { captures: Vec<String>, params: Vec<Bind>, body: Option<Box<Expr>> },
    RegionBlock { name: Option<Bind>, strategy: StrategySyntax, body: Block },
    RegionValue(StrategySyntax),
    In { region: Option<Box<Expr>>, body: Block },
    Freeze(Box<Expr>),
    /// An `unsafe` block and the line it begins on.
    Unsafe { body: Block, line: u32 },
    InlineCode,
    Scope { name: Option<Bind>, body: Block },
    Select(Vec<SelectArm>),
    When { operands: Vec<Expr>, rebinds: Vec<Option<Bind>>, body: Block },
    Spawn(Vec<Arg>),
    Borrow { region: Box<Expr>, source: Box<Expr> },
    Other,
}

#[derive(Debug)]
pub struct Pattern {
    pub span: Span,
    pub text: String,
    pub kind: PatKind,
}

#[derive(Debug)]
pub enum PatKind {
    Wildcard,
    /// A literal pattern; a char literal carries its value.
    Literal { char_value: Option<char> },
    Ident(Bind),
    /// `name @ sub`.
    Binding(Bind, Vec<Pattern>),
    Path { dotted: String, subs: Vec<Pattern> },
    Tuple(Vec<Pattern>),
    Or(Vec<Pattern>),
}

/// One binder of a `let`/`var` group.
#[derive(Debug)]
pub struct Binder {
    pub pattern: Option<Pattern>,
    pub init: Option<Expr>,
}

#[derive(Debug)]
pub enum Statement {
    Expr(Expr),
    Bind(Vec<Binder>),
    Const { name: Option<Bind>, init: Option<Expr> },
    Assign { span: Span, op: AssignOp, place: Expr, value: Expr },
    Defer { expr: Expr, on_error: bool },
    Assume { span: Span, exprs: Vec<Expr> },
    Fn { span: Span, name: Option<Bind>, params: Vec<Bind>, body: Option<Block> },
    Item { span: Span },
    Empty,
}

#[derive(Debug)]
pub struct Block {
    pub span: Span,
    pub stmts: Vec<Statement>,
    /// The span of the trailing value expression.
    pub trailing: Option<Span>,
}

/// One declared parameter of a function declaration.
#[derive(Debug)]
pub struct FnParam {
    pub name: String,
    /// The spelled type, where there is one.
    pub ty_text: Option<String>,
}

#[derive(Debug)]
pub struct FnDecl {
    pub span: Span,
    pub name_span: Option<Span>,
    pub generics: Vec<String>,
    pub params: Vec<FnParam>,
    pub body: Option<Block>,
}

/// What a body belongs to.
#[derive(Debug)]
pub enum Owner {
    Module,
    Impl { self_ty: String, trait_name: Option<String> },
    Trait { name: String },
}

#[derive(Debug)]
pub enum BodyKind {
    Fn(FnDecl),
    /// A module-level initializer.
    Init(Expr),
}

/// One body of the package.
#[derive(Debug)]
pub struct Body {
    pub name: String,
    pub module: u32,
    pub file: u32,
    /// The declaration's position in its file.
    pub decl: u32,
    pub owner: Owner,
    pub kind: BodyKind,
    /// The body's own types.
    pub table: TypeTable,
    /// Imported module names in scope, with their module index.
    pub imports: Vec<(String, u32)>,
}

} // verus!
