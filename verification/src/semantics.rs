//! The machine's semantics: what evaluating an expression, running a
//! statement or calling a body does to the state.
//!
//! Everything here is a function of the program, the state and the
//! answers heard from the host. Deferred expressions run at scope exits
//! and do not run again from inside themselves.

use vstd::prelude::*;
use vstd::utf8::*;

use crate::arith::{checked_op, kept, le_from, mask_of, wrapping_op, IntOut};
use crate::ast::{BinOp, BodyKind, Expr, FormatSpec, Owner, PatKind, Pattern};
use crate::diag::Span;
use crate::literal::{
    bits_of, code_escape, cooked, decoded, dedented, int_literal, is_multiline, multiline_inner,
    range_of_prim, raw_inner, size_of_prim, uint_literal, unescape, BACKSLASH, CLOSE_BRACE,
    OPEN_BRACE,
};
use crate::lowbind::binds_of;
use crate::machine::{field_value, Did, Duty, Gave, RcCellView, State, NO_DEPTH, NO_FIELD};
use crate::package::Package;
use crate::shadow::{base_addr, PtrVal, ShadowView, NO_MEMORY, REGION_BACKING};
use crate::text::{decimal, has_infix};
use crate::types::{ItemSig, Prim, TyKind};
use crate::strs::read_text;
use crate::value::{
    bytes_lt, float_eq, float_lt, refused, same_value, shown, tagged, trapped, FlowView, HostOp,
    PStepView, ReplyView, RequestView, SlotView, StopView, ValueView,
};
use crate::verdict::{FindingView, UbRow};

verus! {

/// Where evaluation stands: the running body, whether it is inside a
/// deferred expression, and how many calls may still nest.
#[derive(Debug, Clone, Copy)]
pub struct Here {
    pub body: usize,
    pub in_defer: bool,
    pub depth: usize,
}

/// What evaluation depends on besides the state.
pub struct World<'t> {
    pub pkg: &'t Package,
    pub heard: Seq<ReplyView>,
}

pub const CALL_DEPTH: usize = 129;

/// A state with the control flow out of an expression, or a stop.
pub type Ev<'t> = (State<'t>, Result<FlowView, StopView>);

/// A state with the place an expression names, if it names one.
pub type Pl<'t> = (State<'t>, Result<Option<SlotView>, StopView>);

/// Several values in order, or the flow that ended them.
pub enum Many {
    All(Seq<ValueView>),
    Leaves(FlowView),
}

pub type Mn<'t> = (State<'t>, Result<Many, StopView>);

pub open spec fn eval_level(d: bool) -> nat {
    if d {
        3
    } else {
        7
    }
}

pub open spec fn call_level(d: bool) -> nat {
    if d {
        2
    } else {
        6
    }
}

pub open spec fn close_level(d: bool) -> nat {
    if d {
        1
    } else {
        5
    }
}

pub open spec fn duty_level(d: bool) -> nat {
    if d {
        0
    } else {
        4
    }
}

pub open spec fn val<'t>(m: State<'t>, v: ValueView) -> Ev<'t> {
    (m, Ok(FlowView::Val(v)))
}

pub open spec fn unit<'t>(m: State<'t>) -> Ev<'t> {
    (m, Ok(FlowView::Val(ValueView::Unit)))
}

pub open spec fn stops<'t>(m: State<'t>, s: StopView) -> Ev<'t> {
    (m, Err(s))
}

/// A row error, not yet propagated.
pub open spec fn raises<'t>(m: State<'t>, tag: Seq<char>) -> Ev<'t> {
    (m, Ok(FlowView::Raise(tagged(tag), false)))
}

// ------------------------------------------------------------- questions --

/// The shape of an expression's checked type.
pub open spec fn kind_at(w: World<'_>, h: Here, e: Expr) -> Option<TyKind> {
    match e.ty {
        Some(id) => if h.body < w.pkg.bodies@.len() {
            w.pkg.bodies@[h.body as int].table.at(id)
        } else {
            None
        },
        None => None,
    }
}

pub open spec fn is_unsigned(p: Prim) -> bool {
    p is Uint || p is U8 || p is U16 || p is U32 || p is U64
}

pub open spec fn is_signed(p: Prim) -> bool {
    p is Int || p is I8 || p is I16 || p is I32 || p is I64
}

/// The width and signedness of a `wrapping[T]` expression.
pub open spec fn wrap_at(w: World<'_>, h: Here, e: Expr) -> Option<(u32, bool)> {
    match kind_at(w, h, e) {
        Some(TyKind::Wrapping(inner)) => match w.pkg.bodies@[h.body as int].table.at(inner) {
            Some(TyKind::Prim(p)) => match bits_of(p) {
                Some(b) => Some((b, is_unsigned(p))),
                None => None,
            },
            _ => None,
        },
        _ => None,
    }
}

/// The checked range of an expression's primitive type.
pub open spec fn range_at(w: World<'_>, h: Here, e: Expr) -> Option<(i64, i64)> {
    match kind_at(w, h, e) {
        Some(TyKind::Prim(p)) => range_of_prim(p),
        _ => None,
    }
}

/// The width of a signed integer expression.
pub open spec fn signed_at(w: World<'_>, h: Here, e: Expr) -> Option<u32> {
    match kind_at(w, h, e) {
        Some(TyKind::Prim(p)) => if is_signed(p) {
            bits_of(p)
        } else {
            None
        },
        _ => None,
    }
}

/// The bytes a raw access at this expression covers.
pub open spec fn pointee_at(w: World<'_>, h: Here, e: Expr) -> u64 {
    match kind_at(w, h, e) {
        Some(TyKind::Prim(p)) => size_of_prim(p),
        _ => 1,
    }
}

/// The part behind the last dot.
pub open spec fn last_part(s: Seq<char>, n: nat) -> Seq<char>
    decreases n,
{
    if n == 0 {
        s
    } else if s[n - 1] == '.' {
        s.skip(n as int)
    } else {
        last_part(s, (n - 1) as nat)
    }
}

pub open spec fn simple_name(s: Seq<char>) -> bool {
    !has_infix(s, "."@) && !has_infix(s, "::"@)
}

/// The text is one of a row's declared tags.
pub open spec fn row_has(tags: Seq<(String, Vec<crate::types::TyId>)>, name: Seq<char>) -> bool {
    exists|i: int| 0 <= i < tags.len() && (#[trigger] tags[i]).0@ == name
}

/// The checker typed the expression as an error union whose row declares
/// the name.
pub open spec fn raises_tag(w: World<'_>, h: Here, e: Expr, name: Seq<char>) -> bool {
    match kind_at(w, h, e) {
        Some(TyKind::ErrUnion(_, row)) => match w.pkg.bodies@[h.body as int].table.at(row) {
            Some(TyKind::Row { tags, .. }) => row_has(tags@, name),
            _ => false,
        },
        _ => false,
    }
}

pub open spec fn prim_name(p: Prim) -> Seq<char> {
    match p {
        Prim::Int => "int"@,
        Prim::Uint => "uint"@,
        Prim::I8 => "i8"@,
        Prim::I16 => "i16"@,
        Prim::I32 => "i32"@,
        Prim::I64 => "i64"@,
        Prim::U8 => "u8"@,
        Prim::U16 => "u16"@,
        Prim::U32 => "u32"@,
        Prim::U64 => "u64"@,
        Prim::F32 => "f32"@,
        Prim::F64 => "f64"@,
        Prim::Bool => "bool"@,
        Prim::Byte => "byte"@,
        Prim::Char => "char"@,
        Prim::Str => "str"@,
    }
}

/// The first binding of a generic parameter, from `i` on.
pub open spec fn rigid_at(v: Seq<(Seq<char>, Seq<char>)>, name: Seq<char>, i: int) -> Option<
    Seq<char>,
>
    decreases v.len() - i,
{
    if i >= v.len() {
        None
    } else if v[i].0 == name {
        Some(v[i].1)
    } else {
        rigid_at(v, name, i + 1)
    }
}

/// The concrete type an expression's type names, seen through the running
/// frame's bindings.
pub open spec fn concrete_name(w: World<'_>, h: Here, m: State<'_>, e: Expr) -> Option<Seq<char>> {
    match kind_at(w, h, e) {
        Some(TyKind::Nominal { name, .. }) => Some(name@),
        Some(TyKind::Prim(p)) => Some(prim_name(p)),
        Some(TyKind::Rigid(_)) => {
            let name = w.pkg.bodies@[h.body as int].table.text_of(e.ty->0);
            if m.frames.len() == 0 {
                None
            } else if name == "Self"@ {
                m.frames.last().self_ty
            } else {
                rigid_at(m.frames.last().rigids, name, 0)
            }
        },
        _ => None,
    }
}

// ---------------------------------------------------------------- bodies --

/// A module-level function of that name.
pub open spec fn is_module_fn(p: &Package, i: int, name: Seq<char>) -> bool {
    p.bodies@[i].owner is Module && p.bodies@[i].kind is Fn && p.bodies@[i].name@ == name
}

/// The last function of a module with that name, among the first `n`
/// bodies.
pub open spec fn fn_in(p: &Package, module: u32, name: Seq<char>, n: nat) -> Option<int>
    decreases n,
{
    if n == 0 {
        None
    } else if is_module_fn(p, n - 1, name) && p.bodies@[n - 1].module == module {
        Some(n - 1)
    } else {
        fn_in(p, module, name, (n - 1) as nat)
    }
}

pub open spec fn module_fn(p: &Package, module: u32, name: Seq<char>) -> Option<int> {
    fn_in(p, module, name, p.bodies@.len())
}

/// The first function of that name in any module, from `i` on; of two in
/// one module the later counts.
pub open spec fn any_fn(p: &Package, name: Seq<char>, i: int) -> Option<int>
    decreases p.bodies@.len() - i,
{
    if i >= p.bodies@.len() {
        None
    } else if is_module_fn(p, i, name) && module_fn(p, p.bodies@[i].module, name) == Some(i) {
        Some(i)
    } else {
        any_fn(p, name, i + 1)
    }
}

/// The last module-level function declared at that name, among the first
/// `n` bodies.
pub open spec fn fn_declared(p: &Package, at: Span, n: nat) -> Option<int>
    decreases n,
{
    if n == 0 {
        None
    } else if p.bodies@[n - 1].owner is Module && (p.bodies@[n - 1].kind matches BodyKind::Fn(d)
        && d.name_span == Some(at)) {
        Some(n - 1)
    } else {
        fn_declared(p, at, (n - 1) as nat)
    }
}

/// The last inherent method among the first `n` bodies.
pub open spec fn method_in(p: &Package, ty: Seq<char>, name: Seq<char>, n: nat) -> Option<int>
    decreases n,
{
    if n == 0 {
        None
    } else if p.bodies@[n - 1].kind is Fn && p.bodies@[n - 1].name@ == name && (
    p.bodies@[n - 1].owner matches Owner::Impl { self_ty, trait_name: None } && self_ty@ == ty) {
        Some(n - 1)
    } else {
        method_in(p, ty, name, (n - 1) as nat)
    }
}

/// The last method of a trait impl among the first `n` bodies.
pub open spec fn override_in(
    p: &Package,
    ty: Seq<char>,
    tr: Seq<char>,
    name: Seq<char>,
    n: nat,
) -> Option<int>
    decreases n,
{
    if n == 0 {
        None
    } else if p.bodies@[n - 1].kind is Fn && p.bodies@[n - 1].name@ == name && (
    p.bodies@[n - 1].owner matches Owner::Impl { self_ty, trait_name: Some(t) } && self_ty@ == ty
        && last_part(t@, t@.len()) == tr) {
        Some(n - 1)
    } else {
        override_in(p, ty, tr, name, (n - 1) as nat)
    }
}

/// The last default body of a trait among the first `n` bodies.
pub open spec fn default_in(
    p: &Package,
    module: u32,
    tr: Seq<char>,
    name: Seq<char>,
    n: nat,
) -> Option<int>
    decreases n,
{
    if n == 0 {
        None
    } else if p.bodies@[n - 1].kind is Fn && p.bodies@[n - 1].name@ == name
        && p.bodies@[n - 1].module == module && (p.bodies@[n - 1].owner matches Owner::Trait {
        name: t,
    } && t@ == tr) {
        Some(n - 1)
    } else {
        default_in(p, module, tr, name, (n - 1) as nat)
    }
}

pub const NO_TRAIT_BODY: &'static str = "a trait method with neither an impl body nor a default";

/// The impl's override first, the trait's default second.
pub open spec fn trait_body(
    p: &Package,
    concrete: Seq<char>,
    module: u32,
    tr: Seq<char>,
    name: Seq<char>,
) -> Option<int> {
    match override_in(p, concrete, tr, name, p.bodies@.len()) {
        Some(b) => Some(b),
        None => default_in(p, module, tr, name, p.bodies@.len()),
    }
}

pub const NOT_DYN: &'static str = "a dyn dispatch on a non-dyn value";

pub const NOT_NOMINAL: &'static str = "trait dispatch on a non-nominal receiver";

/// The concrete type a trait dispatch lands on.
pub open spec fn dispatch_type(
    w: World<'_>,
    h: Here,
    m: State<'_>,
    recv: Expr,
    dyn_call: bool,
    v: ValueView,
    at: Span,
) -> Result<Seq<char>, StopView> {
    let named = concrete_name(w, h, m, recv);
    if !dyn_call && named is Some {
        Ok(named->0)
    } else if dyn_call || kind_at(w, h, recv) matches Some(TyKind::Dyn) {
        match v {
            ValueView::Dyn { concrete, .. } => Ok(concrete),
            _ => Err(refused(NOT_DYN@, at)),
        }
    } else {
        Err(refused(NOT_NOMINAL@, at))
    }
}

// -------------------------------------------------------------- patterns --

pub const TUPLE_OF_OTHER: &'static str = "a tuple pattern over a non-tuple value in checked execution";

pub const TUPLE_ARITY: &'static str = "a tuple pattern with a mismatched arity in checked execution";

pub const DESTRUCTURING: &'static str = "destructuring bindings in checked execution";

/// Bind one name; a cell or a region value carries its scope-exit duty.
pub open spec fn bind_name<'t>(m: State<'t>, name: Seq<char>, v: ValueView) -> State<'t> {
    let idx = if m.frames.len() > 0 {
        m.frames.last().locals.len() as usize
    } else {
        0
    };
    let m1 = m.declare(name, v);
    match v {
        ValueView::Shared(_) | ValueView::Weak(_) => m1.oblige(Duty::DropLocal(idx)),
        ValueView::Region(_) => m1.oblige(Duty::FreeRegionLocal(idx)),
        _ => m1,
    }
}

pub open spec fn bind_subs<'t>(
    m: State<'t>,
    subs: Vec<Pattern>,
    vs: Seq<(Seq<char>, ValueView)>,
    i: nat,
) -> Did<'t>
    decreases subs, subs@.len() - i,
{
    if i >= subs@.len() {
        (m, Ok(()))
    } else {
        match bind_pattern(m, subs[i as int], vs[i as int].1) {
            (m1, Err(s)) => (m1, Err(s)),
            (m1, Ok(_)) => bind_subs(m1, subs, vs, i + 1),
        }
    }
}

/// Bind a pattern: tuples element-wise, otherwise a single name.
pub open spec fn bind_pattern<'t>(m: State<'t>, p: Pattern, v: ValueView) -> Did<'t>
    decreases p, 0nat,
{
    match p.kind {
        PatKind::Tuple(subs) => match v {
            ValueView::Struct(fs) => if fs.len() != subs@.len() {
                (m, Err(refused(TUPLE_ARITY@, p.span)))
            } else {
                bind_subs(m, subs, fs, 0)
            },
            _ => (m, Err(refused(TUPLE_OF_OTHER@, p.span))),
        },
        _ => {
            let bs = binds_of(&p);
            if bs.len() == 0 {
                (m, Ok(()))
            } else if bs.len() > 1 {
                (m, Err(refused(DESTRUCTURING@, p.span)))
            } else {
                (bind_name(m, bs[0].name@, v), Ok(()))
            }
        },
    }
}

/// Destructure a tuple place element-wise: each bound element is taken
/// from its own sub-place.
pub open spec fn bind_elements<'t>(m: State<'t>, subs: Vec<Pattern>, base: SlotView, i: nat) -> Did<
    't,
>
    decreases subs, subs@.len() - i,
{
    if i >= subs@.len() {
        (m, Ok(()))
    } else {
        let sub = subs[i as int];
        let ep = base.step(PStepView::Field(decimal(i)));
        let next = match sub.kind {
            PatKind::Wildcard => (m, Ok(())),
            PatKind::Tuple(inner) => bind_elements(m, inner, ep, 0),
            _ => match m.take_slot(ep, sub.span) {
                (m1, Err(s)) => (m1, Err(s)),
                (m1, Ok(v)) => bind_pattern(m1, sub, v),
            },
        };
        match next {
            (m1, Err(s)) => (m1, Err(s)),
            (m1, Ok(_)) => bind_elements(m1, subs, base, i + 1),
        }
    }
}

pub const HANDLER_VALUE: &'static str = "a payload handler over this error value";

pub const HANDLER_TAG: &'static str = "a handler tag the row did not prove";

pub const HANDLER_PAYLOAD: &'static str = "a payload the tag does not carry";

pub const HANDLER_NESTED: &'static str = "nested handler payload patterns in checked execution";

pub open spec fn bind_payload<'t>(
    m: State<'t>,
    subs: Seq<Pattern>,
    payload: Seq<ValueView>,
    i: int,
) -> Did<'t>
    decreases subs.len() - i,
{
    if i >= subs.len() {
        (m, Ok(()))
    } else if i >= payload.len() {
        (m, Err(refused(HANDLER_PAYLOAD@, subs[i].span)))
    } else {
        let next = match subs[i].kind {
            PatKind::Wildcard => (m, Ok(())),
            PatKind::Ident(_) | PatKind::Binding(..) => bind_pattern(m, subs[i], payload[i]),
            _ => (m, Err(refused(HANDLER_NESTED@, subs[i].span))),
        };
        match next {
            (m1, Err(s)) => (m1, Err(s)),
            (m1, Ok(_)) => bind_payload(m1, subs, payload, i + 1),
        }
    }
}

/// Bind a handler's pattern: a tag pattern destructures the caught error,
/// anything else binds it.
pub open spec fn bind_handler<'t>(m: State<'t>, p: Pattern, err: ValueView) -> Did<'t> {
    match p.kind {
        PatKind::Path { dotted, subs } => match err {
            ValueView::ErrTag { tag, payload } => if tag != dotted@ && tag != last_part(
                dotted@,
                dotted@.len(),
            ) {
                (m, Err(refused(HANDLER_TAG@, p.span)))
            } else {
                bind_payload(m, subs@, payload, 0)
            },
            _ => (m, Err(refused(HANDLER_VALUE@, p.span))),
        },
        _ => bind_pattern(m, p, err),
    }
}

/// The tag or variant names of the scrutinee's type, when it is a row or
/// an enum.
pub open spec fn domain_of(w: World<'_>, h: Here, e: Expr) -> Option<Seq<Seq<char>>> {
    match e.ty {
        Some(id) => if h.body < w.pkg.bodies@.len() {
            domain_from(w, h, id, 32)
        } else {
            None
        },
        None => None,
    }
}

pub open spec fn domain_from(w: World<'_>, h: Here, id: crate::types::TyId, fuel: nat) -> Option<
    Seq<Seq<char>>,
>
    decreases fuel,
{
    match w.pkg.bodies@[h.body as int].table.at(id) {
        Some(TyKind::Distinct(inner)) => if fuel > 0 {
            domain_from(w, h, inner, (fuel - 1) as nat)
        } else {
            None
        },
        Some(TyKind::Row { tags, .. }) => Some(
            Seq::new(tags@.len(), |i: int| tags@[i].0@),
        ),
        Some(TyKind::Nominal { module, name, .. }) => match w.pkg.sigs.item(module, name@) {
            Some(ItemSig::Enum(vs)) => Some(Seq::new(vs@.len(), |i: int| vs@[i].name@)),
            _ => None,
        },
        _ => None,
    }
}

/// The first name of the domain the identifier tests, from `i` on.
pub open spec fn tests_tag(names: Seq<Seq<char>>, full: Seq<char>, last: Seq<char>, i: int) -> Option<
    Seq<char>,
>
    decreases names.len() - i,
{
    if i >= names.len() {
        None
    } else if names[i] == full || names[i] == last {
        Some(names[i])
    } else {
        tests_tag(names, full, last, i + 1)
    }
}

/// What a pattern makes of a value.
pub enum Matched {
    No,
    Yes,
    Binds(Seq<char>),
    Refused(StopView),
}

pub const NO_PATTERN: &'static str = "this pattern shape in checked execution";

pub open spec fn literal_matches(text: Seq<char>, c: Option<char>, v: ValueView) -> bool {
    match v {
        ValueView::Int(n) => int_literal(text) == Some(n as int),
        ValueView::Bool(b) => text == (if b {
            "true"@
        } else {
            "false"@
        }),
        ValueView::Char(x) => c == Some(x),
        ValueView::Str(s) => cooked(encode_utf8(text)) == s,
        _ => false,
    }
}

pub open spec fn ident_match(text: Seq<char>, v: ValueView, domain: Option<Seq<Seq<char>>>) -> Matched {
    let tested = match domain {
        Some(names) => tests_tag(names, text, last_part(text, text.len()), 0),
        None => None,
    };
    match tested {
        Some(tag) => {
            let hit = match v {
                ValueView::ErrTag { tag: t, .. } => t == tag,
                ValueView::Enum { variant, .. } => variant == tag,
                _ => false,
            };
            if hit {
                Matched::Yes
            } else {
                Matched::No
            }
        },
        None => Matched::Binds(text),
    }
}

/// The first alternative that matches, from `i` on; alternatives bind
/// nothing.
pub open spec fn match_any(
    ps: Vec<Pattern>,
    i: nat,
    v: ValueView,
    domain: Option<Seq<Seq<char>>>,
) -> Matched
    decreases ps, ps@.len() - i,
{
    if i >= ps@.len() {
        Matched::No
    } else {
        match match_pattern(ps[i as int], v, domain) {
            Matched::Refused(s) => Matched::Refused(s),
            Matched::No => match_any(ps, i + 1, v, domain),
            _ => Matched::Yes,
        }
    }
}

/// Match a pattern against a value. An identifier that names a tag of the
/// scrutinee's type is a test, never a binding.
pub open spec fn match_pattern(p: Pattern, v: ValueView, domain: Option<Seq<Seq<char>>>) -> Matched
    decreases p, 0nat,
{
    match p.kind {
        PatKind::Wildcard => Matched::Yes,
        PatKind::Literal { char_value } => if literal_matches(p.text@, char_value, v) {
            Matched::Yes
        } else {
            Matched::No
        },
        PatKind::Ident(_) => ident_match(p.text@, v, domain),
        PatKind::Binding(..) => Matched::Binds(p.text@),
        PatKind::Or(ps) => match_any(ps, 0, v, domain),
        _ => Matched::Refused(refused(NO_PATTERN@, p.span)),
    }
}

// -------------------------------------------------------------- literals --

pub const NO_CHAR: &'static str = "this char literal shape in checked execution";

pub const NO_FLOAT: &'static str = "this float literal shape";

pub const NO_F32: &'static str = "`f32` in checked execution (f64 is the supported float)";

pub const NO_LITERAL: &'static str = "this literal shape in checked execution";

pub const TOO_WIDE: &'static str = "an unsigned literal beyond its type's width";

/// The value of a scalar literal, driven by its checked type.
#[verifier::opaque]
pub open spec fn literal_value(
    w: World<'_>,
    h: Here,
    e: Expr,
    char_value: Option<char>,
    float_bits: Option<u64>,
) -> Result<ValueView, StopView> {
    let text = e.text@;
    if text == "true"@ {
        Ok(ValueView::Bool(true))
    } else if text == "false"@ {
        Ok(ValueView::Bool(false))
    } else if text.len() > 0 && text[0] == '\'' {
        match char_value {
            Some(c) => Ok(ValueView::Char(c)),
            None => Err(refused(NO_CHAR@, e.span)),
        }
    } else {
        match kind_at(w, h, e) {
            Some(TyKind::Prim(Prim::F64)) => match float_bits {
                Some(b) => Ok(ValueView::F64(b)),
                None => Err(refused(NO_FLOAT@, e.span)),
            },
            Some(TyKind::Prim(Prim::F32)) => Err(refused(NO_F32@, e.span)),
            _ => match (wrap_at(w, h, e), uint_literal(text)) {
                (Some((bits, true)), Some(v)) => if (v as u64) & mask_of(bits) != v {
                    Err(refused(TOO_WIDE@, e.span))
                } else {
                    Ok(ValueView::Int(kept(v as u64, bits)))
                },
                _ => match int_literal(text) {
                    Some(n) => Ok(ValueView::Int(n as i64)),
                    None => Err(refused(NO_LITERAL@, e.span)),
                },
            },
        }
    }
}

// -------------------------------------------------------------- numbers --

pub const NO_OPERATOR: &'static str = "this operator in checked execution";

pub const NO_FLOAT_REM: &'static str = "`%` on floats (unruled: fmod vs remainder)";

pub const NO_ARITH: &'static str = "arithmetic outside integers";

/// An integer operation's outcome as a value.
pub open spec fn int_result(o: IntOut, span: Span) -> Result<ValueView, StopView> {
    match o {
        IntOut::Gives(n) => Ok(ValueView::Int(n)),
        IntOut::DivZero => Err(trapped("div-zero"@, "mem.ub.defined"@, span)),
        IntOut::Overflow => Err(trapped("overflow"@, "mem.ub.defined"@, span)),
        IntOut::Unruled => Err(refused(NO_OPERATOR@, span)),
    }
}

pub open spec fn float_op(op: BinOp) -> Option<HostOp> {
    match op {
        BinOp::Plus => Some(HostOp::FloatAdd),
        BinOp::Minus => Some(HostOp::FloatSub),
        BinOp::Star => Some(HostOp::FloatMul),
        BinOp::Slash => Some(HostOp::FloatDiv),
        _ => None,
    }
}

pub const BAD_REPLY: &'static str = "a host answer of another kind";

/// Arithmetic on two values; `wrap` and `range` come from the checked
/// type. Float arithmetic is the host's.
#[verifier::opaque]
pub open spec fn arith_binop<'t>(
    w: World<'t>,
    m: State<'t>,
    op: BinOp,
    l: ValueView,
    r: ValueView,
    wrap: Option<(u32, bool)>,
    range: Option<(i64, i64)>,
    span: Span,
) -> Gave<'t> {
    match (l, r) {
        (ValueView::Str(a), ValueView::Str(b)) => if op is Plus {
            (m, Ok(ValueView::Str(a + b)))
        } else {
            (m, Err(refused(NO_ARITH@, span)))
        },
        (ValueView::Int(a), ValueView::Int(b)) => match wrap {
            Some((bits, unsigned)) => (m, int_result(wrapping_op(op, a, b, bits, unsigned), span)),
            None => (m, int_result(checked_op(op, a, b, range), span)),
        },
        (ValueView::F64(a), ValueView::F64(b)) => if op is Percent {
            (m, Err(refused(NO_FLOAT_REM@, span)))
        } else {
            match float_op(op) {
                Some(o) => match m.asked(
                    w.heard,
                    RequestView::of(o).num(a as i64).num(b as i64),
                ) {
                    (m1, Err(s)) => (m1, Err(s)),
                    (m1, Ok(ReplyView::Int(n))) => (m1, Ok(ValueView::F64(n as u64))),
                    (m1, Ok(_)) => (m1, Err(refused(BAD_REPLY@, span))),
                },
                None => (m, Ok(l)),
            }
        },
        _ => (m, Err(refused(NO_ARITH@, span))),
    }
}

pub const NO_ORDER: &'static str = "ordering outside integers, `char` and str";

/// `a < b` on two values of one ordered kind; `None` outside them.
pub open spec fn value_lt(a: ValueView, b: ValueView) -> Option<bool> {
    match (a, b) {
        (ValueView::Int(x), ValueView::Int(y)) => Some(x < y),
        (ValueView::F64(x), ValueView::F64(y)) => Some(float_lt(x, y)),
        (ValueView::Str(x), ValueView::Str(y)) => Some(bytes_lt(x, y, 0)),
        (ValueView::Char(x), ValueView::Char(y)) => Some((x as u32) < (y as u32)),
        _ => None,
    }
}

/// `a <= b`: floats by their own rule (a nan compares to nothing).
pub open spec fn value_le(a: ValueView, b: ValueView) -> Option<bool> {
    match (a, b) {
        (ValueView::F64(x), ValueView::F64(y)) => Some(float_lt(x, y) || float_eq(x, y)),
        _ => match value_lt(b, a) {
            Some(g) => Some(!g),
            None => None,
        },
    }
}

/// A comparison or an arithmetic operation on evaluated operands.
#[verifier::opaque]
pub open spec fn bin_values<'t>(
    w: World<'t>,
    h: Here,
    m: State<'t>,
    e: Expr,
    op: BinOp,
    l: ValueView,
    r: ValueView,
) -> Ev<'t> {
    match op {
        BinOp::EqEq => val(m, ValueView::Bool(same_value(l, r))),
        BinOp::NotEq => val(m, ValueView::Bool(!same_value(l, r))),
        BinOp::Lt | BinOp::Gt | BinOp::LtEq | BinOp::GtEq => {
            let o = match op {
                BinOp::Lt => value_lt(l, r),
                BinOp::Gt => value_lt(r, l),
                BinOp::LtEq => value_le(l, r),
                _ => value_le(r, l),
            };
            match o {
                Some(b) => val(m, ValueView::Bool(b)),
                None => stops(m, refused(NO_ORDER@, e.span)),
            }
        },
        BinOp::Plus
        | BinOp::Minus
        | BinOp::Star
        | BinOp::Slash
        | BinOp::Percent
        | BinOp::Amp
        | BinOp::Pipe
        | BinOp::Caret
        | BinOp::Shl
        | BinOp::Shr => match arith_binop(
            w,
            m,
            op,
            l,
            r,
            wrap_at(w, h, e),
            range_at(w, h, e),
            e.span,
        ) {
            (m1, Err(s)) => (m1, Err(s)),
            (m1, Ok(v)) => val(m1, v),
        },
        _ => stops(m, refused(NO_OPERATOR@, e.span)),
    }
}

/// The shift of a one-origin index.
pub open spec fn shift_origin(i: i64, one: bool, at: Span) -> Result<i64, StopView> {
    if !one {
        Ok(i)
    } else if i == i64::MIN {
        Err(trapped("overflow"@, "mem.ub.defined"@, at))
    } else {
        Ok((i - 1) as i64)
    }
}

/// A value-preserving cast: wrapping targets wrap, narrowing out of range
/// traps, an unsigned wrapping value beyond a signed target traps.
#[verifier::opaque]
pub open spec fn cast_int(w: World<'_>, h: Here, e: Expr, inner: Expr, n: i64) -> Result<
    ValueView,
    StopView,
> {
    match wrap_at(w, h, e) {
        Some((bits, _)) => Ok(ValueView::Int(kept(n as u64, bits))),
        None => match (wrap_at(w, h, inner), signed_at(w, h, e)) {
            (Some((sbits, true)), Some(tbits)) => if ((n as u64) & mask_of(sbits)) > (mask_of(tbits)
                >> 1u64) {
                Err(trapped("overflow"@, "mem.ub.defined"@, e.span))
            } else {
                Ok(ValueView::Int(n))
            },
            _ => match range_at(w, h, e) {
                Some((lo, hi)) => if n < lo || n > hi {
                    Err(trapped("overflow"@, "mem.ub.defined"@, e.span))
                } else {
                    Ok(ValueView::Int(n))
                },
                None => Ok(ValueView::Int(n)),
            },
        },
    }
}

// -------------------------------------------------------------- the heap --

/// A duplicate of a value: containers are copied, cells shared. `fuel`
/// bounds how deep lists nest.
pub open spec fn deep_copy<'t>(m: State<'t>, v: ValueView, fuel: nat) -> Gave<'t>
    decreases fuel, v, 0nat,
{
    match v {
        ValueView::List(id) => if fuel == 0 {
            (m, Err(StopView::Budget(NO_DEPTH@)))
        } else if id >= m.lists.len() {
            (m, Ok(v))
        } else {
            match copy_all(m, m.lists[id as int], (fuel - 1) as nat, 0, Seq::empty()) {
                (m1, Err(s)) => (m1, Err(s)),
                (m1, Ok(items)) => (m1.new_list(items), Ok(m1.next_list())),
            }
        },
        ValueView::Pool(id) => if id >= m.pools.len() {
            (m, Ok(v))
        } else {
            (
                State { pools: m.pools.push(m.pools[id as int]), ..m },
                Ok(ValueView::Pool(m.pools.len() as usize)),
            )
        },
        ValueView::Struct(fs) => match copy_fields(m, fs, fuel, 0, Seq::empty()) {
            (m1, Err(s)) => (m1, Err(s)),
            (m1, Ok(out)) => (m1, Ok(ValueView::Struct(out))),
        },
        ValueView::Shared(c) => (more_strong(m, c), Ok(v)),
        _ => (m, Ok(v)),
    }
}

/// One more strong reference.
pub open spec fn more_strong<'t>(m: State<'t>, c: usize) -> State<'t> {
    if c < m.cells.len() && m.cells[c as int].strong < u32::MAX {
        m.set_cell(
            c as int,
            RcCellView { strong: (m.cells[c as int].strong + 1) as u32, ..m.cells[c as int] },
        )
    } else {
        m
    }
}

/// One more weak reference.
pub open spec fn more_weak<'t>(m: State<'t>, c: usize) -> State<'t> {
    if c < m.cells.len() && m.cells[c as int].weak < u32::MAX {
        m.set_cell(
            c as int,
            RcCellView { weak: (m.cells[c as int].weak + 1) as u32, ..m.cells[c as int] },
        )
    } else {
        m
    }
}

pub open spec fn copy_all<'t>(
    m: State<'t>,
    vs: Seq<ValueView>,
    fuel: nat,
    i: nat,
    acc: Seq<ValueView>,
) -> (State<'t>, Result<Seq<ValueView>, StopView>)
    decreases fuel, vs, vs.len() - i,
{
    if i >= vs.len() {
        (m, Ok(acc))
    } else {
        match deep_copy(m, vs[i as int], fuel) {
            (m1, Err(s)) => (m1, Err(s)),
            (m1, Ok(v)) => copy_all(m1, vs, fuel, i + 1, acc.push(v)),
        }
    }
}

pub open spec fn copy_fields<'t>(
    m: State<'t>,
    fs: Seq<(Seq<char>, ValueView)>,
    fuel: nat,
    i: nat,
    acc: Seq<(Seq<char>, ValueView)>,
) -> (State<'t>, Result<Seq<(Seq<char>, ValueView)>, StopView>)
    decreases fuel, fs, fs.len() - i,
{
    if i >= fs.len() {
        (m, Ok(acc))
    } else {
        match deep_copy(m, fs[i as int].1, fuel) {
            (m1, Err(s)) => (m1, Err(s)),
            (m1, Ok(v)) => copy_fields(m1, fs, fuel, i + 1, acc.push((fs[i as int].0, v))),
        }
    }
}

/// The member of a temporary.
#[verifier::opaque]
pub open spec fn project<'t>(m: State<'t>, v: ValueView, field: Seq<char>, at: Span) -> Ev<'t> {
    match v {
        ValueView::Struct(fs) => match field_value(fs, field, 0) {
            Some(k) => val(m, fs[k].1),
            None => stops(m, refused(NO_FIELD@, at)),
        },
        ValueView::List(id) => if field == "len"@ && id < m.lists.len() {
            val(m, ValueView::Int(m.lists[id as int].len() as i64))
        } else {
            stops(m, refused(NO_MEMBER@, at))
        },
        ValueView::Str(s) => if field == "len"@ {
            val(m, ValueView::Int(s.len() as i64))
        } else {
            stops(m, refused(NO_MEMBER@, at))
        },
        ValueView::Shared(c) => if c >= m.cells.len() {
            stops(m, refused(NO_MEMBER@, at))
        } else {
            match m.cells[c as int].value {
                ValueView::Struct(fs) => match field_value(fs, field, 0) {
                    Some(k) => val(m, fs[k].1),
                    None => stops(m, refused(NO_FIELD@, at)),
                },
                _ => stops(m, refused(NO_PAYLOAD@, at)),
            }
        },
        _ => stops(m, refused(NO_MEMBER@, at)),
    }
}

pub const NO_MEMBER: &'static str = "member access outside the modelled surface";

pub const NO_PAYLOAD: &'static str = "cell payload projection";

/// A stop as a finding.
pub open spec fn ub(row: UbRow, message: Seq<char>, span: Span, tag_span: Span) -> StopView {
    StopView::Ub(FindingView { row, message, span, tag_span })
}

/// Read bytes through a pointer.
pub open spec fn raw_read<'t>(m: State<'t>, p: PtrVal, len: u64, span: Span, op: Seq<char>) -> (
    State<'t>,
    Result<Seq<u8>, StopView>,
) {
    match m.sh.fault(p, len as nat, false, span, op) {
        Some(f) => (m, Err(StopView::Ub(f))),
        None => (m.with_shadow(m.sh.accessed(p, false)), Ok(m.sh.bytes_at(p, len as nat))),
    }
}

/// Write bytes through a pointer.
pub open spec fn raw_write<'t>(
    m: State<'t>,
    p: PtrVal,
    data: Seq<u8>,
    span: Span,
    op: Seq<char>,
) -> Did<'t> {
    match m.sh.fault(p, data.len(), true, span, op) {
        Some(f) => (m, Err(StopView::Ub(f))),
        None => (m.with_shadow(m.sh.accessed(p, true).written(p, data)), Ok(())),
    }
}

/// The span a pointer's allocation was made at.
pub open spec fn alloc_span(m: State<'_>, p: PtrVal, otherwise: Span) -> Span {
    match m.sh.target(p) {
        Some(a) => m.sh.allocs[a].span,
        None => otherwise,
    }
}

/// The pointer to an element.
pub open spec fn element(p: PtrVal, idx: i64, size: u64) -> PtrVal {
    PtrVal {
        offset: (p.offset + idx * size) as i64,
        addr: (p.addr + idx * size) as u64,
        ..p
    }
}

/// A region's backing base.
pub open spec fn backing<'t>(m: State<'t>, r: usize, span: Span) -> Gave<'t> {
    if r >= m.sh.regions.len() {
        (m, Err(refused(NO_BRIDGE@, span)))
    } else {
        match m.sh.regions[r as int].backing {
            Some(a) => (
                m,
                Ok(
                    ValueView::Ptr(
                        PtrVal { alloc: Some(a), tag: 0, offset: 0, addr: base_addr(a as int) },
                    ),
                ),
            ),
            None => if m.sh.affords(REGION_BACKING as nat) {
                (
                    m.with_shadow(m.sh.backed(r as int, span)),
                    Ok(
                        ValueView::Ptr(
                            PtrVal {
                                alloc: Some(m.sh.allocs.len() as usize),
                                tag: 0,
                                offset: 0,
                                addr: base_addr(m.sh.allocs.len() as int),
                            },
                        ),
                    ),
                )
            } else {
                (
                    m.with_shadow(m.sh.charged(REGION_BACKING as nat)),
                    Err(StopView::Budget(NO_MEMORY@)),
                )
            },
        }
    }
}

pub const NO_BRIDGE: &'static str = "this raw bridge shape";

/// A raw bridge on a value.
#[verifier::opaque]
pub open spec fn bridge<'t>(
    m: State<'t>,
    from: Option<TyKind>,
    to: Option<TyKind>,
    v: ValueView,
    at: Span,
) -> Ev<'t> {
    match v {
        ValueView::Ptr(p) => if from matches Some(TyKind::Ptr(_)) {
            if to matches Some(TyKind::Ptr(_)) {
                val(m, v)
            } else {
                val(m.with_shadow(m.sh.expose(p)), ValueView::Int(p.addr as i64))
            }
        } else {
            stops(m, refused(NO_BRIDGE@, at))
        },
        ValueView::Region(r) => if from matches Some(TyKind::RegionTy) {
            match backing(m, r, at) {
                (m1, Err(s)) => (m1, Err(s)),
                (m1, Ok(x)) => val(m1, x),
            }
        } else {
            stops(m, refused(NO_BRIDGE@, at))
        },
        ValueView::Int(n) => if to matches Some(TyKind::Ptr(_)) {
            let (sh, p) = m.sh.resolve(n as u64, at);
            val(m.with_shadow(sh), ValueView::Ptr(p))
        } else {
            stops(m, refused(NO_BRIDGE@, at))
        },
        _ => stops(m, refused(NO_BRIDGE@, at)),
    }
}

pub const FALSE_NOALIAS: &'static str = "this `assume noalias` is false: the asserted ranges overlap inside one allocation";

/// The asserted ranges of two pointers overlap inside one allocation.
pub open spec fn clash(m: State<'_>, a: PtrVal, b: PtrVal) -> bool {
    match (a.alloc, b.alloc) {
        (Some(x), Some(y)) => x == y && x < m.sh.allocs.len() && a.offset
            < m.sh.allocs[x as int].size && b.offset < m.sh.allocs[x as int].size,
        _ => false,
    }
}

/// The first pair of asserted pointers that clash: `i` against those
/// from `j` on.
pub open spec fn first_clash(m: State<'_>, ps: Seq<PtrVal>, i: int, j: int) -> Option<int>
    decreases ps.len() - i, ps.len() - j,
{
    if i >= ps.len() {
        None
    } else if j >= ps.len() {
        first_clash(m, ps, i + 1, i + 2)
    } else if clash(m, ps[i], ps[j]) {
        Some(i)
    } else {
        first_clash(m, ps, i, j + 1)
    }
}

/// The pointers among values.
pub open spec fn pointers(vs: Seq<ValueView>, n: nat) -> Seq<PtrVal>
    decreases n,
{
    if n == 0 {
        Seq::empty()
    } else {
        match vs[n - 1] {
            ValueView::Ptr(p) => pointers(vs, (n - 1) as nat).push(p),
            _ => pointers(vs, (n - 1) as nat),
        }
    }
}

/// `assume noalias` on evaluated operands: the reachable ranges must not
/// overlap.
#[verifier::opaque]
pub open spec fn assume_values<'t>(m: State<'t>, vs: Seq<ValueView>, span: Span) -> Ev<'t> {
    let ps = pointers(vs, vs.len());
    match first_clash(m, ps, 0, 1) {
        Some(i) => stops(
            m,
            ub(
                UbRow::P5,
                FALSE_NOALIAS@,
                span,
                m.sh.allocs[ps[i].alloc->0 as int].span,
            ),
        ),
        None => unit(m),
    }
}

pub const FALSE_DOOR: &'static str = "false discharge of the `borrow … from …` door: the pointer does not address a live allocation inside the region's footprint";

pub const DOOR_OPERANDS: &'static str = "door operands outside the modelled surface";

/// The pointer addresses a live allocation wholly inside the region.
pub open spec fn door_holds(m: State<'_>, r: usize, p: PtrVal, size: u64) -> bool {
    m.sh.target(p) matches Some(a) && m.sh.allocs[a].live && m.sh.allocs[a].region == r
        && m.sh.regions[r as int].live && m.sh.in_bounds(a, p, size as nat)
}

/// The door on evaluated operands: a true claim loads the value, a false
/// one is reported here, never later.
#[verifier::opaque]
pub open spec fn door_values<'t>(m: State<'t>, r: ValueView, p: ValueView, size: u64, at: Span) -> Ev<
    't,
> {
    match (r, p) {
        (ValueView::Region(rid), ValueView::Ptr(ptr)) => if rid >= m.sh.regions.len() {
            stops(m, refused(DOOR_OPERANDS@, at))
        } else if !door_holds(m, rid, ptr, size) {
            stops(m, ub(UbRow::P6, FALSE_DOOR@, at, m.sh.regions[rid as int].span))
        } else {
            match raw_read(m, ptr, size, at, "the door's borrow"@) {
                (m1, Err(s)) => (m1, Err(s)),
                (m1, Ok(b)) => val(m1, ValueView::Int(le_from(b, 0) as i64)),
            }
        },
        _ => stops(m, refused(DOOR_OPERANDS@, at)),
    }
}

pub const NO_SIZE: &'static str = "allocation size outside the model";

pub const NO_FREE: &'static str = "free of a non-pointer";

pub const BAD_FREE: &'static str = "`c.free` of a pointer that does not address a live C allocation's base";

pub const NO_MEMSET: &'static str = "memset outside the model";

pub const NO_MEMCPY: &'static str = "memcpy outside the model";

pub const NO_C: &'static str = "imported C beyond the modelled intrinsic set";

/// Passing pointers to C exposes them, the first `n`.
pub open spec fn exposed(sh: ShadowView, vs: Seq<ValueView>, n: nat) -> ShadowView
    decreases n,
{
    if n == 0 {
        sh
    } else {
        let rest = exposed(sh, vs, (n - 1) as nat);
        match vs[n - 1] {
            ValueView::Ptr(p) => rest.expose(p),
            _ => rest,
        }
    }
}

pub open spec fn nth(vs: Seq<ValueView>, i: int) -> ValueView {
    if 0 <= i < vs.len() {
        vs[i]
    } else {
        ValueView::Uninit
    }
}

/// The size a C allocation asks for.
pub open spec fn c_size(name: Seq<char>, args: Seq<ValueView>) -> Option<u64> {
    match nth(args, 0) {
        ValueView::Int(n) => if n < 0 {
            None
        } else if name == "c.calloc"@ {
            let k = match nth(args, 1) {
                ValueView::Int(k) => if k >= 0 {
                    k as int
                } else {
                    1
                },
                _ => 1,
            };
            Some(
                if n * k > u64::MAX {
                    u64::MAX
                } else {
                    (n * k) as u64
                },
            )
        } else {
            Some(n as u64)
        },
        _ => None,
    }
}

/// A fresh C allocation in the ambient region.
pub open spec fn c_alloc<'t>(m: State<'t>, name: Seq<char>, args: Seq<ValueView>, at: Span) -> Ev<'t> {
    match c_size(name, args) {
        None => stops(m, refused(NO_SIZE@, at)),
        Some(size) => if m.ambient.len() == 0 || m.ambient.last() >= m.sh.regions.len() {
            stops(m, refused(NO_SIZE@, at))
        } else if !m.sh.affords(size as nat) || size > usize::MAX {
            stops(m.with_shadow(m.sh.charged(size as nat)), StopView::Budget(NO_MEMORY@))
        } else {
            val(
                m.with_shadow(
                    m.sh.charged(size as nat).new_alloc(
                        size,
                        m.ambient.last(),
                        true,
                        name == "c.calloc"@,
                        true,
                        at,
                    ),
                ),
                ValueView::Ptr(
                    PtrVal {
                        alloc: Some(m.sh.allocs.len() as usize),
                        tag: 0,
                        offset: 0,
                        addr: base_addr(m.sh.allocs.len() as int),
                    },
                ),
            )
        },
    }
}

/// The bytes `memset` writes.
pub open spec fn fill_bytes(v: i64, n: i64) -> Seq<u8> {
    Seq::new(
        if n > 0 {
            n as nat
        } else {
            0
        },
        |i: int| ((v as u64) % 256) as u8,
    )
}

/// The modelled C set on evaluated arguments.
#[verifier::opaque]
pub open spec fn c_call<'t>(m0: State<'t>, name: Seq<char>, args: Seq<ValueView>, at: Span) -> Ev<'t> {
    let m = m0.with_shadow(exposed(m0.sh, args, args.len()));
    if name == "c.malloc"@ || name == "c.calloc"@ {
        c_alloc(m, name, args, at)
    } else if name == "c.free"@ {
        match nth(args, 0) {
            ValueView::Ptr(p) => if !m.sh.can_free(p) {
                stops(m, ub(UbRow::L2, BAD_FREE@, at, alloc_span(m, p, at)))
            } else {
                unit(m.with_shadow(m.sh.c_free(p)))
            },
            _ => stops(m, refused(NO_FREE@, at)),
        }
    } else if name == "c.memset"@ {
        match (nth(args, 0), nth(args, 1), nth(args, 2)) {
            (ValueView::Ptr(p), ValueView::Int(v), ValueView::Int(n)) => if n > usize::MAX {
                stops(m, refused(NO_MEMSET@, at))
            } else {
                match raw_write(m, p, fill_bytes(v, n), at, "`c.memset`"@) {
                    (m1, Err(s)) => (m1, Err(s)),
                    (m1, Ok(_)) => val(m1, ValueView::Ptr(p)),
                }
            },
            _ => stops(m, refused(NO_MEMSET@, at)),
        }
    } else if name == "c.memcpy"@ {
        match (nth(args, 0), nth(args, 1), nth(args, 2)) {
            (ValueView::Ptr(dst), ValueView::Ptr(src), ValueView::Int(n)) => {
                let len = if n > 0 {
                    n as u64
                } else {
                    0
                };
                match raw_read(m, src, len, at, "`c.memcpy` (source)"@) {
                    (m1, Err(s)) => (m1, Err(s)),
                    (m1, Ok(b)) => match raw_write(
                        m1,
                        dst,
                        b,
                        at,
                        "`c.memcpy` (destination)"@,
                    ) {
                        (m2, Err(s)) => (m2, Err(s)),
                        (m2, Ok(_)) => val(m2, ValueView::Ptr(dst)),
                    },
                }
            },
            _ => stops(m, refused(NO_MEMCPY@, at)),
        }
    } else {
        stops(m, refused(NO_C@, at))
    }
}

// ------------------------------------------------------------- rendering --

/// A value's rendering; a float's is the host's.
pub open spec fn show_value<'t>(w: World<'t>, m: State<'t>, v: ValueView, at: Span) -> (
    State<'t>,
    Result<Seq<u8>, StopView>,
) {
    match v {
        ValueView::F64(b) => match m.asked(w.heard, RequestView::of(HostOp::ShowFloat).num(b as i64)) {
            (m1, Err(s)) => (m1, Err(s)),
            (m1, Ok(ReplyView::Bytes(t))) => if valid_utf8(t) {
                (m1, Ok(t))
            } else {
                (m1, Err(refused(BAD_REPLY@, at)))
            },
            (m1, Ok(_)) => (m1, Err(refused(BAD_REPLY@, at))),
        },
        _ => (m, Ok(shown(v))),
    }
}

pub const COMPUTED_SPEC: &'static str = "a computed format spec";

pub const BAD_SPEC: &'static str = "a format spec outside the ruled grammar (E0412)";

pub const SPEC_OF_OTHER: &'static str = "a format spec on a non-primitive value";

pub const UNRULED_SPEC: &'static str = "a format spec the checker did not rule on for this value";

/// The spec without its colon.
pub open spec fn spec_text(s: Seq<char>) -> Seq<char> {
    if s.len() > 0 && s[0] == ':' {
        s.skip(1)
    } else {
        s
    }
}

pub open spec fn format_request(v: ValueView, spec: Seq<u8>) -> (RequestView, bool) {
    match v {
        ValueView::Str(s) => (RequestView::of(HostOp::FormatStr).text(spec).text(s), true),
        ValueView::Char(c) => (
            RequestView::of(HostOp::FormatStr).text(spec).text(encode_scalar(c as u32)),
            true,
        ),
        ValueView::Bool(b) => (
            RequestView::of(HostOp::FormatBool).text(spec).num(
                if b {
                    1
                } else {
                    0
                },
            ),
            true,
        ),
        ValueView::Int(n) => (RequestView::of(HostOp::FormatInt).text(spec).num(n), true),
        ValueView::F64(x) => (
            RequestView::of(HostOp::FormatFloat).text(spec).num(x as i64),
            true,
        ),
        _ => (RequestView::of(HostOp::FormatStr).text(spec).text(Seq::empty()), false),
    }
}

/// A rendering under a format spec. The host knows the spec grammar; it
/// answers nothing for a default spec.
#[verifier::opaque]
pub open spec fn apply_spec<'t>(
    w: World<'t>,
    m: State<'t>,
    spec: FormatSpec,
    v: ValueView,
    rendered: Seq<u8>,
) -> (State<'t>, Result<Seq<u8>, StopView>) {
    if spec.computed {
        (m, Err(refused(COMPUTED_SPEC@, spec.span)))
    } else {
        let (q, primitive) = format_request(v, encode_utf8(spec_text(spec.text@)));
        match m.asked(w.heard, q) {
            (m1, Err(s)) => (m1, Err(s)),
            (m1, Ok(ReplyView::NotText)) => (m1, Err(refused(BAD_SPEC@, spec.span))),
            (m1, Ok(ReplyView::Absent)) => (m1, Ok(rendered)),
            (m1, Ok(r)) => if !primitive {
                (m1, Err(refused(SPEC_OF_OTHER@, spec.span)))
            } else {
                match r {
                    ReplyView::Bytes(b) => (m1, Ok(b)),
                    _ => (m1, Err(refused(UNRULED_SPEC@, spec.span))),
                }
            },
        }
    }
}

/// The first hole that begins at `at`, from `i` on.
pub open spec fn hole_at(hs: Seq<(u32, u32, Seq<u8>)>, at: int, i: int) -> Option<int>
    decreases hs.len() - i,
{
    if i >= hs.len() {
        None
    } else if hs[i].0 == at {
        Some(i)
    } else {
        hole_at(hs, at, i + 1)
    }
}

/// A string literal rebuilt from `i` on: segments copied, escapes
/// decoded, holes spliced.
pub open spec fn rebuilt(b: Seq<u8>, hs: Seq<(u32, u32, Seq<u8>)>, i: int) -> Seq<u8>
    decreases b.len() - i,
{
    if i >= b.len() {
        Seq::empty()
    } else {
        match hole_at(hs, i, 0) {
            Some(k) => if i < hs[k].1 && hs[k].1 <= b.len() {
                hs[k].2 + rebuilt(b, hs, hs[k].1 as int)
            } else {
                hs[k].2
            },
            None => if b[i] == BACKSLASH && i + 1 < b.len() {
                match code_escape(b, i) {
                    Some((n, used)) => if 0 < used && i + used <= b.len() {
                        encode_scalar(n) + rebuilt(b, hs, i + used)
                    } else {
                        Seq::empty()
                    },
                    None => seq![unescape(b[i + 1])] + rebuilt(b, hs, i + 2),
                }
            } else if (b[i] == OPEN_BRACE || b[i] == CLOSE_BRACE) && i + 1 < b.len() && b[i + 1]
                == b[i] {
                seq![b[i]] + rebuilt(b, hs, i + 2)
            } else {
                seq![b[i]] + rebuilt(b, hs, i + 1)
            },
        }
    }
}

pub const HOLES_IN_LINES: &'static str = "interpolation inside a multiline string";

/// The text bytes spell, as a value.
pub open spec fn str_read(b: Seq<u8>) -> ValueView {
    ValueView::Str(encode_utf8(read_text(b)))
}

/// A string literal with its holes rendered.
#[verifier::opaque]
pub open spec fn string_value(b: Seq<u8>, hs: Seq<(u32, u32, Seq<u8>)>, at: Span) -> Result<
    ValueView,
    StopView,
> {
    if is_multiline(b) {
        if hs.len() > 0 {
            Err(refused(HOLES_IN_LINES@, at))
        } else {
            Ok(str_read(decoded(dedented(multiline_inner(b)), 0)))
        }
    } else {
        match raw_inner(b) {
            Some(inner) => Ok(str_read(inner)),
            None => if b.len() >= 2 {
                Ok(str_read(rebuilt(b.take(b.len() - 1), hs, 1)))
            } else {
                Ok(str_read(rebuilt(b, hs, 0)))
            },
        }
    }
}

} // verus!
