//! The machine's plain steps: questions about the program, pattern
//! binding and matching, literals and numbers.

use vstd::prelude::*;
use vstd::string::*;
use vstd::utf8::*;

use crate::arith::{IntOut, checked_arith, keep, low_mask, wrapping_arith};
use crate::ast::{BinOp, BodyKind, Expr, Owner, PatKind, Pattern};
use crate::diag::{Span, texts};
use crate::evaluate::table_at;
use crate::literal::{
    cooked_str_pattern, extend, parse_int_literal, parse_uint_literal, prim_bits, prim_range,
    prim_size,
};
use crate::lowbind::binds_in;
use crate::machine::{Duty, Machine, advanced, opt_string, pair_views};
use crate::methods::char_val;
use crate::package::Package;
use crate::semantics::{
    BAD_REPLY, DESTRUCTURING, HANDLER_NESTED, HANDLER_PAYLOAD, HANDLER_TAG, HANDLER_VALUE, Here,
    Matched, NOT_DYN, NOT_NOMINAL, NO_ARITH, NO_CHAR, NO_F32, NO_FLOAT, NO_FLOAT_REM, NO_LITERAL,
    NO_OPERATOR, NO_ORDER, NO_PATTERN, TOO_WIDE, TUPLE_ARITY, TUPLE_OF_OTHER, World, any_fn,
    arith_binop, bin_values, bind_elements, bind_handler, bind_name, bind_pattern, bind_payload,
    bind_subs, cast_int, concrete_name, default_in, dispatch_type, domain_from, domain_of, float_op,
    fn_declared, fn_in, ident_match, int_result, is_module_fn, is_signed, is_unsigned, kind_at,
    last_part, literal_matches, literal_value, match_any, match_pattern, method_in, module_fn,
    override_in, pointee_at, prim_name, raises_tag, range_at, rigid_at, row_has, shift_origin,
    signed_at, simple_name, tests_tag, trait_body, value_le, value_lt, wrap_at,
};
use crate::text::{chars_of, contains_text, dec, lit, str_eq, string_of};
use crate::types::{ItemSig, Prim, TyId, TyKind};
use crate::value::{
    Flow, HostOp, PStep, Reply, Request, Slot, Stop, StopView, Value, bytes_before, bytes_equal,
    bytes_of, done_result, float_before, floats_equal, flow_result, lemma_named, lemma_vals,
    named_vals, refuse, str_value, trap, vals, value_result, values_equal,
};

verus! {

impl<'t> Machine<'t> {
    /// What evaluation depends on besides the state.
    pub open spec fn world(&self) -> World<'t> {
        World { pkg: self.pkg, heard: self.heard() }
    }
}

// ------------------------------------------------------------- questions --

pub open spec fn opt_kind_ref(o: Option<&TyKind>) -> Option<TyKind> {
    match o {
        Some(k) => Some(*k),
        None => None,
    }
}

impl<'t> Machine<'t> {
    /// The shape of an expression's checked type.
    pub fn kind_at(&self, h: Here, e: &Expr) -> (r: Option<&'t TyKind>)
        ensures
            opt_kind_ref(r) == kind_at(self.world(), h, *e),
    {
        match e.ty {
            Some(id) => if h.body < self.pkg.bodies.len() {
                self.pkg.bodies[h.body].table.kind(id)
            } else {
                None
            },
            None => None,
        }
    }

    pub fn table_kind(&self, h: Here, id: TyId) -> (r: Option<&'t TyKind>)
        ensures
            opt_kind_ref(r) == table_at(self.world(), h, id),
    {
        if h.body < self.pkg.bodies.len() {
            self.pkg.bodies[h.body].table.kind(id)
        } else {
            None
        }
    }

    pub fn wrap_at(&self, h: Here, e: &Expr) -> (r: Option<(u32, bool)>)
        ensures
            r == wrap_at(self.world(), h, *e),
            r matches Some((b, _)) ==> 8 <= b <= 64,
    {
        match self.kind_at(h, e) {
            Some(TyKind::Wrapping(inner)) => match self.table_kind(h, *inner) {
                Some(TyKind::Prim(p)) => match prim_bits(*p) {
                    Some(b) => Some((b, unsigned_prim(*p))),
                    None => None,
                },
                _ => None,
            },
            _ => None,
        }
    }

    pub fn range_at(&self, h: Here, e: &Expr) -> (r: Option<(i64, i64)>)
        ensures
            r == range_at(self.world(), h, *e),
    {
        match self.kind_at(h, e) {
            Some(TyKind::Prim(p)) => prim_range(*p),
            _ => None,
        }
    }

    pub fn signed_at(&self, h: Here, e: &Expr) -> (r: Option<u32>)
        ensures
            r == signed_at(self.world(), h, *e),
    {
        match self.kind_at(h, e) {
            Some(TyKind::Prim(p)) => if signed_prim(*p) {
                prim_bits(*p)
            } else {
                None
            },
            _ => None,
        }
    }

    pub fn pointee_at(&self, h: Here, e: &Expr) -> (r: u64)
        ensures
            r == pointee_at(self.world(), h, *e),
            1 <= r <= 8,
    {
        match self.kind_at(h, e) {
            Some(TyKind::Prim(p)) => prim_size(*p),
            _ => 1,
        }
    }

    /// Did the checker type the expression as an error union whose row
    /// declares the name?
    pub fn raises_tag(&self, h: Here, e: &Expr, name: &str) -> (r: bool)
        ensures
            r == raises_tag(self.world(), h, *e, name@),
    {
        match self.kind_at(h, e) {
            Some(TyKind::ErrUnion(_, row)) => match self.table_kind(h, *row) {
                Some(TyKind::Row { tags, .. }) => declares(tags, name),
                _ => false,
            },
            _ => false,
        }
    }

    /// The concrete type an expression's type names.
    pub fn ty_concrete_name(&self, h: Here, e: &Expr) -> (r: Option<String>)
        ensures
            opt_string(r) == concrete_name(self.world(), h, self@, *e),
    {
        match self.kind_at(h, e) {
            Some(TyKind::Nominal { name, .. }) => Some(name.clone()),
            Some(TyKind::Prim(p)) => Some(lit(name_of_prim(*p))),
            Some(TyKind::Rigid(_)) => match e.ty {
                Some(id) => {
                    if h.body >= self.pkg.bodies.len() {
                        return None;
                    }
                    let name = self.pkg.bodies[h.body].table.render(id);
                    let n: usize = self.frames.len();
                    if n == 0 {
                        return None;
                    }
                    assert(self@.frames[n - 1] == self.frames@[n - 1]@);
                    if str_eq(name.as_str(), "Self") {
                        match &self.frames[n - 1].self_ty {
                            Some(s) => Some(s.clone()),
                            None => None,
                        }
                    } else {
                        find_rigid(&self.frames[n - 1].rigids, name.as_str())
                    }
                },
                None => None,
            },
            _ => None,
        }
    }
}

fn declares(tags: &Vec<(String, Vec<TyId>)>, name: &str) -> (r: bool)
    ensures
        r == row_has(tags@, name@),
{
    let mut i: usize = 0;
    while i < tags.len()
        invariant
            i <= tags@.len(),
            forall|k: int| 0 <= k < i ==> (#[trigger] tags@[k]).0@ != name@,
        decreases tags.len() - i,
    {
        if str_eq(tags[i].0.as_str(), name) {
            assert(tags@[i as int].0@ == name@);
            return true;
        }
        i = i + 1;
    }
    false
}

fn find_rigid(v: &Vec<(String, String)>, name: &str) -> (r: Option<String>)
    ensures
        opt_string(r) == rigid_at(pair_views(v@), name@, 0),
{
    let mut i: usize = 0;
    while i < v.len()
        invariant
            i <= v@.len(),
            rigid_at(pair_views(v@), name@, 0) == rigid_at(pair_views(v@), name@, i as int),
        decreases v.len() - i,
    {
        assert(pair_views(v@)[i as int] == (v@[i as int].0@, v@[i as int].1@));
        if str_eq(v[i].0.as_str(), name) {
            return Some(v[i].1.clone());
        }
        i = i + 1;
    }
    None
}

pub fn has_rigid(v: &Vec<(String, String)>, name: &str) -> (r: bool)
    ensures
        r == (rigid_at(pair_views(v@), name@, 0) is Some),
{
    find_rigid(v, name).is_some()
}

fn unsigned_prim(p: Prim) -> (r: bool)
    ensures
        r == is_unsigned(p),
{
    match p {
        Prim::Uint | Prim::U8 | Prim::U16 | Prim::U32 | Prim::U64 => true,
        _ => false,
    }
}

fn signed_prim(p: Prim) -> (r: bool)
    ensures
        r == is_signed(p),
{
    match p {
        Prim::Int | Prim::I8 | Prim::I16 | Prim::I32 | Prim::I64 => true,
        _ => false,
    }
}

fn name_of_prim(p: Prim) -> (r: &'static str)
    ensures
        r@ == prim_name(p),
{
    match p {
        Prim::Int => "int",
        Prim::Uint => "uint",
        Prim::I8 => "i8",
        Prim::I16 => "i16",
        Prim::I32 => "i32",
        Prim::I64 => "i64",
        Prim::U8 => "u8",
        Prim::U16 => "u16",
        Prim::U32 => "u32",
        Prim::U64 => "u64",
        Prim::F32 => "f32",
        Prim::F64 => "f64",
        Prim::Bool => "bool",
        Prim::Byte => "byte",
        Prim::Char => "char",
        Prim::Str => "str",
    }
}

pub fn is_simple_name(s: &str) -> (r: bool)
    ensures
        r == simple_name(s@),
{
    !contains_text(s, ".") && !contains_text(s, "::")
}

/// The part of a path behind its last dot.
pub fn behind_dot(s: &str) -> (r: String)
    ensures
        r@ == last_part(s@, s@.len()),
{
    let cs = chars_of(s);
    let len: usize = cs.len();
    let mut n: usize = len;
    while n > 0
        invariant
            n <= len,
            len == cs@.len(),
            cs@ == s@,
            last_part(s@, s@.len()) == last_part(s@, n as nat),
        decreases n,
    {
        if cs[n - 1] == '.' {
            let r = string_of(&cs, n, len);
            assert(cs@.subrange(n as int, len as int) =~= s@.skip(n as int));
            return r;
        }
        n = n - 1;
    }
    lit(s)
}

// ---------------------------------------------------------------- bodies --

pub open spec fn opt_body(o: Option<usize>) -> Option<int> {
    match o {
        Some(i) => Some(i as int),
        None => None,
    }
}

pub fn module_fn_at(p: &Package, i: usize, name: &str) -> (r: bool)
    requires
        i < p.bodies@.len(),
    ensures
        r == is_module_fn(p, i as int, name@),
{
    let b = &p.bodies[i];
    let module = match &b.owner {
        Owner::Module => true,
        _ => false,
    };
    let func = match &b.kind {
        BodyKind::Fn(_) => true,
        _ => false,
    };
    module && func && str_eq(b.name.as_str(), name)
}

/// The last function of a module with that name.
pub fn find_module_fn(p: &Package, module: u32, name: &str) -> (r: Option<usize>)
    ensures
        opt_body(r) == module_fn(p, module, name@),
        r matches Some(i) ==> i < p.bodies@.len(),
{
    let mut n: usize = p.bodies.len();
    while n > 0
        invariant
            n <= p.bodies@.len(),
            module_fn(p, module, name@) == fn_in(p, module, name@, n as nat),
        decreases n,
    {
        if module_fn_at(p, n - 1, name) && p.bodies[n - 1].module == module {
            return Some(n - 1);
        }
        n = n - 1;
    }
    None
}

/// The first function of that name in any module.
pub fn find_any_fn(p: &Package, name: &str) -> (r: Option<usize>)
    ensures
        opt_body(r) == any_fn(p, name@, 0),
        r matches Some(i) ==> i < p.bodies@.len(),
{
    let mut i: usize = 0;
    while i < p.bodies.len()
        invariant
            i <= p.bodies@.len(),
            any_fn(p, name@, 0) == any_fn(p, name@, i as int),
        decreases p.bodies.len() - i,
    {
        if module_fn_at(p, i, name) {
            if let Some(k) = find_module_fn(p, p.bodies[i].module, name) {
                if k == i {
                    return Some(i);
                }
            }
        }
        i = i + 1;
    }
    None
}

pub fn find_declared(p: &Package, at: Span) -> (r: Option<usize>)
    ensures
        opt_body(r) == fn_declared(p, at, p.bodies@.len()),
        r matches Some(i) ==> i < p.bodies@.len(),
{
    let mut n: usize = p.bodies.len();
    while n > 0
        invariant
            n <= p.bodies@.len(),
            fn_declared(p, at, p.bodies@.len()) == fn_declared(p, at, n as nat),
        decreases n,
    {
        let b = &p.bodies[n - 1];
        let module = match &b.owner {
            Owner::Module => true,
            _ => false,
        };
        let here = match &b.kind {
            BodyKind::Fn(d) => match d.name_span {
                Some(s) => s == at,
                None => false,
            },
            _ => false,
        };
        if module && here {
            return Some(n - 1);
        }
        n = n - 1;
    }
    None
}

pub fn find_method(p: &Package, ty: &str, name: &str) -> (r: Option<usize>)
    ensures
        opt_body(r) == method_in(p, ty@, name@, p.bodies@.len()),
        r matches Some(i) ==> i < p.bodies@.len(),
{
    let mut n: usize = p.bodies.len();
    while n > 0
        invariant
            n <= p.bodies@.len(),
            method_in(p, ty@, name@, p.bodies@.len()) == method_in(p, ty@, name@, n as nat),
        decreases n,
    {
        let b = &p.bodies[n - 1];
        let func = match &b.kind {
            BodyKind::Fn(_) => true,
            _ => false,
        };
        let owned = match &b.owner {
            Owner::Impl { self_ty, trait_name: None } => str_eq(self_ty.as_str(), ty),
            _ => false,
        };
        if func && owned && str_eq(b.name.as_str(), name) {
            return Some(n - 1);
        }
        n = n - 1;
    }
    None
}

fn find_override(p: &Package, ty: &str, tr: &str, name: &str) -> (r: Option<usize>)
    ensures
        opt_body(r) == override_in(p, ty@, tr@, name@, p.bodies@.len()),
        r matches Some(i) ==> i < p.bodies@.len(),
{
    let mut n: usize = p.bodies.len();
    while n > 0
        invariant
            n <= p.bodies@.len(),
            override_in(p, ty@, tr@, name@, p.bodies@.len()) == override_in(
                p,
                ty@,
                tr@,
                name@,
                n as nat,
            ),
        decreases n,
    {
        let b = &p.bodies[n - 1];
        let func = match &b.kind {
            BodyKind::Fn(_) => true,
            _ => false,
        };
        let owned = match &b.owner {
            Owner::Impl { self_ty, trait_name: Some(t) } => {
                let last = behind_dot(t.as_str());
                str_eq(self_ty.as_str(), ty) && str_eq(last.as_str(), tr)
            },
            _ => false,
        };
        if func && owned && str_eq(b.name.as_str(), name) {
            return Some(n - 1);
        }
        n = n - 1;
    }
    None
}

fn find_default(p: &Package, module: u32, tr: &str, name: &str) -> (r: Option<usize>)
    ensures
        opt_body(r) == default_in(p, module, tr@, name@, p.bodies@.len()),
        r matches Some(i) ==> i < p.bodies@.len(),
{
    let mut n: usize = p.bodies.len();
    while n > 0
        invariant
            n <= p.bodies@.len(),
            default_in(p, module, tr@, name@, p.bodies@.len()) == default_in(
                p,
                module,
                tr@,
                name@,
                n as nat,
            ),
        decreases n,
    {
        let b = &p.bodies[n - 1];
        let func = match &b.kind {
            BodyKind::Fn(_) => true,
            _ => false,
        };
        let owned = match &b.owner {
            Owner::Trait { name: t } => str_eq(t.as_str(), tr),
            _ => false,
        };
        if func && owned && b.module == module && str_eq(b.name.as_str(), name) {
            return Some(n - 1);
        }
        n = n - 1;
    }
    None
}

/// The body a trait method call runs.
pub fn resolve_trait_body(p: &Package, concrete: &str, module: u32, tr: &str, name: &str) -> (r: Option<
    usize,
>)
    ensures
        opt_body(r) == trait_body(p, concrete@, module, tr@, name@),
        r matches Some(i) ==> i < p.bodies@.len(),
{
    match find_override(p, concrete, tr, name) {
        Some(b) => Some(b),
        None => find_default(p, module, tr, name),
    }
}

pub open spec fn text_result(r: Result<String, Stop>) -> Result<Seq<char>, StopView> {
    match r {
        Ok(s) => Ok(s@),
        Err(x) => Err(x@),
    }
}

impl<'t> Machine<'t> {
    /// The concrete type a trait dispatch lands on.
    pub fn trait_concrete(&self, h: Here, recv: &Expr, dyn_call: bool, v: &Value, at: Span) -> (r: Result<
        String,
        Stop,
    >)
        ensures
            text_result(r) == dispatch_type(self.world(), h, self@, *recv, dyn_call, v@, at),
    {
        if !dyn_call {
            if let Some(n) = self.ty_concrete_name(h, recv) {
                return Ok(n);
            }
        }
        let erased = match self.kind_at(h, recv) {
            Some(TyKind::Dyn) => true,
            _ => false,
        };
        if dyn_call || erased {
            match v {
                Value::Dyn { concrete, .. } => Ok(concrete.clone()),
                _ => Err(refuse(NOT_DYN, at)),
            }
        } else {
            Err(refuse(NOT_NOMINAL, at))
        }
    }
}

// -------------------------------------------------------------- patterns --

impl<'t> Machine<'t> {
    fn bind_name(&mut self, name: &str, v: Value)
        requires
            old(self).inv(),
        ensures
            advanced(*old(self), *final(self)),
            final(self)@ == bind_name(old(self)@, name@, v@),
    {
        let duty: u8 = match &v {
            Value::Shared(_) | Value::Weak(_) => 1,
            Value::Region(_) => 2,
            _ => 0,
        };
        let idx = self.declare(name, v);
        if duty == 1 {
            self.oblige(Duty::DropLocal(idx));
        } else if duty == 2 {
            self.oblige(Duty::FreeRegionLocal(idx));
        }
    }

    fn bind_subs(&mut self, subs: &Vec<Pattern>, fs: &Vec<(String, Value)>) -> (r: Result<(), Stop>)
        requires
            old(self).inv(),
            subs@.len() == fs@.len(),
        ensures
            advanced(*old(self), *final(self)),
            (final(self)@, done_result(r)) == bind_subs(
                old(self)@,
                *subs,
                named_vals(fs@),
                0,
            ),
        decreases subs, 0nat,
    {
        let ghost start = *self;
        let ghost fv = named_vals(fs@);
        let mut i: usize = 0;
        while i < subs.len()
            invariant
                i <= subs@.len(),
                start == *old(self),
                subs@.len() == fs@.len(),
                fv == named_vals(fs@),
                advanced(start, *self),
                bind_subs(start@, *subs, fv, 0) == bind_subs(self@, *subs, fv, i as nat),
            decreases subs.len() - i,
        {
            assert(fv[i as int] == (fs@[i as int].0@, fs@[i as int].1@));
            let v = fs[i].1.duplicate();
            match self.bind_pattern(&subs[i], v) {
                Err(s) => return Err(s),
                Ok(_) => {},
            }
            i = i + 1;
        }
        Ok(())
    }

    /// Bind a pattern to a value.
    pub fn bind_pattern(&mut self, p: &Pattern, v: Value) -> (r: Result<(), Stop>)
        requires
            old(self).inv(),
        ensures
            advanced(*old(self), *final(self)),
            (final(self)@, done_result(r)) == bind_pattern(old(self)@, *p, v@),
        decreases p, 0nat,
    {
        if let PatKind::Tuple(subs) = &p.kind {
            match v {
                Value::Struct(fs) => {
                    proof {
                        lemma_named(fs);
                    }
                    if fs.len() != subs.len() {
                        return Err(refuse(TUPLE_ARITY, p.span));
                    }
                    return self.bind_subs(subs, &fs);
                },
                _ => return Err(refuse(TUPLE_OF_OTHER, p.span)),
            }
        }
        let bs = binds_in(p);
        if bs.len() == 0 {
            return Ok(());
        }
        if bs.len() > 1 {
            return Err(refuse(DESTRUCTURING, p.span));
        }
        self.bind_name(bs[0].name.as_str(), v);
        Ok(())
    }

    /// Destructure a tuple place element-wise.
    pub fn bind_tuple_elements(&mut self, subs: &Vec<Pattern>, base: &Slot) -> (r: Result<(), Stop>)
        requires
            old(self).inv(),
        ensures
            advanced(*old(self), *final(self)),
            (final(self)@, done_result(r)) == bind_elements(old(self)@, *subs, base@, 0),
        decreases subs, 0nat,
    {
        let ghost start = *self;
        let mut i: usize = 0;
        while i < subs.len()
            invariant
                i <= subs@.len(),
                start == *old(self),
                advanced(start, *self),
                bind_elements(start@, *subs, base@, 0) == bind_elements(
                    self@,
                    *subs,
                    base@,
                    i as nat,
                ),
            decreases subs.len() - i,
        {
            let sub = &subs[i];
            let mut ep = base.duplicate();
            let index = dec(i as u64);
            ep.step(PStep::Field(index));
            match &sub.kind {
                PatKind::Wildcard => {},
                PatKind::Tuple(inner) => match self.bind_tuple_elements(inner, &ep) {
                    Err(s) => return Err(s),
                    Ok(_) => {},
                },
                _ => match self.take_value(&ep, sub.span) {
                    Err(s) => return Err(s),
                    Ok(v) => match self.bind_pattern(sub, v) {
                        Err(s) => return Err(s),
                        Ok(_) => {},
                    },
                },
            }
            i = i + 1;
        }
        Ok(())
    }

    fn bind_payload(&mut self, subs: &Vec<Pattern>, payload: &Vec<Value>) -> (r: Result<(), Stop>)
        requires
            old(self).inv(),
        ensures
            advanced(*old(self), *final(self)),
            (final(self)@, done_result(r)) == bind_payload(
                old(self)@,
                subs@,
                vals(payload@),
                0,
            ),
    {
        let ghost start = *self;
        let ghost pv = vals(payload@);
        let mut i: usize = 0;
        while i < subs.len()
            invariant
                i <= subs@.len(),
                start == *old(self),
                pv == vals(payload@),
                advanced(start, *self),
                bind_payload(start@, subs@, pv, 0) == bind_payload(
                    self@,
                    subs@,
                    pv,
                    i as int,
                ),
            decreases subs.len() - i,
        {
            let sub = &subs[i];
            if i >= payload.len() {
                return Err(refuse(HANDLER_PAYLOAD, sub.span));
            }
            assert(pv[i as int] == payload@[i as int]@);
            match &sub.kind {
                PatKind::Wildcard => {},
                PatKind::Ident(_) | PatKind::Binding(..) => {
                    let v = payload[i].duplicate();
                    match self.bind_pattern(sub, v) {
                        Err(s) => return Err(s),
                        Ok(_) => {},
                    }
                },
                _ => return Err(refuse(HANDLER_NESTED, sub.span)),
            }
            i = i + 1;
        }
        Ok(())
    }

    /// Bind a handler's pattern to the caught error.
    pub fn bind_handler(&mut self, p: &Pattern, err: Value) -> (r: Result<(), Stop>)
        requires
            old(self).inv(),
        ensures
            advanced(*old(self), *final(self)),
            (final(self)@, done_result(r)) == bind_handler(old(self)@, *p, err@),
    {
        match &p.kind {
            PatKind::Path { dotted, subs } => match err {
                Value::ErrTag { tag, payload } => {
                    proof {
                        lemma_vals(payload);
                    }
                    let last = behind_dot(dotted.as_str());
                    if !str_eq(tag.as_str(), dotted.as_str()) && !str_eq(
                        tag.as_str(),
                        last.as_str(),
                    ) {
                        return Err(refuse(HANDLER_TAG, p.span));
                    }
                    self.bind_payload(subs, &payload)
                },
                _ => Err(refuse(HANDLER_VALUE, p.span)),
            },
            _ => self.bind_pattern(p, err),
        }
    }
}

pub open spec fn opt_texts(o: Option<Vec<String>>) -> Option<Seq<Seq<char>>> {
    match o {
        Some(v) => Some(texts(v@)),
        None => None,
    }
}

impl<'t> Machine<'t> {
    /// The tag or variant names of the scrutinee's type.
    pub fn match_domain_names(&self, h: Here, e: &Expr) -> (r: Option<Vec<String>>)
        ensures
            opt_texts(r) == domain_of(self.world(), h, *e),
    {
        let first = match e.ty {
            Some(id) => id,
            None => return None,
        };
        if h.body >= self.pkg.bodies.len() {
            return None;
        }
        let ghost w = self.world();
        let mut id: TyId = first;
        let mut fuel: usize = 32;
        loop
            invariant
                h.body < self.pkg.bodies@.len(),
                w == self.world(),
                domain_of(w, h, *e) == domain_from(w, h, id, fuel as nat),
            decreases fuel,
        {
            match self.table_kind(h, id) {
                Some(TyKind::Distinct(inner)) => {
                    if fuel == 0 {
                        return None;
                    }
                    id = *inner;
                    fuel = fuel - 1;
                },
                Some(TyKind::Row { tags, .. }) => {
                    let mut out: Vec<String> = Vec::new();
                    let mut i: usize = 0;
                    while i < tags.len()
                        invariant
                            i <= tags@.len(),
                            out@.len() == i,
                            forall|k: int| 0 <= k < i ==> (#[trigger] out@[k])@ == tags@[k].0@,
                        decreases tags.len() - i,
                    {
                        out.push(tags[i].0.clone());
                        i = i + 1;
                    }
                    assert(texts(out@) =~= Seq::new(tags@.len(), |k: int| tags@[k].0@));
                    return Some(out);
                },
                Some(TyKind::Nominal { module, name, .. }) => {
                    return match self.pkg.sigs.get(*module, name.as_str()) {
                        Some(ItemSig::Enum(vs)) => {
                            let mut out: Vec<String> = Vec::new();
                            let mut i: usize = 0;
                            while i < vs.len()
                                invariant
                                    i <= vs@.len(),
                                    out@.len() == i,
                                    forall|k: int|
                                        0 <= k < i ==> (#[trigger] out@[k])@ == vs@[k].name@,
                                decreases vs.len() - i,
                            {
                                out.push(vs[i].name.clone());
                                i = i + 1;
                            }
                            assert(texts(out@) =~= Seq::new(vs@.len(), |k: int| vs@[k].name@));
                            Some(out)
                        },
                        _ => None,
                    };
                },
                _ => return None,
            }
        }
    }
}

/// What a pattern makes of a value.
pub enum Hit {
    No,
    Yes,
    Binds(String),
    Refused(Stop),
}

impl View for Hit {
    type V = Matched;

    open spec fn view(&self) -> Matched {
        match *self {
            Hit::No => Matched::No,
            Hit::Yes => Matched::Yes,
            Hit::Binds(s) => Matched::Binds(s@),
            Hit::Refused(s) => Matched::Refused(s@),
        }
    }
}

fn literal_hits(text: &str, c: Option<char>, v: &Value) -> (r: bool)
    ensures
        r == literal_matches(text@, c, v@),
{
    match v {
        Value::Int(n) => match parse_int_literal(text) {
            Some(k) => k == *n,
            None => false,
        },
        Value::Bool(b) => if *b {
            str_eq(text, "true")
        } else {
            str_eq(text, "false")
        },
        Value::Char(x) => match c {
            Some(y) => y == *x,
            None => false,
        },
        Value::Str(s) => {
            let b = cooked_str_pattern(text);
            bytes_equal(&b, &bytes_of(s.as_str()))
        },
        _ => false,
    }
}

fn find_tag(names: &Vec<String>, full: &str, last: &str) -> (r: Option<String>)
    ensures
        opt_string(r) == tests_tag(texts(names@), full@, last@, 0),
{
    let mut i: usize = 0;
    while i < names.len()
        invariant
            i <= names@.len(),
            tests_tag(texts(names@), full@, last@, 0) == tests_tag(
                texts(names@),
                full@,
                last@,
                i as int,
            ),
        decreases names.len() - i,
    {
        assert(texts(names@)[i as int] == names@[i as int]@);
        if str_eq(names[i].as_str(), full) || str_eq(names[i].as_str(), last) {
            return Some(names[i].clone());
        }
        i = i + 1;
    }
    None
}

fn ident_hits(text: &str, v: &Value, domain: &Option<Vec<String>>) -> (r: Hit)
    ensures
        r@ == ident_match(text@, v@, opt_texts(*domain)),
{
    let tested = match domain {
        Some(names) => {
            let last = behind_dot(text);
            find_tag(names, text, last.as_str())
        },
        None => None,
    };
    match tested {
        Some(tag) => {
            let hit = match v {
                Value::ErrTag { tag: t, .. } => str_eq(t.as_str(), tag.as_str()),
                Value::Enum { variant, .. } => str_eq(variant.as_str(), tag.as_str()),
                _ => false,
            };
            if hit {
                Hit::Yes
            } else {
                Hit::No
            }
        },
        None => Hit::Binds(lit(text)),
    }
}

/// Match a pattern against a value.
pub fn pattern_hits(p: &Pattern, v: &Value, domain: &Option<Vec<String>>) -> (r: Hit)
    ensures
        r@ == match_pattern(*p, v@, opt_texts(*domain)),
    decreases p, 0nat,
{
    match &p.kind {
        PatKind::Wildcard => Hit::Yes,
        PatKind::Literal { char_value } => if literal_hits(p.text.as_str(), *char_value, v) {
            Hit::Yes
        } else {
            Hit::No
        },
        PatKind::Ident(_) => ident_hits(p.text.as_str(), v, domain),
        PatKind::Binding(..) => Hit::Binds(p.text.clone()),
        PatKind::Or(ps) => any_hits(ps, v, domain),
        _ => Hit::Refused(refuse(NO_PATTERN, p.span)),
    }
}

fn any_hits(ps: &Vec<Pattern>, v: &Value, domain: &Option<Vec<String>>) -> (r: Hit)
    ensures
        r@ == match_any(*ps, 0, v@, opt_texts(*domain)),
    decreases ps, 0nat,
{
    let mut i: usize = 0;
    while i < ps.len()
        invariant
            i <= ps@.len(),
            match_any(*ps, 0, v@, opt_texts(*domain)) == match_any(
                *ps,
                i as nat,
                v@,
                opt_texts(*domain),
            ),
        decreases ps.len() - i,
    {
        match pattern_hits(&ps[i], v, domain) {
            Hit::Refused(s) => return Hit::Refused(s),
            Hit::No => {},
            _ => return Hit::Yes,
        }
        i = i + 1;
    }
    Hit::No
}

// -------------------------------------------------------------- literals --

impl<'t> Machine<'t> {
    /// The value of a scalar literal.
    #[verifier::truncate]
    pub fn literal(
        &self,
        h: Here,
        e: &Expr,
        char_value: Option<char>,
        float_bits: Option<u64>,
    ) -> (r: Result<Value, Stop>)
        ensures
            value_result(r) == literal_value(self.world(), h, *e, char_value, float_bits),
    {
        proof {
            reveal(literal_value);
        }
        let text = e.text.as_str();
        if str_eq(text, "true") {
            return Ok(Value::Bool(true));
        }
        if str_eq(text, "false") {
            return Ok(Value::Bool(false));
        }
        let cs = chars_of(text);
        if cs.len() > 0 && cs[0] == '\'' {
            assert(e.text@[0] == '\'');
            match char_value {
                Some(c) => return Ok(char_val(c)),
                None => return Err(refuse(NO_CHAR, e.span)),
            }
        }
        match self.kind_at(h, e) {
            Some(TyKind::Prim(Prim::F64)) => {
                return match float_bits {
                    Some(b) => Ok(Value::F64(b)),
                    None => Err(refuse(NO_FLOAT, e.span)),
                };
            },
            Some(TyKind::Prim(Prim::F32)) => return Err(refuse(NO_F32, e.span)),
            _ => {},
        }
        if let Some((bits, true)) = self.wrap_at(h, e) {
            if let Some(v) = parse_uint_literal(text) {
                if v & low_mask(bits) != v {
                    return Err(refuse(TOO_WIDE, e.span));
                }
                return Ok(Value::Int(keep(v, bits)));
            }
        }
        match parse_int_literal(text) {
            Some(n) => Ok(Value::Int(n)),
            None => Err(refuse(NO_LITERAL, e.span)),
        }
    }
}

// --------------------------------------------------------------- numbers --

fn int_outcome(o: IntOut, span: Span) -> (r: Result<Value, Stop>)
    ensures
        value_result(r) == int_result(o, span),
{
    match o {
        IntOut::Gives(n) => Ok(Value::Int(n)),
        IntOut::DivZero => Err(trap("div-zero", "mem.ub.defined", span)),
        IntOut::Overflow => Err(trap("overflow", "mem.ub.defined", span)),
        IntOut::Unruled => Err(refuse(NO_OPERATOR, span)),
    }
}

fn float_request(op: BinOp) -> (r: Option<HostOp>)
    ensures
        r == float_op(op),
{
    match op {
        BinOp::Plus => Some(HostOp::FloatAdd),
        BinOp::Minus => Some(HostOp::FloatSub),
        BinOp::Star => Some(HostOp::FloatMul),
        BinOp::Slash => Some(HostOp::FloatDiv),
        _ => None,
    }
}

impl<'t> Machine<'t> {
    /// Arithmetic on two values.
    #[verifier::truncate]
    #[verifier::spinoff_prover]
    pub fn arith_binop(
        &mut self,
        op: BinOp,
        l: Value,
        r: Value,
        wrap: Option<(u32, bool)>,
        range: Option<(i64, i64)>,
        span: Span,
    ) -> (out: Result<Value, Stop>)
        requires
            old(self).inv(),
            wrap matches Some((b, _)) ==> 8 <= b <= 64,
        ensures
            advanced(*old(self), *final(self)),
            (final(self)@, value_result(out)) == arith_binop(
                old(self).world(),
                old(self)@,
                op,
                l@,
                r@,
                wrap,
                range,
                span,
            ),
    {
        proof {
            reveal(arith_binop);
        }
        match (l, r) {
            (Value::Str(a), Value::Str(b)) => {
                if op == BinOp::Plus {
                    let mut out = bytes_of(a.as_str());
                    let more = bytes_of(b.as_str());
                    proof {
                        encode_utf8_valid_utf8(a@);
                        encode_utf8_valid_utf8(b@);
                        valid_utf8_concat(encode_utf8(a@), encode_utf8(b@));
                    }
                    extend(&mut out, &more);
                    Ok(str_value(&out))
                } else {
                    Err(refuse(NO_ARITH, span))
                }
            },
            (Value::Int(a), Value::Int(b)) => match wrap {
                Some((bits, unsigned)) => int_outcome(
                    wrapping_arith(op, a, b, bits, unsigned),
                    span,
                ),
                None => int_outcome(checked_arith(op, a, b, range), span),
            },
            (Value::F64(a), Value::F64(b)) => {
                if op == BinOp::Percent {
                    return Err(refuse(NO_FLOAT_REM, span));
                }
                match float_request(op) {
                    Some(o) => {
                        let q = Request::of(o).num(a as i64).num(b as i64);
                        match self.ask(q) {
                            Err(s) => Err(s),
                            Ok(Reply::Int(n)) => Ok(Value::F64(*n as u64)),
                            Ok(_) => Err(refuse(BAD_REPLY, span)),
                        }
                    },
                    None => Ok(Value::F64(a)),
                }
            },
            _ => Err(refuse(NO_ARITH, span)),
        }
    }
}

fn less(a: &Value, b: &Value) -> (r: Option<bool>)
    ensures
        r == value_lt(a@, b@),
{
    match (a, b) {
        (Value::Int(x), Value::Int(y)) => Some(*x < *y),
        (Value::F64(x), Value::F64(y)) => Some(float_before(*x, *y)),
        (Value::Str(x), Value::Str(y)) => Some(
            bytes_before(&bytes_of(x.as_str()), &bytes_of(y.as_str())),
        ),
        (Value::Char(x), Value::Char(y)) => Some((*x as u32) < (*y as u32)),
        _ => None,
    }
}

fn at_most(a: &Value, b: &Value) -> (r: Option<bool>)
    ensures
        r == value_le(a@, b@),
{
    match (a, b) {
        (Value::F64(x), Value::F64(y)) => Some(float_before(*x, *y) || floats_equal(*x, *y)),
        _ => match less(b, a) {
            Some(g) => Some(!g),
            None => None,
        },
    }
}

impl<'t> Machine<'t> {
    /// A binary operation on evaluated operands.
    #[verifier::spinoff_prover]
    pub fn bin_values(&mut self, h: Here, e: &Expr, op: BinOp, l: Value, r: Value) -> (out: Result<
        Flow,
        Stop,
    >)
        requires
            old(self).inv(),
        ensures
            advanced(*old(self), *final(self)),
            (final(self)@, flow_result(out)) == bin_values(
                old(self).world(),
                h,
                old(self)@,
                *e,
                op,
                l@,
                r@,
            ),
    {
        proof {
            reveal(bin_values);
        }
        match op {
            BinOp::EqEq => Ok(Flow::Val(Value::Bool(values_equal(&l, &r)))),
            BinOp::NotEq => Ok(Flow::Val(Value::Bool(!values_equal(&l, &r)))),
            BinOp::Lt | BinOp::Gt | BinOp::LtEq | BinOp::GtEq => {
                let o = match op {
                    BinOp::Lt => less(&l, &r),
                    BinOp::Gt => less(&r, &l),
                    BinOp::LtEq => at_most(&l, &r),
                    _ => at_most(&r, &l),
                };
                match o {
                    Some(b) => Ok(Flow::Val(Value::Bool(b))),
                    None => Err(refuse(NO_ORDER, e.span)),
                }
            },
            BinOp::Plus
            | BinOp::Minus
            | BinOp::Star
            | BinOp::Slash
            | BinOp::Percent
            | BinOp::Amp
            | BinOp::Pipe
            | BinOp::Caret
            | BinOp::Shl
            | BinOp::Shr => {
                let wrap = self.wrap_at(h, e);
                let range = self.range_at(h, e);
                match self.arith_binop(op, l, r, wrap, range, e.span) {
                    Err(s) => Err(s),
                    Ok(v) => Ok(Flow::Val(v)),
                }
            },
            _ => Err(refuse(NO_OPERATOR, e.span)),
        }
    }
}

pub open spec fn int_or_stop(r: Result<i64, Stop>) -> Result<i64, StopView> {
    match r {
        Ok(n) => Ok(n),
        Err(s) => Err(s@),
    }
}

/// The shift of a one-origin index.
pub fn shifted_index(i: i64, one: bool, at: Span) -> (r: Result<i64, Stop>)
    ensures
        int_or_stop(r) == shift_origin(i, one, at),
{
    if !one {
        Ok(i)
    } else if i == i64::MIN {
        Err(trap("overflow", "mem.ub.defined", at))
    } else {
        Ok(i - 1)
    }
}

impl<'t> Machine<'t> {
    /// A value-preserving cast of an integer.
    #[verifier::truncate]
    pub fn cast_int(&self, h: Here, e: &Expr, inner: &Expr, n: i64) -> (r: Result<Value, Stop>)
        ensures
            value_result(r) == cast_int(self.world(), h, *e, *inner, n),
    {
        proof {
            reveal(cast_int);
        }
        if let Some((bits, _)) = self.wrap_at(h, e) {
            return Ok(Value::Int(keep(n as u64, bits)));
        }
        if let Some((sbits, true)) = self.wrap_at(h, inner) {
            if let Some(tbits) = self.signed_at(h, e) {
                if (n as u64) & low_mask(sbits) > low_mask(tbits) >> 1u64 {
                    return Err(trap("overflow", "mem.ub.defined", e.span));
                }
                return Ok(Value::Int(n));
            }
        }
        if let Some((lo, hi)) = self.range_at(h, e) {
            if n < lo || n > hi {
                return Err(trap("overflow", "mem.ub.defined", e.span));
            }
        }
        Ok(Value::Int(n))
    }
}

} // verus!
