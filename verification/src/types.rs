//! The type and signature tables the checker reads, and the judgements
//! over them: copyability, field types, generic parameters.

use vstd::prelude::*;
use vstd::string::*;

use crate::cfg::ParamMode;
use crate::diag::Span;
use crate::text::{dec, decimal, lit, str_eq};

verus! {

/// A type, by its position in a type table.
#[derive(Debug, Clone, Copy, PartialEq, Eq, PartialOrd, Ord, Hash, Structural)]
pub struct TyId(pub u32);

#[derive(Debug, Clone, Copy, PartialEq, Eq, Structural)]
pub enum Prim {
    Int,
    Uint,
    I8,
    I16,
    I32,
    I64,
    U8,
    U16,
    U32,
    U64,
    F32,
    F64,
    Bool,
    Byte,
    Char,
    Str,
}

impl Prim {
    /// The arithmetic integer types (`byte` is not one of them).
    pub open spec fn integer(self) -> bool {
        match self {
            Prim::Int
            | Prim::Uint
            | Prim::I8
            | Prim::I16
            | Prim::I32
            | Prim::I64
            | Prim::U8
            | Prim::U16
            | Prim::U32
            | Prim::U64 => true,
            _ => false,
        }
    }

    pub fn is_integer(self) -> (r: bool)
        ensures
            r == self.integer(),
    {
        match self {
            Prim::Int
            | Prim::Uint
            | Prim::I8
            | Prim::I16
            | Prim::I32
            | Prim::I64
            | Prim::U8
            | Prim::U16
            | Prim::U32
            | Prim::U64 => true,
            _ => false,
        }
    }
}

/// The shape of a type.
#[derive(Debug, Clone)]
pub enum TyKind {
    Error,
    Never,
    Unit,
    Prim(Prim),
    Wrapping(TyId),
    Fn(Vec<TyId>, TyId),
    Range(TyId),
    Handle(TyId),
    Ptr(TyId),
    TypeTy,
    Chan(TyId),
    Mutex(TyId),
    TaskScope,
    Proc,
    ExitReason,
    Distinct(TyId),
    Shared(TyId),
    Weak(TyId),
    List(TyId),
    Pool(TyId),
    Tuple(Vec<TyId>),
    ErrUnion(TyId, TyId),
    Row { tags: Vec<(String, Vec<TyId>)>, tail: Option<TyId> },
    Nominal { module: u32, name: String, args: Vec<TyId> },
    Rigid(u32),
    Proj(TyId, String),
    Dyn,
    RegionTy,
    Unsupported(String),
}

/// Interned types, each with its rendering. A type is interned after its
/// parts.
#[derive(Debug)]
pub struct TypeTable {
    pub kinds: Vec<TyKind>,
    pub rendered: Vec<String>,
}

/// One declared parameter.
#[derive(Debug, Clone)]
pub struct ParamSig {
    pub name: String,
    pub ty: TyId,
    pub mode: Option<ParamMode>,
    /// A view set (`mut self.{x, y}`).
    pub view: Option<Vec<String>>,
    pub span: Span,
}

#[derive(Debug, Clone)]
pub struct FnSig {
    pub params: Vec<ParamSig>,
    pub ret: TyId,
    pub ret_span: Option<Span>,
    pub name_span: Span,
}

#[derive(Debug, Clone)]
pub struct FieldSig {
    pub name: String,
    pub ty: TyId,
    pub span: Span,
}

#[derive(Debug, Clone)]
pub struct StructSig {
    pub fields: Vec<FieldSig>,
    pub generic: bool,
    /// The generic parameters, by their rigid ids.
    pub generics: Vec<u32>,
}

#[derive(Debug, Clone)]
pub struct VariantSig {
    pub name: String,
    pub payload: Vec<TyId>,
    pub span: Span,
}

#[derive(Debug, Clone)]
pub struct GlobalSig {
    pub ty: Option<TyId>,
    pub name_span: Span,
}

#[derive(Debug, Clone)]
pub enum ItemSig {
    Fn(FnSig),
    Struct(StructSig),
    Enum(Vec<VariantSig>),
    Global(GlobalSig),
    Other,
}

/// One module-level item.
#[derive(Debug, Clone)]
pub struct ItemEntry {
    pub name: String,
    /// Visible outside its module.
    pub exported: bool,
    pub sig: ItemSig,
}

#[derive(Debug, Clone)]
pub struct MethodSig {
    pub name: String,
    pub sig: FnSig,
}

#[derive(Debug, Clone)]
pub struct ImplSig {
    pub file: u32,
    pub decl: u32,
    pub methods: Vec<MethodSig>,
}

#[derive(Debug, Clone)]
pub struct TraitSig {
    pub module: u32,
    pub name: String,
    pub methods: Vec<MethodSig>,
}

/// The signatures of a package, per module in declaration order.
#[derive(Debug)]
pub struct SigTables {
    pub table: TypeTable,
    pub modules: Vec<Vec<ItemEntry>>,
    pub impls: Vec<ImplSig>,
    pub traits: Vec<TraitSig>,
}

/// A resolved call's declared surface.
#[derive(Debug, Clone)]
pub struct CallSig {
    pub callee: String,
    pub has_self: bool,
    /// The call builds a value (enum variant, container).
    pub ctor: bool,
    /// The call goes through the C namespace.
    pub c_call: bool,
    pub params: Vec<ParamSig>,
    pub decl_span: Option<Span>,
}

/// Every id the kind mentions.
pub open spec fn parts_below(k: TyKind, id: nat) -> bool {
    match k {
        TyKind::Wrapping(t)
        | TyKind::Range(t)
        | TyKind::Handle(t)
        | TyKind::Ptr(t)
        | TyKind::Chan(t)
        | TyKind::Mutex(t)
        | TyKind::Distinct(t)
        | TyKind::Shared(t)
        | TyKind::Weak(t)
        | TyKind::List(t)
        | TyKind::Pool(t)
        | TyKind::Proj(t, _) => t.0 < id,
        TyKind::Fn(ps, r) => all_below(ps@, id) && r.0 < id,
        TyKind::Tuple(ts) => all_below(ts@, id),
        TyKind::ErrUnion(a, b) => a.0 < id && b.0 < id,
        TyKind::Row { tags, tail } => (forall|i: int|
            0 <= i < tags@.len() ==> all_below((#[trigger] tags@[i]).1@, id)) && (tail matches Some(
            t,
        ) ==> t.0 < id),
        TyKind::Nominal { args, .. } => all_below(args@, id),
        _ => true,
    }
}

pub open spec fn all_below(ts: Seq<TyId>, id: nat) -> bool {
    forall|i: int| 0 <= i < ts.len() ==> (#[trigger] ts[i]).0 < id
}

fn is_below(t: TyId, id: usize) -> (r: bool)
    ensures
        r == (t.0 < id),
{
    (t.0 as u64) < id as u64
}

fn are_all_below(ts: &Vec<TyId>, id: usize) -> (r: bool)
    ensures
        r == all_below(ts@, id as nat),
{
    let mut i: usize = 0;
    while i < ts.len()
        invariant
            i <= ts.len(),
            forall|k: int| 0 <= k < i ==> (#[trigger] ts@[k]).0 < id,
        decreases ts.len() - i,
    {
        if !is_below(ts[i], id) {
            assert(ts@[i as int].0 >= id);
            return false;
        }
        i = i + 1;
    }
    true
}

fn are_tags_below(tags: &Vec<(String, Vec<TyId>)>, id: usize) -> (r: bool)
    ensures
        r == forall|i: int|
            0 <= i < tags@.len() ==> all_below((#[trigger] tags@[i]).1@, id as nat),
{
    let mut i: usize = 0;
    while i < tags.len()
        invariant
            i <= tags.len(),
            forall|k: int| 0 <= k < i ==> all_below((#[trigger] tags@[k]).1@, id as nat),
        decreases tags.len() - i,
    {
        if !are_all_below(&tags[i].1, id) {
            assert(!all_below(tags@[i as int].1@, id as nat));
            return false;
        }
        i = i + 1;
    }
    true
}

fn are_parts_below(k: &TyKind, id: usize) -> (r: bool)
    ensures
        r == parts_below(*k, id as nat),
{
    match k {
        TyKind::Wrapping(t)
        | TyKind::Range(t)
        | TyKind::Handle(t)
        | TyKind::Ptr(t)
        | TyKind::Chan(t)
        | TyKind::Mutex(t)
        | TyKind::Distinct(t)
        | TyKind::Shared(t)
        | TyKind::Weak(t)
        | TyKind::List(t)
        | TyKind::Pool(t)
        | TyKind::Proj(t, _) => is_below(*t, id),
        TyKind::Fn(ps, r) => are_all_below(ps, id) && is_below(*r, id),
        TyKind::Tuple(ts) => are_all_below(ts, id),
        TyKind::ErrUnion(a, b) => is_below(*a, id) && is_below(*b, id),
        TyKind::Row { tags, tail } => are_tags_below(tags, id) && match tail {
            Some(t) => is_below(*t, id),
            None => true,
        },
        TyKind::Nominal { args, .. } => are_all_below(args, id),
        _ => true,
    }
}

impl TypeTable {
    /// Types are interned after their parts.
    pub open spec fn wf(&self) -> bool {
        &&& self.rendered@.len() == self.kinds@.len()
        &&& forall|i: int|
            0 <= i < self.kinds@.len() ==> parts_below(#[trigger] self.kinds@[i], i as nat)
    }

    /// Is the table interned parts first, as the checks need it?
    pub fn is_wf(&self) -> (r: bool)
        ensures
            r == self.wf(),
    {
        if self.rendered.len() != self.kinds.len() {
            return false;
        }
        let mut i: usize = 0;
        while i < self.kinds.len()
            invariant
                i <= self.kinds.len(),
                self.rendered@.len() == self.kinds@.len(),
                forall|k: int| 0 <= k < i ==> parts_below(#[trigger] self.kinds@[k], k as nat),
            decreases self.kinds.len() - i,
        {
            if !are_parts_below(&self.kinds[i], i) {
                assert(!parts_below(self.kinds@[i as int], i as nat));
                return false;
            }
            i = i + 1;
        }
        true
    }

    /// The shape of a type of this table.
    pub open spec fn at(&self, id: TyId) -> Option<TyKind> {
        if id.0 < self.kinds@.len() {
            Some(self.kinds@[id.0 as int])
        } else {
            None
        }
    }

    pub fn kind(&self, id: TyId) -> (r: Option<&TyKind>)
        ensures
            match r {
                Some(k) => self.at(id) == Some(*k),
                None => self.at(id) is None,
            },
    {
        if (id.0 as usize) < self.kinds.len() {
            Some(&self.kinds[id.0 as usize])
        } else {
            None
        }
    }

    /// The rendering of a type (`?` when the table has none).
    pub open spec fn text_of(&self, id: TyId) -> Seq<char> {
        if id.0 < self.rendered@.len() {
            self.rendered@[id.0 as int]@
        } else {
            "?"@
        }
    }

    pub fn render(&self, id: TyId) -> (r: String)
        ensures
            r@ == self.text_of(id),
    {
        if (id.0 as usize) < self.rendered.len() {
            self.rendered[id.0 as usize].clone()
        } else {
            lit("?")
        }
    }
}

// ------------------------------------------------- the type questions --

/// Which table a type reference belongs to.
#[derive(Debug, Clone, Copy, PartialEq, Eq, Structural)]
pub enum TableRef {
    /// The package's signature table.
    Sig,
    /// The body's own table.
    Body,
}

/// A type reference that knows its table.
#[derive(Debug, Clone, Copy, PartialEq, Eq, Structural)]
pub struct Ty {
    pub table: TableRef,
    pub id: TyId,
}

/// The type tables in scope of one body.
#[derive(Clone, Copy)]
pub struct Tables<'t> {
    pub sigs: &'t SigTables,
    pub body: &'t TypeTable,
}

/// Copyable shapes: scalars, `str`, ranges, fn values, handles, raw
/// pointers and the concurrency handles; `distinct` copies as what it
/// wraps, up to a nesting bound.
pub open spec fn copies(t: TypeTable, id: TyId, fuel: nat) -> bool
    decreases fuel,
{
    fuel > 0 && match t.at(id) {
        Some(TyKind::Error)
        | Some(TyKind::Never)
        | Some(TyKind::Unit)
        | Some(TyKind::Prim(_))
        | Some(TyKind::Wrapping(_))
        | Some(TyKind::Fn(..))
        | Some(TyKind::Range(_))
        | Some(TyKind::Handle(_))
        | Some(TyKind::Ptr(_))
        | Some(TyKind::TypeTy)
        | Some(TyKind::Chan(_))
        | Some(TyKind::Mutex(_))
        | Some(TyKind::TaskScope)
        | Some(TyKind::Proc)
        | Some(TyKind::ExitReason) => true,
        Some(TyKind::Distinct(inner)) => copies(t, inner, (fuel - 1) as nat),
        _ => false,
    }
}

fn copies_within(t: &TypeTable, id: TyId, fuel: u32) -> (r: bool)
    ensures
        r == copies(*t, id, fuel as nat),
    decreases fuel,
{
    if fuel == 0 {
        return false;
    }
    match t.kind(id) {
        Some(TyKind::Error)
        | Some(TyKind::Never)
        | Some(TyKind::Unit)
        | Some(TyKind::Prim(_))
        | Some(TyKind::Wrapping(_))
        | Some(TyKind::Fn(..))
        | Some(TyKind::Range(_))
        | Some(TyKind::Handle(_))
        | Some(TyKind::Ptr(_))
        | Some(TyKind::TypeTy)
        | Some(TyKind::Chan(_))
        | Some(TyKind::Mutex(_))
        | Some(TyKind::TaskScope)
        | Some(TyKind::Proc)
        | Some(TyKind::ExitReason) => true,
        Some(TyKind::Distinct(inner)) => copies_within(t, *inner, fuel - 1),
        _ => false,
    }
}

/// How deep the copy and pointer judgements look.
pub const TYPE_DEPTH: u32 = 33;

impl<'t> Tables<'t> {
    pub open spec fn wf(self) -> bool {
        self.sigs.table.wf()
    }

    pub open spec fn table(self, r: TableRef) -> TypeTable {
        match r {
            TableRef::Sig => self.sigs.table,
            TableRef::Body => *self.body,
        }
    }

    pub fn get(&self, r: TableRef) -> (t: &TypeTable)
        ensures
            *t == self.table(r),
    {
        match r {
            TableRef::Sig => &self.sigs.table,
            TableRef::Body => self.body,
        }
    }

    pub open spec fn at(self, t: Ty) -> Option<TyKind> {
        self.table(t.table).at(t.id)
    }

    pub open spec fn is_copy_spec(self, t: Ty) -> bool {
        copies(self.table(t.table), t.id, TYPE_DEPTH as nat)
    }

    /// Is the type `Copy` (implicit copy on what would otherwise move)?
    pub fn is_copy(&self, t: Ty) -> (r: bool)
        ensures
            r == self.is_copy_spec(t),
    {
        copies_within(self.get(t.table), t.id, TYPE_DEPTH)
    }

    pub open spec fn opt_copy_spec(self, t: Option<Ty>) -> bool {
        t matches Some(x) && self.is_copy_spec(x)
    }

    pub fn opt_copy(&self, t: Option<Ty>) -> (r: bool)
        ensures
            r == self.opt_copy_spec(t),
    {
        match t {
            Some(x) => self.is_copy(x),
            None => false,
        }
    }

    pub open spec fn text_of(self, t: Ty) -> Seq<char> {
        self.table(t.table).text_of(t.id)
    }

    pub fn render(&self, t: Ty) -> (r: String)
        ensures
            r@ == self.text_of(t),
    {
        self.get(t.table).render(t.id)
    }

    pub open spec fn opt_text_of(self, t: Option<Ty>) -> Seq<char> {
        match t {
            Some(x) => self.text_of(x),
            None => "?"@,
        }
    }

    pub fn opt_render(&self, t: Option<Ty>) -> (r: String)
        ensures
            r@ == self.opt_text_of(t),
    {
        match t {
            Some(x) => self.render(x),
            None => lit("?"),
        }
    }
}

/// The first item of that name in a module.
pub open spec fn lookup_item(items: Seq<ItemEntry>, name: Seq<char>, n: nat) -> Option<ItemSig>
    decreases n,
{
    if n == 0 {
        None
    } else {
        match lookup_item(items, name, (n - 1) as nat) {
            Some(s) => Some(s),
            None => if items[n - 1].name@ == name {
                Some(items[n - 1].sig)
            } else {
                None
            },
        }
    }
}

proof fn lemma_lookup_stays(items: Seq<ItemEntry>, name: Seq<char>, m: nat, n: nat)
    requires
        m <= n,
        lookup_item(items, name, m) is Some,
    ensures
        lookup_item(items, name, n) == lookup_item(items, name, m),
    decreases n,
{
    if m < n {
        lemma_lookup_stays(items, name, m, (n - 1) as nat);
    }
}

impl SigTables {
    pub open spec fn item(&self, module: u32, name: Seq<char>) -> Option<ItemSig> {
        if module < self.modules@.len() {
            lookup_item(
                self.modules@[module as int]@,
                name,
                self.modules@[module as int]@.len(),
            )
        } else {
            None
        }
    }

    /// The signature of a module-level item.
    pub fn get(&self, module: u32, name: &str) -> (r: Option<&ItemSig>)
        ensures
            match r {
                Some(s) => self.item(module, name@) == Some(*s),
                None => self.item(module, name@) is None,
            },
    {
        if (module as usize) >= self.modules.len() {
            return None;
        }
        let items = &self.modules[module as usize];
        let mut i: usize = 0;
        while i < items.len()
            invariant
                i <= items.len(),
                lookup_item(items@, name@, i as nat) is None,
                module < self.modules@.len(),
                *items == self.modules@[module as int],
            decreases items.len() - i,
        {
            if str_eq(items[i].name.as_str(), name) {
                proof {
                    lemma_lookup_stays(items@, name@, (i + 1) as nat, items@.len());
                }
                return Some(&items[i].sig);
            }
            i = i + 1;
        }
        None
    }
}

// -------------------------------------------------- generic parameters --

/// Does the type mention a generic parameter anywhere?
pub open spec fn rigid_in(t: TypeTable, id: TyId) -> bool
    decreases id.0, 1nat,
    when t.wf()
{
    match t.at(id) {
        None => false,
        Some(k) => match k {
            TyKind::Rigid(_) => true,
            TyKind::Wrapping(x)
            | TyKind::Range(x)
            | TyKind::Ptr(x)
            | TyKind::Shared(x)
            | TyKind::Handle(x)
            | TyKind::Weak(x)
            | TyKind::Distinct(x)
            | TyKind::List(x)
            | TyKind::Pool(x)
            | TyKind::Chan(x)
            | TyKind::Mutex(x)
            | TyKind::Proj(x, _) => {
                proof {
                    assert(parts_below(t.kinds@[id.0 as int], id.0 as nat));
                }
                rigid_in(t, x)
            },
            TyKind::Tuple(ts) => exists|i: int|
                0 <= i < ts@.len() && (#[trigger] ts@[i]).0 < id.0 && rigid_in(t, ts@[i]),
            TyKind::Fn(ps, r) => (exists|i: int|
                0 <= i < ps@.len() && (#[trigger] ps@[i]).0 < id.0 && rigid_in(t, ps@[i])) || (r.0
                < id.0 && rigid_in(t, r)),
            TyKind::ErrUnion(a, b) => (a.0 < id.0 && rigid_in(t, a)) || (b.0 < id.0 && rigid_in(
                t,
                b,
            )),
            TyKind::Row { tags, tail } => (exists|i: int, j: int|
                0 <= i < tags@.len() && 0 <= j < tags@[i].1@.len() && (#[trigger] tags@[i].1@[j]).0
                    < id.0 && rigid_in(t, tags@[i].1@[j])) || (match tail {
                Some(x) => x.0 < id.0 && rigid_in(t, x),
                None => false,
            }),
            TyKind::Nominal { args, .. } => exists|i: int|
                0 <= i < args@.len() && (#[trigger] args@[i]).0 < id.0 && rigid_in(t, args@[i]),
            _ => false,
        },
    }
}

/// Does any of the types mention a generic parameter?
fn any_rigid(t: &TypeTable, ts: &Vec<TyId>, bound: u32) -> (r: bool)
    requires
        t.wf(),
        all_below(ts@, bound as nat),
    ensures
        r == exists|i: int| 0 <= i < ts@.len() && (#[trigger] ts@[i]).0 < bound && rigid_in(*t, ts@[i]),
    decreases bound, 0nat,
{
    let mut i: usize = 0;
    while i < ts.len()
        invariant
            i <= ts.len(),
            t.wf(),
            all_below(ts@, bound as nat),
            forall|k: int| 0 <= k < i ==> !rigid_in(*t, #[trigger] ts@[k]),
        decreases ts.len() - i,
    {
        assert(ts@[i as int].0 < bound);
        if mentions_rigid(t, ts[i]) {
            return true;
        }
        i = i + 1;
    }
    false
}

/// Does the type mention a generic parameter anywhere?
pub fn mentions_rigid(t: &TypeTable, id: TyId) -> (r: bool)
    requires
        t.wf(),
    ensures
        r == rigid_in(*t, id),
    decreases id.0, 1nat,
{
    match t.kind(id) {
        None => false,
        Some(k) => {
            assert(parts_below(t.kinds@[id.0 as int], id.0 as nat));
            match k {
                TyKind::Rigid(_) => true,
                TyKind::Wrapping(x)
                | TyKind::Range(x)
                | TyKind::Ptr(x)
                | TyKind::Shared(x)
                | TyKind::Handle(x)
                | TyKind::Weak(x)
                | TyKind::Distinct(x)
                | TyKind::List(x)
                | TyKind::Pool(x)
                | TyKind::Chan(x)
                | TyKind::Mutex(x)
                | TyKind::Proj(x, _) => mentions_rigid(t, *x),
                TyKind::Tuple(ts) => any_rigid(t, ts, id.0),
                TyKind::Fn(ps, r) => any_rigid(t, ps, id.0) || mentions_rigid(t, *r),
                TyKind::ErrUnion(a, b) => mentions_rigid(t, *a) || mentions_rigid(t, *b),
                TyKind::Row { tags, tail } => {
                    let mut i: usize = 0;
                    while i < tags.len()
                        invariant
                            i <= tags.len(),
                            t.wf(),
                            forall|q: int|
                                0 <= q < tags@.len() ==> all_below(
                                    (#[trigger] tags@[q]).1@,
                                    id.0 as nat,
                                ),
                            t.at(id) == Some(*k),
                            *k == (TyKind::Row { tags: *tags, tail: *tail }),
                            forall|q: int, j: int|
                                0 <= q < i && 0 <= j < tags@[q].1@.len() ==> !rigid_in(
                                    *t,
                                    #[trigger] tags@[q].1@[j],
                                ),
                        decreases tags.len() - i,
                    {
                        assert(all_below(tags@[i as int].1@, id.0 as nat));
                        if any_rigid(t, &tags[i].1, id.0) {
                            let ghost j = choose|j: int|
                                0 <= j < tags@[i as int].1@.len() && (
                                #[trigger] tags@[i as int].1@[j]).0 < id.0 && rigid_in(
                                    *t,
                                    tags@[i as int].1@[j],
                                );
                            assert(rigid_in(*t, tags@[i as int].1@[j]));
                            return true;
                        }
                        assert forall|q: int, j: int|
                            0 <= q < i + 1 && 0 <= j < tags@[q].1@.len() implies !rigid_in(
                            *t,
                            #[trigger] tags@[q].1@[j],
                        ) by {
                            if q == i {
                                assert(tags@[i as int].1@[j].0 < id.0);
                            }
                        }
                        i = i + 1;
                    }
                    match tail {
                        Some(x) => mentions_rigid(t, *x),
                        None => false,
                    }
                },
                TyKind::Nominal { args, .. } => any_rigid(t, args, id.0),
                _ => false,
            }
        },
    }
}

// --------------------------------------------------------- field types --

/// One field of an applied struct: the argument where the declaration
/// wrote a bare parameter, the declared type where it mentions none.
pub open spec fn field_ty(
    tabs: Tables<'_>,
    t: Ty,
    args: Seq<TyId>,
    generics: Seq<u32>,
    fty: TyId,
) -> Option<Ty> {
    match tabs.sigs.table.at(fty) {
        Some(TyKind::Rigid(r)) => match first_index(generics, r, generics.len()) {
            Some(i) => if i < args.len() {
                Some(Ty { table: t.table, id: args[i] })
            } else {
                None
            },
            None => None,
        },
        _ => if rigid_in(tabs.sigs.table, fty) {
            None
        } else {
            Some(Ty { table: TableRef::Sig, id: fty })
        },
    }
}

/// The least index below `n` at which the value stands.
pub open spec fn first_index(s: Seq<u32>, x: u32, n: nat) -> Option<int>
    decreases n,
{
    if n == 0 {
        None
    } else {
        match first_index(s, x, (n - 1) as nat) {
            Some(i) => Some(i),
            None => if s[n - 1] == x {
                Some(n - 1)
            } else {
                None
            },
        }
    }
}

proof fn lemma_first_index_stays(s: Seq<u32>, x: u32, m: nat, n: nat)
    requires
        m <= n,
        first_index(s, x, m) is Some,
    ensures
        first_index(s, x, n) == first_index(s, x, m),
    decreases n,
{
    if m < n {
        lemma_first_index_stays(s, x, m, (n - 1) as nat);
    }
}

fn find_index(v: &Vec<u32>, x: u32) -> (r: Option<usize>)
    ensures
        match r {
            Some(i) => first_index(v@, x, v@.len()) == Some(i as int),
            None => first_index(v@, x, v@.len()) is None,
        },
{
    let mut i: usize = 0;
    while i < v.len()
        invariant
            i <= v.len(),
            first_index(v@, x, i as nat) is None,
        decreases v.len() - i,
    {
        if v[i] == x {
            proof {
                lemma_first_index_stays(v@, x, (i + 1) as nat, v@.len());
            }
            return Some(i);
        }
        i = i + 1;
    }
    None
}

/// The first `n` fields with their types, or nothing when one of them
/// cannot be answered.
pub open spec fn struct_fields(
    tabs: Tables<'_>,
    t: Ty,
    args: Seq<TyId>,
    ss: StructSig,
    n: nat,
) -> Option<Seq<(Seq<char>, Ty)>>
    decreases n,
{
    if n == 0 {
        Some(Seq::empty())
    } else {
        let f = ss.fields@[n - 1];
        match (
            struct_fields(tabs, t, args, ss, (n - 1) as nat),
            field_ty(tabs, t, args, ss.generics@, f.ty),
        ) {
            (Some(rest), Some(x)) => Some(rest.push((f.name@, x))),
            _ => None,
        }
    }
}

/// The fields of a struct or tuple type, where they can be told.
pub open spec fn fields_spec(tabs: Tables<'_>, t: Ty) -> Option<Seq<(Seq<char>, Ty)>> {
    match tabs.at(t) {
        Some(TyKind::Nominal { module, name, args }) => match tabs.sigs.item(module, name@) {
            Some(ItemSig::Struct(ss)) => if ss.generic && args@.len() != ss.generics@.len() {
                None
            } else {
                struct_fields(tabs, t, args@, ss, ss.fields@.len())
            },
            _ => None,
        },
        Some(TyKind::Tuple(elems)) => Some(
            Seq::new(
                elems@.len(),
                |i: int| (decimal(i as nat), Ty { table: t.table, id: elems@[i] }),
            ),
        ),
        _ => None,
    }
}

/// Typed fields, as values.
pub open spec fn field_views(v: Seq<(String, Ty)>) -> Seq<(Seq<char>, Ty)> {
    Seq::new(v.len(), |i: int| (v[i].0@, v[i].1))
}

pub open spec fn opt_fields(o: Option<Vec<(String, Ty)>>) -> Option<Seq<(Seq<char>, Ty)>> {
    match o {
        Some(v) => Some(field_views(v@)),
        None => None,
    }
}

proof fn lemma_struct_fields_none(
    tabs: Tables<'_>,
    t: Ty,
    args: Seq<TyId>,
    ss: StructSig,
    m: nat,
    n: nat,
)
    requires
        m <= n,
        struct_fields(tabs, t, args, ss, m) is None,
    ensures
        struct_fields(tabs, t, args, ss, n) is None,
    decreases n,
{
    if m < n {
        lemma_struct_fields_none(tabs, t, args, ss, m, (n - 1) as nat);
    }
}

impl<'t> Tables<'t> {
    fn field_type(&self, t: Ty, args: &Vec<TyId>, generics: &Vec<u32>, fty: TyId) -> (r: Option<Ty>)
        requires
            self.wf(),
        ensures
            r == field_ty(*self, t, args@, generics@, fty),
    {
        match self.sigs.table.kind(fty) {
            Some(TyKind::Rigid(r)) => match find_index(generics, *r) {
                Some(i) => if i < args.len() {
                    Some(Ty { table: t.table, id: args[i] })
                } else {
                    None
                },
                None => None,
            },
            _ => if mentions_rigid(&self.sigs.table, fty) {
                None
            } else {
                Some(Ty { table: TableRef::Sig, id: fty })
            },
        }
    }

    fn struct_fields_of(&self, t: Ty, args: &Vec<TyId>, ss: &StructSig) -> (r: Option<
        Vec<(String, Ty)>,
    >)
        requires
            self.wf(),
        ensures
            opt_fields(r) == struct_fields(*self, t, args@, *ss, ss.fields@.len()),
    {
        let mut out: Vec<(String, Ty)> = Vec::new();
        let mut i: usize = 0;
        assert(field_views(out@) =~= Seq::empty());
        while i < ss.fields.len()
            invariant
                i <= ss.fields.len(),
                self.wf(),
                struct_fields(*self, t, args@, *ss, i as nat) == Some(field_views(out@)),
            decreases ss.fields.len() - i,
        {
            let f = &ss.fields[i];
            let ghost before = field_views(out@);
            match self.field_type(t, args, &ss.generics, f.ty) {
                Some(x) => {
                    out.push((f.name.clone(), x));
                    assert(field_views(out@) =~= before.push((f.name@, x)));
                },
                None => {
                    proof {
                        lemma_struct_fields_none(
                            *self,
                            t,
                            args@,
                            *ss,
                            (i + 1) as nat,
                            ss.fields@.len(),
                        );
                    }
                    return None;
                },
            }
            i = i + 1;
        }
        Some(out)
    }

    /// Struct field types of a place type, for sibling interning and
    /// member typing.
    pub fn fields_of(&self, t: Ty) -> (r: Option<Vec<(String, Ty)>>)
        requires
            self.wf(),
        ensures
            opt_fields(r) == fields_spec(*self, t),
    {
        match self.get(t.table).kind(t.id) {
            Some(TyKind::Nominal { module, name, args }) => match self.sigs.get(
                *module,
                name.as_str(),
            ) {
                Some(ItemSig::Struct(ss)) => if ss.generic && args.len() != ss.generics.len() {
                    None
                } else {
                    self.struct_fields_of(t, args, ss)
                },
                _ => None,
            },
            Some(TyKind::Tuple(elems)) => {
                let mut out: Vec<(String, Ty)> = Vec::new();
                let ghost want = fields_spec(*self, t)->0;
                let mut i: usize = 0;
                while i < elems.len()
                    invariant
                        i <= elems.len(),
                        want == Seq::new(
                            elems@.len(),
                            |i: int| (decimal(i as nat), Ty { table: t.table, id: elems@[i] }),
                        ),
                        field_views(out@) == want.take(i as int),
                    decreases elems.len() - i,
                {
                    let ghost before = field_views(out@);
                    let name = dec(i as u64);
                    let ghost entry = (name@, Ty { table: t.table, id: elems@[i as int] });
                    out.push((name, Ty { table: t.table, id: elems[i] }));
                    assert(field_views(out@) =~= before.push(entry));
                    assert(want[i as int] == entry);
                    i = i + 1;
                    assert(field_views(out@) =~= want.take(i as int));
                }
                assert(want.take(i as int) =~= want);
                Some(out)
            },
            _ => None,
        }
    }
}

} // verus!
