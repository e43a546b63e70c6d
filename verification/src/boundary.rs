//! The tier boundary (`[mem.unsafe.scope]`, E1302): every *function
//! signature* (module fns, impl methods, trait methods) is fully safe,
//! and no *exported* type (struct field, enum payload, global) mentions
//! `*T`. Module-private data may hold raw pointers: the module is the
//! audit granule.

use vstd::prelude::*;
use vstd::string::*;

use crate::diag::{diag_views, lemma_diag_views_push, Code, DiagView, Diagnostic, Span};
use crate::text::lit;
use crate::types::{
    FieldSig, FnSig, ItemEntry, ItemSig, MethodSig, ParamSig, SigTables, TyId, TyKind, TypeTable,
    VariantSig, all_below, parts_below,
};

verus! {

/// Some of the types reach a raw pointer.
pub open spec fn any_ptr(t: TypeTable, ids: Seq<TyId>, fuel: nat) -> bool
    decreases fuel, 1nat,
{
    exists|i: int| 0 <= i < ids.len() && has_ptr(t, #[trigger] ids[i], fuel)
}

/// The type mentions a raw pointer, through wrappers, aggregates, rows
/// and fn types, at most `fuel` levels down. A type is interned after its
/// parts, so the length of the table reaches every level.
pub open spec fn has_ptr(t: TypeTable, id: TyId, fuel: nat) -> bool
    decreases fuel, 0nat,
{
    fuel > 0 && match t.at(id) {
        Some(TyKind::Ptr(_)) => true,
        Some(TyKind::Wrapping(x))
        | Some(TyKind::Distinct(x))
        | Some(TyKind::Range(x))
        | Some(TyKind::Shared(x))
        | Some(TyKind::Weak(x))
        | Some(TyKind::Handle(x))
        | Some(TyKind::List(x))
        | Some(TyKind::Pool(x)) => has_ptr(t, x, (fuel - 1) as nat),
        Some(TyKind::Tuple(elems)) => any_ptr(t, elems@, (fuel - 1) as nat),
        Some(TyKind::Fn(params, ret)) => any_ptr(t, params@, (fuel - 1) as nat) || has_ptr(
            t,
            ret,
            (fuel - 1) as nat,
        ),
        Some(TyKind::ErrUnion(ok, row)) => has_ptr(t, ok, (fuel - 1) as nat) || has_ptr(
            t,
            row,
            (fuel - 1) as nat,
        ),
        Some(TyKind::Row { tags, .. }) => exists|i: int|
            0 <= i < tags@.len() && any_ptr(t, (#[trigger] tags@[i]).1@, (fuel - 1) as nat),
        _ => false,
    }
}

fn list_has_ptr(t: &TypeTable, ids: &Vec<TyId>, fuel: usize) -> (r: bool)
    ensures
        r == any_ptr(*t, ids@, fuel as nat),
    decreases fuel, 1nat,
{
    let mut i: usize = 0;
    while i < ids.len()
        invariant
            i <= ids.len(),
            forall|k: int| 0 <= k < i ==> !has_ptr(*t, #[trigger] ids@[k], fuel as nat),
        decreases ids.len() - i,
    {
        if contains_ptr(t, ids[i], fuel) {
            return true;
        }
        i = i + 1;
    }
    false
}

fn row_has_ptr(t: &TypeTable, tags: &Vec<(String, Vec<TyId>)>, fuel: usize) -> (r: bool)
    ensures
        r == exists|i: int|
            0 <= i < tags@.len() && any_ptr(*t, (#[trigger] tags@[i]).1@, fuel as nat),
    decreases fuel, 2nat,
{
    let mut i: usize = 0;
    while i < tags.len()
        invariant
            i <= tags.len(),
            forall|k: int| 0 <= k < i ==> !any_ptr(*t, (#[trigger] tags@[k]).1@, fuel as nat),
        decreases tags.len() - i,
    {
        if list_has_ptr(t, &tags[i].1, fuel) {
            assert(any_ptr(*t, tags@[i as int].1@, fuel as nat));
            return true;
        }
        i = i + 1;
    }
    false
}

/// Does the type mention a raw pointer anywhere?
fn contains_ptr(t: &TypeTable, id: TyId, fuel: usize) -> (r: bool)
    ensures
        r == has_ptr(*t, id, fuel as nat),
    decreases fuel, 0nat,
{
    if fuel == 0 {
        return false;
    }
    match t.kind(id) {
        Some(TyKind::Ptr(_)) => true,
        Some(TyKind::Wrapping(x))
        | Some(TyKind::Distinct(x))
        | Some(TyKind::Range(x))
        | Some(TyKind::Shared(x))
        | Some(TyKind::Weak(x))
        | Some(TyKind::Handle(x))
        | Some(TyKind::List(x))
        | Some(TyKind::Pool(x)) => contains_ptr(t, *x, fuel - 1),
        Some(TyKind::Tuple(elems)) => list_has_ptr(t, elems, fuel - 1),
        Some(TyKind::Fn(params, ret)) => list_has_ptr(t, params, fuel - 1) || contains_ptr(
            t,
            *ret,
            fuel - 1,
        ),
        Some(TyKind::ErrUnion(ok, row)) => contains_ptr(t, *ok, fuel - 1) || contains_ptr(
            t,
            *row,
            fuel - 1,
        ),
        Some(TyKind::Row { tags, .. }) => row_has_ptr(t, tags, fuel - 1),
        _ => false,
    }
}

/// Does a type of the signature table mention a raw pointer?
pub open spec fn ptr_in(sigs: SigTables, id: TyId) -> bool {
    has_ptr(sigs.table, id, sigs.table.kinds@.len())
}

pub const NOTE_BOUNDARY: &'static str = "unsafety never appears in types crossing function boundaries — there are no `unsafe fn`s; the proof lives at the `unsafe` block and the module is the audit granule. Pass a `handle` (revalidated per access) or a region value, or keep the `*T` in a module-private field.";

pub open spec fn boundary_diag(at: Span, what: Seq<char>) -> DiagView {
    DiagView::error(
        Code::E1302,
        at,
        what + " carries a raw pointer, but this boundary stays fully safe"@,
    ).with_label("`*T` crosses the boundary here"@).with_note(NOTE_BOUNDARY@)
}

fn e1302(at: Span, what: String) -> (d: Diagnostic)
    ensures
        d@ == boundary_diag(at, what@),
{
    Diagnostic::error(
        Code::E1302,
        at,
        what.concat(" carries a raw pointer, but this boundary stays fully safe"),
    ).with_label(lit("`*T` crosses the boundary here")).with_note(lit(NOTE_BOUNDARY))
}

/// The offending parameters of a signature.
pub open spec fn param_diags(
    sigs: SigTables,
    name: Seq<char>,
    ps: Seq<ParamSig>,
    n: nat,
) -> Seq<DiagView>
    decreases n,
{
    if n == 0 {
        Seq::empty()
    } else {
        let rest = param_diags(sigs, name, ps, (n - 1) as nat);
        let p = ps[n - 1];
        if ptr_in(sigs, p.ty) {
            rest.push(boundary_diag(p.span, "`"@ + name + "`'s parameter `"@ + p.name@ + "`"@))
        } else {
            rest
        }
    }
}

pub open spec fn ret_at(f: FnSig) -> Span {
    match f.ret_span {
        Some(s) => s,
        None => f.name_span,
    }
}

pub open spec fn fn_diags(sigs: SigTables, name: Seq<char>, f: FnSig) -> Seq<DiagView> {
    let ps = param_diags(sigs, name, f.params@, f.params@.len());
    if ptr_in(sigs, f.ret) {
        ps.push(boundary_diag(ret_at(f), "`"@ + name + "`'s return type"@))
    } else {
        ps
    }
}

pub open spec fn field_diags(
    sigs: SigTables,
    name: Seq<char>,
    fs: Seq<FieldSig>,
    n: nat,
) -> Seq<DiagView>
    decreases n,
{
    if n == 0 {
        Seq::empty()
    } else {
        let rest = field_diags(sigs, name, fs, (n - 1) as nat);
        let f = fs[n - 1];
        if ptr_in(sigs, f.ty) {
            rest.push(
                boundary_diag(
                    f.span,
                    "the exported type `"@ + name + "`'s field `"@ + f.name@ + "`"@,
                ),
            )
        } else {
            rest
        }
    }
}

pub open spec fn variant_diags(
    sigs: SigTables,
    name: Seq<char>,
    vs: Seq<VariantSig>,
    n: nat,
) -> Seq<DiagView>
    decreases n,
{
    if n == 0 {
        Seq::empty()
    } else {
        let rest = variant_diags(sigs, name, vs, (n - 1) as nat);
        let v = vs[n - 1];
        if any_ptr(sigs.table, v.payload@, sigs.table.kinds@.len()) {
            rest.push(
                boundary_diag(
                    v.span,
                    "the exported enum `"@ + name + "`'s variant `"@ + v.name@ + "`"@,
                ),
            )
        } else {
            rest
        }
    }
}

pub open spec fn item_diags(sigs: SigTables, e: ItemEntry) -> Seq<DiagView> {
    match e.sig {
        ItemSig::Fn(f) => fn_diags(sigs, e.name@, f),
        ItemSig::Struct(ss) => if e.exported {
            field_diags(sigs, e.name@, ss.fields@, ss.fields@.len())
        } else {
            Seq::empty()
        },
        ItemSig::Enum(vs) => if e.exported {
            variant_diags(sigs, e.name@, vs@, vs@.len())
        } else {
            Seq::empty()
        },
        ItemSig::Global(g) => if e.exported && g.ty is Some && ptr_in(sigs, g.ty->0) {
            seq![boundary_diag(g.name_span, "the exported item `"@ + e.name@ + "`"@)]
        } else {
            Seq::empty()
        },
        ItemSig::Other => Seq::empty(),
    }
}

pub open spec fn module_diags(sigs: SigTables, items: Seq<ItemEntry>, n: nat) -> Seq<DiagView>
    decreases n,
{
    if n == 0 {
        Seq::empty()
    } else {
        module_diags(sigs, items, (n - 1) as nat) + item_diags(sigs, items[n - 1])
    }
}

pub open spec fn modules_diags(sigs: SigTables, n: nat) -> Seq<DiagView>
    decreases n,
{
    if n == 0 {
        Seq::empty()
    } else {
        modules_diags(sigs, (n - 1) as nat) + module_diags(
            sigs,
            sigs.modules@[n - 1]@,
            sigs.modules@[n - 1]@.len(),
        )
    }
}

pub open spec fn method_diags(sigs: SigTables, ms: Seq<MethodSig>, n: nat) -> Seq<DiagView>
    decreases n,
{
    if n == 0 {
        Seq::empty()
    } else {
        method_diags(sigs, ms, (n - 1) as nat) + fn_diags(sigs, ms[n - 1].name@, ms[n - 1].sig)
    }
}

pub open spec fn impl_diags(sigs: SigTables, n: nat) -> Seq<DiagView>
    decreases n,
{
    if n == 0 {
        Seq::empty()
    } else {
        impl_diags(sigs, (n - 1) as nat) + method_diags(
            sigs,
            sigs.impls@[n - 1].methods@,
            sigs.impls@[n - 1].methods@.len(),
        )
    }
}

pub open spec fn trait_diags(sigs: SigTables, n: nat) -> Seq<DiagView>
    decreases n,
{
    if n == 0 {
        Seq::empty()
    } else {
        trait_diags(sigs, (n - 1) as nat) + method_diags(
            sigs,
            sigs.traits@[n - 1].methods@,
            sigs.traits@[n - 1].methods@.len(),
        )
    }
}

/// Every raw pointer that crosses a boundary: module items, then impl
/// methods, then trait methods.
pub open spec fn boundary_diags(sigs: SigTables) -> Seq<DiagView> {
    modules_diags(sigs, sigs.modules@.len()) + impl_diags(sigs, sigs.impls@.len()) + trait_diags(
        sigs,
        sigs.traits@.len(),
    )
}

/// A private struct, enum or global may hold raw pointers.
pub proof fn law_private_data_is_free(sigs: SigTables, e: ItemEntry)
    requires
        !e.exported,
        !(e.sig is Fn),
    ensures
        item_diags(sigs, e) == Seq::<DiagView>::empty(),
{
}

proof fn lemma_param_diags_empty(sigs: SigTables, name: Seq<char>, ps: Seq<ParamSig>, n: nat)
    requires
        n <= ps.len(),
    ensures
        param_diags(sigs, name, ps, n).len() == 0 <==> (forall|i: int|
            0 <= i < n ==> !ptr_in(sigs, (#[trigger] ps[i]).ty)),
    decreases n,
{
    if n > 0 {
        lemma_param_diags_empty(sigs, name, ps, (n - 1) as nat);
    }
}

/// A function signature is accepted iff neither a parameter nor the
/// result mentions a raw pointer, exported or not.
pub proof fn law_signature_accepted_iff_safe(sigs: SigTables, name: Seq<char>, f: FnSig)
    ensures
        fn_diags(sigs, name, f).len() == 0 <==> !ptr_in(sigs, f.ret) && forall|i: int|
            0 <= i < f.params@.len() ==> !ptr_in(sigs, (#[trigger] f.params@[i]).ty),
{
    lemma_param_diags_empty(sigs, name, f.params@, f.params@.len());
}

/// An error of the rule stands in the list, there.
pub open spec fn crosses_at(ds: Seq<DiagView>, at: Span) -> bool {
    exists|k: int|
        0 <= k < ds.len() && (#[trigger] ds[k]).code == Code::E1302 && ds[k].primary == at
            && ds[k].severity is Error
}

proof fn lemma_crosses_in(a: Seq<DiagView>, b: Seq<DiagView>, c: Seq<DiagView>, at: Span)
    requires
        crosses_at(b, at),
    ensures
        crosses_at(a + b + c, at),
{
    let k = choose|k: int|
        0 <= k < b.len() && (#[trigger] b[k]).code == Code::E1302 && b[k].primary == at
            && b[k].severity is Error;
    assert((a + b + c)[a.len() + k] == b[k]);
}

proof fn lemma_crosses_push(a: Seq<DiagView>, d: DiagView, at: Span)
    requires
        crosses_at(a, at) || (d.code == Code::E1302 && d.primary == at && d.severity is Error),
    ensures
        crosses_at(a.push(d), at),
{
    if crosses_at(a, at) {
        let k = choose|k: int|
            0 <= k < a.len() && (#[trigger] a[k]).code == Code::E1302 && a[k].primary == at
                && a[k].severity is Error;
        assert(a.push(d)[k] == a[k]);
    } else {
        assert(a.push(d)[a.len() as int] == d);
    }
}

proof fn lemma_param_crosses(sigs: SigTables, name: Seq<char>, ps: Seq<ParamSig>, n: nat, i: int)
    requires
        0 <= i < n <= ps.len(),
        ptr_in(sigs, ps[i].ty),
    ensures
        crosses_at(param_diags(sigs, name, ps, n), ps[i].span),
    decreases n,
{
    let rest = param_diags(sigs, name, ps, (n - 1) as nat);
    let p = ps[n - 1];
    let d = boundary_diag(p.span, "`"@ + name + "`'s parameter `"@ + p.name@ + "`"@);
    if i < n - 1 {
        lemma_param_crosses(sigs, name, ps, (n - 1) as nat, i);
    }
    if ptr_in(sigs, p.ty) {
        lemma_crosses_push(rest, d, ps[i].span);
    }
}

/// A raw pointer in a parameter's type is refused at the parameter, one in
/// the result's type at the result, or at the name where none is written.
pub proof fn law_signature_pointer_is_refused(sigs: SigTables, name: Seq<char>, f: FnSig, i: int)
    ensures
        0 <= i < f.params@.len() && ptr_in(sigs, f.params@[i].ty) ==> crosses_at(
            fn_diags(sigs, name, f),
            f.params@[i].span,
        ),
        ptr_in(sigs, f.ret) ==> crosses_at(
            fn_diags(sigs, name, f),
            (if let Some(s) = f.ret_span {
                s
            } else {
                f.name_span
            }),
        ),
{
    let ps = param_diags(sigs, name, f.params@, f.params@.len());
    let d = boundary_diag(ret_at(f), "`"@ + name + "`'s return type"@);
    if 0 <= i < f.params@.len() && ptr_in(sigs, f.params@[i].ty) {
        lemma_param_crosses(sigs, name, f.params@, f.params@.len(), i);
        if ptr_in(sigs, f.ret) {
            lemma_crosses_push(ps, d, f.params@[i].span);
        }
    }
    if ptr_in(sigs, f.ret) {
        lemma_crosses_push(ps, d, ret_at(f));
    }
}

proof fn lemma_field_crosses(sigs: SigTables, name: Seq<char>, fs: Seq<FieldSig>, n: nat, i: int)
    requires
        0 <= i < n <= fs.len(),
        ptr_in(sigs, fs[i].ty),
    ensures
        crosses_at(field_diags(sigs, name, fs, n), fs[i].span),
    decreases n,
{
    let rest = field_diags(sigs, name, fs, (n - 1) as nat);
    let f = fs[n - 1];
    let d = boundary_diag(
        f.span,
        "the exported type `"@ + name + "`'s field `"@ + f.name@ + "`"@,
    );
    if i < n - 1 {
        lemma_field_crosses(sigs, name, fs, (n - 1) as nat, i);
    }
    if ptr_in(sigs, f.ty) {
        lemma_crosses_push(rest, d, fs[i].span);
    }
}

proof fn lemma_variant_crosses(
    sigs: SigTables,
    name: Seq<char>,
    vs: Seq<VariantSig>,
    n: nat,
    i: int,
)
    requires
        0 <= i < n <= vs.len(),
        any_ptr(sigs.table, vs[i].payload@, sigs.table.kinds@.len()),
    ensures
        crosses_at(variant_diags(sigs, name, vs, n), vs[i].span),
    decreases n,
{
    let rest = variant_diags(sigs, name, vs, (n - 1) as nat);
    let v = vs[n - 1];
    let d = boundary_diag(
        v.span,
        "the exported enum `"@ + name + "`'s variant `"@ + v.name@ + "`"@,
    );
    if i < n - 1 {
        lemma_variant_crosses(sigs, name, vs, (n - 1) as nat, i);
    }
    if any_ptr(sigs.table, v.payload@, sigs.table.kinds@.len()) {
        lemma_crosses_push(rest, d, vs[i].span);
    }
}

/// Exported data is held to the rule too: a field, a variant with a payload
/// and a global that reach a raw pointer are refused, each where it stands.
pub proof fn law_exported_pointer_is_refused(sigs: SigTables, e: ItemEntry, i: int, k: int)
    requires
        e.exported,
    ensures
        e.sig matches ItemSig::Struct(ss) ==> 0 <= i < ss.fields@.len() && ptr_in(
            sigs,
            ss.fields@[i].ty,
        ) ==> crosses_at(item_diags(sigs, e), ss.fields@[i].span),
        e.sig matches ItemSig::Enum(vs) ==> 0 <= i < vs@.len() && 0 <= k < vs@[i].payload@.len()
            && ptr_in(sigs, vs@[i].payload@[k]) ==> crosses_at(item_diags(sigs, e), vs@[i].span),
        e.sig matches ItemSig::Global(g) ==> (g.ty matches Some(t) ==> ptr_in(sigs, t)
            ==> crosses_at(item_diags(sigs, e), g.name_span)),
{
    match e.sig {
        ItemSig::Struct(ss) => {
            if 0 <= i < ss.fields@.len() && ptr_in(sigs, ss.fields@[i].ty) {
                lemma_field_crosses(sigs, e.name@, ss.fields@, ss.fields@.len(), i);
            }
        },
        ItemSig::Enum(vs) => {
            if 0 <= i < vs@.len() && 0 <= k < vs@[i].payload@.len() && ptr_in(
                sigs,
                vs@[i].payload@[k],
            ) {
                assert(any_ptr(sigs.table, vs@[i].payload@, sigs.table.kinds@.len()));
                lemma_variant_crosses(sigs, e.name@, vs@, vs@.len(), i);
            }
        },
        ItemSig::Global(g) => {
            if g.ty is Some && ptr_in(sigs, g.ty->0) {
                assert(item_diags(sigs, e)[0].primary == g.name_span);
            }
        },
        _ => {},
    }
}

proof fn lemma_module_crosses(sigs: SigTables, items: Seq<ItemEntry>, n: nat, i: int, at: Span)
    requires
        0 <= i < n <= items.len(),
        crosses_at(item_diags(sigs, items[i]), at),
    ensures
        crosses_at(module_diags(sigs, items, n), at),
    decreases n,
{
    let before = module_diags(sigs, items, (n - 1) as nat);
    let last = item_diags(sigs, items[n - 1]);
    if i == n - 1 {
        lemma_crosses_in(before, last, Seq::empty(), at);
        assert(before + last + Seq::<DiagView>::empty() =~= before + last);
    } else {
        lemma_module_crosses(sigs, items, (n - 1) as nat, i, at);
        lemma_crosses_in(Seq::empty(), before, last, at);
        assert(Seq::<DiagView>::empty() + before + last =~= before + last);
    }
}

proof fn lemma_modules_cross(sigs: SigTables, n: nat, k: int, i: int, at: Span)
    requires
        0 <= k < n <= sigs.modules@.len(),
        0 <= i < sigs.modules@[k]@.len(),
        crosses_at(item_diags(sigs, sigs.modules@[k]@[i]), at),
    ensures
        crosses_at(modules_diags(sigs, n), at),
    decreases n,
{
    let before = modules_diags(sigs, (n - 1) as nat);
    let items = sigs.modules@[n - 1]@;
    let last = module_diags(sigs, items, items.len());
    if k == n - 1 {
        lemma_module_crosses(sigs, items, items.len(), i, at);
        lemma_crosses_in(before, last, Seq::empty(), at);
        assert(before + last + Seq::<DiagView>::empty() =~= before + last);
    } else {
        lemma_modules_cross(sigs, (n - 1) as nat, k, i, at);
        lemma_crosses_in(Seq::empty(), before, last, at);
        assert(Seq::<DiagView>::empty() + before + last =~= before + last);
    }
}

proof fn lemma_methods_cross(sigs: SigTables, ms: Seq<MethodSig>, n: nat, i: int, at: Span)
    requires
        0 <= i < n <= ms.len(),
        crosses_at(fn_diags(sigs, ms[i].name@, ms[i].sig), at),
    ensures
        crosses_at(method_diags(sigs, ms, n), at),
    decreases n,
{
    let before = method_diags(sigs, ms, (n - 1) as nat);
    let last = fn_diags(sigs, ms[n - 1].name@, ms[n - 1].sig);
    if i == n - 1 {
        lemma_crosses_in(before, last, Seq::empty(), at);
        assert(before + last + Seq::<DiagView>::empty() =~= before + last);
    } else {
        lemma_methods_cross(sigs, ms, (n - 1) as nat, i, at);
        lemma_crosses_in(Seq::empty(), before, last, at);
        assert(Seq::<DiagView>::empty() + before + last =~= before + last);
    }
}

proof fn lemma_impls_cross(sigs: SigTables, n: nat, k: int, at: Span)
    requires
        0 <= k < n <= sigs.impls@.len(),
        crosses_at(
            method_diags(sigs, sigs.impls@[k].methods@, sigs.impls@[k].methods@.len()),
            at,
        ),
    ensures
        crosses_at(impl_diags(sigs, n), at),
    decreases n,
{
    let before = impl_diags(sigs, (n - 1) as nat);
    let last = method_diags(
        sigs,
        sigs.impls@[n - 1].methods@,
        sigs.impls@[n - 1].methods@.len(),
    );
    if k == n - 1 {
        lemma_crosses_in(before, last, Seq::empty(), at);
        assert(before + last + Seq::<DiagView>::empty() =~= before + last);
    } else {
        lemma_impls_cross(sigs, (n - 1) as nat, k, at);
        lemma_crosses_in(Seq::empty(), before, last, at);
        assert(Seq::<DiagView>::empty() + before + last =~= before + last);
    }
}

proof fn lemma_traits_cross(sigs: SigTables, n: nat, k: int, at: Span)
    requires
        0 <= k < n <= sigs.traits@.len(),
        crosses_at(
            method_diags(sigs, sigs.traits@[k].methods@, sigs.traits@[k].methods@.len()),
            at,
        ),
    ensures
        crosses_at(trait_diags(sigs, n), at),
    decreases n,
{
    let before = trait_diags(sigs, (n - 1) as nat);
    let last = method_diags(
        sigs,
        sigs.traits@[n - 1].methods@,
        sigs.traits@[n - 1].methods@.len(),
    );
    if k == n - 1 {
        lemma_crosses_in(before, last, Seq::empty(), at);
        assert(before + last + Seq::<DiagView>::empty() =~= before + last);
    } else {
        lemma_traits_cross(sigs, (n - 1) as nat, k, at);
        lemma_crosses_in(Seq::empty(), before, last, at);
        assert(Seq::<DiagView>::empty() + before + last =~= before + last);
    }
}

/// What is refused of an item of a module, of a method of an impl or of a
/// method of a trait is reported.
pub proof fn law_every_signature_is_checked(sigs: SigTables, k: int, i: int, at: Span)
    ensures
        0 <= k < sigs.modules@.len() && 0 <= i < sigs.modules@[k]@.len() && crosses_at(
            item_diags(sigs, sigs.modules@[k]@[i]),
            at,
        ) ==> crosses_at(boundary_diags(sigs), at),
        0 <= k < sigs.impls@.len() && 0 <= i < sigs.impls@[k].methods@.len() && crosses_at(
            fn_diags(sigs, sigs.impls@[k].methods@[i].name@, sigs.impls@[k].methods@[i].sig),
            at,
        ) ==> crosses_at(boundary_diags(sigs), at),
        0 <= k < sigs.traits@.len() && 0 <= i < sigs.traits@[k].methods@.len() && crosses_at(
            fn_diags(sigs, sigs.traits@[k].methods@[i].name@, sigs.traits@[k].methods@[i].sig),
            at,
        ) ==> crosses_at(boundary_diags(sigs), at),
{
    let a = modules_diags(sigs, sigs.modules@.len());
    let b = impl_diags(sigs, sigs.impls@.len());
    let c = trait_diags(sigs, sigs.traits@.len());
    if 0 <= k < sigs.modules@.len() && 0 <= i < sigs.modules@[k]@.len() && crosses_at(
        item_diags(sigs, sigs.modules@[k]@[i]),
        at,
    ) {
        lemma_modules_cross(sigs, sigs.modules@.len(), k, i, at);
        lemma_crosses_in(Seq::empty(), a, b + c, at);
        assert(Seq::<DiagView>::empty() + a + (b + c) =~= boundary_diags(sigs));
    }
    if 0 <= k < sigs.impls@.len() && 0 <= i < sigs.impls@[k].methods@.len() && crosses_at(
        fn_diags(sigs, sigs.impls@[k].methods@[i].name@, sigs.impls@[k].methods@[i].sig),
        at,
    ) {
        let ms = sigs.impls@[k].methods@;
        lemma_methods_cross(sigs, ms, ms.len(), i, at);
        lemma_impls_cross(sigs, sigs.impls@.len(), k, at);
        lemma_crosses_in(a, b, c, at);
    }
    if 0 <= k < sigs.traits@.len() && 0 <= i < sigs.traits@[k].methods@.len() && crosses_at(
        fn_diags(sigs, sigs.traits@[k].methods@[i].name@, sigs.traits@[k].methods@[i].sig),
        at,
    ) {
        let ms = sigs.traits@[k].methods@;
        lemma_methods_cross(sigs, ms, ms.len(), i, at);
        lemma_traits_cross(sigs, sigs.traits@.len(), k, at);
        lemma_crosses_in(a + b, c, Seq::empty(), at);
        assert(a + b + c + Seq::<DiagView>::empty() =~= boundary_diags(sigs));
    }
}

/// A raw pointer behind a wrapper, in a tuple, in a function type or in an
/// error row is in the type; a scalar holds none.
pub proof fn law_pointers_shine_through(t: TypeTable, id: TyId, x: TyId, n: nat)
    ensures
        t.at(id) matches Some(TyKind::Ptr(_)) ==> has_ptr(t, id, n + 1),
        has_ptr(t, x, n) ==> ({
            ||| t.at(id) == Some(TyKind::Wrapping(x))
            ||| t.at(id) == Some(TyKind::Distinct(x))
            ||| t.at(id) == Some(TyKind::Range(x))
            ||| t.at(id) == Some(TyKind::Shared(x))
            ||| t.at(id) == Some(TyKind::Weak(x))
            ||| t.at(id) == Some(TyKind::Handle(x))
            ||| t.at(id) == Some(TyKind::List(x))
            ||| t.at(id) == Some(TyKind::Pool(x))
            ||| t.at(id) matches Some(TyKind::Tuple(es)) && es@.contains(x)
            ||| t.at(id) matches Some(TyKind::Fn(ps, r)) && (ps@.contains(x) || r == x)
            ||| t.at(id) matches Some(TyKind::ErrUnion(ok, row)) && (ok == x || row == x)
        }) ==> has_ptr(t, id, n + 1),
        t.at(id) matches Some(TyKind::Prim(_)) ==> !has_ptr(t, id, n),
{
    if has_ptr(t, x, n) {
        match t.at(id) {
            Some(TyKind::Tuple(es)) => {
                if es@.contains(x) {
                    let k = choose|k: int| 0 <= k < es@.len() && es@[k] == x;
                    assert(has_ptr(t, es@[k], n));
                    assert(any_ptr(t, es@, n));
                }
            },
            Some(TyKind::Fn(ps, r)) => {
                if ps@.contains(x) {
                    let k = choose|k: int| 0 <= k < ps@.len() && ps@[k] == x;
                    assert(has_ptr(t, ps@[k], n));
                    assert(any_ptr(t, ps@, n));
                }
            },
            _ => {},
        }
    }
}

fn check_fn(sigs: &SigTables, name: &str, f: &FnSig, diags: &mut Vec<Diagnostic>)
    ensures
        diag_views(final(diags)@) == diag_views(old(diags)@) + fn_diags(*sigs, name@, *f),
{
    let ghost before = diag_views(diags@);
    let mut i: usize = 0;
    assert(before =~= before + param_diags(*sigs, name@, f.params@, 0));
    while i < f.params.len()
        invariant
            i <= f.params.len(),
            diag_views(diags@) == before + param_diags(*sigs, name@, f.params@, i as nat),
        decreases f.params.len() - i,
    {
        let p = &f.params[i];
        if contains_ptr(&sigs.table, p.ty, sigs.table.kinds.len()) {
            let d = e1302(
                p.span,
                lit("`").concat(name).concat("`'s parameter `").concat(p.name.as_str()).concat("`"),
            );
            proof {
                lemma_diag_views_push(diags@, d);
            }
            diags.push(d);
        }
        i = i + 1;
        assert(diag_views(diags@) =~= before + param_diags(*sigs, name@, f.params@, i as nat));
    }
    if contains_ptr(&sigs.table, f.ret, sigs.table.kinds.len()) {
        let at = match f.ret_span {
            Some(s) => s,
            None => f.name_span,
        };
        let d = e1302(at, lit("`").concat(name).concat("`'s return type"));
        proof {
            lemma_diag_views_push(diags@, d);
        }
        diags.push(d);
    }
    assert(diag_views(diags@) =~= before + fn_diags(*sigs, name@, *f));
}

fn check_fields(sigs: &SigTables, name: &str, fs: &Vec<FieldSig>, diags: &mut Vec<Diagnostic>)
    ensures
        diag_views(final(diags)@) == diag_views(old(diags)@) + field_diags(
            *sigs,
            name@,
            fs@,
            fs@.len(),
        ),
{
    let ghost before = diag_views(diags@);
    let mut i: usize = 0;
    assert(before =~= before + field_diags(*sigs, name@, fs@, 0));
    while i < fs.len()
        invariant
            i <= fs.len(),
            diag_views(diags@) == before + field_diags(*sigs, name@, fs@, i as nat),
        decreases fs.len() - i,
    {
        let f = &fs[i];
        if contains_ptr(&sigs.table, f.ty, sigs.table.kinds.len()) {
            let d = e1302(
                f.span,
                lit("the exported type `").concat(name).concat("`'s field `").concat(
                    f.name.as_str(),
                ).concat("`"),
            );
            proof {
                lemma_diag_views_push(diags@, d);
            }
            diags.push(d);
        }
        i = i + 1;
        assert(diag_views(diags@) =~= before + field_diags(*sigs, name@, fs@, i as nat));
    }
}

fn check_variants(sigs: &SigTables, name: &str, vs: &Vec<VariantSig>, diags: &mut Vec<Diagnostic>)
    ensures
        diag_views(final(diags)@) == diag_views(old(diags)@) + variant_diags(
            *sigs,
            name@,
            vs@,
            vs@.len(),
        ),
{
    let ghost before = diag_views(diags@);
    let mut i: usize = 0;
    assert(before =~= before + variant_diags(*sigs, name@, vs@, 0));
    while i < vs.len()
        invariant
            i <= vs.len(),
            diag_views(diags@) == before + variant_diags(*sigs, name@, vs@, i as nat),
        decreases vs.len() - i,
    {
        let v = &vs[i];
        if list_has_ptr(&sigs.table, &v.payload, sigs.table.kinds.len()) {
            let d = e1302(
                v.span,
                lit("the exported enum `").concat(name).concat("`'s variant `").concat(
                    v.name.as_str(),
                ).concat("`"),
            );
            proof {
                lemma_diag_views_push(diags@, d);
            }
            diags.push(d);
        }
        i = i + 1;
        assert(diag_views(diags@) =~= before + variant_diags(*sigs, name@, vs@, i as nat));
    }
}

fn check_item(sigs: &SigTables, e: &ItemEntry, diags: &mut Vec<Diagnostic>)
    ensures
        diag_views(final(diags)@) == diag_views(old(diags)@) + item_diags(*sigs, *e),
{
    let ghost before = diag_views(diags@);
    assert(before =~= before + Seq::<DiagView>::empty());
    match &e.sig {
        ItemSig::Fn(f) => check_fn(sigs, e.name.as_str(), f, diags),
        ItemSig::Struct(ss) => {
            if e.exported {
                check_fields(sigs, e.name.as_str(), &ss.fields, diags);
            }
        },
        ItemSig::Enum(vs) => {
            if e.exported {
                check_variants(sigs, e.name.as_str(), vs, diags);
            }
        },
        ItemSig::Global(g) => {
            if e.exported {
                if let Some(t) = g.ty {
                    if contains_ptr(&sigs.table, t, sigs.table.kinds.len()) {
                        let d = e1302(
                            g.name_span,
                            lit("the exported item `").concat(e.name.as_str()).concat("`"),
                        );
                        proof {
                            lemma_diag_views_push(diags@, d);
                        }
                        diags.push(d);
                        assert(diag_views(diags@) =~= before + item_diags(*sigs, *e));
                    }
                }
            }
        },
        ItemSig::Other => {},
    }
}

fn check_methods(sigs: &SigTables, ms: &Vec<MethodSig>, diags: &mut Vec<Diagnostic>)
    ensures
        diag_views(final(diags)@) == diag_views(old(diags)@) + method_diags(*sigs, ms@, ms@.len()),
{
    let ghost before = diag_views(diags@);
    let mut i: usize = 0;
    assert(before =~= before + method_diags(*sigs, ms@, 0));
    while i < ms.len()
        invariant
            i <= ms.len(),
            diag_views(diags@) == before + method_diags(*sigs, ms@, i as nat),
        decreases ms.len() - i,
    {
        check_fn(sigs, ms[i].name.as_str(), &ms[i].sig, diags);
        i = i + 1;
        assert(diag_views(diags@) =~= before + method_diags(*sigs, ms@, i as nat));
    }
}

/// Report every raw pointer that crosses a boundary.
pub fn unsafe_sig_check(sigs: &SigTables, diags: &mut Vec<Diagnostic>)
    ensures
        diag_views(final(diags)@) == diag_views(old(diags)@) + boundary_diags(*sigs),
{
    let ghost before = diag_views(diags@);
    let mut m: usize = 0;
    assert(before =~= before + modules_diags(*sigs, 0));
    while m < sigs.modules.len()
        invariant
            m <= sigs.modules.len(),
            diag_views(diags@) == before + modules_diags(*sigs, m as nat),
        decreases sigs.modules.len() - m,
    {
        let items = &sigs.modules[m];
        let ghost middle = diag_views(diags@);
        let mut i: usize = 0;
        assert(middle =~= middle + module_diags(*sigs, items@, 0));
        while i < items.len()
            invariant
                i <= items.len(),
                diag_views(diags@) == middle + module_diags(*sigs, items@, i as nat),
            decreases items.len() - i,
        {
            check_item(sigs, &items[i], diags);
            i = i + 1;
            assert(diag_views(diags@) =~= middle + module_diags(*sigs, items@, i as nat));
        }
        m = m + 1;
        assert(diag_views(diags@) =~= before + modules_diags(*sigs, m as nat));
    }
    let ghost second = diag_views(diags@);
    let mut j: usize = 0;
    assert(second =~= second + impl_diags(*sigs, 0));
    while j < sigs.impls.len()
        invariant
            j <= sigs.impls.len(),
            diag_views(diags@) == second + impl_diags(*sigs, j as nat),
        decreases sigs.impls.len() - j,
    {
        check_methods(sigs, &sigs.impls[j].methods, diags);
        j = j + 1;
        assert(diag_views(diags@) =~= second + impl_diags(*sigs, j as nat));
    }
    let ghost third = diag_views(diags@);
    let mut k: usize = 0;
    assert(third =~= third + trait_diags(*sigs, 0));
    while k < sigs.traits.len()
        invariant
            k <= sigs.traits.len(),
            diag_views(diags@) == third + trait_diags(*sigs, k as nat),
        decreases sigs.traits.len() - k,
    {
        check_methods(sigs, &sigs.traits[k].methods, diags);
        k = k + 1;
        assert(diag_views(diags@) =~= third + trait_diags(*sigs, k as nat));
    }
    assert(diag_views(diags@) =~= before + boundary_diags(*sigs));
}

/// A raw pointer found at some depth is found at every greater one, and
/// from the depth of the type itself on.
proof fn lemma_ptr_deeper(t: TypeTable, id: TyId, f: nat, g: nat)
    requires
        t.wf(),
        has_ptr(t, id, f),
        g >= f || g > id.0,
    ensures
        has_ptr(t, id, g),
    decreases f, 0nat,
{
    assert(parts_below(t.kinds@[id.0 as int], id.0 as nat));
    let f1 = (f - 1) as nat;
    let g1 = (g - 1) as nat;
    match t.at(id) {
        Some(TyKind::Wrapping(x))
        | Some(TyKind::Distinct(x))
        | Some(TyKind::Range(x))
        | Some(TyKind::Shared(x))
        | Some(TyKind::Weak(x))
        | Some(TyKind::Handle(x))
        | Some(TyKind::List(x))
        | Some(TyKind::Pool(x)) => {
            lemma_ptr_deeper(t, x, f1, g1);
        },
        Some(TyKind::Tuple(elems)) => {
            lemma_any_deeper(t, elems@, id.0 as nat, f1, g1);
        },
        Some(TyKind::Fn(params, ret)) => {
            if any_ptr(t, params@, f1) {
                lemma_any_deeper(t, params@, id.0 as nat, f1, g1);
            } else {
                lemma_ptr_deeper(t, ret, f1, g1);
            }
        },
        Some(TyKind::ErrUnion(ok, row)) => {
            if has_ptr(t, ok, f1) {
                lemma_ptr_deeper(t, ok, f1, g1);
            } else {
                lemma_ptr_deeper(t, row, f1, g1);
            }
        },
        Some(TyKind::Row { tags, .. }) => {
            let i = choose|i: int|
                0 <= i < tags@.len() && any_ptr(t, (#[trigger] tags@[i]).1@, f1);
            lemma_any_deeper(t, tags@[i].1@, id.0 as nat, f1, g1);
        },
        _ => {},
    }
}

proof fn lemma_any_deeper(t: TypeTable, ids: Seq<TyId>, below: nat, f: nat, g: nat)
    requires
        t.wf(),
        all_below(ids, below),
        any_ptr(t, ids, f),
        g >= f || g >= below,
    ensures
        any_ptr(t, ids, g),
    decreases f, 1nat,
{
    let i = choose|i: int| 0 <= i < ids.len() && has_ptr(t, #[trigger] ids[i], f);
    lemma_ptr_deeper(t, ids[i], f, g);
}

/// No raw pointer is too deep to be seen: one found at any depth of a
/// type makes the type unsafe.
pub proof fn law_no_pointer_is_too_deep(sigs: SigTables, id: TyId, depth: nat)
    requires
        sigs.table.wf(),
        has_ptr(sigs.table, id, depth),
    ensures
        ptr_in(sigs, id),
{
    lemma_ptr_deeper(sigs.table, id, depth, sigs.table.kinds@.len());
}

} // verus!
