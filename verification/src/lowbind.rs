//! Binding names to values: the questions the walk asks of a checked
//! body, and the steps that declare locals, grow loans, keep the region
//! identity of bindings, and end scopes.

use vstd::prelude::*;
use vstd::string::*;

use crate::ast::{Bind, BinOp, CastInfo, Expr, ExprKind, PatKind, Pattern, StrategySyntax};
use crate::cfg::{
    base_ok, Loan, LoanId, LoanKind, LocalId, RegionId, RegionKind, SiteId, Stmt, StmtView,
    Strategy, StrategyView,
};
use crate::diag::Span;
use crate::lowregion::{held_sites, PASSED};
use crate::lowstate::{
    cells_in, claims_in, field_regions_in, lemma_blocks_more, lemma_val_kept, loans_in, loops_in,
    scopes_in, scope_in, stepped, Cleanup, Cx, Lowerer, LoopFrame, LowView, Val, ValView,
};
use crate::place::{Place, PlaceId, PlaceView, ProjView};
use crate::text::str_eq;
use crate::types::{field_views, fields_spec, Prim, TableRef, Ty, TyKind};

verus! {

pub const UNNAMED: &'static str = "<region>";

// ------------------------------------------------------------ questions --

pub open spec fn expr_ty(e: Expr) -> Option<Ty> {
    match e.ty {
        Some(id) => Some(Ty { table: TableRef::Body, id }),
        None => None,
    }
}

pub fn ty_of(e: &Expr) -> (r: Option<Ty>)
    ensures
        r == expr_ty(*e),
{
    match e.ty {
        Some(id) => Some(Ty { table: TableRef::Body, id }),
        None => None,
    }
}

pub open spec fn bind_ty(b: Bind) -> Option<Ty> {
    match b.ty {
        Some(id) => Some(Ty { table: TableRef::Body, id }),
        None => None,
    }
}

pub fn ty_of_bind(b: &Bind) -> (r: Option<Ty>)
    ensures
        r == bind_ty(*b),
{
    match b.ty {
        Some(id) => Some(Ty { table: TableRef::Body, id }),
        None => None,
    }
}

/// The shape of an expression's checked type.
pub open spec fn expr_kind(cx: Cx<'_>, e: Expr) -> Option<TyKind> {
    opt_kind(cx, expr_ty(e))
}

pub open spec fn opt_kind(cx: Cx<'_>, t: Option<Ty>) -> Option<TyKind> {
    match t {
        Some(x) => cx.tabs.at(x),
        None => None,
    }
}

pub fn kind_of<'t>(cx: &Cx<'t>, t: Option<Ty>) -> (r: Option<&'t TyKind>)
    ensures
        match r {
            Some(k) => opt_kind(*cx, t) == Some(*k),
            None => opt_kind(*cx, t) is None,
        },
{
    match t {
        Some(x) => match x.table {
            TableRef::Sig => cx.tabs.sigs.table.kind(x.id),
            TableRef::Body => cx.tabs.body.kind(x.id),
        },
        None => None,
    }
}

/// `p[i]` through a raw pointer.
pub open spec fn raw_indexed(cx: Cx<'_>, e: Expr) -> bool {
    match e.kind {
        ExprKind::Bracket { callee, .. } => expr_kind(cx, *callee) matches Some(TyKind::Ptr(_)),
        _ => false,
    }
}

pub fn is_raw_index(cx: &Cx<'_>, e: &Expr) -> (r: bool)
    ensures
        r == raw_indexed(*cx, *e),
{
    match &e.kind {
        ExprKind::Bracket { callee, .. } => match kind_of(cx, ty_of(callee)) {
            Some(TyKind::Ptr(_)) => true,
            _ => false,
        },
        _ => false,
    }
}

/// Integer operands trap on overflow; `wrapping[T]` and floats do not.
pub open spec fn checked_int(cx: Cx<'_>, e: Expr) -> bool {
    match expr_kind(cx, e) {
        Some(TyKind::Prim(p)) => p.integer() || p is Byte,
        _ => false,
    }
}

pub fn is_checked_int(cx: &Cx<'_>, e: &Expr) -> (r: bool)
    ensures
        r == checked_int(*cx, *e),
{
    match kind_of(cx, ty_of(e)) {
        Some(TyKind::Prim(p)) => p.is_integer() || *p == Prim::Byte,
        _ => false,
    }
}

pub open spec fn trapping_op(op: BinOp) -> bool {
    op is Plus || op is Minus || op is Star || op is Slash || op is Percent
}

pub fn is_trapping(op: BinOp) -> (r: bool)
    ensures
        r == trapping_op(op),
{
    op == BinOp::Plus || op == BinOp::Minus || op == BinOp::Star || op == BinOp::Slash || op
        == BinOp::Percent
}

/// The direction of a raw bridge.
pub open spec fn bridge_text(cx: Cx<'_>, c: CastInfo) -> Seq<char> {
    match (cx.tabs.body.at(c.from), cx.tabs.body.at(c.to)) {
        (Some(TyKind::Ptr(_)), Some(TyKind::Ptr(_))) => "ptr->ptr"@,
        (Some(TyKind::Ptr(_)), _) => "ptr->int"@,
        (Some(TyKind::RegionTy), _) => "region->ptr"@,
        _ => "int->ptr"@,
    }
}

pub fn bridge_of(cx: &Cx<'_>, c: &CastInfo) -> (r: &'static str)
    ensures
        r@ == bridge_text(*cx, *c),
{
    match (cx.tabs.body.kind(c.from), cx.tabs.body.kind(c.to)) {
        (Some(TyKind::Ptr(_)), Some(TyKind::Ptr(_))) => "ptr->ptr",
        (Some(TyKind::Ptr(_)), _) => "ptr->int",
        (Some(TyKind::RegionTy), _) => "region->ptr",
        _ => "int->ptr",
    }
}

/// `: rc` / `: pool(T)`; arena is the default.
pub open spec fn strategy_of(s: StrategySyntax) -> StrategyView {
    match s {
        StrategySyntax::Absent => StrategyView::Arena,
        StrategySyntax::Type(t) => StrategyView::Pool(t@),
        StrategySyntax::Word(w) => if w@ == "rc"@ {
            StrategyView::Rc
        } else {
            StrategyView::Arena
        },
    }
}

pub fn parse_strategy(s: &StrategySyntax) -> (r: Strategy)
    ensures
        r@ == strategy_of(*s),
{
    match s {
        StrategySyntax::Absent => Strategy::Arena,
        StrategySyntax::Type(t) => Strategy::Pool(t.clone()),
        StrategySyntax::Word(w) => if str_eq(w.as_str(), "rc") {
            Strategy::Rc
        } else {
            Strategy::Arena
        },
    }
}

/// The binders of the first `n` patterns, in source order.
pub open spec fn binds_list<'t>(ps: &'t Vec<Pattern>, n: nat) -> Seq<&'t Bind>
    decreases ps, n,
{
    if n == 0 || n > ps@.len() {
        Seq::empty()
    } else {
        binds_list(ps, (n - 1) as nat) + binds_of(&ps[n - 1])
    }
}

/// The binders of a pattern, in source order.
pub open spec fn binds_of<'t>(p: &'t Pattern) -> Seq<&'t Bind>
    decreases p, 0nat,
{
    match p.kind {
        PatKind::Ident(b) => seq![&b],
        PatKind::Binding(b, subs) => seq![&b] + binds_list(&subs, subs@.len()),
        PatKind::Path { subs, .. } => binds_list(&subs, subs@.len()),
        PatKind::Tuple(subs) => binds_list(&subs, subs@.len()),
        PatKind::Or(subs) => binds_list(&subs, subs@.len()),
        _ => Seq::empty(),
    }
}

pub fn collect_binds<'t>(p: &'t Pattern, out: &mut Vec<&'t Bind>)
    ensures
        final(out)@ == old(out)@ + binds_of(p),
    decreases p, 1nat,
{
    let ghost before = out@;
    match &p.kind {
        PatKind::Ident(b) => {
            out.push(b);
            assert(out@ =~= before + binds_of(p));
        },
        PatKind::Binding(b, subs) => {
            out.push(b);
            collect_list(subs, out);
            assert(out@ =~= before + binds_of(p));
        },
        PatKind::Path { subs, .. } => collect_list(subs, out),
        PatKind::Tuple(subs) => collect_list(subs, out),
        PatKind::Or(subs) => collect_list(subs, out),
        _ => {
            assert(out@ =~= before + binds_of(p));
        },
    }
}

pub fn collect_list<'t>(ps: &'t Vec<Pattern>, out: &mut Vec<&'t Bind>)
    ensures
        final(out)@ == old(out)@ + binds_list(ps, ps@.len()),
    decreases ps, 0nat,
{
    let ghost before = out@;
    let mut i: usize = 0;
    assert(out@ =~= before + binds_list(ps, 0));
    while i < ps.len()
        invariant
            i <= ps.len(),
            out@ == before + binds_list(ps, i as nat),
        decreases ps.len() - i,
    {
        collect_binds(&ps[i], out);
        i = i + 1;
        assert(out@ =~= before + binds_list(ps, i as nat));
    }
}

pub fn binds_in<'t>(p: &'t Pattern) -> (r: Vec<&'t Bind>)
    ensures
        r@ == binds_of(p),
{
    let mut out: Vec<&'t Bind> = Vec::new();
    collect_binds(p, &mut out);
    assert(out@ =~= binds_of(p));
    out
}

// -------------------------------------------------- state steps of the walk --

/// Where the key stands in the field table, from `i` on.
pub open spec fn field_index(
    v: Seq<(u32, Seq<char>, RegionId)>,
    l: u32,
    f: Seq<char>,
    i: int,
) -> Option<int>
    decreases v.len() - i,
{
    if i >= v.len() {
        None
    } else if v[i].0 == l && v[i].1 == f {
        Some(i)
    } else {
        field_index(v, l, f, i + 1)
    }
}

impl<'t> LowView<'t> {
    pub open spec fn field_region(self, l: u32, f: Seq<char>) -> Option<RegionId> {
        match field_index(self.region_field, l, f, 0) {
            Some(i) => Some(self.region_field[i].2),
            None => None,
        }
    }

    pub open spec fn put_field(self, l: u32, f: Seq<char>, r: RegionId) -> LowView<'t> {
        match field_index(self.region_field, l, f, 0) {
            Some(i) => LowView { region_field: self.region_field.update(i, (l, f, r)), ..self },
            None => LowView { region_field: self.region_field.push((l, f, r)), ..self },
        }
    }

    pub open spec fn put_fields(self, l: u32, fs: Seq<(Seq<char>, RegionId)>, n: nat) -> LowView<'t>
        decreases n,
    {
        if n == 0 {
            self
        } else {
            self.put_fields(l, fs, (n - 1) as nat).put_field(l, fs[n - 1].0, fs[n - 1].1)
        }
    }

    pub open spec fn add_loan(self, place: PlaceId, borrower: LocalId, at: Span) -> LowView<'t> {
        let id = LoanId(self.loans.len() as u32);
        LowView {
            loans: self.loans.push(
                Loan { place, kind: LoanKind::Shared, borrower, origin: at, two_phase: false },
            ),
            ..self
        }.push(StmtView::Borrow { loan: id, span: at })
    }

    /// A shared loan per borrowed place.
    pub open spec fn add_loans(
        self,
        places: Seq<PlaceId>,
        n: nat,
        borrower: LocalId,
        at: Span,
    ) -> LowView<'t>
        decreases n,
    {
        if n == 0 {
            self
        } else {
            self.add_loans(places, (n - 1) as nat, borrower, at).add_loan(
                places[n - 1],
                borrower,
                at,
            )
        }
    }

    pub open spec fn unclaimed_at(self, at: Span, closure: bool) -> LowView<'t> {
        LowView { unclaimed: self.unclaimed.push((at, closure)), ..self }
    }

    pub open spec fn push_loop(self, f: LoopFrame) -> LowView<'t> {
        LowView { loops: self.loops.push(f), ..self }
    }

    pub open spec fn pop_loop(self) -> LowView<'t> {
        LowView { loops: self.loops.drop_last(), ..self }
    }

    pub open spec fn push_claim(self, p: PlaceId, at: Span) -> LowView<'t> {
        LowView { claims: self.claims.push((p, at)), ..self }
    }

    pub open spec fn pop_claim(self) -> LowView<'t> {
        LowView { claims: self.claims.drop_last(), ..self }
    }

    pub open spec fn rename_region(self, r: RegionId, name: Seq<char>, at: Span) -> LowView<'t> {
        LowView { rt: self.rt.renamed(r, name, at), ..self }
    }

    pub open spec fn with_unsafe(self, on: bool) -> LowView<'t> {
        LowView { in_unsafe: on, ..self }
    }

    pub open spec fn pattern_move(self, at: Span) -> LowView<'t> {
        LowView { pattern_moves: self.pattern_moves.push(at), ..self }
    }

    /// Declare one binder; its place is interned with the local's copy
    /// bit.
    pub open spec fn declare_bind(self, cx: Cx<'_>, b: Bind) -> LowView<'t> {
        let st = self.declare(cx.tabs, b.name@, b.span, bind_ty(b));
        st.intern_local(self.next_local(), st.locals[self.next_local().0 as int].is_copy)
    }

    /// The place of the binder just declared.
    pub open spec fn bind_place(self, l: LocalId) -> PlaceId {
        self.places.id_of(PlaceView::local(l.0))
    }

    /// Declare and initialize one binder.
    pub open spec fn declare_init(self, cx: Cx<'_>, b: Bind) -> LowView<'t> {
        let st = self.declare_bind(cx, b);
        st.push(StmtView::Init { place: st.bind_place(self.next_local()), span: b.span })
    }

    pub open spec fn declare_inits(self, cx: Cx<'_>, bs: Seq<Bind>, n: nat) -> LowView<'t>
        decreases n,
    {
        if n == 0 {
            self
        } else {
            self.declare_inits(cx, bs, (n - 1) as nat).declare_init(cx, bs[n - 1])
        }
    }

    pub open spec fn declare_refs(self, cx: Cx<'_>, bs: Seq<&Bind>, n: nat) -> LowView<'t>
        decreases n,
    {
        if n == 0 {
            self
        } else {
            self.declare_refs(cx, bs, (n - 1) as nat).declare_init(cx, *bs[n - 1])
        }
    }

    /// Bind one name to (a part of) a value. A single binding of a
    /// borrowing value grows its loans, and one of a region value gives
    /// the region its name.
    pub open spec fn bind_one(
        self,
        cx: Cx<'_>,
        b: Bind,
        init: Option<ValView>,
        single: bool,
    ) -> LowView<'t> {
        let l = self.next_local();
        let st0 = self.declare(cx.tabs, b.name@, b.span, bind_ty(b));
        let st1 = match opt_kind(cx, bind_ty(b)) {
            Some(TyKind::Shared(_)) | Some(TyKind::Weak(_)) => st0.obliged(Cleanup::DropLocal(l)),
            _ => st0,
        };
        let st = st1.intern_local(l, st1.locals[l.0 as int].is_copy);
        let place = st.bind_place(l);
        match init {
            None => st.push(StmtView::Uninit { place, span: b.span }),
            Some(v) => {
                let st2 = st.push(StmtView::Init { place, span: b.span }).hold(
                    l.0,
                    v.sites,
                    b.span,
                );
                if !single {
                    st2
                } else {
                    let st3 = if v.borrowed.len() > 0 {
                        st2.add_loans(v.borrowed, v.borrowed.len(), l, b.span).claim(v)
                    } else {
                        st2
                    };
                    let st4 = match v.region {
                        Some(r) => (if st3.rt.regions[r.0 as int].name == UNNAMED@ {
                            st3.rename_region(r, b.name@, b.span)
                        } else {
                            st3
                        }).set_region_local(l.0, Some(r)),
                        None => st3,
                    };
                    st4.put_fields(l.0, v.region_fields, v.region_fields.len())
                }
            },
        }
    }

    pub open spec fn bind_all(
        self,
        cx: Cx<'_>,
        bs: Seq<&Bind>,
        i: int,
        init: Option<ValView>,
    ) -> LowView<'t>
        decreases bs.len() - i,
    {
        if i >= bs.len() {
            self
        } else {
            self.bind_one(cx, *bs[i], init, bs.len() == 1).bind_all(cx, bs, i + 1, init)
        }
    }

    /// Bind a pattern's names to a value (a destructuring gives every
    /// binding the whole set).
    pub open spec fn bind_pattern(self, cx: Cx<'_>, p: Pattern, init: Option<ValView>) -> LowView<
        't,
    > {
        self.bind_all(cx, binds_of(&p), 0, init)
    }

    /// Intern the sibling fields of a projection step.
    pub open spec fn intern_fields(
        self,
        cx: Cx<'_>,
        base: PlaceView,
        fields: Seq<(Seq<char>, Ty)>,
        n: nat,
    ) -> LowView<'t>
        decreases n,
    {
        if n == 0 {
            self
        } else {
            self.intern_fields(cx, base, fields, (n - 1) as nat).intern(
                base.step(ProjView::Field(fields[n - 1].0)),
                cx.tabs.is_copy_spec(fields[n - 1].1),
            )
        }
    }

    /// The free of the region values that die with the innermost scope,
    /// from its `i`-th name on.
    pub open spec fn close_owned(
        self,
        names: Seq<(Seq<char>, LocalId)>,
        mark: int,
        i: int,
        at: Span,
    ) -> LowView<'t>
        decreases names.len() - i,
    {
        if i >= names.len() {
            self
        } else {
            self.close_local(names[i].1, mark, at).close_owned(names, mark, i + 1, at)
        }
    }

    /// A first-class region freed with the scope of its binding, unless
    /// its value left.
    pub open spec fn close_local(self, l: LocalId, mark: int, at: Span) -> LowView<'t> {
        match self.local_region(l.0) {
            Some(r) => if self.rt.regions[r.0 as int].kind is Value && !self.moved[r.0 as int] {
                self.sweep_close(r, mark, at, ValView::none()).push(
                    StmtView::RegionClose { region: r, span: at },
                ).set_moved(r)
            } else {
                self
            },
            None => self,
        }
    }

    /// Pop the innermost scope: its first-class regions are freed.
    pub open spec fn close_rest(self, at: Span) -> LowView<'t> {
        let top = self.scopes.last();
        self.close_owned(top.names, top.mark as int, 0, at).pop_scope()
    }

    /// A use of a place the callee may keep or replace.
    pub open spec fn escape_to_callee(self, place: PlaceId) -> LowView<'t> {
        let st = self.mark_region_lent(place);
        st.mark_escapes(
            held_sites(st.sites_of(place)),
            held_sites(st.sites_of(place)).len(),
            PASSED@,
        )
    }

    /// The checks of a `mut` lend.
    pub open spec fn lend_mut(self, place: PlaceId, at: Span) -> LowView<'t> {
        self.check_frozen_write(place, at, "passed as `mut`"@).check_read_param(
            place,
            at,
            "lent `mut`"@,
        ).check_iter_claim(place, at, "lent `mut`"@).check_region_lend(
            place,
            at,
        ).escape_to_callee(place)
    }
}

/// The type of the last field of that name.
pub open spec fn field_named(fields: Seq<(Seq<char>, Ty)>, name: Seq<char>, n: nat) -> Option<Ty>
    decreases n,
{
    if n == 0 {
        None
    } else if fields[n - 1].0 == name {
        Some(fields[n - 1].1)
    } else {
        field_named(fields, name, (n - 1) as nat)
    }
}

/// The type of the first field of that name, from `i` on.
pub open spec fn field_first(fields: Seq<(Seq<char>, Ty)>, name: Seq<char>, i: int) -> Option<Ty>
    decreases fields.len() - i,
{
    if i >= fields.len() {
        None
    } else if fields[i].0 == name {
        Some(fields[i].1)
    } else {
        field_first(fields, name, i + 1)
    }
}

pub open spec fn opt_fields_of(cx: Cx<'_>, t: Option<Ty>) -> Option<Seq<(Seq<char>, Ty)>> {
    match t {
        Some(x) => fields_spec(cx.tabs, x),
        None => None,
    }
}

// ---------------------------------------------------------------- steps --

impl<'t> Lowerer<'t> {
    fn field_at(&self, l: u32, f: &str) -> (r: Option<usize>)
        ensures
            match r {
                Some(i) => field_index(self@.region_field, l, f@, 0) == Some(i as int) && i
                    < self.region_field.len(),
                None => field_index(self@.region_field, l, f@, 0) is None,
            },
    {
        let mut i: usize = 0;
        while i < self.region_field.len()
            invariant
                i <= self.region_field.len(),
                field_index(self@.region_field, l, f@, 0) == field_index(
                    self@.region_field,
                    l,
                    f@,
                    i as int,
                ),
            decreases self.region_field.len() - i,
        {
            let e = &self.region_field[i];
            assert(self@.region_field[i as int] == (e.0, e.1@, e.2));
            if e.0 == l && str_eq(e.1.as_str(), f) {
                return Some(i);
            }
            i = i + 1;
        }
        None
    }

    pub fn field_region(&self, l: u32, f: &str) -> (r: Option<RegionId>)
        requires
            self@.regions_ok(),
        ensures
            r == self@.field_region(l, f@),
            r matches Some(x) ==> x.0 < self@.rt.regions.len(),
    {
        match self.field_at(l, f) {
            Some(i) => {
                proof {
                    reveal(field_regions_in);
                    assert(self@.region_field[i as int].2.0 < self@.rt.regions.len());
                }
                Some(self.region_field[i].2)
            },
            None => None,
        }
    }

    pub fn put_field(&mut self, l: u32, f: &str, r: RegionId)
        requires
            old(self).inv(),
            r.0 < old(self)@.rt.regions.len(),
        ensures
            stepped(*old(self), *final(self)),
            final(self)@ == old(self)@.put_field(l, f@, r),
    {
        let ghost st = self@;
        match self.field_at(l, f) {
            Some(i) => {
                self.region_field.set(i, (l, f.to_owned(), r));
            },
            None => {
                self.region_field.push((l, f.to_owned(), r));
            },
        }
        proof {
            assert(self@.region_field =~= st.put_field(l, f@, r).region_field);
            assert(self@ =~= st.put_field(l, f@, r));
            reveal(field_regions_in);
        }
    }

    fn put_fields(&mut self, l: u32, v: &Val)
        requires
            old(self).inv(),
            old(self)@.val_ok(v@),
        ensures
            stepped(*old(self), *final(self)),
            final(self)@ == old(self)@.put_fields(l, v@.region_fields, v@.region_fields.len()),
    {
        let ghost st = self@;
        let ghost start = *self;
        let mut i: usize = 0;
        while i < v.region_fields.len()
            invariant
                i <= v.region_fields.len(),
                stepped(start, *self),
                st == start@,
                st.val_ok(v@),
                self@ == st.put_fields(l, v@.region_fields, i as nat),
            decreases v.region_fields.len() - i,
        {
            let f = &v.region_fields[i];
            assert(v@.region_fields[i as int] == (f.0@, f.1));
            assert(v@.region_fields[i as int].1.0 < st.rt.regions.len());
            self.put_field(l, f.0.as_str(), f.1);
            i = i + 1;
        }
    }

    /// A shared loan of the place, held by the borrower.
    #[verifier::truncate]
    pub fn add_loan(&mut self, place: PlaceId, borrower: LocalId, at: Span)
        requires
            old(self).inv(),
            old(self)@.places.has(place),
        ensures
            stepped(*old(self), *final(self)),
            final(self)@ == old(self)@.add_loan(place, borrower, at),
    {
        let ghost st = self@;
        let n: usize = self.loans.len();
        self.loans.push(
            Loan { place, kind: LoanKind::Shared, borrower, origin: at, two_phase: false },
        );
        let ghost mid = LowView { loans: self.loans@, ..st };
        proof {
            assert(self@ =~= mid);
            lemma_blocks_more(st.blocks, st.places, st.loans.len(), st.places, mid.loans.len());
            reveal(loans_in);
            assert forall|i: int| 0 <= i < mid.loans.len() implies mid.places.has(
                (#[trigger] mid.loans[i]).place,
            ) by {
                if i < st.loans.len() {
                    assert(st.places.has(st.loans[i].place));
                }
            }
        }
        self.push(Stmt::Borrow { loan: LoanId(n as u32), span: at });
    }

    fn add_loans(&mut self, places: &Vec<PlaceId>, borrower: LocalId, at: Span)
        requires
            old(self).inv(),
            forall|i: int| 0 <= i < places@.len() ==> old(self)@.places.has(#[trigger] places@[i]),
        ensures
            stepped(*old(self), *final(self)),
            final(self)@ == old(self)@.add_loans(places@, places@.len(), borrower, at),
    {
        let ghost st = self@;
        let ghost start = *self;
        let mut i: usize = 0;
        while i < places.len()
            invariant
                i <= places.len(),
                stepped(start, *self),
                st == start@,
                forall|k: int| 0 <= k < places@.len() ==> st.places.has(#[trigger] places@[k]),
                self@ == st.add_loans(places@, i as nat, borrower, at),
            decreases places.len() - i,
        {
            let p = places[i];
            assert(st.places.has(places@[i as int]));
            self.add_loan(p, borrower, at);
            i = i + 1;
        }
    }

    pub fn unclaimed_at(&mut self, at: Span, closure: bool)
        requires
            old(self).inv(),
        ensures
            stepped(*old(self), *final(self)),
            final(self)@ == old(self)@.unclaimed_at(at, closure),
    {
        let ghost st = self@;
        self.unclaimed.push((at, closure));
        assert(self@ =~= st.unclaimed_at(at, closure));
    }

    pub fn push_loop(&mut self, f: LoopFrame)
        requires
            old(self).inv(),
            f.break_to.0 < old(self)@.blocks.len(),
            f.continue_to.0 < old(self)@.blocks.len(),
        ensures
            stepped(*old(self), *final(self)),
            final(self)@ == old(self)@.push_loop(f),
            final(self)@.loops.len() == old(self)@.loops.len() + 1,
    {
        let ghost st = self@;
        self.loops.push(f);
        proof {
            assert(self@ =~= st.push_loop(f));
            reveal(loops_in);
        }
    }

    pub fn pop_loop(&mut self)
        requires
            old(self).inv(),
            old(self)@.loops.len() > 0,
        ensures
            final(self).inv(),
            final(self).cx == old(self).cx,
            final(self)@ == old(self)@.pop_loop(),
    {
        let ghost st = self@;
        self.loops.pop();
        proof {
            assert(self@.loops =~= st.loops.drop_last());
            assert(self@ =~= st.pop_loop());
            reveal(loops_in);
        }
    }

    pub fn push_claim(&mut self, p: PlaceId, at: Span)
        requires
            old(self).inv(),
            old(self)@.places.has(p),
        ensures
            stepped(*old(self), *final(self)),
            final(self)@ == old(self)@.push_claim(p, at),
            final(self)@.claims.len() == old(self)@.claims.len() + 1,
    {
        let ghost st = self@;
        self.claims.push((p, at));
        proof {
            assert(self@ =~= st.push_claim(p, at));
            reveal(claims_in);
        }
    }

    pub fn pop_claim(&mut self)
        requires
            old(self).inv(),
            old(self)@.claims.len() > 0,
        ensures
            final(self).inv(),
            final(self).cx == old(self).cx,
            final(self)@ == old(self)@.pop_claim(),
    {
        let ghost st = self@;
        self.claims.pop();
        proof {
            assert(self@.claims =~= st.claims.drop_last());
            assert(self@ =~= st.pop_claim());
            reveal(claims_in);
        }
    }

    fn rename_region(&mut self, r: RegionId, name: String, at: Span)
        requires
            old(self).inv(),
            r.0 < old(self)@.rt.regions.len(),
        ensures
            stepped(*old(self), *final(self)),
            final(self)@ == old(self)@.rename_region(r, name@, at),
    {
        let ghost st = self@;
        let ghost nm = name@;
        self.rt.rename(r, name, at);
        assert(self@ =~= st.rename_region(r, nm, at));
    }

    pub fn set_unsafe(&mut self, on: bool)
        requires
            old(self).inv(),
        ensures
            stepped(*old(self), *final(self)),
            final(self)@ == old(self)@.with_unsafe(on),
    {
        let ghost st = self@;
        self.in_unsafe = on;
        assert(self@ =~= st.with_unsafe(on));
    }

    pub fn pattern_move(&mut self, at: Span)
        requires
            old(self).inv(),
        ensures
            stepped(*old(self), *final(self)),
            final(self)@ == old(self)@.pattern_move(at),
    {
        let ghost st = self@;
        self.pattern_moves.push(at);
        assert(self@ =~= st.pattern_move(at));
    }

    /// Declare one binder and intern its place.
    pub fn declare_bind(&mut self, b: &Bind) -> (r: (LocalId, PlaceId))
        requires
            old(self).inv(),
        ensures
            stepped(*old(self), *final(self)),
            final(self)@ == old(self)@.declare_bind(old(self).cx, *b),
            r.0 == old(self)@.next_local(),
            r.1 == final(self)@.bind_place(r.0),
            r.0.0 < final(self)@.locals.len(),
            final(self)@.places.has(r.1),
    {
        let l = self.declare(b.name.as_str(), b.span, ty_of_bind(b));
        assert(self@.locals[l.0 as int] == self.locals@[l.0 as int]@);
        let copy = self.locals[l.0 as usize].is_copy;
        let place = self.intern_local(l, copy);
        (l, place)
    }

    /// Declare and initialize one binder, typed by the checker.
    pub fn declare_init(&mut self, b: &Bind) -> (l: LocalId)
        requires
            old(self).inv(),
        ensures
            stepped(*old(self), *final(self)),
            final(self)@ == old(self)@.declare_init(old(self).cx, *b),
            l == old(self)@.next_local(),
            l.0 < final(self)@.locals.len(),
    {
        let (l, place) = self.declare_bind(b);
        self.push(Stmt::Init { place, span: b.span });
        l
    }

    pub fn declare_inits(&mut self, bs: &Vec<Bind>)
        requires
            old(self).inv(),
        ensures
            stepped(*old(self), *final(self)),
            final(self)@ == old(self)@.declare_inits(old(self).cx, bs@, bs@.len()),
    {
        let ghost start = *self;
        let mut i: usize = 0;
        while i < bs.len()
            invariant
                i <= bs.len(),
                stepped(start, *self),
                self@ == start@.declare_inits(start.cx, bs@, i as nat),
            decreases bs.len() - i,
        {
            let _ = self.declare_init(&bs[i]);
            i = i + 1;
        }
    }

    /// Declare and initialize the binders of a pattern.
    pub fn declare_pattern(&mut self, p: &Pattern)
        requires
            old(self).inv(),
        ensures
            stepped(*old(self), *final(self)),
            final(self)@ == old(self)@.declare_refs(
                old(self).cx,
                binds_of(p),
                binds_of(p).len(),
            ),
    {
        let ghost start = *self;
        let bs = binds_in(p);
        let mut i: usize = 0;
        while i < bs.len()
            invariant
                i <= bs.len(),
                bs@ == binds_of(p),
                stepped(start, *self),
                self@ == start@.declare_refs(start.cx, bs@, i as nat),
            decreases bs.len() - i,
        {
            let _ = self.declare_init(bs[i]);
            i = i + 1;
        }
    }

    /// Bind one name to (a part of) a value.
    fn bind_one(&mut self, b: &Bind, init: Option<&Val>, single: bool)
        requires
            old(self).inv(),
            init matches Some(v) ==> old(self)@.val_ok(v@),
        ensures
            stepped(*old(self), *final(self)),
            final(self)@ == old(self)@.bind_one(
                old(self).cx,
                *b,
                match init {
                    Some(v) => Some(v@),
                    None => None,
                },
                single,
            ),
    {
        let ghost start = *self;
        let ty = ty_of_bind(b);
        let l = self.declare(b.name.as_str(), b.span, ty);
        match kind_of(&self.cx, ty) {
            Some(TyKind::Shared(_)) | Some(TyKind::Weak(_)) => {
                self.oblige(Cleanup::DropLocal(l));
            },
            _ => {},
        }
        assert(self@.locals[l.0 as int] == self.locals@[l.0 as int]@);
        let copy = self.locals[l.0 as usize].is_copy;
        let place = self.intern_local(l, copy);
        match init {
            None => {
                self.push(Stmt::Uninit { place, span: b.span });
            },
            Some(v) => {
                self.push(Stmt::Init { place, span: b.span });
                proof {
                    lemma_val_kept(start@, self@, v@);
                }
                self.hold(l.0, &v.sites, b.span);
                if single {
                    proof {
                        lemma_val_kept(start@, self@, v@);
                    }
                    if v.borrowed.len() > 0 {
                        self.add_loans(&v.borrowed, l, b.span);
                        self.claim(v);
                    }
                    proof {
                        lemma_val_kept(start@, self@, v@);
                    }
                    if let Some(r) = v.region {
                        if str_eq(self.rt.region(r).name.as_str(), UNNAMED) {
                            self.rename_region(r, b.name.clone(), b.span);
                        }
                        self.set_region_local(l.0, Some(r));
                    }
                    proof {
                        lemma_val_kept(start@, self@, v@);
                    }
                    self.put_fields(l.0, v);
                }
            },
        }
    }

    /// Bind a pattern's names to a value.
    pub fn bind_pattern_inits(&mut self, p: &Pattern, init: Option<&Val>)
        requires
            old(self).inv(),
            init matches Some(v) ==> old(self)@.val_ok(v@),
        ensures
            stepped(*old(self), *final(self)),
            final(self)@ == old(self)@.bind_pattern(
                old(self).cx,
                *p,
                match init {
                    Some(v) => Some(v@),
                    None => None,
                },
            ),
    {
        let ghost start = *self;
        let ghost iv = match init {
            Some(v) => Some(v@),
            None => None,
        };
        let bs = binds_in(p);
        let mut i: usize = 0;
        while i < bs.len()
            invariant
                i <= bs.len(),
                bs@ == binds_of(p),
                stepped(start, *self),
                init matches Some(v) ==> start@.val_ok(v@),
                iv == (match init {
                    Some(v) => Some(v@),
                    None => None,
                }),
                start@.bind_all(start.cx, bs@, 0, iv) == self@.bind_all(
                    start.cx,
                    bs@,
                    i as int,
                    iv,
                ),
            decreases bs.len() - i,
        {
            proof {
                if let Some(v) = init {
                    lemma_val_kept(start@, self@, v@);
                }
            }
            self.bind_one(bs[i], init, bs.len() == 1);
            i = i + 1;
        }
    }

    /// Intern the sibling fields of a projection step; answers the type
    /// of the last field of that name.
    pub fn intern_fields(&mut self, base: &Place, fields: &Vec<(String, Ty)>, name: &str) -> (r:
        Option<Ty>)
        requires
            old(self).inv(),
            base_ok(base@.base, old(self)@.locals.len()),
        ensures
            stepped(*old(self), *final(self)),
            final(self)@ == old(self)@.intern_fields(
                old(self).cx,
                base@,
                field_views(fields@),
                fields@.len(),
            ),
            r == field_named(field_views(fields@), name@, fields@.len()),
    {
        let ghost start = *self;
        let ghost fv = field_views(fields@);
        let mut r: Option<Ty> = None;
        let mut i: usize = 0;
        while i < fields.len()
            invariant
                i <= fields.len(),
                fv == field_views(fields@),
                base_ok(base@.base, start@.locals.len()),
                stepped(start, *self),
                self@ == start@.intern_fields(start.cx, base@, fv, i as nat),
                r == field_named(fv, name@, i as nat),
            decreases fields.len() - i,
        {
            let f = &fields[i];
            assert(fv[i as int] == (f.0@, f.1));
            let copy = self.cx.tabs.is_copy(f.1);
            let _ = self.intern(base.field(f.0.as_str()), copy);
            if str_eq(f.0.as_str(), name) {
                r = Some(f.1);
            }
            i = i + 1;
        }
        r
    }

    fn close_local(&mut self, l: LocalId, mark: usize, at: Span)
        requires
            old(self).inv(),
            l.0 < old(self)@.locals.len(),
        ensures
            stepped(*old(self), *final(self)),
            final(self)@ == old(self)@.close_local(l, mark as int, at),
    {
        if let Some(r) = self.local_region(l.0) {
            if self.rt.region(r).kind == RegionKind::Value && !self.moved[r.0 as usize] {
                let mut none = Val::none();
                proof {
                    reveal(cells_in);
                }
                self.sweep_close(r, mark, at, &mut none);
                self.push(Stmt::RegionClose { region: r, span: at });
                self.set_moved(r);
            }
        }
    }

    /// Free the first-class regions whose values die with the innermost
    /// scope, and pop it.
    pub fn close_rest(&mut self, at: Span)
        requires
            old(self).inv(),
            old(self)@.scopes.len() > 0,
        ensures
            final(self).inv(),
            final(self).cx == old(self).cx,
            old(self)@.keeps_ids(final(self)@),
            final(self)@ == old(self)@.close_rest(at),
            final(self)@.scopes.len() + 1 >= old(self)@.scopes.len(),
            final(self)@.loops.len() >= old(self)@.loops.len(),
            final(self)@.ambient.len() >= old(self)@.ambient.len(),
            final(self)@.open.len() >= old(self)@.open.len(),
            final(self)@.claims.len() >= old(self)@.claims.len(),
    {
        let ghost start = *self;
        let ghost st = self@;
        let n: usize = self.scopes.len();
        let ghost top = st.scopes.last();
        assert(top == self.scopes@[n - 1]@);
        let mark: usize = self.scopes[n - 1].mark;
        let mut owned: Vec<LocalId> = Vec::new();
        let mut j: usize = 0;
        while j < self.scopes[n - 1].names.len()
            invariant
                *self == start,
                n == self.scopes.len(),
                n > 0,
                top == self.scopes@[n - 1]@,
                j <= top.names.len(),
                owned@.len() == j,
                forall|k: int| 0 <= k < j ==> #[trigger] owned@[k] == top.names[k].1,
            decreases top.names.len() - j,
        {
            assert(top.names[j as int] == (
                self.scopes@[n - 1].names@[j as int].0@,
                self.scopes@[n - 1].names@[j as int].1,
            ));
            owned.push(self.scopes[n - 1].names[j].1);
            j = j + 1;
        }
        proof {
            reveal(scopes_in);
            assert(scope_in(st.scopes[n - 1], st.locals.len()));
            assert forall|k: int| 0 <= k < owned@.len() implies (#[trigger] owned@[k]).0
                < st.locals.len() by {
                assert(top.names[k].1.0 < st.locals.len());
            }
        }
        let mut i: usize = 0;
        while i < owned.len()
            invariant
                i <= owned.len(),
                owned@.len() == top.names.len(),
                forall|k: int| 0 <= k < owned@.len() ==> #[trigger] owned@[k] == top.names[k].1,
                forall|k: int|
                    0 <= k < owned@.len() ==> (#[trigger] owned@[k]).0 < start@.locals.len(),
                stepped(start, *self),
                start@.close_owned(top.names, mark as int, 0, at) == self@.close_owned(
                    top.names,
                    mark as int,
                    i as int,
                    at,
                ),
            decreases owned.len() - i,
        {
            let l = owned[i];
            assert(owned@[i as int] == top.names[i as int].1);
            self.close_local(l, mark, at);
            i = i + 1;
        }
        self.pop_scope();
    }

    /// The sites a place may hold, for a callee that may keep them.
    pub fn escape_to_callee(&mut self, place: PlaceId) -> (carried: Vec<SiteId>)
        requires
            old(self).inv(),
            old(self)@.places.has(place),
        ensures
            stepped(*old(self), *final(self)),
            final(self)@ == old(self)@.escape_to_callee(place),
            carried@ == held_sites(final(self)@.sites_of(place)),
            cells_in(carried@, final(self)@.sites.len()),
    {
        self.mark_region_lent(place);
        let ghost st = self@;
        let held = self.sites_of(place);
        let mut sites: Vec<SiteId> = Vec::new();
        let mut i: usize = 0;
        while i < held.len()
            invariant
                i <= held.len(),
                sites@ == held_sites(held@).take(i as int),
            decreases held.len() - i,
        {
            sites.push(held[i].0);
            i = i + 1;
            assert(sites@ =~= held_sites(held@).take(i as int));
        }
        assert(sites@ =~= held_sites(held@));
        proof {
            reveal(cells_in);
            assert forall|k: int| 0 <= k < sites@.len() implies (#[trigger] sites@[k]).0
                < st.sites.len() by {
                assert(held@[k].0.0 < st.sites.len());
            }
            lemma_escapes_keep(st, sites@, sites@.len(), PASSED@);
        }
        self.mark_escapes(&sites, PASSED);
        sites
    }

    /// The checks of a `mut` lend; answers what the callee may keep.
    pub fn lend_mut(&mut self, place: PlaceId, at: Span) -> (carried: Vec<SiteId>)
        requires
            old(self).inv(),
            old(self)@.places.has(place),
        ensures
            stepped(*old(self), *final(self)),
            final(self)@ == old(self)@.lend_mut(place, at),
            carried@ == held_sites(final(self)@.sites_of(place)),
            cells_in(carried@, final(self)@.sites.len()),
    {
        self.check_frozen_write(place, at, "passed as `mut`");
        self.check_read_param(place, at, "lent `mut`");
        let _ = self.check_iter_claim(place, at, "lent `mut`");
        self.check_region_lend(place, at);
        self.escape_to_callee(place)
    }
}

/// Marking escapes moves nothing.
proof fn lemma_escapes_keep(st: LowView<'_>, sites: Seq<SiteId>, n: nat, why: Seq<char>)
    ensures
        st.mark_escapes(sites, n, why).holds == st.holds,
        st.mark_escapes(sites, n, why).places == st.places,
    decreases n,
{
    if n > 0 {
        lemma_escapes_keep(st, sites, (n - 1) as nat, why);
    }
}

/// The type of the first field of that name.
pub fn first_field(fields: &Vec<(String, Ty)>, name: &str) -> (r: Option<Ty>)
    ensures
        r == field_first(field_views(fields@), name@, 0),
{
    let ghost fv = field_views(fields@);
    let mut i: usize = 0;
    while i < fields.len()
        invariant
            i <= fields.len(),
            fv == field_views(fields@),
            field_first(fv, name@, 0) == field_first(fv, name@, i as int),
        decreases fields.len() - i,
    {
        let f = &fields[i];
        assert(fv[i as int] == (f.0@, f.1));
        if str_eq(f.0.as_str(), name) {
            return Some(f.1);
        }
        i = i + 1;
    }
    None
}

} // verus!
