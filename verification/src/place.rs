//! Places and paths (`[mem.model.place]`, `[mem.model.path.disjoint]`).
//!
//! A place is a base plus a projection path: `a`, `a.x`, `a.x.y`. Two
//! paths conflict iff one is a prefix of the other after identical
//! projections; otherwise they are disjoint. Index projections collapse
//! to a single opaque "some element" projection, which conservatively
//! matches any step.

use vstd::prelude::*;

use crate::text::str_eq;

verus! {

/// A place's base. `Local` is a function-local binding (the tracked
/// case); `Global` is a module-level item: mode agreement and same-call
/// exclusivity apply to it, move tracking does not.
#[derive(Debug, Clone)]
pub enum Base {
    Local(u32),
    Global(u32, String),
}

/// One projection step.
#[derive(Debug, Clone)]
pub enum Proj {
    /// A named field (tuple positions project as `"0"`, `"1"`, ..).
    Field(String),
    /// Any index projection (`v[i]`): all elements are one place.
    Opaque,
}

/// A place: base + projection path.
#[derive(Debug, Clone)]
pub struct Place {
    pub base: Base,
    pub proj: Vec<Proj>,
}

/// Interned place id, per function.
#[derive(Debug, Clone, Copy, PartialEq, Eq, PartialOrd, Ord, Hash, Structural)]
pub struct PlaceId(pub u32);

pub enum BaseView {
    Local(u32),
    Global(u32, Seq<char>),
}

pub enum ProjView {
    Field(Seq<char>),
    Opaque,
}

#[verifier::ext_equal]
pub struct PlaceView {
    pub base: BaseView,
    pub proj: Seq<ProjView>,
}

impl View for Base {
    type V = BaseView;

    open spec fn view(&self) -> BaseView {
        match *self {
            Base::Local(l) => BaseView::Local(l),
            Base::Global(m, n) => BaseView::Global(m, n@),
        }
    }
}

impl View for Proj {
    type V = ProjView;

    open spec fn view(&self) -> ProjView {
        match *self {
            Proj::Field(f) => ProjView::Field(f@),
            Proj::Opaque => ProjView::Opaque,
        }
    }
}

/// A projection path, as a value.
pub open spec fn path_view(v: Seq<Proj>) -> Seq<ProjView> {
    Seq::new(v.len(), |i: int| v[i]@)
}

impl View for Place {
    type V = PlaceView;

    open spec fn view(&self) -> PlaceView {
        PlaceView { base: self.base@, proj: path_view(self.proj@) }
    }
}

impl ProjView {
    /// An opaque step matches anything; two fields match when they are
    /// the same field.
    pub open spec fn matches(self, other: ProjView) -> bool {
        match (self, other) {
            (ProjView::Field(x), ProjView::Field(y)) => x == y,
            _ => true,
        }
    }
}

impl PlaceView {
    /// The place of a whole local.
    pub open spec fn local(l: u32) -> PlaceView {
        PlaceView { base: BaseView::Local(l), proj: Seq::empty() }
    }

    /// The place one step further.
    pub open spec fn step(self, p: ProjView) -> PlaceView {
        PlaceView { base: self.base, proj: self.proj.push(p) }
    }

    /// The two paths agree as far as both go.
    pub open spec fn overlaps(self, other: PlaceView) -> bool {
        &&& self.base == other.base
        &&& forall|i: int|
            0 <= i < self.proj.len() && i < other.proj.len()
                ==> (#[trigger] self.proj[i]).matches(other.proj[i])
    }

    /// `self` is a (non-strict) prefix of `other`.
    pub open spec fn is_prefix_of(self, other: PlaceView) -> bool {
        &&& self.base == other.base
        &&& self.proj.len() <= other.proj.len()
        &&& forall|i: int|
            0 <= i < self.proj.len() ==> (#[trigger] self.proj[i]).matches(other.proj[i])
    }

    /// No step of the path is opaque.
    pub open spec fn is_exact(self) -> bool {
        forall|i: int| 0 <= i < self.proj.len() ==> (#[trigger] self.proj[i]) is Field
    }
}

/// Overlap is symmetric: it does not matter which access came first.
pub proof fn law_overlap_symmetric(a: PlaceView, b: PlaceView)
    ensures
        a.overlaps(b) == b.overlaps(a),
{
    if a.overlaps(b) {
        assert forall|i: int| 0 <= i < b.proj.len() && i < a.proj.len() implies (
        #[trigger] b.proj[i]).matches(a.proj[i]) by {
            assert(a.proj[i].matches(b.proj[i]));
        }
    }
    if b.overlaps(a) {
        assert forall|i: int| 0 <= i < a.proj.len() && i < b.proj.len() implies (
        #[trigger] a.proj[i]).matches(b.proj[i]) by {
            assert(b.proj[i].matches(a.proj[i]));
        }
    }
}

/// Every place overlaps and covers itself.
pub proof fn law_overlap_reflexive(a: PlaceView)
    ensures
        a.overlaps(a),
        a.is_prefix_of(a),
{
}

/// Two paths conflict iff one is a prefix of the other.
pub proof fn law_overlap_iff_prefix(a: PlaceView, b: PlaceView)
    ensures
        a.overlaps(b) <==> (a.is_prefix_of(b) || b.is_prefix_of(a)),
{
    law_overlap_symmetric(a, b);
}

/// A prefix of a prefix is a prefix, for a middle path without an
/// opaque step. (`x` covers an element, and an element covers `y`, but
/// the field `x` does not cover the field `y`.)
pub proof fn law_covers_transitive(a: PlaceView, b: PlaceView, c: PlaceView)
    requires
        a.is_prefix_of(b),
        b.is_prefix_of(c),
        b.is_exact(),
    ensures
        a.is_prefix_of(c),
{
    assert forall|i: int| 0 <= i < a.proj.len() implies (#[trigger] a.proj[i]).matches(
        c.proj[i],
    ) by {
        assert(a.proj[i].matches(b.proj[i]));
        assert(b.proj[i].matches(c.proj[i]));
        assert(b.proj[i] is Field);
    }
}

/// Two exact places that cover each other are the same place.
pub proof fn law_covers_antisymmetric(a: PlaceView, b: PlaceView)
    requires
        a.is_prefix_of(b),
        b.is_prefix_of(a),
        a.is_exact(),
        b.is_exact(),
    ensures
        a == b,
{
    assert forall|i: int| 0 <= i < a.proj.len() implies a.proj[i] == b.proj[i] by {
        assert(a.proj[i].matches(b.proj[i]));
        assert(a.proj[i] is Field && b.proj[i] is Field);
    }
    assert(a.proj =~= b.proj);
}

/// Disjointness is inherited: what lies under one of two disjoint
/// places is disjoint from the other.
pub proof fn law_disjoint_below(a: PlaceView, b: PlaceView, c: PlaceView)
    requires
        !a.overlaps(b),
        b.is_prefix_of(c),
        b.is_exact(),
        c.is_exact(),
    ensures
        !a.overlaps(c),
{
    if a.base == b.base {
        let i = choose|i: int|
            0 <= i < a.proj.len() && i < b.proj.len() && !(#[trigger] a.proj[i]).matches(b.proj[i]);
        assert(b.proj[i].matches(c.proj[i]));
        assert(b.proj[i] is Field && c.proj[i] is Field);
        assert(!a.proj[i].matches(c.proj[i]));
    }
}

/// The two bases are the same.
pub fn same_base(a: &Base, b: &Base) -> (r: bool)
    ensures
        r == (a@ == b@),
{
    match (a, b) {
        (Base::Local(x), Base::Local(y)) => *x == *y,
        (Base::Global(m, x), Base::Global(n, y)) => *m == *n && str_eq(x.as_str(), y.as_str()),
        _ => false,
    }
}

fn same_step(a: &Proj, b: &Proj) -> (r: bool)
    ensures
        r == (a@ == b@),
{
    match (a, b) {
        (Proj::Field(x), Proj::Field(y)) => str_eq(x.as_str(), y.as_str()),
        (Proj::Opaque, Proj::Opaque) => true,
        _ => false,
    }
}

/// The two places are the same path.
pub fn same_place(a: &Place, b: &Place) -> (r: bool)
    ensures
        r == (a@ == b@),
{
    if !same_base(&a.base, &b.base) || a.proj.len() != b.proj.len() {
        assert(a@.proj.len() == a.proj.len() && b@.proj.len() == b.proj.len());
        return false;
    }
    let mut i: usize = 0;
    while i < a.proj.len()
        invariant
            a.base@ == b.base@,
            i <= a.proj.len() == b.proj.len(),
            forall|j: int| 0 <= j < i ==> a.proj@[j]@ == b.proj@[j]@,
        decreases a.proj.len() - i,
    {
        if !same_step(&a.proj[i], &b.proj[i]) {
            assert(a@.proj[i as int] != b@.proj[i as int]);
            return false;
        }
        i = i + 1;
    }
    assert(a@ =~= b@);
    true
}

impl Base {
    pub fn duplicate(&self) -> (r: Base)
        ensures
            r@ == self@,
    {
        match self {
            Base::Local(l) => Base::Local(*l),
            Base::Global(m, n) => Base::Global(*m, n.clone()),
        }
    }
}

impl Place {
    /// The place of a whole local.
    pub fn of_local(l: u32) -> (r: Place)
        ensures
            r@ == PlaceView::local(l),
    {
        let r = Place { base: Base::Local(l), proj: Vec::new() };
        assert(r@ =~= PlaceView::local(l));
        r
    }

    pub fn duplicate(&self) -> (r: Place)
        ensures
            r@ == self@,
    {
        let mut proj: Vec<Proj> = Vec::new();
        let mut i: usize = 0;
        while i < self.proj.len()
            invariant
                i <= self.proj.len(),
                proj.len() == i,
                forall|j: int| 0 <= j < i ==> proj@[j]@ == self.proj@[j]@,
            decreases self.proj.len() - i,
        {
            match &self.proj[i] {
                Proj::Field(f) => proj.push(Proj::Field(f.clone())),
                Proj::Opaque => proj.push(Proj::Opaque),
            }
            i = i + 1;
        }
        let r = Place { base: self.base.duplicate(), proj };
        assert(r@ =~= self@);
        r
    }

    /// The place one step further.
    pub fn step(&self, p: Proj) -> (r: Place)
        ensures
            r@ == self@.step(p@),
    {
        let mut r = self.duplicate();
        let ghost before = r@;
        r.proj.push(p);
        assert(r@.proj =~= before.proj.push(p@));
        r
    }

    /// The place of the named field.
    pub fn field(&self, name: &str) -> (r: Place)
        ensures
            r@ == self@.step(ProjView::Field(name@)),
    {
        self.step(Proj::Field(name.to_owned()))
    }
}

/// The per-function place universe. Every place a body mentions is
/// interned here during lowering, together with its field siblings, so
/// that the move analysis can expand a whole-value move into per-field
/// residue without consulting types.
#[derive(Debug)]
pub struct PlaceTable {
    places: Vec<Place>,
    /// Whether the place's type is `Copy` (implicit copy on use).
    copy: Vec<bool>,
}

#[verifier::ext_equal]
pub struct PlaceTableView {
    pub places: Seq<PlaceView>,
    pub copy: Seq<bool>,
}

/// Places, as values.
pub open spec fn place_views(v: Seq<Place>) -> Seq<PlaceView> {
    Seq::new(v.len(), |i: int| v[i]@)
}

impl View for PlaceTable {
    type V = PlaceTableView;

    closed spec fn view(&self) -> PlaceTableView {
        PlaceTableView { places: place_views(self.places@), copy: self.copy@ }
    }
}

impl PlaceTableView {
    pub open spec fn empty() -> PlaceTableView {
        PlaceTableView { places: Seq::empty(), copy: Seq::empty() }
    }

    /// Every place has its copy bit, and no place is interned twice.
    pub open spec fn wf(self) -> bool {
        &&& self.copy.len() == self.places.len()
        &&& self.places.no_duplicates()
    }

    /// The id names an interned place.
    pub open spec fn has(self, id: PlaceId) -> bool {
        id.0 < self.places.len()
    }

    pub open spec fn at(self, id: PlaceId) -> PlaceView {
        self.places[id.0 as int]
    }

    pub open spec fn copies(self, id: PlaceId) -> bool {
        self.copy[id.0 as int]
    }

    /// The table after interning `p`: a known place keeps its first
    /// copy bit.
    pub open spec fn intern(self, p: PlaceView, is_copy: bool) -> PlaceTableView {
        if self.places.contains(p) {
            self
        } else {
            PlaceTableView { places: self.places.push(p), copy: self.copy.push(is_copy) }
        }
    }

    /// The id of an interned place: its position in interning order.
    pub open spec fn id_of(self, p: PlaceView) -> PlaceId {
        PlaceId(self.places.index_of(p) as u32)
    }

    pub open spec fn overlaps(self, a: PlaceId, b: PlaceId) -> bool {
        self.at(a).overlaps(self.at(b))
    }

    pub open spec fn is_prefix_of(self, a: PlaceId, b: PlaceId) -> bool {
        self.at(a).is_prefix_of(self.at(b))
    }
}

/// Interning keeps the table well-formed, keeps every earlier id, and
/// makes the place findable under the id it answers.
pub proof fn law_intern(t: PlaceTableView, p: PlaceView, c: bool)
    requires
        t.wf(),
        t.places.len() <= u32::MAX,
    ensures
        t.intern(p, c).wf(),
        t.intern(p, c).has(t.intern(p, c).id_of(p)),
        t.intern(p, c).at(t.intern(p, c).id_of(p)) == p,
        forall|id: PlaceId|
            #![trigger t.intern(p, c).at(id)]
            t.has(id) ==> t.intern(p, c).has(id) && t.intern(p, c).at(id) == t.at(id)
                && t.intern(p, c).copies(id) == t.copies(id),
{
    lemma_intern_wf(t, p, c);
    let u = t.intern(p, c);
    lemma_contains_at(u.places, p);
    let k = u.places.index_of(p);
    assert(u.places.len() <= u32::MAX + 1);
    assert(u.places[k] == p && 0 <= k < u.places.len());
}

/// Interning the same place again changes nothing and answers the same
/// id.
pub proof fn law_intern_idempotent(t: PlaceTableView, p: PlaceView, c: bool, d: bool)
    requires
        t.wf(),
    ensures
        t.intern(p, c).intern(p, d) == t.intern(p, c),
{
    lemma_intern_contains(t, p, c);
}

proof fn lemma_contains_at(s: Seq<PlaceView>, p: PlaceView)
    requires
        s.contains(p),
    ensures
        0 <= s.index_of(p) < s.len(),
        s[s.index_of(p)] == p,
{
    let i = choose|i: int| 0 <= i < s.len() && s[i] == p;
    assert(0 <= i < s.len() && s[i] == p);
}

proof fn lemma_intern_contains(t: PlaceTableView, p: PlaceView, c: bool)
    ensures
        t.intern(p, c).places.contains(p),
{
    if !t.places.contains(p) {
        assert(t.places.push(p)[t.places.len() as int] == p);
    }
}

pub proof fn lemma_intern_wf(t: PlaceTableView, p: PlaceView, c: bool)
    requires
        t.wf(),
    ensures
        t.intern(p, c).wf(),
        t.intern(p, c).has(t.intern(p, c).id_of(p)),
        t.intern(p, c).places.contains(p),
        t.intern(p, c).places.len() >= t.places.len(),
{
    lemma_intern_contains(t, p, c);
    let u = t.intern(p, c);
    lemma_contains_at(u.places, p);
    assert((u.places.index_of(p) as u32) as int <= u.places.index_of(p));
    if !t.places.contains(p) {
        assert forall|i: int, j: int|
            0 <= i < u.places.len() && 0 <= j < u.places.len() && i != j implies u.places[i]
            != u.places[j] by {
            if i < t.places.len() && j < t.places.len() {
                assert(t.places[i] != t.places[j]);
            }
        }
    }
}

impl Default for PlaceTable {
    fn default() -> (r: PlaceTable)
        ensures
            r@ == PlaceTableView::empty(),
    {
        PlaceTable::new()
    }
}

impl PlaceTable {
    pub fn new() -> (r: Self)
        ensures
            r@ == PlaceTableView::empty(),
            r@.wf(),
    {
        let r = PlaceTable { places: Vec::new(), copy: Vec::new() };
        assert(r@ =~= PlaceTableView::empty());
        r
    }

    /// The id of `place`, interning it when it is new.
    #[verifier::truncate]
    pub fn intern(&mut self, place: Place, is_copy: bool) -> (id: PlaceId)
        requires
            old(self)@.wf(),
        ensures
            final(self)@ == old(self)@.intern(place@, is_copy),
            id == final(self)@.id_of(place@),
            final(self)@.has(id),
            final(self)@.wf(),
    {
        let ghost t = self@;
        let ghost p = place@;
        proof {
            lemma_intern_wf(t, p, is_copy);
        }
        let mut i: usize = 0;
        while i < self.places.len()
            invariant
                i <= self.places.len(),
                self@ == t,
                t.wf(),
                p == place@,
                t.places == place_views(self.places@),
                forall|j: int| 0 <= j < i ==> t.places[j] != p,
                t.intern(p, is_copy).wf(),
                t.intern(p, is_copy).has(t.intern(p, is_copy).id_of(p)),
            decreases self.places.len() - i,
        {
            if same_place(&self.places[i], &place) {
                assert(t.places[i as int] == p);
                assert(t.places.contains(p));
                assert(t.places.index_of(p) == i as int) by {
                    lemma_contains_at(t.places, p);
                }
                return PlaceId(i as u32);
            }
            i = i + 1;
        }
        assert(!t.places.contains(p));
        let n: usize = self.places.len();
        self.places.push(place);
        self.copy.push(is_copy);
        proof {
            assert(self@.places =~= t.places.push(p));
            assert(self@ =~= t.intern(p, is_copy));
            lemma_contains_at(self@.places, p);
            assert(self@.places[n as int] == p);
            assert(self@.places.index_of(p) == n as int);
        }
        PlaceId(n as u32)
    }

    pub fn get(&self, id: PlaceId) -> (r: &Place)
        requires
            self@.has(id),
        ensures
            r@ == self@.at(id),
    {
        &self.places[id.0 as usize]
    }

    pub fn is_copy(&self, id: PlaceId) -> (r: bool)
        requires
            self@.wf(),
            self@.has(id),
        ensures
            r == self@.copies(id),
    {
        self.copy[id.0 as usize]
    }

    pub fn len(&self) -> (r: usize)
        ensures
            r == self@.places.len(),
    {
        self.places.len()
    }

    pub fn is_empty(&self) -> (r: bool)
        ensures
            r == (self@.places.len() == 0),
    {
        self.places.len() == 0
    }

    /// Every interned place with its id, in interning order.
    #[verifier::truncate]
    pub fn iter(&self) -> (r: Vec<(PlaceId, &Place)>)
        ensures
            r.len() == self@.places.len(),
            forall|i: int|
                0 <= i < r.len() ==> (#[trigger] r@[i]).0 == PlaceId(i as u32) && r@[i].1@
                    == self@.places[i],
    {
        let mut out: Vec<(PlaceId, &Place)> = Vec::new();
        let mut i: usize = 0;
        while i < self.places.len()
            invariant
                i <= self.places.len(),
                out.len() == i,
                self@.places == place_views(self.places@),
                forall|j: int|
                    0 <= j < i ==> (#[trigger] out@[j]).0 == PlaceId(j as u32) && out@[j].1@
                        == self@.places[j],
            decreases self.places.len() - i,
        {
            out.push((PlaceId(i as u32), &self.places[i]));
            i = i + 1;
        }
        out
    }

    /// `[mem.model.path.disjoint]`: do the two places conflict?
    pub fn overlap(&self, a: PlaceId, b: PlaceId) -> (r: bool)
        requires
            self@.has(a),
            self@.has(b),
        ensures
            r == self@.overlaps(a, b),
    {
        overlap(self.get(a), self.get(b))
    }

    /// Is `a` a (non-strict) prefix of `b`: does using `a` use all of
    /// `b`?
    pub fn covers(&self, a: PlaceId, b: PlaceId) -> (r: bool)
        requires
            self@.has(a),
            self@.has(b),
        ensures
            r == self@.is_prefix_of(a, b),
    {
        covers(self.get(a), self.get(b))
    }
}

/// Opaque conservatively matches anything.
fn steps_match(a: &Proj, b: &Proj) -> (r: bool)
    ensures
        r == a@.matches(b@),
{
    match (a, b) {
        (Proj::Field(x), Proj::Field(y)) => str_eq(x.as_str(), y.as_str()),
        _ => true,
    }
}

/// Two paths conflict iff one is a prefix of the other after identical
/// projections.
pub fn overlap(a: &Place, b: &Place) -> (r: bool)
    ensures
        r == a@.overlaps(b@),
{
    if !same_base(&a.base, &b.base) {
        return false;
    }
    let mut i: usize = 0;
    while i < a.proj.len() && i < b.proj.len()
        invariant
            a.base@ == b.base@,
            i <= a.proj.len(),
            i <= b.proj.len(),
            forall|j: int| 0 <= j < i ==> (#[trigger] a@.proj[j]).matches(b@.proj[j]),
        decreases a.proj.len() - i,
    {
        if !steps_match(&a.proj[i], &b.proj[i]) {
            assert(!a@.proj[i as int].matches(b@.proj[i as int]));
            return false;
        }
        i = i + 1;
    }
    true
}

/// Is `a` a (non-strict) prefix of `b`?
pub fn covers(a: &Place, b: &Place) -> (r: bool)
    ensures
        r == a@.is_prefix_of(b@),
{
    if a.proj.len() > b.proj.len() {
        return false;
    }
    let r = overlap(a, b);
    assert(r == a@.is_prefix_of(b@));
    r
}

} // verus!
