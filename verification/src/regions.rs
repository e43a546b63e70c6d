//! Region inference: allocation-site region attribution over region
//! variables, and the escape-to-stack promotion facts.
//!
//! `Scope`/`Value` regions (syntactic introductions) are **rigid**: they
//! unify only with themselves, so two that never unify denote provably
//! distinct regions (`[mem.region.create.2]`). `Caller` and `Static` are
//! rigid classes. `Param` regions are **flexible**: a parameter's data
//! may turn out to live in another region, but a *direct* demand that
//! two parameters share a region has no annotation surface and is
//! reported to the caller of [`RegionTable::unify`].

use vstd::prelude::*;
use vstd::string::*;

use crate::cfg::{
    region_views, show_span, site_views, span_text, AllocSite, Region, RegionId, RegionKind,
    RegionView, SiteKind, SiteView, Strategy, StrategyView,
};
use crate::diag::{texts, Span};
use crate::text::lit;

verus! {

/// What a region variable resolved to.
#[derive(Debug, Clone, Copy, PartialEq, Eq, Structural)]
pub enum Binding {
    Caller,
    Static,
    /// A rigid local region (`Scope`/`Value` introduction).
    Local(RegionId),
}

/// One unification's outcome.
#[derive(Debug, Clone, Copy, PartialEq, Eq, Structural)]
pub enum Unify {
    /// The two are one region (now, or already).
    Met,
    /// Two *parameter* regions were demanded equal.
    ParamsMerged,
    /// Two distinct rigid regions were demanded equal.
    Conflict(Binding, Binding),
}

/// The per-function region variable table: union-find plus rigid
/// bindings.
pub struct RegionTable {
    regions: Vec<Region>,
    parent: Vec<u32>,
    binding: Vec<Option<Binding>>,
    roots: Ghost<Seq<int>>,
    ranks: Ghost<Seq<nat>>,
}

/// The table as a value: the regions, and each region's class by its
/// representative.
#[verifier::ext_equal]
pub struct RegionTableView {
    pub regions: Seq<RegionView>,
    pub roots: Seq<int>,
}

/// The binding a region of this kind starts with.
pub open spec fn first_binding(kind: RegionKind, i: int) -> Option<Binding> {
    match kind {
        RegionKind::Caller => Some(Binding::Caller),
        RegionKind::Static => Some(Binding::Static),
        RegionKind::Scope | RegionKind::Value => Some(Binding::Local(RegionId(i as u32))),
        RegionKind::Param => None,
    }
}

impl RegionTableView {
    pub open spec fn empty() -> RegionTableView {
        RegionTableView { regions: Seq::empty(), roots: Seq::empty() }
    }

    pub open spec fn has(self, r: RegionId) -> bool {
        r.0 < self.regions.len()
    }

    pub open spec fn root(self, r: RegionId) -> int {
        self.roots[r.0 as int]
    }

    /// Representatives are regions with an id that represent themselves,
    /// and a class that holds a rigid region is bound to it.
    pub open spec fn wf(self) -> bool {
        &&& self.roots.len() == self.regions.len()
        &&& forall|i: int| #![trigger self.roots[i]]
            0 <= i < self.roots.len() ==> 0 <= self.roots[i] < self.roots.len()
                && self.roots[i] <= u32::MAX && self.roots[self.roots[i]] == self.roots[i]
        &&& forall|i: int| #![trigger self.roots[i]]
            0 <= i < self.roots.len() && i <= u32::MAX && first_binding(self.regions[i].kind, i) is Some
                ==> self.bound_at(self.roots[i]) == first_binding(self.regions[i].kind, i)
    }

    pub open spec fn bound_at(self, i: int) -> Option<Binding> {
        first_binding(self.regions[i].kind, i)
    }

    /// What the region's class is bound to.
    pub open spec fn binding(self, r: RegionId) -> Option<Binding> {
        self.bound_at(self.root(r))
    }

    pub open spec fn same(self, a: RegionId, b: RegionId) -> bool {
        self.root(a) == self.root(b)
    }

    /// The table with class `from` joined to class `into`.
    pub open spec fn merged(self, into: int, from: int) -> RegionTableView {
        RegionTableView {
            regions: self.regions,
            roots: Seq::new(
                self.roots.len(),
                |i: int| if self.roots[i] == from { into } else { self.roots[i] },
            ),
        }
    }

    pub open spec fn outcome(self, a: RegionId, b: RegionId) -> Unify {
        if self.same(a, b) {
            Unify::Met
        } else {
            match (self.binding(a), self.binding(b)) {
                (Some(x), Some(y)) => if x == y {
                    Unify::Met
                } else {
                    Unify::Conflict(x, y)
                },
                (None, None) => Unify::ParamsMerged,
                _ => Unify::Met,
            }
        }
    }

    /// The table after the demand that `a` and `b` are one region.
    pub open spec fn unify(self, a: RegionId, b: RegionId) -> RegionTableView {
        if self.same(a, b) || self.outcome(a, b) is Conflict {
            self
        } else if self.binding(a) is None && self.binding(b) is Some {
            self.merged(self.root(b), self.root(a))
        } else {
            self.merged(self.root(a), self.root(b))
        }
    }

    /// The table with one more region, a class of its own.
    pub open spec fn new_region(self, region: RegionView) -> RegionTableView {
        let n = self.regions.len() as int;
        RegionTableView {
            regions: self.regions.push(region),
            roots: self.roots.push(if n <= u32::MAX { n } else { self.roots[(n as u32) as int] }),
        }
    }

    /// The table with one region renamed.
    pub open spec fn renamed(self, r: RegionId, name: Seq<char>, span: Span) -> RegionTableView {
        RegionTableView {
            regions: self.regions.update(
                r.0 as int,
                RegionView { name, span, ..self.regions[r.0 as int] },
            ),
            roots: self.roots,
        }
    }
}

/// Being one region is an equivalence.
pub proof fn law_same_equivalence(t: RegionTableView, a: RegionId, b: RegionId, c: RegionId)
    ensures
        t.same(a, a),
        t.same(a, b) ==> t.same(b, a),
        t.same(a, b) && t.same(b, c) ==> t.same(a, c),
{
}

/// Unification keeps the table well-formed.
pub proof fn law_unify_wf(t: RegionTableView, a: RegionId, b: RegionId)
    requires
        t.wf(),
        t.has(a),
        t.has(b),
    ensures
        t.unify(a, b).wf(),
{
    let u = t.unify(a, b);
    let ra = t.root(a);
    let rb = t.root(b);
    assert(t.roots[a.0 as int] == ra && t.roots[b.0 as int] == rb);
    assert(t.roots[ra] == ra && t.roots[rb] == rb);
    assert forall|i: int| 0 <= i < u.roots.len() implies 0 <= #[trigger] u.roots[i] < u.roots.len()
        && u.roots[i] <= u32::MAX && u.roots[u.roots[i]] == u.roots[i] && (i <= u32::MAX && first_binding(
        u.regions[i].kind,
        i,
    ) is Some ==> u.bound_at(u.roots[i]) == first_binding(u.regions[i].kind, i)) by {
        let ri = t.roots[i];
        assert(0 <= ri < t.roots.len() && t.roots[ri] == ri);
    }
}

/// A demand that is not refused makes the two regions one.
pub proof fn law_unify_joins(t: RegionTableView, a: RegionId, b: RegionId)
    requires
        t.wf(),
        t.has(a),
        t.has(b),
        !(t.outcome(a, b) is Conflict),
    ensures
        t.unify(a, b).same(a, b),
{
}

/// A refused demand changes nothing.
pub proof fn law_conflict_changes_nothing(t: RegionTableView, a: RegionId, b: RegionId)
    requires
        t.outcome(a, b) is Conflict,
    ensures
        t.unify(a, b) == t,
{
}

/// A demand that was met stays met: repeating it is accepted and changes
/// nothing.
pub proof fn law_unify_idempotent(t: RegionTableView, a: RegionId, b: RegionId)
    requires
        t.wf(),
        t.has(a),
        t.has(b),
        !(t.outcome(a, b) is Conflict),
    ensures
        t.unify(a, b).outcome(a, b) == Unify::Met,
        t.unify(a, b).unify(a, b) == t.unify(a, b),
{
    law_unify_joins(t, a, b);
}

/// Rigid classes never merge: once a region is bound, no unification
/// changes its binding, so regions with different bindings stay
/// different.
pub proof fn law_rigid_never_merge(
    t: RegionTableView,
    a: RegionId,
    b: RegionId,
    x: RegionId,
    y: RegionId,
)
    requires
        t.wf(),
        t.has(a),
        t.has(b),
        t.has(x),
        t.has(y),
        t.binding(x) is Some,
        t.binding(y) is Some,
        t.binding(x) != t.binding(y),
    ensures
        t.unify(a, b).binding(x) == t.binding(x),
        t.unify(a, b).binding(y) == t.binding(y),
        !t.unify(a, b).same(x, y),
{
}

/// Two syntactically introduced regions denote distinct regions in every
/// well-formed table.
pub proof fn law_scope_regions_distinct(t: RegionTableView, a: RegionId, b: RegionId)
    requires
        t.wf(),
        t.has(a),
        t.has(b),
        a != b,
        t.regions[a.0 as int].kind is Scope || t.regions[a.0 as int].kind is Value,
        t.regions[b.0 as int].kind is Scope || t.regions[b.0 as int].kind is Value,
    ensures
        !t.same(a, b),
        t.outcome(a, b) == Unify::Conflict(Binding::Local(a), Binding::Local(b)),
{
    assert(t.roots[a.0 as int] == t.root(a));
    assert(t.roots[b.0 as int] == t.root(b));
}

/// A class has one binding. It has none exactly when every region of the
/// class is a parameter's, and a local one is a scope or value region of
/// the class itself.
pub proof fn law_class_binding(t: RegionTableView, r: RegionId, q: RegionId)
    requires
        t.wf(),
        t.has(r),
        t.has(q),
    ensures
        t.same(r, q) ==> t.binding(r) == t.binding(q),
        t.binding(r) is None <==> (forall|x: RegionId|
            t.has(x) && #[trigger] t.same(r, x) ==> t.regions[x.0 as int].kind is Param),
        t.binding(r) matches Some(Binding::Local(l)) ==> t.has(l) && t.same(r, l) && (
        t.regions[l.0 as int].kind is Scope || t.regions[l.0 as int].kind is Value),
{
    let root = t.root(r);
    assert(t.roots[r.0 as int] == root);
    let rep = RegionId(root as u32);
    assert(rep.0 == root);
    assert(t.roots[root] == root);
    assert(t.same(r, rep));
    if t.binding(r) is None {
        assert forall|x: RegionId| t.has(x) && #[trigger] t.same(r, x) implies
            t.regions[x.0 as int].kind is Param by {
            assert(t.roots[x.0 as int] == root);
        }
    }
}

/// A new region is a class of its own and changes no other.
pub proof fn law_new_region(t: RegionTableView, region: RegionView, a: RegionId)
    requires
        t.wf(),
        t.has(a),
        t.regions.len() <= u32::MAX,
    ensures
        t.new_region(region).wf(),
        t.new_region(region).root(a) == t.root(a),
        t.new_region(region).binding(a) == t.binding(a),
        !t.new_region(region).same(RegionId(t.regions.len() as u32), a),
        t.new_region(region).binding(RegionId(t.regions.len() as u32)) == first_binding(
            region.kind,
            t.regions.len() as int,
        ),
{
    lemma_new_region_wf(t, region);
    assert(t.roots[a.0 as int] == t.root(a));
}

pub proof fn lemma_new_region_wf(t: RegionTableView, region: RegionView)
    requires
        t.wf(),
    ensures
        t.new_region(region).wf(),
{
    let u = t.new_region(region);
    let n = t.regions.len() as int;
    assert forall|i: int| 0 <= i < u.roots.len() implies 0 <= #[trigger] u.roots[i] < u.roots.len()
        && u.roots[i] <= u32::MAX && u.roots[u.roots[i]] == u.roots[i] && (i <= u32::MAX && first_binding(
        u.regions[i].kind,
        i,
    ) is Some ==> u.bound_at(u.roots[i]) == first_binding(u.regions[i].kind, i)) by {
        if i < n {
            assert(0 <= t.roots[i] < n && t.roots[t.roots[i]] == t.roots[i]);
        } else if n > u32::MAX {
            let k = (n as u32) as int;
            assert(0 <= t.roots[k] < n && t.roots[t.roots[k]] == t.roots[k]);
        }
    }
}

pub proof fn lemma_renamed_wf(t: RegionTableView, r: RegionId, name: Seq<char>, span: Span)
    requires
        t.wf(),
        t.has(r),
    ensures
        t.renamed(r, name, span).wf(),
{
    let u = t.renamed(r, name, span);
    assert(forall|i: int| 0 <= i < t.regions.len() ==> u.regions[i].kind == t.regions[i].kind);
    assert forall|i: int| 0 <= i < u.roots.len() implies 0 <= #[trigger] u.roots[i] < u.roots.len()
        && u.roots[i] <= u32::MAX && u.roots[u.roots[i]] == u.roots[i] && (i <= u32::MAX && first_binding(
        u.regions[i].kind,
        i,
    ) is Some ==> u.bound_at(u.roots[i]) == first_binding(u.regions[i].kind, i)) by {
        assert(0 <= t.roots[i] < t.roots.len());
    }
}

impl View for RegionTable {
    type V = RegionTableView;

    closed spec fn view(&self) -> RegionTableView {
        RegionTableView { regions: region_views(self.regions@), roots: self.roots@ }
    }
}

impl Default for RegionTable {
    fn default() -> (r: RegionTable)
        ensures
            r@ == RegionTableView::empty(),
            r.inv(),
    {
        proof {
            reveal(RegionTable::inv);
        }
        let r = RegionTable {
            regions: Vec::new(),
            parent: Vec::new(),
            binding: Vec::new(),
            roots: Ghost(Seq::empty()),
            ranks: Ghost(Seq::empty()),
        };
        assert(r@ =~= RegionTableView::empty());
        r
    }
}

impl RegionTable {
    /// The parent links are a forest that leads every region to its
    /// representative.
    #[verifier::opaque]
    pub closed spec fn inv(&self) -> bool {
        &&& self@.wf()
        &&& self.parent@.len() == self@.regions.len()
        &&& self.binding@.len() == self@.regions.len()
        &&& self.ranks@.len() == self@.regions.len()
        &&& self.links_ok()
        &&& forall|i: int|
            0 <= i < self.binding@.len() ==> #[trigger] self.binding@[i] == self@.bound_at(i)
    }

    closed spec fn links_ok(&self) -> bool {
        forall|i: int| #![trigger self.parent@[i]] #![trigger self.roots@[i]]
            0 <= i < self.parent@.len() ==> {
                &&& self.parent@[i] < self.parent@.len()
                &&& self.roots@[self.parent@[i] as int] == self.roots@[i]
                &&& (self.roots@[i] == i <==> self.parent@[i] == i)
                &&& (self.parent@[i] != i ==> self.ranks@[self.parent@[i] as int] < self.ranks@[i])
                &&& (self.roots@[i] != i ==> self.ranks@[self.roots@[i]] < self.ranks@[i])
            }
    }

    pub proof fn lemma_inv(&self)
        requires
            self.inv(),
        ensures
            self@.wf(),
    {
        reveal(RegionTable::inv);
    }

    /// The number of regions.
    pub fn len(&self) -> (n: usize)
        ensures
            n == self@.regions.len(),
    {
        self.regions.len()
    }

    /// One region.
    pub fn region(&self, r: RegionId) -> (out: &Region)
        requires
            self@.has(r),
        ensures
            out@ == self@.regions[r.0 as int],
    {
        &self.regions[r.0 as usize]
    }

    /// Add a region. The id is its position.
    #[verifier::truncate]
    pub fn new_region(&mut self, region: Region) -> (id: RegionId)
        requires
            old(self).inv(),
        ensures
            final(self).inv(),
            final(self)@ == old(self)@.new_region(region@),
            id == RegionId(old(self)@.regions.len() as u32),
            final(self)@.has(id),
    {
        proof {
            reveal(RegionTable::inv);
        }
        let ghost t = self@;
        let n: usize = self.regions.len();
        let id = RegionId(n as u32);
        let binding = match region.kind {
            RegionKind::Caller => Some(Binding::Caller),
            RegionKind::Static => Some(Binding::Static),
            RegionKind::Scope | RegionKind::Value => Some(Binding::Local(id)),
            RegionKind::Param => None,
        };
        let ghost rv = region@;
        self.regions.push(region);
        self.parent.push(id.0);
        self.binding.push(binding);
        proof {
            let m = n as int;
            let root: int = if m <= u32::MAX { m } else { t.roots[(m as u32) as int] };
            let rank: nat = if m <= u32::MAX { 0 } else { self.ranks@[(m as u32) as int] + 1 };
            self.roots@ = self.roots@.push(root);
            self.ranks@ = self.ranks@.push(rank);
            assert(self@.regions =~= t.regions.push(rv));
            assert(self@ =~= t.new_region(rv));
            lemma_new_region_wf(t, rv);
            assert(old(self).links_ok());
            assert forall|i: int| 0 <= i < self.parent@.len() implies {
                &&& #[trigger] self.parent@[i] < self.parent@.len()
                &&& self.roots@[self.parent@[i] as int] == self.roots@[i]
                &&& (self.roots@[i] == i <==> self.parent@[i] == i)
                &&& (self.parent@[i] != i ==> self.ranks@[self.parent@[i] as int] < self.ranks@[i])
                &&& (self.roots@[i] != i ==> self.ranks@[self.roots@[i]] < self.ranks@[i])
            } by {
                if i < m {
                    assert(old(self).parent@[i] == self.parent@[i]);
                    assert(0 <= t.roots[i] < m);
                } else if m > u32::MAX {
                    let k = (m as u32) as int;
                    assert(old(self).parent@[k] < m);
                    assert(0 <= t.roots[k] < m);
                }
            }
            assert forall|i: int| 0 <= i < self.binding@.len() implies #[trigger] self.binding@[i]
                == self@.bound_at(i) by {
                if i < m {
                    assert(old(self).binding@[i] == t.bound_at(i));
                }
            }
        }
        id
    }

    /// The representative of a region's class; the links on the way are
    /// shortened.
    fn find(&mut self, r: RegionId) -> (root: u32)
        requires
            old(self).inv(),
            old(self)@.has(r),
        ensures
            final(self).inv(),
            final(self)@ == old(self)@,
            root as int == old(self)@.root(r),
            root < old(self)@.regions.len(),
    {
        proof {
            reveal(RegionTable::inv);
        }
        let ghost t = self@;
        let mut root: u32 = r.0;
        assert(self.roots@[root as int] == t.root(r));
        while self.parent[root as usize] != root
            invariant
                self.inv(),
                self@ == t,
                root < self.parent@.len(),
                self.roots@[root as int] == t.root(r),
            decreases self.ranks@[root as int],
        {
            proof {
                reveal(RegionTable::inv);
            }
            assert(self.parent@[root as int] < self.parent@.len());
            root = self.parent[root as usize];
        }
        assert(self.parent@[root as int] == root);
        let mut cur: u32 = r.0;
        while self.parent[cur as usize] != root
            invariant
                self.inv(),
                self@ == t,
                root < self.parent@.len(),
                cur < self.parent@.len(),
                self.roots@[cur as int] == t.root(r),
                root as int == t.root(r),
            decreases self.ranks@[cur as int],
        {
            proof {
                reveal(RegionTable::inv);
            }
            let ghost before = *self;
            let next: u32 = self.parent[cur as usize];
            assert(self.parent@[cur as int] < self.parent@.len());
            self.parent.set(cur as usize, root);
            proof {
                assert(before.parent@[cur as int] == next);
                assert(before.roots@[cur as int] == root as int);
                assert(before.roots@[root as int] == root as int) by {
                    assert(before@.wf());
                    assert(before@.roots[cur as int] == root as int);
                }
                assert(cur != root) by {
                    assert(before.roots@[root as int] == root as int);
                    assert(before.parent@[root as int] == root);
                }
                assert(self@ =~= t);
                assert forall|i: int| 0 <= i < self.parent@.len() implies {
                    &&& #[trigger] self.parent@[i] < self.parent@.len()
                    &&& self.roots@[self.parent@[i] as int] == self.roots@[i]
                    &&& (self.roots@[i] == i <==> self.parent@[i] == i)
                    &&& (self.parent@[i] != i ==> self.ranks@[self.parent@[i] as int]
                        < self.ranks@[i])
                    &&& (self.roots@[i] != i ==> self.ranks@[self.roots@[i]] < self.ranks@[i])
                } by {
                    if i != cur as int {
                        assert(self.parent@[i] == before.parent@[i]);
                    }
                }
                assert forall|i: int|
                    0 <= i < self.binding@.len() implies #[trigger] self.binding@[i]
                    == self@.bound_at(i) by {
                    assert(before.binding@[i] == before@.bound_at(i));
                }
            }
            cur = next;
        }
        root
    }

    fn root_binding(&self, root: u32) -> (b: Option<Binding>)
        requires
            self.inv(),
            root < self@.regions.len(),
        ensures
            b == self@.bound_at(root as int),
            b matches Some(Binding::Local(l)) ==> self@.has(l),
    {
        proof {
            reveal(RegionTable::inv);
        }
        assert(self.binding@[root as int] == self@.bound_at(root as int));
        self.binding[root as usize]
    }

    /// What the region's class is bound to.
    pub fn binding(&mut self, r: RegionId) -> (b: Option<Binding>)
        requires
            old(self).inv(),
            old(self)@.has(r),
        ensures
            final(self).inv(),
            final(self)@ == old(self)@,
            b == old(self)@.binding(r),
            b matches Some(Binding::Local(l)) ==> old(self)@.has(l) && old(self)@.same(r, l),
    {
        proof {
            self.lemma_inv();
            law_class_binding(self@, r, r);
        }
        let root = self.find(r);
        self.root_binding(root)
    }

    /// Are the two regions one?
    pub fn same(&mut self, a: RegionId, b: RegionId) -> (r: bool)
        requires
            old(self).inv(),
            old(self)@.has(a),
            old(self)@.has(b),
        ensures
            final(self).inv(),
            final(self)@ == old(self)@,
            r == old(self)@.same(a, b),
    {
        self.find(a) == self.find(b)
    }

    /// Join class `from` to class `into`.
    fn link(&mut self, into: u32, from: u32)
        requires
            old(self).inv(),
            into != from,
            into < old(self)@.regions.len(),
            from < old(self)@.regions.len(),
            old(self)@.roots[into as int] == into,
            old(self)@.roots[from as int] == from,
            old(self)@.bound_at(from as int) is None || old(self)@.bound_at(from as int)
                == old(self)@.bound_at(into as int),
        ensures
            final(self).inv(),
            final(self)@ == old(self)@.merged(into as int, from as int),
    {
        proof {
            reveal(RegionTable::inv);
        }
        let ghost t = self@;
        let ghost before = *self;
        self.parent.set(from as usize, into);
        proof {
            let n = t.roots.len();
            let extra: nat = before.ranks@[into as int] + 1;
            self.roots@ = t.merged(into as int, from as int).roots;
            self.ranks@ = Seq::new(
                n,
                |i: int|
                    if t.roots[i] == from as int {
                        before.ranks@[i] + extra
                    } else {
                        before.ranks@[i]
                    },
            );
            assert(self@ =~= t.merged(into as int, from as int));
            let u = self@;
            assert forall|i: int| 0 <= i < u.roots.len() implies 0 <= #[trigger] u.roots[i]
                < u.roots.len() && u.roots[i] <= u32::MAX && u.roots[u.roots[i]] == u.roots[i] && (i <= u32::MAX
                && first_binding(u.regions[i].kind, i) is Some ==> u.bound_at(u.roots[i])
                == first_binding(u.regions[i].kind, i)) by {
                let ri = t.roots[i];
                assert(0 <= ri < t.roots.len() && t.roots[ri] == ri);
            }
            assert forall|i: int| 0 <= i < self.parent@.len() implies {
                &&& #[trigger] self.parent@[i] < self.parent@.len()
                &&& self.roots@[self.parent@[i] as int] == self.roots@[i]
                &&& (self.roots@[i] == i <==> self.parent@[i] == i)
                &&& (self.parent@[i] != i ==> self.ranks@[self.parent@[i] as int] < self.ranks@[i])
                &&& (self.roots@[i] != i ==> self.ranks@[self.roots@[i]] < self.ranks@[i])
            } by {
                assert(before.parent@[i] < before.parent@.len());
                assert(0 <= t.roots[i] < t.roots.len());
                let pi = before.parent@[i] as int;
                assert(t.roots[pi] == t.roots[i]);
                assert(before.roots@[i] == t.roots[i]);
                if i == from as int {
                } else {
                    assert(self.parent@[i] == before.parent@[i]);
                }
            }
            assert forall|i: int| 0 <= i < self.binding@.len() implies #[trigger] self.binding@[i]
                == self@.bound_at(i) by {
                assert(before.binding@[i] == t.bound_at(i));
            }
        }
    }

    /// Demand that `a` and `b` are one region. Never merges two distinct
    /// rigid classes.
    pub fn unify(&mut self, a: RegionId, b: RegionId) -> (r: Unify)
        requires
            old(self).inv(),
            old(self)@.has(a),
            old(self)@.has(b),
        ensures
            final(self).inv(),
            final(self)@ == old(self)@.unify(a, b),
            r == old(self)@.outcome(a, b),
            r matches Unify::Conflict(Binding::Local(l), _) ==> old(self)@.has(l),
            r matches Unify::Conflict(_, Binding::Local(l)) ==> old(self)@.has(l),
    {
        let ghost t = self@;
        let ra = self.find(a);
        let rb = self.find(b);
        if ra == rb {
            return Unify::Met;
        }
        proof {
            self.lemma_inv();
            assert(t.roots[a.0 as int] == ra as int);
            assert(t.roots[b.0 as int] == rb as int);
        }
        match (self.root_binding(ra), self.root_binding(rb)) {
            (Some(x), Some(y)) => {
                if x == y {
                    self.link(ra, rb);
                    Unify::Met
                } else {
                    Unify::Conflict(x, y)
                }
            },
            (Some(_), None) => {
                self.link(ra, rb);
                Unify::Met
            },
            (None, Some(_)) => {
                self.link(rb, ra);
                Unify::Met
            },
            (None, None) => {
                self.link(ra, rb);
                Unify::ParamsMerged
            },
        }
    }

    /// Give a region the name and span of the binding that holds it.
    pub fn rename(&mut self, r: RegionId, name: String, span: Span)
        requires
            old(self).inv(),
            old(self)@.has(r),
        ensures
            final(self).inv(),
            final(self)@ == old(self)@.renamed(r, name@, span),
    {
        proof {
            reveal(RegionTable::inv);
        }
        let ghost t = self@;
        let ghost before = *self;
        let kind = self.regions[r.0 as usize].kind;
        let strategy = match &self.regions[r.0 as usize].strategy {
            Strategy::Arena => Strategy::Arena,
            Strategy::Rc => Strategy::Rc,
            Strategy::Pool(p) => Strategy::Pool(p.clone()),
        };
        let ghost nm = name@;
        self.regions.set(r.0 as usize, Region { name, kind, strategy, span });
        proof {
            assert(self@.regions =~= t.renamed(r, nm, span).regions);
            assert(self@ =~= t.renamed(r, nm, span));
            lemma_renamed_wf(t, r, nm, span);
            assert forall|i: int| 0 <= i < self.parent@.len() implies {
                &&& #[trigger] self.parent@[i] < self.parent@.len()
                &&& self.roots@[self.parent@[i] as int] == self.roots@[i]
                &&& (self.roots@[i] == i <==> self.parent@[i] == i)
                &&& (self.parent@[i] != i ==> self.ranks@[self.parent@[i] as int] < self.ranks@[i])
                &&& (self.roots@[i] != i ==> self.ranks@[self.roots@[i]] < self.ranks@[i])
            } by {
                assert(before.parent@[i] < before.parent@.len());
            }
            assert forall|i: int| 0 <= i < self.binding@.len() implies #[trigger] self.binding@[i]
                == self@.bound_at(i) by {
                assert(before.binding@[i] == t.bound_at(i));
                assert(self@.regions[i].kind == t.regions[i].kind);
            }
        }
    }
}

// ---------------------------------------------------------- summary --

/// The per-function inference record: the reviewable dump surface and
/// the promotion facts.
#[derive(Debug)]
pub struct RegionSummary {
    pub name: String,
    pub regions: Vec<Region>,
    /// Per region: the rendered resolution of its class (`caller`,
    /// `static`, `region tmp`, or `own` for a still-generalized parameter
    /// region).
    pub resolved: Vec<String>,
    pub sites: Vec<SiteSummary>,
    /// Regions whose create/free pair is frame-local and clean.
    pub promoted: Vec<RegionId>,
    /// Promoted regions with no allocation site at all.
    pub never_allocates: Vec<RegionId>,
    /// Whether any placement demand could not be discharged.
    pub conflicted: bool,
}

#[derive(Debug)]
pub struct SiteSummary {
    pub span: Span,
    pub ty: String,
    pub region: RegionId,
    pub kind: SiteKind,
    /// Why the value may leave the frame, when it may.
    pub escape: Option<&'static str>,
    /// A literal allocation that provably never escapes.
    pub stacked: bool,
}

#[verifier::ext_equal]
pub struct SiteSummaryView {
    pub span: Span,
    pub ty: Seq<char>,
    pub region: RegionId,
    pub kind: SiteKind,
    pub escape: Option<Seq<char>>,
    pub stacked: bool,
}

#[verifier::ext_equal]
pub struct SummaryView {
    pub name: Seq<char>,
    pub regions: Seq<RegionView>,
    pub resolved: Seq<Seq<char>>,
    pub sites: Seq<SiteSummaryView>,
    pub promoted: Seq<RegionId>,
    pub never_allocates: Seq<RegionId>,
    pub conflicted: bool,
}

/// An optional reason, as a value.
pub open spec fn opt_str(o: Option<&'static str>) -> Option<Seq<char>> {
    match o {
        Some(s) => Some(s@),
        None => None,
    }
}

/// Optional reasons, as values.
pub open spec fn opt_strs(v: Seq<Option<&'static str>>) -> Seq<Option<Seq<char>>> {
    Seq::new(v.len(), |i: int| opt_str(v[i]))
}

impl View for SiteSummary {
    type V = SiteSummaryView;

    open spec fn view(&self) -> SiteSummaryView {
        SiteSummaryView {
            span: self.span,
            ty: self.ty@,
            region: self.region,
            kind: self.kind,
            escape: opt_str(self.escape),
            stacked: self.stacked,
        }
    }
}

/// Site summaries, as values.
pub open spec fn site_summary_views(v: Seq<SiteSummary>) -> Seq<SiteSummaryView> {
    Seq::new(v.len(), |i: int| v[i]@)
}

impl View for RegionSummary {
    type V = SummaryView;

    open spec fn view(&self) -> SummaryView {
        SummaryView {
            name: self.name@,
            regions: region_views(self.regions@),
            resolved: texts(self.resolved@),
            sites: site_summary_views(self.sites@),
            promoted: self.promoted@,
            never_allocates: self.never_allocates@,
            conflicted: self.conflicted,
        }
    }
}

/// How a region's class renders.
pub open spec fn resolved_text(t: RegionTableView, r: RegionId) -> Seq<char> {
    match t.binding(r) {
        Some(Binding::Caller) => "caller"@,
        Some(Binding::Static) => "static"@,
        Some(Binding::Local(r)) => "region "@ + t.regions[r.0 as int].name,
        None => "own"@,
    }
}

/// Some site was attributed to the region's class.
pub open spec fn allocates(t: RegionTableView, sites: Seq<SiteView>, p: RegionId) -> bool {
    exists|i: int| 0 <= i < sites.len() && t.same((#[trigger] sites[i]).region, p)
}

/// The region's class holds a promoted region.
pub open spec fn in_promoted(t: RegionTableView, promoted: Seq<RegionId>, r: RegionId) -> bool {
    exists|i: int| 0 <= i < promoted.len() && t.same(#[trigger] promoted[i], r)
}

/// The promoted regions without an allocation, in order.
pub open spec fn barren(
    t: RegionTableView,
    sites: Seq<SiteView>,
    promoted: Seq<RegionId>,
) -> Seq<RegionId>
    decreases promoted.len(),
{
    if promoted.len() == 0 {
        Seq::empty()
    } else {
        let rest = barren(t, sites, promoted.drop_last());
        if allocates(t, sites, promoted.last()) {
            rest
        } else {
            rest.push(promoted.last())
        }
    }
}

/// The record of one finished body.
pub open spec fn summary_of(
    name: Seq<char>,
    t: RegionTableView,
    sites: Seq<SiteView>,
    escape: Seq<Option<Seq<char>>>,
    promoted: Seq<RegionId>,
    conflicted: bool,
) -> SummaryView {
    SummaryView {
        name,
        regions: t.regions,
        resolved: Seq::new(t.regions.len(), |i: int| resolved_text(t, RegionId(i as u32))),
        sites: Seq::new(
            sites.len(),
            |i: int|
                SiteSummaryView {
                    span: sites[i].span,
                    ty: sites[i].ty,
                    region: sites[i].region,
                    kind: sites[i].kind,
                    escape: escape[i],
                    stacked: sites[i].kind is Lit && escape[i] is None && !in_promoted(
                        t,
                        promoted,
                        sites[i].region,
                    ),
                },
        ),
        promoted,
        never_allocates: barren(t, sites, promoted),
        conflicted,
    }
}

/// Only promoted regions are reported empty, and only when no site was
/// attributed to them.
pub proof fn law_barren(t: RegionTableView, sites: Seq<SiteView>, promoted: Seq<RegionId>, r: RegionId)
    ensures
        barren(t, sites, promoted).contains(r) <==> promoted.contains(r) && !allocates(t, sites, r),
    decreases promoted.len(),
{
    if promoted.len() > 0 {
        let init = promoted.drop_last();
        let last = promoted.last();
        law_barren(t, sites, init, r);
        assert(promoted =~= init.push(last));
        let rest = barren(t, sites, init);
        assert(promoted.contains(r) <==> init.contains(r) || r == last) by {
            if promoted.contains(r) {
                let k = choose|k: int| 0 <= k < promoted.len() && promoted[k] == r;
                if k < init.len() {
                    assert(init[k] == r);
                }
            }
            if init.contains(r) {
                let k = choose|k: int| 0 <= k < init.len() && init[k] == r;
                assert(promoted[k] == r);
            }
            if r == last {
                assert(promoted[promoted.len() - 1] == r);
            }
        }
        if !allocates(t, sites, last) {
            let now = rest.push(last);
            assert(now.contains(r) <==> rest.contains(r) || r == last) by {
                if rest.contains(r) {
                    let k = choose|k: int| 0 <= k < rest.len() && rest[k] == r;
                    assert(now[k] == r);
                }
                if r == last {
                    assert(now[rest.len() as int] == r);
                }
                if now.contains(r) {
                    let k = choose|k: int| 0 <= k < now.len() && now[k] == r;
                    if k < rest.len() {
                        assert(rest[k] == r);
                    }
                }
            }
        }
    }
}

fn is_promoted(rt: &mut RegionTable, promoted: &Vec<RegionId>, r: RegionId) -> (b: bool)
    requires
        old(rt).inv(),
        old(rt)@.has(r),
        forall|i: int| 0 <= i < promoted.len() ==> old(rt)@.has(#[trigger] promoted@[i]),
    ensures
        final(rt).inv(),
        final(rt)@ == old(rt)@,
        b == in_promoted(old(rt)@, promoted@, r),
{
    let ghost t = rt@;
    let mut i: usize = 0;
    while i < promoted.len()
        invariant
            i <= promoted.len(),
            rt.inv(),
            rt@ == t,
            t == old(rt)@,
            t.has(r),
            forall|k: int| 0 <= k < promoted.len() ==> t.has(#[trigger] promoted@[k]),
            forall|k: int| 0 <= k < i ==> !t.same(#[trigger] promoted@[k], r),
        decreases promoted.len() - i,
    {
        if rt.same(promoted[i], r) {
            return true;
        }
        i = i + 1;
    }
    false
}

fn has_site(rt: &mut RegionTable, sites: &Vec<AllocSite>, p: RegionId) -> (b: bool)
    requires
        old(rt).inv(),
        old(rt)@.has(p),
        forall|i: int| 0 <= i < sites.len() ==> old(rt)@.has((#[trigger] sites@[i]).region),
    ensures
        final(rt).inv(),
        final(rt)@ == old(rt)@,
        b == allocates(old(rt)@, site_views(sites@), p),
{
    let ghost t = rt@;
    let ghost sv = site_views(sites@);
    let mut i: usize = 0;
    while i < sites.len()
        invariant
            i <= sites.len(),
            rt.inv(),
            rt@ == t,
            t == old(rt)@,
            t.has(p),
            sv == site_views(sites@),
            forall|k: int| 0 <= k < sites.len() ==> t.has((#[trigger] sites@[k]).region),
            forall|k: int| 0 <= k < i ==> !t.same((#[trigger] sv[k]).region, p),
        decreases sites.len() - i,
    {
        assert(sv[i as int].region == sites@[i as int].region);
        if rt.same(sites[i].region, p) {
            return true;
        }
        i = i + 1;
    }
    false
}

fn resolve(rt: &mut RegionTable, r: RegionId) -> (text: String)
    requires
        old(rt).inv(),
        old(rt)@.has(r),
    ensures
        final(rt).inv(),
        final(rt)@ == old(rt)@,
        text@ == resolved_text(old(rt)@, r),
{
    proof {
        rt.lemma_inv();
    }
    match rt.binding(r) {
        Some(Binding::Caller) => lit("caller"),
        Some(Binding::Static) => lit("static"),
        Some(Binding::Local(l)) => {
            proof {
                rt.lemma_inv();
            }
            lit("region ").concat(rt.region(l).name.as_str())
        },
        None => lit("own"),
    }
}

/// Build the record from the finished tables.
#[verifier::truncate]
pub fn summarize(
    name: &str,
    rt: RegionTable,
    sites: &Vec<AllocSite>,
    site_escape: &Vec<Option<&'static str>>,
    promoted: &Vec<RegionId>,
    conflicted: bool,
) -> (r: RegionSummary)
    requires
        rt.inv(),
        site_escape.len() == sites.len(),
        forall|i: int| 0 <= i < sites.len() ==> rt@.has((#[trigger] sites@[i]).region),
        forall|i: int| 0 <= i < promoted.len() ==> rt@.has(#[trigger] promoted@[i]),
    ensures
        r@ == summary_of(
            name@,
            rt@,
            site_views(sites@),
            opt_strs(site_escape@),
            promoted@,
            conflicted,
        ),
{
    let ghost t = rt@;
    let ghost sv = site_views(sites@);
    let ghost want = summary_of(name@, t, sv, opt_strs(site_escape@), promoted@, conflicted);
    let mut rt = rt;
    proof {
        rt.lemma_inv();
    }
    let n: usize = rt.regions.len();
    let mut resolved: Vec<String> = Vec::new();
    let mut i: usize = 0;
    while i < n
        invariant
            i <= n,
            rt.inv(),
            rt@ == t,
            t.regions.len() == n,
            want.resolved == Seq::new(
                t.regions.len(),
                |i: int| resolved_text(t, RegionId(i as u32)),
            ),
            texts(resolved@) == want.resolved.take(i as int),
        decreases n - i,
    {
        let id: u32 = i as u32;
        let text = resolve(&mut rt, RegionId(id));
        let ghost prior = texts(resolved@);
        let ghost tx = text@;
        resolved.push(text);
        assert(texts(resolved@) =~= prior.push(tx));
        assert(want.resolved[i as int] == tx);
        i = i + 1;
        assert(texts(resolved@) =~= want.resolved.take(i as int));
    }
    assert(want.resolved.take(i as int) =~= want.resolved);
    let mut summaries: Vec<SiteSummary> = Vec::new();
    let mut j: usize = 0;
    while j < sites.len()
        invariant
            j <= sites.len(),
            site_escape.len() == sites.len(),
            rt.inv(),
            rt@ == t,
            sv == site_views(sites@),
            want == summary_of(name@, t, sv, opt_strs(site_escape@), promoted@, conflicted),
            forall|i: int| 0 <= i < sites.len() ==> t.has((#[trigger] sites@[i]).region),
            forall|i: int| 0 <= i < promoted.len() ==> t.has(#[trigger] promoted@[i]),
            site_summary_views(summaries@) == want.sites.take(j as int),
        decreases sites.len() - j,
    {
        let s: &AllocSite = &sites[j];
        let escape = site_escape[j];
        let clean = !is_promoted(&mut rt, promoted, s.region);
        let summary = SiteSummary {
            span: s.span,
            ty: s.ty.clone(),
            region: s.region,
            kind: s.kind,
            escape,
            stacked: s.kind == SiteKind::Lit && escape.is_none() && clean,
        };
        let ghost prior = site_summary_views(summaries@);
        assert(summary@ == want.sites[j as int]);
        let ghost sm = summary@;
        summaries.push(summary);
        assert(site_summary_views(summaries@) =~= prior.push(sm));
        j = j + 1;
        assert(site_summary_views(summaries@) =~= want.sites.take(j as int));
    }
    assert(want.sites.take(j as int) =~= want.sites);
    let mut never: Vec<RegionId> = Vec::new();
    let mut kept: Vec<RegionId> = Vec::new();
    let mut k: usize = 0;
    assert(promoted@.take(0) =~= Seq::empty());
    while k < promoted.len()
        invariant
            k <= promoted.len(),
            rt.inv(),
            rt@ == t,
            sv == site_views(sites@),
            forall|i: int| 0 <= i < sites.len() ==> t.has((#[trigger] sites@[i]).region),
            forall|i: int| 0 <= i < promoted.len() ==> t.has(#[trigger] promoted@[i]),
            never@ == barren(t, sv, promoted@.take(k as int)),
            kept@ == promoted@.take(k as int),
        decreases promoted.len() - k,
    {
        let p = promoted[k];
        proof {
            assert(promoted@.take(k + 1).drop_last() =~= promoted@.take(k as int));
            assert(promoted@.take(k + 1).last() == p);
        }
        if !has_site(&mut rt, sites, p) {
            never.push(p);
        }
        kept.push(p);
        k = k + 1;
        assert(kept@ =~= promoted@.take(k as int));
    }
    assert(promoted@.take(k as int) =~= promoted@);
    proof {
        rt.lemma_inv();
    }
    let out = RegionSummary {
        name: lit(name),
        regions: rt.regions,
        resolved,
        sites: summaries,
        promoted: kept,
        never_allocates: never,
        conflicted,
    };
    assert(out@ =~= want);
    out
}

// -------------------------------------------------------- rendering --

pub open spec fn strategy_text(s: StrategyView) -> Seq<char> {
    match s {
        StrategyView::Arena => ""@,
        StrategyView::Rc => " rc"@,
        StrategyView::Pool(t) => " pool("@ + t + ")"@,
    }
}

fn show_strategy(s: &Strategy) -> (r: String)
    ensures
        r@ == strategy_text(s@),
{
    match s {
        Strategy::Arena => lit(""),
        Strategy::Rc => lit(" rc"),
        Strategy::Pool(t) => lit(" pool(").concat(t.as_str()).concat(")"),
    }
}

impl SummaryView {
    /// Every region has its resolution, and every site a region.
    pub open spec fn wf(self) -> bool {
        &&& self.resolved.len() == self.regions.len()
        &&& forall|i: int|
            0 <= i < self.sites.len() ==> (#[trigger] self.sites[i]).region.0 < self.regions.len()
    }

    pub open spec fn promoted_mark(self, i: int) -> Seq<char> {
        if self.promoted.contains(RegionId(i as u32)) {
            " [promoted -> stack; create/free elided]"@
        } else {
            ""@
        }
    }

    pub open spec fn region_line(self, i: int) -> Seq<char> {
        let r = self.regions[i];
        "  "@ + (match r.kind {
            RegionKind::Caller => "ambient caller (implicit parameter)"@,
            RegionKind::Static => "ambient static (module state)"@,
            RegionKind::Param => "param "@ + r.name + " -> "@ + self.resolved[i],
            RegionKind::Scope => "region "@ + r.name + strategy_text(r.strategy) + " "@ + span_text(
                r.span,
            ) + " (scope)"@ + self.promoted_mark(i),
            RegionKind::Value => "region "@ + r.name + strategy_text(r.strategy) + " "@ + span_text(
                r.span,
            ) + " (value)"@ + self.promoted_mark(i),
        }) + "\n"@
    }

    pub open spec fn region_lines(self, n: nat) -> Seq<char>
        decreases n,
    {
        if n == 0 {
            Seq::empty()
        } else {
            self.region_lines((n - 1) as nat) + self.region_line(n - 1)
        }
    }

    pub open spec fn site_line(self, i: int) -> Seq<char> {
        let s = self.sites[i];
        let mark = if s.stacked {
            " [stack]"@
        } else {
            match s.escape {
                Some(why) => " (escapes: "@ + why + ")"@,
                None => ""@,
            }
        };
        let verb = match s.kind {
            SiteKind::Lit => "alloc"@,
            SiteKind::CallResult => "call-alloc"@,
            SiteKind::Param => "param-data"@,
        };
        "  "@ + verb + " "@ + s.ty + " "@ + span_text(s.span) + " -> "@
            + self.resolved[s.region.0 as int] + mark + "\n"@
    }

    pub open spec fn site_lines(self, n: nat) -> Seq<char>
        decreases n,
    {
        if n == 0 {
            Seq::empty()
        } else {
            self.site_lines((n - 1) as nat) + self.site_line(n - 1)
        }
    }

    /// One line per region, then one line per site.
    pub open spec fn text(self) -> Seq<char> {
        "regions fn "@ + self.name + "\n"@ + self.region_lines(self.regions.len())
            + self.site_lines(self.sites.len())
    }
}

/// The summary of a finished body is well-formed.
pub proof fn law_summary_wf(
    name: Seq<char>,
    t: RegionTableView,
    sites: Seq<SiteView>,
    escape: Seq<Option<Seq<char>>>,
    promoted: Seq<RegionId>,
    conflicted: bool,
)
    requires
        forall|i: int| 0 <= i < sites.len() ==> t.has((#[trigger] sites[i]).region),
    ensures
        summary_of(name, t, sites, escape, promoted, conflicted).wf(),
{
    let s = summary_of(name, t, sites, escape, promoted, conflicted);
    assert forall|i: int| 0 <= i < s.sites.len() implies (#[trigger] s.sites[i]).region.0
        < s.regions.len() by {
        assert(t.has(sites[i].region));
    }
}

fn contains_region(v: &Vec<RegionId>, r: RegionId) -> (b: bool)
    ensures
        b == v@.contains(r),
{
    let mut i: usize = 0;
    while i < v.len()
        invariant
            i <= v.len(),
            forall|k: int| 0 <= k < i ==> v@[k] != r,
        decreases v.len() - i,
    {
        if v[i] == r {
            return true;
        }
        i = i + 1;
    }
    false
}

impl RegionSummary {
    #[verifier::truncate]
    fn render_region(&self, i: usize) -> (r: String)
        requires
            self@.wf(),
            i < self.regions.len(),
        ensures
            r@ == self@.region_line(i as int),
    {
        let r: &Region = &self.regions[i];
        assert(self@.regions[i as int] == r@);
        assert(self@.resolved[i as int] == self.resolved@[i as int]@);
        let promoted = if contains_region(&self.promoted, RegionId(i as u32)) {
            " [promoted -> stack; create/free elided]"
        } else {
            ""
        };
        let line = match r.kind {
            RegionKind::Caller => lit("ambient caller (implicit parameter)"),
            RegionKind::Static => lit("ambient static (module state)"),
            RegionKind::Param => lit("param ").concat(r.name.as_str()).concat(" -> ").concat(
                self.resolved[i].as_str(),
            ),
            RegionKind::Scope => lit("region ").concat(r.name.as_str()).concat(
                show_strategy(&r.strategy).as_str(),
            ).concat(" ").concat(show_span(r.span).as_str()).concat(" (scope)").concat(promoted),
            RegionKind::Value => lit("region ").concat(r.name.as_str()).concat(
                show_strategy(&r.strategy).as_str(),
            ).concat(" ").concat(show_span(r.span).as_str()).concat(" (value)").concat(promoted),
        };
        lit("  ").concat(line.as_str()).concat("\n")
    }

    fn render_site(&self, i: usize) -> (r: String)
        requires
            self@.wf(),
            i < self.sites.len(),
        ensures
            r@ == self@.site_line(i as int),
    {
        let s: &SiteSummary = &self.sites[i];
        assert(self@.sites[i as int] == s@);
        assert(s.region.0 < self.resolved.len());
        assert(self@.resolved[s.region.0 as int] == self.resolved@[s.region.0 as int]@);
        let mark = if s.stacked {
            lit(" [stack]")
        } else {
            match s.escape {
                Some(why) => lit(" (escapes: ").concat(why).concat(")"),
                None => lit(""),
            }
        };
        let verb = match s.kind {
            SiteKind::Lit => "alloc",
            SiteKind::CallResult => "call-alloc",
            SiteKind::Param => "param-data",
        };
        lit("  ").concat(verb).concat(" ").concat(s.ty.as_str()).concat(" ").concat(
            show_span(s.span).as_str(),
        ).concat(" -> ").concat(self.resolved[s.region.0 as usize].as_str()).concat(
            mark.as_str(),
        ).concat("\n")
    }

    /// Deterministic textual form: byte-offset spans, walk-order ids;
    /// regions render by their introduction.
    pub fn render(&self) -> (r: String)
        requires
            self@.wf(),
        ensures
            r@ == self@.text(),
    {
        let mut out = lit("regions fn ").concat(self.name.as_str()).concat("\n");
        let ghost head = out@;
        let mut i: usize = 0;
        assert(out@ =~= head + self@.region_lines(0));
        while i < self.regions.len()
            invariant
                i <= self.regions.len(),
                self@.wf(),
                out@ == head + self@.region_lines(i as nat),
            decreases self.regions.len() - i,
        {
            out.append(self.render_region(i).as_str());
            i = i + 1;
            assert(out@ =~= head + self@.region_lines(i as nat));
        }
        let ghost head2 = out@;
        let mut j: usize = 0;
        assert(out@ =~= head2 + self@.site_lines(0));
        while j < self.sites.len()
            invariant
                j <= self.sites.len(),
                self@.wf(),
                out@ == head2 + self@.site_lines(j as nat),
            decreases self.sites.len() - j,
        {
            out.append(self.render_site(j).as_str());
            j = j + 1;
            assert(out@ =~= head2 + self@.site_lines(j as nat));
        }
        out
    }
}

} // verus!
