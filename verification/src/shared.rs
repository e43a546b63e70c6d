//! The type-level acyclicity law of strong `shared` edges
//! (`[mem.shared.rc.2]`, E1006).
//!
//! `shared T` drops its payload when the last strong count drops; a
//! strong cycle would wait on itself forever, and there is no cycle
//! collector. So the strong type-reachability graph must be a DAG: `T`
//! strongly reaches `U` when a field/variant path of `T` embeds `U` by
//! value (including through `List`/`Pool`, tuples, error unions and
//! rows) or holds `shared U`. `weak`, `handle`, raw pointers and
//! function types are not strong edges.
//!
//! A cycle is E1006 only when it crosses at least one `shared` edge. A
//! generic instantiation still held opaque refuses when it could hide a
//! `shared` edge.

use vstd::prelude::*;
use vstd::string::*;

use crate::diag::{
    diag_views, lemma_diag_views_push, not_yet_views, texts, Code, DiagView, Diagnostic, NotYet,
    NotYetView, Span,
};
use crate::text::{contains_text, has_infix, join, joined, lit, str_eq};
use crate::types::{
    FieldSig, ItemEntry, ItemSig, SigTables, TyId, TyKind, TypeTable, VariantSig, all_below,
    parts_below,
};

verus! {

/// A node of the type graph: module index and item name.
pub struct Node {
    pub module: u32,
    pub name: String,
}

#[verifier::ext_equal]
pub struct NodeView {
    pub module: u32,
    pub name: Seq<char>,
}

impl View for Node {
    type V = NodeView;

    open spec fn view(&self) -> NodeView {
        NodeView { module: self.module, name: self.name@ }
    }
}

impl Node {
    fn same(&self, other: &Node) -> (r: bool)
        ensures
            r == (self@ == other@),
    {
        self.module == other.module && str_eq(self.name.as_str(), other.name.as_str())
    }

    fn duplicate(&self) -> (r: Node)
        ensures
            r@ == self@,
    {
        Node { module: self.module, name: self.name.clone() }
    }
}

/// One strong edge, anchored at the field/variant that spells it.
pub struct Edge {
    pub from: Node,
    pub to: Node,
    /// The path into `to` crosses a `shared` wrapper.
    pub via_shared: bool,
    pub span: Span,
}

#[verifier::ext_equal]
pub struct EdgeView {
    pub from: NodeView,
    pub to: NodeView,
    pub via_shared: bool,
    pub span: Span,
}

impl View for Edge {
    type V = EdgeView;

    open spec fn view(&self) -> EdgeView {
        EdgeView {
            from: self.from@,
            to: self.to@,
            via_shared: self.via_shared,
            span: self.span,
        }
    }
}

pub open spec fn edge_views(v: Seq<Edge>) -> Seq<EdgeView> {
    Seq::new(v.len(), |i: int| v[i]@)
}

pub const OPAQUE_SHARED: &'static str = "`shared` acyclicity through opaque generic std types (generic data)";

/// What one type expression contributes: strong edges, and refusals.
pub type Found = (Seq<EdgeView>, Seq<NotYetView>);

pub open spec fn found_none() -> Found {
    (Seq::empty(), Seq::empty())
}

pub open spec fn found_add(a: Found, b: Found) -> Found {
    (a.0 + b.0, a.1 + b.1)
}

/// The contributions of the first `n` types.
pub open spec fn edges_of_list(
    t: TypeTable,
    ids: Seq<TyId>,
    n: nat,
    via: bool,
    from: NodeView,
    span: Span,
    fuel: nat,
) -> Found
    decreases fuel, 1nat, n,
{
    if n == 0 {
        found_none()
    } else {
        found_add(
            edges_of_list(t, ids, (n - 1) as nat, via, from, span, fuel),
            edges_of(t, ids[n - 1], via, from, span, fuel),
        )
    }
}

/// The contributions of the first `n` tags of a row.
pub open spec fn edges_of_tags(
    t: TypeTable,
    tags: Seq<(String, Vec<TyId>)>,
    n: nat,
    via: bool,
    from: NodeView,
    span: Span,
    fuel: nat,
) -> Found
    decreases fuel, 2nat, n,
{
    if n == 0 {
        found_none()
    } else {
        found_add(
            edges_of_tags(t, tags, (n - 1) as nat, via, from, span, fuel),
            edges_of_list(t, tags[n - 1].1@, tags[n - 1].1@.len(), via, from, span, fuel),
        )
    }
}

/// Strong edges out of one type expression. `via` is sticky once the
/// walk crosses a `shared` wrapper.
pub open spec fn edges_of(
    t: TypeTable,
    id: TyId,
    via: bool,
    from: NodeView,
    span: Span,
    fuel: nat,
) -> Found
    decreases fuel, 0nat, 0nat,
{
    if fuel == 0 {
        found_none()
    } else {
        match t.at(id) {
            Some(TyKind::Nominal { module, name, .. }) => (
                seq![
                    EdgeView {
                        from,
                        to: NodeView { module, name: name@ },
                        via_shared: via,
                        span,
                    },
                ],
                Seq::empty(),
            ),
            Some(TyKind::Shared(x)) => edges_of(t, x, true, from, span, (fuel - 1) as nat),
            Some(TyKind::List(x))
            | Some(TyKind::Pool(x))
            | Some(TyKind::Wrapping(x))
            | Some(TyKind::Distinct(x))
            | Some(TyKind::Range(x)) => edges_of(t, x, via, from, span, (fuel - 1) as nat),
            Some(TyKind::Tuple(ts)) => edges_of_list(
                t,
                ts@,
                ts@.len(),
                via,
                from,
                span,
                (fuel - 1) as nat,
            ),
            Some(TyKind::ErrUnion(a, row)) => found_add(
                edges_of(t, a, via, from, span, (fuel - 1) as nat),
                edges_of(t, row, via, from, span, (fuel - 1) as nat),
            ),
            Some(TyKind::Row { tags, .. }) => edges_of_tags(
                t,
                tags@,
                tags@.len(),
                via,
                from,
                span,
                (fuel - 1) as nat,
            ),
            Some(TyKind::Unsupported(s)) => if has_infix(s@, "shared "@) {
                (Seq::empty(), seq![NotYetView { construct: OPAQUE_SHARED@, span }])
            } else {
                found_none()
            },
            _ => found_none(),
        }
    }
}

spec fn grown(
    edges: Seq<Edge>,
    refused: Seq<NotYet>,
    before: Seq<Edge>,
    refused_before: Seq<NotYet>,
    f: Found,
) -> bool {
    &&& edge_views(edges) == edge_views(before) + f.0
    &&& not_yet_views(refused) == not_yet_views(refused_before) + f.1
}

fn collect_list(
    t: &TypeTable,
    ids: &Vec<TyId>,
    via: bool,
    from: &Node,
    span: Span,
    edges: &mut Vec<Edge>,
    refused: &mut Vec<NotYet>,
    fuel: usize,
)
    ensures
        grown(
            final(edges)@,
            final(refused)@,
            old(edges)@,
            old(refused)@,
            edges_of_list(*t, ids@, ids@.len(), via, from@, span, fuel as nat),
        ),
    decreases fuel, 1nat,
{
    let ghost e0 = edge_views(edges@);
    let ghost r0 = not_yet_views(refused@);
    let mut i: usize = 0;
    assert(e0 =~= e0 + edges_of_list(*t, ids@, 0, via, from@, span, fuel as nat).0);
    assert(r0 =~= r0 + edges_of_list(*t, ids@, 0, via, from@, span, fuel as nat).1);
    while i < ids.len()
        invariant
            i <= ids.len(),
            edge_views(edges@) == e0 + edges_of_list(
                *t,
                ids@,
                i as nat,
                via,
                from@,
                span,
                fuel as nat,
            ).0,
            not_yet_views(refused@) == r0 + edges_of_list(
                *t,
                ids@,
                i as nat,
                via,
                from@,
                span,
                fuel as nat,
            ).1,
        decreases ids.len() - i,
    {
        collect(t, ids[i], via, from, span, edges, refused, fuel);
        i = i + 1;
        assert(edge_views(edges@) =~= e0 + edges_of_list(
            *t,
            ids@,
            i as nat,
            via,
            from@,
            span,
            fuel as nat,
        ).0);
        assert(not_yet_views(refused@) =~= r0 + edges_of_list(
            *t,
            ids@,
            i as nat,
            via,
            from@,
            span,
            fuel as nat,
        ).1);
    }
}

fn collect_tags(
    t: &TypeTable,
    tags: &Vec<(String, Vec<TyId>)>,
    via: bool,
    from: &Node,
    span: Span,
    edges: &mut Vec<Edge>,
    refused: &mut Vec<NotYet>,
    fuel: usize,
)
    ensures
        grown(
            final(edges)@,
            final(refused)@,
            old(edges)@,
            old(refused)@,
            edges_of_tags(*t, tags@, tags@.len(), via, from@, span, fuel as nat),
        ),
    decreases fuel, 2nat,
{
    let ghost e0 = edge_views(edges@);
    let ghost r0 = not_yet_views(refused@);
    let mut i: usize = 0;
    assert(e0 =~= e0 + edges_of_tags(*t, tags@, 0, via, from@, span, fuel as nat).0);
    assert(r0 =~= r0 + edges_of_tags(*t, tags@, 0, via, from@, span, fuel as nat).1);
    while i < tags.len()
        invariant
            i <= tags.len(),
            edge_views(edges@) == e0 + edges_of_tags(
                *t,
                tags@,
                i as nat,
                via,
                from@,
                span,
                fuel as nat,
            ).0,
            not_yet_views(refused@) == r0 + edges_of_tags(
                *t,
                tags@,
                i as nat,
                via,
                from@,
                span,
                fuel as nat,
            ).1,
        decreases tags.len() - i,
    {
        collect_list(t, &tags[i].1, via, from, span, edges, refused, fuel);
        i = i + 1;
        assert(edge_views(edges@) =~= e0 + edges_of_tags(
            *t,
            tags@,
            i as nat,
            via,
            from@,
            span,
            fuel as nat,
        ).0);
        assert(not_yet_views(refused@) =~= r0 + edges_of_tags(
            *t,
            tags@,
            i as nat,
            via,
            from@,
            span,
            fuel as nat,
        ).1);
    }
}

/// Strong edges out of one type expression.
fn collect(
    t: &TypeTable,
    id: TyId,
    via: bool,
    from: &Node,
    span: Span,
    edges: &mut Vec<Edge>,
    refused: &mut Vec<NotYet>,
    fuel: usize,
)
    ensures
        grown(
            final(edges)@,
            final(refused)@,
            old(edges)@,
            old(refused)@,
            edges_of(*t, id, via, from@, span, fuel as nat),
        ),
    decreases fuel, 0nat,
{
    let ghost e0 = edge_views(edges@);
    let ghost r0 = not_yet_views(refused@);
    assert(e0 =~= e0 + Seq::<EdgeView>::empty());
    assert(r0 =~= r0 + Seq::<NotYetView>::empty());
    if fuel == 0 {
        return;
    }
    match t.kind(id) {
        Some(TyKind::Nominal { module, name, .. }) => {
            let e = Edge {
                from: from.duplicate(),
                to: Node { module: *module, name: name.clone() },
                via_shared: via,
                span,
            };
            let ghost ev = e@;
            edges.push(e);
            assert(edge_views(edges@) =~= e0 + seq![ev]);
        },
        Some(TyKind::Shared(x)) => collect(t, *x, true, from, span, edges, refused, fuel - 1),
        Some(TyKind::List(x))
        | Some(TyKind::Pool(x))
        | Some(TyKind::Wrapping(x))
        | Some(TyKind::Distinct(x))
        | Some(TyKind::Range(x)) => collect(t, *x, via, from, span, edges, refused, fuel - 1),
        Some(TyKind::Tuple(ts)) => collect_list(t, ts, via, from, span, edges, refused, fuel - 1),
        Some(TyKind::ErrUnion(a, row)) => {
            collect(t, *a, via, from, span, edges, refused, fuel - 1);
            collect(t, *row, via, from, span, edges, refused, fuel - 1);
            let ghost f = edges_of(*t, id, via, from@, span, fuel as nat);
            assert(edge_views(edges@) =~= e0 + f.0);
            assert(not_yet_views(refused@) =~= r0 + f.1);
        },
        Some(TyKind::Row { tags, .. }) => collect_tags(
            t,
            tags,
            via,
            from,
            span,
            edges,
            refused,
            fuel - 1,
        ),
        Some(TyKind::Unsupported(s)) => {
            if contains_text(s.as_str(), "shared ") {
                let n = NotYet { construct: OPAQUE_SHARED, span };
                refused.push(n);
                assert(not_yet_views(refused@) =~= r0 + seq![
                    NotYetView { construct: OPAQUE_SHARED@, span },
                ]);
            }
        },
        _ => {},
    }
}

// ------------------------------------------------------------- search --

/// Look for `to` from `cur` along the edges from index `j` on, never
/// entering a node of `seen` again. Answers the chain of nodes entered
/// (ending in `to`), and the nodes seen.
pub open spec fn scan(
    edges: Seq<EdgeView>,
    cur: NodeView,
    to: NodeView,
    seen: Seq<NodeView>,
    j: nat,
    fuel: nat,
) -> (Option<Seq<NodeView>>, Seq<NodeView>)
    decreases fuel, edges.len() - j,
{
    if fuel == 0 || j >= edges.len() {
        (None, seen)
    } else {
        let n = edges[j as int].to;
        if edges[j as int].from != cur || seen.contains(n) {
            scan(edges, cur, to, seen, j + 1, fuel)
        } else if n == to {
            (Some(seq![n]), seen.push(n))
        } else {
            match scan(edges, n, to, seen.push(n), 0, (fuel - 1) as nat) {
                (Some(p), s) => (Some(seq![n] + p), s),
                (None, s) => scan(edges, cur, to, s, j + 1, fuel),
            }
        }
    }
}

/// A strong path `from -> .. -> to` (just `to` when they are the same):
/// the first one a depth-first search in edge order finds.
pub open spec fn path_between(edges: Seq<EdgeView>, from: NodeView, to: NodeView) -> Option<
    Seq<NodeView>,
> {
    if from == to {
        Some(seq![to])
    } else {
        match scan(edges, from, to, seq![from], 0, edges.len() + 1) {
            (Some(p), _) => Some(seq![from] + p),
            (None, _) => None,
        }
    }
}

pub open spec fn strong_step(edges: Seq<EdgeView>, a: NodeView, b: NodeView) -> bool {
    exists|i: int| 0 <= i < edges.len() && (#[trigger] edges[i]).from == a && edges[i].to == b
}

/// `b` can be reached from `a` in `n` strong steps.
pub open spec fn reaches_in(edges: Seq<EdgeView>, a: NodeView, b: NodeView, n: nat) -> bool
    decreases n,
{
    if n == 0 {
        a == b
    } else {
        exists|m: NodeView| #[trigger] strong_step(edges, a, m) && reaches_in(
            edges,
            m,
            b,
            (n - 1) as nat,
        )
    }
}

pub open spec fn reaches(edges: Seq<EdgeView>, a: NodeView, b: NodeView) -> bool {
    exists|n: nat| #[trigger] reaches_in(edges, a, b, n)
}

/// How many edges lead to an unseen node.
spec fn unseen(edges: Seq<EdgeView>, seen: Seq<NodeView>) -> nat
    decreases edges.len(),
{
    if edges.len() == 0 {
        0
    } else {
        unseen(edges.drop_last(), seen) + (if seen.contains(edges.last().to) {
            0nat
        } else {
            1nat
        })
    }
}

spec fn within(a: Seq<NodeView>, b: Seq<NodeView>) -> bool {
    forall|x: NodeView| #[trigger] a.contains(x) ==> b.contains(x)
}

proof fn lemma_unseen_mono(edges: Seq<EdgeView>, a: Seq<NodeView>, b: Seq<NodeView>)
    requires
        within(a, b),
    ensures
        unseen(edges, b) <= unseen(edges, a),
    decreases edges.len(),
{
    if edges.len() > 0 {
        lemma_unseen_mono(edges.drop_last(), a, b);
    }
}

proof fn lemma_unseen_strict(edges: Seq<EdgeView>, a: Seq<NodeView>, b: Seq<NodeView>, j: int)
    requires
        within(a, b),
        0 <= j < edges.len(),
        !a.contains(edges[j].to),
        b.contains(edges[j].to),
    ensures
        unseen(edges, b) < unseen(edges, a),
    decreases edges.len(),
{
    let init = edges.drop_last();
    if j == edges.len() - 1 {
        lemma_unseen_mono(init, a, b);
    } else {
        assert(init[j] == edges[j]);
        lemma_unseen_strict(init, a, b, j);
    }
}

proof fn lemma_unseen_bound(edges: Seq<EdgeView>, seen: Seq<NodeView>)
    ensures
        unseen(edges, seen) <= edges.len(),
    decreases edges.len(),
{
    if edges.len() > 0 {
        lemma_unseen_bound(edges.drop_last(), seen);
    }
}

proof fn lemma_push_contains(s: Seq<NodeView>, n: NodeView)
    ensures
        within(s, s.push(n)),
        s.push(n).contains(n),
        forall|x: NodeView| #[trigger] s.push(n).contains(x) ==> s.contains(x) || x == n,
{
    assert(s.push(n)[s.len() as int] == n);
    assert forall|x: NodeView| #[trigger] s.contains(x) implies s.push(n).contains(x) by {
        let k = choose|k: int| 0 <= k < s.len() && s[k] == x;
        assert(s.push(n)[k] == x);
    }
}

/// Every strong successor of `x` is in `s`.
spec fn closed_at(edges: Seq<EdgeView>, s: Seq<NodeView>, x: NodeView, from: nat) -> bool {
    forall|i: int|
        from <= i < edges.len() && (#[trigger] edges[i]).from == x ==> s.contains(edges[i].to)
}

/// A failed search leaves the nodes it entered closed under strong
/// steps, and never enters the target; a successful one is a chain.
proof fn lemma_scan(
    edges: Seq<EdgeView>,
    cur: NodeView,
    to: NodeView,
    seen: Seq<NodeView>,
    j: nat,
    fuel: nat,
)
    requires
        unseen(edges, seen) < fuel,
        !seen.contains(to),
        j <= edges.len(),
    ensures
        ({
            let (r, s) = scan(edges, cur, to, seen, j, fuel);
            &&& within(seen, s)
            &&& r is None ==> {
                &&& !s.contains(to)
                &&& closed_at(edges, s, cur, j)
                &&& forall|x: NodeView|
                    #![trigger s.contains(x)]
                    s.contains(x) && !seen.contains(x) ==> closed_at(edges, s, x, 0)
            }
            &&& r is Some ==> reaches(edges, cur, to)
        }),
    decreases fuel, edges.len() - j,
{
    if j < edges.len() {
        let n = edges[j as int].to;
        let (r, s) = scan(edges, cur, to, seen, j, fuel);
        if edges[j as int].from != cur || seen.contains(n) {
            lemma_scan(edges, cur, to, seen, j + 1, fuel);
            if r is None {
                assert(closed_at(edges, s, cur, j)) by {
                    assert forall|i: int|
                        j <= i < edges.len() && (#[trigger] edges[i]).from == cur implies s.contains(
                        edges[i].to,
                    ) by {
                        if i == j {
                            assert(seen.contains(n));
                        }
                    }
                }
            }
        } else {
            lemma_push_contains(seen, n);
            assert(strong_step(edges, cur, n));
            if n == to {
                assert(reaches_in(edges, n, to, 0));
                assert(reaches_in(edges, cur, to, 1));
            } else {
                let next = seen.push(n);
                lemma_unseen_strict(edges, seen, next, j as int);
                lemma_scan(edges, n, to, next, 0, (fuel - 1) as nat);
                let (r1, s1) = scan(edges, n, to, next, 0, (fuel - 1) as nat);
                if r1 is Some {
                    let k = choose|k: nat| #[trigger] reaches_in(edges, n, to, k);
                    assert(reaches_in(edges, n, to, ((k + 1) - 1) as nat));
                    assert(reaches_in(edges, cur, to, k + 1));
                } else {
                    assert(within(seen, s1)) by {
                        assert forall|x: NodeView| #[trigger] seen.contains(x) implies s1.contains(
                            x,
                        ) by {
                            assert(next.contains(x));
                        }
                    }
                    lemma_unseen_mono(edges, seen, s1);
                    lemma_scan(edges, cur, to, s1, j + 1, fuel);
                    if r is None {
                        assert(closed_at(edges, s, cur, j)) by {
                            assert forall|i: int|
                                j <= i < edges.len() && (#[trigger] edges[i]).from == cur implies
                                s.contains(edges[i].to) by {
                                if i == j {
                                    assert(next.contains(n));
                                    assert(s1.contains(n));
                                }
                            }
                        }
                        assert forall|x: NodeView|
                            #![trigger s.contains(x)]
                            s.contains(x) && !seen.contains(x) implies closed_at(
                            edges,
                            s,
                            x,
                            0,
                        ) by {
                            if s1.contains(x) {
                                if next.contains(x) {
                                    assert(x == n);
                                }
                                assert(closed_at(edges, s1, x, 0));
                                assert forall|i: int|
                                    0 <= i < edges.len() && (#[trigger] edges[i]).from == x implies
                                    s.contains(edges[i].to) by {
                                    assert(s1.contains(edges[i].to));
                                }
                            }
                        }
                    }
                }
            }
        }
    }
}

proof fn lemma_closed_unreachable(
    edges: Seq<EdgeView>,
    s: Seq<NodeView>,
    a: NodeView,
    b: NodeView,
    n: nat,
)
    requires
        forall|x: NodeView| #![trigger s.contains(x)] s.contains(x) ==> closed_at(edges, s, x, 0),
        s.contains(a),
        !s.contains(b),
    ensures
        !reaches_in(edges, a, b, n),
    decreases n,
{
    if n > 0 && reaches_in(edges, a, b, n) {
        let m = choose|m: NodeView|
            #[trigger] strong_step(edges, a, m) && reaches_in(edges, m, b, (n - 1) as nat);
        let i = choose|i: int|
            0 <= i < edges.len() && (#[trigger] edges[i]).from == a && edges[i].to == m;
        assert(closed_at(edges, s, a, 0));
        assert(s.contains(edges[i].to));
        lemma_closed_unreachable(edges, s, m, b, (n - 1) as nat);
    }
}

/// The search finds a path exactly when one exists.
pub proof fn law_path_iff_reachable(edges: Seq<EdgeView>, from: NodeView, to: NodeView)
    ensures
        path_between(edges, from, to) is Some <==> reaches(edges, from, to),
{
    if from == to {
        assert(reaches_in(edges, from, to, 0));
    } else {
        let start = seq![from];
        assert(start[0] == from);
        assert(!start.contains(to));
        lemma_unseen_bound(edges, start);
        lemma_scan(edges, from, to, start, 0, edges.len() + 1);
        let (r, s) = scan(edges, from, to, start, 0, edges.len() + 1);
        if r is None {
            assert(start.contains(from));
            assert(s.contains(from));
            assert forall|x: NodeView| #![trigger s.contains(x)] s.contains(x) implies closed_at(
                edges,
                s,
                x,
                0,
            ) by {
                if start.contains(x) {
                    assert(x == from);
                }
            }
            assert forall|n: nat| !#[trigger] reaches_in(edges, from, to, n) by {
                lemma_closed_unreachable(edges, s, from, to, n);
            }
        }
    }
}

fn node_in(v: &Vec<Node>, n: &Node) -> (r: bool)
    ensures
        r == node_views(v@).contains(n@),
{
    let mut i: usize = 0;
    while i < v.len()
        invariant
            i <= v.len(),
            forall|k: int| 0 <= k < i ==> node_views(v@)[k] != n@,
        decreases v.len() - i,
    {
        assert(node_views(v@)[i as int] == v@[i as int]@);
        if v[i].same(n) {
            return true;
        }
        i = i + 1;
    }
    false
}

pub open spec fn node_views(v: Seq<Node>) -> Seq<NodeView> {
    Seq::new(v.len(), |i: int| v[i]@)
}

/// Push the rest of the chain onto `path`; answers whether `to` was
/// found.
fn search(
    edges: &Vec<Edge>,
    cur: &Node,
    to: &Node,
    seen: &mut Vec<Node>,
    path: &mut Vec<Node>,
    fuel: u128,
) -> (found: bool)
    ensures
        ({
            let (r, s) = scan(edge_views(edges@), cur@, to@, node_views(old(seen)@), 0, fuel as nat);
            &&& node_views(final(seen)@) == s
            &&& found == (r is Some)
            &&& node_views(final(path)@) == match r {
                Some(p) => node_views(old(path)@) + p,
                None => node_views(old(path)@),
            }
        }),
    decreases fuel,
{
    if fuel == 0 {
        return false;
    }
    let ghost ev = edge_views(edges@);
    let ghost s0 = node_views(seen@);
    let ghost p0 = node_views(path@);
    let mut j: usize = 0;
    while j < edges.len()
        invariant
            j <= edges.len(),
            fuel > 0,
            ev == edge_views(edges@),
            s0 == node_views(old(seen)@),
            p0 == node_views(old(path)@),
            node_views(path@) == p0,
            scan(ev, cur@, to@, s0, 0, fuel as nat) == scan(
                ev,
                cur@,
                to@,
                node_views(seen@),
                j as nat,
                fuel as nat,
            ),
        decreases edges.len() - j,
    {
        let e = &edges[j];
        assert(ev[j as int] == e@);
        if e.from.same(cur) && !node_in(seen, &e.to) {
            let ghost s1 = node_views(seen@);
            let ghost n = e.to@;
            seen.push(e.to.duplicate());
            assert(node_views(seen@) =~= s1.push(n));
            path.push(e.to.duplicate());
            assert(node_views(path@) =~= p0.push(n));
            if e.to.same(to) {
                assert(node_views(path@) =~= p0 + seq![n]);
                return true;
            }
            if search(edges, &e.to, to, seen, path, fuel - 1) {
                let ghost p = scan(ev, n, to@, s1.push(n), 0, (fuel - 1) as nat).0->0;
                assert(node_views(path@) =~= p0 + (seq![n] + p));
                return true;
            }
            let ghost pv = path@;
            assert(node_views(pv) == p0.push(n));
            let _ = path.pop();
            assert(path@ == pv.drop_last());
            assert forall|i: int| 0 <= i < p0.len() implies #[trigger] node_views(path@)[i]
                == p0[i] by {
                assert(node_views(pv)[i] == p0.push(n)[i]);
            }
            assert(node_views(path@) =~= p0);
        }
        j = j + 1;
    }
    false
}

/// A strong path `from -> .. -> to`, if one exists.
fn strong_path(edges: &Vec<Edge>, from: &Node, to: &Node) -> (r: Option<Vec<Node>>)
    ensures
        match r {
            Some(p) => path_between(edge_views(edges@), from@, to@) == Some(node_views(p@)),
            None => path_between(edge_views(edges@), from@, to@) is None,
        },
{
    let mut path: Vec<Node> = Vec::new();
    path.push(from.duplicate());
    assert(node_views(path@) =~= seq![from@]);
    if from.same(to) {
        return Some(path);
    }
    let mut seen: Vec<Node> = Vec::new();
    seen.push(from.duplicate());
    assert(node_views(seen@) =~= seq![from@]);
    if search(edges, from, to, &mut seen, &mut path, edges.len() as u128 + 1) {
        Some(path)
    } else {
        None
    }
}

// --------------------------------------------------------- reporting --

pub const NOTE_CYCLE_HEAD: &'static str = "strong `shared` references drop their target when the last count drops, so a strong cycle would keep itself alive forever — and wolf has no cycle collector ([mem.shared.rc.2]). Break the back-edge: make this field `weak ";

pub const NOTE_CYCLE_MIDDLE: &'static str = "` (upgrade to reach the value without keeping it alive) or `handle ";

pub const NOTE_CYCLE_TAIL: &'static str = "` (a generational index that faults if the target is gone). If the structure is genuinely cyclic, keep the whole graph in one region instead — intra-region cycles are safe and freed wholesale ([mem.region.intra.1]).";

/// The names along a cycle that the edge closes, back to its start.
pub open spec fn cycle_names(e: EdgeView, path: Seq<NodeView>) -> Seq<Seq<char>> {
    let names = seq![e.from.name] + Seq::new(path.len(), |i: int| path[i].name);
    if names.last() == e.from.name {
        names
    } else {
        names.push(e.from.name)
    }
}

pub open spec fn cycle_diag(e: EdgeView, path: Seq<NodeView>) -> DiagView {
    DiagView::error(
        Code::E1006,
        e.span,
        "`"@ + e.from.name + "` holds a strong `shared` path back to itself"@,
    ).with_label(
        "this `shared` edge closes the cycle "@ + joined(cycle_names(e, path), " → "@),
    ).with_note(
        NOTE_CYCLE_HEAD@ + e.to.name + NOTE_CYCLE_MIDDLE@ + e.to.name + NOTE_CYCLE_TAIL@,
    )
}

/// One diagnostic per `shared` edge that closes a strong cycle.
pub open spec fn cycle_diags(edges: Seq<EdgeView>, n: nat) -> Seq<DiagView>
    decreases n,
{
    if n == 0 {
        Seq::empty()
    } else {
        let rest = cycle_diags(edges, (n - 1) as nat);
        let e = edges[n - 1];
        if e.via_shared {
            match path_between(edges, e.to, e.from) {
                Some(p) => rest.push(cycle_diag(e, p)),
                None => rest,
            }
        } else {
            rest
        }
    }
}

pub open spec fn field_edges(
    t: TypeTable,
    fs: Seq<FieldSig>,
    from: NodeView,
    n: nat,
) -> Found
    decreases n,
{
    if n == 0 {
        found_none()
    } else {
        found_add(
            field_edges(t, fs, from, (n - 1) as nat),
            edges_of(t, fs[n - 1].ty, false, from, fs[n - 1].span, t.kinds@.len()),
        )
    }
}

pub open spec fn variant_edges(
    t: TypeTable,
    vs: Seq<VariantSig>,
    from: NodeView,
    n: nat,
) -> Found
    decreases n,
{
    if n == 0 {
        found_none()
    } else {
        found_add(
            variant_edges(t, vs, from, (n - 1) as nat),
            edges_of_list(
                t,
                vs[n - 1].payload@,
                vs[n - 1].payload@.len(),
                false,
                from,
                vs[n - 1].span,
                t.kinds@.len(),
            ),
        )
    }
}

pub open spec fn item_edges(t: TypeTable, m: u32, e: ItemEntry) -> Found {
    let from = NodeView { module: m, name: e.name@ };
    match e.sig {
        ItemSig::Struct(ss) => field_edges(t, ss.fields@, from, ss.fields@.len()),
        ItemSig::Enum(vs) => variant_edges(t, vs@, from, vs@.len()),
        _ => found_none(),
    }
}

pub open spec fn module_edges(t: TypeTable, m: u32, items: Seq<ItemEntry>, n: nat) -> Found
    decreases n,
{
    if n == 0 {
        found_none()
    } else {
        found_add(module_edges(t, m, items, (n - 1) as nat), item_edges(t, m, items[n - 1]))
    }
}

/// The strong edges of the first `n` modules, in declaration order.
pub open spec fn all_edges(sigs: SigTables, n: nat) -> Found
    decreases n,
{
    if n == 0 {
        found_none()
    } else {
        found_add(
            all_edges(sigs, (n - 1) as nat),
            module_edges(
                sigs.table,
                (n - 1) as u32,
                sigs.modules@[n - 1]@,
                sigs.modules@[n - 1]@.len(),
            ),
        )
    }
}

/// Everything the acyclicity check reports about a package.
pub open spec fn shared_diags(sigs: SigTables) -> Seq<DiagView> {
    let edges = all_edges(sigs, sigs.modules@.len()).0;
    cycle_diags(edges, edges.len())
}

pub open spec fn shared_refusals(sigs: SigTables) -> Seq<NotYetView> {
    all_edges(sigs, sigs.modules@.len()).1
}

/// The edge crosses a `shared` wrapper and closes a strong cycle.
pub open spec fn closes_cycle(edges: Seq<EdgeView>, e: EdgeView) -> bool {
    e.via_shared && reaches(edges, e.to, e.from)
}

/// The strong `shared` edges form no cycle iff nothing is reported.
pub proof fn law_acyclic_iff_accepted(edges: Seq<EdgeView>, n: nat)
    requires
        n <= edges.len(),
    ensures
        cycle_diags(edges, n).len() == 0 <==> (forall|i: int|
            0 <= i < n ==> !closes_cycle(edges, #[trigger] edges[i])),
    decreases n,
{
    if n > 0 {
        law_acyclic_iff_accepted(edges, (n - 1) as nat);
        let e = edges[n - 1];
        law_path_iff_reachable(edges, e.to, e.from);
    }
}

fn word_cycle(e: &Edge, path: &Vec<Node>) -> (d: Diagnostic)
    ensures
        d@ == cycle_diag(e@, node_views(path@)),
{
    let mut names: Vec<String> = Vec::new();
    names.push(e.from.name.clone());
    let ghost want = seq![e.from.name@] + Seq::new(
        path@.len(),
        |i: int| node_views(path@)[i].name,
    );
    let mut i: usize = 0;
    assert(texts(names@) =~= want.take(1));
    while i < path.len()
        invariant
            i <= path.len(),
            want == seq![e.from.name@] + Seq::new(
                path@.len(),
                |i: int| node_views(path@)[i].name,
            ),
            texts(names@) == want.take(i + 1),
        decreases path.len() - i,
    {
        let ghost before = texts(names@);
        assert(node_views(path@)[i as int] == path@[i as int]@);
        names.push(path[i].name.clone());
        assert(texts(names@) =~= before.push(path@[i as int].name@));
        assert(want[i + 1] == path@[i as int].name@);
        i = i + 1;
        assert(texts(names@) =~= want.take(i + 1));
    }
    assert(want.take(i + 1) =~= want);
    assert(want == seq![e@.from.name] + Seq::new(
        node_views(path@).len(),
        |i: int| node_views(path@)[i].name,
    )) by {
        assert(seq![e@.from.name] + Seq::new(
            node_views(path@).len(),
            |i: int| node_views(path@)[i].name,
        ) =~= want);
    }
    let at: usize = names.len() - 1;
    assert(want.last() == names@[at as int]@);
    if !str_eq(names[at].as_str(), e.from.name.as_str()) {
        let ghost before = texts(names@);
        names.push(e.from.name.clone());
        assert(texts(names@) =~= before.push(e.from.name@));
    }
    assert(texts(names@) == cycle_names(e@, node_views(path@)));
    Diagnostic::error(
        Code::E1006,
        e.span,
        lit("`").concat(e.from.name.as_str()).concat(
            "` holds a strong `shared` path back to itself",
        ),
    ).with_label(
        lit("this `shared` edge closes the cycle ").concat(join(&names, " → ").as_str()),
    ).with_note(
        lit(NOTE_CYCLE_HEAD).concat(e.to.name.as_str()).concat(NOTE_CYCLE_MIDDLE).concat(
            e.to.name.as_str(),
        ).concat(NOTE_CYCLE_TAIL),
    )
}

fn collect_item(
    t: &TypeTable,
    m: u32,
    e: &ItemEntry,
    edges: &mut Vec<Edge>,
    refused: &mut Vec<NotYet>,
)
    ensures
        grown(final(edges)@, final(refused)@, old(edges)@, old(refused)@, item_edges(*t, m, *e)),
{
    let ghost e0 = edge_views(edges@);
    let ghost r0 = not_yet_views(refused@);
    assert(e0 =~= e0 + Seq::<EdgeView>::empty());
    assert(r0 =~= r0 + Seq::<NotYetView>::empty());
    let from = Node { module: m, name: e.name.clone() };
    let ghost fv = from@;
    match &e.sig {
        ItemSig::Struct(ss) => {
            let fs = &ss.fields;
            let mut i: usize = 0;
            while i < fs.len()
                invariant
                    i <= fs.len(),
                    fv == from@,
                    edge_views(edges@) == e0 + field_edges(*t, fs@, fv, i as nat).0,
                    not_yet_views(refused@) == r0 + field_edges(*t, fs@, fv, i as nat).1,
                decreases fs.len() - i,
            {
                collect(t, fs[i].ty, false, &from, fs[i].span, edges, refused, t.kinds.len());
                i = i + 1;
                assert(edge_views(edges@) =~= e0 + field_edges(*t, fs@, fv, i as nat).0);
                assert(not_yet_views(refused@) =~= r0 + field_edges(*t, fs@, fv, i as nat).1);
            }
        },
        ItemSig::Enum(vs) => {
            let mut i: usize = 0;
            while i < vs.len()
                invariant
                    i <= vs.len(),
                    fv == from@,
                    edge_views(edges@) == e0 + variant_edges(*t, vs@, fv, i as nat).0,
                    not_yet_views(refused@) == r0 + variant_edges(*t, vs@, fv, i as nat).1,
                decreases vs.len() - i,
            {
                collect_list(
                    t,
                    &vs[i].payload,
                    false,
                    &from,
                    vs[i].span,
                    edges,
                    refused,
                    t.kinds.len(),
                );
                i = i + 1;
                assert(edge_views(edges@) =~= e0 + variant_edges(*t, vs@, fv, i as nat).0);
                assert(not_yet_views(refused@) =~= r0 + variant_edges(*t, vs@, fv, i as nat).1);
            }
        },
        _ => {},
    }
}

/// Report every `shared` edge that closes a strong cycle, and every
/// opaque type that could hide one.
#[verifier::truncate]
pub fn check(sigs: &SigTables, diags: &mut Vec<Diagnostic>, refused: &mut Vec<NotYet>)
    ensures
        diag_views(final(diags)@) == diag_views(old(diags)@) + shared_diags(*sigs),
        not_yet_views(final(refused)@) == not_yet_views(old(refused)@) + shared_refusals(*sigs),
{
    let ghost r0 = not_yet_views(refused@);
    let ghost before = diag_views(diags@);
    let mut edges: Vec<Edge> = Vec::new();
    let mut m: usize = 0;
    assert(edge_views(edges@) =~= all_edges(*sigs, 0).0);
    assert(r0 =~= r0 + all_edges(*sigs, 0).1);
    while m < sigs.modules.len()
        invariant
            m <= sigs.modules.len(),
            edge_views(edges@) == all_edges(*sigs, m as nat).0,
            not_yet_views(refused@) == r0 + all_edges(*sigs, m as nat).1,
        decreases sigs.modules.len() - m,
    {
        let items = &sigs.modules[m];
        let id: u32 = m as u32;
        let ghost e1 = edge_views(edges@);
        let ghost r1 = not_yet_views(refused@);
        let mut i: usize = 0;
        assert(e1 =~= e1 + module_edges(sigs.table, id, items@, 0).0);
        assert(r1 =~= r1 + module_edges(sigs.table, id, items@, 0).1);
        while i < items.len()
            invariant
                i <= items.len(),
                edge_views(edges@) == e1 + module_edges(sigs.table, id, items@, i as nat).0,
                not_yet_views(refused@) == r1 + module_edges(sigs.table, id, items@, i as nat).1,
            decreases items.len() - i,
        {
            collect_item(&sigs.table, id, &items[i], &mut edges, refused);
            i = i + 1;
            assert(edge_views(edges@) =~= e1 + module_edges(sigs.table, id, items@, i as nat).0);
            assert(not_yet_views(refused@) =~= r1 + module_edges(
                sigs.table,
                id,
                items@,
                i as nat,
            ).1);
        }
        m = m + 1;
        assert(edge_views(edges@) =~= all_edges(*sigs, m as nat).0);
        assert(not_yet_views(refused@) =~= r0 + all_edges(*sigs, m as nat).1);
    }
    let ghost ev = edge_views(edges@);
    let mut k: usize = 0;
    assert(before =~= before + cycle_diags(ev, 0));
    while k < edges.len()
        invariant
            k <= edges.len(),
            ev == edge_views(edges@),
            diag_views(diags@) == before + cycle_diags(ev, k as nat),
        decreases edges.len() - k,
    {
        let e = &edges[k];
        assert(ev[k as int] == e@);
        if e.via_shared {
            match strong_path(&edges, &e.to, &e.from) {
                Some(path) => {
                    let d = word_cycle(e, &path);
                    proof {
                        lemma_diag_views_push(diags@, d);
                    }
                    diags.push(d);
                },
                None => {},
            }
        }
        k = k + 1;
        assert(diag_views(diags@) =~= before + cycle_diags(ev, k as nat));
    }
}

proof fn lemma_edges_deeper(
    t: TypeTable,
    id: TyId,
    via: bool,
    from: NodeView,
    span: Span,
    f: nat,
    g: nat,
)
    requires
        t.wf(),
        f > id.0 || f >= t.kinds@.len(),
        g > id.0 || g >= t.kinds@.len(),
    ensures
        edges_of(t, id, via, from, span, f) == edges_of(t, id, via, from, span, g),
    decreases id.0, 3nat, 0nat,
{
    if id.0 < t.kinds@.len() {
        assert(parts_below(t.kinds@[id.0 as int], id.0 as nat));
        let f1 = (f - 1) as nat;
        let g1 = (g - 1) as nat;
        match t.at(id) {
            Some(TyKind::Shared(x)) => {
                lemma_edges_deeper(t, x, true, from, span, f1, g1);
            },
            Some(TyKind::List(x))
            | Some(TyKind::Pool(x))
            | Some(TyKind::Wrapping(x))
            | Some(TyKind::Distinct(x))
            | Some(TyKind::Range(x)) => {
                lemma_edges_deeper(t, x, via, from, span, f1, g1);
            },
            Some(TyKind::Tuple(ts)) => {
                lemma_list_deeper(t, ts@, ts@.len(), id.0 as nat, via, from, span, f1, g1);
            },
            Some(TyKind::ErrUnion(a, row)) => {
                lemma_edges_deeper(t, a, via, from, span, f1, g1);
                lemma_edges_deeper(t, row, via, from, span, f1, g1);
            },
            Some(TyKind::Row { tags, .. }) => {
                lemma_tags_deeper(t, tags@, tags@.len(), id.0 as nat, via, from, span, f1, g1);
            },
            _ => {},
        }
    }
}

proof fn lemma_list_deeper(
    t: TypeTable,
    ids: Seq<TyId>,
    n: nat,
    below: nat,
    via: bool,
    from: NodeView,
    span: Span,
    f: nat,
    g: nat,
)
    requires
        t.wf(),
        n <= ids.len(),
        all_below(ids, below),
        f >= below,
        g >= below,
    ensures
        edges_of_list(t, ids, n, via, from, span, f) == edges_of_list(
            t,
            ids,
            n,
            via,
            from,
            span,
            g,
        ),
    decreases below, 1nat, n,
{
    if n > 0 {
        lemma_list_deeper(t, ids, (n - 1) as nat, below, via, from, span, f, g);
        assert(ids[n - 1].0 < below);
        lemma_edges_deeper(t, ids[n - 1], via, from, span, f, g);
    }
}

proof fn lemma_tags_deeper(
    t: TypeTable,
    tags: Seq<(String, Vec<TyId>)>,
    n: nat,
    below: nat,
    via: bool,
    from: NodeView,
    span: Span,
    f: nat,
    g: nat,
)
    requires
        t.wf(),
        n <= tags.len(),
        forall|i: int| 0 <= i < tags.len() ==> all_below((#[trigger] tags[i]).1@, below),
        f >= below,
        g >= below,
    ensures
        edges_of_tags(t, tags, n, via, from, span, f) == edges_of_tags(
            t,
            tags,
            n,
            via,
            from,
            span,
            g,
        ),
    decreases below, 2nat, n,
{
    if n > 0 {
        lemma_tags_deeper(t, tags, (n - 1) as nat, below, via, from, span, f, g);
        let ids = tags[n - 1].1@;
        assert(all_below(ids, below));
        lemma_list_deeper(t, ids, ids.len(), below, via, from, span, f, g);
    }
}

/// No edge is too deep to be followed: looking deeper than the table is
/// long finds nothing more.
pub proof fn law_no_edge_is_too_deep(
    t: TypeTable,
    id: TyId,
    via: bool,
    from: NodeView,
    span: Span,
    depth: nat,
)
    requires
        t.wf(),
        depth >= t.kinds@.len(),
    ensures
        edges_of(t, id, via, from, span, depth) == edges_of(
            t,
            id,
            via,
            from,
            span,
            t.kinds@.len(),
        ),
{
    lemma_edges_deeper(t, id, via, from, span, depth, t.kinds@.len());
}

// ------------------------------------------------------- what an edge is --

/// A value of the type holds a value of the part strongly: by embedding
/// it, or through a count that keeps it alive.
pub open spec fn strong_part(k: TyKind, x: TyId) -> bool {
    match k {
        TyKind::Shared(y)
        | TyKind::List(y)
        | TyKind::Pool(y)
        | TyKind::Wrapping(y)
        | TyKind::Distinct(y)
        | TyKind::Range(y) => x == y,
        TyKind::Tuple(ts) => ts@.contains(x),
        TyKind::ErrUnion(a, row) => x == a || x == row,
        TyKind::Row { tags, .. } => exists|i: int|
            0 <= i < tags@.len() && (#[trigger] tags@[i]).1@.contains(x),
        _ => false,
    }
}

/// The type holds the named one strongly, `n` parts down; `crossing` tells
/// whether a `shared` count lies on the way.
pub open spec fn holds_in(t: TypeTable, id: TyId, to: NodeView, crossing: bool, n: nat) -> bool
    decreases n,
{
    match t.at(id) {
        None => false,
        Some(TyKind::Nominal { module, name, .. }) => n == 0 && !crossing && to == (NodeView {
            module,
            name: name@,
        }),
        Some(k) => n > 0 && exists|x: TyId| #[trigger]
            strong_part(k, x) && if k is Shared {
                crossing && (holds_in(t, x, to, true, (n - 1) as nat) || holds_in(
                    t,
                    x,
                    to,
                    false,
                    (n - 1) as nat,
                ))
            } else {
                holds_in(t, x, to, crossing, (n - 1) as nat)
            },
    }
}

pub open spec fn holds(t: TypeTable, id: TyId, to: NodeView, crossing: bool) -> bool {
    exists|n: nat| holds_in(t, id, to, crossing, n)
}

/// Some edge goes to the node, marked or not.
pub open spec fn has_edge(es: Seq<EdgeView>, to: NodeView, marked: bool) -> bool {
    exists|i: int| 0 <= i < es.len() && (#[trigger] es[i]).to == to && es[i].via_shared == marked
}

/// Every edge leaves from the node, and is anchored at the span.
pub open spec fn all_from(es: Seq<EdgeView>, from: NodeView, span: Span) -> bool {
    forall|i: int| 0 <= i < es.len() ==> (#[trigger] es[i]).from == from && es[i].span == span
}

proof fn lemma_has_edge_add(a: Seq<EdgeView>, b: Seq<EdgeView>, to: NodeView, v: bool)
    ensures
        has_edge(a + b, to, v) <==> has_edge(a, to, v) || has_edge(b, to, v),
{
    let s = a + b;
    if has_edge(a, to, v) {
        let i = choose|i: int| 0 <= i < a.len() && (#[trigger] a[i]).to == to && a[i].via_shared == v;
        assert(s[i] == a[i]);
    }
    if has_edge(b, to, v) {
        let i = choose|i: int| 0 <= i < b.len() && (#[trigger] b[i]).to == to && b[i].via_shared == v;
        assert(s[a.len() + i] == b[i]);
    }
    if has_edge(s, to, v) {
        let i = choose|i: int| 0 <= i < s.len() && (#[trigger] s[i]).to == to && s[i].via_shared == v;
        if i < a.len() {
            assert(a[i] == s[i]);
        } else {
            assert(b[i - a.len()] == s[i]);
        }
    }
}

proof fn lemma_list_edges(
    t: TypeTable,
    ids: Seq<TyId>,
    n: nat,
    via: bool,
    from: NodeView,
    span: Span,
    fuel: nat,
    to: NodeView,
    v: bool,
)
    requires
        n <= ids.len(),
    ensures
        has_edge(edges_of_list(t, ids, n, via, from, span, fuel).0, to, v) <==> exists|i: int|
            0 <= i < n && has_edge(
                edges_of(t, #[trigger] ids[i], via, from, span, fuel).0,
                to,
                v,
            ),
    decreases n,
{
    if n > 0 {
        lemma_list_edges(t, ids, (n - 1) as nat, via, from, span, fuel, to, v);
        lemma_has_edge_add(
            edges_of_list(t, ids, (n - 1) as nat, via, from, span, fuel).0,
            edges_of(t, ids[n - 1], via, from, span, fuel).0,
            to,
            v,
        );
        if has_edge(edges_of(t, ids[n - 1], via, from, span, fuel).0, to, v) {
            let k = n - 1;
            assert(0 <= k < n && has_edge(
                edges_of(t, ids[k], via, from, span, fuel).0,
                to,
                v,
            ));
        }
    }
}

proof fn lemma_tag_edges(
    t: TypeTable,
    tags: Seq<(String, Vec<TyId>)>,
    n: nat,
    via: bool,
    from: NodeView,
    span: Span,
    fuel: nat,
    to: NodeView,
    v: bool,
)
    requires
        n <= tags.len(),
    ensures
        has_edge(edges_of_tags(t, tags, n, via, from, span, fuel).0, to, v) <==> exists|i: int, x: TyId|
            0 <= i < n && (#[trigger] tags[i]).1@.contains(x) && has_edge(
                (#[trigger] edges_of(t, x, via, from, span, fuel)).0,
                to,
                v,
            ),
    decreases n,
{
    if n > 0 {
        lemma_tag_edges(t, tags, (n - 1) as nat, via, from, span, fuel, to, v);
        let ids = tags[n - 1].1@;
        lemma_list_edges(t, ids, ids.len(), via, from, span, fuel, to, v);
        lemma_has_edge_add(
            edges_of_tags(t, tags, (n - 1) as nat, via, from, span, fuel).0,
            edges_of_list(t, ids, ids.len(), via, from, span, fuel).0,
            to,
            v,
        );
        if has_edge(edges_of_list(t, ids, ids.len(), via, from, span, fuel).0, to, v) {
            let i = choose|i: int|
                0 <= i < ids.len() && has_edge(
                    edges_of(t, #[trigger] ids[i], via, from, span, fuel).0,
                    to,
                    v,
                );
            let k = n - 1;
            assert(tags[k].1@.contains(ids[i]));
            assert(has_edge(edges_of(t, ids[i], via, from, span, fuel).0, to, v));
        }
    }
}

/// The edges out of a type expression are exactly its strong holdings: one
/// to every named type that it holds strongly, by value or through a
/// `shared` count, marked as crossing iff a `shared` count lies on the way
/// (or lay on it already); and every one leaves from the item that spells
/// the expression.
pub proof fn law_edges_are_holdings(
    t: TypeTable,
    id: TyId,
    via: bool,
    from: NodeView,
    span: Span,
    fuel: nat,
    to: NodeView,
    marked: bool,
)
    requires
        t.wf(),
        fuel > id.0 || fuel >= t.kinds@.len(),
    ensures
        has_edge(edges_of(t, id, via, from, span, fuel).0, to, marked) <==> (exists|crossing: bool|
            marked == (via || crossing) && #[trigger] holds(t, id, to, crossing)),
        all_from(edges_of(t, id, via, from, span, fuel).0, from, span),
    decreases id.0,
{
    let es = edges_of(t, id, via, from, span, fuel).0;
    lemma_edges_leave_from(t, id, via, from, span, fuel);
    match t.at(id) {
        None => {
            assert forall|crossing: bool| !(#[trigger] holds(t, id, to, crossing)) by {
                assert forall|n: nat| !(#[trigger] holds_in(t, id, to, crossing, n)) by {}
            }
        },
        Some(TyKind::Nominal { module, name, .. }) => {
            let node = NodeView { module, name: name@ };
            assert(es.len() == 1 && es[0].to == node && es[0].via_shared == via);
            if to == node {
                assert(holds_in(t, id, to, false, 0));
                assert(holds(t, id, to, false));
            }
            if has_edge(es, to, marked) {
                assert(to == node);
            }
            assert forall|crossing: bool| #[trigger] holds(t, id, to, crossing) implies !crossing && to
                == node by {
                let n = choose|n: nat| holds_in(t, id, to, crossing, n);
            }
        },
        Some(k) => {
            let below = (fuel - 1) as nat;
            assert(parts_below(t.kinds@[id.0 as int], id.0 as nat));
            assert forall|x: TyId| strong_part(k, x) implies #[trigger] x.0 < id.0 by {
                lemma_part_below(k, x, id.0 as nat);
            }
            let on = via || k is Shared;
            lemma_edges_of_parts(t, id, k, via, from, span, fuel, to, marked);
            if has_edge(es, to, marked) {
                let x = choose|x: TyId| #[trigger]
                    strong_part(k, x) && has_edge(
                        edges_of(t, x, on, from, span, below).0,
                        to,
                        marked,
                    );
                assert(x.0 < id.0);
                law_edges_are_holdings(t, x, on, from, span, below, to, marked);
                let c = choose|c: bool| marked == (on || c) && #[trigger] holds(t, x, to, c);
                let n = choose|n: nat| holds_in(t, x, to, c, n);
                let crossing = k is Shared || c;
                assert(strong_part(k, x));
                assert(holds_in(t, id, to, crossing, n + 1));
                assert(holds(t, id, to, crossing));
            }
            if exists|crossing: bool|
                marked == (via || crossing) && #[trigger] holds(t, id, to, crossing) {
                let crossing = choose|crossing: bool|
                    marked == (via || crossing) && #[trigger] holds(t, id, to, crossing);
                let n = choose|n: nat| holds_in(t, id, to, crossing, n);
                let m = (n - 1) as nat;
                let x = choose|x: TyId| #[trigger]
                    strong_part(k, x) && if k is Shared {
                        crossing && (holds_in(t, x, to, true, m) || holds_in(t, x, to, false, m))
                    } else {
                        holds_in(t, x, to, crossing, m)
                    };
                let c = if k is Shared {
                    holds_in(t, x, to, true, m)
                } else {
                    crossing
                };
                assert(holds(t, x, to, c));
                assert(x.0 < id.0);
                law_edges_are_holdings(t, x, on, from, span, below, to, marked);
                assert(strong_part(k, x));
            }
        },
    }
}

proof fn lemma_part_below(k: TyKind, x: TyId, id: nat)
    requires
        parts_below(k, id),
        strong_part(k, x),
    ensures
        x.0 < id,
{
    match k {
        TyKind::Tuple(ts) => {
            let i = choose|i: int| 0 <= i < ts@.len() && ts@[i] == x;
            assert(ts@[i].0 < id);
        },
        TyKind::Row { tags, .. } => {
            let i = choose|i: int| 0 <= i < tags@.len() && (#[trigger] tags@[i]).1@.contains(x);
            let ids = tags@[i].1@;
            assert(all_below(ids, id));
            let j = choose|j: int| 0 <= j < ids.len() && ids[j] == x;
            assert(ids[j].0 < id);
        },
        _ => {},
    }
}

proof fn lemma_edges_of_parts(
    t: TypeTable,
    id: TyId,
    k: TyKind,
    via: bool,
    from: NodeView,
    span: Span,
    fuel: nat,
    to: NodeView,
    v: bool,
)
    requires
        t.at(id) == Some(k),
        !(k is Nominal),
        fuel > 0,
    ensures
        has_edge(edges_of(t, id, via, from, span, fuel).0, to, v) <==> exists|x: TyId| #[trigger]
            strong_part(k, x) && has_edge(
                edges_of(t, x, via || k is Shared, from, span, (fuel - 1) as nat).0,
                to,
                v,
            ),
{
    let below = (fuel - 1) as nat;
    let es = edges_of(t, id, via, from, span, fuel).0;
    match k {
        TyKind::Shared(x)
        | TyKind::List(x)
        | TyKind::Pool(x)
        | TyKind::Wrapping(x)
        | TyKind::Distinct(x)
        | TyKind::Range(x) => {
            assert(strong_part(k, x));
        },
        TyKind::Tuple(ts) => {
            lemma_list_edges(t, ts@, ts@.len(), via, from, span, below, to, v);
            if has_edge(es, to, v) {
                let i = choose|i: int|
                    0 <= i < ts@.len() && has_edge(
                        edges_of(t, #[trigger] ts@[i], via, from, span, below).0,
                        to,
                        v,
                    );
                assert(strong_part(k, ts@[i]));
            }
        },
        TyKind::ErrUnion(a, row) => {
            lemma_has_edge_add(
                edges_of(t, a, via, from, span, below).0,
                edges_of(t, row, via, from, span, below).0,
                to,
                v,
            );
            assert(strong_part(k, a));
            assert(strong_part(k, row));
        },
        TyKind::Row { tags, .. } => {
            lemma_tag_edges(t, tags@, tags@.len(), via, from, span, below, to, v);
            if has_edge(es, to, v) {
                let (i, x) = choose|i: int, x: TyId|
                    0 <= i < tags@.len() && (#[trigger] tags@[i]).1@.contains(x) && has_edge(
                        (#[trigger] edges_of(t, x, via, from, span, below)).0,
                        to,
                        v,
                    );
                assert(strong_part(k, x));
            }
        },
        _ => {},
    }
}

proof fn lemma_list_leaves_from(
    t: TypeTable,
    ids: Seq<TyId>,
    n: nat,
    via: bool,
    from: NodeView,
    span: Span,
    fuel: nat,
)
    ensures
        all_from(edges_of_list(t, ids, n, via, from, span, fuel).0, from, span),
    decreases fuel, 1nat, n,
{
    if n > 0 {
        lemma_list_leaves_from(t, ids, (n - 1) as nat, via, from, span, fuel);
        lemma_edges_leave_from(t, ids[n - 1], via, from, span, fuel);
    }
}

proof fn lemma_tags_leave_from(
    t: TypeTable,
    tags: Seq<(String, Vec<TyId>)>,
    n: nat,
    via: bool,
    from: NodeView,
    span: Span,
    fuel: nat,
)
    ensures
        all_from(edges_of_tags(t, tags, n, via, from, span, fuel).0, from, span),
    decreases fuel, 2nat, n,
{
    if n > 0 {
        lemma_tags_leave_from(t, tags, (n - 1) as nat, via, from, span, fuel);
        let ids = tags[n - 1].1@;
        lemma_list_leaves_from(t, ids, ids.len(), via, from, span, fuel);
    }
}

proof fn lemma_edges_leave_from(
    t: TypeTable,
    id: TyId,
    via: bool,
    from: NodeView,
    span: Span,
    fuel: nat,
)
    ensures
        all_from(edges_of(t, id, via, from, span, fuel).0, from, span),
    decreases fuel, 0nat, 0nat,
{
    if fuel > 0 {
        let below = (fuel - 1) as nat;
        match t.at(id) {
            Some(TyKind::Shared(x)) => {
                lemma_edges_leave_from(t, x, true, from, span, below);
                lemma_edges_leave_from(t, x, via, from, span, below);
            },
            Some(TyKind::List(x))
            | Some(TyKind::Pool(x))
            | Some(TyKind::Wrapping(x))
            | Some(TyKind::Distinct(x))
            | Some(TyKind::Range(x)) => {
                lemma_edges_leave_from(t, x, via, from, span, below);
            },
            Some(TyKind::Tuple(ts)) => {
                lemma_list_leaves_from(t, ts@, ts@.len(), via, from, span, below);
            },
            Some(TyKind::ErrUnion(a, row)) => {
                lemma_edges_leave_from(t, a, via, from, span, below);
                lemma_edges_leave_from(t, row, via, from, span, below);
            },
            Some(TyKind::Row { tags, .. }) => {
                lemma_tags_leave_from(t, tags@, tags@.len(), via, from, span, below);
            },
            _ => {},
        }
    }
}

proof fn lemma_field_edge(t: TypeTable, fs: Seq<FieldSig>, from: NodeView, n: nat, i: int, x: EdgeView)
    requires
        0 <= i < n <= fs.len(),
        edges_of(t, fs[i].ty, false, from, fs[i].span, t.kinds@.len()).0.contains(x),
    ensures
        field_edges(t, fs, from, n).0.contains(x),
    decreases n,
{
    let a = field_edges(t, fs, from, (n - 1) as nat).0;
    let b = edges_of(t, fs[n - 1].ty, false, from, fs[n - 1].span, t.kinds@.len()).0;
    if i < n - 1 {
        lemma_field_edge(t, fs, from, (n - 1) as nat, i, x);
        let k = choose|k: int| 0 <= k < a.len() && a[k] == x;
        assert((a + b)[k] == x);
    } else {
        let k = choose|k: int| 0 <= k < b.len() && b[k] == x;
        assert((a + b)[a.len() + k] == x);
    }
}

proof fn lemma_variant_edge(
    t: TypeTable,
    vs: Seq<VariantSig>,
    from: NodeView,
    n: nat,
    i: int,
    x: EdgeView,
)
    requires
        0 <= i < n <= vs.len(),
        edges_of_list(
            t,
            vs[i].payload@,
            vs[i].payload@.len(),
            false,
            from,
            vs[i].span,
            t.kinds@.len(),
        ).0.contains(x),
    ensures
        variant_edges(t, vs, from, n).0.contains(x),
    decreases n,
{
    let a = variant_edges(t, vs, from, (n - 1) as nat).0;
    let b = edges_of_list(
        t,
        vs[n - 1].payload@,
        vs[n - 1].payload@.len(),
        false,
        from,
        vs[n - 1].span,
        t.kinds@.len(),
    ).0;
    if i < n - 1 {
        lemma_variant_edge(t, vs, from, (n - 1) as nat, i, x);
        let k = choose|k: int| 0 <= k < a.len() && a[k] == x;
        assert((a + b)[k] == x);
    } else {
        let k = choose|k: int| 0 <= k < b.len() && b[k] == x;
        assert((a + b)[a.len() + k] == x);
    }
}

proof fn lemma_item_edge(t: TypeTable, m: u32, items: Seq<ItemEntry>, n: nat, i: int, x: EdgeView)
    requires
        0 <= i < n <= items.len(),
        item_edges(t, m, items[i]).0.contains(x),
    ensures
        module_edges(t, m, items, n).0.contains(x),
    decreases n,
{
    let a = module_edges(t, m, items, (n - 1) as nat).0;
    let b = item_edges(t, m, items[n - 1]).0;
    if i < n - 1 {
        lemma_item_edge(t, m, items, (n - 1) as nat, i, x);
        let k = choose|k: int| 0 <= k < a.len() && a[k] == x;
        assert((a + b)[k] == x);
    } else {
        let k = choose|k: int| 0 <= k < b.len() && b[k] == x;
        assert((a + b)[a.len() + k] == x);
    }
}

proof fn lemma_module_edge(sigs: SigTables, n: nat, m: int, x: EdgeView)
    requires
        0 <= m < n <= sigs.modules@.len(),
        module_edges(
            sigs.table,
            m as u32,
            sigs.modules@[m]@,
            sigs.modules@[m]@.len(),
        ).0.contains(x),
    ensures
        all_edges(sigs, n).0.contains(x),
    decreases n,
{
    let a = all_edges(sigs, (n - 1) as nat).0;
    let b = module_edges(
        sigs.table,
        (n - 1) as u32,
        sigs.modules@[n - 1]@,
        sigs.modules@[n - 1]@.len(),
    ).0;
    if m < n - 1 {
        lemma_module_edge(sigs, (n - 1) as nat, m, x);
        let k = choose|k: int| 0 <= k < a.len() && a[k] == x;
        assert((a + b)[k] == x);
    } else {
        let k = choose|k: int| 0 <= k < b.len() && b[k] == x;
        assert((a + b)[a.len() + k] == x);
    }
}

proof fn lemma_cycle_reported(edges: Seq<EdgeView>, n: nat, i: int)
    requires
        0 <= i < n <= edges.len(),
        edges[i].via_shared,
        reaches(edges, edges[i].to, edges[i].from),
    ensures
        exists|k: int|
            0 <= k < cycle_diags(edges, n).len() && (#[trigger] cycle_diags(edges, n)[k]).code
                == Code::E1006 && cycle_diags(edges, n)[k].primary == edges[i].span,
    decreases n,
{
    let rest = cycle_diags(edges, (n - 1) as nat);
    if i < n - 1 {
        lemma_cycle_reported(edges, (n - 1) as nat, i);
        let k = choose|k: int|
            0 <= k < rest.len() && (#[trigger] rest[k]).code == Code::E1006 && rest[k].primary
                == edges[i].span;
        assert(cycle_diags(edges, n)[k] == rest[k]);
    } else {
        law_path_iff_reachable(edges, edges[i].to, edges[i].from);
        assert(cycle_diags(edges, n)[rest.len() as int].code == Code::E1006);
    }
}

/// The item spells the type expression in one of its fields or variants,
/// there.
pub open spec fn spells(e: ItemEntry, ty: TyId, span: Span) -> bool {
    match e.sig {
        ItemSig::Struct(ss) => exists|i: int|
            0 <= i < ss.fields@.len() && (#[trigger] ss.fields@[i]).ty == ty && ss.fields@[i].span
                == span,
        ItemSig::Enum(vs) => exists|i: int|
            0 <= i < vs@.len() && (#[trigger] vs@[i]).payload@.contains(ty) && vs@[i].span == span,
        _ => false,
    }
}

/// Some E1006 is reported at the span.
pub open spec fn cycle_at(ds: Seq<DiagView>, span: Span) -> bool {
    exists|k: int| 0 <= k < ds.len() && (#[trigger] ds[k]).code == Code::E1006 && ds[k].primary
        == span
}

proof fn lemma_spelled_edge(sigs: SigTables, m: int, i: int, ty: TyId, span: Span, to: NodeView)
    requires
        sigs.table.wf(),
        0 <= m < sigs.modules@.len(),
        0 <= i < sigs.modules@[m]@.len(),
        spells(sigs.modules@[m]@[i], ty, span),
        holds(sigs.table, ty, to, true),
    ensures
        all_edges(sigs, sigs.modules@.len()).0.contains(
            EdgeView {
                from: NodeView { module: m as u32, name: sigs.modules@[m]@[i].name@ },
                to,
                via_shared: true,
                span,
            },
        ),
{
    let t = sigs.table;
    let items = sigs.modules@[m]@;
    let e = items[i];
    let from = NodeView { module: m as u32, name: e.name@ };
    let x = EdgeView { from, to, via_shared: true, span };
    law_edges_are_holdings(t, ty, false, from, span, t.kinds@.len(), to, true);
    let es = edges_of(t, ty, false, from, span, t.kinds@.len()).0;
    assert(has_edge(es, to, true));
    let k = choose|k: int| 0 <= k < es.len() && (#[trigger] es[k]).to == to && es[k].via_shared;
    assert(es[k] == x);
    match e.sig {
        ItemSig::Struct(ss) => {
            let fs = ss.fields@;
            let j = choose|j: int|
                0 <= j < fs.len() && (#[trigger] fs[j]).ty == ty && fs[j].span == span;
            lemma_field_edge(t, fs, from, fs.len(), j, x);
        },
        ItemSig::Enum(vs) => {
            let j = choose|j: int|
                0 <= j < vs@.len() && (#[trigger] vs@[j]).payload@.contains(ty) && vs@[j].span
                    == span;
            let ids = vs@[j].payload@;
            let q = choose|q: int| 0 <= q < ids.len() && ids[q] == ty;
            lemma_list_edges(t, ids, ids.len(), false, from, span, t.kinds@.len(), to, true);
            assert(has_edge(edges_of(t, ids[q], false, from, span, t.kinds@.len()).0, to, true));
            lemma_list_leaves_from(t, ids, ids.len(), false, from, span, t.kinds@.len());
            let ls = edges_of_list(t, ids, ids.len(), false, from, span, t.kinds@.len()).0;
            let r = choose|r: int|
                0 <= r < ls.len() && (#[trigger] ls[r]).to == to && ls[r].via_shared;
            assert(ls[r] == x);
            lemma_variant_edge(t, vs@, from, vs@.len(), j, x);
        },
        _ => {},
    }
    lemma_item_edge(t, m as u32, items, items.len(), i, x);
    lemma_module_edge(sigs, sigs.modules@.len(), m, x);
}

/// An item that holds another one through a `shared` count, from where
/// strong holdings lead back to it, is reported where it spells that.
pub proof fn law_strong_cycle_is_reported(
    sigs: SigTables,
    m: int,
    i: int,
    ty: TyId,
    span: Span,
    to: NodeView,
)
    requires
        sigs.table.wf(),
        0 <= m < sigs.modules@.len(),
        0 <= i < sigs.modules@[m]@.len(),
        spells(sigs.modules@[m]@[i], ty, span),
        holds(sigs.table, ty, to, true),
        reaches(
            all_edges(sigs, sigs.modules@.len()).0,
            to,
            NodeView { module: m as u32, name: sigs.modules@[m]@[i].name@ },
        ),
    ensures
        cycle_at(shared_diags(sigs), span),
{
    lemma_spelled_edge(sigs, m, i, ty, span, to);
    let edges = all_edges(sigs, sigs.modules@.len()).0;
    let from = NodeView { module: m as u32, name: sigs.modules@[m]@[i].name@ };
    let x = EdgeView { from, to, via_shared: true, span };
    let k = choose|k: int| 0 <= k < edges.len() && edges[k] == x;
    lemma_cycle_reported(edges, edges.len(), k);
}

/// An item that spells a `shared` reference to itself is reported there.
pub proof fn law_shared_self_is_reported(sigs: SigTables, m: int, i: int, ty: TyId, span: Span)
    requires
        sigs.table.wf(),
        0 <= m < sigs.modules@.len(),
        0 <= i < sigs.modules@[m]@.len(),
        spells(sigs.modules@[m]@[i], ty, span),
        sigs.table.at(ty) matches Some(TyKind::Shared(x)) && (sigs.table.at(x) matches Some(
            TyKind::Nominal { module, name, .. },
        ) && module == m as u32 && name@ == sigs.modules@[m]@[i].name@),
    ensures
        cycle_at(shared_diags(sigs), span),
{
    let me = NodeView { module: m as u32, name: sigs.modules@[m]@[i].name@ };
    let t = sigs.table;
    match t.at(ty) {
        Some(TyKind::Shared(x)) => {
            assert(holds_in(t, x, me, false, 0));
            assert(strong_part(TyKind::Shared(x), x));
            assert(holds_in(t, ty, me, true, 1));
        },
        _ => {},
    }
    assert(holds(t, ty, me, true));
    let edges = all_edges(sigs, sigs.modules@.len()).0;
    assert(reaches_in(edges, me, me, 0));
    law_strong_cycle_is_reported(sigs, m, i, ty, span, me);
}

/// Two items that hold each other through `shared` counts are both
/// reported, each where it spells the other.
pub proof fn law_shared_pair_is_reported(
    sigs: SigTables,
    m: int,
    i: int,
    ty: TyId,
    span: Span,
    n: int,
    j: int,
    back: TyId,
    there: Span,
)
    requires
        sigs.table.wf(),
        0 <= m < sigs.modules@.len(),
        0 <= i < sigs.modules@[m]@.len(),
        0 <= n < sigs.modules@.len(),
        0 <= j < sigs.modules@[n]@.len(),
        spells(sigs.modules@[m]@[i], ty, span),
        spells(sigs.modules@[n]@[j], back, there),
        holds(
            sigs.table,
            ty,
            NodeView { module: n as u32, name: sigs.modules@[n]@[j].name@ },
            true,
        ),
        holds(
            sigs.table,
            back,
            NodeView { module: m as u32, name: sigs.modules@[m]@[i].name@ },
            true,
        ),
    ensures
        cycle_at(shared_diags(sigs), span),
        cycle_at(shared_diags(sigs), there),
{
    let a = NodeView { module: m as u32, name: sigs.modules@[m]@[i].name@ };
    let b = NodeView { module: n as u32, name: sigs.modules@[n]@[j].name@ };
    let edges = all_edges(sigs, sigs.modules@.len()).0;
    lemma_spelled_edge(sigs, m, i, ty, span, b);
    lemma_spelled_edge(sigs, n, j, back, there, a);
    let there_and = choose|k: int|
        0 <= k < edges.len() && edges[k] == (EdgeView { from: a, to: b, via_shared: true, span });
    let and_back = choose|k: int|
        0 <= k < edges.len() && edges[k] == (EdgeView {
            from: b,
            to: a,
            via_shared: true,
            span: there,
        });
    assert(edges[there_and].from == a && edges[and_back].from == b);
    assert(strong_step(edges, a, b));
    assert(strong_step(edges, b, a));
    assert(reaches_in(edges, a, a, 0));
    assert(reaches_in(edges, b, b, 0));
    assert(reaches_in(edges, a, b, 1));
    assert(reaches_in(edges, b, a, 1));
    law_strong_cycle_is_reported(sigs, m, i, ty, span, b);
    law_strong_cycle_is_reported(sigs, n, j, back, there, a);
}

} // verus!
