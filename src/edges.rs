//! The dependency edges of one snapshot that the workspace's direct
//! dependencies contribute.
use vstd::prelude::*;
use crate::features::{propagate, propagated};
use crate::matcher::{best_in, best_match};
use crate::snapshot::{node_resolves, package_index, Dependency, Node, Snapshot};
use crate::text::{contains_text, holds_str, views};

verus! {

/// A parent package, the features it enables on a dependency, and that
/// dependency; both packages are given by their position in the snapshot.
pub struct Edge {
    pub parent: usize,
    pub features: Vec<String>,
    pub dependency: usize,
}

/// What an edge states: parent, features, dependency.
pub type EdgeView = (int, Seq<Seq<char>>, int);

pub open spec fn edge_view(e: Edge) -> EdgeView {
    (e.parent as int, views(e.features@), e.dependency as int)
}

pub open spec fn edges_view(es: Seq<Edge>) -> Seq<EdgeView> {
    es.map_values(|e: Edge| edge_view(e))
}

/// `id` is a direct dependency of a workspace member: the node of a member
/// lists it among its dependencies.
pub open spec fn first_level(s: Snapshot, id: Seq<char>) -> bool {
    exists|i: int, j: int|
        0 <= i < s.nodes@.len() && holds_str(s.workspace_members@, s.nodes@[i].id@) && 0 <= j
            < s.nodes@[i].dependencies@.len() && #[trigger] s.nodes@[i].dependencies@[j]@ == id
}

/// The edges from the package at `parent`, with the features `enabled` on,
/// to each of the dependencies `deps` that resolves, in order.
pub open spec fn dep_edges(s: Snapshot, parent: int, enabled: Seq<String>, deps: Seq<Dependency>) -> Seq<EdgeView>
    decreases deps.len(),
{
    if deps.len() == 0 {
        Seq::empty()
    } else {
        let rest = dep_edges(s, parent, enabled, deps.drop_last());
        match best_in(s.packages@, deps.last()) {
            Some(k) => rest.push(
                (parent, propagated(s.packages@[parent].features@, enabled, s.packages@[k].name@), k),
            ),
            None => rest,
        }
    }
}

/// The edges that node `n` contributes: none unless its package is a direct
/// dependency of a workspace member.
pub open spec fn node_edges(s: Snapshot, n: Node) -> Seq<EdgeView> {
    if first_level(s, n.id@) {
        let p = package_index(s.packages@, n.id@);
        dep_edges(s, p, n.features@, s.packages@[p].dependencies@)
    } else {
        Seq::empty()
    }
}

/// The edges of the nodes `nodes` of `s`, node after node.
pub open spec fn nodes_edges(s: Snapshot, nodes: Seq<Node>) -> Seq<EdgeView>
    decreases nodes.len(),
{
    if nodes.len() == 0 {
        Seq::empty()
    } else {
        nodes_edges(s, nodes.drop_last()) + node_edges(s, nodes.last())
    }
}

/// The edges of snapshot `s`.
pub open spec fn edges_of(s: Snapshot) -> Seq<EdgeView> {
    nodes_edges(s, s.nodes@)
}

/// Whether `id` is a direct dependency of a workspace member.
pub fn is_first_level(s: &Snapshot, id: &String) -> (r: bool)
    ensures
        r == first_level(*s, id@),
{
    let mut i: usize = 0;
    while i < s.nodes.len()
        invariant
            0 <= i <= s.nodes@.len(),
            forall|k: int, j: int|
                0 <= k < i && holds_str(s.workspace_members@, s.nodes@[k].id@) && 0 <= j
                    < s.nodes@[k].dependencies@.len() ==> #[trigger] s.nodes@[k].dependencies@[j]@
                    != id@,
        decreases s.nodes.len() - i,
    {
        let node = &s.nodes[i];
        if contains_text(&s.workspace_members, &node.id) {
            if contains_text(&node.dependencies, id) {
                return true;
            }
        }
        i = i + 1;
    }
    false
}

/// Appends to `r` the edges from the package at `p`, with the features
/// `enabled` on, to each of its declared dependencies that resolves in `s`.
fn push_parent_edges(s: &Snapshot, p: usize, enabled: &Vec<String>, r: &mut Vec<Edge>)
    requires
        p < s.packages@.len(),
        forall|m: int|
            0 <= m < old(r)@.len() ==> old(r)@[m].parent < s.packages@.len() && old(r)@[m].dependency
                < s.packages@.len(),
    ensures
        edges_view(final(r)@) == edges_view(old(r)@) + dep_edges(
            *s,
            p as int,
            enabled@,
            s.packages@[p as int].dependencies@,
        ),
        forall|m: int|
            0 <= m < final(r)@.len() ==> final(r)@[m].parent < s.packages@.len() && final(r)@[m].dependency
                < s.packages@.len(),
{
    let ghost before = edges_view(r@);
    let parent = &s.packages[p];
    let mut j: usize = 0;
    while j < parent.dependencies.len()
        invariant
            p < s.packages@.len(),
            *parent == s.packages@[p as int],
            0 <= j <= parent.dependencies@.len(),
            edges_view(r@) == before + dep_edges(
                *s,
                p as int,
                enabled@,
                parent.dependencies@.take(j as int),
            ),
            forall|m: int|
                0 <= m < r@.len() ==> r@[m].parent < s.packages@.len() && r@[m].dependency
                    < s.packages@.len(),
        decreases parent.dependencies.len() - j,
    {
        proof {
            assert(parent.dependencies@.take(j + 1).drop_last() =~= parent.dependencies@.take(
                j as int,
            ));
            assert(parent.dependencies@.take(j + 1).last() == parent.dependencies@[j as int]);
        }
        match best_match(&parent.dependencies[j], &s.packages) {
            Some(k) => {
                let feats = propagate(parent, enabled, &s.packages[k].name);
                let ghost prev = edges_view(r@);
                let ghost deps = parent.dependencies@.take(j + 1);
                r.push(Edge { parent: p, features: feats, dependency: k });
                proof {
                    let e: EdgeView = (p as int, views(feats@), k as int);
                    assert(edges_view(r@) =~= prev.push(e));
                    assert(dep_edges(*s, p as int, enabled@, deps) == dep_edges(
                        *s,
                        p as int,
                        enabled@,
                        deps.drop_last(),
                    ).push(e));
                    assert(edges_view(r@) =~= before + dep_edges(*s, p as int, enabled@, deps));
                }
            },
            None => {
                proof {
                    let deps = parent.dependencies@.take(j + 1);
                    assert(dep_edges(*s, p as int, enabled@, deps) == dep_edges(
                        *s,
                        p as int,
                        enabled@,
                        deps.drop_last(),
                    ));
                }
            },
        }
        j = j + 1;
    }
    proof {
        assert(parent.dependencies@.take(parent.dependencies@.len() as int) =~= parent.dependencies@);
    }
}

/// Appends to `r` the edges of the node at position `i`.
fn push_node_edges(s: &Snapshot, i: usize, r: &mut Vec<Edge>)
    requires
        i < s.nodes@.len(),
        node_resolves(s.packages@, s.nodes@[i as int]),
        forall|m: int|
            0 <= m < old(r)@.len() ==> old(r)@[m].parent < s.packages@.len() && old(r)@[m].dependency
                < s.packages@.len(),
    ensures
        edges_view(final(r)@) == edges_view(old(r)@) + node_edges(*s, s.nodes@[i as int]),
        forall|m: int|
            0 <= m < final(r)@.len() ==> final(r)@[m].parent < s.packages@.len() && final(r)@[m].dependency
                < s.packages@.len(),
{
    let node = &s.nodes[i];
    let ghost before = edges_view(r@);
    if is_first_level(s, &node.id) {
        match s.find_package(&node.id) {
            Some(p) => {
                push_parent_edges(s, p, &node.features, r);
            },
            None => {},
        }
    } else {
        proof {
            assert(edges_view(r@) =~= before + node_edges(*s, s.nodes@[i as int]));
        }
    }
}

/// The edges of snapshot `s`, from each node of a direct dependency of the
/// workspace to each of its declared dependencies that resolves in `s`.
pub fn collect_dependencies(s: &Snapshot) -> (r: Vec<Edge>)
    requires
        s.wf(),
    ensures
        edges_view(r@) == edges_of(*s),
        forall|i: int|
            0 <= i < r@.len() ==> r@[i].parent < s.packages@.len() && r@[i].dependency
                < s.packages@.len(),
{
    let mut r: Vec<Edge> = Vec::new();
    let mut i: usize = 0;
    while i < s.nodes.len()
        invariant
            s.wf(),
            0 <= i <= s.nodes@.len(),
            edges_view(r@) == nodes_edges(*s, s.nodes@.take(i as int)),
            forall|m: int|
                0 <= m < r@.len() ==> r@[m].parent < s.packages@.len() && r@[m].dependency
                    < s.packages@.len(),
        decreases s.nodes.len() - i,
    {
        proof {
            assert(s.nodes@.take(i + 1).drop_last() =~= s.nodes@.take(i as int));
            assert(s.nodes@.take(i + 1).last() == s.nodes@[i as int]);
            assert(node_resolves(s.packages@, s.nodes@[i as int]));
        }
        push_node_edges(s, i, &mut r);
        i = i + 1;
    }
    proof {
        assert(s.nodes@.take(s.nodes@.len() as int) =~= s.nodes@);
    }
    r
}

} // verus!
