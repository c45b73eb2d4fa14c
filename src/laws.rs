//! Properties of the comparison that hold of all inputs.
use vstd::prelude::*;
use crate::diff::{lemma_entry_order, covers, distinct_keys, parents_distinct, entry_lt, group_step, key_from, lemma_key_from, report_groups, report_of, report_of_edges, sorted_texts, within, EntryView};
use crate::edges::{dep_edges, edges_of, first_level, node_edges, nodes_edges, EdgeView};
use crate::external::url_serialization;
use crate::matcher::{same_source, without_fragment};
use crate::order::{insert_by, lemma_insert_by_keeps, lemma_sort_by_keeps, lemma_sort_by_sorted, sort_by, sorted_by};
use crate::snapshot::{lemma_package_index, node_resolves, package_index, Dependency, Node, Snapshot};

verus! {

/// A fragment after a URL's serialization changes nothing of the location
/// it names.
pub proof fn lemma_fragment_ignored(u: Seq<char>, f: Seq<char>)
    requires
        forall|i: int| 0 <= i < u.len() ==> u[i] != '#',
    ensures
        without_fragment(u + seq!['#'] + f) == u,
        without_fragment(u) == u,
{
    let w = u + seq!['#'] + f;
    assert(w[u.len() as int] == '#');
    let i = choose|i: int|
        0 <= i < w.len() && w[i] == '#' && forall|j: int| 0 <= j < i ==> w[j] != '#';
    if i < u.len() {
        assert(w[i] == u[i]);
    }
    assert(w.take(u.len() as int) =~= u);
}

/// Two sources whose URLs differ only by a trailing fragment name the same
/// location.
pub proof fn lemma_sources_ignore_fragment(x: Seq<char>, y: Seq<char>, u: Seq<char>, f: Seq<char>)
    requires
        forall|i: int| 0 <= i < u.len() ==> u[i] != '#',
        url_serialization(x) == Some(u + seq!['#'] + f),
        url_serialization(y) == Some(u),
    ensures
        same_source(Some(x), Some(y)),
        same_source(Some(y), Some(x)),
{
    lemma_fragment_ignored(u, f);
    assert(crate::matcher::source_key(x) == Some(u));
    assert(crate::matcher::source_key(y) == Some(u));
}

/// Every edge that `dep_edges` gives starts at `parent`.
#[verifier::rlimit(30)]
proof fn lemma_dep_edges_parent(s: Snapshot, parent: int, enabled: Seq<String>, deps: Seq<Dependency>)
    ensures
        forall|i: int|
            0 <= i < dep_edges(s, parent, enabled, deps).len() ==> #[trigger] dep_edges(
                s,
                parent,
                enabled,
                deps,
            )[i].0 == parent,
    decreases deps.len(),
{
    if deps.len() > 0 {
        let rest = dep_edges(s, parent, enabled, deps.drop_last());
        let all = dep_edges(s, parent, enabled, deps);
        lemma_dep_edges_parent(s, parent, enabled, deps.drop_last());
        match crate::matcher::best_in(s.packages@, deps.last()) {
            Some(k) => {
                let e = (parent, crate::features::propagated(s.packages@[parent].features@, enabled, s.packages@[k].name@), k);
                assert(all == rest.push(e));
                assert forall|i: int| 0 <= i < all.len() implies #[trigger] all[i].0 == parent by {
                    if i < rest.len() {
                        assert(all[i] == rest[i]);
                    }
                }
            },
            None => {
                assert(all == rest);
            },
        }
    }
}

/// The parent of every edge of the nodes `nodes` is a direct dependency of
/// a workspace member.
proof fn lemma_nodes_edges_first_level(s: Snapshot, nodes: Seq<Node>)
    requires
        forall|i: int| 0 <= i < nodes.len() ==> node_resolves(s.packages@, #[trigger] nodes[i]),
    ensures
        forall|i: int|
            0 <= i < nodes_edges(s, nodes).len() ==> 0 <= #[trigger] nodes_edges(s, nodes)[i].0
                < s.packages@.len() && first_level(s, s.packages@[nodes_edges(s, nodes)[i].0].id@),
    decreases nodes.len(),
{
    if nodes.len() > 0 {
        let front = nodes.drop_last();
        assert forall|i: int| 0 <= i < front.len() implies node_resolves(s.packages@, #[trigger] front[i]) by {
            assert(front[i] == nodes[i]);
        }
        lemma_nodes_edges_first_level(s, front);
        let n = nodes.last();
        assert(node_resolves(s.packages@, nodes[nodes.len() - 1]));
        let ne = node_edges(s, n);
        lemma_node_edges_first_level(s, n);
        let all = nodes_edges(s, nodes);
        let head = nodes_edges(s, front);
        assert(all == head + ne);
        assert forall|i: int| 0 <= i < all.len() implies 0 <= #[trigger] all[i].0 < s.packages@.len()
            && first_level(s, s.packages@[all[i].0].id@) by {
            if i < head.len() {
                assert(all[i] == head[i]);
            } else {
                assert(all[i] == ne[i - head.len()]);
            }
        }
    }
}

/// The parent of every edge of node `n` is a direct dependency of a
/// workspace member.
proof fn lemma_node_edges_first_level(s: Snapshot, n: Node)
    requires
        node_resolves(s.packages@, n),
    ensures
        forall|i: int|
            0 <= i < node_edges(s, n).len() ==> 0 <= #[trigger] node_edges(s, n)[i].0
                < s.packages@.len() && first_level(s, s.packages@[node_edges(s, n)[i].0].id@),
{
    if first_level(s, n.id@) {
        let p = package_index(s.packages@, n.id@);
        lemma_package_index(s.packages@, n.id@);
        lemma_dep_edges_parent(s, p, n.features@, s.packages@[p].dependencies@);
    }
}

/// Only direct dependencies of the workspace's members are parents of the
/// edges of a snapshot.
pub proof fn lemma_first_level_only(s: Snapshot)
    requires
        s.wf(),
    ensures
        forall|i: int|
            0 <= i < edges_of(s).len() ==> 0 <= #[trigger] edges_of(s)[i].0 < s.packages@.len()
                && first_level(s, s.packages@[edges_of(s)[i].0].id@),
{
    lemma_nodes_edges_first_level(s, s.nodes@);
}

/// Edge `e` of `new` is covered by no edge `olde` of `old`.
pub open spec fn uncovered(old: Snapshot, new: Snapshot, olde: Seq<EdgeView>, e: EdgeView) -> bool {
    !covers(old, olde, new.packages@[e.2].name@, e.1)
}

/// What one step of grouping keeps and adds.
pub(crate) proof fn lemma_group_step(g: Seq<EntryView>, p: int, f: Seq<Seq<char>>, d: int)
    ensures
        g.len() <= group_step(g, p, f, d).len(),
        exists|i: int|
            0 <= i < group_step(g, p, f, d).len() && (#[trigger] group_step(g, p, f, d)[i]).0 == d
                && group_step(g, p, f, d)[i].1 == f && group_step(g, p, f, d)[i].2.contains(p),
        forall|i: int|
            0 <= i < group_step(g, p, f, d).len() ==> ((#[trigger] group_step(g, p, f, d)[i]).0 == d
                && group_step(g, p, f, d)[i].1 == f) || (i < g.len() && group_step(g, p, f, d)[i]
                == g[i]),
        forall|i: int, q: int|
            0 <= i < g.len() && #[trigger] g[i].2.contains(q) ==> group_step(g, p, f, d)[i].0
                == g[i].0 && group_step(g, p, f, d)[i].1 == g[i].1 && group_step(
                g,
                p,
                f,
                d,
            )[i].2.contains(q),
        distinct_keys(g) ==> distinct_keys(group_step(g, p, f, d)),
        parents_distinct(g) ==> parents_distinct(group_step(g, p, f, d)),
{
    let gs = group_step(g, p, f, d);
    let k = key_from(g, d, f, 0);
    lemma_key_from(g, d, f, 0);
    if k < 0 {
        assert(gs == g.push((d, f, seq![p])));
        assert(gs[g.len() as int].2[0] == p);
        assert(gs[g.len() as int].2.contains(p));
        assert forall|i: int, q: int| 0 <= i < g.len() && #[trigger] g[i].2.contains(q) implies gs[i].0
            == g[i].0 && gs[i].1 == g[i].1 && gs[i].2.contains(q) by {
            assert(gs[i] == g[i]);
        }
        if distinct_keys(g) {
            assert forall|i: int, j: int|
                0 <= i < gs.len() && 0 <= j < gs.len() && i != j implies !(#[trigger] gs[i].0
                == #[trigger] gs[j].0 && gs[i].1 == gs[j].1) by {
                if i < g.len() {
                    assert(gs[i] == g[i]);
                }
                if j < g.len() {
                    assert(gs[j] == g[j]);
                }
            }
        }
        if parents_distinct(g) {
            assert forall|i: int| 0 <= i < gs.len() implies (#[trigger] gs[i]).2.no_duplicates() by {
                if i < g.len() {
                    assert(gs[i] == g[i]);
                }
            }
        }
    } else if g[k].2.contains(p) {
        assert(gs == g);
        assert(gs[k].0 == d && gs[k].1 == f && gs[k].2.contains(p));
    } else {
        let np = g[k].2.push(p);
        assert(gs == g.update(k, (d, f, np)));
        assert(np[np.len() - 1] == p);
        assert(gs[k].2.contains(p));
        assert forall|i: int, q: int| 0 <= i < g.len() && #[trigger] g[i].2.contains(q) implies gs[i].0
            == g[i].0 && gs[i].1 == g[i].1 && gs[i].2.contains(q) by {
            if i == k {
                let m = choose|m: int| 0 <= m < g[i].2.len() && g[i].2[m] == q;
                assert(np[m] == q);
            }
        }
        if distinct_keys(g) {
            assert forall|i: int, j: int|
                0 <= i < gs.len() && 0 <= j < gs.len() && i != j implies !(#[trigger] gs[i].0
                == #[trigger] gs[j].0 && gs[i].1 == gs[j].1) by {
                assert(gs[i].0 == g[i].0 && gs[i].1 == g[i].1);
                assert(gs[j].0 == g[j].0 && gs[j].1 == g[j].1);
            }
        }
        if parents_distinct(g) {
            assert forall|i: int| 0 <= i < gs.len() implies (#[trigger] gs[i]).2.no_duplicates() by {
                if i == k {
                    assert(g[k].2.no_duplicates());
                    assert forall|a: int, b: int| 0 <= a < np.len() && 0 <= b < np.len() && a != b implies np[a] != np[b] by {
                        if a < np.len() - 1 && b < np.len() - 1 {
                            assert(np[a] == g[k].2[a] && np[b] == g[k].2[b]);
                        } else if a < np.len() - 1 {
                            assert(np[a] == g[k].2[a]);
                        } else if b < np.len() - 1 {
                            assert(np[b] == g[k].2[b]);
                        }
                    }
                } else {
                    assert(gs[i] == g[i]);
                }
            }
        }
    }
}

/// What grouping the edges `newe` gives: entries of distinct keys, each
/// from an uncovered edge, each listing distinct parents, and an entry for
/// every uncovered edge that lists the edge's parent.
#[verifier::rlimit(50)]
proof fn lemma_report_groups(old: Snapshot, new: Snapshot, olde: Seq<EdgeView>, newe: Seq<EdgeView>)
    ensures
        distinct_keys(report_groups(old, new, olde, newe)),
        parents_distinct(report_groups(old, new, olde, newe)),
        forall|i: int|
            0 <= i < report_groups(old, new, olde, newe).len() ==> exists|j: int|
                0 <= j < newe.len() && uncovered(old, new, olde, newe[j]) && (#[trigger] report_groups(
                    old,
                    new,
                    olde,
                    newe,
                )[i]).0 == newe[j].2 && report_groups(old, new, olde, newe)[i].1 == sorted_texts(
                    newe[j].1,
                ),
        forall|j: int|
            0 <= j < newe.len() && uncovered(old, new, olde, #[trigger] newe[j]) ==> exists|i: int|
                0 <= i < report_groups(old, new, olde, newe).len() && report_groups(old, new, olde, newe)[i].0
                    == newe[j].2 && report_groups(old, new, olde, newe)[i].1 == sorted_texts(newe[j].1)
                    && report_groups(old, new, olde, newe)[i].2.contains(newe[j].0),
    decreases newe.len(),
{
    if newe.len() > 0 {
        let front = newe.drop_last();
        let e = newe.last();
        let g0 = report_groups(old, new, olde, front);
        let g = report_groups(old, new, olde, newe);
        lemma_report_groups(old, new, olde, front);
        if !uncovered(old, new, olde, e) {
            assert(g == g0);
            assert forall|i: int| 0 <= i < g.len() implies exists|j: int|
                0 <= j < newe.len() && uncovered(old, new, olde, newe[j]) && (#[trigger] g[i]).0 == newe[j].2
                    && g[i].1 == sorted_texts(newe[j].1) by {
                let j = choose|j: int|
                    0 <= j < front.len() && uncovered(old, new, olde, front[j]) && (#[trigger] g0[i]).0
                        == front[j].2 && g0[i].1 == sorted_texts(front[j].1);
                assert(front[j] == newe[j]);
            }
            assert forall|j: int| 0 <= j < newe.len() && uncovered(old, new, olde, #[trigger] newe[j]) implies exists|i: int|
                0 <= i < g.len() && g[i].0 == newe[j].2 && g[i].1 == sorted_texts(newe[j].1) && g[i].2.contains(
                    newe[j].0,
                ) by {
                assert(j < front.len());
                assert(front[j] == newe[j]);
                assert(uncovered(old, new, olde, front[j]));
            }
        } else {
            let f = sorted_texts(e.1);
            assert(g == group_step(g0, e.0, f, e.2));
            lemma_group_step(g0, e.0, f, e.2);
            assert forall|i: int| 0 <= i < g.len() implies exists|j: int|
                0 <= j < newe.len() && uncovered(old, new, olde, newe[j]) && (#[trigger] g[i]).0 == newe[j].2
                    && g[i].1 == sorted_texts(newe[j].1) by {
                if g[i].0 == e.2 && g[i].1 == f {
                    assert(newe[newe.len() - 1] == e);
                } else {
                    assert(g[i] == g0[i]);
                    let j = choose|j: int|
                        0 <= j < front.len() && uncovered(old, new, olde, front[j]) && (#[trigger] g0[i]).0
                            == front[j].2 && g0[i].1 == sorted_texts(front[j].1);
                    assert(front[j] == newe[j]);
                }
            }
            assert forall|j: int| 0 <= j < newe.len() && uncovered(old, new, olde, #[trigger] newe[j]) implies exists|i: int|
                0 <= i < g.len() && g[i].0 == newe[j].2 && g[i].1 == sorted_texts(newe[j].1) && g[i].2.contains(
                    newe[j].0,
                ) by {
                if j < front.len() {
                    assert(front[j] == newe[j]);
                    assert(uncovered(old, new, olde, front[j]));
                    let i = choose|i: int|
                        0 <= i < g0.len() && g0[i].0 == front[j].2 && g0[i].1 == sorted_texts(front[j].1)
                            && g0[i].2.contains(front[j].0);
                    assert(g0[i].2.contains(front[j].0));
                    assert(g[i].0 == g0[i].0 && g[i].1 == g0[i].1 && g[i].2.contains(front[j].0));
                } else {
                    assert(newe[j] == e);
                }
            }
        }
    }
}

/// Sorting a feature list changes nothing of which features it holds.
proof fn lemma_within_sorted(f: Seq<Seq<char>>, y: Seq<Seq<char>>)
    ensures
        within(sorted_texts(f), y) == within(f, y),
{
    let lt = |a: Seq<char>, b: Seq<char>| crate::text::text_lt(a, b);
    lemma_sort_by_keeps(f, lt);
    let s = sorted_texts(f);
    assert(s == sort_by(f, lt));
    if within(f, y) {
        assert forall|i: int| 0 <= i < s.len() implies y.contains(#[trigger] s[i]) by {
            assert(s.contains(s[i]));
            assert(f.contains(s[i]));
            let j = choose|j: int| 0 <= j < f.len() && f[j] == s[i];
            assert(y.contains(f[j]));
        }
    }
    if within(s, y) {
        assert forall|i: int| 0 <= i < f.len() implies y.contains(#[trigger] f[i]) by {
            assert(f.contains(f[i]));
            assert(s.contains(f[i]));
            let j = choose|j: int| 0 <= j < s.len() && s[j] == f[i];
            assert(y.contains(s[j]));
        }
    }
}

/// Inserting an entry whose key no entry has keeps the keys distinct.
proof fn lemma_insert_distinct(s: Seq<EntryView>, x: EntryView, lt: spec_fn(EntryView, EntryView) -> bool)
    requires
        distinct_keys(s),
        forall|i: int| 0 <= i < s.len() ==> !(#[trigger] s[i].0 == x.0 && s[i].1 == x.1),
    ensures
        distinct_keys(insert_by(s, x, lt)),
    decreases s.len(),
{
    let r = insert_by(s, x, lt);
    if s.len() == 0 {
        assert(r == seq![x]);
    } else if lt(x, s[0]) {
        assert(r == seq![x] + s);
        assert forall|i: int, j: int|
            0 <= i < r.len() && 0 <= j < r.len() && i != j implies !(#[trigger] r[i].0 == #[trigger] r[j].0
            && r[i].1 == r[j].1) by {
            if i > 0 {
                assert(r[i] == s[i - 1]);
            }
            if j > 0 {
                assert(r[j] == s[j - 1]);
            }
        }
    } else {
        let t = s.drop_first();
        assert forall|i: int, j: int|
            0 <= i < t.len() && 0 <= j < t.len() && i != j implies !(#[trigger] t[i].0 == #[trigger] t[j].0
            && t[i].1 == t[j].1) by {
            assert(t[i] == s[i + 1] && t[j] == s[j + 1]);
        }
        assert forall|i: int| 0 <= i < t.len() implies !(#[trigger] t[i].0 == x.0 && t[i].1 == x.1) by {
            assert(t[i] == s[i + 1]);
        }
        lemma_insert_distinct(t, x, lt);
        lemma_insert_by_keeps(t, x, lt);
        let rt = insert_by(t, x, lt);
        assert(r == seq![s[0]] + rt);
        assert forall|i: int, j: int|
            0 <= i < r.len() && 0 <= j < r.len() && i != j implies !(#[trigger] r[i].0 == #[trigger] r[j].0
            && r[i].1 == r[j].1) by {
            if i > 0 && j > 0 {
                assert(r[i] == rt[i - 1] && r[j] == rt[j - 1]);
            } else if i == 0 {
                assert(r[j] == rt[j - 1]);
                assert(rt.contains(rt[j - 1]));
                if rt[j - 1] != x {
                    let m = choose|m: int| 0 <= m < t.len() && t[m] == rt[j - 1];
                    assert(t[m] == s[m + 1]);
                }
            } else {
                assert(r[i] == rt[i - 1]);
                assert(rt.contains(rt[i - 1]));
                if rt[i - 1] != x {
                    let m = choose|m: int| 0 <= m < t.len() && t[m] == rt[i - 1];
                    assert(t[m] == s[m + 1]);
                }
            }
        }
    }
}

/// Sorting keeps the keys distinct.
proof fn lemma_sort_distinct(s: Seq<EntryView>, lt: spec_fn(EntryView, EntryView) -> bool)
    requires
        distinct_keys(s),
    ensures
        distinct_keys(sort_by(s, lt)),
    decreases s.len(),
{
    if s.len() > 0 {
        let front = s.drop_last();
        assert forall|i: int, j: int|
            0 <= i < front.len() && 0 <= j < front.len() && i != j implies !(#[trigger] front[i].0
            == #[trigger] front[j].0 && front[i].1 == front[j].1) by {
            assert(front[i] == s[i] && front[j] == s[j]);
        }
        lemma_sort_distinct(front, lt);
        lemma_sort_by_keeps(front, lt);
        let sf = sort_by(front, lt);
        let x = s.last();
        assert forall|i: int| 0 <= i < sf.len() implies !(#[trigger] sf[i].0 == x.0 && sf[i].1 == x.1) by {
            assert(sf.contains(sf[i]));
            assert(front.contains(sf[i]));
            let m = choose|m: int| 0 <= m < front.len() && front[m] == sf[i];
            assert(front[m] == s[m]);
            assert(s[s.len() - 1] == x);
        }
        lemma_insert_distinct(sf, x, lt);
    }
}

/// The entries of the report of `new` against `old` are those of its
/// groups, in another order.
proof fn lemma_report_entries(old: Snapshot, new: Snapshot, olde: Seq<EdgeView>, newe: Seq<EdgeView>)
    ensures
        forall|x: EntryView|
            #[trigger] report_of_edges(old, new, olde, newe).contains(x) <==> report_groups(
                old,
                new,
                olde,
                newe,
            ).contains(x),
        distinct_keys(report_of_edges(old, new, olde, newe)),
{
    let lt = |a: EntryView, b: EntryView| entry_lt(new, a, b);
    lemma_sort_by_keeps(report_groups(old, new, olde, newe), lt);
    lemma_report_groups(old, new, olde, newe);
    lemma_sort_distinct(report_groups(old, new, olde, newe), lt);
}

/// No entry of the report is covered by an edge of the old snapshot: none
/// has a feature list within the features that an old edge enables on a
/// package of the same name.
pub proof fn law_no_entry_covered(old: Snapshot, new: Snapshot)
    ensures
        forall|i: int|
            0 <= i < report_of(old, new).len() ==> !covers(
                old,
                edges_of(old),
                new.packages@[(#[trigger] report_of(old, new)[i]).0].name@,
                report_of(old, new)[i].1,
            ),
{
    let olde = edges_of(old);
    let newe = edges_of(new);
    let r = report_of(old, new);
    let g = report_groups(old, new, olde, newe);
    lemma_report_entries(old, new, olde, newe);
    lemma_report_groups(old, new, olde, newe);
    assert forall|i: int| 0 <= i < r.len() implies !covers(
        old,
        olde,
        new.packages@[(#[trigger] r[i]).0].name@,
        r[i].1,
    ) by {
        assert(r.contains(r[i]));
        assert(g.contains(r[i]));
        let m = choose|m: int| 0 <= m < g.len() && g[m] == r[i];
        let j = choose|j: int|
            0 <= j < newe.len() && uncovered(old, new, olde, newe[j]) && (#[trigger] g[m]).0 == newe[j].2
                && g[m].1 == sorted_texts(newe[j].1);
        if covers(old, olde, new.packages@[r[i].0].name@, r[i].1) {
            let k = choose|k: int|
                0 <= k < olde.len() && old.packages@[#[trigger] olde[k].2].name@ == new.packages@[r[i].0].name@
                    && within(r[i].1, olde[k].1);
            lemma_within_sorted(newe[j].1, olde[k].1);
            assert(covers(old, olde, new.packages@[newe[j].2].name@, newe[j].1));
        }
    }
}

/// A new edge to a package whose name an old edge reached with a superset
/// of its features yields no entry, whatever the two versions are.
pub proof fn law_same_name_not_new(old: Snapshot, new: Snapshot, jo: int, jn: int)
    requires
        0 <= jo < edges_of(old).len(),
        0 <= jn < edges_of(new).len(),
        old.packages@[edges_of(old)[jo].2].name@ == new.packages@[edges_of(new)[jn].2].name@,
        within(edges_of(new)[jn].1, edges_of(old)[jo].1),
    ensures
        forall|i: int|
            0 <= i < report_of(old, new).len() ==> !((#[trigger] report_of(old, new)[i]).0
                == edges_of(new)[jn].2 && report_of(old, new)[i].1 == sorted_texts(edges_of(new)[jn].1)),
{
    let olde = edges_of(old);
    let e = edges_of(new)[jn];
    let r = report_of(old, new);
    law_no_entry_covered(old, new);
    lemma_within_sorted(e.1, olde[jo].1);
    assert forall|i: int| 0 <= i < r.len() implies !((#[trigger] r[i]).0 == e.2 && r[i].1 == sorted_texts(e.1)) by {
        if r[i].0 == e.2 && r[i].1 == sorted_texts(e.1) {
            assert(covers(old, olde, new.packages@[r[i].0].name@, r[i].1));
        }
    }
}

/// The report groups the edges: no two entries share dependency and
/// feature list, no entry lists a parent twice, and every new edge that no
/// old edge covers stands in the entry of its dependency and sorted
/// features, which lists its parent.
pub proof fn law_grouping(old: Snapshot, new: Snapshot)
    ensures
        distinct_keys(report_of(old, new)),
        parents_distinct(report_of(old, new)),
        forall|j: int|
            0 <= j < edges_of(new).len() && uncovered(old, new, edges_of(old), #[trigger] edges_of(new)[j])
                ==> exists|i: int|
                0 <= i < report_of(old, new).len() && report_of(old, new)[i].0 == edges_of(new)[j].2
                    && report_of(old, new)[i].1 == sorted_texts(edges_of(new)[j].1) && report_of(
                    old,
                    new,
                )[i].2.contains(edges_of(new)[j].0),
{
    let olde = edges_of(old);
    let newe = edges_of(new);
    let r = report_of(old, new);
    let g = report_groups(old, new, olde, newe);
    lemma_report_entries(old, new, olde, newe);
    lemma_report_groups(old, new, olde, newe);
    assert forall|i: int| 0 <= i < r.len() implies (#[trigger] r[i]).2.no_duplicates() by {
        assert(r.contains(r[i]));
        assert(g.contains(r[i]));
        let m = choose|m: int| 0 <= m < g.len() && g[m] == r[i];
        assert(g[m].2.no_duplicates());
    }
    assert forall|j: int| 0 <= j < newe.len() && uncovered(old, new, olde, #[trigger] newe[j]) implies exists|i: int|
        0 <= i < r.len() && r[i].0 == newe[j].2 && r[i].1 == sorted_texts(newe[j].1) && r[i].2.contains(
            newe[j].0,
        ) by {
        let m = choose|m: int|
            0 <= m < g.len() && g[m].0 == newe[j].2 && g[m].1 == sorted_texts(newe[j].1) && g[m].2.contains(
                newe[j].0,
            );
        assert(g.contains(g[m]));
        assert(r.contains(g[m]));
    }
}

/// The report is a function of the two snapshots: equal snapshots give
/// equal reports.
pub proof fn law_deterministic(old1: Snapshot, new1: Snapshot, old2: Snapshot, new2: Snapshot)
    requires
        old1 == old2,
        new1 == new2,
    ensures
        report_of(old1, new1) == report_of(old2, new2),
{
}

/// The report is sorted by the dependency's name, then by the feature
/// list: no entry comes before one that precedes it.
pub proof fn law_report_sorted(old: Snapshot, new: Snapshot)
    ensures
        sorted_by(report_of(old, new), |a: EntryView, b: EntryView| entry_lt(new, a, b)),
{
    lemma_entry_order(new);
    lemma_sort_by_sorted(
        report_groups(old, new, edges_of(old), edges_of(new)),
        |a: EntryView, b: EntryView| entry_lt(new, a, b),
    );
}

} // verus!
