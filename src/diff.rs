//! The report of what the new snapshot adds over the old one.
use vstd::prelude::*;
use crate::groups::{group_entries, groups_index_of, groups_insert, groups_into_entries, groups_new, groups_parents, groups_push_parent, Groups};
use crate::laws::lemma_group_step;
use crate::edges::{collect_dependencies, edge_view, edges_of, edges_view, Edge, EdgeView};
use crate::order::{lemma_insert_by_at, sort_by, strict_order};
use crate::snapshot::Snapshot;
use crate::text::{lemma_list_lt_irreflexive, lemma_list_lt_transitive, lemma_lt_from_irreflexive, lemma_lt_from_transitive, contains_text, lemma_holds_str_views, list_less, list_lt, text_less, text_lt, views};

verus! {

/// A dependency, with a feature list, that the new snapshot adds, and the
/// parents that pull it in. Packages are given by their position in the new
/// snapshot.
pub struct ReportEntry {
    pub dependency: usize,
    /// Sorted ascending, without repeats.
    pub features: Vec<String>,
    /// In the order in which they were first met, without repeats.
    pub parents: Vec<usize>,
}

/// What an entry states: dependency, features, parents.
pub type EntryView = (int, Seq<Seq<char>>, Seq<int>);

pub open spec fn entry_view(e: ReportEntry) -> EntryView {
    (e.dependency as int, views(e.features@), e.parents@.map_values(|p: usize| p as int))
}

pub open spec fn entries_view(v: Seq<ReportEntry>) -> Seq<EntryView> {
    v.map_values(|e: ReportEntry| entry_view(e))
}

/// Every text of `a` occurs in `b`.
pub open spec fn within(a: Seq<Seq<char>>, b: Seq<Seq<char>>) -> bool {
    forall|i: int| 0 <= i < a.len() ==> b.contains(#[trigger] a[i])
}

/// An edge of the old snapshot reaches a package named `name` with a
/// superset of the features `feats`.
pub open spec fn covers(old: Snapshot, olde: Seq<EdgeView>, name: Seq<char>, feats: Seq<Seq<char>>) -> bool {
    exists|j: int|
        0 <= j < olde.len() && old.packages@[#[trigger] olde[j].2].name@ == name && within(
            feats,
            olde[j].1,
        )
}

/// Texts sorted ascending.
pub open spec fn sorted_texts(s: Seq<Seq<char>>) -> Seq<Seq<char>> {
    sort_by(s, |a: Seq<char>, b: Seq<char>| text_lt(a, b))
}

/// The position, from `i` on, of the first entry of `g` keyed by dependency
/// `d` and features `f`; -1 where there is none.
pub open spec fn key_from(g: Seq<EntryView>, d: int, f: Seq<Seq<char>>, i: int) -> int
    decreases g.len() - i,
{
    if i < 0 || i >= g.len() {
        -1
    } else if g[i].0 == d && g[i].1 == f {
        i
    } else {
        key_from(g, d, f, i + 1)
    }
}

/// A position that `key_from` gives holds an entry of that key.
pub proof fn lemma_key_from(g: Seq<EntryView>, d: int, f: Seq<Seq<char>>, i: int)
    requires
        0 <= i,
    ensures
        key_from(g, d, f, i) >= 0 ==> i <= key_from(g, d, f, i) < g.len() && g[key_from(g, d, f, i)].0
            == d && g[key_from(g, d, f, i)].1 == f,
        key_from(g, d, f, i) < 0 ==> forall|j: int| i <= j < g.len() ==> !(#[trigger] g[j].0 == d && g[j].1 == f),
    decreases g.len() - i,
{
    if i < g.len() {
        lemma_key_from(g, d, f, i + 1);
    }
}

/// No two entries of `g` share dependency and feature list.
pub open spec fn distinct_keys(g: Seq<EntryView>) -> bool {
    forall|i: int, j: int|
        0 <= i < g.len() && 0 <= j < g.len() && i != j ==> !(#[trigger] g[i].0 == #[trigger] g[j].0
            && g[i].1 == g[j].1)
}

/// No entry of `g` lists a parent twice.
pub open spec fn parents_distinct(g: Seq<EntryView>) -> bool {
    forall|i: int| 0 <= i < g.len() ==> (#[trigger] g[i]).2.no_duplicates()
}

/// `g` after parent `p` introduced dependency `d` with features `f`: the
/// entry of that key gains `p` unless it lists it, or a new entry comes last.
pub open spec fn group_step(g: Seq<EntryView>, p: int, f: Seq<Seq<char>>, d: int) -> Seq<EntryView> {
    let k = key_from(g, d, f, 0);
    if k < 0 {
        g.push((d, f, seq![p]))
    } else if g[k].2.contains(p) {
        g
    } else {
        g.update(k, (d, f, g[k].2.push(p)))
    }
}

/// The entries, in order of first appearance, of the edges `newe` of `new`
/// that no edge `olde` of `old` covers.
pub open spec fn report_groups(old: Snapshot, new: Snapshot, olde: Seq<EdgeView>, newe: Seq<EdgeView>) -> Seq<EntryView>
    decreases newe.len(),
{
    if newe.len() == 0 {
        Seq::empty()
    } else {
        let g = report_groups(old, new, olde, newe.drop_last());
        let e = newe.last();
        if covers(old, olde, new.packages@[e.2].name@, e.1) {
            g
        } else {
            group_step(g, e.0, sorted_texts(e.1), e.2)
        }
    }
}

/// The order of the report: by the dependency's name, then by the feature
/// list.
pub open spec fn entry_lt(new: Snapshot, a: EntryView, b: EntryView) -> bool {
    let na = new.packages@[a.0].name@;
    let nb = new.packages@[b.0].name@;
    text_lt(na, nb) || (na == nb && list_lt(a.1, b.1))
}

/// The order of the report is a strict order.
pub proof fn lemma_entry_order(new: Snapshot)
    ensures
        strict_order(|a: EntryView, b: EntryView| entry_lt(new, a, b)),
{
    let lt = |a: EntryView, b: EntryView| entry_lt(new, a, b);
    assert forall|a: EntryView| !#[trigger] lt(a, a) by {
        lemma_lt_from_irreflexive(new.packages@[a.0].name@, 0);
        lemma_list_lt_irreflexive(a.1, 0);
    }
    assert forall|a: EntryView, b: EntryView, c: EntryView| #[trigger] lt(a, b) && #[trigger] lt(b, c) implies lt(a, c) by {
        let na = new.packages@[a.0].name@;
        let nb = new.packages@[b.0].name@;
        let nc = new.packages@[c.0].name@;
        if text_lt(na, nb) && text_lt(nb, nc) {
            lemma_lt_from_transitive(na, nb, nc, 0);
        } else if na == nb && nb == nc {
            lemma_list_lt_transitive(a.1, b.1, c.1, 0);
        }
    }
}

/// The report on edges `newe` of `new` against edges `olde` of `old`.
pub open spec fn report_of_edges(old: Snapshot, new: Snapshot, olde: Seq<EdgeView>, newe: Seq<EdgeView>) -> Seq<EntryView> {
    sort_by(report_groups(old, new, olde, newe), |a: EntryView, b: EntryView| entry_lt(new, a, b))
}

/// The report on snapshot `new` against snapshot `old`.
pub open spec fn report_of(old: Snapshot, new: Snapshot) -> Seq<EntryView> {
    report_of_edges(old, new, edges_of(old), edges_of(new))
}

/// Whether every feature of `a` occurs in `b`.
pub fn features_within(a: &Vec<String>, b: &Vec<String>) -> (r: bool)
    ensures
        r == within(views(a@), views(b@)),
{
    let mut i: usize = 0;
    while i < a.len()
        invariant
            0 <= i <= a.len(),
            forall|j: int| 0 <= j < i ==> views(b@).contains(#[trigger] views(a@)[j]),
        decreases a.len() - i,
    {
        let found = contains_text(b, &a[i]);
        proof {
            lemma_holds_str_views(b@, a@[i as int]@);
            assert(views(a@)[i as int] == a@[i as int]@);
        }
        if !found {
            return false;
        }
        i = i + 1;
    }
    true
}

/// Whether an edge of `old_edges` reaches a package of `old` named `name`
/// with a superset of `feats`.
pub fn covered(old: &Snapshot, old_edges: &Vec<Edge>, name: &String, feats: &Vec<String>) -> (r: bool)
    requires
        forall|i: int| 0 <= i < old_edges@.len() ==> old_edges@[i].dependency < old.packages@.len(),
    ensures
        r == covers(*old, edges_view(old_edges@), name@, views(feats@)),
{
    let ghost olde = edges_view(old_edges@);
    let mut j: usize = 0;
    while j < old_edges.len()
        invariant
            olde == edges_view(old_edges@),
            forall|i: int| 0 <= i < old_edges@.len() ==> old_edges@[i].dependency < old.packages@.len(),
            0 <= j <= old_edges@.len(),
            forall|m: int|
                0 <= m < j ==> !(old.packages@[#[trigger] olde[m].2].name@ == name@ && within(
                    views(feats@),
                    olde[m].1,
                )),
        decreases old_edges.len() - j,
    {
        let e = &old_edges[j];
        proof {
            assert(olde[j as int] == edge_view(*e));
        }
        if old.packages[e.dependency].name == *name && features_within(feats, &e.features) {
            proof {
                assert(olde[j as int].2 == e.dependency as int);
                assert(olde[j as int].1 == views(e.features@));
            }
            return true;
        }
        j = j + 1;
    }
    false
}

/// `v` sorted ascending.
pub fn sort_features(v: &Vec<String>) -> (r: Vec<String>)
    ensures
        views(r@) == sorted_texts(views(v@)),
{
    let ghost lt = |a: Seq<char>, b: Seq<char>| text_lt(a, b);
    let mut out: Vec<String> = Vec::new();
    let mut i: usize = 0;
    while i < v.len()
        invariant
            0 <= i <= v.len(),
            lt == (|a: Seq<char>, b: Seq<char>| text_lt(a, b)),
            views(out@) == sort_by(views(v@).take(i as int), lt),
        decreases v.len() - i,
    {
        let x = v[i].clone();
        let mut k: usize = 0;
        while k < out.len() && !text_less(x.as_str(), out[k].as_str())
            invariant
                0 <= k <= out.len(),
                lt == (|a: Seq<char>, b: Seq<char>| text_lt(a, b)),
                forall|j: int| 0 <= j < k ==> !lt(x@, #[trigger] views(out@)[j]),
            decreases out.len() - k,
        {
            proof {
                assert(views(out@)[k as int] == out@[k as int]@);
            }
            k = k + 1;
        }
        proof {
            lemma_insert_by_at(views(out@), x@, lt, k as int);
            assert(views(v@).take(i + 1).drop_last() =~= views(v@).take(i as int));
            assert(views(v@).take(i + 1).last() == x@);
        }
        let ghost before = out@;
        out.insert(k, x);
        proof {
            assert(views(out@) =~= views(before).insert(k as int, x@));
        }
        i = i + 1;
    }
    proof {
        assert(views(v@).take(v@.len() as int) =~= views(v@));
    }
    out
}

/// Whether `p` occurs in `v`.
fn contains_index(v: &Vec<usize>, p: usize) -> (r: bool)
    ensures
        r == v@.map_values(|q: usize| q as int).contains(p as int),
{
    let ghost w = v@.map_values(|q: usize| q as int);
    let mut i: usize = 0;
    while i < v.len()
        invariant
            0 <= i <= v.len(),
            w == v@.map_values(|q: usize| q as int),
            forall|j: int| 0 <= j < i ==> w[j] != p as int,
        decreases v.len() - i,
    {
        if v[i] == p {
            proof {
                assert(w[i as int] == p as int);
            }
            return true;
        }
        i = i + 1;
    }
    false
}

/// Records in `g` that parent `p` introduced dependency `d` with features
/// `f`.
fn add_parent(g: &mut Groups, p: usize, f: Vec<String>, d: usize, new: &Snapshot)
    requires
        d < new.packages@.len(),
        distinct_keys(group_entries(*old(g))),
        forall|i: int|
            0 <= i < group_entries(*old(g)).len() ==> #[trigger] group_entries(*old(g))[i].0
                < new.packages@.len(),
    ensures
        group_entries(*final(g)) == group_step(group_entries(*old(g)), p as int, views(f@), d as int),
        distinct_keys(group_entries(*final(g))),
        forall|i: int|
            0 <= i < group_entries(*final(g)).len() ==> #[trigger] group_entries(*final(g))[i].0
                < new.packages@.len(),
{
    let ghost gv = group_entries(*g);
    let ghost fv = views(f@);
    proof {
        lemma_group_step(gv, p as int, fv, d as int);
        lemma_key_from(gv, d as int, fv, 0);
    }
    match groups_index_of(g, d, &f) {
        Some(k) => {
            proof {
                let kf = key_from(gv, d as int, fv, 0);
                if kf != k as int {
                    assert(kf >= 0);
                    assert(gv[kf].0 == gv[k as int].0 && gv[kf].1 == gv[k as int].1);
                }
            }
            if !contains_index(groups_parents(g, k), p) {
                groups_push_parent(g, k, p);
            }
        },
        None => {
            proof {
                if key_from(gv, d as int, fv, 0) >= 0 {
                    let kf = key_from(gv, d as int, fv, 0);
                    assert(gv[kf].0 == d as int && gv[kf].1 == fv);
                }
            }
            groups_insert(g, d, f, p);
        },
    }
    proof {
        let gs = group_entries(*g);
        assert forall|i: int| 0 <= i < gs.len() implies #[trigger] gs[i].0 < new.packages@.len() by {
            if !(gs[i].0 == d as int && gs[i].1 == fv) {
                assert(gs[i] == gv[i]);
            }
        }
    }
}

/// Whether entry `a` comes strictly before entry `b` in the report.
fn entry_less(new: &Snapshot, a: &ReportEntry, b: &ReportEntry) -> (r: bool)
    requires
        a.dependency < new.packages@.len(),
        b.dependency < new.packages@.len(),
    ensures
        r == entry_lt(*new, entry_view(*a), entry_view(*b)),
{
    let na = &new.packages[a.dependency].name;
    let nb = &new.packages[b.dependency].name;
    text_less(na.as_str(), nb.as_str()) || (*na == *nb && list_less(&a.features, &b.features))
}

/// The entries `v` in the order of the report, entries of equal rank
/// keeping their order.
fn sort_entries(new: &Snapshot, v: Vec<ReportEntry>) -> (r: Vec<ReportEntry>)
    requires
        forall|i: int| 0 <= i < v@.len() ==> v@[i].dependency < new.packages@.len(),
    ensures
        entries_view(r@) == sort_by(
            entries_view(v@),
            |a: EntryView, b: EntryView| entry_lt(*new, a, b),
        ),
        forall|i: int| 0 <= i < r@.len() ==> r@[i].dependency < new.packages@.len(),
{
    let ghost lt = |a: EntryView, b: EntryView| entry_lt(*new, a, b);
    let ghost orig = v@;
    proof {
        assert(orig.len() == v.len());
    }
    let mut v = v;
    let mut out: Vec<ReportEntry> = Vec::new();
    let mut i: usize = 0;
    while v.len() > 0
        invariant
            lt == (|a: EntryView, b: EntryView| entry_lt(*new, a, b)),
            0 <= i <= orig.len(),
            v@ == orig.skip(i as int),
            v@.len() == orig.len() - i,
            orig.len() <= usize::MAX,
            entries_view(out@) == sort_by(entries_view(orig).take(i as int), lt),
            forall|m: int| 0 <= m < orig.len() ==> orig[m].dependency < new.packages@.len(),
            forall|m: int| 0 <= m < out@.len() ==> out@[m].dependency < new.packages@.len(),
        decreases v.len(),
    {
        let x = v.remove(0);
        proof {
            assert(x == orig[i as int]);
        }
        let mut k: usize = 0;
        while k < out.len() && !entry_less(new, &x, &out[k])
            invariant
                lt == (|a: EntryView, b: EntryView| entry_lt(*new, a, b)),
                0 <= k <= out.len(),
                x.dependency < new.packages@.len(),
                forall|m: int| 0 <= m < out@.len() ==> out@[m].dependency < new.packages@.len(),
                forall|j: int| 0 <= j < k ==> !lt(entry_view(x), #[trigger] entries_view(out@)[j]),
            decreases out.len() - k,
        {
            proof {
                assert(entries_view(out@)[k as int] == entry_view(out@[k as int]));
            }
            k = k + 1;
        }
        proof {
            lemma_insert_by_at(entries_view(out@), entry_view(x), lt, k as int);
            assert(entries_view(orig).take(i + 1).drop_last() =~= entries_view(orig).take(i as int));
            assert(entries_view(orig).take(i + 1).last() == entry_view(x));
        }
        let ghost before = out@;
        out.insert(k, x);
        proof {
            assert(entries_view(out@) =~= entries_view(before).insert(k as int, entry_view(x)));
        }
        i = i + 1;
        proof {
            assert(v@ =~= orig.skip(i as int));
        }
    }
    proof {
        assert(orig.skip(i as int).len() == 0);
        assert(entries_view(orig).take(i as int) =~= entries_view(orig));
    }
    out
}

/// The report on the edges `new_edges` of `new` against the edges
/// `old_edges` of `old`: each edge of `new_edges` that no edge of
/// `old_edges` covers, grouped by dependency and sorted feature list, with
/// its parents in order of first appearance; the groups sorted by the
/// dependency's name, then by the feature list.
pub fn diff_edges(old: &Snapshot, new: &Snapshot, old_edges: &Vec<Edge>, new_edges: &Vec<Edge>) -> (r: Vec<ReportEntry>)
    requires
        forall|i: int| 0 <= i < old_edges@.len() ==> old_edges@[i].dependency < old.packages@.len(),
        forall|i: int| 0 <= i < new_edges@.len() ==> new_edges@[i].dependency < new.packages@.len(),
    ensures
        entries_view(r@) == report_of_edges(*old, *new, edges_view(old_edges@), edges_view(new_edges@)),
        forall|i: int| 0 <= i < r@.len() ==> r@[i].dependency < new.packages@.len(),
{
    let ghost olde = edges_view(old_edges@);
    let ghost newe = edges_view(new_edges@);
    let mut g = groups_new();
    let mut i: usize = 0;
    while i < new_edges.len()
        invariant
            olde == edges_view(old_edges@),
            newe == edges_view(new_edges@),
            forall|m: int| 0 <= m < old_edges@.len() ==> old_edges@[m].dependency < old.packages@.len(),
            forall|m: int| 0 <= m < new_edges@.len() ==> new_edges@[m].dependency < new.packages@.len(),
            0 <= i <= new_edges@.len(),
            group_entries(g) == report_groups(*old, *new, olde, newe.take(i as int)),
            distinct_keys(group_entries(g)),
            forall|m: int|
                0 <= m < group_entries(g).len() ==> #[trigger] group_entries(g)[m].0 < new.packages@.len(),
        decreases new_edges.len() - i,
    {
        let e = &new_edges[i];
        proof {
            assert(newe.take(i + 1).drop_last() =~= newe.take(i as int));
            assert(newe.take(i + 1).last() == edge_view(*e));
        }
        if !covered(old, old_edges, &new.packages[e.dependency].name, &e.features) {
            let f = sort_features(&e.features);
            add_parent(&mut g, e.parent, f, e.dependency, new);
        }
        i = i + 1;
    }
    proof {
        assert(newe.take(newe.len() as int) =~= newe);
    }
    let entries = groups_into_entries(g);
    proof {
        assert forall|m: int| 0 <= m < entries@.len() implies entries@[m].dependency < new.packages@.len() by {
            assert(entries_view(entries@)[m] == entry_view(entries@[m]));
            assert(group_entries(g)[m].0 < new.packages@.len());
        }
    }
    sort_entries(new, entries)
}

/// The two snapshots to compare: `old`, before a change, and `new`, after it.
pub struct MetadataDiff {
    pub old: Snapshot,
    pub new: Snapshot,
}

impl MetadataDiff {
    pub fn new(old: Snapshot, new: Snapshot) -> (r: Self)
        ensures
            r.old == old,
            r.new == new,
    {
        MetadataDiff { old, new }
    }

    /// The dependencies, with their feature lists, that `new` adds over
    /// `old`, and the parents that pull each in.
    pub fn collect_new_dependencies(&self) -> (r: Vec<ReportEntry>)
        requires
            self.old.wf(),
            self.new.wf(),
        ensures
            entries_view(r@) == report_of(self.old, self.new),
            forall|i: int| 0 <= i < r@.len() ==> r@[i].dependency < self.new.packages@.len(),
    {
        let old_edges = collect_dependencies(&self.old);
        let new_edges = collect_dependencies(&self.new);
        diff_edges(&self.old, &self.new, &old_edges, &new_edges)
    }
}

} // verus!
