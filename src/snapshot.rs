//! One resolved dependency graph: its packages, its resolution nodes and its
//! workspace members, with the lookup of a package by its identifier.
use vstd::prelude::*;

verus! {

/// A dependency that a package declares.
pub struct Dependency {
    pub name: String,
    /// Where the dependency comes from; absent for a local package.
    pub source: Option<String>,
    /// The version requirement, in the text form of Cargo.
    pub req: String,
}

/// A feature that a package declares, with the activations it implies.
/// An activation `"crate/feature"` enables `feature` on the dependency
/// named `crate`.
pub struct Feature {
    pub name: String,
    pub activations: Vec<String>,
}

/// A package of the graph.
pub struct Package {
    /// Unique within one snapshot; meaningless across snapshots.
    pub id: String,
    pub name: String,
    /// The version, in the text form of semantic versioning.
    pub version: String,
    /// Where the package comes from; absent for a local package.
    pub source: Option<String>,
    pub dependencies: Vec<Dependency>,
    pub features: Vec<Feature>,
}

/// The resolution of one package: the features enabled on it and the
/// identifiers of the packages it depends on.
pub struct Node {
    pub id: String,
    pub features: Vec<String>,
    pub dependencies: Vec<String>,
}

/// A fully resolved dependency graph.
pub struct Snapshot {
    pub packages: Vec<Package>,
    pub nodes: Vec<Node>,
    /// Identifiers of the packages of the workspace itself.
    pub workspace_members: Vec<String>,
}

/// The view of an optional text.
pub open spec fn opt_view(o: Option<String>) -> Option<Seq<char>> {
    match o {
        Some(s) => Some(s@),
        None => None,
    }
}

/// `true` when a package of `pkgs` has the identifier `id`.
pub open spec fn has_package(pkgs: Seq<Package>, id: Seq<char>) -> bool {
    exists|i: int| 0 <= i < pkgs.len() && #[trigger] pkgs[i].id@ == id
}

/// The position of the first package of `pkgs` with identifier `id`.
pub open spec fn package_index(pkgs: Seq<Package>, id: Seq<char>) -> int
    recommends
        has_package(pkgs, id),
{
    choose|i: int|
        0 <= i < pkgs.len() && pkgs[i].id@ == id && forall|j: int|
            0 <= j < i ==> pkgs[j].id@ != id
}

proof fn lemma_first_with_id(pkgs: Seq<Package>, id: Seq<char>, i: int)
    requires
        0 <= i < pkgs.len(),
        pkgs[i].id@ == id,
    ensures
        exists|k: int|
            0 <= k < pkgs.len() && pkgs[k].id@ == id && forall|j: int| 0 <= j < k ==> pkgs[j].id@ != id,
    decreases i,
{
    if exists|j: int| 0 <= j < i && pkgs[j].id@ == id {
        let j = choose|j: int| 0 <= j < i && pkgs[j].id@ == id;
        lemma_first_with_id(pkgs, id, j);
    } else {
        assert(forall|j: int| 0 <= j < i ==> pkgs[j].id@ != id);
    }
}

/// Where a package has the identifier `id`, `package_index` is the
/// position of the first such package.
pub proof fn lemma_package_index(pkgs: Seq<Package>, id: Seq<char>)
    requires
        has_package(pkgs, id),
    ensures
        0 <= package_index(pkgs, id) < pkgs.len(),
        pkgs[package_index(pkgs, id)].id@ == id,
{
    let i = choose|i: int| 0 <= i < pkgs.len() && #[trigger] pkgs[i].id@ == id;
    lemma_first_with_id(pkgs, id, i);
}

/// Every identifier that `n` names is that of a package of `pkgs`.
pub open spec fn node_resolves(pkgs: Seq<Package>, n: Node) -> bool {
    &&& has_package(pkgs, n.id@)
    &&& forall|j: int|
        0 <= j < n.dependencies@.len() ==> has_package(pkgs, #[trigger] n.dependencies@[j]@)
}

impl Snapshot {
    /// Every identifier that a node names, its own and those of its
    /// dependencies, is the identifier of a package of the snapshot.
    pub open spec fn wf(&self) -> bool {
        forall|i: int|
            0 <= i < self.nodes@.len() ==> node_resolves(self.packages@, #[trigger] self.nodes@[i])
    }

    /// The position of the package with identifier `id`, if there is one.
    pub fn find_package(&self, id: &String) -> (r: Option<usize>)
        ensures
            match r {
                Some(i) => has_package(self.packages@, id@) && i < self.packages@.len()
                    && self.packages@[i as int].id@ == id@ && i == package_index(
                    self.packages@,
                    id@,
                ),
                None => !has_package(self.packages@, id@),
            },
    {
        let mut i: usize = 0;
        while i < self.packages.len()
            invariant
                0 <= i <= self.packages@.len(),
                forall|j: int| 0 <= j < i ==> self.packages@[j].id@ != id@,
            decreases self.packages.len() - i,
        {
            if self.packages[i].id == *id {
                proof {
                    let k = package_index(self.packages@, id@);
                    assert(self.packages@[i as int].id@ == id@);
                    assert(k == i as int);
                }
                return Some(i);
            }
            i = i + 1;
        }
        None
    }

    /// Whether every identifier that the nodes name is that of a package.
    pub fn is_consistent(&self) -> (r: bool)
        ensures
            r == self.wf(),
    {
        let mut i: usize = 0;
        while i < self.nodes.len()
            invariant
                0 <= i <= self.nodes@.len(),
                forall|k: int| 0 <= k < i ==> node_resolves(self.packages@, #[trigger] self.nodes@[k]),
            decreases self.nodes.len() - i,
        {
            let node = &self.nodes[i];
            if self.find_package(&node.id).is_none() {
                proof {
                    assert(!node_resolves(self.packages@, self.nodes@[i as int]));
                }
                return false;
            }
            let mut j: usize = 0;
            while j < node.dependencies.len()
                invariant
                    0 <= i < self.nodes@.len(),
                    *node == self.nodes@[i as int],
                    0 <= j <= node.dependencies@.len(),
                    forall|m: int|
                        0 <= m < j ==> has_package(
                            self.packages@,
                            #[trigger] node.dependencies@[m]@,
                        ),
                decreases node.dependencies.len() - j,
            {
                if self.find_package(&node.dependencies[j]).is_none() {
                    proof {
                        assert(!has_package(self.packages@, node.dependencies@[j as int]@));
                        assert(!node_resolves(self.packages@, self.nodes@[i as int]));
                    }
                    return false;
                }
                j = j + 1;
            }
            proof {
                assert(node_resolves(self.packages@, self.nodes@[i as int]));
            }
            i = i + 1;
        }
        true
    }
}

} // verus!
