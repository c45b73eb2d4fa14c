//! The command line's choice of the two snapshots to compare.
use vstd::prelude::*;

verus! {

/// The options of the command line.
pub struct Cli {
    /// A file of Cargo metadata in JSON to compare from.
    pub from_json: Option<String>,
    /// A file of Cargo metadata in JSON to compare to.
    pub to_json: Option<String>,
    /// A commit or branch to compare from.
    pub from: Option<String>,
    /// A commit or branch to compare to.
    pub to: Option<String>,
}

/// Where a snapshot is read from.
pub enum SnapshotSource {
    /// A file of Cargo metadata in JSON.
    Json(String),
    /// The given commit or branch, checked out apart.
    Revision(String),
    /// The default branch of the repository's remote.
    DefaultBranch,
    /// The working tree as it is.
    WorkingTree,
}

/// The source that an explicit file, else an explicit revision, else
/// `fallback` gives.
pub open spec fn chosen(json: Option<String>, rev: Option<String>, fallback: SnapshotSource, r: SnapshotSource) -> bool {
    match (json, rev) {
        (Some(p), _) => r matches SnapshotSource::Json(q) && q@ == p@,
        (None, Some(c)) => r matches SnapshotSource::Revision(q) && q@ == c@,
        (None, None) => r == fallback,
    }
}

fn pick(json: &Option<String>, rev: &Option<String>, fallback: SnapshotSource) -> (r: SnapshotSource)
    ensures
        chosen(*json, *rev, fallback, r),
{
    match json {
        Some(p) => SnapshotSource::Json(p.clone()),
        None => match rev {
            Some(c) => SnapshotSource::Revision(c.clone()),
            None => fallback,
        },
    }
}

impl Cli {
    /// The snapshot to compare from: the JSON file, else the revision, else
    /// the default branch.
    pub fn from_source(&self) -> (r: SnapshotSource)
        ensures
            chosen(self.from_json, self.from, SnapshotSource::DefaultBranch, r),
    {
        pick(&self.from_json, &self.from, SnapshotSource::DefaultBranch)
    }

    /// The snapshot to compare to: the JSON file, else the revision, else
    /// the working tree.
    pub fn to_source(&self) -> (r: SnapshotSource)
        ensures
            chosen(self.to_json, self.to, SnapshotSource::WorkingTree, r),
    {
        pick(&self.to_json, &self.to, SnapshotSource::WorkingTree)
    }
}

} // verus!
