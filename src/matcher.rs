//! Which package of a snapshot a declared dependency resolves to.
use vstd::prelude::*;
use crate::external::{parse_url, req_accepts, url_serialization, version_greater, version_gt, version_matches};
use crate::snapshot::{opt_view, Dependency, Package};

verus! {

/// `u` up to its first `'#'`, that is without its fragment: in the
/// serialization of a URL a `'#'` stands only where the fragment begins.
pub open spec fn without_fragment(u: Seq<char>) -> Seq<char> {
    if exists|i: int| 0 <= i < u.len() && u[i] == '#' {
        let i = choose|i: int|
            0 <= i < u.len() && u[i] == '#' && forall|j: int| 0 <= j < i ==> u[j] != '#';
        u.take(i)
    } else {
        u
    }
}

/// The location a source text names, as its URL without fragment; `None`
/// where it is no URL.
pub open spec fn source_key(src: Seq<char>) -> Option<Seq<char>> {
    match url_serialization(src) {
        Some(u) => Some(without_fragment(u)),
        None => None,
    }
}

/// Two optional sources name the same location: both are absent, or both
/// are URLs that are equal once their fragments are dropped.
pub open spec fn same_source(a: Option<Seq<char>>, b: Option<Seq<char>>) -> bool {
    match (a, b) {
        (None, None) => true,
        (Some(x), Some(y)) => source_key(x) is Some && source_key(x) == source_key(y),
        _ => false,
    }
}

/// Package `p` can stand for the dependency `d`: same name, same source
/// location, and a version that the requirement accepts.
pub open spec fn qualifies(d: Dependency, p: Package) -> bool {
    &&& p.name@ == d.name@
    &&& same_source(opt_view(p.source), opt_view(d.source))
    &&& req_accepts(d.req@, p.version@)
}

/// The position of the package of `pkgs` that `d` resolves to: among the
/// qualifying ones, a later one replaces the one kept so far unless the one
/// kept has the greater version.
pub open spec fn best_in(pkgs: Seq<Package>, d: Dependency) -> Option<int>
    decreases pkgs.len(),
{
    if pkgs.len() == 0 {
        None
    } else {
        let last = pkgs.len() - 1;
        let prev = best_in(pkgs.drop_last(), d);
        if !qualifies(d, pkgs[last]) {
            prev
        } else {
            match prev {
                Some(k) => if version_greater(pkgs[k].version@, pkgs[last].version@) {
                    Some(k)
                } else {
                    Some(last)
                },
                None => Some(last),
            }
        }
    }
}

/// What `best_in` picks is a position of `pkgs` whose package qualifies,
/// and it picks one whenever some package qualifies.
pub proof fn lemma_best_in(pkgs: Seq<Package>, d: Dependency)
    ensures
        match best_in(pkgs, d) {
            Some(k) => 0 <= k < pkgs.len() && qualifies(d, pkgs[k]),
            None => forall|i: int| 0 <= i < pkgs.len() ==> !qualifies(d, #[trigger] pkgs[i]),
        },
    decreases pkgs.len(),
{
    if pkgs.len() > 0 {
        lemma_best_in(pkgs.drop_last(), d);
        assert forall|i: int| 0 <= i < pkgs.len() - 1 implies pkgs.drop_last()[i] == pkgs[i] by {}
    }
}

/// `u` without the fragment of its URL.
pub fn strip_fragment(u: &str) -> (r: String)
    ensures
        r@ == without_fragment(u@),
{
    let n = u.unicode_len();
    let mut i: usize = 0;
    while i < n
        invariant
            n == u@.len(),
            0 <= i <= n,
            forall|j: int| 0 <= j < i ==> u@[j] != '#',
        decreases n - i,
    {
        if u.get_char(i) == '#' {
            let r = u.substring_char(0, i).to_owned();
            proof {
                let k = choose|k: int|
                    0 <= k < u@.len() && u@[k] == '#' && forall|j: int| 0 <= j < k ==> u@[j] != '#';
                assert(k == i);
            }
            return r;
        }
        i = i + 1;
    }
    u.to_owned()
}

/// The location that a source text names; `None` where it is no URL.
pub fn normalize_source(src: &str) -> (r: Option<String>)
    ensures
        opt_view(r) == source_key(src@),
{
    match parse_url(src) {
        Some(u) => Some(strip_fragment(u.as_str())),
        None => None,
    }
}

/// Whether two optional sources name the same location.
pub fn sources_match(a: &Option<String>, b: &Option<String>) -> (r: bool)
    ensures
        r == same_source(opt_view(*a), opt_view(*b)),
{
    match (a, b) {
        (None, None) => true,
        (Some(x), Some(y)) => {
            let kx = normalize_source(x.as_str());
            let ky = normalize_source(y.as_str());
            match (kx, ky) {
                (Some(p), Some(q)) => p == q,
                _ => false,
            }
        },
        _ => false,
    }
}

/// Whether package `p` can stand for the dependency `d`.
pub fn package_qualifies(d: &Dependency, p: &Package) -> (r: bool)
    ensures
        r == qualifies(*d, *p),
{
    p.name == d.name && sources_match(&p.source, &d.source) && version_matches(
        d.req.as_str(),
        p.version.as_str(),
    )
}

/// The position in `pkgs` of the package that `d` resolves to, the one of
/// greatest version among those that qualify; `None` where none does.
pub fn best_match(d: &Dependency, pkgs: &Vec<Package>) -> (r: Option<usize>)
    ensures
        match r {
            Some(k) => best_in(pkgs@, *d) == Some(k as int) && k < pkgs@.len() && qualifies(
                *d,
                pkgs@[k as int],
            ),
            None => best_in(pkgs@, *d) is None,
        },
{
    proof {
        lemma_best_in(pkgs@, *d);
    }
    let mut best: Option<usize> = None;
    let mut i: usize = 0;
    while i < pkgs.len()
        invariant
            0 <= i <= pkgs@.len(),
            match best {
                Some(k) => k < i && best_in(pkgs@.take(i as int), *d) == Some(k as int),
                None => best_in(pkgs@.take(i as int), *d) is None,
            },
        decreases pkgs.len() - i,
    {
        proof {
            assert(pkgs@.take(i + 1).drop_last() =~= pkgs@.take(i as int));
        }
        if package_qualifies(d, &pkgs[i]) {
            best = match best {
                Some(k) => if version_gt(pkgs[k].version.as_str(), pkgs[i].version.as_str()) {
                    Some(k)
                } else {
                    Some(i)
                },
                None => Some(i),
            };
        }
        i = i + 1;
    }
    proof {
        assert(pkgs@.take(pkgs@.len() as int) =~= pkgs@);
    }
    best
}

} // verus!
