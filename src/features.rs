//! The features that a package enables on one of its dependencies.
use vstd::prelude::*;
use crate::snapshot::{Feature, Package};
use crate::text::{contains_text, holds_str, lemma_holds_str_views, split_once_slash, split_slash, views};

verus! {

/// `acc`, followed by the features that the activations `acts` enable on the
/// dependency named `dep`, each added once.
pub open spec fn add_activations(acc: Seq<Seq<char>>, acts: Seq<String>, dep: Seq<char>) -> Seq<
    Seq<char>,
>
    decreases acts.len(),
{
    if acts.len() == 0 {
        acc
    } else {
        let rest = add_activations(acc, acts.drop_last(), dep);
        match split_slash(acts.last()@) {
            Some((c, f)) => if c == dep && !rest.contains(f) {
                rest.push(f)
            } else {
                rest
            },
            None => rest,
        }
    }
}

/// The features that the declared features `feats`, of which those named in
/// `enabled` are on, enable on the dependency named `dep`, each once, in the
/// order in which the declarations name them.
pub open spec fn propagated(feats: Seq<Feature>, enabled: Seq<String>, dep: Seq<char>) -> Seq<
    Seq<char>,
>
    decreases feats.len(),
{
    if feats.len() == 0 {
        Seq::empty()
    } else {
        let rest = propagated(feats.drop_last(), enabled, dep);
        let k = feats.last();
        if holds_str(enabled, k.name@) {
            add_activations(rest, k.activations@, dep)
        } else {
            rest
        }
    }
}

/// The features that `parent`, with the features `enabled` on, enables on
/// its dependency named `dep_name`, each once.
pub fn propagate(parent: &Package, enabled: &Vec<String>, dep_name: &String) -> (r: Vec<String>)
    ensures
        views(r@) == propagated(parent.features@, enabled@, dep_name@),
{
    let mut r: Vec<String> = Vec::new();
    let mut i: usize = 0;
    while i < parent.features.len()
        invariant
            0 <= i <= parent.features@.len(),
            views(r@) == propagated(parent.features@.take(i as int), enabled@, dep_name@),
        decreases parent.features.len() - i,
    {
        proof {
            assert(parent.features@.take(i + 1).drop_last() =~= parent.features@.take(i as int));
        }
        let k = &parent.features[i];
        if contains_text(enabled, &k.name) {
            let ghost start = views(r@);
            let mut j: usize = 0;
            while j < k.activations.len()
                invariant
                    0 <= j <= k.activations@.len(),
                    views(r@) == add_activations(start, k.activations@.take(j as int), dep_name@),
                decreases k.activations.len() - j,
            {
                proof {
                    assert(k.activations@.take(j + 1).drop_last() =~= k.activations@.take(j as int));
                }
                match split_once_slash(k.activations[j].as_str()) {
                    Some((c, f)) => {
                        if c == *dep_name {
                            let present = contains_text(&r, &f);
                            proof {
                                lemma_holds_str_views(r@, f@);
                            }
                            if !present {
                                r.push(f);
                                proof {
                                    assert(views(r@) =~= views(r@.drop_last()).push(f@));
                                }
                            }
                        }
                    },
                    None => {},
                }
                j = j + 1;
            }
            proof {
                assert(k.activations@.take(k.activations@.len() as int) =~= k.activations@);
            }
        }
        i = i + 1;
    }
    proof {
        assert(parent.features@.take(parent.features@.len() as int) =~= parent.features@);
    }
    r
}

} // verus!
