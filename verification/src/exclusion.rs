//! Exclusions: the paths that a walk leaves out, with all that lies under
//! them, and which paths a segment leaves out because other segments
//! lie under it.

use vstd::prelude::*;
use crate::path::{
    components, components_of, has_prefix, path_starts_with, rows, same_components, same_path,
    texts,
};
use crate::tree::{skipped, Filter};

verus! {

/// Whether `path` is one of `exclusions` or lies under one of them.
pub open spec fn excluded_by(path: Seq<char>, exclusions: Seq<Seq<char>>) -> bool {
    exists|i: int| 0 <= i < exclusions.len() && path_starts_with(path, #[trigger] exclusions[i])
}

/// Whether `path` is one of the excluded paths or lies under one of them.
pub fn is_excluded(path: &str, exclusions: &[&String]) -> (r: bool)
    ensures
        r == excluded_by(path@, texts(exclusions@)),
{
    let p = components(path);
    let mut i: usize = 0;
    while i < exclusions.len()
        invariant
            i <= exclusions.len(),
            rows(p@) == components_of(path@),
            forall|j: int| 0 <= j < i ==> !path_starts_with(path@, #[trigger] texts(exclusions@)[j]),
        decreases exclusions.len() - i,
    {
        let b = components(exclusions[i].as_str());
        if has_prefix(&p, &b) {
            assert(path_starts_with(path@, texts(exclusions@)[i as int]));
            return true;
        }
        i += 1;
    }
    false
}

/// Whether the path `other` lies under `path` without being `path`.
pub open spec fn nested_under(other: Seq<char>, path: Seq<char>) -> bool {
    !same_path(other, path) && path_starts_with(other, path)
}

/// Whether one of `earlier` names the same path as `p`.
pub open spec fn occurs_among(p: Seq<char>, earlier: Seq<Seq<char>>) -> bool {
    exists|j: int| 0 <= j < earlier.len() && same_path(#[trigger] earlier[j], p)
}

/// The paths of `all` that lie under `path`, in their order in `all`, each
/// path once: where several strings name one path, the first stands for it.
pub open spec fn exclusions_of(all: Seq<Seq<char>>, path: Seq<char>) -> Seq<Seq<char>>
    decreases all.len(),
{
    if all.len() == 0 {
        Seq::empty()
    } else {
        let earlier = all.drop_last();
        let found = exclusions_of(earlier, path);
        if nested_under(all.last(), path) && !occurs_among(all.last(), earlier) {
            found.push(all.last())
        } else {
            found
        }
    }
}

/// The paths to leave out of the segment at `path`: those of `all_paths`
/// that lie under it.
pub fn get_exclusions<'a>(all_paths: &[&'a String], path: &str) -> (out: Vec<&'a String>)
    ensures
        texts(out@) == exclusions_of(texts(all_paths@), path@),
{
    let own = components(path);
    let mut out: Vec<&'a String> = Vec::new();
    let mut i: usize = 0;
    assert(texts(all_paths@).take(0) =~= Seq::<Seq<char>>::empty());
    assert(texts(out@) =~= Seq::<Seq<char>>::empty());
    while i < all_paths.len()
        invariant
            i <= all_paths.len(),
            rows(own@) == components_of(path@),
            texts(out@) == exclusions_of(texts(all_paths@).take(i as int), path@),
        decreases all_paths.len() - i,
    {
        let other = components(all_paths[i].as_str());
        let ghost upto = texts(all_paths@).take(i + 1);
        assert(upto.drop_last() =~= texts(all_paths@).take(i as int));
        assert(upto.last() == all_paths@[i as int]@);
        if !same_components(&other, &own) && has_prefix(&other, &own) {
            let mut seen = false;
            let mut j: usize = 0;
            while j < i && !seen
                invariant
                    j <= i < all_paths.len(),
                    rows(other@) == components_of(all_paths@[i as int]@),
                    seen ==> occurs_among(all_paths@[i as int]@, texts(all_paths@).take(i as int)),
                    !seen ==> forall|k: int|
                        0 <= k < j ==> !same_path(
                            #[trigger] texts(all_paths@).take(i as int)[k],
                            all_paths@[i as int]@,
                        ),
                decreases i - j + (if seen { 0int } else { 1int }),
            {
                let prior = components(all_paths[j].as_str());
                if same_components(&prior, &other) {
                    assert(same_path(
                        texts(all_paths@).take(i as int)[j as int],
                        all_paths@[i as int]@,
                    ));
                    seen = true;
                } else {
                    j += 1;
                }
            }
            if !seen {
                let ghost before = texts(out@);
                out.push(all_paths[i]);
                assert(texts(out@) =~= before.push(all_paths@[i as int]@));
            }
        }
        i += 1;
    }
    assert(texts(all_paths@).take(i as int) =~= texts(all_paths@));
    out
}

/// Each path that is left out of a segment is one of the paths given and
/// lies under the segment without being the segment.
pub proof fn lemma_exclusions_are_nested(all: Seq<Seq<char>>, path: Seq<char>, k: int)
    requires
        0 <= k < exclusions_of(all, path).len(),
    ensures
        nested_under(exclusions_of(all, path)[k], path),
        all.contains(exclusions_of(all, path)[k]),
    decreases all.len(),
{
    let earlier = all.drop_last();
    let found = exclusions_of(earlier, path);
    if k < found.len() {
        lemma_exclusions_are_nested(earlier, path, k);
        let at = choose|at: int| 0 <= at < earlier.len() && earlier[at] == found[k];
        assert(all[at] == found[k]);
    } else {
        assert(all[all.len() - 1] == all.last());
    }
}

/// Each of the paths given that lies under a segment, without being the
/// segment, is left out of it: the path itself or another spelling of it.
pub proof fn lemma_exclusions_are_complete(all: Seq<Seq<char>>, path: Seq<char>, i: int)
    requires
        0 <= i < all.len(),
        nested_under(all[i], path),
    ensures
        occurs_among(all[i], exclusions_of(all, path)),
    decreases all.len(),
{
    let earlier = all.drop_last();
    let found = exclusions_of(earlier, path);
    let result = exclusions_of(all, path);
    if i < all.len() - 1 {
        lemma_exclusions_are_complete(earlier, path, i);
        let k = choose|k: int| 0 <= k < found.len() && same_path(#[trigger] found[k], all[i]);
        assert(same_path(result[k], all[i]));
    } else if occurs_among(all.last(), earlier) {
        let j = choose|j: int| 0 <= j < earlier.len() && same_path(#[trigger] earlier[j], all.last());
        assert(nested_under(earlier[j], path));
        lemma_exclusions_are_complete(earlier, path, j);
        let k = choose|k: int| 0 <= k < found.len() && same_path(#[trigger] found[k], earlier[j]);
        assert(same_path(result[k], all[i]));
    } else {
        assert(same_path(result[result.len() - 1], all[i]));
    }
}

/// A segment is never left out of itself: its own path is none of the
/// paths that are left out of it, and lies under none of them.
pub proof fn lemma_never_self_excluded(all: Seq<Seq<char>>, path: Seq<char>)
    ensures
        !excluded_by(path, exclusions_of(all, path)),
{
    let found = exclusions_of(all, path);
    if excluded_by(path, found) {
        let k = choose|k: int| 0 <= k < found.len() && path_starts_with(path, #[trigger] found[k]);
        lemma_exclusions_are_nested(all, path, k);
        let mine = components_of(path);
        let theirs = components_of(found[k]);
        assert(mine =~= theirs);
    }
}

/// What lies at or under an excluded path is excluded.
pub proof fn lemma_excluded_below(path: Seq<char>, below: Seq<char>, exclusions: Seq<Seq<char>>)
    requires
        excluded_by(path, exclusions),
        path_starts_with(below, path),
    ensures
        excluded_by(below, exclusions),
{
    let i = choose|i: int|
        0 <= i < exclusions.len() && path_starts_with(path, #[trigger] exclusions[i]);
    let base = components_of(exclusions[i]);
    let mid = components_of(path);
    let full = components_of(below);
    assert(base.is_prefix_of(full)) by {
        assert forall|k: int| 0 <= k < base.len() implies base[k] == full[k] by {
            assert(base[k] == mid[k]);
            assert(mid[k] == full[k]);
        }
    }
    assert(path_starts_with(below, exclusions[i]));
}

/// A segment that lies under another is no part of that other: the walk
/// of the outer segment, with the exclusions that belong to it, passes
/// over the inner segment's directory and over all that lies under it,
/// whatever the ignore set.
pub proof fn lemma_nested_segment_is_skipped(
    all: Seq<Seq<char>>,
    outer: Seq<char>,
    i: int,
    below: Seq<char>,
    globs: Option<Seq<Seq<char>>>,
)
    requires
        0 <= i < all.len(),
        nested_under(all[i], outer),
        path_starts_with(below, all[i]),
    ensures
        skipped(below, Filter { exclusions: exclusions_of(all, outer), globs }),
{
    let found = exclusions_of(all, outer);
    lemma_exclusions_are_complete(all, outer, i);
    let k = choose|k: int| 0 <= k < found.len() && same_path(#[trigger] found[k], all[i]);
    assert(path_starts_with(all[i], found[k]));
    assert(excluded_by(all[i], found));
    lemma_excluded_below(all[i], below, found);
}

} // verus!
