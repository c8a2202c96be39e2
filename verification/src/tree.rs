//! A directory tree as a value, and the walk that fingerprints and
//! archives share: which entries it visits, and under which paths.

use vstd::prelude::*;
use globset::GlobSet;
use crate::globs::{globs_match, set_globs, set_is_match};
use crate::exclusion::{excluded_by, is_excluded};
use crate::path::{
    all_plain_names, child_path_of, child_rel_of, components_of, is_plain_name,
    join_components, lemma_child_components, lemma_child_rel, lemma_strip_names,
    strip_prefix_of, texts,
};

verus! {

/// One entry of a directory, as it was read.
#[derive(Debug)]
pub enum Entry {
    /// A regular file and its bytes.
    File { name: String, content: Vec<u8> },
    /// A symbolic link that is not walked into, and the target it names.
    Symlink { name: String, target: String },
    /// A directory and its entries, in the order in which they were read.
    Dir { name: String, entries: Vec<Entry> },
}

impl Entry {
    /// The entry's name in its directory.
    pub open spec fn name_of(self) -> Seq<char> {
        match self {
            Entry::File { name, .. } => name@,
            Entry::Symlink { name, .. } => name@,
            Entry::Dir { name, .. } => name@,
        }
    }

    /// The entry's name in its directory.
    pub fn name(&self) -> (r: &String)
        ensures
            r@ == self.name_of(),
    {
        match self {
            Entry::File { name, .. } => name,
            Entry::Symlink { name, .. } => name,
            Entry::Dir { name, .. } => name,
        }
    }
}

/// What a walk leaves out: the excluded paths, and the globs of the ignore
/// set if there is one.
pub struct Filter {
    pub exclusions: Seq<Seq<char>>,
    pub globs: Option<Seq<Seq<char>>>,
}

/// The filter that a walk with these arguments applies.
pub open spec fn filter_of(exclusions: Seq<&String>, ignore_patterns: Option<&GlobSet>) -> Filter {
    Filter {
        exclusions: texts(exclusions),
        globs: match ignore_patterns {
            Some(set) => Some(set_globs(*set)),
            None => None,
        },
    }
}

/// Whether the walk passes over the entry at `path`, and all below it.
pub open spec fn skipped(path: Seq<char>, filter: Filter) -> bool {
    excluded_by(path, filter.exclusions) || match filter.globs {
        Some(globs) => globs_match(globs, path),
        None => false,
    }
}

/// Whether the walk passes over the entry at `path`: it is excluded, or
/// the ignore set matches it.
pub fn is_skipped(path: &str, exclusions: &[&String], ignore_patterns: Option<&GlobSet>) -> (r:
    bool)
    ensures
        r == skipped(path@, filter_of(exclusions@, ignore_patterns)),
{
    if is_excluded(path, exclusions) {
        return true;
    }
    match ignore_patterns {
        Some(set) => set_is_match(set, path),
        None => false,
    }
}

/// What a walk comes upon. `path` is the entry's path as the filter sees
/// it, `rel` its path relative to the root of the walk.
pub enum Visited {
    /// A regular file.
    File { path: Seq<char>, rel: Seq<char>, content: Seq<u8> },
    /// A symbolic link.
    Symlink { path: Seq<char>, rel: Seq<char>, target: Seq<char> },
    /// A directory below the root in which the walk came upon nothing.
    EmptyDir { path: Seq<char>, rel: Seq<char> },
}

/// What the walk comes upon at one entry of the directory at `dir`, whose
/// path relative to the root is `rel`: nothing where the filter passes
/// over the entry; the entry itself where it is a file or a link; for a
/// directory what the walk comes upon in it, or the directory itself
/// where that is nothing.
pub open spec fn visit_entry(entry: Entry, dir: Seq<char>, rel: Seq<char>, filter: Filter) -> Seq<
    Visited,
>
    decreases entry,
{
    let path = child_path_of(dir, entry.name_of());
    let sub = child_rel_of(rel, entry.name_of());
    if skipped(path, filter) {
        Seq::empty()
    } else {
        match entry {
            Entry::File { content, .. } => seq![Visited::File { path, rel: sub, content: content@ }],
            Entry::Symlink { target, .. } => seq![
                Visited::Symlink { path, rel: sub, target: target@ },
            ],
            Entry::Dir { entries, .. } => {
                let inside = visit_entries(entries@, path, sub, filter);
                if inside.len() == 0 {
                    seq![Visited::EmptyDir { path, rel: sub }]
                } else {
                    inside
                }
            },
        }
    }
}

/// What the walk comes upon in the entries of the directory at `dir`,
/// entry by entry in the order given.
pub open spec fn visit_entries(
    entries: Seq<Entry>,
    dir: Seq<char>,
    rel: Seq<char>,
    filter: Filter,
) -> Seq<Visited>
    decreases entries,
{
    if entries.len() == 0 {
        Seq::empty()
    } else {
        visit_entries(entries.drop_last(), dir, rel, filter) + visit_entry(
            entries.last(),
            dir,
            rel,
            filter,
        )
    }
}

impl Visited {
    /// The path of what the walk came upon, relative to the root of the
    /// walk.
    pub open spec fn rel_of(self) -> Seq<char> {
        match self {
            Visited::File { rel, .. } => rel,
            Visited::Symlink { rel, .. } => rel,
            Visited::EmptyDir { rel, .. } => rel,
        }
    }

    /// The path of what the walk came upon, as the filter sees it.
    pub open spec fn path_of(self) -> Seq<char> {
        match self {
            Visited::File { path, .. } => path,
            Visited::Symlink { path, .. } => path,
            Visited::EmptyDir { path, .. } => path,
        }
    }
}

/// A listing of one entry is walked as that entry.
pub proof fn lemma_visit_one(entry: Entry, dir: Seq<char>, rel: Seq<char>, filter: Filter)
    ensures
        visit_entries(seq![entry], dir, rel, filter) == visit_entry(entry, dir, rel, filter),
{
    reveal_with_fuel(visit_entries, 2);
    assert(seq![entry].drop_last() =~= Seq::<Entry>::empty());
    assert(visit_entries(seq![entry], dir, rel, filter) =~= visit_entry(entry, dir, rel, filter));
}

/// A listing is walked part by part: what the walk comes upon in `a`
/// followed by `b` is what it comes upon in `a`, then in `b`.
pub proof fn lemma_visit_concat(
    a: Seq<Entry>,
    b: Seq<Entry>,
    dir: Seq<char>,
    rel: Seq<char>,
    filter: Filter,
)
    ensures
        visit_entries(a + b, dir, rel, filter) == visit_entries(a, dir, rel, filter) + visit_entries(
            b,
            dir,
            rel,
            filter,
        ),
    decreases b.len(),
{
    if b.len() == 0 {
        assert(a + b =~= a);
        assert(visit_entries(a, dir, rel, filter) + Seq::<Visited>::empty() =~= visit_entries(
            a,
            dir,
            rel,
            filter,
        ));
    } else {
        assert((a + b).drop_last() =~= a + b.drop_last());
        assert((a + b).last() == b.last());
        lemma_visit_concat(a, b.drop_last(), dir, rel, filter);
        assert(visit_entries(a + b, dir, rel, filter) =~= visit_entries(a, dir, rel, filter)
            + visit_entries(b, dir, rel, filter));
    }
}

/// What the walk comes upon in a listing: what it comes upon before the
/// entry at `i`, at that entry, and after it.
pub proof fn lemma_visit_split(
    entries: Seq<Entry>,
    i: int,
    dir: Seq<char>,
    rel: Seq<char>,
    filter: Filter,
)
    requires
        0 <= i < entries.len(),
    ensures
        visit_entries(entries, dir, rel, filter) == visit_entries(entries.take(i), dir, rel, filter)
            + visit_entry(entries[i], dir, rel, filter) + visit_entries(
            entries.skip(i + 1),
            dir,
            rel,
            filter,
        ),
{
    assert(entries =~= entries.take(i) + seq![entries[i]] + entries.skip(i + 1));
    lemma_visit_concat(entries.take(i) + seq![entries[i]], entries.skip(i + 1), dir, rel, filter);
    lemma_visit_concat(entries.take(i), seq![entries[i]], dir, rel, filter);
    lemma_visit_one(entries[i], dir, rel, filter);
}

/// The walk passes over an entry that is excluded or ignored, whatever
/// the entry is and whatever lies below it.
pub proof fn lemma_skipped_is_invisible(
    entry: Entry,
    dir: Seq<char>,
    rel: Seq<char>,
    filter: Filter,
)
    requires
        skipped(child_path_of(dir, entry.name_of()), filter),
    ensures
        visit_entry(entry, dir, rel, filter) == Seq::<Visited>::empty(),
{
}

/// An entry in a listing can give way to another that the walk sees in
/// the same way: the walk of the listing comes upon the same.
pub proof fn lemma_visit_replace(
    entries: Seq<Entry>,
    i: int,
    other: Entry,
    dir: Seq<char>,
    rel: Seq<char>,
    filter: Filter,
)
    requires
        0 <= i < entries.len(),
        visit_entry(other, dir, rel, filter) == visit_entry(entries[i], dir, rel, filter),
    ensures
        visit_entries(entries.update(i, other), dir, rel, filter) == visit_entries(
            entries,
            dir,
            rel,
            filter,
        ),
{
    let new = entries.update(i, other);
    lemma_visit_split(entries, i, dir, rel, filter);
    lemma_visit_split(new, i, dir, rel, filter);
    assert(new.take(i) =~= entries.take(i));
    assert(new.skip(i + 1) =~= entries.skip(i + 1));
}

/// An entry at which the walk comes upon nothing can leave the listing:
/// the walk of the listing comes upon the same.
pub proof fn lemma_visit_remove(
    entries: Seq<Entry>,
    i: int,
    dir: Seq<char>,
    rel: Seq<char>,
    filter: Filter,
)
    requires
        0 <= i < entries.len(),
        visit_entry(entries[i], dir, rel, filter) == Seq::<Visited>::empty(),
    ensures
        visit_entries(entries.remove(i), dir, rel, filter) == visit_entries(
            entries,
            dir,
            rel,
            filter,
        ),
{
    lemma_visit_split(entries, i, dir, rel, filter);
    assert(entries.remove(i) =~= entries.take(i) + entries.skip(i + 1));
    lemma_visit_concat(entries.take(i), entries.skip(i + 1), dir, rel, filter);
    assert(visit_entries(entries.take(i), dir, rel, filter) + Seq::<Visited>::empty()
        =~= visit_entries(entries.take(i), dir, rel, filter));
}

/// A directory is walked by what the walk comes upon in it: two
/// directories of one name in which the walk comes upon the same are
/// seen in the same way.
pub proof fn lemma_visit_dir(
    name: String,
    a: Vec<Entry>,
    b: Vec<Entry>,
    dir: Seq<char>,
    rel: Seq<char>,
    filter: Filter,
)
    requires
        visit_entries(a@, child_path_of(dir, name@), child_rel_of(rel, name@), filter)
            == visit_entries(b@, child_path_of(dir, name@), child_rel_of(rel, name@), filter),
    ensures
        visit_entry(Entry::Dir { name, entries: a }, dir, rel, filter) == visit_entry(
            Entry::Dir { name, entries: b },
            dir,
            rel,
            filter,
        ),
{
}

/// Nothing that the walk comes upon at an entry is excluded or ignored.
pub proof fn lemma_entry_visits_unskipped(
    entry: Entry,
    dir: Seq<char>,
    rel: Seq<char>,
    filter: Filter,
    k: int,
)
    requires
        0 <= k < visit_entry(entry, dir, rel, filter).len(),
    ensures
        !skipped(visit_entry(entry, dir, rel, filter)[k].path_of(), filter),
    decreases entry, 0int,
{
    let path = child_path_of(dir, entry.name_of());
    let sub = child_rel_of(rel, entry.name_of());
    match entry {
        Entry::Dir { entries, .. } => {
            let inside = visit_entries(entries@, path, sub, filter);
            if inside.len() > 0 {
                lemma_visits_unskipped(entries@, path, sub, filter, k);
            }
        },
        _ => {},
    }
}

/// Nothing that the walk comes upon in a listing is excluded or ignored:
/// what is excluded or ignored is in no fingerprint and in no archive.
pub proof fn lemma_visits_unskipped(
    entries: Seq<Entry>,
    dir: Seq<char>,
    rel: Seq<char>,
    filter: Filter,
    k: int,
)
    requires
        0 <= k < visit_entries(entries, dir, rel, filter).len(),
    ensures
        !skipped(visit_entries(entries, dir, rel, filter)[k].path_of(), filter),
    decreases entries, 1int,
{
    let before = visit_entries(entries.drop_last(), dir, rel, filter);
    if k < before.len() {
        lemma_visits_unskipped(entries.drop_last(), dir, rel, filter, k);
    } else {
        lemma_entry_visits_unskipped(entries.last(), dir, rel, filter, k - before.len());
    }
}

/// Whether the entry, and each entry below it, has a name that an entry
/// of a directory can have.
pub open spec fn plain_entry(entry: Entry) -> bool
    decreases entry, 0int,
{
    is_plain_name(entry.name_of()) && match entry {
        Entry::Dir { entries, .. } => plain_listing(entries@),
        _ => true,
    }
}

/// Whether each entry of the listing, and each entry below it, has a
/// name that an entry of a directory can have.
pub open spec fn plain_listing(entries: Seq<Entry>) -> bool
    decreases entries, 1int,
{
    if entries.len() == 0 {
        true
    } else {
        plain_listing(entries.drop_last()) && plain_entry(entries.last())
    }
}

/// What the walk comes upon at an entry that lies, by the names `names`,
/// under `root` has as its relative path what is left of its path below
/// `root`.
pub proof fn lemma_entry_relative(
    entry: Entry,
    dir: Seq<char>,
    rel: Seq<char>,
    filter: Filter,
    root: Seq<char>,
    names: Seq<Seq<char>>,
    k: int,
)
    requires
        plain_entry(entry),
        all_plain_names(names),
        components_of(dir) == components_of(root) + names,
        rel == join_components(names),
        0 <= k < visit_entry(entry, dir, rel, filter).len(),
    ensures
        strip_prefix_of(visit_entry(entry, dir, rel, filter)[k].path_of(), root) == Some(
            visit_entry(entry, dir, rel, filter)[k].rel_of(),
        ),
    decreases entry, 0int,
{
    let name = entry.name_of();
    let path = child_path_of(dir, name);
    let sub = child_rel_of(rel, name);
    lemma_child_components(dir, name);
    lemma_child_rel(names, name);
    assert(components_of(path) =~= components_of(root) + names.push(name));
    lemma_strip_names(path, root, names.push(name));
    match entry {
        Entry::Dir { entries, .. } => {
            let inside = visit_entries(entries@, path, sub, filter);
            if inside.len() > 0 {
                lemma_listing_relative(entries@, path, sub, filter, root, names.push(name), k);
            }
        },
        _ => {},
    }
}

/// What the walk comes upon in a listing that lies, by the names `names`,
/// under `root` has as its relative path what is left of its path below
/// `root`.
pub proof fn lemma_listing_relative(
    entries: Seq<Entry>,
    dir: Seq<char>,
    rel: Seq<char>,
    filter: Filter,
    root: Seq<char>,
    names: Seq<Seq<char>>,
    k: int,
)
    requires
        plain_listing(entries),
        all_plain_names(names),
        components_of(dir) == components_of(root) + names,
        rel == join_components(names),
        0 <= k < visit_entries(entries, dir, rel, filter).len(),
    ensures
        strip_prefix_of(visit_entries(entries, dir, rel, filter)[k].path_of(), root) == Some(
            visit_entries(entries, dir, rel, filter)[k].rel_of(),
        ),
    decreases entries, 1int,
{
    let before = visit_entries(entries.drop_last(), dir, rel, filter);
    if k < before.len() {
        lemma_listing_relative(entries.drop_last(), dir, rel, filter, root, names, k);
    } else {
        lemma_entry_relative(entries.last(), dir, rel, filter, root, names, k - before.len());
    }
}

/// In the walk of a tree whose entries have the names of entries of
/// directories, the relative path of each thing that the walk comes
/// upon is what is left of its path when the root is taken from its
/// front: the fingerprint and the archive name each file by its place
/// under the root, wherever the root lies.
pub proof fn lemma_walk_relative(entries: Seq<Entry>, src_dir: Seq<char>, filter: Filter, k: int)
    requires
        plain_listing(entries),
        0 <= k < visit_entries(entries, src_dir, Seq::empty(), filter).len(),
    ensures
        strip_prefix_of(
            visit_entries(entries, src_dir, Seq::empty(), filter)[k].path_of(),
            src_dir,
        ) == Some(visit_entries(entries, src_dir, Seq::empty(), filter)[k].rel_of()),
{
    let names = Seq::<Seq<char>>::empty();
    assert(components_of(src_dir) =~= components_of(src_dir) + names);
    lemma_listing_relative(entries, src_dir, Seq::empty(), filter, src_dir, names, k);
}

} // verus!
