//! The fingerprint of a directory tree: one digest for each file that the
//! walk comes upon, over the file's relative path and its bytes, and all
//! of them combined with exclusive or, so that their order is of no account.

use vstd::prelude::*;
use vstd::slice::slice_subrange;
use vstd::utf8::encode_utf8;
use globset::GlobSet;
use xxhash_rust::xxh3::Xxh3;
use crate::digest::{xxh3_64_of, xxh3_input};
use crate::path::{child_path, child_path_of, child_rel, child_rel_of};
use crate::text::{hex_of, push_hex};
use crate::tree::{
    filter_of, is_skipped, lemma_visit_concat, lemma_visit_remove, lemma_visit_replace,
    lemma_visit_split, skipped, visit_entries, visit_entry, Entry, Filter, Visited,
};

verus! {

/// How many bytes of a file the hasher is given at a time.
pub const HASHER_BUFFER_SIZE: usize = 8192;

/// The digest of one file: the hash of its relative path, as UTF-8,
/// followed by `payload`, which is the file's bytes or, for a symbolic
/// link, the target it names.
pub open spec fn file_digest(rel: Seq<char>, payload: Seq<u8>) -> u64 {
    xxh3_64_of(encode_utf8(rel) + payload)
}

/// The digest that a visited entry adds: a directory adds none.
pub open spec fn digest_of(item: Visited) -> Option<u64> {
    match item {
        Visited::File { rel, content, .. } => Some(file_digest(rel, content)),
        Visited::Symlink { rel, target, .. } => Some(file_digest(rel, encode_utf8(target))),
        Visited::EmptyDir { .. } => None,
    }
}

/// The digests of the files among `items`, in order.
pub open spec fn file_digests(items: Seq<Visited>) -> Seq<u64>
    decreases items.len(),
{
    if items.len() == 0 {
        Seq::empty()
    } else {
        let before = file_digests(items.drop_last());
        match digest_of(items.last()) {
            Some(d) => before.push(d),
            None => before,
        }
    }
}

/// All of `digests` combined with exclusive or; 0 where there is none.
pub open spec fn xor_all(digests: Seq<u64>) -> u64
    decreases digests.len(),
{
    if digests.len() == 0 {
        0
    } else {
        xor_all(digests.drop_last()) ^ digests.last()
    }
}

/// The value that stands for a tree whose files have these digests: the
/// digests combined, or the hash of no bytes where there is no file.
pub open spec fn combined_digest(digests: Seq<u64>) -> u64 {
    if digests.len() == 0 {
        xxh3_64_of(Seq::empty())
    } else {
        xor_all(digests)
    }
}

/// The fingerprint of the tree whose root directory is at `dir` and has
/// the entries `entries`: 16 hexadecimal digits.
pub open spec fn segment_hash_of(entries: Seq<Entry>, dir: Seq<char>, filter: Filter) -> Seq<char> {
    hex_of(
        combined_digest(file_digests(visit_entries(entries, dir, Seq::empty(), filter))) as nat,
        16,
    )
}

/// The digests of the files among `a` and then `b` are those of `a`, then
/// those of `b`.
pub proof fn lemma_file_digests_concat(a: Seq<Visited>, b: Seq<Visited>)
    ensures
        file_digests(a + b) == file_digests(a) + file_digests(b),
    decreases b.len(),
{
    if b.len() == 0 {
        assert(a + b =~= a);
        assert(file_digests(a) + file_digests(b) =~= file_digests(a));
    } else {
        assert((a + b).drop_last() =~= a + b.drop_last());
        assert((a + b).last() == b.last());
        lemma_file_digests_concat(a, b.drop_last());
        match digest_of(b.last()) {
            Some(d) => {
                assert(file_digests(a + b) =~= file_digests(a) + file_digests(b));
            },
            None => {},
        }
    }
}

/// One visited entry adds its digest, if it has one.
pub proof fn lemma_file_digests_one(item: Visited)
    ensures
        file_digests(seq![item]) == match digest_of(item) {
            Some(d) => seq![d],
            None => Seq::empty(),
        },
{
    reveal_with_fuel(file_digests, 2);
    assert(seq![item].drop_last() =~= Seq::<Visited>::empty());
    assert(file_digests(seq![item]) =~= match digest_of(item) {
        Some(d) => seq![d],
        None => Seq::empty(),
    });
}

/// Exclusive or is associative and commutative, and 0 changes nothing.
proof fn lemma_xor_assoc(x: u64, y: u64, z: u64)
    ensures
        (x ^ y) ^ z == x ^ (y ^ z),
        x ^ y == y ^ x,
        x ^ 0 == x,
{
    assert((x ^ y) ^ z == x ^ (y ^ z)) by (bit_vector);
    assert(x ^ y == y ^ x) by (bit_vector);
    assert(x ^ 0 == x) by (bit_vector);
}

/// One digest combines to itself.
pub proof fn lemma_xor_all_one(d: u64)
    ensures
        xor_all(seq![d]) == d,
{
    reveal_with_fuel(xor_all, 2);
    assert(seq![d].drop_last() =~= Seq::<u64>::empty());
    assert(0u64 ^ d == d) by (bit_vector);
}

/// Combining `a` and then `b` is combining what each of them combines to.
pub proof fn lemma_xor_all_concat(a: Seq<u64>, b: Seq<u64>)
    ensures
        xor_all(a + b) == xor_all(a) ^ xor_all(b),
    decreases b.len(),
{
    if b.len() == 0 {
        assert(a + b =~= a);
        lemma_xor_assoc(xor_all(a), 0, 0);
    } else {
        assert((a + b).drop_last() =~= a + b.drop_last());
        assert((a + b).last() == b.last());
        lemma_xor_all_concat(a, b.drop_last());
        lemma_xor_assoc(xor_all(a), xor_all(b.drop_last()), b.last());
    }
}

/// The digest of one file: the hash of its relative path followed by
/// `payload`, which the hasher is given in blocks of `HASHER_BUFFER_SIZE`.
pub fn hash_file(relative_path: &str, payload: &[u8]) -> (hash: u64)
    ensures
        hash == file_digest(relative_path@, payload@),
{
    let mut hasher = Xxh3::new();
    hasher.update(relative_path.as_bytes());
    let mut offset: usize = 0;
    assert(payload@.take(0) =~= Seq::<u8>::empty());
    assert(xxh3_input(hasher) =~= encode_utf8(relative_path@) + payload@.take(0));
    while offset < payload.len()
        invariant
            offset <= payload.len(),
            xxh3_input(hasher) == encode_utf8(relative_path@) + payload@.take(offset as int),
        decreases payload.len() - offset,
    {
        let end = if payload.len() - offset > HASHER_BUFFER_SIZE {
            offset + HASHER_BUFFER_SIZE
        } else {
            payload.len()
        };
        hasher.update(slice_subrange(payload, offset, end));
        assert(payload@.take(offset as int) + payload@.subrange(offset as int, end as int)
            =~= payload@.take(end as int));
        assert(xxh3_input(hasher) =~= encode_utf8(relative_path@) + payload@.take(end as int));
        offset = end;
    }
    assert(payload@.take(offset as int) =~= payload@);
    hasher.digest()
}

/// The files that a walk of `entries` comes upon, as one value: their
/// digests combined with exclusive or, and whether there was any file.
/// `current_dir` is the path of the directory that holds `entries`,
/// `relative_dir` its path relative to the root of the walk.
pub fn hash_dir_contents(
    current_dir: &str,
    relative_dir: &str,
    entries: &Vec<Entry>,
    exclusions: &[&String],
    ignore_patterns: Option<&GlobSet>,
) -> (r: (u64, bool))
    ensures
        r.0 == xor_all(
            file_digests(
                visit_entries(
                    entries@,
                    current_dir@,
                    relative_dir@,
                    filter_of(exclusions@, ignore_patterns),
                ),
            ),
        ),
        r.1 == (file_digests(
            visit_entries(
                entries@,
                current_dir@,
                relative_dir@,
                filter_of(exclusions@, ignore_patterns),
            ),
        ).len() > 0),
    decreases entries,
{
    let ghost filter = filter_of(exclusions@, ignore_patterns);
    let mut combined_hash: u64 = 0;
    let mut any_file = false;
    let mut i: usize = 0;
    assert(entries@.take(0) =~= Seq::<Entry>::empty());
    while i < entries.len()
        invariant
            i <= entries.len(),
            filter == filter_of(exclusions@, ignore_patterns),
            combined_hash == xor_all(
                file_digests(visit_entries(entries@.take(i as int), current_dir@, relative_dir@, filter)),
            ),
            any_file == (file_digests(
                visit_entries(entries@.take(i as int), current_dir@, relative_dir@, filter),
            ).len() > 0),
        decreases entries.len() - i,
    {
        let entry = &entries[i];
        let ghost before = visit_entries(entries@.take(i as int), current_dir@, relative_dir@, filter);
        let ghost here = visit_entry(*entry, current_dir@, relative_dir@, filter);
        proof {
            assert(entries@.take(i + 1).drop_last() =~= entries@.take(i as int));
            assert(entries@.take(i + 1).last() == *entry);
            lemma_file_digests_concat(before, here);
            lemma_xor_all_concat(file_digests(before), file_digests(here));
        }
        let path = child_path(current_dir, entry.name().as_str());
        let sub = child_rel(relative_dir, entry.name().as_str());
        let mut hash: u64 = 0;
        let mut found = false;
        if !is_skipped(path.as_str(), exclusions, ignore_patterns) {
            match entry {
                Entry::Dir { entries: inside, .. } => {
                    let r = hash_dir_contents(
                        path.as_str(),
                        sub.as_str(),
                        inside,
                        exclusions,
                        ignore_patterns,
                    );
                    hash = r.0;
                    found = r.1;
                    proof {
                        let within = visit_entries(inside@, path@, sub@, filter);
                        if within.len() == 0 {
                            lemma_file_digests_one(Visited::EmptyDir { path: path@, rel: sub@ });
                        }
                    }
                },
                Entry::File { content, .. } => {
                    hash = hash_file(sub.as_str(), content.as_slice());
                    found = true;
                    proof {
                        lemma_file_digests_one(
                            Visited::File { path: path@, rel: sub@, content: content@ },
                        );
                        lemma_xor_all_one(hash);
                    }
                },
                Entry::Symlink { target, .. } => {
                    hash = hash_file(sub.as_str(), target.as_str().as_bytes());
                    found = true;
                    proof {
                        lemma_file_digests_one(
                            Visited::Symlink { path: path@, rel: sub@, target: target@ },
                        );
                        lemma_xor_all_one(hash);
                    }
                },
            }
        } else {
            assert(file_digests(here) =~= Seq::<u64>::empty());
        }
        assert(hash == xor_all(file_digests(here)));
        assert(found == (file_digests(here).len() > 0));
        combined_hash = combined_hash ^ hash;
        any_file = any_file || found;
        i += 1;
    }
    assert(entries@.take(i as int) =~= entries@);
    (combined_hash, any_file)
}

/// The fingerprint of the tree whose root directory is at `src_dir` and
/// has the entries `entries`, as 16 hexadecimal digits. Entries that are
/// excluded or ignored, and all below them, leave no trace in it.
pub fn compute_segment_hash(
    src_dir: &str,
    entries: &Vec<Entry>,
    exclusions: &[&String],
    ignore_patterns: Option<&GlobSet>,
) -> (hash: String)
    ensures
        hash@ == segment_hash_of(entries@, src_dir@, filter_of(exclusions@, ignore_patterns)),
{
    let root = String::new();
    let r = hash_dir_contents(src_dir, root.as_str(), entries, exclusions, ignore_patterns);
    let mut combined_hash = r.0;
    // Without a file the tree stands for the hash of no bytes.
    if !r.1 {
        let hasher = Xxh3::new();
        combined_hash = hasher.digest();
    }
    let mut hash = String::new();
    push_hex(&mut hash, combined_hash, 16);
    assert(hash@ =~= hex_of(combined_hash as nat, 16));
    hash
}

/// The digests of the files that the walk comes upon at one entry.
pub open spec fn entry_digests(entry: Entry, dir: Seq<char>, rel: Seq<char>, filter: Filter) -> Seq<
    u64,
> {
    file_digests(visit_entry(entry, dir, rel, filter))
}

/// The digests of the files that the walk comes upon in a listing.
pub open spec fn listing_digests(
    entries: Seq<Entry>,
    dir: Seq<char>,
    rel: Seq<char>,
    filter: Filter,
) -> Seq<u64> {
    file_digests(visit_entries(entries, dir, rel, filter))
}

/// Taking one digest out of the combination is combining the others and
/// then that one.
pub proof fn lemma_xor_all_remove(digests: Seq<u64>, j: int)
    requires
        0 <= j < digests.len(),
    ensures
        xor_all(digests) == xor_all(digests.remove(j)) ^ digests[j],
{
    let head = digests.take(j);
    let tail = digests.skip(j + 1);
    assert(digests =~= head + seq![digests[j]] + tail);
    assert(digests.remove(j) =~= head + tail);
    lemma_xor_all_concat(head + seq![digests[j]], tail);
    lemma_xor_all_concat(head, seq![digests[j]]);
    lemma_xor_all_one(digests[j]);
    lemma_xor_all_concat(head, tail);
    let h = xor_all(head);
    let t = xor_all(tail);
    let x = digests[j];
    assert((h ^ x) ^ t == (h ^ t) ^ x) by (bit_vector);
}

/// The combination of digests does not depend on their order: sequences
/// that hold the same digests, each as often, combine to the same value.
pub proof fn lemma_xor_all_multiset(a: Seq<u64>, b: Seq<u64>)
    requires
        a.to_multiset() == b.to_multiset(),
    ensures
        xor_all(a) == xor_all(b),
        a.len() == b.len(),
    decreases a.len(),
{
    a.to_multiset_ensures();
    b.to_multiset_ensures();
    if a.len() > 0 {
        let x = a.last();
        let rest = a.drop_last();
        rest.to_multiset_ensures();
        assert(a =~= rest.push(x));
        assert(a.contains(x));
        vstd::seq_lib::to_multiset_contains(a, x);
        vstd::seq_lib::to_multiset_contains(b, x);
        assert(b.contains(x));
        let j = choose|j: int| 0 <= j < b.len() && b[j] == x;
        let others = b.remove(j);
        assert(rest.to_multiset() =~= a.to_multiset().remove(x));
        lemma_xor_all_multiset(rest, others);
        lemma_xor_all_remove(b, j);
    }
}

/// The digests of a listing are those of its entries, entry by entry.
pub proof fn lemma_listing_digests_split(
    entries: Seq<Entry>,
    i: int,
    dir: Seq<char>,
    rel: Seq<char>,
    filter: Filter,
)
    requires
        0 <= i < entries.len(),
    ensures
        listing_digests(entries, dir, rel, filter) == listing_digests(
            entries.take(i),
            dir,
            rel,
            filter,
        ) + entry_digests(entries[i], dir, rel, filter) + listing_digests(
            entries.skip(i + 1),
            dir,
            rel,
            filter,
        ),
        listing_digests(entries.remove(i), dir, rel, filter) == listing_digests(
            entries.take(i),
            dir,
            rel,
            filter,
        ) + listing_digests(entries.skip(i + 1), dir, rel, filter),
{
    let head = visit_entries(entries.take(i), dir, rel, filter);
    let here = visit_entry(entries[i], dir, rel, filter);
    let tail = visit_entries(entries.skip(i + 1), dir, rel, filter);
    lemma_visit_split(entries, i, dir, rel, filter);
    lemma_file_digests_concat(head + here, tail);
    lemma_file_digests_concat(head, here);
    assert(entries.remove(i) =~= entries.take(i) + entries.skip(i + 1));
    lemma_visit_concat(entries.take(i), entries.skip(i + 1), dir, rel, filter);
    lemma_file_digests_concat(head, tail);
}

/// The order of a directory's entries is of no account to the digests
/// that its walk yields: listings that hold the same entries yield the
/// same digests, each as often.
pub proof fn lemma_listing_digests_multiset(
    a: Seq<Entry>,
    b: Seq<Entry>,
    dir: Seq<char>,
    rel: Seq<char>,
    filter: Filter,
)
    requires
        a.to_multiset() == b.to_multiset(),
    ensures
        listing_digests(a, dir, rel, filter).to_multiset() == listing_digests(
            b,
            dir,
            rel,
            filter,
        ).to_multiset(),
    decreases a.len(),
{
    a.to_multiset_ensures();
    b.to_multiset_ensures();
    if a.len() == 0 {
        assert(b.len() == 0);
    } else {
        let e = a.last();
        let rest = a.drop_last();
        rest.to_multiset_ensures();
        assert(a =~= rest.push(e));
        assert(a.contains(e));
        vstd::seq_lib::to_multiset_contains(a, e);
        vstd::seq_lib::to_multiset_contains(b, e);
        assert(b.contains(e));
        let j = choose|j: int| 0 <= j < b.len() && b[j] == e;
        let others = b.remove(j);
        assert(rest.to_multiset() =~= a.to_multiset().remove(e));
        lemma_listing_digests_multiset(rest, others, dir, rel, filter);
        let head = listing_digests(b.take(j), dir, rel, filter);
        let here = entry_digests(e, dir, rel, filter);
        let tail = listing_digests(b.skip(j + 1), dir, rel, filter);
        lemma_listing_digests_split(b, j, dir, rel, filter);
        lemma_file_digests_concat(
            visit_entries(rest, dir, rel, filter),
            visit_entry(e, dir, rel, filter),
        );
        vstd::seq_lib::lemma_multiset_commutative(listing_digests(rest, dir, rel, filter), here);
        vstd::seq_lib::lemma_multiset_commutative(head + here, tail);
        vstd::seq_lib::lemma_multiset_commutative(head, here);
        vstd::seq_lib::lemma_multiset_commutative(head, tail);
        assert(head.to_multiset().add(here.to_multiset()).add(tail.to_multiset())
            =~= head.to_multiset().add(tail.to_multiset()).add(here.to_multiset()));
    }
}

/// A directory yields the digests of the files in it: a directory in
/// which the walk comes upon nothing yields none.
pub proof fn lemma_dir_digests(
    name: String,
    entries: Vec<Entry>,
    dir: Seq<char>,
    rel: Seq<char>,
    filter: Filter,
)
    requires
        !skipped(child_path_of(dir, name@), filter),
    ensures
        entry_digests(Entry::Dir { name, entries }, dir, rel, filter) == listing_digests(
            entries@,
            child_path_of(dir, name@),
            child_rel_of(rel, name@),
            filter,
        ),
{
    let path = child_path_of(dir, name@);
    let sub = child_rel_of(rel, name@);
    if visit_entries(entries@, path, sub, filter).len() == 0 {
        lemma_file_digests_one(Visited::EmptyDir { path, rel: sub });
    }
}

/// An entry in a listing can give way to another that yields the same
/// digests, each as often: the listing then does too.
pub proof fn lemma_listing_digests_replace(
    entries: Seq<Entry>,
    i: int,
    other: Entry,
    dir: Seq<char>,
    rel: Seq<char>,
    filter: Filter,
)
    requires
        0 <= i < entries.len(),
        entry_digests(other, dir, rel, filter).to_multiset() == entry_digests(
            entries[i],
            dir,
            rel,
            filter,
        ).to_multiset(),
    ensures
        listing_digests(entries.update(i, other), dir, rel, filter).to_multiset()
            == listing_digests(entries, dir, rel, filter).to_multiset(),
{
    let new = entries.update(i, other);
    lemma_listing_digests_split(entries, i, dir, rel, filter);
    lemma_listing_digests_split(new, i, dir, rel, filter);
    assert(new.take(i) =~= entries.take(i));
    assert(new.skip(i + 1) =~= entries.skip(i + 1));
    let head = listing_digests(entries.take(i), dir, rel, filter);
    let tail = listing_digests(entries.skip(i + 1), dir, rel, filter);
    let old_here = entry_digests(entries[i], dir, rel, filter);
    let new_here = entry_digests(other, dir, rel, filter);
    vstd::seq_lib::lemma_multiset_commutative(head + old_here, tail);
    vstd::seq_lib::lemma_multiset_commutative(head, old_here);
    vstd::seq_lib::lemma_multiset_commutative(head + new_here, tail);
    vstd::seq_lib::lemma_multiset_commutative(head, new_here);
}

/// The value that stands for a tree depends on the digests of its files
/// alone, not on their order.
pub proof fn lemma_combined_digest_multiset(a: Seq<u64>, b: Seq<u64>)
    requires
        a.to_multiset() == b.to_multiset(),
    ensures
        combined_digest(a) == combined_digest(b),
{
    lemma_xor_all_multiset(a, b);
}

/// The fingerprint of a tree does not depend on the order in which the
/// entries of its root directory were read.
pub proof fn lemma_segment_hash_ignores_order(
    a: Seq<Entry>,
    b: Seq<Entry>,
    dir: Seq<char>,
    filter: Filter,
)
    requires
        a.to_multiset() == b.to_multiset(),
    ensures
        segment_hash_of(a, dir, filter) == segment_hash_of(b, dir, filter),
{
    lemma_listing_digests_multiset(a, b, dir, Seq::empty(), filter);
    lemma_combined_digest_multiset(
        listing_digests(a, dir, Seq::empty(), filter),
        listing_digests(b, dir, Seq::empty(), filter),
    );
}

/// Nor does it depend on the order of the entries of any directory
/// below the root: an entry of the root can give way to one that yields
/// the same digests, each as often, such as the same directory read in
/// another order.
pub proof fn lemma_segment_hash_ignores_order_below(
    entries: Seq<Entry>,
    i: int,
    other: Entry,
    dir: Seq<char>,
    filter: Filter,
)
    requires
        0 <= i < entries.len(),
        entry_digests(other, dir, Seq::empty(), filter).to_multiset() == entry_digests(
            entries[i],
            dir,
            Seq::empty(),
            filter,
        ).to_multiset(),
    ensures
        segment_hash_of(entries.update(i, other), dir, filter) == segment_hash_of(
            entries,
            dir,
            filter,
        ),
{
    lemma_listing_digests_replace(entries, i, other, dir, Seq::empty(), filter);
    lemma_combined_digest_multiset(
        listing_digests(entries.update(i, other), dir, Seq::empty(), filter),
        listing_digests(entries, dir, Seq::empty(), filter),
    );
}

/// What is excluded or ignored leaves no trace in the fingerprint: an
/// entry of the root that the walk passes over can give way to any other
/// entry of its name, or leave the listing, and the fingerprint stays.
pub proof fn lemma_segment_hash_ignores_skipped(
    entries: Seq<Entry>,
    i: int,
    other: Entry,
    dir: Seq<char>,
    filter: Filter,
)
    requires
        0 <= i < entries.len(),
        skipped(child_path_of(dir, entries[i].name_of()), filter),
        other.name_of() == entries[i].name_of(),
    ensures
        segment_hash_of(entries.update(i, other), dir, filter) == segment_hash_of(
            entries,
            dir,
            filter,
        ),
        segment_hash_of(entries.remove(i), dir, filter) == segment_hash_of(entries, dir, filter),
{
    lemma_visit_replace(entries, i, other, dir, Seq::empty(), filter);
    lemma_visit_remove(entries, i, dir, Seq::empty(), filter);
}

/// What the fingerprint takes of a visited entry: of a file its relative
/// path and its bytes, of a link its relative path and the target it
/// names, of a directory nothing.
pub open spec fn file_key(item: Visited) -> Option<(Seq<char>, Seq<u8>)> {
    match item {
        Visited::File { rel, content, .. } => Some((rel, content)),
        Visited::Symlink { rel, target, .. } => Some((rel, encode_utf8(target))),
        Visited::EmptyDir { .. } => None,
    }
}

/// What the fingerprint takes of the entries `items`, in order.
pub open spec fn file_keys(items: Seq<Visited>) -> Seq<(Seq<char>, Seq<u8>)>
    decreases items.len(),
{
    if items.len() == 0 {
        Seq::empty()
    } else {
        let before = file_keys(items.drop_last());
        match file_key(items.last()) {
            Some(key) => before.push(key),
            None => before,
        }
    }
}

/// The digests of files given by their relative paths and payloads.
pub open spec fn digests_of_keys(keys: Seq<(Seq<char>, Seq<u8>)>) -> Seq<u64> {
    Seq::new(keys.len(), |i: int| file_digest(keys[i].0, keys[i].1))
}

/// The digests of the files among `items` are the digests of what the
/// fingerprint takes of them.
pub proof fn lemma_file_digests_by_keys(items: Seq<Visited>)
    ensures
        file_digests(items) == digests_of_keys(file_keys(items)),
    decreases items.len(),
{
    if items.len() > 0 {
        lemma_file_digests_by_keys(items.drop_last());
    }
    assert(file_digests(items) =~= digests_of_keys(file_keys(items)));
}

/// The same files, in whatever order, have the same digests.
pub proof fn lemma_digests_of_keys_multiset(
    a: Seq<(Seq<char>, Seq<u8>)>,
    b: Seq<(Seq<char>, Seq<u8>)>,
)
    requires
        a.to_multiset() == b.to_multiset(),
    ensures
        digests_of_keys(a).to_multiset() == digests_of_keys(b).to_multiset(),
    decreases a.len(),
{
    a.to_multiset_ensures();
    b.to_multiset_ensures();
    if a.len() == 0 {
        assert(b.len() == 0);
        assert(digests_of_keys(a) =~= digests_of_keys(b));
    } else {
        let x = a.last();
        let rest = a.drop_last();
        rest.to_multiset_ensures();
        assert(a =~= rest.push(x));
        assert(a.contains(x));
        vstd::seq_lib::to_multiset_contains(a, x);
        vstd::seq_lib::to_multiset_contains(b, x);
        let j = choose|j: int| 0 <= j < b.len() && b[j] == x;
        let others = b.remove(j);
        assert(rest.to_multiset() =~= a.to_multiset().remove(x));
        lemma_digests_of_keys_multiset(rest, others);
        let d = file_digest(x.0, x.1);
        let da = digests_of_keys(a);
        let db = digests_of_keys(b);
        assert(da =~= digests_of_keys(rest).push(d));
        assert(digests_of_keys(others) =~= db.remove(j));
        digests_of_keys(rest).to_multiset_ensures();
        db.to_multiset_ensures();
        assert(db[j] == d);
        assert(db.contains(d));
        vstd::seq_lib::to_multiset_contains(db, d);
        assert(db.to_multiset() =~= db.remove(j).to_multiset().insert(d));
    }
}

/// The fingerprint stands for the files that the walk comes upon, each
/// by its relative path and its bytes or its target, and for nothing
/// else: two walks that come upon the same files, in whatever order and
/// under whatever roots, lead to the same fingerprint.
pub proof fn lemma_same_files_same_hash(
    a: Seq<Entry>,
    a_dir: Seq<char>,
    a_filter: Filter,
    b: Seq<Entry>,
    b_dir: Seq<char>,
    b_filter: Filter,
)
    requires
        file_keys(visit_entries(a, a_dir, Seq::empty(), a_filter)).to_multiset() == file_keys(
            visit_entries(b, b_dir, Seq::empty(), b_filter),
        ).to_multiset(),
    ensures
        segment_hash_of(a, a_dir, a_filter) == segment_hash_of(b, b_dir, b_filter),
{
    let va = visit_entries(a, a_dir, Seq::empty(), a_filter);
    let vb = visit_entries(b, b_dir, Seq::empty(), b_filter);
    lemma_file_digests_by_keys(va);
    lemma_file_digests_by_keys(vb);
    lemma_digests_of_keys_multiset(file_keys(va), file_keys(vb));
    lemma_combined_digest_multiset(file_digests(va), file_digests(vb));
}

} // verus!
