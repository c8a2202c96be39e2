//! The plan of an archive: which entries go into it, in which order and
//! under which names, and the sink that it is written through.
//!
//! The library writes no archive. Its caller puts the entries of the plan
//! through an archive writer and a compressor into the sink.

use vstd::prelude::*;
use vstd::string::StringExecFns;
use vstd::utf8::encode_utf8;
use globset::GlobSet;
use crate::exclusion::excluded_by;
use crate::path::{child_path, child_path_of, child_rel, strip_prefix, strip_prefix_of};
use crate::rolling_writer::{steps_of, RollingWriter, SinkAction, SinkState, Step};
use crate::text::{opt_text, padded_decimal_of, push_decimal};
use crate::tree::{
    filter_of, is_skipped, lemma_visit_remove, lemma_visit_replace, lemma_visits_unskipped,
    skipped, visit_entries, visit_entry, Entry, Filter, Visited,
};

verus! {

/// Why a logical path could not be formed.
#[derive(Debug, Clone, Copy, PartialEq, Eq, Structural)]
pub enum PathError {
    /// The path does not start with the root that was to be removed.
    InvalidRoot,
}

impl PathError {
    /// The text of the error.
    pub fn message(&self) -> (r: String)
        ensures
            r@ == "Invalid root path"@,
    {
        String::from_str("Invalid root path")
    }
}

/// The logical path of a segment: `path` itself where no root is given,
/// else what is left of `path` below the root.
pub open spec fn logical_path_of(path: Seq<char>, root: Option<Seq<char>>) -> Option<Seq<char>> {
    match root {
        None => Some(path),
        Some(r) => strip_prefix_of(path, r),
    }
}

/// The logical path of the segment at `path`: `path` with `root_path`
/// removed from its front, if one is given.
pub fn strip_root(path: &str, root_path: &Option<String>) -> (r: Result<String, PathError>)
    ensures
        match r {
            Ok(s) => logical_path_of(path@, opt_text(*root_path)) == Some(s@),
            Err(e) => e == PathError::InvalidRoot && logical_path_of(
                path@,
                opt_text(*root_path),
            ) is None,
        },
{
    match root_path {
        None => Ok(path.to_owned()),
        Some(root) => match strip_prefix(path, root.as_str()) {
            Some(rest) => Ok(rest),
            None => Err(PathError::InvalidRoot),
        },
    }
}

/// The mode of the entries that the archive is given by the plan:
/// `rw-r--r--`.
pub const FILE_MODE_READ: u32 = 0o644;

/// The name of the entry that holds the segment's logical path.
pub open spec fn path_file_name() -> Seq<char> {
    ".seg_arc.path"@
}

/// One entry of an archive, as a value of specifications.
pub enum Planned {
    /// A file whose bytes the plan gives.
    Data { name: Seq<char>, mode: u32, content: Seq<u8> },
    /// The regular file at `source`, under the name `name`.
    File { name: Seq<char>, source: Seq<char> },
    /// A symbolic link with the target `target`, as it is written.
    Symlink { name: Seq<char>, target: Seq<char>, mode: u32 },
    /// The directory at `source`, without anything in it.
    Directory { name: Seq<char>, source: Seq<char> },
}

/// One entry that is to go into the archive.
#[derive(Debug, PartialEq, Eq)]
pub enum ArchiveEntry {
    /// A file whose bytes the plan gives.
    Data { name: String, mode: u32, content: Vec<u8> },
    /// The regular file at `source`, under the name `name`.
    File { name: String, source: String },
    /// A symbolic link with the target `target`, as it is written, whether
    /// or not anything is there.
    Symlink { name: String, target: String, mode: u32 },
    /// The directory at `source`, without anything in it.
    Directory { name: String, source: String },
}

impl View for ArchiveEntry {
    type V = Planned;

    open spec fn view(&self) -> Planned {
        match *self {
            ArchiveEntry::Data { name, mode, content } => Planned::Data {
                name: name@,
                mode,
                content: content@,
            },
            ArchiveEntry::File { name, source } => Planned::File { name: name@, source: source@ },
            ArchiveEntry::Symlink { name, target, mode } => Planned::Symlink {
                name: name@,
                target: target@,
                mode,
            },
            ArchiveEntry::Directory { name, source } => Planned::Directory {
                name: name@,
                source: source@,
            },
        }
    }
}

/// The entries as values of specifications.
pub open spec fn planned_of(entries: Seq<ArchiveEntry>) -> Seq<Planned> {
    Seq::new(entries.len(), |i: int| entries[i]@)
}

/// The archive entry for what the walk came upon: each under its path
/// relative to the root of the walk.
pub open spec fn entry_for(item: Visited) -> Planned {
    match item {
        Visited::File { path, rel, .. } => Planned::File { name: rel, source: path },
        Visited::Symlink { rel, target, .. } => Planned::Symlink {
            name: rel,
            target,
            mode: FILE_MODE_READ,
        },
        Visited::EmptyDir { path, rel } => Planned::Directory { name: rel, source: path },
    }
}

/// The archive entries for all that the walk came upon, in order.
pub open spec fn entries_for(items: Seq<Visited>) -> Seq<Planned> {
    Seq::new(items.len(), |i: int| entry_for(items[i]))
}

/// Adding an entry adds its view.
pub proof fn lemma_planned_push(entries: Seq<ArchiveEntry>, entry: ArchiveEntry)
    ensures
        planned_of(entries.push(entry)) == planned_of(entries).push(entry@),
{
    assert(planned_of(entries.push(entry)) =~= planned_of(entries).push(entry@));
}

/// The entries for `a` and then `b` are those for `a`, then those for `b`.
pub proof fn lemma_entries_for_concat(a: Seq<Visited>, b: Seq<Visited>)
    ensures
        entries_for(a + b) == entries_for(a) + entries_for(b),
{
    assert(entries_for(a + b) =~= entries_for(a) + entries_for(b));
}

/// Puts the entry for one file into the plan: a link, with its target as
/// it is written, where `link_target` is given; else a regular file.
pub fn append_file(
    plan: &mut Vec<ArchiveEntry>,
    path: &str,
    relative_path: &str,
    link_target: Option<&String>,
)
    ensures
        planned_of(final(plan)@) == planned_of(old(plan)@).push(
            match link_target {
                Some(target) => Planned::Symlink {
                    name: relative_path@,
                    target: target@,
                    mode: FILE_MODE_READ,
                },
                None => Planned::File { name: relative_path@, source: path@ },
            },
        ),
{
    let entry = match link_target {
        Some(target) => ArchiveEntry::Symlink {
            name: relative_path.to_owned(),
            target: target.clone(),
            mode: FILE_MODE_READ,
        },
        None => ArchiveEntry::File { name: relative_path.to_owned(), source: path.to_owned() },
    };
    proof {
        lemma_planned_push(plan@, entry);
    }
    plan.push(entry);
}

/// Puts the entries for a directory's contents into the plan, as the walk
/// comes upon them: files and links; directories by what is in them; a
/// directory in which the walk comes upon nothing as itself.
/// `current_dir` is the path of the directory that holds `entries`,
/// `relative_dir` its path relative to the root of the walk.
pub fn append_dir_contents(
    plan: &mut Vec<ArchiveEntry>,
    current_dir: &str,
    relative_dir: &str,
    entries: &Vec<Entry>,
    exclusions: &[&String],
    ignore_patterns: Option<&GlobSet>,
)
    ensures
        planned_of(final(plan)@) == planned_of(old(plan)@) + entries_for(
            visit_entries(
                entries@,
                current_dir@,
                relative_dir@,
                filter_of(exclusions@, ignore_patterns),
            ),
        ),
    decreases entries,
{
    let ghost filter = filter_of(exclusions@, ignore_patterns);
    let ghost start = planned_of(plan@);
    let mut i: usize = 0;
    assert(entries@.take(0) =~= Seq::<Entry>::empty());
    assert(planned_of(plan@) =~= start + entries_for(Seq::<Visited>::empty()));
    while i < entries.len()
        invariant
            i <= entries.len(),
            filter == filter_of(exclusions@, ignore_patterns),
            planned_of(plan@) == start + entries_for(
                visit_entries(entries@.take(i as int), current_dir@, relative_dir@, filter),
            ),
        decreases entries.len() - i,
    {
        let entry = &entries[i];
        let ghost before = visit_entries(entries@.take(i as int), current_dir@, relative_dir@, filter);
        let ghost here = visit_entry(*entry, current_dir@, relative_dir@, filter);
        let ghost held = planned_of(plan@);
        proof {
            assert(entries@.take(i + 1).drop_last() =~= entries@.take(i as int));
            assert(entries@.take(i + 1).last() == *entry);
            lemma_entries_for_concat(before, here);
        }
        let path = child_path(current_dir, entry.name().as_str());
        let sub = child_rel(relative_dir, entry.name().as_str());
        if !is_skipped(path.as_str(), exclusions, ignore_patterns) {
            match entry {
                Entry::Dir { entries: inside, .. } => {
                    let held_len = plan.len();
                    append_dir_contents(
                        plan,
                        path.as_str(),
                        sub.as_str(),
                        inside,
                        exclusions,
                        ignore_patterns,
                    );
                    // A directory that gave the plan nothing goes in as itself.
                    if plan.len() == held_len {
                        let dir = ArchiveEntry::Directory { name: sub, source: path };
                        proof {
                            lemma_planned_push(plan@, dir);
                            assert(planned_of(plan@) =~= held);
                        }
                        plan.push(dir);
                        assert(planned_of(plan@) =~= held + entries_for(here));
                    } else {
                        assert(planned_of(plan@) =~= held + entries_for(here));
                    }
                },
                Entry::File { .. } => {
                    append_file(plan, path.as_str(), sub.as_str(), None);
                    assert(planned_of(plan@) =~= held + entries_for(here));
                },
                Entry::Symlink { target, .. } => {
                    append_file(plan, path.as_str(), sub.as_str(), Some(target));
                    assert(planned_of(plan@) =~= held + entries_for(here));
                },
            }
        } else {
            assert(planned_of(plan@) =~= held + entries_for(here));
        }
        assert(planned_of(plan@) =~= start + entries_for(before + here));
        i += 1;
    }
    assert(entries@.take(i as int) =~= entries@);
}

/// Why no archive can be planned.
#[derive(Debug, Clone, Copy, PartialEq, Eq, Structural)]
pub enum ArchiveError {
    /// The compression level is above 9.
    InvalidCompressionLevel { level: u32 },
    /// The bound on the size of a part is 0.
    InvalidMaxSize,
    /// The segment does not lie under the root that was to be removed.
    InvalidRoot,
}

/// The text of each error.
pub open spec fn archive_message_of(e: ArchiveError) -> Seq<char> {
    match e {
        ArchiveError::InvalidCompressionLevel { level } =>
            "Compression level must be between 0 and 9: "@ + padded_decimal_of(level as nat, 1),
        ArchiveError::InvalidMaxSize => "max_size must be at least 1 byte: 0"@,
        ArchiveError::InvalidRoot => "Invalid root path"@,
    }
}

impl ArchiveError {
    /// The text of the error.
    pub fn message(&self) -> (r: String)
        ensures
            r@ == archive_message_of(*self),
    {
        match *self {
            ArchiveError::InvalidCompressionLevel { level } => {
                let mut out = String::from_str("Compression level must be between 0 and 9: ");
                push_decimal(&mut out, level as u64, 1);
                out
            },
            ArchiveError::InvalidMaxSize => String::from_str("max_size must be at least 1 byte: 0"),
            ArchiveError::InvalidRoot => String::from_str("Invalid root path"),
        }
    }
}

/// All that building one archive takes.
pub struct ArchivePlan {
    /// The compression level, 0 to 9; none for the usual one.
    pub compression_level: Option<u32>,
    /// The sink that the compressed archive is written through.
    pub writer: RollingWriter,
    /// The actions that open the sink's first part.
    pub opening: Vec<SinkAction>,
    /// The entries of the archive, in the order in which they are written.
    pub entries: Vec<ArchiveEntry>,
}

/// The first reason for which an archive with these settings is refused,
/// if there is one.
pub open spec fn archive_error_of(
    src_dir: Seq<char>,
    root_path: Option<Seq<char>>,
    compression_level: Option<u32>,
    max_size_bytes: Option<usize>,
) -> Option<ArchiveError> {
    if compression_level matches Some(level) && level > 9 {
        Some(ArchiveError::InvalidCompressionLevel { level: compression_level->0 })
    } else if max_size_bytes == Some(0usize) {
        Some(ArchiveError::InvalidMaxSize)
    } else if logical_path_of(src_dir, root_path) is None {
        Some(ArchiveError::InvalidRoot)
    } else {
        None
    }
}

/// The entries of the archive of a segment: first the entry that holds
/// the segment's logical path, then what the walk of the tree comes upon.
pub open spec fn archive_entries_of(
    entries: Seq<Entry>,
    src_dir: Seq<char>,
    logical_path: Seq<char>,
    filter: Filter,
) -> Seq<Planned> {
    seq![
        Planned::Data {
            name: path_file_name(),
            mode: FILE_MODE_READ,
            content: encode_utf8(logical_path),
        },
    ] + entries_for(visit_entries(entries, src_dir, Seq::empty(), filter))
}

/// Plans the archive of the segment at `src_dir`, whose root directory
/// has the entries `entries`, with the output at `output_path`. The
/// settings are checked before anything else: a compression level above
/// 9, a part size of 0 and a segment outside `root_path` are refused, in
/// that order. The plan holds a sink with its first part to be opened,
/// which tells the listener of finished parts if `has_script` is set, and
/// the archive's entries.
pub fn create_archive(
    src_dir: &str,
    entries: &Vec<Entry>,
    output_path: &str,
    root_path: &Option<String>,
    exclusions: &[&String],
    ignore_patterns: Option<&GlobSet>,
    compression_level: Option<u32>,
    max_size_bytes: Option<usize>,
    has_script: bool,
) -> (r: Result<ArchivePlan, ArchiveError>)
    ensures
        match r {
            Ok(plan) => {
                &&& archive_error_of(src_dir@, opt_text(*root_path), compression_level, max_size_bytes)
                    is None
                &&& plan.compression_level == compression_level
                &&& plan.writer@ == SinkState {
                    base_path: output_path@,
                    max_size: match max_size_bytes {
                        Some(m) => Some(m as nat),
                        None => None,
                    },
                    has_listener: has_script,
                    open: true,
                    part_counter: if max_size_bytes is Some {
                        1
                    } else {
                        0
                    },
                    current_size: 0,
                }
                &&& steps_of(plan.opening@) == seq![Step::Open { path: plan.writer@.current_path() }]
                &&& planned_of(plan.entries@) == archive_entries_of(
                    entries@,
                    src_dir@,
                    logical_path_of(src_dir@, opt_text(*root_path))->0,
                    filter_of(exclusions@, ignore_patterns),
                )
            },
            Err(e) => archive_error_of(
                src_dir@,
                opt_text(*root_path),
                compression_level,
                max_size_bytes,
            ) == Some(e),
        },
{
    if let Some(level) = compression_level {
        if level > 9 {
            return Err(ArchiveError::InvalidCompressionLevel { level });
        }
    }
    let (mut writer, opening) = match RollingWriter::new(output_path.to_owned(), max_size_bytes) {
        Ok(made) => made,
        Err(_) => {
            return Err(ArchiveError::InvalidMaxSize);
        },
    };
    if has_script {
        writer.set_listener();
    }
    // The logical path goes into the archive first.
    let path_str = match strip_root(src_dir, root_path) {
        Ok(path_str) => path_str,
        Err(_) => {
            return Err(ArchiveError::InvalidRoot);
        },
    };
    let mut plan: Vec<ArchiveEntry> = Vec::new();
    let first = ArchiveEntry::Data {
        name: String::from_str(".seg_arc.path"),
        mode: FILE_MODE_READ,
        content: path_str.as_str().as_bytes_vec(),
    };
    proof {
        lemma_planned_push(plan@, first);
    }
    plan.push(first);
    let root = String::new();
    append_dir_contents(&mut plan, src_dir, root.as_str(), entries, exclusions, ignore_patterns);
    assert(planned_of(plan@) =~= archive_entries_of(
        entries@,
        src_dir@,
        path_str@,
        filter_of(exclusions@, ignore_patterns),
    ));
    Ok(ArchivePlan { compression_level, writer, opening, entries: plan })
}

/// What is excluded or ignored is in no archive: an entry of the root
/// that the walk passes over can give way to any other entry of its
/// name, or leave the listing, and the archive has the same entries.
pub proof fn lemma_archive_ignores_skipped(
    entries: Seq<Entry>,
    i: int,
    other: Entry,
    src_dir: Seq<char>,
    logical_path: Seq<char>,
    filter: Filter,
)
    requires
        0 <= i < entries.len(),
        skipped(child_path_of(src_dir, entries[i].name_of()), filter),
        other.name_of() == entries[i].name_of(),
    ensures
        archive_entries_of(entries.update(i, other), src_dir, logical_path, filter)
            == archive_entries_of(entries, src_dir, logical_path, filter),
        archive_entries_of(entries.remove(i), src_dir, logical_path, filter) == archive_entries_of(
            entries,
            src_dir,
            logical_path,
            filter,
        ),
{
    lemma_visit_replace(entries, i, other, src_dir, Seq::empty(), filter);
    lemma_visit_remove(entries, i, src_dir, Seq::empty(), filter);
}

/// After the entry for the logical path, each entry of an archive stands
/// for something that the walk came upon, and that is neither excluded
/// nor ignored.
pub proof fn lemma_archive_entries_unskipped(
    entries: Seq<Entry>,
    src_dir: Seq<char>,
    logical_path: Seq<char>,
    filter: Filter,
    k: int,
)
    requires
        1 <= k < archive_entries_of(entries, src_dir, logical_path, filter).len(),
    ensures
        k - 1 < visit_entries(entries, src_dir, Seq::empty(), filter).len(),
        archive_entries_of(entries, src_dir, logical_path, filter)[k] == entry_for(
            visit_entries(entries, src_dir, Seq::empty(), filter)[k - 1],
        ),
        !skipped(visit_entries(entries, src_dir, Seq::empty(), filter)[k - 1].path_of(), filter),
        !excluded_by(
            visit_entries(entries, src_dir, Seq::empty(), filter)[k - 1].path_of(),
            filter.exclusions,
        ),
{
    lemma_visits_unskipped(entries, src_dir, Seq::empty(), filter, k - 1);
}

} // verus!
