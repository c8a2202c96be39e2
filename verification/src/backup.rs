//! What a run does with each segment: where its archive goes, and
//! whether it is archived again.

use vstd::prelude::*;
use vstd::string::StringExecFns;
use crate::path::{child_path, child_path_of};
use crate::store::FingerprintStore;
use crate::text::opt_text;

verus! {

/// The path of the archive of the segment `name` in the directory
/// `output_dir`: the segment's name with `.tar.gz` after it.
pub open spec fn archive_path_of(output_dir: Seq<char>, name: Seq<char>) -> Seq<char> {
    child_path_of(output_dir, name + ".tar.gz"@)
}

/// The path of the archive of the segment `name` in `output_dir`.
pub fn archive_path(output_dir: &str, name: &str) -> (out: String)
    ensures
        out@ == archive_path_of(output_dir@, name@),
{
    let mut file = name.to_owned();
    file.append(".tar.gz");
    child_path(output_dir, file.as_str())
}

/// What a run does with a segment.
#[derive(Debug, Clone, Copy, PartialEq, Eq, Structural)]
pub enum SegmentAction {
    /// The segment is as it was when it was last archived: no archive.
    Skip,
    /// The segment is archived.
    Archive,
}

/// Whether a segment with the fingerprint `hash` is as the store knows it.
pub open spec fn unchanged(
    stored: Map<Seq<char>, Seq<char>>,
    name: Seq<char>,
    hash: Option<Seq<char>>,
) -> bool {
    hash matches Some(h) && stored.contains_key(name) && stored[name] == h
}

/// The store after a run has looked at the segment `name`: a new
/// fingerprint takes the place of the old one; where none could be
/// computed the old one is forgotten, so that the segment is archived
/// until one can be computed again.
pub open spec fn store_after(
    stored: Map<Seq<char>, Seq<char>>,
    name: Seq<char>,
    hash: Option<Seq<char>>,
) -> Map<Seq<char>, Seq<char>> {
    match hash {
        Some(h) => stored.insert(name, h),
        None => stored.remove(name),
    }
}

/// Decides whether the segment `name` is archived, and brings the store
/// up to date. `hash` is the segment's fingerprint, or nothing where it
/// could not be computed. A segment whose fingerprint is the stored one
/// is skipped, and the store stays as it is; any other is archived.
pub fn decide_segment(hashes: &mut FingerprintStore, name: &str, hash: Option<String>) -> (r:
    SegmentAction)
    ensures
        r == if unchanged(old(hashes)@, name@, opt_text(hash)) {
            SegmentAction::Skip
        } else {
            SegmentAction::Archive
        },
        final(hashes)@ == if unchanged(old(hashes)@, name@, opt_text(hash)) {
            old(hashes)@
        } else {
            store_after(old(hashes)@, name@, opt_text(hash))
        },
{
    match hash {
        Some(hash) => {
            let same = match hashes.get(name) {
                Some(stored) => *stored == hash,
                None => false,
            };
            if same {
                SegmentAction::Skip
            } else {
                hashes.insert(name.to_owned(), hash);
                SegmentAction::Archive
            }
        },
        None => {
            hashes.remove(name);
            SegmentAction::Archive
        },
    }
}

/// What can go wrong in a run.
#[derive(Debug, Clone, Copy, PartialEq, Eq, Structural)]
pub enum Failure {
    /// The configuration cannot be read or understood.
    Config,
    /// The path of a segment is not there.
    PathMissing,
    /// The fingerprint of a segment cannot be computed.
    Fingerprint,
    /// The archive of a segment cannot be built or written.
    Archive,
    /// A script failed in a way that is more than a warning.
    Script,
    /// The store file is there but cannot be read.
    StoreUnreadable,
    /// The store file cannot be written.
    StoreUnwritable,
}

/// How a run goes on after a failure.
#[derive(Debug, Clone, Copy, PartialEq, Eq, Structural)]
pub enum Course {
    /// The run ends, and reports the failure.
    Stop,
    /// The segment is left as it is, and the run goes on with the next.
    SkipSegment,
    /// The run goes on with the segment as if nothing were stored.
    GoOn,
}

/// How a run goes on after each failure. A configuration that cannot be
/// read, an archive that cannot be built and a script that fails end
/// the run. A segment whose path is not there is skipped. A fingerprint
/// that cannot be computed, and a store that cannot be read or written,
/// do not stop the run: the segment is archived, or the run goes on with
/// what it has.
pub open spec fn course_of(failure: Failure) -> Course {
    match failure {
        Failure::Config => Course::Stop,
        Failure::PathMissing => Course::SkipSegment,
        Failure::Fingerprint => Course::GoOn,
        Failure::Archive => Course::Stop,
        Failure::Script => Course::Stop,
        Failure::StoreUnreadable => Course::GoOn,
        Failure::StoreUnwritable => Course::GoOn,
    }
}

/// How the run goes on after the failure.
pub fn course_after(failure: Failure) -> (r: Course)
    ensures
        r == course_of(failure),
{
    match failure {
        Failure::Config | Failure::Archive | Failure::Script => Course::Stop,
        Failure::PathMissing => Course::SkipSegment,
        Failure::Fingerprint | Failure::StoreUnreadable | Failure::StoreUnwritable => Course::GoOn,
    }
}

} // verus!
