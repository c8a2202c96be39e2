//! The path of the log file: the date of the day takes the place of each
//! `%D` in it.

use vstd::prelude::*;
use vstd::string::StringExecFns;
use crate::clock::local_date_stamp;
use crate::text::to_chars;

verus! {

/// `path` with `date` in the place of each `%D`, from left to right.
pub open spec fn with_date(path: Seq<char>, date: Seq<char>) -> Seq<char>
    decreases path.len(),
{
    if path.len() >= 2 && path[0] == '%' && path[1] == 'D' {
        date + with_date(path.skip(2), date)
    } else if path.len() > 0 {
        seq![path[0]] + with_date(path.drop_first(), date)
    } else {
        Seq::empty()
    }
}

/// Whether `%D` stands somewhere in `path`.
pub open spec fn has_placeholder(path: Seq<char>) -> bool {
    exists|i: int| 0 <= i && i + 1 < path.len() && #[trigger] path[i] == '%' && path[i + 1] == 'D'
}

/// A path without `%D` stays as it is.
pub proof fn lemma_with_date_unchanged(path: Seq<char>, date: Seq<char>)
    requires
        !has_placeholder(path),
    ensures
        with_date(path, date) == path,
    decreases path.len(),
{
    if path.len() > 0 {
        if path.len() >= 2 && path[0] == '%' && path[1] == 'D' {
            assert(path[0int] == '%' && path[0int + 1] == 'D');
        }
        let rest = path.drop_first();
        if has_placeholder(rest) {
            let i = choose|i: int|
                0 <= i && i + 1 < rest.len() && #[trigger] rest[i] == '%' && rest[i + 1] == 'D';
            assert(path[i + 1] == '%' && path[i + 1 + 1] == 'D');
        }
        lemma_with_date_unchanged(rest, date);
        assert(seq![path[0]] + rest =~= path);
    }
}

/// `path` with `date` in the place of each `%D`.
pub fn replace_date(path: &str, date: &str) -> (out: String)
    ensures
        out@ == with_date(path@, date@),
{
    let chars = to_chars(path);
    let n = chars.len();
    let mut out = String::new();
    let mut i: usize = 0;
    assert(chars@.skip(0) =~= chars@);
    while i < n
        invariant
            n == chars.len(),
            i <= n,
            out@ + with_date(chars@.skip(i as int), date@) == with_date(chars@, date@),
        decreases n - i,
    {
        let ghost rest = chars@.skip(i as int);
        let ghost held = out@;
        if chars[i] == '%' && i + 1 < n && chars[i + 1] == 'D' {
            out.append(date);
            assert(rest.skip(2) =~= chars@.skip(i + 2));
            assert(out@ + with_date(chars@.skip(i + 2), date@) =~= held + with_date(rest, date@));
            i += 2;
        } else {
            out.push(chars[i]);
            assert(rest.drop_first() =~= chars@.skip(i + 1));
            assert(out@ + with_date(chars@.skip(i + 1), date@) =~= held + with_date(rest, date@));
            i += 1;
        }
    }
    assert(out@ =~= out@ + with_date(chars@.skip(i as int), date@));
    out
}

/// `path` with the date of today in the place of each `%D`. A path
/// without `%D` comes back as it is.
pub fn replace_placeholders(path: &str) -> (out: String)
    ensures
        exists|date: Seq<char>| out@ == with_date(path@, date),
        !has_placeholder(path@) ==> out@ == path@,
{
    let date = local_date_stamp();
    let out = replace_date(path, date.as_str());
    proof {
        if !has_placeholder(path@) {
            lemma_with_date_unchanged(path@, date@);
        }
    }
    out
}

} // verus!
