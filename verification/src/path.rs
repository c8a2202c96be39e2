//! Paths as text: a path is a string of components separated by `/`.
//!
//! Two paths are the same path when their components are the same, so
//! `/a/b`, `/a//b` and `/a/./b/` all name one path. Prefixes and equality
//! are decided on whole components, never on characters.

use vstd::prelude::*;
use crate::text::{push_range, to_chars};

verus! {

/// The component that stands for the root directory.
pub open spec fn root_component() -> Seq<char> {
    seq!['/']
}

/// The component that stands for the current directory.
pub open spec fn cur_dir_component() -> Seq<char> {
    seq!['.']
}

/// Whether a piece between two separators counts as a component: empty
/// pieces and `.` do not.
pub open spec fn is_named(piece: Seq<char>) -> bool {
    piece.len() > 0 && piece != cur_dir_component()
}

/// `done` with `piece` added at its end, if `piece` counts as a component.
pub open spec fn close_piece(done: Seq<Seq<char>>, piece: Seq<char>) -> Seq<Seq<char>> {
    if is_named(piece) {
        done.push(piece)
    } else {
        done
    }
}

/// What reading the first `n` characters of `s` yields: the components
/// that a separator has closed, and the piece that is still open.
pub open spec fn scan(s: Seq<char>, n: nat) -> (Seq<Seq<char>>, Seq<char>)
    decreases n,
{
    if n == 0 {
        (Seq::empty(), Seq::empty())
    } else {
        let before = scan(s, (n - 1) as nat);
        if s[n - 1] == '/' {
            (close_piece(before.0, before.1), Seq::empty())
        } else {
            (before.0, before.1.push(s[n - 1]))
        }
    }
}

/// The named components of `s`: its non-empty pieces other than `.`.
pub open spec fn named_components(s: Seq<char>) -> Seq<Seq<char>> {
    let all = scan(s, s.len());
    close_piece(all.0, all.1)
}

/// Whether `s` starts at the root directory.
pub open spec fn has_root(s: Seq<char>) -> bool {
    s.len() > 0 && s[0] == '/'
}

/// Whether `s` starts with an explicit current directory: it is `.` or
/// begins with `./`.
pub open spec fn starts_in_cur_dir(s: Seq<char>) -> bool {
    s.len() > 0 && s[0] == '.' && (s.len() == 1 || s[1] == '/')
}

/// The component before the named ones: the root, a leading `.`, or none.
pub open spec fn leading_component(s: Seq<char>) -> Seq<Seq<char>> {
    if has_root(s) {
        seq![root_component()]
    } else if starts_in_cur_dir(s) {
        seq![cur_dir_component()]
    } else {
        Seq::empty()
    }
}

/// The components of the path `s`.
pub open spec fn components_of(s: Seq<char>) -> Seq<Seq<char>> {
    leading_component(s) + named_components(s)
}

/// Whether the two strings name the same path.
pub open spec fn same_path(a: Seq<char>, b: Seq<char>) -> bool {
    components_of(a) == components_of(b)
}

/// Whether `path` is `base` or lies under it.
pub open spec fn path_starts_with(path: Seq<char>, base: Seq<char>) -> bool {
    components_of(base).is_prefix_of(components_of(path))
}

/// The components joined by single separators.
pub open spec fn join_components(comps: Seq<Seq<char>>) -> Seq<char>
    decreases comps.len(),
{
    if comps.len() == 0 {
        Seq::empty()
    } else if comps.len() == 1 {
        comps[0]
    } else {
        join_components(comps.drop_last()) + seq!['/'] + comps.last()
    }
}

/// The path in normal form that has the components `comps`.
pub open spec fn render_components(comps: Seq<Seq<char>>) -> Seq<char> {
    if comps.len() > 0 && comps[0] == root_component() {
        root_component() + join_components(comps.skip(1))
    } else {
        join_components(comps)
    }
}

/// What is left of `path` below `base`, in normal form; `None` when `path`
/// does not start with `base`.
pub open spec fn strip_prefix_of(path: Seq<char>, base: Seq<char>) -> Option<Seq<char>> {
    if path_starts_with(path, base) {
        Some(render_components(components_of(path).skip(components_of(base).len() as int)))
    } else {
        None
    }
}

/// The views of the rows of `v`.
pub open spec fn rows(v: Seq<Vec<char>>) -> Seq<Seq<char>> {
    Seq::new(v.len(), |i: int| v[i]@)
}

/// The views of the strings that `v` refers to.
pub open spec fn texts(v: Seq<&String>) -> Seq<Seq<char>> {
    Seq::new(v.len(), |i: int| v[i]@)
}

/// Adding a row adds its view.
pub proof fn lemma_rows_push(v: Seq<Vec<char>>, x: Vec<char>)
    ensures
        rows(v.push(x)) == rows(v).push(x@),
{
    assert(rows(v.push(x)) =~= rows(v).push(x@));
}

/// Whether two character vectors hold the same text.
pub fn same_chars(a: &Vec<char>, b: &Vec<char>) -> (r: bool)
    ensures
        r == (a@ == b@),
{
    if a.len() != b.len() {
        return false;
    }
    let mut i: usize = 0;
    while i < a.len()
        invariant
            a.len() == b.len(),
            i <= a.len(),
            forall|k: int| 0 <= k < i ==> a@[k] == b@[k],
        decreases a.len() - i,
    {
        if a[i] != b[i] {
            return false;
        }
        i += 1;
    }
    assert(a@ =~= b@);
    true
}

fn piece_is_named(piece: &Vec<char>) -> (r: bool)
    ensures
        r == is_named(piece@),
{
    if piece.len() == 0 {
        false
    } else if piece.len() == 1 && piece[0] == '.' {
        assert(piece@ =~= cur_dir_component());
        false
    } else {
        assert(piece@ != cur_dir_component()) by {
            if piece@.len() == 1 {
                assert(cur_dir_component()[0] == '.');
            } else {
                assert(cur_dir_component().len() == 1);
            }
        }
        true
    }
}

/// The components of `path`, each as its characters.
pub fn components(path: &str) -> (out: Vec<Vec<char>>)
    ensures
        rows(out@) == components_of(path@),
{
    let chars = to_chars(path);
    let n = chars.len();
    let mut out: Vec<Vec<char>> = Vec::new();
    if n > 0 && chars[0] == '/' {
        let mut lead: Vec<char> = Vec::new();
        lead.push('/');
        out.push(lead);
        assert(rows(out@) =~= leading_component(chars@));
    } else if n > 0 && chars[0] == '.' && (n == 1 || chars[1] == '/') {
        let mut lead: Vec<char> = Vec::new();
        lead.push('.');
        out.push(lead);
        assert(rows(out@) =~= leading_component(chars@));
    } else {
        assert(rows(out@) =~= leading_component(chars@));
    }
    let mut piece: Vec<char> = Vec::new();
    let mut i: usize = 0;
    assert(rows(out@) =~= leading_component(chars@) + scan(chars@, 0).0);
    while i < n
        invariant
            n == chars.len(),
            i <= n,
            rows(out@) == leading_component(chars@) + scan(chars@, i as nat).0,
            piece@ == scan(chars@, i as nat).1,
        decreases n - i,
    {
        let c = chars[i];
        let ghost before = scan(chars@, i as nat);
        if c == '/' {
            if piece_is_named(&piece) {
                proof {
                    lemma_rows_push(out@, piece);
                }
                out.push(piece);
                assert(rows(out@) =~= leading_component(chars@) + before.0.push(before.1));
            }
            piece = Vec::new();
        } else {
            piece.push(c);
        }
        i += 1;
    }
    if piece_is_named(&piece) {
        let ghost all = scan(chars@, n as nat);
        proof {
            lemma_rows_push(out@, piece);
        }
        out.push(piece);
        assert(rows(out@) =~= leading_component(chars@) + all.0.push(all.1));
    }
    out
}

/// Whether `path` is `base` or lies under it, by whole components.
pub fn starts_with(path: &str, base: &str) -> (r: bool)
    ensures
        r == path_starts_with(path@, base@),
{
    let p = components(path);
    let b = components(base);
    has_prefix(&p, &b)
}

/// Whether the rows of `base` are the first rows of `comps`.
pub fn has_prefix(comps: &Vec<Vec<char>>, base: &Vec<Vec<char>>) -> (r: bool)
    ensures
        r == rows(base@).is_prefix_of(rows(comps@)),
{
    if base.len() > comps.len() {
        return false;
    }
    let mut k: usize = 0;
    while k < base.len()
        invariant
            base.len() <= comps.len(),
            k <= base.len(),
            forall|j: int| 0 <= j < k ==> rows(base@)[j] == rows(comps@)[j],
        decreases base.len() - k,
    {
        if !same_chars(&comps[k], &base[k]) {
            assert(rows(base@)[k as int] != rows(comps@)[k as int]);
            return false;
        }
        k += 1;
    }
    true
}

/// Whether the two vectors hold the same components.
pub fn same_components(a: &Vec<Vec<char>>, b: &Vec<Vec<char>>) -> (r: bool)
    ensures
        r == (rows(a@) == rows(b@)),
{
    if a.len() != b.len() {
        return false;
    }
    let r = has_prefix(a, b);
    proof {
        if r {
            assert(rows(a@) =~= rows(b@));
        }
    }
    r
}

/// The path in normal form whose components are `comps[from..]`.
pub(crate) fn render(comps: &Vec<Vec<char>>, from: usize) -> (out: String)
    requires
        from <= comps.len(),
    ensures
        out@ == render_components(rows(comps@).skip(from as int)),
{
    let ghost rest = rows(comps@).skip(from as int);
    let mut out = String::new();
    let mut start: usize = from;
    if from < comps.len() && comps[from].len() == 1 && comps[from][0] == '/' {
        assert(rest[0] =~= root_component());
        out.push('/');
        start = from + 1;
    } else {
        assert(rest.len() > 0 ==> rest[0] != root_component()) by {
            if rest.len() > 0 && rest[0].len() == 1 {
                assert(root_component()[0] == '/');
            }
        }
    }
    let ghost lead = out@;
    let ghost named = rows(comps@).skip(start as int);
    assert(lead == if start > from { root_component() } else { Seq::<char>::empty() }) by {
        assert(lead =~= if start > from { root_component() } else { Seq::<char>::empty() });
    }
    assert(start > from ==> named =~= rest.skip(1));
    let mut k: usize = start;
    assert(named.take(0) =~= Seq::<Seq<char>>::empty());
    while k < comps.len()
        invariant
            start <= k <= comps.len(),
            named == rows(comps@).skip(start as int),
            out@ == lead + join_components(named.take(k - start)),
        decreases comps.len() - k,
    {
        let ghost upto = named.take(k - start + 1);
        assert(upto.drop_last() =~= named.take(k - start));
        assert(upto.last() == comps[k as int]@);
        if k > start {
            out.push('/');
        }
        push_range(&mut out, &comps[k], 0, comps[k].len());
        assert(comps[k as int]@.subrange(0, comps[k as int].len() as int) =~= comps[k as int]@);
        assert(out@ =~= lead + join_components(upto));
        k += 1;
    }
    assert(named.take(k - start) =~= named);
    out
}

/// What is left of `path` below `base`, in normal form; `None` when `path`
/// does not start with `base`.
pub fn strip_prefix(path: &str, base: &str) -> (r: Option<String>)
    ensures
        r is Some == path_starts_with(path@, base@),
        r matches Some(rest) ==> Some(rest@) == strip_prefix_of(path@, base@),
{
    let p = components(path);
    let b = components(base);
    if has_prefix(&p, &b) {
        Some(render(&p, b.len()))
    } else {
        None
    }
}

/// The path `name` as seen from the directory `dir`: `name` itself where
/// it starts at the root; else `dir`, a separator unless `dir` is empty
/// or ends with one, and `name`.
pub open spec fn child_path_of(dir: Seq<char>, name: Seq<char>) -> Seq<char> {
    if has_root(name) {
        name
    } else if dir.len() == 0 || dir.last() == '/' {
        dir + name
    } else {
        dir + seq!['/'] + name
    }
}

/// The path `name` as seen from the directory `dir`.
pub fn child_path(dir: &str, name: &str) -> (out: String)
    ensures
        out@ == child_path_of(dir@, name@),
{
    let d = to_chars(dir);
    let n = to_chars(name);
    if n.len() > 0 && n[0] == '/' {
        return name.to_owned();
    }
    let mut out = String::new();
    push_range(&mut out, &d, 0, d.len());
    if d.len() > 0 && d[d.len() - 1] != '/' {
        out.push('/');
    }
    push_range(&mut out, &n, 0, n.len());
    assert(d@.subrange(0, d.len() as int) =~= d@);
    assert(n@.subrange(0, n.len() as int) =~= n@);
    assert(out@ =~= child_path_of(dir@, name@));
    out
}

/// The path of the entry `name`, relative to the walk's root, in the
/// directory whose relative path is `rel` (empty for the root itself).
pub open spec fn child_rel_of(rel: Seq<char>, name: Seq<char>) -> Seq<char> {
    if rel.len() == 0 {
        name
    } else {
        rel + seq!['/'] + name
    }
}

/// The relative path of the entry `name` in the directory whose relative
/// path is `rel`.
pub fn child_rel(rel: &str, name: &str) -> (out: String)
    ensures
        out@ == child_rel_of(rel@, name@),
{
    let r = to_chars(rel);
    let n = to_chars(name);
    let mut out = String::new();
    push_range(&mut out, &r, 0, r.len());
    if r.len() > 0 {
        out.push('/');
    }
    push_range(&mut out, &n, 0, n.len());
    assert(r@.subrange(0, r.len() as int) =~= r@);
    assert(n@.subrange(0, n.len() as int) =~= n@);
    assert(out@ =~= child_rel_of(rel@, name@));
    out
}

/// Whether `name` can be the name of an entry of a directory: it is not
/// empty, holds no separator and is not `.`.
pub open spec fn is_plain_name(name: Seq<char>) -> bool {
    name.len() > 0 && !name.contains('/') && name != cur_dir_component()
}

/// Whether each of `names` can be the name of an entry of a directory.
pub open spec fn all_plain_names(names: Seq<Seq<char>>) -> bool {
    forall|i: int| 0 <= i < names.len() ==> is_plain_name(#[trigger] names[i])
}

/// What reading some characters yields depends on those characters alone.
pub proof fn lemma_scan_prefix(a: Seq<char>, b: Seq<char>, n: nat)
    requires
        n <= a.len(),
    ensures
        scan(a + b, n) == scan(a, n),
    decreases n,
{
    if n > 0 {
        lemma_scan_prefix(a, b, (n - 1) as nat);
        assert((a + b)[n - 1] == a[n - 1]);
    }
}

/// Reading on through characters that hold no separator adds them to the
/// piece that is open.
pub proof fn lemma_scan_within(a: Seq<char>, b: Seq<char>, k: nat)
    requires
        k <= b.len(),
        !b.contains('/'),
    ensures
        scan(a + b, a.len() + k) == (scan(a, a.len()).0, scan(a, a.len()).1 + b.take(k as int)),
    decreases k,
{
    let open = scan(a, a.len()).1;
    if k == 0 {
        lemma_scan_prefix(a, b, a.len());
        assert(open + b.take(0) =~= open);
    } else {
        lemma_scan_within(a, b, (k - 1) as nat);
        assert((a + b)[a.len() + k - 1] == b[k - 1]);
        if b[k - 1] == '/' {
            assert(b.contains('/'));
        }
        assert((open + b.take(k - 1)).push(b[k - 1]) =~= open + b.take(k as int));
    }
}

/// The path of an entry has the components of its directory's path, and
/// then the entry's name.
pub proof fn lemma_child_components(dir: Seq<char>, name: Seq<char>)
    requires
        is_plain_name(name),
    ensures
        components_of(child_path_of(dir, name)) == components_of(dir).push(name),
{
    let child = child_path_of(dir, name);
    assert(!has_root(name)) by {
        if has_root(name) {
            assert(name[0] == '/');
            assert(name.contains('/'));
        }
    }
    assert(name.take(name.len() as int) =~= name);
    if dir.len() == 0 {
        assert(child =~= name);
        assert(Seq::<char>::empty() + name =~= name);
        lemma_scan_within(Seq::empty(), name, name.len());
        assert(!starts_in_cur_dir(name)) by {
            if starts_in_cur_dir(name) {
                if name.len() == 1 {
                    assert(name =~= cur_dir_component());
                } else {
                    assert(name[1] == '/');
                    assert(name.contains('/'));
                }
            }
        }
        assert(scan(name, name.len()).1 =~= name);
        assert(components_of(child) =~= components_of(dir).push(name));
    } else if dir.last() == '/' {
        assert(child =~= dir + name);
        lemma_scan_within(dir, name, name.len());
        assert(scan(dir, dir.len()).1 =~= Seq::<char>::empty());
        assert(Seq::<char>::empty() + name =~= name);
        assert(child[0] == dir[0]);
        if dir.len() >= 2 {
            assert(child[1] == dir[1]);
        } else {
            assert(dir[0] == '/');
        }
        assert(leading_component(child) == leading_component(dir));
        assert(components_of(child) =~= components_of(dir).push(name));
    } else {
        let stem = dir + seq!['/'];
        assert(child =~= stem + name);
        lemma_scan_prefix(dir, seq!['/'], dir.len());
        assert(stem[stem.len() - 1] == '/');
        assert(scan(stem, stem.len()) == (named_components(dir), Seq::<char>::empty()));
        lemma_scan_within(stem, name, name.len());
        assert(Seq::<char>::empty() + name =~= name);
        assert(child[0] == dir[0]);
        if dir.len() >= 2 {
            assert(child[1] == dir[1]);
        } else {
            assert(child[1] == '/');
        }
        assert(leading_component(child) == leading_component(dir));
        assert(components_of(child) =~= components_of(dir).push(name));
    }
}

/// Plain names joined are empty only where there is no name.
pub proof fn lemma_join_plain(names: Seq<Seq<char>>)
    requires
        all_plain_names(names),
    ensures
        (join_components(names).len() == 0) == (names.len() == 0),
        render_components(names) == join_components(names),
    decreases names.len(),
{
    if names.len() > 0 {
        assert(is_plain_name(names[0]));
        assert(names[0] != root_component()) by {
            if names[0] == root_component() {
                assert(names[0][0] == '/');
                assert(names[0].contains('/'));
            }
        }
        if names.len() > 1 {
            assert(is_plain_name(names.last()));
        }
    }
}

/// The relative path of an entry is the names that lead to it, joined.
pub proof fn lemma_child_rel(names: Seq<Seq<char>>, name: Seq<char>)
    requires
        all_plain_names(names),
        is_plain_name(name),
    ensures
        child_rel_of(join_components(names), name) == join_components(names.push(name)),
        all_plain_names(names.push(name)),
{
    lemma_join_plain(names);
    assert(names.push(name).drop_last() =~= names);
    assert forall|i: int| 0 <= i < names.push(name).len() implies is_plain_name(
        #[trigger] names.push(name)[i],
    ) by {
        if i < names.len() {
            assert(names.push(name)[i] == names[i]);
        }
    }
}

/// A path that has the components of `root` and then plain names gives
/// those names, joined, when `root` is taken from its front.
pub proof fn lemma_strip_names(path: Seq<char>, root: Seq<char>, names: Seq<Seq<char>>)
    requires
        all_plain_names(names),
        components_of(path) == components_of(root) + names,
    ensures
        strip_prefix_of(path, root) == Some(join_components(names)),
{
    lemma_join_plain(names);
    assert(components_of(path).skip(components_of(root).len() as int) =~= names);
}

} // verus!
