//! The fingerprint store: which fingerprint each segment had when it was
//! last archived, and the text file that keeps it between runs.
//!
//! The file holds one `name=value` per line. A store keeps its entries
//! in the order of their names, which is the order of the lines written.

use vstd::prelude::*;
use vstd::string::StringExecFns;
use crate::text::{
    find_char, index_of, is_space, leading_spaces, lemma_index_of, lemma_leading_spaces,
    lemma_text_less_irreflexive, lemma_text_less_total, lemma_text_less_transitive,
    lemma_trailing_spaces, padded_decimal_of, push_decimal, push_range, text_less, text_lt,
    to_chars, trailing_spaces, trim_of, trim_range,
};

verus! {

/// The entry that a line of the file stands for, if it stands for one:
/// white space round the line is dropped; a line that is then empty, or
/// holds no `=`, stands for none; else the name is what stands before the
/// first `=` and the value what stands after it, each without the white
/// space round it.
pub open spec fn line_pairs(line: Seq<char>) -> Seq<(Seq<char>, Seq<char>)> {
    let t = trim_of(line);
    let p = index_of(t, '=');
    if p >= t.len() {
        Seq::empty()
    } else {
        seq![(trim_of(t.take(p as int)), trim_of(t.skip(p as int + 1)))]
    }
}

/// What reading the first `n` characters of `s` yields: the entries of
/// the lines that a line feed has ended, and the line that is still open.
pub open spec fn scan_lines(s: Seq<char>, n: nat) -> (Seq<(Seq<char>, Seq<char>)>, Seq<char>)
    decreases n,
{
    if n == 0 {
        (Seq::empty(), Seq::empty())
    } else {
        let before = scan_lines(s, (n - 1) as nat);
        if s[n - 1] == '\n' {
            (before.0 + line_pairs(before.1), Seq::empty())
        } else {
            (before.0, before.1.push(s[n - 1]))
        }
    }
}

/// The entries that the lines of `s` stand for, in the order of the lines.
pub open spec fn parsed_pairs(s: Seq<char>) -> Seq<(Seq<char>, Seq<char>)> {
    let all = scan_lines(s, s.len());
    all.0 + line_pairs(all.1)
}

/// The mapping that the entries make up; of entries with one name the
/// last one counts.
pub open spec fn map_of(pairs: Seq<(Seq<char>, Seq<char>)>) -> Map<Seq<char>, Seq<char>>
    decreases pairs.len(),
{
    if pairs.len() == 0 {
        Map::empty()
    } else {
        map_of(pairs.drop_last()).insert(pairs.last().0, pairs.last().1)
    }
}

/// The mapping `m` after the entries `pairs` were put into it, in order.
pub open spec fn with_pairs(
    m: Map<Seq<char>, Seq<char>>,
    pairs: Seq<(Seq<char>, Seq<char>)>,
) -> Map<Seq<char>, Seq<char>>
    decreases pairs.len(),
{
    if pairs.len() == 0 {
        m
    } else {
        with_pairs(m, pairs.drop_last()).insert(pairs.last().0, pairs.last().1)
    }
}

/// The mapping of `a` and then `b` is the mapping of `a` with the entries
/// of `b` put into it.
pub proof fn lemma_map_of_concat(a: Seq<(Seq<char>, Seq<char>)>, b: Seq<(Seq<char>, Seq<char>)>)
    ensures
        map_of(a + b) == with_pairs(map_of(a), b),
    decreases b.len(),
{
    if b.len() == 0 {
        assert(a + b =~= a);
    } else {
        assert((a + b).drop_last() =~= a + b.drop_last());
        lemma_map_of_concat(a, b.drop_last());
    }
}

/// The line for one entry, with the line feed that ends it.
pub open spec fn line_of(pair: (Seq<char>, Seq<char>)) -> Seq<char> {
    pair.0 + seq!['='] + pair.1 + seq!['\n']
}

/// The lines for the entries, in order.
pub open spec fn rendered(pairs: Seq<(Seq<char>, Seq<char>)>) -> Seq<char>
    decreases pairs.len(),
{
    if pairs.len() == 0 {
        Seq::empty()
    } else {
        rendered(pairs.drop_last()) + line_of(pairs.last())
    }
}

/// Whether the entries stand in the order of their names, no name twice.
pub open spec fn sorted_by_name(pairs: Seq<(Seq<char>, Seq<char>)>) -> bool {
    forall|i: int, j: int|
        0 <= i < j < pairs.len() ==> text_less(#[trigger] pairs[i].0, #[trigger] pairs[j].0)
}

/// Whether one of the entries has the name `name`.
pub open spec fn has_name(pairs: Seq<(Seq<char>, Seq<char>)>, name: Seq<char>) -> bool {
    exists|i: int| 0 <= i < pairs.len() && (#[trigger] pairs[i]).0 == name
}

/// The mapping holds the names of the entries, and no others.
pub proof fn lemma_map_of_names(pairs: Seq<(Seq<char>, Seq<char>)>, name: Seq<char>)
    ensures
        map_of(pairs).contains_key(name) == has_name(pairs, name),
    decreases pairs.len(),
{
    if pairs.len() > 0 {
        let before = pairs.drop_last();
        lemma_map_of_names(before, name);
        if has_name(before, name) {
            let i = choose|i: int| 0 <= i < before.len() && (#[trigger] before[i]).0 == name;
            assert(pairs[i].0 == name);
        }
        if has_name(pairs, name) {
            let i = choose|i: int| 0 <= i < pairs.len() && (#[trigger] pairs[i]).0 == name;
            if i < before.len() {
                assert(before[i].0 == name);
            }
        }
    }
}

/// Sorted entries differ in their names.
pub proof fn lemma_sorted_names_differ(pairs: Seq<(Seq<char>, Seq<char>)>, i: int, j: int)
    requires
        sorted_by_name(pairs),
        0 <= i < pairs.len(),
        0 <= j < pairs.len(),
        i != j,
    ensures
        pairs[i].0 != pairs[j].0,
{
    lemma_text_less_irreflexive(pairs[i].0);
    if i < j {
        assert(text_less(pairs[i].0, pairs[j].0));
    } else {
        assert(text_less(pairs[j].0, pairs[i].0));
    }
}

/// In the mapping of sorted entries each name has its entry's value.
pub proof fn lemma_map_of_value(pairs: Seq<(Seq<char>, Seq<char>)>, i: int)
    requires
        sorted_by_name(pairs),
        0 <= i < pairs.len(),
    ensures
        map_of(pairs).contains_key(pairs[i].0),
        map_of(pairs)[pairs[i].0] == pairs[i].1,
    decreases pairs.len(),
{
    let before = pairs.drop_last();
    if i < pairs.len() - 1 {
        assert forall|a: int, b: int| 0 <= a < b < before.len() implies text_less(
            #[trigger] before[a].0,
            #[trigger] before[b].0,
        ) by {
            assert(before[a] == pairs[a] && before[b] == pairs[b]);
        }
        lemma_map_of_value(before, i);
        lemma_sorted_names_differ(pairs, i, pairs.len() - 1);
    }
}

/// Two sequences of sorted entries with the same names and values make
/// up the same mapping.
proof fn lemma_map_of_same(
    a: Seq<(Seq<char>, Seq<char>)>,
    b: Map<Seq<char>, Seq<char>>,
)
    requires
        sorted_by_name(a),
        forall|q: Seq<char>| has_name(a, q) == #[trigger] b.contains_key(q),
        forall|i: int| 0 <= i < a.len() ==> b[(#[trigger] a[i]).0] == a[i].1,
    ensures
        map_of(a) == b,
{
    let m = map_of(a);
    assert forall|q: Seq<char>| m.contains_key(q) == b.contains_key(q) by {
        lemma_map_of_names(a, q);
    }
    assert forall|q: Seq<char>| #[trigger] m.contains_key(q) implies m[q] == b[q] by {
        lemma_map_of_names(a, q);
        let i = choose|i: int| 0 <= i < a.len() && (#[trigger] a[i]).0 == q;
        lemma_map_of_value(a, i);
    }
    assert(m =~= b);
}

/// Putting a new entry where its name belongs adds it to the mapping.
pub proof fn lemma_map_of_insert(
    pairs: Seq<(Seq<char>, Seq<char>)>,
    i: int,
    pair: (Seq<char>, Seq<char>),
)
    requires
        sorted_by_name(pairs),
        0 <= i <= pairs.len(),
        sorted_by_name(pairs.insert(i, pair)),
    ensures
        map_of(pairs.insert(i, pair)) == map_of(pairs).insert(pair.0, pair.1),
{
    let new = pairs.insert(i, pair);
    let b = map_of(pairs).insert(pair.0, pair.1);
    assert forall|q: Seq<char>| has_name(new, q) == #[trigger] b.contains_key(q) by {
        lemma_map_of_names(pairs, q);
        if has_name(new, q) {
            let k = choose|k: int| 0 <= k < new.len() && (#[trigger] new[k]).0 == q;
            if k < i {
                assert(pairs[k].0 == q);
            } else if k > i {
                assert(pairs[k - 1].0 == q);
            }
        }
        if b.contains_key(q) {
            if q == pair.0 {
                assert(new[i].0 == q);
            } else {
                let k = choose|k: int| 0 <= k < pairs.len() && (#[trigger] pairs[k]).0 == q;
                if k < i {
                    assert(new[k].0 == q);
                } else {
                    assert(new[k + 1].0 == q);
                }
            }
        }
    }
    assert forall|k: int| 0 <= k < new.len() implies b[(#[trigger] new[k]).0] == new[k].1 by {
        if k != i {
            lemma_sorted_names_differ(new, k, i);
            if k < i {
                lemma_map_of_value(pairs, k);
            } else {
                lemma_map_of_value(pairs, k - 1);
            }
        }
    }
    lemma_map_of_same(new, b);
}

/// Giving an entry a new value gives its name that value in the mapping.
pub proof fn lemma_map_of_update(pairs: Seq<(Seq<char>, Seq<char>)>, i: int, value: Seq<char>)
    requires
        sorted_by_name(pairs),
        0 <= i < pairs.len(),
    ensures
        sorted_by_name(pairs.update(i, (pairs[i].0, value))),
        map_of(pairs.update(i, (pairs[i].0, value))) == map_of(pairs).insert(pairs[i].0, value),
{
    let new = pairs.update(i, (pairs[i].0, value));
    let b = map_of(pairs).insert(pairs[i].0, value);
    assert forall|x: int, y: int| 0 <= x < y < new.len() implies text_less(
        #[trigger] new[x].0,
        #[trigger] new[y].0,
    ) by {
        assert(new[x].0 == pairs[x].0 && new[y].0 == pairs[y].0);
    }
    assert forall|q: Seq<char>| has_name(new, q) == #[trigger] b.contains_key(q) by {
        lemma_map_of_names(pairs, q);
        if has_name(new, q) {
            let k = choose|k: int| 0 <= k < new.len() && (#[trigger] new[k]).0 == q;
            assert(pairs[k].0 == q);
        }
        if b.contains_key(q) {
            if q == pairs[i].0 {
                assert(new[i].0 == q);
            } else {
                let k = choose|k: int| 0 <= k < pairs.len() && (#[trigger] pairs[k]).0 == q;
                assert(new[k].0 == q);
            }
        }
    }
    assert forall|k: int| 0 <= k < new.len() implies b[(#[trigger] new[k]).0] == new[k].1 by {
        if k != i {
            lemma_sorted_names_differ(pairs, k, i);
            lemma_map_of_value(pairs, k);
        }
    }
    lemma_map_of_same(new, b);
}

/// Taking an entry out takes its name out of the mapping.
pub proof fn lemma_map_of_remove(pairs: Seq<(Seq<char>, Seq<char>)>, i: int)
    requires
        sorted_by_name(pairs),
        0 <= i < pairs.len(),
    ensures
        sorted_by_name(pairs.remove(i)),
        map_of(pairs.remove(i)) == map_of(pairs).remove(pairs[i].0),
{
    let new = pairs.remove(i);
    let b = map_of(pairs).remove(pairs[i].0);
    assert forall|x: int, y: int| 0 <= x < y < new.len() implies text_less(
        #[trigger] new[x].0,
        #[trigger] new[y].0,
    ) by {
        let px = if x < i { x } else { x + 1 };
        let py = if y < i { y } else { y + 1 };
        assert(new[x] == pairs[px] && new[y] == pairs[py]);
    }
    assert forall|q: Seq<char>| has_name(new, q) == #[trigger] b.contains_key(q) by {
        lemma_map_of_names(pairs, q);
        if has_name(new, q) {
            let k = choose|k: int| 0 <= k < new.len() && (#[trigger] new[k]).0 == q;
            let pk = if k < i { k } else { k + 1 };
            assert(pairs[pk].0 == q);
            lemma_sorted_names_differ(pairs, pk, i);
        }
        if b.contains_key(q) {
            let k = choose|k: int| 0 <= k < pairs.len() && (#[trigger] pairs[k]).0 == q;
            if k < i {
                assert(new[k].0 == q);
            } else {
                assert(new[k - 1].0 == q);
            }
        }
    }
    assert forall|k: int| 0 <= k < new.len() implies b[(#[trigger] new[k]).0] == new[k].1 by {
        let pk = if k < i { k } else { k + 1 };
        assert(new[k] == pairs[pk]);
        lemma_sorted_names_differ(pairs, pk, i);
        lemma_map_of_value(pairs, pk);
    }
    lemma_map_of_same(new, b);
}

/// The fingerprints that a run knows of, by the names of their segments.
pub struct FingerprintStore {
    entries: Vec<(String, String)>,
}

/// The entries of `v` as values of specifications.
pub open spec fn pairs_of(v: Seq<(String, String)>) -> Seq<(Seq<char>, Seq<char>)> {
    Seq::new(v.len(), |i: int| (v[i].0@, v[i].1@))
}

impl View for FingerprintStore {
    type V = Map<Seq<char>, Seq<char>>;

    open spec fn view(&self) -> Map<Seq<char>, Seq<char>> {
        map_of(self.pairs())
    }
}

impl FingerprintStore {
    #[verifier::type_invariant]
    spec fn inv(self) -> bool {
        sorted_by_name(pairs_of(self.entries@))
    }

    /// The entries of the store, in the order of their names.
    pub closed spec fn pairs(&self) -> Seq<(Seq<char>, Seq<char>)> {
        pairs_of(self.entries@)
    }

    /// A store without entries.
    pub fn new() -> (r: FingerprintStore)
        ensures
            r.pairs() == Seq::<(Seq<char>, Seq<char>)>::empty(),
            r@ == Map::<Seq<char>, Seq<char>>::empty(),
    {
        let r = FingerprintStore { entries: Vec::new() };
        assert(r.pairs() =~= Seq::<(Seq<char>, Seq<char>)>::empty());
        r
    }

    /// How many entries the store has.
    pub fn len(&self) -> (r: usize)
        ensures
            r == self.pairs().len(),
            sorted_by_name(self.pairs()),
    {
        proof {
            use_type_invariant(self);
        }
        self.entries.len()
    }

    /// Whether the store has no entry.
    pub fn is_empty(&self) -> (r: bool)
        ensures
            r == (self.pairs().len() == 0),
            r == (self@ == Map::<Seq<char>, Seq<char>>::empty()),
    {
        proof {
            use_type_invariant(self);
            if self.entries.len() > 0 {
                lemma_map_of_value(self.pairs(), 0);
            }
        }
        self.entries.len() == 0
    }

    /// Where the entry with the name `key` stands, or would be put.
    fn position(&self, key: &str) -> (i: usize)
        ensures
            i <= self.pairs().len(),
            forall|j: int| 0 <= j < i ==> text_less(#[trigger] self.pairs()[j].0, key@),
            i < self.pairs().len() ==> !text_less(self.pairs()[i as int].0, key@),
    {
        let mut i: usize = 0;
        while i < self.entries.len() && text_lt(self.entries[i].0.as_str(), key)
            invariant
                i <= self.entries.len(),
                forall|j: int| 0 <= j < i ==> text_less(#[trigger] self.pairs()[j].0, key@),
            decreases self.entries.len() - i,
        {
            i += 1;
        }
        i
    }

    /// The value of the entry with the name `key`, if there is one.
    pub fn get(&self, key: &str) -> (r: Option<&String>)
        ensures
            match r {
                Some(value) => self@.contains_key(key@) && self@[key@] == value@,
                None => !self@.contains_key(key@),
            },
    {
        proof {
            use_type_invariant(self);
        }
        let i = self.position(key);
        if i < self.entries.len() && !text_lt(key, self.entries[i].0.as_str()) {
            proof {
                if self.pairs()[i as int].0 != key@ {
                    lemma_text_less_total(self.pairs()[i as int].0, key@);
                }
                lemma_map_of_value(self.pairs(), i as int);
            }
            Some(&self.entries[i].1)
        } else {
            proof {
                self.lemma_absent(key@, i as int);
            }
            None
        }
    }

    /// No entry has the name `key` if the entries before `i` come before
    /// it and the others after it.
    proof fn lemma_absent(&self, key: Seq<char>, i: int)
        requires
            sorted_by_name(self.pairs()),
            0 <= i <= self.pairs().len(),
            forall|j: int| 0 <= j < i ==> text_less(#[trigger] self.pairs()[j].0, key),
            i < self.pairs().len() ==> text_less(key, self.pairs()[i].0),
        ensures
            !self@.contains_key(key),
    {
        let pairs = self.pairs();
        lemma_map_of_names(pairs, key);
        lemma_text_less_irreflexive(key);
        if has_name(pairs, key) {
            let k = choose|k: int| 0 <= k < pairs.len() && (#[trigger] pairs[k]).0 == key;
            if k < i {
                assert(text_less(pairs[k].0, key));
            } else if k > i {
                assert(text_less(pairs[i].0, pairs[k].0));
                lemma_text_less_transitive(key, pairs[i].0, pairs[k].0);
            }
        }
    }

    /// Gives the name `key` the value `value`, whether or not it had one.
    pub fn insert(&mut self, key: String, value: String)
        ensures
            final(self)@ == old(self)@.insert(key@, value@),
            sorted_by_name(final(self).pairs()),
    {
        proof {
            use_type_invariant(&*self);
        }
        let ghost before = self.pairs();
        let i = self.position(key.as_str());
        if i < self.entries.len() && !text_lt(key.as_str(), self.entries[i].0.as_str()) {
            proof {
                if before[i as int].0 != key@ {
                    lemma_text_less_total(before[i as int].0, key@);
                }
                lemma_map_of_update(before, i as int, value@);
                assert(pairs_of(self.entries@.update(i as int, (key, value))) =~= before.update(
                    i as int,
                    (before[i as int].0, value@),
                ));
            }
            let mut entries: Vec<(String, String)> = Vec::new();
            std::mem::swap(&mut self.entries, &mut entries);
            entries.set(i, (key, value));
            self.entries = entries;
        } else {
            proof {
                let new = before.insert(i as int, (key@, value@));
                assert forall|x: int, y: int| 0 <= x < y < new.len() implies text_less(
                    #[trigger] new[x].0,
                    #[trigger] new[y].0,
                ) by {
                    if y == i {
                        assert(new[x] == before[x]);
                    } else if x == i {
                        assert(new[y] == before[y - 1]);
                        if y - 1 > i {
                            assert(text_less(before[i as int].0, before[y - 1].0));
                            lemma_text_less_transitive(key@, before[i as int].0, before[y - 1].0);
                        }
                    } else {
                        let px = if x < i { x } else { x - 1 };
                        let py = if y < i { y } else { y - 1 };
                        assert(new[x] == before[px] && new[y] == before[py]);
                    }
                }
                lemma_map_of_insert(before, i as int, (key@, value@));
                assert(pairs_of(self.entries@.insert(i as int, (key, value))) =~= new);
            }
            let mut entries: Vec<(String, String)> = Vec::new();
            std::mem::swap(&mut self.entries, &mut entries);
            entries.insert(i, (key, value));
            self.entries = entries;
        }
    }

    /// Takes the entry with the name `key` out, if there is one.
    pub fn remove(&mut self, key: &str)
        ensures
            final(self)@ == old(self)@.remove(key@),
            sorted_by_name(final(self).pairs()),
    {
        proof {
            use_type_invariant(&*self);
        }
        let ghost before = self.pairs();
        let i = self.position(key);
        if i < self.entries.len() && !text_lt(key, self.entries[i].0.as_str()) {
            proof {
                if before[i as int].0 != key@ {
                    lemma_text_less_total(before[i as int].0, key@);
                }
                lemma_map_of_remove(before, i as int);
                assert(pairs_of(self.entries@.remove(i as int)) =~= before.remove(i as int));
            }
            let mut entries: Vec<(String, String)> = Vec::new();
            std::mem::swap(&mut self.entries, &mut entries);
            entries.remove(i);
            self.entries = entries;
        } else {
            proof {
                self.lemma_absent(key@, i as int);
                assert(self@.remove(key@) =~= self@);
            }
        }
    }
}

/// What is amiss with a line of a store file, as a value of
/// specifications.
pub enum Issue {
    /// The line gives a name that an earlier line gave: its value takes
    /// the place of the earlier one.
    Duplicate { line: nat, name: Seq<char> },
    /// The line is not blank and holds no `=`: it is passed over.
    Invalid { line: nat, text: Seq<char> },
}

/// What is amiss with a line of a store file. Lines count from 1.
#[derive(Debug, PartialEq, Eq)]
pub enum LineIssue {
    /// The line gives a name that an earlier line gave: its value takes
    /// the place of the earlier one.
    Duplicate { line: usize, name: String },
    /// The line is not blank and holds no `=`: it is passed over.
    Invalid { line: usize, text: String },
}

impl View for LineIssue {
    type V = Issue;

    open spec fn view(&self) -> Issue {
        match *self {
            LineIssue::Duplicate { line, name } => Issue::Duplicate { line: line as nat, name: name@ },
            LineIssue::Invalid { line, text } => Issue::Invalid { line: line as nat, text: text@ },
        }
    }
}

/// The issues as values of specifications.
pub open spec fn issues_view(issues: Seq<LineIssue>) -> Seq<Issue> {
    Seq::new(issues.len(), |i: int| issues[i]@)
}

/// The text of each issue.
pub open spec fn issue_message_of(issue: Issue) -> Seq<char> {
    match issue {
        Issue::Duplicate { name, .. } => "Duplicate key in hash file (Last value is used): "@
            + name,
        Issue::Invalid { line, text } => "Invalid line in hash file (line "@ + padded_decimal_of(
            line,
            1,
        ) + "): "@ + text,
    }
}

impl LineIssue {
    /// The text of the issue.
    pub fn message(&self) -> (r: String)
        ensures
            r@ == issue_message_of(self@),
    {
        match self {
            LineIssue::Duplicate { name, .. } => {
                let mut out = String::from_str("Duplicate key in hash file (Last value is used): ");
                out.append(name.as_str());
                out
            },
            LineIssue::Invalid { line, text } => {
                let mut out = String::from_str("Invalid line in hash file (line ");
                push_decimal(&mut out, *line as u64, 1);
                out.append("): ");
                out.append(text.as_str());
                out
            },
        }
    }
}

/// What is amiss with the line `line`, which is line `number`, where the
/// lines before it gave the entries of `seen`: nothing with a blank
/// line; a line without `=` is invalid; a line whose name is in `seen`
/// gives that name again.
pub open spec fn line_issue(
    line: Seq<char>,
    number: nat,
    seen: Map<Seq<char>, Seq<char>>,
) -> Option<Issue> {
    let t = trim_of(line);
    let pairs = line_pairs(line);
    if t.len() == 0 {
        None
    } else if pairs.len() == 0 {
        Some(Issue::Invalid { line: number, text: t })
    } else if seen.contains_key(pairs[0].0) {
        Some(Issue::Duplicate { line: number, name: pairs[0].0 })
    } else {
        None
    }
}

/// The issues `issues` and then the issue `issue`, if there is one.
pub open spec fn with_issue(issues: Seq<Issue>, issue: Option<Issue>) -> Seq<Issue> {
    match issue {
        Some(i) => issues.push(i),
        None => issues,
    }
}

/// What reading the first `n` characters of `s` yields besides entries:
/// the issues of the lines that a line feed has ended, and how many
/// lines those are.
pub open spec fn scan_issues(s: Seq<char>, n: nat) -> (Seq<Issue>, nat)
    decreases n,
{
    if n == 0 {
        (Seq::empty(), 0)
    } else {
        let before = scan_issues(s, (n - 1) as nat);
        if s[n - 1] == '\n' {
            let read = scan_lines(s, (n - 1) as nat);
            (
                with_issue(before.0, line_issue(read.1, before.1 + 1, map_of(read.0))),
                before.1 + 1,
            )
        } else {
            before
        }
    }
}

/// What is amiss with the lines of `s`, in the order of the lines.
pub open spec fn issues_of(s: Seq<char>) -> Seq<Issue> {
    let read = scan_lines(s, s.len());
    let found = scan_issues(s, s.len());
    with_issue(found.0, line_issue(read.1, found.1 + 1, map_of(read.0)))
}

/// Puts the entry that the line `chars[from..to]`, which is line
/// `number`, stands for into the store, if it stands for one, and says
/// what is amiss with the line.
fn read_line(
    hashes: &mut FingerprintStore,
    chars: &Vec<char>,
    from: usize,
    to: usize,
    number: usize,
) -> (issue: Option<LineIssue>)
    requires
        from <= to <= chars.len(),
    ensures
        final(hashes)@ == with_pairs(
            old(hashes)@,
            line_pairs(chars@.subrange(from as int, to as int)),
        ),
        match issue {
            Some(i) => Some(i@),
            None => None,
        } == line_issue(chars@.subrange(from as int, to as int), number as nat, old(hashes)@),
{
    let ghost line = chars@.subrange(from as int, to as int);
    let (a, b) = trim_range(chars, from, to);
    let equal_pos = find_char(chars, a, b, '=');
    proof {
        reveal_with_fuel(with_pairs, 2);
    }
    if equal_pos < b {
        let (key_from, key_to) = trim_range(chars, a, equal_pos);
        let (value_from, value_to) = trim_range(chars, equal_pos + 1, b);
        let mut key = String::new();
        push_range(&mut key, chars, key_from, key_to);
        let mut hash = String::new();
        push_range(&mut hash, chars, value_from, value_to);
        proof {
            let t = trim_of(line);
            assert(t.take(equal_pos - a) =~= chars@.subrange(a as int, equal_pos as int));
            assert(t.skip(equal_pos - a + 1) =~= chars@.subrange(equal_pos + 1, b as int));
        }
        let issue = if hashes.get(key.as_str()).is_some() {
            Some(LineIssue::Duplicate { line: number, name: key.clone() })
        } else {
            None
        };
        hashes.insert(key, hash);
        issue
    } else {
        assert(line_pairs(line) =~= Seq::<(Seq<char>, Seq<char>)>::empty());
        if a < b {
            let mut text = String::new();
            push_range(&mut text, chars, a, b);
            Some(LineIssue::Invalid { line: number, text })
        } else {
            None
        }
    }
}

/// The store that the text of a store file stands for, and what is
/// amiss with its lines. Each line that is not blank and holds a `=`
/// gives one entry; white space round lines, names and values is
/// dropped; of lines with one name the last counts, and each later one
/// is told of; other lines that are not blank are passed over, and
/// told of.
pub fn parse_hash_file(content: &str) -> (r: (FingerprintStore, Vec<LineIssue>))
    ensures
        r.0@ == map_of(parsed_pairs(content@)),
        issues_view(r.1@) == issues_of(content@),
{
    let chars = to_chars(content);
    let n = chars.len();
    let mut hashes = FingerprintStore::new();
    let mut issues: Vec<LineIssue> = Vec::new();
    let mut lines: usize = 0;
    let mut line_start: usize = 0;
    let mut i: usize = 0;
    while i < n
        invariant
            n == chars.len(),
            line_start <= i <= n,
            lines <= line_start,
            hashes@ == map_of(scan_lines(chars@, i as nat).0),
            chars@.subrange(line_start as int, i as int) == scan_lines(chars@, i as nat).1,
            issues_view(issues@) == scan_issues(chars@, i as nat).0,
            lines == scan_issues(chars@, i as nat).1,
        decreases n - i,
    {
        let ghost before = scan_lines(chars@, i as nat);
        if chars[i] == '\n' {
            proof {
                lemma_map_of_concat(before.0, line_pairs(before.1));
            }
            let issue = read_line(&mut hashes, &chars, line_start, i, lines + 1);
            let ghost held = issues_view(issues@);
            if let Some(found) = issue {
                issues.push(found);
                assert(issues_view(issues@) =~= held.push(found@));
            }
            lines = lines + 1;
            line_start = i + 1;
        } else {
            assert(chars@.subrange(line_start as int, i + 1) =~= before.1.push(chars@[i as int]));
        }
        i += 1;
    }
    proof {
        let all = scan_lines(chars@, n as nat);
        lemma_map_of_concat(all.0, line_pairs(all.1));
    }
    // A last line without a line feed counts as a line if it holds anything.
    if line_start < n {
        let issue = read_line(&mut hashes, &chars, line_start, n, lines + 1);
        let ghost held = issues_view(issues@);
        if let Some(found) = issue {
            issues.push(found);
            assert(issues_view(issues@) =~= held.push(found@));
        }
    } else {
        proof {
            lemma_trim_of_trimmed(Seq::<char>::empty());
        }
    }
    (hashes, issues)
}

/// The store that the text of a store file stands for. Each line that
/// is not blank and holds a `=` gives one entry; white space round
/// lines, names and values is dropped; of lines with one name the last
/// counts; other lines are passed over.
pub fn read_hash_file(content: &str) -> (hashes: FingerprintStore)
    ensures
        hashes@ == map_of(parsed_pairs(content@)),
{
    parse_hash_file(content).0
}

/// The store that a run starts from, and what is amiss with the lines
/// of its file: what the store file holds, or an empty store where there
/// is no file or it cannot be read.
pub fn load_hash_file(content: Option<&str>) -> (r: (FingerprintStore, Vec<LineIssue>))
    ensures
        r.0@ == match content {
            Some(text) => map_of(parsed_pairs(text@)),
            None => Map::<Seq<char>, Seq<char>>::empty(),
        },
        issues_view(r.1@) == match content {
            Some(text) => issues_of(text@),
            None => Seq::<Issue>::empty(),
        },
{
    match content {
        Some(text) => parse_hash_file(text),
        None => {
            let issues: Vec<LineIssue> = Vec::new();
            assert(issues_view(issues@) =~= Seq::<Issue>::empty());
            (FingerprintStore::new(), issues)
        },
    }
}

/// The text of the store file for `hashes`: a line `name=value` for each
/// entry, in the order of the names.
pub fn write_hash_file(hashes: &FingerprintStore) -> (content: String)
    ensures
        content@ == rendered(hashes.pairs()),
        sorted_by_name(hashes.pairs()),
{
    proof {
        use_type_invariant(hashes);
    }
    let mut content = String::new();
    let mut i: usize = 0;
    assert(hashes.pairs().take(0) =~= Seq::<(Seq<char>, Seq<char>)>::empty());
    while i < hashes.entries.len()
        invariant
            i <= hashes.entries.len(),
            content@ == rendered(hashes.pairs().take(i as int)),
        decreases hashes.entries.len() - i,
    {
        let ghost upto = hashes.pairs().take(i + 1);
        assert(upto.drop_last() =~= hashes.pairs().take(i as int));
        content.append(hashes.entries[i].0.as_str());
        content.push('=');
        content.append(hashes.entries[i].1.as_str());
        content.push('\n');
        assert(content@ =~= rendered(upto.drop_last()) + line_of(upto.last()));
        i += 1;
    }
    assert(hashes.pairs().take(i as int) =~= hashes.pairs());
    content
}

/// Whether `s` has no white space at its beginning or at its end.
pub open spec fn is_trimmed(s: Seq<char>) -> bool {
    s.len() == 0 || (!is_space(s.first()) && !is_space(s.last()))
}

/// Whether the entry comes back from its line as it is: the name and the
/// value have no white space round them and no line feed in them, and
/// the name has no `=` in it.
pub open spec fn is_plain(pair: (Seq<char>, Seq<char>)) -> bool {
    &&& is_trimmed(pair.0)
    &&& is_trimmed(pair.1)
    &&& !pair.0.contains('=')
    &&& !pair.0.contains('\n')
    &&& !pair.1.contains('\n')
}

/// Whether each of the entries comes back from its line as it is.
pub open spec fn all_plain(pairs: Seq<(Seq<char>, Seq<char>)>) -> bool {
    forall|i: int| 0 <= i < pairs.len() ==> is_plain(#[trigger] pairs[i])
}

/// Text without white space round it stays as it is.
pub proof fn lemma_trim_of_trimmed(s: Seq<char>)
    requires
        is_trimmed(s),
    ensures
        trim_of(s) == s,
{
    lemma_leading_spaces(s, 0);
    assert(s.skip(0) =~= s);
    lemma_trailing_spaces(s, 0);
    assert(s.take(s.len() as int) =~= s);
}

/// The line of a plain entry stands for that entry.
pub proof fn lemma_line_of_plain(pair: (Seq<char>, Seq<char>))
    requires
        is_plain(pair),
    ensures
        line_pairs(pair.0 + seq!['='] + pair.1) == seq![pair],
{
    let line = pair.0 + seq!['='] + pair.1;
    let p = pair.0.len();
    lemma_line_is_trimmed(pair);
    lemma_trim_of_trimmed(line);
    assert forall|j: int| 0 <= j < p implies #[trigger] line[j] != '=' by {
        if line[j] == '=' {
            assert(pair.0[j] == '=');
        }
    }
    lemma_index_of(line, '=', p);
    assert(line.take(p as int) =~= pair.0);
    assert(line.skip(p as int + 1) =~= pair.1);
    lemma_trim_of_trimmed(pair.0);
    lemma_trim_of_trimmed(pair.1);
}

/// What reading some characters yields depends on those characters alone.
pub proof fn lemma_scan_lines_prefix(a: Seq<char>, b: Seq<char>, n: nat)
    requires
        n <= a.len(),
    ensures
        scan_lines(a + b, n) == scan_lines(a, n),
    decreases n,
{
    if n > 0 {
        lemma_scan_lines_prefix(a, b, (n - 1) as nat);
        assert((a + b)[n - 1] == a[n - 1]);
    }
}

/// Reading on through characters that hold no line feed adds them to the
/// line that is open.
pub proof fn lemma_scan_lines_within(a: Seq<char>, b: Seq<char>, k: nat)
    requires
        k <= b.len(),
        !b.contains('\n'),
    ensures
        scan_lines(a + b, a.len() + k) == (
            scan_lines(a, a.len()).0,
            scan_lines(a, a.len()).1 + b.take(k as int),
        ),
    decreases k,
{
    if k == 0 {
        lemma_scan_lines_prefix(a, b, a.len());
        assert(scan_lines(a, a.len()).1 + b.take(0) =~= scan_lines(a, a.len()).1);
    } else {
        lemma_scan_lines_within(a, b, (k - 1) as nat);
        assert((a + b)[a.len() + k - 1] == b[k - 1]);
        if b[k - 1] == '\n' {
            assert(b.contains('\n'));
        }
        assert(scan_lines(a, a.len()).1 + b.take(k - 1).push(b[k - 1]) =~= scan_lines(
            a,
            a.len(),
        ).1 + b.take(k as int));
        assert((scan_lines(a, a.len()).1 + b.take(k - 1)).push(b[k - 1]) =~= scan_lines(
            a,
            a.len(),
        ).1 + b.take(k - 1).push(b[k - 1]));
    }
}

/// The line of a plain entry holds no line feed.
pub proof fn lemma_line_has_no_feed(pair: (Seq<char>, Seq<char>))
    requires
        is_plain(pair),
    ensures
        !(pair.0 + seq!['='] + pair.1).contains('\n'),
{
    let line = pair.0 + seq!['='] + pair.1;
    if line.contains('\n') {
        let j = choose|j: int| 0 <= j < line.len() && line[j] == '\n';
        if j < pair.0.len() {
            assert(pair.0[j] == '\n');
            assert(pair.0.contains('\n'));
        } else if j > pair.0.len() {
            assert(pair.1[j - pair.0.len() - 1] == '\n');
            assert(pair.1.contains('\n'));
        }
    }
}

/// Reading one more line, with the line feed that ends it, adds the
/// entry that the line stands for.
pub proof fn lemma_scan_line(head: Seq<char>, line: Seq<char>)
    requires
        !line.contains('\n'),
    ensures
        scan_lines(head + line + seq!['\n'], head.len() + line.len() + 1) == (
            scan_lines(head, head.len()).0 + line_pairs(scan_lines(head, head.len()).1 + line),
            Seq::<char>::empty(),
        ),
{
    let text = head + line + seq!['\n'];
    lemma_scan_lines_within(head, line, line.len());
    assert(line.take(line.len() as int) =~= line);
    lemma_scan_lines_prefix(head + line, seq!['\n'], (head + line).len());
    assert(text[text.len() - 1] == '\n');
}

/// All but the last of plain entries are plain.
pub proof fn lemma_all_plain_before(pairs: Seq<(Seq<char>, Seq<char>)>)
    requires
        all_plain(pairs),
        pairs.len() > 0,
    ensures
        all_plain(pairs.drop_last()),
        is_plain(pairs.last()),
{
    let before = pairs.drop_last();
    assert forall|i: int| 0 <= i < before.len() implies is_plain(#[trigger] before[i]) by {
        assert(before[i] == pairs[i]);
    }
}

/// Reading all the lines written for plain entries yields those entries,
/// and leaves no line open.
pub proof fn lemma_scan_rendered(pairs: Seq<(Seq<char>, Seq<char>)>)
    requires
        all_plain(pairs),
    ensures
        scan_lines(rendered(pairs), rendered(pairs).len()) == (pairs, Seq::<char>::empty()),
    decreases pairs.len(),
{
    if pairs.len() > 0 {
        let before = pairs.drop_last();
        let pair = pairs.last();
        let head = rendered(before);
        let line = pair.0 + seq!['='] + pair.1;
        lemma_all_plain_before(pairs);
        lemma_scan_rendered(before);
        lemma_line_has_no_feed(pair);
        lemma_scan_line(head, line);
        lemma_line_of_plain(pair);
        assert(rendered(pairs) =~= head + line + seq!['\n']);
        assert(Seq::<char>::empty() + line =~= line);
        assert(before + seq![pair] =~= pairs);
    }
}

/// A store comes back from its file as it was written: reading the lines
/// written for plain entries yields those entries, and so their mapping.
pub proof fn lemma_round_trip(pairs: Seq<(Seq<char>, Seq<char>)>)
    requires
        all_plain(pairs),
    ensures
        parsed_pairs(rendered(pairs)) == pairs,
        map_of(parsed_pairs(rendered(pairs))) == map_of(pairs),
{
    lemma_scan_rendered(pairs);
    let none = Seq::<char>::empty();
    lemma_leading_spaces(none, 0);
    assert(none.skip(0) =~= none);
    lemma_trailing_spaces(none, 0);
    assert(parsed_pairs(rendered(pairs)) =~= pairs);
}

/// Of lines with one name the last one counts.
pub proof fn lemma_last_line_wins(
    pairs: Seq<(Seq<char>, Seq<char>)>,
    name: Seq<char>,
    value: Seq<char>,
)
    ensures
        map_of(pairs.push((name, value)))[name] == value,
        map_of(pairs.push((name, value))) == map_of(pairs).insert(name, value),
{
    assert(pairs.push((name, value)).drop_last() =~= pairs);
}

/// A line without `=` stands for no entry.
pub proof fn lemma_line_without_equals(line: Seq<char>)
    requires
        !line.contains('='),
    ensures
        line_pairs(line) == Seq::<(Seq<char>, Seq<char>)>::empty(),
{
    let t = trim_of(line);
    let from = leading_spaces(line) as int;
    lemma_trim_within(line);
    assert forall|j: int| 0 <= j < t.len() implies #[trigger] t[j] != '=' by {
        assert(t[j] == line.skip(from)[j]);
        assert(line.skip(from)[j] == line[from + j]);
        if t[j] == '=' {
            assert(line.contains('='));
        }
    }
    lemma_index_of(t, '=', t.len());
}

/// A text holds at most as many characters of white space at its
/// beginning and at its end as it has characters.
pub proof fn lemma_trim_within(s: Seq<char>)
    ensures
        leading_spaces(s) <= s.len(),
        trailing_spaces(s.skip(leading_spaces(s) as int)) <= s.len() - leading_spaces(s),
{
    lemma_leading_within(s);
    lemma_trailing_within(s.skip(leading_spaces(s) as int));
}

proof fn lemma_leading_within(s: Seq<char>)
    ensures
        leading_spaces(s) <= s.len(),
    decreases s.len(),
{
    if s.len() > 0 {
        lemma_leading_within(s.drop_first());
    }
}

proof fn lemma_trailing_within(s: Seq<char>)
    ensures
        trailing_spaces(s) <= s.len(),
    decreases s.len(),
{
    if s.len() > 0 {
        lemma_trailing_within(s.drop_last());
    }
}

/// The issues of some lines depend on the characters of those lines
/// alone.
pub proof fn lemma_scan_issues_prefix(a: Seq<char>, b: Seq<char>, n: nat)
    requires
        n <= a.len(),
    ensures
        scan_issues(a + b, n) == scan_issues(a, n),
    decreases n,
{
    if n > 0 {
        lemma_scan_issues_prefix(a, b, (n - 1) as nat);
        lemma_scan_lines_prefix(a, b, (n - 1) as nat);
    }
}

/// Reading on through characters that hold no line feed ends no line,
/// and so finds no issue.
pub proof fn lemma_scan_issues_within(a: Seq<char>, b: Seq<char>, k: nat)
    requires
        k <= b.len(),
        !b.contains('\n'),
    ensures
        scan_issues(a + b, a.len() + k) == scan_issues(a, a.len()),
    decreases k,
{
    if k == 0 {
        lemma_scan_issues_prefix(a, b, a.len());
    } else {
        lemma_scan_issues_within(a, b, (k - 1) as nat);
        if b[k - 1] == '\n' {
            assert(b.contains('\n'));
        }
    }
}

/// Reading one more line, with the line feed that ends it, adds the
/// issue of that line, and counts the line.
pub proof fn lemma_scan_issues_line(head: Seq<char>, line: Seq<char>)
    requires
        !line.contains('\n'),
    ensures
        scan_issues(head + line + seq!['\n'], head.len() + line.len() + 1) == (
            with_issue(
                scan_issues(head, head.len()).0,
                line_issue(
                    scan_lines(head, head.len()).1 + line,
                    scan_issues(head, head.len()).1 + 1,
                    map_of(scan_lines(head, head.len()).0),
                ),
            ),
            scan_issues(head, head.len()).1 + 1,
        ),
{
    let text = head + line + seq!['\n'];
    let upto = (head + line).len();
    lemma_scan_issues_within(head, line, line.len());
    lemma_scan_issues_prefix(head + line, seq!['\n'], upto);
    lemma_scan_lines_within(head, line, line.len());
    lemma_scan_lines_prefix(head + line, seq!['\n'], upto);
    assert(line.take(line.len() as int) =~= line);
    assert(text[text.len() - 1] == '\n');
}

/// All but the last of sorted entries are sorted, and none of them has
/// the name of the last.
pub proof fn lemma_sorted_before(pairs: Seq<(Seq<char>, Seq<char>)>)
    requires
        sorted_by_name(pairs),
        pairs.len() > 0,
    ensures
        sorted_by_name(pairs.drop_last()),
        !map_of(pairs.drop_last()).contains_key(pairs.last().0),
{
    let before = pairs.drop_last();
    assert forall|i: int, j: int| 0 <= i < j < before.len() implies text_less(
        #[trigger] before[i].0,
        #[trigger] before[j].0,
    ) by {
        assert(before[i] == pairs[i] && before[j] == pairs[j]);
    }
    lemma_map_of_names(before, pairs.last().0);
    if has_name(before, pairs.last().0) {
        let i = choose|i: int| 0 <= i < before.len() && (#[trigger] before[i]).0 == pairs.last().0;
        assert(pairs[i] == before[i]);
        lemma_sorted_names_differ(pairs, i, pairs.len() - 1);
    }
}

/// Reading all the lines written for plain entries in the order of
/// their names finds no issue, and counts a line for each entry.
pub proof fn lemma_scan_issues_rendered(pairs: Seq<(Seq<char>, Seq<char>)>)
    requires
        all_plain(pairs),
        sorted_by_name(pairs),
    ensures
        scan_issues(rendered(pairs), rendered(pairs).len()) == (Seq::<Issue>::empty(), pairs.len()),
    decreases pairs.len(),
{
    if pairs.len() > 0 {
        let before = pairs.drop_last();
        let pair = pairs.last();
        let head = rendered(before);
        let line = pair.0 + seq!['='] + pair.1;
        lemma_all_plain_before(pairs);
        lemma_sorted_before(pairs);
        lemma_scan_issues_rendered(before);
        lemma_scan_rendered(before);
        lemma_line_has_no_feed(pair);
        lemma_scan_issues_line(head, line);
        lemma_line_of_plain(pair);
        assert(rendered(pairs) =~= head + line + seq!['\n']);
        assert(Seq::<char>::empty() + line =~= line);
    }
}

/// The line of a plain entry has no white space round it.
pub proof fn lemma_line_is_trimmed(pair: (Seq<char>, Seq<char>))
    requires
        is_plain(pair),
    ensures
        is_trimmed(pair.0 + seq!['='] + pair.1),
{
    let line = pair.0 + seq!['='] + pair.1;
    assert(line.first() == if pair.0.len() > 0 {
        pair.0.first()
    } else {
        '='
    });
    assert(line.last() == if pair.1.len() > 0 {
        pair.1.last()
    } else {
        '='
    });
}

/// Nothing is amiss with the file of a store: reading the lines written
/// for plain entries in the order of their names finds no issue.
pub proof fn lemma_written_without_issues(pairs: Seq<(Seq<char>, Seq<char>)>)
    requires
        all_plain(pairs),
        sorted_by_name(pairs),
    ensures
        issues_of(rendered(pairs)) == Seq::<Issue>::empty(),
{
    lemma_scan_issues_rendered(pairs);
    lemma_scan_rendered(pairs);
    lemma_trim_of_trimmed(Seq::<char>::empty());
}

} // verus!
