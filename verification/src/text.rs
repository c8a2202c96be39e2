//! Text as sequences of characters: conversions between `str`, `String` and `Vec<char>`.

use vstd::prelude::*;

verus! {

/// `String::push` appends one character to the end of the string.
pub assume_specification[ String::push ](s: &mut String, ch: char)
    ensures
        final(s)@ == old(s)@.push(ch),
;

/// The text of an optional string.
pub open spec fn opt_text(o: Option<String>) -> Option<Seq<char>> {
    match o {
        Some(s) => Some(s@),
        None => None,
    }
}

/// The texts of the strings of `v`.
pub open spec fn strings(v: Seq<String>) -> Seq<Seq<char>> {
    Seq::new(v.len(), |i: int| v[i]@)
}

/// The characters of `s`, in order.
pub fn to_chars(s: &str) -> (out: Vec<char>)
    ensures
        out@ == s@,
{
    let mut out: Vec<char> = Vec::new();
    for c in it: s.chars()
        invariant
            out@ == it.seq().take(it.index()),
            it.seq() == s@,
    {
        out.push(c);
    }
    out
}

/// Appends the characters `chars[from..to]` to `out`.
pub(crate) fn push_range(out: &mut String, chars: &Vec<char>, from: usize, to: usize)
    requires
        from <= to <= chars.len(),
    ensures
        final(out)@ == old(out)@ + chars@.subrange(from as int, to as int),
{
    let mut i: usize = from;
    while i < to
        invariant
            from <= i <= to <= chars.len(),
            out@ == old(out)@ + chars@.subrange(from as int, i as int),
        decreases to - i,
    {
        out.push(chars[i]);
        i += 1;
    }
}

/// The character for one hexadecimal digit; `f` for all from 15 on.
pub open spec fn hex_digit_of(d: nat) -> char {
    if d == 0 {
        '0'
    } else if d == 1 {
        '1'
    } else if d == 2 {
        '2'
    } else if d == 3 {
        '3'
    } else if d == 4 {
        '4'
    } else if d == 5 {
        '5'
    } else if d == 6 {
        '6'
    } else if d == 7 {
        '7'
    } else if d == 8 {
        '8'
    } else if d == 9 {
        '9'
    } else if d == 10 {
        'a'
    } else if d == 11 {
        'b'
    } else if d == 12 {
        'c'
    } else if d == 13 {
        'd'
    } else if d == 14 {
        'e'
    } else {
        'f'
    }
}

/// The last `width` hexadecimal digits of `v`, most significant first,
/// in lower case and with leading zeros.
pub open spec fn hex_of(v: nat, width: nat) -> Seq<char>
    decreases width,
{
    if width == 0 {
        Seq::empty()
    } else {
        hex_of(v / 16, (width - 1) as nat).push(hex_digit_of(v % 16))
    }
}

/// The character for the hexadecimal digit `d`.
pub fn hex_digit(d: u64) -> (c: char)
    ensures
        c == hex_digit_of(d as nat),
{
    if d == 0 {
        '0'
    } else if d == 1 {
        '1'
    } else if d == 2 {
        '2'
    } else if d == 3 {
        '3'
    } else if d == 4 {
        '4'
    } else if d == 5 {
        '5'
    } else if d == 6 {
        '6'
    } else if d == 7 {
        '7'
    } else if d == 8 {
        '8'
    } else if d == 9 {
        '9'
    } else if d == 10 {
        'a'
    } else if d == 11 {
        'b'
    } else if d == 12 {
        'c'
    } else if d == 13 {
        'd'
    } else if d == 14 {
        'e'
    } else {
        'f'
    }
}

/// Appends the last `width` hexadecimal digits of `value` to `out`.
pub fn push_hex(out: &mut String, value: u64, width: u32)
    ensures
        final(out)@ == old(out)@ + hex_of(value as nat, width as nat),
    decreases width,
{
    if width > 0 {
        push_hex(out, value / 16, width - 1);
        out.push(hex_digit(value % 16));
        assert(out@ =~= old(out)@ + hex_of(value as nat, width as nat));
    } else {
        assert(out@ =~= old(out)@ + hex_of(value as nat, width as nat));
    }
}

/// `n` in decimal, most significant digit first, with zeros in front
/// where it has fewer than `width` digits.
pub open spec fn padded_decimal_of(n: nat, width: nat) -> Seq<char>
    decreases n, width,
{
    if n < 10 && width <= 1 {
        seq![hex_digit_of(n)]
    } else {
        padded_decimal_of(n / 10, if width > 0 {
            (width - 1) as nat
        } else {
            0
        }).push(hex_digit_of(n % 10))
    }
}

/// Appends `value` in decimal to `out`, with zeros in front where it has
/// fewer than `width` digits.
pub fn push_decimal(out: &mut String, value: u64, width: u32)
    ensures
        final(out)@ == old(out)@ + padded_decimal_of(value as nat, width as nat),
    decreases value, width,
{
    if value < 10 && width <= 1 {
        out.push(hex_digit(value));
        assert(out@ =~= old(out)@ + padded_decimal_of(value as nat, width as nat));
    } else {
        push_decimal(out, value / 10, if width > 0 {
            width - 1
        } else {
            0
        });
        out.push(hex_digit(value % 10));
        assert(out@ =~= old(out)@ + padded_decimal_of(value as nat, width as nat));
    }
}

/// `v` in decimal, with a minus sign in front where it is negative.
pub open spec fn signed_decimal_of(v: int) -> Seq<char> {
    if v < 0 {
        seq!['-'] + padded_decimal_of((-v) as nat, 1)
    } else {
        padded_decimal_of(v as nat, 1)
    }
}

/// Appends `value` in decimal to `out`.
pub fn push_signed(out: &mut String, value: i64)
    ensures
        final(out)@ == old(out)@ + signed_decimal_of(value as int),
{
    if value < 0 {
        out.push('-');
        let magnitude: u64 = if value == i64::MIN {
            9223372036854775808u64
        } else {
            (-value) as u64
        };
        push_decimal(out, magnitude, 1);
        assert(out@ =~= old(out)@ + signed_decimal_of(value as int));
    } else {
        push_decimal(out, value as u64, 1);
    }
}

/// Whether `c` is white space, as Unicode defines it.
pub open spec fn is_space(c: char) -> bool {
    let u = c as u32;
    (0x09 <= u <= 0x0D) || u == 0x20 || u == 0x85 || u == 0xA0 || u == 0x1680 || (0x2000 <= u
        <= 0x200A) || u == 0x2028 || u == 0x2029 || u == 0x202F || u == 0x205F || u == 0x3000
}

/// Whether `c` is white space.
pub fn is_whitespace(c: char) -> (r: bool)
    ensures
        r == is_space(c),
{
    let u = c as u32;
    (0x09 <= u && u <= 0x0D) || u == 0x20 || u == 0x85 || u == 0xA0 || u == 0x1680 || (0x2000 <= u
        && u <= 0x200A) || u == 0x2028 || u == 0x2029 || u == 0x202F || u == 0x205F || u == 0x3000
}

/// How many characters of white space `s` begins with.
pub open spec fn leading_spaces(s: Seq<char>) -> nat
    decreases s.len(),
{
    if s.len() > 0 && is_space(s[0]) {
        1 + leading_spaces(s.drop_first())
    } else {
        0
    }
}

/// How many characters of white space `s` ends with.
pub open spec fn trailing_spaces(s: Seq<char>) -> nat
    decreases s.len(),
{
    if s.len() > 0 && is_space(s.last()) {
        1 + trailing_spaces(s.drop_last())
    } else {
        0
    }
}

/// `s` without the white space at its beginning and at its end.
pub open spec fn trim_of(s: Seq<char>) -> Seq<char> {
    let t = s.skip(leading_spaces(s) as int);
    t.take(t.len() - trailing_spaces(t))
}

/// Where `c` first stands in `s`; the length of `s` where it does not.
pub open spec fn index_of(s: Seq<char>, c: char) -> nat
    decreases s.len(),
{
    if s.len() == 0 || s[0] == c {
        0
    } else {
        1 + index_of(s.drop_first(), c)
    }
}

/// `s` begins with exactly `k` characters of white space if its first `k`
/// characters are white space and the next one, if any, is not.
pub proof fn lemma_leading_spaces(s: Seq<char>, k: nat)
    requires
        k <= s.len(),
        forall|j: int| 0 <= j < k ==> is_space(#[trigger] s[j]),
        k == s.len() || !is_space(s[k as int]),
    ensures
        leading_spaces(s) == k,
    decreases k,
{
    if k > 0 {
        let rest = s.drop_first();
        assert forall|j: int| 0 <= j < k - 1 implies is_space(#[trigger] rest[j]) by {
            assert(rest[j] == s[j + 1]);
        }
        lemma_leading_spaces(rest, (k - 1) as nat);
    }
}

/// `s` ends with exactly `k` characters of white space if its last `k`
/// characters are white space and the one before them, if any, is not.
pub proof fn lemma_trailing_spaces(s: Seq<char>, k: nat)
    requires
        k <= s.len(),
        forall|j: int| s.len() - k <= j < s.len() ==> is_space(#[trigger] s[j]),
        k == s.len() || !is_space(s[s.len() - k - 1]),
    ensures
        trailing_spaces(s) == k,
    decreases k,
{
    if k > 0 {
        let rest = s.drop_last();
        assert forall|j: int| rest.len() - (k - 1) <= j < rest.len() implies is_space(
            #[trigger] rest[j],
        ) by {
            assert(rest[j] == s[j]);
        }
        lemma_trailing_spaces(rest, (k - 1) as nat);
    }
}

/// `c` first stands at `k` in `s` if it stands nowhere before `k` and
/// stands at `k`, or `k` is the length of `s`.
pub proof fn lemma_index_of(s: Seq<char>, c: char, k: nat)
    requires
        k <= s.len(),
        forall|j: int| 0 <= j < k ==> #[trigger] s[j] != c,
        k == s.len() || s[k as int] == c,
    ensures
        index_of(s, c) == k,
    decreases k,
{
    if k > 0 {
        let rest = s.drop_first();
        assert forall|j: int| 0 <= j < k - 1 implies #[trigger] rest[j] != c by {
            assert(rest[j] == s[j + 1]);
        }
        lemma_index_of(rest, c, (k - 1) as nat);
    }
}

/// The bounds of `chars[from..to]` without the white space at its
/// beginning and at its end.
pub(crate) fn trim_range(chars: &Vec<char>, from: usize, to: usize) -> (r: (usize, usize))
    requires
        from <= to <= chars.len(),
    ensures
        from <= r.0 <= r.1 <= to,
        chars@.subrange(r.0 as int, r.1 as int) == trim_of(chars@.subrange(from as int, to as int)),
{
    let ghost s = chars@.subrange(from as int, to as int);
    let mut a = from;
    while a < to && is_whitespace(chars[a])
        invariant
            from <= a <= to <= chars.len(),
            forall|j: int| from <= j < a ==> is_space(#[trigger] chars@[j]),
        decreases to - a,
    {
        a += 1;
    }
    let mut b = to;
    while b > a && is_whitespace(chars[b - 1])
        invariant
            a <= b <= to <= chars.len(),
            forall|j: int| b <= j < to ==> is_space(#[trigger] chars@[j]),
        decreases b - a,
    {
        b -= 1;
    }
    proof {
        assert forall|j: int| 0 <= j < a - from implies is_space(#[trigger] s[j]) by {
            assert(s[j] == chars@[from + j]);
        }
        lemma_leading_spaces(s, (a - from) as nat);
        let t = s.skip(a - from);
        assert(t =~= chars@.subrange(a as int, to as int));
        assert forall|j: int| t.len() - (to - b) <= j < t.len() implies is_space(
            #[trigger] t[j],
        ) by {
            assert(t[j] == chars@[a + j]);
        }
        lemma_trailing_spaces(t, (to - b) as nat);
        assert(t.take(t.len() - (to - b)) =~= chars@.subrange(a as int, b as int));
    }
    (a, b)
}

/// Where `c` first stands in `chars[from..to]`, counted from the start of
/// `chars`; `to` where it does not stand there.
pub(crate) fn find_char(chars: &Vec<char>, from: usize, to: usize, c: char) -> (r: usize)
    requires
        from <= to <= chars.len(),
    ensures
        from <= r <= to,
        r - from == index_of(chars@.subrange(from as int, to as int), c),
{
    let ghost s = chars@.subrange(from as int, to as int);
    let mut i = from;
    while i < to && chars[i] != c
        invariant
            from <= i <= to <= chars.len(),
            forall|j: int| from <= j < i ==> #[trigger] chars@[j] != c,
        decreases to - i,
    {
        i += 1;
    }
    proof {
        assert forall|j: int| 0 <= j < i - from implies #[trigger] s[j] != c by {
            assert(s[j] == chars@[from + j]);
        }
        lemma_index_of(s, c, (i - from) as nat);
    }
    i
}

/// Whether `a` comes before `b` in the order of a dictionary, character
/// by character, each by its number in Unicode.
pub open spec fn text_less(a: Seq<char>, b: Seq<char>) -> bool
    decreases a.len(),
{
    if b.len() == 0 {
        false
    } else if a.len() == 0 {
        true
    } else if a[0] != b[0] {
        (a[0] as u32) < (b[0] as u32)
    } else {
        text_less(a.drop_first(), b.drop_first())
    }
}

/// No text comes before itself.
pub proof fn lemma_text_less_irreflexive(a: Seq<char>)
    ensures
        !text_less(a, a),
    decreases a.len(),
{
    if a.len() > 0 {
        lemma_text_less_irreflexive(a.drop_first());
    }
}

/// The order is transitive.
pub proof fn lemma_text_less_transitive(a: Seq<char>, b: Seq<char>, c: Seq<char>)
    requires
        text_less(a, b),
        text_less(b, c),
    ensures
        text_less(a, c),
    decreases a.len(),
{
    if a.len() > 0 && a[0] == b[0] && b[0] == c[0] {
        lemma_text_less_transitive(a.drop_first(), b.drop_first(), c.drop_first());
    }
}

/// Of two different texts one comes before the other.
pub proof fn lemma_text_less_total(a: Seq<char>, b: Seq<char>)
    requires
        a != b,
    ensures
        text_less(a, b) || text_less(b, a),
    decreases a.len(),
{
    if a.len() > 0 && b.len() > 0 && a[0] == b[0] {
        if a.drop_first() == b.drop_first() {
            assert(a =~= seq![a[0]] + a.drop_first());
            assert(b =~= seq![b[0]] + b.drop_first());
        }
        lemma_text_less_total(a.drop_first(), b.drop_first());
    } else if a.len() == 0 && b.len() == 0 {
        assert(a =~= b);
    } else if a.len() > 0 && b.len() > 0 {
        vstd::utf8::char_u32_cast(a[0], a[0] as u32);
        vstd::utf8::char_u32_cast(b[0], b[0] as u32);
    }
}

/// Texts that agree in their first `k` characters are ordered as what
/// follows those characters.
pub proof fn lemma_text_less_skip(a: Seq<char>, b: Seq<char>, k: nat)
    requires
        k <= a.len(),
        k <= b.len(),
        forall|j: int| 0 <= j < k ==> a[j] == b[j],
    ensures
        text_less(a, b) == text_less(a.skip(k as int), b.skip(k as int)),
    decreases k,
{
    if k == 0 {
        assert(a.skip(0) =~= a);
        assert(b.skip(0) =~= b);
    } else {
        assert(a.drop_first().skip(k - 1) =~= a.skip(k as int));
        assert(b.drop_first().skip(k - 1) =~= b.skip(k as int));
        lemma_text_less_skip(a.drop_first(), b.drop_first(), (k - 1) as nat);
    }
}

/// Whether `a` comes before `b` in the order of a dictionary.
pub fn text_lt(a: &str, b: &str) -> (r: bool)
    ensures
        r == text_less(a@, b@),
{
    let x = to_chars(a);
    let y = to_chars(b);
    let mut i: usize = 0;
    while i < x.len() && i < y.len() && x[i] == y[i]
        invariant
            i <= x.len(),
            i <= y.len(),
            forall|j: int| 0 <= j < i ==> x@[j] == y@[j],
        decreases x.len() - i,
    {
        i += 1;
    }
    proof {
        lemma_text_less_skip(x@, y@, i as nat);
    }
    if i == y.len() {
        false
    } else if i == x.len() {
        true
    } else {
        (x[i] as u32) < (y[i] as u32)
    }
}

} // verus!
