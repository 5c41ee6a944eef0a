//! Character-level string operations with specifications over `Seq<char>`.
//!
//! Every function here works on the characters of a string (its view) and
//! states its result as a function of those characters.
use vstd::prelude::*;
use vstd::utf8::{encode_scalar, encode_utf8};

verus! {

/// Unicode `White_Space` code points, as `char::is_whitespace` classifies them.
pub open spec fn is_ws(c: char) -> bool {
    let u = c as u32;
    ||| 0x09 <= u <= 0x0d
    ||| u == 0x20
    ||| u == 0x85
    ||| u == 0xa0
    ||| u == 0x1680
    ||| 0x2000 <= u <= 0x200a
    ||| u == 0x2028
    ||| u == 0x2029
    ||| u == 0x202f
    ||| u == 0x205f
    ||| u == 0x3000
}

/// A class of characters that a trim removes.
#[derive(Clone, Copy, Debug, PartialEq, Eq)]
pub enum CharSet {
    /// Unicode white space.
    Whitespace,
    /// Exactly this character.
    Only(char),
}

pub open spec fn in_set(set: CharSet, c: char) -> bool {
    match set {
        CharSet::Whitespace => is_ws(c),
        CharSet::Only(d) => c == d,
    }
}

/// `s` with every leading character of `set` removed.
pub open spec fn strip_leading(s: Seq<char>, set: CharSet) -> Seq<char>
    decreases s.len(),
{
    if s.len() > 0 && in_set(set, s[0]) {
        strip_leading(s.drop_first(), set)
    } else {
        s
    }
}

/// `s` with every trailing character of `set` removed.
pub open spec fn strip_trailing(s: Seq<char>, set: CharSet) -> Seq<char>
    decreases s.len(),
{
    if s.len() > 0 && in_set(set, s.last()) {
        strip_trailing(s.drop_last(), set)
    } else {
        s
    }
}

/// `s` without leading and trailing white space (what `str::trim` gives).
pub open spec fn trim_ws(s: Seq<char>) -> Seq<char> {
    strip_trailing(strip_leading(s, CharSet::Whitespace), CharSet::Whitespace)
}

/// Every character of `s` is white space (so `s.trim()` is empty).
pub open spec fn is_blank(s: Seq<char>) -> bool {
    forall|i: int| 0 <= i < s.len() ==> is_ws(#[trigger] s[i])
}

pub open spec fn starts_with(s: Seq<char>, p: Seq<char>) -> bool {
    p.len() <= s.len() && s.take(p.len() as int) == p
}

pub open spec fn ends_with(s: Seq<char>, p: Seq<char>) -> bool {
    p.len() <= s.len() && s.skip(s.len() - p.len()) == p
}

/// `s` with the non-empty pattern `p` removed from its end as often as it occurs
/// there (what `str::trim_end_matches` gives for a string pattern).
pub open spec fn strip_trailing_pattern(s: Seq<char>, p: Seq<char>) -> Seq<char>
    decreases s.len(),
{
    if p.len() > 0 && ends_with(s, p) {
        strip_trailing_pattern(s.take(s.len() - p.len()), p)
    } else {
        s
    }
}

pub open spec fn is_digit(c: char) -> bool {
    48 <= (c as u32) <= 57
}

pub open spec fn digit_value(c: char) -> nat {
    ((c as u32) - 48) as nat
}

pub open spec fn digit_char(d: nat) -> char {
    if d == 0 {
        '0'
    } else if d == 1 {
        '1'
    } else if d == 2 {
        '2'
    } else if d == 3 {
        '3'
    } else if d == 4 {
        '4'
    } else if d == 5 {
        '5'
    } else if d == 6 {
        '6'
    } else if d == 7 {
        '7'
    } else if d == 8 {
        '8'
    } else {
        '9'
    }
}

/// The decimal text of `n`, without sign or leading zeros (what `to_string` gives).
pub open spec fn decimal(n: nat) -> Seq<char>
    decreases n,
{
    if n < 10 {
        seq![digit_char(n)]
    } else {
        decimal(n / 10).push(digit_char(n % 10))
    }
}

pub open spec fn all_digits(s: Seq<char>) -> bool {
    forall|i: int| 0 <= i < s.len() ==> is_digit(#[trigger] s[i])
}

/// The number that the decimal digits `s` denote.
pub open spec fn digits_value(s: Seq<char>) -> nat
    decreases s.len(),
{
    if s.len() == 0 {
        0
    } else {
        digits_value(s.drop_last()) * 10 + digit_value(s.last())
    }
}

/// What `str::parse::<u32>` accepts: an optional `+` before at least one
/// decimal digit, with a value that fits in `u32`.
pub open spec fn parse_u32(s: Seq<char>) -> Option<u32> {
    let body = if s.len() > 1 && s[0] == '+' {
        s.drop_first()
    } else {
        s
    };
    if body.len() > 0 && all_digits(body) && digits_value(body) <= u32::MAX {
        Some(digits_value(body) as u32)
    } else {
        None
    }
}

/// `char::is_whitespace`, as the classification above.
pub fn is_whitespace(c: char) -> (r: bool)
    ensures
        r == is_ws(c),
{
    let u = c as u32;
    (0x09 <= u && u <= 0x0d) || u == 0x20 || u == 0x85 || u == 0xa0 || u == 0x1680 || (0x2000
        <= u && u <= 0x200a) || u == 0x2028 || u == 0x2029 || u == 0x202f || u == 0x205f || u
        == 0x3000
}

pub fn set_contains(set: CharSet, c: char) -> (r: bool)
    ensures
        r == in_set(set, c),
{
    match set {
        CharSet::Whitespace => is_whitespace(c),
        CharSet::Only(d) => c == d,
    }
}

/// The characters of `s`, in order.
pub fn chars_of(s: &str) -> (v: Vec<char>)
    ensures
        v@ == s@,
{
    let mut v: Vec<char> = Vec::new();
    for c in it: s.chars()
        invariant
            v@ == it.seq().take(it.index() as int),
            it.seq() == s@,
    {
        v.push(c);
    }
    v
}

/// Calls `String::push`; claims that the string's characters gain `c` at
/// the end and are otherwise unchanged.
#[verifier::external_body]
pub(crate) fn push_char(s: &mut String, c: char)
    ensures
        final(s)@ == old(s)@.push(c),
{
    s.push(c);
}

/// A string made of the characters `v[from..to]`.
pub fn string_of_range(v: &Vec<char>, from: usize, to: usize) -> (r: String)
    requires
        from <= to <= v.len(),
    ensures
        r@ == v@.subrange(from as int, to as int),
{
    let mut r = String::new();
    let mut i = from;
    while i < to
        invariant
            from <= i <= to <= v.len(),
            r@ == v@.subrange(from as int, i as int),
        decreases to - i,
    {
        push_char(&mut r, v[i]);
        assert(v@.subrange(from as int, i + 1) == v@.subrange(from as int, i as int).push(v@[i as int]));
        i = i + 1;
    }
    r
}

/// Number of leading characters of `v[..to]` that belong to `set`.
pub fn leading_len(v: &Vec<char>, to: usize, set: CharSet) -> (k: usize)
    requires
        to <= v.len(),
    ensures
        k <= to,
        strip_leading(v@.take(to as int), set) == v@.subrange(k as int, to as int),
        forall|i: int| 0 <= i < k ==> in_set(set, #[trigger] v@[i]),
{
    let mut k: usize = 0;
    while k < to && set_contains(set, v[k])
        invariant
            k <= to <= v.len(),
            strip_leading(v@.take(to as int), set) == strip_leading(
                v@.subrange(k as int, to as int),
                set,
            ),
            forall|i: int| 0 <= i < k ==> in_set(set, #[trigger] v@[i]),
        decreases to - k,
    {
        assert(v@.subrange(k as int, to as int).drop_first() == v@.subrange(k + 1, to as int));
        k = k + 1;
    }
    assert(v@.take(to as int) == v@.subrange(0, to as int));
    k
}

/// Start of the trailing run of `set` characters in `v[from..to]`.
pub fn trailing_start(v: &Vec<char>, from: usize, to: usize, set: CharSet) -> (k: usize)
    requires
        from <= to <= v.len(),
    ensures
        from <= k <= to,
        strip_trailing(v@.subrange(from as int, to as int), set) == v@.subrange(
            from as int,
            k as int,
        ),
        forall|i: int| k <= i < to ==> in_set(set, #[trigger] v@[i]),
{
    let mut k: usize = to;
    while k > from && set_contains(set, v[k - 1])
        invariant
            from <= k <= to <= v.len(),
            strip_trailing(v@.subrange(from as int, to as int), set) == strip_trailing(
                v@.subrange(from as int, k as int),
                set,
            ),
            forall|i: int| k <= i < to ==> in_set(set, #[trigger] v@[i]),
        decreases k,
    {
        assert(v@.subrange(from as int, k as int).drop_last() == v@.subrange(
            from as int,
            k - 1,
        ));
        k = k - 1;
    }
    k
}

/// `str::trim`.
pub fn trim(s: &str) -> (r: &str)
    ensures
        r@ == trim_ws(s@),
{
    let v = chars_of(s);
    let n = v.len();
    let i = leading_len(&v, n, CharSet::Whitespace);
    let j = trailing_start(&v, i, n, CharSet::Whitespace);
    assert(v@.take(n as int) == v@);
    s.substring_char(i, j)
}

/// `str::trim_start_matches` with a single character.
pub fn trim_start_char(s: &str, c: char) -> (r: &str)
    ensures
        r@ == strip_leading(s@, CharSet::Only(c)),
{
    let v = chars_of(s);
    let n = v.len();
    let i = leading_len(&v, n, CharSet::Only(c));
    assert(v@.take(n as int) == v@);
    s.substring_char(i, n)
}

/// `str::trim_end_matches` with a single character.
pub fn trim_end_char(s: &str, c: char) -> (r: &str)
    ensures
        r@ == strip_trailing(s@, CharSet::Only(c)),
{
    let v = chars_of(s);
    let n = v.len();
    let j = trailing_start(&v, 0, n, CharSet::Only(c));
    assert(v@.subrange(0, n as int) == v@);
    s.substring_char(0, j)
}

/// Whether every character of `s` is white space (`s.trim().is_empty()`).
pub fn is_blank_str(s: &str) -> (r: bool)
    ensures
        r == is_blank(s@),
        r == (trim_ws(s@).len() == 0),
{
    let v = chars_of(s);
    let mut i: usize = 0;
    while i < v.len()
        invariant
            v@ == s@,
            i <= v.len(),
            forall|j: int| 0 <= j < i ==> is_ws(#[trigger] v@[j]),
        decreases v.len() - i,
    {
        if !is_whitespace(v[i]) {
            proof {
                lemma_trim_empty_iff_blank(s@);
            }
            return false;
        }
        i = i + 1;
    }
    proof {
        lemma_trim_empty_iff_blank(s@);
    }
    true
}

/// Whether `s` starts with the character `c`.
pub fn starts_with_char(s: &str, c: char) -> (r: bool)
    ensures
        r == (s@.len() > 0 && s@[0] == c),
{
    let v = chars_of(s);
    v.len() > 0 && v[0] == c
}

/// Whether `a` and `b` hold the same characters.
pub fn str_eq(a: &str, b: &str) -> (r: bool)
    ensures
        r == (a@ == b@),
{
    let va = chars_of(a);
    let vb = chars_of(b);
    let r = seq_eq(&va, 0, &vb);
    assert(va@.skip(0) == va@);
    r
}

/// Whether `a[from..]` equals `b`.
pub fn seq_eq(a: &Vec<char>, from: usize, b: &Vec<char>) -> (r: bool)
    requires
        from <= a.len(),
    ensures
        r == (a@.skip(from as int) == b@),
{
    if a.len() - from != b.len() {
        assert(a@.skip(from as int).len() != b@.len());
        return false;
    }
    let mut i: usize = 0;
    while i < b.len()
        invariant
            from <= a.len(),
            a.len() - from == b.len(),
            i <= b.len(),
            forall|j: int| 0 <= j < i ==> a@[from + j] == b@[j],
        decreases b.len() - i,
    {
        if a[from + i] != b[i] {
            assert(a@.skip(from as int)[i as int] != b@[i as int]);
            return false;
        }
        i = i + 1;
    }
    assert(a@.skip(from as int) =~= b@);
    true
}

/// Whether `a` begins with `p`.
pub fn has_prefix(a: &Vec<char>, p: &Vec<char>) -> (r: bool)
    ensures
        r == starts_with(a@, p@),
{
    if p.len() > a.len() {
        return false;
    }
    let mut i: usize = 0;
    while i < p.len()
        invariant
            p.len() <= a.len(),
            i <= p.len(),
            forall|j: int| 0 <= j < i ==> a@[j] == p@[j],
        decreases p.len() - i,
    {
        if a[i] != p[i] {
            assert(a@.take(p.len() as int)[i as int] != p@[i as int]);
            return false;
        }
        i = i + 1;
    }
    assert(a@.take(p.len() as int) =~= p@);
    true
}

/// Whether `a` ends with `p`.
pub fn has_suffix(a: &Vec<char>, p: &Vec<char>) -> (r: bool)
    ensures
        r == ends_with(a@, p@),
{
    if p.len() > a.len() {
        return false;
    }
    let off = a.len() - p.len();
    let mut i: usize = 0;
    while i < p.len()
        invariant
            p.len() <= a.len(),
            off == a.len() - p.len(),
            i <= p.len(),
            forall|j: int| 0 <= j < i ==> a@[off + j] == p@[j],
        decreases p.len() - i,
    {
        if a[off + i] != p[i] {
            assert(a@.skip(off as int)[i as int] != p@[i as int]);
            return false;
        }
        i = i + 1;
    }
    assert(a@.skip(off as int) =~= p@);
    true
}

/// Number of bytes of the UTF-8 encoding of `c` (`char::len_utf8`).
pub fn char_utf8_width(c: char) -> (w: u128)
    ensures
        w == encode_scalar(c as u32).len(),
{
    let u = c as u32;
    if u <= 0x7f {
        1
    } else if u <= 0x7ff {
        2
    } else if u <= 0xffff {
        3
    } else {
        4
    }
}

/// Number of bytes of the UTF-8 encoding of `s` (`str::len`).
pub fn utf8_byte_len(s: &str) -> (n: u128)
    ensures
        n == encode_utf8(s@).len(),
{
    let v = chars_of(s);
    let mut i: usize = v.len();
    let mut n: u128 = 0;
    assert(v@.skip(i as int) =~= Seq::<char>::empty());
    while i > 0
        invariant
            i <= v.len(),
            v@ == s@,
            n <= 4 * (v.len() - i),
            n == encode_utf8(v@.skip(i as int)).len(),
        decreases i,
    {
        let w = char_utf8_width(v[i - 1]);
        assert(v@.skip(i - 1).drop_first() =~= v@.skip(i as int));
        assert(v@.skip(i - 1)[0] == v@[i - 1]);
        n = n + w;
        i = i - 1;
    }
    assert(v@.skip(0) =~= v@);
    n
}

/// The character of the decimal digit `d`.
pub fn digit_to_char(d: u64) -> (c: char)
    requires
        d < 10,
    ensures
        c == digit_char(d as nat),
{
    if d == 0 {
        '0'
    } else if d == 1 {
        '1'
    } else if d == 2 {
        '2'
    } else if d == 3 {
        '3'
    } else if d == 4 {
        '4'
    } else if d == 5 {
        '5'
    } else if d == 6 {
        '6'
    } else if d == 7 {
        '7'
    } else if d == 8 {
        '8'
    } else {
        '9'
    }
}

/// The decimal text of `n` (`n.to_string()`).
pub fn decimal_string(n: u64) -> (r: String)
    ensures
        r@ == decimal(n as nat),
{
    let mut digits: Vec<char> = Vec::new();
    let mut m: u64 = n;
    while m >= 10
        invariant
            decimal(n as nat) == decimal(m as nat) + digits@,
        decreases m,
    {
        let c = digit_to_char(m % 10);
        let ghost old_digits = digits@;
        digits.insert(0, c);
        assert(digits@ == seq![c] + old_digits);
        assert(decimal(m as nat) == decimal((m / 10) as nat).push(c));
        assert(decimal((m / 10) as nat) + digits@ == decimal((m / 10) as nat).push(c) + old_digits);
        m = m / 10;
    }
    let c = digit_to_char(m);
    let ghost old_digits = digits@;
    digits.insert(0, c);
    assert(digits@ == seq![c] + old_digits);
    assert(decimal(m as nat) == seq![c]);
    let r = string_of_range(&digits, 0, digits.len());
    assert(digits@.subrange(0, digits@.len() as int) == digits@);
    r
}

/// `str::parse::<u32>`: `None` where the standard parser returns an error.
pub fn parse_u32_str(s: &str) -> (r: Option<u32>)
    ensures
        r == parse_u32(s@),
{
    let v = chars_of(s);
    let start: usize = if v.len() > 1 && v[0] == '+' {
        1
    } else {
        0
    };
    let ghost body = if s@.len() > 1 && s@[0] == '+' {
        s@.drop_first()
    } else {
        s@
    };
    assert(body == v@.skip(start as int));
    if start == v.len() {
        return None;
    }
    let mut acc: u64 = 0;
    let mut i: usize = start;
    while i < v.len()
        invariant
            start <= i <= v.len(),
            v@ == s@,
            body == (if s@.len() > 1 && s@[0] == '+' {
                s@.drop_first()
            } else {
                s@
            }),
            body == v@.skip(start as int),
            acc <= u32::MAX,
            all_digits(body.take(i - start)),
            acc == digits_value(body.take(i - start)),
        decreases v.len() - i,
    {
        let c = v[i];
        let u = c as u32;
        if u < 48 || u > 57 {
            assert(body[i - start] == c);
            assert(!is_digit(body[i - start]));
            assert(!all_digits(body));
            return None;
        }
        assert(body.take(i - start + 1).drop_last() == body.take(i - start));
        assert(body.take(i - start + 1).last() == c);
        acc = acc * 10 + (u - 48) as u64;
        assert(acc == digits_value(body.take(i - start + 1)));
        if acc > 0xffff_ffff {
            proof {
                if all_digits(body) {
                    lemma_digits_value_prefix(body, i - start + 1);
                }
            }
            return None;
        }
        i = i + 1;
    }
    assert(body.take(i - start) == body);
    Some(acc as u32)
}

/// The digit characters denote their digits.
pub proof fn lemma_digit_char(d: nat)
    requires
        d < 10,
    ensures
        is_digit(digit_char(d)),
        digit_value(digit_char(d)) == d,
{
}

/// A longer run of digits denotes at least as large a number.
pub proof fn lemma_digits_value_prefix(s: Seq<char>, k: int)
    requires
        all_digits(s),
        0 <= k <= s.len(),
    ensures
        digits_value(s) >= digits_value(s.take(k)),
    decreases s.len(),
{
    if k < s.len() {
        assert(all_digits(s.drop_last()));
        lemma_digits_value_prefix(s.drop_last(), k);
        assert(s.drop_last().take(k) == s.take(k));
    } else {
        assert(s.take(k) == s);
    }
}

/// The decimal text of `n` is digits only and denotes `n`.
pub proof fn lemma_decimal_digits(n: nat)
    ensures
        decimal(n).len() > 0,
        all_digits(decimal(n)),
        digits_value(decimal(n)) == n,
    decreases n,
{
    lemma_digit_char(n % 10);
    if n < 10 {
        assert(decimal(n).drop_last().len() == 0);
        assert(digits_value(decimal(n).drop_last()) == 0);
    } else {
        lemma_decimal_digits(n / 10);
        let d = decimal(n / 10);
        let e = d.push(digit_char(n % 10));
        assert(e.drop_last() == d);
        assert forall|i: int| 0 <= i < e.len() implies is_digit(#[trigger] e[i]) by {
            if i < d.len() {
                assert(e[i] == d[i]);
            }
        }
        assert(n == (n / 10) * 10 + n % 10);
        assert(decimal(n) == e);
        assert(digits_value(e) == digits_value(d) * 10 + digit_value(digit_char(n % 10)));
    }
}

/// Parsing the decimal text of a `u32` gives it back.
pub proof fn lemma_parse_decimal(n: u32)
    ensures
        parse_u32(decimal(n as nat)) == Some(n),
{
    let d = decimal(n as nat);
    lemma_decimal_digits(n as nat);
    assert(is_digit(d[0]));
}

/// The first character left after stripping is not in the set.
pub proof fn lemma_strip_leading_head(s: Seq<char>, set: CharSet)
    ensures
        strip_leading(s, set).len() > 0 ==> !in_set(set, strip_leading(s, set)[0]),
    decreases s.len(),
{
    if s.len() > 0 && in_set(set, s[0]) {
        lemma_strip_leading_head(s.drop_first(), set);
    }
}

/// Stripping leaves nothing exactly when every character is in the set.
pub proof fn lemma_strip_leading_empty(s: Seq<char>, set: CharSet)
    ensures
        strip_leading(s, set).len() == 0 <==> forall|i: int|
            0 <= i < s.len() ==> in_set(set, #[trigger] s[i]),
    decreases s.len(),
{
    if s.len() > 0 {
        lemma_strip_leading_empty(s.drop_first(), set);
        if in_set(set, s[0]) {
            assert forall|i: int| 0 <= i < s.len() && (forall|j: int| 0 <= j < s.drop_first().len() ==> in_set(set, #[trigger] s.drop_first()[j])) implies in_set(set, #[trigger] s[i]) by {
                if i > 0 {
                    assert(s[i] == s.drop_first()[i - 1]);
                }
            }
        }
    }
}

/// Stripping from the end leaves nothing exactly when every character is in the set.
pub proof fn lemma_strip_trailing_empty(s: Seq<char>, set: CharSet)
    ensures
        strip_trailing(s, set).len() == 0 <==> forall|i: int|
            0 <= i < s.len() ==> in_set(set, #[trigger] s[i]),
    decreases s.len(),
{
    if s.len() > 0 {
        lemma_strip_trailing_empty(s.drop_last(), set);
        if in_set(set, s.last()) {
            assert forall|i: int| 0 <= i < s.len() && (forall|j: int| 0 <= j < s.drop_last().len() ==> in_set(set, #[trigger] s.drop_last()[j])) implies in_set(set, #[trigger] s[i]) by {
                if i < s.len() - 1 {
                    assert(s[i] == s.drop_last()[i]);
                }
            }
        }
    }
}

/// Characters of the set put before `s` are stripped again with the rest of
/// its leading run.
pub proof fn lemma_strip_leading_prepend(t: Seq<char>, s: Seq<char>, set: CharSet)
    requires
        forall|i: int| 0 <= i < t.len() ==> in_set(set, #[trigger] t[i]),
    ensures
        strip_leading(t + s, set) == strip_leading(s, set),
    decreases t.len(),
{
    if t.len() == 0 {
        assert(t + s =~= s);
    } else {
        assert((t + s)[0] == t[0]);
        assert((t + s).drop_first() =~= t.drop_first() + s);
        lemma_strip_leading_prepend(t.drop_first(), s, set);
    }
}

/// Characters of the set appended to `s` are stripped again with the rest of
/// its trailing run.
pub proof fn lemma_strip_trailing_append(s: Seq<char>, t: Seq<char>, set: CharSet)
    requires
        forall|i: int| 0 <= i < t.len() ==> in_set(set, #[trigger] t[i]),
    ensures
        strip_trailing(s + t, set) == strip_trailing(s, set),
    decreases t.len(),
{
    if t.len() == 0 {
        assert(s + t =~= s);
    } else {
        assert((s + t).last() == t.last());
        assert((s + t).drop_last() =~= s + t.drop_last());
        lemma_strip_trailing_append(s, t.drop_last(), set);
    }
}

/// `trim` leaves nothing exactly when the text is blank.
pub proof fn lemma_trim_empty_iff_blank(s: Seq<char>)
    ensures
        (trim_ws(s).len() == 0) == is_blank(s),
{
    let t = strip_leading(s, CharSet::Whitespace);
    lemma_strip_leading_empty(s, CharSet::Whitespace);
    lemma_strip_trailing_empty(t, CharSet::Whitespace);
    lemma_strip_leading_head(s, CharSet::Whitespace);
    if t.len() > 0 {
        assert(!in_set(CharSet::Whitespace, t[0]));
    }
}

} // verus!
