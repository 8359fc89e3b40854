//! Character-level building blocks: whitespace, trimming, ASCII case folding,
//! splitting, decimal numbers and lexicographic order, each with the
//! mathematical definition that the parsers and the checks are stated over.
//!
//! Strings are modelled by their characters (`Seq<char>`), the view vstd gives
//! `str` and `String`.

use vstd::prelude::*;

verus! {

// ---------------------------------------------------------------------------
// Characters
// ---------------------------------------------------------------------------

/// Unicode `White_Space`, the set `char::is_whitespace` tests for.
pub open spec fn is_ws(c: char) -> bool {
    let n = c as int;
    ||| 0x09 <= n <= 0x0d
    ||| n == 0x20
    ||| n == 0x85
    ||| n == 0xa0
    ||| n == 0x1680
    ||| 0x2000 <= n <= 0x200a
    ||| n == 0x2028
    ||| n == 0x2029
    ||| n == 0x202f
    ||| n == 0x205f
    ||| n == 0x3000
}

/// Whether `c` is whitespace, as `char::is_whitespace` decides it.
pub fn char_is_ws(c: char) -> (r: bool)
    ensures
        r == is_ws(c),
{
    let n = c as u32;
    (0x09 <= n && n <= 0x0d) || n == 0x20 || n == 0x85 || n == 0xa0 || n == 0x1680 || (0x2000
        <= n && n <= 0x200a) || n == 0x2028 || n == 0x2029 || n == 0x202f || n == 0x205f || n
        == 0x3000
}

/// ASCII lowercase of one character; every other character is unchanged.
pub open spec fn lower_char(c: char) -> char {
    if 65 <= c as int <= 90 {
        ((c as int + 32) as u8) as char
    } else {
        c
    }
}

/// `char::to_ascii_lowercase`.
pub fn char_to_lower(c: char) -> (r: char)
    ensures
        r == lower_char(c),
{
    let n = c as u32;
    if 65 <= n && n <= 90 {
        let b: u8 = (n + 32) as u8;
        b as char
    } else {
        c
    }
}

/// An ASCII decimal digit.
pub open spec fn is_digit(c: char) -> bool {
    48 <= c as int <= 57
}

/// The value of an ASCII decimal digit.
pub open spec fn digit_value(c: char) -> nat {
    (c as int - 48) as nat
}

/// The ASCII digit for a value below ten.
pub open spec fn digit_char(d: nat) -> char {
    ((d + 48) as u8) as char
}

// ---------------------------------------------------------------------------
// Whole strings
// ---------------------------------------------------------------------------

/// ASCII lowercase of a string (`to_ascii_lowercase`).
pub open spec fn lower(s: Seq<char>) -> Seq<char> {
    s.map_values(|c: char| lower_char(c))
}

/// `s` with leading whitespace removed (`trim_start`).
pub open spec fn trim_start(s: Seq<char>) -> Seq<char>
    decreases s.len(),
{
    if s.len() > 0 && is_ws(s[0]) {
        trim_start(s.drop_first())
    } else {
        s
    }
}

/// `s` with trailing whitespace removed (`trim_end`).
pub open spec fn trim_end(s: Seq<char>) -> Seq<char>
    decreases s.len(),
{
    if s.len() > 0 && is_ws(s.last()) {
        trim_end(s.drop_last())
    } else {
        s
    }
}

/// `s` with whitespace removed at both ends (`trim`).
pub open spec fn trim(s: Seq<char>) -> Seq<char> {
    trim_end(trim_start(s))
}

/// `s` with every leading and trailing `c` removed (`trim_matches(c)`).
pub open spec fn trim_char(s: Seq<char>, c: char) -> Seq<char> {
    trim_char_end(trim_char_start(s, c), c)
}

pub open spec fn trim_char_start(s: Seq<char>, c: char) -> Seq<char>
    decreases s.len(),
{
    if s.len() > 0 && s[0] == c {
        trim_char_start(s.drop_first(), c)
    } else {
        s
    }
}

pub open spec fn trim_char_end(s: Seq<char>, c: char) -> Seq<char>
    decreases s.len(),
{
    if s.len() > 0 && s.last() == c {
        trim_char_end(s.drop_last(), c)
    } else {
        s
    }
}

/// Whether `s` begins with `p`.
pub open spec fn starts_with(s: Seq<char>, p: Seq<char>) -> bool {
    p.len() <= s.len() && s.take(p.len() as int) == p
}

/// Whether `t` occurs in `s` as a contiguous run.
pub open spec fn contains_at(s: Seq<char>, t: Seq<char>, i: int) -> bool {
    0 <= i && i + t.len() <= s.len() && s.subrange(i, i + t.len()) == t
}

/// Whether `t` occurs anywhere in `s` (`str::contains`).
pub open spec fn contains(s: Seq<char>, t: Seq<char>) -> bool {
    exists|i: int| contains_at(s, t, i)
}

/// Whether any character of `s` is an ASCII digit.
pub open spec fn has_digit(s: Seq<char>) -> bool {
    exists|i: int| 0 <= i < s.len() && is_digit(#[trigger] s[i])
}

/// The pieces of `s` between occurrences of `sep` (`str::split(sep)`): one more
/// piece than there are separators, empty pieces included.
pub open spec fn split(s: Seq<char>, sep: char) -> Seq<Seq<char>>
    decreases s.len(),
{
    if s.len() == 0 {
        seq![Seq::empty()]
    } else {
        let pieces = split(s.drop_last(), sep);
        if s.last() == sep {
            pieces.push(Seq::empty())
        } else {
            pieces.update(pieces.len() - 1, pieces.last().push(s.last()))
        }
    }
}

/// The maximal runs of non-whitespace characters of `s`
/// (`str::split_whitespace`).
pub open spec fn words(s: Seq<char>) -> Seq<Seq<char>>
    decreases s.len(),
{
    if s.len() == 0 {
        Seq::empty()
    } else {
        let w = words(s.drop_last());
        if is_ws(s.last()) {
            w
        } else if s.len() >= 2 && !is_ws(s[s.len() - 2]) {
            w.update(w.len() - 1, w.last().push(s.last()))
        } else {
            w.push(seq![s.last()])
        }
    }
}

/// Whether every character of `d` is an ASCII digit.
pub open spec fn all_digits(d: Seq<char>) -> bool {
    forall|i: int| 0 <= i < d.len() ==> is_digit(#[trigger] d[i])
}

/// The number that a run of decimal digits denotes.
pub open spec fn digits_value(d: Seq<char>) -> nat
    decreases d.len(),
{
    if d.len() == 0 {
        0
    } else {
        digits_value(d.drop_last()) * 10 + digit_value(d.last())
    }
}

/// `str::parse::<u64>`: an optional `+`, then one or more ASCII digits whose
/// value fits in a `u64`.
pub open spec fn parse_u64(s: Seq<char>) -> Option<u64> {
    let d = if s.len() > 0 && s[0] == '+' {
        s.drop_first()
    } else {
        s
    };
    if d.len() > 0 && all_digits(d) && digits_value(d) <= u64::MAX {
        Some(digits_value(d) as u64)
    } else {
        None
    }
}

/// The decimal representation of `n`, without leading zeros.
pub open spec fn decimal(n: nat) -> Seq<char>
    decreases n,
{
    if n < 10 {
        seq![digit_char(n)]
    } else {
        decimal(n / 10).push(digit_char(n % 10))
    }
}

/// Strict lexicographic order on characters by code point, which is the order
/// `String`'s `Ord` gives (UTF-8 preserves code-point order).
pub open spec fn seq_lt(a: Seq<char>, b: Seq<char>) -> bool
    decreases a.len(),
{
    if a.len() == 0 {
        b.len() > 0
    } else if b.len() == 0 {
        false
    } else if a[0] != b[0] {
        (a[0] as int) < (b[0] as int)
    } else {
        seq_lt(a.drop_first(), b.drop_first())
    }
}

/// Joins `parts` with `sep` between neighbours (`[T]::join`).
pub open spec fn join(parts: Seq<Seq<char>>, sep: Seq<char>) -> Seq<char>
    decreases parts.len(),
{
    if parts.len() == 0 {
        Seq::empty()
    } else if parts.len() == 1 {
        parts[0]
    } else {
        join(parts.drop_last(), sep) + sep + parts.last()
    }
}

// ---------------------------------------------------------------------------
// Lemmas about the definitions
// ---------------------------------------------------------------------------

/// `seq_lt` is irreflexive.
pub proof fn lemma_seq_lt_irreflexive(a: Seq<char>)
    ensures
        !seq_lt(a, a),
    decreases a.len(),
{
    if a.len() > 0 {
        lemma_seq_lt_irreflexive(a.drop_first());
    }
}

/// `seq_lt` is transitive.
pub proof fn lemma_seq_lt_transitive(a: Seq<char>, b: Seq<char>, c: Seq<char>)
    requires
        seq_lt(a, b),
        seq_lt(b, c),
    ensures
        seq_lt(a, c),
    decreases a.len(),
{
    if a.len() > 0 && b.len() > 0 && c.len() > 0 {
        if a[0] == b[0] && b[0] == c[0] {
            lemma_seq_lt_transitive(a.drop_first(), b.drop_first(), c.drop_first());
        }
    }
}

/// Two different strings are ordered one way or the other.
pub proof fn lemma_seq_lt_total(a: Seq<char>, b: Seq<char>)
    requires
        a != b,
    ensures
        seq_lt(a, b) || seq_lt(b, a),
    decreases a.len(),
{
    if a.len() > 0 && b.len() > 0 {
        if a[0] == b[0] {
            let ta = a.drop_first();
            let tb = b.drop_first();
            if ta == tb {
                assert(ta.len() == a.len() - 1);
                assert(tb.len() == b.len() - 1);
                assert(ta.len() == tb.len());
                assert(a.len() == b.len());
                assert forall|i: int| 0 <= i < a.len() implies a[i] == b[i] by {
                    if i > 0 {
                        assert(a[i] == ta[i - 1]);
                        assert(b[i] == tb[i - 1]);
                    }
                }
                assert(a =~= b);
            }
            lemma_seq_lt_total(a.drop_first(), b.drop_first());
        } else {
            assert((a[0] as int) != (b[0] as int));
        }
    } else if a.len() == 0 && b.len() == 0 {
        assert(a =~= b);
    }
}

/// Of two strings, at most one precedes the other.
pub proof fn lemma_seq_lt_asymmetric(a: Seq<char>, b: Seq<char>)
    requires
        seq_lt(a, b),
    ensures
        !seq_lt(b, a),
    decreases a.len(),
{
    if a.len() > 0 && b.len() > 0 && a[0] == b[0] {
        lemma_seq_lt_asymmetric(a.drop_first(), b.drop_first());
    }
}

/// A digit run's value is at least the value of any of its prefixes.
proof fn lemma_digits_value_prefix(d: Seq<char>, i: int)
    requires
        0 <= i <= d.len(),
    ensures
        digits_value(d.take(i)) <= digits_value(d),
    decreases d.len() - i,
{
    if i < d.len() {
        lemma_digits_value_prefix(d, i + 1);
        assert(d.take(i + 1).drop_last() =~= d.take(i));
    } else {
        assert(d.take(i) =~= d);
    }
}

// ---------------------------------------------------------------------------
// Executable counterparts
// ---------------------------------------------------------------------------

/// Appends one character: `String::push`.
#[verifier::external_body]
pub(crate) fn push_char(s: &mut String, c: char)
    ensures
        final(s)@ == old(s)@.push(c),
{
    s.push(c);
}

/// The characters of a string slice, in order.
pub fn chars_of(s: &str) -> (v: Vec<char>)
    ensures
        v@ == s@,
{
    let mut v: Vec<char> = Vec::new();
    for c in it: s.chars()
        invariant
            v@ == it.seq().take(it.index() as int),
            it.seq() == s@,
    {
        v.push(c);
    }
    v
}

/// A string holding exactly the given characters.
pub fn string_of(v: &[char]) -> (s: String)
    ensures
        s@ == v@,
{
    let mut s = String::new();
    let mut i: usize = 0;
    while i < v.len()
        invariant
            i <= v.len(),
            s@ == v@.take(i as int),
        decreases v.len() - i,
    {
        push_char(&mut s, v[i]);
        i = i + 1;
        assert(s@ =~= v@.take(i as int));
    }
    assert(v@.take(i as int) =~= v@);
    s
}

/// Appends the characters of `v` to `s`.
pub fn push_chars(s: &mut String, v: &[char])
    ensures
        final(s)@ == old(s)@ + v@,
{
    let mut i: usize = 0;
    while i < v.len()
        invariant
            i <= v.len(),
            s@ == old(s)@ + v@.take(i as int),
        decreases v.len() - i,
    {
        push_char(s, v[i]);
        i = i + 1;
        assert(s@ =~= old(s)@ + v@.take(i as int));
    }
    assert(v@.take(i as int) =~= v@);
}

/// Appends a string slice to `s`.
pub fn push_str(s: &mut String, t: &str)
    ensures
        final(s)@ == old(s)@ + t@,
{
    let v = chars_of(t);
    push_chars(s, v.as_slice());
}

/// The characters `v[from..to]`.
pub fn slice_chars(v: &[char], from: usize, to: usize) -> (r: Vec<char>)
    requires
        from <= to <= v.len(),
    ensures
        r@ == v@.subrange(from as int, to as int),
{
    let mut r: Vec<char> = Vec::new();
    let mut i: usize = from;
    while i < to
        invariant
            from <= i <= to <= v.len(),
            r@ == v@.subrange(from as int, i as int),
        decreases to - i,
    {
        r.push(v[i]);
        i = i + 1;
        assert(r@ =~= v@.subrange(from as int, i as int));
    }
    r
}

/// ASCII lowercase copy (`to_ascii_lowercase`).
pub fn to_lower(v: &[char]) -> (r: Vec<char>)
    ensures
        r@ == lower(v@),
{
    let mut r: Vec<char> = Vec::new();
    let mut i: usize = 0;
    while i < v.len()
        invariant
            i <= v.len(),
            r@ == lower(v@.take(i as int)),
        decreases v.len() - i,
    {
        let c = char_to_lower(v[i]);
        r.push(c);
        i = i + 1;
        assert(r@ =~= lower(v@.take(i as int)));
    }
    assert(v@.take(i as int) =~= v@);
    r
}

/// Index of the first non-whitespace character (the length if there is none),
/// with what it says about `trim_start`.
fn trim_start_index(v: &[char]) -> (i: usize)
    ensures
        i <= v.len(),
        trim_start(v@) == v@.skip(i as int),
{
    let mut i: usize = 0;
    assert(v@.skip(0) =~= v@);
    while i < v.len() && char_is_ws(v[i])
        invariant
            i <= v.len(),
            trim_start(v@) == trim_start(v@.skip(i as int)),
        decreases v.len() - i,
    {
        assert(v@.skip(i as int).drop_first() =~= v@.skip(i + 1));
        i = i + 1;
    }
    i
}

/// Whitespace removed at both ends (`trim`).
pub fn trim_chars(v: &[char]) -> (r: Vec<char>)
    ensures
        r@ == trim(v@),
{
    let i = trim_start_index(v);
    let mut j: usize = v.len();
    assert(v@.skip(i as int) =~= v@.subrange(i as int, j as int));
    while j > i && char_is_ws(v[j - 1])
        invariant
            i <= j <= v.len(),
            trim(v@) == trim_end(v@.subrange(i as int, j as int)),
        decreases j,
    {
        assert(v@.subrange(i as int, j as int).drop_last() =~= v@.subrange(i as int, j - 1));
        j = j - 1;
    }
    slice_chars(v, i, j)
}

/// Leading whitespace removed (`trim_start`).
pub fn trim_start_chars(v: &[char]) -> (r: Vec<char>)
    ensures
        r@ == trim_start(v@),
{
    let i = trim_start_index(v);
    slice_chars(v, i, v.len())
}

/// Every leading and trailing `c` removed (`trim_matches(c)`).
pub fn trim_char_chars(v: &[char], c: char) -> (r: Vec<char>)
    ensures
        r@ == trim_char(v@, c),
{
    let mut i: usize = 0;
    assert(v@.skip(0) =~= v@);
    while i < v.len() && v[i] == c
        invariant
            i <= v.len(),
            trim_char_start(v@, c) == trim_char_start(v@.skip(i as int), c),
        decreases v.len() - i,
    {
        assert(v@.skip(i as int).drop_first() =~= v@.skip(i + 1));
        i = i + 1;
    }
    let mut j: usize = v.len();
    assert(v@.skip(i as int) =~= v@.subrange(i as int, j as int));
    while j > i && v[j - 1] == c
        invariant
            i <= j <= v.len(),
            trim_char(v@, c) == trim_char_end(v@.subrange(i as int, j as int), c),
        decreases j,
    {
        assert(v@.subrange(i as int, j as int).drop_last() =~= v@.subrange(i as int, j - 1));
        j = j - 1;
    }
    slice_chars(v, i, j)
}

/// Whether `v` begins with `p` (`starts_with`).
pub fn has_prefix(v: &[char], p: &[char]) -> (r: bool)
    ensures
        r == starts_with(v@, p@),
{
    if p.len() > v.len() {
        return false;
    }
    let mut i: usize = 0;
    while i < p.len()
        invariant
            p.len() <= v.len(),
            i <= p.len(),
            v@.take(i as int) == p@.take(i as int),
        decreases p.len() - i,
    {
        if v[i] != p[i] {
            assert(v@.take(p.len() as int)[i as int] != p@[i as int]);
            return false;
        }
        i = i + 1;
        assert(v@.take(i as int) =~= p@.take(i as int));
    }
    assert(p@.take(i as int) =~= p@);
    true
}

/// `v` without the prefix `p` if it has it (`strip_prefix`).
pub fn strip_prefix(v: &[char], p: &[char]) -> (r: Option<Vec<char>>)
    ensures
        match r {
            Some(rest) => starts_with(v@, p@) && rest@ == v@.skip(p@.len() as int),
            None => !starts_with(v@, p@),
        },
{
    if has_prefix(v, p) {
        Some(slice_chars(v, p.len(), v.len()))
    } else {
        None
    }
}

/// Whether two character runs are equal.
pub fn chars_eq(a: &[char], b: &[char]) -> (r: bool)
    ensures
        r == (a@ == b@),
{
    if a.len() != b.len() {
        return false;
    }
    assert(a@.take(b@.len() as int) =~= a@);
    has_prefix(a, b)
}

/// Whether `t` occurs in `v` at position `i`.
fn occurs_at(v: &[char], t: &[char], i: usize) -> (r: bool)
    requires
        i + t.len() <= v.len(),
    ensures
        r == contains_at(v@, t@, i as int),
{
    let mut k: usize = 0;
    while k < t.len()
        invariant
            i + t.len() <= v.len(),
            k <= t.len(),
            forall|m: int| 0 <= m < k ==> v@[i + m] == t@[m],
        decreases t.len() - k,
    {
        if v[i + k] != t[k] {
            assert(v@.subrange(i as int, i + t@.len())[k as int] != t@[k as int]);
            return false;
        }
        k = k + 1;
    }
    assert(v@.subrange(i as int, i + t@.len()) =~= t@);
    true
}

/// Whether `t` occurs in `v` (`str::contains`).
pub fn contains_chars(v: &[char], t: &[char]) -> (r: bool)
    ensures
        r == contains(v@, t@),
{
    if t.len() > v.len() {
        return false;
    }
    let limit = v.len() - t.len();
    let mut i: usize = 0;
    loop
        invariant
            limit == v.len() - t.len(),
            i <= limit,
            forall|k: int| 0 <= k < i ==> !contains_at(v@, t@, k),
        decreases limit - i,
    {
        if occurs_at(v, t, i) {
            return true;
        }
        if i == limit {
            return false;
        }
        i = i + 1;
    }
}

/// Whether any character is an ASCII digit.
pub fn any_digit(v: &[char]) -> (r: bool)
    ensures
        r == has_digit(v@),
{
    let mut i: usize = 0;
    while i < v.len()
        invariant
            i <= v.len(),
            forall|k: int| 0 <= k < i ==> !is_digit(#[trigger] v@[k]),
        decreases v.len() - i,
    {
        let c: char = v[i];
        if '0' <= c && c <= '9' {
            assert(is_digit(v@[i as int]));
            return true;
        }
        i = i + 1;
    }
    false
}

/// `str::parse::<u64>`, returning `None` where it returns an error.
pub fn parse_u64_chars(s: &[char]) -> (r: Option<u64>)
    ensures
        r == parse_u64(s@),
{
    let start: usize = if s.len() > 0 && s[0] == '+' {
        1
    } else {
        0
    };
    let ghost d = if s@.len() > 0 && s@[0] == '+' {
        s@.drop_first()
    } else {
        s@
    };
    assert(d =~= s@.skip(start as int));
    if start == s.len() {
        return None;
    }
    let mut v: u64 = 0;
    let mut i: usize = start;
    while i < s.len()
        invariant
            start <= i <= s.len(),
            d == s@.skip(start as int),
            d == (if s@.len() > 0 && s@[0] == '+' {
                s@.drop_first()
            } else {
                s@
            }),
            v == digits_value(d.take(i - start)),
            all_digits(d.take(i - start)),
        decreases s.len() - i,
    {
        let c: char = s[i];
        assert(d[i - start] == c);
        if c < '0' || c > '9' {
            assert(!is_digit(d[i - start]));
            return None;
        }
        let digit: u64 = (c as u32 - 48) as u64;
        assert(d.take(i + 1 - start).drop_last() =~= d.take(i - start));
        assert(d.take(i + 1 - start).last() == c);
        assert(digits_value(d.take(i + 1 - start)) == v * 10 + digit);
        if v > (u64::MAX - digit) / 10 {
            proof {
                assert(v * 10 + digit > u64::MAX) by (nonlinear_arith)
                    requires
                        v > (u64::MAX - digit) / 10,
                        digit <= 9,
                ;
                lemma_digits_value_prefix(d, i + 1 - start);
                if all_digits(d) {
                    assert(all_digits(d.take(i + 1 - start)));
                }
            }
            return None;
        }
        v = v * 10 + digit;
        i = i + 1;
        assert(all_digits(d.take(i - start)));
    }
    assert(d.take(i - start) =~= d);
    Some(v)
}

/// Appends the decimal representation of `n`.
pub fn push_decimal(s: &mut String, n: u64)
    ensures
        final(s)@ == old(s)@ + decimal(n as nat),
    decreases n,
{
    if n >= 10 {
        push_decimal(s, n / 10);
    }
    let d: u8 = (n % 10) as u8 + 48;
    push_char(s, d as char);
    assert(final(s)@ =~= old(s)@ + decimal(n as nat)) by {
        assert(digit_char((n % 10) as nat) == d as char);
    }
}

/// Strict lexicographic order by code point (`String`'s `<`).
pub fn chars_lt(a: &[char], b: &[char]) -> (r: bool)
    ensures
        r == seq_lt(a@, b@),
{
    let mut i: usize = 0;
    assert(a@.skip(0) =~= a@);
    assert(b@.skip(0) =~= b@);
    while i < a.len() && i < b.len() && a[i] == b[i]
        invariant
            i <= a.len(),
            i <= b.len(),
            seq_lt(a@, b@) == seq_lt(a@.skip(i as int), b@.skip(i as int)),
        decreases a.len() - i,
    {
        assert(a@.skip(i as int).drop_first() =~= a@.skip(i + 1));
        assert(b@.skip(i as int).drop_first() =~= b@.skip(i + 1));
        i = i + 1;
    }
    if i == a.len() {
        i < b.len()
    } else if i == b.len() {
        false
    } else {
        let x: char = a[i];
        let y: char = b[i];
        assert(a@.skip(i as int)[0] == x);
        assert(b@.skip(i as int)[0] == y);
        x < y
    }
}

/// The character sequences held by a vector of character vectors.
pub open spec fn views(v: Seq<Vec<char>>) -> Seq<Seq<char>> {
    v.map_values(|x: Vec<char>| x@)
}

/// `str::split(sep)`.
pub fn split_chars(v: &[char], sep: char) -> (r: Vec<Vec<char>>)
    ensures
        views(r@) == split(v@, sep),
{
    let mut pieces: Vec<Vec<char>> = Vec::new();
    let mut cur: Vec<char> = Vec::new();
    let mut i: usize = 0;
    assert(v@.take(0) =~= Seq::<char>::empty());
    assert(views(pieces@).push(cur@) =~= split(v@.take(0), sep));
    while i < v.len()
        invariant
            i <= v.len(),
            split(v@.take(i as int), sep) == views(pieces@).push(cur@),
        decreases v.len() - i,
    {
        let c = v[i];
        assert(v@.take(i + 1).drop_last() =~= v@.take(i as int));
        if c == sep {
            pieces.push(cur);
            cur = Vec::new();
            assert(views(pieces@).push(cur@) =~= split(v@.take(i + 1), sep));
        } else {
            cur.push(c);
            assert(views(pieces@).push(cur@) =~= split(v@.take(i + 1), sep));
        }
        i = i + 1;
    }
    pieces.push(cur);
    assert(v@.take(i as int) =~= v@);
    assert(views(pieces@) =~= split(v@, sep));
    pieces
}

/// `str::split_whitespace`.
pub fn words_chars(v: &[char]) -> (r: Vec<Vec<char>>)
    ensures
        views(r@) == words(v@),
{
    let mut tokens: Vec<Vec<char>> = Vec::new();
    let mut cur: Vec<char> = Vec::new();
    let mut i: usize = 0;
    assert(v@.take(0) =~= Seq::<char>::empty());
    assert(views(tokens@) =~= words(v@.take(0)));
    while i < v.len()
        invariant
            i <= v.len(),
            words(v@.take(i as int)) == if cur@.len() > 0 {
                views(tokens@).push(cur@)
            } else {
                views(tokens@)
            },
            cur@.len() > 0 <==> (i > 0 && !is_ws(v@[i - 1])),
        decreases v.len() - i,
    {
        let c = v[i];
        let ghost t = v@.take(i + 1);
        assert(t.drop_last() =~= v@.take(i as int));
        assert(t.last() == c);
        if char_is_ws(c) {
            if cur.len() > 0 {
                tokens.push(cur);
                cur = Vec::new();
            }
            assert(views(tokens@) =~= words(t));
        } else {
            let ghost old_cur = cur@;
            let ghost w = words(v@.take(i as int));
            if i >= 1 {
                assert(t[t.len() - 2] == v@[i - 1]);
            }
            cur.push(c);
            if cur.len() > 1 {
                assert(words(t) == w.update(w.len() - 1, w.last().push(c)));
                assert(views(tokens@).push(cur@) =~= words(t));
            } else {
                assert(words(t) == w.push(seq![c]));
                assert(cur@ =~= seq![c]);
                assert(views(tokens@).push(cur@) =~= words(t));
            }
        }
        i = i + 1;
    }
    assert(v@.take(i as int) =~= v@);
    if cur.len() > 0 {
        tokens.push(cur);
    }
    assert(views(tokens@) =~= words(v@));
    tokens
}

/// The character sequences held by a sequence of strings.
pub open spec fn strings(v: Seq<String>) -> Seq<Seq<char>> {
    v.map_values(|x: String| x@)
}

/// ASCII lowercasing is idempotent.
pub proof fn lemma_lower_idempotent(s: Seq<char>)
    ensures
        lower(lower(s)) == lower(s),
{
    assert forall|i: int| 0 <= i < s.len() implies lower_char(lower_char(s[i])) == lower_char(
        s[i],
    ) by {
        let c = s[i];
        if 65 <= c as int <= 90 {
            let d = ((c as int + 32) as u8) as char;
            assert(d as int == c as int + 32);
        }
    }
    assert(lower(lower(s)) =~= lower(s));
}

/// A copy of a list of strings.
pub fn clone_strings(v: &[String]) -> (r: Vec<String>)
    ensures
        r@ == v@,
{
    let mut r: Vec<String> = Vec::new();
    let mut i: usize = 0;
    while i < v.len()
        invariant
            i <= v.len(),
            r@ == v@.take(i as int),
        decreases v.len() - i,
    {
        r.push(v[i].clone());
        i = i + 1;
        assert(r@ =~= v@.take(i as int));
    }
    assert(v@.take(i as int) =~= v@);
    r
}

/// A copy of a list of string lists.
pub fn clone_string_lists(v: &Vec<Vec<String>>) -> (r: Vec<Vec<String>>)
    ensures
        r@.len() == v@.len(),
        forall|i: int| 0 <= i < v@.len() ==> #[trigger] r@[i]@ == v@[i]@,
{
    let mut r: Vec<Vec<String>> = Vec::new();
    let mut i: usize = 0;
    while i < v.len()
        invariant
            i <= v@.len(),
            r@.len() == i,
            forall|j: int| 0 <= j < i ==> #[trigger] r@[j]@ == v@[j]@,
        decreases v@.len() - i,
    {
        r.push(clone_strings(v[i].as_slice()));
        i = i + 1;
    }
    r
}

/// `split` always yields at least one piece.
pub proof fn lemma_split_nonempty(s: Seq<char>, sep: char)
    ensures
        split(s, sep).len() >= 1,
    decreases s.len(),
{
    if s.len() > 0 {
        lemma_split_nonempty(s.drop_last(), sep);
    }
}

/// Strictly increasing in `seq_lt`, hence free of repeats.
pub open spec fn sorted_strict(l: Seq<Seq<char>>) -> bool {
    forall|i: int, j: int| 0 <= i < j < l.len() ==> seq_lt(l[i], l[j])
}

/// The elements of a finite set of strings listed in increasing order.
pub open spec fn in_order(s: Set<Seq<char>>) -> Seq<Seq<char>> {
    choose|l: Seq<Seq<char>>| sorted_strict(l) && l.to_set() == s
}

/// Two increasing lists with the same elements are the same list.
pub proof fn lemma_sorted_strict_unique(l1: Seq<Seq<char>>, l2: Seq<Seq<char>>)
    requires
        sorted_strict(l1),
        sorted_strict(l2),
        l1.to_set() == l2.to_set(),
    ensures
        l1 == l2,
    decreases l1.len(),
{
    if l1.len() == 0 {
        if l2.len() > 0 {
            assert(l2.to_set().contains(l2[0]));
        }
        assert(l1 =~= l2);
    } else {
        assert(l1.to_set().contains(l1[0]));
        assert(l2.to_set().contains(l1[0]));
        let j = choose|j: int| 0 <= j < l2.len() && l2[j] == l1[0];
        assert(l2.to_set().contains(l2[0]));
        let k = choose|k: int| 0 <= k < l1.len() && l1[k] == l2[0];
        lemma_seq_lt_irreflexive(l1[0]);
        if j > 0 {
            assert(seq_lt(l2[0], l2[j]));
            if k > 0 {
                assert(seq_lt(l1[0], l1[k]));
                lemma_seq_lt_asymmetric(l1[0], l1[k]);
            }
        }
        assert(l1[0] == l2[0]);
        let t1 = l1.drop_first();
        let t2 = l2.drop_first();
        assert(t1.to_set() =~= t2.to_set()) by {
            assert forall|x: Seq<char>| t1.to_set().contains(x) implies t2.to_set().contains(x) by {
                let a = choose|a: int| 0 <= a < t1.len() && t1[a] == x;
                assert(l1[a + 1] == x);
                assert(seq_lt(l1[0], l1[a + 1]));
                assert(l2.to_set().contains(x));
                let b = choose|b: int| 0 <= b < l2.len() && l2[b] == x;
                if b == 0 {
                    lemma_seq_lt_irreflexive(x);
                }
                assert(t2[b - 1] == x);
            }
            assert forall|x: Seq<char>| t2.to_set().contains(x) implies t1.to_set().contains(x) by {
                let a = choose|a: int| 0 <= a < t2.len() && t2[a] == x;
                assert(l2[a + 1] == x);
                assert(seq_lt(l2[0], l2[a + 1]));
                assert(l1.to_set().contains(x));
                let b = choose|b: int| 0 <= b < l1.len() && l1[b] == x;
                if b == 0 {
                    lemma_seq_lt_irreflexive(x);
                }
                assert(t1[b - 1] == x);
            }
        }
        lemma_sorted_strict_unique(t1, t2);
        assert(l1 =~= l2) by {
            assert forall|i: int| 0 <= i < l1.len() implies l1[i] == l2[i] by {
                if i > 0 {
                    assert(l1[i] == t1[i - 1]);
                    assert(l2[i] == t2[i - 1]);
                }
            }
        }
    }
}

/// An increasing list is the listing of its elements in order.
pub proof fn lemma_in_order(l: Seq<Seq<char>>, s: Set<Seq<char>>)
    requires
        sorted_strict(l),
        l.to_set() == s,
    ensures
        in_order(s) == l,
{
    let c = in_order(s);
    assert(sorted_strict(c) && c.to_set() == s);
    lemma_sorted_strict_unique(c, l);
}

/// Appends the parts joined by `sep`.
pub fn push_joined(s: &mut String, parts: &Vec<&str>, sep: &str)
    ensures
        final(s)@ == old(s)@ + join(parts@.map_values(|p: &str| p@), sep@),
{
    let ghost ps = parts@.map_values(|p: &str| p@);
    let mut i: usize = 0;
    assert(ps.take(0) =~= Seq::<Seq<char>>::empty());
    assert(old(s)@ =~= old(s)@ + join(ps.take(0), sep@));
    while i < parts.len()
        invariant
            i <= parts@.len(),
            ps == parts@.map_values(|p: &str| p@),
            s@ == old(s)@ + join(ps.take(i as int), sep@),
        decreases parts@.len() - i,
    {
        assert(ps.take(i + 1).drop_last() =~= ps.take(i as int));
        assert(ps.take(i + 1).last() == parts@[i as int]@);
        if i > 0 {
            push_str(s, sep);
        } else {
            assert(ps.take(1) =~= seq![ps[0]]);
        }
        push_str(s, parts[i]);
        i = i + 1;
        assert(s@ =~= old(s)@ + join(ps.take(i as int), sep@));
    }
    assert(ps.take(i as int) =~= ps);
}

/// ASCII lowercasing leaves whitespace alone and creates none.
pub proof fn lemma_lower_char_ws(c: char)
    ensures
        is_ws(lower_char(c)) == is_ws(c),
{
    if 65 <= c as int <= 90 {
        let d = ((c as int + 32) as u8) as char;
        assert(d as int == c as int + 32);
    }
}

/// A character lowercases to a non-letter exactly when it is that non-letter.
pub proof fn lemma_lower_char_separator(c: char, sep: char)
    requires
        !(97 <= sep as int <= 122),
        !(65 <= sep as int <= 90),
    ensures
        (lower_char(c) == sep) == (c == sep),
{
    if 65 <= c as int <= 90 {
        let d = ((c as int + 32) as u8) as char;
        assert(d as int == c as int + 32);
    }
}

proof fn lemma_lower_drop(s: Seq<char>)
    ensures
        lower(s).len() == s.len(),
        s.len() > 0 ==> lower(s).drop_last() == lower(s.drop_last()),
        s.len() > 0 ==> lower(s).last() == lower_char(s.last()),
        s.len() > 0 ==> lower(s).drop_first() == lower(s.drop_first()),
        s.len() > 0 ==> lower(s)[0] == lower_char(s[0]),
{
    if s.len() > 0 {
        assert(lower(s).drop_last() =~= lower(s.drop_last()));
        assert(lower(s).drop_first() =~= lower(s.drop_first()));
    }
}

/// Splitting commutes with lowercasing when the separator is not a letter.
pub proof fn lemma_split_lower(s: Seq<char>, sep: char)
    requires
        !(97 <= sep as int <= 122),
        !(65 <= sep as int <= 90),
    ensures
        split(lower(s), sep) == split(s, sep).map_values(|p: Seq<char>| lower(p)),
    decreases s.len(),
{
    lemma_lower_drop(s);
    if s.len() == 0 {
        assert(lower(s) =~= Seq::<char>::empty());
        assert(lower(Seq::<char>::empty()) =~= Seq::<char>::empty());
        assert(split(lower(s), sep) =~= split(s, sep).map_values(|p: Seq<char>| lower(p)));
    } else {
        lemma_split_lower(s.drop_last(), sep);
        lemma_split_nonempty(s.drop_last(), sep);
        lemma_lower_char_separator(s.last(), sep);
        let ps = split(s.drop_last(), sep);
        let last = ps.last();
        assert(lower(last.push(s.last())) =~= lower(last).push(lower_char(s.last())));
        assert(lower(Seq::<char>::empty()) =~= Seq::<char>::empty());
        assert(split(lower(s), sep) =~= split(s, sep).map_values(|p: Seq<char>| lower(p)));
    }
}

proof fn lemma_trim_start_lower(s: Seq<char>)
    ensures
        trim_start(lower(s)) == lower(trim_start(s)),
    decreases s.len(),
{
    lemma_lower_drop(s);
    if s.len() > 0 {
        lemma_lower_char_ws(s[0]);
        if is_ws(s[0]) {
            lemma_trim_start_lower(s.drop_first());
        }
    }
}

proof fn lemma_trim_end_lower(s: Seq<char>)
    ensures
        trim_end(lower(s)) == lower(trim_end(s)),
    decreases s.len(),
{
    lemma_lower_drop(s);
    if s.len() > 0 {
        lemma_lower_char_ws(s.last());
        if is_ws(s.last()) {
            lemma_trim_end_lower(s.drop_last());
        }
    }
}

/// Trimming commutes with lowercasing.
pub proof fn lemma_trim_lower(s: Seq<char>)
    ensures
        trim(lower(s)) == lower(trim(s)),
{
    lemma_trim_start_lower(s);
    lemma_trim_end_lower(trim_start(s));
}

/// A string that ends in a non-space has at least one word.
pub proof fn lemma_words_nonempty(t: Seq<char>)
    requires
        t.len() > 0,
        !is_ws(t.last()),
    ensures
        words(t).len() > 0,
    decreases t.len(),
{
    if t.len() >= 2 && !is_ws(t[t.len() - 2]) {
        assert(t.drop_last().last() == t[t.len() - 2]);
        lemma_words_nonempty(t.drop_last());
    }
}

/// Splitting into words commutes with lowercasing.
pub proof fn lemma_words_lower(s: Seq<char>)
    ensures
        words(lower(s)) == words(s).map_values(|w: Seq<char>| lower(w)),
    decreases s.len(),
{
    lemma_lower_drop(s);
    if s.len() == 0 {
        assert(lower(s) =~= Seq::<char>::empty());
        assert(words(lower(s)) =~= words(s).map_values(|w: Seq<char>| lower(w)));
    } else {
        lemma_words_lower(s.drop_last());
        lemma_lower_char_ws(s.last());
        if s.len() >= 2 {
            lemma_lower_char_ws(s[s.len() - 2]);
            assert(lower(s)[s.len() - 2] == lower_char(s[s.len() - 2]));
        }
        let w = words(s.drop_last());
        let l = lower(s);
        let wl = words(l.drop_last());
        assert(wl == w.map_values(|x: Seq<char>| lower(x)));
        let c = s.last();
        if is_ws(c) {
            assert(words(l) == wl);
            assert(words(s) == w);
        } else if s.len() >= 2 && !is_ws(s[s.len() - 2]) {
            assert(words(l) == wl.update(wl.len() - 1, wl.last().push(lower_char(c))));
            assert(words(s) == w.update(w.len() - 1, w.last().push(c)));
            assert(s.drop_last().last() == s[s.len() - 2]);
            lemma_words_nonempty(s.drop_last());
            if w.len() > 0 {
                assert(lower(w.last().push(c)) =~= lower(w.last()).push(lower_char(c)));
            }
            assert(words(l) =~= words(s).map_values(|x: Seq<char>| lower(x)));
        } else {
            assert(words(l) == wl.push(seq![lower_char(c)]));
            assert(words(s) == w.push(seq![c]));
            assert(lower(seq![c]) =~= seq![lower_char(c)]);
            assert(words(l) =~= words(s).map_values(|x: Seq<char>| lower(x)));
        }
    }
}

proof fn lemma_trim_start_shape(s: Seq<char>)
    ensures
        trim_start(s).len() == 0 || !is_ws(trim_start(s)[0]),
        trim_start(s).len() <= s.len(),
        trim_start(s) == s.skip(s.len() - trim_start(s).len()),
    decreases s.len(),
{
    if s.len() > 0 && is_ws(s[0]) {
        lemma_trim_start_shape(s.drop_first());
        let l = trim_start(s).len();
        assert(trim_start(s) == trim_start(s.drop_first()));
        assert(l <= s.len() - 1);
        assert(s.drop_first().skip(s.drop_first().len() - l) =~= s.skip(s.len() - l));
    } else {
        assert(s.skip(0) =~= s);
    }
}

proof fn lemma_trim_end_shape(s: Seq<char>)
    ensures
        trim_end(s).len() == 0 || !is_ws(trim_end(s).last()),
        trim_end(s).len() <= s.len(),
        trim_end(s) == s.take(trim_end(s).len() as int),
    decreases s.len(),
{
    if s.len() > 0 && is_ws(s.last()) {
        lemma_trim_end_shape(s.drop_last());
        let l = trim_end(s).len();
        assert(trim_end(s) == trim_end(s.drop_last()));
        assert(l <= s.len() - 1);
        assert(s.drop_last().take(l as int) =~= s.take(l as int));
    } else {
        assert(s.take(s.len() as int) =~= s);
    }
}

/// A non-empty run of characters none of which is whitespace.
pub open spec fn word_shape(w: Seq<char>) -> bool {
    w.len() > 0 && forall|j: int| 0 <= j < w.len() ==> !is_ws(#[trigger] w[j])
}

/// Every word of a string is non-empty and holds no whitespace.
pub proof fn lemma_words_shape(s: Seq<char>)
    ensures
        forall|i: int| 0 <= i < words(s).len() ==> word_shape(#[trigger] words(s)[i]),
    decreases s.len(),
{
    if s.len() > 0 {
        let p = s.drop_last();
        lemma_words_shape(p);
        let w = words(p);
        if !is_ws(s.last()) {
            if s.len() >= 2 && !is_ws(s[s.len() - 2]) {
                assert(p.last() == s[s.len() - 2]);
                lemma_words_nonempty(p);
                let n = w.last().push(s.last());
                assert(word_shape(w[w.len() - 1]));
                assert forall|j: int| 0 <= j < n.len() implies !is_ws(#[trigger] n[j]) by {
                    if j < n.len() - 1 {
                        assert(n[j] == w[w.len() - 1][j]);
                    }
                }
                assert(word_shape(n));
                let u = w.update(w.len() - 1, n);
                assert forall|i: int| 0 <= i < u.len() implies word_shape(#[trigger] u[i]) by {
                    if i < w.len() - 1 {
                        assert(u[i] == w[i]);
                    }
                }
            } else {
                let u = w.push(seq![s.last()]);
                assert(word_shape(seq![s.last()]));
                assert forall|i: int| 0 <= i < u.len() implies word_shape(#[trigger] u[i]) by {
                    if i < w.len() {
                        assert(u[i] == w[i]);
                    }
                }
            }
        }
    }
}

/// Lowercasing keeps a word a word, and a lowercased string is its own
/// lowercase.
pub proof fn lemma_lower_word(w: Seq<char>)
    requires
        word_shape(w),
    ensures
        word_shape(lower(w)),
        lower(lower(w)) == lower(w),
{
    lemma_lower_idempotent(w);
    assert forall|j: int| 0 <= j < lower(w).len() implies !is_ws(#[trigger] lower(w)[j]) by {
        lemma_lower_char_ws(w[j]);
        assert(!is_ws(w[j]));
    }
}

/// A trimmed string neither starts nor ends with whitespace.
pub proof fn lemma_trim_shape(s: Seq<char>)
    ensures
        trim(s).len() == 0 || (!is_ws(trim(s)[0]) && !is_ws(trim(s).last())),
{
    lemma_trim_start_shape(s);
    let u = trim_start(s);
    lemma_trim_end_shape(u);
    let t = trim_end(u);
    if t.len() > 0 {
        assert(t[0] == u.take(t.len() as int)[0]);
    }
}

/// A string that neither starts nor ends with whitespace is its own trim.
pub proof fn lemma_trim_noop(t: Seq<char>)
    requires
        t.len() == 0 || (!is_ws(t[0]) && !is_ws(t.last())),
    ensures
        trim(t) == t,
{
}

} // verus!
