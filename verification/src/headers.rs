//! Case-insensitive header access and the small parsers the checks need.
//!
//! HTTP field names are case-insensitive (RFC 9110 §5.1) and may repeat.
//! Getting that wrong is the usual reason a scanner reports a header missing
//! when it is present, so it is handled once, here, rather than in each check.

use vstd::prelude::*;

use crate::text::{
    chars_eq, chars_lt, lemma_words_lower, lemma_split_lower, lemma_trim_lower, in_order, lemma_in_order, chars_of, lemma_seq_lt_irreflexive, lemma_seq_lt_total,
    lemma_seq_lt_transitive, seq_lt, words, words_chars, lemma_split_nonempty, parse_u64, parse_u64_chars, slice_chars, split,
    split_chars, starts_with, strip_prefix, trim_char, trim_char_chars, trim_start, trim_start_chars, views, clone_string_lists, clone_strings, lemma_lower_idempotent, lower, string_of, strings, to_lower, trim, trim_chars, word_shape, lemma_words_shape, lemma_lower_word,
};

verus! {

/// The model of a header set: each lowercase field name maps to its values,
/// in the order received.
pub type HeaderMap = Map<Seq<char>, Seq<Seq<char>>>;

/// The key a field name is stored and looked up under.
pub open spec fn field_key(name: Seq<char>) -> Seq<char> {
    lower(name)
}

/// Every value of the header `name` (empty when absent).
pub open spec fn lookup_all(m: HeaderMap, name: Seq<char>) -> Seq<Seq<char>> {
    if m.contains_key(field_key(name)) {
        m[field_key(name)]
    } else {
        Seq::empty()
    }
}

/// The first value of the header `name`, if present.
pub open spec fn lookup(m: HeaderMap, name: Seq<char>) -> Option<Seq<char>> {
    if m.contains_key(field_key(name)) {
        Some(m[field_key(name)][0])
    } else {
        None
    }
}

/// The header set after adding `value` under `name`: the name is trimmed and
/// lowercased, the value trimmed, and earlier values of that name are kept.
pub open spec fn with_value(m: HeaderMap, name: Seq<char>, value: Seq<char>) -> HeaderMap {
    let k = lower(trim(name));
    let v = trim(value);
    if m.contains_key(k) {
        m.insert(k, m[k].push(v))
    } else {
        m.insert(k, seq![v])
    }
}

/// The header set built by inserting `pairs` in order into an empty one.
pub open spec fn pairs_map(pairs: Seq<(&str, &str)>) -> HeaderMap
    decreases pairs.len(),
{
    if pairs.len() == 0 {
        HeaderMap::empty()
    } else {
        with_value(pairs_map(pairs.drop_last()), pairs.last().0@, pairs.last().1@)
    }
}

/// What every header set satisfies: finitely many names, each lowercase and
/// holding at least one value.
pub open spec fn valid_header_map(m: HeaderMap) -> bool {
    &&& m.dom().finite()
    &&& forall|k: Seq<char>| #[trigger] m.contains_key(k) ==> lower(k) == k && m[k].len() > 0
}

/// A response's headers, stored under lowercase names.
#[derive(Debug)]
pub struct Headers {
    names: Vec<String>,
    values: Vec<Vec<String>>,
}

impl View for Headers {
    type V = HeaderMap;

    closed spec fn view(&self) -> HeaderMap {
        Map::new(
            |k: Seq<char>| exists|i: int| 0 <= i < self.names@.len() && self.names@[i]@ == k,
            |k: Seq<char>|
                strings(
                    self.values@[choose|i: int|
                        0 <= i < self.names@.len() && self.names@[i]@ == k]@,
                ),
        )
    }
}

impl Headers {
    #[verifier::type_invariant]
    closed spec fn wf(&self) -> bool {
        &&& self.names@.len() == self.values@.len()
        &&& forall|i: int, j: int|
            0 <= i < j < self.names@.len() ==> self.names@[i]@ != self.names@[j]@
        &&& forall|i: int| 0 <= i < self.values@.len() ==> self.values@[i]@.len() > 0
        &&& forall|i: int| 0 <= i < self.names@.len() ==> lower(self.names@[i]@) == self.names@[i]@
    }

    proof fn lemma_view_at(&self, i: int)
        requires
            self.wf(),
            0 <= i < self.names@.len(),
        ensures
            self@.contains_key(self.names@[i]@),
            self@[self.names@[i]@] == strings(self.values@[i]@),
    {
        let k = self.names@[i]@;
        assert(exists|j: int| 0 <= j < self.names@.len() && self.names@[j]@ == k);
        let j = choose|j: int| 0 <= j < self.names@.len() && self.names@[j]@ == k;
        if j != i {
            if j < i {
                assert(self.names@[j]@ != self.names@[i]@);
            } else {
                assert(self.names@[i]@ != self.names@[j]@);
            }
        }
    }

    proof fn lemma_model(&self)
        requires
            self.wf(),
        ensures
            valid_header_map(self@),
            self@.dom().len() == self.names@.len(),
    {
        let names = self.names@.map_values(|s: String| s@);
        assert(self@.dom() =~= names.to_set()) by {
            assert forall|k: Seq<char>| self@.dom().contains(k) implies names.to_set().contains(
                k,
            ) by {
                let i = choose|i: int| 0 <= i < self.names@.len() && self.names@[i]@ == k;
                assert(names[i] == k);
            }
            assert forall|k: Seq<char>| names.to_set().contains(k) implies self@.dom().contains(
                k,
            ) by {
                let i = choose|i: int| 0 <= i < names.len() && names[i] == k;
                assert(self.names@[i]@ == k);
            }
        }
        assert(names.no_duplicates()) by {
            assert forall|i: int, j: int|
                0 <= i < names.len() && 0 <= j < names.len() && i != j implies names[i]
                != names[j] by {
                if i < j {
                    assert(self.names@[i]@ != self.names@[j]@);
                } else {
                    assert(self.names@[j]@ != self.names@[i]@);
                }
            }
        }
        names.unique_seq_to_set();
        vstd::seq_lib::seq_to_set_is_finite(names);
        assert forall|k: Seq<char>| self@.contains_key(k) implies lower(k) == k && self@[k].len()
            > 0 by {
            let i = choose|i: int| 0 <= i < self.names@.len() && self.names@[i]@ == k;
            self.lemma_view_at(i);
        }
    }

    /// Index of the stored name equal to `key`, if any.
    fn position(&self, key: &[char]) -> (r: Option<usize>)
        ensures
            match r {
                Some(i) => i < self.names@.len() && self.names@[i as int]@ == key@,
                None => !self@.contains_key(key@),
            },
    {
        proof {
            use_type_invariant(self);
        }
        let mut i: usize = 0;
        while i < self.names.len()
            invariant
                i <= self.names@.len(),
                forall|j: int| 0 <= j < i ==> self.names@[j]@ != key@,
            decreases self.names@.len() - i,
        {
            let name = chars_of(self.names[i].as_str());
            if chars_eq(name.as_slice(), key) {
                return Some(i);
            }
            i = i + 1;
        }
        None
    }

    /// An empty header set.
    pub fn new() -> (h: Self)
        ensures
            h@ == HeaderMap::empty(),
            valid_header_map(h@),
    {
        let h = Headers { names: Vec::new(), values: Vec::new() };
        assert(h@ =~= HeaderMap::empty());
        h
    }

    /// Add one header value, preserving earlier values of the same name.
    pub fn insert(&mut self, name: &str, value: &str)
        ensures
            final(self)@ == with_value(old(self)@, name@, value@),
            valid_header_map(final(self)@),
    {
        proof {
            use_type_invariant(&*self);
        }
        let name_chars = chars_of(name);
        let trimmed = trim_chars(name_chars.as_slice());
        let key = to_lower(trimmed.as_slice());
        let value_chars = chars_of(value);
        let v = string_of(trim_chars(value_chars.as_slice()).as_slice());
        let ghost old_h = *self;
        let ghost m = old_h@;
        proof {
            lemma_lower_idempotent(trimmed@);
        }
        let pos = self.position(key.as_slice());
        let mut taken = Headers::new();
        std::mem::swap(&mut taken, self);
        let Headers { mut names, mut values } = taken;
        match pos {
            Some(i) => {
                proof {
                    old_h.lemma_view_at(i as int);
                }
                let mut vals = values.remove(i);
                vals.push(v);
                values.insert(i, vals);
                assert(values@ =~= old_h.values@.update(i as int, vals));
                *self = Headers { names, values };
                proof {
                    assert forall|k: Seq<char>| #[trigger]
                        self@.contains_key(k) == with_value(m, name@, value@).contains_key(k)
                        by {
                        if exists|j: int| 0 <= j < self.names@.len() && self.names@[j]@ == k {
                            let j = choose|j: int|
                                0 <= j < self.names@.len() && self.names@[j]@ == k;
                            old_h.lemma_view_at(j);
                        }
                        if m.contains_key(k) {
                            let j = choose|j: int|
                                0 <= j < old_h.names@.len() && old_h.names@[j]@ == k;
                            assert(self.names@[j]@ == k);
                        }
                    }
                    assert forall|k: Seq<char>| #[trigger]
                        self@.contains_key(k) implies self@[k] == with_value(
                        m,
                        name@,
                        value@,
                    )[k] by {
                        let j = choose|j: int| 0 <= j < self.names@.len() && self.names@[j]@ == k;
                        self.lemma_view_at(j);
                        old_h.lemma_view_at(j);
                        if j == i {
                            assert(strings(vals@) =~= strings(old_h.values@[j]@).push(v@));
                        }
                    }
                    assert(self@ =~= with_value(m, name@, value@));
                }
            },
            None => {
                let key_string = string_of(key.as_slice());
                let mut vals: Vec<String> = Vec::new();
                vals.push(v);
                names.push(key_string);
                values.push(vals);
                proof {
                    assert forall|j: int| 0 <= j < old_h.names@.len() implies old_h.names@[j]@
                        != key@ by {
                        old_h.lemma_view_at(j);
                    }
                }
                *self = Headers { names, values };
                proof {
                    let n = old_h.names@.len() as int;
                    assert forall|k: Seq<char>| #[trigger]
                        self@.contains_key(k) == with_value(m, name@, value@).contains_key(k)
                        by {
                        if exists|j: int| 0 <= j < self.names@.len() && self.names@[j]@ == k {
                            let j = choose|j: int|
                                0 <= j < self.names@.len() && self.names@[j]@ == k;
                            if j < n {
                                old_h.lemma_view_at(j);
                            }
                        }
                        if m.contains_key(k) {
                            let j = choose|j: int|
                                0 <= j < old_h.names@.len() && old_h.names@[j]@ == k;
                            assert(self.names@[j]@ == k);
                        }
                        if k == key@ {
                            assert(self.names@[n]@ == k);
                        }
                    }
                    assert forall|k: Seq<char>| #[trigger]
                        self@.contains_key(k) implies self@[k] == with_value(
                        m,
                        name@,
                        value@,
                    )[k] by {
                        let j = choose|j: int| 0 <= j < self.names@.len() && self.names@[j]@ == k;
                        self.lemma_view_at(j);
                        if j < n {
                            old_h.lemma_view_at(j);
                        } else {
                            assert(strings(vals@) =~= seq![v@]);
                        }
                    }
                    assert(self@ =~= with_value(m, name@, value@));
                }
            },
        }
        proof {
            use_type_invariant(&*self);
            self.lemma_model();
        }
    }

    /// The first value for a header, if present.
    pub fn get(&self, name: &str) -> (r: Option<&str>)
        ensures
            match r {
                Some(v) => lookup(self@, name@) == Some(v@),
                None => lookup(self@, name@) is None,
            },
            valid_header_map(self@),
    {
        proof {
            use_type_invariant(self);
            self.lemma_model();
        }
        let name_chars = chars_of(name);
        let key = to_lower(name_chars.as_slice());
        match self.position(key.as_slice()) {
            Some(i) => {
                proof {
                    self.lemma_view_at(i as int);
                }
                Some(self.values[i][0].as_str())
            },
            None => None,
        }
    }

    /// Every value for a header, in the order received.
    pub fn get_all(&self, name: &str) -> (r: &[String])
        ensures
            strings(r@) == lookup_all(self@, name@),
            valid_header_map(self@),
    {
        proof {
            use_type_invariant(self);
            self.lemma_model();
        }
        let name_chars = chars_of(name);
        let key = to_lower(name_chars.as_slice());
        match self.position(key.as_slice()) {
            Some(i) => {
                proof {
                    self.lemma_view_at(i as int);
                }
                self.values[i].as_slice()
            },
            None => {
                let r: &[String] = &[];
                assert(strings(r@) =~= Seq::<Seq<char>>::empty());
                r
            },
        }
    }

    /// Whether a header is present at all.
    pub fn has(&self, name: &str) -> (r: bool)
        ensures
            r == self@.contains_key(field_key(name@)),
            valid_header_map(self@),
    {
        proof {
            use_type_invariant(self);
            self.lemma_model();
        }
        let name_chars = chars_of(name);
        let key = to_lower(name_chars.as_slice());
        match self.position(key.as_slice()) {
            Some(i) => {
                proof {
                    self.lemma_view_at(i as int);
                }
                true
            },
            None => false,
        }
    }

    /// How many distinct header names are present.
    pub fn len(&self) -> (r: usize)
        ensures
            r == self@.dom().len(),
            valid_header_map(self@),
    {
        proof {
            use_type_invariant(self);
            self.lemma_model();
        }
        self.names.len()
    }

    /// Whether no headers are present.
    pub fn is_empty(&self) -> (r: bool)
        ensures
            r == (self@.dom().len() == 0),
            valid_header_map(self@),
    {
        proof {
            use_type_invariant(self);
            self.lemma_model();
        }
        self.names.len() == 0
    }

    /// Build from name/value pairs, inserting them in order.
    pub fn from_pairs<'a, const N: usize>(pairs: [(&'a str, &'a str); N]) -> (h: Self)
        ensures
            h@ == pairs_map(pairs@),
            valid_header_map(h@),
    {
        Headers::from_slice(pairs.as_slice())
    }

    /// Build from a slice of name/value pairs (a `Vec` of them, for example),
    /// inserting them in order.
    pub fn from_slice(pairs: &[(&str, &str)]) -> (h: Self)
        ensures
            h@ == pairs_map(pairs@),
            valid_header_map(h@),
    {
        let mut h = Headers::new();
        let mut i: usize = 0;
        while i < pairs.len()
            invariant
                i <= pairs@.len(),
                h@ == pairs_map(pairs@.take(i as int)),
                valid_header_map(h@),
            decreases pairs@.len() - i,
        {
            let (name, value) = pairs[i];
            h.insert(name, value);
            assert(pairs@.take(i + 1).drop_last() =~= pairs@.take(i as int));
            i = i + 1;
        }
        assert(pairs@.take(i as int) =~= pairs@);
        h
    }
}

impl Clone for Headers {
    fn clone(&self) -> (h: Self)
        ensures
            h@ == self@,
    {
        proof {
            use_type_invariant(self);
        }
        let names = clone_strings(self.names.as_slice());
        let values = clone_string_lists(&self.values);
        let h = Headers { names, values };
        assert forall|k: Seq<char>| #[trigger] h@.contains_key(k) implies h@[k] == self@[k] by {
            let j = choose|j: int| 0 <= j < h.names@.len() && h.names@[j]@ == k;
            assert(h.values@[j]@ == self.values@[j]@);
        }
        assert(h@ =~= self@);
        h
    }
}

impl Default for Headers {
    fn default() -> (h: Self)
        ensures
            h@ == HeaderMap::empty(),
            valid_header_map(h@),
    {
        Headers::new()
    }
}

/// Header names are matched without regard to ASCII case: two names that
/// lowercase alike find the same values.
pub proof fn law_lookup_ignores_case(m: HeaderMap, a: Seq<char>, b: Seq<char>)
    requires
        lower(a) == lower(b),
    ensures
        lookup(m, a) == lookup(m, b),
        lookup_all(m, a) == lookup_all(m, b),
{
}

/// Adding a value never loses one: under the name added (compared without
/// case, after trimming), every earlier value is kept in order and the trimmed
/// value follows them; the first value stays the first; every other name is
/// untouched.
pub proof fn law_added_value_is_kept(m: HeaderMap, name: Seq<char>, value: Seq<char>, query: Seq<char>)
    requires
        valid_header_map(m),
    ensures
        valid_header_map(with_value(m, name, value)),
        field_key(query) == lower(trim(name)) ==> lookup_all(with_value(m, name, value), query)
            == lookup_all(m, query).push(trim(value)),
        field_key(query) == lower(trim(name)) ==> lookup(with_value(m, name, value), query) == if m.contains_key(
            field_key(query),
        ) {
            lookup(m, query)
        } else {
            Some(trim(value))
        },
        field_key(query) != lower(trim(name)) ==> lookup_all(with_value(m, name, value), query)
            == lookup_all(m, query) && lookup(with_value(m, name, value), query) == lookup(m, query),
{
    let k = lower(trim(name));
    lemma_lower_idempotent(trim(name));
    let n = with_value(m, name, value);
    assert forall|key: Seq<char>| n.contains_key(key) implies lower(key) == key && n[key].len() > 0 by {
        if key == k {
            if m.contains_key(k) {
                assert(n[k] == m[k].push(trim(value)));
            } else {
                assert(n[k] == seq![trim(value)]);
            }
        } else {
            assert(m.contains_key(key));
            assert(n[key] == m[key]);
        }
    }
    assert(n.dom() =~= m.dom().insert(k));
    if m.contains_key(k) {
        assert(m[k].push(trim(value))[0] == m[k][0]);
    }
    if field_key(query) == k {
        if !m.contains_key(k) {
            assert(seq![trim(value)] =~= Seq::<Seq<char>>::empty().push(trim(value)));
        }
    }
}

/// The first value of a header is the first of all its values.
pub proof fn law_first_of_all(m: HeaderMap, name: Seq<char>)
    requires
        valid_header_map(m),
    ensures
        lookup(m, name) == if lookup_all(m, name).len() > 0 {
            Some(lookup_all(m, name)[0])
        } else {
            None::<Seq<char>>
        },
{
    if m.contains_key(field_key(name)) {
        assert(m[field_key(name)].len() > 0);
    }
}

/// A `Strict-Transport-Security` value, parsed.
#[derive(Debug, Clone, Copy, PartialEq, Eq, Structural)]
pub struct Hsts {
    /// `max-age` in seconds. `None` when the directive is absent or unparseable.
    pub max_age: Option<u64>,
    /// Whether `includeSubDomains` is present.
    pub include_subdomains: bool,
    /// Whether `preload` is present.
    pub preload: bool,
}

/// The effect of one `;`-separated directive on the HSTS value parsed so far:
/// directive names are matched case-insensitively after trimming, a later
/// `max-age` replaces an earlier one (with `None` when its number does not
/// parse), and unknown directives are ignored.
pub open spec fn hsts_directive(h: Hsts, directive: Seq<char>) -> Hsts {
    let d = lower(trim(directive));
    if starts_with(d, "max-age"@) {
        let rest = trim_start(d.skip("max-age"@.len() as int));
        if rest.len() > 0 && rest[0] == '=' {
            Hsts { max_age: parse_u64(trim_char(trim(rest.drop_first()), '"')), ..h }
        } else {
            h
        }
    } else if d == "includesubdomains"@ {
        Hsts { include_subdomains: true, ..h }
    } else if d == "preload"@ {
        Hsts { preload: true, ..h }
    } else {
        h
    }
}

/// The directives applied in order to a value with nothing set.
pub open spec fn hsts_directives(ds: Seq<Seq<char>>) -> Hsts
    decreases ds.len(),
{
    if ds.len() == 0 {
        Hsts { max_age: None, include_subdomains: false, preload: false }
    } else {
        hsts_directive(hsts_directives(ds.drop_last()), ds.last())
    }
}

/// What `parse_hsts` makes of a header value.
pub open spec fn hsts_of(value: Seq<char>) -> Hsts {
    hsts_directives(split(value, ';'))
}

/// Parse a `Strict-Transport-Security` header value.
pub fn parse_hsts(value: &str) -> (h: Hsts)
    ensures
        h == hsts_of(value@),
{
    let v = chars_of(value);
    let parts = split_chars(v.as_slice(), ';');
    let max_age = chars_of("max-age");
    let subdomains_word = chars_of("includesubdomains");
    let preload = chars_of("preload");
    let mut h = Hsts { max_age: None, include_subdomains: false, preload: false };
    let mut i: usize = 0;
    while i < parts.len()
        invariant
            i <= parts@.len(),
            max_age@ == "max-age"@,
            subdomains_word@ == "includesubdomains"@,
            preload@ == "preload"@,
            h == hsts_directives(views(parts@).take(i as int)),
        decreases parts@.len() - i,
    {
        let ghost ds = views(parts@);
        assert(ds.take(i + 1).drop_last() =~= ds.take(i as int));
        let directive = trim_chars(parts[i].as_slice());
        let lowered = to_lower(directive.as_slice());
        match strip_prefix(lowered.as_slice(), max_age.as_slice()) {
            Some(rest) => {
                let rest = trim_start_chars(rest.as_slice());
                if rest.len() > 0 && rest[0] == '=' {
                    let number = slice_chars(rest.as_slice(), 1, rest.len());
                    assert(number@ =~= rest@.drop_first());
                    let number = trim_chars(number.as_slice());
                    let number = trim_char_chars(number.as_slice(), '"');
                    h = Hsts { max_age: parse_u64_chars(number.as_slice()), ..h };
                }
            },
            None => {
                if chars_eq(lowered.as_slice(), subdomains_word.as_slice()) {
                    h = Hsts { include_subdomains: true, ..h };
                } else if chars_eq(lowered.as_slice(), preload.as_slice()) {
                    h = Hsts { preload: true, ..h };
                }
            },
        }
        i = i + 1;
    }
    assert(views(parts@).take(i as int) =~= views(parts@));
    h
}

proof fn lemma_hsts_directives_lower(ds: Seq<Seq<char>>)
    ensures
        hsts_directives(ds.map_values(|p: Seq<char>| lower(p))) == hsts_directives(ds),
    decreases ds.len(),
{
    if ds.len() > 0 {
        let ls = ds.map_values(|p: Seq<char>| lower(p));
        assert(ls.drop_last() =~= ds.drop_last().map_values(|p: Seq<char>| lower(p)));
        lemma_hsts_directives_lower(ds.drop_last());
        let d = ds.last();
        lemma_trim_lower(d);
        lemma_lower_idempotent(trim(d));
        assert(lower(trim(lower(d))) == lower(trim(d)));
    }
}

/// HSTS parsing does not depend on ASCII case: a value and its lowercase form
/// parse alike.
pub proof fn law_hsts_ignores_case(value: Seq<char>)
    ensures
        hsts_of(lower(value)) == hsts_of(value),
{
    lemma_split_lower(value, ';');
    lemma_hsts_directives_lower(split(value, ';'));
}

/// The security-relevant attributes of one `Set-Cookie` value.
#[derive(Debug, Clone, PartialEq, Eq)]
pub struct Cookie {
    /// The cookie name.
    pub name: String,
    /// Whether `Secure` is set.
    pub secure: bool,
    /// Whether `HttpOnly` is set.
    pub http_only: bool,
    /// The `SameSite` value, lowercased.
    pub same_site: Option<String>,
}

/// The model of a [`Cookie`]: its fields, with strings as characters.
pub struct CookieView {
    pub name: Seq<char>,
    pub secure: bool,
    pub http_only: bool,
    pub same_site: Option<Seq<char>>,
}

impl View for Cookie {
    type V = CookieView;

    open spec fn view(&self) -> CookieView {
        CookieView {
            name: self.name@,
            secure: self.secure,
            http_only: self.http_only,
            same_site: match self.same_site {
                Some(s) => Some(s@),
                None => None,
            },
        }
    }
}

/// The effect of one attribute on the cookie parsed so far: attribute names
/// are matched case-insensitively after trimming; a later `SameSite` replaces
/// an earlier one; unknown attributes are ignored.
pub open spec fn cookie_attribute(c: CookieView, attribute: Seq<char>) -> CookieView {
    let a = lower(trim(attribute));
    if a == "secure"@ {
        CookieView { secure: true, ..c }
    } else if a == "httponly"@ {
        CookieView { http_only: true, ..c }
    } else if starts_with(a, "samesite="@) {
        CookieView { same_site: Some(trim(a.skip("samesite="@.len() as int))), ..c }
    } else {
        c
    }
}

/// The attributes applied in order.
pub open spec fn cookie_attributes(c: CookieView, attributes: Seq<Seq<char>>) -> CookieView
    decreases attributes.len(),
{
    if attributes.len() == 0 {
        c
    } else {
        cookie_attribute(cookie_attributes(c, attributes.drop_last()), attributes.last())
    }
}

/// What `parse_cookie` makes of a `Set-Cookie` value: the name is the trimmed
/// text before the first `=` of the first `;`-separated part, and the
/// remaining parts are attributes.
pub open spec fn cookie_of(value: Seq<char>) -> CookieView {
    let parts = split(value, ';');
    let name = trim(split(parts[0], '=')[0]);
    cookie_attributes(
        CookieView { name: name, secure: false, http_only: false, same_site: None },
        parts.skip(1),
    )
}

/// Parse a `Set-Cookie` header value.
pub fn parse_cookie(value: &str) -> (c: Cookie)
    ensures
        c@ == cookie_of(value@),
{
    let v = chars_of(value);
    let parts = split_chars(v.as_slice(), ';');
    let ghost ps = views(parts@);
    proof {
        lemma_split_nonempty(v@, ';');
        lemma_split_nonempty(ps[0], '=');
    }
    let pair = split_chars(parts[0].as_slice(), '=');
    let name = trim_chars(pair[0].as_slice());
    let secure_word = chars_of("secure");
    let http_only_word = chars_of("httponly");
    let same_site_word = chars_of("samesite=");
    let mut cookie = Cookie {
        name: string_of(name.as_slice()),
        secure: false,
        http_only: false,
        same_site: None,
    };
    let ghost init = cookie@;
    let mut i: usize = 1;
    assert(ps.subrange(1, 1) =~= Seq::<Seq<char>>::empty());
    while i < parts.len()
        invariant
            1 <= i <= parts@.len(),
            ps == views(parts@),
            secure_word@ == "secure"@,
            http_only_word@ == "httponly"@,
            same_site_word@ == "samesite="@,
            cookie@ == cookie_attributes(init, ps.subrange(1, i as int)),
        decreases parts@.len() - i,
    {
        assert(ps.subrange(1, i + 1).drop_last() =~= ps.subrange(1, i as int));
        let attribute = trim_chars(parts[i].as_slice());
        let lowered = to_lower(attribute.as_slice());
        if chars_eq(lowered.as_slice(), secure_word.as_slice()) {
            cookie.secure = true;
        } else if chars_eq(lowered.as_slice(), http_only_word.as_slice()) {
            cookie.http_only = true;
        } else {
            match strip_prefix(lowered.as_slice(), same_site_word.as_slice()) {
                Some(rest) => {
                    let rest = trim_chars(rest.as_slice());
                    cookie.same_site = Some(string_of(rest.as_slice()));
                },
                None => {},
            }
        }
        i = i + 1;
    }
    assert(ps.subrange(1, i as int) =~= ps.skip(1));
    cookie
}

/// The model of a policy: each lowercase directive name maps to its
/// lowercase source list.
pub type DirectiveMap = Map<Seq<char>, Seq<Seq<char>>>;

/// The effect of one `;`-separated part on the policy parsed so far: a blank
/// part is skipped; otherwise its first word, lowercased, names the directive
/// and the remaining words, lowercased, are its sources. A directive declared
/// again replaces the earlier declaration.
pub open spec fn csp_part(m: DirectiveMap, part: Seq<char>) -> DirectiveMap {
    let p = trim(part);
    let w = words(p);
    if p.len() == 0 || w.len() == 0 {
        m
    } else {
        m.insert(lower(w[0]), w.skip(1).map_values(|t: Seq<char>| lower(t)))
    }
}

/// The parts applied in order to an empty policy.
pub open spec fn csp_parts(parts: Seq<Seq<char>>) -> DirectiveMap
    decreases parts.len(),
{
    if parts.len() == 0 {
        DirectiveMap::empty()
    } else {
        csp_part(csp_parts(parts.drop_last()), parts.last())
    }
}

/// What `Csp::parse` makes of a policy string.
pub open spec fn csp_of(value: Seq<char>) -> DirectiveMap {
    csp_parts(split(value, ';'))
}

proof fn lemma_csp_part_lower(m: DirectiveMap, part: Seq<char>)
    ensures
        csp_part(m, lower(part)) == csp_part(m, part),
{
    lemma_trim_lower(part);
    let p = trim(part);
    let lp = lower(p);
    assert(lp.len() == p.len());
    lemma_words_lower(p);
    let w = words(p);
    let lw = words(lp);
    if p.len() > 0 && w.len() > 0 {
        lemma_lower_idempotent(w[0]);
        assert(lw.skip(1).map_values(|t: Seq<char>| lower(t)) =~= w.skip(1).map_values(
            |t: Seq<char>| lower(t),
        )) by {
            assert forall|i: int| 0 <= i < w.len() - 1 implies lower(lw.skip(1)[i]) == lower(
                w.skip(1)[i],
            ) by {
                lemma_lower_idempotent(w[i + 1]);
            }
        }
    }
}

proof fn lemma_csp_parts_lower(parts: Seq<Seq<char>>)
    ensures
        csp_parts(parts.map_values(|p: Seq<char>| lower(p))) == csp_parts(parts),
    decreases parts.len(),
{
    if parts.len() > 0 {
        let ls = parts.map_values(|p: Seq<char>| lower(p));
        assert(ls.drop_last() =~= parts.drop_last().map_values(|p: Seq<char>| lower(p)));
        lemma_csp_parts_lower(parts.drop_last());
        lemma_csp_part_lower(csp_parts(parts.drop_last()), parts.last());
    }
}

/// Policy parsing does not depend on ASCII case: directive names and sources
/// are compared in lowercase.
pub proof fn law_csp_ignores_case(value: Seq<char>)
    ensures
        csp_of(lower(value)) == csp_of(value),
{
    lemma_split_lower(value, ';');
    lemma_csp_parts_lower(split(value, ';'));
}

/// The directive a `;`-separated part of a policy declares: its first word,
/// lowercased; `None` for a blank part.
pub open spec fn part_name(part: Seq<char>) -> Option<Seq<char>> {
    let t = trim(part);
    let w = words(t);
    if t.len() == 0 || w.len() == 0 {
        None
    } else {
        Some(lower(w[0]))
    }
}

/// The sources a part lists: its remaining words, lowercased, in order.
pub open spec fn part_sources(part: Seq<char>) -> Seq<Seq<char>> {
    words(trim(part)).skip(1).map_values(|t: Seq<char>| lower(t))
}

/// A directive name as the parser stores it: non-empty, lowercase and free of
/// whitespace.
pub open spec fn directive_name_shape(k: Seq<char>) -> bool {
    word_shape(k) && lower(k) == k
}

proof fn lemma_part_name_shape(part: Seq<char>)
    requires
        part_name(part) is Some,
    ensures
        directive_name_shape(part_name(part)->0),
{
    let w = words(trim(part));
    lemma_words_shape(trim(part));
    assert(word_shape(w[0]));
    lemma_lower_word(w[0]);
}

proof fn lemma_csp_parts_shape(parts: Seq<Seq<char>>)
    ensures
        forall|k: Seq<char>| #[trigger]
            csp_parts(parts).contains_key(k) ==> directive_name_shape(k),
        forall|k: Seq<char>| #[trigger]
            csp_parts(parts).contains_key(k) ==> exists|i: int|
                0 <= i < parts.len() && part_name(#[trigger] parts[i]) == Some(k),
        forall|i: int|
            0 <= i < parts.len() && part_name(#[trigger] parts[i]) is Some ==> csp_parts(
                parts,
            ).contains_key(part_name(parts[i])->0),
        forall|i: int|
            0 <= i < parts.len() && part_name(#[trigger] parts[i]) is Some && (forall|j: int|
                i < j < parts.len() ==> part_name(parts[j]) != part_name(parts[i])) ==> csp_parts(
                parts,
            )[part_name(parts[i])->0] == part_sources(parts[i]),
    decreases parts.len(),
{
    if parts.len() > 0 {
        let prev = parts.drop_last();
        let last = parts.last();
        lemma_csp_parts_shape(prev);
        let m0 = csp_parts(prev);
        let m = csp_parts(parts);
        let n = part_name(last);
        assert(m == csp_part(m0, last));
        if n is Some {
            lemma_part_name_shape(last);
            assert(m == m0.insert(n->0, part_sources(last)));
        } else {
            assert(m == m0);
        }
        assert forall|k: Seq<char>| #[trigger] m.contains_key(k) implies exists|i: int|
            0 <= i < parts.len() && part_name(#[trigger] parts[i]) == Some(k) by {
            if n == Some(k) {
                assert(parts[parts.len() - 1] == last);
            } else {
                assert(m0.contains_key(k));
                let i = choose|i: int| 0 <= i < prev.len() && part_name(#[trigger] prev[i]) == Some(k);
                assert(parts[i] == prev[i]);
            }
        }
        assert forall|i: int|
            0 <= i < parts.len() && part_name(#[trigger] parts[i]) is Some implies m.contains_key(
            part_name(parts[i])->0,
        ) by {
            if i < parts.len() - 1 {
                assert(parts[i] == prev[i]);
            }
        }
        assert forall|i: int|
            0 <= i < parts.len() && part_name(#[trigger] parts[i]) is Some && (forall|j: int|
                i < j < parts.len() ==> part_name(parts[j]) != part_name(parts[i])) implies m[part_name(
            parts[i],
        )->0] == part_sources(parts[i]) by {
            if i < parts.len() - 1 {
                assert(parts[i] == prev[i]);
                assert(part_name(parts[parts.len() - 1]) != part_name(parts[i]));
                assert forall|j: int| i < j < prev.len() implies part_name(prev[j]) != part_name(
                    prev[i],
                ) by {
                    assert(prev[j] == parts[j]);
                }
            }
        }
    }
}

/// What `Csp::parse` keeps of a policy: every directive name is non-empty,
/// lowercase and free of whitespace; a directive is declared exactly when some
/// `;`-separated part names it (its first word, lowercased); and its sources
/// are the remaining words, lowercased, of the last part that names it.
pub proof fn law_csp_parse(value: Seq<char>)
    ensures
        forall|k: Seq<char>| #[trigger]
            csp_of(value).contains_key(k) ==> directive_name_shape(k),
        forall|k: Seq<char>|
            #[trigger] csp_of(value).contains_key(k) <==> exists|i: int|
                0 <= i < split(value, ';').len() && part_name(#[trigger] split(value, ';')[i])
                    == Some(k),
        forall|i: int|
            0 <= i < split(value, ';').len() && part_name(#[trigger] split(value, ';')[i]) is Some
                && (forall|j: int|
                i < j < split(value, ';').len() ==> part_name(split(value, ';')[j]) != part_name(
                    split(value, ';')[i],
                )) ==> csp_of(value)[part_name(split(value, ';')[i])->0] == part_sources(
                split(value, ';')[i],
            ),
{
    let parts = split(value, ';');
    lemma_csp_parts_shape(parts);
    assert forall|k: Seq<char>| (exists|i: int|
        0 <= i < parts.len() && part_name(#[trigger] parts[i]) == Some(k)) implies csp_of(
        value,
    ).contains_key(k) by {
        let i = choose|i: int| 0 <= i < parts.len() && part_name(#[trigger] parts[i]) == Some(k);
        assert(part_name(parts[i]) is Some);
    }
}

/// The source list of a directive, if declared.
pub open spec fn csp_directive(m: DirectiveMap, name: Seq<char>) -> Option<Seq<Seq<char>>> {
    if m.contains_key(name) {
        Some(m[name])
    } else {
        None
    }
}

/// The directives consulted, in order, for the effective source list of
/// `name`: the directive itself first, then the ones it falls back to. The
/// element and attribute variants of `script-src` and `style-src`,
/// `worker-src` and `frame-src` follow the fallback lists of Content Security
/// Policy Level 3; every other directive (the remaining fetch directives
/// among them) falls back to `default-src` alone.
pub open spec fn fallback_list(name: Seq<char>) -> Seq<Seq<char>> {
    if name == "script-src-elem"@ || name == "script-src-attr"@ {
        seq![name, "script-src"@, "default-src"@]
    } else if name == "style-src-elem"@ || name == "style-src-attr"@ {
        seq![name, "style-src"@, "default-src"@]
    } else if name == "worker-src"@ {
        seq![name, "child-src"@, "script-src"@, "default-src"@]
    } else if name == "frame-src"@ {
        seq![name, "child-src"@, "default-src"@]
    } else if name == "default-src"@ {
        seq![name]
    } else {
        seq![name, "default-src"@]
    }
}

/// The source list of the first directive in `names` that the policy declares.
pub open spec fn first_declared(m: DirectiveMap, names: Seq<Seq<char>>) -> Option<Seq<Seq<char>>>
    decreases names.len(),
{
    if names.len() == 0 {
        None
    } else if m.contains_key(names[0]) {
        Some(m[names[0]])
    } else {
        first_declared(m, names.drop_first())
    }
}

/// The effective source list of a directive: that of the first directive in
/// its fallback list that the policy declares, so the directive's own list
/// when it is declared; `None` when none is declared.
pub open spec fn csp_effective(m: DirectiveMap, name: Seq<char>) -> Option<Seq<Seq<char>>> {
    first_declared(m, fallback_list(name))
}

/// A declared directive is its own effective source list.
pub proof fn law_effective_prefers_own(m: DirectiveMap, name: Seq<char>)
    requires
        m.contains_key(name),
    ensures
        csp_effective(m, name) == Some(m[name]),
{
}

/// The fetch directives without a longer fallback list fall back to
/// `default-src` alone when they are not declared.
pub proof fn law_fetch_falls_back_to_default_src(m: DirectiveMap, name: Seq<char>)
    requires
        name == "child-src"@ || name == "connect-src"@ || name == "font-src"@ || name == "img-src"@ || name == "manifest-src"@ || name == "media-src"@ || name == "object-src"@ || name == "script-src"@ || name == "style-src"@,
        !m.contains_key(name),
    ensures
        csp_effective(m, name) == csp_directive(m, "default-src"@),
{
    reveal_strlit("script-src-elem");
    reveal_strlit("script-src-attr");
    reveal_strlit("style-src-elem");
    reveal_strlit("style-src-attr");
    reveal_strlit("worker-src");
    reveal_strlit("frame-src");
    reveal_strlit("default-src");
    reveal_strlit("child-src");
    reveal_strlit("connect-src");
    reveal_strlit("font-src");
    reveal_strlit("img-src");
    reveal_strlit("manifest-src");
    reveal_strlit("media-src");
    reveal_strlit("object-src");
    reveal_strlit("script-src");
    reveal_strlit("style-src");
    assert("child-src"@ != "script-src-elem"@) by {
        assert("child-src"@.len() != "script-src-elem"@.len());
    }
    assert("child-src"@ != "script-src-attr"@) by {
        assert("child-src"@.len() != "script-src-attr"@.len());
    }
    assert("child-src"@ != "style-src-elem"@) by {
        assert("child-src"@.len() != "style-src-elem"@.len());
    }
    assert("child-src"@ != "style-src-attr"@) by {
        assert("child-src"@.len() != "style-src-attr"@.len());
    }
    assert("child-src"@ != "worker-src"@) by {
        assert("child-src"@.len() != "worker-src"@.len());
    }
    assert("child-src"@ != "frame-src"@) by {
        assert("child-src"@[0] != "frame-src"@[0]);
    }
    assert("child-src"@ != "default-src"@) by {
        assert("child-src"@.len() != "default-src"@.len());
    }
    assert("connect-src"@ != "script-src-elem"@) by {
        assert("connect-src"@.len() != "script-src-elem"@.len());
    }
    assert("connect-src"@ != "script-src-attr"@) by {
        assert("connect-src"@.len() != "script-src-attr"@.len());
    }
    assert("connect-src"@ != "style-src-elem"@) by {
        assert("connect-src"@.len() != "style-src-elem"@.len());
    }
    assert("connect-src"@ != "style-src-attr"@) by {
        assert("connect-src"@.len() != "style-src-attr"@.len());
    }
    assert("connect-src"@ != "worker-src"@) by {
        assert("connect-src"@.len() != "worker-src"@.len());
    }
    assert("connect-src"@ != "frame-src"@) by {
        assert("connect-src"@.len() != "frame-src"@.len());
    }
    assert("connect-src"@ != "default-src"@) by {
        assert("connect-src"@[0] != "default-src"@[0]);
    }
    assert("font-src"@ != "script-src-elem"@) by {
        assert("font-src"@.len() != "script-src-elem"@.len());
    }
    assert("font-src"@ != "script-src-attr"@) by {
        assert("font-src"@.len() != "script-src-attr"@.len());
    }
    assert("font-src"@ != "style-src-elem"@) by {
        assert("font-src"@.len() != "style-src-elem"@.len());
    }
    assert("font-src"@ != "style-src-attr"@) by {
        assert("font-src"@.len() != "style-src-attr"@.len());
    }
    assert("font-src"@ != "worker-src"@) by {
        assert("font-src"@.len() != "worker-src"@.len());
    }
    assert("font-src"@ != "frame-src"@) by {
        assert("font-src"@.len() != "frame-src"@.len());
    }
    assert("font-src"@ != "default-src"@) by {
        assert("font-src"@.len() != "default-src"@.len());
    }
    assert("img-src"@ != "script-src-elem"@) by {
        assert("img-src"@.len() != "script-src-elem"@.len());
    }
    assert("img-src"@ != "script-src-attr"@) by {
        assert("img-src"@.len() != "script-src-attr"@.len());
    }
    assert("img-src"@ != "style-src-elem"@) by {
        assert("img-src"@.len() != "style-src-elem"@.len());
    }
    assert("img-src"@ != "style-src-attr"@) by {
        assert("img-src"@.len() != "style-src-attr"@.len());
    }
    assert("img-src"@ != "worker-src"@) by {
        assert("img-src"@.len() != "worker-src"@.len());
    }
    assert("img-src"@ != "frame-src"@) by {
        assert("img-src"@.len() != "frame-src"@.len());
    }
    assert("img-src"@ != "default-src"@) by {
        assert("img-src"@.len() != "default-src"@.len());
    }
    assert("manifest-src"@ != "script-src-elem"@) by {
        assert("manifest-src"@.len() != "script-src-elem"@.len());
    }
    assert("manifest-src"@ != "script-src-attr"@) by {
        assert("manifest-src"@.len() != "script-src-attr"@.len());
    }
    assert("manifest-src"@ != "style-src-elem"@) by {
        assert("manifest-src"@.len() != "style-src-elem"@.len());
    }
    assert("manifest-src"@ != "style-src-attr"@) by {
        assert("manifest-src"@.len() != "style-src-attr"@.len());
    }
    assert("manifest-src"@ != "worker-src"@) by {
        assert("manifest-src"@.len() != "worker-src"@.len());
    }
    assert("manifest-src"@ != "frame-src"@) by {
        assert("manifest-src"@.len() != "frame-src"@.len());
    }
    assert("manifest-src"@ != "default-src"@) by {
        assert("manifest-src"@.len() != "default-src"@.len());
    }
    assert("media-src"@ != "script-src-elem"@) by {
        assert("media-src"@.len() != "script-src-elem"@.len());
    }
    assert("media-src"@ != "script-src-attr"@) by {
        assert("media-src"@.len() != "script-src-attr"@.len());
    }
    assert("media-src"@ != "style-src-elem"@) by {
        assert("media-src"@.len() != "style-src-elem"@.len());
    }
    assert("media-src"@ != "style-src-attr"@) by {
        assert("media-src"@.len() != "style-src-attr"@.len());
    }
    assert("media-src"@ != "worker-src"@) by {
        assert("media-src"@.len() != "worker-src"@.len());
    }
    assert("media-src"@ != "frame-src"@) by {
        assert("media-src"@[0] != "frame-src"@[0]);
    }
    assert("media-src"@ != "default-src"@) by {
        assert("media-src"@.len() != "default-src"@.len());
    }
    assert("object-src"@ != "script-src-elem"@) by {
        assert("object-src"@.len() != "script-src-elem"@.len());
    }
    assert("object-src"@ != "script-src-attr"@) by {
        assert("object-src"@.len() != "script-src-attr"@.len());
    }
    assert("object-src"@ != "style-src-elem"@) by {
        assert("object-src"@.len() != "style-src-elem"@.len());
    }
    assert("object-src"@ != "style-src-attr"@) by {
        assert("object-src"@.len() != "style-src-attr"@.len());
    }
    assert("object-src"@ != "worker-src"@) by {
        assert("object-src"@[0] != "worker-src"@[0]);
    }
    assert("object-src"@ != "frame-src"@) by {
        assert("object-src"@.len() != "frame-src"@.len());
    }
    assert("object-src"@ != "default-src"@) by {
        assert("object-src"@.len() != "default-src"@.len());
    }
    assert("script-src"@ != "script-src-elem"@) by {
        assert("script-src"@.len() != "script-src-elem"@.len());
    }
    assert("script-src"@ != "script-src-attr"@) by {
        assert("script-src"@.len() != "script-src-attr"@.len());
    }
    assert("script-src"@ != "style-src-elem"@) by {
        assert("script-src"@.len() != "style-src-elem"@.len());
    }
    assert("script-src"@ != "style-src-attr"@) by {
        assert("script-src"@.len() != "style-src-attr"@.len());
    }
    assert("script-src"@ != "worker-src"@) by {
        assert("script-src"@[0] != "worker-src"@[0]);
    }
    assert("script-src"@ != "frame-src"@) by {
        assert("script-src"@.len() != "frame-src"@.len());
    }
    assert("script-src"@ != "default-src"@) by {
        assert("script-src"@.len() != "default-src"@.len());
    }
    assert("style-src"@ != "script-src-elem"@) by {
        assert("style-src"@.len() != "script-src-elem"@.len());
    }
    assert("style-src"@ != "script-src-attr"@) by {
        assert("style-src"@.len() != "script-src-attr"@.len());
    }
    assert("style-src"@ != "style-src-elem"@) by {
        assert("style-src"@.len() != "style-src-elem"@.len());
    }
    assert("style-src"@ != "style-src-attr"@) by {
        assert("style-src"@.len() != "style-src-attr"@.len());
    }
    assert("style-src"@ != "worker-src"@) by {
        assert("style-src"@.len() != "worker-src"@.len());
    }
    assert("style-src"@ != "frame-src"@) by {
        assert("style-src"@[0] != "frame-src"@[0]);
    }
    assert("style-src"@ != "default-src"@) by {
        assert("style-src"@.len() != "default-src"@.len());
    }
    assert(fallback_list(name) == seq![name, "default-src"@]);
    assert(seq![name, "default-src"@].drop_first() =~= seq!["default-src"@]);
    assert(seq!["default-src"@].drop_first() =~= Seq::<Seq<char>>::empty());
    assert(first_declared(m, Seq::<Seq<char>>::empty()) is None);
    assert(first_declared(m, seq!["default-src"@]) == csp_directive(m, "default-src"@));
    assert(first_declared(m, seq![name, "default-src"@]) == first_declared(
        m,
        seq!["default-src"@],
    ));
}

/// The directives whose source list contains `token`.
pub open spec fn csp_containing(m: DirectiveMap, token: Seq<char>) -> Set<Seq<char>> {
    Set::new(|k: Seq<char>| m.contains_key(k) && m[k].contains(token))
}

/// A `Content-Security-Policy` split into directives.
#[derive(Debug)]
pub struct Csp {
    names: Vec<String>,
    sources: Vec<Vec<String>>,
}

impl View for Csp {
    type V = DirectiveMap;

    closed spec fn view(&self) -> DirectiveMap {
        Map::new(
            |k: Seq<char>| exists|i: int| 0 <= i < self.names@.len() && self.names@[i]@ == k,
            |k: Seq<char>|
                strings(
                    self.sources@[choose|i: int|
                        0 <= i < self.names@.len() && self.names@[i]@ == k]@,
                ),
        )
    }
}

/// Directive names kept in strictly increasing lexicographic order of their
/// characters, so that each name occurs once and listings come out sorted.
spec fn sorted_names(names: Seq<String>) -> bool {
    forall|i: int, j: int| 0 <= i < j < names.len() ==> seq_lt(names[i]@, names[j]@)
}

impl Csp {
    #[verifier::type_invariant]
    closed spec fn wf(&self) -> bool {
        &&& self.names@.len() == self.sources@.len()
        &&& sorted_names(self.names@)
    }

    proof fn lemma_view_at(&self, i: int)
        requires
            self.wf(),
            0 <= i < self.names@.len(),
        ensures
            self@.contains_key(self.names@[i]@),
            self@[self.names@[i]@] == strings(self.sources@[i]@),
    {
        let k = self.names@[i]@;
        assert(exists|j: int| 0 <= j < self.names@.len() && self.names@[j]@ == k);
        let j = choose|j: int| 0 <= j < self.names@.len() && self.names@[j]@ == k;
        lemma_seq_lt_irreflexive(k);
        if j < i {
            assert(seq_lt(self.names@[j]@, self.names@[i]@));
            assert(false);
        } else if i < j {
            assert(seq_lt(self.names@[i]@, self.names@[j]@));
            assert(false);
        }
    }

    /// Index of the directive named exactly `name`, if declared.
    fn position(&self, name: &[char]) -> (r: Option<usize>)
        ensures
            match r {
                Some(i) => i < self.names@.len() && self.names@[i as int]@ == name@,
                None => !self@.contains_key(name@),
            },
    {
        proof {
            use_type_invariant(self);
        }
        let mut i: usize = 0;
        while i < self.names.len()
            invariant
                i <= self.names@.len(),
                forall|j: int| 0 <= j < i ==> self.names@[j]@ != name@,
            decreases self.names@.len() - i,
        {
            let n = chars_of(self.names[i].as_str());
            if chars_eq(n.as_slice(), name) {
                return Some(i);
            }
            i = i + 1;
        }
        None
    }

    /// Parse a policy string.
    pub fn parse(value: &str) -> (c: Self)
        ensures
            c@ == csp_of(value@),
    {
        let v = chars_of(value);
        let parts = split_chars(v.as_slice(), ';');
        let ghost ps = views(parts@);
        let mut c = Csp { names: Vec::new(), sources: Vec::new() };
        assert(c@ =~= DirectiveMap::empty());
        let mut i: usize = 0;
        while i < parts.len()
            invariant
                i <= parts@.len(),
                ps == views(parts@),
                c@ == csp_parts(ps.take(i as int)),
            decreases parts@.len() - i,
        {
            assert(ps.take(i + 1).drop_last() =~= ps.take(i as int));
            let part = trim_chars(parts[i].as_slice());
            if part.len() > 0 {
                let tokens = words_chars(part.as_slice());
                if tokens.len() > 0 {
                    let name = to_lower(tokens[0].as_slice());
                    let mut sources: Vec<String> = Vec::new();
                    let mut k: usize = 1;
                    while k < tokens.len()
                        invariant
                            1 <= k <= tokens@.len(),
                            strings(sources@) == views(tokens@).subrange(1, k as int).map_values(
                                |t: Seq<char>| lower(t),
                            ),
                        decreases tokens@.len() - k,
                    {
                        let t = to_lower(tokens[k].as_slice());
                        let ghost before = sources@;
                        sources.push(string_of(t.as_slice()));
                        assert(strings(sources@) =~= strings(before).push(t@));
                        assert(views(tokens@)[k as int] == tokens@[k as int]@);
                        assert(views(tokens@).subrange(1, k + 1) =~= views(tokens@).subrange(
                            1,
                            k as int,
                        ).push(tokens@[k as int]@));
                        k = k + 1;
                        assert(strings(sources@) =~= views(tokens@).subrange(1, k as int).map_values(
                            |t: Seq<char>| lower(t),
                        ));
                    }
                    assert(views(tokens@).subrange(1, k as int) =~= views(tokens@).skip(1));
                    c = c.with_directive(name.as_slice(), sources);
                }
            }
            i = i + 1;
        }
        assert(ps.take(i as int) =~= ps);
        c
    }

    /// The policy with directive `name` declared as `sources`, replacing any
    /// earlier declaration and keeping the names in order.
    fn with_directive(self, name: &[char], sources: Vec<String>) -> (c: Self)
        ensures
            c@ == self@.insert(name@, strings(sources@)),
    {
        proof {
            use_type_invariant(&self);
        }
        let ghost old_c = self;
        let Csp { mut names, sources: mut lists } = self;
        let mut p: usize = 0;
        while p < names.len()
            invariant
                names@ == old_c.names@,
                p <= names@.len(),
                forall|j: int| 0 <= j < p ==> seq_lt(#[trigger] names@[j]@, name@),
            ensures
                names@ == old_c.names@,
                p <= names@.len(),
                forall|j: int| 0 <= j < p ==> seq_lt(#[trigger] names@[j]@, name@),
                p < names@.len() ==> !seq_lt(names@[p as int]@, name@),
            decreases names@.len() - p,
        {
            let n = chars_of(names[p].as_str());
            if !chars_lt(n.as_slice(), name) {
                break;
            }
            p = p + 1;
        }
        let same = if p < names.len() {
            let n = chars_of(names[p].as_str());
            chars_eq(n.as_slice(), name)
        } else {
            false
        };
        if same {
            lists.remove(p);
            lists.insert(p, sources);
            let c = Csp { names, sources: lists };
            proof {
                assert forall|k: Seq<char>| #[trigger]
                    c@.contains_key(k) == old_c@.insert(name@, strings(sources@)).contains_key(k)
                    by {
                    if old_c@.contains_key(k) {
                        let j = choose|j: int| 0 <= j < old_c.names@.len() && old_c.names@[j]@ == k;
                        assert(c.names@[j]@ == k);
                    }
                    if c@.contains_key(k) {
                        let j = choose|j: int| 0 <= j < c.names@.len() && c.names@[j]@ == k;
                        old_c.lemma_view_at(j);
                    }
                    if k == name@ {
                        assert(c.names@[p as int]@ == k);
                    }
                }
                assert forall|k: Seq<char>| #[trigger] c@.contains_key(k) implies c@[k]
                    == old_c@.insert(name@, strings(sources@))[k] by {
                    let j = choose|j: int| 0 <= j < c.names@.len() && c.names@[j]@ == k;
                    c.lemma_view_at(j);
                    if j != p {
                        old_c.lemma_view_at(j);
                        old_c.lemma_view_at(p as int);
                        assert(c.sources@[j]@ == old_c.sources@[j]@);
                    } else {
                        assert(c.sources@[j]@ == sources@);
                    }
                }
                assert(c@ =~= old_c@.insert(name@, strings(sources@)));
            }
            c
        } else {
            proof {
                if p < names@.len() {
                    lemma_seq_lt_total(names@[p as int]@, name@);
                }
            }
            let name_string = string_of(name);
            names.insert(p, name_string);
            lists.insert(p, sources);
            proof {
                let ns = names@;
                assert forall|i: int, j: int| 0 <= i < j < ns.len() implies seq_lt(
                    ns[i]@,
                    ns[j]@,
                ) by {
                    let on = old_c.names@;
                    if j == p {
                        assert(seq_lt(on[i]@, name@));
                    } else if i == p {
                        assert(seq_lt(name@, on[p as int]@));
                        if j - 1 > p {
                            assert(seq_lt(on[p as int]@, on[j - 1]@));
                            lemma_seq_lt_transitive(name@, on[p as int]@, on[j - 1]@);
                        }
                    } else if i < p && j > p {
                        assert(seq_lt(on[i]@, on[j - 1]@));
                    } else if i > p {
                        assert(seq_lt(on[i - 1]@, on[j - 1]@));
                    } else {
                        assert(seq_lt(on[i]@, on[j]@));
                    }
                }
            }
            let c = Csp { names, sources: lists };
            proof {
                let n0 = old_c.names@.len() as int;
                assert forall|k: Seq<char>| #[trigger]
                    c@.contains_key(k) == old_c@.insert(name@, strings(sources@)).contains_key(k)
                    by {
                    if old_c@.contains_key(k) {
                        let j = choose|j: int| 0 <= j < n0 && old_c.names@[j]@ == k;
                        if j < p {
                            assert(c.names@[j]@ == k);
                        } else {
                            assert(c.names@[j + 1]@ == k);
                        }
                    }
                    if c@.contains_key(k) {
                        let j = choose|j: int| 0 <= j < c.names@.len() && c.names@[j]@ == k;
                        if j < p {
                            old_c.lemma_view_at(j);
                        } else if j > p {
                            old_c.lemma_view_at(j - 1);
                        }
                    }
                    if k == name@ {
                        assert(c.names@[p as int]@ == k);
                    }
                }
                assert forall|k: Seq<char>| #[trigger] c@.contains_key(k) implies c@[k]
                    == old_c@.insert(name@, strings(sources@))[k] by {
                    let j = choose|j: int| 0 <= j < c.names@.len() && c.names@[j]@ == k;
                    c.lemma_view_at(j);
                    if j < p {
                        old_c.lemma_view_at(j);
                        assert(seq_lt(k, name@));
                        lemma_seq_lt_irreflexive(k);
                    } else if j > p {
                        old_c.lemma_view_at(j - 1);
                        if p < n0 {
                            assert(seq_lt(name@, old_c.names@[p as int]@));
                            if j - 1 > p {
                                lemma_seq_lt_transitive(name@, old_c.names@[p as int]@, k);
                            }
                            lemma_seq_lt_irreflexive(k);
                        }
                    }
                }
                assert(c@ =~= old_c@.insert(name@, strings(sources@)));
            }
            c
        }
    }

    /// Source list for a directive, if declared.
    pub fn directive(&self, name: &str) -> (r: Option<&[String]>)
        ensures
            match r {
                Some(s) => csp_directive(self@, name@) == Some(strings(s@)),
                None => csp_directive(self@, name@) is None,
            },
    {
        proof {
            use_type_invariant(self);
        }
        let n = chars_of(name);
        match self.position(n.as_slice()) {
            Some(i) => {
                proof {
                    self.lemma_view_at(i as int);
                }
                Some(self.sources[i].as_slice())
            },
            None => None,
        }
    }

    /// Whether a directive is declared.
    pub fn has(&self, name: &str) -> (r: bool)
        ensures
            r == self@.contains_key(name@),
    {
        proof {
            use_type_invariant(self);
        }
        let n = chars_of(name);
        match self.position(n.as_slice()) {
            Some(i) => {
                proof {
                    self.lemma_view_at(i as int);
                }
                true
            },
            None => false,
        }
    }

    /// Whether the policy declared no directives at all.
    pub fn is_empty(&self) -> (r: bool)
        ensures
            r == (self@ == DirectiveMap::empty()),
    {
        proof {
            use_type_invariant(self);
        }
        if self.names.len() == 0 {
            assert(self@ =~= DirectiveMap::empty());
            true
        } else {
            proof {
                self.lemma_view_at(0);
            }
            false
        }
    }

    /// Directives whose source list contains a given token, in increasing
    /// order of name.
    pub fn directives_containing(&self, token: &str) -> (r: Vec<&str>)
        ensures
            r@.map_values(|p: &str| p@) == in_order(csp_containing(self@, token@)),
            forall|i: int, j: int| 0 <= i < j < r@.len() ==> seq_lt(r@[i]@, r@[j]@),
            forall|k: Seq<char>|
                (exists|i: int| 0 <= i < r@.len() && r@[i]@ == k) <==> (self@.contains_key(k)
                    && self@[k].contains(token@)),
    {
        proof {
            use_type_invariant(self);
        }
        let t = chars_of(token);
        let mut r: Vec<&str> = Vec::new();
        let ghost mut idx: Seq<int> = Seq::empty();
        let mut i: usize = 0;
        while i < self.names.len()
            invariant
                self.wf(),
                i <= self.names@.len(),
                t@ == token@,
                idx.len() == r@.len(),
                forall|a: int| 0 <= a < idx.len() ==> 0 <= #[trigger] idx[a] < i,
                forall|a: int, b: int| 0 <= a < b < idx.len() ==> idx[a] < idx[b],
                forall|a: int|
                    0 <= a < idx.len() ==> r@[a]@ == self.names@[#[trigger] idx[a]]@
                        && strings(self.sources@[idx[a]]@).contains(token@),
                forall|j: int|
                    0 <= j < i && strings(self.sources@[j]@).contains(token@) ==> exists|a: int|
                        0 <= a < idx.len() && #[trigger] idx[a] == j,
            decreases self.names@.len() - i,
        {
            let list = self.sources[i].as_slice();
            let mut found = false;
            let mut k: usize = 0;
            while k < list.len()
                invariant
                    k <= list@.len(),
                    t@ == token@,
                    found <==> exists|m: int| 0 <= m < k && list@[m]@ == token@,
                decreases list@.len() - k,
            {
                let s = chars_of(list[k].as_str());
                if chars_eq(s.as_slice(), t.as_slice()) {
                    found = true;
                }
                k = k + 1;
            }
            proof {
                let sl = strings(list@);
                if found {
                    let m = choose|m: int| 0 <= m < list@.len() && list@[m]@ == token@;
                    assert(sl[m] == token@);
                }
                if sl.contains(token@) {
                    let m = choose|m: int| 0 <= m < sl.len() && sl[m] == token@;
                    assert(list@[m]@ == token@);
                }
            }
            let ghost old_idx = idx;
            if found {
                r.push(self.names[i].as_str());
                proof {
                    idx = idx.push(i as int);
                }
            }
            proof {
                assert forall|j: int|
                    0 <= j < i + 1 && strings(self.sources@[j]@).contains(token@) implies exists|a: int|
                    0 <= a < idx.len() && #[trigger] idx[a] == j by {
                    if j < i {
                        let a = choose|a: int| 0 <= a < old_idx.len() && #[trigger] old_idx[a] == j;
                        assert(idx[a] == j);
                    } else {
                        assert(idx[idx.len() - 1] == j);
                    }
                }
            }
            i = i + 1;
        }
        proof {
            assert forall|a: int, b: int| 0 <= a < b < r@.len() implies seq_lt(r@[a]@, r@[b]@) by {
                assert(idx[a] < idx[b]);
            }
            assert forall|k: Seq<char>|
                (exists|a: int| 0 <= a < r@.len() && r@[a]@ == k) <==> (self@.contains_key(k)
                    && self@[k].contains(token@)) by {
                if exists|a: int| 0 <= a < r@.len() && r@[a]@ == k {
                    let a = choose|a: int| 0 <= a < r@.len() && r@[a]@ == k;
                    self.lemma_view_at(idx[a]);
                }
                if self@.contains_key(k) && self@[k].contains(token@) {
                    let j = choose|j: int| 0 <= j < self.names@.len() && self.names@[j]@ == k;
                    self.lemma_view_at(j);
                    let a = choose|a: int| 0 <= a < idx.len() && #[trigger] idx[a] == j;
                    assert(r@[a]@ == k);
                }
            }
            let l = r@.map_values(|p: &str| p@);
            assert(l.to_set() =~= csp_containing(self@, token@)) by {
                assert forall|k: Seq<char>| l.to_set().contains(k) implies csp_containing(
                    self@,
                    token@,
                ).contains(k) by {
                    let a = choose|a: int| 0 <= a < l.len() && l[a] == k;
                    assert(r@[a]@ == k);
                }
                assert forall|k: Seq<char>| csp_containing(self@, token@).contains(k) implies l.to_set().contains(
                    k,
                ) by {
                    let a = choose|a: int| 0 <= a < r@.len() && r@[a]@ == k;
                    assert(l[a] == k);
                }
            }
            lemma_in_order(l, csp_containing(self@, token@));
        }
        r
    }

    /// The effective source list of a directive: its own when declared,
    /// otherwise that of the first directive in the specification's fallback
    /// list for it (for example `script-src-elem`, then `script-src`, then
    /// `default-src`); `default-src` for directives without a longer list.
    pub fn effective(&self, name: &str) -> (r: Option<&[String]>)
        ensures
            match r {
                Some(s) => csp_effective(self@, name@) == Some(strings(s@)),
                None => csp_effective(self@, name@) is None,
            },
    {
        let names = fallback_names(name);
        let ghost l = names@.map_values(|p: &str| p@);
        let mut i: usize = 0;
        assert(l.skip(0) =~= l);
        while i < names.len()
            invariant
                i <= names@.len(),
                l == names@.map_values(|p: &str| p@),
                fallback_list(name@) == l,
                first_declared(self@, l) == first_declared(self@, l.skip(i as int)),
            decreases names@.len() - i,
        {
            let ghost rest = l.skip(i as int);
            assert(rest[0] == l[i as int]);
            assert(rest.drop_first() =~= l.skip(i + 1));
            match self.directive(names[i]) {
                Some(s) => {
                    return Some(s);
                },
                None => {},
            }
            i = i + 1;
        }
        assert(l.skip(i as int).len() == 0);
        None
    }
}

/// Whether `name` is exactly the directive name `word`.
fn is_named(name: &str, word: &str) -> (r: bool)
    ensures
        r == (name@ == word@),
{
    let a = chars_of(name);
    let b = chars_of(word);
    chars_eq(a.as_slice(), b.as_slice())
}

/// The fallback list of a directive, itself first.
fn fallback_names(name: &str) -> (r: Vec<&str>)
    ensures
        fallback_list(name@) == r@.map_values(|p: &str| p@),
{
    let r: Vec<&str> = if is_named(name, "script-src-elem") || is_named(name, "script-src-attr") {
        vec![name, "script-src", "default-src"]
    } else if is_named(name, "style-src-elem") || is_named(name, "style-src-attr") {
        vec![name, "style-src", "default-src"]
    } else if is_named(name, "worker-src") {
        vec![name, "child-src", "script-src", "default-src"]
    } else if is_named(name, "frame-src") {
        vec![name, "child-src", "default-src"]
    } else if is_named(name, "default-src") {
        vec![name]
    } else {
        vec![name, "default-src"]
    };
    assert(fallback_list(name@) =~= r@.map_values(|p: &str| p@));
    r
}

impl Clone for Csp {
    fn clone(&self) -> (c: Self)
        ensures
            c@ == self@,
    {
        proof {
            use_type_invariant(self);
        }
        let names = clone_strings(self.names.as_slice());
        let sources = clone_string_lists(&self.sources);
        let c = Csp { names, sources };
        assert forall|k: Seq<char>| #[trigger] c@.contains_key(k) implies c@[k] == self@[k] by {
            let j = choose|j: int| 0 <= j < c.names@.len() && c.names@[j]@ == k;
            assert(c.sources@[j]@ == self.sources@[j]@);
        }
        assert(c@ =~= self@);
        c
    }
}

impl Default for Csp {
    fn default() -> (c: Self)
        ensures
            c@ == DirectiveMap::empty(),
    {
        let c = Csp { names: Vec::new(), sources: Vec::new() };
        assert(c@ =~= DirectiveMap::empty());
        c
    }
}

} // verus!
