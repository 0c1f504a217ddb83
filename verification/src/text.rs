//! Character-level helpers: what a piece of text is made of, and the few
//! operations on it that the rest of the library is written with.
use vstd::prelude::*;
use vstd::string::StrSliceExecFns;
use vstd::utf8::encode_utf8;

verus! {

broadcast use vstd::string::group_string_axioms;

// ---------------------------------------------------------------------
// Classes of characters
// ---------------------------------------------------------------------

/// The characters Unicode calls White_Space, which is what `str::trim` and
/// `split_whitespace` take away.
pub open spec fn is_space(c: char) -> bool {
    ||| ('\u{9}' <= c && c <= '\u{d}')
    ||| c == ' '
    ||| c == '\u{85}'
    ||| c == '\u{a0}'
    ||| c == '\u{1680}'
    ||| ('\u{2000}' <= c && c <= '\u{200a}')
    ||| c == '\u{2028}'
    ||| c == '\u{2029}'
    ||| c == '\u{202f}'
    ||| c == '\u{205f}'
    ||| c == '\u{3000}'
}

/// The control characters (general category Cc).
pub open spec fn is_control(c: char) -> bool {
    c <= '\u{1f}' || ('\u{7f}' <= c && c <= '\u{9f}')
}

pub open spec fn is_digit(c: char) -> bool {
    '0' <= c && c <= '9'
}

pub open spec fn is_upper(c: char) -> bool {
    'A' <= c && c <= 'Z'
}

pub open spec fn is_lower(c: char) -> bool {
    'a' <= c && c <= 'z'
}

pub open spec fn is_alphabetic(c: char) -> bool {
    is_upper(c) || is_lower(c)
}

pub open spec fn is_alphanumeric(c: char) -> bool {
    is_alphabetic(c) || is_digit(c)
}

/// ASCII lower case; every other character stays as it is.
pub open spec fn lower_char(c: char) -> char {
    if is_upper(c) {
        ((c as u32) + 32) as char
    } else {
        c
    }
}

/// ASCII upper case; every other character stays as it is.
pub open spec fn upper_char(c: char) -> char {
    if is_lower(c) {
        ((c as u32) - 32) as char
    } else {
        c
    }
}

pub open spec fn lower(s: Seq<char>) -> Seq<char> {
    s.map_values(|c: char| lower_char(c))
}

pub open spec fn upper(s: Seq<char>) -> Seq<char> {
    s.map_values(|c: char| upper_char(c))
}

pub fn space(c: char) -> (b: bool)
    ensures
        b == is_space(c),
{
    ('\u{9}' <= c && c <= '\u{d}') || c == ' ' || c == '\u{85}' || c == '\u{a0}' || c == '\u{1680}'
        || ('\u{2000}' <= c && c <= '\u{200a}') || c == '\u{2028}' || c == '\u{2029}' || c
        == '\u{202f}' || c == '\u{205f}' || c == '\u{3000}'
}

pub fn control(c: char) -> (b: bool)
    ensures
        b == is_control(c),
{
    c <= '\u{1f}' || ('\u{7f}' <= c && c <= '\u{9f}')
}

pub fn digit(c: char) -> (b: bool)
    ensures
        b == is_digit(c),
{
    '0' <= c && c <= '9'
}

pub fn alphanumeric(c: char) -> (b: bool)
    ensures
        b == is_alphanumeric(c),
{
    ('A' <= c && c <= 'Z') || ('a' <= c && c <= 'z') || ('0' <= c && c <= '9')
}

pub fn alphabetic(c: char) -> (b: bool)
    ensures
        b == is_alphabetic(c),
{
    ('A' <= c && c <= 'Z') || ('a' <= c && c <= 'z')
}

pub fn to_lower(c: char) -> (r: char)
    ensures
        r == lower_char(c),
{
    if 'A' <= c && c <= 'Z' {
        let n: u32 = c as u32 + 32;
        assert(0x41 <= n <= 0x7a);
        char_from(n)
    } else {
        c
    }
}

pub fn to_upper(c: char) -> (r: char)
    ensures
        r == upper_char(c),
{
    if 'a' <= c && c <= 'z' {
        let n: u32 = c as u32 - 32;
        char_from(n)
    } else {
        c
    }
}

/// The ASCII character with the given code.
fn char_from(n: u32) -> (c: char)
    requires
        n < 0x80,
    ensures
        c == n as char,
        c as u32 == n,
{
    let b: u8 = n as u8;
    b as char
}

// ---------------------------------------------------------------------
// Strings and character vectors
// ---------------------------------------------------------------------

/// A result of texts, by the views of its texts.
pub open spec fn text_result(r: Result<String, String>) -> Result<Seq<char>, Seq<char>> {
    match r {
        Ok(t) => Ok(t@),
        Err(e) => Err(e@),
    }
}

/// An optional string slice, by its view.
pub open spec fn opt_view(o: Option<&str>) -> Option<Seq<char>> {
    match o {
        Some(t) => Some(t@),
        None => None,
    }
}

/// Appends one character to a string.
#[verifier::external_body]
pub fn push_char(s: &mut String, c: char)
    ensures
        final(s)@ == old(s)@.push(c),
{
    s.push(c);
}

/// The characters of a string slice, in order.
pub fn chars_of(s: &str) -> (v: Vec<char>)
    ensures
        v@ == s@,
{
    let mut v: Vec<char> = Vec::new();
    for c in it: s.chars()
        invariant
            v@ == it.seq().take(it.index() as int),
            it.seq() == s@,
    {
        v.push(c);
    }
    v
}

/// A string holding exactly the given characters.
pub fn string_of(v: &[char]) -> (s: String)
    ensures
        s@ == v@,
{
    let mut s = String::new();
    let mut i: usize = 0;
    while i < v.len()
        invariant
            i <= v.len(),
            s@ == v@.take(i as int),
        decreases v.len() - i,
    {
        push_char(&mut s, v[i]);
        assert(v@.take(i as int).push(v@[i as int]) =~= v@.take(i + 1));
        i += 1;
    }
    assert(v@.take(v.len() as int) =~= v@);
    s
}

/// An owned copy of a string slice.
pub fn owned(s: &str) -> (r: String)
    ensures
        r@ == s@,
{
    let v = chars_of(s);
    string_of(&v)
}

/// Whether two character sequences are the same.
pub fn same(a: &[char], b: &[char]) -> (r: bool)
    ensures
        r == (a@ == b@),
{
    if a.len() != b.len() {
        return false;
    }
    let mut i: usize = 0;
    while i < a.len()
        invariant
            i <= a.len(),
            a.len() == b.len(),
            forall|j: int| 0 <= j < i ==> a@[j] == b@[j],
        decreases a.len() - i,
    {
        if a[i] != b[i] {
            return false;
        }
        i += 1;
    }
    assert(a@ =~= b@);
    true
}

/// Whether a string slice is the given text.
pub fn is(s: &str, text: &str) -> (r: bool)
    ensures
        r == (s@ == text@),
{
    let a = chars_of(s);
    let b = chars_of(text);
    same(&a, &b)
}

/// Whether `v` has `p` at position `at`.
pub fn has_at(v: &[char], at: usize, p: &[char]) -> (r: bool)
    ensures
        r == (at + p@.len() <= v@.len() && v@.subrange(at as int, at + p@.len()) == p@),
{
    if p.len() > v.len() || at > v.len() - p.len() {
        return false;
    }
    let mut i: usize = 0;
    while i < p.len()
        invariant
            i <= p.len(),
            at + p.len() <= v.len(),
            forall|j: int| 0 <= j < i ==> v@[at + j] == p@[j],
        decreases p.len() - i,
    {
        if v[at + i] != p[i] {
            assert(v@.subrange(at as int, at + p@.len())[i as int] != p@[i as int]);
            return false;
        }
        i += 1;
    }
    assert(v@.subrange(at as int, at + p@.len()) =~= p@);
    true
}

/// Whether `v` starts with `p`.
pub fn starts(v: &[char], p: &[char]) -> (r: bool)
    ensures
        r == p@.is_prefix_of(v@),
{
    let r = has_at(v, 0, p);
    proof {
        if r {
            assert(v@.subrange(0, p@.len() as int) =~= v@.take(p@.len() as int));
        }
        if p@.is_prefix_of(v@) {
            assert(v@.subrange(0, p@.len() as int) =~= p@);
        }
    }
    r
}

/// The characters of `v` from `from` up to `to`.
pub fn slice(v: &[char], from: usize, to: usize) -> (r: Vec<char>)
    requires
        from <= to <= v@.len(),
    ensures
        r@ == v@.subrange(from as int, to as int),
{
    let mut r: Vec<char> = Vec::new();
    let mut i = from;
    while i < to
        invariant
            from <= i <= to,
            to <= v.len(),
            r@ == v@.subrange(from as int, i as int),
        decreases to - i,
    {
        r.push(v[i]);
        assert(v@.subrange(from as int, i as int).push(v@[i as int]) =~= v@.subrange(
            from as int,
            i + 1,
        ));
        i += 1;
    }
    r
}

/// Appends the characters of `w` to `v`.
pub fn extend(v: &mut Vec<char>, w: &[char])
    ensures
        final(v)@ == old(v)@ + w@,
{
    let mut i: usize = 0;
    while i < w.len()
        invariant
            i <= w.len(),
            v@ == old(v)@ + w@.take(i as int),
        decreases w.len() - i,
    {
        v.push(w[i]);
        assert(old(v)@ + w@.take(i as int).push(w@[i as int]) =~= old(v)@ + w@.take(i + 1));
        i += 1;
    }
    assert(w@.take(w.len() as int) =~= w@);
}

/// Appends the characters of a string slice to `v`.
pub fn extend_str(v: &mut Vec<char>, s: &str)
    ensures
        final(v)@ == old(v)@ + s@,
{
    let w = chars_of(s);
    extend(v, &w);
}

/// Whether the character occurs in `v`.
pub fn has_char(v: &[char], c: char) -> (r: bool)
    ensures
        r == v@.contains(c),
{
    let mut i: usize = 0;
    while i < v.len()
        invariant
            i <= v.len(),
            forall|j: int| 0 <= j < i ==> v@[j] != c,
        decreases v.len() - i,
    {
        if v[i] == c {
            assert(v@[i as int] == c);
            return true;
        }
        i += 1;
    }
    false
}

/// What a sequence with one more item at the end contains.
pub proof fn lemma_push_contains<A>(s: Seq<A>, x: A, y: A)
    ensures
        s.push(x).contains(y) == (s.contains(y) || x == y),
{
    if s.contains(y) {
        let q = choose|q: int| 0 <= q < s.len() && s[q] == y;
        assert(s.push(x)[q] == y);
    }
    if x == y {
        assert(s.push(x)[s.len() as int] == y);
    }
    if s.push(x).contains(y) {
        let q = choose|q: int| 0 <= q < s.push(x).len() && s.push(x)[q] == y;
        if q < s.len() {
            assert(s[q] == y);
        }
    }
}

// ---------------------------------------------------------------------
// Trimming
// ---------------------------------------------------------------------

/// The text without its leading white space.
pub open spec fn trim_start(s: Seq<char>) -> Seq<char>
    decreases s.len(),
{
    if s.len() > 0 && is_space(s[0]) {
        trim_start(s.drop_first())
    } else {
        s
    }
}

/// The text without its trailing white space.
pub open spec fn trim_end(s: Seq<char>) -> Seq<char>
    decreases s.len(),
{
    if s.len() > 0 && is_space(s.last()) {
        trim_end(s.drop_last())
    } else {
        s
    }
}

/// The text without white space at either end, as `str::trim` has it.
pub open spec fn trim(s: Seq<char>) -> Seq<char> {
    trim_end(trim_start(s))
}

pub proof fn lemma_trim_start(s: Seq<char>, a: int)
    requires
        0 <= a <= s.len(),
        forall|i: int| 0 <= i < a ==> is_space(#[trigger] s[i]),
        a == s.len() || !is_space(s[a]),
    ensures
        trim_start(s) == s.skip(a),
    decreases a,
{
    if a == 0 {
        assert(s.skip(0) =~= s);
    } else {
        assert(is_space(s[0]));
        let t = s.drop_first();
        assert forall|i: int| 0 <= i < a - 1 implies is_space(#[trigger] t[i]) by {
            assert(t[i] == s[i + 1]);
        }
        lemma_trim_start(t, a - 1);
        assert(t.skip(a - 1) =~= s.skip(a));
    }
}

pub proof fn lemma_trim_end(s: Seq<char>, b: int)
    requires
        0 <= b <= s.len(),
        forall|i: int| b <= i < s.len() ==> is_space(#[trigger] s[i]),
        b == 0 || !is_space(s[b - 1]),
    ensures
        trim_end(s) == s.take(b),
    decreases s.len() - b,
{
    if b == s.len() {
        assert(s.take(b) =~= s);
    } else {
        assert(is_space(s.last()));
        let t = s.drop_last();
        assert forall|i: int| b <= i < t.len() implies is_space(#[trigger] t[i]) by {
            assert(t[i] == s[i]);
        }
        lemma_trim_end(t, b);
        assert(t.take(b) =~= s.take(b));
    }
}

/// Where the text starts and ends once the white space around it is gone.
pub fn trim_bounds(v: &[char]) -> (r: (usize, usize))
    ensures
        r.0 <= r.1 <= v@.len(),
        v@.subrange(r.0 as int, r.1 as int) == trim(v@),
        trim_start(v@) == v@.skip(r.0 as int),
{
    let mut a: usize = 0;
    while a < v.len() && space(v[a])
        invariant
            a <= v.len(),
            forall|i: int| 0 <= i < a ==> is_space(#[trigger] v@[i]),
        decreases v.len() - a,
    {
        a += 1;
    }
    proof {
        lemma_trim_start(v@, a as int);
    }
    let mut b: usize = v.len();
    while b > a && space(v[b - 1])
        invariant
            a <= b <= v.len(),
            forall|i: int| b <= i < v.len() ==> is_space(#[trigger] v@[i]),
        decreases b,
    {
        b -= 1;
    }
    proof {
        let t = v@.skip(a as int);
        let k = b - a;
        assert forall|i: int| k <= i < t.len() implies is_space(#[trigger] t[i]) by {
            assert(t[i] == v@[i + a]);
        }
        if k > 0 {
            assert(t[k - 1] == v@[b - 1]);
        }
        lemma_trim_end(t, k as int);
        assert(t.take(k as int) =~= v@.subrange(a as int, b as int));
    }
    (a, b)
}

/// The text without white space at either end.
pub fn trimmed(v: &[char]) -> (r: Vec<char>)
    ensures
        r@ == trim(v@),
{
    let (a, b) = trim_bounds(v);
    slice(v, a, b)
}

/// The characters of a string slice without white space at either end.
pub fn trimmed_str(s: &str) -> (r: Vec<char>)
    ensures
        r@ == trim(s@),
{
    let v = chars_of(s);
    trimmed(&v)
}

/// The text in ASCII lower case.
pub fn lowered(v: &[char]) -> (r: Vec<char>)
    ensures
        r@ == lower(v@),
{
    let mut r: Vec<char> = Vec::new();
    let mut i: usize = 0;
    while i < v.len()
        invariant
            i <= v.len(),
            r@ == lower(v@.take(i as int)),
        decreases v.len() - i,
    {
        r.push(to_lower(v[i]));
        assert(lower(v@.take(i as int)).push(lower_char(v@[i as int])) =~= lower(
            v@.take(i + 1),
        ));
        i += 1;
    }
    assert(v@.take(v.len() as int) =~= v@);
    r
}

/// The text in ASCII upper case.
pub fn uppered(v: &[char]) -> (r: Vec<char>)
    ensures
        r@ == upper(v@),
{
    let mut r: Vec<char> = Vec::new();
    let mut i: usize = 0;
    while i < v.len()
        invariant
            i <= v.len(),
            r@ == upper(v@.take(i as int)),
        decreases v.len() - i,
    {
        r.push(to_upper(v[i]));
        assert(upper(v@.take(i as int)).push(upper_char(v@[i as int])) =~= upper(
            v@.take(i + 1),
        ));
        i += 1;
    }
    assert(v@.take(v.len() as int) =~= v@);
    r
}


// ---------------------------------------------------------------------
// Splitting
// ---------------------------------------------------------------------

/// The index of the first occurrence of `c` in `s`, if any.
pub open spec fn find(s: Seq<char>, c: char) -> Option<int>
    decreases s.len(),
{
    if s.len() == 0 {
        None
    } else if s[0] == c {
        Some(0)
    } else {
        match find(s.drop_first(), c) {
            Some(i) => Some(i + 1),
            None => None,
        }
    }
}

pub proof fn lemma_find(s: Seq<char>, c: char)
    ensures
        find(s, c) matches Some(i) ==> 0 <= i < s.len() && s[i] == c && forall|j: int|
            0 <= j < i ==> s[j] != c,
        find(s, c) is None ==> forall|j: int| 0 <= j < s.len() ==> s[j] != c,
    decreases s.len(),
{
    if s.len() > 0 {
        lemma_find(s.drop_first(), c);
        if s[0] != c {
            assert forall|j: int| 0 < j < s.len() implies s[j] == s.drop_first()[j - 1] by {}
        }
    }
}

/// The pieces between the separators, as `str::split` gives them: one
/// more piece than there are separators, some of them possibly empty.
pub open spec fn split(s: Seq<char>, sep: char) -> Seq<Seq<char>>
    decreases s.len(),
{
    match find(s, sep) {
        None => seq![s],
        Some(i) => {
            proof {
                lemma_find(s, sep);
            }
            seq![s.take(i)] + split(s.skip(i + 1), sep)
        },
    }
}

/// The pieces of `v` between the separators.
pub fn split_chars(v: &[char], sep: char) -> (r: Vec<Vec<char>>)
    ensures
        r@.map_values(|p: Vec<char>| p@) == split(v@, sep),
{
    let mut r: Vec<Vec<char>> = Vec::new();
    let mut start: usize = 0;
    let mut i: usize = 0;
    assert(v@.skip(0) =~= v@);
    assert(r@.map_values(|p: Vec<char>| p@) =~= Seq::<Seq<char>>::empty());
    while i < v.len()
        invariant
            start <= i <= v.len(),
            forall|j: int| start <= j < i ==> v@[j] != sep,
            r@.map_values(|p: Vec<char>| p@) + split(v@.skip(start as int), sep) == split(
                v@,
                sep,
            ),
        decreases v.len() - i,
    {
        if v[i] == sep {
            let piece = slice(v, start, i);
            proof {
                let t = v@.skip(start as int);
                lemma_find(t, sep);
                assert(t[i - start] == sep);
                assert forall|j: int| 0 <= j < i - start implies t[j] != sep by {
                    assert(t[j] == v@[j + start]);
                }
                let k = find(t, sep)->0;
                assert(k == i - start) by {
                    if k < i - start {
                        assert(t[k] == v@[k + start]);
                    }
                }
                assert(t.take(k) =~= piece@);
                assert(t.skip(k + 1) =~= v@.skip(i + 1));
                let old_r = r@.map_values(|p: Vec<char>| p@);
                assert(old_r.push(piece@) + split(v@.skip(i + 1), sep) =~= old_r + split(t, sep));
            }
            let ghost old_r = r@;
            r.push(piece);
            assert(r@.map_values(|p: Vec<char>| p@) =~= old_r.map_values(|p: Vec<char>| p@).push(
                v@.subrange(start as int, i as int),
            ));
            start = i + 1;
        }
        i += 1;
    }
    let piece = slice(v, start, v.len());
    proof {
        let t = v@.skip(start as int);
        lemma_find(t, sep);
        assert forall|j: int| 0 <= j < t.len() implies t[j] != sep by {
            assert(t[j] == v@[j + start]);
        }
        assert(find(t, sep) is None);
        assert(piece@ =~= t);
    }
    let ghost old_r = r@;
    r.push(piece);
    assert(r@.map_values(|p: Vec<char>| p@) =~= old_r.map_values(|p: Vec<char>| p@).push(
        piece@,
    ));
    r
}

/// The first run of characters that are not white space, as the first item
/// of `split_whitespace` gives it.
pub open spec fn first_word(s: Seq<char>) -> Option<Seq<char>> {
    let t = trim_start(s);
    if t.len() == 0 {
        None
    } else {
        Some(t.take(word_end(t)))
    }
}

/// Where the first white space of `t` is, or its length.
pub open spec fn word_end(t: Seq<char>) -> int
    decreases t.len(),
{
    if t.len() == 0 || is_space(t[0]) {
        0
    } else {
        1 + word_end(t.drop_first())
    }
}

proof fn lemma_word_end(t: Seq<char>, e: int)
    requires
        0 <= e <= t.len(),
        forall|i: int| 0 <= i < e ==> !is_space(#[trigger] t[i]),
        e == t.len() || is_space(t[e]),
    ensures
        word_end(t) == e,
    decreases e,
{
    if e > 0 {
        let u = t.drop_first();
        assert forall|i: int| 0 <= i < e - 1 implies !is_space(#[trigger] u[i]) by {
            assert(u[i] == t[i + 1]);
        }
        lemma_word_end(u, e - 1);
    }
}

/// The first word of `v`, if it has one.
pub fn first_word_chars(v: &[char]) -> (r: Option<Vec<char>>)
    ensures
        r matches Some(w) ==> first_word(v@) == Some(w@),
        r is None ==> first_word(v@) is None,
{
    let (a, _) = trim_bounds(v);
    if a == v.len() {
        return None;
    }
    let mut e = a;
    while e < v.len() && !space(v[e])
        invariant
            a <= e <= v.len(),
            forall|i: int| a <= i < e ==> !is_space(#[trigger] v@[i]),
        decreases v.len() - e,
    {
        e += 1;
    }
    proof {
        let t = v@.skip(a as int);
        assert forall|i: int| 0 <= i < e - a implies !is_space(#[trigger] t[i]) by {
            assert(t[i] == v@[i + a]);
        }
        if e < v.len() {
            assert(t[e - a] == v@[e as int]);
        }
        lemma_word_end(t, e - a);
        assert(t.take(e - a) =~= v@.subrange(a as int, e as int));
    }
    Some(slice(v, a, e))
}

// ---------------------------------------------------------------------
// Numbers written in decimal
// ---------------------------------------------------------------------

pub open spec fn digit_value(c: char) -> nat {
    ((c as u32) - ('0' as u32)) as nat
}

pub open spec fn digit_char(n: nat) -> char {
    ((n + ('0' as u32)) as u32) as char
}

/// The value of a string of decimal digits.
pub open spec fn digits_value(s: Seq<char>) -> nat
    decreases s.len(),
{
    if s.len() == 0 {
        0
    } else {
        digits_value(s.drop_last()) * 10 + digit_value(s.last())
    }
}

pub open spec fn all_digits(s: Seq<char>) -> bool {
    forall|i: int| 0 <= i < s.len() ==> is_digit(#[trigger] s[i])
}

/// What `str::parse::<u16>` makes of the text: an optional `+`, then at
/// least one digit, and a value that fits.
pub open spec fn parse_u16(s: Seq<char>) -> Option<u16> {
    let d = if s.len() > 0 && s[0] == '+' {
        s.drop_first()
    } else {
        s
    };
    if d.len() > 0 && all_digits(d) && digits_value(d) <= 65535 {
        Some(digits_value(d) as u16)
    } else {
        None
    }
}

/// What `str::parse::<u64>` or `str::parse::<usize>` makes of the text,
/// given the largest value that fits.
pub open spec fn parse_unsigned(s: Seq<char>, max: nat) -> Option<nat> {
    let d = if s.len() > 0 && s[0] == '+' {
        s.drop_first()
    } else {
        s
    };
    if d.len() > 0 && all_digits(d) && digits_value(d) <= max {
        Some(digits_value(d))
    } else {
        None
    }
}

/// The value of the digits of `d`, or None when one is not a digit or the
/// value goes past `max`.
fn digits_upto(d: &[char], max: u64) -> (r: Option<u64>)
    requires
        max < 0x1_0000_0000,
    ensures
        r matches Some(n) ==> all_digits(d@) && n == digits_value(d@) && n <= max,
        r is None ==> !all_digits(d@) || digits_value(d@) > max,
{
    let mut acc: u64 = 0;
    let mut over = false;
    let mut i: usize = 0;
    while i < d.len()
        invariant
            i <= d.len(),
            max < 0x1_0000_0000,
            all_digits(d@.take(i as int)),
            !over ==> acc == digits_value(d@.take(i as int)) && acc <= max,
            over ==> digits_value(d@.take(i as int)) > max,
        decreases d.len() - i,
    {
        let c = d[i];
        if !digit(c) {
            assert(!is_digit(d@[i as int]));
            return None;
        }
        let ghost p = d@.take(i as int);
        assert(d@.take(i + 1).drop_last() =~= p);
        assert(d@.take(i + 1).last() == c);
        if !over {
            let next: u64 = acc * 10 + (c as u64 - '0' as u64);
            if next > max {
                over = true;
            } else {
                acc = next;
            }
        } else {
            assert(digits_value(d@.take(i + 1)) >= digits_value(p) * 10);
        }
        assert(all_digits(d@.take(i + 1))) by {
            assert forall|j: int| 0 <= j < i + 1 implies is_digit(#[trigger] d@.take(i + 1)[j]) by {
                if j < i {
                    assert(d@.take(i + 1)[j] == p[j]);
                }
            }
        }
        i += 1;
    }
    assert(d@.take(d.len() as int) =~= d@);
    if over {
        None
    } else {
        Some(acc)
    }
}

/// `str::parse` for an unsigned number no larger than `max`.
pub fn parse_number(s: &[char], max: u64) -> (r: Option<u64>)
    requires
        max < 0x1_0000_0000,
    ensures
        r matches Some(n) ==> parse_unsigned(s@, max as nat) == Some(n as nat),
        r is None ==> parse_unsigned(s@, max as nat) is None,
{
    let d = if s.len() > 0 && s[0] == '+' {
        slice(s, 1, s.len())
    } else {
        slice(s, 0, s.len())
    };
    assert(s.len() > 0 && s@[0] == '+' ==> d@ =~= s@.drop_first());
    assert(!(s.len() > 0 && s@[0] == '+') ==> d@ =~= s@);
    if d.len() == 0 {
        return None;
    }
    digits_upto(&d, max)
}

/// `str::parse::<u16>`.
pub fn parse_u16_chars(s: &[char]) -> (r: Option<u16>)
    ensures
        r == parse_u16(s@),
{
    match parse_number(s, 65535) {
        Some(n) => Some(n as u16),
        None => None,
    }
}

/// The decimal digits of a number, as `{}` writes it.
pub open spec fn decimal(n: nat) -> Seq<char>
    decreases n,
{
    if n < 10 {
        seq![digit_char(n)]
    } else {
        decimal(n / 10).push(digit_char(n % 10))
    }
}

/// The decimal digits of a number are digits, at least one of them, and
/// they read back as the number.
pub proof fn lemma_decimal(n: nat)
    ensures
        decimal(n).len() > 0,
        all_digits(decimal(n)),
        digits_value(decimal(n)) == n,
    decreases n,
{
    if n >= 10 {
        lemma_decimal(n / 10);
        let d = decimal(n / 10);
        let e = d.push(digit_char(n % 10));
        assert(e.drop_last() =~= d);
        assert forall|i: int| 0 <= i < e.len() implies is_digit(#[trigger] e[i]) by {
            if i < d.len() {
                assert(e[i] == d[i]);
            }
        }
        assert(digits_value(e) == digits_value(d) * 10 + digit_value(digit_char(n % 10)));
        assert(digit_value(digit_char(n % 10)) == n % 10);
        assert((n / 10) * 10 + n % 10 == n) by (nonlinear_arith);
        assert(decimal(n) == e);
        assert(digits_value(e) == n);
    } else {
        assert(decimal(n).drop_last() =~= Seq::<char>::empty());
        assert(digits_value(Seq::<char>::empty()) == 0);
        assert(digit_value(digit_char(n)) == n);
        assert(digits_value(decimal(n)) == n);
    }
}

/// Two numbers with the same decimal digits are the same number.
pub proof fn lemma_decimal_injective(a: nat, b: nat)
    requires
        decimal(a) == decimal(b),
    ensures
        a == b,
{
    lemma_decimal(a);
    lemma_decimal(b);
}

/// Appends the decimal digits of `n` to `out`.
pub fn push_decimal(out: &mut Vec<char>, n: u64)
    ensures
        final(out)@ == old(out)@ + decimal(n as nat),
    decreases n,
{
    if n >= 10 {
        push_decimal(out, n / 10);
    }
    let d: u32 = (n % 10) as u32 + 48;
    let c = char_from(d);
    out.push(c);
    proof {
        if n >= 10 {
            assert(old(out)@ + decimal(n as nat / 10).push(c) =~= old(out)@ + decimal(n as nat));
        } else {
            assert(old(out)@.push(c) =~= old(out)@ + decimal(n as nat));
        }
    }
}


// ---------------------------------------------------------------------
// Order of texts
// ---------------------------------------------------------------------

/// The order `String` has: character by character, a prefix first.
pub open spec fn text_less(a: Seq<char>, b: Seq<char>) -> bool
    decreases a.len(),
{
    if a.len() == 0 {
        b.len() > 0
    } else if b.len() == 0 {
        false
    } else if a[0] != b[0] {
        a[0] < b[0]
    } else {
        text_less(a.drop_first(), b.drop_first())
    }
}

pub proof fn lemma_text_less_irreflexive(a: Seq<char>)
    ensures
        !text_less(a, a),
    decreases a.len(),
{
    if a.len() > 0 {
        lemma_text_less_irreflexive(a.drop_first());
    }
}

pub proof fn lemma_text_less_transitive(a: Seq<char>, b: Seq<char>, c: Seq<char>)
    requires
        text_less(a, b),
        text_less(b, c),
    ensures
        text_less(a, c),
    decreases a.len(),
{
    if a.len() > 0 && b.len() > 0 && c.len() > 0 && a[0] == b[0] && b[0] == c[0] {
        lemma_text_less_transitive(a.drop_first(), b.drop_first(), c.drop_first());
    }
}

pub proof fn lemma_text_less_total(a: Seq<char>, b: Seq<char>)
    ensures
        a == b || text_less(a, b) || text_less(b, a),
    decreases a.len(),
{
    if a.len() > 0 && b.len() > 0 && a[0] == b[0] {
        lemma_text_less_total(a.drop_first(), b.drop_first());
        if a.drop_first() == b.drop_first() {
            assert(a =~= seq![a[0]] + a.drop_first());
            assert(b =~= seq![b[0]] + b.drop_first());
        }
    } else if a.len() == 0 && b.len() == 0 {
        assert(a =~= b);
    }
}

/// Whether `a` comes before `b`.
pub fn less(a: &[char], b: &[char]) -> (r: bool)
    ensures
        r == text_less(a@, b@),
{
    let mut i: usize = 0;
    assert(a@.skip(0) =~= a@);
    assert(b@.skip(0) =~= b@);
    while i < a.len() && i < b.len()
        invariant
            i <= a.len(),
            i <= b.len(),
            text_less(a@, b@) == text_less(a@.skip(i as int), b@.skip(i as int)),
        decreases a.len() - i,
    {
        assert(a@.skip(i as int)[0] == a@[i as int]);
        assert(b@.skip(i as int)[0] == b@[i as int]);
        if a[i] != b[i] {
            return a[i] < b[i];
        }
        assert(a@.skip(i as int).drop_first() =~= a@.skip(i + 1));
        assert(b@.skip(i as int).drop_first() =~= b@.skip(i + 1));
        i += 1;
    }
    i < b.len() && i == a.len()
}

/// Strictly increasing in the order of texts.
pub open spec fn sorted_texts(s: Seq<Seq<char>>) -> bool {
    forall|i: int, j: int| 0 <= i < j < s.len() ==> text_less(s[i], s[j])
}

pub proof fn lemma_sorted_texts_distinct(s: Seq<Seq<char>>)
    requires
        sorted_texts(s),
    ensures
        s.no_duplicates(),
{
    assert forall|a: int, b: int| 0 <= a < s.len() && 0 <= b < s.len() && a != b implies s[a] != s[b] by {
        if a < b {
            lemma_text_less_irreflexive(s[a]);
        } else {
            lemma_text_less_irreflexive(s[b]);
        }
    }
}

pub open spec fn text_views(v: Seq<String>) -> Seq<Seq<char>> {
    v.map_values(|s: String| s@)
}

/// The texts, each once, in increasing order.
pub fn sort_texts(v: Vec<String>) -> (r: Vec<String>)
    requires
        text_views(v@).no_duplicates(),
    ensures
        sorted_texts(text_views(r@)),
        text_views(r@).no_duplicates(),
        r@.len() == v@.len(),
        forall|k: Seq<char>| text_views(r@).contains(k) <==> text_views(v@).contains(k),
{
    let mut r: Vec<String> = Vec::new();
    let mut i: usize = 0;
    while i < v.len()
        invariant
            i <= v.len(),
            text_views(v@).no_duplicates(),
            sorted_texts(text_views(r@)),
            r@.len() == i,
            forall|k: Seq<char>| text_views(r@).contains(k) <==> text_views(v@).take(
                i as int,
            ).contains(k),
        decreases v.len() - i,
    {
        let x = v[i].clone();
        let xv = chars_of(x.as_str());
        let ghost rs = text_views(r@);
        let mut p: usize = 0;
        while p < r.len()
            invariant
                p <= r.len(),
                rs == text_views(r@),
                xv@ == x@,
                forall|j: int| 0 <= j < p ==> text_less(rs[j], x@),
            ensures
                p <= r.len(),
                forall|j: int| 0 <= j < p ==> text_less(rs[j], x@),
                p < r.len() ==> !text_less(rs[p as int], x@),
            decreases r.len() - p,
        {
            let rv = chars_of(r[p].as_str());
            if !less(&rv, &xv) {
                break;
            }
            p += 1;
        }
        proof {
            let vs = text_views(v@);
            assert(vs[i as int] == x@);
            assert(!rs.contains(x@)) by {
                if rs.contains(x@) {
                    let j = choose|j: int| 0 <= j < rs.len() && rs[j] == x@;
                    assert(vs.take(i as int).contains(x@));
                    let q = choose|q: int| 0 <= q < i && vs.take(i as int)[q] == x@;
                    assert(vs[q] == vs[i as int]);
                }
            }
            if p < r.len() {
                assert(rs[p as int] != x@) by {
                    assert(rs.contains(rs[p as int]));
                }
                lemma_text_less_total(rs[p as int], x@);
                assert(text_less(x@, rs[p as int]));
            }
        }
        r.insert(p, x);
        proof {
            let vs = text_views(v@);
            let ns = text_views(r@);
            assert(ns =~= rs.insert(p as int, x@));
            assert forall|a: int, b: int| 0 <= a < b < ns.len() implies text_less(ns[a], ns[b]) by {
                if b < p {
                } else if a < p && b == p {
                } else if a < p && b > p {
                    assert(ns[b] == rs[b - 1]);
                    assert(text_less(rs[a], x@));
                    if b - 1 > p {
                        assert(text_less(x@, rs[p as int]));
                        assert(text_less(rs[p as int], rs[b - 1]));
                        lemma_text_less_transitive(x@, rs[p as int], rs[b - 1]);
                    }
                    lemma_text_less_transitive(rs[a], x@, rs[b - 1]);
                } else if a == p {
                    assert(ns[b] == rs[b - 1]);
                    if b - 1 > p {
                        assert(text_less(rs[p as int], rs[b - 1]));
                        lemma_text_less_transitive(x@, rs[p as int], rs[b - 1]);
                    }
                } else {
                    assert(ns[a] == rs[a - 1]);
                    assert(ns[b] == rs[b - 1]);
                }
            }
            assert(vs.take(i + 1) =~= vs.take(i as int).push(x@));
            assert forall|k: Seq<char>| ns.contains(k) <==> vs.take(i + 1).contains(k) by {
                if ns.contains(k) {
                    let q = choose|q: int| 0 <= q < ns.len() && ns[q] == k;
                    if q == p {
                        assert(vs.take(i + 1)[i as int] == k);
                    } else {
                        if q < p {
                            assert(rs[q] == k);
                        } else {
                            assert(rs[q - 1] == k);
                        }
                        assert(rs.contains(k));
                        assert(vs.take(i as int).contains(k));
                        let w = choose|w: int| 0 <= w < i && #[trigger] vs.take(i as int)[w] == k;
                        assert(vs.take(i + 1)[w] == k);
                    }
                }
                if vs.take(i + 1).contains(k) {
                    if k == x@ {
                        assert(ns[p as int] == k);
                    } else {
                        assert(vs.take(i as int).contains(k)) by {
                            let q = choose|q: int| 0 <= q < i + 1 && #[trigger] vs.take(i + 1)[q] == k;
                            assert(vs.take(i as int)[q] == k);
                        }
                        assert(rs.contains(k));
                        let q = choose|q: int| 0 <= q < rs.len() && rs[q] == k;
                        if q < p {
                            assert(ns[q] == k);
                        } else {
                            assert(ns[q + 1] == k);
                        }
                    }
                }
            }
        }
        i += 1;
    }
    proof {
        assert(text_views(v@).take(v.len() as int) =~= text_views(v@));
        let ns = text_views(r@);
        assert forall|a: int, b: int| 0 <= a < ns.len() && 0 <= b < ns.len() && a != b implies ns[a]
            != ns[b] by {
            if a < b {
                lemma_text_less_irreflexive(ns[a]);
            } else {
                lemma_text_less_irreflexive(ns[b]);
            }
        }
    }
    r
}


// ---------------------------------------------------------------------
// Length in bytes, and slices of string slices
// ---------------------------------------------------------------------

/// How many bytes the text takes in UTF-8, which is what `str::len` counts.
pub open spec fn byte_len(s: Seq<char>) -> nat {
    encode_utf8(s).len()
}

/// Whether every character is ASCII.
pub open spec fn all_ascii(s: Seq<char>) -> bool {
    forall|i: int| 0 <= i < s.len() ==> (#[trigger] s[i] as u32) < 0x80
}

/// Text made of ASCII takes one byte a character.
pub proof fn lemma_ascii_byte_len(s: Seq<char>)
    requires
        all_ascii(s),
    ensures
        byte_len(s) == s.len(),
    decreases s.len(),
{
    if s.len() > 0 {
        let t = s.drop_first();
        assert forall|i: int| 0 <= i < t.len() implies (#[trigger] t[i] as u32) < 0x80 by {
            assert(t[i] == s[i + 1]);
        }
        lemma_ascii_byte_len(t);
        assert((s[0] as u32) < 0x80);
    }
}

/// `str::len`: the length in bytes.
pub fn byte_length(s: &str) -> (n: usize)
    ensures
        n == byte_len(s@),
{
    let b = s.as_bytes();
    b.len()
}

/// The part of `s` from character `from` up to character `to`.
pub fn sub_str<'a>(s: &'a str, from: usize, to: usize) -> (r: &'a str)
    requires
        from <= to <= s@.len(),
    ensures
        r@ == s@.subrange(from as int, to as int),
{
    s.substring_char(from, to)
}

/// `str::trim`.
pub fn trim_str<'a>(s: &'a str) -> (r: &'a str)
    ensures
        r@ == trim(s@),
{
    let v = chars_of(s);
    let (a, b) = trim_bounds(&v);
    sub_str(s, a, b)
}

/// Whether a string slice holds the character.
pub fn str_has(s: &str, c: char) -> (r: bool)
    ensures
        r == s@.contains(c),
{
    let v = chars_of(s);
    has_char(&v, c)
}

/// Whether some character of the text is a control character.
pub open spec fn has_control(s: Seq<char>) -> bool {
    exists|i: int| 0 <= i < s.len() && is_control(#[trigger] s[i])
}

/// `s.chars().any(char::is_control)`.
pub fn any_control(s: &str) -> (r: bool)
    ensures
        r == has_control(s@),
{
    let v = chars_of(s);
    let mut i: usize = 0;
    while i < v.len()
        invariant
            i <= v.len(),
            v@ == s@,
            forall|j: int| 0 <= j < i ==> !is_control(#[trigger] v@[j]),
        decreases v.len() - i,
    {
        if control(v[i]) {
            assert(is_control(s@[i as int]));
            return true;
        }
        i += 1;
    }
    false
}

// ---------------------------------------------------------------------
// Replacing
// ---------------------------------------------------------------------

/// `str::replace`: each occurrence of `pat`, found from the left and not
/// overlapping the one before, gives way to `rep`.
pub open spec fn replace(s: Seq<char>, pat: Seq<char>, rep: Seq<char>) -> Seq<char>
    recommends
        pat.len() > 0,
    decreases s.len(),
{
    if pat.len() == 0 || s.len() < pat.len() {
        s
    } else if s.take(pat.len() as int) == pat {
        rep + replace(s.skip(pat.len() as int), pat, rep)
    } else {
        seq![s[0]] + replace(s.drop_first(), pat, rep)
    }
}

/// `v` with every occurrence of `pat` replaced by `rep`.
pub fn replaced(v: &[char], pat: &[char], rep: &[char]) -> (r: Vec<char>)
    requires
        pat@.len() > 0,
    ensures
        r@ == replace(v@, pat@, rep@),
{
    let mut out: Vec<char> = Vec::new();
    let mut i: usize = 0;
    assert(v@.skip(0) =~= v@);
    while i < v.len()
        invariant
            i <= v.len(),
            pat@.len() > 0,
            out@ + replace(v@.skip(i as int), pat@, rep@) == replace(v@, pat@, rep@),
        decreases v.len() - i,
    {
        let ghost t = v@.skip(i as int);
        if has_at(v, i, pat) {
            assert(t.take(pat@.len() as int) =~= v@.subrange(i as int, i + pat@.len()));
            assert(t.skip(pat@.len() as int) =~= v@.skip(i + pat@.len()));
            let ghost before = out@;
            extend(&mut out, rep);
            assert(out@ + replace(v@.skip(i + pat@.len()), pat@, rep@) =~= before + replace(t, pat@, rep@)) by {
                assert(replace(t, pat@, rep@) == rep@ + replace(t.skip(pat@.len() as int), pat@, rep@));
            }
            i = i + pat.len();
        } else {
            proof {
                if t.len() >= pat@.len() {
                    assert(t.take(pat@.len() as int) =~= v@.subrange(i as int, i + pat@.len()));
                }
                assert(t.drop_first() =~= v@.skip(i + 1));
                assert(t[0] == v@[i as int]);
            }
            let ghost before = out@;
            out.push(v[i]);
            assert(out@ + replace(v@.skip(i + 1), pat@, rep@) =~= before + replace(t, pat@, rep@));
            i += 1;
        }
    }
    assert(v@.skip(i as int) =~= Seq::<char>::empty());
    assert(out@ + Seq::<char>::empty() =~= out@);
    out
}


// ---------------------------------------------------------------------
// Finding a text in a text
// ---------------------------------------------------------------------

/// Whether `needle` occurs in `hay`, as `str::contains` has it.
pub open spec fn has_text(hay: Seq<char>, needle: Seq<char>) -> bool {
    exists|i: int|
        0 <= i && i + needle.len() <= hay.len() && #[trigger] hay.subrange(i, i + needle.len())
            == needle
}

/// `str::contains` with a text to look for.
pub fn contains_text(hay: &str, needle: &str) -> (r: bool)
    ensures
        r == has_text(hay@, needle@),
{
    let h = chars_of(hay);
    let n = chars_of(needle);
    if n.len() > h.len() {
        return false;
    }
    let last = h.len() - n.len();
    let mut i: usize = 0;
    loop
        invariant
            n.len() <= h.len(),
            last == h.len() - n.len(),
            i <= last,
            h@ == hay@,
            n@ == needle@,
            forall|j: int| 0 <= j < i ==> #[trigger] hay@.subrange(j, j + needle@.len()) != needle@,
        ensures
            forall|j: int| 0 <= j <= last ==> #[trigger] hay@.subrange(j, j + needle@.len()) != needle@,
        decreases last - i,
    {
        if has_at(&h, i, &n) {
            assert(hay@.subrange(i as int, i + needle@.len()) == needle@);
            return true;
        }
        if i == last {
            break;
        }
        i += 1;
    }
    assert forall|j: int|
        0 <= j && j + needle@.len() <= hay@.len() implies #[trigger] hay@.subrange(
        j,
        j + needle@.len(),
    ) != needle@ by {}
    false
}

/// The characters that are not control characters, as many as `limit` of them.
pub open spec fn clean_spec(s: Seq<char>, limit: nat) -> Seq<char> {
    without_controls(s).take(
        if without_controls(s).len() < limit {
            without_controls(s).len() as int
        } else {
            limit as int
        },
    )
}

/// The text without its control characters.
pub open spec fn without_controls(s: Seq<char>) -> Seq<char>
    decreases s.len(),
{
    if s.len() == 0 {
        s
    } else if is_control(s.last()) {
        without_controls(s.drop_last())
    } else {
        without_controls(s.drop_last()).push(s.last())
    }
}

proof fn lemma_without_controls_grows(s: Seq<char>, k: int)
    requires
        0 <= k <= s.len(),
    ensures
        without_controls(s.take(k)).len() <= without_controls(s).len(),
        without_controls(s.take(k)).is_prefix_of(without_controls(s)),
    decreases s.len() - k,
{
    if k < s.len() {
        lemma_without_controls_grows(s, k + 1);
        assert(s.take(k + 1).drop_last() =~= s.take(k));
    } else {
        assert(s.take(k) =~= s);
    }
}

/// `text.chars().filter(|c| !c.is_control()).take(limit).collect()`.
pub fn clean(text: &str, limit: usize) -> (r: String)
    ensures
        r@ == clean_spec(text@, limit as nat),
{
    let v = chars_of(text);
    let mut out: Vec<char> = Vec::new();
    let mut i: usize = 0;
    while i < v.len() && out.len() < limit
        invariant
            i <= v.len(),
            v@ == text@,
            out@ == without_controls(v@.take(i as int)),
            out@.len() <= limit,
        decreases v.len() - i,
    {
        assert(v@.take(i + 1).drop_last() =~= v@.take(i as int));
        if !control(v[i]) {
            out.push(v[i]);
        }
        i += 1;
    }
    proof {
        lemma_without_controls_grows(v@, i as int);
        let w = without_controls(v@);
        if i == v.len() {
            assert(v@.take(i as int) =~= v@);
        }
        assert(out@ =~= w.take(out@.len() as int));
    }
    string_of(&out)
}

} // verus!
