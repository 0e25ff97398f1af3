//! Text as sequences of characters: comparing, searching, trimming, joining.

use vstd::prelude::*;

use crate::order::{seq_before, seq_before_irreflexive, seq_before_total, seq_before_transitive, Sortable};

verus! {

// ---- what the standard library adds to strings ------------------------------------

/// `String::push` appends one character.
pub assume_specification[ String::push ](s: &mut String, c: char)
    ensures
        final(s)@ == old(s)@.push(c),
;

/// What `str::to_lowercase` makes of a text.
pub uninterp spec fn lowercase(s: Seq<char>) -> Seq<char>;

/// `str::to_lowercase`: the text with every character in lower case, by Unicode.
#[verifier::external_body]
pub(crate) fn to_lowercase(s: &str) -> (r: String)
    ensures
        r@ == lowercase(s@),
{
    s.to_lowercase()
}

/// What the `Debug` format makes of a text: quotes around it, with escapes.
pub uninterp spec fn quoted(s: Seq<char>) -> Seq<char>;

/// The `Debug` format of a `str`, as `format!("{:?}", s)` gives it.
#[verifier::external_body]
pub(crate) fn quote(s: &str) -> (r: String)
    ensures
        r@ == quoted(s@),
{
    format!("{s:?}")
}

/// What `char::is_uppercase` says of a character.
pub uninterp spec fn uppercase(c: char) -> bool;

/// `char::is_uppercase`: has the character the Unicode property Uppercase?
#[verifier::external_body]
pub(crate) fn is_uppercase(c: char) -> (r: bool)
    ensures
        r == uppercase(c),
{
    c.is_uppercase()
}

// ---- characters ---------------------------------------------------------------------

/// The characters of a text.
pub fn chars_of(s: &str) -> (v: Vec<char>)
    ensures
        v@ == s@,
{
    let mut v: Vec<char> = Vec::new();
    for c in it: s.chars()
        invariant
            v@ == s@.take(it.index() as int),
            it.seq() == s@,
    {
        v.push(c);
        assert(v@ =~= s@.take(it.index() + 1));
    }
    assert(v@ =~= s@);
    v
}

/// The text with the given characters from place `from` up to place `to`.
pub fn text_between(v: &Vec<char>, from: usize, to: usize) -> (s: String)
    requires
        from <= to <= v.len(),
    ensures
        s@ == v@.subrange(from as int, to as int),
{
    let mut s = String::new();
    let mut i: usize = from;
    while i < to
        invariant
            from <= i <= to <= v.len(),
            s@ == v@.subrange(from as int, i as int),
        decreases to - i,
    {
        s.push(v[i]);
        i = i + 1;
        assert(s@ =~= v@.subrange(from as int, i as int));
    }
    s
}

/// The text with the given characters.
pub fn text_of(v: &Vec<char>) -> (s: String)
    ensures
        s@ == v@,
{
    let s = text_between(v, 0, v.len());
    assert(v@.subrange(0, v.len() as int) =~= v@);
    s
}

/// Are two texts equal?
pub fn same_text(a: &str, b: &str) -> (r: bool)
    ensures
        r == (a@ == b@),
{
    let x = a.as_bytes();
    let y = b.as_bytes();
    proof {
        vstd::utf8::encode_utf8_decode_utf8(a@);
        vstd::utf8::encode_utf8_decode_utf8(b@);
    }
    if x.len() != y.len() {
        return false;
    }
    let mut i: usize = 0;
    while i < x.len()
        invariant
            i <= x.len(),
            x.len() == y.len(),
            x@ == vstd::utf8::encode_utf8(a@),
            y@ == vstd::utf8::encode_utf8(b@),
            forall|k: int| 0 <= k < i ==> x@[k] == y@[k],
        decreases x.len() - i,
    {
        if x[i] != y[i] {
            assert(x@ != y@);
            return false;
        }
        i = i + 1;
    }
    assert(x@ =~= y@);
    true
}

impl Sortable for String {
    open spec fn before(a: Seq<char>, b: Seq<char>) -> bool {
        seq_before::<char>(a, b)
    }

    proof fn before_irreflexive(a: Seq<char>) {
        seq_before_irreflexive::<char>(a);
    }

    proof fn before_transitive(a: Seq<char>, b: Seq<char>, c: Seq<char>) {
        seq_before_transitive::<char>(a, b, c);
    }

    proof fn before_total(a: Seq<char>, b: Seq<char>) {
        seq_before_total::<char>(a, b);
    }

    fn is_before(&self, other: &Self) -> (r: bool) {
        let x = chars_of(self.as_str());
        let y = chars_of(other.as_str());
        assert(x.deep_view() =~= self@);
        assert(y.deep_view() =~= other@);
        x.is_before(&y)
    }
}

/// A copy of a list of texts.
pub fn copy_texts(v: &Vec<String>) -> (r: Vec<String>)
    ensures
        r@ == v@,
        r.deep_view() == v.deep_view(),
{
    let mut r: Vec<String> = Vec::new();
    let mut i: usize = 0;
    while i < v.len()
        invariant
            i <= v.len(),
            r@ == v@.take(i as int),
        decreases v.len() - i,
    {
        r.push(v[i].clone());
        i = i + 1;
        assert(r@ =~= v@.take(i as int));
    }
    assert(r@ =~= v@);
    r
}

/// Do two lists hold equal texts?
pub fn same_texts(a: &Vec<String>, b: &Vec<String>) -> (r: bool)
    ensures
        r == (a.deep_view() == b.deep_view()),
{
    let ghost x = a.deep_view();
    let ghost y = b.deep_view();
    if a.len() != b.len() {
        assert(x.len() != y.len());
        return false;
    }
    let mut i: usize = 0;
    while i < a.len()
        invariant
            i <= a.len(),
            a.len() == b.len(),
            x == a.deep_view(),
            y == b.deep_view(),
            forall|k: int| 0 <= k < i ==> x[k] == y[k],
        decreases a.len() - i,
    {
        if !same_text(a[i].as_str(), b[i].as_str()) {
            assert(x[i as int] != y[i as int]);
            return false;
        }
        i = i + 1;
    }
    assert(x =~= y);
    true
}

/// Is `x` one of the texts?
pub fn has_text(v: &Vec<String>, x: &str) -> (r: bool)
    ensures
        r == v.deep_view().contains(x@),
{
    let mut i: usize = 0;
    while i < v.len()
        invariant
            i <= v.len(),
            forall|k: int| 0 <= k < i ==> v.deep_view()[k] != x@,
        decreases v.len() - i,
    {
        if same_text(v[i].as_str(), x) {
            assert(v.deep_view()[i as int] == x@);
            return true;
        }
        i = i + 1;
    }
    false
}

// ---- searching ----------------------------------------------------------------------

/// `part` stands in `s` at place `i`.
pub open spec fn occurs_at(s: Seq<char>, part: Seq<char>, i: int) -> bool {
    0 <= i && i + part.len() <= s.len() && s.subrange(i, i + part.len()) == part
}

/// `part` stands somewhere in `s`.
pub open spec fn has_part(s: Seq<char>, part: Seq<char>) -> bool {
    exists|i: int| #[trigger] occurs_at(s, part, i)
}

/// The first place of `part` in `s`, which has it.
pub open spec fn first_place(s: Seq<char>, part: Seq<char>) -> int {
    choose|i: int|
        #[trigger] occurs_at(s, part, i) && forall|j: int| 0 <= j < i ==> !#[trigger] occurs_at(s, part, j)
}

/// `s` begins with `part`.
pub open spec fn begins_with(s: Seq<char>, part: Seq<char>) -> bool {
    occurs_at(s, part, 0)
}

/// `s` ends with `part`.
pub open spec fn finishes_with(s: Seq<char>, part: Seq<char>) -> bool {
    occurs_at(s, part, s.len() - part.len())
}

/// Does `part` stand in `s` at place `i`?
pub fn stands_at(s: &Vec<char>, part: &Vec<char>, i: usize) -> (r: bool)
    ensures
        r == occurs_at(s@, part@, i as int),
{
    if i > s.len() || part.len() > s.len() - i {
        return false;
    }
    let mut k: usize = 0;
    while k < part.len()
        invariant
            k <= part.len(),
            i + part.len() <= s.len(),
            forall|j: int| 0 <= j < k ==> s@[i + j] == part@[j],
        decreases part.len() - k,
    {
        if s[i + k] != part[k] {
            assert(s@.subrange(i as int, i + part.len())[k as int] != part@[k as int]);
            return false;
        }
        k = k + 1;
    }
    assert(s@.subrange(i as int, i + part.len()) =~= part@);
    true
}

/// The first place of `part` in `s`, if there is one.
pub fn find_part(s: &Vec<char>, part: &Vec<char>) -> (r: Option<usize>)
    ensures
        match r {
            Some(i) => occurs_at(s@, part@, i as int) && i == first_place(s@, part@) && forall|j: int|
                0 <= j < i ==> !#[trigger] occurs_at(s@, part@, j),
            None => !has_part(s@, part@),
        },
{
    let mut i: usize = 0;
    loop
        invariant
            i <= s.len(),
            forall|j: int| 0 <= j < i ==> !#[trigger] occurs_at(s@, part@, j),
        decreases s.len() - i,
    {
        if stands_at(s, part, i) {
            proof {
                let f = first_place(s@, part@);
                assert(occurs_at(s@, part@, f));
                if f < i {
                    assert(!occurs_at(s@, part@, f));
                }
                if i < f {
                    assert(occurs_at(s@, part@, i as int));
                }
            }
            return Some(i);
        }
        if i == s.len() {
            assert(!has_part(s@, part@));
            return None;
        }
        i = i + 1;
    }
}

/// Does `part` stand somewhere in `s`?
pub fn contains_part(s: &str, part: &str) -> (r: bool)
    ensures
        r == has_part(s@, part@),
{
    let a = chars_of(s);
    let b = chars_of(part);
    match find_part(&a, &b) {
        Some(_) => true,
        None => false,
    }
}

/// Does `s` begin with `part`?
pub fn starts_with_text(s: &str, part: &str) -> (r: bool)
    ensures
        r == begins_with(s@, part@),
{
    let a = chars_of(s);
    let b = chars_of(part);
    stands_at(&a, &b, 0)
}

/// Does `s` end with `part`?
pub fn ends_with_text(s: &str, part: &str) -> (r: bool)
    ensures
        r == finishes_with(s@, part@),
{
    let a = chars_of(s);
    let b = chars_of(part);
    if b.len() > a.len() {
        return false;
    }
    stands_at(&a, &b, a.len() - b.len())
}

// ---- trimming -----------------------------------------------------------------------

/// The characters with the Unicode property White_Space.
pub open spec fn is_space(c: char) -> bool {
    ||| '\u{9}' <= c <= '\u{d}'
    ||| c == ' '
    ||| c == '\u{85}'
    ||| c == '\u{a0}'
    ||| c == '\u{1680}'
    ||| '\u{2000}' <= c <= '\u{200a}'
    ||| c == '\u{2028}'
    ||| c == '\u{2029}'
    ||| c == '\u{202f}'
    ||| c == '\u{205f}'
    ||| c == '\u{3000}'
}

/// Is `c` white space?
pub fn is_space_char(c: char) -> (r: bool)
    ensures
        r == is_space(c),
{
    ('\u{9}' <= c && c <= '\u{d}') || c == ' ' || c == '\u{85}' || c == '\u{a0}' || c == '\u{1680}' || (
    '\u{2000}' <= c && c <= '\u{200a}') || c == '\u{2028}' || c == '\u{2029}' || c == '\u{202f}' || c
        == '\u{205f}' || c == '\u{3000}'
}

/// `s` without the leading characters that satisfy `p`.
pub open spec fn trim_start_by(s: Seq<char>, p: spec_fn(char) -> bool) -> Seq<char>
    decreases s.len(),
{
    if s.len() > 0 && p(s[0]) {
        trim_start_by(s.drop_first(), p)
    } else {
        s
    }
}

/// `s` without the trailing characters that satisfy `p`.
pub open spec fn trim_end_by(s: Seq<char>, p: spec_fn(char) -> bool) -> Seq<char>
    decreases s.len(),
{
    if s.len() > 0 && p(s.last()) {
        trim_end_by(s.drop_last(), p)
    } else {
        s
    }
}

/// "Is white space", as a predicate.
pub open spec fn space() -> spec_fn(char) -> bool {
    |c: char| is_space(c)
}

/// "Is the character `x`", as a predicate.
pub open spec fn only(x: char) -> spec_fn(char) -> bool {
    |c: char| c == x
}

/// `s` without leading and trailing white space.
pub open spec fn trimmed(s: Seq<char>) -> Seq<char> {
    trim_end_by(trim_start_by(s, space()), space())
}

/// `v[from..to]` without leading and trailing white space, as a range.
pub fn trim_range(v: &Vec<char>, from: usize, to: usize) -> (r: (usize, usize))
    requires
        from <= to <= v.len(),
    ensures
        from <= r.0 <= r.1 <= to,
        v@.subrange(r.0 as int, r.1 as int) == trimmed(v@.subrange(from as int, to as int)),
{
    let mut a: usize = from;
    let ghost whole = v@.subrange(from as int, to as int);
    while a < to && is_space_char(v[a])
        invariant
            from <= a <= to <= v.len(),
            trim_start_by(v@.subrange(a as int, to as int), space()) == trim_start_by(whole, space()),
        decreases to - a,
    {
        assert(v@.subrange(a as int, to as int).drop_first() =~= v@.subrange(a + 1, to as int));
        assert(v@.subrange(a as int, to as int)[0] == v@[a as int]);
        a = a + 1;
    }
    assert(trim_start_by(v@.subrange(a as int, to as int), space()) == v@.subrange(a as int, to as int)) by {
        if a < to {
            assert(v@.subrange(a as int, to as int)[0] == v@[a as int]);
        }
    }
    let b = trim_end_range(v, a, to);
    (a, b)
}

fn trim_end_range(v: &Vec<char>, from: usize, to: usize) -> (b: usize)
    requires
        from <= to <= v.len(),
    ensures
        from <= b <= to,
        v@.subrange(from as int, b as int) == trim_end_by(v@.subrange(from as int, to as int), space()),
{
    let mut b: usize = to;
    let ghost whole = v@.subrange(from as int, to as int);
    while b > from && is_space_char(v[b - 1])
        invariant
            from <= b <= to <= v.len(),
            trim_end_by(v@.subrange(from as int, b as int), space()) == trim_end_by(whole, space()),
        decreases b,
    {
        assert(v@.subrange(from as int, b as int).drop_last() =~= v@.subrange(from as int, b - 1));
        b = b - 1;
    }
    b
}

/// `v[from..to]` without the trailing characters equal to `x`, as its end.
pub fn trim_end_char(v: &Vec<char>, from: usize, to: usize, x: char) -> (b: usize)
    requires
        from <= to <= v.len(),
    ensures
        from <= b <= to,
        v@.subrange(from as int, b as int) == trim_end_by(v@.subrange(from as int, to as int), only(x)),
{
    let mut b: usize = to;
    let ghost whole = v@.subrange(from as int, to as int);
    while b > from && v[b - 1] == x
        invariant
            from <= b <= to <= v.len(),
            trim_end_by(v@.subrange(from as int, b as int), only(x)) == trim_end_by(whole, only(x)),
        decreases b,
    {
        assert(v@.subrange(from as int, b as int).drop_last() =~= v@.subrange(from as int, b - 1));
        b = b - 1;
    }
    b
}

/// `v[from..to]` without the leading characters equal to `x`, as its start.
pub fn trim_start_char(v: &Vec<char>, from: usize, to: usize, x: char) -> (a: usize)
    requires
        from <= to <= v.len(),
    ensures
        from <= a <= to,
        v@.subrange(a as int, to as int) == trim_start_by(v@.subrange(from as int, to as int), only(x)),
{
    let mut a: usize = from;
    let ghost whole = v@.subrange(from as int, to as int);
    while a < to && v[a] == x
        invariant
            from <= a <= to <= v.len(),
            trim_start_by(v@.subrange(a as int, to as int), only(x)) == trim_start_by(whole, only(x)),
        decreases to - a,
    {
        assert(v@.subrange(a as int, to as int).drop_first() =~= v@.subrange(a + 1, to as int));
        a = a + 1;
    }
    a
}

/// A text without leading and trailing white space.
pub fn trim_text(s: &str) -> (r: String)
    ensures
        r@ == trimmed(s@),
{
    let v = chars_of(s);
    let (a, b) = trim_range(&v, 0, v.len());
    assert(v@.subrange(0, v.len() as int) =~= s@);
    text_between(&v, a, b)
}

/// The trailing characters up to the last white space.
pub open spec fn tail_word(s: Seq<char>) -> Seq<char>
    decreases s.len(),
{
    if s.len() == 0 || is_space(s.last()) {
        Seq::empty()
    } else {
        tail_word(s.drop_last()).push(s.last())
    }
}

/// The last word of `s`; nothing where there is none.
pub open spec fn last_word(s: Seq<char>) -> Seq<char> {
    tail_word(trim_end_by(s, space()))
}

/// The last word of a text.
pub fn last_word_text(s: &str) -> (r: String)
    ensures
        r@ == last_word(s@),
{
    let v = chars_of(s);
    let b = trim_end_range(&v, 0, v.len());
    assert(v@.subrange(0, v.len() as int) =~= s@);
    let ghost t = v@.subrange(0, b as int);
    let mut a: usize = b;
    assert(t.take(a as int) =~= t);
    assert(tail_word(t.take(a as int)) + v@.subrange(a as int, b as int) =~= tail_word(t));
    while a > 0 && !is_space_char(v[a - 1])
        invariant
            a <= b <= v@.len(),
            t == v@.subrange(0, b as int),
            tail_word(t) == tail_word(t.take(a as int)) + v@.subrange(a as int, b as int),
        decreases a,
    {
        assert(t.take(a as int).last() == v@[a - 1]);
        assert(t.take(a as int).drop_last() =~= t.take(a - 1));
        assert(tail_word(t.take(a - 1)).push(v@[a - 1]) + v@.subrange(a as int, b as int) =~= tail_word(t.take(a - 1))
            + v@.subrange(a - 1, b as int));
        a = a - 1;
    }
    proof {
        if a > 0 {
            assert(t.take(a as int).last() == v@[a - 1]);
        }
        assert(Seq::<char>::empty() + v@.subrange(a as int, b as int) =~= v@.subrange(a as int, b as int));
    }
    text_between(&v, a, b)
}

/// A text without the leading characters equal to `x`.
pub fn strip_leading(s: &str, x: char) -> (r: String)
    ensures
        r@ == trim_start_by(s@, only(x)),
{
    let v = chars_of(s);
    let a = trim_start_char(&v, 0, v.len(), x);
    assert(v@.subrange(0, v.len() as int) =~= s@);
    text_between(&v, a, v.len())
}

/// A text without the trailing characters equal to `x`.
pub fn strip_trailing(s: &str, x: char) -> (r: String)
    ensures
        r@ == trim_end_by(s@, only(x)),
{
    let v = chars_of(s);
    let b = trim_end_char(&v, 0, v.len(), x);
    assert(v@.subrange(0, v.len() as int) =~= s@);
    text_between(&v, 0, b)
}

/// One past the place of the last `x` in `s`; zero where there is none.
pub open spec fn end_of_last(s: Seq<char>, x: char) -> nat
    decreases s.len(),
{
    if s.len() == 0 || s.last() == x {
        s.len()
    } else {
        end_of_last(s.drop_last(), x)
    }
}

/// One past the place of the last `x`.
pub fn find_end_of_last(v: &Vec<char>, x: char) -> (r: usize)
    ensures
        r == end_of_last(v@, x),
        r <= v@.len(),
        r > 0 ==> v@[r - 1] == x,
{
    let mut i: usize = v.len();
    assert(v@.take(i as int) =~= v@);
    while i > 0 && v[i - 1] != x
        invariant
            i <= v@.len(),
            end_of_last(v@, x) == end_of_last(v@.take(i as int), x),
        decreases i,
    {
        assert(v@.take(i as int).last() == v@[i - 1]);
        assert(v@.take(i as int).drop_last() =~= v@.take(i - 1));
        i = i - 1;
    }
    if i > 0 {
        assert(v@.take(i as int).last() == v@[i - 1]);
    }
    i
}

/// The place of the first `x` in `s`; the length where there is none.
pub open spec fn char_place(s: Seq<char>, x: char) -> nat
    decreases s.len(),
{
    if s.len() == 0 || s[0] == x {
        0
    } else {
        1 + char_place(s.skip(1), x)
    }
}

/// The place of the first `x`.
pub fn find_char(v: &Vec<char>, x: char) -> (r: usize)
    ensures
        r == char_place(v@, x),
        r <= v@.len(),
        r < v@.len() ==> v@[r as int] == x,
{
    let mut i: usize = 0;
    assert(v@.skip(0) =~= v@);
    while i < v.len() && v[i] != x
        invariant
            i <= v@.len(),
            char_place(v@, x) == i + char_place(v@.skip(i as int), x),
        decreases v.len() - i,
    {
        assert(v@.skip(i as int)[0] == v@[i as int]);
        assert(v@.skip(i as int).skip(1) =~= v@.skip(i + 1));
        i = i + 1;
    }
    if i < v.len() {
        assert(v@.skip(i as int)[0] == v@[i as int]);
    }
    i
}

/// A file name without its last extension; a name whose only dot is its
/// first character has none.
pub open spec fn stem(s: Seq<char>) -> Seq<char> {
    let n = end_of_last(s, '.');
    if n > 1 {
        s.take(n - 1)
    } else {
        s
    }
}

/// A file name without its last extension.
pub fn stem_of(s: &str) -> (r: String)
    ensures
        r@ == stem(s@),
{
    let v = chars_of(s);
    let n = find_end_of_last(&v, '.');
    if n > 1 {
        let r = text_between(&v, 0, n - 1);
        assert(r@ =~= s@.take(n - 1));
        r
    } else {
        s.to_owned()
    }
}

/// An ASCII letter in lower case; any other character as it is.
pub open spec fn lower_char(c: char) -> char {
    if 'A' <= c && c <= 'Z' {
        (c as u32 + 32) as char
    } else {
        c
    }
}

/// A text with its ASCII letters in lower case.
pub open spec fn lowered(s: Seq<char>) -> Seq<char> {
    s.map_values(|c: char| lower_char(c))
}

fn lower_letter(c: char) -> (r: char)
    ensures
        r == lower_char(c),
{
    if 'A' <= c && c <= 'Z' {
        let n: u8 = c as u8 + 32;
        n as char
    } else {
        c
    }
}

/// A text with its ASCII letters in lower case.
pub fn lowered_text(s: &str) -> (r: String)
    ensures
        r@ == lowered(s@),
{
    let v = chars_of(s);
    let mut r = String::new();
    let mut i: usize = 0;
    assert(r@ =~= lowered(s@).take(0));
    while i < v.len()
        invariant
            v@ == s@,
            i <= v@.len(),
            r@ == lowered(s@).take(i as int),
        decreases v.len() - i,
    {
        r.push(lower_letter(v[i]));
        i = i + 1;
        assert(r@ =~= lowered(s@).take(i as int));
    }
    assert(lowered(s@).take(i as int) =~= lowered(s@));
    r
}

/// Texts without those that came before.
pub open spec fn firsts(s: Seq<Seq<char>>) -> Seq<Seq<char>>
    decreases s.len(),
{
    if s.len() == 0 {
        Seq::empty()
    } else {
        let before = firsts(s.drop_last());
        if before.contains(s.last()) {
            before
        } else {
            before.push(s.last())
        }
    }
}

/// Appends a text unless it is there already.
pub fn put_first(v: &mut Vec<String>, x: &str)
    ensures
        final(v).deep_view() == if old(v).deep_view().contains(x@) {
            old(v).deep_view()
        } else {
            old(v).deep_view().push(x@)
        },
{
    if !has_text(v, x) {
        crate::lookup::put(v, x.to_owned());
    }
}

// ---- splitting and joining ------------------------------------------------------------

/// The pieces of `s` between occurrences of `sep`.
pub open spec fn split_char(s: Seq<char>, sep: char) -> Seq<Seq<char>>
    decreases s.len(),
{
    if s.len() == 0 {
        seq![Seq::empty()]
    } else {
        let rest = split_char(s.drop_last(), sep);
        if s.last() == sep {
            rest.push(Seq::empty())
        } else {
            rest.update(rest.len() - 1, rest.last().push(s.last()))
        }
    }
}

pub proof fn lemma_split_nonempty(s: Seq<char>, sep: char)
    ensures
        split_char(s, sep).len() > 0,
    decreases s.len(),
{
    if s.len() > 0 {
        lemma_split_nonempty(s.drop_last(), sep);
    }
}

/// The pieces of `s` between occurrences of `sep`.
pub fn split_text(s: &str, sep: char) -> (r: Vec<String>)
    ensures
        r.deep_view() == split_char(s@, sep),
{
    let v = chars_of(s);
    let mut out: Vec<String> = Vec::new();
    let mut current = String::new();
    let mut i: usize = 0;
    let ghost done = out.deep_view().push(current@);
    assert(done =~= split_char(v@.take(0), sep));
    while i < v.len()
        invariant
            i <= v.len(),
            out.deep_view().push(current@) == split_char(v@.take(i as int), sep),
        decreases v.len() - i,
    {
        let ghost before = out.deep_view().push(current@);
        assert(v@.take(i + 1).drop_last() =~= v@.take(i as int));
        let c: char = v[i];
        if c == sep {
            out.push(current);
            current = String::new();
            assert(out.deep_view() =~= before);
        } else {
            let ghost piece = current@;
            current.push(c);
            assert(out.deep_view().push(current@) =~= before.update(before.len() - 1, piece.push(c)));
        }
        i = i + 1;
    }
    let ghost last = current@;
    let ghost prior = out.deep_view();
    out.push(current);
    assert(v@.take(v.len() as int) =~= s@);
    assert(out.deep_view() =~= prior.push(last));
    out
}

/// The texts one after another, with `sep` between them.
pub open spec fn joined(parts: Seq<Seq<char>>, sep: Seq<char>) -> Seq<char>
    decreases parts.len(),
{
    if parts.len() == 0 {
        Seq::empty()
    } else if parts.len() == 1 {
        parts[0]
    } else {
        joined(parts.drop_last(), sep) + sep + parts.last()
    }
}

/// The texts one after another, with `sep` between them.
pub fn join_texts(parts: &Vec<String>, sep: &str) -> (r: String)
    ensures
        r@ == joined(parts.deep_view(), sep@),
{
    let ghost p = parts.deep_view();
    let mut r = String::new();
    let mut i: usize = 0;
    while i < parts.len()
        invariant
            i <= parts.len(),
            p == parts.deep_view(),
            r@ == joined(p.take(i as int), sep@),
        decreases parts.len() - i,
    {
        assert(p.take(i + 1).drop_last() =~= p.take(i as int));
        assert(p.take(i + 1).last() == parts[i as int]@);
        if i == 0 {
            r = parts[0].clone();
        } else {
            r.append(sep);
            r.append(parts[i].as_str());
        }
        i = i + 1;
    }
    assert(p.take(p.len() as int) =~= p);
    r
}

// ---- numbers ------------------------------------------------------------------------

/// The digit of a value below ten.
pub open spec fn digit(d: nat) -> char {
    if d == 0 { '0' } else if d == 1 { '1' } else if d == 2 { '2' } else if d == 3 { '3' } else if d == 4 { '4' }
    else if d == 5 { '5' } else if d == 6 { '6' } else if d == 7 { '7' } else if d == 8 { '8' } else { '9' }
}

/// A number in decimal digits, without leading zeros.
pub open spec fn decimal(n: nat) -> Seq<char>
    decreases n,
{
    if n < 10 {
        seq![digit(n)]
    } else {
        decimal(n / 10).push(digit(n % 10))
    }
}

/// A signed number in decimal digits.
pub open spec fn signed_decimal(n: int) -> Seq<char> {
    if n < 0 {
        seq!['-'] + decimal((-n) as nat)
    } else {
        decimal(n as nat)
    }
}

fn digit_char(d: u64) -> (c: char)
    requires
        d < 10,
    ensures
        c == digit(d as nat),
{
    if d == 0 { '0' } else if d == 1 { '1' } else if d == 2 { '2' } else if d == 3 { '3' } else if d == 4 { '4' }
    else if d == 5 { '5' } else if d == 6 { '6' } else if d == 7 { '7' } else if d == 8 { '8' } else { '9' }
}

/// A number in decimal digits.
pub fn decimal_text(n: u64) -> (s: String)
    ensures
        s@ == decimal(n as nat),
    decreases n,
{
    if n < 10 {
        let mut s = String::new();
        s.push(digit_char(n));
        assert(s@ =~= seq![digit(n as nat)]);
        s
    } else {
        let mut s = decimal_text(n / 10);
        s.push(digit_char(n % 10));
        s
    }
}

/// A signed number in decimal digits.
pub fn signed_text(n: i64) -> (s: String)
    ensures
        s@ == signed_decimal(n as int),
{
    if n < 0 {
        let mut s = String::new();
        s.push('-');
        let m: u64 = (-(n as i128)) as u64;
        let d = decimal_text(m);
        s.append(d.as_str());
        assert(s@ =~= seq!['-'] + decimal((-n) as nat));
        s
    } else {
        decimal_text(n as u64)
    }
}

} // verus!
