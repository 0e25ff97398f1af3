//! What numbers, trimmed texts and pieces of texts come out as.

use vstd::prelude::*;

use crate::db::connect_failure;
use crate::lines::lemma_pieces_free;
use crate::text::{
    char_place, decimal, digit, firsts, has_part, is_space, joined, last_word, occurs_at,
    signed_decimal, space, split_char, tail_word, trim_end_by, trim_start_by, trimmed,
};

verus! {

// ---- numbers ----------------------------------------------------------------------------------

/// What digits stand for, read from the left.
pub open spec fn value(s: Seq<char>) -> int
    decreases s.len(),
{
    if s.len() == 0 {
        0
    } else {
        10 * value(s.drop_last()) + (s.last() as int - '0' as int)
    }
}

/// A number in decimal digits reads back as itself, and has no leading zero.
pub proof fn a_number_reads_back(n: nat)
    ensures
        value(decimal(n)) == n,
        forall|i: int| 0 <= i < decimal(n).len() ==> '0' <= #[trigger] decimal(n)[i] <= '9',
        decimal(n).len() > 0,
        n > 0 ==> decimal(n)[0] != '0',
    decreases n,
{
    let s = decimal(n);
    if n < 10 {
        assert(s.drop_last() =~= Seq::empty());
        assert(value(s.drop_last()) == 0);
        assert(s.last() == digit(n));
    } else {
        a_number_reads_back(n / 10);
        assert(s.drop_last() =~= decimal(n / 10));
        assert(s.last() == digit(n % 10));
        assert(s.last() as int - '0' as int == n % 10);
        assert(10 * (n / 10) + n % 10 == n);
        assert(s[0] == decimal(n / 10)[0]);
    }
}

/// A negative number is its opposite behind a minus sign.
pub proof fn a_minus_stands_before_the_digits(n: int)
    ensures
        n >= 0 ==> value(signed_decimal(n)) == n && signed_decimal(n)[0] != '-',
        n < 0 ==> signed_decimal(n)[0] == '-' && value(signed_decimal(n).skip(1)) == -n,
{
    if n >= 0 {
        a_number_reads_back(n as nat);
    } else {
        a_number_reads_back((-n) as nat);
        assert(signed_decimal(n).skip(1) =~= decimal((-n) as nat));
    }
}

// ---- trimming ---------------------------------------------------------------------------------

pub open spec fn all_space(s: Seq<char>) -> bool {
    forall|i: int| 0 <= i < s.len() ==> is_space(#[trigger] s[i])
}

proof fn lemma_front(s: Seq<char>) -> (a: Seq<char>)
    ensures
        s == a + trim_start_by(s, space()),
        all_space(a),
        trim_start_by(s, space()).len() > 0 ==> !is_space(trim_start_by(s, space())[0]),
    decreases s.len(),
{
    if s.len() > 0 && is_space(s[0]) {
        let rest = lemma_front(s.drop_first());
        let a = seq![s[0]] + rest;
        let t = trim_start_by(s.drop_first(), space());
        assert(space()(s[0]));
        assert(trim_start_by(s, space()) == t);
        assert(s =~= seq![s[0]] + s.drop_first());
        assert(seq![s[0]] + (rest + t) =~= a + t);
        assert forall|i: int| 0 <= i < a.len() implies is_space(#[trigger] a[i]) by {
            if i > 0 {
                assert(a[i] == rest[i - 1]);
            }
        }
        a
    } else {
        assert(s =~= Seq::<char>::empty() + s);
        Seq::empty()
    }
}

proof fn lemma_back(s: Seq<char>) -> (b: Seq<char>)
    ensures
        s == trim_end_by(s, space()) + b,
        all_space(b),
        trim_end_by(s, space()).len() > 0 ==> !is_space(trim_end_by(s, space()).last()),
    decreases s.len(),
{
    if s.len() > 0 && is_space(s.last()) {
        let rest = lemma_back(s.drop_last());
        let b = rest.push(s.last());
        let t = trim_end_by(s.drop_last(), space());
        assert(space()(s.last()));
        assert(trim_end_by(s, space()) == t);
        assert(s =~= s.drop_last().push(s.last()));
        assert((t + rest).push(s.last()) =~= t + b);
        assert forall|i: int| 0 <= i < b.len() implies is_space(#[trigger] b[i]) by {
            if i < rest.len() {
                assert(b[i] == rest[i]);
            }
        }
        b
    } else {
        assert(s =~= s + Seq::<char>::empty());
        Seq::empty()
    }
}

/// A trimmed text is the middle of a text between white space, and neither
/// starts nor ends with white space.
pub proof fn a_trimmed_text_is_the_middle(s: Seq<char>) -> (r: (Seq<char>, Seq<char>))
    ensures
        s == r.0 + trimmed(s) + r.1,
        all_space(r.0),
        all_space(r.1),
        trimmed(s).len() > 0 ==> !is_space(trimmed(s)[0]) && !is_space(trimmed(s).last()),
{
    let a = lemma_front(s);
    let mid = trim_start_by(s, space());
    let b = lemma_back(mid);
    assert(s =~= a + trimmed(s) + b);
    if trimmed(s).len() > 0 {
        assert(mid[0] == trimmed(s)[0]);
    }
    (a, b)
}

proof fn lemma_trim_back(s: Seq<char>, b: Seq<char>)
    requires
        all_space(b),
        s.len() > 0,
        !is_space(s.last()),
    ensures
        trim_end_by(s + b, space()) == s,
    decreases b.len(),
{
    let whole = s + b;
    if b.len() > 0 {
        assert(whole.last() == b[b.len() - 1]);
        assert(whole.drop_last() =~= s + b.drop_last());
        assert forall|i: int| 0 <= i < b.drop_last().len() implies is_space(#[trigger] b.drop_last()[i]) by {
            assert(b.drop_last()[i] == b[i]);
        }
        lemma_trim_back(s, b.drop_last());
    } else {
        assert(whole =~= s);
    }
}

proof fn lemma_tail_word(before: Seq<char>, word: Seq<char>)
    requires
        before.len() == 0 || is_space(before.last()),
        forall|i: int| 0 <= i < word.len() ==> !is_space(#[trigger] word[i]),
    ensures
        tail_word(before + word) == word,
    decreases word.len(),
{
    let whole = before + word;
    if word.len() > 0 {
        assert(whole.last() == word[word.len() - 1]);
        assert(whole.drop_last() =~= before + word.drop_last());
        assert forall|i: int| 0 <= i < word.drop_last().len() implies !is_space(#[trigger] word.drop_last()[i]) by {
            assert(word.drop_last()[i] == word[i]);
        }
        lemma_tail_word(before, word.drop_last());
        assert(word.drop_last().push(word.last()) =~= word);
    } else {
        assert(whole =~= before);
    }
}

/// The last word of a text stands behind white space, and nothing but white
/// space stands behind it.
pub proof fn a_last_word_is_followed_by_space_only(before: Seq<char>, word: Seq<char>, after: Seq<char>)
    requires
        before.len() == 0 || is_space(before.last()),
        word.len() > 0,
        forall|i: int| 0 <= i < word.len() ==> !is_space(#[trigger] word[i]),
        all_space(after),
    ensures
        last_word(before + word + after) == word,
{
    assert(!is_space(word[word.len() - 1]));
    lemma_trim_back(before + word, after);
    lemma_tail_word(before, word);
}

// ---- places and pieces ------------------------------------------------------------------------

/// The place of a character is where it stands first.
pub proof fn a_place_is_the_first(a: Seq<char>, x: char, b: Seq<char>)
    requires
        !a.contains(x),
    ensures
        char_place(a.push(x) + b, x) == a.len(),
        char_place(a, x) == a.len(),
    decreases a.len(),
{
    let s = a.push(x) + b;
    if a.len() > 0 {
        assert(a.contains(a[0]));
        let rest = a.skip(1);
        assert(!rest.contains(x)) by {
            if rest.contains(x) {
                let i = choose|i: int| 0 <= i < rest.len() && rest[i] == x;
                assert(a[i + 1] == x);
            }
        }
        assert(s[0] == a[0]);
        assert(s.skip(1) =~= rest.push(x) + b);
        a_place_is_the_first(rest, x, b);
    } else {
        assert(s[0] == x);
    }
}

proof fn lemma_longer_last(parts: Seq<Seq<char>>, sep: Seq<char>, c: char)
    requires
        parts.len() > 0,
    ensures
        joined(parts.update(parts.len() - 1, parts.last().push(c)), sep) == joined(parts, sep).push(c),
{
    let more = parts.update(parts.len() - 1, parts.last().push(c));
    assert(more.drop_last() =~= parts.drop_last());
    assert(joined(more, sep) =~= joined(parts, sep).push(c));
}

/// The pieces of a text, with the separator between them, are the text again,
/// and none of them holds the separator.
pub proof fn pieces_join_to_the_text(s: Seq<char>, sep: char)
    ensures
        joined(split_char(s, sep), seq![sep]) == s,
        forall|i: int| 0 <= i < split_char(s, sep).len() ==> !(#[trigger] split_char(s, sep)[i]).contains(sep),
    decreases s.len(),
{
    lemma_pieces_free(s, sep);
    if s.len() > 0 {
        let rest = split_char(s.drop_last(), sep);
        pieces_join_to_the_text(s.drop_last(), sep);
        crate::text::lemma_split_nonempty(s.drop_last(), sep);
        if s.last() == sep {
            let more = rest.push(Seq::empty());
            assert(more.drop_last() =~= rest);
            assert(joined(more, seq![sep]) =~= s);
        } else {
            lemma_longer_last(rest, seq![sep], s.last());
            assert(s.drop_last().push(s.last()) =~= s);
        }
    }
}

/// The first occurrences are all that occurs, each once.
pub proof fn first_occurrences_are_all_once(s: Seq<Seq<char>>, x: Seq<char>)
    ensures
        firsts(s).no_duplicates(),
        firsts(s).contains(x) <==> s.contains(x),
    decreases s.len(),
{
    if s.len() > 0 {
        let rest = s.drop_last();
        let had = firsts(rest);
        first_occurrences_are_all_once(rest, x);
        first_occurrences_are_all_once(rest, s.last());
        assert(s.contains(x) <==> rest.contains(x) || x == s.last()) by {
            if s.contains(x) {
                let i = choose|i: int| 0 <= i < s.len() && s[i] == x;
                if i < rest.len() {
                    assert(rest[i] == x);
                }
            }
            if rest.contains(x) {
                let i = choose|i: int| 0 <= i < rest.len() && rest[i] == x;
                assert(s[i] == x);
            }
            assert(s[s.len() - 1] == s.last());
        }
        if !had.contains(s.last()) {
            let more = had.push(s.last());
            assert(more[had.len() as int] == s.last());
            if had.contains(x) {
                let i = choose|i: int| 0 <= i < had.len() && had[i] == x;
                assert(more[i] == x);
            }
            if more.contains(x) {
                let i = choose|i: int| 0 <= i < more.len() && more[i] == x;
                if i < had.len() {
                    assert(had[i] == x);
                }
            }
        }
    }
}

// ---- messages ---------------------------------------------------------------------------------

/// The message of a failed connection names the store.
pub proof fn a_failure_names_the_store(url: Seq<char>, raw: Seq<char>)
    ensures
        has_part(connect_failure(url, raw), url),
{
    let s = connect_failure(url, raw);
    if has_part(raw, "is already locked"@) {
        let at = "the code graph store at "@.len() as int;
        assert(s.subrange(at, at + url.len()) =~= url);
        assert(occurs_at(s, url, at));
    } else {
        let at = "Failed to connect to SurrealDB at "@.len() as int;
        assert(s.subrange(at, at + url.len()) =~= url);
        assert(occurs_at(s, url, at));
    }
}

} // verus!
