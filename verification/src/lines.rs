//! Lines of a text.

use vstd::prelude::*;
use crate::lookup::{lemma_take_next, put};
use crate::text::{
    chars_of, is_space, joined, lemma_split_nonempty, space, split_char, split_text, text_between,
    trim_start_by, trimmed,
};

verus! {

/// A piece without the carriage return at its end.
pub open spec fn without_return(piece: Seq<char>) -> Seq<char> {
    if piece.len() > 0 && piece.last() == '\r' {
        piece.drop_last()
    } else {
        piece
    }
}

/// The lines of a text. A line ends with a newline, or a carriage return and
/// a newline; the last one may lack its end.
pub open spec fn lines(s: Seq<char>) -> Seq<Seq<char>> {
    let pieces = split_char(s, '\n');
    let ended = pieces.drop_last().map_values(|p: Seq<char>| without_return(p));
    if pieces.last().len() == 0 {
        ended
    } else {
        ended.push(pieces.last())
    }
}

fn drop_return(piece: &str) -> (r: String)
    ensures
        r@ == without_return(piece@),
{
    let v = chars_of(piece);
    if v.len() > 0 && v[v.len() - 1] == '\r' {
        let r = text_between(&v, 0, v.len() - 1);
        assert(r@ =~= piece@.drop_last());
        r
    } else {
        piece.to_owned()
    }
}

/// The lines of a text.
pub fn split_lines(s: &str) -> (r: Vec<String>)
    ensures
        r.deep_view() == lines(s@),
{
    let pieces = split_text(s, '\n');
    proof {
        lemma_split_nonempty(s@, '\n');
    }
    let ghost all = pieces.deep_view();
    let ghost ended = all.drop_last().map_values(|p: Seq<char>| without_return(p));
    let last = pieces.len() - 1;
    let mut out: Vec<String> = Vec::new();
    let mut i: usize = 0;
    assert(out.deep_view() =~= ended.take(0));
    while i < last
        invariant
            i <= last,
            last == pieces@.len() - 1,
            all == pieces.deep_view(),
            ended == all.drop_last().map_values(|p: Seq<char>| without_return(p)),
            out.deep_view() == ended.take(i as int),
        decreases last - i,
    {
        proof {
            lemma_take_next(ended, i as int);
            assert(all[i as int] == pieces@[i as int]@);
        }
        let line = drop_return(pieces[i].as_str());
        put(&mut out, line);
        i = i + 1;
    }
    assert(ended.take(i as int) =~= ended);
    assert(all.last() == pieces@[last as int]@);
    if !pieces[last].as_str().is_empty() {
        put(&mut out, pieces[last].as_str().to_owned());
    }
    out
}

// ---- trimming --------------------------------------------------------------------------------

proof fn lemma_trim_start_tail(s: Seq<char>, p: spec_fn(char) -> bool)
    requires
        s.len() > 0,
        p(s.last()),
    ensures
        trim_start_by(s, p) == trim_start_by(s.drop_last(), p).push(s.last()) || (trim_start_by(s, p).len() == 0
            && trim_start_by(s.drop_last(), p).len() == 0),
    decreases s.len(),
{
    if s.len() == 1 {
        assert(s.drop_first() =~= Seq::empty());
        assert(trim_start_by(s.drop_first(), p).len() == 0);
        assert(trim_start_by(s.drop_last(), p).len() == 0);
    } else if p(s[0]) {
        lemma_trim_start_tail(s.drop_first(), p);
        assert(s.drop_first().drop_last() =~= s.drop_last().drop_first());
    } else {
        assert(s.drop_last().push(s.last()) =~= s);
    }
}

/// White space at the end of a text is trimmed.
pub proof fn lemma_trim_tail(s: Seq<char>)
    requires
        s.len() > 0,
        is_space(s.last()),
    ensures
        trimmed(s) == trimmed(s.drop_last()),
{
    let p = space();
    lemma_trim_start_tail(s, p);
    let t = trim_start_by(s, p);
    let u = trim_start_by(s.drop_last(), p);
    if t.len() > 0 {
        assert(t.drop_last() =~= u);
    } else {
        assert(t =~= u);
    }
}

/// A text without white space at its ends is trimmed already.
pub proof fn lemma_trim_self(s: Seq<char>)
    requires
        s.len() > 0 ==> !is_space(s[0]) && !is_space(s.last()),
    ensures
        trimmed(s) == s,
{
}

/// A line is trimmed to what its piece is trimmed to.
pub proof fn lemma_trim_return(piece: Seq<char>)
    ensures
        trimmed(without_return(piece)) == trimmed(piece),
{
    if piece.len() > 0 && piece.last() == '\r' {
        lemma_trim_tail(piece);
    }
}

// ---- splitting -------------------------------------------------------------------------------

/// The pieces of two texts with a separator between them.
pub proof fn lemma_split_add(a: Seq<char>, b: Seq<char>, sep: char)
    ensures
        split_char(a.push(sep) + b, sep) == split_char(a, sep) + split_char(b, sep),
    decreases b.len(),
{
    let s = a.push(sep) + b;
    let left = split_char(a, sep);
    if b.len() == 0 {
        assert(s =~= a.push(sep));
        assert(s.drop_last() =~= a);
        assert(left.push(Seq::<char>::empty()) =~= left + seq![Seq::<char>::empty()]);
    } else {
        let front = b.drop_last();
        lemma_split_add(a, front, sep);
        lemma_split_nonempty(front, sep);
        assert(s.drop_last() =~= a.push(sep) + front);
        let right = split_char(front, sep);
        if b.last() == sep {
            assert((left + right).push(Seq::<char>::empty()) =~= left + right.push(Seq::<char>::empty()));
        } else {
            let rest = left + right;
            assert(rest.last() == right.last());
            assert(rest.update(rest.len() - 1, rest.last().push(b.last())) =~= left + right.update(
                right.len() - 1,
                right.last().push(b.last()),
            ));
        }
    }
}

/// A text without the separator is one piece.
pub proof fn lemma_split_single(s: Seq<char>, sep: char)
    requires
        !s.contains(sep),
    ensures
        split_char(s, sep) == seq![s],
    decreases s.len(),
{
    if s.len() > 0 {
        let front = s.drop_last();
        assert forall|i: int| 0 <= i < front.len() implies front[i] != sep by {
            assert(front[i] == s[i]);
        }
        lemma_split_single(front, sep);
        assert(s.contains(s.last()));
        assert(front.push(s.last()) =~= s);
        assert(seq![front].update(0, s) =~= seq![s]);
    } else {
        assert(s =~= Seq::empty());
    }
}

/// No piece holds the separator.
pub proof fn lemma_pieces_free(s: Seq<char>, sep: char)
    ensures
        forall|i: int| 0 <= i < split_char(s, sep).len() ==> !(#[trigger] split_char(s, sep)[i]).contains(sep),
    decreases s.len(),
{
    if s.len() > 0 {
        lemma_pieces_free(s.drop_last(), sep);
        lemma_split_nonempty(s.drop_last(), sep);
        let rest = split_char(s.drop_last(), sep);
        let all = split_char(s, sep);
        assert forall|i: int| 0 <= i < all.len() implies !(#[trigger] all[i]).contains(sep) by {
            if i < rest.len() - 1 {
                assert(all[i] == rest[i]);
            } else if i == rest.len() - 1 {
                assert(!rest[i].contains(sep));
                if all[i].contains(sep) {
                    let k = choose|k: int| 0 <= k < all[i].len() && all[i][k] == sep;
                    if s.last() != sep {
                        if k < rest[i].len() {
                            assert(rest[i][k] == sep);
                            assert(rest[i].contains(sep));
                        }
                    }
                }
            }
        }
    }
}

/// Splitting undoes joining.
pub proof fn lemma_split_joined(parts: Seq<Seq<char>>, sep: char)
    requires
        parts.len() > 0,
        forall|i: int| 0 <= i < parts.len() ==> !(#[trigger] parts[i]).contains(sep),
    ensures
        split_char(joined(parts, seq![sep]), sep) == parts,
    decreases parts.len(),
{
    if parts.len() == 1 {
        lemma_split_single(parts[0], sep);
        assert(seq![parts[0]] =~= parts);
    } else {
        let front = parts.drop_last();
        assert forall|i: int| 0 <= i < front.len() implies !(#[trigger] front[i]).contains(sep) by {
            assert(front[i] == parts[i]);
        }
        lemma_split_joined(front, sep);
        assert(!parts[parts.len() - 1].contains(sep));
        lemma_split_single(parts.last(), sep);
        let a = joined(front, seq![sep]);
        assert(a + seq![sep] + parts.last() =~= a.push(sep) + parts.last());
        lemma_split_add(a, parts.last(), sep);
        assert(front + seq![parts.last()] =~= parts);
    }
}

/// The pieces of lines that were joined, and ended with a newline.
pub proof fn lemma_split_ended(parts: Seq<Seq<char>>)
    requires
        parts.len() > 0,
        forall|i: int| 0 <= i < parts.len() ==> !(#[trigger] parts[i]).contains('\n'),
    ensures
        split_char(joined(parts, "\n"@) + "\n"@, '\n') == parts.push(Seq::empty()),
{
    reveal_strlit("\n");
    let a = joined(parts, seq!['\n']);
    assert("\n"@ =~= seq!['\n']);
    lemma_split_joined(parts, '\n');
    lemma_split_add(a, Seq::empty(), '\n');
    assert(a + "\n"@ =~= a.push('\n') + Seq::<char>::empty());
    assert(parts + seq![Seq::<char>::empty()] =~= parts.push(Seq::empty()));
}

// ---- rules ---------------------------------------------------------------------------------------

/// Does some line say just `x`?
pub open spec fn has_rule(lines: Seq<Seq<char>>, x: Seq<char>) -> bool {
    exists|i: int| 0 <= i < lines.len() && trimmed(#[trigger] lines[i]) == x
}

/// A rule is found in the lines exactly when it is found in the pieces.
pub proof fn lemma_rule_in_pieces(s: Seq<char>, x: Seq<char>)
    requires
        x.len() > 0,
    ensures
        has_rule(lines(s), x) <==> has_rule(split_char(s, '\n'), x),
{
    let pieces = split_char(s, '\n');
    let all = lines(s);
    lemma_split_nonempty(s, '\n');
    assert forall|i: int| 0 <= i < all.len() implies trimmed(#[trigger] all[i]) == trimmed(pieces[i]) by {
        if i < pieces.len() - 1 {
            lemma_trim_return(pieces[i]);
        }
    }
    if has_rule(all, x) {
        let i = choose|i: int| 0 <= i < all.len() && trimmed(#[trigger] all[i]) == x;
        assert(trimmed(pieces[i]) == x);
    }
    if has_rule(pieces, x) {
        let i = choose|i: int| 0 <= i < pieces.len() && trimmed(#[trigger] pieces[i]) == x;
        if i >= all.len() {
            assert(pieces[i] =~= Seq::empty());
        } else {
            assert(trimmed(all[i]) == x);
        }
    }
}

/// A rule of two runs of lines is one of the first or of the second.
pub proof fn lemma_rule_add(a: Seq<Seq<char>>, b: Seq<Seq<char>>, x: Seq<char>)
    ensures
        has_rule(a + b, x) <==> has_rule(a, x) || has_rule(b, x),
{
    let all = a + b;
    if has_rule(a, x) {
        let i = choose|i: int| 0 <= i < a.len() && trimmed(#[trigger] a[i]) == x;
        assert(trimmed(all[i]) == x);
    }
    if has_rule(b, x) {
        let i = choose|i: int| 0 <= i < b.len() && trimmed(#[trigger] b[i]) == x;
        assert(trimmed(all[a.len() + i]) == x);
    }
    if has_rule(all, x) {
        let i = choose|i: int| 0 <= i < all.len() && trimmed(#[trigger] all[i]) == x;
        if i < a.len() {
            assert(trimmed(a[i]) == x);
        } else {
            assert(trimmed(b[i - a.len()]) == x);
        }
    }
}

} // verus!
