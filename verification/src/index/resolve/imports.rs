//! What the forms of a Rust `use` declaration bring into scope.

use vstd::prelude::*;

use crate::index::resolve::meaning::{is_one_word, the_bare_name_is_the_last_segment, under};
use crate::index::resolve::names::sep;
use crate::index::resolve::uses::{
    depth_of, first_char, group_facts, last_char, lemma_top_level, path_facts, path_joined,
    top_level, tree_facts, unaliased, use_facts, without_crate, FactView,
};
use crate::text::{
    begins_with, finishes_with, first_place, has_part, is_space, occurs_at, only, space, trim_end_by, trim_start_by,
    trimmed,
};

verus! {

// ---- words ----------------------------------------------------------------------------------

/// A path as it is written: no white space, no brace, comma, star or semicolon in
/// it, and no colon at its end.
pub open spec fn is_plain(p: Seq<char>) -> bool {
    &&& p.len() > 0
    &&& p.last() != ':'
    &&& forall|i: int| 0 <= i < p.len() ==> is_path_char(#[trigger] p[i])
}

pub open spec fn is_path_char(c: char) -> bool {
    !is_space(c) && c != '{' && c != '}' && c != ',' && c != '*' && c != ';'
}

pub open spec fn use_word() -> Seq<char> {
    seq!['u', 's', 'e', ' ']
}

/// A `use` declaration of a tree, behind a text such as a visibility.
pub open spec fn uses(before: Seq<char>, tree: Seq<char>) -> Seq<char> {
    before + use_word() + tree + seq![';']
}

/// The declaration's own `use` is the first in it.
pub open spec fn is_first_use(before: Seq<char>, tree: Seq<char>) -> bool {
    forall|j: int| 0 <= j < before.len() ==> !#[trigger] occurs_at(uses(before, tree), use_word(), j)
}

/// A tree that begins and ends with something else than white space, and does
/// not end with a semicolon.
pub open spec fn is_trim(tree: Seq<char>) -> bool {
    tree.len() > 0 && !is_space(tree[0]) && !is_space(tree.last()) && tree.last() != ';'
}

pub proof fn lemma_trimmed(s: Seq<char>)
    requires
        s.len() > 0,
        !is_space(s[0]),
        !is_space(s.last()),
    ensures
        trimmed(s) == s,
{
    assert(trim_start_by(s, space()) == s);
}

proof fn lemma_use_tree(before: Seq<char>, tree: Seq<char>)
    requires
        is_first_use(before, tree),
        is_trim(tree),
    ensures
        use_facts(uses(before, tree)) == tree_facts(tree, Seq::empty()),
{
    let raw = uses(before, tree);
    let word = use_word();
    reveal_strlit("use ");
    assert("use "@ =~= word);
    let at = before.len() as int;
    assert(raw.subrange(at, at + 4) =~= word);
    assert(occurs_at(raw, word, at));
    let k = first_place(raw, word);
    assert(occurs_at(raw, word, k) && forall|j: int| 0 <= j < k ==> !#[trigger] occurs_at(raw, word, j));
    assert(k == at);
    let rest = raw.skip(at + 4);
    assert(rest =~= tree.push(';'));
    assert(rest[0] == tree[0]);
    lemma_trimmed(rest);
    assert(rest.drop_last() =~= tree);
    assert(trim_end_by(rest, only(';')) == trim_end_by(tree, only(';')));
    lemma_trimmed(tree);
}

proof fn lemma_no_char(s: Seq<char>, c: char)
    requires
        forall|i: int| 0 <= i < s.len() ==> #[trigger] s[i] != c,
    ensures
        first_char(s, c) == s.len(),
        last_char(s, c) == -1,
    decreases s.len(),
{
    if s.len() > 0 {
        assert forall|i: int| 0 <= i < s.drop_last().len() implies #[trigger] s.drop_last()[i] != c by {
            assert(s[i] != c);
        }
        lemma_no_char(s.drop_last(), c);
        assert(s[s.len() - 1] != c);
    }
}

proof fn lemma_first_char(a: Seq<char>, c: char, b: Seq<char>)
    requires
        forall|i: int| 0 <= i < a.len() ==> #[trigger] a[i] != c,
    ensures
        first_char(a + seq![c] + b, c) == a.len(),
    decreases b.len(),
{
    let s = a + seq![c] + b;
    if b.len() == 0 {
        assert(s.drop_last() =~= a);
        assert(s.last() == c);
        lemma_no_char(a, c);
    } else {
        assert(s.drop_last() =~= a + seq![c] + b.drop_last());
        lemma_first_char(a, c, b.drop_last());
    }
}

proof fn lemma_no_alias(p: Seq<char>)
    requires
        forall|i: int| 0 <= i < p.len() ==> #[trigger] p[i] != ' ',
    ensures
        !has_part(p, " as "@),
{
    reveal_strlit(" as ");
    if has_part(p, " as "@) {
        let i = choose|i: int| #[trigger] occurs_at(p, " as "@, i);
        assert(p.subrange(i, i + 4)[0] == ' ');
        assert(p[i] == ' ');
    }
}

proof fn lemma_tail(a: Seq<char>, b: Seq<char>)
    ensures
        finishes_with(a + b, b),
{
    let s = a + b;
    assert(s.subrange(s.len() - b.len(), s.len() as int) =~= b);
    assert(s.len() - b.len() + b.len() == s.len());
}

proof fn lemma_not_glob(p: Seq<char>)
    requires
        p.len() > 0,
        p.last() != '*',
    ensures
        !finishes_with(p, "::*"@),
        p != "*"@,
{
    reveal_strlit("::*");
    reveal_strlit("*");
    assert("::*"@.len() == 3 && "::*"@[2] == '*' && "*"@.len() == 1 && "*"@[0] == '*');
    if finishes_with(p, "::*"@) {
        assert(p.subrange(p.len() - 3, p.len() - 3 + 3)[2] == '*');
        assert(p[p.len() - 1] == '*');
    }
    if p == "*"@ {
        assert(p[p.len() - 1] == '*');
    }
}

/// What one path under a prefix brings: itself, below the prefix.
proof fn lemma_plain(p: Seq<char>, prefix: Seq<char>)
    requires
        is_plain(p),
        p != "self"@,
    ensures
        tree_facts(p, prefix) == seq![
            FactView {
                path: without_crate(
                    if prefix.len() == 0 {
                        p
                    } else {
                        under(prefix, p)
                    },
                ),
                glob: false,
            },
        ],
{
    assert(is_path_char(p[0]) && is_path_char(p[p.len() - 1]));
    lemma_trimmed(p);
    assert forall|i: int| 0 <= i < p.len() implies #[trigger] p[i] != '{' by {
        assert(is_path_char(p[i]));
    }
    assert forall|i: int| 0 <= i < p.len() implies #[trigger] p[i] != ' ' by {
        assert(is_path_char(p[i]));
    }
    lemma_no_char(p, '{');
    lemma_no_alias(p);
    assert(unaliased(p) == p);
    let full = path_joined(prefix, p);
    assert(full == if prefix.len() == 0 {
        p
    } else {
        under(prefix, p)
    });
    assert(full.last() == p.last());
    lemma_not_glob(full);
}

// ---- single paths ---------------------------------------------------------------------------

/// `use a::b;` brings the path into scope, without a `crate::` before it.
pub proof fn a_plain_use_brings_its_path(before: Seq<char>, p: Seq<char>)
    requires
        is_plain(p),
        p != "self"@,
        p != "crate"@,
    ensures
        is_first_use(before, p) && !begins_with(p, "crate::"@) ==> use_facts(uses(before, p)) == seq![
            FactView { path: p, glob: false },
        ],
        is_first_use(before, "crate::"@ + p) ==> use_facts(uses(before, "crate::"@ + p)) == seq![
            FactView { path: p, glob: false },
        ],
{
    assert(is_path_char(p[0]) && is_path_char(p[p.len() - 1]));
    if is_first_use(before, p) && !begins_with(p, "crate::"@) {
        lemma_use_tree(before, p);
        lemma_plain(p, Seq::empty());
    }
    let q = "crate::"@ + p;
    if is_first_use(before, q) {
        reveal_strlit("crate::");
        reveal_strlit("self");
        assert("crate::"@.len() == 7 && "self"@.len() == 4);
        assert(q[0] == 'c' && q.last() == p.last());
        assert forall|i: int| 0 <= i < q.len() implies is_path_char(#[trigger] q[i]) by {
            if i < 7 {
                assert(q[i] == "crate::"@[i]);
            } else {
                assert(q[i] == p[i - 7]);
            }
        }
        lemma_use_tree(before, q);
        lemma_plain(q, Seq::empty());
        assert(q.subrange(0, 7) =~= "crate::"@);
        assert(q.skip(7) =~= p);
    }
}

/// A path with an alias.
pub open spec fn aliased(p: Seq<char>, alias: Seq<char>) -> Seq<char> {
    p + " as "@ + alias
}

proof fn lemma_unaliased(p: Seq<char>, alias: Seq<char>)
    requires
        is_plain(p),
    ensures
        unaliased(aliased(p, alias)) == p,
{
    let t = aliased(p, alias);
    let word = " as "@;
    reveal_strlit(" as ");
    assert(word.len() == 4 && word[0] == ' ');
    assert(is_path_char(p[0]) && is_path_char(p[p.len() - 1]));
    lemma_trimmed(p);
    let at = p.len() as int;
    assert(t.subrange(at, at + 4) =~= word);
    assert(occurs_at(t, word, at));
    assert forall|j: int| 0 <= j < at implies !#[trigger] occurs_at(t, word, j) by {
        if occurs_at(t, word, j) {
            assert(t.subrange(j, j + 4)[0] == ' ');
            assert(t[j] == p[j]);
            assert(is_path_char(p[j]));
        }
    }
    let k = first_place(t, word);
    assert(occurs_at(t, word, k) && forall|j: int| 0 <= j < k ==> !#[trigger] occurs_at(t, word, j));
    assert(k == at);
    assert(t.take(at) =~= p);
}

/// An alias does not matter: `use p as a;` brings what `use p;` brings.
pub proof fn an_alias_does_not_matter(before: Seq<char>, p: Seq<char>, alias: Seq<char>)
    requires
        is_plain(p),
        p != "self"@,
        is_plain(alias),
        is_first_use(before, p),
        is_first_use(before, aliased(p, alias)),
    ensures
        use_facts(uses(before, aliased(p, alias))) == use_facts(uses(before, p)),
{
    lemma_aliased_trim(p, alias);
    lemma_plain_trim(p);
    lemma_use_tree(before, p);
    lemma_use_tree(before, aliased(p, alias));
    lemma_single(p);
    lemma_single(aliased(p, alias));
    lemma_no_alias_of(p);
    lemma_unaliased(p, alias);
    lemma_same_part(aliased(p, alias), p);
}

/// A tree without a group is a single path.
proof fn lemma_single(t: Seq<char>)
    requires
        is_trim(t),
        forall|i: int| 0 <= i < t.len() ==> #[trigger] t[i] != '{',
    ensures
        tree_facts(t, Seq::empty()) == path_facts(t, Seq::empty()),
{
    lemma_trimmed(t);
    lemma_no_char(t, '{');
}

proof fn lemma_same_part(t: Seq<char>, p: Seq<char>)
    requires
        unaliased(t) == unaliased(p),
    ensures
        path_facts(t, Seq::empty()) == path_facts(p, Seq::empty()),
{
}

proof fn lemma_plain_trim(p: Seq<char>)
    requires
        is_plain(p),
    ensures
        is_trim(p),
        forall|i: int| 0 <= i < p.len() ==> #[trigger] p[i] != '{',
{
    assert(is_path_char(p[0]) && is_path_char(p[p.len() - 1]));
    assert forall|i: int| 0 <= i < p.len() implies #[trigger] p[i] != '{' by {
        assert(is_path_char(p[i]));
    }
}

proof fn lemma_aliased_trim(p: Seq<char>, alias: Seq<char>)
    requires
        is_plain(p),
        is_plain(alias),
    ensures
        is_trim(aliased(p, alias)),
        forall|i: int| 0 <= i < aliased(p, alias).len() ==> #[trigger] aliased(p, alias)[i] != '{',
{
    let t = aliased(p, alias);
    let word = " as "@;
    reveal_strlit(" as ");
    assert(word.len() == 4 && word[0] == ' ' && word[1] == 'a' && word[2] == 's' && word[3] == ' ');
    assert(is_path_char(p[0]));
    assert(is_path_char(alias[alias.len() - 1]));
    assert(t[0] == p[0] && t.last() == alias.last());
    assert forall|i: int| 0 <= i < t.len() implies #[trigger] t[i] != '{' by {
        if i < p.len() {
            assert(is_path_char(p[i]));
        } else if i >= p.len() + 4 {
            assert(is_path_char(alias[i - p.len() - 4]));
        } else {
            assert(t[i] == word[i - p.len()]);
        }
    }
}

proof fn lemma_no_alias_of(p: Seq<char>)
    requires
        is_plain(p),
    ensures
        unaliased(p) == p,
{
    assert(is_path_char(p[0]) && is_path_char(p[p.len() - 1]));
    assert forall|i: int| 0 <= i < p.len() implies #[trigger] p[i] != ' ' by {
        assert(is_path_char(p[i]));
    }
    lemma_no_alias(p);
    lemma_trimmed(p);
}

/// `use p::*;` brings what is in the module, `use *;` and `use crate::*;` what is
/// at the top.
pub proof fn a_glob_brings_the_module(before: Seq<char>, p: Seq<char>)
    requires
        is_plain(p),
        !begins_with(p, "crate::"@),
        is_first_use(before, p + "::*"@),
    ensures
        use_facts(uses(before, p + "::*"@)) == seq![
            FactView {
                path: if p == "crate"@ {
                    Seq::empty()
                } else {
                    p
                },
                glob: true,
            },
        ],
{
    let t = p + "::*"@;
    reveal_strlit("::*");
    reveal_strlit("self");
    assert("::*"@.len() == 3 && "::*"@[0] == ':' && "::*"@[1] == ':' && "::*"@[2] == '*');
    assert("self"@.len() == 4 && "self"@[3] == 'f');
    assert(is_path_char(p[0]));
    assert(t[0] == p[0] && t.last() == '*');
    lemma_use_tree(before, t);
    lemma_trimmed(t);
    assert forall|i: int| 0 <= i < t.len() implies #[trigger] t[i] != '{' && t[i] != ' ' by {
        if i < p.len() {
            assert(is_path_char(p[i]));
            assert(t[i] == p[i]);
        } else {
            assert(t[i] == "::*"@[i - p.len()]);
        }
    }
    lemma_no_char(t, '{');
    lemma_no_alias(t);
    assert(unaliased(t) == t);
    lemma_tail(p, "::*"@);
    assert(t.take(t.len() - 3) =~= p);
    if t == "self"@ {
        assert(t[t.len() - 1] == 'f');
    }
}

// ---- groups ---------------------------------------------------------------------------------

proof fn lemma_depth(s: Seq<char>)
    requires
        forall|i: int| 0 <= i < s.len() ==> #[trigger] s[i] != '{' && s[i] != '}',
    ensures
        depth_of(s) == 0,
    decreases s.len(),
{
    if s.len() > 0 {
        assert forall|i: int| 0 <= i < s.drop_last().len() implies #[trigger] s.drop_last()[i] != '{' && s.drop_last()[i]
            != '}' by {
            assert(s[i] != '{' && s[i] != '}');
        }
        lemma_depth(s.drop_last());
        assert(s[s.len() - 1] != '{' && s[s.len() - 1] != '}');
    }
}

/// The last piece, up to the comma before it.
proof fn lemma_top_level_push(s: Seq<char>, b: Seq<char>)
    requires
        depth_of(s) == 0,
        forall|i: int| 0 <= i < b.len() ==> #[trigger] b[i] != ',',
    ensures
        top_level(s + seq![','] + b) == top_level(s).push(b),
    decreases b.len(),
{
    let t = s + seq![','] + b;
    if b.len() == 0 {
        assert(t.drop_last() =~= s);
        assert(t.last() == ',');
        assert(b =~= Seq::empty());
    } else {
        let rest = b.drop_last();
        assert forall|i: int| 0 <= i < rest.len() implies #[trigger] rest[i] != ',' by {
            assert(b[i] != ',');
        }
        assert(t.drop_last() =~= s + seq![','] + rest);
        assert(t.last() == b[b.len() - 1]);
        lemma_top_level_push(s, rest);
        let had = top_level(s).push(rest);
        assert(rest.push(b.last()) =~= b);
        assert(had.update(had.len() - 1, had.last().push(b.last())) =~= top_level(s).push(b));
    }
}

proof fn lemma_top_level_one(b: Seq<char>)
    requires
        forall|i: int| 0 <= i < b.len() ==> #[trigger] b[i] != ',',
    ensures
        top_level(b) == seq![b],
    decreases b.len(),
{
    if b.len() == 0 {
        assert(b =~= Seq::empty());
    } else {
        let rest = b.drop_last();
        assert forall|i: int| 0 <= i < rest.len() implies #[trigger] rest[i] != ',' by {
            assert(b[i] != ',');
        }
        lemma_top_level_one(rest);
        assert(b[b.len() - 1] != ',');
        assert(rest.push(b.last()) =~= b);
        assert(top_level(b) =~= seq![b]);
    }
}

/// A bound that all parts keep does not matter.
proof fn lemma_bound(parts: Seq<Seq<char>>, prefix: Seq<char>, m: nat, n: nat)
    requires
        forall|i: int| 0 <= i < parts.len() ==> (#[trigger] parts[i]).len() < m && parts[i].len() < n,
    ensures
        group_facts(parts, prefix, m) == group_facts(parts, prefix, n),
    decreases parts.len(),
{
    if parts.len() > 0 {
        let rest = parts.drop_last();
        assert forall|i: int| 0 <= i < rest.len() implies (#[trigger] rest[i]).len() < m && rest[i].len() < n by {
            assert(rest[i] == parts[i]);
        }
        lemma_bound(rest, prefix, m, n);
        assert(parts[parts.len() - 1].len() < m);
    }
}

/// The tree of a group under a head.
pub open spec fn group(head: Seq<char>, inner: Seq<char>) -> Seq<char> {
    head + seq![':', ':', '{'] + inner + seq!['}']
}

proof fn lemma_group(head: Seq<char>, inner: Seq<char>)
    requires
        is_plain(head),
    ensures
        is_trim(group(head, inner)),
        tree_facts(group(head, inner), Seq::empty()) == group_facts(top_level(inner), head, group(head, inner).len()),
{
    let t = group(head, inner);
    let h = head + seq![':', ':'];
    assert(is_path_char(head[0]) && is_path_char(head[head.len() - 1]));
    assert(t[0] == head[0] && t.last() == '}');
    lemma_trimmed(t);
    assert forall|i: int| 0 <= i < h.len() implies #[trigger] h[i] != '{' by {
        if i < head.len() {
            assert(is_path_char(head[i]));
        }
    }
    assert(t =~= h + seq!['{'] + (inner + seq!['}']));
    lemma_first_char(h, '{', inner + seq!['}']);
    let open = h.len() as int;
    let close = t.len() - 1;
    assert(last_char(t, '}') == close);
    assert(t.take(open) =~= h);
    assert(h[0] == head[0] && h.last() == ':');
    lemma_trimmed(h);
    let one = head + seq![':'];
    assert(h.drop_last() =~= one);
    assert(one.drop_last() =~= head);
    assert(one.last() == ':');
    assert(trim_end_by(h, only(':')) == trim_end_by(one, only(':')));
    assert(trim_end_by(one, only(':')) == trim_end_by(head, only(':')));
    lemma_trimmed(head);
    assert(t.subrange(open + 1, close) =~= inner);
}

/// A group brings what each of its parts brings on its own: the last of several
/// parts, behind those before it.
pub proof fn a_group_brings_what_its_parts_bring(before: Seq<char>, head: Seq<char>, inner: Seq<char>, part: Seq<char>)
    requires
        is_plain(head),
        is_plain(part),
        part != "self"@,
        forall|i: int| 0 <= i < inner.len() ==> #[trigger] inner[i] != '{' && inner[i] != '}',
        is_first_use(before, group(head, inner + seq![','] + part)),
        is_first_use(before, group(head, inner)),
        is_first_use(before, under(head, part)),
    ensures
        use_facts(uses(before, group(head, inner + seq![','] + part))) == use_facts(uses(before, group(head, inner)))
            + use_facts(uses(before, under(head, part))),
{
    let more = inner + seq![','] + part;
    lemma_group(head, inner);
    lemma_group(head, more);
    lemma_use_tree(before, group(head, inner));
    lemma_use_tree(before, group(head, more));
    lemma_depth(inner);
    assert forall|i: int| 0 <= i < part.len() implies #[trigger] part[i] != ',' by {
        assert(is_path_char(part[i]));
    }
    lemma_top_level_push(inner, part);
    let parts = top_level(inner);
    lemma_top_level(inner);
    assert(parts.push(part).drop_last() =~= parts);
    lemma_bound(parts, head, group(head, inner).len(), group(head, more).len());
    lemma_under(before, head, part);
}

/// A group of one part brings what the part brings on its own.
pub proof fn a_group_of_one_brings_what_it_holds(before: Seq<char>, head: Seq<char>, part: Seq<char>)
    requires
        is_plain(head),
        is_plain(part),
        part != "self"@,
        is_first_use(before, group(head, part)),
        is_first_use(before, under(head, part)),
    ensures
        use_facts(uses(before, group(head, part))) == use_facts(uses(before, under(head, part))),
{
    lemma_group(head, part);
    lemma_use_tree(before, group(head, part));
    assert forall|i: int| 0 <= i < part.len() implies #[trigger] part[i] != ',' by {
        assert(is_path_char(part[i]));
    }
    lemma_top_level_one(part);
    let parts = seq![part];
    assert(parts.drop_last() =~= Seq::empty());
    let n = group(head, part).len();
    assert(group_facts(Seq::empty(), head, n) =~= Seq::empty());
    assert(group_facts(parts, head, n) =~= tree_facts(part, head));
    lemma_under(before, head, part);
}

proof fn lemma_under(before: Seq<char>, head: Seq<char>, part: Seq<char>)
    requires
        is_plain(head),
        is_plain(part),
        part != "self"@,
        is_first_use(before, under(head, part)),
    ensures
        use_facts(uses(before, under(head, part))) == tree_facts(part, head),
{
    let t = under(head, part);
    reveal_strlit("self");
    assert("self"@.len() == 4 && "self"@[0] == 's' && "self"@[1] == 'e' && "self"@[2] == 'l' && "self"@[3] == 'f');
    assert(t.last() == part.last() && t[0] == head[0]);
    assert(is_path_char(head[0]) && is_path_char(part[part.len() - 1]));
    assert(t[head.len() as int] == ':');
    assert forall|i: int| 0 <= i < t.len() implies is_path_char(#[trigger] t[i]) by {
        if i < head.len() {
            assert(t[i] == head[i]);
        } else if i >= head.len() + 2 {
            assert(t[i] == part[i - head.len() - 2]);
        }
    }
    lemma_use_tree(before, t);
    lemma_plain(t, Seq::empty());
    lemma_plain(part, head);
}

// ---- what is in scope -----------------------------------------------------------------------

/// A path brings the definition with that qualified name, and every one whose
/// qualified name ends with it.
pub proof fn a_path_admits_what_it_ends(path: Seq<char>, outer: Seq<char>, name: Seq<char>)
    ensures
        ({
            let fact = FactView { path, glob: false };
            &&& fact.admits(path)
            &&& fact.admits(under(outer, path))
            &&& fact.admits(name) ==> name == path || exists|o: Seq<char>| name == #[trigger] under(o, path)
        }),
{
    lemma_tail(outer, sep() + path);
    assert(outer + (sep() + path) =~= under(outer, path));
    let fact = FactView { path, glob: false };
    if fact.admits(name) && name != path {
        let part = sep() + path;
        let o = name.take(name.len() - part.len());
        assert(name.subrange(name.len() - part.len(), name.len() - part.len() + part.len()) == part);
        assert(name =~= o + part);
        assert(name =~= under(o, path));
    }
}

proof fn lemma_glob(path: Seq<char>, rest: Seq<char>)
    requires
        path.len() > 0,
    ensures
        (FactView { path, glob: true }).admits(under(path, rest)) <==> !has_part(rest, sep()),
{
    let s = under(path, rest);
    let n = path.len() as int;
    assert(s.subrange(0, n) =~= path);
    assert(s.skip(n) =~= sep() + rest);
    assert(s.skip(n).subrange(0, 2) =~= sep());
    assert(s.skip(n + 2) =~= rest);
}

/// A glob brings what is right in the module, not what is further in, nor what is
/// elsewhere.
pub proof fn a_glob_admits_what_is_in_the_module(path: Seq<char>, name: Seq<char>, deep: Seq<char>)
    requires
        path.len() > 0,
        is_one_word(name),
        name.len() > 0 ==> name[0] != ':',
    ensures
        (FactView { path, glob: true }).admits(under(path, name)),
        !(FactView { path, glob: true }).admits(under(path, under(deep, name))),
        (FactView { path: Seq::empty(), glob: true }).admits(name),
        !(FactView { path: Seq::empty(), glob: true }).admits(under(path, name)),
{
    the_bare_name_is_the_last_segment(path, name);
    the_bare_name_is_the_last_segment(deep, name);
    assert(sep() =~= seq![':', ':']);
    lemma_glob(path, name);
    lemma_glob(path, under(deep, name));
}

} // verus!
