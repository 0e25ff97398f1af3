//! What settings say, and what a project is called.

use vstd::prelude::*;

use crate::config::{
    anchored, config_value, find_setting, given_id, id_char, is_alphanumeric, path_below, sanitized,
    setting, unquoted, ConfigFault, ResolvedView, SourceView,
};
use crate::db::names_embedded;
use crate::index::resolve::imports::{is_trim, lemma_trimmed};
use crate::lines::lemma_split_joined;
use crate::text::{
    begins_with, char_place, first_place, has_part, is_space, joined, lowered, occurs_at, only, split_char, trim_end_by,
    trim_start_by, trimmed,
};

verus! {

// ---- lines ----------------------------------------------------------------------------------

/// A line that says nothing: blank, a comment, or without an equals sign and no
/// section.
pub open spec fn is_silent(line: Seq<char>) -> bool {
    let t = trimmed(line);
    t.len() == 0 || t[0] == '#' || (t[0] != '[' && !t.contains('='))
}

/// The lines of a file.
pub open spec fn file_of(lines: Seq<Seq<char>>) -> Seq<char> {
    joined(lines, seq!['\n'])
}

proof fn lemma_no_place(s: Seq<char>, x: char)
    requires
        !s.contains(x),
    ensures
        char_place(s, x) == s.len(),
    decreases s.len(),
{
    if s.len() > 0 {
        assert(s.contains(s[0]));
        let rest = s.skip(1);
        if rest.contains(x) {
            let k = choose|k: int| 0 <= k < rest.len() && rest[k] == x;
            assert(s[k + 1] == x);
        }
        lemma_no_place(rest, x);
    }
}

proof fn lemma_place(a: Seq<char>, x: char, b: Seq<char>)
    requires
        !a.contains(x),
    ensures
        char_place(a + seq![x] + b, x) == a.len(),
    decreases a.len(),
{
    let s = a + seq![x] + b;
    if a.len() > 0 {
        assert(a.contains(a[0]));
        assert(s[0] == a[0]);
        let rest = a.skip(1);
        if rest.contains(x) {
            let k = choose|k: int| 0 <= k < rest.len() && rest[k] == x;
            assert(a[k + 1] == x);
        }
        assert(s.skip(1) =~= rest + seq![x] + b);
        lemma_place(rest, x, b);
    } else {
        assert(s[0] == x);
    }
}

proof fn lemma_silent(lines: Seq<Seq<char>>, key: Seq<char>, i: int, k: nat)
    requires
        0 <= k <= i <= lines.len(),
        forall|j: int| 0 <= j < i ==> is_silent(#[trigger] lines[j]),
    ensures
        find_setting(lines, key, k) == find_setting(lines, key, i as nat),
    decreases i - k,
{
    if k < i {
        assert(is_silent(lines[k as int]));
        let t = trimmed(lines[k as int]);
        if t.len() > 0 && t[0] != '#' {
            lemma_no_place(t, '=');
        }
        lemma_silent(lines, key, i, k + 1);
    }
}

proof fn lemma_lines(lines: Seq<Seq<char>>)
    requires
        lines.len() > 0,
        forall|j: int| 0 <= j < lines.len() ==> !(#[trigger] lines[j]).contains('\n'),
    ensures
        split_char(file_of(lines), '\n') == lines,
{
    lemma_split_joined(lines, '\n');
}

/// A line that sets a key: the key, an equals sign with a space on both sides,
/// and a value.
pub open spec fn sets(key: Seq<char>, value: Seq<char>) -> Seq<char> {
    key + seq![' ', '=', ' '] + value
}

/// A key: a word without an equals sign that begins no comment and no section.
pub open spec fn is_key(key: Seq<char>) -> bool {
    is_trim(key) && !key.contains('=') && key[0] != '#' && key[0] != '['
}

proof fn lemma_sets(key: Seq<char>, value: Seq<char>)
    requires
        is_key(key),
        value.len() > 0,
        !is_space(value[0]),
        !is_space(value.last()),
    ensures
        ({
            let line = sets(key, value);
            &&& trimmed(line) == line
            &&& line.len() > 0 && line[0] != '#' && line[0] != '['
            &&& setting(line, key) == Some(value)
        }),
{
    let line = sets(key, value);
    let a = key + seq![' '];
    let b = seq![' '] + value;
    assert(line =~= a + seq!['='] + b);
    assert(line[0] == key[0] && line.last() == value.last());
    lemma_trimmed(line);
    assert(!a.contains('=')) by {
        if a.contains('=') {
            let k = choose|k: int| 0 <= k < a.len() && a[k] == '=';
            assert(k < key.len());
            assert(key[k] == '=');
        }
    }
    lemma_place(a, '=', b);
    assert(line.take(a.len() as int) =~= a);
    assert(line.skip(a.len() + 1int) =~= b);
    lemma_trimmed(key);
    lemma_trimmed(value);
    assert(a[0] == key[0]);
    assert(trim_start_by(a, crate::text::space()) == a);
    assert(a.drop_last() =~= key);
    assert(trimmed(a) == trim_end_by(key, crate::text::space()));
    assert(b.drop_first() =~= value);
    assert(trim_start_by(b, crate::text::space()) == trim_start_by(value, crate::text::space()));
}

/// What a file says of a key is what its first line that says anything sets: the
/// text between the quotes of that line.
pub proof fn the_first_setting_counts(lines: Seq<Seq<char>>, i: int, key: Seq<char>, quote: char, value: Seq<char>)
    requires
        0 <= i < lines.len() <= u64::MAX,
        forall|j: int| 0 <= j < lines.len() ==> !(#[trigger] lines[j]).contains('\n'),
        forall|j: int| 0 <= j < i ==> is_silent(#[trigger] lines[j]),
        is_key(key),
        quote == '"' || quote == '\'',
        !value.contains(quote),
        lines[i] == sets(key, seq![quote] + value + seq![quote]),
    ensures
        config_value(Some(file_of(lines)), key) == if trimmed(value).len() > 0 {
            Ok::<Option<Seq<char>>, ConfigFault>(Some(trimmed(value)))
        } else {
            Err(ConfigFault::Empty((i + 1) as u64))
        },
{
    lemma_lines(lines);
    lemma_silent(lines, key, i, 0);
    let v = seq![quote] + value + seq![quote];
    lemma_sets(key, v);
    let rest = v.skip(1);
    assert(rest =~= value + seq![quote] + Seq::<char>::empty());
    lemma_place(value, quote, Seq::empty());
    assert(rest.take(value.len() as int) =~= value);
    assert(unquoted(v) == Some(value));
}

/// A quote that is not closed is a fault.
pub proof fn an_open_quote_is_a_fault(lines: Seq<Seq<char>>, i: int, key: Seq<char>, quote: char, value: Seq<char>)
    requires
        0 <= i < lines.len() <= u64::MAX,
        forall|j: int| 0 <= j < lines.len() ==> !(#[trigger] lines[j]).contains('\n'),
        forall|j: int| 0 <= j < i ==> is_silent(#[trigger] lines[j]),
        is_key(key),
        quote == '"' || quote == '\'',
        value.len() > 0,
        !value.contains(quote),
        !is_space(value.last()),
        lines[i] == sets(key, seq![quote] + value),
    ensures
        config_value(Some(file_of(lines)), key) == Err::<Option<Seq<char>>, ConfigFault>(
            ConfigFault::Unterminated((i + 1) as u64),
        ),
{
    lemma_lines(lines);
    lemma_silent(lines, key, i, 0);
    let v = seq![quote] + value;
    assert(v.last() == value.last());
    lemma_sets(key, v);
    assert(v.skip(1) =~= value);
    lemma_no_place(value, quote);
}

/// Nothing is set from the first section on, nor in a file without settings, nor
/// without a file.
pub proof fn a_section_ends_the_settings(lines: Seq<Seq<char>>, i: int, key: Seq<char>)
    requires
        0 <= i <= lines.len(),
        lines.len() > 0,
        forall|j: int| 0 <= j < lines.len() ==> !(#[trigger] lines[j]).contains('\n'),
        forall|j: int| 0 <= j < i ==> is_silent(#[trigger] lines[j]),
        i < lines.len() ==> trimmed(lines[i]).len() > 0 && trimmed(lines[i])[0] == '[',
    ensures
        config_value(Some(file_of(lines)), key) == Ok::<Option<Seq<char>>, ConfigFault>(None),
        config_value(None, key) == Ok::<Option<Seq<char>>, ConfigFault>(None),
{
    lemma_lines(lines);
    lemma_silent(lines, key, i, 0);
}

// ---- ids ------------------------------------------------------------------------------------

/// An id that was given on the command line counts, whatever else says one, and a
/// blank one is an error; then one of the environment counts, unless it is blank.
pub proof fn what_is_given_counts_first(id: Seq<char>, environment: Option<Seq<char>>)
    ensures
        trimmed(id).len() > 0 ==> given_id(Some(id), environment) == Some(
            Ok::<ResolvedView, Seq<char>>(ResolvedView { id: trimmed(id), source: SourceView::Explicit }),
        ),
        trimmed(id).len() == 0 ==> given_id(Some(id), environment) matches Some(Err(_)),
        trimmed(id).len() > 0 ==> given_id(None, Some(id)) == Some(
            Ok::<ResolvedView, Seq<char>>(ResolvedView { id: trimmed(id), source: SourceView::Environment }),
        ),
        trimmed(id).len() == 0 ==> given_id(None, Some(id)) is None,
        given_id(None, None) is None,
{
}

/// A character that an id can hold.
pub open spec fn is_id_char(c: char) -> bool {
    ('a' <= c <= 'z') || ('A' <= c <= 'Z') || ('0' <= c <= '9') || c == '_' || c == '-'
}

/// A letter or a digit.
pub open spec fn is_solid(c: char) -> bool {
    ('a' <= c <= 'z') || ('A' <= c <= 'Z') || ('0' <= c <= '9')
}

proof fn lemma_trim_start(s: Seq<char>) -> (k: int)
    ensures
        0 <= k <= s.len(),
        trim_start_by(s, only('_')) == s.skip(k),
        forall|j: int| 0 <= j < k ==> #[trigger] s[j] == '_',
        k < s.len() ==> s[k] != '_',
    decreases s.len(),
{
    if s.len() > 0 && s[0] == '_' {
        let k = lemma_trim_start(s.drop_first());
        assert(s.drop_first().skip(k) =~= s.skip(k + 1));
        assert forall|j: int| 0 <= j < k + 1 implies #[trigger] s[j] == '_' by {
            if j > 0 {
                assert(s.drop_first()[j - 1] == s[j]);
            }
        }
        k + 1
    } else {
        assert(s.skip(0) =~= s);
        0
    }
}

proof fn lemma_trim_end(s: Seq<char>) -> (k: int)
    ensures
        0 <= k <= s.len(),
        trim_end_by(s, only('_')) == s.take(k),
        forall|j: int| k <= j < s.len() ==> #[trigger] s[j] == '_',
        k > 0 ==> s[k - 1] != '_',
    decreases s.len(),
{
    if s.len() > 0 && s.last() == '_' {
        let k = lemma_trim_end(s.drop_last());
        assert(s.drop_last().take(k) =~= s.take(k));
        assert forall|j: int| k <= j < s.len() implies #[trigger] s[j] == '_' by {
            if j < s.len() - 1 {
                assert(s.drop_last()[j] == s[j]);
            }
        }
        k
    } else {
        assert(s.take(s.len() as int) =~= s);
        s.len() as int
    }
}

/// An id is a part of the name, letter by letter, with an underscore for every
/// character that an id cannot hold; at both ends only such are left out. A name
/// without a letter or a digit makes no id.
pub proof fn an_id_is_the_name_made_plain(name: Seq<char>) -> (from: int)
    ensures
        sanitized(name) is None <==> forall|j: int| 0 <= j < name.len() ==> !is_solid(#[trigger] name[j]),
        sanitized(name) matches Some(id) ==> {
            &&& 0 <= from && from + id.len() <= name.len()
            &&& id.len() > 0 && id[0] != '_' && id.last() != '_'
            &&& forall|j: int| 0 <= j < id.len() ==> #[trigger] id[j] == if is_id_char(name[from + j]) {
                name[from + j]
            } else {
                '_'
            }
            &&& forall|j: int| 0 <= j < name.len() && !(from <= j < from + id.len()) ==> (#[trigger] name[j] == '_'
                || !is_id_char(name[j]))
        },
{
    let plain = name.map_values(|c: char| id_char(c));
    let from = lemma_trim_start(plain);
    let tail = plain.skip(from);
    let n = lemma_trim_end(tail);
    let bare = tail.take(n);
    assert forall|j: int| 0 <= j < name.len() && !(from <= j < from + n) implies plain[j] == '_' by {
        if j >= from + n {
            assert(tail[j - from] == '_');
        }
    }
    assert forall|j: int| 0 <= j < bare.len() implies #[trigger] bare[j] == plain[from + j] by {}
    if sanitized(name) is None {
        assert forall|j: int| 0 <= j < name.len() implies !is_solid(#[trigger] name[j]) by {
            if is_solid(name[j]) {
                assert(plain[j] == name[j]);
                assert(from <= j < from + n);
                assert(bare[j - from] == name[j]);
                assert(is_alphanumeric(bare[j - from]));
            }
        }
    }
    if sanitized(name) is Some {
        let k = choose|k: int| 0 <= k < bare.len() && is_alphanumeric(#[trigger] bare[k]);
        assert(plain[from + k] == bare[k]);
        assert(is_solid(name[from + k]));
        assert(bare[0] == plain[from]);
        assert(bare.last() == tail[n - 1]);
        assert forall|j: int| 0 <= j < bare.len() implies #[trigger] bare[j] == if is_id_char(name[from + j]) {
            name[from + j]
        } else {
            '_'
        } by {
            assert(bare[j] == plain[from + j]);
        }
        assert forall|j: int| 0 <= j < name.len() && !(from <= j < from + bare.len()) implies (#[trigger] name[j] == '_'
            || !is_id_char(name[j])) by {
            assert(plain[j] == '_');
            assert(plain[j] == id_char(name[j]));
        }
    }
    from
}

// ---- places ---------------------------------------------------------------------------------

/// A relative path stands below its base, with one slash between them; an
/// absolute one stands alone.
pub proof fn a_relative_path_stands_below_its_base(base: Seq<char>, path: Seq<char>)
    requires
        path.len() > 0,
    ensures
        path[0] == '/' ==> path_below(base, path) == path,
        path[0] != '/' && base.len() > 0 && base.last() != '/' ==> path_below(base, path) == base + seq!['/'] + path
            && path_below(base + seq!['/'], path) == base + seq!['/'] + path,
        base.len() == 0 ==> path_below(base, path) == path,
{
    reveal_strlit("/");
    assert("/"@ =~= seq!['/']);
    assert(begins_with(path, "/"@) <==> path[0] == '/') by {
        assert(path.subrange(0, 1) =~= seq![path[0]]);
        if begins_with(path, "/"@) {
            assert(path.subrange(0, 1)[0] == '/');
        }
    }
    assert((base + seq!['/']).last() == '/');
}

/// A store below the project is anchored at its root; a store with an absolute
/// path and a server are not touched.
pub proof fn a_store_is_anchored_at_the_root(path: Seq<char>, root: Seq<char>, raw: Seq<char>)
    requires
        path.len() > 0,
        root.len() > 0,
        root.last() != '/',
    ensures
        path[0] != '/' ==> anchored("surrealkv://"@ + path, root) == "surrealkv://"@ + root + seq!['/'] + path,
        path[0] == '/' ==> anchored("surrealkv://"@ + path, root) == "surrealkv://"@ + path,
        !begins_with(raw, "surrealkv://"@) ==> anchored(raw, root) == raw,
{
    let word = "surrealkv://"@;
    reveal_strlit("surrealkv://");
    reveal_strlit("/");
    assert("/"@ =~= seq!['/']);
    let url = word + path;
    assert(word.len() == 12);
    assert(url.subrange(0, 12) =~= word);
    assert(url.skip(12) =~= path);
    assert(begins_with(path, "/"@) <==> path[0] == '/') by {
        assert(path.subrange(0, 1) =~= seq![path[0]]);
        if begins_with(path, "/"@) {
            assert(path.subrange(0, 1)[0] == '/');
        }
    }
    a_relative_path_stands_below_its_base(root, path);
    assert(word + (root + seq!['/'] + path) =~= word + root + seq!['/'] + path);
}

/// Whether a store runs in this process is told by the scheme of its address, in
/// any case.
pub proof fn the_scheme_tells_an_embedded_store(name: Seq<char>, rest: Seq<char>)
    requires
        !name.contains(':'),
    ensures
        names_embedded(name + "://"@ + rest) <==> lowered(name) == "surrealkv"@ || lowered(name) == "mem"@,
        names_embedded(name) <==> lowered(name) == "surrealkv"@ || lowered(name) == "mem"@,
{
    let word = "://"@;
    reveal_strlit("://");
    assert(word.len() == 3 && word[0] == ':');
    let url = name + word + rest;
    let at = name.len() as int;
    assert(url.subrange(at, at + 3) =~= word);
    assert(occurs_at(url, word, at));
    assert forall|j: int| 0 <= j < at implies !#[trigger] occurs_at(url, word, j) by {
        if occurs_at(url, word, j) {
            assert(url.subrange(j, j + 3)[0] == ':');
            assert(url[j] == name[j]);
            assert(name.contains(name[j]));
        }
    }
    let k = first_place(url, word);
    assert(occurs_at(url, word, k) && forall|j: int| 0 <= j < k ==> !#[trigger] occurs_at(url, word, j));
    assert(k == at);
    assert(url.take(at) =~= name);
    if has_part(name, word) {
        let j = choose|j: int| #[trigger] occurs_at(name, word, j);
        assert(name.subrange(j, j + 3)[0] == ':');
        assert(name[j] == ':');
        assert(name.contains(name[j]));
    }
}

} // verus!
