//! What a Rust `use` declaration brings into scope.

use vstd::prelude::*;

use crate::index::resolve::names::{sep, sep_chars};
use crate::text::{
    begins_with, chars_of, find_part, finishes_with, first_place, has_part, occurs_at, only,
    same_text, stands_at, text_between, trim_end_by, trim_end_char, trim_range, trim_start_by,
    trimmed,
};

verus! {

/// One path that a `use` declaration brings into scope.
#[derive(Debug, Clone, PartialEq, Eq)]
pub struct ImportFact {
    /// The path, without a leading `crate` segment.
    pub path: String,
    /// Does the declaration name the direct children of the path?
    pub glob: bool,
}

pub struct FactView {
    pub path: Seq<char>,
    pub glob: bool,
}

impl DeepView for ImportFact {
    type V = FactView;

    open spec fn deep_view(&self) -> FactView {
        FactView { path: self.path@, glob: self.glob }
    }
}

impl FactView {
    /// Does the declaration bring the definition with this qualified name into scope?
    pub open spec fn admits(self, name: Seq<char>) -> bool {
        if self.glob {
            if self.path.len() == 0 {
                !has_part(name, sep())
            } else {
                &&& begins_with(name, self.path)
                &&& begins_with(name.skip(self.path.len() as int), sep())
                &&& !has_part(name.skip(self.path.len() + 2int), sep())
            }
        } else {
            name == self.path || finishes_with(name, sep() + self.path)
        }
    }
}

/// Does `part` stand in `v` at or after place `from`?
fn has_part_from(v: &Vec<char>, part: &Vec<char>, from: usize) -> (r: bool)
    requires
        from <= v.len(),
    ensures
        r == has_part(v@.skip(from as int), part@),
{
    let ghost rest = v@.skip(from as int);
    proof {
        assert forall|j: int| from <= j implies #[trigger] occurs_at(v@, part@, j) == occurs_at(rest, part@, j - from) by {
            if j + part@.len() <= v.len() {
                assert(v@.subrange(j, j + part@.len()) =~= rest.subrange(j - from, j - from + part@.len()));
            }
        }
    }
    let mut i: usize = from;
    loop
        invariant
            from <= i <= v.len(),
            rest == v@.skip(from as int),
            forall|j: int| from <= j ==> #[trigger] occurs_at(v@, part@, j) == occurs_at(rest, part@, j - from),
            forall|j: int| from <= j < i ==> !#[trigger] occurs_at(v@, part@, j),
        decreases v.len() - i,
    {
        if stands_at(v, part, i) {
            assert(occurs_at(rest, part@, i - from));
            return true;
        }
        if i == v.len() {
            proof {
                if has_part(rest, part@) {
                    let k = choose|k: int| #[trigger] occurs_at(rest, part@, k);
                    assert(occurs_at(v@, part@, from + k) == occurs_at(rest, part@, from + k - from));
                }
            }
            return false;
        }
        i = i + 1;
    }
}

impl ImportFact {
    /// Does the declaration bring the definition with this qualified name into scope?
    pub fn matches(&self, candidate_qualified_name: &str) -> (r: bool)
        ensures
            r == self.deep_view().admits(candidate_qualified_name@),
    {
        let name = chars_of(candidate_qualified_name);
        let path = chars_of(self.path.as_str());
        let colons = sep_chars();
        if self.glob {
            if path.len() == 0 {
                assert(name@.skip(0) =~= name@);
                return !has_part_from(&name, &colons, 0);
            }
            if !stands_at(&name, &path, 0) {
                return false;
            }
            assert(name.len() >= path.len());
            proof {
                let rest = name@.skip(path@.len() as int);
                if path@.len() + 2 <= name@.len() {
                    assert(name@.subrange(path@.len() as int, path@.len() + 2int) =~= rest.subrange(0, 2));
                }
            }
            if !stands_at(&name, &colons, path.len()) {
                return false;
            }
            return !has_part_from(&name, &colons, path.len() + 2);
        }
        if same_text(candidate_qualified_name, self.path.as_str()) {
            return true;
        }
        let mut tail = sep_chars();
        let mut rest = path;
        tail.append(&mut rest);
        if tail.len() > name.len() {
            return false;
        }
        stands_at(&name, &tail, name.len() - tail.len())
    }
}

// ---- parsing --------------------------------------------------------------------------

/// Two path parts, one after the other.
pub open spec fn path_joined(prefix: Seq<char>, segment: Seq<char>) -> Seq<char> {
    let s = trimmed(segment);
    if prefix.len() == 0 {
        s
    } else if s.len() == 0 {
        prefix
    } else {
        prefix + sep() + s
    }
}

/// A path without its leading `crate` segment.
pub open spec fn without_crate(path: Seq<char>) -> Seq<char> {
    if begins_with(path, "crate::"@) {
        path.skip(7)
    } else if path == "crate"@ {
        Seq::empty()
    } else {
        path
    }
}

/// Open braces that are not closed.
pub open spec fn depth_of(s: Seq<char>) -> int
    decreases s.len(),
{
    if s.len() == 0 {
        0
    } else {
        depth_of(s.drop_last()) + (if s.last() == '{' {
            1int
        } else if s.last() == '}' {
            -1int
        } else {
            0int
        })
    }
}

/// The pieces between the commas that stand outside braces.
pub open spec fn top_level(s: Seq<char>) -> Seq<Seq<char>>
    decreases s.len(),
{
    if s.len() == 0 {
        seq![Seq::empty()]
    } else {
        let rest = top_level(s.drop_last());
        if s.last() == ',' && depth_of(s.drop_last()) == 0 {
            rest.push(Seq::empty())
        } else {
            rest.update(rest.len() - 1, rest.last().push(s.last()))
        }
    }
}

/// The first place of a character, or the length.
pub open spec fn first_char(s: Seq<char>, c: char) -> int
    decreases s.len(),
{
    if s.len() == 0 {
        0
    } else if first_char(s.drop_last(), c) < s.len() - 1 {
        first_char(s.drop_last(), c)
    } else if s.last() == c {
        s.len() - 1
    } else {
        s.len() as int
    }
}

/// The last place of a character, or -1.
pub open spec fn last_char(s: Seq<char>, c: char) -> int
    decreases s.len(),
{
    if s.len() == 0 {
        -1
    } else if s.last() == c {
        s.len() - 1
    } else {
        last_char(s.drop_last(), c)
    }
}

/// The path of a tree without braces, without its alias.
pub open spec fn unaliased(tree: Seq<char>) -> Seq<char> {
    if has_part(tree, " as "@) {
        trimmed(tree.take(first_place(tree, " as "@)))
    } else {
        trimmed(tree)
    }
}

/// What a single path brings into scope: nothing for `self`, the children of
/// the module for a glob, the path itself otherwise.
pub open spec fn path_facts(tree: Seq<char>, prefix: Seq<char>) -> Seq<FactView> {
    let part = unaliased(tree);
    let full = path_joined(prefix, part);
    if part.len() == 0 || part == "self"@ {
        Seq::empty()
    } else if finishes_with(full, "::*"@) {
        seq![FactView { path: without_crate(full.take(full.len() - 3)), glob: true }]
    } else if full == "*"@ {
        seq![FactView { path: without_crate(prefix), glob: true }]
    } else {
        seq![FactView { path: without_crate(full), glob: false }]
    }
}

/// What a use tree under a prefix brings into scope. A group distributes its
/// head over its parts. A group whose braces do not close is malformed and
/// brings nothing.
pub open spec fn tree_facts(tree: Seq<char>, prefix: Seq<char>) -> Seq<FactView>
    decreases tree.len(), 1nat, 0nat,
{
    let t = trimmed(tree);
    let open = first_char(t, '{');
    let close = last_char(t, '}');
    if t.len() == 0 {
        Seq::empty()
    } else if open < t.len() {
        if close < open {
            Seq::empty()
        } else {
            let head = trim_end_by(trimmed(t.take(open)), only(':'));
            group_facts(
                top_level(t.subrange(open + 1, close)),
                path_joined(prefix, head),
                tree.len(),
            )
        }
    } else {
        path_facts(t, prefix)
    }
}

/// What the parts of a group bring into scope; each is shorter than `bound`.
pub open spec fn group_facts(
    parts: Seq<Seq<char>>,
    prefix: Seq<char>,
    bound: nat,
) -> Seq<FactView>
    decreases bound, 0nat, parts.len(),
{
    if parts.len() == 0 {
        Seq::empty()
    } else {
        group_facts(parts.drop_last(), prefix, bound) + (if parts.last().len() < bound {
            tree_facts(parts.last(), prefix)
        } else {
            Seq::empty()
        })
    }
}

/// The tree of a `use` declaration: what follows the first `use `, without
/// the semicolon.
pub open spec fn use_tree(raw: Seq<char>) -> Seq<char> {
    trimmed(
        trim_end_by(trimmed(raw.skip(first_place(raw, "use "@) + 4)), only(';')),
    )
}

/// What a `use` declaration brings into scope.
pub open spec fn use_facts(raw: Seq<char>) -> Seq<FactView> {
    if has_part(raw, "use "@) {
        tree_facts(use_tree(raw), Seq::empty())
    } else {
        Seq::empty()
    }
}

proof fn lemma_trim_start_len(s: Seq<char>, p: spec_fn(char) -> bool)
    ensures
        trim_start_by(s, p).len() <= s.len(),
    decreases s.len(),
{
    if s.len() > 0 && p(s[0]) {
        lemma_trim_start_len(s.drop_first(), p);
    }
}

proof fn lemma_trim_end_len(s: Seq<char>, p: spec_fn(char) -> bool)
    ensures
        trim_end_by(s, p).len() <= s.len(),
    decreases s.len(),
{
    if s.len() > 0 && p(s.last()) {
        lemma_trim_end_len(s.drop_last(), p);
    }
}

pub proof fn lemma_top_level(s: Seq<char>)
    ensures
        top_level(s).len() > 0,
        forall|i: int| 0 <= i < top_level(s).len() ==> (#[trigger] top_level(s)[i]).len() <= s.len(),
    decreases s.len(),
{
    if s.len() > 0 {
        lemma_top_level(s.drop_last());
    }
}

proof fn lemma_depth_bound(s: Seq<char>)
    ensures
        -(s.len() as int) <= depth_of(s) <= s.len(),
    decreases s.len(),
{
    if s.len() > 0 {
        lemma_depth_bound(s.drop_last());
    }
}

fn join_path(prefix: &str, segment: &str) -> (r: String)
    ensures
        r@ == path_joined(prefix@, segment@),
{
    let s = crate::text::trim_text(segment);
    if prefix.is_empty() {
        s
    } else if s.as_str().is_empty() {
        prefix.to_owned()
    } else {
        let mut r = prefix.to_owned();
        r.push(':');
        r.push(':');
        r.append(s.as_str());
        assert(r@ =~= prefix@ + sep() + s@);
        r
    }
}

fn strip_crate_prefix(path: &str) -> (r: String)
    ensures
        r@ == without_crate(path@),
{
    proof {
        reveal_strlit("crate::");
    }
    let v = chars_of(path);
    let head = chars_of("crate::");
    if stands_at(&v, &head, 0) {
        assert(v@.subrange(7, v.len() as int) =~= v@.skip(7));
        text_between(&v, 7, v.len())
    } else if same_text(path, "crate") {
        String::new()
    } else {
        path.to_owned()
    }
}

/// The pieces between the commas that stand outside braces.
fn split_top_level(s: &Vec<char>) -> (r: Vec<Vec<char>>)
    ensures
        r.deep_view() == top_level(s@),
{
    let mut out: Vec<Vec<char>> = Vec::new();
    let mut current: Vec<char> = Vec::new();
    let mut depth: i128 = 0;
    let mut i: usize = 0;
    assert(out.deep_view().push(current@) =~= top_level(s@.take(0)));
    while i < s.len()
        invariant
            i <= s.len(),
            depth == depth_of(s@.take(i as int)),
            -(i as int) <= depth <= i,
            out.deep_view().push(current@) == top_level(s@.take(i as int)),
        decreases s.len() - i,
    {
        let ghost before = out.deep_view().push(current@);
        assert(s@.take(i + 1).drop_last() =~= s@.take(i as int));
        let c: char = s[i];
        if c == ',' && depth == 0 {
            let ghost prior = out.deep_view();
            let ghost piece = current@;
            assert(current.deep_view() =~= current@);
            out.push(current);
            current = Vec::new();
            assert(out.deep_view() =~= prior.push(piece));
            assert(out.deep_view().push(current@) =~= before.push(Seq::empty()));
        } else {
            if c == '{' {
                depth = depth + 1;
            } else if c == '}' {
                depth = depth - 1;
            }
            let ghost piece = current@;
            current.push(c);
            assert(out.deep_view().push(current@) =~= before.update(before.len() - 1, piece.push(c)));
        }
        i = i + 1;
    }
    let ghost prior = out.deep_view();
    let ghost piece = current@;
    assert(current.deep_view() =~= current@);
    out.push(current);
    assert(out.deep_view() =~= prior.push(piece));
    assert(s@.take(s.len() as int) =~= s@);
    out
}

fn find_first_char(v: &Vec<char>, from: usize, to: usize, c: char) -> (r: usize)
    requires
        from <= to <= v.len(),
    ensures
        from <= r <= to,
        r - from == first_char(v@.subrange(from as int, to as int), c),
{
    let mut i: usize = from;
    let mut found: usize = from;
    assert(v@.subrange(from as int, from as int) =~= Seq::<char>::empty());
    while i < to
        invariant
            from <= i <= to <= v.len(),
            from <= found <= i,
            found - from == first_char(v@.subrange(from as int, i as int), c),
        decreases to - i,
    {
        assert(v@.subrange(from as int, i + 1).drop_last() =~= v@.subrange(from as int, i as int));
        if found == i && v[i] != c {
            found = i + 1;
        }
        i = i + 1;
    }
    found
}

fn find_last_char(v: &Vec<char>, from: usize, to: usize, c: char) -> (r: Option<usize>)
    requires
        from <= to <= v.len(),
    ensures
        match r {
            Some(i) => from <= i < to && i - from == last_char(v@.subrange(from as int, to as int), c),
            None => last_char(v@.subrange(from as int, to as int), c) == -1,
        },
{
    let mut i: usize = to;
    let ghost whole = v@.subrange(from as int, to as int);
    while i > from
        invariant
            from <= i <= to <= v.len(),
            whole == v@.subrange(from as int, to as int),
            last_char(v@.subrange(from as int, i as int), c) == last_char(whole, c),
        decreases i,
    {
        assert(v@.subrange(from as int, i as int).drop_last() =~= v@.subrange(from as int, i - 1));
        if v[i - 1] == c {
            return Some(i - 1);
        }
        i = i - 1;
    }
    None
}

/// Adds what a single path brings into scope.
fn push_path_facts(tree: &Vec<char>, prefix: &str, out: &mut Vec<ImportFact>)
    ensures
        final(out).deep_view() == old(out).deep_view() + path_facts(tree@, prefix@),
{
    let ghost start = out.deep_view();
    let alias = chars_of(" as ");
    let end: usize = match find_part(tree, &alias) {
        Some(i) => i,
        None => tree.len(),
    };
    assert(tree@.subrange(0, end as int) =~= tree@.take(end as int));
    assert(tree@.take(tree@.len() as int) =~= tree@);
    assert(end == tree.len() || has_part(tree@, " as "@));
    proof {
        if has_part(tree@, " as "@) {
            if end == tree.len() {
                reveal_strlit(" as ");
            }
        }
    }
    let (a, b) = trim_range(tree, 0, end);
    let part = text_between(tree, a, b);
    assert(part@ == unaliased(tree@));
    if part.as_str().is_empty() || same_text(part.as_str(), "self") {
        assert(start + path_facts(tree@, prefix@) =~= start);
        return;
    }
    let full = join_path(prefix, part.as_str());
    let chars = chars_of(full.as_str());
    let star = chars_of("::*");
    proof {
        reveal_strlit("::*");
    }
    let fact = if chars.len() >= 3 && stands_at(&chars, &star, chars.len() - 3) {
        let module = text_between(&chars, 0, chars.len() - 3);
        assert(module@ =~= full@.take(full@.len() - 3));
        ImportFact { path: strip_crate_prefix(module.as_str()), glob: true }
    } else if same_text(full.as_str(), "*") {
        ImportFact { path: strip_crate_prefix(prefix), glob: true }
    } else {
        ImportFact { path: strip_crate_prefix(full.as_str()), glob: false }
    };
    let ghost view = fact.deep_view();
    out.push(fact);
    assert(out.deep_view() =~= start.push(view));
    assert(start.push(view) =~= start + seq![view]);
}

/// Adds what a use tree under a prefix brings into scope.
fn parse_use_tree(tree: &Vec<char>, prefix: &str, out: &mut Vec<ImportFact>)
    ensures
        final(out).deep_view() == old(out).deep_view() + tree_facts(tree@, prefix@),
    decreases tree.len(),
{
    let ghost start = out.deep_view();
    let (a, b) = trim_range(tree, 0, tree.len());
    assert(tree@.subrange(0, tree.len() as int) =~= tree@);
    let ghost t = tree@.subrange(a as int, b as int);
    assert(t == trimmed(tree@));
    if a == b {
        assert(start + tree_facts(tree@, prefix@) =~= start);
        return;
    }
    let open: usize = find_first_char(tree, a, b, '{');
    if open < b {
        match find_last_char(tree, a, b, '}') {
            None => {
                assert(start + tree_facts(tree@, prefix@) =~= start);
            },
            Some(close) => {
                if close < open {
                    assert(start + tree_facts(tree@, prefix@) =~= start);
                    return;
                }
                proof {
                    lemma_first_last(t);
                }
                let (c, d) = trim_range(tree, a, open);
                let e: usize = trim_end_char(tree, c, d, ':');
                let head = text_between(tree, c, e);
                assert(t.take(open - a) =~= tree@.subrange(a as int, open as int));
                let inner_prefix = join_path(prefix, head.as_str());
                let inner = copy_range(tree, open + 1, close);
                assert(inner@ =~= t.subrange(open - a + 1, close - a));
                let parts = split_top_level(&inner);
                proof {
                    lemma_top_level(inner@);
                }
                let ghost views = parts.deep_view();
                let mut i: usize = 0;
                assert(start + group_facts(views.take(0), inner_prefix@, tree@.len()) =~= start);
                while i < parts.len()
                    invariant
                        i <= parts.len(),
                        views == parts.deep_view(),
                        views == top_level(inner@),
                        inner.len() < tree.len(),
                        forall|k: int| 0 <= k < views.len() ==> (#[trigger] views[k]).len() <= inner@.len(),
                        out.deep_view() == start + group_facts(views.take(i as int), inner_prefix@, tree@.len()),
                    decreases parts.len() - i,
                {
                    let ghost before = out.deep_view();
                    assert(parts[i as int].deep_view() =~= parts[i as int]@);
                    assert(views[i as int] == parts[i as int]@);
                    assert(views.take(i + 1).drop_last() =~= views.take(i as int));
                    parse_use_tree(&parts[i], inner_prefix.as_str(), out);
                    assert(out.deep_view() =~= start + group_facts(views.take(i + 1), inner_prefix@, tree@.len()));
                    i = i + 1;
                }
                assert(views.take(views.len() as int) =~= views);
            },
        }
        return;
    }
    let single = copy_range(tree, a, b);
    push_path_facts(&single, prefix, out);
}

proof fn lemma_first_char_is(s: Seq<char>, c: char)
    ensures
        0 <= first_char(s, c) <= s.len(),
        first_char(s, c) < s.len() ==> s[first_char(s, c)] == c,
    decreases s.len(),
{
    if s.len() > 0 {
        lemma_first_char_is(s.drop_last(), c);
    }
}

proof fn lemma_last_char_is(s: Seq<char>, c: char)
    ensures
        -1 <= last_char(s, c) < s.len(),
        last_char(s, c) >= 0 ==> s[last_char(s, c)] == c,
    decreases s.len(),
{
    if s.len() > 0 {
        lemma_last_char_is(s.drop_last(), c);
    }
}

/// No place holds both braces.
proof fn lemma_first_last(s: Seq<char>)
    ensures
        first_char(s, '{') < s.len() ==> first_char(s, '{') != last_char(s, '}'),
{
    lemma_first_char_is(s, '{');
    lemma_last_char_is(s, '}');
}

fn copy_range(v: &Vec<char>, from: usize, to: usize) -> (r: Vec<char>)
    requires
        from <= to <= v.len(),
    ensures
        r@ == v@.subrange(from as int, to as int),
{
    let mut r: Vec<char> = Vec::new();
    let mut i: usize = from;
    while i < to
        invariant
            from <= i <= to <= v.len(),
            r@ == v@.subrange(from as int, i as int),
        decreases to - i,
    {
        r.push(v[i]);
        i = i + 1;
        assert(r@ =~= v@.subrange(from as int, i as int));
    }
    r
}

/// The paths that a `use` declaration brings into scope. An alias is read by
/// its real path.
pub fn parse_rust_use(raw: &str) -> (r: Vec<ImportFact>)
    ensures
        r.deep_view() == use_facts(raw@),
{
    let v = chars_of(raw);
    let word = chars_of("use ");
    let mut out: Vec<ImportFact> = Vec::new();
    match find_part(&v, &word) {
        None => {
            assert(out.deep_view() =~= Seq::<FactView>::empty());
        },
        Some(i) => {
            proof {
                reveal_strlit("use ");
            }
            assert(v@.subrange(i + 4, v.len() as int) =~= raw@.skip(i + 4));
            let (a, b) = trim_range(&v, i + 4, v.len());
            let c: usize = trim_end_char(&v, a, b, ';');
            let (d, e) = trim_range(&v, a, c);
            let tree = copy_range(&v, d, e);
            let ghost start = out.deep_view();
            parse_use_tree(&tree, "", &mut out);
            proof {
                reveal_strlit("");
                assert(""@ =~= Seq::<char>::empty());
                assert(start + use_facts(raw@) =~= use_facts(raw@));
            }
        },
    }
    out
}

} // verus!
