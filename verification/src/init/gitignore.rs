//! The rules by which a repository ignores what this program generates, and
//! keeps the two files that are meant to be committed.

use vstd::prelude::*;
use crate::gather::{gather, lemma_gather_push};
use crate::lines::{
    has_rule, lemma_pieces_free, lemma_rule_add, lemma_rule_in_pieces, lemma_split_add,
    lemma_split_ended, lemma_split_single, lemma_trim_self, lines, split_lines,
};
use crate::lookup::{lemma_take_next, put};
use crate::text::{
    begins_with, ends_with_text, finishes_with, join_texts, joined, lemma_split_nonempty, same_text, split_char, trim_text,
    trimmed,
};

verus! {

/// Is a line a rule that ignores the whole directory? Nothing below such a
/// directory can be kept.
pub open spec fn is_whole(line: Seq<char>) -> bool {
    let rule = trimmed(line);
    rule == ".codegraph/"@ || rule == ".codegraph"@ || rule == "/.codegraph/"@ || rule == "/.codegraph"@
}

pub open spec fn has_whole(lines: Seq<Seq<char>>) -> bool {
    exists|i: int| 0 <= i < lines.len() && is_whole(#[trigger] lines[i])
}

/// What the first rule on the whole directory becomes: a rule on what is
/// below it and, unless they are there, the exceptions.
pub open spec fn replacement(excepted: bool) -> Seq<Seq<char>> {
    if excepted {
        seq![".codegraph/*"@]
    } else {
        seq![".codegraph/*"@, "!.codegraph/planes.yaml"@, "!.codegraph/config.toml"@]
    }
}

/// The lines with the first rule on the whole directory replaced and every
/// later one dropped.
pub open spec fn rewritten(lines: Seq<Seq<char>>, excepted: bool) -> Seq<Seq<char>>
    decreases lines.len(),
{
    if lines.len() == 0 {
        Seq::empty()
    } else {
        let front = rewritten(lines.drop_last(), excepted);
        if !is_whole(lines.last()) {
            front.push(lines.last())
        } else if has_whole(lines.drop_last()) {
            front
        } else {
            front + replacement(excepted)
        }
    }
}

/// A text that ends with a newline, where it is not empty.
pub open spec fn ended(current: Seq<char>) -> Seq<char> {
    if current.len() > 0 && !finishes_with(current, "\n"@) {
        current + "\n"@
    } else {
        current
    }
}

/// The rules for a file that has none.
pub open spec fn appended(current: Seq<char>) -> Seq<char> {
    ended(current) + "\n"@
        + "# codegraph: ignore the generated store, keep the two files that are meant to be committed"@ + "\n"@
        + ".codegraph/*"@ + "\n"@ + "!.codegraph/planes.yaml"@ + "\n"@ + "!.codegraph/config.toml"@ + "\n"@
}

/// The file as it should be, and what was done to it; nothing where it says
/// the right thing already.
pub open spec fn patched(current: Seq<char>) -> Option<(Seq<char>, Seq<char>)> {
    let all = lines(current);
    let excepted = has_rule(all, "!.codegraph/planes.yaml"@);
    if has_whole(all) {
        Some(
            (
                joined(rewritten(all, excepted), "\n"@) + "\n"@,
                "rewrote the whole-directory .codegraph/ rule as .codegraph/* so planes.yaml and config.toml can be committed"@,
            ),
        )
    } else if has_rule(all, ".codegraph/*"@) || excepted {
        None
    } else {
        Some((appended(current), "added .codegraph/* with negations for planes.yaml and config.toml"@))
    }
}

fn finds_rule(lines: &Vec<String>, x: &str) -> (r: bool)
    ensures
        r == has_rule(lines.deep_view(), x@),
{
    let ghost all = lines.deep_view();
    let mut i: usize = 0;
    while i < lines.len()
        invariant
            i <= lines@.len(),
            all == lines.deep_view(),
            forall|k: int| 0 <= k < i ==> trimmed(#[trigger] all[k]) != x@,
        decreases lines.len() - i,
    {
        assert(all[i as int] == lines@[i as int]@);
        if same_text(trim_text(lines[i].as_str()).as_str(), x) {
            return true;
        }
        i = i + 1;
    }
    false
}

fn ignores_whole(line: &str) -> (r: bool)
    ensures
        r == is_whole(line@),
{
    let rule = trim_text(line);
    same_text(rule.as_str(), ".codegraph/") || same_text(rule.as_str(), ".codegraph") || same_text(
        rule.as_str(),
        "/.codegraph/",
    ) || same_text(rule.as_str(), "/.codegraph")
}

fn rewrite(lines: &Vec<String>, excepted: bool) -> (r: (Vec<String>, bool))
    ensures
        r.0.deep_view() == rewritten(lines.deep_view(), excepted),
        r.1 == has_whole(lines.deep_view()),
{
    let ghost all = lines.deep_view();
    let mut out: Vec<String> = Vec::new();
    let mut replaced = false;
    let mut i: usize = 0;
    assert(out.deep_view() =~= rewritten(all.take(0), excepted));
    while i < lines.len()
        invariant
            i <= lines@.len(),
            all == lines.deep_view(),
            out.deep_view() == rewritten(all.take(i as int), excepted),
            replaced == has_whole(all.take(i as int)),
        decreases lines.len() - i,
    {
        proof {
            assert(all.len() == lines@.len());
            lemma_take_next(all, i as int);
            assert(all[i as int] == lines@[i as int]@);
            lemma_whole_push(all.take(i as int), all[i as int]);
        }
        let ghost front = out.deep_view();
        if !ignores_whole(lines[i].as_str()) {
            put(&mut out, lines[i].as_str().to_owned());
        } else {
            if !replaced {
                put(&mut out, ".codegraph/*".to_owned());
                if !excepted {
                    put(&mut out, "!.codegraph/planes.yaml".to_owned());
                    put(&mut out, "!.codegraph/config.toml".to_owned());
                }
                assert(out.deep_view() =~= front + replacement(excepted));
            }
            replaced = true;
        }
        i = i + 1;
    }
    assert(all.take(i as int) =~= all);
    (out, replaced)
}

/// The ignore file as it should be, and what was done to it in a sentence;
/// nothing where it says the right thing already.
pub fn gitignore_patch(current: &str) -> (r: Option<(String, String)>)
    ensures
        match r {
            Some(p) => patched(current@) == Some((p.0@, p.1@)),
            None => patched(current@) is None,
        },
{
    let all = split_lines(current);
    let excepted = finds_rule(&all, "!.codegraph/planes.yaml");
    let (out, replaced) = rewrite(&all, excepted);
    if replaced {
        let mut text = join_texts(&out, "\n");
        text.append("\n");
        return Some(
            (
                text,
                "rewrote the whole-directory .codegraph/ rule as .codegraph/* so planes.yaml and config.toml can be committed".to_owned(),
            ),
        );
    }
    if finds_rule(&all, ".codegraph/*") || excepted {
        return None;
    }
    let mut text = current.to_owned();
    if !current.is_empty() && !ends_with_text(current, "\n") {
        text.append("\n");
    }
    text.append("\n");
    text.append("# codegraph: ignore the generated store, keep the two files that are meant to be committed");
    text.append("\n");
    text.append(".codegraph/*");
    text.append("\n");
    text.append("!.codegraph/planes.yaml");
    text.append("\n");
    text.append("!.codegraph/config.toml");
    text.append("\n");
    Some((text, "added .codegraph/* with negations for planes.yaml and config.toml".to_owned()))
}

// ---- laws ---------------------------------------------------------------------------------------

proof fn lemma_whole_push(lines: Seq<Seq<char>>, line: Seq<char>)
    ensures
        has_whole(lines.push(line)) <==> has_whole(lines) || is_whole(line),
{
    let all = lines.push(line);
    if has_whole(lines) {
        let i = choose|i: int| 0 <= i < lines.len() && is_whole(#[trigger] lines[i]);
        assert(is_whole(all[i]));
    }
    if is_whole(line) {
        assert(is_whole(all[lines.len() as int]));
    }
    if has_whole(all) {
        let i = choose|i: int| 0 <= i < all.len() && is_whole(#[trigger] all[i]);
        if i < lines.len() {
            assert(is_whole(lines[i]));
        }
    }
}

proof fn lemma_whole_rules(lines: Seq<Seq<char>>)
    ensures
        has_whole(lines) <==> has_rule(lines, ".codegraph/"@) || has_rule(lines, ".codegraph"@) || has_rule(
            lines,
            "/.codegraph/"@,
        ) || has_rule(lines, "/.codegraph"@),
{
    if has_whole(lines) {
        let i = choose|i: int| 0 <= i < lines.len() && is_whole(#[trigger] lines[i]);
        assert(trimmed(lines[i]) == trimmed(lines[i]));
    }
    if has_rule(lines, ".codegraph/"@) {
        let i = choose|i: int| 0 <= i < lines.len() && trimmed(#[trigger] lines[i]) == ".codegraph/"@;
        assert(is_whole(lines[i]));
    }
    if has_rule(lines, ".codegraph"@) {
        let i = choose|i: int| 0 <= i < lines.len() && trimmed(#[trigger] lines[i]) == ".codegraph"@;
        assert(is_whole(lines[i]));
    }
    if has_rule(lines, "/.codegraph/"@) {
        let i = choose|i: int| 0 <= i < lines.len() && trimmed(#[trigger] lines[i]) == "/.codegraph/"@;
        assert(is_whole(lines[i]));
    }
    if has_rule(lines, "/.codegraph"@) {
        let i = choose|i: int| 0 <= i < lines.len() && trimmed(#[trigger] lines[i]) == "/.codegraph"@;
        assert(is_whole(lines[i]));
    }
}

proof fn lemma_whole_in_pieces(s: Seq<char>)
    ensures
        has_whole(lines(s)) <==> has_whole(split_char(s, '\n')),
{
    reveal_strlit(".codegraph/");
    reveal_strlit(".codegraph");
    reveal_strlit("/.codegraph/");
    reveal_strlit("/.codegraph");
    lemma_whole_rules(lines(s));
    lemma_whole_rules(split_char(s, '\n'));
    lemma_rule_in_pieces(s, ".codegraph/"@);
    lemma_rule_in_pieces(s, ".codegraph"@);
    lemma_rule_in_pieces(s, "/.codegraph/"@);
    lemma_rule_in_pieces(s, "/.codegraph"@);
}

/// The rules that are written are trimmed, none of them is one on the whole
/// directory, and each is one line.
proof fn lemma_written_rules()
    ensures
        forall|i: int, excepted: bool|
            0 <= i < replacement(excepted).len() ==> {
                &&& !is_whole(#[trigger] replacement(excepted)[i])
                &&& !replacement(excepted)[i].contains('\n')
            },
        trimmed(".codegraph/*"@) == ".codegraph/*"@,
        trimmed("!.codegraph/planes.yaml"@) == "!.codegraph/planes.yaml"@,
        trimmed("!.codegraph/config.toml"@) == "!.codegraph/config.toml"@,
        ".codegraph/*"@.len() > 0,
        "!.codegraph/planes.yaml"@.len() > 0,
        "!.codegraph/config.toml"@.len() > 0,
{
    reveal_strlit(".codegraph/");
    reveal_strlit(".codegraph");
    reveal_strlit("/.codegraph/");
    reveal_strlit("/.codegraph");
    reveal_strlit(".codegraph/*");
    reveal_strlit("!.codegraph/planes.yaml");
    reveal_strlit("!.codegraph/config.toml");
    lemma_trim_self(".codegraph/*"@);
    lemma_trim_self("!.codegraph/planes.yaml"@);
    lemma_trim_self("!.codegraph/config.toml"@);
    assert(".codegraph/*"@[11] != "/.codegraph/"@[11]);
}

/// What the rewriting leaves: no rule on the whole directory, and one on what
/// is below it.
proof fn lemma_rewritten(all: Seq<Seq<char>>, excepted: bool)
    requires
        forall|i: int| 0 <= i < all.len() ==> !(#[trigger] all[i]).contains('\n'),
    ensures
        !has_whole(rewritten(all, excepted)),
        has_whole(all) ==> has_rule(rewritten(all, excepted), ".codegraph/*"@),
        has_whole(all) && !excepted ==> has_rule(rewritten(all, excepted), "!.codegraph/planes.yaml"@),
        has_rule(all, "!.codegraph/planes.yaml"@) ==> has_rule(rewritten(all, excepted), "!.codegraph/planes.yaml"@),
        has_whole(all) && !excepted ==> has_rule(rewritten(all, excepted), "!.codegraph/config.toml"@),
        has_rule(all, "!.codegraph/config.toml"@) ==> has_rule(rewritten(all, excepted), "!.codegraph/config.toml"@),
        forall|i: int|
            0 <= i < rewritten(all, excepted).len() ==> !(#[trigger] rewritten(all, excepted)[i]).contains('\n'),
    decreases all.len(),
{
    if all.len() > 0 {
        let front = all.drop_last();
        let line = all.last();
        let out = rewritten(front, excepted);
        let planes = "!.codegraph/planes.yaml"@;
        let config = "!.codegraph/config.toml"@;
        assert forall|i: int| 0 <= i < front.len() implies !(#[trigger] front[i]).contains('\n') by {
            assert(front[i] == all[i]);
        }
        lemma_rewritten(front, excepted);
        assert(front.push(line) =~= all);
        assert(!all[all.len() - 1].contains('\n'));
        lemma_whole_push(front, line);
        lemma_written_rules();
        assert(front + seq![line] =~= all);
        lemma_rule_add(front, seq![line], planes);
        lemma_rule_add(front, seq![line], config);
        if !is_whole(line) {
            lemma_whole_push(out, line);
            assert(out + seq![line] =~= out.push(line));
            lemma_rule_add(out, seq![line], planes);
            lemma_rule_add(out, seq![line], config);
            lemma_rule_add(out, seq![line], ".codegraph/*"@);
            assert forall|i: int| 0 <= i < out.push(line).len() implies !(#[trigger] out.push(line)[i]).contains(
                '\n',
            ) by {
                if i < out.len() {
                    assert(!out[i].contains('\n'));
                }
            }
        } else {
            reveal_strlit("!.codegraph/planes.yaml");
            reveal_strlit("!.codegraph/config.toml");
            reveal_strlit(".codegraph/");
            reveal_strlit(".codegraph");
            reveal_strlit("/.codegraph/");
            reveal_strlit("/.codegraph");
            assert(trimmed(line) != planes && trimmed(line) != config);
            assert(!has_rule(seq![line], planes) && !has_rule(seq![line], config));
            if !has_whole(front) {
                let fresh = replacement(excepted);
                let both = out + fresh;
                lemma_rule_add(out, fresh, planes);
                lemma_rule_add(out, fresh, config);
                lemma_rule_add(out, fresh, ".codegraph/*"@);
                assert(trimmed(fresh[0]) == ".codegraph/*"@);
                if !excepted {
                    assert(trimmed(fresh[1]) == planes);
                    assert(trimmed(fresh[2]) == config);
                }
                assert forall|i: int| 0 <= i < both.len() implies !(#[trigger] both[i]).contains('\n')
                    && !is_whole(both[i]) by {
                    if i < out.len() {
                        assert(!out[i].contains('\n') && !is_whole(out[i]));
                    } else {
                        assert(both[i] == fresh[i - out.len()]);
                    }
                }
            }
        }
    }
}

proof fn lemma_lines_free(s: Seq<char>)
    ensures
        forall|i: int| 0 <= i < lines(s).len() ==> !(#[trigger] lines(s)[i]).contains('\n'),
{
    let pieces = split_char(s, '\n');
    let all = lines(s);
    lemma_split_nonempty(s, '\n');
    lemma_pieces_free(s, '\n');
    assert forall|i: int| 0 <= i < all.len() implies !(#[trigger] all[i]).contains('\n') by {
        assert(!pieces[i].contains('\n'));
        if all[i].contains('\n') {
            let k = choose|k: int| 0 <= k < all[i].len() && all[i][k] == '\n';
            assert(pieces[i][k] == '\n');
        }
    }
}

/// The pieces of a file to which the rules were appended.
proof fn lemma_appended(current: Seq<char>)
    ensures
        has_whole(split_char(appended(current), '\n')) <==> has_whole(split_char(current, '\n')),
        has_rule(split_char(appended(current), '\n'), ".codegraph/*"@),
        has_rule(split_char(appended(current), '\n'), "!.codegraph/planes.yaml"@),
        has_rule(split_char(appended(current), '\n'), "!.codegraph/config.toml"@),
{
    let note = "# codegraph: ignore the generated store, keep the two files that are meant to be committed"@;
    let rule = ".codegraph/*"@;
    let planes = "!.codegraph/planes.yaml"@;
    let config = "!.codegraph/config.toml"@;
    let empty = Seq::<char>::empty();
    reveal_strlit("\n");
    reveal_strlit("# codegraph: ignore the generated store, keep the two files that are meant to be committed");
    reveal_strlit(".codegraph/");
    reveal_strlit(".codegraph");
    reveal_strlit("/.codegraph/");
    reveal_strlit("/.codegraph");
    assert("\n"@ =~= seq!['\n']);
    lemma_written_rules();
    assert(replacement(false)[0] == rule);
    assert(replacement(false)[1] == planes);
    assert(replacement(false)[2] == config);
    lemma_trim_self(note);
    assert(!note.contains('\n'));
    let base = ended(current);
    let a1 = base.push('\n') + note;
    lemma_split_add(base, note, '\n');
    lemma_split_single(note, '\n');
    let a2 = a1.push('\n') + rule;
    lemma_split_add(a1, rule, '\n');
    lemma_split_single(rule, '\n');
    let a3 = a2.push('\n') + planes;
    lemma_split_add(a2, planes, '\n');
    lemma_split_single(planes, '\n');
    let a4 = a3.push('\n') + config;
    lemma_split_add(a3, config, '\n');
    lemma_split_single(config, '\n');
    lemma_split_add(a4, empty, '\n');
    assert(base + "\n"@ + note =~= a1);
    assert(a1 + "\n"@ + rule =~= a2);
    assert(a2 + "\n"@ + planes =~= a3);
    assert(a3 + "\n"@ + config =~= a4);
    assert(a4 + "\n"@ =~= a4.push('\n') + empty);
    let pieces = split_char(base, '\n');
    let all = split_char(appended(current), '\n');
    assert(all =~= pieces.push(note).push(rule).push(planes).push(config).push(empty));
    lemma_whole_push(pieces, note);
    lemma_whole_push(pieces.push(note), rule);
    lemma_whole_push(pieces.push(note).push(rule), planes);
    lemma_whole_push(pieces.push(note).push(rule).push(planes), config);
    lemma_whole_push(pieces.push(note).push(rule).push(planes).push(config), empty);
    lemma_trim_self(empty);
    assert(all[pieces.len() + 1int] == rule);
    assert(all[pieces.len() + 2int] == planes);
    assert(all[pieces.len() + 3int] == config);
    if base != current {
        lemma_split_add(current, empty, '\n');
        assert(base =~= current.push('\n') + empty);
        assert(pieces =~= split_char(current, '\n').push(empty));
        lemma_whole_push(split_char(current, '\n'), empty);
    }
}

/// A file that was patched ignores what is generated, excepts the two files
/// that are meant to be committed, and needs no patch: patching is idempotent.
/// A file that excepted the first alone still excepts that one alone.
pub proof fn a_patched_file_needs_no_patch(current: Seq<char>)
    requires
        patched(current) is Some,
    ensures
        !has_whole(lines((patched(current)->0).0)),
        has_rule(lines((patched(current)->0).0), ".codegraph/*"@),
        has_rule(lines((patched(current)->0).0), "!.codegraph/planes.yaml"@),
        !has_rule(lines(current), "!.codegraph/planes.yaml"@) || has_rule(lines(current), "!.codegraph/config.toml"@)
            ==> has_rule(lines((patched(current)->0).0), "!.codegraph/config.toml"@),
        patched((patched(current)->0).0) is None,
{
    let text = (patched(current)->0).0;
    let all = lines(current);
    let planes = "!.codegraph/planes.yaml"@;
    let config = "!.codegraph/config.toml"@;
    lemma_written_rules();
    lemma_whole_in_pieces(text);
    lemma_rule_in_pieces(text, ".codegraph/*"@);
    lemma_rule_in_pieces(text, planes);
    lemma_rule_in_pieces(text, config);
    if has_whole(all) {
        let excepted = has_rule(all, planes);
        let out = rewritten(all, excepted);
        lemma_lines_free(current);
        lemma_rewritten(all, excepted);
        lemma_split_ended(out);
        let empty = Seq::<char>::empty();
        lemma_whole_push(out, empty);
        lemma_trim_self(empty);
        reveal_strlit(".codegraph/");
        reveal_strlit(".codegraph");
        reveal_strlit("/.codegraph/");
        reveal_strlit("/.codegraph");
        assert(!is_whole(empty));
        assert(out + seq![empty] =~= out.push(empty));
        lemma_rule_add(out, seq![empty], planes);
        lemma_rule_add(out, seq![empty], config);
        lemma_rule_add(out, seq![empty], ".codegraph/*"@);
    } else {
        lemma_whole_in_pieces(current);
        lemma_appended(current);
    }
}

/// A line that is no rule on the whole directory.
pub open spec fn other_line() -> spec_fn(Seq<char>) -> Option<Seq<char>> {
    |line: Seq<char>|
        if is_whole(line) {
            None
        } else {
            Some(line)
        }
}

/// The lines that are no rules on the whole directory, in their order.
pub open spec fn others(lines: Seq<Seq<char>>) -> Seq<Seq<char>> {
    gather(lines, other_line())
}

/// The lines with the rules on the whole directory taken out and the
/// replacement put in at place `k`, where the first of them stood.
pub open spec fn is_replaced_at(lines: Seq<Seq<char>>, out: Seq<Seq<char>>, excepted: bool, k: int) -> bool {
    &&& 0 <= k < lines.len()
    &&& is_whole(lines[k])
    &&& !has_whole(lines.take(k))
    &&& out == others(lines.take(k)) + replacement(excepted) + others(lines.skip(k))
}

/// Patching keeps every other line, in its order: where there are rules on the
/// whole directory, the lines of the new text are the others with the
/// replacement where the first rule stood; otherwise the new text begins with
/// the old one.
pub proof fn other_lines_are_kept_in_order(current: Seq<char>)
    requires
        patched(current) is Some,
    ensures
        ({
            let text = (patched(current)->0).0;
            let all = lines(current);
            let excepted = has_rule(all, "!.codegraph/planes.yaml"@);
            if has_whole(all) {
                exists|k: int, out: Seq<Seq<char>>| #[trigger]
                    is_replaced_at(all, out, excepted, k) && split_char(text, '\n') == out.push(Seq::empty())
            } else {
                begins_with(text, current)
            }
        }),
{
    let text = (patched(current)->0).0;
    let all = lines(current);
    let excepted = has_rule(all, "!.codegraph/planes.yaml"@);
    if has_whole(all) {
        let out = rewritten(all, excepted);
        lemma_lines_free(current);
        lemma_rewritten(all, excepted);
        lemma_split_ended(out);
        let k = lemma_replaced_at(all, excepted);
        assert(is_replaced_at(all, out, excepted, k));
    } else {
        let base = ended(current);
        assert(base.subrange(0, current.len() as int) =~= current);
        assert(text.subrange(0, current.len() as int) =~= current);
    }
}

proof fn lemma_replaced_at(all: Seq<Seq<char>>, excepted: bool) -> (k: int)
    requires
        has_whole(all),
    ensures
        is_replaced_at(all, rewritten(all, excepted), excepted, k),
    decreases all.len(),
{
    let front = all.drop_last();
    let line = all.last();
    assert(front.push(line) =~= all);
    lemma_whole_push(front, line);
    if has_whole(front) {
        let k = lemma_replaced_at(front, excepted);
        assert(front.take(k) =~= all.take(k));
        assert(front.skip(k).push(line) =~= all.skip(k));
        lemma_gather_push(front.skip(k), line, other_line());
        assert(rewritten(all, excepted) =~= others(all.take(k)) + replacement(excepted) + others(all.skip(k)));
        k
    } else {
        let k = all.len() - 1;
        lemma_none_whole(front, excepted);
        assert(all.take(k) =~= front);
        assert(all.skip(k) =~= Seq::<Seq<char>>::empty().push(line));
        lemma_gather_push(Seq::<Seq<char>>::empty(), line, other_line());
        assert(rewritten(all, excepted) =~= others(all.take(k)) + replacement(excepted) + others(all.skip(k)));
        k
    }
}

proof fn lemma_none_whole(all: Seq<Seq<char>>, excepted: bool)
    requires
        !has_whole(all),
    ensures
        rewritten(all, excepted) == all,
        others(all) == all,
    decreases all.len(),
{
    if all.len() > 0 {
        let front = all.drop_last();
        assert(front.push(all.last()) =~= all);
        lemma_whole_push(front, all.last());
        lemma_none_whole(front, excepted);
    } else {
        assert(rewritten(all, excepted) =~= all);
        assert(others(all) =~= all);
    }
}

/// A line ignores the whole directory, with or without a slash at either end.
pub open spec fn ignores_all(line: Seq<char>) -> bool {
    let rule = trimmed(line);
    ||| rule == ".codegraph"@
    ||| rule == ".codegraph/"@
    ||| rule == "/.codegraph"@
    ||| rule == "/.codegraph/"@
}

/// A file is patched exactly if a line of it ignores the whole directory, or no
/// line says anything of what is in it.
pub proof fn a_file_is_patched_where_it_says_the_wrong_thing(current: Seq<char>)
    ensures
        patched(current) is Some <==> {
            let all = lines(current);
            ||| exists|i: int| 0 <= i < all.len() && ignores_all(#[trigger] all[i])
            ||| forall|i: int| 0 <= i < all.len() ==> trimmed(#[trigger] all[i]) != ".codegraph/*"@ && trimmed(all[i])
                != "!.codegraph/planes.yaml"@
        },
{
    let all = lines(current);
    if has_whole(all) {
        let i = choose|i: int| 0 <= i < all.len() && is_whole(#[trigger] all[i]);
        assert(ignores_all(all[i]));
    }
    if exists|i: int| 0 <= i < all.len() && ignores_all(#[trigger] all[i]) {
        let i = choose|i: int| 0 <= i < all.len() && ignores_all(#[trigger] all[i]);
        assert(is_whole(all[i]));
    }
    if has_rule(all, ".codegraph/*"@) {
        let i = choose|i: int| 0 <= i < all.len() && trimmed(#[trigger] all[i]) == ".codegraph/*"@;
        assert(trimmed(all[i]) == ".codegraph/*"@);
    }
    if has_rule(all, "!.codegraph/planes.yaml"@) {
        let i = choose|i: int| 0 <= i < all.len() && trimmed(#[trigger] all[i]) == "!.codegraph/planes.yaml"@;
        assert(trimmed(all[i]) == "!.codegraph/planes.yaml"@);
    }
}

} // verus!
