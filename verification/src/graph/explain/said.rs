//! What sentences and rendered chains say.

use vstd::prelude::*;

use crate::graph::explain::words::{command_lines, step_lines};
use crate::graph::explain::{ChainView, FactView, KeyView, NodeRow, StepView};
use crate::text::{decimal, has_part, joined, occurs_at, quoted, signed_decimal};

verus! {

/// A text has its parts, and all that they have.
proof fn lemma_both(a: Seq<char>, b: Seq<char>)
    ensures
        has_part(a + b, a),
        has_part(a + b, b),
        forall|p: Seq<char>| #[trigger] has_part(a, p) ==> has_part(a + b, p),
        forall|p: Seq<char>| #[trigger] has_part(b, p) ==> has_part(a + b, p),
{
    let s = a + b;
    assert(s.subrange(0, a.len() as int) =~= a);
    assert(occurs_at(s, a, 0));
    assert(s.subrange(a.len() as int, s.len() as int) =~= b);
    assert(occurs_at(s, b, a.len() as int));
    assert forall|p: Seq<char>| #[trigger] has_part(a, p) implies has_part(s, p) by {
        let i = choose|i: int| #[trigger] occurs_at(a, p, i);
        assert(s.subrange(i, i + p.len()) =~= a.subrange(i, i + p.len()));
        assert(occurs_at(s, p, i));
    }
    assert forall|p: Seq<char>| #[trigger] has_part(b, p) implies has_part(s, p) by {
        let i = choose|i: int| #[trigger] occurs_at(b, p, i);
        let at = a.len() + i;
        assert(s.subrange(at, at + p.len()) =~= b.subrange(i, i + p.len()));
        assert(occurs_at(s, p, at));
    }
}

/// A joined text has everything that was joined.
proof fn lemma_joined(parts: Seq<Seq<char>>, by: Seq<char>, k: int)
    requires
        0 <= k < parts.len(),
    ensures
        has_part(joined(parts, by), parts[k]),
    decreases parts.len(),
{
    let rest = parts.drop_last();
    if parts.len() == 1 {
        assert(parts[0].subrange(0, parts[0].len() as int) =~= parts[0]);
        assert(occurs_at(parts[0], parts[0], 0));
        assert(joined(parts, by) =~= parts[0]);
    } else {
        lemma_both(joined(rest, by), by);
        lemma_both(joined(rest, by) + by, parts.last());
        if k < rest.len() {
            assert(rest[k] == parts[k]);
            lemma_joined(rest, by, k);
        }
    }
}

proof fn lemma_five(a: Seq<char>, b: Seq<char>, c: Seq<char>, d: Seq<char>, e: Seq<char>)
    ensures
        ({
            let s = a + b + c + d + e;
            &&& has_part(s, a)
            &&& has_part(s, b)
            &&& has_part(s, c)
            &&& has_part(s, d)
            &&& has_part(s, e)
            &&& forall|p: Seq<char>| #[trigger] has_part(a, p) ==> has_part(s, p)
            &&& forall|p: Seq<char>| #[trigger] has_part(e, p) ==> has_part(s, p)
        }),
{
    lemma_both(a, b);
    lemma_both(a + b, c);
    lemma_both(a + b + c, d);
    lemma_both(a + b + c + d, e);
}

/// A node on one line says its name, its type, its file and, where it is known,
/// its line.
pub proof fn a_node_is_described_by_where_it_stands(n: NodeRow)
    ensures
        has_part(n.words(), n.qualified_name),
        has_part(n.words(), n.node_type),
        has_part(n.words(), n.file_path),
        n.start_line matches Some(line) ==> has_part(n.words(), ":"@ + signed_decimal(line as int)),
{
    match n.start_line {
        Some(line) => {
            let head = n.qualified_name + " ("@ + n.node_type + ") at "@ + n.file_path;
            lemma_five(n.qualified_name, " ("@, n.node_type, ") at "@, n.file_path);
            let tail = ":"@ + signed_decimal(line as int);
            lemma_both(head, tail);
            assert(n.words() =~= head + tail);
        },
        None => {
            lemma_five(n.qualified_name, " ("@, n.node_type, ") in "@, n.file_path);
        },
    }
}

/// A reference on one line says all of its key.
pub proof fn a_reference_is_described_by_its_key(k: KeyView)
    ensures
        has_part(k.words(), k.from_id),
        has_part(k.words(), k.to_name),
        has_part(k.words(), k.to_type),
        has_part(k.words(), k.edge_type),
{
    lemma_five(k.from_id, " -> \""@, k.to_name, "\" ("@, k.to_type);
    let head = k.from_id + " -> \""@ + k.to_name + "\" ("@ + k.to_type;
    lemma_both(head, ", "@);
    lemma_both(head + ", "@, k.edge_type);
    lemma_both(head + ", "@ + k.edge_type, ")"@);
}

/// The sentence of a fact names what the fact is about.
pub open spec fn names_its_matter(fact: FactView, s: Seq<char>) -> bool {
    match fact {
        FactView::ExplicitSymbolQuery { name } => has_part(s, quoted(name)),
        FactView::DeletionRecord(d) => has_part(s, quoted(d.qualified_name)) && has_part(s, d.node_type) && has_part(
            s,
            d.file_path,
        ),
        FactView::LiveDefinitions { name, node_ids } => has_part(s, quoted(name)) && forall|k: int|
            0 <= k < node_ids.len() ==> has_part(s, #[trigger] node_ids[k]),
        FactView::NodeExists(n) => {
            &&& has_part(s, n.qualified_name)
            &&& has_part(s, n.node_type)
            &&& has_part(s, n.file_path)
            &&& n.start_line matches Some(line) ==> has_part(s, ":"@ + signed_decimal(line as int))
        },
        FactView::EdgeExists { key, confidence, .. } => {
            &&& has_part(s, key.from_id)
            &&& has_part(s, quoted(key.to_name))
            &&& has_part(s, key.to_type)
            &&& has_part(s, confidence)
        },
        FactView::CandidatePool { bare, to_type, language_family, node_ids } => {
            &&& has_part(s, quoted(bare))
            &&& has_part(s, to_type)
            &&& has_part(s, language_family)
            &&& has_part(s, decimal(node_ids.len()))
        },
        FactView::RuleApplication { rule, hit_ids, outcome, .. } => {
            &&& has_part(s, rule)
            &&& outcome == "not_unique"@ ==> has_part(s, decimal(hit_ids.len()))
            &&& outcome != "skipped"@ && outcome != "no_match"@ && outcome != "not_unique"@ ==> forall|k: int|
                0 <= k < hit_ids.len() ==> has_part(s, #[trigger] hit_ids[k])
        },
        FactView::CascadeOutcome { outcome, attempted_rules, .. } => has_part(s, outcome) && forall|k: int|
            0 <= k < attempted_rules.len() ==> has_part(s, #[trigger] attempted_rules[k]),
        FactView::ResolvedHop { key, to_id, resolved_by, depth } => {
            &&& has_part(s, decimal(depth as nat))
            &&& has_part(s, key.from_id)
            &&& has_part(s, to_id)
            &&& has_part(s, quoted(key.to_name))
            &&& has_part(s, resolved_by)
        },
    }
}

proof fn lemma_outcomes()
    ensures
        "skipped"@ != "no_match"@,
        "skipped"@ != "not_unique"@,
        "no_match"@ != "not_unique"@,
{
    reveal_strlit("skipped");
    reveal_strlit("no_match");
    reveal_strlit("not_unique");
    assert("skipped"@.len() == 7 && "no_match"@.len() == 8 && "not_unique"@.len() == 10);
}

proof fn lemma_rule_sentence(rule: Seq<char>, hit_ids: Seq<Seq<char>>, key: KeyView, outcome: Seq<char>)
    ensures
        ({
            let fact = FactView::RuleApplication { key, rule, hit_ids, outcome };
            names_its_matter(fact, fact.words())
        }),
{
    lemma_outcomes();
    let fact = FactView::RuleApplication { key, rule, hit_ids, outcome };
    let s = fact.words();
    if outcome == "skipped"@ {
        lemma_both(rule, " did not run: its precondition did not hold"@);
    } else if outcome == "no_match"@ {
        lemma_both(rule, " ran and admitted nothing"@);
    } else if outcome == "not_unique"@ {
        let n = decimal(hit_ids.len());
        lemma_both(rule, " ran and admitted "@);
        lemma_both(rule + " ran and admitted "@, n);
        lemma_both(rule + " ran and admitted "@ + n, " nodes, so it could not bind"@);
    } else {
        let all = joined(hit_ids, ""@);
        let head = rule + " admitted exactly one node, "@;
        lemma_both(rule, " admitted exactly one node, "@);
        lemma_both(head, all);
        assert forall|k: int| 0 <= k < hit_ids.len() implies has_part(s, #[trigger] hit_ids[k]) by {
            lemma_joined(hit_ids, ""@, k);
        }
    }
}

proof fn lemma_hop_sentence(key: KeyView, to_id: Seq<char>, resolved_by: Seq<char>, depth: usize)
    ensures
        ({
            let fact = FactView::ResolvedHop { key, to_id, resolved_by, depth };
            names_its_matter(fact, fact.words())
        }),
{
    let d = decimal(depth as nat);
    let q = quoted(key.to_name);
    let a = "at depth "@ + d + ", "@ + key.from_id + " reaches "@;
    lemma_five("at depth "@, d, ", "@, key.from_id, " reaches "@);
    let b = a + to_id + " through "@ + q + ", bound by "@;
    lemma_five(a, to_id, " through "@, q, ", bound by "@);
    lemma_both(a, to_id);
    lemma_both(a + to_id, " through "@);
    lemma_both(a + to_id + " through "@, q);
    lemma_both(a + to_id + " through "@ + q, ", bound by "@);
    lemma_both(b, resolved_by);
}

proof fn lemma_pool_sentence(name: Seq<char>, to_type: Seq<char>, language_family: Seq<char>, node_ids: Seq<Seq<char>>)
    ensures
        ({
            let fact = FactView::CandidatePool { bare: name, to_type, language_family, node_ids };
            names_its_matter(fact, fact.words())
        }),
{
    let q = quoted(name);
    let n = decimal(node_ids.len());
    let a = "the candidate pool for ("@ + q + ", "@ + to_type + ", "@;
    lemma_five("the candidate pool for ("@, q, ", "@, to_type, ", "@);
    lemma_both(a, language_family);
    lemma_both(a + language_family, ") holds "@);
    lemma_both(a + language_family + ") holds "@, n);
    lemma_both(a + language_family + ") holds "@ + n, " node(s)"@);
}

/// Every sentence names what its fact is about.
pub proof fn a_sentence_names_its_matter(fact: FactView)
    ensures
        names_its_matter(fact, fact.words()),
{
    let s = fact.words();
    match fact {
        FactView::ExplicitSymbolQuery { name } => {
            lemma_both("the symbol "@, quoted(name));
            lemma_both("the symbol "@ + quoted(name), " was queried by name, literally"@);
        },
        FactView::DeletionRecord(d) => {
            let q = quoted(d.qualified_name);
            let head = "an index run recorded "@ + q + " ("@ + d.node_type + ") disappearing from "@;
            lemma_five("an index run recorded "@, q, " ("@, d.node_type, ") disappearing from "@);
            lemma_both(head, d.file_path);
        },
        FactView::LiveDefinitions { name, node_ids } => {
            if node_ids.len() == 0 {
                lemma_both("no live definition of "@, quoted(name));
                lemma_both("no live definition of "@ + quoted(name), " exists in this project"@);
            } else {
                let n = decimal(node_ids.len());
                let all = joined(node_ids, ", "@);
                lemma_five(n, " live definition(s) of "@, quoted(name), ": "@, all);
                assert forall|k: int| 0 <= k < node_ids.len() implies has_part(s, #[trigger] node_ids[k]) by {
                    lemma_joined(node_ids, ", "@, k);
                }
            }
        },
        FactView::NodeExists(n) => {
            match n.start_line {
                Some(line) => {
                    let head = n.qualified_name + " ("@ + n.node_type + ") is defined at "@ + n.file_path;
                    lemma_five(n.qualified_name, " ("@, n.node_type, ") is defined at "@, n.file_path);
                    let tail = ":"@ + signed_decimal(line as int);
                    lemma_both(head, tail);
                    assert(s =~= head + tail);
                },
                None => {
                    lemma_five(n.qualified_name, " ("@, n.node_type, ") is defined in "@, n.file_path);
                },
            }
        },
        FactView::EdgeExists { key, confidence, .. } => {
            let q = quoted(key.to_name);
            let head = key.from_id + " references "@ + q + " ("@ + key.to_type;
            lemma_five(key.from_id, " references "@, q, " ("@, key.to_type);
            lemma_both(head, "), and the resolver left it "@);
            lemma_both(head + "), and the resolver left it "@, confidence);
        },
        FactView::CandidatePool { bare, to_type, language_family, node_ids } => {
            lemma_pool_sentence(bare, to_type, language_family, node_ids);
        },
        FactView::RuleApplication { rule, hit_ids, outcome, key } => {
            lemma_rule_sentence(rule, hit_ids, key, outcome);
        },
        FactView::CascadeOutcome { outcome, attempted_rules, .. } => {
            let all = joined(attempted_rules, ", "@);
            lemma_both("the cascade tried "@, all);
            lemma_both("the cascade tried "@ + all, " and ended: "@);
            lemma_both("the cascade tried "@ + all + " and ended: "@, outcome);
            assert forall|k: int| 0 <= k < attempted_rules.len() implies has_part(s, #[trigger] attempted_rules[k]) by {
                lemma_joined(attempted_rules, ", "@, k);
            }
        },
        FactView::ResolvedHop { key, to_id, resolved_by, depth } => {
            lemma_hop_sentence(key, to_id, resolved_by, depth);
        },
    }
}

/// The line of a step: its number and its sentence.
pub open spec fn step_line(step: StepView) -> Seq<char> {
    "  "@ + decimal(step.index as nat) + ". "@ + step.fact.words() + "\n"@
}

proof fn lemma_step_lines(steps: Seq<StepView>, k: int)
    requires
        0 <= k < steps.len(),
    ensures
        has_part(step_lines(steps), step_line(steps[k])),
    decreases steps.len(),
{
    let rest = steps.drop_last();
    lemma_both(step_lines(rest), step_line(steps.last()));
    if k < rest.len() {
        assert(rest[k] == steps[k]);
        lemma_step_lines(rest, k);
    }
}

proof fn lemma_command_lines(commands: Seq<Seq<char>>, k: int)
    requires
        0 <= k < commands.len(),
    ensures
        has_part(command_lines(commands), "    $ "@ + commands[k] + "\n"@),
    decreases commands.len(),
{
    let rest = commands.drop_last();
    lemma_both(command_lines(rest), "    $ "@ + commands.last() + "\n"@);
    if k < rest.len() {
        assert(rest[k] == commands[k]);
        lemma_command_lines(rest, k);
    }
}

/// A rendered chain starts with its finding and its subject, and has a line for
/// every step and for every command.
pub proof fn a_chain_shows_all_its_steps(c: ChainView)
    ensures
        c.words().take((c.finding.tag().len() + 2 + c.subject.len()) as int) == c.finding.tag() + ": "@ + c.subject,
        forall|k: int| 0 <= k < c.steps.len() ==> has_part(c.words(), step_line(#[trigger] c.steps[k])),
        forall|k: int| 0 <= k < c.replay.len() ==> has_part(c.words(), "    $ "@ + #[trigger] c.replay[k] + "\n"@),
{
    reveal_strlit(": ");
    let title = c.finding.tag() + ": "@ + c.subject;
    let head = title + "\n"@ + step_lines(c.steps);
    let whole = head + "  replay:\n"@ + command_lines(c.replay);
    lemma_both(title + "\n"@, step_lines(c.steps));
    lemma_both(head, "  replay:\n"@);
    lemma_both(head + "  replay:\n"@, command_lines(c.replay));
    assert(c.words() == head || c.words() == whole);
    assert(head.take(title.len() as int) =~= title);
    assert(whole.take(title.len() as int) =~= title);
    assert forall|k: int| 0 <= k < c.steps.len() implies has_part(c.words(), step_line(#[trigger] c.steps[k])) by {
        lemma_step_lines(c.steps, k);
    }
    assert forall|k: int| 0 <= k < c.replay.len() implies has_part(
        c.words(),
        "    $ "@ + #[trigger] c.replay[k] + "\n"@,
    ) by {
        lemma_command_lines(c.replay, k);
    }
}

} // verus!
