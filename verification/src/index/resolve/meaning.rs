//! What a reference means, told by the definitions that there are.

use vstd::prelude::*;

use crate::gather::{gather, lemma_gather_member};
use crate::graph::reach::{is_named, lemma_named};
use crate::index::resolve::cascade::{binding_of, hits, ids_at, passes, select, Test};
use crate::index::resolve::indices::{
    by_id_order, has_imports, ids, imports_admit, in_pool, is_import_of, pool, use_admits,
};
use crate::index::resolve::laws::lemma_by_id_order;
use crate::index::resolve::names::{bare, family, last_sep, module_relative, normalized, sep};
use crate::index::resolve::{BindingView, EdgeView, NodeView};
use crate::order::{is_ascending, lemma_permutation_covers, lemma_sorted, lemma_stable_order_is_permutation, sorted};
use crate::text::{begins_with, finishes_with, has_part, occurs_at};

verus! {

// ---- what a reference could mean ------------------------------------------------------------

/// C and C++ share one family.
pub open spec fn is_c(language: Seq<char>) -> bool {
    language == "c"@ || language == "cpp"@ || language == "c-cpp"@
}

/// JavaScript and TypeScript share one family.
pub open spec fn is_script(language: Seq<char>) -> bool {
    language == "javascript"@ || language == "typescript"@
}

/// Can what is written in the one language refer to what is written in the other?
pub open spec fn are_kin(a: Seq<char>, b: Seq<char>) -> bool {
    a == b || (is_c(a) && is_c(b)) || (is_script(a) && is_script(b))
}

/// Node `i` is a definition of that name and type in a language that node
/// `source` can refer to.
pub open spec fn is_choice(nodes: Seq<NodeView>, source: int, name: Seq<char>, to_type: Seq<char>, i: int) -> bool {
    &&& 0 <= i < nodes.len()
    &&& nodes[i].name == name
    &&& nodes[i].node_type == to_type
    &&& are_kin(nodes[i].language, nodes[source].language)
}

/// ... in the file of node `source`.
pub open spec fn is_near(nodes: Seq<NodeView>, source: int, name: Seq<char>, to_type: Seq<char>, i: int) -> bool {
    is_choice(nodes, source, name, to_type, i) && nodes[i].file_path == nodes[source].file_path
}

/// Node `m` is a Rust `use` declaration of the file.
pub open spec fn is_use(nodes: Seq<NodeView>, file: Seq<char>, m: int) -> bool {
    0 <= m < nodes.len() && nodes[m].node_type == "import"@ && nodes[m].language == "rust"@ && nodes[m].file_path == file
}

/// ... that a `use` declaration of that file brings into scope.
pub open spec fn is_used(nodes: Seq<NodeView>, source: int, name: Seq<char>, to_type: Seq<char>, i: int) -> bool {
    is_choice(nodes, source, name, to_type, i) && exists|m: int| #[trigger]
        is_use(nodes, nodes[source].file_path, m) && use_admits(nodes[m].name, nodes[i].qualified_name)
}

/// A name below another.
pub open spec fn under(outer: Seq<char>, name: Seq<char>) -> Seq<char> {
    outer + seq![':', ':'] + name
}

/// ... whose qualified name is `path`.
pub open spec fn is_exact(nodes: Seq<NodeView>, source: int, name: Seq<char>, to_type: Seq<char>, path: Seq<char>, i: int) -> bool {
    is_choice(nodes, source, name, to_type, i) && nodes[i].qualified_name == path
}

/// ... whose qualified name ends in `::` and `path`.
pub open spec fn is_below(nodes: Seq<NodeView>, source: int, name: Seq<char>, to_type: Seq<char>, path: Seq<char>, i: int) -> bool {
    is_choice(nodes, source, name, to_type, i) && exists|outer: Seq<char>| nodes[i].qualified_name == #[trigger] under(
        outer,
        path,
    )
}

/// ... whose qualified name is `path` or ends in it.
pub open spec fn is_at(nodes: Seq<NodeView>, source: int, name: Seq<char>, to_type: Seq<char>, path: Seq<char>, i: int) -> bool {
    is_exact(nodes, source, name, to_type, path, i) || is_below(nodes, source, name, to_type, path, i)
}

/// The name has one segment.
pub open spec fn is_one_word(name: Seq<char>) -> bool {
    &&& forall|i: int| 0 <= i < name.len() ==> #[trigger] name[i] != '.' && name[i] != '/'
    &&& forall|i: int| 0 <= i < name.len() - 1 ==> !(#[trigger] name[i] == ':' && name[i + 1] == ':')
}

/// The binding that names node `i`.
pub open spec fn resolved(nodes: Seq<NodeView>, i: int, rule: Seq<char>) -> BindingView {
    BindingView { to_id: Some(nodes[i].id), confidence: "RESOLVED"@, resolved_by: rule, candidates: None }
}

// ---- how names are read ---------------------------------------------------------------------

/// Every `.` and every `/` of a name reads as `::`, and nothing else changes.
pub proof fn separators_read_alike(a: Seq<char>, c: char, b: Seq<char>)
    ensures
        normalized(a + b) == normalized(a) + normalized(b),
        normalized(seq![c]) == (if c == '.' || c == '/' {
            seq![':', ':']
        } else {
            seq![c]
        }),
        (forall|i: int| 0 <= i < a.len() ==> #[trigger] a[i] != '.' && a[i] != '/') ==> normalized(a) == a,
    decreases b.len(),
{
    assert(seq![c].drop_last() =~= Seq::empty());
    assert(normalized(Seq::<char>::empty()) =~= Seq::empty());
    assert(Seq::<char>::empty() + sep() =~= sep());
    assert(Seq::<char>::empty().push(c) =~= seq![c]);
    lemma_unseparated(a);
    if b.len() == 0 {
        assert(a + b =~= a);
        assert(normalized(a) + normalized(b) =~= normalized(a));
    } else {
        separators_read_alike(a, c, b.drop_last());
        assert((a + b).drop_last() =~= a + b.drop_last());
        let r = normalized(b.drop_last());
        if b.last() == '.' || b.last() == '/' {
            assert((normalized(a) + r) + sep() =~= normalized(a) + (r + sep()));
        } else {
            assert((normalized(a) + r).push(b.last()) =~= normalized(a) + r.push(b.last()));
        }
    }
}

proof fn lemma_unseparated(a: Seq<char>)
    ensures
        (forall|i: int| 0 <= i < a.len() ==> #[trigger] a[i] != '.' && a[i] != '/') ==> normalized(a) == a,
    decreases a.len(),
{
    if a.len() > 0 && forall|i: int| 0 <= i < a.len() ==> #[trigger] a[i] != '.' && a[i] != '/' {
        let rest = a.drop_last();
        assert forall|i: int| 0 <= i < rest.len() implies #[trigger] rest[i] != '.' && rest[i] != '/' by {
            assert(a[i] != '.' && a[i] != '/');
        }
        lemma_unseparated(rest);
        assert(a[a.len() - 1] != '.' && a[a.len() - 1] != '/');
        assert(rest.push(a.last()) =~= a);
    }
}

/// References whose names differ only in how their segments are separated are
/// bound alike.
pub proof fn separators_bind_alike(edge: EdgeView, other: EdgeView, nodes: Seq<NodeView>, a: Seq<char>, c: char, b: Seq<char>)
    requires
        c == '.' || c == '/',
        edge.to_name == a + seq![c] + b,
        other == (EdgeView { to_name: a + seq![':', ':'] + b, ..edge }),
    ensures
        binding_of(other, nodes) == binding_of(edge, nodes),
{
    separators_read_alike(a + seq![c], c, b);
    separators_read_alike(a, c, seq![c]);
    separators_read_alike(a + seq![':', ':'], c, b);
    separators_read_alike(a, c, seq![':', ':']);
    separators_read_alike(seq![':', ':'], c, b);
    assert(normalized(edge.to_name) == normalized(other.to_name));
}

/// The bare name is what follows the last `::`.
pub proof fn the_bare_name_is_the_last_segment(path: Seq<char>, name: Seq<char>)
    requires
        is_one_word(name),
        name.len() > 0 ==> name[0] != ':',
    ensures
        bare(name) == name,
        bare(under(path, name)) == name,
        !has_part(name, seq![':', ':']),
        has_part(under(path, name), seq![':', ':']),
{
    lemma_no_part(name);
    let s = under(path, name);
    let at = path.len() as int;
    assert(s.subrange(at, at + 2) =~= sep());
    assert(occurs_at(s, sep(), at));
    assert forall|j: int| at < j implies !#[trigger] occurs_at(s, sep(), j) by {
        if occurs_at(s, sep(), j) {
            assert(s.subrange(j, j + 2)[0] == ':' && s.subrange(j, j + 2)[1] == ':');
            assert(s[j] == ':' && s[j + 1] == ':');
            let k = j - at - 2;
            if k < 0 {
                assert(s[j + 1] == name[0]);
            } else {
                assert(name[k] == ':' && name[k + 1] == ':');
            }
        }
    }
    let l = last_sep(s);
    assert(occurs_at(s, sep(), l));
    if l < at {
        assert(!occurs_at(s, sep(), at));
    }
    assert(l == at);
    assert(s.skip(at + 2) =~= name);
}

proof fn lemma_no_part(name: Seq<char>)
    requires
        is_one_word(name),
    ensures
        !has_part(name, sep()),
        normalized(name) == name,
{
    lemma_unseparated(name);
    if has_part(name, sep()) {
        let i = choose|i: int| #[trigger] occurs_at(name, sep(), i);
        assert(name.subrange(i, i + 2)[0] == ':' && name.subrange(i, i + 2)[1] == ':');
        assert(name[i] == ':' && name[i + 1] == ':');
    }
}

/// A leading `crate::`, `self::` or `super::` is dropped, as often as there is
/// one; a name that starts with none of them stays as it is.
pub proof fn module_keywords_are_dropped(name: Seq<char>)
    ensures
        module_relative("crate::"@ + name) == module_relative(name),
        module_relative("self::"@ + name) == module_relative(name),
        module_relative("super::"@ + name) == module_relative(name),
        (forall|rest: Seq<char>| name != #[trigger] ("crate::"@ + rest)) && (forall|rest: Seq<char>| name != #[trigger] (
        "self::"@ + rest)) && (forall|rest: Seq<char>| name != #[trigger] ("super::"@ + rest)) ==> module_relative(name) == name,
{
    reveal_strlit("crate::");
    reveal_strlit("self::");
    reveal_strlit("super::");
    lemma_drops("crate::"@, name);
    lemma_drops("self::"@, name);
    lemma_drops("super::"@, name);
    let a = "self::"@ + name;
    let b = "super::"@ + name;
    assert(a[0] == 's' && b[0] == 's' && b[1] == 'u' && a[1] == 'e');
    if begins_with(a, "crate::"@) {
        assert(a.subrange(0, 7)[0] == 'c');
    }
    if begins_with(b, "crate::"@) {
        assert(b.subrange(0, 7)[0] == 'c');
    }
    if begins_with(b, "self::"@) {
        assert(b.subrange(0, 6)[1] == 'e');
    }
    if begins_with(name, "crate::"@) {
        assert(name =~= "crate::"@ + name.skip(7));
    }
    if begins_with(name, "self::"@) {
        assert(name =~= "self::"@ + name.skip(6));
    }
    if begins_with(name, "super::"@) {
        assert(name =~= "super::"@ + name.skip(7));
    }
}

proof fn lemma_drops(word: Seq<char>, name: Seq<char>)
    ensures
        begins_with(word + name, word),
        (word + name).skip(word.len() as int) == name,
{
    assert((word + name).subrange(0, word.len() as int) =~= word);
    assert((word + name).skip(word.len() as int) =~= name);
}

// ---- the candidates -------------------------------------------------------------------------

pub proof fn lemma_kin(a: Seq<char>, b: Seq<char>)
    ensures
        family(a) == family(b) <==> are_kin(a, b),
{
    reveal_strlit("c-cpp");
    reveal_strlit("typescript");
    reveal_strlit("c");
    reveal_strlit("cpp");
    reveal_strlit("javascript");
    assert("c-cpp"@.len() == 5 && "typescript"@.len() == 10 && "c"@.len() == 1 && "cpp"@.len() == 3);
    assert("javascript"@[0] == 'j' && "typescript"@[0] == 't');
}

/// A selection of distinct places.
proof fn lemma_selection(s: Seq<usize>, f: spec_fn(usize) -> Option<usize>)
    requires
        s.no_duplicates(),
        forall|x: usize| (#[trigger] f(x)) matches Some(y) ==> y == x,
    ensures
        gather(s, f).no_duplicates(),
        forall|x: usize| #[trigger] gather(s, f).contains(x) <==> s.contains(x) && f(x) is Some,
    decreases s.len(),
{
    let g = gather(s, f);
    assert forall|x: usize| #[trigger] g.contains(x) <==> s.contains(x) && f(x) is Some by {
        lemma_gather_member(s, f, x);
        if g.contains(x) {
            let i = choose|i: int| 0 <= i < s.len() && f(#[trigger] s[i]) == Some(x);
            assert(s[i] == x);
        }
        if s.contains(x) && f(x) is Some {
            let i = choose|i: int| 0 <= i < s.len() && s[i] == x;
            assert(f(s[i]) == Some(x));
        }
    }
    if s.len() > 0 {
        let rest = s.drop_last();
        assert(rest.no_duplicates()) by {
            assert forall|i: int, j: int| 0 <= i < rest.len() && 0 <= j < rest.len() && i != j implies rest[i] != rest[j] by {
                assert(s[i] != s[j]);
            }
        }
        lemma_selection(rest, f);
        let gr = gather(rest, f);
        assert forall|i: int, j: int| 0 <= i < g.len() && 0 <= j < g.len() && i != j implies g[i] != g[j] by {
            if i < gr.len() && j < gr.len() {
                assert(gr[i] != gr[j]);
            } else {
                let k = if i < gr.len() {
                    i
                } else {
                    j
                };
                assert(gr.contains(gr[k]));
                assert(rest.contains(gr[k]));
                let m = choose|m: int| 0 <= m < rest.len() && rest[m] == gr[k];
                assert(s[m] != s[s.len() - 1]);
                assert(f(s.last()) == Some(s.last()));
            }
        }
    }
}

/// The candidates are the choices, each once.
proof fn lemma_pool(nodes: Seq<NodeView>, source: int, name: Seq<char>, to_type: Seq<char>)
    requires
        nodes.len() <= usize::MAX,
    ensures
        pool(nodes, name, to_type, family(nodes[source].language)).no_duplicates(),
        forall|i: usize| #[trigger]
            pool(nodes, name, to_type, family(nodes[source].language)).contains(i) <==> is_choice(
                nodes,
                source,
                name,
                to_type,
                i as int,
            ),
{
    let lang = family(nodes[source].language);
    let order = by_id_order(nodes);
    lemma_by_id_order(nodes);
    lemma_stable_order_is_permutation::<String>(ids(nodes), order);
    assert(order.no_duplicates()) by {
        assert forall|i: int, j: int| 0 <= i < order.len() && 0 <= j < order.len() && i != j implies order[i] != order[j] by {
            if i < j {
                assert(order[i] != order[j]);
            } else {
                assert(order[j] != order[i]);
            }
        }
    }
    let f = in_pool(nodes, name, to_type, lang);
    lemma_selection(order, f);
    let p = pool(nodes, name, to_type, lang);
    assert forall|i: usize| #[trigger] p.contains(i) <==> is_choice(nodes, source, name, to_type, i as int) by {
        if p.contains(i) {
            assert(order.contains(i));
            let k = choose|k: int| 0 <= k < order.len() && order[k] == i;
            assert(order[k] < nodes.len());
            lemma_kin(nodes[i as int].language, nodes[source].language);
        }
        if is_choice(nodes, source, name, to_type, i as int) {
            lemma_permutation_covers(order, nodes.len(), i);
            lemma_kin(nodes[i as int].language, nodes[source].language);
        }
    }
}

proof fn lemma_hits(nodes: Seq<NodeView>, candidates: Seq<usize>, t: Test)
    requires
        candidates.no_duplicates(),
    ensures
        hits(nodes, candidates, t).no_duplicates(),
        forall|i: usize| #[trigger] hits(nodes, candidates, t).contains(i) <==> candidates.contains(i) && passes(
            nodes,
            t,
            nodes[i as int],
        ),
{
    lemma_selection(candidates, select(nodes, t));
}

/// A list of distinct places that holds one place only.
proof fn lemma_only(s: Seq<usize>, k: usize)
    requires
        s.no_duplicates(),
        s.contains(k),
        forall|x: usize| #[trigger] s.contains(x) ==> x == k,
    ensures
        s.len() == 1,
        s[0] == k,
{
    if s.len() > 1 {
        assert(s.contains(s[0]) && s.contains(s[1]));
        assert(s[0] != s[1]);
    }
    assert(s.contains(s[0]));
}

/// A list of one place.
proof fn lemma_one(s: Seq<usize>)
    requires
        s.len() == 1,
    ensures
        s.contains(s[0]),
        forall|x: usize| #[trigger] s.contains(x) ==> x == s[0],
{
}

proof fn lemma_below(q: Seq<char>, path: Seq<char>)
    ensures
        finishes_with(q, sep() + path) <==> exists|outer: Seq<char>| q == #[trigger] under(outer, path),
{
    let tail = sep() + path;
    let at = q.len() - tail.len();
    if finishes_with(q, tail) {
        let outer = q.take(at);
        assert(q.subrange(at, at + tail.len()) == tail);
        assert forall|i: int| 0 <= i < q.len() implies q[i] == under(outer, path)[i] by {
            if i >= at {
                assert(q.subrange(at, at + tail.len())[i - at] == q[i]);
            }
        }
        assert(q =~= under(outer, path));
    }
    if exists|outer: Seq<char>| q == #[trigger] under(outer, path) {
        let outer = choose|outer: Seq<char>| q == #[trigger] under(outer, path);
        assert(q.subrange(at, at + tail.len()) =~= tail);
    }
}

proof fn lemma_used(nodes: Seq<NodeView>, source: int, q: Seq<char>)
    ensures
        imports_admit(nodes, nodes[source].file_path, q) <==> exists|m: int| #[trigger]
            is_use(nodes, nodes[source].file_path, m) && use_admits(nodes[m].name, q),
        has_imports(nodes, nodes[source].file_path) <==> exists|m: int| #[trigger] is_use(nodes, nodes[source].file_path, m),
{
    let file = nodes[source].file_path;
    if imports_admit(nodes, file, q) {
        let m = choose|m: int| 0 <= m < nodes.len() && is_import_of(#[trigger] nodes[m], file) && use_admits(nodes[m].name, q);
        assert(is_use(nodes, file, m));
    }
    if exists|m: int| #[trigger] is_use(nodes, file, m) && use_admits(nodes[m].name, q) {
        let m = choose|m: int| #[trigger] is_use(nodes, file, m) && use_admits(nodes[m].name, q);
        assert(is_import_of(nodes[m], file));
    }
    if has_imports(nodes, file) {
        let m = choose|m: int| 0 <= m < nodes.len() && is_import_of(#[trigger] nodes[m], file);
        assert(is_use(nodes, file, m));
    }
    if exists|m: int| #[trigger] is_use(nodes, file, m) {
        let m = choose|m: int| #[trigger] is_use(nodes, file, m);
        assert(is_import_of(nodes[m], file));
    }
}

// ---- bare names -----------------------------------------------------------------------------

/// A bare name means the only definition of its file: whatever other files
/// define, and whatever the qualified names are.
pub proof fn a_bare_name_means_its_own_file_first(edge: EdgeView, nodes: Seq<NodeView>, source: int, k: int)
    requires
        nodes.len() <= usize::MAX,
        is_named(nodes, edge.from_id, source),
        is_one_word(edge.to_name),
        is_near(nodes, source, edge.to_name, edge.to_type, k),
        forall|i: int| #[trigger] is_near(nodes, source, edge.to_name, edge.to_type, i) ==> i == k,
    ensures
        binding_of(edge, nodes) == resolved(nodes, k, "r3"@),
{
    let name = edge.to_name;
    lemma_named(nodes, edge.from_id, source);
    lemma_no_part(name);
    lemma_pool(nodes, source, name, edge.to_type);
    let c = pool(nodes, name, edge.to_type, family(nodes[source].language));
    let t = Test::SameFile(nodes[source].file_path);
    lemma_hits(nodes, c, t);
    let h = hits(nodes, c, t);
    assert(h.contains(k as usize));
    assert forall|x: usize| #[trigger] h.contains(x) implies x == k as usize by {
        assert(is_near(nodes, source, name, edge.to_type, x as int));
    }
    lemma_only(h, k as usize);
}

/// A bare name that its own file does not tell means the only definition that
/// the `use` declarations of the file bring into scope.
pub proof fn a_bare_name_means_what_is_in_scope_next(edge: EdgeView, nodes: Seq<NodeView>, source: int, k: int)
    requires
        nodes.len() <= usize::MAX,
        is_named(nodes, edge.from_id, source),
        is_one_word(edge.to_name),
        !exists|n: int| #[trigger] is_near(nodes, source, edge.to_name, edge.to_type, n) && forall|i: int| #[trigger]
            is_near(nodes, source, edge.to_name, edge.to_type, i) ==> i == n,
        is_used(nodes, source, edge.to_name, edge.to_type, k),
        forall|i: int| #[trigger] is_used(nodes, source, edge.to_name, edge.to_type, i) ==> i == k,
    ensures
        binding_of(edge, nodes) == resolved(nodes, k, "r4"@),
{
    let name = edge.to_name;
    lemma_bare_parts(edge, nodes, source);
    let c = pool(nodes, name, edge.to_type, family(nodes[source].language));
    let h = hits(nodes, c, Test::Imported(nodes[source].file_path));
    lemma_used(nodes, source, nodes[k].qualified_name);
    assert(h.contains(k as usize));
    assert forall|x: usize| #[trigger] h.contains(x) implies x == k as usize by {
        lemma_used(nodes, source, nodes[x as int].qualified_name);
        assert(is_used(nodes, source, name, edge.to_type, x as int));
    }
    lemma_only(h, k as usize);
}

/// What the cascade for a bare name is made of.
proof fn lemma_bare_parts(edge: EdgeView, nodes: Seq<NodeView>, source: int)
    requires
        nodes.len() <= usize::MAX,
        is_named(nodes, edge.from_id, source),
        is_one_word(edge.to_name),
        !exists|n: int| #[trigger] is_near(nodes, source, edge.to_name, edge.to_type, n) && forall|i: int| #[trigger]
            is_near(nodes, source, edge.to_name, edge.to_type, i) ==> i == n,
    ensures
        ({
            let c = pool(nodes, edge.to_name, edge.to_type, family(nodes[source].language));
            let h3 = hits(nodes, c, Test::SameFile(nodes[source].file_path));
            let h4 = hits(nodes, c, Test::Imported(nodes[source].file_path));
            &&& crate::index::resolve::indices::place_of_id(nodes, edge.from_id) == Some(source)
            &&& normalized(edge.to_name) == edge.to_name
            &&& !has_part(edge.to_name, sep())
            &&& c.no_duplicates()
            &&& forall|i: usize| #[trigger] c.contains(i) <==> is_choice(nodes, source, edge.to_name, edge.to_type, i as int)
            &&& h3.len() != 1
            &&& h4.no_duplicates()
            &&& forall|i: usize| #[trigger] h4.contains(i) <==> c.contains(i) && imports_admit(
                nodes,
                nodes[source].file_path,
                nodes[i as int].qualified_name,
            )
        }),
{
    let name = edge.to_name;
    lemma_named(nodes, edge.from_id, source);
    lemma_no_part(name);
    lemma_pool(nodes, source, name, edge.to_type);
    let c = pool(nodes, name, edge.to_type, family(nodes[source].language));
    lemma_hits(nodes, c, Test::SameFile(nodes[source].file_path));
    lemma_hits(nodes, c, Test::Imported(nodes[source].file_path));
    let h3 = hits(nodes, c, Test::SameFile(nodes[source].file_path));
    if h3.len() == 1 {
        lemma_one(h3);
        let n = h3[0] as int;
        assert(h3.contains(h3[0]));
        assert(is_near(nodes, source, name, edge.to_type, n));
        assert forall|i: int| #[trigger] is_near(nodes, source, name, edge.to_type, i) implies i == n by {
            assert(h3.contains(i as usize));
        }
    }
}

/// The ids of the places, sorted, hold an id as often as the places do.
proof fn lemma_listed(nodes: Seq<NodeView>, left: Seq<usize>)
    ensures
        is_ascending::<String>(sorted::<String>(ids_at(nodes, left))),
        sorted::<String>(ids_at(nodes, left)).len() == left.len(),
        forall|id: Seq<char>| #[trigger] sorted::<String>(ids_at(nodes, left)).contains(id) <==> exists|i: usize| #[trigger]
            left.contains(i) && nodes[i as int].id == id,
{
    broadcast use vstd::seq_lib::group_to_multiset_ensures;

    let s = ids_at(nodes, left);
    let r = sorted::<String>(s);
    lemma_sorted::<String>(s);
    assert forall|id: Seq<char>| #[trigger] r.contains(id) <==> exists|i: usize| #[trigger] left.contains(i) && nodes[i as int].id
        == id by {
        if r.contains(id) {
            assert(r.to_multiset().contains(id));
            assert(s.to_multiset().contains(id));
            assert(s.contains(id));
            let k = choose|k: int| 0 <= k < s.len() && s[k] == id;
            assert(left.contains(left[k]));
        }
        if exists|i: usize| #[trigger] left.contains(i) && nodes[i as int].id == id {
            let i = choose|i: usize| #[trigger] left.contains(i) && nodes[i as int].id == id;
            let k = choose|k: int| 0 <= k < left.len() && left[k] == i;
            assert(s[k] == id);
            assert(s.contains(id));
            assert(s.to_multiset().contains(id));
            assert(r.to_multiset().contains(id));
            assert(r.contains(id));
        }
    }
}

/// A bare name that neither its file nor the file's `use` declarations tell
/// means the only definition of the project; with none it is unresolved, and
/// with several it is ambiguous among exactly them.
pub proof fn a_bare_name_means_what_the_project_tells_last(edge: EdgeView, nodes: Seq<NodeView>, source: int)
    requires
        nodes.len() <= usize::MAX,
        is_named(nodes, edge.from_id, source),
        is_one_word(edge.to_name),
        !exists|n: int| #[trigger] is_near(nodes, source, edge.to_name, edge.to_type, n) && forall|i: int| #[trigger]
            is_near(nodes, source, edge.to_name, edge.to_type, i) ==> i == n,
        !exists|n: int| #[trigger] is_used(nodes, source, edge.to_name, edge.to_type, n) && forall|i: int| #[trigger]
            is_used(nodes, source, edge.to_name, edge.to_type, i) ==> i == n,
    ensures
        ({
            let b = binding_of(edge, nodes);
            &&& forall|k: int| #[trigger] is_choice(nodes, source, edge.to_name, edge.to_type, k) && (forall|i: int| #[trigger]
                is_choice(nodes, source, edge.to_name, edge.to_type, i) ==> i == k) ==> b == resolved(nodes, k, "r5"@)
            &&& (forall|k: int| !#[trigger] is_choice(nodes, source, edge.to_name, edge.to_type, k)) ==> b == (BindingView {
                to_id: None,
                confidence: "UNRESOLVED"@,
                resolved_by: "r6"@,
                candidates: None,
            })
            &&& forall|j: int, k: int| j != k && #[trigger] is_choice(nodes, source, edge.to_name, edge.to_type, j) && #[trigger]
                is_choice(nodes, source, edge.to_name, edge.to_type, k) ==> {
                &&& b.to_id is None
                &&& b.confidence == "AMBIGUOUS"@
                &&& b.resolved_by == "r6"@
                &&& b.candidates is Some
                &&& is_ascending::<String>(b.candidates->0)
                &&& forall|id: Seq<char>| #[trigger] b.candidates->0.contains(id) <==> exists|i: int| #[trigger]
                    is_choice(nodes, source, edge.to_name, edge.to_type, i) && nodes[i].id == id
            }
        }),
{
    let name = edge.to_name;
    let b = binding_of(edge, nodes);
    lemma_bare_parts(edge, nodes, source);
    let c = pool(nodes, name, edge.to_type, family(nodes[source].language));
    let h4 = hits(nodes, c, Test::Imported(nodes[source].file_path));
    if h4.len() == 1 {
        lemma_one(h4);
        let n = h4[0] as int;
        assert(h4.contains(h4[0]));
        lemma_used(nodes, source, nodes[n].qualified_name);
        assert(is_used(nodes, source, name, edge.to_type, n));
        assert forall|i: int| #[trigger] is_used(nodes, source, name, edge.to_type, i) implies i == n by {
            lemma_used(nodes, source, nodes[i].qualified_name);
            assert(c.contains(i as usize));
            assert(h4.contains(i as usize));
        }
    }
    lemma_listed(nodes, c);
    assert forall|k: int| #[trigger] is_choice(nodes, source, name, edge.to_type, k) && (forall|i: int| #[trigger]
        is_choice(nodes, source, name, edge.to_type, i) ==> i == k) implies b == resolved(nodes, k, "r5"@) by {
        assert(c.contains(k as usize));
        assert forall|x: usize| #[trigger] c.contains(x) implies x == k as usize by {
            assert(is_choice(nodes, source, name, edge.to_type, x as int));
        }
        lemma_only(c, k as usize);
    }
    if forall|k: int| !#[trigger] is_choice(nodes, source, name, edge.to_type, k) {
        if c.len() > 0 {
            assert(c.contains(c[0]));
            assert(is_choice(nodes, source, name, edge.to_type, c[0] as int));
        }
    }
    assert forall|j: int, k: int| j != k && #[trigger] is_choice(nodes, source, name, edge.to_type, j) && #[trigger] is_choice(
        nodes,
        source,
        name,
        edge.to_type,
        k,
    ) implies {
        &&& b.to_id is None
        &&& b.confidence == "AMBIGUOUS"@
        &&& b.resolved_by == "r6"@
        &&& b.candidates is Some
        &&& is_ascending::<String>(b.candidates->0)
        &&& forall|id: Seq<char>| #[trigger] b.candidates->0.contains(id) <==> exists|i: int| #[trigger]
            is_choice(nodes, source, edge.to_name, edge.to_type, i) && nodes[i].id == id
    } by {
        assert(c.contains(j as usize) && c.contains(k as usize));
        if c.len() == 1 {
            lemma_one(c);
        }
        assert(b.candidates == Some(sorted::<String>(ids_at(nodes, c))));
        assert forall|id: Seq<char>| #[trigger] b.candidates->0.contains(id) <==> exists|i: int| #[trigger]
            is_choice(nodes, source, edge.to_name, edge.to_type, i) && nodes[i].id == id by {
            if b.candidates->0.contains(id) {
                let i = choose|i: usize| #[trigger] c.contains(i) && nodes[i as int].id == id;
                assert(is_choice(nodes, source, edge.to_name, edge.to_type, i as int));
            }
            if exists|i: int| #[trigger] is_choice(nodes, source, edge.to_name, edge.to_type, i) && nodes[i].id == id {
                let i = choose|i: int| #[trigger] is_choice(nodes, source, edge.to_name, edge.to_type, i) && nodes[i].id == id;
                assert(c.contains(i as usize));
            }
        }
    }
}

// ---- qualified names ------------------------------------------------------------------------

/// The reference names `name` below `path`.
pub open spec fn names_below(edge: EdgeView, path: Seq<char>, name: Seq<char>) -> bool {
    &&& is_one_word(name)
    &&& name.len() > 0 ==> name[0] != ':'
    &&& normalized(edge.to_name) == under(path, name)
}

proof fn lemma_qualified_parts(edge: EdgeView, nodes: Seq<NodeView>, source: int, path: Seq<char>, name: Seq<char>)
    requires
        nodes.len() <= usize::MAX,
        is_named(nodes, edge.from_id, source),
        names_below(edge, path, name),
    ensures
        ({
            let whole = normalized(edge.to_name);
            let c = pool(nodes, name, edge.to_type, family(nodes[source].language));
            &&& crate::index::resolve::indices::place_of_id(nodes, edge.from_id) == Some(source)
            &&& has_part(whole, sep())
            &&& bare(whole) == name
            &&& c.no_duplicates()
        }),
{
    lemma_named(nodes, edge.from_id, source);
    the_bare_name_is_the_last_segment(path, name);
    lemma_pool(nodes, source, name, edge.to_type);
}

proof fn lemma_exact(nodes: Seq<NodeView>, source: int, name: Seq<char>, to_type: Seq<char>, whole: Seq<char>)
    requires
        nodes.len() <= usize::MAX,
    ensures
        ({
            let c = pool(nodes, name, to_type, family(nodes[source].language));
            let h = hits(nodes, c, Test::Exact(whole));
            &&& h.no_duplicates()
            &&& forall|i: usize| #[trigger] h.contains(i) <==> is_exact(nodes, source, name, to_type, whole, i as int)
        }),
{
    lemma_pool(nodes, source, name, to_type);
    let c = pool(nodes, name, to_type, family(nodes[source].language));
    lemma_hits(nodes, c, Test::Exact(whole));
}

proof fn lemma_suffix(nodes: Seq<NodeView>, source: int, name: Seq<char>, to_type: Seq<char>, whole: Seq<char>)
    requires
        nodes.len() <= usize::MAX,
    ensures
        ({
            let c = pool(nodes, name, to_type, family(nodes[source].language));
            let h = hits(nodes, c, Test::Suffix(whole));
            &&& h.no_duplicates()
            &&& forall|i: usize| #[trigger] h.contains(i) <==> is_below(nodes, source, name, to_type, whole, i as int)
        }),
{
    lemma_pool(nodes, source, name, to_type);
    let c = pool(nodes, name, to_type, family(nodes[source].language));
    let h = hits(nodes, c, Test::Suffix(whole));
    lemma_hits(nodes, c, Test::Suffix(whole));
    assert forall|i: usize| #[trigger] h.contains(i) <==> is_below(nodes, source, name, to_type, whole, i as int) by {
        lemma_below(nodes[i as int].qualified_name, whole);
    }
}

proof fn lemma_relative(nodes: Seq<NodeView>, source: int, name: Seq<char>, to_type: Seq<char>, whole: Seq<char>)
    requires
        nodes.len() <= usize::MAX,
    ensures
        ({
            let c = pool(nodes, name, to_type, family(nodes[source].language));
            let h = hits(nodes, c, Test::Relative(whole));
            &&& h.no_duplicates()
            &&& forall|i: usize| #[trigger] h.contains(i) <==> is_at(nodes, source, name, to_type, whole, i as int)
        }),
{
    lemma_pool(nodes, source, name, to_type);
    let c = pool(nodes, name, to_type, family(nodes[source].language));
    let h = hits(nodes, c, Test::Relative(whole));
    lemma_hits(nodes, c, Test::Relative(whole));
    assert forall|i: usize| #[trigger] h.contains(i) <==> is_at(nodes, source, name, to_type, whole, i as int) by {
        lemma_below(nodes[i as int].qualified_name, whole);
    }
}

/// A qualified name means the only definition that has it as its qualified name.
pub proof fn a_qualified_name_means_the_whole_first(
    edge: EdgeView,
    nodes: Seq<NodeView>,
    source: int,
    path: Seq<char>,
    name: Seq<char>,
    k: int,
)
    requires
        nodes.len() <= usize::MAX,
        is_named(nodes, edge.from_id, source),
        names_below(edge, path, name),
        is_exact(nodes, source, name, edge.to_type, under(path, name), k),
        forall|i: int| #[trigger]
            is_exact(nodes, source, name, edge.to_type, under(path, name), i) ==> i == k,
    ensures
        binding_of(edge, nodes) == resolved(nodes, k, "r1"@),
{
    let whole = under(path, name);
    lemma_qualified_parts(edge, nodes, source, path, name);
    lemma_exact(nodes, source, name, edge.to_type, whole);
    let c = pool(nodes, name, edge.to_type, family(nodes[source].language));
    let h = hits(nodes, c, Test::Exact(whole));
    assert(h.contains(k as usize));
    assert forall|x: usize| #[trigger] h.contains(x) implies x == k as usize by {
        assert(is_exact(nodes, source, name, edge.to_type, whole, x as int));
    }
    lemma_only(h, k as usize);
}

proof fn lemma_not_one_exact(nodes: Seq<NodeView>, source: int, name: Seq<char>, to_type: Seq<char>, whole: Seq<char>)
    requires
        nodes.len() <= usize::MAX,
        !exists|n: int| #[trigger] is_exact(nodes, source, name, to_type, whole, n) && forall|i: int| #[trigger]
            is_exact(nodes, source, name, to_type, whole, i) ==> i == n,
    ensures
        hits(nodes, pool(nodes, name, to_type, family(nodes[source].language)), Test::Exact(whole)).len() != 1,
{
    lemma_exact(nodes, source, name, to_type, whole);
    let h = hits(nodes, pool(nodes, name, to_type, family(nodes[source].language)), Test::Exact(whole));
    if h.len() == 1 {
        lemma_one(h);
        let n = h[0] as int;
        assert(h.contains(h[0]));
        assert(is_exact(nodes, source, name, to_type, whole, n));
        assert forall|i: int| #[trigger] is_exact(nodes, source, name, to_type, whole, i) implies i == n by {
            assert(h.contains(i as usize));
        }
    }
}

proof fn lemma_not_one_below(nodes: Seq<NodeView>, source: int, name: Seq<char>, to_type: Seq<char>, whole: Seq<char>)
    requires
        nodes.len() <= usize::MAX,
        !exists|n: int| #[trigger] is_below(nodes, source, name, to_type, whole, n) && forall|i: int| #[trigger]
            is_below(nodes, source, name, to_type, whole, i) ==> i == n,
    ensures
        hits(nodes, pool(nodes, name, to_type, family(nodes[source].language)), Test::Suffix(whole)).len() != 1,
{
    lemma_suffix(nodes, source, name, to_type, whole);
    let h = hits(nodes, pool(nodes, name, to_type, family(nodes[source].language)), Test::Suffix(whole));
    if h.len() == 1 {
        lemma_one(h);
        let n = h[0] as int;
        assert(h.contains(h[0]));
        assert(is_below(nodes, source, name, to_type, whole, n));
        assert forall|i: int| #[trigger] is_below(nodes, source, name, to_type, whole, i) implies i == n by {
            assert(h.contains(i as usize));
        }
    }
}

/// A qualified name that no one definition has as a whole means the only one
/// whose qualified name ends in it behind `::`.
pub proof fn a_qualified_name_means_the_end_next(
    edge: EdgeView,
    nodes: Seq<NodeView>,
    source: int,
    path: Seq<char>,
    name: Seq<char>,
    k: int,
)
    requires
        nodes.len() <= usize::MAX,
        is_named(nodes, edge.from_id, source),
        names_below(edge, path, name),
        !exists|n: int| #[trigger] is_exact(nodes, source, name, edge.to_type, under(path, name), n)
            && forall|i: int| #[trigger]
            is_exact(nodes, source, name, edge.to_type, under(path, name), i) ==> i == n,
        is_below(nodes, source, name, edge.to_type, under(path, name), k),
        forall|i: int| #[trigger]
            is_below(nodes, source, name, edge.to_type, under(path, name), i) ==> i == k,
    ensures
        binding_of(edge, nodes) == resolved(nodes, k, "r2"@),
{
    let whole = under(path, name);
    lemma_qualified_parts(edge, nodes, source, path, name);
    lemma_not_one_exact(nodes, source, name, edge.to_type, whole);
    lemma_suffix(nodes, source, name, edge.to_type, whole);
    let c = pool(nodes, name, edge.to_type, family(nodes[source].language));
    let h = hits(nodes, c, Test::Suffix(whole));
    assert(h.contains(k as usize));
    assert forall|x: usize| #[trigger] h.contains(x) implies x == k as usize by {
        assert(is_below(nodes, source, name, edge.to_type, whole, x as int));
    }
    lemma_only(h, k as usize);
}

/// In Rust, a qualified name with a leading module keyword that is still not
/// told means the only definition that the rest of it names, as a whole or as
/// the end of a qualified name.
pub proof fn a_module_path_means_the_rest_of_it(
    edge: EdgeView,
    nodes: Seq<NodeView>,
    source: int,
    path: Seq<char>,
    name: Seq<char>,
    rest: Seq<char>,
    k: int,
)
    requires
        nodes.len() <= usize::MAX,
        is_named(nodes, edge.from_id, source),
        names_below(edge, path, name),
        nodes[source].language == "rust"@,
        !exists|n: int| #[trigger] is_exact(nodes, source, name, edge.to_type, under(path, name), n)
            && forall|i: int| #[trigger]
            is_exact(nodes, source, name, edge.to_type, under(path, name), i) ==> i == n,
        !exists|n: int| #[trigger] is_below(nodes, source, name, edge.to_type, under(path, name), n)
            && forall|i: int| #[trigger]
            is_below(nodes, source, name, edge.to_type, under(path, name), i) ==> i == n,
        rest == module_relative(under(path, name)),
        rest != under(path, name),
        is_at(nodes, source, name, edge.to_type, rest, k),
        forall|i: int| #[trigger] is_at(nodes, source, name, edge.to_type, rest, i) ==> i == k,
    ensures
        binding_of(edge, nodes) == resolved(nodes, k, "r2m"@),
{
    let whole = under(path, name);
    lemma_qualified_parts(edge, nodes, source, path, name);
    lemma_not_one_exact(nodes, source, name, edge.to_type, whole);
    lemma_not_one_below(nodes, source, name, edge.to_type, whole);
    lemma_relative(nodes, source, name, edge.to_type, rest);
    let c = pool(nodes, name, edge.to_type, family(nodes[source].language));
    let h = hits(nodes, c, Test::Relative(rest));
    assert(h.contains(k as usize));
    assert forall|x: usize| #[trigger] h.contains(x) implies x == k as usize by {
        assert(is_at(nodes, source, name, edge.to_type, rest, x as int));
    }
    lemma_only(h, k as usize);
}

/// A qualified name that is not told is unresolved where no definition has it,
/// as a whole or as the end of its qualified name, and ambiguous among exactly
/// those that have it otherwise.
pub proof fn a_qualified_name_is_ambiguous_among_those_that_have_it(
    edge: EdgeView,
    nodes: Seq<NodeView>,
    source: int,
    path: Seq<char>,
    name: Seq<char>,
)
    requires
        nodes.len() <= usize::MAX,
        is_named(nodes, edge.from_id, source),
        names_below(edge, path, name),
        !exists|n: int| #[trigger] is_exact(nodes, source, name, edge.to_type, under(path, name), n)
            && forall|i: int| #[trigger]
            is_exact(nodes, source, name, edge.to_type, under(path, name), i) ==> i == n,
        !exists|n: int| #[trigger] is_below(nodes, source, name, edge.to_type, under(path, name), n)
            && forall|i: int| #[trigger]
            is_below(nodes, source, name, edge.to_type, under(path, name), i) ==> i == n,
        nodes[source].language == "rust"@ && module_relative(under(path, name)) != under(path, name)
            ==> !exists|n: int| #[trigger]
            is_at(nodes, source, name, edge.to_type, module_relative(under(path, name)), n) && forall|i: int| #[trigger]
            is_at(nodes, source, name, edge.to_type, module_relative(under(path, name)), i) ==> i == n,
    ensures
        ({
            let b = binding_of(edge, nodes);
            let whole = under(path, name);
            &&& b.to_id is None
            &&& b.resolved_by == "r6"@
            &&& (forall|i: int| !#[trigger] is_at(nodes, source, name, edge.to_type, whole, i)) ==> b.confidence
                == "UNRESOLVED"@ && b.candidates is None
            &&& (exists|i: int| #[trigger] is_at(nodes, source, name, edge.to_type, whole, i)) ==> {
                &&& b.confidence == "AMBIGUOUS"@
                &&& b.candidates is Some
                &&& is_ascending::<String>(b.candidates->0)
                &&& forall|id: Seq<char>| #[trigger] b.candidates->0.contains(id) <==> exists|i: int| #[trigger]
                    is_at(nodes, source, name, edge.to_type, whole, i) && nodes[i].id == id
            }
        }),
{
    let b = binding_of(edge, nodes);
    let whole = under(path, name);
    let rel = module_relative(whole);
    let c = pool(nodes, name, edge.to_type, family(nodes[source].language));
    let h1 = hits(nodes, c, Test::Exact(whole));
    let h2 = hits(nodes, c, Test::Suffix(whole));
    let h3 = hits(nodes, c, Test::Relative(rel));
    lemma_qualified_parts(edge, nodes, source, path, name);
    lemma_not_one_exact(nodes, source, name, edge.to_type, whole);
    lemma_not_one_below(nodes, source, name, edge.to_type, whole);
    lemma_exact(nodes, source, name, edge.to_type, whole);
    lemma_suffix(nodes, source, name, edge.to_type, whole);
    lemma_relative(nodes, source, name, edge.to_type, rel);
    if nodes[source].language == "rust"@ && rel != whole && h3.len() == 1 {
        lemma_one(h3);
        let n = h3[0] as int;
        assert(h3.contains(h3[0]));
        assert(is_at(nodes, source, name, edge.to_type, rel, n));
        assert forall|i: int| #[trigger] is_at(nodes, source, name, edge.to_type, rel, i) implies i == n by {
            assert(h3.contains(i as usize));
        }
    }
    let left = h1 + h2;
    lemma_listed(nodes, left);
    assert forall|i: usize| #[trigger] left.contains(i) <==> is_at(nodes, source, name, edge.to_type, whole, i as int) by {
        if left.contains(i) {
            let k = choose|k: int| 0 <= k < left.len() && left[k] == i;
            if k < h1.len() {
                assert(h1[k] == i);
                assert(h1.contains(i));
            } else {
                assert(h2[k - h1.len()] == i);
                assert(h2.contains(i));
            }
        }
        if is_exact(nodes, source, name, edge.to_type, whole, i as int) {
            assert(h1.contains(i));
            let k = choose|k: int| 0 <= k < h1.len() && h1[k] == i;
            assert(left[k] == i);
        }
        if is_below(nodes, source, name, edge.to_type, whole, i as int) {
            assert(h2.contains(i));
            let k = choose|k: int| 0 <= k < h2.len() && h2[k] == i;
            assert(left[h1.len() + k] == i);
        }
    }
    if left.len() > 0 {
        assert(left.contains(left[0]));
        assert(is_at(nodes, source, name, edge.to_type, whole, left[0] as int));
        assert forall|id: Seq<char>| #[trigger] b.candidates->0.contains(id) <==> exists|i: int| #[trigger]
            is_at(nodes, source, name, edge.to_type, whole, i) && nodes[i].id == id by {
            if b.candidates->0.contains(id) {
                let i = choose|i: usize| #[trigger] left.contains(i) && nodes[i as int].id == id;
                assert(is_at(nodes, source, name, edge.to_type, whole, i as int));
            }
            if exists|i: int| #[trigger] is_at(nodes, source, name, edge.to_type, whole, i) && nodes[i].id == id {
                let i = choose|i: int| #[trigger] is_at(nodes, source, name, edge.to_type, whole, i) && nodes[i].id == id;
                assert(left.contains(i as usize));
            }
        }
    } else {
        assert forall|i: int| !#[trigger] is_at(nodes, source, name, edge.to_type, whole, i) by {
            if is_at(nodes, source, name, edge.to_type, whole, i) {
                assert(left.contains(i as usize));
            }
        }
    }
}

/// A reference whose source no node is means nothing.
pub proof fn a_reference_from_nowhere_is_unresolved(edge: EdgeView, nodes: Seq<NodeView>)
    requires
        nodes.len() <= usize::MAX,
        forall|i: int| 0 <= i < nodes.len() ==> (#[trigger] nodes[i]).id != edge.from_id,
    ensures
        binding_of(edge, nodes) == (BindingView {
            to_id: None,
            confidence: "UNRESOLVED"@,
            resolved_by: "r6"@,
            candidates: None,
        }),
{
    crate::graph::paths::lemma_place_within(nodes, edge.from_id);
}

} // verus!
