//! Qualified names: the path of a file's module, the chain of containers of
//! a symbol, and its own name, joined by `::`.

use vstd::prelude::*;
use crate::gather::gather;
use crate::index::parser::{meta_value, CodeEdge, CodeEdgeView, CodeNode, CodeView, MetaView};
use crate::lookup::{lemma_places_of, lemma_take_next, places_of, put, SortedIndex};
use crate::text::{chars_of, join_texts, joined, same_text, split_char, split_text, stem, stem_of};

verus! {

// ---- module paths ---------------------------------------------------------------------------

/// A path with slashes in place of backslashes.
pub open spec fn slashed(path: Seq<char>) -> Seq<char> {
    path.map_values(
        |c: char|
            if c == '\\' {
                '/'
            } else {
                c
            },
    )
}

/// The parts of a path, but for empty ones.
pub open spec fn path_parts(path: Seq<char>) -> Seq<Seq<char>> {
    gather(
        split_char(slashed(path), '/'),
        |p: Seq<char>|
            if p.len() > 0 {
                Some(p)
            } else {
                None
            },
    )
}

/// The parts with the last one's extension left out.
pub open spec fn last_bare(parts: Seq<Seq<char>>) -> Seq<Seq<char>> {
    if parts.len() > 0 {
        parts.drop_last().push(stem(parts.last()))
    } else {
        parts
    }
}

/// The parts of a module path.
///
/// In Rust sources stand under `src`, and the files `mod`, `lib` and `main`
/// name their directory's module. In Go and Java the file's own name plays no
/// part. In Python `__init__` names its directory. Elsewhere the file's own
/// name is the last part.
pub open spec fn module_parts(path: Seq<char>, language: Seq<char>) -> Seq<Seq<char>> {
    let all = path_parts(path);
    if language == "rust"@ {
        let rooted = if all.len() > 0 && all[0] == "src"@ {
            all.skip(1)
        } else {
            all
        };
        let bare = last_bare(rooted);
        if bare.len() > 0 && (bare.last() == "mod"@ || bare.last() == "lib"@ || bare.last() == "main"@) {
            bare.drop_last()
        } else {
            bare
        }
    } else if language == "go"@ || language == "java"@ {
        if all.len() > 0 {
            all.drop_last()
        } else {
            all
        }
    } else if language == "python"@ {
        let bare = last_bare(all);
        if bare.len() > 0 && bare.last() == "__init__"@ {
            bare.drop_last()
        } else {
            bare
        }
    } else {
        last_bare(all)
    }
}

fn slash(path: &str) -> (r: String)
    ensures
        r@ == slashed(path@),
{
    let v = chars_of(path);
    let mut r = String::new();
    let mut i: usize = 0;
    assert(r@ =~= slashed(path@).take(0));
    while i < v.len()
        invariant
            v@ == path@,
            i <= v@.len(),
            r@ == slashed(path@).take(i as int),
        decreases v.len() - i,
    {
        proof {
            lemma_take_next(slashed(path@), i as int);
        }
        r.push(if v[i] == '\\' { '/' } else { v[i] });
        i = i + 1;
    }
    assert(slashed(path@).take(i as int) =~= slashed(path@));
    r
}

fn split_path(path: &str) -> (r: Vec<String>)
    ensures
        r.deep_view() == path_parts(path@),
{
    let whole = slash(path);
    let parts = split_text(whole.as_str(), '/');
    let ghost all = split_char(slashed(path@), '/');
    let ghost f = |p: Seq<char>|
        if p.len() > 0 {
            Some(p)
        } else {
            None
        };
    let mut out: Vec<String> = Vec::new();
    let mut i: usize = 0;
    assert(out.deep_view() =~= gather(all.take(0), f));
    while i < parts.len()
        invariant
            i <= parts@.len(),
            parts.deep_view() == all,
            f == (|p: Seq<char>|
                if p.len() > 0 {
                    Some(p)
                } else {
                    None
                }),
            out.deep_view() == gather(all.take(i as int), f),
        decreases parts.len() - i,
    {
        proof {
            assert(all.len() == parts@.len());
            lemma_take_next(all, i as int);
            assert(all[i as int] == parts@[i as int]@);
        }
        if !parts[i].as_str().is_empty() {
            put(&mut out, parts[i].as_str().to_owned());
        }
        i = i + 1;
    }
    assert(all.take(i as int) =~= all);
    out
}

fn bare_last(parts: &mut Vec<String>)
    ensures
        final(parts).deep_view() == last_bare(old(parts).deep_view()),
{
    let ghost all = parts.deep_view();
    match parts.pop() {
        Some(last) => {
            assert(parts.deep_view() =~= all.drop_last());
            assert(all.last() == last@);
            put(parts, stem_of(last.as_str()));
        },
        None => {},
    }
}

fn last_is(parts: &Vec<String>, name: &str) -> (r: bool)
    ensures
        r == (parts.deep_view().len() > 0 && parts.deep_view().last() == name@),
{
    parts.len() > 0 && same_text(parts[parts.len() - 1].as_str(), name)
}

fn drop_last_part(parts: &mut Vec<String>)
    ensures
        final(parts).deep_view() == if old(parts).deep_view().len() > 0 {
            old(parts).deep_view().drop_last()
        } else {
            old(parts).deep_view()
        },
{
    let ghost all = parts.deep_view();
    match parts.pop() {
        Some(_) => {
            assert(parts.deep_view() =~= all.drop_last());
        },
        None => {},
    }
}

/// The path of a file's module, its parts joined by `::`.
pub fn module_path_of(file_path: &str, language: &str) -> (r: String)
    ensures
        r@ == joined(module_parts(file_path@, language@), "::"@),
{
    let mut parts = split_path(file_path);
    let ghost all = parts.deep_view();
    if same_text(language, "rust") {
        if parts.len() > 0 && same_text(parts[0].as_str(), "src") {
            parts.remove(0);
            assert(parts.deep_view() =~= all.skip(1));
        }
        bare_last(&mut parts);
        if last_is(&parts, "mod") || last_is(&parts, "lib") || last_is(&parts, "main") {
            drop_last_part(&mut parts);
        }
    } else if same_text(language, "go") || same_text(language, "java") {
        drop_last_part(&mut parts);
    } else if same_text(language, "python") {
        bare_last(&mut parts);
        if last_is(&parts, "__init__") {
            drop_last_part(&mut parts);
        }
    } else {
        bare_last(&mut parts);
    }
    join_texts(&parts, "::")
}

// ---- chains of containers -----------------------------------------------------------------------

/// A file's symbols as qualified names need them: the segment of each, the
/// place of its container where that is a symbol of the file, and the path of
/// the module.
pub struct Chains {
    pub segments: Seq<Seq<char>>,
    pub containers: Seq<Option<usize>>,
    pub module: Seq<char>,
}

/// A name below a prefix; the name alone where the prefix is empty.
pub open spec fn below(prefix: Seq<char>, segment: Seq<char>) -> Seq<char> {
    if prefix.len() == 0 {
        segment
    } else {
        prefix + "::"@ + segment
    }
}

impl Chains {
    pub open spec fn wf(self) -> bool {
        &&& self.segments.len() == self.containers.len()
        &&& forall|i: int|
            0 <= i < self.containers.len() ==> (#[trigger] self.containers[i] matches Some(j) ==> j
                < self.containers.len())
    }

    /// The name of a symbol without a container.
    pub open spec fn top_name(self, i: int) -> Seq<char> {
        below(self.module, self.segments[i])
    }

    /// The names that are known once the symbol at place `i` is named, those
    /// known before and the symbols whose naming waits for this one given. A
    /// symbol that waits for itself is named as if it had no container.
    pub open spec fn name_one(
        self,
        i: int,
        known: Seq<Option<Seq<char>>>,
        waiting: Seq<int>,
    ) -> Seq<Option<Seq<char>>>
        decreases self.containers.len() - waiting.len(),
    {
        if known[i] is Some {
            known
        } else if waiting.contains(i) || waiting.len() >= self.containers.len() {
            known.update(i, Some(self.top_name(i)))
        } else {
            match self.containers[i] {
                Some(j) => {
                    let more = self.name_one(j as int, known, waiting.push(i));
                    more.update(i, Some(below(more[j as int]->0, self.segments[i])))
                },
                None => known.update(i, Some(self.top_name(i))),
            }
        }
    }

    /// The names that are known once the symbols at some places are named in
    /// that order.
    pub open spec fn name_all(self, places: Seq<usize>) -> Seq<Option<Seq<char>>>
        decreases places.len(),
    {
        if places.len() == 0 {
            Seq::new(self.segments.len(), |i: int| None)
        } else {
            self.name_one(places.last() as int, self.name_all(places.drop_last()), Seq::empty())
        }
    }
}

fn join(prefix: &str, segment: &str) -> (r: String)
    ensures
        r@ == below(prefix@, segment@),
{
    if prefix.is_empty() {
        segment.to_owned()
    } else {
        let mut r = prefix.to_owned();
        r.append("::");
        r.append(segment);
        r
    }
}

proof fn lemma_waiting_fit(waiting: Seq<int>, n: int)
    requires
        0 <= n,
        waiting.no_duplicates(),
        forall|k: int| 0 <= k < waiting.len() ==> 0 <= #[trigger] waiting[k] < n,
    ensures
        waiting.len() <= n,
{
    let s = waiting.to_set();
    let all = vstd::set_lib::set_int_range(0, n);
    vstd::set_lib::lemma_int_range(0, n);
    assert(s.subset_of(all)) by {
        assert forall|x: int| s.contains(x) implies all.contains(x) by {
            let k = choose|k: int| 0 <= k < waiting.len() && waiting[k] == x;
            assert(0 <= waiting[k] < n);
        }
    }
    waiting.unique_seq_to_set();
    vstd::set_lib::lemma_len_subset(s, all);
}

spec fn ints(v: Seq<usize>) -> Seq<int> {
    v.map_values(|x: usize| x as int)
}

fn is_waiting(waiting: &Vec<usize>, i: usize) -> (r: bool)
    ensures
        r == ints(waiting@).contains(i as int),
{
    let mut k: usize = 0;
    while k < waiting.len()
        invariant
            k <= waiting@.len(),
            forall|j: int| 0 <= j < k ==> waiting@[j] != i,
        decreases waiting.len() - k,
    {
        if waiting[k] == i {
            assert(ints(waiting@)[k as int] == i as int);
            return true;
        }
        k = k + 1;
    }
    assert forall|j: int| 0 <= j < ints(waiting@).len() implies ints(waiting@)[j] != i as int by {
        assert(waiting@[j] != i);
    }
    false
}

fn set_name(known: &mut Vec<Option<String>>, i: usize, name: String)
    requires
        i < old(known)@.len(),
    ensures
        final(known)@.len() == old(known)@.len(),
        final(known).deep_view() == old(known).deep_view().update(i as int, Some(name@)),
{
    let ghost before = known.deep_view();
    known.set(i, Some(name));
    assert(known.deep_view() =~= before.update(i as int, Some(name@)));
}

fn resolve(
    i: usize,
    segments: &Vec<String>,
    containers: &Vec<Option<usize>>,
    module: &str,
    known: &mut Vec<Option<String>>,
    waiting: &mut Vec<usize>,
    Ghost(g): Ghost<Chains>,
)
    requires
        g == (Chains { segments: segments.deep_view(), containers: containers@, module: module@ }),
        g.wf(),
        i < containers@.len(),
        old(known)@.len() == containers@.len(),
        ints(old(waiting)@).no_duplicates(),
        forall|k: int| 0 <= k < old(waiting)@.len() ==> #[trigger] old(waiting)@[k] < containers@.len(),
    ensures
        final(waiting)@ == old(waiting)@,
        final(known)@.len() == old(known)@.len(),
        final(known).deep_view() == g.name_one(i as int, old(known).deep_view(), ints(old(waiting)@)),
        final(known).deep_view()[i as int] is Some,
    decreases containers@.len() - old(waiting)@.len(),
{
    let ghost told = known.deep_view();
    let ghost held = ints(waiting@);
    assert(told[i as int] == known@[i as int].deep_view());
    if known[i].is_some() {
        return;
    }
    let segment = &segments[i];
    assert(g.segments[i as int] == segment@);
    if is_waiting(waiting, i) {
        set_name(known, i, join(module, segment.as_str()));
        return;
    }
    proof {
        let more = held.push(i as int);
        assert(more.no_duplicates());
        assert forall|k: int| 0 <= k < more.len() implies 0 <= #[trigger] more[k] < containers@.len() by {
            if k < held.len() {
                assert(waiting@[k] < containers@.len());
            }
        }
        lemma_waiting_fit(more, containers@.len() as int);
    }
    match containers[i] {
        Some(j) => {
            assert(g.containers[i as int] == Some(j));
            let ghost before = waiting@;
            waiting.push(i);
            assert(ints(waiting@) =~= held.push(i as int));
            resolve(j, segments, containers, module, known, waiting, Ghost(g));
            let _ = waiting.pop();
            assert(waiting@ =~= before);
            assert(known.deep_view()[j as int] == known@[j as int].deep_view());
            let name = match &known[j] {
                Some(above) => join(above.as_str(), segment.as_str()),
                None => join(module, segment.as_str()),
            };
            set_name(known, i, name);
        },
        None => {
            set_name(known, i, join(module, segment.as_str()));
        },
    }
}

// ---- naming a file's symbols ------------------------------------------------------------------------

/// The segment of a symbol in a qualified name: its name, or the type of an
/// impl block.
pub open spec fn segment(node: CodeView) -> Seq<char> {
    if node.node_type == "impl"@ {
        match meta_value(node.metadata, "impl_for"@) {
            Some(MetaView::Text(t)) => t,
            _ => node.name,
        }
    } else {
        node.name
    }
}

/// The ids of some nodes.
pub open spec fn ids(nodes: Seq<CodeView>) -> Seq<Seq<char>> {
    nodes.map_values(|n: CodeView| n.id)
}

/// The place of the last node with an id.
pub open spec fn last_place(keys: Seq<Seq<char>>, id: Seq<char>) -> Option<usize> {
    let found = places_of(keys, id);
    if found.len() > 0 {
        Some(found.last())
    } else {
        None
    }
}

/// The container of an id: the source of the last `contains` edge to it.
pub open spec fn container(edges: Seq<CodeEdgeView>, id: Seq<char>) -> Option<Seq<char>>
    decreases edges.len(),
{
    if edges.len() == 0 {
        None
    } else if edges.last().edge_type == "contains"@ && edges.last().to_id == id {
        Some(edges.last().from_id)
    } else {
        container(edges.drop_last(), id)
    }
}

/// The place of an id's container among a file's symbols.
pub open spec fn container_place(keys: Seq<Seq<char>>, edges: Seq<CodeEdgeView>, id: Seq<char>) -> Option<usize> {
    match container(edges, id) {
        Some(owner) => last_place(keys, owner),
        None => None,
    }
}

/// A file's symbols, as qualified names need them.
pub open spec fn chains(nodes: Seq<CodeView>, edges: Seq<CodeEdgeView>, module: Seq<char>) -> Chains {
    Chains {
        segments: nodes.map_values(|n: CodeView| segment(n)),
        containers: nodes.map_values(|n: CodeView| container_place(ids(nodes), edges, n.id)),
        module,
    }
}

/// The place that stands for each node: that of the last node with its id.
pub open spec fn stand_ins(nodes: Seq<CodeView>) -> Seq<usize> {
    nodes.map_values(|n: CodeView| last_place(ids(nodes), n.id)->0)
}

/// Every node with its qualified name.
pub open spec fn qualified(nodes: Seq<CodeView>, edges: Seq<CodeEdgeView>, module: Seq<char>) -> Seq<CodeView> {
    let names = chains(nodes, edges, module).name_all(stand_ins(nodes));
    Seq::new(
        nodes.len(),
        |k: int| CodeView { qualified_name: names[stand_ins(nodes)[k] as int]->0, ..nodes[k] },
    )
}

fn containment_segment(node: &CodeNode) -> (r: &str)
    ensures
        r@ == segment(node.deep_view()),
{
    if same_text(node.node_type.as_str(), "impl") {
        match node.metadata.get("impl_for") {
            Some(value) => match value.as_str() {
                Some(t) => {
                    return t;
                },
                None => {},
            },
            None => {},
        }
    }
    node.name.as_str()
}

fn find_container<'a>(edges: &'a Vec<CodeEdge>, id: &str) -> (r: Option<&'a String>)
    ensures
        match r {
            Some(owner) => container(edges.deep_view(), id@) == Some(owner@),
            None => container(edges.deep_view(), id@) is None,
        },
{
    let ghost all = edges.deep_view();
    let mut i: usize = edges.len();
    assert(all.take(i as int) =~= all);
    while i > 0
        invariant
            i <= edges@.len(),
            all == edges.deep_view(),
            container(all, id@) == container(all.take(i as int), id@),
        decreases i,
    {
        let edge = &edges[i - 1];
        proof {
            assert(all.len() == edges@.len());
            lemma_take_next(all, i - 1);
            assert(all[i - 1] == edge.deep_view());
        }
        if same_text(edge.edge_type.as_str(), "contains") && same_text(edge.to_id.as_str(), id) {
            return Some(&edge.from_id);
        }
        i = i - 1;
    }
    None
}

fn find_last(index: &SortedIndex<String>, id: &String) -> (r: Option<usize>)
    requires
        index.wf(),
    ensures
        r == last_place(index.keys(), id@),
        r matches Some(i) ==> i < index.keys().len() && index.keys()[i as int] == id@,
{
    let found = index.places(id);
    proof {
        lemma_places_of(index.keys(), id@);
    }
    if found.len() > 0 {
        Some(found[found.len() - 1])
    } else {
        None
    }
}

fn copy_ids(nodes: &Vec<CodeNode>) -> (r: Vec<String>)
    ensures
        r.deep_view() == ids(nodes.deep_view()),
{
    let ghost want = ids(nodes.deep_view());
    let mut out: Vec<String> = Vec::new();
    let mut i: usize = 0;
    assert(out.deep_view() =~= want.take(0));
    while i < nodes.len()
        invariant
            i <= nodes@.len(),
            want == ids(nodes.deep_view()),
            out.deep_view() == want.take(i as int),
        decreases nodes.len() - i,
    {
        proof {
            assert(want.len() == nodes@.len());
            lemma_take_next(want, i as int);
            assert(nodes.deep_view()[i as int] == nodes@[i as int].deep_view());
        }
        put(&mut out, nodes[i].id.as_str().to_owned());
        i = i + 1;
    }
    assert(want.take(i as int) =~= want);
    out
}

fn copy_segments(nodes: &Vec<CodeNode>) -> (r: Vec<String>)
    ensures
        r.deep_view() == nodes.deep_view().map_values(|n: CodeView| segment(n)),
{
    let ghost want = nodes.deep_view().map_values(|n: CodeView| segment(n));
    let mut out: Vec<String> = Vec::new();
    let mut i: usize = 0;
    assert(out.deep_view() =~= want.take(0));
    while i < nodes.len()
        invariant
            i <= nodes@.len(),
            want == nodes.deep_view().map_values(|n: CodeView| segment(n)),
            out.deep_view() == want.take(i as int),
        decreases nodes.len() - i,
    {
        proof {
            assert(want.len() == nodes@.len());
            lemma_take_next(want, i as int);
            assert(nodes.deep_view()[i as int] == nodes@[i as int].deep_view());
        }
        put(&mut out, containment_segment(&nodes[i]).to_owned());
        i = i + 1;
    }
    assert(want.take(i as int) =~= want);
    out
}

/// A node's id has a last place.
proof fn lemma_stand_in(nodes: Seq<CodeView>, k: int)
    requires
        nodes.len() <= usize::MAX,
        0 <= k < nodes.len(),
    ensures
        last_place(ids(nodes), nodes[k].id) is Some,
        stand_ins(nodes)[k] < nodes.len(),
{
    lemma_places_of(ids(nodes), nodes[k].id);
    assert(ids(nodes)[k] == nodes[k].id);
    assert(places_of(ids(nodes), nodes[k].id).contains(k as usize));
}

/// The containers of a file's symbols are symbols of the file.
proof fn lemma_chains(nodes: Seq<CodeView>, edges: Seq<CodeEdgeView>, module: Seq<char>)
    requires
        nodes.len() <= usize::MAX,
    ensures
        chains(nodes, edges, module).wf(),
{
    let g = chains(nodes, edges, module);
    assert forall|i: int| 0 <= i < g.containers.len() implies (#[trigger] g.containers[i] matches Some(j) ==> j
        < g.containers.len()) by {
        match container(edges, nodes[i].id) {
            Some(owner) => {
                lemma_places_of(ids(nodes), owner);
            },
            None => {},
        }
    }
}

fn find_stand_ins(nodes: &Vec<CodeNode>, index: &SortedIndex<String>) -> (r: Vec<usize>)
    requires
        index.wf(),
        index.keys() == ids(nodes.deep_view()),
    ensures
        r@ == stand_ins(nodes.deep_view()),
{
    let ghost want = stand_ins(nodes.deep_view());
    let mut out: Vec<usize> = Vec::new();
    let mut i: usize = 0;
    while i < nodes.len()
        invariant
            i <= nodes@.len(),
            index.wf(),
            index.keys() == ids(nodes.deep_view()),
            want == stand_ins(nodes.deep_view()),
            out@ == want.take(i as int),
        decreases nodes.len() - i,
    {
        proof {
            assert(nodes.deep_view().len() == nodes@.len());
            lemma_take_next(want, i as int);
            lemma_stand_in(nodes.deep_view(), i as int);
            assert(nodes.deep_view()[i as int] == nodes@[i as int].deep_view());
        }
        let place: usize = match find_last(index, &nodes[i].id) {
            Some(p) => p,
            None => i,
        };
        out.push(place);
        i = i + 1;
    }
    assert(want.take(i as int) =~= want);
    out
}

fn find_containers(nodes: &Vec<CodeNode>, edges: &Vec<CodeEdge>, index: &SortedIndex<String>) -> (r: Vec<
    Option<usize>,
>)
    requires
        index.wf(),
        index.keys() == ids(nodes.deep_view()),
    ensures
        r@ == chains(nodes.deep_view(), edges.deep_view(), Seq::empty()).containers,
{
    let ghost want = chains(nodes.deep_view(), edges.deep_view(), Seq::empty()).containers;
    let mut out: Vec<Option<usize>> = Vec::new();
    let mut i: usize = 0;
    while i < nodes.len()
        invariant
            i <= nodes@.len(),
            index.wf(),
            index.keys() == ids(nodes.deep_view()),
            want == chains(nodes.deep_view(), edges.deep_view(), Seq::empty()).containers,
            out@ == want.take(i as int),
        decreases nodes.len() - i,
    {
        proof {
            assert(nodes.deep_view().len() == nodes@.len());
            lemma_take_next(want, i as int);
            assert(nodes.deep_view()[i as int] == nodes@[i as int].deep_view());
        }
        let place: Option<usize> = match find_container(edges, nodes[i].id.as_str()) {
            Some(owner) => find_last(index, owner),
            None => None,
        };
        out.push(place);
        i = i + 1;
    }
    assert(want.take(i as int) =~= want);
    out
}

/// Names every symbol that some places stand for.
fn name_places(
    segments: &Vec<String>,
    containers: &Vec<Option<usize>>,
    module: &str,
    places: &Vec<usize>,
    Ghost(g): Ghost<Chains>,
) -> (known: Vec<Option<String>>)
    requires
        g == (Chains { segments: segments.deep_view(), containers: containers@, module: module@ }),
        g.wf(),
        forall|k: int| 0 <= k < places@.len() ==> #[trigger] places@[k] < containers@.len(),
    ensures
        known@.len() == containers@.len(),
        known.deep_view() == g.name_all(places@),
        forall|k: int|
            0 <= k < places@.len() ==> g.name_all(places@)[#[trigger] places@[k] as int] is Some,
{
    let n = segments.len();
    let mut known: Vec<Option<String>> = Vec::new();
    let mut i: usize = 0;
    while i < n
        invariant
            i <= n,
            known@.len() == i,
            forall|k: int| 0 <= k < i ==> #[trigger] known@[k] is None,
        decreases n - i,
    {
        known.push(None);
        i = i + 1;
    }
    assert(known.deep_view() =~= g.name_all(places@.take(0)));
    let mut k: usize = 0;
    while k < places.len()
        invariant
            k <= places@.len(),
            g == (Chains { segments: segments.deep_view(), containers: containers@, module: module@ }),
            g.wf(),
            known@.len() == containers@.len(),
            forall|j: int| 0 <= j < places@.len() ==> #[trigger] places@[j] < containers@.len(),
            known.deep_view() == g.name_all(places@.take(k as int)),
            forall|j: int|
                0 <= j < k ==> g.name_all(places@.take(k as int))[#[trigger] places@[j] as int] is Some,
        decreases places.len() - k,
    {
        let ghost told = known.deep_view();
        let mut waiting: Vec<usize> = Vec::new();
        assert(ints(waiting@) =~= Seq::empty());
        resolve(places[k], segments, containers, module, &mut known, &mut waiting, Ghost(g));
        proof {
            lemma_take_next(places@, k as int);
            lemma_names_stay(g, places@[k as int] as int, told, Seq::empty());
        }
        k = k + 1;
    }
    assert(places@.take(k as int) =~= places@);
    known
}

/// A name that is known stays known.
proof fn lemma_names_stay(g: Chains, i: int, known: Seq<Option<Seq<char>>>, waiting: Seq<int>)
    requires
        g.wf(),
        0 <= i < g.containers.len(),
        known.len() == g.containers.len(),
    ensures
        g.name_one(i, known, waiting).len() == known.len(),
        forall|k: int| 0 <= k < known.len() && known[k] is Some ==> #[trigger] g.name_one(i, known, waiting)[k] is Some,
    decreases g.containers.len() - waiting.len(),
{
    if known[i] is None && !waiting.contains(i) && waiting.len() < g.containers.len() {
        match g.containers[i] {
            Some(j) => {
                lemma_names_stay(g, j as int, known, waiting.push(i));
            },
            None => {},
        }
    }
}

/// Gives every symbol of a file its qualified name.
pub fn assign(nodes: &mut Vec<CodeNode>, edges: &Vec<CodeEdge>, module: &str)
    ensures
        final(nodes).deep_view() == qualified(old(nodes).deep_view(), edges.deep_view(), module@),
{
    let ghost given = nodes.deep_view();
    let ghost g = chains(given, edges.deep_view(), module@);
    let index = SortedIndex::build(copy_ids(nodes));
    let segments = copy_segments(nodes);
    let places = find_stand_ins(nodes, &index);
    let containers = find_containers(nodes, edges, &index);
    proof {
        assert(given.len() == nodes@.len());
        lemma_chains(given, edges.deep_view(), module@);
        assert forall|k: int| 0 <= k < places@.len() implies #[trigger] places@[k] < containers@.len() by {
            lemma_stand_in(given, k);
        }
    }
    let known = name_places(&segments, &containers, module, &places, Ghost(g));
    let ghost want = qualified(given, edges.deep_view(), module@);
    let n = nodes.len();
    let mut k: usize = 0;
    while k < n
        invariant
            k <= n == nodes@.len() == given.len() == places@.len() == want.len(),
            known@.len() == given.len(),
            places@ == stand_ins(given),
            known.deep_view() == g.name_all(places@),
            want == qualified(given, edges.deep_view(), module@),
            g == chains(given, edges.deep_view(), module@),
            forall|j: int| 0 <= j < places@.len() ==> #[trigger] places@[j] < known@.len(),
            forall|j: int|
                0 <= j < places@.len() ==> g.name_all(places@)[#[trigger] places@[j] as int] is Some,
            forall|j: int| 0 <= j < k ==> (#[trigger] nodes@[j]).deep_view() == want[j],
            forall|j: int| k <= j < n ==> (#[trigger] nodes@[j]).deep_view() == given[j],
        decreases n - k,
    {
        assert(known.deep_view()[places@[k as int] as int] == known@[places@[k as int] as int].deep_view());
        match &known[places[k]] {
            Some(name) => {
                let name = name.as_str().to_owned();
                let node = &mut nodes[k];
                node.qualified_name = name;
            },
            None => {},
        }
        k = k + 1;
    }
    assert(nodes.deep_view() =~= want);
}

// ---- what qualified names say -----------------------------------------------------------------------

impl Chains {
    /// Does the chain of containers from `i` end within `n` symbols?
    pub open spec fn ends(self, i: int, n: nat) -> bool
        decreases n,
    {
        n > 0 && match self.containers[i] {
            Some(j) => self.ends(j as int, (n - 1) as nat),
            None => true,
        }
    }

    /// The name that a chain of at most `n` symbols gives.
    spec fn chain_name(self, i: int, n: nat) -> Seq<char>
        decreases n,
    {
        match self.containers[i] {
            Some(j) => if n == 0 {
                self.top_name(i)
            } else {
                below(self.chain_name(j as int, (n - 1) as nat), self.segments[i])
            },
            None => self.top_name(i),
        }
    }

    /// The known names of symbols whose chains end are those of their chains.
    spec fn agrees(self, known: Seq<Option<Seq<char>>>) -> bool {
        forall|i: int, n: nat|
            0 <= i < known.len() && known[i] is Some && #[trigger] self.ends(i, n) ==> known[i]
                == Some(self.chain_name(i, n))
    }

    /// The naming of some symbols waits for that of `i`, which is further up
    /// their chains.
    spec fn leads_up(self, waiting: Seq<int>, i: int) -> bool {
        forall|k: int, n: nat|
            0 <= k < waiting.len() && #[trigger] self.ends(waiting[k], n) ==> self.ends(i, (n - 1) as nat)
    }
}

proof fn lemma_ends_later(g: Chains, i: int, n: nat)
    requires
        g.ends(i, n),
    ensures
        g.ends(i, n + 1),
    decreases n,
{
    match g.containers[i] {
        Some(j) => {
            lemma_ends_later(g, j as int, (n - 1) as nat);
        },
        None => {},
    }
}

/// A symbol that is further up its own chain has a chain without an end.
proof fn lemma_no_end(g: Chains, waiting: Seq<int>, i: int, n: nat)
    requires
        g.leads_up(waiting, i),
        waiting.contains(i),
    ensures
        !g.ends(i, n),
    decreases n,
{
    if g.ends(i, n) {
        let k = choose|k: int| 0 <= k < waiting.len() && waiting[k] == i;
        assert(g.ends(waiting[k], n));
        lemma_no_end(g, waiting, i, (n - 1) as nat);
    }
}

proof fn lemma_name_one(g: Chains, i: int, known: Seq<Option<Seq<char>>>, waiting: Seq<int>)
    requires
        g.wf(),
        0 <= i < g.containers.len(),
        known.len() == g.containers.len(),
        g.agrees(known),
        g.leads_up(waiting, i),
        waiting.no_duplicates(),
        forall|k: int| 0 <= k < waiting.len() ==> 0 <= #[trigger] waiting[k] < g.containers.len(),
    ensures
        g.agrees(g.name_one(i, known, waiting)),
        g.name_one(i, known, waiting).len() == known.len(),
        g.name_one(i, known, waiting)[i] is Some,
    decreases g.containers.len() - waiting.len(),
{
    let after = g.name_one(i, known, waiting);
    if known[i] is None {
        if waiting.contains(i) {
            assert forall|j: int, n: nat|
                0 <= j < after.len() && after[j] is Some && #[trigger] g.ends(j, n) implies after[j] == Some(
                g.chain_name(j, n),
            ) by {
                lemma_no_end(g, waiting, i, n);
            }
        } else {
            let more = waiting.push(i);
            assert forall|k: int| 0 <= k < more.len() implies 0 <= #[trigger] more[k] < g.containers.len() by {
                if k < waiting.len() {
                    assert(more[k] == waiting[k]);
                }
            }
            lemma_waiting_fit(more, g.containers.len() as int);
            match g.containers[i] {
                Some(up) => {
                    let j = up as int;
                    assert forall|k: int, n: nat| 0 <= k < more.len() && #[trigger] g.ends(more[k], n) implies g.ends(
                        j,
                        (n - 1) as nat,
                    ) by {
                        if k < waiting.len() {
                            assert(g.ends(waiting[k], n));
                            assert(g.ends(i, (n - 1) as nat));
                            lemma_ends_later(g, j, (n - 2) as nat);
                        }
                    }
                    lemma_name_one(g, j, known, more);
                    let above = g.name_one(j, known, more);
                    assert forall|m: int, n: nat|
                        0 <= m < after.len() && after[m] is Some && #[trigger] g.ends(m, n) implies after[m] == Some(
                        g.chain_name(m, n),
                    ) by {
                        if m == i {
                            assert(g.ends(j, (n - 1) as nat));
                            assert(above[j] == Some(g.chain_name(j, (n - 1) as nat)));
                        } else {
                            assert(after[m] == above[m]);
                        }
                    }
                },
                None => {},
            }
        }
    }
}

proof fn lemma_name_all(g: Chains, places: Seq<usize>)
    requires
        g.wf(),
        forall|k: int| 0 <= k < places.len() ==> #[trigger] places[k] < g.containers.len(),
    ensures
        g.agrees(g.name_all(places)),
        g.name_all(places).len() == g.containers.len(),
        forall|k: int| 0 <= k < places.len() ==> g.name_all(places)[#[trigger] places[k] as int] is Some,
    decreases places.len(),
{
    if places.len() > 0 {
        let front = places.drop_last();
        assert forall|k: int| 0 <= k < front.len() implies #[trigger] front[k] < g.containers.len() by {
            assert(places[k] == front[k]);
        }
        lemma_name_all(g, front);
        let known = g.name_all(front);
        let i = places.last() as int;
        lemma_name_one(g, i, known, Seq::empty());
        lemma_names_stay(g, i, known, Seq::empty());
        assert forall|k: int| 0 <= k < places.len() implies g.name_all(places)[#[trigger] places[k] as int] is Some by {
            if k < front.len() {
                assert(places[k] == front[k]);
            }
        }
    }
}

/// A symbol's qualified name is its container's, `::` and its own segment,
/// wherever its chain of containers comes to an end; without a container in
/// the file the module's path stands in the container's place. The segment is
/// that of the last node with the symbol's id.
pub proof fn a_name_extends_its_containers(
    nodes: Seq<CodeView>,
    edges: Seq<CodeEdgeView>,
    module: Seq<char>,
    k: int,
    n: nat,
)
    requires
        nodes.len() <= usize::MAX,
        0 <= k < nodes.len(),
        chains(nodes, edges, module).ends(stand_ins(nodes)[k] as int, n),
    ensures
        container_place(ids(nodes), edges, nodes[k].id) matches Some(j) ==> qualified(nodes, edges, module)[k].qualified_name
            == below(
            qualified(nodes, edges, module)[j as int].qualified_name,
            segment(nodes[stand_ins(nodes)[k] as int]),
        ),
        container_place(ids(nodes), edges, nodes[k].id) is None ==> qualified(nodes, edges, module)[k].qualified_name
            == below(module, segment(nodes[stand_ins(nodes)[k] as int])),
{
    let g = chains(nodes, edges, module);
    let places = stand_ins(nodes);
    lemma_chains(nodes, edges, module);
    assert forall|m: int| 0 <= m < places.len() implies #[trigger] places[m] < g.containers.len() by {
        lemma_stand_in(nodes, m);
    }
    lemma_name_all(g, places);
    lemma_stand_in(nodes, k);
    lemma_places_of(ids(nodes), nodes[k].id);
    let i = places[k] as int;
    let known = g.name_all(places);
    assert(ids(nodes)[i] == nodes[k].id);
    assert(known[i] == Some(g.chain_name(i, n)));
    match g.containers[i] {
        Some(up) => {
            let j = up as int;
            let owner = container(edges, nodes[k].id)->0;
            lemma_places_of(ids(nodes), owner);
            assert(ids(nodes)[j] == owner);
            assert(places[j] == up);
            assert(g.ends(j, (n - 1) as nat));
        },
        None => {},
    }
}

} // verus!
