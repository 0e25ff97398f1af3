//! Lookup structures over one project's definitions.

use vstd::prelude::*;

use crate::gather::gather;
use crate::index::resolve::names::{family, language_family};
use crate::index::resolve::uses::{parse_rust_use, use_facts, ImportFact};
use crate::index::resolve::{node_views, NodeView, ResolverNode};
use crate::lookup::{lemma_gather_places, lemma_places_of, lemma_take_next, places_of, put, SortedIndex};
use crate::order::{is_stable_order, lemma_stable_order_unique, stable_indices, stable_order};
use crate::text::same_text;

verus! {

/// The ids of the nodes.
pub open spec fn ids(nodes: Seq<NodeView>) -> Seq<Seq<char>> {
    Seq::new(nodes.len(), |i: int| nodes[i].id)
}

/// The places of the nodes, in the order of their ids.
pub open spec fn by_id_order(nodes: Seq<NodeView>) -> Seq<usize> {
    stable_indices::<String>(ids(nodes))
}

/// Is the node a definition of that bare name and type in that language family?
pub open spec fn answers(
    n: NodeView,
    name: Seq<char>,
    node_type: Seq<char>,
    lang: Seq<char>,
) -> bool {
    n.name == name && n.node_type == node_type && family(n.language) == lang
}

/// The places of the definitions of that bare name and type in that language
/// family, in the order of their ids.
pub open spec fn pool(
    nodes: Seq<NodeView>,
    name: Seq<char>,
    node_type: Seq<char>,
    lang: Seq<char>,
) -> Seq<usize> {
    gather(by_id_order(nodes), in_pool(nodes, name, node_type, lang))
}

pub open spec fn in_pool(
    nodes: Seq<NodeView>,
    name: Seq<char>,
    node_type: Seq<char>,
    lang: Seq<char>,
) -> spec_fn(usize) -> Option<usize> {
    |i: usize|
        if answers(nodes[i as int], name, node_type, lang) {
            Some(i)
        } else {
            None
        }
}

/// The place of the node with that id; of several, the last.
pub open spec fn place_of_id(nodes: Seq<NodeView>, id: Seq<char>) -> Option<int> {
    let q = places_of(ids(nodes), id);
    if q.len() == 0 {
        None
    } else {
        Some(q.last() as int)
    }
}

/// Is the node a Rust `use` declaration of that file?
pub open spec fn is_import_of(n: NodeView, file: Seq<char>) -> bool {
    n.node_type == "import"@ && n.language == "rust"@ && n.file_path == file
}

/// Has the file a Rust `use` declaration?
pub open spec fn has_imports(nodes: Seq<NodeView>, file: Seq<char>) -> bool {
    exists|i: int| 0 <= i < nodes.len() && is_import_of(#[trigger] nodes[i], file)
}

/// Does the `use` declaration bring that qualified name into scope?
#[verifier::opaque]
pub open spec fn use_admits(raw: Seq<char>, name: Seq<char>) -> bool {
    exists|k: int| 0 <= k < use_facts(raw).len() && (#[trigger] use_facts(raw)[k]).admits(name)
}

/// Does a Rust `use` declaration of the file bring that qualified name into scope?
pub open spec fn imports_admit(nodes: Seq<NodeView>, file: Seq<char>, name: Seq<char>) -> bool {
    exists|i: int|
        0 <= i < nodes.len() && is_import_of(#[trigger] nodes[i], file) && use_admits(nodes[i].name, name)
}

/// The key of a node's candidate pool.
pub open spec fn pool_key(n: NodeView) -> (Seq<char>, (Seq<char>, Seq<char>)) {
    (n.name, (n.node_type, family(n.language)))
}

/// Lookup structures over one project's definitions. They speak of the nodes
/// that they were built from.
pub struct Indices {
    id_index: SortedIndex<String>,
    /// The places of the nodes, in the order of their ids.
    by_id: Vec<usize>,
    /// The pool keys along `by_id`.
    pool_index: SortedIndex<(String, (String, String))>,
    /// The files of the Rust `use` declarations, and what each brings into scope.
    import_files: SortedIndex<String>,
    import_facts: Vec<Vec<ImportFact>>,
}

/// Keys along `by_id`.
pub open spec fn keys_along(
    nodes: Seq<NodeView>,
    order: Seq<usize>,
) -> Seq<(Seq<char>, (Seq<char>, Seq<char>))> {
    Seq::new(order.len(), |i: int| pool_key(nodes[order[i] as int]))
}

/// The Rust `use` declarations among the nodes.
pub open spec fn import_of(n: NodeView) -> Option<NodeView> {
    if n.node_type == "import"@ && n.language == "rust"@ {
        Some(n)
    } else {
        None
    }
}

pub open spec fn imports(nodes: Seq<NodeView>) -> Seq<NodeView> {
    gather(nodes, |n: NodeView| import_of(n))
}

impl Indices {
    /// The structures were built from these nodes.
    pub closed spec fn describes(&self, nodes: Seq<NodeView>) -> bool {
        &&& self.id_index.wf()
        &&& self.id_index.keys() == ids(nodes)
        &&& self.by_id@ == by_id_order(nodes)
        &&& is_stable_order::<String>(ids(nodes), self.by_id@)
        &&& self.pool_index.wf()
        &&& self.pool_index.keys() == keys_along(nodes, self.by_id@)
        &&& self.import_files.wf()
        &&& self.import_files.keys() == import_files(nodes)
        &&& self.import_facts.len() == imports(nodes).len()
        &&& forall|i: int|
            0 <= i < self.import_facts.len() ==> (#[trigger] self.import_facts[i]).deep_view() == use_facts(
                imports(nodes)[i].name,
            )
    }

    /// The place of the node with that id; of several, the last.
    pub(crate) fn find_id(&self, id: &String, Ghost(nodes): Ghost<Seq<NodeView>>) -> (r: Option<usize>)
        requires
            self.describes(nodes),
        ensures
            match r {
                Some(i) => i < nodes.len() && place_of_id(nodes, id@) == Some(i as int) && nodes[i as int].id == id@,
                None => place_of_id(nodes, id@) is None,
            },
    {
        let q = self.id_index.places(id);
        let n: usize = q.len();
        if n == 0 {
            None
        } else {
            proof {
                lemma_places_of(ids(nodes), id@);
            }
            assert(q@[n - 1] < nodes.len());
            Some(q[n - 1])
        }
    }

    /// The candidate pool of a bare name.
    pub(crate) fn find_pool(&self, name: &str, node_type: &str, lang: &str, Ghost(nodes): Ghost<Seq<NodeView>>) -> (r: Vec<usize>)
        requires
            self.describes(nodes),
        ensures
            r@ == pool(nodes, name@, node_type@, lang@),
            forall|i: int| 0 <= i < r.len() ==> (#[trigger] r[i]) < nodes.len(),
    {
        let key: (String, (String, String)) = (name.to_owned(), (node_type.to_owned(), lang.to_owned()));
        let q = self.pool_index.places(&key);
        let ghost order = self.by_id@;
        let ghost tags = keys_along(nodes, order);
        let ghost x = (name@, (node_type@, lang@));
        assert(key.deep_view() == x);
        proof {
            lemma_places_of(tags, x);
        }
        let mut out: Vec<usize> = Vec::new();
        let mut i: usize = 0;
        while i < q.len()
            invariant
                i <= q.len(),
                order == self.by_id@,
                tags == keys_along(nodes, order),
                is_stable_order::<String>(ids(nodes), order),
                q@ == places_of(tags, x),
                forall|k: int| 0 <= k < q.len() ==> (#[trigger] q@[k]) < tags.len(),
                out@ == Seq::new(i as nat, |j: int| order[q@[j] as int]),
                forall|k: int| 0 <= k < out.len() ==> (#[trigger] out[k]) < nodes.len(),
            decreases q.len() - i,
        {
            assert(q@[i as int] < tags.len());
            let at: usize = self.by_id[q[i]];
            assert(order[q@[i as int] as int] < nodes.len());
            out.push(at);
            i = i + 1;
            assert(out@ =~= Seq::new(i as nat, |j: int| order[q@[j] as int]));
        }
        proof {
            let f = in_pool(nodes, name@, node_type@, lang@);
            assert forall|k: int| 0 <= k < order.len() implies f(#[trigger] order[k]) == (if tags[k] == x {
                Some(order[k])
            } else {
                None
            }) by {}
            lemma_gather_places(order, tags, x, f);
            assert(out@ =~= pool(nodes, name@, node_type@, lang@));
        }
        out
    }

    /// The places, among the `use` declarations, of those of one file.
    pub(crate) fn find_imports(&self, file: &String, Ghost(nodes): Ghost<Seq<NodeView>>) -> (r: Vec<usize>)
        requires
            self.describes(nodes),
        ensures
            (r.len() > 0) == has_imports(nodes, file@),
            self.serves(r@, nodes, file@),
    {
        let r = self.import_files.places(file);
        proof {
            let im = imports(nodes);
            let files = import_files(nodes);
            lemma_places_of(files, file@);
            lemma_imports(nodes);
            if r.len() > 0 {
                let k = r@[0] as int;
                assert(files[r@[0] as int] == file@);
                assert(im.contains(im[k]));
                let j = choose|j: int| 0 <= j < nodes.len() && nodes[j] == im[k];
                assert(is_import_of(nodes[j], file@));
            }
            if has_imports(nodes, file@) {
                let j = choose|j: int| 0 <= j < nodes.len() && is_import_of(#[trigger] nodes[j], file@);
                assert(im.contains(nodes[j]));
                let k = choose|k: int| 0 <= k < im.len() && im[k] == nodes[j];
                assert(files[k] == file@);
                assert(r@.contains(k as usize));
            }
        }
        r
    }

    /// `places` are those of the `use` declarations of the file.
    pub closed spec fn serves(&self, places: Seq<usize>, nodes: Seq<NodeView>, file: Seq<char>) -> bool {
        places == places_of(import_files(nodes), file)
    }

    /// Does a `use` declaration at one of the places bring the name into scope?
    pub(crate) fn imports_match(&self, places: &Vec<usize>, name: &str, Ghost(nodes): Ghost<Seq<NodeView>>, Ghost(file): Ghost<Seq<char>>) -> (r: bool)
        requires
            self.describes(nodes),
            self.serves(places@, nodes, file),
        ensures
            r == imports_admit(nodes, file, name@),
    {
        let ghost im = imports(nodes);
        let ghost files = import_files(nodes);
        proof {
            assert(self.import_facts.len() <= usize::MAX);
            lemma_places_of(files, file);
        }
        let mut i: usize = 0;
        let mut found: bool = false;
        while i < places.len() && !found
            invariant
                i <= places.len(),
                self.import_facts.len() == im.len(),
                files.len() == im.len(),
                forall|k: int| 0 <= k < self.import_facts.len() ==> (#[trigger] self.import_facts[k]).deep_view() == use_facts(im[k].name),
                forall|k: int| 0 <= k < places.len() ==> (#[trigger] places@[k]) < files.len(),
                found ==> i < places.len() && use_admits(im[places@[i as int] as int].name, name@),
                forall|k: int| 0 <= k < i ==> !use_admits(im[#[trigger] places@[k] as int].name, name@),
            decreases places.len() - i + (if found { 0int } else { 1int }),
        {
            let at: usize = places[i];
            assert(places@[i as int] < files.len());
            let admits: bool = any_admits(&self.import_facts[at], name);
            assert(admits == use_admits(im[at as int].name, name@)) by {
                reveal(use_admits);
            }
            if admits {
                found = true;
            } else {
                i = i + 1;
            }
        }
        proof {
            lemma_import_places(nodes, file, name@, places@);
            if found {
                assert(use_admits(im[places@[i as int] as int].name, name@));
            }
        }
        found
    }
}

/// The files of the `use` declarations.
pub open spec fn import_files(nodes: Seq<NodeView>) -> Seq<Seq<char>> {
    Seq::new(imports(nodes).len(), |i: int| imports(nodes)[i].file_path)
}

/// The imports of a file admit a name exactly where one of its declarations does.
proof fn lemma_import_places(nodes: Seq<NodeView>, file: Seq<char>, name: Seq<char>, places: Seq<usize>)
    requires
        places == places_of(import_files(nodes), file),
        imports(nodes).len() <= usize::MAX,
    ensures
        imports_admit(nodes, file, name) <==> exists|k: int|
            0 <= k < places.len() && use_admits(imports(nodes)[#[trigger] places[k] as int].name, name),
{
    let im = imports(nodes);
    let files = import_files(nodes);
    lemma_imports(nodes);
    lemma_places_of(files, file);
    if exists|k: int| 0 <= k < places.len() && use_admits(im[#[trigger] places[k] as int].name, name) {
        let k = choose|k: int| 0 <= k < places.len() && use_admits(im[#[trigger] places[k] as int].name, name);
        let at = places[k] as int;
        assert(files[places[k] as int] == file);
        assert(im.contains(im[at]));
        let j = choose|j: int| 0 <= j < nodes.len() && nodes[j] == im[at];
        assert(is_import_of(nodes[j], file));
    }
    if imports_admit(nodes, file, name) {
        let j = choose|j: int|
            0 <= j < nodes.len() && is_import_of(#[trigger] nodes[j], file) && use_admits(nodes[j].name, name);
        assert(im.contains(nodes[j]));
        let k = choose|k: int| 0 <= k < im.len() && im[k] == nodes[j];
        assert(files[k] == file);
        assert(places.contains(k as usize));
        let q = choose|q: int| 0 <= q < places.len() && places[q] == k as usize;
        assert(use_admits(im[places[q] as int].name, name));
    }
}

/// Does one of the facts bring the name into scope?
fn any_admits(facts: &Vec<ImportFact>, name: &str) -> (r: bool)
    ensures
        r == exists|f: int| 0 <= f < facts.len() && (#[trigger] facts.deep_view()[f]).admits(name@),
{
    let mut f: usize = 0;
    while f < facts.len()
        invariant
            f <= facts.len(),
            forall|g: int| 0 <= g < f ==> !(#[trigger] facts.deep_view()[g]).admits(name@),
        decreases facts.len() - f,
    {
        assert(facts.deep_view()[f as int] == facts[f as int].deep_view());
        if facts[f].matches(name) {
            return true;
        }
        f = f + 1;
    }
    false
}

/// The `use` declarations are nodes, and all of them are listed.
proof fn lemma_imports(nodes: Seq<NodeView>)
    ensures
        forall|n: NodeView| #[trigger] imports(nodes).contains(n) ==> nodes.contains(n) && import_of(n) == Some(n),
        forall|i: int| 0 <= i < nodes.len() && import_of(#[trigger] nodes[i]) is Some ==> imports(nodes).contains(nodes[i]),
    decreases nodes.len(),
{
    let im = imports(nodes);
    if nodes.len() > 0 {
        let rest = nodes.drop_last();
        let r = imports(rest);
        lemma_imports(rest);
        assert forall|n: NodeView| #[trigger] im.contains(n) implies nodes.contains(n) && import_of(n) == Some(n) by {
            let k = choose|k: int| 0 <= k < im.len() && im[k] == n;
            if k < r.len() {
                assert(r[k] == n);
                assert(r.contains(n));
                let j = choose|j: int| 0 <= j < rest.len() && rest[j] == n;
                assert(nodes[j] == n);
            } else {
                assert(nodes[nodes.len() - 1] == n);
            }
        }
        assert forall|i: int| 0 <= i < nodes.len() && import_of(#[trigger] nodes[i]) is Some implies im.contains(
            nodes[i],
        ) by {
            if i < rest.len() {
                assert(rest[i] == nodes[i]);
                assert(r.contains(nodes[i]));
                let k = choose|k: int| 0 <= k < r.len() && r[k] == nodes[i];
                assert(im[k] == nodes[i]);
            } else {
                assert(im[im.len() - 1] == nodes[i]);
            }
        }
    }
}

/// The lookup structures of a project's definitions.
pub fn build_indices(nodes: &[ResolverNode]) -> (r: Indices)
    ensures
        r.describes(node_views(nodes@)),
{
    let ghost views = node_views(nodes@);
    let mut id_keys: Vec<String> = Vec::new();
    let mut files: Vec<String> = Vec::new();
    let mut facts: Vec<Vec<ImportFact>> = Vec::new();
    let mut i: usize = 0;
    while i < nodes.len()
        invariant
            i <= nodes.len(),
            views == node_views(nodes@),
            id_keys.deep_view() == ids(views).take(i as int),
            files.deep_view() == Seq::new(imports(views.take(i as int)).len(), |k: int| imports(views.take(i as int))[k].file_path),
            facts.len() == imports(views.take(i as int)).len(),
            forall|k: int| 0 <= k < facts.len() ==> (#[trigger] facts[k]).deep_view() == use_facts(imports(views.take(i as int))[k].name),
        decreases nodes.len() - i,
    {
        let n = &nodes[i];
        assert(views[i as int] == n.deep_view());
        let ghost before = imports(views.take(i as int));
        let ghost after = imports(views.take(i + 1));
        proof {
            lemma_take_next(views, i as int);
            lemma_take_next(ids(views), i as int);
        }
        put(&mut id_keys, n.id.clone());
        if same_text(n.node_type.as_str(), "import") && same_text(n.language.as_str(), "rust") {
            assert(after == before.push(n.deep_view()));
            put(&mut files, n.file_path.clone());
            facts.push(parse_rust_use(n.name.as_str()));
        } else {
            assert(after == before);
        }
        assert(files.deep_view() =~= Seq::new(after.len(), |k: int| after[k].file_path));
        i = i + 1;
    }
    assert(views.take(nodes.len() as int) =~= views);
    assert(files.deep_view() =~= import_files(views));
    assert(ids(views).take(nodes.len() as int) =~= ids(views));
    let by_id = stable_order(&id_keys);
    proof {
        lemma_stable_order_unique::<String>(ids(views), by_id@, by_id_order(views));
    }
    let mut pool_keys: Vec<(String, (String, String))> = Vec::new();
    let mut i: usize = 0;
    while i < by_id.len()
        invariant
            i <= by_id.len(),
            views == node_views(nodes@),
            is_stable_order::<String>(ids(views), by_id@),
            pool_keys.deep_view() == keys_along(views, by_id@).take(i as int),
        decreases by_id.len() - i,
    {
        assert(by_id@[i as int] < nodes.len());
        let n = &nodes[by_id[i]];
        assert(views[by_id@[i as int] as int] == n.deep_view());
        proof {
            lemma_take_next(keys_along(views, by_id@), i as int);
        }
        put(
            &mut pool_keys,
            (n.name.clone(), (n.node_type.clone(), language_family(n.language.as_str()).to_owned())),
        );
        i = i + 1;
    }
    assert(keys_along(views, by_id@).take(by_id.len() as int) =~= keys_along(views, by_id@));
    Indices {
        id_index: SortedIndex::build(id_keys),
        by_id,
        pool_index: SortedIndex::build(pool_keys),
        import_files: SortedIndex::build(files),
        import_facts: facts,
    }
}

} // verus!
