//! What modules and the symbols in them are called.

use vstd::prelude::*;

use crate::gather::gather;
use crate::index::extractors::typescript_found::lemma_last;
use crate::index::parser::{meta_value, CodeEdgeView, CodeView, Meta, MetaView};
use crate::index::qualified_name::{
    a_name_extends_its_containers, chains, container, container_place, ids, last_bare, last_place,
    module_parts, path_parts, qualified, segment, slashed, stand_ins,
};
use crate::lines::lemma_split_joined;
use crate::lookup::{lemma_places_of, places_of};
use crate::text::{joined, stem};

verus! {

// ---- modules --------------------------------------------------------------------------------

/// A part of a path: some text without a slash in it.
pub open spec fn is_part(p: Seq<char>) -> bool {
    p.len() > 0 && forall|i: int| 0 <= i < p.len() ==> #[trigger] p[i] != '/' && p[i] != '\\'
}

/// The name of a file with an extension.
pub open spec fn file_name(name: Seq<char>, ext: Seq<char>) -> Seq<char> {
    name + seq!['.'] + ext
}

/// An extension: a text without a dot in it.
pub open spec fn is_extension(ext: Seq<char>) -> bool {
    forall|i: int| 0 <= i < ext.len() ==> #[trigger] ext[i] != '.' && ext[i] != '/' && ext[i] != '\\'
}

/// The path of a file in some directories.
pub open spec fn path_of(dirs: Seq<Seq<char>>, name: Seq<char>, ext: Seq<char>) -> Seq<char> {
    joined(dirs.push(file_name(name, ext)), seq!['/'])
}

/// Whichever slash stands between the parts of a path does not matter.
pub proof fn backslashes_read_as_slashes(a: Seq<char>, b: Seq<char>, language: Seq<char>)
    requires
        a.len() == b.len(),
        forall|i: int| 0 <= i < a.len() ==> #[trigger] a[i] == b[i] || (is_slash(a[i]) && is_slash(b[i])),
    ensures
        module_parts(a, language) == module_parts(b, language),
{
    assert(slashed(a) =~= slashed(b)) by {
        assert forall|i: int| 0 <= i < a.len() implies slashed(a)[i] == slashed(b)[i] by {
            assert(a[i] == b[i] || (is_slash(a[i]) && is_slash(b[i])));
        }
    }
}

pub open spec fn is_slash(c: char) -> bool {
    c == '/' || c == '\\'
}

proof fn lemma_no_backslash(parts: Seq<Seq<char>>)
    requires
        forall|i: int| 0 <= i < parts.len() ==> is_part(#[trigger] parts[i]),
    ensures
        slashed(joined(parts, seq!['/'])) == joined(parts, seq!['/']),
    decreases parts.len(),
{
    let s = joined(parts, seq!['/']);
    if parts.len() == 0 {
        assert(slashed(s) =~= s);
    } else if parts.len() == 1 {
        assert(is_part(parts[0]));
        assert(slashed(s) =~= s);
    } else {
        let front = parts.drop_last();
        assert forall|i: int| 0 <= i < front.len() implies is_part(#[trigger] front[i]) by {
            assert(front[i] == parts[i]);
        }
        lemma_no_backslash(front);
        let a = joined(front, seq!['/']);
        let last = parts[parts.len() - 1];
        assert(is_part(last));
        assert forall|i: int| 0 <= i < s.len() implies slashed(s)[i] == s[i] by {
            if i < a.len() {
                assert(s[i] == a[i]);
                assert(slashed(a)[i] == a[i]);
            } else if i > a.len() {
                assert(s[i] == last[i - a.len() - 1]);
            }
        }
        assert(slashed(s) =~= s);
    }
}

proof fn lemma_parts(parts: Seq<Seq<char>>)
    requires
        parts.len() > 0,
        forall|i: int| 0 <= i < parts.len() ==> is_part(#[trigger] parts[i]),
    ensures
        path_parts(joined(parts, seq!['/'])) == parts,
{
    lemma_no_backslash(parts);
    assert forall|i: int| 0 <= i < parts.len() implies !(#[trigger] parts[i]).contains('/') by {
        assert(is_part(parts[i]));
    }
    lemma_split_joined(parts, '/');
    let f = |p: Seq<char>|
        if p.len() > 0 {
            Some(p)
        } else {
            None
        };
    assert forall|i: int| 0 <= i < parts.len() implies f(#[trigger] parts[i]) == Some(parts[i]) by {
        assert(is_part(parts[i]));
    }
    lemma_kept(parts, f);
}

/// What is kept as it is stays.
proof fn lemma_kept(parts: Seq<Seq<char>>, f: spec_fn(Seq<char>) -> Option<Seq<char>>)
    requires
        forall|i: int| 0 <= i < parts.len() ==> f(#[trigger] parts[i]) == Some(parts[i]),
    ensures
        gather(parts, f) == parts,
    decreases parts.len(),
{
    if parts.len() > 0 {
        let rest = parts.drop_last();
        assert forall|i: int| 0 <= i < rest.len() implies f(#[trigger] rest[i]) == Some(rest[i]) by {
            assert(rest[i] == parts[i]);
        }
        lemma_kept(rest, f);
        assert(f(parts[parts.len() - 1]) == Some(parts.last()));
        assert(rest.push(parts.last()) =~= parts);
    } else {
        assert(gather(parts, f) =~= parts);
    }
}

proof fn lemma_path(dirs: Seq<Seq<char>>, name: Seq<char>, ext: Seq<char>)
    requires
        forall|i: int| 0 <= i < dirs.len() ==> is_part(#[trigger] dirs[i]),
        is_part(name),
        is_extension(ext),
    ensures
        path_parts(path_of(dirs, name, ext)) == dirs.push(file_name(name, ext)),
        stem(file_name(name, ext)) == name,
        file_name(name, ext).contains('.'),
{
    let file = file_name(name, ext);
    assert(file[name.len() as int] == '.');
    assert forall|i: int| 0 <= i < file.len() implies #[trigger] file[i] != '/' && file[i] != '\\' by {
        if i < name.len() {
            assert(file[i] == name[i]);
        } else if i > name.len() {
            assert(file[i] == ext[i - name.len() - 1]);
        }
    }
    let parts = dirs.push(file);
    assert forall|i: int| 0 <= i < parts.len() implies is_part(#[trigger] parts[i]) by {
        if i < dirs.len() {
            assert(parts[i] == dirs[i]);
        }
    }
    lemma_parts(parts);
    lemma_last(name, '.', ext);
    assert(file.take(name.len() as int) =~= name);
}

/// A Rust file's module is its directories and its own name, without a leading
/// `src`; `mod`, `lib` and `main` stand for their directory.
pub proof fn a_rust_module_is_its_file(dirs: Seq<Seq<char>>, name: Seq<char>, ext: Seq<char>)
    requires
        forall|i: int| 0 <= i < dirs.len() ==> is_part(#[trigger] dirs[i]),
        is_part(name),
        is_extension(ext),
    ensures
        ({
            let inner = if dirs.len() > 0 && dirs[0] == "src"@ {
                dirs.skip(1)
            } else {
                dirs
            };
            module_parts(path_of(dirs, name, ext), "rust"@) == if name == "mod"@ || name == "lib"@ || name == "main"@ {
                inner
            } else {
                inner.push(name)
            }
        }),
{
    let file = file_name(name, ext);
    lemma_path(dirs, name, ext);
    let all = dirs.push(file);
    reveal_strlit("src");
    assert("src"@.len() == 3 && "src"@[0] == 's' && "src"@[1] == 'r' && "src"@[2] == 'c');
    let inner = if dirs.len() > 0 && dirs[0] == "src"@ {
        dirs.skip(1)
    } else {
        dirs
    };
    let rooted = if all[0] == "src"@ {
        all.skip(1)
    } else {
        all
    };
    if dirs.len() == 0 {
        assert(all[0] == file);
        assert(file != "src"@) by {
            let k = choose|k: int| 0 <= k < file.len() && file[k] == '.';
            assert(file[k] == '.');
        }
    } else {
        assert(all[0] == dirs[0]);
    }
    assert(rooted =~= inner.push(file));
    assert(rooted.drop_last() =~= inner);
    assert(last_bare(rooted) =~= inner.push(name));
    assert(inner.push(name).drop_last() =~= inner);
}

/// A Go or Java file's module is its directories.
pub proof fn a_package_is_its_directories(dirs: Seq<Seq<char>>, name: Seq<char>, ext: Seq<char>)
    requires
        forall|i: int| 0 <= i < dirs.len() ==> is_part(#[trigger] dirs[i]),
        is_part(name),
        is_extension(ext),
    ensures
        module_parts(path_of(dirs, name, ext), "go"@) == dirs,
        module_parts(path_of(dirs, name, ext), "java"@) == dirs,
{
    lemma_languages();
    lemma_path(dirs, name, ext);
    assert(dirs.push(file_name(name, ext)).drop_last() =~= dirs);
}

proof fn lemma_languages()
    ensures
        "go"@ != "rust"@,
        "java"@ != "rust"@,
        "python"@ != "rust"@,
        "python"@ != "go"@,
        "python"@ != "java"@,
{
    reveal_strlit("go");
    reveal_strlit("java");
    reveal_strlit("rust");
    reveal_strlit("python");
    assert("go"@[0] == 'g' && "java"@[0] == 'j' && "rust"@[0] == 'r' && "python"@[0] == 'p');
}

/// A Python file's module is its directories and its own name; `__init__` stands
/// for its directory.
pub proof fn a_python_module_is_its_file(dirs: Seq<Seq<char>>, name: Seq<char>, ext: Seq<char>)
    requires
        forall|i: int| 0 <= i < dirs.len() ==> is_part(#[trigger] dirs[i]),
        is_part(name),
        is_extension(ext),
    ensures
        module_parts(path_of(dirs, name, ext), "python"@) == if name == "__init__"@ {
            dirs
        } else {
            dirs.push(name)
        },
{
    lemma_languages();
    lemma_path(dirs, name, ext);
    let all = dirs.push(file_name(name, ext));
    assert(all.drop_last() =~= dirs);
    assert(last_bare(all) =~= dirs.push(name));
    assert(dirs.push(name).drop_last() =~= dirs);
}

/// In every other language a file's module is its directories and its own name.
pub proof fn a_module_is_its_file(dirs: Seq<Seq<char>>, name: Seq<char>, ext: Seq<char>, language: Seq<char>)
    requires
        forall|i: int| 0 <= i < dirs.len() ==> is_part(#[trigger] dirs[i]),
        is_part(name),
        is_extension(ext),
        language != "rust"@ && language != "go"@ && language != "java"@ && language != "python"@,
    ensures
        module_parts(path_of(dirs, name, ext), language) == dirs.push(name),
{
    lemma_path(dirs, name, ext);
    let all = dirs.push(file_name(name, ext));
    assert(all.drop_last() =~= dirs);
    assert(last_bare(all) =~= dirs.push(name));
}

// ---- symbols --------------------------------------------------------------------------------

/// Edge `k` is the last that says of the id what holds it.
pub open spec fn is_last_hold(edges: Seq<CodeEdgeView>, id: Seq<char>, k: int) -> bool {
    &&& 0 <= k < edges.len()
    &&& edges[k].edge_type == "contains"@
    &&& edges[k].to_id == id
    &&& forall|j: int| k < j < edges.len() && (#[trigger] edges[j]).to_id == id ==> edges[j].edge_type != "contains"@
}

/// Nothing holds the id.
pub open spec fn is_free(edges: Seq<CodeEdgeView>, id: Seq<char>) -> bool {
    forall|j: int| 0 <= j < edges.len() && (#[trigger] edges[j]).to_id == id ==> edges[j].edge_type != "contains"@
}

/// What holds a symbol is the source of the last `contains` edge to it.
pub proof fn a_container_is_the_last_holder(edges: Seq<CodeEdgeView>, id: Seq<char>, k: int)
    ensures
        is_last_hold(edges, id, k) ==> container(edges, id) == Some(edges[k].from_id),
        is_free(edges, id) ==> container(edges, id) is None,
    decreases edges.len(),
{
    if edges.len() > 0 {
        let rest = edges.drop_last();
        let last = edges.len() - 1;
        a_container_is_the_last_holder(rest, id, k);
        if is_last_hold(edges, id, k) && k < last {
            assert(edges[last].to_id == id ==> edges[last].edge_type != "contains"@);
            assert forall|j: int| k < j < rest.len() && (#[trigger] rest[j]).to_id == id implies rest[j].edge_type
                != "contains"@ by {
                assert(rest[j] == edges[j]);
            }
            assert(rest[k] == edges[k]);
        }
        if is_free(edges, id) {
            assert(edges[last].to_id == id ==> edges[last].edge_type != "contains"@);
            assert forall|j: int| 0 <= j < rest.len() && (#[trigger] rest[j]).to_id == id implies rest[j].edge_type
                != "contains"@ by {
                assert(rest[j] == edges[j]);
            }
        }
    }
}

/// The value is the first that the metadata has for the key.
pub open spec fn is_noted(meta: Meta, key: Seq<char>, value: MetaView) -> bool {
    exists|i: int| #[trigger] is_first_note(meta, key, i) && meta[i].1 == value
}

pub open spec fn is_first_note(meta: Meta, key: Seq<char>, i: int) -> bool {
    0 <= i < meta.len() && meta[i].0 == key && forall|j: int| 0 <= j < i ==> (#[trigger] meta[j]).0 != key
}

proof fn lemma_noted(meta: Meta, key: Seq<char>, i: int)
    requires
        is_first_note(meta, key, i),
    ensures
        meta_value(meta, key) == Some(meta[i].1),
    decreases meta.len(),
{
    if i > 0 {
        assert(meta[0].0 != key);
        let rest = meta.skip(1);
        assert forall|j: int| 0 <= j < i - 1 implies (#[trigger] rest[j]).0 != key by {
            assert(meta[j + 1].0 != key);
        }
        lemma_noted(rest, key, i - 1);
    }
}

/// An impl block is called after its type, everything else by its name.
pub proof fn an_impl_is_called_after_its_type(n: CodeView, of: Seq<char>)
    ensures
        n.node_type != "impl"@ ==> segment(n) == n.name,
        n.node_type == "impl"@ && is_noted(n.metadata, "impl_for"@, MetaView::Text(of)) ==> segment(n) == of,
{
    if is_noted(n.metadata, "impl_for"@, MetaView::Text(of)) {
        let i = choose|i: int| #[trigger]
            is_first_note(n.metadata, "impl_for"@, i) && n.metadata[i].1 == MetaView::Text(of);
        lemma_noted(n.metadata, "impl_for"@, i);
    }
}

/// No two nodes share an id.
pub open spec fn has_own_ids(nodes: Seq<CodeView>) -> bool {
    forall|i: int, j: int| 0 <= i < j < nodes.len() ==> (#[trigger] nodes[i]).id != (#[trigger] nodes[j]).id
}

/// Node `j` is what holds node `i`.
pub open spec fn is_held_by(nodes: Seq<CodeView>, edges: Seq<CodeEdgeView>, i: int, j: int) -> bool {
    &&& 0 <= i < nodes.len()
    &&& 0 <= j < nodes.len()
    &&& exists|k: int| #[trigger] is_last_hold(edges, nodes[i].id, k) && edges[k].from_id == nodes[j].id
}

/// The nodes around a node, from itself outwards: each is held by the next, and
/// nothing holds the last.
pub open spec fn is_chain(nodes: Seq<CodeView>, edges: Seq<CodeEdgeView>, chain: Seq<int>) -> bool
    decreases chain.len(),
{
    &&& chain.len() > 0
    &&& 0 <= chain[0] < nodes.len()
    &&& if chain.len() == 1 {
        is_free(edges, nodes[chain[0]].id)
    } else {
        is_held_by(nodes, edges, chain[0], chain[1]) && is_chain(nodes, edges, chain.skip(1))
    }
}

/// The segments of a chain, from the module inwards, with `::` between them.
pub open spec fn chain_path(nodes: Seq<CodeView>, module: Seq<char>, chain: Seq<int>) -> Seq<char>
    decreases chain.len(),
{
    if chain.len() == 0 {
        module
    } else {
        let outer = chain_path(nodes, module, chain.skip(1));
        let own = segment(nodes[chain[0]]);
        if outer.len() == 0 {
            own
        } else {
            outer + seq![':', ':'] + own
        }
    }
}

proof fn lemma_own_place(nodes: Seq<CodeView>, i: int)
    requires
        nodes.len() <= usize::MAX,
        has_own_ids(nodes),
        0 <= i < nodes.len(),
    ensures
        last_place(ids(nodes), nodes[i].id) == Some(i as usize),
        stand_ins(nodes)[i] == i,
{
    let keys = ids(nodes);
    let q = places_of(keys, nodes[i].id);
    lemma_places_of(keys, nodes[i].id);
    assert(keys[i] == nodes[i].id);
    assert(q.contains(i as usize));
    let last = q[q.len() - 1] as int;
    assert(keys[last] == nodes[i].id);
    assert(keys[last] == nodes[last].id);
    if last < i {
        assert(nodes[last].id != nodes[i].id);
    } else if i < last {
        assert(nodes[i].id != nodes[last].id);
    }
}

proof fn lemma_chain(nodes: Seq<CodeView>, edges: Seq<CodeEdgeView>, module: Seq<char>, chain: Seq<int>)
    requires
        nodes.len() <= usize::MAX,
        has_own_ids(nodes),
        is_chain(nodes, edges, chain),
    ensures
        chains(nodes, edges, module).ends(chain[0], chain.len()),
        container_place(ids(nodes), edges, nodes[chain[0]].id) == if chain.len() == 1 {
            None::<usize>
        } else {
            Some(chain[1] as usize)
        },
    decreases chain.len(),
{
    let i = chain[0];
    let g = chains(nodes, edges, module);
    assert(g.containers[i] == container_place(ids(nodes), edges, nodes[i].id));
    if chain.len() == 1 {
        a_container_is_the_last_holder(edges, nodes[i].id, 0);
    } else {
        let j = chain[1];
        let k = choose|k: int| #[trigger] is_last_hold(edges, nodes[i].id, k) && edges[k].from_id == nodes[j].id;
        a_container_is_the_last_holder(edges, nodes[i].id, k);
        lemma_own_place(nodes, j);
        lemma_chain(nodes, edges, module, chain.skip(1));
        assert(chain.skip(1)[0] == j);
    }
}

/// The qualified name of a symbol is the path of its module and the segments of
/// all that holds it, from the outside to itself.
pub proof fn a_symbol_is_named_by_all_that_holds_it(
    nodes: Seq<CodeView>,
    edges: Seq<CodeEdgeView>,
    module: Seq<char>,
    chain: Seq<int>,
)
    requires
        nodes.len() <= usize::MAX,
        has_own_ids(nodes),
        is_chain(nodes, edges, chain),
    ensures
        qualified(nodes, edges, module)[chain[0]].qualified_name == chain_path(nodes, module, chain),
    decreases chain.len(),
{
    let i = chain[0];
    reveal_strlit("::");
    assert("::"@ =~= seq![':', ':']);
    lemma_own_place(nodes, i);
    lemma_chain(nodes, edges, module, chain);
    a_name_extends_its_containers(nodes, edges, module, i, chain.len());
    let outer = chain.skip(1);
    if chain.len() > 1 {
        assert(outer[0] == chain[1]);
        a_symbol_is_named_by_all_that_holds_it(nodes, edges, module, outer);
    } else {
        assert(outer.len() == 0);
        assert(chain_path(nodes, module, outer) == module);
    }
}

} // verus!
