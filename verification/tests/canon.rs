//! Canonical forms against an exhaustive search, on generated graphs.

use codegraph::canon::{
    canonical, certificate_hash, fnv1a64, Certificate, Color, Label, TypedEdge, TypedGraph, Vertex,
};
use std::collections::{BTreeMap, HashMap};

fn permutations(items: Vec<usize>) -> Vec<Vec<usize>> {
    if items.len() <= 1 {
        return vec![items];
    }
    let mut out = Vec::new();
    for i in 0..items.len() {
        let mut rest = items.clone();
        let x = rest.remove(i);
        for mut p in permutations(rest) {
            p.insert(0, x);
            out.push(p);
        }
    }
    out
}

/// The least candidate over all orders of the vertices.
fn canonical_bruteforce(g: &TypedGraph) -> Certificate {
    let verts: Vec<Vertex> = g.colors.keys().copied().collect();
    let n = verts.len();
    if n == 0 {
        return Certificate::default();
    }
    let index: HashMap<Vertex, usize> = verts.iter().enumerate().map(|(i, &v)| (v, i)).collect();
    let seed: Vec<Color> = verts.iter().map(|v| g.colors[v]).collect();

    type Candidate = (Vec<Color>, Vec<(Label, Vec<u32>)>);
    let mut best: Option<Candidate> = None;
    for perm in permutations((0..n).collect()) {
        // perm[i] = the canonical id assigned to dense vertex i.
        let mut colors_p = vec![(0u64, 0u64); n];
        for (i, &p) in perm.iter().enumerate() {
            colors_p[p] = seed[i];
        }
        let mut edges_p: Vec<(Label, Vec<u32>)> = g
            .edges
            .iter()
            .map(|e| (e.label, e.verts.iter().map(|v| perm[index[v]] as u32).collect()))
            .collect();
        edges_p.sort();
        let cand = (colors_p, edges_p);
        if best.as_ref().is_none_or(|b| cand < *b) {
            best = Some(cand);
        }
    }
    let (colors, edges) = best.expect("n >= 1");
    Certificate { colors, edges }
}

/// Tiny deterministic PRNG (no dep) for test corpora.
struct Lcg(u64);
impl Lcg {
    fn next(&mut self, bound: u32) -> u32 {
        self.0 = self.0.wrapping_mul(6364136223846793005).wrapping_add(1442695040888963407);
        ((self.0 >> 33) as u32) % bound
    }
}

const LABELS: [Label; 3] = [11, 22, 33];
const KINDS: [u64; 3] = [7, 8, 9];

/// Random TYPED hypergraph, ≤8 vertices, random seed colors, arity 2–3
/// (genuine hyperedges), random labels.
fn random_graph(r: &mut Lcg) -> TypedGraph {
    let n = 3 + r.next(6); // 3..=8 vertices
    let m = 2 + r.next(4); // 2..=5 edges
    let colors: BTreeMap<Vertex, Color> =
        (0..n).map(|v| (v, (1, KINDS[r.next(3) as usize]))).collect();
    let edges = (0..m)
        .map(|_| {
            let arity = 2 + r.next(2);
            TypedEdge {
                label: LABELS[r.next(3) as usize],
                verts: (0..arity).map(|_| r.next(n)).collect(),
            }
        })
        .collect();
    TypedGraph { edges, colors }
}

/// Relabel to fresh vertex ids under a random permutation — an
/// isomorphic copy; colors ride along to the renamed vertices.
fn relabel(g: &TypedGraph, r: &mut Lcg) -> TypedGraph {
    let verts: Vec<Vertex> = g.colors.keys().copied().collect();
    let n = verts.len();
    let mut perm: Vec<Vertex> = (0..n as Vertex).map(|x| x + 1000).collect();
    for i in (1..n).rev() {
        perm.swap(i, r.next((i + 1) as u32) as usize);
    }
    let map: HashMap<Vertex, Vertex> =
        verts.iter().enumerate().map(|(i, &v)| (v, perm[i])).collect();
    TypedGraph {
        edges: g
            .edges
            .iter()
            .map(|e| TypedEdge {
                label: e.label,
                verts: e.verts.iter().map(|v| map[v]).collect(),
            })
            .collect(),
        colors: g.colors.iter().map(|(v, &c)| (map[v], c)).collect(),
    }
}

#[test]
fn ir_is_relabel_invariant() {
    let mut r = Lcg(0xC0FFEE);
    for _ in 0..3000 {
        let g = random_graph(&mut r);
        let h = relabel(&g, &mut r);
        assert_eq!(canonical(&g), canonical(&h), "not relabel-invariant:\n{g:?}\n{h:?}");
    }
}

#[test]
fn ir_partitions_identically_to_bruteforce() {
    // Gold standard: I-R and the exhaustive oracle must agree on
    // isomorphism for every pair in a random corpus (same canonical <=>
    // same iso class), labels and seed colors included.
    let mut r = Lcg(0x1234_5678);
    let batch: Vec<TypedGraph> = (0..150).map(|_| random_graph(&mut r)).collect();
    let ir: Vec<Certificate> = batch.iter().map(canonical).collect();
    let bf: Vec<Certificate> = batch.iter().map(canonical_bruteforce).collect();
    for i in 0..batch.len() {
        for j in 0..batch.len() {
            assert_eq!(
                ir[i] == ir[j],
                bf[i] == bf[j],
                "I-R vs brute-force disagree on iso of:\n{:?}\n{:?}",
                batch[i],
                batch[j]
            );
        }
    }
}

fn two_path(l1: Label, l2: Label, c: [Color; 3]) -> TypedGraph {
    TypedGraph {
        edges: vec![
            TypedEdge { label: l1, verts: vec![0, 1] },
            TypedEdge { label: l2, verts: vec![1, 2] },
        ],
        colors: [(0, c[0]), (1, c[1]), (2, c[2])].into_iter().collect(),
    }
}

#[test]
fn labels_are_part_of_identity() {
    let same = (1, 7);
    let a = two_path(11, 11, [same, same, same]);
    let b = two_path(11, 22, [same, same, same]);
    assert_ne!(canonical(&a), canonical(&b), "edge labels must distinguish certificates");
}

#[test]
fn seed_colors_are_part_of_identity() {
    let a = two_path(11, 11, [(1, 7), (1, 7), (1, 7)]);
    let b = two_path(11, 11, [(1, 8), (1, 7), (1, 7)]);
    assert_ne!(canonical(&a), canonical(&b), "vertex kinds must distinguish certificates");
}

#[test]
fn center_rooting_distinguishes_position() {
    // 0→1←2 (two same-label edges converging on the middle): rooting an
    // END vs the MIDDLE must differ; the two ends are genuinely
    // symmetric here (unlike a directed path), so rooting either end
    // must agree.
    let converge = |c: [Color; 3]| TypedGraph {
        edges: vec![
            TypedEdge { label: 11, verts: vec![0, 1] },
            TypedEdge { label: 11, verts: vec![2, 1] },
        ],
        colors: [(0, c[0]), (1, c[1]), (2, c[2])].into_iter().collect(),
    };
    let end = converge([(0, 7), (1, 7), (1, 7)]);
    let mid = converge([(1, 7), (0, 7), (1, 7)]);
    assert_ne!(canonical(&end), canonical(&mid), "rooting must be positional");
    let other_end = converge([(1, 7), (1, 7), (0, 7)]);
    assert_eq!(canonical(&end), canonical(&other_end));
}

/// Cross-process hash stability: this constant was computed once by this
/// very function and pasted in. `DefaultHasher` would fail this test on
/// every fresh process; FNV-1a over the fixed serialization cannot.
#[test]
fn certificate_hash_is_stable_across_processes() {
    let g = TypedGraph {
        edges: vec![
            TypedEdge { label: 11, verts: vec![10, 20] },
            TypedEdge { label: 22, verts: vec![20, 30, 40] },
            TypedEdge { label: 11, verts: vec![40, 10] },
        ],
        colors: [(10, (0, 7)), (20, (1, 8)), (30, (1, 9)), (40, (1, 7))]
            .into_iter()
            .collect(),
    };
    let h = certificate_hash(&canonical(&g));
    assert_eq!(
        h, 1_946_827_007_203_589_284_u64,
        "pinned fixture hash drifted — the canonical serialization (or the \
         algorithm) changed; persisted fingerprints would be invalidated"
    );
}

#[test]
fn ir_scales_far_past_the_bruteforce_limit() {
    // Typed directed path of 40 vertices: 40! is hopeless for the
    // oracle, but colour refinement discretizes it. Completing IS the
    // proof that it is fast enough.
    let path = |base: Vertex| TypedGraph {
        edges: (0..40).map(|i| TypedEdge { label: 11, verts: vec![base + i, base + i + 1] }).collect(),
        colors: (0..=40).map(|i| (base + i, (1, 7))).collect(),
    };
    let mut r = Lcg(9);
    let g = path(0);
    assert_eq!(canonical(&g), canonical(&relabel(&g, &mut r)), "40-vertex path invariance");
    assert_eq!(canonical(&g).edges.len(), 40);
}

#[test]
fn star_with_many_interchangeable_leaves_is_fast_via_orbit_pruning() {
    // The production shape: a fingerprint neighborhood is a star around
    // its individualized center. 64 same-kind callers = one orbit; the
    // k! blow-up must collapse via transposition pruning. Completing
    // (quickly) is the point of the assertion.
    let star = TypedGraph {
        edges: (1..=64).map(|i| TypedEdge { label: 11, verts: vec![i, 0] }).collect(),
        colors: std::iter::once((0, (0u64, 7u64)))
            .chain((1..=64).map(|i| (i, (1, 8))))
            .collect(),
    };
    let mut r = Lcg(0xBEEF);
    assert_eq!(canonical(&star), canonical(&relabel(&star, &mut r)));
    assert_eq!(canonical(&star).edges.len(), 64);
}

#[test]
fn a_deep_chain_of_individualizations_completes() {
    // Far deeper than doubled colours fit into a word.
    let k: Vertex = 3_000;
    let g = TypedGraph {
        edges: vec![],
        colors: (0..k).map(|v| (v, (1, 7))).collect(),
    };
    let cert = canonical(&g);
    assert_eq!(cert.colors.len(), k as usize);
    assert!(cert.edges.is_empty());
}

#[test]
fn an_empty_graph_has_an_empty_certificate() {
    assert_eq!(canonical(&TypedGraph::default()), Certificate::default());
}

#[test]
fn fnv_of_known_bytes() {
    assert_eq!(fnv1a64(b""), 0xcbf29ce484222325);
    assert_eq!(fnv1a64(b"a"), 0xaf63dc4c8601ec8c);
    assert_eq!(fnv1a64(b"foobar"), 0x85944171f73967e8);
}

#[test]
fn a_certificate_names_the_vertices_from_zero_on() {
    let g = two_path(11, 22, [(0, 7), (1, 7), (1, 8)]);
    let cert = canonical(&g);
    assert_eq!(cert.colors, vec![(0, 7), (1, 7), (1, 8)]);
    assert_eq!(cert.edges, vec![(11, vec![0, 1]), (22, vec![1, 2])]);
}
