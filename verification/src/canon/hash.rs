//! A hash of canonical forms that is the same in every process.

use vstd::prelude::*;

use crate::canon::{Certificate, CertificateView};

verus! {

/// The state in which FNV-1a (64 bit) starts.
pub const FNV_OFFSET: u64 = 0xcbf2_9ce4_8422_2325;

/// The multiplier of FNV-1a (64 bit).
pub const FNV_PRIME: u64 = 0x0000_0100_0000_01b3;

/// One byte: exclusive or, then multiplication modulo 2^64.
pub open spec fn fnv_step(h: u64, b: u8) -> u64 {
    (h ^ (b as u64)).wrapping_mul(FNV_PRIME)
}

/// FNV-1a over `bytes`, from state `h`.
pub open spec fn fnv_from(h: u64, bytes: Seq<u8>) -> u64
    decreases bytes.len(),
{
    if bytes.len() == 0 {
        h
    } else {
        fnv_step(fnv_from(h, bytes.drop_last()), bytes.last())
    }
}

proof fn lemma_fnv_add(h: u64, a: Seq<u8>, b: Seq<u8>)
    ensures
        fnv_from(h, a + b) == fnv_from(fnv_from(h, a), b),
    decreases b.len(),
{
    if b.len() == 0 {
        assert(a + b =~= a);
    } else {
        lemma_fnv_add(h, a, b.drop_last());
        assert((a + b).drop_last() =~= a + b.drop_last());
    }
}

fn eat(h: u64, bytes: &[u8]) -> (r: u64)
    ensures
        r == fnv_from(h, bytes@),
{
    let mut r: u64 = h;
    let mut i: usize = 0;
    while i < bytes.len()
        invariant
            i <= bytes.len(),
            r == fnv_from(h, bytes@.take(i as int)),
        decreases bytes.len() - i,
    {
        assert(bytes@.take(i + 1).drop_last() =~= bytes@.take(i as int));
        r = (r ^ (bytes[i] as u64)).wrapping_mul(FNV_PRIME);
        i = i + 1;
    }
    assert(bytes@.take(bytes.len() as int) =~= bytes@);
    r
}

/// FNV-1a (64 bit) of `bytes`.
pub fn fnv1a64(bytes: &[u8]) -> (h: u64)
    ensures
        h == fnv_from(FNV_OFFSET, bytes@),
{
    eat(FNV_OFFSET, bytes)
}

// ---- the serialization of a certificate --------------------------------------------

pub open spec fn le64(x: u64) -> Seq<u8> {
    vstd::bytes::spec_u64_to_le_bytes(x)
}

pub open spec fn le32(x: u32) -> Seq<u8> {
    vstd::bytes::spec_u32_to_le_bytes(x)
}

pub open spec fn color_bytes(colors: Seq<(u64, u64)>) -> Seq<u8>
    decreases colors.len(),
{
    if colors.len() == 0 {
        Seq::empty()
    } else {
        color_bytes(colors.drop_last()) + (le64(colors.last().0) + le64(colors.last().1))
    }
}

pub open spec fn vert_bytes(verts: Seq<u32>) -> Seq<u8>
    decreases verts.len(),
{
    if verts.len() == 0 {
        Seq::empty()
    } else {
        vert_bytes(verts.drop_last()) + le32(verts.last())
    }
}

/// An edge: its label, its arity, its vertices.
pub open spec fn edge_bytes(e: (u64, Seq<u32>)) -> Seq<u8> {
    le64(e.0) + (le64(e.1.len() as u64) + vert_bytes(e.1))
}

pub open spec fn all_edge_bytes(edges: Seq<(u64, Seq<u32>)>) -> Seq<u8>
    decreases edges.len(),
{
    if edges.len() == 0 {
        Seq::empty()
    } else {
        all_edge_bytes(edges.drop_last()) + edge_bytes(edges.last())
    }
}

/// The bytes of a certificate: the number of colours, the colours, the number
/// of edges, the edges. Integers are little-endian, of eight bytes, vertices of
/// four.
pub open spec fn certificate_bytes(c: CertificateView) -> Seq<u8> {
    le64(c.colors.len() as u64) + (color_bytes(c.colors) + (le64(c.edges.len() as u64) + all_edge_bytes(
        c.edges,
    )))
}

fn eat_u64(h: u64, x: u64) -> (r: u64)
    ensures
        r == fnv_from(h, le64(x)),
{
    let bytes = vstd::bytes::u64_to_le_bytes(x);
    eat(h, bytes.as_slice())
}

fn eat_u32(h: u64, x: u32) -> (r: u64)
    ensures
        r == fnv_from(h, le32(x)),
{
    let bytes = vstd::bytes::u32_to_le_bytes(x);
    eat(h, bytes.as_slice())
}

fn eat_edge(h: u64, e: &(u64, Vec<u32>)) -> (r: u64)
    ensures
        r == fnv_from(h, edge_bytes(e.deep_view())),
{
    let ghost v = e.deep_view().1;
    assert(v =~= e.1@);
    let head: u64 = eat_u64(eat_u64(h, e.0), e.1.len() as u64);
    let mut r: u64 = head;
    let mut i: usize = 0;
    while i < e.1.len()
        invariant
            i <= e.1.len(),
            v == e.1@,
            r == fnv_from(head, vert_bytes(v.take(i as int))),
        decreases e.1.len() - i,
    {
        proof {
            assert(v.take(i + 1).drop_last() =~= v.take(i as int));
            lemma_fnv_add(head, vert_bytes(v.take(i as int)), le32(v[i as int]));
        }
        r = eat_u32(r, e.1[i]);
        i = i + 1;
    }
    proof {
        assert(v.take(v.len() as int) =~= v);
        lemma_fnv_add(h, le64(e.0), le64(v.len() as u64) + vert_bytes(v));
        lemma_fnv_add(fnv_from(h, le64(e.0)), le64(v.len() as u64), vert_bytes(v));
    }
    r
}

/// FNV-1a (64 bit) of the certificate's serialization.
pub fn certificate_hash(cert: &Certificate) -> (h: u64)
    ensures
        h == fnv_from(FNV_OFFSET, certificate_bytes(cert@)),
{
    let ghost c = cert@;
    let start: u64 = eat_u64(FNV_OFFSET, cert.colors.len() as u64);
    let mut r: u64 = start;
    let mut i: usize = 0;
    while i < cert.colors.len()
        invariant
            i <= cert.colors.len(),
            c == cert@,
            r == fnv_from(start, color_bytes(c.colors.take(i as int))),
        decreases cert.colors.len() - i,
    {
        let color: (u64, u64) = cert.colors[i];
        proof {
            let done = color_bytes(c.colors.take(i as int));
            assert(c.colors.take(i + 1).drop_last() =~= c.colors.take(i as int));
            lemma_fnv_add(start, done, le64(color.0) + le64(color.1));
            lemma_fnv_add(fnv_from(start, done), le64(color.0), le64(color.1));
        }
        r = eat_u64(eat_u64(r, color.0), color.1);
        i = i + 1;
    }
    assert(c.colors.take(c.colors.len() as int) =~= c.colors);
    let middle: u64 = eat_u64(r, cert.edges.len() as u64);
    let mut r2: u64 = middle;
    let mut i: usize = 0;
    while i < cert.edges.len()
        invariant
            i <= cert.edges.len(),
            c == cert@,
            r2 == fnv_from(middle, all_edge_bytes(c.edges.take(i as int))),
        decreases cert.edges.len() - i,
    {
        proof {
            assert(c.edges.take(i + 1).drop_last() =~= c.edges.take(i as int));
            lemma_fnv_add(middle, all_edge_bytes(c.edges.take(i as int)), edge_bytes(c.edges[i as int]));
        }
        r2 = eat_edge(r2, &cert.edges[i]);
        i = i + 1;
    }
    proof {
        assert(c.edges.take(c.edges.len() as int) =~= c.edges);
        let tail = le64(c.edges.len() as u64) + all_edge_bytes(c.edges);
        lemma_fnv_add(FNV_OFFSET, le64(c.colors.len() as u64), color_bytes(c.colors) + tail);
        lemma_fnv_add(start, color_bytes(c.colors), tail);
        lemma_fnv_add(r, le64(c.edges.len() as u64), all_edge_bytes(c.edges));
    }
    r2
}

// ---- the serialization is prefix-free -----------------------------------------------

proof fn lemma_split<A>(a: Seq<A>, r: Seq<A>, b: Seq<A>, s: Seq<A>)
    requires
        a + r == b + s,
        a.len() == b.len(),
    ensures
        a == b,
        r == s,
{
    assert(a =~= (a + r).take(a.len() as int));
    assert(b =~= (b + s).take(b.len() as int));
    assert(r =~= (a + r).skip(a.len() as int));
    assert(s =~= (b + s).skip(b.len() as int));
}

proof fn lemma_le64(x: u64, r: Seq<u8>, y: u64, s: Seq<u8>)
    requires
        le64(x) + r == le64(y) + s,
    ensures
        x == y,
        r == s,
{
    vstd::bytes::lemma_auto_spec_u64_to_from_le_bytes();
    lemma_split(le64(x), r, le64(y), s);
}

proof fn lemma_le32(x: u32, r: Seq<u8>, y: u32, s: Seq<u8>)
    requires
        le32(x) + r == le32(y) + s,
    ensures
        x == y,
        r == s,
{
    vstd::bytes::lemma_auto_spec_u32_to_from_le_bytes();
    lemma_split(le32(x), r, le32(y), s);
}

proof fn lemma_vert_bytes(a: Seq<u32>, r: Seq<u8>, b: Seq<u32>, s: Seq<u8>)
    requires
        a.len() == b.len(),
        vert_bytes(a) + r == vert_bytes(b) + s,
    ensures
        a == b,
        r == s,
    decreases a.len(),
{
    if a.len() == 0 {
        assert(vert_bytes(a) + r =~= r);
        assert(vert_bytes(b) + s =~= s);
        assert(a =~= b);
    } else {
        let (a1, b1) = (a.drop_last(), b.drop_last());
        assert(vert_bytes(a) + r =~= vert_bytes(a1) + (le32(a.last()) + r));
        assert(vert_bytes(b) + s =~= vert_bytes(b1) + (le32(b.last()) + s));
        lemma_vert_bytes(a1, le32(a.last()) + r, b1, le32(b.last()) + s);
        lemma_le32(a.last(), r, b.last(), s);
        assert(a =~= a1.push(a.last()));
        assert(b =~= b1.push(b.last()));
    }
}

proof fn lemma_color_bytes(a: Seq<(u64, u64)>, r: Seq<u8>, b: Seq<(u64, u64)>, s: Seq<u8>)
    requires
        a.len() == b.len(),
        color_bytes(a) + r == color_bytes(b) + s,
    ensures
        a == b,
        r == s,
    decreases a.len(),
{
    if a.len() == 0 {
        assert(color_bytes(a) + r =~= r);
        assert(color_bytes(b) + s =~= s);
        assert(a =~= b);
    } else {
        let (a1, b1) = (a.drop_last(), b.drop_last());
        let (x, y) = (a.last(), b.last());
        assert(color_bytes(a) + r =~= color_bytes(a1) + (le64(x.0) + (le64(x.1) + r)));
        assert(color_bytes(b) + s =~= color_bytes(b1) + (le64(y.0) + (le64(y.1) + s)));
        lemma_color_bytes(a1, le64(x.0) + (le64(x.1) + r), b1, le64(y.0) + (le64(y.1) + s));
        lemma_le64(x.0, le64(x.1) + r, y.0, le64(y.1) + s);
        lemma_le64(x.1, r, y.1, s);
        assert(a =~= a1.push(x));
        assert(b =~= b1.push(y));
    }
}

proof fn lemma_edge_bytes(a: (u64, Seq<u32>), r: Seq<u8>, b: (u64, Seq<u32>), s: Seq<u8>)
    requires
        a.1.len() <= u64::MAX,
        b.1.len() <= u64::MAX,
        edge_bytes(a) + r == edge_bytes(b) + s,
    ensures
        a == b,
        r == s,
{
    let ra = le64(a.1.len() as u64) + (vert_bytes(a.1) + r);
    let rb = le64(b.1.len() as u64) + (vert_bytes(b.1) + s);
    assert(edge_bytes(a) + r =~= le64(a.0) + ra);
    assert(edge_bytes(b) + s =~= le64(b.0) + rb);
    lemma_le64(a.0, ra, b.0, rb);
    lemma_le64(a.1.len() as u64, vert_bytes(a.1) + r, b.1.len() as u64, vert_bytes(b.1) + s);
    lemma_vert_bytes(a.1, r, b.1, s);
}

/// The lengths of the certificate's lists fit in 64 bits.
pub open spec fn fits(c: CertificateView) -> bool {
    &&& c.colors.len() <= u64::MAX
    &&& c.edges.len() <= u64::MAX
    &&& forall|i: int| 0 <= i < c.edges.len() ==> (#[trigger] c.edges[i]).1.len() <= u64::MAX
}

proof fn lemma_all_edge_bytes(
    a: Seq<(u64, Seq<u32>)>,
    r: Seq<u8>,
    b: Seq<(u64, Seq<u32>)>,
    s: Seq<u8>,
)
    requires
        a.len() == b.len(),
        forall|i: int| 0 <= i < a.len() ==> (#[trigger] a[i]).1.len() <= u64::MAX,
        forall|i: int| 0 <= i < b.len() ==> (#[trigger] b[i]).1.len() <= u64::MAX,
        all_edge_bytes(a) + r == all_edge_bytes(b) + s,
    ensures
        a == b,
        r == s,
    decreases a.len(),
{
    if a.len() == 0 {
        assert(all_edge_bytes(a) + r =~= r);
        assert(all_edge_bytes(b) + s =~= s);
        assert(a =~= b);
    } else {
        let (a1, b1) = (a.drop_last(), b.drop_last());
        let (x, y) = (a.last(), b.last());
        assert(all_edge_bytes(a) + r =~= all_edge_bytes(a1) + (edge_bytes(x) + r));
        assert(all_edge_bytes(b) + s =~= all_edge_bytes(b1) + (edge_bytes(y) + s));
        assert forall|i: int| 0 <= i < a1.len() implies (#[trigger] a1[i]).1.len() <= u64::MAX by {
            assert(a[i].1.len() <= u64::MAX);
        }
        assert forall|i: int| 0 <= i < b1.len() implies (#[trigger] b1[i]).1.len() <= u64::MAX by {
            assert(b[i].1.len() <= u64::MAX);
        }
        lemma_all_edge_bytes(a1, edge_bytes(x) + r, b1, edge_bytes(y) + s);
        assert(a[a.len() - 1].1.len() <= u64::MAX);
        assert(b[b.len() - 1].1.len() <= u64::MAX);
        lemma_edge_bytes(x, r, y, s);
        assert(a =~= a1.push(x));
        assert(b =~= b1.push(y));
    }
}

/// The serialization is prefix-free: where one certificate's bytes begin with
/// those of another, the two certificates are equal. So distinct certificates
/// never agree by the way their parts are concatenated.
pub proof fn certificate_bytes_are_prefix_free(a: CertificateView, b: CertificateView)
    requires
        fits(a),
        fits(b),
        certificate_bytes(a).is_prefix_of(certificate_bytes(b)),
    ensures
        a == b,
{
    let ba = certificate_bytes(a);
    let bb = certificate_bytes(b);
    let r = bb.skip(ba.len() as int);
    let s = Seq::<u8>::empty();
    assert(ba + r =~= bb + s);
    let ea = le64(a.edges.len() as u64) + (all_edge_bytes(a.edges) + r);
    let eb = le64(b.edges.len() as u64) + (all_edge_bytes(b.edges) + s);
    assert(ba + r =~= le64(a.colors.len() as u64) + (color_bytes(a.colors) + ea));
    assert(bb + s =~= le64(b.colors.len() as u64) + (color_bytes(b.colors) + eb));
    lemma_le64(a.colors.len() as u64, color_bytes(a.colors) + ea, b.colors.len() as u64, color_bytes(b.colors) + eb);
    lemma_color_bytes(a.colors, ea, b.colors, eb);
    lemma_le64(a.edges.len() as u64, all_edge_bytes(a.edges) + r, b.edges.len() as u64, all_edge_bytes(b.edges) + s);
    lemma_all_edge_bytes(a.edges, r, b.edges, s);
}

} // verus!
