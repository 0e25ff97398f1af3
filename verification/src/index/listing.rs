//! How syntax trees, ids and texts tell what they were made of.

use vstd::prelude::*;
use vstd::utf8::{
    decode_utf8, decode_utf8_encode_utf8, decode_utf8_split, encode_utf8, encode_utf8_decode_utf8, encode_utf8_valid_utf8,
    is_char_boundary, is_char_boundary_iff_not_is_continuation_byte, is_char_boundary_start_end_of_seq, valid_utf8,
    valid_utf8_split,
};

use crate::index::node_id::identity;
use crate::index::source::{boundary_before, byte_len, cut, text_at};
use crate::index::syntax::{forest, grown, past, tree_of, Row, Shape};
use crate::lines::lemma_split_joined;
use crate::text::joined;

verus! {

// ---- trees ----------------------------------------------------------------------------------

/// The row of a node at a depth.
pub open spec fn row_at(s: Shape, depth: nat) -> Row {
    Row {
        depth,
        kind: s.kind,
        field: s.field,
        start_byte: s.start_byte,
        end_byte: s.end_byte,
        start_row: s.start_row,
        end_row: s.end_row,
    }
}

/// The rows of some nodes at a depth and of all below them, each node before its
/// children.
pub open spec fn listed(kids: Seq<Shape>, depth: nat) -> Seq<Row>
    decreases kids,
{
    if kids.len() == 0 {
        Seq::empty()
    } else {
        seq![row_at(kids[0], depth)] + listed(kids[0].children, depth + 1) + listed(kids.skip(1), depth)
    }
}

/// The rows list trees at a depth: each is at most one deeper than the row before
/// it, and none is higher.
pub open spec fn is_listing(rows: Seq<Row>, from: int, end: int, depth: nat) -> bool {
    &&& 0 <= from <= end <= rows.len()
    &&& from < end ==> rows[from].depth == depth
    &&& forall|k: int| from <= k < end ==> (#[trigger] rows[k]).depth >= depth
    &&& forall|k: int| from < k < end ==> (#[trigger] rows[k]).depth <= rows[k - 1].depth + 1
}

proof fn lemma_past_rows(rows: Seq<Row>, depth: nat, j: int, end: int)
    requires
        j <= end,
    ensures
        j <= past(rows, depth, j, end) <= end,
        forall|k: int| j <= k < past(rows, depth, j, end) ==> (#[trigger] rows[k]).depth > depth,
        past(rows, depth, j, end) < end ==> rows[past(rows, depth, j, end)].depth <= depth,
    decreases end - j,
{
    if j < end && rows[j].depth > depth {
        lemma_past_rows(rows, depth, j + 1, end);
    }
}

proof fn lemma_listed(rows: Seq<Row>, from: int, end: int, depth: nat)
    requires
        is_listing(rows, from, end, depth),
    ensures
        listed(forest(rows, from, end), depth) == rows.subrange(from, end),
    decreases end - from,
{
    if from < end {
        let mid = past(rows, depth, from + 1, end);
        lemma_past_rows(rows, depth, from + 1, end);
        let below = forest(rows, from + 1, mid);
        let rest = forest(rows, mid, end);
        if from + 1 < mid {
            assert(rows[from + 1].depth > depth);
            assert(rows[from + 1].depth <= rows[from].depth + 1);
        }
        assert(is_listing(rows, from + 1, mid, depth + 1));
        assert(is_listing(rows, mid, end, depth));
        lemma_listed(rows, from + 1, mid, depth + 1);
        lemma_listed(rows, mid, end, depth);
        let all = forest(rows, from, end);
        assert(all =~= seq![grown(rows[from], below)] + rest);
        assert(all.skip(1) =~= rest);
        assert(all[0].children == below);
        assert(row_at(all[0], depth) == rows[from]);
        assert(listed(all, depth) =~= seq![rows[from]] + rows.subrange(from + 1, mid) + rows.subrange(mid, end));
        assert(listed(all, depth) =~= rows.subrange(from, end));
    } else {
        assert(listed(forest(rows, from, end), depth) =~= rows.subrange(from, end));
    }
}

/// The tree that rows list has just these rows: listed again, each node before
/// its children and its later siblings, it gives them back, each at its depth.
pub proof fn a_tree_lists_back_to_its_rows(rows: Seq<Row>)
    requires
        rows.len() > 0,
        is_listing(rows, 1, rows.len() as int, 1),
        rows[0].depth == 0,
    ensures
        listed(seq![tree_of(rows)], 0) == rows,
{
    let t = tree_of(rows);
    let end = rows.len() as int;
    lemma_past_rows(rows, 0, 1, end);
    let mid = past(rows, 0, 1, end);
    if mid < end {
        assert(rows[mid].depth >= 1);
    }
    let below = forest(rows, 1, end);
    assert(forest(rows, 0, end) =~= seq![grown(rows[0], below)] + forest(rows, end, end));
    assert(t == grown(rows[0], below));
    lemma_listed(rows, 1, end, 1);
    assert(seq![t].skip(1) =~= Seq::empty());
    assert(listed(Seq::<Shape>::empty(), 0) =~= Seq::empty());
    assert(row_at(t, 0) == rows[0]);
    assert(listed(seq![t], 0) =~= seq![rows[0]] + rows.subrange(1, rows.len() as int));
    assert(listed(seq![t], 0) =~= rows);
}

// ---- ids ------------------------------------------------------------------------------------

proof fn lemma_encode_add(a: Seq<char>, b: Seq<char>)
    ensures
        encode_utf8(a + b) == encode_utf8(a) + encode_utf8(b),
    decreases a.len(),
{
    if a.len() == 0 {
        assert(a + b =~= b);
        assert(encode_utf8(a) + encode_utf8(b) =~= encode_utf8(b));
    } else {
        let s = a + b;
        assert(s[0] == a[0]);
        assert(s.drop_first() =~= a.drop_first() + b);
        lemma_encode_add(a.drop_first(), b);
        assert(encode_utf8(s) =~= encode_utf8(a) + encode_utf8(b));
    }
}

/// What an id is made of, but for the line.
pub open spec fn written(project: Seq<char>, file: Seq<char>, name: Seq<char>, node_type: Seq<char>) -> Seq<char> {
    joined(seq![project, file, name, node_type, Seq::empty()], seq!['|'])
}

proof fn lemma_written(project: Seq<char>, file: Seq<char>, name: Seq<char>, node_type: Seq<char>)
    ensures
        written(project, file, name, node_type) == project + "|"@ + file + "|"@ + name + "|"@ + node_type + "|"@,
        encode_utf8(written(project, file, name, node_type)) == encode_utf8(project) + encode_utf8("|"@) + encode_utf8(file)
            + encode_utf8("|"@) + encode_utf8(name) + encode_utf8("|"@) + encode_utf8(node_type) + encode_utf8("|"@),
{
    let bar = "|"@;
    reveal_strlit("|");
    assert(bar =~= seq!['|']);
    let e = Seq::<char>::empty();
    let p5 = seq![project, file, name, node_type, e];
    let p4 = seq![project, file, name, node_type];
    let p3 = seq![project, file, name];
    let p2 = seq![project, file];
    assert(p5.drop_last() =~= p4);
    assert(p4.drop_last() =~= p3);
    assert(p3.drop_last() =~= p2);
    assert(p2.drop_last() =~= seq![project]);
    let sep = seq!['|'];
    assert(joined(seq![project], sep) == project);
    assert(joined(p2, sep) == project + sep + file);
    assert(joined(p3, sep) == joined(p2, sep) + sep + name);
    assert(joined(p4, sep) == joined(p3, sep) + sep + node_type);
    assert(joined(p5, sep) == joined(p4, sep) + sep + e);
    assert(written(project, file, name, node_type) =~= project + bar + file + bar + name + bar + node_type + bar);
    let t1 = project + bar;
    let t2 = t1 + file;
    let t3 = t2 + bar;
    let t4 = t3 + name;
    let t5 = t4 + bar;
    let t6 = t5 + node_type;
    lemma_encode_add(project, bar);
    lemma_encode_add(t1, file);
    lemma_encode_add(t2, bar);
    lemma_encode_add(t3, name);
    lemma_encode_add(t4, bar);
    lemma_encode_add(t5, node_type);
    lemma_encode_add(t6, bar);
}

/// The line of an identity; none is line zero.
pub open spec fn line_number(line: Option<u32>) -> u32 {
    match line {
        Some(l) => l,
        None => 0,
    }
}

/// What an id is a digest of tells everything that the id is given for: the
/// project, the file, the name, the type and the line. Two entities that differ in
/// one of them have different identities.
pub proof fn an_identity_tells_its_parts(
    project: Seq<char>,
    file: Seq<char>,
    name: Seq<char>,
    node_type: Seq<char>,
    line: Option<u32>,
    project2: Seq<char>,
    file2: Seq<char>,
    name2: Seq<char>,
    type2: Seq<char>,
    line2: Option<u32>,
)
    requires
        !project.contains('|') && !file.contains('|') && !name.contains('|') && !node_type.contains('|'),
        !project2.contains('|') && !file2.contains('|') && !name2.contains('|') && !type2.contains('|'),
        identity(project, file, name, node_type, line) == identity(project2, file2, name2, type2, line2),
    ensures
        project == project2,
        file == file2,
        name == name2,
        node_type == type2,
        line_number(line) == line_number(line2),
{
    let a = written(project, file, name, node_type);
    let b = written(project2, file2, name2, type2);
    lemma_written(project, file, name, node_type);
    lemma_written(project2, file2, name2, type2);
    let x = identity(project, file, name, node_type, line);
    let y = identity(project2, file2, name2, type2, line2);
    let n = encode_utf8(a).len() as int;
    let m = encode_utf8(b).len() as int;
    vstd::bytes::lemma_auto_spec_u32_to_from_le_bytes();
    let la = crate::canon::hash::le32(line_number(line));
    let lb = crate::canon::hash::le32(line_number(line2));
    assert(x =~= encode_utf8(a) + la);
    assert(y =~= encode_utf8(b) + lb);
    assert(la.len() == 4 && lb.len() == 4);
    assert(n == m);
    assert(x.subrange(0, n) =~= encode_utf8(a));
    assert(y.subrange(0, m) =~= encode_utf8(b));
    assert(x.subrange(n, n + 4) =~= la);
    assert(y.subrange(m, m + 4) =~= lb);
    assert(la == lb);
    encode_utf8_decode_utf8(a);
    encode_utf8_decode_utf8(b);
    assert(a == b);
    let e = Seq::<char>::empty();
    let p = seq![project, file, name, node_type, e];
    let q = seq![project2, file2, name2, type2, e];
    assert(!e.contains('|'));
    lemma_split_joined(p, '|');
    lemma_split_joined(q, '|');
    assert(p == q);
    assert(p[0] == q[0] && p[1] == q[1] && p[2] == q[2] && p[3] == q[3]);
}

// ---- texts ----------------------------------------------------------------------------------

/// Between two parts of a text there is a boundary.
proof fn lemma_boundary(a: Seq<char>, b: Seq<char>)
    ensures
        is_char_boundary(encode_utf8(a + b), encode_utf8(a).len() as int),
{
    let x = encode_utf8(a);
    let y = encode_utf8(b);
    let z = encode_utf8(a + b);
    lemma_encode_add(a, b);
    encode_utf8_valid_utf8(a + b);
    encode_utf8_valid_utf8(b);
    is_char_boundary_start_end_of_seq(z);
    is_char_boundary_start_end_of_seq(y);
    if y.len() > 0 {
        is_char_boundary_iff_not_is_continuation_byte(y, 0);
        is_char_boundary_iff_not_is_continuation_byte(z, x.len() as int);
        assert(z[x.len() as int] == y[0]);
    } else {
        assert(z =~= x);
    }
}

/// The text between two offsets is what stands there.
pub proof fn a_text_is_what_stands_between_its_offsets(before: Seq<char>, t: Seq<char>, after: Seq<char>)
    ensures
        text_at(before + t + after, byte_len(before), byte_len(before) + byte_len(t)) == t,
{
    let whole = before + t + after;
    let x = encode_utf8(before);
    let y = encode_utf8(t);
    lemma_encode_add(before + t, after);
    lemma_encode_add(before, t);
    lemma_boundary(before, t + after);
    assert(before + (t + after) =~= whole);
    lemma_boundary(before + t, after);
    let from = x.len() as int;
    let to = from + y.len();
    assert(encode_utf8(whole).subrange(from, to) =~= y);
    encode_utf8_decode_utf8(t);
}

proof fn lemma_boundary_before(bytes: Seq<u8>, end: nat)
    requires
        valid_utf8(bytes),
    ensures
        boundary_before(bytes, end) <= end,
        is_char_boundary(bytes, boundary_before(bytes, end) as int),
        forall|k: nat| k <= end && #[trigger] is_char_boundary(bytes, k as int) ==> k <= boundary_before(bytes, end),
    decreases end,
{
    is_char_boundary_start_end_of_seq(bytes);
    if end > 0 && !is_char_boundary(bytes, end as int) {
        lemma_boundary_before(bytes, (end - 1) as nat);
    }
}

/// A text that is cut is its longest front of at most that many bytes: a text
/// that fits stays whole, and one character more would be too much.
pub proof fn a_cut_is_the_longest_front(s: Seq<char>, max: nat) -> (k: int)
    ensures
        0 <= k <= s.len(),
        cut(s, max) == s.take(k),
        byte_len(cut(s, max)) <= max,
        byte_len(s) <= max ==> cut(s, max) == s,
        k < s.len() ==> byte_len(s.take(k + 1)) > max,
{
    if byte_len(s) <= max {
        assert(s.take(s.len() as int) =~= s);
        s.len() as int
    } else {
        let bytes = encode_utf8(s);
        encode_utf8_valid_utf8(s);
        lemma_boundary_before(bytes, max);
        let b = boundary_before(bytes, max) as int;
        is_char_boundary_start_end_of_seq(bytes);
        valid_utf8_split(bytes, b);
        decode_utf8_split(bytes, b);
        encode_utf8_decode_utf8(s);
        let front = decode_utf8(bytes.subrange(0, b));
        let rest = decode_utf8(bytes.subrange(b, bytes.len() as int));
        assert(s =~= front + rest);
        let k = front.len() as int;
        assert(s.take(k) =~= front);
        decode_utf8_encode_utf8(bytes.subrange(0, b));
        assert(byte_len(front) == b);
        if k < s.len() {
            let more = s.take(k + 1);
            let tail = s.skip(k + 1);
            assert(more + tail =~= s);
            lemma_boundary(more, tail);
            let n = byte_len(more);
            lemma_encode_add(front, seq![s[k]]);
            assert(front + seq![s[k]] =~= more);
            lemma_one(s[k]);
            if n <= max {
                assert(is_char_boundary(bytes, n as int));
                assert(n <= b);
            }
        }
        k
    }
}

/// A character has at least one byte.
proof fn lemma_one(c: char)
    ensures
        encode_utf8(seq![c]).len() > 0,
{
    if encode_utf8(seq![c]).len() == 0 {
        encode_utf8_decode_utf8(seq![c]);
        encode_utf8_decode_utf8(Seq::<char>::empty());
        assert(encode_utf8(seq![c]) =~= encode_utf8(Seq::<char>::empty()));
        assert(seq![c].len() == 1);
    }
}

} // verus!
