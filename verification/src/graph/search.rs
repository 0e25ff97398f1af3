//! A project in numbers.

use vstd::prelude::*;

use crate::gather::gather;
use crate::lookup::lemma_take_next;

verus! {

/// How many nodes there are of each type, how many files of each language, and
/// how many references of each kind.
#[derive(Debug, Clone)]
pub struct ProjectSummary {
    pub node_types: Vec<(String, i64)>,
    pub languages: Vec<(String, i64)>,
    pub edge_types: Vec<(String, i64)>,
}

/// Counts by label, as mathematical values.
pub open spec fn counts_of(rows: Seq<(String, i64)>) -> Seq<(Seq<char>, i64)> {
    Seq::new(rows.len(), |i: int| (rows[i].0@, rows[i].1))
}

pub open spec fn labelled() -> spec_fn((Seq<char>, i64)) -> Option<(Seq<char>, i64)> {
    |row: (Seq<char>, i64)|
        if row.0.len() > 0 {
            Some(row)
        } else {
            None
        }
}

fn keep_labelled(rows: &Vec<(String, i64)>) -> (r: Vec<(String, i64)>)
    ensures
        counts_of(r@) == gather(counts_of(rows@), labelled()),
{
    let ghost rv = counts_of(rows@);
    let mut out: Vec<(String, i64)> = Vec::new();
    assert(counts_of(out@) =~= gather(rv.take(0), labelled()));
    let mut i: usize = 0;
    while i < rows.len()
        invariant
            i <= rows.len(),
            rv == counts_of(rows@),
            counts_of(out@) == gather(rv.take(i as int), labelled()),
        decreases rows.len() - i,
    {
        proof {
            lemma_take_next(rv, i as int);
        }
        if !rows[i].0.as_str().is_empty() {
            let ghost before = counts_of(out@);
            out.push((rows[i].0.as_str().to_owned(), rows[i].1));
            assert(counts_of(out@) =~= before.push(rv[i as int]));
        }
        i += 1;
    }
    assert(rv.take(i as int) =~= rv);
    out
}

/// The summary of counted rows; rows without a label are left out.
pub fn project_summary(types: &Vec<(String, i64)>, languages: &Vec<(String, i64)>, edges: &Vec<(String, i64)>) -> (r:
    ProjectSummary)
    ensures
        counts_of(r.node_types@) == gather(counts_of(types@), labelled()),
        counts_of(r.languages@) == gather(counts_of(languages@), labelled()),
        counts_of(r.edge_types@) == gather(counts_of(edges@), labelled()),
{
    ProjectSummary {
        node_types: keep_labelled(types),
        languages: keep_labelled(languages),
        edge_types: keep_labelled(edges),
    }
}

/// A summary has every row with a label, in the order of the rows, and no row
/// without one.
pub proof fn only_labelled_rows_are_summed_up(rows: Seq<(Seq<char>, i64)>, row: (Seq<char>, i64))
    ensures
        gather(rows.push(row), labelled()) == if row.0.len() == 0 {
            gather(rows, labelled())
        } else {
            gather(rows, labelled()).push(row)
        },
        gather(Seq::<(Seq<char>, i64)>::empty(), labelled()).len() == 0,
{
    assert(rows.push(row).drop_last() =~= rows);
}

} // verus!
