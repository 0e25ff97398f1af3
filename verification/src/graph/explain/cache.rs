//! Remembering a project's graph between checks.

use std::sync::Arc;

use vstd::prelude::*;

use crate::graph::explain::opt_text;
use crate::graph::explain::rows::ExplainGraph;
use crate::text::same_text;

verus! {

fn same_mark(a: &Option<String>, b: &Option<String>) -> (r: bool)
    ensures
        r == (opt_text(*a) == opt_text(*b)),
{
    match (a, b) {
        (Some(x), Some(y)) => same_text(x.as_str(), y.as_str()),
        (None, None) => true,
        _ => false,
    }
}

/// Is a graph worth remembering that was loaded between two readings of the
/// index's watermark? Only where no index run completed in between.
pub fn should_cache(before: &Option<String>, after: &Option<String>) -> (r: bool)
    ensures
        r == (opt_text(*before) == opt_text(*after)),
{
    same_mark(before, after)
}

/// What a cache holds after it took note of a graph that was loaded between two
/// readings of the watermark: the graph, where the readings agree; otherwise
/// what it held before.
pub open spec fn noted(
    held: Option<(Option<Seq<char>>, ExplainGraph)>,
    before: Option<Seq<char>>,
    after: Option<Seq<char>>,
    graph: ExplainGraph,
) -> Option<(Option<Seq<char>>, ExplainGraph)> {
    if before == after {
        Some((after, graph))
    } else {
        held
    }
}

/// What a cache hands out at a reading of the watermark: the graph that it
/// holds, if that was loaded at the same reading.
pub open spec fn offered(held: Option<(Option<Seq<char>>, ExplainGraph)>, watermark: Option<Seq<char>>) -> Option<
    ExplainGraph,
> {
    match held {
        Some(entry) => if entry.0 == watermark {
            Some(entry.1)
        } else {
            None
        },
        None => None,
    }
}

/// One project's graph, with the watermark of the index that it was loaded from.
pub struct ExplainGraphCache {
    project_id: String,
    entry: Option<(Option<String>, Arc<ExplainGraph>)>,
}

impl ExplainGraphCache {
    pub closed spec fn project(&self) -> Seq<char> {
        self.project_id@
    }

    /// What is remembered: the watermark and the graph.
    pub closed spec fn remembered(&self) -> Option<(Option<Seq<char>>, ExplainGraph)> {
        match self.entry {
            Some(e) => Some((opt_text(e.0), *e.1)),
            None => None,
        }
    }

    pub fn new(project_id: String) -> (r: Self)
        ensures
            r.project() == project_id@,
            r.remembered() is None,
    {
        ExplainGraphCache { project_id, entry: None }
    }

    /// The project whose graph is remembered.
    pub fn project_id(&self) -> (r: &str)
        ensures
            r@ == self.project(),
    {
        self.project_id.as_str()
    }

    /// The remembered graph, if the index has not moved since it was loaded.
    pub fn get(&self, watermark: &Option<String>) -> (r: Option<Arc<ExplainGraph>>)
        ensures
            match r {
                Some(graph) => offered(self.remembered(), opt_text(*watermark)) == Some(*graph),
                None => offered(self.remembered(), opt_text(*watermark)) is None,
            },
    {
        match &self.entry {
            Some(e) => if same_mark(&e.0, watermark) {
                Some(Arc::clone(&e.1))
            } else {
                None
            },
            None => None,
        }
    }

    /// Takes note of a graph that was loaded between two readings of the
    /// watermark. It is remembered only where the readings agree; otherwise what
    /// was remembered stays.
    pub fn loaded(&mut self, before: Option<String>, after: Option<String>, graph: Arc<ExplainGraph>)
        ensures
            final(self).project() == old(self).project(),
            final(self).remembered() == noted(old(self).remembered(), opt_text(before), opt_text(after), *graph),
    {
        if should_cache(&before, &after) {
            self.entry = Some((after, graph));
        }
    }
}

/// A graph loaded while the index stood still is handed out from then on for as
/// long as the index does not move, and for no longer; a graph loaded while the
/// index moved is never handed out, and changes nothing.
pub proof fn a_remembered_graph_is_current(
    held: Option<(Option<Seq<char>>, ExplainGraph)>,
    before: Option<Seq<char>>,
    after: Option<Seq<char>>,
    graph: ExplainGraph,
    later: Option<Seq<char>>,
)
    ensures
        before == after ==> offered(noted(held, before, after, graph), later) == (if later == after {
            Some(graph)
        } else {
            None
        }),
        before != after ==> offered(noted(held, before, after, graph), later) == offered(held, later),
{
}

} // verus!
