use vstd::prelude::*;
use threadpool::ThreadPool;
use crate::search::{
    advance_node, advance_one, hist_view, history_view, initial_history, join_frontier,
    join_strings, lemma_gather_advance, lemma_gather_render, parts_view, render_node, render_one,
    string_parts_view, Hist, HistoryNode, PathNode, SearchEngine, UNDO,
};
use crate::trie::{strings_view, SearchTrie, TrieNode};

verus! {

#[verifier::external_type_specification]
#[verifier::external_body]
pub struct ExThreadPool(ThreadPool);

/// Relies on `threadpool::ThreadPool::new`, which starts a pool of
/// `num_threads` workers and panics when `num_threads` is zero.
pub assume_specification[ ThreadPool::new ](num_threads: usize) -> ThreadPool
    requires
        num_threads > 0,
;

/// Relies on `threadpool_scope::scope_with`, which returns only after every job
/// handed to its scope has run, and on `Scope::execute`, which runs each job
/// once on the pool: slot `i` ends up holding what `advance_node` gives for
/// position `i`.
#[verifier::external_body]
fn pool_advance<'a>(pool: &ThreadPool, f: &Vec<HistoryNode<'a>>, input: char, slots: &mut Vec<Vec<HistoryNode<'a>>>)
    requires
        old(slots)@.len() == f@.len(),
    ensures
        final(slots)@.len() == f@.len(),
        forall|i: int| 0 <= i < f@.len() ==> #[trigger] hist_view(final(slots)@[i]@) == advance_one(f@[i]@, input),
{
    threadpool_scope::scope_with(pool, |s| {
        for (h, slot) in f.iter().zip(slots.iter_mut()) {
            s.execute(move || *slot = advance_node(h, input));
        }
    });
}

/// Relies on `threadpool_scope::scope_with` and `Scope::execute` as above:
/// slot `i` ends up holding what `render_node` gives for position `i`.
#[verifier::external_body]
fn pool_render(pool: &ThreadPool, f: &Vec<HistoryNode>, slots: &mut Vec<Vec<String>>)
    requires
        old(slots)@.len() == f@.len(),
    ensures
        final(slots)@.len() == f@.len(),
        forall|i: int| 0 <= i < f@.len() ==> #[trigger] strings_view(final(slots)@[i]@) == render_one(f@[i]@),
{
    threadpool_scope::scope_with(pool, |s| {
        for (h, slot) in f.iter().zip(slots.iter_mut()) {
            s.execute(move || *slot = render_node(h));
        }
    });
}

/// `n` empty vectors.
fn empty_slots<T>(n: usize) -> (r: Vec<Vec<T>>)
    ensures
        r@.len() == n,
{
    let mut r: Vec<Vec<T>> = Vec::new();
    let mut i: usize = 0;
    while i < n
        invariant
            i <= n,
            r@.len() == i,
        decreases n - i,
    {
        r.push(Vec::new());
        i = i + 1;
    }
    r
}

/// Why an engine could not be built.
#[derive(Clone, Copy, Debug, PartialEq, Eq, Structural)]
pub enum EngineError {
    /// A worker pool was asked for with no workers.
    NoWorkers,
}

/// A session that hands the positions of each frontier out to a pool of
/// workers kept for its whole life.
pub struct TPEngine<'a> {
    history: Vec<Vec<HistoryNode<'a>>>,
    threads: ThreadPool,
}

impl<'a> TPEngine<'a> {
    /// A fresh session on the trie below `root`, with a pool of
    /// `thread_count` workers; none at all is refused.
    pub fn new(root: &'a TrieNode, thread_count: usize) -> (r: Result<Self, EngineError>)
        ensures
            thread_count == 0 <==> r is Err,
            r matches Err(e) ==> e == EngineError::NoWorkers,
            r matches Ok(t) ==> t.history() == initial_history(*root),
    {
        if thread_count == 0 {
            return Err(EngineError::NoWorkers);
        }
        let mut first: Vec<HistoryNode<'a>> = Vec::new();
        first.push(HistoryNode { node: root, path: Vec::new() });
        let mut history: Vec<Vec<HistoryNode<'a>>> = Vec::new();
        history.push(first);
        let r = TPEngine { history, threads: ThreadPool::new(thread_count) };
        assert(r.history() =~= initial_history(*root)) by {
            assert(history_view(r.history@)[0] =~= seq![(*root, Seq::<PathNode>::empty())]);
        }
        Ok(r)
    }
}

impl<'a> SearchEngine for TPEngine<'a> {
    closed spec fn history(&self) -> Seq<Seq<Hist>> {
        history_view(self.history@)
    }

    fn query(&mut self, input: char) {
        if input == UNDO {
            if self.history.len() > 1 {
                self.history.pop();
                assert(history_view(self.history@) =~= history_view(old(self).history@).drop_last());
            }
            return;
        }
        let top = &self.history[self.history.len() - 1];
        let mut slots = empty_slots(top.len());
        pool_advance(&self.threads, top, input, &mut slots);
        proof {
            let f = hist_view(top@);
            assert forall|i: int| 0 <= i < f.len() implies #[trigger] parts_view(slots@)[i] == advance_one(f[i], input) by {
                assert(hist_view(slots@[i]@) == advance_one(top@[i]@, input));
            }
            lemma_gather_advance(parts_view(slots@), f, input);
        }
        let next = join_frontier(slots);
        self.history.push(next);
        assert(history_view(self.history@) =~= history_view(old(self).history@).push(
            crate::search::advance(history_view(old(self).history@).last(), input),
        ));
    }

    fn options(&self) -> (r: Vec<String>) {
        let top = &self.history[self.history.len() - 1];
        let mut slots = empty_slots(top.len());
        pool_render(&self.threads, top, &mut slots);
        proof {
            let f = hist_view(top@);
            assert forall|i: int| 0 <= i < f.len() implies #[trigger] string_parts_view(slots@)[i] == render_one(f[i]) by {
                assert(strings_view(slots@[i]@) == render_one(top@[i]@));
            }
            lemma_gather_render(string_parts_view(slots@), f);
        }
        join_strings(slots)
    }
}

impl SearchTrie {
    /// A session backed by a pool of `thread_count` workers; none at all is
    /// refused.
    pub fn tp_engine(&self, thread_count: usize) -> (r: Result<TPEngine<'_>, EngineError>)
        ensures
            thread_count == 0 <==> r is Err,
            r matches Err(e) ==> e == EngineError::NoWorkers,
            r matches Ok(t) ==> t.history() == initial_history(self.spec_root()),
    {
        TPEngine::new(self.root(), thread_count)
    }
}

} // verus!
