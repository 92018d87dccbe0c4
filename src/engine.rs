use vstd::prelude::*;
use crate::search::{
    advance, advance_frontier, history_view, initial_history, render_frontier, Hist, HistoryNode,
    PathNode, SearchEngine, UNDO,
};
use crate::trie::{SearchTrie, TrieNode};

verus! {

/// A session that works through the frontier on the calling thread.
pub struct Engine<'a> {
    history: Vec<Vec<HistoryNode<'a>>>,
}

impl<'a> Engine<'a> {
    /// A fresh session on the trie below `root`.
    pub fn new(root: &'a TrieNode) -> (r: Self)
        ensures
            r.history() == initial_history(*root),
    {
        let mut first: Vec<HistoryNode<'a>> = Vec::new();
        first.push(HistoryNode { node: root, path: Vec::new() });
        let mut history: Vec<Vec<HistoryNode<'a>>> = Vec::new();
        history.push(first);
        let r = Engine { history };
        assert(r.history() =~= initial_history(*root)) by {
            assert(history_view(r.history@)[0] =~= seq![(*root, Seq::<PathNode>::empty())]);
        }
        r
    }
}

impl<'a> SearchEngine for Engine<'a> {
    closed spec fn history(&self) -> Seq<Seq<Hist>> {
        history_view(self.history@)
    }

    fn query(&mut self, input: char) {
        if input == UNDO {
            if self.history.len() > 1 {
                self.history.pop();
                assert(history_view(self.history@) =~= history_view(old(self).history@).drop_last());
            }
            return;
        }
        let next = advance_frontier(&self.history[self.history.len() - 1], input);
        self.history.push(next);
        assert(history_view(self.history@) =~= history_view(old(self).history@).push(
            advance(history_view(old(self).history@).last(), input),
        ));
    }

    fn options(&self) -> (r: Vec<String>) {
        render_frontier(&self.history[self.history.len() - 1])
    }
}

impl SearchTrie {
    /// A session that searches on the calling thread.
    pub fn engine(&self) -> (r: Engine<'_>)
        ensures
            r.history() == initial_history(self.spec_root()),
    {
        Engine::new(self.root())
    }
}

} // verus!
