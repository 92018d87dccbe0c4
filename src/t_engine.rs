use vstd::prelude::*;
use crate::search::{
    hist_view, history_view, initial_history, join_frontier, join_strings,
    lemma_gather_advance, lemma_gather_render, next_history, parts_advance, parts_render,
    parts_view, render, string_parts_view, Hist, HistoryNode, PathNode, UNDO,
};
use crate::trie::{strings_view, SearchTrie, TrieNode};

verus! {

/// A session whose callers work through each frontier on threads of their
/// own, one per position, and hand back what each position gave: the work for
/// one position is `advance_node` (for a query) or `render_node` (for the
/// options), and the session gathers the parts in position order.
pub struct TEngine<'a> {
    history: Vec<Vec<HistoryNode<'a>>>,
}

impl<'a> TEngine<'a> {
    /// The frontiers so far, the current one last.
    pub closed spec fn history(&self) -> Seq<Seq<Hist>> {
        history_view(self.history@)
    }

    /// A fresh session on the trie below `root`.
    pub fn new(root: &'a TrieNode) -> (r: Self)
        ensures
            r.history() == initial_history(*root),
    {
        let mut first: Vec<HistoryNode<'a>> = Vec::new();
        first.push(HistoryNode { node: root, path: Vec::new() });
        let mut history: Vec<Vec<HistoryNode<'a>>> = Vec::new();
        history.push(first);
        let r = TEngine { history };
        assert(r.history() =~= initial_history(*root)) by {
            assert(history_view(r.history@)[0] =~= seq![(*root, Seq::<PathNode>::empty())]);
        }
        r
    }

    /// The current frontier, whose positions are to be handed out.
    pub fn frontier(&self) -> (r: &Vec<HistoryNode<'a>>)
        requires
            self.history().len() > 0,
        ensures
            hist_view(r@) == self.history().last(),
    {
        &self.history[self.history.len() - 1]
    }

    /// Takes one character, with `parts` holding, position by position, what
    /// each position of the current frontier led to on it. `UNDO` goes back a
    /// step and leaves `parts` unread; any other character puts the parts,
    /// one after another, on top as the new frontier.
    pub fn query(&mut self, input: char, parts: Vec<Vec<HistoryNode<'a>>>)
        requires
            old(self).history().len() > 0,
        ensures
            input == UNDO ==> final(self).history() == next_history(old(self).history(), input),
            input != UNDO ==> final(self).history() == old(self).history().push(parts_view(parts@).flatten_alt()),
            parts_advance(parts_view(parts@), old(self).history().last(), input)
                ==> final(self).history() == next_history(old(self).history(), input),
    {
        if input == UNDO {
            if self.history.len() > 1 {
                self.history.pop();
                assert(history_view(self.history@) =~= history_view(old(self).history@).drop_last());
            }
            return;
        }
        proof {
            if parts_advance(parts_view(parts@), self.history().last(), input) {
                lemma_gather_advance(parts_view(parts@), self.history().last(), input);
            }
        }
        let ghost gathered = parts_view(parts@).flatten_alt();
        let next = join_frontier(parts);
        self.history.push(next);
        assert(history_view(self.history@) =~= history_view(old(self).history@).push(gathered));
    }

    /// The completions, from `parts` holding, position by position, those of
    /// each position of the current frontier: the parts one after another.
    pub fn options(&self, parts: Vec<Vec<String>>) -> (r: Vec<String>)
        requires
            self.history().len() > 0,
        ensures
            strings_view(r@) == string_parts_view(parts@).flatten_alt(),
            parts_render(string_parts_view(parts@), self.history().last())
                ==> strings_view(r@) == render(self.history().last()),
    {
        proof {
            if parts_render(string_parts_view(parts@), self.history().last()) {
                lemma_gather_render(string_parts_view(parts@), self.history().last());
            }
        }
        join_strings(parts)
    }
}

impl SearchTrie {
    /// A session whose callers spread each frontier over threads of their own.
    pub fn t_engine(&self) -> (r: TEngine<'_>)
        ensures
            r.history() == initial_history(self.spec_root()),
    {
        TEngine::new(self.root())
    }
}

} // verus!
