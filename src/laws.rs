use vstd::prelude::*;
use crate::search::{
    advance, advance_one, edge_reach, lemma_after_skip_len, edges_reach, initial_history, next_history, reach, render,
    render_one, run_history, Hist, UNDO,
};
use crate::trie::TrieNode;

verus! {

/// Going back at the start of a session changes nothing.
pub proof fn lemma_undo_at_start(h: Seq<Seq<Hist>>)
    requires
        h.len() == 1,
    ensures
        next_history(h, UNDO) == h,
{
}

/// Going back right after a character returns to the history before it.
pub proof fn lemma_undo_inverse(h: Seq<Seq<Hist>>, c: char)
    requires
        h.len() > 0,
        c != UNDO,
    ensures
        next_history(next_history(h, c), UNDO) == h,
{
    assert(h.push(advance(h.last(), c)).drop_last() =~= h);
}

/// A session on `root` that has taken the characters `cs`, whatever its kind,
/// stands at one history: it always holds the initial frontier at the
/// bottom, and each further character moves it by `next_history` alone. So
/// two sessions of any kinds on the same trie, fed the same characters, list
/// the same completions, `render` of the top frontier, after every prefix.
pub proof fn lemma_one_history(root: TrieNode, cs: Seq<char>)
    ensures
        run_history(initial_history(root), cs).len() >= 1,
        run_history(initial_history(root), cs)[0] == initial_history(root)[0],
        forall|c: char| #[trigger] run_history(initial_history(root), cs.push(c))
            == next_history(run_history(initial_history(root), cs), c),
    decreases cs.len(),
{
    if cs.len() > 0 {
        lemma_one_history(root, cs.drop_last());
    }
    assert forall|c: char| #[trigger] run_history(initial_history(root), cs.push(c))
        == next_history(run_history(initial_history(root), cs), c) by {
        assert(cs.push(c).drop_last() =~= cs);
    }
}

/// Whether `c` labels some edge below `node`.
pub open spec fn mentions(node: TrieNode, c: char) -> bool
    decreases node,
{
    edges_mention(node.val@, c)
}

/// Whether `c` labels one of `edges` or some edge below them.
pub open spec fn edges_mention(edges: Seq<(char, TrieNode)>, c: char) -> bool
    decreases edges,
{
    if edges.len() == 0 {
        false
    } else {
        edges_mention(edges.drop_last(), c) || edges.last().0 == c || mentions(edges.last().1, c)
    }
}

proof fn lemma_reach_absent(node: TrieNode, c: char)
    requires
        !mentions(node, c),
    ensures
        reach(node, c).len() == 0,
    decreases node,
{
    lemma_edges_reach_absent(node.val@, c);
}

proof fn lemma_edges_reach_absent(edges: Seq<(char, TrieNode)>, c: char)
    requires
        !edges_mention(edges, c),
    ensures
        edges_reach(edges, c).len() == 0,
    decreases edges,
{
    if edges.len() > 0 {
        lemma_edges_reach_absent(edges.drop_last(), c);
        lemma_reach_absent(edges.last().1, c);
        lemma_after_skip_len(edges.last().0, reach(edges.last().1, c));
        assert(edge_reach(edges.last(), c).len() == 0);
    }
}

/// A character that labels no edge below any position of the frontier
/// leaves an empty frontier, which has no completions.
pub proof fn lemma_absent_character(f: Seq<Hist>, c: char)
    requires
        forall|i: int| 0 <= i < f.len() ==> !mentions(#[trigger] f[i].0, c),
    ensures
        advance(f, c) == Seq::<Hist>::empty(),
        render(advance(f, c)) == Seq::<Seq<char>>::empty(),
    decreases f.len(),
{
    if f.len() > 0 {
        let init = f.drop_last();
        assert forall|i: int| 0 <= i < init.len() implies !mentions(#[trigger] init[i].0, c) by {
            assert(init[i] == f[i]);
        }
        lemma_absent_character(init, c);
        lemma_reach_absent(f.last().0, c);
        let m = f.map_values(|h: Hist| advance_one(h, c));
        assert(m.drop_last() =~= init.map_values(|h: Hist| advance_one(h, c)));
        assert(advance_one(f.last(), c) =~= Seq::<Hist>::empty());
        assert(advance(f, c) =~= Seq::<Hist>::empty());
    }
    assert(Seq::<Hist>::empty().map_values(|h: Hist| render_one(h)) =~= Seq::empty());
}

} // verus!
