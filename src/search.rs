use vstd::prelude::*;
use crate::text::push_char;
use crate::trie::{behind, edges_words, prefixed, strings_view, TrieNode};

verus! {

/// The character that asks to go back one step instead of searching.
pub const UNDO: char = '*';

/// One rendered step of a match path: a character, and whether it matched the
/// query (as opposed to being skipped over).
#[derive(Clone, Copy, Debug, PartialEq, Eq, Structural)]
pub struct PathNode {
    pub val: char,
    pub in_query: bool,
}

/// A position of the frontier: a node reached so far, and the steps taken
/// from the root to reach it.
pub struct HistoryNode<'a> {
    pub node: &'a TrieNode,
    pub path: Vec<PathNode>,
}

/// A frontier position as a value: the node and the path to it.
pub type Hist = (TrieNode, Seq<PathNode>);

impl<'a> View for HistoryNode<'a> {
    type V = Hist;

    open spec fn view(&self) -> Hist {
        (*self.node, self.path@)
    }
}

/// The values of a run of frontier positions.
pub open spec fn hist_view<'a>(v: Seq<HistoryNode<'a>>) -> Seq<Hist> {
    v.map_values(|h: HistoryNode<'a>| h@)
}

/// Every node reachable below `node` by skipping any number of characters and
/// then matching `c` once, each with the steps that lead there from `node`.
pub open spec fn reach(node: TrieNode, c: char) -> Seq<Hist>
    decreases node,
{
    edges_reach(node.val@, c)
}

/// `reach` over a run of edges, edge by edge.
pub open spec fn edges_reach(edges: Seq<(char, TrieNode)>, c: char) -> Seq<Hist>
    decreases edges,
{
    if edges.len() == 0 {
        Seq::empty()
    } else {
        edges_reach(edges.drop_last(), c) + edge_reach(edges.last(), c)
    }
}

/// `reach` through one edge: the edge itself where its character is `c`,
/// else whatever lies below it, with the edge's character marked skipped.
pub open spec fn edge_reach(e: (char, TrieNode), c: char) -> Seq<Hist>
    decreases e,
{
    if e.0 == c {
        seq![(e.1, seq![PathNode { val: e.0, in_query: true }])]
    } else {
        after_skip(e.0, reach(e.1, c))
    }
}

/// Each position of `hs`, with `c` before its path as a skipped step.
pub open spec fn after_skip(c: char, hs: Seq<Hist>) -> Seq<Hist> {
    hs.map_values(|h: Hist| (h.0, seq![PathNode { val: c, in_query: false }] + h.1))
}

/// The positions that one frontier position leads to on `c`, with full paths.
pub open spec fn advance_one(h: Hist, c: char) -> Seq<Hist> {
    reach(h.0, c).map_values(|r: Hist| (r.0, h.1 + r.1))
}

/// The frontier that follows `f` on `c`: the positions that each of its
/// positions leads to, in order.
pub open spec fn advance(f: Seq<Hist>, c: char) -> Seq<Hist> {
    f.map_values(|h: Hist| advance_one(h, c)).flatten_alt()
}

/// The display form of one step.
pub open spec fn render_step(p: PathNode) -> Seq<char> {
    if p.in_query {
        seq!['-', p.val, '-']
    } else {
        seq![p.val]
    }
}

/// The display form of a path: matched characters between hyphens, skipped
/// ones as they are.
pub open spec fn render_path(p: Seq<PathNode>) -> Seq<char>
    decreases p.len(),
{
    if p.len() == 0 {
        Seq::empty()
    } else {
        render_path(p.drop_last()) + render_step(p.last())
    }
}

/// The completions of one frontier position: its rendered path followed by
/// each string stored below its node (the empty one where the node ends one).
pub open spec fn render_one(h: Hist) -> Seq<Seq<char>> {
    behind(render_path(h.1), h.0.words())
}

/// The completions of a frontier, position by position.
pub open spec fn render(f: Seq<Hist>) -> Seq<Seq<char>> {
    f.map_values(|h: Hist| render_one(h)).flatten_alt()
}

/// The history of a fresh session on `root`.
pub open spec fn initial_history(root: TrieNode) -> Seq<Seq<Hist>> {
    seq![seq![(root, Seq::<PathNode>::empty())]]
}

/// The history after the character `c`: one step back for `UNDO` (none at
/// the start), else the next frontier on top.
pub open spec fn next_history(h: Seq<Seq<Hist>>, c: char) -> Seq<Seq<Hist>> {
    if c == UNDO {
        if h.len() > 1 {
            h.drop_last()
        } else {
            h
        }
    } else {
        h.push(advance(h.last(), c))
    }
}

/// The history after each character of `cs` in turn.
pub open spec fn run_history(h: Seq<Seq<Hist>>, cs: Seq<char>) -> Seq<Seq<Hist>>
    decreases cs.len(),
{
    if cs.len() == 0 {
        h
    } else {
        next_history(run_history(h, cs.drop_last()), cs.last())
    }
}

/// A search session: characters narrow the frontier, `options` lists the
/// completions of the current one.
pub trait SearchEngine: Sized {
    /// The frontiers so far, the current one last.
    spec fn history(&self) -> Seq<Seq<Hist>>;

    /// Takes one character: `UNDO` goes back a step, any other narrows the
    /// frontier.
    fn query(&mut self, input: char)
        requires
            old(self).history().len() > 0,
        ensures
            final(self).history() == next_history(old(self).history(), input);

    /// The completions of the current frontier.
    fn options(&self) -> (r: Vec<String>)
        requires
            self.history().len() > 0,
        ensures
            strings_view(r@) == render(self.history().last());
}

/// The frontier positions reached from `node` on `target`.
pub fn traverse<'a>(node: &'a TrieNode, target: char) -> (r: Vec<HistoryNode<'a>>)
    ensures
        hist_view(r@) == reach(*node, target),
    decreases node,
{
    let mut paths: Vec<HistoryNode<'a>> = Vec::new();
    let mut i: usize = 0;
    while i < node.val.len()
        invariant
            i <= node.val@.len(),
            hist_view(paths@) == edges_reach(node.val@.take(i as int), target),
        decreases node.val@.len() - i,
    {
        let e = &node.val[i];
        let ghost start = hist_view(paths@);
        if e.0 == target {
            let mut p: Vec<PathNode> = Vec::new();
            p.push(PathNode { val: e.0, in_query: true });
            paths.push(HistoryNode { node: &e.1, path: p });
            assert(edge_reach(*e, target) == seq![(e.1, seq![PathNode { val: e.0, in_query: true }])]);
            assert(p@ =~= seq![PathNode { val: e.0, in_query: true }]);
            assert(hist_view(paths@) =~= start + edge_reach(*e, target));
        } else {
            let sub = traverse(&e.1, target);
            let ghost skip = PathNode { val: e.0, in_query: false };
            assert(edge_reach(*e, target) == after_skip(e.0, reach(e.1, target)));
            let mut j: usize = 0;
            while j < sub.len()
                invariant
                    j <= sub@.len(),
                    e.0 != target,
                    skip == (PathNode { val: e.0, in_query: false }),
                    edge_reach(*e, target) == after_skip(e.0, reach(e.1, target)),
                    hist_view(sub@) == reach(e.1, target),
                    hist_view(paths@) == start + edge_reach(*e, target).take(j as int),
                decreases sub@.len() - j,
            {
                let mut first: Vec<PathNode> = Vec::new();
                first.push(PathNode { val: e.0, in_query: false });
                assert(first@ =~= seq![skip]);
                let p = join_path(&first, &sub[j].path);
                assert(hist_view(sub@)[j as int] == sub@[j as int]@);
                assert(after_skip(e.0, reach(e.1, target))[j as int] == (*sub@[j as int].node, seq![skip] + sub@[j as int].path@));
                let ghost prev = paths@;
                paths.push(HistoryNode { node: sub[j].node, path: p });
                assert(paths@ == prev.push(HistoryNode { node: sub@[j as int].node, path: p }));
                assert(hist_view(paths@) =~= hist_view(prev).push((*sub@[j as int].node, p@)));
                assert(edge_reach(*e, target).take(j + 1) =~= edge_reach(*e, target).take(j as int).push(
                    (*sub@[j as int].node, p@)));
                assert(hist_view(paths@) =~= start + edge_reach(*e, target).take(j + 1));
                j = j + 1;
            }
            assert(hist_view(sub@).len() == sub@.len());
            let ghost hs = reach(e.1, target);
            proof { lemma_after_skip_len(e.0, hs); }
            assert(hs.len() == sub@.len());
            assert(edge_reach(*e, target).take(j as int) =~= edge_reach(*e, target));
        }
        assert(node.val@.take(i + 1).drop_last() =~= node.val@.take(i as int));
        i = i + 1;
    }
    assert(node.val@.take(i as int) =~= node.val@);
    paths
}

/// Marking a step skipped keeps the number of positions.
pub proof fn lemma_after_skip_len(c: char, hs: Seq<Hist>)
    ensures
        after_skip(c, hs).len() == hs.len(),
{
}

/// `a` followed by `b`.
fn join_path(a: &Vec<PathNode>, b: &Vec<PathNode>) -> (r: Vec<PathNode>)
    ensures
        r@ == a@ + b@,
{
    let mut r: Vec<PathNode> = Vec::new();
    let mut i: usize = 0;
    while i < a.len()
        invariant
            i <= a@.len(),
            r@ == a@.take(i as int),
        decreases a@.len() - i,
    {
        r.push(a[i]);
        assert(r@ =~= a@.take(i + 1));
        i = i + 1;
    }
    let mut j: usize = 0;
    while j < b.len()
        invariant
            i == a@.len(),
            j <= b@.len(),
            r@ == a@ + b@.take(j as int),
        decreases b@.len() - j,
    {
        r.push(b[j]);
        assert(r@ =~= a@ + b@.take(j + 1));
        j = j + 1;
    }
    assert(a@.take(i as int) =~= a@);
    assert(b@.take(j as int) =~= b@);
    r
}

/// The display form of `path`.
pub fn build_path(path: &Vec<PathNode>) -> (r: String)
    ensures
        r@ == render_path(path@),
{
    let mut acc = String::new();
    let mut i: usize = 0;
    while i < path.len()
        invariant
            i <= path@.len(),
            acc@ == render_path(path@.take(i as int)),
        decreases path@.len() - i,
    {
        let step = path[i];
        if step.in_query {
            push_char(&mut acc, '-');
            push_char(&mut acc, step.val);
            push_char(&mut acc, '-');
        } else {
            push_char(&mut acc, step.val);
        }
        assert(path@.take(i + 1).drop_last() =~= path@.take(i as int));
        assert(acc@ =~= render_path(path@.take(i + 1)));
        i = i + 1;
    }
    assert(path@.take(i as int) =~= path@);
    acc
}

/// Appends to `res` each string of `ws` behind `p`.
fn push_behind(res: &mut Vec<String>, p: &String, ws: &Vec<String>)
    ensures
        strings_view(final(res)@) == strings_view(old(res)@) + behind(p@, strings_view(ws@)),
{
    let ghost start = strings_view(res@);
    let mut j: usize = 0;
    while j < ws.len()
        invariant
            j <= ws@.len(),
            strings_view(res@) == start + behind(p@, strings_view(ws@)).take(j as int),
        decreases ws@.len() - j,
    {
        let mut s = p.clone();
        s.append(ws[j].as_str());
        let ghost prev = res@;
        res.push(s);
        assert(strings_view(res@) =~= strings_view(prev).push(s@));
        assert(behind(p@, strings_view(ws@)).take(j + 1) =~= behind(p@, strings_view(ws@)).take(j as int).push(s@));
        j = j + 1;
    }
    assert(behind(p@, strings_view(ws@)).take(j as int) =~= behind(p@, strings_view(ws@)));
}

/// Every string stored strictly below `node`: the completions that extend it.
pub fn expand(node: &TrieNode) -> (r: Vec<String>)
    ensures
        strings_view(r@) == edges_words(node.val@),
    decreases node,
{
    let mut res: Vec<String> = Vec::new();
    let mut i: usize = 0;
    assert(strings_view(res@) =~= edges_words(node.val@.take(0)));
    while i < node.val.len()
        invariant
            i <= node.val@.len(),
            strings_view(res@) == edges_words(node.val@.take(i as int)),
        decreases node.val@.len() - i,
    {
        let c = node.val[i].0;
        let child = &node.val[i].1;
        let ghost start = strings_view(res@);
        let mut cs = String::new();
        push_char(&mut cs, c);
        if child.end {
            res.push(cs.clone());
        }
        let ghost ends = if child.end { seq![Seq::<char>::empty()] } else { Seq::<Seq<char>>::empty() };
        assert(strings_view(res@) =~= start + behind(cs@, ends)) by {
            if child.end {
                assert(cs@ + Seq::<char>::empty() =~= cs@);
            }
        }
        let sub = expand(child);
        push_behind(&mut res, &cs, &sub);
        proof {
            let ws = child.words();
            assert(ws == ends + edges_words(child.val@));
            assert(cs@ =~= seq![c]);
            assert(prefixed(c, ws) =~= behind(cs@, ends) + behind(cs@, edges_words(child.val@)));
            assert(node.val@.take(i + 1).drop_last() =~= node.val@.take(i as int));
        }
        i = i + 1;
    }
    assert(node.val@.take(i as int) =~= node.val@);
    res
}

/// The completions of one frontier position.
pub fn render_node(h: &HistoryNode) -> (r: Vec<String>)
    ensures
        strings_view(r@) == render_one(h@),
{
    let p = build_path(&h.path);
    let mut res: Vec<String> = Vec::new();
    if h.node.end {
        res.push(p.clone());
    }
    let ghost ends = if h.node.end { seq![Seq::<char>::empty()] } else { Seq::<Seq<char>>::empty() };
    assert(strings_view(res@) =~= behind(p@, ends)) by {
        if h.node.end {
            assert(p@ + Seq::<char>::empty() =~= p@);
        }
    }
    let rest = expand(h.node);
    push_behind(&mut res, &p, &rest);
    assert(render_one(h@) =~= behind(p@, ends) + behind(p@, edges_words(h.node.val@)));
    res
}

/// The positions that one frontier position leads to on `input`.
pub fn advance_node<'a>(h: &HistoryNode<'a>, input: char) -> (r: Vec<HistoryNode<'a>>)
    ensures
        hist_view(r@) == advance_one(h@, input),
{
    let reached = traverse(h.node, input);
    let ghost target = advance_one(h@, input);
    let mut res: Vec<HistoryNode<'a>> = Vec::new();
    let mut j: usize = 0;
    while j < reached.len()
        invariant
            j <= reached@.len(),
            hist_view(reached@) == reach(*h.node, input),
            target == advance_one(h@, input),
            hist_view(res@) == target.take(j as int),
        decreases reached@.len() - j,
    {
        let p = join_path(&h.path, &reached[j].path);
        let ghost prev = res@;
        res.push(HistoryNode { node: reached[j].node, path: p });
        assert(hist_view(reached@)[j as int] == reached@[j as int]@);
        assert(hist_view(res@) =~= hist_view(prev).push((*reached@[j as int].node, p@)));
        assert(target.take(j + 1) =~= target.take(j as int).push((*reached@[j as int].node, p@)));
        j = j + 1;
    }
    assert(hist_view(reached@).len() == reached@.len());
    assert(target.take(j as int) =~= target);
    res
}

/// The frontier that follows `f` on `input`.
pub fn advance_frontier<'a>(f: &Vec<HistoryNode<'a>>, input: char) -> (r: Vec<HistoryNode<'a>>)
    ensures
        hist_view(r@) == advance(hist_view(f@), input),
{
    let mut res: Vec<HistoryNode<'a>> = Vec::new();
    let mut i: usize = 0;
    assert(hist_view(f@.take(0)).map_values(|h: Hist| advance_one(h, input)) =~= Seq::empty());
    while i < f.len()
        invariant
            i <= f@.len(),
            hist_view(res@) == advance(hist_view(f@.take(i as int)), input),
        decreases f@.len() - i,
    {
        let mut part = advance_node(&f[i], input);
        let ghost prev = res@;
        let ghost added = part@;
        res.append(&mut part);
        proof {
            let fi = hist_view(f@.take(i as int));
            let fj = hist_view(f@.take(i + 1));
            assert(fj =~= fi.push(f@[i as int]@));
            let m = fj.map_values(|h: Hist| advance_one(h, input));
            assert(m.drop_last() =~= fi.map_values(|h: Hist| advance_one(h, input)));
            assert(hist_view(res@) =~= hist_view(prev) + hist_view(added));
        }
        i = i + 1;
    }
    assert(f@.take(i as int) =~= f@);
    res
}

/// The completions of frontier `f`.
pub fn render_frontier(f: &Vec<HistoryNode>) -> (r: Vec<String>)
    ensures
        strings_view(r@) == render(hist_view(f@)),
{
    let mut res: Vec<String> = Vec::new();
    let mut i: usize = 0;
    assert(hist_view(f@.take(0)).map_values(|h: Hist| render_one(h)) =~= Seq::empty());
    while i < f.len()
        invariant
            i <= f@.len(),
            strings_view(res@) == render(hist_view(f@.take(i as int))),
        decreases f@.len() - i,
    {
        let mut part = render_node(&f[i]);
        let ghost prev = res@;
        let ghost added = part@;
        res.append(&mut part);
        proof {
            let fi = hist_view(f@.take(i as int));
            let fj = hist_view(f@.take(i + 1));
            assert(fj =~= fi.push(f@[i as int]@));
            let m = fj.map_values(|h: Hist| render_one(h));
            assert(m.drop_last() =~= fi.map_values(|h: Hist| render_one(h)));
            assert(strings_view(res@) =~= strings_view(prev) + strings_view(added));
        }
        i = i + 1;
    }
    assert(f@.take(i as int) =~= f@);
    res
}

/// The frontiers of a history, as values.
pub open spec fn history_view<'a>(h: Seq<Vec<HistoryNode<'a>>>) -> Seq<Seq<Hist>> {
    h.map_values(|f: Vec<HistoryNode<'a>>| hist_view(f@))
}

/// The values of frontier parts gathered position by position.
pub open spec fn parts_view<'a>(ps: Seq<Vec<HistoryNode<'a>>>) -> Seq<Seq<Hist>> {
    ps.map_values(|p: Vec<HistoryNode<'a>>| hist_view(p@))
}

/// The characters of string parts gathered position by position.
pub open spec fn string_parts_view(ps: Seq<Vec<String>>) -> Seq<Seq<Seq<char>>> {
    ps.map_values(|p: Vec<String>| strings_view(p@))
}

/// Parts that hold, position by position, what each position of `f` leads
/// to on `c`.
pub open spec fn parts_advance(ps: Seq<Seq<Hist>>, f: Seq<Hist>, c: char) -> bool {
    &&& ps.len() == f.len()
    &&& forall|i: int| 0 <= i < f.len() ==> #[trigger] ps[i] == advance_one(f[i], c)
}

/// Parts that hold, position by position, the completions of `f`.
pub open spec fn parts_render(ps: Seq<Seq<Seq<char>>>, f: Seq<Hist>) -> bool {
    &&& ps.len() == f.len()
    &&& forall|i: int| 0 <= i < f.len() ==> #[trigger] ps[i] == render_one(f[i])
}

/// Parts gathered position by position make up the next frontier.
pub proof fn lemma_gather_advance(ps: Seq<Seq<Hist>>, f: Seq<Hist>, c: char)
    requires
        parts_advance(ps, f, c),
    ensures
        ps.flatten_alt() == advance(f, c),
{
    assert(ps =~= f.map_values(|h: Hist| advance_one(h, c)));
}

/// Parts gathered position by position make up the completions.
pub proof fn lemma_gather_render(ps: Seq<Seq<Seq<char>>>, f: Seq<Hist>)
    requires
        parts_render(ps, f),
    ensures
        ps.flatten_alt() == render(f),
{
    assert(ps =~= f.map_values(|h: Hist| render_one(h)));
}

/// The parts one after another.
pub fn join_frontier<'a>(parts: Vec<Vec<HistoryNode<'a>>>) -> (r: Vec<HistoryNode<'a>>)
    ensures
        hist_view(r@) == parts_view(parts@).flatten_alt(),
{
    let ghost all = parts@;
    let mut parts = parts;
    let mut res: Vec<HistoryNode<'a>> = Vec::new();
    let mut k: usize = 0;
    assert(all.len() == parts.len());
    assert(parts_view(all.take(0)) =~= Seq::empty());
    while parts.len() > 0
        invariant
            all.len() <= usize::MAX,
            k + parts@.len() == all.len(),
            parts@ == all.skip(k as int),
            hist_view(res@) == parts_view(all.take(k as int)).flatten_alt(),
        decreases parts@.len(),
    {
        let mut p = parts.remove(0);
        let ghost added = p@;
        let ghost prev = res@;
        res.append(&mut p);
        proof {
            assert(added == all[k as int]@);
            assert(parts_view(all.take(k + 1)).drop_last() =~= parts_view(all.take(k as int)));
            assert(hist_view(res@) =~= hist_view(prev) + hist_view(added));
            assert(parts@ =~= all.skip(k + 1));
        }
        k = k + 1;
    }
    assert(all.take(k as int) =~= all);
    res
}

/// The string parts one after another.
pub fn join_strings(parts: Vec<Vec<String>>) -> (r: Vec<String>)
    ensures
        strings_view(r@) == string_parts_view(parts@).flatten_alt(),
{
    let ghost all = parts@;
    let mut parts = parts;
    let mut res: Vec<String> = Vec::new();
    let mut k: usize = 0;
    assert(all.len() == parts.len());
    assert(string_parts_view(all.take(0)) =~= Seq::empty());
    while parts.len() > 0
        invariant
            all.len() <= usize::MAX,
            k + parts@.len() == all.len(),
            parts@ == all.skip(k as int),
            strings_view(res@) == string_parts_view(all.take(k as int)).flatten_alt(),
        decreases parts@.len(),
    {
        let mut p = parts.remove(0);
        let ghost added = p@;
        let ghost prev = res@;
        res.append(&mut p);
        proof {
            assert(added == all[k as int]@);
            assert(string_parts_view(all.take(k + 1)).drop_last() =~= string_parts_view(all.take(k as int)));
            assert(strings_view(res@) =~= strings_view(prev) + strings_view(added));
            assert(parts@ =~= all.skip(k + 1));
        }
        k = k + 1;
    }
    assert(all.take(k as int) =~= all);
    res
}

} // verus!
