use vstd::prelude::*;
use crate::text::{char_vec, push_char};

verus! {

/// One character position of the vocabulary. Each edge of `val` holds the
/// character that leads to a child and the child itself; no two edges of a
/// node share a character.
pub struct TrieNode {
    pub ref_count: u32,
    pub val: Vec<(char, TrieNode)>,
    pub end: bool,
}

/// No two edges carry the same character.
pub open spec fn keys_unique(edges: Seq<(char, TrieNode)>) -> bool {
    forall|i: int, j: int|
        0 <= i < edges.len() && 0 <= j < edges.len() && i != j ==> edges[i].0 != edges[j].0
}

impl TrieNode {
    /// Whether the string `w` is stored below this node.
    pub open spec fn has(self, w: Seq<char>) -> bool
        decreases w.len(),
    {
        if w.len() == 0 {
            self.end
        } else {
            exists|i: int|
                0 <= i < self.val@.len() && #[trigger] self.val@[i].0 == w[0]
                    && self.val@[i].1.has(w.drop_first())
        }
    }

    /// The strings stored below this node, depth first: the empty string
    /// first where the node ends one, then those of each edge in turn.
    pub open spec fn words(self) -> Seq<Seq<char>>
        decreases self,
    {
        (if self.end { seq![Seq::<char>::empty()] } else { Seq::empty() }) + edges_words(self.val@)
    }

    /// Number of stored strings below this node (its own end included).
    pub open spec fn count(self) -> nat
        decreases self,
    {
        (if self.end { 1nat } else { 0nat }) + edges_count(self.val@)
    }

    /// The node's own structure: unique edge characters, and every child counts
    /// exactly the strings that pass through it, at least one.
    pub open spec fn wf(self) -> bool
        decreases self,
    {
        &&& keys_unique(self.val@)
        &&& forall|i: int|
            0 <= i < self.val@.len() ==> {
                let ch = #[trigger] self.val@[i].1;
                &&& ch.ref_count as nat == ch.count()
                &&& ch.count() > 0
                &&& ch.wf()
            }
    }

    /// An empty node, stored nowhere yet.
    pub fn new() -> (r: Self)
        ensures
            r.val@.len() == 0,
            !r.end,
            r.ref_count == 0,
    {
        TrieNode { ref_count: 0, val: Vec::new(), end: false }
    }

    /// How many stored strings pass through this node.
    pub fn ref_count(&self) -> (r: u32)
        ensures
            r == self.ref_count,
    {
        self.ref_count
    }
}

/// The strings stored below a run of edges, depth first, edge by edge.
pub open spec fn edges_words(edges: Seq<(char, TrieNode)>) -> Seq<Seq<char>>
    decreases edges,
{
    if edges.len() == 0 {
        Seq::empty()
    } else {
        edges_words(edges.drop_last()) + prefixed(edges.last().0, edges.last().1.words())
    }
}

/// Each string of `ws`, behind the character `c`.
pub open spec fn prefixed(c: char, ws: Seq<Seq<char>>) -> Seq<Seq<char>> {
    ws.map_values(|w: Seq<char>| seq![c] + w)
}

/// Each string of `ws`, behind the string `p`.
pub open spec fn behind(p: Seq<char>, ws: Seq<Seq<char>>) -> Seq<Seq<char>> {
    ws.map_values(|w: Seq<char>| p + w)
}

/// The characters of each string.
pub open spec fn strings_view(v: Seq<String>) -> Seq<Seq<char>> {
    v.map_values(|s: String| s@)
}

/// Number of stored strings below a run of edges.
pub open spec fn edges_count(edges: Seq<(char, TrieNode)>) -> nat
    decreases edges,
{
    if edges.len() == 0 {
        0
    } else {
        edges_count(edges.drop_last()) + edges.last().1.count()
    }
}


/// The edges of `edges` count at least as many strings as any one child.
proof fn lemma_edge_count_le(edges: Seq<(char, TrieNode)>, i: int)
    requires
        0 <= i < edges.len(),
    ensures
        edges[i].1.count() <= edges_count(edges),
    decreases edges.len(),
{
    if i < edges.len() - 1 {
        lemma_edge_count_le(edges.drop_last(), i);
    }
}

/// Replacing one child by `e` changes the count by the difference of theirs.
proof fn lemma_edge_count_update(edges: Seq<(char, TrieNode)>, k: int, e: (char, TrieNode))
    requires
        0 <= k < edges.len(),
    ensures
        edges_count(edges.update(k, e)) + edges[k].1.count() == edges_count(edges) + e.1.count(),
    decreases edges.len(),
{
    let u = edges.update(k, e);
    if k < edges.len() - 1 {
        assert(u.drop_last() =~= edges.drop_last().update(k, e));
        lemma_edge_count_update(edges.drop_last(), k, e);
    } else {
        assert(u.drop_last() =~= edges.drop_last());
    }
}

/// Membership depends on the edges and the end mark alone.
proof fn lemma_has_same_shape(a: TrieNode, b: TrieNode, v: Seq<char>)
    requires
        a.val@ == b.val@,
        a.end == b.end,
    ensures
        a.has(v) == b.has(v),
{
    if v.len() > 0 {
        if a.has(v) {
            let j = choose|j: int| 0 <= j < a.val@.len() && #[trigger] a.val@[j].0 == v[0]
                && a.val@[j].1.has(v.drop_first());
            assert(b.val@[j] == a.val@[j]);
        }
        if b.has(v) {
            let j = choose|j: int| 0 <= j < b.val@.len() && #[trigger] b.val@[j].0 == v[0]
                && b.val@[j].1.has(v.drop_first());
            assert(b.val@[j] == a.val@[j]);
        }
    }
}

/// A string listed below `c` is `c` followed by one listed in `ws`.
proof fn lemma_prefixed_contains(c: char, ws: Seq<Seq<char>>, w: Seq<char>)
    ensures
        prefixed(c, ws).contains(w) <==> (w.len() > 0 && w[0] == c && ws.contains(w.drop_first())),
{
    if prefixed(c, ws).contains(w) {
        let m = choose|m: int| 0 <= m < prefixed(c, ws).len() && prefixed(c, ws)[m] == w;
        assert(w.drop_first() =~= ws[m]);
    }
    if w.len() > 0 && w[0] == c && ws.contains(w.drop_first()) {
        let m = choose|m: int| 0 <= m < ws.len() && ws[m] == w.drop_first();
        assert(prefixed(c, ws)[m] =~= w);
    }
}

/// What the edges list: strings that start with the character of an edge and
/// go on with one listed below it.
proof fn lemma_edges_words_contains(edges: Seq<(char, TrieNode)>, w: Seq<char>)
    ensures
        edges_words(edges).contains(w) <==> (w.len() > 0 && exists|i: int|
            0 <= i < edges.len() && #[trigger] edges[i].0 == w[0] && edges[i].1.words().contains(w.drop_first())),
    decreases edges.len(),
{
    if edges.len() > 0 {
        let init = edges.drop_last();
        let e = edges.last();
        lemma_edges_words_contains(init, w);
        lemma_prefixed_contains(e.0, e.1.words(), w);
        let a = edges_words(init);
        let b = prefixed(e.0, e.1.words());
        assert(edges_words(edges) == a + b);
        if (a + b).contains(w) {
            let m = choose|m: int| 0 <= m < (a + b).len() && (a + b)[m] == w;
            if m < a.len() {
                assert(a.contains(w));
                let i = choose|i: int| 0 <= i < init.len() && #[trigger] init[i].0 == w[0] && init[i].1.words().contains(w.drop_first());
                assert(edges[i] == init[i]);
            } else {
                assert(b[m - a.len()] == w);
                assert(b.contains(w));
                assert(edges[edges.len() - 1].0 == w[0]);
            }
        }
        if w.len() > 0 && exists|i: int|
            0 <= i < edges.len() && #[trigger] edges[i].0 == w[0] && edges[i].1.words().contains(w.drop_first()) {
            let i = choose|i: int|
                0 <= i < edges.len() && #[trigger] edges[i].0 == w[0] && edges[i].1.words().contains(w.drop_first());
            if i < edges.len() - 1 {
                assert(init[i] == edges[i]);
                assert(a.contains(w));
                let m = choose|m: int| 0 <= m < a.len() && a[m] == w;
                assert((a + b)[m] == w);
            } else {
                assert(b.contains(w));
                let m = choose|m: int| 0 <= m < b.len() && b[m] == w;
                assert((a + b)[a.len() + m] == w);
            }
        }
    }
}

/// A node lists exactly the strings it stores.
pub proof fn lemma_words_has(node: TrieNode, w: Seq<char>)
    ensures
        node.words().contains(w) <==> node.has(w),
    decreases w.len(),
{
    let ends = if node.end { seq![Seq::<char>::empty()] } else { Seq::<Seq<char>>::empty() };
    let rest = edges_words(node.val@);
    assert(node.words() == ends + rest);
    lemma_edges_words_contains(node.val@, w);
    if w.len() > 0 {
        assert forall|i: int| 0 <= i < node.val@.len() implies
            (node.val@[i].1.words().contains(w.drop_first()) <==> node.val@[i].1.has(w.drop_first())) by {
            lemma_words_has(node.val@[i].1, w.drop_first());
        }
        if (ends + rest).contains(w) {
            let m = choose|m: int| 0 <= m < (ends + rest).len() && (ends + rest)[m] == w;
            if m < ends.len() {
                assert(false);
            }
            assert(rest[m - ends.len()] == w);
            assert(rest.contains(w));
        }
        if rest.contains(w) {
            let m = choose|m: int| 0 <= m < rest.len() && rest[m] == w;
            assert((ends + rest)[ends.len() + m] == w);
        }
    } else {
        if node.end {
            assert((ends + rest)[0] =~= w);
        }
        if (ends + rest).contains(w) {
            let m = choose|m: int| 0 <= m < (ends + rest).len() && (ends + rest)[m] == w;
            if m >= ends.len() {
                assert(rest[m - ends.len()] == w);
                assert(rest.contains(w));
            }
        }
    }
}

/// Two runs without repeats and with nothing in common make one.
proof fn lemma_concat_unique(a: Seq<Seq<char>>, b: Seq<Seq<char>>)
    requires
        a.no_duplicates(),
        b.no_duplicates(),
        forall|x: Seq<char>| a.contains(x) ==> !b.contains(x),
    ensures
        (a + b).no_duplicates(),
{
    let ab = a + b;
    assert forall|i: int, j: int| 0 <= i < ab.len() && 0 <= j < ab.len() && i != j implies ab[i] != ab[j] by {
        if i < a.len() && j >= a.len() {
            assert(a.contains(ab[i]));
            assert(b[j - a.len()] == ab[j]);
        } else if j < a.len() && i >= a.len() {
            assert(a.contains(ab[j]));
            assert(b[i - a.len()] == ab[i]);
        } else if i >= a.len() {
            assert(b[i - a.len()] == ab[i]);
            assert(b[j - a.len()] == ab[j]);
        }
    }
}

/// A node whose edges carry distinct characters, all the way down, lists
/// each stored string once.
pub proof fn lemma_words_unique(node: TrieNode)
    requires
        node.wf(),
    ensures
        node.words().no_duplicates(),
    decreases node,
{
    let ends = if node.end { seq![Seq::<char>::empty()] } else { Seq::<Seq<char>>::empty() };
    lemma_edges_words_unique(node.val@);
    assert forall|x: Seq<char>| ends.contains(x) implies !edges_words(node.val@).contains(x) by {
        lemma_edges_words_contains(node.val@, x);
    }
    lemma_concat_unique(ends, edges_words(node.val@));
}

proof fn lemma_edges_words_unique(edges: Seq<(char, TrieNode)>)
    requires
        keys_unique(edges),
        forall|i: int| 0 <= i < edges.len() ==> (#[trigger] edges[i].1).wf(),
    ensures
        edges_words(edges).no_duplicates(),
    decreases edges,
{
    if edges.len() > 0 {
        let init = edges.drop_last();
        let e = edges.last();
        assert forall|i: int| 0 <= i < init.len() implies (#[trigger] init[i].1).wf() by {
            assert(init[i] == edges[i]);
        }
        lemma_edges_words_unique(init);
        lemma_words_unique(e.1);
        let ws = e.1.words();
        let b = prefixed(e.0, ws);
        assert forall|i: int, j: int| 0 <= i < b.len() && 0 <= j < b.len() && i != j implies b[i] != b[j] by {
            if b[i] == b[j] {
                assert(b[i].drop_first() =~= ws[i]);
                assert(b[j].drop_first() =~= ws[j]);
            }
        }
        assert forall|x: Seq<char>| edges_words(init).contains(x) implies !b.contains(x) by {
            lemma_edges_words_contains(init, x);
            lemma_prefixed_contains(e.0, ws, x);
            let i = choose|i: int| 0 <= i < init.len() && #[trigger] init[i].0 == x[0] && init[i].1.words().contains(x.drop_first());
            assert(init[i] == edges[i]);
            assert(edges[i].0 != edges[edges.len() - 1].0);
        }
        lemma_concat_unique(edges_words(init), b);
    }
}

/// A node counts as many strings as it lists.
pub proof fn lemma_count_words(node: TrieNode)
    ensures
        node.count() == node.words().len(),
    decreases node,
{
    lemma_edges_count_words(node.val@);
}

proof fn lemma_edges_count_words(edges: Seq<(char, TrieNode)>)
    ensures
        edges_count(edges) == edges_words(edges).len(),
    decreases edges,
{
    if edges.len() > 0 {
        lemma_edges_count_words(edges.drop_last());
        lemma_count_words(edges.last().1);
    }
}

/// Index of the edge labelled `c`, if there is one.
fn find_edge(edges: &Vec<(char, TrieNode)>, c: char) -> (r: Option<usize>)
    ensures
        r matches Some(k) ==> k < edges@.len() && edges@[k as int].0 == c,
        r is None ==> forall|j: int| 0 <= j < edges@.len() ==> edges@[j].0 != c,
{
    let mut i: usize = 0;
    while i < edges.len()
        invariant
            i <= edges@.len(),
            forall|j: int| 0 <= j < i ==> edges@[j].0 != c,
        decreases edges@.len() - i,
    {
        if edges[i].0 == c {
            return Some(i);
        }
        i = i + 1;
    }
    None
}

/// Stores `w[i..]` below `node`, which does not hold it yet.
fn insert_at(node: &mut TrieNode, w: &Vec<char>, i: usize)
    requires
        old(node).wf(),
        i <= w@.len(),
        !old(node).has(w@.skip(i as int)),
        old(node).count() < u32::MAX,
    ensures
        final(node).wf(),
        final(node).count() == old(node).count() + 1,
        final(node).ref_count == old(node).ref_count,
        forall|v: Seq<char>| #[trigger] final(node).has(v) == (old(node).has(v) || v == w@.skip(i as int)),
    decreases w@.len() - i,
{
    let ghost old_node = *node;
    if i == w.len() {
        node.end = true;
        assert(w@.skip(i as int) =~= Seq::<char>::empty());
        assert forall|v: Seq<char>| #[trigger] node.has(v) == (old_node.has(v) || v == w@.skip(i as int)) by {
            if v.len() > 0 {
                assert(node.has(v) == old_node.has(v));
            } else {
                assert(v =~= w@.skip(i as int));
            }
        }
        assert(node.val@ == old_node.val@);
        return;
    }
    let c = w[i];
    let k = match find_edge(&node.val, c) {
        Some(k) => k,
        None => {
            node.val.push((c, TrieNode::new()));
            assert(node.val@.drop_last() =~= old_node.val@);
            node.val.len() - 1
        },
    };
    let ghost mid = *node;
    assert(mid.val@[k as int].1.wf());
    assert(w@.skip(i as int).drop_first() =~= w@.skip(i + 1));
    assert(!mid.val@[k as int].1.has(w@.skip(i + 1))) by {
        if mid.val@[k as int].1.has(w@.skip(i + 1)) {
            assert(old_node.val@[k as int] == mid.val@[k as int]);
            assert(old_node.has(w@.skip(i as int)));
        }
    }
    assert(mid.val@[k as int].1.count() < u32::MAX) by {
        if k < old_node.val@.len() {
            lemma_edge_count_le(old_node.val@, k as int);
        }
    }
    insert_at(&mut node.val[k].1, w, i + 1);
    let ghost inner = node.val@[k as int].1;
    node.val[k].1.ref_count = node.val[k].1.ref_count + 1;
    proof {
        let ghost child = node.val@[k as int].1;
        let ghost was = mid.val@[k as int].1;
        assert(node.val@ == mid.val@.update(k as int, (c, child)));
        lemma_edge_count_update(mid.val@, k as int, (c, child));
        assert(keys_unique(mid.val@));
        assert(keys_unique(node.val@));
        assert forall|j: int| 0 <= j < node.val@.len() implies {
            let ch = #[trigger] node.val@[j].1;
            &&& ch.ref_count as nat == ch.count()
            &&& ch.count() > 0
            &&& ch.wf()
        } by {
            if j != k {
                assert(node.val@[j] == old_node.val@[j]);
            }
        }
        assert forall|v: Seq<char>| #[trigger] node.has(v) == (old_node.has(v) || v == w@.skip(i as int)) by {
            if v.len() > 0 {
                let d = v.drop_first();
                if v[0] != c {
                    if node.has(v) {
                        let j = choose|j: int| 0 <= j < node.val@.len() && #[trigger] node.val@[j].0 == v[0]
                            && node.val@[j].1.has(d);
                        assert(node.val@[j] == old_node.val@[j]);
                    }
                    if old_node.has(v) {
                        let j = choose|j: int| 0 <= j < old_node.val@.len() && #[trigger] old_node.val@[j].0 == v[0]
                            && old_node.val@[j].1.has(d);
                        assert(node.val@[j] == old_node.val@[j]);
                    }
                    assert(v[0] != w@.skip(i as int)[0]);
                } else {
                    if node.has(v) {
                        let j = choose|j: int| 0 <= j < node.val@.len() && #[trigger] node.val@[j].0 == v[0]
                            && node.val@[j].1.has(d);
                        assert(j == k);
                    }
                    assert(node.val@[k as int].0 == v[0]);
                    assert(child.has(d) == inner.has(d));
                    assert(inner.has(d) == (was.has(d) || d == w@.skip(i + 1)));
                    if old_node.has(v) {
                        let j = choose|j: int| 0 <= j < old_node.val@.len() && #[trigger] old_node.val@[j].0 == v[0]
                            && old_node.val@[j].1.has(d);
                        assert(mid.val@[j] == old_node.val@[j]);
                        assert(j == k);
                    }
                    if was.has(d) {
                        if k < old_node.val@.len() {
                            assert(mid.val@[k as int] == old_node.val@[k as int]);
                            assert(old_node.has(v));
                        } else {
                            assert(was.val@.len() == 0 && !was.end);
                            assert(false);
                        }
                    }
                    assert(w@.skip(i as int)[0] == c);
                    if v == w@.skip(i as int) {
                        assert(d =~= w@.skip(i + 1));
                    }
                    if d == w@.skip(i + 1) {
                        assert forall|j: int| 0 <= j < v.len() implies v[j] == w@.skip(i as int)[j] by {
                            if j > 0 {
                                assert(v[j] == d[j - 1]);
                            }
                        }
                        assert(v =~= w@.skip(i as int));
                    }
                }
            } else {
                assert(v != w@.skip(i as int));
            }
        }
    }
}

/// Removing one child lowers the count by its count.
proof fn lemma_edge_count_remove(edges: Seq<(char, TrieNode)>, k: int)
    requires
        0 <= k < edges.len(),
    ensures
        edges_count(edges.remove(k)) + edges[k].1.count() == edges_count(edges),
    decreases edges.len(),
{
    let r = edges.remove(k);
    if k < edges.len() - 1 {
        assert(r.drop_last() =~= edges.drop_last().remove(k));
        assert(r.last() == edges.last());
        lemma_edge_count_remove(edges.drop_last(), k);
    } else {
        assert(r =~= edges.drop_last());
    }
}

/// Two distinct children together count no more than all edges.
proof fn lemma_edge_count_two(edges: Seq<(char, TrieNode)>, i: int, j: int)
    requires
        0 <= i < j < edges.len(),
    ensures
        edges[i].1.count() + edges[j].1.count() <= edges_count(edges),
    decreases edges.len(),
{
    if j < edges.len() - 1 {
        lemma_edge_count_two(edges.drop_last(), i, j);
    } else {
        lemma_edge_count_le(edges.drop_last(), i);
    }
}

/// A node that stores a string counts at least one, and one that stores two
/// different strings counts at least two.
proof fn lemma_count_has(node: TrieNode, x: Seq<char>, y: Seq<char>)
    requires
        node.wf(),
        node.has(x),
        node.has(y),
    ensures
        node.count() >= 1,
        x != y ==> node.count() >= 2,
    decreases x.len(),
{
    if x.len() == 0 {
        if y.len() > 0 {
            let j = choose|j: int| 0 <= j < node.val@.len() && #[trigger] node.val@[j].0 == y[0]
                && node.val@[j].1.has(y.drop_first());
            lemma_edge_count_le(node.val@, j);
            assert(node.val@[j].1.count() > 0);
        } else {
            assert(x =~= y);
        }
    } else {
        let i = choose|i: int| 0 <= i < node.val@.len() && #[trigger] node.val@[i].0 == x[0]
            && node.val@[i].1.has(x.drop_first());
        lemma_edge_count_le(node.val@, i);
        assert(node.val@[i].1.count() > 0);
        if y.len() == 0 {
        } else {
            assert(node.val@[i].1.wf());
            let j = choose|j: int| 0 <= j < node.val@.len() && #[trigger] node.val@[j].0 == y[0]
                && node.val@[j].1.has(y.drop_first());
            if i < j {
                lemma_edge_count_two(node.val@, i, j);
            } else if j < i {
                lemma_edge_count_two(node.val@, j, i);
            } else if x != y {
                assert(x.drop_first() != y.drop_first()) by {
                    if x.drop_first() == y.drop_first() {
                        assert(x =~= y) by {
                            assert forall|m: int| 0 <= m < x.len() implies x[m] == y[m] by {
                                if m > 0 {
                                    assert(x[m] == x.drop_first()[m - 1]);
                                    assert(y[m] == y.drop_first()[m - 1]);
                                }
                            }
                        }
                    }
                }
                lemma_count_has(node.val@[i].1, x.drop_first(), y.drop_first());
            }
        }
    }
}

/// Whether `w[i..]` is stored below `node`.
fn contains_at(node: &TrieNode, w: &Vec<char>, i: usize) -> (r: bool)
    requires
        node.wf(),
        i <= w@.len(),
    ensures
        r == node.has(w@.skip(i as int)),
    decreases w@.len() - i,
{
    if i == w.len() {
        assert(w@.skip(i as int).len() == 0);
        return node.end;
    }
    let ghost s = w@.skip(i as int);
    assert(s.drop_first() =~= w@.skip(i + 1));
    match find_edge(&node.val, w[i]) {
        Some(k) => {
            let r = contains_at(&node.val[k].1, w, i + 1);
            proof {
                if node.has(s) {
                    let j = choose|j: int| 0 <= j < node.val@.len() && #[trigger] node.val@[j].0 == s[0]
                        && node.val@[j].1.has(s.drop_first());
                    assert(j == k);
                }
            }
            r
        },
        None => false,
    }
}

/// Takes `w[i..]`, which is stored below `node`, out of it.
fn remove_at(node: &mut TrieNode, w: &Vec<char>, i: usize)
    requires
        old(node).wf(),
        i <= w@.len(),
        old(node).has(w@.skip(i as int)),
    ensures
        final(node).wf(),
        final(node).count() + 1 == old(node).count(),
        final(node).ref_count == old(node).ref_count,
        forall|v: Seq<char>| #[trigger] final(node).has(v) == (old(node).has(v) && v != w@.skip(i as int)),
    decreases w@.len() - i,
{
    let ghost old_node = *node;
    let ghost s = w@.skip(i as int);
    proof { lemma_count_has(old_node, s, s); }
    if i == w.len() {
        node.end = false;
        assert forall|v: Seq<char>| #[trigger] node.has(v) == (old_node.has(v) && v != s) by {
            if v.len() > 0 {
                assert(node.has(v) == old_node.has(v));
            } else {
                assert(v =~= s);
            }
        }
        return;
    }
    let c = w[i];
    assert(s.drop_first() =~= w@.skip(i + 1));
    let k = match find_edge(&node.val, c) {
        Some(k) => k,
        None => {
            assert(false);
            0
        },
    };
    let ghost was = old_node.val@[k as int].1;
    proof {
        let j = choose|j: int| 0 <= j < node.val@.len() && #[trigger] node.val@[j].0 == s[0]
            && node.val@[j].1.has(s.drop_first());
        assert(j == k);
        assert(was.has(w@.skip(i + 1)));
    }
    if node.val[k].1.ref_count == 1 {
        node.val.remove(k);
        proof {
            lemma_edge_count_remove(old_node.val@, k as int);
            assert forall|j: int| 0 <= j < node.val@.len() implies {
                let ch = #[trigger] node.val@[j].1;
                &&& ch.ref_count as nat == ch.count()
                &&& ch.count() > 0
                &&& ch.wf()
            } by {
                if j < k {
                    assert(node.val@[j] == old_node.val@[j]);
                } else {
                    assert(node.val@[j] == old_node.val@[j + 1]);
                }
            }
            assert forall|v: Seq<char>| #[trigger] node.has(v) == (old_node.has(v) && v != s) by {
                if v.len() > 0 {
                    let d = v.drop_first();
                    if node.has(v) {
                        let j = choose|j: int| 0 <= j < node.val@.len() && #[trigger] node.val@[j].0 == v[0]
                            && node.val@[j].1.has(d);
                        let oj = if j < k { j } else { j + 1 };
                        assert(node.val@[j] == old_node.val@[oj]);
                        assert(old_node.val@[oj].0 == v[0]);
                        assert(oj != k);
                        assert(v[0] != s[0]);
                    }
                    if old_node.has(v) && v != s {
                        let oj = choose|j: int| 0 <= j < old_node.val@.len() && #[trigger] old_node.val@[j].0 == v[0]
                            && old_node.val@[j].1.has(d);
                        if oj == k {
                            lemma_count_has(was, d, w@.skip(i + 1));
                            assert(v =~= s) by {
                                assert forall|m: int| 0 <= m < v.len() implies v[m] == s[m] by {
                                    if m > 0 {
                                        assert(v[m] == d[m - 1]);
                                    }
                                }
                            }
                        } else {
                            let j = if oj < k { oj } else { oj - 1 };
                            assert(node.val@[j] == old_node.val@[oj]);
                        }
                    }
                } else {
                    assert(node.has(v) == old_node.has(v));
                    assert(v != s);
                }
            }
        }
    } else {
        proof {
            lemma_count_has(was, w@.skip(i + 1), w@.skip(i + 1));
        }
        remove_at(&mut node.val[k].1, w, i + 1);
        let ghost inner = node.val@[k as int].1;
        node.val[k].1.ref_count = node.val[k].1.ref_count - 1;
        proof {
            let child = node.val@[k as int].1;
            assert(node.val@ == old_node.val@.update(k as int, (c, child)));
            lemma_edge_count_update(old_node.val@, k as int, (c, child));
            assert(keys_unique(node.val@));
            assert forall|j: int| 0 <= j < node.val@.len() implies {
                let ch = #[trigger] node.val@[j].1;
                &&& ch.ref_count as nat == ch.count()
                &&& ch.count() > 0
                &&& ch.wf()
            } by {
                if j != k {
                    assert(node.val@[j] == old_node.val@[j]);
                }
            }
            assert forall|v: Seq<char>| #[trigger] node.has(v) == (old_node.has(v) && v != s) by {
                if v.len() > 0 {
                    let d = v.drop_first();
                    if v[0] != c {
                        if node.has(v) {
                            let j = choose|j: int| 0 <= j < node.val@.len() && #[trigger] node.val@[j].0 == v[0]
                                && node.val@[j].1.has(d);
                            assert(node.val@[j] == old_node.val@[j]);
                        }
                        if old_node.has(v) {
                            let j = choose|j: int| 0 <= j < old_node.val@.len() && #[trigger] old_node.val@[j].0 == v[0]
                                && old_node.val@[j].1.has(d);
                            assert(node.val@[j] == old_node.val@[j]);
                        }
                    } else {
                        if node.has(v) {
                            let j = choose|j: int| 0 <= j < node.val@.len() && #[trigger] node.val@[j].0 == v[0]
                                && node.val@[j].1.has(d);
                            assert(j == k);
                        }
                        if old_node.has(v) {
                            let j = choose|j: int| 0 <= j < old_node.val@.len() && #[trigger] old_node.val@[j].0 == v[0]
                                && old_node.val@[j].1.has(d);
                            assert(j == k);
                        }
                        assert(node.val@[k as int].0 == v[0]);
                        assert(child.has(d) == inner.has(d));
                        assert(inner.has(d) == (was.has(d) && d != w@.skip(i + 1)));
                        if v == s {
                            assert(d =~= w@.skip(i + 1));
                        }
                        if d == w@.skip(i + 1) {
                            assert(v =~= s) by {
                                assert forall|m: int| 0 <= m < v.len() implies v[m] == s[m] by {
                                    if m > 0 {
                                        assert(v[m] == d[m - 1]);
                                    }
                                }
                            }
                        }
                    }
                } else {
                    assert(node.has(v) == old_node.has(v));
                }
            }
        }
    }
}

/// Appends to `res` every string stored below `curr`, behind `path`.
fn list_solver(curr: &TrieNode, path: &String, res: &mut Vec<String>)
    ensures
        strings_view(final(res)@) == strings_view(old(res)@) + behind(path@, curr.words()),
    decreases curr,
{
    let ghost start = strings_view(res@);
    if curr.end {
        res.push(path.clone());
    }
    assert(strings_view(res@) =~= start + behind(path@, if curr.end { seq![Seq::<char>::empty()] } else { Seq::empty() })) by {
        if curr.end {
            assert(path@ + Seq::<char>::empty() =~= path@);
        }
    }
    let ghost head = strings_view(res@);
    let mut i: usize = 0;
    while i < curr.val.len()
        invariant
            i <= curr.val@.len(),
            strings_view(res@) == head + behind(path@, edges_words(curr.val@.take(i as int))),
        decreases curr.val@.len() - i,
    {
        let c = curr.val[i].0;
        let mut next = path.clone();
        push_char(&mut next, c);
        let ghost before = strings_view(res@);
        list_solver(&curr.val[i].1, &next, res);
        proof {
            let e = curr.val@.take(i + 1);
            assert(e.drop_last() =~= curr.val@.take(i as int));
            let ws = curr.val@[i as int].1.words();
            assert(behind(path@, edges_words(e)) =~= behind(path@, edges_words(curr.val@.take(i as int)))
                + behind(next@, ws)) by {
                assert forall|m: int| 0 <= m < ws.len() implies
                    #[trigger] behind(path@, prefixed(c, ws))[m] == behind(next@, ws)[m] by {
                    assert(path@ + (seq![c] + ws[m]) =~= next@ + ws[m]);
                }
                assert(behind(path@, prefixed(c, ws)) =~= behind(next@, ws));
            }
        }
        i = i + 1;
    }
    assert(curr.val@.take(i as int) =~= curr.val@);
    assert(behind(path@, curr.words()) =~= behind(path@, if curr.end { seq![Seq::<char>::empty()] } else { Seq::empty() })
        + behind(path@, edges_words(curr.val@)));
}

/// The vocabulary: a trie whose root keeps, in its `ref_count`, how many
/// strings are stored.
pub struct SearchTrie {
    root: TrieNode,
}

impl View for SearchTrie {
    type V = Set<Seq<char>>;

    closed spec fn view(&self) -> Set<Seq<char>> {
        Set::new(|w: Seq<char>| self.root.has(w))
    }
}

impl SearchTrie {
    /// The trie is well formed, and the root counts every stored string.
    pub closed spec fn wf(self) -> bool {
        &&& self.root.wf()
        &&& self.root.ref_count as nat == self.root.count()
    }

    /// The root node, from which every search starts.
    pub closed spec fn spec_root(self) -> TrieNode {
        self.root
    }

    /// How many strings are stored.
    pub closed spec fn size(self) -> nat {
        self.root.count()
    }

    /// An empty vocabulary.
    pub fn new() -> (r: Self)
        ensures
            r.wf(),
            r@ == Set::<Seq<char>>::empty(),
            r.size() == 0,
    {
        let r = SearchTrie { root: TrieNode::new() };
        assert(r@ =~= Set::<Seq<char>>::empty()) by {
            assert forall|w: Seq<char>| !r.root.has(w) by {}
        }
        r
    }

    /// The root node, from which every search starts.
    pub fn root(&self) -> (r: &TrieNode)
        ensures
            *r == self.spec_root(),
    {
        &self.root
    }

    /// How many strings are stored.
    pub fn len(&self) -> (r: u32)
        requires
            self.wf(),
        ensures
            r as nat == self.size(),
    {
        self.root.ref_count
    }

    /// Every stored string, depth first.
    pub fn list(&self) -> (r: Vec<String>)
        requires
            self.wf(),
        ensures
            strings_view(r@) == self.spec_root().words(),
            strings_view(r@).to_set() == self@,
            strings_view(r@).no_duplicates(),
    {
        proof { lemma_listed(*self); }
        let mut res: Vec<String> = Vec::new();
        let path = String::new();
        list_solver(&self.root, &path, &mut res);
        assert(strings_view(res@) =~= self.root.words()) by {
            let ws = self.root.words();
            assert(strings_view(Seq::<String>::empty()) =~= Seq::empty());
            assert forall|m: int| 0 <= m < ws.len() implies #[trigger] behind(path@, ws)[m] == ws[m] by {
                assert(path@ + ws[m] =~= ws[m]);
            }
            assert(behind(path@, ws) =~= ws);
        }
        res
    }

    /// Whether `line` is stored.
    pub fn contains(&self, line: &str) -> (r: bool)
        requires
            self.wf(),
        ensures
            r == self@.contains(line@),
    {
        let w = char_vec(line);
        assert(w@.skip(0) =~= w@);
        contains_at(&self.root, &w, 0)
    }

    /// Stores `line`. A line that is already stored stays stored once.
    pub fn insert(&mut self, line: &str)
        requires
            old(self).wf(),
            old(self).size() < u32::MAX,
        ensures
            final(self).wf(),
            final(self)@ == old(self)@.insert(line@),
            final(self).size() == old(self).size() + (if old(self)@.contains(line@) { 0nat } else { 1nat }),
    {
        let w = char_vec(line);
        assert(w@.skip(0) =~= w@);
        if contains_at(&self.root, &w, 0) {
            assert(self@ =~= self@.insert(line@));
            return;
        }
        let ghost before = self.root;
        insert_at(&mut self.root, &w, 0);
        let ghost after = self.root;
        self.root.ref_count = self.root.ref_count + 1;
        assert forall|v: Seq<char>| #[trigger] self.root.has(v) == after.has(v) by {
            lemma_has_same_shape(self.root, after, v);
        }
        assert(self@ =~= Set::new(|v: Seq<char>| before.has(v)).insert(line@));
    }

    /// Takes `line` out of the vocabulary; a line that is not stored leaves it
    /// as it is.
    pub fn remove(&mut self, line: &str)
        requires
            old(self).wf(),
        ensures
            final(self).wf(),
            final(self)@ == old(self)@.remove(line@),
            final(self).size() == old(self).size() - (if old(self)@.contains(line@) { 1int } else { 0int }),
    {
        let w = char_vec(line);
        assert(w@.skip(0) =~= w@);
        if !contains_at(&self.root, &w, 0) {
            assert(self@ =~= self@.remove(line@));
            return;
        }
        let ghost before = self.root;
        remove_at(&mut self.root, &w, 0);
        let ghost after = self.root;
        self.root.ref_count = self.root.ref_count - 1;
        assert forall|v: Seq<char>| #[trigger] self.root.has(v) == after.has(v) by {
            lemma_has_same_shape(self.root, after, v);
        }
        assert(self@ =~= Set::new(|v: Seq<char>| before.has(v)).remove(line@));
    }
}

/// A trie lists each string it stores, once, and nothing else.
pub proof fn lemma_listed(t: SearchTrie)
    requires
        t.wf(),
    ensures
        t.spec_root().words().to_set() == t@,
        t.spec_root().words().no_duplicates(),
{
    lemma_words_unique(t.root);
    assert forall|w: Seq<char>| #[trigger] t.root.words().to_set().contains(w) == t@.contains(w) by {
        lemma_words_has(t.root, w);
    }
    assert(t.root.words().to_set() =~= t@);
}

/// `v` with the strings of `ws` put in one after another.
pub open spec fn insert_all(v: Set<Seq<char>>, ws: Seq<Seq<char>>) -> Set<Seq<char>>
    decreases ws.len(),
{
    if ws.len() == 0 {
        v
    } else {
        insert_all(v, ws.drop_last()).insert(ws.last())
    }
}

/// `v` with the strings of `ws` taken out one after another.
pub open spec fn remove_all(v: Set<Seq<char>>, ws: Seq<Seq<char>>) -> Set<Seq<char>>
    decreases ws.len(),
{
    if ws.len() == 0 {
        v
    } else {
        remove_all(v, ws.drop_last()).remove(ws.last())
    }
}

proof fn lemma_insert_all(ws: Seq<Seq<char>>)
    ensures
        insert_all(Set::empty(), ws) == ws.to_set(),
    decreases ws.len(),
{
    if ws.len() > 0 {
        lemma_insert_all(ws.drop_last());
        assert(ws.to_set() =~= ws.drop_last().to_set().insert(ws.last())) by {
            assert forall|x: Seq<char>| ws.to_set().contains(x) implies ws.drop_last().to_set().insert(ws.last()).contains(x) by {
                let m = choose|m: int| 0 <= m < ws.len() && ws[m] == x;
                if m < ws.len() - 1 {
                    assert(ws.drop_last()[m] == x);
                }
            }
            assert forall|x: Seq<char>| ws.drop_last().to_set().contains(x) implies ws.to_set().contains(x) by {
                let m = choose|m: int| 0 <= m < ws.drop_last().len() && ws.drop_last()[m] == x;
                assert(ws[m] == x);
            }
            assert(ws.to_set().contains(ws[ws.len() - 1]));
        }
    }
}

proof fn lemma_remove_all(v: Set<Seq<char>>, ws: Seq<Seq<char>>)
    ensures
        remove_all(v, ws) == v.difference(ws.to_set()),
    decreases ws.len(),
{
    if ws.len() > 0 {
        lemma_remove_all(v, ws.drop_last());
        assert forall|x: Seq<char>| #[trigger] ws.to_set().contains(x)
            == (ws.drop_last().to_set().contains(x) || x == ws.last()) by {
            if ws.to_set().contains(x) {
                let m = choose|m: int| 0 <= m < ws.len() && ws[m] == x;
                if m < ws.len() - 1 {
                    assert(ws.drop_last()[m] == x);
                }
            }
            if ws.drop_last().to_set().contains(x) {
                let m = choose|m: int| 0 <= m < ws.drop_last().len() && ws.drop_last()[m] == x;
                assert(ws[m] == x);
            }
            if x == ws.last() {
                assert(ws[ws.len() - 1] == x);
            }
        }
        assert(remove_all(v, ws) =~= v.difference(ws.to_set()));
    }
}

/// Putting every string of `s` into an empty trie and then taking every
/// string of `r` out leaves a trie that lists exactly the strings of `s`
/// that are not in `r`, each once.
pub proof fn lemma_round_trip(s: Seq<Seq<char>>, r: Seq<Seq<char>>, t: SearchTrie)
    requires
        t.wf(),
        t@ == remove_all(insert_all(Set::empty(), s), r),
    ensures
        t.spec_root().words().to_set() == s.to_set().difference(r.to_set()),
        t.spec_root().words().no_duplicates(),
{
    lemma_insert_all(s);
    lemma_remove_all(s.to_set(), r);
    lemma_listed(t);
}

/// The node reached from `node` along the characters of `p`, if there is one.
pub open spec fn node_at(node: TrieNode, p: Seq<char>) -> Option<TrieNode>
    decreases p.len(),
{
    if p.len() == 0 {
        Some(node)
    } else if exists|i: int| 0 <= i < node.val@.len() && #[trigger] node.val@[i].0 == p[0] {
        let i = choose|i: int| 0 <= i < node.val@.len() && #[trigger] node.val@[i].0 == p[0];
        node_at(node.val@[i].1, p.drop_first())
    } else {
        None
    }
}

/// The node at `p` is well formed, counts its strings in `ref_count` when it
/// is not `node` itself, and stores `s` exactly when `node` stores `p + s`.
proof fn lemma_node_at(node: TrieNode, p: Seq<char>)
    requires
        node.wf(),
        node_at(node, p) is Some,
    ensures
        ({
            let n = node_at(node, p)->0;
            &&& n.wf()
            &&& p.len() > 0 ==> n.ref_count as nat == n.count()
            &&& forall|s: Seq<char>| #[trigger] n.has(s) == node.has(p + s)
        }),
    decreases p.len(),
{
    if p.len() > 0 {
        let i = choose|i: int| 0 <= i < node.val@.len() && #[trigger] node.val@[i].0 == p[0];
        let child = node.val@[i].1;
        let d = p.drop_first();
        lemma_node_at(child, d);
        let n = node_at(node, p)->0;
        assert forall|s: Seq<char>| #[trigger] n.has(s) == node.has(p + s) by {
            let ps = p + s;
            assert(ps.len() > 0 && ps[0] == p[0]);
            assert(ps.drop_first() =~= d + s);
            if node.has(ps) {
                let j = choose|j: int| 0 <= j < node.val@.len() && #[trigger] node.val@[j].0 == ps[0]
                    && node.val@[j].1.has(ps.drop_first());
                assert(j == i);
            }
        }
    } else {
        assert forall|s: Seq<char>| #[trigger] node_at(node, p)->0.has(s) == node.has(p + s) by {
            assert(p + s =~= s);
        }
    }
}

/// Every node below the root counts exactly the stored strings that pass
/// through it: those are `p` followed by each string the node lists, each
/// once, and `ref_count` says how many there are.
pub proof fn lemma_ref_count(t: SearchTrie, p: Seq<char>)
    requires
        t.wf(),
        p.len() > 0,
        node_at(t.spec_root(), p) is Some,
    ensures
        ({
            let n = node_at(t.spec_root(), p)->0;
            &&& n.ref_count as nat == n.words().len()
            &&& n.words().no_duplicates()
            &&& behind(p, n.words()).to_set() == t@.filter(|w: Seq<char>| p.is_prefix_of(w))
        }),
{
    let root = t.spec_root();
    lemma_node_at(root, p);
    let n = node_at(root, p)->0;
    lemma_count_words(n);
    lemma_words_unique(n);
    let ws = n.words();
    assert forall|w: Seq<char>| #[trigger] behind(p, ws).to_set().contains(w)
        == t@.filter(|w: Seq<char>| p.is_prefix_of(w)).contains(w) by {
        if behind(p, ws).contains(w) {
            let m = choose|m: int| 0 <= m < behind(p, ws).len() && behind(p, ws)[m] == w;
            assert(ws.contains(ws[m]));
            lemma_words_has(n, ws[m]);
            assert(w == p + ws[m]);
            assert(p.is_prefix_of(w)) by {
                assert(w.subrange(0, p.len() as int) =~= p);
            }
        }
        if p.is_prefix_of(w) && root.has(w) {
            let s = w.skip(p.len() as int);
            assert(p + s =~= w);
            lemma_words_has(n, s);
            let m = choose|m: int| 0 <= m < ws.len() && ws[m] == s;
            assert(behind(p, ws)[m] == w);
        }
    }
    assert(behind(p, ws).to_set() =~= t@.filter(|w: Seq<char>| p.is_prefix_of(w)));
}

} // verus!
