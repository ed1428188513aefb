//! A topological sort whose order depends only on the keys of the nodes and
//! the edges between them: of the nodes whose predecessors have all been
//! emitted, the one with the greatest key comes next.
use crate::layer_graph::{
    edges_in_range, graph_edges, graph_nodes, has_edge, is_acyclic, is_closed_walk, node_count,
    predecessors, successors,
};
use petgraph::graph::DiGraph;
use vstd::prelude::*;
use vstd::set_lib::{lemma_int_range, lemma_len_subset, set_int_range};

verus! {

/// `a` and `b` agree before `i`, and `a` is the lesser there: it stops at
/// `i` while `b` goes on, or its character at `i` is the smaller.
pub open spec fn lt_at(a: Seq<char>, b: Seq<char>, i: int) -> bool {
    &&& 0 <= i <= a.len()
    &&& i < b.len()
    &&& forall|j: int| 0 <= j < i ==> a[j] == b[j]
    &&& i < a.len() ==> (a[i] as u32) < (b[i] as u32)
}

/// The lexicographic order of strings by character, which is the order of
/// `str`'s `Ord`.
pub open spec fn seq_lt(a: Seq<char>, b: Seq<char>) -> bool {
    exists|i: int| #[trigger] lt_at(a, b, i)
}

/// Whether `a` comes before `b` in the order of names.
pub fn name_lt(a: &str, b: &str) -> (r: bool)
    ensures
        r == seq_lt(a@, b@),
{
    let la = a.unicode_len();
    let lb = b.unicode_len();
    let mut i: usize = 0;
    while i < la && i < lb
        invariant
            la == a@.len(),
            lb == b@.len(),
            i <= la,
            i <= lb,
            forall|j: int| 0 <= j < i ==> a@[j] == b@[j],
        decreases la - i,
    {
        let ca = a.get_char(i);
        let cb = b.get_char(i);
        if ca != cb {
            let r = (ca as u32) < (cb as u32);
            proof {
                if r {
                    assert(lt_at(a@, b@, i as int));
                } else {
                    assert forall|k: int| !lt_at(a@, b@, k) by {
                        if lt_at(a@, b@, k) {
                            if k > i {
                                assert(a@[i as int] == b@[i as int]);
                            }
                        }
                    }
                }
            }
            return r;
        }
        i = i + 1;
    }
    let r = la < lb;
    proof {
        if r {
            assert(lt_at(a@, b@, i as int));
        } else {
            assert forall|k: int| !lt_at(a@, b@, k) by {}
        }
    }
    r
}

/// Every predecessor of `v` has been emitted.
pub open spec fn preds_done(e: Seq<(int, int)>, ordered: Seq<bool>, v: int) -> bool {
    forall|p: int| has_edge(e, p, v) ==> ordered[p]
}

/// Each node of `order` comes after all of its predecessors.
pub open spec fn respects_edges(e: Seq<(int, int)>, order: Seq<usize>) -> bool {
    forall|i: int, p: int|
        0 <= i < order.len() && #[trigger] has_edge(e, p, order[i] as int) ==> order.subrange(
            0,
            i,
        ).contains(p as usize)
}

/// `w` is a node of the graph that `prefix` has not emitted and whose
/// predecessors `prefix` has all emitted.
pub open spec fn available(e: Seq<(int, int)>, n: nat, prefix: Seq<usize>, w: int) -> bool {
    &&& 0 <= w < n
    &&& !prefix.contains(w as usize)
    &&& forall|p: int| has_edge(e, p, w) ==> prefix.contains(p as usize)
}

/// At each step `order` emits, of the available nodes, one whose key no
/// other available node's key exceeds.
pub open spec fn greedy_order(
    keys: Seq<Seq<char>>,
    e: Seq<(int, int)>,
    n: nat,
    order: Seq<usize>,
) -> bool {
    forall|i: int|
        0 <= i < order.len() ==> {
            &&& available(e, n, order.subrange(0, i), #[trigger] order[i] as int)
            &&& forall|w: int|
                available(e, n, order.subrange(0, i), w) ==> !seq_lt(keys[order[i] as int], keys[w])
        }
}

/// The keys of a list of strings.
pub open spec fn key_seqs(keys: Seq<String>) -> Seq<Seq<char>> {
    keys.map_values(|k: String| k@)
}

/// The lexicographic order is transitive.
pub proof fn lemma_seq_lt_transitive(a: Seq<char>, b: Seq<char>, c: Seq<char>)
    requires
        seq_lt(a, b),
        seq_lt(b, c),
    ensures
        seq_lt(a, c),
{
    let i = choose|i: int| lt_at(a, b, i);
    let j = choose|j: int| lt_at(b, c, j);
    if i <= j {
        assert(lt_at(a, c, i));
    } else {
        assert(lt_at(a, c, j));
    }
}

/// Of two different strings, one comes before the other.
pub proof fn lemma_seq_lt_total(a: Seq<char>, b: Seq<char>)
    requires
        a != b,
    ensures
        seq_lt(a, b) || seq_lt(b, a),
    decreases a.len(),
{
    if a.len() == 0 {
        assert(b.len() > 0) by {
            if b.len() == 0 {
                assert(a =~= b);
            }
        }
        assert(lt_at(a, b, 0));
    } else if b.len() == 0 {
        assert(lt_at(b, a, 0));
    } else if a[0] != b[0] {
        vstd::utf8::char_u32_cast(a[0], a[0] as u32);
        vstd::utf8::char_u32_cast(b[0], b[0] as u32);
        if (a[0] as u32) < (b[0] as u32) {
            assert(lt_at(a, b, 0));
        } else {
            assert((b[0] as u32) < (a[0] as u32));
            assert(lt_at(b, a, 0));
        }
    } else {
        let a1 = a.drop_first();
        let b1 = b.drop_first();
        assert(a1 != b1) by {
            if a1 == b1 {
                assert(a =~= seq![a[0]] + a1);
                assert(b =~= seq![b[0]] + b1);
            }
        }
        lemma_seq_lt_total(a1, b1);
        if seq_lt(a1, b1) {
            let i = choose|i: int| lt_at(a1, b1, i);
            assert forall|j: int| 0 <= j < i + 1 implies a[j] == b[j] by {
                if j > 0 {
                    assert(a1[j - 1] == b1[j - 1]);
                }
            }
            assert(lt_at(a, b, i + 1));
        } else {
            let i = choose|i: int| lt_at(b1, a1, i);
            assert forall|j: int| 0 <= j < i + 1 implies b[j] == a[j] by {
                if j > 0 {
                    assert(b1[j - 1] == a1[j - 1]);
                }
            }
            assert(lt_at(b, a, i + 1));
        }
    }
}

/// The keys are distinct.
pub open spec fn keys_distinct(keys: Seq<Seq<char>>) -> bool {
    forall|i: int, j: int| 0 <= i < keys.len() && 0 <= j < keys.len() && i != j ==> keys[i] != keys[j]
}

/// `o` emits each node below `n` once and nothing else.
pub open spec fn emits_all(n: nat, o: Seq<usize>) -> bool {
    &&& o.no_duplicates()
    &&& forall|k: int| 0 <= k < o.len() ==> #[trigger] o[k] < n
    &&& forall|v: int| 0 <= v < n ==> #[trigger] o.contains(v as usize)
}

/// Over distinct keys there is one order at most that emits every node and
/// takes, at each step, the available node of greatest key: the sort's
/// output depends on nothing else.
pub proof fn lemma_greedy_order_unique(
    keys: Seq<Seq<char>>,
    e: Seq<(int, int)>,
    n: nat,
    o1: Seq<usize>,
    o2: Seq<usize>,
)
    requires
        keys.len() == n,
        keys_distinct(keys),
        emits_all(n, o1),
        emits_all(n, o2),
        greedy_order(keys, e, n, o1),
        greedy_order(keys, e, n, o2),
    ensures
        o1 == o2,
{
    let m = if o1.len() <= o2.len() { o1.len() } else { o2.len() };
    lemma_greedy_prefix(keys, e, n, o1, o2, m as int);
    if o1.len() < o2.len() {
        let w = o2[o1.len() as int];
        assert(o2.subrange(0, o1.len() as int) =~= o1);
        assert(available(e, n, o2.subrange(0, o1.len() as int), w as int));
        assert(o1.contains(w));
    } else if o2.len() < o1.len() {
        let w = o1[o2.len() as int];
        assert(o1.subrange(0, o2.len() as int) =~= o2);
        assert(available(e, n, o1.subrange(0, o2.len() as int), w as int));
        assert(o2.contains(w));
    } else {
        assert(o1.subrange(0, m as int) == o2.subrange(0, m as int));
        assert(o1.subrange(0, m as int) =~= o1);
        assert(o2.subrange(0, m as int) =~= o2);
    }
}

/// Two greedy orders over distinct keys agree on their first `i` steps.
proof fn lemma_greedy_prefix(
    keys: Seq<Seq<char>>,
    e: Seq<(int, int)>,
    n: nat,
    o1: Seq<usize>,
    o2: Seq<usize>,
    i: int,
)
    requires
        keys.len() == n,
        keys_distinct(keys),
        emits_all(n, o1),
        emits_all(n, o2),
        greedy_order(keys, e, n, o1),
        greedy_order(keys, e, n, o2),
        0 <= i <= o1.len(),
        i <= o2.len(),
    ensures
        o1.subrange(0, i) == o2.subrange(0, i),
    decreases i,
{
    if i > 0 {
        lemma_greedy_prefix(keys, e, n, o1, o2, i - 1);
        let p = o1.subrange(0, i - 1);
        assert(o2.subrange(0, i - 1) == p);
        let a = o1[i - 1];
        let b = o2[i - 1];
        assert(available(e, n, p, a as int));
        assert(available(e, n, p, b as int));
        assert(!seq_lt(keys[a as int], keys[b as int]));
        assert(!seq_lt(keys[b as int], keys[a as int]));
        if a != b {
            assert(keys[a as int] != keys[b as int]);
            lemma_seq_lt_total(keys[a as int], keys[b as int]);
        }
        assert(o1.subrange(0, i) =~= o2.subrange(0, i));
    }
}

/// The keys of the nodes of `o`, in its order.
pub open spec fn keys_of(keys: Seq<Seq<char>>, o: Seq<usize>) -> Seq<Seq<char>> {
    o.map_values(|v: usize| keys[v as int])
}

/// Some edge runs from a node keyed `x` to one keyed `y`.
pub open spec fn key_edge(keys: Seq<Seq<char>>, e: Seq<(int, int)>, x: Seq<char>, y: Seq<char>) -> bool {
    exists|a: int, b: int|
        0 <= a < keys.len() && 0 <= b < keys.len() && keys[a] == x && keys[b] == y && #[trigger] has_edge(
            e,
            a,
            b,
        )
}

/// Two graphs hold the same keyed nodes and the same edges between keys:
/// they differ at most in the order in which nodes and edges were inserted.
pub open spec fn same_up_to_insertion(
    k1: Seq<Seq<char>>,
    e1: Seq<(int, int)>,
    k2: Seq<Seq<char>>,
    e2: Seq<(int, int)>,
) -> bool {
    &&& keys_distinct(k1)
    &&& keys_distinct(k2)
    &&& k1.len() <= usize::MAX
    &&& k2.len() <= usize::MAX
    &&& edges_in_range(e1, k1.len())
    &&& edges_in_range(e2, k2.len())
    &&& forall|x: Seq<char>| k1.contains(x) <==> k2.contains(x)
    &&& forall|x: Seq<char>, y: Seq<char>| key_edge(k1, e1, x, y) <==> key_edge(k2, e2, x, y)
}

/// A node available in one graph has its counterpart, of the same key,
/// available in the other, after prefixes of the same keys.
proof fn lemma_available_transfer(
    k1: Seq<Seq<char>>,
    e1: Seq<(int, int)>,
    p1: Seq<usize>,
    k2: Seq<Seq<char>>,
    e2: Seq<(int, int)>,
    p2: Seq<usize>,
    w1: int,
) -> (w2: int)
    requires
        same_up_to_insertion(k1, e1, k2, e2),
        forall|t: int| 0 <= t < p1.len() ==> #[trigger] p1[t] < k1.len(),
        forall|t: int| 0 <= t < p2.len() ==> #[trigger] p2[t] < k2.len(),
        keys_of(k1, p1) == keys_of(k2, p2),
        available(e1, k1.len(), p1, w1),
    ensures
        0 <= w2 < k2.len(),
        k2[w2] == k1[w1],
        available(e2, k2.len(), p2, w2),
{
    assert(k1.contains(k1[w1]));
    let w2 = choose|w2: int| 0 <= w2 < k2.len() && k2[w2] == k1[w1];
    assert(keys_of(k1, p1).len() == p1.len());
    assert(keys_of(k2, p2).len() == p2.len());
    assert(!p2.contains(w2 as usize)) by {
        if p2.contains(w2 as usize) {
            let t = choose|t: int| 0 <= t < p2.len() && p2[t] == w2 as usize;
            assert(keys_of(k2, p2)[t] == k2[w2]);
            assert(keys_of(k1, p1)[t] == k1[p1[t] as int]);
            assert(p1[t] as int == w1);
            assert(p1.contains(w1 as usize));
        }
    }
    assert forall|p: int| has_edge(e2, p, w2) implies p2.contains(p as usize) by {
        let ke = choose|ke: int| 0 <= ke < e2.len() && #[trigger] e2[ke] == (p, w2);
        assert(0 <= e2[ke].0 < k2.len());
        assert(key_edge(k2, e2, k2[p], k2[w2]));
        assert(key_edge(k1, e1, k2[p], k1[w1]));
        let (a, b) = choose|a: int, b: int|
            0 <= a < k1.len() && 0 <= b < k1.len() && k1[a] == k2[p] && k1[b] == k1[w1] && #[trigger] has_edge(e1, a, b);
        assert(b == w1);
        assert(p1.contains(a as usize));
        let t = choose|t: int| 0 <= t < p1.len() && p1[t] == a as usize;
        assert(keys_of(k1, p1)[t] == k1[a]);
        assert(keys_of(k2, p2)[t] == k2[p2[t] as int]);
        assert(p2[t] as int == p);
    }
    w2
}

/// Determinism: two graphs that differ only in the order in which their
/// nodes and edges were inserted are sorted into the same sequence of keys.
pub proof fn lemma_order_independent_of_insertion(
    k1: Seq<Seq<char>>,
    e1: Seq<(int, int)>,
    o1: Seq<usize>,
    k2: Seq<Seq<char>>,
    e2: Seq<(int, int)>,
    o2: Seq<usize>,
)
    requires
        same_up_to_insertion(k1, e1, k2, e2),
        emits_all(k1.len(), o1),
        emits_all(k2.len(), o2),
        greedy_order(k1, e1, k1.len(), o1),
        greedy_order(k2, e2, k2.len(), o2),
    ensures
        keys_of(k1, o1) == keys_of(k2, o2),
{
    let m = if o1.len() <= o2.len() { o1.len() } else { o2.len() };
    lemma_keys_prefix(k1, e1, o1, k2, e2, o2, m as int);
    if o1.len() < o2.len() {
        let i = o1.len() as int;
        assert(o1.subrange(0, i) =~= o1);
        assert(available(e2, k2.len(), o2.subrange(0, i), o2[i] as int));
        let w = lemma_available_transfer(k2, e2, o2.subrange(0, i), k1, e1, o1, o2[i] as int);
        assert(o1.contains(w as usize));
    } else if o2.len() < o1.len() {
        let i = o2.len() as int;
        assert(o2.subrange(0, i) =~= o2);
        assert(available(e1, k1.len(), o1.subrange(0, i), o1[i] as int));
        let w = lemma_available_transfer(k1, e1, o1.subrange(0, i), k2, e2, o2, o1[i] as int);
        assert(o2.contains(w as usize));
    } else {
        assert(keys_of(k1, o1.subrange(0, m as int)) =~= keys_of(k1, o1));
        assert(keys_of(k2, o2.subrange(0, m as int)) =~= keys_of(k2, o2));
    }
}

/// The first `i` steps of the two sorts emit the same keys.
proof fn lemma_keys_prefix(
    k1: Seq<Seq<char>>,
    e1: Seq<(int, int)>,
    o1: Seq<usize>,
    k2: Seq<Seq<char>>,
    e2: Seq<(int, int)>,
    o2: Seq<usize>,
    i: int,
)
    requires
        same_up_to_insertion(k1, e1, k2, e2),
        emits_all(k1.len(), o1),
        emits_all(k2.len(), o2),
        greedy_order(k1, e1, k1.len(), o1),
        greedy_order(k2, e2, k2.len(), o2),
        0 <= i <= o1.len(),
        i <= o2.len(),
    ensures
        keys_of(k1, o1.subrange(0, i)) == keys_of(k2, o2.subrange(0, i)),
    decreases i,
{
    if i > 0 {
        lemma_keys_prefix(k1, e1, o1, k2, e2, o2, i - 1);
        let p1 = o1.subrange(0, i - 1);
        let p2 = o2.subrange(0, i - 1);
        let a = o1[i - 1] as int;
        let b = o2[i - 1] as int;
        assert(available(e1, k1.len(), p1, a));
        assert(available(e2, k2.len(), p2, b));
        let a2 = lemma_available_transfer(k1, e1, p1, k2, e2, p2, a);
        let b1 = lemma_available_transfer(k2, e2, p2, k1, e1, p1, b);
        assert(!seq_lt(k2[b], k2[a2]));
        assert(!seq_lt(k1[a], k1[b1]));
        if k1[a] != k2[b] {
            lemma_seq_lt_total(k1[a], k2[b]);
        }
        assert(keys_of(k1, o1.subrange(0, i)) =~= keys_of(k1, p1).push(k1[a]));
        assert(keys_of(k2, o2.subrange(0, i)) =~= keys_of(k2, p2).push(k2[b]));
    }
}

/// A list of distinct nodes, all below `n`, has at most `n` entries.
proof fn lemma_distinct_len(s: Seq<usize>, n: nat)
    requires
        s.no_duplicates(),
        forall|k: int| 0 <= k < s.len() ==> #[trigger] s[k] < n,
    ensures
        s.len() <= n,
{
    let m = s.map_values(|x: usize| x as int);
    assert(m.no_duplicates()) by {
        assert forall|i: int, j: int| 0 <= i < m.len() && 0 <= j < m.len() && i != j implies m[i]
            != m[j] by {
            assert(s[i] != s[j]);
        }
    }
    m.unique_seq_to_set();
    lemma_int_range(0, n as int);
    assert forall|x: int| m.to_set().contains(x) implies set_int_range(0, n as int).contains(x) by {
        let k = choose|k: int| 0 <= k < m.len() && m[k] == x;
        assert(s[k] < n);
    }
    lemma_len_subset(m.to_set(), set_int_range(0, n as int));
}

/// From a walk backwards through nodes that are not emitted, each of which has
/// a predecessor that is not emitted, a cycle follows.
#[verifier::rlimit(40)]
proof fn lemma_walk_back(e: Seq<(int, int)>, n: nat, ordered: Seq<bool>, w: Seq<usize>)
    requires
        edges_in_range(e, n),
        n <= usize::MAX,
        ordered.len() == n,
        forall|v: int|
            0 <= v < n && !ordered[v] ==> exists|p: int| #[trigger] has_edge(e, p, v) && !ordered[p],
        w.len() >= 1,
        w.no_duplicates(),
        forall|k: int| 0 <= k < w.len() ==> #[trigger] w[k] < n && !ordered[w[k] as int],
        forall|k: int| 0 <= k < w.len() - 1 ==> has_edge(e, #[trigger] w[k + 1] as int, w[k] as int),
    ensures
        !is_acyclic(e),
    decreases n - w.len(),
{
    lemma_distinct_len(w, n);
    let last = w[w.len() - 1] as int;
    assert(!ordered[last]);
    let p = choose|p: int| #[trigger] has_edge(e, p, last) && !ordered[p];
    let ke = choose|ke: int| 0 <= ke < e.len() && #[trigger] e[ke] == (p, last);
    assert(0 <= p < n);
    if w.contains(p as usize) {
        let i = choose|i: int| 0 <= i < w.len() && w[i] == p as usize;
        let len = w.len() as int;
        let m = len - i;
        let c = Seq::new(m as nat, |k: int| w[len - 1 - k] as int);
        assert forall|k: int| 0 <= k < c.len() - 1 implies has_edge(e, #[trigger] c[k], c[k + 1]) by {
            let a = len - 1 - k;
            assert(c[k] == w[a] as int);
            assert(c[k + 1] == w[a - 1] as int);
            assert(has_edge(e, w[(a - 1) + 1] as int, w[a - 1] as int));
        }
        assert(c[c.len() - 1] == w[i] as int);
        assert(c[0] == last);
        assert(is_closed_walk(e, c));
    } else {
        let w2 = w.push(p as usize);
        assert forall|k: int| 0 <= k < w2.len() - 1 implies has_edge(
            e,
            #[trigger] w2[k + 1] as int,
            w2[k] as int,
        ) by {
            if k < w.len() - 1 {
                assert(w2[k + 1] == w[k + 1]);
            }
        }
        assert(w2.no_duplicates());
        lemma_distinct_len(w2, n);
        lemma_walk_back(e, n, ordered, w2);
    }
}

/// The state of a sort in progress over one graph.
pub struct StableTopo {
    ordered: Vec<bool>,
    tovisit: Vec<usize>,
    emitted: Ghost<Seq<usize>>,
}

impl StableTopo {
    /// The nodes emitted so far, in order.
    pub closed spec fn emitted(&self) -> Seq<usize> {
        self.emitted@
    }

    /// The nodes waiting to be considered.
    pub closed spec fn frontier(&self) -> Seq<usize> {
        self.tovisit@
    }

    /// For each node, whether it has been emitted.
    pub closed spec fn flags(&self) -> Seq<bool> {
        self.ordered@
    }

    pub closed spec fn wf(&self, g: DiGraph<usize, ()>) -> bool {
        let n = graph_nodes(g).len();
        let e = graph_edges(g);
        let ordered = self.ordered@;
        let tv = self.tovisit@;
        let em = self.emitted@;
        &&& edges_in_range(e, n)
        &&& n <= usize::MAX
        &&& ordered.len() == n
        &&& forall|k: int| 0 <= k < tv.len() ==> #[trigger] tv[k] < n
        &&& em.no_duplicates()
        &&& forall|k: int| 0 <= k < em.len() ==> #[trigger] em[k] < n
        &&& forall|v: int| 0 <= v < n ==> (#[trigger] ordered[v] <==> em.contains(v as usize))
        &&& forall|k: int| 0 <= k < tv.len() ==> preds_done(e, ordered, #[trigger] tv[k] as int)
        &&& forall|v: int|
            0 <= v < n && !ordered[v] && #[trigger] preds_done(e, ordered, v) ==> tv.contains(
                v as usize,
            )
        &&& respects_edges(e, em)
    }

    /// A sort of `g` that has emitted nothing yet.
    pub fn new(g: &DiGraph<usize, ()>) -> (r: StableTopo)
        ensures
            r.wf(*g),
            r.emitted() == Seq::<usize>::empty(),
            forall|k: int| 0 <= k < r.frontier().len() ==> #[trigger] r.frontier()[k] < graph_nodes(*g).len(),
    {
        let n = node_count(g);
        let mut ordered: Vec<bool> = Vec::new();
        let mut i: usize = 0;
        while i < n
            invariant
                i <= n,
                ordered@.len() == i,
                forall|k: int| 0 <= k < i ==> !#[trigger] ordered@[k],
            decreases n - i,
        {
            ordered.push(false);
            i = i + 1;
        }
        let mut topo = StableTopo { ordered, tovisit: Vec::new(), emitted: Ghost(Seq::empty()) };
        topo.extend_with_initials(g);
        proof {
            let e = graph_edges(*g);
            assert forall|v: int|
                0 <= v < n && !topo.ordered@[v] && #[trigger] preds_done(
                    e,
                    topo.ordered@,
                    v,
                ) implies topo.tovisit@.contains(v as usize) by {
                if exists|p: int| has_edge(e, p, v) {
                    let p = choose|p: int| has_edge(e, p, v);
                    let k = choose|k: int| 0 <= k < e.len() && #[trigger] e[k] == (p, v);
                    assert(0 <= e[k].0 < n);
                    assert(!topo.ordered@[p]);
                }
            }
        }
        topo
    }

    /// Adds to the frontier every node of `g` without predecessors.
    pub fn extend_with_initials(&mut self, g: &DiGraph<usize, ()>)
        requires
            forall|k: int| 0 <= k < old(self).frontier().len() ==> #[trigger] old(self).frontier()[k]
                < graph_nodes(*g).len(),
        ensures
            final(self).flags() == old(self).flags(),
            final(self).emitted() == old(self).emitted(),
            forall|k: int| 0 <= k < final(self).frontier().len() ==> #[trigger] final(self).frontier()[k]
                < graph_nodes(*g).len(),
            final(self).frontier().len() >= old(self).frontier().len(),
            forall|k: int|
                0 <= k < old(self).frontier().len() ==> #[trigger] final(self).frontier()[k]
                    == old(self).frontier()[k],
            forall|k: int|
                old(self).frontier().len() <= k < final(self).frontier().len() ==> forall|p: int|
                    !has_edge(graph_edges(*g), p, #[trigger] final(self).frontier()[k] as int),
            forall|v: int|
                0 <= v < graph_nodes(*g).len() && (forall|p: int| !has_edge(graph_edges(*g), p, v))
                    ==> #[trigger] final(self).frontier().contains(v as usize),
    {
        let n = node_count(g);
        let ghost start = self.tovisit@.len();
        assert(forall|k: int| 0 <= k < start ==> old(self).frontier()[k] == self.tovisit@[k]);
        let mut v: usize = 0;
        while v < n
            invariant
                v <= n,
                n == graph_nodes(*g).len(),
                self.ordered@ == old(self).ordered@,
                self.emitted@ == old(self).emitted@,
                start == old(self).tovisit@.len(),
                self.tovisit@.len() >= start,
                forall|k: int| 0 <= k < self.tovisit@.len() ==> #[trigger] self.tovisit@[k] < n,
                forall|k: int| 0 <= k < start ==> #[trigger] self.tovisit@[k] == old(self).tovisit@[k],
                forall|k: int|
                    start <= k < self.tovisit@.len() ==> forall|p: int|
                        !has_edge(graph_edges(*g), p, #[trigger] self.tovisit@[k] as int),
                forall|w: int|
                    0 <= w < v && (forall|p: int| !has_edge(graph_edges(*g), p, w))
                        ==> #[trigger] self.tovisit@.contains(w as usize),
            decreases n - v,
        {
            let preds = predecessors(g, v);
            if preds.len() == 0 {
                let ghost before = self.tovisit@;
                self.tovisit.push(v);
                proof {
                    assert(self.tovisit@[self.tovisit@.len() - 1] == v);
                    assert forall|w: int|
                        0 <= w <= v && (forall|p: int| !has_edge(graph_edges(*g), p, w))
                            implies #[trigger] self.tovisit@.contains(w as usize) by {
                        if w < v {
                            assert(before.contains(w as usize));
                            let k = choose|k: int| 0 <= k < before.len() && before[k] == w as usize;
                            assert(self.tovisit@[k] == w as usize);
                        }
                    }
                }
            } else {
                proof {
                    assert(has_edge(graph_edges(*g), preds@[0] as int, v as int));
                }
            }
            v = v + 1;
        }
    }

    /// Emits the next node: of the frontier's nodes that are not yet emitted,
    /// the one with the greatest key; `None` once the frontier is empty.
    pub fn next(&mut self, g: &DiGraph<usize, ()>, keys: &Vec<String>) -> (r: Option<usize>)
        requires
            old(self).wf(*g),
            keys@.len() == graph_nodes(*g).len(),
        ensures
            final(self).wf(*g),
            forall|k: int|
                0 <= k < final(self).frontier().len() ==> #[trigger] final(self).frontier()[k]
                    < graph_nodes(*g).len(),
            match r {
                None => {
                    &&& final(self).emitted() == old(self).emitted()
                    &&& final(self).frontier().len() == 0
                    &&& forall|w: int|
                        !available(graph_edges(*g), graph_nodes(*g).len(), old(self).emitted(), w)
                },
                Some(v) => {
                    &&& final(self).emitted() == old(self).emitted().push(v)
                    &&& available(
                        graph_edges(*g),
                        graph_nodes(*g).len(),
                        old(self).emitted(),
                        v as int,
                    )
                    &&& forall|w: int|
                        available(graph_edges(*g), graph_nodes(*g).len(), old(self).emitted(), w)
                            ==> !seq_lt(keys@[v as int]@, #[trigger] keys@[w]@)
                },
            },
    {
        let ghost e = graph_edges(*g);
        let ghost n = graph_nodes(*g).len();
        proof {
            self.lemma_available_in_frontier(*g);
        }
        while self.tovisit.len() > 0
            invariant
                self.wf(*g),
                e == graph_edges(*g),
                n == graph_nodes(*g).len(),
                keys@.len() == n,
                self.emitted@ == old(self).emitted@,
                self.ordered@ == old(self).ordered@,
            decreases self.tovisit@.len(),
        {
            let mut best: usize = 0;
            let mut k: usize = 1;
            while k < self.tovisit.len()
                invariant
                    self.wf(*g),
                    keys@.len() == n,
                    n == graph_nodes(*g).len(),
                    self.tovisit@.len() > 0,
                    best < k <= self.tovisit@.len(),
                    forall|j: int|
                        0 <= j < k ==> !seq_lt(
                            keys@[self.tovisit@[best as int] as int]@,
                            #[trigger] keys@[self.tovisit@[j] as int]@,
                        ),
                decreases self.tovisit@.len() - k,
            {
                let cand = self.tovisit[k];
                let cur = self.tovisit[best];
                if name_lt(keys[cur].as_str(), keys[cand].as_str()) {
                    proof {
                        assert forall|j: int| 0 <= j < k implies !seq_lt(
                            keys@[cand as int]@,
                            #[trigger] keys@[self.tovisit@[j] as int]@,
                        ) by {
                            if seq_lt(keys@[cand as int]@, keys@[self.tovisit@[j] as int]@) {
                                lemma_seq_lt_transitive(
                                    keys@[cur as int]@,
                                    keys@[cand as int]@,
                                    keys@[self.tovisit@[j] as int]@,
                                );
                            }
                        }
                    }
                    best = k;
                }
                k = k + 1;
            }
            let ghost tv0 = self.tovisit@;
            let ghost ordered0 = self.ordered@;
            assert(forall|v: int|
                0 <= v < n && !ordered0[v] && #[trigger] preds_done(e, ordered0, v) ==> tv0.contains(
                    v as usize,
                ));
            assert(forall|j: int|
                0 <= j < tv0.len() ==> !seq_lt(
                    keys@[tv0[best as int] as int]@,
                    #[trigger] keys@[tv0[j] as int]@,
                ));
            let x = self.tovisit.remove(best);
            proof {
                assert forall|j: int| 0 <= j < self.tovisit@.len() implies tv0.contains(
                    #[trigger] self.tovisit@[j],
                ) by {
                    if j < best {
                        assert(self.tovisit@[j] == tv0[j]);
                    } else {
                        assert(self.tovisit@[j] == tv0[j + 1]);
                    }
                }
                assert(x == tv0[best as int]);
            }
            if self.ordered[x] {
                proof {
                    assert forall|v: int|
                        0 <= v < n && !self.ordered@[v] && #[trigger] preds_done(
                            e,
                            self.ordered@,
                            v,
                        ) implies self.tovisit@.contains(v as usize) by {
                        let j = choose|j: int| 0 <= j < tv0.len() && tv0[j] == v as usize;
                        assert(j != best);
                        if j < best {
                            assert(self.tovisit@[j] == v as usize);
                        } else {
                            assert(self.tovisit@[j - 1] == v as usize);
                        }
                    }
                }
                continue;
            }
            let ghost ord0 = self.ordered@;
            let ghost em0 = self.emitted@;
            proof {
                assert forall|v: int|
                    0 <= v < n && !ord0[v] && v != x as int && #[trigger] preds_done(e, ord0, v)
                        implies self.tovisit@.contains(v as usize) by {
                    let j = choose|j: int| 0 <= j < tv0.len() && tv0[j] == v as usize;
                    assert(j != best);
                    if j < best {
                        assert(self.tovisit@[j] == v as usize);
                    } else {
                        assert(self.tovisit@[j - 1] == v as usize);
                    }
                }
                assert(preds_done(e, ord0, x as int));
                assert forall|w: int| available(e, n, em0, w) implies !seq_lt(
                    keys@[x as int]@,
                    #[trigger] keys@[w]@,
                ) by {
                    assert(!ord0[w]);
                    assert(preds_done(e, ord0, w)) by {
                        assert forall|p: int| has_edge(e, p, w) implies ord0[p] by {
                            let ke = choose|ke: int| 0 <= ke < e.len() && #[trigger] e[ke] == (p, w);
                            assert(0 <= e[ke].0 < n);
                        }
                    }
                    assert(tv0.contains(w as usize));
                    let j = choose|j: int| 0 <= j < tv0.len() && tv0[j] == w as usize;
                    assert(tv0[j] as int == w);
                    assert(!seq_lt(keys@[tv0[best as int] as int]@, keys@[tv0[j] as int]@));
                }
                assert(available(e, n, em0, x as int)) by {
                    assert(!em0.contains(x));
                    assert forall|p: int| has_edge(e, p, x as int) implies em0.contains(
                        p as usize,
                    ) by {
                        let ke = choose|ke: int| 0 <= ke < e.len() && #[trigger] e[ke] == (p, x as int);
                        assert(0 <= e[ke].0 < n);
                        assert(ord0[p]);
                    }
                }
            }
            self.ordered.set(x, true);
            self.emitted = Ghost(em0.push(x));
            let ghost tv1 = self.tovisit@;
            proof {
                self.lemma_after_emit(*g, ord0, em0, x);
            }
            let succs = successors(g, x);
            let mut i: usize = 0;
            while i < succs.len()
                invariant
                    self.wf_but_frontier(*g),
                    e == graph_edges(*g),
                    n == graph_nodes(*g).len(),
                    x < n,
                    self.ordered@ == ord0.update(x as int, true),
                    self.emitted@ == em0.push(x),
                    self.tovisit@.len() >= tv1.len(),
                    forall|j: int| 0 <= j < tv1.len() ==> #[trigger] self.tovisit@[j] == tv1[j],
                    forall|j: int|
                        0 <= j < i && preds_done(e, self.ordered@, #[trigger] succs@[j] as int)
                            ==> self.tovisit@.contains(succs@[j]),
                    forall|j: int| 0 <= j < succs@.len() ==> has_edge(e, x as int, #[trigger] succs@[j] as int),
                decreases succs@.len() - i,
            {
                let s = succs[i];
                assert(has_edge(e, x as int, s as int));
                let ke = Ghost(choose|ke: int| 0 <= ke < e.len() && #[trigger] e[ke] == (x as int, s as int));
                assert(0 <= e[ke@].1 < n);
                let preds = predecessors(g, s);
                let mut all = true;
                let mut j: usize = 0;
                while j < preds.len()
                    invariant
                        j <= preds@.len(),
                        self.ordered@.len() == n,
                        forall|m: int| 0 <= m < preds@.len() ==> has_edge(e, #[trigger] preds@[m] as int, s as int),
                        edges_in_range(e, n),
                        all == (forall|m: int| 0 <= m < j ==> self.ordered@[#[trigger] preds@[m] as int]),
                    decreases preds@.len() - j,
                {
                    let pj = preds[j];
                    assert(has_edge(e, pj as int, s as int));
                    let kp = Ghost(choose|kp: int| 0 <= kp < e.len() && #[trigger] e[kp] == (pj as int, s as int));
                    assert(0 <= e[kp@].0 < n);
                    if !self.ordered[pj] {
                        all = false;
                    }
                    j = j + 1;
                }
                proof {
                    assert(all == preds_done(e, self.ordered@, s as int)) by {
                        if all {
                            assert forall|p: int| has_edge(e, p, s as int) implies self.ordered@[p] by {
                                assert(preds@.contains(p as usize));
                                let m = choose|m: int| 0 <= m < preds@.len() && preds@[m] == p as usize;
                                assert(self.ordered@[preds@[m] as int]);
                            }
                        } else {
                            let m = choose|m: int| 0 <= m < preds@.len() && !self.ordered@[#[trigger] preds@[m] as int];
                            assert(has_edge(e, preds@[m] as int, s as int));
                        }
                    }
                }
                if all {
                    let ghost before = self.tovisit@;
                    self.tovisit.push(s);
                    proof {
                        assert(self.tovisit@[self.tovisit@.len() - 1] == s);
                        assert forall|jj: int|
                            0 <= jj <= i && preds_done(e, self.ordered@, #[trigger] succs@[jj] as int)
                                implies self.tovisit@.contains(succs@[jj]) by {
                            if jj < i {
                                let q = choose|q: int| 0 <= q < before.len() && before[q] == succs@[jj];
                                assert(self.tovisit@[q] == succs@[jj]);
                            }
                        }
                    }
                }
                i = i + 1;
            }
            proof {
                self.lemma_frontier_complete(*g, ord0, tv1, x, succs@);
            }
            return Some(x);
        }
        proof {
            self.lemma_available_in_frontier(*g);
        }
        None
    }

    /// The parts of `wf` that do not speak of which available nodes the
    /// frontier holds.
    closed spec fn wf_but_frontier(&self, g: DiGraph<usize, ()>) -> bool {
        let n = graph_nodes(g).len();
        let e = graph_edges(g);
        let ordered = self.ordered@;
        let tv = self.tovisit@;
        let em = self.emitted@;
        &&& edges_in_range(e, n)
        &&& n <= usize::MAX
        &&& ordered.len() == n
        &&& forall|k: int| 0 <= k < tv.len() ==> #[trigger] tv[k] < n
        &&& em.no_duplicates()
        &&& forall|k: int| 0 <= k < em.len() ==> #[trigger] em[k] < n
        &&& forall|v: int| 0 <= v < n ==> (#[trigger] ordered[v] <==> em.contains(v as usize))
        &&& forall|k: int| 0 <= k < tv.len() ==> preds_done(e, ordered, #[trigger] tv[k] as int)
        &&& respects_edges(e, em)
    }

    /// Every available node is in the frontier.
    proof fn lemma_available_in_frontier(&self, g: DiGraph<usize, ()>)
        requires
            self.wf(g),
        ensures
            forall|w: int|
                available(graph_edges(g), graph_nodes(g).len(), self.emitted@, w)
                    ==> self.tovisit@.contains(w as usize),
    {
        let e = graph_edges(g);
        let n = graph_nodes(g).len();
        assert forall|w: int| available(e, n, self.emitted@, w) implies self.tovisit@.contains(
            w as usize,
        ) by {
            assert(!self.ordered@[w]);
            assert forall|p: int| has_edge(e, p, w) implies self.ordered@[p] by {
                let ke = choose|ke: int| 0 <= ke < e.len() && #[trigger] e[ke] == (p, w);
                assert(0 <= e[ke].0 < n);
                assert(self.emitted@.contains(p as usize));
            }
            assert(preds_done(e, self.ordered@, w));
        }
    }

    /// Emitting `x`, which was available, keeps all of `wf` but what the
    /// frontier holds.
    proof fn lemma_after_emit(&self, g: DiGraph<usize, ()>, ord0: Seq<bool>, em0: Seq<usize>, x: usize)
        requires
            edges_in_range(graph_edges(g), graph_nodes(g).len()),
            graph_nodes(g).len() <= usize::MAX,
            ord0.len() == graph_nodes(g).len(),
            x < graph_nodes(g).len(),
            !ord0[x as int],
            preds_done(graph_edges(g), ord0, x as int),
            self.ordered@ == ord0.update(x as int, true),
            self.emitted@ == em0.push(x),
            em0.no_duplicates(),
            forall|k: int| 0 <= k < em0.len() ==> #[trigger] em0[k] < graph_nodes(g).len(),
            forall|v: int|
                0 <= v < graph_nodes(g).len() ==> (#[trigger] ord0[v] <==> em0.contains(v as usize)),
            forall|k: int| 0 <= k < self.tovisit@.len() ==> #[trigger] self.tovisit@[k] < graph_nodes(g).len(),
            forall|k: int|
                0 <= k < self.tovisit@.len() ==> preds_done(
                    graph_edges(g),
                    ord0,
                    #[trigger] self.tovisit@[k] as int,
                ),
            respects_edges(graph_edges(g), em0),
        ensures
            self.wf_but_frontier(g),
    {
        let e = graph_edges(g);
        let n = graph_nodes(g).len();
        let em = self.emitted@;
        assert forall|v: int| 0 <= v < n implies (#[trigger] self.ordered@[v] <==> em.contains(
            v as usize,
        )) by {
            if v == x as int {
                assert(em[em.len() - 1] == x);
            } else if em0.contains(v as usize) {
                let k = choose|k: int| 0 <= k < em0.len() && em0[k] == v as usize;
                assert(em[k] == v as usize);
            } else if em.contains(v as usize) {
                let k = choose|k: int| 0 <= k < em.len() && em[k] == v as usize;
                assert(em[em0.len() as int] == x);
                assert(k < em0.len());
                assert(em0[k] == v as usize);
            }
        }
        assert(!em0.contains(x));
        assert(em.no_duplicates()) by {
            assert forall|i: int, j: int| 0 <= i < em.len() && 0 <= j < em.len() && i != j implies em[i]
                != em[j] by {
                if i == em.len() - 1 {
                    assert(em0[j] != x);
                } else if j == em.len() - 1 {
                    assert(em0[i] != x);
                } else {
                    assert(em0[i] != em0[j]);
                }
            }
        }
        assert forall|k: int| 0 <= k < self.tovisit@.len() implies preds_done(
            e,
            self.ordered@,
            #[trigger] self.tovisit@[k] as int,
        ) by {
            assert(preds_done(e, ord0, self.tovisit@[k] as int));
        }
        assert forall|i: int, p: int| 0 <= i < em.len() && #[trigger] has_edge(e, p, em[i] as int)
            implies em.subrange(0, i).contains(p as usize) by {
            if i == em.len() - 1 {
                assert(em.subrange(0, i) == em0);
                let ke = choose|ke: int| 0 <= ke < e.len() && #[trigger] e[ke] == (p, x as int);
                assert(0 <= e[ke].0 < n);
                assert(ord0[p]);
            } else {
                assert(em0[i] == em[i]);
                assert(has_edge(e, p, em0[i] as int));
                assert(em.subrange(0, i) == em0.subrange(0, i));
            }
        }
    }

    /// After the successors of the emitted `x` have been looked at, every
    /// available node is in the frontier.
    proof fn lemma_frontier_complete(
        &self,
        g: DiGraph<usize, ()>,
        ord0: Seq<bool>,
        tv1: Seq<usize>,
        x: usize,
        succs: Seq<usize>,
    )
        requires
            self.wf_but_frontier(g),
            x < graph_nodes(g).len(),
            ord0.len() == graph_nodes(g).len(),
            self.ordered@ == ord0.update(x as int, true),
            forall|v: int|
                0 <= v < graph_nodes(g).len() && !ord0[v] && v != x as int && #[trigger] preds_done(
                    graph_edges(g),
                    ord0,
                    v,
                ) ==> tv1.contains(v as usize),
            self.tovisit@.len() >= tv1.len(),
            forall|j: int| 0 <= j < tv1.len() ==> #[trigger] self.tovisit@[j] == tv1[j],
            forall|b: int| has_edge(graph_edges(g), x as int, b) ==> succs.contains(b as usize),
            forall|j: int|
                0 <= j < succs.len() && preds_done(graph_edges(g), self.ordered@, #[trigger] succs[j] as int)
                    ==> self.tovisit@.contains(succs[j]),
        ensures
            self.wf(g),
    {
        let e = graph_edges(g);
        let n = graph_nodes(g).len();
        assert forall|v: int|
            0 <= v < n && !self.ordered@[v] && #[trigger] preds_done(e, self.ordered@, v)
                implies self.tovisit@.contains(v as usize) by {
            assert(v != x as int);
            assert(!ord0[v]);
            if preds_done(e, ord0, v) {
                let q = choose|q: int| 0 <= q < tv1.len() && tv1[q] == v as usize;
                assert(self.tovisit@[q] == v as usize);
            } else {
                let p = choose|p: int| has_edge(e, p, v) && !ord0[p];
                assert(self.ordered@[p]);
                assert(p == x as int);
                assert(succs.contains(v as usize));
                let j = choose|j: int| 0 <= j < succs.len() && succs[j] == v as usize;
                assert(succs[j] as int == v);
                assert(preds_done(e, self.ordered@, succs[j] as int));
            }
        }
    }

    /// Once the frontier is empty, an acyclic graph has had all its nodes
    /// emitted.
    proof fn lemma_done_complete(&self, g: DiGraph<usize, ()>)
        requires
            self.wf(g),
            self.tovisit@.len() == 0,
            is_acyclic(graph_edges(g)),
        ensures
            forall|v: int| 0 <= v < graph_nodes(g).len() ==> #[trigger] self.emitted@.contains(v as usize),
    {
        let e = graph_edges(g);
        let n = graph_nodes(g).len();
        let ordered = self.ordered@;
        assert forall|v: int| 0 <= v < n && !ordered[v] implies exists|p: int|
            #[trigger] has_edge(e, p, v) && !ordered[p] by {
            if !preds_done(e, ordered, v) {
                let p = choose|p: int| !(has_edge(e, p, v) ==> ordered[p]);
                assert(has_edge(e, p, v) && !ordered[p]);
            } else {
                assert(self.tovisit@.contains(v as usize));
            }
        }
        assert forall|v: int| 0 <= v < n implies #[trigger] self.emitted@.contains(v as usize) by {
            if !ordered[v] {
                let w = seq![v as usize];
                lemma_walk_back(e, n, ordered, w);
            }
        }
    }

    /// A sort never emits more nodes than the graph has.
    proof fn lemma_emitted_bounded(&self, g: DiGraph<usize, ()>)
        requires
            self.wf(g),
        ensures
            self.emitted@.len() <= graph_nodes(g).len(),
    {
        lemma_distinct_len(self.emitted@, graph_nodes(g).len());
    }

    /// What `wf` says of the nodes emitted.
    proof fn lemma_facts(&self, g: DiGraph<usize, ()>)
        requires
            self.wf(g),
        ensures
            self.emitted@.no_duplicates(),
            forall|k: int| 0 <= k < self.emitted@.len() ==> #[trigger] self.emitted@[k] < graph_nodes(g).len(),
            respects_edges(graph_edges(g), self.emitted@),
    {
    }
}

/// Sorts the nodes of `g`: each node comes after its predecessors, and of
/// the nodes whose predecessors have all been emitted the one with the
/// greatest key comes first. On an acyclic graph every node is emitted, once.
pub fn stable_order(g: &DiGraph<usize, ()>, keys: &Vec<String>) -> (r: Vec<usize>)
    requires
        keys@.len() == graph_nodes(*g).len(),
    ensures
        r@.no_duplicates(),
        forall|k: int| 0 <= k < r@.len() ==> #[trigger] r@[k] < graph_nodes(*g).len(),
        respects_edges(graph_edges(*g), r@),
        greedy_order(key_seqs(keys@), graph_edges(*g), graph_nodes(*g).len(), r@),
        is_acyclic(graph_edges(*g)) ==> forall|v: int|
            0 <= v < graph_nodes(*g).len() ==> #[trigger] r@.contains(v as usize),
{
    let ghost e = graph_edges(*g);
    let ghost n = graph_nodes(*g).len();
    let mut topo = StableTopo::new(g);
    let mut out: Vec<usize> = Vec::new();
    loop
        invariant
            topo.wf(*g),
            e == graph_edges(*g),
            n == graph_nodes(*g).len(),
            keys@.len() == n,
            out@ == topo.emitted(),
            greedy_order(key_seqs(keys@), e, n, out@),
        ensures
            out@.no_duplicates(),
            forall|k: int| 0 <= k < out@.len() ==> #[trigger] out@[k] < n,
            respects_edges(e, out@),
            greedy_order(key_seqs(keys@), e, n, out@),
            is_acyclic(e) ==> forall|v: int| 0 <= v < n ==> #[trigger] out@.contains(v as usize),
        decreases n - out@.len(),
    {
        proof {
            topo.lemma_emitted_bounded(*g);
        }
        match topo.next(g, keys) {
            Some(v) => {
                let ghost prev = out@;
                out.push(v);
                proof {
                    topo.lemma_emitted_bounded(*g);
                    assert(out@.subrange(0, prev.len() as int) == prev);
                    assert forall|i: int| 0 <= i < out@.len() implies {
                        &&& available(e, n, out@.subrange(0, i), #[trigger] out@[i] as int)
                        &&& forall|w: int|
                            available(e, n, out@.subrange(0, i), w) ==> !seq_lt(
                                key_seqs(keys@)[out@[i] as int],
                                key_seqs(keys@)[w],
                            )
                    } by {
                        if i < prev.len() {
                            assert(out@.subrange(0, i) == prev.subrange(0, i));
                            assert(out@[i] == prev[i]);
                        } else {
                            assert forall|w: int| available(e, n, out@.subrange(0, i), w) implies !seq_lt(
                                key_seqs(keys@)[out@[i] as int],
                                key_seqs(keys@)[w],
                            ) by {
                                assert(!seq_lt(keys@[v as int]@, keys@[w]@));
                            }
                        }
                    }
                }
            },
            None => {
                proof {
                    topo.lemma_facts(*g);
                    if is_acyclic(e) {
                        topo.lemma_done_complete(*g);
                    }
                }
                break;
            },
        }
    }
    out
}

} // verus!
