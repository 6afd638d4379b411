//! HNSW (Hierarchical Navigable Small World) graph index.
//!
//! The graph stores, for every node, its record id, its vector (each component
//! kept as the bit pattern of an `f32`), its level and one neighbour list per
//! layer `0..=level`.  Distances are supplied by the caller as an oracle that
//! maps two vectors to an order key: a smaller key means a closer pair.
use vstd::prelude::*;
use std::collections::HashSet;
use vstd::set_lib::{lemma_len_subset, lemma_int_range, set_int_range};
use crate::le::{le_bytes, le_value, pow256, lemma_le_bytes_len, lemma_le_value_bound, push_le, lemma_pow_values};
use crate::codec::{
    FormatError, sp_uint, sp_text, sp_words, sp_list, prepend, utf8_of, words_bytes, list_bytes,
    read_uint, read_text, read_words, read_list, push_str_bytes, utf8_len, push_words, push_list,
    lemma_split, lemma_text_roundtrip, lemma_uint_roundtrip, lemma_words_roundtrip,
    lemma_list_roundtrip, lemma_words_bytes_len,
};

verus! {

broadcast use vstd::std_specs::hash::group_hash_axioms;

/// The first four bytes of an index file.
pub open spec fn index_magic() -> Seq<u8> {
    seq![0x48u8, 0x4Eu8, 0x57u8, 0x31u8]
}

/// Highest level a node can be given.
pub const MAX_LEVEL: usize = 16;

/// Default number of neighbours per node on the upper layers.
pub const DEFAULT_M: usize = 16;

/// Default beam width while inserting.
pub const DEFAULT_EF_CONSTRUCTION: usize = 200;

/// A distance oracle is usable when it accepts every pair of vectors and
/// always answers the same pair with the same key.
pub open spec fn oracle_ok<F: Fn(&Vec<u32>, &Vec<u32>) -> u64>(f: &F) -> bool {
    &&& forall|a: &Vec<u32>, b: &Vec<u32>| #[trigger] f.requires((a, b))
    &&& forall|a: &Vec<u32>, b: &Vec<u32>, x: u64, y: u64|
        #[trigger] f.ensures((a, b), x) && #[trigger] f.ensures((a, b), y) ==> x == y
}

/// The key the oracle gives to a pair of vectors.
pub open spec fn dist_key<F: Fn(&Vec<u32>, &Vec<u32>) -> u64>(f: &F, a: &Vec<u32>, b: &Vec<u32>) -> u64 {
    choose|x: u64| f.ensures((a, b), x)
}

/// Asks the oracle for the key of a pair.
fn measure<F: Fn(&Vec<u32>, &Vec<u32>) -> u64>(f: &F, a: &Vec<u32>, b: &Vec<u32>) -> (r: u64)
    requires
        oracle_ok(f),
    ensures
        r == dist_key(f, a, b),
{
    let r = f(a, b);
    assert(f.ensures((a, b), r));
    r
}

/// One node of the graph.
pub struct Node {
    pub id: String,
    pub vector: Vec<u32>,
    pub level: usize,
    pub connections: Vec<Vec<usize>>,
}

/// The layered proximity graph.
pub struct Hnsw {
    m: usize,
    m_max0: usize,
    ef_construction: usize,
    entry_point: Option<usize>,
    max_layer: usize,
    nodes: Vec<Node>,
}

/// Neighbour list of node `i` on layer `l` (empty above the node's level).
pub open spec fn conn_of(nodes: Seq<Node>, i: int, l: int) -> Seq<usize> {
    if 0 <= l < nodes[i].connections@.len() {
        nodes[i].connections@[l]@
    } else {
        Seq::empty()
    }
}

/// No neighbour list repeats a node or names the node it belongs to.
pub open spec fn simple_nodes(nodes: Seq<Node>) -> bool {
    forall|i: int, l: int|
        0 <= i < nodes.len() ==> #[trigger] conn_of(nodes, i, l).no_duplicates() && !conn_of(nodes, i, l).contains(i as usize)
}

/// Changing one list of simple nodes into a list without repeats and
/// without its own node keeps them simple.
proof fn lemma_simple_after_change(before: Seq<Node>, cur: Seq<Node>, e: int, lc: int)
    requires
        simple_nodes(before),
        0 <= e < before.len(),
        cur.len() == before.len(),
        forall|i: int, l: int| 0 <= i < before.len() && (i != e || l != lc) ==> #[trigger] conn_of(cur, i, l) == conn_of(before, i, l),
        conn_of(cur, e, lc).no_duplicates(),
        !conn_of(cur, e, lc).contains(e as usize),
    ensures
        simple_nodes(cur),
{
    assert forall|i: int, l: int|
        0 <= i < cur.len() implies #[trigger] conn_of(cur, i, l).no_duplicates() && !conn_of(cur, i, l).contains(i as usize) by {
        if i != e || l != lc {
            assert(conn_of(cur, i, l) == conn_of(before, i, l));
            assert(conn_of(before, i, l).no_duplicates());
            assert(!conn_of(before, i, l).contains(i as usize));
        }
    }
}

/// Every edge points at an existing node whose level reaches the edge's layer.
pub open spec fn edges_ok(nodes: Seq<Node>) -> bool {
    forall|i: int, l: int, k: int|
        0 <= i < nodes.len() && 0 <= l < nodes[i].connections@.len() && 0 <= k
            < nodes[i].connections@[l]@.len() ==> {
            let t = #[trigger] nodes[i].connections@[l]@[k];
            &&& (t as int) < nodes.len()
            &&& nodes[t as int].level >= l
        }
}

/// Every node has exactly one neighbour list per layer `0..=level`.
pub open spec fn layers_ok(nodes: Seq<Node>) -> bool {
    forall|i: int| 0 <= i < nodes.len() ==> #[trigger] nodes[i].connections@.len() == nodes[i].level + 1
}

/// The neighbour limit of layer `l`.
pub open spec fn limit_of(m: int, m_max0: int, l: int) -> int {
    if l == 0 {
        m_max0
    } else {
        m
    }
}

/// Two graphs whose nodes have the same vectors see the same keys.
proof fn lemma_keys_same<F: Fn(&Vec<u32>, &Vec<u32>) -> u64>(a: Hnsw, b: Hnsw, f: &F, i: int, w: Seq<usize>)
    requires
        a.nodes@.len() == b.nodes@.len(),
        forall|j: int| 0 <= j < a.nodes@.len() ==> #[trigger] a.nodes@[j].vector == b.nodes@[j].vector,
        0 <= i < a.nodes@.len(),
        forall|t: int| 0 <= t < w.len() ==> (#[trigger] w[t] as int) < a.nodes@.len(),
    ensures
        a.keys_from(f, i, w) == b.keys_from(f, i, w),
{
    assert(a.nodes@[i].vector == b.nodes@[i].vector);
    assert forall|t: int| 0 <= t < w.len() implies #[trigger] a.keys_from(f, i, w)[t] == b.keys_from(f, i, w)[t] by {
        assert(a.nodes@[w[t] as int].vector == b.nodes@[w[t] as int].vector);
    }
    assert(a.keys_from(f, i, w) =~= b.keys_from(f, i, w));
}

/// Positions of a scored list whose node indices are pairwise different.
pub open spec fn distinct_nodes(s: Seq<(u64, usize)>) -> bool {
    forall|a: int, b: int| 0 <= a < s.len() && 0 <= b < s.len() && a != b ==> #[trigger] s[a].1 != #[trigger] s[b].1
}

/// `new` is the index `old` becomes when a node for record `id` with
/// `vector` and drawn level `drawn` is inserted: the earlier nodes are kept
/// (their lists only losing entries or gaining the new node), the new node
/// is appended with the level capped at `MAX_LEVEL`, the entry point moves
/// to it when it reaches above the top layer, and on each layer it shares
/// with the graph its list holds the best of a beam gathered in `old`,
/// each chosen neighbour's list taking it in (pruned to the layer's limit).
pub open spec fn inserted<F: Fn(&Vec<u32>, &Vec<u32>) -> u64>(f: &F, old: Hnsw, new: Hnsw, id: Seq<char>, vector: Seq<u32>, drawn: usize) -> bool {
    let q = old.size() as int;
    &&& new.wf()
    &&& old.degree_ok() ==> new.degree_ok()
    &&& old.simple_links() ==> new.simple_links()
    &&& grown_from(old.nodes_view(), new.nodes_view(), q)
    &&& forall|i: int, l: int| 0 <= i < q && !new.conn(q, l).contains(i as usize) ==> #[trigger] new.conn(i, l) == old.conn(i, l)
    &&& new.size() == q + 1
    &&& forall|i: int| 0 <= i < q ==> {
        &&& #[trigger] new.id_at(i) == old.id_at(i)
        &&& new.vector_at(i) == old.vector_at(i)
        &&& new.level_at(i) == old.level_at(i)
    }
    &&& new.id_at(q) == id
    &&& new.vector_at(q) == vector
    &&& new.level_at(q) == if drawn < MAX_LEVEL { drawn } else { MAX_LEVEL }
    &&& new.m_spec() == old.m_spec()
    &&& new.ef_spec() == old.ef_spec()
    &&& old.entry() is None ==> new.entry() == Some(0usize) && new.top_layer() == new.level_at(0)
    &&& old.entry() is Some && new.level_at(q) > old.top_layer() ==> new.entry() == Some(q as usize) && new.top_layer() == new.level_at(q)
    &&& old.entry() is Some && new.level_at(q) <= old.top_layer() ==> new.entry() == old.entry() && new.top_layer() == old.top_layer()
    &&& old.entry() is Some ==> forall|l: int| l > old.top_layer() ==> #[trigger] new.conn(q, l).len() == 0
    &&& old.entry() is Some ==> exists|ss: Seq<usize>, ws: Seq<Seq<usize>>| #[trigger] new.beams_from(f, old, ss, ws)
    &&& old.entry() is Some ==> forall|l: int, t: int|
        0 <= l <= new.level_at(q) && l <= old.top_layer() && 0 <= t < new.conn(q, l).len()
            ==> new.linked_back(f, old, #[trigger] new.conn(q, l)[t], q as usize, l)
}

/// `hs` runs from an empty index with the default parameters through one
/// insertion per item (record id, vector, drawn level), in order, to `h`.
pub open spec fn built_by_inserts<F: Fn(&Vec<u32>, &Vec<u32>) -> u64>(f: &F, hs: Seq<Hnsw>, items: Seq<(String, Vec<u32>, usize)>, h: Hnsw) -> bool {
    &&& hs.len() == items.len() + 1
    &&& hs[0].wf() && hs[0].degree_ok() && hs[0].size() == 0 && hs[0].entry() is None && hs[0].top_layer() == 0
    &&& hs[0].m_spec() == DEFAULT_M && hs[0].ef_spec() == DEFAULT_EF_CONSTRUCTION
    &&& forall|i: int| 0 <= i < items.len() ==> #[trigger] inserted(f, hs[i], hs[i + 1], items[i].0@, items[i].1@, items[i].2)
    &&& hs.last() == h
}

/// The beam width a search uses on the bottom layer: `max(ef, k, 1)`.
pub open spec fn search_width(k: usize, ef: usize) -> int {
    if ef > k { ef as int } else if k == 0 { 1 } else { k as int }
}

/// The width of a beam with parameter `ef`: `max(ef, 1)`.
pub open spec fn beam_cap(ef: nat) -> int {
    if ef == 0 { 1 } else { ef as int }
}

/// Some entry of `s` is for node `x`.
spec fn holds_node(s: Seq<(u64, usize)>, x: usize) -> bool {
    exists|t: int| 0 <= t < s.len() && #[trigger] s[t].1 == x
}

/// An entry of `s` with `y` appended is one of `s` or `y`.
proof fn lemma_holds_push(s: Seq<(u64, usize)>, y: (u64, usize), x: usize)
    requires
        holds_node(s.push(y), x),
    ensures
        holds_node(s, x) || x == y.1,
{
    let t = choose|t: int| 0 <= t < s.push(y).len() && #[trigger] s.push(y)[t].1 == x;
    if t < s.len() {
        assert(s[t] == s.push(y)[t]);
    }
}

/// An entry of `s` with one entry removed is one of `s`.
proof fn lemma_holds_remove(s: Seq<(u64, usize)>, i: int, x: usize)
    requires
        0 <= i < s.len(),
        holds_node(s.remove(i), x),
    ensures
        holds_node(s, x),
{
    let t = choose|t: int| 0 <= t < s.remove(i).len() && #[trigger] s.remove(i)[t].1 == x;
    if t < i {
        assert(s.remove(i)[t] == s[t]);
    } else {
        assert(s.remove(i)[t] == s[t + 1]);
    }
}

proof fn lemma_remove_index<T>(s: Seq<T>, i: int)
    requires
        0 <= i < s.len(),
    ensures
        s.remove(i).len() == s.len() - 1,
        forall|t: int| 0 <= t < i ==> #[trigger] s.remove(i)[t] == s[t],
        forall|t: int| i <= t < s.len() - 1 ==> #[trigger] s.remove(i)[t] == s[t + 1],
{
}

proof fn lemma_remove_distinct(s: Seq<(u64, usize)>, i: int)
    requires
        0 <= i < s.len(),
        distinct_nodes(s),
    ensures
        distinct_nodes(s.remove(i)),
{
    lemma_remove_index(s, i);
    let r = s.remove(i);
    assert forall|a: int, b: int| 0 <= a < r.len() && 0 <= b < r.len() && a != b implies #[trigger] r[a].1
        != #[trigger] r[b].1 by {
        let a2 = if a < i { a } else { a + 1 };
        let b2 = if b < i { b } else { b + 1 };
        assert(r[a] == s[a2]);
        assert(r[b] == s[b2]);
    }
}

/// Index of a smallest key (the first one among equals).
fn min_pos(v: &Vec<(u64, usize)>) -> (r: usize)
    requires
        v@.len() > 0,
    ensures
        r < v@.len(),
        forall|t: int| 0 <= t < v@.len() ==> v@[r as int].0 <= #[trigger] v@[t].0,
{
    let mut best: usize = 0;
    let mut i: usize = 1;
    while i < v.len()
        invariant
            v@.len() > 0,
            1 <= i <= v@.len(),
            best < v@.len(),
            forall|t: int| 0 <= t < i ==> v@[best as int].0 <= #[trigger] v@[t].0,
        decreases v@.len() - i,
    {
        if v[i].0 < v[best].0 {
            best = i;
        }
        i = i + 1;
    }
    best
}

/// Index of a largest key (the first one among equals).
fn max_pos(v: &Vec<(u64, usize)>) -> (r: usize)
    requires
        v@.len() > 0,
    ensures
        r < v@.len(),
        forall|t: int| 0 <= t < v@.len() ==> #[trigger] v@[t].0 <= v@[r as int].0,
{
    let mut best: usize = 0;
    let mut i: usize = 1;
    while i < v.len()
        invariant
            v@.len() > 0,
            1 <= i <= v@.len(),
            best < v@.len(),
            forall|t: int| 0 <= t < i ==> #[trigger] v@[t].0 <= v@[best as int].0,
        decreases v@.len() - i,
    {
        if v[i].0 > v[best].0 {
            best = i;
        }
        i = i + 1;
    }
    best
}

/// Position `a` comes before position `b` when its key is smaller, or the
/// keys are equal and `a` is earlier.
pub open spec fn ranks_before(keys: Seq<u64>, a: int, b: int) -> bool {
    keys[a] < keys[b] || (keys[a] == keys[b] && a < b)
}

/// `p` lists every position of `keys` once, in increasing key order, equal
/// keys keeping their relative order (the order a stable sort produces).
pub open spec fn stable_order(keys: Seq<u64>, p: Seq<usize>) -> bool {
    &&& p.len() == keys.len()
    &&& forall|t: int| 0 <= t < p.len() ==> (#[trigger] p[t] as int) < keys.len()
    &&& forall|a: int, b: int|
        0 <= a < b < p.len() ==> ranks_before(keys, #[trigger] p[a] as int, #[trigger] p[b] as int)
    &&& forall|x: usize| (x as int) < keys.len() ==> #[trigger] p.contains(x)
}

/// The positions of `keys` in stable ascending order.
fn stable_rank(keys: &Vec<u64>) -> (p: Vec<usize>)
    ensures
        stable_order(keys@, p@),
{
    let mut p: Vec<usize> = Vec::new();
    let mut i: usize = 0;
    while i < keys.len()
        invariant
            i <= keys@.len(),
            p@.len() == i,
            forall|t: int| 0 <= t < p@.len() ==> (#[trigger] p@[t] as int) < i,
            forall|a: int, b: int|
                0 <= a < b < p@.len() ==> ranks_before(keys@, #[trigger] p@[a] as int, #[trigger] p@[b] as int),
            forall|x: usize| (x as int) < i ==> #[trigger] p@.contains(x),
        decreases keys@.len() - i,
    {
        let ki = keys[i];
        let mut t: usize = 0;
        while t < p.len() && keys[p[t]] <= ki
            invariant
                i < keys@.len(),
                ki == keys@[i as int],
                t <= p@.len(),
                forall|u: int| 0 <= u < p@.len() ==> (#[trigger] p@[u] as int) < i,
                forall|u: int| 0 <= u < t ==> keys@[#[trigger] p@[u] as int] <= ki,
            decreases p@.len() - t,
        {
            t = t + 1;
        }
        let ghost old_p = p@;
        p.insert(t, i);
        proof {
            assert(forall|u: int| 0 <= u < t ==> #[trigger] p@[u] == old_p[u]);
            assert(p@[t as int] == i);
            assert(forall|u: int| t < u < p@.len() ==> #[trigger] p@[u] == old_p[u - 1]);
            assert forall|u: int| t <= u < old_p.len() implies keys@[#[trigger] old_p[u] as int] > ki by {
                if u > t {
                    assert(ranks_before(keys@, old_p[t as int] as int, old_p[u] as int));
                }
            }
            assert forall|a: int, b: int|
                0 <= a < b < p@.len() implies ranks_before(keys@, #[trigger] p@[a] as int, #[trigger] p@[b] as int) by {
                if b < t {
                } else if b == t {
                } else if a < t {
                    assert(p@[b] == old_p[b - 1]);
                } else if a == t {
                    assert(p@[b] == old_p[b - 1]);
                } else {
                    assert(p@[a] == old_p[a - 1]);
                    assert(p@[b] == old_p[b - 1]);
                }
            }
            assert forall|x: usize| (x as int) < i + 1 implies #[trigger] p@.contains(x) by {
                if x == i {
                    assert(p@[t as int] == x);
                } else {
                    assert(old_p.contains(x));
                    let u = choose|u: int| 0 <= u < old_p.len() && old_p[u] == x;
                    if u < t {
                        assert(p@[u] == x);
                    } else {
                        assert(p@[u + 1] == x);
                    }
                }
            }
        }
        i = i + 1;
    }
    p
}

/// `new` equals `old` except that node `i`'s list on layer `l` is now `list`.
pub open spec fn conn_replaced(old: Seq<Node>, new: Seq<Node>, i: int, l: int, list: Seq<usize>) -> bool {
    &&& new.len() == old.len()
    &&& 0 <= i < old.len()
    &&& 0 <= l < old[i].connections@.len()
    &&& forall|j: int| 0 <= j < old.len() && j != i ==> #[trigger] new[j] == old[j]
    &&& new[i].id == old[i].id
    &&& new[i].vector == old[i].vector
    &&& new[i].level == old[i].level
    &&& new[i].connections@.len() == old[i].connections@.len()
    &&& forall|l2: int| 0 <= l2 < old[i].connections@.len() && l2 != l ==> #[trigger] new[i].connections@[l2] == old[i].connections@[l2]
    &&& new[i].connections@[l]@ == list
}

/// Every entry of `list` may stand on layer `l` of `nodes`.
pub open spec fn list_ok(nodes: Seq<Node>, l: int, list: Seq<usize>) -> bool {
    forall|k: int| 0 <= k < list.len() ==> (#[trigger] list[k] as int) < nodes.len() && nodes[list[k] as int].level >= l
}

proof fn lemma_conn_replaced(old: Seq<Node>, new: Seq<Node>, i: int, l: int, list: Seq<usize>)
    requires
        conn_replaced(old, new, i, l, list),
        layers_ok(old),
        edges_ok(old),
        list_ok(old, l, list),
    ensures
        layers_ok(new),
        edges_ok(new),
        forall|j: int| 0 <= j < new.len() ==> #[trigger] new[j].level == old[j].level,
        forall|j: int, l2: int| 0 <= j < new.len() && (j != i || l2 != l) ==> #[trigger] conn_of(new, j, l2) == conn_of(old, j, l2),
        conn_of(new, i, l) == list,
{
    assert forall|j: int| 0 <= j < new.len() implies #[trigger] new[j].connections@.len() == new[j].level + 1 by {
        if j != i {
            assert(new[j] == old[j]);
        }
        assert(old[j].connections@.len() == old[j].level + 1);
    }
    assert forall|j: int| 0 <= j < new.len() implies #[trigger] new[j].level == old[j].level by {
        if j != i {
            assert(new[j] == old[j]);
        }
    }
    assert forall|j: int, l2: int, k: int|
        0 <= j < new.len() && 0 <= l2 < new[j].connections@.len() && 0 <= k < new[j].connections@[l2]@.len() implies {
            let t = #[trigger] new[j].connections@[l2]@[k];
            &&& (t as int) < new.len()
            &&& new[t as int].level >= l2
        } by {
        let t = new[j].connections@[l2]@[k];
        if j == i && l2 == l {
            assert(list[k] == t);
        } else if j == i {
            assert(new[i].connections@[l2] == old[i].connections@[l2]);
            assert(old[j].connections@[l2]@[k] == t);
        } else {
            assert(new[j] == old[j]);
            assert(old[j].connections@[l2]@[k] == t);
        }
        if t != i {
            assert(new[t as int] == old[t as int]);
        }
    }
    assert forall|j: int, l2: int| 0 <= j < new.len() && (j != i || l2 != l) implies #[trigger] conn_of(new, j, l2) == conn_of(old, j, l2) by {
        if j != i {
            assert(new[j] == old[j]);
        }
    }
}

/// Copies a vector of vector components.
fn copy_u32s(v: &Vec<u32>) -> (r: Vec<u32>)
    ensures
        r@ == v@,
{
    let mut r: Vec<u32> = Vec::new();
    let mut i: usize = 0;
    while i < v.len()
        invariant
            i <= v@.len(),
            r@ == v@.take(i as int),
        decreases v@.len() - i,
    {
        r.push(v[i]);
        assert(r@ =~= v@.take(i + 1));
        i = i + 1;
    }
    assert(r@ =~= v@);
    r
}

/// Copies a neighbour list.
fn copy_usizes(v: &Vec<usize>) -> (r: Vec<usize>)
    ensures
        r@ == v@,
{
    let mut r: Vec<usize> = Vec::new();
    let mut i: usize = 0;
    while i < v.len()
        invariant
            i <= v@.len(),
            r@ == v@.take(i as int),
        decreases v@.len() - i,
    {
        r.push(v[i]);
        assert(r@ =~= v@.take(i + 1));
        i = i + 1;
    }
    assert(r@ =~= v@);
    r
}

/// `new` is `old` plus node `q`, with every earlier node's fields kept and
/// its neighbour lists only losing entries or gaining `q`.
pub open spec fn grown_from(old: Seq<Node>, new: Seq<Node>, q: int) -> bool {
    &&& q == old.len()
    &&& new.len() == old.len() + 1
    &&& forall|i: int| 0 <= i < old.len() ==> {
        &&& #[trigger] new[i].id == old[i].id
        &&& new[i].vector == old[i].vector
        &&& new[i].level == old[i].level
    }
    &&& forall|i: int, l: int, x: usize|
        0 <= i < old.len() && #[trigger] conn_of(new, i, l).contains(x) ==> conn_of(old, i, l).contains(x) || x == q
}

impl Hnsw {
    /// The nodes of the graph.
    pub closed spec fn nodes_view(&self) -> Seq<Node> {
        self.nodes@
    }

    /// Number of nodes.
    pub closed spec fn size(&self) -> nat {
        self.nodes@.len()
    }

    /// The record id of node `i`.
    pub closed spec fn id_at(&self, i: int) -> Seq<char> {
        self.nodes@[i].id@
    }

    /// The stored vector of node `i`.
    pub closed spec fn vector_at(&self, i: int) -> Seq<u32> {
        self.nodes@[i].vector@
    }

    /// The level of node `i`.
    pub closed spec fn level_at(&self, i: int) -> nat {
        self.nodes@[i].level as nat
    }

    /// The neighbours of node `i` on layer `l`.
    pub closed spec fn conn(&self, i: int, l: int) -> Seq<usize> {
        conn_of(self.nodes@, i, l)
    }

    /// The entry point of searches, if the index holds any node.
    pub closed spec fn entry(&self) -> Option<usize> {
        self.entry_point
    }

    /// The highest layer in use.
    pub closed spec fn top_layer(&self) -> nat {
        self.max_layer as nat
    }

    /// The neighbour-count parameter `M`.
    pub closed spec fn m_spec(&self) -> nat {
        self.m as nat
    }

    /// The beam width used while inserting.
    pub closed spec fn ef_spec(&self) -> nat {
        self.ef_construction as nat
    }

    /// The structural invariant every index keeps.
    pub closed spec fn wf(&self) -> bool {
        &&& self.m_max0 == 2 * self.m
        &&& layers_ok(self.nodes@)
        &&& edges_ok(self.nodes@)
        &&& (self.entry_point is None <==> self.nodes@.len() == 0)
        &&& (self.entry_point matches Some(e) ==> e < self.nodes@.len() && self.nodes@[e as int].level
            == self.max_layer)
    }

    /// No node has more neighbours on a layer than that layer's limit.
    pub closed spec fn degree_ok(&self) -> bool {
        forall|i: int, l: int|
            0 <= i < self.nodes@.len() && 0 <= l < self.nodes@[i].connections@.len() ==> (
            #[trigger] self.nodes@[i].connections@[l]@.len()) <= limit_of(
                self.m as int,
                self.m_max0 as int,
                l,
            )
    }

    /// No neighbour list repeats a node or names the node it belongs to.
    pub open spec fn simple_links(&self) -> bool {
        forall|i: int, l: int|
            0 <= i < self.size() ==> #[trigger] self.conn(i, l).no_duplicates() && !self.conn(i, l).contains(i as usize)
    }

    /// An empty index with the default parameters.
    pub fn new() -> (h: Self)
        ensures
            h.wf(),
            h.degree_ok(),
            h.simple_links(),
            h.size() == 0,
            h.entry() is None,
            h.top_layer() == 0,
            h.m_spec() == DEFAULT_M,
            h.ef_spec() == DEFAULT_EF_CONSTRUCTION,
    {
        let m = DEFAULT_M;
        Hnsw {
            m,
            m_max0: m * 2,
            ef_construction: DEFAULT_EF_CONSTRUCTION,
            entry_point: None,
            max_layer: 0,
            nodes: Vec::new(),
        }
    }

    /// Number of nodes in the index.
    pub fn len(&self) -> (r: usize)
        ensures
            r == self.size(),
    {
        self.nodes.len()
    }

    /// Whether the index holds no node.
    pub fn is_empty(&self) -> (r: bool)
        ensures
            r == (self.size() == 0),
    {
        self.nodes.len() == 0
    }

    /// The neighbour-count parameter `M`.
    pub fn m(&self) -> (r: usize)
        ensures
            r == self.m_spec(),
    {
        self.m
    }

    /// The record id of node `i`.
    pub fn id(&self, i: usize) -> (r: &String)
        requires
            i < self.size(),
        ensures
            r@ == self.id_at(i as int),
    {
        &self.nodes[i].id
    }

    /// The neighbours of `node` on `layer`; empty above the node's level.
    fn connections_at(&self, node: usize, layer: usize) -> (r: &[usize])
        requires
            node < self.nodes@.len(),
        ensures
            r@ == self.conn(node as int, layer as int),
    {
        let n = &self.nodes[node];
        if layer < n.connections.len() {
            n.connections[layer].as_slice()
        } else {
            &[]
        }
    }

    /// The oracle's key between `q` and node `i`.
    pub closed spec fn qdist<F: Fn(&Vec<u32>, &Vec<u32>) -> u64>(&self, f: &F, q: &Vec<u32>, i: int) -> u64 {
        dist_key(f, q, &self.nodes@[i].vector)
    }

    fn node_dist<F: Fn(&Vec<u32>, &Vec<u32>) -> u64>(&self, f: &F, q: &Vec<u32>, i: usize) -> (r: u64)
        requires
            oracle_ok(f),
            i < self.nodes@.len(),
        ensures
            r == self.qdist(f, q, i as int),
    {
        measure(f, q, &self.nodes[i].vector)
    }

    /// The closest to `q` of `start` and the first `k` of its neighbours on
    /// `layer`, scanning in list order: a neighbour replaces the best so far
    /// only when strictly closer.
    pub open spec fn scan_best<F: Fn(&Vec<u32>, &Vec<u32>) -> u64>(&self, f: &F, q: &Vec<u32>, start: usize, layer: int, k: int) -> usize
        decreases k,
    {
        if k <= 0 {
            start
        } else {
            let b = self.scan_best(f, q, start, layer, k - 1);
            let nb = self.conn(start as int, layer)[k - 1];
            if self.qdist(f, q, nb as int) < self.qdist(f, q, b as int) {
                nb
            } else {
                b
            }
        }
    }

    /// A scan ends at `start` or at a node strictly closer than it.
    pub proof fn lemma_scan_best<F: Fn(&Vec<u32>, &Vec<u32>) -> u64>(&self, f: &F, q: &Vec<u32>, start: usize, layer: int, k: int)
        ensures
            self.qdist(f, q, self.scan_best(f, q, start, layer, k) as int) <= self.qdist(f, q, start as int),
            self.scan_best(f, q, start, layer, k) == start || self.qdist(f, q, self.scan_best(f, q, start, layer, k) as int)
                < self.qdist(f, q, start as int),
        decreases k,
    {
        if k > 0 {
            self.lemma_scan_best(f, q, start, layer, k - 1);
        }
    }

    /// One greedy step on `layer`: the closest of `cur` and its neighbours
    /// there, the first in list order on ties, `cur` itself when no
    /// neighbour is strictly closer.
    pub open spec fn greedy_step<F: Fn(&Vec<u32>, &Vec<u32>) -> u64>(&self, f: &F, q: &Vec<u32>, cur: usize, layer: int) -> usize {
        self.scan_best(f, q, cur, layer, self.conn(cur as int, layer).len() as int)
    }

    /// Where the greedy walk from `cur` on `layer` stops: it takes greedy
    /// steps while they move to a strictly closer node.
    pub open spec fn greedy_from<F: Fn(&Vec<u32>, &Vec<u32>) -> u64>(&self, f: &F, q: &Vec<u32>, cur: usize, layer: int) -> usize
        decreases self.qdist(f, q, cur as int),
    {
        let nxt = self.greedy_step(f, q, cur, layer);
        if nxt == cur {
            cur
        } else {
            proof {
                self.lemma_scan_best(f, q, cur, layer, self.conn(cur as int, layer).len() as int);
            }
            self.greedy_from(f, q, nxt, layer)
        }
    }

    /// A scan ends at a node no farther than any neighbour it passed.
    proof fn lemma_scan_best_min<F: Fn(&Vec<u32>, &Vec<u32>) -> u64>(&self, f: &F, q: &Vec<u32>, start: usize, layer: int, k: int)
        ensures
            forall|j: int| 0 <= j < k ==> self.qdist(f, q, self.scan_best(f, q, start, layer, k) as int) <= self.qdist(
                f,
                q,
                #[trigger] self.conn(start as int, layer)[j] as int,
            ),
        decreases k,
    {
        if k > 0 {
            self.lemma_scan_best_min(f, q, start, layer, k - 1);
        }
    }

    /// A greedy walk stops at a local minimum: no neighbour on the layer is
    /// closer to `q` than where it stops, which is no farther than `cur`.
    pub proof fn lemma_greedy_local_min<F: Fn(&Vec<u32>, &Vec<u32>) -> u64>(&self, f: &F, q: &Vec<u32>, cur: usize, layer: int)
        ensures
            self.qdist(f, q, self.greedy_from(f, q, cur, layer) as int) <= self.qdist(f, q, cur as int),
            forall|j: int| 0 <= j < self.conn(self.greedy_from(f, q, cur, layer) as int, layer).len() ==> self.qdist(
                f,
                q,
                self.greedy_from(f, q, cur, layer) as int,
            ) <= self.qdist(f, q, #[trigger] self.conn(self.greedy_from(f, q, cur, layer) as int, layer)[j] as int),
        decreases self.qdist(f, q, cur as int),
    {
        let len = self.conn(cur as int, layer).len() as int;
        self.lemma_scan_best(f, q, cur, layer, len);
        let nxt = self.greedy_step(f, q, cur, layer);
        if nxt == cur {
            self.lemma_scan_best_min(f, q, cur, layer, len);
        } else {
            self.lemma_greedy_local_min(f, q, nxt, layer);
        }
    }

    /// Where the walk down from `ep` ends: a greedy walk on each layer from
    /// `top` down to `bottom + 1`, each starting where the one above stopped.
    pub open spec fn descend<F: Fn(&Vec<u32>, &Vec<u32>) -> u64>(&self, f: &F, q: &Vec<u32>, ep: usize, top: int, bottom: int) -> usize
        decreases top - bottom,
    {
        if top <= bottom {
            ep
        } else {
            self.descend(f, q, self.greedy_from(f, q, ep, top), top - 1, bottom)
        }
    }

    /// The stored vector of node `i`.
    pub closed spec fn vec_of(&self, i: int) -> Vec<u32> {
        self.nodes@[i].vector
    }

    /// `list` holds the best `m` of the nodes `w` (all of them when fewer)
    /// as seen from the vector `q`, closest first, equal keys in the order
    /// of `w`.
    pub open spec fn picked_for<F: Fn(&Vec<u32>, &Vec<u32>) -> u64>(&self, f: &F, q: &Vec<u32>, w: Seq<usize>, m: int, list: Seq<usize>) -> bool {
        &&& list.len() == if m < w.len() { m } else { w.len() as int }
        &&& exists|p: Seq<usize>| stable_order(self.cand_keys(f, q, w), p)
            && forall|t: int| 0 <= t < list.len() ==> #[trigger] list[t] == w[p[t] as int]
    }

    /// `x` is the first of the nodes of `w` closest to the vector `q`.
    pub open spec fn first_closest_in<F: Fn(&Vec<u32>, &Vec<u32>) -> u64>(&self, f: &F, q: &Vec<u32>, w: Seq<usize>, x: usize) -> bool {
        exists|j: int| {
            &&& 0 <= j < w.len()
            &&& #[trigger] w[j] == x
            &&& forall|t: int| 0 <= t < j ==> self.qdist(f, q, x as int) < self.qdist(f, q, #[trigger] w[t] as int)
            &&& forall|t: int| 0 <= t < w.len() ==> self.qdist(f, q, x as int) <= self.qdist(f, q, #[trigger] w[t] as int)
        }
    }

    /// How inserting the last node `q` of `self` into `g` chose its lists.
    /// On each layer `l` from `t` (the lower of the new node's level and
    /// `g`'s top layer) down to the bottom, `ws[l]` is a beam of width
    /// `max(ef, 1)` gathered in `g` on layer `l` from `ss[l]`, of nodes
    /// reaching layer `l`, and the new node's list there is the best of it
    /// (the layer's limit of them) as seen from the new node's vector.
    /// `ss[t]` is where the walk down from `g`'s entry point stops at layer
    /// `t`, and each lower start `ss[l - 1]` is the first of the nodes of
    /// `ws[l]` closest to the new node.
    pub open spec fn beams_from<F: Fn(&Vec<u32>, &Vec<u32>) -> u64>(&self, f: &F, g: Hnsw, ss: Seq<usize>, ws: Seq<Seq<usize>>) -> bool {
        let q = g.size() as int;
        let qv = self.vec_of(q);
        let t = if self.level_at(q) < g.top_layer() { self.level_at(q) as int } else { g.top_layer() as int };
        &&& ss.len() == t + 1
        &&& ws.len() == t + 1
        &&& ss[t] == g.descend(f, &qv, g.entry().unwrap(), g.top_layer() as int, t)
        &&& forall|l: int| 0 <= l <= t ==> {
            &&& (ss[l] as int) < q
            &&& #[trigger] g.beam_pool(ss[l], l, beam_cap(g.ef_spec()), ws[l])
            &&& forall|j: int| 0 <= j < ws[l].len() ==> g.level_at(#[trigger] ws[l][j] as int) >= l
            &&& g.picked_for(f, &qv, ws[l], limit_of(g.m_spec() as int, 2 * g.m_spec() as int, l), self.conn(q, l))
        }
        &&& forall|l: int| 0 < l <= t ==> #[trigger] g.first_closest_in(f, &qv, ws[l], ss[l - 1])
    }

    /// Two graphs that give the nodes of `w` the same vectors see the same
    /// keys for them.
    proof fn lemma_cand_keys_same<F: Fn(&Vec<u32>, &Vec<u32>) -> u64>(a: Hnsw, b: Hnsw, f: &F, q: &Vec<u32>, w: Seq<usize>)
        requires
            forall|t: int| 0 <= t < w.len() ==> #[trigger] a.nodes@[w[t] as int].vector == b.nodes@[w[t] as int].vector,
        ensures
            a.cand_keys(f, q, w) == b.cand_keys(f, q, w),
    {
        assert forall|t: int| 0 <= t < w.len() implies #[trigger] a.cand_keys(f, q, w)[t] == b.cand_keys(f, q, w)[t] by {
            assert(a.nodes@[w[t] as int].vector == b.nodes@[w[t] as int].vector);
        }
        assert(a.cand_keys(f, q, w) =~= b.cand_keys(f, q, w));
    }

    /// A scan over the same list sees the same keys in a graph `b` whose
    /// nodes of `a` keep their vectors.
    proof fn lemma_scan_shrink<F: Fn(&Vec<u32>, &Vec<u32>) -> u64>(a: Hnsw, b: Hnsw, f: &F, q: &Vec<u32>, start: usize, layer: int, k: int)
        requires
            a.wf(),
            (start as int) < a.size(),
            a.size() <= b.size(),
            b.conn(start as int, layer) == a.conn(start as int, layer),
            forall|i: int| 0 <= i < a.size() ==> #[trigger] b.nodes@[i].vector == a.nodes@[i].vector,
            0 <= k <= a.conn(start as int, layer).len(),
        ensures
            b.scan_best(f, q, start, layer, k) == a.scan_best(f, q, start, layer, k),
            (a.scan_best(f, q, start, layer, k) as int) < a.size(),
        decreases k,
    {
        if k > 0 {
            Self::lemma_scan_shrink(a, b, f, q, start, layer, k - 1);
            a.lemma_conn_in_range(start as int, layer);
            let nb = a.conn(start as int, layer)[k - 1];
            let bb = a.scan_best(f, q, start, layer, k - 1);
            assert(b.nodes@[nb as int].vector == a.nodes@[nb as int].vector);
            assert(b.nodes@[bb as int].vector == a.nodes@[bb as int].vector);
        }
    }

    /// A greedy walk from a node of `a` goes the same way in a graph `b`
    /// that keeps `a`'s lists on the layer and its vectors.
    proof fn lemma_greedy_shrink<F: Fn(&Vec<u32>, &Vec<u32>) -> u64>(a: Hnsw, b: Hnsw, f: &F, q: &Vec<u32>, cur: usize, layer: int)
        requires
            a.wf(),
            (cur as int) < a.size(),
            a.size() <= b.size(),
            forall|i: int| 0 <= i < a.size() ==> #[trigger] b.conn(i, layer) == a.conn(i, layer),
            forall|i: int| 0 <= i < a.size() ==> #[trigger] b.nodes@[i].vector == a.nodes@[i].vector,
        ensures
            b.greedy_from(f, q, cur, layer) == a.greedy_from(f, q, cur, layer),
            (a.greedy_from(f, q, cur, layer) as int) < a.size(),
        decreases a.qdist(f, q, cur as int),
    {
        let len = a.conn(cur as int, layer).len() as int;
        assert(b.conn(cur as int, layer) == a.conn(cur as int, layer));
        Self::lemma_scan_shrink(a, b, f, q, cur, layer, len);
        a.lemma_scan_best(f, q, cur, layer, len);
        let nxt = a.greedy_step(f, q, cur, layer);
        assert(b.greedy_step(f, q, cur, layer) == nxt);
        if nxt != cur {
            assert(b.nodes@[cur as int].vector == a.nodes@[cur as int].vector);
            Self::lemma_greedy_shrink(a, b, f, q, nxt, layer);
        }
    }

    /// The walk down from a node of `a` goes the same way in a graph `b`
    /// that keeps `a`'s lists on the layers walked and its vectors.
    proof fn lemma_descend_shrink<F: Fn(&Vec<u32>, &Vec<u32>) -> u64>(a: Hnsw, b: Hnsw, f: &F, q: &Vec<u32>, ep: usize, top: int, bottom: int)
        requires
            a.wf(),
            (ep as int) < a.size(),
            a.size() <= b.size(),
            forall|i: int, l: int| 0 <= i < a.size() && bottom < l <= top ==> #[trigger] b.conn(i, l) == a.conn(i, l),
            forall|i: int| 0 <= i < a.size() ==> #[trigger] b.nodes@[i].vector == a.nodes@[i].vector,
        ensures
            b.descend(f, q, ep, top, bottom) == a.descend(f, q, ep, top, bottom),
            (a.descend(f, q, ep, top, bottom) as int) < a.size(),
        decreases top - bottom,
    {
        if top > bottom {
            assert forall|i: int| 0 <= i < a.size() implies #[trigger] b.conn(i, top) == a.conn(i, top) by {}
            Self::lemma_greedy_shrink(a, b, f, q, ep, top);
            Self::lemma_descend_shrink(a, b, f, q, a.greedy_from(f, q, ep, top), top - 1, bottom);
        }
    }

    /// Walks from `ep` to ever closer neighbours on `layer` until no neighbour
    /// is closer to `q` than the current node.
    fn greedy_search<F: Fn(&Vec<u32>, &Vec<u32>) -> u64>(
        &self,
        q: &Vec<u32>,
        ep: usize,
        layer: usize,
        f: &F,
    ) -> (r: usize)
        requires
            self.wf(),
            oracle_ok(f),
            ep < self.nodes@.len(),
        ensures
            r == self.greedy_from(f, q, ep, layer as int),
            r < self.nodes@.len(),
            r == ep || self.nodes@[r as int].level >= layer,
            self.qdist(f, q, r as int) <= self.qdist(f, q, ep as int),
            forall|k: int|
                0 <= k < self.conn(r as int, layer as int).len() ==> self.qdist(f, q, r as int)
                    <= self.qdist(f, q, #[trigger] self.conn(r as int, layer as int)[k] as int),
    {
        let mut cur = ep;
        let mut cur_d = self.node_dist(f, q, ep);
        loop
            invariant_except_break
                self.wf(),
                oracle_ok(f),
                ep < self.nodes@.len(),
                cur < self.nodes@.len(),
                cur == ep || self.nodes@[cur as int].level >= layer,
                cur_d == self.qdist(f, q, cur as int),
                cur_d <= self.qdist(f, q, ep as int),
                self.greedy_from(f, q, cur, layer as int) == self.greedy_from(f, q, ep, layer as int),
            ensures
                cur == self.greedy_from(f, q, ep, layer as int),
                cur < self.nodes@.len(),
                cur == ep || self.nodes@[cur as int].level >= layer,
                cur_d == self.qdist(f, q, cur as int),
                cur_d <= self.qdist(f, q, ep as int),
                forall|k: int|
                    0 <= k < self.conn(cur as int, layer as int).len() ==> cur_d <= self.qdist(
                        f,
                        q,
                        #[trigger] self.conn(cur as int, layer as int)[k] as int,
                    ),
            decreases cur_d,
        {
            let start = cur;
            let start_d = cur_d;
            let conns = self.connections_at(start, layer);
            let mut improved = false;
            let mut k: usize = 0;
            while k < conns.len()
                invariant
                    self.wf(),
                    oracle_ok(f),
                    ep < self.nodes@.len(),
                    start < self.nodes@.len(),
                    conns@ == self.conn(start as int, layer as int),
                    k <= conns@.len(),
                    cur < self.nodes@.len(),
                    cur == ep || self.nodes@[cur as int].level >= layer,
                    cur_d == self.qdist(f, q, cur as int),
                    cur_d <= start_d,
                    start_d <= self.qdist(f, q, ep as int),
                    improved ==> cur_d < start_d,
                    !improved ==> cur == start && cur_d == start_d,
                    cur == self.scan_best(f, q, start, layer as int, k as int),
                    self.greedy_from(f, q, start, layer as int) == self.greedy_from(f, q, ep, layer as int),
                    forall|j: int| 0 <= j < k ==> cur_d <= self.qdist(f, q, #[trigger] conns@[j] as int),
                decreases conns@.len() - k,
            {
                let nb = conns[k];
                proof {
                    let l = layer as int;
                    if 0 <= l < self.nodes@[start as int].connections@.len() {
                        assert(self.nodes@[start as int].connections@[l]@[k as int] == nb);
                    }
                }
                let d = self.node_dist(f, q, nb);
                if d < cur_d {
                    cur_d = d;
                    cur = nb;
                    improved = true;
                }
                k = k + 1;
            }
            proof {
                assert(cur == self.greedy_step(f, q, start, layer as int));
            }
            if !improved {
                break;
            }
        }
        cur
    }

    /// A scored entry found while searching from `ep` on `layer`.
    pub closed spec fn scored_ok<F: Fn(&Vec<u32>, &Vec<u32>) -> u64>(
        &self,
        f: &F,
        q: &Vec<u32>,
        ep: usize,
        layer: usize,
        x: (u64, usize),
    ) -> bool {
        &&& x.1 < self.nodes@.len()
        &&& x.0 == self.qdist(f, q, x.1 as int)
        &&& (x.1 == ep || self.nodes@[x.1 as int].level >= layer)
        &&& self.reached(ep, layer as int, x.1)
        &&& self.reachable(ep, layer as int, x.1)
    }

    /// The keys of nodes `w` as seen from node `i`.
    pub closed spec fn keys_from<F: Fn(&Vec<u32>, &Vec<u32>) -> u64>(&self, f: &F, i: int, w: Seq<usize>) -> Seq<u64> {
        self.cand_keys(f, &self.nodes@[i].vector, w)
    }

    /// `list` holds the best `m` of the nodes `w` as seen from node `i` (all
    /// of them when fewer), closest first, equal keys in the order of `w`.
    pub open spec fn picked_from<F: Fn(&Vec<u32>, &Vec<u32>) -> u64>(&self, f: &F, i: int, w: Seq<usize>, m: int, list: Seq<usize>) -> bool {
        &&& list.len() == if m < w.len() { m } else { w.len() as int }
        &&& exists|p: Seq<usize>| stable_order(self.keys_from(f, i, w), p)
            && forall|t: int| 0 <= t < list.len() ==> #[trigger] list[t] == w[p[t] as int]
    }


    /// Node `e`'s list on layer `l` is its list in `g` with `q` appended, or,
    /// when that is longer than the layer's limit, the best of those (the
    /// limit of them) as seen from `e`.
    pub open spec fn linked_back<F: Fn(&Vec<u32>, &Vec<u32>) -> u64>(&self, f: &F, g: Hnsw, e: usize, q: usize, l: int) -> bool {
        let w = g.conn(e as int, l).push(q);
        let m = limit_of(self.m_spec() as int, 2 * self.m_spec() as int, l);
        if w.len() <= m {
            self.conn(e as int, l) == w
        } else {
            self.picked_from(f, e as int, w, m, self.conn(e as int, l))
        }
    }

    /// Every entry of node `e`'s list on layer `l` names a node.
    proof fn lemma_conn_in_range(&self, e: int, l: int)
        requires
            self.wf(),
            0 <= e < self.size(),
        ensures
            forall|k: int| 0 <= k < self.conn(e, l).len() ==> (#[trigger] self.conn(e, l)[k] as int) < self.size(),
    {
        assert forall|k: int| 0 <= k < self.conn(e, l).len() implies (#[trigger] self.conn(e, l)[k] as int) < self.size() by {
            assert(self.nodes@[e].connections@[l]@[k] == self.conn(e, l)[k]);
        }
    }

    /// Node `n` is `ep`, or some node's list on `layer` names it.
    pub open spec fn reached(&self, ep: usize, layer: int, n: usize) -> bool {
        n == ep || exists|i: int| 0 <= i < self.size() && #[trigger] self.conn(i, layer).contains(n)
    }

    /// Node `n` is `ep`, or is reached from `ep` in at most `k` steps along
    /// the neighbour lists of `layer`.
    pub open spec fn reach_within(&self, ep: usize, layer: int, k: nat, n: usize) -> bool
        decreases k,
    {
        if k == 0 {
            n == ep
        } else {
            ||| self.reach_within(ep, layer, (k - 1) as nat, n)
            ||| exists|x: usize|
                (x as int) < self.size() && self.reach_within(ep, layer, (k - 1) as nat, x) && #[trigger] self.conn(
                    x as int,
                    layer,
                ).contains(n)
        }
    }

    /// Node `n` can be reached from `ep` along the neighbour lists of `layer`.
    pub open spec fn reachable(&self, ep: usize, layer: int, n: usize) -> bool {
        exists|k: nat| self.reach_within(ep, layer, k, n)
    }

    /// `w` is what a beam of width `cap` gathers from `ep` on `layer`:
    /// between one and `cap` distinct nodes, each reachable from `ep`; when
    /// it holds fewer than `cap`, it holds `ep` and every neighbour of each
    /// of its nodes, so it is then every node reachable from `ep`.
    pub open spec fn beam_pool(&self, ep: usize, layer: int, cap: int, w: Seq<usize>) -> bool {
        &&& 1 <= w.len() <= cap
        &&& forall|a: int, b: int| 0 <= a < w.len() && 0 <= b < w.len() && a != b ==> #[trigger] w[a] != #[trigger] w[b]
        &&& forall|t: int| 0 <= t < w.len() ==> (#[trigger] w[t] as int) < self.size() && self.reachable(ep, layer, w[t])
        &&& w.len() < cap ==> {
            &&& w.contains(ep)
            &&& forall|t: int, j: int|
                0 <= t < w.len() && 0 <= j < self.conn(w[t] as int, layer).len() ==> w.contains(
                    #[trigger] self.conn(w[t] as int, layer)[j],
                )
        }
    }

    /// The nodes reachable from `ep` along the neighbour lists of `layer`.
    pub open spec fn reach_set(&self, ep: usize, layer: int) -> Set<usize> {
        Set::new(|n: usize| (n as int) < self.size() && self.reachable(ep, layer, n))
    }

    /// A set of nodes that holds `ep` and every neighbour of each of its
    /// nodes holds every node reached from `ep`.
    proof fn lemma_closed_holds_reach(&self, ep: usize, layer: int, w: Seq<usize>, k: nat, n: usize)
        requires
            w.contains(ep),
            forall|t: int, j: int|
                0 <= t < w.len() && 0 <= j < self.conn(w[t] as int, layer).len() ==> w.contains(
                    #[trigger] self.conn(w[t] as int, layer)[j],
                ),
            self.reach_within(ep, layer, k, n),
        ensures
            w.contains(n),
        decreases k,
    {
        if k > 0 {
            if self.reach_within(ep, layer, (k - 1) as nat, n) {
                self.lemma_closed_holds_reach(ep, layer, w, (k - 1) as nat, n);
            } else {
                let x = choose|x: usize|
                    (x as int) < self.size() && self.reach_within(ep, layer, (k - 1) as nat, x) && #[trigger] self.conn(
                        x as int,
                        layer,
                    ).contains(n);
                self.lemma_closed_holds_reach(ep, layer, w, (k - 1) as nat, x);
                let t = choose|t: int| 0 <= t < w.len() && w[t] == x;
                let j = choose|j: int| 0 <= j < self.conn(x as int, layer).len() && self.conn(x as int, layer)[j] == n;
                assert(w.contains(self.conn(w[t] as int, layer)[j]));
            }
        }
    }

    /// A beam pool of width `cap` holds `min(cap, r)` nodes, `r` being the
    /// number of nodes reachable from `ep`; below `cap` it holds exactly
    /// those nodes.
    pub proof fn lemma_beam_pool_len(&self, ep: usize, layer: int, cap: int, w: Seq<usize>)
        requires
            self.beam_pool(ep, layer, cap, w),
        ensures
            self.reach_set(ep, layer).finite(),
            w.to_set().subset_of(self.reach_set(ep, layer)),
            w.len() < cap ==> w.to_set() == self.reach_set(ep, layer),
            w.len() == if cap < self.reach_set(ep, layer).len() { cap } else { self.reach_set(ep, layer).len() as int },
    {
        let rs = self.reach_set(ep, layer);
        let all = Seq::new(self.size(), |i: int| i as usize);
        assert forall|n: usize| rs.contains(n) implies all.to_set().contains(n) by {
            assert(all[n as int] == n);
        }
        vstd::seq_lib::seq_to_set_is_finite(all);
        lemma_len_subset(rs, all.to_set());
        assert forall|n: usize| w.to_set().contains(n) implies rs.contains(n) by {
            let t = choose|t: int| 0 <= t < w.len() && w[t] == n;
            assert(w[t] == n);
        }
        assert(w.no_duplicates()) by {
            assert forall|a: int, b: int| 0 <= a < w.len() && 0 <= b < w.len() && a != b implies w[a] != w[b] by {
                assert(w[a] != w[b]);
            }
        }
        w.unique_seq_to_set();
        lemma_len_subset(w.to_set(), rs);
        if w.len() < cap {
            assert forall|n: usize| rs.contains(n) implies w.to_set().contains(n) by {
                let k = choose|k: nat| self.reach_within(ep, layer, k, n);
                self.lemma_closed_holds_reach(ep, layer, w, k, n);
            }
            assert(w.to_set() =~= rs);
        }
    }

    /// Reachability in a graph `b` that is `a` plus one node linked from
    /// nowhere on `layer` and linking nowhere there is reachability in `a`.
    proof fn lemma_reach_shrink(a: Hnsw, b: Hnsw, ep: usize, layer: int, k: nat, n: usize)
        requires
            a.size() + 1 == b.size(),
            forall|i: int| 0 <= i < a.size() ==> #[trigger] b.conn(i, layer) == a.conn(i, layer),
            b.conn(a.size() as int, layer).len() == 0,
            b.reach_within(ep, layer, k, n),
        ensures
            a.reach_within(ep, layer, k, n),
        decreases k,
    {
        if k > 0 {
            if b.reach_within(ep, layer, (k - 1) as nat, n) {
                Self::lemma_reach_shrink(a, b, ep, layer, (k - 1) as nat, n);
            } else {
                let x = choose|x: usize|
                    (x as int) < b.size() && b.reach_within(ep, layer, (k - 1) as nat, x) && #[trigger] b.conn(
                        x as int,
                        layer,
                    ).contains(n);
                Self::lemma_reach_shrink(a, b, ep, layer, (k - 1) as nat, x);
                assert(x != a.size());
                assert(a.conn(x as int, layer).contains(n));
                a.lemma_reach_step(ep, layer, (k - 1) as nat, x, n);
            }
        }
    }

    /// A beam pool gathered in `b`, `a` plus one node linked from nowhere on
    /// `layer` and linking nowhere there, that holds only nodes of `a` is a
    /// beam pool gathered in `a`.
    proof fn lemma_pool_shrink(a: Hnsw, b: Hnsw, ep: usize, layer: int, cap: int, w: Seq<usize>)
        requires
            a.size() + 1 == b.size(),
            forall|i: int| 0 <= i < a.size() ==> #[trigger] b.conn(i, layer) == a.conn(i, layer),
            b.conn(a.size() as int, layer).len() == 0,
            b.beam_pool(ep, layer, cap, w),
            forall|t: int| 0 <= t < w.len() ==> (#[trigger] w[t] as int) < a.size(),
        ensures
            a.beam_pool(ep, layer, cap, w),
    {
        assert forall|t: int| 0 <= t < w.len() implies (#[trigger] w[t] as int) < a.size() && a.reachable(ep, layer, w[t]) by {
            let k = choose|k: nat| b.reach_within(ep, layer, k, w[t]);
            Self::lemma_reach_shrink(a, b, ep, layer, k, w[t]);
        }
        if w.len() < cap {
            assert forall|t: int, j: int|
                0 <= t < w.len() && 0 <= j < a.conn(w[t] as int, layer).len() implies w.contains(
                    #[trigger] a.conn(w[t] as int, layer)[j],
                ) by {
                assert(b.conn(w[t] as int, layer) == a.conn(w[t] as int, layer));
                assert(w.contains(b.conn(w[t] as int, layer)[j]));
            }
        }
    }

    /// One step further: a neighbour of a node reached within `k` steps is
    /// reached within `k + 1`.
    proof fn lemma_reach_step(&self, ep: usize, layer: int, k: nat, x: usize, n: usize)
        requires
            (x as int) < self.size(),
            self.reach_within(ep, layer, k, x),
            self.conn(x as int, layer).contains(n),
        ensures
            self.reach_within(ep, layer, k + 1, n),
    {
        assert(self.reach_within(ep, layer, (k + 1 - 1) as nat, x));
    }

    /// What a beam from `ep` on `layer` looked at beyond its pool `w`: it saw
    /// `ep` and every neighbour of `ep` there, and no node it saw and left
    /// out of `w` is closer to `q` than a node of `w`.
    #[verifier::opaque]
    pub open spec fn beam_best<F: Fn(&Vec<u32>, &Vec<u32>) -> u64>(&self, f: &F, q: &Vec<u32>, ep: usize, layer: int, w: Seq<usize>) -> bool {
        exists|seen: Set<usize>| {
            &&& seen.contains(ep)
            &&& forall|j: int| 0 <= j < self.conn(ep as int, layer).len() ==> seen.contains(#[trigger] self.conn(ep as int, layer)[j])
            &&& forall|x: usize, t: int|
                #[trigger] seen.contains(x) && !w.contains(x) && 0 <= t < w.len() ==> self.qdist(f, q, #[trigger] w[t] as int)
                    <= self.qdist(f, q, x as int)
        }
    }

    /// The beam `w` stopped only when nothing next to it could improve it: a
    /// neighbour on `layer` of a node of `w` that is not in `w` is no closer
    /// to `q` than any node of `w`.
    #[verifier::opaque]
    pub open spec fn beam_closed<F: Fn(&Vec<u32>, &Vec<u32>) -> u64>(&self, f: &F, q: &Vec<u32>, layer: int, w: Seq<usize>) -> bool {
        forall|t: int, j: int, u: int|
            0 <= t < w.len() && 0 <= j < self.conn(w[t] as int, layer).len() && 0 <= u < w.len() && !w.contains(
                #[trigger] self.conn(w[t] as int, layer)[j],
            ) ==> self.qdist(f, q, #[trigger] w[u] as int) <= self.qdist(f, q, self.conn(w[t] as int, layer)[j] as int)
    }

    /// Every neighbour of `x` on `layer` is in `s`.
    spec fn closed_in(&self, s: Set<usize>, x: usize, layer: int) -> bool {
        forall|j: int| 0 <= j < self.conn(x as int, layer).len() ==> s.contains(#[trigger] self.conn(x as int, layer)[j])
    }

    /// Beam search on one layer: gathers `max(ef, 1)` distinct nodes
    /// reachable from `ep` (all of them when fewer), keeping the closest ones
    /// seen.
    fn beam_search<F: Fn(&Vec<u32>, &Vec<u32>) -> u64>(
        &self,
        q: &Vec<u32>,
        ep: usize,
        ef: usize,
        layer: usize,
        f: &F,
    ) -> (r: Vec<usize>)
        requires
            self.wf(),
            oracle_ok(f),
            ep < self.nodes@.len(),
        ensures
            r@.len() >= 1,
            r@.len() <= if ef == 0 { 1 } else { ef as int },
            forall|a: int, b: int| 0 <= a < r@.len() && 0 <= b < r@.len() && a != b ==> #[trigger] r@[a] != #[trigger] r@[b],
            forall|t: int| 0 <= t < r@.len() ==> #[trigger] r@[t] < self.nodes@.len() && (r@[t] == ep || self.nodes@[r@[t] as int].level >= layer),
            forall|t: int| 0 <= t < r@.len() ==> self.reached(ep, layer as int, #[trigger] r@[t]),
            self.beam_pool(ep, layer as int, if ef == 0 { 1 } else { ef as int }, r@),
            self.beam_best(f, q, ep, layer as int, r@),
            self.beam_closed(f, q, layer as int, r@),
    {
        let n = self.nodes.len();
        let ep_d = self.node_dist(f, q, ep);
        let mut visited: HashSet<usize> = HashSet::new();
        visited.insert(ep);
        let ghost mut seen: Set<int> = set![ep as int];
        let mut cands: Vec<(u64, usize)> = Vec::new();
        cands.push((ep_d, ep));
        let mut found: Vec<(u64, usize)> = Vec::new();
        found.push((ep_d, ep));
        let cap: usize = if ef == 0 { 1 } else { ef };
        let ghost mut started = false;
        proof {
            assert(cands@ == seq![(ep_d, ep)]);
            assert(found@ == seq![(ep_d, ep)]);
            lemma_int_range(0, n as int);
            assert(seen.subset_of(set_int_range(0, n as int)));
            lemma_len_subset(seen, set_int_range(0, n as int));
            assert(self.reach_within(ep, layer as int, 0, ep));
            assert(holds_node(found@, ep) && holds_node(cands@, ep)) by {
                assert(found@[0].1 == ep);
                assert(cands@[0].1 == ep);
            }
        }
        while cands.len() > 0
            invariant
                self.wf(),
                oracle_ok(f),
                n == self.nodes@.len(),
                ep < n,
                cap == if ef == 0 { 1 } else { ef },
                seen.finite(),
                seen.subset_of(set_int_range(0, n as int)),
                seen.len() <= n,
                forall|x: usize| #[trigger] visited@.contains(x) <==> seen.contains(x as int),
                visited@.contains(ep),
                1 <= found@.len() <= cap,
                distinct_nodes(found@),
                forall|t: int| 0 <= t < found@.len() ==> self.scored_ok(f, q, ep, layer, #[trigger] found@[t]),
                forall|t: int| 0 <= t < found@.len() ==> visited@.contains(#[trigger] found@[t].1),
                forall|t: int| 0 <= t < cands@.len() ==> self.scored_ok(f, q, ep, layer, #[trigger] cands@[t]),
                forall|t: int| 0 <= t < cands@.len() ==> visited@.contains(#[trigger] cands@[t].1),
                found@.len() < cap ==> forall|x: usize| #[trigger] visited@.contains(x) ==> holds_node(found@, x),
                found@.len() < cap ==> forall|x: usize|
                    #[trigger] visited@.contains(x) ==> holds_node(cands@, x) || self.closed_in(visited@, x, layer as int),
                forall|x: usize, t: int| #[trigger] visited@.contains(x) && !holds_node(found@, x) && 0 <= t < found@.len() ==> (#[trigger] found@[t]).0 <= self.qdist(f, q, x as int),
                ep_d == self.qdist(f, q, ep as int),
                !started ==> cands@ == seq![(ep_d, ep)] && found@ == seq![(ep_d, ep)],
                started ==> self.closed_in(visited@, ep, layer as int),
                forall|x: usize| #[trigger] holds_node(found@, x) ==> holds_node(cands@, x) || self.closed_in(visited@, x, layer as int),
            ensures
                found@.len() >= cap || cands@.len() == 0,
                started,
                forall|x: usize| #[trigger] holds_node(found@, x) ==> self.closed_in(visited@, x, layer as int),
            decreases 2 * (n - seen.len()) + cands@.len(),
        {
            let ci = min_pos(&cands);
            let ghost old_cands = cands@;
            let (c_d, c) = cands.remove(ci);
            proof {
                lemma_remove_index(old_cands, ci as int);
                assert(old_cands[ci as int] == (c_d, c));
                assert(self.scored_ok(f, q, ep, layer, (c_d, c)));
                assert(visited@.contains(c));
                assert forall|t: int| 0 <= t < cands@.len() implies visited@.contains(#[trigger] cands@[t].1) by {
                    if t < ci { assert(cands@[t] == old_cands[t]); } else { assert(cands@[t] == old_cands[t + 1]); }
                }
                assert forall|x: usize| #[trigger] holds_node(found@, x) && x != c implies holds_node(cands@, x) || self.closed_in(visited@, x, layer as int) by {
                    if holds_node(old_cands, x) {
                        let t = choose|t: int| 0 <= t < old_cands.len() && #[trigger] old_cands[t].1 == x;
                        assert(t != ci);
                        if t < ci {
                            assert(cands@[t] == old_cands[t]);
                        } else {
                            assert(cands@[t - 1] == old_cands[t]);
                        }
                    }
                }
                if found@.len() < cap {
                    assert forall|x: usize| #[trigger] visited@.contains(x) && x != c implies holds_node(cands@, x) || self.closed_in(visited@, x, layer as int) by {
                        if holds_node(old_cands, x) {
                            let t = choose|t: int| 0 <= t < old_cands.len() && #[trigger] old_cands[t].1 == x;
                            assert(t != ci);
                            if t < ci {
                                assert(cands@[t] == old_cands[t]);
                                assert(cands@[t].1 == x);
                            } else {
                                assert(cands@[t - 1] == old_cands[t]);
                                assert(cands@[t - 1].1 == x);
                            }
                        }
                    }
                }
            }
            let fi = max_pos(&found);
            let f_d = found[fi].0;
            if c_d > f_d {
                proof {
                    if !started {
                        assert(old_cands == seq![(ep_d, ep)]);
                        assert(c == ep && c_d == ep_d);
                        assert(found@[0].0 == ep_d);
                    }
                    if found@.len() < cap {
                        assert(holds_node(found@, c));
                        let t = choose|t: int| 0 <= t < found@.len() && #[trigger] found@[t].1 == c;
                        assert(self.scored_ok(f, q, ep, layer, found@[t]));
                        assert(found@[t].0 <= f_d);
                    }
                    assert forall|x: usize| #[trigger] holds_node(found@, x) implies self.closed_in(visited@, x, layer as int) by {
                        let t = choose|t: int| 0 <= t < found@.len() && #[trigger] found@[t].1 == x;
                        assert(self.scored_ok(f, q, ep, layer, found@[t]));
                        assert(found@[t].0 <= f_d);
                        if x == c {
                            assert(false);
                        } else if holds_node(cands@, x) {
                            let s = choose|s: int| 0 <= s < cands@.len() && #[trigger] cands@[s].1 == x;
                            assert(self.scored_ok(f, q, ep, layer, cands@[s]));
                            if s < ci {
                                assert(cands@[s] == old_cands[s]);
                            } else {
                                assert(cands@[s] == old_cands[s + 1]);
                            }
                            assert(false);
                        }
                    }
                }
                break;
            }
            let conns = self.connections_at(c, layer);
            let ghost m0: int = 2 * (n - seen.len()) + cands@.len();
            let ghost kc: nat = choose|k: nat| self.reach_within(ep, layer as int, k, c);
            let mut k: usize = 0;
            while k < conns.len()
                invariant
                    self.wf(),
                    oracle_ok(f),
                    n == self.nodes@.len(),
                    ep < n,
                    c < n,
                    c == ep || self.nodes@[c as int].level >= layer,
                    self.reach_within(ep, layer as int, kc, c),
                    visited@.contains(c),
                    conns@ == self.conn(c as int, layer as int),
                    k <= conns@.len(),
                    cap == if ef == 0 { 1 } else { ef },
                    seen.finite(),
                    seen.subset_of(set_int_range(0, n as int)),
                    seen.len() <= n,
                    forall|x: usize| #[trigger] visited@.contains(x) <==> seen.contains(x as int),
                    visited@.contains(ep),
                    1 <= found@.len() <= cap,
                    distinct_nodes(found@),
                    forall|t: int| 0 <= t < found@.len() ==> self.scored_ok(f, q, ep, layer, #[trigger] found@[t]),
                    forall|t: int| 0 <= t < found@.len() ==> visited@.contains(#[trigger] found@[t].1),
                    forall|t: int| 0 <= t < cands@.len() ==> self.scored_ok(f, q, ep, layer, #[trigger] cands@[t]),
                    forall|t: int| 0 <= t < cands@.len() ==> visited@.contains(#[trigger] cands@[t].1),
                    found@.len() < cap ==> forall|x: usize| #[trigger] visited@.contains(x) ==> holds_node(found@, x),
                    found@.len() < cap ==> forall|x: usize|
                        #[trigger] visited@.contains(x) && x != c ==> holds_node(cands@, x) || self.closed_in(visited@, x, layer as int),
                    found@.len() < cap ==> forall|j: int| 0 <= j < k ==> visited@.contains(#[trigger] conns@[j]),
                    forall|j: int| 0 <= j < k ==> visited@.contains(#[trigger] conns@[j]),
                    forall|x: usize, t: int| #[trigger] visited@.contains(x) && !holds_node(found@, x) && 0 <= t < found@.len() ==> (#[trigger] found@[t]).0 <= self.qdist(f, q, x as int),
                    started ==> self.closed_in(visited@, ep, layer as int),
                    forall|x: usize| #[trigger] holds_node(found@, x) && x != c ==> holds_node(cands@, x) || self.closed_in(visited@, x, layer as int),
                    2 * (n - seen.len()) + cands@.len() <= m0,
                decreases conns@.len() - k,
            {
                let e = conns[k];
                proof {
                    let l = layer as int;
                    assert(0 <= l < self.nodes@[c as int].connections@.len());
                    assert(self.nodes@[c as int].connections@[l]@[k as int] == e);
                }
                k = k + 1;
                let ghost vis0 = visited@;
                let ghost found0 = found@;
                let ghost cands0 = cands@;
                if !visited.insert(e) {
                    continue;
                }
                proof {
                    assert(!seen.contains(e as int));
                    seen = seen.insert(e as int);
                    lemma_int_range(0, n as int);
                    assert(seen.subset_of(set_int_range(0, n as int)));
                    lemma_len_subset(seen, set_int_range(0, n as int));
                }
                let e_d = self.node_dist(f, q, e);
                proof {
                    assert(self.conn(c as int, layer as int)[k - 1] == e);
                    assert(self.conn(c as int, layer as int).contains(e));
                    assert(self.reached(ep, layer as int, e));
                    self.lemma_reach_step(ep, layer as int, kc, c, e);
                    assert(self.reachable(ep, layer as int, e));
                }
                let fi2 = max_pos(&found);
                let f_d2 = found[fi2].0;
                if e_d < f_d2 || found.len() < ef {
                    cands.push((e_d, e));
                    let ghost before = found@;
                    found.push((e_d, e));
                    proof {
                        assert forall|a: int, b: int| 0 <= a < found@.len() && 0 <= b < found@.len() && a != b implies #[trigger] found@[a].1 != #[trigger] found@[b].1 by {
                            if a < before.len() && b < before.len() {
                            } else if a < before.len() {
                                assert(vis0.contains(before[a].1));
                            } else {
                                assert(vis0.contains(before[b].1));
                            }
                        }
                        assert(found@[before.len() as int].1 == e);
                        assert(cands@[cands0.len() as int].1 == e);
                        if before.len() + 1 < cap {
                            assert forall|x: usize| #[trigger] visited@.contains(x) implies holds_node(found@, x) by {
                                if x != e {
                                    assert(vis0.contains(x));
                                    let t = choose|t: int| 0 <= t < before.len() && #[trigger] before[t].1 == x;
                                    assert(found@[t] == before[t]);
                                }
                            }
                            assert forall|x: usize| #[trigger] visited@.contains(x) && x != c implies holds_node(cands@, x) || self.closed_in(visited@, x, layer as int) by {
                                if x != e {
                                    assert(vis0.contains(x));
                                    if holds_node(cands0, x) {
                                        let t = choose|t: int| 0 <= t < cands0.len() && #[trigger] cands0[t].1 == x;
                                        assert(cands@[t] == cands0[t]);
                                    } else {
                                        assert(self.closed_in(vis0, x, layer as int));
                                    }
                                }
                            }
                            assert forall|j: int| 0 <= j < k implies visited@.contains(#[trigger] conns@[j]) by {
                                if j < k - 1 {
                                    assert(vis0.contains(conns@[j]));
                                }
                            }
                        }
                        assert forall|x: usize| #[trigger] holds_node(found@, x) && x != c implies holds_node(cands@, x) || self.closed_in(visited@, x, layer as int) by {
                            lemma_holds_push(before, (e_d, e), x);
                            if x != e {
                                if holds_node(cands0, x) {
                                    let t = choose|t: int| 0 <= t < cands0.len() && #[trigger] cands0[t].1 == x;
                                    assert(cands@[t] == cands0[t]);
                                } else {
                                    assert(self.closed_in(vis0, x, layer as int));
                                }
                            }
                        }
                    }
                    if found.len() > ef {
                        let gi = max_pos(&found);
                        let ghost before2 = found@;
                        found.remove(gi);
                        proof {
                            lemma_remove_index(before2, gi as int);
                            lemma_remove_distinct(before2, gi as int);
                            assert forall|x: usize| #[trigger] holds_node(found@, x) && x != c implies holds_node(cands@, x) || self.closed_in(visited@, x, layer as int) by {
                                lemma_holds_remove(before2, gi as int, x);
                            }
                            assert forall|t: int| 0 <= t < found@.len() implies self.scored_ok(f, q, ep, layer, #[trigger] found@[t]) && visited@.contains(found@[t].1) by {
                                if t < gi { assert(found@[t] == before2[t]); } else { assert(found@[t] == before2[t + 1]); }
                            }
                            assert(e_d < f_d2);
                            assert forall|x: usize, t: int| #[trigger] visited@.contains(x) && !holds_node(found@, x) && 0 <= t < found@.len() implies (#[trigger] found@[t]).0 <= self.qdist(f, q, x as int) by {
                                let ft = if t < gi { t } else { t + 1 };
                                assert(found@[t] == before2[ft]);
                                if holds_node(before2, x) {
                                    let i = choose|i: int| 0 <= i < before2.len() && #[trigger] before2[i].1 == x;
                                    if i != gi {
                                        let i2 = if i < gi { i } else { i - 1 };
                                        assert(found@[i2] == before2[i]);
                                        assert(found@[i2].1 == x);
                                        assert(false);
                                    }
                                    assert(self.scored_ok(f, q, ep, layer, before2[gi as int]));
                                    assert(before2[ft].0 <= before2[gi as int].0);
                                } else {
                                    assert(before2[before.len() as int].1 == e);
                                    assert(x != e);
                                    assert(vis0.contains(x));
                                    assert(!holds_node(before, x)) by {
                                        if holds_node(before, x) {
                                            let i = choose|i: int| 0 <= i < before.len() && #[trigger] before[i].1 == x;
                                            assert(before2[i] == before[i]);
                                        }
                                    }
                                    if ft < before.len() {
                                        assert(before2[ft] == before[ft]);
                                        assert(before[ft].0 <= self.qdist(f, q, x as int));
                                    } else {
                                        assert(before[fi2 as int].0 <= self.qdist(f, q, x as int));
                                    }
                                }
                            }
                        }
                    } else {
                        proof {
                            assert(before.len() < cap);
                            assert forall|x: usize, t: int| #[trigger] visited@.contains(x) && !holds_node(found@, x) && 0 <= t < found@.len() implies (#[trigger] found@[t]).0 <= self.qdist(f, q, x as int) by {
                                if x == e {
                                    assert(found@[before.len() as int].1 == e);
                                } else {
                                    assert(vis0.contains(x));
                                    assert(holds_node(before, x));
                                    let i = choose|i: int| 0 <= i < before.len() && #[trigger] before[i].1 == x;
                                    assert(found@[i] == before[i]);
                                }
                            }
                        }
                    }
                } else {
                    proof {
                        assert forall|x: usize| #[trigger] holds_node(found@, x) && x != c implies holds_node(cands@, x) || self.closed_in(visited@, x, layer as int) by {
                            if !holds_node(cands@, x) {
                                assert(self.closed_in(vis0, x, layer as int));
                            }
                        }
                        assert(found@.len() >= cap);
                        assert forall|x: usize, t: int| #[trigger] visited@.contains(x) && !holds_node(found@, x) && 0 <= t < found@.len() implies (#[trigger] found@[t]).0 <= self.qdist(f, q, x as int) by {
                            if x == e {
                                assert(found@[t].0 <= f_d2);
                            } else {
                                assert(vis0.contains(x));
                            }
                        }
                    }
                }
                proof {
                    assert forall|j: int| 0 <= j < k implies visited@.contains(#[trigger] conns@[j]) by {
                        if j < k - 1 {
                            assert(vis0.contains(conns@[j]));
                        }
                    }
                    if started {
                        assert forall|j: int| 0 <= j < self.conn(ep as int, layer as int).len() implies visited@.contains(#[trigger] self.conn(ep as int, layer as int)[j]) by {
                            assert(vis0.contains(self.conn(ep as int, layer as int)[j]));
                        }
                    }
                }
            }
            proof {
                assert(self.closed_in(visited@, c, layer as int));
                assert forall|x: usize| #[trigger] holds_node(found@, x) implies holds_node(cands@, x) || self.closed_in(visited@, x, layer as int) by {
                    if x == c {
                        assert(self.closed_in(visited@, c, layer as int));
                    }
                }
                if !started {
                    assert(c == ep);
                    assert(self.closed_in(visited@, ep, layer as int));
                }
                started = true;
            }
        }
        let mut r: Vec<usize> = Vec::new();
        let mut t: usize = 0;
        while t < found.len()
            invariant
                t <= found@.len(),
                r@.len() == t,
                forall|j: int| 0 <= j < t ==> r@[j] == #[trigger] found@[j].1,
            decreases found@.len() - t,
        {
            r.push(found[t].1);
            t = t + 1;
        }
        proof {
            assert forall|t: int| 0 <= t < r@.len() implies #[trigger] r@[t] < self.nodes@.len() && (r@[t] == ep || self.nodes@[r@[t] as int].level >= layer) && self.reached(ep, layer as int, r@[t]) && self.reachable(ep, layer as int, r@[t]) by {
                assert(r@[t] == found@[t].1);
                assert(self.scored_ok(f, q, ep, layer, found@[t]));
            }
            assert forall|a: int, b: int| 0 <= a < r@.len() && 0 <= b < r@.len() && a != b implies #[trigger] r@[a] != #[trigger] r@[b] by {
                assert(r@[a] == found@[a].1);
                assert(r@[b] == found@[b].1);
            }
            assert forall|x: usize, t: int|
                #[trigger] visited@.contains(x) && !r@.contains(x) && 0 <= t < r@.len() implies self.qdist(f, q, #[trigger] r@[t] as int)
                    <= self.qdist(f, q, x as int) by {
                assert(r@[t] == found@[t].1);
                assert(self.scored_ok(f, q, ep, layer, found@[t]));
                assert(!holds_node(found@, x)) by {
                    if holds_node(found@, x) {
                        let i = choose|i: int| 0 <= i < found@.len() && #[trigger] found@[i].1 == x;
                        assert(r@[i] == x);
                    }
                }
            }
            assert(self.beam_best(f, q, ep, layer as int, r@)) by {
                reveal(Hnsw::beam_best);
            }
            assert(self.beam_closed(f, q, layer as int, r@)) by {
                reveal(Hnsw::beam_closed);
                assert forall|t: int, j: int, u: int|
                    0 <= t < r@.len() && 0 <= j < self.conn(r@[t] as int, layer as int).len() && 0 <= u < r@.len() && !r@.contains(
                        #[trigger] self.conn(r@[t] as int, layer as int)[j],
                    ) implies self.qdist(f, q, #[trigger] r@[u] as int) <= self.qdist(f, q, self.conn(r@[t] as int, layer as int)[j] as int) by {
                    let y = self.conn(r@[t] as int, layer as int)[j];
                    assert(r@[t] == found@[t].1);
                    assert(holds_node(found@, r@[t]));
                    assert(self.closed_in(visited@, r@[t], layer as int));
                    assert(visited@.contains(y));
                }
            }
            if r@.len() < cap {
                assert forall|x: usize| #[trigger] visited@.contains(x) implies r@.contains(x) by {
                    let t = choose|t: int| 0 <= t < found@.len() && #[trigger] found@[t].1 == x;
                    assert(r@[t] == x);
                }
                assert(r@.contains(ep));
                assert forall|t: int, j: int|
                    0 <= t < r@.len() && 0 <= j < self.conn(r@[t] as int, layer as int).len() implies r@.contains(
                        #[trigger] self.conn(r@[t] as int, layer as int)[j],
                    ) by {
                    assert(r@[t] == found@[t].1);
                    assert(visited@.contains(r@[t]));
                    assert(self.closed_in(visited@, r@[t], layer as int));
                    assert(visited@.contains(self.conn(r@[t] as int, layer as int)[j]));
                }
            }
        }
        r
    }

    /// The keys of the candidates, in candidate order.
    pub closed spec fn cand_keys<F: Fn(&Vec<u32>, &Vec<u32>) -> u64>(&self, f: &F, q: &Vec<u32>, cands: Seq<usize>) -> Seq<u64> {
        Seq::new(cands.len(), |j: int| self.qdist(f, q, cands[j] as int))
    }

    /// The candidates paired with their keys, closest first; equal keys keep
    /// the candidates' order.
    fn rank_nodes<F: Fn(&Vec<u32>, &Vec<u32>) -> u64>(
        &self,
        q: &Vec<u32>,
        cands: &Vec<usize>,
        f: &F,
    ) -> (r: Vec<(u64, usize)>)
        requires
            oracle_ok(f),
            forall|t: int| 0 <= t < cands@.len() ==> (#[trigger] cands@[t] as int) < self.nodes@.len(),
        ensures
            r@.len() == cands@.len(),
            exists|p: Seq<usize>|
                stable_order(self.cand_keys(f, q, cands@), p) && forall|t: int|
                    0 <= t < r@.len() ==> #[trigger] r@[t] == (self.cand_keys(f, q, cands@)[p[t] as int], cands@[p[t] as int]),
            forall|t: int| 0 <= t < r@.len() ==> #[trigger] cands@.contains(r@[t].1) && r@[t].0 == self.qdist(f, q, r@[t].1 as int),
            forall|a: int, b: int| 0 <= a < b < r@.len() ==> #[trigger] r@[a].0 <= #[trigger] r@[b].0,
    {
        let ghost ks = self.cand_keys(f, q, cands@);
        let mut keys: Vec<u64> = Vec::new();
        let mut j: usize = 0;
        while j < cands.len()
            invariant
                oracle_ok(f),
                ks == self.cand_keys(f, q, cands@),
                forall|t: int| 0 <= t < cands@.len() ==> (#[trigger] cands@[t] as int) < self.nodes@.len(),
                j <= cands@.len(),
                keys@ == ks.take(j as int),
            decreases cands@.len() - j,
        {
            let d = self.node_dist(f, q, cands[j]);
            keys.push(d);
            assert(keys@ =~= ks.take(j + 1));
            j = j + 1;
        }
        assert(keys@ =~= ks);
        let p = stable_rank(&keys);
        let mut r: Vec<(u64, usize)> = Vec::new();
        let mut t: usize = 0;
        while t < p.len()
            invariant
                stable_order(ks, p@),
                keys@ == ks,
                ks.len() == cands@.len(),
                t <= p@.len(),
                r@.len() == t,
                forall|u: int| 0 <= u < t ==> #[trigger] r@[u] == (ks[p@[u] as int], cands@[p@[u] as int]),
            decreases p@.len() - t,
        {
            let pos = p[t];
            r.push((keys[pos], cands[pos]));
            t = t + 1;
        }
        proof {
            assert forall|t: int| 0 <= t < r@.len() implies #[trigger] cands@.contains(r@[t].1) && r@[t].0 == self.qdist(f, q, r@[t].1 as int) by {
                let j = p@[t] as int;
                assert(r@[t] == (ks[j], cands@[j]));
                assert(cands@[j] == r@[t].1);
            }
            assert forall|a: int, b: int| 0 <= a < b < r@.len() implies #[trigger] r@[a].0 <= #[trigger] r@[b].0 by {
                assert(ranks_before(ks, p@[a] as int, p@[b] as int));
            }
        }
        r
    }

    /// The `m` candidates closest to `q`, closest first.
    fn select_neighbors<F: Fn(&Vec<u32>, &Vec<u32>) -> u64>(
        &self,
        q: &Vec<u32>,
        cands: &Vec<usize>,
        m: usize,
        f: &F,
    ) -> (r: Vec<usize>)
        requires
            oracle_ok(f),
            forall|t: int| 0 <= t < cands@.len() ==> (#[trigger] cands@[t] as int) < self.nodes@.len(),
        ensures
            r@.len() == if m < cands@.len() { m as int } else { cands@.len() as int },
            exists|p: Seq<usize>|
                stable_order(self.cand_keys(f, q, cands@), p) && forall|t: int|
                    0 <= t < r@.len() ==> #[trigger] r@[t] == cands@[p[t] as int],
            forall|t: int| 0 <= t < r@.len() ==> #[trigger] cands@.contains(r@[t]),
            cands@.no_duplicates() ==> r@.no_duplicates(),
    {
        let ranked = self.rank_nodes(q, cands, f);
        let mut r: Vec<usize> = Vec::new();
        let mut t: usize = 0;
        while t < ranked.len() && t < m
            invariant
                t <= ranked@.len(),
                t <= m,
                r@.len() == t,
                forall|u: int| 0 <= u < t ==> #[trigger] r@[u] == ranked@[u].1,
            decreases ranked@.len() - t,
        {
            r.push(ranked[t].1);
            t = t + 1;
        }
        proof {
            let ks = self.cand_keys(f, q, cands@);
            let p = choose|p: Seq<usize>|
                stable_order(ks, p) && forall|t: int|
                    0 <= t < ranked@.len() ==> #[trigger] ranked@[t] == (ks[p[t] as int], cands@[p[t] as int]);
            assert forall|t: int| 0 <= t < r@.len() implies #[trigger] r@[t] == cands@[p[t] as int] by {
                assert(ranked@[t] == (ks[p[t] as int], cands@[p[t] as int]));
            }
            assert forall|t: int| 0 <= t < r@.len() implies #[trigger] cands@.contains(r@[t]) by {
                assert(cands@.contains(ranked@[t].1));
            }
            if cands@.no_duplicates() {
                assert forall|a: int, b: int| 0 <= a < r@.len() && 0 <= b < r@.len() && a != b implies r@[a] != r@[b] by {
                    assert(r@[a] == cands@[p[a] as int]);
                    assert(r@[b] == cands@[p[b] as int]);
                    if a < b {
                        assert(ranks_before(ks, p[a] as int, p[b] as int));
                    } else {
                        assert(ranks_before(ks, p[b] as int, p[a] as int));
                    }
                }
            }
        }
        r
    }

    /// Replaces node `i`'s neighbour list on layer `l`.
    fn set_conn(&mut self, i: usize, l: usize, list: Vec<usize>)
        requires
            i < old(self).nodes@.len(),
            l < old(self).nodes@[i as int].connections@.len(),
        ensures
            conn_replaced(old(self).nodes@, final(self).nodes@, i as int, l as int, list@),
            final(self).m == old(self).m,
            final(self).m_max0 == old(self).m_max0,
            final(self).ef_construction == old(self).ef_construction,
            final(self).entry_point == old(self).entry_point,
            final(self).max_layer == old(self).max_layer,
    {
        self.nodes[i].connections[l] = list;
    }

    /// Appends `x` to node `i`'s neighbour list on layer `l`.
    fn push_conn(&mut self, i: usize, l: usize, x: usize)
        requires
            i < old(self).nodes@.len(),
            l < old(self).nodes@[i as int].connections@.len(),
        ensures
            conn_replaced(old(self).nodes@, final(self).nodes@, i as int, l as int, old(self).nodes@[i as int].connections@[l as int]@.push(x)),
            final(self).m == old(self).m,
            final(self).m_max0 == old(self).m_max0,
            final(self).ef_construction == old(self).ef_construction,
            final(self).entry_point == old(self).entry_point,
            final(self).max_layer == old(self).max_layer,
    {
        self.nodes[i].connections[l].push(x);
    }

    /// Links node `q` into layer `lc` next to the chosen `neighbors`, pruning
    /// any neighbour whose list grows past the layer's limit.
    #[verifier::spinoff_prover]
    fn link_layer<F: Fn(&Vec<u32>, &Vec<u32>) -> u64>(&mut self, q: usize, lc: usize, neighbors: &Vec<usize>, f: &F)
        requires
            old(self).wf(),
            oracle_ok(f),
            q < old(self).nodes@.len(),
            lc <= old(self).nodes@[q as int].level,
            list_ok(old(self).nodes@, lc as int, neighbors@),
            neighbors@.len() <= limit_of(old(self).m as int, old(self).m_max0 as int, lc as int),
            !neighbors@.contains(q),
            forall|a: int, b: int| 0 <= a < neighbors@.len() && 0 <= b < neighbors@.len() && a != b ==> #[trigger] neighbors@[a] != #[trigger] neighbors@[b],
            forall|i: int| 0 <= i < old(self).nodes@.len() ==> !(#[trigger] conn_of(old(self).nodes@, i, lc as int)).contains(q),
        ensures
            final(self).wf(),
            simple_nodes(old(self).nodes@) ==> simple_nodes(final(self).nodes@),
            conn_of(final(self).nodes@, q as int, lc as int) == neighbors@,
            forall|t: int| 0 <= t < neighbors@.len() ==> final(self).linked_back(f, *old(self), #[trigger] neighbors@[t], q, lc as int),
            old(self).degree_ok() ==> final(self).degree_ok(),
            final(self).nodes@.len() == old(self).nodes@.len(),
            forall|i: int| 0 <= i < old(self).nodes@.len() ==> {
                &&& #[trigger] final(self).nodes@[i].id == old(self).nodes@[i].id
                &&& final(self).nodes@[i].vector == old(self).nodes@[i].vector
                &&& final(self).nodes@[i].level == old(self).nodes@[i].level
            },
            forall|i: int, l: int, x: usize|
                0 <= i < old(self).nodes@.len() && i != q && #[trigger] conn_of(final(self).nodes@, i, l).contains(x)
                    ==> conn_of(old(self).nodes@, i, l).contains(x) || x == q,
            forall|i: int, l: int| 0 <= i < old(self).nodes@.len() && l != lc ==> #[trigger] conn_of(final(self).nodes@, i, l) == conn_of(old(self).nodes@, i, l),
            forall|i: int| 0 <= i < old(self).nodes@.len() && i != q && !neighbors@.contains(i as usize) ==> #[trigger] conn_of(final(self).nodes@, i, lc as int) == conn_of(old(self).nodes@, i, lc as int),
            final(self).m == old(self).m,
            final(self).m_max0 == old(self).m_max0,
            final(self).ef_construction == old(self).ef_construction,
            final(self).entry_point == old(self).entry_point,
            final(self).max_layer == old(self).max_layer,
    {
        let ghost orig = self.nodes@;
        let ghost deg0 = self.degree_ok();
        let ghost simple0 = simple_nodes(orig);
        let m_lim = if lc == 0 { self.m_max0 } else { self.m };
        let list = copy_usizes(neighbors);
        proof {
            assert(lc < self.nodes@[q as int].connections@.len());
        }
        self.set_conn(q, lc, list);
        proof {
            lemma_conn_replaced(orig, self.nodes@, q as int, lc as int, neighbors@);
            if simple0 {
                assert forall|i: int, l: int|
                    0 <= i < self.nodes@.len() implies #[trigger] conn_of(self.nodes@, i, l).no_duplicates() && !conn_of(self.nodes@, i, l).contains(i as usize) by {
                    if i != q || l != lc {
                        assert(conn_of(self.nodes@, i, l) == conn_of(orig, i, l));
                    }
                }
            }
            if deg0 {
                assert forall|i: int, l: int|
                    0 <= i < self.nodes@.len() && 0 <= l < self.nodes@[i].connections@.len() implies (
                    #[trigger] self.nodes@[i].connections@[l]@.len()) <= limit_of(self.m as int, self.m_max0 as int, l) by {
                    if i != q || l != lc {
                        assert(conn_of(self.nodes@, i, l) == conn_of(orig, i, l));
                        assert(orig[i].connections@[l]@.len() <= limit_of(self.m as int, self.m_max0 as int, l));
                    }
                }
            }
        }
        let mut t: usize = 0;
        while t < neighbors.len()
            invariant
                self.wf(),
                oracle_ok(f),
                q < self.nodes@.len(),
                lc <= self.nodes@[q as int].level,
                m_lim == limit_of(self.m as int, self.m_max0 as int, lc as int),
                list_ok(orig, lc as int, neighbors@),
                !neighbors@.contains(q),
                conn_of(self.nodes@, q as int, lc as int) == neighbors@,
                t <= neighbors@.len(),
                deg0 ==> self.degree_ok(),
                self.nodes@.len() == orig.len(),
                forall|i: int| 0 <= i < orig.len() ==> {
                    &&& #[trigger] self.nodes@[i].id == orig[i].id
                    &&& self.nodes@[i].vector == orig[i].vector
                    &&& self.nodes@[i].level == orig[i].level
                },
                forall|i: int, l: int, x: usize|
                    0 <= i < orig.len() && i != q && #[trigger] conn_of(self.nodes@, i, l).contains(x)
                        ==> conn_of(orig, i, l).contains(x) || x == q,
                forall|i: int, l: int| 0 <= i < orig.len() && l != lc ==> #[trigger] conn_of(self.nodes@, i, l) == conn_of(orig, i, l),
                self.m == old(self).m,
                self.m_max0 == old(self).m_max0,
                self.ef_construction == old(self).ef_construction,
                self.entry_point == old(self).entry_point,
                self.max_layer == old(self).max_layer,
                orig == old(self).nodes@,
                old(self).wf(),
                q < orig.len(),
                forall|a: int, b: int| 0 <= a < neighbors@.len() && 0 <= b < neighbors@.len() && a != b ==> #[trigger] neighbors@[a] != #[trigger] neighbors@[b],
                forall|u: int| 0 <= u < t ==> self.linked_back(f, *old(self), #[trigger] neighbors@[u], q, lc as int),
                forall|u: int| t <= u < neighbors@.len() ==> #[trigger] conn_of(self.nodes@, neighbors@[u] as int, lc as int) == conn_of(orig, neighbors@[u] as int, lc as int),
                forall|i: int| 0 <= i < orig.len() ==> !(#[trigger] conn_of(orig, i, lc as int)).contains(q),
                simple0 == simple_nodes(orig),
                simple0 ==> simple_nodes(self.nodes@),
                forall|i: int| 0 <= i < orig.len() && i != q && !neighbors@.contains(i as usize) ==> #[trigger] conn_of(self.nodes@, i, lc as int) == conn_of(orig, i, lc as int),
            decreases neighbors@.len() - t,
        {
            let e = neighbors[t];
            let ghost before = self.nodes@;
            let ghost hbefore = *self;
            proof {
                assert(neighbors@[t as int] == e);
                assert(e != q);
                assert(list_ok(orig, lc as int, neighbors@));
                assert((neighbors@[t as int] as int) < orig.len() && orig[neighbors@[t as int] as int].level >= lc);
                assert(self.nodes@[e as int].id == orig[e as int].id);
                assert(self.nodes@[e as int].level == orig[e as int].level);
                assert(layers_ok(self.nodes@));
                assert(self.nodes@[e as int].connections@.len() == self.nodes@[e as int].level + 1);
            }
            let ghost prev = before[e as int].connections@[lc as int]@;
            self.push_conn(e, lc, q);
            proof {
                assert(list_ok(before, lc as int, prev.push(q))) by {
                    assert forall|k: int| 0 <= k < prev.push(q).len() implies (#[trigger] prev.push(q)[k] as int) < before.len() && before[prev.push(q)[k] as int].level >= lc by {
                        if k < prev.len() {
                            assert(prev[k] == before[e as int].connections@[lc as int]@[k]);
                        }
                    }
                }
                lemma_conn_replaced(before, self.nodes@, e as int, lc as int, prev.push(q));
            }
            let ghost mid = self.nodes@;
            let ghost hmid = *self;
            if self.nodes[e].connections[lc].len() > m_lim {
                let e_conns = copy_usizes(&self.nodes[e].connections[lc]);
                proof {
                    assert(e_conns@ == prev.push(q));
                    assert forall|k: int| 0 <= k < e_conns@.len() implies (#[trigger] e_conns@[k] as int) < self.nodes@.len() by {
                        assert(list_ok(before, lc as int, prev.push(q)));
                    }
                }
                let pruned = self.select_neighbors(&self.nodes[e].vector, &e_conns, m_lim, f);
                proof {
                    assert(hmid.picked_from(f, e as int, prev.push(q), m_lim as int, pruned@)) by {
                        assert(hmid.keys_from(f, e as int, prev.push(q)) == self.cand_keys(f, &self.nodes@[e as int].vector, e_conns@));
                    }
                }
                proof {
                    assert forall|k: int| 0 <= k < pruned@.len() implies (#[trigger] pruned@[k] as int) < mid.len() && mid[pruned@[k] as int].level >= lc by {
                        assert(e_conns@.contains(pruned@[k]));
                        let j = choose|j: int| 0 <= j < e_conns@.len() && e_conns@[j] == pruned@[k];
                        assert(list_ok(before, lc as int, prev.push(q)));
                        assert(prev.push(q)[j] == pruned@[k]);
                    }
                    assert(lc < mid[e as int].connections@.len());
                }
                self.set_conn(e, lc, pruned);
                proof {
                    lemma_conn_replaced(mid, self.nodes@, e as int, lc as int, pruned@);
                }
            }
            proof {
                let cur = self.nodes@;
                assert(conn_of(mid, q as int, lc as int) == conn_of(before, q as int, lc as int));
                assert(conn_of(cur, q as int, lc as int) == conn_of(mid, q as int, lc as int));
                assert forall|i: int| 0 <= i < orig.len() implies {
                    &&& #[trigger] cur[i].id == orig[i].id
                    &&& cur[i].vector == orig[i].vector
                    &&& cur[i].level == orig[i].level
                } by {
                    assert(before[i].id == orig[i].id);
                    if i != e {
                        assert(mid[i] == before[i]);
                        assert(cur[i] == mid[i]);
                    }
                }
                assert forall|i: int, l: int, x: usize|
                    0 <= i < orig.len() && i != q && #[trigger] conn_of(cur, i, l).contains(x)
                        implies conn_of(orig, i, l).contains(x) || x == q by {
                    if i == e && l == lc {
                        let c = conn_of(cur, i, l);
                        let k = choose|k: int| 0 <= k < c.len() && c[k] == x;
                        if c == prev.push(q) {
                            if k < prev.len() {
                                assert(prev[k] == x);
                                assert(conn_of(before, i, l) == prev);
                                assert(conn_of(before, i, l).contains(x));
                            }
                        } else {
                            let pruned_list = c;
                            assert(conn_of(mid, e as int, lc as int) == prev.push(q));
                            assert(prev.push(q).contains(x));
                            let k2 = choose|k2: int| 0 <= k2 < prev.push(q).len() && prev.push(q)[k2] == x;
                            if k2 < prev.len() {
                                assert(prev[k2] == x);
                                assert(conn_of(before, i, l).contains(x));
                            }
                        }
                    } else {
                        assert(conn_of(mid, i, l) == conn_of(before, i, l));
                        assert(conn_of(cur, i, l) == conn_of(mid, i, l));
                    }
                }
                assert forall|i: int, l: int| 0 <= i < orig.len() && l != lc implies #[trigger] conn_of(cur, i, l) == conn_of(orig, i, l) by {
                    assert(conn_of(mid, i, l) == conn_of(before, i, l));
                    assert(conn_of(cur, i, l) == conn_of(mid, i, l));
                }
                if deg0 {
                    assert forall|i: int, l: int|
                        0 <= i < cur.len() && 0 <= l < cur[i].connections@.len() implies (
                        #[trigger] cur[i].connections@[l]@.len()) <= limit_of(self.m as int, self.m_max0 as int, l) by {
                        if i != e || l != lc {
                            assert(conn_of(mid, i, l) == conn_of(before, i, l));
                            assert(conn_of(cur, i, l) == conn_of(mid, i, l));
                            assert(before[i].connections@[l]@.len() <= limit_of(self.m as int, self.m_max0 as int, l));
                        }
                    }
                }
                if simple0 {
                    assert(conn_of(before, e as int, lc as int) == conn_of(orig, e as int, lc as int)) by {
                        assert(conn_of(before, neighbors@[t as int] as int, lc as int) == conn_of(orig, neighbors@[t as int] as int, lc as int));
                    }
                    assert(prev == conn_of(before, e as int, lc as int));
                    assert(!prev.contains(q));
                    assert(simple_nodes(before));
                    assert((e as int) < before.len()) by {
                        assert(list_ok(orig, lc as int, neighbors@));
                        assert(neighbors@[t as int] == e);
                    }
                    let ei = e as int;
                    let li = lc as int;
                    assert(0 <= ei < before.len());
                    assert(conn_of(before, ei, li).no_duplicates());
                    assert(!conn_of(before, ei, li).contains(ei as usize));
                    assert(prev.no_duplicates() && !prev.contains(e));
                    assert(prev.push(q).no_duplicates()) by {
                        assert forall|a: int, b: int| 0 <= a < prev.push(q).len() && 0 <= b < prev.push(q).len() && a != b implies prev.push(q)[a] != prev.push(q)[b] by {
                            if a < prev.len() && b < prev.len() {
                            } else if a < prev.len() {
                                assert(prev.contains(prev[a]));
                            } else {
                                assert(prev.contains(prev[b]));
                            }
                        }
                    }
                    assert(!prev.push(q).contains(e)) by {
                        if prev.push(q).contains(e) {
                            let k = choose|k: int| 0 <= k < prev.push(q).len() && prev.push(q)[k] == e;
                            if k < prev.len() {
                                assert(prev.contains(prev[k]));
                            }
                        }
                    }
                    let ce = conn_of(cur, e as int, lc as int);
                    assert(ce.no_duplicates() && !ce.contains(e)) by {
                        if ce != prev.push(q) {
                            assert(ce.no_duplicates());
                            if ce.contains(e) {
                                let k = choose|k: int| 0 <= k < ce.len() && ce[k] == e;
                                assert(prev.push(q).contains(ce[k]));
                            }
                        }
                    }
                    assert forall|i: int, l: int|
                        0 <= i < before.len() && (i != e || l != lc) implies #[trigger] conn_of(cur, i, l) == conn_of(before, i, l) by {
                        assert(conn_of(mid, i, l) == conn_of(before, i, l));
                        assert(conn_of(cur, i, l) == conn_of(mid, i, l));
                    }
                    lemma_simple_after_change(before, cur, e as int, lc as int);
                }
                let w = prev.push(q);
                assert(prev == old(self).conn(e as int, lc as int)) by {
                    assert(conn_of(before, neighbors@[t as int] as int, lc as int) == conn_of(orig, neighbors@[t as int] as int, lc as int));
                }
                assert(self.m_spec() == old(self).m_spec());
                assert(2 * self.m_spec() == self.m_max0);
                old(self).lemma_conn_in_range(e as int, lc as int);
                assert forall|k: int| 0 <= k < w.len() implies (#[trigger] w[k] as int) < hmid.nodes@.len() by {
                    if k < prev.len() {
                        assert(prev[k] == old(self).conn(e as int, lc as int)[k]);
                    }
                }
                assert forall|j: int| 0 <= j < hmid.nodes@.len() implies #[trigger] hmid.nodes@[j].vector == self.nodes@[j].vector by {
                    assert(cur[j].vector == before[j].vector);
                    assert(mid[j].vector == before[j].vector);
                }
                if w.len() > m_lim {
                    lemma_keys_same(hmid, *self, f, e as int, w);
                }
                assert(self.linked_back(f, *old(self), e, q, lc as int));
                assert forall|j: int| 0 <= j < hbefore.nodes@.len() implies #[trigger] hbefore.nodes@[j].vector == self.nodes@[j].vector by {
                    assert(cur[j].vector == before[j].vector);
                }
                assert forall|u: int| 0 <= u < t + 1 implies self.linked_back(f, *old(self), #[trigger] neighbors@[u], q, lc as int) by {
                    if u < t {
                        let n = neighbors@[u];
                        assert(n != e);
                        assert(conn_of(cur, n as int, lc as int) == conn_of(before, n as int, lc as int)) by {
                            assert(conn_of(mid, n as int, lc as int) == conn_of(before, n as int, lc as int));
                        }
                        let wn = old(self).conn(n as int, lc as int).push(q);
                        assert(list_ok(orig, lc as int, neighbors@));
                        assert((n as int) < orig.len());
                        old(self).lemma_conn_in_range(n as int, lc as int);
                        assert forall|k: int| 0 <= k < wn.len() implies (#[trigger] wn[k] as int) < hbefore.nodes@.len() by {
                            if k < wn.len() - 1 {
                                assert(wn[k] == old(self).conn(n as int, lc as int)[k]);
                            }
                        }
                        if wn.len() > m_lim {
                            lemma_keys_same(hbefore, *self, f, n as int, wn);
                        }
                    }
                }
                assert forall|i: int| 0 <= i < orig.len() && i != q && !neighbors@.contains(i as usize) implies #[trigger] conn_of(cur, i, lc as int) == conn_of(orig, i, lc as int) by {
                    assert(i != e) by {
                        if i == e {
                            assert(neighbors@[t as int] == e);
                        }
                    }
                    assert(conn_of(mid, i, lc as int) == conn_of(before, i, lc as int));
                }
                assert forall|u: int| t + 1 <= u < neighbors@.len() implies #[trigger] conn_of(cur, neighbors@[u] as int, lc as int) == conn_of(orig, neighbors@[u] as int, lc as int) by {
                    let n = neighbors@[u];
                    assert(n != e);
                    assert(conn_of(mid, n as int, lc as int) == conn_of(before, n as int, lc as int));
                }
            }
            t = t + 1;
        }
    }

    /// The first candidate among the closest ones to `q`.
    fn first_closest<F: Fn(&Vec<u32>, &Vec<u32>) -> u64>(&self, q: &Vec<u32>, cands: &Vec<usize>, f: &F) -> (r: usize)
        requires
            oracle_ok(f),
            cands@.len() > 0,
            forall|t: int| 0 <= t < cands@.len() ==> (#[trigger] cands@[t] as int) < self.nodes@.len(),
        ensures
            exists|i: int| 0 <= i < cands@.len() && cands@[i] == r && (forall|t: int| 0 <= t < i ==> self.qdist(f, q, r as int) < self.qdist(f, q, #[trigger] cands@[t] as int)),
            forall|t: int| 0 <= t < cands@.len() ==> self.qdist(f, q, r as int) <= self.qdist(f, q, #[trigger] cands@[t] as int),
    {
        let mut best: usize = 0;
        let mut best_d = self.node_dist(f, q, cands[0]);
        let mut i: usize = 1;
        while i < cands.len()
            invariant
                oracle_ok(f),
                forall|t: int| 0 <= t < cands@.len() ==> (#[trigger] cands@[t] as int) < self.nodes@.len(),
                1 <= i <= cands@.len(),
                best < i,
                best_d == self.qdist(f, q, cands@[best as int] as int),
                forall|t: int| 0 <= t < best ==> best_d < self.qdist(f, q, #[trigger] cands@[t] as int),
                forall|t: int| 0 <= t < i ==> best_d <= self.qdist(f, q, #[trigger] cands@[t] as int),
            decreases cands@.len() - i,
        {
            let d = self.node_dist(f, q, cands[i]);
            if d < best_d {
                best = i;
                best_d = d;
            }
            i = i + 1;
        }
        cands[best]
    }

    /// Adds a node for record `id` with `vector`; its level is `drawn_level`
    /// capped at `MAX_LEVEL`.
    #[verifier::spinoff_prover]
    #[verifier::rlimit(80)]
    pub fn insert<F: Fn(&Vec<u32>, &Vec<u32>) -> u64>(&mut self, id: String, vector: Vec<u32>, drawn_level: usize, f: &F)
        requires
            old(self).wf(),
            oracle_ok(f),
        ensures
            inserted(f, *old(self), *final(self), id@, vector@, drawn_level),
    {
        let ghost orig = self.nodes@;
        let ghost deg0 = self.degree_ok();
        let ghost simple0 = self.simple_links();
        let q = self.nodes.len();
        let level = if drawn_level < MAX_LEVEL { drawn_level } else { MAX_LEVEL };
        let mut layers: Vec<Vec<usize>> = Vec::new();
        let mut c: usize = 0;
        while c <= level
            invariant
                level <= MAX_LEVEL,
                c <= level + 1,
                layers@.len() == c,
                forall|t: int| 0 <= t < c ==> (#[trigger] layers@[t])@.len() == 0,
            decreases level + 1 - c,
        {
            layers.push(Vec::new());
            c = c + 1;
        }
        self.nodes.push(Node { id, vector, level, connections: layers });
        proof {
            let cur = self.nodes@;
            assert(cur[q as int].connections@.len() == level + 1);
            assert forall|i: int| 0 <= i < cur.len() implies #[trigger] cur[i].connections@.len() == cur[i].level + 1 by {
                if i < q {
                    assert(cur[i] == orig[i]);
                }
            }
            assert forall|i: int, l: int, k: int|
                0 <= i < cur.len() && 0 <= l < cur[i].connections@.len() && 0 <= k < cur[i].connections@[l]@.len() implies {
                    let t = #[trigger] cur[i].connections@[l]@[k];
                    &&& (t as int) < cur.len()
                    &&& cur[t as int].level >= l
                } by {
                if i < q {
                    assert(cur[i] == orig[i]);
                    let t = orig[i].connections@[l]@[k];
                    assert(cur[t as int] == orig[t as int]);
                } else {
                    assert(layers@[l]@.len() == 0);
                }
            }
            assert forall|i: int, l: int| 0 <= i < q implies #[trigger] conn_of(cur, i, l) == conn_of(orig, i, l) by {
                assert(cur[i] == orig[i]);
            }
            if deg0 {
                assert forall|i: int, l: int|
                    0 <= i < cur.len() && 0 <= l < cur[i].connections@.len() implies (
                    #[trigger] cur[i].connections@[l]@.len()) <= limit_of(self.m as int, self.m_max0 as int, l) by {
                    if i < q {
                        assert(cur[i] == orig[i]);
                    } else {
                        assert(layers@[l]@.len() == 0);
                    }
                }
            }
            assert forall|l: int| l > level implies #[trigger] conn_of(cur, q as int, l).len() == 0 by {}
            if simple0 {
                assert forall|i: int, l: int|
                    0 <= i < cur.len() implies #[trigger] conn_of(cur, i, l).no_duplicates() && !conn_of(cur, i, l).contains(i as usize) by {
                    if i < q {
                        assert(old(self).conn(i, l) == conn_of(orig, i, l));
                        assert(old(self).conn(i, l).no_duplicates() && !old(self).conn(i, l).contains(i as usize));
                    } else {
                        if 0 <= l < cur[i].connections@.len() {
                            assert(layers@[l]@.len() == 0);
                        }
                        assert(conn_of(cur, i, l).len() == 0);
                    }
                }
            }
        }
        let ghost pushed = self.nodes@;
        let ghost qv = self.nodes@[q as int].vector;
        let ghost hp = *self;
        assert(pushed[q as int].level == level);
        let ep_opt = self.entry_point;
        if ep_opt.is_none() {
                self.entry_point = Some(0);
                self.max_layer = level;
                proof {
                    assert(orig.len() == 0);
                    assert(pushed[0].level == level);
                    assert forall|i: int, l: int, x: usize|
                        0 <= i < orig.len() && #[trigger] conn_of(self.nodes@, i, l).contains(x) implies conn_of(orig, i, l).contains(x) || x == q by {}
                    assert(self.nodes@.len() == orig.len() + 1);
                    assert(grown_from(orig, self.nodes@, q as int));
                    assert(orig == old(self).nodes_view());
                    assert(self.nodes@ == self.nodes_view());
                    assert(grown_from(old(self).nodes_view(), self.nodes_view(), old(self).size() as int));
                    assert(old(self).size() == 0);
                    assert(forall|i: int| 0 <= i < old(self).size() ==> {
                        &&& #[trigger] self.id_at(i) == old(self).id_at(i)
                        &&& self.vector_at(i) == old(self).vector_at(i)
                        &&& self.level_at(i) == old(self).level_at(i)
                    });
                }
                return;
        }
        let ep0 = ep_opt.unwrap();
        {
            {
                let l = self.max_layer;
                let mut ep = ep0;
                let mut lc = l;
                let ghost tp: int = if level < l { level as int } else { l as int };
                while lc > level
                    invariant
                        self.wf(),
                        oracle_ok(f),
                        *self == hp,
                        hp.nodes@ == pushed,
                        qv == pushed[q as int].vector,
                        tp == if level < l { level as int } else { l as int },
                        lc >= tp,
                        self.descend(f, &qv, ep, lc as int, tp) == self.descend(f, &qv, ep0, l as int, tp),
                        self.nodes@ == pushed,
                        pushed[q as int].level == level,
                        q + 1 == pushed.len(),
                        ep != q,
                        ep < self.nodes@.len(),
                        lc >= level || lc == l,
                        lc <= l,
                        self.nodes@[ep as int].level >= lc,
                    decreases lc,
                {
                    let r = self.greedy_search(&self.nodes[q].vector, ep, lc, f);
                    ep = r;
                    lc = lc - 1;
                }
                let top = lc;
                assert(top == if level < l { level } else { l });
                let ghost desc0 = old(self).descend(f, &qv, ep0, l as int, top as int);
                proof {
                    assert(ep == hp.descend(f, &qv, ep0, l as int, top as int));
                    assert forall|i: int, lx: int| 0 <= i < old(self).size() && top < lx <= l implies #[trigger] hp.conn(i, lx) == old(self).conn(i, lx) by {
                        assert(pushed[i] == orig[i]);
                    }
                    assert forall|i: int| 0 <= i < old(self).size() implies #[trigger] hp.nodes@[i].vector == old(self).nodes@[i].vector by {
                        assert(pushed[i] == orig[i]);
                    }
                    Self::lemma_descend_shrink(*old(self), hp, f, &qv, ep0, l as int, top as int);
                    assert(ep == desc0);
                }
                let ghost mut ss: Seq<usize> = Seq::new((top + 1) as nat, |i: int| 0usize);
                let ghost mut ws: Seq<Seq<usize>> = Seq::new((top + 1) as nat, |i: int| Seq::<usize>::empty());
                proof {
                    assert forall|i: int, lx: int| 0 <= i < self.nodes@.len() implies !(#[trigger] conn_of(self.nodes@, i, lx)).contains(q) by {
                        if i < q {
                            assert(pushed[i] == orig[i]);
                            if conn_of(orig, i, lx).contains(q) {
                                let k = choose|k: int| 0 <= k < conn_of(orig, i, lx).len() && conn_of(orig, i, lx)[k] == q;
                                assert(orig[i].connections@[lx]@[k] == q);
                            }
                        } else {
                            assert(conn_of(self.nodes@, i, lx).len() == 0) by {
                                if 0 <= lx < self.nodes@[i].connections@.len() {
                                    assert(self.nodes@[i].connections@[lx]@.len() == 0);
                                }
                            }
                        }
                    }
                }
                let mut lc2: usize = top + 1;
                while lc2 > 0
                    invariant
                        self.wf(),
                        oracle_ok(f),
                        deg0 ==> self.degree_ok(),
                        q == orig.len(),
                        self.nodes@.len() == q + 1,
                        pushed.len() == q + 1,
                        lc2 <= top + 1,
                        top <= level,
                        top <= l,
                        self.nodes@[q as int].level == level,
                        ep < self.nodes@.len(),
                        lc2 > 0 ==> self.nodes@[ep as int].level >= lc2 - 1,
                        forall|i: int| 0 <= i < self.nodes@.len() ==> {
                            &&& #[trigger] self.nodes@[i].id == pushed[i].id
                            &&& self.nodes@[i].vector == pushed[i].vector
                            &&& self.nodes@[i].level == pushed[i].level
                        },
                        forall|i: int, lx: int, x: usize|
                            0 <= i < q && #[trigger] conn_of(self.nodes@, i, lx).contains(x) ==> conn_of(orig, i, lx).contains(x) || x == q,
                        forall|lx: int| lx > top ==> #[trigger] conn_of(self.nodes@, q as int, lx).len() == 0,
                        self.m == old(self).m,
                        self.m_max0 == old(self).m_max0,
                        self.ef_construction == old(self).ef_construction,
                        self.entry_point == Some(ep0),
                        self.max_layer == l,
                        ep != q,
                        simple0 ==> simple_nodes(self.nodes@),
                        forall|i: int, lx: int| 0 <= i < q && !conn_of(self.nodes@, q as int, lx).contains(i as usize) ==> #[trigger] conn_of(self.nodes@, i, lx) == conn_of(orig, i, lx),
                        forall|i: int, lx: int| 0 <= i < self.nodes@.len() && lx < lc2 ==> !(#[trigger] conn_of(self.nodes@, i, lx)).contains(q),
                        forall|i: int, lx: int| 0 <= i < q && lx < lc2 ==> #[trigger] conn_of(self.nodes@, i, lx) == conn_of(orig, i, lx),
                        forall|lx: int| lx < lc2 ==> #[trigger] conn_of(self.nodes@, q as int, lx).len() == 0,
                        orig == old(self).nodes@,
                        old(self).wf(),
                        forall|i: int| 0 <= i < q ==> #[trigger] pushed[i] == orig[i],
                        l == old(self).max_layer,
                        old(self).entry_point == Some(ep0),
                        ss.len() == top + 1,
                        ws.len() == top + 1,
                        self.nodes@[q as int].vector == qv,
                        desc0 == old(self).descend(f, &qv, ep0, l as int, top as int),
                        lc2 == top + 1 ==> ep == desc0,
                        lc2 <= top ==> old(self).first_closest_in(f, &qv, ws[lc2 as int], ep),
                        lc2 <= top ==> ss[top as int] == desc0,
                        forall|lx: int| lc2 <= lx <= top ==> (#[trigger] ss[lx] as int) < q,
                        forall|lx: int| lc2 <= lx <= top ==> #[trigger] old(self).beam_pool(ss[lx], lx, beam_cap(old(self).ef_spec()), ws[lx]),
                        forall|lx: int, j: int| lc2 <= lx <= top && 0 <= j < ws[lx].len() ==> old(self).level_at(#[trigger] ws[lx][j] as int) >= lx,
                        forall|lx: int| lc2 <= lx <= top ==> #[trigger] old(self).picked_for(f, &qv, ws[lx], limit_of(old(self).m_spec() as int, 2 * old(self).m_spec() as int, lx), conn_of(self.nodes@, q as int, lx)),
                        forall|lx: int| lc2 < lx <= top ==> #[trigger] old(self).first_closest_in(f, &qv, ws[lx], ss[lx - 1]),
                        forall|lx: int, k: int| 0 <= k < conn_of(self.nodes@, q as int, lx).len() ==> (#[trigger] conn_of(self.nodes@, q as int, lx)[k] as int) < q,
                        forall|lx: int, t: int|
                            lc2 <= lx <= top && 0 <= t < conn_of(self.nodes@, q as int, lx).len() ==> self.linked_back(
                                f,
                                *old(self),
                                #[trigger] conn_of(self.nodes@, q as int, lx)[t],
                                q,
                                lx,
                            ),
                    decreases lc2,
                {
                    let lc = lc2 - 1;
                    let ghost before = self.nodes@;
                    let ghost hb = *self;
                    let ghost ss0 = ss;
                    let ghost ws0 = ws;
                    proof {
                        ss = ss.update(lc as int, ep);
                    }
                    let cands = self.beam_search(&self.nodes[q].vector, ep, self.ef_construction, lc, f);
                    let m_lim = if lc == 0 { self.m_max0 } else { self.m };
                    let neighbors = self.select_neighbors(&self.nodes[q].vector, &cands, m_lim, f);
                    proof {
                        assert(self.nodes@[q as int].id == pushed[q as int].id);
                        assert forall|t: int| 0 <= t < cands@.len() implies (#[trigger] cands@[t] as int) < q && self.nodes@[cands@[t] as int].level >= lc by {
                            assert(self.reached(ep, lc as int, cands@[t]));
                            if cands@[t] != ep {
                                let i = choose|i: int| 0 <= i < self.size() && #[trigger] self.conn(i, lc as int).contains(cands@[t]);
                                assert(!conn_of(self.nodes@, i, lc as int).contains(q));
                            }
                        }
                        assert(!neighbors@.contains(q)) by {
                            if neighbors@.contains(q) {
                                let k = choose|k: int| 0 <= k < neighbors@.len() && neighbors@[k] == q;
                                assert(cands@.contains(neighbors@[k]));
                                let t = choose|t: int| 0 <= t < cands@.len() && cands@[t] == q;
                            }
                        }
                        assert forall|k: int| 0 <= k < neighbors@.len() implies (#[trigger] neighbors@[k] as int) < self.nodes@.len() && self.nodes@[neighbors@[k] as int].level >= lc by {
                            assert(cands@.contains(neighbors@[k]));
                        }
                        assert(self.picked_from(f, q as int, cands@, m_lim as int, neighbors@)) by {
                            assert(self.keys_from(f, q as int, cands@) == self.cand_keys(f, &self.nodes@[q as int].vector, cands@));
                        }
                    }
                    proof {
                        let cap = beam_cap(old(self).ef_spec());
                        assert(cap == if self.ef_construction == 0 { 1 } else { self.ef_construction as int });
                        assert(old(self).size() == q);
                        assert forall|i: int| 0 <= i < old(self).size() implies #[trigger] hb.conn(i, lc as int) == old(self).conn(i, lc as int) by {
                            assert(conn_of(before, i, lc as int) == conn_of(orig, i, lc as int));
                        }
                        assert(hb.conn(q as int, lc as int).len() == 0);
                        Self::lemma_pool_shrink(*old(self), hb, ep, lc as int, cap, cands@);
                        assert((ep as int) < old(self).size());
                        assert forall|t: int| 0 <= t < cands@.len() implies #[trigger] hb.nodes@[cands@[t] as int].vector == old(self).nodes@[cands@[t] as int].vector by {
                            assert(before[cands@[t] as int].id == pushed[cands@[t] as int].id);
                            assert(before[cands@[t] as int].vector == pushed[cands@[t] as int].vector);
                            assert(pushed[cands@[t] as int] == orig[cands@[t] as int]);
                        }
                        Self::lemma_cand_keys_same(hb, *old(self), f, &qv, cands@);
                        assert(old(self).picked_for(f, &qv, cands@, m_lim as int, neighbors@));
                        ws = ws.update(lc as int, cands@);
                    }
                    self.link_layer(q, lc, &neighbors, f);
                    proof {
                        assert(hb.nodes@ == before);
                        assert forall|j: int| 0 <= j < hb.nodes@.len() implies #[trigger] hb.nodes@[j].vector == self.nodes@[j].vector by {
                            assert(self.nodes@[j].id == before[j].id);
                            assert(self.nodes@[j].vector == before[j].vector);
                        }
                        assert forall|i: int, lx: int| 0 <= i < self.nodes@.len() && lx < lc implies !(#[trigger] conn_of(self.nodes@, i, lx)).contains(q) by {
                            assert(conn_of(self.nodes@, i, lx) == conn_of(hb.nodes@, i, lx));
                        }
                        assert(self.m_spec() == old(self).m_spec());
                        assert forall|i: int, lx: int| 0 <= i < q && !conn_of(self.nodes@, q as int, lx).contains(i as usize) implies #[trigger] conn_of(self.nodes@, i, lx) == conn_of(orig, i, lx) by {
                            if lx != lc {
                                assert(conn_of(self.nodes@, q as int, lx) == conn_of(hb.nodes@, q as int, lx));
                                assert(conn_of(self.nodes@, i, lx) == conn_of(hb.nodes@, i, lx));
                            } else {
                                assert(conn_of(self.nodes@, q as int, lx) == neighbors@);
                                assert(conn_of(self.nodes@, i, lx) == conn_of(hb.nodes@, i, lx));
                            }
                        }
                        assert forall|lx: int, k: int| 0 <= k < conn_of(self.nodes@, q as int, lx).len() implies (#[trigger] conn_of(self.nodes@, q as int, lx)[k] as int) < q by {
                            if lx != lc {
                                assert(conn_of(self.nodes@, q as int, lx) == conn_of(hb.nodes@, q as int, lx));
                            } else {
                                assert(conn_of(self.nodes@, q as int, lx)[k] == neighbors@[k]);
                            }
                        }
                        assert forall|lx: int, t: int|
                            lc <= lx <= top && 0 <= t < conn_of(self.nodes@, q as int, lx).len() implies self.linked_back(
                                f,
                                *old(self),
                                #[trigger] conn_of(self.nodes@, q as int, lx)[t],
                                q,
                                lx,
                            ) by {
                            let e = conn_of(self.nodes@, q as int, lx)[t];
                            if lx == lc {
                                assert(neighbors@[t] == e);
                                assert(self.linked_back(f, hb, e, q, lx));
                                assert((e as int) < q);
                                assert(hb.conn(e as int, lx) == old(self).conn(e as int, lx));
                            } else {
                                assert(conn_of(self.nodes@, q as int, lx) == conn_of(hb.nodes@, q as int, lx));
                                assert(hb.linked_back(f, *old(self), e, q, lx));
                                assert(conn_of(hb.nodes@, q as int, lx)[t] == e);
                                assert((e as int) < q);
                                assert(conn_of(self.nodes@, e as int, lx) == conn_of(hb.nodes@, e as int, lx));
                                let w = old(self).conn(e as int, lx).push(q);
                                old(self).lemma_conn_in_range(e as int, lx);
                                assert forall|k: int| 0 <= k < w.len() implies (#[trigger] w[k] as int) < hb.nodes@.len() by {
                                    if k < w.len() - 1 {
                                        assert(w[k] == old(self).conn(e as int, lx)[k]);
                                    }
                                }
                                lemma_keys_same(hb, *self, f, e as int, w);
                            }
                        }
                    }
                    let next = self.first_closest(&self.nodes[q].vector, &cands, f);
                    proof {
                        let cur = self.nodes@;
                        assert(cands@.contains(next));
                        let j = choose|j: int| 0 <= j < cands@.len() && cands@[j] == next;
                        assert(cands@[j] == next);
                        assert(before[next as int].id == cur[next as int].id);
                        assert forall|i: int| 0 <= i < cur.len() implies {
                            &&& #[trigger] cur[i].id == pushed[i].id
                            &&& cur[i].vector == pushed[i].vector
                            &&& cur[i].level == pushed[i].level
                        } by {
                            assert(cur[i].id == before[i].id);
                            assert(cur[i].vector == before[i].vector);
                            assert(cur[i].level == before[i].level);
                            assert(before[i].id == pushed[i].id);
                            assert(before[i].vector == pushed[i].vector);
                            assert(before[i].level == pushed[i].level);
                        }
                        assert forall|i: int, lx: int, x: usize|
                            0 <= i < q && #[trigger] conn_of(cur, i, lx).contains(x) implies conn_of(orig, i, lx).contains(x) || x == q by {
                            if conn_of(before, i, lx).contains(x) {
                            }
                        }
                        assert forall|lx: int| lx > top implies #[trigger] conn_of(cur, q as int, lx).len() == 0 by {
                            assert(conn_of(cur, q as int, lx) == conn_of(before, q as int, lx));
                        }
                        assert(cur[q as int].id == pushed[q as int].id);
                    }
                    proof {
                        let g = *old(self);
                        assert forall|t: int| 0 <= t < cands@.len() implies #[trigger] self.qdist(f, &qv, cands@[t] as int) == g.qdist(f, &qv, cands@[t] as int) by {
                            assert(self.nodes@[cands@[t] as int].id == pushed[cands@[t] as int].id);
                            assert(self.nodes@[cands@[t] as int].vector == pushed[cands@[t] as int].vector);
                            assert(pushed[cands@[t] as int] == orig[cands@[t] as int]);
                        }
                        let i0 = choose|i: int|
                            0 <= i < cands@.len() && cands@[i] == next && (forall|t: int| 0 <= t < i ==> self.qdist(f, &qv, next as int) < self.qdist(f, &qv, #[trigger] cands@[t] as int));
                        assert(self.qdist(f, &qv, next as int) == g.qdist(f, &qv, next as int)) by {
                            assert(self.qdist(f, &qv, cands@[i0] as int) == g.qdist(f, &qv, cands@[i0] as int));
                        }
                        assert(cands@[i0] == next);
                        assert(g.first_closest_in(f, &qv, cands@, next));
                        assert(ws[lc as int] == cands@);
                        assert forall|lx: int| lc <= lx <= top implies {
                            &&& (ss[lx] as int) < q
                            &&& #[trigger] old(self).beam_pool(ss[lx], lx, beam_cap(old(self).ef_spec()), ws[lx])
                            &&& forall|j: int| 0 <= j < ws[lx].len() ==> old(self).level_at(#[trigger] ws[lx][j] as int) >= lx
                            &&& old(self).picked_for(f, &qv, ws[lx], limit_of(old(self).m_spec() as int, 2 * old(self).m_spec() as int, lx), conn_of(self.nodes@, q as int, lx))
                        } by {
                            if lx == lc {
                                assert(conn_of(self.nodes@, q as int, lx) == neighbors@);
                                assert(limit_of(g.m_spec() as int, 2 * g.m_spec() as int, lx) == m_lim as int);
                                assert(ss[lx] == ep);
                                assert forall|j: int| 0 <= j < ws[lx].len() implies g.level_at(#[trigger] ws[lx][j] as int) >= lx by {
                                    let x = cands@[j];
                                    assert(x == ws[lx][j]);
                                    assert((x as int) < q && before[x as int].level >= lc);
                                    assert(before[x as int].id == pushed[x as int].id);
                                    assert(pushed[x as int] == orig[x as int]);
                                }
                            } else {
                                assert(ss[lx] == ss0[lx] && ws[lx] == ws0[lx]);
                                assert(g.beam_pool(ss0[lx], lx, beam_cap(g.ef_spec()), ws0[lx]));
                                assert(conn_of(self.nodes@, q as int, lx) == conn_of(before, q as int, lx));
                            }
                        }
                        assert forall|lx: int, j: int| lc <= lx <= top && 0 <= j < ws[lx].len() implies old(self).level_at(#[trigger] ws[lx][j] as int) >= lx by {
                            if lx != lc {
                                assert(ws[lx] == ws0[lx]);
                                assert(ws0[lx][j] == ws[lx][j]);
                            } else {
                                let x = cands@[j];
                                assert(x == ws[lx][j]);
                                assert((x as int) < q && before[x as int].level >= lc);
                                assert(before[x as int].id == pushed[x as int].id);
                                assert(pushed[x as int] == orig[x as int]);
                            }
                        }
                        assert forall|lx: int| lc < lx <= top implies #[trigger] g.first_closest_in(f, &qv, ws[lx], ss[lx - 1]) by {
                            if lx == lc + 1 {
                                assert(ss[lx - 1] == ss[lc as int]);
                                assert(ws[lx] == ws0[lx]);
                            } else {
                                assert(ss[lx - 1] == ss0[lx - 1] && ws[lx] == ws0[lx]);
                                assert(g.first_closest_in(f, &qv, ws0[lx], ss0[lx - 1]));
                            }
                        }
                    }
                    ep = next;
                    lc2 = lc;
                }
                let ghost hfin = *self;
                if level > l {
                    self.entry_point = Some(q);
                    self.max_layer = level;
                }
                proof {
                    let cur = self.nodes@;
                    assert(cur[q as int].id == pushed[q as int].id);
                    assert(cur[ep0 as int].id == pushed[ep0 as int].id);
                    assert(hfin.nodes@ == self.nodes@);
                    assert forall|i: int| 0 <= i < orig.len() implies {
                        &&& #[trigger] cur[i].id == orig[i].id
                        &&& cur[i].vector == orig[i].vector
                        &&& cur[i].level == orig[i].level
                    } by {
                        assert(cur[i].id == pushed[i].id);
                        assert(pushed[i] == orig[i]);
                    }
                    assert(grown_from(orig, cur, q as int));
                    assert(self.vec_of(q as int) == qv);
                    assert(old(self).entry() == Some(ep0));
                    assert(old(self).top_layer() == l);
                    assert(self.level_at(q as int) == level);
                    assert(self.beams_from(f, *old(self), ss, ws)) by {
                        let g = *old(self);
                        let tt = if self.level_at(q as int) < g.top_layer() { self.level_at(q as int) as int } else { g.top_layer() as int };
                        assert(tt == top);
                        assert(g.size() == q);
                        assert(g.entry().unwrap() == ep0);
                        assert(ss[top as int] == g.descend(f, &qv, ep0, l as int, top as int));
                        assert(forall|lx: int| 0 < lx <= top ==> #[trigger] g.first_closest_in(f, &qv, ws[lx], ss[lx - 1]));
                        assert forall|lx: int| 0 <= lx <= top implies {
                            &&& (ss[lx] as int) < q
                            &&& #[trigger] g.beam_pool(ss[lx], lx, beam_cap(g.ef_spec()), ws[lx])
                            &&& forall|j: int| 0 <= j < ws[lx].len() ==> g.level_at(#[trigger] ws[lx][j] as int) >= lx
                            &&& g.picked_for(f, &qv, ws[lx], limit_of(g.m_spec() as int, 2 * g.m_spec() as int, lx), self.conn(q as int, lx))
                        } by {
                            assert(g.beam_pool(ss[lx], lx, beam_cap(g.ef_spec()), ws[lx]));
                            assert(self.conn(q as int, lx) == conn_of(hfin.nodes@, q as int, lx));
                        }
                    }
                    assert forall|lx: int, t: int|
                        0 <= lx <= self.level_at(q as int) && lx <= l && 0 <= t < self.conn(q as int, lx).len() implies self.linked_back(
                            f,
                            *old(self),
                            #[trigger] self.conn(q as int, lx)[t],
                            q,
                            lx,
                        ) by {
                        assert(lx <= top);
                        let e = self.conn(q as int, lx)[t];
                        assert(conn_of(hfin.nodes@, q as int, lx)[t] == e);
                        assert(hfin.linked_back(f, *old(self), e, q, lx));
                        assert(self.keys_from(f, e as int, old(self).conn(e as int, lx).push(q)) == hfin.keys_from(f, e as int, old(self).conn(e as int, lx).push(q)));
                    }
                    let nw = *self;
                    let od = *old(self);
                    let qq = q as int;
                    assert(nw.wf());
                    assert(od.degree_ok() ==> nw.degree_ok());
                    assert(od.simple_links() ==> nw.simple_links());
                    assert(grown_from(od.nodes_view(), nw.nodes_view(), qq));
                    assert(forall|i: int, l2: int| 0 <= i < qq && !nw.conn(qq, l2).contains(i as usize) ==> #[trigger] nw.conn(i, l2) == od.conn(i, l2));
                    assert(nw.size() == qq + 1);
                    assert(nw.id_at(qq) == id@);
                    assert(nw.vector_at(qq) == vector@);
                    assert(forall|lx: int| lx > od.top_layer() ==> #[trigger] nw.conn(qq, lx).len() == 0);
                    assert(exists|ss2: Seq<usize>, ws2: Seq<Seq<usize>>| #[trigger] nw.beams_from(f, od, ss2, ws2));
                }
            }
        }
    }

    /// What a search result says: entry `t` is node `ns[t]`'s key and id.
    pub open spec fn hits_of<F: Fn(&Vec<u32>, &Vec<u32>) -> u64>(&self, f: &F, q: &Vec<u32>, ns: Seq<usize>, r: Seq<(u64, String)>) -> bool {
        &&& ns.len() == r.len()
        &&& forall|t: int| 0 <= t < ns.len() ==> (#[trigger] ns[t] as int) < self.size()
        &&& forall|a: int, b: int| 0 <= a < ns.len() && 0 <= b < ns.len() && a != b ==> #[trigger] ns[a] != #[trigger] ns[b]
        &&& forall|t: int| 0 <= t < r.len() ==> (#[trigger] r[t]).0 == self.qdist(f, q, ns[t] as int) && r[t].1@ == self.id_at(ns[t] as int)
    }

    /// `r` lists the best `k` of the nodes `w` (all of them when fewer),
    /// closest first, equal keys in the order of `w`, each as (key, id).
    pub open spec fn best_of<F: Fn(&Vec<u32>, &Vec<u32>) -> u64>(&self, f: &F, q: &Vec<u32>, w: Seq<usize>, k: usize, r: Seq<(u64, String)>) -> bool {
        &&& r.len() == if k < w.len() { k as int } else { w.len() as int }
        &&& forall|t: int| 0 <= t < w.len() ==> (#[trigger] w[t] as int) < self.size()
        &&& exists|p: Seq<usize>| stable_order(self.cand_keys(f, q, w), p) && forall|t: int| 0 <= t < r.len() ==> {
            &&& (#[trigger] r[t]).0 == self.cand_keys(f, q, w)[p[t] as int]
            &&& r[t].1@ == self.id_at(w[p[t] as int] as int)
        }
    }

    /// Where a search for `query` starts its bottom-layer beam: the walk
    /// down from the entry point through the layers above the bottom one.
    pub open spec fn search_start<F: Fn(&Vec<u32>, &Vec<u32>) -> u64>(&self, f: &F, query: &Vec<u32>) -> usize {
        self.descend(f, query, self.entry().unwrap(), self.top_layer() as int, 0)
    }

    /// The `k` nodes found closest to `query` (searching with beam width
    /// `max(ef, k)` on the bottom layer), closest first, as (key, id) pairs.
    pub fn search<F: Fn(&Vec<u32>, &Vec<u32>) -> u64>(&self, query: &Vec<u32>, k: usize, ef: usize, f: &F) -> (r: Vec<(u64, String)>)
        requires
            self.wf(),
            oracle_ok(f),
        ensures
            r@.len() <= k,
            self.size() == 0 ==> r@.len() == 0,
            self.size() > 0 && k > 0 ==> r@.len() >= 1,
            exists|ns: Seq<usize>| self.hits_of(f, query, ns, r@),
            forall|a: int, b: int| 0 <= a < b < r@.len() ==> #[trigger] r@[a].0 <= #[trigger] r@[b].0,
            self.size() > 0 ==> (self.search_start(f, query) as int) < self.size(),
            self.size() > 0 ==> exists|w: Seq<usize>| {
                &&& #[trigger] self.beam_pool(self.search_start(f, query), 0, search_width(k, ef), w)
                &&& self.beam_best(f, query, self.search_start(f, query), 0, w)
                &&& self.beam_closed(f, query, 0, w)
                &&& self.best_of(f, query, w, k, r@)
            },
    {
        let mut ep = match self.entry_point {
            None => {
                let r: Vec<(u64, String)> = Vec::new();
                assert(self.hits_of(f, query, Seq::empty(), r@));
                return r;
            },
            Some(e) => e,
        };
        let mut lc = self.max_layer;
        while lc > 0
            invariant
                self.wf(),
                oracle_ok(f),
                ep < self.nodes@.len(),
                lc <= self.max_layer,
                self.entry_point is Some,
                self.descend(f, query, ep, lc as int, 0) == self.search_start(f, query),
            decreases lc,
        {
            ep = self.greedy_search(query, ep, lc, f);
            lc = lc - 1;
        }
        assert(ep == self.search_start(f, query));
        let width = if ef > k { ef } else { k };
        let cands = self.beam_search(query, ep, width, 0, f);
        let ranked = self.rank_nodes(query, &cands, f);
        let mut r: Vec<(u64, String)> = Vec::new();
        let mut t: usize = 0;
        while t < ranked.len() && t < k
            invariant
                t <= ranked@.len(),
                t <= k,
                r@.len() == t,
                forall|u: int| 0 <= u < ranked@.len() ==> (#[trigger] ranked@[u].1 as int) < self.nodes@.len(),
                forall|u: int| 0 <= u < t ==> (#[trigger] r@[u]).0 == ranked@[u].0 && r@[u].1@ == self.id_at(ranked@[u].1 as int),
            decreases ranked@.len() - t,
        {
            let (key, node) = ranked[t];
            let id = self.nodes[node].id.clone();
            r.push((key, id));
            t = t + 1;
        }
        proof {
            assert forall|u: int| 0 <= u < ranked@.len() implies (#[trigger] ranked@[u].1 as int) < self.nodes@.len() by {
                assert(cands@.contains(ranked@[u].1));
            }
            let ks = self.cand_keys(f, query, cands@);
            let p = choose|p: Seq<usize>|
                stable_order(ks, p) && forall|t: int|
                    0 <= t < ranked@.len() ==> #[trigger] ranked@[t] == (ks[p[t] as int], cands@[p[t] as int]);
            let ns = Seq::new(r@.len(), |u: int| ranked@[u].1);
            assert forall|a: int, b: int| 0 <= a < ns.len() && 0 <= b < ns.len() && a != b implies #[trigger] ns[a] != #[trigger] ns[b] by {
                assert(ranked@[a] == (ks[p[a] as int], cands@[p[a] as int]));
                assert(ranked@[b] == (ks[p[b] as int], cands@[p[b] as int]));
                if a < b {
                    assert(ranks_before(ks, p[a] as int, p[b] as int));
                } else {
                    assert(ranks_before(ks, p[b] as int, p[a] as int));
                }
            }
            assert forall|t: int| 0 <= t < r@.len() implies (#[trigger] r@[t]).0 == self.qdist(f, query, ns[t] as int) && r@[t].1@ == self.id_at(ns[t] as int) by {
                assert(cands@.contains(ranked@[t].1));
            }
            assert(self.hits_of(f, query, ns, r@));
            assert forall|a: int, b: int| 0 <= a < b < r@.len() implies #[trigger] r@[a].0 <= #[trigger] r@[b].0 by {
                assert(r@[a].0 == ranked@[a].0);
                assert(r@[b].0 == ranked@[b].0);
            }
            assert forall|t: int| 0 <= t < r@.len() implies {
                &&& (#[trigger] r@[t]).0 == ks[p[t] as int]
                &&& r@[t].1@ == self.id_at(cands@[p[t] as int] as int)
            } by {
                assert(ranked@[t] == (ks[p[t] as int], cands@[p[t] as int]));
            }
            assert(self.best_of(f, query, cands@, k, r@));
            assert(self.beam_pool(ep, 0, search_width(k, ef), cands@));
            assert(self.beam_best(f, query, ep, 0, cands@));
            assert(self.beam_closed(f, query, 0, cands@));
        }
        r
    }

    /// A search result cannot be improved by one step along the bottom
    /// layer: a bottom-layer neighbour of a returned node that is not itself
    /// returned is no closer to the query than any returned node. The
    /// bottom-layer beam keeps expanding until no candidate next to it can
    /// improve it, so a wanted node one link away from the result is never
    /// left out for a farther one.
    pub proof fn law_search_result_locally_closed<F: Fn(&Vec<u32>, &Vec<u32>) -> u64>(
        f: &F,
        h: Hnsw,
        query: &Vec<u32>,
        k: usize,
        ef: usize,
        r: Seq<(u64, String)>,
    )
        requires
            h.size() > 0,
            exists|w: Seq<usize>| {
                &&& #[trigger] h.beam_pool(h.search_start(f, query), 0, search_width(k, ef), w)
                &&& h.beam_closed(f, query, 0, w)
                &&& h.best_of(f, query, w, k, r)
            },
        ensures
            exists|ns: Seq<usize>| {
                &&& #[trigger] h.hits_of(f, query, ns, r)
                &&& forall|t: int, j: int, u: int|
                    0 <= t < ns.len() && 0 <= j < h.conn(ns[t] as int, 0).len() && 0 <= u < r.len() && !ns.contains(
                        #[trigger] h.conn(ns[t] as int, 0)[j],
                    ) ==> (#[trigger] r[u]).0 <= h.qdist(f, query, h.conn(ns[t] as int, 0)[j] as int)
            },
    {
        let e = h.search_start(f, query);
        let w = choose|w: Seq<usize>| {
            &&& #[trigger] h.beam_pool(e, 0, search_width(k, ef), w)
            &&& h.beam_closed(f, query, 0, w)
            &&& h.best_of(f, query, w, k, r)
        };
        let ks = h.cand_keys(f, query, w);
        let p = choose|p: Seq<usize>| stable_order(ks, p) && forall|t: int| 0 <= t < r.len() ==> {
            &&& (#[trigger] r[t]).0 == ks[p[t] as int]
            &&& r[t].1@ == h.id_at(w[p[t] as int] as int)
        };
        let ns = Seq::new(r.len(), |t: int| w[p[t] as int]);
        assert(ks.len() == w.len());
        assert forall|a: int, b: int| 0 <= a < ns.len() && 0 <= b < ns.len() && a != b implies #[trigger] ns[a] != #[trigger] ns[b] by {
            if a < b {
                assert(ranks_before(ks, p[a] as int, p[b] as int));
            } else {
                assert(ranks_before(ks, p[b] as int, p[a] as int));
            }
        }
        assert forall|t: int| 0 <= t < r.len() implies (#[trigger] r[t]).0 == h.qdist(f, query, ns[t] as int) && r[t].1@ == h.id_at(ns[t] as int) by {
            assert(ns[t] == w[p[t] as int]);
        }
        assert(h.hits_of(f, query, ns, r));
        assert forall|t: int, j: int, u: int|
            0 <= t < ns.len() && 0 <= j < h.conn(ns[t] as int, 0).len() && 0 <= u < r.len() && !ns.contains(
                #[trigger] h.conn(ns[t] as int, 0)[j],
            ) implies (#[trigger] r[u]).0 <= h.qdist(f, query, h.conn(ns[t] as int, 0)[j] as int) by {
            let y = h.conn(ns[t] as int, 0)[j];
            assert(r[u].0 == ks[p[u] as int]);
            if w.contains(y) {
                let i = choose|i: int| 0 <= i < w.len() && w[i] == y;
                assert(p.contains(i as usize));
                let s2 = choose|s2: int| 0 <= s2 < p.len() && p[s2] == i as usize;
                if s2 < r.len() {
                    assert(ns[s2] == y);
                    assert(false);
                }
                assert(ranks_before(ks, p[u] as int, p[s2] as int));
            } else {
                reveal(Hnsw::beam_closed);
                assert(ns[t] == w[p[t] as int]);
                assert(h.qdist(f, query, w[p[u] as int] as int) <= h.qdist(f, query, y as int));
            }
        }
    }

    /// Builds an index by inserting `items` in order; each item is
    /// (record id, vector, drawn level).
    pub fn build<F: Fn(&Vec<u32>, &Vec<u32>) -> u64>(items: Vec<(String, Vec<u32>, usize)>, f: &F) -> (h: Self)
        requires
            oracle_ok(f),
        ensures
            h.wf(),
            h.degree_ok(),
            h.size() == items@.len(),
            h.m_spec() == DEFAULT_M,
            h.ef_spec() == DEFAULT_EF_CONSTRUCTION,
            forall|i: int| 0 <= i < items@.len() ==> {
                &&& #[trigger] h.id_at(i) == items@[i].0@
                &&& h.vector_at(i) == items@[i].1@
                &&& h.level_at(i) == if items@[i].2 < MAX_LEVEL { items@[i].2 } else { MAX_LEVEL }
            },
            h.simple_links(),
            exists|hs: Seq<Hnsw>| #[trigger] built_by_inserts(f, hs, items@, h),
    {
        let mut h = Self::new();
        let ghost mut hs: Seq<Hnsw> = seq![h];
        let mut items = items;
        let ghost all = items@;
        let mut stack: Vec<(String, Vec<u32>, usize)> = Vec::new();
        while items.len() > 0
            invariant
                stack@.len() + items@.len() == all.len(),
                forall|j: int| 0 <= j < items@.len() ==> #[trigger] items@[j] == all[j],
                forall|j: int| 0 <= j < stack@.len() ==> #[trigger] stack@[j] == all[all.len() - 1 - j],
            decreases items@.len(),
        {
            let x = items.pop().unwrap();
            stack.push(x);
        }
        let mut items = stack;
        while items.len() > 0
            invariant
                h.wf(),
                h.degree_ok(),
                h.size() == all.len() - items@.len(),
                h.m_spec() == DEFAULT_M,
                h.ef_spec() == DEFAULT_EF_CONSTRUCTION,
                oracle_ok(f),
                forall|j: int| 0 <= j < items@.len() ==> #[trigger] items@[j] == all[all.len() - 1 - j],
                forall|j: int| 0 <= j < h.size() ==> {
                    &&& #[trigger] h.id_at(j) == all[j].0@
                    &&& h.vector_at(j) == all[j].1@
                    &&& h.level_at(j) == if all[j].2 < MAX_LEVEL { all[j].2 } else { MAX_LEVEL }
                },
                built_by_inserts(f, hs, all.take(h.size() as int), h),
                h.simple_links(),
            decreases items@.len(),
        {
            let ghost hb = h;
            let (id, v, lv) = items.pop().unwrap();
            h.insert(id, v, lv, f);
            proof {
                let k = hb.size() as int;
                assert((id, v, lv) == all[k]);
                let hs2 = hs.push(h);
                assert(all.take(k + 1).drop_last() =~= all.take(k));
                assert forall|i: int| 0 <= i < k + 1 implies #[trigger] inserted(f, hs2[i], hs2[i + 1], all.take(k + 1)[i].0@, all.take(k + 1)[i].1@, all.take(k + 1)[i].2) by {
                    if i < k {
                        assert(hs2[i] == hs[i] && hs2[i + 1] == hs[i + 1]);
                        assert(all.take(k + 1)[i] == all.take(k)[i]);
                    } else {
                        assert(hs2[i] == hb);
                        assert(hs2[i + 1] == h);
                    }
                }
                hs = hs2;
                assert forall|j: int| 0 <= j < h.size() implies {
                    &&& #[trigger] h.id_at(j) == all[j].0@
                    &&& h.vector_at(j) == all[j].1@
                    &&& h.level_at(j) == if all[j].2 < MAX_LEVEL { all[j].2 } else { MAX_LEVEL }
                } by {
                    if j < hb.size() {
                        assert(hb.id_at(j) == all[j].0@);
                        assert(h.nodes_view()[j].id == hb.nodes_view()[j].id);
                    }
                }
            }
        }
        assert(all.take(all.len() as int) =~= all);
        h
    }
}


impl Hnsw {
    /// Every link on the bottom layer has its reverse.
    pub open spec fn bottom_symmetric(&self) -> bool {
        forall|i: int, k: int|
            0 <= i < self.size() && 0 <= k < self.conn(i, 0).len() ==> self.conn(
                #[trigger] self.conn(i, 0)[k] as int,
                0,
            ).contains(i as usize)
    }

    /// Every node can be reached from the entry point on the bottom layer.
    pub open spec fn bottom_connected(&self) -> bool {
        self.entry() matches Some(e) ==> forall|n: usize| (n as int) < self.size() ==> #[trigger] self.reachable(e, 0, n)
    }

    /// A list without repeats that names neither its own node nor a missing
    /// one holds at most `size - 1` nodes.
    proof fn lemma_list_len(&self, i: int, l: int)
        requires
            self.wf(),
            self.simple_links(),
            0 <= i < self.size(),
        ensures
            self.conn(i, l).len() + 1 <= self.size(),
    {
        let s = self.conn(i, l);
        self.lemma_conn_in_range(i, l);
        assert(self.conn(i, l).no_duplicates() && !self.conn(i, l).contains(i as usize));
        vstd::std_specs::vec::axiom_spec_len(&self.nodes);
        assert(self.size() <= usize::MAX);
        let all = Seq::new(self.size(), |j: int| j as usize);
        vstd::seq_lib::seq_to_set_is_finite(all);
        let others = all.to_set().remove(i as usize);
        assert(all.no_duplicates()) by {
            assert forall|a: int, b: int| 0 <= a < all.len() && 0 <= b < all.len() && a != b implies all[a] != all[b] by {}
        }
        all.unique_seq_to_set();
        assert(all.to_set().contains(i as usize)) by {
            assert(all[i] == i as usize);
        }
        assert forall|x: usize| s.to_set().contains(x) implies others.contains(x) by {
            let k = choose|k: int| 0 <= k < s.len() && s[k] == x;
            assert((s[k] as int) < self.size());
            assert(all[x as int] == x);
            assert(x != i as usize);
        }
        s.unique_seq_to_set();
        lemma_len_subset(s.to_set(), others);
    }

    /// Reachability keeps when every list of `a` stays within the same list
    /// of `b`.
    proof fn lemma_reach_grow(a: Hnsw, b: Hnsw, ep: usize, l: int, k: nat, n: usize)
        requires
            a.size() <= b.size(),
            forall|i: int, x: usize| 0 <= i < a.size() && #[trigger] a.conn(i, l).contains(x) ==> b.conn(i, l).contains(x),
            a.reach_within(ep, l, k, n),
        ensures
            b.reach_within(ep, l, k, n),
        decreases k,
    {
        if k > 0 {
            if a.reach_within(ep, l, (k - 1) as nat, n) {
                Self::lemma_reach_grow(a, b, ep, l, (k - 1) as nat, n);
            } else {
                let x = choose|x: usize|
                    (x as int) < a.size() && a.reach_within(ep, l, (k - 1) as nat, x) && #[trigger] a.conn(x as int, l).contains(n);
                Self::lemma_reach_grow(a, b, ep, l, (k - 1) as nat, x);
                assert(b.conn(x as int, l).contains(n));
                b.lemma_reach_step(ep, l, (k - 1) as nat, x, n);
            }
        }
    }

    /// Reaching `y` from `x` and `z` from `y` reaches `z` from `x`.
    proof fn lemma_reach_compose(&self, x: usize, l: int, y: usize, k: nat, z: usize)
        requires
            self.reachable(x, l, y),
            self.reach_within(y, l, k, z),
        ensures
            self.reachable(x, l, z),
        decreases k,
    {
        if k > 0 {
            if self.reach_within(y, l, (k - 1) as nat, z) {
                self.lemma_reach_compose(x, l, y, (k - 1) as nat, z);
            } else {
                let w = choose|w: usize|
                    (w as int) < self.size() && self.reach_within(y, l, (k - 1) as nat, w) && #[trigger] self.conn(w as int, l).contains(z);
                self.lemma_reach_compose(x, l, y, (k - 1) as nat, w);
                let k2 = choose|k2: nat| self.reach_within(x, l, k2, w);
                self.lemma_reach_step(x, l, k2, w, z);
            }
        }
    }

    /// Inserting into an index whose bottom lists all have room for one more
    /// node keeps every bottom link paired with its reverse and every node
    /// reachable from the entry point on the bottom layer.
    #[verifier::spinoff_prover]
    proof fn lemma_insert_keeps_bottom<F: Fn(&Vec<u32>, &Vec<u32>) -> u64>(f: &F, a: Hnsw, b: Hnsw, id: Seq<char>, v: Seq<u32>, lvl: usize)
        requires
            inserted(f, a, b, id, v, lvl),
            a.wf(),
            a.simple_links(),
            a.bottom_symmetric(),
            a.bottom_connected(),
            a.size() <= 2 * a.m_spec(),
            a.m_spec() >= 1,
        ensures
            b.bottom_symmetric(),
            b.bottom_connected(),
    {
        let q = a.size() as int;
        assert(b.simple_links());
        assert(b.wf());
        if a.entry() is None {
            assert(q == 0);
            let z: int = 0;
            b.lemma_conn_in_range(z, 0);
            assert(b.conn(z, 0).no_duplicates());
            assert(!b.conn(z, 0).contains(z as usize));
            assert forall|i: int, k: int| 0 <= i < b.size() && 0 <= k < b.conn(i, 0).len() implies b.conn(
                #[trigger] b.conn(i, 0)[k] as int,
                0,
            ).contains(i as usize) by {
                assert(i == 0);
                assert(b.conn(0, 0)[k] == 0usize);
                assert(b.conn(0, 0).contains(0usize));
            }
            assert forall|n: usize| (n as int) < b.size() implies #[trigger] b.reachable(0usize, 0, n) by {
                assert(n == 0);
                assert(b.reach_within(0usize, 0, 0, n));
            }
        } else {
            let ea = a.entry().unwrap();
            let nb = b.conn(q, 0);
            b.lemma_conn_in_range(q, 0);
            assert(nb.no_duplicates() && !nb.contains(q as usize));
            assert(b.m_spec() == a.m_spec());
            assert forall|e: usize| nb.contains(e) implies (e as int) < q && #[trigger] b.conn(e as int, 0) == a.conn(e as int, 0).push(
                q as usize,
            ) by {
                let t = choose|t: int| 0 <= t < nb.len() && nb[t] == e;
                assert(b.linked_back(f, a, nb[t], q as usize, 0));
                assert((e as int) < b.size());
                assert(e != q as usize);
                a.lemma_list_len(e as int, 0);
            }
            assert forall|i: int, x: usize| 0 <= i < q && #[trigger] a.conn(i, 0).contains(x) implies b.conn(i, 0).contains(x) by {
                if nb.contains(i as usize) {
                    assert(b.conn(i, 0) == a.conn(i, 0).push(q as usize));
                    let k = choose|k: int| 0 <= k < a.conn(i, 0).len() && a.conn(i, 0)[k] == x;
                    assert(b.conn(i, 0)[k] == x);
                } else {
                    assert(b.conn(i, 0) == a.conn(i, 0));
                }
            }
            assert forall|i: int, k: int| 0 <= i < b.size() && 0 <= k < b.conn(i, 0).len() implies b.conn(
                #[trigger] b.conn(i, 0)[k] as int,
                0,
            ).contains(i as usize) by {
                let x = b.conn(i, 0)[k];
                if i == q {
                    assert(nb.contains(x));
                    assert(b.conn(x as int, 0) == a.conn(x as int, 0).push(q as usize));
                    assert(b.conn(x as int, 0)[a.conn(x as int, 0).len() as int] == q as usize);
                } else {
                    assert(b.conn(i, 0).contains(x));
                    assert(conn_of(b.nodes_view(), i, 0).contains(x));
                    assert(conn_of(a.nodes_view(), i, 0).contains(x) || x == q as usize);
                    if x == q as usize {
                        if !nb.contains(i as usize) {
                            assert(b.conn(i, 0) == a.conn(i, 0));
                            a.lemma_conn_in_range(i, 0);
                            let k2 = choose|k2: int| 0 <= k2 < a.conn(i, 0).len() && a.conn(i, 0)[k2] == x;
                            assert(false);
                        }
                        assert(b.conn(q, 0).contains(i as usize));
                    } else {
                        assert(a.conn(i, 0).contains(x));
                        let k2 = choose|k2: int| 0 <= k2 < a.conn(i, 0).len() && a.conn(i, 0)[k2] == x;
                        a.lemma_conn_in_range(i, 0);
                        assert(a.conn(a.conn(i, 0)[k2] as int, 0).contains(i as usize));
                        assert((x as int) < q);
                        assert(a.conn(x as int, 0).contains(i as usize));
                        assert(b.conn(x as int, 0).contains(i as usize));
                    }
                }
            }
            assert forall|n: usize| (n as int) < q implies #[trigger] b.reachable(ea, 0, n) by {
                assert(a.reachable(ea, 0, n));
                let k = choose|k: nat| a.reach_within(ea, 0, k, n);
                Self::lemma_reach_grow(a, b, ea, 0, k, n);
            }
            let (ss, ws) = choose|ss: Seq<usize>, ws: Seq<Seq<usize>>| #[trigger] b.beams_from(f, a, ss, ws);
            let w = ws[0];
            assert(a.beam_pool(ss[0], 0, beam_cap(a.ef_spec()), w));
            assert(a.picked_for(f, &b.vec_of(q), w, limit_of(a.m_spec() as int, 2 * a.m_spec() as int, 0), nb));
            assert(w.len() >= 1);
            assert(nb.len() >= 1);
            let e0 = nb[0];
            assert(nb.contains(e0));
            assert(b.conn(e0 as int, 0) == a.conn(e0 as int, 0).push(q as usize));
            assert(b.conn(e0 as int, 0)[a.conn(e0 as int, 0).len() as int] == q as usize);
            assert(b.reachable(ea, 0, e0));
            let k0 = choose|k0: nat| b.reach_within(ea, 0, k0, e0);
            b.lemma_reach_step(ea, 0, k0, e0, q as usize);
            assert(b.reachable(ea, 0, q as usize));
            assert forall|n: usize| (n as int) < b.size() implies #[trigger] b.reachable(ea, 0, n) by {
                if (n as int) < q {
                } else {
                    assert(n == q as usize);
                }
            }
            if b.entry() != Some(ea) {
                assert(b.entry() == Some(q as usize));
                let qu = q as usize;
                let kq = choose|kq: nat| #[trigger] b.reach_within(ea, 0, kq, qu);
                b.lemma_reach_back(ea, kq, qu);
                assert forall|n: usize| (n as int) < b.size() implies #[trigger] b.reachable(q as usize, 0, n) by {
                    assert(b.reachable(ea, 0, n));
                    let kn = choose|kn: nat| b.reach_within(ea, 0, kn, n);
                    b.lemma_reach_compose(q as usize, 0, ea, kn, n);
                }
            }
        }
    }

    /// On the bottom layer every node's list names every other node.
    pub open spec fn bottom_complete(&self) -> bool {
        forall|i: int, j: usize| 0 <= i < self.size() && (j as int) < self.size() && j != i as usize ==> #[trigger] self.conn(i, 0).contains(j)
    }

    /// A list of distinct nodes numbered below `n` has at most `n` of them.
    proof fn lemma_distinct_below(w: Seq<usize>, n: int)
        requires
            0 <= n <= usize::MAX,
            w.no_duplicates(),
            forall|t: int| 0 <= t < w.len() ==> (#[trigger] w[t] as int) < n,
        ensures
            w.len() <= n,
    {
        let all = Seq::new(n as nat, |j: int| j as usize);
        vstd::seq_lib::seq_to_set_is_finite(all);
        assert(all.no_duplicates()) by {
            assert forall|a: int, b: int| 0 <= a < all.len() && 0 <= b < all.len() && a != b implies all[a] != all[b] by {}
        }
        all.unique_seq_to_set();
        assert forall|x: usize| w.to_set().contains(x) implies all.to_set().contains(x) by {
            let k = choose|k: int| 0 <= k < w.len() && w[k] == x;
            assert(all[x as int] == x);
        }
        w.unique_seq_to_set();
        lemma_len_subset(w.to_set(), all.to_set());
    }

    /// Inserting into an index whose bottom layer is complete, whose bottom
    /// lists have room for one more node and whose insertion beam is wider
    /// than the index keeps the bottom layer complete: the new node's pool
    /// holds every node, all of them fit in its list, and each takes it in.
    #[verifier::spinoff_prover]
    proof fn lemma_insert_keeps_complete<F: Fn(&Vec<u32>, &Vec<u32>) -> u64>(f: &F, a: Hnsw, b: Hnsw, id: Seq<char>, v: Seq<u32>, lvl: usize)
        requires
            inserted(f, a, b, id, v, lvl),
            a.wf(),
            a.simple_links(),
            a.bottom_complete(),
            a.size() <= 2 * a.m_spec(),
            a.size() < beam_cap(a.ef_spec()),
        ensures
            b.bottom_complete(),
    {
        let q = a.size() as int;
        if a.entry() is Some {
            let (ss, ws) = choose|ss: Seq<usize>, ws: Seq<Seq<usize>>| #[trigger] b.beams_from(f, a, ss, ws);
            let w = ws[0];
            let e = ss[0];
            let cap = beam_cap(a.ef_spec());
            assert(a.beam_pool(e, 0, cap, w));
            assert((e as int) < q);
            vstd::std_specs::vec::axiom_spec_len(&a.nodes);
            assert(w.no_duplicates()) by {
                assert forall|x: int, y: int| 0 <= x < w.len() && 0 <= y < w.len() && x != y implies w[x] != w[y] by {}
            }
            Self::lemma_distinct_below(w, q);
            assert(w.len() < cap);
            assert forall|n: usize| (n as int) < q implies w.contains(n) by {
                if n != e {
                    assert(a.conn(e as int, 0).contains(n));
                    let j = choose|j: int| 0 <= j < a.conn(e as int, 0).len() && a.conn(e as int, 0)[j] == n;
                    let t0 = choose|t0: int| 0 <= t0 < w.len() && w[t0] == e;
                    assert(w.contains(a.conn(w[t0] as int, 0)[j]));
                }
            }
            let nb = b.conn(q, 0);
            let qv = b.vec_of(q);
            assert(a.picked_for(f, &qv, w, limit_of(a.m_spec() as int, 2 * a.m_spec() as int, 0), nb));
            let p = choose|p: Seq<usize>| stable_order(a.cand_keys(f, &qv, w), p)
                && forall|t: int| 0 <= t < nb.len() ==> #[trigger] nb[t] == w[p[t] as int];
            assert(nb.len() == w.len());
            assert forall|n: usize| (n as int) < q implies nb.contains(n) by {
                assert(w.contains(n));
                let i = choose|i: int| 0 <= i < w.len() && w[i] == n;
                assert(a.cand_keys(f, &qv, w).len() == w.len());
                assert(w.len() <= q);
                assert(q <= usize::MAX);
                let iu = i as usize;
                assert(iu as int == i);
                assert(p.contains(iu));
                let t = choose|t: int| 0 <= t < p.len() && p[t] == iu;
                assert(nb[t] == w[p[t] as int]);
                assert(nb[t] == n);
            }
            assert(b.m_spec() == a.m_spec());
            assert forall|x: usize| (x as int) < q implies #[trigger] b.conn(x as int, 0) == a.conn(x as int, 0).push(q as usize) by {
                assert(nb.contains(x));
                let t = choose|t: int| 0 <= t < nb.len() && nb[t] == x;
                assert(b.linked_back(f, a, nb[t], q as usize, 0));
                a.lemma_list_len(x as int, 0);
            }
            assert forall|i: int, j: usize| 0 <= i < b.size() && (j as int) < b.size() && j != i as usize implies #[trigger] b.conn(i, 0).contains(j) by {
                if i == q {
                    assert(nb.contains(j));
                } else {
                    let iu = i as usize;
                    assert(b.conn(iu as int, 0) == a.conn(iu as int, 0).push(q as usize));
                    if (j as int) == q {
                        assert(b.conn(i, 0)[a.conn(i, 0).len() as int] == j);
                    } else {
                        assert(a.conn(i, 0).contains(j));
                        let k = choose|k: int| 0 <= k < a.conn(i, 0).len() && a.conn(i, 0)[k] == j;
                        assert(b.conn(i, 0)[k] == j);
                    }
                }
            }
        } else {
            assert(q == 0);
        }
    }

    /// Along a chain of insertions from an empty index with the default
    /// parameters, every index of at most `2 * DEFAULT_M + 1` nodes is well
    /// formed and free of repeats, and its bottom layer is paired and
    /// connected.
    proof fn lemma_chain_bottom<F: Fn(&Vec<u32>, &Vec<u32>) -> u64>(
        f: &F,
        hs: Seq<Hnsw>,
        items: Seq<(String, Vec<u32>, usize)>,
        h: Hnsw,
        i: int,
    )
        requires
            built_by_inserts(f, hs, items, h),
            0 <= i < hs.len(),
            i <= 2 * DEFAULT_M + 1,
        ensures
            hs[i].wf(),
            hs[i].simple_links(),
            hs[i].bottom_symmetric(),
            hs[i].bottom_connected(),
            hs[i].size() == i,
            hs[i].m_spec() == DEFAULT_M,
            hs[i].ef_spec() == DEFAULT_EF_CONSTRUCTION,
            hs[i].bottom_complete(),
        decreases i,
    {
        if i > 0 {
            let j = i - 1;
            Self::lemma_chain_bottom(f, hs, items, h, j);
            assert(inserted(f, hs[j], hs[j + 1], items[j].0@, items[j].1@, items[j].2));
            Self::lemma_insert_keeps_bottom(f, hs[j], hs[j + 1], items[j].0@, items[j].1@, items[j].2);
            Self::lemma_insert_keeps_complete(f, hs[j], hs[j + 1], items[j].0@, items[j].1@, items[j].2);
        }
    }

    /// In an index built by inserting at most `2 * DEFAULT_M + 1` items no
    /// bottom list is ever pruned, so on the bottom layer every node reaches
    /// every other: a beam gathered there from any node, with a width above
    /// the number of nodes, holds every node once. A search of such an index
    /// with `max(ef, k)` above its number of nodes thus ranks all of them.
    pub proof fn law_small_index_beam_holds_all<F: Fn(&Vec<u32>, &Vec<u32>) -> u64>(
        f: &F,
        hs: Seq<Hnsw>,
        items: Seq<(String, Vec<u32>, usize)>,
        h: Hnsw,
        e: usize,
        cap: int,
        w: Seq<usize>,
    )
        requires
            built_by_inserts(f, hs, items, h),
            items.len() <= 2 * DEFAULT_M + 1,
            (e as int) < h.size(),
            h.beam_pool(e, 0, cap, w),
            h.size() < cap,
        ensures
            w.len() == h.size(),
            forall|n: usize| (n as int) < h.size() ==> w.contains(n),
    {
        Self::lemma_chain_bottom(f, hs, items, h, items.len() as int);
        assert(hs[items.len() as int] == h);
        let ea = h.entry().unwrap();
        assert(h.reachable(ea, 0, e));
        let ke = choose|ke: nat| #[trigger] h.reach_within(ea, 0, ke, e);
        h.lemma_reach_back(ea, ke, e);
        let rs = h.reach_set(e, 0);
        vstd::std_specs::vec::axiom_spec_len(&h.nodes);
        let all = Seq::new(h.size(), |j: int| j as usize);
        assert forall|n: usize| rs.contains(n) <==> all.to_set().contains(n) by {
            if (n as int) < h.size() {
                assert(all[n as int] == n);
                assert(h.reachable(ea, 0, n));
                let kn = choose|kn: nat| #[trigger] h.reach_within(ea, 0, kn, n);
                h.lemma_reach_compose(e, 0, ea, kn, n);
            }
        }
        assert(rs =~= all.to_set());
        assert(all.no_duplicates()) by {
            assert forall|a: int, b: int| 0 <= a < all.len() && 0 <= b < all.len() && a != b implies all[a] != all[b] by {}
        }
        all.unique_seq_to_set();
        h.lemma_beam_pool_len(e, 0, cap, w);
        assert forall|n: usize| (n as int) < h.size() implies w.contains(n) by {
            assert(all[n as int] == n);
            assert(rs.contains(n));
            assert(w.to_set().contains(n));
        }
    }

    /// A search of an index built by inserting at most `2 * DEFAULT_M + 1`
    /// items is exact whatever `ef` is: the bottom layer is then complete,
    /// so the beam sees every node, and the search returns `min(k, n)` hits
    /// (`n` the number of nodes), distinct, with no node left out closer to
    /// the query than a node returned.
    pub proof fn law_small_index_search_exact<F: Fn(&Vec<u32>, &Vec<u32>) -> u64>(
        f: &F,
        hs: Seq<Hnsw>,
        items: Seq<(String, Vec<u32>, usize)>,
        h: Hnsw,
        query: &Vec<u32>,
        k: usize,
        ef: usize,
        r: Seq<(u64, String)>,
    )
        requires
            built_by_inserts(f, hs, items, h),
            items.len() <= 2 * DEFAULT_M + 1,
            h.size() > 0,
            (h.search_start(f, query) as int) < h.size(),
            exists|w: Seq<usize>| {
                &&& #[trigger] h.beam_pool(h.search_start(f, query), 0, search_width(k, ef), w)
                &&& h.beam_best(f, query, h.search_start(f, query), 0, w)
                &&& h.best_of(f, query, w, k, r)
            },
        ensures
            r.len() == if k < h.size() { k as int } else { h.size() as int },
            exists|ns: Seq<usize>| {
                &&& #[trigger] h.hits_of(f, query, ns, r)
                &&& forall|x: usize, t: int|
                    (x as int) < h.size() && !ns.contains(x) && 0 <= t < r.len() ==> (#[trigger] r[t]).0 <= #[trigger] h.qdist(f, query, x as int)
            },
    {
        Self::lemma_chain_bottom(f, hs, items, h, items.len() as int);
        assert(hs[items.len() as int] == h);
        let e = h.search_start(f, query);
        let cap = search_width(k, ef);
        let w = choose|w: Seq<usize>| {
            &&& #[trigger] h.beam_pool(e, 0, cap, w)
            &&& h.beam_best(f, query, e, 0, w)
            &&& h.best_of(f, query, w, k, r)
        };
        let n = h.size() as int;
        // every node is a neighbour of `e` or `e` itself, so the beam saw it
        reveal(Hnsw::beam_best);
        let seen = choose|seen: Set<usize>| {
            &&& seen.contains(e)
            &&& forall|j: int| 0 <= j < h.conn(e as int, 0).len() ==> seen.contains(#[trigger] h.conn(e as int, 0)[j])
            &&& forall|x: usize, t: int|
                #[trigger] seen.contains(x) && !w.contains(x) && 0 <= t < w.len() ==> h.qdist(f, query, #[trigger] w[t] as int)
                    <= h.qdist(f, query, x as int)
        };
        assert forall|x: usize| (x as int) < n implies seen.contains(x) by {
            if x != e {
                assert(h.conn(e as int, 0).contains(x));
                let j = choose|j: int| 0 <= j < h.conn(e as int, 0).len() && h.conn(e as int, 0)[j] == x;
            }
        }
        // the pool holds min(cap, n) nodes
        vstd::std_specs::vec::axiom_spec_len(&h.nodes);
        assert(w.no_duplicates()) by {
            assert forall|a: int, b: int| 0 <= a < w.len() && 0 <= b < w.len() && a != b implies w[a] != w[b] by {}
        }
        Self::lemma_distinct_below(w, n);
        if w.len() < cap {
            assert forall|x: usize| (x as int) < n implies w.contains(x) by {
                if x != e {
                    assert(h.conn(e as int, 0).contains(x));
                    let j = choose|j: int| 0 <= j < h.conn(e as int, 0).len() && h.conn(e as int, 0)[j] == x;
                    let t0 = choose|t0: int| 0 <= t0 < w.len() && w[t0] == e;
                    assert(w.contains(h.conn(w[t0] as int, 0)[j]));
                }
            }
            let all = Seq::new(n as nat, |j: int| j as usize);
            assert(all.no_duplicates()) by {
                assert forall|a: int, b: int| 0 <= a < all.len() && 0 <= b < all.len() && a != b implies all[a] != all[b] by {}
            }
            assert forall|t: int| 0 <= t < all.len() implies (#[trigger] all[t] as int) < n by {}
            Self::lemma_distinct_below(all, n);
            assert forall|x: usize| all.to_set().contains(x) implies w.to_set().contains(x) by {
                let j = choose|j: int| 0 <= j < all.len() && all[j] == x;
                assert(w.contains(x));
            }
            all.unique_seq_to_set();
            w.unique_seq_to_set();
            vstd::seq_lib::seq_to_set_is_finite(w);
            lemma_len_subset(all.to_set(), w.to_set());
            assert(w.len() == n);
        }
        // the hits: the first `r.len()` nodes of the pool in key order
        let ks = h.cand_keys(f, query, w);
        let p = choose|p: Seq<usize>| stable_order(ks, p) && forall|t: int| 0 <= t < r.len() ==> {
            &&& (#[trigger] r[t]).0 == ks[p[t] as int]
            &&& r[t].1@ == h.id_at(w[p[t] as int] as int)
        };
        let ns = Seq::new(r.len(), |t: int| w[p[t] as int]);
        assert forall|a: int, b: int| 0 <= a < ns.len() && 0 <= b < ns.len() && a != b implies #[trigger] ns[a] != #[trigger] ns[b] by {
            if a < b {
                assert(ranks_before(ks, p[a] as int, p[b] as int));
            } else {
                assert(ranks_before(ks, p[b] as int, p[a] as int));
            }
        }
        assert forall|t: int| 0 <= t < r.len() implies (#[trigger] r[t]).0 == h.qdist(f, query, ns[t] as int) && r[t].1@ == h.id_at(ns[t] as int) by {}
        assert(h.hits_of(f, query, ns, r));
        assert forall|x: usize, t: int|
            (x as int) < n && !ns.contains(x) && 0 <= t < r.len() implies (#[trigger] r[t]).0 <= #[trigger] h.qdist(f, query, x as int) by {
            if w.contains(x) {
                let i = choose|i: int| 0 <= i < w.len() && w[i] == x;
                assert(ks.len() == w.len());
                let iu = i as usize;
                assert(iu as int == i);
                assert(p.contains(iu));
                let jj = choose|jj: int| 0 <= jj < p.len() && p[jj] == iu;
                if jj < r.len() {
                    assert(ns[jj] == x);
                    assert(false);
                }
                assert(ranks_before(ks, p[t] as int, p[jj] as int));
            } else {
                assert(seen.contains(x));
                assert(h.qdist(f, query, w[p[t] as int] as int) <= h.qdist(f, query, x as int));
            }
        }
    }

    /// On a bottom layer whose links all have their reverse, a node reached
    /// from `x` reaches `x`.
    proof fn lemma_reach_back(&self, x: usize, k: nat, y: usize)
        requires
            self.wf(),
            self.bottom_symmetric(),
            self.reach_within(x, 0, k, y),
        ensures
            self.reachable(y, 0, x),
        decreases k,
    {
        if k == 0 {
            assert(self.reach_within(y, 0, 0, x));
        } else if self.reach_within(x, 0, (k - 1) as nat, y) {
            self.lemma_reach_back(x, (k - 1) as nat, y);
        } else {
            let w = choose|w: usize|
                (w as int) < self.size() && self.reach_within(x, 0, (k - 1) as nat, w) && #[trigger] self.conn(w as int, 0).contains(y);
            self.lemma_reach_back(x, (k - 1) as nat, w);
            let j = choose|j: int| 0 <= j < self.conn(w as int, 0).len() && self.conn(w as int, 0)[j] == y;
            self.lemma_conn_in_range(w as int, 0);
            assert((y as int) < self.size());
            assert(self.conn(self.conn(w as int, 0)[j] as int, 0).contains(w));
            assert(self.reach_within(y, 0, 0, y));
            self.lemma_reach_step(y, 0, 0, y, w);
            assert(self.reachable(y, 0, w));
            let k2 = choose|k2: nat| self.reach_within(w, 0, k2, x);
            self.lemma_reach_compose(y, 0, w, k2, x);
        }
    }
}

// ---------------------------------------------------------------------------
// The .hnsw file format:
//   [MAGIC "HNW1"][M: u32][ef_construction: u32][entry point: i64, -1 = none]
//   [max layer: u32][node count: u32]
//   per node: [id length: u16][id bytes][dim: u32][dim words][level: u32]
//             then for each layer 0..=level: [count: u32][count node indices: u32]
// All integers are little-endian; vector components are f32 bit patterns.
// ---------------------------------------------------------------------------

/// A node as read from a file: id, vector, level and neighbour lists.
pub type NodeRead = (Seq<char>, Seq<u32>, nat, Seq<Seq<u32>>);

/// An index as read from a file: M, ef_construction, raw entry point, max
/// layer and nodes.
pub type IndexRead = (nat, nat, nat, nat, Seq<NodeRead>);

/// Reading `k` neighbour lists.
pub open spec fn sp_layers(b: Seq<u8>, pos: int, k: nat) -> Result<(Seq<Seq<u32>>, int), FormatError>
    decreases k,
{
    if k == 0 {
        Ok((Seq::empty(), pos))
    } else {
        match sp_list(b, pos) {
            Err(e) => Err(e),
            Ok((l, p1)) => prepend(seq![l], sp_layers(b, p1, (k - 1) as nat)),
        }
    }
}

/// Reading neighbour lists either runs out of data or yields `k` lists
/// spanning at least four bytes each.
proof fn lemma_sp_layers(b: Seq<u8>, pos: int, k: nat)
    ensures
        match sp_layers(b, pos, k) {
            Ok((ls, p)) => ls.len() == k && pos + 4 * k <= p <= b.len() || (k == 0 && p == pos),
            Err(e) => e == FormatError::Truncated,
        },
    decreases k,
{
    if k > 0 {
        lemma_sp_layers(b, match sp_list(b, pos) { Ok((_, p1)) => p1, Err(_) => pos }, (k - 1) as nat);
    }
}

/// Reading one node.
pub open spec fn sp_node(b: Seq<u8>, pos: int) -> Result<(NodeRead, int), FormatError> {
    match sp_uint(b, pos, 2) {
        Err(e) => Err(e),
        Ok((idl, p1)) => match sp_text(b, p1, idl) {
            Err(e) => Err(e),
            Ok((id, p2)) => match sp_uint(b, p2, 4) {
                Err(e) => Err(e),
                Ok((dim, p3)) => match sp_words(b, p3, dim) {
                    Err(e) => Err(e),
                    Ok((v, p4)) => match sp_uint(b, p4, 4) {
                        Err(e) => Err(e),
                        Ok((lv, p5)) => match sp_layers(b, p5, lv + 1) {
                            Err(e) => Err(e),
                            Ok((ls, p6)) => Ok(((id, v, lv, ls), p6)),
                        },
                    },
                },
            },
        },
    }
}

/// Reading `k` nodes.
pub open spec fn sp_nodes(b: Seq<u8>, pos: int, k: nat) -> Result<(Seq<NodeRead>, int), FormatError>
    decreases k,
{
    if k == 0 {
        Ok((Seq::empty(), pos))
    } else {
        match sp_node(b, pos) {
            Err(e) => Err(e),
            Ok((nd, p1)) => prepend(seq![nd], sp_nodes(b, p1, (k - 1) as nat)),
        }
    }
}

/// Reading a whole index file.
pub open spec fn sp_index(b: Seq<u8>) -> Result<IndexRead, FormatError> {
    if b.len() < 4 {
        Err(FormatError::Truncated)
    } else if b.subrange(0, 4) != index_magic() {
        Err(FormatError::NotAnIndex)
    } else {
        match sp_uint(b, 4, 4) {
            Err(e) => Err(e),
            Ok((m, _)) => match sp_uint(b, 8, 4) {
                Err(e) => Err(e),
                Ok((ef, _)) => match sp_uint(b, 12, 8) {
                    Err(e) => Err(e),
                    Ok((ep, _)) => match sp_uint(b, 20, 4) {
                        Err(e) => Err(e),
                        Ok((ml, _)) => match sp_uint(b, 24, 4) {
                            Err(e) => Err(e),
                            Ok((n, _)) => match sp_nodes(b, 28, n) {
                                Err(e) => Err(e),
                                Ok((nodes, _)) => Ok((m, ef, ep, ml, nodes)),
                            },
                        },
                    },
                },
            },
        }
    }
}

/// The entry point a raw file value denotes (negative as `i64` means none).
pub open spec fn entry_of_raw(raw: nat) -> Option<nat> {
    if raw < 0x8000_0000_0000_0000 {
        Some(raw)
    } else {
        None
    }
}

/// An index read from a file describes a graph that can be searched.
pub open spec fn index_read_ok(v: IndexRead) -> bool {
    let (m, ef, ep, ml, nodes) = v;
    &&& 2 * m <= usize::MAX
    &&& (entry_of_raw(ep) is None <==> nodes.len() == 0)
    &&& (entry_of_raw(ep) matches Some(e) ==> e < nodes.len() && nodes[e as int].2 == ml)
    &&& forall|i: int, l: int, k: int|
        0 <= i < nodes.len() && 0 <= l < nodes[i].3.len() && 0 <= k < nodes[i].3[l].len() ==> {
            let t = #[trigger] nodes[i].3[l][k];
            &&& (t as int) < nodes.len()
            &&& nodes[t as int].2 >= l
        }
}

impl Hnsw {
    /// The index holds exactly what `v` describes.
    pub closed spec fn holds(&self, v: IndexRead) -> bool {
        let (m, ef, ep, ml, nodes) = v;
        &&& self.m == m
        &&& self.ef_construction == ef
        &&& self.max_layer == ml
        &&& (match entry_of_raw(ep) {
            None => self.entry_point is None,
            Some(e) => self.entry_point == Some(e as usize),
        })
        &&& self.nodes@.len() == nodes.len()
        &&& forall|i: int| 0 <= i < nodes.len() ==> {
            &&& #[trigger] self.nodes@[i].id@ == nodes[i].0
            &&& self.nodes@[i].vector@ == nodes[i].1
            &&& self.nodes@[i].level == nodes[i].2
            &&& self.nodes@[i].connections@.len() == nodes[i].3.len()
            &&& forall|l: int| 0 <= l < nodes[i].3.len() ==> #[trigger] self.nodes@[i].connections@[l]@ == nodes[i].3[l].map_values(|w: u32| w as usize)
        }
    }
}

/// Reads `k` neighbour lists.
fn read_layers(b: &[u8], pos: usize, k: usize) -> (r: Result<(Vec<Vec<usize>>, usize), FormatError>)
    ensures
        match sp_layers(b@, pos as int, k as nat) {
            Ok((v, p)) => r matches Ok((rv, rp)) && rv@.len() == v.len() && rp as int == p
                && forall|l: int| 0 <= l < v.len() ==> #[trigger] rv@[l]@ == v[l].map_values(|w: u32| w as usize),
            Err(e) => r == Err::<(Vec<Vec<usize>>, usize), FormatError>(e),
        },
{
    let ghost total = sp_layers(b@, pos as int, k as nat);
    let ghost mut acc: Seq<Seq<u32>> = Seq::empty();
    let mut out: Vec<Vec<usize>> = Vec::new();
    let mut p = pos;
    let mut i: usize = 0;
    while i < k
        invariant
            i <= k,
            total == sp_layers(b@, pos as int, k as nat),
            total == prepend(acc, sp_layers(b@, p as int, (k - i) as nat)),
            out@.len() == acc.len(),
            forall|l: int| 0 <= l < acc.len() ==> #[trigger] out@[l]@ == acc[l].map_values(|w: u32| w as usize),
        decreases k - i,
    {
        let (words, p1) = match read_list(b, p) {
            Ok(x) => x,
            Err(e) => {
                assert(sp_layers(b@, p as int, (k - i) as nat) == Err::<(Seq<Seq<u32>>, int), FormatError>(e));
                return Err(e);
            },
        };
        let mut list: Vec<usize> = Vec::new();
        let mut j: usize = 0;
        while j < words.len()
            invariant
                j <= words@.len(),
                list@ == words@.take(j as int).map_values(|w: u32| w as usize),
            decreases words@.len() - j,
        {
            list.push(words[j] as usize);
            assert(list@ =~= words@.take(j + 1).map_values(|w: u32| w as usize));
            j = j + 1;
        }
        assert(words@.take(words@.len() as int) =~= words@);
        proof {
            let old_acc = acc;
            acc = acc.push(words@);
            match sp_layers(b@, p1 as int, (k - i - 1) as nat) {
                Err(e) => {},
                Ok((rest, pp)) => {
                    assert(seq![words@] + rest =~= seq![words@] + rest);
                    assert(old_acc + (seq![words@] + rest) =~= acc + rest);
                },
            }
        }
        out.push(list);
        p = p1;
        i = i + 1;
        proof {
            assert forall|l: int| 0 <= l < acc.len() implies #[trigger] out@[l]@ == acc[l].map_values(|w: u32| w as usize) by {}
        }
    }
    assert(acc + Seq::<Seq<u32>>::empty() =~= acc);
    Ok((out, p))
}


/// An exec node carries what a file node describes.
pub open spec fn node_matches(node: Node, nd: NodeRead) -> bool {
    &&& node.id@ == nd.0
    &&& node.vector@ == nd.1
    &&& node.level == nd.2
    &&& node.connections@.len() == nd.3.len()
    &&& forall|l: int| 0 <= l < nd.3.len() ==> #[trigger] node.connections@[l]@ == nd.3[l].map_values(|w: u32| w as usize)
}

/// Reads one node.
fn read_node(b: &[u8], pos: usize) -> (r: Result<(Node, usize), FormatError>)
    ensures
        match sp_node(b@, pos as int) {
            Ok((nd, p)) => r matches Ok((rn, rp)) && node_matches(rn, nd) && rp as int == p
                && rn.connections@.len() == rn.level + 1,
            Err(e) => r == Err::<(Node, usize), FormatError>(e),
        },
{
    let (idl, p1) = match read_uint(b, pos, 2) { Ok(x) => x, Err(e) => return Err(e) };
    proof { lemma_le_value_bound(b@.subrange(pos as int, pos + 2)); reveal_with_fuel(pow256, 3); }
    let (id, p2) = match read_text(b, p1, idl as usize) { Ok(x) => x, Err(e) => return Err(e) };
    let (dim, p3) = match read_uint(b, p2, 4) { Ok(x) => x, Err(e) => return Err(e) };
    proof { lemma_le_value_bound(b@.subrange(p2 as int, p2 + 4)); reveal_with_fuel(pow256, 5); }
    let (vector, p4) = match read_words(b, p3, dim as usize) { Ok(x) => x, Err(e) => return Err(e) };
    let (lv, p5) = match read_uint(b, p4, 4) { Ok(x) => x, Err(e) => return Err(e) };
    proof { lemma_le_value_bound(b@.subrange(p4 as int, p4 + 4)); }
    let level = lv as usize;
    if level == usize::MAX {
        let bl = b.len();
        proof {
            lemma_sp_layers(b@, p5 as int, lv as nat + 1);
        }
        return Err(FormatError::Truncated);
    }
    proof {
        lemma_sp_layers(b@, p5 as int, lv as nat + 1);
    }
    let (connections, p6) = match read_layers(b, p5, level + 1) { Ok(x) => x, Err(e) => return Err(e) };
    Ok((Node { id, vector, level, connections }, p6))
}

/// Reads `k` nodes.
fn read_nodes(b: &[u8], pos: usize, k: usize) -> (r: Result<(Vec<Node>, usize), FormatError>)
    ensures
        match sp_nodes(b@, pos as int, k as nat) {
            Ok((v, p)) => r matches Ok((rv, rp)) && rv@.len() == v.len() && rp as int == p
                && (forall|i: int| 0 <= i < v.len() ==> node_matches(#[trigger] rv@[i], v[i]))
                && (forall|i: int| 0 <= i < v.len() ==> #[trigger] rv@[i].connections@.len() == rv@[i].level + 1),
            Err(e) => r == Err::<(Vec<Node>, usize), FormatError>(e),
        },
{
    let ghost total = sp_nodes(b@, pos as int, k as nat);
    let ghost mut acc: Seq<NodeRead> = Seq::empty();
    let mut out: Vec<Node> = Vec::new();
    let mut p = pos;
    let mut i: usize = 0;
    while i < k
        invariant
            i <= k,
            total == sp_nodes(b@, pos as int, k as nat),
            total == prepend(acc, sp_nodes(b@, p as int, (k - i) as nat)),
            out@.len() == acc.len(),
            forall|j: int| 0 <= j < acc.len() ==> node_matches(#[trigger] out@[j], acc[j]),
            forall|j: int| 0 <= j < acc.len() ==> #[trigger] out@[j].connections@.len() == out@[j].level + 1,
        decreases k - i,
    {
        let (node, p1) = match read_node(b, p) {
            Ok(x) => x,
            Err(e) => {
                assert(sp_nodes(b@, p as int, (k - i) as nat) == Err::<(Seq<NodeRead>, int), FormatError>(e));
                return Err(e);
            },
        };
        proof {
            let nd = sp_node(b@, p as int).unwrap().0;
            let old_acc = acc;
            acc = acc.push(nd);
            match sp_nodes(b@, p1 as int, (k - i - 1) as nat) {
                Err(e) => {},
                Ok((rest, pp)) => {
                    assert(old_acc + (seq![nd] + rest) =~= acc + rest);
                },
            }
        }
        out.push(node);
        p = p1;
        i = i + 1;
    }
    assert(acc + Seq::<NodeRead>::empty() =~= acc);
    Ok((out, p))
}

impl Hnsw {
    /// Loads an index from the bytes of an index file. A graph whose
    /// neighbour lists or entry point name missing nodes is refused as
    /// `Malformed`.
    pub fn load(b: &[u8]) -> (r: Result<Hnsw, FormatError>)
        ensures
            match sp_index(b@) {
                Err(e) => r == Err::<Hnsw, FormatError>(e),
                Ok(v) => if index_read_ok(v) {
                    r matches Ok(h) && h.wf() && h.holds(v)
                } else {
                    r == Err::<Hnsw, FormatError>(FormatError::Malformed)
                },
            },
    {
        if b.len() < 4 {
            return Err(FormatError::Truncated);
        }
        let magic_ok = b[0] == 0x48u8 && b[1] == 0x4Eu8 && b[2] == 0x57u8 && b[3] == 0x31u8;
        assert(magic_ok <==> b@.subrange(0, 4) =~= index_magic());
        if !magic_ok {
            return Err(FormatError::NotAnIndex);
        }
        let (m, _) = match read_uint(b, 4, 4) { Ok(x) => x, Err(e) => return Err(e) };
        let (ef, _) = match read_uint(b, 8, 4) { Ok(x) => x, Err(e) => return Err(e) };
        let (ep, _) = match read_uint(b, 12, 8) { Ok(x) => x, Err(e) => return Err(e) };
        let (ml, _) = match read_uint(b, 20, 4) { Ok(x) => x, Err(e) => return Err(e) };
        let (n, _) = match read_uint(b, 24, 4) { Ok(x) => x, Err(e) => return Err(e) };
        proof {
            lemma_le_value_bound(b@.subrange(4, 8));
            lemma_le_value_bound(b@.subrange(8, 12));
            lemma_le_value_bound(b@.subrange(20, 24));
            lemma_le_value_bound(b@.subrange(24, 28));
            reveal_with_fuel(pow256, 5);
        }
        let (nodes, _) = match read_nodes(b, 28, n as usize) { Ok(x) => x, Err(e) => return Err(e) };
        let ghost v = sp_index(b@).unwrap();
        assert(v.4.len() == nodes@.len());
        let m = m as usize;
        if m > usize::MAX / 2 {
            return Err(FormatError::Malformed);
        }
        let entry_point: Option<usize> = if ep < 0x8000_0000_0000_0000u64 {
            if ep >= nodes.len() as u64 {
                return Err(FormatError::Malformed);
            }
            let e = ep as usize;
            if nodes[e].level != ml as usize {
                assert(v.4[e as int].2 != ml);
                return Err(FormatError::Malformed);
            }
            Some(e)
        } else {
            None
        };
        if entry_point.is_none() != (nodes.len() == 0) {
            return Err(FormatError::Malformed);
        }
        // every edge must name an existing node whose level reaches the layer
        let cnt = nodes.len();
        let mut i: usize = 0;
        while i < cnt
            invariant
                cnt == nodes@.len(),
                cnt == v.4.len(),
                sp_index(b@) == Ok::<IndexRead, FormatError>(v),
                i <= cnt,
                forall|j: int| 0 <= j < cnt ==> node_matches(#[trigger] nodes@[j], v.4[j]),
                forall|j: int| 0 <= j < cnt ==> #[trigger] nodes@[j].connections@.len() == nodes@[j].level + 1,
                forall|i2: int, l: int, k: int|
                    0 <= i2 < i && 0 <= l < v.4[i2].3.len() && 0 <= k < v.4[i2].3[l].len() ==> {
                        let t = #[trigger] v.4[i2].3[l][k];
                        &&& (t as int) < cnt
                        &&& v.4[t as int].2 >= l
                    },
            decreases cnt - i,
        {
            let nl = nodes[i].connections.len();
            let mut l: usize = 0;
            while l < nl
                invariant
                    cnt == nodes@.len(),
                    cnt == v.4.len(),
                    sp_index(b@) == Ok::<IndexRead, FormatError>(v),
                    i < cnt,
                    nl == nodes@[i as int].connections@.len(),
                    l <= nl,
                    forall|j: int| 0 <= j < cnt ==> node_matches(#[trigger] nodes@[j], v.4[j]),
                    forall|i2: int, l2: int, k: int|
                        0 <= i2 < i && 0 <= l2 < v.4[i2].3.len() && 0 <= k < v.4[i2].3[l2].len() ==> {
                            let t = #[trigger] v.4[i2].3[l2][k];
                            &&& (t as int) < cnt
                            &&& v.4[t as int].2 >= l2
                        },
                    forall|l2: int, k: int|
                        0 <= l2 < l && 0 <= k < v.4[i as int].3[l2].len() ==> {
                            let t = #[trigger] v.4[i as int].3[l2][k];
                            &&& (t as int) < cnt
                            &&& v.4[t as int].2 >= l2
                        },
                decreases nl - l,
            {
                assert(node_matches(nodes@[i as int], v.4[i as int]));
                let len = nodes[i].connections[l].len();
                let mut k: usize = 0;
                while k < len
                    invariant
                        cnt == nodes@.len(),
                        cnt == v.4.len(),
                        sp_index(b@) == Ok::<IndexRead, FormatError>(v),
                        i < cnt,
                        nl == nodes@[i as int].connections@.len(),
                        l < nl,
                        len == nodes@[i as int].connections@[l as int]@.len(),
                        k <= len,
                        forall|j: int| 0 <= j < cnt ==> node_matches(#[trigger] nodes@[j], v.4[j]),
                        forall|k2: int| 0 <= k2 < k ==> {
                            let t = #[trigger] v.4[i as int].3[l as int][k2];
                            &&& (t as int) < cnt
                            &&& v.4[t as int].2 >= l
                        },
                    decreases len - k,
                {
                    let t = nodes[i].connections[l][k];
                    proof {
                        assert(node_matches(nodes@[i as int], v.4[i as int]));
                        assert(nodes@[i as int].connections@[l as int]@ == v.4[i as int].3[l as int].map_values(|w: u32| w as usize));
                        assert(t as int == v.4[i as int].3[l as int][k as int]);
                    }
                    if t >= cnt {
                        proof {
                            assert(v.4[i as int].3[l as int].len() == len);
                            assert(!index_read_ok(v));
                        }
                        return Err(FormatError::Malformed);
                    }
                    if nodes[t].level < l {
                        proof {
                            assert(node_matches(nodes@[t as int], v.4[t as int]));
                            assert(v.4[i as int].3[l as int].len() == len);
                            assert(!index_read_ok(v));
                        }
                        return Err(FormatError::Malformed);
                    }
                    assert(node_matches(nodes@[t as int], v.4[t as int]));
                    k = k + 1;
                }
                l = l + 1;
            }
            i = i + 1;
        }
        let h = Hnsw {
            m,
            m_max0: m * 2,
            ef_construction: ef as usize,
            entry_point,
            max_layer: ml as usize,
            nodes,
        };
        proof {
            assert forall|j: int| 0 <= j < h.nodes@.len() implies #[trigger] h.nodes@[j].connections@.len() == h.nodes@[j].level + 1 by {
                assert(nodes@[j].connections@.len() == nodes@[j].level + 1);
            }
            assert forall|j: int, l: int, k: int|
                0 <= j < h.nodes@.len() && 0 <= l < h.nodes@[j].connections@.len() && 0 <= k < h.nodes@[j].connections@[l]@.len() implies {
                    let t = #[trigger] h.nodes@[j].connections@[l]@[k];
                    &&& (t as int) < h.nodes@.len()
                    &&& h.nodes@[t as int].level >= l
                } by {
                assert(node_matches(h.nodes@[j], v.4[j]));
                let t = h.nodes@[j].connections@[l]@[k];
                assert(t as int == v.4[j].3[l][k]);
                assert(node_matches(h.nodes@[t as int], v.4[t as int]));
            }
            assert forall|j: int| 0 <= j < v.4.len() implies {
                &&& #[trigger] h.nodes@[j].id@ == v.4[j].0
                &&& h.nodes@[j].vector@ == v.4[j].1
                &&& h.nodes@[j].level == v.4[j].2
                &&& h.nodes@[j].connections@.len() == v.4[j].3.len()
                &&& forall|l: int| 0 <= l < v.4[j].3.len() ==> #[trigger] h.nodes@[j].connections@[l]@ == v.4[j].3[l].map_values(|w: u32| w as usize)
            } by {
                assert(node_matches(h.nodes@[j], v.4[j]));
            }
            if let Some(e) = entry_point {
                assert(node_matches(h.nodes@[e as int], v.4[e as int]));
            }
        }
        Ok(h)
    }
}


/// A neighbour list as the words the file stores (indices taken modulo 2^32).
pub open spec fn list_words(l: Seq<usize>) -> Seq<u32> {
    l.map_values(|x: usize| x as u32)
}

/// Neighbour lists, one after the other.
pub open spec fn layers_bytes(c: Seq<Seq<usize>>) -> Seq<u8>
    decreases c.len(),
{
    if c.len() == 0 {
        Seq::empty()
    } else {
        list_bytes(list_words(c[0])) + layers_bytes(c.drop_first())
    }
}

/// The neighbour lists of a node.
pub open spec fn node_lists(n: Node) -> Seq<Seq<usize>> {
    n.connections@.map_values(|c: Vec<usize>| c@)
}

/// One node as stored in a file (lengths taken modulo their field widths).
pub open spec fn node_bytes(n: Node) -> Seq<u8> {
    le_bytes(utf8_of(n.id@).len(), 2) + utf8_of(n.id@) + le_bytes(n.vector@.len(), 4) + words_bytes(n.vector@)
        + le_bytes(n.level as nat, 4) + layers_bytes(node_lists(n))
}

/// Nodes, one after the other.
pub open spec fn nodes_bytes(ns: Seq<Node>) -> Seq<u8>
    decreases ns.len(),
{
    if ns.len() == 0 {
        Seq::empty()
    } else {
        node_bytes(ns[0]) + nodes_bytes(ns.drop_first())
    }
}

/// The raw file value of an entry point.
pub open spec fn raw_of_entry(e: Option<usize>) -> nat {
    match e {
        None => 0xFFFF_FFFF_FFFF_FFFF,
        Some(x) => x as nat,
    }
}

/// A node is within the limits of the file format.
pub open spec fn node_fits(n: Node) -> bool {
    &&& utf8_of(n.id@).len() < 0x1_0000
    &&& n.vector@.len() < 0x1_0000_0000
    &&& n.level < 0xFFFF_FFFF
    &&& forall|l: int| 0 <= l < n.connections@.len() ==> (#[trigger] n.connections@[l])@.len() < 0x1_0000_0000
}

/// What a file holding node `n` reads back as.
pub open spec fn node_read(n: Node) -> NodeRead {
    (n.id@, n.vector@, n.level as nat, node_lists(n).map_values(|c: Seq<usize>| list_words(c)))
}

impl Hnsw {
    /// The bytes of the index file for this index.
    pub closed spec fn to_bytes(&self) -> Seq<u8> {
        index_magic() + le_bytes(self.m as nat, 4) + le_bytes(self.ef_construction as nat, 4) + le_bytes(
            raw_of_entry(self.entry_point),
            8,
        ) + le_bytes(self.max_layer as nat, 4) + le_bytes(self.nodes@.len(), 4) + nodes_bytes(self.nodes@)
    }

    /// Every count and length fits its field in the file format.
    pub closed spec fn fits_format(&self) -> bool {
        &&& self.m < 0x1_0000_0000
        &&& self.ef_construction < 0x1_0000_0000
        &&& self.max_layer < 0x1_0000_0000
        &&& self.nodes@.len() < 0x1_0000_0000
        &&& forall|i: int| 0 <= i < self.nodes@.len() ==> node_fits(#[trigger] self.nodes@[i])
    }

    /// What the file of this index reads back as.
    pub closed spec fn read_view(&self) -> IndexRead {
        (self.m as nat, self.ef_construction as nat, raw_of_entry(self.entry_point), self.max_layer as nat,
            self.nodes@.map_values(|n: Node| node_read(n)))
    }

    /// The layout of the index file: the magic `HNW1`; then `M`, the beam
    /// width, the entry point (all ones for none), the top layer and the
    /// node count as little-endian fields of 4, 4, 8, 4 and 4 bytes; then
    /// each node in turn (`node_bytes`). The format holds an index when each
    /// of these fits its field, and reading its file gives these fields back.
    pub proof fn lemma_file_layout(&self)
        ensures
            self.to_bytes() == index_magic() + le_bytes(self.m_spec(), 4) + le_bytes(self.ef_spec(), 4) + le_bytes(
                raw_of_entry(self.entry()),
                8,
            ) + le_bytes(self.top_layer(), 4) + le_bytes(self.size(), 4) + nodes_bytes(self.nodes_view()),
            self.fits_format() == (self.m_spec() < 0x1_0000_0000 && self.ef_spec() < 0x1_0000_0000 && self.top_layer()
                < 0x1_0000_0000 && self.size() < 0x1_0000_0000 && forall|i: int|
                0 <= i < self.size() ==> node_fits(#[trigger] self.nodes_view()[i])),
            self.read_view() == (self.m_spec(), self.ef_spec(), raw_of_entry(self.entry()), self.top_layer(),
                self.nodes_view().map_values(|n: Node| node_read(n))),
    {
        let a = forall|i: int| 0 <= i < self.size() ==> node_fits(#[trigger] self.nodes_view()[i]);
        let b = forall|i: int| 0 <= i < self.nodes@.len() ==> node_fits(#[trigger] self.nodes@[i]);
        assert(a == b) by {
            assert(self.nodes_view() == self.nodes@);
        }
    }

    /// Two indexes have the same parameters, entry point and graph.
    pub open spec fn same_as(&self, other: &Hnsw) -> bool {
        &&& self.m_spec() == other.m_spec()
        &&& self.ef_spec() == other.ef_spec()
        &&& self.entry() == other.entry()
        &&& self.top_layer() == other.top_layer()
        &&& self.size() == other.size()
        &&& forall|i: int| 0 <= i < self.size() ==> {
            &&& #[trigger] self.id_at(i) == other.id_at(i)
            &&& self.vector_at(i) == other.vector_at(i)
            &&& self.level_at(i) == other.level_at(i)
            &&& forall|l: int| #[trigger] self.conn(i, l) == other.conn(i, l)
        }
    }

    /// The index in its file format, as it is saved.
    pub fn save(&self) -> (r: Vec<u8>)
        ensures
            r@ == self.to_bytes(),
    {
        let mut out: Vec<u8> = Vec::new();
        out.push(0x48u8);
        out.push(0x4Eu8);
        out.push(0x57u8);
        out.push(0x31u8);
        assert(out@ =~= index_magic());
        push_le(&mut out, self.m as u64, 4);
        push_le(&mut out, self.ef_construction as u64, 4);
        let raw: u64 = match self.entry_point {
            None => 0xFFFF_FFFF_FFFF_FFFFu64,
            Some(e) => e as u64,
        };
        push_le(&mut out, raw, 8);
        push_le(&mut out, self.max_layer as u64, 4);
        push_le(&mut out, self.nodes.len() as u64, 4);
        let ghost head = out@;
        let mut i: usize = 0;
        assert(self.nodes@.skip(0) =~= self.nodes@);
        while i < self.nodes.len()
            invariant
                i <= self.nodes@.len(),
                out@ + nodes_bytes(self.nodes@.skip(i as int)) == head + nodes_bytes(self.nodes@),
            decreases self.nodes@.len() - i,
        {
            let ghost before = out@;
            let node = &self.nodes[i];
            push_le(&mut out, utf8_len(&node.id) as u64, 2);
            push_str_bytes(&mut out, &node.id);
            push_le(&mut out, node.vector.len() as u64, 4);
            push_words(&mut out, &node.vector);
            push_le(&mut out, node.level as u64, 4);
            let ghost mid = out@;
            let mut l: usize = 0;
            assert(node_lists(*node).skip(0) =~= node_lists(*node));
            while l < node.connections.len()
                invariant
                    l <= node.connections@.len(),
                    out@ + layers_bytes(node_lists(*node).skip(l as int)) == mid + layers_bytes(node_lists(*node)),
                decreases node.connections@.len() - l,
            {
                let ghost b2 = out@;
                let list = &node.connections[l];
                let mut words: Vec<u32> = Vec::new();
                let mut j: usize = 0;
                while j < list.len()
                    invariant
                        j <= list@.len(),
                        words@ == list_words(list@.take(j as int)),
                    decreases list@.len() - j,
                {
                    words.push(list[j] as u32);
                    assert(words@ =~= list_words(list@.take(j + 1)));
                    j = j + 1;
                }
                assert(list@.take(list@.len() as int) =~= list@);
                push_list(&mut out, &words);
                assert(node_lists(*node).skip(l as int).drop_first() =~= node_lists(*node).skip(l + 1));
                assert(node_lists(*node).skip(l as int)[0] == list@);
                assert(out@ + layers_bytes(node_lists(*node).skip(l + 1)) =~= b2 + layers_bytes(node_lists(*node).skip(l as int)));
                l = l + 1;
            }
            assert(node_lists(*node).skip(l as int) =~= Seq::<Seq<usize>>::empty());
            assert(out@ =~= before + node_bytes(*node));
            assert(self.nodes@.skip(i as int).drop_first() =~= self.nodes@.skip(i + 1));
            assert(self.nodes@.skip(i as int)[0] == *node);
            assert(out@ + nodes_bytes(self.nodes@.skip(i + 1)) =~= before + nodes_bytes(self.nodes@.skip(i as int)));
            i = i + 1;
        }
        assert(self.nodes@.skip(i as int) =~= Seq::<Node>::empty());
        assert(out@ =~= self.to_bytes());
        out
    }
}


proof fn lemma_layers_roundtrip(b: Seq<u8>, pos: int, c: Seq<Seq<usize>>)
    requires
        0 <= pos,
        forall|l: int| 0 <= l < c.len() ==> (#[trigger] c[l]).len() < 0x1_0000_0000,
        pos + layers_bytes(c).len() <= b.len(),
        b.subrange(pos, pos + layers_bytes(c).len()) == layers_bytes(c),
    ensures
        sp_layers(b, pos, c.len()) == Ok::<(Seq<Seq<u32>>, int), FormatError>((c.map_values(|x: Seq<usize>| list_words(x)), pos + layers_bytes(c).len())),
    decreases c.len(),
{
    if c.len() == 0 {
        assert(c.map_values(|x: Seq<usize>| list_words(x)) =~= Seq::<Seq<u32>>::empty());
    } else {
        let w0 = list_words(c[0]);
        let rest = c.drop_first();
        lemma_split(b, pos, list_bytes(w0), layers_bytes(rest));
        lemma_list_roundtrip(b, pos, w0);
        let p1 = pos + list_bytes(w0).len();
        assert forall|l: int| 0 <= l < rest.len() implies (#[trigger] rest[l]).len() < 0x1_0000_0000 by {
            assert(rest[l] == c[l + 1]);
        }
        lemma_layers_roundtrip(b, p1, rest);
        assert(seq![w0] + rest.map_values(|x: Seq<usize>| list_words(x)) =~= c.map_values(|x: Seq<usize>| list_words(x)));
    }
}

proof fn lemma_node_roundtrip(b: Seq<u8>, pos: int, n: Node)
    requires
        0 <= pos,
        node_fits(n),
        n.connections@.len() == n.level + 1,
        pos + node_bytes(n).len() <= b.len(),
        b.subrange(pos, pos + node_bytes(n).len()) == node_bytes(n),
    ensures
        sp_node(b, pos) == Ok::<(NodeRead, int), FormatError>((node_read(n), pos + node_bytes(n).len())),
{
    let id_b = utf8_of(n.id@);
    let a0 = le_bytes(id_b.len(), 2);
    let a2 = le_bytes(n.vector@.len(), 4);
    let a3 = words_bytes(n.vector@);
    let a4 = le_bytes(n.level as nat, 4);
    let a5 = layers_bytes(node_lists(n));
    lemma_le_bytes_len(id_b.len(), 2);
    lemma_le_bytes_len(n.vector@.len(), 4);
    lemma_le_bytes_len(n.level as nat, 4);
    lemma_words_bytes_len(n.vector@);
    reveal_with_fuel(pow256, 5);
    assert(node_bytes(n) == a0 + id_b + a2 + a3 + a4 + a5);
    lemma_split(b, pos, a0 + id_b + a2 + a3 + a4, a5);
    lemma_split(b, pos, a0 + id_b + a2 + a3, a4);
    lemma_split(b, pos, a0 + id_b + a2, a3);
    lemma_split(b, pos, a0 + id_b, a2);
    lemma_split(b, pos, a0, id_b);
    let p1 = pos + 2;
    let p2 = p1 + id_b.len();
    let p3 = p2 + 4;
    let p4 = p3 + 4 * n.vector@.len();
    let p5 = p4 + 4;
    lemma_uint_roundtrip(b, pos, id_b.len(), 2);
    lemma_text_roundtrip(b, p1, n.id@);
    lemma_uint_roundtrip(b, p2, n.vector@.len(), 4);
    lemma_words_roundtrip(b, p3, n.vector@);
    lemma_uint_roundtrip(b, p4, n.level as nat, 4);
    assert forall|l: int| 0 <= l < node_lists(n).len() implies (#[trigger] node_lists(n)[l]).len() < 0x1_0000_0000 by {
        assert(node_lists(n)[l] == n.connections@[l]@);
    }
    lemma_layers_roundtrip(b, p5, node_lists(n));
}

proof fn lemma_nodes_roundtrip(b: Seq<u8>, pos: int, ns: Seq<Node>)
    requires
        0 <= pos,
        forall|i: int| 0 <= i < ns.len() ==> node_fits(#[trigger] ns[i]),
        forall|i: int| 0 <= i < ns.len() ==> #[trigger] ns[i].connections@.len() == ns[i].level + 1,
        pos + nodes_bytes(ns).len() <= b.len(),
        b.subrange(pos, pos + nodes_bytes(ns).len()) == nodes_bytes(ns),
    ensures
        sp_nodes(b, pos, ns.len()) == Ok::<(Seq<NodeRead>, int), FormatError>((ns.map_values(|n: Node| node_read(n)), pos + nodes_bytes(ns).len())),
    decreases ns.len(),
{
    if ns.len() == 0 {
        assert(ns.map_values(|n: Node| node_read(n)) =~= Seq::<NodeRead>::empty());
    } else {
        let rest = ns.drop_first();
        lemma_split(b, pos, node_bytes(ns[0]), nodes_bytes(rest));
        lemma_node_roundtrip(b, pos, ns[0]);
        assert forall|i: int| 0 <= i < rest.len() implies node_fits(#[trigger] rest[i]) by {
            assert(rest[i] == ns[i + 1]);
        }
        assert forall|i: int| 0 <= i < rest.len() implies #[trigger] rest[i].connections@.len() == rest[i].level + 1 by {
            assert(rest[i] == ns[i + 1]);
        }
        lemma_nodes_roundtrip(b, pos + node_bytes(ns[0]).len(), rest);
        assert(seq![node_read(ns[0])] + rest.map_values(|n: Node| node_read(n)) =~= ns.map_values(|n: Node| node_read(n)));
    }
}

#[verifier::rlimit(40)]
proof fn lemma_index_parse(h: Hnsw)
    requires
        h.wf(),
        h.fits_format(),
    ensures
        sp_index(h.to_bytes()) == Ok::<IndexRead, FormatError>(h.read_view()),
{
    let b = h.to_bytes();
    let ns = h.nodes@;
    let head = index_magic() + le_bytes(h.m as nat, 4) + le_bytes(h.ef_construction as nat, 4) + le_bytes(raw_of_entry(h.entry_point), 8)
        + le_bytes(h.max_layer as nat, 4) + le_bytes(ns.len(), 4);
    lemma_le_bytes_len(h.m as nat, 4);
    lemma_le_bytes_len(h.ef_construction as nat, 4);
    lemma_le_bytes_len(raw_of_entry(h.entry_point), 8);
    lemma_le_bytes_len(h.max_layer as nat, 4);
    lemma_le_bytes_len(ns.len(), 4);
    assert(head.len() == 28);
    assert(b == head + nodes_bytes(ns));
    assert(b.subrange(0, b.len() as int) =~= b);
    lemma_split(b, 0, head, nodes_bytes(ns));
    assert(b.subrange(0, 4) =~= index_magic());
    assert(b.subrange(4, 8) =~= le_bytes(h.m as nat, 4));
    assert(b.subrange(8, 12) =~= le_bytes(h.ef_construction as nat, 4));
    assert(b.subrange(12, 20) =~= le_bytes(raw_of_entry(h.entry_point), 8));
    assert(b.subrange(20, 24) =~= le_bytes(h.max_layer as nat, 4));
    assert(b.subrange(24, 28) =~= le_bytes(ns.len(), 4));
    lemma_pow_values();
    lemma_uint_roundtrip(b, 4, h.m as nat, 4);
    lemma_uint_roundtrip(b, 8, h.ef_construction as nat, 4);
    lemma_uint_roundtrip(b, 12, raw_of_entry(h.entry_point), 8);
    lemma_uint_roundtrip(b, 20, h.max_layer as nat, 4);
    lemma_uint_roundtrip(b, 24, ns.len(), 4);
    assert forall|i: int| 0 <= i < ns.len() implies #[trigger] ns[i].connections@.len() == ns[i].level + 1 by {}
    assert forall|i: int| 0 <= i < ns.len() implies node_fits(#[trigger] ns[i]) by {}
    lemma_nodes_roundtrip(b, 28, ns);
}

proof fn lemma_read_view_ok(h: Hnsw)
    requires
        h.wf(),
        h.fits_format(),
    ensures
        index_read_ok(h.read_view()),
{
    let ns = h.nodes@;
    let v = h.read_view();
    let rn = v.4;
    assert forall|i: int, l: int, k: int|
        0 <= i < rn.len() && 0 <= l < rn[i].3.len() && 0 <= k < rn[i].3[l].len() implies {
            let t = #[trigger] rn[i].3[l][k];
            &&& (t as int) < rn.len()
            &&& rn[t as int].2 >= l
        } by {
        assert(rn[i] == node_read(ns[i]));
        let x = ns[i].connections@[l]@[k];
        assert(node_lists(ns[i])[l] == ns[i].connections@[l]@);
        assert(rn[i].3[l] == list_words(ns[i].connections@[l]@));
        assert(rn[i].3[l][k] == x as u32);
        assert((x as int) < ns.len());
        assert(rn[x as int] == node_read(ns[x as int]));
    }
    if let Some(e) = h.entry_point {
        assert(rn[e as int] == node_read(ns[e as int]));
    }
}

proof fn lemma_holds_same(h: Hnsw, h2: Hnsw)
    requires
        h.wf(),
        h.fits_format(),
        h2.holds(h.read_view()),
    ensures
        h2.same_as(&h),
{
    let ns = h.nodes@;
    let rn = h.read_view().4;
    assert forall|i: int| 0 <= i < h2.size() implies {
        &&& #[trigger] h2.id_at(i) == h.id_at(i)
        &&& h2.vector_at(i) == h.vector_at(i)
        &&& h2.level_at(i) == h.level_at(i)
        &&& forall|l: int| #[trigger] h2.conn(i, l) == h.conn(i, l)
    } by {
        assert(rn[i] == node_read(ns[i]));
        assert(h2.nodes@[i].id@ == rn[i].0);
        assert forall|l: int| #[trigger] h2.conn(i, l) == h.conn(i, l) by {
            if 0 <= l < ns[i].connections@.len() {
                assert(node_lists(ns[i])[l] == ns[i].connections@[l]@);
                assert(h2.nodes@[i].connections@[l]@ == rn[i].3[l].map_values(|w: u32| w as usize));
                assert(h2.nodes@[i].connections@[l]@ =~= ns[i].connections@[l]@);
            }
        }
    }
}

/// Writing a well-formed index whose sizes fit the file format and reading
/// the bytes back gives an index with the same parameters, entry point,
/// nodes and neighbour lists.
pub proof fn law_index_roundtrip(h: Hnsw)
    requires
        h.wf(),
        h.fits_format(),
    ensures
        sp_index(h.to_bytes()) == Ok::<IndexRead, FormatError>(h.read_view()),
        index_read_ok(h.read_view()),
        forall|h2: Hnsw| #[trigger] h2.holds(h.read_view()) ==> h2.same_as(&h),
{
    lemma_index_parse(h);
    lemma_read_view_ok(h);
    assert forall|h2: Hnsw| #[trigger] h2.holds(h.read_view()) implies h2.same_as(&h) by {
        lemma_holds_same(h, h2);
    }
}

} // verus!
