//! Chunk visibility graph: undirected adjacency between chunk columns, a
//! breadth-first flood fill from the camera chunk bounded by distance and
//! stopped by opaque chunks, and a per-start cache of the reached sets.

use std::collections::{HashMap, HashSet, VecDeque};
use vstd::prelude::*;

verus! {

broadcast use {vstd::std_specs::hash::group_hash_axioms, vstd::set::group_set_axioms};

/// A chunk column.
#[derive(Debug, Clone, Copy, PartialEq, Eq, Hash, Structural)]
pub struct ChunkNode {
    pub x: i32,
    pub z: i32,
}

/// Reached sets kept in the cache before it is emptied and refilled.
pub const VISIBLE_CACHE_CAP: usize = 1024;

/// Map key of a chunk: both coordinates offset into `0..2^32`.
pub open spec fn node_key(n: ChunkNode) -> u64 {
    ((n.x as int + 0x8000_0000) * 0x1_0000_0000 + (n.z as int + 0x8000_0000)) as u64
}

fn key_of(n: ChunkNode) -> (k: u64)
    ensures
        k == node_key(n),
{
    ((n.x as i64 + 0x8000_0000) as u64) * 0x1_0000_0000 + ((n.z as i64 + 0x8000_0000) as u64)
}

proof fn lemma_key_injective(a: ChunkNode, b: ChunkNode)
    requires
        node_key(a) == node_key(b),
    ensures
        a == b,
{
    let ka = (a.x as int + 0x8000_0000) * 0x1_0000_0000 + (a.z as int + 0x8000_0000);
    let kb = (b.x as int + 0x8000_0000) * 0x1_0000_0000 + (b.z as int + 0x8000_0000);
    assert(0 <= ka < 0x1_0000_0000_0000_0000);
    assert(0 <= kb < 0x1_0000_0000_0000_0000);
    vstd::arithmetic::div_mod::lemma_fundamental_div_mod_converse(ka, 0x1_0000_0000, a.x as int + 0x8000_0000, a.z as int + 0x8000_0000);
    vstd::arithmetic::div_mod::lemma_fundamental_div_mod_converse(kb, 0x1_0000_0000, b.x as int + 0x8000_0000, b.z as int + 0x8000_0000);
}

/// Neighbours listed for `n`.
pub open spec fn neighbors(adj: Map<u64, Seq<ChunkNode>>, n: ChunkNode) -> Seq<ChunkNode> {
    if adj.contains_key(node_key(n)) {
        adj[node_key(n)]
    } else {
        Seq::empty()
    }
}

/// `m` with `n` appended to the list of `k`.
pub open spec fn push_neighbor(m: Map<u64, Seq<ChunkNode>>, k: ChunkNode, n: ChunkNode) -> Map<u64, Seq<ChunkNode>> {
    m.insert(node_key(k), neighbors(m, k).push(n))
}

/// A walk from `start` along listed edges whose inner nodes were all seen
/// transparent.
pub open spec fn open_walk(adj: Map<u64, Seq<ChunkNode>>, opaque: Map<ChunkNode, bool>, start: ChunkNode, p: Seq<ChunkNode>) -> bool {
    &&& p.len() >= 1
    &&& p[0] == start
    &&& forall|i: int| 0 <= i < p.len() - 1 ==> #[trigger] neighbors(adj, p[i]).contains(p[i + 1])
    &&& forall|i: int| 0 < i < p.len() - 1 ==> opaque.contains_key(#[trigger] p[i]) && !opaque[p[i]]
}

/// `n` is seen from `start` within `max_dist` steps: the start itself, or a
/// transparent chunk at the end of an open walk of at most `max_dist` edges.
pub open spec fn seen_from(adj: Map<u64, Seq<ChunkNode>>, opaque: Map<ChunkNode, bool>, start: ChunkNode, max_dist: int, n: ChunkNode) -> bool {
    &&& (n == start || (opaque.contains_key(n) && !opaque[n]))
    &&& exists|p: Seq<ChunkNode>| #[trigger] open_walk(adj, opaque, start, p) && p.last() == n && p.len() - 1 <= max_dist
}


/// Every set of chunks has at most 2^64 elements (keys are injective).
proof fn lemma_chunk_set_bound(vs: Set<ChunkNode>)
    requires
        vs.finite(),
    ensures
        vs.len() <= 0x1_0000_0000_0000_0000,
{
    let f = |n: ChunkNode| node_key(n) as int;
    let ks = vs.map(f);
    assert(vstd::relations::injective_on(f, vs)) by {
        assert forall|a: ChunkNode, b: ChunkNode| vs.contains(a) && vs.contains(b) && #[trigger] f(a) == #[trigger] f(b) implies a == b by {
            lemma_key_injective(a, b);
        }
    }
    vstd::set_lib::lemma_map_size(vs, ks, f);
    vstd::set_lib::lemma_int_range(0, 0x1_0000_0000_0000_0000);
    assert(ks.subset_of(vstd::set_lib::set_int_range(0, 0x1_0000_0000_0000_0000)));
    vstd::set_lib::lemma_len_subset(ks, vstd::set_lib::set_int_range(0, 0x1_0000_0000_0000_0000));
}

/// Open walks stay open when more opacity observations are added.
proof fn lemma_open_walk_grow(adj: Map<u64, Seq<ChunkNode>>, o1: Map<ChunkNode, bool>, o2: Map<ChunkNode, bool>, start: ChunkNode, p: Seq<ChunkNode>)
    requires
        open_walk(adj, o1, start, p),
        o1.submap_of(o2),
    ensures
        open_walk(adj, o2, start, p),
{
    assert forall|i: int| 0 < i < p.len() - 1 implies o2.contains_key(#[trigger] p[i]) && !o2[p[i]] by {
        assert(o1.contains_key(p[i]));
    }
}

/// After the search: every chunk on an open walk within the distance bound
/// was reached no later than its position on the walk, and all but the last
/// were expanded.
proof fn lemma_walk_reached(
    adj: Map<u64, Seq<ChunkNode>>,
    obs: Map<ChunkNode, bool>,
    start: ChunkNode,
    max_dist: int,
    vs: Set<ChunkNode>,
    label: Map<ChunkNode, int>,
    expanded: Set<ChunkNode>,
    p: Seq<ChunkNode>,
    i: int,
)
    requires
        open_walk(adj, obs, start, p),
        p.len() - 1 <= max_dist,
        0 <= i < p.len(),
        vs.contains(start),
        label[start] == 0,
        forall|u: ChunkNode| vs.contains(u) && label[u] <= max_dist ==> obs.contains_key(u),
        forall|u: ChunkNode|
            vs.contains(u) && label[u] <= max_dist && !(obs[u] && label[u] > 0) ==> #[trigger] expanded.contains(u),
        forall|u: ChunkNode, w: ChunkNode|
            #[trigger] expanded.contains(u) && #[trigger] neighbors(adj, u).contains(w) ==> vs.contains(w) && label[w] <= label[u] + 1,
    ensures
        vs.contains(p[i]),
        label[p[i]] <= i,
        i < p.len() - 1 ==> expanded.contains(p[i]),
    decreases i,
{
    if i > 0 {
        lemma_walk_reached(adj, obs, start, max_dist, vs, label, expanded, p, i - 1);
        assert(neighbors(adj, p[i - 1]).contains(p[(i - 1) + 1]));
    }
    if i < p.len() - 1 {
        if i > 0 {
            assert(obs.contains_key(p[i]) && !obs[p[i]]);
        }
        assert(expanded.contains(p[i]));
    }
}

/// The cache after storing `entry` for `start`: emptied first when it is
/// full and has no entry for `start`.
pub open spec fn refilled(c: Map<u64, Set<u64>>, start: ChunkNode, entry: Set<u64>) -> Map<u64, Set<u64>> {
    (if !c.contains_key(node_key(start)) && c.len() >= VISIBLE_CACHE_CAP {
        Map::<u64, Set<u64>>::empty()
    } else {
        c
    }).insert(node_key(start), entry)
}

/// Every cache entry belongs to one of the chunks `starts`.
pub open spec fn keyed_by(c: Map<u64, Set<u64>>, starts: Set<ChunkNode>) -> bool {
    forall|k: u64| #[trigger] c.contains_key(k) ==> exists|n: ChunkNode| starts.contains(n) && node_key(n) == k
}

/// Cache law: the cache only ever holds entries for flood-fill starts. A
/// fresh graph's cache has none; a flood fill adds (at most) the entry of its
/// start; so nothing is visible from a chunk never used as a start.
pub proof fn lemma_cache_keyed_by_starts(
    c: Map<u64, Set<u64>>,
    starts: Set<ChunkNode>,
    start: ChunkNode,
    entry: Set<u64>,
    u: ChunkNode,
)
    ensures
        keyed_by(Map::<u64, Set<u64>>::empty(), starts),
        keyed_by(c, starts) ==> keyed_by(refilled(c, start, entry), starts.insert(start)),
        keyed_by(c, starts) && !starts.contains(u) ==> !c.contains_key(node_key(u)),
{
    if keyed_by(c, starts) && !starts.contains(u) && c.contains_key(node_key(u)) {
        let n = choose|n: ChunkNode| starts.contains(n) && node_key(n) == node_key(u);
        lemma_key_injective(n, u);
    }
    if keyed_by(c, starts) {
        let c2 = refilled(c, start, entry);
        let s2 = starts.insert(start);
        assert forall|k: u64| #[trigger] c2.contains_key(k) implies exists|n: ChunkNode| s2.contains(n) && node_key(n) == k by {
            if k == node_key(start) {
                assert(s2.contains(start));
            } else {
                assert(c.contains_key(k));
                let n = choose|n: ChunkNode| starts.contains(n) && node_key(n) == k;
                assert(s2.contains(n));
            }
        }
    }
}

/// Each recorded opacity is an answer `f` can give for that chunk.
pub open spec fn answered_by<F: Fn(ChunkNode) -> bool>(f: F, obs: Map<ChunkNode, bool>) -> bool {
    forall|n: ChunkNode| #[trigger] obs.contains_key(n) ==> f.ensures((n,), obs[n])
}

pub struct VisibilityGraph {
    adjacency: HashMap<u64, Vec<ChunkNode>>,
    visible_sets: HashMap<u64, HashSet<u64>>,
}

impl VisibilityGraph {
    /// The neighbour lists, by chunk key.
    pub closed spec fn adj(self) -> Map<u64, Seq<ChunkNode>> {
        Map::new(|k: u64| self.adjacency@.contains_key(k), |k: u64| self.adjacency@[k]@)
    }

    /// Cached reached sets (chunk keys), by start key.
    pub closed spec fn cache(self) -> Map<u64, Set<u64>> {
        Map::new(|k: u64| self.visible_sets@.contains_key(k), |k: u64| self.visible_sets@[k]@)
    }

    pub fn new() -> (g: Self)
        ensures
            g.adj() == Map::<u64, Seq<ChunkNode>>::empty(),
            g.cache() == Map::<u64, Set<u64>>::empty(),
    {
        let g = VisibilityGraph { adjacency: HashMap::new(), visible_sets: HashMap::new() };
        assert(g.adj() =~= Map::<u64, Seq<ChunkNode>>::empty());
        assert(g.cache() =~= Map::<u64, Set<u64>>::empty());
        g
    }

    fn push_adjacent(&mut self, a: ChunkNode, b: ChunkNode)
        ensures
            final(self).adj() == push_neighbor(old(self).adj(), a, b),
            final(self).cache() == old(self).cache(),
    {
        let k = key_of(a);
        let mut list = match self.adjacency.remove(&k) {
            Some(l) => l,
            None => Vec::new(),
        };
        list.push(b);
        self.adjacency.insert(k, list);
        assert(self.adj() =~= push_neighbor(old(self).adj(), a, b));
    }

    /// Records the undirected edge `a - b`: `b` joins the list of `a`, then
    /// `a` the list of `b`.
    pub fn add_edge(&mut self, a: ChunkNode, b: ChunkNode)
        ensures
            final(self).adj() == push_neighbor(push_neighbor(old(self).adj(), a, b), b, a),
            final(self).cache() == old(self).cache(),
    {
        self.push_adjacent(a, b);
        self.push_adjacent(b, a);
    }


    /// Breadth-first flood fill from `start` over the listed edges: a chunk is
    /// reached at its walk distance; chunks farther than `max_dist` are not
    /// kept, and an opaque chunk other than the start is neither kept nor
    /// expanded. `is_opaque` is asked about each chunk taken from the queue
    /// within the distance bound. The reached set is cached for `start` (the
    /// cache is emptied first when it is full and has no entry for `start`).
    pub fn flood_fill<F: Fn(ChunkNode) -> bool>(&mut self, start: ChunkNode, max_dist: i32, is_opaque: F) -> (result: Vec<ChunkNode>)
        requires
            forall|n: ChunkNode| is_opaque.requires((n,)),
        ensures
            final(self).adj() == old(self).adj(),
            exists|obs: Map<ChunkNode, bool>|
                {
                    &&& #[trigger] answered_by(is_opaque, obs)
                    &&& forall|n: ChunkNode| #[trigger] result@.contains(n) <==> seen_from(old(self).adj(), obs, start, max_dist as int, n)
                },
            forall|i: int, j: int| 0 <= i < j < result@.len() ==> result@[i] != result@[j],
            max_dist >= 0 ==> result@.len() > 0 && result@[0] == start,
            final(self).cache() == (if !old(self).cache().contains_key(node_key(start)) && old(self).cache().len() >= VISIBLE_CACHE_CAP {
                Map::<u64, Set<u64>>::empty()
            } else {
                old(self).cache()
            }).insert(node_key(start), final(self).cache()[node_key(start)]),
            final(self).cache() == refilled(old(self).cache(), start, final(self).cache()[node_key(start)]),
            forall|n: ChunkNode| #[trigger] final(self).cache()[node_key(start)].contains(node_key(n)) <==> result@.contains(n),
    {
        let ghost adj = self.adj();
        let mut visited: HashSet<u64> = HashSet::new();
        let mut queue: VecDeque<(ChunkNode, i64)> = VecDeque::new();
        let mut result: Vec<ChunkNode> = Vec::new();
        queue.push_back((start, 0));
        visited.insert(key_of(start));
        let ghost mut vs: Set<ChunkNode> = set![start];
        let ghost mut label: Map<ChunkNode, int> = map![start => 0int];
        let ghost mut path: Map<ChunkNode, Seq<ChunkNode>> = map![start => seq![start]];
        let ghost mut obs: Map<ChunkNode, bool> = Map::empty();
        let ghost mut popped: Set<ChunkNode> = Set::empty();
        let ghost mut expanded: Set<ChunkNode> = Set::empty();
        let ghost mut cur: int = 0;
        proof {
            assert forall|n: ChunkNode| vs.contains(n) <==> visited@.contains(node_key(n)) by {
                if visited@.contains(node_key(n)) {
                    lemma_key_injective(n, start);
                }
            }
            assert(open_walk(adj, obs, start, seq![start]));
            assert(queue@[0].0 == start);
        }
        while queue.len() > 0
            invariant
                adj == self.adj(),
                forall|n: ChunkNode| is_opaque.requires((n,)),
                vs.finite(),
                vs.len() <= 0x1_0000_0000_0000_0000,
                forall|n: ChunkNode| vs.contains(n) <==> #[trigger] visited@.contains(node_key(n)),
                vs.contains(start),
                label.dom() == vs,
                path.dom() == vs,
                label[start] == 0,
                0 <= cur,
                forall|i: int| 0 <= i < queue@.len() ==> {
                    &&& vs.contains(#[trigger] queue@[i].0)
                    &&& label[queue@[i].0] == queue@[i].1
                    &&& !popped.contains(queue@[i].0)
                    &&& cur <= queue@[i].1
                },
                forall|i: int, j: int| 0 <= i < j < queue@.len() ==> queue@[i].0 != queue@[j].0 && queue@[i].1 <= queue@[j].1,
                forall|n: ChunkNode| #[trigger] vs.contains(n) ==> popped.contains(n) || exists|i: int| 0 <= i < queue@.len() && queue@[i].0 == n,
                popped.subset_of(vs),
                expanded.subset_of(popped),
                obs.dom().subset_of(popped),
                forall|n: ChunkNode| #[trigger] vs.contains(n) ==> 0 <= label[n] <= cur + 1 && (label[n] == 0 || label[n] <= max_dist + 1),
                forall|u: ChunkNode|
                    #[trigger] expanded.contains(u) ==> label[u] <= max_dist && (label[u] == 0 || (obs.contains_key(u) && !obs[u])),
                forall|u: ChunkNode, w: ChunkNode|
                    #[trigger] expanded.contains(u) && #[trigger] neighbors(adj, u).contains(w) ==> vs.contains(w) && label[w] <= label[u] + 1,
                forall|u: ChunkNode|
                    #[trigger] popped.contains(u) && !expanded.contains(u) ==> label[u] > max_dist || (obs.contains_key(u) && obs[u] && label[u] > 0),
                forall|u: ChunkNode| #[trigger] popped.contains(u) && label[u] <= max_dist ==> obs.contains_key(u),
                forall|n: ChunkNode| #[trigger] obs.contains_key(n) ==> is_opaque.ensures((n,), obs[n]),
                forall|n: ChunkNode|
                    #[trigger] vs.contains(n) ==> {
                        &&& path[n].len() == label[n] + 1
                        &&& open_walk(adj, obs, start, path[n])
                        &&& path[n].last() == n
                    },
                forall|n: ChunkNode| #[trigger] result@.contains(n) <==> expanded.contains(n),
                forall|i: int, j: int| 0 <= i < j < result@.len() ==> result@[i] != result@[j],
                !popped.contains(start) ==> result@.len() == 0 && queue@.len() > 0 && queue@[0].0 == start,
                result@.len() > 0 ==> result@[0] == start,
                popped.contains(start) && max_dist >= 0 ==> result@.len() > 0,
            decreases 2 * (0x1_0000_0000_0000_0000 - vs.len()) + queue@.len(),
        {
            let ghost q0 = queue@;
            let front = queue.pop_front();
            if let Some((node, dist)) = front {
                proof {
                    assert(queue@ =~= q0.drop_first());
                    assert forall|n: ChunkNode| #[trigger] vs.contains(n) implies popped.insert(node).contains(n) || exists|i: int|
                        0 <= i < queue@.len() && queue@[i].0 == n by {
                        if !popped.contains(n) && n != node {
                            let i = choose|i: int| 0 <= i < q0.len() && q0[i].0 == n;
                            assert(i != 0);
                            assert(queue@[i - 1].0 == n);
                        }
                    }
                    assert forall|i: int| 0 <= i < queue@.len() implies !popped.insert(node).contains(#[trigger] queue@[i].0) by {
                        assert(queue@[i] == q0[i + 1]);
                        assert(q0[0].0 != q0[i + 1].0);
                    }
                    assert(label[node] == dist);
                    assert(!popped.contains(node));
                    assert(!expanded.contains(node));
                    assert(!obs.contains_key(node));
                    popped = popped.insert(node);
                    cur = dist as int;
                }
                let ghost m0 = 2 * (0x1_0000_0000_0000_0000 - vs.len()) + queue@.len();
                if dist > max_dist as i64 {
                    continue;
                }
                let op = is_opaque(node);
                proof {
                    let obs2 = obs.insert(node, op);
                    assert(obs.submap_of(obs2));
                    assert forall|n: ChunkNode| #[trigger] vs.contains(n) implies open_walk(adj, obs2, start, path[n]) by {
                        lemma_open_walk_grow(adj, obs, obs2, start, path[n]);
                    }
                    obs = obs2;
                }
                if op && dist > 0 {
                    continue;
                }
                assert(!result@.contains(node));
                let ghost r0 = result@;
                result.push(node);
                proof {
                    expanded = expanded.insert(node);
                    assert forall|n: ChunkNode| #[trigger] result@.contains(n) <==> expanded.contains(n) by {
                        if result@.contains(n) && n != node {
                            let i = choose|i: int| 0 <= i < result@.len() && result@[i] == n;
                            assert(r0[i] == n);
                        }
                        if n == node {
                            assert(result@[result@.len() - 1] == node);
                        }
                        if r0.contains(n) {
                            let i = choose|i: int| 0 <= i < r0.len() && r0[i] == n;
                            assert(result@[i] == n);
                        }
                    }
                    assert forall|i: int, j: int| 0 <= i < j < result@.len() implies result@[i] != result@[j] by {
                        if j == result@.len() - 1 {
                            assert(result@[i] == r0[i]);
                        }
                    }
                }
                let ghost expanded0 = expanded;
                match self.adjacency.get(&key_of(node)) {
                    Some(list) => {
                        assert(list@ == neighbors(adj, node));
                        let mut j: usize = 0;
                        while j < list.len()
                            invariant
                                list@ == neighbors(adj, node),
                                j <= list@.len(),
                                expanded == expanded0,
                                expanded.contains(node),
                                dist as int == label[node],
                                0 <= dist <= max_dist,
                                dist == 0 || (obs.contains_key(node) && !obs[node]),
                                cur == dist as int,
                                vs.contains(node),
                                2 * (0x1_0000_0000_0000_0000 - vs.len()) + queue@.len() <= m0,
                                forall|t: int| 0 <= t < j ==> vs.contains(#[trigger] list@[t]) && label[list@[t]] <= dist + 1,
                                vs.finite(),
                                vs.len() <= 0x1_0000_0000_0000_0000,
                                forall|n: ChunkNode| vs.contains(n) <==> #[trigger] visited@.contains(node_key(n)),
                                vs.contains(start),
                                label.dom() == vs,
                                path.dom() == vs,
                                label[start] == 0,
                                forall|i: int| 0 <= i < queue@.len() ==> {
                                    &&& vs.contains(#[trigger] queue@[i].0)
                                    &&& label[queue@[i].0] == queue@[i].1
                                    &&& !popped.contains(queue@[i].0)
                                    &&& cur <= queue@[i].1
                                },
                                forall|i: int, j: int| 0 <= i < j < queue@.len() ==> queue@[i].0 != queue@[j].0 && queue@[i].1 <= queue@[j].1,
                                forall|n: ChunkNode| #[trigger] vs.contains(n) ==> popped.contains(n) || exists|i: int| 0 <= i < queue@.len() && queue@[i].0 == n,
                                popped.subset_of(vs),
                                expanded.subset_of(popped),
                                forall|n: ChunkNode| #[trigger] vs.contains(n) ==> 0 <= label[n] <= cur + 1 && (label[n] == 0 || label[n] <= max_dist + 1),
                                forall|u: ChunkNode, w: ChunkNode|
                                    #[trigger] expanded.contains(u) && #[trigger] neighbors(adj, u).contains(w) && u != node ==> vs.contains(w) && label[w] <= label[u] + 1,
                                forall|u: ChunkNode|
                                    #[trigger] expanded.contains(u) ==> label[u] <= max_dist && (label[u] == 0 || (obs.contains_key(u) && !obs[u])),
                                forall|u: ChunkNode|
                                    #[trigger] popped.contains(u) && !expanded.contains(u) ==> label[u] > max_dist || (obs.contains_key(u) && obs[u] && label[u] > 0),
                                forall|u: ChunkNode| #[trigger] popped.contains(u) && label[u] <= max_dist ==> obs.contains_key(u),
                                forall|n: ChunkNode|
                                    #[trigger] vs.contains(n) ==> {
                                        &&& path[n].len() == label[n] + 1
                                        &&& open_walk(adj, obs, start, path[n])
                                        &&& path[n].last() == n
                                    },
                            decreases list@.len() - j,
                        {
                            let n = list[j];
                            let k = key_of(n);
                            if !visited.contains(&k) {
                                let ghost q1 = queue@;
                                visited.insert(k);
                                queue.push_back((n, dist + 1));
                                proof {
                                    let p2 = path[node].push(n);
                                    assert(open_walk(adj, obs, start, p2)) by {
                                        let pn = path[node];
                                        assert forall|i: int| 0 <= i < p2.len() - 1 implies #[trigger] neighbors(adj, p2[i]).contains(p2[i + 1]) by {
                                            if i < pn.len() - 1 {
                                                assert(p2[i] == pn[i] && p2[i + 1] == pn[i + 1]);
                                            } else {
                                                assert(p2[i] == node);
                                                assert(list@[j as int] == n);
                                            }
                                        }
                                        assert forall|i: int| 0 < i < p2.len() - 1 implies obs.contains_key(#[trigger] p2[i]) && !obs[p2[i]] by {
                                            if i < pn.len() - 1 {
                                                assert(p2[i] == pn[i]);
                                            } else {
                                                assert(p2[i] == node);
                                            }
                                        }
                                    }
                                    assert(!vs.contains(n));
                                    lemma_chunk_set_bound(vs.insert(n));
                                    assert forall|m: ChunkNode| vs.insert(n).contains(m) <==> #[trigger] visited@.contains(node_key(m)) by {
                                        if visited@.contains(node_key(m)) && node_key(m) == k {
                                            lemma_key_injective(m, n);
                                        }
                                    }
                                    vs = vs.insert(n);
                                    label = label.insert(n, dist + 1);
                                    path = path.insert(n, p2);
                                    assert(queue@.last() == (n, (dist + 1) as i64));
                                    assert forall|m: ChunkNode| #[trigger] vs.contains(m) implies popped.contains(m) || exists|i: int|
                                        0 <= i < queue@.len() && queue@[i].0 == m by {
                                        if m == n {
                                            assert(queue@[queue@.len() - 1].0 == n);
                                        } else if !popped.contains(m) {
                                            let i = choose|i: int| 0 <= i < q1.len() && q1[i].0 == m;
                                            assert(queue@[i] == q1[i]);
                                        }
                                    }
                                }
                            } else {
                                proof {
                                    assert(vs.contains(n));
                                }
                            }
                            j += 1;
                        }
                    },
                    None => {
                        assert(neighbors(adj, node) == Seq::<ChunkNode>::empty());
                    },
                }
            }
        }
        proof {
            assert forall|n: ChunkNode| #[trigger] vs.contains(n) implies popped.contains(n) by {}
            assert forall|n: ChunkNode| #[trigger] result@.contains(n) <==> seen_from(adj, obs, start, max_dist as int, n) by {
                if result@.contains(n) {
                    assert(open_walk(adj, obs, start, path[n]));
                    if label[n] == 0 {
                        assert(path[n].len() == 1);
                    }
                }
                if seen_from(adj, obs, start, max_dist as int, n) {
                    let p = choose|p: Seq<ChunkNode>| #[trigger] open_walk(adj, obs, start, p) && p.last() == n && p.len() - 1 <= max_dist;
                    lemma_walk_reached(adj, obs, start, max_dist as int, vs, label, expanded, p, p.len() - 1);
                }
            }
            assert(answered_by(is_opaque, obs));
        }
        let sk = key_of(start);
        let ghost c0 = self.cache();
        assert(c0.dom() =~= self.visible_sets@.dom());
        let full = !self.visible_sets.contains_key(&sk) && self.visible_sets.len() >= VISIBLE_CACHE_CAP;
        if full {
            self.visible_sets.clear();
        }
        let ghost base = if full {
            Map::<u64, Set<u64>>::empty()
        } else {
            c0
        };
        assert(self.cache() =~= base);
        let mut set: HashSet<u64> = HashSet::new();
        let mut r: usize = 0;
        while r < result.len()
            invariant
                r <= result@.len(),
                forall|k: u64| #[trigger] set@.contains(k) <==> exists|i: int| 0 <= i < r && node_key(result@[i]) == k,
            decreases result@.len() - r,
        {
            set.insert(key_of(result[r]));
            r += 1;
            proof {
                assert forall|k: u64| #[trigger] set@.contains(k) <==> exists|i: int| 0 <= i < r && node_key(result@[i]) == k by {
                    if set@.contains(k) && k != node_key(result@[r - 1]) {
                        let i = choose|i: int| 0 <= i < r - 1 && node_key(result@[i]) == k;
                    }
                }
            }
        }
        let ghost reached = set@;
        self.visible_sets.insert(sk, set);
        proof {
            assert(self.cache() =~= base.insert(sk, reached));
            assert forall|n: ChunkNode| #[trigger] reached.contains(node_key(n)) <==> result@.contains(n) by {
                if reached.contains(node_key(n)) {
                    let i = choose|i: int| 0 <= i < result@.len() && node_key(result@[i]) == node_key(n);
                    lemma_key_injective(result@[i], n);
                }
                if result@.contains(n) {
                    let i = choose|i: int| 0 <= i < result@.len() && result@[i] == n;
                    assert(node_key(result@[i]) == node_key(n));
                }
            }
        }
        result
    }

    /// Whether `to` is in the last reached set cached for `from` (false when
    /// none is cached).
    pub fn is_visible(&self, from: ChunkNode, to: ChunkNode) -> (r: bool)
        ensures
            r == (self.cache().contains_key(node_key(from)) && self.cache()[node_key(from)].contains(node_key(to))),
    {
        match self.visible_sets.get(&key_of(from)) {
            Some(set) => set.contains(&key_of(to)),
            None => false,
        }
    }
}

} // verus!
