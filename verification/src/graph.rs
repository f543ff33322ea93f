//! Dependency graphs over node indices: walks, cycles, cycle detection by
//! depth-first search, and topological layering.
use vstd::prelude::*;

verus! {

/// `p` is a walk of at least one node, every node below `n`, every step an edge.
pub open spec fn is_walk(edge: spec_fn(int, int) -> bool, n: int, p: Seq<int>) -> bool {
    &&& p.len() >= 1
    &&& forall|k: int| 0 <= k < p.len() ==> 0 <= #[trigger] p[k] < n
    &&& forall|k: int| 0 <= k < p.len() - 1 ==> #[trigger] edge(p[k], p[k + 1])
}

/// Node `i` lies on a cycle: some walk of at least one step leads from `i` back to `i`.
pub open spec fn on_cycle(edge: spec_fn(int, int) -> bool, n: int, i: int) -> bool {
    exists|p: Seq<int>| #[trigger] is_walk(edge, n, p) && p.len() >= 2 && p[0] == i && p.last() == i
}

/// No node below `n` lies on a cycle.
pub open spec fn acyclic(edge: spec_fn(int, int) -> bool, n: int) -> bool {
    forall|i: int| 0 <= i < n ==> !on_cycle(edge, n, i)
}

/// The edges an adjacency list describes: `i -> j` when `j` is listed for `i`.
pub open spec fn adj_edge(g: Seq<Vec<usize>>) -> spec_fn(int, int) -> bool {
    |i: int, j: int| 0 <= i < g.len() && 0 <= j < g.len() && g[i]@.contains(j as usize)
}

/// Every listed target is a node index.
pub open spec fn adj_in_range(g: Seq<Vec<usize>>) -> bool {
    forall|i: int, d: int| 0 <= i < g.len() && 0 <= d < g[i]@.len() ==> #[trigger] g[i]@[d] < g.len()
}

/// Number of zero entries.
pub open spec fn count_zeros(s: Seq<u8>) -> nat
    decreases s.len(),
{
    if s.len() == 0 {
        0
    } else {
        count_zeros(s.drop_last()) + if s.last() == 0 { 1nat } else { 0nat }
    }
}

proof fn lemma_count_zeros_mono(a: Seq<u8>, b: Seq<u8>)
    requires
        a.len() == b.len(),
        forall|k: int| 0 <= k < a.len() && a[k] != 0 ==> b[k] != 0,
    ensures
        count_zeros(b) <= count_zeros(a),
    decreases a.len(),
{
    if a.len() > 0 {
        lemma_count_zeros_mono(a.drop_last(), b.drop_last());
    }
}

proof fn lemma_count_zeros_strict(a: Seq<u8>, b: Seq<u8>, i: int)
    requires
        a.len() == b.len(),
        0 <= i < a.len(),
        a[i] == 0,
        b[i] != 0,
        forall|k: int| 0 <= k < a.len() && a[k] != 0 ==> b[k] != 0,
    ensures
        count_zeros(b) < count_zeros(a),
    decreases a.len(),
{
    if i == a.len() - 1 {
        lemma_count_zeros_mono(a.drop_last(), b.drop_last());
    } else {
        lemma_count_zeros_strict(a.drop_last(), b.drop_last(), i);
    }
}

/// The adjacency lists of `g`, as sequences.
pub open spec fn adj_of(g: Seq<Vec<usize>>) -> Seq<Seq<usize>> {
    g.map_values(|v: Vec<usize>| v@)
}

/// Depth-first search from `i` over the adjacency lists `g`, in node state
/// `s` (0 unvisited, 1 on the current path, 2 finished), at most `fuel`
/// levels deep: the state afterwards and the node whose edge closed a
/// cycle, if one was met. Edges are followed in list order.
pub open spec fn search(g: Seq<Seq<usize>>, s: Seq<u8>, i: int, fuel: nat) -> (Seq<u8>, Option<int>)
    decreases fuel, 0int,
{
    if fuel == 0 {
        (s, None)
    } else {
        search_from(g, s.update(i, 1), i, 0, (fuel - 1) as nat)
    }
}

/// The search at node `i` from its `d`-th edge on.
pub open spec fn search_from(g: Seq<Seq<usize>>, s: Seq<u8>, i: int, d: int, fuel: nat) -> (Seq<u8>, Option<int>)
    decreases fuel, g[i].len() - d + 1,
{
    if d < 0 || d >= g[i].len() {
        (s.update(i, 2), None)
    } else {
        let j = g[i][d] as int;
        if s[j] == 1 {
            (s, Some(j))
        } else if s[j] == 0 {
            let (s2, r) = search(g, s, j, fuel);
            if r is Some {
                (s2, r)
            } else {
                search_from(g, s2, i, d + 1, fuel)
            }
        } else {
            search_from(g, s, i, d + 1, fuel)
        }
    }
}

/// Searches from every unvisited node from `k` on, in node order, until a
/// cycle is met: the node whose edge closed it.
pub open spec fn scan(g: Seq<Seq<usize>>, s: Seq<u8>, k: int) -> Option<int>
    decreases g.len() - k,
{
    if k < 0 || k >= g.len() {
        None
    } else if s[k] == 0 {
        let (s2, r) = search(g, s, k, count_zeros(s));
        if r is Some {
            r
        } else {
            scan(g, s2, k + 1)
        }
    } else {
        scan(g, s, k + 1)
    }
}

/// The node a depth-first cycle search over `g` reports: the search starts
/// from each node in order and follows edges in list order; the report is
/// the node that the first edge back onto the current path leads to.
pub open spec fn first_cycle_report(g: Seq<Seq<usize>>) -> Option<int> {
    scan(g, Seq::new(g.len(), |k: int| 0u8), 0)
}

/// States reachable by searching: same length, values at most 2, and every
/// visited node stays visited.
pub open spec fn grows(s: Seq<u8>, t: Seq<u8>) -> bool {
    &&& t.len() == s.len()
    &&& forall|k: int| 0 <= k < t.len() ==> #[trigger] t[k] <= 2
    &&& forall|k: int| 0 <= k < s.len() && s[k] != 0 ==> #[trigger] t[k] != 0
}

proof fn lemma_grows_zeros(s: Seq<u8>, t: Seq<u8>)
    requires
        grows(s, t),
    ensures
        count_zeros(t) <= count_zeros(s),
{
    lemma_count_zeros_mono(s, t);
}

proof fn lemma_update_zeros(s: Seq<u8>, i: int, v: u8)
    requires
        0 <= i < s.len(),
        s[i] == 0,
        v != 0,
    ensures
        count_zeros(s.update(i, v)) < count_zeros(s),
{
    lemma_count_zeros_strict(s, s.update(i, v), i);
}

/// With enough fuel the search does not depend on how much: any two
/// amounts at least the number of unvisited nodes give the same outcome,
/// and the state only grows.
proof fn lemma_search_fuel(g: Seq<Seq<usize>>, s: Seq<u8>, i: int, f1: nat, f2: nat)
    requires
        forall|a: int, b: int| 0 <= a < g.len() && 0 <= b < g[a].len() ==> #[trigger] g[a][b] < g.len(),
        s.len() == g.len(),
        forall|k: int| 0 <= k < s.len() ==> #[trigger] s[k] <= 2,
        0 <= i < s.len(),
        s[i] == 0,
        f1 >= count_zeros(s),
        f2 >= count_zeros(s),
    ensures
        search(g, s, i, f1) == search(g, s, i, f2),
        grows(s, search(g, s, i, f1).0),
    decreases f1, 0int,
{
    lemma_update_zeros(s, i, 1);
    let s1 = s.update(i, 1);
    lemma_search_from_fuel(g, s1, i, 0, (f1 - 1) as nat, (f2 - 1) as nat);
}

proof fn lemma_search_from_fuel(g: Seq<Seq<usize>>, s: Seq<u8>, i: int, d: int, f1: nat, f2: nat)
    requires
        forall|a: int, b: int| 0 <= a < g.len() && 0 <= b < g[a].len() ==> #[trigger] g[a][b] < g.len(),
        s.len() == g.len(),
        forall|k: int| 0 <= k < s.len() ==> #[trigger] s[k] <= 2,
        0 <= i < s.len(),
        0 <= d <= g[i].len(),
        f1 >= count_zeros(s),
        f2 >= count_zeros(s),
    ensures
        search_from(g, s, i, d, f1) == search_from(g, s, i, d, f2),
        grows(s, search_from(g, s, i, d, f1).0),
    decreases f1, g[i].len() - d + 1,
{
    if d < g[i].len() {
        let j = g[i][d] as int;
        assert(g[i][d] < g.len());
        if s[j] == 1 {
        } else if s[j] == 0 {
            lemma_search_fuel(g, s, j, f1, f2);
            let (s2, r) = search(g, s, j, f1);
            if r is None {
                lemma_grows_zeros(s, s2);
                lemma_search_from_fuel(g, s2, i, d + 1, f1, f2);
            }
        } else {
            lemma_search_from_fuel(g, s, i, d + 1, f1, f2);
        }
    }
}

/// Search invariant: finished nodes (2) are closed under edges and off every
/// cycle; in-progress nodes (1) are exactly the nodes of `stack`, which is a walk.
spec fn search_inv(g: Seq<Vec<usize>>, s: Seq<u8>, stack: Seq<int>) -> bool {
    let e = adj_edge(g);
    &&& s.len() == g.len()
    &&& adj_in_range(g)
    &&& forall|k: int| 0 <= k < s.len() ==> #[trigger] s[k] <= 2
    &&& forall|i: int, j: int| #![trigger s[i], e(i, j)] 0 <= i < s.len() && s[i] == 2 && e(i, j) ==> s[j] == 2
    &&& forall|i: int| 0 <= i < s.len() && #[trigger] s[i] == 2 ==> !on_cycle(e, g.len() as int, i)
    &&& forall|i: int| 0 <= i < s.len() ==> (#[trigger] s[i] == 1 <==> stack.contains(i))
    &&& forall|k: int| 0 <= k < stack.len() ==> 0 <= #[trigger] stack[k] < g.len()
    &&& forall|k: int| 0 <= k < stack.len() - 1 ==> #[trigger] e(stack[k], stack[k + 1])
}

proof fn lemma_walk_stays_finished(g: Seq<Vec<usize>>, s: Seq<u8>, stack: Seq<int>, p: Seq<int>, k: int)
    requires
        search_inv(g, s, stack),
        is_walk(adj_edge(g), g.len() as int, p),
        s[p[0]] == 2,
        0 <= k < p.len(),
    ensures
        s[p[k]] == 2,
    decreases k,
{
    if k > 0 {
        lemma_walk_stays_finished(g, s, stack, p, k - 1);
        assert(adj_edge(g)(p[k - 1], p[k - 1 + 1]));
    }
}

/// Depth-first search from `i`. `Err(d)` reports a node `d` on a cycle.
fn dfs(g: &Vec<Vec<usize>>, i: usize, state: &mut Vec<u8>, Ghost(stack): Ghost<Seq<int>>) -> (r: Result<(), usize>)
    requires
        search_inv(g@, old(state)@, stack),
        i < g.len(),
        old(state)@[i as int] == 0,
        stack.len() > 0 ==> adj_edge(g@)(stack.last(), i as int),
    ensures
        r is Ok ==> {
            &&& search_inv(g@, final(state)@, stack)
            &&& final(state)@[i as int] == 2
            &&& forall|k: int| 0 <= k < g.len() && #[trigger] final(state)@[k] != old(state)@[k] ==> old(state)@[k] == 0 && final(state)@[k] == 2
        },
        r matches Err(d) ==> d < g.len() && on_cycle(adj_edge(g@), g.len() as int, d as int),
        r matches Err(d) ==> search(adj_of(g@), old(state)@, i as int, count_zeros(old(state)@)).1 == Some(d as int),
        r is Ok ==> search(adj_of(g@), old(state)@, i as int, count_zeros(old(state)@)) == (final(state)@, None::<int>),
    decreases count_zeros(state@),
{
    let ghost e = adj_edge(g@);
    let ghost n = g.len() as int;
    let ghost s0 = state@;
    state.set(i, 1);
    let ghost st = stack.push(i as int);
    assert(search_inv(g@, state@, st)) by {
        assert forall|x: int| 0 <= x < state@.len() implies (#[trigger] state@[x] == 1 <==> st.contains(x)) by {
            if x == i {
                assert(st[st.len() - 1] == x);
            } else {
                if st.contains(x) {
                    let k = choose|k: int| 0 <= k < st.len() && st[k] == x;
                    assert(stack[k] == x);
                }
                if stack.contains(x) {
                    let k = choose|k: int| 0 <= k < stack.len() && stack[k] == x;
                    assert(st[k] == x);
                }
            }
        }
        assert forall|k: int| 0 <= k < st.len() - 1 implies #[trigger] e(st[k], st[k + 1]) by {
            if k < stack.len() - 1 {
                assert(e(stack[k], stack[k + 1]));
            }
        }
    }
    proof {
        lemma_count_zeros_strict(s0, state@, i as int);
    }
    let ghost a = adj_of(g@);
    let ghost fuel = count_zeros(s0);
    proof {
        assert(state@ == s0.update(i as int, 1));
        assert(search(a, s0, i as int, fuel) == search_from(a, state@, i as int, 0, (fuel - 1) as nat));
        assert forall|x: int, y: int| 0 <= x < a.len() && 0 <= y < a[x].len() implies #[trigger] a[x][y] < a.len() by {
            assert(a[x] == g@[x]@);
        }
    }
    let deg = g[i].len();
    let mut d: usize = 0;
    while d < deg
        invariant
            e == adj_edge(g@),
            n == g.len(),
            deg == g@[i as int]@.len(),
            i < g.len(),
            d <= deg,
            search_inv(g@, state@, st),
            st == stack.push(i as int),
            state@[i as int] == 1,
            count_zeros(state@) < count_zeros(s0),
            forall|k: int| 0 <= k < d ==> state@[#[trigger] g@[i as int]@[k] as int] == 2,
            forall|k: int| 0 <= k < g.len() && k != i && #[trigger] state@[k] != s0[k] ==> s0[k] == 0 && state@[k] == 2,
            s0.len() == g.len(),
            s0 == old(state)@,
            s0[i as int] == 0,
            a == adj_of(g@),
            fuel == count_zeros(s0),
            fuel >= 1,
            forall|x: int, y: int| 0 <= x < a.len() && 0 <= y < a[x].len() ==> #[trigger] a[x][y] < a.len(),
            count_zeros(state@) <= fuel - 1,
            search(a, s0, i as int, fuel) == search_from(a, state@, i as int, d as int, (fuel - 1) as nat),
        decreases deg - d,
    {
        let j = g[i][d];
        assert(g@[i as int]@[d as int] < g.len());
        assert(a[i as int] == g@[i as int]@);
        assert(a[i as int][d as int] == j);
        assert(e(i as int, j as int)) by {
            assert(g@[i as int]@.contains(j));
        }
        let sj = state[j];
        if sj == 1 {
            proof {
                assert(st.contains(j as int));
                let k = choose|k: int| 0 <= k < st.len() && st[k] == j as int;
                let p = st.subrange(k, st.len() as int).push(j as int);
                assert(is_walk(e, n, p)) by {
                    assert forall|m: int| 0 <= m < p.len() implies 0 <= #[trigger] p[m] < n by {
                        if m < p.len() - 1 {
                            assert(p[m] == st[k + m]);
                        }
                    }
                    assert forall|m: int| 0 <= m < p.len() - 1 implies #[trigger] e(p[m], p[m + 1]) by {
                        if m < p.len() - 2 {
                            assert(p[m] == st[k + m]);
                            assert(p[m + 1] == st[k + m + 1]);
                        } else {
                            assert(p[m] == st[st.len() - 1]);
                        }
                    }
                }
                assert(p[0] == j);
            }
            return Err(j);
        } else if sj == 0 {
            let ghost before = state@;
            proof {
                lemma_search_fuel(a, before, j as int, (fuel - 1) as nat, count_zeros(before));
            }
            match dfs(g, j, state, Ghost(st)) {
                Ok(()) => {},
                Err(x) => {
                    return Err(x);
                },
            }
            proof {
                lemma_count_zeros_mono(before, state@);
                assert forall|k: int| 0 <= k < d + 1 implies state@[#[trigger] g@[i as int]@[k] as int] == 2 by {
                    let t = g@[i as int]@[k] as int;
                    if k < d {
                        assert(before[t] == 2);
                        if state@[t] != before[t] {
                        }
                    }
                }
                assert forall|k: int| 0 <= k < g.len() && k != i && #[trigger] state@[k] != s0[k] implies s0[k] == 0 && state@[k] == 2 by {
                    if before[k] != s0[k] {
                    } else {
                        assert(state@[k] != before[k]);
                    }
                }
            }
        } else {
            assert(sj == 2);
        }
        d += 1;
    }
    // Every successor of `i` is finished, so `i` is not on a cycle.
    proof {
        assert forall|j: int| e(i as int, j) implies state@[j] == 2 by {
            let k = choose|k: int| 0 <= k < g@[i as int]@.len() && g@[i as int]@[k] == j as usize;
            assert(state@[g@[i as int]@[k] as int] == 2);
        }
        if on_cycle(e, n, i as int) {
            let p = choose|p: Seq<int>| #[trigger] is_walk(e, n, p) && p.len() >= 2 && p[0] == i && p.last() == i;
            assert(e(p[0int], p[0int + 1]));
            let q = p.skip(1);
            assert(is_walk(e, n, q)) by {
                assert forall|m: int| 0 <= m < q.len() implies 0 <= #[trigger] q[m] < n by {
                    assert(q[m] == p[m + 1]);
                }
                assert forall|m: int| 0 <= m < q.len() - 1 implies #[trigger] e(q[m], q[m + 1]) by {
                    assert(q[m] == p[m + 1]);
                    assert(q[m + 1] == p[m + 1 + 1]);
                }
            }
            lemma_walk_stays_finished(g@, state@, st, q, q.len() - 1);
            assert(q[q.len() - 1] == p.last());
        }
    }
    let ghost s1 = state@;
    state.set(i, 2);
    assert(state@ == s1.update(i as int, 2));
    proof {
        assert(search_inv(g@, state@, stack)) by {
            assert forall|x: int| 0 <= x < state@.len() implies (#[trigger] state@[x] == 1 <==> stack.contains(x)) by {
                if x == i {
                    if stack.contains(x) {
                        assert(st.contains(x));
                        assert(s1[x] == 1);
                        let k = choose|k: int| 0 <= k < stack.len() && stack[k] == x;
                        assert(st[k] == x);
                        assert(s0[x] == 1);
                    }
                } else {
                    assert(state@[x] == s1[x]);
                    if st.contains(x) {
                        let k = choose|k: int| 0 <= k < st.len() && st[k] == x;
                        assert(k < stack.len());
                        assert(stack[k] == x);
                    }
                    if stack.contains(x) {
                        let k = choose|k: int| 0 <= k < stack.len() && stack[k] == x;
                        assert(st[k] == x);
                    }
                }
            }
            assert forall|a: int, b: int| #![trigger state@[a], e(a, b)] 0 <= a < state@.len() && state@[a] == 2 && e(a, b) implies state@[b] == 2 by {
                if a == i {
                } else {
                    assert(s1[a] == 2);
                    assert(s1[b] == 2);
                }
            }
            assert forall|a: int| 0 <= a < state@.len() && #[trigger] state@[a] == 2 implies !on_cycle(e, n, a) by {
                if a != i {
                    assert(s1[a] == 2);
                }
            }
            assert forall|k: int| 0 <= k < state@.len() implies #[trigger] state@[k] <= 2 by {
                if k != i {
                    assert(s1[k] <= 2);
                }
            }
            assert forall|k: int| 0 <= k < stack.len() - 1 implies #[trigger] e(stack[k], stack[k + 1]) by {
                assert(st[k] == stack[k]);
                assert(st[k + 1] == stack[k + 1]);
            }
        }
    }
    Ok(())
}

/// Looks for a cycle. `Ok` exactly when the graph is acyclic; `Err(d)`
/// names a node on a cycle.
pub fn find_cycle(g: &Vec<Vec<usize>>) -> (r: Result<(), usize>)
    requires
        adj_in_range(g@),
    ensures
        r is Ok <==> acyclic(adj_edge(g@), g.len() as int),
        r matches Err(d) ==> d < g.len() && on_cycle(adj_edge(g@), g.len() as int, d as int),
        r matches Err(d) ==> first_cycle_report(adj_of(g@)) == Some(d as int),
        r is Ok ==> first_cycle_report(adj_of(g@)) is None,
{
    let n = g.len();
    let mut state: Vec<u8> = Vec::new();
    while state.len() < n
        invariant
            state.len() <= n,
            forall|k: int| 0 <= k < state.len() ==> state@[k] == 0,
        decreases n - state.len(),
    {
        state.push(0);
    }
    let ghost e = adj_edge(g@);
    let ghost empty = Seq::<int>::empty();
    assert(search_inv(g@, state@, empty));
    let ghost a = adj_of(g@);
    assert(state@ =~= Seq::new(g@.len(), |k: int| 0u8));
    let mut k: usize = 0;
    while k < n
        invariant
            n == g.len(),
            e == adj_edge(g@),
            k <= n,
            search_inv(g@, state@, empty),
            empty.len() == 0,
            forall|x: int| 0 <= x < k ==> #[trigger] state@[x] == 2,
            a == adj_of(g@),
            first_cycle_report(a) == scan(a, state@, k as int),
        decreases n - k,
    {
        if state[k] == 0 {
            let ghost before = state@;
            match dfs(g, k, &mut state, Ghost(empty)) {
                Ok(()) => {},
                Err(d) => {
                    proof {
                        assert(!acyclic(e, n as int));
                    }
                    return Err(d);
                },
            }
            assert forall|x: int| 0 <= x < k + 1 implies #[trigger] state@[x] == 2 by {
                if x < k {
                    assert(before[x] == 2);
                    if state@[x] != before[x] {
                    }
                }
            }
        } else {
            assert(state@[k as int] != 1) by {
                assert(!empty.contains(k as int));
            }
        }
        k += 1;
    }
    assert forall|i: int| 0 <= i < n implies !on_cycle(e, n as int, i) by {
        assert(state@[i] == 2);
    }
    Ok(())
}


/// Nodes already placed in `layers[0..upto]`.
pub open spec fn scheduled(layers: Seq<Vec<usize>>, upto: int) -> Set<int> {
    Set::new(|i: int| exists|l: int| 0 <= l < upto && #[trigger] layers[l]@.contains(i as usize))
}

/// `i` is not yet placed and every node it has an edge to is placed.
pub open spec fn ready(edge: spec_fn(int, int) -> bool, n: int, done: Set<int>, i: int) -> bool {
    &&& 0 <= i < n
    &&& !done.contains(i)
    &&& forall|j: int| #[trigger] edge(i, j) ==> done.contains(j)
}

/// The ready nodes among `0..k`, in increasing order.
pub open spec fn ready_upto(edge: spec_fn(int, int) -> bool, n: int, done: Set<int>, k: int) -> Seq<usize>
    decreases k,
{
    if k <= 0 {
        seq![]
    } else if ready(edge, n, done, k - 1) {
        ready_upto(edge, n, done, k - 1).push((k - 1) as usize)
    } else {
        ready_upto(edge, n, done, k - 1)
    }
}

/// The next wave after `done`: every ready node, in index order.
pub open spec fn next_layer(edge: spec_fn(int, int) -> bool, n: int, done: Set<int>) -> Seq<usize> {
    ready_upto(edge, n, done, n)
}

/// `layers` is the wave decomposition of `g`: each wave is exactly the
/// nodes that became ready after the earlier waves, no wave is empty, and
/// after the last wave nothing further is ready.
pub open spec fn is_layering(edge: spec_fn(int, int) -> bool, n: int, layers: Seq<Vec<usize>>) -> bool {
    &&& forall|l: int| 0 <= l < layers.len() ==> #[trigger] layers[l]@ == next_layer(edge, n, scheduled(layers, l))
    &&& forall|l: int| 0 <= l < layers.len() ==> #[trigger] layers[l]@.len() > 0
    &&& next_layer(edge, n, scheduled(layers, layers.len() as int)).len() == 0
}

proof fn lemma_ready_upto(edge: spec_fn(int, int) -> bool, n: int, done: Set<int>, k: int)
    requires
        0 <= k <= n,
        n <= usize::MAX,
    ensures
        forall|m: int| #![trigger ready_upto(edge, n, done, k)[m]] 0 <= m < ready_upto(edge, n, done, k).len() ==> ready(edge, n, done, ready_upto(edge, n, done, k)[m] as int)
            && ready_upto(edge, n, done, k)[m] < k,
        forall|i: int| 0 <= i < k && ready(edge, n, done, i) ==> #[trigger] ready_upto(edge, n, done, k).contains(i as usize),
        forall|a: int, b: int| 0 <= a < b < ready_upto(edge, n, done, k).len() ==> ready_upto(edge, n, done, k)[a] < ready_upto(edge, n, done, k)[b],
    decreases k,
{
    if k > 0 {
        lemma_ready_upto(edge, n, done, k - 1);
        let prev = ready_upto(edge, n, done, k - 1);
        if ready(edge, n, done, k - 1) {
            let cur = prev.push((k - 1) as usize);
            assert(cur[cur.len() - 1] as int == k - 1);
            assert forall|m: int| #![trigger cur[m]] 0 <= m < cur.len() implies ready(edge, n, done, cur[m] as int) && cur[m] < k by {
                if m < cur.len() - 1 {
                    assert(cur[m] == prev[m]);
                    assert(ready(edge, n, done, prev[m] as int) && prev[m] < k - 1);
                }
            }
            assert forall|a: int, b: int| 0 <= a < b < cur.len() implies cur[a] < cur[b] by {
                assert(ready(edge, n, done, prev[a] as int) && prev[a] < k - 1);
                if b < cur.len() - 1 {
                    assert(prev[a] < prev[b]);
                }
            }
            assert forall|i: int| 0 <= i < k && ready(edge, n, done, i) implies #[trigger] cur.contains(i as usize) by {
                if i < k - 1 {
                    assert(prev.contains(i as usize));
                    let m = choose|m: int| 0 <= m < prev.len() && prev[m] == i as usize;
                    assert(cur[m] == i as usize);
                } else {
                    assert(cur[cur.len() - 1] == i as usize);
                }
            }
        }
    }
}

fn ready_nodes(g: &Vec<Vec<usize>>, done: &Vec<bool>, Ghost(dset): Ghost<Set<int>>) -> (r: Vec<usize>)
    requires
        done.len() == g.len(),
        forall|i: int| 0 <= i < g.len() ==> (#[trigger] done@[i] <==> dset.contains(i)),
        adj_in_range(g@),
    ensures
        r@ == next_layer(adj_edge(g@), g.len() as int, dset),
{
    let n = g.len();
    let mut out: Vec<usize> = Vec::new();
    let mut i: usize = 0;
    while i < n
        invariant
            n == g.len(),
            done.len() == n,
            i <= n,
            adj_in_range(g@),
            forall|x: int| 0 <= x < g.len() ==> (#[trigger] done@[x] <==> dset.contains(x)),
            out@ == ready_upto(adj_edge(g@), n as int, dset, i as int),
        decreases n - i,
    {
        if !done[i] {
            let deg = g[i].len();
            let mut all = true;
            let mut d: usize = 0;
            while d < deg
                invariant
                    n == g.len(),
                    i < n,
                    done.len() == n,
                    deg == g@[i as int]@.len(),
                    d <= deg,
                    adj_in_range(g@),
                    forall|x: int| 0 <= x < g.len() ==> (#[trigger] done@[x] <==> dset.contains(x)),
                    all == (forall|k: int| 0 <= k < d ==> dset.contains(#[trigger] g@[i as int]@[k] as int)),
                decreases deg - d,
            {
                let t = g[i][d];
                assert(g@[i as int]@[d as int] < g.len());
                if !done[t] {
                    all = false;
                }
                d += 1;
            }
            proof {
                assert(all == ready(adj_edge(g@), n as int, dset, i as int)) by {
                    if all {
                        assert forall|j: int| #[trigger] adj_edge(g@)(i as int, j) implies dset.contains(j) by {
                            let k = choose|k: int| 0 <= k < g@[i as int]@.len() && g@[i as int]@[k] == j as usize;
                            assert(dset.contains(g@[i as int]@[k] as int));
                        }
                    } else {
                        let k = choose|k: int| 0 <= k < deg && !dset.contains(#[trigger] g@[i as int]@[k] as int);
                        let j = g@[i as int]@[k] as int;
                        assert(g@[i as int]@[k] < g.len());
                        assert(g@[i as int]@.contains(j as usize));
                        assert(adj_edge(g@)(i as int, j));
                    }
                }
            }
            if all {
                out.push(i);
            }
        }
        i += 1;
    }
    out
}

/// Number of `false` entries.
pub open spec fn count_false(s: Seq<bool>) -> nat
    decreases s.len(),
{
    if s.len() == 0 {
        0
    } else {
        count_false(s.drop_last()) + if !s.last() { 1nat } else { 0nat }
    }
}

proof fn lemma_count_false_set(a: Seq<bool>, i: int)
    requires
        0 <= i < a.len(),
        !a[i],
    ensures
        count_false(a.update(i, true)) + 1 == count_false(a),
    decreases a.len(),
{
    let b = a.update(i, true);
    if i == a.len() - 1 {
        assert(b.drop_last() =~= a.drop_last());
    } else {
        lemma_count_false_set(a.drop_last(), i);
        assert(b.drop_last() =~= a.drop_last().update(i, true));
    }
}

proof fn lemma_count_false_zero(a: Seq<bool>, i: int)
    requires
        0 <= i < a.len(),
        count_false(a) == 0,
    ensures
        a[i],
    decreases a.len(),
{
    if i < a.len() - 1 {
        lemma_count_false_zero(a.drop_last(), i);
    }
}

/// Splits the nodes into waves: each wave holds every not-yet-placed node
/// whose dependencies are all placed, in index order. Stops when every node
/// is placed or no node is ready.
pub fn layers_of(g: &Vec<Vec<usize>>) -> (r: Vec<Vec<usize>>)
    requires
        adj_in_range(g@),
    ensures
        is_layering(adj_edge(g@), g.len() as int, r@),
{
    let n = g.len();
    let mut done: Vec<bool> = Vec::new();
    while done.len() < n
        invariant
            done.len() <= n,
            forall|k: int| 0 <= k < done.len() ==> !done@[k],
            count_false(done@) == done.len(),
        decreases n - done.len(),
    {
        let ghost d0 = done@;
        done.push(false);
        assert(done@.drop_last() == d0);
    }
    let mut remaining: usize = n;
    let mut layers: Vec<Vec<usize>> = Vec::new();
    let mut stuck = false;
    assert forall|i: int| 0 <= i < g.len() implies (#[trigger] done@[i] <==> scheduled(layers@, 0).contains(i)) by {}
    while remaining > 0 && !stuck
        invariant
            n == g.len(),
            done.len() == n,
            adj_in_range(g@),
            remaining == count_false(done@),
            forall|i: int| 0 <= i < g.len() ==> (#[trigger] done@[i] <==> scheduled(layers@, layers@.len() as int).contains(i)),
            forall|l: int| 0 <= l < layers.len() ==> #[trigger] layers@[l]@ == next_layer(adj_edge(g@), n as int, scheduled(layers@, l)),
            forall|l: int| 0 <= l < layers.len() ==> #[trigger] layers@[l]@.len() > 0,
            stuck ==> next_layer(adj_edge(g@), n as int, scheduled(layers@, layers@.len() as int)).len() == 0,
        decreases remaining, if stuck { 0int } else { 1int },
    {
        let ghost dset = scheduled(layers@, layers@.len() as int);
        let layer = ready_nodes(g, &done, Ghost(dset));
        if layer.len() == 0 {
            stuck = true;
        } else {
            proof {
                lemma_ready_upto(adj_edge(g@), n as int, dset, n as int);
            }
            let ghost rem0 = remaining;
            let mut k: usize = 0;
            while k < layer.len()
                invariant
                    remaining + k == rem0,
                    n == g.len(),
                    done.len() == n,
                    k <= layer.len(),
                    layer@ == next_layer(adj_edge(g@), n as int, dset),
                    forall|m: int| 0 <= m < layer@.len() ==> #[trigger] ready(adj_edge(g@), n as int, dset, layer@[m] as int) && layer@[m] < n,
                    forall|a: int, b: int| 0 <= a < b < layer@.len() ==> layer@[a] < layer@[b],
                    remaining == count_false(done@),
                    forall|i: int| 0 <= i < g.len() ==> (#[trigger] done@[i] <==> (dset.contains(i) || layer@.take(k as int).contains(i as usize))),
                decreases layer.len() - k,
            {
                let x = layer[k];
                assert(ready(adj_edge(g@), n as int, dset, x as int));
                assert(!done@[x as int]) by {
                    if layer@.take(k as int).contains(x) {
                        let m = choose|m: int| 0 <= m < k && layer@.take(k as int)[m] == x;
                        assert(layer@[m] < layer@[k as int]);
                    }
                }
                proof {
                    lemma_count_false_set(done@, x as int);
                }
                done.set(x, true);
                remaining = remaining - 1;
                let ghost t0 = layer@.take(k as int);
                let ghost t1 = layer@.take(k + 1);
                assert forall|i: int| 0 <= i < g.len() implies (#[trigger] done@[i] <==> (dset.contains(i) || t1.contains(i as usize))) by {
                    if t0.contains(i as usize) {
                        let m = choose|m: int| 0 <= m < t0.len() && t0[m] == i as usize;
                        assert(t1[m] == i as usize);
                    }
                    if t1.contains(i as usize) {
                        let m = choose|m: int| 0 <= m < t1.len() && t1[m] == i as usize;
                        if m < k {
                            assert(t0[m] == i as usize);
                        }
                    }
                    assert(t1[k as int] == x);
                }
                k += 1;
            }
            let ghost old_layers = layers@;
            layers.push(layer);
            proof {
                assert(layer@.take(layer@.len() as int) =~= layer@);
                assert forall|l: int| 0 <= l <= old_layers.len() implies #[trigger] scheduled(layers@, l) == scheduled(old_layers, l)
                    || l == old_layers.len() + 1 by {
                    assert(scheduled(layers@, l) =~= scheduled(old_layers, l)) by {
                        assert forall|i: int| scheduled(layers@, l).contains(i) <==> scheduled(old_layers, l).contains(i) by {
                            if scheduled(layers@, l).contains(i) {
                                let w = choose|w: int| 0 <= w < l && #[trigger] layers@[w]@.contains(i as usize);
                                assert(old_layers[w]@.contains(i as usize));
                            }
                            if scheduled(old_layers, l).contains(i) {
                                let w = choose|w: int| 0 <= w < l && #[trigger] old_layers[w]@.contains(i as usize);
                                assert(layers@[w]@.contains(i as usize));
                            }
                        }
                    }
                }
                assert forall|i: int| 0 <= i < g.len() implies (#[trigger] done@[i] <==> scheduled(layers@, layers@.len() as int).contains(i)) by {
                    let top = layers@.len() as int;
                    if done@[i] {
                        if dset.contains(i) {
                            let w = choose|w: int| 0 <= w < old_layers.len() && #[trigger] old_layers[w]@.contains(i as usize);
                            assert(layers@[w]@.contains(i as usize));
                        } else {
                            assert(layers@[top - 1]@.contains(i as usize));
                        }
                    }
                    if scheduled(layers@, top).contains(i) {
                        let w = choose|w: int| 0 <= w < top && #[trigger] layers@[w]@.contains(i as usize);
                        if w < top - 1 {
                            assert(old_layers[w]@.contains(i as usize));
                            assert(dset.contains(i));
                        }
                    }
                }
                assert forall|l: int| 0 <= l < layers.len() implies #[trigger] layers@[l]@ == next_layer(adj_edge(g@), n as int, scheduled(layers@, l)) by {
                    if l < old_layers.len() {
                        assert(layers@[l] == old_layers[l]);
                    }
                }
                assert forall|l: int| 0 <= l < layers.len() implies #[trigger] layers@[l]@.len() > 0 by {
                    if l < old_layers.len() {
                        assert(layers@[l] == old_layers[l]);
                    }
                }
            }
        }
    }
    proof {
        if !stuck {
            let dset = scheduled(layers@, layers@.len() as int);
            assert forall|i: int| 0 <= i < g.len() implies dset.contains(i) by {
                lemma_count_false_zero(done@, i);
            }
            lemma_ready_upto(adj_edge(g@), n as int, dset, n as int);
            let nl = next_layer(adj_edge(g@), n as int, dset);
            if nl.len() > 0 {
                assert(ready(adj_edge(g@), n as int, dset, nl[0] as int));
            }
        }
    }
    layers
}


/// A sequence of integers below `n` longer than `n` repeats a value.
proof fn lemma_pigeonhole(w: Seq<int>, n: int)
    requires
        n >= 0,
        w.len() > n,
        forall|k: int| 0 <= k < w.len() ==> 0 <= #[trigger] w[k] < n,
    ensures
        exists|a: int, b: int| 0 <= a < b < w.len() && w[a] == w[b],
{
    if w.no_duplicates() {
        w.unique_seq_to_set();
        vstd::set_lib::lemma_int_range(0, n);
        assert(w.to_set().subset_of(vstd::set_lib::set_int_range(0, n))) by {
            assert forall|x: int| w.to_set().contains(x) implies vstd::set_lib::set_int_range(0, n).contains(x) by {
                let k = choose|k: int| 0 <= k < w.len() && w[k] == x;
                assert(0 <= w[k] < n);
            }
        }
        vstd::set_lib::lemma_len_subset(w.to_set(), vstd::set_lib::set_int_range(0, n));
    }
}

/// Following edges to unplaced nodes from an unplaced node.
spec fn descend(edge: spec_fn(int, int) -> bool, done: Set<int>, u: int, k: nat) -> int
    decreases k,
{
    if k == 0 {
        u
    } else {
        let p = descend(edge, done, u, (k - 1) as nat);
        choose|j: int| #[trigger] edge(p, j) && !done.contains(j)
    }
}

/// The edge relation only links nodes below `n`.
pub open spec fn edges_in_range(edge: spec_fn(int, int) -> bool, n: int) -> bool {
    forall|i: int, j: int| #[trigger] edge(i, j) ==> 0 <= i < n && 0 <= j < n
}

proof fn lemma_descend(edge: spec_fn(int, int) -> bool, n: int, done: Set<int>, u: int, k: nat)
    requires
        edges_in_range(edge, n),
        0 <= u < n,
        !done.contains(u),
        forall|i: int| 0 <= i < n ==> !ready(edge, n, done, i),
    ensures
        0 <= descend(edge, done, u, k) < n,
        !done.contains(descend(edge, done, u, k)),
        edge(descend(edge, done, u, k), descend(edge, done, u, k + 1)),
        0 <= descend(edge, done, u, k + 1) < n,
        !done.contains(descend(edge, done, u, k + 1)),
    decreases k,
{
    if k > 0 {
        lemma_descend(edge, n, done, u, (k - 1) as nat);
    }
    let p = descend(edge, done, u, k);
    assert(!ready(edge, n, done, p));
    assert(exists|j: int| #[trigger] edge(p, j) && !done.contains(j));
    let j = choose|j: int| #[trigger] edge(p, j) && !done.contains(j);
    assert(descend(edge, done, u, k + 1) == j);
}

/// In an acyclic graph the waves place every node.
pub proof fn lemma_layering_complete(edge: spec_fn(int, int) -> bool, n: int, layers: Seq<Vec<usize>>)
    requires
        edges_in_range(edge, n),
        0 <= n <= usize::MAX,
        is_layering(edge, n, layers),
        acyclic(edge, n),
    ensures
        forall|i: int| 0 <= i < n ==> #[trigger] scheduled(layers, layers.len() as int).contains(i),
{
    let done = scheduled(layers, layers.len() as int);
    assert forall|i: int| 0 <= i < n implies #[trigger] done.contains(i) by {
        if !done.contains(i) {
            lemma_ready_upto(edge, n, done, n);
            assert forall|x: int| 0 <= x < n implies !ready(edge, n, done, x) by {
                if ready(edge, n, done, x) {
                    assert(next_layer(edge, n, done).contains(x as usize));
                }
            }
            let w = Seq::new((n + 1) as nat, |k: int| descend(edge, done, i, k as nat));
            assert forall|k: int| 0 <= k < w.len() implies 0 <= #[trigger] w[k] < n by {
                lemma_descend(edge, n, done, i, k as nat);
            }
            lemma_pigeonhole(w, n);
            let (a, b) = choose|a: int, b: int| 0 <= a < b < w.len() && w[a] == w[b];
            let p = w.subrange(a, b + 1);
            assert(is_walk(edge, n, p)) by {
                assert forall|m: int| 0 <= m < p.len() implies 0 <= #[trigger] p[m] < n by {
                    assert(p[m] == w[a + m]);
                }
                assert forall|m: int| 0 <= m < p.len() - 1 implies #[trigger] edge(p[m], p[m + 1]) by {
                    lemma_descend(edge, n, done, i, (a + m) as nat);
                    assert(p[m] == w[a + m]);
                    assert(p[m + 1] == w[a + m + 1]);
                }
            }
            assert(on_cycle(edge, n, w[a]));
        }
    }
}

/// Every node a wave-`l` node has an edge to was placed in an earlier wave,
/// the node itself was not, and no wave lists a node twice.
pub proof fn lemma_layering_order(edge: spec_fn(int, int) -> bool, n: int, layers: Seq<Vec<usize>>, l: int, m: int)
    requires
        0 <= n <= usize::MAX,
        is_layering(edge, n, layers),
        0 <= l < layers.len(),
        0 <= m < layers[l]@.len(),
    ensures
        forall|j: int| #[trigger] edge(layers[l]@[m] as int, j) ==> scheduled(layers, l).contains(j),
        !scheduled(layers, l).contains(layers[l]@[m] as int),
        layers[l]@[m] < n,
        forall|m2: int| 0 <= m2 < layers[l]@.len() && m2 != m ==> layers[l]@[m2] != layers[l]@[m],
{
    let done = scheduled(layers, l);
    lemma_ready_upto(edge, n, done, n);
    assert(layers[l]@ == next_layer(edge, n, done));
    assert(ready(edge, n, done, layers[l]@[m] as int));
    assert forall|m2: int| 0 <= m2 < layers[l]@.len() && m2 != m implies layers[l]@[m2] != layers[l]@[m] by {
        if m2 < m {
            assert(layers[l]@[m2] < layers[l]@[m]);
        } else {
            assert(layers[l]@[m] < layers[l]@[m2]);
        }
    }
}


/// `x` has an edge to some node of `layer`.
pub open spec fn has_edge_into(edge: spec_fn(int, int) -> bool, x: int, layer: Seq<usize>) -> bool {
    exists|j: int| #[trigger] edge(x, j) && layer.contains(j as usize)
}

/// Each wave lists its nodes in increasing order, and puts each node in its
/// earliest possible wave: a node of any wave after the first has an edge
/// to some node of the wave just before it.
pub proof fn lemma_waves_ascending_and_earliest(edge: spec_fn(int, int) -> bool, n: int, layers: Seq<Vec<usize>>, l: int)
    requires
        0 <= n <= usize::MAX,
        is_layering(edge, n, layers),
        0 <= l < layers.len(),
    ensures
        forall|a: int, b: int| 0 <= a < b < layers[l]@.len() ==> layers[l]@[a] < layers[l]@[b],
        l > 0 ==> forall|m: int| 0 <= m < layers[l]@.len() ==> has_edge_into(edge, #[trigger] layers[l]@[m] as int, layers[l - 1]@),
{
    let done = scheduled(layers, l);
    lemma_ready_upto(edge, n, done, n);
    assert(layers[l]@ == next_layer(edge, n, done));
    if l > 0 {
        let prev = scheduled(layers, l - 1);
        lemma_ready_upto(edge, n, prev, n);
        assert(layers[l - 1]@ == next_layer(edge, n, prev));
        assert forall|m: int| 0 <= m < layers[l]@.len() implies has_edge_into(edge, #[trigger] layers[l]@[m] as int, layers[l - 1]@) by {
            let x = layers[l]@[m] as int;
            assert(ready(edge, n, done, x));
            if !has_edge_into(edge, x, layers[l - 1]@) {
                assert forall|j: int| #[trigger] edge(x, j) implies prev.contains(j) by {
                    assert(done.contains(j));
                    let l2 = choose|l2: int| 0 <= l2 < l && #[trigger] layers[l2]@.contains(j as usize);
                    assert(l2 != l - 1);
                }
                assert(!prev.contains(x)) by {
                    if prev.contains(x) {
                        let l2 = choose|l2: int| 0 <= l2 < l - 1 && #[trigger] layers[l2]@.contains(x as usize);
                        assert(done.contains(x));
                    }
                }
                assert(ready(edge, n, prev, x));
                assert(layers[l - 1]@.contains(x as usize));
                assert(done.contains(x));
            }
        }
    }
}

/// The waves, one after the other.
pub open spec fn flattened(layers: Seq<Vec<usize>>) -> Seq<usize> {
    layers.map_values(|l: Vec<usize>| l@).flatten()
}

proof fn lemma_flattened_prefix(edge: spec_fn(int, int) -> bool, n: int, layers: Seq<Vec<usize>>, upto: int)
    requires
        0 <= n <= usize::MAX,
        is_layering(edge, n, layers),
        0 <= upto <= layers.len(),
    ensures
        flattened(layers.take(upto)).no_duplicates(),
        forall|x: usize| #[trigger] flattened(layers.take(upto)).contains(x) <==> scheduled(layers, upto).contains(x as int),
        forall|k: int| 0 <= k < flattened(layers.take(upto)).len() ==> #[trigger] flattened(layers.take(upto))[k] < n,
    decreases upto,
{
    if upto == 0 {
        assert(layers.take(0).map_values(|l: Vec<usize>| l@) =~= Seq::<Seq<usize>>::empty());
        assert(flattened(layers.take(0)) =~= Seq::<usize>::empty());
    } else {
        let l = upto - 1;
        lemma_flattened_prefix(edge, n, layers, l);
        let pre = layers.take(l).map_values(|v: Vec<usize>| v@);
        let wave = layers[l]@;
        assert(layers.take(upto).map_values(|v: Vec<usize>| v@) =~= pre.push(wave));
        pre.lemma_flatten_push(wave);
        let a = flattened(layers.take(l));
        let whole = flattened(layers.take(upto));
        assert(whole == a + wave);
        assert forall|m: int| 0 <= m < wave.len() implies !scheduled(layers, l).contains(#[trigger] wave[m] as int)
            && wave[m] < n by {
            lemma_layering_order(edge, n, layers, l, m);
        }
        assert(whole.no_duplicates()) by {
            assert forall|i: int, j: int| 0 <= i < whole.len() && 0 <= j < whole.len() && i != j implies whole[i]
                != whole[j] by {
                if i < a.len() && j < a.len() {
                    assert(whole[i] == a[i] && whole[j] == a[j]);
                } else if i >= a.len() && j >= a.len() {
                    assert(whole[i] == wave[i - a.len()] && whole[j] == wave[j - a.len()]);
                    lemma_layering_order(edge, n, layers, l, i - a.len());
                } else if i < a.len() {
                    assert(a.contains(whole[i]));
                    assert(whole[j] == wave[j - a.len()]);
                } else {
                    assert(a.contains(whole[j]));
                    assert(whole[i] == wave[i - a.len()]);
                }
            }
        }
        assert forall|x: usize| #[trigger] whole.contains(x) <==> scheduled(layers, upto).contains(x as int) by {
            if whole.contains(x) {
                let k = choose|k: int| 0 <= k < whole.len() && whole[k] == x;
                if k < a.len() {
                    assert(a[k] == x);
                    assert(a.contains(x));
                    let w = choose|w: int| 0 <= w < l && #[trigger] layers[w]@.contains(x);
                    assert(layers[w]@.contains(x));
                } else {
                    assert(wave[k - a.len()] == x);
                    assert(layers[l]@.contains(x));
                }
            }
            if scheduled(layers, upto).contains(x as int) {
                let w = choose|w: int| 0 <= w < upto && #[trigger] layers[w]@.contains(x as int as usize);
                if w < l {
                    assert(scheduled(layers, l).contains(x as int));
                    assert(a.contains(x));
                    let k = choose|k: int| 0 <= k < a.len() && a[k] == x;
                    assert(whole[k] == x);
                } else {
                    let k = choose|k: int| 0 <= k < wave.len() && wave[k] == x;
                    assert(whole[a.len() + k] == x);
                }
            }
        }
        assert forall|k: int| 0 <= k < whole.len() implies #[trigger] whole[k] < n by {
            if k < a.len() {
                assert(whole[k] == a[k]);
            } else {
                assert(whole[k] == wave[k - a.len()]);
            }
        }
    }
}

proof fn lemma_prefix_respects_edges(edge: spec_fn(int, int) -> bool, n: int, layers: Seq<Vec<usize>>, upto: int)
    requires
        0 <= n <= usize::MAX,
        is_layering(edge, n, layers),
        0 <= upto <= layers.len(),
    ensures
        forall|k: int, j: int|
            0 <= k < flattened(layers.take(upto)).len() && #[trigger] edge(flattened(layers.take(upto))[k] as int, j)
                ==> exists|k2: int| 0 <= k2 < k && #[trigger] flattened(layers.take(upto))[k2] == j as usize,
    decreases upto,
{
    if upto == 0 {
        assert(layers.take(0).map_values(|l: Vec<usize>| l@) =~= Seq::<Seq<usize>>::empty());
        assert(flattened(layers.take(0)) =~= Seq::<usize>::empty());
    } else {
        let l = upto - 1;
        lemma_prefix_respects_edges(edge, n, layers, l);
        lemma_flattened_prefix(edge, n, layers, l);
        let pre = layers.take(l).map_values(|v: Vec<usize>| v@);
        let wave = layers[l]@;
        assert(layers.take(upto).map_values(|v: Vec<usize>| v@) =~= pre.push(wave));
        pre.lemma_flatten_push(wave);
        let a = flattened(layers.take(l));
        let whole = flattened(layers.take(upto));
        assert(whole == a + wave);
        assert forall|k: int, j: int| 0 <= k < whole.len() && #[trigger] edge(whole[k] as int, j) implies exists|k2: int|
            0 <= k2 < k && #[trigger] whole[k2] == j as usize by {
            if k < a.len() {
                assert(whole[k] == a[k]);
                assert(edge(a[k] as int, j));
                let k2 = choose|k2: int| 0 <= k2 < k && #[trigger] a[k2] == j as usize;
                assert(whole[k2] == a[k2]);
            } else {
                let m = k - a.len();
                assert(whole[k] == wave[m]);
                lemma_layering_order(edge, n, layers, l, m);
                assert(scheduled(layers, l).contains(j));
                let w = choose|w: int| 0 <= w < l && #[trigger] layers[w]@.contains(j as usize);
                assert(scheduled(layers, l).contains((j as usize) as int)) by {
                    assert(layers[w]@.contains(((j as usize) as int) as usize));
                }
                assert(a.contains(j as usize));
                let k2 = choose|k2: int| 0 <= k2 < a.len() && a[k2] == j as usize;
                assert(whole[k2] == a[k2]);
            }
        }
    }
}

/// The waves, one after the other, put every node after each node it has
/// an edge to.
pub proof fn lemma_waves_respect_edges(edge: spec_fn(int, int) -> bool, n: int, layers: Seq<Vec<usize>>)
    requires
        0 <= n <= usize::MAX,
        is_layering(edge, n, layers),
    ensures
        forall|k: int, j: int| 0 <= k < flattened(layers).len() && #[trigger] edge(flattened(layers)[k] as int, j)
            ==> exists|k2: int| 0 <= k2 < k && #[trigger] flattened(layers)[k2] == j as usize,
{
    lemma_prefix_respects_edges(edge, n, layers, layers.len() as int);
    assert(layers.take(layers.len() as int) =~= layers);
}

/// In an acyclic graph the waves, one after the other, list every node
/// exactly once.
pub proof fn lemma_waves_cover_each_node_once(edge: spec_fn(int, int) -> bool, n: int, layers: Seq<Vec<usize>>)
    requires
        edges_in_range(edge, n),
        0 <= n <= usize::MAX,
        is_layering(edge, n, layers),
        acyclic(edge, n),
    ensures
        flattened(layers).no_duplicates(),
        flattened(layers).len() == n,
        forall|i: int| 0 <= i < n ==> #[trigger] flattened(layers).contains(i as usize),
        forall|k: int| 0 <= k < n ==> #[trigger] flattened(layers)[k] < n,
{
    lemma_flattened_prefix(edge, n, layers, layers.len() as int);
    lemma_layering_complete(edge, n, layers);
    assert(layers.take(layers.len() as int) =~= layers);
    let flat = flattened(layers);
    assert forall|i: int| 0 <= i < n implies #[trigger] flat.contains(i as usize) by {
        assert(scheduled(layers, layers.len() as int).contains(i));
        assert((i as usize) as int == i);
    }
    let ints = flat.map_values(|x: usize| x as int);
    assert(ints.no_duplicates()) by {
        assert forall|i: int, j: int| 0 <= i < ints.len() && 0 <= j < ints.len() && i != j implies ints[i] != ints[j] by {
            assert(flat[i] != flat[j]);
        }
    }
    assert(ints.to_set() =~= vstd::set_lib::set_int_range(0, n)) by {
        assert forall|v: int| ints.to_set().contains(v) implies vstd::set_lib::set_int_range(0, n).contains(v) by {
            let k = choose|k: int| 0 <= k < ints.len() && ints[k] == v;
            assert(flat[k] < n);
        }
        assert forall|v: int| vstd::set_lib::set_int_range(0, n).contains(v) implies ints.to_set().contains(v) by {
            assert(flat.contains(v as usize));
            let k = choose|k: int| 0 <= k < flat.len() && flat[k] == v as usize;
            assert(ints[k] == v);
        }
    }
    ints.unique_seq_to_set();
    vstd::set_lib::lemma_int_range(0, n);
}

} // verus!
