//! DAG pattern types and validation: empty input, missing or duplicate
//! names, missing dependencies, per-node input validation, and cycles.
use vstd::prelude::*;

use crate::error::{error_text, fails_with, Error};
use crate::graph::{
    acyclic, adj_edge, adj_in_range, adj_of, edges_in_range, find_cycle, first_cycle_report, flattened, has_edge_into, is_layering,
    layers_of, on_cycle, scheduled,
};
use crate::strmap::StringMap;
use crate::text::str_eq;
use crate::traits::{TaskInput, TaskOutput};

verus! {

broadcast use vstd::string::group_string_axioms;

/// A single node in a DAG.
#[derive(Debug, Clone)]
pub struct DAGNode<I> {
    /// Unique node name within the DAG.
    pub name: String,
    /// Activity input.
    pub input: I,
    /// Names of nodes this one depends on. Empty for root nodes.
    pub dependencies: Vec<String>,
}

/// Input to the DAG pattern.
#[derive(Debug, Clone)]
pub struct DAGInput<I> {
    /// Nodes. Must be non-empty.
    pub nodes: Vec<DAGNode<I>>,
    /// Abort on the first failing node (in dependency order).
    pub fail_fast: bool,
    /// Reserved for a future parallelism cap; not enforced.
    pub max_parallel: u32,
}

/// The node names, in order.
pub open spec fn node_names<I>(nodes: Seq<DAGNode<I>>) -> Seq<Seq<char>> {
    nodes.map_values(|n: DAGNode<I>| n.name@)
}

/// The dependency names of a node, in order.
pub open spec fn dep_names<I>(node: DAGNode<I>) -> Seq<Seq<char>> {
    node.dependencies@.map_values(|d: String| d@)
}

/// `i -> j` when node `i` names node `j` as a dependency.
pub open spec fn dep_edge<I>(nodes: Seq<DAGNode<I>>) -> spec_fn(int, int) -> bool {
    |i: int, j: int| 0 <= i < nodes.len() && 0 <= j < nodes.len() && dep_names(nodes[i]).contains(nodes[j].name@)
}

/// The dependency lists as node positions, in each node's dependency order.
pub open spec fn dep_graph<I>(nodes: Seq<DAGNode<I>>) -> Seq<Seq<usize>> {
    Seq::new(
        nodes.len(),
        |i: int| Seq::new(dep_names(nodes[i]).len(), |d: int| node_names(nodes).index_of(dep_names(nodes[i])[d]) as usize),
    )
}

pub open spec fn msg_empty_dag() -> Seq<char> {
    "DAG must contain at least one node"@
}

pub open spec fn msg_name_required() -> Seq<char> {
    "DAG node name is required"@
}

pub open spec fn msg_duplicate(name: Seq<char>) -> Seq<char> {
    "duplicate DAG node name: "@ + name
}

pub open spec fn msg_missing(owner: Seq<char>, dep: Seq<char>) -> Seq<char> {
    "node '"@ + owner + "' depends on missing node '"@ + dep + "'"@
}

pub open spec fn msg_node_invalid(name: Seq<char>, e: Error) -> Seq<char> {
    "node '"@ + name + "': "@ + error_text(e)
}

pub open spec fn msg_cycle(name: Seq<char>) -> Seq<char> {
    "circular dependency detected involving node '"@ + name + "'"@
}

/// The first naming problem at or after position `k`: an empty name or a
/// name already used by an earlier node.
pub open spec fn names_verdict(names: Seq<Seq<char>>, k: nat) -> Option<Seq<char>>
    decreases names.len() - k,
{
    if k >= names.len() {
        None
    } else if names[k as int].len() == 0 {
        Some(msg_name_required())
    } else if names.take(k as int).contains(names[k as int]) {
        Some(msg_duplicate(names[k as int]))
    } else {
        names_verdict(names, k + 1)
    }
}

/// The first dependency at or after position `d` of `deps` that names no node.
pub open spec fn deps_verdict(names: Seq<Seq<char>>, owner: Seq<char>, deps: Seq<Seq<char>>, d: nat) -> Option<Seq<char>>
    decreases deps.len() - d,
{
    if d >= deps.len() {
        None
    } else if !names.contains(deps[d as int]) {
        Some(msg_missing(owner, deps[d as int]))
    } else {
        deps_verdict(names, owner, deps, d + 1)
    }
}

/// The first missing dependency, scanning nodes from position `i` in order.
pub open spec fn missing_verdict<I>(nodes: Seq<DAGNode<I>>, i: nat) -> Option<Seq<char>>
    decreases nodes.len() - i,
{
    if i >= nodes.len() {
        None
    } else {
        match deps_verdict(node_names(nodes), nodes[i as int].name@, dep_names(nodes[i as int]), 0) {
            Some(m) => Some(m),
            None => missing_verdict(nodes, i + 1),
        }
    }
}

/// The structural problem validation reports first, if any.
pub open spec fn structure_verdict<I>(nodes: Seq<DAGNode<I>>) -> Option<Seq<char>> {
    if nodes.len() == 0 {
        Some(msg_empty_dag())
    } else {
        match names_verdict(node_names(nodes), 0) {
            Some(m) => Some(m),
            None => missing_verdict(nodes, 0),
        }
    }
}

/// The first failing per-node check at or after position `i`.
pub open spec fn checks_verdict(names: Seq<Seq<char>>, checks: Seq<Result<(), Error>>, i: nat) -> Option<Seq<char>>
    decreases checks.len() - i,
{
    if i >= checks.len() {
        None
    } else {
        match checks[i as int] {
            Err(e) => Some(msg_node_invalid(names[i as int], e)),
            Ok(()) => checks_verdict(names, checks, i + 1),
        }
    }
}

/// `r` is what DAG validation reports for `nodes` when node `k`'s own input
/// validation returned `checks[k]`.
pub open spec fn dag_outcome<I>(nodes: Seq<DAGNode<I>>, checks: Seq<Result<(), Error>>, r: Result<(), Error>) -> bool {
    match structure_verdict(nodes) {
        Some(m) => fails_with(r, m),
        None => match checks_verdict(node_names(nodes), checks, 0) {
            Some(m) => fails_with(r, m),
            None => cycle_outcome(nodes, r),
        },
    }
}

/// Names are non-empty and distinct, and every dependency names a node.
pub open spec fn well_named<I>(nodes: Seq<DAGNode<I>>) -> bool {
    &&& forall|k: int| 0 <= k < nodes.len() ==> #[trigger] nodes[k].name@.len() > 0
    &&& forall|a: int, b: int| 0 <= a < b < nodes.len() ==> #[trigger] nodes[a].name@ != #[trigger] nodes[b].name@
    &&& forall|i: int, d: int| 0 <= i < nodes.len() && 0 <= d < dep_names(nodes[i]).len()
        ==> node_names(nodes).contains(#[trigger] dep_names(nodes[i])[d])
}

proof fn lemma_names_verdict_none(names: Seq<Seq<char>>, k: nat)
    requires
        names_verdict(names, k) is None,
    ensures
        forall|m: int| #![trigger names[m]] k <= m < names.len() ==> names[m].len() > 0 && !names.take(m).contains(names[m]),
    decreases names.len() - k,
{
    if k < names.len() {
        lemma_names_verdict_none(names, k + 1);
    }
}

proof fn lemma_deps_verdict_none(names: Seq<Seq<char>>, owner: Seq<char>, deps: Seq<Seq<char>>, d: nat)
    requires
        deps_verdict(names, owner, deps, d) is None,
    ensures
        forall|m: int| d <= m < deps.len() ==> names.contains(#[trigger] deps[m]),
    decreases deps.len() - d,
{
    if d < deps.len() {
        lemma_deps_verdict_none(names, owner, deps, d + 1);
    }
}

proof fn lemma_missing_verdict_none<I>(nodes: Seq<DAGNode<I>>, i: nat)
    requires
        missing_verdict(nodes, i) is None,
    ensures
        forall|m: int, d: int| i <= m < nodes.len() && 0 <= d < dep_names(nodes[m]).len()
            ==> node_names(nodes).contains(#[trigger] dep_names(nodes[m])[d]),
    decreases nodes.len() - i,
{
    if i < nodes.len() {
        lemma_deps_verdict_none(node_names(nodes), nodes[i as int].name@, dep_names(nodes[i as int]), 0);
        lemma_missing_verdict_none(nodes, i + 1);
    }
}

/// No structural problem means the nodes are well named.
pub proof fn lemma_structure_ok<I>(nodes: Seq<DAGNode<I>>)
    requires
        structure_verdict(nodes) is None,
    ensures
        well_named(nodes),
        nodes.len() > 0,
{
    let names = node_names(nodes);
    lemma_names_verdict_none(names, 0);
    lemma_missing_verdict_none(nodes, 0);
    assert forall|k: int| 0 <= k < nodes.len() implies #[trigger] nodes[k].name@.len() > 0 by {
        assert(names[k].len() > 0);
    }
    assert forall|a: int, b: int| 0 <= a < b < nodes.len() implies #[trigger] nodes[a].name@ != #[trigger] nodes[b].name@ by {
        assert(!names.take(b).contains(names[b]));
        assert(names.take(b)[a] == names[a]);
    }
}

proof fn lemma_names_verdict_clear(names: Seq<Seq<char>>, k: nat)
    requires
        forall|m: int| 0 <= m < names.len() ==> #[trigger] names[m].len() > 0,
        forall|a: int, b: int| 0 <= a < b < names.len() ==> #[trigger] names[a] != #[trigger] names[b],
    ensures
        names_verdict(names, k) is None,
    decreases names.len() - k,
{
    if k < names.len() {
        assert(!names.take(k as int).contains(names[k as int])) by {
            if names.take(k as int).contains(names[k as int]) {
                let a = choose|a: int| 0 <= a < k && names.take(k as int)[a] == names[k as int];
                assert(names[a] != names[k as int]);
            }
        }
        lemma_names_verdict_clear(names, k + 1);
    }
}

proof fn lemma_deps_verdict_clear(names: Seq<Seq<char>>, owner: Seq<char>, deps: Seq<Seq<char>>, d: nat)
    requires
        forall|m: int| 0 <= m < deps.len() ==> names.contains(#[trigger] deps[m]),
    ensures
        deps_verdict(names, owner, deps, d) is None,
    decreases deps.len() - d,
{
    if d < deps.len() {
        lemma_deps_verdict_clear(names, owner, deps, d + 1);
    }
}

proof fn lemma_missing_verdict_clear<I>(nodes: Seq<DAGNode<I>>, i: nat)
    requires
        well_named(nodes),
    ensures
        missing_verdict(nodes, i) is None,
    decreases nodes.len() - i,
{
    if i < nodes.len() {
        assert forall|m: int| 0 <= m < dep_names(nodes[i as int]).len() implies node_names(nodes).contains(
            #[trigger] dep_names(nodes[i as int])[m],
        ) by {}
        lemma_deps_verdict_clear(node_names(nodes), nodes[i as int].name@, dep_names(nodes[i as int]), 0);
        lemma_missing_verdict_clear(nodes, i + 1);
    }
}

/// Well-named nodes, at least one of them, have no structural problem.
pub proof fn lemma_well_named_structure_ok<I>(nodes: Seq<DAGNode<I>>)
    requires
        nodes.len() > 0,
        well_named(nodes),
    ensures
        structure_verdict(nodes) is None,
{
    let names = node_names(nodes);
    assert forall|m: int| 0 <= m < names.len() implies #[trigger] names[m].len() > 0 by {
        assert(nodes[m].name@.len() > 0);
    }
    assert forall|a: int, b: int| 0 <= a < b < names.len() implies #[trigger] names[a] != #[trigger] names[b] by {
        assert(nodes[a].name@ != nodes[b].name@);
    }
    lemma_names_verdict_clear(names, 0);
    lemma_missing_verdict_clear(nodes, 0);
}

proof fn lemma_checks_verdict(names: Seq<Seq<char>>, checks: Seq<Result<(), Error>>, i: nat)
    ensures
        checks_verdict(names, checks, i) is None <==> forall|k: int| i <= k < checks.len() ==> #[trigger] checks[k] is Ok,
    decreases checks.len() - i,
{
    if i < checks.len() {
        lemma_checks_verdict(names, checks, i + 1);
        if checks_verdict(names, checks, i) is None {
            assert forall|k: int| i <= k < checks.len() implies #[trigger] checks[k] is Ok by {
                if k > i {
                    assert(checks_verdict(names, checks, (i + 1) as nat) is None);
                }
            }
        }
    }
}

/// Builds `a + b + c`.
fn join3(a: &str, b: &str, c: &str) -> (r: String)
    ensures
        r@ == a@ + b@ + c@,
{
    let mut s = a.to_string();
    s.append(b);
    s.append(c);
    s
}

/// Builds `a + b + c + d`.
fn join4(a: &str, b: &str, c: &str, d: &str) -> (r: String)
    ensures
        r@ == a@ + b@ + c@ + d@,
{
    let mut s = a.to_string();
    s.append(b);
    s.append(c);
    s.append(d);
    s
}

/// Builds `prefix + a + mid + b + suffix`.
fn join5(prefix: &str, a: &str, mid: &str, b: &str, suffix: &str) -> (r: String)
    ensures
        r@ == prefix@ + a@ + mid@ + b@ + suffix@,
{
    let mut s = prefix.to_string();
    s.append(a);
    s.append(mid);
    s.append(b);
    s.append(suffix);
    s
}

fn check_names<I>(nodes: &Vec<DAGNode<I>>) -> (r: Result<(), Error>)
    ensures
        match names_verdict(node_names(nodes@), 0) {
            Some(m) => fails_with(r, m),
            None => r is Ok,
        },
{
    let ghost names = node_names(nodes@);
    let n = nodes.len();
    let mut k: usize = 0;
    while k < n
        invariant
            n == nodes.len(),
            names == node_names(nodes@),
            k <= n,
            names_verdict(names, 0) == names_verdict(names, k as nat),
        decreases n - k,
    {
        let name = nodes[k].name.as_str();
        assert(name@ == names[k as int]);
        if name.unicode_len() == 0 {
            return Err(Error::InvalidInput("DAG node name is required".to_string()));
        }
        let mut j: usize = 0;
        while j < k
            invariant
                n == nodes.len(),
                names == node_names(nodes@),
                k < n,
                j <= k,
                name@ == names[k as int],
                name@.len() > 0,
                names_verdict(names, 0) == names_verdict(names, k as nat),
                forall|x: int| 0 <= x < j ==> names[x] != names[k as int],
            decreases k - j,
        {
            if str_eq(nodes[j].name.as_str(), name) {
                assert(names.take(k as int)[j as int] == names[k as int]);
                assert(names.take(k as int).contains(names[k as int]));
                assert(names[k as int].len() != 0);
                assert(names_verdict(names, k as nat) == Some(msg_duplicate(names[k as int])));
                let mut s = "duplicate DAG node name: ".to_string();
                s.append(name);
                return Err(Error::InvalidInput(s));
            }
            j += 1;
        }
        assert(!names.take(k as int).contains(names[k as int])) by {
            if names.take(k as int).contains(names[k as int]) {
                let x = choose|x: int| 0 <= x < k && names.take(k as int)[x] == names[k as int];
                assert(names[x] == names[k as int]);
            }
        }
        k += 1;
    }
    Ok(())
}

/// Position of the first node named `name`.
fn find_name<I>(nodes: &Vec<DAGNode<I>>, name: &str) -> (r: Option<usize>)
    ensures
        r matches Some(i) ==> i < nodes.len() && nodes@[i as int].name@ == name@,
        r is None ==> !node_names(nodes@).contains(name@),
{
    let mut i: usize = 0;
    while i < nodes.len()
        invariant
            i <= nodes.len(),
            forall|x: int| 0 <= x < i ==> nodes@[x].name@ != name@,
        decreases nodes.len() - i,
    {
        if str_eq(nodes[i].name.as_str(), name) {
            return Some(i);
        }
        i += 1;
    }
    assert(!node_names(nodes@).contains(name@)) by {
        if node_names(nodes@).contains(name@) {
            let x = choose|x: int| 0 <= x < nodes@.len() && node_names(nodes@)[x] == name@;
            assert(nodes@[x].name@ == name@);
        }
    }
    None
}

fn check_dependencies<I>(nodes: &Vec<DAGNode<I>>) -> (r: Result<(), Error>)
    ensures
        match missing_verdict(nodes@, 0) {
            Some(m) => fails_with(r, m),
            None => r is Ok,
        },
{
    let n = nodes.len();
    let mut i: usize = 0;
    while i < n
        invariant
            n == nodes.len(),
            i <= n,
            missing_verdict(nodes@, 0) == missing_verdict(nodes@, i as nat),
        decreases n - i,
    {
        let ghost deps = dep_names(nodes@[i as int]);
        let ghost owner = nodes@[i as int].name@;
        let ghost names = node_names(nodes@);
        let m = nodes[i].dependencies.len();
        let mut d: usize = 0;
        while d < m
            invariant
                n == nodes.len(),
                i < n,
                m == deps.len(),
                deps == dep_names(nodes@[i as int]),
                owner == nodes@[i as int].name@,
                names == node_names(nodes@),
                d <= m,
                deps_verdict(names, owner, deps, 0) == deps_verdict(names, owner, deps, d as nat),
                missing_verdict(nodes@, 0) == missing_verdict(nodes@, i as nat),
            decreases m - d,
        {
            let dep = nodes[i].dependencies[d].as_str();
            assert(dep@ == deps[d as int]);
            let found = find_name(nodes, dep);
            if let Some(x) = found {
                assert(names[x as int] == dep@);
                assert(names.contains(deps[d as int]));
            }
            if found.is_none() {
                let s = join5("node '", nodes[i].name.as_str(), "' depends on missing node '", dep, "'");
                return Err(Error::InvalidInput(s));
            }
            d += 1;
        }
        i += 1;
    }
    Ok(())
}

fn check_structure<I>(nodes: &Vec<DAGNode<I>>) -> (r: Result<(), Error>)
    ensures
        match structure_verdict(nodes@) {
            Some(m) => fails_with(r, m),
            None => r is Ok,
        },
{
    if nodes.len() == 0 {
        return Err(Error::InvalidInput("DAG must contain at least one node".to_string()));
    }
    match check_names(nodes) {
        Err(e) => {
            return Err(e);
        },
        Ok(()) => {},
    }
    check_dependencies(nodes)
}

/// The dependency lists as node positions.
fn dependency_indices<I>(nodes: &Vec<DAGNode<I>>) -> (g: Vec<Vec<usize>>)
    requires
        well_named(nodes@),
    ensures
        g.len() == nodes.len(),
        adj_in_range(g@),
        adj_edge(g@) == dep_edge(nodes@),
        adj_of(g@) == dep_graph(nodes@),
{
    let n = nodes.len();
    let mut g: Vec<Vec<usize>> = Vec::new();
    let mut i: usize = 0;
    while i < n
        invariant
            n == nodes.len(),
            well_named(nodes@),
            i <= n,
            g.len() == i,
            forall|x: int, d: int| 0 <= x < i && 0 <= d < g@[x]@.len() ==> #[trigger] g@[x]@[d] < n,
            forall|x: int| 0 <= x < i ==> #[trigger] g@[x]@.len() == dep_names(nodes@[x]).len(),
            forall|x: int, d: int| 0 <= x < i && 0 <= d < g@[x]@.len() ==> nodes@[#[trigger] g@[x]@[d] as int].name@ == dep_names(nodes@[x])[d],
        decreases n - i,
    {
        let m = nodes[i].dependencies.len();
        let mut row: Vec<usize> = Vec::new();
        let mut d: usize = 0;
        while d < m
            invariant
                n == nodes.len(),
                well_named(nodes@),
                i < n,
                m == dep_names(nodes@[i as int]).len(),
                d <= m,
                row.len() == d,
                forall|k: int| 0 <= k < d ==> #[trigger] row@[k] < n,
                forall|k: int| 0 <= k < d ==> nodes@[#[trigger] row@[k] as int].name@ == dep_names(nodes@[i as int])[k],
            decreases m - d,
        {
            let dep = nodes[i].dependencies[d].as_str();
            assert(dep@ == dep_names(nodes@[i as int])[d as int]);
            assert(node_names(nodes@).contains(dep_names(nodes@[i as int])[d as int]));
            let found = find_name(nodes, dep);
            let idx = match found {
                Some(x) => x,
                None => 0,
            };
            assert(found is Some);
            row.push(idx);
            d += 1;
        }
        g.push(row);
        i += 1;
    }
    proof {
        assert forall|i: int, j: int| #[trigger] adj_edge(g@)(i, j) == dep_edge(nodes@)(i, j) by {
            if 0 <= i < n && 0 <= j < n {
                if g@[i]@.contains(j as usize) {
                    let d = choose|d: int| 0 <= d < g@[i]@.len() && g@[i]@[d] == j as usize;
                    assert(nodes@[g@[i]@[d] as int].name@ == dep_names(nodes@[i])[d]);
                    assert(dep_names(nodes@[i]).contains(nodes@[j].name@));
                }
                if dep_names(nodes@[i]).contains(nodes@[j].name@) {
                    let d = choose|d: int| 0 <= d < dep_names(nodes@[i]).len() && dep_names(nodes@[i])[d] == nodes@[j].name@;
                    let t = g@[i]@[d] as int;
                    assert(nodes@[t].name@ == nodes@[j].name@);
                    if t < j {
                        assert(nodes@[t].name@ != nodes@[j].name@);
                    } else if j < t {
                        assert(nodes@[j].name@ != nodes@[t].name@);
                    }
                    assert(g@[i]@[d] == j as usize);
                    assert(g@[i]@.contains(j as usize));
                }
            }
        }
        assert(adj_edge(g@) =~= dep_edge(nodes@));
        let names = node_names(nodes@);
        assert forall|x: int| 0 <= x < n implies #[trigger] adj_of(g@)[x] == dep_graph(nodes@)[x] by {
            assert forall|y: int| 0 <= y < g@[x]@.len() implies #[trigger] g@[x]@[y] == names.index_of(dep_names(nodes@[x])[y]) as usize by {
                let t = g@[x]@[y] as int;
                let name = dep_names(nodes@[x])[y];
                assert(names[t] == name);
                assert(names.contains(name));
                let u = names.index_of(name);
                assert(0 <= u < names.len() && names[u] == name);
                if t < u {
                    assert(nodes@[t].name@ != nodes@[u].name@);
                } else if u < t {
                    assert(nodes@[u].name@ != nodes@[t].name@);
                }
            }
            assert(adj_of(g@)[x] =~= dep_graph(nodes@)[x]);
        }
        assert(adj_of(g@) =~= dep_graph(nodes@));
    }
    g
}

fn check_cycles<I>(nodes: &Vec<DAGNode<I>>) -> (r: Result<(), Error>)
    requires
        well_named(nodes@),
    ensures
        cycle_outcome(nodes@, r),
{
    let g = dependency_indices(nodes);
    match find_cycle(&g) {
        Ok(()) => Ok(()),
        Err(d) => {
            let s = join3("circular dependency detected involving node '", nodes[d].name.as_str(), "'");
            let r = Err(Error::InvalidInput(s));
            assert(fails_with(r, msg_cycle(nodes@[d as int].name@)));
            r
        },
    }
}

/// `r` is what the cycle check reports: `Ok` for an acyclic graph;
/// otherwise the node the depth-first search reports (see
/// [`first_cycle_report`]), which lies on a cycle.
pub open spec fn cycle_outcome<I>(nodes: Seq<DAGNode<I>>, r: Result<(), Error>) -> bool {
    match first_cycle_report(dep_graph(nodes)) {
        None => r is Ok && acyclic(dep_edge(nodes), nodes.len() as int),
        Some(d) => {
            &&& 0 <= d < nodes.len()
            &&& on_cycle(dep_edge(nodes), nodes.len() as int, d)
            &&& !acyclic(dep_edge(nodes), nodes.len() as int)
            &&& fails_with(r, msg_cycle(nodes[d].name@))
        },
    }
}

impl<I> DAGInput<I> {
    /// Validates against already computed per-node input checks: `checks[k]`
    /// is what node `k`'s own `validate()` returned.
    pub fn validate_with(&self, checks: &Vec<Result<(), Error>>) -> (r: Result<(), Error>)
        requires
            checks.len() == self.nodes.len(),
        ensures
            dag_outcome(self.nodes@, checks@, r),
    {
        let sc = check_structure(&self.nodes);
        match sc {
            Err(e) => {
                return Err(e);
            },
            Ok(()) => {},
        }
        assert(structure_verdict(self.nodes@) is None);
        proof {
            lemma_structure_ok(self.nodes@);
        }
        let ghost names = node_names(self.nodes@);
        let mut k: usize = 0;
        while k < checks.len()
            invariant
                checks.len() == self.nodes.len(),
                names == node_names(self.nodes@),
                k <= checks.len(),
                checks_verdict(names, checks@, 0) == checks_verdict(names, checks@, k as nat),
                structure_verdict(self.nodes@) is None,
            decreases checks.len() - k,
        {
            match &checks[k] {
                Err(e) => {
                    let text = e.message();
                    let s = join4("node '", self.nodes[k].name.as_str(), "': ", text.as_str());
                    assert(checks_verdict(names, checks@, k as nat) == Some(msg_node_invalid(names[k as int], *e)));
                    assert(names[k as int] == self.nodes@[k as int].name@);
                    assert(s@ == msg_node_invalid(names[k as int], *e));
                    let r = Err(Error::InvalidInput(s));
                    assert(structure_verdict(self.nodes@) is None);
                    assert(checks_verdict(node_names(self.nodes@), checks@, 0) == Some(msg_node_invalid(names[k as int], *e)));
                    assert(fails_with(r, msg_node_invalid(names[k as int], *e)));
                    return r;
                },
                Ok(()) => {},
            }
            k += 1;
        }
        check_cycles(&self.nodes)
    }

    /// The waves the DAG pattern runs: wave `l` holds, in node order, every
    /// node not in an earlier wave whose dependencies all are. Expects the
    /// structural checks of `validate` to pass.
    pub fn topological_layers(&self) -> (r: Vec<Vec<usize>>)
        requires
            structure_verdict(self.nodes@) is None,
        ensures
            is_layering(dep_edge(self.nodes@), self.nodes.len() as int, r@),
    {
        proof {
            lemma_structure_ok(self.nodes@);
        }
        let g = dependency_indices(&self.nodes);
        layers_of(&g)
    }
}

/// The waves of a validated DAG: together they list every node exactly
/// once; no wave is empty; each lists its nodes in increasing position;
/// every dependency of a node lies in an earlier wave; and a node of any
/// wave after the first depends on some node of the wave just before, so
/// it runs in the earliest wave it can.
pub proof fn lemma_topological_waves<I>(input: &DAGInput<I>, layers: Seq<Vec<usize>>)
    requires
        structure_verdict(input.nodes@) is None,
        acyclic(dep_edge(input.nodes@), input.nodes@.len() as int),
        is_layering(dep_edge(input.nodes@), input.nodes@.len() as int, layers),
    ensures
        flattened(layers).no_duplicates(),
        flattened(layers).len() == input.nodes@.len(),
        forall|i: int| 0 <= i < input.nodes@.len() ==> #[trigger] flattened(layers).contains(i as usize),
        forall|l: int| 0 <= l < layers.len() ==> #[trigger] layers[l]@.len() > 0,
        forall|l: int, a: int, b: int| 0 <= l < layers.len() && 0 <= a < b < layers[l]@.len() ==> #[trigger] layers[l]@[a]
            < #[trigger] layers[l]@[b],
        forall|l: int, m: int, j: int| 0 <= l < layers.len() && 0 <= m < layers[l]@.len() && #[trigger] dep_edge(input.nodes@)(
            #[trigger] layers[l]@[m] as int,
            j,
        ) ==> scheduled(layers, l).contains(j),
        forall|l: int, m: int| 0 < l < layers.len() && 0 <= m < layers[l]@.len() ==> has_edge_into(
            dep_edge(input.nodes@),
            #[trigger] layers[l]@[m] as int,
            layers[l - 1]@,
        ),
{
    let edge = dep_edge(input.nodes@);
    assert(input.nodes@.len() == input.nodes.len());
    let n = input.nodes@.len() as int;
    assert(edges_in_range(edge, n));
    crate::graph::lemma_waves_cover_each_node_once(edge, n, layers);
    assert forall|l: int, a: int, b: int| 0 <= l < layers.len() && 0 <= a < b < layers[l]@.len() implies #[trigger] layers[l]@[a]
        < #[trigger] layers[l]@[b] by {
        crate::graph::lemma_waves_ascending_and_earliest(edge, n, layers, l);
    }
    assert forall|l: int, m: int, j: int| 0 <= l < layers.len() && 0 <= m < layers[l]@.len() && #[trigger] edge(
        #[trigger] layers[l]@[m] as int,
        j,
    ) implies scheduled(layers, l).contains(j) by {
        crate::graph::lemma_layering_order(edge, n, layers, l, m);
    }
    assert forall|l: int, m: int| 0 < l < layers.len() && 0 <= m < layers[l]@.len() implies has_edge_into(
        edge,
        #[trigger] layers[l]@[m] as int,
        layers[l - 1]@,
    ) by {
        crate::graph::lemma_waves_ascending_and_earliest(edge, n, layers, l);
    }
}

/// `checks` holds what each node's own `validate()` returned, in node
/// order, up to and including the first failure (later nodes are not
/// asked); no node is asked while the structure is invalid.
pub open spec fn node_checks_asked<I: TaskInput>(nodes: Seq<DAGNode<I>>, checks: Seq<Result<(), Error>>) -> bool {
    structure_verdict(nodes) is None ==> forall|k: int|
        0 <= k < checks.len() && (forall|j: int| 0 <= j < k ==> checks[j] is Ok) ==> call_ensures(
            I::validate,
            (&nodes[k].input,),
            #[trigger] checks[k],
        )
}

impl<I: TaskInput> DAGInput<I> {
    /// Validates the DAG: non-empty, unique non-empty names, no missing
    /// dependencies, every node's own `validate()` succeeds (asked in node
    /// order until one fails), and no cycles.
    pub fn validate(&self) -> (r: Result<(), Error>)
        ensures
            exists|checks: Seq<Result<(), Error>>| checks.len() == self.nodes.len() && #[trigger] dag_outcome(self.nodes@, checks, r)
                && node_checks_asked(self.nodes@, checks),
    {
        let n = self.nodes.len();
        match check_structure(&self.nodes) {
            Err(e) => {
                let ghost oks = Seq::new(n as nat, |k: int| Ok::<(), Error>(()));
                let r = Err(e);
                assert(dag_outcome(self.nodes@, oks, r));
                assert(node_checks_asked(self.nodes@, oks));
                return r;
            },
            Ok(()) => {},
        }
        let mut checks: Vec<Result<(), Error>> = Vec::new();
        let mut k: usize = 0;
        let mut stop = false;
        while k < n && !stop
            invariant
                n == self.nodes.len(),
                k <= n,
                checks.len() == k,
                forall|j: int| 0 <= j < k ==> call_ensures(I::validate, (&self.nodes@[j].input,), #[trigger] checks@[j]),
                forall|j: int| 0 <= j < k && !(stop && j == k - 1) ==> #[trigger] checks@[j] is Ok,
                stop ==> k > 0 && checks@[k - 1] is Err,
            decreases n - k,
        {
            let v = self.nodes[k].input.validate();
            let bad = match &v {
                Err(_) => true,
                Ok(()) => false,
            };
            checks.push(v);
            k += 1;
            stop = bad;
        }
        let asked = k;
        while checks.len() < n
            invariant
                n == self.nodes.len(),
                asked <= checks.len() <= n,
                forall|j: int| 0 <= j < asked ==> call_ensures(I::validate, (&self.nodes@[j].input,), #[trigger] checks@[j]),
                stop ==> asked > 0 && checks@[asked - 1] is Err,
                !stop ==> asked == n,
            decreases n - checks.len(),
        {
            checks.push(Ok(()));
        }
        let r = self.validate_with(&checks);
        assert(node_checks_asked(self.nodes@, checks@)) by {
            assert forall|x: int| 0 <= x < checks@.len() && (forall|j: int| 0 <= j < x ==> checks@[j] is Ok) implies call_ensures(
                I::validate,
                (&self.nodes@[x].input,),
                #[trigger] checks@[x],
            ) by {
                if x >= asked {
                    assert(stop);
                    assert(checks@[asked - 1] is Err);
                }
            }
        }
        r
    }
}

/// DAG validation succeeds exactly when there is at least one node, the
/// names are non-empty and distinct, every dependency names a node, every
/// node's own input validation succeeds, and no node depends on itself
/// through any chain of dependencies; when it succeeds, each node's input
/// validation was asked and returned `Ok`.
pub proof fn lemma_dag_validation_verdict<I: TaskInput>(nodes: Seq<DAGNode<I>>, checks: Seq<Result<(), Error>>, r: Result<(), Error>)
    requires
        checks.len() == nodes.len(),
        dag_outcome(nodes, checks, r),
        node_checks_asked(nodes, checks),
    ensures
        r is Ok <==> {
            &&& nodes.len() > 0
            &&& well_named(nodes)
            &&& forall|k: int| 0 <= k < checks.len() ==> #[trigger] checks[k] is Ok
            &&& acyclic(dep_edge(nodes), nodes.len() as int)
        },
        r is Ok ==> forall|k: int| 0 <= k < nodes.len() ==> call_ensures(I::validate, (&nodes[k].input,), #[trigger] checks[k]),
{
    let names = node_names(nodes);
    lemma_checks_verdict(names, checks, 0);
    if structure_verdict(nodes) is None {
        lemma_structure_ok(nodes);
        if checks_verdict(names, checks, 0) is None {
            assert forall|k: int| 0 <= k < nodes.len() implies call_ensures(I::validate, (&nodes[k].input,), #[trigger] checks[k]) by {
                assert forall|j: int| 0 <= j < k implies checks[j] is Ok by {
                    assert(checks[j] is Ok);
                }
            }
        }
    } else if nodes.len() > 0 && well_named(nodes) {
        lemma_well_named_structure_ok(nodes);
    }
}

/// Result of a single DAG node.
#[derive(Debug, Clone)]
pub struct NodeResult<O> {
    /// Node name.
    pub name: String,
    /// Output, kept only when the node succeeded.
    pub result: Option<O>,
    /// Error message if the node failed.
    pub error: Option<String>,
    /// `true` when the activity returned an output whose `is_success()`
    /// held; mirrors `result.is_some()`.
    pub success: bool,
}

impl<O: TaskOutput> NodeResult<O> {
    /// Borrow the wrapped output.
    pub fn result(&self) -> (r: Option<&O>)
        ensures
            r matches Some(o) ==> self.result == Some(*o),
            r is None <==> self.result is None,
    {
        self.result.as_ref()
    }
}

/// Aggregated DAG result.
#[derive(Debug)]
pub struct DAGOutput<O> {
    /// Node name to output, for the nodes that succeeded.
    pub results: StringMap<O>,
    /// Per-node results, in execution order.
    pub node_results: Vec<NodeResult<O>>,
    /// Successes.
    pub total_success: usize,
    /// Failures.
    pub total_failed: usize,
}

} // verus!
