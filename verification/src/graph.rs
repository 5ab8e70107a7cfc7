//! The shared behavior graph model: nodes bound to functions, typed
//! inputs/outputs, links between slots, named variables, and the
//! [`GraphDiff`] edit that every interpreter applies.
//!
//! Node, slot, function and variable ids are 128-bit UUIDs held as `u128`.
use vstd::prelude::*;
use vstd::std_specs::iter::IteratorSpec;
use std::collections::HashMap;
use crate::value::Value;

verus! {

broadcast use vstd::std_specs::hash::group_hash_axioms;

/// Whether an [`Io`] is a node input or output.
#[derive(Debug, Clone, Copy, PartialEq, Eq, Structural)]
pub enum Direction {
    /// A value the node consumes — the target end of a [`Link`].
    Input,
    /// A value the node produces — a source a [`Link`] can read from.
    Output,
}

/// A typed input or output slot on a [`Node`].
#[derive(Debug, PartialEq)]
pub struct Io {
    /// The slot id: a parameter id for an input, an output slot id for an output.
    pub id: u128,
    /// Whether this slot is consumed (input) or produced (output).
    pub direction: Direction,
    /// The id of the slot's value type, when known.
    pub ty: Option<u128>,
    /// The slot's default store binding, unless a link overrides it.
    pub predetermined_key: Option<String>,
}

impl Io {
    /// A bare input slot with no type or predetermined key.
    pub fn input(id: u128) -> (r: Io)
        ensures
            r == (Io { id, direction: Direction::Input, ty: None, predetermined_key: None }),
    {
        Io { id, direction: Direction::Input, ty: None, predetermined_key: None }
    }

    /// A bare output slot with no type or predetermined key.
    pub fn output(id: u128) -> (r: Io)
        ensures
            r == (Io { id, direction: Direction::Output, ty: None, predetermined_key: None }),
    {
        Io { id, direction: Direction::Output, ty: None, predetermined_key: None }
    }
}

/// A reference to one slot on one node.
#[derive(Debug, Clone, Copy, PartialEq, Eq, Hash, Structural)]
pub struct Port {
    pub node: u128,
    pub port: u128,
}

impl Port {
    /// A `(node, port)` reference.
    pub fn new(node: u128, port: u128) -> (r: Port)
        ensures
            r == (Port { node, port }),
    {
        Port { node, port }
    }
}

/// Where the value feeding a [`Link`]'s target comes from.
#[derive(Debug, PartialEq)]
pub enum LinkSource {
    /// A constant value.
    Literal(Value),
    /// A shared blackboard variable, by id.
    Variable(u128),
    /// Another node's slot.
    Port(Port),
}

/// A directed wire feeding one node input from a [`LinkSource`].
#[derive(Debug, PartialEq)]
pub struct Link {
    /// The input slot being fed. At most one link targets a given port.
    pub target: Port,
    /// What feeds it.
    pub source: LinkSource,
}

impl Link {
    /// A link feeding `target` from `source`.
    pub fn new(target: Port, source: LinkSource) -> (r: Link)
        ensures
            r == (Link { target, source }),
    {
        Link { target, source }
    }
}

/// A node bound to a function, with its typed inputs/outputs and (optionally)
/// ordered children.
#[derive(Debug, PartialEq, Default)]
pub struct Node {
    pub id: u128,
    pub function: u128,
    pub inputs: Vec<Io>,
    pub outputs: Vec<Io>,
    pub children: Option<Vec<u128>>,
}

/// The mathematical content of a [`Node`].
pub struct NodeView {
    pub id: u128,
    pub function: u128,
    pub inputs: Seq<Io>,
    pub outputs: Seq<Io>,
    pub children: Option<Seq<u128>>,
}

impl View for Node {
    type V = NodeView;

    open spec fn view(&self) -> NodeView {
        NodeView {
            id: self.id,
            function: self.function,
            inputs: self.inputs@,
            outputs: self.outputs@,
            children: match self.children {
                Some(c) => Some(c@),
                None => None,
            },
        }
    }
}

/// The shared behavior graph.
#[derive(Debug, PartialEq, Default)]
pub struct Graph {
    /// The entry node, for tree-shaped interpreters.
    pub root: Option<u128>,
    /// All nodes, indexed by id.
    pub nodes: HashMap<u128, Node>,
    /// The links wiring node slots together.
    pub links: Vec<Link>,
    /// Named blackboard variables (`id -> name`).
    pub variables: HashMap<u128, String>,
}

/// The mathematical content of a [`Graph`].
pub struct GraphView {
    pub root: Option<u128>,
    pub nodes: Map<u128, NodeView>,
    pub links: Seq<Link>,
    pub variables: Map<u128, String>,
}

impl View for Graph {
    type V = GraphView;

    open spec fn view(&self) -> GraphView {
        GraphView {
            root: self.root,
            nodes: self.nodes@.map_values(|n: Node| n@),
            links: self.links@,
            variables: self.variables@,
        }
    }
}

/// A graph edition failed to apply.
#[derive(Debug, Clone, PartialEq, Eq)]
pub struct GraphError {
    /// Human-readable description.
    pub message: String,
}

impl GraphError {
    /// The description, as `Display` would render it.
    pub fn to_string(&self) -> (s: String)
        ensures
            s@ == self.message@,
    {
        self.message.clone()
    }
}

/// An edit to a [`Graph`]: what to add and remove.
#[derive(Debug, PartialEq, Default)]
pub struct GraphDiff {
    /// Nodes to insert (replacing any node with the same id).
    pub add_nodes: Vec<Node>,
    /// Node ids to remove; links touching a removed node are dropped too.
    pub remove_nodes: Vec<u128>,
    /// Links to insert; one on an already-wired target replaces it.
    pub add_links: Vec<Link>,
    /// Link targets to unwire.
    pub remove_links: Vec<Port>,
    /// Predetermined-key overrides for the slot at each port.
    pub set_predetermined: Vec<(Port, Option<String>)>,
    /// If set, becomes the graph's root.
    pub set_root: Option<u128>,
    /// Named variables to declare/rename, merged in.
    pub variables: HashMap<u128, String>,
}

/// The mathematical content of a [`GraphDiff`].
pub struct DiffView {
    pub add_nodes: Seq<NodeView>,
    pub remove_nodes: Seq<u128>,
    pub add_links: Seq<Link>,
    pub remove_links: Seq<Port>,
    pub set_predetermined: Seq<(Port, Option<String>)>,
    pub set_root: Option<u128>,
    pub variables: Map<u128, String>,
}

impl View for GraphDiff {
    type V = DiffView;

    open spec fn view(&self) -> DiffView {
        DiffView {
            add_nodes: self.add_nodes@.map_values(|n: Node| n@),
            remove_nodes: self.remove_nodes@,
            add_links: self.add_links@,
            remove_links: self.remove_links@,
            set_predetermined: self.set_predetermined@,
            set_root: self.set_root,
            variables: self.variables@,
        }
    }
}

/// Whether a link source reads from node `id`.
pub open spec fn source_reads(source: LinkSource, id: u128) -> bool {
    match source {
        LinkSource::Port(p) => p.node == id,
        _ => false,
    }
}

/// Whether a link does not feed `t`.
pub open spec fn keeps_target(t: Port) -> spec_fn(Link) -> bool {
    |l: Link| l.target != t
}

/// Whether a link neither feeds nor reads node `id`.
pub open spec fn keeps_node(id: u128) -> spec_fn(Link) -> bool {
    |l: Link| l.target.node != id && !source_reads(l.source, id)
}

/// The links not feeding `t`.
pub open spec fn without_target(links: Seq<Link>, t: Port) -> Seq<Link> {
    links.filter(keeps_target(t))
}

/// The links neither feeding nor reading node `id`.
pub open spec fn without_node(links: Seq<Link>, id: u128) -> Seq<Link> {
    links.filter(keeps_node(id))
}

/// Unwire each target in turn.
pub open spec fn remove_links_spec(links: Seq<Link>, targets: Seq<Port>) -> Seq<Link>
    decreases targets.len(),
{
    if targets.len() == 0 {
        links
    } else {
        remove_links_spec(without_target(links, targets[0]), targets.drop_first())
    }
}

/// Remove one node, the links touching it, and the root if it was the root.
pub open spec fn remove_node_spec(g: GraphView, id: u128) -> GraphView {
    GraphView {
        root: if g.root == Some(id) { None } else { g.root },
        nodes: g.nodes.remove(id),
        links: without_node(g.links, id),
        variables: g.variables,
    }
}

/// Remove each node in turn.
pub open spec fn remove_nodes_spec(g: GraphView, ids: Seq<u128>) -> GraphView
    decreases ids.len(),
{
    if ids.len() == 0 {
        g
    } else {
        remove_nodes_spec(remove_node_spec(g, ids[0]), ids.drop_first())
    }
}

/// Insert each node under its id, in turn.
pub open spec fn add_nodes_spec(m: Map<u128, NodeView>, adds: Seq<NodeView>) -> Map<u128, NodeView>
    decreases adds.len(),
{
    if adds.len() == 0 {
        m
    } else {
        add_nodes_spec(m.insert(adds[0].id, adds[0]), adds.drop_first())
    }
}

/// Append each link in turn, after unwiring its target.
pub open spec fn add_links_spec(links: Seq<Link>, adds: Seq<Link>) -> Seq<Link>
    decreases adds.len(),
{
    if adds.len() == 0 {
        links
    } else {
        add_links_spec(without_target(links, adds[0].target).push(adds[0]), adds.drop_first())
    }
}

/// The first slot with id `port`, at or after `k`.
pub open spec fn find_io(ios: Seq<Io>, port: u128, k: int) -> Option<int>
    decreases ios.len() - k,
{
    if k < 0 || k >= ios.len() {
        None
    } else if ios[k].id == port {
        Some(k)
    } else {
        find_io(ios, port, k + 1)
    }
}

/// The slots with the first one named `port` given predetermined key `key`.
pub open spec fn set_key_in(ios: Seq<Io>, port: u128, key: Option<String>) -> Option<Seq<Io>> {
    match find_io(ios, port, 0) {
        Some(j) => Some(ios.update(j, Io { id: ios[j].id, direction: ios[j].direction, ty: ios[j].ty, predetermined_key: key })),
        None => None,
    }
}

/// Set one predetermined key: on the node's inputs first, then its outputs.
pub open spec fn set_predetermined_one(nodes: Map<u128, NodeView>, port: Port, key: Option<String>) -> Option<Map<u128, NodeView>> {
    if !nodes.contains_key(port.node) {
        None
    } else {
        let n = nodes[port.node];
        match set_key_in(n.inputs, port.port, key) {
            Some(ins) => Some(nodes.insert(port.node, NodeView { inputs: ins, ..n })),
            None => match set_key_in(n.outputs, port.port, key) {
                Some(outs) => Some(nodes.insert(port.node, NodeView { outputs: outs, ..n })),
                None => None,
            },
        }
    }
}

/// Set each predetermined key in turn; the flag is false at the first one
/// whose node or slot is unknown, the nodes then being those set before it.
pub open spec fn set_predetermined_spec(nodes: Map<u128, NodeView>, sets: Seq<(Port, Option<String>)>) -> (bool, Map<u128, NodeView>)
    decreases sets.len(),
{
    if sets.len() == 0 {
        (true, nodes)
    } else {
        match set_predetermined_one(nodes, sets[0].0, sets[0].1) {
            Some(m) => set_predetermined_spec(m, sets.drop_first()),
            None => (false, nodes),
        }
    }
}

/// Applying a diff: unwire the removed links, remove the nodes (and links
/// touching them), insert the nodes, insert the links, set the predetermined
/// keys, then set the root and merge the variables. The flag is false when a
/// predetermined key targets an unknown node or slot; the graph is then the
/// one reached at that point.
pub open spec fn apply_spec(g: GraphView, d: DiffView) -> (bool, GraphView) {
    let l1 = remove_links_spec(g.links, d.remove_links);
    let g2 = remove_nodes_spec(GraphView { links: l1, ..g }, d.remove_nodes);
    let n3 = add_nodes_spec(g2.nodes, d.add_nodes);
    let l4 = add_links_spec(g2.links, d.add_links);
    let p = set_predetermined_spec(n3, d.set_predetermined);
    if !p.0 {
        (false, GraphView { root: g2.root, nodes: p.1, links: l4, variables: g2.variables })
    } else {
        (true, GraphView {
            root: if d.set_root is Some { d.set_root } else { g2.root },
            nodes: p.1,
            links: l4,
            variables: g2.variables.union_prefer_right(d.variables),
        })
    }
}

/// The links of `links` not feeding `t`, in order.
fn drop_target(links: Vec<Link>, t: Port) -> (r: Vec<Link>)
    ensures
        r@ == without_target(links@, t),
{
    broadcast use vstd::seq_lib::group_seq_properties;
    let ghost s = links@;
    let ghost pred = keeps_target(t);
    let mut kept: Vec<Link> = Vec::new();
    assert(s.take(0) =~= Seq::<Link>::empty());
    assert(Seq::<Link>::empty().filter(pred) =~= Seq::<Link>::empty()) by {
        reveal(Seq::filter);
    }
    for l in iter: links
        invariant
            iter.seq() == s,
            pred == keeps_target(t),
            kept@ == s.take(iter.index() as int).filter(pred),
    {
        let ghost i = iter.index();
        proof {
            assert(l == s[i as int]);
            assert(s.take(i + 1) =~= s.take(i as int).push(s[i as int]));
            s.take(i as int).lemma_filter_push(s[i as int], pred);
            assert(pred(s[i as int]) == (s[i as int].target != t));
        }
        if l.target != t {
            kept.push(l);
        }
    }
    assert(s.take(s.len() as int) =~= s);
    kept
}

/// The links of `links` neither feeding nor reading node `id`, in order.
fn drop_node_links(links: Vec<Link>, id: u128) -> (r: Vec<Link>)
    ensures
        r@ == without_node(links@, id),
{
    broadcast use vstd::seq_lib::group_seq_properties;
    let ghost s = links@;
    let ghost pred = keeps_node(id);
    let mut kept: Vec<Link> = Vec::new();
    assert(s.take(0) =~= Seq::<Link>::empty());
    assert(Seq::<Link>::empty().filter(pred) =~= Seq::<Link>::empty()) by {
        reveal(Seq::filter);
    }
    for l in iter: links
        invariant
            iter.seq() == s,
            pred == keeps_node(id),
            kept@ == s.take(iter.index() as int).filter(pred),
    {
        let ghost i = iter.index();
        proof {
            assert(l == s[i as int]);
            assert(s.take(i + 1) =~= s.take(i as int).push(s[i as int]));
            s.take(i as int).lemma_filter_push(s[i as int], pred);
            assert(pred(s[i as int]) == (s[i as int].target.node != id && !source_reads(s[i as int].source, id)));
        }
        let reads = match &l.source {
            LinkSource::Port(p) => p.node == id,
            _ => false,
        };
        if l.target.node != id && !reads {
            kept.push(l);
        }
    }
    assert(s.take(s.len() as int) =~= s);
    kept
}


/// Insert each `(id, name)` pair in turn (a later pair wins).
pub open spec fn insert_pairs(base: Map<u128, String>, s: Seq<(u128, String)>) -> Map<u128, String>
    decreases s.len(),
{
    if s.len() == 0 {
        base
    } else {
        insert_pairs(base, s.drop_last()).insert(s.last().0, s.last().1)
    }
}

/// Whether some pair in `s` has key `k`.
pub open spec fn mentions(s: Seq<(u128, String)>, k: u128) -> bool {
    exists|i: int| 0 <= i < s.len() && (#[trigger] s[i]).0 == k
}

/// Inserting pairs that all agree with `m` gives `m`'s value on a key they
/// mention, and leaves a key they do not mention as it was.
proof fn lemma_insert_pairs(base: Map<u128, String>, s: Seq<(u128, String)>, m: Map<u128, String>, k: u128)
    requires
        forall|i: int| 0 <= i < s.len() ==> m.contains_key((#[trigger] s[i]).0) && m[s[i].0] == s[i].1,
    ensures
        mentions(s, k) ==> insert_pairs(base, s).contains_key(k) && insert_pairs(base, s)[k] == m[k],
        !mentions(s, k) ==> (insert_pairs(base, s).contains_key(k) == base.contains_key(k)
            && (base.contains_key(k) ==> insert_pairs(base, s)[k] == base[k])),
    decreases s.len(),
{
    if s.len() > 0 {
        let d = s.drop_last();
        assert forall|i: int| 0 <= i < d.len() implies m.contains_key((#[trigger] d[i]).0) && m[d[i].0] == d[i].1 by {
            assert(d[i] == s[i]);
        }
        lemma_insert_pairs(base, d, m, k);
        assert(s[s.len() - 1] == s.last());
        assert(insert_pairs(base, s) == insert_pairs(base, d).insert(s.last().0, s.last().1));
        if s.last().0 != k {
            if mentions(s, k) {
                let i = choose|i: int| 0 <= i < s.len() && (#[trigger] s[i]).0 == k;
                assert(d[i] == s[i]);
                assert(mentions(d, k));
            }
            if mentions(d, k) {
                let i = choose|i: int| 0 <= i < d.len() && (#[trigger] d[i]).0 == k;
                assert(s[i] == d[i]);
                assert(mentions(s, k));
            }
        } else {
            assert(mentions(s, k));
        }
    }
}

/// The pairs behind a map iteration's references.
pub open spec fn pairs_of(s: Seq<(&u128, &String)>) -> Seq<(u128, String)> {
    s.map_values(|p: (&u128, &String)| (*p.0, *p.1))
}

/// Merge `extra` into `vars`, `extra` winning.
fn merge_variables(vars: &mut HashMap<u128, String>, extra: &HashMap<u128, String>)
    ensures
        final(vars)@ == old(vars)@.union_prefer_right(extra@),
{
    let ghost v0 = vars@;
    let ghost m = extra@;
    let ghost all = vstd::std_specs::hash::spec_hash_map_iter(extra).remaining();
    for p in iter: extra.iter()
        invariant
            iter.seq() == all,
            vars@ == insert_pairs(v0, pairs_of(all.take(iter.index() as int))),
    {
        let ghost i = iter.index();
        let (k, v) = p;
        let ghost before = vars@;
        proof {
            assert(p == all[i as int]);
            let prev = pairs_of(all.take(i as int));
            assert(pairs_of(all.take(i + 1)) =~= prev.push((*k, *v)));
            assert(prev.push((*k, *v)).drop_last() =~= prev);
            assert(insert_pairs(v0, prev.push((*k, *v))) == insert_pairs(v0, prev).insert(*k, *v));
        }
        let name = v.clone();
        vars.insert(*k, name);
        assert(vars@ == before.insert(*k, *v));
    }
    proof {
        assert(all.take(all.len() as int) =~= all);
        let s = pairs_of(all);
        assert forall|i: int| 0 <= i < s.len() implies m.contains_key((#[trigger] s[i]).0) && m[s[i].0] == s[i].1 by {
            assert(m.contains_key(*all[i].0));
        }
        assert forall|k: u128| #![trigger vars@.contains_key(k)] #![trigger m.contains_key(k)] #![trigger v0.contains_key(k)]
            vars@.contains_key(k) == v0.union_prefer_right(m).contains_key(k)
            && (vars@.contains_key(k) ==> vars@[k] == v0.union_prefer_right(m)[k]) by {
            lemma_insert_pairs(v0, s, m, k);
            if m.contains_key(k) {
                assert(all.contains((&k, &m[k])));
                let i = choose|i: int| 0 <= i < all.len() && all[i] == (&k, &m[k]);
                assert(s[i].0 == k);
                assert(mentions(s, k));
            } else if mentions(s, k) {
                let i = choose|i: int| 0 <= i < s.len() && (#[trigger] s[i]).0 == k;
                assert(m.contains_key(s[i].0));
            }
        }
        assert(vars@ =~= v0.union_prefer_right(m));
    }
}

/// The first slot with id `port`.
fn find_io_exec(ios: &Vec<Io>, port: u128) -> (r: Option<usize>)
    ensures
        r matches Some(j) ==> find_io(ios@, port, 0) == Some(j as int),
        r is None ==> find_io(ios@, port, 0) is None,
{
    let mut k: usize = 0;
    while k < ios.len()
        invariant
            k <= ios@.len(),
            find_io(ios@, port, 0) == find_io(ios@, port, k as int),
        decreases ios@.len() - k,
    {
        if ios[k].id == port {
            return Some(k);
        }
        assert(find_io(ios@, port, k as int) == find_io(ios@, port, k + 1));
        k += 1;
    }
    None
}

/// A slot found by [`find_io`] is in range.
proof fn lemma_find_io(ios: Seq<Io>, port: u128, k: int)
    ensures
        find_io(ios, port, k) matches Some(j) ==> 0 <= k <= j < ios.len() && ios[j].id == port,
    decreases ios.len() - k,
{
    if k < 0 || k >= ios.len() {
    } else if ios[k].id == port {
    } else {
        lemma_find_io(ios, port, k + 1);
    }
}

/// Give the first slot named `port` the key `key`; false when there is none.
fn set_key_exec(ios: &mut Vec<Io>, port: u128, key: Option<String>) -> (found: bool)
    ensures
        match set_key_in(old(ios)@, port, key) {
            Some(s) => found && final(ios)@ == s,
            None => !found && final(ios)@ == old(ios)@,
        },
{
    proof { lemma_find_io(ios@, port, 0); }
    match find_io_exec(ios, port) {
        None => false,
        Some(j) => {
            let io = Io { id: ios[j].id, direction: ios[j].direction, ty: ios[j].ty, predetermined_key: key };
            ios.set(j, io);
            true
        },
    }
}

impl Graph {
    /// An empty graph — the starting point a load diff is applied onto.
    pub fn empty() -> (g: Graph)
        ensures
            g@.root is None,
            g@.nodes == Map::<u128, NodeView>::empty(),
            g@.links.len() == 0,
            g@.variables == Map::<u128, String>::empty(),
    {
        let g = Graph { root: None, nodes: HashMap::new(), links: Vec::new(), variables: HashMap::new() };
        assert(g@.nodes =~= Map::<u128, NodeView>::empty());
        g
    }

    /// The node with id `id`, if present.
    pub fn node(&self, id: &u128) -> (r: Option<&Node>)
        ensures
            match r {
                Some(n) => self@.nodes.contains_key(*id) && self@.nodes[*id] == n@,
                None => !self@.nodes.contains_key(*id),
            },
    {
        self.nodes.get(id)
    }

    /// The first link feeding `target`, if any.
    pub fn link_to(&self, target: &Port) -> (r: Option<&Link>)
        ensures
            match r {
                Some(l) => exists|i: int| 0 <= i < self@.links.len() && self@.links[i] == *l && l.target == *target
                    && forall|j: int| 0 <= j < i ==> (#[trigger] self@.links[j]).target != *target,
                None => forall|j: int| 0 <= j < self@.links.len() ==> (#[trigger] self@.links[j]).target != *target,
            },
    {
        let mut i: usize = 0;
        while i < self.links.len()
            invariant
                i <= self.links@.len(),
                forall|j: int| 0 <= j < i ==> (#[trigger] self.links@[j]).target != *target,
            decreases self.links@.len() - i,
        {
            if self.links[i].target == *target {
                return Some(&self.links[i]);
            }
            i += 1;
        }
        None
    }

    /// Unwire each target in turn.
    fn remove_links(&mut self, targets: &Vec<Port>)
        ensures
            final(self)@ == (GraphView { links: remove_links_spec(old(self)@.links, targets@), ..old(self)@ }),
    {
        let mut k: usize = 0;
        assert(targets@.skip(0) =~= targets@);
        while k < targets.len()
            invariant
                k <= targets@.len(),
                self@ == (GraphView { links: self@.links, ..old(self)@ }),
                remove_links_spec(old(self)@.links, targets@) == remove_links_spec(self@.links, targets@.skip(k as int)),
            decreases targets@.len() - k,
        {
            assert(targets@.skip(k as int)[0] == targets@[k as int]);
            assert(targets@.skip(k as int).drop_first() =~= targets@.skip(k + 1));
            let mut links: Vec<Link> = Vec::new();
            std::mem::swap(&mut links, &mut self.links);
            self.links = drop_target(links, targets[k]);
            k += 1;
        }
        assert(targets@.skip(k as int) =~= Seq::<Port>::empty());
    }

    /// Remove each node in turn, with the links touching it.
    fn remove_nodes(&mut self, ids: &Vec<u128>)
        ensures
            final(self)@ == remove_nodes_spec(old(self)@, ids@),
    {
        let mut k: usize = 0;
        assert(ids@.skip(0) =~= ids@);
        while k < ids.len()
            invariant
                k <= ids@.len(),
                remove_nodes_spec(old(self)@, ids@) == remove_nodes_spec(self@, ids@.skip(k as int)),
            decreases ids@.len() - k,
        {
            assert(ids@.skip(k as int)[0] == ids@[k as int]);
            assert(ids@.skip(k as int).drop_first() =~= ids@.skip(k + 1));
            let id = ids[k];
            let ghost before = self@;
            self.nodes.remove(&id);
            let mut links: Vec<Link> = Vec::new();
            std::mem::swap(&mut links, &mut self.links);
            self.links = drop_node_links(links, id);
            if self.root == Some(id) {
                self.root = None;
            }
            assert(self@.nodes =~= before.nodes.remove(id));
            assert(self@ == remove_node_spec(before, id));
            k += 1;
        }
        assert(ids@.skip(k as int) =~= Seq::<u128>::empty());
    }

    /// Insert each node under its id, in turn.
    fn add_nodes(&mut self, adds: Vec<Node>)
        ensures
            final(self)@ == (GraphView { nodes: add_nodes_spec(old(self)@.nodes, adds@.map_values(|n: Node| n@)), ..old(self)@ }),
    {
        let ghost all = adds@.map_values(|n: Node| n@);
        let ghost s = adds@;
        assert(all.skip(0) =~= all);
        for node in iter: adds
            invariant
                iter.seq() == s,
                all == s.map_values(|n: Node| n@),
                self@ == (GraphView { nodes: self@.nodes, ..old(self)@ }),
                add_nodes_spec(old(self)@.nodes, all) == add_nodes_spec(self@.nodes, all.skip(iter.index() as int)),
        {
            let ghost i = iter.index();
            let ghost before = self@.nodes;
            assert(node == s[i as int]);
            assert(all.skip(i as int)[0] == node@);
            assert(all.skip(i as int).drop_first() =~= all.skip(i + 1));
            self.nodes.insert(node.id, node);
            assert(self@.nodes =~= before.insert(all.skip(i as int)[0].id, all.skip(i as int)[0]));
        }
        assert(all.skip(s.len() as int) =~= Seq::<NodeView>::empty());
    }

    /// Append each link in turn, after unwiring its target.
    fn add_links(&mut self, adds: Vec<Link>)
        ensures
            final(self)@ == (GraphView { links: add_links_spec(old(self)@.links, adds@), ..old(self)@ }),
    {
        let ghost s = adds@;
        assert(s.skip(0) =~= s);
        for link in iter: adds
            invariant
                iter.seq() == s,
                self@ == (GraphView { links: self@.links, ..old(self)@ }),
                add_links_spec(old(self)@.links, s) == add_links_spec(self@.links, s.skip(iter.index() as int)),
        {
            let ghost i = iter.index();
            assert(link == s[i as int]);
            assert(s.skip(i as int)[0] == link);
            assert(s.skip(i as int).drop_first() =~= s.skip(i + 1));
            let mut links: Vec<Link> = Vec::new();
            std::mem::swap(&mut links, &mut self.links);
            links = drop_target(links, link.target);
            links.push(link);
            self.links = links;
        }
        assert(s.skip(s.len() as int) =~= Seq::<Link>::empty());
    }

    /// Set each predetermined key in turn; false at the first unknown node or
    /// slot, with the keys before it set.
    fn set_predetermined(&mut self, sets: Vec<(Port, Option<String>)>) -> (ok: bool)
        ensures
            (ok, final(self)@.nodes) == set_predetermined_spec(old(self)@.nodes, sets@),
            final(self)@ == (GraphView { nodes: final(self)@.nodes, ..old(self)@ }),
    {
        let ghost s = sets@;
        assert(s.skip(0) =~= s);
        for entry in iter: sets
            invariant
                iter.seq() == s,
                self@ == (GraphView { nodes: self@.nodes, ..old(self)@ }),
                set_predetermined_spec(old(self)@.nodes, s) == set_predetermined_spec(self@.nodes, s.skip(iter.index() as int)),
        {
            let ghost i = iter.index();
            let ghost before = self@.nodes;
            assert(entry == s[i as int]);
            assert(s.skip(i as int)[0] == entry);
            assert(s.skip(i as int).drop_first() =~= s.skip(i + 1));
            let (port, key) = entry;
            match self.nodes.remove(&port.node) {
                None => {
                    return false;
                },
                Some(mut node) => {
                    let ghost nv = node@;
                    assert(before.contains_key(port.node) && before[port.node] == nv);
                    let key2 = match &key {
                        Some(k) => Some(k.clone()),
                        None => None,
                    };
                    if set_key_exec(&mut node.inputs, port.port, key) {
                        self.nodes.insert(port.node, node);
                        assert(self@.nodes =~= before.insert(port.node, NodeView { inputs: node@.inputs, ..nv }));
                    } else {
                        proof { lemma_find_io(nv.inputs, port.port, 0); }
                        if set_key_exec(&mut node.outputs, port.port, key2) {
                            self.nodes.insert(port.node, node);
                            assert(self@.nodes =~= before.insert(port.node, NodeView { outputs: node@.outputs, ..nv }));
                        } else {
                            self.nodes.insert(port.node, node);
                            assert(self@.nodes =~= before);
                            return false;
                        }
                    }
                },
            }
        }
        assert(s.skip(s.len() as int) =~= Seq::<(Port, Option<String>)>::empty());
        true
    }

    /// Apply `diff` in place: see [`apply_spec`]. Fails when a predetermined
    /// key targets an unknown node or slot.
    pub fn apply(&mut self, diff: GraphDiff) -> (r: Result<(), GraphError>)
        ensures
            (r is Ok, final(self)@) == apply_spec(old(self)@, diff@),
    {
        let GraphDiff { add_nodes, remove_nodes, add_links, remove_links, set_predetermined, set_root, variables } = diff;
        self.remove_links(&remove_links);
        self.remove_nodes(&remove_nodes);
        self.add_nodes(add_nodes);
        self.add_links(add_links);
        if !self.set_predetermined(set_predetermined) {
            return Err(GraphError { message: String::from_str("predetermined key targets an unknown node or slot") });
        }
        if let Some(root) = set_root {
            self.root = Some(root);
        }
        merge_variables(&mut self.variables, &variables);
        Ok(())
    }
}


/// Nodes whose id is the root first, then the others, each group in order
/// (a stable sort on "is not the root").
pub open spec fn root_first(s: Seq<NodeView>, root: Option<u128>) -> Seq<NodeView> {
    match root {
        Some(r) => s.filter(is_id(r)) + s.filter(is_not_id(r)),
        None => s,
    }
}

/// Whether a node has id `r`.
pub open spec fn is_id(r: u128) -> spec_fn(NodeView) -> bool {
    |n: NodeView| n.id == r
}

/// Whether a node does not have id `r`.
pub open spec fn is_not_id(r: u128) -> spec_fn(NodeView) -> bool {
    |n: NodeView| n.id != r
}

/// `d` is the diff that loads `g`: every node (in some order of the node
/// map's keys, the root first), every link, the root and the variables, and
/// nothing to remove or override.
pub open spec fn is_load_of(d: DiffView, g: GraphView) -> bool {
    &&& exists|ks: Seq<u128>|
        #![trigger ks.to_set()]
        ks.no_duplicates() && ks.to_set() == g.nodes.dom()
            && d.add_nodes == root_first(ks.map_values(|k: u128| g.nodes[k]), g.root)
    &&& d.remove_nodes.len() == 0
    &&& d.add_links == g.links
    &&& d.remove_links.len() == 0
    &&& d.set_predetermined.len() == 0
    &&& d.set_root == g.root
    &&& d.variables == g.variables
}

/// Split nodes into those with id `r` and the others, each in order.
fn split_root(list: Vec<Node>, r: u128) -> (out: Vec<Node>)
    ensures
        out@.map_values(|n: Node| n@) == root_first(list@.map_values(|n: Node| n@), Some(r)),
{
    broadcast use vstd::seq_lib::group_seq_properties;
    let ghost s = list@.map_values(|n: Node| n@);
    let ghost src = list@;
    let mut front: Vec<Node> = Vec::new();
    let mut back: Vec<Node> = Vec::new();
    assert(s.take(0) =~= Seq::<NodeView>::empty());
    assert(Seq::<NodeView>::empty().filter(is_id(r)) =~= Seq::<NodeView>::empty()) by {
        reveal(Seq::filter);
    }
    assert(Seq::<NodeView>::empty().filter(is_not_id(r)) =~= Seq::<NodeView>::empty()) by {
        reveal(Seq::filter);
    }
    for node in iter: list
        invariant
            iter.seq() == src,
            s == src.map_values(|n: Node| n@),
            front@.map_values(|n: Node| n@) == s.take(iter.index() as int).filter(is_id(r)),
            back@.map_values(|n: Node| n@) == s.take(iter.index() as int).filter(is_not_id(r)),
    {
        let ghost i = iter.index();
        let ghost f0 = front@;
        let ghost b0 = back@;
        proof {
            assert(node == src[i as int]);
            assert(s[i as int] == node@);
            assert(s.take(i + 1) =~= s.take(i as int).push(s[i as int]));
            s.take(i as int).lemma_filter_push(s[i as int], is_id(r));
            s.take(i as int).lemma_filter_push(s[i as int], is_not_id(r));
        }
        if node.id == r {
            front.push(node);
            assert(front@.map_values(|n: Node| n@) =~= f0.map_values(|n: Node| n@).push(s[i as int]));
        } else {
            back.push(node);
            assert(back@.map_values(|n: Node| n@) =~= b0.map_values(|n: Node| n@).push(s[i as int]));
        }
    }
    assert(s.take(s.len() as int) =~= s);
    let ghost f1 = front@;
    let ghost b1 = back@;
    front.append(&mut back);
    assert(front@.map_values(|n: Node| n@) =~= f1.map_values(|n: Node| n@) + b1.map_values(|n: Node| n@));
    front
}

impl GraphDiff {
    /// A diff that loads `graph` wholesale: every node and link as additions,
    /// the root node first, carrying its root and variables.
    pub fn load(graph: Graph) -> (d: GraphDiff)
        ensures
            is_load_of(d@, graph@),
    {
        let ghost g = graph@;
        let Graph { root, nodes, links, variables } = graph;
        let ghost orig = nodes@;
        let ghost all = vstd::std_specs::hash::spec_keys_iter(&nodes).remaining();
        let mut keys: Vec<u128> = Vec::new();
        for k in iter: nodes.keys()
            invariant
                iter.seq() == all,
                keys@ == all.take(iter.index() as int).map_values(|r: &u128| *r),
        {
            let ghost i = iter.index();
            assert(all.take(i + 1).map_values(|r: &u128| *r) =~= all.take(i as int).map_values(|r: &u128| *r).push(*k));
            keys.push(*k);
        }
        let ghost ks = keys@;
        proof {
            assert(all.take(all.len() as int) =~= all);
            assert(ks =~= all.map_values(|r: &u128| *r));
            assert(all.unref() =~= ks);
            assert forall|j: int| 0 <= j < ks.len() implies orig.contains_key(#[trigger] ks[j]) by {
                assert(ks.to_set().contains(ks[j]));
            }
        }
        let mut nodes = nodes;
        let mut list: Vec<Node> = Vec::new();
        let mut i: usize = 0;
        while i < keys.len()
            invariant
                i <= keys@.len(),
                keys@ == ks,
                ks.no_duplicates(),
                forall|j: int| i <= j < ks.len() ==> nodes@.contains_key(ks[j]) && nodes@[ks[j]] == orig[ks[j]],
                list@.map_values(|n: Node| n@) == ks.take(i as int).map_values(|k: u128| g.nodes[k]),
                g.nodes == orig.map_values(|n: Node| n@),
                forall|j: int| 0 <= j < ks.len() ==> orig.contains_key(#[trigger] ks[j]),
            decreases keys@.len() - i,
        {
            let k = keys[i];
            let ghost before = nodes@;
            let ghost l0 = list@;
            proof {
                assert(ks.to_set().contains(ks[i as int]));
            }
            match nodes.remove(&k) {
                Some(n) => {
                    assert(n == orig[k]);
                    list.push(n);
                    assert(list@.map_values(|n: Node| n@) =~= l0.map_values(|n: Node| n@).push(g.nodes[k]));
                },
                None => {
                    assert(false);
                },
            }
            proof {
                assert(ks.take(i + 1).map_values(|k: u128| g.nodes[k]) =~= ks.take(i as int).map_values(|k: u128| g.nodes[k]).push(g.nodes[k]));
                assert forall|j: int| i + 1 <= j < ks.len() implies nodes@.contains_key(ks[j]) && nodes@[ks[j]] == orig[ks[j]] by {
                    assert(ks[j] != ks[i as int]);
                }
            }
            i += 1;
        }
        assert(ks.take(ks.len() as int) =~= ks);
        let add_nodes = match root {
            Some(r) => split_root(list, r),
            None => list,
        };
        let d = GraphDiff {
            add_nodes,
            remove_nodes: Vec::new(),
            add_links: links,
            remove_links: Vec::new(),
            set_predetermined: Vec::new(),
            set_root: root,
            variables,
        };
        proof {
            assert(ks.to_set() =~= g.nodes.dom());
            assert(d@.add_nodes == root_first(ks.map_values(|k: u128| g.nodes[k]), g.root));
        }
        d
    }
}


/// A well-formed graph: each node is stored under its own id, and at most one
/// link targets a given port.
pub open spec fn graph_wf(g: GraphView) -> bool {
    &&& forall|k: u128| #[trigger] g.nodes.contains_key(k) ==> g.nodes[k].id == k
    &&& forall|i: int, j: int| 0 <= i < j < g.links.len() ==> (#[trigger] g.links[i]).target != (#[trigger] g.links[j]).target
}

/// The graph view of [`Graph::empty`].
pub open spec fn empty_view() -> GraphView {
    GraphView { root: None, nodes: Map::empty(), links: seq![], variables: Map::empty() }
}

/// Whether some node in `s` has id `k`.
pub open spec fn mentions_id(s: Seq<NodeView>, k: u128) -> bool {
    exists|i: int| 0 <= i < s.len() && (#[trigger] s[i]).id == k
}

/// Inserting nodes that all agree with `big` gives `big`'s node on an id
/// they mention, and leaves other ids as they were.
proof fn lemma_add_nodes(m: Map<u128, NodeView>, s: Seq<NodeView>, big: Map<u128, NodeView>, k: u128)
    requires
        forall|i: int| 0 <= i < s.len() ==> big.contains_key((#[trigger] s[i]).id) && big[s[i].id] == s[i],
    ensures
        mentions_id(s, k) ==> add_nodes_spec(m, s).contains_key(k) && add_nodes_spec(m, s)[k] == big[k],
        !mentions_id(s, k) ==> add_nodes_spec(m, s).contains_key(k) == m.contains_key(k)
            && (m.contains_key(k) ==> add_nodes_spec(m, s)[k] == m[k]),
    decreases s.len(),
{
    if s.len() > 0 {
        let rest = s.drop_first();
        assert forall|i: int| 0 <= i < rest.len() implies big.contains_key((#[trigger] rest[i]).id) && big[rest[i].id] == rest[i] by {
            assert(rest[i] == s[i + 1]);
        }
        let m2 = m.insert(s[0].id, s[0]);
        lemma_add_nodes(m2, rest, big, k);
        if mentions_id(rest, k) {
            let i = choose|i: int| 0 <= i < rest.len() && (#[trigger] rest[i]).id == k;
            assert(s[i + 1] == rest[i]);
            assert(mentions_id(s, k));
        } else if s[0].id == k {
            assert(mentions_id(s, k));
        } else if mentions_id(s, k) {
            let i = choose|i: int| 0 <= i < s.len() && (#[trigger] s[i]).id == k;
            assert(rest[i - 1] == s[i]);
            assert(mentions_id(rest, k));
        }
    }
}

/// Filtering by a predicate every element satisfies changes nothing.
proof fn lemma_filter_all<A>(s: Seq<A>, p: spec_fn(A) -> bool)
    requires
        forall|i: int| 0 <= i < s.len() ==> p(#[trigger] s[i]),
    ensures
        s.filter(p) == s,
    decreases s.len(),
{
    reveal(Seq::filter);
    if s.len() > 0 {
        let d = s.drop_last();
        assert forall|i: int| 0 <= i < d.len() implies p(#[trigger] d[i]) by {
            assert(d[i] == s[i]);
        }
        lemma_filter_all(d, p);
        assert(p(s[s.len() - 1]));
        assert(d.push(s.last()) =~= s);
    }
}

/// Appending links whose targets all differ from each other and from those
/// already present just concatenates them.
proof fn lemma_add_links_distinct(links: Seq<Link>, k: int)
    requires
        0 <= k <= links.len(),
        forall|i: int, j: int| 0 <= i < j < links.len() ==> (#[trigger] links[i]).target != (#[trigger] links[j]).target,
    ensures
        add_links_spec(links.take(k), links.skip(k)) == links,
    decreases links.len() - k,
{
    if k == links.len() {
        assert(links.skip(k) =~= Seq::<Link>::empty());
        assert(links.take(k) =~= links);
    } else {
        let acc = links.take(k);
        let l = links[k];
        assert forall|i: int| 0 <= i < acc.len() implies keeps_target(l.target)(#[trigger] acc[i]) by {
            assert(acc[i] == links[i]);
        }
        lemma_filter_all(acc, keeps_target(l.target));
        assert(links.skip(k)[0] == l);
        assert(links.skip(k).drop_first() =~= links.skip(k + 1));
        assert(acc.push(l) =~= links.take(k + 1));
        lemma_add_links_distinct(links, k + 1);
    }
}

/// Loading a well-formed graph onto an empty graph reproduces it.
pub proof fn lemma_load_round_trip(g: GraphView, d: DiffView)
    requires
        graph_wf(g),
        is_load_of(d, g),
    ensures
        apply_spec(empty_view(), d) == (true, g),
{
    broadcast use vstd::seq_lib::group_seq_properties;
    let e = empty_view();
    let ks = choose|ks: Seq<u128>|
        #![trigger ks.to_set()]
        ks.no_duplicates() && ks.to_set() == g.nodes.dom()
            && d.add_nodes == root_first(ks.map_values(|k: u128| g.nodes[k]), g.root);
    let all = ks.map_values(|k: u128| g.nodes[k]);
    let s = d.add_nodes;
    // Steps 1 and 2 change nothing on an empty graph.
    let l1 = remove_links_spec(e.links, d.remove_links);
    assert(l1 == e.links);
    let g2 = remove_nodes_spec(GraphView { links: l1, ..e }, d.remove_nodes);
    assert(g2 == e);
    // Step 3: the nodes.
    assert forall|i: int| 0 <= i < all.len() implies g.nodes.contains_key((#[trigger] all[i]).id) && g.nodes[all[i].id] == all[i] by {
        assert(ks.to_set().contains(ks[i]));
    }
    assert forall|i: int| 0 <= i < s.len() implies g.nodes.contains_key((#[trigger] s[i]).id) && g.nodes[s[i].id] == s[i] by {
        match g.root {
            Some(r) => {
                let f1 = all.filter(is_id(r));
                let f2 = all.filter(is_not_id(r));
                if i < f1.len() {
                    assert(s[i] == f1[i]);
                    assert(f1.contains(f1[i]));
                    all.lemma_filter_contains_rev(is_id(r), f1[i]);
                } else {
                    assert(s[i] == f2[i - f1.len()]);
                    assert(f2.contains(f2[i - f1.len()]));
                    all.lemma_filter_contains_rev(is_not_id(r), f2[i - f1.len()]);
                }
            },
            None => {},
        }
    }
    let n3 = add_nodes_spec(e.nodes, s);
    assert forall|k: u128| #![trigger n3.contains_key(k)] #![trigger g.nodes.contains_key(k)]
        n3.contains_key(k) == g.nodes.contains_key(k) && (n3.contains_key(k) ==> n3[k] == g.nodes[k]) by {
        lemma_add_nodes(e.nodes, s, g.nodes, k);
        if g.nodes.contains_key(k) {
            assert(ks.to_set().contains(k));
            let j = choose|j: int| 0 <= j < ks.len() && ks[j] == k;
            assert(all[j] == g.nodes[k]);
            match g.root {
                Some(r) => {
                    let f1 = all.filter(is_id(r));
                    let f2 = all.filter(is_not_id(r));
                    if all[j].id == r {
                        all.lemma_filter_contains(is_id(r), j);
                        let q = choose|q: int| 0 <= q < f1.len() && f1[q] == all[j];
                        assert(s[q] == f1[q]);
                    } else {
                        all.lemma_filter_contains(is_not_id(r), j);
                        let q = choose|q: int| 0 <= q < f2.len() && f2[q] == all[j];
                        assert(s[f1.len() + q] == f2[q]);
                    }
                },
                None => {
                    assert(s[j] == all[j]);
                },
            }
            assert(mentions_id(s, k));
        } else if mentions_id(s, k) {
            let i = choose|i: int| 0 <= i < s.len() && (#[trigger] s[i]).id == k;
            assert(g.nodes.contains_key(s[i].id));
        }
    }
    assert(n3 =~= g.nodes);
    // Step 4: the links.
    lemma_add_links_distinct(g.links, 0);
    assert(g.links.take(0) =~= e.links);
    assert(g.links.skip(0) =~= g.links);
    // Steps 5 and 6.
    assert(set_predetermined_spec(n3, d.set_predetermined) == (true, n3));
    assert(e.variables.union_prefer_right(g.variables) =~= g.variables);
}


/// No port is fed by two links.
pub open spec fn targets_unique(links: Seq<Link>) -> bool {
    forall|i: int, j: int| 0 <= i < j < links.len() ==> (#[trigger] links[i]).target != (#[trigger] links[j]).target
}

/// Every node sits under its own id.
pub open spec fn keyed_by_id(m: Map<u128, NodeView>) -> bool {
    forall|k: u128| #[trigger] m.contains_key(k) ==> m[k].id == k
}

/// Dropping links keeps the remaining targets distinct.
proof fn lemma_filter_targets_unique(s: Seq<Link>, p: spec_fn(Link) -> bool)
    requires
        targets_unique(s),
    ensures
        targets_unique(s.filter(p)),
    decreases s.len(),
{
    reveal(Seq::filter);
    if s.len() > 0 {
        let d = s.drop_last();
        assert(targets_unique(d)) by {
            assert forall|i: int, j: int| 0 <= i < j < d.len() implies (#[trigger] d[i]).target != (#[trigger] d[j]).target by {
                assert(d[i] == s[i] && d[j] == s[j]);
            }
        }
        lemma_filter_targets_unique(d, p);
        if p(s.last()) {
            let f = d.filter(p);
            let t = f.push(s.last());
            assert forall|i: int, j: int| 0 <= i < j < t.len() implies (#[trigger] t[i]).target != (#[trigger] t[j]).target by {
                if j == t.len() - 1 {
                    assert(f.contains(f[i]));
                    d.lemma_filter_contains_rev(p, f[i]);
                    let k = choose|k: int| 0 <= k < d.len() && d[k] == f[i];
                    assert(s[k] == d[k]);
                    assert(s[k].target != s[s.len() - 1].target);
                } else {
                    assert(t[i] == f[i] && t[j] == f[j]);
                }
            }
        }
    }
}

proof fn lemma_remove_links_unique(links: Seq<Link>, targets: Seq<Port>)
    requires
        targets_unique(links),
    ensures
        targets_unique(remove_links_spec(links, targets)),
    decreases targets.len(),
{
    if targets.len() > 0 {
        lemma_filter_targets_unique(links, keeps_target(targets[0]));
        lemma_remove_links_unique(without_target(links, targets[0]), targets.drop_first());
    }
}

proof fn lemma_remove_nodes_wf(g: GraphView, ids: Seq<u128>)
    requires
        targets_unique(g.links),
        keyed_by_id(g.nodes),
    ensures
        targets_unique(remove_nodes_spec(g, ids).links),
        keyed_by_id(remove_nodes_spec(g, ids).nodes),
    decreases ids.len(),
{
    if ids.len() > 0 {
        let g1 = remove_node_spec(g, ids[0]);
        lemma_filter_targets_unique(g.links, keeps_node(ids[0]));
        assert(keyed_by_id(g1.nodes));
        lemma_remove_nodes_wf(g1, ids.drop_first());
    }
}

proof fn lemma_add_links_unique(links: Seq<Link>, adds: Seq<Link>)
    requires
        targets_unique(links),
    ensures
        targets_unique(add_links_spec(links, adds)),
    decreases adds.len(),
{
    reveal(Seq::filter);
    if adds.len() > 0 {
        let l = adds[0];
        let w = without_target(links, l.target);
        lemma_filter_targets_unique(links, keeps_target(l.target));
        let t = w.push(l);
        assert forall|i: int, j: int| 0 <= i < j < t.len() implies (#[trigger] t[i]).target != (#[trigger] t[j]).target by {
            if j == t.len() - 1 {
                assert(w.contains(w[i]));
                links.lemma_filter_contains_rev(keeps_target(l.target), w[i]);
                broadcast use vstd::seq_lib::group_filter_ensures;
                assert(keeps_target(l.target)(w[i]));
            } else {
                assert(t[i] == w[i] && t[j] == w[j]);
            }
        }
        lemma_add_links_unique(t, adds.drop_first());
    }
}

proof fn lemma_add_nodes_keyed(m: Map<u128, NodeView>, adds: Seq<NodeView>)
    requires
        keyed_by_id(m),
    ensures
        keyed_by_id(add_nodes_spec(m, adds)),
    decreases adds.len(),
{
    if adds.len() > 0 {
        let m1 = m.insert(adds[0].id, adds[0]);
        assert(keyed_by_id(m1));
        lemma_add_nodes_keyed(m1, adds.drop_first());
    }
}

proof fn lemma_set_predetermined_keyed(m: Map<u128, NodeView>, sets: Seq<(Port, Option<String>)>)
    requires
        keyed_by_id(m),
    ensures
        keyed_by_id(set_predetermined_spec(m, sets).1),
    decreases sets.len(),
{
    if sets.len() > 0 {
        match set_predetermined_one(m, sets[0].0, sets[0].1) {
            Some(m1) => {
                assert(keyed_by_id(m1));
                lemma_set_predetermined_keyed(m1, sets.drop_first());
            },
            None => {},
        }
    }
}

/// Every edit keeps a graph well formed: each node stays under its own id,
/// and no port is fed by two links (a link on an already-wired port replaces
/// the one there). This holds whether or not the edit succeeds.
pub proof fn lemma_apply_keeps_wf(g: GraphView, d: DiffView)
    requires
        graph_wf(g),
    ensures
        graph_wf(apply_spec(g, d).1),
{
    assert(targets_unique(g.links));
    assert(keyed_by_id(g.nodes));
    let l1 = remove_links_spec(g.links, d.remove_links);
    lemma_remove_links_unique(g.links, d.remove_links);
    let g1 = GraphView { links: l1, ..g };
    lemma_remove_nodes_wf(g1, d.remove_nodes);
    let g2 = remove_nodes_spec(g1, d.remove_nodes);
    lemma_add_nodes_keyed(g2.nodes, d.add_nodes);
    lemma_add_links_unique(g2.links, d.add_links);
    lemma_set_predetermined_keyed(add_nodes_spec(g2.nodes, d.add_nodes), d.set_predetermined);
}


/// No link of `links` feeds or reads node `id`.
pub open spec fn untouched(links: Seq<Link>, id: u128) -> bool {
    forall|i: int| 0 <= i < links.len() ==> (#[trigger] links[i]).target.node != id && !source_reads(links[i].source, id)
}

proof fn lemma_filter_untouched(s: Seq<Link>, p: spec_fn(Link) -> bool, id: u128)
    requires
        untouched(s, id) || p == keeps_node(id),
    ensures
        untouched(s.filter(p), id),
{
    broadcast use vstd::seq_lib::group_filter_ensures;
    let f = s.filter(p);
    assert forall|i: int| 0 <= i < f.len() implies (#[trigger] f[i]).target.node != id && !source_reads(f[i].source, id) by {
        assert(f.contains(f[i]));
        s.lemma_filter_contains_rev(p, f[i]);
        if untouched(s, id) {
            let k = choose|k: int| 0 <= k < s.len() && s[k] == f[i];
            assert(s[k].target.node != id);
        } else {
            assert(p(f[i]));
        }
    }
}

proof fn lemma_remove_links_untouched(links: Seq<Link>, targets: Seq<Port>, id: u128)
    requires
        untouched(links, id),
    ensures
        untouched(remove_links_spec(links, targets), id),
    decreases targets.len(),
{
    if targets.len() > 0 {
        lemma_filter_untouched(links, keeps_target(targets[0]), id);
        lemma_remove_links_untouched(without_target(links, targets[0]), targets.drop_first(), id);
    }
}

proof fn lemma_remove_nodes_untouched(g: GraphView, ids: Seq<u128>, id: u128)
    requires
        ids.contains(id) || (untouched(g.links, id) && !g.nodes.contains_key(id)),
    ensures
        untouched(remove_nodes_spec(g, ids).links, id),
        !remove_nodes_spec(g, ids).nodes.contains_key(id),
    decreases ids.len(),
{
    if ids.len() > 0 {
        let g1 = remove_node_spec(g, ids[0]);
        let rest = ids.drop_first();
        if ids[0] == id {
            lemma_filter_untouched(g.links, keeps_node(id), id);
        } else if ids.contains(id) {
            // The id comes later in the list.
            let k = choose|k: int| 0 <= k < ids.len() && ids[k] == id;
            assert(rest[k - 1] == id);
        } else {
            lemma_filter_untouched(g.links, keeps_node(ids[0]), id);
        }
        lemma_remove_nodes_untouched(g1, rest, id);
    }
}

proof fn lemma_add_links_untouched(links: Seq<Link>, adds: Seq<Link>, id: u128)
    requires
        untouched(links, id),
        untouched(adds, id),
    ensures
        untouched(add_links_spec(links, adds), id),
    decreases adds.len(),
{
    if adds.len() > 0 {
        let l = adds[0];
        lemma_filter_untouched(links, keeps_target(l.target), id);
        let t = without_target(links, l.target).push(l);
        assert(untouched(t, id));
        assert(untouched(adds.drop_first(), id)) by {
            assert forall|i: int| 0 <= i < adds.drop_first().len() implies (#[trigger] adds.drop_first()[i]).target.node != id
                && !source_reads(adds.drop_first()[i].source, id) by {
                assert(adds.drop_first()[i] == adds[i + 1]);
            }
        }
        lemma_add_links_untouched(t, adds.drop_first(), id);
    }
}

proof fn lemma_add_nodes_absent(m: Map<u128, NodeView>, adds: Seq<NodeView>, id: u128)
    requires
        !m.contains_key(id),
        !mentions_id(adds, id),
    ensures
        !add_nodes_spec(m, adds).contains_key(id),
    decreases adds.len(),
{
    if adds.len() > 0 {
        assert(adds[0].id != id);
        assert(!mentions_id(adds.drop_first(), id)) by {
            if mentions_id(adds.drop_first(), id) {
                let i = choose|i: int| 0 <= i < adds.drop_first().len() && (#[trigger] adds.drop_first()[i]).id == id;
                assert(adds[i + 1].id == id);
            }
        }
        lemma_add_nodes_absent(m.insert(adds[0].id, adds[0]), adds.drop_first(), id);
    }
}

proof fn lemma_set_predetermined_absent(m: Map<u128, NodeView>, sets: Seq<(Port, Option<String>)>, id: u128)
    requires
        !m.contains_key(id),
    ensures
        !set_predetermined_spec(m, sets).1.contains_key(id),
    decreases sets.len(),
{
    if sets.len() > 0 {
        match set_predetermined_one(m, sets[0].0, sets[0].1) {
            Some(m1) => {
                lemma_set_predetermined_absent(m1, sets.drop_first(), id);
            },
            None => {},
        }
    }
}

/// Removing a node drops the links touching it: after an edit that removes
/// node `id`, no link feeds or reads it, unless the edit's own new links do;
/// and the node is gone unless the edit adds it back.
pub proof fn lemma_removed_node_leaves_no_links(g: GraphView, d: DiffView, id: u128)
    requires
        d.remove_nodes.contains(id),
        untouched(d.add_links, id),
    ensures
        untouched(apply_spec(g, d).1.links, id),
        !mentions_id(d.add_nodes, id) ==> !apply_spec(g, d).1.nodes.contains_key(id),
{
    let l1 = remove_links_spec(g.links, d.remove_links);
    let g1 = GraphView { links: l1, ..g };
    lemma_remove_nodes_untouched(g1, d.remove_nodes, id);
    let g2 = remove_nodes_spec(g1, d.remove_nodes);
    lemma_add_links_untouched(g2.links, d.add_links, id);
    if !mentions_id(d.add_nodes, id) {
        lemma_add_nodes_absent(g2.nodes, d.add_nodes, id);
        lemma_set_predetermined_absent(add_nodes_spec(g2.nodes, d.add_nodes), d.set_predetermined, id);
    }
}


proof fn lemma_add_links_concat(links: Seq<Link>, a: Seq<Link>, b: Seq<Link>)
    ensures
        add_links_spec(links, a + b) == add_links_spec(add_links_spec(links, a), b),
    decreases a.len(),
{
    if a.len() == 0 {
        assert(a + b =~= b);
    } else {
        assert((a + b)[0] == a[0]);
        assert((a + b).drop_first() =~= a.drop_first() + b);
        lemma_add_links_concat(without_target(links, a[0].target).push(a[0]), a.drop_first(), b);
    }
}

/// A new link replaces the one on the same target: after an edit, the last
/// link the edit adds is the graph's last link, and no other link feeds its
/// target.
pub proof fn lemma_last_added_link_wins(g: GraphView, d: DiffView)
    requires
        d.add_links.len() > 0,
    ensures
        ({
            let links = apply_spec(g, d).1.links;
            let l = d.add_links.last();
            &&& links.len() > 0
            &&& links.last() == l
            &&& forall|i: int| 0 <= i < links.len() - 1 ==> (#[trigger] links[i]).target != l.target
        }),
{
    broadcast use vstd::seq_lib::group_filter_ensures;
    let l1 = remove_links_spec(g.links, d.remove_links);
    let g2 = remove_nodes_spec(GraphView { links: l1, ..g }, d.remove_nodes);
    let a = d.add_links.drop_last();
    let l = d.add_links.last();
    assert(a + seq![l] =~= d.add_links);
    lemma_add_links_concat(g2.links, a, seq![l]);
    let x = add_links_spec(g2.links, a);
    let w = without_target(x, l.target);
    assert(seq![l].drop_first() =~= Seq::<Link>::empty());
    assert(seq![l][0] == l);
    assert(add_links_spec(w.push(l), Seq::<Link>::empty()) == w.push(l));
    assert(add_links_spec(x, seq![l]) == w.push(l));
    assert forall|i: int| 0 <= i < w.len() implies (#[trigger] w.push(l)[i]).target != l.target by {
        assert(w.contains(w[i]));
        assert(keeps_target(l.target)(w[i]));
    }
}

} // verus!
