//! The dependency graph: names as nodes, and a link from each target to each
//! of its prerequisites.
use vstd::prelude::*;
use vstd::string::*;
use crate::grammar::Text;
use crate::types::{Makefile, Rule, RuleView};
use crate::reach::{
    acyclic, closes, connects, is_chain, leads, lemma_acyclic_iff_none_closes,
    lemma_acyclic_no_back_link, lemma_acyclic_push, linked,
};
use crate::text::same_text;

verus! {

/// A `daggy::Dag` whose nodes carry names and whose edges carry a weight
/// without meaning. Verus does not look inside: what it holds is named by
/// [`dag_nodes`] and [`dag_edges`].
#[verifier::external_body]
#[derive(Debug)]
pub struct Dag {
    inner: daggy::Dag<String, u32, u32>,
}

/// The names that the nodes of a [`Dag`] carry, by the index of the node.
pub uninterp spec fn dag_nodes(d: Dag) -> Seq<Seq<char>>;

/// The edges of a [`Dag`], in the order in which they were added: for each
/// the index of the node it starts at and of the node it ends at.
pub uninterp spec fn dag_edges(d: Dag) -> Seq<(int, int)>;

/// `daggy::Dag::new`: a graph that has no node and no edge.
#[verifier::external_body]
fn dag_new() -> (d: Dag)
    ensures
        dag_nodes(d) == Seq::<Seq<char>>::empty(),
        dag_edges(d) == Seq::<(int, int)>::empty(),
{
    Dag { inner: daggy::Dag::new() }
}

/// `daggy::Dag::add_node`: adds a node that carries `name` behind the nodes
/// that are there and returns its index, the number of nodes before the
/// call. No edge changes. It panics in a graph that holds as many nodes as
/// its index type can number, which `requires` leaves out.
#[verifier::external_body]
fn dag_add_node(d: &mut Dag, name: String) -> (index: usize)
    requires
        dag_nodes(*old(d)).len() < u32::MAX,
    ensures
        dag_nodes(*final(d)) == dag_nodes(*old(d)).push(name@),
        dag_edges(*final(d)) == dag_edges(*old(d)),
        index == dag_nodes(*old(d)).len(),
{
    d.inner.add_node(name).index()
}

/// `daggy::Dag::add_edge`: adds an edge from the node `from` to the node
/// `to` behind the edges that are there, and returns whether it did. It
/// does not, and leaves the graph as it was, where the two are one node, or
/// where no edge runs from `from` to `to` yet and a way leads from `to` to
/// `from`. No node changes. It panics where one of the two nodes does not
/// exist or the graph holds as many edges as its index type can number,
/// which `requires` leaves out.
#[verifier::external_body]
fn dag_add_edge(d: &mut Dag, from: usize, to: usize, weight: u32) -> (added: bool)
    requires
        from < dag_nodes(*old(d)).len(),
        to < dag_nodes(*old(d)).len(),
        dag_edges(*old(d)).len() < u32::MAX,
    ensures
        dag_nodes(*final(d)) == dag_nodes(*old(d)),
        added == !(from == to || (!dag_edges(*old(d)).contains((from as int, to as int)) && leads(
            dag_edges(*old(d)),
            to as int,
            from as int,
        ))),
        dag_edges(*final(d)) == (if added {
            dag_edges(*old(d)).push((from as int, to as int))
        } else {
            dag_edges(*old(d))
        }),
{
    d.inner.add_edge(daggy::NodeIndex::new(from), daggy::NodeIndex::new(to), weight).is_ok()
}

/// The reserved name `.PHONY`. A rule for it marks its prerequisites as
/// phony; it is a name in the text and never a node of the graph.
pub open spec fn phony() -> Text {
    seq!['.', 'P', 'H', 'O', 'N', 'Y']
}

/// The weight that every edge carries. It has no meaning: an edge says that
/// a target depends on a prerequisite, and no more.
pub const WEIGHT: u32 = 1;

/// What a [`Graph`] holds: the names of its nodes, by index, and its links
/// in the order in which they were added, each from the index of one node to
/// the index of another.
pub struct GraphView {
    pub nodes: Seq<Text>,
    pub edges: Seq<(int, int)>,
}

impl GraphView {
    /// The links by the names of their nodes.
    pub open spec fn links(self) -> Seq<(Text, Text)> {
        Seq::new(
            self.edges.len(),
            |k: int| (self.nodes[self.edges[k].0], self.nodes[self.edges[k].1]),
        )
    }

    /// Whether no name stands for two nodes, no node has the reserved name
    /// `.PHONY`, and every link runs between nodes that exist.
    pub open spec fn well_named(self) -> bool {
        &&& self.nodes.no_duplicates()
        &&& !self.nodes.contains(phony())
        &&& forall|k: int|
            0 <= k < self.edges.len() ==> 0 <= (#[trigger] self.edges[k]).0 < self.nodes.len() && 0
                <= self.edges[k].1 < self.nodes.len()
    }

    /// Whether the graph is one that dependencies can be read from: it is
    /// well named and has no cycle.
    pub open spec fn valid(self) -> bool {
        self.well_named() && acyclic(self.edges)
    }
}

/// A chain of links by index is a chain of links by name.
pub proof fn lemma_named_chain(v: GraphView, ks: Seq<int>)
    requires
        v.well_named(),
    ensures
        is_chain(v.edges, ks) <==> is_chain(v.links(), ks),
{
    let named = v.links();
    if is_chain(v.edges, ks) {
        assert forall|i: int| 0 <= i < ks.len() - 1 implies (#[trigger] named[ks[i]]).1
            == named[ks[i + 1]].0 by {
            assert(v.edges[ks[i]].1 == v.edges[ks[i + 1]].0);
            assert(0 <= ks[i + 1] < v.edges.len());
        }
    }
    if is_chain(named, ks) {
        assert forall|i: int| 0 <= i < ks.len() - 1 implies (#[trigger] v.edges[ks[i]]).1
            == v.edges[ks[i + 1]].0 by {
            assert(named[ks[i]].1 == named[ks[i + 1]].0);
            assert(0 <= ks[i + 1] < v.edges.len());
            let a = v.edges[ks[i]].1;
            let b = v.edges[ks[i + 1]].0;
            assert(v.nodes[a] == v.nodes[b]);
        }
    }
}

/// A way leads from one node to another by index exactly where one leads
/// from the name of the one to the name of the other.
pub proof fn lemma_named_leads(v: GraphView, a: int, b: int)
    requires
        v.well_named(),
        0 <= a < v.nodes.len(),
        0 <= b < v.nodes.len(),
    ensures
        leads(v.edges, a, b) <==> leads(v.links(), v.nodes[a], v.nodes[b]),
{
    let named = v.links();
    if linked(v.edges, a, b) {
        let ks = choose|ks: Seq<int>| connects(v.edges, ks, a, b);
        lemma_named_chain(v, ks);
        assert(0 <= ks[0] < v.edges.len());
        assert(0 <= ks[ks.len() - 1] < v.edges.len());
        assert(connects(named, ks, v.nodes[a], v.nodes[b]));
    }
    if linked(named, v.nodes[a], v.nodes[b]) {
        let ks = choose|ks: Seq<int>| connects(named, ks, v.nodes[a], v.nodes[b]);
        lemma_named_chain(v, ks);
        assert(0 <= ks[0] < v.edges.len());
        assert(0 <= ks[ks.len() - 1] < v.edges.len());
        assert(v.nodes[v.edges[ks[0]].0] == v.nodes[a]);
        assert(v.nodes[v.edges[ks.last()].1] == v.nodes[b]);
        assert(connects(v.edges, ks, a, b));
    }
}

/// The links have a cycle by index exactly where they have one by name.
pub proof fn lemma_named_acyclic(v: GraphView)
    requires
        v.well_named(),
    ensures
        acyclic(v.edges) <==> acyclic(v.links()),
{
    let named = v.links();
    if !acyclic(v.edges) {
        let (ks, x) = choose|ks: Seq<int>, x: int| connects(v.edges, ks, x, x);
        lemma_named_chain(v, ks);
        assert(0 <= ks[0] < v.edges.len());
        assert(0 <= ks[ks.len() - 1] < v.edges.len());
        assert(connects(named, ks, v.nodes[x], v.nodes[x]));
    }
    if !acyclic(named) {
        let (ks, y) = choose|ks: Seq<int>, y: Text| connects(named, ks, y, y);
        lemma_named_chain(v, ks);
        assert(0 <= ks[0] < v.edges.len());
        assert(0 <= ks[ks.len() - 1] < v.edges.len());
        let x = v.edges[ks[0]].0;
        assert(v.nodes[v.edges[ks.last()].1] == v.nodes[x]);
        assert(connects(v.edges, ks, x, x));
    }
}

/// `nodes` with `name` added behind them, unless it is among them.
pub open spec fn with_name(nodes: Seq<Text>, name: Text) -> Seq<Text> {
    if nodes.contains(name) {
        nodes
    } else {
        nodes.push(name)
    }
}

/// A dependency graph. Each node has a name, no two have the same, and
/// none has the reserved name `.PHONY`. A link runs from a target to a
/// prerequisite. The links never form a cycle.
///
/// The names and the links are kept as plain lists. Beside them a
/// [`Dag`] holds the same graph and decides whether a new link would close
/// a cycle.
#[derive(Debug)]
pub struct Graph {
    dag: Dag,
    names: Vec<String>,
    links: Vec<(usize, usize)>,
}

impl View for Graph {
    type V = GraphView;

    closed spec fn view(&self) -> GraphView {
        GraphView {
            nodes: self.names.deep_view(),
            edges: Seq::new(
                self.links@.len(),
                |k: int| (self.links@[k].0 as int, self.links@[k].1 as int),
            ),
        }
    }
}

impl Graph {
    /// Whether the graph is well formed: the lists and the [`Dag`] hold the
    /// same graph, and it is valid.
    pub closed spec fn wf(&self) -> bool {
        &&& dag_nodes(self.dag) == self@.nodes
        &&& dag_edges(self.dag) == self@.edges
        &&& self@.valid()
    }

    /// A well-formed graph is valid.
    pub proof fn lemma_wf_valid(&self)
        requires
            self.wf(),
        ensures
            self@.valid(),
    {
    }

    /// A graph that has no node and no link.
    pub fn new() -> (g: Graph)
        ensures
            g.wf(),
            g@.nodes == Seq::<Text>::empty(),
            g@.edges == Seq::<(int, int)>::empty(),
    {
        let g = Graph { dag: dag_new(), names: Vec::new(), links: Vec::new() };
        assert(g@.nodes =~= Seq::<Text>::empty());
        assert(g@.edges =~= Seq::<(int, int)>::empty());
        assert(acyclic(g@.edges)) by {
            assert forall|ks: Seq<int>, x: int| !connects(g@.edges, ks, x, x) by {
                if connects(g@.edges, ks, x, x) {
                    assert(0 <= ks[0] < g@.edges.len());
                }
            }
        }
        g
    }

    /// The number of nodes.
    pub fn node_count(&self) -> (n: usize)
        ensures
            n == self@.nodes.len(),
    {
        self.names.len()
    }

    /// The number of links.
    pub fn edge_count(&self) -> (n: usize)
        ensures
            n == self@.edges.len(),
    {
        self.links.len()
    }

    /// The names of the nodes, by index.
    pub fn names(&self) -> (names: &Vec<String>)
        ensures
            names.deep_view() == self@.nodes,
    {
        &self.names
    }

    /// The links in the order in which they were added, each from the index
    /// of a target to the index of a prerequisite.
    pub fn edges(&self) -> (edges: &Vec<(usize, usize)>)
        ensures
            edges@.len() == self@.edges.len(),
            forall|k: int|
                0 <= k < edges@.len() ==> {
                    &&& (#[trigger] edges@[k]).0 == self@.edges[k].0
                    &&& edges@[k].1 == self@.edges[k].1
                },
    {
        &self.links
    }

    /// The index of the node named `name`, if there is one. The names are
    /// gone through in order: vstd specifies hashed maps for keys that are
    /// integers, not for keys that are texts, so no map by name is kept.
    pub fn find(&self, name: &str) -> (found: Option<usize>)
        ensures
            match found {
                Some(index) => {
                    &&& index < self@.nodes.len()
                    &&& self@.nodes[index as int] == name@
                    &&& forall|j: int| 0 <= j < index ==> self@.nodes[j] != name@
                },
                None => !self@.nodes.contains(name@),
            },
    {
        let mut k: usize = 0;
        while k < self.names.len()
            invariant
                k <= self.names.len(),
                forall|j: int| 0 <= j < k ==> self@.nodes[j] != name@,
            decreases self.names.len() - k,
        {
            if same_text(self.names[k].as_str(), name) {
                return Some(k);
            }
            k += 1;
        }
        None
    }

    /// The index of the node named `name`. Where there is none yet, one is
    /// added behind the nodes that are there. The name `.PHONY` is
    /// reserved: it has no node and gets none.
    pub fn add_node(&mut self, name: &str) -> (found: Option<usize>)
        requires
            old(self).wf(),
            name@ != phony() ==> old(self)@.nodes.len() < u32::MAX,
        ensures
            final(self).wf(),
            final(self)@.edges == old(self)@.edges,
            match found {
                Some(index) => {
                    &&& name@ != phony()
                    &&& final(self)@.nodes == with_name(old(self)@.nodes, name@)
                    &&& index < final(self)@.nodes.len()
                    &&& final(self)@.nodes[index as int] == name@
                },
                None => name@ == phony() && final(self)@.nodes == old(self)@.nodes,
            },
    {
        proof {
            reveal_strlit(".PHONY");
            assert(".PHONY"@ =~= phony());
        }
        if same_text(name, ".PHONY") {
            return None;
        }
        if let Some(index) = self.find(name) {
            return Some(index);
        }
        let ghost before = self@;
        let index = dag_add_node(&mut self.dag, name.to_owned());
        self.names.push(name.to_owned());
        proof {
            assert(self@.nodes =~= before.nodes.push(name@));
            assert(self@.edges =~= before.edges);
            assert(!self@.nodes.contains(phony())) by {
                if self@.nodes.contains(phony()) {
                    let j = choose|j: int| 0 <= j < self@.nodes.len() && self@.nodes[j] == phony();
                    assert(j < before.nodes.len());
                    assert(before.nodes[j] == phony());
                }
            }
        }
        Some(index)
    }

    /// Adds a link from the node `from` to the node `to`, unless it would
    /// close a cycle: unless a way leads from `to` to `from` already.
    /// Returns whether the link was added. Where it was not, the graph is as
    /// it was.
    pub fn add_edge(&mut self, from: usize, to: usize) -> (added: bool)
        requires
            old(self).wf(),
            from < old(self)@.nodes.len(),
            to < old(self)@.nodes.len(),
            old(self)@.edges.len() < u32::MAX,
        ensures
            final(self).wf(),
            final(self)@.nodes == old(self)@.nodes,
            added == !leads(old(self)@.edges, to as int, from as int),
            final(self)@.edges == (if added {
                old(self)@.edges.push((from as int, to as int))
            } else {
                old(self)@.edges
            }),
    {
        let ghost before = self@;
        proof {
            if from != to && leads(before.edges, to as int, from as int) {
                lemma_acyclic_no_back_link(before.edges, from as int, to as int);
            }
        }
        let added = dag_add_edge(&mut self.dag, from, to, WEIGHT);
        if added {
            self.links.push((from, to));
            proof {
                assert(self@.edges =~= before.edges.push((from as int, to as int)));
                lemma_acyclic_push(before.edges, from as int, to as int);
            }
        }
        added
    }
}

/// The prerequisites that a target is linked to: all but those named
/// `.PHONY`, in their order.
pub open spec fn kept(prerequisites: Seq<Text>) -> Seq<Text>
    decreases prerequisites.len(),
{
    if prerequisites.len() == 0 {
        seq![]
    } else if prerequisites.last() == phony() {
        kept(prerequisites.drop_last())
    } else {
        kept(prerequisites.drop_last()).push(prerequisites.last())
    }
}

/// The links that one target of a rule brings: one to each prerequisite of
/// the rule that is kept, in their order. A target named `.PHONY` brings
/// none.
pub open spec fn target_links(target: Text, prerequisites: Seq<Text>) -> Seq<(Text, Text)> {
    if target == phony() {
        seq![]
    } else {
        Seq::new(kept(prerequisites).len(), |k: int| (target, kept(prerequisites)[k]))
    }
}

/// The names that one target of a rule brings: its own, then those of the
/// prerequisites of the rule that are kept. A target named `.PHONY` brings
/// none, not even those of the prerequisites.
pub open spec fn target_mentions(target: Text, prerequisites: Seq<Text>) -> Seq<Text> {
    if target == phony() {
        seq![]
    } else {
        seq![target] + kept(prerequisites)
    }
}

/// The links that the first `n` targets of a rule bring.
pub open spec fn rule_links(rule: RuleView, n: int) -> Seq<(Text, Text)>
    decreases n,
{
    if n <= 0 {
        seq![]
    } else {
        rule_links(rule, n - 1) + target_links(rule.targets[n - 1], rule.prerequisites)
    }
}

/// The names that the first `n` targets of a rule bring.
pub open spec fn rule_mentions(rule: RuleView, n: int) -> Seq<Text>
    decreases n,
{
    if n <= 0 {
        seq![]
    } else {
        rule_mentions(rule, n - 1) + target_mentions(rule.targets[n - 1], rule.prerequisites)
    }
}

/// The links that the first `n` rules bring, in the order of the rules,
/// within a rule of its targets, and for a target of the prerequisites.
pub open spec fn links(rules: Seq<RuleView>, n: int) -> Seq<(Text, Text)>
    decreases n,
{
    if n <= 0 {
        seq![]
    } else {
        links(rules, n - 1) + rule_links(rules[n - 1], rules[n - 1].targets.len() as int)
    }
}

/// The names that the first `n` rules bring, in the same order.
pub open spec fn mentions(rules: Seq<RuleView>, n: int) -> Seq<Text>
    decreases n,
{
    if n <= 0 {
        seq![]
    } else {
        mentions(rules, n - 1) + rule_mentions(rules[n - 1], rules[n - 1].targets.len() as int)
    }
}

/// All the links of a list of rules.
pub open spec fn all_links(rules: Seq<RuleView>) -> Seq<(Text, Text)> {
    links(rules, rules.len() as int)
}

/// All the names of a list of rules, each as often as it is met.
pub open spec fn all_mentions(rules: Seq<RuleView>) -> Seq<Text> {
    mentions(rules, rules.len() as int)
}

/// `nodes` with each of `names` added behind them in turn, unless it is
/// there by then.
pub open spec fn extend(nodes: Seq<Text>, names: Seq<Text>) -> Seq<Text>
    decreases names.len(),
{
    if names.len() == 0 {
        nodes
    } else {
        with_name(extend(nodes, names.drop_last()), names.last())
    }
}

/// `names` without repetitions: each name where it first stands.
pub open spec fn distinct(names: Seq<Text>) -> Seq<Text> {
    extend(seq![], names)
}

/// Adding the links `added` behind the links `base` stopped at `link`,
/// which would have closed a cycle with the links `now` that were there by
/// then.
pub open spec fn stopped(
    base: Seq<(Text, Text)>,
    added: Seq<(Text, Text)>,
    now: Seq<(Text, Text)>,
    link: (Text, Text),
) -> bool {
    exists|before: Seq<(Text, Text)>, after: Seq<(Text, Text)>|
        #![trigger before + seq![link] + after]
        added == before + seq![link] + after && now == base + before && leads(
            now,
            link.1,
            link.0,
        )
}

/// Adding names in two goes is adding them in one.
pub proof fn lemma_extend_concat(nodes: Seq<Text>, a: Seq<Text>, b: Seq<Text>)
    ensures
        extend(extend(nodes, a), b) == extend(nodes, a + b),
    decreases b.len(),
{
    if b.len() == 0 {
        assert(a + b =~= a);
    } else {
        lemma_extend_concat(nodes, a, b.drop_last());
        assert((a + b).drop_last() =~= a + b.drop_last());
        assert((a + b).last() == b.last());
    }
}

/// Adding names keeps the nodes that are there, adds at most one for each
/// name, and adds none twice.
pub proof fn lemma_extend(nodes: Seq<Text>, names: Seq<Text>)
    requires
        nodes.no_duplicates(),
    ensures
        extend(nodes, names).no_duplicates(),
        nodes.len() <= extend(nodes, names).len() <= nodes.len() + names.len(),
        nodes.is_prefix_of(extend(nodes, names)),
        forall|k: int| 0 <= k < names.len() ==> extend(nodes, names).contains(#[trigger] names[k]),
    decreases names.len(),
{
    if names.len() > 0 {
        let front = names.drop_last();
        lemma_extend(nodes, front);
        let mid = extend(nodes, front);
        let all = extend(nodes, names);
        assert(mid.is_prefix_of(all));
        assert forall|k: int| 0 <= k < names.len() implies all.contains(#[trigger] names[k]) by {
            if k < front.len() {
                assert(front[k] == names[k]);
                let j = choose|j: int| 0 <= j < mid.len() && mid[j] == front[k];
                assert(all[j] == names[k]);
            } else {
                if !mid.contains(names.last()) {
                    assert(all[mid.len() as int] == names.last());
                }
            }
        }
    }
}

/// No name that is kept is `.PHONY`, and of the first prerequisites no more
/// are kept than of all.
pub proof fn lemma_kept(prerequisites: Seq<Text>, n: int)
    requires
        0 <= n <= prerequisites.len(),
    ensures
        !kept(prerequisites).contains(phony()),
        kept(prerequisites.take(n)).len() <= kept(prerequisites).len() <= prerequisites.len(),
    decreases prerequisites.len(),
{
    if prerequisites.len() > 0 {
        let front = prerequisites.drop_last();
        if n < prerequisites.len() {
            lemma_kept(front, n);
            assert(front.take(n) =~= prerequisites.take(n));
        } else {
            lemma_kept(front, n - 1);
            assert(prerequisites.take(n) =~= prerequisites);
        }
        if kept(prerequisites).contains(phony()) {
            let j = choose|j: int|
                0 <= j < kept(prerequisites).len() && kept(prerequisites)[j] == phony();
            assert(kept(front).contains(kept(front)[j]));
        }
    } else {
        assert(prerequisites.take(n) =~= prerequisites);
    }
}

/// The links that a target has to the first `n` prerequisites are the
/// first among those it has to all. Returns the links that follow them.
pub proof fn lemma_target_links_rest(target: Text, prerequisites: Seq<Text>, n: int) -> (rest: Seq<
    (Text, Text),
>)
    requires
        0 <= n <= prerequisites.len(),
    ensures
        target_links(target, prerequisites) == target_links(target, prerequisites.take(n)) + rest,
    decreases prerequisites.len() - n,
{
    let all = target_links(target, prerequisites);
    if n == prerequisites.len() {
        assert(prerequisites.take(n) =~= prerequisites);
        assert(all =~= all + Seq::<(Text, Text)>::empty());
        Seq::empty()
    } else {
        let back = lemma_target_links_rest(target, prerequisites, n + 1);
        let next = prerequisites.take(n + 1);
        assert(next.drop_last() =~= prerequisites.take(n));
        assert(next.last() == prerequisites[n]);
        if target == phony() || prerequisites[n] == phony() {
            back
        } else {
            let rest = seq![(target, prerequisites[n])] + back;
            assert(target_links(target, next) =~= target_links(target, prerequisites.take(n)).push(
                (target, prerequisites[n]),
            ));
            assert(all =~= target_links(target, prerequisites.take(n)) + rest);
            rest
        }
    }
}

/// The links of the first `n` targets are the first among those of the
/// first `m`. Returns the links that follow them.
pub proof fn lemma_rule_links_rest(rule: RuleView, n: int, m: int) -> (rest: Seq<(Text, Text)>)
    requires
        0 <= n <= m,
    ensures
        rule_links(rule, m) == rule_links(rule, n) + rest,
    decreases m - n,
{
    if n == m {
        assert(rule_links(rule, m) =~= rule_links(rule, n) + Seq::<(Text, Text)>::empty());
        Seq::empty()
    } else {
        let front = lemma_rule_links_rest(rule, n, m - 1);
        let rest = front + target_links(rule.targets[m - 1], rule.prerequisites);
        assert(rule_links(rule, m) =~= rule_links(rule, n) + rest);
        rest
    }
}

/// The links of the first `n` rules are the first among those of the first
/// `m`. Returns the links that follow them.
pub proof fn lemma_links_rest(rules: Seq<RuleView>, n: int, m: int) -> (rest: Seq<(Text, Text)>)
    requires
        0 <= n <= m,
    ensures
        links(rules, m) == links(rules, n) + rest,
    decreases m - n,
{
    if n == m {
        assert(links(rules, m) =~= links(rules, n) + Seq::<(Text, Text)>::empty());
        Seq::empty()
    } else {
        let front = lemma_links_rest(rules, n, m - 1);
        let rest = front + rule_links(rules[m - 1], rules[m - 1].targets.len() as int);
        assert(links(rules, m) =~= links(rules, n) + rest);
        rest
    }
}

/// A rule brings no more links than names, and its first targets no more
/// names than all of them.
pub proof fn lemma_rule_sizes(rule: RuleView, n: int, m: int)
    requires
        0 <= n <= m,
    ensures
        rule_links(rule, n).len() <= rule_mentions(rule, n).len() <= rule_mentions(rule, m).len(),
    decreases m,
{
    if n > 0 {
        lemma_rule_sizes(rule, n - 1, n - 1);
    }
    if n < m {
        lemma_rule_sizes(rule, n, m - 1);
    }
}

/// Rules bring no more links than names, and the first rules no more names
/// than all of them.
pub proof fn lemma_sizes(rules: Seq<RuleView>, n: int, m: int)
    requires
        0 <= n <= m,
    ensures
        links(rules, n).len() <= mentions(rules, n).len() <= mentions(rules, m).len(),
    decreases m,
{
    if n > 0 {
        lemma_sizes(rules, n - 1, n - 1);
        let targets = rules[n - 1].targets.len() as int;
        lemma_rule_sizes(rules[n - 1], targets, targets);
    }
    if n < m {
        lemma_sizes(rules, n, m - 1);
    }
}

/// What stopped the links of a part stopped those of the whole: `added` is
/// the part, `front` stands before it in the whole, `back` behind it.
pub proof fn lemma_stopped_within(
    base: Seq<(Text, Text)>,
    front: Seq<(Text, Text)>,
    added: Seq<(Text, Text)>,
    back: Seq<(Text, Text)>,
    now: Seq<(Text, Text)>,
    link: (Text, Text),
)
    requires
        stopped(base + front, added, now, link),
    ensures
        stopped(base, front + added + back, now, link),
{
    let (before, after) = choose|before: Seq<(Text, Text)>, after: Seq<(Text, Text)>|
        #![trigger before + seq![link] + after]
        added == before + seq![link] + after && now == base + front + before && leads(
            now,
            link.1,
            link.0,
        );
    assert(front + added + back =~= (front + before) + seq![link] + (after + back));
    assert(now =~= base + (front + before));
}

/// Where adding a list of links stopped, the first of its links stands
/// that closes a cycle with the links before it.
pub proof fn lemma_stopped_first(all: Seq<(Text, Text)>, now: Seq<(Text, Text)>, link: (Text, Text))
    requires
        stopped(seq![], all, now, link),
        acyclic(now),
    ensures
        !acyclic(all),
        exists|k: int|
            {
                &&& 0 <= k < all.len()
                &&& #[trigger] all[k] == link
                &&& acyclic(all.take(k))
                &&& closes(all, k)
            },
{
    let (before, after) = choose|before: Seq<(Text, Text)>, after: Seq<(Text, Text)>|
        #![trigger before + seq![link] + after]
        all == before + seq![link] + after && now == Seq::<(Text, Text)>::empty() + before
            && leads(now, link.1, link.0);
    let at = before.len() as int;
    assert(now =~= before);
    assert(all.take(at) =~= before);
    assert(all[at] == link);
    assert(closes(all, at));
    lemma_acyclic_iff_none_closes(all);
}

/// A link that a graph was not built for, because it would have closed a
/// cycle: the names of its target and of its prerequisite.
#[derive(Debug, PartialEq, Eq, Clone)]
pub struct CycleError {
    pub target: String,
    pub prerequisite: String,
}

impl View for CycleError {
    type V = (Text, Text);

    open spec fn view(&self) -> (Text, Text) {
        (self.target@, self.prerequisite@)
    }
}

/// Adds to `graph` what one target of a rule brings: a node for the target,
/// a node for each prerequisite, and a link from the target to each
/// prerequisite. A target named `.PHONY` brings nothing, and a prerequisite
/// of that name is passed over. Stops at the first link that would close a
/// cycle.
fn add_target(graph: &mut Graph, target: &str, prerequisites: &Vec<&str>) -> (r: Result<
    (),
    CycleError,
>)
    requires
        old(graph).wf(),
        old(graph)@.nodes.len() + target_mentions(target@, prerequisites.deep_view()).len()
            <= u32::MAX,
        old(graph)@.edges.len() + target_mentions(target@, prerequisites.deep_view()).len()
            <= u32::MAX,
    ensures
        final(graph).wf(),
        match r {
            Ok(_) => {
                &&& final(graph)@.nodes == extend(
                    old(graph)@.nodes,
                    target_mentions(target@, prerequisites.deep_view()),
                )
                &&& final(graph)@.links() == old(graph)@.links() + target_links(
                    target@,
                    prerequisites.deep_view(),
                )
            },
            Err(e) => stopped(
                old(graph)@.links(),
                target_links(target@, prerequisites.deep_view()),
                final(graph)@.links(),
                e@,
            ),
        },
{
    let ghost start = graph@;
    let ghost names = prerequisites.deep_view();
    let ghost added = target_links(target@, names);
    proof {
        graph.lemma_wf_valid();
        assert(extend(start.nodes, Seq::<Text>::empty()) == start.nodes);
        assert(start.links() + Seq::<(Text, Text)>::empty() =~= start.links());
    }
    let from = match graph.add_node(target) {
        Some(index) => index,
        None => {
            return Ok(());
        },
    };
    proof {
        graph.lemma_wf_valid();
        assert(names.take(0) =~= Seq::<Text>::empty());
        assert(seq![target@].drop_last() =~= Seq::<Text>::empty());
        assert(seq![target@] + kept(names.take(0)) =~= seq![target@]);
        assert(extend(start.nodes, seq![target@]) == with_name(start.nodes, target@));
        assert(graph@.links() =~= start.links());
        assert(target_links(target@, names.take(0)) =~= Seq::<(Text, Text)>::empty());
    }
    let mut k: usize = 0;
    while k < prerequisites.len()
        invariant
            k <= prerequisites.len(),
            start == old(graph)@,
            names == prerequisites.deep_view(),
            added == target_links(target@, names),
            target@ != phony(),
            graph.wf(),
            graph@.valid(),
            start.well_named(),
            from < graph@.nodes.len(),
            graph@.nodes[from as int] == target@,
            graph@.nodes == extend(start.nodes, target_mentions(target@, names.take(k as int))),
            graph@.links() == start.links() + target_links(target@, names.take(k as int)),
            start.nodes.len() + 1 + kept(names).len() <= u32::MAX,
            start.edges.len() + 1 + kept(names).len() <= u32::MAX,
        decreases prerequisites.len() - k,
    {
        let ghost before = graph@;
        let ghost sofar = names.take(k as int);
        let ghost next = names.take(k as int + 1);
        let name = prerequisites[k];
        proof {
            assert(name@ == names[k as int]);
            assert(next.drop_last() =~= sofar);
            assert(next.last() == name@);
            lemma_kept(names, k as int + 1);
            lemma_extend(start.nodes, target_mentions(target@, sofar));
            assert(before.links().len() == before.edges.len());
            assert(start.links().len() == start.edges.len());
        }
        match graph.add_node(name) {
            None => {},
            Some(to) => {
                let ghost between = graph@;
                proof {
                    graph.lemma_wf_valid();
                    assert(between.links() =~= before.links());
                    assert(target_mentions(target@, next) =~= target_mentions(
                        target@,
                        sofar,
                    ).push(name@));
                    assert(target_mentions(target@, next).drop_last() =~= target_mentions(
                        target@,
                        sofar,
                    ));
                    assert(target_links(target@, next) =~= target_links(target@, sofar).push(
                        (target@, name@),
                    ));
                    lemma_named_leads(between, to as int, from as int);
                }
                if !graph.add_edge(from, to) {
                    let e = CycleError { target: target.to_owned(), prerequisite: name.to_owned() };
                    proof {
                        let now = graph@.links();
                        let back = lemma_target_links_rest(target@, names, k as int + 1);
                        assert(now =~= between.links());
                        assert(added =~= target_links(target@, sofar) + seq![e@] + back);
                        assert(leads(now, e@.1, e@.0));
                        assert(stopped(start.links(), added, now, e@));
                    }
                    return Err(e);
                }
                proof {
                    graph.lemma_wf_valid();
                    assert(graph@.links() =~= between.links().push((target@, name@)));
                    assert(start.links() + target_links(target@, next) =~= (start.links()
                        + target_links(target@, sofar)).push((target@, name@)));
                }
            },
        }
        k += 1;
    }
    proof {
        assert(names.take(k as int) =~= names);
    }
    Ok(())
}

/// Adds to `graph` what a rule brings: for each of its targets what
/// [`add_target`] adds. Stops at the first link that would close a cycle.
fn add_rule(graph: &mut Graph, rule: &Rule) -> (r: Result<(), CycleError>)
    requires
        old(graph).wf(),
        old(graph)@.nodes.len() + rule_mentions(rule@, rule@.targets.len() as int).len()
            <= u32::MAX,
        old(graph)@.edges.len() + rule_mentions(rule@, rule@.targets.len() as int).len()
            <= u32::MAX,
    ensures
        final(graph).wf(),
        match r {
            Ok(_) => {
                &&& final(graph)@.nodes == extend(
                    old(graph)@.nodes,
                    rule_mentions(rule@, rule@.targets.len() as int),
                )
                &&& final(graph)@.links() == old(graph)@.links() + rule_links(
                    rule@,
                    rule@.targets.len() as int,
                )
            },
            Err(e) => stopped(
                old(graph)@.links(),
                rule_links(rule@, rule@.targets.len() as int),
                final(graph)@.links(),
                e@,
            ),
        },
{
    let ghost start = graph@;
    let ghost total = rule@.targets.len() as int;
    proof {
        graph.lemma_wf_valid();
        assert(start.links() + rule_links(rule@, 0) =~= start.links());
    }
    let mut k: usize = 0;
    while k < rule.targets.len()
        invariant
            k <= rule.targets.len(),
            start == old(graph)@,
            total == rule@.targets.len() == rule.targets.len(),
            graph.wf(),
            start.nodes.no_duplicates(),
            graph@.nodes == extend(start.nodes, rule_mentions(rule@, k as int)),
            graph@.links() == start.links() + rule_links(rule@, k as int),
            start.nodes.len() + rule_mentions(rule@, total).len() <= u32::MAX,
            start.edges.len() + rule_mentions(rule@, total).len() <= u32::MAX,
        decreases rule.targets.len() - k,
    {
        let ghost before = graph@;
        let target = rule.targets[k];
        let ghost sofar = rule_mentions(rule@, k as int);
        let ghost brought = target_mentions(target@, rule@.prerequisites);
        proof {
            assert(target@ == rule@.targets[k as int]);
            lemma_extend(start.nodes, sofar);
            lemma_rule_sizes(rule@, k as int, k as int);
            lemma_rule_sizes(rule@, k as int + 1, total);
            assert(before.links().len() == before.edges.len());
            assert(start.links().len() == start.edges.len());
            assert(rule_mentions(rule@, k as int + 1) == sofar + brought);
        }
        match add_target(graph, target, &rule.prerequsities) {
            Ok(_) => {
                proof {
                    lemma_extend_concat(start.nodes, sofar, brought);
                    assert(start.links() + rule_links(rule@, k as int + 1) =~= before.links()
                        + target_links(target@, rule@.prerequisites));
                }
            },
            Err(e) => {
                proof {
                    let back = lemma_rule_links_rest(rule@, k as int + 1, total);
                    assert(rule_links(rule@, k as int + 1) == rule_links(rule@, k as int)
                        + target_links(target@, rule@.prerequisites));
                    assert(before.links() == start.links() + rule_links(rule@, k as int));
                    lemma_stopped_within(
                        start.links(),
                        rule_links(rule@, k as int),
                        target_links(target@, rule@.prerequisites),
                        back,
                        graph@.links(),
                        e@,
                    );
                }
                return Err(e);
            },
        }
        k += 1;
    }
    Ok(())
}

/// The number of prerequisites that are kept: of those not named `.PHONY`.
fn count_kept(prerequisites: &Vec<&str>) -> (count: usize)
    ensures
        count == kept(prerequisites.deep_view()).len(),
{
    let ghost names = prerequisites.deep_view();
    proof {
        reveal_strlit(".PHONY");
        assert(".PHONY"@ =~= phony());
        assert(names.take(0) =~= Seq::<Text>::empty());
    }
    let mut count: usize = 0;
    let mut k: usize = 0;
    while k < prerequisites.len()
        invariant
            k <= prerequisites.len(),
            names == prerequisites.deep_view(),
            ".PHONY"@ == phony(),
            count == kept(names.take(k as int)).len() <= k,
        decreases prerequisites.len() - k,
    {
        let name = prerequisites[k];
        proof {
            assert(name@ == names[k as int]);
            assert(names.take(k as int + 1).drop_last() =~= names.take(k as int));
            assert(names.take(k as int + 1).last() == name@);
        }
        if !same_text(name, ".PHONY") {
            count += 1;
        }
        k += 1;
    }
    proof {
        assert(names.take(k as int) =~= names);
    }
    count
}

/// Whether a graph can number the names that the rules of `makefile` bring:
/// whether they are, each counted as often as it is met, no more than
/// `u32::MAX`.
pub fn within_capacity(makefile: &Makefile) -> (fits: bool)
    ensures
        fits == (all_mentions(makefile@.rules).len() <= u32::MAX),
{
    let limit: usize = u32::MAX as usize;
    let ghost rules = makefile@.rules;
    let ghost total = rules.len() as int;
    proof {
        reveal_strlit(".PHONY");
        assert(".PHONY"@ =~= phony());
    }
    let mut count: usize = 0;
    let mut k: usize = 0;
    while k < makefile.rules.len()
        invariant
            k <= makefile.rules.len(),
            rules == makefile@.rules,
            total == rules.len() == makefile.rules.len(),
            ".PHONY"@ == phony(),
            limit == u32::MAX,
            count == mentions(rules, k as int).len() <= limit,
        decreases makefile.rules.len() - k,
    {
        let rule = &makefile.rules[k];
        assert(rule@ == rules[k as int]);
        let brought = count_kept(&rule.prerequsities);
        let ghost targets = rule@.targets.len() as int;
        let ghost before = count;
        let mut t: usize = 0;
        while t < rule.targets.len()
            invariant
                t <= rule.targets.len(),
                rules == makefile@.rules,
                k < total == rules.len(),
                rule@ == rules[k as int],
                targets == rule@.targets.len() == rule.targets.len(),
                brought == kept(rule@.prerequisites).len(),
                ".PHONY"@ == phony(),
                limit == u32::MAX,
                before == mentions(rules, k as int).len(),
                count == before + rule_mentions(rule@, t as int).len() <= limit,
            decreases rule.targets.len() - t,
        {
            let target = rule.targets[t];
            proof {
                assert(target@ == rule@.targets[t as int]);
                assert(rule_mentions(rule@, t as int + 1).len() == rule_mentions(
                    rule@,
                    t as int,
                ).len() + target_mentions(target@, rule@.prerequisites).len());
            }
            if !same_text(target, ".PHONY") {
                if brought >= limit - count {
                    proof {
                        lemma_rule_sizes(rule@, t as int + 1, targets);
                        lemma_sizes(rules, k as int + 1, total);
                        assert(mentions(rules, k as int + 1) == mentions(rules, k as int)
                            + rule_mentions(rule@, targets));
                    }
                    return false;
                }
                count = count + 1 + brought;
            }
            t += 1;
        }
        assert(mentions(rules, k as int + 1) == mentions(rules, k as int) + rule_mentions(
            rule@,
            targets,
        ));
        k += 1;
    }
    true
}

/// Builds the dependency graph of a build description.
///
/// Every target of every rule becomes a node, and so does every
/// prerequisite of a rule; a name that is met again stands for the node it
/// has. A link runs from each target to each prerequisite of its rule.
///
/// The name `.PHONY` is reserved and never a node. A target of that name is
/// passed over, and with it, for that target, the prerequisites of its
/// rule; a prerequisite of that name is passed over too.
///
/// A name that only a rule for `.PHONY` lists is therefore no node: what is
/// declared phony shows in the graph only where another rule brings it.
///
/// The graph is built exactly where the links, by name, have no cycle.
/// Where they have one, the first link that closes a cycle with the links
/// before it is returned.
///
/// The names met must not be more than the graph can number.
pub fn from_makefile<'a>(makefile: Makefile<'a>) -> (r: Result<Graph, CycleError>)
    requires
        all_mentions(makefile@.rules).len() <= u32::MAX,
    ensures
        r is Ok <==> acyclic(all_links(makefile@.rules)),
        match r {
            Ok(graph) => {
                &&& graph.wf()
                &&& graph@.valid()
                &&& !graph@.nodes.contains(phony())
                &&& graph@.nodes == distinct(all_mentions(makefile@.rules))
                &&& graph@.links() == all_links(makefile@.rules)
            },
            Err(e) => exists|k: int|
                {
                    &&& 0 <= k < all_links(makefile@.rules).len()
                    &&& #[trigger] all_links(makefile@.rules)[k] == e@
                    &&& acyclic(all_links(makefile@.rules).take(k))
                    &&& closes(all_links(makefile@.rules), k)
                },
        },
{
    let mut graph = Graph::new();
    let ghost rules = makefile@.rules;
    let ghost total = rules.len() as int;
    proof {
        assert(graph@.links() =~= links(rules, 0));
    }
    let mut k: usize = 0;
    while k < makefile.rules.len()
        invariant
            k <= makefile.rules.len(),
            rules == makefile@.rules,
            total == rules.len() == makefile.rules.len(),
            graph.wf(),
            graph@.nodes == distinct(mentions(rules, k as int)),
            graph@.links() == links(rules, k as int),
            mentions(rules, total).len() <= u32::MAX,
        decreases makefile.rules.len() - k,
    {
        let ghost before = graph@;
        let rule = &makefile.rules[k];
        assert(rule@ == rules[k as int]);
        let ghost sofar = mentions(rules, k as int);
        let ghost brought = rule_mentions(rule@, rule@.targets.len() as int);
        proof {
            lemma_extend(seq![], sofar);
            lemma_sizes(rules, k as int, k as int);
            lemma_sizes(rules, k as int + 1, total);
            assert(before.links().len() == before.edges.len());
            assert(mentions(rules, k as int + 1) == sofar + brought);
            assert(links(rules, k as int + 1) == links(rules, k as int) + rule_links(
                rule@,
                rule@.targets.len() as int,
            ));
        }
        match add_rule(&mut graph, rule) {
            Ok(_) => {
                proof {
                    lemma_extend_concat(seq![], sofar, brought);
                }
            },
            Err(e) => {
                proof {
                    let all = all_links(rules);
                    let back = lemma_links_rest(rules, k as int + 1, total);
                    assert(Seq::<(Text, Text)>::empty() + links(rules, k as int) =~= links(
                        rules,
                        k as int,
                    ));
                    lemma_stopped_within(
                        seq![],
                        links(rules, k as int),
                        rule_links(rule@, rule@.targets.len() as int),
                        back,
                        graph@.links(),
                        e@,
                    );
                    graph.lemma_wf_valid();
                    lemma_named_acyclic(graph@);
                    lemma_stopped_first(all, graph@.links(), e@);
                }
                return Err(e);
            },
        }
        k += 1;
    }
    proof {
        graph.lemma_wf_valid();
        lemma_named_acyclic(graph@);
    }
    Ok(graph)
}

} // verus!
