//! Flowcharts and the builder that grows them.
use crate::text::{decimal, decimal_string, trim, trim_of, CharClass};
use vstd::prelude::*;
use vstd::string::*;

verus! {

/// A node of a flowchart.
#[derive(Clone, Debug, PartialEq, Eq)]
pub struct FlowNode {
    pub id: String,
    pub label: String,
    pub kind: String,
}

/// An edge of a flowchart.
#[derive(Clone, Debug, PartialEq, Eq)]
pub struct FlowEdge {
    pub id: String,
    pub source: String,
    pub target: String,
    pub label: String,
}

/// An open end of a flowchart: where control has come so far, and the label of
/// the edge that will leave there.
#[derive(Clone, Debug, PartialEq, Eq)]
pub struct ActivePath {
    pub node_id: String,
    pub label: String,
}

/// Where `continue` and `break` jump to.
#[derive(Clone, Debug, PartialEq, Eq)]
pub struct LoopContext {
    pub header_id: String,
    pub break_sink_id: String,
}

/// What a [`FlowNode`] stands for.
pub struct NodeView {
    pub id: Seq<char>,
    pub label: Seq<char>,
    pub kind: Seq<char>,
}

/// What a [`FlowEdge`] stands for.
pub struct EdgeView {
    pub id: Seq<char>,
    pub source: Seq<char>,
    pub target: Seq<char>,
    pub label: Seq<char>,
}

/// What an [`ActivePath`] stands for.
pub struct PathView {
    pub node_id: Seq<char>,
    pub label: Seq<char>,
}

/// What a [`LoopContext`] stands for.
pub struct ContextView {
    pub header_id: Seq<char>,
    pub break_sink_id: Seq<char>,
}

impl View for FlowNode {
    type V = NodeView;

    open spec fn view(&self) -> NodeView {
        NodeView { id: self.id@, label: self.label@, kind: self.kind@ }
    }
}

impl View for FlowEdge {
    type V = EdgeView;

    open spec fn view(&self) -> EdgeView {
        EdgeView {
            id: self.id@,
            source: self.source@,
            target: self.target@,
            label: self.label@,
        }
    }
}

impl View for ActivePath {
    type V = PathView;

    open spec fn view(&self) -> PathView {
        PathView { node_id: self.node_id@, label: self.label@ }
    }
}

impl View for LoopContext {
    type V = ContextView;

    open spec fn view(&self) -> ContextView {
        ContextView { header_id: self.header_id@, break_sink_id: self.break_sink_id@ }
    }
}

/// The views of a list of nodes.
pub open spec fn node_views(nodes: Seq<FlowNode>) -> Seq<NodeView> {
    nodes.map_values(|n: FlowNode| n@)
}

/// The views of a list of edges.
pub open spec fn edge_views(edges: Seq<FlowEdge>) -> Seq<EdgeView> {
    edges.map_values(|e: FlowEdge| e@)
}

/// The views of a list of paths.
pub open spec fn path_views(paths: Seq<ActivePath>) -> Seq<PathView> {
    paths.map_values(|p: ActivePath| p@)
}

/// The view of an optional loop context.
pub open spec fn context_view(context: Option<&LoopContext>) -> Option<ContextView> {
    match context {
        Some(c) => Some(c@),
        None => None,
    }
}

/// The id of the node that is stored as number `n`.
pub open spec fn node_id(n: nat) -> Seq<char> {
    "node-"@ + decimal(n)
}

/// The edge along which `path` reaches `to`.
pub open spec fn path_edge(path: PathView, to: Seq<char>) -> EdgeView {
    EdgeView {
        id: "e-"@ + path.node_id + "-"@ + to,
        source: path.node_id,
        target: to,
        label: path.label,
    }
}

/// The edges along which `paths` reach `to`.
pub open spec fn path_edges(paths: Seq<PathView>, to: Seq<char>) -> Seq<EdgeView> {
    paths.map_values(|p: PathView| path_edge(p, to))
}

/// The jump from `source` to `target` that is stored as jump number `m`.
pub open spec fn jump(
    source: Seq<char>,
    target: Seq<char>,
    label: Seq<char>,
    m: nat,
) -> EdgeView {
    EdgeView {
        id: "x-"@ + source + "-"@ + target + "-"@ + decimal(m),
        source,
        target,
        label,
    }
}

/// The jumps of `paths` to `target`, numbered from `m` on.
pub open spec fn jumps_from(paths: Seq<PathView>, target: Seq<char>, m: nat) -> Seq<EdgeView> {
    Seq::new(
        paths.len(),
        |i: int| jump(paths[i].node_id, target, paths[i].label, (m + i) as nat),
    )
}

/// The id of the node that is stored as number `n`.
pub(crate) fn node_name(n: usize) -> (id: String)
    ensures
        id@ == node_id(n as nat),
{
    let mut id = "node-".to_owned();
    id.append(decimal_string(n as u64).as_str());
    id
}

/// Grows a flowchart: `edges` in the order of the program, `extra_edges` for
/// the jumps back and out of loops.
pub struct GraphBuilder {
    pub nodes: Vec<FlowNode>,
    pub edges: Vec<FlowEdge>,
    pub id_counter: usize,
    pub extra_edges: Vec<FlowEdge>,
}

/// What a [`GraphBuilder`] stands for.
pub struct GraphView {
    pub nodes: Seq<NodeView>,
    pub edges: Seq<EdgeView>,
    pub id_counter: nat,
    pub extra_edges: Seq<EdgeView>,
}

impl GraphView {
    /// No more ids have been drawn than nodes are stored.
    pub open spec fn wf(self) -> bool {
        self.id_counter <= self.nodes.len()
    }

    /// Whether `k` more nodes can be numbered: either as many as can be stored,
    /// or the numbers suffice.
    pub open spec fn has_room(self, k: nat) -> bool {
        self.wf() || self.id_counter + k <= usize::MAX
    }
}

/// `graph` after an id was drawn.
pub open spec fn with_id(graph: GraphView) -> GraphView {
    GraphView { id_counter: graph.id_counter + 1, ..graph }
}

/// `graph` after a node was stored under the next id.
pub open spec fn with_node(graph: GraphView, label: Seq<char>, kind: Seq<char>) -> GraphView {
    GraphView {
        nodes: graph.nodes.push(NodeView { id: node_id(graph.id_counter), label, kind }),
        ..with_id(graph)
    }
}

/// `graph` after the open ends `paths` were connected to the node `to`.
pub open spec fn with_edges(graph: GraphView, paths: Seq<PathView>, to: Seq<char>) -> GraphView {
    GraphView { edges: graph.edges + path_edges(paths, to), ..graph }
}

/// `graph` after a jump was added.
pub open spec fn with_jump(
    graph: GraphView,
    source: Seq<char>,
    target: Seq<char>,
    label: Seq<char>,
) -> GraphView {
    let next = jump(source, target, label, graph.extra_edges.len());
    GraphView { extra_edges: graph.extra_edges.push(next), ..graph }
}

/// `graph` after the open ends `paths` jumped to `target`.
pub open spec fn with_jumps(
    graph: GraphView,
    paths: Seq<PathView>,
    target: Seq<char>,
) -> GraphView {
    GraphView {
        extra_edges: graph.extra_edges + jumps_from(paths, target, graph.extra_edges.len()),
        ..graph
    }
}

impl View for GraphBuilder {
    type V = GraphView;

    open spec fn view(&self) -> GraphView {
        GraphView {
            nodes: node_views(self.nodes@),
            edges: edge_views(self.edges@),
            id_counter: self.id_counter as nat,
            extra_edges: edge_views(self.extra_edges@),
        }
    }
}

impl GraphBuilder {
    /// A builder of the empty flowchart.
    pub fn new() -> (res: Self)
        ensures
            res@ == (GraphView {
                nodes: Seq::empty(),
                edges: Seq::empty(),
                id_counter: 0,
                extra_edges: Seq::empty(),
            }),
    {
        let res = GraphBuilder {
            nodes: Vec::new(),
            edges: Vec::new(),
            id_counter: 0,
            extra_edges: Vec::new(),
        };
        proof {
            assert(res@.nodes == Seq::<NodeView>::empty());
            assert(res@.edges == Seq::<EdgeView>::empty());
            assert(res@.extra_edges == Seq::<EdgeView>::empty());
        }
        res
    }

    /// Draws the next id.
    pub fn next_id(&mut self) -> (id: String)
        requires
            old(self).id_counter < usize::MAX,
        ensures
            id@ == node_id(old(self).id_counter as nat),
            final(self)@ == with_id(old(self)@),
    {
        let id = node_name(self.id_counter);
        self.id_counter = self.id_counter + 1;
        id
    }

    /// The text of a condition without the parentheses and spaces around it.
    pub fn clean_condition(&self, text: &str) -> (res: String)
        ensures
            res@ == trim_of(text@, CharClass::Bracketing),
    {
        trim(text, CharClass::Bracketing).to_owned()
    }

    /// Stores a node under the next id, which it returns.
    pub fn add_node(&mut self, label: String, kind: &str) -> (id: String)
        requires
            old(self)@.has_room(1),
        ensures
            id@ == node_id(old(self)@.id_counter),
            final(self)@ == with_node(old(self)@, label@, kind@),
    {
        let place = self.nodes.len();
        self.nodes.push(FlowNode { id: String::new(), label, kind: kind.to_owned() });
        // Where no more ids were drawn than nodes were stored, the new node
        // shows that there is room to count one more.
        assert(self.nodes.len() == place + 1);
        let ghost stored = self@.nodes;
        let id = self.next_id();
        assert(self@.nodes == stored);
        self.nodes[place].id = id.clone();
        proof {
            assert(self@.nodes == stored.update(
                place as int,
                NodeView { id: id@, ..stored[place as int] },
            ));
            assert(self@.nodes == old(self)@.nodes.push(
                NodeView { id: id@, label: label@, kind: kind@ },
            ));
        }
        id
    }

    /// Connects the open ends `from` to the node `to`.
    pub fn connect_paths(&mut self, from: &[ActivePath], to: &str)
        ensures
            final(self)@ == with_edges(old(self)@, path_views(from@), to@),
    {
        let ghost paths = path_views(from@);
        let mut i: usize = 0;
        while i < from.len()
            invariant
                i <= from.len(),
                paths == path_views(from@),
                self@ == (GraphView {
                    edges: old(self)@.edges + path_edges(paths.take(i as int), to@),
                    ..old(self)@
                }),
            decreases from.len() - i,
        {
            let path = &from[i];
            let mut id = "e-".to_owned();
            id.append(path.node_id.as_str());
            id.append("-");
            id.append(to);
            let ghost before = self@.edges;
            self.edges.push(
                FlowEdge {
                    id,
                    source: path.node_id.clone(),
                    target: to.to_owned(),
                    label: path.label.clone(),
                },
            );
            proof {
                assert(self@.edges == before.push(path_edge(paths[i as int], to@)));
                assert(paths.take(i + 1) == paths.take(i as int).push(paths[i as int]));
                assert(path_edges(paths.take(i + 1), to@) == path_edges(
                    paths.take(i as int),
                    to@,
                ).push(path_edge(paths[i as int], to@)));
            }
            i = i + 1;
        }
        proof {
            assert(paths.take(paths.len() as int) == paths);
        }
    }

    /// Adds a jump from `source` to `target`.
    pub fn add_extra_edge(&mut self, source: &str, target: &str, label: &str)
        ensures
            final(self)@ == with_jump(old(self)@, source@, target@, label@),
    {
        let mut id = "x-".to_owned();
        id.append(source);
        id.append("-");
        id.append(target);
        id.append("-");
        id.append(decimal_string(self.extra_edges.len() as u64).as_str());
        self.extra_edges.push(
            FlowEdge {
                id,
                source: source.to_owned(),
                target: target.to_owned(),
                label: label.to_owned(),
            },
        );
        proof {
            assert(self@.extra_edges == old(self)@.extra_edges.push(
                jump(source@, target@, label@, old(self)@.extra_edges.len()),
            ));
        }
    }

    /// Adds a jump from each of the open ends `from` to `target`.
    pub fn jump_paths(&mut self, from: &[ActivePath], target: &str)
        ensures
            final(self)@ == with_jumps(old(self)@, path_views(from@), target@),
    {
        let ghost paths = path_views(from@);
        let ghost m = self@.extra_edges.len();
        let mut i: usize = 0;
        while i < from.len()
            invariant
                i <= from.len(),
                paths == path_views(from@),
                m == old(self)@.extra_edges.len(),
                self@ == (GraphView {
                    extra_edges: old(self)@.extra_edges + jumps_from(
                        paths.take(i as int),
                        target@,
                        m,
                    ),
                    ..old(self)@
                }),
            decreases from.len() - i,
        {
            let path = &from[i];
            let ghost before = self@.extra_edges;
            self.add_extra_edge(path.node_id.as_str(), target, path.label.as_str());
            proof {
                let path = paths[i as int];
                let next = jump(path.node_id, target@, path.label, m + i as nat);
                assert(self@.extra_edges == before.push(next));
                assert(jumps_from(paths.take(i + 1), target@, m) == jumps_from(
                    paths.take(i as int),
                    target@,
                    m,
                ).push(next));
            }
            i = i + 1;
        }
        proof {
            assert(paths.take(paths.len() as int) == paths);
        }
    }
}

/// The views of nodes, edges, paths and builders hold what these hold, in order.
pub proof fn law_graph_views(
    node: FlowNode,
    edge: FlowEdge,
    path: ActivePath,
    context: LoopContext,
    paths: Seq<ActivePath>,
    builder: GraphBuilder,
)
    ensures
        node@.id == node.id@ && node@.label == node.label@ && node@.kind == node.kind@,
        edge@.id == edge.id@ && edge@.source == edge.source@ && edge@.target == edge.target@
            && edge@.label == edge.label@,
        path@.node_id == path.node_id@ && path@.label == path.label@,
        context@.header_id == context.header_id@ && context@.break_sink_id
            == context.break_sink_id@,
        context_view(Some(&context)) == Some(context@),
        context_view(None) is None,
        path_views(paths).len() == paths.len(),
        forall|i: int| 0 <= i < paths.len() ==> #[trigger] path_views(paths)[i] == paths[i]@,
        builder@.nodes.len() == builder.nodes@.len(),
        forall|i: int| 0 <= i < builder.nodes@.len() ==> #[trigger] builder@.nodes[i]
            == builder.nodes@[i]@,
        builder@.edges.len() == builder.edges@.len(),
        forall|i: int| 0 <= i < builder.edges@.len() ==> #[trigger] builder@.edges[i]
            == builder.edges@[i]@,
        builder@.extra_edges.len() == builder.extra_edges@.len(),
        forall|i: int| 0 <= i < builder.extra_edges@.len() ==> #[trigger] builder@.extra_edges[i]
            == builder.extra_edges@[i]@,
        builder@.id_counter == builder.id_counter,
{
}

/// There is room for any number of nodes where as many are stored as ids were
/// drawn, and for as many as can still be numbered.
pub proof fn law_room(graph: GraphView, k: nat)
    ensures
        graph.id_counter <= graph.nodes.len() ==> graph.has_room(k),
        graph.id_counter + k <= usize::MAX ==> graph.has_room(k),
{
}

} // verus!
