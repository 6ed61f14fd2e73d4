//! The flowchart of a whole program.
use crate::draw::lemma_grown_twice;
use crate::drawable::{can_draw_list, drawable_list};
use crate::flow::{grown, pass, plain_path, sequence, Fragment, Omitted};
use crate::graph::{
    edge_views, node_views, path_views, ActivePath, EdgeView, FlowEdge, FlowNode, GraphBuilder,
    NodeView, PathView,
};
use crate::syntax::{syntax_list, Syntax, SyntaxNode};
use crate::text::same_text;
use vstd::prelude::*;
use vstd::string::*;

verus! {

/// A finished flowchart.
#[derive(Debug, PartialEq, Eq)]
pub struct ParseResult {
    pub nodes: Vec<FlowNode>,
    pub edges: Vec<FlowEdge>,
}

/// What a [`ParseResult`] stands for.
pub struct Chart {
    pub nodes: Seq<NodeView>,
    pub edges: Seq<EdgeView>,
}

impl View for ParseResult {
    type V = Chart;

    open spec fn view(&self) -> Chart {
        Chart { nodes: node_views(self.nodes@), edges: edge_views(self.edges@) }
    }
}

/// What the bodies among the first `k` parts of a function add.
pub open spec fn bodies(
    parts: Seq<Syntax>,
    k: nat,
    code: Seq<char>,
    n: nat,
    m: nat,
    entry: Seq<PathView>,
) -> Fragment
    decreases k,
{
    if k == 0 || k > parts.len() {
        pass(entry)
    } else {
        let before = bodies(parts, (k - 1) as nat, code, n, m, entry);
        let part = parts[k - 1];
        if part.kind == "compound_statement"@ {
            before.then_draw(
                sequence(
                    part.children,
                    part.children.len(),
                    Omitted::Nothing,
                    code,
                    n + before.nodes.len(),
                    m + before.jumps.len(),
                    before.exits,
                    None,
                ),
            )
        } else {
            before
        }
    }
}

/// What the functions among the first `k` of `nodes` add, one after another.
pub open spec fn functions(
    nodes: Seq<Syntax>,
    k: nat,
    code: Seq<char>,
    n: nat,
    m: nat,
    entry: Seq<PathView>,
) -> Fragment
    decreases k,
{
    if k == 0 || k > nodes.len() {
        pass(entry)
    } else {
        let before = functions(nodes, (k - 1) as nat, code, n, m, entry);
        let node = nodes[k - 1];
        if node.kind == "function_definition"@ {
            before.then_draw(
                bodies(
                    node.children,
                    node.children.len(),
                    code,
                    n + before.nodes.len(),
                    m + before.jumps.len(),
                    before.exits,
                ),
            )
        } else {
            before
        }
    }
}

/// What a program adds to the empty flowchart, entered from `start`.
pub open spec fn program(root: Syntax, code: Seq<char>) -> Fragment {
    functions(root.children, root.children.len(), code, 0, 0, seq![plain_path("start"@)])
}

/// The edge from an open end to the end of the flowchart.
pub open spec fn end_edge(path: PathView) -> EdgeView {
    EdgeView {
        id: "e-"@ + path.node_id + "-end"@,
        source: path.node_id,
        target: "end"@,
        label: ""@,
    }
}

/// The flowchart of a program: what it adds, the end with the edges that lead
/// there, and the jumps after all other edges.
pub open spec fn chart(root: Syntax, code: Seq<char>) -> Chart {
    let drawn = program(root, code);
    Chart {
        nodes: drawn.nodes.push(NodeView { id: "end"@, label: "End"@, kind: "terminal"@ }),
        edges: drawn.edges + drawn.exits.map_values(|p: PathView| end_edge(p)) + drawn.jumps,
    }
}

/// Whether the bodies among the parts of a function can be drawn.
pub open spec fn drawable_bodies(parts: Seq<Syntax>, code: Seq<char>) -> bool {
    forall|i: int|
        0 <= i < parts.len() && #[trigger] parts[i].kind == "compound_statement"@
            ==> drawable_list(parts[i].children, Omitted::Nothing, code)
}

/// Whether the functions among `nodes` can be drawn.
pub open spec fn drawable_functions(nodes: Seq<Syntax>, code: Seq<char>) -> bool {
    forall|i: int|
        0 <= i < nodes.len() && #[trigger] nodes[i].kind == "function_definition"@
            ==> drawable_bodies(nodes[i].children, code)
}

/// Whether a program can be drawn.
pub open spec fn drawable_program(root: Syntax, code: Seq<char>) -> bool {
    drawable_functions(root.children, code)
}

/// Whether the bodies among the parts of a function can be drawn.
fn can_draw_bodies(parts: &Vec<SyntaxNode>, code: &str) -> (res: bool)
    ensures
        res == drawable_bodies(syntax_list(parts@), code@),
{
    let ghost all = syntax_list(parts@);
    let mut i: usize = 0;
    while i < parts.len()
        invariant
            i <= parts.len(),
            all == syntax_list(parts@),
            forall|j: int|
                0 <= j < i && #[trigger] all[j].kind == "compound_statement"@ ==> drawable_list(
                    all[j].children,
                    Omitted::Nothing,
                    code@,
                ),
        decreases parts.len() - i,
    {
        let part = &parts[i];
        assert(part@ == all[i as int]);
        if same_text(part.kind.as_str(), "compound_statement") && !can_draw_list(
            &part.children,
            Omitted::Nothing,
            code,
        ) {
            assert(all[i as int].kind == "compound_statement"@);
            return false;
        }
        i = i + 1;
    }
    true
}

/// Whether a program can be drawn.
pub fn can_draw_program(root: &SyntaxNode, code: &str) -> (res: bool)
    ensures
        res == drawable_program(root@, code@),
{
    let nodes = &root.children;
    let ghost all = syntax_list(nodes@);
    let mut i: usize = 0;
    while i < nodes.len()
        invariant
            i <= nodes.len(),
            all == syntax_list(nodes@),
            all == root@.children,
            forall|j: int|
                0 <= j < i && #[trigger] all[j].kind == "function_definition"@
                    ==> drawable_bodies(all[j].children, code@),
        decreases nodes.len() - i,
    {
        let node = &nodes[i];
        assert(node@ == all[i as int]);
        if same_text(node.kind.as_str(), "function_definition") && !can_draw_bodies(
            &node.children,
            code,
        ) {
            assert(all[i as int].kind == "function_definition"@);
            return false;
        }
        i = i + 1;
    }
    true
}

impl GraphBuilder {
    /// Draws the bodies among the parts of a function.
    fn process_bodies(
        &mut self,
        parts: &Vec<SyntaxNode>,
        payload: &str,
        active_paths: Vec<ActivePath>,
    ) -> (res: Vec<ActivePath>)
        requires
            old(self)@.wf(),
            drawable_bodies(syntax_list(parts@), payload@),
        ensures
            ({
                let drawn = bodies(
                    syntax_list(parts@),
                    parts@.len(),
                    payload@,
                    old(self)@.id_counter,
                    old(self)@.extra_edges.len(),
                    path_views(active_paths@),
                );
                &&& final(self)@ == grown(old(self)@, drawn)
                &&& path_views(res@) == drawn.exits
            }),
    {
        let ghost all = syntax_list(parts@);
        let ghost n = self@.id_counter;
        let ghost m = self@.extra_edges.len();
        let ghost entry = path_views(active_paths@);
        let mut paths = active_paths;
        let mut i: usize = 0;
        proof {
            assert(self@ == grown(self@, pass(entry)));
        }
        while i < parts.len()
            invariant
                i <= parts.len(),
                all == syntax_list(parts@),
                n == old(self)@.id_counter,
                m == old(self)@.extra_edges.len(),
                old(self)@.wf(),
                drawable_bodies(all, payload@),
                self@ == grown(old(self)@, bodies(all, i as nat, payload@, n, m, entry)),
                path_views(paths@) == bodies(all, i as nat, payload@, n, m, entry).exits,
            decreases parts.len() - i,
        {
            let part = &parts[i];
            assert(part@ == all[i as int]);
            let ghost before = bodies(all, i as nat, payload@, n, m, entry);
            if same_text(part.kind.as_str(), "compound_statement") {
                assert(all[i as int].kind == "compound_statement"@);
                let ghost now = sequence(
                    part@.children,
                    part@.children.len(),
                    Omitted::Nothing,
                    payload@,
                    n + before.nodes.len(),
                    m + before.jumps.len(),
                    before.exits,
                    None,
                );
                paths = self.process_list(&part.children, Omitted::Nothing, payload, paths, None);
                proof {
                    lemma_grown_twice(old(self)@, before, now);
                }
            }
            i = i + 1;
        }
        paths
    }

    /// Draws the functions of a program, one after another.
    fn process_functions(
        &mut self,
        nodes: &Vec<SyntaxNode>,
        payload: &str,
        active_paths: Vec<ActivePath>,
    ) -> (res: Vec<ActivePath>)
        requires
            old(self)@.wf(),
            drawable_functions(syntax_list(nodes@), payload@),
        ensures
            ({
                let drawn = functions(
                    syntax_list(nodes@),
                    nodes@.len(),
                    payload@,
                    old(self)@.id_counter,
                    old(self)@.extra_edges.len(),
                    path_views(active_paths@),
                );
                &&& final(self)@ == grown(old(self)@, drawn)
                &&& path_views(res@) == drawn.exits
            }),
    {
        let ghost all = syntax_list(nodes@);
        let ghost n = self@.id_counter;
        let ghost m = self@.extra_edges.len();
        let ghost entry = path_views(active_paths@);
        let mut paths = active_paths;
        let mut i: usize = 0;
        proof {
            assert(self@ == grown(self@, pass(entry)));
        }
        while i < nodes.len()
            invariant
                i <= nodes.len(),
                all == syntax_list(nodes@),
                n == old(self)@.id_counter,
                m == old(self)@.extra_edges.len(),
                old(self)@.wf(),
                drawable_functions(all, payload@),
                self@ == grown(old(self)@, functions(all, i as nat, payload@, n, m, entry)),
                path_views(paths@) == functions(all, i as nat, payload@, n, m, entry).exits,
            decreases nodes.len() - i,
        {
            let node = &nodes[i];
            assert(node@ == all[i as int]);
            let ghost before = functions(all, i as nat, payload@, n, m, entry);
            if same_text(node.kind.as_str(), "function_definition") {
                assert(all[i as int].kind == "function_definition"@);
                let ghost now = bodies(
                    node@.children,
                    node@.children.len(),
                    payload@,
                    n + before.nodes.len(),
                    m + before.jumps.len(),
                    before.exits,
                );
                paths = self.process_bodies(&node.children, payload, paths);
                proof {
                    lemma_grown_twice(old(self)@, before, now);
                }
            }
            i = i + 1;
        }
        paths
    }

    /// Ends the flowchart: adds the end, connects the open ends to it, and puts
    /// the jumps behind the other edges.
    fn finish(self, open_ends: Vec<ActivePath>) -> (res: ParseResult)
        ensures
            res@ == (Chart {
                nodes: self@.nodes.push(
                    NodeView { id: "end"@, label: "End"@, kind: "terminal"@ },
                ),
                edges: self@.edges + path_views(open_ends@).map_values(
                    |p: PathView| end_edge(p),
                ) + self@.extra_edges,
            }),
    {
        let GraphBuilder { nodes, edges, id_counter: _, extra_edges } = self;
        let mut nodes = nodes;
        let mut edges = edges;
        let mut extra_edges = extra_edges;
        nodes.push(
            FlowNode {
                id: "end".to_owned(),
                label: "End".to_owned(),
                kind: "terminal".to_owned(),
            },
        );
        let ghost paths = path_views(open_ends@);
        let ghost to_end = paths.map_values(|p: PathView| end_edge(p));
        let mut i: usize = 0;
        while i < open_ends.len()
            invariant
                i <= open_ends.len(),
                paths == path_views(open_ends@),
                to_end == paths.map_values(|p: PathView| end_edge(p)),
                edge_views(edges@) == self@.edges + to_end.take(i as int),
            decreases open_ends.len() - i,
        {
            let path = &open_ends[i];
            let mut id = "e-".to_owned();
            id.append(path.node_id.as_str());
            id.append("-end");
            let ghost before = edge_views(edges@);
            edges.push(
                FlowEdge {
                    id,
                    source: path.node_id.clone(),
                    target: "end".to_owned(),
                    label: "".to_owned(),
                },
            );
            proof {
                assert(edge_views(edges@) == before.push(end_edge(paths[i as int])));
            }
            i = i + 1;
        }
        let ghost drawn = edge_views(edges@);
        edges.append(&mut extra_edges);
        let res = ParseResult { nodes, edges };
        proof {
            assert(res@.nodes == self@.nodes.push(
                NodeView { id: "end"@, label: "End"@, kind: "terminal"@ },
            ));
            assert(to_end.take(to_end.len() as int) == to_end);
            assert(res@.edges == drawn + self@.extra_edges);
        }
        res
    }
}

/// Draws the flowchart of a program.
pub fn draw_program(root: &SyntaxNode, code: &str) -> (res: ParseResult)
    requires
        drawable_program(root@, code@),
    ensures
        res@ == chart(root@, code@),
{
    let mut builder = GraphBuilder::new();
    let ghost empty = builder@;
    let mut start: Vec<ActivePath> = Vec::new();
    start.push(ActivePath { node_id: "start".to_owned(), label: "".to_owned() });
    assert(path_views(start@) == seq![plain_path("start"@)]);
    let open_ends = builder.process_functions(&root.children, code, start);
    proof {
        let drawn = program(root@, code@);
        assert(grown(empty, drawn).nodes == drawn.nodes);
        assert(grown(empty, drawn).edges == drawn.edges);
        assert(grown(empty, drawn).extra_edges == drawn.jumps);
    }
    builder.finish(open_ends)
}

} // verus!
