//! Drawing statements.
use crate::composition::lemma_branching_kinds;
use crate::drawable::{drawable, drawable_cases, drawable_if_any, drawable_list, leaves_out, skips};
use crate::entry::{law_statement_is_entered, lemma_sequence_is_entered, lemma_way_found};
use crate::flow::{
    body_start, cases, condition_text, connector, do_statement, draw_node, for_back_jumps,
    for_decision, for_head, for_initializer, for_statement, grown, has_text, has_text_if_any,
    if_statement, labelled_path, omits, optional_statement, pass, sequence, statement,
    switch_context, switch_statement, text_of, way_in, way_into, while_statement, Fragment, Omitted,
    Way,
};
use crate::graph::{
    context_view, node_id, node_name, path_views, ActivePath, ContextView, GraphBuilder, GraphView,
    LoopContext, PathView,
};
use crate::syntax::{optional_syntax, syntax_list, Syntax, SyntaxNode};
use crate::text::{has_char, same_text, slice, trim, trim_end, CharClass};
use vstd::prelude::*;
use vstd::string::*;

verus! {

/// The text of `node` in `code`.
fn text<'a>(node: &SyntaxNode, code: &'a str) -> (res: &'a str)
    requires
        has_text(node@, code@),
    ensures
        res@ == text_of(node@, code@),
{
    match slice(code, node.start, node.end) {
        Some(t) => t,
        None => "",
    }
}

/// The open end that leaves `id` under `label`, alone.
fn one_path(id: &String, label: &str) -> (res: Vec<ActivePath>)
    ensures
        path_views(res@) == seq![labelled_path(id@, label@)],
{
    let mut res: Vec<ActivePath> = Vec::new();
    res.push(ActivePath { node_id: id.clone(), label: label.to_owned() });
    proof {
        assert(path_views(res@) == seq![labelled_path(id@, label@)]);
    }
    res
}

/// No open end.
fn no_path() -> (res: Vec<ActivePath>)
    ensures
        path_views(res@) == Seq::<PathView>::empty(),
{
    let res: Vec<ActivePath> = Vec::new();
    proof {
        assert(path_views(res@) == Seq::<PathView>::empty());
    }
    res
}

/// Declarations and returns are of none of the kinds that are drawn by their
/// parts.
proof fn lemma_text_kinds(kind: Seq<char>)
    ensures
        kind == "declaration"@ || kind == "return_statement"@ ==> {
            &&& kind != "compound_statement"@
            &&& kind != "else_clause"@
            &&& kind != "break_statement"@
            &&& kind != "continue_statement"@
            &&& kind != "if_statement"@
            &&& kind != "while_statement"@
            &&& kind != "for_statement"@
            &&& kind != "do_statement"@
            &&& kind != "switch_statement"@
        },
{
    reveal_strlit("declaration");
    reveal_strlit("return_statement");
    reveal_strlit("compound_statement");
    reveal_strlit("else_clause");
    reveal_strlit("break_statement");
    reveal_strlit("continue_statement");
    reveal_strlit("if_statement");
    reveal_strlit("while_statement");
    reveal_strlit("for_statement");
    reveal_strlit("do_statement");
    reveal_strlit("switch_statement");
    if kind == "declaration"@ {
        assert(kind[0] == 'd' && kind[1] == 'e');
    }
    if kind == "return_statement"@ {
        assert(kind[0] == 'r');
    }
}

/// How a statement is entered.
enum Entry {
    Through,
    At(usize),
    Away,
}

impl Entry {
    /// What it stands for.
    spec fn way(&self) -> Way {
        match self {
            Entry::Through => Way::Through,
            Entry::At(k) => Way::At(*k as nat),
            Entry::Away => Way::Away,
        }
    }
}

/// How `node` is entered. The ghost arguments are those that it was drawn with:
/// its nodes could be numbered, so those up to the one at which it is entered
/// can be counted.
fn entry_of(
    node: &SyntaxNode,
    payload: &str,
    Ghost(n): Ghost<nat>,
    Ghost(m): Ghost<nat>,
    Ghost(entry): Ghost<Seq<PathView>>,
    Ghost(context): Ghost<Option<ContextView>>,
) -> (res: Entry)
    requires
        drawable(node@, payload@),
        n + statement(node@, payload@, n, m, entry, context).nodes.len() <= usize::MAX,
    ensures
        res.way() == way_in(node@, payload@),
    decreases node, 1nat,
{
    let kind = node.kind.as_str();
    if skips(kind) {
        return Entry::Through;
    }
    proof {
        lemma_text_kinds(kind@);
    }
    if same_text(kind, "declaration") && !has_char(text(node, payload), '=') {
        return Entry::Through;
    }
    if same_text(kind, "compound_statement") {
        return entry_into(
            &node.children,
            Omitted::Nothing,
            payload,
            Ghost(n),
            Ghost(m),
            Ghost(entry),
            Ghost(context),
        );
    }
    if same_text(kind, "else_clause") {
        return entry_into(
            &node.children,
            Omitted::ElseTokens,
            payload,
            Ghost(n),
            Ghost(m),
            Ghost(entry),
            Ghost(context),
        );
    }
    if same_text(kind, "break_statement") || same_text(kind, "continue_statement") {
        return Entry::Away;
    }
    if same_text(kind, "do_statement") {
        proof {
            lemma_branching_kinds(kind@);
        }
        let ghost around = ContextView { header_id: node_id(n + 1), break_sink_id: node_id(n) };
        return match &node.body {
            Some(b) => {
                proof {
                    let drawn = do_statement(node@, payload@, n, m, entry);
                    let body = optional_statement(
                        node@.body,
                        payload@,
                        n + 2,
                        m,
                        entry,
                        Some(around),
                    );
                    assert(drawn.nodes.len() == 3 + body.nodes.len());
                    law_statement_is_entered(b@, payload@, n + 2, m, entry, Some(around));
                }
                match entry_of(
                    b,
                    payload,
                    Ghost(n + 2),
                    Ghost(m),
                    Ghost(entry),
                    Ghost(Some(around)),
                ) {
                    Entry::Through => Entry::At(1),
                    Entry::At(k) => Entry::At(k + 2),
                    Entry::Away => Entry::Away,
                }
            },
            None => Entry::Away,
        };
    }
    Entry::At(0)
}

/// How a list of statements is entered, the `omitted` ones left out.
fn entry_into(
    nodes: &Vec<SyntaxNode>,
    omitted: Omitted,
    payload: &str,
    Ghost(n): Ghost<nat>,
    Ghost(m): Ghost<nat>,
    Ghost(entry): Ghost<Seq<PathView>>,
    Ghost(context): Ghost<Option<ContextView>>,
) -> (res: Entry)
    requires
        drawable_list(syntax_list(nodes@), omitted, payload@),
        n + sequence(
            syntax_list(nodes@),
            nodes@.len(),
            omitted,
            payload@,
            n,
            m,
            entry,
            context,
        ).nodes.len() <= usize::MAX,
    ensures
        res.way() == way_into(syntax_list(nodes@), nodes@.len(), omitted, payload@),
    decreases nodes, 0nat,
{
    let ghost all = syntax_list(nodes@);
    let mut i: usize = 0;
    while i < nodes.len()
        invariant
            i <= nodes.len(),
            all == syntax_list(nodes@),
            drawable_list(all, omitted, payload@),
            n + sequence(
                all,
                all.len(),
                omitted,
                payload@,
                n,
                m,
                entry,
                context,
            ).nodes.len() <= usize::MAX,
            way_into(all, i as nat, omitted, payload@) is Through,
        decreases nodes.len() - i,
    {
        let node = &nodes[i];
        assert(node@ == all[i as int]);
        if !leaves_out(omitted, node.kind.as_str()) {
            assert(drawable(all[i as int], payload@)) by {
                assert(!omits(omitted, all[i as int].kind));
            }
            proof {
                lemma_sequence_is_entered(all, i as nat, omitted, payload@, n, m, entry, context);
                lemma_sequence_grows(
                    all,
                    (i + 1) as nat,
                    all.len(),
                    omitted,
                    payload@,
                    n,
                    m,
                    entry,
                    context,
                );
            }
            match entry_of(node, payload, Ghost(n), Ghost(m), Ghost(entry), Ghost(context)) {
                Entry::Through => {},
                found => {
                    proof {
                        lemma_way_found(all, (i + 1) as nat, all.len(), omitted, payload@);
                    }
                    return found;
                },
            }
        }
        i = i + 1;
    }
    Entry::Through
}

/// The id of the node at which the body of a `do` with the decision `hid` is
/// entered, whose nodes are numbered from `first` on.
fn body_entry(
    node: &Option<Box<SyntaxNode>>,
    payload: &str,
    hid: &String,
    first: usize,
    Ghost(m): Ghost<nat>,
    Ghost(entry): Ghost<Seq<PathView>>,
    Ghost(around): Ghost<ContextView>,
) -> (res: Option<String>)
    requires
        drawable_if_any(optional_syntax(*node), payload@),
        first >= 2,
        hid@ == node_id((first - 1) as nat),
        first + optional_statement(
            optional_syntax(*node),
            payload@,
            first as nat,
            m,
            entry,
            Some(around),
        ).nodes.len() <= usize::MAX,
    ensures
        match body_start(optional_syntax(*node), payload@, (first - 2) as nat) {
            Some(s) => res matches Some(id) && id@ == node_id(s),
            None => res is None,
        },
{
    match node {
        Some(b) => {
            proof {
                law_statement_is_entered(b@, payload@, first as nat, m, entry, Some(around));
            }
            match entry_of(
                b,
                payload,
                Ghost(first as nat),
                Ghost(m),
                Ghost(entry),
                Ghost(Some(around)),
            ) {
                Entry::Through => Some(hid.clone()),
                Entry::At(k) => Some(node_name(first + k)),
                Entry::Away => None,
            }
        },
        None => None,
    }
}

impl GraphBuilder {
    /// Draws a statement: returns the open ends that it leaves.
    pub fn process_statement(
        &mut self,
        statement: &SyntaxNode,
        payload: &str,
        active_paths: Vec<ActivePath>,
        loop_ctx: Option<&LoopContext>,
    ) -> (res: Vec<ActivePath>)
        requires
            old(self)@.has_room(
                crate::flow::statement(
                    statement@,
                    payload@,
                    old(self)@.id_counter,
                    old(self)@.extra_edges.len(),
                    path_views(active_paths@),
                    context_view(loop_ctx),
                ).nodes.len(),
            ),
            drawable(statement@, payload@),
        ensures
            ({
                let drawn = crate::flow::statement(
                    statement@,
                    payload@,
                    old(self)@.id_counter,
                    old(self)@.extra_edges.len(),
                    path_views(active_paths@),
                    context_view(loop_ctx),
                );
                &&& final(self)@ == grown(old(self)@, drawn)
                &&& path_views(res@) == drawn.exits
            }),
        decreases statement, 1nat,
    {
        let kind = statement.kind.as_str();
        let ghost entry = path_views(active_paths@);
        let ghost drawn = crate::flow::statement(
            statement@,
            payload@,
            old(self)@.id_counter,
            old(self)@.extra_edges.len(),
            entry,
            context_view(loop_ctx),
        );
        if skips(kind) {
            assert(self@ == grown(old(self)@, pass(entry)));
            return active_paths;
        }
        proof {
            lemma_text_kinds(kind@);
        }
        if same_text(kind, "declaration") && !has_char(text(statement, payload), '=') {
            assert(self@ == grown(old(self)@, pass(entry)));
            return active_paths;
        }
        if same_text(kind, "compound_statement") {
            return self.process_list(
                &statement.children,
                Omitted::Nothing,
                payload,
                active_paths,
                loop_ctx,
            );
        }
        if same_text(kind, "else_clause") {
            return self.process_list(
                &statement.children,
                Omitted::ElseTokens,
                payload,
                active_paths,
                loop_ctx,
            );
        }
        if same_text(kind, "return_statement") {
            let code = text(statement, payload).to_owned();
            let _nid = self.draw(code, "return_statement", active_paths.as_slice());
            return no_path();
        }
        if same_text(kind, "break_statement") {
            if let Some(ctx) = loop_ctx {
                self.jump_paths(active_paths.as_slice(), ctx.break_sink_id.as_str());
            }
            assert(self@ == grown(old(self)@, drawn));
            return no_path();
        }
        if same_text(kind, "continue_statement") {
            if let Some(ctx) = loop_ctx {
                self.jump_paths(active_paths.as_slice(), ctx.header_id.as_str());
            }
            assert(self@ == grown(old(self)@, drawn));
            return no_path();
        }
        if same_text(kind, "if_statement") {
            return self.process_if(statement, payload, active_paths, loop_ctx);
        }
        if same_text(kind, "while_statement") {
            return self.process_while(statement, payload, active_paths, loop_ctx);
        }
        if same_text(kind, "for_statement") {
            return self.process_for(statement, payload, active_paths, loop_ctx);
        }
        if same_text(kind, "do_statement") {
            return self.process_do_while(statement, payload, active_paths, loop_ctx);
        }
        if same_text(kind, "switch_statement") {
            return self.process_switch(statement, payload, active_paths, loop_ctx);
        }
        let code = text(statement, payload).to_owned();
        let nid = self.draw(code, kind, active_paths.as_slice());
        one_path(&nid, "")
    }

    /// Draws a node that the open ends `from` lead to, and returns its id.
    fn draw(&mut self, label: String, kind: &str, from: &[ActivePath]) -> (id: String)
        requires
            old(self)@.has_room(1),
        ensures
            id@ == node_id(old(self)@.id_counter),
            final(self)@ == grown(
                old(self)@,
                draw_node(old(self)@.id_counter, label@, kind@, path_views(from@)),
            ),
    {
        let id = self.add_node(label, kind);
        self.connect_paths(from, id.as_str());
        proof {
            let drawn = draw_node(old(self)@.id_counter, label@, kind@, path_views(from@));
            assert(self@.nodes == grown(old(self)@, drawn).nodes);
            assert(self@.extra_edges == grown(old(self)@, drawn).extra_edges);
        }
        id
    }

    /// Draws a statement, if there is one.
    fn process_optional(
        &mut self,
        node: &Option<Box<SyntaxNode>>,
        payload: &str,
        active_paths: Vec<ActivePath>,
        loop_ctx: Option<&LoopContext>,
    ) -> (res: Vec<ActivePath>)
        requires
            old(self)@.has_room(
                optional_statement(
                    optional_syntax(*node),
                    payload@,
                    old(self)@.id_counter,
                    old(self)@.extra_edges.len(),
                    path_views(active_paths@),
                    context_view(loop_ctx),
                ).nodes.len(),
            ),
            drawable_if_any(optional_syntax(*node), payload@),
        ensures
            ({
                let drawn = optional_statement(
                    optional_syntax(*node),
                    payload@,
                    old(self)@.id_counter,
                    old(self)@.extra_edges.len(),
                    path_views(active_paths@),
                    context_view(loop_ctx),
                );
                &&& final(self)@ == grown(old(self)@, drawn)
                &&& path_views(res@) == drawn.exits
            }),
        decreases node, 2nat,
    {
        match node {
            Some(n) => self.process_statement(n, payload, active_paths, loop_ctx),
            None => {
                assert(self@ == grown(self@, pass(seq![])));
                no_path()
            },
        }
    }

    /// Draws an `if`.
    pub fn process_if(
        &mut self,
        statement: &SyntaxNode,
        payload: &str,
        active_paths: Vec<ActivePath>,
        loop_ctx: Option<&LoopContext>,
    ) -> (res: Vec<ActivePath>)
        requires
            old(self)@.has_room(
                if_statement(
                    statement@,
                    payload@,
                    old(self)@.id_counter,
                    old(self)@.extra_edges.len(),
                    path_views(active_paths@),
                    context_view(loop_ctx),
                ).nodes.len(),
            ),
            statement@.condition is Some,
            has_text_if_any(statement@.condition, payload@),
            drawable_if_any(statement@.consequence, payload@),
            drawable_if_any(statement@.alternative, payload@),
        ensures
            ({
                let drawn = if_statement(
                    statement@,
                    payload@,
                    old(self)@.id_counter,
                    old(self)@.extra_edges.len(),
                    path_views(active_paths@),
                    context_view(loop_ctx),
                );
                &&& final(self)@ == grown(old(self)@, drawn)
                &&& path_views(res@) == drawn.exits
            }),
        decreases statement, 0nat,
    {
        let ghost n = self@.id_counter;
        let ghost m = self@.extra_edges.len();
        let ghost entry = path_views(active_paths@);
        let ghost context = context_view(loop_ctx);
        let label = self.decision_label(&statement.condition, payload);
        let did = self.draw(label, "decision", active_paths.as_slice());
        let ghost head = draw_node(n, label@, "decision"@, entry);
        let ghost open_yes = seq![labelled_path(did@, "Yes"@)];
        let ghost yes = optional_statement(
            statement@.consequence,
            payload@,
            n + 1,
            m,
            open_yes,
            context,
        );
        let yes_paths = one_path(&did, "Yes");
        assert(self@.extra_edges == old(self)@.extra_edges);
        let mut out = self.process_optional(&statement.consequence, payload, yes_paths, loop_ctx);
        proof {
            lemma_grown_twice(old(self)@, head, yes);
        }
        let no_paths = one_path(&did, "No");
        let ghost open_no = seq![labelled_path(did@, "No"@)];
        let ghost no = match statement@.alternative {
            Some(s) => crate::flow::statement(
                *s,
                payload@,
                n + 1 + yes.nodes.len(),
                m + yes.jumps.len(),
                open_no,
                context,
            ),
            None => pass(open_no),
        };
        let mut rest = match &statement.alternative {
            Some(alt) => self.process_statement(alt, payload, no_paths, loop_ctx),
            None => {
                assert(self@ == grown(self@, pass(open_no)));
                no_paths
            },
        };
        proof {
            lemma_grown_twice(old(self)@, head.then_draw(yes), no);
        }
        out.append(&mut rest);
        proof {
            assert(path_views(out@) == yes.exits + no.exits);
        }
        out
    }

    /// The label of the decision on a condition.
    fn decision_label(&self, node: &Option<Box<SyntaxNode>>, payload: &str) -> (res: String)
        requires
            node is Some,
            has_text_if_any(optional_syntax(*node), payload@),
        ensures
            res@ == condition_text(optional_syntax(*node), payload@),
    {
        match node {
            Some(c) => self.clean_condition(text(c, payload)),
            None => String::new(),
        }
    }

    /// Draws a `while`.
    pub fn process_while(
        &mut self,
        statement: &SyntaxNode,
        payload: &str,
        active_paths: Vec<ActivePath>,
        _lctx: Option<&LoopContext>,
    ) -> (res: Vec<ActivePath>)
        requires
            old(self)@.has_room(
                while_statement(
                    statement@,
                    payload@,
                    old(self)@.id_counter,
                    old(self)@.extra_edges.len(),
                    path_views(active_paths@),
                ).nodes.len(),
            ),
            statement@.condition is Some,
            has_text_if_any(statement@.condition, payload@),
            drawable_if_any(statement@.body, payload@),
        ensures
            ({
                let drawn = while_statement(
                    statement@,
                    payload@,
                    old(self)@.id_counter,
                    old(self)@.extra_edges.len(),
                    path_views(active_paths@),
                );
                &&& final(self)@ == grown(old(self)@, drawn)
                &&& path_views(res@) == drawn.exits
            }),
        decreases statement, 0nat,
    {
        let ghost n = self@.id_counter;
        let ghost m = self@.extra_edges.len();
        let ghost entry = path_views(active_paths@);
        let label = self.decision_label(&statement.condition, payload);
        let hid = self.draw(label, "decision", active_paths.as_slice());
        let ghost head = draw_node(n, label@, "decision"@, entry);
        let bsid = self.add_node("".to_owned(), "connector");
        let ictx = LoopContext { header_id: hid.clone(), break_sink_id: bsid.clone() };
        let yes = one_path(&hid, "Yes");
        assert(self@.extra_edges == old(self)@.extra_edges);
        let exits = self.process_optional(&statement.body, payload, yes, Some(&ictx));
        self.jump_paths(exits.as_slice(), hid.as_str());
        self.add_extra_edge(hid.as_str(), bsid.as_str(), "No");
        proof {
            let drawn = while_statement(statement@, payload@, n, m, entry);
            assert(self@.nodes == grown(old(self)@, drawn).nodes);
            assert(self@.edges == grown(old(self)@, drawn).edges);
            assert(self@.extra_edges == grown(old(self)@, drawn).extra_edges);
        }
        one_path(&bsid, "")
    }

    /// Draws the first clause of a `for`.
    fn process_initializer(
        &mut self,
        statement: &SyntaxNode,
        payload: &str,
        active_paths: Vec<ActivePath>,
    ) -> (res: Vec<ActivePath>)
        requires
            old(self)@.has_room(
                for_initializer(
                    statement@,
                    payload@,
                    old(self)@.id_counter,
                    path_views(active_paths@),
                ).nodes.len(),
            ),
            has_text_if_any(statement@.initializer, payload@),
        ensures
            ({
                let drawn = for_initializer(
                    statement@,
                    payload@,
                    old(self)@.id_counter,
                    path_views(active_paths@),
                );
                &&& final(self)@ == grown(old(self)@, drawn)
                &&& path_views(res@) == drawn.exits
            }),
    {
        proof {
            assert(self@ == grown(self@, pass(path_views(active_paths@))));
        }
        if let Some(init) = &statement.initializer {
            let raw = trim(
                trim_end(text(init, payload), CharClass::Semicolon),
                CharClass::WhiteSpace,
            );
            if !raw.is_empty() {
                let nid = self.draw(
                    raw.to_owned(),
                    "expression_statement",
                    active_paths.as_slice(),
                );
                return one_path(&nid, "");
            }
        }
        active_paths
    }

    /// Draws the head of a `for`: returns the context of its body and the id of
    /// the update.
    fn process_for_head(
        &mut self,
        statement: &SyntaxNode,
        payload: &str,
        active_paths: Vec<ActivePath>,
    ) -> (res: (LoopContext, Option<String>))
        requires
            old(self)@.has_room(
                for_head(
                    statement@,
                    payload@,
                    old(self)@.id_counter,
                    path_views(active_paths@),
                ).nodes.len(),
            ),
            has_text_if_any(statement@.initializer, payload@),
            has_text_if_any(statement@.condition, payload@),
            has_text_if_any(statement@.update, payload@),
        ensures
            ({
                let n = old(self)@.id_counter;
                let entry = path_views(active_paths@);
                let h = for_decision(statement@, payload@, n, entry);
                &&& final(self)@ == grown(old(self)@, for_head(statement@, payload@, n, entry))
                &&& res.0@ == (ContextView {
                    header_id: node_id(h),
                    break_sink_id: node_id(h + 1),
                })
                &&& res.1 is Some <==> statement@.update is Some
                &&& res.1 matches Some(uid) ==> uid@ == node_id(h + 2)
            }),
    {
        let ghost n = self@.id_counter;
        let ghost entry = path_views(active_paths@);
        let ghost init = for_initializer(statement@, payload@, n, entry);
        let after_init = self.process_initializer(statement, payload, active_paths);
        let ghost h = for_decision(statement@, payload@, n, entry);
        let cond_label = match &statement.condition {
            Some(c) => trim(
                trim_end(text(c, payload), CharClass::Semicolon),
                CharClass::WhiteSpace,
            ).to_owned(),
            None => "true".to_owned(),
        };
        let hid = self.draw(cond_label, "decision", after_init.as_slice());
        proof {
            lemma_grown_twice(
                old(self)@,
                init,
                draw_node(h, cond_label@, "decision"@, init.exits),
            );
        }
        let bsid = self.add_node("".to_owned(), "connector");
        let uid_opt = match &statement.update {
            Some(u) => {
                let raw = trim(text(u, payload), CharClass::WhiteSpace).to_owned();
                Some(self.add_node(raw, "expression_statement"))
            },
            None => None,
        };
        proof {
            let drawn = for_head(statement@, payload@, n, entry);
            assert(self@.nodes == grown(old(self)@, drawn).nodes);
            assert(self@.edges == grown(old(self)@, drawn).edges);
            assert(self@.extra_edges == grown(old(self)@, drawn).extra_edges);
        }
        (LoopContext { header_id: hid, break_sink_id: bsid }, uid_opt)
    }

    /// Draws the body of a `for` and the jumps back to its decision, which is
    /// the header of `ictx`, over the update where there is one.
    fn process_for_body(
        &mut self,
        node: &Option<Box<SyntaxNode>>,
        payload: &str,
        ictx: &LoopContext,
        uid_opt: &Option<String>,
    )
        requires
            old(self)@.has_room(
                optional_statement(
                    optional_syntax(*node),
                    payload@,
                    old(self)@.id_counter,
                    old(self)@.extra_edges.len(),
                    seq![labelled_path(ictx@.header_id, "Yes"@)],
                    Some(ictx@),
                ).nodes.len(),
            ),
            drawable_if_any(optional_syntax(*node), payload@),
        ensures
            ({
                let header = ictx@.header_id;
                let m = old(self)@.extra_edges.len();
                let body = optional_statement(
                    optional_syntax(*node),
                    payload@,
                    old(self)@.id_counter,
                    m,
                    seq![labelled_path(header, "Yes"@)],
                    Some(ictx@),
                );
                let back = for_back_jumps(
                    node is Some,
                    match uid_opt {
                        Some(uid) => Some(uid@),
                        None => None,
                    },
                    header,
                    body.exits,
                    m + body.jumps.len(),
                );
                final(self)@ == grown(
                    old(self)@,
                    Fragment { jumps: body.jumps + back, ..body },
                )
            }),
        decreases node, 2nat,
    {
        let ghost before = self@;
        match node {
            Some(b) => {
                let yes = one_path(&ictx.header_id, "Yes");
                let exits = self.process_statement(b, payload, yes, Some(ictx));
                match uid_opt {
                    Some(uid) => {
                        self.jump_paths(exits.as_slice(), uid.as_str());
                        self.add_extra_edge(uid.as_str(), ictx.header_id.as_str(), "");
                    },
                    None => {
                        self.jump_paths(exits.as_slice(), ictx.header_id.as_str());
                    },
                }
            },
            None => {},
        }
        proof {
            let header = ictx@.header_id;
            let m = before.extra_edges.len();
            let body = optional_statement(
                optional_syntax(*node),
                payload@,
                before.id_counter,
                m,
                seq![labelled_path(header, "Yes"@)],
                Some(ictx@),
            );
            let back = for_back_jumps(
                node is Some,
                match uid_opt {
                    Some(uid) => Some(uid@),
                    None => None,
                },
                header,
                body.exits,
                m + body.jumps.len(),
            );
            assert(self@.nodes == before.nodes + body.nodes);
            assert(self@.edges == before.edges + body.edges);
            assert(self@.extra_edges == before.extra_edges + (body.jumps + back));
        }
    }

    /// Draws a `for`.
    pub fn process_for(
        &mut self,
        statement: &SyntaxNode,
        payload: &str,
        active_paths: Vec<ActivePath>,
        _lctx: Option<&LoopContext>,
    ) -> (res: Vec<ActivePath>)
        requires
            old(self)@.has_room(
                for_statement(
                    statement@,
                    payload@,
                    old(self)@.id_counter,
                    old(self)@.extra_edges.len(),
                    path_views(active_paths@),
                ).nodes.len(),
            ),
            has_text_if_any(statement@.initializer, payload@),
            has_text_if_any(statement@.condition, payload@),
            has_text_if_any(statement@.update, payload@),
            drawable_if_any(statement@.body, payload@),
        ensures
            ({
                let drawn = for_statement(
                    statement@,
                    payload@,
                    old(self)@.id_counter,
                    old(self)@.extra_edges.len(),
                    path_views(active_paths@),
                );
                &&& final(self)@ == grown(old(self)@, drawn)
                &&& path_views(res@) == drawn.exits
            }),
        decreases statement, 0nat,
    {
        let ghost n = self@.id_counter;
        let ghost m = self@.extra_edges.len();
        let ghost entry = path_views(active_paths@);
        let (ictx, uid_opt) = self.process_for_head(statement, payload, active_paths);
        assert(self@.extra_edges == old(self)@.extra_edges);
        self.process_for_body(&statement.body, payload, &ictx, &uid_opt);
        self.add_extra_edge(ictx.header_id.as_str(), ictx.break_sink_id.as_str(), "No");
        proof {
            let drawn = for_statement(statement@, payload@, n, m, entry);
            assert(self@.nodes == grown(old(self)@, drawn).nodes);
            assert(self@.edges == grown(old(self)@, drawn).edges);
            assert(self@.extra_edges == grown(old(self)@, drawn).extra_edges);
        }
        one_path(&ictx.break_sink_id, "")
    }

    /// Draws a `do`.
    pub fn process_do_while(
        &mut self,
        statement: &SyntaxNode,
        payload: &str,
        active_paths: Vec<ActivePath>,
        _lctx: Option<&LoopContext>,
    ) -> (res: Vec<ActivePath>)
        requires
            old(self)@.has_room(
                do_statement(
                    statement@,
                    payload@,
                    old(self)@.id_counter,
                    old(self)@.extra_edges.len(),
                    path_views(active_paths@),
                ).nodes.len(),
            ),
            statement@.condition is Some,
            has_text_if_any(statement@.condition, payload@),
            drawable_if_any(statement@.body, payload@),
        ensures
            ({
                let drawn = do_statement(
                    statement@,
                    payload@,
                    old(self)@.id_counter,
                    old(self)@.extra_edges.len(),
                    path_views(active_paths@),
                );
                &&& final(self)@ == grown(old(self)@, drawn)
                &&& path_views(res@) == drawn.exits
            }),
        decreases statement, 0nat,
    {
        let ghost n = self@.id_counter;
        let ghost m = self@.extra_edges.len();
        let ghost entry = path_views(active_paths@);
        let bsid = self.add_node("".to_owned(), "connector");
        let label = self.decision_label(&statement.condition, payload);
        let hid = self.add_node(label, "decision");
        let ictx = LoopContext { header_id: hid.clone(), break_sink_id: bsid.clone() };
        let first = self.id_counter;
        let exits = self.process_optional(&statement.body, payload, active_paths, Some(&ictx));
        let start = body_entry(
            &statement.body,
            payload,
            &hid,
            first,
            Ghost(m),
            Ghost(entry),
            Ghost(ictx@),
        );
        self.connect_paths(exits.as_slice(), hid.as_str());
        let body_start_id = self.add_node("".to_owned(), "connector");
        if let Some(id) = &start {
            self.connect_paths(one_path(&body_start_id, "").as_slice(), id.as_str());
        }
        self.add_extra_edge(hid.as_str(), body_start_id.as_str(), "Yes");
        self.add_extra_edge(hid.as_str(), bsid.as_str(), "No");
        proof {
            let drawn = do_statement(statement@, payload@, n, m, entry);
            assert(self@.nodes == grown(old(self)@, drawn).nodes);
            assert(self@.edges == grown(old(self)@, drawn).edges);
            assert(self@.extra_edges == grown(old(self)@, drawn).extra_edges);
        }
        one_path(&bsid, "")
    }

    /// Draws a `switch`.
    pub fn process_switch(
        &mut self,
        statement: &SyntaxNode,
        payload: &str,
        active_paths: Vec<ActivePath>,
        loop_ctx: Option<&LoopContext>,
    ) -> (res: Vec<ActivePath>)
        requires
            old(self)@.has_room(
                switch_statement(
                    statement@,
                    payload@,
                    old(self)@.id_counter,
                    old(self)@.extra_edges.len(),
                    path_views(active_paths@),
                    context_view(loop_ctx),
                ).nodes.len(),
            ),
            statement@.value is Some,
            has_text_if_any(statement@.value, payload@),
            statement@.body matches Some(b) ==> drawable_cases(b.children, payload@),
        ensures
            ({
                let drawn = switch_statement(
                    statement@,
                    payload@,
                    old(self)@.id_counter,
                    old(self)@.extra_edges.len(),
                    path_views(active_paths@),
                    context_view(loop_ctx),
                );
                &&& final(self)@ == grown(old(self)@, drawn)
                &&& path_views(res@) == drawn.exits
            }),
        decreases statement, 0nat,
    {
        let ghost n = self@.id_counter;
        let ghost m = self@.extra_edges.len();
        let ghost entry = path_views(active_paths@);
        let mut label = "switch (".to_owned();
        if let Some(v) = &statement.value {
            label.append(text(v, payload));
        }
        label.append(")");
        let sid = self.draw(label, "decision", active_paths.as_slice());
        let eid = self.add_node("".to_owned(), "connector");
        let header_id = match loop_ctx {
            Some(ctx) => ctx.header_id.clone(),
            None => sid.clone(),
        };
        let ictx = LoopContext { header_id, break_sink_id: eid.clone() };
        assert(ictx@ == switch_context(context_view(loop_ctx), sid@, eid@));
        assert(self@.extra_edges == old(self)@.extra_edges);
        match &statement.body {
            Some(b) => {
                assert(statement@.body == Some(Box::new(b@)));
                assert(b@.children == syntax_list(b.children@));
                self.process_cases(&b.children, payload, &sid, &ictx);
            },
            None => {},
        }
        proof {
            let drawn = switch_statement(
                statement@,
                payload@,
                n,
                m,
                entry,
                context_view(loop_ctx),
            );
            assert(self@.nodes == grown(old(self)@, drawn).nodes);
            assert(self@.edges == grown(old(self)@, drawn).edges);
            assert(self@.extra_edges == grown(old(self)@, drawn).extra_edges);
        }
        one_path(&eid, "")
    }

    /// Draws the `case`s of a `switch` whose decision is `sid`.
    fn process_cases(
        &mut self,
        nodes: &Vec<SyntaxNode>,
        payload: &str,
        sid: &String,
        ictx: &LoopContext,
    )
        requires
            old(self)@.has_room(
                cases(
                    syntax_list(nodes@),
                    nodes@.len(),
                    payload@,
                    old(self)@.id_counter,
                    old(self)@.extra_edges.len(),
                    sid@,
                    ictx@,
                ).nodes.len(),
            ),
            drawable_cases(syntax_list(nodes@), payload@),
        ensures
            final(self)@ == grown(
                old(self)@,
                cases(
                    syntax_list(nodes@),
                    nodes@.len(),
                    payload@,
                    old(self)@.id_counter,
                    old(self)@.extra_edges.len(),
                    sid@,
                    ictx@,
                ),
            ),
        decreases nodes, 0nat,
    {
        let ghost all = syntax_list(nodes@);
        let ghost n = self@.id_counter;
        let ghost m = self@.extra_edges.len();
        let ghost switch = sid@;
        let ghost around = ictx@;
        let mut i: usize = 0;
        proof {
            assert(self@ == grown(self@, pass(seq![])));
        }
        while i < nodes.len()
            invariant
                i <= nodes.len(),
                all == syntax_list(nodes@),
                n == old(self)@.id_counter,
                m == old(self)@.extra_edges.len(),
                switch == sid@,
                around == ictx@,
                old(self)@.has_room(
                    cases(all, all.len(), payload@, n, m, switch, around).nodes.len(),
                ),
                drawable_cases(all, payload@),
                self@ == grown(
                    old(self)@,
                    cases(all, i as nat, payload@, n, m, switch, around),
                ),
            decreases nodes.len() - i,
        {
            let node = &nodes[i];
            assert(node@ == all[i as int]);
            if same_text(node.kind.as_str(), "case_statement") {
                assert(all[i as int].kind == "case_statement"@);
                let label = match &node.value {
                    Some(v) => {
                        let mut l = "Case ".to_owned();
                        l.append(text(v, payload));
                        l
                    },
                    None => "Default".to_owned(),
                };
                let entry = one_path(sid, label.as_str());
                proof {
                    lemma_cases_grow(
                        all,
                        (i + 1) as nat,
                        all.len(),
                        payload@,
                        n,
                        m,
                        switch,
                        around,
                    );
                }
                let case_paths = self.process_list(
                    &node.children,
                    Omitted::CaseTokens,
                    payload,
                    entry,
                    Some(ictx),
                );
                self.jump_paths(case_paths.as_slice(), ictx.break_sink_id.as_str());
                proof {
                    let drawn = cases(all, (i + 1) as nat, payload@, n, m, switch, around);
                    assert(self@.nodes == grown(old(self)@, drawn).nodes);
                    assert(self@.edges == grown(old(self)@, drawn).edges);
                    assert(self@.extra_edges == grown(old(self)@, drawn).extra_edges);
                }
            }
            i = i + 1;
        }
    }

    /// Draws statements one after another.
    pub(crate) fn process_list(
        &mut self,
        nodes: &Vec<SyntaxNode>,
        omitted: Omitted,
        payload: &str,
        active_paths: Vec<ActivePath>,
        loop_ctx: Option<&LoopContext>,
    ) -> (res: Vec<ActivePath>)
        requires
            old(self)@.has_room(
                sequence(
                    syntax_list(nodes@),
                    nodes@.len(),
                    omitted,
                    payload@,
                    old(self)@.id_counter,
                    old(self)@.extra_edges.len(),
                    path_views(active_paths@),
                    context_view(loop_ctx),
                ).nodes.len(),
            ),
            drawable_list(syntax_list(nodes@), omitted, payload@),
        ensures
            ({
                let drawn = sequence(
                    syntax_list(nodes@),
                    nodes@.len(),
                    omitted,
                    payload@,
                    old(self)@.id_counter,
                    old(self)@.extra_edges.len(),
                    path_views(active_paths@),
                    context_view(loop_ctx),
                );
                &&& final(self)@ == grown(old(self)@, drawn)
                &&& path_views(res@) == drawn.exits
            }),
        decreases nodes, 0nat,
    {
        let ghost all = syntax_list(nodes@);
        let ghost n = self@.id_counter;
        let ghost m = self@.extra_edges.len();
        let ghost entry = path_views(active_paths@);
        let ghost context = context_view(loop_ctx);
        let mut paths = active_paths;
        let mut i: usize = 0;
        proof {
            assert(self@ == grown(self@, pass(entry)));
        }
        while i < nodes.len()
            invariant
                i <= nodes.len(),
                all == syntax_list(nodes@),
                n == old(self)@.id_counter,
                m == old(self)@.extra_edges.len(),
                context == context_view(loop_ctx),
                old(self)@.has_room(
                    sequence(
                        all,
                        all.len(),
                        omitted,
                        payload@,
                        n,
                        m,
                        entry,
                        context,
                    ).nodes.len(),
                ),
                drawable_list(all, omitted, payload@),
                self@ == grown(
                    old(self)@,
                    sequence(all, i as nat, omitted, payload@, n, m, entry, context),
                ),
                path_views(paths@) == sequence(
                    all,
                    i as nat,
                    omitted,
                    payload@,
                    n,
                    m,
                    entry,
                    context,
                ).exits,
            decreases nodes.len() - i,
        {
            let node = &nodes[i];
            assert(node@ == all[i as int]);
            let ghost before = sequence(all, i as nat, omitted, payload@, n, m, entry, context);
            if !leaves_out(omitted, node.kind.as_str()) {
                assert(drawable(all[i as int], payload@)) by {
                    assert(!omits(omitted, all[i as int].kind));
                }
                let ghost now = statement(
                    node@,
                    payload@,
                    n + before.nodes.len(),
                    m + before.jumps.len(),
                    before.exits,
                    context,
                );
                proof {
                    lemma_sequence_grows(
                        all,
                        (i + 1) as nat,
                        all.len(),
                        omitted,
                        payload@,
                        n,
                        m,
                        entry,
                        context,
                    );
                }
                paths = self.process_statement(node, payload, paths, loop_ctx);
                proof {
                    lemma_grown_twice(old(self)@, before, now);
                }
            }
            i = i + 1;
        }
        paths
    }
}

/// More statements draw more nodes.
proof fn lemma_sequence_grows(
    nodes: Seq<Syntax>,
    j: nat,
    k: nat,
    omitted: Omitted,
    code: Seq<char>,
    n: nat,
    m: nat,
    entry: Seq<PathView>,
    context: Option<ContextView>,
)
    requires
        j <= k <= nodes.len(),
    ensures
        sequence(nodes, j, omitted, code, n, m, entry, context).nodes.len() <= sequence(
            nodes,
            k,
            omitted,
            code,
            n,
            m,
            entry,
            context,
        ).nodes.len(),
    decreases k,
{
    if j < k {
        lemma_sequence_grows(
            nodes,
            j,
            (k - 1) as nat,
            omitted,
            code,
            n,
            m,
            entry,
            context,
        );
    }
}

/// More `case`s draw more nodes.
proof fn lemma_cases_grow(
    nodes: Seq<Syntax>,
    j: nat,
    k: nat,
    code: Seq<char>,
    n: nat,
    m: nat,
    switch: Seq<char>,
    around: ContextView,
)
    requires
        j <= k <= nodes.len(),
    ensures
        cases(nodes, j, code, n, m, switch, around).nodes.len() <= cases(
            nodes,
            k,
            code,
            n,
            m,
            switch,
            around,
        ).nodes.len(),
    decreases k,
{
    if j < k {
        lemma_cases_grow(nodes, j, (k - 1) as nat, code, n, m, switch, around);
    }
}

/// Drawing one fragment after another is drawing both at once.
pub proof fn lemma_grown_twice(graph: GraphView, first: Fragment, second: Fragment)
    ensures
        grown(grown(graph, first), second) == grown(graph, first.then_draw(second)),
{
    let a = grown(grown(graph, first), second);
    let b = grown(graph, first.then_draw(second));
    assert(a.nodes == b.nodes);
    assert(a.edges == b.edges);
    assert(a.extra_edges == b.extra_edges);
}

} // verus!
