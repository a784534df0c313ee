//! The walk over a syntax tree that builds the graph.

use vstd::prelude::*;
use vstd::hash_map::StringHashMap;
use vstd::hash_set::StringHashSet;
use vstd::string::StringExecFns;
use crate::buffers::{
    build_meta, none_str, opt_str, Arena, BoolFlags, EdgeRow, EmitOut, NodeRow, RefRow, Tables,
    FLAG_IS_EXPORTED, NONE,
};
use crate::docstring::preceding_docstring;
use crate::events::{
    annotated_with, argument_events, argument_list, base_mention, base_of, base_text, body_each,
    body_events, call_events, callee_of, class_events, classify, clause_mentions, declaration_at,
    declared_name, documented, end_column_of, end_line_of, enum_events, enumerator_declaration,
    enumerator_events, extends_events, first_base, flush_values, function_declaration,
    function_events, inherited, lambda_declaration, lambda_events, lambda_name, lemma_run_scoped,
    mention_of, mentions_of, plain_declaration, return_type_of, scoped, script_declaration,
    signature_of, start_column_of, start_line_of, uses_in_each, uses_of, value_declaration,
    value_signature, variable_events, visit_each, visit_events, SyntaxKind,
};
use crate::graph::{
    add_ref, add_refs, apply, declare, enter, extend_all, extend_from, file_graph,
    flush_candidates, in_class_like, is_output, latest_row, leave, lemma_add_refs_concat,
    lemma_add_refs_keeps_nodes, lemma_run_concat, lemma_run_none, lemma_run_one, name_script,
    nearest_class, qualified_name_of, run, scope_names, top_row, CandidateModel, Event, ExtraModel,
    Graph, Mention, MetaModel, ScopeModel, ValueScopeModel,
};
use crate::ids;
use crate::kinds::{
    edge_code, edge_kind_index, is_class_like, is_value_host, node_kind_index, EdgeKind, NodeKind,
    FUNCTION_REF_CODE,
};
use crate::syntax::{
    children_of_kind, named_children, node_fits, node_text, opt_view, tree_fits, NodeModel,
    SyntaxTree,
};
use crate::textutil::{
    append_decimal, base_name, col16, contains_word, count_newlines, has_upper_or_underscore,
    init_signature, is_line_table, is_simple_name, join, line_starts, str_eq, texts, utf16_len,
    without_quotes,
};

verus! {

/// An open scope.
pub struct Scope {
    pub row: u32,
    pub kind: NodeKind,
    pub name: String,
}

impl View for Scope {
    type V = ScopeModel;

    open spec fn view(&self) -> ScopeModel {
        ScopeModel { row: self.row, kind: self.kind, name: self.name@ }
    }
}

/// What a declaration adds to its name and place.
pub struct Extra {
    pub docstring: Option<String>,
    pub signature: Option<String>,
    pub is_exported: Option<bool>,
    pub return_type: Option<String>,
    pub qualified_name: Option<String>,
}

impl View for Extra {
    type V = ExtraModel;

    open spec fn view(&self) -> ExtraModel {
        ExtraModel {
            docstring: opt_view(self.docstring),
            signature: opt_view(self.signature),
            is_exported: self.is_exported,
            return_type: opt_view(self.return_type),
            qualified_name: opt_view(self.qualified_name),
        }
    }
}

/// A declaration whose name is searched for in the whole file.
pub struct ValueScope {
    pub row: u32,
    pub node: usize,
    pub name: String,
}

impl View for ValueScope {
    type V = ValueScopeModel;

    open spec fn view(&self) -> ValueScopeModel {
        ValueScopeModel { row: self.row, node: self.node as int, name: self.name@ }
    }
}

/// A name that may turn out to mention a function.
pub struct Cand {
    pub from: u32,
    pub name: String,
    pub line: u32,
    pub column_byte: usize,
    pub row: usize,
}

impl View for Cand {
    type V = CandidateModel;

    open spec fn view(&self) -> CandidateModel {
        CandidateModel {
            from: self.from,
            name: self.name@,
            line: self.line,
            column_byte: self.column_byte as int,
            row: self.row as int,
        }
    }
}

/// A base class that a class names, with its place.
pub struct Base {
    pub name: String,
    pub line: u32,
    pub column: u32,
    pub byte: usize,
}

impl View for Base {
    type V = Mention;

    open spec fn view(&self) -> Mention {
        Mention {
            name: self.name@,
            line: self.line,
            column: self.column,
            byte: self.byte as int,
        }
    }
}

/// The kind and name of a node row.
pub struct NodeMeta {
    pub kind: NodeKind,
    pub name: String,
}

impl View for NodeMeta {
    type V = MetaModel;

    open spec fn view(&self) -> MetaModel {
        MetaModel { kind: self.kind, name: self.name@ }
    }
}

/// A walk over the syntax tree of one file.
pub struct Walker<'t> {
    src: &'t str,
    file_path: &'t str,
    tree: &'t SyntaxTree,
    line_starts: Vec<usize>,
    arena: Arena,
    tables: Tables,
    stack: Vec<Scope>,
    nodes_meta: Vec<NodeMeta>,
    node_ids: Vec<String>,
    defined_fn_names: StringHashSet,
    imported_names: StringHashSet,
    fn_ref_cands: Vec<Cand>,
    fs_values: StringHashMap<u32>,
    fs_value_counts: StringHashMap<u32>,
    value_scopes: Vec<ValueScope>,
    script_class: Option<u32>,
    waiting: Vec<Base>,
}

impl<'t> View for Walker<'t> {
    type V = Graph;

    /// The graph built so far.
    closed spec fn view(&self) -> Graph {
        Graph {
            path: self.file_path@,
            arena: self.arena@,
            nodes: self.tables.nodes@,
            edges: self.tables.edges@,
            refs: self.tables.refs@,
            stack: self.stack@.map_values(|s: Scope| s@),
            metas: self.nodes_meta@.map_values(|m: NodeMeta| m@),
            ids: texts(self.node_ids@),
            defined: self.defined_fn_names@,
            imported: self.imported_names@,
            candidates: self.fn_ref_cands@.map_values(|c: Cand| c@),
            values: self.fs_values@,
            value_counts: self.fs_value_counts@,
            value_scopes: self.value_scopes@.map_values(|v: ValueScope| v@),
            script_class: self.script_class,
            waiting: self.waiting@.map_values(|b: Base| b@),
        }
    }
}

/// The string inside an option.
fn opt_as_str(s: &Option<String>) -> (r: Option<&str>)
    ensures
        (match r {
            Some(x) => Some(x@),
            None => None,
        }) == opt_view(*s),
{
    match s {
        Some(x) => Some(x.as_str()),
        None => None,
    }
}

impl<'t> Walker<'t> {
    /// The text that is walked.
    pub closed spec fn source(self) -> Seq<char> {
        self.src@
    }

    /// The syntax tree that is walked.
    pub closed spec fn syntax(self) -> Seq<NodeModel> {
        self.tree@
    }

    /// The line table belongs to the text, the tree fits the text, and every node
    /// row has its kind and name noted.
    pub closed spec fn inv(self) -> bool {
        &&& is_line_table(self.line_starts@, self.src@)
        &&& tree_fits(self.src@, self.tree@)
        &&& self.nodes_meta@.len() == self.tables.nodes@.len()
    }

    /// Whether `self` walks the same text and tree as `other`.
    pub open spec fn walks_as(self, other: Walker<'t>) -> bool {
        &&& self.inv()
        &&& self.source() == other.source()
        &&& self.syntax() == other.syntax()
    }

    /// A walk that has recorded the file and nothing in it yet.
    pub fn new(file_path: &'t str, source: &'t str, tree: &'t SyntaxTree) -> (r: Self)
        requires
            tree_fits(source@, tree@),
        ensures
            r.inv(),
            r.source() == source@,
            r.syntax() == tree@,
            r@ == file_graph(file_path@, source@),
    {
        let line_count = (count_newlines(source) as u32).wrapping_add(1);
        let base = base_name(file_path);
        let id = ids::file_node_id(file_path);
        let mut arena = Arena::default();
        let file_id = arena.put(id.as_str());
        let name_ref = arena.put(base.as_str());
        let qn_ref = arena.put(file_path);
        let mut tables = Tables::default();
        tables.push_node(
            &NodeRow {
                kind: node_kind_index(NodeKind::File),
                visibility: 0,
                flags: BoolFlags::default(),
                start_line: 1,
                end_line: line_count,
                start_column: 0,
                end_column: 0,
                name: name_ref,
                qualified_name: qn_ref,
                id: file_id,
                docstring: none_str(),
                signature: none_str(),
                decorators: none_str(),
                type_parameters: none_str(),
                return_type: none_str(),
                extra_json: none_str(),
            },
        );
        let mut nodes_meta: Vec<NodeMeta> = Vec::new();
        nodes_meta.push(NodeMeta { kind: NodeKind::File, name: base.clone() });
        let mut node_ids: Vec<String> = Vec::new();
        node_ids.push(id);
        let mut stack: Vec<Scope> = Vec::new();
        stack.push(Scope { row: 0, kind: NodeKind::File, name: base });
        let w = Walker {
            src: source,
            file_path,
            tree,
            line_starts: line_starts(source),
            arena,
            tables,
            stack,
            nodes_meta,
            node_ids,
            defined_fn_names: StringHashSet::new(),
            imported_names: StringHashSet::new(),
            fn_ref_cands: Vec::new(),
            fs_values: StringHashMap::new(),
            fs_value_counts: StringHashMap::new(),
            value_scopes: Vec::new(),
            script_class: None,
            waiting: Vec::new(),
        };
        proof {
            assert(w@ =~= file_graph(file_path@, source@));
        }
        w
    }

    /// The tables and strings recorded.
    pub fn finish(self) -> (r: EmitOut)
        ensures
            is_output(r, self@),
    {
        let meta = build_meta(&self.tables, self.arena.len(), none_str());
        EmitOut {
            meta,
            nodes: self.tables.nodes,
            edges: self.tables.edges,
            refs: self.tables.refs,
            arena: self.arena.into_vec(),
        }
    }

    /// The text of the node `node`.
    fn text(&self, node: usize) -> (r: &'t str)
        requires
            self.inv(),
            node < self.syntax().len(),
        ensures
            r@ == node_text(self.source(), self.syntax()[node as int]),
    {
        self.tree.text(self.src, node)
    }

    fn line_of(&self, node: usize) -> (r: u32)
        requires
            self.inv(),
            node < self.syntax().len(),
        ensures
            r == start_line_of(self.syntax()[node as int]),
    {
        (self.tree.nodes[node].start_row as u32).wrapping_add(1)
    }

    fn end_line_of(&self, node: usize) -> (r: u32)
        requires
            self.inv(),
            node < self.syntax().len(),
        ensures
            r == end_line_of(self.syntax()[node as int]),
    {
        (self.tree.nodes[node].end_row as u32).wrapping_add(1)
    }

    fn col_of(&self, node: usize) -> (r: u32)
        requires
            self.inv(),
            node < self.syntax().len(),
        ensures
            r == start_column_of(self.source(), self.syntax()[node as int]),
    {
        assert(node_fits(self.src@, self.tree@[node as int]));
        let n = &self.tree.nodes[node];
        col16(self.src, &self.line_starts, n.start_row, n.start_byte)
    }

    fn end_col_of(&self, node: usize) -> (r: u32)
        requires
            self.inv(),
            node < self.syntax().len(),
        ensures
            r == end_column_of(self.source(), self.syntax()[node as int]),
    {
        assert(node_fits(self.src@, self.tree@[node as int]));
        let n = &self.tree.nodes[node];
        col16(self.src, &self.line_starts, n.end_row, n.end_byte)
    }

    fn top_row(&self) -> (r: u32)
        ensures
            r == top_row(self@.stack),
    {
        let n = self.stack.len();
        if n > 0 {
            self.stack[n - 1].row
        } else {
            0
        }
    }

    fn inside_class_like(&self) -> (r: bool)
        ensures
            r == in_class_like(self@.stack),
    {
        let n = self.stack.len();
        n > 0 && is_class_like(self.stack[n - 1].kind)
    }

    /// Records a reference from the row `from_row` to `name` at the place of `node`.
    fn push_ref_at(&mut self, from_row: u32, name: &str, kind_code: u8, node: usize)
        requires
            old(self).inv(),
            node < old(self).syntax().len(),
        ensures
            final(self).walks_as(*old(self)),
            final(self)@ == add_ref(
                old(self)@,
                from_row,
                kind_code,
                (Mention {
                    name: name@,
                    ..mention_of(old(self).source(), old(self).syntax()[node as int])
                }),
            ),
    {
        let line = self.line_of(node);
        let column = self.col_of(node);
        let name_ref = self.arena.put(name);
        self.tables.push_ref(
            &RefRow {
                from_idx: from_row,
                kind: kind_code,
                line,
                column,
                reference_name: name_ref,
                candidates: none_str(),
                from_id_str: none_str(),
            },
        );
        if kind_code == edge_kind_index(EdgeKind::Imports) {
            if is_simple_name(name) {
                self.imported_names.insert(name.to_owned());
            }
        }
        proof {
            assert(self@ =~= add_ref(
                old(self)@,
                from_row,
                kind_code,
                Mention {
                    name: name@,
                    ..mention_of(old(self).source(), old(self).syntax()[node as int])
                },
            ));
        }
    }

    /// The name of a declaration after the names of the open scopes.
    fn qualified_name(&self, name: &str) -> (r: String)
        ensures
            r@ == qualified_name_of(self@.stack, name@),
    {
        let mut parts: Vec<String> = Vec::new();
        let n = self.stack.len();
        let ghost stack = self@.stack;
        proof {
            assert(stack.take(0) =~= Seq::<ScopeModel>::empty());
            assert(texts(parts@) =~= Seq::<Seq<char>>::empty());
        }
        for i in 0..n
            invariant
                n == self.stack@.len(),
                stack == self@.stack,
                texts(parts@) == scope_names(stack.take(i as int)),
        {
            let ghost before = parts@;
            proof {
                assert(stack.take(i + 1).drop_last() =~= stack.take(i as int));
                assert(stack.take(i + 1).last() == self.stack@[i as int]@);
            }
            if self.stack[i].kind != NodeKind::File {
                parts.push(self.stack[i].name.clone());
                proof {
                    assert(texts(parts@) =~= texts(before).push(self.stack@[i as int].name@));
                }
            }
        }
        proof {
            assert(stack.take(n as int) =~= stack);
        }
        let mut out = join(&parts, "::");
        if !out.as_str().is_empty() {
            out.append("::");
            out.append(name);
        } else {
            out.append(name);
            proof {
                assert(out@ =~= name@);
            }
        }
        out
    }

    /// Records a declaration of `name` by the node `node` and returns its row; a
    /// declaration without a name is not recorded.
    pub fn create_node(&mut self, kind: NodeKind, name: &str, node: usize, extra: Extra) -> (r: Option<
        u32,
    >)
        requires
            old(self).inv(),
            node < old(self).syntax().len(),
        ensures
            final(self).walks_as(*old(self)),
            name@.len() == 0 ==> r is None && final(self)@ == old(self)@,
            name@.len() > 0 ==> r == Some(old(self)@.nodes.len() as u32) && final(self)@ == declare(
                old(self)@,
                declaration_at(
                    old(self).source(),
                    old(self).syntax(),
                    node as int,
                    kind,
                    name@,
                    extra@,
                ),
            ),
    {
        if name.is_empty() {
            return None;
        }
        let ghost g = self@;
        let ghost d = declaration_at(
            self.source(),
            self.syntax(),
            node as int,
            kind,
            name@,
            extra@,
        );
        let start_line = self.line_of(node);
        let id = ids::node_id(self.file_path, kind, name, start_line);
        let end_line = self.end_line_of(node);
        let qualified = match &extra.qualified_name {
            Some(q) => q.clone(),
            None => self.qualified_name(name),
        };
        let mut flags = BoolFlags::default();
        if let Some(v) = extra.is_exported {
            flags.set(FLAG_IS_EXPORTED, v);
        }
        let start_column = self.col_of(node);
        let end_column = self.end_col_of(node);
        let name_ref = self.arena.put(name);
        let qn_ref = self.arena.put(qualified.as_str());
        let id_ref = self.arena.put(id.as_str());
        let doc_ref = opt_str(&mut self.arena, opt_as_str(&extra.docstring));
        let sig_ref = opt_str(&mut self.arena, opt_as_str(&extra.signature));
        let ret_ref = opt_str(&mut self.arena, opt_as_str(&extra.return_type));
        let row = self.tables.push_node(
            &NodeRow {
                kind: node_kind_index(kind),
                visibility: 0,
                flags,
                start_line,
                end_line,
                start_column,
                end_column,
                name: name_ref,
                qualified_name: qn_ref,
                id: id_ref,
                docstring: doc_ref,
                signature: sig_ref,
                decorators: none_str(),
                type_parameters: none_str(),
                return_type: ret_ref,
                extra_json: none_str(),
            },
        );
        self.nodes_meta.push(NodeMeta { kind, name: name.to_owned() });
        self.node_ids.push(id);
        let parent_row = self.top_row();
        self.tables.push_edge(
            &EdgeRow {
                source_idx: parent_row,
                target_idx: row,
                kind: edge_kind_index(EdgeKind::Contains),
                provenance: 0,
                line: NONE,
                column: NONE,
                metadata_json: none_str(),
                source_id_str: none_str(),
                target_id_str: none_str(),
            },
        );
        if kind == NodeKind::Function || kind == NodeKind::Method {
            self.defined_fn_names.insert(name.to_owned());
        }
        let depth = self.stack.len();
        if (kind == NodeKind::Constant || kind == NodeKind::Variable) && utf16_len(name) >= 3
            && has_upper_or_underscore(name) && depth > 0 && is_value_host(
            self.stack[depth - 1].kind,
        ) {
            self.fs_values.insert(name.to_owned(), row);
            let count: u32 = match self.fs_value_counts.get(name) {
                Some(c) => *c,
                None => 0,
            };
            self.fs_value_counts.insert(name.to_owned(), count.wrapping_add(1));
        }
        if kind == NodeKind::Function || kind == NodeKind::Method || kind == NodeKind::Constant
            || kind == NodeKind::Variable {
            self.value_scopes.push(ValueScope { row, node, name: name.to_owned() });
        }
        proof {
            let after = declare(g, d);
            assert(self@.nodes =~= after.nodes);
            assert(self@.metas =~= after.metas);
            assert(self@.ids =~= after.ids);
            assert(self@.value_scopes =~= after.value_scopes);
            assert(self@ =~= after);
        }
        Some(row)
    }

    /// The name that `node` declares.
    fn extract_name(&self, node: usize) -> (r: String)
        requires
            self.inv(),
            node < self.syntax().len(),
        ensures
            r@ == declared_name(self.source(), self.syntax(), node as int),
    {
        if let Some(name_node) = self.tree.child_by_field_name(node, "name") {
            return self.text(name_node).to_owned();
        }
        let identifiers = self.tree.children_of_kind(node, "identifier");
        let ghost list = children_of_kind(self.tree@, node as int, "identifier"@);
        if identifiers.len() > 0 {
            assert(list[0] == identifiers@[0]);
            return self.text(identifiers[0]).to_owned();
        }
        assert(list =~= Seq::<int>::empty());
        String::new()
    }

    /// The parameters of a function, with its return type where it has one.
    fn signature_of(&self, node: usize) -> (r: Option<String>)
        requires
            self.inv(),
            node < self.syntax().len(),
        ensures
            opt_view(r) == signature_of(self.source(), self.syntax(), node as int),
    {
        match self.tree.child_by_field_name(node, "parameters") {
            None => None,
            Some(params) => {
                let mut sig = self.text(params).to_owned();
                if let Some(r) = self.tree.child_by_field_name(node, "return_type") {
                    sig.append(" -> ");
                    sig.append(self.text(r));
                }
                Some(sig)
            },
        }
    }

    /// Whether a declaration is visible outside its file. GDScript has no
    /// visibility modifiers, so every declaration is.
    fn is_exported(&self, _node: usize) -> (r: bool)
        ensures
            r,
    {
        true
    }

    /// The return type that a function states.
    fn return_type_of(&self, node: usize) -> (r: Option<String>)
        requires
            self.inv(),
            node < self.syntax().len(),
        ensures
            opt_view(r) == return_type_of(self.source(), self.syntax(), node as int),
    {
        match self.tree.child_by_field_name(node, "return_type") {
            Some(n) => Some(self.text(n).to_owned()),
            None => None,
        }
    }

    /// The signature of a variable or constant with an initializer.
    fn value_signature(&self, node: usize) -> (r: Option<String>)
        requires
            self.inv(),
            node < self.syntax().len(),
        ensures
            opt_view(r) == value_signature(self.source(), self.syntax(), node as int),
    {
        match self.tree.child_by_field_name(node, "value") {
            Some(v) => Some(init_signature(self.text(v))),
            None => None,
        }
    }

    /// Whether one of the annotations right before `node`, comments aside, holds
    /// `annotation_name`.
    fn has_annotation(&self, node: usize, annotation_name: &str) -> (r: bool)
        requires
            self.inv(),
            node < self.syntax().len(),
        ensures
            r == annotated_with(self.source(), self.syntax(), node as int, annotation_name@),
    {
        let mut at: usize = node;
        loop
            invariant
                self.inv(),
                at <= node < self.syntax().len(),
                annotated_with(self.source(), self.syntax(), at as int, annotation_name@)
                    == annotated_with(self.source(), self.syntax(), node as int, annotation_name@),
            decreases at,
        {
            match self.tree.prev_named_sibling(at) {
                Some(sibling) => {
                    if self.tree.is_kind(sibling, "annotation") || self.tree.is_kind(
                        sibling,
                        "annotations",
                    ) {
                        if contains_word(self.text(sibling), annotation_name) {
                            return true;
                        }
                        at = sibling;
                    } else if self.tree.is_kind(sibling, "comment") {
                        at = sibling;
                    } else {
                        return false;
                    }
                },
                None => {
                    return false;
                },
            }
        }
    }

    fn push_scope(&mut self, row: u32, kind: NodeKind, name: String)
        requires
            old(self).inv(),
        ensures
            final(self).walks_as(*old(self)),
            final(self)@ == enter(old(self)@, (ScopeModel { row, kind, name: name@ })),
    {
        let ghost scope = ScopeModel { row, kind, name: name@ };
        self.stack.push(Scope { row, kind, name });
        proof {
            assert(self@ =~= enter(old(self)@, scope));
        }
    }

    fn pop_scope(&mut self)
        requires
            old(self).inv(),
        ensures
            final(self).walks_as(*old(self)),
            final(self)@ == leave(old(self)@),
    {
        let _ = self.stack.pop();
        proof {
            assert(self@ =~= leave(old(self)@));
        }
    }

    /// Notes the names that a call passes as arguments: they may turn out to be
    /// functions of the file.
    fn maybe_capture_fn_refs(&mut self, node: usize)
        requires
            old(self).inv(),
            node < old(self).syntax().len(),
        ensures
            final(self).walks_as(*old(self)),
            final(self)@ == run(
                old(self)@,
                argument_events(old(self).source(), old(self).syntax(), node as int),
            ),
    {
        let ghost src = self.source();
        let ghost t = self.syntax();
        let ghost g = self@;
        if self.tree.is_kind(node, "call") {
            if let Some(args) = self.tree.child_by_field_name(node, "arguments") {
                let names = self.tree.children_of_kind(args, "identifier");
                let n = names.len();
                let ghost list = children_of_kind(t, args as int, "identifier"@);
                proof {
                    assert(list.take(0) =~= Seq::<int>::empty());
                    lemma_run_none(g);
                }
                for i in 0..n
                    invariant
                        self.walks_as(*old(self)),
                        src == self.source(),
                        t == self.syntax(),
                        n == names@.len(),
                        forall|k: int| 0 <= k < n ==> args < #[trigger] names@[k] < t.len(),
                        list == names@.map_values(|c: usize| c as int),
                        self@ == run(g, argument_list(src, t, list.take(i as int))),
                {
                    let arg = names[i];
                    let ghost before = self@;
                    proof {
                        assert(list.take(i + 1).drop_last() =~= list.take(i as int));
                        assert(list.take(i + 1).last() == arg);
                    }
                    let name = self.text(arg);
                    if !name.is_empty() {
                        let cand = Cand {
                            from: self.top_row(),
                            name: name.to_owned(),
                            line: self.line_of(arg),
                            column_byte: self.tree.nodes[arg].start_byte,
                            row: 0,
                        };
                        self.fn_ref_cands.push(cand);
                        proof {
                            let e = Event::Argument(mention_of(src, t[arg as int]));
                            assert(self@ =~= apply(before, e));
                            lemma_run_one(before, e);
                            lemma_run_concat(
                                g,
                                argument_list(src, t, list.take(i as int)),
                                seq![e],
                            );
                            assert(argument_list(src, t, list.take(i as int)) + seq![e]
                                =~= argument_list(src, t, list.take(i + 1)));
                        }
                    }
                }
                proof {
                    assert(list.take(n as int) =~= list);
                }
            }
        }
        proof {
            lemma_run_none(g);
        }
    }

    /// What a call calls.
    fn callee_of(&self, node: usize) -> (r: Option<usize>)
        requires
            self.inv(),
            node < self.syntax().len(),
        ensures
            match r {
                Some(c) => callee_of(self.syntax(), node as int) == Some(c as int) && c
                    < self.syntax().len(),
                None => callee_of(self.syntax(), node as int) is None,
            },
    {
        let ghost list = named_children(self.tree@, node as int);
        if let Some(c) = self.tree.child_by_field_name(node, "function") {
            return Some(c);
        }
        let kids = self.tree.named_children(node);
        assert(list == kids@.map_values(|c: usize| c as int));
        if kids.len() == 0 {
            return None;
        }
        let first = kids[0];
        assert(list[0] == first);
        match self.tree.child_by_field_name(node, "arguments") {
            Some(args) => if args == first {
                None
            } else {
                Some(first)
            },
            None => Some(first),
        }
    }

    /// The node by which an `extends` statement names the base class.
    fn base_of(&self, node: usize) -> (r: Option<usize>)
        requires
            self.inv(),
            node < self.syntax().len(),
        ensures
            match r {
                Some(c) => base_of(self.syntax(), node as int) == Some(c as int) && c
                    < self.syntax().len(),
                None => base_of(self.syntax(), node as int) is None,
            },
    {
        let ghost t = self.tree@;
        let ghost list = named_children(t, node as int);
        let kids = self.tree.named_children(node);
        let n = kids.len();
        for i in 0..n
            invariant
                n == kids@.len(),
                t == self.tree@,
                list == named_children(t, node as int),
                list == kids@.map_values(|c: usize| c as int),
                forall|k: int| 0 <= k < n ==> node < #[trigger] kids@[k] < t.len(),
                first_base(t, list, i as int) == first_base(t, list, 0),
        {
            let c = kids[i];
            assert(list[i as int] == c);
            if self.tree.is_kind(c, "identifier") || self.tree.is_kind(c, "type")
                || self.tree.is_kind(c, "string") {
                return Some(c);
            }
        }
        None
    }

    /// The name of the base class that `node` stands for.
    fn base_text(&self, node: usize) -> (r: String)
        requires
            self.inv(),
            node < self.syntax().len(),
        ensures
            r@ == base_text(self.source(), self.syntax()[node as int]),
    {
        if self.tree.is_kind(node, "string") {
            without_quotes(self.text(node))
        } else {
            self.text(node).to_owned()
        }
    }

    /// Records the function that a call names.
    fn extract_call(&mut self, node: usize)
        requires
            old(self).inv(),
            node < old(self).syntax().len(),
        ensures
            final(self).walks_as(*old(self)),
            final(self)@ == run(
                old(self)@,
                call_events(old(self).source(), old(self).syntax(), node as int),
            ),
    {
        let ghost src = self.source();
        let ghost t = self.syntax();
        let ghost g = self@;
        proof {
            lemma_run_none(g);
        }
        match self.callee_of(node) {
            Some(callee) => {
                let callee_name = self.text(callee);
                if !callee_name.is_empty() {
                    if self.stack.len() > 0 {
                        let from_row = self.top_row();
                        self.push_ref_at(from_row, callee_name, FUNCTION_REF_CODE, callee);
                    }
                    proof {
                        let e = Event::Call(mention_of(src, t[callee as int]));
                        lemma_run_one(g, e);
                    }
                }
            },
            None => {},
        }
    }

    /// Records the base class that an `extends` statement names, for the innermost
    /// open class, else for the class that the file is.
    pub fn extract_extends_statement(&mut self, node: usize)
        requires
            old(self).inv(),
            node < old(self).syntax().len(),
        ensures
            final(self).walks_as(*old(self)),
            final(self)@ == run(
                old(self)@,
                extends_events(old(self).source(), old(self).syntax(), node as int),
            ),
    {
        let ghost src = self.source();
        let ghost t = self.syntax();
        let ghost g = self@;
        proof {
            lemma_run_none(g);
        }
        if let Some(child) = self.base_of(node) {
            let ghost m = base_mention(src, t[child as int]);
            proof {
                lemma_run_one(g, Event::Extend(m));
            }
            let base = Base {
                name: self.base_text(child),
                line: self.line_of(child),
                column: self.col_of(child),
                byte: self.tree.nodes[child].start_byte,
            };
            assert(base@ == m);
            let owner = match self.nearest_class() {
                Some(row) => Some(row),
                None => self.script_class,
            };
            match owner {
                Some(class_row) => self.push_base(class_row, &base),
                None => {
                    self.waiting.push(base);
                    proof {
                        assert(self@.waiting =~= g.waiting.push(m));
                        assert(self@ =~= apply(g, Event::Extend(m)));
                    }
                },
            }
        }
    }

    /// Records that the class in the row `class_row` names a base class.
    fn push_base(&mut self, class_row: u32, base: &Base)
        requires
            old(self).inv(),
        ensures
            final(self).walks_as(*old(self)),
            final(self)@ == extend_from(old(self)@, class_row, base@),
    {
        let kind = edge_kind_index(EdgeKind::Extends);
        self.tables.push_edge(
            &EdgeRow {
                source_idx: class_row,
                target_idx: 0,
                kind,
                provenance: 0,
                line: base.line,
                column: base.column,
                metadata_json: none_str(),
                source_id_str: none_str(),
                target_id_str: none_str(),
            },
        );
        let reference_name = self.arena.put(base.name.as_str());
        self.tables.push_ref(
            &RefRow {
                from_idx: class_row,
                kind,
                line: base.line,
                column: base.column,
                reference_name,
                candidates: none_str(),
                from_id_str: none_str(),
            },
        );
        proof {
            assert(self@ =~= extend_from(old(self)@, class_row, base@));
        }
    }

    /// Declares the file to be the class in the row added last, which has the number
    /// `row`: the base classes that waited for it are its own.
    fn name_script(&mut self, row: u32)
        requires
            old(self).inv(),
            row == latest_row(old(self)@),
        ensures
            final(self).walks_as(*old(self)),
            final(self)@ == name_script(old(self)@),
    {
        let ghost g = self@;
        let mut bases: Vec<Base> = Vec::new();
        bases.append(&mut self.waiting);
        self.script_class = Some(row);
        let ghost list = bases@.map_values(|b: Base| b@);
        let ghost named = Graph { script_class: Some(row), waiting: seq![], ..g };
        proof {
            assert(list =~= g.waiting);
            assert(self@.waiting =~= Seq::<Mention>::empty());
            assert(self@ =~= named);
            assert(list.take(0) =~= Seq::<Mention>::empty());
        }
        let n = bases.len();
        for i in 0..n
            invariant
                self.walks_as(*old(self)),
                n == bases@.len(),
                list == bases@.map_values(|b: Base| b@),
                self@ == extend_all(named, row, list.take(i as int)),
        {
            self.push_base(row, &bases[i]);
            proof {
                assert(list.take(i + 1).drop_last() =~= list.take(i as int));
                assert(list.take(i + 1).last() == bases@[i as int]@);
            }
        }
        proof {
            assert(list.take(n as int) =~= list);
        }
    }

    /// The row of the innermost open class.
    fn nearest_class(&self) -> (r: Option<u32>)
        ensures
            r == nearest_class(self@.stack),
    {
        let ghost stack = self@.stack;
        let mut n = self.stack.len();
        proof {
            assert(stack.take(n as int) =~= stack);
        }
        while n > 0
            invariant
                n <= self.stack@.len(),
                stack == self@.stack,
                nearest_class(stack.take(n as int)) == nearest_class(stack),
            decreases n,
        {
            proof {
                assert(stack.take(n as int).drop_last() =~= stack.take(n - 1));
                assert(stack.take(n as int).last() == self.stack@[n - 1]@);
            }
            if self.stack[n - 1].kind == NodeKind::Class {
                return Some(self.stack[n - 1].row);
            }
            n = n - 1;
        }
        None
    }

    /// Records the base classes that the class definition `class_node` names in its
    /// `extends` clauses and its `extends` field, as references from the row
    /// `class_row`.
    fn extract_inheritance(&mut self, class_node: usize, class_row: u32)
        requires
            old(self).inv(),
            class_node < old(self).syntax().len(),
        ensures
            final(self).walks_as(*old(self)),
            final(self)@ == add_refs(
                old(self)@,
                class_row,
                edge_code(EdgeKind::Extends),
                inherited(old(self).source(), old(self).syntax(), class_node as int),
            ),
    {
        let ghost src = self.source();
        let ghost t = self.syntax();
        let ghost g = self@;
        let ghost code = edge_code(EdgeKind::Extends);
        let clauses = self.tree.children_of_kind(class_node, "extends_clause");
        let n = clauses.len();
        let ghost list = children_of_kind(t, class_node as int, "extends_clause"@);
        proof {
            assert(list.take(0) =~= Seq::<int>::empty());
        }
        for i in 0..n
            invariant
                self.walks_as(*old(self)),
                src == self.source(),
                t == self.syntax(),
                n == clauses@.len(),
                code == edge_code(EdgeKind::Extends),
                forall|k: int| 0 <= k < n ==> class_node < #[trigger] clauses@[k] < t.len(),
                list == clauses@.map_values(|c: usize| c as int),
                self@ == add_refs(
                    g,
                    class_row,
                    code,
                    clause_mentions(src, t, list.take(i as int)),
                ),
        {
            let clause = clauses[i];
            let identifiers = self.tree.children_of_kind(clause, "identifier");
            let m = identifiers.len();
            let ghost ids = children_of_kind(t, clause as int, "identifier"@);
            let ghost done = clause_mentions(src, t, list.take(i as int));
            proof {
                assert(list.take(i + 1).drop_last() =~= list.take(i as int));
                assert(list.take(i + 1).last() == clause);
                assert(done + mentions_of(src, t, ids).take(0) =~= done);
            }
            for j in 0..m
                invariant
                    self.walks_as(*old(self)),
                    src == self.source(),
                    t == self.syntax(),
                    m == identifiers@.len(),
                    code == edge_code(EdgeKind::Extends),
                    forall|k: int| 0 <= k < m ==> clause < #[trigger] identifiers@[k] < t.len(),
                    ids == identifiers@.map_values(|c: usize| c as int),
                    self@ == add_refs(
                        g,
                        class_row,
                        code,
                        done + mentions_of(src, t, ids).take(j as int),
                    ),
            {
                let ident = identifiers[j];
                let parent_name = self.text(ident);
                self.push_ref_at(class_row, parent_name, edge_kind_index(EdgeKind::Extends), ident);
                proof {
                    let all = done + mentions_of(src, t, ids).take(j + 1);
                    assert(ids[j as int] == ident);
                    assert(all.last() == mention_of(src, t[ident as int]));
                    assert(all.drop_last() =~= done + mentions_of(src, t, ids).take(j as int));
                }
            }
            proof {
                assert(mentions_of(src, t, ids).take(m as int) =~= mentions_of(src, t, ids));
            }
        }
        let ghost named = clause_mentions(src, t, list);
        proof {
            assert(list.take(n as int) =~= list);
            assert(named + Seq::<Mention>::empty() =~= named);
        }
        if let Some(statement) = self.tree.child_by_field_name(class_node, "extends") {
            if self.tree.is_kind(statement, "extends_statement") {
                if let Some(base) = self.base_of(statement) {
                    let parent_name = self.base_text(base);
                    self.push_ref_at(
                        class_row,
                        parent_name.as_str(),
                        edge_kind_index(EdgeKind::Extends),
                        base,
                    );
                    proof {
                        let m = base_mention(src, t[base as int]);
                        assert((named + seq![m]).drop_last() =~= named);
                        assert((named + seq![m]).last() == m);
                    }
                }
            }
        }
    }

    /// Turns the noted arguments that name a declared or imported function into
    /// references.
    pub fn flush_fn_ref_candidates(&mut self)
        requires
            old(self).inv(),
        ensures
            final(self).walks_as(*old(self)),
            final(self)@ == flush_candidates(old(self)@, old(self)@.candidates.len() as int),
    {
        let ghost g = self@;
        let n = self.fn_ref_cands.len();
        for i in 0..n
            invariant
                self.walks_as(*old(self)),
                g == old(self)@,
                n == g.candidates.len(),
                self.fn_ref_cands == old(self).fn_ref_cands,
                self.defined_fn_names == old(self).defined_fn_names,
                self.imported_names == old(self).imported_names,
                self@ == flush_candidates(g, i as int),
        {
            let known = self.defined_fn_names.contains(self.fn_ref_cands[i].name.as_str())
                || self.imported_names.contains(self.fn_ref_cands[i].name.as_str());
            assert(g.candidates[i as int] == self.fn_ref_cands@[i as int]@);
            if known {
                let name_ref = self.arena.put(self.fn_ref_cands[i].name.as_str());
                let from = self.fn_ref_cands[i].from;
                let line = self.fn_ref_cands[i].line;
                self.tables.push_ref(
                    &RefRow {
                        from_idx: from,
                        kind: FUNCTION_REF_CODE,
                        line,
                        column: 0,
                        reference_name: name_ref,
                        candidates: none_str(),
                        from_id_str: none_str(),
                    },
                );
            }
            proof {
                assert(self@ =~= flush_candidates(g, i + 1));
            }
        }
    }

    /// A `class_name` statement: the name under which the file is known as a class.
    pub fn extract_class_name(&mut self, node: usize)
        requires
            old(self).inv(),
            node < old(self).syntax().len(),
        ensures
            final(self).walks_as(*old(self)),
            final(self)@ == run(
                old(self)@,
                script_declaration(
                    documented(
                        old(self).source(),
                        old(self).syntax(),
                        node as int,
                        NodeKind::Class,
                    ),
                ),
            ),
    {
        let ghost g = self@;
        proof {
            lemma_run_none(g);
        }
        let ghost d = documented(self.source(), self.syntax(), node as int, NodeKind::Class);
        let name = self.extract_name(node);
        if name.as_str().is_empty() {
            return;
        }
        let extra = Extra {
            docstring: preceding_docstring(self.tree, node, self.src),
            signature: None,
            is_exported: Some(true),
            return_type: None,
            qualified_name: None,
        };
        if let Some(row) = self.create_node(NodeKind::Class, name.as_str(), node, extra) {
            let ghost g1 = self@;
            self.name_script(row);
            proof {
                let first = seq![Event::Declare(d)];
                let second = seq![Event::NameScript];
                lemma_run_one(g, Event::Declare(d));
                lemma_run_one(g1, Event::NameScript);
                lemma_run_concat(g, first, second);
                assert(first + second =~= script_declaration(d));
            }
        }
    }

    /// A `const` statement.
    fn extract_constant(&mut self, node: usize)
        requires
            old(self).inv(),
            node < old(self).syntax().len(),
        ensures
            final(self).walks_as(*old(self)),
            final(self)@ == run(
                old(self)@,
                plain_declaration(
                    value_declaration(
                        old(self).source(),
                        old(self).syntax(),
                        node as int,
                        NodeKind::Constant,
                    ),
                ),
            ),
    {
        let ghost g = self@;
        proof {
            lemma_run_none(g);
        }
        let ghost d = value_declaration(
            self.source(),
            self.syntax(),
            node as int,
            NodeKind::Constant,
        );
        let name = self.extract_name(node);
        if name.as_str().is_empty() {
            return;
        }
        let extra = Extra {
            docstring: preceding_docstring(self.tree, node, self.src),
            signature: self.value_signature(node),
            is_exported: Some(self.is_exported(node)),
            return_type: None,
            qualified_name: None,
        };
        self.create_node(NodeKind::Constant, name.as_str(), node, extra);
        proof {
            lemma_run_one(g, Event::Declare(d));
        }
    }

    /// A `signal` statement: signals are recorded as variables.
    fn extract_signal(&mut self, node: usize)
        requires
            old(self).inv(),
            node < old(self).syntax().len(),
        ensures
            final(self).walks_as(*old(self)),
            final(self)@ == run(
                old(self)@,
                plain_declaration(
                    documented(
                        old(self).source(),
                        old(self).syntax(),
                        node as int,
                        NodeKind::Variable,
                    ),
                ),
            ),
    {
        let ghost g = self@;
        proof {
            lemma_run_none(g);
        }
        let ghost d = documented(self.source(), self.syntax(), node as int, NodeKind::Variable);
        let name = self.extract_name(node);
        if name.as_str().is_empty() {
            return;
        }
        let extra = Extra {
            docstring: preceding_docstring(self.tree, node, self.src),
            signature: None,
            is_exported: Some(true),
            return_type: None,
            qualified_name: None,
        };
        self.create_node(NodeKind::Variable, name.as_str(), node, extra);
        proof {
            lemma_run_one(g, Event::Declare(d));
        }
    }

    /// An enum and its values, which are recorded as constants.
    fn extract_enum(&mut self, node: usize)
        requires
            old(self).inv(),
            node < old(self).syntax().len(),
        ensures
            final(self).walks_as(*old(self)),
            final(self)@ == run(
                old(self)@,
                enum_events(old(self).source(), old(self).syntax(), node as int),
            ),
    {
        let ghost src = self.source();
        let ghost t = self.syntax();
        let ghost g = self@;
        proof {
            lemma_run_none(g);
        }
        let name = self.extract_name(node);
        if name.as_str().is_empty() {
            return;
        }
        let extra = Extra {
            docstring: preceding_docstring(self.tree, node, self.src),
            signature: None,
            is_exported: Some(self.is_exported(node)),
            return_type: None,
            qualified_name: None,
        };
        let ghost d = documented(src, t, node as int, NodeKind::Enum);
        if let Some(row) = self.create_node(NodeKind::Enum, name.as_str(), node, extra) {
            let ghost g1 = self@;
            proof {
                lemma_run_one(g, Event::Declare(d));
            }
            if let Some(body) = self.tree.child_by_field_name(node, "body") {
                let ghost open = Event::Enter(NodeKind::Enum, name@);
                self.push_scope(row, NodeKind::Enum, name.clone());
                let ghost g2 = self@;
                let values = self.tree.children_of_kind(body, "enumerator");
                let n = values.len();
                let ghost list = children_of_kind(t, body as int, "enumerator"@);
                proof {
                    assert(list.take(0) =~= Seq::<int>::empty());
                    lemma_run_none(g2);
                }
                for i in 0..n
                    invariant
                        self.walks_as(*old(self)),
                        src == self.source(),
                        t == self.syntax(),
                        n == values@.len(),
                        forall|k: int| 0 <= k < n ==> body < #[trigger] values@[k] < t.len(),
                        list == values@.map_values(|c: usize| c as int),
                        self@ == run(g2, enumerator_events(src, t, list.take(i as int))),
                {
                    let child = values[i];
                    let ghost before = self@;
                    let ghost e = enumerator_declaration(src, t, child as int);
                    proof {
                        assert(list.take(i + 1).drop_last() =~= list.take(i as int));
                        assert(list.take(i + 1).last() == child);
                        lemma_run_concat(
                            g2,
                            enumerator_events(src, t, list.take(i as int)),
                            plain_declaration(e),
                        );
                        lemma_run_one(before, Event::Declare(e));
                        lemma_run_none(before);
                    }
                    let value_name = self.extract_name(child);
                    if !value_name.as_str().is_empty() {
                        let extra = Extra {
                            docstring: None,
                            signature: None,
                            is_exported: Some(true),
                            return_type: None,
                            qualified_name: None,
                        };
                        self.create_node(NodeKind::Constant, value_name.as_str(), child, extra);
                    }
                }
                self.pop_scope();
                proof {
                    assert(list.take(n as int) =~= list);
                    lemma_run_scoped(g1, open, enumerator_events(src, t, list));
                    lemma_run_concat(
                        g,
                        seq![Event::Declare(d)],
                        scoped(open, enumerator_events(src, t, list)),
                    );
                }
            } else {
                proof {
                    assert(seq![Event::Declare(d)] + Seq::<Event>::empty() =~= seq![
                        Event::Declare(d),
                    ]);
                }
            }
        }
    }

    /// An anonymous function, named after its line.
    fn extract_lambda(&mut self, node: usize)
        requires
            old(self).inv(),
            node < old(self).syntax().len(),
        ensures
            final(self).walks_as(*old(self)),
            final(self)@ == run(
                old(self)@,
                lambda_events(old(self).source(), old(self).syntax(), node as int),
            ),
        decreases old(self).syntax().len() - node, 1int,
    {
        let ghost src = self.source();
        let ghost t = self.syntax();
        let ghost g = self@;
        proof {
            lemma_run_none(g);
        }
        let mut name = String::new();
        name.append("lambda@");
        append_decimal(&mut name, self.line_of(node));
        proof {
            assert(name@ =~= lambda_name(start_line_of(t[node as int])));
            reveal_strlit("lambda@");
        }
        let extra = Extra {
            docstring: None,
            signature: self.signature_of(node),
            is_exported: None,
            return_type: self.return_type_of(node),
            qualified_name: None,
        };
        let ghost d = lambda_declaration(src, t, node as int);
        if let Some(row) = self.create_node(NodeKind::Function, name.as_str(), node, extra) {
            let ghost g1 = self@;
            proof {
                lemma_run_one(g, Event::Declare(d));
            }
            if let Some(body) = self.tree.child_by_field_name(node, "body") {
                let ghost open = Event::Enter(NodeKind::Function, name@);
                self.push_scope(row, NodeKind::Function, name);
                self.visit_function_body(body);
                self.pop_scope();
                proof {
                    lemma_run_scoped(g1, open, body_events(src, t, body as int));
                    lemma_run_concat(
                        g,
                        seq![Event::Declare(d)],
                        scoped(open, body_events(src, t, body as int)),
                    );
                }
            } else {
                proof {
                    assert(seq![Event::Declare(d)] + Seq::<Event>::empty() =~= seq![
                        Event::Declare(d),
                    ]);
                }
            }
        }
    }

    /// A variable, and the calls of its initializer.
    fn extract_variable(&mut self, node: usize)
        requires
            old(self).inv(),
            node < old(self).syntax().len(),
        ensures
            final(self).walks_as(*old(self)),
            final(self)@ == run(
                old(self)@,
                variable_events(old(self).source(), old(self).syntax(), node as int),
            ),
        decreases old(self).syntax().len() - node, 1int,
    {
        let ghost src = self.source();
        let ghost t = self.syntax();
        let ghost g = self@;
        proof {
            lemma_run_none(g);
        }
        let docstring = preceding_docstring(self.tree, node, self.src);
        let name = self.extract_name(node);
        if name.as_str().is_empty() {
            return;
        }
        let has_export = self.has_annotation(node, "export");
        let extra = Extra {
            docstring,
            signature: self.value_signature(node),
            is_exported: Some(has_export || self.is_exported(node)),
            return_type: None,
            qualified_name: None,
        };
        let ghost d = value_declaration(src, t, node as int, NodeKind::Variable);
        if let Some(row) = self.create_node(NodeKind::Variable, name.as_str(), node, extra) {
            let ghost g1 = self@;
            proof {
                lemma_run_one(g, Event::Declare(d));
            }
            if let Some(value) = self.tree.child_by_field_name(node, "value") {
                let index = self.nodes_meta.len() - 1;
                assert(index as u32 as usize <= index) by (bit_vector);
                let var_name = self.nodes_meta[row as usize].name.clone();
                self.push_scope(row, NodeKind::Variable, var_name);
                self.visit_function_body(value);
                self.pop_scope();
                proof {
                    lemma_run_scoped(
                        g1,
                        Event::EnterInitializer,
                        body_events(src, t, value as int),
                    );
                    lemma_run_concat(
                        g,
                        seq![Event::Declare(d)],
                        scoped(Event::EnterInitializer, body_events(src, t, value as int)),
                    );
                }
            } else {
                proof {
                    assert(seq![Event::Declare(d)] + Seq::<Event>::empty() =~= seq![
                        Event::Declare(d),
                    ]);
                }
            }
        }
    }

    /// A function, or a method where the open scope makes it one, and its body.
    pub fn extract_function(&mut self, node: usize, _is_static: bool)
        requires
            old(self).inv(),
            node < old(self).syntax().len(),
        ensures
            final(self).walks_as(*old(self)),
            final(self)@ == run(
                old(self)@,
                function_events(old(self).source(), old(self).syntax(), node as int),
            ),
        decreases old(self).syntax().len() - node, 1int,
    {
        let ghost src = self.source();
        let ghost t = self.syntax();
        let ghost g = self@;
        proof {
            lemma_run_none(g);
        }
        let name = self.extract_name(node);
        if name.as_str().is_empty() {
            return;
        }
        let kind = if self.inside_class_like() {
            NodeKind::Method
        } else {
            NodeKind::Function
        };
        let extra = Extra {
            docstring: preceding_docstring(self.tree, node, self.src),
            signature: self.signature_of(node),
            is_exported: Some(self.is_exported(node)),
            return_type: self.return_type_of(node),
            qualified_name: None,
        };
        let ghost e = Event::DeclareCallable(function_declaration(src, t, node as int));
        if let Some(row) = self.create_node(kind, name.as_str(), node, extra) {
            let ghost g1 = self@;
            proof {
                lemma_run_one(g, e);
            }
            if let Some(body) = self.tree.child_by_field_name(node, "body") {
                let ghost open = Event::Enter(NodeKind::Function, name@);
                self.push_scope(row, NodeKind::Function, name);
                self.visit_function_body(body);
                self.pop_scope();
                proof {
                    lemma_run_scoped(g1, open, body_events(src, t, body as int));
                    lemma_run_concat(g, seq![e], scoped(open, body_events(src, t, body as int)));
                }
            } else {
                proof {
                    assert(seq![e] + Seq::<Event>::empty() =~= seq![e]);
                }
            }
        }
    }

    /// Walks executable code for calls and nested functions.
    pub fn visit_function_body(&mut self, node: usize)
        requires
            old(self).inv(),
            node < old(self).syntax().len(),
        ensures
            final(self).walks_as(*old(self)),
            final(self)@ == run(
                old(self)@,
                body_events(old(self).source(), old(self).syntax(), node as int),
            ),
        decreases old(self).syntax().len() - node, 2int,
    {
        let ghost src = self.source();
        let ghost t = self.syntax();
        let ghost g = self@;
        proof {
            lemma_run_none(g);
        }
        let ghost args = argument_events(src, t, node as int);
        self.maybe_capture_fn_refs(node);
        let ghost g1 = self@;
        let kind = classify(self.tree.nodes[node].kind.as_str());
        match kind {
            SyntaxKind::FunctionDefinition | SyntaxKind::StaticFunctionDefinition => {
                self.extract_function(node, kind == SyntaxKind::StaticFunctionDefinition);
                proof {
                    lemma_run_concat(g, args, function_events(src, t, node as int));
                }
                return;
            },
            SyntaxKind::Call => {
                self.extract_call(node);
            },
            _ => {},
        }
        let ghost g2 = self@;
        let kids = self.tree.named_children(node);
        let n = kids.len();
        let ghost list = named_children(t, node as int);
        proof {
            lemma_run_none(g2);
        }
        for i in 0..n
            invariant
                self.walks_as(*old(self)),
                src == self.source(),
                t == self.syntax(),
                node < t.len(),
                n == kids@.len(),
                forall|k: int| 0 <= k < n ==> node < #[trigger] kids@[k] < t.len(),
                list == named_children(t, node as int),
                list == kids@.map_values(|c: usize| c as int),
                self@ == run(g2, body_each(src, t, node as int, i as int)),
        {
            let c = kids[i];
            proof {
                assert(list[i as int] == c);
                lemma_run_concat(
                    g2,
                    body_each(src, t, node as int, i as int),
                    body_events(src, t, c as int),
                );
            }
            self.visit_function_body(c);
        }
        proof {
            let rest = body_each(src, t, node as int, list.len() as int);
            if kind == SyntaxKind::Call {
                lemma_run_concat(g1, call_events(src, t, node as int), rest);
                lemma_run_concat(g, args, call_events(src, t, node as int) + rest);
            } else {
                lemma_run_concat(g, args, rest);
            }
        }
    }

    /// A class definition: itself, the base classes it names, and its members.
    fn extract_class(&mut self, node: usize)
        requires
            old(self).inv(),
            node < old(self).syntax().len(),
        ensures
            final(self).walks_as(*old(self)),
            final(self)@ == run(
                old(self)@,
                class_events(old(self).source(), old(self).syntax(), node as int),
            ),
        decreases old(self).syntax().len() - node, 1int,
    {
        let ghost src = self.source();
        let ghost t = self.syntax();
        let ghost g = self@;
        proof {
            lemma_run_none(g);
        }
        let name = self.extract_name(node);
        if name.as_str().is_empty() {
            return;
        }
        let extra = Extra {
            docstring: preceding_docstring(self.tree, node, self.src),
            signature: None,
            is_exported: Some(self.is_exported(node)),
            return_type: None,
            qualified_name: None,
        };
        let ghost d = Event::Declare(documented(src, t, node as int, NodeKind::Class));
        let ghost h = Event::Inherit(inherited(src, t, node as int));
        if let Some(row) = self.create_node(NodeKind::Class, name.as_str(), node, extra) {
            let ghost g1 = self@;
            self.extract_inheritance(node, row);
            let ghost g2 = self@;
            proof {
                lemma_run_one(g, d);
                lemma_run_one(g1, h);
                lemma_run_concat(g, seq![d], seq![h]);
                assert(seq![d] + seq![h] =~= seq![d, h]);
                lemma_add_refs_keeps_nodes(
                    g1,
                    row,
                    edge_code(EdgeKind::Extends),
                    inherited(src, t, node as int),
                );
            }
            if let Some(body) = self.tree.child_by_field_name(node, "body") {
                let ghost open = Event::Enter(NodeKind::Class, name@);
                self.push_scope(row, NodeKind::Class, name);
                self.visit_children(body);
                self.pop_scope();
                proof {
                    let inner = visit_each(
                        src,
                        t,
                        body as int,
                        named_children(t, body as int).len() as int,
                    );
                    lemma_run_scoped(g2, open, inner);
                    lemma_run_concat(g, seq![d, h], scoped(open, inner));
                }
            } else {
                proof {
                    assert(seq![d, h] + Seq::<Event>::empty() =~= seq![d, h]);
                }
            }
        }
    }

    /// Walks the named children of `p`.
    fn visit_children(&mut self, p: usize)
        requires
            old(self).inv(),
            p < old(self).syntax().len(),
        ensures
            final(self).walks_as(*old(self)),
            final(self)@ == run(
                old(self)@,
                visit_each(
                    old(self).source(),
                    old(self).syntax(),
                    p as int,
                    named_children(old(self).syntax(), p as int).len() as int,
                ),
            ),
        decreases old(self).syntax().len() - p, 0int,
    {
        let ghost src = self.source();
        let ghost t = self.syntax();
        let ghost g = self@;
        let kids = self.tree.named_children(p);
        let n = kids.len();
        let ghost list = named_children(t, p as int);
        proof {
            lemma_run_none(g);
        }
        for i in 0..n
            invariant
                self.walks_as(*old(self)),
                src == self.source(),
                t == self.syntax(),
                p < t.len(),
                n == kids@.len(),
                forall|k: int| 0 <= k < n ==> p < #[trigger] kids@[k] < t.len(),
                list == named_children(t, p as int),
                list == kids@.map_values(|c: usize| c as int),
                self@ == run(g, visit_each(src, t, p as int, i as int)),
        {
            let c = kids[i];
            proof {
                assert(list[i as int] == c);
                lemma_run_concat(
                    g,
                    visit_each(src, t, p as int, i as int),
                    visit_events(src, t, c as int),
                );
            }
            self.visit_node(c);
        }
    }

    /// Walks the node `node` and everything below it.
    pub fn visit_node(&mut self, node: usize)
        requires
            old(self).inv(),
            node < old(self).syntax().len(),
        ensures
            final(self).walks_as(*old(self)),
            final(self)@ == run(
                old(self)@,
                visit_events(old(self).source(), old(self).syntax(), node as int),
            ),
        decreases old(self).syntax().len() - node, 2int,
    {
        let ghost src = self.source();
        let ghost t = self.syntax();
        let ghost g = self@;
        proof {
            lemma_run_none(g);
        }
        let ghost i = node as int;
        let ghost args = argument_events(src, t, i);
        let mut skip_children = false;
        self.maybe_capture_fn_refs(node);
        let ghost g1 = self@;
        let ghost mut own: Seq<Event> = seq![];
        proof {
            lemma_run_none(g1);
        }
        let kind = classify(self.tree.nodes[node].kind.as_str());
        match kind {
            SyntaxKind::ClassNameStatement => {
                self.extract_class_name(node);
                proof {
                    own = script_declaration(documented(src, t, i, NodeKind::Class));
                }
            },
            SyntaxKind::ClassDefinition => {
                self.extract_class(node);
                skip_children = true;
                proof {
                    own = class_events(src, t, i);
                }
            },
            SyntaxKind::FunctionDefinition => {
                self.extract_function(node, false);
                skip_children = true;
                proof {
                    own = function_events(src, t, i);
                }
            },
            SyntaxKind::StaticFunctionDefinition => {
                self.extract_function(node, true);
                skip_children = true;
                proof {
                    own = function_events(src, t, i);
                }
            },
            SyntaxKind::VariableStatement => {
                self.extract_variable(node);
                proof {
                    own = variable_events(src, t, i);
                }
            },
            SyntaxKind::ConstStatement => {
                self.extract_constant(node);
                proof {
                    own = plain_declaration(value_declaration(src, t, i, NodeKind::Constant));
                }
            },
            SyntaxKind::SignalStatement => {
                self.extract_signal(node);
                proof {
                    own = plain_declaration(documented(src, t, i, NodeKind::Variable));
                }
            },
            SyntaxKind::EnumDefinition => {
                self.extract_enum(node);
                skip_children = true;
                proof {
                    own = enum_events(src, t, i);
                }
            },
            SyntaxKind::Lambda => {
                self.extract_lambda(node);
                skip_children = true;
                proof {
                    own = lambda_events(src, t, i);
                }
            },
            SyntaxKind::Call => {
                self.extract_call(node);
                proof {
                    own = call_events(src, t, i);
                }
            },
            SyntaxKind::ExtendsStatement => {
                self.extract_extends_statement(node);
                proof {
                    own = extends_events(src, t, i);
                }
            },
            SyntaxKind::Other => {},
        }
        if !skip_children {
            self.visit_children(node);
            proof {
                let rest = visit_each(src, t, i, named_children(t, i).len() as int);
                lemma_run_concat(g1, own, rest);
                lemma_run_concat(g, args, own + rest);
                if kind == SyntaxKind::Other {
                    assert(own + rest =~= rest);
                }
            }
        } else {
            proof {
                lemma_run_concat(g, args, own);
            }
        }
    }

    /// Records every identifier at and below `node` that reads `target_name` as a
    /// reference from the row `reader_row`, where a shared value has that name.
    fn scan_value_refs_in_node(&mut self, node: usize, reader_row: u32, target_name: &str)
        requires
            old(self).inv(),
            node < old(self).syntax().len(),
        ensures
            final(self).walks_as(*old(self)),
            final(self).value_scopes == old(self).value_scopes,
            final(self).fs_values == old(self).fs_values,
            final(self)@ == (if old(self)@.values.contains_key(target_name@) {
                add_refs(
                    old(self)@,
                    reader_row,
                    FUNCTION_REF_CODE,
                    uses_of(old(self).source(), old(self).syntax(), node as int, target_name@),
                )
            } else {
                old(self)@
            }),
        decreases old(self).syntax().len() - node,
    {
        let ghost src = self.source();
        let ghost t = self.syntax();
        let ghost g = self@;
        let ghost name = target_name@;
        let ghost shared = g.values.contains_key(name);
        let ghost here: Seq<Mention> = if t[node as int].kind == "identifier"@ && node_text(
            src,
            t[node as int],
        ) == name {
            seq![mention_of(src, t[node as int])]
        } else {
            seq![]
        };
        if self.tree.is_kind(node, "identifier") {
            if str_eq(self.text(node), target_name) {
                if self.fs_values.contains_key(target_name) {
                    let line = self.line_of(node);
                    let column = self.col_of(node);
                    let name_ref = self.arena.put(target_name);
                    self.tables.push_ref(
                        &RefRow {
                            from_idx: reader_row,
                            kind: FUNCTION_REF_CODE,
                            line,
                            column,
                            reference_name: name_ref,
                            candidates: none_str(),
                            from_id_str: none_str(),
                        },
                    );
                    proof {
                        assert(here.drop_last() =~= Seq::<Mention>::empty());
                        assert(add_refs(g, reader_row, FUNCTION_REF_CODE, here.drop_last()) == g);
                        assert(self@ =~= add_refs(g, reader_row, FUNCTION_REF_CODE, here));
                    }
                }
            }
        }
        let kids = self.tree.named_children(node);
        let n = kids.len();
        let ghost list = named_children(t, node as int);
        proof {
            assert(here + uses_in_each(src, t, node as int, 0, name) =~= here);
        }
        for i in 0..n
            invariant
                self.walks_as(*old(self)),
                src == self.source(),
                t == self.syntax(),
                node < t.len(),
                n == kids@.len(),
                name == target_name@,
                shared == g.values.contains_key(name),
                self.value_scopes == old(self).value_scopes,
                self.fs_values == old(self).fs_values,
                g == old(self)@,
                forall|k: int| 0 <= k < n ==> node < #[trigger] kids@[k] < t.len(),
                list == named_children(t, node as int),
                list == kids@.map_values(|c: usize| c as int),
                self@ == (if shared {
                    add_refs(
                        g,
                        reader_row,
                        FUNCTION_REF_CODE,
                        here + uses_in_each(src, t, node as int, i as int, name),
                    )
                } else {
                    g
                }),
        {
            let c = kids[i];
            self.scan_value_refs_in_node(c, reader_row, target_name);
            proof {
                assert(list[i as int] == c);
                let done = here + uses_in_each(src, t, node as int, i as int, name);
                let more = uses_of(src, t, c as int, name);
                lemma_add_refs_concat(g, reader_row, FUNCTION_REF_CODE, done, more);
                assert(done + more =~= here + uses_in_each(src, t, node as int, i + 1, name));
            }
        }
    }

    /// Records the uses of every shared value in the whole tree, as references from
    /// the declarations of its name.
    pub fn flush_value_refs(&mut self)
        requires
            old(self).inv(),
            old(self).syntax().len() > 0,
        ensures
            final(self).walks_as(*old(self)),
            final(self)@ == flush_values(
                old(self)@,
                old(self).source(),
                old(self).syntax(),
                old(self)@.value_scopes.len() as int,
            ),
    {
        let ghost src = self.source();
        let ghost t = self.syntax();
        let ghost g = self@;
        let n = self.value_scopes.len();
        for i in 0..n
            invariant
                self.walks_as(*old(self)),
                src == self.source(),
                t == self.syntax(),
                t.len() > 0,
                g == old(self)@,
                n == g.value_scopes.len(),
                self.value_scopes == old(self).value_scopes,
                self.fs_values == old(self).fs_values,
                self@ == flush_values(g, src, t, i as int),
        {
            assert(g.value_scopes[i as int] == self.value_scopes@[i as int]@);
            let row = self.value_scopes[i].row;
            let name = self.value_scopes[i].name.clone();
            self.scan_value_refs_in_node(0, row, name.as_str());
        }
    }
}

} // verus!
