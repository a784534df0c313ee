//! What the graph of a file promises of its classes, functions, values and of the file
//! itself, read off the syntax tree and the arena alone.

use vstd::prelude::*;
use vstd::utf8::encode_utf8;
use crate::buffers::{arena_put, none_str, resolves_to, EmitOut, FLAG_IS_EXPORTED, NONE};
use crate::events::{annotated_with, whole_graph};
use crate::gdscript::{extraction, is_result};
use crate::graph::{file_graph, is_output, Graph};
use crate::ids::file_id;
use crate::kinds::{edge_code, kind_word, node_code, EdgeKind, NodeKind, FUNCTION_REF_CODE};
use crate::laws::{begins, law_file_comes_first};
use crate::mentions::is_met_in;
use crate::nesting::{
    describes, extends_name, has_containment, lemma_kinds_differ, shows_value, stands_in,
};
use crate::outline::{
    bears_name, is_function_kind, is_member, is_statement, is_statement_in, is_statement_of,
    law_names, lemma_sorts,
};
use crate::parser::{ParseModel, LENGTH_LIMIT};
use crate::placement::{
    declares, law_nested_functions_are_placed, law_statements_are_placed, lemma_not_enumerator,
};
use crate::shapes::{is_simple_parent, law_simple_children};
use crate::soundness::{law_texts_stay, lemma_put_resolves, within_limits};
use crate::syntax::{
    field_child, is_child, law_field_child, node_text, prev_named, tree_fits, NodeModel,
};
use crate::textutil::{base_name_of, law_lines, line_starts_of, occurs_in};

verus! {

/// Every declaring statement that is a named child of the body of a class is contained in
/// the row of the class; its qualified name is its name after that of the class, and where
/// it is a function its kind is that of a method.
pub proof fn law_class_members_are_contained(
    path: Seq<char>,
    src: Seq<char>,
    t: Seq<NodeModel>,
    c: int,
    body: int,
    m: int,
    outer: Seq<char>,
    name: Seq<char>,
)
    requires
        is_statement(src, t, c),
        t[c].kind == "class_definition"@,
        bears_name(src, t, c, outer),
        is_child(t, c, body),
        t[body].field == Some("body"@),
        forall|d: int| #[trigger] is_child(t, c, d) && t[d].field == Some("body"@) ==> body <= d,
        is_simple_parent(t, body),
        is_child(t, body, m),
        t[m].named,
        declares(t[m].kind),
        t[m].kind != "lambda"@,
        bears_name(src, t, m, name),
        within_limits(whole_graph(path, src, t)),
    ensures
        exists|r: int, k: int, kind: NodeKind|
            {
                &&& #[trigger] describes(
                    path,
                    src,
                    t,
                    whole_graph(path, src, t),
                    r,
                    c,
                    NodeKind::Class,
                    outer,
                )
                &&& #[trigger] describes(
                    path,
                    src,
                    t,
                    whole_graph(path, src, t),
                    k,
                    m,
                    kind,
                    name,
                )
                &&& is_function_kind(t[m].kind) ==> whole_graph(path, src, t).nodes[k].kind
                    == node_code(NodeKind::Method)
                &&& has_containment(whole_graph(path, src, t), r, k)
                &&& extends_name(whole_graph(path, src, t), r, k, name)
            },
{
    let g = whole_graph(path, src, t);
    law_field_child(t, c, "body"@);
    assert(field_child(t, c, "body"@) == Some(body));
    law_simple_children(t, body, m);
    assert(is_member(src, t, c, m));
    assert(is_statement_of(t, m, m));
    let o = Some(c);
    assert(o->0 == c);
    assert(is_statement_in(src, t, o, m));
    law_statements_are_placed(path, src, t, o, m, name);
    let (k, kind) = choose|k: int, kind: NodeKind|
        {
            &&& #[trigger] describes(path, src, t, g, k, m, kind, name)
            &&& is_function_kind(t[m].kind) ==> kind == NodeKind::Method
            &&& stands_in(path, src, t, g, o, k, name)
        };
    let (r, outer_kind, q) = choose|r: int, outer_kind: NodeKind, q: Seq<char>| #[trigger]
        describes(path, src, t, g, r, c, outer_kind, q) && has_containment(g, r, k)
            && extends_name(g, r, k, name);
    assert(describes(path, src, t, g, r, c, outer_kind, q));
    lemma_sorts(t[c].kind);
    lemma_not_enumerator(t[c].kind);
    law_names(src, t, c, q);
    law_names(src, t, c, outer);
    assert(describes(path, src, t, g, r, c, NodeKind::Class, outer));
}

/// Whether `g` holds the row of a function or method called `name` whose signature reads
/// `signature`.
pub open spec fn has_signature(g: Graph, name: Seq<char>, signature: Seq<char>) -> bool {
    exists|k: int|
        {
            &&& 0 <= k < g.nodes.len()
            &&& (#[trigger] g.nodes[k]).kind == node_code(NodeKind::Function) || g.nodes[k].kind
                == node_code(NodeKind::Method)
            &&& resolves_to(g.arena, g.nodes[k].name, name)
            &&& resolves_to(g.arena, g.nodes[k].signature, signature)
        }
}

/// Every named function in a file, a class or code has a row whose signature is the text of
/// its parameters, whatever they are, with an arrow and the text of its return type after
/// it where it states one.
pub proof fn law_functions_show_parameters(
    path: Seq<char>,
    src: Seq<char>,
    t: Seq<NodeModel>,
    o: Option<int>,
    j: int,
    name: Seq<char>,
    p: int,
)
    requires
        is_met_in(src, t, o, j),
        is_function_kind(t[j].kind),
        bears_name(src, t, j, name),
        field_child(t, j, "parameters"@) == Some(p),
        within_limits(whole_graph(path, src, t)),
    ensures
        field_child(t, j, "return_type"@) is None && node_text(src, t[p]).len() > 0
            ==> has_signature(whole_graph(path, src, t), name, node_text(src, t[p])),
        field_child(t, j, "return_type"@) matches Some(q) ==> has_signature(
            whole_graph(path, src, t),
            name,
            node_text(src, t[p]) + " -> "@ + node_text(src, t[q]),
        ),
{
    let g = whole_graph(path, src, t);
    lemma_kinds_differ();
    lemma_sorts(t[j].kind);
    let (k, kind) = if is_statement_in(src, t, o, j) {
        law_statements_are_placed(path, src, t, o, j, name);
        choose|k: int, kind: NodeKind|
            {
                &&& #[trigger] describes(path, src, t, g, k, j, kind, name)
                &&& is_function_kind(t[j].kind) ==> kind == (if o is Some {
                    NodeKind::Method
                } else {
                    NodeKind::Function
                })
                &&& stands_in(path, src, t, g, o, k, name)
            }
    } else {
        law_nested_functions_are_placed(path, src, t, o->0, j, name);
        let k = choose|k: int| #[trigger]
            describes(path, src, t, g, k, j, NodeKind::Function, name) && stands_in(
                path,
                src,
                t,
                g,
                Some(o->0),
                k,
                name,
            );
        (k, NodeKind::Function)
    };
    assert(describes(path, src, t, g, k, j, kind, name));
    assert(g.nodes[k].kind == node_code(kind));
}

/// Whether `g` holds the row of a value of the given kind called `name` whose signature
/// shows the initializer `text`.
pub open spec fn has_value_signature(
    g: Graph,
    kind: NodeKind,
    name: Seq<char>,
    text: Seq<char>,
) -> bool {
    exists|k: int, s: Seq<char>|
        {
            &&& 0 <= k < g.nodes.len()
            &&& g.nodes[k].kind == node_code(kind)
            &&& resolves_to(g.arena, g.nodes[k].name, name)
            &&& #[trigger] resolves_to(g.arena, g.nodes[k].signature, s)
            &&& shows_value(s, text)
        }
}

/// Every named variable or constant with an initializer in a file or class has a row of its
/// kind whose signature is an equals sign and the start of the text of the initializer.
pub proof fn law_values_show_initializers(
    path: Seq<char>,
    src: Seq<char>,
    t: Seq<NodeModel>,
    o: Option<int>,
    j: int,
    name: Seq<char>,
    v: int,
)
    requires
        is_statement_in(src, t, o, j),
        t[j].kind == "variable_statement"@ || t[j].kind == "const_statement"@,
        bears_name(src, t, j, name),
        field_child(t, j, "value"@) == Some(v),
        within_limits(whole_graph(path, src, t)),
    ensures
        has_value_signature(
            whole_graph(path, src, t),
            if t[j].kind == "const_statement"@ {
                NodeKind::Constant
            } else {
                NodeKind::Variable
            },
            name,
            node_text(src, t[v]),
        ),
{
    let g = whole_graph(path, src, t);
    lemma_kinds_differ();
    lemma_sorts(t[j].kind);
    lemma_not_enumerator(t[j].kind);
    law_statements_are_placed(path, src, t, o, j, name);
    let (k, kind) = choose|k: int, kind: NodeKind|
        {
            &&& #[trigger] describes(path, src, t, g, k, j, kind, name)
            &&& is_function_kind(t[j].kind) ==> kind == (if o is Some {
                NodeKind::Method
            } else {
                NodeKind::Function
            })
            &&& stands_in(path, src, t, g, o, k, name)
        };
    assert(describes(path, src, t, g, k, j, kind, name));
    let s = choose|s: Seq<char>| #[trigger]
        shows_value(s, node_text(src, t[v])) && resolves_to(g.arena, g.nodes[k].signature, s);
    assert(resolves_to(g.arena, g.nodes[k].signature, s));
}

/// The first row is that of the file: it is called by the last part of the path, its
/// qualified name is the path, and it goes from the first line to the last.
pub proof fn law_file_row(path: Seq<char>, src: Seq<char>, t: Seq<NodeModel>)
    requires
        within_limits(whole_graph(path, src, t)),
    ensures
        ({
            let g = whole_graph(path, src, t);
            let row = g.nodes[0];
            let lines = line_starts_of(encode_utf8(src)).len();
            &&& g.nodes.len() > 0
            &&& row.kind == node_code(NodeKind::File)
            &&& row.visibility == 0
            &&& row.flags.known == 0
            &&& row.flags.value == 0
            &&& row.start_line == 1
            &&& lines <= u32::MAX ==> row.end_line == lines
            &&& row.start_column == 0
            &&& row.end_column == 0
            &&& resolves_to(g.arena, row.name, base_name_of(path))
            &&& resolves_to(g.arena, row.qualified_name, path)
            &&& resolves_to(g.arena, row.id, "file:"@ + path)
            &&& row.docstring == none_str()
            &&& row.signature == none_str()
            &&& row.decorators == none_str()
            &&& row.type_parameters == none_str()
            &&& row.return_type == none_str()
            &&& row.extra_json == none_str()
        }),
{
    let g = whole_graph(path, src, t);
    let g0 = file_graph(path, src);
    law_file_comes_first(path, src, t);
    law_lines(encode_utf8(src));
    assert(g.nodes.take(g0.nodes.len() as int)[0] == g0.nodes[0]);
    let base = base_name_of(path);
    let none = Seq::<u8>::empty();
    let a1 = arena_put(none, file_id(path));
    let a2 = arena_put(a1, base);
    let a3 = arena_put(a2, path);
    let row = g0.nodes[0];
    assert(a3 == g0.arena);
    assert(a3.len() <= g.arena.len());
    lemma_put_resolves(none, file_id(path));
    lemma_put_resolves(a1, base);
    lemma_put_resolves(a2, path);
    assert(a3.take(a1.len() as int) =~= a1);
    assert(a3.take(a2.len() as int) =~= a2);
    law_texts_stay(a1, a3, row.id, file_id(path));
    law_texts_stay(a2, a3, row.name, base);
    law_texts_stay(a3, g.arena, row.id, file_id(path));
    law_texts_stay(a3, g.arena, row.name, base);
    law_texts_stay(a3, g.arena, row.qualified_name, path);
}

/// A text whose tree has nodes, all of which fit it, has a graph, and that is the graph of
/// its tree; a text without such a tree has none.
pub proof fn law_extraction(path: Seq<char>, src: Seq<char>, parsed: ParseModel)
    ensures
        extraction(path, src, parsed) is Ok <==> (parsed matches ParseModel::Tree(t) && t.len() > 0
            && tree_fits(src, t)),
        extraction(path, src, parsed) matches Ok(g) ==> g == whole_graph(
            path,
            src,
            parsed->Tree_0,
        ),
{
}

/// The rows, edges, references and texts of an output are those of its graph, and it says
/// how many there are.
pub proof fn law_output(out: EmitOut, g: Graph)
    requires
        is_output(out, g),
    ensures
        out.nodes@ == g.nodes,
        out.edges@ == g.edges,
        out.refs@ == g.refs,
        out.arena@ == g.arena,
        out.meta.node_count == out.nodes@.len(),
        out.meta.edge_count == out.edges@.len(),
        out.meta.ref_count == out.refs@.len(),
        out.meta.arena_len == out.arena@.len(),
        out.meta.message == none_str(),
{
}

/// A result is the given one exactly where both are graphs and the output is that of the
/// graph, or both are refusals with the same words.
pub proof fn law_results(r: Result<EmitOut, String>, model: Result<Graph, Seq<char>>)
    ensures
        is_result(r, model) ==> (r is Ok <==> model is Ok),
        is_result(r, model) && r is Ok ==> is_output(r->Ok_0, model->Ok_0),
        is_result(r, model) && r is Err ==> r->Err_0@ == model->Err_0,
{
}

/// Different kinds of nodes have different words, so identifiers of different kinds differ.
pub proof fn law_words_differ(a: NodeKind, b: NodeKind)
    ensures
        kind_word(a) == kind_word(b) ==> a == b,
        kind_word(a).len() > 0,
{
    reveal_strlit("file");
    reveal_strlit("module");
    reveal_strlit("class");
    reveal_strlit("struct");
    reveal_strlit("interface");
    reveal_strlit("trait");
    reveal_strlit("function");
    reveal_strlit("method");
    reveal_strlit("variable");
    reveal_strlit("constant");
    reveal_strlit("enum");
    assert("file"@.len() == 4 && "file"@[0] == 'f');
    assert("enum"@.len() == 4 && "enum"@[0] == 'e');
    assert("class"@.len() == 5 && "class"@[0] == 'c');
    assert("trait"@.len() == 5 && "trait"@[0] == 't');
    assert("module"@.len() == 6 && "module"@[1] == 'o');
    assert("struct"@.len() == 6 && "struct"@[0] == 's');
    assert("method"@.len() == 6 && "method"@[1] == 'e');
    assert("module"@[0] == 'm' && "method"@[0] == 'm');
    assert("function"@.len() == 8 && "function"@[0] == 'f');
    assert("variable"@.len() == 8 && "variable"@[0] == 'v');
    assert("constant"@.len() == 8 && "constant"@[0] == 'c');
    assert("interface"@.len() == 9);
}

/// The codes and words of the kinds, the marks of what a row does not have, the code of a
/// reference to a function or value, and the length from which on a text is too long.
pub proof fn law_codes()
    ensures
        node_code(NodeKind::File) == 0 && kind_word(NodeKind::File) == "file"@,
        node_code(NodeKind::Class) == 2 && kind_word(NodeKind::Class) == "class"@,
        node_code(NodeKind::Function) == 7 && kind_word(NodeKind::Function) == "function"@,
        node_code(NodeKind::Method) == 8 && kind_word(NodeKind::Method) == "method"@,
        node_code(NodeKind::Variable) == 11 && kind_word(NodeKind::Variable) == "variable"@,
        node_code(NodeKind::Constant) == 12 && kind_word(NodeKind::Constant) == "constant"@,
        node_code(NodeKind::Enum) == 13 && kind_word(NodeKind::Enum) == "enum"@,
        edge_code(EdgeKind::Contains) == 0,
        edge_code(EdgeKind::Imports) == 2,
        edge_code(EdgeKind::Extends) == 4,
        FUNCTION_REF_CODE == 255,
        FLAG_IS_EXPORTED == 1,
        NONE == u32::MAX,
        none_str().offset == usize::MAX && none_str().len == 0,
        LENGTH_LIMIT == u32::MAX,
{
}

/// A text that does not follow the grammar, or whose tree does not fit it, is deferred; a
/// grammar that is refused is so for the reason that the parser gives.
pub proof fn law_refusals(path: Seq<char>, src: Seq<char>, t: Seq<NodeModel>, reason: Seq<char>)
    ensures
        extraction(path, src, ParseModel::Broken) matches Err(m) && begins(m, "defer: "@),
        !(t.len() > 0 && tree_fits(src, t)) ==> (extraction(path, src, ParseModel::Tree(t))
            matches Err(m) && begins(m, "defer: "@)),
        extraction(path, src, ParseModel::Refused(reason)) == Err::<Graph, Seq<char>>(
            "set_language(gdscript) failed: "@ + reason,
        ),
        extraction(path, src, ParseModel::NoTree) == Err::<Graph, Seq<char>>(
            "parser returned null tree"@,
        ),
{
    reveal_strlit("defer: ");
    reveal_strlit("defer: parse tree contains errors — wasm recovery is canonical");
    reveal_strlit("defer: parse tree does not fit the source");
    assert("defer: parse tree contains errors — wasm recovery is canonical"@.take(7)
        =~= "defer: "@);
    assert("defer: parse tree does not fit the source"@.take(7) =~= "defer: "@);
}

/// Whether `s` comes before `i` as a sibling with nothing but annotations and comments in
/// between.
pub open spec fn is_annotation_step(t: Seq<NodeModel>, i: int, s: int) -> bool
    decreases i,
{
    prev_named(t, i) matches Some(p) && 0 <= p < i && (p == s || ((t[p].kind == "annotation"@
        || t[p].kind == "annotations"@ || t[p].kind == "comment"@) && is_annotation_step(t, p, s)))
}

/// A declaration is annotated with a word exactly where an annotation before it holds the
/// word, with nothing but annotations and comments in between.
pub proof fn law_annotated(src: Seq<char>, t: Seq<NodeModel>, i: int, word: Seq<char>)
    ensures
        annotated_with(src, t, i, word) <==> exists|s: int|
            {
                &&& #[trigger] is_annotation_step(t, i, s)
                &&& t[s].kind == "annotation"@ || t[s].kind == "annotations"@
                &&& occurs_in(node_text(src, t[s]), word)
            },
    decreases i,
{
    lemma_comment_apart();
    if exists|s: int|
        {
            &&& #[trigger] is_annotation_step(t, i, s)
            &&& t[s].kind == "annotation"@ || t[s].kind == "annotations"@
            &&& occurs_in(node_text(src, t[s]), word)
        } {
        let s = choose|s: int|
            {
                &&& #[trigger] is_annotation_step(t, i, s)
                &&& t[s].kind == "annotation"@ || t[s].kind == "annotations"@
                &&& occurs_in(node_text(src, t[s]), word)
            };
        let p = prev_named(t, i)->0;
        law_annotated(src, t, p, word);
        if s != p {
            assert(is_annotation_step(t, p, s));
        }
        assert(annotated_with(src, t, i, word));
    }
    if let Some(p) = prev_named(t, i) {
        if 0 <= p < i {
            law_annotated(src, t, p, word);
            let noted = t[p].kind == "annotation"@ || t[p].kind == "annotations"@;
            if noted || t[p].kind == "comment"@ {
                if noted && occurs_in(node_text(src, t[p]), word) {
                    assert(is_annotation_step(t, i, p));
                }
                if annotated_with(src, t, p, word) {
                    let s = choose|s: int|
                        {
                            &&& #[trigger] is_annotation_step(t, p, s)
                            &&& t[s].kind == "annotation"@ || t[s].kind == "annotations"@
                            &&& occurs_in(node_text(src, t[s]), word)
                        };
                    assert(is_annotation_step(t, i, s));
                }
            }
        }
    }
}

proof fn lemma_comment_apart()
    ensures
        "comment"@ != "annotation"@,
        "comment"@ != "annotations"@,
{
    reveal_strlit("comment");
    reveal_strlit("annotation");
    reveal_strlit("annotations");
    assert("comment"@.len() == 7);
    assert("annotation"@.len() == 10);
    assert("annotations"@.len() == 11);
}

} // verus!
