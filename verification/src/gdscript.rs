//! GDScript extraction: the graph of the classes, functions, values and references
//! of one file.

use vstd::prelude::*;
use vstd::string::StringExecFns;
use crate::buffers::EmitOut;
use crate::events::whole_graph;
use crate::graph::{is_output, Graph};
use crate::parser::{gdscript_parse, parse, within_length, ParseModel, Parsed};
use crate::syntax::{tree_fits, SyntaxTree};
use crate::textutil::line_starts;
use crate::walker::Walker;

verus! {

/// The result of an extraction: the graph of the file, or why there is none. A text
/// that does not follow the grammar is left to another parser, and so is a tree
/// whose nodes do not lie in the text.
pub open spec fn extraction(path: Seq<char>, src: Seq<char>, parsed: ParseModel) -> Result<
    Graph,
    Seq<char>,
> {
    match parsed {
        ParseModel::Refused(reason) => Err("set_language(gdscript) failed: "@ + reason),
        ParseModel::NoTree => Err("parser returned null tree"@),
        ParseModel::Broken => Err(
            "defer: parse tree contains errors — wasm recovery is canonical"@,
        ),
        ParseModel::Tree(t) => if t.len() > 0 && tree_fits(src, t) {
            Ok(whole_graph(path, src, t))
        } else {
            Err("defer: parse tree does not fit the source"@)
        },
    }
}

/// Whether `r` is the given result of an extraction.
pub open spec fn is_result(r: Result<EmitOut, String>, model: Result<Graph, Seq<char>>) -> bool {
    match (r, model) {
        (Ok(out), Ok(g)) => is_output(out, g),
        (Err(e), Err(m)) => e@ == m,
        _ => false,
    }
}

/// The graph of a file with a syntax tree whose nodes lie in its text.
pub fn extract_tree(file_path: &str, source: &str, tree: &SyntaxTree) -> (r: EmitOut)
    requires
        tree@.len() > 0,
        tree_fits(source@, tree@),
    ensures
        is_output(r, whole_graph(file_path@, source@, tree@)),
{
    let mut w = Walker::new(file_path, source, tree);
    w.visit_node(0);
    w.flush_fn_ref_candidates();
    w.flush_value_refs();
    w.finish()
}

/// The result of an extraction, given what the parser made of the text.
pub fn extract_parsed(file_path: &str, source: &str, parsed: &Parsed) -> (r: Result<
    EmitOut,
    String,
>)
    ensures
        is_result(r, extraction(file_path@, source@, parsed@)),
{
    match parsed {
        Parsed::Refused(reason) => {
            let mut message = String::new();
            message.append("set_language(gdscript) failed: ");
            message.append(reason.as_str());
            proof {
                assert(message@ =~= "set_language(gdscript) failed: "@ + reason@);
            }
            Err(message)
        },
        Parsed::NoTree => Err("parser returned null tree".to_owned()),
        Parsed::Broken => Err(
            "defer: parse tree contains errors — wasm recovery is canonical".to_owned(),
        ),
        Parsed::Tree(tree) => {
            let starts = line_starts(source);
            if tree.nodes.len() > 0 && tree.fits(source, &starts) {
                Ok(extract_tree(file_path, source, tree))
            } else {
                Err("defer: parse tree does not fit the source".to_owned())
            }
        },
    }
}

/// Extracts the graph of the GDScript file `file_path` with the text `source`. Every
/// text that follows the grammar has a graph, as long as its length is within that of
/// the parser's trees.
pub fn extract(file_path: &str, source: &str) -> (r: Result<EmitOut, String>)
    ensures
        is_result(r, extraction(file_path@, source@, gdscript_parse(source@))),
        within_length(source@) ==> (r is Ok <==> gdscript_parse(source@) is Tree),
{
    let parsed = parse(source);
    extract_parsed(file_path, source, &parsed)
}

} // verus!
