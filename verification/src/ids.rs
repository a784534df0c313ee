//! Identifiers of graph nodes.

use vstd::prelude::*;
use vstd::string::StringExecFns;
use crate::kinds::{kind_word, node_kind_word, NodeKind};
use crate::textutil::{append_decimal, decimal};

verus! {

/// The identifier of the node of a file.
pub open spec fn file_id(path: Seq<char>) -> Seq<char> {
    "file:"@ + path
}

/// The identifier of a declaration: its kind, file, name and first line.
pub open spec fn declaration_id(
    path: Seq<char>,
    kind: NodeKind,
    name: Seq<char>,
    line: u32,
) -> Seq<char> {
    kind_word(kind) + ":"@ + path + ":"@ + name + ":"@ + decimal(line as nat)
}

/// The identifier of the node of the file `path`.
pub fn file_node_id(path: &str) -> (r: String)
    ensures
        r@ == file_id(path@),
{
    let mut out = String::new();
    out.append("file:");
    out.append(path);
    proof {
        assert(out@ =~= file_id(path@));
    }
    out
}

/// The identifier of a declaration in the file `path`.
pub fn node_id(path: &str, kind: NodeKind, name: &str, line: u32) -> (r: String)
    ensures
        r@ == declaration_id(path@, kind, name@, line),
{
    let mut out = String::new();
    out.append(node_kind_word(kind));
    out.append(":");
    out.append(path);
    out.append(":");
    out.append(name);
    out.append(":");
    append_decimal(&mut out, line);
    proof {
        assert(out@ =~= declaration_id(path@, kind, name@, line));
    }
    out
}

} // verus!
