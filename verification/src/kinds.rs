//! The kinds of nodes and edges of the graph, and their one-byte codes.

use vstd::prelude::*;

verus! {

/// The kind of a graph node, and of the scope that it opens.
#[derive(Clone, Copy, PartialEq, Eq, Structural, Debug)]
pub enum NodeKind {
    File,
    Module,
    Class,
    Struct,
    Interface,
    Trait,
    Function,
    Method,
    Variable,
    Constant,
    Enum,
}

/// The kind of a graph edge.
#[derive(Clone, Copy, PartialEq, Eq, Structural, Debug)]
pub enum EdgeKind {
    Contains,
    Imports,
    Extends,
}

/// The reference code of a mention of a function or value, apart from the codes
/// of the edge kinds.
pub const FUNCTION_REF_CODE: u8 = 255;

/// The code of a node kind.
pub open spec fn node_code(kind: NodeKind) -> u8 {
    match kind {
        NodeKind::File => 0,
        NodeKind::Module => 1,
        NodeKind::Class => 2,
        NodeKind::Struct => 3,
        NodeKind::Interface => 4,
        NodeKind::Trait => 5,
        NodeKind::Function => 7,
        NodeKind::Method => 8,
        NodeKind::Variable => 11,
        NodeKind::Constant => 12,
        NodeKind::Enum => 13,
    }
}

/// The code of an edge kind.
pub open spec fn edge_code(kind: EdgeKind) -> u8 {
    match kind {
        EdgeKind::Contains => 0,
        EdgeKind::Imports => 2,
        EdgeKind::Extends => 4,
    }
}

/// The word for a node kind.
pub open spec fn kind_word(kind: NodeKind) -> Seq<char> {
    match kind {
        NodeKind::File => "file"@,
        NodeKind::Module => "module"@,
        NodeKind::Class => "class"@,
        NodeKind::Struct => "struct"@,
        NodeKind::Interface => "interface"@,
        NodeKind::Trait => "trait"@,
        NodeKind::Function => "function"@,
        NodeKind::Method => "method"@,
        NodeKind::Variable => "variable"@,
        NodeKind::Constant => "constant"@,
        NodeKind::Enum => "enum"@,
    }
}

/// The code of a node kind.
pub fn node_kind_index(kind: NodeKind) -> (r: u8)
    ensures
        r == node_code(kind),
{
    match kind {
        NodeKind::File => 0,
        NodeKind::Module => 1,
        NodeKind::Class => 2,
        NodeKind::Struct => 3,
        NodeKind::Interface => 4,
        NodeKind::Trait => 5,
        NodeKind::Function => 7,
        NodeKind::Method => 8,
        NodeKind::Variable => 11,
        NodeKind::Constant => 12,
        NodeKind::Enum => 13,
    }
}

/// The code of an edge kind.
pub fn edge_kind_index(kind: EdgeKind) -> (r: u8)
    ensures
        r == edge_code(kind),
{
    match kind {
        EdgeKind::Contains => 0,
        EdgeKind::Imports => 2,
        EdgeKind::Extends => 4,
    }
}

/// The word for a node kind.
pub fn node_kind_word(kind: NodeKind) -> (r: &'static str)
    ensures
        r@ == kind_word(kind),
{
    match kind {
        NodeKind::File => "file",
        NodeKind::Module => "module",
        NodeKind::Class => "class",
        NodeKind::Struct => "struct",
        NodeKind::Interface => "interface",
        NodeKind::Trait => "trait",
        NodeKind::Function => "function",
        NodeKind::Method => "method",
        NodeKind::Variable => "variable",
        NodeKind::Constant => "constant",
        NodeKind::Enum => "enum",
    }
}

/// Whether functions declared directly in a scope of this kind are methods.
pub open spec fn class_like(kind: NodeKind) -> bool {
    kind == NodeKind::Class || kind == NodeKind::Struct || kind == NodeKind::Interface || kind
        == NodeKind::Trait || kind == NodeKind::Enum || kind == NodeKind::Module
}

/// Whether functions declared directly in a scope of this kind are methods.
pub fn is_class_like(kind: NodeKind) -> (r: bool)
    ensures
        r == class_like(kind),
{
    match kind {
        NodeKind::Class
        | NodeKind::Struct
        | NodeKind::Interface
        | NodeKind::Trait
        | NodeKind::Enum
        | NodeKind::Module => true,
        _ => false,
    }
}

/// Whether values declared directly in a scope of this kind can be looked up from
/// the whole file.
pub open spec fn value_host(kind: NodeKind) -> bool {
    kind == NodeKind::File || kind == NodeKind::Class || kind == NodeKind::Module || kind
        == NodeKind::Struct || kind == NodeKind::Enum
}

/// Whether values declared directly in a scope of this kind can be looked up from
/// the whole file.
pub fn is_value_host(kind: NodeKind) -> (r: bool)
    ensures
        r == value_host(kind),
{
    match kind {
        NodeKind::File
        | NodeKind::Class
        | NodeKind::Module
        | NodeKind::Struct
        | NodeKind::Enum => true,
        _ => false,
    }
}

/// Kinds with the same code are the same kind, and no edge kind has the code of
/// a function reference.
pub proof fn law_codes_distinct(a: NodeKind, b: NodeKind, c: EdgeKind, d: EdgeKind)
    ensures
        node_code(a) == node_code(b) ==> a == b,
        edge_code(c) == edge_code(d) ==> c == d,
        edge_code(c) != FUNCTION_REF_CODE,
{
}

} // verus!
