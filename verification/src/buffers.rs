//! The output of an extraction: a string arena and the tables of nodes, edges and
//! references whose rows point into it.

use vstd::prelude::*;
use vstd::utf8::encode_utf8;

verus! {

/// A line or column that a row does not have.
pub const NONE: u32 = 0xffff_ffff;

/// A part of the arena: where it starts and how many bytes it has.
#[derive(Clone, Copy, PartialEq, Eq, Structural, Debug)]
pub struct StrRef {
    pub offset: usize,
    pub len: usize,
}

/// The reference of a string that a row does not have.
#[verifier::allow_in_spec]
pub fn none_str() -> StrRef
    returns
        (StrRef { offset: usize::MAX, len: 0 }),
{
    StrRef { offset: usize::MAX, len: 0 }
}

/// The arena after `s` was appended to `arena`.
pub open spec fn arena_put(arena: Seq<u8>, s: Seq<char>) -> Seq<u8> {
    arena + encode_utf8(s)
}

/// The reference to `s` when it is appended to `arena`.
pub open spec fn put_ref(arena: Seq<u8>, s: Seq<char>) -> StrRef {
    StrRef { offset: arena.len() as usize, len: encode_utf8(s).len() as usize }
}

/// The arena after an optional string: absent and empty strings add nothing.
pub open spec fn arena_put_opt(arena: Seq<u8>, s: Option<Seq<char>>) -> Seq<u8> {
    match s {
        Some(x) => if x.len() > 0 {
            arena_put(arena, x)
        } else {
            arena
        },
        None => arena,
    }
}

/// The reference of an optional string: none for absent and empty strings.
pub open spec fn put_opt_ref(arena: Seq<u8>, s: Option<Seq<char>>) -> StrRef {
    match s {
        Some(x) => if x.len() > 0 {
            put_ref(arena, x)
        } else {
            none_str()
        },
        None => none_str(),
    }
}

/// Whether `r` refers to exactly the bytes of `s` in `arena`.
pub open spec fn resolves_to(arena: Seq<u8>, r: StrRef, s: Seq<char>) -> bool {
    &&& r.offset + r.len <= arena.len()
    &&& arena.subrange(r.offset as int, r.offset + r.len) == encode_utf8(s)
}

/// An append-only store of UTF-8 text.
pub struct Arena {
    pub bytes: Vec<u8>,
}

impl View for Arena {
    type V = Seq<u8>;

    open spec fn view(&self) -> Seq<u8> {
        self.bytes@
    }
}

impl Default for Arena {
    fn default() -> (r: Self)
        ensures
            r@ == Seq::<u8>::empty(),
    {
        Arena { bytes: Vec::new() }
    }
}

impl Arena {
    /// Appends `s` and returns the reference to it.
    pub fn put(&mut self, s: &str) -> (r: StrRef)
        ensures
            final(self)@ == arena_put(old(self)@, s@),
            r == put_ref(old(self)@, s@),
            resolves_to(final(self)@, r, s@),
    {
        let offset = self.bytes.len();
        let text = s.as_bytes();
        let len = text.len();
        self.bytes.extend_from_slice(text);
        proof {
            assert(self.bytes@ =~= arena_put(old(self)@, s@));
            assert(self.bytes@.subrange(offset as int, offset + len) =~= encode_utf8(s@));
        }
        StrRef { offset, len }
    }

    /// The number of bytes stored.
    pub fn len(&self) -> (r: usize)
        ensures
            r == self@.len(),
    {
        self.bytes.len()
    }

    /// The stored bytes.
    pub fn into_vec(self) -> (r: Vec<u8>)
        ensures
            r@ == self@,
    {
        self.bytes
    }
}

/// Appends a string that may be absent; absent and empty strings have no
/// reference and leave the arena as it is.
pub fn opt_str(arena: &mut Arena, s: Option<&str>) -> (r: StrRef)
    ensures
        final(arena)@ == arena_put_opt(
            old(arena)@,
            (match s {
                Some(x) => Some(x@),
                None => None,
            }),
        ),
        r == put_opt_ref(
            old(arena)@,
            (match s {
                Some(x) => Some(x@),
                None => None,
            }),
        ),
{
    match s {
        Some(x) => {
            if !x.is_empty() {
                arena.put(x)
            } else {
                none_str()
            }
        },
        None => none_str(),
    }
}

/// The flag of exported nodes.
pub const FLAG_IS_EXPORTED: u8 = 1;

/// Yes-or-no properties of a node, each of which may also be unknown.
#[derive(Clone, Copy, PartialEq, Eq, Structural, Debug)]
pub struct BoolFlags {
    pub known: u8,
    pub value: u8,
}

/// The flags after the property `flag` was given the value `v`.
pub open spec fn with_flag(flags: BoolFlags, flag: u8, v: bool) -> BoolFlags {
    BoolFlags {
        known: flags.known | flag,
        value: if v {
            flags.value | flag
        } else {
            flags.value & !flag
        },
    }
}

/// The value of the property `flag`, where it is known.
pub open spec fn flag_value(flags: BoolFlags, flag: u8) -> Option<bool> {
    if flags.known & flag == flag {
        Some(flags.value & flag == flag)
    } else {
        None
    }
}

/// No property known.
pub open spec fn no_flags() -> BoolFlags {
    BoolFlags { known: 0, value: 0 }
}

impl Default for BoolFlags {
    fn default() -> (r: Self)
        ensures
            r == no_flags(),
    {
        BoolFlags { known: 0, value: 0 }
    }
}

impl BoolFlags {
    /// Records the value of one property.
    pub fn set(&mut self, flag: u8, v: bool)
        ensures
            *final(self) == with_flag(*old(self), flag, v),
    {
        self.known = self.known | flag;
        if v {
            self.value = self.value | flag;
        } else {
            self.value = self.value & !flag;
        }
    }
}

/// Setting a property makes it known with that value and leaves every disjoint
/// property as it was.
pub proof fn law_flags(flags: BoolFlags, flag: u8, v: bool, other: u8)
    requires
        flag != 0,
    ensures
        flag_value(with_flag(flags, flag, v), flag) == Some(v),
        flag & other == 0 ==> flag_value(with_flag(flags, flag, v), other) == flag_value(
            flags,
            other,
        ),
{
    let known = flags.known;
    let value = flags.value;
    assert((known | flag) & flag == flag) by (bit_vector);
    assert((value | flag) & flag == flag) by (bit_vector);
    assert((value & !flag) & flag == 0) by (bit_vector);
    assert(flag & other == 0 ==> (known | flag) & other == known & other) by (bit_vector);
    assert(flag & other == 0 ==> (value | flag) & other == value & other) by (bit_vector);
    assert(flag & other == 0 ==> (value & !flag) & other == value & other) by (bit_vector);
}

/// A row of the node table.
#[derive(Clone, Copy, PartialEq, Eq, Structural, Debug)]
pub struct NodeRow {
    pub kind: u8,
    pub visibility: u8,
    pub flags: BoolFlags,
    pub start_line: u32,
    pub end_line: u32,
    pub start_column: u32,
    pub end_column: u32,
    pub name: StrRef,
    pub qualified_name: StrRef,
    pub id: StrRef,
    pub docstring: StrRef,
    pub signature: StrRef,
    pub decorators: StrRef,
    pub type_parameters: StrRef,
    pub return_type: StrRef,
    pub extra_json: StrRef,
}

/// A row of the edge table.
#[derive(Clone, Copy, PartialEq, Eq, Structural, Debug)]
pub struct EdgeRow {
    pub source_idx: u32,
    pub target_idx: u32,
    pub kind: u8,
    pub provenance: u8,
    pub line: u32,
    pub column: u32,
    pub metadata_json: StrRef,
    pub source_id_str: StrRef,
    pub target_id_str: StrRef,
}

/// A row of the reference table.
#[derive(Clone, Copy, PartialEq, Eq, Structural, Debug)]
pub struct RefRow {
    pub from_idx: u32,
    pub kind: u8,
    pub line: u32,
    pub column: u32,
    pub reference_name: StrRef,
    pub candidates: StrRef,
    pub from_id_str: StrRef,
}

/// The three tables.
pub struct Tables {
    pub nodes: Vec<NodeRow>,
    pub edges: Vec<EdgeRow>,
    pub refs: Vec<RefRow>,
}

impl Default for Tables {
    fn default() -> (r: Self)
        ensures
            r.nodes@ == Seq::<NodeRow>::empty(),
            r.edges@ == Seq::<EdgeRow>::empty(),
            r.refs@ == Seq::<RefRow>::empty(),
    {
        Tables { nodes: Vec::new(), edges: Vec::new(), refs: Vec::new() }
    }
}

impl Tables {
    /// Appends a node and returns its row number, a 32-bit value.
    pub fn push_node(&mut self, row: &NodeRow) -> (r: u32)
        ensures
            final(self).nodes@ == old(self).nodes@.push(*row),
            final(self).edges == old(self).edges,
            final(self).refs == old(self).refs,
            r == old(self).nodes@.len() as u32,
    {
        let index = self.nodes.len() as u32;
        self.nodes.push(*row);
        index
    }

    /// Appends an edge.
    pub fn push_edge(&mut self, row: &EdgeRow)
        ensures
            final(self).nodes == old(self).nodes,
            final(self).edges@ == old(self).edges@.push(*row),
            final(self).refs == old(self).refs,
    {
        self.edges.push(*row);
    }

    /// Appends a reference.
    pub fn push_ref(&mut self, row: &RefRow)
        ensures
            final(self).nodes == old(self).nodes,
            final(self).edges == old(self).edges,
            final(self).refs@ == old(self).refs@.push(*row),
    {
        self.refs.push(*row);
    }
}

/// The sizes of an output.
#[derive(Clone, Copy, PartialEq, Eq, Structural, Debug)]
pub struct Meta {
    pub node_count: usize,
    pub edge_count: usize,
    pub ref_count: usize,
    pub arena_len: usize,
    /// A message, where one is attached.
    pub message: StrRef,
}

/// What an extraction yields.
pub struct EmitOut {
    pub meta: Meta,
    pub nodes: Vec<NodeRow>,
    pub edges: Vec<EdgeRow>,
    pub refs: Vec<RefRow>,
    pub arena: Vec<u8>,
}

/// The sizes of the given tables and arena.
pub fn build_meta(tables: &Tables, arena_len: usize, message: StrRef) -> (r: Meta)
    ensures
        r.node_count == tables.nodes@.len(),
        r.edge_count == tables.edges@.len(),
        r.ref_count == tables.refs@.len(),
        r.arena_len == arena_len,
        r.message == message,
{
    Meta {
        node_count: tables.nodes.len(),
        edge_count: tables.edges.len(),
        ref_count: tables.refs.len(),
        arena_len,
        message,
    }
}

} // verus!
