//! The tree nodes, their mathematical shape, and the binary node format.

use vstd::prelude::*;

verus! {

use crate::error::TreeError;
use crate::feature_description::FeatureDescription;
use crate::feature_description::spec_distance;
use crate::node_path::Direction;
use crate::node_path::NodePath;
use crate::node_path::spec_path_to_binary;
use crate::node_path::spec_path_from_binary;
use crate::node_path::lemma_path_round_trip;
use crate::uuid_description_pair::UUIDDescriptionPair;
use crate::uuid_description_pair::spec_record_to_binary;
use crate::uuid_description_pair::spec_record_from_binary;
use crate::uuid_description_pair::record_view_wf;
use crate::uuid_description_pair::lemma_record_round_trip;
use vstd::bytes::spec_u32_to_le_bytes;
use vstd::bytes::spec_u32_from_le_bytes;
use vstd::bytes::spec_u64_to_le_bytes;
use vstd::bytes::spec_u64_from_le_bytes;
use vstd::bytes::lemma_auto_spec_u32_to_from_le_bytes;
use vstd::bytes::lemma_auto_spec_u64_to_from_le_bytes;
use vstd::multiset::Multiset;

/// An unordered collection of records, append-only until it is split.
#[derive(Debug)]
pub struct LeafNode {
    pub features: Vec<UUIDDescriptionPair>,
}

/// A vantage descriptor with a radius and two owned child subtrees: records
/// at distance below the radius live under `near`, the rest under `far`.
/// Vantage and radius are immutable after creation.
#[derive(Debug)]
pub struct InternalNode {
    pub vantage: FeatureDescription,
    pub radius: u32,
    pub near: Box<Node>,
    pub far: Box<Node>,
}

/// A reference to a subtree persisted in its own shard file, addressed by its
/// position in the tree; never cached resident, read and rewritten per touch.
#[derive(Debug)]
pub struct FileNode {
    pub path_in_tree: NodePath,
}

/// A tree node: exactly one of a leaf, an internal split, or a shard
/// reference.
#[derive(Debug)]
pub enum Node {
    Internal(InternalNode),
    Leaf(LeafNode),
    File(FileNode),
}

/// The mathematical shape of a node: record views in leaves, radius and
/// vantage bytes at splits, and bare positions at shard references.
pub enum NodeV {
    Leaf { records: Seq<(u64, Seq<u8>)> },
    Internal { radius: u32, vantage: Seq<u8>, near: Box<NodeV>, far: Box<NodeV> },
    File { path: Seq<Direction> },
}

pub open spec fn spec_node_view(n: Node) -> NodeV
    decreases n,
{
    match n {
        Node::Leaf(l) => NodeV::Leaf {
            records: l.features@.map_values(|p: UUIDDescriptionPair| p@),
        },
        Node::Internal(i) => NodeV::Internal {
            radius: i.radius,
            vantage: i.vantage@,
            near: Box::new(spec_node_view(*i.near)),
            far: Box::new(spec_node_view(*i.far)),
        },
        Node::File(f) => NodeV::File { path: f.path_in_tree@ },
    }
}

impl View for Node {
    type V = NodeV;

    open spec fn view(&self) -> NodeV {
        spec_node_view(*self)
    }
}

/// The records held inline by a subtree; shard references contribute nothing,
/// their contents live out-of-band.
pub open spec fn inline_records(v: NodeV) -> Multiset<(u64, Seq<u8>)>
    decreases v,
{
    match v {
        NodeV::Leaf { records } => records.to_multiset(),
        NodeV::Internal { near, far, .. } => inline_records(*near).add(inline_records(*far)),
        NodeV::File { .. } => Multiset::empty(),
    }
}

/// Structural well-formedness of a subtree sitting at position `pos`: leaves
/// respect the capacity bound and hold full-length descriptors, every
/// internal node separates its inline records by its radius, and every shard
/// reference records exactly the position it sits at.
pub open spec fn node_wf(v: NodeV, max_leaf: int, pos: Seq<Direction>) -> bool
    decreases v,
{
    match v {
        NodeV::Leaf { records } => {
            &&& records.len() <= max_leaf
            &&& forall|i: int| 0 <= i < records.len() ==> record_view_wf(#[trigger] records[i])
        },
        NodeV::Internal { radius, vantage, near, far } => {
            &&& vantage.len() == crate::constants::FEATURE_DESCRIPTION_LENGTH
            &&& node_wf(*near, max_leaf, pos.push(Direction::Near))
            &&& node_wf(*far, max_leaf, pos.push(Direction::Far))
            &&& forall|o: (u64, Seq<u8>)|
                inline_records(*near).contains(o) ==> spec_distance(#[trigger] o.1, vantage)
                    < radius
            &&& forall|o: (u64, Seq<u8>)|
                inline_records(*far).contains(o) ==> spec_distance(#[trigger] o.1, vantage)
                    >= radius
        },
        NodeV::File { path } => path == pos,
    }
}

/// The four-byte signature of a leaf block: the ASCII bytes of "leaf".
pub open spec fn leaf_sig() -> Seq<u8> {
    seq![108u8, 101u8, 97u8, 102u8]
}

/// The four-byte signature of an internal block: the ASCII bytes of "intr".
pub open spec fn intr_sig() -> Seq<u8> {
    seq![105u8, 110u8, 116u8, 114u8]
}

/// The four-byte signature of a shard-reference block: the ASCII bytes of
/// "file".
pub open spec fn file_sig() -> Seq<u8> {
    seq![102u8, 105u8, 108u8, 101u8]
}

/// Wire form of a sequence of records, one 40-byte block each.
pub open spec fn enc_records(s: Seq<(u64, Seq<u8>)>) -> Seq<u8>
    decreases s.len(),
{
    if s.len() == 0 {
        Seq::empty()
    } else {
        spec_record_to_binary(s[0]) + enc_records(s.drop_first())
    }
}

/// Wire form of a node. A leaf is its signature, a record count and the
/// records; an internal node is its signature, radius, vantage, and both
/// children each behind an 8-byte length; a shard reference is its signature
/// and its position.
pub open spec fn enc_node(v: NodeV) -> Seq<u8>
    decreases v,
{
    match v {
        NodeV::Leaf { records } => leaf_sig() + spec_u64_to_le_bytes(records.len() as u64)
            + enc_records(records),
        NodeV::Internal { radius, vantage, near, far } => intr_sig() + spec_u32_to_le_bytes(radius)
            + vantage + spec_u64_to_le_bytes(enc_node(*near).len() as u64) + enc_node(*near)
            + spec_u64_to_le_bytes(enc_node(*far).len() as u64) + enc_node(*far),
        NodeV::File { path } => file_sig() + spec_path_to_binary(path),
    }
}

/// Whether a node can be written faithfully: all descriptors have full
/// length and every count fits its 64-bit wire field.
pub open spec fn enc_wf(v: NodeV) -> bool
    decreases v,
{
    match v {
        NodeV::Leaf { records } => {
            &&& records.len() <= u64::MAX
            &&& forall|i: int| 0 <= i < records.len() ==> record_view_wf(#[trigger] records[i])
        },
        NodeV::Internal { vantage, near, far, .. } => {
            &&& vantage.len() == crate::constants::FEATURE_DESCRIPTION_LENGTH
            &&& enc_wf(*near)
            &&& enc_wf(*far)
            &&& enc_node(*near).len() <= u64::MAX
            &&& enc_node(*far).len() <= u64::MAX
        },
        NodeV::File { path } => path.len() <= u64::MAX,
    }
}

/// Reads `n` records back from their exact wire form.
pub open spec fn dec_records(b: Seq<u8>, n: nat) -> Option<Seq<(u64, Seq<u8>)>>
    decreases n,
{
    if n == 0 {
        if b.len() == 0 {
            Some(Seq::empty())
        } else {
            None
        }
    } else if b.len() < 40 {
        None
    } else {
        match dec_records(b.subrange(40, b.len() as int), (n - 1) as nat) {
            Some(rest) => Some(seq![spec_record_from_binary(b.subrange(0, 40))] + rest),
            None => None,
        }
    }
}

/// Reads a node back from its wire form. Any block whose signature is
/// unknown, that is too short for its fields, or whose length does not match
/// its recorded counts exactly, is corrupt and yields nothing.
pub open spec fn dec_node(b: Seq<u8>) -> Option<NodeV>
    decreases b.len(),
{
    if b.len() < 4 {
        None
    } else if b.subrange(0, 4) == leaf_sig() {
        if b.len() < 12 {
            None
        } else {
            let n = spec_u64_from_le_bytes(b.subrange(4, 12));
            if b.len() != 12 + n * 40 {
                None
            } else {
                match dec_records(b.subrange(12, b.len() as int), n as nat) {
                    Some(records) => Some(NodeV::Leaf { records }),
                    None => None,
                }
            }
        }
    } else if b.subrange(0, 4) == intr_sig() {
        if b.len() < 56 {
            None
        } else {
            let radius = spec_u32_from_le_bytes(b.subrange(4, 8));
            let vantage = b.subrange(8, 40);
            let nl = spec_u64_from_le_bytes(b.subrange(40, 48));
            if b.len() < 56 + nl {
                None
            } else {
                let near_b = b.subrange(48, 48 + nl);
                let fl = spec_u64_from_le_bytes(b.subrange(48 + nl, 56 + nl));
                if b.len() != 56 + nl + fl {
                    None
                } else {
                    let far_b = b.subrange(56 + nl, 56 + nl + fl);
                    match (dec_node(near_b), dec_node(far_b)) {
                        (Some(near), Some(far)) => Some(
                            NodeV::Internal {
                                radius,
                                vantage,
                                near: Box::new(near),
                                far: Box::new(far),
                            },
                        ),
                        _ => None,
                    }
                }
            }
        }
    } else if b.subrange(0, 4) == file_sig() {
        match spec_path_from_binary(b.subrange(4, b.len() as int)) {
            Some(path) => Some(NodeV::File { path }),
            None => None,
        }
    } else {
        None
    }
}

/// Encoded records span 40 bytes each.
pub proof fn lemma_enc_records_len(s: Seq<(u64, Seq<u8>)>)
    requires
        forall|i: int| 0 <= i < s.len() ==> record_view_wf(#[trigger] s[i]),
    ensures
        enc_records(s).len() == 40 * s.len(),
    decreases s.len(),
{
    if s.len() > 0 {
        lemma_record_round_trip(s[0]);
        lemma_enc_records_len(s.drop_first());
    }
}

/// Appending one record to a sequence appends its wire form to the encoding.
pub proof fn lemma_enc_records_push(s: Seq<(u64, Seq<u8>)>, r: (u64, Seq<u8>))
    ensures
        enc_records(s.push(r)) == enc_records(s) + spec_record_to_binary(r),
    decreases s.len(),
{
    if s.len() == 0 {
        assert(s.push(r)[0] == r);
        assert(s.push(r).drop_first() =~= s);
        assert(enc_records(s) =~= Seq::<u8>::empty());
        assert(enc_records(s.push(r)) =~= enc_records(s) + spec_record_to_binary(r));
    } else {
        assert(s.push(r).drop_first() =~= s.drop_first().push(r));
        assert(s.push(r)[0] == s[0]);
        lemma_enc_records_push(s.drop_first(), r);
        assert(enc_records(s.push(r)) =~= enc_records(s) + spec_record_to_binary(r));
    }
}

/// Reading back the exact encoding of `s` yields `s` again.
pub proof fn lemma_dec_enc_records(s: Seq<(u64, Seq<u8>)>)
    requires
        forall|i: int| 0 <= i < s.len() ==> record_view_wf(#[trigger] s[i]),
    ensures
        dec_records(enc_records(s), s.len() as nat) == Some(s),
    decreases s.len(),
{
    if s.len() == 0 {
        assert(enc_records(s).len() == 0);
        assert(dec_records(enc_records(s), 0) =~= Some(Seq::<(u64, Seq<u8>)>::empty()));
        assert(s =~= Seq::<(u64, Seq<u8>)>::empty());
    } else {
        let b = enc_records(s);
        lemma_record_round_trip(s[0]);
        lemma_enc_records_len(s.drop_first());
        assert(b.subrange(0, 40) =~= spec_record_to_binary(s[0]));
        assert(b.subrange(40, b.len() as int) =~= enc_records(s.drop_first()));
        lemma_dec_enc_records(s.drop_first());
        assert(seq![spec_record_from_binary(b.subrange(0, 40))] + s.drop_first() =~= s);
    }
}

/// Reading back the exact encoding of a well-formed node yields the node
/// again: the codec loses nothing.
pub proof fn lemma_dec_enc_node(v: NodeV)
    requires
        enc_wf(v),
    ensures
        dec_node(enc_node(v)) == Some(v),
    decreases v,
{
    lemma_auto_spec_u32_to_from_le_bytes();
    lemma_auto_spec_u64_to_from_le_bytes();
    let b = enc_node(v);
    match v {
        NodeV::Leaf { records } => {
            lemma_enc_records_len(records);
            assert(b.subrange(0, 4) =~= leaf_sig());
            assert(b.subrange(4, 12) =~= spec_u64_to_le_bytes(records.len() as u64));
            assert(b.subrange(12, b.len() as int) =~= enc_records(records));
            lemma_dec_enc_records(records);
        },
        NodeV::Internal { radius, vantage, near, far } => {
            let nb = enc_node(*near);
            let fb = enc_node(*far);
            assert(b.subrange(0, 4) =~= intr_sig());
            assert(b.subrange(0, 4) != leaf_sig()) by {
                assert(b[0] == 105);
                assert(leaf_sig()[0] == 108);
            }
            assert(b.subrange(4, 8) =~= spec_u32_to_le_bytes(radius));
            assert(b.subrange(8, 40) =~= vantage);
            assert(b.subrange(40, 48) =~= spec_u64_to_le_bytes(nb.len() as u64));
            assert(b.subrange(48, 48 + nb.len() as int) =~= nb);
            assert(b.subrange(48 + nb.len() as int, 56 + nb.len() as int)
                =~= spec_u64_to_le_bytes(fb.len() as u64));
            assert(b.subrange(56 + nb.len() as int, 56 + nb.len() as int + fb.len() as int) =~= fb);
            assert(b.len() == 56 + nb.len() + fb.len());
            lemma_dec_enc_node(*near);
            lemma_dec_enc_node(*far);
        },
        NodeV::File { path } => {
            assert(b.subrange(0, 4) =~= file_sig());
            assert(b.subrange(0, 4) != leaf_sig()) by {
                assert(b[0] == 102);
                assert(leaf_sig()[0] == 108);
            }
            assert(b.subrange(0, 4) != intr_sig()) by {
                assert(b[0] == 102);
                assert(intr_sig()[0] == 105);
            }
            assert(b.subrange(4, b.len() as int) =~= spec_path_to_binary(path));
            lemma_path_round_trip(path);
        },
    }
}


/// Records laid out back to back decode one by one: a byte block of exactly
/// `n` 40-byte records always decodes, to the records read in order.
pub proof fn lemma_dec_records_total(b: Seq<u8>, n: nat)
    requires
        b.len() == 40 * n,
    ensures
        dec_records(b, n) is Some,
        dec_records(b, n)->Some_0.len() == n,
        forall|i: int|
            0 <= i < n ==> dec_records(b, n)->Some_0[i] == spec_record_from_binary(
                b.subrange(40 * i, 40 * i + 40),
            ),
    decreases n,
{
    if n > 0 {
        let tail = b.subrange(40, b.len() as int);
        lemma_dec_records_total(tail, (n - 1) as nat);
        let rs = dec_records(b, n)->Some_0;
        let rest = dec_records(tail, (n - 1) as nat)->Some_0;
        assert(rs =~= seq![spec_record_from_binary(b.subrange(0, 40))] + rest);
        assert forall|i: int| 0 <= i < n implies rs[i] == spec_record_from_binary(
            b.subrange(40 * i, 40 * i + 40),
        ) by {
            if i > 0 {
                assert(tail.subrange(40 * (i - 1), 40 * (i - 1) + 40) =~= b.subrange(
                    40 * i,
                    40 * i + 40,
                ));
            }
        }
    }
}

impl LeafNode {
    /// The shape of this leaf.
    pub open spec fn view_v(&self) -> NodeV {
        NodeV::Leaf { records: self.features@.map_values(|p: UUIDDescriptionPair| p@) }
    }

    pub fn new_empty() -> (r: Node)
        ensures
            r@ == (NodeV::Leaf { records: Seq::<(u64, Seq<u8>)>::empty() }),
    {
        let r = Node::Leaf(LeafNode { features: Vec::new() });
        proof {
            assert(r@->Leaf_records =~= Seq::<(u64, Seq<u8>)>::empty());
        }
        r
    }

    /// Takes the held records out, leaving the leaf empty.
    pub fn get_owned_features(&mut self) -> (r: Vec<UUIDDescriptionPair>)
        ensures
            r == old(self).features,
            final(self).features@.len() == 0,
    {
        let mut stolen: Vec<UUIDDescriptionPair> = Vec::new();
        core::mem::swap(&mut stolen, &mut self.features);
        stolen
    }

    /// Appends a record; a leaf always changes when appended to.
    pub fn add(&mut self, to_add: UUIDDescriptionPair) -> (changed: bool)
        ensures
            final(self).features@ == old(self).features@.push(to_add),
            changed,
    {
        self.features.push(to_add);
        true
    }

    pub fn size(&self) -> (r: u64)
        ensures
            r == self.features@.len(),
    {
        self.features.len() as u64
    }

    /// The leaf in wire order: signature, record count, then the records.
    pub fn to_binary(&self) -> (r: Vec<u8>)
        ensures
            r@ == enc_node(self.view_v()),
    {
        let ghost views = self.features@.map_values(|p: UUIDDescriptionPair| p@);
        let mut result: Vec<u8> = Vec::new();
        result.push(108);
        result.push(101);
        result.push(97);
        result.push(102);
        let mut count_bytes = vstd::bytes::u64_to_le_bytes(self.features.len() as u64);
        result.append(&mut count_bytes);
        let ghost header = result@;
        proof {
            assert(header =~= leaf_sig() + spec_u64_to_le_bytes(views.len() as u64));
            assert(views.subrange(0, 0) =~= Seq::<(u64, Seq<u8>)>::empty());
            assert(result@ =~= header + enc_records(views.subrange(0, 0)));
        }
        let mut i: usize = 0;
        while i < self.features.len()
            invariant
                0 <= i <= self.features@.len(),
                views == self.features@.map_values(|p: UUIDDescriptionPair| p@),
                result@ == header + enc_records(views.subrange(0, i as int)),
            decreases self.features@.len() - i,
        {
            let mut record_bytes = self.features[i].to_binary();
            result.append(&mut record_bytes);
            proof {
                assert(views.subrange(0, i + 1) =~= views.subrange(0, i as int).push(
                    views[i as int],
                ));
                lemma_enc_records_push(views.subrange(0, i as int), views[i as int]);
            }
            i = i + 1;
        }
        proof {
            assert(views.subrange(0, views.len() as int) =~= views);
        }
        result
    }

    /// Reads a leaf back from its wire form: the block length must equal the
    /// header plus exactly 40 bytes per recorded record.
    pub fn from_binary(binary: &[u8]) -> (r: Result<Node, TreeError>)
        requires
            binary@.len() >= 4,
            binary@.subrange(0, 4) == leaf_sig(),
        ensures
            match r {
                Ok(n) => dec_node(binary@) == Some(n@) && n is Leaf,
                Err(e) => dec_node(binary@) is None,
            },
    {
        broadcast use vstd::arithmetic::div_mod::lemma_fundamental_div_mod;

        if binary.len() < 12 {
            return Err(TreeError::Truncated);
        }
        let n = vstd::bytes::u64_from_le_bytes(vstd::slice::slice_subrange(binary, 4, 12));
        proof {
            assert(binary@.subrange(4, 12) =~= binary@.subrange(4, 12));
        }
        let body_len = binary.len() - 12;
        if body_len % 40 != 0 || (body_len / 40) as u64 != n {
            proof {
                assert(binary@.len() != 12 + n * 40) by {
                    if binary@.len() == 12 + n * 40 {
                        assert(body_len == 40 * (n as int));
                        assert(body_len % 40 == 0 && body_len / 40 == n as int);
                    }
                }
            }
            return Err(TreeError::LengthMismatch);
        }
        proof {
            assert(body_len == 40 * (n as int));
            assert(binary@.len() == 12 + n * 40);
        }
        let count = body_len / 40;
        let mut features: Vec<UUIDDescriptionPair> = Vec::new();
        let mut i: usize = 0;
        while i < count
            invariant
                0 <= i <= count,
                count == n,
                binary@.len() == 12 + 40 * count,
                binary@.len() <= usize::MAX,
                features@.len() == i,
                forall|j: int|
                    0 <= j < i ==> (#[trigger] features@[j])@ == spec_record_from_binary(
                        binary@.subrange(12 + 40 * j, 12 + 40 * j + 40),
                    ),
            decreases count - i,
        {
            let start = 12 + i * 40;
            let block = vstd::slice::slice_subrange(binary, start, start + 40);
            let record = match UUIDDescriptionPair::from_binary(block) {
                Ok(record) => record,
                Err(_) => vstd::pervasive::unreached(),
            };
            features.push(record);
            i = i + 1;
        }
        let ghost body = binary@.subrange(12, binary@.len() as int);
        proof {
            lemma_dec_records_total(body, n as nat);
            let rs = dec_records(body, n as nat)->Some_0;
            assert forall|j: int| 0 <= j < n implies rs[j] == (#[trigger] features@[j])@ by {
                assert(body.subrange(40 * j, 40 * j + 40) =~= binary@.subrange(
                    12 + 40 * j,
                    12 + 40 * j + 40,
                ));
            }
            assert(features@.map_values(|p: UUIDDescriptionPair| p@) =~= rs);
        }
        Ok(Node::Leaf(LeafNode { features }))
    }
}

impl FileNode {
    /// The shape of this shard reference.
    pub open spec fn view_v(&self) -> NodeV {
        NodeV::File { path: self.path_in_tree@ }
    }

    /// A shard reference for the subtree at the given position.
    pub fn new_at_location(path_in_tree: NodePath) -> (r: Node)
        ensures
            r@ == (NodeV::File { path: path_in_tree@ }),
    {
        Node::File(FileNode { path_in_tree })
    }

    /// The reference in wire order: signature, then the position.
    pub fn to_binary(&self) -> (r: Vec<u8>)
        ensures
            r@ == enc_node(self.view_v()),
    {
        let mut result: Vec<u8> = Vec::new();
        result.push(102);
        result.push(105);
        result.push(108);
        result.push(101);
        let mut path_bytes = self.path_in_tree.to_binary();
        result.append(&mut path_bytes);
        proof {
            assert(result@ =~= file_sig() + spec_path_to_binary(self.path_in_tree@));
        }
        result
    }

    /// Reads a shard reference back from its wire form.
    pub fn from_binary(binary: &[u8]) -> (r: Result<Node, TreeError>)
        requires
            binary@.len() >= 4,
            binary@.subrange(0, 4) == file_sig(),
        ensures
            match r {
                Ok(n) => dec_node(binary@) == Some(n@) && n is File,
                Err(e) => dec_node(binary@) is None,
            },
    {
        let body = vstd::slice::slice_subrange(binary, 4, binary.len());
        match NodePath::from_binary(body) {
            Ok(path_in_tree) => Ok(Node::File(FileNode { path_in_tree })),
            Err(e) => Err(e),
        }
    }
}

impl InternalNode {
    /// The shape of this internal node.
    pub open spec fn view_v(&self) -> NodeV {
        NodeV::Internal {
            radius: self.radius,
            vantage: self.vantage@,
            near: Box::new(spec_node_view(*self.near)),
            far: Box::new(spec_node_view(*self.far)),
        }
    }

    /// The node in wire order: signature, radius, vantage, then each child
    /// behind its encoded length.
    pub fn to_binary(&self) -> (r: Vec<u8>)
        ensures
            r@ == enc_node(self.view_v()),
        decreases *self,
    {
        let mut result: Vec<u8> = Vec::new();
        result.push(105);
        result.push(110);
        result.push(116);
        result.push(114);
        let mut radius_bytes = vstd::bytes::u32_to_le_bytes(self.radius);
        result.append(&mut radius_bytes);
        let mut vantage_bytes = self.vantage.to_binary();
        result.append(&mut vantage_bytes);

        let mut near_binary = (*self.near).to_binary();
        let mut near_len_bytes = vstd::bytes::u64_to_le_bytes(near_binary.len() as u64);
        result.append(&mut near_len_bytes);
        result.append(&mut near_binary);

        let mut far_binary = (*self.far).to_binary();
        let mut far_len_bytes = vstd::bytes::u64_to_le_bytes(far_binary.len() as u64);
        result.append(&mut far_len_bytes);
        result.append(&mut far_binary);

        proof {
            assert(result@ =~= enc_node(self.view_v()));
        }
        result
    }

    /// Reads an internal node back from its wire form: fixed fields, then the
    /// two children sliced by their recorded lengths, which must cover the
    /// block exactly.
    pub fn from_binary(binary: &[u8]) -> (r: Result<Node, TreeError>)
        requires
            binary@.len() >= 4,
            binary@.subrange(0, 4) == intr_sig(),
        ensures
            match r {
                Ok(n) => dec_node(binary@) == Some(n@) && n is Internal,
                Err(e) => dec_node(binary@) is None,
            },
        decreases binary@.len(), 0int,
    {
        if binary.len() < 56 {
            return Err(TreeError::Truncated);
        }
        let radius = vstd::bytes::u32_from_le_bytes(vstd::slice::slice_subrange(binary, 4, 8));
        let vantage = FeatureDescription::from_binary(vstd::slice::slice_subrange(binary, 8, 40));
        proof {
            assert(binary@.subrange(8, 40).subrange(0, 32) =~= binary@.subrange(8, 40));
        }
        let near_length = vstd::bytes::u64_from_le_bytes(
            vstd::slice::slice_subrange(binary, 40, 48),
        );
        if near_length > (binary.len() - 56) as u64 {
            return Err(TreeError::Truncated);
        }
        let near_end = 48 + (near_length as usize);
        let far_length = vstd::bytes::u64_from_le_bytes(
            vstd::slice::slice_subrange(binary, near_end, near_end + 8),
        );
        proof {
            assert(binary@.subrange(near_end as int, near_end + 8) =~= binary@.subrange(
                48 + near_length as int,
                56 + near_length as int,
            ));
        }
        if far_length != (binary.len() - 56 - (near_length as usize)) as u64 {
            return Err(TreeError::LengthMismatch);
        }
        let near_block = vstd::slice::slice_subrange(binary, 48, near_end);
        let near = match Node::from_binary(near_block) {
            Ok(near) => near,
            Err(e) => {
                return Err(e);
            },
        };
        let far_block = vstd::slice::slice_subrange(binary, near_end + 8, binary.len());
        proof {
            assert(binary@.subrange(near_end + 8, binary@.len() as int) =~= binary@.subrange(
                56 + near_length as int,
                56 + near_length as int + far_length as int,
            ));
        }
        let far = match Node::from_binary(far_block) {
            Ok(far) => far,
            Err(e) => {
                return Err(e);
            },
        };
        Ok(
            Node::Internal(
                InternalNode { vantage, radius, near: Box::new(near), far: Box::new(far) },
            ),
        )
    }
}

impl Node {
    /// The node in wire order, by its variant's encoding.
    pub fn to_binary(&self) -> (r: Vec<u8>)
        ensures
            r@ == enc_node(self@),
        decreases *self,
    {
        match self {
            Node::Internal(node) => node.to_binary(),
            Node::Leaf(node) => node.to_binary(),
            Node::File(node) => node.to_binary(),
        }
    }

    /// Reads a node back from its wire form, dispatching on the 4-byte
    /// signature; an unrecognized signature is corruption.
    pub fn from_binary(binary: &[u8]) -> (r: Result<Node, TreeError>)
        ensures
            match r {
                Ok(n) => dec_node(binary@) == Some(n@),
                Err(e) => dec_node(binary@) is None,
            },
        decreases binary@.len(), 1int,
    {
        if binary.len() < 4 {
            return Err(TreeError::Truncated);
        }
        let b0 = *vstd::slice::slice_index_get(binary, 0);
        let b1 = *vstd::slice::slice_index_get(binary, 1);
        let b2 = *vstd::slice::slice_index_get(binary, 2);
        let b3 = *vstd::slice::slice_index_get(binary, 3);
        let ghost tag = binary@.subrange(0, 4);
        proof {
            assert(tag[0] == b0 && tag[1] == b1 && tag[2] == b2 && tag[3] == b3);
        }
        if b0 == 108 && b1 == 101 && b2 == 97 && b3 == 102 {
            proof {
                assert(tag =~= leaf_sig());
            }
            LeafNode::from_binary(binary)
        } else if b0 == 105 && b1 == 110 && b2 == 116 && b3 == 114 {
            proof {
                assert(tag =~= intr_sig());
            }
            InternalNode::from_binary(binary)
        } else if b0 == 102 && b1 == 105 && b2 == 108 && b3 == 101 {
            proof {
                assert(tag =~= file_sig());
            }
            FileNode::from_binary(binary)
        } else {
            proof {
                assert(tag != leaf_sig());
                assert(tag != intr_sig());
                assert(tag != file_sig());
            }
            Err(TreeError::UnknownSignature)
        }
    }
}


/// The height of a subtree as held in memory: shard references are leaves of
/// the in-memory shape.
pub open spec fn node_height(n: Node) -> nat
    decreases n,
{
    match n {
        Node::Leaf(_) => 1,
        Node::File(_) => 1,
        Node::Internal(i) => 1 + if node_height(*i.near) > node_height(*i.far) {
            node_height(*i.near)
        } else {
            node_height(*i.far)
        },
    }
}

/// A copy of a record vector.
pub(crate) fn copy_features(v: &Vec<UUIDDescriptionPair>) -> (r: Vec<UUIDDescriptionPair>)
    ensures
        r@ == v@,
{
    let mut result: Vec<UUIDDescriptionPair> = Vec::new();
    let mut i: usize = 0;
    while i < v.len()
        invariant
            0 <= i <= v@.len(),
            result@ == v@.subrange(0, i as int),
        decreases v@.len() - i,
    {
        result.push(v[i]);
        proof {
            assert(result@ =~= v@.subrange(0, i + 1));
        }
        i = i + 1;
    }
    proof {
        assert(result@ =~= v@);
    }
    result
}

/// The values of a distance vector, ascending.
fn sorted_distances(v: &Vec<u32>) -> (r: Vec<u32>)
    ensures
        r@.len() == v@.len(),
        r@.to_multiset() == v@.to_multiset(),
        forall|i: int, j: int| 0 <= i <= j < r@.len() ==> r@[i] <= r@[j],
{
    proof {
        broadcast use vstd::seq_lib::group_to_multiset_ensures;
        broadcast use vstd::multiset::group_multiset_axioms;
    }
    let mut remaining = copy_distances(v);
    let mut result: Vec<u32> = Vec::new();
    proof {
        assert(result@.to_multiset().add(remaining@.to_multiset()) =~= v@.to_multiset());
    }
    while remaining.len() > 0
        invariant
            result@.len() + remaining@.len() == v@.len(),
            result@.to_multiset().add(remaining@.to_multiset()) =~= v@.to_multiset(),
            forall|i: int, j: int| 0 <= i <= j < result@.len() ==> result@[i] <= result@[j],
            forall|i: int, j: int|
                0 <= i < result@.len() && 0 <= j < remaining@.len() ==> result@[i] <= remaining@[j],
        decreases remaining@.len(),
    {
        let mut min_index: usize = 0;
        let mut min_value: u32 = remaining[0];
        let mut i: usize = 1;
        while i < remaining.len()
            invariant
                1 <= i <= remaining@.len(),
                min_index < remaining@.len(),
                remaining@[min_index as int] == min_value,
                forall|j: int| 0 <= j < i ==> min_value <= #[trigger] remaining@[j],
            decreases remaining@.len() - i,
        {
            if remaining[i] < min_value {
                min_index = i;
                min_value = remaining[i];
            }
            i = i + 1;
        }
        let ghost before = remaining@;
        let ghost before_result = result@;
        remaining.remove(min_index);
        result.push(min_value);
        proof {
            broadcast use vstd::seq_lib::group_to_multiset_ensures;
            broadcast use vstd::multiset::group_multiset_axioms;

            assert(before.remove(min_index as int).to_multiset() =~= before.to_multiset().remove(
                before[min_index as int],
            ));
            assert(before_result.push(min_value).to_multiset() =~= before_result.to_multiset().insert(
                min_value,
            ));
            assert(result@ == before_result.push(min_value));
            assert(before.to_multiset().count(min_value) > 0);
            assert forall|u: u32| #[trigger]
                result@.to_multiset().add(remaining@.to_multiset()).count(u)
                    == v@.to_multiset().count(u) by {
                assert(before_result.to_multiset().add(before.to_multiset()).count(u)
                    == v@.to_multiset().count(u));
                assert(result@.to_multiset().count(u) == before_result.to_multiset().insert(
                    min_value,
                ).count(u));
                assert(remaining@.to_multiset().count(u) == before.to_multiset().remove(
                    before[min_index as int],
                ).count(u));
            }
            assert forall|j: int| 0 <= j < remaining@.len() implies min_value
                <= #[trigger] remaining@[j] by {
                if j < min_index as int {
                    assert(remaining@[j] == before[j]);
                } else {
                    assert(remaining@[j] == before[j + 1]);
                }
            }
        }
    }
    result
}

fn copy_distances(v: &Vec<u32>) -> (r: Vec<u32>)
    ensures
        r@ == v@,
{
    let mut result: Vec<u32> = Vec::new();
    let mut i: usize = 0;
    while i < v.len()
        invariant
            0 <= i <= v@.len(),
            result@ == v@.subrange(0, i as int),
        decreases v@.len() - i,
    {
        result.push(v[i]);
        proof {
            assert(result@ =~= v@.subrange(0, i + 1));
        }
        i = i + 1;
    }
    proof {
        assert(result@ =~= v@);
    }
    result
}

/// The empty record sequence holds the empty multiset.
pub proof fn lemma_empty_seq_multiset()
    ensures
        Seq::<(u64, Seq<u8>)>::empty().to_multiset() == Multiset::<(u64, Seq<u8>)>::empty(),
{
    broadcast use vstd::seq_lib::group_to_multiset_ensures;
    broadcast use vstd::multiset::group_multiset_axioms;

    vstd::multiset::lemma_multiset_empty_len(Seq::<(u64, Seq<u8>)>::empty().to_multiset());
}

impl InternalNode {
    /// An internal node over two empty leaves, around a random edge vantage
    /// and the expected distance of a random descriptor to it.
    pub fn new_empty(rng: &mut rand_chacha::ChaCha8Rng) -> (r: Node)
        ensures
            r is Internal,
            inline_records(r@) == Multiset::<(u64, Seq<u8>)>::empty(),
            r@->Internal_radius == crate::constants::AVERAGE_EDGE_FEATURE_DISTANCE,
            r@->Internal_vantage.len() == crate::constants::FEATURE_DESCRIPTION_LENGTH,
            forall|i: int|
                0 <= i < r@->Internal_vantage.len() ==> #[trigger] r@->Internal_vantage[i] == 0
                    || r@->Internal_vantage[i] == 255,
            *r@->Internal_near == (NodeV::Leaf { records: Seq::<(u64, Seq<u8>)>::empty() }),
            *r@->Internal_far == (NodeV::Leaf { records: Seq::<(u64, Seq<u8>)>::empty() }),
    {
        let near_child = LeafNode::new_empty();
        let far_child = LeafNode::new_empty();
        let ghost ncv = near_child@;
        let ghost fcv = far_child@;
        let vantage = FeatureDescription::random_edge_from(rng);
        let r = Node::Internal(
            InternalNode {
                vantage,
                radius: crate::constants::AVERAGE_EDGE_FEATURE_DISTANCE,
                near: Box::new(near_child),
                far: Box::new(far_child),
            },
        );
        proof {
            broadcast use vstd::seq_lib::group_to_multiset_ensures;
            broadcast use vstd::multiset::group_multiset_axioms;

            lemma_empty_seq_multiset();
            assert(inline_records(r@) == inline_records(ncv).add(inline_records(fcv)));
            assert(inline_records(r@) =~= Multiset::<(u64, Seq<u8>)>::empty());
        }
        r
    }

    /// Splits a full leaf around a fresh edge vantage: the radius is the
    /// median of the records' distances to the vantage, records strictly
    /// inside go to a near leaf, the rest (ties included) to a far leaf. The
    /// two children together hold exactly the records the leaf held.
    pub fn new_from_leaf(node: &mut LeafNode, rng: &mut rand_chacha::ChaCha8Rng) -> (r: Node)
        requires
            old(node).features@.len() >= 1,
        ensures
            final(node).features@.len() == 0,
            r@ is Internal,
            (*r@->Internal_near) is Leaf,
            (*r@->Internal_far) is Leaf,
            r@->Internal_vantage.len() == crate::constants::FEATURE_DESCRIPTION_LENGTH,
            (*r@->Internal_near)->Leaf_records.len() + (*r@->Internal_far)->Leaf_records.len()
                == old(node).features@.len(),
            forall|i: int|
                0 <= i < (*r@->Internal_near)->Leaf_records.len() ==> record_view_wf(
                    #[trigger] (*r@->Internal_near)->Leaf_records[i],
                ) && spec_distance((*r@->Internal_near)->Leaf_records[i].1, r@->Internal_vantage)
                    < r@->Internal_radius,
            forall|i: int|
                0 <= i < (*r@->Internal_far)->Leaf_records.len() ==> record_view_wf(
                    #[trigger] (*r@->Internal_far)->Leaf_records[i],
                ) && spec_distance((*r@->Internal_far)->Leaf_records[i].1, r@->Internal_vantage)
                    >= r@->Internal_radius,
            inline_records(r@) == old(node).features@.map_values(
                |p: UUIDDescriptionPair| p@,
            ).to_multiset(),
            forall|i: int|
                0 <= i < r@->Internal_vantage.len() ==> #[trigger] r@->Internal_vantage[i] == 0
                    || r@->Internal_vantage[i] == 255,
            exists|ds: Seq<u32>|
                #![trigger ds.to_multiset()]
                {
                    &&& ds.len() == old(node).features@.len()
                    &&& (forall|i: int, j: int| 0 <= i <= j < ds.len() ==> ds[i] <= ds[j])
                    &&& ds.to_multiset() == old(node).features@.map_values(
                        |p: UUIDDescriptionPair| spec_distance(p@.1, r@->Internal_vantage) as u32,
                    ).to_multiset()
                    &&& r@->Internal_radius == ds[old(node).features@.len() as int / 2]
                },
    {
        proof {
            broadcast use vstd::seq_lib::group_to_multiset_ensures;
            broadcast use vstd::multiset::group_multiset_axioms;
        }
        let pairs = node.get_owned_features();
        let ghost views = pairs@.map_values(|p: UUIDDescriptionPair| p@);
        let vantage = FeatureDescription::random_edge_from(rng);

        let mut distances: Vec<u32> = Vec::new();
        let mut i: usize = 0;
        while i < pairs.len()
            invariant
                0 <= i <= pairs@.len(),
                views == pairs@.map_values(|p: UUIDDescriptionPair| p@),
                distances@.len() == i,
                forall|j: int|
                    0 <= j < i ==> #[trigger] distances@[j] == spec_distance(
                        views[j].1,
                        vantage@,
                    ),
            decreases pairs@.len() - i,
        {
            distances.push(pairs[i].get_description().distance(&vantage));
            i = i + 1;
        }
        let sorted = sorted_distances(&distances);
        let median = sorted[pairs.len() / 2];
        proof {
            assert(distances@ =~= views.map_values(
                |o: (u64, Seq<u8>)| spec_distance(o.1, vantage@) as u32,
            ));
        }

        let mut near: Vec<UUIDDescriptionPair> = Vec::new();
        let mut far: Vec<UUIDDescriptionPair> = Vec::new();
        proof {
            lemma_empty_seq_multiset();
            assert(near@.map_values(|p: UUIDDescriptionPair| p@) =~= Seq::<(u64, Seq<u8>)>::empty());
            assert(far@.map_values(|p: UUIDDescriptionPair| p@) =~= Seq::<(u64, Seq<u8>)>::empty());
            assert(views.subrange(0, 0) =~= Seq::<(u64, Seq<u8>)>::empty());
            broadcast use vstd::multiset::group_multiset_axioms;

        }
        let mut j: usize = 0;
        while j < pairs.len()
            invariant
                0 <= j <= pairs@.len(),
                views == pairs@.map_values(|p: UUIDDescriptionPair| p@),
                forall|a: int|
                    0 <= a < near@.len() ==> spec_distance((#[trigger] near@[a])@.1, vantage@)
                        < median,
                forall|a: int|
                    0 <= a < far@.len() ==> spec_distance((#[trigger] far@[a])@.1, vantage@)
                        >= median,
                near@.len() + far@.len() == j,
                near@.map_values(|p: UUIDDescriptionPair| p@).to_multiset().add(
                    far@.map_values(|p: UUIDDescriptionPair| p@).to_multiset(),
                ) =~= views.subrange(0, j as int).to_multiset(),
            decreases pairs@.len() - j,
        {
            let pair = pairs[j];
            let ghost near_before = near@;
            let ghost far_before = far@;
            let distance = pair.get_description().distance(&vantage);
            if distance < median {
                near.push(pair);
            } else {
                far.push(pair);
            }
            proof {
                broadcast use vstd::seq_lib::group_to_multiset_ensures;
                broadcast use vstd::multiset::group_multiset_axioms;

                assert(views.subrange(0, j + 1) =~= views.subrange(0, j as int).push(
                    views[j as int],
                ));
                assert(views[j as int] == pair@);
                if distance < median {
                    assert(near@.map_values(|p: UUIDDescriptionPair| p@) =~= near_before.map_values(
                        |p: UUIDDescriptionPair| p@,
                    ).push(pair@));
                } else {
                    assert(far@.map_values(|p: UUIDDescriptionPair| p@) =~= far_before.map_values(
                        |p: UUIDDescriptionPair| p@,
                    ).push(pair@));
                }
            }
            j = j + 1;
        }
        proof {
            assert(views.subrange(0, views.len() as int) =~= views);
        }
        let ghost nviews = near@.map_values(|p: UUIDDescriptionPair| p@);
        let ghost fviews = far@.map_values(|p: UUIDDescriptionPair| p@);
        let near_leaf = Node::Leaf(LeafNode { features: near });
        let far_leaf = Node::Leaf(LeafNode { features: far });
        proof {
            assert(near_leaf@ == (NodeV::Leaf { records: nviews }));
            assert(far_leaf@ == (NodeV::Leaf { records: fviews }));
        }
        let ghost nlv = near_leaf@;
        let ghost flv = far_leaf@;
        let r = Node::Internal(
            InternalNode {
                vantage,
                radius: median,
                near: Box::new(near_leaf),
                far: Box::new(far_leaf),
            },
        );
        proof {
            broadcast use vstd::seq_lib::group_to_multiset_ensures;
            broadcast use vstd::multiset::group_multiset_axioms;

            assert(r@ == (NodeV::Internal {
                radius: median,
                vantage: vantage@,
                near: Box::new(nlv),
                far: Box::new(flv),
            }));
            let nrecs = (*r@->Internal_near)->Leaf_records;
            let frecs = (*r@->Internal_far)->Leaf_records;
            assert(nrecs == nviews);
            assert(frecs == fviews);
            assert forall|i: int| 0 <= i < nrecs.len() implies record_view_wf(#[trigger] nrecs[i])
                && spec_distance(nrecs[i].1, r@->Internal_vantage) < r@->Internal_radius by {
                assert(nrecs[i] == near@[i]@);
            }
            assert forall|i: int| 0 <= i < frecs.len() implies record_view_wf(#[trigger] frecs[i])
                && spec_distance(frecs[i].1, r@->Internal_vantage) >= r@->Internal_radius by {
                assert(frecs[i] == far@[i]@);
            }
            assert(inline_records(r@) == inline_records(nlv).add(inline_records(flv)));
            assert(inline_records(nlv) == nviews.to_multiset());
            assert(inline_records(flv) == fviews.to_multiset());
            assert(views.subrange(0, views.len() as int).to_multiset() == views.to_multiset());
            assert(inline_records(r@) =~= views.to_multiset());
            // The radius is the upper median: the sorted distance vector
            // witnesses it.
            assert(r@->Internal_vantage == vantage@);
            assert(distances@ =~= pairs@.map_values(
                |p: UUIDDescriptionPair| spec_distance(p@.1, r@->Internal_vantage) as u32,
            ));
            assert(sorted@.to_multiset() == pairs@.map_values(
                |p: UUIDDescriptionPair| spec_distance(p@.1, r@->Internal_vantage) as u32,
            ).to_multiset());
            assert(pairs@.map_values(
                |p: UUIDDescriptionPair| spec_distance(p@.1, r@->Internal_vantage) as u32,
            ) =~= old(node).features@.map_values(
                |p: UUIDDescriptionPair| spec_distance(p@.1, r@->Internal_vantage) as u32,
            ));
            assert(sorted@.len() == old(node).features@.len());
            assert(r@->Internal_radius == sorted@[old(node).features@.len() as int / 2]);
        }
        r
    }
}


/// A well-formed subtree whose whole encoding fits its length fields can be
/// written faithfully: every nested count fits too, because each nested
/// encoding is a piece of the whole.
pub proof fn lemma_enc_wf_bounded(v: NodeV, max_leaf: int, pos: Seq<Direction>)
    requires
        node_wf(v, max_leaf, pos),
        enc_node(v).len() <= u64::MAX,
    ensures
        enc_wf(v),
    decreases v,
{
    lemma_auto_spec_u64_to_from_le_bytes();
    lemma_auto_spec_u32_to_from_le_bytes();
    match v {
        NodeV::Leaf { records } => {
            lemma_enc_records_len(records);
        },
        NodeV::Internal { near, far, .. } => {
            assert(enc_node(v).len() == 56 + enc_node(*near).len() + enc_node(*far).len());
            lemma_enc_wf_bounded(*near, max_leaf, pos.push(Direction::Near));
            lemma_enc_wf_bounded(*far, max_leaf, pos.push(Direction::Far));
        },
        NodeV::File { path } => {
            assert(enc_node(v).len() == 12 + path.len());
        },
    }
}


/// Every record a subtree holds inline, in one vector.
pub fn inline_records_vec(n: &Node) -> (r: Vec<UUIDDescriptionPair>)
    ensures
        r@.map_values(|p: UUIDDescriptionPair| p@).to_multiset() == inline_records(n@),
    decreases *n,
{
    proof {
        broadcast use vstd::seq_lib::group_to_multiset_ensures;
        broadcast use vstd::multiset::group_multiset_axioms;
    }
    match n {
        Node::Leaf(leaf) => copy_features(&leaf.features),
        Node::Internal(node) => {
            let mut near_records = inline_records_vec(&node.near);
            let mut far_records = inline_records_vec(&node.far);
            let ghost nv = near_records@.map_values(|p: UUIDDescriptionPair| p@);
            let ghost fv = far_records@.map_values(|p: UUIDDescriptionPair| p@);
            near_records.append(&mut far_records);
            proof {
                assert(near_records@.map_values(|p: UUIDDescriptionPair| p@) =~= nv + fv);
                vstd::seq_lib::lemma_multiset_commutative(nv, fv);
            }
            near_records
        },
        Node::File(_) => {
            let empty: Vec<UUIDDescriptionPair> = Vec::new();
            proof {
                assert(empty@.map_values(|p: UUIDDescriptionPair| p@) =~= Seq::<
                    (u64, Seq<u8>),
                >::empty());
                lemma_empty_seq_multiset();
            }
            empty
        },
    }
}

/// Whether every record of a vector lies on the stated side of a radius
/// around a vantage: strictly inside when `near` is set, at or beyond it
/// otherwise.
fn records_within(
    records: &Vec<UUIDDescriptionPair>,
    vantage: &FeatureDescription,
    radius: u32,
    near: bool,
) -> (r: bool)
    ensures
        r == forall|i: int|
            0 <= i < records@.len() ==> if near {
                spec_distance((#[trigger] records@[i])@.1, vantage@) < radius
            } else {
                spec_distance((#[trigger] records@[i])@.1, vantage@) >= radius
            },
{
    let mut i: usize = 0;
    while i < records.len()
        invariant
            0 <= i <= records@.len(),
            forall|j: int|
                0 <= j < i ==> if near {
                    spec_distance((#[trigger] records@[j])@.1, vantage@) < radius
                } else {
                    spec_distance((#[trigger] records@[j])@.1, vantage@) >= radius
                },
        decreases records@.len() - i,
    {
        let distance = records[i].get_description().distance(vantage);
        if near && distance >= radius {
            return false;
        }
        if !near && distance < radius {
            return false;
        }
        i = i + 1;
    }
    true
}

impl Node {
    /// Decides structural well-formedness of a subtree at a position: what a
    /// shell must check of foreign bytes before verified operations may
    /// traverse them.
    pub fn check_well_formed(&self, max_leaf: u64, pos: &NodePath) -> (r: bool)
        ensures
            r == node_wf(self@, max_leaf as int, pos@),
        decreases *self,
    {
        proof {
            broadcast use vstd::seq_lib::group_to_multiset_ensures;
            broadcast use vstd::multiset::group_multiset_axioms;
        }
        match self {
            Node::Leaf(leaf) => {
                proof {
                    let records = self@->Leaf_records;
                    assert forall|i: int| 0 <= i < records.len() implies record_view_wf(
                        #[trigger] records[i],
                    ) by {
                        assert(records[i] == leaf.features@[i]@);
                    }
                }
                leaf.features.len() as u64 <= max_leaf
            },
            Node::Internal(node) => {
                let mut near_pos = pos.duplicate();
                near_pos.push_direction(Direction::Near);
                let mut far_pos = pos.duplicate();
                far_pos.push_direction(Direction::Far);
                let near_records = inline_records_vec(&node.near);
                let far_records = inline_records_vec(&node.far);
                let ghost nviews = near_records@.map_values(|p: UUIDDescriptionPair| p@);
                let ghost fviews = far_records@.map_values(|p: UUIDDescriptionPair| p@);
                let ok = node.near.check_well_formed(max_leaf, &near_pos)
                    && node.far.check_well_formed(max_leaf, &far_pos) && records_within(
                    &near_records,
                    &node.vantage,
                    node.radius,
                    true,
                ) && records_within(&far_records, &node.vantage, node.radius, false);
                proof {
                    let nearv = *self@->Internal_near;
                    let farv = *self@->Internal_far;
                    if ok {
                        assert forall|o: (u64, Seq<u8>)|
                            inline_records(nearv).contains(o) implies spec_distance(
                            #[trigger] o.1,
                            node.vantage@,
                        ) < node.radius by {
                            assert(nviews.to_multiset().contains(o));
                            let i = choose|i: int| 0 <= i < nviews.len() && nviews[i] == o;
                            assert(near_records@[i]@ == o);
                        }
                        assert forall|o: (u64, Seq<u8>)|
                            inline_records(farv).contains(o) implies spec_distance(
                            #[trigger] o.1,
                            node.vantage@,
                        ) >= node.radius by {
                            assert(fviews.to_multiset().contains(o));
                            let i = choose|i: int| 0 <= i < fviews.len() && fviews[i] == o;
                            assert(far_records@[i]@ == o);
                        }
                        assert(node_wf(self@, max_leaf as int, pos@));
                    } else {
                        if node_wf(self@, max_leaf as int, pos@) {
                            assert forall|i: int| 0 <= i < nviews.len() implies spec_distance(
                                (#[trigger] near_records@[i])@.1,
                                node.vantage@,
                            ) < node.radius by {
                                assert(nviews.to_multiset().contains(nviews[i]));
                                assert(inline_records(nearv).contains(nviews[i]));
                            }
                            assert forall|i: int| 0 <= i < fviews.len() implies spec_distance(
                                (#[trigger] far_records@[i])@.1,
                                node.vantage@,
                            ) >= node.radius by {
                                assert(fviews.to_multiset().contains(fviews[i]));
                                assert(inline_records(farv).contains(fviews[i]));
                            }
                        }
                    }
                }
                ok
            },
            Node::File(node) => crate::shard_store::paths_equal(&node.path_in_tree, pos),
        }
    }
}

} // verus!
