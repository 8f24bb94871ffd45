//! Approximate structural node hashing.
//!
//! A fingerprint is an ephemeral 64-bit value recomputed on demand, derived
//! from a node's kind, a length-capped prefix of its tag name, its attribute
//! count, capped prefixes of its `id` and `class` attribute values, its text
//! length (with the full text for short payloads and capped head and tail
//! samples for long ones) and its child count. Child nodes are never hashed
//! recursively, so one fingerprint costs O(1) work. The fingerprint is not a
//! content-addressed identity: nodes that agree on every capped component
//! collide by design, and nodes that differ may still collide.

use crate::dom::{attr_first, DomNode, NodeType, NodeView};
use std::collections::hash_map::DefaultHasher;
use std::hash::Hasher;
use vstd::prelude::*;
use vstd::std_specs::hash::DefaultHasherAdditionalSpecFns;
use vstd::string::StringSliceAdditionalSpecFns;
use vstd::utf8::encode_utf8;

verus! {

/// A node fingerprint.
pub type NodeHash = u64;

/// Tag-name prefix length that enters a fingerprint, in bytes.
pub const TAG_SAMPLE_LEN: usize = 32;

/// `id`/`class` value prefix length that enters a fingerprint, in bytes.
pub const ATTR_SAMPLE_LEN: usize = 16;

/// Text payloads up to this many bytes enter a fingerprint whole.
pub const TEXT_INLINE_LEN: usize = 32;

/// Head and tail sample length for longer text payloads, in bytes.
pub const TEXT_SAMPLE_LEN: usize = 16;

/// One byte for each node kind.
pub open spec fn kind_byte(k: NodeType) -> u8 {
    match k {
        NodeType::Element => 0,
        NodeType::Text => 1,
        NodeType::Comment => 2,
        NodeType::CData => 3,
        NodeType::Document => 4,
    }
}

/// `x` in little-endian byte order.
pub open spec fn u64_le(x: u64) -> Seq<u8> {
    seq![
        (x & 0xff) as u8,
        ((x >> 8) & 0xff) as u8,
        ((x >> 16) & 0xff) as u8,
        ((x >> 24) & 0xff) as u8,
        ((x >> 32) & 0xff) as u8,
        ((x >> 40) & 0xff) as u8,
        ((x >> 48) & 0xff) as u8,
        ((x >> 56) & 0xff) as u8,
    ]
}

/// `s` capped at its first `n` bytes.
pub open spec fn capped(s: Seq<u8>, n: int) -> Seq<u8> {
    if s.len() <= n {
        s
    } else {
        s.subrange(0, n)
    }
}

/// Presence byte followed by a capped sample of an optional byte string.
pub open spec fn sample_writes(v: Option<Seq<char>>, n: int) -> Seq<Seq<u8>> {
    match v {
        Some(s) => seq![seq![1u8], capped(encode_utf8(s), n)],
        None => seq![seq![0u8]],
    }
}

/// The byte strings, in order, that the fingerprint of `n` feeds to the
/// hasher.
pub open spec fn fingerprint_writes(n: NodeView) -> Seq<Seq<u8>> {
    seq![seq![kind_byte(n.node_type)]] + sample_writes(n.tag_name, TAG_SAMPLE_LEN as int) + seq![
        u64_le(n.attributes.len() as u64),
    ] + (if n.node_type == NodeType::Element {
        sample_writes(attr_first(n.attributes, "id"@), ATTR_SAMPLE_LEN as int) + sample_writes(
            attr_first(n.attributes, "class"@),
            ATTR_SAMPLE_LEN as int,
        )
    } else {
        Seq::<Seq<u8>>::empty()
    }) + (match n.text_content {
        Some(t) => {
            let b = encode_utf8(t);
            seq![seq![1u8], u64_le(b.len() as u64)] + (if b.len() <= TEXT_INLINE_LEN as int {
                seq![b]
            } else {
                seq![
                    b.subrange(0, TEXT_SAMPLE_LEN as int),
                    b.subrange(b.len() - TEXT_SAMPLE_LEN as int, b.len() as int),
                ]
            })
        },
        None => seq![seq![0u8]],
    }) + seq![u64_le(n.children.len() as u64)]
}

/// The fingerprint of a node, as a mathematical function of its view.
pub open spec fn spec_hash_node(n: NodeView) -> NodeHash {
    DefaultHasher::spec_finish(fingerprint_writes(n))
}

/// The byte strings that the structural key of `n` feeds to the hasher:
/// kind, capped tag prefix and child count only, so attribute and text edits
/// leave the key unchanged.
pub open spec fn structure_writes(n: NodeView) -> Seq<Seq<u8>> {
    seq![seq![kind_byte(n.node_type)]] + sample_writes(n.tag_name, TAG_SAMPLE_LEN as int) + seq![
        u64_le(n.children.len() as u64),
    ]
}

/// The structural key of a node, used by the tree-diff computer for node
/// correspondence.
pub open spec fn spec_structure_hash(n: NodeView) -> NodeHash {
    DefaultHasher::spec_finish(structure_writes(n))
}

fn low_byte(x: u64) -> (b: u8)
    ensures
        b == (x & 0xff) as u8,
{
    proof {
        assert(x & 0xff < 256) by (bit_vector);
    }
    (x & 0xff) as u8
}

/// Feeds the little-endian bytes of `x` to the hasher as one write.
fn write_u64(h: &mut DefaultHasher, x: u64)
    ensures
        final(h)@ == old(h)@.push(u64_le(x)),
{
    let mut buf: Vec<u8> = Vec::new();
    buf.push(low_byte(x));
    buf.push(low_byte(x >> 8));
    buf.push(low_byte(x >> 16));
    buf.push(low_byte(x >> 24));
    buf.push(low_byte(x >> 32));
    buf.push(low_byte(x >> 40));
    buf.push(low_byte(x >> 48));
    buf.push(low_byte(x >> 56));
    proof {
        assert(buf@ =~= u64_le(x));
    }
    h.write(buf.as_slice());
}

/// Feeds one byte to the hasher.
fn write_byte(h: &mut DefaultHasher, b: u8)
    ensures
        final(h)@ == old(h)@.push(seq![b]),
{
    let mut buf: Vec<u8> = Vec::new();
    buf.push(b);
    proof {
        assert(buf@ =~= seq![b]);
    }
    h.write(buf.as_slice());
}

/// Feeds at most the first `n` bytes of `b` to the hasher.
fn write_capped(h: &mut DefaultHasher, b: &[u8], n: usize)
    ensures
        final(h)@ == old(h)@.push(capped(b@, n as int)),
{
    if b.len() <= n {
        h.write(b);
    } else {
        h.write(&b[0..n]);
    }
}

/// Feeds a presence byte, then a capped sample of the string when present.
fn write_sample(h: &mut DefaultHasher, v: Option<&String>, n: usize)
    ensures
        final(h)@ == old(h)@ + sample_writes(
            match v {
                Some(s) => Some(s@),
                None => None,
            },
            n as int,
        ),
{
    match v {
        Some(s) => {
            write_byte(h, 1);
            write_capped(h, s.as_str().as_bytes(), n);
            proof {
                assert(final(h)@ =~= old(h)@ + sample_writes(Some(s@), n as int));
            }
        },
        None => {
            write_byte(h, 0);
            proof {
                assert(final(h)@ =~= old(h)@ + sample_writes(None, n as int));
            }
        },
    }
}

fn kind_code(k: NodeType) -> (b: u8)
    ensures
        b == kind_byte(k),
{
    match k {
        NodeType::Element => 0,
        NodeType::Text => 1,
        NodeType::Comment => 2,
        NodeType::CData => 3,
        NodeType::Document => 4,
    }
}

/// Computes the fingerprint of one node in O(1), bounded by the capped
/// sample lengths rather than the node's full content size.
#[verifier::rlimit(50)]
pub fn hash_node(node: &DomNode) -> (h: NodeHash)
    ensures
        h == spec_hash_node(node@),
{
    let ghost n = node@;
    let mut hasher = DefaultHasher::new();
    write_byte(&mut hasher, kind_code(node.node_type));
    let ghost p1 = seq![seq![kind_byte(n.node_type)]];
    proof {
        assert(hasher@ =~= p1);
    }
    write_sample(&mut hasher, node.tag_name.as_ref(), TAG_SAMPLE_LEN);
    let ghost p2 = p1 + sample_writes(n.tag_name, TAG_SAMPLE_LEN as int);
    write_u64(&mut hasher, node.attributes.len() as u64);
    let ghost p3 = p2 + seq![u64_le(n.attributes.len() as u64)];
    proof {
        assert(hasher@ =~= p3);
    }
    if node.is_element() {
        write_sample(&mut hasher, node.get_attr("id"), ATTR_SAMPLE_LEN);
        write_sample(&mut hasher, node.get_attr("class"), ATTR_SAMPLE_LEN);
    }
    let ghost p4 = p3 + (if n.node_type == NodeType::Element {
        sample_writes(attr_first(n.attributes, "id"@), ATTR_SAMPLE_LEN as int) + sample_writes(
            attr_first(n.attributes, "class"@),
            ATTR_SAMPLE_LEN as int,
        )
    } else {
        Seq::<Seq<u8>>::empty()
    });
    proof {
        assert(hasher@ =~= p4);
    }
    match &node.text_content {
        Some(t) => {
            write_byte(&mut hasher, 1);
            let b = t.as_str().as_bytes();
            write_u64(&mut hasher, b.len() as u64);
            if b.len() <= TEXT_INLINE_LEN {
                hasher.write(b);
            } else {
                hasher.write(&b[0..TEXT_SAMPLE_LEN]);
                hasher.write(&b[b.len() - TEXT_SAMPLE_LEN..b.len()]);
            }
        },
        None => {
            write_byte(&mut hasher, 0);
        },
    }
    let ghost p5 = p4 + (match n.text_content {
        Some(t) => {
            let tb = encode_utf8(t);
            seq![seq![1u8], u64_le(tb.len() as u64)] + (if tb.len() <= TEXT_INLINE_LEN as int {
                seq![tb]
            } else {
                seq![
                    tb.subrange(0, TEXT_SAMPLE_LEN as int),
                    tb.subrange(tb.len() - TEXT_SAMPLE_LEN as int, tb.len() as int),
                ]
            })
        },
        None => seq![seq![0u8]],
    });
    proof {
        assert(hasher@ =~= p5);
    }
    write_u64(&mut hasher, node.children.len() as u64);
    proof {
        assert(hasher@ =~= p5 + seq![u64_le(n.children.len() as u64)]);
        assert(hasher@ =~= fingerprint_writes(n));
    }
    hasher.finish()
}

/// Computes the structural key of one node: its kind, capped tag prefix and
/// child count. Content edits (attributes, text) leave it unchanged, so an
/// edited node still corresponds to itself between two snapshots.
pub fn hash_node_structure(node: &DomNode) -> (h: NodeHash)
    ensures
        h == spec_structure_hash(node@),
{
    let mut hasher = DefaultHasher::new();
    write_byte(&mut hasher, kind_code(node.node_type));
    write_sample(&mut hasher, node.tag_name.as_ref(), TAG_SAMPLE_LEN);
    write_u64(&mut hasher, node.children.len() as u64);
    proof {
        assert(hasher@ =~= structure_writes(node@));
    }
    hasher.finish()
}

/// The fingerprint folded with a caller-chosen seed, for consumers that need
/// their own bucket distribution. Not used by the diff computer.
pub fn hash_node_with_seed(node: &DomNode, seed: u64) -> (h: NodeHash)
    ensures
        h == spec_hash_node(node@).wrapping_add(seed).wrapping_mul(31),
{
    let hash = hash_node(node);
    hash.wrapping_add(seed).wrapping_mul(31)
}

/// Fingerprints for a whole slice of nodes.
pub fn hash_nodes(nodes: &[DomNode]) -> (hs: Vec<NodeHash>)
    ensures
        hs@ == nodes@.map_values(|n: DomNode| spec_hash_node(n@)),
{
    let mut out: Vec<NodeHash> = Vec::new();
    let n = nodes.len();
    let mut i: usize = 0;
    while i < n
        invariant
            n == nodes@.len(),
            i <= n,
            out@ == nodes@.take(i as int).map_values(|nd: DomNode| spec_hash_node(nd@)),
        decreases n - i,
    {
        out.push(hash_node(&nodes[i]));
        proof {
            assert(nodes@.take(i + 1).map_values(|nd: DomNode| spec_hash_node(nd@)) =~= nodes@.take(
                i as int,
            ).map_values(|nd: DomNode| spec_hash_node(nd@)).push(spec_hash_node(nodes@[i as int]@)));
        }
        i += 1;
    }
    proof {
        assert(nodes@.take(n as int) =~= nodes@);
    }
    out
}

/// True when the two nodes have equal fingerprints: equal nodes always
/// compare true, distinct nodes may compare true as well.
pub fn nodes_maybe_equal(a: &DomNode, b: &DomNode) -> (r: bool)
    ensures
        r == (spec_hash_node(a@) == spec_hash_node(b@)),
{
    hash_node(a) == hash_node(b)
}

/// The structural key depends only on a node's kind, tag name and child
/// count: two nodes that agree there share it, whatever their attributes,
/// text, keys or the identity of their children.
pub proof fn lemma_structure_hash_components(a: NodeView, b: NodeView)
    requires
        a.node_type == b.node_type,
        a.tag_name == b.tag_name,
        a.children.len() == b.children.len(),
    ensures
        spec_structure_hash(a) == spec_structure_hash(b),
{
    assert(structure_writes(a) == structure_writes(b));
}

/// Two nodes that agree on every capped fingerprint component hash
/// identically, even when their full contents differ. In particular, two
/// element nodes whose `id` attribute values share their first
/// `ATTR_SAMPLE_LEN` encoded bytes, and agree on the other components, are
/// defined to collide; this is the documented price of O(1) fingerprints.
pub proof fn lemma_fingerprint_capped_components(a: NodeView, b: NodeView)
    requires
        a.node_type == b.node_type,
        a.tag_name == b.tag_name,
        a.attributes.len() == b.attributes.len(),
        a.children.len() == b.children.len(),
        a.text_content == b.text_content,
        sample_writes(attr_first(a.attributes, "id"@), ATTR_SAMPLE_LEN as int) == sample_writes(
            attr_first(b.attributes, "id"@),
            ATTR_SAMPLE_LEN as int,
        ),
        sample_writes(attr_first(a.attributes, "class"@), ATTR_SAMPLE_LEN as int) == sample_writes(
            attr_first(b.attributes, "class"@),
            ATTR_SAMPLE_LEN as int,
        ),
    ensures
        spec_hash_node(a) == spec_hash_node(b),
{
    assert(fingerprint_writes(a) == fingerprint_writes(b));
}

} // verus!
