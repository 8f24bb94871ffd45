//! Mutation-to-operation translation.
//!
//! Replays an ordered list of low-level mutation notifications against a
//! reference tree snapshot, producing a normalized operation sequence in one
//! pass: input order is preserved and each record yields at most one
//! operation. The reference tree is only read; a record whose keys cannot be
//! resolved is skipped rather than treated as an error.

use crate::dom::{contains_id, DomTree, NodeId, TreeView};
use vstd::prelude::*;

verus! {

/// A normalized, directly applicable edit operation.
#[derive(Debug, Clone, PartialEq, Eq)]
pub enum DomOp {
    AppendChild { parent: NodeId, child: NodeId },
    RemoveChild { parent: NodeId, child: NodeId },
    ReplaceChild { parent: NodeId, old: NodeId, new: NodeId },
    SetAttribute { node: NodeId, name: String, value: String },
    RemoveAttribute { node: NodeId, name: String },
    SetTextContent { node: NodeId, text: String },
    InsertBefore { parent: NodeId, new: NodeId, reference: NodeId },
}

/// Mathematical view of an operation.
pub ghost enum DomOpView {
    AppendChild { parent: NodeId, child: NodeId },
    RemoveChild { parent: NodeId, child: NodeId },
    ReplaceChild { parent: NodeId, old: NodeId, new: NodeId },
    SetAttribute { node: NodeId, name: Seq<char>, value: Seq<char> },
    RemoveAttribute { node: NodeId, name: Seq<char> },
    SetTextContent { node: NodeId, text: Seq<char> },
    InsertBefore { parent: NodeId, new: NodeId, reference: NodeId },
}

impl View for DomOp {
    type V = DomOpView;

    open spec fn view(&self) -> DomOpView {
        match self {
            DomOp::AppendChild { parent, child } => DomOpView::AppendChild {
                parent: *parent,
                child: *child,
            },
            DomOp::RemoveChild { parent, child } => DomOpView::RemoveChild {
                parent: *parent,
                child: *child,
            },
            DomOp::ReplaceChild { parent, old, new } => DomOpView::ReplaceChild {
                parent: *parent,
                old: *old,
                new: *new,
            },
            DomOp::SetAttribute { node, name, value } => DomOpView::SetAttribute {
                node: *node,
                name: name@,
                value: value@,
            },
            DomOp::RemoveAttribute { node, name } => DomOpView::RemoveAttribute {
                node: *node,
                name: name@,
            },
            DomOp::SetTextContent { node, text } => DomOpView::SetTextContent {
                node: *node,
                text: text@,
            },
            DomOp::InsertBefore { parent, new, reference } => DomOpView::InsertBefore {
                parent: *parent,
                new: *new,
                reference: *reference,
            },
        }
    }
}

/// The node keys an operation mentions.
pub open spec fn spec_node_ids(o: DomOpView) -> Seq<NodeId> {
    match o {
        DomOpView::AppendChild { parent, child } => seq![parent, child],
        DomOpView::RemoveChild { parent, child } => seq![parent, child],
        DomOpView::ReplaceChild { parent, old, new } => seq![parent, old, new],
        DomOpView::SetAttribute { node, .. } => seq![node],
        DomOpView::RemoveAttribute { node, .. } => seq![node],
        DomOpView::SetTextContent { node, .. } => seq![node],
        DomOpView::InsertBefore { parent, new, reference } => seq![parent, new, reference],
    }
}

/// True for operations that change the child structure of some node.
pub open spec fn spec_is_structure_change(o: DomOpView) -> bool {
    match o {
        DomOpView::AppendChild { .. } => true,
        DomOpView::RemoveChild { .. } => true,
        DomOpView::ReplaceChild { .. } => true,
        DomOpView::InsertBefore { .. } => true,
        _ => false,
    }
}

impl DomOp {
    /// The node keys this operation mentions, in declaration order.
    pub fn node_ids(&self) -> (r: Vec<NodeId>)
        ensures
            r@ == spec_node_ids(self@),
    {
        let mut out: Vec<NodeId> = Vec::new();
        match self {
            DomOp::AppendChild { parent, child } => {
                out.push(*parent);
                out.push(*child);
            },
            DomOp::RemoveChild { parent, child } => {
                out.push(*parent);
                out.push(*child);
            },
            DomOp::ReplaceChild { parent, old, new } => {
                out.push(*parent);
                out.push(*old);
                out.push(*new);
            },
            DomOp::SetAttribute { node, .. } => {
                out.push(*node);
            },
            DomOp::RemoveAttribute { node, .. } => {
                out.push(*node);
            },
            DomOp::SetTextContent { node, .. } => {
                out.push(*node);
            },
            DomOp::InsertBefore { parent, new, reference } => {
                out.push(*parent);
                out.push(*new);
                out.push(*reference);
            },
        }
        proof {
            assert(out@ =~= spec_node_ids(self@));
        }
        out
    }

    /// True when applying this operation changes some node's child list.
    pub fn is_structure_change(&self) -> (r: bool)
        ensures
            r == spec_is_structure_change(self@),
    {
        matches!(
            self,
            DomOp::AppendChild { .. }
                | DomOp::RemoveChild { .. }
                | DomOp::ReplaceChild { .. }
                | DomOp::InsertBefore { .. }
        )
    }
}

/// The kind of an observed mutation.
#[derive(Debug, Clone, Copy, PartialEq, Eq, Structural)]
pub enum MutationType {
    /// A node was added to or removed from a child list.
    ChildList,
    /// An attribute changed.
    Attributes,
    /// A text payload changed.
    CharacterData,
    /// Informational marker for a subtree-wide notification.
    Subtree,
}

/// One externally observed low-level change.
#[derive(Debug, Clone)]
pub struct MutationRecord {
    pub type_: MutationType,
    pub target: NodeId,
    pub related_node: Option<NodeId>,
    pub attribute_name: Option<String>,
    pub old_value: Option<String>,
    pub new_value: Option<String>,
    pub previous_sibling: Option<NodeId>,
    pub next_sibling: Option<NodeId>,
}

/// Mathematical view of a mutation record.
pub ghost struct RecordView {
    pub type_: MutationType,
    pub target: NodeId,
    pub related_node: Option<NodeId>,
    pub attribute_name: Option<Seq<char>>,
    pub old_value: Option<Seq<char>>,
    pub new_value: Option<Seq<char>>,
    pub previous_sibling: Option<NodeId>,
    pub next_sibling: Option<NodeId>,
}

impl View for MutationRecord {
    type V = RecordView;

    open spec fn view(&self) -> RecordView {
        RecordView {
            type_: self.type_,
            target: self.target,
            related_node: self.related_node,
            attribute_name: match self.attribute_name {
                Some(ref s) => Some(s@),
                None => None,
            },
            old_value: match self.old_value {
                Some(ref s) => Some(s@),
                None => None,
            },
            new_value: match self.new_value {
                Some(ref s) => Some(s@),
                None => None,
            },
            previous_sibling: self.previous_sibling,
            next_sibling: self.next_sibling,
        }
    }
}

/// The operations one record translates to against reference tree `t`:
/// an empty or singleton sequence.
pub open spec fn spec_record_ops(t: TreeView, r: RecordView) -> Seq<DomOpView> {
    match r.type_ {
        MutationType::ChildList => match r.related_node {
            None => Seq::<DomOpView>::empty(),
            Some(rel) => if !t.nodes.dom().contains(r.target) {
                Seq::<DomOpView>::empty()
            } else if t.nodes[r.target].children.contains(rel) {
                match r.next_sibling {
                    Some(ns) => seq![
                        DomOpView::InsertBefore { parent: r.target, new: rel, reference: ns },
                    ],
                    None => seq![DomOpView::AppendChild { parent: r.target, child: rel }],
                }
            } else {
                seq![DomOpView::RemoveChild { parent: r.target, child: rel }]
            },
        },
        MutationType::Attributes => match r.attribute_name {
            None => Seq::<DomOpView>::empty(),
            Some(name) => match r.new_value {
                Some(v) => seq![DomOpView::SetAttribute { node: r.target, name, value: v }],
                None => seq![DomOpView::RemoveAttribute { node: r.target, name }],
            },
        },
        MutationType::CharacterData => match r.new_value {
            Some(v) => seq![DomOpView::SetTextContent { node: r.target, text: v }],
            None => Seq::<DomOpView>::empty(),
        },
        MutationType::Subtree => Seq::<DomOpView>::empty(),
    }
}

/// The operations a whole record list translates to, in input order.
pub open spec fn spec_ops(t: TreeView, rs: Seq<RecordView>) -> Seq<DomOpView>
    decreases rs.len(),
{
    if rs.len() == 0 {
        Seq::<DomOpView>::empty()
    } else {
        spec_record_ops(t, rs[0]) + spec_ops(t, rs.drop_first())
    }
}

proof fn lemma_spec_ops_push(t: TreeView, rs: Seq<RecordView>, r: RecordView)
    ensures
        spec_ops(t, rs.push(r)) == spec_ops(t, rs) + spec_record_ops(t, r),
    decreases rs.len(),
{
    if rs.len() == 0 {
        assert(rs.push(r)[0] == r);
        assert(rs.push(r).drop_first() =~= Seq::<RecordView>::empty());
        assert(spec_ops(t, rs.push(r)) == spec_record_ops(t, r) + spec_ops(
            t,
            rs.push(r).drop_first(),
        ));
        assert(spec_record_ops(t, r) + Seq::<DomOpView>::empty() =~= spec_record_ops(t, r));
        assert(spec_ops(t, rs) + spec_record_ops(t, r) =~= spec_record_ops(t, r));
    } else {
        assert(rs.push(r).drop_first() =~= rs.drop_first().push(r));
        lemma_spec_ops_push(t, rs.drop_first(), r);
        assert(spec_ops(t, rs.push(r)) =~= spec_ops(t, rs) + spec_record_ops(t, r));
    }
}

/// Sequence of operation views for a vector of operations.
pub open spec fn ops_view(s: Seq<DomOp>) -> Seq<DomOpView> {
    s.map_values(|o: DomOp| o@)
}

/// Sequence of record views for a slice of records.
pub open spec fn records_view(s: Seq<MutationRecord>) -> Seq<RecordView> {
    s.map_values(|r: MutationRecord| r@)
}

/// Translates observed mutations into operations against one reference tree
/// snapshot.
pub struct OpsGenerator<'a> {
    tree: &'a DomTree,
}

impl<'a> OpsGenerator<'a> {
    /// The reference snapshot.
    pub closed spec fn tree_view(self) -> TreeView {
        self.tree@
    }

    /// A translator over the given reference tree.
    pub fn new(tree: &'a DomTree) -> (g: Self)
        ensures
            g.tree_view() == tree@,
    {
        OpsGenerator { tree }
    }

    /// Translates `mutations` in order, emitting at most one operation per
    /// record; the result is exactly `spec_ops` of the record list.
    pub fn generate_ops_sequence(&self, mutations: &[MutationRecord]) -> (ops: Vec<DomOp>)
        ensures
            ops_view(ops@) == spec_ops(self.tree_view(), records_view(mutations@)),
    {
        let mut ops: Vec<DomOp> = Vec::new();
        let n = mutations.len();
        let mut i: usize = 0;
        proof {
            assert(records_view(mutations@.take(0)) =~= Seq::<RecordView>::empty());
        }
        while i < n
            invariant
                n == mutations@.len(),
                i <= n,
                ops_view(ops@) == spec_ops(self.tree_view(), records_view(mutations@.take(i as int))),
            decreases n - i,
        {
            self.process_mutation(&mutations[i], &mut ops);
            proof {
                assert(records_view(mutations@.take(i + 1)) =~= records_view(
                    mutations@.take(i as int),
                ).push(mutations@[i as int]@));
                lemma_spec_ops_push(
                    self.tree_view(),
                    records_view(mutations@.take(i as int)),
                    mutations@[i as int]@,
                );
            }
            i += 1;
        }
        proof {
            assert(mutations@.take(n as int) =~= mutations@);
        }
        ops
    }

    /// Appends the translation of one record to `ops`.
    fn process_mutation(&self, mutation: &MutationRecord, ops: &mut Vec<DomOp>)
        ensures
            ops_view(final(ops)@) == ops_view(old(ops)@) + spec_record_ops(
                self.tree_view(),
                mutation@,
            ),
    {
        match mutation.type_ {
            MutationType::ChildList => {
                self.process_child_list_mutation(mutation, ops);
            },
            MutationType::Attributes => {
                self.process_attribute_mutation(mutation, ops);
            },
            MutationType::CharacterData => {
                self.process_character_data_mutation(mutation, ops);
            },
            MutationType::Subtree => {
                proof {
                    assert(ops_view(ops@) =~= ops_view(old(ops)@) + spec_record_ops(
                        self.tree_view(),
                        mutation@,
                    ));
                }
            },
        }
    }

    /// A child-list record: a related node currently under the target is an
    /// addition (insert before its next sibling, else append); one that is
    /// absent is a removal. Records without a related node, or whose target
    /// is not stored, are skipped.
    fn process_child_list_mutation(&self, mutation: &MutationRecord, ops: &mut Vec<DomOp>)
        requires
            mutation@.type_ == MutationType::ChildList,
        ensures
            ops_view(final(ops)@) == ops_view(old(ops)@) + spec_record_ops(
                self.tree_view(),
                mutation@,
            ),
    {
        let ghost expected = ops_view(old(ops)@) + spec_record_ops(self.tree_view(), mutation@);
        let related = match mutation.related_node {
            Some(id) => id,
            None => {
                proof {
                    assert(ops_view(ops@) =~= expected);
                }
                return ;
            },
        };
        let target_node = match self.tree.get_node(mutation.target) {
            Some(node) => node,
            None => {
                proof {
                    assert(ops_view(ops@) =~= expected);
                }
                return ;
            },
        };
        let is_added = contains_id(&target_node.children, related);
        if is_added {
            if let Some(ref_id) = mutation.next_sibling {
                ops.push(
                    DomOp::InsertBefore { parent: mutation.target, new: related, reference: ref_id },
                );
            } else {
                ops.push(DomOp::AppendChild { parent: mutation.target, child: related });
            }
        } else {
            ops.push(DomOp::RemoveChild { parent: mutation.target, child: related });
        }
        proof {
            assert(ops_view(ops@) =~= expected);
        }
    }

    /// An attribute record: a present new value sets the attribute, an absent
    /// one removes it. Records without an attribute name are skipped.
    fn process_attribute_mutation(&self, mutation: &MutationRecord, ops: &mut Vec<DomOp>)
        requires
            mutation@.type_ == MutationType::Attributes,
        ensures
            ops_view(final(ops)@) == ops_view(old(ops)@) + spec_record_ops(
                self.tree_view(),
                mutation@,
            ),
    {
        let ghost expected = ops_view(old(ops)@) + spec_record_ops(self.tree_view(), mutation@);
        let attr_name = match &mutation.attribute_name {
            Some(name) => name.clone(),
            None => {
                proof {
                    assert(ops_view(ops@) =~= expected);
                }
                return ;
            },
        };
        if let Some(new_value) = &mutation.new_value {
            ops.push(
                DomOp::SetAttribute {
                    node: mutation.target,
                    name: attr_name,
                    value: new_value.clone(),
                },
            );
        } else {
            ops.push(DomOp::RemoveAttribute { node: mutation.target, name: attr_name });
        }
        proof {
            assert(ops_view(ops@) =~= expected);
        }
    }

    /// A character-data record: a present new value sets the text payload; a
    /// record without one emits nothing.
    fn process_character_data_mutation(&self, mutation: &MutationRecord, ops: &mut Vec<DomOp>)
        requires
            mutation@.type_ == MutationType::CharacterData,
        ensures
            ops_view(final(ops)@) == ops_view(old(ops)@) + spec_record_ops(
                self.tree_view(),
                mutation@,
            ),
    {
        let ghost expected = ops_view(old(ops)@) + spec_record_ops(self.tree_view(), mutation@);
        if let Some(new_value) = &mutation.new_value {
            ops.push(DomOp::SetTextContent { node: mutation.target, text: new_value.clone() });
        }
        proof {
            assert(ops_view(ops@) =~= expected);
        }
    }
}

/// A primitive bulk change, mapped to one operation with no tree lookup.
#[derive(Debug, Clone)]
pub enum BatchOp {
    AddAttr(String, String),
    RemoveAttr(String),
    SetText(String),
    Append(NodeId),
    Remove(NodeId),
}

/// Mathematical view of a bulk change.
pub ghost enum BatchOpView {
    AddAttr(Seq<char>, Seq<char>),
    RemoveAttr(Seq<char>),
    SetText(Seq<char>),
    Append(NodeId),
    Remove(NodeId),
}

impl View for BatchOp {
    type V = BatchOpView;

    open spec fn view(&self) -> BatchOpView {
        match self {
            BatchOp::AddAttr(n, v) => BatchOpView::AddAttr(n@, v@),
            BatchOp::RemoveAttr(n) => BatchOpView::RemoveAttr(n@),
            BatchOp::SetText(t) => BatchOpView::SetText(t@),
            BatchOp::Append(id) => BatchOpView::Append(*id),
            BatchOp::Remove(id) => BatchOpView::Remove(*id),
        }
    }
}

/// The one operation a bulk change maps to.
pub open spec fn spec_batch_op(target: NodeId, b: BatchOpView) -> DomOpView {
    match b {
        BatchOpView::AddAttr(name, value) => DomOpView::SetAttribute { node: target, name, value },
        BatchOpView::RemoveAttr(name) => DomOpView::RemoveAttribute { node: target, name },
        BatchOpView::SetText(text) => DomOpView::SetTextContent { node: target, text },
        BatchOpView::Append(child) => DomOpView::AppendChild { parent: target, child },
        BatchOpView::Remove(child) => DomOpView::RemoveChild { parent: target, child },
    }
}

impl<'a> OpsGenerator<'a> {
    /// Maps each (key, bulk change) pair directly to one operation, in input
    /// order, with no lookup against the reference tree.
    pub fn generate_batch_ops(&self, changes: &[(NodeId, BatchOp)]) -> (ops: Vec<DomOp>)
        ensures
            ops_view(ops@) == changes@.map_values(
                |c: (NodeId, BatchOp)| spec_batch_op(c.0, c.1@),
            ),
    {
        let mut ops: Vec<DomOp> = Vec::new();
        let n = changes.len();
        let mut i: usize = 0;
        while i < n
            invariant
                n == changes@.len(),
                i <= n,
                ops@.len() == i,
                forall|j: int|
                    0 <= j < i ==> (#[trigger] ops@[j])@ == spec_batch_op(
                        changes@[j].0,
                        changes@[j].1@,
                    ),
            decreases n - i,
        {
            let node_id = changes[i].0;
            let op = match &changes[i].1 {
                BatchOp::AddAttr(name, value) => DomOp::SetAttribute {
                    node: node_id,
                    name: name.clone(),
                    value: value.clone(),
                },
                BatchOp::RemoveAttr(name) => DomOp::RemoveAttribute {
                    node: node_id,
                    name: name.clone(),
                },
                BatchOp::SetText(text) => DomOp::SetTextContent {
                    node: node_id,
                    text: text.clone(),
                },
                BatchOp::Append(child) => DomOp::AppendChild { parent: node_id, child: *child },
                BatchOp::Remove(child) => DomOp::RemoveChild { parent: node_id, child: *child },
            };
            proof {
                assert(op@ == spec_batch_op(changes@[i as int].0, changes@[i as int].1@));
            }
            ops.push(op);
            i += 1;
        }
        proof {
            assert(ops_view(ops@) =~= changes@.map_values(
                |c: (NodeId, BatchOp)| spec_batch_op(c.0, c.1@),
            ));
        }
        ops
    }
}

} // verus!
