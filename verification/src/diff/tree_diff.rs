//! Whole-tree diff computation.
//!
//! Given two snapshots of a document tree, the diff computer produces the
//! change list in O(old + new) time: it indexes the new tree by structural
//! key, walks the old tree breadth-first with an explicit queue, matches each
//! visited node against the index, and classifies the differences as
//! inserts, deletes, moves and updates. Missing or dangling keys degrade to
//! "no match" and are skipped, never treated as a fatal condition.

use crate::diff::hash::{hash_node_structure, spec_structure_hash};
use crate::dom::{attr_first, find_first, DomNode, DomTree, NodeId, NodeView, TreeView};
use std::collections::HashMap;
use vstd::prelude::*;

verus! {

/// One detected content change on a matched node.
#[derive(Debug, Clone, PartialEq, Eq)]
pub enum NodeChange {
    /// An attribute was added, removed, or its value replaced.
    AttrChange { name: String, old_value: Option<String>, new_value: Option<String> },
    /// The text payload was replaced.
    TextChange { old_value: String, new_value: String },
}

/// Mathematical view of a content change.
pub ghost enum NodeChangeView {
    Attr { name: Seq<char>, old_value: Option<Seq<char>>, new_value: Option<Seq<char>> },
    Text { old_value: Seq<char>, new_value: Seq<char> },
}

impl View for NodeChange {
    type V = NodeChangeView;

    open spec fn view(&self) -> NodeChangeView {
        match self {
            NodeChange::AttrChange { name, old_value, new_value } => NodeChangeView::Attr {
                name: name@,
                old_value: match old_value {
                    Some(v) => Some(v@),
                    None => None,
                },
                new_value: match new_value {
                    Some(v) => Some(v@),
                    None => None,
                },
            },
            NodeChange::TextChange { old_value, new_value } => NodeChangeView::Text {
                old_value: old_value@,
                new_value: new_value@,
            },
        }
    }
}

/// One structural or content change between two snapshots.
#[derive(Debug, Clone, PartialEq, Eq)]
pub enum DiffChange {
    /// `node` exists only in the new tree, at `index` under `parent`.
    Insert { parent: NodeId, index: usize, node: NodeId },
    /// `node` (with its whole subtree) exists only in the old tree; it stood
    /// at `index` under `parent` (root nodes use their own key as parent).
    Delete { parent: NodeId, index: usize, node: NodeId },
    /// `node` occupies `index` under the parent in the new tree where the
    /// old tree had a different child.
    Move { from_parent: NodeId, to_parent: NodeId, index: usize, node: NodeId },
    /// `node` matched but its attributes or text differ.
    Update { node: NodeId, changes: Vec<NodeChange> },
}

/// Mathematical view of a change.
pub ghost enum DiffChangeView {
    Insert { parent: NodeId, index: int, node: NodeId },
    Delete { parent: NodeId, index: int, node: NodeId },
    Move { from_parent: NodeId, to_parent: NodeId, index: int, node: NodeId },
    Update { node: NodeId, changes: Seq<NodeChangeView> },
}

/// Sequence of views for a vector of content changes.
pub open spec fn nc_view(s: Seq<NodeChange>) -> Seq<NodeChangeView> {
    s.map_values(|c: NodeChange| c@)
}

impl View for DiffChange {
    type V = DiffChangeView;

    open spec fn view(&self) -> DiffChangeView {
        match self {
            DiffChange::Insert { parent, index, node } => DiffChangeView::Insert {
                parent: *parent,
                index: *index as int,
                node: *node,
            },
            DiffChange::Delete { parent, index, node } => DiffChangeView::Delete {
                parent: *parent,
                index: *index as int,
                node: *node,
            },
            DiffChange::Move { from_parent, to_parent, index, node } => DiffChangeView::Move {
                from_parent: *from_parent,
                to_parent: *to_parent,
                index: *index as int,
                node: *node,
            },
            DiffChange::Update { node, changes } => DiffChangeView::Update {
                node: *node,
                changes: nc_view(changes@),
            },
        }
    }
}

/// The accumulated diff: the ordered change list plus three derived
/// node-to-location indices, rebuilt fresh per computation.
#[derive(Debug)]
pub struct TreeDiff {
    /// All changes, in emission order.
    pub changes: Vec<DiffChange>,
    /// Inserted node to (parent, index).
    pub inserts: HashMap<NodeId, (NodeId, usize)>,
    /// Deleted node to (parent, index).
    pub deletes: HashMap<NodeId, (NodeId, usize)>,
    /// Moved node to (from parent, to parent, index).
    pub moves: HashMap<NodeId, (NodeId, NodeId, usize)>,
}

/// Mathematical view of a diff.
pub ghost struct TreeDiffView {
    pub changes: Seq<DiffChangeView>,
    pub inserts: Map<NodeId, (NodeId, usize)>,
    pub deletes: Map<NodeId, (NodeId, usize)>,
    pub moves: Map<NodeId, (NodeId, NodeId, usize)>,
}

impl View for TreeDiff {
    type V = TreeDiffView;

    open spec fn view(&self) -> TreeDiffView {
        TreeDiffView {
            changes: self.changes@.map_values(|c: DiffChange| c@),
            inserts: self.inserts@,
            deletes: self.deletes@,
            moves: self.moves@,
        }
    }
}

/// A diff with no changes recorded.
pub open spec fn empty_diff() -> TreeDiffView {
    TreeDiffView {
        changes: Seq::<DiffChangeView>::empty(),
        inserts: Map::<NodeId, (NodeId, usize)>::empty(),
        deletes: Map::<NodeId, (NodeId, usize)>::empty(),
        moves: Map::<NodeId, (NodeId, NodeId, usize)>::empty(),
    }
}

/// The diff after recording one more change: the change is appended to the
/// list and the index for its kind learns the node's location.
pub open spec fn spec_add_change(d: TreeDiffView, c: DiffChangeView) -> TreeDiffView {
    match c {
        DiffChangeView::Insert { parent, index, node } => TreeDiffView {
            changes: d.changes.push(c),
            inserts: d.inserts.insert(node, (parent, index as usize)),
            ..d
        },
        DiffChangeView::Delete { parent, index, node } => TreeDiffView {
            changes: d.changes.push(c),
            deletes: d.deletes.insert(node, (parent, index as usize)),
            ..d
        },
        DiffChangeView::Move { from_parent, to_parent, index, node } => TreeDiffView {
            changes: d.changes.push(c),
            moves: d.moves.insert(node, (from_parent, to_parent, index as usize)),
            ..d
        },
        DiffChangeView::Update { .. } => TreeDiffView { changes: d.changes.push(c), ..d },
    }
}

/// The diff after recording a whole sequence of changes, in order.
pub open spec fn apply_changes(d: TreeDiffView, cs: Seq<DiffChangeView>) -> TreeDiffView
    decreases cs.len(),
{
    if cs.len() == 0 {
        d
    } else {
        apply_changes(spec_add_change(d, cs[0]), cs.drop_first())
    }
}

pub proof fn lemma_apply_changes_push(d: TreeDiffView, cs: Seq<DiffChangeView>, c: DiffChangeView)
    ensures
        apply_changes(d, cs.push(c)) == spec_add_change(apply_changes(d, cs), c),
    decreases cs.len(),
{
    if cs.len() == 0 {
        assert(cs.push(c)[0] == c);
        assert(cs.push(c).drop_first() =~= Seq::<DiffChangeView>::empty());
        assert(apply_changes(d, cs.push(c)) == apply_changes(
            spec_add_change(d, c),
            cs.push(c).drop_first(),
        ));
        assert(apply_changes(spec_add_change(d, c), cs.push(c).drop_first()) == spec_add_change(
            d,
            c,
        ));
        assert(apply_changes(d, cs) == d);
    } else {
        assert(cs.push(c)[0] == cs[0]);
        assert(cs.push(c).drop_first() =~= cs.drop_first().push(c));
        lemma_apply_changes_push(spec_add_change(d, cs[0]), cs.drop_first(), c);
        assert(apply_changes(d, cs.push(c)) == apply_changes(
            spec_add_change(d, cs[0]),
            cs.drop_first().push(c),
        ));
        assert(apply_changes(d, cs) == apply_changes(spec_add_change(d, cs[0]), cs.drop_first()));
    }
}

pub proof fn lemma_apply_changes_concat(d: TreeDiffView, a: Seq<DiffChangeView>, b: Seq<DiffChangeView>)
    ensures
        apply_changes(d, a + b) == apply_changes(apply_changes(d, a), b),
    decreases a.len(),
{
    if a.len() == 0 {
        assert(a + b =~= b);
    } else {
        assert((a + b)[0] == a[0]);
        assert((a + b).drop_first() =~= a.drop_first() + b);
        lemma_apply_changes_concat(spec_add_change(d, a[0]), a.drop_first(), b);
    }
}

/// Recording changes only appends to the change list.
pub proof fn lemma_apply_changes_list(d: TreeDiffView, cs: Seq<DiffChangeView>)
    ensures
        apply_changes(d, cs).changes == d.changes + cs,
    decreases cs.len(),
{
    if cs.len() == 0 {
        assert(d.changes + cs =~= d.changes);
    } else {
        lemma_apply_changes_list(spec_add_change(d, cs[0]), cs.drop_first());
        assert(d.changes.push(cs[0]) + cs.drop_first() =~= d.changes + cs);
    }
}

impl TreeDiff {
    /// An empty diff.
    pub fn new() -> (d: TreeDiff)
        ensures
            d@ == empty_diff(),
    {
        let d = TreeDiff {
            changes: Vec::new(),
            inserts: HashMap::new(),
            deletes: HashMap::new(),
            moves: HashMap::new(),
        };
        proof {
            assert(d@.changes =~= empty_diff().changes);
            assert(d@ == empty_diff());
        }
        d
    }

    /// An empty diff with storage preallocated for about `capacity` changes.
    pub fn with_capacity(capacity: usize) -> (d: TreeDiff)
        ensures
            d@ == empty_diff(),
    {
        let d = TreeDiff {
            changes: Vec::with_capacity(capacity),
            inserts: HashMap::with_capacity(capacity / 2),
            deletes: HashMap::with_capacity(capacity / 2),
            moves: HashMap::with_capacity(capacity / 4),
        };
        proof {
            assert(d@.changes =~= empty_diff().changes);
            assert(d@ == empty_diff());
        }
        d
    }

    /// Appends `change` to the list and records its location in the index
    /// for its kind.
    pub fn add_change(&mut self, change: DiffChange)
        ensures
            final(self)@ == spec_add_change(old(self)@, change@),
    {
        match &change {
            DiffChange::Insert { parent, index, node } => {
                self.inserts.insert(*node, (*parent, *index));
            },
            DiffChange::Delete { parent, index, node } => {
                self.deletes.insert(*node, (*parent, *index));
            },
            DiffChange::Move { from_parent, to_parent, index, node } => {
                self.moves.insert(*node, (*from_parent, *to_parent, *index));
            },
            DiffChange::Update { .. } => {},
        }
        let ghost cv = change@;
        self.changes.push(change);
        proof {
            assert(self@.changes =~= old(self)@.changes.push(cv));
            assert(self@ == spec_add_change(old(self)@, cv));
        }
    }

    /// True when at least one change was recorded.
    pub fn has_changes(&self) -> (r: bool)
        ensures
            r == (self@.changes.len() != 0),
    {
        !self.changes.is_empty()
    }

    /// How many changes were recorded.
    pub fn change_count(&self) -> (n: usize)
        ensures
            n == self@.changes.len(),
    {
        self.changes.len()
    }

    /// Forgets every recorded change.
    pub fn clear(&mut self)
        ensures
            final(self)@ == empty_diff(),
    {
        self.changes.clear();
        self.inserts.clear();
        self.deletes.clear();
        self.moves.clear();
        proof {
            assert(self@.changes =~= empty_diff().changes);
            assert(self@ == empty_diff());
        }
    }
}

impl Default for TreeDiff {
    /// Same as `TreeDiff::new`.
    fn default() -> (d: TreeDiff)
        ensures
            d@ == empty_diff(),
    {
        TreeDiff::new()
    }
}

/// Attribute names in order of first occurrence, each once.
pub open spec fn attr_names(attrs: Seq<(Seq<char>, Seq<char>)>) -> Seq<Seq<char>>
    decreases attrs.len(),
{
    if attrs.len() == 0 {
        Seq::<Seq<char>>::empty()
    } else {
        let prefix = attr_names(attrs.drop_last());
        if prefix.contains(attrs.last().0) {
            prefix
        } else {
            prefix.push(attrs.last().0)
        }
    }
}

/// A name is listed exactly when some pair carries it.
pub proof fn lemma_attr_names_contains(attrs: Seq<(Seq<char>, Seq<char>)>, n: Seq<char>)
    ensures
        attr_names(attrs).contains(n) <==> exists|i: int|
            0 <= i < attrs.len() && (#[trigger] attrs[i]).0 == n,
    decreases attrs.len(),
{
    if attrs.len() > 0 {
        lemma_attr_names_contains(attrs.drop_last(), n);
        if attr_names(attrs).contains(n) {
            if attrs.last().0 == n {
                assert(attrs[attrs.len() - 1].0 == n);
            } else {
                assert(attr_names(attrs.drop_last()).contains(n));
                let i = choose|i: int|
                    0 <= i < attrs.drop_last().len() && (#[trigger] attrs.drop_last()[i]).0 == n;
                assert(attrs[i].0 == n);
            }
        }
        if exists|i: int| 0 <= i < attrs.len() && (#[trigger] attrs[i]).0 == n {
            let i = choose|i: int| 0 <= i < attrs.len() && (#[trigger] attrs[i]).0 == n;
            if i < attrs.len() - 1 {
                assert(attrs.drop_last()[i].0 == n);
                assert(attr_names(attrs.drop_last()).contains(n));
                if !attr_names(attrs.drop_last()).contains(attrs.last().0) {
                    let names = attr_names(attrs.drop_last());
                    let j = choose|j: int| 0 <= j < names.len() && names[j] == n;
                    assert(names.push(attrs.last().0)[j] == n);
                }
            } else {
                if !attr_names(attrs.drop_last()).contains(attrs.last().0) {
                    let names = attr_names(attrs.drop_last());
                    assert(names.push(attrs.last().0)[names.len() as int] == n);
                }
            }
        }
    }
}

/// When position `j` holds the first occurrence of name `n`, the first bound
/// value of `n` is the value at `j`.
pub proof fn lemma_attr_first_at(attrs: Seq<(Seq<char>, Seq<char>)>, j: int)
    requires
        0 <= j < attrs.len(),
        forall|q: int| 0 <= q < j ==> (#[trigger] attrs[q]).0 != attrs[j].0,
    ensures
        attr_first(attrs, attrs[j].0) == Some(attrs[j].1),
    decreases j,
{
    if j == 0 {
    } else {
        assert(attrs[0].0 != attrs[j].0);
        assert(attrs.drop_first()[j - 1] == attrs[j]);
        assert(forall|q: int|
            0 <= q < j - 1 ==> (#[trigger] attrs.drop_first()[q]) == attrs[q + 1]);
        lemma_attr_first_at(attrs.drop_first(), j - 1);
    }
}

/// One content change per added, removed or modified attribute name drawn
/// from `names`, comparing first bound values.
pub open spec fn changed_attr_part(
    olda: Seq<(Seq<char>, Seq<char>)>,
    newa: Seq<(Seq<char>, Seq<char>)>,
    names: Seq<Seq<char>>,
) -> Seq<NodeChangeView>
    decreases names.len(),
{
    if names.len() == 0 {
        Seq::<NodeChangeView>::empty()
    } else {
        changed_attr_part(olda, newa, names.drop_last()) + (if attr_first(olda, names.last())
            != attr_first(newa, names.last()) {
            seq![
                NodeChangeView::Attr {
                    name: names.last(),
                    old_value: attr_first(olda, names.last()),
                    new_value: attr_first(newa, names.last()),
                },
            ]
        } else {
            Seq::<NodeChangeView>::empty()
        })
    }
}

/// One content change per name from `names` that the new list lacks.
pub open spec fn removed_attr_part(
    olda: Seq<(Seq<char>, Seq<char>)>,
    newa: Seq<(Seq<char>, Seq<char>)>,
    names: Seq<Seq<char>>,
) -> Seq<NodeChangeView>
    decreases names.len(),
{
    if names.len() == 0 {
        Seq::<NodeChangeView>::empty()
    } else {
        removed_attr_part(olda, newa, names.drop_last()) + (if attr_first(newa, names.last())
            is None {
            seq![
                NodeChangeView::Attr {
                    name: names.last(),
                    old_value: attr_first(olda, names.last()),
                    new_value: None,
                },
            ]
        } else {
            Seq::<NodeChangeView>::empty()
        })
    }
}

/// The attribute changes between two attribute lists: one change per name of
/// the union of both name sets whose first bound values differ, new-side
/// names first.
pub open spec fn attr_changes(
    olda: Seq<(Seq<char>, Seq<char>)>,
    newa: Seq<(Seq<char>, Seq<char>)>,
) -> Seq<NodeChangeView> {
    changed_attr_part(olda, newa, attr_names(newa)) + removed_attr_part(
        olda,
        newa,
        attr_names(olda),
    )
}

/// An absent text payload compares as empty text.
pub open spec fn text_or_empty(t: Option<Seq<char>>) -> Seq<char> {
    match t {
        Some(s) => s,
        None => Seq::<char>::empty(),
    }
}

/// One text change when the payloads differ, treating an absent payload as
/// empty.
pub open spec fn text_changes(o: Option<Seq<char>>, n: Option<Seq<char>>) -> Seq<NodeChangeView> {
    if text_or_empty(o) == text_or_empty(n) {
        Seq::<NodeChangeView>::empty()
    } else {
        seq![
            NodeChangeView::Text { old_value: text_or_empty(o), new_value: text_or_empty(n) },
        ]
    }
}

/// All content changes between two matched nodes: attribute changes, then at
/// most one text change.
pub open spec fn node_changes(o: NodeView, n: NodeView) -> Seq<NodeChangeView> {
    attr_changes(o.attributes, n.attributes) + text_changes(o.text_content, n.text_content)
}

/// The update emitted for a matched pair: nothing when the nodes agree, else
/// exactly one update carrying all content changes, keyed by the new node's
/// own id field.
pub open spec fn update_changes(o: NodeView, n: NodeView) -> Seq<DiffChangeView> {
    if node_changes(o, n).len() == 0 {
        Seq::<DiffChangeView>::empty()
    } else {
        seq![DiffChangeView::Update { node: n.id, changes: node_changes(o, n) }]
    }
}

/// The moves for the first `k` positions: one per position where the child
/// lists differ, carrying the new occupant.
pub open spec fn move_changes_upto(
    oldc: Seq<NodeId>,
    newc: Seq<NodeId>,
    parent: NodeId,
    k: int,
) -> Seq<DiffChangeView>
    decreases k,
{
    if k <= 0 {
        Seq::<DiffChangeView>::empty()
    } else {
        move_changes_upto(oldc, newc, parent, k - 1) + (if oldc[k - 1] != newc[k - 1] {
            seq![
                DiffChangeView::Move {
                    from_parent: parent,
                    to_parent: parent,
                    index: k - 1,
                    node: newc[k - 1],
                },
            ]
        } else {
            Seq::<DiffChangeView>::empty()
        })
    }
}

/// The moves emitted for one parent: when the child counts agree, one move
/// per position where the child lists differ, carrying the new occupant.
pub open spec fn move_changes(oldc: Seq<NodeId>, newc: Seq<NodeId>, parent: NodeId) -> Seq<
    DiffChangeView,
> {
    if oldc.len() != newc.len() {
        Seq::<DiffChangeView>::empty()
    } else {
        move_changes_upto(oldc, newc, parent, oldc.len() as int)
    }
}

fn name_in_prefix(attrs: &Vec<(String, String)>, upto: usize, name: &str) -> (r: bool)
    requires
        upto <= attrs@.len(),
    ensures
        r == exists|q: int| 0 <= q < upto && (#[trigger] attrs@[q]).0@ == name@,
{
    let mut q: usize = 0;
    while q < upto
        invariant
            upto <= attrs@.len(),
            q <= upto,
            forall|p: int| 0 <= p < q ==> (#[trigger] attrs@[p]).0@ != name@,
        decreases upto - q,
    {
        if crate::text::str_eq(attrs[q].0.as_str(), name) {
            return true;
        }
        q += 1;
    }
    false
}

/// Detects the content changes between two matched nodes and, when any
/// exist, records exactly one update aggregating them, keyed by the new
/// node's id.
#[verifier::rlimit(100)]
fn compare_nodes(old_node: &DomNode, new_node: &DomNode, diff: &mut TreeDiff)
    ensures
        final(diff)@ == apply_changes(old(diff)@, update_changes(old_node@, new_node@)),
{
    let ghost olda = old_node@.attributes;
    let ghost newa = new_node@.attributes;
    let mut changes: Vec<NodeChange> = Vec::new();
    // added and modified attributes, by first occurrence of each new name
    let n1 = new_node.attributes.len();
    let mut j: usize = 0;
    proof {
        assert(newa.take(0) =~= Seq::<(Seq<char>, Seq<char>)>::empty());
        assert(nc_view(changes@) =~= changed_attr_part(olda, newa, attr_names(newa.take(0))));
    }
    while j < n1
        invariant
            n1 == new_node.attributes@.len(),
            olda == old_node@.attributes,
            newa == new_node@.attributes,
            j <= n1,
            nc_view(changes@) == changed_attr_part(olda, newa, attr_names(newa.take(j as int))),
        decreases n1 - j,
    {
        proof {
            assert(forall|q: int|
                0 <= q < newa.len() ==> #[trigger] newa[q] == (
                    new_node.attributes@[q].0@,
                    new_node.attributes@[q].1@,
                ));
            assert(newa.take(j + 1).drop_last() =~= newa.take(j as int));
            assert(newa.take(j + 1).last() == newa[j as int]);
        }
        let ghost names = attr_names(newa.take(j as int));
        let seen = name_in_prefix(&new_node.attributes, j, new_node.attributes[j].0.as_str());
        proof {
            lemma_attr_names_contains(newa.take(j as int), newa[j as int].0);
            assert(forall|q: int|
                0 <= q < j ==> (#[trigger] newa.take(j as int)[q]) == newa[q]);
            if seen {
                let q = choose|q: int|
                    0 <= q < j && (#[trigger] new_node.attributes@[q]).0@
                        == new_node.attributes@[j as int].0@;
                assert(newa.take(j as int)[q].0 == newa[j as int].0);
                assert(names.contains(newa[j as int].0));
            }
            if names.contains(newa[j as int].0) {
                let q = choose|q: int|
                    0 <= q < newa.take(j as int).len() && (#[trigger] newa.take(j as int)[q]).0
                        == newa[j as int].0;
                assert((new_node.attributes@[q]).0@ == new_node.attributes@[j as int].0@);
                assert(seen);
            }
        }
        if !seen {
            proof {
                assert(forall|q: int|
                    0 <= q < j ==> (#[trigger] newa[q]).0 != newa[j as int].0);
                lemma_attr_first_at(newa, j as int);
                assert(attr_names(newa.take(j + 1)) == names.push(newa[j as int].0));
            }
            let ov = old_node.get_attr(new_node.attributes[j].0.as_str());
            let is_same = match ov {
                Some(v) => crate::text::str_eq(v.as_str(), new_node.attributes[j].1.as_str()),
                None => false,
            };
            proof {
                let ghost nm = newa[j as int].0;
                assert(attr_first(newa, nm) == Some(newa[j as int].1));
                assert(is_same == (attr_first(olda, nm) == attr_first(newa, nm)));
                assert(names.push(nm).drop_last() =~= names);
                assert(names.push(nm).last() == nm);
            }
            if !is_same {
                let change = NodeChange::AttrChange {
                    name: new_node.attributes[j].0.clone(),
                    old_value: match ov {
                        Some(v) => Some(v.clone()),
                        None => None,
                    },
                    new_value: Some(new_node.attributes[j].1.clone()),
                };
                proof {
                    assert(change@ == (NodeChangeView::Attr {
                        name: newa[j as int].0,
                        old_value: attr_first(olda, newa[j as int].0),
                        new_value: attr_first(newa, newa[j as int].0),
                    }));
                }
                changes.push(change);
                proof {
                    assert(nc_view(changes@) =~= changed_attr_part(
                        olda,
                        newa,
                        attr_names(newa.take(j + 1)),
                    ));
                }
            } else {
                proof {
                    assert(nc_view(changes@) =~= changed_attr_part(
                        olda,
                        newa,
                        attr_names(newa.take(j + 1)),
                    ));
                }
            }
        } else {
            proof {
                assert(attr_names(newa.take(j + 1)) == names);
            }
        }
        j += 1;
    }
    proof {
        assert(newa.take(n1 as int) =~= newa);
    }
    // removed attributes, by first occurrence of each old name
    let ghost changed_full = changed_attr_part(olda, newa, attr_names(newa));
    let n2 = old_node.attributes.len();
    let mut k: usize = 0;
    proof {
        assert(olda.take(0) =~= Seq::<(Seq<char>, Seq<char>)>::empty());
        assert(nc_view(changes@) =~= changed_full + removed_attr_part(
            olda,
            newa,
            attr_names(olda.take(0)),
        ));
    }
    while k < n2
        invariant
            n2 == old_node.attributes@.len(),
            olda == old_node@.attributes,
            newa == new_node@.attributes,
            k <= n2,
            changed_full == changed_attr_part(olda, newa, attr_names(newa)),
            nc_view(changes@) == changed_full + removed_attr_part(
                olda,
                newa,
                attr_names(olda.take(k as int)),
            ),
        decreases n2 - k,
    {
        proof {
            assert(forall|q: int|
                0 <= q < olda.len() ==> #[trigger] olda[q] == (
                    old_node.attributes@[q].0@,
                    old_node.attributes@[q].1@,
                ));
            assert(olda.take(k + 1).drop_last() =~= olda.take(k as int));
            assert(olda.take(k + 1).last() == olda[k as int]);
        }
        let ghost names = attr_names(olda.take(k as int));
        let seen = name_in_prefix(&old_node.attributes, k, old_node.attributes[k].0.as_str());
        proof {
            lemma_attr_names_contains(olda.take(k as int), olda[k as int].0);
            assert(forall|q: int|
                0 <= q < k ==> (#[trigger] olda.take(k as int)[q]) == olda[q]);
            if seen {
                let q = choose|q: int|
                    0 <= q < k && (#[trigger] old_node.attributes@[q]).0@
                        == old_node.attributes@[k as int].0@;
                assert(olda.take(k as int)[q].0 == olda[k as int].0);
                assert(names.contains(olda[k as int].0));
            }
            if names.contains(olda[k as int].0) {
                let q = choose|q: int|
                    0 <= q < olda.take(k as int).len() && (#[trigger] olda.take(k as int)[q]).0
                        == olda[k as int].0;
                assert((old_node.attributes@[q]).0@ == old_node.attributes@[k as int].0@);
                assert(seen);
            }
        }
        if !seen {
            proof {
                assert(attr_names(olda.take(k + 1)) == names.push(olda[k as int].0));
                assert(forall|q: int|
                    0 <= q < k ==> (#[trigger] olda[q]).0 != olda[k as int].0);
                lemma_attr_first_at(olda, k as int);
            }
            let nv = new_node.get_attr(old_node.attributes[k].0.as_str());
            proof {
                let ghost nm = olda[k as int].0;
                assert((nv is None) == (attr_first(newa, nm) is None));
                assert(names.push(nm).drop_last() =~= names);
                assert(names.push(nm).last() == nm);
            }
            if nv.is_none() {
                let change = NodeChange::AttrChange {
                    name: old_node.attributes[k].0.clone(),
                    old_value: Some(old_node.attributes[k].1.clone()),
                    new_value: None,
                };
                proof {
                    assert(change@ == (NodeChangeView::Attr {
                        name: olda[k as int].0,
                        old_value: attr_first(olda, olda[k as int].0),
                        new_value: None,
                    }));
                }
                changes.push(change);
                proof {
                    let nm2 = olda[k as int].0;
                    assert(removed_attr_part(olda, newa, names.push(nm2))
                        == removed_attr_part(olda, newa, names) + seq![change@]);
                    assert(changed_full + (removed_attr_part(olda, newa, names) + seq![change@])
                        =~= (changed_full + removed_attr_part(olda, newa, names)).push(change@));
                    assert(nc_view(changes@) =~= (changed_full + removed_attr_part(
                        olda,
                        newa,
                        names,
                    )).push(change@));
                    assert(nc_view(changes@) == changed_full + removed_attr_part(
                        olda,
                        newa,
                        attr_names(olda.take(k + 1)),
                    ));
                }
            } else {
                proof {
                    let nm2 = olda[k as int].0;
                    assert(removed_attr_part(olda, newa, names.push(nm2))
                        == removed_attr_part(olda, newa, names) + Seq::<NodeChangeView>::empty());
                    assert(removed_attr_part(olda, newa, names) + Seq::<NodeChangeView>::empty()
                        =~= removed_attr_part(olda, newa, names));
                    assert(nc_view(changes@) =~= changed_full + removed_attr_part(
                        olda,
                        newa,
                        attr_names(olda.take(k + 1)),
                    ));
                }
            }
        } else {
            proof {
                assert(attr_names(olda.take(k + 1)) == names);
            }
        }
        k += 1;
    }
    proof {
        assert(olda.take(n2 as int) =~= olda);
        assert(nc_view(changes@) == attr_changes(olda, newa));
    }
    // text payload, treating an absent payload as empty text
    let text_differs = match (&old_node.text_content, &new_node.text_content) {
        (Some(a), Some(b)) => !crate::text::str_eq(a.as_str(), b.as_str()),
        (None, Some(b)) => {
            let e = b.as_str().is_empty();
            proof {
                if e {
                    assert(b@ =~= Seq::<char>::empty());
                }
            }
            !e
        },
        (Some(a), None) => {
            let e = a.as_str().is_empty();
            proof {
                if e {
                    assert(a@ =~= Seq::<char>::empty());
                }
            }
            !e
        },
        (None, None) => false,
    };
    proof {
        assert(text_differs == (text_or_empty(old_node@.text_content) != text_or_empty(
            new_node@.text_content,
        )));
    }
    if text_differs {
        let old_value = match &old_node.text_content {
            Some(s) => s.clone(),
            None => String::new(),
        };
        let new_value = match &new_node.text_content {
            Some(s) => s.clone(),
            None => String::new(),
        };
        let change = NodeChange::TextChange { old_value, new_value };
        proof {
            assert(change@ == (NodeChangeView::Text {
                old_value: text_or_empty(old_node@.text_content),
                new_value: text_or_empty(new_node@.text_content),
            }));
        }
        changes.push(change);
    }
    proof {
        assert(nc_view(changes@) =~= node_changes(old_node@, new_node@));
    }
    // one aggregated update when anything differs
    if changes.len() > 0 {
        let change = DiffChange::Update { node: new_node.id, changes };
        proof {
            assert(change@ == (DiffChangeView::Update {
                node: new_node@.id,
                changes: node_changes(old_node@, new_node@),
            }));
            assert(update_changes(old_node@, new_node@) == seq![change@]);
            assert(seq![change@][0] == change@);
            assert(seq![change@].drop_first() =~= Seq::<DiffChangeView>::empty());
            assert(apply_changes(old(diff)@, seq![change@]) == apply_changes(
                spec_add_change(old(diff)@, change@),
                seq![change@].drop_first(),
            ));
            assert(apply_changes(old(diff)@, seq![change@]) == spec_add_change(
                old(diff)@,
                change@,
            ));
        }
        diff.add_change(change);
    } else {
        proof {
            assert(node_changes(old_node@, new_node@).len() == 0);
            assert(update_changes(old_node@, new_node@) == Seq::<DiffChangeView>::empty());
            assert(apply_changes(old(diff)@, update_changes(old_node@, new_node@)) == old(diff)@);
        }
    }
}

/// Records one move per position where the old child list and the new
/// tree's child list for the same parent differ, when the child counts
/// agree; a parent missing from the index, or differing counts, record
/// nothing (those cases surface as inserts and deletes instead).
fn check_children_reorder(
    old_node: &DomNode,
    new_children_index: &HashMap<NodeId, Vec<NodeId>>,
    diff: &mut TreeDiff,
)
    ensures
        final(diff)@ == apply_changes(
            old(diff)@,
            if new_children_index@.contains_key(old_node@.id) {
                move_changes(
                    old_node@.children,
                    new_children_index@[old_node@.id]@,
                    old_node@.id,
                )
            } else {
                Seq::<DiffChangeView>::empty()
            },
        ),
{
    let new_children = match new_children_index.get(&old_node.id) {
        Some(children) => children,
        None => {
            return ;
        },
    };
    let ghost oldc = old_node@.children;
    let ghost newc = new_children@;
    let n = old_node.children.len();
    if n != new_children.len() {
        return ;
    }
    let ghost parent = old_node@.id;
    let mut i: usize = 0;
    while i < n
        invariant
            n == oldc.len(),
            n == newc.len(),
            oldc == old_node@.children,
            newc == new_children@,
            parent == old_node@.id,
            i <= n,
            diff@ == apply_changes(old(diff)@, move_changes_upto(oldc, newc, parent, i as int)),
        decreases n - i,
    {
        let ghost pre_moves = move_changes_upto(oldc, newc, parent, i as int);
        if old_node.children[i] != new_children[i] {
            let change = DiffChange::Move {
                from_parent: old_node.id,
                to_parent: old_node.id,
                index: i,
                node: new_children[i],
            };
            proof {
                assert(move_changes_upto(oldc, newc, parent, i + 1) == pre_moves + seq![change@]);
                assert(pre_moves + seq![change@] =~= pre_moves.push(change@));
                lemma_apply_changes_push(old(diff)@, pre_moves, change@);
            }
            diff.add_change(change);
        } else {
            proof {
                assert(move_changes_upto(oldc, newc, parent, i + 1) == pre_moves + Seq::<
                    DiffChangeView,
                >::empty());
                assert(pre_moves + Seq::<DiffChangeView>::empty() =~= pre_moves);
            }
        }
        i += 1;
    }
    proof {
        assert(move_changes(oldc, newc, parent) == move_changes_upto(oldc, newc, parent, n as int));
    }
}

/// The structural-key index over every stored node of a tree, in storage
/// order: on key collision the last stored node wins.
pub open spec fn spec_node_index(nodes: Map<NodeId, NodeView>, order: Seq<NodeId>) -> Map<
    u64,
    NodeId,
>
    decreases order.len(),
{
    if order.len() == 0 {
        Map::<u64, NodeId>::empty()
    } else {
        spec_node_index(nodes, order.drop_last()).insert(
            spec_structure_hash(nodes[order.last()]),
            order.last(),
        )
    }
}

/// Every index entry names a listed node with that structural key.
pub proof fn lemma_node_index_entry(nodes: Map<NodeId, NodeView>, order: Seq<NodeId>, h: u64)
    requires
        spec_node_index(nodes, order).contains_key(h),
    ensures
        exists|k: NodeId|
            order.contains(k) && spec_structure_hash(#[trigger] nodes[k]) == h && spec_node_index(
                nodes,
                order,
            )[h] == k,
    decreases order.len(),
{
    let idx = spec_node_index(nodes, order);
    let last = order.last();
    if spec_structure_hash(nodes[last]) == h {
        assert(order[order.len() - 1] == last);
        assert(order.contains(last) && spec_structure_hash(nodes[last]) == h && idx[h] == last);
    } else {
        lemma_node_index_entry(nodes, order.drop_last(), h);
        let k = choose|k: NodeId|
            order.drop_last().contains(k) && spec_structure_hash(#[trigger] nodes[k]) == h
                && spec_node_index(nodes, order.drop_last())[h] == k;
        let j = choose|j: int|
            0 <= j < order.drop_last().len() && order.drop_last()[j] == k;
        assert(order[j] == k);
        assert(order.contains(k));
    }
}

/// Every listed node's structural key is in the index.
pub proof fn lemma_node_index_covers(nodes: Map<NodeId, NodeView>, order: Seq<NodeId>, k: NodeId)
    requires
        order.contains(k),
    ensures
        spec_node_index(nodes, order).contains_key(spec_structure_hash(nodes[k])),
    decreases order.len(),
{
    if order.last() == k {
    } else {
        let j = choose|j: int| 0 <= j < order.len() && order[j] == k;
        assert(order.drop_last()[j] == k);
        assert(order.drop_last().contains(k));
        lemma_node_index_covers(nodes, order.drop_last(), k);
    }
}

/// Builds the structural-key index over every stored node: storage order,
/// last stored node wins on collision.
fn build_node_index(tree: &DomTree) -> (idx: HashMap<u64, NodeId>)
    ensures
        crate::dom::tree_inv(tree@) ==> idx@ == spec_node_index(tree@.nodes, tree@.order),
        forall|h: u64| #[trigger]
            idx@.contains_key(h) ==> tree@.nodes.dom().contains(idx@[h]) && spec_structure_hash(
                tree@.nodes[idx@[h]],
            ) == h,
{
    let keys = tree.key_list();
    let mut idx: HashMap<u64, NodeId> = HashMap::with_capacity(tree.node_count());
    let n = keys.len();
    let mut j: usize = 0;
    proof {
        assert(tree@.order.take(0) =~= Seq::<NodeId>::empty());
        if crate::dom::tree_inv(tree@) {
            assert(idx@ =~= spec_node_index(tree@.nodes, tree@.order.take(0)));
        }
    }
    while j < n
        invariant
            n == tree@.order.len(),
            keys@ == tree@.order,
            j <= n,
            crate::dom::tree_inv(tree@) ==> idx@ == spec_node_index(
                tree@.nodes,
                tree@.order.take(j as int),
            ),
            forall|h: u64| #[trigger]
                idx@.contains_key(h) ==> tree@.nodes.dom().contains(idx@[h])
                    && spec_structure_hash(tree@.nodes[idx@[h]]) == h,
        decreases n - j,
    {
        match tree.get_node(keys[j]) {
            Some(node) => {
                let h = hash_node_structure(node);
                idx.insert(h, keys[j]);
                proof {
                    if crate::dom::tree_inv(tree@) {
                        assert(tree@.order.take(j + 1).drop_last() =~= tree@.order.take(j as int));
                        assert(tree@.order.take(j + 1).last() == tree@.order[j as int]);
                    }
                }
            },
            None => {
                proof {
                    if crate::dom::tree_inv(tree@) {
                        assert(tree@.order.contains(tree@.order[j as int]));
                        assert(false);
                    }
                }
            },
        }
        j += 1;
    }
    proof {
        assert(tree@.order.take(n as int) =~= tree@.order);
    }
    idx
}

/// Builds the parent-to-ordered-children index over every stored node with
/// at least one child.
fn build_children_index(tree: &DomTree) -> (idx: HashMap<NodeId, Vec<NodeId>>)
    ensures
        forall|k: NodeId| #[trigger]
            idx@.contains_key(k) ==> tree@.nodes.dom().contains(k) && idx@[k]@
                == tree@.nodes[k].children,
        crate::dom::tree_inv(tree@) ==> forall|k: NodeId|
            tree@.nodes.dom().contains(k) && tree@.nodes[k].children.len() > 0
                ==> #[trigger] idx@.contains_key(k),
{
    let keys = tree.key_list();
    let mut idx: HashMap<NodeId, Vec<NodeId>> = HashMap::with_capacity(tree.node_count());
    let n = keys.len();
    let mut j: usize = 0;
    while j < n
        invariant
            n == tree@.order.len(),
            keys@ == tree@.order,
            j <= n,
            forall|k: NodeId| #[trigger]
                idx@.contains_key(k) ==> tree@.nodes.dom().contains(k) && idx@[k]@
                    == tree@.nodes[k].children,
            crate::dom::tree_inv(tree@) ==> forall|q: int|
                0 <= q < j && tree@.nodes[#[trigger] tree@.order[q]].children.len() > 0
                    ==> idx@.contains_key(tree@.order[q]),
        decreases n - j,
    {
        match tree.get_node(keys[j]) {
            Some(node) => {
                if node.children.len() > 0 {
                    let children = node.children.clone();
                    proof {
                        assert(children@ =~= tree@.nodes[keys@[j as int]].children) by {
                            assert(forall|q: int|
                                0 <= q < children@.len() ==> vstd::pervasive::cloned::<u64>(
                                    node@.children[q],
                                    #[trigger] children@[q],
                                ));
                        }
                    }
                    idx.insert(keys[j], children);
                }
            },
            None => {
                proof {
                    if crate::dom::tree_inv(tree@) {
                        assert(tree@.order.contains(tree@.order[j as int]));
                        assert(false);
                    }
                }
            },
        }
        j += 1;
    }
    proof {
        if crate::dom::tree_inv(tree@) {
            assert forall|k: NodeId|
                tree@.nodes.dom().contains(k) && tree@.nodes[k].children.len() > 0
                    implies #[trigger] idx@.contains_key(k) by {
                assert(tree@.order.contains(k));
                let q = choose|q: int| 0 <= q < tree@.order.len() && tree@.order[q] == k;
                assert(tree@.nodes[tree@.order[q]].children.len() > 0);
            }
        }
    }
    idx
}

/// True for an insert of node `c`.
pub open spec fn is_insert_of(ch: DiffChangeView, c: NodeId) -> bool {
    match ch {
        DiffChangeView::Insert { node, .. } => node == c,
        _ => false,
    }
}

/// How many inserts of node `c` a change list carries.
pub open spec fn count_inserts_for(cs: Seq<DiffChangeView>, c: NodeId) -> int
    decreases cs.len(),
{
    if cs.len() == 0 {
        0
    } else {
        count_inserts_for(cs.drop_last(), c) + if is_insert_of(cs.last(), c) {
            1int
        } else {
            0int
        }
    }
}

proof fn lemma_count_inserts_concat(a: Seq<DiffChangeView>, b: Seq<DiffChangeView>, c: NodeId)
    ensures
        count_inserts_for(a + b, c) == count_inserts_for(a, c) + count_inserts_for(b, c),
    decreases b.len(),
{
    if b.len() == 0 {
        assert(a + b =~= a);
    } else {
        assert((a + b).drop_last() =~= a + b.drop_last());
        assert((a + b).last() == b.last());
        lemma_count_inserts_concat(a, b.drop_last(), c);
    }
}

proof fn lemma_count_inserts_zero(cs: Seq<DiffChangeView>, c: NodeId)
    requires
        forall|j: int| 0 <= j < cs.len() ==> !is_insert_of(#[trigger] cs[j], c),
    ensures
        count_inserts_for(cs, c) == 0,
    decreases cs.len(),
{
    if cs.len() > 0 {
        lemma_count_inserts_zero(cs.drop_last(), c);
    }
}

/// The position recorded for an inserted node: its index under its parent in
/// the new tree, with position 0 when the parent or the position cannot be
/// resolved.
pub open spec fn spec_insert_index(n: TreeView, p: NodeId, c: NodeId) -> int {
    if n.nodes.dom().contains(p) {
        match crate::dom::seq_first_index(n.nodes[p].children, c) {
            Some(i) => i,
            None => 0,
        }
    } else {
        0
    }
}

/// The insert recorded for one stored key: nothing when the key was visited
/// in the old tree, is not stored, or has no parent.
pub open spec fn insert_for(n: TreeView, vis: Set<NodeId>, id: NodeId) -> Seq<DiffChangeView> {
    if !vis.contains(id) && n.nodes.dom().contains(id) && n.nodes[id].parent is Some {
        seq![
            DiffChangeView::Insert {
                parent: n.nodes[id].parent->Some_0,
                index: spec_insert_index(n, n.nodes[id].parent->Some_0, id),
                node: id,
            },
        ]
    } else {
        Seq::<DiffChangeView>::empty()
    }
}

/// The inserts recorded for a whole key list, in order.
pub open spec fn insert_changes(n: TreeView, vis: Set<NodeId>, order: Seq<NodeId>) -> Seq<
    DiffChangeView,
>
    decreases order.len(),
{
    if order.len() == 0 {
        Seq::<DiffChangeView>::empty()
    } else {
        insert_changes(n, vis, order.drop_last()) + insert_for(n, vis, order.last())
    }
}

/// Records one insert for every node stored in the new tree that the old
/// walk did not visit, located at its position under its parent in the new
/// tree.
fn detect_insertions(new: &DomTree, visited: &std::collections::HashSet<NodeId>, diff: &mut TreeDiff)
    ensures
        final(diff)@ == apply_changes(
            old(diff)@,
            insert_changes(new@, visited@, new@.order),
        ),
{
    let keys = new.key_list();
    let n = keys.len();
    let mut j: usize = 0;
    proof {
        assert(new@.order.take(0) =~= Seq::<NodeId>::empty());
    }
    while j < n
        invariant
            n == new@.order.len(),
            keys@ == new@.order,
            j <= n,
            diff@ == apply_changes(
                old(diff)@,
                insert_changes(new@, visited@, new@.order.take(j as int)),
            ),
        decreases n - j,
    {
        let id = keys[j];
        let ghost pre = insert_changes(new@, visited@, new@.order.take(j as int));
        proof {
            assert(new@.order.take(j + 1).drop_last() =~= new@.order.take(j as int));
            assert(new@.order.take(j + 1).last() == id);
        }
        if !visited.contains(&id) {
            match new.get_node(id) {
                Some(node) => {
                    match node.parent {
                        Some(parent_id) => {
                            let index = match new.get_node(parent_id) {
                                Some(p) => match find_first(&p.children, id) {
                                    Some(i) => i,
                                    None => 0,
                                },
                                None => 0,
                            };
                            let change = DiffChange::Insert { parent: parent_id, index, node: id };
                            proof {
                                assert(index as int == spec_insert_index(new@, parent_id, id));
                                assert(insert_for(new@, visited@, id) == seq![change@]);
                                assert(pre + seq![change@] =~= pre.push(change@));
                                lemma_apply_changes_push(old(diff)@, pre, change@);
                            }
                            diff.add_change(change);
                        },
                        None => {
                            proof {
                                assert(pre + insert_for(new@, visited@, id) =~= pre);
                            }
                        },
                    }
                },
                None => {
                    proof {
                        assert(pre + insert_for(new@, visited@, id) =~= pre);
                    }
                },
            }
        } else {
            proof {
                assert(pre + insert_for(new@, visited@, id) =~= pre);
            }
        }
        j += 1;
    }
    proof {
        assert(new@.order.take(n as int) =~= new@.order);
    }
}


/// The child list of `k`, empty when `k` is not stored.
pub open spec fn children_of(t: TreeView, k: NodeId) -> Seq<NodeId> {
    if t.nodes.dom().contains(k) {
        t.nodes[k].children
    } else {
        Seq::<NodeId>::empty()
    }
}

/// A walk from the root along child edges.
pub open spec fn is_child_path(t: TreeView, path: Seq<NodeId>) -> bool {
    &&& path.len() > 0
    &&& t.root_id == Some(path[0])
    &&& forall|i: int| 0 <= i < path.len() ==> t.nodes.dom().contains(#[trigger] path[i])
    &&& forall|i: int|
        0 < i < path.len() ==> t.nodes[path[i - 1]].children.contains(#[trigger] path[i])
}

/// `k` can be reached from the root along child edges.
#[verifier::opaque]
pub open spec fn reachable(t: TreeView, k: NodeId) -> bool {
    exists|path: Seq<NodeId>| is_child_path(t, path) && path.last() == k
}

/// A well-shaped snapshot: the storage bookkeeping holds, the root (when
/// set) is stored and parentless, every stored node's id field equals its
/// key, child lists are duplicate-free and point at stored nodes whose
/// parent field points back, and every stored node is reachable from the
/// root. Snapshots produced only through the tree's own mutators satisfy
/// this whenever the caller keeps the structure a tree.
pub open spec fn wf_tree(t: TreeView) -> bool {
    &&& crate::dom::tree_inv(t)
    &&& match t.root_id {
        Some(r) => t.nodes.dom().contains(r) && t.nodes[r].parent is None,
        None => t.nodes.dom().len() == 0,
    }
    &&& forall|k: NodeId| #[trigger] t.nodes.dom().contains(k) ==> t.nodes[k].id == k
    &&& forall|k: NodeId| #[trigger]
        t.nodes.dom().contains(k) ==> t.nodes[k].children.no_duplicates()
    &&& forall|k: NodeId, i: int|
        t.nodes.dom().contains(k) && 0 <= i < t.nodes[k].children.len()
            ==> t.nodes.dom().contains(#[trigger] t.nodes[k].children[i])
            && t.nodes[t.nodes[k].children[i]].parent == Some(k)
    &&& forall|k: NodeId| #[trigger] t.nodes.dom().contains(k) ==> t.nodes[k].parent != Some(k)
    &&& forall|k: NodeId| #[trigger] t.nodes.dom().contains(k) ==> reachable(t, k)
}

/// The old and new snapshots correspond node for node: same keys in the
/// same storage order with the same root, each pair agreeing on the
/// components of the structural key (kind, tag name, child count), and the
/// new tree's structural keys collision-free. Attributes, text and child
/// order may differ freely.
pub open spec fn structure_matched(o: TreeView, n: TreeView) -> bool {
    &&& n.nodes.dom() == o.nodes.dom()
    &&& n.order == o.order
    &&& n.root_id == o.root_id
    &&& forall|k: NodeId| #[trigger] o.nodes.dom().contains(k) ==> {
        &&& n.nodes[k].id == k
        &&& n.nodes[k].node_type == o.nodes[k].node_type
        &&& n.nodes[k].tag_name == o.nodes[k].tag_name
        &&& n.nodes[k].children.len() == o.nodes[k].children.len()
    }
    &&& forall|k1: NodeId, k2: NodeId|
        o.nodes.dom().contains(k1) && o.nodes.dom().contains(k2) && spec_structure_hash(
            #[trigger] n.nodes[k1],
        ) == spec_structure_hash(#[trigger] n.nodes[k2]) ==> k1 == k2
}

/// A well-shaped old snapshot whose nodes correspond one to one with the
/// new snapshot's. Under this hypothesis the walk matches every old node to
/// its own key in the new tree, and the diff is exactly the per-node
/// emissions.
pub open spec fn aligned(o: TreeView, n: TreeView) -> bool {
    wf_tree(o) && structure_matched(o, n)
}

/// The new snapshot is the old one with the sole leaf child `c` of parent
/// `p` taken out: `c` and its storage entry are gone, `p`'s child list is
/// empty, every other node is unchanged, and no remaining node's structural
/// key collides with another's or with `p`'s old key (whose child count
/// changed). Under this hypothesis the walk deletes exactly `p`'s subtree.
pub open spec fn removed_leaf(o: TreeView, n: TreeView, p: NodeId, c: NodeId) -> bool {
    &&& wf_tree(o)
    &&& crate::dom::tree_inv(n)
    &&& o.nodes.dom().contains(p)
    &&& o.nodes.dom().contains(c)
    &&& c != p
    &&& o.nodes[p].children == seq![c]
    &&& o.nodes[c].children.len() == 0
    &&& n.nodes.dom() == o.nodes.dom().remove(c)
    &&& n.root_id == o.root_id
    &&& forall|k: NodeId| #[trigger]
        n.nodes.dom().contains(k) && k != p ==> n.nodes[k] == o.nodes[k]
    &&& n.nodes[p] == (NodeView { children: Seq::<NodeId>::empty(), ..o.nodes[p] })
    &&& forall|k: NodeId| #[trigger]
        n.nodes.dom().contains(k) ==> spec_structure_hash(n.nodes[k]) != spec_structure_hash(
            o.nodes[p],
        )
    &&& forall|k1: NodeId, k2: NodeId|
        n.nodes.dom().contains(k1) && n.nodes.dom().contains(k2) && spec_structure_hash(
            #[trigger] n.nodes[k1],
        ) == spec_structure_hash(#[trigger] n.nodes[k2]) ==> k1 == k2
}

/// Some sole leaf was removed between the snapshots.
pub open spec fn leaf_removed(o: TreeView, n: TreeView) -> bool {
    exists|p: NodeId, c: NodeId| removed_leaf(o, n, p, c)
}

/// The snapshot shapes under which the walk's queue discipline is provable:
/// either a node-for-node correspondence or a sole-leaf removal.
pub open spec fn walk_shaped(o: TreeView, n: TreeView) -> bool {
    aligned(o, n) || leaf_removed(o, n)
}

/// The parent key a delete of `p` records: `p`'s own key for a root.
pub open spec fn del_parent(o: TreeView, p: NodeId) -> NodeId {
    match o.nodes[p].parent {
        Some(pp) => pp,
        None => p,
    }
}

/// The position a delete of `p` records: `p`'s index under its parent.
pub open spec fn del_index(o: TreeView, p: NodeId) -> int {
    match o.nodes[p].parent {
        Some(pp) => match crate::dom::seq_first_index(o.nodes[pp].children, p) {
            Some(i) => i,
            None => 0,
        },
        None => 0,
    }
}

/// The one delete recorded for the vanished subtree of `p`.
pub open spec fn rl_delete(o: TreeView, p: NodeId) -> DiffChangeView {
    DiffChangeView::Delete { parent: del_parent(o, p), index: del_index(o, p), node: p }
}

/// Both walk shapes give a well-shaped old snapshot.
proof fn lemma_walk_shaped_wf(o: TreeView, n: TreeView)
    requires
        walk_shaped(o, n),
    ensures
        wf_tree(o),
{
    if !aligned(o, n) {
        let (p, c) = choose|p: NodeId, c: NodeId| removed_leaf(o, n, p, c);
    }
}

/// What the walk emits for old node `k` matched to new node `k`: at most
/// one update carrying the content changes, then one move per reordered
/// child position.
pub open spec fn emission(o: TreeView, n: TreeView, k: NodeId) -> Seq<DiffChangeView> {
    update_changes(o.nodes[k], n.nodes[k]) + move_changes(
        o.nodes[k].children,
        children_of(n, k),
        k,
    )
}

/// Every stored node other than `x` has an empty emission.
pub open spec fn emissions_empty_except(o: TreeView, n: TreeView, x: NodeId) -> bool {
    forall|k: NodeId|
        o.nodes.dom().contains(k) && k != x ==> (#[trigger] emission(o, n, k)).len() == 0
}

/// Every stored node has an empty emission.
pub open spec fn no_emissions(o: TreeView, n: TreeView) -> bool {
    forall|k: NodeId| o.nodes.dom().contains(k) ==> (#[trigger] emission(o, n, k)).len() == 0
}

/// A queue entry records where its node stood: the root with no parent at
/// position zero, or a child at its recorded position under its recorded
/// parent.
pub open spec fn queue_entry_ok(o: TreeView, e: (NodeId, Option<NodeId>, usize)) -> bool {
    match e.1 {
        None => o.root_id == Some(e.0) && e.2 == 0,
        Some(p) => o.nodes.dom().contains(p) && (e.2 as int) < o.nodes[p].children.len()
            && o.nodes[p].children[e.2 as int] == e.0,
    }
}

/// `c` is pending in the walk queue.
pub open spec fn in_queue(q: Seq<(NodeId, Option<NodeId>, usize)>, c: NodeId) -> bool {
    exists|j: int| 0 <= j < q.len() && (#[trigger] q[j]).0 == c
}

/// What a finished diff may contain, change by change: an insert names a
/// stored new node at its true position under its true parent; a delete
/// names a stored old node at its true old position, whose structural key
/// has no match in the new tree's index; a move stays under one parent; an
/// update carries at least one content change.
pub open spec fn diff_change_ok(o: TreeView, n: TreeView, ch: DiffChangeView) -> bool {
    match ch {
        DiffChangeView::Insert { parent, index, node } => n.nodes.dom().contains(node)
            && n.nodes[node].parent == Some(parent) && index == spec_insert_index(
            n,
            parent,
            node,
        ),
        DiffChangeView::Delete { parent, index, node } => o.nodes.dom().contains(node) && ((
        o.root_id == Some(node) && parent == node && index == 0) || (o.nodes.dom().contains(parent)
            && 0 <= index < o.nodes[parent].children.len() && o.nodes[parent].children[index]
            == node)) && (crate::dom::tree_inv(n) ==> !spec_node_index(
            n.nodes,
            n.order,
        ).contains_key(spec_structure_hash(o.nodes[node]))),
        DiffChangeView::Move { from_parent, to_parent, .. } => from_parent == to_parent,
        DiffChangeView::Update { changes, .. } => changes.len() > 0,
    }
}

/// Like `diff_change_ok` but for the walk phase, which emits no inserts.
pub open spec fn walk_change_ok(o: TreeView, n: TreeView, ch: DiffChangeView) -> bool {
    !(ch is Insert) && diff_change_ok(o, n, ch)
}

/// In a set that contains the path's start and is closed under child edges
/// (up to childless excluded nodes), every path ends inside the set or at
/// an excluded node.
proof fn lemma_path_in_closed(t: TreeView, s: Set<NodeId>, excl: Set<NodeId>, path: Seq<NodeId>)
    requires
        is_child_path(t, path),
        s.contains(path[0]) || excl.contains(path[0]),
        forall|v: NodeId, i: int|
            s.contains(v) && t.nodes.dom().contains(v) && 0 <= i < t.nodes[v].children.len()
                ==> s.contains(#[trigger] t.nodes[v].children[i]) || excl.contains(
                t.nodes[v].children[i],
            ),
        forall|e: NodeId| #[trigger]
            excl.contains(e) && t.nodes.dom().contains(e) ==> t.nodes[e].children.len() == 0,
    ensures
        s.contains(path.last()) || excl.contains(path.last()),
    decreases path.len(),
{
    if path.len() > 1 {
        let prefix = path.drop_last();
        assert(is_child_path(t, prefix)) by {
            assert(prefix[0] == path[0]);
            assert(forall|i: int| 0 <= i < prefix.len() ==> #[trigger] prefix[i] == path[i]);
        }
        lemma_path_in_closed(t, s, excl, prefix);
        let v = prefix.last();
        let last = path.last();
        assert(path[path.len() - 2] == v);
        assert(t.nodes[v].children.contains(last));
        let i = choose|i: int|
            0 <= i < t.nodes[v].children.len() && t.nodes[v].children[i] == last;
        if excl.contains(v) {
            assert(t.nodes[v].children.len() == 0);
        } else {
            assert(s.contains(t.nodes[v].children[i]) || excl.contains(t.nodes[v].children[i]));
        }
    }
}

/// Every recorded insert names an unvisited stored node at its position
/// under its parent.
proof fn lemma_insert_changes_shape(n: TreeView, vis: Set<NodeId>, order: Seq<NodeId>)
    ensures
        forall|j: int|
            0 <= j < insert_changes(n, vis, order).len() ==> {
                let ch = #[trigger] insert_changes(n, vis, order)[j];
                match ch {
                    DiffChangeView::Insert { parent, index, node } => n.nodes.dom().contains(node)
                        && n.nodes[node].parent == Some(parent) && index == spec_insert_index(
                        n,
                        parent,
                        node,
                    ) && !vis.contains(node),
                    _ => false,
                }
            },
    decreases order.len(),
{
    if order.len() > 0 {
        lemma_insert_changes_shape(n, vis, order.drop_last());
    }
}

/// A key list of visited keys records no inserts.
proof fn lemma_insert_changes_all_visited(n: TreeView, vis: Set<NodeId>, order: Seq<NodeId>)
    requires
        forall|j: int| 0 <= j < order.len() ==> vis.contains(#[trigger] order[j]),
    ensures
        insert_changes(n, vis, order) == Seq::<DiffChangeView>::empty(),
    decreases order.len(),
{
    if order.len() > 0 {
        lemma_insert_changes_all_visited(n, vis, order.drop_last());
        assert(insert_changes(n, vis, order) =~= Seq::<DiffChangeView>::empty());
    }
}

/// On a duplicate-free key list, a key that is stored, unvisited and
/// attached is recorded exactly once; any other key never.
proof fn lemma_insert_changes_count(n: TreeView, vis: Set<NodeId>, order: Seq<NodeId>, c: NodeId)
    requires
        order.no_duplicates(),
    ensures
        count_inserts_for(insert_changes(n, vis, order), c) == if order.contains(c)
            && !vis.contains(c) && n.nodes.dom().contains(c) && n.nodes[c].parent is Some {
            1int
        } else {
            0int
        },
    decreases order.len(),
{
    if order.len() == 0 {
        if order.contains(c) {
            let j = choose|j: int| 0 <= j < order.len() && order[j] == c;
        }
    } else {
        let prefix = order.drop_last();
        assert(prefix.no_duplicates());
        lemma_insert_changes_count(n, vis, prefix, c);
        lemma_count_inserts_concat(
            insert_changes(n, vis, prefix),
            insert_for(n, vis, order.last()),
            c,
        );
        let tail = insert_for(n, vis, order.last());
        let last = order.last();
        assert(count_inserts_for(tail, c) == if last == c && !vis.contains(c)
            && n.nodes.dom().contains(c) && n.nodes[c].parent is Some {
            1int
        } else {
            0int
        }) by {
            if !vis.contains(last) && n.nodes.dom().contains(last) && n.nodes[last].parent
                is Some {
                let el = DiffChangeView::Insert {
                    parent: n.nodes[last].parent->Some_0,
                    index: spec_insert_index(n, n.nodes[last].parent->Some_0, last),
                    node: last,
                };
                assert(tail == seq![el]);
                assert(tail.len() == 1);
                assert(tail[0] == el);
                assert(tail.drop_last() =~= Seq::<DiffChangeView>::empty());
                assert(tail.last() == el);
                assert(count_inserts_for(tail.drop_last(), c) == 0);
                assert(count_inserts_for(tail, c) == count_inserts_for(tail.drop_last(), c)
                    + if is_insert_of(tail.last(), c) {
                    1int
                } else {
                    0int
                });
                assert(is_insert_of(el, c) == (last == c));
            } else {
                assert(tail == Seq::<DiffChangeView>::empty());
            }
        }
        if order.contains(c) {
            let j = choose|j: int| 0 <= j < order.len() && order[j] == c;
            if j < order.len() - 1 {
                assert(prefix[j] == c);
                assert(prefix.contains(c));
                assert(order.last() != c);
            } else {
                assert(order.last() == c);
                if prefix.contains(c) {
                    let i = choose|i: int| 0 <= i < prefix.len() && prefix[i] == c;
                    assert(order[i] == c);
                }
            }
        } else {
            assert(!prefix.contains(c)) by {
                if prefix.contains(c) {
                    let i = choose|i: int| 0 <= i < prefix.len() && prefix[i] == c;
                    assert(order[i] == c);
                    assert(order.contains(c));
                }
            }
            assert(order.last() != c) by {
                if order.last() == c {
                    assert(order[order.len() - 1] == c);
                    assert(order.contains(c));
                }
            }
        }
    }
}

/// Every recorded move keeps its node under one parent.
proof fn lemma_moves_shape(oldc: Seq<NodeId>, newc: Seq<NodeId>, parent: NodeId, k: int)
    ensures
        forall|j: int|
            0 <= j < move_changes_upto(oldc, newc, parent, k).len() ==> match #[trigger]
            move_changes_upto(oldc, newc, parent, k)[j] {
                DiffChangeView::Move { from_parent, to_parent, .. } => from_parent == to_parent,
                _ => false,
            },
    decreases k,
{
    if k > 0 {
        lemma_moves_shape(oldc, newc, parent, k - 1);
    }
}

/// Combines the walk phase's guarantees with the insert phase's into the
/// final contract of the diff computation.
#[verifier::rlimit(100)]
proof fn lemma_finish(
    o: TreeView,
    n: TreeView,
    walk: Seq<DiffChangeView>,
    all: Seq<DiffChangeView>,
    vis: Set<NodeId>,
)
    requires
        all == walk + insert_changes(n, vis, n.order),
        forall|j: int| 0 <= j < walk.len() ==> walk_change_ok(o, n, #[trigger] walk[j]),
        forall|c: NodeId| #[trigger] vis.contains(c) ==> o.nodes.dom().contains(c),
        aligned(o, n) ==> forall|k: NodeId| #[trigger]
            o.nodes.dom().contains(k) ==> vis.contains(k),
        aligned(o, n) && o.nodes.dom().len() == 0 ==> walk == Seq::<DiffChangeView>::empty(),
        aligned(o, n) ==> forall|x: NodeId| #![auto]
            o.nodes.dom().contains(x) && emissions_empty_except(o, n, x) ==> walk == (
            if vis.contains(x) {
                emission(o, n, x)
            } else {
                Seq::<DiffChangeView>::empty()
            }),
    ensures
        forall|j: int| 0 <= j < all.len() ==> diff_change_ok(o, n, #[trigger] all[j]),
        forall|c: NodeId| #![auto]
            crate::dom::tree_inv(n) && n.nodes.dom().contains(c) && !o.nodes.dom().contains(c)
                && n.nodes[c].parent is Some ==> count_inserts_for(all, c) == 1,
        aligned(o, n) && no_emissions(o, n) ==> all == Seq::<DiffChangeView>::empty(),
        forall|x: NodeId| #![auto]
            aligned(o, n) && o.nodes.dom().contains(x) && emissions_empty_except(o, n, x)
                ==> all == emission(o, n, x),
{
    let ic = insert_changes(n, vis, n.order);
    lemma_insert_changes_shape(n, vis, n.order);
    assert forall|j: int| 0 <= j < all.len() implies diff_change_ok(
        o,
        n,
        #[trigger] all[j],
    ) by {
        if j < walk.len() {
            assert(all[j] == walk[j]);
            assert(walk_change_ok(o, n, walk[j]));
        } else {
            assert(all[j] == ic[j - walk.len()]);
        }
    }
    if crate::dom::tree_inv(n) {
        assert forall|c: NodeId| #![auto]
            n.nodes.dom().contains(c) && !o.nodes.dom().contains(c)
                && n.nodes[c].parent is Some implies count_inserts_for(all, c) == 1 by {
            lemma_count_inserts_concat(walk, ic, c);
            lemma_count_inserts_zero(walk, c);
            assert(!vis.contains(c));
            assert(n.order.contains(c));
            assert(n.order.no_duplicates());
            lemma_insert_changes_count(n, vis, n.order, c);
        }
    }
    if aligned(o, n) {
        assert(crate::dom::tree_inv(n)) by {
            assert(forall|k: NodeId|
                n.order.contains(k) <==> #[trigger] n.nodes.dom().contains(k));
        }
        assert(forall|j: int|
            0 <= j < n.order.len() ==> vis.contains(#[trigger] n.order[j])) by {
            assert(forall|j: int|
                0 <= j < n.order.len() ==> n.order.contains(#[trigger] n.order[j]));
            assert(forall|k: NodeId| #[trigger]
                n.order.contains(k) ==> o.nodes.dom().contains(k));
        }
        lemma_insert_changes_all_visited(n, vis, n.order);
        assert(all =~= walk);
        if no_emissions(o, n) {
            if o.nodes.dom().len() == 0 {
                assert(all == Seq::<DiffChangeView>::empty());
            } else {
                assert(exists|x: NodeId| o.nodes.dom().contains(x)) by {
                    if forall|x: NodeId| !o.nodes.dom().contains(x) {
                        assert(o.nodes.dom() =~= Set::<NodeId>::empty());
                    }
                }
                let x = choose|x: NodeId| o.nodes.dom().contains(x);
                assert(emissions_empty_except(o, n, x));
                assert(all == emission(o, n, x));
                assert(emission(o, n, x).len() == 0);
                assert(all =~= Seq::<DiffChangeView>::empty());
            }
        }
    }
}

/// A change list whose parts are well-shaped stays well-shaped when
/// concatenated.
proof fn lemma_walk_append_ok(
    o: TreeView,
    n: TreeView,
    pre: Seq<DiffChangeView>,
    up: Seq<DiffChangeView>,
    mv: Seq<DiffChangeView>,
)
    requires
        forall|j: int| 0 <= j < pre.len() ==> walk_change_ok(o, n, #[trigger] pre[j]),
        forall|j: int| 0 <= j < up.len() ==> walk_change_ok(o, n, #[trigger] up[j]),
        forall|j: int| 0 <= j < mv.len() ==> walk_change_ok(o, n, #[trigger] mv[j]),
    ensures
        forall|j: int|
            0 <= j < (pre + (up + mv)).len() ==> walk_change_ok(
                o,
                n,
                #[trigger] (pre + (up + mv))[j],
            ),
{
    assert forall|j: int|
        0 <= j < (pre + (up + mv)).len() implies walk_change_ok(
        o,
        n,
        #[trigger] (pre + (up + mv))[j],
    ) by {
        if j < pre.len() {
            assert((pre + (up + mv))[j] == pre[j]);
        } else if j < pre.len() + up.len() {
            assert((pre + (up + mv))[j] == up[j - pre.len()]);
        } else {
            assert((pre + (up + mv))[j] == mv[j - pre.len() - up.len()]);
        }
    }
}

/// A child of a node being expanded for the first time is neither visited
/// nor pending: its unique parent has never been expanded, and the only
/// queue entries under this parent point at earlier positions.
proof fn lemma_fresh_child(
    o: TreeView,
    q: Seq<(NodeId, Option<NodeId>, usize)>,
    vis0: Set<NodeId>,
    expanded: Set<NodeId>,
    node_id: NodeId,
    ci: int,
)
    requires
        wf_tree(o),
        o.nodes.dom().contains(node_id),
        0 <= ci < o.nodes[node_id].children.len(),
        !expanded.contains(node_id),
        forall|j: int| 0 <= j < q.len() ==> queue_entry_ok(o, #[trigger] q[j]),
        forall|j: int|
            0 <= j < q.len() && (#[trigger] q[j]).1 == Some(node_id) ==> q[j].2 < ci,
        forall|c: NodeId|
            #![trigger o.nodes[c].parent]
            vis0.contains(c) ==> (o.root_id == Some(c) || (o.nodes.dom().contains(c)
                && o.nodes[c].parent is Some && expanded.contains(o.nodes[c].parent->Some_0))),
    ensures
        !vis0.contains(o.nodes[node_id].children[ci]),
        !in_queue(q, o.nodes[node_id].children[ci]),
{
    let child = o.nodes[node_id].children[ci];
    assert(o.nodes.dom().contains(child));
    assert(o.nodes[child].parent == Some(node_id));
    assert(o.root_id != Some(child)) by {
        if o.root_id == Some(child) {
            assert(o.nodes[child].parent is None);
        }
    }
    if vis0.contains(child) {
        assert(expanded.contains(node_id));
        assert(false);
    }
    if in_queue(q, child) {
        let jj = choose|jj: int| 0 <= jj < q.len() && (#[trigger] q[jj]).0 == child;
        assert(queue_entry_ok(o, q[jj]));
        match q[jj].1 {
            None => {
                assert(o.root_id == Some(child));
                assert(false);
            },
            Some(p) => {
                assert(o.nodes[p].children[q[jj].2 as int] == child);
                assert(o.nodes[child].parent == Some(p));
                assert(p == node_id);
                assert(q[jj].2 < ci);
                let och = o.nodes[node_id].children;
                assert(och[q[jj].2 as int] == och[ci]);
                assert(och.no_duplicates());
                assert(false);
            },
        }
    }
}

/// A visited set that contains the root and every expanded node's children,
/// where every visited node is expanded, covers the whole stored domain of a
/// well-shaped tree.
#[verifier::rlimit(100)]
proof fn lemma_walk_complete(o: TreeView, visited: Set<NodeId>, expanded: Set<NodeId>)
    requires
        wf_tree(o),
        forall|v: NodeId| #[trigger] visited.contains(v) ==> expanded.contains(v),
        forall|v: NodeId, i: int|
            #[trigger] expanded.contains(v) && 0 <= i < children_of(o, v).len()
                ==> visited.contains(#[trigger] children_of(o, v)[i]),
        match o.root_id {
            Some(r) => visited.contains(r),
            None => true,
        },
    ensures
        forall|k: NodeId| #[trigger] o.nodes.dom().contains(k) ==> visited.contains(k),
{
    assert forall|v: NodeId, i: int|
        visited.contains(v) && o.nodes.dom().contains(v) && 0 <= i
            < o.nodes[v].children.len() implies visited.contains(
        #[trigger] o.nodes[v].children[i],
    ) || Set::<NodeId>::empty().contains(o.nodes[v].children[i]) by {
        assert(expanded.contains(v));
        assert(children_of(o, v)[i] == o.nodes[v].children[i]);
    }
    assert forall|k: NodeId| #[trigger]
        o.nodes.dom().contains(k) implies visited.contains(k) by {
        reveal(reachable);
        assert(reachable(o, k));
        let path = choose|path: Seq<NodeId>| is_child_path(o, path) && path.last() == k;
        assert(visited.contains(path[0]));
        lemma_path_in_closed(o, visited, Set::<NodeId>::empty(), path);
    }
}

/// Like `lemma_walk_complete`, but with the removed leaf's parent visited
/// without being expanded: its only child is the removed leaf, which alone
/// may stay unvisited.
#[verifier::rlimit(100)]
proof fn lemma_walk_complete_excl(
    o: TreeView,
    visited: Set<NodeId>,
    expanded: Set<NodeId>,
    p: NodeId,
    c: NodeId,
)
    requires
        wf_tree(o),
        o.nodes.dom().contains(p),
        o.nodes.dom().contains(c),
        o.nodes[p].children == seq![c],
        o.nodes[c].children.len() == 0,
        forall|v: NodeId| #[trigger] visited.contains(v) ==> expanded.contains(v) || v == p,
        forall|v: NodeId, i: int|
            #[trigger] expanded.contains(v) && 0 <= i < children_of(o, v).len()
                ==> visited.contains(#[trigger] children_of(o, v)[i]),
        match o.root_id {
            Some(r) => visited.contains(r),
            None => true,
        },
    ensures
        forall|k: NodeId| #[trigger]
            o.nodes.dom().contains(k) && k != c ==> visited.contains(k),
{
    let excl = Set::<NodeId>::empty().insert(c);
    assert forall|v: NodeId, i: int|
        visited.contains(v) && o.nodes.dom().contains(v) && 0 <= i
            < o.nodes[v].children.len() implies visited.contains(
        #[trigger] o.nodes[v].children[i],
    ) || excl.contains(o.nodes[v].children[i]) by {
        if v == p {
            assert(o.nodes[p].children[i] == c);
        } else {
            assert(expanded.contains(v));
            assert(children_of(o, v)[i] == o.nodes[v].children[i]);
        }
    }
    assert forall|e: NodeId| #[trigger]
        excl.contains(e) && o.nodes.dom().contains(e) implies o.nodes[e].children.len()
        == 0 by {
        assert(e == c);
    }
    assert forall|k: NodeId| #[trigger]
        o.nodes.dom().contains(k) && k != c implies visited.contains(k) by {
        reveal(reachable);
        assert(reachable(o, k));
        let path = choose|path: Seq<NodeId>| is_child_path(o, path) && path.last() == k;
        assert(visited.contains(path[0]));
        lemma_path_in_closed(o, visited, excl, path);
    }
}

/// One visit extends the change list by exactly the visited node's emission,
/// so the lone-change bookkeeping carries over.
proof fn lemma_lone_step(
    o: TreeView,
    n: TreeView,
    node_id: NodeId,
    pre: Seq<DiffChangeView>,
    post: Seq<DiffChangeView>,
    vis_pre: Set<NodeId>,
    vis_post: Set<NodeId>,
)
    requires
        o.nodes.dom().contains(node_id),
        post == pre + emission(o, n, node_id),
        vis_post == vis_pre.insert(node_id),
        !vis_pre.contains(node_id),
        forall|x: NodeId| #![auto]
            o.nodes.dom().contains(x) && emissions_empty_except(o, n, x) ==> pre == (
            if vis_pre.contains(x) {
                emission(o, n, x)
            } else {
                Seq::<DiffChangeView>::empty()
            }),
    ensures
        forall|x: NodeId| #![auto]
            o.nodes.dom().contains(x) && emissions_empty_except(o, n, x) ==> post == (
            if vis_post.contains(x) {
                emission(o, n, x)
            } else {
                Seq::<DiffChangeView>::empty()
            }),
{
    assert forall|x: NodeId| #![auto]
        o.nodes.dom().contains(x) && emissions_empty_except(o, n, x) implies post == (
    if vis_post.contains(x) {
        emission(o, n, x)
    } else {
        Seq::<DiffChangeView>::empty()
    }) by {
        if x == node_id {
            assert(pre == Seq::<DiffChangeView>::empty());
            assert(post =~= emission(o, n, x));
        } else {
            assert(emission(o, n, node_id).len() == 0);
            assert(post =~= pre);
        }
    }
}

/// Everything the walk maintains: visited keys are stored old keys, the
/// diff mirrors its change list and every change is well-shaped, queue
/// entries record true positions, and -- when the snapshots correspond --
/// the queue holds distinct unvisited keys, expansion bookkeeping ties
/// visited nodes to their pending children, and the change list is exactly
/// the lone emission of whichever changed node has been visited.
pub open spec fn walk_inv(
    o: TreeView,
    n: TreeView,
    d: TreeDiffView,
    vis: Set<NodeId>,
    q: Seq<(NodeId, Option<NodeId>, usize)>,
    expanded: Set<NodeId>,
) -> bool {
    &&& forall|c: NodeId| #[trigger] vis.contains(c) ==> o.nodes.dom().contains(c)
    &&& d == apply_changes(empty_diff(), d.changes)
    &&& forall|j: int| 0 <= j < d.changes.len() ==> walk_change_ok(o, n, #[trigger] d.changes[j])
    &&& forall|j: int| 0 <= j < q.len() ==> queue_entry_ok(o, #[trigger] q[j])
    &&& walk_shaped(o, n) ==> forall|j: int|
        0 <= j < q.len() ==> o.nodes.dom().contains((#[trigger] q[j]).0) && !vis.contains(q[j].0)
    &&& walk_shaped(o, n) ==> forall|j1: int, j2: int|
        0 <= j1 < j2 < q.len() ==> (#[trigger] q[j1]).0 != (#[trigger] q[j2]).0
    &&& aligned(o, n) ==> forall|v: NodeId| #[trigger] vis.contains(v) ==> expanded.contains(v)
    &&& walk_shaped(o, n) ==> forall|v: NodeId| #[trigger] expanded.contains(v) ==> vis.contains(
        v,
    )
    &&& walk_shaped(o, n) ==> forall|c: NodeId|
        #![trigger o.nodes[c].parent]
        (vis.contains(c) || in_queue(q, c)) ==> (o.root_id == Some(c) || (o.nodes.dom().contains(
            c,
        ) && o.nodes[c].parent is Some && expanded.contains(o.nodes[c].parent->Some_0)))
    &&& walk_shaped(o, n) ==> forall|v: NodeId, i: int|
        #[trigger] expanded.contains(v) && 0 <= i < children_of(o, v).len() ==> vis.contains(
            #[trigger] children_of(o, v)[i],
        ) || in_queue(q, children_of(o, v)[i])
    &&& walk_shaped(o, n) ==> match o.root_id {
        Some(r) => vis.contains(r) || in_queue(q, r),
        None => true,
    }
    &&& aligned(o, n) && o.nodes.dom().len() == 0 ==> d.changes == Seq::<DiffChangeView>::empty()
    &&& aligned(o, n) ==> forall|x: NodeId| #![auto]
        o.nodes.dom().contains(x) && emissions_empty_except(o, n, x) ==> d.changes == (
        if vis.contains(x) {
            emission(o, n, x)
        } else {
            Seq::<DiffChangeView>::empty()
        })
    &&& forall|p: NodeId, c: NodeId|
        #![trigger removed_leaf(o, n, p, c)]
        removed_leaf(o, n, p, c) ==> {
            &&& !vis.contains(c)
            &&& !in_queue(q, c)
            &&& forall|v: NodeId| #[trigger] vis.contains(v) ==> expanded.contains(v) || v == p
            &&& d.changes == (if vis.contains(p) {
                seq![rl_delete(o, p)]
            } else {
                Seq::<DiffChangeView>::empty()
            })
        }
}

/// The index facts the walk relies on.
pub open spec fn index_facts(
    n: TreeView,
    idx: Map<u64, NodeId>,
    cidx: Map<NodeId, Vec<NodeId>>,
) -> bool {
    &&& crate::dom::tree_inv(n) ==> idx == spec_node_index(n.nodes, n.order)
    &&& forall|h: u64| #[trigger]
        idx.contains_key(h) ==> n.nodes.dom().contains(idx[h]) && spec_structure_hash(
            n.nodes[idx[h]],
        ) == h
    &&& forall|k: NodeId| #[trigger]
        cidx.contains_key(k) ==> n.nodes.dom().contains(k) && cidx[k]@ == n.nodes[k].children
    &&& crate::dom::tree_inv(n) ==> forall|k: NodeId|
        n.nodes.dom().contains(k) && n.nodes[k].children.len() > 0 ==> #[trigger] cidx.contains_key(
            k,
        )
}

/// One step of the walk: pops the front queue entry and processes it.
#[verifier::rlimit(100)]
#[verifier::spinoff_prover]
fn walk_step(
    old_tree: &DomTree,
    new_tree: &DomTree,
    new_index: &HashMap<u64, NodeId>,
    new_children_index: &HashMap<NodeId, Vec<NodeId>>,
    diff: &mut TreeDiff,
    visited: &mut std::collections::HashSet<NodeId>,
    queue: &mut std::collections::VecDeque<(NodeId, Option<NodeId>, usize)>,
    Ghost(expanded_in): Ghost<Set<NodeId>>,
) -> (expanded_out: Ghost<Set<NodeId>>)
    requires
        old(queue)@.len() != 0,
        index_facts(new_tree@, new_index@, new_children_index@),
        walk_inv(old_tree@, new_tree@, old(diff)@, old(visited)@, old(queue)@, expanded_in),
    ensures
        walk_inv(
            old_tree@,
            new_tree@,
            final(diff)@,
            final(visited)@,
            final(queue)@,
            expanded_out@,
        ),
        old_tree@.nodes.dom().difference(final(visited)@).len() < old_tree@.nodes.dom().difference(
            old(visited)@,
        ).len() || (final(visited)@ == old(visited)@ && final(queue)@.len() < old(queue)@.len()),
{
    let ghost o = old_tree@;
    let ghost n = new_tree@;
    let ghost mut expanded: Set<NodeId> = expanded_in;
    proof {
        crate::dom::lemma_tree_dom_finite(old_tree);
        if aligned(o, n) {
            assert(crate::dom::tree_inv(n)) by {
                assert(forall|k: NodeId|
                    n.order.contains(k) <==> #[trigger] n.nodes.dom().contains(k));
            }
        }
    }

        let ghost vis0 = visited@;
        let ghost q0 = queue@;
        let entry = queue.pop_front().unwrap();
        let (node_id, parent_id, index) = entry;
        proof {
            assert(queue_entry_ok(o, q0[0]));
            if aligned(o, n) && o.nodes.dom().len() == 0 {
                match q0[0].1 {
                    None => {
                        assert(o.nodes.dom().contains(q0[0].0));
                        vstd::set::axiom_set_contains_len(o.nodes.dom(), q0[0].0);
                    },
                    Some(p) => {
                        vstd::set::axiom_set_contains_len(o.nodes.dom(), p);
                    },
                }
                assert(false);
            }
        }
        let old_node = match old_tree.get_node(node_id) {
            Some(nd) => nd,
            None => {
                proof {
                    if walk_shaped(o, n) {
                        assert(o.nodes.dom().contains(q0[0].0));
                        assert(false);
                    }
                }
                return Ghost(expanded);
            },
        };
        if visited.contains(&node_id) {
            proof {
                if walk_shaped(o, n) {
                    assert(!visited@.contains(q0[0].0));
                    assert(false);
                }
            }
            return Ghost(expanded);
        }
        visited.insert(node_id);
        proof {
            vstd::set::axiom_set_difference_finite(o.nodes.dom(), vis0);
            vstd::set::axiom_set_remove_len(o.nodes.dom().difference(vis0), node_id);
            assert(o.nodes.dom().difference(visited@) =~= o.nodes.dom().difference(vis0).remove(
                node_id,
            ));
            assert(o.nodes.dom().difference(vis0).contains(node_id));
        }
        let old_hash = hash_node_structure(old_node);
        proof {
            if aligned(o, n) {
                // the old node's structural key is its own key's in the new
                // tree, and the index resolves it to exactly that key
                crate::diff::hash::lemma_structure_hash_components(
                    o.nodes[node_id],
                    n.nodes[node_id],
                );
                assert(old_hash == spec_structure_hash(n.nodes[node_id]));
                assert(n.order.contains(node_id));
                lemma_node_index_covers(n.nodes, n.order, node_id);
                assert(new_index@.contains_key(old_hash));
            }
        }
        match new_index.get(&old_hash) {
            Some(new_id_ref) => {
                let new_id = *new_id_ref;
                proof {
                    if aligned(o, n) {
                        lemma_node_index_entry(n.nodes, n.order, old_hash);
                        let k2 = choose|k2: NodeId|
                            n.order.contains(k2) && spec_structure_hash(#[trigger] n.nodes[k2])
                                == old_hash && spec_node_index(n.nodes, n.order)[old_hash] == k2;
                        assert(n.nodes.dom().contains(k2));
                        assert(new_id == k2);
                        assert(new_id == node_id);
                    } else if leaf_removed(o, n) {
                        let (p, c) = choose|p: NodeId, c: NodeId| removed_leaf(o, n, p, c);
                        assert(removed_leaf(o, n, p, c));
                        // a matched node is neither the removed leaf (never
                        // queued) nor its parent (whose key cannot match)
                        assert(node_id != c) by {
                            if node_id == c {
                                assert(q0[0].0 == c);
                                assert(in_queue(q0, c));
                            }
                        }
                        lemma_node_index_entry(n.nodes, n.order, old_hash);
                        let k2 = choose|k2: NodeId|
                            n.order.contains(k2) && spec_structure_hash(#[trigger] n.nodes[k2])
                                == old_hash && spec_node_index(n.nodes, n.order)[old_hash] == k2;
                        assert(n.nodes.dom().contains(k2));
                        assert(node_id != p) by {
                            if node_id == p {
                                assert(spec_structure_hash(n.nodes[k2]) != spec_structure_hash(
                                    o.nodes[p],
                                ));
                            }
                        }
                        assert(n.nodes.dom().contains(node_id));
                        assert(n.nodes[node_id] == o.nodes[node_id]);
                        assert(old_hash == spec_structure_hash(n.nodes[node_id]));
                        assert(new_id == k2);
                        assert(new_id == node_id);
                    }
                }
                let ghost d0 = diff@;
                let ghost up = update_changes(o.nodes[node_id], n.nodes[new_id]);
                match new_tree.get_node(new_id) {
                    Some(new_node) => {
                        compare_nodes(old_node, new_node, diff);
                        proof {
                            assert(diff@ == apply_changes(d0, up));
                        }
                    },
                    None => {
                        proof {
                            assert(n.nodes.dom().contains(new_index@[old_hash]));
                            assert(false);
                        }
                    },
                };
                let ghost mv = if new_children_index@.contains_key(o.nodes[node_id].id) {
                    move_changes(
                        o.nodes[node_id].children,
                        new_children_index@[o.nodes[node_id].id]@,
                        o.nodes[node_id].id,
                    )
                } else {
                    Seq::<DiffChangeView>::empty()
                };
                check_children_reorder(old_node, new_children_index, diff);
                proof {
                    // change-list bookkeeping across the two emissions
                    lemma_apply_changes_concat(d0, up, mv);
                    assert(diff@ == apply_changes(d0, up + mv));
                    lemma_apply_changes_list(d0, up + mv);
                    assert(diff@.changes == d0.changes + (up + mv));
                    lemma_apply_changes_concat(empty_diff(), d0.changes, up + mv);
                    assert(diff@ == apply_changes(empty_diff(), diff@.changes));
                    // every appended change is well-shaped
                    assert(forall|j: int|
                        0 <= j < up.len() ==> walk_change_ok(o, n, #[trigger] up[j])) by {
                        if up.len() > 0 {
                            assert(up[0] == (DiffChangeView::Update {
                                node: n.nodes[new_id].id,
                                changes: node_changes(o.nodes[node_id], n.nodes[new_id]),
                            }));
                        }
                    }
                    assert(forall|j: int|
                        0 <= j < mv.len() ==> walk_change_ok(o, n, #[trigger] mv[j])) by {
                        if new_children_index@.contains_key(o.nodes[node_id].id) {
                            let mvc = new_children_index@[o.nodes[node_id].id]@;
                            let oldc = o.nodes[node_id].children;
                            if oldc.len() == mvc.len() {
                                lemma_moves_shape(
                                    oldc,
                                    mvc,
                                    o.nodes[node_id].id,
                                    oldc.len() as int,
                                );
                                assert(mv == move_changes_upto(
                                    oldc,
                                    mvc,
                                    o.nodes[node_id].id,
                                    oldc.len() as int,
                                ));
                            }
                        }
                    }
                    lemma_walk_append_ok(o, n, d0.changes, up, mv);
                }
                let cn = old_node.children.len();
                let mut ci: usize = 0;
                proof {
                    if walk_shaped(o, n) {
                        lemma_walk_shaped_wf(o, n);
                        assert(!expanded.contains(node_id)) by {
                            if expanded.contains(node_id) {
                                assert(vis0.contains(node_id));
                            }
                        }
                        // pending children of expanded nodes survive the pop:
                        // the popped entry itself is now visited
                        assert forall|v: NodeId, i: int|
                            #[trigger] expanded.contains(v) && 0 <= i < children_of(o, v).len()
                                implies visited@.contains(#[trigger] children_of(o, v)[i])
                            || in_queue(queue@, children_of(o, v)[i]) by {
                            let c = children_of(o, v)[i];
                            assert(vis0.contains(c) || in_queue(q0, c));
                            if !vis0.contains(c) {
                                let j = choose|j: int|
                                    0 <= j < q0.len() && (#[trigger] q0[j]).0 == c;
                                if j == 0 {
                                    assert(c == node_id);
                                } else {
                                    assert(queue@[j - 1].0 == c);
                                }
                            }
                        }
                        match o.root_id {
                            Some(r) => {
                                assert(visited@.contains(r) || in_queue(queue@, r)) by {
                                    assert(vis0.contains(r) || in_queue(q0, r));
                                    if !vis0.contains(r) {
                                        let j = choose|j: int|
                                            0 <= j < q0.len() && (#[trigger] q0[j]).0 == r;
                                        if j == 0 {
                                            assert(r == node_id);
                                        } else {
                                            assert(queue@[j - 1].0 == r);
                                        }
                                    }
                                }
                            },
                            None => {},
                        }
                        assert forall|j: int|
                            0 <= j < queue@.len() implies !((#[trigger] queue@[j]).1 == Some(
                            node_id,
                        )) by {
                            if queue@[j].1 == Some(node_id) {
                                let c0 = queue@[j].0;
                                assert(queue_entry_ok(o, q0[j + 1]));
                                assert(o.nodes[node_id].children[queue@[j].2 as int] == c0);
                                assert(o.nodes[c0].parent == Some(node_id));
                                assert(in_queue(q0, c0)) by {
                                    assert(q0[j + 1].0 == c0);
                                }
                                assert(o.root_id != Some(c0)) by {
                                    if o.root_id == Some(c0) {
                                        assert(o.nodes[c0].parent is None);
                                    }
                                }
                                assert(expanded.contains(node_id));
                                assert(vis0.contains(node_id));
                                assert(false);
                            }
                        }
                    }
                }
                while ci < cn
                    invariant
                        ci <= cn,
                        cn == old_node.children@.len(),
                        old_node@ == o.nodes[node_id],
                        o.nodes.dom().contains(node_id),
                        walk_shaped(o, n) ==> !expanded.contains(node_id),
                        walk_shaped(o, n) ==> forall|c: NodeId|
                            #![trigger o.nodes[c].parent]
                            vis0.contains(c) ==> (o.root_id == Some(c) || (
                            o.nodes.dom().contains(c) && o.nodes[c].parent is Some
                                && expanded.contains(o.nodes[c].parent->Some_0))),
                        forall|j: int|
                            0 <= j < queue@.len() ==> queue_entry_ok(o, #[trigger] queue@[j]),
                        walk_shaped(o, n) ==> forall|j: int|
                            0 <= j < queue@.len() ==> o.nodes.dom().contains(
                                (#[trigger] queue@[j]).0,
                            ) && !vis0.contains(queue@[j].0) && queue@[j].0 != node_id,
                        walk_shaped(o, n) ==> forall|j1: int, j2: int|
                            0 <= j1 < j2 < queue@.len() ==> (#[trigger] queue@[j1]).0 != (
                            #[trigger] queue@[j2]).0,
                        walk_shaped(o, n) ==> forall|j: int|
                            0 <= j < queue@.len() && (#[trigger] queue@[j]).1 == Some(node_id)
                                ==> queue@[j].2 < ci,
                        walk_shaped(o, n) ==> forall|j: int|
                            0 <= j < queue@.len() ==> ((#[trigger] queue@[j]).1 == Some(node_id)
                                || o.root_id == Some(queue@[j].0) || (o.nodes.dom().contains(
                                queue@[j].0,
                            ) && o.nodes[queue@[j].0].parent is Some && expanded.contains(
                                o.nodes[queue@[j].0].parent->Some_0,
                            ))),
                        walk_shaped(o, n) ==> forall|v: NodeId, i: int|
                            #[trigger] expanded.contains(v) && 0 <= i < children_of(o, v).len()
                                ==> visited@.contains(#[trigger] children_of(o, v)[i])
                                || in_queue(queue@, children_of(o, v)[i]),
                        walk_shaped(o, n) ==> forall|i: int|
                            0 <= i < ci ==> in_queue(
                                queue@,
                                #[trigger] o.nodes[node_id].children[i],
                            ),
                        walk_shaped(o, n) ==> match o.root_id {
                            Some(r) => visited@.contains(r) || in_queue(queue@, r),
                            None => true,
                        },
                        forall|p: NodeId, c: NodeId|
                            #![trigger removed_leaf(o, n, p, c)]
                            removed_leaf(o, n, p, c) ==> node_id != p && node_id != c
                                && !in_queue(queue@, c),
                    decreases cn - ci,
                {
                    let ghost q1 = queue@;
                    let child = old_node.children[ci];
                    queue.push_back((child, Some(node_id), ci));
                    proof {
                        assert(queue@ =~= q1.push((child, Some(node_id), ci)));
                        if walk_shaped(o, n) {
                            lemma_walk_shaped_wf(o, n);
                            assert forall|p: NodeId, c2: NodeId|
                                #![trigger removed_leaf(o, n, p, c2)]
                                removed_leaf(o, n, p, c2) implies child != c2 && !in_queue(
                                queue@,
                                c2,
                            ) by {
                                assert(o.nodes[child].parent == Some(node_id));
                                assert(child != c2) by {
                                    if child == c2 {
                                        assert(o.nodes[p].children[0] == c2);
                                        assert(o.nodes[c2].parent == Some(p));
                                    }
                                }
                                assert(!in_queue(q1, c2));
                                assert forall|j: int|
                                    0 <= j < queue@.len() implies (#[trigger] queue@[j]).0
                                    != c2 by {
                                    if j < q1.len() {
                                        assert(q1[j].0 != c2);
                                    }
                                }
                            }
                            lemma_fresh_child(o, q1, vis0, expanded, node_id, ci as int);
                            assert(o.nodes.dom().contains(child));
                            assert(o.nodes[child].parent == Some(node_id));
                            assert(child != node_id) by {
                                if child == node_id {
                                    assert(o.nodes[node_id].parent != Some(node_id));
                                }
                            }
                            assert(queue@[queue@.len() - 1].0 == child);
                            assert forall|c: NodeId| in_queue(q1, c) implies in_queue(
                                queue@,
                                c,
                            ) by {
                                let j = choose|j: int|
                                    0 <= j < q1.len() && (#[trigger] q1[j]).0 == c;
                                assert(queue@[j].0 == c);
                            }
                            assert forall|i: int| 0 <= i < ci + 1 implies in_queue(
                                queue@,
                                #[trigger] o.nodes[node_id].children[i],
                            ) by {
                                if i < ci {
                                    let och = o.nodes[node_id].children;
                                    let jj = choose|jj: int|
                                        0 <= jj < q1.len() && (#[trigger] q1[jj]).0 == och[i];
                                    assert(queue@[jj].0 == och[i]);
                                }
                            }
                        }
                    }
                    ci += 1;
                }
                proof {
                    if aligned(o, n) {
                        // this visit appended exactly this node's emission
                        assert(diff@.changes == d0.changes + emission(o, n, node_id)) by {
                            assert(o.nodes[node_id].id == node_id);
                            if new_children_index@.contains_key(node_id) {
                                assert(children_of(n, node_id) == new_children_index@[node_id]@);
                            } else {
                                assert(crate::dom::tree_inv(n));
                                assert(n.nodes.dom().contains(node_id));
                                assert(n.nodes[node_id].children.len() == 0);
                                assert(children_of(n, node_id) =~= Seq::<NodeId>::empty());
                                assert(o.nodes[node_id].children.len() == 0);
                                assert(mv == Seq::<DiffChangeView>::empty());
                                assert(move_changes(
                                    o.nodes[node_id].children,
                                    children_of(n, node_id),
                                    node_id,
                                ) =~= Seq::<DiffChangeView>::empty());
                            }
                        }
                        lemma_lone_step(
                            o,
                            n,
                            node_id,
                            d0.changes,
                            diff@.changes,
                            vis0,
                            visited@,
                        );
                    } else if leaf_removed(o, n) {
                        // a matched node other than the removed leaf's parent
                        // is unchanged, so nothing was appended
                        assert forall|p: NodeId, c: NodeId|
                            #![trigger removed_leaf(o, n, p, c)]
                            removed_leaf(o, n, p, c) implies diff@.changes == (if visited@.contains(
                            p,
                        ) {
                            seq![rl_delete(o, p)]
                        } else {
                            Seq::<DiffChangeView>::empty()
                        }) by {
                            assert(n.nodes[new_id] == o.nodes[node_id]);
                            lemma_node_changes_same_content(o.nodes[node_id], n.nodes[new_id]);
                            assert(up =~= Seq::<DiffChangeView>::empty());
                            assert(mv =~= Seq::<DiffChangeView>::empty()) by {
                                if new_children_index@.contains_key(o.nodes[node_id].id) {
                                    assert(new_children_index@[o.nodes[node_id].id]@
                                        == n.nodes[node_id].children);
                                    lemma_move_changes_refl(
                                        o.nodes[node_id].children,
                                        o.nodes[node_id].id,
                                        o.nodes[node_id].children.len() as int,
                                    );
                                }
                            }
                            assert(diff@.changes =~= d0.changes);
                            assert(visited@.contains(p) == vis0.contains(p));
                        }
                    }
                    expanded = expanded.insert(node_id);
                    if walk_shaped(o, n) {
                        // the newly expanded node's children are all pending
                        assert forall|v: NodeId, i: int|
                            #[trigger] expanded.contains(v) && 0 <= i < children_of(o, v).len()
                                implies visited@.contains(#[trigger] children_of(o, v)[i])
                            || in_queue(queue@, children_of(o, v)[i]) by {
                            if v == node_id {
                                assert(in_queue(queue@, o.nodes[node_id].children[i]));
                            }
                        }
                    }
                }
            },
            None => {
                proof {
                    if aligned(o, n) {
                        assert(false);
                    }
                }
                let parent = match parent_id {
                    Some(p) => p,
                    None => node_id,
                };
                let change = DiffChange::Delete { parent, index, node: node_id };
                let ghost d0 = diff@;
                proof {
                    assert(walk_change_ok(o, n, change@)) by {
                        assert(old_hash == spec_structure_hash(o.nodes[node_id]));
                        if crate::dom::tree_inv(n) {
                            assert(!new_index@.contains_key(old_hash));
                        }
                    }
                    lemma_apply_changes_push(empty_diff(), d0.changes, change@);
                }
                diff.add_change(change);
                proof {
                    assert(diff@.changes =~= d0.changes.push(change@));
                    if leaf_removed(o, n) {
                        lemma_walk_shaped_wf(o, n);
                        // the only key whose structural key the index misses
                        // is the removed leaf's parent
                        assert forall|p: NodeId, c: NodeId|
                            #![trigger removed_leaf(o, n, p, c)]
                            removed_leaf(o, n, p, c) implies node_id == p && !in_queue(
                            queue@,
                            c,
                        ) && (forall|v: NodeId| #[trigger]
                            visited@.contains(v) ==> expanded.contains(v) || v == p)
                            && diff@.changes == seq![rl_delete(o, p)] by {
                            assert(node_id != c) by {
                                if node_id == c {
                                    assert(q0[0].0 == c);
                                    assert(in_queue(q0, c));
                                }
                            }
                            assert(node_id == p) by {
                                if node_id != p {
                                    assert(n.nodes.dom().contains(node_id));
                                    assert(n.nodes[node_id] == o.nodes[node_id]);
                                    assert(n.order.contains(node_id));
                                    lemma_node_index_covers(n.nodes, n.order, node_id);
                                    assert(spec_node_index(n.nodes, n.order).contains_key(
                                        spec_structure_hash(n.nodes[node_id]),
                                    ));
                                    assert(new_index@.contains_key(old_hash));
                                }
                            }
                            // the recorded position is the parent's unique
                            // slot for this node
                            assert(change@ == rl_delete(o, p)) by {
                                match q0[0].1 {
                                    None => {
                                        assert(o.root_id == Some(p));
                                        assert(o.nodes[p].parent is None);
                                        assert(parent == p && index == 0);
                                    },
                                    Some(pq) => {
                                        assert(o.nodes[pq].children[q0[0].2 as int] == p);
                                        assert(o.nodes[p].parent == Some(pq));
                                        assert(del_parent(o, p) == pq);
                                        assert(o.nodes[pq].children.no_duplicates());
                                        let pqc = o.nodes[pq].children;
                                        assert(forall|q: int|
                                            0 <= q < q0[0].2 as int ==> (#[trigger] pqc[q])
                                                != pqc[q0[0].2 as int]);
                                        crate::dom::lemma_first_index_found(
                                            o.nodes[pq].children,
                                            p,
                                            q0[0].2 as int,
                                        );
                                        assert(del_index(o, p) == q0[0].2 as int);
                                    },
                                }
                            }
                            assert(d0.changes == Seq::<DiffChangeView>::empty()) by {
                                assert(!vis0.contains(p));
                            }
                            assert(diff@.changes =~= seq![rl_delete(o, p)]);
                            assert forall|j: int|
                                0 <= j < queue@.len() implies (#[trigger] queue@[j]).0 != c by {
                                assert(q0[j + 1].0 == queue@[j].0);
                                assert(in_queue(q0, c) == false);
                                assert(q0[j + 1].0 != c);
                            }
                        }
                        // queue discipline survives the pop
                        assert forall|v: NodeId, i: int|
                            #[trigger] expanded.contains(v) && 0 <= i < children_of(o, v).len()
                                implies visited@.contains(#[trigger] children_of(o, v)[i])
                            || in_queue(queue@, children_of(o, v)[i]) by {
                            let ch = children_of(o, v)[i];
                            assert(vis0.contains(ch) || in_queue(q0, ch));
                            if !vis0.contains(ch) {
                                let j = choose|j: int|
                                    0 <= j < q0.len() && (#[trigger] q0[j]).0 == ch;
                                if j == 0 {
                                    assert(ch == node_id);
                                } else {
                                    assert(queue@[j - 1].0 == ch);
                                }
                            }
                        }
                        match o.root_id {
                            Some(r) => {
                                assert(visited@.contains(r) || in_queue(queue@, r)) by {
                                    assert(vis0.contains(r) || in_queue(q0, r));
                                    if !vis0.contains(r) {
                                        let j = choose|j: int|
                                            0 <= j < q0.len() && (#[trigger] q0[j]).0 == r;
                                        if j == 0 {
                                            assert(r == node_id);
                                        } else {
                                            assert(queue@[j - 1].0 == r);
                                        }
                                    }
                                }
                            },
                            None => {},
                        }
                        assert forall|cx: NodeId|
                            #![trigger o.nodes[cx].parent]
                            (visited@.contains(cx) || in_queue(queue@, cx)) implies (o.root_id
                            == Some(cx) || (o.nodes.dom().contains(cx) && o.nodes[cx].parent
                            is Some && expanded.contains(o.nodes[cx].parent->Some_0))) by {
                            if in_queue(queue@, cx) {
                                let j = choose|j: int|
                                    0 <= j < queue@.len() && (#[trigger] queue@[j]).0 == cx;
                                assert(q0[j + 1].0 == cx);
                                assert(in_queue(q0, cx));
                            }
                            if cx == node_id {
                                assert(q0[0].0 == node_id);
                                assert(in_queue(q0, node_id));
                            }
                        }
                    }
                }
            },
        }
    
    Ghost(expanded)
}

/// The breadth-first walk phase: starting from the old tree's root, matches
/// every reachable old node against the new tree's structural-key index,
/// records updates, moves and deletes, and collects the set of visited
/// keys.
#[verifier::rlimit(100)]
#[verifier::loop_isolation(false)]
fn walk_old_tree(
    old_tree: &DomTree,
    new_tree: &DomTree,
    new_index: &HashMap<u64, NodeId>,
    new_children_index: &HashMap<NodeId, Vec<NodeId>>,
    diff: &mut TreeDiff,
    visited: &mut std::collections::HashSet<NodeId>,
)
    requires
        old(diff)@ == empty_diff(),
        old(visited)@ == Set::<NodeId>::empty(),
        index_facts(new_tree@, new_index@, new_children_index@),
    ensures
        forall|c: NodeId| #[trigger]
            final(visited)@.contains(c) ==> old_tree@.nodes.dom().contains(c),
        final(diff)@ == apply_changes(empty_diff(), final(diff)@.changes),
        forall|j: int|
            0 <= j < final(diff)@.changes.len() ==> walk_change_ok(
                old_tree@,
                new_tree@,
                #[trigger] final(diff)@.changes[j],
            ),
        aligned(old_tree@, new_tree@) ==> forall|k: NodeId| #[trigger]
            old_tree@.nodes.dom().contains(k) ==> final(visited)@.contains(k),
        aligned(old_tree@, new_tree@) && old_tree@.nodes.dom().len() == 0
            ==> final(diff)@.changes == Seq::<DiffChangeView>::empty(),
        aligned(old_tree@, new_tree@) ==> forall|x: NodeId| #![auto]
            old_tree@.nodes.dom().contains(x) && emissions_empty_except(
                old_tree@,
                new_tree@,
                x,
            ) ==> final(diff)@.changes == (if final(visited)@.contains(x) {
                emission(old_tree@, new_tree@, x)
            } else {
                Seq::<DiffChangeView>::empty()
            }),
        forall|p: NodeId, c: NodeId|
            #![trigger removed_leaf(old_tree@, new_tree@, p, c)]
            removed_leaf(old_tree@, new_tree@, p, c) ==> final(diff)@.changes == seq![
                rl_delete(old_tree@, p),
            ] && !final(visited)@.contains(c) && (forall|k: NodeId| #[trigger]
                old_tree@.nodes.dom().contains(k) && k != c ==> final(visited)@.contains(k)),
{
    let ghost o = old_tree@;
    let ghost n = new_tree@;
    proof {
        crate::dom::lemma_tree_dom_finite(old_tree);
    }
    let mut queue: std::collections::VecDeque<(NodeId, Option<NodeId>, usize)> =
        std::collections::VecDeque::new();
    if let Some(root) = old_tree.root() {
        queue.push_back((root, None, 0));
        proof {
            assert(queue@[0].0 == root);
            assert(queue_entry_ok(o, queue@[0]));
            assert forall|p: NodeId, c: NodeId|
                #![trigger removed_leaf(o, n, p, c)]
                removed_leaf(o, n, p, c) implies !in_queue(queue@, c) by {
                assert(o.nodes[p].children[0] == c);
                assert(o.nodes[c].parent == Some(p));
                assert(root != c) by {
                    if root == c {
                        assert(o.nodes[c].parent is None);
                    }
                }
                assert forall|j: int|
                    0 <= j < queue@.len() implies (#[trigger] queue@[j]).0 != c by {
                    assert(queue@[j].0 == root);
                }
            }
        }
    }
    let mut expanded: Ghost<Set<NodeId>> = Ghost(Set::empty());
    while queue.len() != 0
        invariant
            walk_inv(o, n, diff@, visited@, queue@, expanded@),
        decreases o.nodes.dom().difference(visited@).len(), queue@.len(),
    {
        expanded = walk_step(
            old_tree,
            new_tree,
            new_index,
            new_children_index,
            diff,
            visited,
            &mut queue,
            expanded,
        );
    }
    proof {
        if aligned(o, n) {
            lemma_walk_complete(o, visited@, expanded@);
        }
        assert forall|p: NodeId, c: NodeId|
            #![trigger removed_leaf(o, n, p, c)]
            removed_leaf(o, n, p, c) implies diff@.changes == seq![rl_delete(o, p)]
            && !visited@.contains(c) && (forall|k: NodeId| #[trigger]
            o.nodes.dom().contains(k) && k != c ==> visited@.contains(k)) by {
            lemma_walk_complete_excl(o, visited@, expanded@, p, c);
            assert(visited@.contains(p));
        }
    }
}

/// Computes the changes between two snapshots.
///
/// The walk indexes every stored new node by structural key, walks the old
/// tree breadth-first from its root, matches each old node against the
/// index (a missing key is a delete of the whole subtree, whose children
/// are not walked), compares matched pairs attribute by attribute and emits
/// reorder moves, and finally records an insert for every stored new node
/// the walk never visited. Each stored old key is processed at most once,
/// so a malformed (cyclic) snapshot still terminates.
///
/// The contract states, unconditionally, what every recorded change means
/// (`diff_change_ok`), that the derived indices mirror the change list, and
/// that a node stored only in the new tree is recorded as exactly one
/// insert. When the snapshots correspond node for node (`aligned`) and at
/// most one node changed, the change list is exactly that node's emission:
/// identical snapshots yield an empty diff, a lone attribute or text edit
/// yields exactly one update, and a lone child reorder yields exactly the
/// per-position moves.
pub fn compute_tree_diff(old: &DomTree, new: &DomTree) -> (diff: TreeDiff)
    ensures
        diff@ == apply_changes(empty_diff(), diff@.changes),
        forall|j: int|
            0 <= j < diff@.changes.len() ==> diff_change_ok(
                old@,
                new@,
                #[trigger] diff@.changes[j],
            ),
        forall|c: NodeId| #![auto]
            crate::dom::tree_inv(new@) && new@.nodes.dom().contains(c)
                && !old@.nodes.dom().contains(c) && new@.nodes[c].parent is Some
                ==> count_inserts_for(diff@.changes, c) == 1,
        aligned(old@, new@) && no_emissions(old@, new@) ==> diff@.changes == Seq::<
            DiffChangeView,
        >::empty(),
        forall|x: NodeId| #![auto]
            aligned(old@, new@) && old@.nodes.dom().contains(x) && emissions_empty_except(
                old@,
                new@,
                x,
            ) ==> diff@.changes == emission(old@, new@, x),
        forall|p: NodeId, c: NodeId|
            #![trigger removed_leaf(old@, new@, p, c)]
            removed_leaf(old@, new@, p, c) ==> diff@.changes == seq![rl_delete(old@, p)],
{
    let ghost o = old@;
    let ghost n = new@;
    let mut diff = TreeDiff::with_capacity(64);
    let new_index = build_node_index(new);
    let new_children_index = build_children_index(new);
    let mut visited: std::collections::HashSet<NodeId> = std::collections::HashSet::new();
    proof {
        assert(visited@ =~= Set::<NodeId>::empty());
    }
    walk_old_tree(old, new, &new_index, &new_children_index, &mut diff, &mut visited);
    let ghost dw = diff@;
    detect_insertions(new, &visited, &mut diff);
    proof {
        let ic = insert_changes(n, visited@, n.order);
        lemma_apply_changes_list(dw, ic);
        assert(diff@.changes == dw.changes + ic);
        lemma_apply_changes_concat(empty_diff(), dw.changes, ic);
        assert(diff@ == apply_changes(empty_diff(), diff@.changes));
        lemma_finish(o, n, dw.changes, diff@.changes, visited@);
        assert forall|p: NodeId, c: NodeId|
            #![trigger removed_leaf(o, n, p, c)]
            removed_leaf(o, n, p, c) implies diff@.changes == seq![rl_delete(o, p)] by {
            assert(forall|j: int|
                0 <= j < n.order.len() ==> visited@.contains(#[trigger] n.order[j])) by {
                assert(forall|j: int|
                    0 <= j < n.order.len() ==> n.order.contains(#[trigger] n.order[j]));
                assert(forall|k: NodeId| #[trigger]
                    n.order.contains(k) ==> n.nodes.dom().contains(k));
                assert(forall|k: NodeId| #[trigger]
                    n.nodes.dom().contains(k) ==> o.nodes.dom().contains(k) && k != c);
            }
            lemma_insert_changes_all_visited(n, visited@, n.order);
            assert(diff@.changes =~= dw.changes);
        }
        if aligned(o, n) {
            assert forall|x: NodeId| #![auto]
                o.nodes.dom().contains(x) && emissions_empty_except(o, n, x)
                    implies diff@.changes == emission(o, n, x) by {
                assert(visited@.contains(x));
                assert(dw.changes == emission(o, n, x));
            }
        }
    }
    diff
}


proof fn lemma_attr_first_exists(attrs: Seq<(Seq<char>, Seq<char>)>, nm: Seq<char>)
    requires
        exists|i: int| 0 <= i < attrs.len() && (#[trigger] attrs[i]).0 == nm,
    ensures
        attr_first(attrs, nm) is Some,
    decreases attrs.len(),
{
    let i = choose|i: int| 0 <= i < attrs.len() && (#[trigger] attrs[i]).0 == nm;
    if attrs[0].0 != nm {
        assert(attrs.drop_first()[i - 1] == attrs[i]);
        lemma_attr_first_exists(attrs.drop_first(), nm);
    }
}

proof fn lemma_changed_attr_part_refl(a: Seq<(Seq<char>, Seq<char>)>, names: Seq<Seq<char>>)
    ensures
        changed_attr_part(a, a, names) == Seq::<NodeChangeView>::empty(),
    decreases names.len(),
{
    if names.len() > 0 {
        lemma_changed_attr_part_refl(a, names.drop_last());
        assert(changed_attr_part(a, a, names) =~= Seq::<NodeChangeView>::empty());
    }
}

proof fn lemma_removed_attr_part_none(
    olda: Seq<(Seq<char>, Seq<char>)>,
    newa: Seq<(Seq<char>, Seq<char>)>,
    names: Seq<Seq<char>>,
)
    requires
        forall|j: int| 0 <= j < names.len() ==> attr_first(newa, #[trigger] names[j]) is Some,
    ensures
        removed_attr_part(olda, newa, names) == Seq::<NodeChangeView>::empty(),
    decreases names.len(),
{
    if names.len() > 0 {
        lemma_removed_attr_part_none(olda, newa, names.drop_last());
        assert(names[names.len() - 1] == names.last());
        assert(removed_attr_part(olda, newa, names) =~= Seq::<NodeChangeView>::empty());
    }
}

/// A node compared against a node with the same attributes and text yields
/// no content changes.
pub proof fn lemma_node_changes_same_content(a: NodeView, b: NodeView)
    requires
        a.attributes == b.attributes,
        a.text_content == b.text_content,
    ensures
        node_changes(a, b) == Seq::<NodeChangeView>::empty(),
{
    lemma_changed_attr_part_refl(a.attributes, attr_names(b.attributes));
    assert forall|j: int|
        0 <= j < attr_names(a.attributes).len() implies attr_first(
        b.attributes,
        #[trigger] attr_names(a.attributes)[j],
    ) is Some by {
        let nm = attr_names(a.attributes)[j];
        lemma_attr_names_contains(a.attributes, nm);
        assert(attr_names(a.attributes).contains(nm));
        lemma_attr_first_exists(a.attributes, nm);
    }
    lemma_removed_attr_part_none(a.attributes, b.attributes, attr_names(a.attributes));
    assert(node_changes(a, b) =~= Seq::<NodeChangeView>::empty());
}

/// Equal child lists yield no moves.
pub proof fn lemma_move_changes_refl(c: Seq<NodeId>, parent: NodeId, k: int)
    ensures
        move_changes_upto(c, c, parent, k) == Seq::<DiffChangeView>::empty(),
    decreases k,
{
    if k > 0 {
        lemma_move_changes_refl(c, parent, k - 1);
        assert(move_changes_upto(c, c, parent, k) =~= Seq::<DiffChangeView>::empty());
    }
}

/// Identical snapshots have no emissions. Together with
/// `compute_tree_diff`'s contract this says that diffing a well-shaped,
/// collision-free tree against an identical snapshot yields an empty change
/// list.
pub proof fn lemma_identical_trees_no_emissions(o: TreeView, n: TreeView)
    requires
        n.nodes.dom() == o.nodes.dom(),
        forall|k: NodeId| #[trigger] o.nodes.dom().contains(k) ==> n.nodes[k] == o.nodes[k],
    ensures
        no_emissions(o, n),
{
    assert forall|k: NodeId|
        o.nodes.dom().contains(k) implies (#[trigger] emission(o, n, k)).len() == 0 by {
        lemma_node_changes_same_content(o.nodes[k], n.nodes[k]);
        lemma_move_changes_refl(o.nodes[k].children, k, o.nodes[k].children.len() as int);
        assert(children_of(n, k) == o.nodes[k].children);
        assert(emission(o, n, k) =~= Seq::<DiffChangeView>::empty());
    }
}

/// When the snapshots agree on every node but `x`, and on `x`'s child list,
/// only `x` can emit, and its emission is exactly one update carrying its
/// content changes (or nothing when the contents agree too). Together with
/// `compute_tree_diff`'s contract this says that editing one node's
/// attributes or text yields exactly one update.
pub proof fn lemma_lone_content_edit(o: TreeView, n: TreeView, x: NodeId)
    requires
        n.nodes.dom() == o.nodes.dom(),
        o.nodes.dom().contains(x),
        forall|k: NodeId| #[trigger]
            o.nodes.dom().contains(k) && k != x ==> n.nodes[k] == o.nodes[k],
        n.nodes[x].children == o.nodes[x].children,
    ensures
        emissions_empty_except(o, n, x),
        emission(o, n, x) == update_changes(o.nodes[x], n.nodes[x]),
{
    assert forall|k: NodeId|
        o.nodes.dom().contains(k) && k != x implies (#[trigger] emission(o, n, k)).len()
        == 0 by {
        lemma_node_changes_same_content(o.nodes[k], n.nodes[k]);
        lemma_move_changes_refl(o.nodes[k].children, k, o.nodes[k].children.len() as int);
        assert(children_of(n, k) == o.nodes[k].children);
        assert(emission(o, n, k) =~= Seq::<DiffChangeView>::empty());
    }
    lemma_move_changes_refl(o.nodes[x].children, x, o.nodes[x].children.len() as int);
    assert(children_of(n, x) == o.nodes[x].children);
    assert(emission(o, n, x) =~= update_changes(o.nodes[x], n.nodes[x]));
}

/// When the snapshots agree on every node but parent `p`, and on `p`'s
/// attributes and text, only `p` can emit, and its emission is exactly the
/// per-position moves of its reordered child list. Together with
/// `compute_tree_diff`'s contract this says that reordering one parent's
/// children (total count unchanged) yields exactly the moves at the
/// differing positions.
pub proof fn lemma_lone_reorder(o: TreeView, n: TreeView, p: NodeId)
    requires
        n.nodes.dom() == o.nodes.dom(),
        o.nodes.dom().contains(p),
        forall|k: NodeId| #[trigger]
            o.nodes.dom().contains(k) && k != p ==> n.nodes[k] == o.nodes[k],
        n.nodes[p].attributes == o.nodes[p].attributes,
        n.nodes[p].text_content == o.nodes[p].text_content,
    ensures
        emissions_empty_except(o, n, p),
        emission(o, n, p) == move_changes(o.nodes[p].children, n.nodes[p].children, p),
    {
    assert forall|k: NodeId|
        o.nodes.dom().contains(k) && k != p implies (#[trigger] emission(o, n, k)).len()
        == 0 by {
        lemma_node_changes_same_content(o.nodes[k], n.nodes[k]);
        lemma_move_changes_refl(o.nodes[k].children, k, o.nodes[k].children.len() as int);
        assert(children_of(n, k) == o.nodes[k].children);
        assert(emission(o, n, k) =~= Seq::<DiffChangeView>::empty());
    }
    lemma_node_changes_same_content(o.nodes[p], n.nodes[p]);
    assert(children_of(n, p) == n.nodes[p].children);
    assert(emission(o, n, p) =~= move_changes(o.nodes[p].children, n.nodes[p].children, p));
}

} // verus!
