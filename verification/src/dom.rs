//! Document tree data model.
//!
//! A tree owns all of its nodes in one key-to-node map; parent, child and
//! sibling relationships are plain integer keys into that map, never owning
//! references, so the structure cannot form ownership cycles and is cheap to
//! clone. Nothing at construction time forces the structure to be acyclic or
//! fully connected; callers are responsible for maintaining tree shape.

use std::collections::HashMap;
use vstd::prelude::*;

verus! {

/// Process-unique node key.
pub type NodeId = u64;

/// The kind of a document node.
#[derive(Debug, Clone, Copy, PartialEq, Eq, Structural)]
pub enum NodeType {
    Element,
    Text,
    Comment,
    CData,
    Document,
}

/// One recorded attribute edit: `old_value`/`new_value` are `None` for an
/// attribute that was absent on that side.
#[derive(Debug, Clone)]
pub struct AttrChange {
    pub name: String,
    pub old_value: Option<String>,
    pub new_value: Option<String>,
}

/// A lightweight document node. Child nodes are referenced by key only.
#[derive(Debug)]
pub struct DomNode {
    /// The node's own key.
    pub id: NodeId,
    /// The node kind.
    pub node_type: NodeType,
    /// Tag name; elements only.
    pub tag_name: Option<String>,
    /// Text payload; text and comment nodes.
    pub text_content: Option<String>,
    /// Ordered attribute pairs; insertion order is kept and duplicate names
    /// may coexist.
    pub attributes: Vec<(String, String)>,
    /// Key of the parent node, if attached.
    pub parent: Option<NodeId>,
    /// Ordered keys of the child nodes.
    pub children: Vec<NodeId>,
    /// Cached key of the previous sibling.
    pub prev_sibling: Option<NodeId>,
    /// Cached key of the next sibling.
    pub next_sibling: Option<NodeId>,
}

/// Mathematical view of a node: strings become character sequences and
/// vectors become sequences.
pub ghost struct NodeView {
    pub id: NodeId,
    pub node_type: NodeType,
    pub tag_name: Option<Seq<char>>,
    pub text_content: Option<Seq<char>>,
    pub attributes: Seq<(Seq<char>, Seq<char>)>,
    pub parent: Option<NodeId>,
    pub children: Seq<NodeId>,
    pub prev_sibling: Option<NodeId>,
    pub next_sibling: Option<NodeId>,
}

impl View for DomNode {
    type V = NodeView;

    open spec fn view(&self) -> NodeView {
        NodeView {
            id: self.id,
            node_type: self.node_type,
            tag_name: match self.tag_name {
                Some(t) => Some(t@),
                None => None,
            },
            text_content: match self.text_content {
                Some(t) => Some(t@),
                None => None,
            },
            attributes: self.attributes@.map_values(|p: (String, String)| (p.0@, p.1@)),
            parent: self.parent,
            children: self.children@,
            prev_sibling: self.prev_sibling,
            next_sibling: self.next_sibling,
        }
    }
}

/// First value bound to `name` in an ordered attribute list, if any.
pub open spec fn attr_first(attrs: Seq<(Seq<char>, Seq<char>)>, name: Seq<char>) -> Option<
    Seq<char>,
>
    decreases attrs.len(),
{
    if attrs.len() == 0 {
        None
    } else if attrs[0].0 == name {
        Some(attrs[0].1)
    } else {
        attr_first(attrs.drop_first(), name)
    }
}

/// All attribute pairs whose name is not `name`.
pub open spec fn attrs_without(
    attrs: Seq<(Seq<char>, Seq<char>)>,
    name: Seq<char>,
) -> Seq<(Seq<char>, Seq<char>)> {
    attrs.filter(|p: (Seq<char>, Seq<char>)| p.0 != name)
}

impl DomNode {
    /// A fresh element node with the given key and tag name.
    pub fn new_element(id: NodeId, tag_name: &str) -> (n: DomNode)
        ensures
            n@ == (NodeView {
                id,
                node_type: NodeType::Element,
                tag_name: Some(tag_name@),
                text_content: None,
                attributes: Seq::empty(),
                parent: None,
                children: Seq::empty(),
                prev_sibling: None,
                next_sibling: None,
            }),
    {
        let n = DomNode {
            id,
            node_type: NodeType::Element,
            tag_name: Some(tag_name.to_owned()),
            text_content: None,
            attributes: Vec::new(),
            parent: None,
            children: Vec::new(),
            prev_sibling: None,
            next_sibling: None,
        };
        proof {
            assert(n@.attributes =~= Seq::<(Seq<char>, Seq<char>)>::empty());
        }
        n
    }

    /// A fresh text node with the given key and payload.
    pub fn new_text(id: NodeId, text: &str) -> (n: DomNode)
        ensures
            n@ == (NodeView {
                id,
                node_type: NodeType::Text,
                tag_name: None,
                text_content: Some(text@),
                attributes: Seq::empty(),
                parent: None,
                children: Seq::empty(),
                prev_sibling: None,
                next_sibling: None,
            }),
    {
        let n = DomNode {
            id,
            node_type: NodeType::Text,
            tag_name: None,
            text_content: Some(text.to_owned()),
            attributes: Vec::new(),
            parent: None,
            children: Vec::new(),
            prev_sibling: None,
            next_sibling: None,
        };
        proof {
            assert(n@.attributes =~= Seq::<(Seq<char>, Seq<char>)>::empty());
        }
        n
    }

    /// A fresh comment node with the given key and payload.
    pub fn new_comment(id: NodeId, text: &str) -> (n: DomNode)
        ensures
            n@ == (NodeView {
                id,
                node_type: NodeType::Comment,
                tag_name: None,
                text_content: Some(text@),
                attributes: Seq::empty(),
                parent: None,
                children: Seq::empty(),
                prev_sibling: None,
                next_sibling: None,
            }),
    {
        let n = DomNode {
            id,
            node_type: NodeType::Comment,
            tag_name: None,
            text_content: Some(text.to_owned()),
            attributes: Vec::new(),
            parent: None,
            children: Vec::new(),
            prev_sibling: None,
            next_sibling: None,
        };
        proof {
            assert(n@.attributes =~= Seq::<(Seq<char>, Seq<char>)>::empty());
        }
        n
    }

    /// The first value bound to `name`, if the attribute is present.
    pub fn get_attr(&self, name: &str) -> (r: Option<&String>)
        ensures
            match r {
                Some(v) => attr_first(self@.attributes, name@) == Some(v@),
                None => attr_first(self@.attributes, name@) is None,
            },
    {
        let n = self.attributes.len();
        let mut i: usize = 0;
        proof {
            assert(self@.attributes.skip(0) =~= self@.attributes);
        }
        while i < n
            invariant
                n == self.attributes@.len(),
                i <= n,
                attr_first(self@.attributes, name@) == attr_first(
                    self@.attributes.skip(i as int),
                    name@,
                ),
            decreases n - i,
        {
            proof {
                assert(self@.attributes.skip(i as int)[0] == self@.attributes[i as int]);
            }
            if crate::text::str_eq(self.attributes[i].0.as_str(), name) {
                proof {
                    assert(self@.attributes[i as int].0 == name@);
                }
                return Some(&self.attributes[i].1);
            }
            proof {
                assert(self@.attributes.skip(i as int).drop_first() =~= self@.attributes.skip(
                    i + 1,
                ));
            }
            i += 1;
        }
        proof {
            assert(self@.attributes.skip(n as int) =~= Seq::<(Seq<char>, Seq<char>)>::empty());
        }
        None
    }

    /// Replaces any existing bindings of `name` with a single binding at the
    /// end of the attribute list, and returns the updated node.
    pub fn with_attr(self, name: &str, value: &str) -> (n: DomNode)
        ensures
            n@ == (NodeView {
                attributes: attrs_without(self@.attributes, name@).push((name@, value@)),
                ..self@
            }),
    {
        let mut out: Vec<(String, String)> = Vec::new();
        let n = self.attributes.len();
        let mut i: usize = 0;
        while i < n
            invariant
                n == self.attributes@.len(),
                i <= n,
                out@.map_values(|p: (String, String)| (p.0@, p.1@)) =~= self@.attributes.take(
                    i as int,
                ).filter(|p: (Seq<char>, Seq<char>)| p.0 != name@),
            decreases n - i,
        {
            let ghost prefix = self@.attributes.take(i as int);
            let keep = !crate::text::str_eq(self.attributes[i].0.as_str(), name);
            if keep {
                out.push((self.attributes[i].0.clone(), self.attributes[i].1.clone()));
            }
            proof {
                assert(self@.attributes.take(i + 1) =~= prefix.push(self@.attributes[i as int]));
                prefix.lemma_filter_push(
                    self@.attributes[i as int],
                    |p: (Seq<char>, Seq<char>)| p.0 != name@,
                );
            }
            i += 1;
        }
        proof {
            assert(self@.attributes.take(n as int) =~= self@.attributes);
        }
        out.push((name.to_owned(), value.to_owned()));
        let r = DomNode { attributes: out, ..self };
        proof {
            assert(r@.attributes =~= attrs_without(self@.attributes, name@).push((name@, value@)));
        }
        r
    }

    /// Appends a child key to this node's child list. The child's own parent
    /// and sibling caches are not touched; `DomTree::append_child` keeps them
    /// coherent.
    pub fn add_child(&mut self, child_id: NodeId)
        ensures
            final(self)@ == (NodeView { children: old(self)@.children.push(child_id), ..old(self)@ }),
    {
        self.children.push(child_id);
    }

    /// True when the node has no children.
    pub fn is_leaf(&self) -> (r: bool)
        ensures
            r == (self@.children.len() == 0),
    {
        self.children.is_empty()
    }

    /// True for element nodes.
    pub fn is_element(&self) -> (r: bool)
        ensures
            r == (self@.node_type == NodeType::Element),
    {
        self.node_type == NodeType::Element
    }

    /// True for text nodes.
    pub fn is_text(&self) -> (r: bool)
        ensures
            r == (self@.node_type == NodeType::Text),
    {
        self.node_type == NodeType::Text
    }
}

impl Clone for DomNode {
    /// A deep copy with an identical view.
    fn clone(&self) -> (r: Self)
        ensures
            r@ == self@,
    {
        let mut attrs: Vec<(String, String)> = Vec::new();
        let n = self.attributes.len();
        let mut i: usize = 0;
        while i < n
            invariant
                n == self.attributes@.len(),
                i <= n,
                attrs@.len() == i,
                forall|j: int|
                    0 <= j < i ==> #[trigger] attrs@[j].0@ == self.attributes@[j].0@
                        && attrs@[j].1@ == self.attributes@[j].1@,
            decreases n - i,
        {
            attrs.push((self.attributes[i].0.clone(), self.attributes[i].1.clone()));
            i += 1;
        }
        let children = self.children.clone();
        proof {
            assert(children@ =~= self@.children) by {
                assert(forall|j: int|
                    0 <= j < self.children@.len() ==> vstd::pervasive::cloned::<u64>(
                        self.children@[j],
                        #[trigger] children@[j],
                    ));
            }
        }
        let r = DomNode {
            id: self.id,
            node_type: self.node_type,
            tag_name: match &self.tag_name {
                Some(t) => Some(t.clone()),
                None => None,
            },
            text_content: match &self.text_content {
                Some(t) => Some(t.clone()),
                None => None,
            },
            attributes: attrs,
            parent: self.parent,
            children,
            prev_sibling: self.prev_sibling,
            next_sibling: self.next_sibling,
        };
        proof {
            assert(r@.attributes =~= self@.attributes);
        }
        r
    }
}

/// The document tree: sole owner of its nodes, stored in a key-to-node map,
/// together with an optional root key and a monotonically increasing key
/// generator. A record of key insertion order is kept so that whole-storage
/// walks are deterministic.
#[derive(Debug)]
pub struct DomTree {
    nodes: HashMap<NodeId, DomNode>,
    order: Vec<NodeId>,
    root_id: Option<NodeId>,
    next_id: NodeId,
}

/// Mathematical view of a tree.
pub ghost struct TreeView {
    /// Stored nodes, by key.
    pub nodes: Map<NodeId, NodeView>,
    /// Stored keys, in insertion order.
    pub order: Seq<NodeId>,
    /// The root key, if one was set.
    pub root_id: Option<NodeId>,
    /// The next key `generate_id` will hand out.
    pub next_id: NodeId,
}

/// Node map lifted to views.
pub open spec fn lift_nodes(m: Map<NodeId, DomNode>) -> Map<NodeId, NodeView> {
    Map::new(|k: NodeId| m.dom().contains(k), |k: NodeId| m[k]@)
}

proof fn lemma_lift_insert(m: Map<NodeId, DomNode>, k: NodeId, n: DomNode)
    ensures
        lift_nodes(m.insert(k, n)) == lift_nodes(m).insert(k, n@),
{
    assert(lift_nodes(m.insert(k, n)) =~= lift_nodes(m).insert(k, n@));
}

impl View for DomTree {
    type V = TreeView;

    closed spec fn view(&self) -> TreeView {
        TreeView {
            nodes: lift_nodes(self.nodes@),
            order: self.order@,
            root_id: self.root_id,
            next_id: self.next_id,
        }
    }
}

/// Index of the first occurrence of `x` in `s`, if any.
pub open spec fn seq_first_index(s: Seq<NodeId>, x: NodeId) -> Option<int>
    decreases s.len(),
{
    if s.len() == 0 {
        None
    } else if s[0] == x {
        Some(0int)
    } else {
        match seq_first_index(s.drop_first(), x) {
            Some(i) => Some(i + 1),
            None => None,
        }
    }
}

pub proof fn lemma_first_index_found(s: Seq<NodeId>, x: NodeId, i: int)
    requires
        0 <= i < s.len(),
        s[i] == x,
        forall|j: int| 0 <= j < i ==> s[j] != x,
    ensures
        seq_first_index(s, x) == Some(i),
    decreases s.len(),
{
    if i > 0 {
        lemma_first_index_found(s.drop_first(), x, i - 1);
    }
}

proof fn lemma_first_index_none(s: Seq<NodeId>, x: NodeId)
    requires
        forall|j: int| 0 <= j < s.len() ==> s[j] != x,
    ensures
        seq_first_index(s, x) is None,
    decreases s.len(),
{
    if s.len() > 0 {
        lemma_first_index_none(s.drop_first(), x);
    }
}

/// Position of the first occurrence of `x` in `v`, if any.
pub(crate) fn find_first(v: &Vec<NodeId>, x: NodeId) -> (r: Option<usize>)
    ensures
        match r {
            Some(i) => i < v@.len() && v@[i as int] == x && seq_first_index(v@, x) == Some(
                i as int,
            ),
            None => seq_first_index(v@, x) is None,
        },
{
    let n = v.len();
    let mut i: usize = 0;
    while i < n
        invariant
            n == v@.len(),
            i <= n,
            forall|j: int| 0 <= j < i ==> v@[j] != x,
        decreases n - i,
    {
        if v[i] == x {
            proof {
                lemma_first_index_found(v@, x, i as int);
            }
            return Some(i);
        }
        i += 1;
    }
    proof {
        lemma_first_index_none(v@, x);
    }
    None
}

/// True when `x` occurs in `v`.
pub(crate) fn contains_id(v: &Vec<NodeId>, x: NodeId) -> (r: bool)
    ensures
        r == v@.contains(x),
{
    let n = v.len();
    let mut i: usize = 0;
    while i < n
        invariant
            n == v@.len(),
            i <= n,
            forall|j: int| 0 <= j < i ==> v@[j] != x,
        decreases n - i,
    {
        if v[i] == x {
            return true;
        }
        i += 1;
    }
    false
}

/// The tree after `append_child(p, c)`, step for step: a missing key leaves
/// the tree unchanged; otherwise `c` is pushed onto `p`'s child list, `c`'s
/// parent becomes `p`, the previous last child's `next_sibling` cache (when
/// that key is stored) and `c`'s sibling caches are refreshed.
pub open spec fn spec_append(t: TreeView, p: NodeId, c: NodeId) -> TreeView {
    if !(t.nodes.dom().contains(p) && t.nodes.dom().contains(c)) {
        t
    } else {
        let idx = t.nodes[p].children.len();
        let m1 = t.nodes.insert(
            p,
            NodeView { children: t.nodes[p].children.push(c), ..t.nodes[p] },
        );
        let m2 = m1.insert(c, NodeView { parent: Some(p), ..m1[c] });
        let m4 = if idx > 0 {
            let prev = m2[p].children[idx - 1];
            let m3 = if m2.dom().contains(prev) {
                m2.insert(prev, NodeView { next_sibling: Some(c), ..m2[prev] })
            } else {
                m2
            };
            m3.insert(c, NodeView { prev_sibling: Some(prev), ..m3[c] })
        } else {
            m2
        };
        let m5 = m4.insert(c, NodeView { next_sibling: None, ..m4[c] });
        TreeView { nodes: m5, ..t }
    }
}

/// The tree after `remove_child(p, c)`, step for step: when both keys are
/// stored and `c` occurs under `p`, the first occurrence is removed, the
/// neighbouring siblings' caches (when those keys are stored) are stitched
/// together, and `c`'s parent and sibling caches are cleared.
pub open spec fn spec_remove(t: TreeView, p: NodeId, c: NodeId) -> TreeView {
    if !(t.nodes.dom().contains(p) && t.nodes.dom().contains(c)) {
        t
    } else {
        match seq_first_index(t.nodes[p].children, c) {
            None => t,
            Some(pos) => {
                let ch = t.nodes[p].children;
                let prev = if pos > 0 {
                    Some(ch[pos - 1])
                } else {
                    None::<NodeId>
                };
                let next = if pos + 1 < ch.len() {
                    Some(ch[pos + 1])
                } else {
                    None::<NodeId>
                };
                let m1 = t.nodes.insert(p, NodeView { children: ch.remove(pos), ..t.nodes[p] });
                let m2 = match prev {
                    Some(pr) => if m1.dom().contains(pr) {
                        m1.insert(pr, NodeView { next_sibling: next, ..m1[pr] })
                    } else {
                        m1
                    },
                    None => m1,
                };
                let m3 = match next {
                    Some(nx) => if m2.dom().contains(nx) {
                        m2.insert(nx, NodeView { prev_sibling: prev, ..m2[nx] })
                    } else {
                        m2
                    },
                    None => m2,
                };
                let m4 = m3.insert(
                    c,
                    NodeView { parent: None, prev_sibling: None, next_sibling: None, ..m3[c] },
                );
                TreeView { nodes: m4, ..t }
            },
        }
    }
}

proof fn lemma_same_dom_preserves_inv(t1: TreeView, t2: TreeView)
    requires
        tree_inv(t1),
        t1.order == t2.order,
        t1.nodes.dom() == t2.nodes.dom(),
    ensures
        tree_inv(t2),
{
}

/// Storage bookkeeping: the insertion-order list names each stored key
/// exactly once. Constructors establish it and every method preserves it.
pub open spec fn tree_inv(t: TreeView) -> bool {
    &&& t.order.no_duplicates()
    &&& forall|k: NodeId| t.order.contains(k) <==> t.nodes.dom().contains(k)
}

impl DomTree {
    /// An empty tree.
    pub fn new() -> (t: DomTree)
        ensures
            t@.nodes == Map::<NodeId, NodeView>::empty(),
            t@.order == Seq::<NodeId>::empty(),
            t@.root_id is None,
            t@.next_id == 1,
            tree_inv(t@),
    {
        let t = DomTree {
            nodes: HashMap::with_capacity(256),
            order: Vec::new(),
            root_id: None,
            next_id: 1,
        };
        proof {
            assert(t@.nodes =~= Map::<NodeId, NodeView>::empty());
        }
        t
    }

    /// An empty tree with storage preallocated for `capacity` nodes.
    pub fn with_capacity(capacity: usize) -> (t: DomTree)
        ensures
            t@.nodes == Map::<NodeId, NodeView>::empty(),
            t@.order == Seq::<NodeId>::empty(),
            t@.root_id is None,
            t@.next_id == 1,
            tree_inv(t@),
    {
        let t = DomTree {
            nodes: HashMap::with_capacity(capacity),
            order: Vec::new(),
            root_id: None,
            next_id: 1,
        };
        proof {
            assert(t@.nodes =~= Map::<NodeId, NodeView>::empty());
        }
        t
    }

    /// Hands out the next unused generated key.
    pub fn generate_id(&mut self) -> (id: NodeId)
        requires
            old(self)@.next_id < NodeId::MAX,
        ensures
            id == old(self)@.next_id,
            final(self)@ == (TreeView { next_id: (old(self)@.next_id + 1) as NodeId, ..old(self)@ }),
    {
        let id = self.next_id;
        self.next_id = self.next_id + 1;
        id
    }

    /// Stores `node` under its own key, replacing any node already stored
    /// there, and returns that key.
    pub fn add_node(&mut self, node: DomNode) -> (id: NodeId)
        ensures
            id == node@.id,
            final(self)@.nodes == old(self)@.nodes.insert(node@.id, node@),
            final(self)@.order == if old(self)@.nodes.dom().contains(node@.id) {
                old(self)@.order
            } else {
                old(self)@.order.push(node@.id)
            },
            final(self)@.root_id == old(self)@.root_id,
            final(self)@.next_id == old(self)@.next_id,
            tree_inv(old(self)@) ==> tree_inv(final(self)@),
    {
        let id = node.id;
        if !self.nodes.contains_key(&id) {
            self.order.push(id);
        }
        let ghost m = self.nodes@;
        self.nodes.insert(id, node);
        proof {
            lemma_lift_insert(m, id, node);
            if tree_inv(old(self)@) {
                if !old(self)@.nodes.dom().contains(id) {
                    assert forall|j: int, l: int|
                        0 <= j < l < self@.order.len() implies self@.order[j] != self@.order[l] by {
                        if l == self@.order.len() - 1 {
                            assert(old(self)@.order.contains(old(self)@.order[j]));
                        }
                    }
                }
                assert forall|k: NodeId| self@.order.contains(k) <==> self@.nodes.dom().contains(
                    k,
                ) by {
                    let old_order = old(self)@.order;
                    assert(old_order.contains(k) <==> old(self)@.nodes.dom().contains(k));
                    if old_order.contains(k) {
                        let j = choose|j: int|
                            0 <= j < old_order.len() && old_order[j] == k;
                        assert(self@.order[j] == k);
                        assert(self@.order.contains(k));
                    }
                    if self@.order.contains(k) {
                        let j = choose|j: int|
                            0 <= j < self@.order.len() && self@.order[j] == k;
                        if j < old_order.len() {
                            assert(old_order.contains(old_order[j]));
                        } else {
                            assert(k == id);
                        }
                    }
                    if !old(self)@.nodes.dom().contains(id) {
                        assert(self@.order[self@.order.len() - 1] == id);
                        assert(self@.order.contains(id));
                    }
                }
            }
        }
        id
    }

    /// The node stored under `id`, if any.
    pub fn get_node(&self, id: NodeId) -> (r: Option<&DomNode>)
        ensures
            match r {
                Some(n) => self@.nodes.dom().contains(id) && n@ == self@.nodes[id],
                None => !self@.nodes.dom().contains(id),
            },
    {
        self.nodes.get(&id)
    }

    /// Makes `id` the root key and detaches the root node from any parent.
    pub fn set_root(&mut self, id: NodeId)
        ensures
            final(self)@ == (TreeView {
                root_id: Some(id),
                nodes: if old(self)@.nodes.dom().contains(id) {
                    old(self)@.nodes.insert(
                        id,
                        NodeView { parent: None, ..old(self)@.nodes[id] },
                    )
                } else {
                    old(self)@.nodes
                },
                ..old(self)@
            }),
            tree_inv(old(self)@) ==> tree_inv(final(self)@),
    {
        self.root_id = Some(id);
        let updated = match self.nodes.get(&id) {
            Some(n) => {
                let mut n2 = n.clone();
                n2.parent = None;
                Some(n2)
            },
            None => None,
        };
        if let Some(n2) = updated {
            let ghost m = self.nodes@;
            self.nodes.insert(id, n2);
            proof {
                lemma_lift_insert(m, id, n2);
            }
        }
        proof {
            if !old(self)@.nodes.dom().contains(id) {
                assert(self@.nodes =~= old(self)@.nodes);
            }
            if tree_inv(old(self)@) {
                assert forall|k: NodeId| self@.order.contains(k) <==> self@.nodes.dom().contains(
                    k,
                ) by {
                    assert(old(self)@.order.contains(k) <==> old(self)@.nodes.dom().contains(k));
                }
            }
        }
    }

    /// The root key, if one was set.
    pub fn root(&self) -> (r: Option<NodeId>)
        ensures
            r == self@.root_id,
    {
        self.root_id
    }

    /// Appends `child_id` at the end of `parent_id`'s child list, updates the
    /// child's parent key and the sibling caches of the child and of the
    /// previous last child, and reports whether both keys were stored.
    pub fn append_child(&mut self, parent_id: NodeId, child_id: NodeId) -> (ok: bool)
        ensures
            final(self)@ == spec_append(old(self)@, parent_id, child_id),
            ok == (old(self)@.nodes.dom().contains(parent_id) && old(self)@.nodes.dom().contains(
                child_id,
            )),
            tree_inv(old(self)@) ==> tree_inv(final(self)@),
    {
        if !self.nodes.contains_key(&parent_id) || !self.nodes.contains_key(&child_id) {
            return false;
        }
        let child_index = match self.nodes.get(&parent_id) {
            Some(p) => p.children.len(),
            None => {
                return false;
            },
        };
        // extend the parent's child list
        let mut pnode = match self.nodes.get(&parent_id) {
            Some(p) => p.clone(),
            None => {
                return false;
            },
        };
        pnode.children.push(child_id);
        let ghost m0 = self.nodes@;
        self.nodes.insert(parent_id, pnode);
        proof {
            lemma_lift_insert(m0, parent_id, pnode);
        }
        // record the child's new parent
        let mut cnode = match self.nodes.get(&child_id) {
            Some(c) => c.clone(),
            None => {
                return false;
            },
        };
        cnode.parent = Some(parent_id);
        let ghost m1 = self.nodes@;
        self.nodes.insert(child_id, cnode);
        proof {
            lemma_lift_insert(m1, child_id, cnode);
        }
        // refresh the sibling caches around the appended child
        if child_index > 0 {
            let prev_id = match self.nodes.get(&parent_id) {
                Some(p) => p.children[child_index - 1],
                None => {
                    return false;
                },
            };
            if let Some(prev) = self.nodes.get(&prev_id) {
                let mut pv = prev.clone();
                pv.next_sibling = Some(child_id);
                let ghost m2 = self.nodes@;
                self.nodes.insert(prev_id, pv);
                proof {
                    lemma_lift_insert(m2, prev_id, pv);
                }
            }
            let mut c2 = match self.nodes.get(&child_id) {
                Some(c) => c.clone(),
                None => {
                    return false;
                },
            };
            c2.prev_sibling = Some(prev_id);
            let ghost m3 = self.nodes@;
            self.nodes.insert(child_id, c2);
            proof {
                lemma_lift_insert(m3, child_id, c2);
            }
        }
        let mut c3 = match self.nodes.get(&child_id) {
            Some(c) => c.clone(),
            None => {
                return false;
            },
        };
        c3.next_sibling = None;
        let ghost m4 = self.nodes@;
        self.nodes.insert(child_id, c3);
        proof {
            lemma_lift_insert(m4, child_id, c3);
            assert(self@.nodes =~= spec_append(old(self)@, parent_id, child_id).nodes);
            if tree_inv(old(self)@) {
                assert(self@.nodes.dom() =~= old(self)@.nodes.dom());
                lemma_same_dom_preserves_inv(old(self)@, self@);
            }
        }
        true
    }

    /// Removes `child_id` from `parent_id`'s child list, stitches the
    /// neighbouring siblings' caches together, clears the child's parent and
    /// sibling keys, and reports whether the child was found under the parent.
    pub fn remove_child(&mut self, parent_id: NodeId, child_id: NodeId) -> (ok: bool)
        ensures
            final(self)@ == spec_remove(old(self)@, parent_id, child_id),
            ok == (old(self)@.nodes.dom().contains(parent_id) && old(self)@.nodes.dom().contains(
                child_id,
            ) && seq_first_index(old(self)@.nodes[parent_id].children, child_id) is Some),
            tree_inv(old(self)@) ==> tree_inv(final(self)@),
    {
        if !self.nodes.contains_key(&parent_id) || !self.nodes.contains_key(&child_id) {
            return false;
        }
        let (pos, prev_id, next_id) = {
            let parent = match self.nodes.get(&parent_id) {
                Some(p) => p,
                None => {
                    return false;
                },
            };
            let pos = match find_first(&parent.children, child_id) {
                Some(p) => p,
                None => {
                    return false;
                },
            };
            let clen = parent.children.len();
            assert(pos < clen);
            let prev_id = if pos > 0 {
                Some(parent.children[pos - 1])
            } else {
                None
            };
            let next_id = if pos + 1 < clen {
                Some(parent.children[pos + 1])
            } else {
                None
            };
            (pos, prev_id, next_id)
        };
        // drop the child from the parent's list
        let mut pnode = match self.nodes.get(&parent_id) {
            Some(p) => p.clone(),
            None => {
                return false;
            },
        };
        pnode.children.remove(pos);
        let ghost m0 = self.nodes@;
        self.nodes.insert(parent_id, pnode);
        proof {
            lemma_lift_insert(m0, parent_id, pnode);
        }
        // stitch the neighbours together
        if let Some(prev_id) = prev_id {
            if let Some(prev) = self.nodes.get(&prev_id) {
                let mut pv = prev.clone();
                pv.next_sibling = next_id;
                let ghost m1 = self.nodes@;
                self.nodes.insert(prev_id, pv);
                proof {
                    lemma_lift_insert(m1, prev_id, pv);
                }
            }
        }
        if let Some(next_id) = next_id {
            if let Some(next) = self.nodes.get(&next_id) {
                let mut nx = next.clone();
                nx.prev_sibling = prev_id;
                let ghost m2 = self.nodes@;
                self.nodes.insert(next_id, nx);
                proof {
                    lemma_lift_insert(m2, next_id, nx);
                }
            }
        }
        // detach the child
        let mut cnode = match self.nodes.get(&child_id) {
            Some(c) => c.clone(),
            None => {
                return false;
            },
        };
        cnode.parent = None;
        cnode.prev_sibling = None;
        cnode.next_sibling = None;
        let ghost m3 = self.nodes@;
        self.nodes.insert(child_id, cnode);
        proof {
            lemma_lift_insert(m3, child_id, cnode);
            assert(self@.nodes =~= spec_remove(old(self)@, parent_id, child_id).nodes);
            if tree_inv(old(self)@) {
                assert(self@.nodes.dom() =~= old(self)@.nodes.dom());
                lemma_same_dom_preserves_inv(old(self)@, self@);
            }
        }
        true
    }

    /// The stored keys, in insertion order.
    pub(crate) fn key_list(&self) -> (r: &Vec<NodeId>)
        ensures
            r@ == self@.order,
    {
        &self.order
    }

    /// A depth-first walk over the root-reachable part of the tree, driven by
    /// an explicit stack; see [`DomIter`].
    pub fn iter(&self) -> (it: DomIter<'_>)
        ensures
            it.tree_view() == self@,
            it.stack() == match self@.root_id {
                Some(r) => seq![r],
                None => Seq::<NodeId>::empty(),
            },
    {
        DomIter::new(self)
    }

    /// Stores `node` under the key `id` (which need not be `node.id`),
    /// replacing any node already stored there.
    fn store_at(&mut self, id: NodeId, node: DomNode)
        ensures
            final(self)@.nodes == old(self)@.nodes.insert(id, node@),
            final(self)@.order == if old(self)@.nodes.dom().contains(id) {
                old(self)@.order
            } else {
                old(self)@.order.push(id)
            },
            final(self)@.root_id == old(self)@.root_id,
            final(self)@.next_id == old(self)@.next_id,
            tree_inv(old(self)@) ==> tree_inv(final(self)@),
    {
        if !self.nodes.contains_key(&id) {
            self.order.push(id);
        }
        let ghost m = self.nodes@;
        self.nodes.insert(id, node);
        proof {
            lemma_lift_insert(m, id, node);
            if tree_inv(old(self)@) {
                if !old(self)@.nodes.dom().contains(id) {
                    assert forall|j: int, l: int|
                        0 <= j < l < self@.order.len() implies self@.order[j] != self@.order[l] by {
                        if l == self@.order.len() - 1 {
                            assert(old(self)@.order.contains(old(self)@.order[j]));
                        }
                    }
                }
                assert forall|k: NodeId| self@.order.contains(k) <==> self@.nodes.dom().contains(
                    k,
                ) by {
                    let old_order = old(self)@.order;
                    assert(old_order.contains(k) <==> old(self)@.nodes.dom().contains(k));
                    if old_order.contains(k) {
                        let j = choose|j: int|
                            0 <= j < old_order.len() && old_order[j] == k;
                        assert(self@.order[j] == k);
                        assert(self@.order.contains(k));
                    }
                    if self@.order.contains(k) {
                        let j = choose|j: int|
                            0 <= j < self@.order.len() && self@.order[j] == k;
                        if j < old_order.len() {
                            assert(old_order.contains(old_order[j]));
                        } else {
                            assert(k == id);
                        }
                    }
                    if !old(self)@.nodes.dom().contains(id) {
                        assert(self@.order[self@.order.len() - 1] == id);
                        assert(self@.order.contains(id));
                    }
                }
            }
        }
    }

    /// Deep-copies the subtree rooted at `root_id` into fresh keys and
    /// returns the key of the copied root. Each originally stored key is
    /// copied at most once, so a malformed (cyclic) snapshot still
    /// terminates. Returns `None` when `root_id` is not stored, or when the
    /// key space is exhausted part way (the copies made until then stay in
    /// the tree).
    pub fn clone_subtree(&mut self, root_id: NodeId) -> (r: Option<NodeId>)
        ensures
            final(self)@.root_id == old(self)@.root_id,
            final(self)@.next_id >= old(self)@.next_id,
            forall|k: NodeId|
                old(self)@.nodes.dom().contains(k) ==> final(self)@.nodes.dom().contains(k),
            tree_inv(old(self)@) ==> tree_inv(final(self)@),
            r is Some ==> old(self)@.nodes.dom().contains(root_id) && r == Some(
                old(self)@.next_id,
            ),
            r is None ==> !old(self)@.nodes.dom().contains(root_id) || final(self)@.next_id
                == NodeId::MAX,
            tree_inv(old(self)@) && r is Some ==> final(self)@.nodes.dom().contains(
                old(self)@.next_id,
            ),
    {
        let root = match self.get_node(root_id) {
            Some(n) => n.clone(),
            None => {
                return None;
            },
        };
        if self.next_id == NodeId::MAX {
            return None;
        }
        let ids0 = self.order.clone();
        proof {
            assert(ids0@ =~= self@.order) by {
                assert(forall|j: int|
                    0 <= j < ids0@.len() ==> vstd::pervasive::cloned::<u64>(
                        self@.order[j],
                        #[trigger] ids0@[j],
                    ));
            }
        }
        let new_root_id = self.generate_id();
        let mut visited: Vec<NodeId> = Vec::new();
        let mut stack: Vec<(NodeId, NodeId, DomNode)> = Vec::new();
        stack.push((root_id, new_root_id, root));
        let ghost all0 = ids0@.to_set();
        proof {
            vstd::seq_lib::seq_to_set_is_finite(ids0@);
        }
        while stack.len() > 0
            invariant
                self@.root_id == old(self)@.root_id,
                self@.next_id >= old(self)@.next_id,
                forall|k: NodeId|
                    old(self)@.nodes.dom().contains(k) ==> self@.nodes.dom().contains(k),
                tree_inv(old(self)@) ==> tree_inv(self@),
                all0 == ids0@.to_set(),
                all0.finite(),
                visited@.to_set().subset_of(all0),
                visited@.no_duplicates(),
                tree_inv(old(self)@) ==> self@.nodes.dom().contains(new_root_id) || (stack@.len()
                    == 1 && stack@[0].0 == root_id && stack@[0].1 == new_root_id
                    && visited@.len() == 0),
                tree_inv(old(self)@) ==> ids0@.contains(root_id),
            decreases all0.difference(visited@.to_set()).len(), stack@.len(),
        {
            let ghost vis0 = visited@.to_set();
            let (old_id, new_id, node) = stack.pop().unwrap();
            if contains_id(&visited, old_id) || !contains_id(&ids0, old_id) {
                continue;
            }
            let ghost pre = visited@;
            visited.push(old_id);
            proof {
                pre.lemma_push_to_set_commute(old_id);
                assert(visited@.to_set() =~= vis0.insert(old_id));
                assert(visited@.no_duplicates()) by {
                    assert forall|j: int, l: int|
                        0 <= j < l < visited@.len() implies visited@[j] != visited@[l] by {
                        if l == visited@.len() - 1 {
                            assert(pre.contains(pre[j]));
                            assert(vis0.contains(pre[j]));
                        }
                    }
                }
                assert(all0.difference(visited@.to_set()) =~= all0.difference(vis0).remove(
                    old_id,
                ));
                assert(all0.difference(vis0).contains(old_id));
                vstd::set::axiom_set_difference_finite(all0, vis0);
                vstd::set::axiom_set_remove_len(all0.difference(vis0), old_id);
            }
            let children = node.children.clone();
            proof {
                assert(children@ =~= node@.children) by {
                    assert(forall|j: int|
                        0 <= j < children@.len() ==> vstd::pervasive::cloned::<u64>(
                            node@.children[j],
                            #[trigger] children@[j],
                        ));
                }
            }
            self.store_at(new_id, node);
            let mut i: usize = 0;
            let n = children.len();
            while i < n
                invariant
                    n == children@.len(),
                    i <= n,
                    self@.root_id == old(self)@.root_id,
                    self@.next_id >= old(self)@.next_id,
                    forall|k: NodeId|
                        old(self)@.nodes.dom().contains(k) ==> self@.nodes.dom().contains(k),
                    tree_inv(old(self)@) ==> tree_inv(self@),
                    tree_inv(old(self)@) ==> self@.nodes.dom().contains(new_root_id) || new_id
                        == new_root_id,
                    self@.nodes.dom().contains(new_id),
                decreases n - i,
            {
                let child_id = children[i];
                let child = match self.get_node(child_id) {
                    Some(c) => c.clone(),
                    None => {
                        i += 1;
                        continue;
                    },
                };
                if self.next_id == NodeId::MAX {
                    return None;
                }
                let new_child_id = self.generate_id();
                let mut holder = match self.get_node(new_id) {
                    Some(h) => h.clone(),
                    None => {
                        i += 1;
                        continue;
                    },
                };
                holder.add_child(new_child_id);
                self.store_at(new_id, holder);
                stack.push((child_id, new_child_id, child));
                i += 1;
            }
        }
        Some(new_root_id)
    }

    /// How many nodes are stored.
    pub fn node_count(&self) -> (n: usize)
        ensures
            n == self@.nodes.dom().len(),
            tree_inv(self@) ==> n == self@.order.len(),
    {
        proof {
            assert(self@.nodes.dom() =~= self.nodes@.dom());
            if tree_inv(self@) {
                self.order@.unique_seq_to_set();
                assert(self.order@.to_set() =~= self.nodes@.dom());
            }
        }
        self.nodes.len()
    }
}

/// A tree stores finitely many nodes.
pub proof fn lemma_tree_dom_finite(t: &DomTree)
    ensures
        t@.nodes.dom().finite(),
{
    assert(t@.nodes.dom() =~= t.nodes@.dom());
}

/// Depth-first walk over the root-reachable part of a tree, driven by an
/// explicit stack instead of recursion, so the walk is safe on arbitrarily
/// deep documents. Each step pops the top key and pushes that node's
/// children in reverse order, which yields a preorder traversal.
pub struct DomIter<'a> {
    tree: &'a DomTree,
    stack: Vec<NodeId>,
}

impl<'a> DomIter<'a> {
    /// The tree being walked.
    pub closed spec fn tree_view(self) -> TreeView {
        self.tree@
    }

    /// The pending keys, top of the stack last.
    pub closed spec fn stack(self) -> Seq<NodeId> {
        self.stack@
    }

    /// A walk over `tree`, positioned at its root.
    pub fn new(tree: &'a DomTree) -> (it: Self)
        ensures
            it.tree_view() == tree@,
            it.stack() == match tree@.root_id {
                Some(r) => seq![r],
                None => Seq::<NodeId>::empty(),
            },
    {
        let mut stack: Vec<NodeId> = Vec::new();
        if let Some(root) = tree.root() {
            stack.push(root);
        }
        proof {
            match tree@.root_id {
                Some(r) => {
                    assert(stack@ =~= seq![r]);
                },
                None => {
                    assert(stack@ =~= Seq::<NodeId>::empty());
                },
            }
        }
        DomIter { tree, stack }
    }

    /// Pops the next key of the preorder walk and pushes its children, in
    /// reverse order, for later visits. Returns `None` once the stack is
    /// exhausted.
    pub fn next(&mut self) -> (r: Option<NodeId>)
        ensures
            final(self).tree_view() == old(self).tree_view(),
            match r {
                None => old(self).stack().len() == 0 && final(self).stack() == old(self).stack(),
                Some(id) => {
                    &&& old(self).stack().len() > 0
                    &&& id == old(self).stack().last()
                    &&& final(self).stack() == old(self).stack().drop_last()
                        + (if old(self).tree_view().nodes.dom().contains(id) {
                        old(self).tree_view().nodes[id].children.reverse()
                    } else {
                        Seq::<NodeId>::empty()
                    })
                },
            },
    {
        let id = match self.stack.pop() {
            Some(id) => id,
            None => {
                return None;
            },
        };
        let ghost base = self.stack@;
        if let Some(node) = self.tree.get_node(id) {
            let n = node.children.len();
            let mut i: usize = n;
            while i > 0
                invariant
                    n == node.children@.len(),
                    i <= n,
                    self.tree == old(self).tree,
                    self.stack@ == base + node.children@.subrange(i as int, n as int).reverse(),
                decreases i,
            {
                i -= 1;
                self.stack.push(node.children[i]);
                proof {
                    assert(node.children@.subrange(i as int, n as int).reverse() =~= node.children@
                        .subrange(i + 1, n as int).reverse().push(node.children@[i as int]));
                    assert(self.stack@ =~= base + node.children@.subrange(
                        i as int,
                        n as int,
                    ).reverse());
                }
            }
            proof {
                assert(node.children@.subrange(0, n as int) =~= node.children@);
            }
        } else {
            proof {
                assert(self.stack@ =~= base + Seq::<NodeId>::empty());
            }
        }
        Some(id)
    }
}

} // verus!
