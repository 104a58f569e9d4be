//! The document tree: an owned tree of element, text and document nodes.
use vstd::prelude::*;

verus! {

/// The kind of a node, with its tag name or its text.
pub enum NodeType {
    Element(String),
    Text(String),
    Document,
}

/// A node of the document tree. Each node owns its children, in document
/// order, and its attributes, whose names are unique.
pub struct Node {
    pub node_type: NodeType,
    pub children: Vec<Node>,
    pub attributes: Vec<(String, String)>,
}

/// Mathematical kind of a node.
pub enum DomKind {
    Element(Seq<char>),
    Text(Seq<char>),
    Document,
}

/// Mathematical model of a node.
pub struct DomNode {
    pub kind: DomKind,
    pub attrs: Seq<(Seq<char>, Seq<char>)>,
    pub children: Seq<DomNode>,
}

pub open spec fn empty_dom() -> DomNode {
    DomNode { kind: DomKind::Document, attrs: Seq::empty(), children: Seq::empty() }
}

pub open spec fn kind_view(t: NodeType) -> DomKind {
    match t {
        NodeType::Element(s) => DomKind::Element(s@),
        NodeType::Text(s) => DomKind::Text(s@),
        NodeType::Document => DomKind::Document,
    }
}

pub open spec fn attrs_view(a: Seq<(String, String)>) -> Seq<(Seq<char>, Seq<char>)> {
    a.map_values(|p: (String, String)| (p.0@, p.1@))
}

impl View for Node {
    type V = DomNode;

    open spec fn view(&self) -> DomNode
        decreases self,
    {
        DomNode {
            kind: kind_view(self.node_type),
            attrs: attrs_view(self.attributes@),
            children: Seq::new(
                self.children@.len(),
                |i: int|
                    if 0 <= i < self.children@.len() {
                        self.children@[i].view()
                    } else {
                        empty_dom()
                    },
            ),
        }
    }
}

/// Views of a sequence of nodes.
pub open spec fn nodes_view(v: Seq<Node>) -> Seq<DomNode> {
    v.map_values(|n: Node| n@)
}

/// Index of the attribute named `k`, searching from `i`; `-1` when absent.
pub open spec fn attr_index_from(a: Seq<(Seq<char>, Seq<char>)>, k: Seq<char>, i: int) -> int
    decreases a.len() - i,
{
    if i < 0 || i >= a.len() {
        -1
    } else if a[i].0 == k {
        i
    } else {
        attr_index_from(a, k, i + 1)
    }
}

pub open spec fn attr_index(a: Seq<(Seq<char>, Seq<char>)>, k: Seq<char>) -> int {
    attr_index_from(a, k, 0)
}

/// The value of attribute `k`, if any.
pub open spec fn attr_get(a: Seq<(Seq<char>, Seq<char>)>, k: Seq<char>) -> Option<Seq<char>> {
    if attr_index(a, k) >= 0 {
        Some(a[attr_index(a, k)].1)
    } else {
        None
    }
}

/// Setting attribute `k`: an existing entry takes the new value in place,
/// otherwise the pair is appended.
pub open spec fn attr_set(a: Seq<(Seq<char>, Seq<char>)>, k: Seq<char>, v: Seq<char>) -> Seq<(Seq<char>, Seq<char>)> {
    if attr_index(a, k) >= 0 {
        a.update(attr_index(a, k), (k, v))
    } else {
        a.push((k, v))
    }
}

/// Attribute names are unique.
pub open spec fn keys_unique(a: Seq<(Seq<char>, Seq<char>)>) -> bool {
    forall|i: int, j: int| 0 <= i < j < a.len() ==> a[i].0 != a[j].0
}

pub proof fn lemma_attr_index_from(a: Seq<(Seq<char>, Seq<char>)>, k: Seq<char>, i: int)
    requires
        0 <= i,
    ensures
        attr_index_from(a, k, i) == -1 || (i <= attr_index_from(a, k, i) < a.len()
            && a[attr_index_from(a, k, i)].0 == k),
        attr_index_from(a, k, i) == -1 ==> forall|j: int| i <= j < a.len() ==> a[j].0 != k,
        forall|j: int| i <= j < attr_index_from(a, k, i) ==> a[j].0 != k,
    decreases a.len() - i,
{
    if i < a.len() && a[i].0 != k {
        lemma_attr_index_from(a, k, i + 1);
    }
}

pub proof fn lemma_attr_set(a: Seq<(Seq<char>, Seq<char>)>, k: Seq<char>, v: Seq<char>, q: Seq<char>)
    requires
        keys_unique(a),
    ensures
        keys_unique(attr_set(a, k, v)),
        attr_get(attr_set(a, k, v), q) == if q == k { Some(v) } else { attr_get(a, q) },
{
    lemma_attr_index_from(a, k, 0);
    lemma_attr_index_from(a, q, 0);
    let b = attr_set(a, k, v);
    lemma_attr_index_from(b, q, 0);
    let ib = attr_index(b, q);
    let ia = attr_index(a, q);
    if attr_index(a, k) >= 0 {
        assert(keys_unique(b)) by {
            assert forall|i: int, j: int| 0 <= i < j < b.len() implies b[i].0 != b[j].0 by {
                assert(a[i].0 != a[j].0);
            }
        }
        assert(forall|j: int| 0 <= j < a.len() ==> b[j].0 == a[j].0);
        if ib >= 0 {
            assert(a[ib].0 == q);
            assert(ia == ib) by {
                if ia < ib { assert(b[ia].0 == q); }
            }
        } else if ia >= 0 {
            assert(b[ia].0 == q);
        }
    } else {
        assert(keys_unique(b)) by {
            assert forall|i: int, j: int| 0 <= i < j < b.len() implies b[i].0 != b[j].0 by {
                if j < a.len() {
                    assert(a[i].0 != a[j].0);
                }
            }
        }
        assert(forall|j: int| 0 <= j < a.len() ==> b[j] == a[j]);
        if ia >= 0 {
            assert(b[ia].0 == q);
            assert(ib == ia) by {
                if ib < ia { assert(a[ib].0 == q); }
            }
        } else if ib >= 0 {
            if ib < a.len() {
                assert(a[ib].0 == q);
            }
            assert(ib == a.len());
            assert(q == k);
        } else if q == k {
            assert(b[a.len() as int].0 == q);
        }
    }
}

/// Structural well-formedness: text nodes are leaves without attributes,
/// and every attribute list has unique names.
pub open spec fn dom_wf(n: DomNode) -> bool
    decreases n,
{
    &&& keys_unique(n.attrs)
    &&& (n.kind is Text ==> n.children.len() == 0 && n.attrs.len() == 0)
    &&& forall|i: int| 0 <= i < n.children.len() ==> dom_wf(#[trigger] n.children[i])
}

impl Node {
    pub open spec fn wf(&self) -> bool {
        dom_wf(self@)
    }

    pub fn new_element(tag_name: &str) -> (r: Node)
        ensures
            r@ == (DomNode { kind: DomKind::Element(tag_name@), attrs: Seq::empty(), children: Seq::empty() }),
            r.wf(),
    {
        let r = Node {
            node_type: NodeType::Element(String::from_str(tag_name)),
            children: Vec::new(),
            attributes: Vec::new(),
        };
        proof {
            assert(r@.attrs =~= Seq::empty());
            assert(r@.children =~= Seq::empty());
        }
        r
    }

    pub fn new_text(data: &str) -> (r: Node)
        ensures
            r@ == (DomNode { kind: DomKind::Text(data@), attrs: Seq::empty(), children: Seq::empty() }),
            r.wf(),
    {
        let r = Node {
            node_type: NodeType::Text(String::from_str(data)),
            children: Vec::new(),
            attributes: Vec::new(),
        };
        proof {
            assert(r@.attrs =~= Seq::empty());
            assert(r@.children =~= Seq::empty());
        }
        r
    }

    pub fn new_document() -> (r: Node)
        ensures
            r@ == empty_dom(),
            r.wf(),
    {
        let r = Node { node_type: NodeType::Document, children: Vec::new(), attributes: Vec::new() };
        proof {
            assert(r@.attrs =~= Seq::empty());
            assert(r@.children =~= Seq::empty());
        }
        r
    }

    pub fn add_child(&mut self, child: Node)
        ensures
            final(self)@ == (DomNode { children: old(self)@.children.push(child@), ..old(self)@ }),
            old(self).wf() && child.wf() && !(old(self)@.kind is Text) ==> final(self).wf(),
    {
        self.children.push(child);
        proof {
            assert(self@.children =~= old(self)@.children.push(child@));
            assert(self@.attrs =~= old(self)@.attrs);
        }
    }

    pub fn set_attribute(&mut self, key: &str, value: &str)
        ensures
            final(self)@ == (DomNode { attrs: attr_set(old(self)@.attrs, key@, value@), ..old(self)@ }),
            keys_unique(old(self)@.attrs) ==> keys_unique(final(self)@.attrs),
            forall|q: Seq<char>|
                keys_unique(old(self)@.attrs) ==> #[trigger] attr_get(final(self)@.attrs, q) == if q
                    == key@ {
                    Some(value@)
                } else {
                    attr_get(old(self)@.attrs, q)
                },
    {
        let ghost a = old(self)@.attrs;
        let k = String::from_str(key);
        let n = self.attributes.len();
        let mut i: usize = 0;
        proof { lemma_attr_index_from(a, key@, 0); }
        while i < n && !(self.attributes[i].0 == k)
            invariant
                n == self.attributes@.len(),
                self.attributes@ == old(self).attributes@,
                *self == *old(self),
                a == attrs_view(self.attributes@),
                a.len() == n,
                k@ == key@,
                i <= n,
                attr_index_from(a, key@, i as int) == attr_index(a, key@),
            decreases n - i,
        {
            assert(a[i as int].0 == self.attributes@[i as int].0@);
            i += 1;
        }
        proof {
            lemma_attr_index_from(a, key@, 0);
            if i < n {
                assert(a[i as int].0 == self.attributes@[i as int].0@);
            }
        }
        if i < n {
            self.attributes.set(i, (String::from_str(key), String::from_str(value)));
        } else {
            self.attributes.push((String::from_str(key), String::from_str(value)));
        }
        proof {
            assert(self@.attrs =~= attr_set(a, key@, value@));
            assert(self@.children =~= old(self)@.children);
            assert forall|q: Seq<char>| keys_unique(a) implies #[trigger] attr_get(self@.attrs, q) == if q
                == key@ {
                Some(value@)
            } else {
                attr_get(a, q)
            } by {
                lemma_attr_set(a, key@, value@, q);
            }
            if keys_unique(a) {
                lemma_attr_set(a, key@, value@, key@);
            }
        }
    }

    /// The value of the attribute named `key`, if the node has one.
    pub fn get_attribute(&self, key: &str) -> (r: Option<String>)
        ensures
            r.is_some() == attr_get(self@.attrs, key@).is_some(),
            r.is_some() ==> r.unwrap()@ == attr_get(self@.attrs, key@).unwrap(),
    {
        let ghost a = self@.attrs;
        let k = String::from_str(key);
        let n = self.attributes.len();
        let mut i: usize = 0;
        proof { lemma_attr_index_from(a, key@, 0); }
        while i < n
            invariant
                n == self.attributes@.len(),
                a == attrs_view(self.attributes@),
                a.len() == n,
                k@ == key@,
                i <= n,
                attr_index_from(a, key@, i as int) == attr_index(a, key@),
            decreases n - i,
        {
            assert(a[i as int] == (self.attributes@[i as int].0@, self.attributes@[i as int].1@));
            if self.attributes[i].0 == k {
                return Some(self.attributes[i].1.clone());
            }
            i += 1;
        }
        None
    }

    pub fn children(&self) -> (r: &[Node])
        ensures
            r@ == self.children@,
    {
        self.children.as_slice()
    }

    pub fn children_mut(&mut self) -> (r: &mut Vec<Node>)
        ensures
            *r == old(self).children,
            final(self).children == *final(r),
            final(self).node_type == old(self).node_type,
            final(self).attributes == old(self).attributes,
    {
        &mut self.children
    }

    pub fn attributes(&self) -> (r: &Vec<(String, String)>)
        ensures
            r@ == self.attributes@,
    {
        &self.attributes
    }

    pub fn attributes_mut(&mut self) -> (r: &mut Vec<(String, String)>)
        ensures
            *r == old(self).attributes,
            final(self).attributes == *final(r),
            final(self).node_type == old(self).node_type,
            final(self).children == old(self).children,
    {
        &mut self.attributes
    }
}

} // verus!
