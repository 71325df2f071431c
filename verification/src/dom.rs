//! The document tree: text, comment and element nodes, with ordered
//! attribute maps.

use crate::chars;
use vstd::prelude::*;

verus! {

/// One attribute as it appears in specifications: name and value.
pub type AttrV = (Seq<char>, Seq<char>);

/// The value stored under a name: the first entry that carries it.
pub open spec fn attrs_get(s: Seq<AttrV>, name: Seq<char>) -> Option<Seq<char>>
    decreases s.len(),
{
    if s.len() == 0 {
        None
    } else if s[0].0 == name {
        Some(s[0].1)
    } else {
        attrs_get(s.drop_first(), name)
    }
}

/// Last writer wins: the entry that carries the name is overwritten in
/// place; a new name is appended at the end.
pub open spec fn attrs_insert(s: Seq<AttrV>, name: Seq<char>, value: Seq<char>) -> Seq<AttrV>
    decreases s.len(),
{
    if s.len() == 0 {
        seq![(name, value)]
    } else if s[0].0 == name {
        seq![(name, value)] + s.drop_first()
    } else {
        seq![s[0]] + attrs_insert(s.drop_first(), name, value)
    }
}

/// `attrs_get` finds the first entry with the given name.
pub proof fn lemma_attrs_get_at(s: Seq<AttrV>, name: Seq<char>, i: int)
    requires
        0 <= i < s.len(),
        s[i].0 == name,
        forall|j: int| 0 <= j < i ==> s[j].0 != name,
    ensures
        attrs_get(s, name) == Some(s[i].1),
    decreases i,
{
    if i > 0 {
        lemma_attrs_get_at(s.drop_first(), name, i - 1);
    }
}

/// `attrs_get` is `None` when no entry has the given name.
pub proof fn lemma_attrs_get_none(s: Seq<AttrV>, name: Seq<char>)
    requires
        forall|j: int| 0 <= j < s.len() ==> s[j].0 != name,
    ensures
        attrs_get(s, name) is None,
    decreases s.len(),
{
    if s.len() > 0 {
        lemma_attrs_get_none(s.drop_first(), name);
    }
}

/// `attrs_insert` overwrites the first entry with the given name.
pub proof fn lemma_attrs_insert_at(s: Seq<AttrV>, name: Seq<char>, value: Seq<char>, i: int)
    requires
        0 <= i < s.len(),
        s[i].0 == name,
        forall|j: int| 0 <= j < i ==> s[j].0 != name,
    ensures
        attrs_insert(s, name, value) =~= s.update(i, (name, value)),
    decreases i,
{
    if i > 0 {
        lemma_attrs_insert_at(s.drop_first(), name, value, i - 1);
        assert(attrs_insert(s, name, value) =~= seq![s[0]] + s.drop_first().update(
            i - 1,
            (name, value),
        ));
    }
}

/// `attrs_insert` appends when no entry has the given name.
pub proof fn lemma_attrs_insert_none(s: Seq<AttrV>, name: Seq<char>, value: Seq<char>)
    requires
        forall|j: int| 0 <= j < s.len() ==> s[j].0 != name,
    ensures
        attrs_insert(s, name, value) =~= s.push((name, value)),
    decreases s.len(),
{
    if s.len() > 0 {
        lemma_attrs_insert_none(s.drop_first(), name, value);
    }
}

/// An attribute map: ordered name/value pairs. The parser fills it through
/// `insert` alone, which keeps names unique.
#[derive(Debug, PartialEq, Eq)]
pub struct AttrMap {
    entries: Vec<(String, String)>,
}

impl View for AttrMap {
    type V = Seq<AttrV>;

    closed spec fn view(&self) -> Seq<AttrV> {
        Seq::new(self.entries@.len(), |i: int| (self.entries@[i].0@, self.entries@[i].1@))
    }
}

impl AttrMap {
    pub fn new() -> (r: AttrMap)
        ensures
            r@ == Seq::<AttrV>::empty(),
    {
        let r = AttrMap { entries: Vec::new() };
        proof {
            assert(r@ =~= Seq::<AttrV>::empty());
        }
        r
    }

    /// The position of the first entry named `name`, if any.
    fn find(&self, name: &str) -> (r: Option<usize>)
        ensures
            match r {
                Some(i) => 0 <= i < self@.len() && self@[i as int].0 == name@ && forall|j: int|
                    0 <= j < i ==> self@[j].0 != name@,
                None => forall|j: int| 0 <= j < self@.len() ==> self@[j].0 != name@,
            },
    {
        let n = self.entries.len();
        for i in 0..n
            invariant
                n == self.entries.len(),
                forall|j: int| 0 <= j < i ==> self@[j].0 != name@,
        {
            if chars::str_eq(self.entries[i].0.as_str(), name) {
                return Some(i);
            }
        }
        None
    }

    /// The value stored under `name`, if any.
    pub fn get(&self, name: &str) -> (r: Option<&String>)
        ensures
            match r {
                Some(v) => attrs_get(self@, name@) == Some(v@),
                None => attrs_get(self@, name@) is None,
            },
    {
        match self.find(name) {
            Some(i) => {
                proof {
                    lemma_attrs_get_at(self@, name@, i as int);
                }
                Some(&self.entries[i].1)
            },
            None => {
                proof {
                    lemma_attrs_get_none(self@, name@);
                }
                None
            },
        }
    }

    /// Store `value` under `name`; an earlier entry with the same name is
    /// overwritten in place, otherwise the entry is appended.
    pub fn insert(&mut self, name: String, value: String)
        ensures
            final(self)@ == attrs_insert(old(self)@, name@, value@),
    {
        let ghost s0 = self@;
        let ghost nv = name@;
        let ghost vv = value@;
        match self.find(name.as_str()) {
            Some(i) => {
                proof {
                    lemma_attrs_insert_at(s0, nv, vv, i as int);
                }
                self.entries.set(i, (name, value));
                proof {
                    assert(self@ =~= s0.update(i as int, (nv, vv)));
                }
            },
            None => {
                proof {
                    lemma_attrs_insert_none(s0, nv, vv);
                }
                self.entries.push((name, value));
                proof {
                    assert(self@ =~= s0.push((nv, vv)));
                }
            },
        }
    }
}

impl AttrMap {
    /// How many attributes are stored.
    pub fn len(&self) -> (r: usize)
        ensures
            r == self@.len(),
    {
        self.entries.len()
    }

    /// The attribute at a position, in stored order.
    pub fn entry(&self, i: usize) -> (r: &(String, String))
        requires
            i < self@.len(),
        ensures
            (r.0@, r.1@) == self@[i as int],
    {
        &self.entries[i]
    }
}

impl Clone for AttrMap {
    fn clone(&self) -> (r: Self)
        ensures
            r@ == self@,
    {
        let mut entries: Vec<(String, String)> = Vec::new();
        let n = self.entries.len();
        for i in 0..n
            invariant
                n == self.entries.len(),
                entries@.len() == i,
                forall|j: int|
                    0 <= j < i ==> entries@[j].0@ == self.entries@[j].0@ && entries@[j].1@
                        == self.entries@[j].1@,
        {
            let name = self.entries[i].0.clone();
            let value = self.entries[i].1.clone();
            entries.push((name, value));
        }
        let r = AttrMap { entries };
        proof {
            assert(r@ =~= self@);
        }
        r
    }
}

/// The data of an element node: tag name and attributes.
#[derive(Debug, PartialEq, Eq)]
pub struct ElementData {
    pub tag_name: String,
    pub attributes: AttrMap,
}

/// Specification view of an element's data.
pub struct ElementDataV {
    pub tag_name: Seq<char>,
    pub attributes: Seq<AttrV>,
}

impl View for ElementData {
    type V = ElementDataV;

    open spec fn view(&self) -> ElementDataV {
        ElementDataV { tag_name: self.tag_name@, attributes: self.attributes@ }
    }
}

impl ElementData {
    /// The element's `id` attribute, if present.
    pub fn id(&self) -> (r: Option<&String>)
        ensures
            match r {
                Some(v) => attrs_get(self@.attributes, "id"@) == Some(v@),
                None => attrs_get(self@.attributes, "id"@) is None,
            },
    {
        self.attributes.get("id")
    }

    /// The element's class names: the `class` attribute split at every
    /// space, or nothing when the attribute is absent.
    pub fn classes(&self) -> (r: Vec<String>)
        ensures
            match attrs_get(self@.attributes, "class"@) {
                Some(list) => r.deep_view() == split_spaces(list),
                None => r.deep_view() == Seq::<Seq<char>>::empty(),
            },
    {
        match self.attributes.get("class") {
            Some(list) => split_at_spaces(list.as_str()),
            None => {
                let r: Vec<String> = Vec::new();
                proof {
                    assert(r.deep_view() =~= Seq::<Seq<char>>::empty());
                }
                r
            },
        }
    }
}

impl Clone for ElementData {
    fn clone(&self) -> (r: Self)
        ensures
            r@ == self@,
    {
        let r = ElementData {
            tag_name: self.tag_name.clone(),
            attributes: self.attributes.clone(),
        };
        r
    }
}

/// A list split at every `' '`; consecutive spaces yield empty pieces.
pub open spec fn split_spaces(s: Seq<char>) -> Seq<Seq<char>>
    decreases s.len(),
{
    if s.len() == 0 {
        seq![Seq::<char>::empty()]
    } else if s[0] == ' ' {
        seq![Seq::<char>::empty()] + split_spaces(s.drop_first())
    } else {
        let r = split_spaces(s.drop_first());
        seq![seq![s[0]] + r[0]] + r.drop_first()
    }
}

/// A split has at least one piece.
pub proof fn lemma_split_spaces_len(s: Seq<char>)
    ensures
        split_spaces(s).len() >= 1,
    decreases s.len(),
{
    if s.len() > 0 {
        lemma_split_spaces_len(s.drop_first());
    }
}

/// Split a string at every space character.
pub fn split_at_spaces(s: &str) -> (r: Vec<String>)
    ensures
        r.deep_view() == split_spaces(s@),
{
    let n = s.unicode_len();
    let mut pieces: Vec<String> = Vec::new();
    let mut piece: String = String::new();
    let mut start: usize = 0;
    let mut i: usize = 0;
    proof {
        assert(s@.subrange(0, n as int) =~= s@);
        assert(piece@ =~= s@.subrange(0, 0));
        assert(pieces.deep_view() =~= Seq::<Seq<char>>::empty());
    }
    while i < n
        invariant
            n == s@.len(),
            0 <= start <= i <= n,
            piece@ == s@.subrange(start as int, i as int),
            forall|j: int| start <= j < i ==> s@[j] != ' ',
            split_spaces(s@) == pieces.deep_view() + split_spaces(
                s@.subrange(start as int, n as int),
            ),
        decreases n - i,
    {
        let c = s.get_char(i);
        if c == ' ' {
            let ghost st = start as int;
            let ghost old_pieces = pieces.deep_view();
            proof {
                lemma_split_spaces_step(s@, st, i as int);
            }
            pieces.push(piece);
            piece = String::new();
            start = i + 1;
            proof {
                assert(pieces.deep_view() =~= old_pieces.push(s@.subrange(st, i as int)));
                assert(piece@ =~= s@.subrange(start as int, start as int));
                assert(old_pieces + (seq![s@.subrange(st, i as int)] + split_spaces(
                    s@.subrange(start as int, n as int),
                )) =~= pieces.deep_view() + split_spaces(s@.subrange(start as int, n as int)));
            }
        } else {
            chars::push_char(&mut piece, c);
            proof {
                assert(piece@ =~= s@.subrange(start as int, (i + 1) as int));
            }
        }
        i = i + 1;
    }
    proof {
        lemma_split_spaces_end(s@, start as int);
        assert(piece@ =~= s@.subrange(start as int, n as int));
    }
    let ghost old_pieces = pieces.deep_view();
    pieces.push(piece);
    proof {
        assert(pieces.deep_view() =~= old_pieces.push(s@.subrange(start as int, n as int)));
        assert(pieces.deep_view() =~= old_pieces + seq![s@.subrange(start as int, n as int)]);
    }
    pieces
}

/// Splitting a suffix whose first space is at `i` peels off one piece.
proof fn lemma_split_spaces_step(s: Seq<char>, start: int, i: int)
    requires
        0 <= start <= i < s.len(),
        s[i] == ' ',
        forall|j: int| start <= j < i ==> s[j] != ' ',
    ensures
        split_spaces(s.subrange(start, s.len() as int)) =~= seq![s.subrange(start, i)]
            + split_spaces(s.subrange(i + 1, s.len() as int)),
    decreases i - start,
{
    let tail = s.subrange(start, s.len() as int);
    if i == start {
        assert(tail[0] == ' ');
        assert(tail.drop_first() =~= s.subrange(i + 1, s.len() as int));
        assert(s.subrange(start, i) =~= Seq::<char>::empty());
    } else {
        assert(tail[0] != ' ');
        lemma_split_spaces_step(s, start + 1, i);
        assert(tail.drop_first() =~= s.subrange(start + 1, s.len() as int));
        let r = split_spaces(tail.drop_first());
        lemma_split_spaces_len(s.subrange(i + 1, s.len() as int));
        assert(r[0] == s.subrange(start + 1, i));
        assert(seq![tail[0]] + r[0] =~= s.subrange(start, i));
        assert(r.drop_first() =~= split_spaces(s.subrange(i + 1, s.len() as int)));
    }
}

/// Splitting a suffix without spaces yields that suffix alone.
proof fn lemma_split_spaces_end(s: Seq<char>, start: int)
    requires
        0 <= start <= s.len(),
        forall|j: int| start <= j < s.len() ==> s[j] != ' ',
    ensures
        split_spaces(s.subrange(start, s.len() as int)) =~= seq![s.subrange(start, s.len() as int)],
    decreases s.len() - start,
{
    let tail = s.subrange(start, s.len() as int);
    if start < s.len() {
        assert(tail[0] != ' ');
        lemma_split_spaces_end(s, start + 1);
        assert(tail.drop_first() =~= s.subrange(start + 1, s.len() as int));
        let r = split_spaces(tail.drop_first());
        assert(r[0] == s.subrange(start + 1, s.len() as int));
        assert(seq![tail[0]] + r[0] =~= s.subrange(start, s.len() as int));
        assert(r.drop_first() =~= Seq::<Seq<char>>::empty());
    } else {
        assert(tail =~= Seq::<char>::empty());
    }
}

/// A node of the document tree.
#[derive(Debug, PartialEq, Eq)]
pub struct Node {
    pub node_type: NodeType,
    pub children: Vec<Node>,
}

/// What a node is: text, an element, or a comment.
#[derive(Debug, PartialEq, Eq)]
pub enum NodeType {
    Text(String),
    Element(ElementData),
    Comment,
}

/// Specification view of a node.
pub struct NodeV {
    pub node_type: NodeTypeV,
    pub children: Seq<NodeV>,
}

/// Specification view of a node's kind.
pub enum NodeTypeV {
    Text(Seq<char>),
    Element(ElementDataV),
    Comment,
}

impl View for NodeType {
    type V = NodeTypeV;

    open spec fn view(&self) -> NodeTypeV {
        match self {
            NodeType::Text(s) => NodeTypeV::Text(s@),
            NodeType::Element(e) => NodeTypeV::Element(e@),
            NodeType::Comment => NodeTypeV::Comment,
        }
    }
}

/// The view of a node, taken recursively over its children.
pub open spec fn node_view(n: Node) -> NodeV
    decreases n,
{
    NodeV { node_type: n.node_type@, children: nodes_view(n.children@) }
}

/// The views of a sequence of nodes.
pub open spec fn nodes_view(s: Seq<Node>) -> Seq<NodeV>
    decreases s,
{
    if s.len() == 0 {
        Seq::empty()
    } else {
        nodes_view(s.drop_last()).push(node_view(s.last()))
    }
}

impl View for Node {
    type V = NodeV;

    open spec fn view(&self) -> NodeV {
        node_view(*self)
    }
}

impl DeepView for Node {
    type V = NodeV;

    open spec fn deep_view(&self) -> NodeV {
        node_view(*self)
    }
}

/// `nodes_view` of a vector's contents is its deep view.
pub proof fn lemma_nodes_view_is_deep(v: Vec<Node>)
    ensures
        nodes_view(v@) == v.deep_view(),
{
    lemma_nodes_view_index(v@);
    assert(nodes_view(v@) =~= v.deep_view());
}

/// `nodes_view` maps `node_view` over the sequence, index by index.
pub proof fn lemma_nodes_view_index(s: Seq<Node>)
    ensures
        nodes_view(s).len() == s.len(),
        forall|i: int| 0 <= i < s.len() ==> nodes_view(s)[i] == node_view(s[i]),
    decreases s.len(),
{
    if s.len() > 0 {
        lemma_nodes_view_index(s.drop_last());
    }
}

impl Clone for NodeType {
    fn clone(&self) -> (r: Self)
        ensures
            r@ == self@,
    {
        match self {
            NodeType::Text(s) => NodeType::Text(s.clone()),
            NodeType::Element(e) => NodeType::Element(e.clone()),
            NodeType::Comment => NodeType::Comment,
        }
    }
}

/// A text node with the given payload.
pub fn text(data: String) -> (r: Node)
    ensures
        r@.node_type == NodeTypeV::Text(data@),
        r@.children == Seq::<NodeV>::empty(),
{
    Node { node_type: NodeType::Text(data), children: Vec::new() }
}

/// A comment node.
pub fn comment() -> (r: Node)
    ensures
        r@.node_type == NodeTypeV::Comment,
        r@.children == Seq::<NodeV>::empty(),
{
    Node { node_type: NodeType::Comment, children: Vec::new() }
}

/// An element node with the given tag name, attributes and children.
pub fn element(tag_name: String, attrs: AttrMap, children: Vec<Node>) -> (r: Node)
    ensures
        r@.node_type == NodeTypeV::Element(
            ElementDataV { tag_name: tag_name@, attributes: attrs@ },
        ),
        r@.children == nodes_view(children@),
{
    Node {
        node_type: NodeType::Element(ElementData { tag_name, attributes: attrs }),
        children,
    }
}

} // verus!
