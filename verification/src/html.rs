//! The HTML parser: a single-pass recursive-descent parser over a
//! character cursor, producing a document tree.

use crate::chars;
use crate::dom::{self, AttrMap, AttrV, ElementDataV, Node, NodeType, NodeTypeV, NodeV};
use crate::errors::ParseError;
use vstd::prelude::*;

verus! {

/// What `Parser::parse_comment` consumes and yields: a `<`, then
/// everything up to (but not including) the next `<`.
pub open spec fn sp_comment(src: Seq<char>, pos: int) -> Option<(NodeV, int)> {
    if pos >= src.len() {
        None
    } else if src[pos] != '<' {
        None
    } else {
        Some(
            (
                NodeV { node_type: NodeTypeV::Comment, children: Seq::empty() },
                chars::until_end(src, pos + 1, '<'),
            ),
        )
    }
}

/// What `Parser::parse_text` consumes and yields: everything up to the
/// next `<`.
pub open spec fn sp_text(src: Seq<char>, pos: int) -> (NodeV, int) {
    let e = chars::until_end(src, pos, '<');
    (NodeV { node_type: NodeTypeV::Text(src.subrange(pos, e)), children: Seq::empty() }, e)
}

/// What `Parser::parse_attributes_value` consumes and yields: a quoted
/// value; the quote may be single or double, and the value ends at its
/// match.
pub open spec fn sp_attr_value(src: Seq<char>, pos: int) -> Option<(Seq<char>, int)> {
    if pos >= src.len() {
        None
    } else {
        let q = src[pos];
        if q != '"' && q != '\'' {
            None
        } else {
            let e = chars::until_end(src, pos + 1, q);
            if e >= src.len() {
                None
            } else {
                Some((src.subrange(pos + 1, e), e + 1))
            }
        }
    }
}

/// What `Parser::parse_attr` consumes and yields: `name = "value"`.
pub open spec fn sp_attr(src: Seq<char>, pos: int) -> Option<((Seq<char>, Seq<char>), int)> {
    let ne = chars::tag_end(src, pos);
    if ne >= src.len() {
        None
    } else if src[ne] != '=' {
        None
    } else {
        match sp_attr_value(src, ne + 1) {
            None => None,
            Some((v, p2)) => Some(((src.subrange(pos, ne), v), p2)),
        }
    }
}

/// What `Parser::parse_attributes` consumes and yields: attributes up to
/// the closing `>`, which is left in place. A repeated name overwrites the
/// earlier value.
pub open spec fn sp_attributes(src: Seq<char>, pos: int, acc: Seq<AttrV>) -> Option<
    (Seq<AttrV>, int),
>
    decreases src.len() - pos,
{
    let p2 = chars::ws_end(src, pos);
    if p2 >= src.len() {
        None
    } else if src[p2] == '>' {
        Some((acc, p2))
    } else {
        match sp_attr(src, p2) {
            None => None,
            Some(((n, v), p3)) => if pos < p3 <= src.len() {
                sp_attributes(src, p3, dom::attrs_insert(acc, n, v))
            } else {
                None
            },
        }
    }
}

/// What `Parser::parse_element` consumes and yields: an opening tag,
/// child nodes, and a matching closing tag.
pub open spec fn sp_element(src: Seq<char>, pos: int) -> Option<(NodeV, int)>
    decreases src.len() - pos, 0int,
{
    if pos >= src.len() {
        None
    } else if src[pos] != '<' {
        None
    } else {
        let ne = chars::tag_end(src, pos + 1);
        let tag = src.subrange(pos + 1, ne);
        if !(pos < ne <= src.len()) {
            None
        } else {
            match sp_attributes(src, ne, Seq::empty()) {
                None => None,
                Some((attrs, p2)) => {
                    let p3 = p2 + 1;  // the `>` after the attributes
                    if !(pos < p3 <= src.len()) {
                        None
                    } else {
                        match sp_nodes(src, p3) {
                            None => None,
                            Some((children, p4)) => if p4 >= src.len() {
                                None
                            } else if src[p4] != '<' {
                                None
                            } else if p4 + 1 >= src.len() {
                                None
                            } else if src[p4 + 1] != '/' {
                                None
                            } else {
                                let ce = chars::tag_end(src, p4 + 2);
                                if src.subrange(p4 + 2, ce) != tag {
                                    None
                                } else if ce >= src.len() {
                                    None
                                } else if src[ce] != '>' {
                                    None
                                } else {
                                    Some(
                                        (
                                            NodeV {
                                                node_type: NodeTypeV::Element(
                                                    ElementDataV { tag_name: tag, attributes: attrs },
                                                ),
                                                children,
                                            },
                                            ce + 1,
                                        ),
                                    )
                                }
                            },
                        }
                    }
                },
            }
        }
    }
}

/// What `Parser::parse_node` consumes and yields: a comment after `<!`,
/// an element after any other `<`, text otherwise.
pub open spec fn sp_node(src: Seq<char>, pos: int) -> Option<(NodeV, int)>
    decreases src.len() - pos, 1int,
{
    if pos >= src.len() {
        None
    } else if src[pos] == '<' {
        if pos + 1 >= src.len() {
            None
        } else if src[pos + 1] == '!' {
            sp_comment(src, pos)
        } else {
            sp_element(src, pos)
        }
    } else {
        Some(sp_text(src, pos))
    }
}

/// What `Parser::parse_nodes` consumes and yields: nodes separated by
/// white space, stopped by the end of the text or by the literal `</`.
pub open spec fn sp_nodes(src: Seq<char>, pos: int) -> Option<(Seq<NodeV>, int)>
    decreases src.len() - pos, 2int,
{
    let p2 = chars::ws_end(src, pos);
    if !(pos <= p2 <= src.len()) {
        None
    } else if p2 >= src.len() {
        Some((Seq::empty(), p2))
    } else if p2 + 2 <= src.len() && src[p2] == '<' && src[p2 + 1] == '/' {
        Some((Seq::empty(), p2))
    } else {
        match sp_node(src, p2) {
            None => None,
            Some((n, p3)) => if p2 < p3 <= src.len() {
                match sp_nodes(src, p3) {
                    None => None,
                    Some((ns, p4)) => Some((seq![n] + ns, p4)),
                }
            } else {
                None
            },
        }
    }
}

/// What `parse` yields on a whole source text: the last top-level node.
pub open spec fn sp_html(src: Seq<char>) -> Option<NodeV> {
    match sp_nodes(src, 0) {
        None => None,
        Some((ns, _)) => if ns.len() == 0 {
            None
        } else {
            Some(ns.last())
        },
    }
}


// --- the round trip of well-formed element trees ---

/// A usable tag or attribute name: non-empty ASCII letters and digits.
pub open spec fn wf_tag(s: Seq<char>) -> bool {
    s.len() > 0 && forall|i: int| 0 <= i < s.len() ==> chars::is_tag_char(#[trigger] s[i])
}

/// Attributes that survive serialization: named by tags, unique, and with
/// values free of double quotes.
pub open spec fn wf_attrs(attrs: Seq<AttrV>) -> bool {
    &&& forall|i: int|
        0 <= i < attrs.len() ==> wf_tag((#[trigger] attrs[i]).0) && (forall|k: int|
            0 <= k < attrs[i].1.len() ==> (#[trigger] attrs[i].1[k]) != '"')
    &&& forall|i: int, j: int| 0 <= i < j < attrs.len() ==> attrs[i].0 != attrs[j].0
}

/// A tree made solely of balanced elements with quoted attributes and
/// ASCII tag names.
pub open spec fn wf_element_tree(n: NodeV) -> bool
    decreases n, 0int,
{
    match n.node_type {
        NodeTypeV::Element(e) => wf_tag(e.tag_name) && wf_attrs(e.attributes) && wf_element_forest(
            n.children,
        ),
        _ => false,
    }
}

/// A forest of such trees.
pub open spec fn wf_element_forest(ns: Seq<NodeV>) -> bool
    decreases ns, 1int,
{
    if ns.len() == 0 {
        true
    } else {
        wf_element_tree(ns[0]) && wf_element_forest(ns.drop_first())
    }
}

/// Serialized attributes: ` name="value"` for each, in stored order.
pub open spec fn ser_attrs(attrs: Seq<AttrV>) -> Seq<char>
    decreases attrs.len(),
{
    if attrs.len() == 0 {
        Seq::empty()
    } else {
        seq![' '] + attrs[0].0 + seq!['=', '"'] + attrs[0].1 + seq!['"'] + ser_attrs(
            attrs.drop_first(),
        )
    }
}

/// A serialized element: open tag with attributes, children, close tag.
pub open spec fn ser_node(n: NodeV) -> Seq<char>
    decreases n, 0int,
{
    match n.node_type {
        NodeTypeV::Element(e) => seq!['<'] + e.tag_name + ser_attrs(e.attributes) + seq!['>']
            + ser_forest(n.children) + seq!['<', '/'] + e.tag_name + seq!['>'],
        _ => Seq::empty(),
    }
}

/// A serialized forest: the elements one after the other.
pub open spec fn ser_forest(ns: Seq<NodeV>) -> Seq<char>
    decreases ns, 1int,
{
    if ns.len() == 0 {
        Seq::empty()
    } else {
        ser_node(ns[0]) + ser_forest(ns.drop_first())
    }
}

/// A tag character is none of the grammar's punctuation and no space.
proof fn lemma_tag_char_props(c: char)
    ensures
        chars::is_tag_char(c) ==> !chars::is_space(c),
        chars::is_tag_char(c) ==> c != '<' && c != '>' && c != '=' && c != '"' && c != '/' && c
            != '!' && c != ' ',
{
}

/// Splitting a known subrange at a concatenation.
proof fn lemma_split2(src: Seq<char>, pos: int, x: Seq<char>, y: Seq<char>)
    requires
        0 <= pos,
        pos + x.len() + y.len() <= src.len(),
        src.subrange(pos, pos + x.len() + y.len()) == x + y,
    ensures
        src.subrange(pos, pos + x.len()) == x,
        src.subrange(pos + x.len(), pos + x.len() + y.len()) == y,
{
    assert forall|k: int| 0 <= k < x.len() implies src.subrange(pos, pos + x.len())[k]
        == x[k] by {
        assert(src.subrange(pos, pos + x.len() + y.len())[k] == (x + y)[k]);
        assert(src.subrange(pos, pos + x.len())[k] == src[pos + k]);
    }
    assert(src.subrange(pos, pos + x.len()) =~= x);
    assert forall|k: int|
        0 <= k < y.len() implies src.subrange(pos + x.len(), pos + x.len() + y.len())[k]
        == y[k] by {
        assert(src.subrange(pos, pos + x.len() + y.len())[x.len() + k] == (x + y)[x.len() + k]);
        assert(src.subrange(pos, pos + x.len() + y.len())[x.len() + k] == src[pos + (x.len()
            + k)]);
        assert((x + y)[x.len() + k] == y[k]);
        assert(src.subrange(pos + x.len(), pos + x.len() + y.len())[k] == src[pos + x.len() + k]);
    }
    assert(src.subrange(pos + x.len(), pos + x.len() + y.len()) =~= y);
}

/// One character of a known subrange.
proof fn lemma_char_at(src: Seq<char>, pos: int, part: Seq<char>, j: int)
    requires
        0 <= pos,
        0 <= j < part.len(),
        pos + part.len() <= src.len(),
        src.subrange(pos, pos + part.len()) == part,
    ensures
        src[pos + j] == part[j],
{
    assert(src.subrange(pos, pos + part.len())[j] == src[pos + j]);
}

/// Every character of a known tag-shaped subrange is a tag character.
proof fn lemma_tag_span(src: Seq<char>, pos: int, tag: Seq<char>)
    requires
        0 <= pos,
        pos + tag.len() <= src.len(),
        src.subrange(pos, pos + tag.len()) == tag,
        wf_tag(tag),
    ensures
        forall|j: int| pos <= j < pos + tag.len() ==> chars::is_tag_char(#[trigger] src[j]),
{
    assert forall|j: int| pos <= j < pos + tag.len() implies chars::is_tag_char(
        #[trigger] src[j],
    ) by {
        assert(src.subrange(pos, pos + tag.len())[j - pos] == src[j]);
        assert(tag[j - pos] == src[j]);
    }
}

/// Parsing the serialization of well-formed attributes gives them back,
/// appended to the accumulator, with the cursor on the closing `>`.
proof fn lemma_rt_attrs(attrs: Seq<AttrV>, acc: Seq<AttrV>, src: Seq<char>, pos: int)
    requires
        wf_attrs(attrs),
        forall|i: int, j: int|
            0 <= i < acc.len() && 0 <= j < attrs.len() ==> (#[trigger] acc[i]).0 != (
            #[trigger] attrs[j]).0,
        0 <= pos,
        pos + ser_attrs(attrs).len() < src.len(),
        src.subrange(pos, pos + ser_attrs(attrs).len()) == ser_attrs(attrs),
        src[pos + ser_attrs(attrs).len()] == '>',
    ensures
        sp_attributes(src, pos, acc) == Some((acc + attrs, pos + ser_attrs(attrs).len())),
    decreases attrs.len(),
{
    if attrs.len() == 0 {
        assert(src[pos] == '>');
        assert(!chars::is_space('>'));
        chars::lemma_ws_end_is(src, pos, pos);
        assert(acc + attrs =~= acc);
    } else {
        let name = attrs[0].0;
        let value = attrs[0].1;
        let rest = attrs.drop_first();
        let whole = ser_attrs(attrs);
        let head = seq![' '] + name + seq!['=', '"'] + value + seq!['"'];
        let p2 = pos + 1;
        let ne = p2 + name.len() as int;
        let e = ne + 2 + value.len() as int;
        let p3 = e + 1;
        assert(whole =~= head + ser_attrs(rest));
        lemma_split2(src, pos, head, ser_attrs(rest));
        // carve the head into its five pieces
        assert(head =~= seq![' '] + (name + (seq!['=', '"'] + (value + seq!['"']))));
        lemma_split2(src, pos, seq![' '], name + (seq!['=', '"'] + (value + seq!['"'])));
        lemma_split2(src, p2, name, seq!['=', '"'] + (value + seq!['"']));
        lemma_split2(src, ne, seq!['=', '"'], value + seq!['"']);
        lemma_split2(src, ne + 2, value, seq!['"']);
        lemma_char_at(src, pos, seq![' '], 0);
        assert(src[pos] == ' ');
        assert(chars::is_space(' '));
        assert(wf_tag(name));
        lemma_char_at(src, p2, name, 0);
        assert(src[p2] == name[0]);
        lemma_tag_char_props(name[0]);
        chars::lemma_ws_end_is(src, pos, p2);
        lemma_tag_span(src, p2, name);
        lemma_char_at(src, ne, seq!['=', '"'], 0);
        lemma_char_at(src, ne, seq!['=', '"'], 1);
        assert(src[ne] == '=');
        assert(src[ne + 1] == '"');
        assert(!chars::is_tag_char('='));
        chars::lemma_tag_end_is(src, p2, ne);
        assert forall|j: int| ne + 2 <= j < e implies #[trigger] src[j] != '"' by {
            assert(src.subrange(ne + 2, e)[j - (ne + 2)] == src[j]);
            assert(value[j - (ne + 2)] == src[j]);
            assert(attrs[0].1[j - (ne + 2)] != '"');
        }
        lemma_char_at(src, e, seq!['"'], 0);
        assert(src[e] == '"');
        chars::lemma_until_end_is(src, ne + 2, '"', e);
        assert(sp_attr(src, p2) == Some(((name, value), p3)));
        // a fresh name is appended
        assert forall|j: int| 0 <= j < acc.len() implies (#[trigger] acc[j]).0 != name by {
            assert(acc[j].0 != attrs[0].0);
        }
        crate::dom::lemma_attrs_insert_none(acc, name, value);
        // the rest of the attributes follow
        assert(wf_attrs(rest)) by {
            assert(forall|i: int| 0 <= i < rest.len() ==> #[trigger] rest[i] == attrs[i + 1]);
        }
        assert forall|i: int, j: int|
            0 <= i < acc.push((name, value)).len() && 0 <= j < rest.len() implies (
        #[trigger] acc.push((name, value))[i]).0 != (#[trigger] rest[j]).0 by {
            assert(rest[j] == attrs[j + 1]);
            if i < acc.len() {
                assert(acc[i].0 != attrs[j + 1].0);
            } else {
                assert(attrs[0].0 != attrs[j + 1].0);
            }
        }
        lemma_rt_attrs(rest, acc.push((name, value)), src, p3);
        assert(attrs[0] == (name, value));
        assert(acc.push((name, value)) + rest =~= acc + attrs);
    }
}

/// Parsing the serialization of a well-formed element tree gives the tree
/// back, whatever follows it.
proof fn lemma_rt_node(n: NodeV, src: Seq<char>, pos: int)
    requires
        wf_element_tree(n),
        0 <= pos,
        pos + ser_node(n).len() <= src.len(),
        src.subrange(pos, pos + ser_node(n).len()) == ser_node(n),
    ensures
        sp_node(src, pos) == Some((n, pos + ser_node(n).len())),
        ser_node(n).len() >= 2,
    decreases n, 0int,
{
    let e = n.node_type->Element_0;
    let tag = e.tag_name;
    let attrs = e.attributes;
    let whole = ser_node(n);
    let tl = tag.len() as int;
    let al = ser_attrs(attrs).len() as int;
    let fl = ser_forest(n.children).len() as int;
    let o1 = pos + 1;
    let o2 = o1 + tl;
    let o3 = o2 + al;
    let o4 = o3 + 1;
    let o5 = o4 + fl;
    let o6 = o5 + 2;
    let o7 = o6 + tl;
    // carve the serialization into its eight pieces
    assert(whole =~= seq!['<'] + (tag + (ser_attrs(attrs) + (seq!['>'] + (ser_forest(n.children)
        + (seq!['<', '/'] + (tag + seq!['>'])))))));
    lemma_split2(
        src,
        pos,
        seq!['<'],
        tag + (ser_attrs(attrs) + (seq!['>'] + (ser_forest(n.children) + (seq!['<', '/'] + (tag
            + seq!['>']))))),
    );
    lemma_split2(
        src,
        o1,
        tag,
        ser_attrs(attrs) + (seq!['>'] + (ser_forest(n.children) + (seq!['<', '/'] + (tag + seq![
            '>',
        ])))),
    );
    lemma_split2(
        src,
        o2,
        ser_attrs(attrs),
        seq!['>'] + (ser_forest(n.children) + (seq!['<', '/'] + (tag + seq!['>']))),
    );
    lemma_split2(
        src,
        o3,
        seq!['>'],
        ser_forest(n.children) + (seq!['<', '/'] + (tag + seq!['>'])),
    );
    lemma_split2(src, o4, ser_forest(n.children), seq!['<', '/'] + (tag + seq!['>']));
    lemma_split2(src, o5, seq!['<', '/'], tag + seq!['>']);
    lemma_split2(src, o6, tag, seq!['>']);
    lemma_char_at(src, pos, seq!['<'], 0);
    assert(src[pos] == '<');
    assert(wf_tag(tag));
    lemma_char_at(src, o1, tag, 0);
    assert(src[o1] == tag[0]);
    lemma_tag_char_props(tag[0]);
    assert(src[pos + 1] != '!');
    // the open tag name ends at a space or at the closing `>`
    lemma_tag_span(src, o1, tag);
    if attrs.len() == 0 {
        lemma_char_at(src, o3, seq!['>'], 0);
        assert(src[o2] == '>');
        assert(!chars::is_tag_char('>'));
    } else {
        assert(ser_attrs(attrs)[0] == ' ');
        lemma_char_at(src, o2, ser_attrs(attrs), 0);
        assert(src[o2] == ' ');
        assert(!chars::is_tag_char(' '));
    }
    chars::lemma_tag_end_is(src, o1, o2);
    // the attributes end at the `>`
    lemma_char_at(src, o3, seq!['>'], 0);
    assert(src[o3] == '>');
    lemma_rt_attrs(attrs, Seq::empty(), src, o2);
    assert(Seq::empty() + attrs =~= attrs);
    // the children end at the closer
    lemma_char_at(src, o5, seq!['<', '/'], 0);
    lemma_char_at(src, o5, seq!['<', '/'], 1);
    assert(src[o5] == '<');
    assert(src[o5 + 1] == '/');
    lemma_rt_forest(n.children, src, o4);
    // the closing tag name matches
    lemma_tag_span(src, o6, tag);
    lemma_char_at(src, o7, seq!['>'], 0);
    assert(src[o7] == '>');
    assert(!chars::is_tag_char('>'));
    chars::lemma_tag_end_is(src, o6, o7);
    assert(src.subrange(o6, o7) == tag);
    assert(src.subrange(o1, o2) == tag);
    assert(sp_element(src, pos) == Some((n, o7 + 1))) by {
        assert(NodeV {
            node_type: NodeTypeV::Element(ElementDataV { tag_name: tag, attributes: attrs }),
            children: n.children,
        } == n);
    }
    assert(o7 + 1 == pos + whole.len());
}

/// Parsing the serialization of a well-formed forest gives the forest
/// back, stopped by the end of the text or by a closing tag.
proof fn lemma_rt_forest(ns: Seq<NodeV>, src: Seq<char>, pos: int)
    requires
        wf_element_forest(ns),
        0 <= pos,
        pos + ser_forest(ns).len() <= src.len(),
        src.subrange(pos, pos + ser_forest(ns).len()) == ser_forest(ns),
        (pos + ser_forest(ns).len() == src.len()) || (pos + ser_forest(ns).len() + 2 <= src.len()
            && src[pos + ser_forest(ns).len()] == '<' && src[pos + ser_forest(ns).len() + 1]
            == '/'),
    ensures
        sp_nodes(src, pos) == Some((ns, pos + ser_forest(ns).len())),
    decreases ns, 1int,
{
    if ns.len() == 0 {
        if pos == src.len() {
            chars::lemma_ws_end(src, pos);
            assert(ns =~= Seq::<NodeV>::empty());
        } else {
            assert(src[pos] == '<');
            assert(!chars::is_space('<'));
            chars::lemma_ws_end_is(src, pos, pos);
            assert(ns =~= Seq::<NodeV>::empty());
        }
    } else {
        let head = ser_node(ns[0]);
        let rest = ns.drop_first();
        assert(ser_forest(ns) == head + ser_forest(rest));
        lemma_split2(src, pos, head, ser_forest(rest));
        lemma_rt_node(ns[0], src, pos);
        assert(wf_element_tree(ns[0]));
        assert(ns[0].node_type is Element);
        let e = ns[0].node_type->Element_0;
        assert(wf_tag(e.tag_name));
        assert(head =~= seq!['<'] + (e.tag_name + (ser_attrs(e.attributes) + (seq!['>'] + (
        ser_forest(ns[0].children) + (seq!['<', '/'] + (e.tag_name + seq!['>'])))))));
        lemma_char_at(src, pos, head, 0);
        lemma_char_at(src, pos, head, 1);
        assert(head[0] == '<');
        assert(head[1] == e.tag_name[0]);
        assert(src[pos] == '<');
        assert(!chars::is_space('<'));
        chars::lemma_ws_end_is(src, pos, pos);
        // this is an open tag, not a closer
        lemma_tag_char_props(e.tag_name[0]);
        assert(src[pos + 1] != '/');
        let p3 = pos + head.len();
        lemma_rt_forest(rest, src, p3);
        assert(seq![ns[0]] + rest =~= ns);
    }
}

/// The round trip: a tree made solely of balanced elements with quoted
/// attributes and ASCII tag names, serialized and parsed again, is the
/// same tree — the same shape, the same tag names, the same attribute
/// lists.
pub proof fn lemma_html_round_trip(n: NodeV)
    requires
        wf_element_tree(n),
    ensures
        sp_html(ser_node(n)) == Some(n),
{
    let src = ser_node(n);
    let one = seq![n];
    assert(one.drop_first() =~= Seq::<NodeV>::empty());
    assert(wf_element_forest(Seq::<NodeV>::empty()));
    assert(one[0] == n);
    assert(wf_element_forest(one));
    assert(ser_forest(one) == ser_node(one[0]) + ser_forest(one.drop_first()));
    assert(ser_forest(Seq::<NodeV>::empty()) =~= Seq::<char>::empty());
    assert(ser_forest(one) =~= src);
    assert(src.subrange(0, src.len() as int) =~= src);
    lemma_rt_forest(one, src, 0);
    assert(one.last() == n);
}


/// The serialization of one attribute.
pub open spec fn ser_attr1(a: AttrV) -> Seq<char> {
    seq![' '] + a.0 + seq!['=', '"'] + a.1 + seq!['"']
}

/// Serializing one more attribute appends its piece.
proof fn lemma_ser_attrs_snoc(attrs: Seq<AttrV>, a: AttrV)
    ensures
        ser_attrs(attrs.push(a)) == ser_attrs(attrs) + ser_attr1(a),
    decreases attrs.len(),
{
    reveal_with_fuel(ser_attrs, 3);
    if attrs.len() == 0 {
        assert(attrs.push(a)[0] == a);
        assert(attrs.push(a).drop_first() =~= Seq::<AttrV>::empty());
        assert(ser_attrs(attrs.push(a)) =~= ser_attr1(a));
        assert(ser_attrs(attrs) + ser_attr1(a) =~= ser_attr1(a));
    } else {
        assert(attrs.push(a)[0] == attrs[0]);
        assert(attrs.push(a).drop_first() =~= attrs.drop_first().push(a));
        lemma_ser_attrs_snoc(attrs.drop_first(), a);
        assert(ser_attr1(attrs[0]) + (ser_attrs(attrs.drop_first()) + ser_attr1(a)) =~= (ser_attr1(
            attrs[0],
        ) + ser_attrs(attrs.drop_first())) + ser_attr1(a));
        assert(ser_attrs(attrs.push(a)) =~= ser_attrs(attrs) + ser_attr1(a));
    }
}

/// Serializing one more node appends its text.
proof fn lemma_ser_forest_snoc(ns: Seq<NodeV>, n: NodeV)
    ensures
        ser_forest(ns.push(n)) == ser_forest(ns) + ser_node(n),
    decreases ns.len(),
{
    reveal_with_fuel(ser_forest, 3);
    if ns.len() == 0 {
        assert(ns.push(n)[0] == n);
        assert(ns.push(n).drop_first() =~= Seq::<NodeV>::empty());
        assert(ser_forest(ns.push(n)) =~= ser_node(n));
        assert(ser_forest(ns) + ser_node(n) =~= ser_node(n));
    } else {
        assert(ns.push(n)[0] == ns[0]);
        assert(ns.push(n).drop_first() =~= ns.drop_first().push(n));
        lemma_ser_forest_snoc(ns.drop_first(), n);
        assert(ser_node(ns[0]) + (ser_forest(ns.drop_first()) + ser_node(n)) =~= (ser_node(ns[0])
            + ser_forest(ns.drop_first())) + ser_node(n));
        assert(ser_forest(ns.push(n)) =~= ser_forest(ns) + ser_node(n));
    }
}

/// Append a node's serialization: elements become balanced tags with
/// quoted attributes, text and comment nodes nothing.
fn node_to_html_into(node: &Node, out: &mut String)
    ensures
        final(out)@ == old(out)@ + ser_node(node@),
    decreases *node,
{
    let ghost base = out@;
    match &node.node_type {
        NodeType::Element(e) => {
            chars::push_char(out, '<');
            out.append(e.tag_name.as_str());
            let ghost attrs = e.attributes@;
            let na = e.attributes.len();
            proof {
                assert(attrs.subrange(0, 0) =~= Seq::<AttrV>::empty());
                assert(out@ =~= base + seq!['<'] + e.tag_name@ + ser_attrs(
                    attrs.subrange(0, 0),
                ));
            }
            for i in 0..na
                invariant
                    na == e.attributes@.len(),
                    attrs == e.attributes@,
                    out@ == base + seq!['<'] + node@.node_type->Element_0.tag_name + ser_attrs(
                        attrs.subrange(0, i as int),
                    ),
                    node@.node_type->Element_0.tag_name == e.tag_name@,
                decreases na - i,
            {
                let ghost pre = attrs.subrange(0, i as int);
                let ghost post = attrs.subrange(0, i as int + 1);
                let a = e.attributes.entry(i);
                chars::push_char(out, ' ');
                out.append(a.0.as_str());
                chars::push_char(out, '=');
                chars::push_char(out, '"');
                out.append(a.1.as_str());
                chars::push_char(out, '"');
                proof {
                    assert(post.drop_last() =~= pre);
                    assert(post =~= pre.push(attrs[i as int]));
                    lemma_ser_attrs_snoc(pre, attrs[i as int]);
                    assert((a.0@, a.1@) == attrs[i as int]);
                    assert(out@ =~= base + seq!['<'] + node@.node_type->Element_0.tag_name
                        + ser_attrs(post));
                }
            }
            chars::push_char(out, '>');
            let ghost mid = out@;
            proof {
                assert(attrs.subrange(0, na as int) =~= attrs);
                crate::dom::lemma_nodes_view_index(node.children@);
                assert(node@.children.subrange(0, 0) =~= Seq::<NodeV>::empty());
                assert(mid =~= mid + ser_forest(node@.children.subrange(0, 0)));
            }
            let nc = node.children.len();
            for i in 0..nc
                invariant
                    nc == node.children.len(),
                    node@.children.len() == nc,
                    forall|k: int|
                        0 <= k < nc ==> node@.children[k] == crate::dom::node_view(
                            #[trigger] node.children@[k],
                        ),
                    out@ == mid + ser_forest(node@.children.subrange(0, i as int)),
                decreases nc - i,
            {
                let ghost pre = node@.children.subrange(0, i as int);
                let ghost post = node@.children.subrange(0, i as int + 1);
                node_to_html_into(&node.children[i], out);
                proof {
                    assert(post.drop_last() =~= pre);
                    assert(post =~= pre.push(node@.children[i as int]));
                    lemma_ser_forest_snoc(pre, node@.children[i as int]);
                }
            }
            proof {
                assert(node@.children.subrange(0, nc as int) =~= node@.children);
            }
            chars::push_char(out, '<');
            chars::push_char(out, '/');
            out.append(e.tag_name.as_str());
            chars::push_char(out, '>');
            proof {
                assert(out@ =~= base + ser_node(node@));
            }
        },
        _ => {
            proof {
                assert(out@ =~= base + ser_node(node@));
            }
        },
    }
}

/// The serialization of a node: elements become balanced tags with quoted
/// attributes; text and comment nodes have no serialized form here and
/// give the empty string.
pub fn node_to_html(node: &Node) -> (r: String)
    ensures
        r@ == ser_node(node@),
{
    let mut out = String::new();
    node_to_html_into(node, &mut out);
    proof {
        assert(Seq::<char>::empty() + ser_node(node@) =~= ser_node(node@));
    }
    out
}

/// A character cursor over an HTML source text. `pos` counts characters.
#[derive(Debug, PartialEq, Eq)]
pub struct Parser {
    pub pos: usize,
    pub input: String,
}

impl Parser {
    /// The cursor sits inside its text.
    pub open spec fn wf(&self) -> bool {
        self.pos <= self.input@.len()
    }

    /// The character under the cursor.
    pub fn next_char(&self) -> (c: char)
        requires
            self.pos < self.input@.len(),
        ensures
            c == self.input@[self.pos as int],
    {
        self.input.as_str().get_char(self.pos)
    }

    /// The character after the one under the cursor.
    pub fn next_next_char(&self) -> (c: char)
        requires
            self.pos + 1 < self.input@.len(),
        ensures
            c == self.input@[self.pos as int + 1],
    {
        let n = self.input.as_str().unicode_len();
        self.input.as_str().get_char(self.pos + 1)
    }

    /// Whether the remaining text begins with `s`.
    pub fn start_with(&self, s: &str) -> (r: bool)
        requires
            self.wf(),
        ensures
            r == (self.pos + s@.len() <= self.input@.len() && self.input@.subrange(
                self.pos as int,
                self.pos as int + s@.len(),
            ) == s@),
    {
        let m = s.unicode_len();
        let n = self.input.as_str().unicode_len();
        if m > n || self.pos > n - m {
            return false;
        }
        for i in 0..m
            invariant
                m == s@.len(),
                n == self.input@.len(),
                self.pos + m <= n,
                forall|j: int| 0 <= j < i ==> self.input@[self.pos + j] == s@[j],
        {
            if self.input.as_str().get_char(self.pos + i) != s.get_char(i) {
                return false;
            }
        }
        proof {
            assert(self.input@.subrange(self.pos as int, self.pos as int + s@.len()) =~= s@);
        }
        true
    }

    /// Whether the whole text was consumed.
    pub fn eof(&self) -> (r: bool)
        ensures
            r == (self.pos >= self.input@.len()),
    {
        self.pos >= self.input.as_str().unicode_len()
    }

    /// Consume and return the character under the cursor.
    pub fn consume_char(&mut self) -> (c: char)
        requires
            old(self).pos < old(self).input@.len(),
        ensures
            final(self).input == old(self).input,
            final(self).pos == old(self).pos + 1,
            c == old(self).input@[old(self).pos as int],
    {
        let n = self.input.as_str().unicode_len();
        let c = self.input.as_str().get_char(self.pos);
        self.pos = self.pos + 1;
        c
    }

    /// Consume the longest run of characters accepted by `test`.
    pub fn consume_while<F: Fn(char) -> bool>(&mut self, test: F) -> (r: String)
        requires
            old(self).wf(),
            forall|c: char| #[trigger] call_requires(test, (c,)),
        ensures
            final(self).input == old(self).input,
            old(self).pos <= final(self).pos,
            final(self).wf(),
            r@ == final(self).input@.subrange(old(self).pos as int, final(self).pos as int),
            forall|j: int|
                old(self).pos <= j < final(self).pos ==> call_ensures(
                    test,
                    (final(self).input@[j],),
                    true,
                ),
            final(self).pos == final(self).input@.len() || call_ensures(
                test,
                (final(self).input@[final(self).pos as int],),
                false,
            ),
    {
        let mut r = String::new();
        let ghost p0 = self.pos as int;
        proof {
            assert(r@ =~= self.input@.subrange(p0, p0));
        }
        loop
            invariant
                self.input == old(self).input,
                p0 == old(self).pos as int,
                0 <= p0 <= self.pos as int <= self.input@.len(),
                r@ == self.input@.subrange(p0, self.pos as int),
                forall|j: int|
                    p0 <= j < self.pos as int ==> call_ensures(test, (self.input@[j],), true),
                forall|c: char| #[trigger] call_requires(test, (c,)),
            ensures
                self.input == old(self).input,
                p0 == old(self).pos as int,
                0 <= p0 <= self.pos as int <= self.input@.len(),
                r@ == self.input@.subrange(p0, self.pos as int),
                forall|j: int|
                    p0 <= j < self.pos as int ==> call_ensures(test, (self.input@[j],), true),
                self.pos as int == self.input@.len() || call_ensures(
                    test,
                    (self.input@[self.pos as int],),
                    false,
                ),
            decreases self.input@.len() - self.pos as int,
        {
            if self.eof() {
                break ;
            }
            let c = self.next_char();
            if !test(c) {
                break ;
            }
            let c2 = self.consume_char();
            chars::push_char(&mut r, c2);
            proof {
                assert(r@ =~= self.input@.subrange(p0, self.pos as int));
            }
        }
        r
    }

    /// Consume white space.
    pub fn consume_whitespace(&mut self)
        requires
            old(self).wf(),
        ensures
            final(self).input == old(self).input,
            final(self).wf(),
            old(self).pos <= final(self).pos,
            final(self).pos as int == chars::ws_end(old(self).input@, old(self).pos as int),
    {
        let ghost src = self.input@;
        let ghost p0 = self.pos as int;
        let test = |c: char| -> (b: bool) ensures b == chars::is_space(c) { chars::space(c) };
        let _ = self.consume_while(test);
        proof {
            chars::lemma_ws_end_is(src, p0, self.pos as int);
        }
    }

    /// Consume a tag or attribute name: ASCII letters and digits.
    pub fn parse_tag_name(&mut self) -> (r: String)
        requires
            old(self).wf(),
        ensures
            final(self).input == old(self).input,
            final(self).wf(),
            old(self).pos <= final(self).pos,
            final(self).pos as int == chars::tag_end(old(self).input@, old(self).pos as int),
            r@ == old(self).input@.subrange(old(self).pos as int, final(self).pos as int),
    {
        let ghost src = self.input@;
        let ghost p0 = self.pos as int;
        let test = |c: char| -> (b: bool) ensures b == chars::is_tag_char(c) { chars::tag_char(c) };
        let r = self.consume_while(test);
        proof {
            chars::lemma_tag_end_is(src, p0, self.pos as int);
        }
        r
    }

    /// Consume a text node: everything up to the next `<`.
    pub fn parse_text(&mut self) -> (r: Node)
        requires
            old(self).wf(),
        ensures
            final(self).input == old(self).input,
            final(self).wf(),
            old(self).pos <= final(self).pos,
            sp_text(old(self).input@, old(self).pos as int) == (r@, final(self).pos as int),
    {
        let ghost src = self.input@;
        let ghost p0 = self.pos as int;
        let test = |c: char| -> (b: bool) ensures b == (c != '<') { c != '<' };
        let s = self.consume_while(test);
        proof {
            chars::lemma_until_end_is(src, p0, '<', self.pos as int);
        }
        dom::text(s)
    }

    /// Consume a comment: a `<`, then everything up to the next `<`. The
    /// consumed characters are discarded.
    pub fn parse_comment(&mut self) -> (r: Result<Node, ParseError>)
        requires
            old(self).wf(),
        ensures
            final(self).input == old(self).input,
            final(self).wf(),
            old(self).pos <= final(self).pos,
            match r {
                Ok(n) => sp_comment(old(self).input@, old(self).pos as int) == Some(
                    (n@, final(self).pos as int),
                ) && old(self).pos < final(self).pos,
                Err(_) => sp_comment(old(self).input@, old(self).pos as int) is None,
            },
    {
        let ghost src = self.input@;
        let ghost p0 = self.pos as int;
        if self.eof() {
            return Err(ParseError { pos: self.pos });
        }
        let c = self.consume_char();
        if c != '<' {
            return Err(ParseError { pos: self.pos });
        }
        let ghost p1 = self.pos as int;
        let test = |ch: char| -> (b: bool) ensures b == (ch != '<') { ch != '<' };
        let _ = self.consume_while(test);
        proof {
            chars::lemma_until_end_is(src, p1, '<', self.pos as int);
        }
        Ok(dom::comment())
    }

    /// Consume a quoted attribute value.
    pub fn parse_attributes_value(&mut self) -> (r: Result<String, ParseError>)
        requires
            old(self).wf(),
        ensures
            final(self).input == old(self).input,
            final(self).wf(),
            old(self).pos <= final(self).pos,
            match r {
                Ok(v) => sp_attr_value(old(self).input@, old(self).pos as int) == Some(
                    (v@, final(self).pos as int),
                ),
                Err(_) => sp_attr_value(old(self).input@, old(self).pos as int) is None,
            },
    {
        let ghost src = self.input@;
        let ghost p0 = self.pos as int;
        if self.eof() {
            return Err(ParseError { pos: self.pos });
        }
        let open_quote = self.consume_char();
        if open_quote != '"' && open_quote != '\'' {
            return Err(ParseError { pos: self.pos });
        }
        let ghost p1 = self.pos as int;
        let value = if open_quote == '"' {
            let test = |ch: char| -> (b: bool) ensures b == (ch != '"') { ch != '"' };
            let v = self.consume_while(test);
            proof {
                chars::lemma_until_end_is(src, p1, '"', self.pos as int);
            }
            v
        } else {
            let test = |ch: char| -> (b: bool) ensures b == (ch != '\'') { ch != '\'' };
            let v = self.consume_while(test);
            proof {
                chars::lemma_until_end_is(src, p1, '\'', self.pos as int);
            }
            v
        };
        if self.eof() {
            return Err(ParseError { pos: self.pos });
        }
        let close_quote = self.consume_char();
        Ok(value)
    }

    /// Consume one attribute: `name = "value"`.
    pub fn parse_attr(&mut self) -> (r: Result<(String, String), ParseError>)
        requires
            old(self).wf(),
        ensures
            final(self).input == old(self).input,
            final(self).wf(),
            old(self).pos <= final(self).pos,
            match r {
                Ok(nv) => sp_attr(old(self).input@, old(self).pos as int) == Some(
                    ((nv.0@, nv.1@), final(self).pos as int),
                ) && old(self).pos < final(self).pos,
                Err(_) => sp_attr(old(self).input@, old(self).pos as int) is None,
            },
    {
        let name = self.parse_tag_name();
        if self.eof() {
            return Err(ParseError { pos: self.pos });
        }
        let c = self.consume_char();
        if c != '=' {
            return Err(ParseError { pos: self.pos });
        }
        let value = match self.parse_attributes_value() {
            Ok(v) => v,
            Err(e) => {
                return Err(e);
            },
        };
        Ok((name, value))
    }

    /// Consume attributes up to the closing `>`, which is left in place.
    pub fn parse_attributes(&mut self) -> (r: Result<AttrMap, ParseError>)
        requires
            old(self).wf(),
        ensures
            final(self).input == old(self).input,
            final(self).wf(),
            old(self).pos <= final(self).pos,
            match r {
                Ok(attrs) => sp_attributes(
                    old(self).input@,
                    old(self).pos as int,
                    Seq::empty(),
                ) == Some((attrs@, final(self).pos as int)) && final(self).pos
                    < final(self).input@.len() && final(self).input@[final(self).pos as int] == '>',
                Err(_) => sp_attributes(old(self).input@, old(self).pos as int, Seq::empty())
                    is None,
            },
    {
        let ghost src = self.input@;
        let ghost p0 = self.pos as int;
        let mut attributes = AttrMap::new();
        loop
            invariant
                self.wf(),
                self.input == old(self).input,
                self.input@ == src,
                p0 == old(self).pos as int,
                p0 <= self.pos as int,
                sp_attributes(src, p0, Seq::empty()) == sp_attributes(
                    src,
                    self.pos as int,
                    attributes@,
                ),
            decreases src.len() - self.pos as int,
        {
            let ghost pa = self.pos as int;
            self.consume_whitespace();
            let ghost pb = self.pos as int;
            if self.eof() {
                return Err(ParseError { pos: self.pos });
            }
            if self.next_char() == '>' {
                return Ok(attributes);
            }
            let (name, value) = match self.parse_attr() {
                Ok(nv) => nv,
                Err(e) => {
                    return Err(e);
                },
            };
            let ghost nv = name@;
            let ghost vv = value@;
            attributes.insert(name, value);
        }
    }

    /// Consume one element: opening tag, attributes, children, and a
    /// matching closing tag.
    pub fn parse_element(&mut self) -> (r: Result<Node, ParseError>)
        requires
            old(self).wf(),
        ensures
            final(self).input == old(self).input,
            final(self).wf(),
            old(self).pos <= final(self).pos,
            match r {
                Ok(n) => sp_element(old(self).input@, old(self).pos as int) == Some(
                    (n@, final(self).pos as int),
                ) && old(self).pos < final(self).pos,
                Err(_) => sp_element(old(self).input@, old(self).pos as int) is None,
            },
        decreases old(self).input@.len() - old(self).pos, 0int,
    {
        let ghost src = self.input@;
        let ghost p0 = self.pos as int;
        if self.eof() {
            return Err(ParseError { pos: self.pos });
        }
        let c = self.consume_char();
        if c != '<' {
            return Err(ParseError { pos: self.pos });
        }
        let tag_name = self.parse_tag_name();
        let attrs = match self.parse_attributes() {
            Ok(a) => a,
            Err(e) => {
                return Err(e);
            },
        };
        let gt = self.consume_char();
        let children = match self.parse_nodes() {
            Ok(v) => v,
            Err(e) => {
                return Err(e);
            },
        };
        if self.eof() {
            return Err(ParseError { pos: self.pos });
        }
        let c1 = self.consume_char();
        if c1 != '<' {
            return Err(ParseError { pos: self.pos });
        }
        if self.eof() {
            return Err(ParseError { pos: self.pos });
        }
        let c2 = self.consume_char();
        if c2 != '/' {
            return Err(ParseError { pos: self.pos });
        }
        let close = self.parse_tag_name();
        if !chars::str_eq(close.as_str(), tag_name.as_str()) {
            return Err(ParseError { pos: self.pos });
        }
        if self.eof() {
            return Err(ParseError { pos: self.pos });
        }
        let c3 = self.consume_char();
        if c3 != '>' {
            return Err(ParseError { pos: self.pos });
        }
        proof {
            dom::lemma_nodes_view_is_deep(children);
        }
        Ok(dom::element(tag_name, attrs, children))
    }

    /// Consume one node, dispatching on what the cursor sees.
    pub fn parse_node(&mut self) -> (r: Result<Node, ParseError>)
        requires
            old(self).wf(),
        ensures
            final(self).input == old(self).input,
            final(self).wf(),
            old(self).pos <= final(self).pos,
            match r {
                Ok(n) => sp_node(old(self).input@, old(self).pos as int) == Some(
                    (n@, final(self).pos as int),
                ) && old(self).pos < final(self).pos,
                Err(_) => sp_node(old(self).input@, old(self).pos as int) is None,
            },
        decreases old(self).input@.len() - old(self).pos, 1int,
    {
        let ghost src = self.input@;
        let ghost p0 = self.pos as int;
        if self.eof() {
            return Err(ParseError { pos: self.pos });
        }
        let c = self.next_char();
        if c == '<' {
            let n = self.input.as_str().unicode_len();
            if self.pos + 1 >= n {
                return Err(ParseError { pos: self.pos });
            }
            if self.next_next_char() == '!' {
                self.parse_comment()
            } else {
                self.parse_element()
            }
        } else {
            let node = self.parse_text();
            proof {
                chars::lemma_until_end(src, p0, '<');
            }
            Ok(node)
        }
    }

    /// Consume nodes separated by white space, stopping at the end of the
    /// text or at the literal `</`.
    pub fn parse_nodes(&mut self) -> (r: Result<Vec<Node>, ParseError>)
        requires
            old(self).wf(),
        ensures
            final(self).input == old(self).input,
            final(self).wf(),
            old(self).pos <= final(self).pos,
            match r {
                Ok(v) => sp_nodes(old(self).input@, old(self).pos as int) == Some(
                    (v.deep_view(), final(self).pos as int),
                ),
                Err(_) => sp_nodes(old(self).input@, old(self).pos as int) is None,
            },
        decreases old(self).input@.len() - old(self).pos, 2int,
    {
        let ghost src = self.input@;
        let ghost p0 = self.pos as int;
        let mut nodes: Vec<Node> = Vec::new();
        proof {
            assert(nodes.deep_view() =~= Seq::<NodeV>::empty());
        }
        loop
            invariant
                self.wf(),
                self.input == old(self).input,
                self.input@ == src,
                p0 == old(self).pos as int,
                p0 <= self.pos as int,
                (match sp_nodes(src, self.pos as int) {
                    Some((rest, end)) => sp_nodes(src, p0) == Some(
                        (nodes.deep_view() + rest, end),
                    ),
                    None => sp_nodes(src, p0) is None,
                }),
            decreases src.len() - self.pos as int,
        {
            let ghost pa = self.pos as int;
            let ghost nodes0 = nodes.deep_view();
            self.consume_whitespace();
            let ghost pb = self.pos as int;
            let at_end = self.eof();
            let at_close = if at_end {
                false
            } else {
                self.start_with("</")
            };
            proof {
                reveal_strlit("</");
                assert("</"@.len() == 2);
                if pb + 2 <= src.len() && src[pb] == '<' && src[pb + 1] == '/' {
                    assert(src.subrange(pb, pb + 2) =~= "</"@);
                }
                if at_close {
                    assert(src.subrange(pb, pb + 2)[0] == '<');
                    assert(src.subrange(pb, pb + 2)[1] == '/');
                }
            }
            if at_end || at_close {
                proof {
                    assert(sp_nodes(src, pa) == Some((Seq::<NodeV>::empty(), pb)));
                    assert(nodes.deep_view() + Seq::<NodeV>::empty() =~= nodes.deep_view());
                }
                return Ok(nodes);
            }
            let node = match self.parse_node() {
                Ok(n) => n,
                Err(e) => {
                    return Err(e);
                },
            };
            let ghost nv = node@;
            let ghost pc = self.pos as int;
            nodes.push(node);
            proof {
                assert(nodes.deep_view() =~= nodes0.push(nv));
                match sp_nodes(src, pc) {
                    Some((rest2, end2)) => {
                        assert(sp_nodes(src, pa) == Some((seq![nv] + rest2, end2)));
                        assert(nodes0 + (seq![nv] + rest2) =~= nodes.deep_view() + rest2);
                    },
                    None => {
                        assert(sp_nodes(src, pa) is None);
                    },
                }
            }
        }
    }
}

/// Parse a whole HTML source and give the last top-level node.
pub fn parse(source: String) -> (r: Result<Node, ParseError>)
    ensures
        match r {
            Ok(n) => sp_html(source@) == Some(n@),
            Err(_) => sp_html(source@) is None,
        },
{
    let mut parser = Parser { pos: 0, input: source };
    let mut nodes = match parser.parse_nodes() {
        Ok(v) => v,
        Err(e) => {
            return Err(e);
        },
    };
    let ghost all = nodes.deep_view();
    match nodes.pop() {
        Some(n) => {
            proof {
                assert(all.last() == n.deep_view());
            }
            Ok(n)
        },
        None => Err(ParseError { pos: parser.pos }),
    }
}

} // verus!
