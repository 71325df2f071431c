//! The style resolver: selector matching, the specificity-ordered
//! cascade, and the styled tree.

use crate::chars;
use crate::css::{
    Rule, RuleV, Selector, SelectorV, SimpleSelector, SimpleSelectorV, StyleSheet, Value, ValueV,
    spec_specificity, Specificity,
};
use crate::dom::{attrs_get, split_spaces, ElementData, ElementDataV, Node, NodeType, NodeTypeV};
use vstd::prelude::*;

verus! {

/// One property binding as it appears in specifications: name and value.
pub type PropV = (Seq<char>, ValueV);

/// The value bound to a name: the first binding that carries it.
pub open spec fn props_get(m: Seq<PropV>, name: Seq<char>) -> Option<ValueV>
    decreases m.len(),
{
    if m.len() == 0 {
        None
    } else if m[0].0 == name {
        Some(m[0].1)
    } else {
        props_get(m.drop_first(), name)
    }
}

/// Last writer wins: the binding that carries the name is overwritten in
/// place; a new name is appended at the end.
pub open spec fn props_insert(m: Seq<PropV>, name: Seq<char>, value: ValueV) -> Seq<PropV>
    decreases m.len(),
{
    if m.len() == 0 {
        seq![(name, value)]
    } else if m[0].0 == name {
        seq![(name, value)] + m.drop_first()
    } else {
        seq![m[0]] + props_insert(m.drop_first(), name, value)
    }
}

/// `props_get` finds the first binding with the given name.
pub proof fn lemma_props_get_at(m: Seq<PropV>, name: Seq<char>, i: int)
    requires
        0 <= i < m.len(),
        m[i].0 == name,
        forall|j: int| 0 <= j < i ==> m[j].0 != name,
    ensures
        props_get(m, name) == Some(m[i].1),
    decreases i,
{
    if i > 0 {
        lemma_props_get_at(m.drop_first(), name, i - 1);
    }
}

/// `props_get` is `None` when no binding has the given name.
pub proof fn lemma_props_get_none(m: Seq<PropV>, name: Seq<char>)
    requires
        forall|j: int| 0 <= j < m.len() ==> m[j].0 != name,
    ensures
        props_get(m, name) is None,
    decreases m.len(),
{
    if m.len() > 0 {
        lemma_props_get_none(m.drop_first(), name);
    }
}

/// `props_insert` overwrites the first binding with the given name.
pub proof fn lemma_props_insert_at(m: Seq<PropV>, name: Seq<char>, value: ValueV, i: int)
    requires
        0 <= i < m.len(),
        m[i].0 == name,
        forall|j: int| 0 <= j < i ==> m[j].0 != name,
    ensures
        props_insert(m, name, value) =~= m.update(i, (name, value)),
    decreases i,
{
    if i > 0 {
        lemma_props_insert_at(m.drop_first(), name, value, i - 1);
        assert(props_insert(m, name, value) =~= seq![m[0]] + m.drop_first().update(
            i - 1,
            (name, value),
        ));
    }
}

/// `props_insert` appends when no binding has the given name.
pub proof fn lemma_props_insert_none(m: Seq<PropV>, name: Seq<char>, value: ValueV)
    requires
        forall|j: int| 0 <= j < m.len() ==> m[j].0 != name,
    ensures
        props_insert(m, name, value) =~= m.push((name, value)),
    decreases m.len(),
{
    if m.len() > 0 {
        lemma_props_insert_none(m.drop_first(), name, value);
    }
}

/// A property map: ordered name/value bindings. The resolver fills it
/// through `insert` alone, which keeps names unique.
#[derive(Debug, PartialEq)]
pub struct PropertyMap {
    entries: Vec<(String, Value)>,
}

impl View for PropertyMap {
    type V = Seq<PropV>;

    closed spec fn view(&self) -> Seq<PropV> {
        Seq::new(self.entries@.len(), |i: int| (self.entries@[i].0@, self.entries@[i].1@))
    }
}

impl PropertyMap {
    pub fn new() -> (r: PropertyMap)
        ensures
            r@ == Seq::<PropV>::empty(),
    {
        let r = PropertyMap { entries: Vec::new() };
        proof {
            assert(r@ =~= Seq::<PropV>::empty());
        }
        r
    }

    /// The position of the first binding named `name`, if any.
    fn find(&self, name: &str) -> (r: Option<usize>)
        ensures
            match r {
                Some(i) => 0 <= i < self@.len() && self@[i as int].0 == name@ && forall|j: int|
                    0 <= j < i ==> self@[j].0 != name@,
                None => forall|j: int| 0 <= j < self@.len() ==> self@[j].0 != name@,
            },
    {
        let n = self.entries.len();
        for i in 0..n
            invariant
                n == self.entries.len(),
                forall|j: int| 0 <= j < i ==> self@[j].0 != name@,
        {
            if chars::str_eq(self.entries[i].0.as_str(), name) {
                return Some(i);
            }
        }
        None
    }

    /// The value bound to `name`, if any.
    pub fn get(&self, name: &str) -> (r: Option<&Value>)
        ensures
            match r {
                Some(v) => props_get(self@, name@) == Some(v@),
                None => props_get(self@, name@) is None,
            },
    {
        match self.find(name) {
            Some(i) => {
                proof {
                    lemma_props_get_at(self@, name@, i as int);
                }
                Some(&self.entries[i].1)
            },
            None => {
                proof {
                    lemma_props_get_none(self@, name@);
                }
                None
            },
        }
    }

    /// Bind `value` to `name`; an earlier binding with the same name is
    /// overwritten in place, otherwise the binding is appended.
    pub fn insert(&mut self, name: String, value: Value)
        ensures
            final(self)@ == props_insert(old(self)@, name@, value@),
    {
        let ghost m0 = self@;
        let ghost nv = name@;
        let ghost vv = value@;
        match self.find(name.as_str()) {
            Some(i) => {
                proof {
                    lemma_props_insert_at(m0, nv, vv, i as int);
                }
                self.entries.set(i, (name, value));
                proof {
                    assert(self@ =~= m0.update(i as int, (nv, vv)));
                }
            },
            None => {
                proof {
                    lemma_props_insert_none(m0, nv, vv);
                }
                self.entries.push((name, value));
                proof {
                    assert(self@ =~= m0.push((nv, vv)));
                }
            },
        }
    }
}

impl Clone for PropertyMap {
    fn clone(&self) -> (r: Self)
        ensures
            r@ == self@,
    {
        let mut entries: Vec<(String, Value)> = Vec::new();
        let n = self.entries.len();
        for i in 0..n
            invariant
                n == self.entries.len(),
                entries@.len() == i,
                forall|j: int|
                    0 <= j < i ==> entries@[j].0@ == self.entries@[j].0@ && entries@[j].1@
                        == self.entries@[j].1@,
        {
            let name = self.entries[i].0.clone();
            let value = self.entries[i].1.clone();
            entries.push((name, value));
        }
        let r = PropertyMap { entries };
        proof {
            assert(r@ =~= self@);
        }
        r
    }
}

/// A styled node: the node's own data, its specified property values, and
/// its styled children, mirroring the document children in order.
#[derive(Debug)]
pub struct StyledNode {
    pub node: NodeType,
    pub specified_values: PropertyMap,
    pub children: Vec<StyledNode>,
}

/// Specification view of a styled node.
pub struct StyledNodeV {
    pub node: NodeTypeV,
    pub specified_values: Seq<PropV>,
    pub children: Seq<StyledNodeV>,
}

/// The view of a styled node, taken recursively over its children.
pub open spec fn styled_view(s: StyledNode) -> StyledNodeV
    decreases s,
{
    StyledNodeV {
        node: s.node@,
        specified_values: s.specified_values@,
        children: styleds_view(s.children@),
    }
}

/// The views of a sequence of styled nodes.
pub open spec fn styleds_view(s: Seq<StyledNode>) -> Seq<StyledNodeV>
    decreases s,
{
    if s.len() == 0 {
        Seq::empty()
    } else {
        styleds_view(s.drop_last()).push(styled_view(s.last()))
    }
}

impl View for StyledNode {
    type V = StyledNodeV;

    open spec fn view(&self) -> StyledNodeV {
        styled_view(*self)
    }
}

/// `styleds_view` maps `styled_view` over the sequence, index by index.
pub proof fn lemma_styleds_view_index(s: Seq<StyledNode>)
    ensures
        styleds_view(s).len() == s.len(),
        forall|i: int| 0 <= i < s.len() ==> styleds_view(s)[i] == styled_view(s[i]),
    decreases s.len(),
{
    if s.len() > 0 {
        lemma_styleds_view_index(s.drop_last());
    }
}

/// How a box is laid out: as a block, inline, or not at all.
#[derive(Debug, PartialEq, Eq, Copy, Clone, Structural)]
pub enum Display {
    Block,
    Inline,
    Nothing,
}

/// An element's class names: its `class` attribute split at spaces, or
/// nothing when the attribute is absent.
pub open spec fn elem_classes(e: ElementDataV) -> Seq<Seq<char>> {
    match attrs_get(e.attributes, "class"@) {
        Some(list) => split_spaces(list),
        None => Seq::empty(),
    }
}

/// Whether a simple selector matches an element: every component it
/// specifies must be present on the element.
pub open spec fn spec_matches_simple(e: ElementDataV, s: SimpleSelectorV) -> bool {
    &&& (match s.tag_name {
        Some(t) => e.tag_name == t,
        None => true,
    })
    &&& (match s.id {
        Some(i) => attrs_get(e.attributes, "id"@) == Some(i),
        None => true,
    })
    &&& (forall|k: int| 0 <= k < s.class.len() ==> elem_classes(e).contains(#[trigger] s.class[k]))
}

/// Whether a selector matches an element.
pub open spec fn spec_matches(e: ElementDataV, s: SelectorV) -> bool {
    match s {
        SelectorV::Simple(simple) => spec_matches_simple(e, simple),
    }
}

/// Whether the string `x` occurs in the list.
fn contains_str(v: &Vec<String>, x: &str) -> (r: bool)
    ensures
        r == v.deep_view().contains(x@),
{
    let n = v.len();
    for i in 0..n
        invariant
            n == v.len(),
            forall|j: int| 0 <= j < i ==> v.deep_view()[j] != x@,
    {
        if chars::str_eq(v[i].as_str(), x) {
            proof {
                assert(v.deep_view()[i as int] == x@);
            }
            return true;
        }
    }
    proof {
        if v.deep_view().contains(x@) {
            let w = choose|w: int| 0 <= w < v.deep_view().len() && v.deep_view()[w] == x@;
            assert(v.deep_view()[w] != x@);
        }
    }
    false
}

/// Whether a simple selector matches an element.
pub fn matches_simple_selectors(elem: &ElementData, selector: &SimpleSelector) -> (r: bool)
    ensures
        r == spec_matches_simple(elem@, selector@),
{
    match &selector.tag_name {
        Some(t) => {
            if !chars::str_eq(t.as_str(), elem.tag_name.as_str()) {
                return false;
            }
        },
        None => {},
    }
    match &selector.id {
        Some(want) => {
            match elem.id() {
                Some(have) => {
                    if !chars::str_eq(have.as_str(), want.as_str()) {
                        return false;
                    }
                },
                None => {
                    return false;
                },
            }
        },
        None => {},
    }
    let classes = elem.classes();
    let n = selector.class.len();
    for k in 0..n
        invariant
            n == selector.class.len(),
            classes.deep_view() == elem_classes(elem@),
            forall|j: int|
                0 <= j < k ==> elem_classes(elem@).contains(#[trigger] selector@.class[j]),
    {
        if !contains_str(&classes, selector.class[k].as_str()) {
            proof {
                assert(selector@.class[k as int] == selector.class@[k as int]@);
            }
            return false;
        }
        proof {
            assert(selector@.class[k as int] == selector.class@[k as int]@);
        }
    }
    true
}

/// Whether a selector matches an element.
pub fn matches(elem: &ElementData, selector: &Selector) -> (r: bool)
    ensures
        r == spec_matches(elem@, selector@),
{
    let Selector::Simple(simple) = selector;
    matches_simple_selectors(elem, simple)
}

/// The specificity of the first selector of a rule that matches the
/// element, if any does.
pub open spec fn sp_match_rule(e: ElementDataV, sels: Seq<SelectorV>) -> Option<(int, int, int)>
    decreases sels.len(),
{
    if sels.len() == 0 {
        None
    } else if spec_matches(e, sels[0]) {
        Some(spec_specificity(sels[0]))
    } else {
        sp_match_rule(e, sels.drop_first())
    }
}

proof fn lemma_match_rule_at(e: ElementDataV, sels: Seq<SelectorV>, i: int)
    requires
        0 <= i < sels.len(),
        spec_matches(e, sels[i]),
        forall|j: int| 0 <= j < i ==> !spec_matches(e, sels[j]),
    ensures
        sp_match_rule(e, sels) == Some(spec_specificity(sels[i])),
    decreases i,
{
    if i > 0 {
        lemma_match_rule_at(e, sels.drop_first(), i - 1);
    }
}

proof fn lemma_match_rule_none(e: ElementDataV, sels: Seq<SelectorV>)
    requires
        forall|j: int| 0 <= j < sels.len() ==> !spec_matches(e, sels[j]),
    ensures
        sp_match_rule(e, sels) is None,
    decreases sels.len(),
{
    if sels.len() > 0 {
        lemma_match_rule_none(e, sels.drop_first());
    }
}

/// A matched rule: the specificity of its first matching selector, and
/// the rule's position in the stylesheet.
pub type MatchedV = ((int, int, int), int);

/// The rules of the stylesheet prefix that match the element, in source
/// order, each with its specificity and position.
pub open spec fn sp_match_rules(e: ElementDataV, rules: Seq<RuleV>) -> Seq<MatchedV>
    decreases rules.len(),
{
    if rules.len() == 0 {
        Seq::empty()
    } else {
        let rest = sp_match_rules(e, rules.drop_last());
        match sp_match_rule(e, rules.last().selectors) {
            Some(s) => rest.push((s, rules.len() - 1)),
            None => rest,
        }
    }
}

/// Ordering of matched rules: by specificity, then by stylesheet
/// position, lexicographically.
pub open spec fn mr_le(a: MatchedV, b: MatchedV) -> bool {
    if a.0.0 != b.0.0 {
        a.0.0 < b.0.0
    } else if a.0.1 != b.0.1 {
        a.0.1 < b.0.1
    } else if a.0.2 != b.0.2 {
        a.0.2 < b.0.2
    } else {
        a.1 <= b.1
    }
}

/// Insert into a sorted sequence, after every entry that is not greater.
pub open spec fn insert_mr(s: Seq<MatchedV>, x: MatchedV) -> Seq<MatchedV>
    decreases s.len(),
{
    if s.len() == 0 {
        seq![x]
    } else if mr_le(s.last(), x) {
        s.push(x)
    } else {
        insert_mr(s.drop_last(), x).push(s.last())
    }
}

/// Insertion sort of matched rules: stable, and stylesheet order breaks
/// specificity ties.
pub open spec fn sort_mrs(s: Seq<MatchedV>) -> Seq<MatchedV>
    decreases s.len(),
{
    if s.len() == 0 {
        s
    } else {
        insert_mr(sort_mrs(s.drop_last()), s.last())
    }
}

/// Apply declarations in order, last writer wins.
pub open spec fn apply_decls(m: Seq<PropV>, ds: Seq<crate::css::DeclarationV>) -> Seq<PropV>
    decreases ds.len(),
{
    if ds.len() == 0 {
        m
    } else {
        apply_decls(props_insert(m, ds[0].name, ds[0].value), ds.drop_first())
    }
}

/// Apply the declarations of the listed rules, in list order.
pub open spec fn apply_matched(m: Seq<PropV>, rules: Seq<RuleV>, ms: Seq<MatchedV>) -> Seq<PropV>
    decreases ms.len(),
{
    if ms.len() == 0 {
        m
    } else {
        apply_matched(apply_decls(m, rules[ms[0].1].declarations), rules, ms.drop_first())
    }
}

/// The specified values of an element: the declarations of every matched
/// rule, applied least-specific first, stylesheet order breaking ties,
/// last writer wins.
pub open spec fn sp_specified_values(e: ElementDataV, rules: Seq<RuleV>) -> Seq<PropV> {
    apply_matched(Seq::empty(), rules, sort_mrs(sp_match_rules(e, rules)))
}

/// The styled tree of a node: element nodes carry their specified values,
/// text and comment nodes an empty map; children in document order.
pub open spec fn sp_style(n: crate::dom::NodeV, rules: Seq<RuleV>) -> StyledNodeV
    decreases n,
{
    StyledNodeV {
        node: n.node_type,
        specified_values: match n.node_type {
            NodeTypeV::Element(e) => sp_specified_values(e, rules),
            _ => Seq::empty(),
        },
        children: sp_style_seq(n.children, rules),
    }
}

/// The styled trees of a sequence of nodes.
pub open spec fn sp_style_seq(ns: Seq<crate::dom::NodeV>, rules: Seq<RuleV>) -> Seq<StyledNodeV>
    decreases ns,
{
    if ns.len() == 0 {
        Seq::empty()
    } else {
        sp_style_seq(ns.drop_last(), rules).push(sp_style(ns.last(), rules))
    }
}

/// The views of the exec matched-rule pairs.
pub open spec fn mrs_view(v: Seq<(Specificity, usize)>) -> Seq<MatchedV> {
    Seq::new(
        v.len(),
        |i: int| ((v[i].0.0 as int, v[i].0.1 as int, v[i].0.2 as int), v[i].1 as int),
    )
}

/// The rules of the stylesheet that match the element, with specificities
/// and positions, in source order.
pub fn match_rules(elem: &ElementData, style_sheet: &StyleSheet) -> (r: Vec<(Specificity, usize)>)
    ensures
        mrs_view(r@) == sp_match_rules(elem@, style_sheet@),
        forall|k: int| 0 <= k < r@.len() ==> #[trigger] r@[k].1 < style_sheet.rules@.len(),
{
    let mut out: Vec<(Specificity, usize)> = Vec::new();
    let n = style_sheet.rules.len();
    proof {
        assert(style_sheet@.subrange(0, 0) =~= Seq::<RuleV>::empty());
        assert(mrs_view(out@) =~= sp_match_rules(elem@, style_sheet@.subrange(0, 0)));
    }
    for i in 0..n
        invariant
            n == style_sheet.rules.len(),
            n == style_sheet@.len(),
            mrs_view(out@) == sp_match_rules(elem@, style_sheet@.subrange(0, i as int)),
            forall|k: int| 0 <= k < out@.len() ==> #[trigger] out@[k].1 < n,
        decreases n - i,
    {
        let rule = &style_sheet.rules[i];
        let ghost pre = style_sheet@.subrange(0, i as int);
        let ghost post = style_sheet@.subrange(0, i as int + 1);
        proof {
            assert(post.drop_last() =~= pre);
            assert(post.last() == style_sheet@[i as int]);
            assert(rule@ == style_sheet@[i as int]);
        }
        let ns = rule.selectors.len();
        let mut found: bool = false;
        let mut spec: Specificity = (0, 0, 0);
        let ghost mut widx: int = 0;
        for k in 0..ns
            invariant
                ns == rule.selectors.len(),
                !found ==> forall|j: int| 0 <= j < k ==> !spec_matches(elem@, rule@.selectors[j]),
                found ==> 0 <= widx < k && spec_matches(elem@, rule@.selectors[widx])
                    && (forall|j: int| 0 <= j < widx ==> !spec_matches(elem@, rule@.selectors[j]))
                    && (spec.0 as int, spec.1 as int, spec.2 as int) == spec_specificity(
                    rule@.selectors[widx],
                ),
        {
            if !found {
                if matches(elem, &rule.selectors[k]) {
                    found = true;
                    spec = rule.selectors[k].specificity();
                    proof {
                        widx = k as int;
                        assert(rule@.selectors[k as int] == rule.selectors@[k as int]@);
                    }
                }
            }
        }
        let ghost out0 = mrs_view(out@);
        if found {
            out.push((spec, i));
            proof {
                lemma_match_rule_at(elem@, rule@.selectors, widx);
                assert(sp_match_rules(elem@, post) == sp_match_rules(elem@, pre).push(
                    (spec_specificity(rule@.selectors[widx]), i as int),
                ));
                assert(mrs_view(out@) =~= out0.push(
                    ((spec.0 as int, spec.1 as int, spec.2 as int), i as int),
                ));
            }
        } else {
            proof {
                lemma_match_rule_none(elem@, rule@.selectors);
            }
        }
    }
    proof {
        assert(style_sheet@.subrange(0, n as int) =~= style_sheet@);
    }
    out
}

/// Whether `a` orders at or before `b`.
fn mr_le_exec(a: &(Specificity, usize), b: &(Specificity, usize)) -> (r: bool)
    ensures
        r == mr_le(
            ((a.0.0 as int, a.0.1 as int, a.0.2 as int), a.1 as int),
            ((b.0.0 as int, b.0.1 as int, b.0.2 as int), b.1 as int),
        ),
{
    if a.0.0 != b.0.0 {
        a.0.0 < b.0.0
    } else if a.0.1 != b.0.1 {
        a.0.1 < b.0.1
    } else if a.0.2 != b.0.2 {
        a.0.2 < b.0.2
    } else {
        a.1 <= b.1
    }
}

/// `insert_mr` puts the new entry at the position the executable scan
/// finds.
proof fn lemma_insert_mr_at(s: Seq<MatchedV>, x: MatchedV, j: int)
    requires
        0 <= j <= s.len(),
        j == 0 || mr_le(s[j - 1], x),
        forall|k: int| j <= k < s.len() ==> !mr_le(#[trigger] s[k], x),
    ensures
        insert_mr(s, x) =~= s.subrange(0, j) + seq![x] + s.subrange(j, s.len() as int),
    decreases s.len(),
{
    if s.len() == 0 {
        assert(insert_mr(s, x) =~= seq![x]);
    } else if mr_le(s.last(), x) {
        assert(j == s.len());
        assert(s.subrange(0, j) =~= s);
        assert(s.subrange(j, s.len() as int) =~= Seq::<MatchedV>::empty());
    } else {
        assert(j < s.len());
        lemma_insert_mr_at(s.drop_last(), x, j);
        assert(s.drop_last().subrange(0, j) =~= s.subrange(0, j));
        assert(s.drop_last().subrange(j, s.len() - 1) =~= s.subrange(j, s.len() - 1));
        assert((s.subrange(0, j) + seq![x] + s.subrange(j, s.len() - 1)).push(s.last()) =~= s
            .subrange(0, j) + seq![x] + s.subrange(j, s.len() as int));
    }
}

/// Sort matched rules by specificity, stylesheet order breaking ties.
fn sort_matched(v: Vec<(Specificity, usize)>) -> (r: Vec<(Specificity, usize)>)
    ensures
        mrs_view(r@) == sort_mrs(mrs_view(v@)),
        forall|k: int| 0 <= k < r@.len() ==> v@.contains(#[trigger] r@[k]),
{
    let mut out: Vec<(Specificity, usize)> = Vec::new();
    let n = v.len();
    proof {
        assert(mrs_view(v@.subrange(0, 0)) =~= Seq::<MatchedV>::empty());
        assert(sort_mrs(mrs_view(v@.subrange(0, 0))) =~= Seq::<MatchedV>::empty());
        assert(mrs_view(out@) =~= Seq::<MatchedV>::empty());
    }
    for i in 0..n
        invariant
            n == v.len(),
            mrs_view(out@) == sort_mrs(mrs_view(v@.subrange(0, i as int))),
            out.len() == i,
            forall|k: int| 0 <= k < out@.len() ==> v@.contains(#[trigger] out@[k]),
        decreases n - i,
    {
        let x = v[i];
        let ghost xv = ((x.0.0 as int, x.0.1 as int, x.0.2 as int), x.1 as int);
        let mut j = out.len();
        while j > 0 && !mr_le_exec(&out[j - 1], &x)
            invariant
                0 <= j <= out.len(),
                forall|k: int| j <= k < out.len() ==> !mr_le(#[trigger] mrs_view(out@)[k], xv),
                n == v.len(),
                i < n,
                out.len() == i,
                mrs_view(out@) == sort_mrs(mrs_view(v@.subrange(0, i as int))),
                xv == ((x.0.0 as int, x.0.1 as int, x.0.2 as int), x.1 as int),
            decreases j,
        {
            j = j - 1;
            proof {
                assert(mrs_view(out@)[j as int] == ((out@[j as int].0.0 as int, out@[
                    j as int].0.1 as int, out@[j as int].0.2 as int), out@[j as int].1 as int));
            }
        }
        let ghost out0 = mrs_view(out@);
        proof {
            if j > 0 {
                assert(mrs_view(out@)[j - 1] == ((out@[j - 1].0.0 as int, out@[j - 1].0.1 as int,
                out@[j - 1].0.2 as int), out@[j - 1].1 as int));
            }
            lemma_insert_mr_at(out0, xv, j as int);
        }
        let ghost outv0 = out@;
        out.insert(j, x);
        proof {
            assert(v@.contains(v@[i as int])) by {
                assert(v@[i as int] == v@[i as int]);
            }
            assert forall|k: int| 0 <= k < out@.len() implies v@.contains(#[trigger] out@[k]) by {
                if k < j {
                    assert(out@[k] == outv0[k]);
                } else if k == j {
                    assert(out@[k] == v@[i as int]);
                } else {
                    assert(out@[k] == outv0[k - 1]);
                }
            }
            let ghost pre = v@.subrange(0, i as int);
            let ghost post = v@.subrange(0, i as int + 1);
            assert(post.drop_last() =~= pre);
            assert(post.last() == v@[i as int]);
            assert(mrs_view(post).drop_last() =~= mrs_view(pre));
            assert(mrs_view(post).last() == xv);
            assert(mrs_view(out@) =~= out0.subrange(0, j as int) + seq![xv] + out0.subrange(
                j as int,
                out0.len() as int,
            ));
            assert(sort_mrs(mrs_view(post)) == insert_mr(sort_mrs(mrs_view(pre)), xv));
        }
    }
    proof {
        assert(v@.subrange(0, n as int) =~= v@);
    }
    out
}

/// The specified values of an element under a stylesheet: matched rules
/// sorted by specificity (stylesheet order breaking ties), their
/// declarations applied in order, last writer wins.
pub fn specified_values(elem: &ElementData, style_sheet: &StyleSheet) -> (r: PropertyMap)
    ensures
        r@ == sp_specified_values(elem@, style_sheet@),
{
    let mut values = PropertyMap::new();
    let matched = match_rules(elem, style_sheet);
    let sorted = sort_matched(matched);
    let n = sorted.len();
    let ghost ms = mrs_view(sorted@);
    let ghost goal = sp_specified_values(elem@, style_sheet@);
    proof {
        assert(ms.skip(0) =~= ms);
        assert forall|k: int| 0 <= k < n implies 0 <= #[trigger] ms[k].1
            < style_sheet.rules@.len() by {
            assert(ms[k] == ((sorted@[k].0.0 as int, sorted@[k].0.1 as int, sorted@[
            k].0.2 as int), sorted@[k].1 as int));
            assert(matched@.contains(sorted@[k]));
            let w = choose|w: int| 0 <= w < matched@.len() && matched@[w] == sorted@[k];
            assert(matched@[w].1 < style_sheet.rules@.len());
        }
    }
    for i in 0..n
        invariant
            n == sorted.len(),
            n == ms.len(),
            ms == mrs_view(sorted@),
            goal == sp_specified_values(elem@, style_sheet@),
            forall|k: int| 0 <= k < n ==> 0 <= #[trigger] ms[k].1 < style_sheet.rules@.len(),
            apply_matched(values@, style_sheet@, ms.skip(i as int)) == goal,
        decreases n - i,
    {
        let idx = sorted[i].1;
        proof {
            assert(ms[i as int] == ((sorted@[i as int].0.0 as int, sorted@[i as int].0.1 as int,
            sorted@[i as int].0.2 as int), sorted@[i as int].1 as int));
        }
        let rule = &style_sheet.rules[idx];
        let m = rule.declarations.len();
        let ghost ds = rule@.declarations;
        let ghost v0 = values@;
        proof {
            assert(rule@ == style_sheet@[idx as int]);
            assert(ds.skip(0) =~= ds);
        }
        for k in 0..m
            invariant
                m == rule.declarations.len(),
                m == ds.len(),
                ds == rule@.declarations,
                apply_decls(v0, ds) == apply_decls(values@, ds.skip(k as int)),
        {
            let d = &rule.declarations[k];
            let name = d.name.clone();
            let value = d.value.clone();
            proof {
                assert(d@ == rule.declarations@[k as int]@);
                assert(ds[k as int] == d@);
                assert(ds.skip(k as int)[0] == ds[k as int]);
                assert(ds.skip(k as int).drop_first() =~= ds.skip(k as int + 1));
            }
            values.insert(name, value);
        }
        proof {
            assert(ds.skip(m as int) =~= Seq::<crate::css::DeclarationV>::empty());
            assert(apply_decls(v0, ds) == values@);
            assert(ms.skip(i as int)[0] == ms[i as int]);
            assert(ms.skip(i as int).drop_first() =~= ms.skip(i as int + 1));
            assert(apply_matched(v0, style_sheet@, ms.skip(i as int)) == apply_matched(
                apply_decls(v0, style_sheet@[ms[i as int].1].declarations),
                style_sheet@,
                ms.skip(i as int + 1),
            ));
        }
    }
    proof {
        assert(ms.skip(n as int) =~= Seq::<MatchedV>::empty());
    }
    values
}


/// The value a style lookup gives: the property itself, its shorthand
/// fallback, or the default.
pub open spec fn spec_lookup(
    m: Seq<PropV>,
    name: Seq<char>,
    fallback: Seq<char>,
    default: ValueV,
) -> ValueV {
    match props_get(m, name) {
        Some(v) => v,
        None => match props_get(m, fallback) {
            Some(v) => v,
            None => default,
        },
    }
}

/// The display kind written in a property map: the `display` keyword,
/// with anything unrecognized (or absent) read as inline.
pub open spec fn spec_display(m: Seq<PropV>) -> Display {
    match props_get(m, "display"@) {
        Some(ValueV::Keyword(s)) => if s == "block"@ {
            Display::Block
        } else if s == "inline"@ {
            Display::Inline
        } else if s == "none"@ {
            Display::Nothing
        } else {
            Display::Inline
        },
        _ => Display::Inline,
    }
}

impl StyledNode {
    /// The specified value of a property, if any.
    pub fn value(&self, name: &str) -> (r: Option<Value>)
        ensures
            match r {
                Some(v) => props_get(self@.specified_values, name@) == Some(v@),
                None => props_get(self@.specified_values, name@) is None,
            },
    {
        match self.specified_values.get(name) {
            Some(v) => Some(v.clone()),
            None => None,
        }
    }

    /// The specified value of a property, of its shorthand fallback, or
    /// the given default.
    pub fn lookup(&self, name: &str, fallback_name: &str, default: &Value) -> (r: Value)
        ensures
            r@ == spec_lookup(self@.specified_values, name@, fallback_name@, default@),
    {
        match self.value(name) {
            Some(v) => v,
            None => match self.value(fallback_name) {
                Some(v) => v,
                None => default.clone(),
            },
        }
    }

    /// The display kind given by the `display` property.
    pub fn display(&self) -> (r: Display)
        ensures
            r == spec_display(self@.specified_values),
    {
        match self.specified_values.get("display") {
            Some(v) => match v {
                Value::Keyword(s) => {
                    if chars::str_eq(s.as_str(), "block") {
                        Display::Block
                    } else if chars::str_eq(s.as_str(), "inline") {
                        Display::Inline
                    } else if chars::str_eq(s.as_str(), "none") {
                        Display::Nothing
                    } else {
                        Display::Inline
                    }
                },
                _ => Display::Inline,
            },
            None => Display::Inline,
        }
    }
}

/// Build the styled tree: each element node carries its specified values,
/// text and comment nodes an empty map; children are styled in document
/// order.
pub fn style_tree(root: &Node, style_sheet: &StyleSheet) -> (r: StyledNode)
    ensures
        r@ == sp_style(root@, style_sheet@),
    decreases *root,
{
    let mut children: Vec<StyledNode> = Vec::new();
    let n = root.children.len();
    proof {
        crate::dom::lemma_nodes_view_index(root.children@);
        assert(root@.children.subrange(0, 0) =~= Seq::<crate::dom::NodeV>::empty());
        assert(styleds_view(children@) =~= Seq::<StyledNodeV>::empty());
    }
    for i in 0..n
        invariant
            n == root.children.len(),
            children@.len() == i,
            root@.children.len() == n,
            forall|k: int|
                0 <= k < n ==> root@.children[k] == crate::dom::node_view(
                    #[trigger] root.children@[k],
                ),
            styleds_view(children@) == sp_style_seq(
                root@.children.subrange(0, i as int),
                style_sheet@,
            ),
        decreases n - i,
    {
        let ghost pre = root@.children.subrange(0, i as int);
        let ghost post = root@.children.subrange(0, i as int + 1);
        let ghost ch0 = children@;
        let child = style_tree(&root.children[i], style_sheet);
        children.push(child);
        proof {
            assert(post.drop_last() =~= pre);
            assert(post.last() == root@.children[i as int]);
            assert(children@.drop_last() =~= ch0);
            assert(styleds_view(children@) == styleds_view(ch0).push(
                styled_view(children@.last()),
            ));
        }
    }
    let specified_values = match &root.node_type {
        NodeType::Element(e) => specified_values(e, style_sheet),
        _ => PropertyMap::new(),
    };
    let node = root.node_type.clone();
    let r = StyledNode { node, specified_values, children };
    proof {
        assert(root@.children.subrange(0, n as int) =~= root@.children);
        if !(root.node_type is Element) {
            assert(r@.specified_values =~= Seq::<PropV>::empty());
        }
    }
    r
}

/// Ordering of a whole sequence by `mr_le`.
pub open spec fn sorted_mrs(s: Seq<MatchedV>) -> bool {
    forall|i: int, j: int| 0 <= i <= j < s.len() ==> mr_le(#[trigger] s[i], #[trigger] s[j])
}

/// `mr_le` is total.
proof fn lemma_mr_total(a: MatchedV, b: MatchedV)
    ensures
        mr_le(a, b) || mr_le(b, a),
{
}

/// Inserting keeps every upper bound.
proof fn lemma_insert_mr_bound(s: Seq<MatchedV>, x: MatchedV, b: MatchedV)
    requires
        forall|i: int| 0 <= i < s.len() ==> mr_le(#[trigger] s[i], b),
        mr_le(x, b),
    ensures
        forall|k: int|
            0 <= k < insert_mr(s, x).len() ==> mr_le(#[trigger] insert_mr(s, x)[k], b),
        insert_mr(s, x).len() == s.len() + 1,
    decreases s.len(),
{
    if s.len() == 0 {
    } else if mr_le(s.last(), x) {
    } else {
        lemma_insert_mr_bound(s.drop_last(), x, b);
    }
}

/// Inserting into a sorted sequence keeps it sorted.
proof fn lemma_insert_mr_sorted(s: Seq<MatchedV>, x: MatchedV)
    requires
        sorted_mrs(s),
    ensures
        sorted_mrs(insert_mr(s, x)),
    decreases s.len(),
{
    if s.len() == 0 {
    } else if mr_le(s.last(), x) {
        assert forall|i: int, j: int|
            0 <= i <= j < s.push(x).len() implies mr_le(#[trigger] s.push(x)[i], #[trigger] s.push(
            x,
        )[j]) by {
            if j == s.len() && i < j {
                assert(mr_le(s[i], s.last()));
            }
        }
    } else {
        assert(sorted_mrs(s.drop_last())) by {
            assert(forall|i: int, j: int|
                0 <= i <= j < s.len() - 1 ==> mr_le(#[trigger] s[i], #[trigger] s[j]));
        }
        lemma_insert_mr_sorted(s.drop_last(), x);
        lemma_mr_total(s.last(), x);
        assert forall|i: int| 0 <= i < s.len() - 1 implies mr_le(
            #[trigger] s.drop_last()[i],
            s.last(),
        ) by {
            assert(mr_le(s[i], s[s.len() - 1]));
        }
        lemma_insert_mr_bound(s.drop_last(), x, s.last());
        let t = insert_mr(s.drop_last(), x);
        assert forall|i: int, j: int|
            0 <= i <= j < t.push(s.last()).len() implies mr_le(
            #[trigger] t.push(s.last())[i],
            #[trigger] t.push(s.last())[j],
        ) by {
            if j < t.len() {
                assert(mr_le(t[i], t[j]));
            } else if i < j {
                assert(mr_le(t[i], s.last()));
            }
        }
    }
}

/// The cascade order an element's matched rules are applied in.
pub open spec fn cascade_order(e: ElementDataV, rules: Seq<RuleV>) -> Seq<MatchedV> {
    sort_mrs(sp_match_rules(e, rules))
}

/// Sorting sorts.
proof fn lemma_sort_mrs_sorted(s: Seq<MatchedV>)
    ensures
        sorted_mrs(sort_mrs(s)),
    decreases s.len(),
{
    if s.len() > 0 {
        lemma_sort_mrs_sorted(s.drop_last());
        lemma_insert_mr_sorted(sort_mrs(s.drop_last()), s.last());
    }
}

/// Lexicographic order of specificities.
pub open spec fn spec_lex_le(a: (int, int, int), b: (int, int, int)) -> bool {
    a.0 < b.0 || (a.0 == b.0 && (a.1 < b.1 || (a.1 == b.1 && a.2 <= b.2)))
}

/// For any stylesheet and element, walking the matched rules in cascade
/// order meets non-decreasing (specificity, stylesheet position) keys: in
/// particular, the specificities never decrease.
pub proof fn lemma_cascade_specificity_order(e: ElementDataV, rules: Seq<RuleV>)
    ensures
        sorted_mrs(cascade_order(e, rules)),
        forall|i: int, j: int|
            0 <= i <= j < cascade_order(e, rules).len() ==> spec_lex_le(
                (#[trigger] cascade_order(e, rules)[i]).0,
                (#[trigger] cascade_order(e, rules)[j]).0,
            ),
{
    lemma_sort_mrs_sorted(sp_match_rules(e, rules));
}

/// For any stylesheet and element, the element's specified values are the
/// fold, in cascade order, of the matched rules' declarations, each
/// applied last-writer-wins onto the map.
pub proof fn lemma_cascade_fold(e: ElementDataV, rules: Seq<RuleV>)
    ensures
        sp_specified_values(e, rules) == apply_matched(
            Seq::empty(),
            rules,
            cascade_order(e, rules),
        ),
{
}

} // verus!
