//! The layout engine: box-tree construction from the styled tree, and
//! block/inline geometry inside a containing block. All lengths count
//! thousandths of a pixel; the arithmetic saturates at `PX_SAT`.

use crate::css::{spec_is_auto, spec_to_px, Unit, Value, ValueV};
use crate::errors::LayoutError;
use crate::px::{self, spec_padd, spec_phalf, spec_psub};
use crate::style::{
    props_get, spec_display, spec_lookup, Display, PropV, StyledNode, StyledNodeV,
};
use vstd::prelude::*;

verus! {

/// A rectangle: position and size, in thousandths of a pixel.
#[derive(Debug, PartialEq, Eq, Clone, Copy, Structural)]
pub struct Rect {
    pub x: i64,
    pub y: i64,
    pub width: i64,
    pub height: i64,
}

/// Edge sizes of one box layer, in thousandths of a pixel.
#[derive(Debug, PartialEq, Eq, Clone, Copy, Structural)]
pub struct EdgeSizes {
    pub top: i64,
    pub right: i64,
    pub bottom: i64,
    pub left: i64,
}

/// A box's geometry: content rectangle and padding, border and margin
/// edges.
#[derive(Debug, PartialEq, Eq, Clone, Copy, Structural)]
pub struct Dimensions {
    pub content: Rect,
    pub padding: EdgeSizes,
    pub border: EdgeSizes,
    pub margin: EdgeSizes,
}

/// Specification view of a rectangle.
pub struct RectV {
    pub x: int,
    pub y: int,
    pub width: int,
    pub height: int,
}

/// Specification view of edge sizes.
pub struct EdgesV {
    pub top: int,
    pub right: int,
    pub bottom: int,
    pub left: int,
}

/// Specification view of a box's geometry.
pub struct DimsV {
    pub content: RectV,
    pub padding: EdgesV,
    pub border: EdgesV,
    pub margin: EdgesV,
}

impl View for Rect {
    type V = RectV;

    open spec fn view(&self) -> RectV {
        RectV {
            x: self.x as int,
            y: self.y as int,
            width: self.width as int,
            height: self.height as int,
        }
    }
}

impl View for EdgeSizes {
    type V = EdgesV;

    open spec fn view(&self) -> EdgesV {
        EdgesV {
            top: self.top as int,
            right: self.right as int,
            bottom: self.bottom as int,
            left: self.left as int,
        }
    }
}

impl View for Dimensions {
    type V = DimsV;

    open spec fn view(&self) -> DimsV {
        DimsV {
            content: self.content@,
            padding: self.padding@,
            border: self.border@,
            margin: self.margin@,
        }
    }
}

/// The all-zero rectangle.
pub open spec fn zero_rect() -> RectV {
    RectV { x: 0, y: 0, width: 0, height: 0 }
}

/// The all-zero edges.
pub open spec fn zero_edges() -> EdgesV {
    EdgesV { top: 0, right: 0, bottom: 0, left: 0 }
}

/// The all-zero geometry.
pub open spec fn zero_dims() -> DimsV {
    DimsV { content: zero_rect(), padding: zero_edges(), border: zero_edges(), margin: zero_edges() }
}

impl Default for Rect {
    fn default() -> (r: Rect)
        ensures
            r@ == zero_rect(),
    {
        Rect { x: 0, y: 0, width: 0, height: 0 }
    }
}

impl Default for EdgeSizes {
    fn default() -> (r: EdgeSizes)
        ensures
            r@ == zero_edges(),
    {
        EdgeSizes { top: 0, right: 0, bottom: 0, left: 0 }
    }
}

impl Default for Dimensions {
    fn default() -> (r: Dimensions)
        ensures
            r@ == zero_dims(),
    {
        Dimensions {
            content: Rect::default(),
            padding: EdgeSizes::default(),
            border: EdgeSizes::default(),
            margin: EdgeSizes::default(),
        }
    }
}

/// A rectangle grown by edges on every side.
pub open spec fn spec_expanded(r: RectV, e: EdgesV) -> RectV {
    RectV {
        x: spec_psub(r.x, e.left),
        y: spec_psub(r.y, e.top),
        width: spec_padd(spec_padd(r.width, e.left), e.right),
        height: spec_padd(spec_padd(r.height, e.top), e.bottom),
    }
}

/// Content plus padding.
pub open spec fn spec_padding_box(d: DimsV) -> RectV {
    spec_expanded(d.content, d.padding)
}

/// Content plus padding and border.
pub open spec fn spec_border_box(d: DimsV) -> RectV {
    spec_expanded(spec_padding_box(d), d.border)
}

/// Content plus padding, border and margin.
pub open spec fn spec_margin_box(d: DimsV) -> RectV {
    spec_expanded(spec_border_box(d), d.margin)
}

impl Rect {
    /// This rectangle grown by edges on every side.
    fn expanded_by(self, edge: EdgeSizes) -> (r: Rect)
        ensures
            r@ == spec_expanded(self@, edge@),
    {
        Rect {
            x: px::psub(self.x, edge.left),
            y: px::psub(self.y, edge.top),
            width: px::padd(px::padd(self.width, edge.left), edge.right),
            height: px::padd(px::padd(self.height, edge.top), edge.bottom),
        }
    }
}

impl Dimensions {
    /// The area covered by the content plus its padding.
    pub fn padding_box(self) -> (r: Rect)
        ensures
            r@ == spec_padding_box(self@),
    {
        self.content.expanded_by(self.padding)
    }

    /// The area covered by the content plus padding and border.
    pub fn border_box(self) -> (r: Rect)
        ensures
            r@ == spec_border_box(self@),
    {
        self.padding_box().expanded_by(self.border)
    }

    /// The area covered by the content plus padding, border and margin.
    pub fn margin_box(self) -> (r: Rect)
        ensures
            r@ == spec_margin_box(self@),
    {
        self.border_box().expanded_by(self.margin)
    }
}

/// What kind of box a layout box is: a block or inline box carrying its
/// styled node's own data, or an anonymous block.
#[derive(Debug)]
pub enum BoxType {
    BlockNode(StyledNode),
    InlineNode(StyledNode),
    AnonymousBlock,
}

/// A box of the layout tree.
#[derive(Debug)]
pub struct LayoutBox {
    pub dimensions: Dimensions,
    pub box_type: BoxType,
    pub children: Vec<LayoutBox>,
}

/// Specification view of a box kind.
pub enum BoxTypeV {
    BlockNode(StyledNodeV),
    InlineNode(StyledNodeV),
    AnonymousBlock,
}

/// Specification view of a layout box.
pub struct LayoutBoxV {
    pub dimensions: DimsV,
    pub box_type: BoxTypeV,
    pub children: Seq<LayoutBoxV>,
}

impl View for BoxType {
    type V = BoxTypeV;

    open spec fn view(&self) -> BoxTypeV {
        match self {
            BoxType::BlockNode(s) => BoxTypeV::BlockNode(s@),
            BoxType::InlineNode(s) => BoxTypeV::InlineNode(s@),
            BoxType::AnonymousBlock => BoxTypeV::AnonymousBlock,
        }
    }
}

/// The view of a layout box, taken recursively over its children.
pub open spec fn box_view(b: LayoutBox) -> LayoutBoxV
    decreases b,
{
    LayoutBoxV {
        dimensions: b.dimensions@,
        box_type: b.box_type@,
        children: boxes_view(b.children@),
    }
}

/// The views of a sequence of layout boxes.
pub open spec fn boxes_view(s: Seq<LayoutBox>) -> Seq<LayoutBoxV>
    decreases s,
{
    if s.len() == 0 {
        Seq::empty()
    } else {
        boxes_view(s.drop_last()).push(box_view(s.last()))
    }
}

impl View for LayoutBox {
    type V = LayoutBoxV;

    open spec fn view(&self) -> LayoutBoxV {
        box_view(*self)
    }
}

/// `boxes_view` maps `box_view` over the sequence, index by index.
pub proof fn lemma_boxes_view_index(s: Seq<LayoutBox>)
    ensures
        boxes_view(s).len() == s.len(),
        forall|i: int| 0 <= i < s.len() ==> boxes_view(s)[i] == box_view(s[i]),
    decreases s.len(),
{
    if s.len() > 0 {
        lemma_boxes_view_index(s.drop_last());
    }
}

/// The style map a box reads: its styled node's specified values; an
/// anonymous box reads nothing.
pub open spec fn box_style(bt: BoxTypeV) -> Seq<PropV> {
    match bt {
        BoxTypeV::BlockNode(s) => s.specified_values,
        BoxTypeV::InlineNode(s) => s.specified_values,
        BoxTypeV::AnonymousBlock => Seq::empty(),
    }
}

/// The height of one box: its subtree, counted in nodes, plus one.
pub open spec fn box_height(b: LayoutBoxV) -> nat
    decreases b,
{
    1 + boxes_height(b.children)
}

/// The number of boxes in a forest.
pub open spec fn boxes_height(s: Seq<LayoutBoxV>) -> nat
    decreases s,
{
    if s.len() == 0 {
        0nat
    } else {
        box_height(s[0]) + boxes_height(s.drop_first())
    }
}

/// A box holds at least itself.
pub proof fn lemma_box_height_pos(b: LayoutBoxV)
    ensures
        box_height(b) >= 1,
{
}

/// A box's height is bounded by its forest's.
pub proof fn lemma_boxes_height_element(s: Seq<LayoutBoxV>, i: int)
    requires
        0 <= i < s.len(),
    ensures
        box_height(s[i]) <= boxes_height(s),
    decreases s.len(),
{
    if i > 0 {
        lemma_boxes_height_element(s.drop_first(), i - 1);
    }
}

/// Dropping the first box strictly shrinks a non-empty forest.
pub proof fn lemma_boxes_height_drop(s: Seq<LayoutBoxV>)
    requires
        s.len() > 0,
    ensures
        boxes_height(s.drop_first()) < boxes_height(s),
{
    lemma_box_height_pos(s[0]);
}

// --- the used horizontal values of a block box (CSS 2.1, simplified) ---

/// The used horizontal values of a block box.
pub struct BlockWidths {
    pub width: int,
    pub margin_left: int,
    pub margin_right: int,
    pub border_left: int,
    pub border_right: int,
    pub padding_left: int,
    pub padding_right: int,
}

/// The zero-pixel length.
pub open spec fn zero_len() -> ValueV {
    ValueV::Length(0, Unit::Px)
}

/// The `width` value of a style map, `auto` when absent.
pub open spec fn used_width(m: Seq<PropV>) -> ValueV {
    match props_get(m, "width"@) {
        Some(v) => v,
        None => ValueV::Keyword("auto"@),
    }
}

/// The used horizontal values of a block box inside a containing block of
/// content width `cw`: edge properties fall back to their shorthands and
/// then to zero; `auto` widths and margins absorb the underflow.
pub open spec fn spec_block_width(m: Seq<PropV>, cw: int) -> BlockWidths {
    let width0 = used_width(m);
    let ml0 = spec_lookup(m, "margin-left"@, "margin"@, zero_len());
    let mr0 = spec_lookup(m, "margin-right"@, "margin"@, zero_len());
    let bl = spec_to_px(spec_lookup(m, "border-left-width"@, "border-width"@, zero_len()));
    let br = spec_to_px(spec_lookup(m, "border-right-width"@, "border-width"@, zero_len()));
    let pl = spec_to_px(spec_lookup(m, "padding-left"@, "padding"@, zero_len()));
    let pr = spec_to_px(spec_lookup(m, "padding-right"@, "padding"@, zero_len()));
    let mlv = spec_to_px(ml0);
    let mrv = spec_to_px(mr0);
    let wv = spec_to_px(width0);
    let total = spec_padd(
        spec_padd(spec_padd(spec_padd(spec_padd(spec_padd(mlv, mrv), bl), br), pl), pr),
        wv,
    );
    let w_auto = spec_is_auto(width0);
    let squeeze = !w_auto && total > cw;
    let ml_auto = spec_is_auto(ml0) && !squeeze;
    let mr_auto = spec_is_auto(mr0) && !squeeze;
    let underflow = spec_psub(cw, total);
    if !w_auto && !ml_auto && !mr_auto {
        BlockWidths {
            width: wv,
            margin_left: mlv,
            margin_right: spec_padd(mrv, underflow),
            border_left: bl,
            border_right: br,
            padding_left: pl,
            padding_right: pr,
        }
    } else if !w_auto && !ml_auto && mr_auto {
        BlockWidths {
            width: wv,
            margin_left: mlv,
            margin_right: underflow,
            border_left: bl,
            border_right: br,
            padding_left: pl,
            padding_right: pr,
        }
    } else if !w_auto && ml_auto && !mr_auto {
        BlockWidths {
            width: wv,
            margin_left: underflow,
            margin_right: mrv,
            border_left: bl,
            border_right: br,
            padding_left: pl,
            padding_right: pr,
        }
    } else if w_auto {
        if underflow >= 0 {
            BlockWidths {
                width: underflow,
                margin_left: mlv,
                margin_right: mrv,
                border_left: bl,
                border_right: br,
                padding_left: pl,
                padding_right: pr,
            }
        } else {
            BlockWidths {
                width: 0,
                margin_left: mlv,
                margin_right: spec_padd(mrv, underflow),
                border_left: bl,
                border_right: br,
                padding_left: pl,
                padding_right: pr,
            }
        }
    } else {
        BlockWidths {
            width: wv,
            margin_left: spec_phalf(underflow),
            margin_right: spec_phalf(underflow),
            border_left: bl,
            border_right: br,
            padding_left: pl,
            padding_right: pr,
        }
    }
}

/// The used horizontal values of an inline box: the `width` property read
/// directly (zero when absent), edges from their properties, no `auto`
/// resolution.
pub open spec fn spec_inline_width(m: Seq<PropV>) -> BlockWidths {
    let width0 = match props_get(m, "width"@) {
        Some(v) => v,
        None => zero_len(),
    };
    BlockWidths {
        width: spec_to_px(width0),
        margin_left: spec_to_px(spec_lookup(m, "margin-left"@, "margin"@, zero_len())),
        margin_right: spec_to_px(spec_lookup(m, "margin-right"@, "margin"@, zero_len())),
        border_left: spec_to_px(spec_lookup(m, "border-left-width"@, "border-width"@, zero_len())),
        border_right: spec_to_px(
            spec_lookup(m, "border-right-width"@, "border-width"@, zero_len()),
        ),
        padding_left: spec_to_px(spec_lookup(m, "padding-left"@, "padding"@, zero_len())),
        padding_right: spec_to_px(spec_lookup(m, "padding-right"@, "padding"@, zero_len())),
    }
}

/// The used vertical edges of a box: each property falls back to its
/// shorthand and then to zero; `auto` reads as zero.
pub struct VerticalEdges {
    pub margin_top: int,
    pub margin_bottom: int,
    pub border_top: int,
    pub border_bottom: int,
    pub padding_top: int,
    pub padding_bottom: int,
}

/// The used vertical edges written in a style map.
pub open spec fn spec_vertical_edges(m: Seq<PropV>) -> VerticalEdges {
    VerticalEdges {
        margin_top: spec_to_px(spec_lookup(m, "margin-top"@, "margin"@, zero_len())),
        margin_bottom: spec_to_px(spec_lookup(m, "margin-bottom"@, "margin"@, zero_len())),
        border_top: spec_to_px(spec_lookup(m, "border-top-width"@, "border-width"@, zero_len())),
        border_bottom: spec_to_px(
            spec_lookup(m, "border-bottom-width"@, "border-width"@, zero_len()),
        ),
        padding_top: spec_to_px(spec_lookup(m, "padding-top"@, "padding"@, zero_len())),
        padding_bottom: spec_to_px(spec_lookup(m, "padding-bottom"@, "padding"@, zero_len())),
    }
}

/// A box's dimensions after its horizontal values are written.
pub open spec fn with_widths(d: DimsV, bw: BlockWidths) -> DimsV {
    DimsV {
        content: RectV {
            x: d.content.x,
            y: d.content.y,
            width: bw.width,
            height: d.content.height,
        },
        padding: EdgesV {
            top: d.padding.top,
            bottom: d.padding.bottom,
            left: bw.padding_left,
            right: bw.padding_right,
        },
        border: EdgesV {
            top: d.border.top,
            bottom: d.border.bottom,
            left: bw.border_left,
            right: bw.border_right,
        },
        margin: EdgesV {
            top: d.margin.top,
            bottom: d.margin.bottom,
            left: bw.margin_left,
            right: bw.margin_right,
        },
    }
}

/// A box's dimensions after its vertical edges are written.
pub open spec fn with_vertical_edges(d: DimsV, ve: VerticalEdges) -> DimsV {
    DimsV {
        content: d.content,
        padding: EdgesV {
            top: ve.padding_top,
            bottom: ve.padding_bottom,
            left: d.padding.left,
            right: d.padding.right,
        },
        border: EdgesV {
            top: ve.border_top,
            bottom: ve.border_bottom,
            left: d.border.left,
            right: d.border.right,
        },
        margin: EdgesV {
            top: ve.margin_top,
            bottom: ve.margin_bottom,
            left: d.margin.left,
            right: d.margin.right,
        },
    }
}

/// A box's dimensions with the content position replaced.
pub open spec fn with_position(d: DimsV, x: int, y: int) -> DimsV {
    DimsV {
        content: RectV { x: x, y: y, width: d.content.width, height: d.content.height },
        padding: d.padding,
        border: d.border,
        margin: d.margin,
    }
}

/// A box's dimensions with the content height replaced.
pub open spec fn with_height(d: DimsV, h: int) -> DimsV {
    DimsV {
        content: RectV { x: d.content.x, y: d.content.y, width: d.content.width, height: h },
        padding: d.padding,
        border: d.border,
        margin: d.margin,
    }
}

/// A box's dimensions with the content width replaced.
pub open spec fn with_width(d: DimsV, w: int) -> DimsV {
    DimsV {
        content: RectV { x: d.content.x, y: d.content.y, width: w, height: d.content.height },
        padding: d.padding,
        border: d.border,
        margin: d.margin,
    }
}

/// A block box's content position: below the siblings already laid out in
/// the containing block, shifted by its own left and top edges.
pub open spec fn spec_block_position(d: DimsV, cb: DimsV) -> DimsV {
    let x = spec_padd(spec_padd(spec_padd(cb.content.x, d.margin.left), d.border.left), d.padding.left);
    let y = spec_padd(
        spec_padd(spec_padd(spec_padd(cb.content.height, cb.content.y), d.margin.top), d.border.top),
        d.padding.top,
    );
    with_position(d, x, y)
}

/// An inline box's content position: to the right of the containing
/// content, shifted by its own left and top edges.
pub open spec fn spec_inline_position(d: DimsV, cb: DimsV) -> DimsV {
    let x = spec_padd(
        spec_padd(spec_padd(spec_padd(cb.content.x, cb.content.width), d.margin.left), d.border.left),
        d.padding.left,
    );
    let y = spec_padd(spec_padd(spec_padd(cb.content.y, d.margin.top), d.border.top), d.padding.top);
    with_position(d, x, y)
}

/// An anonymous box's content position: at the containing block's content
/// origin, below the siblings already laid out.
pub open spec fn spec_anonymous_position(d: DimsV, cb: DimsV) -> DimsV {
    with_position(d, cb.content.x, spec_padd(cb.content.height, cb.content.y))
}

/// The content height after the `height` property is honored: an explicit
/// pixel length overrides the accumulated value.
pub open spec fn spec_height_override(m: Seq<PropV>, d: DimsV) -> DimsV {
    match props_get(m, "height"@) {
        Some(ValueV::Length(h, Unit::Px)) => with_height(d, h),
        _ => d,
    }
}

// --- the layout pass over a whole box tree ---

/// One laid-out box: the dispatch on its kind.
pub open spec fn spec_layout(b: LayoutBoxV, cb: DimsV) -> LayoutBoxV
    decreases box_height(b), 1int,
{
    match b.box_type {
        BoxTypeV::BlockNode(_) => spec_layout_block(b, cb),
        BoxTypeV::InlineNode(_) => spec_layout_inline(b, cb),
        BoxTypeV::AnonymousBlock => spec_layout_anonymous(b, cb),
    }
}

/// A block box: width, vertical edges, position, children stacked
/// vertically, then the height property.
pub open spec fn spec_layout_block(b: LayoutBoxV, cb: DimsV) -> LayoutBoxV
    decreases box_height(b), 0int,
{
    let m = box_style(b.box_type);
    let d1 = with_widths(b.dimensions, spec_block_width(m, cb.content.width));
    let d2 = with_vertical_edges(d1, spec_vertical_edges(m));
    let d3 = spec_block_position(d2, cb);
    let (children, h) = spec_block_children(b.children, d3);
    let d4 = spec_height_override(m, with_height(d3, h));
    LayoutBoxV { dimensions: d4, box_type: b.box_type, children }
}

/// An inline box: vertical edges, position, width without `auto`
/// resolution, the height property, then inline children flowed
/// horizontally.
pub open spec fn spec_layout_inline(b: LayoutBoxV, cb: DimsV) -> LayoutBoxV
    decreases box_height(b), 0int,
{
    let m = box_style(b.box_type);
    let d1 = with_vertical_edges(b.dimensions, spec_vertical_edges(m));
    let d2 = spec_inline_position(d1, cb);
    let d3 = with_widths(d2, spec_inline_width(m));
    let d4 = spec_height_override(m, d3);
    let (children, d5) = spec_inline_children(b.children, d4, cb);
    LayoutBoxV { dimensions: d5, box_type: b.box_type, children }
}

/// An anonymous box: position at the containing origin, inline children,
/// then the containing block's content height.
pub open spec fn spec_layout_anonymous(b: LayoutBoxV, cb: DimsV) -> LayoutBoxV
    decreases box_height(b), 0int,
{
    let d1 = spec_anonymous_position(b.dimensions, cb);
    let (children, d2) = spec_inline_children(b.children, d1, cb);
    let d3 = with_height(d2, cb.content.height);
    LayoutBoxV { dimensions: d3, box_type: b.box_type, children }
}

/// Block children, laid out in order: each child sees the parent's
/// dimensions with the height accumulated so far, and grows that height by
/// its margin box.
pub open spec fn spec_block_children(cs: Seq<LayoutBoxV>, d: DimsV) -> (Seq<LayoutBoxV>, int)
    decreases boxes_height(cs), 2int,
    via spec_block_children_decreases
{
    if cs.len() == 0 {
        (Seq::empty(), d.content.height)
    } else {
        let c1 = spec_layout(cs[0], d);
        let h1 = spec_padd(d.content.height, spec_margin_box(c1.dimensions).height);
        let (rest, h) = spec_block_children(cs.drop_first(), with_height(d, h1));
        (seq![c1] + rest, h)
    }
}

/// Inline children, flowed in order: each child grows the content width
/// by its margin box; a child that would overflow the containing width
/// starts a new line, zeroing the width and advancing the vertical
/// position.
pub open spec fn spec_inline_children(cs: Seq<LayoutBoxV>, d: DimsV, cb: DimsV) -> (
    Seq<LayoutBoxV>,
    DimsV,
)
    decreases boxes_height(cs), 2int,
    via spec_inline_children_decreases
{
    if cs.len() == 0 {
        (Seq::empty(), d)
    } else {
        let c1 = spec_layout(cs[0], d);
        let nw = spec_padd(d.content.width, spec_margin_box(c1.dimensions).width);
        let d1 = if nw > cb.content.width {
            with_position(
                with_width(d, 0),
                d.content.x,
                spec_padd(d.content.y, cb.content.y),
            )
        } else {
            with_width(d, nw)
        };
        let (rest, d2) = spec_inline_children(cs.drop_first(), d1, cb);
        (seq![c1] + rest, d2)
    }
}


// --- box-tree construction ---

/// A styled node's own data, without its children.
pub open spec fn strip_styled(sn: StyledNodeV) -> StyledNodeV {
    StyledNodeV { node: sn.node, specified_values: sn.specified_values, children: Seq::empty() }
}

/// The box a styled node opens, before any geometry. A node whose display
/// kind is `none` never reaches this (its box would be inline here).
pub open spec fn sp_build_box(sn: StyledNodeV) -> LayoutBoxV
    decreases sn, 0int,
{
    let bt = if spec_display(sn.specified_values) == Display::Block {
        BoxTypeV::BlockNode(strip_styled(sn))
    } else {
        BoxTypeV::InlineNode(strip_styled(sn))
    };
    LayoutBoxV {
        dimensions: zero_dims(),
        box_type: bt,
        children: sp_build_acc(Seq::empty(), sn.children, bt),
    }
}

/// One styled child added to a box's children: block children attach
/// directly; an inline child of a block parent goes into the trailing
/// anonymous box, opened if need be; a `display: none` child vanishes.
pub open spec fn sp_add_child(acc: Seq<LayoutBoxV>, bt: BoxTypeV, c: StyledNodeV) -> Seq<
    LayoutBoxV,
>
    decreases c, 1int,
{
    match spec_display(c.specified_values) {
        Display::Nothing => acc,
        Display::Block => acc.push(sp_build_box(c)),
        Display::Inline => match bt {
            BoxTypeV::BlockNode(_) => if acc.len() > 0 && acc.last().box_type
                is AnonymousBlock {
                acc.update(
                    acc.len() - 1,
                    LayoutBoxV {
                        dimensions: acc.last().dimensions,
                        box_type: acc.last().box_type,
                        children: acc.last().children.push(sp_build_box(c)),
                    },
                )
            } else {
                acc.push(
                    LayoutBoxV {
                        dimensions: zero_dims(),
                        box_type: BoxTypeV::AnonymousBlock,
                        children: seq![sp_build_box(c)],
                    },
                )
            },
            _ => acc.push(sp_build_box(c)),
        },
    }
}

/// Styled children folded onto a box's child list, in document order.
pub open spec fn sp_build_acc(
    acc: Seq<LayoutBoxV>,
    cs: Seq<StyledNodeV>,
    bt: BoxTypeV,
) -> Seq<LayoutBoxV>
    decreases cs, 2int,
{
    if cs.len() == 0 {
        acc
    } else {
        sp_build_acc(sp_add_child(acc, bt, cs[0]), cs.drop_first(), bt)
    }
}

/// What `build_layout_tree` yields: the box tree of a styled node, or
/// nothing when the root's display kind is `none`.
pub open spec fn sp_build(sn: StyledNodeV) -> Option<LayoutBoxV> {
    if spec_display(sn.specified_values) == Display::Nothing {
        None
    } else {
        Some(sp_build_box(sn))
    }
}

/// What `layout_tree` yields: the box tree with geometry, laid out in a
/// containing block whose content height is reset to zero.
pub open spec fn sp_layout_tree(sn: StyledNodeV, cb: DimsV) -> Option<LayoutBoxV> {
    match sp_build(sn) {
        None => None,
        Some(root) => Some(spec_layout(root, with_height(cb, 0))),
    }
}

/// Folding one more styled child onto the accumulator.
proof fn lemma_build_acc_snoc(acc: Seq<LayoutBoxV>, cs: Seq<StyledNodeV>, c: StyledNodeV, bt: BoxTypeV)
    ensures
        sp_build_acc(acc, cs.push(c), bt) == sp_add_child(sp_build_acc(acc, cs, bt), bt, c),
    decreases cs.len(),
{
    reveal_with_fuel(sp_build_acc, 3);
    if cs.len() == 0 {
        assert(cs.push(c)[0] == c);
        assert(cs.push(c).drop_first() =~= Seq::<StyledNodeV>::empty());
        assert(sp_build_acc(sp_add_child(acc, bt, c), Seq::<StyledNodeV>::empty(), bt)
            == sp_add_child(acc, bt, c));
    } else {
        assert(cs.push(c)[0] == cs[0]);
        assert(cs.push(c).drop_first() =~= cs.drop_first().push(c));
        lemma_build_acc_snoc(sp_add_child(acc, bt, cs[0]), cs.drop_first(), c, bt);
    }
}

/// Whether a box is anonymous.
fn is_anonymous(b: &LayoutBox) -> (r: bool)
    ensures
        r == (b@.box_type is AnonymousBlock),
{
    matches!(b.box_type, BoxType::AnonymousBlock)
}

/// The styled node's own data, with no children: what a box keeps.
fn strip_styled_node(sn: &StyledNode) -> (r: StyledNode)
    ensures
        r@ == strip_styled(sn@),
{
    let r = StyledNode {
        node: sn.node.clone(),
        specified_values: sn.specified_values.clone(),
        children: Vec::new(),
    };
    proof {
        assert(crate::style::styleds_view(r.children@) =~= Seq::<StyledNodeV>::empty());
    }
    r
}

/// Build the box tree of a styled node, without geometry: block and
/// inline children attach in order, consecutive inline children of a
/// block parent share one anonymous box, `display: none` children are
/// skipped. A root with display `none` cannot be laid out.
pub fn build_layout_tree(style_node: &StyledNode) -> (r: Result<LayoutBox, LayoutError>)
    ensures
        match r {
            Ok(b) => sp_build(style_node@) == Some(b@),
            Err(_) => sp_build(style_node@) is None,
        },
    decreases *style_node,
{
    let d = style_node.display();
    let bt: BoxType = match d {
        Display::Block => BoxType::BlockNode(strip_styled_node(style_node)),
        Display::Inline => BoxType::InlineNode(strip_styled_node(style_node)),
        Display::Nothing => {
            return Err(LayoutError {});
        },
    };
    let parent_is_block = matches!(bt, BoxType::BlockNode(_));
    let ghost btv = bt@;
    let mut cs: Vec<LayoutBox> = Vec::new();
    let n = style_node.children.len();
    proof {
        crate::style::lemma_styleds_view_index(style_node.children@);
        assert(boxes_view(cs@) =~= Seq::<LayoutBoxV>::empty());
        assert(style_node@.children.subrange(0, 0) =~= Seq::<StyledNodeV>::empty());
    }
    for i in 0..n
        invariant
            n == style_node.children.len(),
            style_node@.children.len() == n,
            parent_is_block == (btv is BlockNode),
            forall|k: int|
                0 <= k < n ==> style_node@.children[k] == crate::style::styled_view(
                    #[trigger] style_node.children@[k],
                ),
            boxes_view(cs@) == sp_build_acc(
                Seq::empty(),
                style_node@.children.subrange(0, i as int),
                btv,
            ),
        decreases n - i,
    {
        let child = &style_node.children[i];
        let ghost cv = style_node@.children[i as int];
        let ghost pre = style_node@.children.subrange(0, i as int);
        let ghost post = style_node@.children.subrange(0, i as int + 1);
        let ghost acc0 = boxes_view(cs@);
        proof {
            assert(post.drop_last() =~= pre);
            assert(post =~= pre.push(cv));
            lemma_build_acc_snoc(Seq::empty(), pre, cv, btv);
        }
        let cd = child.display();
        match cd {
            Display::Nothing => {
                proof {
                    assert(sp_add_child(acc0, btv, cv) == acc0);
                }
            },
            Display::Block => {
                match build_layout_tree(child) {
                    Ok(b) => {
                        let ghost bv = b@;
                        let ghost cs_old = cs@;
                        cs.push(b);
                        proof {
                            assert(cs@.drop_last() =~= cs_old);
                            assert(boxes_view(cs@) == boxes_view(cs_old).push(bv));
                        }
                    },
                    Err(e) => {
                        proof {
                            assert(false);
                        }
                        return Err(e);
                    },
                }
            },
            Display::Inline => {
                let b = match build_layout_tree(child) {
                    Ok(b) => b,
                    Err(e) => {
                        proof {
                            assert(false);
                        }
                        return Err(e);
                    },
                };
                let ghost bv = b@;
                if parent_is_block {
                    let reuse = if cs.len() > 0 {
                        is_anonymous(&cs[cs.len() - 1])
                    } else {
                        false
                    };
                    proof {
                        lemma_boxes_view_index(cs@);
                        if cs@.len() > 0 {
                            assert(acc0.last() == box_view(cs@[cs@.len() - 1]));
                        }
                    }
                    if reuse {
                        let mut last = match cs.pop() {
                            Some(l) => l,
                            None => {
                                proof {
                                    assert(false);
                                }
                                return Err(LayoutError {});
                            },
                        };
                        let ghost lastv = last@;
                        let ghost last_cs = last.children@;
                        let ghost cs_popped = cs@;
                        last.children.push(b);
                        proof {
                            assert(last.children@.drop_last() =~= last_cs);
                            assert(boxes_view(last.children@) == boxes_view(last_cs).push(bv));
                        }
                        let ghost last2v = last@;
                        cs.push(last);
                        proof {
                            lemma_boxes_view_index(cs@);
                            assert(last2v == LayoutBoxV {
                                dimensions: lastv.dimensions,
                                box_type: lastv.box_type,
                                children: lastv.children.push(bv),
                            });
                            assert forall|k: int| 0 <= k < boxes_view(cs@).len() implies
                                boxes_view(cs@)[k] == sp_add_child(acc0, btv, cv)[k] by {
                                if k < acc0.len() - 1 {
                                    assert(cs@[k] == cs_popped[k]);
                                    assert(boxes_view(cs_popped)[k] == acc0[k]) by {
                                        lemma_boxes_view_index(cs_popped);
                                    }
                                }
                            }
                            assert(boxes_view(cs@) =~= sp_add_child(acc0, btv, cv));
                        }
                    } else {
                        let mut anon = LayoutBox {
                            dimensions: Dimensions::default(),
                            box_type: BoxType::AnonymousBlock,
                            children: Vec::new(),
                        };
                        proof {
                            assert(boxes_view(anon.children@) =~= Seq::<LayoutBoxV>::empty());
                        }
                        anon.children.push(b);
                        proof {
                            assert(anon.children@.drop_last() =~= Seq::<LayoutBox>::empty());
                            assert(boxes_view(anon.children@) =~= seq![bv]);
                        }
                        let ghost av = anon@;
                        let ghost cs_old = cs@;
                        cs.push(anon);
                        proof {
                            assert(cs@.drop_last() =~= cs_old);
                            assert(boxes_view(cs@) == boxes_view(cs_old).push(av));
                        }
                    }
                } else {
                    let ghost cs_old = cs@;
                    cs.push(b);
                    proof {
                        assert(cs@.drop_last() =~= cs_old);
                        assert(boxes_view(cs@) == boxes_view(cs_old).push(bv));
                    }
                }
            },
        }
    }
    proof {
        assert(style_node@.children.subrange(0, n as int) =~= style_node@.children);
    }
    let root = LayoutBox { dimensions: Dimensions::default(), box_type: bt, children: cs };
    Ok(root)
}

// --- geometry ---

/// The used horizontal values of a block box written into its dimensions.
fn calculate_block_width(d: Dimensions, style: &StyledNode, cw: i64) -> (r: Dimensions)
    ensures
        r@ == with_widths(d@, spec_block_width(style@.specified_values, cw as int)),
{
    let zero = Value::Length(0, Unit::Px);
    let width = match style.value("width") {
        Some(v) => v,
        None => Value::Keyword(String::from_str("auto")),
    };
    let margin_left = style.lookup("margin-left", "margin", &zero);
    let margin_right = style.lookup("margin-right", "margin", &zero);
    let border_left = style.lookup("border-left-width", "border-width", &zero);
    let border_right = style.lookup("border-right-width", "border-width", &zero);
    let padding_left = style.lookup("padding-left", "padding", &zero);
    let padding_right = style.lookup("padding-right", "padding", &zero);
    let total = px::padd(
        px::padd(
            px::padd(
                px::padd(
                    px::padd(px::padd(margin_left.to_px(), margin_right.to_px()), border_left.to_px()),
                    border_right.to_px(),
                ),
                padding_left.to_px(),
            ),
            padding_right.to_px(),
        ),
        width.to_px(),
    );
    let w_auto = width.is_auto();
    let squeeze = !w_auto && total > cw;
    let ml_auto = margin_left.is_auto() && !squeeze;
    let mr_auto = margin_right.is_auto() && !squeeze;
    let underflow = px::psub(cw, total);
    let used: (i64, i64, i64) = if !w_auto && !ml_auto && !mr_auto {
        (width.to_px(), margin_left.to_px(), px::padd(margin_right.to_px(), underflow))
    } else if !w_auto && !ml_auto && mr_auto {
        (width.to_px(), margin_left.to_px(), underflow)
    } else if !w_auto && ml_auto && !mr_auto {
        (width.to_px(), underflow, margin_right.to_px())
    } else if w_auto {
        if underflow >= 0 {
            (underflow, margin_left.to_px(), margin_right.to_px())
        } else {
            (0, margin_left.to_px(), px::padd(margin_right.to_px(), underflow))
        }
    } else {
        (width.to_px(), px::phalf(underflow), px::phalf(underflow))
    };
    Dimensions {
        content: Rect { x: d.content.x, y: d.content.y, width: used.0, height: d.content.height },
        padding: EdgeSizes {
            top: d.padding.top,
            bottom: d.padding.bottom,
            left: padding_left.to_px(),
            right: padding_right.to_px(),
        },
        border: EdgeSizes {
            top: d.border.top,
            bottom: d.border.bottom,
            left: border_left.to_px(),
            right: border_right.to_px(),
        },
        margin: EdgeSizes {
            top: d.margin.top,
            bottom: d.margin.bottom,
            left: used.1,
            right: used.2,
        },
    }
}

/// The used horizontal values of an inline box written into its
/// dimensions.
fn calculate_inline_width(d: Dimensions, style: &StyledNode) -> (r: Dimensions)
    ensures
        r@ == with_widths(d@, spec_inline_width(style@.specified_values)),
{
    let zero = Value::Length(0, Unit::Px);
    let width = match style.value("width") {
        Some(v) => v,
        None => Value::Length(0, Unit::Px),
    };
    let margin_left = style.lookup("margin-left", "margin", &zero);
    let margin_right = style.lookup("margin-right", "margin", &zero);
    let border_left = style.lookup("border-left-width", "border-width", &zero);
    let border_right = style.lookup("border-right-width", "border-width", &zero);
    let padding_left = style.lookup("padding-left", "padding", &zero);
    let padding_right = style.lookup("padding-right", "padding", &zero);
    Dimensions {
        content: Rect {
            x: d.content.x,
            y: d.content.y,
            width: width.to_px(),
            height: d.content.height,
        },
        padding: EdgeSizes {
            top: d.padding.top,
            bottom: d.padding.bottom,
            left: padding_left.to_px(),
            right: padding_right.to_px(),
        },
        border: EdgeSizes {
            top: d.border.top,
            bottom: d.border.bottom,
            left: border_left.to_px(),
            right: border_right.to_px(),
        },
        margin: EdgeSizes {
            top: d.margin.top,
            bottom: d.margin.bottom,
            left: margin_left.to_px(),
            right: margin_right.to_px(),
        },
    }
}

/// The used vertical edges written into a box's dimensions; an `auto`
/// margin reads as zero.
fn calculate_vertical_edges(d: Dimensions, style: &StyledNode) -> (r: Dimensions)
    ensures
        r@ == with_vertical_edges(d@, spec_vertical_edges(style@.specified_values)),
{
    let zero = Value::Length(0, Unit::Px);
    let margin_top = style.lookup("margin-top", "margin", &zero);
    let margin_bottom = style.lookup("margin-bottom", "margin", &zero);
    let border_top = style.lookup("border-top-width", "border-width", &zero);
    let border_bottom = style.lookup("border-bottom-width", "border-width", &zero);
    let padding_top = style.lookup("padding-top", "padding", &zero);
    let padding_bottom = style.lookup("padding-bottom", "padding", &zero);
    Dimensions {
        content: d.content,
        padding: EdgeSizes {
            top: padding_top.to_px(),
            bottom: padding_bottom.to_px(),
            left: d.padding.left,
            right: d.padding.right,
        },
        border: EdgeSizes {
            top: border_top.to_px(),
            bottom: border_bottom.to_px(),
            left: d.border.left,
            right: d.border.right,
        },
        margin: EdgeSizes {
            top: margin_top.to_px(),
            bottom: margin_bottom.to_px(),
            left: d.margin.left,
            right: d.margin.right,
        },
    }
}

/// A block box's content position inside its containing block.
fn calculate_block_position(d: Dimensions, cb: Dimensions) -> (r: Dimensions)
    ensures
        r@ == spec_block_position(d@, cb@),
{
    let mut r = d;
    r.content.x = px::padd(px::padd(px::padd(cb.content.x, d.margin.left), d.border.left), d.padding.left);
    r.content.y = px::padd(
        px::padd(px::padd(px::padd(cb.content.height, cb.content.y), d.margin.top), d.border.top),
        d.padding.top,
    );
    r
}

/// An inline box's content position inside its containing block.
fn calculate_inline_position(d: Dimensions, cb: Dimensions) -> (r: Dimensions)
    ensures
        r@ == spec_inline_position(d@, cb@),
{
    let mut r = d;
    r.content.x = px::padd(
        px::padd(px::padd(px::padd(cb.content.x, cb.content.width), d.margin.left), d.border.left),
        d.padding.left,
    );
    r.content.y = px::padd(px::padd(px::padd(cb.content.y, d.margin.top), d.border.top), d.padding.top);
    r
}

/// An anonymous box's content position inside its containing block.
fn calculate_anonymous_position(d: Dimensions, cb: Dimensions) -> (r: Dimensions)
    ensures
        r@ == spec_anonymous_position(d@, cb@),
{
    let mut r = d;
    r.content.x = cb.content.x;
    r.content.y = px::padd(cb.content.height, cb.content.y);
    r
}

/// The `height` property written over the accumulated content height,
/// when it is an explicit pixel length.
fn apply_height_override(d: Dimensions, style: &StyledNode) -> (r: Dimensions)
    ensures
        r@ == spec_height_override(style@.specified_values, d@),
{
    match style.value("height") {
        Some(v) => match v {
            Value::Length(h, Unit::Px) => {
                let mut r = d;
                r.content.height = h;
                r
            },
            _ => d,
        },
        None => d,
    }
}

/// Geometry for one box inside its containing block.
fn layout_box(b: LayoutBox, containing_block: Dimensions) -> (r: LayoutBox)
    ensures
        r@ == spec_layout(b@, containing_block@),
    decreases box_height(b@), 1int,
{
    match &b.box_type {
        BoxType::BlockNode(_) => layout_block(b, containing_block),
        BoxType::InlineNode(_) => layout_inline(b, containing_block),
        BoxType::AnonymousBlock => layout_anonymous(b, containing_block),
    }
}

/// Block geometry: width, vertical edges, position, stacked children,
/// then the height property.
fn layout_block(b: LayoutBox, cb: Dimensions) -> (r: LayoutBox)
    requires
        b@.box_type is BlockNode,
    ensures
        r@ == spec_layout_block(b@, cb@),
    decreases box_height(b@), 0int,
{
    let ghost bv = b@;
    let LayoutBox { dimensions, box_type, children } = b;
    let d3: Dimensions = if let BoxType::BlockNode(style) = &box_type {
        let d1 = calculate_block_width(dimensions, style, cb.content.width);
        let d2 = calculate_vertical_edges(d1, style);
        calculate_block_position(d2, cb)
    } else {
        proof {
            assert(false);
        }
        dimensions
    };
    let (children2, d4) = layout_block_children_list(children, d3);
    let d5: Dimensions = if let BoxType::BlockNode(style) = &box_type {
        apply_height_override(d4, style)
    } else {
        proof {
            assert(false);
        }
        d4
    };
    let r = LayoutBox { dimensions: d5, box_type, children: children2 };
    r
}

/// Inline geometry: vertical edges, position, width without `auto`
/// resolution, the height property, then flowed children.
fn layout_inline(b: LayoutBox, cb: Dimensions) -> (r: LayoutBox)
    requires
        b@.box_type is InlineNode,
    ensures
        r@ == spec_layout_inline(b@, cb@),
    decreases box_height(b@), 0int,
{
    let ghost bv = b@;
    let LayoutBox { dimensions, box_type, children } = b;
    let d4: Dimensions = if let BoxType::InlineNode(style) = &box_type {
        let d1 = calculate_vertical_edges(dimensions, style);
        let d2 = calculate_inline_position(d1, cb);
        let d3 = calculate_inline_width(d2, style);
        apply_height_override(d3, style)
    } else {
        proof {
            assert(false);
        }
        dimensions
    };
    let (children2, d5) = layout_inline_children_list(children, d4, cb);
    let r = LayoutBox { dimensions: d5, box_type, children: children2 };
    r
}

/// Anonymous geometry: position at the containing origin, flowed
/// children, then the containing block's content height.
fn layout_anonymous(b: LayoutBox, cb: Dimensions) -> (r: LayoutBox)
    requires
        b@.box_type is AnonymousBlock,
    ensures
        r@ == spec_layout_anonymous(b@, cb@),
    decreases box_height(b@), 0int,
{
    let ghost bv = b@;
    let LayoutBox { dimensions, box_type, children } = b;
    let d1 = calculate_anonymous_position(dimensions, cb);
    let (children2, d2) = layout_inline_children_list(children, d1, cb);
    let mut d3 = d2;
    d3.content.height = cb.content.height;
    let r = LayoutBox { dimensions: d3, box_type, children: children2 };
    r
}

/// Lay out block children in order, each below the one before, growing
/// the parent's content height by each child's margin box.
fn layout_block_children_list(cs: Vec<LayoutBox>, d: Dimensions) -> (r: (Vec<LayoutBox>, Dimensions))
    ensures
        ({
            let (rs, h) = spec_block_children(boxes_view(cs@), d@);
            boxes_view(r.0@) == rs && r.1@ == with_height(d@, h)
        }),
    decreases boxes_height(boxes_view(cs@)), 2int,
{
    let ghost cs0 = boxes_view(cs@);
    proof {
        lemma_boxes_view_index(cs@);
    }
    if cs.len() == 0 {
        let out: Vec<LayoutBox> = Vec::new();
        proof {
            assert(boxes_view(out@) =~= Seq::<LayoutBoxV>::empty());
            assert(d@ == with_height(d@, d@.content.height));
        }
        return (out, d);
    }
    let mut cs = cs;
    let child = cs.remove(0);
    proof {
        assert(box_view(child) == cs0[0]);
        lemma_boxes_height_element(cs0, 0);
        lemma_boxes_view_index(cs@);
        assert(boxes_view(cs@) =~= cs0.drop_first());
        lemma_boxes_height_drop(cs0);
    }
    let child2 = layout_box(child, d);
    let mb = child2.dimensions.margin_box();
    let mut d1 = d;
    d1.content.height = px::padd(d.content.height, mb.height);
    proof {
        assert(d1@ == with_height(d@, spec_padd(d@.content.height, spec_margin_box(child2@.dimensions).height)));
    }
    let (rest, dfin) = layout_block_children_list(cs, d1);
    let mut out = rest;
    let ghost out_pre = out@;
    out.insert(0, child2);
    proof {
        lemma_boxes_view_index(out@);
        lemma_boxes_view_index(out_pre);
        assert forall|k: int| 0 <= k < out@.len() implies boxes_view(out@)[k] == (seq![
            child2@,
        ] + boxes_view(out_pre))[k] by {
            if k > 0 {
                assert(out@[k] == out_pre[k - 1]);
            }
        }
        assert(boxes_view(out@) =~= seq![child2@] + boxes_view(out_pre));
        let (rs, h) = spec_block_children(cs0, d@);
        assert(rs == seq![child2@] + spec_block_children(boxes_view(cs@), d1@).0);
        assert(dfin@ == with_height(d1@, h));
        assert(dfin@ == with_height(d@, h));
    }
    (out, dfin)
}

/// Flow inline children in order, growing the content width by each
/// child's margin box and wrapping when a child would overflow the
/// containing width.
fn layout_inline_children_list(cs: Vec<LayoutBox>, d: Dimensions, cb: Dimensions) -> (r: (
    Vec<LayoutBox>,
    Dimensions,
))
    ensures
        ({
            let (rs, d2) = spec_inline_children(boxes_view(cs@), d@, cb@);
            boxes_view(r.0@) == rs && r.1@ == d2
        }),
    decreases boxes_height(boxes_view(cs@)), 2int,
{
    let ghost cs0 = boxes_view(cs@);
    proof {
        lemma_boxes_view_index(cs@);
    }
    if cs.len() == 0 {
        let out: Vec<LayoutBox> = Vec::new();
        proof {
            assert(boxes_view(out@) =~= Seq::<LayoutBoxV>::empty());
        }
        return (out, d);
    }
    let mut cs = cs;
    let child = cs.remove(0);
    proof {
        assert(box_view(child) == cs0[0]);
        lemma_boxes_height_element(cs0, 0);
        lemma_boxes_view_index(cs@);
        assert(boxes_view(cs@) =~= cs0.drop_first());
        lemma_boxes_height_drop(cs0);
    }
    let child2 = layout_box(child, d);
    let mb = child2.dimensions.margin_box();
    let new_width = px::padd(d.content.width, mb.width);
    let mut d1 = d;
    if new_width > cb.content.width {
        d1.content.width = 0;
        d1.content.y = px::padd(d.content.y, cb.content.y);
    } else {
        d1.content.width = new_width;
    }
    let (rest, dfin) = layout_inline_children_list(cs, d1, cb);
    let mut out = rest;
    let ghost out_pre = out@;
    out.insert(0, child2);
    proof {
        lemma_boxes_view_index(out@);
        lemma_boxes_view_index(out_pre);
        assert forall|k: int| 0 <= k < out@.len() implies boxes_view(out@)[k] == (seq![
            child2@,
        ] + boxes_view(out_pre))[k] by {
            if k > 0 {
                assert(out@[k] == out_pre[k - 1]);
            }
        }
        assert(boxes_view(out@) =~= seq![child2@] + boxes_view(out_pre));
    }
    (out, dfin)
}

/// Lay out a styled tree inside a viewport. The containing block's
/// content height starts at zero, so each top-level box stacks below the
/// one before; a root with display `none` cannot be laid out.
pub fn layout_tree(node: &StyledNode, containing_block: Dimensions) -> (r: Result<
    LayoutBox,
    LayoutError,
>)
    ensures
        match r {
            Ok(b) => sp_layout_tree(node@, containing_block@) == Some(b@),
            Err(_) => sp_layout_tree(node@, containing_block@) is None,
        },
{
    let mut cb = containing_block;
    cb.content.height = 0;
    proof {
        assert(cb@ == with_height(containing_block@, 0));
    }
    let root = match build_layout_tree(node) {
        Ok(b) => b,
        Err(e) => {
            return Err(e);
        },
    };
    Ok(layout_box(root, cb))
}


// --- laws of the block width computation ---

/// All length values in a style map are parser-shaped: between zero and
/// `PX_LIMIT`.
pub open spec fn props_bounded(m: Seq<PropV>) -> bool {
    forall|i: int|
        0 <= i < m.len() ==> (match (#[trigger] m[i]).1 {
            ValueV::Length(v, _) => 0 <= v <= px::PX_LIMIT,
            _ => true,
        })
}

/// A value read from a bounded map is a bounded length or no length.
proof fn lemma_props_get_bounded(m: Seq<PropV>, name: Seq<char>)
    requires
        props_bounded(m),
    ensures
        match props_get(m, name) {
            Some(ValueV::Length(v, _)) => 0 <= v <= px::PX_LIMIT,
            _ => true,
        },
    decreases m.len(),
{
    if m.len() > 0 {
        assert(m[0] == m[0]);
        assert(props_bounded(m.drop_first())) by {
            assert(forall|i: int|
                0 <= i < m.drop_first().len() ==> m.drop_first()[i] == m[i + 1]);
        }
        lemma_props_get_bounded(m.drop_first(), name);
    }
}

/// A looked-up pixel count lies in the parser's range.
proof fn lemma_lookup_bounded(m: Seq<PropV>, name: Seq<char>, fallback: Seq<char>)
    requires
        props_bounded(m),
    ensures
        0 <= spec_to_px(spec_lookup(m, name, fallback, zero_len())) <= px::PX_LIMIT,
{
    lemma_props_get_bounded(m, name);
    lemma_props_get_bounded(m, fallback);
}

/// The exact sum of a block box's seven horizontal values, before any
/// underflow is distributed.
pub open spec fn horizontal_total(m: Seq<PropV>) -> int {
    spec_to_px(spec_lookup(m, "margin-left"@, "margin"@, zero_len())) + spec_to_px(
        spec_lookup(m, "margin-right"@, "margin"@, zero_len()),
    ) + spec_to_px(spec_lookup(m, "border-left-width"@, "border-width"@, zero_len()))
        + spec_to_px(spec_lookup(m, "border-right-width"@, "border-width"@, zero_len()))
        + spec_to_px(spec_lookup(m, "padding-left"@, "padding"@, zero_len())) + spec_to_px(
        spec_lookup(m, "padding-right"@, "padding"@, zero_len()),
    ) + spec_to_px(used_width(m))
}

/// Width conservation: for a block box whose `width` is not `auto`, the
/// used horizontal values fill the containing width exactly, with the
/// underflow absorbed by the margins. Lengths stay in the parser's range;
/// when both margins are `auto`, the leftover space splits into two equal
/// margins, so it must be even.
pub proof fn lemma_block_width_conservation(m: Seq<PropV>, cw: int)
    requires
        props_bounded(m),
        0 <= cw <= px::PX_LIMIT,
        !spec_is_auto(used_width(m)),
        (spec_is_auto(spec_lookup(m, "margin-left"@, "margin"@, zero_len())) && spec_is_auto(
            spec_lookup(m, "margin-right"@, "margin"@, zero_len()),
        ) && horizontal_total(m) <= cw) ==> (cw - horizontal_total(m)) % 2 == 0,
    ensures
        ({
            let bw = spec_block_width(m, cw);
            bw.margin_left + bw.border_left + bw.padding_left + bw.width + bw.padding_right
                + bw.border_right + bw.margin_right == cw
        }),
{
    lemma_lookup_bounded(m, "margin-left"@, "margin"@);
    lemma_lookup_bounded(m, "margin-right"@, "margin"@);
    lemma_lookup_bounded(m, "border-left-width"@, "border-width"@);
    lemma_lookup_bounded(m, "border-right-width"@, "border-width"@);
    lemma_lookup_bounded(m, "padding-left"@, "padding"@);
    lemma_lookup_bounded(m, "padding-right"@, "padding"@);
    lemma_props_get_bounded(m, "width"@);
    let ml0 = spec_lookup(m, "margin-left"@, "margin"@, zero_len());
    let mr0 = spec_lookup(m, "margin-right"@, "margin"@, zero_len());
    let width0 = used_width(m);
    let mlv = spec_to_px(ml0);
    let mrv = spec_to_px(mr0);
    let wv = spec_to_px(width0);
    assert(0 <= wv <= px::PX_LIMIT);
    let total = horizontal_total(m);
    assert(spec_block_width(m, cw).margin_left + spec_block_width(m, cw).border_left
        + spec_block_width(m, cw).padding_left + spec_block_width(m, cw).width + spec_block_width(
        m,
        cw,
    ).padding_right + spec_block_width(m, cw).border_right + spec_block_width(m, cw).margin_right
        == cw) by {
        let u = cw - total;
        assert(0 <= total <= 7 * px::PX_LIMIT);
        let squeeze = total > cw;
        let ml_auto = spec_is_auto(ml0) && !squeeze;
        let mr_auto = spec_is_auto(mr0) && !squeeze;
        if spec_is_auto(ml0) {
            assert(mlv == 0);
        }
        if spec_is_auto(mr0) {
            assert(mrv == 0);
        }
        if ml_auto && mr_auto {
            assert(u >= 0);
            assert(u % 2 == 0);
            assert(spec_phalf(u) == u / 2);
            assert(u / 2 + u / 2 == u);
        }
    }
}


// --- the anonymous-box invariant ---

/// No two boxes side by side are both anonymous.
pub open spec fn no_adjacent_anon(cs: Seq<LayoutBoxV>) -> bool {
    forall|i: int|
        0 <= i < cs.len() - 1 ==> !((#[trigger] cs[i].box_type) is AnonymousBlock && cs[i
            + 1].box_type is AnonymousBlock)
}

/// The anonymous-box invariant of one box: no two adjacent anonymous
/// children, anonymous children only under a block box, and the same all
/// the way down.
pub open spec fn anon_wf(b: LayoutBoxV) -> bool
    decreases b, 1int,
{
    &&& no_adjacent_anon(b.children)
    &&& (forall|i: int|
        0 <= i < b.children.len() ==> ((#[trigger] b.children[i].box_type) is AnonymousBlock
            ==> b.box_type is BlockNode))
    &&& anon_wf_seq(b.children)
}

/// The anonymous-box invariant of every box in a forest.
pub open spec fn anon_wf_seq(cs: Seq<LayoutBoxV>) -> bool
    decreases cs, 2int,
{
    if cs.len() == 0 {
        true
    } else {
        anon_wf(cs[0]) && anon_wf_seq(cs.drop_first())
    }
}

/// `anon_wf_seq` holds exactly when every element satisfies `anon_wf`.
proof fn lemma_anon_wf_seq_index(cs: Seq<LayoutBoxV>)
    ensures
        anon_wf_seq(cs) <==> (forall|i: int| 0 <= i < cs.len() ==> anon_wf(#[trigger] cs[i])),
    decreases cs.len(),
{
    if cs.len() > 0 {
        lemma_anon_wf_seq_index(cs.drop_first());
        assert(forall|i: int| 0 < i < cs.len() ==> cs.drop_first()[i - 1] == cs[i]);
        if anon_wf_seq(cs) {
            assert forall|i: int| 0 <= i < cs.len() implies anon_wf(#[trigger] cs[i]) by {
                if i > 0 {
                    assert(anon_wf(cs.drop_first()[i - 1]));
                }
            }
        }
        if forall|i: int| 0 <= i < cs.len() ==> anon_wf(#[trigger] cs[i]) {
            assert forall|i: int|
                0 <= i < cs.drop_first().len() implies anon_wf(
                #[trigger] cs.drop_first()[i],
            ) by {
                assert(cs.drop_first()[i] == cs[i + 1]);
            }
        }
    }
}

/// A built box is never anonymous.
proof fn lemma_build_box_kind(sn: StyledNodeV)
    ensures
        !(sp_build_box(sn).box_type is AnonymousBlock),
{
}

/// Folding styled children keeps the anonymous-box invariant of the
/// accumulated children of a box of kind `bt`.
proof fn lemma_build_acc_anon(acc: Seq<LayoutBoxV>, cs: Seq<StyledNodeV>, bt: BoxTypeV)
    requires
        no_adjacent_anon(acc),
        anon_wf_seq(acc),
        forall|i: int|
            0 <= i < acc.len() ==> ((#[trigger] acc[i].box_type) is AnonymousBlock ==> bt
                is BlockNode),
    ensures
        ({
            let out = sp_build_acc(acc, cs, bt);
            &&& no_adjacent_anon(out)
            &&& anon_wf_seq(out)
            &&& (forall|i: int|
                0 <= i < out.len() ==> ((#[trigger] out[i].box_type) is AnonymousBlock ==> bt
                    is BlockNode))
        }),
    decreases cs, 2int,
{
    if cs.len() > 0 {
        let c = cs[0];
        let acc2 = sp_add_child(acc, bt, c);
        lemma_anon_wf_seq_index(acc);
        assert(no_adjacent_anon(acc2) && anon_wf_seq(acc2) && (forall|i: int|
            0 <= i < acc2.len() ==> ((#[trigger] acc2[i].box_type) is AnonymousBlock ==> bt
                is BlockNode))) by {
            lemma_build_anon_wf(c);
            lemma_build_box_kind(c);
            lemma_anon_wf_seq_index(acc2);
            match spec_display(c.specified_values) {
                Display::Nothing => {},
                Display::Block => {
                    assert(forall|i: int| 0 <= i < acc.len() ==> acc2[i] == acc[i]);
                },
                Display::Inline => {
                    match bt {
                        BoxTypeV::BlockNode(_) => {
                            if acc.len() > 0 && acc.last().box_type is AnonymousBlock {
                                let wrapper = acc.last();
                                let wrapper2 = acc2.last();
                                assert(acc2 == acc.update(
                                    acc.len() - 1,
                                    LayoutBoxV {
                                        dimensions: wrapper.dimensions,
                                        box_type: wrapper.box_type,
                                        children: wrapper.children.push(sp_build_box(c)),
                                    },
                                ));
                                assert(anon_wf(wrapper));
                                assert(anon_wf(wrapper2)) by {
                                    let ws = wrapper.children;
                                    let ws2 = wrapper2.children;
                                    assert(ws2 == ws.push(sp_build_box(c)));
                                    lemma_anon_wf_seq_index(ws);
                                    lemma_anon_wf_seq_index(ws2);
                                    assert(forall|i: int| 0 <= i < ws.len() ==> ws2[i] == ws[i]);
                                    assert(ws2[ws2.len() - 1] == sp_build_box(c));
                                }
                                assert(forall|i: int| 0 <= i < acc.len() - 1 ==> acc2[i] == acc[i]);
                            } else {
                                assert(forall|i: int| 0 <= i < acc.len() ==> acc2[i] == acc[i]);
                                let wrapper = acc2.last();
                                assert(anon_wf(wrapper)) by {
                                    lemma_anon_wf_seq_index(wrapper.children);
                                    assert(wrapper.children[0] == sp_build_box(c));
                                    assert(wrapper.children.len() == 1);
                                }
                            }
                        },
                        _ => {
                            assert(forall|i: int| 0 <= i < acc.len() ==> acc2[i] == acc[i]);
                        },
                    }
                },
            }
        }
        lemma_build_acc_anon(acc2, cs.drop_first(), bt);
    }
}

/// A built box satisfies the anonymous-box invariant.
#[verifier::rlimit(60)]
proof fn lemma_build_anon_wf(sn: StyledNodeV)
    ensures
        anon_wf(sp_build_box(sn)),
    decreases sn, 0int,
{
    let b = sp_build_box(sn);
    let bt = b.box_type;
    assert(no_adjacent_anon(Seq::<LayoutBoxV>::empty()));
    assert(anon_wf_seq(Seq::<LayoutBoxV>::empty()));
    lemma_build_acc_anon_entry(Seq::empty(), sn.children, bt);
    assert(b.children == sp_build_acc(Seq::empty(), sn.children, bt));
    assert(no_adjacent_anon(b.children));
    assert(anon_wf_seq(b.children));
    assert(forall|i: int|
        0 <= i < b.children.len() ==> ((#[trigger] b.children[i].box_type) is AnonymousBlock
            ==> bt is BlockNode));
}

/// The same fold lemma, staged so the mutual recursion's measure is the
/// styled children being folded.
proof fn lemma_build_acc_anon_entry(acc: Seq<LayoutBoxV>, cs: Seq<StyledNodeV>, bt: BoxTypeV)
    requires
        no_adjacent_anon(acc),
        anon_wf_seq(acc),
        forall|i: int|
            0 <= i < acc.len() ==> ((#[trigger] acc[i].box_type) is AnonymousBlock ==> bt
                is BlockNode),
    ensures
        ({
            let out = sp_build_acc(acc, cs, bt);
            &&& no_adjacent_anon(out)
            &&& anon_wf_seq(out)
            &&& (forall|i: int|
                0 <= i < out.len() ==> ((#[trigger] out[i].box_type) is AnonymousBlock ==> bt
                    is BlockNode))
        }),
    decreases cs, 3int,
{
    lemma_build_acc_anon(acc, cs, bt);
}


/// Geometry does not change what a box is: layout keeps every box's kind,
/// and the anonymous-box invariant survives it.
proof fn lemma_layout_anon_wf(b: LayoutBoxV, cb: DimsV)
    requires
        anon_wf(b),
    ensures
        anon_wf(spec_layout(b, cb)),
        spec_layout(b, cb).box_type == b.box_type,
    decreases box_height(b), 1int,
{
    match b.box_type {
        BoxTypeV::BlockNode(_) => {
            let m = box_style(b.box_type);
            let d1 = with_widths(b.dimensions, spec_block_width(m, cb.content.width));
            let d2 = with_vertical_edges(d1, spec_vertical_edges(m));
            let d3 = spec_block_position(d2, cb);
            lemma_block_children_anon(b.children, d3);
            let r = spec_layout(b, cb);
            let (rs, h) = spec_block_children(b.children, d3);
            assert(r.children == rs);
            assert(no_adjacent_anon(rs)) by {
                assert(forall|i: int|
                    0 <= i < rs.len() ==> (#[trigger] rs[i]).box_type == b.children[i].box_type);
            }
        },
        BoxTypeV::InlineNode(_) => {
            let m = box_style(b.box_type);
            let d1 = with_vertical_edges(b.dimensions, spec_vertical_edges(m));
            let d2 = spec_inline_position(d1, cb);
            let d3 = with_widths(d2, spec_inline_width(m));
            let d4 = spec_height_override(m, d3);
            lemma_inline_children_anon(b.children, d4, cb);
            let r = spec_layout(b, cb);
            let (rs, d5) = spec_inline_children(b.children, d4, cb);
            assert(r.children == rs);
            assert(no_adjacent_anon(rs)) by {
                assert(forall|i: int|
                    0 <= i < rs.len() ==> (#[trigger] rs[i]).box_type == b.children[i].box_type);
            }
        },
        BoxTypeV::AnonymousBlock => {
            let d1 = spec_anonymous_position(b.dimensions, cb);
            lemma_inline_children_anon(b.children, d1, cb);
            let r = spec_layout(b, cb);
            let (rs, d2) = spec_inline_children(b.children, d1, cb);
            assert(r.children == rs);
            assert(no_adjacent_anon(rs)) by {
                assert(forall|i: int|
                    0 <= i < rs.len() ==> (#[trigger] rs[i]).box_type == b.children[i].box_type);
            }
        },
    }
}

/// Layout of stacked block children keeps each child's kind and
/// invariant.
proof fn lemma_block_children_anon(cs: Seq<LayoutBoxV>, d: DimsV)
    requires
        anon_wf_seq(cs),
    ensures
        ({
            let (rs, h) = spec_block_children(cs, d);
            &&& rs.len() == cs.len()
            &&& (forall|i: int|
                0 <= i < rs.len() ==> (#[trigger] rs[i]).box_type == cs[i].box_type)
            &&& anon_wf_seq(rs)
        }),
    decreases boxes_height(cs), 2int,
{
    if cs.len() > 0 {
        lemma_boxes_height_element(cs, 0);
        lemma_boxes_height_drop(cs);
        lemma_layout_anon_wf(cs[0], d);
        let c1 = spec_layout(cs[0], d);
        let h1 = spec_padd(d.content.height, spec_margin_box(c1.dimensions).height);
        lemma_block_children_anon(cs.drop_first(), with_height(d, h1));
        let (rest, h) = spec_block_children(cs.drop_first(), with_height(d, h1));
        let (rs, hh) = spec_block_children(cs, d);
        assert(rs == seq![c1] + rest);
        assert(forall|i: int| 0 < i < rs.len() ==> rs[i] == rest[i - 1]);
        assert(forall|i: int| 0 < i < cs.len() ==> cs.drop_first()[i - 1] == cs[i]);
        lemma_anon_wf_seq_index(rest);
        lemma_anon_wf_seq_index(rs);
    }
}

/// Layout of flowed inline children keeps each child's kind and
/// invariant.
proof fn lemma_inline_children_anon(cs: Seq<LayoutBoxV>, d: DimsV, cb: DimsV)
    requires
        anon_wf_seq(cs),
    ensures
        ({
            let (rs, d2) = spec_inline_children(cs, d, cb);
            &&& rs.len() == cs.len()
            &&& (forall|i: int|
                0 <= i < rs.len() ==> (#[trigger] rs[i]).box_type == cs[i].box_type)
            &&& anon_wf_seq(rs)
        }),
    decreases boxes_height(cs), 2int,
{
    if cs.len() > 0 {
        lemma_boxes_height_element(cs, 0);
        lemma_boxes_height_drop(cs);
        lemma_layout_anon_wf(cs[0], d);
        let c1 = spec_layout(cs[0], d);
        let nw = spec_padd(d.content.width, spec_margin_box(c1.dimensions).width);
        let d1 = if nw > cb.content.width {
            with_position(with_width(d, 0), d.content.x, spec_padd(d.content.y, cb.content.y))
        } else {
            with_width(d, nw)
        };
        lemma_inline_children_anon(cs.drop_first(), d1, cb);
        let (rest, d2) = spec_inline_children(cs.drop_first(), d1, cb);
        let (rs, dd) = spec_inline_children(cs, d, cb);
        assert(rs == seq![c1] + rest);
        assert(forall|i: int| 0 < i < rs.len() ==> rs[i] == rest[i - 1]);
        assert(forall|i: int| 0 < i < cs.len() ==> cs.drop_first()[i - 1] == cs[i]);
        lemma_anon_wf_seq_index(rest);
        lemma_anon_wf_seq_index(rs);
    }
}

/// Anonymous boxes are unique among their siblings and stand only under
/// block boxes: this holds of every built box tree, and still holds after
/// layout.
pub proof fn lemma_anonymous_uniqueness(sn: StyledNodeV, cb: DimsV)
    ensures
        (match sp_build(sn) {
            Some(b) => anon_wf(b),
            None => true,
        }),
        (match sp_layout_tree(sn, cb) {
            Some(b) => anon_wf(b),
            None => true,
        }),
{
    if spec_display(sn.specified_values) != Display::Nothing {
        lemma_build_anon_wf(sn);
        lemma_layout_anon_wf(sp_build_box(sn), with_height(cb, 0));
    }
}


// --- the vertical stacking law of block layout ---

/// A length small enough that the stacking arithmetic is exact: chains of
/// a handful of such values never reach the saturation bound.
pub open spec fn calm(v: int) -> bool {
    -(px::PX_SAT as int) / 16 <= v <= (px::PX_SAT as int) / 16
}

/// Every field of a box's geometry is calm.
pub open spec fn dims_calm(d: DimsV) -> bool {
    &&& calm(d.content.x) && calm(d.content.y) && calm(d.content.width) && calm(d.content.height)
    &&& calm(d.padding.top) && calm(d.padding.bottom) && calm(d.padding.left) && calm(
        d.padding.right,
    )
    &&& calm(d.border.top) && calm(d.border.bottom) && calm(d.border.left) && calm(d.border.right)
    &&& calm(d.margin.top) && calm(d.margin.bottom) && calm(d.margin.left) && calm(d.margin.right)
}

/// The vertical edges of a box's geometry point downward or are zero.
pub open spec fn vertical_nonneg(d: DimsV) -> bool {
    d.margin.top >= 0 && d.margin.bottom >= 0 && d.border.top >= 0 && d.border.bottom >= 0
        && d.padding.top >= 0 && d.padding.bottom >= 0
}

/// The margin-box height of a box.
pub open spec fn mb_height(b: LayoutBoxV) -> int {
    spec_margin_box(b.dimensions).height
}

/// The lower edge of a box's margin box.
pub open spec fn mb_bottom(b: LayoutBoxV) -> int {
    spec_margin_box(b.dimensions).y + spec_margin_box(b.dimensions).height
}

/// The sum of the margin-box heights of a forest.
pub open spec fn sum_margin_heights(out: Seq<LayoutBoxV>) -> int
    decreases out.len(),
{
    if out.len() == 0 {
        0
    } else {
        mb_height(out[0]) + sum_margin_heights(out.drop_first())
    }
}

/// The stacking facts, proved child by child.
proof fn lemma_block_stacking_rec(cs: Seq<LayoutBoxV>, d: DimsV)
    requires
        forall|i: int| 0 <= i < cs.len() ==> (#[trigger] cs[i].box_type) is BlockNode,
        calm(d.content.x) && calm(d.content.y),
        0 <= d.content.height,
        calm(d.content.height),
        ({
            let (out, h) = spec_block_children(cs, d);
            forall|i: int|
                0 <= i < out.len() ==> (dims_calm((#[trigger] out[i]).dimensions)
                    && vertical_nonneg(out[i].dimensions) && out[i].dimensions.content.height
                    >= 0)
        }),
        d.content.height + sum_margin_heights(spec_block_children(cs, d).0) <= (px::PX_SAT as int)
            / 16,
    ensures
        ({
            let (out, h) = spec_block_children(cs, d);
            &&& out.len() == cs.len()
            &&& h == d.content.height + sum_margin_heights(out)
            &&& (forall|i: int|
                0 <= i < out.len() ==> 0 <= mb_height(#[trigger] out[i]))
            &&& (forall|i: int|
                1 <= i < out.len() ==> (#[trigger] out[i]).dimensions.content.y >= mb_bottom(
                    out[i - 1],
                ))
            &&& (cs.len() > 0 ==> out[0].dimensions.content.y >= d.content.y + d.content.height)
            &&& (cs.len() > 0 ==> mb_bottom(out[0]) == d.content.y + d.content.height + mb_height(
                out[0],
            ))
        }),
    decreases cs.len(),
{
    if cs.len() > 0 {
        let (out, h) = spec_block_children(cs, d);
        let c1 = spec_layout(cs[0], d);
        let h1 = spec_padd(d.content.height, spec_margin_box(c1.dimensions).height);
        let d1 = with_height(d, h1);
        let (rest, hrest) = spec_block_children(cs.drop_first(), d1);
        assert(out == seq![c1] + rest);
        assert(out[0] == c1);
        assert(forall|i: int| 0 < i < out.len() ==> out[i] == rest[i - 1]);
        assert(forall|i: int| 0 < i < cs.len() ==> cs.drop_first()[i - 1] == cs[i]);
        // the head child is a block box: its position and edges are exact
        let m = box_style(cs[0].box_type);
        let dv1 = with_widths(cs[0].dimensions, spec_block_width(m, d.content.width));
        let dv2 = with_vertical_edges(dv1, spec_vertical_edges(m));
        let dv3 = spec_block_position(dv2, d);
        assert(c1 == spec_layout_block(cs[0], d));
        assert(c1.dimensions.content.y == dv3.content.y);
        assert(c1.dimensions.margin.top == dv3.margin.top);
        assert(c1.dimensions.border.top == dv3.border.top);
        assert(c1.dimensions.padding.top == dv3.padding.top);
        assert(c1.dimensions.margin.bottom == dv3.margin.bottom);
        assert(c1.dimensions.border.bottom == dv3.border.bottom);
        assert(c1.dimensions.padding.bottom == dv3.padding.bottom);
        assert(dims_calm(c1.dimensions) && vertical_nonneg(c1.dimensions)
            && c1.dimensions.content.height >= 0);
        let mt = c1.dimensions.margin.top;
        let bt = c1.dimensions.border.top;
        let pt = c1.dimensions.padding.top;
        let pb = c1.dimensions.padding.bottom;
        let bb = c1.dimensions.border.bottom;
        let mb = c1.dimensions.margin.bottom;
        let h0 = c1.dimensions.content.height;
        let y0 = c1.dimensions.content.y;
        assert(y0 == d.content.height + d.content.y + mt + bt + pt);
        let mbh0 = mb_height(c1);
        assert(mbh0 == h0 + pt + pb + bt + bb + mt + mb);
        assert(mbh0 >= 0);
        assert(mb_bottom(c1) == y0 + h0 + pb + bb + mb);
        assert(mb_bottom(c1) == d.content.y + d.content.height + mbh0);
        // the accumulated height stays calm, so the sum is exact
        assert(out.drop_first() =~= rest);
        assert(sum_margin_heights(out) == mbh0 + sum_margin_heights(rest));
        assert(sum_margin_heights_nonneg_marker(rest)) by {
            lemma_sum_margin_heights_nonneg(rest, out);
        }
        assert(h1 == d.content.height + mbh0);
        assert forall|i: int|
            0 <= i < rest.len() implies (dims_calm((#[trigger] rest[i]).dimensions)
            && vertical_nonneg(rest[i].dimensions) && rest[i].dimensions.content.height >= 0) by {
            assert(rest[i] == out[i + 1]);
        }
        lemma_block_stacking_rec(cs.drop_first(), d1);
        assert(h == hrest);
        assert(hrest == h1 + sum_margin_heights(rest));
        if rest.len() > 0 {
            assert(out[1] == rest[0]);
            assert(rest[0].dimensions.content.y >= d1.content.y + d1.content.height);
            assert(out[1].dimensions.content.y >= mb_bottom(out[0]));
        }
        assert forall|i: int|
            1 <= i < out.len() implies (#[trigger] out[i]).dimensions.content.y >= mb_bottom(
            out[i - 1],
        ) by {
            if i >= 2 {
                assert(out[i] == rest[i - 1]);
                assert(out[i - 1] == rest[i - 2]);
                assert(rest[i - 1].dimensions.content.y >= mb_bottom(rest[i - 2]));
            }
        }
    }
}

/// A marker: the tail's margin-box heights are non-negative.
pub open spec fn sum_margin_heights_nonneg_marker(rest: Seq<LayoutBoxV>) -> bool {
    sum_margin_heights(rest) >= 0
}

/// Calm, downward-edged boxes have non-negative margin-box heights.
proof fn lemma_sum_margin_heights_nonneg(rest: Seq<LayoutBoxV>, out: Seq<LayoutBoxV>)
    requires
        forall|i: int|
            0 <= i < out.len() ==> (dims_calm((#[trigger] out[i]).dimensions) && vertical_nonneg(
                out[i].dimensions,
            ) && out[i].dimensions.content.height >= 0),
        out.len() == rest.len() + 1,
        forall|i: int| 0 <= i < rest.len() ==> #[trigger] rest[i] == out[i + 1],
    ensures
        sum_margin_heights(rest) >= 0,
    decreases rest.len(),
{
    if rest.len() > 0 {
        assert(rest[0] == out[1]);
        assert(mb_height(rest[0]) >= 0);
        lemma_sum_margin_heights_nonneg(rest.drop_first(), out.drop_first());
    }
}

/// Vertical stacking: laying out the block children of a block box puts
/// each child's content at or below the previous child's margin-box
/// bottom, and the accumulated content height is exactly the sum of the
/// children's margin-box heights over the starting height. The geometry
/// must stay in the exact range of the arithmetic.
pub proof fn lemma_block_stacking(cs: Seq<LayoutBoxV>, d: DimsV)
    requires
        forall|i: int| 0 <= i < cs.len() ==> (#[trigger] cs[i].box_type) is BlockNode,
        calm(d.content.x) && calm(d.content.y),
        0 <= d.content.height,
        calm(d.content.height),
        ({
            let (out, h) = spec_block_children(cs, d);
            forall|i: int|
                0 <= i < out.len() ==> (dims_calm((#[trigger] out[i]).dimensions)
                    && vertical_nonneg(out[i].dimensions) && out[i].dimensions.content.height
                    >= 0)
        }),
        d.content.height + sum_margin_heights(spec_block_children(cs, d).0) <= (px::PX_SAT as int)
            / 16,
    ensures
        ({
            let (out, h) = spec_block_children(cs, d);
            &&& h == d.content.height + sum_margin_heights(out)
            &&& (forall|i: int|
                1 <= i < out.len() ==> (#[trigger] out[i]).dimensions.content.y >= mb_bottom(
                    out[i - 1],
                ))
        }),
{
    lemma_block_stacking_rec(cs, d);
}

#[via_fn]
proof fn spec_block_children_decreases(cs: Seq<LayoutBoxV>, d: DimsV) {
    if cs.len() > 0 {
        lemma_boxes_height_element(cs, 0);
        lemma_boxes_height_drop(cs);
    }
}

#[via_fn]
proof fn spec_inline_children_decreases(cs: Seq<LayoutBoxV>, d: DimsV, cb: DimsV) {
    if cs.len() > 0 {
        lemma_boxes_height_element(cs, 0);
        lemma_boxes_height_drop(cs);
    }
}

} // verus!
