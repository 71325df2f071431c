//! The painter: flattening a laid-out box tree into a display list, and a
//! rasterizer that draws the list onto a pixel canvas.

use crate::css::{Color, Value, ValueV};
use crate::dom::NodeTypeV;
use crate::dom::NodeType;
use crate::layout::{
    box_view, lemma_boxes_view_index, spec_border_box, BoxType, BoxTypeV, LayoutBox, LayoutBoxV,
    Rect, RectV,
};
use crate::px::{self, spec_padd, spec_psub, PX_SCALE};
use crate::style::props_get;
use vstd::prelude::*;

verus! {

/// One paint command: a solid rectangle, or a run of text inside one.
#[derive(Debug, PartialEq)]
pub enum DisplayCommand {
    SolidColor(Color, Rect),
    Text(String, Color, Rect),
}

/// Specification view of a paint command.
pub enum DisplayCommandV {
    SolidColor(Color, RectV),
    Text(Seq<char>, Color, RectV),
}

impl View for DisplayCommand {
    type V = DisplayCommandV;

    open spec fn view(&self) -> DisplayCommandV {
        match self {
            DisplayCommand::SolidColor(c, r) => DisplayCommandV::SolidColor(*c, r@),
            DisplayCommand::Text(t, c, r) => DisplayCommandV::Text(t@, *c, r@),
        }
    }
}

/// The views of a command list.
pub open spec fn cmds_view(v: Seq<DisplayCommand>) -> Seq<DisplayCommandV> {
    Seq::new(v.len(), |i: int| v[i]@)
}

/// The style map of a box: the anonymous box has none.
pub open spec fn paint_style(bt: BoxTypeV) -> Seq<crate::style::PropV> {
    crate::layout::box_style(bt)
}

/// The color value a box carries under a property name, if any.
pub open spec fn box_color(bt: BoxTypeV, name: Seq<char>) -> Option<Color> {
    match props_get(paint_style(bt), name) {
        Some(ValueV::Color(c)) => Some(c),
        _ => None,
    }
}

/// The text payload of an inline text box, if any.
pub open spec fn box_text(bt: BoxTypeV) -> Option<Seq<char>> {
    match bt {
        BoxTypeV::InlineNode(s) => match s.node {
            NodeTypeV::Text(t) => Some(t),
            _ => None,
        },
        _ => None,
    }
}

/// The text color used when the `color` property is absent.
pub open spec fn default_text_color() -> Color {
    Color { r: 129, g: 45, b: 211, a: 255 }
}

/// The background command of a box: its border box, filled.
pub open spec fn sp_background(b: LayoutBoxV) -> Seq<DisplayCommandV> {
    match box_color(b.box_type, "background"@) {
        Some(c) => seq![DisplayCommandV::SolidColor(c, spec_border_box(b.dimensions))],
        None => Seq::empty(),
    }
}

/// The border commands of a box: left, right, top and bottom strips of
/// the border box, as wide as the corresponding border.
pub open spec fn sp_borders(b: LayoutBoxV) -> Seq<DisplayCommandV> {
    match box_color(b.box_type, "border-color"@) {
        None => Seq::empty(),
        Some(c) => {
            let d = b.dimensions;
            let bb = spec_border_box(d);
            seq![
                DisplayCommandV::SolidColor(
                    c,
                    RectV { x: bb.x, y: bb.y, width: d.border.left, height: bb.height },
                ),
                DisplayCommandV::SolidColor(
                    c,
                    RectV {
                        x: spec_psub(spec_padd(bb.x, bb.width), d.border.right),
                        y: bb.y,
                        width: d.border.right,
                        height: bb.height,
                    },
                ),
                DisplayCommandV::SolidColor(
                    c,
                    RectV { x: bb.x, y: bb.y, width: bb.width, height: d.border.top },
                ),
                DisplayCommandV::SolidColor(
                    c,
                    RectV {
                        x: bb.x,
                        y: spec_psub(spec_padd(bb.y, bb.height), d.border.bottom),
                        width: bb.width,
                        height: d.border.bottom,
                    },
                ),
            ]
        },
    }
}

/// The text command of a box: an inline text node's payload over its
/// border box, in the `color` property's color or the default.
pub open spec fn sp_text(b: LayoutBoxV) -> Seq<DisplayCommandV> {
    match box_text(b.box_type) {
        Some(t) => {
            let c = match box_color(b.box_type, "color"@) {
                Some(c) => c,
                None => default_text_color(),
            };
            seq![DisplayCommandV::Text(t, c, spec_border_box(b.dimensions))]
        },
        None => Seq::empty(),
    }
}

/// The commands of one box and its subtree, in paint order: background,
/// borders, text, then the children in order.
pub open spec fn sp_render_box(b: LayoutBoxV) -> Seq<DisplayCommandV>
    decreases b, 0int,
{
    sp_background(b) + sp_borders(b) + sp_text(b) + sp_render_children(b.children)
}

/// The commands of a forest of boxes, in order.
pub open spec fn sp_render_children(cs: Seq<LayoutBoxV>) -> Seq<DisplayCommandV>
    decreases cs, 1int,
{
    if cs.len() == 0 {
        Seq::empty()
    } else {
        sp_render_box(cs[0]) + sp_render_children(cs.drop_first())
    }
}

/// Rendering one more box appends its commands.
proof fn lemma_render_children_snoc(cs: Seq<LayoutBoxV>, c: LayoutBoxV)
    ensures
        sp_render_children(cs.push(c)) == sp_render_children(cs) + sp_render_box(c),
    decreases cs.len(),
{
    reveal_with_fuel(sp_render_children, 3);
    if cs.len() == 0 {
        assert(cs.push(c)[0] == c);
        assert(cs.push(c).drop_first() =~= Seq::<LayoutBoxV>::empty());
        assert(sp_render_children(cs.push(c)) =~= sp_render_box(c));
        assert(sp_render_children(cs) + sp_render_box(c) =~= sp_render_box(c));
    } else {
        assert(cs.push(c)[0] == cs[0]);
        assert(cs.push(c).drop_first() =~= cs.drop_first().push(c));
        lemma_render_children_snoc(cs.drop_first(), c);
        assert(sp_render_box(cs[0]) + (sp_render_children(cs.drop_first()) + sp_render_box(c))
            =~= (sp_render_box(cs[0]) + sp_render_children(cs.drop_first())) + sp_render_box(c));
    }
}

/// The color a box carries under a property name, if any.
fn get_color(layout_box: &LayoutBox, name: &str) -> (r: Option<Color>)
    ensures
        r == box_color(layout_box@.box_type, name@),
{
    match &layout_box.box_type {
        BoxType::BlockNode(style) => match style.value(name) {
            Some(Value::Color(c)) => Some(c),
            _ => None,
        },
        BoxType::InlineNode(style) => match style.value(name) {
            Some(Value::Color(c)) => Some(c),
            _ => None,
        },
        BoxType::AnonymousBlock => None,
    }
}

/// The text payload of an inline text box, if any.
fn get_text(layout_box: &LayoutBox) -> (r: Option<&String>)
    ensures
        match r {
            Some(t) => box_text(layout_box@.box_type) == Some(t@),
            None => box_text(layout_box@.box_type) is None,
        },
{
    match &layout_box.box_type {
        BoxType::InlineNode(style) => match &style.node {
            NodeType::Text(t) => Some(t),
            _ => None,
        },
        _ => None,
    }
}

/// Append a box's background command, if it has a background color.
fn render_background(list: &mut Vec<DisplayCommand>, layout_box: &LayoutBox)
    ensures
        cmds_view(final(list)@) == cmds_view(old(list)@) + sp_background(layout_box@),
{
    let ghost l0 = cmds_view(list@);
    match get_color(layout_box, "background") {
        Some(color) => {
            list.push(DisplayCommand::SolidColor(color, layout_box.dimensions.border_box()));
            proof {
                assert(cmds_view(list@) =~= l0 + sp_background(layout_box@));
            }
        },
        None => {
            proof {
                assert(cmds_view(list@) =~= l0 + sp_background(layout_box@));
            }
        },
    }
}

/// Append a box's four border strips, if it has a border color.
fn render_borders(list: &mut Vec<DisplayCommand>, layout_box: &LayoutBox)
    ensures
        cmds_view(final(list)@) == cmds_view(old(list)@) + sp_borders(layout_box@),
{
    let ghost l0 = cmds_view(list@);
    let color = match get_color(layout_box, "border-color") {
        Some(color) => color,
        None => {
            proof {
                assert(cmds_view(list@) =~= l0 + sp_borders(layout_box@));
            }
            return ;
        },
    };
    let d = layout_box.dimensions;
    let border_box = d.border_box();
    list.push(
        DisplayCommand::SolidColor(
            color,
            Rect {
                x: border_box.x,
                y: border_box.y,
                width: d.border.left,
                height: border_box.height,
            },
        ),
    );
    list.push(
        DisplayCommand::SolidColor(
            color,
            Rect {
                x: px::psub(px::padd(border_box.x, border_box.width), d.border.right),
                y: border_box.y,
                width: d.border.right,
                height: border_box.height,
            },
        ),
    );
    list.push(
        DisplayCommand::SolidColor(
            color,
            Rect {
                x: border_box.x,
                y: border_box.y,
                width: border_box.width,
                height: d.border.top,
            },
        ),
    );
    list.push(
        DisplayCommand::SolidColor(
            color,
            Rect {
                x: border_box.x,
                y: px::psub(px::padd(border_box.y, border_box.height), d.border.bottom),
                width: border_box.width,
                height: d.border.bottom,
            },
        ),
    );
    proof {
        assert(cmds_view(list@) =~= l0 + sp_borders(layout_box@));
    }
}

/// Append a box's text command, if it is an inline text node.
fn render_text(list: &mut Vec<DisplayCommand>, layout_box: &LayoutBox)
    ensures
        cmds_view(final(list)@) == cmds_view(old(list)@) + sp_text(layout_box@),
{
    let ghost l0 = cmds_view(list@);
    let text = match get_text(layout_box) {
        Some(t) => t.clone(),
        None => {
            proof {
                assert(cmds_view(list@) =~= l0 + sp_text(layout_box@));
            }
            return ;
        },
    };
    let color = match get_color(layout_box, "color") {
        Some(c) => c,
        None => Color { r: 129, g: 45, b: 211, a: 255 },
    };
    list.push(DisplayCommand::Text(text, color, layout_box.dimensions.border_box()));
    proof {
        assert(cmds_view(list@) =~= l0 + sp_text(layout_box@));
    }
}

/// Append one box's commands and those of its subtree, in paint order.
fn render_layout_box(list: &mut Vec<DisplayCommand>, layout_box: &LayoutBox)
    ensures
        cmds_view(final(list)@) == cmds_view(old(list)@) + sp_render_box(layout_box@),
    decreases *layout_box,
{
    let ghost l0 = cmds_view(list@);
    render_background(list, layout_box);
    render_borders(list, layout_box);
    render_text(list, layout_box);
    let ghost head = sp_background(layout_box@) + sp_borders(layout_box@) + sp_text(layout_box@);
    proof {
        assert(cmds_view(list@) =~= l0 + head);
        lemma_boxes_view_index(layout_box.children@);
        assert(layout_box@.children.subrange(0, 0) =~= Seq::<LayoutBoxV>::empty());
        assert(sp_render_children(layout_box@.children.subrange(0, 0)) =~= Seq::<
            DisplayCommandV,
        >::empty());
        assert(cmds_view(list@) =~= l0 + head + sp_render_children(
            layout_box@.children.subrange(0, 0),
        ));
    }
    let n = layout_box.children.len();
    for i in 0..n
        invariant
            n == layout_box.children.len(),
            layout_box@.children.len() == n,
            forall|k: int|
                0 <= k < n ==> layout_box@.children[k] == box_view(
                    #[trigger] layout_box.children@[k],
                ),
            cmds_view(list@) == l0 + head + sp_render_children(
                layout_box@.children.subrange(0, i as int),
            ),
        decreases n - i,
    {
        let ghost pre = layout_box@.children.subrange(0, i as int);
        let ghost post = layout_box@.children.subrange(0, i as int + 1);
        render_layout_box(list, &layout_box.children[i]);
        proof {
            assert(post.drop_last() =~= pre);
            assert(post =~= pre.push(layout_box@.children[i as int]));
            lemma_render_children_snoc(pre, layout_box@.children[i as int]);
            assert(cmds_view(list@) =~= l0 + head + sp_render_children(post));
        }
    }
    proof {
        assert(layout_box@.children.subrange(0, n as int) =~= layout_box@.children);
        assert(l0 + head + sp_render_children(layout_box@.children) =~= l0 + sp_render_box(
            layout_box@,
        ));
    }
}

/// Flatten a laid-out box tree into its display list.
pub fn build_display_list(layout_root: &LayoutBox) -> (r: Vec<DisplayCommand>)
    ensures
        cmds_view(r@) == sp_render_box(layout_root@),
{
    let mut list: Vec<DisplayCommand> = Vec::new();
    proof {
        assert(cmds_view(list@) =~= Seq::<DisplayCommandV>::empty());
    }
    render_layout_box(&mut list, layout_root);
    proof {
        assert(Seq::<DisplayCommandV>::empty() + sp_render_box(layout_root@) =~= sp_render_box(
            layout_root@,
        ));
    }
    list
}


/// A pixel canvas: row-major pixels, one `Color` each.
#[derive(Debug, PartialEq)]
pub struct Canvas {
    pub pixels: Vec<Color>,
    pub width: usize,
    pub height: usize,
}

/// Specification view of a canvas.
pub struct CanvasV {
    pub pixels: Seq<Color>,
    pub width: int,
    pub height: int,
}

impl View for Canvas {
    type V = CanvasV;

    open spec fn view(&self) -> CanvasV {
        CanvasV { pixels: self.pixels@, width: self.width as int, height: self.height as int }
    }
}

/// Opaque white: the canvas background.
pub open spec fn white() -> Color {
    Color { r: 255, g: 255, b: 255, a: 255 }
}

/// A blank canvas of the given size.
pub open spec fn sp_canvas_init(w: int, h: int) -> CanvasV {
    CanvasV { pixels: Seq::new((w * h) as nat, |i: int| white()), width: w, height: h }
}

/// A coordinate clamped into `[0, hi]`.
pub open spec fn clamp_at(v: int, hi: int) -> int {
    if v < 0 {
        0
    } else if v > hi {
        hi
    } else {
        v
    }
}

/// How many whole pixels a non-negative length covers.
pub open spec fn spec_cells(v: int) -> int {
    if v <= 0 {
        0
    } else {
        v / (PX_SCALE as int)
    }
}

/// The pixel span a rectangle covers on a canvas `w` pixels wide and `h`
/// pixels high: each edge is clamped to the canvas and truncated to whole
/// pixels.
pub open spec fn spec_clip(r: RectV, w: int, h: int) -> (int, int, int, int) {
    let x0 = clamp_at(r.x, w * PX_SCALE) / (PX_SCALE as int);
    let y0 = clamp_at(r.y, h * PX_SCALE) / (PX_SCALE as int);
    let x1 = clamp_at(spec_padd(r.x, r.width), w * PX_SCALE) / (PX_SCALE as int);
    let y1 = clamp_at(spec_padd(r.y, r.height), h * PX_SCALE) / (PX_SCALE as int);
    (x0, y0, x1, y1)
}

/// Whether the pixel at index `i` lies inside the clipped span.
pub open spec fn in_span(i: int, w: int, x0: int, y0: int, x1: int, y1: int) -> bool {
    w > 0 && x0 <= i % w < x1 && y0 <= i / w < y1
}

/// One command painted onto a canvas: every pixel of the clipped
/// rectangle takes the command's color.
pub open spec fn sp_paint_item(c: CanvasV, cmd: DisplayCommandV) -> CanvasV {
    let (color, rect) = match cmd {
        DisplayCommandV::SolidColor(color, rect) => (color, rect),
        DisplayCommandV::Text(_, color, rect) => (color, rect),
    };
    let (x0, y0, x1, y1) = spec_clip(rect, c.width, c.height);
    CanvasV {
        pixels: Seq::new(
            c.pixels.len(),
            |i: int|
                if in_span(i, c.width, x0, y0, x1, y1) {
                    color
                } else {
                    c.pixels[i]
                },
        ),
        width: c.width,
        height: c.height,
    }
}

/// A command list painted in order.
pub open spec fn sp_paint_all(c: CanvasV, cmds: Seq<DisplayCommandV>) -> CanvasV
    decreases cmds.len(),
{
    if cmds.len() == 0 {
        c
    } else {
        sp_paint_all(sp_paint_item(c, cmds[0]), cmds.drop_first())
    }
}

/// What `paint` yields: the box tree's display list painted onto a blank
/// canvas of the bounds' whole-pixel size.
pub open spec fn sp_paint(b: LayoutBoxV, bounds: RectV) -> CanvasV {
    sp_paint_all(
        sp_canvas_init(spec_cells(bounds.width), spec_cells(bounds.height)),
        sp_render_box(b),
    )
}

/// Painting is a pure function of the box tree and the bounds: two
/// canvases painted from the same inputs are identical.
pub proof fn lemma_paint_deterministic(c1: CanvasV, c2: CanvasV, b: LayoutBoxV, bounds: RectV)
    requires
        c1 == sp_paint(b, bounds),
        c2 == sp_paint(b, bounds),
    ensures
        c1 == c2,
{
}

impl Canvas {
    /// A canvas is as large as its size says.
    pub open spec fn wf(&self) -> bool {
        self.pixels@.len() == self.width * self.height
    }

    /// A blank canvas, every pixel opaque white.
    fn new(width: usize, height: usize) -> (r: Canvas)
        requires
            width * height <= usize::MAX,
        ensures
            r@ == sp_canvas_init(width as int, height as int),
            r.wf(),
            r.width == width,
            r.height == height,
    {
        let total = width * height;
        let mut pixels: Vec<Color> = Vec::new();
        for i in 0..total
            invariant
                pixels@.len() == i,
                forall|j: int| 0 <= j < i ==> pixels@[j] == white(),
        {
            pixels.push(Color { r: 255, g: 255, b: 255, a: 255 });
        }
        let r = Canvas { pixels, width, height };
        proof {
            assert(r@.pixels =~= sp_canvas_init(width as int, height as int).pixels);
        }
        r
    }

    /// Paint one command: overwrite every pixel of its clipped rectangle.
    fn paint_item(&mut self, item: &DisplayCommand)
        requires
            old(self).wf(),
            old(self).width * (PX_SCALE as int) <= i64::MAX,
            old(self).height * (PX_SCALE as int) <= i64::MAX,
        ensures
            final(self).wf(),
            final(self).width == old(self).width,
            final(self).height == old(self).height,
            final(self)@ == sp_paint_item(old(self)@, item@),
    {
        let (color, rect) = match item {
            DisplayCommand::SolidColor(color, rect) => (*color, *rect),
            DisplayCommand::Text(_, color, rect) => (*color, *rect),
        };
        let ghost c0 = self@;
        let ghost clip = spec_clip(rect@, c0.width, c0.height);
        let x0 = clamp_cells(rect.x, self.width);
        let y0 = clamp_cells(rect.y, self.height);
        let x1 = clamp_cells(px::padd(rect.x, rect.width), self.width);
        let y1 = clamp_cells(px::padd(rect.y, rect.height), self.height);
        proof {
            assert(x0 as int == clip.0);
            assert(y0 as int == clip.1);
            assert(x1 as int == clip.2);
            assert(y1 as int == clip.3);
        }
        let w = self.width;
        let mut y = y0;
        while y < y1
            invariant
                self.wf(),
                self.width == c0.width,
                self.height == c0.height,
                w == self.width,
                y0 <= y,
                y <= y1 || y == y0,
                x0 as int == clip.0,
                y0 as int == clip.1,
                x1 as int == clip.2,
                y1 as int == clip.3,
                x1 <= self.width,
                y1 <= self.height,
                self@.pixels.len() == c0.pixels.len(),
                forall|i: int|
                    0 <= i < c0.pixels.len() ==> self@.pixels[i] == (if in_span(
                        i,
                        c0.width,
                        x0 as int,
                        y0 as int,
                        x1 as int,
                        y as int,
                    ) {
                        color
                    } else {
                        c0.pixels[i]
                    }),
            decreases y1 - y,
        {
            let mut x = x0;
            while x < x1
                invariant
                    self.wf(),
                    self.width == c0.width,
                    self.height == c0.height,
                    w == self.width,
                    y0 <= y < y1 <= self.height,
                    x0 <= x,
                    x <= x1 || x == x0,
                    x1 <= self.width,
                    self@.pixels.len() == c0.pixels.len(),
                    forall|i: int|
                        0 <= i < c0.pixels.len() ==> self@.pixels[i] == (if in_span(
                            i,
                            c0.width,
                            x0 as int,
                            y0 as int,
                            x1 as int,
                            y as int,
                        ) || (i / (c0.width) == y as int && x0 as int <= i % (c0.width)
                            < x as int) {
                            color
                        } else {
                            c0.pixels[i]
                        }),
                decreases x1 - x,
            {
                proof {
                    let ww = w as int;
                    let hh = self.height as int;
                    let xx = x as int;
                    let yy = y as int;
                    assert(yy * ww + xx < ww * hh) by (nonlinear_arith)
                        requires
                            0 <= xx < ww,
                            0 <= yy < hh,
                    ;
                    assert(self.pixels@.len() == (self.width as int) * hh);
                    assert((self.width as int) * hh == ww * hh);
                    assert(0 <= yy * ww) by (nonlinear_arith)
                        requires
                            0 <= yy,
                            0 <= ww,
                    ;
                }
                let plen = self.pixels.len();
                proof {
                    assert(plen as int == (w as int) * (self.height as int));
                }
                let idx = x + y * w;
                let ghost oldpix = self@.pixels;
                self.pixels.set(idx, color);
                proof {
                    let ww = w as int;
                    let xx = x as int;
                    let yy = y as int;
                    let ii = idx as int;
                    assert(ii % ww == xx && ii / ww == yy) by (nonlinear_arith)
                        requires
                            0 <= xx < ww,
                            0 <= yy,
                            ii == xx + yy * ww,
                    ;
                    assert forall|i: int| 0 <= i < c0.pixels.len() implies self@.pixels[i] == (
                    if in_span(i, c0.width, x0 as int, y0 as int, x1 as int, y as int) || (i / (
                    c0.width) == y as int && x0 as int <= i % (c0.width) < x as int + 1) {
                        color
                    } else {
                        c0.pixels[i]
                    }) by {
                        if i != idx as int {
                            assert(self@.pixels[i] == oldpix[i]);
                            if i / (c0.width) == y as int && i % (c0.width) == x as int {
                                assert(i == (i / c0.width) * c0.width + (i % c0.width)) by (nonlinear_arith)
                                    requires
                                        c0.width > 0,
                                ;
                                assert(i == idx as int);
                            }
                        }
                    }
                }
                x = x + 1;
            }
            proof {
                assert forall|i: int| 0 <= i < c0.pixels.len() implies self@.pixels[i] == (
                if in_span(i, c0.width, x0 as int, y0 as int, x1 as int, y as int + 1) {
                    color
                } else {
                    c0.pixels[i]
                }) by {
                    assert(self@.pixels[i] == (if in_span(
                        i,
                        c0.width,
                        x0 as int,
                        y0 as int,
                        x1 as int,
                        y as int,
                    ) || (i / (c0.width) == y as int && x0 as int <= i % (c0.width)
                        < x as int) {
                        color
                    } else {
                        c0.pixels[i]
                    }));
                }
            }
            y = y + 1;
        }
        proof {
            assert forall|i: int| 0 <= i < c0.pixels.len() implies self@.pixels[i]
                == sp_paint_item(c0, item@).pixels[i] by {
                if in_span(i, c0.width, clip.0, clip.1, clip.2, clip.3) {
                    assert(in_span(i, c0.width, x0 as int, y0 as int, x1 as int, y as int));
                }
            }
            assert(self@.pixels =~= sp_paint_item(c0, item@).pixels);
        }
    }
}

/// The whole-pixel cell of a coordinate, clamped into the canvas.
fn clamp_cells(v: i64, cells: usize) -> (r: usize)
    requires
        cells * (PX_SCALE as int) <= i64::MAX,
    ensures
        r as int == clamp_at(v as int, (cells as int) * (PX_SCALE as int)) / (PX_SCALE as int),
        r <= cells,
{
    let hi: i64 = (cells as i64) * PX_SCALE;
    let c: i64 = if v < 0 {
        0
    } else if v > hi {
        hi
    } else {
        v
    };
    let q: i64 = ((c as u64) / (PX_SCALE as u64)) as i64;
    proof {
        assert(0 <= c <= hi);
        assert(q as int == (c as int) / (PX_SCALE as int));
        assert((c as int) / (PX_SCALE as int) <= (hi as int) / (PX_SCALE as int)) by (nonlinear_arith)
            requires
                0 <= c <= hi,
        ;
        assert((hi as int) / (PX_SCALE as int) == cells as int) by (nonlinear_arith)
            requires
                hi as int == (cells as int) * (PX_SCALE as int),
        ;
    }
    q as usize
}

/// Paint a laid-out box tree onto a fresh canvas of the given bounds: the
/// display list's commands drawn in order over opaque white.
pub fn paint(layout_root: &LayoutBox, bounds: Rect) -> (r: Canvas)
    requires
        spec_cells(bounds.width as int) * spec_cells(bounds.height as int) <= usize::MAX,
        spec_cells(bounds.width as int) <= usize::MAX,
        spec_cells(bounds.height as int) <= usize::MAX,
    ensures
        r@ == sp_paint(layout_root@, bounds@),
{
    let display_list = build_display_list(layout_root);
    let w = to_cells(bounds.width);
    let h = to_cells(bounds.height);
    let mut canvas = Canvas::new(w, h);
    let n = display_list.len();
    let ghost cmds = cmds_view(display_list@);
    proof {
        assert(cmds.skip(0) =~= cmds);
    }
    for i in 0..n
        invariant
            n == display_list.len(),
            n == cmds.len(),
            cmds == cmds_view(display_list@),
            canvas.wf(),
            canvas.width == w,
            canvas.height == h,
            (w as int) * (PX_SCALE as int) <= i64::MAX,
            (h as int) * (PX_SCALE as int) <= i64::MAX,
            sp_paint_all(canvas@, cmds.skip(i as int)) == sp_paint_all(
                sp_canvas_init(w as int, h as int),
                cmds,
            ),
        decreases n - i,
    {
        proof {
            assert(cmds.skip(i as int)[0] == cmds[i as int]);
            assert(cmds[i as int] == display_list@[i as int]@);
            assert(cmds.skip(i as int).drop_first() =~= cmds.skip(i as int + 1));
        }
        canvas.paint_item(&display_list[i]);
    }
    proof {
        assert(cmds.skip(n as int) =~= Seq::<DisplayCommandV>::empty());
    }
    canvas
}

/// How many whole pixels a length covers; negative lengths cover none.
fn to_cells(v: i64) -> (r: usize)
    requires
        spec_cells(v as int) <= usize::MAX,
    ensures
        r as int == spec_cells(v as int),
        (r as int) * (PX_SCALE as int) <= i64::MAX,
{
    if v <= 0 {
        0
    } else {
        let q = (v as u64) / (PX_SCALE as u64);
        proof {
            let vv = v as int;
            assert(q as int == vv / 1000);
            assert((vv / 1000) * 1000 <= vv) by (nonlinear_arith)
                requires
                    vv >= 0,
            ;
        }
        q as usize
    }
}

} // verus!
