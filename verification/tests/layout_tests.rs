//! Tests of the layout engine: box-tree construction and geometry, on the
//! pipeline's own scenarios. Lengths are thousandths of a pixel.

use yoyo::css;
use yoyo::html;
use yoyo::layout::{build_layout_tree, layout_tree, BoxType, Dimensions, LayoutBox};
use yoyo::style;

fn layout(html_src: &str, css_src: &str) -> LayoutBox {
    let root = html::parse(html_src.to_string()).unwrap();
    let sheet = css::parse(css_src.to_string()).unwrap();
    let styled = style::style_tree(&root, &sheet);
    let mut viewport = Dimensions::default();
    viewport.content.width = 800_000;
    viewport.content.height = 600_000;
    layout_tree(&styled, viewport).unwrap()
}

#[test]
fn test_build_layout_tree() {
    let css = "
        h1,
        h2,
        h3 {
          margin: 10px;
          width: 100px;
        }

        p {
            color: #ffffff;
            padding-top: 33px;
        }
        ";
    let html = "
            <h1 id='1'>Test<p>para</p></h1>
        ";
    let root = html::parse(html.to_string()).unwrap();
    let style_sheet = css::parse(css.to_string()).unwrap();
    let style_node = style::style_tree(&root, &style_sheet);
    println!("{:?}", build_layout_tree(&style_node));
}

#[test]
fn test_single_element_centering() {
    // a fixed-width block with `margin: auto` splits the leftover space
    // into two equal margins
    let root = layout(
        "<h1></h1>",
        "h1 { display: block; width: 100px; margin: auto; }",
    );
    assert_eq!(root.dimensions.content.width, 100_000);
    assert_eq!(root.dimensions.margin.left, 350_000);
    assert_eq!(root.dimensions.margin.right, 350_000);
    assert_eq!(root.dimensions.content.x, 350_000);
    assert_eq!(root.dimensions.content.y, 0);
    assert_eq!(root.dimensions.content.height, 0);
}

#[test]
fn test_vertical_stacking() {
    let root = layout(
        "<div><p></p><p></p></div>",
        "div,p { display: block; } p { height: 20px; }",
    );
    assert_eq!(root.dimensions.content.height, 40_000);
    assert_eq!(root.children.len(), 2);
    assert_eq!(root.children[0].dimensions.content.y, 0);
    assert_eq!(root.children[1].dimensions.content.y, 20_000);
}

#[test]
fn test_specificity_wins_width() {
    let root = layout(
        "<h1 id=\"x\"></h1>",
        "#x { width: 10px; } h1 { width: 50px; }",
    );
    assert_eq!(root.dimensions.content.width, 10_000);
}

#[test]
fn test_underflow_negative_margin() {
    // a 900px block in an 800px viewport keeps its width; the margin
    // absorbs the negative underflow
    let root = layout(
        "<body></body>",
        "body { display: block; } body { width: 900px; }",
    );
    assert_eq!(root.dimensions.content.width, 900_000);
    assert_eq!(root.dimensions.margin.right, -100_000);
}

#[test]
fn test_inline_under_block_gets_anonymous_box() {
    let root = layout(
        "<div>a<span>b</span>c</div>",
        "div { display: block; } span { display: inline; }",
    );
    assert_eq!(root.children.len(), 1);
    assert!(matches!(root.children[0].box_type, BoxType::AnonymousBlock));
    assert_eq!(root.children[0].children.len(), 3);
    for child in &root.children[0].children {
        assert!(matches!(child.box_type, BoxType::InlineNode(_)));
    }
}

#[test]
fn test_explicit_height_overrides() {
    let root = layout(
        "<div><p></p></div>",
        "div { display: block; height: 7px; } p { display: block; height: 20px; }",
    );
    assert_eq!(root.dimensions.content.height, 7_000);
}

#[test]
fn test_display_none_root_fails() {
    let root = html::parse("<div></div>".to_string()).unwrap();
    let sheet = css::parse("div { display: none; }".to_string()).unwrap();
    let styled = style::style_tree(&root, &sheet);
    assert!(build_layout_tree(&styled).is_err());
    assert!(layout_tree(&styled, Dimensions::default()).is_err());
}

#[test]
fn test_display_none_child_skipped() {
    let root = layout(
        "<div><p></p><b></b></div>",
        "div, b { display: block; } p { display: none; }",
    );
    assert_eq!(root.children.len(), 1);
}

#[test]
fn test_padding_and_border_offset_position() {
    let root = layout(
        "<div></div>",
        "div { display: block; width: 100px; margin-left: 5px; border-left-width: 2px; padding-left: 3px; margin-top: 1px; }",
    );
    assert_eq!(root.dimensions.content.x, 10_000);
    assert_eq!(root.dimensions.content.y, 1_000);
    assert_eq!(root.dimensions.margin.left, 5_000);
    assert_eq!(root.dimensions.border.left, 2_000);
    assert_eq!(root.dimensions.padding.left, 3_000);
}

#[test]
fn test_margin_box_sums_edges() {
    let mut d = Dimensions::default();
    d.content.width = 10_000;
    d.content.height = 4_000;
    d.margin.left = 1_000;
    d.margin.right = 2_000;
    d.border.top = 500;
    d.padding.bottom = 250;
    let mb = d.margin_box();
    assert_eq!(mb.width, 13_000);
    assert_eq!(mb.height, 4_750);
    assert_eq!(mb.x, -1_000);
    assert_eq!(mb.y, -500);
}
