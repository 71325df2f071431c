//! Tests of the painter: display lists and the pixel canvas.

use yoyo::css::{self, Color};
use yoyo::html;
use yoyo::layout::{self, build_layout_tree, Dimensions, Rect};
use yoyo::painting::{build_display_list, paint, DisplayCommand};
use yoyo::style;

fn layout(html_src: &str, css_src: &str) -> layout::LayoutBox {
    let root = html::parse(html_src.to_string()).unwrap();
    let sheet = css::parse(css_src.to_string()).unwrap();
    let styled = style::style_tree(&root, &sheet);
    let mut viewport = Dimensions::default();
    viewport.content.width = 800_000;
    viewport.content.height = 600_000;
    layout::layout_tree(&styled, viewport).unwrap()
}

#[test]
fn test_build_display_list() {
    let css = "
        div {
          width: 150px;
          height: 50px;
          background: #00ccff;
        }
        ";
    let html = "
            <div><div></div></div>
        ";
    let root = html::parse(html.to_string()).unwrap();
    let style_sheet = css::parse(css.to_string()).unwrap();
    let style_node = style::style_tree(&root, &style_sheet);
    let layout_box = build_layout_tree(&style_node);
    println!("{:?}", build_display_list(&layout_box.unwrap()));
}

#[test]
fn test_background_command() {
    let root = layout(
        "<div></div>",
        "div { display: block; width: 100px; height: 50px; background: #112233; }",
    );
    let list = build_display_list(&root);
    assert_eq!(list.len(), 1);
    assert_eq!(
        list[0],
        DisplayCommand::SolidColor(
            Color { r: 0x11, g: 0x22, b: 0x33, a: 255 },
            Rect { x: 0, y: 0, width: 100_000, height: 50_000 }
        )
    );
}

#[test]
fn test_border_commands() {
    let root = layout(
        "<div></div>",
        "div { display: block; width: 100px; height: 50px; border-width: 4px; border-color: #ff0000; }",
    );
    let list = build_display_list(&root);
    // four border strips: left, right, top, bottom
    assert_eq!(list.len(), 4);
    let red = Color { r: 255, g: 0, b: 0, a: 255 };
    assert_eq!(
        list[0],
        DisplayCommand::SolidColor(red, Rect { x: 0, y: 0, width: 4_000, height: 58_000 })
    );
    assert_eq!(
        list[1],
        DisplayCommand::SolidColor(red, Rect { x: 104_000, y: 0, width: 4_000, height: 58_000 })
    );
    assert_eq!(
        list[2],
        DisplayCommand::SolidColor(red, Rect { x: 0, y: 0, width: 108_000, height: 4_000 })
    );
    assert_eq!(
        list[3],
        DisplayCommand::SolidColor(red, Rect { x: 0, y: 54_000, width: 108_000, height: 4_000 })
    );
}

#[test]
fn test_text_command_default_color() {
    // a text node carries no specified values (there is no inheritance),
    // so its command takes the default text color
    let root = layout("<div>hi</div>", "div { display: block; }");
    // the text box sits inside the div's anonymous child
    let anon = &root.children[0];
    let list = build_display_list(anon);
    assert_eq!(list.len(), 1);
    match &list[0] {
        DisplayCommand::Text(t, c, _r) => {
            assert_eq!(t, "hi");
            assert_eq!(*c, Color { r: 129, g: 45, b: 211, a: 255 });
        }
        _ => panic!("expected a text command"),
    }
}

#[test]
fn test_paint_fills_pixels() {
    let root = layout(
        "<div></div>",
        "div { display: block; width: 2px; height: 1px; background: #010203; }",
    );
    let canvas = paint(
        &root,
        Rect { x: 0, y: 0, width: 4_000, height: 2_000 },
    );
    assert_eq!(canvas.width, 4);
    assert_eq!(canvas.height, 2);
    let ink = Color { r: 1, g: 2, b: 3, a: 255 };
    let white = Color { r: 255, g: 255, b: 255, a: 255 };
    assert_eq!(canvas.pixels[0], ink);
    assert_eq!(canvas.pixels[1], ink);
    assert_eq!(canvas.pixels[2], white);
    assert_eq!(canvas.pixels[3], white);
    assert_eq!(canvas.pixels[4], white);
    assert_eq!(canvas.pixels.len(), 8);
}

#[test]
fn test_paint_is_deterministic() {
    let root = layout(
        "<div>x<span>y</span></div>",
        "div { display: block; width: 30px; height: 10px; background: #336699; border-width: 1px; border-color: #000000; }",
    );
    let bounds = Rect { x: 0, y: 0, width: 64_000, height: 32_000 };
    let first = paint(&root, bounds);
    let second = paint(&root, bounds);
    assert_eq!(first, second);
}

#[test]
fn test_paint_clips_to_canvas() {
    let root = layout(
        "<div></div>",
        "div { display: block; width: 900px; height: 900px; background: #0000ff; }",
    );
    let canvas = paint(&root, Rect { x: 0, y: 0, width: 3_000, height: 3_000 });
    assert_eq!(canvas.pixels.len(), 9);
    let blue = Color { r: 0, g: 0, b: 255, a: 255 };
    for p in &canvas.pixels {
        assert_eq!(*p, blue);
    }
}
