use crdt_redis::compression::{compress_image, try_compress_image};
use crdt_redis::greeting::greet;
use crdt_redis::text_editor::{format_markdown, format_text, highlight_code};
use image::{DynamicImage, ImageOutputFormat, Rgb, RgbImage};

#[test]
fn highlight_code_marks_keywords_and_spaces_words_by_two() {
    assert_eq!(
        highlight_code("fn main() { let x = 1; }"),
        "<span style='color: blue;'>fn</span>  main()  {  <span style='color: blue;'>let</span>  x  =  1;  }"
    );
}

#[test]
fn highlight_code_of_blank_text_is_empty() {
    assert_eq!(highlight_code(""), "");
    assert_eq!(highlight_code(" \n\t "), "");
}

#[test]
fn highlight_code_of_one_keyword() {
    assert_eq!(highlight_code("  return  "), "<span style='color: blue;'>return</span>");
    assert_eq!(highlight_code("returns"), "returns");
}

#[test]
fn format_text_wraps_in_the_tag() {
    assert_eq!(format_text("hi", "b"), "<b>hi</b>");
    assert_eq!(format_text("", "p"), "<p></p>");
}

#[test]
fn greet_says_hello() {
    assert_eq!(greet("World"), "Hello, World!");
}

#[test]
fn format_markdown_renders_html() {
    assert_eq!(format_markdown("# Title"), "<h1>Title</h1>\n");
    assert_eq!(format_markdown("*a*"), "<p><em>a</em></p>\n");
    assert_eq!(format_markdown(""), "");
}

#[test]
fn compress_image_gives_a_jpeg() {
    let img = RgbImage::from_pixel(4, 3, Rgb([200, 10, 10]));
    let mut png = Vec::new();
    DynamicImage::ImageRgb8(img)
        .write_to(&mut std::io::Cursor::new(&mut png), ImageOutputFormat::Png)
        .unwrap();
    let jpeg = compress_image(&png, 75);
    assert_eq!(&jpeg[..2], &[0xFF, 0xD8]);
    let back = image::load_from_memory(&jpeg).unwrap();
    assert_eq!((back.width(), back.height()), (4, 3));
    assert_eq!(try_compress_image(&png, 75), Some(jpeg));
}

#[test]
fn try_compress_image_refuses_other_bytes() {
    assert_eq!(try_compress_image(b"not an image at all", 50), None);
}
