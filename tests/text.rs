use ref_viewer::image::Image;
use ref_viewer::json::read_json;
use ref_viewer::protocol::{get_folder_data, set_tags, ResponseReader, STOP_COMMAND};
use ref_viewer::text::{
    compare_text, contains_text, escape_quotes, insert_sorted, build_string, remove_sorted,
    remove_text, split_words, unescape_quotes,
};

#[test]
fn words_split_on_unicode_space() {
    assert_eq!(split_words("a\u{3000}b  c\n"), vec!["a", "b", "c"]);
    assert!(split_words("   ").is_empty());
}

#[test]
fn quotes_escape_and_unescape() {
    assert_eq!(escape_quotes("a\"b\""), "a\\\"b\\\"");
    assert_eq!(unescape_quotes("a\\\"b\\x"), "a\"b\\x");
    assert_eq!(unescape_quotes(&escape_quotes("q\"q")), "q\"q");
}

#[test]
fn list_field_format() {
    assert_eq!(build_string(&vec![]), "[]");
    assert_eq!(build_string(&vec!["a".to_string(), "b c".to_string()]), "[\"a\",\"b c\"]");
}

#[test]
fn text_order_and_search() {
    assert_eq!(compare_text("abc", "abd"), -1);
    assert_eq!(compare_text("b", "abc"), 1);
    assert_eq!(compare_text("ab", "ab"), 0);
    assert_eq!(compare_text("ab", "abc"), -1);
    assert!(contains_text("category", "ego"));
    assert!(contains_text("x", ""));
    assert!(!contains_text("cat", "cats"));
    assert_eq!(remove_text("a cat and a cat", "cat"), "a  and a ");
    assert_eq!(remove_text("aaa", "aa"), "a");
    assert_eq!(remove_text("abc", ""), "abc");
}

#[test]
fn sorted_sets() {
    let mut v: Vec<String> = vec![];
    assert!(insert_sorted(&mut v, "m".to_string()));
    assert!(insert_sorted(&mut v, "a".to_string()));
    assert!(insert_sorted(&mut v, "z".to_string()));
    assert!(!insert_sorted(&mut v, "m".to_string()));
    assert_eq!(v, vec!["a", "m", "z"]);
    assert!(remove_sorted(&mut v, "m"));
    assert!(!remove_sorted(&mut v, "q"));
    assert_eq!(v, vec!["a", "z"]);
}

#[test]
fn image_new_normalizes_lists() {
    let im = Image::new(
        "/f.jpg".to_string(),
        vec!["zed".to_string(), "amy".to_string(), "zed".to_string()],
        "1x1".to_string(),
        vec![],
        vec!["Dog".to_string(), "CAT".to_string(), "dog".to_string()],
        String::new(),
    );
    assert_eq!(im.artists, vec!["amy", "zed"]);
    assert_eq!(im.tags, vec!["cat", "dog"]);
}

#[test]
fn image_edits() {
    let mut im = Image::new("/f".to_string(), vec![], String::new(), vec![], vec![], String::new());
    im.add_tag("Blue");
    assert_eq!(im.tags, vec!["blue"]);
    assert!(im.remove_tag("BLUE"));
    assert!(!im.remove_tag("blue"));
    im.add_artist("Ann");
    assert_eq!(im.artists, vec!["Ann"]);
    assert!(!im.remove_artist("ann"));
    im.add_link("b");
    im.add_link("a");
    assert_eq!(im.links, vec!["a", "b"]);
    assert!(im.remove_link("a"));
}

#[test]
fn list_fields_from_json() {
    assert_eq!(read_json("[\"a\", 3, \"b\", null]"), vec!["a", "b"]);
    assert!(read_json("{\"a\": 1}").is_empty());
    assert!(read_json("not json").is_empty());
    assert!(read_json("").is_empty());
}

#[test]
fn commands() {
    assert_eq!(
        get_folder_data("/p"),
        "\n-FileOrder8\n-fast2\n-FileName\n-Artist\n-PageName\n-ImageDescription\n-ImageSize\n-UserComment\n-json\n-ext\njpg\n-ext\njpeg\n-ext\npng\n-ext\ntga\n-ext\ntiff\n-ext\nwebp\n-ext\ngif\n/p\n-execute\n"
    );
    assert_eq!(set_tags("/p/a.jpg", "[\"x\"]"), "-overwrite_original\n-m\n-ImageDescription=[\"x\"]\n/p/a.jpg\n-execute\n");
    assert_eq!(STOP_COMMAND, "-stay_open\nFalse\n");
}

#[test]
fn responses_are_framed_by_ready_lines() {
    let mut r = ResponseReader::new();
    assert_eq!(r.feed("line one"), None);
    assert_eq!(r.feed("line two"), None);
    assert_eq!(r.feed("{ready}"), Some("line one\nline two\n".to_string()));
    assert_eq!(r.feed("{ready}"), Some(String::new()));
    assert_eq!(r.feed("{ready} "), None);
    assert_eq!(r.readout, "{ready} \n");
}

#[test]
fn icon_decoding() {
    assert!(ref_viewer::icon::load_icon(&[1, 2, 3]).is_none());
    let img = image::RgbaImage::from_pixel(2, 3, image::Rgba([1, 2, 3, 4]));
    let mut bytes: Vec<u8> = Vec::new();
    img.write_to(&mut std::io::Cursor::new(&mut bytes), image::ImageFormat::Png).unwrap();
    let (px, w, h) = ref_viewer::icon::load_icon(&bytes).unwrap();
    assert_eq!((w, h), (2, 3));
    assert_eq!(px.len(), 24);
    assert_eq!(&px[0..4], &[1, 2, 3, 4]);
}
