use vstd::prelude::*;

use serde_json::Value;

use crate::image::{Image, ImageView};
use crate::text::{lower_of, strings, unescape_quotes, unescaped};

verus! {

#[verifier::external_type_specification]
#[verifier::external_body]
pub struct ExValue(serde_json::Value);

/// What `serde_json::from_str::<Value>` gives for a text: the value, or `None` where the text is not JSON.
pub uninterp spec fn parsed_json(s: Seq<char>) -> Option<Value>;

/// What `Value::as_array` gives: the elements of an array value, else `None`.
pub uninterp spec fn array_items(v: Value) -> Option<Seq<Value>>;

/// What `Value::as_str` gives: the text of a string value, else `None`.
pub uninterp spec fn string_value(v: Value) -> Option<Seq<char>>;

/// What `Value::get` gives with a string key: the member of an object value under that key, else `None`.
pub uninterp spec fn member(v: Value, key: Seq<char>) -> Option<Value>;

/// Relies on `serde_json::from_str::<Value>`: parses a JSON text; the error is dropped.
#[verifier::external_body]
fn parse_json(s: &str) -> (r: Option<Value>)
    ensures
        r == parsed_json(s@),
{
    serde_json::from_str::<Value>(s).ok()
}

/// Relies on `serde_json::Value::as_array`: the elements of an array, `None` for any other value.
pub assume_specification[ serde_json::Value::as_array ](v: &Value) -> (r: Option<&Vec<Value>>)
    ensures
        match r {
            Some(a) => array_items(*v) == Some(a@),
            None => array_items(*v) is None,
        },
;

/// Relies on `serde_json::Value::as_str`: the text of a string, `None` for any other value.
pub assume_specification[ serde_json::Value::as_str ](v: &Value) -> (r: Option<&str>)
    ensures
        match r {
            Some(s) => string_value(*v) == Some(s@),
            None => string_value(*v) is None,
        },
;

/// Relies on `serde_json::Value::get` with a `&str` key: the member of an object, `None` where
/// the value is no object or has no such key.
#[verifier::external_body]
fn get_member<'a>(v: &'a Value, key: &str) -> (r: Option<&'a Value>)
    ensures
        match r {
            Some(x) => member(*v, key@) == Some(*x),
            None => member(*v, key@) is None,
        },
{
    v.get(key)
}

/// The texts of the string values among `items`, in order; other values are skipped.
pub open spec fn strings_among(items: Seq<Value>) -> Seq<Seq<char>>
    decreases items.len(),
{
    if items.len() == 0 {
        seq![]
    } else {
        let prev = strings_among(items.drop_last());
        match string_value(items.last()) {
            Some(s) => prev.push(s),
            None => prev,
        }
    }
}

/// The strings of the JSON array `v`; nothing where `v` is no array.
pub open spec fn strings_in(v: Value) -> Seq<Seq<char>> {
    match array_items(v) {
        Some(items) => strings_among(items),
        None => seq![],
    }
}

/// The strings of the JSON array held in the text `s`; nothing where `s` holds no array.
pub open spec fn string_items(s: Seq<char>) -> Seq<Seq<char>> {
    match parsed_json(s) {
        Some(v) => strings_in(v),
        None => seq![],
    }
}

/// The text of the string member `key` of `v`; empty where there is none.
pub open spec fn text_member(v: Value, key: Seq<char>) -> Seq<char> {
    match member(v, key) {
        Some(x) => match string_value(x) {
            Some(s) => s,
            None => seq![],
        },
        None => seq![],
    }
}

/// The strings of a parsed list field, in order; other elements are skipped,
/// and a value that is no array gives none.
pub fn read_strings(v: &Value) -> (r: Vec<String>)
    ensures
        strings(r@) == strings_in(*v),
{
    let mut out: Vec<String> = Vec::new();
    match v.as_array() {
        Some(items) => {
            let mut i: usize = 0;
            while i < items.len()
                invariant
                    i <= items@.len(),
                    strings(out@) == strings_among(items@.subrange(0, i as int)),
                decreases items.len() - i,
            {
                assert(items@.subrange(0, i + 1).drop_last() =~= items@.subrange(0, i as int));
                match items[i].as_str() {
                    Some(s) => {
                        let ghost prev = strings(out@);
                        out.push(String::from_str(s));
                        assert(strings(out@) =~= prev.push(s@));
                    },
                    None => {},
                }
                i = i + 1;
            }
            assert(items@.subrange(0, i as int) =~= items@);
        },
        None => {},
    }
    out
}

/// Reads a list field: the strings of the JSON array written in `input`.
pub fn read_json(input: &str) -> (r: Vec<String>)
    ensures
        strings(r@) == string_items(input@),
{
    match parse_json(input) {
        Some(v) => read_strings(&v),
        None => Vec::new(),
    }
}

/// The text of the string member `key` of `v`, or an empty string.
fn text_of(v: &Value, key: &str) -> (r: String)
    ensures
        r@ == text_member(*v, key@),
{
    match get_member(v, key) {
        Some(x) => match x.as_str() {
            Some(s) => String::from_str(s),
            None => String::new(),
        },
        None => String::new(),
    }
}

/// Whether a bulk-read record names its file.
pub open spec fn has_file(v: Value) -> bool {
    text_member(v, "SourceFile"@).len() > 0
}

/// `im` is the image that the record `v` describes.
pub open spec fn image_from(v: Value, im: ImageView) -> bool {
    &&& im.wf()
    &&& im.file == text_member(v, "SourceFile"@)
    &&& im.size == text_member(v, "ImageSize"@)
    &&& im.notes == unescaped(text_member(v, "UserComment"@))
    &&& im.artists.to_set() == string_items(text_member(v, "Artist"@)).to_set()
    &&& im.links.to_set() == string_items(text_member(v, "PageName"@)).to_set()
    &&& im.tags.to_set() == string_items(text_member(v, "ImageDescription"@)).map_values(
        |s: Seq<char>| lower_of(s),
    ).to_set()
}

/// Builds the image that one bulk-read record describes; `None` where the
/// record does not name its file.
pub fn construct_image(info: &Value) -> (r: Option<Image>)
    ensures
        r is None <==> !has_file(*info),
        r matches Some(im) ==> image_from(*info, im@),
{
    let file = text_of(info, "SourceFile");
    if file.unicode_len() == 0 {
        return None;
    }
    let str_artists = text_of(info, "Artist");
    let str_links = text_of(info, "PageName");
    let str_tags = text_of(info, "ImageDescription");
    let str_notes = text_of(info, "UserComment");
    let size = text_of(info, "ImageSize");
    let artists = read_json(str_artists.as_str());
    let links = read_json(str_links.as_str());
    let tags = read_json(str_tags.as_str());
    let notes = unescape_quotes(str_notes.as_str());
    Some(Image::new(file, artists, size, links, tags, notes))
}

/// The records of a bulk read's output: the elements of the JSON array it holds;
/// `None` where the output is not a JSON array.
pub open spec fn records(output: Seq<char>) -> Option<Seq<Value>> {
    match parsed_json(output) {
        Some(v) => array_items(v),
        None => None,
    }
}

/// The records among `items` that name their file, in order.
pub open spec fn kept(items: Seq<Value>) -> Seq<Value>
    decreases items.len(),
{
    if items.len() == 0 {
        seq![]
    } else if has_file(items.last()) {
        kept(items.drop_last()).push(items.last())
    } else {
        kept(items.drop_last())
    }
}

/// `ims` are the images described by the records of the JSON array `v` that
/// name their file, in order; none where `v` is no array.
pub open spec fn images_in(v: Value, ims: Seq<ImageView>) -> bool {
    match array_items(v) {
        Some(items) => ims.len() == kept(items).len() && forall|k: int|
            0 <= k < ims.len() ==> image_from(#[trigger] kept(items)[k], ims[k]),
        None => ims.len() == 0,
    }
}

/// `ims` are the images described by the records of `output` that name their
/// file, in order; none where the output is not a JSON array.
pub open spec fn images_from(output: Seq<char>, ims: Seq<ImageView>) -> bool {
    match parsed_json(output) {
        Some(v) => images_in(v, ims),
        None => ims.len() == 0,
    }
}

/// The images of parsed bulk-read records. A record without a file name is
/// skipped; a value that is no array gives no images.
pub fn read_records(v: &Value) -> (r: Vec<Image>)
    ensures
        images_in(*v, r@.map_values(|im: Image| im@)),
{
    let mut out: Vec<Image> = Vec::new();
    match v.as_array() {
        Some(items) => {
            let mut i: usize = 0;
            while i < items.len()
                invariant
                    i <= items@.len(),
                    array_items(*v) == Some(items@),
                    out@.len() == kept(items@.subrange(0, i as int)).len(),
                    forall|k: int| 0 <= k < out@.len() ==> image_from(
                        #[trigger] kept(items@.subrange(0, i as int))[k],
                        out@[k]@,
                    ),
                decreases items.len() - i,
            {
                assert(items@.subrange(0, i + 1).drop_last() =~= items@.subrange(0, i as int));
                match construct_image(&items[i]) {
                    Some(im) => {
                        out.push(im);
                    },
                    None => {},
                }
                i = i + 1;
            }
            assert(items@.subrange(0, i as int) =~= items@);
        },
        None => {},
    }
    out
}

/// The images of a bulk read's output. A record without a file name is
/// skipped; output that is not a JSON array gives no images.
pub fn read_images(output: &str) -> (r: Vec<Image>)
    ensures
        images_from(output@, r@.map_values(|im: Image| im@)),
{
    match parse_json(output) {
        Some(v) => read_records(&v),
        None => Vec::new(),
    }
}

} // verus!
