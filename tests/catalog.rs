use ref_viewer::address::Index;
use ref_viewer::catalog::{Data, FolderRead};
use ref_viewer::shared::Shared;

fn record(file: &str, artists: &str, tags: &str) -> String {
    format!(
        "{{\"SourceFile\":\"{}\",\"Artist\":{:?},\"ImageDescription\":{:?},\"ImageSize\":\"10x10\"}}",
        file, artists, tags
    )
}

fn read(path: &str, records: &[String]) -> FolderRead {
    FolderRead { path: path.to_string(), output: format!("[{}]", records.join(",")) }
}

fn idx(folder: usize, image: usize) -> Index {
    Index { folder, image }
}

fn bucket(data: &Data, tag: &str) -> Vec<Index> {
    let mut v = data.taglist.get(tag).cloned().unwrap_or_default();
    v.sort_by_key(|a| (a.folder, a.image));
    v
}

fn sample() -> Data {
    let mut data = Data::new();
    let reads = vec![read(
        "/pics",
        &[
            record("/pics/a.jpg", "[]", "[\"cat\"]"),
            record("/pics/b.jpg", "[]", "[\"cat\",\"draft\"]"),
            record("/pics/c.jpg", "[\"ann\"]", "[\"Cat\",\"dog\"]"),
            record("/pics/d.jpg", "[]", "[\"dog\"]"),
        ],
    )];
    data.open_folders(reads, None);
    data
}

#[test]
fn open_folders_reads_records_and_index() {
    let data = sample();
    assert_eq!(data.folders.len(), 1);
    assert_eq!(data.folders[0].images.len(), 4);
    assert_eq!(data.folders[0].images[2].tags, vec!["cat".to_string(), "dog".to_string()]);
    assert_eq!(data.folders[0].images[2].artists, vec!["ann".to_string()]);
    assert_eq!(data.folders[0].images[0].size, "10x10");
    assert_eq!(bucket(&data, "cat"), vec![idx(0, 0), idx(0, 1), idx(0, 2)]);
    assert_eq!(bucket(&data, "ann"), vec![idx(0, 2)]);
    assert!(data.taglist.get("Cat").is_none());
}

#[test]
fn query_include_and_exclude() {
    let data = sample();
    let mut shared = Shared::new(data.build_vector(vec![], vec![]), idx(0, 0));
    shared.search = "cat -draft".to_string();
    shared.update_search(&data);
    assert_eq!(shared.get_results(), &vec![vec![idx(0, 0), idx(0, 2)]]);
    assert_eq!(shared.get_result_size(), 2);
}

#[test]
fn query_and_of_two_values() {
    let data = sample();
    let r = data.build_vector(vec!["cat".to_string(), "dog".to_string()], vec![]);
    assert_eq!(r, vec![vec![idx(0, 2)]]);
    let none = data.build_vector(vec!["cat".to_string(), "zebra".to_string()], vec![]);
    assert_eq!(none, vec![Vec::<Index>::new()]);
}

#[test]
fn query_exclusion_twice_same_as_once() {
    let data = sample();
    let once = data.build_vector(vec![], vec!["dog".to_string()]);
    let twice = data.build_vector(vec![], vec!["dog".to_string(), "dog".to_string()]);
    assert_eq!(once, twice);
    assert_eq!(once, vec![vec![idx(0, 0), idx(0, 1)]]);
}

#[test]
fn query_unknown_values() {
    let data = sample();
    assert_eq!(data.build_vector(vec!["zebra".to_string()], vec![]), vec![Vec::<Index>::new()]);
    assert_eq!(data.build_vector(vec![], vec!["zebra".to_string()]).concat().len(), 4);
}

#[test]
fn malformed_folder_registers_empty() {
    let mut data = Data::new();
    let reads = vec![
        FolderRead { path: "/bad".to_string(), output: "[{\"SourceFile\": ".to_string() },
        read("/good", &[record("/good/x.png", "[]", "[\"sky\"]")]),
    ];
    data.open_folders(reads, None);
    assert_eq!(data.folders.len(), 2);
    assert_eq!(data.folders[0].path, "/bad");
    assert_eq!(data.folders[0].images.len(), 0);
    assert_eq!(data.folders[1].images.len(), 1);
    assert_eq!(bucket(&data, "sky"), vec![idx(1, 0)]);
}

#[test]
fn record_without_file_is_skipped() {
    let mut data = Data::new();
    let out = "[{\"SourceFile\":\"\"},{\"ImageSize\":\"1x1\"},{\"SourceFile\":\"/f/a.jpg\"}]".to_string();
    data.open_folders(vec![FolderRead { path: "/f".to_string(), output: out }], None);
    assert_eq!(data.folders[0].images.len(), 1);
    assert_eq!(data.folders[0].images[0].file, "/f/a.jpg");
}

#[test]
fn open_single_file_returns_its_address() {
    let mut data = sample();
    let reads = vec![read("/more", &[record("/more/p.jpg", "[]", "[]"), record("/more/q.jpg", "[]", "[]")])];
    let r = data.open_folders(reads, Some(("/more".to_string(), "/more/q.jpg".to_string())));
    assert_eq!(r, Some(idx(1, 1)));
    let missing = data.open_folders(vec![], Some(("/more".to_string(), "/more/zz.jpg".to_string())));
    assert_eq!(missing, Some(idx(0, 0)));
    assert_eq!(data.get_path_index("/pics", "/pics/c.jpg"), Some(idx(0, 2)));
    assert_eq!(data.get_path_index("/more", "/pics/c.jpg"), None);
}

#[test]
fn tag_round_trip_restores() {
    let mut data = sample();
    let before = data.folders[0].images[3].tags.clone();
    let cmd = data.add_tag(&idx(0, 3), "Sunny").unwrap();
    assert!(cmd.contains("-ImageDescription=[\"dog\",\"sunny\"]\n/pics/d.jpg\n-execute\n"));
    assert_eq!(bucket(&data, "sunny"), vec![idx(0, 3)]);
    data.del_tag(&idx(0, 3), "sunny").unwrap();
    assert_eq!(data.folders[0].images[3].tags, before);
    assert!(data.taglist.get("sunny").is_none());
}

#[test]
fn remove_tag_keeps_index_while_artist_has_value() {
    let mut data = sample();
    data.add_artist(&idx(0, 0), "cat").unwrap();
    data.del_tag(&idx(0, 0), "cat").unwrap();
    assert_eq!(bucket(&data, "cat"), vec![idx(0, 0), idx(0, 1), idx(0, 2)]);
    data.del_artist(&idx(0, 0), "cat").unwrap();
    assert_eq!(bucket(&data, "cat"), vec![idx(0, 1), idx(0, 2)]);
}

#[test]
fn add_tag_twice_is_idempotent() {
    let mut data = sample();
    data.add_tag(&idx(0, 0), "cat").unwrap();
    assert_eq!(data.folders[0].images[0].tags, vec!["cat".to_string()]);
    assert_eq!(bucket(&data, "cat"), vec![idx(0, 0), idx(0, 1), idx(0, 2)]);
}

#[test]
fn stale_address_changes_nothing() {
    let mut data = sample();
    assert!(data.add_tag(&idx(3, 0), "x").is_none());
    assert!(data.del_tag(&idx(0, 9), "cat").is_none());
    assert!(data.add_link(&idx(1, 0), "http://a").is_none());
    assert!(data.set_notes(&idx(0, 4), "n").is_none());
    assert!(data.taglist.get("x").is_none());
}

#[test]
fn links_and_notes_commands() {
    let mut data = sample();
    let c = data.add_link(&idx(0, 1), "http://b").unwrap();
    assert_eq!(c, "-overwrite_original\n-m\n-PageName=[\"http://b\"]\n/pics/b.jpg\n-execute\n");
    let c = data.add_link(&idx(0, 1), "http://a").unwrap();
    assert_eq!(c, "-overwrite_original\n-m\n-PageName=[\"http://a\",\"http://b\"]\n/pics/b.jpg\n-execute\n");
    let c = data.del_link(&idx(0, 1), "http://b").unwrap();
    assert_eq!(c, "-overwrite_original\n-m\n-PageName=[\"http://a\"]\n/pics/b.jpg\n-execute\n");
    assert!(data.taglist.get("http://a").is_none());
    let c = data.set_notes(&idx(0, 1), "say \"hi\"").unwrap();
    assert_eq!(c, "-overwrite_original\n-m\n-UserComment=\"say \\\"hi\\\"\"\n/pics/b.jpg\n-execute\n");
    assert_eq!(data.folders[0].images[1].notes, "say \"hi\"");
}

#[test]
fn artist_command() {
    let mut data = sample();
    let c = data.add_artist(&idx(0, 2), "bob").unwrap();
    assert_eq!(c, "-overwrite_original\n-m\n-Artist=[\"ann\",\"bob\"]\n/pics/c.jpg\n-execute\n");
    assert_eq!(bucket(&data, "bob"), vec![idx(0, 2)]);
}

#[test]
fn close_folder_rebuilds_index_and_results() {
    let mut data = sample();
    let reads = vec![read("/other", &[record("/other/z.jpg", "[]", "[\"cat\"]")])];
    data.open_folders(reads, None);
    let mut shared = Shared::new(data.build_vector(vec![], vec![]), idx(1, 0));
    shared.search = "cat".to_string();
    shared.update_search(&data);
    assert_eq!(shared.get_result_size(), 4);
    data.close_folder(&mut shared, "/pics");
    assert_eq!(data.folders.len(), 1);
    assert_eq!(bucket(&data, "cat"), vec![idx(0, 0)]);
    assert!(data.taglist.get("dog").is_none());
    assert_eq!(shared.get_results(), &vec![vec![idx(0, 0)]]);
    data.close_folder(&mut shared, "/nowhere");
    assert_eq!(data.folders.len(), 1);
}

#[test]
fn folder_labels() {
    assert_eq!(ref_viewer::catalog::folder_label("/short/path"), "/short/path");
    assert_eq!(
        ref_viewer::catalog::folder_label("/a/very/long/path/to/pictures"),
        ".../path/to/pictures"
    );
    let mut data = Data::new();
    data.open_folders(vec![read("/a/very/long/path/to/pictures", &[])], None);
    assert_eq!(data.folders[0].btn_path, ".../path/to/pictures");
    assert!(!data.folders[0].collapsed);
}

#[test]
fn seperate_folders_sorts_and_dedups() {
    let v = vec!["/b".to_string(), "/a".to_string(), "/b".to_string(), "/a/c".to_string()];
    assert_eq!(Data::seperate_folders(&v), vec!["/a".to_string(), "/a/c".to_string(), "/b".to_string()]);
}

#[test]
fn open_folders_skips_repeated_paths() {
    let mut data = Data::new();
    let reads = vec![
        read("/a", &[record("/a/1.jpg", "[]", "[\"x\"]")]),
        read("/a", &[record("/a/2.jpg", "[]", "[]")]),
        read("/b", &[]),
    ];
    data.open_folders(reads, None);
    assert_eq!(data.folders.len(), 2);
    assert_eq!(data.folders[0].images[0].file, "/a/1.jpg");
    assert_eq!(data.folders[1].path, "/b");
    data.open_folders(vec![read("/b", &[record("/b/3.jpg", "[]", "[]")]), read("/c", &[])], None);
    assert_eq!(data.folders.len(), 3);
    assert_eq!(data.folders[1].images.len(), 0);
    assert_eq!(data.folders[2].path, "/c");
    assert!(data.has_folder("/c"));
    assert!(!data.has_folder("/d"));
    assert_eq!(bucket(&data, "x"), vec![idx(0, 0)]);
}

#[test]
fn records_from_parsed_values() {
    let v: serde_json::Value = serde_json::from_str(
        "[{\"SourceFile\":\"/v/1.jpg\",\"ImageDescription\":\"[\\\"B\\\",\\\"a\\\"]\",\"UserComment\":\"hi \\\\\\\"x\\\\\\\"\"},{\"Artist\":\"[]\"},7]",
    )
    .unwrap();
    let ims = ref_viewer::json::read_records(&v);
    assert_eq!(ims.len(), 1);
    assert_eq!(ims[0].file, "/v/1.jpg");
    assert_eq!(ims[0].tags, vec!["a".to_string(), "b".to_string()]);
    assert_eq!(ims[0].notes, "hi \"x\"");
    assert!(ref_viewer::json::read_records(&serde_json::Value::Null).is_empty());
    let list = serde_json::Value::Array(vec![
        serde_json::Value::String("p".to_string()),
        serde_json::Value::Bool(true),
        serde_json::Value::String("q".to_string()),
    ]);
    assert_eq!(ref_viewer::json::read_strings(&list), vec!["p".to_string(), "q".to_string()]);
    assert!(ref_viewer::json::read_strings(&serde_json::Value::String("p".to_string())).is_empty());
}

#[test]
fn buckets_keep_insertion_order_and_drop_when_empty() {
    let mut data = sample();
    data.add_tag(&idx(0, 3), "new").unwrap();
    data.add_tag(&idx(0, 0), "new").unwrap();
    assert_eq!(data.taglist.get("new").unwrap(), &vec![idx(0, 3), idx(0, 0)]);
    data.add_tag(&idx(0, 3), "new").unwrap();
    assert_eq!(data.taglist.get("new").unwrap(), &vec![idx(0, 3), idx(0, 0)]);
    data.del_tag(&idx(0, 3), "new").unwrap();
    assert_eq!(data.taglist.get("new").unwrap(), &vec![idx(0, 0)]);
    data.del_tag(&idx(0, 3), "new").unwrap();
    assert_eq!(data.taglist.get("new").unwrap(), &vec![idx(0, 0)]);
    data.del_tag(&idx(0, 0), "new").unwrap();
    assert!(data.taglist.get("new").is_none());
}
