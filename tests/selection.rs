use ref_viewer::address::Index;
use ref_viewer::catalog::{Data, FolderRead};
use ref_viewer::shared::{parse_query, Action, Gallery, Key, Shared, Textbox};

fn idx(folder: usize, image: usize) -> Index {
    Index { folder, image }
}

fn folder(path: &str, files: &[(&str, &str, &str, &str)]) -> FolderRead {
    let recs: Vec<String> = files
        .iter()
        .map(|(f, a, l, t)| {
            format!(
                "{{\"SourceFile\":\"{}\",\"Artist\":{:?},\"PageName\":{:?},\"ImageDescription\":{:?}}}",
                f, a, l, t
            )
        })
        .collect();
    FolderRead { path: path.to_string(), output: format!("[{}]", recs.join(",")) }
}

#[test]
fn navigation_wraps_and_skips_empty_folders() {
    let results = vec![vec![idx(0, 0), idx(0, 1)], vec![], vec![idx(2, 0)]];
    let shared = Shared::new(results, idx(0, 0));
    assert_eq!(shared.next_result(&idx(0, 0)), Some(idx(0, 1)));
    assert_eq!(shared.next_result(&idx(0, 1)), Some(idx(2, 0)));
    assert_eq!(shared.next_result(&idx(2, 0)), Some(idx(0, 0)));
    assert_eq!(shared.prev_result(&idx(0, 0)), Some(idx(2, 0)));
    assert_eq!(shared.prev_result(&idx(2, 0)), Some(idx(0, 1)));
    assert_eq!(shared.prev_result(&idx(0, 1)), Some(idx(0, 0)));
    assert_eq!(shared.next_result(&idx(1, 0)), None);
    assert_eq!(shared.prev_result(&idx(7, 0)), None);
    assert_eq!(shared.get_result_size(), 3);
}

#[test]
fn navigation_single_result_returns_itself() {
    let shared = Shared::new(vec![vec![], vec![idx(1, 4)]], idx(1, 4));
    assert_eq!(shared.next_result(&idx(1, 4)), Some(idx(1, 4)));
    assert_eq!(shared.prev_result(&idx(1, 4)), Some(idx(1, 4)));
}

fn five() -> Data {
    let mut data = Data::new();
    data.open_folders(
        vec![folder(
            "/p",
            &[
                ("/p/0.jpg", "[\"ann\"]", "[\"l1\"]", "[\"cat\"]"),
                ("/p/1.jpg", "[\"ann\"]", "[]", "[\"cat\",\"dog\"]"),
                ("/p/2.jpg", "[\"bob\"]", "[\"l1\"]", "[\"dog\"]"),
                ("/p/3.jpg", "[]", "[]", "[]"),
                ("/p/4.jpg", "[]", "[]", "[]"),
            ],
        )],
        None,
    );
    data
}

#[test]
fn range_selection_is_direction_normalized() {
    let data = five();
    let mut shared = Shared::new(data.build_vector(vec![], vec![]), idx(0, 0));
    shared.set_selected(&data, &idx(0, 2), &idx(0, 0));
    assert_eq!(shared.get_selected(), &vec![idx(0, 0), idx(0, 1), idx(0, 2)]);
    shared.set_selected(&data, &idx(0, 3), &idx(0, 3));
    assert_eq!(shared.get_selected(), &vec![idx(0, 3)]);
    shared.set_selected(&data, &idx(0, 1), &idx(0, 9));
    assert_eq!(shared.get_selected(), &vec![idx(0, 3)]);
}

#[test]
fn aggregated_tags_are_counted_and_sorted() {
    let data = five();
    let mut shared = Shared::new(data.build_vector(vec![], vec![]), idx(0, 0));
    shared.set_selected(&data, &idx(0, 0), &idx(0, 2));
    let t = shared.get_selected_tags();
    assert_eq!(t[0], vec![("ann".to_string(), 2), ("bob".to_string(), 1)]);
    assert_eq!(t[1], vec![("l1".to_string(), 2)]);
    assert_eq!(t[2], vec![("dog".to_string(), 2), ("cat".to_string(), 2)]);
    shared.add_selected(&data, &idx(0, 1));
    let t = shared.get_selected_tags();
    assert_eq!(t[0], vec![("ann".to_string(), 3), ("bob".to_string(), 1)]);
    assert_eq!(t[2], vec![("dog".to_string(), 3), ("cat".to_string(), 3)]);
    assert_eq!(shared.get_selected().len(), 4);
}

#[test]
fn update_search_replaces_main_image() {
    let data = five();
    let mut shared = Shared::new(data.build_vector(vec![], vec![]), idx(0, 0));
    shared.search = "dog".to_string();
    shared.update_search(&data);
    assert_eq!(shared.main_img, idx(0, 1));
    assert_eq!(shared.get_selected(), &vec![idx(0, 1)]);
    shared.search = "zebra".to_string();
    shared.update_search(&data);
    assert_eq!(shared.main_img, idx(0, 0));
    assert_eq!(shared.get_result_size(), 0);
}

#[test]
fn add_and_remove_search_words() {
    let data = five();
    let mut shared = Shared::new(data.build_vector(vec![], vec![]), idx(0, 0));
    shared.add_to_search(&data, "cat");
    assert_eq!(shared.search, " cat");
    assert_eq!(shared.get_result_size(), 2);
    shared.add_to_search(&data, "dog");
    assert_eq!(shared.search, " cat dog");
    assert_eq!(shared.get_results(), &vec![vec![idx(0, 1)]]);
    shared.add_to_search(&data, "ca");
    assert_eq!(shared.search, " cat dog");
    shared.rem_from_search(&data, "cat");
    assert_eq!(shared.search, " dog");
    assert_eq!(shared.get_result_size(), 2);
}

#[test]
fn query_words_are_split() {
    let (inc, exc) = parse_query("  cat\t-draft  dog -  ");
    assert_eq!(inc, vec!["cat".to_string(), "dog".to_string()]);
    assert_eq!(exc, vec!["draft".to_string(), "".to_string()]);
}

#[test]
fn actions_edit_every_selected_image() {
    let mut data = five();
    let mut shared = Shared::new(data.build_vector(vec![], vec![]), idx(0, 0));
    shared.set_selected(&data, &idx(0, 2), &idx(0, 3));
    let cmds = shared.apply_action(&mut data, &Action::TagAdd("Sea".to_string()));
    assert_eq!(cmds.len(), 2);
    assert!(cmds[0].ends_with("-ImageDescription=[\"dog\",\"sea\"]\n/p/2.jpg\n-execute\n"));
    assert!(cmds[1].ends_with("-ImageDescription=[\"sea\"]\n/p/3.jpg\n-execute\n"));
    assert_eq!(shared.get_selected_tags()[2], vec![("sea".to_string(), 2), ("dog".to_string(), 1)]);
    assert_eq!(data.folders[0].images[4].tags, Vec::<String>::new());
    let cmds = shared.apply_action(&mut data, &Action::SearchAdd("sea".to_string()));
    assert!(cmds.is_empty());
    assert_eq!(shared.search, " sea");
    assert_eq!(shared.get_results(), &vec![vec![idx(0, 2), idx(0, 3)]]);
    assert_eq!(shared.get_selected(), &vec![idx(0, 2)]);
    shared.apply_action(&mut data, &Action::TagDel("sea".to_string()));
    assert_eq!(data.folders[0].images[2].tags, vec!["dog".to_string()]);
    assert_eq!(data.folders[0].images[3].tags, vec!["sea".to_string()]);
    assert_eq!(shared.get_results(), &vec![vec![idx(0, 3)]]);
    assert_eq!(shared.main_img, idx(0, 3));
    shared.apply_action(&mut data, &Action::SearchDel("sea".to_string()));
    assert_eq!(shared.search, " ");
    assert_eq!(shared.get_result_size(), 5);
}

#[test]
fn keys_move_and_switch_views() {
    let data = five();
    let mut shared = Shared::new(data.build_vector(vec![], vec![]), idx(0, 0));
    shared.frame_index = 7;
    shared.key_event = Some(Key::ArrowDown);
    assert!(!shared.handle_inputs(&data));
    assert_eq!(shared.main_img, idx(0, 1));
    assert_eq!(shared.frame_index, 0);
    assert_eq!(shared.get_selected(), &vec![idx(0, 1)]);
    assert!(shared.key_event.is_none());
    shared.key_event = Some(Key::ArrowLeft);
    shared.handle_inputs(&data);
    shared.key_event = Some(Key::ArrowUp);
    shared.handle_inputs(&data);
    assert_eq!(shared.main_img, idx(0, 4));

    shared.active_input = Some(Textbox::Tag);
    shared.key_event = Some(Key::Escape);
    assert!(!shared.handle_inputs(&data));
    assert!(shared.active_input.is_none());
    assert_eq!(shared.gallery_type, Gallery::LeftBar);
    shared.key_event = Some(Key::Escape);
    assert!(!shared.handle_inputs(&data));
    assert_eq!(shared.gallery_type, Gallery::Full);
    shared.set_selected(&data, &idx(0, 0), &idx(0, 2));
    shared.key_event = Some(Key::Enter);
    assert!(!shared.handle_inputs(&data));
    assert_eq!(shared.gallery_type, Gallery::LeftBar);
    assert_eq!(shared.get_selected(), &vec![idx(0, 4)]);
    shared.gallery_type = Gallery::Full;
    shared.key_event = Some(Key::Escape);
    assert!(shared.handle_inputs(&data));
    assert!(!shared.handle_inputs(&data));
}

#[test]
fn update_data_opens_and_selects() {
    let mut data = Data::new();
    let mut shared = Shared::new(vec![], idx(0, 0));
    shared.search = "old".to_string();
    let reads = vec![folder("/p", &[("/p/0.jpg", "[]", "[]", "[]"), ("/p/1.jpg", "[]", "[]", "[\"x\"]")])];
    shared.update_data(&mut data, reads, Some(("/p".to_string(), "/p/1.jpg".to_string())));
    assert_eq!(shared.main_img, idx(0, 1));
    assert_eq!(shared.gallery_type, Gallery::LeftBar);
    assert_eq!(shared.search, "");
    assert_eq!(shared.get_result_size(), 2);
    assert_eq!(shared.get_selected(), &vec![idx(0, 1)]);
    assert_eq!(shared.get_selected_tags()[2], vec![("x".to_string(), 1)]);
    shared.update_data(&mut data, vec![folder("/q", &[("/q/a.jpg", "[]", "[]", "[]")])], None);
    assert_eq!(shared.main_img, idx(0, 0));
    assert_eq!(shared.gallery_type, Gallery::Full);
    assert_eq!(data.folders.len(), 2);
    assert_eq!(shared.get_result_size(), 3);
}

#[test]
fn action_commands_follow_selection_order() {
    let mut data = five();
    let mut shared = Shared::new(data.build_vector(vec![], vec![]), idx(0, 0));
    shared.set_selected(&data, &idx(0, 4), &idx(0, 4));
    shared.add_selected(&data, &idx(9, 9));
    shared.add_selected(&data, &idx(0, 3));
    shared.add_selected(&data, &idx(0, 4));
    let cmds = shared.apply_action(&mut data, &Action::ArtistAdd("zed".to_string()));
    assert_eq!(cmds.len(), 3);
    assert_eq!(cmds[0], "-overwrite_original\n-m\n-Artist=[\"zed\"]\n/p/4.jpg\n-execute\n");
    assert_eq!(cmds[1], "-overwrite_original\n-m\n-Artist=[\"zed\"]\n/p/3.jpg\n-execute\n");
    assert_eq!(cmds[2], cmds[0]);
}

#[test]
fn excluding_twice_in_text_finds_the_same() {
    let data = five();
    let mut once = Shared::new(data.build_vector(vec![], vec![]), idx(0, 0));
    once.search = "cat -dog".to_string();
    once.update_search(&data);
    let mut twice = Shared::new(data.build_vector(vec![], vec![]), idx(0, 0));
    twice.search = "cat -dog -dog".to_string();
    twice.update_search(&data);
    assert_eq!(once.get_results(), twice.get_results());
    assert_eq!(once.get_results(), &vec![vec![idx(0, 0)]]);
    assert_eq!(once.get_result_size(), twice.get_result_size());
}

#[test]
fn enter_keeps_other_state() {
    let data = five();
    let mut shared = Shared::new(data.build_vector(vec![], vec![]), idx(0, 2));
    shared.gallery_type = Gallery::Full;
    shared.frame_index = 3;
    shared.search = "".to_string();
    shared.key_event = Some(Key::Enter);
    shared.handle_inputs(&data);
    assert_eq!(shared.frame_index, 3);
    assert_eq!(shared.gallery_type, Gallery::LeftBar);
    assert_eq!(shared.main_img, idx(0, 2));
    assert_eq!(shared.get_selected(), &vec![idx(0, 2)]);
    assert_eq!(shared.get_result_size(), 5);
}

#[test]
fn excluding_twice_with_spaces_in_value() {
    let data = five();
    let mut once = Shared::new(data.build_vector(vec![], vec![]), idx(0, 0));
    once.search = "ann -dog cat".to_string();
    once.update_search(&data);
    let mut twice = Shared::new(data.build_vector(vec![], vec![]), idx(0, 0));
    twice.search = "ann -dog cat -dog cat".to_string();
    twice.update_search(&data);
    assert_eq!(once.get_results(), twice.get_results());
    assert_eq!(once.get_results(), &vec![vec![idx(0, 0)]]);
}
