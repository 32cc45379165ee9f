//! The scan of the accessibility tree, and the labels of what it finds.

use atspi::Role;
use omakeys::active_monitor::FocusedWindow;
use omakeys::app_scan::{AppScan, ScanQuery, ScanReply};
use omakeys::atspi_scan::{
    categorize, match_window, Category, Element, Query, Reply, Walk, MAX_DEPTH, ROLE_LINK,
    ROLE_PUSH_BUTTON, ROLE_TERMINAL,
};
use omakeys::grid::{hint_alphabet, is_hint_key};
use omakeys::hints::{assign_labels, overlap_ratio, HintTarget, Source};
use omakeys::units::SUBPIXELS;
use omakeys::vision::regions::VisionRegion;

const PX: i64 = SUBPIXELS;

#[test]
fn roles_are_categorized_as_the_protocol_numbers_them() {
    let buttons = [
        Role::Button,
        Role::ToggleButton,
        Role::RadioButton,
        Role::RadioMenuItem,
        Role::CheckBox,
        Role::CheckMenuItem,
        Role::ComboBox,
        Role::Link,
        Role::MenuItem,
        Role::TearoffMenuItem,
        Role::PushButtonMenu,
        Role::Slider,
        Role::SpinButton,
    ];
    for role in buttons {
        assert_eq!(categorize(role as u32), Some(Category::Button), "{role:?}");
    }
    for role in [Role::Entry, Role::PasswordText] {
        assert_eq!(categorize(role as u32), Some(Category::TextField), "{role:?}");
    }
    for role in [Role::ScrollPane, Role::Viewport, Role::DocumentFrame, Role::ScrollBar] {
        assert_eq!(categorize(role as u32), Some(Category::Scrollable), "{role:?}");
    }
    assert_eq!(categorize(Role::Terminal as u32), Some(Category::Terminal));
    for role in [Role::Invalid, Role::Frame, Role::Label, Role::Panel, Role::Text, Role::Image] {
        assert_eq!(categorize(role as u32), None, "{role:?}");
    }
}

fn window(title: &str, x: i64, y: i64) -> FocusedWindow {
    FocusedWindow { title: title.to_string(), x: x * PX, y: y * PX, w: 800 * PX, h: 600 * PX }
}

#[test]
fn a_frame_belongs_to_the_first_window_of_its_title() {
    let windows = vec![window("a", 0, 0), window("b", 1, 0), window("b", 2, 0)];
    assert_eq!(match_window(&windows, &"b".to_string()), Some(1));
    assert_eq!(match_window(&windows, &"c".to_string()), None);
}

/// An object of a made-up tree.
struct Object {
    showing: Option<bool>,
    role: Option<u32>,
    extents: Option<(i32, i32, i32, i32)>,
    name: Option<&'static str>,
    children: Option<Vec<usize>>,
}

fn plain(children: Vec<usize>) -> Object {
    Object {
        showing: Some(true),
        role: Some(Role::Panel as u32),
        extents: None,
        name: None,
        children: Some(children),
    }
}

fn button(name: &'static str, x: i32, y: i32, children: Vec<usize>) -> Object {
    Object {
        showing: Some(true),
        role: Some(ROLE_PUSH_BUTTON),
        extents: Some((x, y, 40, 20)),
        name: Some(name),
        children: Some(children),
    }
}

fn answer(tree: &[Object], query: Query) -> Reply {
    match query {
        Query::State(i) => Reply::State(tree[i].showing),
        Query::Role(i) => Reply::Role(tree[i].role),
        Query::Extents(i) => Reply::Extents(tree[i].extents),
        Query::Name(i) => Reply::Name(tree[i].name.map(|n| n.to_string())),
        Query::Children(i) => Reply::Children(tree[i].children.clone()),
        Query::Done => unreachable!(),
    }
}

fn walk(tree: &[Object]) -> Vec<Element> {
    let mut w = Walk::new(0, 100 * PX, 200 * PX);
    while w.next() != Query::Done {
        let reply = answer(tree, w.next());
        w.reply(reply);
    }
    w.found
}

fn names(found: &[Element]) -> Vec<&str> {
    found.iter().map(|e| e.name.as_str()).collect()
}

#[test]
fn a_walk_visits_a_tree_from_the_front() {
    let tree = vec![
        plain(vec![1, 4]),
        button("first", 1, 2, vec![2, 3]),
        button("second", 3, 4, vec![]),
        button("third", 5, 6, vec![]),
        button("fourth", 7, 8, vec![]),
    ];
    let found = walk(&tree);
    assert_eq!(names(&found), vec!["first", "second", "third", "fourth"]);
    assert_eq!((found[0].x, found[0].y), (101 * PX, 202 * PX));
    assert_eq!((found[0].w, found[0].h), (40 * PX, 20 * PX));
    assert_eq!(found[0].center(), (121 * PX, 212 * PX));
    assert_eq!(found[0].role, ROLE_PUSH_BUTTON);
    assert_eq!(found[0].category, Category::Button);
}

#[test]
fn a_walk_passes_over_what_does_not_answer() {
    let mut silent = button("silent", 1, 1, vec![6]);
    silent.showing = None;
    let mut hidden = button("hidden", 2, 2, vec![6]);
    hidden.showing = Some(false);
    let unplaced = button("unplaced", 0, 0, vec![]);
    let mut flat = button("flat", 9, 9, vec![]);
    flat.extents = Some((9, 9, 40, 0));
    let mut nameless = button("", 3, 0, vec![]);
    nameless.name = None;
    nameless.children = None;
    let below = button("below", 8, 8, vec![]);
    let mut roleless = button("roleless", 4, 4, vec![6]);
    roleless.role = None;
    let tree =
        vec![plain(vec![1, 2, 3, 4, 5, 7]), silent, hidden, unplaced, flat, nameless, below, roleless];
    assert_eq!(names(&walk(&tree)), vec!["below", "", "below"]);
}

#[test]
fn a_walk_ends_at_its_greatest_depth() {
    let mut tree: Vec<Object> = (0..60).map(|i| button("deep", 1, 1, vec![i + 1])).collect();
    tree.push(button("deepest", 1, 1, vec![]));
    assert_eq!(walk(&tree).len(), MAX_DEPTH + 1);
}

#[test]
fn an_answer_to_another_question_changes_nothing() {
    let mut w = Walk::new(3, 0, 0);
    w.reply(Reply::Role(Some(ROLE_LINK)));
    w.reply(Reply::Children(Some(vec![1, 2])));
    assert_eq!(w.next(), Query::State(3));
    w.reply(Reply::State(Some(true)));
    assert_eq!(w.next(), Query::Role(3));
}

#[test]
fn a_scan_walks_over_the_frames_of_its_windows() {
    let windows = vec![window("editor", 10, 20)];
    let tree = vec![button("save", 1, 1, vec![])];
    let mut scan = AppScan::new();
    assert_eq!(scan.next(), ScanQuery::Apps);
    scan.reply(&windows, ScanReply::Apps(Some(vec![7, 8, 9])));
    assert_eq!(scan.next(), ScanQuery::Frames(7));
    scan.reply(&windows, ScanReply::Frames(None));
    assert_eq!(scan.next(), ScanQuery::Frames(8));
    scan.reply(&windows, ScanReply::Frames(Some(vec![4, 5, 0])));
    assert_eq!(scan.next(), ScanQuery::Title(4));
    scan.reply(&windows, ScanReply::Title(Some("browser".to_string())));
    assert_eq!(scan.next(), ScanQuery::Title(5));
    scan.reply(&windows, ScanReply::Gone);
    assert_eq!(scan.next(), ScanQuery::Title(0));
    scan.reply(&windows, ScanReply::Title(Some("editor".to_string())));
    while let ScanQuery::Object(query) = scan.next() {
        scan.reply(&windows, ScanReply::Object(answer(&tree, query)));
    }
    assert_eq!(scan.next(), ScanQuery::Frames(9));
    scan.reply(&windows, ScanReply::Frames(Some(vec![])));
    assert_eq!(scan.next(), ScanQuery::Done);
    assert_eq!(names(&scan.found), vec!["save"]);
    assert_eq!((scan.found[0].x, scan.found[0].y), (11 * PX, 21 * PX));
}

#[test]
fn a_slow_application_is_left_with_what_was_found_in_it() {
    let windows = vec![window("", 0, 0)];
    let tree = vec![button("kept", 1, 1, vec![0])];
    let mut scan = AppScan::new();
    scan.reply(&windows, ScanReply::Apps(Some(vec![1, 2])));
    scan.reply(&windows, ScanReply::Frames(Some(vec![0, 0])));
    // A frame without a name has the empty title.
    scan.reply(&windows, ScanReply::Title(None));
    for _ in 0..5 {
        if let ScanQuery::Object(query) = scan.next() {
            scan.reply(&windows, ScanReply::Object(answer(&tree, query)));
        }
    }
    scan.reply(&windows, ScanReply::TimedOut);
    assert_eq!(scan.next(), ScanQuery::Frames(2));
    assert_eq!(names(&scan.found), vec!["kept"]);
    scan.reply(&windows, ScanReply::TimedOut);
    assert_eq!(scan.next(), ScanQuery::Done);
    scan.reply(&windows, ScanReply::TimedOut);
    assert_eq!(names(&scan.found), vec!["kept"]);
}

#[test]
fn a_desktop_without_applications_is_scanned_at_once() {
    let mut scan = AppScan::new();
    scan.reply(&[], ScanReply::TimedOut);
    assert_eq!(scan.next(), ScanQuery::Apps);
    scan.reply(&[], ScanReply::Apps(None));
    assert_eq!(scan.next(), ScanQuery::Done);
}

fn element(x: i64, y: i64, w: i64, h: i64) -> Element {
    Element {
        role: ROLE_TERMINAL,
        category: Category::Terminal,
        name: "e".to_string(),
        x: x * PX,
        y: y * PX,
        w: w * PX,
        h: h * PX,
    }
}

fn region(x: i64, y: i64, w: i64, h: i64) -> VisionRegion {
    VisionRegion { x: x * PX, y: y * PX, w: w * PX, h: h * PX }
}

fn labels(targets: &[HintTarget]) -> Vec<&str> {
    targets.iter().map(|t| t.label.as_str()).collect()
}

#[test]
fn few_targets_have_labels_of_one_key() {
    let targets = assign_labels(vec![element(0, 0, 10, 10)], vec![region(50, 0, 10, 10)]);
    let alphabet = hint_alphabet();
    assert_eq!(labels(&targets), vec![alphabet[0].to_string(), alphabet[1].to_string()]);
    assert!(matches!(targets[0].source, Source::Atspi(_)));
    assert!(matches!(targets[1].source, Source::Vision(_)));
    assert_eq!(targets[0].category(), Category::Terminal);
    assert_eq!(targets[1].category(), Category::Other);
    assert_eq!(targets[1].geometry(), (50 * PX, 0, 10 * PX, 10 * PX));
    assert_eq!(targets[1].center(), (55 * PX, 5 * PX));
}

#[test]
fn more_targets_than_keys_have_labels_of_two_keys() {
    let elements: Vec<Element> = (0..31).map(|i| element(20 * i, 0, 10, 10)).collect();
    let targets = assign_labels(elements, vec![]);
    let alphabet = hint_alphabet();
    assert!(targets.iter().all(|t| t.label.chars().count() == 2));
    assert!(targets.iter().all(|t| t.label.chars().all(is_hint_key)));
    assert_eq!(targets[0].label, format!("{}{}", alphabet[0], alphabet[0]));
    assert_eq!(targets[30].label, format!("{}{}", alphabet[1], alphabet[0]));
    let mut seen = labels(&targets);
    seen.sort();
    seen.dedup();
    assert_eq!(seen.len(), 31);
}

#[test]
fn a_full_alphabet_still_has_labels_of_one_key() {
    let elements: Vec<Element> = (0..30).map(|i| element(20 * i, 0, 10, 10)).collect();
    let targets = assign_labels(elements, vec![]);
    assert!(targets.iter().all(|t| t.label.chars().count() == 1));
}

#[test]
fn targets_beyond_all_labels_are_dropped() {
    let elements: Vec<Element> = (0..950).map(|i| element(20 * i, 0, 10, 10)).collect();
    assert_eq!(assign_labels(elements, vec![]).len(), 900);
}

#[test]
fn a_region_over_an_element_is_dropped() {
    let inside = region(2, 2, 4, 4);
    let half = region(5, 0, 10, 10);
    let mostly = region(4, 0, 10, 10);
    let targets = assign_labels(vec![element(0, 0, 10, 10)], vec![inside, half, mostly]);
    let kept: Vec<(i64, i64, i64, i64)> = targets.iter().map(|t| t.geometry()).collect();
    assert_eq!(kept, vec![(0, 0, 10 * PX, 10 * PX), (5 * PX, 0, 10 * PX, 10 * PX)]);
}

#[test]
fn overlap_is_measured_by_the_smaller_box() {
    let o = overlap_ratio((0, 0, 10, 10), (5, 0, 100, 10));
    assert_eq!((o.part, o.whole), (50, 100));
    assert!(!o.exceeds_half());
    let o = overlap_ratio((0, 0, 10, 10), (4, 0, 100, 10));
    assert!(o.exceeds_half());
    let o = overlap_ratio((0, 0, 0, 10), (0, 0, 10, 10));
    assert!(!o.exceeds_half());
}
