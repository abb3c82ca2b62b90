use dtm::interactive::{
    key_of, truncate_line, InteractiveError, Key, KeyOutcome, KeyPress, SelectionState, TreeSelection,
};
use dtm::package::FileKind;

#[test]
fn truncates_lines_to_terminal_width() {
    assert_eq!(truncate_line("abcdef", 6), "abcdef");
    assert_eq!(truncate_line("abcdef", 5), "ab...");
    assert_eq!(truncate_line("abcdef", 2), "ab");
    assert_eq!(truncate_line("配置文件", 7), "配置...");
}

fn tree() -> TreeSelection {
    let mut tree = TreeSelection::new("/root", FileKind::Directory, Some("/root/packages")).expect("tree");
    let nested = tree.add_node(0, "/root/nested".to_owned(), true);
    tree.add_node(nested, "/root/nested/two".to_owned(), false);
    tree.add_node(0, "/root/one".to_owned(), false);
    tree
}

/// An entry of a directory read by the scan, with what it holds.
struct Entry {
    path: &'static str,
    kind: FileKind,
    children: Vec<Entry>,
}

fn file(path: &'static str) -> Entry {
    Entry { path, kind: FileKind::File, children: Vec::new() }
}

fn dir(path: &'static str, children: Vec<Entry>) -> Entry {
    Entry { path, kind: FileKind::Directory, children }
}

/// Builds a tree the way the scan does: each entry, in name order, is kept
/// or passed over by `keeps`, and a kept directory is read before the next
/// entry.
fn scan(tree: &mut TreeSelection, parent: usize, entries: &[Entry]) {
    for entry in entries {
        if tree.keeps(entry.path, entry.kind) {
            let index = tree.add_node(parent, entry.path.to_owned(), entry.kind == FileKind::Directory);
            if entry.kind == FileKind::Directory {
                scan(tree, index, &entry.children);
            }
        }
    }
}

fn node_paths(tree: &TreeSelection) -> Vec<String> {
    (0..tree.node_count()).map(|i| tree.node(i).path.clone()).collect()
}

#[test]
fn directory_selection_is_three_state_and_supports_exclusion() {
    let mut tree = TreeSelection::new("/fixture/root", FileKind::Directory, None).expect("load tree");
    scan(
        &mut tree,
        0,
        &[dir("/fixture/root/nested", vec![file("/fixture/root/nested/two")]), file("/fixture/root/one")],
    );

    assert_eq!(tree.selection_state(0), SelectionState::Nothing);
    tree.toggle_all();
    assert_eq!(tree.selection_state(0), SelectionState::All);

    let nested_file = node_paths(&tree)
        .iter()
        .position(|path| path.ends_with("nested/two"))
        .expect("nested file");
    tree.toggle(nested_file);
    assert_eq!(tree.selection_state(0), SelectionState::Partial);
    assert_eq!(tree.selected_paths(), vec!["/fixture/root/one".to_owned()]);
}

#[test]
fn toggling_directory_selects_all_descendant_files() {
    let mut tree = TreeSelection::new("/fixture/root", FileKind::Directory, None).expect("load tree");
    scan(
        &mut tree,
        0,
        &[
            dir(
                "/fixture/root/nested",
                vec![
                    dir("/fixture/root/nested/deeper", vec![file("/fixture/root/nested/deeper/two")]),
                    file("/fixture/root/nested/one"),
                ],
            ),
            file("/fixture/root/outside"),
        ],
    );
    let nested = node_paths(&tree)
        .iter()
        .position(|path| path.ends_with("nested"))
        .expect("nested directory");

    tree.toggle(nested);
    assert_eq!(tree.selection_state(nested), SelectionState::All);
    assert_eq!(tree.selection_state(0), SelectionState::Partial);
    assert_eq!(
        tree.selected_paths(),
        vec!["/fixture/root/nested/deeper/two".to_owned(), "/fixture/root/nested/one".to_owned()]
    );
}

#[test]
fn scan_excludes_package_repository_inside_selected_root() {
    let root = "/fixture/root";
    let packages = "/fixture/root/packages";
    let mut tree = TreeSelection::new(root, FileKind::Directory, Some(packages)).expect("load tree");
    scan(
        &mut tree,
        0,
        &[
            file("/fixture/root/config"),
            dir("/fixture/root/packages", vec![file("/fixture/root/packages/managed")]),
        ],
    );
    assert!(node_paths(&tree).iter().any(|path| path.ends_with("config")));
    assert!(node_paths(&tree).iter().all(|path| !path.starts_with(packages)));
    assert!(matches!(
        TreeSelection::new(packages, FileKind::Directory, Some(packages)),
        Err(InteractiveError::ExcludedRoot(_))
    ));
}

#[test]
fn scan_omits_default_ignored_directories() {
    let root = "/fixture/node_modules";
    let mut tree =
        TreeSelection::new(root, FileKind::Directory, None).expect("explicit ignored root is accepted");
    scan(
        &mut tree,
        0,
        &[
            file("/fixture/node_modules/explicit.js"),
            dir(
                "/fixture/node_modules/node_modules",
                vec![dir(
                    "/fixture/node_modules/node_modules/pkg",
                    vec![file("/fixture/node_modules/node_modules/pkg/index.js")],
                )],
            ),
        ],
    );
    assert!(node_paths(&tree).iter().any(|path| path.ends_with("explicit.js")));
    assert!(node_paths(&tree).iter().all(|path| !path.ends_with("pkg/index.js")));
}

#[test]
fn selection_states_and_scan_rules() {
    let mut tree = tree();
    assert_eq!(tree.selection_state(0), SelectionState::Nothing);
    tree.toggle(2);
    assert_eq!(tree.selection_state(1), SelectionState::All);
    assert_eq!(tree.selection_state(0), SelectionState::Partial);
    tree.toggle(0);
    assert_eq!(tree.selection_state(0), SelectionState::All);
    tree.toggle_all();
    assert_eq!(tree.selection_state(0), SelectionState::Nothing);
    assert!(!tree.keeps("/root/packages/x", FileKind::File));
    assert!(!tree.keeps("/root/node_modules", FileKind::Directory));
    assert!(!tree.keeps("/root/link", FileKind::Symlink));
    assert!(tree.keeps("/root/file", FileKind::File));
    assert!(matches!(
        TreeSelection::new("/root/packages/a", FileKind::Directory, Some("/root/packages")),
        Err(InteractiveError::ExcludedRoot(_))
    ));
    assert!(matches!(
        TreeSelection::new("/root", FileKind::File, None),
        Err(InteractiveError::NotDirectory(_))
    ));
}

#[test]
fn keys_move_open_and_confirm() {
    let mut tree = tree();
    assert_eq!(tree.visible(), vec![0, 1, 3]);
    assert_eq!(tree.handle_key(Key::Down), KeyOutcome::Continue);
    assert_eq!(tree.cursor(), 1);
    tree.handle_key(Key::Right);
    assert_eq!(tree.visible(), vec![0, 1, 2, 3]);
    tree.handle_key(Key::Down);
    assert_eq!(tree.cursor(), 2);
    tree.handle_key(Key::Toggle);
    tree.handle_key(Key::Left);
    assert_eq!(tree.cursor(), 1);
    tree.handle_key(Key::Left);
    assert_eq!(tree.visible(), vec![0, 1, 3]);
    tree.handle_key(Key::Up);
    tree.handle_key(Key::Up);
    assert_eq!(tree.cursor(), 0);
    assert_eq!(tree.row(1), "  [x]   > nested");
    assert_eq!(tree.row(0), "> [-] v /root");
    assert_eq!(
        tree.handle_key(Key::Confirm),
        KeyOutcome::Confirm(vec!["/root/nested/two".to_owned()])
    );
    assert_eq!(tree.handle_key(Key::Cancel), KeyOutcome::Cancel);
    assert_eq!(tree.first_row(2), 0);
}

#[test]
fn key_presses_map_to_tree_keys() {
    let ch = |c: char| KeyPress::Char { c, control: false };
    assert_eq!(key_of(KeyPress::Char { c: 'c', control: true }), Key::Cancel);
    assert_eq!(key_of(ch('c')), Key::Other);
    assert_eq!(key_of(ch('q')), Key::Cancel);
    assert_eq!(key_of(KeyPress::Char { c: 'q', control: true }), Key::Cancel);
    assert_eq!(key_of(KeyPress::Esc), Key::Cancel);
    assert_eq!(key_of(KeyPress::Enter), Key::Confirm);
    assert_eq!(key_of(KeyPress::Up), Key::Up);
    assert_eq!(key_of(ch('k')), Key::Up);
    assert_eq!(key_of(ch('j')), Key::Down);
    assert_eq!(key_of(ch('h')), Key::Left);
    assert_eq!(key_of(KeyPress::Right), Key::Right);
    assert_eq!(key_of(ch('l')), Key::Right);
    assert_eq!(key_of(ch(' ')), Key::Toggle);
    assert_eq!(key_of(ch('a')), Key::ToggleAll);
    assert_eq!(key_of(KeyPress::Other), Key::Other);
}

#[test]
fn interactive_failures_read_as_their_messages() {
    assert_eq!(
        InteractiveError::NotDirectory("/h/file".to_owned()).message(),
        "interactive pack root is not a directory: /h/file"
    );
    assert_eq!(InteractiveError::Cancelled.message(), "interactive pack cancelled");
    let io = std::io::Error::new(std::io::ErrorKind::Other, "denied");
    assert_eq!(
        InteractiveError::ReadDirectory { path: "/h/d".to_owned(), source: io }.message(),
        "could not scan /h/d: denied"
    );
}
