use luaux::config::Config;
use luaux_lsp::project::Project;
use luaux_lsp::walk::{visit, Listed, Visit, Walk};
use luaux_lsp::workspace::{Seen, Workspace};

fn project() -> Project {
    Project::new(Config::parse("[factory]\ncreate = \"create\"\n").expect("config"), None)
}

/// `create` has to be in scope or the backend refuses the whole file — the
/// same shape every real `.luaux` has after its import.
const CARD: &str =
    "local create = nil :: any\nlocal function Card()\n  return <Frame/>\nend\nreturn Card\n";

fn seen(mtime: Option<u128>, text: &str) -> Seen {
    Seen {
        source: "src/Card.luaux".to_string(),
        build: "build/Card.luau".to_string(),
        mtime,
        text: Some(text.to_string()),
    }
}

fn nothing_open() -> Vec<String> {
    Vec::new()
}

#[test]
fn a_luaux_nobody_opened_is_found_and_compiled() {
    let mut workspace = Workspace::new();
    let changes = workspace.scan(&project(), &vec![seen(Some(1), CARD)], &nothing_open(), false);

    assert_eq!(changes.seen, 1);
    assert_eq!(changes.updated, ["src/Card.luaux"]);
    assert_eq!(changes.compiled, ["src/Card.luaux"]);

    let module = workspace.get("src/Card.luaux").expect("module");
    assert_eq!(module.build, "build/Card.luau");
    assert!(module.output.contains("Card"), "{}", module.output);
}

/// The editor's buffer is fresher than the file. Compiling from disk here
/// would hand the child the *saved* text and undo the point of the exercise.
#[test]
fn a_file_open_in_the_editor_is_left_to_the_editor() {
    let open = vec!["src/Card.luaux".to_string()];
    let mut workspace = Workspace::new();
    assert!(!workspace.wants("src/Card.luaux", Some(1), &open));
    let changes = workspace.scan(&project(), &vec![seen(Some(1), CARD)], &open, false);

    assert_eq!(changes.seen, 1);
    assert!(changes.updated.is_empty(), "an open document was compiled from disk");
}

#[test]
fn a_module_that_was_opened_is_dropped_but_not_removed() {
    let mut workspace = Workspace::new();
    workspace.scan(&project(), &vec![seen(Some(1), CARD)], &nothing_open(), false);

    let open = vec!["src/Card.luaux".to_string()];
    let changes = workspace.scan(&project(), &vec![seen(Some(1), CARD)], &open, false);
    assert!(changes.removed.is_empty());
    assert!(workspace.get("src/Card.luaux").is_none());
}

#[test]
fn an_unchanged_file_is_not_recompiled() {
    let mut workspace = Workspace::new();
    let scan = |workspace: &mut Workspace, mtime, text| {
        workspace.scan(&project(), &vec![seen(mtime, text)], &nothing_open(), false)
    };
    assert_eq!(scan(&mut workspace, Some(1), CARD).updated.len(), 1);
    // Same mtime, same text: nothing to tell the child.
    assert!(!workspace.wants("src/Card.luaux", Some(1), &nothing_open()));
    let again = scan(&mut workspace, Some(1), "local other = 1\n");
    assert!(again.updated.is_empty() && again.compiled.is_empty());
    // Touched, but compiled to the same.
    let touched = scan(&mut workspace, Some(2), CARD);
    assert!(touched.updated.is_empty());
    assert_eq!(touched.compiled.len(), 1);
    // A time that cannot be told is a reason to compile.
    assert!(workspace.wants("src/Card.luaux", None, &nothing_open()));
}

#[test]
fn a_broken_dependency_keeps_its_last_output() {
    let mut workspace = Workspace::new();
    workspace.scan(&project(), &vec![seen(Some(1), CARD)], &nothing_open(), false);
    let before = workspace.get("src/Card.luaux").expect("module").output.clone();

    let broken = seen(Some(2), "local create = f()\nlocal e = <Frame\n");
    let changes = workspace.scan(&project(), &vec![broken], &nothing_open(), false);
    assert!(changes.updated.is_empty() && changes.removed.is_empty());
    let module = workspace.get("src/Card.luaux").expect("module");
    assert_eq!(module.output, before);
    // Still stale, so the next scan tries again.
    assert_eq!(module.mtime, Some(1));

    let mut unreadable = seen(Some(3), "");
    unreadable.text = None;
    workspace.scan(&project(), &vec![unreadable], &nothing_open(), false);
    assert_eq!(workspace.get("src/Card.luaux").expect("module").output, before);
}

#[test]
fn a_deleted_luaux_is_reported_as_removed() {
    let mut workspace = Workspace::new();
    workspace.scan(&project(), &vec![seen(Some(1), CARD)], &nothing_open(), false);

    let changes = workspace.scan(&project(), &Vec::new(), &nothing_open(), true);

    assert_eq!(changes.removed, ["src/Card.luaux"]);
    assert!(changes.truncated);
    assert_eq!(workspace.modules().len(), 0);
}

#[test]
fn a_warning_is_given_once_until_cleared() {
    let mut workspace = Workspace::new();
    assert!(workspace.warn_once());
    assert!(!workspace.warn_once());
    workspace.clear();
    assert!(workspace.warn_once());
}

fn file(directory: &str, name: &str) -> Listed {
    Listed {
        name: name.to_string(),
        path: format!("{directory}/{name}"),
        directory: false,
        link: false,
    }
}

fn folder(directory: &str, name: &str) -> Listed {
    Listed { directory: true, ..file(directory, name) }
}

/// Walks a tree given as what is in each directory.
fn walk(tree: &[(&str, Vec<Listed>)], root: &str, out_root: Option<&str>) -> (Vec<String>, bool) {
    let list = |path: &str| {
        let found = tree.iter().find(|(at, _)| *at == path);
        found.map_or(Vec::new(), |(_, entries)| {
            entries
                .iter()
                .map(|entry| Listed {
                    name: entry.name.clone(),
                    path: entry.path.clone(),
                    directory: entry.directory,
                    link: entry.link,
                })
                .collect()
        })
    };
    let mut walk = Walk::new(out_root.map(str::to_string));
    if !walk.is_out_root(root) {
        walk.enter(list(root));
    }
    while let Some(directory) = walk.next() {
        walk.enter(list(&directory));
    }
    walk.finish()
}

/// Generated `.luau` under `build/` is not input, and a project whose output
/// lands beside its input must not walk into its own results.
#[test]
fn the_build_output_is_not_walked() {
    let tree = [
        (".", vec![folder(".", "src"), folder(".", "build")]),
        ("./src", vec![file("./src", "Card.luaux")]),
        ("./build", vec![file("./build", "Stray.luaux")]),
    ];
    assert_eq!(walk(&tree, ".", Some("./build")), (vec!["./src/Card.luaux".to_string()], false));
    assert_eq!(walk(&tree, "./build", Some("./build")), (vec![], false));
}

#[test]
fn package_trees_are_skipped() {
    let tree = [
        (
            "src",
            vec![
                file("src", "Card.luaux"),
                folder("src", "Packages"),
                folder("src", "node_modules"),
                folder("src", ".git"),
            ],
        ),
        ("src/Packages", vec![file("src/Packages", "Vendor.luaux")]),
        ("src/node_modules", vec![file("src/node_modules", "Vendor.luaux")]),
        ("src/.git", vec![file("src/.git", "Vendor.luaux")]),
    ];
    assert_eq!(walk(&tree, "src", None).0, ["src/Card.luaux"]);
}

#[test]
fn files_are_found_depth_first_in_the_order_listed() {
    let tree = [
        ("a", vec![file("a", "1.luaux"), folder("a", "b"), file("a", "4.luaux")]),
        ("a/b", vec![file("a/b", "2.luaux"), folder("a/b", "c"), file("a/b", "x.luau")]),
        ("a/b/c", vec![file("a/b/c", "3.luaux")]),
    ];
    assert_eq!(
        walk(&tree, "a", None),
        (
            ["a/1.luaux", "a/b/2.luaux", "a/b/c/3.luaux", "a/4.luaux"].map(String::from).to_vec(),
            false
        )
    );
}

#[test]
fn a_walk_stops_once_it_has_found_enough() {
    let many: Vec<Listed> = (0..4096).map(|n| file("a/b", &format!("{n}.luaux"))).collect();
    let tree = [
        ("a", vec![folder("a", "b"), file("a", "late.luaux"), folder("a", "c")]),
        ("a/b", many),
    ];
    let (found, truncated) = walk(&tree, "a", None);
    assert_eq!((found.len(), truncated), (4096, true));
}

#[test]
fn an_entry_is_judged_by_its_name() {
    assert_eq!(visit(&file("a", "Card.luaux")), Visit::Take);
    assert_eq!(visit(&file("a", ".luaux")), Visit::Pass);
    assert_eq!(visit(&file("a", "Card.luau")), Visit::Pass);
    assert_eq!(visit(&folder("a", "src.luaux")), Visit::Descend);
    assert_eq!(visit(&Listed { link: true, ..folder("a", "src") }), Visit::Pass);
    assert_eq!(visit(&folder("a", "dist")), Visit::Pass);
}

/// A file that cannot be handed to the compiler keeps what it last came to.
#[test]
fn a_comment_that_closes_inside_its_opening_does_not_drop_the_module() {
    let mut workspace = Workspace::new();
    workspace.scan(&project(), &vec![seen(Some(1), CARD)], &nothing_open(), false);
    let before = workspace.get("src/Card.luaux").expect("module").output.clone();

    let broken = CARD.replace("<Frame/>", "<Frame><!--></Frame>");
    let changes = workspace.scan(&project(), &vec![seen(Some(2), &broken)], &nothing_open(), false);
    assert_eq!(changes.seen, 1);
    assert_eq!(workspace.get("src/Card.luaux").expect("module").output, before);
}
