use allium_collections::directory::{compare_names, short_name, GAMES_DIR};
use allium_collections::directory::Directory;
use allium_collections::entry::{game_records, App, Entry, Game, NewGame};
use allium_collections::gamelist::{
    pick_metadata, recognized_entries, Contents, DeclaredFolder, DeclaredGame, FoundFolder,
    FoundGame,
};
use allium_collections::paths::join_path;
use allium_collections::sync::Step;
use std::cmp::Ordering;

fn s(x: &str) -> String {
    x.to_string()
}

fn found_game(path: &str, name: &str, image: Option<&str>, exists: bool, image_exists: bool) -> FoundGame {
    FoundGame {
        game: DeclaredGame { path: s(path), name: s(name), image: image.map(s) },
        exists,
        image_exists,
    }
}

fn found_folder(path: &str, name: &str, exists: bool) -> FoundFolder {
    FoundFolder { folder: DeclaredFolder { path: s(path), name: s(name) }, exists }
}

fn scanned_game(path: &str) -> Entry {
    Entry::Game(Game {
        path: s(path),
        name: s("x"),
        full_name: s("x"),
        image: None,
        extension: s("zip"),
    })
}

#[test]
fn declared_missing_game_is_dropped() {
    let dir = Directory::new(s("/roms/NES"));
    let games = vec![
        found_game("mario.zip", "Mario", None, true, false),
        found_game("missing.zip", "Missing", None, false, false),
    ];
    let entries = dir.entries(Contents::Declared(vec![], games));
    assert_eq!(entries.len(), 1);
    match &entries[0] {
        Entry::Game(g) => {
            assert_eq!(g.path, "/roms/NES/mario.zip");
            assert_eq!(g.name, "Mario");
            assert_eq!(g.full_name, "Mario");
            assert_eq!(g.extension, "zip");
            assert_eq!(g.image, Some(None));
        }
        other => panic!("expected a game, got {:?}", other),
    }
}

#[test]
fn scan_keeps_only_recognized_children() {
    let classified = vec![Some(scanned_game("/roms/a.zip")), None, Some(scanned_game("/roms/b.zip"))];
    let dir = Directory::new(s("/roms"));
    let entries = dir.entries(Contents::Scanned(classified));
    assert_eq!(entries.len(), 2);
    assert_eq!(entries[0], scanned_game("/roms/a.zip"));
    assert_eq!(entries[1], scanned_game("/roms/b.zip"));
}

#[test]
fn recognized_entries_keeps_order_and_apps() {
    let app = Entry::App(App { name: s("Terminal"), path: s("/apps/term") });
    let r = recognized_entries(vec![None, Some(app.clone()), None, Some(scanned_game("/g.zip"))]);
    assert_eq!(r, vec![app, scanned_game("/g.zip")]);
    assert!(recognized_entries(vec![None, None]).is_empty());
}

#[test]
fn missing_declared_folder_is_absent_from_tree_and_sync() {
    let root = Directory::new(s("/roms/GB"));
    let entries = root.entries(Contents::Declared(
        vec![found_folder("hacks", "Hacks", false)],
        vec![found_game("tetris.gb", "Tetris", None, true, false)],
    ));
    assert_eq!(entries.len(), 1);
    let (mut sync, first) = root.populate_db();
    match first {
        Step::Resolve(d) => assert_eq!(d, root),
        _ => panic!("expected the root to be resolved first"),
    }
    match sync.resolved(entries) {
        Step::Upsert(batch) => assert_eq!(
            batch,
            vec![NewGame { name: s("Tetris"), path: s("/roms/GB/tetris.gb"), image: None }]
        ),
        _ => panic!("expected the root's games to be stored"),
    }
    assert!(matches!(sync.upserted(), Step::Done));
}

#[test]
fn present_declared_folder_comes_first_with_its_label() {
    let root = Directory::new(s("/roms/SNES"));
    let entries = root.entries(Contents::Declared(
        vec![found_folder("gone", "Gone", false), found_folder("hacks/", "Rom Hacks", true)],
        vec![found_game("zelda.sfc", "Zelda", None, true, false)],
    ));
    assert_eq!(entries.len(), 2);
    match &entries[0] {
        Entry::Directory(d) => {
            assert_eq!(d.path, "/roms/SNES/hacks/");
            assert_eq!(d.name, "Rom Hacks");
            assert_eq!(d.full_name, "hacks");
        }
        other => panic!("expected a folder, got {:?}", other),
    }
    assert!(matches!(&entries[1], Entry::Game(g) if g.name == "Zelda"));
}

#[test]
fn declared_image_is_kept_only_when_present() {
    let dir = Directory::new(s("/roms/MD"));
    let entries = dir.entries(Contents::Declared(
        vec![],
        vec![
            found_game("sonic.md", "Sonic", Some("imgs/sonic.png"), true, true),
            found_game("ecco.md", "Ecco", Some("imgs/ecco.png"), true, false),
        ],
    ));
    assert_eq!(entries.len(), 2);
    match (&entries[0], &entries[1]) {
        (Entry::Game(a), Entry::Game(b)) => {
            assert_eq!(a.image, Some(Some(s("/roms/MD/imgs/sonic.png"))));
            assert_eq!(b.image, Some(None));
            assert_eq!(a.extension, "md");
        }
        _ => panic!("expected two games"),
    }
    let records = game_records(&entries);
    assert_eq!(records[0].image, Some(s("/roms/MD/imgs/sonic.png")));
    assert_eq!(records[1].image, None);
}

#[test]
fn sync_stores_each_level_once_with_its_own_games() {
    let root = Directory::new(s("/roms"));
    let root_entries = root.entries(Contents::Declared(
        vec![found_folder("NES", "NES", true)],
        vec![found_game("a.zip", "A", None, true, false)],
    ));
    let (mut sync, first) = root.populate_db();
    assert!(matches!(first, Step::Resolve(_)));
    let sub = match sync.resolved(root_entries) {
        Step::Resolve(d) => d,
        _ => panic!("expected the nested collection next"),
    };
    assert_eq!(sub.path, "/roms/NES");
    let sub_entries = sub.entries(Contents::Scanned(vec![Some(scanned_game("/roms/NES/b.zip"))]));
    match sync.resolved(sub_entries) {
        Step::Upsert(batch) => {
            assert_eq!(batch.len(), 1);
            assert_eq!(batch[0].path, "/roms/NES/b.zip");
        }
        _ => panic!("expected the nested games"),
    }
    match sync.upserted() {
        Step::Upsert(batch) => {
            assert_eq!(batch.len(), 1);
            assert_eq!(batch[0].path, "/roms/a.zip");
        }
        _ => panic!("expected the root's games"),
    }
    assert!(matches!(sync.upserted(), Step::Done));
    assert!(matches!(sync.upserted(), Step::Done));
}

#[test]
fn sync_visits_nested_collections_in_order() {
    let root = Directory::new(s("/roms"));
    let entries = vec![
        Entry::Directory(Directory::new(s("/roms/A"))),
        scanned_game("/roms/x.zip"),
        Entry::Directory(Directory::new(s("/roms/B"))),
    ];
    let (mut sync, _) = root.populate_db();
    assert!(matches!(sync.resolved(entries), Step::Resolve(d) if d.path == "/roms/A"));
    assert!(matches!(sync.resolved(vec![]), Step::Upsert(b) if b.is_empty()));
    assert!(matches!(sync.upserted(), Step::Resolve(d) if d.path == "/roms/B"));
    assert!(matches!(sync.resolved(vec![]), Step::Upsert(b) if b.is_empty()));
    assert!(matches!(sync.upserted(), Step::Upsert(b) if b.len() == 1 && b[0].path == "/roms/x.zip"));
    assert!(matches!(sync.upserted(), Step::Done));
}

#[test]
fn primary_metadata_shadows_legacy() {
    assert_eq!(pick_metadata(&vec![true, true]), Some(0));
    assert_eq!(pick_metadata(&vec![true, false]), Some(0));
    assert_eq!(pick_metadata(&vec![false, true]), Some(1));
    assert_eq!(pick_metadata(&vec![false, false]), None);
}

#[test]
fn metadata_file_paths() {
    let dir = Directory::new(s("/roms/GBA"));
    assert_eq!(dir.metadata_files(), vec![s("/roms/GBA/gamelist.xml"), s("/roms/GBA/miyoogamelist.xml")]);
}

#[test]
fn new_is_deterministic() {
    let a = Directory::new(s("/roms/Super Mario (USA) [!].zip"));
    let b = Directory::new(s("/roms/Super Mario (USA) [!].zip"));
    assert_eq!(a, b);
    assert_eq!(a.full_name, "Super Mario (USA) [!]");
    assert_eq!(a.name, "Super Mario");
    assert_eq!(a.path, "/roms/Super Mario (USA) [!].zip");
}

#[test]
fn new_without_file_name_has_empty_names() {
    let d = Directory::new(s("/"));
    assert_eq!(d.full_name, "");
    assert_eq!(d.name, "");
}

#[test]
fn with_name_keeps_given_label() {
    let d = Directory::with_name(s("/roms/PS (Japan)"), s("PlayStation"));
    assert_eq!(d.name, "PlayStation");
    assert_eq!(d.full_name, "PS (Japan)");
}

#[test]
fn default_is_games_root() {
    let d = Directory::default();
    assert_eq!(d.name, "Games");
    assert_eq!(d.full_name, "Games");
    assert_eq!(d.path, GAMES_DIR);
}

#[test]
fn short_name_strips_tags_and_spaces() {
    assert_eq!(short_name(&s("  Zelda (Europe) (Rev 1) ")), "Zelda");
    assert_eq!(short_name(&s("Metroid [b] Fusion")), "Metroid  Fusion");
    assert_eq!(short_name(&s("A (x [y] z) B")), "A  B");
    assert_eq!(short_name(&s("Q) R")), "Q R");
    assert_eq!(short_name(&s("")), "");
    assert_eq!(short_name(&s("(all tags)")), "");
}

#[test]
fn join_follows_unix_rules() {
    assert_eq!(join_path(&s("/roms"), &s("a.zip")), "/roms/a.zip");
    assert_eq!(join_path(&s("/roms/"), &s("a.zip")), "/roms/a.zip");
    assert_eq!(join_path(&s("/roms"), &s("/abs/a.zip")), "/abs/a.zip");
    assert_eq!(join_path(&s(""), &s("a.zip")), "a.zip");
    assert_eq!(join_path(&s("/roms"), &s("")), "/roms/");
    assert_eq!(join_path(&s("/roms"), &s("./a.zip")), "/roms/./a.zip");
}

#[test]
fn collections_order_by_full_name() {
    let a = Directory::with_name(s("/roms/Atari"), s("Zzz"));
    let b = Directory::with_name(s("/roms/Bandai"), s("Aaa"));
    assert_eq!(a.partial_cmp(&b), Some(Ordering::Less));
    assert!(b > a);
    assert_eq!(compare_names(&s("abc"), &s("abd")), Ordering::Less);
    assert_eq!(compare_names(&s("ab"), &s("abc")), Ordering::Less);
    assert_eq!(compare_names(&s("b"), &s("abc")), Ordering::Greater);
    assert_eq!(compare_names(&s("Z"), &s("a")), Ordering::Less);
    assert_eq!(compare_names(&s("same"), &s("same")), Ordering::Equal);
}

#[test]
fn records_skip_collections_and_apps() {
    let entries = vec![
        Entry::Directory(Directory::new(s("/roms/A"))),
        Entry::App(App { name: s("Files"), path: s("/apps/files") }),
        Entry::Game(Game {
            path: s("/roms/g.zip"),
            name: s("G"),
            full_name: s("G"),
            image: Some(Some(s("/roms/g.png"))),
            extension: s("zip"),
        }),
    ];
    assert_eq!(
        game_records(&entries),
        vec![NewGame { name: s("G"), path: s("/roms/g.zip"), image: Some(s("/roms/g.png")) }]
    );
}
