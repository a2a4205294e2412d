use romm_fuse::config::{ProfileConfig, ProfileMeta};
use romm_fuse::fs::romm_fs::{FileKind, FsError};
use romm_fuse::fs::tree::FileTree;

fn sample() -> (FileTree, u64, u64, u64) {
    let mut t = FileTree::new();
    let games = t.add_platform_dir("games", "NES".to_string());
    t.add_file(games, "a.nes".to_string(), 10, 7, Some(70), "a.nes".to_string(), 1025, Some(1000));
    let nes_parent = t.lookup(1, "games").unwrap();
    (t, nes_parent, games, 10)
}

#[test]
fn platform_dirs_share_the_prefix_dir() {
    let (mut t, prefix, nes, _) = sample();
    assert_eq!(prefix, 2);
    assert_eq!(nes, 3);
    let snes = t.add_platform_dir("games", "SNES".to_string());
    assert_eq!(snes, 4);
    let kids: Vec<String> = t.children(prefix).unwrap().into_iter().map(|c| c.0).collect();
    assert_eq!(kids, vec!["NES".to_string(), "SNES".to_string()]);
    assert_eq!(t.children(1).unwrap().len(), 1);
}

#[test]
fn platform_dir_without_prefix_goes_under_root() {
    let mut t = FileTree::new();
    let d = t.add_platform_dir("", "nes".to_string());
    assert_eq!(t.lookup(1, "nes"), Some(d));
}

#[test]
fn attributes_of_dirs_and_files() {
    let (t, _, nes, file) = sample();
    let a = t.attr(nes).unwrap();
    assert!(matches!(a.kind, FileKind::Directory));
    assert_eq!((a.ino, a.size, a.blocks, a.perm, a.nlink), (nes, 0, 0, 0o555, 2));
    let f = t.attr(file).unwrap();
    assert!(matches!(f.kind, FileKind::RegularFile));
    assert_eq!((f.ino, f.size, f.blocks, f.perm, f.nlink), (10, 1025, 3, 0o444, 1));
    assert_eq!(f.mtime, Some(1000));
    assert_eq!(a.mtime, None);
    assert!(t.attr(99).is_none());
}

#[test]
fn lookup_entry_gives_attributes_or_not_found() {
    let (t, _, nes, _) = sample();
    assert_eq!(t.lookup_entry(nes, "a.nes").ok().unwrap().size, 1025);
    assert!(matches!(t.lookup_entry(nes, "b.nes"), Err(FsError::NotFound)));
}

#[test]
fn readdir_lists_dots_then_children_from_offset() {
    let (t, prefix, nes, _) = sample();
    let all = t.readdir_entries(nes, 0).ok().unwrap();
    let names: Vec<&str> = all.iter().map(|e| e.name.as_str()).collect();
    assert_eq!(names, vec![".", "..", "a.nes"]);
    assert_eq!(all[0].ino, nes);
    assert_eq!(all[1].ino, 1);
    assert_eq!(all[2].ino, 10);
    assert!(matches!(all[2].kind, FileKind::RegularFile));
    assert_eq!(all[2].next_offset, 3);
    let rest = t.readdir_entries(nes, 2).ok().unwrap();
    assert_eq!(rest.len(), 1);
    assert_eq!(rest[0].name, "a.nes");
    assert!(t.readdir_entries(nes, 9).ok().unwrap().is_empty());
    let root = t.readdir_entries(1, 0).ok().unwrap();
    assert_eq!(root.len(), 1);
    assert_eq!(root[0].ino, prefix);
    assert!(matches!(root[0].kind, FileKind::Directory));
    assert!(matches!(t.readdir_entries(10, 0), Err(FsError::NotDir)));
}

#[test]
fn open_checks_by_kind() {
    let (t, _, nes, file) = sample();
    assert_eq!(t.open_check(file).ok(), Some(file));
    assert!(matches!(t.open_check(nes), Err(FsError::IsDir)));
    assert!(matches!(t.open_check(77), Err(FsError::NotFound)));
    assert_eq!(t.opendir_check(nes).ok(), Some(nes));
    assert!(matches!(t.opendir_check(file), Err(FsError::NotDir)));
    assert!(matches!(t.opendir_check(77), Err(FsError::NotDir)));
    assert!(t.access_check(file).is_ok());
    assert!(matches!(t.access_check(77), Err(FsError::NotFound)));
}

#[test]
fn read_source_of_file_node() {
    let (t, _, nes, file) = sample();
    let s = t.read_source(file).ok().unwrap();
    assert_eq!((s.rom_id, s.file_name.as_str(), s.size), (7, "a.nes", 1025));
    assert!(matches!(t.read_source(nes), Err(FsError::IsDir)));
    assert!(matches!(t.read_source(55), Err(FsError::IsDir)));
}

fn profile(prefix: Option<&str>) -> ProfileConfig {
    ProfileConfig {
        profile: ProfileMeta { name: "p".to_string(), prefix: prefix.map(|p| p.to_string()) },
        platforms: vec![
            ("nes".to_string(), "NES".to_string()),
            ("snes".to_string(), "SNES".to_string()),
        ],
    }
}

#[test]
fn platform_step_adds_mapped_platforms_only() {
    let mut t = FileTree::new();
    let p = profile(Some("games"));
    assert!(t.add_platform(&p, "gba", 10).is_none());
    assert_eq!(t.node_count(), 1);
    let nes = t.add_platform(&p, "nes", 3).unwrap();
    assert_eq!((nes.dir_ino, nes.fetch_roms), (3, true));
    let snes = t.add_platform(&p, "snes", 0).unwrap();
    assert_eq!((snes.dir_ino, snes.fetch_roms), (4, false));
    let games = t.lookup(1, "games").unwrap();
    assert_eq!(t.lookup(games, "SNES"), Some(4));
    assert!(t.platform_dir_fits("games"));
}

#[test]
fn platforms_in_turn_all_land_under_one_prefix_dir() {
    let mut t = FileTree::new();
    let p = profile(Some("games"));
    let steps = [("snes", 2u64), ("gba", 5), ("nes", 0)];
    let mut dirs = Vec::new();
    for (slug, count) in steps.iter() {
        if let Some(step) = t.add_platform(&p, slug, *count) {
            dirs.push(step.dir_ino);
        }
    }
    assert_eq!(dirs, vec![3, 4]);
    let games = t.lookup(1, "games").unwrap();
    assert_eq!(games, 2);
    assert_eq!(t.lookup(games, "SNES"), Some(3));
    assert_eq!(t.lookup(games, "NES"), Some(4));
    assert_eq!(t.node_count(), 4);
}

#[test]
fn platforms_without_prefix_go_under_root() {
    let mut t = FileTree::new();
    let p = profile(None);
    let nes = t.add_platform(&p, "nes", 1).unwrap();
    assert_eq!(nes.dir_ino, 2);
    assert_eq!(t.lookup(1, "NES"), Some(2));
}
