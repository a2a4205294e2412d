use romm_fuse::api::types::{RomFile, SimpleRom};
use romm_fuse::fs::tree::{FileTree, TreeNode};

fn make_rom(id: u64, name: &str, platform_slug: &str, multi: bool) -> SimpleRom {
    let ext = name.rsplit('.').next().unwrap_or("bin").to_string();
    let no_ext = name
        .strip_suffix(&format!(".{ext}"))
        .unwrap_or(name)
        .to_string();
    let files = if multi {
        vec![
            RomFile {
                id: id * 10,
                rom_id: id,
                file_name: format!("{name}.disc1"),
                file_path: String::new(),
                file_size_bytes: 1024,
                is_top_level: false,
            },
            RomFile {
                id: id * 10 + 1,
                rom_id: id,
                file_name: format!("{name}.disc2"),
                file_path: String::new(),
                file_size_bytes: 2048,
                is_top_level: false,
            },
        ]
    } else {
        vec![RomFile {
            id: id * 10,
            rom_id: id,
            file_name: name.to_string(),
            file_path: String::new(),
            file_size_bytes: 4096,
            is_top_level: true,
        }]
    };

    SimpleRom {
        id,
        name: Some(no_ext.clone()),
        slug: None,
        fs_name: name.to_string(),
        fs_name_no_ext: no_ext,
        fs_extension: ext,
        fs_size_bytes: if multi { 3072 } else { 4096 },
        platform_id: 1,
        platform_slug: platform_slug.to_string(),
        platform_fs_slug: platform_slug.to_string(),
        is_top_level: true,
        has_simple_single_file: !multi,
        has_nested_single_file: false,
        has_multiple_files: multi,
        files,
        updated_at: None,
    }
}

#[test]
fn test_single_file_rom() {
    let mut tree = FileTree::new();
    let root = 1;
    let nes_dir = tree.allocate_inode();
    tree.add_dir(root, "NES".to_string(), nes_dir);

    let roms = vec![make_rom(1, "Super Mario Bros. (USA).nes", "nes", false)];
    tree.build_from_roms(&[("nes".to_string(), nes_dir)], &roms);

    let children = tree.children(root).unwrap();
    assert_eq!(children.len(), 1);
    assert_eq!(children[0].0, "NES");

    let children = tree.children(nes_dir).unwrap();
    assert_eq!(children.len(), 1);
    assert_eq!(children[0].0, "Super Mario Bros. (USA).nes");

    assert!(tree.lookup(root, "NES").is_some());
    assert!(tree
        .lookup(nes_dir, "Super Mario Bros. (USA).nes")
        .is_some());
    assert!(tree.lookup(nes_dir, "nonexistent.nes").is_none());
}

#[test]
fn test_multi_file_rom() {
    let mut tree = FileTree::new();
    let root = 1;
    let psx_dir = tree.allocate_inode();
    tree.add_dir(root, "PSX".to_string(), psx_dir);

    let roms = vec![make_rom(2, "Final Fantasy VII", "playstation", true)];
    tree.build_from_roms(&[("playstation".to_string(), psx_dir)], &roms);

    let children = tree.children(psx_dir).unwrap();
    assert_eq!(children.len(), 1);
    assert_eq!(children[0].0, "Final Fantasy VII");
    let ff7_dir = children[0].1;

    let children = tree.children(ff7_dir).unwrap();
    assert_eq!(children.len(), 2);
}

#[test]
fn test_unmapped_platform_ignored() {
    let mut tree = FileTree::new();
    let root = 1;

    let roms = vec![make_rom(3, "game.pce", "tgfx16", false)];
    tree.build_from_roms(&[], &roms);

    let children = tree.children(root).unwrap();
    assert_eq!(children.len(), 0);
}

#[test]
fn single_file_rom_node_carries_rom_and_size() {
    let mut tree = FileTree::new();
    let nes_dir = tree.allocate_inode();
    tree.add_dir(1, "NES".to_string(), nes_dir);
    let roms = vec![make_rom(5, "Zelda.nes", "nes", false)];
    tree.build_from_roms(&[("nes".to_string(), nes_dir)], &roms);
    let ino = tree.lookup(nes_dir, "Zelda.nes").unwrap();
    assert_eq!(ino, 3);
    match tree.get(ino) {
        Some(TreeNode::File { name, rom_id, file_id, file_name, size, mtime }) => {
            assert_eq!(name, "Zelda.nes");
            assert_eq!(*rom_id, 5);
            assert_eq!(*file_id, Some(50));
            assert_eq!(file_name, "Zelda.nes");
            assert_eq!(*size, 4096);
            assert_eq!(*mtime, None);
        }
        _ => panic!("expected a file node"),
    }
}

#[test]
fn multi_file_rom_files_in_order_with_sizes() {
    let mut tree = FileTree::new();
    let psx_dir = tree.allocate_inode();
    tree.add_dir(1, "PSX".to_string(), psx_dir);
    let roms = vec![make_rom(2, "FF7", "playstation", true)];
    tree.build_from_roms(&[("playstation".to_string(), psx_dir)], &roms);
    let folder = tree.lookup(psx_dir, "FF7").unwrap();
    let files = tree.children(folder).unwrap();
    assert_eq!(files[0].0, "FF7.disc1");
    assert_eq!(files[1].0, "FF7.disc2");
    assert_eq!(folder, 3);
    assert_eq!(files[0].1, 4);
    assert_eq!(files[1].1, 5);
    match tree.get(files[1].1) {
        Some(TreeNode::File { rom_id, file_id, size, .. }) => {
            assert_eq!(*rom_id, 2);
            assert_eq!(*file_id, Some(21));
            assert_eq!(*size, 2048);
        }
        _ => panic!("expected a file node"),
    }
    // The next inode continues after the ones handed out.
    assert_eq!(tree.allocate_inode(), 6);
}

#[test]
fn file_nodes_carry_the_rom_update_time() {
    let mut tree = FileTree::new();
    let dir = tree.allocate_inode();
    tree.add_dir(1, "PSX".to_string(), dir);
    let mut one = make_rom(4, "A.bin", "playstation", false);
    one.updated_at = Some("2024-05-01T12:34:56.123456+00:00".to_string());
    let mut multi = make_rom(5, "B", "playstation", true);
    multi.updated_at = Some("1970-01-02T00:00:00Z".to_string());
    let mut bad = make_rom(6, "C.bin", "playstation", false);
    bad.updated_at = Some("yesterday".to_string());
    tree.build_from_roms(&[("playstation".to_string(), dir)], &[one, multi, bad]);
    let a = tree.lookup(dir, "A.bin").unwrap();
    assert_eq!(tree.attr(a).unwrap().mtime, Some(1714566896));
    let b = tree.lookup(dir, "B").unwrap();
    let disc = tree.children(b).unwrap()[1].1;
    assert_eq!(tree.attr(disc).unwrap().mtime, Some(86400));
    assert_eq!(tree.attr(b).unwrap().mtime, None);
    let c = tree.lookup(dir, "C.bin").unwrap();
    assert_eq!(tree.attr(c).unwrap().mtime, None);
}

#[test]
fn multi_file_rom_without_files_is_single_file() {
    let mut tree = FileTree::new();
    let dir = tree.allocate_inode();
    tree.add_dir(1, "PSX".to_string(), dir);
    let mut rom = make_rom(9, "Empty", "playstation", true);
    rom.files.clear();
    tree.build_from_roms(&[("playstation".to_string(), dir)], &[rom]);
    let ino = tree.lookup(dir, "Empty").unwrap();
    assert!(tree.children(ino).is_none());
}

#[test]
fn unmapped_roms_leave_tree_and_inodes_alone() {
    let mut tree = FileTree::new();
    let nes = tree.allocate_inode();
    tree.add_dir(1, "NES".to_string(), nes);
    let roms = vec![
        make_rom(1, "a.nes", "nes", false),
        make_rom(2, "b.pce", "tgfx16", false),
        make_rom(3, "c.nes", "nes", false),
    ];
    tree.build_from_roms(&[("nes".to_string(), nes)], &roms);
    let names: Vec<String> = tree.children(nes).unwrap().into_iter().map(|c| c.0).collect();
    assert_eq!(names, vec!["a.nes".to_string(), "c.nes".to_string()]);
    assert_eq!(tree.node_count(), 4);
}

#[test]
fn platform_dir_map_with_repeated_slug_is_detected() {
    assert!(romm_fuse::config::slugs_unique(&[("nes".to_string(), 2u64), ("snes".to_string(), 3u64)]));
    assert!(!romm_fuse::config::slugs_unique(&[("nes".to_string(), 2u64), ("nes".to_string(), 3u64)]));
}

#[test]
fn readding_a_name_points_lookup_at_the_new_node() {
    let mut tree = FileTree::new();
    tree.add_dir(1, "X".to_string(), 10);
    tree.add_dir(1, "X".to_string(), 11);
    assert_eq!(tree.lookup(1, "X"), Some(11));
    let children = tree.children(1).unwrap();
    assert_eq!(children, vec![("X".to_string(), 11), ("X".to_string(), 11)]);
}

#[test]
fn new_tree_has_empty_root_only() {
    let tree = FileTree::new();
    assert_eq!(tree.node_count(), 1);
    match tree.get(1) {
        Some(TreeNode::Dir { name, children }) => {
            assert_eq!(name, "");
            assert!(children.is_empty());
        }
        _ => panic!("root must be a directory"),
    }
    assert!(tree.children(2).is_none());
}
