use romm_fuse::fs::inodes::InodeTable;

#[test]
fn new_table_knows_root() {
    let t = InodeTable::new();
    assert_eq!(t.get_path(1), Some(""));
    assert_eq!(t.get_ino(""), Some(1));
    assert_eq!(t.get_path(2), None);
    assert_eq!(t.get_ino("x"), None);
}

#[test]
fn allocate_hands_out_increasing_inodes_both_ways() {
    let mut t = InodeTable::new();
    let a = t.allocate("games/NES");
    let b = t.allocate("games/SNES");
    assert_eq!(a, 2);
    assert_eq!(b, 3);
    assert_eq!(t.get_path(a), Some("games/NES"));
    assert_eq!(t.get_ino("games/SNES"), Some(b));
}

#[test]
fn reallocating_a_path_moves_it_to_the_new_inode() {
    let mut t = InodeTable::new();
    let a = t.allocate("p");
    let b = t.allocate("p");
    assert_eq!(t.get_ino("p"), Some(b));
    assert_eq!(t.get_path(a), Some("p"));
    assert_eq!(t.get_path(b), Some("p"));
}
