use romm_fuse::api::client::RangeReply;
use romm_fuse::fs::cache::{chunk_key, Cache, LruTracker};

#[test]
fn chunk_key_is_hex_sha256_of_tag_then_index() {
    assert_eq!(
        chunk_key(42, "game.nes", 0),
        "532e3e05a484fc6bd588839dbc4e645323bc78ef474efba868140c72206ab0a3.0"
    );
    assert_eq!(
        chunk_key(1, "Super Mario Bros. (USA).nes", 17),
        "d378cc576f1681c421add9a95b8434725ec488ba4867931c9e95145abf84b5f2.17"
    );
}

#[test]
fn chunk_keys_of_different_chunks_differ() {
    let a = chunk_key(7, "a/b c.bin", 1);
    let b = chunk_key(7, "a/b c.bin", 10);
    assert_ne!(a, b);
    assert_eq!(
        a,
        "0e63f4f15b08e49971646db7de976a8eb4ba8ecef58cc88dab423b0085632394.1"
    );
}

#[test]
fn chunk_path_joins_dir_and_key() {
    let c = Cache::new("/tmp/cache", 300, 4);
    assert_eq!(
        c.chunk_path(42, "game.nes", 3),
        "/tmp/cache/532e3e05a484fc6bd588839dbc4e645323bc78ef474efba868140c72206ab0a3.3"
    );
    let c2 = Cache::new("/tmp/cache/", 300, 4);
    assert_eq!(
        c2.chunk_path(42, "game.nes", 3),
        "/tmp/cache/532e3e05a484fc6bd588839dbc4e645323bc78ef474efba868140c72206ab0a3.3"
    );
    assert_eq!(c.dir_for_statfs(), "/tmp/cache");
    assert_eq!(c.chunk_size(), 4);
    assert_eq!(c.ttl_secs(), 300);
}

#[test]
fn chunk_count_rounds_up() {
    let c = Cache::new("/c", 300, 262144);
    assert_eq!(c.chunk_count(0), 0);
    assert_eq!(c.chunk_count(1), 1);
    assert_eq!(c.chunk_count(262144), 1);
    assert_eq!(c.chunk_count(262145), 2);
    let one = Cache::new("/c", 300, 1);
    assert_eq!(one.chunk_count(u64::MAX), u64::MAX);
}

#[test]
fn chunk_bounds_are_inclusive() {
    let c = Cache::new("/c", 300, 262144);
    assert_eq!(c.chunk_bounds(0), (0, 262143));
    assert_eq!(c.chunk_bounds(2), (524288, 786431));
}

#[test]
fn freshness_is_age_at_most_ttl() {
    let c = Cache::new("/c", 300, 4);
    assert!(c.is_fresh(0, 0));
    assert!(c.is_fresh(299, 999_999_999));
    assert!(c.is_fresh(300, 0));
    assert!(!c.is_fresh(300, 1));
    assert!(!c.is_fresh(301, 0));
}

fn file_bytes(n: usize) -> Vec<u8> {
    (0..n).map(|i| (i % 251) as u8).collect()
}

fn chunks_for(c: &Cache, file: &[u8], first: u64, last: u64) -> Vec<Vec<u8>> {
    let cs = c.chunk_size() as usize;
    (first..=last)
        .map(|i| {
            let s = i as usize * cs;
            let e = std::cmp::min(s + cs, file.len());
            file[s..e].to_vec()
        })
        .collect()
}

#[test]
fn read_plan_covers_window() {
    let c = Cache::new("/c", 300, 4);
    assert_eq!(c.read_plan(10, 0, 10), Some((0, 2)));
    assert_eq!(c.read_plan(10, 5, 2), Some((1, 1)));
    assert_eq!(c.read_plan(10, 5, 100), Some((1, 2)));
    assert_eq!(c.read_plan(10, 10, 4), None);
    assert_eq!(c.read_plan(10, 3, 0), None);
    assert_eq!(c.read_plan(u64::MAX, u64::MAX - 1, 10), Some((u64::MAX / 4, u64::MAX / 4)));
}

#[test]
fn empty_read_needs_no_chunk_size() {
    let c = Cache::new("/c", 300, 0);
    assert_eq!(c.read_plan(10, 10, 4), None);
}

#[test]
fn assembled_read_is_the_file_window() {
    let c = Cache::new("/c", 300, 4);
    let file = file_bytes(10);
    for offset in 0..12u64 {
        for size in 0..12u32 {
            match c.read_plan(10, offset, size) {
                Some((first, last)) => {
                    let chunks = chunks_for(&c, &file, first, last);
                    let out = c.assemble_range(10, offset, size, &chunks);
                    let end = std::cmp::min(offset as usize + size as usize, 10);
                    assert_eq!(out, file[offset as usize..end].to_vec());
                }
                None => assert!(std::cmp::min(offset + size as u64, 10) <= offset),
            }
        }
    }
}

#[test]
fn assembled_read_keeps_each_chunk_to_its_slot() {
    // A chunk holding more than its share contributes only the part of its
    // slot inside the window.
    let c = Cache::new("/c", 300, 4);
    let chunks = vec![vec![1, 2, 3, 4, 5, 6], vec![7, 8]];
    assert_eq!(c.assemble_range(8, 2, 10, &chunks), vec![3, 4, 7, 8]);
}

#[test]
fn whole_file_replies_are_cut_to_the_chunk() {
    let c = Cache::new("/c", 300, 4);
    let file = b"abcdefghij".to_vec();
    let (first, last) = c.read_plan(10, 0, 8).unwrap();
    assert_eq!((first, last), (0, 1));
    let chunks: Vec<Vec<u8>> = (first..=last)
        .map(|i| c.chunk_from_reply(i, &RangeReply::Whole, file.clone()))
        .collect();
    assert_eq!(chunks, vec![b"abcd".to_vec(), b"efgh".to_vec()]);
    assert_eq!(c.assemble_range(10, 0, 8, &chunks), b"abcdefgh".to_vec());
    assert_eq!(c.chunk_from_reply(2, &RangeReply::Whole, file.clone()), b"ij".to_vec());
    assert_eq!(c.chunk_from_reply(3, &RangeReply::Whole, file.clone()), Vec::<u8>::new());
    assert_eq!(c.chunk_from_reply(1, &RangeReply::Partial, b"efgh".to_vec()), b"efgh".to_vec());
}

#[test]
fn mixed_replies_give_the_window() {
    let c = Cache::new("/c", 300, 4);
    let file = b"abcdefghij".to_vec();
    let chunks = vec![
        c.chunk_from_reply(0, &RangeReply::Partial, b"abcd".to_vec()),
        c.chunk_from_reply(1, &RangeReply::Whole, file.clone()),
        c.chunk_from_reply(2, &RangeReply::Partial, b"ij".to_vec()),
    ];
    assert_eq!(c.assemble_range(10, 3, 100, &chunks), b"defghij".to_vec());
}

#[test]
fn lru_touch_moves_key_last_once() {
    let mut t = LruTracker::new(10);
    t.touch("a");
    t.touch("b");
    t.touch("a");
    t.touch("c");
    let mut t2 = LruTracker::new(3);
    t2.touch("a");
    t2.touch("b");
    t2.touch("a");
    t2.touch("c");
    // order is b, a, c: the bound of 3 evicts one
    assert_eq!(t2.evict_oldest(), vec!["b".to_string()]);
    assert_eq!(t2.evict_oldest(), Vec::<String>::new());
    t2.touch("d");
    assert_eq!(t2.evict_oldest(), vec!["a".to_string()]);
    let _ = t;
}

#[test]
fn lru_with_zero_bound_evicts_everything() {
    let mut t = LruTracker::new(0);
    t.touch("x");
    t.touch("y");
    assert_eq!(t.evict_oldest(), vec!["x".to_string(), "y".to_string()]);
    assert_eq!(t.evict_oldest(), Vec::<String>::new());
}

#[test]
fn cache_eviction_returns_paths() {
    let mut c = Cache::new("/cache", 300, 4);
    for i in 0..10001u64 {
        c.touch_lru(&format!("k{i}"));
    }
    let evicted = c.evict_if_needed();
    assert_eq!(evicted, vec!["/cache/k0".to_string(), "/cache/k1".to_string()]);
    assert!(c.evict_if_needed().is_empty());
}

#[test]
fn stale_chunk_files_match_both_prefixes() {
    let c = Cache::new("/cache", 300, 4);
    let names = vec![
        "532e3e05a484fc6bd588839dbc4e645323bc78ef474efba868140c72206ab0a3.0".to_string(),
        "532e3e05a484fc6bd588839dbc4e645323bc78ef474efba868140c72206ab0a3.12".to_string(),
        "42:game.nes".to_string(),
        "42:game.nes.part".to_string(),
        "43:game.nes".to_string(),
        "0e63f4f15b08e49971646db7de976a8eb4ba8ecef58cc88dab423b0085632394.1".to_string(),
    ];
    assert_eq!(
        c.stale_chunk_files(42, "game.nes", &names),
        vec![
            "/cache/532e3e05a484fc6bd588839dbc4e645323bc78ef474efba868140c72206ab0a3.0".to_string(),
            "/cache/532e3e05a484fc6bd588839dbc4e645323bc78ef474efba868140c72206ab0a3.12".to_string(),
            "/cache/42:game.nes".to_string(),
            "/cache/42:game.nes.part".to_string(),
        ]
    );
}

#[test]
fn chunk_keys_of_different_files_differ_and_stale_selection_keeps_them() {
    let a = chunk_key(42, "game.nes", 3);
    let b = chunk_key(43, "game.nes", 3);
    let c = chunk_key(42, "game.sfc", 3);
    assert_ne!(a, b);
    assert_ne!(a, c);
    assert_ne!(b, c);
    let cache = Cache::new("/cache", 300, 4);
    let names = vec![a.clone(), b.clone(), c.clone(), chunk_key(42, "game.nes", 0)];
    assert_eq!(
        cache.stale_chunk_files(42, "game.nes", &names),
        vec![format!("/cache/{a}"), format!("/cache/{}", chunk_key(42, "game.nes", 0))]
    );
}
