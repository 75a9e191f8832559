use katas::bloom::{calc_hash, collision_percent, get_hashes, BloomFilter};

#[test]
fn filter_reports_every_built_key() {
    let keys = vec!["cat".to_string(), "dog".to_string(), "bird".to_string()];
    let filter = BloomFilter::build(1024, &keys);
    assert!(filter.contains("cat"));
    assert!(filter.contains("dog"));
    assert!(filter.contains("bird"));
}

#[test]
fn filter_query_is_deterministic() {
    let keys = vec!["cat".to_string(), "dog".to_string()];
    let filter = BloomFilter::build(1024, &keys);
    for word in ["cat", "dog", "mouse", "zebra"] {
        let first = filter.contains(word);
        let second = filter.contains(word);
        assert_eq!(first, second);
    }
    assert_eq!(calc_hash("cat"), calc_hash("cat"));
}

#[test]
fn filter_insert_is_idempotent() {
    let mut filter = BloomFilter::new(1024, &[]);
    filter.insert("walrus");
    let (total, set_once) = filter.stats();
    filter.insert("walrus");
    let (total_again, set_twice) = filter.stats();
    assert_eq!(total, 1024);
    assert_eq!(total_again, 1024);
    assert_eq!(set_once, set_twice);
    assert!(filter.contains("walrus"));
}

#[test]
fn filter_set_bits_grow_monotonically() {
    let mut filter = BloomFilter::new(512, &[]);
    let mut previous = 0;
    for i in 0..50 {
        filter.insert(&format!("key{}", i));
        let (_, set_bits) = filter.stats();
        assert!(set_bits >= previous);
        assert!(set_bits <= 512);
        previous = set_bits;
    }
}

#[test]
fn stats_count_distinct_offsets() {
    let mut filter = BloomFilter::new(1024, &[]);
    let mut offsets: Vec<u64> = Vec::new();
    let mut i: u64 = 0;
    while offsets.len() < 10 {
        let key = format!("key{}", i);
        let offset = calc_hash(&key) % 1024;
        if !offsets.contains(&offset) {
            offsets.push(offset);
            filter.insert(&key);
        }
        i += 1;
    }
    let (total_bits, set_bits) = filter.stats();
    assert_eq!(total_bits, 1024);
    assert_eq!(set_bits, 10);
}

#[test]
fn hashes_follow_lines() {
    let hashes = get_hashes("cat\ndog\r\nbird");
    assert_eq!(hashes.len(), 3);
    assert_eq!(hashes[0], calc_hash("cat"));
    assert_eq!(hashes[1], calc_hash("dog"));
    assert_eq!(hashes[2], calc_hash("bird"));
}

#[test]
fn filter_new_sets_hash_offsets() {
    let hashes = vec![0u64, 7, 7, 1024 + 3];
    let filter = BloomFilter::new(1024, &hashes);
    let (total_bits, set_bits) = filter.stats();
    assert_eq!(total_bits, 1024);
    assert_eq!(set_bits, 3);
}

#[test]
fn collision_percent_formula() {
    assert_eq!(collision_percent(100, 50), 100);
    assert_eq!(collision_percent(10, 10), 0);
    assert_eq!(collision_percent(7, 2), 250);
}
