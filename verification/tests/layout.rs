use slatedb::cached_object_store::layout::{
    atomic_tmp_path, cached_parts, cached_parts_by_name, file_name, is_orphan, make_folder_path,
    make_head_path, make_part_path, part_number, random_atomic_tmp_path, tee_tmp_path,
};
use slatedb::cached_object_store::storage_fs::{FsCacheStorage, ATOMIC_SUFFIX_LEN};
use slatedb::path::Path;
use slatedb::random::DbRand;
use slatedb::sorting::sorted;
use slatedb::text::{decimal_text, parse_u64, parse_usize, zero_padded_text};

#[test]
fn part_files_are_named_by_size_and_number() {
    let location = Path::from("mydata.csv");
    assert_eq!(
        make_part_path("/tmp", &location, 1, 1024 * 1024),
        "/tmp/mydata.csv/_part1mb-000000001"
    );
    assert_eq!(
        make_part_path("/tmp/", &location, 0, 1536 * 1024),
        "/tmp/mydata.csv/_part1536kb-000000000"
    );
    assert_eq!(
        make_part_path("", &location, 1234567890, 4 * 1024 * 1024),
        "mydata.csv/_part4mb-1234567890"
    );
    assert_eq!(make_head_path("/tmp", &location), "/tmp/mydata.csv/_head");
    assert_eq!(make_folder_path("/tmp", &location), "/tmp/mydata.csv");
    assert_eq!(make_head_path("/tmp", &Path::from("")), "/tmp/_head");
    let storage = FsCacheStorage::new("/tmp".to_string(), None, 1, DbRand::new(1));
    assert_eq!(
        storage.part_path(&location, 2, 1024),
        "/tmp/mydata.csv/_part1kb-000000002"
    );
    assert_eq!(storage.head_path(&location), "/tmp/mydata.csv/_head");
    assert_eq!(storage.folder(&location), "/tmp/mydata.csv");
}

#[test]
fn part_files_of_different_parts_and_sizes_differ() {
    let location = Path::from("x");
    let mut seen = std::collections::BTreeSet::new();
    for part_size in [1024, 2048, 1024 * 1024, 1025 * 1024, 2 * 1024 * 1024] {
        for number in [0, 1, 10, 999_999_999, 1_000_000_000] {
            assert!(seen.insert(make_part_path("/tmp", &location, number, part_size)));
        }
    }
    assert_eq!(seen.len(), 25);
}

#[test]
fn part_files_stand_in_a_listing_as_their_numbers_do() {
    let numbers = [0, 1, 2, 9, 10, 11, 99, 100, 123_456_789, 999_999_999];
    let paths: Vec<String> = numbers
        .iter()
        .map(|n| make_part_path("/tmp", &Path::from("x"), *n, 4096))
        .collect();
    for pair in paths.windows(2) {
        assert!(pair[0] < pair[1]);
    }
    let mut shuffled = paths.clone();
    shuffled.reverse();
    assert_eq!(sorted(shuffled), paths);
}

#[test]
fn part_numbers_are_read_back_from_file_names() {
    for number in [0, 1, 999_999_999, 1_000_000_000] {
        let path = make_part_path("/tmp", &Path::from("a-b"), number, 2048);
        assert_eq!(part_number(&file_name(&path)), Some(number));
    }
    assert_eq!(part_number("_head"), None);
    assert_eq!(part_number("_part1kb"), None);
    assert_eq!(part_number("_part1kb-"), None);
    assert_eq!(part_number("part1kb-000000001"), None);
    assert_eq!(part_number("_part1kb-000000001.tmp-abc"), None);
}

#[test]
fn cached_parts_are_listed_in_order() {
    let names: Vec<String> = [
        "_part1kb-000000002",
        "_head",
        "_part1kb-000000000",
        "_part1kb-1000000000",
        "other",
    ]
    .iter()
    .map(|s| s.to_string())
    .collect();
    assert_eq!(cached_parts(&names), vec![0, 2, 1_000_000_000]);
    assert_eq!(cached_parts_by_name(names), vec![0, 2, 1_000_000_000]);
    // by name, a number of ten digits may come before one of nine
    let names = vec![
        "_part1kb-200000000".to_string(),
        "_part1kb-1000000000".to_string(),
    ];
    assert_eq!(cached_parts(&names), vec![200_000_000, 1_000_000_000]);
    assert_eq!(
        cached_parts_by_name(names),
        vec![1_000_000_000, 200_000_000]
    );
}

#[test]
fn temporary_files_are_told_from_others() {
    let place = "/tmp/a/_part1mb-000000001";
    assert_eq!(
        atomic_tmp_path(place, "xyz"),
        "/tmp/a/_part1mb-000000001._tmpxyz"
    );
    assert_eq!(
        tee_tmp_path(place, "xyz"),
        "/tmp/a/_part1mb-000000001.tmp-xyz"
    );
    assert!(is_orphan("_part1mb-000000001.tmp-xyz"));
    assert!(is_orphan(".tmp-"));
    assert!(!is_orphan("_part1mb-000000001"));
    assert!(!is_orphan("_head"));
    assert!(!is_orphan(".tmp"));
    assert!(!is_orphan("_part1mb-000000001._tmpxyz"));
    assert_eq!(file_name("/tmp/a/_head"), "_head");
    assert_eq!(file_name("_head"), "_head");
    assert_eq!(file_name("a/"), "");
    let tmp = random_atomic_tmp_path(&mut DbRand::default(), place, ATOMIC_SUFFIX_LEN);
    assert!(tmp.starts_with("/tmp/a/_part1mb-000000001._tmp"));
    assert_eq!(tmp.len(), place.len() + 5 + 24);
}

#[test]
fn suffixes_are_random_letters_and_digits() {
    let a = DbRand::default().rand_suffix(24);
    let b = DbRand::default().rand_suffix(24);
    assert_eq!(a.len(), 24);
    assert!(a.chars().all(|c| c.is_ascii_alphanumeric()));
    assert_ne!(a, b);
    assert_eq!(DbRand::default().rand_suffix(0), "");
}

#[test]
fn numbers_and_their_numerals() {
    assert_eq!(decimal_text(0), "0");
    assert_eq!(decimal_text(u64::MAX), "18446744073709551615");
    assert_eq!(zero_padded_text(7, 3), "007");
    assert_eq!(zero_padded_text(1234, 3), "1234");
    assert_eq!(parse_u64("18446744073709551615"), Some(u64::MAX));
    assert_eq!(parse_u64("18446744073709551616"), None);
    assert_eq!(parse_u64("99999999999999999999999"), None);
    assert_eq!(parse_usize("+42"), Some(42));
    assert_eq!(parse_usize("000042"), Some(42));
    for bad in ["", "+", "-1", "1 ", "0x10", "++1", "1+"] {
        assert_eq!(parse_usize(bad), bad.parse::<usize>().ok());
        assert_eq!(parse_usize(bad), None);
    }
}

#[test]
fn sorting_puts_values_in_order() {
    assert_eq!(sorted(vec![3u64, 1, 2, 1]), vec![1, 1, 2, 3]);
    assert_eq!(sorted(Vec::<usize>::new()), Vec::<usize>::new());
    let words: Vec<String> = ["b", "ab", "a", "", "b"]
        .iter()
        .map(|s| s.to_string())
        .collect();
    let mut expected = words.clone();
    expected.sort();
    assert_eq!(sorted(words), expected);
    let many: Vec<u64> = (0..1000u64).map(|i| i * 7919 % 1009).collect();
    let mut expected = many.clone();
    expected.sort();
    assert_eq!(sorted(many), expected);
}

#[test]
fn a_seed_decides_what_is_drawn() {
    let mut a = DbRand::new(7);
    let mut b = DbRand::new(7);
    let first = a.rand_suffix(16);
    assert_eq!(b.rand_suffix(8) + &b.rand_suffix(8), first);
    assert_ne!(a.rand_suffix(16), first);
    b.rand_suffix(16);
    for n in 1..100 {
        let drawn = a.below(n);
        assert!(drawn < n);
        assert_eq!(b.below(n), drawn);
    }
    // the seeds go round
    let mut last = DbRand::new(u64::MAX);
    last.rand_suffix(1);
    assert_eq!(last.rand_suffix(5), DbRand::new(0).rand_suffix(5));
    assert!((0..100).any(|seed| DbRand::new(seed).below(1000) != seed as usize));
    assert_eq!(
        random_atomic_tmp_path(&mut DbRand::new(3), "x", 4),
        format!("x._tmp{}", DbRand::new(3).rand_suffix(4))
    );
}
