use kvs::cache::HandleCache;
use kvs::files::{log_path, parse_log_name, sorted_gen_list, stale_generations};

#[test]
fn log_paths() {
    assert_eq!(log_path("data", 42), "data/42.log");
    assert_eq!(log_path("data/", 7), "data/7.log");
    assert_eq!(log_path("", 0), "0.log");
    assert_eq!(log_path("/tmp/kvs", 18446744073709551615), "/tmp/kvs/18446744073709551615.log");
}

#[test]
fn log_names() {
    assert_eq!(parse_log_name("17.log"), Some(17));
    assert_eq!(parse_log_name("+5.log"), Some(5));
    assert_eq!(parse_log_name("007.log"), Some(7));
    assert_eq!(parse_log_name("18446744073709551615.log"), Some(18446744073709551615));
    assert_eq!(parse_log_name("18446744073709551616.log"), None);
    assert_eq!(parse_log_name("x.log"), None);
    assert_eq!(parse_log_name(".log"), None);
    assert_eq!(parse_log_name("-1.log"), None);
    assert_eq!(parse_log_name("3.txt"), None);
    assert_eq!(parse_log_name("3.log.bak"), None);
    assert_eq!(parse_log_name("log"), None);
}

#[test]
fn generation_list_is_sorted_and_unique() {
    let names: Vec<String> = vec!["10.log", "2.log", "engine", "x.log", "2.log", "1.log", "02.log"]
        .into_iter()
        .map(String::from)
        .collect();
    assert_eq!(sorted_gen_list(&names), vec![1, 2, 10]);
    assert_eq!(sorted_gen_list(&Vec::new()), Vec::<u64>::new());
}

#[test]
fn stale_generations_below_safe_point() {
    assert_eq!(stale_generations(&vec![1, 2, 5, 6, 7], 6), vec![1, 2, 5]);
    assert_eq!(stale_generations(&vec![6, 7], 6), Vec::<u64>::new());
}

#[test]
fn handle_cache_drops_stale_handles() {
    let mut cache: HandleCache<String> = HandleCache::new();
    cache.insert(5, "five".to_owned());
    cache.insert(1, "one".to_owned());
    cache.insert(3, "three".to_owned());
    cache.insert(3, "three again".to_owned());
    assert!(cache.contains(1));
    cache.close_stale_handles(3);
    assert!(!cache.contains(1));
    assert!(cache.contains(3));
    assert_eq!(cache.take(3), Some("three again".to_owned()));
    assert_eq!(cache.take(3), None);
    assert!(cache.contains(5));
    cache.close_stale_handles(100);
    assert!(!cache.contains(5));
}
