use yakv::error::KvError;
use yakv::index::key_less;
use yakv::names::{
    check_engine, engine_of_entry, log_path, parse_log_name, segment_files, sorted_ids, Engine,
};

#[test]
fn segment_paths() {
    assert_eq!(log_path("data", 12), "data/12.log");
    assert_eq!(log_path("/tmp/d", 0), "/tmp/d/0.log");
    assert_eq!(log_path("d", u64::MAX), "d/18446744073709551615.log");
    assert_eq!(log_path("", 7), "7.log");
    assert_eq!(log_path("d/", 7), "d/7.log");
    assert_eq!(log_path("/", 7), "/7.log");
}

#[test]
fn segment_names_parse_strictly() {
    assert_eq!(parse_log_name("12.log"), Some(12));
    assert_eq!(parse_log_name("007.log"), Some(7));
    assert_eq!(parse_log_name("+1.log"), Some(1));
    assert_eq!(parse_log_name("+.log"), None);
    assert_eq!(parse_log_name("-1.log"), None);
    assert_eq!(parse_log_name("++1.log"), None);
    assert_eq!(parse_log_name("0.log"), Some(0));
    assert_eq!(parse_log_name("18446744073709551615.log"), Some(u64::MAX));
    assert_eq!(parse_log_name("18446744073709551616.log"), None);
    assert_eq!(parse_log_name(".log"), None);
    assert_eq!(parse_log_name("1a.log"), None);
    assert_eq!(parse_log_name("1.txt"), None);
    assert_eq!(parse_log_name("engine_sled_data"), None);
}

#[test]
fn ids_are_sorted_and_unique() {
    let names: Vec<String> = vec!["3.log", "1.log", "notes", "2.log", "01.log", "10.log", "1.log"]
        .into_iter()
        .map(String::from)
        .collect();
    assert_eq!(sorted_ids(&names), vec![1, 2, 3, 10]);
    assert_eq!(sorted_ids(&Vec::new()), Vec::<u64>::new());
}

#[test]
fn engine_names() {
    assert_eq!(Engine::from_name("yakv"), Some(Engine::Yakv));
    assert_eq!(Engine::from_name("sled"), Some(Engine::Sled));
    assert_eq!(Engine::from_name("redis"), None);
    assert_eq!(Engine::from_name("yakvs"), None);
}

#[test]
fn engine_markers() {
    assert_eq!(engine_of_entry("engine_sled_data"), Some(Engine::Sled));
    assert_eq!(engine_of_entry("engine_yakv_data"), Some(Engine::Yakv));
    assert_eq!(engine_of_entry("engine_sledx"), None);
    assert_eq!(engine_of_entry("1.log"), None);
}

#[test]
fn engine_mismatch_is_refused() {
    let entries = vec!["engine_sled_data".to_string(), "1.log".to_string()];
    assert_eq!(check_engine(Engine::Yakv, &entries), Err(KvError::EngineMismatch));
    assert_eq!(check_engine(Engine::Sled, &entries), Ok(()));
    assert_eq!(check_engine(Engine::Yakv, &vec!["1.log".to_string()]), Ok(()));
    assert_eq!(check_engine(Engine::Sled, &Vec::new()), Ok(()));
    let yakv = vec!["engine_yakv_data".to_string()];
    assert_eq!(check_engine(Engine::Yakv, &yakv), Ok(()));
}

#[test]
fn keys_order_by_bytes() {
    assert!(key_less("a", "b"));
    assert!(!key_less("b", "a"));
    assert!(!key_less("a", "a"));
    assert!(key_less("a", "ab"));
    assert!(!key_less("ab", "a"));
    assert!(key_less("", "a"));
    assert!(!key_less("é", "z"));
    assert!(key_less("Z", "a"));
}

#[test]
fn segment_files_keep_their_names() {
    let names: Vec<String> = vec!["3.log", "notes", "01.log", "+2.log"].into_iter().map(String::from).collect();
    assert_eq!(segment_files(&names).unwrap(), vec![(1, 2), (2, 3), (3, 0)]);
    let clash: Vec<String> = vec!["1.log", "01.log"].into_iter().map(String::from).collect();
    assert!(matches!(segment_files(&clash), Err(KvError::Other(_))));
    assert_eq!(segment_files(&Vec::new()).unwrap(), Vec::new());
}
