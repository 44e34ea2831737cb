use docversion::records::{FileBlock, VersionRecord};
use docversion::search::{effective_top_k, in_placeholders, keyword_pattern, make_snippet, search_filter_clause, trim_chars, SearchFiltersDto,
    filters_from_dto, nanos_of_instant, parse_date, date_of_instant, FilterError};
use docversion::store::{
    blocks_in_order, count_new_blocks, rebuild_start, is_full_snapshot, is_unchanged, next_version_number, plan_new_version,
    vector_components, version_description, VectorError, WatchError, WatchState,
};

#[test]
fn version_numbers() {
    assert_eq!(next_version_number(None), 1);
    assert_eq!(next_version_number(Some(7)), 8);
    assert!(is_full_snapshot(1));
    assert!(is_full_snapshot(10));
    assert!(is_full_snapshot(30));
    assert!(!is_full_snapshot(2));
    assert!(!is_full_snapshot(11));
}

#[test]
fn unchanged_content() {
    assert!(is_unchanged(&"abc".to_string(), &"abc".to_string()));
    assert!(!is_unchanged(&"".to_string(), &"".to_string()));
    assert!(!is_unchanged(&"abc".to_string(), &"abd".to_string()));
}

#[test]
fn planning_versions() {
    assert_eq!(plan_new_version(&"h".to_string(), &"h".to_string(), Some(3)), None);
    assert_eq!(plan_new_version(&"".to_string(), &"h".to_string(), None), Some((1, true)));
    assert_eq!(plan_new_version(&"h".to_string(), &"k".to_string(), Some(9)), Some((10, true)));
    assert_eq!(plan_new_version(&"h".to_string(), &"k".to_string(), Some(4)), Some((5, false)));
}

fn record(n: i64, full: bool, blocks: i64) -> VersionRecord {
    VersionRecord {
        id: 1,
        file_id: 1,
        version_number: n,
        timestamp: 0,
        diff_patch: String::new(),
        prev_content_hash: String::new(),
        new_content_hash: String::new(),
        content_snapshot: None,
        is_full_snapshot: full,
        file_size: 10,
        block_count: blocks,
    }
}

#[test]
fn descriptions() {
    assert_eq!(version_description(&record(1, true, 3)), "初始版本");
    assert_eq!(version_description(&record(10, true, 4)), "完整快照版本 #10 (4 个块)");
    assert_eq!(version_description(&record(2, false, 1)), "增量版本 #2 (1 个块)");
}

#[test]
fn vector_bytes() {
    let v = vector_components(&[1, 2, 3, 4, 5, 6, 7, 8]).unwrap();
    assert_eq!(v, vec![[1, 2, 3, 4], [5, 6, 7, 8]]);
    assert!(vector_components(&[]).unwrap().is_empty());
    assert_eq!(vector_components(&[1, 2, 3]), Err(VectorError::BadLength));
    let x: f32 = 1.5;
    let comps = vector_components(&x.to_le_bytes()).unwrap();
    assert_eq!(f32::from_le_bytes(comps[0]), 1.5);
}

#[test]
fn new_blocks() {
    let hashes = vec!["a".to_string(), "b".to_string(), "c".to_string()];
    let kept = vec!["b".to_string()];
    assert_eq!(count_new_blocks(&hashes, &kept), 2);
    assert_eq!(count_new_blocks(&hashes, &hashes), 0);
}

#[test]
fn ordered_blocks() {
    let entries = vec![(0, "h1".to_string()), (1, "h2".to_string()), (2, "h3".to_string())];
    let stored = vec![("h3".to_string(), vec![3u8, 3]), ("h1".to_string(), vec![1u8])];
    let blocks: Vec<FileBlock> = blocks_in_order(&entries, &stored);
    assert_eq!(blocks.len(), 2);
    assert_eq!((blocks[0].index, blocks[0].hash.as_str(), blocks[0].data.clone(), blocks[0].size), (0, "h1", vec![1u8], 1));
    assert_eq!((blocks[1].index, blocks[1].hash.as_str(), blocks[1].data.clone(), blocks[1].size), (2, "h3", vec![3u8, 3], 2));
}

#[test]
fn watching_one_folder_at_a_time() {
    let mut w = WatchState::new();
    assert!(!w.is_watching());
    assert_eq!(w.start("/a".to_string()), Ok(()));
    assert_eq!(w.start("/b".to_string()), Err(WatchError::AlreadyWatching));
    assert_eq!(w.watched_path.as_deref(), Some("/a"));
    w.stop();
    assert!(!w.is_watching());
    assert_eq!(w.start("/b".to_string()), Ok(()));
}

#[test]
fn top_k() {
    assert_eq!(effective_top_k(None), 20);
    assert_eq!(effective_top_k(Some(0)), 1);
    assert_eq!(effective_top_k(Some(50)), 50);
    assert_eq!(effective_top_k(Some(1000)), 100);
}

#[test]
fn filter_clauses() {
    assert_eq!(search_filter_clause(0, false, false, false), "");
    assert_eq!(search_filter_clause(2, false, false, false), " AND f.file_type IN (?1, ?2)");
    assert_eq!(
        search_filter_clause(1, true, true, true),
        " AND f.file_type IN (?1) AND v.timestamp >= ?2 AND v.timestamp <= ?3 AND f.path LIKE ?4"
    );
    assert_eq!(search_filter_clause(0, false, true, true), " AND v.timestamp <= ?1 AND f.path LIKE ?2");
    assert_eq!(in_placeholders(3), "?1, ?2, ?3");
    assert_eq!(in_placeholders(0), "");
    assert_eq!(keyword_pattern("notes"), "%notes%");
}

#[test]
fn snippets() {
    assert_eq!(make_snippet("  short text \n"), "short text");
    let long = "x".repeat(250);
    assert_eq!(make_snippet(&long), format!("{}...", "x".repeat(200)));
    let wide = "é".repeat(150);
    assert_eq!(make_snippet(&wide), format!("{}...", "é".repeat(100)));
    let exact = "y".repeat(200);
    assert_eq!(make_snippet(&exact), exact);
}

#[test]
fn trimming() {
    let t = trim_chars(&"\t a b \n".chars().collect());
    assert_eq!(t, vec!['a', ' ', 'b']);
    assert!(trim_chars(&"   ".chars().collect()).is_empty());
}

#[test]
fn filters_dto() {
    let f = SearchFiltersDto { file_types: Some(vec!["rs".to_string()]), date_from: None, date_to: None, path_keyword: Some("src".to_string()) };
    assert_eq!(f.file_types.as_ref().map(|v| v.len()), Some(1));
}

fn dto(from: Option<&str>, to: Option<&str>) -> SearchFiltersDto {
    SearchFiltersDto {
        file_types: Some(vec!["rs".to_string(), "md".to_string()]),
        date_from: from.map(|s| s.to_string()),
        date_to: to.map(|s| s.to_string()),
        path_keyword: Some("src".to_string()),
    }
}

#[test]
fn filter_dates_are_read() {
    let sf = filters_from_dto(dto(Some("2024-01-02T03:04:05Z"), Some("2024-01-02T11:04:05.5+08:00"))).unwrap();
    assert_eq!(sf.date_from, Some(1_704_164_645_000_000_000));
    assert_eq!(sf.date_to, Some(1_704_164_645_500_000_000));
    assert_eq!(sf.file_types, Some(vec!["rs".to_string(), "md".to_string()]));
    assert_eq!(sf.path_keyword, Some("src".to_string()));
    let none = filters_from_dto(dto(None, None)).unwrap();
    assert_eq!(none.date_from, None);
    assert_eq!(none.date_to, None);
}

#[test]
fn bad_filter_date_is_refused() {
    assert_eq!(filters_from_dto(dto(Some("yesterday"), None)).unwrap_err(), FilterError::BadDate("yesterday".to_string()));
    assert_eq!(filters_from_dto(dto(None, Some("2024-13-01T00:00:00Z"))).unwrap_err(), FilterError::BadDate("2024-13-01T00:00:00Z".to_string()));
    assert_eq!(filters_from_dto(dto(Some("x"), Some("y"))).unwrap_err(), FilterError::BadDate("x".to_string()));
    assert_eq!(parse_date("2024-01-02"), None);
}

#[test]
fn instants_as_nanoseconds() {
    assert_eq!(nanos_of_instant(1, 5), 1_000_000_005);
    assert_eq!(nanos_of_instant(-1, 500), -999_999_500);
    assert_eq!(nanos_of_instant(i64::MAX, 0), i64::MAX);
    assert_eq!(nanos_of_instant(i64::MIN, 999_999_999), i64::MIN);
    assert_eq!(date_of_instant(None), None);
    assert_eq!(date_of_instant(Some((2, 0))), Some(2_000_000_000));
    assert_eq!(parse_date("2300-01-01T00:00:00Z"), Some(i64::MAX));
    assert_eq!(parse_date("1600-01-01T00:00:00Z"), Some(i64::MIN));
    assert_eq!(parse_date("1970-01-01T00:00:01+00:00"), Some(1_000_000_000));
}

#[test]
fn rebuilding_starts_at_last_snapshot() {
    let mut v = vec![record(1, true, 0), record(2, false, 0), record(3, false, 0)];
    v[0].content_snapshot = Some("a".to_string());
    assert_eq!(rebuild_start(&v), 0);
    v[1].content_snapshot = Some("b".to_string());
    assert_eq!(rebuild_start(&v), 1);
    assert_eq!(rebuild_start(&[]), 0);
    let none = vec![record(1, false, 0), record(2, false, 0)];
    assert_eq!(rebuild_start(&none), 0);
}
