use drive_inventory::crawl::AppendDecision;
use drive_inventory::index::MetadataIndex;
use drive_inventory::overview::{
    foreign_parent_positions, total_usage, unusual_parent_positions, FOREIGN_PARENT_MIN_BYTES,
};
use drive_inventory::record::flatten;
use drive_inventory::tree::{tree_report, TreeError};
use drive_inventory::{CrawlState, FileRecord, Page};

fn rec(id: &str, parents: &[&str], quota: Option<u64>, name: &str) -> FileRecord {
    FileRecord {
        id: id.to_string(),
        mime_type: "application/octet-stream".to_string(),
        parents: parents.iter().map(|p| p.to_string()).collect(),
        name: name.to_string(),
        quota_bytes_used: quota,
        size: None,
        sha256_checksum: None,
    }
}

fn page(files: Vec<FileRecord>, token: Option<&str>) -> Page {
    Page { files, next_page_token: token.map(|t| t.to_string()) }
}

#[test]
fn resume_uses_exactly_the_last_pages_token() {
    let state = CrawlState::from_pages(vec![
        page(vec![rec("a", &[], None, "a")], Some("tok-1")),
        page(vec![rec("b", &[], None, "b")], Some("tok-2")),
    ]);
    assert!(!state.is_complete());
    assert_eq!(state.next_token(), "tok-2");
}

#[test]
fn empty_state_starts_from_the_beginning() {
    let state = CrawlState::new();
    assert!(!state.is_complete());
    assert_eq!(state.next_token(), "");
    assert_eq!(state.len(), 0);
}

#[test]
fn a_page_without_token_completes_the_crawl() {
    let state = CrawlState::from_pages(vec![page(vec![], None)]);
    assert!(state.is_complete());
}

#[test]
fn checkpoint_cadence_saves_on_every_tenth_page() {
    let mut state = CrawlState::new();
    for i in 0..25u64 {
        let d = state.append_page(page(vec![], Some("t")), false);
        let n = i + 1;
        if n % 10 == 0 {
            assert_eq!(d, AppendDecision::SaveAndContinue, "page {n}");
        } else {
            assert_eq!(d, AppendDecision::Continue, "page {n}");
        }
    }
    assert_eq!(state.len(), 25);
}

#[test]
fn interrupt_saves_and_stops_regardless_of_page_count() {
    let mut state = CrawlState::new();
    for _ in 0..3 {
        assert_eq!(state.append_page(page(vec![], Some("t")), false), AppendDecision::Continue);
    }
    let d = state.append_page(page(vec![], Some("t")), true);
    assert_eq!(d, AppendDecision::SaveAndStop);
    assert_eq!(state.len(), 4);
}

#[test]
fn index_build_is_idempotent() {
    let pages = vec![
        page(vec![rec("a", &[], Some(1), "a"), rec("b", &["a"], Some(2), "b")], Some("t")),
        page(vec![rec("c", &["a"], Some(3), "c")], None),
    ];
    let ix1 = MetadataIndex::build(&pages);
    let ix2 = MetadataIndex::build(&pages);
    for id in ["a", "b", "c", "zzz"] {
        let key = id.to_string();
        let r1 = ix1.record_by_id(&key).map(|f| f.name.clone());
        let r2 = ix2.record_by_id(&key).map(|f| f.name.clone());
        assert_eq!(r1, r2);
        assert_eq!(ix1.children_positions(&key), ix2.children_positions(&key));
    }
    assert_eq!(ix1.children_positions(&"a".to_string()), vec![1usize, 2usize]);
}

#[test]
fn duplicate_ids_keep_the_later_record() {
    let pages = vec![
        page(vec![rec("a", &[], Some(1), "first")], Some("t")),
        page(vec![rec("a", &[], Some(2), "second")], None),
    ];
    let ix = MetadataIndex::build(&pages);
    assert_eq!(ix.record_by_id(&"a".to_string()).unwrap().name, "second");
}

#[test]
fn total_usage_sums_quota_and_treats_absent_as_zero() {
    let files = vec![
        rec("a", &[], Some(10), "a"),
        rec("b", &[], None, "b"),
        rec("c", &[], Some(32), "c"),
    ];
    assert_eq!(total_usage(&files), 42);
}

#[test]
fn records_without_exactly_one_parent_are_flagged() {
    let files = vec![
        rec("a", &[], Some(1), "no parent"),
        rec("b", &["a"], Some(1), "one parent"),
        rec("c", &["a", "b"], Some(1), "two parents"),
    ];
    assert_eq!(unusual_parent_positions(&files), vec![0usize, 2usize]);
}

#[test]
fn sizable_record_under_unknown_parent_is_reported() {
    let files = vec![
        rec("root", &[], None, "root"),
        rec("big", &["elsewhere"], Some(2048), "big"),
    ];
    let hits = foreign_parent_positions(&files, FOREIGN_PARENT_MIN_BYTES);
    assert_eq!(hits, vec![1usize]);
}

#[test]
fn tiny_record_under_unknown_parent_is_suppressed() {
    let files = vec![
        rec("root", &[], None, "root"),
        rec("small", &["elsewhere"], Some(500), "small"),
    ];
    let hits = foreign_parent_positions(&files, FOREIGN_PARENT_MIN_BYTES);
    assert!(hits.is_empty());
}

#[test]
fn known_parents_are_not_reported_as_foreign() {
    let files = vec![
        rec("root", &[], None, "root"),
        rec("big", &["root"], Some(2048), "big"),
    ];
    assert!(foreign_parent_positions(&files, FOREIGN_PARENT_MIN_BYTES).is_empty());
}

#[test]
fn tree_aggregates_child_sizes_into_the_parent() {
    let ten_mib = 10 * (1 << 20);
    let forty_five_mib = 45 * (1 << 20);
    let files = vec![
        rec("a", &[], Some(ten_mib), "alpha"),
        rec("b", &["a"], Some(forty_five_mib), "beta"),
    ];
    let lines = tree_report(&files).unwrap();
    // Only the combined 55 MiB of alpha crosses the 50 MiB threshold;
    // beta's own 45 MiB does not print.
    assert_eq!(lines, vec!["o 55.00 MiB  alpha".to_string()]);
}

#[test]
fn unknown_parent_gets_a_synthesized_root_line() {
    let sixty_mib = 60 * (1 << 20);
    let files = vec![rec("x", &["ghost"], Some(sixty_mib), "xenon")];
    let lines = tree_report(&files).unwrap();
    // Post-order: the record prints before its synthesized root, one level in.
    assert_eq!(
        lines,
        vec![" o 60.00 MiB  xenon".to_string(), "o 60.00 MiB  Root (ghost)".to_string()]
    );
}

#[test]
fn nodes_below_threshold_print_nothing() {
    let files = vec![rec("a", &[], Some(1024), "tiny")];
    let lines = tree_report(&files).unwrap();
    assert!(lines.is_empty());
}

#[test]
fn multi_parent_record_fails_tree_mode_with_no_output() {
    let files = vec![
        rec("a", &[], Some(1), "a"),
        rec("b", &["a", "a2"], Some(60 * (1 << 20)), "b"),
    ];
    match tree_report(&files) {
        Err(TreeError::MultipleParents) => {}
        other => panic!("expected a structural violation, got {other:?}"),
    }
}

#[test]
fn flatten_keeps_page_then_within_page_order() {
    let pages = vec![
        page(vec![rec("a", &[], None, "a"), rec("b", &[], None, "b")], Some("t")),
        page(vec![rec("c", &[], None, "c")], None),
    ];
    let files = flatten(&pages);
    let ids: Vec<&str> = files.iter().map(|f| f.id.as_str()).collect();
    assert_eq!(ids, vec!["a", "b", "c"]);
}
