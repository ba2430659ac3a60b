use graphalfred::edge::{map_store_error, new_link, normalize_edge, ApiError, Link, StoreError};
use graphalfred::layout::{
    auto_layout_plan, default_spawn_position, degree_order, note_degree, ring_placements, Placement,
    LAYOUT_RING_SPACING, SPAWN_RING_SPACING,
};
use graphalfred::reconcile::{new_note_links, plan_related_links, LinkPlan};
use graphalfred::search::{contains_ignoring_case, search_limit, search_results, substring_scan, SearchDocument};
use graphalfred::text::{check_title, phrase_query, prepare_note_text, search_query, validate_title};

fn link(a: i64, b: i64) -> Link {
    Link { source_id: a, target_id: b }
}

fn doc(id: i64, title: &str, subtitle: &str, content: &str) -> SearchDocument {
    SearchDocument {
        id,
        title: title.to_string(),
        subtitle: subtitle.to_string(),
        content: content.to_string(),
    }
}

fn apply(links: &[Link], plan: &LinkPlan) -> Vec<Link> {
    let mut out: Vec<Link> = links.iter().copied().filter(|l| !plan.remove.contains(l)).collect();
    for l in &plan.add {
        if !out.contains(l) {
            out.push(*l);
        }
    }
    out.sort_by_key(|l| (l.source_id, l.target_id));
    out
}

#[test]
fn normalize_is_symmetric() {
    for (a, b) in [(1, 2), (5, -3), (i64::MIN, i64::MAX), (7, 8)] {
        let x = normalize_edge(a, b).unwrap();
        let y = normalize_edge(b, a).unwrap();
        assert_eq!(x, y);
        assert_eq!(x, (a.min(b), a.max(b)));
    }
}

#[test]
fn normalize_rejects_self_loop() {
    for a in [0, 1, -9, i64::MAX] {
        assert!(matches!(normalize_edge(a, a), Err(StoreError::Validation(_))));
    }
}

#[test]
fn store_errors_map_to_api_errors() {
    assert_eq!(map_store_error(StoreError::Validation("bad".to_string())), ApiError::BadRequest("bad".to_string()));
    assert_eq!(map_store_error(StoreError::NotFound("gone".to_string())), ApiError::NotFound("gone".to_string()));
    assert_eq!(map_store_error(StoreError::Internal("io".to_string())), ApiError::Internal("io".to_string()));
}

#[test]
fn duplicate_link_requests_give_one_edge() {
    let ids = vec![1, 2];
    let first = new_link(2, 1, &ids).unwrap();
    let second = new_link(1, 2, &ids).unwrap();
    assert_eq!(first, link(1, 2));
    assert_eq!(first, second);
    let mut stored: Vec<Link> = Vec::new();
    for l in [first, second] {
        if !stored.contains(&l) {
            stored.push(l);
        }
    }
    assert_eq!(stored, vec![link(1, 2)]);
}

#[test]
fn link_to_missing_or_same_note_is_rejected() {
    let ids = vec![1, 2];
    assert!(matches!(new_link(1, 3, &ids), Err(StoreError::Validation(_))));
    assert!(matches!(new_link(3, 1, &ids), Err(StoreError::Validation(_))));
    assert!(matches!(new_link(2, 2, &ids), Err(StoreError::Validation(_))));
}

#[test]
fn spawn_positions_follow_the_ring_formula() {
    for count in 0..8usize {
        let p = default_spawn_position(count);
        assert_eq!(p, Placement { ring: 1, slot: count, slots: 8 });
    }
    assert_eq!(default_spawn_position(8), Placement { ring: 2, slot: 0, slots: 8 });
    assert_eq!(default_spawn_position(19), Placement { ring: 3, slot: 3, slots: 8 });
}

#[test]
fn first_three_notes_spawn_on_the_first_ring() {
    let expected = [(140.0, 0.0), (98.99494936611666, 98.99494936611666), (0.0, 140.0)];
    for (count, (ex, ey)) in expected.iter().enumerate() {
        let p = default_spawn_position(count);
        let radius = p.ring as f64 * SPAWN_RING_SPACING as f64;
        let angle = (p.slot as f64 / p.slots as f64) * std::f64::consts::TAU;
        assert!((radius * angle.cos() - ex).abs() < 1e-9);
        assert!((radius * angle.sin() - ey).abs() < 1e-9);
    }
}

#[test]
fn rings_fill_outward() {
    let r = ring_placements(9);
    assert_eq!(r[0], Placement { ring: 0, slot: 0, slots: 1 });
    for k in 1..7 {
        assert_eq!(r[k], Placement { ring: 1, slot: k - 1, slots: 6 });
    }
    assert_eq!(r[7], Placement { ring: 2, slot: 0, slots: 12 });
    assert_eq!(r[8], Placement { ring: 2, slot: 1, slots: 12 });
    assert!(ring_placements(0).is_empty());
    assert_eq!(ring_placements(19)[18], Placement { ring: 2, slot: 11, slots: 12 });
    assert_eq!(ring_placements(20)[19], Placement { ring: 3, slot: 0, slots: 18 });
    assert_eq!(LAYOUT_RING_SPACING, 180);
}

#[test]
fn degree_counts_touching_links() {
    let links = vec![link(1, 2), link(2, 3), link(3, 4)];
    assert_eq!(note_degree(2, &links), 2);
    assert_eq!(note_degree(4, &links), 1);
    assert_eq!(note_degree(9, &links), 0);
}

#[test]
fn degree_order_is_stable_and_descending() {
    assert_eq!(degree_order(&vec![1, 3, 3, 0, 1]), vec![1, 2, 0, 4, 3]);
    assert_eq!(degree_order(&vec![]), Vec::<usize>::new());
    assert_eq!(degree_order(&vec![0, 0, 0]), vec![0, 1, 2]);
}

#[test]
fn layout_puts_the_hub_at_the_origin() {
    let ids = vec![10, 20, 30];
    let links = vec![link(10, 20), link(20, 30)];
    let plan = auto_layout_plan(&ids, &links);
    assert_eq!(plan.len(), 3);
    assert_eq!(plan[0].id, 20);
    assert_eq!(plan[0].placement, Placement { ring: 0, slot: 0, slots: 1 });
    assert_eq!(plan[1].id, 10);
    assert_eq!(plan[1].placement, Placement { ring: 1, slot: 0, slots: 6 });
    assert_eq!(plan[2].id, 30);
    assert_eq!(plan[2].placement, Placement { ring: 1, slot: 1, slots: 6 });
}

#[test]
fn layout_without_links_gives_distinct_positions() {
    let ids: Vec<i64> = (1..=20).collect();
    let plan = auto_layout_plan(&ids, &Vec::new());
    assert_eq!(plan.len(), 20);
    assert_eq!(plan[0].id, 1);
    assert_eq!(plan.iter().filter(|p| p.placement.ring == 0).count(), 1);
    for a in 0..plan.len() {
        assert_eq!(plan[a].id, ids[a]);
        for b in (a + 1)..plan.len() {
            let pa = (plan[a].placement.ring, plan[a].placement.slot);
            let pb = (plan[b].placement.ring, plan[b].placement.slot);
            assert_ne!(pa, pb);
        }
    }
}

#[test]
fn related_update_replaces_old_links() {
    let plan = plan_related_links(1, &vec![2, 3], &vec![1, 2, 3, 4], &vec![link(1, 4), link(2, 3)]);
    assert_eq!(plan.remove, vec![link(1, 4)]);
    assert_eq!(plan.add, vec![link(1, 2), link(1, 3)]);
    let after = apply(&[link(1, 4), link(2, 3)], &plan);
    assert_eq!(after, vec![link(1, 2), link(1, 3), link(2, 3)]);
}

#[test]
fn related_sync_twice_equals_once() {
    let ids = vec![1, 2, 3, 4, 5];
    let related = vec![5, 3, 1, 3, 9];
    let start = vec![link(1, 3), link(2, 3), link(3, 4)];
    let once = apply(&start, &plan_related_links(3, &related, &ids, &start));
    let again_plan = plan_related_links(3, &related, &ids, &once);
    assert!(again_plan.remove.is_empty());
    assert!(again_plan.add.is_empty());
    assert_eq!(apply(&once, &again_plan), once);
    assert_eq!(once, vec![link(1, 3), link(3, 5)]);
}

#[test]
fn new_note_links_skip_self_and_duplicates() {
    let ids = vec![1, 2, 3];
    let v = new_note_links(3, &vec![1, 3, 1, 2], &ids).unwrap();
    assert_eq!(v, vec![link(1, 3), link(2, 3)]);
    assert!(matches!(new_note_links(3, &vec![1, 7], &ids), Err(StoreError::Validation(_))));
    assert_eq!(new_note_links(3, &vec![], &ids).unwrap(), Vec::<Link>::new());
}

#[test]
fn blank_titles_are_rejected() {
    for t in ["", "   ", "\t\n "] {
        assert!(matches!(validate_title(t), Err(StoreError::Validation(_))));
        assert!(prepare_note_text(t, Some("s".to_string()), None).is_err());
    }
    assert!(matches!(check_title(""), Err(StoreError::Validation(_))));
    assert_eq!(check_title("x").unwrap(), "x");
}

#[test]
fn titles_are_trimmed() {
    assert_eq!(validate_title("  Alpha beta \n").unwrap(), "Alpha beta");
    let n = prepare_note_text(" T ", None, Some("body".to_string())).unwrap();
    assert_eq!(n.title, "T");
    assert_eq!(n.subtitle, "");
    assert_eq!(n.content, "body");
}

#[test]
fn search_query_is_trimmed_or_absent() {
    assert_eq!(search_query("   "), None);
    assert_eq!(search_query(""), None);
    assert_eq!(search_query("  graph note "), Some("graph note".to_string()));
}

#[test]
fn phrase_query_blanks_quotes() {
    assert_eq!(phrase_query("a \"b\""), "\"a  b \"");
    assert_eq!(phrase_query("plain"), "\"plain\"");
    assert_eq!(phrase_query(""), "\"\"");
}

#[test]
fn substring_match_ignores_ascii_case() {
    assert!(contains_ignoring_case(b"Hello World", b"o wOR"));
    assert!(contains_ignoring_case(b"abc", b""));
    assert!(!contains_ignoring_case(b"abc", b"abcd"));
    assert!(!contains_ignoring_case(b"abc", b"x"));
}

#[test]
fn substring_scan_keeps_order_and_limit() {
    let docs = vec![
        doc(5, "Rust notes", "", ""),
        doc(3, "Other", "about RUST", ""),
        doc(9, "Nothing", "", "here"),
        doc(1, "x", "", "rusty"),
    ];
    assert_eq!(substring_scan("rust", &docs, 10), vec![5, 3, 1]);
    assert_eq!(substring_scan("rust", &docs, 2), vec![5, 3]);
    assert_eq!(substring_scan("rust", &docs, 0), Vec::<i64>::new());
    assert_eq!(substring_scan("zzz", &docs, 5), Vec::<i64>::new());
}

#[test]
fn search_prefers_index_hits_and_skips_stale_ones() {
    let docs = vec![doc(2, "Beta", "", ""), doc(1, "Alpha", "", "")];
    assert_eq!(search_results("alpha", &vec![1, 7, 2], &docs, 20), vec![1, 2]);
    assert_eq!(search_results("lph", &vec![], &docs, 20), vec![1]);
}

#[test]
fn deleted_note_is_never_returned() {
    let docs = vec![doc(2, "Beta", "", "")];
    assert_eq!(search_results("alpha", &vec![1], &docs, 20), Vec::<i64>::new());
    assert_eq!(search_results("Beta", &vec![], &docs, 20), vec![2]);
    assert_eq!(search_results("alpha", &vec![], &docs, 20), Vec::<i64>::new());
}

#[test]
fn unique_title_substring_finds_its_note() {
    let docs = vec![doc(4, "Meeting", "", ""), doc(8, "Quarterly zebra roundup", "", "")];
    assert_eq!(search_results("zebra", &vec![], &docs, 20), vec![8]);
    assert_eq!(search_results("zebra", &vec![8], &docs, 20), vec![8]);
}

#[test]
fn search_limit_defaults_and_clamps() {
    assert_eq!(search_limit(None), 20);
    assert_eq!(search_limit(Some(0)), 1);
    assert_eq!(search_limit(Some(7)), 7);
    assert_eq!(search_limit(Some(100)), 100);
    assert_eq!(search_limit(Some(5000)), 100);
}
