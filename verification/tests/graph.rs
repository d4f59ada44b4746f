use liasiondb::edge_table::EdgeTable;
use liasiondb::kb::KnowledgeBase;
use liasiondb::kb::Node;
use liasiondb::ledger::Ledger;

#[test]
fn insert_node_is_idempotent() {
    let mut kb = KnowledgeBase::new();
    let before = kb.node_count();
    let a = kb.insert_node("some text", "doc.md");
    assert_eq!(kb.node_count(), before + 1);
    let b = kb.insert_node("some text", "doc.md");
    assert_eq!(a, b);
    assert_eq!(kb.node_count(), before + 1);
}

#[test]
fn node_identity_distinguishes_filename() {
    let mut kb = KnowledgeBase::new();
    let a = kb.insert_node("same text", "a.md");
    let b = kb.insert_node("same text", "b.md");
    assert_ne!(a, b);
    assert_eq!(kb.node_count(), 2);
}

#[test]
fn indices_assigned_in_insertion_order() {
    let mut kb = KnowledgeBase::new();
    assert_eq!(kb.insert_node("first", "f"), 0);
    assert_eq!(kb.insert_node("second", "f"), 1);
    assert_eq!(kb.insert_node("third", "f"), 2);
    assert_eq!(kb.insert_node("second", "f"), 1);
}

#[test]
fn get_node_returns_what_was_inserted() {
    let mut kb = KnowledgeBase::new();
    let idx = kb.insert_node("alpha", "x.md");
    let node = kb.get_node(idx).unwrap();
    assert_eq!(node.content(), "alpha");
    assert_eq!(node.filename(), "x.md");
    assert!(kb.get_node(idx + 1).is_none());
}

#[test]
fn index_of_finds_present_and_rejects_absent() {
    let mut kb = KnowledgeBase::new();
    let idx = kb.insert_node("alpha", "x.md");
    assert_eq!(kb.index_of("alpha", "x.md"), Some(idx));
    assert_eq!(kb.index_of("alpha", "y.md"), None);
}

#[test]
fn edges_are_append_only() {
    let mut t = EdgeTable::new();
    assert!(t.insert_if_absent(0, 1, 5, "first".to_string()));
    assert!(!t.insert_if_absent(0, 1, 9, "second".to_string()));
    let e = t.get(0, 1).unwrap();
    assert_eq!(e.version, 5);
    assert_eq!(e.tag, "first");
    assert_eq!(t.len(), 1);
}

#[test]
fn edge_rows_stay_in_ascending_key_order() {
    let mut t = EdgeTable::new();
    t.insert_if_absent(2, 1, 0, "t".to_string());
    t.insert_if_absent(0, 9, 0, "t".to_string());
    t.insert_if_absent(2, 0, 0, "t".to_string());
    t.insert_if_absent(1, 4, 0, "t".to_string());
    let mut keys = Vec::new();
    for i in 0..t.len() {
        let row = t.entry_at(i);
        keys.push((row.src, row.dst));
    }
    assert_eq!(keys, vec![(0, 9), (1, 4), (2, 0), (2, 1)]);
}

#[test]
fn tie_break_picks_highest_destination() {
    let mut t = EdgeTable::new();
    t.insert_if_absent(1, 5, 7, "a".to_string());
    t.insert_if_absent(1, 7, 7, "b".to_string());
    assert_eq!(t.best_from(1), Some(7));
}

#[test]
fn best_from_prefers_highest_version() {
    let mut t = EdgeTable::new();
    t.insert_if_absent(1, 9, 0, "old".to_string());
    t.insert_if_absent(1, 2, 3, "new".to_string());
    assert_eq!(t.best_from(1), Some(2));
    assert_eq!(t.best_from(42), None);
}

#[test]
fn divergence_is_preserved_and_latest_path_follows_version() {
    let mut kb = KnowledgeBase::new();
    kb.insert_markdown("A\nB\nC", "doc.md", None, vec![], 0, "version-0");
    kb.insert_markdown("A\nB\nD", "doc.md", None, vec![], 1, "version-1");
    // Nodes: 0 file marker, 1 A, 2 B, 3 C, 4 D.
    let a = kb.index_of("A", "doc.md").unwrap();
    let b = kb.index_of("B", "doc.md").unwrap();
    let c = kb.index_of("C", "doc.md").unwrap();
    let d = kb.index_of("D", "doc.md").unwrap();
    assert!(kb.edges().get(a, b).is_some());
    assert!(kb.edges().get(b, c).is_some());
    assert!(kb.edges().get(b, d).is_some());
    assert_eq!(kb.traverse_latest_path(a), vec![a, b, d]);
}

#[test]
fn latest_path_tie_breaks_on_destination_through_ingestion() {
    let mut kb = KnowledgeBase::new();
    kb.insert_markdown("A\nB", "doc.md", None, vec![], 0, "t");
    kb.insert_markdown("A\nC", "doc.md", None, vec![], 0, "t");
    let a = kb.index_of("A", "doc.md").unwrap();
    let c = kb.index_of("C", "doc.md").unwrap();
    assert_eq!(kb.traverse_latest_path(a), vec![a, c]);
}

#[test]
fn bfs_closures_scope_to_reference_edges() {
    let mut kb = KnowledgeBase::new();
    // Y exists first (in the same file), so the second ingestion creates
    // only X and the reference node R influences X alone, while X -> Y is
    // structural.
    kb.insert_markdown("Y", "two.md", None, vec![], 0, "t");
    let r_node = Node::new("R".to_string(), "".to_string());
    kb.insert_markdown("X\nY", "two.md", None, vec![r_node], 1, "t");
    let x = kb.index_of("X", "two.md").unwrap();
    let y = kb.index_of("Y", "two.md").unwrap();
    let r = kb.index_of("R", "").unwrap();
    assert!(kb.edges().get(x, y).is_some());
    let contaminated = kb.find_contaminated_nodes(r);
    assert!(contaminated.contains(&x));
    assert!(!contaminated.contains(&y));
    assert_eq!(contaminated[0], r);
    let referenced = kb.find_referenced_nodes(x);
    assert!(referenced.contains(&r));
    assert_eq!(referenced[0], x);
    // Y was not created by that ingestion, so nothing influenced it.
    assert_eq!(kb.find_referenced_nodes(y), vec![y]);
}

#[test]
fn round_trip_single_paragraph() {
    let mut kb = KnowledgeBase::new();
    kb.insert_markdown("hello world", "a.txt", None, vec![], 0, "t");
    let (text, indices) = kb.read_file("a.txt").unwrap();
    assert_eq!(text, "hello world");
    assert_eq!(indices, vec![1]);
}

#[test]
fn round_trip_multi_line_document() {
    let mut kb = KnowledgeBase::new();
    kb.insert_markdown("line1\nline2\n\nline3", "a.md", None, vec![], 0, "t");
    let (text, _indices) = kb.read_file("a.md").unwrap();
    assert_eq!(text, "line1\nline2\nline3");
}

#[test]
fn read_file_missing_is_none() {
    let kb = KnowledgeBase::new();
    assert!(kb.read_file("nope.md").is_none());
}

#[test]
fn ledger_dedup_keeps_first_occurrence_order() {
    let mut ledger = Ledger::new();
    ledger.add_nodes(vec![3, 1, 3, 2]);
    assert_eq!(ledger.node_indices, vec![3, 1, 2]);
}

#[test]
fn ledger_dedup_across_calls() {
    let mut ledger = Ledger::new();
    ledger.add_nodes(vec![5, 6]);
    ledger.add_nodes(vec![6, 7, 5]);
    assert_eq!(ledger.node_indices, vec![5, 6, 7]);
}

#[test]
fn end_to_end_ingestion_counts() {
    let mut kb = KnowledgeBase::new();
    let file_idx = kb.insert_markdown("line1\nline2", "a.md", None, vec![], 0, "version-0");
    assert_eq!(kb.node_count(), 3);
    assert_eq!(kb.edge_count(), 2);
    let again = kb.insert_markdown("line1\nline2", "a.md", None, vec![], 1, "version-1");
    assert_eq!(again, file_idx);
    assert_eq!(kb.node_count(), 3);
    assert_eq!(kb.edge_count(), 2);
}

#[test]
fn empty_document_creates_only_the_file_marker() {
    let mut kb = KnowledgeBase::new();
    let parent = kb.insert_directory("docs");
    let file_idx = kb.insert_markdown("", "empty.md", Some(parent), vec![], 0, "t");
    assert_eq!(kb.node_count(), 2);
    assert_eq!(kb.edge_count(), 1);
    assert!(kb.edges().get(parent, file_idx).is_some());
    let (text, indices) = kb.read_file("empty.md").unwrap();
    assert_eq!(text, "");
    assert!(indices.is_empty());
}

#[test]
fn insert_directory_is_idempotent_and_marked() {
    let mut kb = KnowledgeBase::new();
    let a = kb.insert_directory("docs");
    let b = kb.insert_directory("docs");
    assert_eq!(a, b);
    let node = kb.get_node(a).unwrap();
    assert_eq!(node.content(), "DIR: docs");
    assert_eq!(node.filename(), "");
}

#[test]
fn parent_link_is_created_at_the_given_version() {
    let mut kb = KnowledgeBase::new();
    let parent = kb.insert_directory("docs");
    let file_idx = kb.insert_markdown("text", "a.md", Some(parent), vec![], 4, "version-4");
    let edge = kb.edges().get(parent, file_idx).unwrap();
    assert_eq!(edge.version, 4);
    assert_eq!(edge.tag, "version-4");
}

#[test]
fn list_files_is_sorted_and_deduplicated() {
    let mut kb = KnowledgeBase::new();
    kb.insert_markdown("b", "b.md", None, vec![], 0, "t");
    kb.insert_markdown("a", "a.md", None, vec![], 0, "t");
    kb.insert_markdown("a again", "a.md", None, vec![], 1, "t");
    assert_eq!(kb.list_files(), vec!["a.md".to_string(), "b.md".to_string()]);
}

#[test]
fn list_files_ignores_plain_content() {
    let mut kb = KnowledgeBase::new();
    kb.insert_node("just a line", "x.md");
    kb.insert_directory("docs");
    assert!(kb.list_files().is_empty());
}

#[test]
fn traversal_of_unknown_node_is_just_that_node() {
    let kb = KnowledgeBase::new();
    assert_eq!(kb.traverse_latest_path(9), vec![9]);
}

#[test]
fn contaminated_nodes_follow_chains() {
    let mut kb = KnowledgeBase::new();
    let r = Node::new("R".to_string(), "".to_string());
    let file_a = kb.insert_markdown("A", "a.md", None, vec![r], 0, "t");
    let a = kb.index_of("A", "a.md").unwrap();
    let a_node = kb.get_node(a).unwrap();
    kb.insert_markdown("B", "b.md", None, vec![a_node], 1, "t");
    let b = kb.index_of("B", "b.md").unwrap();
    let r_idx = kb.index_of("R", "").unwrap();
    let contaminated = kb.find_contaminated_nodes(r_idx);
    assert_eq!(contaminated, vec![r_idx, a, b]);
    assert!(!contaminated.contains(&file_a));
    let referenced = kb.find_referenced_nodes(b);
    assert_eq!(referenced, vec![b, a, r_idx]);
}
