use kaku::backlinks::{BacklinkIndex, GraphNote};

#[test]
fn backlink_appears_and_disappears() {
    let mut g = BacklinkIndex::new();
    g.index_note("a", "Target", "# Target\n\nthe target");
    g.index_note("b", "Source", "see [[Target]] here");
    let links = g.get_backlinks_for_uid("a");
    assert_eq!(links.len(), 1);
    assert_eq!(links[0].source_uid, "b");
    assert_eq!(links[0].source_title, "Source");
    assert!(links[0].context.contains("[[Target]]"));
    g.index_note("b", "Source", "no link any more");
    assert!(g.get_backlinks_for_uid("a").is_empty());
}

#[test]
fn backlinks_are_case_folded_and_listed_once() {
    let mut g = BacklinkIndex::new();
    g.index_note("a", "Target", "");
    g.index_note("b", "B", "[[target]] and [[TARGET|again]]");
    let links = g.get_backlinks("TaRgEt");
    assert_eq!(links.len(), 1);
    assert_eq!(links[0].source_uid, "b");
}

#[test]
fn removed_note_leaves_no_backlinks() {
    let mut g = BacklinkIndex::new();
    g.index_note("a", "Target", "");
    g.index_note("b", "B", "[[Target]]");
    g.remove_note("b");
    assert!(g.get_backlinks("Target").is_empty());
    assert!(g.get_backlinks_for_uid("b").is_empty());
}

#[test]
fn rebuild_replaces_everything() {
    let mut g = BacklinkIndex::new();
    g.index_note("old", "Old", "[[X]]");
    let notes = vec![
        GraphNote { uid: "x".to_string(), title: "X".to_string(), content: String::new() },
        GraphNote { uid: "y".to_string(), title: "Y".to_string(), content: "[[X]]".to_string() },
    ];
    g.rebuild(&notes);
    let links = g.get_backlinks_for_uid("x");
    assert_eq!(links.len(), 1);
    assert_eq!(links[0].source_uid, "y");
    assert_eq!(links[0].context, "[[X]]");
}
