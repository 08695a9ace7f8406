use pixel_paint_rs::app::session::{autosave_due, fresh_document, sync_active_tab_title_with_stem};
use pixel_paint_rs::domain::document::PaintDocument;
use pixel_paint_rs::domain::tab::{PaintTab, DEFAULT_CANVAS_HEIGHT, DEFAULT_CANVAS_WIDTH};

fn titles(doc: &PaintDocument) -> Vec<String> {
    doc.tabs.iter().map(|t| t.title.clone()).collect()
}

fn ids(doc: &PaintDocument) -> Vec<u64> {
    doc.tabs.iter().map(|t| t.id).collect()
}

#[test]
fn new_document_has_one_empty_tab() {
    let doc = PaintDocument::new_with_title("Sheet 1".to_string());
    assert_eq!(doc.format_version, 1);
    assert_eq!(doc.active_tab_id, 1);
    assert_eq!(doc.next_tab_id, 2);
    assert_eq!(doc.next_stroke_id, 1);
    assert_eq!(ids(&doc), vec![1]);
    assert_eq!(titles(&doc), vec!["Sheet 1".to_string()]);
    assert_eq!(doc.tabs[0].canvas_width, 3200);
    assert_eq!(doc.tabs[0].canvas_height, 2000);
    assert!(doc.tabs[0].draw_strokes.is_empty());
}

#[test]
fn paint_tab_new_uses_default_canvas() {
    let tab = PaintTab::new(7, "T".to_string());
    assert_eq!(tab.id, 7);
    assert_eq!(tab.title, "T");
    assert_eq!(tab.canvas_width, DEFAULT_CANVAS_WIDTH);
    assert_eq!(tab.canvas_height, DEFAULT_CANVAS_HEIGHT);
    assert!(tab.draw_strokes.is_empty());
}

#[test]
fn add_tab_makes_it_active_with_next_id() {
    let mut doc = PaintDocument::new_with_title("A".to_string());
    let id = doc.add_tab_with_title("B".to_string());
    assert_eq!(id, 2);
    assert_eq!(doc.active_tab_id, 2);
    assert_eq!(doc.next_tab_id, 3);
    assert_eq!(ids(&doc), vec![1, 2]);
    assert_eq!(titles(&doc), vec!["A".to_string(), "B".to_string()]);
    assert_eq!(doc.tab_index(2), Some(1));
    assert_eq!(doc.tab_index(9), None);
}

#[test]
fn set_active_tab_ignores_unknown_ids() {
    let mut doc = PaintDocument::new_with_title("A".to_string());
    doc.add_tab_with_title("B".to_string());
    doc.set_active_tab(1);
    assert_eq!(doc.active_tab_id, 1);
    doc.set_active_tab(42);
    assert_eq!(doc.active_tab_id, 1);
    assert_eq!(doc.active_tab().map(|t| t.id), Some(1));
}

#[test]
fn rename_tab_trims_and_refuses_blank_titles() {
    let mut doc = PaintDocument::new_with_title("A".to_string());
    assert!(doc.rename_tab(1, "  Landscape \t".to_string()));
    assert_eq!(doc.tabs[0].title, "Landscape");
    assert!(!doc.rename_tab(1, "   ".to_string()));
    assert_eq!(doc.tabs[0].title, "Landscape");
    assert!(!doc.rename_tab(5, "X".to_string()));
    assert_eq!(doc.tabs[0].title, "Landscape");
}

#[test]
fn remove_tab_keeps_the_last_tab() {
    let mut doc = PaintDocument::new_with_title("A".to_string());
    assert!(!doc.remove_tab(1));
    assert_eq!(ids(&doc), vec![1]);
}

#[test]
fn remove_active_tab_activates_first_remaining() {
    let mut doc = PaintDocument::new_with_title("A".to_string());
    doc.add_tab_with_title("B".to_string());
    doc.add_tab_with_title("C".to_string());
    assert_eq!(doc.active_tab_id, 3);
    assert!(doc.remove_tab(3));
    assert_eq!(ids(&doc), vec![1, 2]);
    assert_eq!(doc.active_tab_id, 1);
    assert!(!doc.remove_tab(3));
}

#[test]
fn remove_inactive_tab_keeps_active() {
    let mut doc = PaintDocument::new_with_title("A".to_string());
    doc.add_tab_with_title("B".to_string());
    assert!(doc.remove_tab(1));
    assert_eq!(ids(&doc), vec![2]);
    assert_eq!(doc.active_tab_id, 2);
}

#[test]
fn remove_tab_or_create_new_replaces_last_tab() {
    let mut doc = PaintDocument::new_with_title("A".to_string());
    assert!(doc.remove_tab_or_create_new(1, "Fresh".to_string()));
    assert_eq!(ids(&doc), vec![2]);
    assert_eq!(titles(&doc), vec!["Fresh".to_string()]);
    assert_eq!(doc.active_tab_id, 2);
    assert_eq!(doc.next_tab_id, 3);
    assert!(!doc.remove_tab_or_create_new(99, "Other".to_string()));
    assert_eq!(ids(&doc), vec![2]);
}

#[test]
fn active_tab_strokes_follow_active_tab() {
    let mut doc = PaintDocument::new_with_title("A".to_string());
    assert_eq!(doc.active_tab_strokes().map(|s| s.len()), Some(0));
    doc.active_tab_id = 77;
    assert!(doc.active_tab().is_none());
    assert!(doc.active_tab_strokes().is_none());
    assert!(doc.active_tab_strokes_mut().is_none());
    assert!(doc.tab_strokes_mut(1).is_some());
}

#[test]
fn fresh_document_is_titled_by_sheet_name() {
    let doc = fresh_document("Sheet");
    assert_eq!(titles(&doc), vec!["Sheet 1".to_string()]);
    assert_eq!(doc.active_tab_id, 1);
}

#[test]
fn sync_title_with_stem_renames_active_tab() {
    let mut doc = fresh_document("Sheet");
    sync_active_tab_title_with_stem(&mut doc, Some(" drawing "));
    assert_eq!(doc.tabs[0].title, "drawing");
    sync_active_tab_title_with_stem(&mut doc, None);
    assert_eq!(doc.tabs[0].title, "drawing");
    sync_active_tab_title_with_stem(&mut doc, Some("  "));
    assert_eq!(doc.tabs[0].title, "drawing");
}

#[test]
fn autosave_waits_for_changes_and_interval() {
    assert!(!autosave_due(false, 100, 30));
    assert!(!autosave_due(true, 29, 30));
    assert!(autosave_due(true, 30, 30));
    assert!(autosave_due(true, 31, 30));
}

#[test]
fn set_tab_title_takes_title_as_given() {
    let mut doc = PaintDocument::new_with_title("A".to_string());
    assert!(doc.set_tab_title(1, " spaced "));
    assert_eq!(doc.tabs[0].title, " spaced ");
    assert!(!doc.set_tab_title(1, ""));
    assert!(!doc.set_tab_title(3, "X"));
    assert_eq!(doc.tabs[0].title, " spaced ");
}

#[test]
fn removing_the_tab_just_added_restores_the_tabs() {
    let mut doc = PaintDocument::new_with_title("A".to_string());
    doc.add_tab_with_title("B".to_string());
    doc.set_active_tab(2);
    let before = ids(&doc);
    let before_titles = titles(&doc);
    let id = doc.add_tab_with_title("C".to_string());
    assert!(doc.remove_tab(id));
    assert_eq!(ids(&doc), before);
    assert_eq!(titles(&doc), before_titles);
    assert_eq!(doc.active_tab_id, 1);
    assert_eq!(doc.next_tab_id, 4);
}
