use pixel_paint_rs::app::editor_state::{EditorState, PaintTool};
use pixel_paint_rs::domain::document::PaintDocument;
use pixel_paint_rs::domain::stroke::DrawPrimitive;
use pixel_paint_rs::persistence::session::{DrawPrimitiveDto, EditorSession, PaintToolDto};
use pixel_paint_rs::text::{decimal_string, trim_str, white_space_char};
use pixel_paint_rs::ui::shortcuts::{shortcut_actions, ShortcutAction, ShortcutInput};
use pixel_paint_rs::ui::tabs::{
    add_sheet_tab, apply_tab_title_edit, begin_tab_rename, delete_tab, ellipsize_tab_title,
    select_tab, sheet_title, title_edit_action, TabTitleEditAction,
};

fn keys() -> ShortcutInput {
    ShortcutInput {
        text_input_active: false,
        command: false,
        shift: false,
        home_pressed: false,
        num0_pressed: false,
        z_pressed: false,
        y_pressed: false,
        n_pressed: false,
        o_pressed: false,
        s_pressed: false,
    }
}

#[test]
fn decimal_strings() {
    assert_eq!(decimal_string(0), "0");
    assert_eq!(decimal_string(7), "7");
    assert_eq!(decimal_string(1234), "1234");
    assert_eq!(decimal_string(u64::MAX), u64::MAX.to_string());
}

#[test]
fn sheet_titles_are_numbered() {
    assert_eq!(sheet_title("Sheet", 2), "Sheet 2");
    assert_eq!(sheet_title("Лист", 10), "Лист 10");
}

#[test]
fn shortcuts_undo_redo() {
    let mut k = keys();
    k.command = true;
    k.z_pressed = true;
    assert_eq!(shortcut_actions(k), vec![ShortcutAction::Undo]);
    k.shift = true;
    assert_eq!(shortcut_actions(k), vec![ShortcutAction::Undo, ShortcutAction::Redo]);
    let mut y = keys();
    y.command = true;
    y.y_pressed = true;
    assert_eq!(shortcut_actions(y), vec![ShortcutAction::Redo]);
}

#[test]
fn shortcuts_save_and_save_as() {
    let mut k = keys();
    k.command = true;
    k.s_pressed = true;
    assert_eq!(shortcut_actions(k), vec![ShortcutAction::SaveDocument]);
    k.shift = true;
    assert_eq!(shortcut_actions(k), vec![ShortcutAction::SaveDocumentAs]);
}

#[test]
fn shortcuts_view_and_documents() {
    let mut k = keys();
    k.command = true;
    k.num0_pressed = true;
    k.home_pressed = true;
    k.n_pressed = true;
    k.o_pressed = true;
    assert_eq!(
        shortcut_actions(k),
        vec![
            ShortcutAction::ResetView,
            ShortcutAction::ResetPan,
            ShortcutAction::NewDocument,
            ShortcutAction::OpenDocument,
        ]
    );
    // without the command key only Home acts
    k.command = false;
    assert_eq!(shortcut_actions(k), vec![ShortcutAction::ResetPan]);
}

#[test]
fn shortcuts_off_while_typing() {
    let mut k = keys();
    k.command = true;
    k.z_pressed = true;
    k.text_input_active = true;
    assert!(shortcut_actions(k).is_empty());
}

#[test]
fn ellipsized_titles() {
    assert_eq!(ellipsize_tab_title("Hello", true, &[false; 5]), "Hello");
    assert_eq!(ellipsize_tab_title("Hello", false, &[true, true, false, false, false]), "He..");
    assert_eq!(ellipsize_tab_title("Hello", false, &[false, false, false, false, false]), "..");
    assert_eq!(ellipsize_tab_title("Hello", false, &[true; 5]), "Hello..");
    assert_eq!(ellipsize_tab_title("", false, &[]), "");
    assert_eq!(ellipsize_tab_title("Жук", false, &[true, false, true]), "Ж..");
}

#[test]
fn title_editor_actions() {
    assert_eq!(title_edit_action(true, true, true, false), TabTitleEditAction::Cancel);
    assert_eq!(title_edit_action(true, false, false, false), TabTitleEditAction::Commit);
    assert_eq!(title_edit_action(false, false, true, false), TabTitleEditAction::Commit);
    assert_eq!(title_edit_action(false, false, true, true), TabTitleEditAction::Idle);
    assert_eq!(title_edit_action(false, false, false, false), TabTitleEditAction::Idle);
}

#[test]
fn renaming_a_tab_through_the_editor() {
    let mut doc = PaintDocument::new_with_title("Sheet 1".to_string());
    let mut ed = EditorState::default();
    begin_tab_rename(&mut ed, 1, "Sheet 1");
    assert_eq!(ed.renaming_tab_id, Some(1));
    assert!(ed.renaming_tab_just_started);
    assert_eq!(ed.tab_title_buffer, "Sheet 1");
    assert!(!apply_tab_title_edit(&mut doc, &mut ed, 1, TabTitleEditAction::Idle));
    assert!(!ed.renaming_tab_just_started);
    assert_eq!(ed.renaming_tab_id, Some(1));
    ed.tab_title_buffer = "  Sky ".to_string();
    assert!(apply_tab_title_edit(&mut doc, &mut ed, 1, TabTitleEditAction::Commit));
    assert_eq!(doc.tabs[0].title, "Sky");
    assert_eq!(ed.tab_title_buffer, "");
    assert_eq!(ed.renaming_tab_id, None);
}

#[test]
fn cancelled_or_blank_rename_keeps_title() {
    let mut doc = PaintDocument::new_with_title("Sheet 1".to_string());
    let mut ed = EditorState::default();
    begin_tab_rename(&mut ed, 1, "Sheet 1");
    ed.tab_title_buffer = "New".to_string();
    assert!(!apply_tab_title_edit(&mut doc, &mut ed, 1, TabTitleEditAction::Cancel));
    assert_eq!(doc.tabs[0].title, "Sheet 1");
    assert_eq!(ed.renaming_tab_id, None);
    begin_tab_rename(&mut ed, 1, "Sheet 1");
    ed.tab_title_buffer = "   ".to_string();
    assert!(!apply_tab_title_edit(&mut doc, &mut ed, 1, TabTitleEditAction::Commit));
    assert_eq!(doc.tabs[0].title, "Sheet 1");
    assert_eq!(ed.tab_title_buffer, "   ");
    assert_eq!(ed.renaming_tab_id, None);
}

#[test]
fn tab_strip_add_select_delete() {
    let mut doc = PaintDocument::new_with_title("Sheet 1".to_string());
    let mut ed = EditorState::default();
    let id = add_sheet_tab(&mut doc, "Sheet");
    assert_eq!(id, 2);
    assert_eq!(doc.tabs[1].title, "Sheet 2");
    assert_eq!(doc.active_tab_id, 2);
    ed.last_paint_cell = Some([1, 1]);
    assert!(select_tab(&mut doc, &mut ed, 1));
    assert_eq!(doc.active_tab_id, 1);
    assert_eq!(ed.last_paint_cell, None);
    assert!(delete_tab(&mut doc, &mut ed, 1, "Sheet"));
    assert_eq!(doc.tabs.len(), 1);
    assert_eq!(doc.active_tab_id, 2);
    // deleting the last tab puts a fresh sheet in its place
    assert!(delete_tab(&mut doc, &mut ed, 2, "Sheet"));
    assert_eq!(doc.tabs.len(), 1);
    assert_eq!(doc.tabs[0].title, "Sheet 1");
    assert_eq!(doc.tabs[0].id, 3);
    assert!(!delete_tab(&mut doc, &mut ed, 42, "Sheet"));
}

#[test]
fn editor_session_round_trip() {
    let mut ed = EditorState::default();
    ed.tool = PaintTool::Erase;
    ed.primitive = DrawPrimitive::Point;
    ed.size_index = 2;
    ed.color_index = 7;
    ed.last_paint_cell = Some([3, 3]);
    let session = EditorSession::from_editor(&ed);
    assert_eq!(
        session,
        EditorSession {
            tool: PaintToolDto::Erase,
            primitive: DrawPrimitiveDto::Point,
            size_index: 2,
            color_index: 7,
        }
    );
    let back = session.into_editor_state();
    assert_eq!(back.tool, PaintTool::Erase);
    assert_eq!(back.primitive, DrawPrimitive::Point);
    assert_eq!(back.size_index, 2);
    assert_eq!(back.color_index, 7);
    assert_eq!(back.last_paint_cell, None);
    assert!(back.draw_undo_stack.is_empty());
}

#[test]
fn stored_size_is_limited() {
    let session = EditorSession {
        tool: PaintToolDto::Draw,
        primitive: DrawPrimitiveDto::Line,
        size_index: 200,
        color_index: 0,
    };
    assert_eq!(session.into_editor_state().size_index, 3);
}

#[test]
fn trimming_removes_unicode_white_space_at_both_ends() {
    assert_eq!(trim_str("  B \n"), "B");
    assert_eq!(trim_str("\u{3000}\tA B\u{2029}"), "A B");
    assert_eq!(trim_str(" \r\n "), "");
    assert_eq!(trim_str("x"), "x");
    for c in ['a', '\u{200b}', '_'] {
        assert_eq!(white_space_char(c), c.is_whitespace());
    }
    for c in ['\u{85}', '\u{a0}', '\u{1680}', '\u{2000}', '\u{200a}', '\u{202f}', '\u{205f}'] {
        assert!(white_space_char(c));
        assert_eq!(trim_str(&c.to_string()), c.to_string().trim());
    }
}
