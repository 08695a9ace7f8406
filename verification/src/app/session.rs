use crate::domain::document::{DocView, PaintDocument};
use crate::domain::tab::{TabView, DEFAULT_CANVAS_HEIGHT, DEFAULT_CANVAS_WIDTH};
use crate::ui::tabs::{sheet_title, sheet_title_spec};
use vstd::prelude::*;

verus! {

/// Seconds between automatic saves of the session.
pub const AUTOSAVE_INTERVAL_SECONDS: u64 = 30;

/// Whether the session is saved now: only when it changed and the interval has
/// passed since the last save.
pub fn autosave_due(session_dirty: bool, elapsed_secs: u64, interval_secs: u64) -> (r: bool)
    ensures
        r == (session_dirty && elapsed_secs >= interval_secs),
{
    session_dirty && elapsed_secs >= interval_secs
}

/// A new document: one empty sheet titled "`sheet_name` 1".
pub fn fresh_document(sheet_name: &str) -> (r: PaintDocument)
    ensures
        r@ == (DocView {
            format_version: 1,
            active_tab_id: 1,
            next_tab_id: 2,
            next_stroke_id: 1,
            tabs: seq![
                TabView {
                    id: 1,
                    title: sheet_title_spec(sheet_name@, 1),
                    canvas_width: DEFAULT_CANVAS_WIDTH,
                    canvas_height: DEFAULT_CANVAS_HEIGHT,
                    strokes: Seq::empty(),
                },
            ],
        }),
        r@.wf(),
{
    PaintDocument::new_with_title(sheet_title(sheet_name, 1))
}

/// After a file was opened or saved: the active tab takes the file's name (its
/// stem), when there is one and it is not blank.
pub fn sync_active_tab_title_with_stem(document: &mut PaintDocument, stem: Option<&str>)
    ensures
        stem is None ==> final(document)@ == old(document)@,
        stem matches Some(s) ==> {
            let id = old(document)@.active_tab_id;
            let taken = crate::domain::document::tab_pos(old(document)@.tabs, id) is Some
                && crate::text::trimmed(s@).len() > 0;
            &&& !taken ==> final(document)@ == old(document)@
            &&& taken ==> final(document)@ == (DocView {
                tabs: old(document)@.tabs.update(
                    crate::domain::document::tab_pos(old(document)@.tabs, id).unwrap(),
                    TabView {
                        title: crate::text::trimmed(s@),
                        ..old(document)@.tabs[crate::domain::document::tab_pos(
                            old(document)@.tabs,
                            id,
                        ).unwrap()]
                    },
                ),
                ..old(document)@
            })
        },
        old(document)@.wf() ==> final(document)@.wf(),
{
    if let Some(s) = stem {
        let id = document.active_tab_id;
        let _ = document.rename_tab(id, s.to_owned());
    }
}

} // verus!
