use crate::app::editor_state::{EditorState, EditorView};
use crate::domain::document::{spec_add_tab, spec_remove_tab, tab_pos, DocView, PaintDocument};
use crate::text::{decimal, decimal_string, trimmed};
use vstd::prelude::*;

verus! {

/// What the title editor of a tab reports for a frame.
#[derive(Debug, Clone, Copy, PartialEq, Eq, Structural)]
pub enum TabTitleEditAction {
    Idle,
    Commit,
    Cancel,
}

/// The title of a sheet: a name, a space and a number, as in "Sheet 2".
pub open spec fn sheet_title_spec(name: Seq<char>, n: nat) -> Seq<char> {
    name + seq![' '] + decimal(n)
}

/// The title of a sheet: a name, a space and a number, as in "Sheet 2".
pub fn sheet_title(name: &str, n: u64) -> (r: String)
    ensures
        r@ == sheet_title_spec(name@, n as nat),
{
    let mut s = name.to_owned();
    proof {
        reveal_strlit(" ");
    }
    s.append(" ");
    let digits = decimal_string(n);
    s.append(digits.as_str());
    s
}

/// What the title editor reports for a frame: Escape cancels; Enter, or losing the
/// focus other than by a click on the editor, commits.
pub fn title_edit_action(enter: bool, escape: bool, lost_focus: bool, clicked: bool) -> (r:
    TabTitleEditAction)
    ensures
        r == (if escape {
            TabTitleEditAction::Cancel
        } else if enter || (lost_focus && !clicked) {
            TabTitleEditAction::Commit
        } else {
            TabTitleEditAction::Idle
        }),
{
    if escape {
        return TabTitleEditAction::Cancel;
    }
    if enter || (lost_focus && !clicked) {
        return TabTitleEditAction::Commit;
    }
    TabTitleEditAction::Idle
}

/// Starts renaming a tab: the editor opens with the tab's current title.
pub fn begin_tab_rename(editor: &mut EditorState, tab_id: u64, title: &str)
    ensures
        final(editor)@ == (EditorView {
            renaming_tab_id: Some(tab_id),
            renaming_tab_just_started: true,
            tab_title_buffer: title@,
            ..old(editor)@
        }),
{
    editor.renaming_tab_id = Some(tab_id);
    editor.renaming_tab_just_started = true;
    editor.tab_title_buffer = title.to_owned();
}

/// Acts on what the title editor of a tab reported: a commit renames the tab to
/// the edited title (emptying the editor when the rename is taken) and closes
/// the editor, a cancel closes it. Returns whether the document changed.
pub fn apply_tab_title_edit(
    document: &mut PaintDocument,
    editor: &mut EditorState,
    tab_id: u64,
    action: TabTitleEditAction,
) -> (r: bool)
    ensures
        action == TabTitleEditAction::Idle ==> final(document)@ == old(document)@ && !r
            && final(editor)@ == (EditorView { renaming_tab_just_started: false, ..old(editor)@ }),
        action == TabTitleEditAction::Cancel ==> final(document)@ == old(document)@ && !r
            && final(editor)@ == (EditorView {
                renaming_tab_just_started: false,
                renaming_tab_id: None,
                ..old(editor)@
            }),
        action == TabTitleEditAction::Commit ==> {
            let taken = tab_pos(old(document)@.tabs, tab_id) is Some && trimmed(
                old(editor)@.tab_title_buffer,
            ).len() > 0;
            &&& r == taken
            &&& taken ==> final(document)@ == (DocView {
                tabs: old(document)@.tabs.update(
                    tab_pos(old(document)@.tabs, tab_id).unwrap(),
                    crate::domain::tab::TabView {
                        title: trimmed(old(editor)@.tab_title_buffer),
                        ..old(document)@.tabs[tab_pos(old(document)@.tabs, tab_id).unwrap()]
                    },
                ),
                ..old(document)@
            })
            &&& !taken ==> final(document)@ == old(document)@
            &&& final(editor)@ == (EditorView {
                renaming_tab_just_started: false,
                renaming_tab_id: None,
                tab_title_buffer: if taken {
                    Seq::empty()
                } else {
                    old(editor)@.tab_title_buffer
                },
                ..old(editor)@
            })
        },
        old(document)@.wf() ==> final(document)@.wf(),
{
    editor.renaming_tab_just_started = false;
    let mut changed = false;
    match action {
        TabTitleEditAction::Commit => {
            if document.rename_tab(tab_id, editor.tab_title_buffer.clone()) {
                editor.tab_title_buffer = String::new();
                changed = true;
            }
            editor.renaming_tab_id = None;
        },
        TabTitleEditAction::Cancel => {
            editor.renaming_tab_id = None;
        },
        TabTitleEditAction::Idle => {},
    }
    changed
}

/// Makes a tab active after a click on it; the stroke in progress starts anew.
pub fn select_tab(document: &mut PaintDocument, editor: &mut EditorState, tab_id: u64) -> (r: bool)
    ensures
        r,
        final(document)@ == (if crate::domain::document::has_tab(old(document)@.tabs, tab_id) {
            DocView { active_tab_id: tab_id, ..old(document)@ }
        } else {
            old(document)@
        }),
        final(editor)@ == (EditorView { last_paint_cell: None, ..old(editor)@ }),
        old(document)@.wf() ==> final(document)@.wf(),
{
    document.set_active_tab(tab_id);
    editor.last_paint_cell = None;
    true
}

/// Deletes a tab from its context menu; the last tab is replaced by a fresh
/// sheet titled "`sheet_name` 1". Returns whether the document changed.
pub fn delete_tab(
    document: &mut PaintDocument,
    editor: &mut EditorState,
    tab_id: u64,
    sheet_name: &str,
) -> (r: bool)
    requires
        old(document).tabs@.len() == 1 && old(document).tabs@[0].id == tab_id ==> old(
            document,
        ).next_tab_id < u64::MAX,
    ensures
        old(document)@.tabs.len() == 1 ==> {
            if old(document)@.tabs[0].id != tab_id {
                !r && final(document)@ == old(document)@
            } else {
                r && final(document)@ == spec_add_tab(
                    DocView { tabs: Seq::empty(), ..old(document)@ },
                    sheet_title_spec(sheet_name@, 1),
                )
            }
        },
        old(document)@.tabs.len() != 1 ==> (final(document)@, r) == spec_remove_tab(
            old(document)@,
            tab_id,
        ),
        final(editor)@ == (if r {
            EditorView { last_paint_cell: None, ..old(editor)@ }
        } else {
            old(editor)@
        }),
        old(document)@.wf() ==> final(document)@.wf(),
{
    let title = sheet_title(sheet_name, 1);
    if document.remove_tab_or_create_new(tab_id, title) {
        editor.last_paint_cell = None;
        true
    } else {
        false
    }
}

/// Adds a sheet titled "`sheet_name` n", n being the new number of tabs, and
/// makes it active; returns its id.
pub fn add_sheet_tab(document: &mut PaintDocument, sheet_name: &str) -> (r: u64)
    requires
        old(document).next_tab_id < u64::MAX,
        old(document).tabs@.len() < u64::MAX,
    ensures
        r == old(document).next_tab_id,
        final(document)@ == spec_add_tab(
            old(document)@,
            sheet_title_spec(sheet_name@, (old(document)@.tabs.len() + 1) as nat),
        ),
        old(document)@.wf() ==> final(document)@.wf(),
{
    let n = document.tabs.len() as u64 + 1;
    let title = sheet_title(sheet_name, n);
    document.add_tab_with_title(title)
}

/// The first position at which `fits` is false, or its length where there is none.
pub open spec fn first_misfit(fits: Seq<bool>) -> int {
    if exists|i: int| 0 <= i < fits.len() && !fits[i] {
        choose|i: int| 0 <= i < fits.len() && !fits[i] && forall|j: int| 0 <= j < i ==> fits[j]
    } else {
        fits.len() as int
    }
}

/// The title shown on a tab: the whole title where it fits, else its longest prefix whose
/// ellipsized form fits, followed by "..". Entry `i` of `prefix_fits` says whether the
/// first `i + 1` characters followed by ".." fit.
pub open spec fn ellipsized(title: Seq<char>, title_fits: bool, prefix_fits: Seq<bool>) -> Seq<char> {
    if title_fits {
        title
    } else if title.len() == 0 {
        Seq::empty()
    } else {
        title.take(first_misfit(prefix_fits)) + seq!['.', '.']
    }
}

/// Shortens a tab title to the width at hand, given which of its ellipsized prefixes fit.
pub fn ellipsize_tab_title(title: &str, title_fits: bool, prefix_fits: &[bool]) -> (r: String)
    requires
        prefix_fits@.len() == title@.len(),
    ensures
        r@ == ellipsized(title@, title_fits, prefix_fits@),
{
    if title_fits {
        return title.to_owned();
    }
    let n = title.unicode_len();
    if n == 0 {
        return String::new();
    }
    let mut idx: usize = 0;
    while idx < n
        invariant
            n == title@.len(),
            n == prefix_fits@.len(),
            idx <= n,
            forall|j: int| 0 <= j < idx ==> prefix_fits@[j],
        ensures
            idx <= n,
            forall|j: int| 0 <= j < idx ==> prefix_fits@[j],
            idx < n ==> !prefix_fits@[idx as int],
        decreases n - idx,
    {
        if !prefix_fits[idx] {
            break;
        }
        idx += 1;
    }
    proof {
        if idx < n {
            assert(!prefix_fits@[idx as int]);
            let m = first_misfit(prefix_fits@);
            assert(0 <= m < n && !prefix_fits@[m] && forall|j: int| 0 <= j < m ==> prefix_fits@[j]);
            if m < idx {
                assert(prefix_fits@[m]);
            }
            if idx < m {
                assert(prefix_fits@[idx as int]);
            }
        } else {
            assert(!exists|i: int| 0 <= i < prefix_fits@.len() && !prefix_fits@[i]);
        }
        reveal_strlit("..");
    }
    let mut s = String::from_str(title.substring_char(0, idx));
    s.append("..");
    proof {
        assert(title@.subrange(0, idx as int) =~= title@.take(idx as int));
    }
    s
}

} // verus!
