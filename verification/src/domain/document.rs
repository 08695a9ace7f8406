use super::stroke::{DrawStroke, StrokeView};
use super::tab::{strokes_view, PaintTab, TabView, DEFAULT_CANVAS_HEIGHT, DEFAULT_CANVAS_WIDTH};
use crate::text::{trim_str, trimmed};
use vstd::prelude::*;

verus! {

/// A drawing: an ordered list of tabs, one of which is active.
#[derive(Debug, Clone)]
pub struct PaintDocument {
    pub format_version: u32,
    pub active_tab_id: u64,
    pub next_tab_id: u64,
    pub next_stroke_id: u64,
    pub tabs: Vec<PaintTab>,
}

/// The mathematical content of a document.
pub struct DocView {
    pub format_version: u32,
    pub active_tab_id: u64,
    pub next_tab_id: u64,
    pub next_stroke_id: u64,
    pub tabs: Seq<TabView>,
}

/// The views of a list of tabs.
pub open spec fn tabs_view(tabs: Seq<PaintTab>) -> Seq<TabView> {
    tabs.map_values(|t: PaintTab| t@)
}

impl View for PaintDocument {
    type V = DocView;

    open spec fn view(&self) -> DocView {
        DocView {
            format_version: self.format_version,
            active_tab_id: self.active_tab_id,
            next_tab_id: self.next_tab_id,
            next_stroke_id: self.next_stroke_id,
            tabs: tabs_view(self.tabs@),
        }
    }
}

/// `i` is the first position of a tab with the given id.
pub open spec fn is_first_tab(tabs: Seq<TabView>, id: u64, i: int) -> bool {
    &&& 0 <= i < tabs.len()
    &&& tabs[i].id == id
    &&& forall|j: int| 0 <= j < i ==> tabs[j].id != id
}

/// The position of the first tab with the given id, if any.
pub open spec fn tab_pos(tabs: Seq<TabView>, id: u64) -> Option<int> {
    if exists|i: int| is_first_tab(tabs, id, i) {
        Some(choose|i: int| is_first_tab(tabs, id, i))
    } else {
        None
    }
}

/// Some tab carries the given id.
pub open spec fn has_tab(tabs: Seq<TabView>, id: u64) -> bool {
    exists|i: int| 0 <= i < tabs.len() && tabs[i].id == id
}

/// The tabs left after every tab with the given id is taken out, in order.
pub open spec fn tabs_without(tabs: Seq<TabView>, id: u64) -> Seq<TabView>
    decreases tabs.len(),
{
    if tabs.len() == 0 {
        tabs
    } else {
        let rest = tabs_without(tabs.drop_last(), id);
        if tabs.last().id == id {
            rest
        } else {
            rest.push(tabs.last())
        }
    }
}

/// No stroke of any of these tabs is empty.
pub open spec fn no_empty_strokes(strokes: Seq<StrokeView>) -> bool {
    forall|k: int| 0 <= k < strokes.len() ==> #[trigger] strokes[k].cells.len() > 0
}

impl DocView {
    /// The tabs' own consistency: at least one tab, tab ids distinct and below
    /// `next_tab_id`, and no empty stroke.
    pub open spec fn tabs_ok(self) -> bool {
        &&& self.tabs.len() >= 1
        &&& forall|i: int, j: int|
            0 <= i < self.tabs.len() && 0 <= j < self.tabs.len() && i != j ==> #[trigger] self.tabs[i].id
                != #[trigger] self.tabs[j].id
        &&& forall|i: int| 0 <= i < self.tabs.len() ==> #[trigger] self.tabs[i].id < self.next_tab_id
        &&& forall|i: int| 0 <= i < self.tabs.len() ==> no_empty_strokes(#[trigger] self.tabs[i].strokes)
    }

    /// The document's own consistency: the tabs are consistent and the active
    /// tab is present.
    pub open spec fn wf(self) -> bool {
        &&& self.tabs_ok()
        &&& has_tab(self.tabs, self.active_tab_id)
    }

    /// The position of the active tab, if it exists.
    pub open spec fn active_pos(self) -> Option<int> {
        tab_pos(self.tabs, self.active_tab_id)
    }
}

/// The first position found is the one `tab_pos` names.
pub proof fn lemma_tab_pos_found(tabs: Seq<TabView>, id: u64, i: int)
    requires
        is_first_tab(tabs, id, i),
    ensures
        tab_pos(tabs, id) == Some(i),
{
    let k = choose|k: int| is_first_tab(tabs, id, k);
    assert(is_first_tab(tabs, id, k));
    if k < i {
        assert(tabs[k].id != id);
    }
    if i < k {
        assert(tabs[i].id != id);
    }
}

/// Without a tab of that id, `tab_pos` is `None`.
pub proof fn lemma_tab_pos_absent(tabs: Seq<TabView>, id: u64)
    requires
        forall|j: int| 0 <= j < tabs.len() ==> tabs[j].id != id,
    ensures
        tab_pos(tabs, id) is None,
{
}

/// A tab carrying the id has a first position.
pub proof fn lemma_has_tab_pos(tabs: Seq<TabView>, id: u64)
    requires
        has_tab(tabs, id),
    ensures
        tab_pos(tabs, id) is Some,
    decreases tabs.len(),
{
    if tabs[0].id == id {
        lemma_tab_pos_found(tabs, id, 0);
    } else {
        let rest = tabs.drop_first();
        let i = choose|i: int| 0 <= i < tabs.len() && tabs[i].id == id;
        assert(rest[i - 1].id == id);
        lemma_has_tab_pos(rest, id);
        let k = choose|k: int| is_first_tab(rest, id, k);
        assert(is_first_tab(tabs, id, k + 1)) by {
            assert forall|j: int| 0 <= j < k + 1 implies tabs[j].id != id by {
                if j > 0 {
                    assert(tabs[j] == rest[j - 1]);
                }
            }
        }
    }
}

/// The two tab lists carry the same ids at the same positions.
pub open spec fn same_ids(t1: Seq<TabView>, t2: Seq<TabView>) -> bool {
    t1.len() == t2.len() && forall|j: int| 0 <= j < t1.len() ==> #[trigger] t1[j].id == t2[j].id
}

/// Tab lookups only see the ids.
pub proof fn lemma_same_ids(t1: Seq<TabView>, t2: Seq<TabView>, id: u64)
    requires
        same_ids(t1, t2),
    ensures
        tab_pos(t1, id) == tab_pos(t2, id),
        has_tab(t1, id) == has_tab(t2, id),
{
    if has_tab(t1, id) {
        let i = choose|i: int| 0 <= i < t1.len() && t1[i].id == id;
        assert(t2[i].id == id);
    }
    if has_tab(t2, id) {
        let i = choose|i: int| 0 <= i < t2.len() && t2[i].id == id;
        assert(t1[i].id == id);
    }
    if exists|i: int| is_first_tab(t1, id, i) {
        let i = choose|i: int| is_first_tab(t1, id, i);
        assert(is_first_tab(t2, id, i)) by {
            assert forall|j: int| 0 <= j < i implies t2[j].id != id by {
                assert(t1[j].id != id);
            }
        }
        lemma_tab_pos_found(t1, id, i);
        lemma_tab_pos_found(t2, id, i);
    } else if exists|i: int| is_first_tab(t2, id, i) {
        let i = choose|i: int| is_first_tab(t2, id, i);
        assert(is_first_tab(t1, id, i)) by {
            assert forall|j: int| 0 <= j < i implies t1[j].id != id by {
                assert(t2[j].id != id);
            }
        }
    }
}

/// Replacing the strokes of one tab keeps the tabs consistent when the new
/// strokes are not empty.
pub proof fn lemma_update_strokes_ok(d: DocView, i: int, ns: Seq<StrokeView>, next_stroke_id: u64)
    requires
        d.tabs_ok(),
        0 <= i < d.tabs.len(),
        no_empty_strokes(ns),
    ensures
        (DocView {
            tabs: d.tabs.update(i, TabView { strokes: ns, ..d.tabs[i] }),
            next_stroke_id,
            ..d
        }).tabs_ok(),
        same_ids(d.tabs, d.tabs.update(i, TabView { strokes: ns, ..d.tabs[i] })),
{
    let t = d.tabs.update(i, TabView { strokes: ns, ..d.tabs[i] });
    assert forall|j: int| 0 <= j < t.len() implies no_empty_strokes(#[trigger] t[j].strokes) by {
        if j != i {
            assert(t[j] == d.tabs[j]);
        }
    }
    assert forall|a: int, b: int|
        0 <= a < t.len() && 0 <= b < t.len() && a != b implies #[trigger] t[a].id != #[trigger] t[b].id by {
        assert(t[a].id == d.tabs[a].id && t[b].id == d.tabs[b].id);
    }
    assert forall|a: int| 0 <= a < t.len() implies #[trigger] t[a].id < d.next_tab_id by {
        assert(t[a].id == d.tabs[a].id);
    }
    assert forall|j: int| 0 <= j < d.tabs.len() implies #[trigger] d.tabs[j].id == t[j].id by {}
}

/// What is left after removing a tab id holds no tab of that id, keeps every
/// other tab, and is no longer than before.
pub proof fn lemma_tabs_without(tabs: Seq<TabView>, id: u64)
    ensures
        tabs_without(tabs, id).len() <= tabs.len(),
        forall|k: int|
            0 <= k < tabs_without(tabs, id).len() ==> tabs.contains(#[trigger] tabs_without(
                tabs,
                id,
            )[k]) && tabs_without(tabs, id)[k].id != id,
        forall|k: int|
            0 <= k < tabs.len() && tabs[k].id != id ==> tabs_without(tabs, id).contains(
                #[trigger] tabs[k],
            ),
        (forall|k: int| 0 <= k < tabs.len() ==> tabs[k].id != id) ==> tabs_without(tabs, id)
            == tabs,
        tabs_without(tabs, id).len() == tabs.len() ==> tabs_without(tabs, id) == tabs,
    decreases tabs.len(),
{
    if tabs.len() > 0 {
        if tabs_without(tabs, id).len() == tabs.len() {
            lemma_tabs_without(tabs.drop_last(), id);
            assert(tabs.drop_last().push(tabs.last()) =~= tabs);
        }
        let init = tabs.drop_last();
        lemma_tabs_without(init, id);
        let rest = tabs_without(init, id);
        assert forall|k: int|
            0 <= k < tabs_without(tabs, id).len() implies tabs.contains(
            #[trigger] tabs_without(tabs, id)[k],
        ) && tabs_without(tabs, id)[k].id != id by {
            if k < rest.len() {
                let t = rest[k];
                assert(init.contains(t));
                let m = choose|m: int| 0 <= m < init.len() && init[m] == t;
                assert(tabs[m] == t);
            } else {
                assert(tabs[tabs.len() - 1] == tabs.last());
            }
        }
        assert forall|k: int|
            0 <= k < tabs.len() && tabs[k].id != id implies tabs_without(tabs, id).contains(
            #[trigger] tabs[k],
        ) by {
            if k < tabs.len() - 1 {
                assert(init[k] == tabs[k]);
                assert(rest.contains(tabs[k]));
                let m = choose|m: int| 0 <= m < rest.len() && rest[m] == tabs[k];
                if tabs.last().id != id {
                    assert(rest.push(tabs.last())[m] == tabs[k]);
                }
            } else {
                assert(rest.push(tabs.last())[rest.len() as int] == tabs[k]);
            }
        }
        if forall|k: int| 0 <= k < tabs.len() ==> tabs[k].id != id {
            assert forall|k: int| 0 <= k < init.len() implies init[k].id != id by {
                assert(init[k] == tabs[k]);
            }
            assert(tabs.last().id != id);
            assert(init.push(tabs.last()) =~= tabs);
        }
    }
}

impl PaintDocument {
    /// A document with a single empty tab of the given title.
    pub fn new_with_title(title: String) -> (r: PaintDocument)
        ensures
            r@ == (DocView {
                format_version: 1,
                active_tab_id: 1,
                next_tab_id: 2,
                next_stroke_id: 1,
                tabs: seq![
                    TabView {
                        id: 1,
                        title: title@,
                        canvas_width: DEFAULT_CANVAS_WIDTH,
                        canvas_height: DEFAULT_CANVAS_HEIGHT,
                        strokes: Seq::empty(),
                    },
                ],
            }),
            r@.wf(),
    {
        let first_tab = PaintTab::new(1, title);
        let id = first_tab.id;
        let mut tabs: Vec<PaintTab> = Vec::new();
        tabs.push(first_tab);
        let r = PaintDocument {
            format_version: 1,
            active_tab_id: id,
            next_tab_id: 2,
            next_stroke_id: 1,
            tabs,
        };
        assert(r@.tabs =~= seq![r.tabs@[0]@]);
        assert(r@.tabs[0].id == 1);
        r
    }

    /// The position of the first tab with the given id.
    pub fn tab_index(&self, id: u64) -> (r: Option<usize>)
        ensures
            match r {
                Some(i) => tab_pos(self@.tabs, id) == Some(i as int),
                None => tab_pos(self@.tabs, id) is None && !has_tab(self@.tabs, id),
            },
    {
        let mut i: usize = 0;
        while i < self.tabs.len()
            invariant
                i <= self.tabs.len(),
                forall|j: int| 0 <= j < i ==> self@.tabs[j].id != id,
            decreases self.tabs.len() - i,
        {
            if self.tabs[i].id == id {
                proof {
                    lemma_tab_pos_found(self@.tabs, id, i as int);
                }
                return Some(i);
            }
            i += 1;
        }
        proof {
            lemma_tab_pos_absent(self@.tabs, id);
        }
        None
    }

    /// The active tab, if a tab carries the active id.
    pub fn active_tab(&self) -> (r: Option<&PaintTab>)
        ensures
            r is Some <==> self@.active_pos() is Some,
            r matches Some(t) ==> t@ == self@.tabs[self@.active_pos().unwrap()],
    {
        match self.tab_index(self.active_tab_id) {
            Some(i) => Some(&self.tabs[i]),
            None => None,
        }
    }

    /// The strokes of the active tab, if it exists.
    pub fn active_tab_strokes(&self) -> (r: Option<&[DrawStroke]>)
        ensures
            r is Some <==> self@.active_pos() is Some,
            r matches Some(s) ==> strokes_view(s@) == self@.tabs[self@.active_pos().unwrap()].strokes,
    {
        match self.active_tab() {
            Some(tab) => Some(tab.draw_strokes.as_slice()),
            None => None,
        }
    }

    /// The strokes of the first tab with the given id, for changing them in place.
    pub fn tab_strokes_mut(&mut self, tab_id: u64) -> (r: Option<&mut Vec<DrawStroke>>)
        ensures
            r is Some <==> tab_pos(old(self)@.tabs, tab_id) is Some,
            r is None ==> *final(self) == *old(self),
            r matches Some(s) ==> {
                let i = tab_pos(old(self)@.tabs, tab_id).unwrap();
                &&& *s == old(self).tabs@[i].draw_strokes
                &&& final(self).tabs@ == old(self).tabs@.update(
                    i,
                    PaintTab { draw_strokes: *final(s), ..old(self).tabs@[i] },
                )
                &&& final(self).active_tab_id == old(self).active_tab_id
                &&& final(self).next_tab_id == old(self).next_tab_id
                &&& final(self).next_stroke_id == old(self).next_stroke_id
                &&& final(self).format_version == old(self).format_version
            },
    {
        match self.tab_index(tab_id) {
            Some(i) => Some(&mut self.tabs[i].draw_strokes),
            None => None,
        }
    }

    /// The strokes of the active tab, for changing them in place.
    pub fn active_tab_strokes_mut(&mut self) -> (r: Option<&mut Vec<DrawStroke>>)
        ensures
            r is Some <==> old(self)@.active_pos() is Some,
            r is None ==> *final(self) == *old(self),
            r matches Some(s) ==> {
                let i = old(self)@.active_pos().unwrap();
                &&& *s == old(self).tabs@[i].draw_strokes
                &&& final(self).tabs@ == old(self).tabs@.update(
                    i,
                    PaintTab { draw_strokes: *final(s), ..old(self).tabs@[i] },
                )
                &&& final(self).active_tab_id == old(self).active_tab_id
                &&& final(self).next_tab_id == old(self).next_tab_id
                &&& final(self).next_stroke_id == old(self).next_stroke_id
                &&& final(self).format_version == old(self).format_version
            },
    {
        let id = self.active_tab_id;
        self.tab_strokes_mut(id)
    }
}


/// The document after adding a tab with the given title: the new tab takes
/// `next_tab_id`, goes last and becomes active.
pub open spec fn spec_add_tab(d: DocView, title: Seq<char>) -> DocView {
    DocView {
        next_tab_id: (d.next_tab_id + 1) as u64,
        active_tab_id: d.next_tab_id,
        tabs: d.tabs.push(
            TabView {
                id: d.next_tab_id,
                title,
                canvas_width: DEFAULT_CANVAS_WIDTH,
                canvas_height: DEFAULT_CANVAS_HEIGHT,
                strokes: Seq::empty(),
            },
        ),
        ..d
    }
}

/// The document and the answer after removing the tab with the given id: refused
/// when at most one tab is left or no tab has the id; otherwise every tab with
/// the id goes, and if it was active the first remaining tab becomes active.
pub open spec fn spec_remove_tab(d: DocView, id: u64) -> (DocView, bool) {
    if d.tabs.len() <= 1 {
        (d, false)
    } else {
        let t = tabs_without(d.tabs, id);
        if t.len() == d.tabs.len() {
            (d, false)
        } else {
            (
                DocView {
                    tabs: t,
                    active_tab_id: if d.active_tab_id == id && t.len() > 0 {
                        t[0].id
                    } else {
                        d.active_tab_id
                    },
                    ..d
                },
                true,
            )
        }
    }
}

/// Tab ids stay distinct when tabs are removed.
pub proof fn lemma_tabs_without_unique(tabs: Seq<TabView>, id: u64)
    requires
        forall|a: int, b: int|
            0 <= a < tabs.len() && 0 <= b < tabs.len() && a != b ==> #[trigger] tabs[a].id
                != #[trigger] tabs[b].id,
    ensures
        forall|a: int, b: int|
            0 <= a < tabs_without(tabs, id).len() && 0 <= b < tabs_without(tabs, id).len() && a
                != b ==> #[trigger] tabs_without(tabs, id)[a].id != #[trigger] tabs_without(
                tabs,
                id,
            )[b].id,
        tabs_without(tabs, id).len() + 1 >= tabs.len(),
    decreases tabs.len(),
{
    if tabs.len() > 0 {
        let init = tabs.drop_last();
        assert forall|a: int, b: int|
            0 <= a < init.len() && 0 <= b < init.len() && a != b implies #[trigger] init[a].id
            != #[trigger] init[b].id by {
            assert(init[a] == tabs[a] && init[b] == tabs[b]);
        }
        lemma_tabs_without_unique(init, id);
        lemma_tabs_without(init, id);
        let rest = tabs_without(init, id);
        if tabs.last().id != id {
            assert forall|a: int| 0 <= a < rest.len() implies #[trigger] rest[a].id != tabs.last().id by {
                assert(init.contains(rest[a]));
                let m = choose|m: int| 0 <= m < init.len() && init[m] == rest[a];
                assert(tabs[m] == init[m]);
                assert(tabs[tabs.len() - 1] == tabs.last());
            }
            let t = rest.push(tabs.last());
            assert forall|a: int, b: int|
                0 <= a < t.len() && 0 <= b < t.len() && a != b implies #[trigger] t[a].id
                != #[trigger] t[b].id by {
                if a < rest.len() && b < rest.len() {
                    assert(t[a] == rest[a] && t[b] == rest[b]);
                } else if a < rest.len() {
                    assert(t[a] == rest[a]);
                } else if b < rest.len() {
                    assert(t[b] == rest[b]);
                }
            }
        } else {
            assert forall|k: int| 0 <= k < init.len() implies init[k].id != id by {
                assert(init[k] == tabs[k]);
                assert(tabs[tabs.len() - 1] == tabs.last());
            }
        }
    }
}

impl PaintDocument {
    /// Adds an empty tab after the others and makes it active; returns its id.
    pub fn add_tab_with_title(&mut self, title: String) -> (r: u64)
        requires
            old(self).next_tab_id < u64::MAX,
        ensures
            r == old(self).next_tab_id,
            final(self)@ == spec_add_tab(old(self)@, title@),
            old(self)@.wf() ==> final(self)@.wf(),
    {
        let id = self.next_tab_id;
        self.next_tab_id = self.next_tab_id + 1;
        self.tabs.push(PaintTab::new(id, title));
        self.active_tab_id = id;
        assert(self@.tabs =~= spec_add_tab(old(self)@, title@).tabs);
        proof {
            let n = self@.tabs.len() - 1;
            assert(self@.tabs[n].id == id);
            if old(self)@.wf() {
                assert forall|i: int| 0 <= i < self@.tabs.len() implies no_empty_strokes(
                    #[trigger] self@.tabs[i].strokes,
                ) by {
                    if i < n {
                        assert(self@.tabs[i] == old(self)@.tabs[i]);
                    }
                }
                assert forall|i: int, j: int|
                    0 <= i < self@.tabs.len() && 0 <= j < self@.tabs.len() && i
                        != j implies #[trigger] self@.tabs[i].id != #[trigger] self@.tabs[j].id by {
                    if i < n {
                        assert(self@.tabs[i] == old(self)@.tabs[i]);
                    }
                    if j < n {
                        assert(self@.tabs[j] == old(self)@.tabs[j]);
                    }
                }
                assert forall|i: int| 0 <= i < self@.tabs.len() implies #[trigger] self@.tabs[i].id
                    < self@.next_tab_id by {
                    if i < n {
                        assert(self@.tabs[i] == old(self)@.tabs[i]);
                    }
                }
            }
        }
        id
    }

    /// Makes the tab with the given id active, if there is one.
    pub fn set_active_tab(&mut self, id: u64)
        ensures
            final(self)@ == (if has_tab(old(self)@.tabs, id) {
                DocView { active_tab_id: id, ..old(self)@ }
            } else {
                old(self)@
            }),
            old(self)@.wf() ==> final(self)@.wf(),
    {
        if let Some(_) = self.tab_index(id) {
            self.active_tab_id = id;
        }
    }

    /// Gives the tab with the given id the title without its surrounding white
    /// space; refused when there is no such tab or nothing but white space.
    pub fn rename_tab(&mut self, id: u64, title: String) -> (r: bool)
        ensures
            r == (tab_pos(old(self)@.tabs, id) is Some && trimmed(title@).len() > 0),
            !r ==> final(self)@ == old(self)@,
            r ==> final(self)@ == (DocView {
                tabs: old(self)@.tabs.update(
                    tab_pos(old(self)@.tabs, id).unwrap(),
                    TabView {
                        title: trimmed(title@),
                        ..old(self)@.tabs[tab_pos(old(self)@.tabs, id).unwrap()]
                    },
                ),
                ..old(self)@
            }),
            old(self)@.wf() ==> final(self)@.wf(),
    {
        let t = trim_str(title.as_str());
        self.set_tab_title(id, t)
    }

    /// Gives the tab with the given id an already trimmed title; refused when
    /// there is no such tab or the title is empty.
    pub fn set_tab_title(&mut self, id: u64, title: &str) -> (r: bool)
        ensures
            r == (tab_pos(old(self)@.tabs, id) is Some && title@.len() > 0),
            !r ==> final(self)@ == old(self)@,
            r ==> final(self)@ == (DocView {
                tabs: old(self)@.tabs.update(
                    tab_pos(old(self)@.tabs, id).unwrap(),
                    TabView { title: title@, ..old(self)@.tabs[tab_pos(old(self)@.tabs, id).unwrap()] },
                ),
                ..old(self)@
            }),
            old(self)@.wf() ==> final(self)@.wf(),
    {
        let i = match self.tab_index(id) {
            Some(i) => i,
            None => return false,
        };
        if title.is_empty() {
            return false;
        }
        self.tabs[i].title = title.to_owned();
        proof {
            let nt = TabView { title: title@, ..old(self)@.tabs[i as int] };
            assert(self@.tabs =~= old(self)@.tabs.update(i as int, nt));
            if old(self)@.wf() {
                assert forall|j: int| 0 <= j < self@.tabs.len() implies no_empty_strokes(
                    #[trigger] self@.tabs[j].strokes,
                ) by {
                    assert(self@.tabs[j].strokes == old(self)@.tabs[j].strokes);
                }
                assert forall|a: int, b: int|
                    0 <= a < self@.tabs.len() && 0 <= b < self@.tabs.len() && a
                        != b implies #[trigger] self@.tabs[a].id != #[trigger] self@.tabs[b].id by {
                    assert(self@.tabs[a].id == old(self)@.tabs[a].id);
                    assert(self@.tabs[b].id == old(self)@.tabs[b].id);
                }
                assert forall|a: int| 0 <= a < self@.tabs.len() implies #[trigger] self@.tabs[a].id
                    < self@.next_tab_id by {
                    assert(self@.tabs[a].id == old(self)@.tabs[a].id);
                }
                let w = choose|w: int| 0 <= w < old(self)@.tabs.len() && old(self)@.tabs[w].id == old(self)@.active_tab_id;
                assert(self@.tabs[w].id == old(self)@.tabs[w].id);
            }
        }
        true
    }

    /// Removes every tab with the given id unless it is the last tab; when the
    /// active tab goes, the first remaining tab becomes active.
    pub fn remove_tab(&mut self, id: u64) -> (r: bool)
        ensures
            (final(self)@, r) == spec_remove_tab(old(self)@, id),
            old(self)@.wf() ==> final(self)@.wf(),
    {
        if self.tabs.len() <= 1 {
            return false;
        }
        let before = self.tabs.len();
        let ghost old_tabs = old(self)@.tabs;
        let mut i: usize = 0;
        let ghost mut k: int = 0;
        while i < self.tabs.len()
            invariant
                0 <= k <= old_tabs.len(),
                old_tabs == old(self)@.tabs,
                self@.tabs == tabs_without(old_tabs.take(k), id) + old_tabs.skip(k),
                i == tabs_without(old_tabs.take(k), id).len(),
                self.active_tab_id == old(self).active_tab_id,
                self.next_tab_id == old(self).next_tab_id,
                self.next_stroke_id == old(self).next_stroke_id,
                self.format_version == old(self).format_version,
            decreases old_tabs.len() - k,
        {
            let ghost pre = self@.tabs;
            assert(old_tabs.take(k + 1).drop_last() =~= old_tabs.take(k));
            assert(pre[i as int] == old_tabs[k]);
            if self.tabs[i].id == id {
                let ghost pre_vec = self.tabs@;
                self.tabs.remove(i);
                assert(self@.tabs =~= pre.remove(i as int));
                assert(old_tabs.skip(k).drop_first() =~= old_tabs.skip(k + 1));
                assert(self@.tabs =~= tabs_without(old_tabs.take(k + 1), id) + old_tabs.skip(k + 1));
            } else {
                i += 1;
                assert(self@.tabs =~= tabs_without(old_tabs.take(k + 1), id) + old_tabs.skip(k + 1));
            }
            proof {
                k = k + 1;
            }
        }
        proof {
            assert(old_tabs.take(k) =~= old_tabs) by {
                if k < old_tabs.len() {
                    lemma_tabs_without(old_tabs.take(k), id);
                }
            }
            assert(self@.tabs =~= tabs_without(old_tabs, id));
            lemma_tabs_without(old_tabs, id);
        }
        if self.tabs.len() == before {
            assert(self@.tabs == old_tabs);
            assert(self@ == old(self)@);
            return false;
        }
        if self.active_tab_id == id {
            if self.tabs.len() > 0 {
                self.active_tab_id = self.tabs[0].id;
            }
        }
        proof {
            lemma_tabs_without(old_tabs, id);
            if old(self)@.wf() {
                lemma_tabs_without_unique(old_tabs, id);
                let t = self@.tabs;
                assert forall|j: int| 0 <= j < t.len() implies no_empty_strokes(
                    #[trigger] t[j].strokes,
                ) by {
                    assert(old_tabs.contains(t[j]));
                    let m = choose|m: int| 0 <= m < old_tabs.len() && old_tabs[m] == t[j];
                    assert(no_empty_strokes(old_tabs[m].strokes));
                }
                assert forall|a: int| 0 <= a < t.len() implies #[trigger] t[a].id
                    < self@.next_tab_id by {
                    assert(old_tabs.contains(t[a]));
                    let m = choose|m: int| 0 <= m < old_tabs.len() && old_tabs[m] == t[a];
                    assert(old_tabs[m].id < self@.next_tab_id);
                }
                if old(self).active_tab_id == id {
                    assert(t[0].id == self.active_tab_id);
                } else {
                    let w = choose|w: int| 0 <= w < old_tabs.len() && old_tabs[w].id == old(self)@.active_tab_id;
                    assert(t.contains(old_tabs[w]));
                }
            }
        }
        true
    }

    /// Removes the tab with the given id; when it is the only tab, puts a fresh
    /// tab with the fallback title in its place.
    pub fn remove_tab_or_create_new(&mut self, id: u64, fallback_title: String) -> (r: bool)
        requires
            old(self).tabs@.len() == 1 && old(self).tabs@[0].id == id ==> old(self).next_tab_id
                < u64::MAX,
        ensures
            old(self)@.tabs.len() == 1 ==> {
                if old(self)@.tabs[0].id != id {
                    !r && final(self)@ == old(self)@
                } else {
                    r && final(self)@ == spec_add_tab(
                        DocView { tabs: Seq::empty(), ..old(self)@ },
                        fallback_title@,
                    )
                }
            },
            old(self)@.tabs.len() != 1 ==> (final(self)@, r) == spec_remove_tab(old(self)@, id),
            old(self)@.wf() ==> final(self)@.wf(),
    {
        if self.tabs.len() == 1 {
            let only_id = self.tabs[0].id;
            if only_id != id {
                return false;
            }
            self.tabs.clear();
            assert(self@.tabs =~= Seq::<TabView>::empty());
            assert(self@ == DocView { tabs: Seq::empty(), ..old(self)@ });
            let _ = self.add_tab_with_title(fallback_title);
            proof {
                let t = self@.tabs;
                assert(t.len() == 1);
                assert(t[0].id == self@.active_tab_id);
                assert(has_tab(t, self@.active_tab_id));
                assert(no_empty_strokes(t[0].strokes));
            }
            return true;
        }
        self.remove_tab(id)
    }
}
/// Removing the tab just added takes the document's tabs back to what they were;
/// the first tab becomes active and the id counter stays advanced.
pub proof fn lemma_add_then_remove_tab(d: DocView, title: Seq<char>)
    requires
        d.wf(),
    ensures
        ({
            let (r, removed) = spec_remove_tab(spec_add_tab(d, title), d.next_tab_id);
            &&& removed
            &&& r.tabs == d.tabs
            &&& r.active_tab_id == d.tabs[0].id
            &&& r.next_tab_id == spec_add_tab(d, title).next_tab_id
        }),
{
    let a = spec_add_tab(d, title);
    let id = d.next_tab_id;
    assert(a.tabs.drop_last() =~= d.tabs);
    assert(a.tabs.last().id == id);
    lemma_tabs_without(d.tabs, id);
    assert(tabs_without(a.tabs, id) == tabs_without(d.tabs, id));
    assert(tabs_without(d.tabs, id) == d.tabs);
}

} // verus!
