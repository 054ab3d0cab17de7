//! The editor's state and the operations of its File, Edit and tab-bar menus.
use std::collections::VecDeque;
use vstd::prelude::*;
use vstd::string::*;

use crate::model::{new_tab_title, AppView};
use crate::tab::{new_v4_id, uuid_variant, uuid_version, Tab, TabView};

verus! {

/// The state of the editor, without its font size and colours (which the user
/// interface holds).
pub struct CloisterApp {
    pub tabs: Vec<Tab>,
    /// The tab that the editor shows and edits.
    pub active_tab: usize,
    pub clipboard: String,
    /// Earlier contents to go back to, the most recent last.
    pub undo_history: VecDeque<String>,
    /// Contents that an undo replaced, the most recent last.
    pub redo_history: VecDeque<String>,
    pub recent_files: Vec<String>,
    pub search_query: String,
    pub replace_query: String,
    /// Matches of the last search: (tab index, byte offset).
    pub search_results: Vec<(usize, usize)>,
    /// Index into `search_results` of the match being looked at.
    pub current_match: Option<usize>,
    pub show_search: bool,
    pub show_replace: bool,
    pub case_sensitive: bool,
    pub whole_word: bool,
}

/// What a save of the active tab has to do.
#[derive(Debug)]
pub enum SavePlan {
    /// There is no active tab: nothing to save.
    NoTab,
    /// Write the content to the tab's own path.
    WriteTo(String),
    /// The tab has no path yet: ask the user for one.
    AskForPath,
}

/// The abstract value of each tab of a list.
pub open spec fn tab_views(tabs: Seq<Tab>) -> Seq<TabView> {
    tabs.map_values(|t: Tab| t@)
}

/// The views of the strings of a list.
pub open spec fn string_views(s: Seq<String>) -> Seq<Seq<char>> {
    s.map_values(|x: String| x@)
}

/// A list of (tab, offset) pairs as integers.
pub open spec fn pairs_view(v: Seq<(usize, usize)>) -> Seq<(int, int)> {
    v.map_values(|p: (usize, usize)| (p.0 as int, p.1 as int))
}

/// An optional index as an integer.
pub open spec fn opt_index_view(c: Option<usize>) -> Option<int> {
    match c {
        Some(i) => Some(i as int),
        None => None,
    }
}

impl View for CloisterApp {
    type V = AppView;

    open spec fn view(&self) -> AppView {
        AppView {
            tabs: tab_views(self.tabs@),
            active_tab: self.active_tab as int,
            clipboard: self.clipboard@,
            undo_history: string_views(self.undo_history@),
            redo_history: string_views(self.redo_history@),
            recent_files: string_views(self.recent_files@),
            search_query: self.search_query@,
            replace_query: self.replace_query@,
            search_results: pairs_view(self.search_results@),
            current_match: opt_index_view(self.current_match),
            show_search: self.show_search,
            show_replace: self.show_replace,
            case_sensitive: self.case_sensitive,
            whole_word: self.whole_word,
        }
    }
}

/// A clean tab without a path, with the given id and title and no content.
pub open spec fn fresh_tab(id: u128, title: Seq<char>) -> TabView {
    TabView { id, title, content: Seq::empty(), dirty: false, file_path: None }
}

/// A clean tab holding a document read from `path`.
pub open spec fn loaded_tab(id: u128, title: Seq<char>, content: Seq<char>, path: Seq<char>) -> TabView {
    TabView { id, title, content, dirty: false, file_path: Some(path) }
}

impl CloisterApp {
    /// The start-up state: the tabs restored from the autosave when there
    /// were any to restore, or else a single new tab; everything else empty.
    pub fn from_loaded(loaded: Option<Vec<Tab>>) -> (app: CloisterApp)
        ensures
            match loaded {
                Some(v) => app.tabs@ == v@ && app@ == AppView::initial(tab_views(v@)),
                None => {
                    &&& app@ == AppView::initial(seq![fresh_tab(app.tabs@[0].id, new_tab_title())])
                    &&& uuid_version(app.tabs@[0].id) == 4
                    &&& uuid_variant(app.tabs@[0].id) == 2
                },
            },
    {
        let tabs = match loaded {
            Some(v) => v,
            None => {
                let mut v: Vec<Tab> = Vec::new();
                v.push(Tab::new("New cloistered file"));
                v
            },
        };
        let app = CloisterApp {
            tabs,
            active_tab: 0,
            clipboard: String::new(),
            undo_history: VecDeque::new(),
            redo_history: VecDeque::new(),
            recent_files: Vec::new(),
            search_query: String::new(),
            replace_query: String::new(),
            search_results: Vec::new(),
            current_match: None,
            show_search: false,
            show_replace: false,
            case_sensitive: false,
            whole_word: false,
        };
        proof {
            if loaded is None {
                assert(tab_views(app.tabs@) =~= seq![fresh_tab(app.tabs@[0].id, new_tab_title())]);
            }
            assert(app@.undo_history =~= Seq::<Seq<char>>::empty());
            assert(app@.redo_history =~= Seq::<Seq<char>>::empty());
            assert(app@.recent_files =~= Seq::<Seq<char>>::empty());
            assert(app@.search_results =~= Seq::<(int, int)>::empty());
        }
        app
    }

    /// File > New: append a new empty tab and make it the active one.
    pub fn new_tab(&mut self)
        ensures
            final(self)@ == old(self)@.with_new_tab(
                fresh_tab(final(self).tabs@.last().id, new_tab_title()),
            ),
            final(self).tabs@.drop_last() == old(self).tabs@,
            uuid_version(final(self).tabs@.last().id) == 4,
            uuid_variant(final(self).tabs@.last().id) == 2,
    {
        self.tabs.push(Tab::new("New cloistered file"));
        self.active_tab = self.tabs.len() - 1;
        assert(self.tabs@.drop_last() =~= old(self).tabs@);
        assert(self@ =~= old(self)@.with_new_tab(fresh_tab(self.tabs@.last().id, new_tab_title())));
    }

    /// Appends a clean tab for a document read from `path`, and makes it active.
    fn push_loaded_tab(&mut self, title: String, content: String, path: String)
        ensures
            final(self)@ == old(self)@.with_new_tab(
                loaded_tab(final(self).tabs@.last().id, title@, content@, path@),
            ),
            final(self).tabs@.drop_last() == old(self).tabs@,
            uuid_version(final(self).tabs@.last().id) == 4,
            uuid_variant(final(self).tabs@.last().id) == 2,
    {
        self.tabs.push(Tab { id: new_v4_id(), title, content, dirty: false, file_path: Some(path) });
        self.active_tab = self.tabs.len() - 1;
        assert(self.tabs@.drop_last() =~= old(self).tabs@);
        assert(self@ =~= old(self)@.with_new_tab(
            loaded_tab(self.tabs@.last().id, title@, content@, path@),
        ));
    }

    /// File > Open...: a document was read from `path` (the user interface
    /// reads it and derives `title` from the path). It becomes a new, clean,
    /// active tab, and `path` is added to the recent files.
    pub fn open_file(&mut self, title: String, content: String, path: String)
        ensures
            final(self)@ == old(self)@.with_opened_file(
                loaded_tab(final(self).tabs@.last().id, title@, content@, path@),
                path@,
            ),
            final(self).tabs@.drop_last() == old(self).tabs@,
            uuid_version(final(self).tabs@.last().id) == 4,
            uuid_variant(final(self).tabs@.last().id) == 2,
    {
        let remembered = path.clone();
        self.push_loaded_tab(title, content, path);
        self.recent_files.push(remembered);
        assert(self@ =~= old(self)@.with_opened_file(
            loaded_tab(self.tabs@.last().id, title@, content@, remembered@),
            remembered@,
        ));
    }

    /// File > Recent Files: a remembered document was read again from `path`.
    /// It becomes a new, clean, active tab; the recent files stay as they are.
    pub fn open_recent_file(&mut self, title: String, content: String, path: String)
        ensures
            final(self)@ == old(self)@.with_new_tab(
                loaded_tab(final(self).tabs@.last().id, title@, content@, path@),
            ),
            final(self).tabs@.drop_last() == old(self).tabs@,
            uuid_version(final(self).tabs@.last().id) == 4,
            uuid_variant(final(self).tabs@.last().id) == 2,
    {
        self.push_loaded_tab(title, content, path);
    }

    /// File > Save: where the active tab's content has to go.
    pub fn save_plan(&self) -> (plan: SavePlan)
        ensures
            !self@.has_active_tab() ==> plan is NoTab,
            self@.has_active_tab() ==> match self@.tabs[self.active_tab as int].file_path {
                Some(p) => plan matches SavePlan::WriteTo(q) && q@ == p,
                None => plan is AskForPath,
            },
    {
        if self.active_tab < self.tabs.len() {
            match &self.tabs[self.active_tab].file_path {
                Some(p) => SavePlan::WriteTo(p.clone()),
                None => SavePlan::AskForPath,
            }
        } else {
            SavePlan::NoTab
        }
    }

    /// File > Save wrote the active tab to its own path: it is clean now.
    pub fn mark_active_saved(&mut self)
        ensures
            final(self)@ == old(self)@.with_tab_dirty(old(self).active_tab as int, false),
    {
        let i = self.active_tab;
        self.mark_tab_saved(i);
    }

    /// File > Save wrote the active tab to `path`, which the user chose: the
    /// tab keeps that path, is clean, and `path` joins the recent files.
    pub fn mark_active_saved_as(&mut self, path: String)
        ensures
            final(self)@ == old(self)@.after_saved_as(path@),
    {
        if self.active_tab < self.tabs.len() {
            let i = self.active_tab;
            let remembered = path.clone();
            self.tabs[i].file_path = Some(path);
            self.tabs[i].dirty = false;
            self.recent_files.push(remembered);
            assert(self@ =~= old(self)@.after_saved_as(remembered@));
        } else {
            assert(self@ =~= old(self)@);
        }
    }

    /// File > Save All: the indices of the tabs that have a path to be
    /// written to, in order.
    pub fn tabs_with_paths(&self) -> (idx: Vec<usize>)
        ensures
            forall|k: int| 0 <= k < idx@.len() ==> #[trigger] idx@[k] < self.tabs@.len(),
            forall|k: int|
                0 <= k < idx@.len() ==> #[trigger] self.tabs@[idx@[k] as int].file_path is Some,
            forall|k: int, l: int| 0 <= k < l < idx@.len() ==> idx@[k] < idx@[l],
            forall|j: int|
                0 <= j < self.tabs@.len() && (#[trigger] self.tabs@[j]).file_path is Some
                    ==> idx@.contains(j as usize),
    {
        let mut idx: Vec<usize> = Vec::new();
        let n = self.tabs.len();
        let mut j: usize = 0;
        while j < n
            invariant
                n == self.tabs@.len(),
                j <= n,
                forall|k: int| 0 <= k < idx@.len() ==> #[trigger] idx@[k] < j,
                forall|k: int|
                    0 <= k < idx@.len() ==> #[trigger] self.tabs@[idx@[k] as int].file_path is Some,
                forall|k: int, l: int| 0 <= k < l < idx@.len() ==> idx@[k] < idx@[l],
                forall|m: int|
                    0 <= m < j && (#[trigger] self.tabs@[m]).file_path is Some ==> idx@.contains(
                        m as usize,
                    ),
            decreases n - j,
        {
            let ghost before = idx@;
            if self.tabs[j].file_path.is_some() {
                idx.push(j);
                assert(idx@[idx@.len() - 1] == j);
            }
            assert forall|m: int|
                0 <= m < j + 1 && (#[trigger] self.tabs@[m]).file_path is Some implies idx@.contains(
                m as usize,
            ) by {
                if m < j {
                    let w = choose|w: int| 0 <= w < before.len() && before[w] == m as usize;
                    assert(idx@[w] == m as usize);
                } else {
                    assert(idx@[idx@.len() - 1] == j);
                }
            }
            j = j + 1;
        }
        idx
    }

    /// File > Save All wrote tab `i` to its path: it is clean now.
    pub fn mark_tab_saved(&mut self, i: usize)
        ensures
            final(self)@ == old(self)@.with_tab_dirty(i as int, false),
    {
        if i < self.tabs.len() {
            self.tabs[i].dirty = false;
        }
        assert(self@ =~= old(self)@.with_tab_dirty(i as int, false));
    }

    /// The editor showed the active tab: it counts as modified from then on.
    pub fn mark_active_dirty(&mut self)
        ensures
            final(self)@ == old(self)@.with_tab_dirty(old(self).active_tab as int, true),
    {
        if self.active_tab < self.tabs.len() {
            let i = self.active_tab;
            self.tabs[i].dirty = true;
        }
        assert(self@ =~= old(self)@.with_tab_dirty(old(self).active_tab as int, true));
    }

    /// Edit > Undo: with an active tab and a non-empty undo history, the most
    /// recent undo entry becomes the tab's content and the content it replaces
    /// goes onto the redo history. Otherwise nothing changes.
    pub fn undo(&mut self)
        ensures
            final(self)@ == old(self)@.after_undo(),
    {
        if self.active_tab < self.tabs.len() {
            if let Some(prev) = self.undo_history.pop_back() {
                let i = self.active_tab;
                let current = self.tabs[i].content.clone();
                self.redo_history.push_back(current);
                self.tabs[i].content = prev;
                assert(self@ =~= old(self)@.after_undo());
                return;
            }
        }
        assert(self@ =~= old(self)@);
    }

    /// Edit > Redo: with an active tab and a non-empty redo history, the most
    /// recent redo entry becomes the tab's content and the content it replaces
    /// goes onto the undo history. Otherwise nothing changes.
    pub fn redo(&mut self)
        ensures
            final(self)@ == old(self)@.after_redo(),
    {
        if self.active_tab < self.tabs.len() {
            if let Some(next) = self.redo_history.pop_back() {
                let i = self.active_tab;
                let current = self.tabs[i].content.clone();
                self.undo_history.push_back(current);
                self.tabs[i].content = next;
                assert(self@ =~= old(self)@.after_redo());
                return;
            }
        }
        assert(self@ =~= old(self)@);
    }

    /// Edit > Cut: with an active tab, its whole content moves to the
    /// clipboard, and the (now empty) content is recorded on the undo history.
    pub fn cut(&mut self)
        ensures
            final(self)@ == old(self)@.after_cut(),
    {
        if self.active_tab < self.tabs.len() {
            let i = self.active_tab;
            self.clipboard = self.tabs[i].content.clone();
            self.tabs[i].content = String::new();
            let emptied = self.tabs[i].content.clone();
            self.undo_history.push_back(emptied);
            assert(self@ =~= old(self)@.after_cut());
        } else {
            assert(self@ =~= old(self)@);
        }
    }

    /// Edit > Copy: with an active tab, its whole content goes to the clipboard.
    pub fn copy(&mut self)
        ensures
            final(self)@ == old(self)@.after_copy(),
            final(self).tabs@ == old(self).tabs@,
    {
        if self.active_tab < self.tabs.len() {
            self.clipboard = self.tabs[self.active_tab].content.clone();
        }
        assert(self@ =~= old(self)@.after_copy());
    }

    /// Edit > Paste: with an active tab, the clipboard is appended to its
    /// content, and the new content is recorded on the undo history.
    pub fn paste(&mut self)
        ensures
            final(self)@ == old(self)@.after_paste(),
    {
        if self.active_tab < self.tabs.len() {
            let i = self.active_tab;
            self.tabs[i].content.append(self.clipboard.as_str());
            let pasted = self.tabs[i].content.clone();
            self.undo_history.push_back(pasted);
            assert(self@ =~= old(self)@.after_paste());
        } else {
            assert(self@ =~= old(self)@);
        }
    }

    /// Edit > Find (and Edit > Find in All Files): with an active tab, the
    /// find window opens without its replace row.
    pub fn open_find(&mut self)
        ensures
            final(self)@ == old(self)@.after_open_find(),
            final(self).tabs@ == old(self).tabs@,
    {
        if self.active_tab < self.tabs.len() {
            self.show_search = true;
            self.show_replace = false;
        }
        assert(self@ =~= old(self)@.after_open_find());
    }

    /// Edit > Replace: with an active tab, the find window opens with its
    /// replace row.
    pub fn open_replace(&mut self)
        ensures
            final(self)@ == old(self)@.after_open_replace(),
            final(self).tabs@ == old(self).tabs@,
    {
        if self.active_tab < self.tabs.len() {
            self.show_search = true;
            self.show_replace = true;
        }
        assert(self@ =~= old(self)@.after_open_replace());
    }

    /// Escape, or the find window's Close button: the find window closes.
    pub fn close_search(&mut self)
        ensures
            final(self)@ == old(self)@.after_close_search(),
            final(self).tabs@ == old(self).tabs@,
    {
        self.show_search = false;
        self.show_replace = false;
        assert(self@ =~= old(self)@.after_close_search());
    }

    /// A click on the label of tab `i` in the tab bar makes it the active tab.
    pub fn select_tab(&mut self, i: usize)
        ensures
            final(self)@ == old(self)@.after_select_tab(i as int),
            final(self).tabs@ == old(self).tabs@,
    {
        self.active_tab = i;
        assert(self@ =~= old(self)@.after_select_tab(i as int));
    }

    /// A click on the close button of tab `i`: the tab is removed (unsaved
    /// changes are dropped), and if the active index no longer designates a
    /// tab it moves to the last tab (or 0 when none is left).
    pub fn close_tab(&mut self, i: usize)
        requires
            i < old(self).tabs@.len(),
        ensures
            final(self)@ == old(self)@.after_close_tab(i as int),
            final(self).tabs@ == old(self).tabs@.remove(i as int),
    {
        self.tabs.remove(i);
        if self.active_tab >= self.tabs.len() {
            self.active_tab = self.tabs.len().saturating_sub(1);
        }
        assert(tab_views(self.tabs@) =~= tab_views(old(self).tabs@).remove(i as int));
        assert(self@ =~= old(self)@.after_close_tab(i as int));
    }
}

} // verus!
