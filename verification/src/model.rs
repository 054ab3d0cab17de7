//! The mathematical model of the editor: its state as plain values, and what
//! each operation of the user interface makes of that state.
use vstd::prelude::*;

use crate::tab::TabView;
use crate::text::{lowercase, replace_range_ok, replaced_range, text_matches, utf8, word_tests_defined};

verus! {

/// The title that a newly created, unsaved tab carries.
pub open spec fn new_tab_title() -> Seq<char> {
    "New cloistered file"@
}

/// The editor's state as plain values.
#[verifier::ext_equal]
pub struct AppView {
    pub tabs: Seq<TabView>,
    pub active_tab: int,
    pub clipboard: Seq<char>,
    pub undo_history: Seq<Seq<char>>,
    pub redo_history: Seq<Seq<char>>,
    pub recent_files: Seq<Seq<char>>,
    pub search_query: Seq<char>,
    pub replace_query: Seq<char>,
    pub search_results: Seq<(int, int)>,
    pub current_match: Option<int>,
    pub show_search: bool,
    pub show_replace: bool,
    pub case_sensitive: bool,
    pub whole_word: bool,
}

/// `tabs` with the content of tab `i` set to `c`.
pub open spec fn with_content(tabs: Seq<TabView>, i: int, c: Seq<char>) -> Seq<TabView> {
    tabs.update(i, TabView { content: c, ..tabs[i] })
}

/// `tabs` with the dirty flag of tab `i` set to `d`.
pub open spec fn with_dirty(tabs: Seq<TabView>, i: int, d: bool) -> Seq<TabView> {
    tabs.update(i, TabView { dirty: d, ..tabs[i] })
}

/// The text as the search compares it: itself, or lower-cased when the search
/// ignores case.
pub open spec fn prepared(text: Seq<char>, case_sensitive: bool) -> Seq<char> {
    if case_sensitive {
        text
    } else {
        lowercase(text)
    }
}

/// The contents of the tabs as the search compares them.
pub open spec fn prepared_contents(tabs: Seq<TabView>, case_sensitive: bool) -> Seq<Seq<char>> {
    tabs.map_values(|t: TabView| prepared(t.content, case_sensitive))
}

/// The matches of `q` in the first `n` texts, as (text index, byte offset),
/// text by text and within a text left to right.
pub open spec fn matches_upto(texts: Seq<Seq<char>>, q: Seq<char>, whole_word: bool, n: int) -> Seq<
    (int, int),
>
    decreases n,
{
    if n <= 0 {
        seq![]
    } else {
        matches_upto(texts, q, whole_word, n - 1) + text_matches(
            texts[n - 1],
            q,
            whole_word,
        ).map_values(|s: int| (n - 1, s))
    }
}

/// The matches of `q` in all of `texts`.
pub open spec fn all_matches(texts: Seq<Seq<char>>, q: Seq<char>, whole_word: bool) -> Seq<
    (int, int),
> {
    matches_upto(texts, q, whole_word, texts.len() as int)
}

/// The tabs after the match `m` = (tab, offset) of a `qlen`-byte query is
/// replaced by `r`: that tab's bytes `offset..offset + qlen` become `r` and
/// the tab is marked modified; a match in a tab that does not exist changes
/// nothing.
pub open spec fn replace_one(tabs: Seq<TabView>, m: (int, int), qlen: int, r: Seq<char>) -> Seq<
    TabView,
> {
    if 0 <= m.0 < tabs.len() {
        tabs.update(
            m.0,
            TabView {
                content: replaced_range(tabs[m.0].content, m.1, m.1 + qlen, r),
                dirty: true,
                ..tabs[m.0]
            },
        )
    } else {
        tabs
    }
}

/// `replace_one` can be carried out: the match's tab does not exist, or its
/// range can be replaced.
pub open spec fn replace_one_ok(tabs: Seq<TabView>, m: (int, int), qlen: int) -> bool {
    0 <= m.0 < tabs.len() ==> replace_range_ok(tabs[m.0].content, m.1, m.1 + qlen)
}

/// The tabs after every match of `ms` is replaced, the last match first.
pub open spec fn replace_each(tabs: Seq<TabView>, ms: Seq<(int, int)>, qlen: int, r: Seq<char>) -> Seq<
    TabView,
>
    decreases ms.len(),
{
    if ms.len() == 0 {
        tabs
    } else {
        replace_each(replace_one(tabs, ms.last(), qlen, r), ms.drop_last(), qlen, r)
    }
}

/// Every step of `replace_each` can be carried out.
pub open spec fn replace_each_ok(
    tabs: Seq<TabView>,
    ms: Seq<(int, int)>,
    qlen: int,
    r: Seq<char>,
) -> bool
    decreases ms.len(),
{
    if ms.len() == 0 {
        true
    } else {
        replace_one_ok(tabs, ms.last(), qlen) && replace_each_ok(
            replace_one(tabs, ms.last(), qlen, r),
            ms.drop_last(),
            qlen,
            r,
        )
    }
}

/// The ranges `(offset, offset + qlen)` of the matches in tab `active`, in order.
pub open spec fn ranges_in_tab(ms: Seq<(int, int)>, active: int, qlen: int) -> Seq<(int, int)>
    decreases ms.len(),
{
    if ms.len() == 0 {
        seq![]
    } else {
        let prev = ranges_in_tab(ms.drop_last(), active, qlen);
        if ms.last().0 == active {
            prev.push((ms.last().1, ms.last().1 + qlen))
        } else {
            prev
        }
    }
}

impl AppView {
    /// The state at start-up, with the given tabs.
    pub open spec fn initial(tabs: Seq<TabView>) -> AppView {
        AppView {
            tabs,
            active_tab: 0,
            clipboard: Seq::empty(),
            undo_history: Seq::empty(),
            redo_history: Seq::empty(),
            recent_files: Seq::empty(),
            search_query: Seq::empty(),
            replace_query: Seq::empty(),
            search_results: Seq::empty(),
            current_match: None,
            show_search: false,
            show_replace: false,
            case_sensitive: false,
            whole_word: false,
        }
    }

    /// There is a tab at `active_tab`.
    pub open spec fn has_active_tab(self) -> bool {
        0 <= self.active_tab < self.tabs.len()
    }

    /// The active index designates a tab, unless there are no tabs.
    pub open spec fn active_tab_valid(self) -> bool {
        self.tabs.len() == 0 || self.has_active_tab()
    }

    /// `t` is appended to the tabs and becomes the active tab.
    pub open spec fn with_new_tab(self, t: TabView) -> AppView {
        AppView { tabs: self.tabs.push(t), active_tab: self.tabs.len() as int, ..self }
    }

    /// A file read from `path` is appended as the active tab `t`, and `path`
    /// joins the recent files.
    pub open spec fn with_opened_file(self, t: TabView, path: Seq<char>) -> AppView {
        AppView { recent_files: self.recent_files.push(path), ..self.with_new_tab(t) }
    }

    /// Undo: the last undo entry becomes the active tab's content, which goes
    /// onto the redo history.
    pub open spec fn after_undo(self) -> AppView {
        if self.has_active_tab() && self.undo_history.len() > 0 {
            let i = self.active_tab;
            AppView {
                tabs: with_content(self.tabs, i, self.undo_history.last()),
                undo_history: self.undo_history.drop_last(),
                redo_history: self.redo_history.push(self.tabs[i].content),
                ..self
            }
        } else {
            self
        }
    }

    /// Redo: the last redo entry becomes the active tab's content, which goes
    /// onto the undo history.
    pub open spec fn after_redo(self) -> AppView {
        if self.has_active_tab() && self.redo_history.len() > 0 {
            let i = self.active_tab;
            AppView {
                tabs: with_content(self.tabs, i, self.redo_history.last()),
                redo_history: self.redo_history.drop_last(),
                undo_history: self.undo_history.push(self.tabs[i].content),
                ..self
            }
        } else {
            self
        }
    }

    /// Cut: the active tab's content moves to the clipboard; the emptied
    /// content is recorded on the undo history.
    pub open spec fn after_cut(self) -> AppView {
        if self.has_active_tab() {
            let i = self.active_tab;
            AppView {
                clipboard: self.tabs[i].content,
                tabs: with_content(self.tabs, i, Seq::empty()),
                undo_history: self.undo_history.push(Seq::empty()),
                ..self
            }
        } else {
            self
        }
    }

    /// Copy: the active tab's content goes to the clipboard.
    pub open spec fn after_copy(self) -> AppView {
        if self.has_active_tab() {
            AppView { clipboard: self.tabs[self.active_tab].content, ..self }
        } else {
            self
        }
    }

    /// Paste: the clipboard is appended to the active tab's content, and the
    /// new content is recorded on the undo history.
    pub open spec fn after_paste(self) -> AppView {
        if self.has_active_tab() {
            let i = self.active_tab;
            let pasted = self.tabs[i].content + self.clipboard;
            AppView {
                tabs: with_content(self.tabs, i, pasted),
                undo_history: self.undo_history.push(pasted),
                ..self
            }
        } else {
            self
        }
    }

    /// Edit > Find: the find window opens without its replace row.
    pub open spec fn after_open_find(self) -> AppView {
        if self.has_active_tab() {
            AppView { show_search: true, show_replace: false, ..self }
        } else {
            self
        }
    }

    /// Edit > Replace: the find window opens with its replace row.
    pub open spec fn after_open_replace(self) -> AppView {
        if self.has_active_tab() {
            AppView { show_search: true, show_replace: true, ..self }
        } else {
            self
        }
    }

    /// The find window closes.
    pub open spec fn after_close_search(self) -> AppView {
        AppView { show_search: false, show_replace: false, ..self }
    }

    /// Tab `i` becomes the active tab.
    pub open spec fn after_select_tab(self, i: int) -> AppView {
        AppView { active_tab: i, ..self }
    }

    /// Tab `i` is removed; an active index past the end moves to the last tab
    /// (or 0 when none is left).
    pub open spec fn after_close_tab(self, i: int) -> AppView {
        let tabs = self.tabs.remove(i);
        AppView {
            tabs,
            active_tab: if self.active_tab >= tabs.len() {
                if tabs.len() == 0 {
                    0
                } else {
                    tabs.len() - 1
                }
            } else {
                self.active_tab
            },
            ..self
        }
    }

    /// Tab `i`, where it exists, gets the dirty flag `d`.
    pub open spec fn with_tab_dirty(self, i: int, d: bool) -> AppView {
        if 0 <= i < self.tabs.len() {
            AppView { tabs: with_dirty(self.tabs, i, d), ..self }
        } else {
            self
        }
    }

    /// The active tab was saved to `path`, chosen by the user: it keeps the
    /// path, is clean, and `path` joins the recent files.
    pub open spec fn after_saved_as(self, path: Seq<char>) -> AppView {
        if self.has_active_tab() {
            let i = self.active_tab;
            AppView {
                tabs: self.tabs.update(
                    i,
                    TabView { dirty: false, file_path: Some(path), ..self.tabs[i] },
                ),
                recent_files: self.recent_files.push(path),
                ..self
            }
        } else {
            self
        }
    }

    /// The search runs its whole-word test only on characters that exist.
    pub open spec fn find_defined(self) -> bool {
        self.whole_word && self.search_query.len() > 0 ==> forall|i: int|
            0 <= i < self.tabs.len() ==> word_tests_defined(
                #[trigger] prepared_contents(self.tabs, self.case_sensitive)[i],
                prepared(self.search_query, self.case_sensitive),
            )
    }

    /// The matches that Find reports.
    pub open spec fn find_results(self) -> Seq<(int, int)> {
        if self.search_query.len() == 0 {
            seq![]
        } else {
            all_matches(
                prepared_contents(self.tabs, self.case_sensitive),
                prepared(self.search_query, self.case_sensitive),
                self.whole_word,
            )
        }
    }

    /// Find: the results become the matches, and the current match the first
    /// of them, if any.
    pub open spec fn after_find(self) -> AppView {
        let results = self.find_results();
        AppView {
            search_results: results,
            current_match: if results.len() > 0 {
                Some(0)
            } else {
                None
            },
            ..self
        }
    }

    /// The number of bytes that a replacement covers: the byte length of the
    /// query as typed (not lower-cased).
    pub open spec fn replaced_len(self) -> int {
        utf8(self.search_query).len() as int
    }

    /// The match that Replace acts on: the current match, where it designates
    /// a result whose tab exists.
    pub open spec fn replace_target(self) -> Option<(int, int)> {
        match self.current_match {
            Some(i) => if 0 <= i < self.search_results.len() && 0 <= self.search_results[i].0
                < self.tabs.len() {
                Some(self.search_results[i])
            } else {
                None
            },
            None => None,
        }
    }

    /// Replace can do its work: it has no target, or the target's byte range
    /// lies in the tab's text and falls on character boundaries.
    pub open spec fn replace_current_defined(self) -> bool {
        match self.replace_target() {
            Some(m) => replace_one_ok(self.tabs, m, self.replaced_len()),
            None => true,
        }
    }

    /// Replace: the target's bytes are replaced by the replacement text.
    pub open spec fn after_replace_current(self) -> AppView {
        match self.replace_target() {
            Some(m) => AppView {
                tabs: replace_one(self.tabs, m, self.replaced_len(), self.replace_query),
                ..self
            },
            None => self,
        }
    }

    /// Replace All can do its work, result after result.
    pub open spec fn replace_all_defined(self) -> bool {
        replace_each_ok(self.tabs, self.search_results, self.replaced_len(), self.replace_query)
    }

    /// Replace All: every result is replaced, the last first.
    pub open spec fn after_replace_all(self) -> AppView {
        AppView {
            tabs: replace_each(
                self.tabs,
                self.search_results,
                self.replaced_len(),
                self.replace_query,
            ),
            ..self
        }
    }

    /// The current match steps to result `next`, whose tab becomes active.
    pub open spec fn moved_to_match(self, next: int) -> AppView {
        AppView {
            current_match: Some(next),
            active_tab: self.search_results[next].0,
            ..self
        }
    }

    /// Previous: with results and a current match `c`, the current match
    /// becomes `(c + n - 1) % n`.
    pub open spec fn after_previous(self) -> AppView {
        match self.current_match {
            Some(c) => if self.search_results.len() > 0 {
                let n = self.search_results.len() as int;
                self.moved_to_match((c + n - 1) % n)
            } else {
                self
            },
            None => self,
        }
    }

    /// Next: with results and a current match `c`, the current match becomes
    /// `(c + 1) % n`.
    pub open spec fn after_next(self) -> AppView {
        match self.current_match {
            Some(c) => if self.search_results.len() > 0 {
                let n = self.search_results.len() as int;
                self.moved_to_match((c + 1) % n)
            } else {
                self
            },
            None => self,
        }
    }

    /// The byte ranges that the editor highlights in the active tab.
    pub open spec fn highlights(self) -> Seq<(int, int)> {
        if self.has_active_tab() {
            ranges_in_tab(self.search_results, self.active_tab, self.replaced_len())
        } else {
            seq![]
        }
    }
}

} // verus!
