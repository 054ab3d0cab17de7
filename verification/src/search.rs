//! The find window: searching every tab, stepping through the matches, and
//! replacing them.
use vstd::prelude::*;
use vstd::string::*;

use crate::app::{pairs_view, CloisterApp};
use crate::model::{
    matches_upto, prepared, prepared_contents, ranges_in_tab, replace_each, replace_each_ok,
    replace_one, AppView,
};
use crate::text::{
    byte_len, find_matches, is_alphanumeric, lemma_occurrences_occur, occurs_at, range_replaceable,
    raw_matches, replace_range, text_matches, to_lowercase, utf8, word_test_defined,
    word_tests_defined,
};

verus! {

/// `text` as the search compares it; the search copies it either way.
fn prepare(text: &str, case_sensitive: bool) -> (r: String)
    ensures
        r@ == prepared(text@, case_sensitive),
{
    if case_sensitive {
        text.to_owned()
    } else {
        to_lowercase(text)
    }
}

/// Whether the whole-word test for a match at byte `start` of `qlen` bytes
/// reads only characters of `t`, which has `nchars` characters.
fn word_test_is_defined(t: &str, nchars: usize, start: usize, qlen: usize) -> (r: bool)
    requires
        nchars == t@.len(),
        start + qlen <= byte_len(t@),
    ensures
        r == word_test_defined(t@, start as int, start + qlen),
{
    if start != 0 && start - 1 >= nchars {
        return false;
    }
    let left_ok = start == 0 || !is_alphanumeric(t.get_char(start - 1));
    let blen = t.as_bytes().len();
    let end = start + qlen;
    !left_ok || end == blen || end < nchars
}

impl CloisterApp {
    /// The find window's Find button: the results become every match of the
    /// query in every tab (lower-casing text and query unless the search is
    /// case sensitive; keeping only whole words if asked), and the current
    /// match becomes the first one, if any.
    pub fn run_find(&mut self)
        requires
            old(self)@.find_defined(),
        ensures
            final(self)@ == old(self)@.after_find(),
            final(self).tabs@ == old(self).tabs@,
    {
        let mut results: Vec<(usize, usize)> = Vec::new();
        if !self.search_query.as_str().is_empty() {
            let cs = self.case_sensitive;
            let ww = self.whole_word;
            let query = prepare(self.search_query.as_str(), cs);
            let ghost texts = prepared_contents(self@.tabs, cs);
            let n = self.tabs.len();
            let mut tab_idx: usize = 0;
            while tab_idx < n
                invariant
                    n == self.tabs@.len(),
                    cs == self.case_sensitive,
                    ww == self.whole_word,
                    self.search_query@.len() > 0,
                    self@.find_defined(),
                    texts == prepared_contents(self@.tabs, cs),
                    query@ == prepared(self.search_query@, cs),
                    tab_idx <= n,
                    pairs_view(results@) == matches_upto(texts, query@, ww, tab_idx as int),
                decreases n - tab_idx,
            {
                let content = prepare(self.tabs[tab_idx].content.as_str(), cs);
                assert(content@ == texts[tab_idx as int]);
                proof {
                    if ww {
                        assert(word_tests_defined(
                            prepared_contents(self@.tabs, self@.case_sensitive)[tab_idx as int],
                            prepared(self@.search_query, self@.case_sensitive),
                        ));
                    }
                }
                let found = find_matches(content.as_str(), query.as_str(), ww);
                let ghost base = results@;
                let ghost tm = text_matches(texts[tab_idx as int], query@, ww);
                let m = found.len();
                let mut k: usize = 0;
                while k < m
                    invariant
                        m == found@.len(),
                        found@.len() == tm.len(),
                        forall|j: int| 0 <= j < found@.len() ==> found@[j] as int == #[trigger] tm[j],
                        k <= m,
                        results@.len() == base.len() + k,
                        forall|j: int| 0 <= j < base.len() ==> #[trigger] results@[j] == base[j],
                        forall|j: int|
                            0 <= j < k ==> #[trigger] results@[base.len() + j] == (
                                tab_idx,
                                found@[j],
                            ),
                    decreases m - k,
                {
                    results.push((tab_idx, found[k]));
                    k = k + 1;
                }
                proof {
                    let prev = matches_upto(texts, query@, ww, tab_idx as int);
                    let added = tm.map_values(|s: int| (tab_idx as int, s));
                    let next = matches_upto(texts, query@, ww, tab_idx + 1);
                    assert(next == prev + added);
                    assert forall|j: int| 0 <= j < results@.len() implies #[trigger] pairs_view(
                        results@,
                    )[j] == (prev + added)[j] by {
                        if j < base.len() {
                            assert(pairs_view(base)[j] == prev[j]);
                        } else {
                            assert(results@[base.len() + (j - base.len())] == (
                                tab_idx,
                                found@[j - base.len()],
                            ));
                        }
                    }
                    assert(pairs_view(results@) =~= next);
                }
                tab_idx = tab_idx + 1;
            }
        } else {
            assert(pairs_view(results@) =~= seq![]);
        }
        self.search_results = results;
        self.current_match = if self.search_results.len() > 0 {
            Some(0)
        } else {
            None
        };
        assert(self@ =~= old(self)@.after_find());
    }

    /// Whether the search of this state runs its whole-word test only on
    /// characters that exist (where it does not, the editor would fail).
    pub fn find_is_defined(&self) -> (r: bool)
        ensures
            r == self@.find_defined(),
    {
        if !self.whole_word || self.search_query.as_str().is_empty() {
            return true;
        }
        let cs = self.case_sensitive;
        let query = prepare(self.search_query.as_str(), cs);
        let qlen = query.as_str().as_bytes().len();
        let ghost texts = prepared_contents(self@.tabs, cs);
        let n = self.tabs.len();
        let mut i: usize = 0;
        while i < n
            invariant
                n == self.tabs@.len(),
                cs == self.case_sensitive,
                self.whole_word,
                self.search_query@.len() > 0,
                texts == prepared_contents(self@.tabs, cs),
                query@ == prepared(self.search_query@, cs),
                qlen == utf8(query@).len(),
                i <= n,
                forall|j: int| 0 <= j < i ==> word_tests_defined(#[trigger] texts[j], query@),
            decreases n - i,
        {
            let content = prepare(self.tabs[i].content.as_str(), cs);
            assert(content@ == texts[i as int]);
            let raw = find_matches(content.as_str(), query.as_str(), false);
            let ghost rm = raw_matches(content@, query@);
            proof {
                lemma_occurrences_occur(utf8(content@), utf8(query@), 0);
            }
            let nchars = content.unicode_len();
            let m = raw.len();
            let mut k: usize = 0;
            while k < m
                invariant
                    m == raw@.len(),
                    raw@.len() == rm.len(),
                    rm == raw_matches(content@, query@),
                    forall|j: int| 0 <= j < raw@.len() ==> raw@[j] as int == #[trigger] rm[j],
                    forall|j: int|
                        0 <= j < rm.len() ==> occurs_at(
                            utf8(content@),
                            utf8(query@),
                            #[trigger] rm[j],
                        ),
                    nchars == content@.len(),
                    qlen == utf8(query@).len(),
                    content@ == texts[i as int],
                    i < n,
                    n == self.tabs@.len(),
                    cs == self.case_sensitive,
                    self.whole_word,
                    self.search_query@.len() > 0,
                    texts == prepared_contents(self@.tabs, cs),
                    query@ == prepared(self.search_query@, cs),
                    k <= m,
                    forall|j: int|
                        0 <= j < k ==> word_test_defined(content@, #[trigger] rm[j], rm[j] + qlen),
                decreases m - k,
            {
                assert(occurs_at(utf8(content@), utf8(query@), rm[k as int]));
                if !word_test_is_defined(content.as_str(), nchars, raw[k], qlen) {
                    assert(!word_tests_defined(
                        prepared_contents(self@.tabs, self@.case_sensitive)[i as int],
                        prepared(self@.search_query, self@.case_sensitive),
                    ));
                    return false;
                }
                k = k + 1;
            }
            i = i + 1;
        }
        true
    }

    /// The find window's Find button, where the search can run: it runs as
    /// `run_find` does and `true` comes back; where its whole-word test would
    /// read past the end of a text, nothing changes and `false` comes back.
    pub fn try_run_find(&mut self) -> (ran: bool)
        ensures
            ran == old(self)@.find_defined(),
            ran ==> final(self)@ == old(self)@.after_find(),
            !ran ==> final(self)@ == old(self)@,
            final(self).tabs@ == old(self).tabs@,
    {
        if self.find_is_defined() {
            self.run_find();
            true
        } else {
            false
        }
    }

    /// Whether the Replace button can do its work in this state.
    pub fn can_replace_current(&self) -> (r: bool)
        ensures
            r == self@.replace_current_defined(),
    {
        if let Some(i) = self.current_match {
            if i < self.search_results.len() {
                let (t, p) = self.search_results[i];
                if t < self.tabs.len() {
                    let qlen = self.search_query.as_str().as_bytes().len();
                    return range_replaceable(self.tabs[t].content.as_str(), p, qlen);
                }
            }
        }
        true
    }

    /// The find window's Replace button: the bytes of the current match
    /// (as many as the typed query has) are replaced by the replacement text in
    /// that tab, which becomes modified. The results are not searched again.
    pub fn replace_current(&mut self)
        requires
            old(self)@.replace_current_defined(),
        ensures
            final(self)@ == old(self)@.after_replace_current(),
            final(self).tabs@.len() == old(self).tabs@.len(),
    {
        if let Some(i) = self.current_match {
            if i < self.search_results.len() {
                let (t, p) = self.search_results[i];
                if t < self.tabs.len() {
                    let qlen = self.search_query.as_str().as_bytes().len();
                    let clen = self.tabs[t].content.as_str().as_bytes().len();
                    assert(self@.replace_target() == Some((t as int, p as int)));
                    assert(p + qlen <= clen);
                    let replaced = replace_range(
                        &self.tabs[t].content,
                        p,
                        p + qlen,
                        self.replace_query.as_str(),
                    );
                    self.tabs[t].content = replaced;
                    self.tabs[t].dirty = true;
                    assert(self@ =~= old(self)@.after_replace_current());
                    return;
                }
            }
        }
        assert(self@ =~= old(self)@);
    }

    /// Whether Replace All can do its work in this state (it is tried out on
    /// copies of the tab contents).
    pub fn can_replace_all(&self) -> (r: bool)
        ensures
            r == self@.replace_all_defined(),
    {
        let qlen = self.search_query.as_str().as_bytes().len();
        let ghost ms = self@.search_results;
        let ghost r = self.replace_query@;
        let mut contents: Vec<String> = Vec::new();
        let n = self.tabs.len();
        let mut j: usize = 0;
        while j < n
            invariant
                n == self.tabs@.len(),
                j <= n,
                contents@.len() == j,
                forall|l: int| 0 <= l < j ==> (#[trigger] contents@[l])@ == self.tabs@[l].content@,
            decreases n - j,
        {
            contents.push(self.tabs[j].content.clone());
            j = j + 1;
        }
        let ghost mut cur = self@.tabs;
        let mut k = self.search_results.len();
        assert(ms.take(k as int) =~= ms);
        while k > 0
            invariant
                ms == self@.search_results,
                r == self.replace_query@,
                qlen == self@.replaced_len(),
                k <= self.search_results@.len(),
                contents@.len() == cur.len(),
                forall|l: int| 0 <= l < cur.len() ==> (#[trigger] contents@[l])@ == cur[l].content,
                replace_each_ok(cur, ms.take(k as int), qlen as int, r)
                    == self@.replace_all_defined(),
            decreases k,
        {
            let (t, p) = self.search_results[k - 1];
            let ghost m = ms[k - 1];
            proof {
                assert(ms.take(k as int).last() == m);
                assert(ms.take(k as int).drop_last() =~= ms.take(k - 1));
            }
            if t < contents.len() {
                if !range_replaceable(contents[t].as_str(), p, qlen) {
                    return false;
                }
                let clen = contents[t].as_str().as_bytes().len();
                assert(p + qlen <= clen);
                let replaced = replace_range(&contents[t], p, p + qlen, self.replace_query.as_str());
                contents.set(t, replaced);
                proof {
                    cur = replace_one(cur, m, qlen as int, r);
                }
            }
            k = k - 1;
        }
        true
    }

    /// The find window's Replace All button: every result, the last first,
    /// has its bytes (as many as the typed query has) replaced by the
    /// replacement text in its tab, which becomes modified; results whose
    /// tab no longer exists are passed over. The results are not searched again.
    pub fn replace_all(&mut self)
        requires
            old(self)@.replace_all_defined(),
        ensures
            final(self)@ == old(self)@.after_replace_all(),
            final(self).tabs@.len() == old(self).tabs@.len(),
    {
        let qlen = self.search_query.as_str().as_bytes().len();
        let ghost ms = self@.search_results;
        let ghost r = self.replace_query@;
        let ghost goal = replace_each(self@.tabs, ms, qlen as int, r);
        let mut k = self.search_results.len();
        assert(ms.take(k as int) =~= ms);
        while k > 0
            invariant
                ms == self@.search_results,
                r == self.replace_query@,
                qlen == self@.replaced_len(),
                k <= self.search_results@.len(),
                self.tabs@.len() == old(self).tabs@.len(),
                self@ == (AppView { tabs: self@.tabs, ..old(self)@ }),
                goal == replace_each(old(self)@.tabs, ms, qlen as int, r),
                replace_each(self@.tabs, ms.take(k as int), qlen as int, r) == goal,
                replace_each_ok(self@.tabs, ms.take(k as int), qlen as int, r),
            decreases k,
        {
            let (t, p) = self.search_results[k - 1];
            let ghost m = ms[k - 1];
            proof {
                assert(ms.take(k as int).last() == m);
                assert(ms.take(k as int).drop_last() =~= ms.take(k - 1));
            }
            let ghost before = self@;
            if t < self.tabs.len() {
                let clen = self.tabs[t].content.as_str().as_bytes().len();
                assert(p + qlen <= clen);
                let replaced = replace_range(
                    &self.tabs[t].content,
                    p,
                    p + qlen,
                    self.replace_query.as_str(),
                );
                self.tabs[t].content = replaced;
                self.tabs[t].dirty = true;
                assert(self@.tabs =~= replace_one(before.tabs, m, qlen as int, r));
                assert(self@ =~= (AppView { tabs: self@.tabs, ..old(self)@ }));
            } else {
                assert(replace_one(self@.tabs, m, qlen as int, r) == self@.tabs);
            }
            k = k - 1;
        }
        assert(ms.take(0) =~= seq![]);
        assert(self@ =~= old(self)@.after_replace_all());
    }

    /// The find window's Previous button (shown when there are results and a
    /// current match): the current match steps back by one, wrapping around,
    /// and its tab becomes the active tab.
    pub fn previous_match(&mut self)
        requires
            old(self).current_match matches Some(c) ==> c + old(self).search_results@.len() - 1
                <= usize::MAX,
        ensures
            final(self)@ == old(self)@.after_previous(),
            final(self).tabs@ == old(self).tabs@,
    {
        let n = self.search_results.len();
        if n > 0 {
            if let Some(current) = self.current_match {
                let next = (current + (n - 1)) % n;
                self.current_match = Some(next);
                self.active_tab = self.search_results[next].0;
            }
        }
        assert(self@ =~= old(self)@.after_previous());
    }

    /// The find window's Next button (shown when there are results and a
    /// current match): the current match steps forward by one, wrapping
    /// around, and its tab becomes the active tab.
    pub fn next_match(&mut self)
        requires
            old(self).current_match matches Some(c) ==> c < usize::MAX,
        ensures
            final(self)@ == old(self)@.after_next(),
            final(self).tabs@ == old(self).tabs@,
    {
        let n = self.search_results.len();
        if n > 0 {
            if let Some(current) = self.current_match {
                let next = (current + 1) % n;
                self.current_match = Some(next);
                self.active_tab = self.search_results[next].0;
            }
        }
        assert(self@ =~= old(self)@.after_next());
    }

    /// The byte ranges that the editor highlights in the active tab: one
    /// `(offset, offset + query bytes)` per result in that tab, in order; none
    /// when there is no active tab.
    pub fn highlight_ranges(&self) -> (r: Vec<(usize, usize)>)
        requires
            self@.has_active_tab() ==> forall|k: int|
                0 <= k < self.search_results@.len() && #[trigger] self.search_results@[k].0
                    == self.active_tab ==> self.search_results@[k].1 + self@.replaced_len()
                    <= usize::MAX,
        ensures
            pairs_view(r@) == self@.highlights(),
    {
        let mut r: Vec<(usize, usize)> = Vec::new();
        if self.active_tab >= self.tabs.len() {
            assert(pairs_view(r@) =~= seq![]);
            return r;
        }
        let qlen = self.search_query.as_str().as_bytes().len();
        let ghost ms = self@.search_results;
        let n = self.search_results.len();
        let mut k: usize = 0;
        while k < n
            invariant
                n == self.search_results@.len(),
                ms == self@.search_results,
                qlen == self@.replaced_len(),
                self@.has_active_tab(),
                forall|j: int|
                    0 <= j < self.search_results@.len() && #[trigger] self.search_results@[j].0
                        == self.active_tab ==> self.search_results@[j].1 + self@.replaced_len()
                        <= usize::MAX,
                k <= n,
                pairs_view(r@) == ranges_in_tab(ms.take(k as int), self.active_tab as int, qlen as int),
            decreases n - k,
        {
            let (t, p) = self.search_results[k];
            proof {
                assert(ms.take(k + 1).drop_last() =~= ms.take(k as int));
                assert(ms.take(k + 1).last() == ms[k as int]);
            }
            if t == self.active_tab {
                r.push((p, p + qlen));
                assert(pairs_view(r@) =~= ranges_in_tab(
                    ms.take(k as int),
                    self.active_tab as int,
                    qlen as int,
                ).push((p as int, p + qlen)));
            }
            k = k + 1;
        }
        assert(ms.take(n as int) =~= ms);
        r
    }
}

} // verus!
