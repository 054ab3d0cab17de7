//! Properties of the editor that span several operations.
use vstd::prelude::*;
use vstd::utf8::{is_ascii_chars, is_ascii_chars_encode_utf8};

use crate::app::{fresh_tab, loaded_tab};
use crate::model::{
    matches_upto, new_tab_title, prepared, prepared_contents, ranges_in_tab, replace_each,
    replace_each_ok, replace_one, with_content, AppView,
};
use crate::text::{
    alphanumeric, byte_len, is_whole_word, lemma_occurrences_ordered, keep_whole_words, lemma_occurrence_covered, lemma_occurrence_replaceable,
    lemma_occurrences_occur, lemma_replaced_bytes, lemma_text_matches, lowercase, occurs_at,
    raw_matches, text_matches, utf8, word_test_defined, word_tests_defined,
};
use crate::tab::TabView;

verus! {

/// Undo followed by Redo gives back the state before the Undo, whenever the
/// Undo had something to undo.
pub proof fn undo_then_redo_restores(s: AppView)
    requires
        s.has_active_tab(),
        s.undo_history.len() > 0,
    ensures
        s.after_undo().after_redo() == s,
{
    let u = s.after_undo();
    let i = s.active_tab;
    assert(u.redo_history.last() == s.tabs[i].content);
    assert(u.undo_history.push(u.tabs[i].content) =~= s.undo_history);
    assert(u.redo_history.drop_last() =~= s.redo_history);
    assert(with_content(u.tabs, i, s.tabs[i].content) =~= s.tabs);
    assert(s.after_undo().after_redo() =~= s);
}

/// Redo followed by Undo gives back the state before the Redo, whenever the
/// Redo had something to redo.
pub proof fn redo_then_undo_restores(s: AppView)
    requires
        s.has_active_tab(),
        s.redo_history.len() > 0,
    ensures
        s.after_redo().after_undo() == s,
{
    let r = s.after_redo();
    let i = s.active_tab;
    assert(r.redo_history.push(r.tabs[i].content) =~= s.redo_history);
    assert(r.undo_history.drop_last() =~= s.undo_history);
    assert(with_content(r.tabs, i, s.tabs[i].content) =~= s.tabs);
    assert(s.after_redo().after_undo() =~= s);
}

/// Paste right after Cut puts the cut text back: the tabs are as before the
/// Cut, and the clipboard holds the text.
pub proof fn paste_after_cut_restores_text(s: AppView)
    requires
        s.has_active_tab(),
    ensures
        s.after_cut().after_paste().tabs == s.tabs,
        s.after_cut().after_paste().clipboard == s.tabs[s.active_tab].content,
{
    let i = s.active_tab;
    let c = s.after_cut();
    assert(c.tabs[i].content + c.clipboard =~= s.tabs[i].content);
    assert(with_content(c.tabs, i, s.tabs[i].content) =~= s.tabs);
}

/// Copy changes nothing but the clipboard.
pub proof fn copy_changes_only_clipboard(s: AppView)
    ensures
        s.after_copy() == (AppView { clipboard: s.after_copy().clipboard, ..s }),
{
}

/// The start-up state's active index designates a tab (unless there are
/// none), and every operation keeps it so: adding a tab, closing tab `i`, selecting tab `i`
/// (both for an `i` that designates a tab), and the edit, save, find and
/// replace operations. Stepping through the matches keeps it where every
/// match designates an existing tab.
pub proof fn active_tab_stays_valid(s: AppView, t: TabView, path: Seq<char>, i: int)
    requires
        s.active_tab_valid(),
    ensures
        AppView::initial(s.tabs).active_tab_valid(),
        s.with_new_tab(t).active_tab_valid(),
        s.with_opened_file(t, path).active_tab_valid(),
        0 <= i < s.tabs.len() ==> s.after_close_tab(i).active_tab_valid(),
        0 <= i < s.tabs.len() ==> s.after_select_tab(i).active_tab_valid(),
        s.after_undo().active_tab_valid(),
        s.after_redo().active_tab_valid(),
        s.after_cut().active_tab_valid(),
        s.after_copy().active_tab_valid(),
        s.after_paste().active_tab_valid(),
        s.after_open_find().active_tab_valid(),
        s.after_open_replace().active_tab_valid(),
        s.after_close_search().active_tab_valid(),
        s.with_tab_dirty(i, true).active_tab_valid(),
        s.with_tab_dirty(i, false).active_tab_valid(),
        s.after_saved_as(path).active_tab_valid(),
        s.after_find().active_tab_valid(),
        s.after_replace_current().active_tab_valid(),
        s.after_replace_all().active_tab_valid(),
        (forall|k: int| 0 <= k < s.search_results.len() ==> 0 <= #[trigger] s.search_results[k].0
            < s.tabs.len()) ==> s.after_next().active_tab_valid() && s.after_previous().active_tab_valid(),
{
    lemma_replace_each_keeps_len(s.tabs, s.search_results, s.replaced_len(), s.replace_query);
}

/// Replacing matches never adds or removes a tab.
pub proof fn lemma_replace_each_keeps_len(
    tabs: Seq<TabView>,
    ms: Seq<(int, int)>,
    qlen: int,
    r: Seq<char>,
)
    ensures
        crate::model::replace_each(tabs, ms, qlen, r).len() == tabs.len(),
    decreases ms.len(),
{
    if ms.len() > 0 {
        lemma_replace_each_keeps_len(
            crate::model::replace_one(tabs, ms.last(), qlen, r),
            ms.drop_last(),
            qlen,
            r,
        );
    }
}

/// Next followed by Previous (and Previous followed by Next) comes back to
/// the same current match, and to the tab of that match.
pub proof fn next_and_previous_are_inverse(s: AppView)
    requires
        s.search_results.len() > 0,
        s.current_match matches Some(c) && 0 <= c < s.search_results.len(),
    ensures
        s.after_next().after_previous().current_match == s.current_match,
        s.after_previous().after_next().current_match == s.current_match,
        s.after_next().after_previous().active_tab == s.search_results[s.current_match->0].0,
        s.after_previous().after_next().active_tab == s.search_results[s.current_match->0].0,
{
    let n = s.search_results.len() as int;
    let c = s.current_match->0;
    let f = (c + 1) % n;
    let b = (c + n - 1) % n;
    assert(0 <= f < n && 0 <= b < n) by (nonlinear_arith)
        requires
            0 <= c < n,
            f == (c + 1) % n,
            b == (c + n - 1) % n,
    ;
    assert((f + n - 1) % n == c) by (nonlinear_arith)
        requires
            0 <= c < n,
            f == (c + 1) % n,
    ;
    assert((b + 1) % n == c) by (nonlinear_arith)
        requires
            0 <= c < n,
            b == (c + n - 1) % n,
    ;
}

/// Find with an empty query reports no match and no current match.
pub proof fn empty_query_finds_nothing(s: AppView)
    requires
        s.search_query.len() == 0,
    ensures
        s.after_find().search_results.len() == 0,
        s.after_find().current_match is None,
{
}

/// Replace All with no results changes nothing.
pub proof fn replace_all_without_results_is_identity(s: AppView)
    requires
        s.search_results.len() == 0,
    ensures
        s.after_replace_all() == s,
        s.replace_all_defined(),
{
    assert(s.after_replace_all() =~= s);
}

/// The matches over the first `n` texts: each lies in one of those texts,
/// is an occurrence of the query there (passing the whole-word test if asked),
/// and they come text by text, in order and without overlapping.
pub proof fn lemma_matches_upto(texts: Seq<Seq<char>>, q: Seq<char>, whole_word: bool, n: int)
    requires
        0 <= n <= texts.len(),
    ensures
        forall|k: int|
            0 <= k < matches_upto(texts, q, whole_word, n).len() ==> {
                let m = #[trigger] matches_upto(texts, q, whole_word, n)[k];
                &&& 0 <= m.0 < n
                &&& occurs_at(utf8(texts[m.0]), utf8(q), m.1)
                &&& whole_word ==> is_whole_word(texts[m.0], m.1, m.1 + utf8(q).len())
            },
        forall|k: int, l: int|
            0 <= k < l < matches_upto(texts, q, whole_word, n).len() ==> {
                let a = #[trigger] matches_upto(texts, q, whole_word, n)[k];
                let b = #[trigger] matches_upto(texts, q, whole_word, n)[l];
                a.0 < b.0 || (a.0 == b.0 && a.1 + utf8(q).len() <= b.1)
            },
        forall|i: int, k: int|
            0 <= i < n && 0 <= k < text_matches(texts[i], q, whole_word).len()
                ==> matches_upto(texts, q, whole_word, n).contains(
                (i, #[trigger] text_matches(texts[i], q, whole_word)[k]),
            ),
    decreases n,
{
    if n > 0 {
        lemma_matches_upto(texts, q, whole_word, n - 1);
        lemma_text_matches(texts[n - 1], q, whole_word);
        let prev = matches_upto(texts, q, whole_word, n - 1);
        let tm = text_matches(texts[n - 1], q, whole_word);
        let added = tm.map_values(|s: int| (n - 1, s));
        let all = matches_upto(texts, q, whole_word, n);
        assert(all == prev + added);
        assert forall|k: int| 0 <= k < all.len() implies {
            let m = #[trigger] all[k];
            &&& 0 <= m.0 < n
            &&& occurs_at(utf8(texts[m.0]), utf8(q), m.1)
            &&& whole_word ==> is_whole_word(texts[m.0], m.1, m.1 + utf8(q).len())
        } by {
            if k < prev.len() {
                assert(all[k] == prev[k]);
            } else {
                assert(all[k] == (n - 1, tm[k - prev.len()]));
            }
        }
        assert forall|k: int, l: int| 0 <= k < l < all.len() implies {
            let a = #[trigger] all[k];
            let b = #[trigger] all[l];
            a.0 < b.0 || (a.0 == b.0 && a.1 + utf8(q).len() <= b.1)
        } by {
            if l < prev.len() {
                assert(all[k] == prev[k] && all[l] == prev[l]);
            } else if k < prev.len() {
                assert(all[k] == prev[k]);
                assert(all[l] == (n - 1, tm[l - prev.len()]));
            } else {
                assert(all[k] == (n - 1, tm[k - prev.len()]));
                assert(all[l] == (n - 1, tm[l - prev.len()]));
            }
        }
        assert forall|i: int, k: int|
            0 <= i < n && 0 <= k < text_matches(texts[i], q, whole_word).len() implies all.contains(
            (i, #[trigger] text_matches(texts[i], q, whole_word)[k]),
        ) by {
            if i < n - 1 {
                let w = choose|w: int|
                    0 <= w < prev.len() && prev[w] == (i, text_matches(texts[i], q, whole_word)[k]);
                assert(all[w] == prev[w]);
            } else {
                assert(all[prev.len() + k] == (n - 1, tm[k]));
            }
        }
    }
}

/// What Find reports are occurrences: each match lies in an existing tab, the
/// query (as compared) occurs in that tab's text (as compared) at the
/// reported byte offset, and with whole words asked for, the match passes the
/// whole-word test. The matches come tab by tab, in order, without overlapping.
pub proof fn found_matches_are_occurrences(s: AppView)
    ensures
        forall|k: int|
            0 <= k < s.find_results().len() ==> {
                let m = #[trigger] s.find_results()[k];
                let text = prepared(s.tabs[m.0].content, s.case_sensitive);
                let q = prepared(s.search_query, s.case_sensitive);
                &&& 0 <= m.0 < s.tabs.len()
                &&& occurs_at(utf8(text), utf8(q), m.1)
                &&& s.whole_word ==> is_whole_word(text, m.1, m.1 + utf8(q).len())
            },
        forall|k: int, l: int|
            0 <= k < l < s.find_results().len() ==> {
                let a = #[trigger] s.find_results()[k];
                let b = #[trigger] s.find_results()[l];
                a.0 < b.0 || (a.0 == b.0 && a.1 + utf8(prepared(s.search_query, s.case_sensitive)).len()
                    <= b.1)
            },
{
    if s.search_query.len() > 0 {
        let texts = prepared_contents(s.tabs, s.case_sensitive);
        lemma_matches_upto(
            texts,
            prepared(s.search_query, s.case_sensitive),
            s.whole_word,
            texts.len() as int,
        );
        assert forall|k: int| 0 <= k < s.find_results().len() implies {
            let m = #[trigger] s.find_results()[k];
            texts[m.0] == prepared(s.tabs[m.0].content, s.case_sensitive)
        } by {
        }
    }
}

/// A search that does not ask for whole words misses no occurrence: every
/// occurrence of the (non-empty) query in a tab's text, as compared, is a
/// reported match or overlaps one in that tab.
pub proof fn find_misses_no_occurrence(s: AppView, i: int, j: int)
    requires
        !s.whole_word,
        s.search_query.len() > 0,
        utf8(prepared(s.search_query, s.case_sensitive)).len() > 0,
        0 <= i < s.tabs.len(),
        occurs_at(
            utf8(prepared(s.tabs[i].content, s.case_sensitive)),
            utf8(prepared(s.search_query, s.case_sensitive)),
            j,
        ),
    ensures
        exists|k: int|
            0 <= k < s.find_results().len() && (#[trigger] s.find_results()[k]).0 == i
                && s.find_results()[k].1 <= j < s.find_results()[k].1 + utf8(
                prepared(s.search_query, s.case_sensitive),
            ).len(),
{
    let texts = prepared_contents(s.tabs, s.case_sensitive);
    let q = prepared(s.search_query, s.case_sensitive);
    assert(texts[i] == prepared(s.tabs[i].content, s.case_sensitive));
    lemma_occurrence_covered(utf8(texts[i]), utf8(q), 0, j);
    let tm = text_matches(texts[i], q, false);
    let w = choose|w: int| 0 <= w < tm.len() && #[trigger] tm[w] <= j < tm[w] + utf8(q).len();
    lemma_matches_upto(texts, q, false, texts.len() as int);
    let all = s.find_results();
    assert(all.contains((i, tm[w])));
    let k = choose|k: int| 0 <= k < all.len() && all[k] == (i, tm[w]);
    assert(all[k].0 == i);
}

/// In a case-sensitive search, Replace right after a Find that found
/// something replaces exactly the first match: that tab's bytes become the
/// bytes before the match, the replacement's bytes, and the bytes after the
/// match; the tab becomes modified, and no other tab changes.
pub proof fn replace_after_find_replaces_the_match(s: AppView)
    requires
        s.case_sensitive,
        s.find_results().len() > 0,
    ensures
        ({
            let f = s.after_find();
            let m = f.search_results[0];
            let qlen = utf8(s.search_query).len() as int;
            let before = utf8(s.tabs[m.0].content);
            let after = f.after_replace_current();
            &&& 0 <= m.0 < s.tabs.len()
            &&& f.replace_current_defined()
            &&& after.tabs.len() == s.tabs.len()
            &&& utf8(after.tabs[m.0].content) == before.subrange(0, m.1) + utf8(s.replace_query)
                + before.subrange(m.1 + qlen, before.len() as int)
            &&& after.tabs[m.0].dirty
            &&& forall|i: int| 0 <= i < s.tabs.len() && i != m.0 ==> #[trigger] after.tabs[i] == s.tabs[i]
        }),
{
    found_matches_are_occurrences(s);
    let f = s.after_find();
    let m = f.search_results[0];
    assert(f.search_results[0] == s.find_results()[0]);
    let c = s.tabs[m.0].content;
    assert(s.search_query.len() > 0);
    lemma_occurrence_replaceable(c, s.search_query, m.1);
    assert(f.replace_target() == Some(m));
    lemma_replaced_bytes(c, m.1, m.1 + utf8(s.search_query).len(), s.replace_query);
}

/// Replacing the last of a list of ordered, non-overlapping occurrences of a
/// non-empty query leaves the others occurrences, so that every step of
/// replacing them all, the last first, can be carried out.
pub proof fn lemma_occurrences_replaceable_in_turn(
    tabs: Seq<TabView>,
    ms: Seq<(int, int)>,
    q: Seq<char>,
    r: Seq<char>,
)
    requires
        q.len() > 0,
        forall|k: int|
            0 <= k < ms.len() ==> 0 <= (#[trigger] ms[k]).0 < tabs.len() && occurs_at(
                utf8(tabs[ms[k].0].content),
                utf8(q),
                ms[k].1,
            ),
        forall|k: int, l: int|
            0 <= k < l < ms.len() ==> (#[trigger] ms[k]).0 < (#[trigger] ms[l]).0 || (ms[k].0
                == ms[l].0 && ms[k].1 + utf8(q).len() <= ms[l].1),
    ensures
        replace_each_ok(tabs, ms, utf8(q).len() as int, r),
    decreases ms.len(),
{
    if ms.len() > 0 {
        let qlen = utf8(q).len() as int;
        let m = ms.last();
        let old_text = tabs[m.0].content;
        lemma_occurrence_replaceable(old_text, q, m.1);
        lemma_replaced_bytes(old_text, m.1, m.1 + qlen, r);
        let nt = replace_one(tabs, m, qlen, r);
        let init = ms.drop_last();
        let old_bytes = utf8(old_text);
        let new_bytes = utf8(nt[m.0].content);
        assert(new_bytes == old_bytes.subrange(0, m.1) + utf8(r) + old_bytes.subrange(
            m.1 + qlen,
            old_bytes.len() as int,
        ));
        assert forall|k: int| 0 <= k < init.len() implies 0 <= (#[trigger] init[k]).0 < nt.len()
            && occurs_at(utf8(nt[init[k].0].content), utf8(q), init[k].1) by {
            assert(init[k] == ms[k]);
            if init[k].0 == m.0 {
                assert(ms[k].1 + qlen <= ms[ms.len() - 1].1);
                let p = init[k].1;
                assert(new_bytes.subrange(p, p + qlen) =~= old_bytes.subrange(p, p + qlen));
            }
        }
        assert forall|k: int, l: int| 0 <= k < l < init.len() implies (#[trigger] init[k]).0 < (
        #[trigger] init[l]).0 || (init[k].0 == init[l].0 && init[k].1 + qlen <= init[l].1) by {
            assert(init[k] == ms[k] && init[l] == ms[l]);
        }
        lemma_occurrences_replaceable_in_turn(nt, init, q, r);
    }
}

/// After a case-sensitive Find, Replace All can always do its work: every
/// match it replaces, the last first, still lies on character boundaries of
/// its tab's text when its turn comes.
pub proof fn replace_all_after_case_sensitive_find_can_run(s: AppView)
    requires
        s.case_sensitive,
    ensures
        s.after_find().replace_all_defined(),
{
    let f = s.after_find();
    if s.search_query.len() == 0 {
        assert(f.search_results.len() == 0);
    } else {
        found_matches_are_occurrences(s);
        lemma_occurrences_replaceable_in_turn(
            s.tabs,
            f.search_results,
            s.search_query,
            s.replace_query,
        );
    }
}

/// The whole-word test of a match that ends exactly at the text's byte length
/// never reads past the end on the right: once the left neighbour (if any)
/// exists, the test can run.
pub proof fn word_test_at_text_end_is_defined(t: Seq<char>, start: int)
    requires
        start == 0 || start - 1 < t.len(),
    ensures
        word_test_defined(t, start, byte_len(t)),
{
}

/// In a text whose characters are all ASCII, byte offsets are character
/// indices, so the whole-word test of any occurrence reads only characters
/// that exist, a match that ends the text included.
pub proof fn ascii_word_tests_are_defined(t: Seq<char>, q: Seq<char>)
    requires
        is_ascii_chars(t),
    ensures
        word_tests_defined(t, q),
{
    is_ascii_chars_encode_utf8(t);
    let tt = utf8(t);
    let qq = utf8(q);
    if qq.len() > 0 {
        lemma_occurrences_occur(tt, qq, 0);
    } else {
        assert(raw_matches(t, q) =~= seq![]);
    }
}

/// Where every tab's text, as the search compares it, is ASCII, Find can
/// always run (whole words or not), and the Find button gives `after_find`.
pub proof fn ascii_texts_can_always_be_searched(s: AppView)
    requires
        forall|i: int|
            0 <= i < s.tabs.len() ==> is_ascii_chars(
                #[trigger] prepared_contents(s.tabs, s.case_sensitive)[i],
            ),
    ensures
        s.find_defined(),
{
    assert forall|i: int| 0 <= i < s.tabs.len() implies word_tests_defined(
        #[trigger] prepared_contents(s.tabs, s.case_sensitive)[i],
        prepared(s.search_query, s.case_sensitive),
    ) by {
        ascii_word_tests_are_defined(
            prepared_contents(s.tabs, s.case_sensitive)[i],
            prepared(s.search_query, s.case_sensitive),
        );
    }
}

/// A case-sensitive search of ASCII tabs can always run.
pub proof fn case_sensitive_ascii_search_can_run(s: AppView)
    requires
        s.case_sensitive,
        forall|i: int| 0 <= i < s.tabs.len() ==> is_ascii_chars(#[trigger] s.tabs[i].content),
    ensures
        s.find_defined(),
{
    assert forall|i: int| 0 <= i < s.tabs.len() implies is_ascii_chars(
        #[trigger] prepared_contents(s.tabs, s.case_sensitive)[i],
    ) by {
        assert(prepared_contents(s.tabs, s.case_sensitive)[i] == s.tabs[i].content);
    }
    ascii_texts_can_always_be_searched(s);
}

/// The search compares the texts themselves when it is case sensitive, and
/// their Unicode lower-case forms (query and text alike) when it is not.
pub proof fn search_compares_lowercase_unless_case_sensitive(s: AppView, i: int)
    requires
        0 <= i < s.tabs.len(),
    ensures
        s.case_sensitive ==> prepared_contents(s.tabs, s.case_sensitive)[i] == s.tabs[i].content
            && prepared(s.search_query, s.case_sensitive) == s.search_query,
        !s.case_sensitive ==> prepared_contents(s.tabs, s.case_sensitive)[i] == lowercase(
            s.tabs[i].content,
        ) && prepared(s.search_query, s.case_sensitive) == lowercase(s.search_query),
{
}

/// Find makes the first result the current match, when there is one, and
/// changes nothing but the results and the current match.
pub proof fn find_selects_first_result(s: AppView)
    ensures
        s.after_find().search_results == s.find_results(),
        s.find_results().len() > 0 ==> s.after_find().current_match == Some(0int),
        s.find_results().len() == 0 ==> s.after_find().current_match is None,
        s.after_find().tabs == s.tabs,
        s.after_find().active_tab == s.active_tab,
        s.after_find().search_query == s.search_query,
        s.after_find().replace_query == s.replace_query,
{
}

/// With whole words asked for, every occurrence that the left-to-right scan
/// finds and that passes the whole-word test is reported.
pub proof fn whole_word_find_keeps_every_whole_word(s: AppView, i: int, k: int)
    requires
        s.whole_word,
        s.search_query.len() > 0,
        0 <= i < s.tabs.len(),
        0 <= k < raw_matches(
            prepared_contents(s.tabs, s.case_sensitive)[i],
            prepared(s.search_query, s.case_sensitive),
        ).len(),
        is_whole_word(
            prepared_contents(s.tabs, s.case_sensitive)[i],
            raw_matches(
                prepared_contents(s.tabs, s.case_sensitive)[i],
                prepared(s.search_query, s.case_sensitive),
            )[k],
            raw_matches(
                prepared_contents(s.tabs, s.case_sensitive)[i],
                prepared(s.search_query, s.case_sensitive),
            )[k] + utf8(prepared(s.search_query, s.case_sensitive)).len(),
        ),
    ensures
        s.find_results().contains(
            (
                i,
                raw_matches(
                    prepared_contents(s.tabs, s.case_sensitive)[i],
                    prepared(s.search_query, s.case_sensitive),
                )[k],
            ),
        ),
{
    let t = prepared_contents(s.tabs, s.case_sensitive)[i];
    let q = prepared(s.search_query, s.case_sensitive);
    let raw = raw_matches(t, q);
    let qlen = utf8(q).len() as int;
    lemma_kept_contains(t, qlen, raw, k);
    let kept = text_matches(t, q, true);
    let w = choose|w: int| 0 <= w < kept.len() && kept[w] == raw[k];
    lemma_matches_upto(prepared_contents(s.tabs, s.case_sensitive), q, true, s.tabs.len() as int);
    assert(kept[w] == text_matches(prepared_contents(s.tabs, s.case_sensitive)[i], q, true)[w]);
}

/// Every start that passes the whole-word test is kept by the filter.
proof fn lemma_kept_contains(t: Seq<char>, qlen: int, starts: Seq<int>, k: int)
    requires
        0 <= k < starts.len(),
        is_whole_word(t, starts[k], starts[k] + qlen),
    ensures
        keep_whole_words(t, qlen, starts).contains(starts[k]),
    decreases starts.len(),
{
    let prev = keep_whole_words(t, qlen, starts.drop_last());
    if k == starts.len() - 1 {
        assert(keep_whole_words(t, qlen, starts) == prev.push(starts[k]));
        assert(keep_whole_words(t, qlen, starts)[prev.len() as int] == starts[k]);
    } else {
        assert(starts.drop_last()[k] == starts[k]);
        lemma_kept_contains(t, qlen, starts.drop_last(), k);
        let w = choose|w: int| 0 <= w < prev.len() && prev[w] == starts[k];
        let kept = keep_whole_words(t, qlen, starts);
        assert(kept[w] == prev[w]);
    }
}

/// Replace, in every search mode, acts on the current match (t, p) when it
/// designates a result in an existing tab: that tab's bytes become the bytes
/// before p, the bytes of the replacement exactly as typed, and the bytes
/// from p plus the typed query's byte length on; the tab becomes modified and
/// nothing else changes. Without such a match, Replace changes nothing.
pub proof fn replace_puts_the_typed_replacement_at_the_current_match(s: AppView, c: int)
    requires
        s.replace_current_defined(),
        s.current_match == Some(c),
    ensures
        ({
            let m = s.search_results[c];
            let qlen = utf8(s.search_query).len() as int;
            let before = utf8(s.tabs[m.0].content);
            let after = s.after_replace_current();
            (0 <= c < s.search_results.len() && 0 <= m.0 < s.tabs.len()) ==> {
                &&& utf8(after.tabs[m.0].content) == before.subrange(0, m.1) + utf8(
                    s.replace_query,
                ) + before.subrange(m.1 + qlen, before.len() as int)
                &&& after.tabs[m.0].dirty
                &&& after.tabs[m.0].id == s.tabs[m.0].id
                &&& after.tabs[m.0].title == s.tabs[m.0].title
                &&& after.tabs[m.0].file_path == s.tabs[m.0].file_path
                &&& after.tabs.len() == s.tabs.len()
                &&& forall|j: int|
                    0 <= j < s.tabs.len() && j != m.0 ==> #[trigger] after.tabs[j] == s.tabs[j]
                &&& after == (AppView { tabs: after.tabs, ..s })
            }
        }),
        !(0 <= c < s.search_results.len() && 0 <= s.search_results[c].0 < s.tabs.len())
            ==> s.after_replace_current() == s,
{
    let m = s.search_results[c];
    if 0 <= c < s.search_results.len() && 0 <= m.0 < s.tabs.len() {
        lemma_replaced_bytes(
            s.tabs[m.0].content,
            m.1,
            m.1 + utf8(s.search_query).len(),
            s.replace_query,
        );
    }
}

/// Replace All on a single result does to the tabs what Replace does on it.
pub proof fn replace_all_of_one_result_is_replace(s: AppView)
    requires
        s.search_results.len() == 1,
        s.current_match == Some(0int),
    ensures
        s.after_replace_all().tabs == s.after_replace_current().tabs,
{
    let ms = s.search_results;
    assert(ms.drop_last() =~= seq![]);
    let once = replace_one(s.tabs, ms.last(), s.replaced_len(), s.replace_query);
    assert(crate::model::replace_each(once, ms.drop_last(), s.replaced_len(), s.replace_query)
        == once);
    assert(ms.last() == ms[0]);
}

/// Undo with an active tab and a non-empty undo history gives the active tab
/// the most recent undo entry (the last one), drops that entry, and pushes
/// the replaced content at the end of the redo history; the other tabs and
/// the clipboard stay. Redo does the same with the histories swapped.
pub proof fn undo_and_redo_take_the_most_recent_entry(s: AppView)
    requires
        s.has_active_tab(),
    ensures
        s.undo_history.len() > 0 ==> {
            let u = s.after_undo();
            let a = s.active_tab;
            &&& u.tabs.len() == s.tabs.len()
            &&& u.tabs[a].content == s.undo_history[s.undo_history.len() - 1]
            &&& u.undo_history == s.undo_history.subrange(0, s.undo_history.len() - 1)
            &&& u.redo_history.len() == s.redo_history.len() + 1
            &&& u.redo_history[s.redo_history.len() as int] == s.tabs[a].content
            &&& u.redo_history.subrange(0, s.redo_history.len() as int) == s.redo_history
            &&& u.tabs[a].dirty == s.tabs[a].dirty
            &&& forall|j: int| 0 <= j < s.tabs.len() && j != a ==> #[trigger] u.tabs[j] == s.tabs[j]
            &&& u.active_tab == a
            &&& u.clipboard == s.clipboard
        },
        s.redo_history.len() > 0 ==> {
            let r = s.after_redo();
            let a = s.active_tab;
            &&& r.tabs.len() == s.tabs.len()
            &&& r.tabs[a].content == s.redo_history[s.redo_history.len() - 1]
            &&& r.redo_history == s.redo_history.subrange(0, s.redo_history.len() - 1)
            &&& r.undo_history.len() == s.undo_history.len() + 1
            &&& r.undo_history[s.undo_history.len() as int] == s.tabs[a].content
            &&& r.undo_history.subrange(0, s.undo_history.len() as int) == s.undo_history
            &&& r.tabs[a].dirty == s.tabs[a].dirty
            &&& forall|j: int| 0 <= j < s.tabs.len() && j != a ==> #[trigger] r.tabs[j] == s.tabs[j]
            &&& r.active_tab == a
            &&& r.clipboard == s.clipboard
        },
        s.undo_history.len() == 0 ==> s.after_undo() == s,
        s.redo_history.len() == 0 ==> s.after_redo() == s,
{
}

/// Paste appends the clipboard to the active tab's content, whatever that
/// content is, and records the new content at the end of the undo history.
/// Cut moves the whole content to the clipboard and records the empty text;
/// Copy puts the whole content on the clipboard and changes no tab.
pub proof fn clipboard_operations_on_the_active_tab(s: AppView)
    requires
        s.has_active_tab(),
    ensures
        ({
            let a = s.active_tab;
            let p = s.after_paste();
            &&& p.tabs.len() == s.tabs.len()
            &&& p.tabs[a].content == s.tabs[a].content + s.clipboard
            &&& p.tabs[a].content.subrange(0, s.tabs[a].content.len() as int) == s.tabs[a].content
            &&& p.undo_history == s.undo_history.push(s.tabs[a].content + s.clipboard)
            &&& p.clipboard == s.clipboard
            &&& forall|j: int| 0 <= j < s.tabs.len() && j != a ==> #[trigger] p.tabs[j] == s.tabs[j]
        }),
        ({
            let a = s.active_tab;
            let c = s.after_cut();
            &&& c.clipboard == s.tabs[a].content
            &&& c.tabs[a].content.len() == 0
            &&& c.undo_history == s.undo_history.push(Seq::empty())
            &&& forall|j: int| 0 <= j < s.tabs.len() && j != a ==> #[trigger] c.tabs[j] == s.tabs[j]
        }),
        s.after_copy().clipboard == s.tabs[s.active_tab].content,
        s.after_copy().tabs == s.tabs,
{
    let a = s.active_tab;
    assert((s.tabs[a].content + s.clipboard).subrange(0, s.tabs[a].content.len() as int)
        =~= s.tabs[a].content);
}

/// Closing tab `i` removes exactly that tab. The active index stays where it
/// still designates a tab (it is below the new number of tabs), and otherwise
/// moves to the last tab (0 when none is left). Selecting a tab makes it the
/// active one and changes no tab.
pub proof fn closing_a_tab_keeps_the_active_index_when_it_can(s: AppView, i: int)
    requires
        0 <= i < s.tabs.len(),
        0 <= s.active_tab,
    ensures
        s.after_close_tab(i).tabs.len() == s.tabs.len() - 1,
        forall|j: int| 0 <= j < i ==> #[trigger] s.after_close_tab(i).tabs[j] == s.tabs[j],
        forall|j: int|
            i <= j < s.tabs.len() - 1 ==> #[trigger] s.after_close_tab(i).tabs[j] == s.tabs[j + 1],
        s.active_tab < s.tabs.len() - 1 ==> s.after_close_tab(i).active_tab == s.active_tab,
        s.active_tab >= s.tabs.len() - 1 && s.tabs.len() >= 2 ==> s.after_close_tab(i).active_tab
            == s.tabs.len() - 2,
        s.tabs.len() == 1 ==> s.after_close_tab(i).active_tab == 0,
        s.after_select_tab(i).active_tab == i,
        s.after_select_tab(i).tabs == s.tabs,
{
}

/// A new or opened tab is appended after the others and becomes the active
/// one; opening a file also appends its path to the recent files.
pub proof fn new_tabs_are_appended_and_active(s: AppView, t: TabView, path: Seq<char>)
    ensures
        s.with_new_tab(t).tabs == s.tabs.push(t),
        s.with_new_tab(t).active_tab == s.tabs.len(),
        s.with_opened_file(t, path).tabs == s.tabs.push(t),
        s.with_opened_file(t, path).active_tab == s.tabs.len(),
        s.with_opened_file(t, path).recent_files == s.recent_files.push(path),
{
}

/// Saving under a chosen path gives the active tab that path and makes it
/// clean, and appends the path to the recent files; marking a tab saved or
/// modified changes only its dirty flag.
pub proof fn saving_marks_tabs_clean(s: AppView, i: int, path: Seq<char>, d: bool)
    requires
        0 <= i < s.tabs.len(),
    ensures
        s.has_active_tab() ==> {
            let a = s.active_tab;
            let v = s.after_saved_as(path);
            &&& v.tabs[a].file_path == Some(path)
            &&& !v.tabs[a].dirty
            &&& v.tabs[a].content == s.tabs[a].content
            &&& v.recent_files == s.recent_files.push(path)
            &&& forall|j: int| 0 <= j < s.tabs.len() && j != a ==> #[trigger] v.tabs[j] == s.tabs[j]
        },
        s.with_tab_dirty(i, d).tabs[i].dirty == d,
        s.with_tab_dirty(i, d).tabs[i].content == s.tabs[i].content,
        s.with_tab_dirty(i, d).tabs[i].file_path == s.tabs[i].file_path,
        forall|j: int|
            0 <= j < s.tabs.len() && j != i ==> #[trigger] s.with_tab_dirty(i, d).tabs[j] == s.tabs[j],
{
}

/// The highlighted ranges are the results in the active tab, in order, each
/// as wide as the typed query's bytes.
pub proof fn highlights_are_results_in_active_tab(s: AppView)
    requires
        s.has_active_tab(),
    ensures
        forall|k: int|
            0 <= k < s.highlights().len() ==> s.search_results.contains(
                (s.active_tab, (#[trigger] s.highlights()[k]).0),
            ) && s.highlights()[k].1 == s.highlights()[k].0 + s.replaced_len(),
{
    lemma_ranges_in_tab(s.search_results, s.active_tab, s.replaced_len());
}

proof fn lemma_ranges_in_tab(ms: Seq<(int, int)>, active: int, qlen: int)
    ensures
        forall|k: int|
            0 <= k < ranges_in_tab(ms, active, qlen).len() ==> ms.contains(
                (active, (#[trigger] ranges_in_tab(ms, active, qlen)[k]).0),
            ) && ranges_in_tab(ms, active, qlen)[k].1 == ranges_in_tab(ms, active, qlen)[k].0
                + qlen,
    decreases ms.len(),
{
    if ms.len() > 0 {
        let init = ms.drop_last();
        lemma_ranges_in_tab(init, active, qlen);
        let prev = ranges_in_tab(init, active, qlen);
        let all = ranges_in_tab(ms, active, qlen);
        assert forall|k: int| 0 <= k < all.len() implies ms.contains(
            (active, (#[trigger] all[k]).0),
        ) && all[k].1 == all[k].0 + qlen by {
            if k < prev.len() {
                assert(all[k] == prev[k]);
                let w = choose|w: int| 0 <= w < init.len() && init[w] == (active, prev[k].0);
                assert(ms[w] == init[w]);
            } else {
                assert(ms[ms.len() - 1] == ms.last());
            }
        }
    }
}

/// Next moves the current match `c` to `c + 1`, or back to the first result
/// after the last; Previous moves it to `c - 1`, or to the last result before
/// the first. Either way the tab of the new current match becomes active.
pub proof fn next_and_previous_step_by_one(s: AppView)
    requires
        s.search_results.len() > 0,
        s.current_match matches Some(c) && 0 <= c < s.search_results.len(),
    ensures
        ({
            let n = s.search_results.len() as int;
            let c = s.current_match->0;
            let next = if c + 1 < n {
                c + 1
            } else {
                0
            };
            let prev = if c == 0 {
                n - 1
            } else {
                c - 1
            };
            &&& s.after_next().current_match == Some(next)
            &&& s.after_next().active_tab == s.search_results[next].0
            &&& s.after_previous().current_match == Some(prev)
            &&& s.after_previous().active_tab == s.search_results[prev].0
            &&& s.after_next().tabs == s.tabs
            &&& s.after_previous().tabs == s.tabs
            &&& s.after_next().search_results == s.search_results
            &&& s.after_previous().search_results == s.search_results
        }),
{
    let n = s.search_results.len() as int;
    let c = s.current_match->0;
    if c + 1 < n {
        assert((c + 1) % n == c + 1) by (nonlinear_arith)
            requires
                0 <= c + 1 < n,
        ;
    } else {
        assert((c + 1) % n == 0) by (nonlinear_arith)
            requires
                c + 1 == n,
                n > 0,
        ;
    }
    if c == 0 {
        assert((c + n - 1) % n == n - 1) by (nonlinear_arith)
            requires
                c == 0,
                n > 0,
        ;
    } else {
        assert((c + n - 1) % n == c - 1) by (nonlinear_arith)
            requires
                0 < c < n,
        ;
    }
}

/// Without results or without a current match, Next and Previous change nothing.
pub proof fn stepping_without_a_match_changes_nothing(s: AppView)
    requires
        s.search_results.len() == 0 || s.current_match is None,
    ensures
        s.after_next() == s,
        s.after_previous() == s,
{
}

/// Edit > Find opens the find window without its replace row, Edit > Replace
/// opens it with the row, and closing it hides both; the two menu entries need
/// an active tab and do nothing without one. None of them changes a tab.
pub proof fn find_window_visibility(s: AppView)
    ensures
        s.has_active_tab() ==> s.after_open_find().show_search && !s.after_open_find().show_replace,
        s.has_active_tab() ==> s.after_open_replace().show_search
            && s.after_open_replace().show_replace,
        !s.has_active_tab() ==> s.after_open_find() == s && s.after_open_replace() == s,
        !s.after_close_search().show_search && !s.after_close_search().show_replace,
        s.after_open_find().tabs == s.tabs,
        s.after_open_replace().tabs == s.tabs,
        s.after_close_search().tabs == s.tabs,
        s.after_close_search().search_results == s.search_results,
{
}

/// The start-up state holds the given tabs with the first one active, and
/// nothing else: no clipboard, histories, recent files, query, results,
/// current match, open find window, or search options.
pub proof fn start_up_state_is_empty(tabs: Seq<TabView>)
    ensures
        AppView::initial(tabs).tabs == tabs,
        AppView::initial(tabs).active_tab == 0,
        AppView::initial(tabs).clipboard.len() == 0,
        AppView::initial(tabs).undo_history.len() == 0,
        AppView::initial(tabs).redo_history.len() == 0,
        AppView::initial(tabs).recent_files.len() == 0,
        AppView::initial(tabs).search_query.len() == 0,
        AppView::initial(tabs).replace_query.len() == 0,
        AppView::initial(tabs).search_results.len() == 0,
        AppView::initial(tabs).current_match is None,
        !AppView::initial(tabs).show_search && !AppView::initial(tabs).show_replace,
        !AppView::initial(tabs).case_sensitive && !AppView::initial(tabs).whole_word,
{
}

/// A new tab is empty, clean and has no path; a tab for a document read from
/// a path holds that document, is clean, and keeps the path.
pub proof fn new_and_loaded_tabs(id: u128, title: Seq<char>, content: Seq<char>, path: Seq<char>)
    ensures
        fresh_tab(id, title).id == id,
        fresh_tab(id, title).title == title,
        fresh_tab(id, title).content.len() == 0,
        !fresh_tab(id, title).dirty,
        fresh_tab(id, title).file_path is None,
        loaded_tab(id, title, content, path).id == id,
        loaded_tab(id, title, content, path).title == title,
        loaded_tab(id, title, content, path).content == content,
        !loaded_tab(id, title, content, path).dirty,
        loaded_tab(id, title, content, path).file_path == Some(path),
        new_tab_title() == "New cloistered file"@,
{
}

/// The whole-word test holds exactly when the character before the match (by
/// character index `start - 1`, unless the match starts the text) and the
/// character at index `end` (unless the match ends the text's bytes) are not
/// alphanumeric.
pub proof fn whole_word_test_reads_both_neighbours(t: Seq<char>, start: int, end: int)
    ensures
        is_whole_word(t, start, end) <==> ((start == 0 || !alphanumeric(t[start - 1])) && (end
            == byte_len(t) || !alphanumeric(t[end]))),
{
}

/// With whole words asked for, what Find reports in a tab is among the
/// occurrences that the left-to-right scan of that tab finds.
pub proof fn whole_word_find_reports_scan_matches(s: AppView, k: int)
    requires
        s.whole_word,
        0 <= k < s.find_results().len(),
    ensures
        raw_matches(
            prepared_contents(s.tabs, s.case_sensitive)[s.find_results()[k].0],
            prepared(s.search_query, s.case_sensitive),
        ).contains(s.find_results()[k].1),
{
    let texts = prepared_contents(s.tabs, s.case_sensitive);
    let q = prepared(s.search_query, s.case_sensitive);
    lemma_matches_upto_from_texts(texts, q, true, texts.len() as int, k);
    let m = s.find_results()[k];
    let raw = raw_matches(texts[m.0], q);
    let qq = utf8(q);
    if qq.len() > 0 {
        lemma_occurrences_ordered(utf8(texts[m.0]), qq, 0);
    }
    lemma_keep_whole_words_from(texts[m.0], qq.len() as int, raw);
}

/// Every match over the first `n` texts is a match of its own text.
proof fn lemma_matches_upto_from_texts(
    texts: Seq<Seq<char>>,
    q: Seq<char>,
    whole_word: bool,
    n: int,
    k: int,
)
    requires
        0 <= n <= texts.len(),
        0 <= k < matches_upto(texts, q, whole_word, n).len(),
    ensures
        0 <= matches_upto(texts, q, whole_word, n)[k].0 < n,
        text_matches(texts[matches_upto(texts, q, whole_word, n)[k].0], q, whole_word).contains(
            matches_upto(texts, q, whole_word, n)[k].1,
        ),
    decreases n,
{
    let prev = matches_upto(texts, q, whole_word, n - 1);
    let tm = text_matches(texts[n - 1], q, whole_word);
    let all = matches_upto(texts, q, whole_word, n);
    assert(all == prev + tm.map_values(|s: int| (n - 1, s)));
    if k < prev.len() {
        assert(all[k] == prev[k]);
        lemma_matches_upto_from_texts(texts, q, whole_word, n - 1, k);
    } else {
        assert(all[k] == (n - 1, tm[k - prev.len()]));
    }
}

/// Every start that the whole-word filter keeps is one of the starts given.
proof fn lemma_keep_whole_words_from(t: Seq<char>, qlen: int, starts: Seq<int>)
    ensures
        forall|k: int|
            0 <= k < keep_whole_words(t, qlen, starts).len() ==> starts.contains(
                #[trigger] keep_whole_words(t, qlen, starts)[k],
            ),
    decreases starts.len(),
{
    if starts.len() > 0 {
        let init = starts.drop_last();
        lemma_keep_whole_words_from(t, qlen, init);
        let prev = keep_whole_words(t, qlen, init);
        let kept = keep_whole_words(t, qlen, starts);
        assert forall|k: int| 0 <= k < kept.len() implies starts.contains(#[trigger] kept[k]) by {
            if k < prev.len() {
                assert(kept[k] == prev[k]);
                let w = choose|w: int| 0 <= w < init.len() && init[w] == prev[k];
                assert(starts[w] == init[w]);
            } else {
                assert(starts[starts.len() - 1] == kept[k]);
            }
        }
    }
}

/// The bytes `b` with every `qlen`-byte range starting at a position of `ps`
/// replaced by `r`: the bytes up to the last position (with the earlier
/// ranges replaced), then `r`, then the bytes after that range.
pub open spec fn spliced(b: Seq<u8>, ps: Seq<int>, qlen: int, r: Seq<u8>) -> Seq<u8>
    decreases ps.len(),
{
    if ps.len() == 0 {
        b
    } else {
        spliced(b.subrange(0, ps.last()), ps.drop_last(), qlen, r) + r + b.subrange(
            ps.last() + qlen,
            b.len() as int,
        )
    }
}

/// Splicing ranges that all end by `x` only touches the bytes before `x`.
proof fn lemma_spliced_prefix(b: Seq<u8>, ps: Seq<int>, qlen: int, r: Seq<u8>, x: int)
    requires
        0 <= x <= b.len(),
        qlen >= 0,
        forall|k: int| 0 <= k < ps.len() ==> 0 <= #[trigger] ps[k] && ps[k] + qlen <= x,
    ensures
        spliced(b, ps, qlen, r) == spliced(b.subrange(0, x), ps, qlen, r) + b.subrange(
            x,
            b.len() as int,
        ),
    decreases ps.len(),
{
    if ps.len() == 0 {
        assert(b =~= b.subrange(0, x) + b.subrange(x, b.len() as int));
    } else {
        let p = ps.last();
        assert(ps[ps.len() - 1] == p);
        let bx = b.subrange(0, x);
        assert(bx.subrange(0, p) =~= b.subrange(0, p));
        assert(b.subrange(p + qlen, b.len() as int) =~= bx.subrange(p + qlen, bx.len() as int)
            + b.subrange(x, b.len() as int));
    }
}

/// Replace All over results that are all in one tab `i`, each an occurrence
/// of a non-empty query there, in order and without overlapping: tab `i`'s
/// bytes become its bytes with every result's range replaced by the
/// replacement's bytes; the other tabs stay as they are.
pub proof fn replace_each_splices_every_match(
    tabs: Seq<TabView>,
    ms: Seq<(int, int)>,
    q: Seq<char>,
    r: Seq<char>,
    i: int,
)
    requires
        q.len() > 0,
        0 <= i < tabs.len(),
        forall|k: int|
            0 <= k < ms.len() ==> (#[trigger] ms[k]).0 == i && occurs_at(
                utf8(tabs[i].content),
                utf8(q),
                ms[k].1,
            ),
        forall|k: int, l: int|
            0 <= k < l < ms.len() ==> (#[trigger] ms[k]).1 + utf8(q).len() <= (#[trigger] ms[l]).1,
    ensures
        ({
            let after = replace_each(tabs, ms, utf8(q).len() as int, r);
            &&& after.len() == tabs.len()
            &&& utf8(after[i].content) == spliced(
                utf8(tabs[i].content),
                ms.map_values(|m: (int, int)| m.1),
                utf8(q).len() as int,
                utf8(r),
            )
            &&& forall|j: int| 0 <= j < tabs.len() && j != i ==> #[trigger] after[j] == tabs[j]
        }),
    decreases ms.len(),
{
    let qlen = utf8(q).len() as int;
    let ps = ms.map_values(|m: (int, int)| m.1);
    lemma_replace_each_keeps_len(tabs, ms, qlen, r);
    if ms.len() == 0 {
        assert(ps =~= seq![]);
    } else {
        let m = ms.last();
        let b = utf8(tabs[i].content);
        lemma_occurrence_replaceable(tabs[i].content, q, m.1);
        lemma_replaced_bytes(tabs[i].content, m.1, m.1 + qlen, r);
        let nt = replace_one(tabs, m, qlen, r);
        let init = ms.drop_last();
        let nb = utf8(nt[i].content);
        assert(nb == b.subrange(0, m.1) + utf8(r) + b.subrange(m.1 + qlen, b.len() as int));
        assert forall|k: int| 0 <= k < init.len() implies (#[trigger] init[k]).0 == i && occurs_at(
            nb,
            utf8(q),
            init[k].1,
        ) by {
            assert(init[k] == ms[k]);
            assert(ms[k].1 + qlen <= ms[ms.len() - 1].1);
            let p = init[k].1;
            assert(nb.subrange(p, p + qlen) =~= b.subrange(p, p + qlen));
        }
        assert forall|k: int, l: int| 0 <= k < l < init.len() implies (#[trigger] init[k]).1 + qlen
            <= (#[trigger] init[l]).1 by {
            assert(init[k] == ms[k] && init[l] == ms[l]);
        }
        replace_each_splices_every_match(nt, init, q, r, i);
        let ips = init.map_values(|m: (int, int)| m.1);
        assert(ips =~= ps.drop_last());
        assert(ps.last() == m.1);
        lemma_occurrences_ordered_positions(ms, qlen, i, b, q);
        assert forall|k: int| 0 <= k < ips.len() implies 0 <= #[trigger] ips[k] && ips[k] + qlen
            <= m.1 by {
            assert(ips[k] == ms[k].1);
            assert(ms[k].1 + qlen <= ms[ms.len() - 1].1);
        }
        lemma_spliced_prefix(nb, ips, qlen, utf8(r), m.1);
        assert(nb.subrange(0, m.1) =~= b.subrange(0, m.1));
        assert(nb.subrange(m.1, nb.len() as int) =~= utf8(r) + b.subrange(
            m.1 + qlen,
            b.len() as int,
        ));
        assert forall|j: int| 0 <= j < tabs.len() && j != i implies #[trigger] replace_each(
            tabs,
            ms,
            qlen,
            r,
        )[j] == tabs[j] by {
            assert(nt[j] == tabs[j]);
        }
    }
}

/// The positions of occurring results are within the text.
proof fn lemma_occurrences_ordered_positions(
    ms: Seq<(int, int)>,
    qlen: int,
    i: int,
    b: Seq<u8>,
    q: Seq<char>,
)
    requires
        qlen == utf8(q).len(),
        forall|k: int| 0 <= k < ms.len() ==> occurs_at(b, utf8(q), (#[trigger] ms[k]).1),
    ensures
        forall|k: int| 0 <= k < ms.len() ==> 0 <= (#[trigger] ms[k]).1 && ms[k].1 + qlen <= b.len(),
{
}

/// Replace All after a case-sensitive Find whose matches all lie in tab `i`:
/// tab `i`'s bytes become its bytes with every match replaced by the
/// replacement's bytes, and no other tab changes.
pub proof fn replace_all_after_find_splices_every_match(s: AppView, i: int)
    requires
        s.case_sensitive,
        0 <= i < s.tabs.len(),
        forall|k: int| 0 <= k < s.find_results().len() ==> (#[trigger] s.find_results()[k]).0 == i,
    ensures
        ({
            let f = s.after_find();
            let after = f.after_replace_all();
            &&& after.tabs.len() == s.tabs.len()
            &&& utf8(after.tabs[i].content) == spliced(
                utf8(s.tabs[i].content),
                f.search_results.map_values(|m: (int, int)| m.1),
                utf8(s.search_query).len() as int,
                utf8(s.replace_query),
            )
            &&& forall|j: int| 0 <= j < s.tabs.len() && j != i ==> #[trigger] after.tabs[j] == s.tabs[j]
        }),
{
    let f = s.after_find();
    if s.search_query.len() == 0 {
        assert(f.search_results.len() == 0);
        assert(f.search_results.map_values(|m: (int, int)| m.1) =~= seq![]);
        lemma_replace_each_keeps_len(s.tabs, f.search_results, f.replaced_len(), s.replace_query);
    } else {
        found_matches_are_occurrences(s);
        assert forall|k: int| 0 <= k < f.search_results.len() implies (#[trigger] f.search_results[
            k
        ]).0 == i && occurs_at(utf8(s.tabs[i].content), utf8(s.search_query), f.search_results[k].1) by {
            assert(f.search_results[k] == s.find_results()[k]);
        }
        assert forall|k: int, l: int| 0 <= k < l < f.search_results.len() implies (
        #[trigger] f.search_results[k]).1 + utf8(s.search_query).len() <= (
        #[trigger] f.search_results[l]).1 by {
            assert(f.search_results[k] == s.find_results()[k]);
            assert(f.search_results[l] == s.find_results()[l]);
        }
        replace_each_splices_every_match(s.tabs, f.search_results, s.search_query, s.replace_query, i);
    }
}

} // verus!
