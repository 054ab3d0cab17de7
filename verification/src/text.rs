//! Text operations of the editor: substring search over the UTF-8 bytes of a
//! document, the whole-word test, and replacement of a byte range.
//!
//! Positions are byte offsets into the UTF-8 encoding, as `str::find` and
//! `String::replace_range` use them.
use vstd::prelude::*;
use vstd::string::*;
use vstd::utf8::*;

verus! {

broadcast use vstd::utf8::group_utf8_lib;

/// Whether `char::is_alphanumeric` holds of `c` (Unicode `Alphabetic` or `Numeric`).
pub uninterp spec fn alphanumeric(c: char) -> bool;

/// The Unicode lower-case mapping of a string, as `str::to_lowercase` computes it.
pub uninterp spec fn lowercase(s: Seq<char>) -> Seq<char>;

/// An ASCII letter or digit.
pub open spec fn ascii_alphanumeric(c: char) -> bool {
    ('a' <= c && c <= 'z') || ('A' <= c && c <= 'Z') || ('0' <= c && c <= '9')
}

/// `char::is_alphanumeric`.
///
/// Trusted: the result is the named property `alphanumeric(c)`; on ASCII
/// characters it holds exactly of letters and digits.
#[verifier::external_body]
pub(crate) fn is_alphanumeric(c: char) -> (r: bool)
    ensures
        r == alphanumeric(c),
        (c as u32) < 128 ==> (r <==> ascii_alphanumeric(c)),
{
    c.is_alphanumeric()
}

/// `str::to_lowercase`.
///
/// Trusted: the result is the named mapping `lowercase` of the argument; what
/// that mapping does to each character (Unicode tables, the final-sigma rule)
/// is left unsaid.
#[verifier::external_body]
pub(crate) fn to_lowercase(s: &str) -> (r: String)
    ensures
        r@ == lowercase(s@),
{
    s.to_lowercase()
}

/// The UTF-8 bytes of a character sequence.
pub open spec fn utf8(s: Seq<char>) -> Seq<u8> {
    encode_utf8(s)
}

/// `q` occurs in `t` starting at byte `i`.
pub open spec fn occurs_at(t: Seq<u8>, q: Seq<u8>, i: int) -> bool {
    0 <= i && i + q.len() <= t.len() && t.subrange(i, i + q.len()) == q
}

/// The first byte index at or after `pos` at which `q` occurs in `t`.
pub open spec fn next_occurrence(t: Seq<u8>, q: Seq<u8>, pos: int) -> Option<int>
    decreases t.len() + 1 - pos,
{
    if pos < 0 || pos + q.len() > t.len() {
        None
    } else if occurs_at(t, q, pos) {
        Some(pos)
    } else {
        next_occurrence(t, q, pos + 1)
    }
}

/// What `next_occurrence` is: the least index at or after `pos` where `q` occurs.
pub proof fn lemma_next_occurrence(t: Seq<u8>, q: Seq<u8>, pos: int)
    requires
        0 <= pos,
    ensures
        match next_occurrence(t, q, pos) {
            Some(i) => pos <= i && occurs_at(t, q, i) && forall|j: int|
                pos <= j < i ==> !#[trigger] occurs_at(t, q, j),
            None => forall|j: int| pos <= j ==> !#[trigger] occurs_at(t, q, j),
        },
    decreases t.len() + 1 - pos,
{
    if pos + q.len() > t.len() {
    } else if occurs_at(t, q, pos) {
    } else {
        lemma_next_occurrence(t, q, pos + 1);
    }
}

/// The occurrences of `q` in `t` that a left-to-right scan from `pos` finds,
/// each scan resuming right after the previous occurrence (so they do not
/// overlap). An empty `q` has none.
pub open spec fn occurrences_from(t: Seq<u8>, q: Seq<u8>, pos: int) -> Seq<int>
    decreases t.len() - pos,
{
    if q.len() == 0 || pos < 0 {
        seq![]
    } else {
        match next_occurrence(t, q, pos) {
            None => seq![],
            Some(i) => {
                proof {
                    lemma_next_occurrence(t, q, pos);
                }
                seq![i] + occurrences_from(t, q, i + q.len())
            },
        }
    }
}

/// The number of UTF-8 bytes of a character sequence.
pub open spec fn byte_len(t: Seq<char>) -> int {
    utf8(t).len() as int
}

/// The left half of the editor's whole-word test for a match at byte `start`.
/// The neighbour is read by *character* index `start - 1`, as the editor does.
pub open spec fn left_edge_ok(t: Seq<char>, start: int) -> bool {
    start == 0 || !alphanumeric(t[start - 1])
}

/// The editor's whole-word test for a match of bytes `start..end` in `t`: the
/// characters at character indices `start - 1` and `end` (where they are read)
/// are not alphanumeric.
pub open spec fn is_whole_word(t: Seq<char>, start: int, end: int) -> bool {
    left_edge_ok(t, start) && (end == byte_len(t) || !alphanumeric(t[end]))
}

/// The whole-word test reads only characters that exist: it reads index
/// `start - 1` unless `start == 0`, and then, only if the left edge passed,
/// index `end` unless `end` is the byte length.
pub open spec fn word_test_defined(t: Seq<char>, start: int, end: int) -> bool {
    &&& (start == 0 || start - 1 < t.len())
    &&& (left_edge_ok(t, start) ==> (end == byte_len(t) || end < t.len()))
}

/// The starts among `starts` that pass the whole-word test for a match of
/// `qlen` bytes, in order.
pub open spec fn keep_whole_words(t: Seq<char>, qlen: int, starts: Seq<int>) -> Seq<int>
    decreases starts.len(),
{
    if starts.len() == 0 {
        seq![]
    } else {
        let prev = keep_whole_words(t, qlen, starts.drop_last());
        let s = starts.last();
        if is_whole_word(t, s, s + qlen) {
            prev.push(s)
        } else {
            prev
        }
    }
}

/// The raw (non-overlapping, left to right) occurrences of `q` in `t`, as byte offsets.
pub open spec fn raw_matches(t: Seq<char>, q: Seq<char>) -> Seq<int> {
    occurrences_from(utf8(t), utf8(q), 0)
}

/// The starts among `starts` that the editor keeps: all of them, or with
/// `whole_word` those that pass the whole-word test.
pub open spec fn kept_matches(t: Seq<char>, qlen: int, starts: Seq<int>, whole_word: bool) -> Seq<
    int,
> {
    if whole_word {
        keep_whole_words(t, qlen, starts)
    } else {
        starts
    }
}

/// The matches that the editor reports for query `q` in text `t`.
pub open spec fn text_matches(t: Seq<char>, q: Seq<char>, whole_word: bool) -> Seq<int> {
    kept_matches(t, utf8(q).len() as int, raw_matches(t, q), whole_word)
}

/// The whole-word test can be run on every raw match of `q` in `t` without
/// reading past the end of `t`.
pub open spec fn word_tests_defined(t: Seq<char>, q: Seq<char>) -> bool {
    forall|k: int|
        0 <= k < raw_matches(t, q).len() ==> word_test_defined(
            t,
            #[trigger] raw_matches(t, q)[k],
            raw_matches(t, q)[k] + utf8(q).len(),
        )
}

/// Every element of `occurrences_from(t, q, pos)` is an occurrence at or after `pos`.
pub proof fn lemma_occurrences_occur(t: Seq<u8>, q: Seq<u8>, pos: int)
    requires
        0 <= pos,
    ensures
        forall|k: int|
            0 <= k < occurrences_from(t, q, pos).len() ==> pos <= #[trigger] occurrences_from(
                t,
                q,
                pos,
            )[k] && occurs_at(t, q, occurrences_from(t, q, pos)[k]),
    decreases t.len() - pos,
{
    if q.len() > 0 {
        lemma_next_occurrence(t, q, pos);
        match next_occurrence(t, q, pos) {
            None => {},
            Some(i) => {
                lemma_occurrences_occur(t, q, i + q.len());
                let rest = occurrences_from(t, q, i + q.len());
                assert(occurrences_from(t, q, pos) == seq![i] + rest);
                assert forall|k: int| 0 <= k < occurrences_from(t, q, pos).len() implies pos
                    <= #[trigger] occurrences_from(t, q, pos)[k] && occurs_at(
                    t,
                    q,
                    occurrences_from(t, q, pos)[k],
                ) by {
                    if k > 0 {
                        assert(occurrences_from(t, q, pos)[k] == rest[k - 1]);
                    }
                }
            },
        }
    }
}

/// The occurrences that the scan from `pos` finds come in order, each at
/// least `q.len()` bytes after the one before, and the scan misses no
/// occurrence that starts where it was looking: none starts at or after `pos`
/// before the first, none between the end of one and the start of the next,
/// and none at or after the end of the last.
pub proof fn lemma_occurrences_ordered(t: Seq<u8>, q: Seq<u8>, pos: int)
    requires
        0 <= pos,
        q.len() > 0,
    ensures
        ({
            let occ = occurrences_from(t, q, pos);
            &&& forall|k: int, l: int|
                0 <= k < l < occ.len() ==> #[trigger] occ[k] + q.len() <= #[trigger] occ[l]
            &&& occ.len() == 0 ==> forall|j: int| pos <= j ==> !#[trigger] occurs_at(t, q, j)
            &&& occ.len() > 0 ==> forall|j: int| pos <= j < occ[0] ==> !#[trigger] occurs_at(t, q, j)
            &&& forall|k: int, j: int|
                #![trigger occurs_at(t, q, j), occ[k]]
                0 <= k < occ.len() - 1 && occ[k] + q.len() <= j < occ[k + 1] ==> !occurs_at(t, q, j)
            &&& occ.len() > 0 ==> forall|j: int|
                occ.last() + q.len() <= j ==> !#[trigger] occurs_at(t, q, j)
        }),
    decreases t.len() - pos,
{
    lemma_next_occurrence(t, q, pos);
    lemma_occurrences_occur(t, q, pos);
    match next_occurrence(t, q, pos) {
        None => {},
        Some(i) => {
            let next = i + q.len();
            lemma_occurrences_ordered(t, q, next);
            lemma_occurrences_occur(t, q, next);
            let rest = occurrences_from(t, q, next);
            let occ = occurrences_from(t, q, pos);
            assert(occ == seq![i] + rest);
            assert forall|k: int, l: int| 0 <= k < l < occ.len() implies #[trigger] occ[k] + q.len()
                <= #[trigger] occ[l] by {
                if k == 0 {
                    assert(occ[l] == rest[l - 1]);
                } else {
                    assert(occ[k] == rest[k - 1]);
                    assert(occ[l] == rest[l - 1]);
                }
            }
            assert forall|k: int, j: int|
                #![trigger occurs_at(t, q, j), occ[k]]
                0 <= k < occ.len() - 1 && occ[k] + q.len() <= j < occ[k + 1] implies !occurs_at(
                t,
                q,
                j,
            ) by {
                if k == 0 {
                    if rest.len() > 0 {
                        assert(occ[1] == rest[0]);
                    }
                } else {
                    assert(occ[k] == rest[k - 1]);
                    assert(occ[k + 1] == rest[k]);
                }
            }
            if rest.len() > 0 {
                assert(occ.last() == rest.last());
            }
        },
    }
}

/// The starts that the whole-word filter keeps are starts it was given, each
/// passing the whole-word test, and they keep the order and spacing of the
/// starts given.
pub proof fn lemma_keep_whole_words(t: Seq<char>, qlen: int, starts: Seq<int>)
    requires
        forall|k: int, l: int| 0 <= k < l < starts.len() ==> #[trigger] starts[k] + qlen <= #[trigger] starts[l],
    ensures
        forall|k: int|
            0 <= k < keep_whole_words(t, qlen, starts).len() ==> starts.contains(
                #[trigger] keep_whole_words(t, qlen, starts)[k],
            ) && is_whole_word(
                t,
                keep_whole_words(t, qlen, starts)[k],
                keep_whole_words(t, qlen, starts)[k] + qlen,
            ),
        forall|k: int, l: int|
            0 <= k < l < keep_whole_words(t, qlen, starts).len() ==> #[trigger] keep_whole_words(
                t,
                qlen,
                starts,
            )[k] + qlen <= #[trigger] keep_whole_words(t, qlen, starts)[l],
    decreases starts.len(),
{
    if starts.len() > 0 {
        let init = starts.drop_last();
        lemma_keep_whole_words(t, qlen, init);
        let prev = keep_whole_words(t, qlen, init);
        let kept = keep_whole_words(t, qlen, starts);
        assert forall|k: int| 0 <= k < prev.len() implies starts.contains(#[trigger] prev[k])
            && prev[k] + qlen <= starts.last() by {
            let w = choose|w: int| 0 <= w < init.len() && init[w] == prev[k];
            assert(starts[w] == prev[k]);
            assert(starts[w] + qlen <= starts[starts.len() - 1]);
        }
        assert forall|k: int|
            0 <= k < kept.len() implies starts.contains(#[trigger] kept[k]) && is_whole_word(
            t,
            kept[k],
            kept[k] + qlen,
        ) by {
            if k < prev.len() {
                assert(kept[k] == prev[k]);
            } else {
                assert(starts[starts.len() - 1] == kept[k]);
            }
        }
        assert forall|k: int, l: int| 0 <= k < l < kept.len() implies #[trigger] kept[k] + qlen
            <= #[trigger] kept[l] by {
            assert(kept[k] == prev[k]);
            if l < prev.len() {
                assert(kept[l] == prev[l]);
            }
        }
    }
}

/// What the editor reports for a text: every match is an occurrence of the
/// query (that passes the whole-word test, with `whole_word`), and the
/// matches come in order without overlapping.
pub proof fn lemma_text_matches(t: Seq<char>, q: Seq<char>, whole_word: bool)
    ensures
        forall|k: int|
            0 <= k < text_matches(t, q, whole_word).len() ==> occurs_at(
                utf8(t),
                utf8(q),
                #[trigger] text_matches(t, q, whole_word)[k],
            ) && (whole_word ==> is_whole_word(
                t,
                text_matches(t, q, whole_word)[k],
                text_matches(t, q, whole_word)[k] + utf8(q).len(),
            )),
        forall|k: int, l: int|
            0 <= k < l < text_matches(t, q, whole_word).len() ==> #[trigger] text_matches(
                t,
                q,
                whole_word,
            )[k] + utf8(q).len() <= #[trigger] text_matches(t, q, whole_word)[l],
{
    let tt = utf8(t);
    let qq = utf8(q);
    if qq.len() == 0 {
        assert(raw_matches(t, q) =~= seq![]);
        if whole_word {
            assert(keep_whole_words(t, 0, seq![]) =~= seq![]);
        }
    } else {
        lemma_occurrences_occur(tt, qq, 0);
        lemma_occurrences_ordered(tt, qq, 0);
        let raw = raw_matches(t, q);
        if whole_word {
            lemma_keep_whole_words(t, qq.len() as int, raw);
            let kept = text_matches(t, q, whole_word);
            assert forall|k: int| 0 <= k < kept.len() implies occurs_at(
                tt,
                qq,
                #[trigger] kept[k],
            ) by {
                assert(raw.contains(kept[k]));
                let w = choose|w: int| 0 <= w < raw.len() && raw[w] == kept[k];
                assert(occurs_at(tt, qq, raw[w]));
            }
        }
    }
}

/// An occurrence at or after `pos` is one that the scan from `pos` finds, or
/// overlaps one that it finds.
pub proof fn lemma_occurrence_covered(t: Seq<u8>, q: Seq<u8>, pos: int, j: int)
    requires
        0 <= pos <= j,
        q.len() > 0,
        occurs_at(t, q, j),
    ensures
        exists|k: int|
            0 <= k < occurrences_from(t, q, pos).len() && #[trigger] occurrences_from(t, q, pos)[k]
                <= j < occurrences_from(t, q, pos)[k] + q.len(),
    decreases j - pos,
{
    lemma_next_occurrence(t, q, pos);
    let i = next_occurrence(t, q, pos)->0;
    let occ = occurrences_from(t, q, pos);
    let rest = occurrences_from(t, q, i + q.len());
    assert(occ == seq![i] + rest);
    if j < i + q.len() {
        assert(occ[0] <= j < occ[0] + q.len());
    } else {
        lemma_occurrence_covered(t, q, i + q.len(), j);
        let k = choose|k: int| 0 <= k < rest.len() && #[trigger] rest[k] <= j < rest[k] + q.len();
        assert(occ[k + 1] == rest[k]);
    }
}

/// Whether `q` occurs in `t` at byte `i`.
fn bytes_occur_at(t: &[u8], q: &[u8], i: usize) -> (r: bool)
    requires
        i + q@.len() <= t@.len(),
    ensures
        r == occurs_at(t@, q@, i as int),
{
    let qlen = q.len();
    let tlen = t.len();
    let mut j: usize = 0;
    while j < qlen
        invariant
            qlen == q@.len(),
            tlen == t@.len(),
            i + qlen <= t@.len(),
            j <= qlen,
            forall|k: int| 0 <= k < j ==> t@[i + k] == q@[k],
        decreases qlen - j,
    {
        if t[i + j] != q[j] {
            assert(t@.subrange(i as int, i + qlen)[j as int] != q@[j as int]);
            return false;
        }
        j = j + 1;
    }
    assert(t@.subrange(i as int, i + qlen) =~= q@);
    true
}

/// The first byte index at or after `pos` where `q` occurs in `t`.
pub fn find_from(t: &[u8], q: &[u8], pos: usize) -> (r: Option<usize>)
    ensures
        match r {
            Some(i) => next_occurrence(t@, q@, pos as int) == Some(i as int),
            None => next_occurrence(t@, q@, pos as int) is None,
        },
{
    let tlen = t.len();
    let qlen = q.len();
    if qlen > tlen || pos > tlen - qlen {
        return None;
    }
    if qlen == 0 {
        assert(t@.subrange(pos as int, pos as int) =~= q@);
        return Some(pos);
    }
    let last = tlen - qlen;
    let mut i = pos;
    while i <= last
        invariant
            tlen == t@.len(),
            qlen == q@.len(),
            qlen > 0,
            last + qlen == tlen,
            pos <= i <= last + 1,
            next_occurrence(t@, q@, pos as int) == next_occurrence(t@, q@, i as int),
        decreases last + 1 - i,
    {
        if bytes_occur_at(t, q, i) {
            return Some(i);
        }
        i = i + 1;
    }
    None
}

/// The occurrences the editor reports for `query` in `content`, as byte offsets
/// into `content`: the leftmost non-overlapping occurrences, and, with
/// `whole_word`, only those whose neighbours (read by character index at the
/// byte offsets) are not alphanumeric.
pub fn find_matches(content: &str, query: &str, whole_word: bool) -> (r: Vec<usize>)
    requires
        whole_word ==> word_tests_defined(content@, query@),
    ensures
        r@.len() == text_matches(content@, query@, whole_word).len(),
        forall|k: int|
            0 <= k < r@.len() ==> r@[k] as int == #[trigger] text_matches(
                content@,
                query@,
                whole_word,
            )[k],
{
    let t = content.as_bytes();
    let q = query.as_bytes();
    let ghost tt = utf8(content@);
    let ghost qq = utf8(query@);
    let ghost raw = raw_matches(content@, query@);
    let mut result: Vec<usize> = Vec::new();
    let qlen = q.len();
    if qlen == 0 {
        assert(raw =~= seq![]);
        return result;
    }
    let tlen = t.len();
    let nchars = if whole_word { content.unicode_len() } else { 0 };
    let mut pos: usize = 0;
    let ghost mut found: Seq<int> = seq![];
    assert(found + occurrences_from(tt, qq, 0) =~= raw);
    loop
        invariant
            t@ == tt,
            q@ == qq,
            tt == utf8(content@),
            qq == utf8(query@),
            raw == raw_matches(content@, query@),
            qlen == qq.len(),
            qlen > 0,
            tlen == tt.len(),
            whole_word ==> nchars == content@.len(),
            whole_word ==> word_tests_defined(content@, query@),
            pos <= tlen,
            raw == found + occurrences_from(tt, qq, pos as int),
            result@.len() == kept_matches(content@, qlen as int, found, whole_word).len(),
            forall|k: int|
                0 <= k < result@.len() ==> result@[k] as int == #[trigger] kept_matches(
                    content@,
                    qlen as int,
                    found,
                    whole_word,
                )[k],
        decreases tlen - pos,
    {
        let next = find_from(t, q, pos);
        proof {
            lemma_next_occurrence(tt, qq, pos as int);
        }
        match next {
            None => {
                assert(occurrences_from(tt, qq, pos as int) =~= seq![]);
                assert(raw =~= found);
                return result;
            },
            Some(start) => {
                let end = start + qlen;
                let ghost rest = occurrences_from(tt, qq, end as int);
                assert(occurrences_from(tt, qq, pos as int) == seq![start as int] + rest);
                assert(raw =~= found.push(start as int) + rest);
                let ghost k = found.len() as int;
                assert(raw[k] == start as int);
                let keep = if !whole_word {
                    true
                } else {
                    assert(word_test_defined(content@, raw[k], raw[k] + qlen));
                    let left_ok = start == 0 || !is_alphanumeric(content.get_char(start - 1));
                    left_ok && (end == tlen || !is_alphanumeric(content.get_char(end)))
                };
                proof {
                    assert(found.push(start as int).drop_last() =~= found);
                }
                if keep {
                    result.push(start);
                }
                proof {
                    found = found.push(start as int);
                }
                pos = end;
            },
        }
    }
}

/// Whether bytes `start..end` of the UTF-8 encoding of `c` can be replaced:
/// the range lies within the text and both ends fall on character boundaries.
pub open spec fn replace_range_ok(c: Seq<char>, start: int, end: int) -> bool {
    &&& 0 <= start <= end <= utf8(c).len()
    &&& is_char_boundary(utf8(c), start)
    &&& is_char_boundary(utf8(c), end)
}

/// The text `c` with its bytes `start..end` replaced by `r`.
pub open spec fn replaced_range(c: Seq<char>, start: int, end: int, r: Seq<char>) -> Seq<char> {
    decode_utf8(utf8(c).subrange(0, start)) + r + decode_utf8(
        utf8(c).subrange(end, utf8(c).len() as int),
    )
}

/// `String::replace_range(start..end, r)`, written over `split_at`.
pub fn replace_range(s: &String, start: usize, end: usize, r: &str) -> (res: String)
    requires
        replace_range_ok(s@, start as int, end as int),
    ensures
        res@ == replaced_range(s@, start as int, end as int, r@),
{
    let (a, _) = s.as_str().split_at(start);
    let (_, b) = s.as_str().split_at(end);
    let mut res = String::from_str(a);
    res.append(r);
    res.append(b);
    proof {
        assert(decode_utf8(utf8(a@)) == a@);
        assert(decode_utf8(utf8(b@)) == b@);
    }
    res
}

/// Whether bytes `start..start + qlen` of `s` can be replaced.
pub fn range_replaceable(s: &str, start: usize, qlen: usize) -> (r: bool)
    ensures
        r == replace_range_ok(s@, start as int, start + qlen),
{
    let blen = s.as_bytes().len();
    if start > blen || qlen > blen - start {
        return false;
    }
    s.is_char_boundary(start) && s.is_char_boundary(start + qlen)
}

/// UTF-8 encoding distributes over concatenation.
pub proof fn lemma_utf8_concat(a: Seq<char>, b: Seq<char>)
    ensures
        utf8(a + b) == utf8(a) + utf8(b),
    decreases a.len(),
{
    if a.len() == 0 {
        assert(a + b =~= b);
        assert(utf8(a) + utf8(b) =~= utf8(b));
    } else {
        lemma_utf8_concat(a.drop_first(), b);
        assert((a + b).drop_first() =~= a.drop_first() + b);
        assert(utf8(a + b) =~= utf8(a) + utf8(b));
    }
}

/// A valid UTF-8 prefix `q` of valid UTF-8 bytes `b` ends on a character
/// boundary of `b`.
proof fn lemma_prefix_ends_on_boundary(b: Seq<u8>, q: Seq<u8>)
    requires
        valid_utf8(b),
        valid_utf8(q),
        q.len() <= b.len(),
        b.subrange(0, q.len() as int) == q,
    ensures
        is_char_boundary(b, q.len() as int),
    decreases q.len(),
{
    if q.len() > 0 {
        assert(b[0] == q[0]);
        let l = length_of_first_scalar(q);
        assert(length_of_first_scalar(b) == l);
        assert(l <= q.len());
        let pb = pop_first_scalar(b);
        let pq = pop_first_scalar(q);
        assert(pb.subrange(0, pq.len() as int) =~= pq) by {
            assert forall|k: int| 0 <= k < pq.len() implies pb.subrange(0, pq.len() as int)[k]
                == pq[k] by {
                assert(pb[k] == b[k + l]);
                assert(pq[k] == q[k + l]);
                assert(b.subrange(0, q.len() as int)[k + l] == b[k + l]);
            }
        }
        lemma_prefix_ends_on_boundary(pb, pq);
    }
}

/// A boundary `k` of the bytes after boundary `s` of `b` is the boundary
/// `s + k` of `b`.
proof fn lemma_boundary_shift(b: Seq<u8>, s: int, k: int)
    requires
        valid_utf8(b),
        is_char_boundary(b, s),
        valid_utf8(b.subrange(s, b.len() as int)),
        is_char_boundary(b.subrange(s, b.len() as int), k),
    ensures
        is_char_boundary(b, s + k),
    decreases b.len(),
{
    if s == 0 {
        assert(b.subrange(0, b.len() as int) =~= b);
    } else {
        let l = length_of_first_scalar(b);
        let pb = pop_first_scalar(b);
        assert(0 <= s - l);
        assert(pb.subrange(s - l, pb.len() as int) =~= b.subrange(s, b.len() as int));
        lemma_boundary_shift(pb, s - l, k);
        assert(0 <= k <= b.len() - s);
    }
}

/// An occurrence of a non-empty text inside another starts and ends on
/// character boundaries, so that its bytes can be replaced.
pub proof fn lemma_occurrence_replaceable(c: Seq<char>, q: Seq<char>, p: int)
    requires
        q.len() > 0,
        occurs_at(utf8(c), utf8(q), p),
    ensures
        replace_range_ok(c, p, p + utf8(q).len()),
{
    let t = utf8(c);
    let qq = utf8(q);
    assert(qq.len() > 0);
    assert(is_char_boundary(qq, 0));
    assert(!is_continuation_byte(qq[0]));
    assert(t.subrange(p, p + qq.len())[0] == t[p]);
    assert(is_char_boundary(t, p));
    let rest = t.subrange(p, t.len() as int);
    assert(valid_utf8(rest));
    assert(rest.subrange(0, qq.len() as int) =~= qq);
    lemma_prefix_ends_on_boundary(rest, qq);
    lemma_boundary_shift(t, p, qq.len() as int);
}

/// Replacing a replaceable byte range: the bytes before the range, then the
/// replacement's bytes, then the bytes after the range.
pub proof fn lemma_replaced_bytes(c: Seq<char>, start: int, end: int, r: Seq<char>)
    requires
        replace_range_ok(c, start, end),
    ensures
        utf8(replaced_range(c, start, end, r)) == utf8(c).subrange(0, start) + utf8(r) + utf8(
            c,
        ).subrange(end, utf8(c).len() as int),
{
    let t = utf8(c);
    let a = decode_utf8(t.subrange(0, start));
    let b = decode_utf8(t.subrange(end, t.len() as int));
    assert(valid_utf8(t.subrange(0, start)));
    assert(valid_utf8(t.subrange(end, t.len() as int)));
    assert(utf8(a) == t.subrange(0, start));
    assert(utf8(b) == t.subrange(end, t.len() as int));
    lemma_utf8_concat(a, r);
    lemma_utf8_concat(a + r, b);
}

} // verus!
