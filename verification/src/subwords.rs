//! Subword decomposition: which six-letter words of a collection are a
//! shorter word followed by another word.  One variant scans candidate
//! prefixes and suffixes, one splits the word and binary-searches a
//! sorted collection, and one generalises the word and part lengths.

use vstd::prelude::*;
use vstd::string::StrSliceExecFns;

verus! {

/// The character sequences of the words.
pub open spec fn views(words: Seq<String>) -> Seq<Seq<char>> {
    words.map_values(|w: String| w@)
}

/// Strict lexicographic order on character sequences.
pub open spec fn lex_lt(a: Seq<char>, b: Seq<char>) -> bool
    decreases a.len(),
{
    if b.len() == 0 {
        false
    } else if a.len() == 0 {
        true
    } else if a.first() == b.first() {
        lex_lt(a.drop_first(), b.drop_first())
    } else {
        a.first() < b.first()
    }
}

/// The words appear in non-decreasing lexicographic order.
pub open spec fn lex_sorted(ws: Seq<Seq<char>>) -> bool {
    forall|i: int, j: int| 0 <= i < j < ws.len() ==> !lex_lt(#[trigger] ws[j], #[trigger] ws[i])
}

proof fn lemma_lex_irrefl(a: Seq<char>)
    ensures
        !lex_lt(a, a),
    decreases a.len(),
{
    if a.len() > 0 {
        lemma_lex_irrefl(a.drop_first());
    }
}

proof fn lemma_lex_connex(a: Seq<char>, b: Seq<char>)
    requires
        !lex_lt(a, b),
        !lex_lt(b, a),
    ensures
        a =~= b,
    decreases a.len(),
{
    if a.len() > 0 && b.len() > 0 && a.first() == b.first() {
        lemma_lex_connex(a.drop_first(), b.drop_first());
        assert(a =~= seq![a.first()] + a.drop_first());
        assert(b =~= seq![b.first()] + b.drop_first());
    }
}

proof fn lemma_lex_trans(a: Seq<char>, b: Seq<char>, c: Seq<char>)
    requires
        lex_lt(a, b),
        lex_lt(b, c),
    ensures
        lex_lt(a, c),
    decreases a.len(),
{
    if a.len() > 0 && b.len() > 0 && c.len() > 0 && a.first() == b.first() && b.first()
        == c.first() {
        lemma_lex_trans(a.drop_first(), b.drop_first(), c.drop_first());
    }
}

/// Compares two strings lexicographically by characters.
pub fn str_lex_lt(a: &str, b: &str) -> (r: bool)
    ensures
        r == lex_lt(a@, b@),
{
    let na = a.unicode_len();
    let nb = b.unicode_len();
    let n = if na < nb {
        na
    } else {
        nb
    };
    let mut i: usize = 0;
    proof {
        assert(a@.skip(0) =~= a@);
        assert(b@.skip(0) =~= b@);
    }
    while i < n
        invariant
            i <= n,
            n == if na < nb {
                na
            } else {
                nb
            },
            na == a@.len(),
            nb == b@.len(),
            lex_lt(a@, b@) == lex_lt(a@.skip(i as int), b@.skip(i as int)),
        decreases n - i,
    {
        let ca = a.get_char(i);
        let cb = b.get_char(i);
        proof {
            assert(a@.skip(i as int).first() == a@[i as int]);
            assert(b@.skip(i as int).first() == b@[i as int]);
        }
        if ca != cb {
            return ca < cb;
        }
        proof {
            assert(a@.skip(i as int).drop_first() =~= a@.skip(i + 1));
            assert(b@.skip(i as int).drop_first() =~= b@.skip(i + 1));
        }
        i = i + 1;
    }
    proof {
        if na < nb {
            assert(a@.skip(i as int).len() == 0);
            assert(b@.skip(i as int).len() > 0);
        } else {
            assert(b@.skip(i as int).len() == 0);
        }
    }
    na < nb
}

/// Binary search for `target` in a lexicographically sorted collection.
pub fn words_contain(words: &Vec<String>, target: &str) -> (r: bool)
    requires
        lex_sorted(views(words@)),
    ensures
        r == views(words@).contains(target@),
{
    let ghost ws = views(words@);
    let mut start: usize = 0;
    let mut end: usize = words.len();
    while start < end
        invariant
            start <= end <= ws.len() == words@.len(),
            ws == views(words@),
            lex_sorted(ws),
            forall|k: int| 0 <= k < start ==> lex_lt(#[trigger] ws[k], target@),
            forall|k: int| end <= k < ws.len() ==> lex_lt(target@, #[trigger] ws[k]),
        decreases end - start,
    {
        let mid = start + (end - start) / 2;
        let ghost wm = ws[mid as int];
        if str_lex_lt(words[mid].as_str(), target) {
            proof {
                assert forall|k: int| 0 <= k < mid + 1 implies lex_lt(
                    #[trigger] ws[k],
                    target@,
                ) by {
                    if k < mid {
                        if lex_lt(ws[k], wm) {
                            lemma_lex_trans(ws[k], wm, target@);
                        } else {
                            lemma_lex_connex(ws[k], wm);
                        }
                    }
                }
            }
            start = mid + 1;
        } else if str_lex_lt(target, words[mid].as_str()) {
            proof {
                assert forall|k: int| mid <= k < ws.len() implies lex_lt(
                    target@,
                    #[trigger] ws[k],
                ) by {
                    if k > mid {
                        if lex_lt(wm, ws[k]) {
                            lemma_lex_trans(target@, wm, ws[k]);
                        } else {
                            lemma_lex_connex(wm, ws[k]);
                        }
                    }
                }
            }
            end = mid;
        } else {
            proof {
                lemma_lex_connex(wm, target@);
                assert(ws[mid as int] == target@);
            }
            return true;
        }
    }
    proof {
        if ws.contains(target@) {
            let k = choose|k: int| 0 <= k < ws.len() && ws[k] == target@;
            lemma_lex_irrefl(target@);
        }
    }
    false
}

/// Does `prefix` begin `word`?
pub fn str_starts_with(word: &str, prefix: &str) -> (r: bool)
    ensures
        r == (prefix@.len() <= word@.len() && word@.subrange(0, prefix@.len() as int)
            == prefix@),
{
    let nw = word.unicode_len();
    let np = prefix.unicode_len();
    if np > nw {
        return false;
    }
    let mut i: usize = 0;
    while i < np
        invariant
            i <= np <= nw,
            np == prefix@.len(),
            nw == word@.len(),
            forall|k: int| 0 <= k < i ==> word@[k] == prefix@[k],
        decreases np - i,
    {
        if word.get_char(i) != prefix.get_char(i) {
            proof {
                assert(word@.subrange(0, np as int)[i as int] != prefix@[i as int]);
            }
            return false;
        }
        i = i + 1;
    }
    proof {
        assert(word@.subrange(0, np as int) =~= prefix@);
    }
    true
}

/// Does `suffix` end `word`?
pub fn str_ends_with(word: &str, suffix: &str) -> (r: bool)
    ensures
        r == (suffix@.len() <= word@.len() && word@.subrange(
            word@.len() - suffix@.len(),
            word@.len() as int,
        ) == suffix@),
{
    let nw = word.unicode_len();
    let ns = suffix.unicode_len();
    if ns > nw {
        return false;
    }
    let off = nw - ns;
    let mut i: usize = 0;
    while i < ns
        invariant
            i <= ns <= nw,
            off == nw - ns,
            ns == suffix@.len(),
            nw == word@.len(),
            forall|k: int| 0 <= k < i ==> word@[off + k] == suffix@[k],
        decreases ns - i,
    {
        if word.get_char(off + i) != suffix.get_char(i) {
            proof {
                assert(word@.subrange(off as int, nw as int)[i as int] != suffix@[i as int]);
            }
            return false;
        }
        i = i + 1;
    }
    proof {
        assert(word@.subrange(off as int, nw as int) =~= suffix@);
    }
    true
}

/// The words of exactly `len` characters, in collection order.
pub open spec fn words_of_len(ws: Seq<Seq<char>>, len: int) -> Seq<Seq<char>>
    decreases ws.len(),
{
    if ws.len() == 0 {
        Seq::empty()
    } else {
        let init = words_of_len(ws.drop_last(), len);
        if ws.last().len() == len {
            init.push(ws.last())
        } else {
            init
        }
    }
}

proof fn lemma_words_of_len_contains(ws: Seq<Seq<char>>, len: int)
    ensures
        forall|x: Seq<char>|
            words_of_len(ws, len).contains(x) <==> (ws.contains(x) && x.len() == len),
    decreases ws.len(),
{
    if ws.len() > 0 {
        lemma_words_of_len_contains(ws.drop_last(), len);
        assert forall|x: Seq<char>| #[trigger]
            words_of_len(ws, len).contains(x) implies ws.contains(x) && x.len() == len by {
            let sub = words_of_len(ws, len);
            let k = choose|k: int| 0 <= k < sub.len() && sub[k] == x;
            if ws.last().len() == len && k == sub.len() - 1 {
                assert(ws[ws.len() - 1] == x);
            } else {
                assert(words_of_len(ws.drop_last(), len).contains(x));
                let t = choose|t: int| 0 <= t < ws.drop_last().len() && ws.drop_last()[t] == x;
                assert(ws[t] == x);
            }
        }
        assert forall|x: Seq<char>|
            ws.contains(x) && x.len() == len implies #[trigger] words_of_len(
            ws,
            len,
        ).contains(x) by {
            let k = choose|k: int| 0 <= k < ws.len() && ws[k] == x;
            if k == ws.len() - 1 {
                assert(words_of_len(ws, len).last() == x);
            } else {
                assert(ws.drop_last()[k] == x);
                let sub = words_of_len(ws.drop_last(), len);
                let t = choose|t: int| 0 <= t < sub.len() && sub[t] == x;
                assert(words_of_len(ws, len)[t] == x);
            }
        }
    }
}

/// Collects the words of exactly `len` characters.
pub fn words_with_len(words: &Vec<String>, len: usize) -> (r: Vec<String>)
    ensures
        views(r@) =~= words_of_len(views(words@), len as int),
{
    let mut r: Vec<String> = Vec::new();
    let mut i: usize = 0;
    while i < words.len()
        invariant
            i <= words@.len(),
            views(r@) =~= words_of_len(views(words@).subrange(0, i as int), len as int),
        decreases words@.len() - i,
    {
        let ghost prefix = views(words@).subrange(0, i as int);
        if words[i].as_str().unicode_len() == len {
            let w = words[i].clone();
            r.push(w);
        }
        proof {
            assert(views(words@).subrange(0, i + 1).drop_last() =~= prefix);
            assert(views(words@).subrange(0, i + 1).last() == words@[i as int]@);
        }
        i = i + 1;
    }
    proof {
        assert(views(words@).subrange(0, words@.len() as int) =~= views(words@));
    }
    r
}

/// `word` begins with a collection word of `len` characters and ends
/// with a collection word of `6 - len` characters.
pub open spec fn splits_as_two(ws: Seq<Seq<char>>, word: Seq<char>, len: int) -> bool {
    &&& 0 <= len <= word.len()
    &&& 0 <= 6 - len <= word.len()
    &&& ws.contains(word.subrange(0, len))
    &&& ws.contains(word.subrange(word.len() - (6 - len), word.len() as int))
}

/// Some prefix length between two and four splits `word` as above.
pub open spec fn is_two_words_spec(ws: Seq<Seq<char>>, word: Seq<char>) -> bool {
    exists|len: int| 2 <= len <= 4 && splits_as_two(ws, word, len)
}

/// Scans every candidate prefix and suffix of `word` from the
/// collection; reports 1 when a prefix-length between two and four has
/// both parts in the collection, else 0.
#[verifier::loop_isolation(false)]
pub fn is_two_words(words: &Vec<String>, word: &str) -> (r: usize)
    ensures
        r == if is_two_words_spec(views(words@), word@) {
            1usize
        } else {
            0usize
        },
{
    let ghost ws = views(words@);
    let mut len: usize = 2;
    while len <= 4
        invariant
            2 <= len <= 5,
            forall|l: int| 2 <= l < len ==> !splits_as_two(ws, word@, l),
        decreases 5 - len,
    {
        proof {
            lemma_words_of_len_contains(ws, len as int);
            lemma_words_of_len_contains(ws, 6 - len as int);
        }
        let firsts = words_with_len(words, len);
        let seconds = words_with_len(words, 6 - len);
        let mut i: usize = 0;
        while i < firsts.len()
            invariant
                i <= firsts@.len(),
                forall|k: int|
                    0 <= k < i ==> !(#[trigger] views(firsts@)[k].len() <= word@.len()
                        && word@.subrange(0, views(firsts@)[k].len() as int)
                        == views(firsts@)[k] && exists|t: int|
                        0 <= t < views(seconds@).len() && views(seconds@)[t].len() <= word@.len()
                            && word@.subrange(
                            word@.len() - views(seconds@)[t].len(),
                            word@.len() as int,
                        ) == views(seconds@)[t]),
            decreases firsts@.len() - i,
        {
            let ghost p = views(firsts@)[i as int];
            let prefix_hit = str_starts_with(word, firsts[i].as_str());
            if prefix_hit {
                let mut j: usize = 0;
                while j < seconds.len()
                    invariant
                        j <= seconds@.len(),
                        forall|t: int|
                            0 <= t < j ==> !(#[trigger] views(seconds@)[t].len() <= word@.len()
                                && word@.subrange(
                                word@.len() - views(seconds@)[t].len(),
                                word@.len() as int,
                            ) == views(seconds@)[t]),
                    decreases seconds@.len() - j,
                {
                    let ghost s = views(seconds@)[j as int];
                    if str_ends_with(word, seconds[j].as_str()) {
                        proof {
                            assert(0 <= i < views(firsts@).len());
                            assert(views(firsts@)[i as int] == p);
                            assert(views(firsts@).contains(p));
                            assert(0 <= j < views(seconds@).len());
                            assert(views(seconds@)[j as int] == s);
                            assert(views(seconds@).contains(s));
                            assert(ws.contains(p) && p.len() == len);
                            assert(ws.contains(s) && s.len() == 6 - len);
                            assert(word@.subrange(0, len as int) == p);
                            assert(word@.subrange(word@.len() - (6 - len), word@.len() as int)
                                == s);
                            assert(splits_as_two(ws, word@, len as int));
                        }
                        return 1;
                    }
                    j = j + 1;
                }
            }
            i = i + 1;
        }
        proof {
            lemma_words_of_len_contains(ws, len as int);
            lemma_words_of_len_contains(ws, 6 - len as int);
            assert forall|l: int| 2 <= l < len + 1 implies !splits_as_two(ws, word@, l) by {
                if l == len && splits_as_two(ws, word@, l) {
                    let p = word@.subrange(0, l);
                    let s = word@.subrange(word@.len() - (6 - l), word@.len() as int);
                    assert(ws.contains(p));
                    assert(p.len() == len as int);
                    assert(words_of_len(ws, len as int).contains(p));
                    assert(views(firsts@) == words_of_len(ws, len as int));
                    assert(views(firsts@).contains(p));
                    assert(ws.contains(s));
                    assert(s.len() == 6 - len as int);
                    assert(words_of_len(ws, 6 - len as int).contains(s));
                    assert(views(seconds@) == words_of_len(ws, 6 - len as int));
                    assert(views(seconds@).contains(s));
                    let k = choose|k: int|
                        0 <= k < views(firsts@).len() && views(firsts@)[k] == p;
                    let t = choose|t: int|
                        0 <= t < views(seconds@).len() && views(seconds@)[t] == s;
                    assert(views(firsts@)[k].len() <= word@.len() && word@.subrange(
                        0,
                        views(firsts@)[k].len() as int,
                    ) == views(firsts@)[k]);
                }
            }
        }
        len = len + 1;
    }
    0
}

/// The count of six-character words in `part` that split as two words
/// of the whole collection.
pub open spec fn subword_count(ws_all: Seq<Seq<char>>, part: Seq<Seq<char>>) -> int
    decreases part.len(),
{
    if part.len() == 0 {
        0
    } else {
        subword_count(ws_all, part.drop_last()) + if part.last().len() == 6
            && is_two_words_spec(ws_all, part.last()) {
            1int
        } else {
            0int
        }
    }
}

/// Counts the six-character words that are two collection words, by the
/// scanning variant.
pub fn find_subwords_readable(words: &Vec<String>) -> (r: usize)
    ensures
        r == subword_count(views(words@), views(words@)),
{
    let ghost ws = views(words@);
    let mut r: usize = 0;
    let mut i: usize = 0;
    while i < words.len()
        invariant
            i <= words@.len(),
            ws == views(words@),
            r <= i,
            r == subword_count(ws, ws.subrange(0, i as int)),
        decreases words@.len() - i,
    {
        proof {
            assert(ws.subrange(0, i + 1).drop_last() =~= ws.subrange(0, i as int));
            assert(ws.subrange(0, i + 1).last() == words@[i as int]@);
        }
        if words[i].as_str().unicode_len() == 6 {
            let found = is_two_words(words, words[i].as_str());
            r = r + found;
        }
        i = i + 1;
    }
    proof {
        assert(ws.subrange(0, ws.len() as int) =~= ws);
    }
    r
}

/// `word` cut after `min(len, |word|)` characters gives two collection
/// words.
pub open spec fn splits_take_skip(ws: Seq<Seq<char>>, word: Seq<char>, len: int) -> bool {
    let cut = if len < word.len() {
        len
    } else {
        word.len() as int
    };
    ws.contains(word.subrange(0, cut)) && ws.contains(word.subrange(cut, word.len() as int))
}

/// Some cut between `min_len` and `word_len - min_len` splits `word`
/// into two collection words.
pub open spec fn is_two_words_ext_spec(
    ws: Seq<Seq<char>>,
    word: Seq<char>,
    word_len: int,
    min_len: int,
) -> bool {
    exists|len: int| min_len <= len <= word_len - min_len && splits_take_skip(ws, word, len)
}

/// Splits `word` at every cut between `min_len` and `word_len - min_len`
/// and binary-searches both parts in the sorted collection.
pub fn is_two_words_fast_ext(words: &Vec<String>, word_len: usize, min_len: usize, word: &str) -> (r:
    usize)
    requires
        lex_sorted(views(words@)),
        min_len <= word_len < usize::MAX,
    ensures
        r == if is_two_words_ext_spec(views(words@), word@, word_len as int, min_len as int) {
            1usize
        } else {
            0usize
        },
{
    let ghost ws = views(words@);
    let wl = word.unicode_len();
    let mut len = min_len;
    while len <= word_len - min_len
        invariant
            min_len <= len,
            wl == word@.len(),
            ws == views(words@),
            lex_sorted(ws),
            min_len <= word_len < usize::MAX,
            forall|l: int| min_len <= l < len ==> !splits_take_skip(ws, word@, l),
        decreases word_len - min_len + 1 - len,
    {
        let cut = if len < wl {
            len
        } else {
            wl
        };
        let subword1 = word.substring_char(0, cut);
        if words_contain(words, subword1) {
            let subword2 = word.substring_char(cut, wl);
            if words_contain(words, subword2) {
                proof {
                    assert(splits_take_skip(ws, word@, len as int));
                    assert(is_two_words_ext_spec(ws, word@, word_len as int, min_len as int));
                }
                return 1;
            }
        }
        len = len + 1;
    }
    0
}

/// The split test with a prefix between two and four characters, for
/// six-character words.
pub fn is_two_words_fast(words: &Vec<String>, word: &str) -> (r: usize)
    requires
        lex_sorted(views(words@)),
    ensures
        r == if is_two_words_ext_spec(views(words@), word@, 6, 2) {
            1usize
        } else {
            0usize
        },
{
    is_two_words_fast_ext(words, 6, 2, word)
}

/// The count of `word_len`-character words in `part` that split into
/// two collection words at some cut of at least `min_len` characters.
pub open spec fn subword_count_ext(
    ws_all: Seq<Seq<char>>,
    part: Seq<Seq<char>>,
    word_len: int,
    min_len: int,
) -> int
    decreases part.len(),
{
    if part.len() == 0 {
        0
    } else {
        subword_count_ext(ws_all, part.drop_last(), word_len, min_len) + if part.last().len()
            == word_len && is_two_words_ext_spec(ws_all, part.last(), word_len, min_len) {
            1int
        } else {
            0int
        }
    }
}

/// Counts the `word_len`-character words that split into two collection
/// words, binary-searching the sorted collection for each part.
pub fn find_subwords_ext(words: &Vec<String>, word_len: usize, min_len: usize) -> (r: usize)
    requires
        lex_sorted(views(words@)),
        min_len <= word_len < usize::MAX,
    ensures
        r == subword_count_ext(views(words@), views(words@), word_len as int, min_len as int),
{
    let ghost ws = views(words@);
    let mut r: usize = 0;
    let mut i: usize = 0;
    while i < words.len()
        invariant
            i <= words@.len(),
            ws == views(words@),
            lex_sorted(ws),
            min_len <= word_len < usize::MAX,
            r <= i,
            r == subword_count_ext(ws, ws.subrange(0, i as int), word_len as int, min_len as int),
        decreases words@.len() - i,
    {
        proof {
            assert(ws.subrange(0, i + 1).drop_last() =~= ws.subrange(0, i as int));
            assert(ws.subrange(0, i + 1).last() == words@[i as int]@);
        }
        if words[i].as_str().unicode_len() == word_len {
            let found = is_two_words_fast_ext(words, word_len, min_len, words[i].as_str());
            r = r + found;
        }
        i = i + 1;
    }
    proof {
        assert(ws.subrange(0, ws.len() as int) =~= ws);
    }
    r
}

/// The six-and-two case of the count, by the same search.
pub fn find_subwords_fast(words: &Vec<String>) -> (r: usize)
    requires
        lex_sorted(views(words@)),
    ensures
        r == subword_count_ext(views(words@), views(words@), 6, 2),
{
    find_subwords_ext(words, 6, 2)
}

} // verus!
