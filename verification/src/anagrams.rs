//! Anagram grouping: each word's key is its bytes in ascending order, so
//! two words are anagrams exactly when their keys are equal.  One variant
//! sorts the keys and counts runs of equal neighbours; the other groups
//! keys by equality as they come.  Both report how many anagram sets
//! there are, how many words they cover, the largest set, and the longest
//! key among them.

use vstd::prelude::*;
use vstd::multiset::Multiset;
use vstd::relations::{sorted_by, total_ordering};
use vstd::seq_lib::lemma_sorted_unique;
use vstd::slice::slice_to_vec;
use vstd::utf8::encode_utf8;

use crate::subwords::views;

verus! {

/// Bytes in ascending order.
pub open spec fn byte_le() -> spec_fn(u8, u8) -> bool {
    |a: u8, b: u8| a <= b
}

/// A word's anagram key: its encoded bytes, sorted ascending.
pub open spec fn key_of(w: Seq<char>) -> Seq<u8> {
    encode_utf8(w).sort_by(byte_le())
}

/// The anagram keys of the words, in collection order.
pub open spec fn keys_of(ws: Seq<Seq<char>>) -> Seq<Seq<u8>> {
    ws.map_values(|w: Seq<char>| key_of(w))
}

/// Relies on `itertools::Itertools::sorted`: the same elements, in
/// ascending order.
#[verifier::external_body]
fn sorted_bytes(v: Vec<u8>) -> (r: Vec<u8>)
    ensures
        r@.to_multiset() == v@.to_multiset(),
        sorted_by(r@, byte_le()),
{
    itertools::Itertools::sorted(v.into_iter()).collect()
}

/// Builds a word's anagram key: its bytes in ascending order.
pub fn make_key(word: &str) -> (r: Vec<u8>)
    ensures
        r@ == key_of(word@),
{
    let bytes = slice_to_vec(word.as_bytes());
    let r = sorted_bytes(bytes);
    proof {
        let enc = encode_utf8(word@);
        enc.lemma_sort_by_ensures(byte_le());
        lemma_sorted_unique(r@, enc.sort_by(byte_le()), byte_le());
    }
    r
}

/// A word together with its anagram key.
pub struct WordKey {
    pub origin: String,
    pub key: Vec<u8>,
}

/// Binds every word to its key.
pub fn make_keys(words: &Vec<String>) -> (r: Vec<WordKey>)
    ensures
        r@.len() == words@.len(),
        forall|i: int| 0 <= i < r@.len() ==> #[trigger] r@[i].origin@ == words@[i]@,
        forall|i: int| 0 <= i < r@.len() ==> #[trigger] r@[i].key@ == key_of(words@[i]@),
{
    let mut r: Vec<WordKey> = Vec::new();
    let mut i: usize = 0;
    while i < words.len()
        invariant
            i <= words@.len(),
            r@.len() == i,
            forall|k: int| 0 <= k < i ==> #[trigger] r@[k].origin@ == words@[k]@,
            forall|k: int| 0 <= k < i ==> #[trigger] r@[k].key@ == key_of(words@[k]@),
        decreases words@.len() - i,
    {
        let origin = words[i].clone();
        let key = make_key(words[i].as_str());
        r.push(WordKey { origin, key });
        proof {
            assert(r@[i as int].origin@ == words@[i as int]@);
            assert(r@[i as int].key@ == key_of(words@[i as int]@));
        }
        i = i + 1;
    }
    r
}

/// Strict lexicographic order on byte sequences.
pub open spec fn blex_lt(a: Seq<u8>, b: Seq<u8>) -> bool
    decreases a.len(),
{
    if b.len() == 0 {
        false
    } else if a.len() == 0 {
        true
    } else if a.first() == b.first() {
        blex_lt(a.drop_first(), b.drop_first())
    } else {
        a.first() < b.first()
    }
}

/// Keys in non-decreasing lexicographic order.
pub open spec fn key_le() -> spec_fn(Seq<u8>, Seq<u8>) -> bool {
    |a: Seq<u8>, b: Seq<u8>| blex_lt(a, b) || a == b
}

proof fn lemma_blex_irrefl(a: Seq<u8>)
    ensures
        !blex_lt(a, a),
    decreases a.len(),
{
    if a.len() > 0 {
        lemma_blex_irrefl(a.drop_first());
    }
}

proof fn lemma_blex_connex(a: Seq<u8>, b: Seq<u8>)
    requires
        !blex_lt(a, b),
        !blex_lt(b, a),
    ensures
        a =~= b,
    decreases a.len(),
{
    if a.len() > 0 && b.len() > 0 && a.first() == b.first() {
        lemma_blex_connex(a.drop_first(), b.drop_first());
        assert(a =~= seq![a.first()] + a.drop_first());
        assert(b =~= seq![b.first()] + b.drop_first());
    }
}

proof fn lemma_blex_trans(a: Seq<u8>, b: Seq<u8>, c: Seq<u8>)
    requires
        blex_lt(a, b),
        blex_lt(b, c),
    ensures
        blex_lt(a, c),
    decreases a.len(),
{
    if a.len() > 0 && b.len() > 0 && c.len() > 0 && a.first() == b.first() && b.first()
        == c.first() {
        lemma_blex_trans(a.drop_first(), b.drop_first(), c.drop_first());
    }
}

pub proof fn lemma_key_le_total()
    ensures
        total_ordering(key_le()),
{
    let leq = key_le();
    assert forall|a: Seq<u8>| #[trigger] leq(a, a) by {
        lemma_blex_irrefl(a);
    }
    assert forall|a: Seq<u8>, b: Seq<u8>| #[trigger] leq(a, b) && #[trigger] leq(b, a) implies a
        == b by {
        if blex_lt(a, b) && blex_lt(b, a) {
            lemma_blex_trans(a, b, a);
            lemma_blex_irrefl(a);
        }
    }
    assert forall|a: Seq<u8>, b: Seq<u8>, c: Seq<u8>|
        #[trigger] leq(a, b) && #[trigger] leq(b, c) implies leq(a, c) by {
        if blex_lt(a, b) && blex_lt(b, c) {
            lemma_blex_trans(a, b, c);
        }
    }
    assert forall|a: Seq<u8>, b: Seq<u8>| #[trigger] leq(a, b) || #[trigger] leq(b, a) by {
        if !blex_lt(a, b) && !blex_lt(b, a) {
            lemma_blex_connex(a, b);
        }
    }
}

/// Compares two byte vectors lexicographically.
fn bytes_lex_lt(a: &Vec<u8>, b: &Vec<u8>) -> (r: bool)
    ensures
        r == blex_lt(a@, b@),
{
    let na = a.len();
    let nb = b.len();
    let n = if na < nb {
        na
    } else {
        nb
    };
    let mut i: usize = 0;
    proof {
        assert(a@.skip(0) =~= a@);
        assert(b@.skip(0) =~= b@);
    }
    while i < n
        invariant
            i <= n,
            n == if na < nb {
                na
            } else {
                nb
            },
            na == a@.len(),
            nb == b@.len(),
            blex_lt(a@, b@) == blex_lt(a@.skip(i as int), b@.skip(i as int)),
        decreases n - i,
    {
        proof {
            assert(a@.skip(i as int).first() == a@[i as int]);
            assert(b@.skip(i as int).first() == b@[i as int]);
        }
        if a[i] != b[i] {
            return a[i] < b[i];
        }
        proof {
            assert(a@.skip(i as int).drop_first() =~= a@.skip(i + 1));
            assert(b@.skip(i as int).drop_first() =~= b@.skip(i + 1));
        }
        i = i + 1;
    }
    proof {
        if na < nb {
            assert(a@.skip(i as int).len() == 0);
            assert(b@.skip(i as int).len() > 0);
        } else {
            assert(b@.skip(i as int).len() == 0);
        }
    }
    na < nb
}

/// Are the two byte vectors equal?
fn bytes_eq(a: &Vec<u8>, b: &Vec<u8>) -> (r: bool)
    ensures
        r == (a@ == b@),
{
    if a.len() != b.len() {
        return false;
    }
    let mut i: usize = 0;
    while i < a.len()
        invariant
            i <= a@.len() == b@.len(),
            forall|k: int| 0 <= k < i ==> a@[k] == b@[k],
        decreases a@.len() - i,
    {
        if a[i] != b[i] {
            return false;
        }
        i = i + 1;
    }
    proof {
        assert(a@ =~= b@);
    }
    true
}

/// Sorts the keys into non-decreasing lexicographic order, keeping the
/// multiset of keys: repeatedly moves a least remaining key to the end
/// of the output.
#[verifier::loop_isolation(false)]
fn sort_keys(input: Vec<Vec<u8>>) -> (r: Vec<Vec<u8>>)
    ensures
        r@.map_values(|k: Vec<u8>| k@).to_multiset() == input@.map_values(
            |k: Vec<u8>| k@,
        ).to_multiset(),
        sorted_by(r@.map_values(|k: Vec<u8>| k@), key_le()),
{
    broadcast use vstd::seq_lib::group_to_multiset_ensures;
    broadcast use vstd::multiset::group_multiset_axioms;

    let ghost orig = input@.map_values(|k: Vec<u8>| k@);
    let mut work = input;
    let mut out: Vec<Vec<u8>> = Vec::new();
    proof {
        assert(out@.map_values(|k: Vec<u8>| k@).to_multiset().add(
            work@.map_values(|k: Vec<u8>| k@).to_multiset(),
        ) =~= orig.to_multiset());
    }
    while work.len() > 0
        invariant
            out@.map_values(|k: Vec<u8>| k@).to_multiset().add(
                work@.map_values(|k: Vec<u8>| k@).to_multiset(),
            ) == orig.to_multiset(),
            sorted_by(out@.map_values(|k: Vec<u8>| k@), key_le()),
            forall|p: int, q: int|
                0 <= p < out@.len() && 0 <= q < work@.len() ==> key_le()(
                    #[trigger] out@[p]@,
                    #[trigger] work@[q]@,
                ),
        decreases work@.len(),
    {
        let ghost work_pre = work@.map_values(|k: Vec<u8>| k@);
        let ghost out_pre = out@.map_values(|k: Vec<u8>| k@);
        let mut m: usize = 0;
        let mut j: usize = 1;
        proof {
            lemma_blex_irrefl(work@[0]@);
        }
        while j < work.len()
            invariant
                m < j <= work@.len(),
                forall|q: int| 0 <= q < j ==> !blex_lt(#[trigger] work@[q]@, work@[m as int]@),
            decreases work@.len() - j,
        {
            if bytes_lex_lt(&work[j], &work[m]) {
                proof {
                    assert forall|q: int| 0 <= q < j + 1 implies !blex_lt(
                        #[trigger] work@[q]@,
                        work@[j as int]@,
                    ) by {
                        if q < j && blex_lt(work@[q]@, work@[j as int]@) {
                            if blex_lt(work@[j as int]@, work@[m as int]@) {
                                lemma_blex_trans(work@[q]@, work@[j as int]@, work@[m as int]@);
                            }
                        }
                        if q == j {
                            lemma_blex_irrefl(work@[j as int]@);
                        }
                    }
                }
                m = j;
            }
            j = j + 1;
        }
        proof {
            assert forall|q: int| 0 <= q < work_pre.len() implies !blex_lt(
                #[trigger] work_pre[q],
                work_pre[m as int],
            ) by {
                assert(work_pre[q] == work@[q]@);
                assert(work_pre[m as int] == work@[m as int]@);
            }
            assert forall|p: int, q: int|
                0 <= p < out_pre.len() && 0 <= q < work_pre.len() implies key_le()(
                #[trigger] out_pre[p],
                #[trigger] work_pre[q],
            ) by {
                assert(out_pre[p] == out@[p]@);
                assert(work_pre[q] == work@[q]@);
            }
        }
        let x = work.remove(m);
        out.push(x);
        proof {
            let xv = work_pre[m as int];
            let work_post = work@.map_values(|k: Vec<u8>| k@);
            let out_post = out@.map_values(|k: Vec<u8>| k@);
            assert(work_post =~= work_pre.remove(m as int));
            assert(out_post =~= out_pre.push(xv));
            work_pre.to_multiset_ensures();
            out_pre.to_multiset_ensures();
            assert(work_post.to_multiset() =~= work_pre.to_multiset().remove(xv));
            assert(out_post.to_multiset() =~= out_pre.to_multiset().insert(xv));
            assert(work_pre.to_multiset().count(xv) > 0);
            assert(out_post.to_multiset().add(work_post.to_multiset()) =~= orig.to_multiset());
            assert forall|p: int, q: int|
                0 <= p < out@.len() && 0 <= q < work@.len() implies key_le()(
                #[trigger] out@[p]@,
                #[trigger] work@[q]@,
            ) by {
                assert(out_post[p] == out@[p]@);
                assert(work_post[q] == work@[q]@);
                let qq = if q < m {
                    q
                } else {
                    q + 1
                };
                assert(work_post[q] == work_pre[qq]);
                if p < out_pre.len() {
                    assert(key_le()(out_pre[p], work_pre[qq]));
                } else {
                    assert(out_post[p] == xv);
                    if blex_lt(work_pre[qq], xv) {
                        assert(!blex_lt(work_pre[qq], xv));
                    } else {
                        lemma_blex_connex_le(xv, work_pre[qq]);
                    }
                }
            }
            assert forall|p: int, q: int|
                0 <= p < q < out_post.len() implies key_le()(
                #[trigger] out_post[p],
                #[trigger] out_post[q],
            ) by {
                assert(out_post[p] == out@[p]@);
                assert(out_post[q] == out@[q]@);
                if q < out_pre.len() {
                    assert(key_le()(out_pre[p], out_pre[q]));
                } else {
                    assert(out_post[q] == xv);
                    assert(key_le()(out_pre[p], work_pre[m as int]));
                }
            }
        }
    }
    proof {
        assert(work@.map_values(|k: Vec<u8>| k@).to_multiset() =~= Multiset::<Seq<u8>>::empty());
        let out_final = out@.map_values(|k: Vec<u8>| k@);
        assert(out_final.to_multiset().add(Multiset::<Seq<u8>>::empty()) =~= out_final.to_multiset());
    }
    out
}

/// Either `a` is lexicographically at most `b`, or `b` is below `a`.
proof fn lemma_blex_connex_le(a: Seq<u8>, b: Seq<u8>)
    requires
        !blex_lt(b, a),
    ensures
        key_le()(a, b),
{
    if !blex_lt(a, b) {
        lemma_blex_connex(a, b);
    }
}

// ---------------------------------------------------------------------
// Statistics over the sorted key sequence: equal keys form runs.
// ---------------------------------------------------------------------

/// The length of the run of equal keys that ends the sequence.
pub open spec fn last_run_len(s: Seq<Seq<u8>>) -> int
    decreases s.len(),
{
    if s.len() == 0 {
        0
    } else if s.len() >= 2 && s[s.len() - 2] == s.last() {
        last_run_len(s.drop_last()) + 1
    } else {
        1
    }
}

/// How many runs of two or more equal keys the sequence holds.
pub open spec fn dup_sets(s: Seq<Seq<u8>>) -> int
    decreases s.len(),
{
    if s.len() == 0 {
        0
    } else {
        dup_sets(s.drop_last()) + if last_run_len(s) == 2 {
            1int
        } else {
            0int
        }
    }
}

/// How many keys lie in runs of two or more.
pub open spec fn dup_words(s: Seq<Seq<u8>>) -> int
    decreases s.len(),
{
    if s.len() == 0 {
        0
    } else {
        dup_words(s.drop_last()) + if last_run_len(s) == 2 {
            2int
        } else if last_run_len(s) > 2 {
            1int
        } else {
            0int
        }
    }
}

/// The length of the longest run.
pub open spec fn most_size(s: Seq<Seq<u8>>) -> int
    decreases s.len(),
{
    if s.len() == 0 {
        0
    } else {
        vstd::math::max(most_size(s.drop_last()), last_run_len(s))
    }
}

/// The longest key among runs of two or more.
pub open spec fn longest_dup(s: Seq<Seq<u8>>) -> int
    decreases s.len(),
{
    if s.len() == 0 {
        0
    } else {
        vstd::math::max(
            longest_dup(s.drop_last()),
            if last_run_len(s) >= 2 {
                s.last().len() as int
            } else {
                0int
            },
        )
    }
}

/// The anagram keys of the words, in ascending order.
pub open spec fn sorted_keys(ws: Seq<Seq<char>>) -> Seq<Seq<u8>> {
    keys_of(ws).sort_by(key_le())
}

/// Groups anagrams by sorting the keys and scanning runs of equal
/// neighbours.  Reports the number of anagram sets, the words they
/// cover, the largest set, and the longest key among them.
#[verifier::loop_isolation(false)]
pub fn find_anagrams_by_sort(words: &Vec<String>) -> (r: (usize, usize, usize, usize))
    requires
        dup_sets(sorted_keys(views(words@))) >= 1,
    ensures
        r.0 == dup_sets(sorted_keys(views(words@))),
        r.1 == dup_words(sorted_keys(views(words@))),
        r.2 == most_size(sorted_keys(views(words@))),
        r.3 == longest_dup(sorted_keys(views(words@))),
{
    let ghost sk = sorted_keys(views(words@));
    let mut keyvecs: Vec<Vec<u8>> = Vec::new();
    let mut i: usize = 0;
    while i < words.len()
        invariant
            i <= words@.len(),
            keyvecs@.map_values(|k: Vec<u8>| k@) =~= keys_of(views(words@)).subrange(
                0,
                i as int,
            ),
        decreases words@.len() - i,
    {
        let key = make_key(words[i].as_str());
        keyvecs.push(key);
        proof {
            assert(keyvecs@.map_values(|k: Vec<u8>| k@) =~= keys_of(views(words@)).subrange(
                0,
                i + 1,
            ));
        }
        i = i + 1;
    }
    proof {
        assert(keys_of(views(words@)).subrange(0, words@.len() as int) =~= keys_of(
            views(words@),
        ));
    }
    let sorted = sort_keys(keyvecs);
    proof {
        lemma_key_le_total();
        keys_of(views(words@)).lemma_sort_by_ensures(key_le());
        lemma_sorted_unique(sorted@.map_values(|k: Vec<u8>| k@), sk, key_le());
        assert(sorted@.map_values(|k: Vec<u8>| k@) == sk);
    }

    let n = sorted.len();
    let mut run: usize = 0;
    let mut sets: usize = 0;
    let mut wordsc: usize = 0;
    let mut most: usize = 0;
    let mut longest: usize = 0;
    let mut t: usize = 0;
    proof {
        assert(sk.subrange(0, 0) =~= Seq::<Seq<u8>>::empty());
    }
    while t < n
        invariant
            t <= n == sk.len(),
            run == last_run_len(sk.subrange(0, t as int)),
            run <= t,
            sets == dup_sets(sk.subrange(0, t as int)),
            sets <= t,
            wordsc == dup_words(sk.subrange(0, t as int)),
            wordsc <= t,
            last_run_len(sk.subrange(0, t as int)) == 1 ==> wordsc + 1 <= t,
            most == most_size(sk.subrange(0, t as int)),
            most <= t,
            longest == longest_dup(sk.subrange(0, t as int)),
        decreases n - t,
    {
        let ghost pre = sk.subrange(0, t as int);
        let ghost post = sk.subrange(0, t + 1);
        proof {
            assert(post.drop_last() =~= pre);
            assert(post.last() == sk[t as int]);
            assert(sorted@.map_values(|k: Vec<u8>| k@)[t as int] == sorted@[t as int]@);
            if t > 0 {
                assert(post[post.len() - 2] == sk[t - 1]);
                assert(sorted@.map_values(|k: Vec<u8>| k@)[t - 1] == sorted@[t - 1]@);
            }
        }
        let extends = t > 0 && bytes_eq(&sorted[t - 1], &sorted[t]);
        proof {
            assert(extends == (post.len() >= 2 && post[post.len() - 2] == post.last()));
        }
        if extends {
            run = run + 1;
        } else {
            run = 1;
        }
        if run == 2 {
            sets = sets + 1;
            wordsc = wordsc + 2;
        } else if run > 2 {
            wordsc = wordsc + 1;
        }
        if run > most {
            most = run;
        }
        if run >= 2 {
            let kl = sorted[t].len();
            if kl > longest {
                longest = kl;
            }
        }
        t = t + 1;
    }
    proof {
        assert(sk.subrange(0, sk.len() as int) =~= sk);
    }
    (sets, wordsc, most, longest)
}

// ---------------------------------------------------------------------
// Statistics by grouping keys as they come, without sorting.
// ---------------------------------------------------------------------

/// How often `k` occurs among the keys.
pub open spec fn key_count(ks: Seq<Seq<u8>>, k: Seq<u8>) -> int
    decreases ks.len(),
{
    if ks.len() == 0 {
        0
    } else {
        key_count(ks.drop_last(), k) + if ks.last() == k {
            1int
        } else {
            0int
        }
    }
}

proof fn lemma_key_count_contains(ks: Seq<Seq<u8>>, k: Seq<u8>)
    ensures
        0 <= key_count(ks, k) <= ks.len(),
        key_count(ks, k) > 0 <==> ks.contains(k),
    decreases ks.len(),
{
    if ks.len() > 0 {
        lemma_key_count_contains(ks.drop_last(), k);
        if ks.contains(k) && ks.last() != k {
            let j = choose|j: int| 0 <= j < ks.len() && ks[j] == k;
            assert(ks.drop_last()[j] == k);
        }
        if ks.drop_last().contains(k) {
            let j = choose|j: int| 0 <= j < ks.len() - 1 && ks.drop_last()[j] == k;
            assert(ks[j] == k);
        }
    }
}

/// How many groups reached two members: the count of anagram sets.
pub open spec fn group_sets(ks: Seq<Seq<u8>>) -> int
    decreases ks.len(),
{
    if ks.len() == 0 {
        0
    } else {
        group_sets(ks.drop_last()) + if key_count(ks, ks.last()) == 2 {
            1int
        } else {
            0int
        }
    }
}

/// How many keys lie in groups of two or more.
pub open spec fn group_words(ks: Seq<Seq<u8>>) -> int
    decreases ks.len(),
{
    if ks.len() == 0 {
        0
    } else {
        group_words(ks.drop_last()) + if key_count(ks, ks.last()) == 2 {
            2int
        } else if key_count(ks, ks.last()) > 2 {
            1int
        } else {
            0int
        }
    }
}

/// The size of the largest group of two or more.
pub open spec fn group_most(ks: Seq<Seq<u8>>) -> int
    decreases ks.len(),
{
    if ks.len() == 0 {
        0
    } else {
        vstd::math::max(
            group_most(ks.drop_last()),
            if key_count(ks, ks.last()) >= 2 {
                key_count(ks, ks.last())
            } else {
                0int
            },
        )
    }
}

/// The longest key among groups of two or more.
pub open spec fn group_longest(ks: Seq<Seq<u8>>) -> int
    decreases ks.len(),
{
    if ks.len() == 0 {
        0
    } else {
        vstd::math::max(
            group_longest(ks.drop_last()),
            if key_count(ks, ks.last()) >= 2 {
                ks.last().len() as int
            } else {
                0int
            },
        )
    }
}

/// How many of the tracked group counters stand at exactly one.
spec fn count_ones(cs: Seq<usize>) -> int
    decreases cs.len(),
{
    if cs.len() == 0 {
        0
    } else {
        count_ones(cs.drop_last()) + if cs.last() == 1usize {
            1int
        } else {
            0int
        }
    }
}

proof fn lemma_count_ones_update(cs: Seq<usize>, k: int, v: usize)
    requires
        0 <= k < cs.len(),
    ensures
        count_ones(cs.update(k, v)) == count_ones(cs) - (if cs[k] == 1usize {
            1int
        } else {
            0int
        }) + (if v == 1usize {
            1int
        } else {
            0int
        }),
    decreases cs.len(),
{
    if k == cs.len() - 1 {
        assert(cs.update(k, v).drop_last() =~= cs.drop_last());
    } else {
        assert(cs.update(k, v).drop_last() =~= cs.drop_last().update(k, v));
        lemma_count_ones_update(cs.drop_last(), k, v);
    }
}

proof fn lemma_count_ones_pos(cs: Seq<usize>, k: int)
    requires
        0 <= k < cs.len(),
        cs[k] == 1usize,
    ensures
        count_ones(cs) >= 1,
        count_ones(cs) >= 0,
    decreases cs.len(),
{
    lemma_count_ones_nonneg(cs);
    if k == cs.len() - 1 {
        lemma_count_ones_nonneg(cs.drop_last());
    } else {
        lemma_count_ones_pos(cs.drop_last(), k);
    }
}

proof fn lemma_count_ones_nonneg(cs: Seq<usize>)
    ensures
        count_ones(cs) >= 0,
    decreases cs.len(),
{
    if cs.len() > 0 {
        lemma_count_ones_nonneg(cs.drop_last());
    }
}

/// Groups the keys by equality as they come, counting each group, and
/// reports the same four statistics as the sorting variant.
#[verifier::loop_isolation(false)]
pub fn find_anagrams_by_hash(words: &Vec<String>) -> (r: (usize, usize, usize, usize))
    requires
        group_sets(keys_of(views(words@))) >= 1,
    ensures
        r.0 == group_sets(keys_of(views(words@))),
        r.1 == group_words(keys_of(views(words@))),
        r.2 == group_most(keys_of(views(words@))),
        r.3 == group_longest(keys_of(views(words@))),
{
    let ghost ks = keys_of(views(words@));
    let keys = make_keys(words);
    proof {
        assert forall|j: int| 0 <= j < keys@.len() implies #[trigger] keys@[j].key@
            == ks[j] by {
            assert(views(words@)[j] == words@[j]@);
        }
    }
    let mut gkeys: Vec<Vec<u8>> = Vec::new();
    let mut counts: Vec<usize> = Vec::new();
    let mut singles: usize = 0;
    let mut sets: usize = 0;
    let mut wordsc: usize = 0;
    let mut most: usize = 0;
    let mut longest: usize = 0;
    let mut i: usize = 0;
    proof {
        assert(ks.subrange(0, 0) =~= Seq::<Seq<u8>>::empty());
    }
    while i < keys.len()
        invariant
            i <= keys@.len() == ks.len(),
            gkeys@.len() == counts@.len(),
            forall|k1: int, k2: int|
                0 <= k1 < k2 < gkeys@.len() ==> gkeys@[k1]@ != gkeys@[k2]@,
            forall|k: int|
                0 <= k < gkeys@.len() ==> #[trigger] counts@[k] as int == key_count(
                    ks.subrange(0, i as int),
                    gkeys@[k]@,
                ) && 1 <= counts@[k] <= i,
            forall|j: int|
                0 <= j < i ==> exists|g: int|
                    0 <= g < gkeys@.len() && #[trigger] gkeys@[g]@ == #[trigger] ks[j],
            singles as int == count_ones(counts@),
            sets == group_sets(ks.subrange(0, i as int)),
            sets <= i,
            wordsc == group_words(ks.subrange(0, i as int)),
            wordsc + singles <= i,
            most == group_most(ks.subrange(0, i as int)),
            most <= i,
            longest == group_longest(ks.subrange(0, i as int)),
        decreases keys@.len() - i,
    {
        let ghost pre = ks.subrange(0, i as int);
        let ghost post = ks.subrange(0, i + 1);
        let ghost g_pre = gkeys@;
        proof {
            assert(post.drop_last() =~= pre);
            assert(post.last() == ks[i as int]);
        }
        let mut found: usize = gkeys.len();
        let mut j: usize = 0;
        while j < gkeys.len()
            invariant
                j <= gkeys@.len(),
                found == gkeys@.len() || (found < j && gkeys@[found as int]@
                    == keys@[i as int].key@),
                found == gkeys@.len() ==> forall|k: int|
                    0 <= k < j ==> gkeys@[k]@ != keys@[i as int].key@,
            decreases gkeys@.len() - j,
        {
            if found == gkeys.len() && bytes_eq(&gkeys[j], &keys[i].key) {
                found = j;
            }
            j = j + 1;
        }
        let newcount: usize;
        if found < gkeys.len() {
            let ghost old_counts = counts@;
            let c = counts[found];
            proof {
                assert(key_count(post, gkeys@[found as int]@) == c + 1);
                lemma_count_ones_update(old_counts, found as int, (c + 1) as usize);
                if c == 1 {
                    lemma_count_ones_pos(old_counts, found as int);
                } else {
                    lemma_count_ones_nonneg(old_counts);
                }
            }
            counts.set(found, c + 1);
            newcount = c + 1;
            if c == 1 {
                singles = singles - 1;
            }
            proof {
                assert forall|k: int|
                    0 <= k < gkeys@.len() implies #[trigger] counts@[k] as int == key_count(
                    post,
                    gkeys@[k]@,
                ) && 1 <= counts@[k] <= i + 1 by {
                    if k != found {
                        assert(gkeys@[k]@ != ks[i as int]);
                        assert(key_count(post, gkeys@[k]@) == key_count(pre, gkeys@[k]@));
                    }
                }
            }
        } else {
            proof {
                lemma_key_count_contains(pre, keys@[i as int].key@);
                if pre.contains(keys@[i as int].key@) {
                    let j2 = choose|j2: int|
                        0 <= j2 < pre.len() && pre[j2] == keys@[i as int].key@;
                    assert(ks[j2] == keys@[i as int].key@);
                    let g = choose|g: int|
                        0 <= g < gkeys@.len() && #[trigger] gkeys@[g]@ == ks[j2];
                }
                assert(key_count(pre, keys@[i as int].key@) == 0);
            }
            let ghost old_counts = counts@;
            let ghost old_gkeys = gkeys@;
            let k = make_key(words[i].as_str());
            proof {
                assert(k@ == keys@[i as int].key@) by {
                    assert(views(words@)[i as int] == words@[i as int]@);
                }
            }
            gkeys.push(k);
            counts.push(1);
            singles = singles + 1;
            newcount = 1;
            proof {
                assert(counts@.drop_last() =~= old_counts);
                assert(count_ones(counts@) == count_ones(old_counts) + 1);
                lemma_count_ones_nonneg(old_counts);
                assert forall|t: int|
                    0 <= t < gkeys@.len() implies #[trigger] counts@[t] as int == key_count(
                    post,
                    gkeys@[t]@,
                ) && 1 <= counts@[t] <= i + 1 by {
                    if t < old_gkeys.len() {
                        assert(gkeys@[t]@ == old_gkeys[t]@);
                        assert(gkeys@[t]@ != ks[i as int]);
                        assert(key_count(post, gkeys@[t]@) == key_count(pre, gkeys@[t]@));
                    } else {
                        assert(gkeys@[t]@ == ks[i as int]);
                        assert(key_count(post, ks[i as int]) == 1);
                    }
                }
            }
        }
        proof {
            let c = newcount as int;
            assert(key_count(post, ks[i as int]) == c);
            assert(keys@[i as int].key@ == ks[i as int]) by {
                assert(views(words@)[i as int] == words@[i as int]@);
            }
            assert forall|j: int| 0 <= j < i + 1 implies exists|g: int|
                0 <= g < gkeys@.len() && #[trigger] gkeys@[g]@ == #[trigger] ks[j] by {
                if j == i {
                    if found < g_pre.len() {
                        assert(gkeys@[found as int]@ == ks[i as int]);
                    } else {
                        assert(gkeys@[gkeys@.len() - 1]@ == ks[i as int]);
                    }
                } else {
                    let g = choose|g: int| 0 <= g < g_pre.len() && #[trigger] g_pre[g]@ == ks[j];
                    assert(gkeys@[g]@ == ks[j]);
                }
            }
        }
        if newcount == 2 {
            sets = sets + 1;
            wordsc = wordsc + 2;
        } else if newcount > 2 {
            wordsc = wordsc + 1;
        }
        if newcount >= 2 && newcount > most {
            most = newcount;
        }
        if newcount >= 2 {
            let kl = keys[i].key.len();
            if kl > longest {
                longest = kl;
            }
        }
        i = i + 1;
    }
    proof {
        assert(ks.subrange(0, ks.len() as int) =~= ks);
    }
    (sets, wordsc, most, longest)
}

} // verus!
