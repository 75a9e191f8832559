//! Line-oriented record parsing: a weather table (day, maximum and
//! minimum temperature) and a football table (team, goals for and
//! against), each reduced to the row with the smallest spread between
//! its two numeric columns.

use vstd::prelude::*;
use vstd::string::StrSliceExecFns;

use crate::text::lines_of;
use crate::text::split_lines;

verus! {

/// The non-empty stretches of `s` between separator characters.
pub open spec fn tokens_of(s: Seq<char>, sep: spec_fn(char) -> bool) -> Seq<Seq<char>>
    decreases s.len(),
{
    if s.len() == 0 {
        Seq::empty()
    } else if sep(s[0]) {
        tokens_of(s.drop_first(), sep)
    } else if s.len() >= 2 && !sep(s[1]) {
        let rest = tokens_of(s.drop_first(), sep);
        if rest.len() == 0 {
            seq![seq![s[0]]]
        } else {
            seq![seq![s[0]] + rest[0]] + rest.subrange(1, rest.len() as int)
        }
    } else {
        seq![seq![s[0]]] + tokens_of(s.drop_first(), sep)
    }
}

/// A maximal run of non-separator characters is one whole token.
proof fn lemma_token_prefix(s: Seq<char>, sep: spec_fn(char) -> bool, k: int)
    requires
        1 <= k <= s.len(),
        forall|i: int| 0 <= i < k ==> !sep(#[trigger] s[i]),
        k == s.len() || sep(s[k]),
    ensures
        tokens_of(s, sep) =~~= seq![s.subrange(0, k)] + tokens_of(
            s.subrange(k, s.len() as int),
            sep,
        ),
    decreases k,
{
    if k == 1 {
        if s.len() >= 2 && !sep(s[1]) {
            assert(false);
        } else if s.len() == 1 {
            assert(s.subrange(0, 1) =~= seq![s[0]]);
            assert(s.subrange(1, 1).len() == 0);
        } else {
            assert(s.subrange(0, 1) =~= seq![s[0]]);
            assert(s.subrange(1, s.len() as int) =~= s.drop_first());
        }
    } else {
        let d = s.drop_first();
        assert(d[0] == s[1]);
        assert forall|i: int| 0 <= i < k - 1 implies !sep(#[trigger] d[i]) by {
            assert(d[i] == s[i + 1]);
        }
        if k - 1 < d.len() {
            assert(d[k - 1] == s[k]);
        }
        lemma_token_prefix(d, sep, k - 1);
        assert(d.subrange(0, k - 1) =~= s.subrange(1, k));
        assert(d.subrange(k - 1, d.len() as int) =~= s.subrange(k, s.len() as int));
        let rest = tokens_of(d, sep);
        assert(rest[0] == s.subrange(1, k));
        assert(seq![s[0]] + s.subrange(1, k) =~= s.subrange(0, k));
        assert(rest.subrange(1, rest.len() as int) =~= tokens_of(
            s.subrange(k, s.len() as int),
            sep,
        ));
    }
}

/// A separator in a record of the weather table: a blank or the star
/// that marks an extreme day.
pub open spec fn weather_sep(c: char) -> bool {
    c == ' ' || c == '*'
}

pub open spec fn weather_sep_fn() -> spec_fn(char) -> bool {
    |c: char| weather_sep(c)
}

/// A separator in a record of the football table: a blank or a tab.
pub open spec fn blank_sep(c: char) -> bool {
    c == ' ' || c == '\t'
}

pub open spec fn blank_sep_fn() -> spec_fn(char) -> bool {
    |c: char| blank_sep(c)
}

/// Splits a weather record into its tokens.
pub fn split_weather_tokens(s: &str) -> (r: Vec<String>)
    ensures
        r@.map_values(|t: String| t@) =~= tokens_of(s@, weather_sep_fn()),
{
    let ghost sep = weather_sep_fn();
    let n = s.unicode_len();
    let mut r: Vec<String> = Vec::new();
    let mut pos: usize = 0;
    proof {
        assert(s@.subrange(0, n as int) =~= s@);
    }
    while pos < n
        invariant
            pos <= n == s@.len(),
            sep == weather_sep_fn(),
            tokens_of(s@, sep) =~~= r@.map_values(|t: String| t@) + tokens_of(
                s@.subrange(pos as int, n as int),
                sep,
            ),
        decreases n - pos,
    {
        let ghost suffix = s@.subrange(pos as int, n as int);
        let c = s.get_char(pos);
        if c == ' ' || c == '*' {
            proof {
                assert(sep(suffix[0]));
                assert(suffix[0] == c);
                assert(suffix.drop_first() =~= s@.subrange(pos + 1, n as int));
            }
            pos = pos + 1;
        } else {
            proof {
                assert(!sep(s@[pos as int]));
            }
            let mut e = pos + 1;
            while e < n
                invariant_except_break
                    pos < e <= n == s@.len(),
                    sep == weather_sep_fn(),
                    forall|i: int| pos <= i < e ==> !sep(#[trigger] s@[i]),
                ensures
                    pos < e <= n,
                    forall|i: int| pos <= i < e ==> !sep(#[trigger] s@[i]),
                    e == n || sep(s@[e as int]),
                decreases n - e,
            {
                let d = s.get_char(e);
                if d == ' ' || d == '*' {
                    proof {
                        assert(sep(s@[e as int]));
                    }
                    break ;
                }
                proof {
                    assert(!sep(s@[e as int]));
                }
                e = e + 1;
            }
            let token = s.substring_char(pos, e);
            r.push(token.to_owned());
            proof {
                assert forall|i: int| 0 <= i < e - pos implies !sep(#[trigger] suffix[i]) by {
                    assert(suffix[i] == s@[pos + i]);
                }
                if e < n {
                    assert(suffix[e - pos] == s@[e as int]);
                }
                lemma_token_prefix(suffix, sep, e - pos);
                assert(suffix.subrange(0, e - pos) =~= s@.subrange(pos as int, e as int));
                assert(suffix.subrange(e - pos, suffix.len() as int) =~= s@.subrange(
                    e as int,
                    n as int,
                ));
            }
            pos = e;
        }
    }
    proof {
        assert(s@.subrange(pos as int, n as int).len() == 0);
    }
    r
}

/// Splits a football record into its blank-separated tokens.
pub fn split_blank_tokens(s: &str) -> (r: Vec<String>)
    ensures
        r@.map_values(|t: String| t@) =~= tokens_of(s@, blank_sep_fn()),
{
    let ghost sep = blank_sep_fn();
    let n = s.unicode_len();
    let mut r: Vec<String> = Vec::new();
    let mut pos: usize = 0;
    proof {
        assert(s@.subrange(0, n as int) =~= s@);
    }
    while pos < n
        invariant
            pos <= n == s@.len(),
            sep == blank_sep_fn(),
            tokens_of(s@, sep) =~~= r@.map_values(|t: String| t@) + tokens_of(
                s@.subrange(pos as int, n as int),
                sep,
            ),
        decreases n - pos,
    {
        let ghost suffix = s@.subrange(pos as int, n as int);
        let c = s.get_char(pos);
        if c == ' ' || c == '\t' {
            proof {
                assert(sep(suffix[0]));
                assert(suffix[0] == c);
                assert(suffix.drop_first() =~= s@.subrange(pos + 1, n as int));
            }
            pos = pos + 1;
        } else {
            proof {
                assert(!sep(s@[pos as int]));
            }
            let mut e = pos + 1;
            while e < n
                invariant_except_break
                    pos < e <= n == s@.len(),
                    sep == blank_sep_fn(),
                    forall|i: int| pos <= i < e ==> !sep(#[trigger] s@[i]),
                ensures
                    pos < e <= n,
                    forall|i: int| pos <= i < e ==> !sep(#[trigger] s@[i]),
                    e == n || sep(s@[e as int]),
                decreases n - e,
            {
                let d = s.get_char(e);
                if d == ' ' || d == '\t' {
                    proof {
                        assert(sep(s@[e as int]));
                    }
                    break ;
                }
                proof {
                    assert(!sep(s@[e as int]));
                }
                e = e + 1;
            }
            let token = s.substring_char(pos, e);
            r.push(token.to_owned());
            proof {
                assert forall|i: int| 0 <= i < e - pos implies !sep(#[trigger] suffix[i]) by {
                    assert(suffix[i] == s@[pos + i]);
                }
                if e < n {
                    assert(suffix[e - pos] == s@[e as int]);
                }
                lemma_token_prefix(suffix, sep, e - pos);
                assert(suffix.subrange(0, e - pos) =~= s@.subrange(pos as int, e as int));
                assert(suffix.subrange(e - pos, suffix.len() as int) =~= s@.subrange(
                    e as int,
                    n as int,
                ));
            }
            pos = e;
        }
    }
    proof {
        assert(s@.subrange(pos as int, n as int).len() == 0);
    }
    r
}

/// An ASCII decimal digit.
pub open spec fn is_digit(c: char) -> bool {
    '0' <= c && c <= '9'
}

pub open spec fn digit_val(c: char) -> int {
    c as int - '0' as int
}

/// The value of a run of decimal digits, most significant first.
pub open spec fn digits_val(s: Seq<char>) -> int
    decreases s.len(),
{
    if s.len() == 0 {
        0
    } else {
        digits_val(s.drop_last()) * 10 + digit_val(s.last())
    }
}

/// The digits of a number with an optional leading plus sign.
pub open spec fn number_digits(s: Seq<char>) -> Seq<char> {
    if s.len() > 0 && s[0] == '+' {
        s.drop_first()
    } else {
        s
    }
}

/// The token is a decimal number, optionally signed `+`, that fits a
/// byte.
pub open spec fn parses_as_u8(s: Seq<char>) -> bool {
    let d = number_digits(s);
    &&& d.len() > 0
    &&& forall|i: int| 0 <= i < d.len() ==> is_digit(#[trigger] d[i])
    &&& digits_val(d) <= 255
}

/// The byte value of such a token.
pub open spec fn u8_val(s: Seq<char>) -> int {
    digits_val(number_digits(s))
}

proof fn lemma_digits_val_nonneg(s: Seq<char>)
    requires
        forall|i: int| 0 <= i < s.len() ==> is_digit(#[trigger] s[i]),
    ensures
        digits_val(s) >= 0,
    decreases s.len(),
{
    if s.len() > 0 {
        lemma_digits_val_nonneg(s.drop_last());
    }
}

/// A digit prefix never exceeds the whole number's value.
proof fn lemma_digits_val_prefix(s: Seq<char>, k: int)
    requires
        0 <= k <= s.len(),
        forall|i: int| 0 <= i < s.len() ==> is_digit(#[trigger] s[i]),
    ensures
        digits_val(s.subrange(0, k)) <= digits_val(s),
    decreases s.len() - k,
{
    if k == s.len() {
        assert(s.subrange(0, k) =~= s);
    } else {
        assert(s.subrange(0, k + 1).drop_last() =~= s.subrange(0, k));
        lemma_digits_val_prefix(s, k + 1);
        lemma_digits_val_nonneg(s.subrange(0, k));
    }
}

/// Parses a token as a byte: `None` exactly when it is not a plain
/// decimal number that fits.
pub fn parse_u8(t: &str) -> (r: Option<u8>)
    ensures
        match r {
            Some(v) => parses_as_u8(t@) && v as int == u8_val(t@),
            None => !parses_as_u8(t@),
        },
{
    let n = t.unicode_len();
    let mut start: usize = 0;
    if n > 0 && t.get_char(0) == '+' {
        start = 1;
    }
    let ghost d = number_digits(t@);
    proof {
        if start == 1 {
            assert(d =~= t@.drop_first());
        } else {
            assert(d =~= t@);
        }
    }
    if start >= n {
        return None;
    }
    let mut val: u32 = 0;
    let mut i: usize = start;
    while i < n
        invariant
            start <= i <= n == t@.len(),
            start <= 1,
            d == number_digits(t@),
            d.len() == n - start,
            forall|k: int| 0 <= k < d.len() ==> d[k] == t@[k + start],
            forall|k: int| 0 <= k < i - start ==> is_digit(#[trigger] d[k]),
            val <= 255,
            val as int == digits_val(d.subrange(0, i - start)),
        decreases n - i,
    {
        let c = t.get_char(i);
        if c < '0' || c > '9' {
            proof {
                assert(d[i - start] == c);
                assert(!is_digit(d[i - start]));
            }
            return None;
        }
        let dv: u32 = (c as u32) - ('0' as u32);
        let next: u32 = val * 10 + dv;
        proof {
            assert(d.subrange(0, i + 1 - start).drop_last() =~= d.subrange(0, i - start));
            assert(d.subrange(0, i + 1 - start).last() == d[i - start]);
            assert(d[i - start] == c);
            assert(digit_val(c) == dv as int);
        }
        if next > 255 {
            proof {
                if parses_as_u8(t@) {
                    lemma_digits_val_prefix(d, i + 1 - start);
                    assert(false);
                }
            }
            return None;
        }
        val = next;
        i = i + 1;
    }
    proof {
        assert(d.subrange(0, n - start) =~= d);
    }
    Some(val as u8)
}

/// Does `pat` occur anywhere in `l`?
pub open spec fn has_sub(l: Seq<char>, pat: Seq<char>) -> bool {
    exists|k: int| 0 <= k <= l.len() - pat.len() && #[trigger] l.subrange(k, k + pat.len()) == pat
}

/// Looks for `pat` anywhere in `line`.
pub fn contains_sub(line: &str, pat: &str) -> (r: bool)
    ensures
        r == has_sub(line@, pat@),
{
    let nl = line.unicode_len();
    let np = pat.unicode_len();
    if np > nl {
        return false;
    }
    let mut k: usize = 0;
    while k <= nl - np
        invariant
            0 <= k <= nl - np + 1,
            np <= nl == line@.len(),
            np == pat@.len(),
            forall|t: int| 0 <= t < k ==> #[trigger] line@.subrange(t, t + np) != pat@,
        decreases nl - np + 1 - k,
    {
        let mut i: usize = 0;
        let mut hit = true;
        while i < np
            invariant_except_break
                0 <= i <= np,
                k + np <= nl == line@.len(),
                np == pat@.len(),
                hit,
                forall|t: int| 0 <= t < i ==> line@[k + t] == pat@[t],
            ensures
                k + np <= nl,
                np == pat@.len() && nl == line@.len(),
                hit ==> forall|t: int| 0 <= t < np ==> line@[k + t] == pat@[t],
                !hit ==> exists|t: int| 0 <= t < np && line@[k + t] != pat@[t],
            decreases np - i,
        {
            if line.get_char(k + i) != pat.get_char(i) {
                hit = false;
                break ;
            }
            i = i + 1;
        }
        if hit {
            proof {
                assert(line@.subrange(k as int, k + np) =~= pat@) by {
                    assert forall|t: int| 0 <= t < np implies line@.subrange(k as int, k + np)[t]
                        == pat@[t] by {
                        assert(line@[k + t] == pat@[t]);
                    }
                }
            }
            return true;
        }
        proof {
            let t = choose|t: int| 0 <= t < np && line@[k + t] != pat@[t];
            assert(line@.subrange(k as int, k + np)[t] != pat@[t]);
        }
        k = k + 1;
    }
    proof {
        if has_sub(line@, pat@) {
            let w = choose|w: int|
                0 <= w <= line@.len() - pat@.len() && #[trigger] line@.subrange(w, w + pat@.len()) == pat@;
            assert(w < k);
        }
    }
    false
}

/// The tokens of a weather record.
pub open spec fn weather_tokens(l: Seq<char>) -> Seq<Seq<char>> {
    tokens_of(l, weather_sep_fn())
}

/// A weather record parses when its first three tokens are bytes: the
/// day, the maximum and the minimum temperature.
pub open spec fn parses_weather(l: Seq<char>) -> bool {
    let ts = weather_tokens(l);
    ts.len() >= 3 && parses_as_u8(ts[0]) && parses_as_u8(ts[1]) && parses_as_u8(ts[2])
}

/// Reads day, maximum and minimum temperature from a record; `None`
/// exactly when the record does not parse.
pub fn parse_weather(numbers_line: &str) -> (r: Option<(u8, u8, u8)>)
    ensures
        match r {
            Some(v) => {
                let ts = weather_tokens(numbers_line@);
                &&& parses_weather(numbers_line@)
                &&& v.0 as int == u8_val(ts[0])
                &&& v.1 as int == u8_val(ts[1])
                &&& v.2 as int == u8_val(ts[2])
            },
            None => !parses_weather(numbers_line@),
        },
{
    let ghost ts = weather_tokens(numbers_line@);
    let tokens = split_weather_tokens(numbers_line);
    proof {
        assert(tokens@.len() == ts.len());
        if tokens@.len() >= 3 {
            assert(tokens@.map_values(|t: String| t@)[0] == ts[0]);
            assert(tokens@.map_values(|t: String| t@)[1] == ts[1]);
            assert(tokens@.map_values(|t: String| t@)[2] == ts[2]);
        }
    }
    if tokens.len() < 3 {
        return None;
    }
    let a = match parse_u8(tokens[0].as_str()) {
        Some(v) => v,
        None => {
            return None;
        },
    };
    let b = match parse_u8(tokens[1].as_str()) {
        Some(v) => v,
        None => {
            return None;
        },
    };
    let c = match parse_u8(tokens[2].as_str()) {
        Some(v) => v,
        None => {
            return None;
        },
    };
    Some((a, b, c))
}

/// The tokens of a football record.
pub open spec fn football_tokens(l: Seq<char>) -> Seq<Seq<char>> {
    tokens_of(l, blank_sep_fn())
}

/// A football record parses when it has a team name in its second token
/// and byte counts of goals for and against in its seventh and ninth.
pub open spec fn parses_football(l: Seq<char>) -> bool {
    let ts = football_tokens(l);
    ts.len() >= 9 && parses_as_u8(ts[6]) && parses_as_u8(ts[8])
}

/// Reads team name, goals for and goals against from a record; `None`
/// exactly when the record does not parse.
pub fn parse_football(numbers_line: &str) -> (r: Option<(String, u8, u8)>)
    ensures
        match r {
            Some(v) => {
                let ts = football_tokens(numbers_line@);
                &&& parses_football(numbers_line@)
                &&& v.0@ == ts[1]
                &&& v.1 as int == u8_val(ts[6])
                &&& v.2 as int == u8_val(ts[8])
            },
            None => !parses_football(numbers_line@),
        },
{
    let ghost ts = football_tokens(numbers_line@);
    let tokens = split_blank_tokens(numbers_line);
    proof {
        assert(tokens@.len() == ts.len());
        if tokens@.len() >= 9 {
            assert(tokens@.map_values(|t: String| t@)[1] == ts[1]);
            assert(tokens@.map_values(|t: String| t@)[6] == ts[6]);
            assert(tokens@.map_values(|t: String| t@)[8] == ts[8]);
        }
    }
    if tokens.len() < 9 {
        return None;
    }
    let name = tokens[1].clone();
    let for_ = match parse_u8(tokens[6].as_str()) {
        Some(v) => v,
        None => {
            return None;
        },
    };
    let against = match parse_u8(tokens[8].as_str()) {
        Some(v) => v,
        None => {
            return None;
        },
    };
    Some((name, for_, against))
}

/// The records after the table's head lines.
pub open spec fn body_lines(ls: Seq<Seq<char>>, headlines: int) -> Seq<Seq<char>> {
    if ls.len() <= headlines {
        Seq::empty()
    } else {
        ls.subrange(headlines, ls.len() as int)
    }
}

/// The records that do not hold the marker text.
pub open spec fn kept_lines(ls: Seq<Seq<char>>, pat: Seq<char>) -> Seq<Seq<char>>
    decreases ls.len(),
{
    if ls.len() == 0 {
        Seq::empty()
    } else {
        let init = kept_lines(ls.drop_last(), pat);
        if has_sub(ls.last(), pat) {
            init
        } else {
            init.push(ls.last())
        }
    }
}

/// The distance between two column values.
pub open spec fn spread_of(a: int, b: int) -> int {
    if a >= b {
        a - b
    } else {
        b - a
    }
}

/// The data records of a weather table: head lines dropped and the
/// month summary (marked `mo`) left out.
pub open spec fn weather_rows(content: Seq<char>) -> Seq<Seq<char>> {
    kept_lines(body_lines(lines_of(content), 2), seq!['m', 'o'])
}

/// A weather record's temperature spread.
pub open spec fn w_spread(l: Seq<char>) -> int {
    let ts = weather_tokens(l);
    spread_of(u8_val(ts[1]), u8_val(ts[2]))
}

/// The day of the first record with the smallest temperature spread.
/// `None` exactly when the table has no data records or one of them
/// does not parse.
#[verifier::loop_isolation(false)]
pub fn get_smallest_spread_weather(content: &str) -> (r: Option<u8>)
    ensures
        match r {
            Some(day) => {
                let rows = weather_rows(content@);
                &&& rows.len() > 0
                &&& forall|i: int| 0 <= i < rows.len() ==> parses_weather(#[trigger] rows[i])
                &&& exists|i: int|
                    0 <= i < rows.len() && day as int == u8_val(weather_tokens(#[trigger] rows[i])[0])
                        && (forall|j: int| 0 <= j < rows.len() ==> w_spread(#[trigger] rows[j]) >= w_spread(rows[i]))
                        && (forall|j: int| 0 <= j < i ==> w_spread(#[trigger] rows[j]) > w_spread(rows[i]))
            },
            None => {
                let rows = weather_rows(content@);
                rows.len() == 0 || exists|i: int|
                    0 <= i < rows.len() && !parses_weather(#[trigger] rows[i])
            },
        },
{
    let ghost rows_spec = weather_rows(content@);
    let all_lines = split_lines(content);
    proof {
        reveal_strlit("mo");
        assert("mo"@ =~= seq!['m', 'o']);
    }
    let mut rows: Vec<String> = Vec::new();
    let mut i: usize = 2;
    let ghost body = body_lines(lines_of(content@), 2);
    proof {
        assert(body.subrange(0, 0) =~= Seq::<Seq<char>>::empty());
    }
    if all_lines.len() <= 2 {
        return None;
    }
    while i < all_lines.len()
        invariant
            2 <= i <= all_lines@.len(),
            rows@.map_values(|l: String| l@) =~= kept_lines(
                body.subrange(0, i - 2),
                seq!['m', 'o'],
            ),
        decreases all_lines@.len() - i,
    {
        proof {
            assert(body.subrange(0, i - 1).drop_last() =~= body.subrange(0, i - 2));
            assert(body.subrange(0, i - 1).last() == body[i - 2]);
            assert(body[i - 2] == all_lines@.map_values(|l: String| l@)[i as int]);
        }
        if !contains_sub(all_lines[i].as_str(), "mo") {
            let row = all_lines[i].clone();
            rows.push(row);
        }
        i = i + 1;
    }
    proof {
        assert(body.subrange(0, all_lines@.len() - 2) =~= body);
        assert(rows@.map_values(|l: String| l@) =~= rows_spec);
    }

    if rows.len() == 0 {
        return None;
    }
    let first = match parse_weather(rows[0].as_str()) {
        Some(v) => v,
        None => {
            proof {
                assert(rows_spec[0] == rows@.map_values(|l: String| l@)[0]);
            }
            return None;
        },
    };
    let mut best_day = first.0;
    let mut best_spread = if first.1 >= first.2 {
        first.1 - first.2
    } else {
        first.2 - first.1
    };
    let ghost bi: int = 0;
    let mut t: usize = 1;
    proof {
        assert(rows_spec[0] == rows@.map_values(|l: String| l@)[0]);
    }
    while t < rows.len()
        invariant
            1 <= t <= rows@.len(),
            0 <= bi < t,
            forall|j: int| 0 <= j < t ==> parses_weather(#[trigger] rows_spec[j]),
            best_day as int == u8_val(weather_tokens(rows_spec[bi])[0]),
            best_spread as int == w_spread(rows_spec[bi]),
            forall|j: int| 0 <= j < t ==> w_spread(#[trigger] rows_spec[j]) >= w_spread(rows_spec[bi]),
            forall|j: int| 0 <= j < bi ==> w_spread(#[trigger] rows_spec[j]) > w_spread(rows_spec[bi]),
        decreases rows@.len() - t,
    {
        proof {
            assert(rows_spec[t as int] == rows@.map_values(|l: String| l@)[t as int]);
        }
        let row = match parse_weather(rows[t].as_str()) {
            Some(v) => v,
            None => {
                return None;
            },
        };
        let spread = if row.1 >= row.2 {
            row.1 - row.2
        } else {
            row.2 - row.1
        };
        if spread < best_spread {
            best_day = row.0;
            best_spread = spread;
            proof {
                bi = t as int;
            }
        }
        t = t + 1;
    }
    Some(best_day)
}

/// A football record's goal spread.
pub open spec fn f_spread(l: Seq<char>) -> int {
    let ts = football_tokens(l);
    spread_of(u8_val(ts[6]), u8_val(ts[8]))
}

/// The data records of a football table: the head line dropped and the
/// divider (marked `--`) left out.
pub open spec fn football_rows(content: Seq<char>) -> Seq<Seq<char>> {
    kept_lines(body_lines(lines_of(content), 1), seq!['-', '-'])
}

/// The team of the first record with the smallest goal spread.  `None`
/// exactly when the table has no data records or one of them does not
/// parse.
#[verifier::loop_isolation(false)]
pub fn get_smallest_spread_football(content: &str) -> (r: Option<String>)
    ensures
        match r {
            Some(name) => {
                let rows = football_rows(content@);
                &&& rows.len() > 0
                &&& forall|i: int| 0 <= i < rows.len() ==> parses_football(#[trigger] rows[i])
                &&& exists|i: int|
                    0 <= i < rows.len() && name@ == football_tokens(#[trigger] rows[i])[1]
                        && (forall|j: int| 0 <= j < rows.len() ==> f_spread(#[trigger] rows[j]) >= f_spread(rows[i]))
                        && (forall|j: int| 0 <= j < i ==> f_spread(#[trigger] rows[j]) > f_spread(rows[i]))
            },
            None => {
                let rows = football_rows(content@);
                rows.len() == 0 || exists|i: int|
                    0 <= i < rows.len() && !parses_football(#[trigger] rows[i])
            },
        },
{
    let ghost rows_spec = football_rows(content@);
    let all_lines = split_lines(content);
    proof {
        reveal_strlit("--");
        assert("--"@ =~= seq!['-', '-']);
    }
    let mut rows: Vec<String> = Vec::new();
    let mut i: usize = 1;
    let ghost body = body_lines(lines_of(content@), 1);
    proof {
        assert(body.subrange(0, 0) =~= Seq::<Seq<char>>::empty());
    }
    if all_lines.len() <= 1 {
        return None;
    }
    while i < all_lines.len()
        invariant
            1 <= i <= all_lines@.len(),
            rows@.map_values(|l: String| l@) =~= kept_lines(
                body.subrange(0, i - 1),
                seq!['-', '-'],
            ),
        decreases all_lines@.len() - i,
    {
        proof {
            assert(body.subrange(0, i as int).drop_last() =~= body.subrange(0, i - 1));
            assert(body.subrange(0, i as int).last() == body[i - 1]);
            assert(body[i - 1] == all_lines@.map_values(|l: String| l@)[i as int]);
        }
        if !contains_sub(all_lines[i].as_str(), "--") {
            let row = all_lines[i].clone();
            rows.push(row);
        }
        i = i + 1;
    }
    proof {
        assert(body.subrange(0, all_lines@.len() - 1) =~= body);
        assert(rows@.map_values(|l: String| l@) =~= rows_spec);
    }

    if rows.len() == 0 {
        return None;
    }
    proof {
        assert(rows_spec[0] == rows@.map_values(|l: String| l@)[0]);
    }
    let first = match parse_football(rows[0].as_str()) {
        Some(v) => v,
        None => {
            return None;
        },
    };
    let mut best_name = first.0;
    let mut best_spread = if first.1 >= first.2 {
        first.1 - first.2
    } else {
        first.2 - first.1
    };
    let ghost bi: int = 0;
    let mut t: usize = 1;
    while t < rows.len()
        invariant
            1 <= t <= rows@.len(),
            0 <= bi < t,
            forall|j: int| 0 <= j < t ==> parses_football(#[trigger] rows_spec[j]),
            best_name@ == football_tokens(rows_spec[bi])[1],
            best_spread as int == f_spread(rows_spec[bi]),
            forall|j: int| 0 <= j < t ==> f_spread(#[trigger] rows_spec[j]) >= f_spread(rows_spec[bi]),
            forall|j: int| 0 <= j < bi ==> f_spread(#[trigger] rows_spec[j]) > f_spread(rows_spec[bi]),
        decreases rows@.len() - t,
    {
        proof {
            assert(rows_spec[t as int] == rows@.map_values(|l: String| l@)[t as int]);
        }
        let row = match parse_football(rows[t].as_str()) {
            Some(v) => v,
            None => {
                return None;
            },
        };
        let spread = if row.1 >= row.2 {
            row.1 - row.2
        } else {
            row.2 - row.1
        };
        if spread < best_spread {
            best_name = row.0;
            best_spread = spread;
            proof {
                bi = t as int;
            }
        }
        t = t + 1;
    }
    Some(best_name)
}

} // verus!
