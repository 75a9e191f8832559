//! Line splitting over character sequences, shared by the modules that
//! take newline-delimited text: a line ends at `'\n'` or at `"\r\n"`,
//! and a final line without a terminator still counts.

use vstd::prelude::*;
use vstd::string::StrSliceExecFns;

verus! {

/// The lines of `s`: split at `'\n'` or `"\r\n"`, the final terminator
/// optional, with no empty line after a trailing terminator.
pub open spec fn lines_of(s: Seq<char>) -> Seq<Seq<char>>
    decreases s.len(),
{
    if s.len() == 0 {
        Seq::empty()
    } else if s.len() >= 2 && s[0] == '\r' && s[1] == '\n' {
        seq![Seq::<char>::empty()] + lines_of(s.subrange(2, s.len() as int))
    } else if s[0] == '\n' {
        seq![Seq::<char>::empty()] + lines_of(s.subrange(1, s.len() as int))
    } else {
        let rest = lines_of(s.subrange(1, s.len() as int));
        if rest.len() == 0 {
            seq![seq![s[0]]]
        } else {
            seq![seq![s[0]] + rest[0]] + rest.subrange(1, rest.len() as int)
        }
    }
}

/// The lines of an unfinished text whose first line begins with `partial`.
pub open spec fn lines_with_partial(partial: Seq<char>, rest: Seq<Seq<char>>) -> Seq<Seq<char>> {
    if rest.len() == 0 {
        if partial.len() == 0 {
            Seq::empty()
        } else {
            seq![partial]
        }
    } else {
        seq![partial + rest[0]] + rest.subrange(1, rest.len() as int)
    }
}

proof fn lemma_lines_with_empty_partial(rest: Seq<Seq<char>>)
    ensures
        lines_with_partial(Seq::empty(), rest) =~~= rest,
{
    if rest.len() > 0 {
        assert(Seq::<char>::empty() + rest[0] =~= rest[0]);
    }
}

/// A line break right after `partial` closes exactly one line.
proof fn lemma_lines_break(partial: Seq<char>, rest: Seq<Seq<char>>)
    ensures
        lines_with_partial(partial, seq![Seq::<char>::empty()] + rest) =~~= seq![partial]
            + lines_with_partial(Seq::empty(), rest),
{
    assert(partial + Seq::<char>::empty() =~= partial);
    lemma_lines_with_empty_partial(rest);
    assert((seq![Seq::<char>::empty()] + rest).subrange(1, rest.len() as int + 1) =~= rest);
}

/// An ordinary character extends the open first line.
proof fn lemma_lines_extend(partial: Seq<char>, c: char, rest: Seq<Seq<char>>)
    ensures
        lines_with_partial(partial, lines_with_partial(seq![c], rest)) =~~= lines_with_partial(
            partial.push(c),
            rest,
        ),
{
    if rest.len() == 0 {
        assert(partial + seq![c] =~= partial.push(c));
    } else {
        assert(partial + (seq![c] + rest[0]) =~= partial.push(c) + rest[0]);
        assert((seq![seq![c] + rest[0]] + rest.subrange(1, rest.len() as int)).subrange(
            1,
            rest.len() as int,
        ) =~= rest.subrange(1, rest.len() as int));
    }
}

/// Splits `s` into its lines.
pub fn split_lines(s: &str) -> (r: Vec<String>)
    ensures
        r@.map_values(|l: String| l@) =~= lines_of(s@),
{
    let n = s.unicode_len();
    let mut r: Vec<String> = Vec::new();
    let mut i: usize = 0;
    let mut line_start: usize = 0;
    proof {
        assert(s@.subrange(0, n as int) =~= s@);
        lemma_lines_with_empty_partial(lines_of(s@));
    }
    while i < n
        invariant
            line_start <= i <= n == s@.len(),
            lines_of(s@) =~~= r@.map_values(|l: String| l@) + lines_with_partial(
                s@.subrange(line_start as int, i as int),
                lines_of(s@.subrange(i as int, n as int)),
            ),
        decreases n - i,
    {
        let ghost partial = s@.subrange(line_start as int, i as int);
        let ghost suffix = s@.subrange(i as int, n as int);
        let ghost old_r = r@;
        let c = s.get_char(i);
        if c == '\r' && i + 1 < n && s.get_char(i + 1) == '\n' {
            let line = s.substring_char(line_start, i);
            r.push(line.to_owned());
            i = i + 2;
            line_start = i;
            proof {
                let rest = lines_of(s@.subrange(i as int, n as int));
                assert(suffix.subrange(2, suffix.len() as int) =~= s@.subrange(i as int, n as int));
                assert(lines_of(suffix) =~= seq![Seq::<char>::empty()] + rest);
                lemma_lines_break(partial, rest);
                assert(r@.map_values(|l: String| l@) =~= old_r.map_values(|l: String| l@).push(
                    partial,
                ));
                assert(s@.subrange(line_start as int, i as int) =~= Seq::<char>::empty());
            }
        } else if c == '\n' {
            let line = s.substring_char(line_start, i);
            r.push(line.to_owned());
            i = i + 1;
            line_start = i;
            proof {
                let rest = lines_of(s@.subrange(i as int, n as int));
                assert(suffix.subrange(1, suffix.len() as int) =~= s@.subrange(i as int, n as int));
                assert(lines_of(suffix) =~= seq![Seq::<char>::empty()] + rest);
                lemma_lines_break(partial, rest);
                assert(r@.map_values(|l: String| l@) =~= old_r.map_values(|l: String| l@).push(
                    partial,
                ));
                assert(s@.subrange(line_start as int, i as int) =~= Seq::<char>::empty());
            }
        } else {
            i = i + 1;
            proof {
                let rest = lines_of(s@.subrange(i as int, n as int));
                assert(suffix.subrange(1, suffix.len() as int) =~= s@.subrange(i as int, n as int));
                assert(lines_of(suffix) =~= lines_with_partial(seq![c], rest)) by {
                    if rest.len() > 0 {
                        assert(seq![suffix[0]] + rest[0] =~= seq![c] + rest[0]);
                    } else {
                        assert(seq![suffix[0]] =~= seq![c]);
                    }
                }
                lemma_lines_extend(partial, c, rest);
                assert(s@.subrange(line_start as int, i as int) =~= partial.push(c));
            }
        }
    }
    let ghost partial = s@.subrange(line_start as int, n as int);
    proof {
        assert(s@.subrange(n as int, n as int) =~= Seq::<char>::empty());
    }
    if line_start < n {
        let line = s.substring_char(line_start, n);
        r.push(line.to_owned());
        proof {
            assert(lines_with_partial(partial, Seq::empty()) =~= seq![partial]);
        }
    }
    r
}

} // verus!
