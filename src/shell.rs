//! Quoting command arguments for a POSIX shell.
use vstd::prelude::*;

use crate::text::{chars_of, string_of};

verus! {

/// How one character is written inside single quotes: `'` becomes `'\''`.
pub open spec fn quoted_char(c: char) -> Seq<char> {
    if c == '\'' {
        seq!['\'', '\\', '\'', '\'']
    } else {
        seq![c]
    }
}

pub open spec fn quote_body(s: Seq<char>) -> Seq<char>
    decreases s.len(),
{
    if s.len() == 0 {
        Seq::empty()
    } else {
        quote_body(s.drop_last()) + quoted_char(s.last())
    }
}

/// `s` in single quotes, as one shell word.
pub open spec fn shell_quoted(s: Seq<char>) -> Seq<char> {
    seq!['\''] + quote_body(s) + seq!['\'']
}

/// The words quoted and joined by single spaces.
pub open spec fn shell_line(parts: Seq<Seq<char>>) -> Seq<char>
    decreases parts.len(),
{
    if parts.len() == 0 {
        Seq::empty()
    } else if parts.len() == 1 {
        shell_quoted(parts[0])
    } else {
        shell_line(parts.drop_last()) + seq![' '] + shell_quoted(parts.last())
    }
}

fn push_quoted(out: &mut Vec<char>, s: &str)
    ensures
        final(out)@ == old(out)@ + shell_quoted(s@),
{
    let v = chars_of(s);
    out.push('\'');
    let ghost start = out@;
    let mut i: usize = 0;
    assert(v@.take(0) =~= Seq::<char>::empty());
    while i < v.len()
        invariant
            0 <= i <= v.len(),
            out@ == start + quote_body(v@.take(i as int)),
        decreases v.len() - i,
    {
        assert(v@.take(i + 1).drop_last() =~= v@.take(i as int));
        if v[i] == '\'' {
            out.push('\'');
            out.push('\\');
            out.push('\'');
            out.push('\'');
        } else {
            out.push(v[i]);
        }
        i = i + 1;
        assert(out@ =~= start + quote_body(v@.take(i as int)));
    }
    assert(v@.take(v.len() as int) =~= s@);
    out.push('\'');
    assert(out@ =~= old(out)@ + shell_quoted(s@));
}

/// `s` as one single-quoted shell word.
pub fn shell_escape(s: &str) -> (r: String)
    ensures
        r@ == shell_quoted(s@),
{
    let mut out: Vec<char> = Vec::new();
    push_quoted(&mut out, s);
    assert(out@ =~= shell_quoted(s@));
    string_of(&out)
}

/// The arguments as one shell command line: each single-quoted, separated by spaces.
pub fn shell_join(parts: &Vec<String>) -> (r: String)
    ensures
        r@ == shell_line(parts@.map_values(|p: String| p@)),
{
    let ghost words = parts@.map_values(|p: String| p@);
    let mut out: Vec<char> = Vec::new();
    let mut i: usize = 0;
    assert(words.take(0) =~= Seq::<Seq<char>>::empty());
    while i < parts.len()
        invariant
            0 <= i <= parts.len(),
            words == parts@.map_values(|p: String| p@),
            out@ == shell_line(words.take(i as int)),
        decreases parts.len() - i,
    {
        assert(words.take(i + 1).drop_last() =~= words.take(i as int));
        assert(words.take(i + 1).last() == parts@[i as int]@);
        if i > 0 {
            out.push(' ');
        }
        push_quoted(&mut out, parts[i].as_str());
        if i == 0 {
            assert(words.take(1)[0] == parts@[0]@);
            assert(out@ =~= shell_line(words.take(1)));
        }
        i = i + 1;
    }
    assert(words.take(parts.len() as int) =~= words);
    string_of(&out)
}

} // verus!
