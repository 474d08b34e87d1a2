//! Decisions around editing a scratch script: the editor's wait flag, and whether the script has content.
use vstd::prelude::*;

use crate::text::{chars_equal, chars_of, line_split, split_lines, trim, trim_bounds};

verus! {

/// Whether `n` occurs in `h`.
pub open spec fn contains_seq(h: Seq<char>, n: Seq<char>) -> bool {
    exists|i: int| 0 <= i <= h.len() - n.len() && #[trigger] h.subrange(i, i + n.len()) == n
}

/// Whether `n` occurs in `h`.
pub fn contains_chars(h: &Vec<char>, n: &Vec<char>) -> (r: bool)
    ensures
        r == contains_seq(h@, n@),
{
    if n.len() > h.len() {
        return false;
    }
    let last = h.len() - n.len();
    let mut i: usize = 0;
    while i < last
        invariant
            last == h.len() - n.len(),
            0 <= i <= last,
            forall|j: int| 0 <= j < i ==> #[trigger] h@.subrange(j, j + n.len()) != n@,
        decreases last - i,
    {
        if chars_equal(h, i, i + n.len(), n) {
            assert(h@.subrange(i as int, i + n.len()) == n@);
            return true;
        }
        i = i + 1;
    }
    let r = chars_equal(h, last, h.len(), n);
    proof {
        assert(last + n.len() == h.len());
        if r {
            assert(h@.subrange(last as int, last + n.len()) == n@);
        } else {
            assert forall|j: int| 0 <= j <= h.len() - n.len() implies #[trigger] h@.subrange(
                j,
                j + n.len(),
            ) != n@ by {
                if j == last {
                    assert(last + n.len() == h.len());
                }
            }
        }
    }
    r
}

/// The text that `str::to_lowercase` makes of `s`.
pub uninterp spec fn lower_of(s: Seq<char>) -> Seq<char>;

/// Relies on `str::to_lowercase`: the lower-case text depends on the characters of `s` alone.
#[verifier::external_body]
fn lowercase(s: &str) -> (r: String)
    ensures
        r@ == lower_of(s@),
{
    s.to_lowercase()
}

/// The flags that keep an editor, named in lower case, from returning before its window closes.
pub open spec fn wait_flags(lowered: Seq<char>) -> Seq<Seq<char>> {
    if contains_seq(lowered, "code"@) || contains_seq(lowered, "codium"@) {
        seq!["--wait"@]
    } else if contains_seq(lowered, "subl"@) || contains_seq(lowered, "sublime_text"@) {
        seq!["-w"@]
    } else if contains_seq(lowered, "gedit"@) {
        seq!["--wait"@]
    } else {
        Seq::empty()
    }
}

/// The wait flags for an editor command already in lower case.
pub fn wait_args_for_lowered(lowered: &str) -> (r: Vec<String>)
    ensures
        r@.map_values(|a: String| a@) == wait_flags(lowered@),
{
    let l = chars_of(lowered);
    let r = if contains_chars(&l, &chars_of("code")) || contains_chars(&l, &chars_of("codium")) {
        vec!["--wait".to_owned()]
    } else if contains_chars(&l, &chars_of("subl")) || contains_chars(
        &l,
        &chars_of("sublime_text"),
    ) {
        vec!["-w".to_owned()]
    } else if contains_chars(&l, &chars_of("gedit")) {
        vec!["--wait".to_owned()]
    } else {
        Vec::new()
    };
    assert(r@.map_values(|a: String| a@) =~= wait_flags(lowered@));
    r
}

/// The flags that keep the given editor from returning before its window closes.
pub fn editor_wait_args(editor_cmd: &str) -> (r: Vec<String>)
    ensures
        r@.map_values(|a: String| a@) == wait_flags(lower_of(editor_cmd@)),
{
    let lowered = lowercase(editor_cmd);
    wait_args_for_lowered(lowered.as_str())
}

/// A line that is neither blank nor a comment.
pub open spec fn real_line(l: Seq<char>) -> bool {
    trim(l).len() > 0 && trim(l)[0] != '#'
}

/// Some line of `s` is neither blank nor a comment.
pub open spec fn has_real_line(s: Seq<char>) -> bool {
    exists|i: int| 0 <= i < split_lines(s).len() && real_line(#[trigger] split_lines(s)[i])
}

fn real_line_at(v: &Vec<char>, lo: usize, hi: usize) -> (r: bool)
    requires
        lo <= hi <= v.len(),
    ensures
        r == real_line(v@.subrange(lo as int, hi as int)),
{
    let (a, b) = trim_bounds(v, lo, hi);
    a < b && v[a] != '#'
}

/// Whether a script holds a line that is neither blank nor a comment.
pub fn has_real_content(content: &str) -> (r: bool)
    ensures
        r == has_real_line(content@),
{
    let v = chars_of(content);
    let mut start: usize = 0;
    let mut i: usize = 0;
    let mut found = false;
    let ghost mut lines: Seq<Seq<char>> = Seq::empty();
    assert(v@.subrange(0, 0) =~= Seq::<char>::empty());
    while i < v.len()
        invariant
            0 <= start <= i <= v.len(),
            line_split(v@.subrange(0, i as int)) == (lines, v@.subrange(start as int, i as int)),
            found == exists|j: int| 0 <= j < lines.len() && real_line(#[trigger] lines[j]),
        decreases v.len() - i,
    {
        assert(v@.subrange(0, i + 1).drop_last() =~= v@.subrange(0, i as int));
        if v[i] == '\n' {
            let e = crate::text::line_end(&v, start, i);
            let ghost line = v@.subrange(start as int, e as int);
            let here = real_line_at(&v, start, e);
            proof {
                let old_lines = lines;
                lines = lines.push(line);
                assert(forall|j: int| 0 <= j < old_lines.len() ==> lines[j] == old_lines[j]);
                if here {
                    assert(real_line(lines[lines.len() - 1]));
                }
            }
            found = found || here;
            start = i + 1;
            assert(v@.subrange(start as int, start as int) =~= Seq::<char>::empty());
        } else {
            assert(v@.subrange(start as int, i + 1) =~= v@.subrange(start as int, i as int).push(
                v@[i as int],
            ));
        }
        i = i + 1;
    }
    assert(v@.subrange(0, v.len() as int) =~= v@);
    if start < v.len() {
        let ghost line = v@.subrange(start as int, v.len() as int);
        let here = real_line_at(&v, start, v.len());
        proof {
            let old_lines = lines;
            lines = lines.push(line);
            assert(forall|j: int| 0 <= j < old_lines.len() ==> lines[j] == old_lines[j]);
            if here {
                assert(real_line(lines[lines.len() - 1]));
            }
        }
        found = found || here;
    }
    assert(split_lines(content@) == lines);
    found
}

} // verus!
