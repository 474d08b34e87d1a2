//! Naming of automatic output files: a short token made from the command.
use vstd::prelude::*;

use crate::text::{
    append_chars, chars_equal, chars_of, is_white, is_white_char, string_of, trim, trim_bounds, trim_start,
};

verus! {

/// `s` without any number of leading `$ ` prompts.
pub open spec fn strip_prompts(s: Seq<char>) -> Seq<char>
    decreases s.len(),
{
    if s.len() >= 2 && s[0] == '$' && s[1] == ' ' {
        strip_prompts(s.skip(2))
    } else {
        s
    }
}

/// The run of non-white characters at the start of `s`.
pub open spec fn leading_word(s: Seq<char>) -> Seq<char>
    decreases s.len(),
{
    if s.len() > 0 && !is_white(s[0]) {
        seq![s[0]] + leading_word(s.drop_first())
    } else {
        Seq::empty()
    }
}

/// The first two white-space separated words of `s`, joined by `_`.
pub open spec fn first_two_words(s: Seq<char>) -> Seq<char> {
    let t1 = trim_start(s);
    let w1 = leading_word(t1);
    let t2 = trim_start(t1.skip(w1.len() as int));
    let w2 = leading_word(t2);
    if w1.len() == 0 {
        Seq::empty()
    } else if w2.len() == 0 {
        w1
    } else {
        w1 + seq!['_'] + w2
    }
}

pub open spec fn is_ascii_alnum(c: char) -> bool {
    let u = c as u32;
    (48 <= u && u <= 57) || (65 <= u && u <= 90) || (97 <= u && u <= 122)
}

/// ASCII letters and digits kept; every run of other characters made one `_`.
pub open spec fn squeeze(s: Seq<char>) -> Seq<char>
    decreases s.len(),
{
    if s.len() == 0 {
        s
    } else {
        let p = squeeze(s.drop_last());
        if is_ascii_alnum(s.last()) {
            p.push(s.last())
        } else if p.len() > 0 && p.last() == '_' {
            p
        } else {
            p.push('_')
        }
    }
}

/// `s` without leading `_`.
pub open spec fn strip_lead_us(s: Seq<char>) -> Seq<char>
    decreases s.len(),
{
    if s.len() > 0 && s[0] == '_' {
        strip_lead_us(s.drop_first())
    } else {
        s
    }
}

/// `s` without trailing `_`.
pub open spec fn strip_trail_us(s: Seq<char>) -> Seq<char>
    decreases s.len(),
{
    if s.len() > 0 && s.last() == '_' {
        strip_trail_us(s.drop_last())
    } else {
        s
    }
}

pub open spec fn ascii_lower(c: char) -> char {
    let u = c as u32;
    if 65 <= u && u <= 90 {
        (u + 32) as char
    } else {
        c
    }
}

pub open spec fn lower_all(s: Seq<char>) -> Seq<char> {
    s.map_values(|c: char| ascii_lower(c))
}

/// The longest token kept.
pub const TOKEN_MAX: usize = 32;

/// ASCII letters and digits of `w`, lower case, other runs as one `_`, no `_` at either end.
pub open spec fn clean_token(w: Seq<char>) -> Seq<char> {
    lower_all(strip_trail_us(strip_lead_us(squeeze(w))))
}

/// The cleaned first word of a shell's shebang or path: `/usr/bin/env` or `/bin/bash`.
pub open spec fn names_shell(t: Seq<char>) -> bool {
    t == seq!['u', 's', 'r', '_', 'b', 'i', 'n', '_', 'e', 'n', 'v'] || t == seq![
        'b',
        'i',
        'n',
        '_',
        'b',
        'a',
        's',
        'h',
    ]
}

/// The short, file-name friendly token for a command: `bash_script` where its first word names
/// a shell (a script's shebang); else its first two words, lower case, ASCII letters and digits
/// only, `cmd` where nothing is left, at most 32 characters.
pub open spec fn command_token_of(s: Seq<char>) -> Seq<char> {
    let base = strip_prompts(trim(s));
    if names_shell(clean_token(leading_word(trim_start(base)))) {
        seq!['b', 'a', 's', 'h', '_', 's', 'c', 'r', 'i', 'p', 't']
    } else {
        let clean = clean_token(first_two_words(base));
        let token = if clean.len() == 0 {
            seq!['c', 'm', 'd']
        } else {
            clean
        };
        if token.len() > TOKEN_MAX {
            token.take(TOKEN_MAX as int)
        } else {
            token
        }
    }
}

fn lower_char(c: char) -> (r: char)
    ensures
        r == ascii_lower(c),
{
    let u = c as u32;
    if 65 <= u && u <= 90 {
        ((u + 32) as u8) as char
    } else {
        c
    }
}

fn is_ascii_alnum_char(c: char) -> (r: bool)
    ensures
        r == is_ascii_alnum(c),
{
    let u = c as u32;
    (48 <= u && u <= 57) || (65 <= u && u <= 90) || (97 <= u && u <= 122)
}

/// Where the text from `lo` up to `hi` begins once leading `$ ` prompts are dropped.
fn skip_prompts(v: &Vec<char>, lo: usize, hi: usize) -> (r: usize)
    requires
        lo <= hi <= v.len(),
    ensures
        lo <= r <= hi,
        v@.subrange(r as int, hi as int) == strip_prompts(v@.subrange(lo as int, hi as int)),
{
    let mut i = lo;
    while hi - i >= 2 && v[i] == '$' && v[i + 1] == ' '
        invariant
            lo <= i <= hi <= v.len(),
            strip_prompts(v@.subrange(lo as int, hi as int)) == strip_prompts(
                v@.subrange(i as int, hi as int),
            ),
        decreases hi - i,
    {
        assert(v@.subrange(i as int, hi as int).skip(2) =~= v@.subrange(i + 2, hi as int));
        i = i + 2;
    }
    i
}

/// Where the text from `lo` up to `hi` begins once leading white space is dropped.
fn skip_white(v: &Vec<char>, lo: usize, hi: usize) -> (r: usize)
    requires
        lo <= hi <= v.len(),
    ensures
        lo <= r <= hi,
        v@.subrange(r as int, hi as int) == trim_start(v@.subrange(lo as int, hi as int)),
{
    let mut i = lo;
    while i < hi && is_white_char(v[i])
        invariant
            lo <= i <= hi <= v.len(),
            trim_start(v@.subrange(lo as int, hi as int)) == trim_start(
                v@.subrange(i as int, hi as int),
            ),
        decreases hi - i,
    {
        assert(v@.subrange(i as int, hi as int).drop_first() =~= v@.subrange(i + 1, hi as int));
        i = i + 1;
    }
    i
}

/// Where the word that starts at `lo` ends.
fn word_end(v: &Vec<char>, lo: usize, hi: usize) -> (r: usize)
    requires
        lo <= hi <= v.len(),
    ensures
        lo <= r <= hi,
        v@.subrange(lo as int, r as int) == leading_word(v@.subrange(lo as int, hi as int)),
{
    let mut i = lo;
    while i < hi && !is_white_char(v[i])
        invariant
            lo <= i <= hi <= v.len(),
            leading_word(v@.subrange(lo as int, hi as int)) == v@.subrange(lo as int, i as int)
                + leading_word(v@.subrange(i as int, hi as int)),
        decreases hi - i,
    {
        let ghost rest = v@.subrange(i as int, hi as int);
        assert(rest.drop_first() =~= v@.subrange(i + 1, hi as int));
        assert(v@.subrange(lo as int, i as int) + (seq![rest[0]] + leading_word(rest.drop_first()))
            =~= v@.subrange(lo as int, i + 1) + leading_word(v@.subrange(i + 1, hi as int)));
        i = i + 1;
    }
    assert(leading_word(v@.subrange(i as int, hi as int)) =~= Seq::<char>::empty());
    assert(v@.subrange(lo as int, i as int) + Seq::<char>::empty() =~= v@.subrange(
        lo as int,
        i as int,
    ));
    i
}

/// The first two words of the text from `lo` up to `hi`, joined by `_`.
fn two_words(v: &Vec<char>, lo: usize, hi: usize) -> (r: Vec<char>)
    requires
        lo <= hi <= v.len(),
    ensures
        r@ == first_two_words(v@.subrange(lo as int, hi as int)),
{
    let ghost s = v@.subrange(lo as int, hi as int);
    let a = skip_white(v, lo, hi);
    let b = word_end(v, a, hi);
    let ghost t1 = v@.subrange(a as int, hi as int);
    assert(t1.skip(b - a) =~= v@.subrange(b as int, hi as int));
    let c = skip_white(v, b, hi);
    let d = word_end(v, c, hi);
    let mut out: Vec<char> = Vec::new();
    if a < b {
        let mut i = a;
        while i < b
            invariant
                a <= i <= b <= hi <= v.len(),
                out@ == v@.subrange(a as int, i as int),
            decreases b - i,
        {
            out.push(v[i]);
            i = i + 1;
            assert(out@ =~= v@.subrange(a as int, i as int));
        }
        if c < d {
            out.push('_');
            let ghost w1 = out@;
            let mut j = c;
            while j < d
                invariant
                    c <= j <= d <= hi <= v.len(),
                    out@ == w1 + v@.subrange(c as int, j as int),
                decreases d - j,
            {
                out.push(v[j]);
                j = j + 1;
                assert(out@ =~= w1 + v@.subrange(c as int, j as int));
            }
        }
    }
    out
}

/// ASCII letters and digits kept, every run of other characters made one `_`.
fn squeeze_exec(w: &Vec<char>) -> (r: Vec<char>)
    ensures
        r@ == squeeze(w@),
{
    let mut out: Vec<char> = Vec::new();
    let mut i: usize = 0;
    assert(w@.take(0) =~= Seq::<char>::empty());
    while i < w.len()
        invariant
            0 <= i <= w.len(),
            out@ == squeeze(w@.take(i as int)),
        decreases w.len() - i,
    {
        assert(w@.take(i + 1).drop_last() =~= w@.take(i as int));
        let c = w[i];
        if is_ascii_alnum_char(c) {
            out.push(c);
        } else if out.len() > 0 && out[out.len() - 1] == '_' {
        } else {
            out.push('_');
        }
        i = i + 1;
    }
    assert(w@.take(w.len() as int) =~= w@);
    out
}

/// The bounds of `w` without leading and trailing `_`.
fn underscore_bounds(w: &Vec<char>) -> (r: (usize, usize))
    ensures
        r.0 <= r.1 <= w.len(),
        w@.subrange(r.0 as int, r.1 as int) == strip_trail_us(strip_lead_us(w@)),
{
    let mut i: usize = 0;
    assert(w@.subrange(0, w.len() as int) =~= w@);
    while i < w.len() && w[i] == '_'
        invariant
            0 <= i <= w.len(),
            strip_lead_us(w@) == strip_lead_us(w@.subrange(i as int, w.len() as int)),
        decreases w.len() - i,
    {
        assert(w@.subrange(i as int, w.len() as int).drop_first() =~= w@.subrange(
            i + 1,
            w.len() as int,
        ));
        i = i + 1;
    }
    let mut j: usize = w.len();
    while j > i && w[j - 1] == '_'
        invariant
            0 <= i <= j <= w.len(),
            strip_lead_us(w@) == w@.subrange(i as int, w.len() as int),
            strip_trail_us(w@.subrange(i as int, w.len() as int)) == strip_trail_us(
                w@.subrange(i as int, j as int),
            ),
        decreases j - i,
    {
        assert(w@.subrange(i as int, j as int).drop_last() =~= w@.subrange(i as int, j - 1));
        j = j - 1;
    }
    (i, j)
}

/// A short, file-name friendly token for a command, for naming its output file.
pub fn command_token(s: &str) -> (r: String)
    ensures
        r@ == command_token_of(s@),
{
    let v = chars_of(s);
    let (lo, hi) = trim_bounds(&v, 0, v.len());
    assert(v@.subrange(0, v.len() as int) =~= v@);
    let start = skip_prompts(&v, lo, hi);
    let a = skip_white(&v, start, hi);
    let b = word_end(&v, a, hi);
    let first = clean_exec(&crate::text::sub_chars(&v, a, b));
    let env_token = vec!['u', 's', 'r', '_', 'b', 'i', 'n', '_', 'e', 'n', 'v'];
    let bash_token = vec!['b', 'i', 'n', '_', 'b', 'a', 's', 'h'];
    assert(env_token@ =~= seq!['u', 's', 'r', '_', 'b', 'i', 'n', '_', 'e', 'n', 'v']);
    assert(bash_token@ =~= seq!['b', 'i', 'n', '_', 'b', 'a', 's', 'h']);
    let n = first.len();
    assert(first@.subrange(0, n as int) =~= first@);
    if chars_equal(&first, 0, n, &env_token) || chars_equal(&first, 0, n, &bash_token) {
        let token = vec!['b', 'a', 's', 'h', '_', 's', 'c', 'r', 'i', 'p', 't'];
        assert(token@ =~= seq!['b', 'a', 's', 'h', '_', 's', 'c', 'r', 'i', 'p', 't']);
        return string_of(&token);
    }
    let words = two_words(&v, start, hi);
    let mut token = clean_exec(&words);
    if token.len() == 0 {
        token = vec!['c', 'm', 'd'];
        assert(token@ =~= seq!['c', 'm', 'd']);
    }
    if token.len() > TOKEN_MAX {
        token.truncate(TOKEN_MAX);
    }
    string_of(&token)
}

/// The cleaned token of `w`.
fn clean_exec(w: &Vec<char>) -> (r: Vec<char>)
    ensures
        r@ == clean_token(w@),
{
    let squeezed = squeeze_exec(w);
    let (a, b) = underscore_bounds(&squeezed);
    let mut token: Vec<char> = Vec::new();
    let mut i = a;
    while i < b
        invariant
            a <= i <= b <= squeezed.len(),
            token@ == lower_all(squeezed@.subrange(a as int, i as int)),
        decreases b - i,
    {
        token.push(lower_char(squeezed[i]));
        i = i + 1;
        assert(token@ =~= lower_all(squeezed@.subrange(a as int, i as int)));
    }
    token
}

/// The file name of an automatic output file: the time of day, the command's token, `.rommy`.
pub open spec fn auto_file_name_of(hms: Seq<char>, cmd_display: Seq<char>) -> Seq<char> {
    hms + seq!['.'] + command_token_of(cmd_display) + ".rommy"@
}

/// The file name of an automatic output file, from the time of day (`HHMMSS`) and the command.
pub fn auto_file_name(hms: &str, cmd_display: &str) -> (r: String)
    ensures
        r@ == auto_file_name_of(hms@, cmd_display@),
{
    let mut out = chars_of(hms);
    out.push('.');
    append_chars(&mut out, &chars_of(command_token(cmd_display).as_str()));
    append_chars(&mut out, &chars_of(".rommy"));
    assert(out@ =~= auto_file_name_of(hms@, cmd_display@));
    string_of(&out)
}


/// Where the directory for automatic output files comes from.
pub enum RootDir {
    /// `ROMMY_ROOT`, as it is.
    Explicit(String),
    /// `rommy` under `XDG_STATE_HOME`.
    StateHome(String),
    /// `Library/Application Support/Rommy` under the home directory.
    MacHome,
    /// `Rommy` under `LOCALAPPDATA`.
    LocalAppData(String),
    /// `AppData/Local/Rommy` under `USERPROFILE`.
    UserProfile(String),
    /// `.local/state/rommy` under the home directory.
    Home,
}

/// The first source that applies: `ROMMY_ROOT`, then `XDG_STATE_HOME`, then the platform's own
/// place, and the home directory last.
pub open spec fn root_dir_of(
    rommy_root: Option<String>,
    xdg_state_home: Option<String>,
    is_macos: bool,
    is_windows: bool,
    local_app_data: Option<String>,
    user_profile: Option<String>,
) -> RootDir {
    match rommy_root {
        Some(r) => RootDir::Explicit(r),
        None => match xdg_state_home {
            Some(x) => RootDir::StateHome(x),
            None => if is_macos {
                RootDir::MacHome
            } else if is_windows && local_app_data is Some {
                RootDir::LocalAppData(local_app_data->Some_0)
            } else if is_windows && user_profile is Some {
                RootDir::UserProfile(user_profile->Some_0)
            } else {
                RootDir::Home
            },
        },
    }
}

/// Chooses where automatic output files go, from the environment values read by the caller.
pub fn root_dir_source(
    rommy_root: Option<String>,
    xdg_state_home: Option<String>,
    is_macos: bool,
    is_windows: bool,
    local_app_data: Option<String>,
    user_profile: Option<String>,
) -> (r: RootDir)
    ensures
        r == root_dir_of(
            rommy_root,
            xdg_state_home,
            is_macos,
            is_windows,
            local_app_data,
            user_profile,
        ),
{
    match rommy_root {
        Some(r) => RootDir::Explicit(r),
        None => match xdg_state_home {
            Some(x) => RootDir::StateHome(x),
            None => if is_macos {
                RootDir::MacHome
            } else if is_windows && local_app_data.is_some() {
                match local_app_data {
                    Some(a) => RootDir::LocalAppData(a),
                    None => RootDir::Home,
                }
            } else if is_windows && user_profile.is_some() {
                match user_profile {
                    Some(u) => RootDir::UserProfile(u),
                    None => RootDir::Home,
                }
            } else {
                RootDir::Home
            },
        },
    }
}

} // verus!
