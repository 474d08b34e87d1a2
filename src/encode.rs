//! Writing one run as a record: META, COMMAND, STDOUT and STDERR blocks.
use vstd::prelude::*;

use crate::parser::{begin_chars, begin_marker, end_chars, end_marker, Block};
use crate::text::{append_chars, chars_of, string_of};
use vstd::utf8::{decode_utf8, encode_utf8};

verus! {

/// The command that was run.
pub enum RommyCommand {
    /// A single shell command line.
    Line(String),
    /// A script: its absolute path, and the text shown for it (a shebang line, then its source).
    Script { path: String, content: String },
}

/// An instant in UTC: seconds since the Unix epoch and the nanoseconds within that second.
#[derive(Clone, Copy, Debug, PartialEq, Eq, Structural)]
pub struct Timestamp {
    pub secs: i64,
    pub nanos: u32,
}

/// How far from 1970 a timestamp may lie: a little over 250,000 years.
pub const MAX_TIMESTAMP_SECS: i64 = 8_000_000_000_000;

impl Timestamp {
    pub open spec fn wf(self) -> bool {
        &&& self.nanos < 1_000_000_000
        &&& -MAX_TIMESTAMP_SECS <= self.secs <= MAX_TIMESTAMP_SECS
    }

    pub open spec fn total_nanos(self) -> int {
        self.secs * 1_000_000_000 + self.nanos
    }
}

/// One finished run, ready to be written.
pub struct RunRecord {
    pub tool_version: String,
    pub label: Option<String>,
    pub cwd: String,
    pub user: Option<String>,
    pub host: Option<String>,
    pub command: RommyCommand,
    pub start: Timestamp,
    pub end: Timestamp,
    pub output_path: String,
    pub exit_code: i32,
    pub stdout: Vec<u8>,
    pub stderr: Vec<u8>,
}

/// The RFC 3339 text that chrono gives for an instant.
pub uninterp spec fn rfc3339_text(secs: int, nanos: int) -> Seq<char>;

/// Relies on chrono's `DateTime::<Utc>::from_timestamp`, which yields a value for every such
/// instant (day count within `i32`, nanoseconds below one second), and on `DateTime::to_rfc3339`,
/// whose text depends on that instant alone.
#[verifier::external_body]
pub(crate) fn rfc3339_of(secs: i64, nanos: u32) -> (r: String)
    requires
        -MAX_TIMESTAMP_SECS <= secs <= MAX_TIMESTAMP_SECS,
        nanos < 1_000_000_000,
    ensures
        r@ == rfc3339_text(secs as int, nanos as int),
{
    match chrono::DateTime::<chrono::Utc>::from_timestamp(secs, nanos) {
        Some(d) => d.to_rfc3339(),
        None => String::new(),
    }
}

/// Whole milliseconds from `start` to `end`, rounded toward zero.
pub open spec fn duration_ms(start: Timestamp, end: Timestamp) -> int {
    let d = end.total_nanos() - start.total_nanos();
    if d >= 0 {
        d / 1_000_000
    } else {
        -((-d) / 1_000_000)
    }
}

proof fn lemma_nanos_bound(t: Timestamp)
    requires
        t.wf(),
    ensures
        -8_000_000_000_000_000_000_000 <= t.total_nanos() <= 8_000_000_001_000_000_000_000,
{
    assert(-8_000_000_000_000_000_000_000 <= t.secs * 1_000_000_000 <= 8_000_000_000_000_000_000_000)
        by (nonlinear_arith)
        requires
            -8_000_000_000_000 <= t.secs <= 8_000_000_000_000,
    ;
}

/// Whole milliseconds from `start` to `end`, rounded toward zero.
pub fn elapsed_ms(start: Timestamp, end: Timestamp) -> (r: i64)
    requires
        start.wf(),
        end.wf(),
    ensures
        r == duration_ms(start, end),
{
    proof {
        lemma_nanos_bound(start);
        lemma_nanos_bound(end);
    }
    let s: i128 = start.secs as i128 * 1_000_000_000 + start.nanos as i128;
    let e: i128 = end.secs as i128 * 1_000_000_000 + end.nanos as i128;
    if e >= s {
        let d: u128 = (e - s) as u128;
        let q: u128 = d / 1_000_000;
        assert(q <= 17_000_000_000_000_000u128) by (nonlinear_arith)
            requires
                q == d / 1_000_000,
                d <= 17_000_000_000_000_000_000_000u128,
        ;
        q as i64
    } else {
        let d: u128 = (s - e) as u128;
        let q: u128 = d / 1_000_000;
        assert(q <= 17_000_000_000_000_000u128) by (nonlinear_arith)
            requires
                q == d / 1_000_000,
                d <= 17_000_000_000_000_000_000_000u128,
        ;
        -(q as i64)
    }
}

pub open spec fn digit_char(d: int) -> char {
    if d == 0 {
        '0'
    } else if d == 1 {
        '1'
    } else if d == 2 {
        '2'
    } else if d == 3 {
        '3'
    } else if d == 4 {
        '4'
    } else if d == 5 {
        '5'
    } else if d == 6 {
        '6'
    } else if d == 7 {
        '7'
    } else if d == 8 {
        '8'
    } else {
        '9'
    }
}

/// The decimal digits of `n`.
pub open spec fn digits(n: nat) -> Seq<char>
    decreases n,
{
    if n < 10 {
        seq![digit_char(n as int)]
    } else {
        digits(n / 10).push(digit_char((n % 10) as int))
    }
}

/// `n` in decimal, with a leading `-` where it is negative.
pub open spec fn decimal(n: int) -> Seq<char> {
    if n < 0 {
        seq!['-'] + digits((-n) as nat)
    } else {
        digits(n as nat)
    }
}

fn digit_of(d: u128) -> (c: char)
    requires
        d < 10,
    ensures
        c == digit_char(d as int),
{
    match d {
        0 => '0',
        1 => '1',
        2 => '2',
        3 => '3',
        4 => '4',
        5 => '5',
        6 => '6',
        7 => '7',
        8 => '8',
        _ => '9',
    }
}

/// Appends the decimal digits of `n`.
pub fn push_digits(out: &mut Vec<char>, n: u128)
    ensures
        final(out)@ == old(out)@ + digits(n as nat),
    decreases n,
{
    if n >= 10 {
        push_digits(out, n / 10);
    }
    out.push(digit_of(n % 10));
    assert(out@ =~= old(out)@ + digits(n as nat));
}

/// Appends `n` in decimal.
pub fn push_decimal(out: &mut Vec<char>, n: i64)
    ensures
        final(out)@ == old(out)@ + decimal(n as int),
{
    if n < 0 {
        out.push('-');
        let m: u128 = (-(n as i128)) as u128;
        push_digits(out, m);
        assert(out@ =~= old(out)@ + decimal(n as int));
    } else {
        push_digits(out, n as u128);
    }
}

/// `t` followed by a line end, unless it is empty or already ends with one.
pub open spec fn terminated(t: Seq<char>) -> Seq<char> {
    if t.len() > 0 && t.last() != '\n' {
        t.push('\n')
    } else {
        t
    }
}

/// Each line followed by `\n`.
pub open spec fn lines_text(ls: Seq<Seq<char>>) -> Seq<char>
    decreases ls.len(),
{
    if ls.len() == 0 {
        Seq::empty()
    } else {
        lines_text(ls.drop_last()) + ls.last() + seq!['\n']
    }
}

pub open spec fn meta_entry(key: Seq<char>, value: Seq<char>) -> Seq<char> {
    key + ": "@ + value
}

pub open spec fn optional_entry(key: Seq<char>, value: Option<String>) -> Seq<Seq<char>> {
    match value {
        Some(v) => seq![meta_entry(key, v@)],
        None => Seq::empty(),
    }
}

pub open spec fn command_entry(c: RommyCommand) -> Seq<char> {
    match c {
        RommyCommand::Line(l) => meta_entry("command_line"@, l@),
        RommyCommand::Script { path, .. } => meta_entry("script_path"@, path@),
    }
}

/// The COMMAND block's text: `$ ` and the line, or the script's text.
pub open spec fn command_body(c: RommyCommand) -> Seq<char> {
    match c {
        RommyCommand::Line(l) => "$ "@ + l@ + seq!['\n'],
        RommyCommand::Script { content, .. } => content@,
    }
}

pub open spec fn status_text(exit_code: int) -> Seq<char> {
    if exit_code == 0 {
        "ok"@
    } else {
        "error"@
    }
}

/// The META lines, in the order they are written.
pub open spec fn meta_lines(r: RunRecord) -> Seq<Seq<char>> {
    seq![meta_entry("rommy_version"@, r.tool_version@)] + optional_entry("label"@, r.label)
        + seq![meta_entry("cwd"@, r.cwd@)] + optional_entry("user"@, r.user) + optional_entry(
        "host"@,
        r.host,
    ) + seq![
        command_entry(r.command),
        meta_entry("start_ts"@, rfc3339_text(r.start.secs as int, r.start.nanos as int)),
        meta_entry("end_ts"@, rfc3339_text(r.end.secs as int, r.end.nanos as int)),
        meta_entry("duration_ms"@, decimal(duration_ms(r.start, r.end))),
        meta_entry("output_path"@, r.output_path@),
        meta_entry("status"@, status_text(r.exit_code as int)),
        meta_entry("exit_code"@, decimal(r.exit_code as int)),
    ]
}

/// `b` followed by a `\n` byte, unless it is empty or already ends with one.
pub open spec fn terminated_bytes(b: Seq<u8>) -> Seq<u8> {
    if b.len() > 0 && b.last() != 10 {
        b.push(10)
    } else {
        b
    }
}

/// The text of a record up to its STDOUT marker line.
pub open spec fn head_text(r: RunRecord) -> Seq<char> {
    lines_text(seq![begin_marker(Block::Meta)] + meta_lines(r))
        + lines_text(seq![end_marker(), begin_marker(Block::Command)])
        + terminated(command_body(r.command))
        + lines_text(seq![end_marker(), begin_marker(Block::Stdout)])
}

/// The bytes of a record: its text in UTF-8, with the captured stdout and stderr bytes as they
/// are, each followed by a `\n` where it lacks one.
pub open spec fn record_bytes(r: RunRecord) -> Seq<u8> {
    encode_utf8(head_text(r)) + terminated_bytes(r.stdout@) + encode_utf8(
        lines_text(seq![end_marker(), begin_marker(Block::Stderr)]),
    ) + terminated_bytes(r.stderr@) + encode_utf8(lines_text(seq![end_marker()]))
}

/// The text of a record whose stdout and stderr are read as UTF-8.
pub open spec fn record_text(r: RunRecord) -> Seq<char> {
    lines_text(seq![begin_marker(Block::Meta)] + meta_lines(r))
        + lines_text(seq![end_marker(), begin_marker(Block::Command)])
        + terminated(command_body(r.command))
        + lines_text(seq![end_marker(), begin_marker(Block::Stdout)])
        + terminated(decode_utf8(r.stdout@))
        + lines_text(seq![end_marker(), begin_marker(Block::Stderr)])
        + terminated(decode_utf8(r.stderr@))
        + lines_text(seq![end_marker()])
}

/// Appends the UTF-8 bytes of `text`.
fn push_text_bytes(out: &mut Vec<u8>, text: &Vec<char>)
    ensures
        final(out)@ == old(out)@ + encode_utf8(text@),
{
    let s = string_of(text);
    let b = s.as_str().as_bytes();
    let ghost start = out@;
    let mut i: usize = 0;
    while i < b.len()
        invariant
            0 <= i <= b.len(),
            b@ == encode_utf8(text@),
            out@ == start + b@.subrange(0, i as int),
        decreases b.len() - i,
    {
        out.push(b[i]);
        i = i + 1;
        assert(out@ =~= start + b@.subrange(0, i as int));
    }
    assert(b@.subrange(0, b.len() as int) =~= b@);
}

/// Appends `b`, followed by a `\n` byte unless it is empty or ends with one.
fn push_body_bytes(out: &mut Vec<u8>, b: &Vec<u8>)
    ensures
        final(out)@ == old(out)@ + terminated_bytes(b@),
{
    let ghost start = out@;
    let mut i: usize = 0;
    while i < b.len()
        invariant
            0 <= i <= b.len(),
            out@ == start + b@.subrange(0, i as int),
        decreases b.len() - i,
    {
        out.push(b[i]);
        i = i + 1;
        assert(out@ =~= start + b@.subrange(0, i as int));
    }
    assert(b@.subrange(0, b.len() as int) =~= b@);
    if b.len() > 0 && b[b.len() - 1] != 10 {
        out.push(10);
    }
    assert(out@ =~= start + terminated_bytes(b@));
}

/// `key: value` as characters.
fn entry_chars(key: &str, value: &Vec<char>) -> (r: Vec<char>)
    ensures
        r@ == meta_entry(key@, value@),
{
    let mut r = chars_of(key);
    append_chars(&mut r, &chars_of(": "));
    append_chars(&mut r, value);
    r
}

/// Appends `line` and a line end.
fn put_line(out: &mut Vec<char>, line: &Vec<char>, Ghost(ls): Ghost<Seq<Seq<char>>>)
    requires
        old(out)@ == lines_text(ls),
    ensures
        final(out)@ == lines_text(ls.push(line@)),
{
    append_chars(out, line);
    out.push('\n');
    assert(ls.push(line@).drop_last() =~= ls);
    assert(out@ =~= lines_text(ls.push(line@)));
}

/// Appends `key: value` as one line.
fn put_entry(out: &mut Vec<char>, key: &str, value: &Vec<char>, Ghost(ls): Ghost<Seq<Seq<char>>>)
    requires
        old(out)@ == lines_text(ls),
    ensures
        final(out)@ == lines_text(ls.push(meta_entry(key@, value@))),
{
    let e = entry_chars(key, value);
    put_line(out, &e, Ghost(ls));
}

/// Appends `t`, followed by a line end unless it is empty or ends with one.
fn put_body(out: &mut Vec<char>, t: &Vec<char>)
    ensures
        final(out)@ == old(out)@ + terminated(t@),
{
    append_chars(out, t);
    if t.len() > 0 && t[t.len() - 1] != '\n' {
        out.push('\n');
        assert(out@ =~= old(out)@ + terminated(t@));
    } else {
        assert(out@ =~= old(out)@ + terminated(t@));
    }
}

/// Appends the two marker lines that close one block and open the next.
fn put_between(out: &mut Vec<char>, b: Block)
    ensures
        final(out)@ == old(out)@ + lines_text(seq![end_marker(), begin_marker(b)]),
{
    let ghost start = out@;
    let mut part: Vec<char> = Vec::new();
    assert(part@ =~= lines_text(Seq::empty()));
    put_line(&mut part, &end_chars(), Ghost(Seq::empty()));
    put_line(&mut part, &begin_chars(b), Ghost(Seq::<Seq<char>>::empty().push(end_marker())));
    assert(seq![end_marker()].push(begin_marker(b)) =~= seq![end_marker(), begin_marker(b)]);
    assert(Seq::<Seq<char>>::empty().push(end_marker()) =~= seq![end_marker()]);
    append_chars(out, &part);
}

/// The META value of a `Some` field, as characters.
fn optional_entry_exec(
    out: &mut Vec<char>,
    key: &str,
    value: &Option<String>,
    Ghost(ls): Ghost<Seq<Seq<char>>>,
)
    requires
        old(out)@ == lines_text(ls),
    ensures
        final(out)@ == lines_text(ls + optional_entry(key@, *value)),
{
    match value {
        Some(v) => {
            put_entry(out, key, &chars_of(v.as_str()), Ghost(ls));
            assert(ls + optional_entry(key@, *value) =~= ls.push(meta_entry(key@, v@)));
        },
        None => {
            assert(ls + optional_entry(key@, *value) =~= ls);
        },
    }
}

/// The text shown in the COMMAND block for a script: a shebang line, then the script, then a line end.
pub fn script_display(script_text: &str) -> (r: String)
    ensures
        r@ == "#!/usr/bin/env bash\n"@ + script_text@ + "\n"@,
{
    let mut out = chars_of("#!/usr/bin/env bash\n");
    append_chars(&mut out, &chars_of(script_text));
    append_chars(&mut out, &chars_of("\n"));
    string_of(&out)
}

/// The bytes of one record, blocks in the order META, COMMAND, STDOUT, STDERR.
pub fn encode_record(r: &RunRecord) -> (t: Vec<u8>)
    requires
        r.start.wf(),
        r.end.wf(),
    ensures
        t@ == record_bytes(*r),
{
    let mut out: Vec<char> = Vec::new();
    let ghost mut ls: Seq<Seq<char>> = Seq::empty();
    assert(out@ =~= lines_text(ls));
    put_line(&mut out, &begin_chars(Block::Meta), Ghost(ls));
    proof { ls = ls.push(begin_marker(Block::Meta)); }
    let ghost head = ls;
    put_entry(&mut out, "rommy_version", &chars_of(r.tool_version.as_str()), Ghost(ls));
    proof { ls = ls.push(meta_entry("rommy_version"@, r.tool_version@)); }
    optional_entry_exec(&mut out, "label", &r.label, Ghost(ls));
    proof { ls = ls + optional_entry("label"@, r.label); }
    put_entry(&mut out, "cwd", &chars_of(r.cwd.as_str()), Ghost(ls));
    proof { ls = ls.push(meta_entry("cwd"@, r.cwd@)); }
    optional_entry_exec(&mut out, "user", &r.user, Ghost(ls));
    proof { ls = ls + optional_entry("user"@, r.user); }
    optional_entry_exec(&mut out, "host", &r.host, Ghost(ls));
    proof { ls = ls + optional_entry("host"@, r.host); }
    match &r.command {
        RommyCommand::Line(l) => {
            put_entry(&mut out, "command_line", &chars_of(l.as_str()), Ghost(ls));
        },
        RommyCommand::Script { path, .. } => {
            put_entry(&mut out, "script_path", &chars_of(path.as_str()), Ghost(ls));
        },
    }
    proof { ls = ls.push(command_entry(r.command)); }
    let start_text = rfc3339_of(r.start.secs, r.start.nanos);
    put_entry(&mut out, "start_ts", &chars_of(start_text.as_str()), Ghost(ls));
    proof { ls = ls.push(meta_entry("start_ts"@, rfc3339_text(r.start.secs as int, r.start.nanos as int))); }
    let end_text = rfc3339_of(r.end.secs, r.end.nanos);
    put_entry(&mut out, "end_ts", &chars_of(end_text.as_str()), Ghost(ls));
    proof { ls = ls.push(meta_entry("end_ts"@, rfc3339_text(r.end.secs as int, r.end.nanos as int))); }
    let mut dur: Vec<char> = Vec::new();
    push_decimal(&mut dur, elapsed_ms(r.start, r.end));
    assert(dur@ =~= decimal(duration_ms(r.start, r.end)));
    put_entry(&mut out, "duration_ms", &dur, Ghost(ls));
    proof { ls = ls.push(meta_entry("duration_ms"@, decimal(duration_ms(r.start, r.end)))); }
    put_entry(&mut out, "output_path", &chars_of(r.output_path.as_str()), Ghost(ls));
    proof { ls = ls.push(meta_entry("output_path"@, r.output_path@)); }
    let status = if r.exit_code == 0 {
        chars_of("ok")
    } else {
        chars_of("error")
    };
    put_entry(&mut out, "status", &status, Ghost(ls));
    proof { ls = ls.push(meta_entry("status"@, status_text(r.exit_code as int))); }
    let mut code: Vec<char> = Vec::new();
    push_decimal(&mut code, r.exit_code as i64);
    assert(code@ =~= decimal(r.exit_code as int));
    put_entry(&mut out, "exit_code", &code, Ghost(ls));
    proof { ls = ls.push(meta_entry("exit_code"@, decimal(r.exit_code as int))); }
    assert(ls =~= seq![begin_marker(Block::Meta)] + meta_lines(*r));
    put_between(&mut out, Block::Command);
    let cmd = match &r.command {
        RommyCommand::Line(l) => {
            let mut c = chars_of("$ ");
            append_chars(&mut c, &chars_of(l.as_str()));
            c.push('\n');
            c
        },
        RommyCommand::Script { content, .. } => chars_of(content.as_str()),
    };
    assert(cmd@ =~= command_body(r.command));
    put_body(&mut out, &cmd);
    put_between(&mut out, Block::Stdout);
    assert(out@ == head_text(*r));
    let mut bytes: Vec<u8> = Vec::new();
    push_text_bytes(&mut bytes, &out);
    push_body_bytes(&mut bytes, &r.stdout);
    let mut mid: Vec<char> = Vec::new();
    put_between(&mut mid, Block::Stderr);
    assert(mid@ =~= lines_text(seq![end_marker(), begin_marker(Block::Stderr)]));
    push_text_bytes(&mut bytes, &mid);
    push_body_bytes(&mut bytes, &r.stderr);
    let mut tail: Vec<char> = Vec::new();
    assert(tail@ =~= lines_text(Seq::empty()));
    put_line(&mut tail, &end_chars(), Ghost(Seq::empty()));
    assert(Seq::<Seq<char>>::empty().push(end_marker()) =~= seq![end_marker()]);
    push_text_bytes(&mut bytes, &tail);
    bytes
}

} // verus!
