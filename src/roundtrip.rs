//! What reading back written records gives.
use vstd::prelude::*;

use vstd::utf8::{
    decode_utf8, decode_utf8_encode_utf8, encode_scalar, encode_utf8, encode_utf8_decode_utf8,
    encode_utf8_valid_utf8, last_continuation_byte, leading_byte_width_1, valid_utf8,
};
use crate::encode::{
    command_body, command_entry, decimal, digits, duration_ms, lines_text, meta_entry, meta_lines,
    optional_entry, record_bytes, record_text, terminated_bytes, head_text, rfc3339_text, status_text, terminated, RommyCommand, RunRecord,
};
use crate::encode::{rfc3339_of, MAX_TIMESTAMP_SECS};
use crate::parser::{
    Markers,
    begin_marker, body_push, empty_body, end_marker, finish, fresh_open, marker_block, meta_line, parse_text, scan, scan_start, step, Block, BlockSet, BodyModel,
    OpenModel, ParseError, RecordModel, ScanModel,
};
use crate::text::{
    chars_equal, chars_of, line_end, trim_bounds, crlf_to_lf, strip_cr, is_white, lemma_find_char, line_split, split_lines, text_lines, trim, trim_end,
    trim_start,
};

verus! {

/// `s` holds no `\r` directly followed by `\n`.
pub open spec fn no_crlf(s: Seq<char>) -> bool {
    forall|i: int| 0 <= i < s.len() - 1 ==> !(#[trigger] s[i] == '\r' && s[i + 1] == '\n')
}

/// `s` holds no line break character.
pub open spec fn single_line(s: Seq<char>) -> bool {
    forall|i: int| 0 <= i < s.len() ==> s[i] != '\n' && s[i] != '\r'
}

pub open spec fn no_newline(s: Seq<char>) -> bool {
    forall|i: int| 0 <= i < s.len() ==> s[i] != '\n'
}

proof fn lemma_crlf_identity(s: Seq<char>)
    requires
        no_crlf(s),
    ensures
        crlf_to_lf(s) == s,
    decreases s.len(),
{
    if s.len() > 0 {
        let t = s.skip(1);
        assert forall|i: int| 0 <= i < t.len() - 1 implies !(#[trigger] t[i] == '\r' && t[i + 1] == '\n') by {
            assert(t[i] == s[i + 1] && t[i + 1] == s[i + 2]);
        }
        lemma_crlf_identity(t);
        assert(seq![s[0]] + t =~= s);
    }
}

proof fn lemma_crlf_concat(a: Seq<char>, b: Seq<char>)
    requires
        a.len() == 0 || a.last() != '\r',
    ensures
        crlf_to_lf(a + b) == crlf_to_lf(a) + crlf_to_lf(b),
    decreases a.len(),
{
    if a.len() == 0 {
        assert(a + b =~= b);
        assert(crlf_to_lf(a) =~= Seq::<char>::empty());
        assert(Seq::<char>::empty() + crlf_to_lf(b) =~= crlf_to_lf(b));
    } else if a.len() >= 2 && a[0] == '\r' && a[1] == '\n' {
        let s = a + b;
        assert(s.skip(2) =~= a.skip(2) + b);
        if a.len() > 2 {
            assert(a.skip(2).last() == a.last());
        }
        lemma_crlf_concat(a.skip(2), b);
        assert(crlf_to_lf(s) =~= crlf_to_lf(a) + crlf_to_lf(b));
    } else {
        let s = a + b;
        assert(s.skip(1) =~= a.skip(1) + b);
        if a.len() > 1 {
            assert(a.skip(1).last() == a.last());
        }
        lemma_crlf_concat(a.skip(1), b);
        if a.len() == 1 {
            // a[0] is not '\r', so no pair starts at the join
            assert(!(s[0] == '\r'));
        }
        assert(crlf_to_lf(s) =~= crlf_to_lf(a) + crlf_to_lf(b));
    }
}

proof fn lemma_lines_text_append(a: Seq<Seq<char>>, b: Seq<Seq<char>>)
    ensures
        lines_text(a + b) == lines_text(a) + lines_text(b),
    decreases b.len(),
{
    if b.len() == 0 {
        assert(a + b =~= a);
        assert(lines_text(a) + lines_text(b) =~= lines_text(a));
    } else {
        assert((a + b).drop_last() =~= a + b.drop_last());
        lemma_lines_text_append(a, b.drop_last());
        assert(lines_text(a + b) =~= lines_text(a) + lines_text(b));
    }
}

proof fn lemma_line_split_extend(x: Seq<char>, w: Seq<char>)
    requires
        no_newline(w),
    ensures
        line_split(x + w) == (line_split(x).0, line_split(x).1 + w),
    decreases w.len(),
{
    if w.len() == 0 {
        assert(x + w =~= x);
        assert(line_split(x).1 + w =~= line_split(x).1);
    } else {
        assert((x + w).drop_last() =~= x + w.drop_last());
        lemma_line_split_extend(x, w.drop_last());
        assert((x + w).last() == w.last());
        assert(line_split(x).1 + w.drop_last() + seq![w.last()] =~= line_split(x).1 + w);
        assert((line_split(x).1 + w.drop_last()).push(w.last()) =~= line_split(x).1 + w);
    }
}

/// Lines without line ends, each written with `\n`, split back into the same lines.
proof fn lemma_split_lines_text(ls: Seq<Seq<char>>)
    requires
        forall|i: int| 0 <= i < ls.len() ==> no_newline(#[trigger] ls[i]) && (ls[i].len() == 0
            || ls[i].last() != '\r'),
    ensures
        line_split(lines_text(ls)) == (ls, Seq::<char>::empty()),
        split_lines(lines_text(ls)) == ls,
    decreases ls.len(),
{
    if ls.len() > 0 {
        let p = ls.drop_last();
        let l = ls.last();
        lemma_split_lines_text(p);
        lemma_line_split_extend(lines_text(p), l);
        let s = lines_text(ls);
        assert(s == lines_text(p) + l + seq!['\n']);
        assert(s.drop_last() =~= lines_text(p) + l);
        assert(Seq::<char>::empty() + l =~= l);
        assert(strip_cr(l) == l);
        assert(p.push(l) =~= ls);
    }
}

/// Lines without `\n` and not ending in `\r`, written out, are unchanged by line-end normalisation.
proof fn lemma_lines_text_no_crlf(ls: Seq<Seq<char>>)
    requires
        forall|i: int| 0 <= i < ls.len() ==> no_newline(#[trigger] ls[i]) && (ls[i].len() == 0
            || ls[i].last() != '\r'),
    ensures
        crlf_to_lf(lines_text(ls)) == lines_text(ls),
    decreases ls.len(),
{
    if ls.len() > 0 {
        let p = ls.drop_last();
        let l = ls.last();
        lemma_lines_text_no_crlf(p);
        let w = l + seq!['\n'];
        assert forall|i: int| 0 <= i < w.len() - 1 implies !(#[trigger] w[i] == '\r' && w[i + 1] == '\n') by {
            if i < l.len() - 1 {
                assert(w[i + 1] == l[i + 1]);
            } else {
                assert(w[i] == l.last());
            }
        }
        lemma_crlf_identity(w);
        if lines_text(p).len() > 0 {
            assert(lines_text(p).last() == '\n');
        }
        lemma_crlf_concat(lines_text(p), w);
        assert(lines_text(ls) =~= lines_text(p) + w);
    }
}

/// The lines of a text whose lines have no `\n` and do not end in `\r`.
pub proof fn lemma_text_lines_of(ls: Seq<Seq<char>>)
    requires
        forall|i: int| 0 <= i < ls.len() ==> no_newline(#[trigger] ls[i]) && (ls[i].len() == 0
            || ls[i].last() != '\r'),
    ensures
        text_lines(lines_text(ls)) == ls,
{
    lemma_lines_text_no_crlf(ls);
    lemma_split_lines_text(ls);
}

/// Any text is its finished lines, each with `\n`, then the unfinished rest.
proof fn lemma_line_split_parts(s: Seq<char>)
    requires
        no_crlf(s),
    ensures
        line_split(s).1.len() > 0 ==> line_split(s).1.last() == s.last(),
        s == lines_text(line_split(s).0) + line_split(s).1,
        no_newline(line_split(s).1),
        forall|i: int|
            0 <= i < line_split(s).0.len() ==> no_newline(#[trigger] line_split(s).0[i]),
    decreases s.len(),
{
    if s.len() > 0 {
        let sd = s.drop_last();
        assert forall|i: int| 0 <= i < sd.len() - 1 implies !(#[trigger] sd[i] == '\r' && sd[i
            + 1] == '\n') by {
            assert(sd[i] == s[i] && sd[i + 1] == s[i + 1]);
        }
        lemma_line_split_parts(sd);
        let (d, c) = line_split(s.drop_last());
        if s.last() == '\n' {
            if c.len() > 0 {
                assert(c.last() == s[s.len() - 2]);
            }
            assert(strip_cr(c) == c);
            assert(d.push(c).drop_last() =~= d);
            assert(s =~= lines_text(d.push(c)) + Seq::<char>::empty());
            assert forall|i: int| 0 <= i < d.push(c).len() implies no_newline(
                #[trigger] d.push(c)[i],
            ) by {
                if i < d.len() {
                    assert(d.push(c)[i] == d[i]);
                }
            }
        } else {
            assert(s =~= s.drop_last().push(s.last()));
            assert(s.drop_last().push(s.last()) =~= lines_text(d) + c.push(s.last()));
        }
    }
}

/// The state after reading `ls` from state `st`, or the first error.
pub open spec fn steps(st: ScanModel, ls: Seq<Seq<char>>) -> Result<ScanModel, ParseError>
    decreases ls.len(),
{
    if ls.len() == 0 {
        Ok(st)
    } else {
        match steps(st, ls.drop_last()) {
            Ok(s) => step(s, ls.last()),
            Err(e) => Err(e),
        }
    }
}

proof fn lemma_scan_steps(ls: Seq<Seq<char>>)
    ensures
        scan(ls) == steps(scan_start(), ls),
    decreases ls.len(),
{
    if ls.len() > 0 {
        lemma_scan_steps(ls.drop_last());
    }
}

proof fn lemma_steps_append(st: ScanModel, a: Seq<Seq<char>>, b: Seq<Seq<char>>)
    ensures
        steps(st, a + b) == match steps(st, a) {
            Ok(s) => steps(s, b),
            Err(e) => Err(e),
        },
    decreases b.len(),
{
    if b.len() == 0 {
        assert(a + b =~= a);
    } else {
        assert((a + b).drop_last() =~= a + b.drop_last());
        lemma_steps_append(st, a, b.drop_last());
    }
}

proof fn lemma_trim_end_first(s: Seq<char>)
    requires
        s.len() > 0,
        !is_white(s[0]),
    ensures
        trim_end(s).len() > 0,
        trim_end(s)[0] == s[0],
    decreases s.len(),
{
    if is_white(s.last()) {
        lemma_trim_end_first(s.drop_last());
    }
}

/// Trimming keeps a first character that is not white space.
proof fn lemma_trim_first(s: Seq<char>)
    requires
        s.len() > 0,
        !is_white(s[0]),
    ensures
        trim(s).len() > 0,
        trim(s)[0] == s[0],
{
    lemma_trim_end_first(s);
}

/// Trimming leaves alone a text with no white space at either end.
proof fn lemma_trim_plain(s: Seq<char>)
    requires
        s.len() > 0,
        !is_white(s[0]),
        !is_white(s.last()),
    ensures
        trim(s) == s,
{
}

/// A line that no marker can be: its first character is neither white space nor `<`.
pub open spec fn plain_line(l: Seq<char>) -> bool {
    l.len() > 0 && !is_white(l[0]) && l[0] != '<'
}

/// A line that reads as text inside a block.
pub open spec fn body_line(l: Seq<char>) -> bool {
    marker_block(trim(l)) is None && trim(l) != end_marker()
}

proof fn lemma_plain_is_body(l: Seq<char>)
    requires
        plain_line(l),
    ensures
        body_line(l),
{
    lemma_trim_first(l);
    let t = trim(l);
    assert(begin_marker(Block::Meta)[0] == '<');
    assert(begin_marker(Block::Command)[0] == '<');
    assert(begin_marker(Block::Stdout)[0] == '<');
    assert(begin_marker(Block::Stderr)[0] == '<');
    assert(end_marker()[0] == '<');
}

/// Each marker line reads as itself.
proof fn lemma_markers()
    ensures
        forall|b: Block| trim(#[trigger] begin_marker(b)) == begin_marker(b),
        forall|b: Block| marker_block(#[trigger] begin_marker(b)) == Some(b),
        trim(end_marker()) == end_marker(),
        marker_block(end_marker()) is None,
{
    assert forall|b: Block| trim(#[trigger] begin_marker(b)) == begin_marker(b) by {
        let m = begin_marker(b);
        assert(m[0] == '<');
        assert(m.last() == '>');
        lemma_trim_plain(m);
    }
    let e = end_marker();
    assert(e[0] == '<' && e.last() == '>');
    lemma_trim_plain(e);
    let mm = begin_marker(Block::Meta);
    let mc = begin_marker(Block::Command);
    let mo = begin_marker(Block::Stdout);
    let me = begin_marker(Block::Stderr);
    assert(mm.len() == 10 && mc.len() == 13 && mo.len() == 12 && me.len() == 12 && e.len() == 9);
    assert(mo[6] == 'O' && me[6] == 'E');
    assert(mo != me);
}

pub open spec fn body_of(o: OpenModel, b: Block) -> BodyModel {
    match b {
        Block::Command => o.command,
        Block::Stdout => o.stdout,
        _ => o.stderr,
    }
}

pub open spec fn set_body(o: OpenModel, b: Block, x: BodyModel) -> OpenModel {
    match b {
        Block::Command => OpenModel { command: x, ..o },
        Block::Stdout => OpenModel { stdout: x, ..o },
        _ => OpenModel { stderr: x, ..o },
    }
}

/// `ls` added to a body, one line after another.
pub open spec fn push_all(x: BodyModel, ls: Seq<Seq<char>>) -> BodyModel
    decreases ls.len(),
{
    if ls.len() == 0 {
        x
    } else {
        body_push(push_all(x, ls.drop_last()), ls.last())
    }
}

/// `ls` read as META lines, one after another.
pub open spec fn meta_fold(m: Map<Seq<char>, Seq<char>>, ls: Seq<Seq<char>>) -> Map<
    Seq<char>,
    Seq<char>,
>
    decreases ls.len(),
{
    if ls.len() == 0 {
        m
    } else {
        meta_line(meta_fold(m, ls.drop_last()), ls.last())
    }
}

proof fn lemma_body_steps(done: Seq<crate::parser::RecordModel>, o: OpenModel, b: Block, ls: Seq<Seq<char>>)
    requires
        b != Block::Meta,
        o.block == Some(b),
        forall|i: int| 0 <= i < ls.len() ==> body_line(#[trigger] ls[i]),
    ensures
        steps(ScanModel { done, open: Some(o) }, ls) == Ok::<ScanModel, ParseError>(
            ScanModel { done, open: Some(set_body(o, b, push_all(body_of(o, b), ls))) },
        ),
    decreases ls.len(),
{
    if ls.len() > 0 {
        lemma_body_steps(done, o, b, ls.drop_last());
        assert(body_line(ls[ls.len() - 1]));
    } else {
        assert(set_body(o, b, body_of(o, b)) == o);
    }
}

proof fn lemma_meta_steps(done: Seq<crate::parser::RecordModel>, o: OpenModel, ls: Seq<Seq<char>>)
    requires
        o.block == Some(Block::Meta),
        forall|i: int| 0 <= i < ls.len() ==> body_line(#[trigger] ls[i]),
    ensures
        steps(ScanModel { done, open: Some(o) }, ls) == Ok::<ScanModel, ParseError>(
            ScanModel { done, open: Some(OpenModel { meta: meta_fold(o.meta, ls), ..o }) },
        ),
    decreases ls.len(),
{
    if ls.len() > 0 {
        lemma_meta_steps(done, o, ls.drop_last());
        assert(body_line(ls[ls.len() - 1]));
    } else {
        assert(OpenModel { meta: o.meta, ..o } == o);
    }
}

/// The lines that a body is written as.
pub open spec fn body_lines(t: Seq<char>) -> Seq<Seq<char>> {
    split_lines(terminated(t))
}

/// A body that reads back as it was written: none of its lines is a marker or ends in `\r`.
pub open spec fn body_safe(t: Seq<char>) -> bool {
    &&& no_crlf(terminated(t))
    &&& forall|i: int|
        0 <= i < body_lines(t).len() ==> body_line(#[trigger] body_lines(t)[i]) && (body_lines(
            t,
        )[i].len() == 0 || body_lines(t)[i].last() != '\r')
}

pub open spec fn optional_single_line(v: Option<String>) -> bool {
    match v {
        Some(s) => single_line(s@),
        None => true,
    }
}

pub open spec fn command_value(c: RommyCommand) -> Seq<char> {
    match c {
        RommyCommand::Line(l) => l@,
        RommyCommand::Script { path, .. } => path@,
    }
}

/// A record whose META values are single lines and whose bodies hold no marker lines and no
/// `\r\n` line ends: such a record reads back as it was written.
pub open spec fn encodable(r: RunRecord) -> bool {
    &&& r.start.wf()
    &&& r.end.wf()
    &&& single_line(r.tool_version@)
    &&& optional_single_line(r.label)
    &&& single_line(r.cwd@)
    &&& optional_single_line(r.user)
    &&& optional_single_line(r.host)
    &&& single_line(command_value(r.command))
    &&& single_line(rfc3339_text(r.start.secs as int, r.start.nanos as int))
    &&& single_line(rfc3339_text(r.end.secs as int, r.end.nanos as int))
    &&& single_line(r.output_path@)
    &&& valid_utf8(r.stdout@)
    &&& valid_utf8(r.stderr@)
    &&& body_safe(command_body(r.command))
    &&& body_safe(decode_utf8(r.stdout@))
    &&& body_safe(decode_utf8(r.stderr@))
}

/// The lines of a record, in the order they are written.
pub open spec fn record_lines(r: RunRecord) -> Seq<Seq<char>> {
    seq![begin_marker(Block::Meta)] + meta_lines(r) + seq![end_marker(), begin_marker(Block::Command)]
        + body_lines(command_body(r.command)) + seq![end_marker(), begin_marker(Block::Stdout)]
        + body_lines(decode_utf8(r.stdout@)) + seq![end_marker(), begin_marker(Block::Stderr)]
        + body_lines(decode_utf8(r.stderr@)) + seq![end_marker()]
}

proof fn lemma_body_lines_text(t: Seq<char>)
    requires
        no_crlf(terminated(t)),
    ensures
        lines_text(body_lines(t)) == terminated(t),
        forall|i: int| 0 <= i < body_lines(t).len() ==> no_newline(#[trigger] body_lines(t)[i]),
{
    let u = terminated(t);
    lemma_line_split_parts(u);
    if u.len() > 0 {
        assert(u.last() == '\n');
        assert(line_split(u).1 =~= Seq::<char>::empty());
    } else {
        assert(line_split(u).1 =~= Seq::<char>::empty());
    }
    assert(u =~= lines_text(line_split(u).0));
}

proof fn lemma_record_text(r: RunRecord)
    requires
        encodable(r),
    ensures
        record_text(r) == lines_text(record_lines(r)),
{
    let a = seq![begin_marker(Block::Meta)] + meta_lines(r);
    let b = seq![end_marker(), begin_marker(Block::Command)];
    let c = body_lines(command_body(r.command));
    let d = seq![end_marker(), begin_marker(Block::Stdout)];
    let e = body_lines(decode_utf8(r.stdout@));
    let f = seq![end_marker(), begin_marker(Block::Stderr)];
    let g = body_lines(decode_utf8(r.stderr@));
    let h = seq![end_marker()];
    lemma_body_lines_text(command_body(r.command));
    lemma_body_lines_text(decode_utf8(r.stdout@));
    lemma_body_lines_text(decode_utf8(r.stderr@));
    lemma_lines_text_append(a, b);
    lemma_lines_text_append(a + b, c);
    lemma_lines_text_append(a + b + c, d);
    lemma_lines_text_append(a + b + c + d, e);
    lemma_lines_text_append(a + b + c + d + e, f);
    lemma_lines_text_append(a + b + c + d + e + f, g);
    lemma_lines_text_append(a + b + c + d + e + f + g, h);
}

/// A text with no white space, no line break and no `<` at its start.
pub open spec fn solid(s: Seq<char>) -> bool {
    &&& s.len() > 0
    &&& forall|i: int| 0 <= i < s.len() ==> !is_white(#[trigger] s[i])
    &&& s[0] != '<'
}

proof fn lemma_digits_solid(n: nat)
    ensures
        digits(n).len() > 0,
        forall|i: int| 0 <= i < digits(n).len() ==> (#[trigger] digits(n)[i] as u32) >= 48 && (
        digits(n)[i] as u32) <= 57,
    decreases n,
{
    if n >= 10 {
        lemma_digits_solid(n / 10);
        let d = digits(n / 10);
        assert forall|i: int| 0 <= i < digits(n).len() implies (#[trigger] digits(n)[i] as u32)
            >= 48 && (digits(n)[i] as u32) <= 57 by {
            if i < d.len() {
                assert(digits(n)[i] == d[i]);
            }
        }
    }
}

proof fn lemma_decimal_solid(n: int)
    ensures
        solid(decimal(n)),
        single_line(decimal(n)),
{
    if n < 0 {
        lemma_digits_solid((-n) as nat);
        let d = digits((-n) as nat);
        assert forall|i: int| 0 <= i < decimal(n).len() implies !is_white(#[trigger] decimal(n)[i])
            && decimal(n)[i] != '\n' && decimal(n)[i] != '\r' by {
            if i > 0 {
                assert(decimal(n)[i] == d[i - 1]);
            }
        }
    } else {
        lemma_digits_solid(n as nat);
    }
}

proof fn lemma_status_solid(exit_code: int)
    ensures
        solid(status_text(exit_code)),
        single_line(status_text(exit_code)),
{
    reveal_strlit("ok");
    reveal_strlit("error");
}

/// A META line whose key and value have no white space at their ends sets that key to that value.
proof fn lemma_meta_entry_value(m: Map<Seq<char>, Seq<char>>, key: Seq<char>, v: Seq<char>)
    requires
        solid(key),
        forall|j: int| 0 <= j < key.len() ==> #[trigger] key[j] != ':',
        solid(v),
    ensures
        meta_line(m, meta_entry(key, v)) == m.insert(key, v),
{
    reveal_strlit(": ");
    let line = meta_entry(key, v);
    let k = key.len() as int;
    assert(line[0] == key[0]);
    lemma_trim_first(line);
    assert forall|j: int| 0 <= j < k implies line[j] != ':' by {
        assert(line[j] == key[j]);
    }
    assert(line[k] == ':');
    lemma_find_char(line, ':', k);
    assert(line.subrange(0, k) =~= key);
    lemma_trim_plain(key);
    let rest = line.subrange(k + 1, line.len() as int);
    assert(rest =~= seq![' '] + v);
    assert(rest.drop_first() =~= v);
    assert(is_white(rest[0]));
    assert(trim_start(rest) == trim_start(v));
    assert(trim_start(v) == v);
    assert(trim_end(v) == v);
}

/// A line that is written and read as one META line.
pub open spec fn meta_line_ok(l: Seq<char>) -> bool {
    &&& plain_line(l)
    &&& no_newline(l)
    &&& l.last() != '\r'
}

proof fn lemma_entry_ok(key: Seq<char>, v: Seq<char>)
    requires
        solid(key),
        single_line(key),
        single_line(v),
    ensures
        meta_line_ok(meta_entry(key, v)),
{
    reveal_strlit(": ");
    let line = meta_entry(key, v);
    assert(line[0] == key[0]);
    assert forall|i: int| 0 <= i < line.len() implies #[trigger] line[i] != '\n' by {
        if i < key.len() {
            assert(line[i] == key[i]);
        } else if i >= key.len() + 2 {
            assert(line[i] == v[i - key.len() - 2]);
        }
    }
    if v.len() > 0 {
        assert(line.last() == v.last());
    }
}

proof fn lemma_optional_ok(key: Seq<char>, v: Option<String>)
    requires
        solid(key),
        single_line(key),
        optional_single_line(v),
    ensures
        forall|i: int|
            0 <= i < optional_entry(key, v).len() ==> meta_line_ok(
                #[trigger] optional_entry(key, v)[i],
            ),
{
    if let Some(s) = v {
        lemma_entry_ok(key, s@);
    }
}

proof fn lemma_key(key: Seq<char>)
    requires
        key.len() > 0,
        forall|j: int| 0 <= j < key.len() ==> (97 <= (#[trigger] key[j] as u32) <= 122) || key[j]
            == '_',
    ensures
        solid(key),
        single_line(key),
        forall|j: int| 0 <= j < key.len() ==> #[trigger] key[j] != ':',
{
}

proof fn lemma_keys()
    ensures
        solid("rommy_version"@) && single_line("rommy_version"@),
        solid("label"@) && single_line("label"@),
        solid("cwd"@) && single_line("cwd"@),
        solid("user"@) && single_line("user"@),
        solid("host"@) && single_line("host"@),
        solid("command_line"@) && single_line("command_line"@),
        solid("script_path"@) && single_line("script_path"@),
        solid("start_ts"@) && single_line("start_ts"@),
        solid("end_ts"@) && single_line("end_ts"@),
        solid("duration_ms"@) && single_line("duration_ms"@),
        solid("output_path"@) && single_line("output_path"@),
        solid("status"@) && single_line("status"@),
        solid("exit_code"@) && single_line("exit_code"@),
        forall|j: int| 0 <= j < "status"@.len() ==> #[trigger] "status"@[j] != ':',
        forall|j: int| 0 <= j < "exit_code"@.len() ==> #[trigger] "exit_code"@[j] != ':',
        "status"@ != "exit_code"@,
{
    reveal_strlit("rommy_version");
    reveal_strlit("label");
    reveal_strlit("cwd");
    reveal_strlit("user");
    reveal_strlit("host");
    reveal_strlit("command_line");
    reveal_strlit("script_path");
    reveal_strlit("start_ts");
    reveal_strlit("end_ts");
    reveal_strlit("duration_ms");
    reveal_strlit("output_path");
    reveal_strlit("status");
    reveal_strlit("exit_code");
    lemma_key("rommy_version"@);
    lemma_key("label"@);
    lemma_key("cwd"@);
    lemma_key("user"@);
    lemma_key("host"@);
    lemma_key("command_line"@);
    lemma_key("script_path"@);
    lemma_key("start_ts"@);
    lemma_key("end_ts"@);
    lemma_key("duration_ms"@);
    lemma_key("output_path"@);
    lemma_key("status"@);
    lemma_key("exit_code"@);
}

proof fn lemma_meta_lines_ok(r: RunRecord)
    requires
        encodable(r),
    ensures
        forall|i: int| 0 <= i < meta_lines(r).len() ==> meta_line_ok(#[trigger] meta_lines(r)[i]),
{
    lemma_keys();
    lemma_decimal_solid(duration_ms(r.start, r.end));
    lemma_decimal_solid(r.exit_code as int);
    lemma_status_solid(r.exit_code as int);
    lemma_entry_ok("rommy_version"@, r.tool_version@);
    lemma_optional_ok("label"@, r.label);
    lemma_entry_ok("cwd"@, r.cwd@);
    lemma_optional_ok("user"@, r.user);
    lemma_optional_ok("host"@, r.host);
    match r.command {
        RommyCommand::Line(l) => lemma_entry_ok("command_line"@, l@),
        RommyCommand::Script { path, .. } => lemma_entry_ok("script_path"@, path@),
    }
    lemma_entry_ok("start_ts"@, rfc3339_text(r.start.secs as int, r.start.nanos as int));
    lemma_entry_ok("end_ts"@, rfc3339_text(r.end.secs as int, r.end.nanos as int));
    lemma_entry_ok("duration_ms"@, decimal(duration_ms(r.start, r.end)));
    lemma_entry_ok("output_path"@, r.output_path@);
    lemma_entry_ok("status"@, status_text(r.exit_code as int));
    lemma_entry_ok("exit_code"@, decimal(r.exit_code as int));
    let a = seq![meta_entry("rommy_version"@, r.tool_version@)];
    let b = optional_entry("label"@, r.label);
    let c = seq![meta_entry("cwd"@, r.cwd@)];
    let d = optional_entry("user"@, r.user);
    let e = optional_entry("host"@, r.host);
    let f = seq![
        command_entry(r.command),
        meta_entry("start_ts"@, rfc3339_text(r.start.secs as int, r.start.nanos as int)),
        meta_entry("end_ts"@, rfc3339_text(r.end.secs as int, r.end.nanos as int)),
        meta_entry("duration_ms"@, decimal(duration_ms(r.start, r.end))),
        meta_entry("output_path"@, r.output_path@),
        meta_entry("status"@, status_text(r.exit_code as int)),
        meta_entry("exit_code"@, decimal(r.exit_code as int)),
    ];
    assert(meta_lines(r) == a + b + c + d + e + f);
    assert forall|i: int| 0 <= i < f.len() implies meta_line_ok(#[trigger] f[i]) by {}
    let ab = a + b;
    assert forall|i: int| 0 <= i < ab.len() implies meta_line_ok(#[trigger] ab[i]) by {
        if i >= a.len() {
            assert(ab[i] == b[i - a.len()]);
        }
    }
    let ac = ab + c;
    assert forall|i: int| 0 <= i < ac.len() implies meta_line_ok(#[trigger] ac[i]) by {
        if i < ab.len() {
            assert(ac[i] == ab[i]);
        }
    }
    let ad = ac + d;
    assert forall|i: int| 0 <= i < ad.len() implies meta_line_ok(#[trigger] ad[i]) by {
        if i < ac.len() {
            assert(ad[i] == ac[i]);
        } else {
            assert(ad[i] == d[i - ac.len()]);
        }
    }
    let ae = ad + e;
    assert forall|i: int| 0 <= i < ae.len() implies meta_line_ok(#[trigger] ae[i]) by {
        if i < ad.len() {
            assert(ae[i] == ad[i]);
        } else {
            assert(ae[i] == e[i - ad.len()]);
        }
    }
    let af = ae + f;
    assert forall|i: int| 0 <= i < af.len() implies meta_line_ok(#[trigger] af[i]) by {
        if i < ae.len() {
            assert(af[i] == ae[i]);
        } else {
            assert(af[i] == f[i - ae.len()]);
        }
    }
}

/// The record being read once all lines of `r` were read.
pub open spec fn open_of(r: RunRecord) -> OpenModel {
    OpenModel {
        meta: meta_fold(Map::empty(), meta_lines(r)),
        command: push_all(empty_body(), body_lines(command_body(r.command))),
        stdout: push_all(empty_body(), body_lines(decode_utf8(r.stdout@))),
        stderr: push_all(empty_body(), body_lines(decode_utf8(r.stderr@))),
        closed: BlockSet { meta: true, command: true, stdout: true, stderr: true },
        block: None,
    }
}

/// What reading back the text of `r` gives.
pub open spec fn model_of(r: RunRecord) -> RecordModel {
    RecordModel {
        meta: open_of(r).meta,
        command: open_of(r).command.text,
        stdout: open_of(r).stdout.text,
        stderr: open_of(r).stderr.text,
    }
}

/// No record is open, or the open one was read whole.
pub open spec fn between_records(st: ScanModel) -> bool {
    match st.open {
        None => true,
        Some(o) => o.closed.all() && o.block is None,
    }
}

/// The records of `st` once its open record is finished.
pub open spec fn finished(st: ScanModel) -> Seq<RecordModel> {
    match st.open {
        None => st.done,
        Some(o) => st.done.push(finish(o)->Ok_0),
    }
}

proof fn lemma_steps_one(st: ScanModel, l: Seq<char>)
    ensures
        steps(st, seq![l]) == step(st, l),
{
    assert(seq![l].drop_last() =~= Seq::<Seq<char>>::empty());
    assert(steps(st, Seq::<Seq<char>>::empty()) == Ok::<ScanModel, ParseError>(st));
    assert(seq![l].last() == l);
}

proof fn lemma_steps_two(st: ScanModel, a: Seq<char>, b: Seq<char>)
    ensures
        steps(st, seq![a, b]) == match step(st, a) {
            Ok(x) => step(x, b),
            Err(e) => Err(e),
        },
{
    assert(seq![a, b].drop_last() =~= seq![a]);
    lemma_steps_one(st, a);
}

proof fn lemma_body_safe_lines(t: Seq<char>)
    requires
        body_safe(t),
    ensures
        forall|i: int| 0 <= i < body_lines(t).len() ==> body_line(#[trigger] body_lines(t)[i]),
{
}

proof fn lemma_record_steps(st: ScanModel, r: RunRecord)
    requires
        encodable(r),
        between_records(st),
    ensures
        steps(st, record_lines(r)) == Ok::<ScanModel, ParseError>(
            ScanModel { done: finished(st), open: Some(open_of(r)) },
        ),
{
    lemma_markers();
    lemma_meta_lines_ok(r);
    let d = finished(st);
    let ml = meta_lines(r);
    let cl = body_lines(command_body(r.command));
    let ol = body_lines(decode_utf8(r.stdout@));
    let el = body_lines(decode_utf8(r.stderr@));
    lemma_body_safe_lines(command_body(r.command));
    lemma_body_safe_lines(decode_utf8(r.stdout@));
    lemma_body_safe_lines(decode_utf8(r.stderr@));
    let part0 = seq![begin_marker(Block::Meta)];
    let part1 = part0 + ml;
    let part2 = part1 + seq![end_marker(), begin_marker(Block::Command)];
    let part3 = part2 + cl;
    let part4 = part3 + seq![end_marker(), begin_marker(Block::Stdout)];
    let part5 = part4 + ol;
    let part6 = part5 + seq![end_marker(), begin_marker(Block::Stderr)];
    let part7 = part6 + el;
    let part8 = part7 + seq![end_marker()];
    assert(part8 == record_lines(r));
    // the META marker
    lemma_steps_one(st, begin_marker(Block::Meta));
    let o1 = fresh_open();
    let s1 = ScanModel { done: d, open: Some(o1) };
    assert(steps(st, part0) == Ok::<ScanModel, ParseError>(s1));
    // the META lines
    assert forall|i: int| 0 <= i < ml.len() implies body_line(#[trigger] ml[i]) by {
        assert(meta_line_ok(ml[i]));
        lemma_plain_is_body(ml[i]);
    }
    lemma_meta_steps(d, o1, ml);
    lemma_steps_append(st, part0, ml);
    let o2 = OpenModel { meta: meta_fold(o1.meta, ml), ..o1 };
    assert(steps(st, part1) == Ok::<ScanModel, ParseError>(ScanModel { done: d, open: Some(o2) }));
    // END, COMMAND
    lemma_steps_two(
        ScanModel { done: d, open: Some(o2) },
        end_marker(),
        begin_marker(Block::Command),
    );
    lemma_steps_append(st, part1, seq![end_marker(), begin_marker(Block::Command)]);
    let o3 = OpenModel { closed: o2.closed.with(Block::Meta), block: Some(Block::Command), ..o2 };
    assert(steps(st, part2) == Ok::<ScanModel, ParseError>(ScanModel { done: d, open: Some(o3) }));
    // the COMMAND body
    lemma_body_steps(d, o3, Block::Command, cl);
    lemma_steps_append(st, part2, cl);
    let o4 = set_body(o3, Block::Command, push_all(body_of(o3, Block::Command), cl));
    assert(steps(st, part3) == Ok::<ScanModel, ParseError>(ScanModel { done: d, open: Some(o4) }));
    // END, STDOUT
    lemma_steps_two(
        ScanModel { done: d, open: Some(o4) },
        end_marker(),
        begin_marker(Block::Stdout),
    );
    lemma_steps_append(st, part3, seq![end_marker(), begin_marker(Block::Stdout)]);
    let o5 = OpenModel { closed: o4.closed.with(Block::Command), block: Some(Block::Stdout), ..o4 };
    assert(steps(st, part4) == Ok::<ScanModel, ParseError>(ScanModel { done: d, open: Some(o5) }));
    // the STDOUT body
    lemma_body_steps(d, o5, Block::Stdout, ol);
    lemma_steps_append(st, part4, ol);
    let o6 = set_body(o5, Block::Stdout, push_all(body_of(o5, Block::Stdout), ol));
    assert(steps(st, part5) == Ok::<ScanModel, ParseError>(ScanModel { done: d, open: Some(o6) }));
    // END, STDERR
    lemma_steps_two(
        ScanModel { done: d, open: Some(o6) },
        end_marker(),
        begin_marker(Block::Stderr),
    );
    lemma_steps_append(st, part5, seq![end_marker(), begin_marker(Block::Stderr)]);
    let o7 = OpenModel { closed: o6.closed.with(Block::Stdout), block: Some(Block::Stderr), ..o6 };
    assert(steps(st, part6) == Ok::<ScanModel, ParseError>(ScanModel { done: d, open: Some(o7) }));
    // the STDERR body
    lemma_body_steps(d, o7, Block::Stderr, el);
    lemma_steps_append(st, part6, el);
    let o8 = set_body(o7, Block::Stderr, push_all(body_of(o7, Block::Stderr), el));
    assert(steps(st, part7) == Ok::<ScanModel, ParseError>(ScanModel { done: d, open: Some(o8) }));
    // END
    lemma_steps_one(ScanModel { done: d, open: Some(o8) }, end_marker());
    lemma_steps_append(st, part7, seq![end_marker()]);
    let o9 = OpenModel { closed: o8.closed.with(Block::Stderr), block: None, ..o8 };
    assert(o9 == open_of(r));
}

/// A line that is written and split back unchanged.
pub open spec fn line_ok(l: Seq<char>) -> bool {
    no_newline(l) && (l.len() == 0 || l.last() != '\r')
}

proof fn lemma_record_lines_ok(r: RunRecord)
    requires
        encodable(r),
    ensures
        forall|i: int| 0 <= i < record_lines(r).len() ==> line_ok(#[trigger] record_lines(r)[i]),
{
    lemma_meta_lines_ok(r);
    lemma_body_lines_text(command_body(r.command));
    lemma_body_lines_text(decode_utf8(r.stdout@));
    lemma_body_lines_text(decode_utf8(r.stderr@));
    let ls = record_lines(r);
    let mm = begin_marker(Block::Meta);
    let mc = begin_marker(Block::Command);
    let mo = begin_marker(Block::Stdout);
    let me = begin_marker(Block::Stderr);
    let e = end_marker();
    assert(line_ok(mm) && line_ok(mc) && line_ok(mo) && line_ok(me) && line_ok(e));
    let ml = meta_lines(r);
    let cl = body_lines(command_body(r.command));
    let ol = body_lines(decode_utf8(r.stdout@));
    let el = body_lines(decode_utf8(r.stderr@));
    assert forall|i: int| 0 <= i < ml.len() implies line_ok(#[trigger] ml[i]) by {
        assert(meta_line_ok(ml[i]));
    }
    assert forall|i: int| 0 <= i < cl.len() implies line_ok(#[trigger] cl[i]) by {
        assert(no_newline(cl[i]));
    }
    assert forall|i: int| 0 <= i < ol.len() implies line_ok(#[trigger] ol[i]) by {
        assert(no_newline(ol[i]));
    }
    assert forall|i: int| 0 <= i < el.len() implies line_ok(#[trigger] el[i]) by {
        assert(no_newline(el[i]));
    }
    lemma_all_ok_append(seq![mm], ml);
    lemma_all_ok_append(seq![mm] + ml, seq![e, mc]);
    lemma_all_ok_append(seq![mm] + ml + seq![e, mc], cl);
    lemma_all_ok_append(seq![mm] + ml + seq![e, mc] + cl, seq![e, mo]);
    lemma_all_ok_append(seq![mm] + ml + seq![e, mc] + cl + seq![e, mo], ol);
    lemma_all_ok_append(seq![mm] + ml + seq![e, mc] + cl + seq![e, mo] + ol, seq![e, me]);
    lemma_all_ok_append(seq![mm] + ml + seq![e, mc] + cl + seq![e, mo] + ol + seq![e, me], el);
    lemma_all_ok_append(
        seq![mm] + ml + seq![e, mc] + cl + seq![e, mo] + ol + seq![e, me] + el,
        seq![e],
    );
}

proof fn lemma_all_ok_append(a: Seq<Seq<char>>, b: Seq<Seq<char>>)
    requires
        forall|i: int| 0 <= i < a.len() ==> line_ok(#[trigger] a[i]),
        forall|i: int| 0 <= i < b.len() ==> line_ok(#[trigger] b[i]),
    ensures
        forall|i: int| 0 <= i < (a + b).len() ==> line_ok(#[trigger] (a + b)[i]),
{
    assert forall|i: int| 0 <= i < (a + b).len() implies line_ok(#[trigger] (a + b)[i]) by {
        if i < a.len() {
            assert((a + b)[i] == a[i]);
        } else {
            assert((a + b)[i] == b[i - a.len()]);
        }
    }
}

/// The texts of `rs`, one after another.
pub open spec fn records_text(rs: Seq<RunRecord>) -> Seq<char>
    decreases rs.len(),
{
    if rs.len() == 0 {
        Seq::empty()
    } else {
        records_text(rs.drop_last()) + record_text(rs.last())
    }
}

pub open spec fn records_lines(rs: Seq<RunRecord>) -> Seq<Seq<char>>
    decreases rs.len(),
{
    if rs.len() == 0 {
        Seq::empty()
    } else {
        records_lines(rs.drop_last()) + record_lines(rs.last())
    }
}

pub open spec fn all_encodable(rs: Seq<RunRecord>) -> bool {
    forall|i: int| 0 <= i < rs.len() ==> encodable(#[trigger] rs[i])
}

proof fn lemma_records_lines(rs: Seq<RunRecord>)
    requires
        all_encodable(rs),
    ensures
        records_text(rs) == lines_text(records_lines(rs)),
        forall|i: int|
            0 <= i < records_lines(rs).len() ==> line_ok(#[trigger] records_lines(rs)[i]),
    decreases rs.len(),
{
    if rs.len() > 0 {
        let p = rs.drop_last();
        assert forall|i: int| 0 <= i < p.len() implies encodable(#[trigger] p[i]) by {
            assert(p[i] == rs[i]);
        }
        lemma_records_lines(p);
        assert(encodable(rs[rs.len() - 1]));
        lemma_record_text(rs.last());
        lemma_record_lines_ok(rs.last());
        lemma_lines_text_append(records_lines(p), record_lines(rs.last()));
        lemma_all_ok_append(records_lines(p), record_lines(rs.last()));
    }
}

proof fn lemma_finish_open(r: RunRecord)
    ensures
        finish(open_of(r)) == Ok::<RecordModel, ParseError>(model_of(r)),
{
}

proof fn lemma_records_steps(rs: Seq<RunRecord>)
    requires
        all_encodable(rs),
        rs.len() > 0,
    ensures
        steps(scan_start(), records_lines(rs)) == Ok::<ScanModel, ParseError>(
            ScanModel {
                done: rs.drop_last().map_values(|r: RunRecord| model_of(r)),
                open: Some(open_of(rs.last())),
            },
        ),
    decreases rs.len(),
{
    let p = rs.drop_last();
    assert(encodable(rs[rs.len() - 1]));
    if p.len() == 0 {
        assert(records_lines(p) =~= Seq::<Seq<char>>::empty());
        assert(records_lines(rs) =~= record_lines(rs.last()));
        lemma_record_steps(scan_start(), rs.last());
        assert(finished(scan_start()) =~= p.map_values(|r: RunRecord| model_of(r)));
    } else {
        assert forall|i: int| 0 <= i < p.len() implies encodable(#[trigger] p[i]) by {
            assert(p[i] == rs[i]);
        }
        lemma_records_steps(p);
        let st = ScanModel {
            done: p.drop_last().map_values(|r: RunRecord| model_of(r)),
            open: Some(open_of(p.last())),
        };
        lemma_record_steps(st, rs.last());
        lemma_steps_append(scan_start(), records_lines(p), record_lines(rs.last()));
        lemma_finish_open(p.last());
        assert(finished(st) =~= p.map_values(|r: RunRecord| model_of(r)));
    }
}

/// Records written one after another read back as their models, in order.
proof fn lemma_parse_records(rs: Seq<RunRecord>)
    requires
        all_encodable(rs),
    ensures
        parse_text(records_text(rs)) == Ok::<Seq<RecordModel>, ParseError>(
            rs.map_values(|r: RunRecord| model_of(r)),
        ),
{
    lemma_records_lines(rs);
    lemma_text_lines_of(records_lines(rs));
    lemma_scan_steps(records_lines(rs));
    if rs.len() == 0 {
        assert(records_lines(rs) =~= Seq::<Seq<char>>::empty());
        assert(rs.map_values(|r: RunRecord| model_of(r)) =~= Seq::<RecordModel>::empty());
    } else {
        lemma_records_steps(rs);
        lemma_finish_open(rs.last());
        assert(rs.drop_last().map_values(|r: RunRecord| model_of(r)).push(model_of(rs.last()))
            =~= rs.map_values(|r: RunRecord| model_of(r)));
    }
}

proof fn lemma_encode_concat(a: Seq<char>, b: Seq<char>)
    ensures
        encode_utf8(a + b) == encode_utf8(a) + encode_utf8(b),
    decreases a.len(),
{
    if a.len() == 0 {
        assert(a + b =~= b);
        assert(encode_utf8(a) =~= Seq::<u8>::empty());
        assert(Seq::<u8>::empty() + encode_utf8(b) =~= encode_utf8(b));
    } else {
        assert((a + b).drop_first() =~= a.drop_first() + b);
        assert((a + b)[0] == a[0]);
        lemma_encode_concat(a.drop_first(), b);
        assert(encode_utf8(a + b) =~= encode_utf8(a) + encode_utf8(b));
    }
}

proof fn lemma_encode_one(c: char)
    ensures
        encode_utf8(seq![c]) == encode_scalar(c as u32),
        encode_scalar(c as u32).len() > 0,
        (encode_scalar(c as u32).last() == 10) == (c == '\n'),
{
    assert(seq![c].drop_first() =~= Seq::<char>::empty());
    assert(seq![c][0] == c);
    assert(encode_utf8(Seq::<char>::empty()) =~= Seq::<u8>::empty());
    assert(encode_utf8(seq![c]) == encode_scalar(seq![c][0] as u32) + encode_utf8(
        seq![c].drop_first(),
    ));
    assert(encode_scalar(c as u32) + Seq::<u8>::empty() =~= encode_scalar(c as u32));
    let u = c as u32;
    if u <= 0x7F {
        assert(((u & 0x7F) as u8 == 10) == (u == 10)) by (bit_vector)
            requires
                u <= 0x7F,
        ;
        assert(leading_byte_width_1(u) == (u & 0x7F) as u8);
        assert(('\n' as u32) == 10);
    } else {
        assert((0x80u8 | (u & 0x3F) as u8) != 10) by (bit_vector);
        assert(last_continuation_byte(u) != 10);
        assert(c != '\n');
    }
}

/// Valid UTF-8 bytes, terminated, are the UTF-8 encoding of their terminated text.
proof fn lemma_terminated_bytes(b: Seq<u8>)
    requires
        valid_utf8(b),
    ensures
        terminated_bytes(b) == encode_utf8(terminated(decode_utf8(b))),
{
    let cs = decode_utf8(b);
    decode_utf8_encode_utf8(b);
    if cs.len() == 0 {
        assert(encode_utf8(cs) =~= Seq::<u8>::empty());
    } else {
        let c = cs.last();
        assert(cs =~= cs.drop_last() + seq![c]);
        lemma_encode_concat(cs.drop_last(), seq![c]);
        lemma_encode_one(c);
        lemma_encode_one('\n');
        assert(b.last() == encode_scalar(c as u32).last());
        if c != '\n' {
            assert(cs.push('\n') =~= cs + seq!['\n']);
            lemma_encode_concat(cs, seq!['\n']);
            assert(b.push(10) =~= b + encode_scalar('\n' as u32));
            assert(encode_scalar('\n' as u32) =~= seq![10u8]);
        }
    }
}

/// Where stdout and stderr are valid UTF-8, a record's bytes are the UTF-8 encoding of its text.
proof fn lemma_record_bytes(r: RunRecord)
    requires
        valid_utf8(r.stdout@),
        valid_utf8(r.stderr@),
    ensures
        record_bytes(r) == encode_utf8(record_text(r)),
{
    let h = head_text(r);
    let o = terminated(decode_utf8(r.stdout@));
    let m = lines_text(seq![end_marker(), begin_marker(Block::Stderr)]);
    let e = terminated(decode_utf8(r.stderr@));
    let t = lines_text(seq![end_marker()]);
    lemma_terminated_bytes(r.stdout@);
    lemma_terminated_bytes(r.stderr@);
    lemma_encode_concat(h, o);
    lemma_encode_concat(h + o, m);
    lemma_encode_concat(h + o + m, e);
    lemma_encode_concat(h + o + m + e, t);
    assert(record_text(r) == h + o + m + e + t);
}

/// The bytes of `rs`, one record after another.
pub open spec fn records_bytes(rs: Seq<RunRecord>) -> Seq<u8>
    decreases rs.len(),
{
    if rs.len() == 0 {
        Seq::empty()
    } else {
        records_bytes(rs.drop_last()) + record_bytes(rs.last())
    }
}

proof fn lemma_records_bytes(rs: Seq<RunRecord>)
    requires
        all_encodable(rs),
    ensures
        records_bytes(rs) == encode_utf8(records_text(rs)),
        valid_utf8(records_bytes(rs)),
        decode_utf8(records_bytes(rs)) == records_text(rs),
    decreases rs.len(),
{
    if rs.len() > 0 {
        let p = rs.drop_last();
        assert forall|i: int| 0 <= i < p.len() implies encodable(#[trigger] p[i]) by {
            assert(p[i] == rs[i]);
        }
        lemma_records_bytes(p);
        assert(encodable(rs[rs.len() - 1]));
        lemma_record_bytes(rs.last());
        lemma_encode_concat(records_text(p), record_text(rs.last()));
    } else {
        assert(encode_utf8(Seq::<char>::empty()) =~= Seq::<u8>::empty());
        assert(records_bytes(rs) =~= Seq::<u8>::empty());
    }
    encode_utf8_valid_utf8(records_text(rs));
    encode_utf8_decode_utf8(records_text(rs));
}

/// Relies on `std::str::from_utf8`: it succeeds exactly on valid UTF-8, and the text it gives
/// holds exactly those bytes.
#[verifier::external_body]
fn utf8_exact(b: &Vec<u8>) -> (r: Option<String>)
    ensures
        r is Some <==> valid_utf8(b@),
        r is Some ==> encode_utf8(r->Some_0@) == b@,
{
    match std::str::from_utf8(b) {
        Ok(s) => Some(s.to_string()),
        Err(_) => None,
    }
}

fn single_line_exec(s: &str) -> (r: bool)
    ensures
        r == single_line(s@),
{
    let v = chars_of(s);
    let mut i: usize = 0;
    while i < v.len()
        invariant
            0 <= i <= v.len(),
            v@ == s@,
            forall|j: int| 0 <= j < i ==> v@[j] != '\n' && v@[j] != '\r',
        decreases v.len() - i,
    {
        if v[i] == '\n' || v[i] == '\r' {
            return false;
        }
        i = i + 1;
    }
    true
}

fn optional_single_line_exec(s: &Option<String>) -> (r: bool)
    ensures
        r == optional_single_line(*s),
{
    match s {
        Some(x) => single_line_exec(x.as_str()),
        None => true,
    }
}

/// A body line that reads back as written.
pub open spec fn body_line_ok(l: Seq<char>) -> bool {
    body_line(l) && (l.len() == 0 || l.last() != '\r')
}

fn body_line_ok_at(v: &Vec<char>, lo: usize, hi: usize, mk: &Markers) -> (r: bool)
    requires
        mk.wf(),
        lo <= hi <= v.len(),
    ensures
        r == body_line_ok(v@.subrange(lo as int, hi as int)),
{
    let (a, b) = trim_bounds(v, lo, hi);
    let not_marker = mk.block_at(v, a, b).is_none() && !chars_equal(v, a, b, &mk.end);
    not_marker && (hi == lo || v[hi - 1] != '\r')
}

/// Whether a body reads back as it was written.
fn body_safe_exec(t: &Vec<char>, mk: &Markers) -> (r: bool)
    requires
        mk.wf(),
    ensures
        r == body_safe(t@),
{
    let mut u: Vec<char> = t.clone();
    assert(u@ == t@);
    if u.len() > 0 && u[u.len() - 1] != '\n' {
        u.push('\n');
    }
    assert(u@ == terminated(t@));
    let mut k: usize = 0;
    while u.len() - k >= 2
        invariant
            0 <= k <= u.len(),
            u@ == terminated(t@),
            forall|j: int| 0 <= j < k ==> !(#[trigger] u@[j] == '\r' && u@[j + 1] == '\n'),
        decreases u.len() - k,
    {
        if u[k] == '\r' && u[k + 1] == '\n' {
            assert(!no_crlf(u@)) by {
                assert(u@[k as int] == '\r' && u@[k + 1] == '\n');
            }
            return false;
        }
        k = k + 1;
    }
    assert(no_crlf(u@)) by {
        assert forall|j: int| 0 <= j < u@.len() - 1 implies !(#[trigger] u@[j] == '\r' && u@[j
            + 1] == '\n') by {
            assert(j < k);
        }
    }
    let mut start: usize = 0;
    let mut i: usize = 0;
    let mut ok = true;
    let ghost mut lines: Seq<Seq<char>> = Seq::empty();
    assert(u@.subrange(0, 0) =~= Seq::<char>::empty());
    while i < u.len()
        invariant
            0 <= start <= i <= u.len(),
            mk.wf(),
            u@ == terminated(t@),
            no_crlf(u@),
            line_split(u@.subrange(0, i as int)) == (lines, u@.subrange(start as int, i as int)),
            ok == forall|j: int| 0 <= j < lines.len() ==> body_line_ok(#[trigger] lines[j]),
        decreases u.len() - i,
    {
        assert(u@.subrange(0, i + 1).drop_last() =~= u@.subrange(0, i as int));
        if u[i] == '\n' {
            let e = line_end(&u, start, i);
            let ghost line = u@.subrange(start as int, e as int);
            let here = body_line_ok_at(&u, start, e, mk);
            proof {
                let old_lines = lines;
                lines = lines.push(line);
                assert(forall|j: int| 0 <= j < old_lines.len() ==> lines[j] == old_lines[j]);
                assert(lines[lines.len() - 1] == line);
            }
            ok = ok && here;
            start = i + 1;
            assert(u@.subrange(start as int, start as int) =~= Seq::<char>::empty());
        } else {
            assert(u@.subrange(start as int, i + 1) =~= u@.subrange(start as int, i as int).push(
                u@[i as int],
            ));
        }
        i = i + 1;
    }
    assert(u@.subrange(0, u.len() as int) =~= u@);
    if start < u.len() {
        let ghost line = u@.subrange(start as int, u.len() as int);
        let here = body_line_ok_at(&u, start, u.len(), mk);
        proof {
            let old_lines = lines;
            lines = lines.push(line);
            assert(forall|j: int| 0 <= j < old_lines.len() ==> lines[j] == old_lines[j]);
            assert(lines[lines.len() - 1] == line);
        }
        ok = ok && here;
    }
    assert(body_lines(t@) == lines);
    ok
}

/// The text of a body given as bytes, where they are valid UTF-8.
fn bytes_body_safe(b: &Vec<u8>, mk: &Markers) -> (r: bool)
    requires
        mk.wf(),
    ensures
        r == (valid_utf8(b@) && body_safe(decode_utf8(b@))),
{
    match utf8_exact(b) {
        Some(s) => {
            proof {
                encode_utf8_decode_utf8(s@);
            }
            body_safe_exec(&chars_of(s.as_str()), mk)
        },
        None => false,
    }
}

/// Whether `r`, once written, reads back showing its run (see `lemma_round_trip`): its
/// timestamps are in range, its META values are single lines, its stdout and stderr are UTF-8,
/// and no body holds a marker line or a `\r\n` line end.
pub fn reads_back(r: &RunRecord) -> (b: bool)
    ensures
        b == encodable(*r),
{
    let ts_ok = r.start.nanos < 1_000_000_000 && -MAX_TIMESTAMP_SECS <= r.start.secs
        && r.start.secs <= MAX_TIMESTAMP_SECS && r.end.nanos < 1_000_000_000
        && -MAX_TIMESTAMP_SECS <= r.end.secs && r.end.secs <= MAX_TIMESTAMP_SECS;
    if !ts_ok {
        return false;
    }
    let start_text = rfc3339_of(r.start.secs, r.start.nanos);
    let end_text = rfc3339_of(r.end.secs, r.end.nanos);
    let mk = Markers::new();
    let (value, body) = match &r.command {
        RommyCommand::Line(l) => {
            let mut c = chars_of("$ ");
            crate::text::append_chars(&mut c, &chars_of(l.as_str()));
            c.push('\n');
            (single_line_exec(l.as_str()), c)
        },
        RommyCommand::Script { path, content } => (
            single_line_exec(path.as_str()),
            chars_of(content.as_str()),
        ),
    };
    assert(body@ =~= command_body(r.command));
    single_line_exec(r.tool_version.as_str()) && optional_single_line_exec(&r.label)
        && single_line_exec(r.cwd.as_str()) && optional_single_line_exec(&r.user)
        && optional_single_line_exec(&r.host) && value && single_line_exec(start_text.as_str())
        && single_line_exec(end_text.as_str()) && single_line_exec(r.output_path.as_str())
        && body_safe_exec(&body, &mk) && bytes_body_safe(&r.stdout, &mk) && bytes_body_safe(
        &r.stderr,
        &mk,
    )
}

pub open spec fn all_body_lines(ls: Seq<Seq<char>>) -> bool {
    forall|i: int| 0 <= i < ls.len() ==> body_line(#[trigger] ls[i]) && line_ok(ls[i])
}

/// A text with closed META, COMMAND and STDOUT blocks (holding any lines that are not markers)
/// and no STDERR block fails to parse, naming STDERR, and only it, as missing.
pub proof fn lemma_missing_stderr(ml: Seq<Seq<char>>, cl: Seq<Seq<char>>, ol: Seq<Seq<char>>)
    requires
        all_body_lines(ml),
        all_body_lines(cl),
        all_body_lines(ol),
    ensures
        parse_text(
            lines_text(
                seq![begin_marker(Block::Meta)] + ml + seq![end_marker(), begin_marker(Block::Command)]
                    + cl + seq![end_marker(), begin_marker(Block::Stdout)] + ol + seq![end_marker()],
            ),
        ) == Err::<Seq<RecordModel>, ParseError>(
            ParseError::Incomplete(
                BlockSet { meta: false, command: false, stdout: false, stderr: true },
            ),
        ),
{
    lemma_markers();
    let mm = begin_marker(Block::Meta);
    let mc = begin_marker(Block::Command);
    let mo = begin_marker(Block::Stdout);
    let e = end_marker();
    let part0 = seq![mm];
    let part1 = part0 + ml;
    let part2 = part1 + seq![e, mc];
    let part3 = part2 + cl;
    let part4 = part3 + seq![e, mo];
    let part5 = part4 + ol;
    let part6 = part5 + seq![e];
    // the lines come back as written
    assert(line_ok(mm) && line_ok(mc) && line_ok(mo) && line_ok(e));
    assert forall|i: int| 0 <= i < ml.len() implies line_ok(#[trigger] ml[i]) by {}
    assert forall|i: int| 0 <= i < cl.len() implies line_ok(#[trigger] cl[i]) by {}
    assert forall|i: int| 0 <= i < ol.len() implies line_ok(#[trigger] ol[i]) by {}
    lemma_all_ok_append(part0, ml);
    lemma_all_ok_append(part1, seq![e, mc]);
    lemma_all_ok_append(part2, cl);
    lemma_all_ok_append(part3, seq![e, mo]);
    lemma_all_ok_append(part4, ol);
    lemma_all_ok_append(part5, seq![e]);
    assert forall|i: int| 0 <= i < part6.len() implies no_newline(#[trigger] part6[i]) && (
    part6[i].len() == 0 || part6[i].last() != '\r') by {
        assert(line_ok(part6[i]));
    }
    lemma_text_lines_of(part6);
    lemma_scan_steps(part6);
    // the steps
    let st = scan_start();
    lemma_steps_one(st, mm);
    let o1 = fresh_open();
    assert forall|i: int| 0 <= i < ml.len() implies body_line(#[trigger] ml[i]) by {}
    assert forall|i: int| 0 <= i < cl.len() implies body_line(#[trigger] cl[i]) by {}
    assert forall|i: int| 0 <= i < ol.len() implies body_line(#[trigger] ol[i]) by {}
    let d = Seq::<RecordModel>::empty();
    assert(steps(st, part0) == Ok::<ScanModel, ParseError>(ScanModel { done: d, open: Some(o1) }));
    lemma_meta_steps(d, o1, ml);
    lemma_steps_append(st, part0, ml);
    let o2 = OpenModel { meta: meta_fold(o1.meta, ml), ..o1 };
    lemma_steps_two(ScanModel { done: d, open: Some(o2) }, e, mc);
    lemma_steps_append(st, part1, seq![e, mc]);
    let o3 = OpenModel { closed: o2.closed.with(Block::Meta), block: Some(Block::Command), ..o2 };
    assert(steps(st, part2) == Ok::<ScanModel, ParseError>(ScanModel { done: d, open: Some(o3) }));
    lemma_body_steps(d, o3, Block::Command, cl);
    lemma_steps_append(st, part2, cl);
    let o4 = set_body(o3, Block::Command, push_all(body_of(o3, Block::Command), cl));
    lemma_steps_two(ScanModel { done: d, open: Some(o4) }, e, mo);
    lemma_steps_append(st, part3, seq![e, mo]);
    let o5 = OpenModel { closed: o4.closed.with(Block::Command), block: Some(Block::Stdout), ..o4 };
    assert(steps(st, part4) == Ok::<ScanModel, ParseError>(ScanModel { done: d, open: Some(o5) }));
    lemma_body_steps(d, o5, Block::Stdout, ol);
    lemma_steps_append(st, part4, ol);
    let o6 = set_body(o5, Block::Stdout, push_all(body_of(o5, Block::Stdout), ol));
    lemma_steps_one(ScanModel { done: d, open: Some(o6) }, e);
    lemma_steps_append(st, part5, seq![e]);
    let o7 = OpenModel { closed: o6.closed.with(Block::Stdout), block: None, ..o6 };
    assert(steps(st, part6) == Ok::<ScanModel, ParseError>(ScanModel { done: d, open: Some(o7) }));
    assert(o7.closed == BlockSet { meta: true, command: true, stdout: true, stderr: false });
}

/// `t` without its final `\n`, if it has one.
pub open spec fn strip_final_newline(t: Seq<char>) -> Seq<char> {
    if t.len() > 0 && t.last() == '\n' {
        t.drop_last()
    } else {
        t
    }
}

/// What a parsed record must show of a run: its status and exit code in META, and its command,
/// stdout and stderr text, each without the line end that writing adds.
pub open spec fn shows_run(m: RecordModel, r: RunRecord) -> bool {
    &&& m.meta.contains_key("status"@)
    &&& m.meta["status"@] == status_text(r.exit_code as int)
    &&& m.meta.contains_key("exit_code"@)
    &&& m.meta["exit_code"@] == decimal(r.exit_code as int)
    &&& m.command == strip_final_newline(command_body(r.command))
    &&& m.stdout == strip_final_newline(decode_utf8(r.stdout@))
    &&& m.stderr == strip_final_newline(decode_utf8(r.stderr@))
}

proof fn lemma_push_all_text(ls: Seq<Seq<char>>)
    ensures
        push_all(empty_body(), ls).started == (ls.len() > 0),
        ls.len() == 0 ==> push_all(empty_body(), ls).text.len() == 0,
        ls.len() > 0 ==> push_all(empty_body(), ls).text.push('\n') == lines_text(ls),
    decreases ls.len(),
{
    if ls.len() > 0 {
        let p = ls.drop_last();
        lemma_push_all_text(p);
        let prev = push_all(empty_body(), p);
        if p.len() == 0 {
            assert(lines_text(p) =~= Seq::<char>::empty());
            assert(prev.text + ls.last() =~= ls.last());
            assert(ls.last().push('\n') =~= lines_text(ls));
        } else {
            assert((prev.text + seq!['\n'] + ls.last()).push('\n') =~= lines_text(ls));
        }
    }
}

proof fn lemma_body_text(t: Seq<char>)
    requires
        no_crlf(terminated(t)),
    ensures
        push_all(empty_body(), body_lines(t)).text == strip_final_newline(t),
{
    let ls = body_lines(t);
    lemma_body_lines_text(t);
    lemma_push_all_text(ls);
    if ls.len() > 0 {
        assert(lines_text(ls).len() > 0);
        let x = push_all(empty_body(), ls).text;
        assert(x =~= x.push('\n').drop_last());
    } else {
        assert(terminated(t).len() == 0);
    }
}

proof fn lemma_model_shows_run(r: RunRecord)
    requires
        encodable(r),
    ensures
        shows_run(model_of(r), r),
{
    lemma_keys();
    lemma_body_text(command_body(r.command));
    lemma_body_text(decode_utf8(r.stdout@));
    lemma_body_text(decode_utf8(r.stderr@));
    let ml = meta_lines(r);
    let n = ml.len();
    let status_line = meta_entry("status"@, status_text(r.exit_code as int));
    let exit_line = meta_entry("exit_code"@, decimal(r.exit_code as int));
    assert(ml.last() == exit_line);
    assert(ml.drop_last().last() == status_line);
    let m0 = meta_fold(Map::empty(), ml.drop_last().drop_last());
    lemma_status_solid(r.exit_code as int);
    lemma_decimal_solid(r.exit_code as int);
    lemma_meta_entry_value(m0, "status"@, status_text(r.exit_code as int));
    lemma_meta_entry_value(
        m0.insert("status"@, status_text(r.exit_code as int)),
        "exit_code"@,
        decimal(r.exit_code as int),
    );
    assert(meta_fold(Map::empty(), ml.drop_last()) == meta_line(m0, status_line));
    assert(meta_fold(Map::empty(), ml) == meta_line(
        meta_fold(Map::empty(), ml.drop_last()),
        exit_line,
    ));
    let m = model_of(r).meta;
    assert(m == m0.insert("status"@, status_text(r.exit_code as int)).insert(
        "exit_code"@,
        decimal(r.exit_code as int),
    ));
    assert(m["status"@] == status_text(r.exit_code as int));
}

/// Writing a record and reading its bytes back gives one record that shows the run: its status
/// and exit code, its command, and its stdout and stderr (without the line end that writing adds).
pub proof fn lemma_round_trip(r: RunRecord)
    requires
        encodable(r),
    ensures
        valid_utf8(record_bytes(r)),
        parse_text(decode_utf8(record_bytes(r))) is Ok,
        parse_text(decode_utf8(record_bytes(r)))->Ok_0.len() == 1,
        shows_run(parse_text(decode_utf8(record_bytes(r)))->Ok_0[0], r),
{
    let rs = seq![r];
    assert(all_encodable(rs));
    assert(rs.drop_last() =~= Seq::<RunRecord>::empty());
    assert(records_bytes(Seq::<RunRecord>::empty()) =~= Seq::<u8>::empty());
    assert(records_bytes(rs) =~= Seq::<u8>::empty() + record_bytes(r));
    assert(Seq::<u8>::empty() + record_bytes(r) =~= record_bytes(r));
    lemma_records_round_trip(rs);
}

/// Any number of records written one after another read back as as many records, each showing
/// its own run, in the order they were written.
pub proof fn lemma_records_round_trip(rs: Seq<RunRecord>)
    requires
        all_encodable(rs),
    ensures
        valid_utf8(records_bytes(rs)),
        parse_text(decode_utf8(records_bytes(rs))) is Ok,
        parse_text(decode_utf8(records_bytes(rs)))->Ok_0.len() == rs.len(),
        forall|i: int|
            0 <= i < rs.len() ==> shows_run(
                #[trigger] parse_text(decode_utf8(records_bytes(rs)))->Ok_0[i],
                rs[i],
            ),
{
    lemma_records_bytes(rs);
    lemma_parse_records(rs);
    assert forall|i: int| 0 <= i < rs.len() implies shows_run(
        #[trigger] parse_text(decode_utf8(records_bytes(rs)))->Ok_0[i],
        rs[i],
    ) by {
        lemma_model_shows_run(rs[i]);
    }
}

/// A record appended to the bytes of another reads back as both, first the earlier one.
pub proof fn lemma_append_round_trip(a: RunRecord, b: RunRecord)
    requires
        encodable(a),
        encodable(b),
    ensures
        valid_utf8(record_bytes(a) + record_bytes(b)),
        parse_text(decode_utf8(record_bytes(a) + record_bytes(b))) is Ok,
        parse_text(decode_utf8(record_bytes(a) + record_bytes(b)))->Ok_0.len() == 2,
        shows_run(parse_text(decode_utf8(record_bytes(a) + record_bytes(b)))->Ok_0[0], a),
        shows_run(parse_text(decode_utf8(record_bytes(a) + record_bytes(b)))->Ok_0[1], b),
{
    let rs = seq![a, b];
    assert(rs.drop_last() =~= seq![a]);
    assert(seq![a].drop_last() =~= Seq::<RunRecord>::empty());
    assert(records_bytes(Seq::<RunRecord>::empty()) =~= Seq::<u8>::empty());
    assert(records_bytes(seq![a]) =~= Seq::<u8>::empty() + record_bytes(a));
    assert(Seq::<u8>::empty() + record_bytes(a) =~= record_bytes(a));
    assert(records_bytes(rs) =~= record_bytes(a) + record_bytes(b));
    lemma_records_round_trip(rs);
}

} // verus!
