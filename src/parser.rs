//! Reading record files: a line-oriented state machine over the four block kinds.
use vstd::prelude::*;

use crate::meta::MetaMap;
use vstd::utf8::{decode_utf8, valid_utf8};
use crate::text::{
    append_chars, chars_equal, chars_of, crlf_to_lf, find_char, lemma_find_char, line_split,
    line_end, normalize_line_ends, string_of, text_lines, trim, trim_bounds,
};

verus! {

/// The four kinds of block in a record.
#[derive(Clone, Copy, Debug, PartialEq, Eq, Structural)]
pub enum Block {
    Meta,
    Command,
    Stdout,
    Stderr,
}

/// One flag for each block kind.
#[derive(Clone, Copy, Debug, PartialEq, Eq, Structural)]
pub struct BlockSet {
    pub meta: bool,
    pub command: bool,
    pub stdout: bool,
    pub stderr: bool,
}

/// What makes a text fail to parse.
#[derive(Clone, Copy, Debug, PartialEq, Eq, Structural)]
pub enum ParseError {
    /// A begin marker of the given kind came while another block was still open.
    UnexpectedStart(Block),
    /// The text ended inside a block.
    Unclosed,
    /// A record ended without each kind of block; the flags name the missing ones.
    Incomplete(BlockSet),
}

pub open spec fn block_name(b: Block) -> Seq<char> {
    match b {
        Block::Meta => seq!['M', 'E', 'T', 'A'],
        Block::Command => seq!['C', 'O', 'M', 'M', 'A', 'N', 'D'],
        Block::Stdout => seq!['S', 'T', 'D', 'O', 'U', 'T'],
        Block::Stderr => seq!['S', 'T', 'D', 'E', 'R', 'R'],
    }
}

pub open spec fn bracketed(name: Seq<char>) -> Seq<char> {
    seq!['<', '<', '<'] + name + seq!['>', '>', '>']
}

/// The line that opens a block of kind `b`.
pub open spec fn begin_marker(b: Block) -> Seq<char> {
    bracketed(block_name(b))
}

/// The line that closes a block of any kind.
pub open spec fn end_marker() -> Seq<char> {
    bracketed(seq!['E', 'N', 'D'])
}

/// The kind whose begin marker `t` is, if any.
pub open spec fn marker_block(t: Seq<char>) -> Option<Block> {
    if t == begin_marker(Block::Meta) {
        Some(Block::Meta)
    } else if t == begin_marker(Block::Command) {
        Some(Block::Command)
    } else if t == begin_marker(Block::Stdout) {
        Some(Block::Stdout)
    } else if t == begin_marker(Block::Stderr) {
        Some(Block::Stderr)
    } else {
        None
    }
}

/// A parsed record: META as a mapping, and the three text bodies.
pub struct RecordModel {
    pub meta: Map<Seq<char>, Seq<char>>,
    pub command: Seq<char>,
    pub stdout: Seq<char>,
    pub stderr: Seq<char>,
}

/// A text body being gathered; `started` once its first line has come.
pub struct BodyModel {
    pub text: Seq<char>,
    pub started: bool,
}

/// The record being read: what it holds so far, which blocks were closed, which block is open.
pub struct OpenModel {
    pub meta: Map<Seq<char>, Seq<char>>,
    pub command: BodyModel,
    pub stdout: BodyModel,
    pub stderr: BodyModel,
    pub closed: BlockSet,
    pub block: Option<Block>,
}

/// The records finished so far and the one being read, if any.
pub struct ScanModel {
    pub done: Seq<RecordModel>,
    pub open: Option<OpenModel>,
}

impl BlockSet {
    pub open spec fn none() -> BlockSet {
        BlockSet { meta: false, command: false, stdout: false, stderr: false }
    }

    pub open spec fn all(self) -> bool {
        self.meta && self.command && self.stdout && self.stderr
    }

    pub open spec fn with(self, b: Block) -> BlockSet {
        match b {
            Block::Meta => BlockSet { meta: true, ..self },
            Block::Command => BlockSet { command: true, ..self },
            Block::Stdout => BlockSet { stdout: true, ..self },
            Block::Stderr => BlockSet { stderr: true, ..self },
        }
    }

    pub open spec fn complement(self) -> BlockSet {
        BlockSet {
            meta: !self.meta,
            command: !self.command,
            stdout: !self.stdout,
            stderr: !self.stderr,
        }
    }
}

/// `line` added to a body: bodies are their lines joined by `\n`.
pub open spec fn body_push(b: BodyModel, line: Seq<char>) -> BodyModel {
    if b.started {
        BodyModel { text: b.text + seq!['\n'] + line, started: true }
    } else {
        BodyModel { text: b.text + line, started: true }
    }
}

/// A line of a META block: `key: value`, split at the first colon, both sides trimmed.
pub open spec fn meta_line(m: Map<Seq<char>, Seq<char>>, line: Seq<char>) -> Map<
    Seq<char>,
    Seq<char>,
> {
    let i = find_char(line, ':');
    if trim(line).len() == 0 || i < 0 {
        m
    } else {
        m.insert(trim(line.subrange(0, i)), trim(line.subrange(i + 1, line.len() as int)))
    }
}

pub open spec fn empty_body() -> BodyModel {
    BodyModel { text: Seq::empty(), started: false }
}

/// A record just opened by its META marker.
pub open spec fn fresh_open() -> OpenModel {
    OpenModel {
        meta: Map::empty(),
        command: empty_body(),
        stdout: empty_body(),
        stderr: empty_body(),
        closed: BlockSet::none(),
        block: Some(Block::Meta),
    }
}

/// The record that `o` makes, or the blocks it lacks.
pub open spec fn finish(o: OpenModel) -> Result<RecordModel, ParseError> {
    if o.closed.all() {
        Ok(
            RecordModel {
                meta: o.meta,
                command: o.command.text,
                stdout: o.stdout.text,
                stderr: o.stderr.text,
            },
        )
    } else {
        Err(ParseError::Incomplete(o.closed.complement()))
    }
}

/// Body lines go to the open block's body.
pub open spec fn add_line(o: OpenModel, b: Block, line: Seq<char>) -> OpenModel {
    match b {
        Block::Meta => OpenModel { meta: meta_line(o.meta, line), ..o },
        Block::Command => OpenModel { command: body_push(o.command, line), ..o },
        Block::Stdout => OpenModel { stdout: body_push(o.stdout, line), ..o },
        Block::Stderr => OpenModel { stderr: body_push(o.stderr, line), ..o },
    }
}

/// One line read in state `st`.
pub open spec fn step(st: ScanModel, line: Seq<char>) -> Result<ScanModel, ParseError> {
    let t = trim(line);
    match marker_block(t) {
        Some(b) => match st.open {
            Some(o) => if o.block is Some {
                Err(ParseError::UnexpectedStart(b))
            } else if b == Block::Meta {
                match finish(o) {
                    Ok(r) => Ok(ScanModel { done: st.done.push(r), open: Some(fresh_open()) }),
                    Err(e) => Err(e),
                }
            } else {
                Ok(ScanModel { done: st.done, open: Some(OpenModel { block: Some(b), ..o }) })
            },
            None => if b == Block::Meta {
                Ok(ScanModel { done: st.done, open: Some(fresh_open()) })
            } else {
                Ok(st)
            },
        },
        None => match st.open {
            Some(o) => match o.block {
                Some(b) => if t == end_marker() {
                    Ok(
                        ScanModel {
                            done: st.done,
                            open: Some(OpenModel { closed: o.closed.with(b), block: None, ..o }),
                        },
                    )
                } else {
                    Ok(ScanModel { done: st.done, open: Some(add_line(o, b, line)) })
                },
                None => Ok(st),
            },
            None => Ok(st),
        },
    }
}

pub open spec fn scan_start() -> ScanModel {
    ScanModel { done: Seq::empty(), open: None }
}

/// The state after reading `lines` from the start, or the first error.
pub open spec fn scan(lines: Seq<Seq<char>>) -> Result<ScanModel, ParseError>
    decreases lines.len(),
{
    if lines.len() == 0 {
        Ok(scan_start())
    } else {
        match scan(lines.drop_last()) {
            Ok(st) => step(st, lines.last()),
            Err(e) => Err(e),
        }
    }
}

/// The end of the text in state `st`.
pub open spec fn end_of_text(st: ScanModel) -> Result<Seq<RecordModel>, ParseError> {
    match st.open {
        None => Ok(st.done),
        Some(o) => if o.block is Some {
            Err(ParseError::Unclosed)
        } else {
            match finish(o) {
                Ok(r) => Ok(st.done.push(r)),
                Err(e) => Err(e),
            }
        },
    }
}

/// The records that a text holds, in order, or the first structural error in it.
pub open spec fn parse_text(s: Seq<char>) -> Result<Seq<RecordModel>, ParseError> {
    match scan(text_lines(s)) {
        Ok(st) => end_of_text(st),
        Err(e) => Err(e),
    }
}


/// One record read back from a record file.
#[derive(Clone, Debug, PartialEq, Eq)]
pub struct RommyRecord {
    /// META as key and value; of a repeated key the last value stands.
    pub meta: MetaMap,
    /// The COMMAND block's text: a command line or a script.
    pub command: String,
    pub stdout: String,
    pub stderr: String,
}

impl View for RommyRecord {
    type V = RecordModel;

    open spec fn view(&self) -> RecordModel {
        RecordModel {
            meta: self.meta@,
            command: self.command@,
            stdout: self.stdout@,
            stderr: self.stderr@,
        }
    }
}

impl RommyRecord {
    pub open spec fn wf(&self) -> bool {
        self.meta.wf()
    }
}

/// The models of `v`, in order.
pub open spec fn records_view(v: Seq<RommyRecord>) -> Seq<RecordModel> {
    v.map_values(|r: RommyRecord| r@)
}

/// The marker lines, as characters.
pub(crate) struct Markers {
    pub(crate) meta: Vec<char>,
    pub(crate) command: Vec<char>,
    pub(crate) stdout: Vec<char>,
    pub(crate) stderr: Vec<char>,
    pub(crate) end: Vec<char>,
}

impl Markers {
    pub(crate) open spec fn wf(&self) -> bool {
        &&& self.meta@ == begin_marker(Block::Meta)
        &&& self.command@ == begin_marker(Block::Command)
        &&& self.stdout@ == begin_marker(Block::Stdout)
        &&& self.stderr@ == begin_marker(Block::Stderr)
        &&& self.end@ == end_marker()
    }

    pub(crate) fn new() -> (r: Markers)
        ensures
            r.wf(),
    {
        let r = Markers {
            meta: vec!['<', '<', '<', 'M', 'E', 'T', 'A', '>', '>', '>'],
            command: vec!['<', '<', '<', 'C', 'O', 'M', 'M', 'A', 'N', 'D', '>', '>', '>'],
            stdout: vec!['<', '<', '<', 'S', 'T', 'D', 'O', 'U', 'T', '>', '>', '>'],
            stderr: vec!['<', '<', '<', 'S', 'T', 'D', 'E', 'R', 'R', '>', '>', '>'],
            end: vec!['<', '<', '<', 'E', 'N', 'D', '>', '>', '>'],
        };
        assert(r.meta@ =~= begin_marker(Block::Meta));
        assert(r.command@ =~= begin_marker(Block::Command));
        assert(r.stdout@ =~= begin_marker(Block::Stdout));
        assert(r.stderr@ =~= begin_marker(Block::Stderr));
        assert(r.end@ =~= end_marker());
        r
    }

    /// The kind whose begin marker the characters of `v` from `lo` up to `hi` are.
    pub(crate) fn block_at(&self, v: &Vec<char>, lo: usize, hi: usize) -> (r: Option<Block>)
        requires
            self.wf(),
            lo <= hi <= v.len(),
        ensures
            r == marker_block(v@.subrange(lo as int, hi as int)),
    {
        if chars_equal(v, lo, hi, &self.meta) {
            Some(Block::Meta)
        } else if chars_equal(v, lo, hi, &self.command) {
            Some(Block::Command)
        } else if chars_equal(v, lo, hi, &self.stdout) {
            Some(Block::Stdout)
        } else if chars_equal(v, lo, hi, &self.stderr) {
            Some(Block::Stderr)
        } else {
            None
        }
    }
}

/// The begin marker of kind `b`, as characters.
pub(crate) fn begin_chars(b: Block) -> (r: Vec<char>)
    ensures
        r@ == begin_marker(b),
{
    let m = Markers::new();
    match b {
        Block::Meta => m.meta,
        Block::Command => m.command,
        Block::Stdout => m.stdout,
        Block::Stderr => m.stderr,
    }
}

/// The end marker, as characters.
pub(crate) fn end_chars() -> (r: Vec<char>)
    ensures
        r@ == end_marker(),
{
    Markers::new().end
}

impl Block {
    /// The kind whose begin marker `s` is, white space around it aside.
    pub fn from_marker(s: &str) -> (r: Option<Block>)
        ensures
            r == marker_block(trim(s@)),
    {
        let v = chars_of(s);
        let (lo, hi) = trim_bounds(&v, 0, v.len());
        assert(v@.subrange(0, v.len() as int) =~= v@);
        Markers::new().block_at(&v, lo, hi)
    }
}

/// A body being gathered.
struct Body {
    text: Vec<char>,
    started: bool,
}

impl View for Body {
    type V = BodyModel;

    closed spec fn view(&self) -> BodyModel {
        BodyModel { text: self.text@, started: self.started }
    }
}

impl Body {
    fn new() -> (r: Body)
        ensures
            r@ == empty_body(),
    {
        Body { text: Vec::new(), started: false }
    }

    fn push_line(&mut self, v: &Vec<char>, lo: usize, hi: usize)
        requires
            lo <= hi <= v.len(),
        ensures
            final(self)@ == body_push(old(self)@, v@.subrange(lo as int, hi as int)),
    {
        if self.started {
            self.text.push('\n');
        }
        let ghost before = self.text@;
        let mut i: usize = lo;
        while i < hi
            invariant
                lo <= i <= hi <= v.len(),
                self.text@ == before + v@.subrange(lo as int, i as int),
                self.started == old(self).started,
                before == (if old(self).started {
                    old(self).text@.push('\n')
                } else {
                    old(self).text@
                }),
            decreases hi - i,
        {
            self.text.push(v[i]);
            i = i + 1;
            assert(self.text@ =~= before + v@.subrange(lo as int, i as int));
        }
        self.started = true;
        proof {
            let line = v@.subrange(lo as int, hi as int);
            if old(self).started {
                assert(old(self).text@.push('\n') =~= old(self).text@ + seq!['\n']);
                assert(self.text@ =~= old(self).text@ + seq!['\n'] + line);
            } else {
                assert(self.text@ =~= old(self).text@ + line);
            }
        }
    }
}

/// The parser's state: the records read so far and the one being read.
struct Scanner {
    done: Vec<RommyRecord>,
    open: bool,
    meta: MetaMap,
    command: Body,
    stdout: Body,
    stderr: Body,
    closed: BlockSet,
    block: Option<Block>,
}

impl View for Scanner {
    type V = ScanModel;

    closed spec fn view(&self) -> ScanModel {
        ScanModel {
            done: records_view(self.done@),
            open: if self.open {
                Some(
                    OpenModel {
                        meta: self.meta@,
                        command: self.command@,
                        stdout: self.stdout@,
                        stderr: self.stderr@,
                        closed: self.closed,
                        block: self.block,
                    },
                )
            } else {
                None
            },
        }
    }
}

impl Scanner {
    spec fn wf(&self) -> bool {
        &&& self.meta.wf()
        &&& forall|i: int| 0 <= i < self.done@.len() ==> (#[trigger] self.done@[i]).wf()
    }

    fn new() -> (r: Scanner)
        ensures
            r.wf(),
            r@ == scan_start(),
    {
        let r = Scanner {
            done: Vec::new(),
            open: false,
            meta: MetaMap::new(),
            command: Body::new(),
            stdout: Body::new(),
            stderr: Body::new(),
            closed: BlockSet { meta: false, command: false, stdout: false, stderr: false },
            block: None,
        };
        assert(r@.done =~= scan_start().done);
        r
    }

    /// The open record as a finished record, or the blocks it lacks.
    fn finish_open(self) -> (r: Result<Vec<RommyRecord>, ParseError>)
        requires
            self.wf(),
            self.open,
        ensures
            match (r, finish(self@.open->Some_0)) {
                (Ok(v), Ok(m)) => v@.len() == self.done@.len() + 1 && records_view(v@)
                    == self@.done.push(m) && forall|i: int|
                    0 <= i < v@.len() ==> (#[trigger] v@[i]).wf(),
                (Err(e), Err(f)) => e == f,
                _ => false,
            },
    {
        let c = self.closed;
        if c.meta && c.command && c.stdout && c.stderr {
            let rec = RommyRecord {
                meta: self.meta,
                command: string_of(&self.command.text),
                stdout: string_of(&self.stdout.text),
                stderr: string_of(&self.stderr.text),
            };
            let mut done = self.done;
            let ghost before = done@;
            done.push(rec);
            assert(records_view(done@) =~= records_view(before).push(rec@));
            Ok(done)
        } else {
            Err(
                ParseError::Incomplete(
                    BlockSet {
                        meta: !c.meta,
                        command: !c.command,
                        stdout: !c.stdout,
                        stderr: !c.stderr,
                    },
                ),
            )
        }
    }

    /// The state with a fresh record opened by its META marker.
    fn opened(done: Vec<RommyRecord>) -> (r: Scanner)
        requires
            forall|i: int| 0 <= i < done@.len() ==> (#[trigger] done@[i]).wf(),
        ensures
            r.wf(),
            r@ == (ScanModel { done: records_view(done@), open: Some(fresh_open()) }),
    {
        Scanner {
            done,
            open: true,
            meta: MetaMap::new(),
            command: Body::new(),
            stdout: Body::new(),
            stderr: Body::new(),
            closed: BlockSet { meta: false, command: false, stdout: false, stderr: false },
            block: Some(Block::Meta),
        }
    }

    /// One META line added to the open record.
    fn meta_line(&mut self, v: &Vec<char>, lo: usize, hi: usize)
        requires
            old(self).wf(),
            lo <= hi <= v.len(),
        ensures
            final(self).wf(),
            final(self).meta@ == meta_line(old(self).meta@, v@.subrange(lo as int, hi as int)),
            final(self).done == old(self).done,
            final(self).open == old(self).open,
            final(self).command == old(self).command,
            final(self).stdout == old(self).stdout,
            final(self).stderr == old(self).stderr,
            final(self).closed == old(self).closed,
            final(self).block == old(self).block,
    {
        let ghost line = v@.subrange(lo as int, hi as int);
        let (tlo, thi) = trim_bounds(v, lo, hi);
        let mut c: usize = lo;
        while c < hi && v[c] != ':'
            invariant
                lo <= c <= hi <= v.len(),
                forall|j: int| lo <= j < c ==> v@[j] != ':',
            decreases hi - c,
        {
            c = c + 1;
        }
        proof {
            lemma_find_char(line, ':', c - lo);
        }
        if tlo == thi || c == hi {
            return;
        }
        let (klo, khi) = trim_bounds(v, lo, c);
        let (vlo, vhi) = trim_bounds(v, c + 1, hi);
        assert(line.subrange(0, c - lo) =~= v@.subrange(lo as int, c as int));
        assert(line.subrange(c - lo + 1, line.len() as int) =~= v@.subrange(c + 1, hi as int));
        let key = string_of(&crate::text::sub_chars(v, klo, khi));
        let value = string_of(&crate::text::sub_chars(v, vlo, vhi));
        self.meta.insert(key, value);
    }

    /// One line read.
    fn feed(self, v: &Vec<char>, lo: usize, hi: usize, mk: &Markers) -> (r: Result<
        Scanner,
        ParseError,
    >)
        requires
            self.wf(),
            mk.wf(),
            lo <= hi <= v.len(),
        ensures
            match r {
                Ok(s) => s.wf() && step(self@, v@.subrange(lo as int, hi as int)) == Ok::<ScanModel, ParseError>(s@),
                Err(e) => step(self@, v@.subrange(lo as int, hi as int)) == Err::<ScanModel, ParseError>(e),
            },
    {
        let ghost line = v@.subrange(lo as int, hi as int);
        let (tlo, thi) = trim_bounds(v, lo, hi);
        match mk.block_at(v, tlo, thi) {
            Some(b) => {
                if self.open {
                    if self.block.is_some() {
                        Err(ParseError::UnexpectedStart(b))
                    } else if b == Block::Meta {
                        match self.finish_open() {
                            Ok(done) => Ok(Scanner::opened(done)),
                            Err(e) => Err(e),
                        }
                    } else {
                        let mut s = self;
                        s.block = Some(b);
                        Ok(s)
                    }
                } else if b == Block::Meta {
                    Ok(Scanner::opened(self.done))
                } else {
                    Ok(self)
                }
            },
            None => {
                if !self.open {
                    return Ok(self);
                }
                match self.block {
                    None => Ok(self),
                    Some(b) => {
                        let mut s = self;
                        if chars_equal(v, tlo, thi, &mk.end) {
                            s.closed =
                            match b {
                                Block::Meta => BlockSet { meta: true, ..s.closed },
                                Block::Command => BlockSet { command: true, ..s.closed },
                                Block::Stdout => BlockSet { stdout: true, ..s.closed },
                                Block::Stderr => BlockSet { stderr: true, ..s.closed },
                            };
                            s.block = None;
                        } else {
                            match b {
                                Block::Meta => s.meta_line(v, lo, hi),
                                Block::Command => s.command.push_line(v, lo, hi),
                                Block::Stdout => s.stdout.push_line(v, lo, hi),
                                Block::Stderr => s.stderr.push_line(v, lo, hi),
                            }
                        }
                        Ok(s)
                    },
                }
            },
        }
    }

    /// The records, once the text has ended.
    fn end(self) -> (r: Result<Vec<RommyRecord>, ParseError>)
        requires
            self.wf(),
        ensures
            match r {
                Ok(v) => end_of_text(self@) == Ok::<Seq<RecordModel>, ParseError>(records_view(v@)) && forall|i: int|
                    0 <= i < v@.len() ==> (#[trigger] v@[i]).wf(),
                Err(e) => end_of_text(self@) == Err::<Seq<RecordModel>, ParseError>(e),
            },
    {
        if !self.open {
            Ok(self.done)
        } else if self.block.is_some() {
            Err(ParseError::Unclosed)
        } else {
            self.finish_open()
        }
    }
}

/// The text that `String::from_utf8_lossy` makes of `b`.
pub uninterp spec fn utf8_lossy(b: Seq<u8>) -> Seq<char>;

/// Relies on `String::from_utf8_lossy`: text decoded from `b`, each invalid sequence replaced by
/// U+FFFD; valid UTF-8 is decoded as it is.
#[verifier::external_body]
fn lossy_text(b: &[u8]) -> (r: String)
    ensures
        r@ == utf8_lossy(b@),
        valid_utf8(b@) ==> r@ == decode_utf8(b@),
{
    String::from_utf8_lossy(b).into_owned()
}

/// Parses the bytes of a record file, decoded as UTF-8 with invalid sequences replaced.
pub fn parse_bytes(b: &[u8]) -> (r: Result<Vec<RommyRecord>, ParseError>)
    ensures
        match r {
            Ok(v) => parse_text(utf8_lossy(b@)) == Ok::<Seq<RecordModel>, ParseError>(
                records_view(v@),
            ) && forall|i: int| 0 <= i < v@.len() ==> (#[trigger] v@[i]).wf(),
            Err(e) => parse_text(utf8_lossy(b@)) == Err::<Seq<RecordModel>, ParseError>(e),
        },
        valid_utf8(b@) ==> match r {
            Ok(v) => parse_text(decode_utf8(b@)) == Ok::<Seq<RecordModel>, ParseError>(
                records_view(v@),
            ),
            Err(e) => parse_text(decode_utf8(b@)) == Err::<Seq<RecordModel>, ParseError>(e),
        },
{
    let text = lossy_text(b);
    parse_str(text.as_str())
}

/// Parses the text of a record file into its records, in order.
pub fn parse_str(input: &str) -> (r: Result<Vec<RommyRecord>, ParseError>)
    ensures
        match r {
            Ok(v) => parse_text(input@) == Ok::<Seq<RecordModel>, ParseError>(records_view(v@)) && forall|i: int|
                0 <= i < v@.len() ==> (#[trigger] v@[i]).wf(),
            Err(e) => parse_text(input@) == Err::<Seq<RecordModel>, ParseError>(e),
        },
{
    let raw = chars_of(input);
    let v = normalize_line_ends(&raw);
    let mk = Markers::new();
    let mut st: Result<Scanner, ParseError> = Ok(Scanner::new());
    let mut start: usize = 0;
    let mut i: usize = 0;
    let ghost mut lines: Seq<Seq<char>> = Seq::empty();
    assert(v@.subrange(0, 0) =~= Seq::<char>::empty());
    while i < v.len()
        invariant
            0 <= start <= i <= v.len(),
            v@ == crlf_to_lf(input@),
            mk.wf(),
            line_split(v@.subrange(0, i as int)) == (lines, v@.subrange(start as int, i as int)),
            scanned(lines, st),
        decreases v.len() - i,
    {
        assert(v@.subrange(0, i + 1).drop_last() =~= v@.subrange(0, i as int));
        if v[i] == '\n' {
            let e = line_end(&v, start, i);
            let ghost line = v@.subrange(start as int, e as int);
            st = feed_line(st, &v, start, e, &mk);
            proof {
                assert(scanned(lines.push(line), st));
                assert(lines.push(line).drop_last() =~= lines);
                lines = lines.push(line);
            }
            start = i + 1;
            assert(v@.subrange(start as int, start as int) =~= Seq::<char>::empty());
        } else {
            assert(v@.subrange(start as int, i + 1) =~= v@.subrange(start as int, i as int).push(
                v@[i as int],
            ));
        }
        i = i + 1;
    }
    assert(v@.subrange(0, v.len() as int) =~= v@);
    if start < v.len() {
        let ghost line = v@.subrange(start as int, v.len() as int);
        st = feed_line(st, &v, start, v.len(), &mk);
        proof {
            assert(scanned(lines.push(line), st));
            assert(lines.push(line).drop_last() =~= lines);
            lines = lines.push(line);
        }
    }
    assert(text_lines(input@) == lines);
    match st {
        Ok(s) => s.end(),
        Err(e) => Err(e),
    }
}

/// `st` is where reading `lines` leads.
spec fn scanned(lines: Seq<Seq<char>>, st: Result<Scanner, ParseError>) -> bool {
    match st {
        Ok(s) => s.wf() && scan(lines) == Ok::<ScanModel, ParseError>(s@),
        Err(e) => scan(lines) == Err::<ScanModel, ParseError>(e),
    }
}

/// One more line read, where no error has come yet.
fn feed_line(st: Result<Scanner, ParseError>, v: &Vec<char>, lo: usize, hi: usize, mk: &Markers) -> (r:
    Result<Scanner, ParseError>)
    requires
        mk.wf(),
        lo <= hi <= v.len(),
        st is Ok ==> st->Ok_0.wf(),
    ensures
        r is Ok ==> r->Ok_0.wf(),
        forall|lines: Seq<Seq<char>>|
            scanned(lines, st) ==> #[trigger] scanned(
                lines.push(v@.subrange(lo as int, hi as int)),
                r,
            ),
{
    proof {
        assert forall|lines: Seq<Seq<char>>| true implies lines.push(
            v@.subrange(lo as int, hi as int),
        ).drop_last() == lines by {
            assert(lines.push(v@.subrange(lo as int, hi as int)).drop_last() =~= lines);
        }
    }
    match st {
        Ok(s) => s.feed(v, lo, hi, mk),
        Err(e) => Err(e),
    }
}

/// `name` added to a comma-separated list, where `present`.
pub open spec fn add_name(acc: Seq<char>, present: bool, name: Seq<char>) -> Seq<char> {
    if !present {
        acc
    } else if acc.len() == 0 {
        name
    } else {
        acc + ", "@ + name
    }
}

/// The names of the blocks flagged in `m`, in the order the blocks are written.
pub open spec fn names_text(m: BlockSet) -> Seq<char> {
    add_name(
        add_name(
            add_name(
                add_name(Seq::empty(), m.meta, block_name(Block::Meta)),
                m.command,
                block_name(Block::Command),
            ),
            m.stdout,
            block_name(Block::Stdout),
        ),
        m.stderr,
        block_name(Block::Stderr),
    )
}

/// The text that describes an error.
pub open spec fn error_text(e: ParseError) -> Seq<char> {
    match e {
        ParseError::UnexpectedStart(b) => "unexpected start of block "@ + block_name(b)
            + " before closing previous block"@,
        ParseError::Unclosed => "unexpected EOF: block not closed with "@ + end_marker(),
        ParseError::Incomplete(m) => "incomplete record: missing block(s): "@ + names_text(m),
    }
}

fn name_chars(b: Block) -> (r: Vec<char>)
    ensures
        r@ == block_name(b),
{
    let r = match b {
        Block::Meta => vec!['M', 'E', 'T', 'A'],
        Block::Command => vec!['C', 'O', 'M', 'M', 'A', 'N', 'D'],
        Block::Stdout => vec!['S', 'T', 'D', 'O', 'U', 'T'],
        Block::Stderr => vec!['S', 'T', 'D', 'E', 'R', 'R'],
    };
    assert(r@ =~= block_name(b));
    r
}

fn add_name_exec(acc: &mut Vec<char>, present: bool, b: Block)
    ensures
        final(acc)@ == add_name(old(acc)@, present, block_name(b)),
{
    if present {
        if acc.len() > 0 {
            append_chars(acc, &chars_of(", "));
        }
        let ghost mid = acc@;
        append_chars(acc, &name_chars(b));
        assert(old(acc)@.len() == 0 ==> mid =~= Seq::<char>::empty());
        assert(old(acc)@.len() == 0 ==> acc@ =~= block_name(b));
    }
}

impl ParseError {
    /// The error described in words.
    pub fn to_string(&self) -> (r: String)
        ensures
            r@ == error_text(*self),
    {
        let mut out: Vec<char>;
        match self {
            ParseError::UnexpectedStart(b) => {
                out = chars_of("unexpected start of block ");
                append_chars(&mut out, &name_chars(*b));
                append_chars(&mut out, &chars_of(" before closing previous block"));
            },
            ParseError::Unclosed => {
                out = chars_of("unexpected EOF: block not closed with ");
                append_chars(&mut out, &Markers::new().end);
            },
            ParseError::Incomplete(m) => {
                let mut names: Vec<char> = Vec::new();
                add_name_exec(&mut names, m.meta, Block::Meta);
                add_name_exec(&mut names, m.command, Block::Command);
                add_name_exec(&mut names, m.stdout, Block::Stdout);
                add_name_exec(&mut names, m.stderr, Block::Stderr);
                out = chars_of("incomplete record: missing block(s): ");
                append_chars(&mut out, &names);
            },
        }
        string_of(&out)
    }
}

} // verus!
