use rommy::encode::{elapsed_ms, encode_record, script_display, RommyCommand, RunRecord, Timestamp};
use rommy::parser::{parse_bytes, parse_str, Block, BlockSet, ParseError};
use rommy::roundtrip::reads_back;
use rommy::writer::next_contents;

fn text_of(r: &RunRecord) -> String {
    String::from_utf8(encode_record(r)).expect("utf8")
}

fn run(line: &str, exit_code: i32, stdout: &[u8], stderr: &[u8]) -> RunRecord {
    RunRecord {
        tool_version: "0.1.0".to_string(),
        label: Some("demo".to_string()),
        cwd: "/tmp/work".to_string(),
        user: Some("alice".to_string()),
        host: None,
        command: RommyCommand::Line(line.to_string()),
        start: Timestamp { secs: 0, nanos: 0 },
        end: Timestamp { secs: 1, nanos: 500_000_000 },
        output_path: "/tmp/work/out.rommy".to_string(),
        exit_code,
        stdout: stdout.to_vec(),
        stderr: stderr.to_vec(),
    }
}

#[test]
fn encoded_record_reads_back() {
    let r = run("'echo' 'hi'", 0, b"hi\n", b"");
    let text = text_of(&r);
    let recs = parse_str(&text).expect("parse failed");
    assert_eq!(recs.len(), 1);
    let m = &recs[0];
    assert_eq!(m.meta.get("status").map(String::as_str), Some("ok"));
    assert_eq!(m.meta.get("exit_code").map(String::as_str), Some("0"));
    assert_eq!(m.meta.get("label").map(String::as_str), Some("demo"));
    assert_eq!(m.meta.get("host"), None);
    assert_eq!(m.command, "$ 'echo' 'hi'");
    assert_eq!(m.stdout, "hi");
    assert_eq!(m.stderr, "");
}

#[test]
fn failed_run_reads_back_as_error() {
    let r = run("false", -1, b"", b"boom");
    let recs = parse_str(&text_of(&r)).expect("parse failed");
    assert_eq!(recs[0].meta.get("status").map(String::as_str), Some("error"));
    assert_eq!(recs[0].meta.get("exit_code").map(String::as_str), Some("-1"));
    assert_eq!(recs[0].stderr, "boom");
}

#[test]
fn encoded_text_is_exact() {
    let r = run("'true'", 0, b"", b"");
    let text = text_of(&r);
    let expected = "<<<META>>>\n\
rommy_version: 0.1.0\n\
label: demo\n\
cwd: /tmp/work\n\
user: alice\n\
command_line: 'true'\n\
start_ts: 1970-01-01T00:00:00+00:00\n\
end_ts: 1970-01-01T00:00:01.500+00:00\n\
duration_ms: 1500\n\
output_path: /tmp/work/out.rommy\n\
status: ok\n\
exit_code: 0\n\
<<<END>>>\n\
<<<COMMAND>>>\n\
$ 'true'\n\
<<<END>>>\n\
<<<STDOUT>>>\n\
<<<END>>>\n\
<<<STDERR>>>\n\
<<<END>>>\n";
    assert_eq!(text, expected);
}

#[test]
fn stdout_without_newline_gets_one() {
    let r = run("'printf' 'x'", 0, b"x", b"");
    let text = text_of(&r);
    assert!(text.contains("<<<STDOUT>>>\nx\n<<<END>>>"));
}

#[test]
fn invalid_utf8_is_kept_and_replaced_on_read() {
    let r = run("'cat'", 0, &[0x61, 0xff, 0x62], b"");
    let bytes = encode_record(&r);
    let want: &[u8] = b"<<<STDOUT>>>\na\xffb\n<<<END>>>";
    assert!(bytes.windows(want.len()).any(|w| w == want));
    let recs = parse_bytes(&bytes).expect("parse failed");
    assert_eq!(recs[0].stdout, "a\u{FFFD}b");
    assert!(!reads_back(&r));
}

#[test]
fn script_command_is_shown_whole() {
    let content = script_display("echo one\necho two");
    assert_eq!(content, "#!/usr/bin/env bash\necho one\necho two\n");
    let mut r = run("unused", 0, b"", b"");
    r.command = RommyCommand::Script { path: "/tmp/s.sh".to_string(), content };
    let text = text_of(&r);
    assert!(text.contains("script_path: /tmp/s.sh\n"));
    let recs = parse_str(&text).expect("parse failed");
    assert_eq!(recs[0].command, "#!/usr/bin/env bash\necho one\necho two");
}

#[test]
fn appended_records_read_back_in_order() {
    let a = text_of(&run("'echo' 'A'", 0, b"A\n", b""));
    let b = text_of(&run("'echo' 'B'", 2, b"", b"B\n"));
    let file = next_contents(Some(a.clone().into_bytes()), true, &b.clone().into_bytes());
    let text = String::from_utf8(file).expect("utf8");
    assert_eq!(text, format!("{a}{b}"));
    let recs = parse_str(&text).expect("parse failed");
    assert_eq!(recs.len(), 2);
    assert_eq!(recs[0].stdout, "A");
    assert_eq!(recs[1].stderr, "B");
    assert_eq!(recs[1].meta.get("exit_code").map(String::as_str), Some("2"));
}

#[test]
fn six_appends_all_read_back() {
    let order = [3usize, 0, 5, 1, 4, 2];
    let mut file: Option<Vec<u8>> = None;
    for i in order {
        let payload = format!("par-{i}\n");
        let rec = encode_record(&run("'echo'", 0, payload.as_bytes(), b""));
        file = Some(next_contents(file, true, &rec));
    }
    let text = String::from_utf8(file.expect("written")).expect("utf8");
    let recs = parse_str(&text).expect("parse failed");
    assert_eq!(recs.len(), 6);
    for i in 0..6 {
        let want = format!("par-{i}");
        assert_eq!(recs.iter().filter(|r| r.stdout == want).count(), 1);
    }
}

#[test]
fn append_to_missing_file_is_a_fresh_file() {
    let rec = encode_record(&run("'echo' 'x'", 0, b"x\n", b""));
    assert_eq!(next_contents(None, true, &rec), rec);
    assert_eq!(next_contents(None, false, &rec), rec);
    let text = String::from_utf8(next_contents(None, true, &rec)).expect("utf8");
    assert_eq!(parse_str(&text).expect("parse failed").len(), 1);
}

#[test]
fn overwrite_drops_prior_content() {
    let rec = b"new".to_vec();
    assert_eq!(next_contents(Some(b"old".to_vec()), false, &rec), b"new".to_vec());
    assert_eq!(next_contents(Some(b"old".to_vec()), true, &rec), b"oldnew".to_vec());
}

#[test]
fn missing_stderr_block_is_named() {
    let text = "<<<META>>>\nstatus: ok\n<<<END>>>\n<<<COMMAND>>>\n$ echo x\n<<<END>>>\n<<<STDOUT>>>\nx\n<<<END>>>\n";
    let err = parse_str(text).expect_err("incomplete");
    assert_eq!(
        err,
        ParseError::Incomplete(BlockSet { meta: false, command: false, stdout: false, stderr: true })
    );
    assert_eq!(err.to_string(), "incomplete record: missing block(s): STDERR");
}

#[test]
fn missing_blocks_are_all_named() {
    let text = "<<<META>>>\nstatus: ok\n<<<END>>>\n<<<COMMAND>>>\n$ echo x\n<<<END>>>\n";
    let err = parse_str(text).expect_err("incomplete");
    assert_eq!(err.to_string(), "incomplete record: missing block(s): STDOUT, STDERR");
}

#[test]
fn nested_block_start_fails() {
    let text = "<<<META>>>\nstatus: ok\n<<<COMMAND>>>\n";
    let err = parse_str(text).expect_err("nested");
    assert_eq!(err, ParseError::UnexpectedStart(Block::Command));
    assert_eq!(
        err.to_string(),
        "unexpected start of block COMMAND before closing previous block"
    );
}

#[test]
fn unclosed_block_fails() {
    let text = "<<<META>>>\nstatus: ok\n<<<END>>>\n<<<COMMAND>>>\n$ echo x\n";
    let err = parse_str(text).expect_err("unclosed");
    assert_eq!(err, ParseError::Unclosed);
    assert_eq!(err.to_string(), "unexpected EOF: block not closed with <<<END>>>");
}

#[test]
fn empty_text_has_no_records() {
    assert_eq!(parse_str("").expect("parse failed").len(), 0);
    assert_eq!(parse_str("\n\nnoise\n<<<END>>>\n").expect("parse failed").len(), 0);
}

#[test]
fn crlf_and_padding_are_tolerated() {
    let text = "junk\r\n<<<META>>>\r\nstatus : ok \r\nexit_code: 1\r\nexit_code: 3\r\nno colon\r\n<<<END>>>\r\n\r\n<<<COMMAND>>>\r\n$ x\r\n<<<END>>>\r\n  <<<STDOUT>>>  \r\n\r\nline two\r\n<<<END>>>\r\n<<<STDERR>>>\r\n<<<END>>>\r\n";
    let recs = parse_str(text).expect("parse failed");
    assert_eq!(recs.len(), 1);
    assert_eq!(recs[0].meta.get("status").map(String::as_str), Some("ok"));
    assert_eq!(recs[0].meta.get("exit_code").map(String::as_str), Some("3"));
    assert_eq!(recs[0].stdout, "\nline two");
}

#[test]
fn markers_are_recognised_after_trimming() {
    assert_eq!(Block::from_marker("  <<<STDERR>>>\t"), Some(Block::Stderr));
    assert_eq!(Block::from_marker("<<<META>>>"), Some(Block::Meta));
    assert_eq!(Block::from_marker("<<<END>>>"), None);
    assert_eq!(Block::from_marker("<<<meta>>>"), None);
}

#[test]
fn elapsed_time_rounds_toward_zero() {
    let a = Timestamp { secs: 0, nanos: 0 };
    let b = Timestamp { secs: 1, nanos: 500_600_000 };
    assert_eq!(elapsed_ms(a, b), 1500);
    assert_eq!(elapsed_ms(b, a), -1500);
    assert_eq!(elapsed_ms(a, a), 0);
}

#[test]
fn records_that_read_back() {
    assert!(reads_back(&run("'echo' 'hi'", 0, b"hi\n", b"warn")));
    assert!(!reads_back(&run("'echo'", 0, b"a\n<<<END>>>\nb", b"")));
    assert!(!reads_back(&run("'echo'", 0, b"", b"x\r\ny")));
    let mut r = run("'echo'", 0, b"", b"");
    r.cwd = "/tmp/a\nb".to_string();
    assert!(!reads_back(&r));
    let mut r = run("'echo'", 0, b"", b"");
    r.start = Timestamp { secs: 0, nanos: 1_000_000_000 };
    assert!(!reads_back(&r));
}

#[test]
fn carriage_return_before_line_end_is_dropped() {
    let text = "<<<META>>>\r\r\nstatus: ok\n<<<END>>>\n<<<COMMAND>>>\n<<<END>>>\n<<<STDOUT>>>\na\r\r\nb\r\n<<<END>>>\n<<<STDERR>>>\n<<<END>>>\n";
    let recs = parse_str(text).expect("parse failed");
    assert_eq!(recs[0].stdout, "a\nb");
    assert_eq!(parse_str(&text.replace("\r\n", "\n")).expect("parse failed"), recs);
}

#[test]
fn raw_bytes_are_written_verbatim() {
    let r = run("'printf'", 0, b"x\ny", b"e\n");
    let bytes = encode_record(&r);
    let text = String::from_utf8(bytes.clone()).expect("utf8");
    assert!(text.contains("<<<STDOUT>>>\nx\ny\n<<<END>>>\n<<<STDERR>>>\ne\n<<<END>>>\n"));
    assert_eq!(parse_bytes(&bytes).expect("parse failed")[0].stdout, "x\ny");
}
