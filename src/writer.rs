//! What the writer computes: the names of its sidecar files and the bytes that replace the file.
use vstd::prelude::*;

use crate::encode::{digits, push_digits};
use crate::text::{append_chars, chars_of, string_of};

verus! {

/// The lock file beside a record file named `name`: `.name.lock`.
pub open spec fn lock_name_of(name: Seq<char>) -> Seq<char> {
    seq!['.'] + name + ".lock"@
}

/// The temporary file beside a record file named `name`, for process `pid` at `nanos`:
/// `.name.tmp.pid.nanos`.
pub open spec fn temp_name_of(name: Seq<char>, pid: nat, nanos: nat) -> Seq<char> {
    seq!['.'] + name + ".tmp."@ + digits(pid) + seq!['.'] + digits(nanos)
}

/// The name of the lock file that serialises writers of the record file named `name`.
pub fn lock_file_name(name: &str) -> (r: String)
    ensures
        r@ == lock_name_of(name@),
{
    let mut out: Vec<char> = vec!['.'];
    append_chars(&mut out, &chars_of(name));
    append_chars(&mut out, &chars_of(".lock"));
    assert(out@ =~= lock_name_of(name@));
    string_of(&out)
}

/// The name of the temporary file that a writer fills before it replaces the record file.
pub fn temp_file_name(name: &str, pid: u32, nanos: u128) -> (r: String)
    ensures
        r@ == temp_name_of(name@, pid as nat, nanos as nat),
{
    let mut out: Vec<char> = vec!['.'];
    append_chars(&mut out, &chars_of(name));
    append_chars(&mut out, &chars_of(".tmp."));
    push_digits(&mut out, pid as u128);
    out.push('.');
    push_digits(&mut out, nanos);
    assert(out@ =~= temp_name_of(name@, pid as nat, nanos as nat));
    string_of(&out)
}

/// The bytes that replace a record file: in append mode what it held (where it exists) and
/// then the record; otherwise the record alone.
pub open spec fn contents_after(prior: Option<Seq<u8>>, append: bool, record: Seq<u8>) -> Seq<u8> {
    match prior {
        Some(p) => if append {
            p + record
        } else {
            record
        },
        None => record,
    }
}

pub open spec fn bytes_view(b: Option<Vec<u8>>) -> Option<Seq<u8>> {
    match b {
        Some(v) => Some(v@),
        None => None,
    }
}

/// Appending to a file that does not exist writes the same bytes as creating it: the record alone.
pub proof fn lemma_append_to_missing(record: Seq<u8>)
    ensures
        contents_after(None, true, record) == contents_after(None, false, record),
        contents_after(None, true, record) == record,
{
}

/// Appending keeps everything the file held and puts the record after it.
pub proof fn lemma_append_keeps_prior(prior: Seq<u8>, record: Seq<u8>)
    ensures
        contents_after(Some(prior), true, record).subrange(0, prior.len() as int) == prior,
        contents_after(Some(prior), true, record).subrange(
            prior.len() as int,
            (prior.len() + record.len()) as int,
        ) == record,
{
    assert((prior + record).subrange(0, prior.len() as int) =~= prior);
    assert((prior + record).subrange(prior.len() as int, (prior.len() + record.len()) as int)
        =~= record);
}

/// The bytes that replace a record file, given what it held (`None` where it does not exist).
pub fn next_contents(prior: Option<Vec<u8>>, append: bool, record: &Vec<u8>) -> (r: Vec<u8>)
    ensures
        r@ == contents_after(bytes_view(prior), append, record@),
{
    let mut out: Vec<u8> = match prior {
        Some(p) => if append {
            p
        } else {
            Vec::new()
        },
        None => Vec::new(),
    };
    let ghost start = out@;
    let mut i: usize = 0;
    while i < record.len()
        invariant
            0 <= i <= record.len(),
            out@ == start + record@.subrange(0, i as int),
        decreases record.len() - i,
    {
        out.push(record[i]);
        i = i + 1;
        assert(out@ =~= start + record@.subrange(0, i as int));
    }
    assert(record@.subrange(0, record.len() as int) =~= record@);
    assert(out@ =~= contents_after(bytes_view(prior), append, record@));
    out
}

} // verus!
