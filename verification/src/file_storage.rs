use vstd::prelude::*;

use crate::codec::decode_event;
use crate::codec::enc_event;
use crate::codec::encode_event;
use crate::codec::wf_event;
use crate::event::ErrorDetails;
use crate::event::Event;
use crate::event::EventV;
use crate::event::TimestampV;
use crate::event::Timestamp;
use crate::foreign::b64_encode;
use crate::foreign::b64_of;
use crate::foreign::ClockInstant;
use crate::foreign::sanitize_app;
use crate::foreign::sanitized_of;
use crate::foreign::str_to_chars;
use crate::text::dec_int;
use crate::text::digit_char;
use crate::text::fmt_i64;

verus! {

/// Two zero-padded decimal digits, for months and days.
pub open spec fn two_digits(n: nat) -> Seq<char>
    recommends
        n < 100,
{
    seq![digit_char(n / 10), digit_char(n % 10)]
}

/// The relative path of one partition directory: base64 of the account,
/// then the sanitized application, joined by `/`.
pub open spec fn partition_rel(account: Seq<u8>, application: Seq<char>) -> Seq<char> {
    b64_of(account) + "/"@ + sanitized_of(application)
}

/// The name of the day file an event written at the given instant lands
/// in: zero-padded month and day, joined by `-`, with the `.jsonl` suffix.
pub open spec fn day_file_name(month: nat, day: nat) -> Seq<char> {
    two_digits(month) + "-"@ + two_digits(day) + ".jsonl"@
}

/// Everything a caller must do to the file system to store one event: the
/// partition directory to create, the day file to append to, and the one
/// line to append. The stamped event is what the store returns on success.
pub struct AddPlan {
    /// The directory of the partition, year included.
    pub dir: String,
    /// The file inside `dir` to open in create-or-append mode.
    pub file: String,
    /// The full line to append, newline included.
    pub line: String,
    /// The event as stored, its `synced` time stamped.
    pub stamped: Event,
}

/// Store events as lines of record text in a partitioned directory tree:
/// one directory per account (base64) and application (sanitized), one
/// subdirectory per year, one file per day. The file system work itself is
/// the caller's; this type decides paths, file names and line contents.
#[derive(Debug)]
pub struct FileStorage {
    root_path: String,
}

impl FileStorage {
    /// The root directory under which all partitions live.
    pub closed spec fn root(&self) -> Seq<char> {
        self.root_path@
    }

    /// A store rooted at the given directory.
    pub fn new(root_path: &String) -> (r: FileStorage)
        ensures
            r.root() == root_path@,
    {
        FileStorage { root_path: root_path.clone() }
    }

    /// The directory of one account/application partition, with no year
    /// segment: where a retrieval starts walking.
    pub fn partition_dir(&self, account: &Vec<u8>, application: &String) -> (r: String)
        ensures
            r@ == self.root() + "/"@ + partition_rel(account@, application@),
    {
        let mut out: Vec<char> = str_to_chars(self.root_path.as_str());
        push_str_chars(&mut out, "/");
        let b = b64_encode(account);
        push_string_chars(&mut out, &b);
        push_str_chars(&mut out, "/");
        let sa = sanitize_app(application);
        push_string_chars(&mut out, &sa);
        proof {
            assert(out@ =~= self.root() + "/"@ + partition_rel(account@, application@));
        }
        crate::foreign::chars_to_string(&out)
    }

    /// Plans the storage of one event at the given instant: stamps its
    /// `synced` time, and names the partition directory (account, then
    /// application, then the instant's year), the day file, and the exact
    /// line to append.
    pub fn plan_add(&self, event: &Event, now: &ClockInstant) -> (r: AddPlan)
        requires
            now.month < 100,
            now.day < 100,
        ensures
            r.stamped@ == (EventV {
                synced: Option::Some(TimestampV { seconds: now.seconds as int, nanos: now.nanos as int }),
                ..event@
            }),
            r.dir@ == self.root() + "/"@ + partition_rel(event@.account, event@.application) + "/"@
                + dec_int(now.year as int),
            r.file@ == day_file_name(now.month as nat, now.day as nat),
            r.line@ == enc_event(r.stamped@) + "\n"@,
    {
        let stamped = event.stamped(Timestamp { seconds: now.seconds, nanos: now.nanos });
        let mut dir: Vec<char> = str_to_chars(self.root_path.as_str());
        push_str_chars(&mut dir, "/");
        let b = b64_encode(&event.account);
        push_string_chars(&mut dir, &b);
        push_str_chars(&mut dir, "/");
        let sa = sanitize_app(&event.application);
        push_string_chars(&mut dir, &sa);
        push_str_chars(&mut dir, "/");
        let mut y = fmt_i64(now.year as i64);
        dir.append(&mut y);
        proof {
            assert(dir@ =~= self.root() + "/"@ + partition_rel(event@.account, event@.application)
                + "/"@ + dec_int(now.year as int));
        }
        let mut file: Vec<char> = Vec::new();
        file.push((now.month / 10 + 0x30) as char);
        file.push((now.month % 10 + 0x30) as char);
        file.push('-');
        file.push((now.day / 10 + 0x30) as char);
        file.push((now.day % 10 + 0x30) as char);
        push_str_chars(&mut file, ".jsonl");
        proof {
            reveal_strlit(".jsonl");
            reveal_strlit("-");
            assert(file@ =~= day_file_name(now.month as nat, now.day as nat));
        }
        let text = encode_event(&stamped);
        let mut line: Vec<char> = str_to_chars(text.as_str());
        line.push('\n');
        proof {
            reveal_strlit("\n");
            assert(line@ =~= enc_event(stamped@) + "\n"@);
        }
        AddPlan {
            dir: crate::foreign::chars_to_string(&dir),
            file: crate::foreign::chars_to_string(&file),
            line: crate::foreign::chars_to_string(&line),
            stamped,
        }
    }
}

/// How one stored line turns into one retrieval item: a line that is the
/// record text of an event yields that event; any other line yields one
/// internal error and nothing else.
pub open spec fn decoded_item(line: Seq<char>, it: Result<Event, ErrorDetails>) -> bool {
    match it {
        Result::Ok(e) => wf_event(e@) && line == enc_event(e@),
        Result::Err(err) => {
            &&& err.code == 500
            &&& err.message@ == "Internal server error"@
            &&& forall|m: EventV| wf_event(m) ==> line != enc_event(m)
        },
    }
}

/// Decodes the lines read from one partition, in the order they were
/// read. Each undecodable line becomes one internal-error item in place;
/// it never aborts the rest.
pub fn decode_partition_lines(lines: &Vec<String>) -> (r: Vec<Result<Event, ErrorDetails>>)
    ensures
        r@.len() == lines@.len(),
        forall|k: int| 0 <= k < lines@.len() ==> decoded_item(lines@[k]@, #[trigger] r@[k]),
{
    let mut out: Vec<Result<Event, ErrorDetails>> = Vec::new();
    let mut k: usize = 0;
    while k < lines.len()
        invariant
            k <= lines@.len(),
            out@.len() == k,
            forall|t: int| 0 <= t < k ==> decoded_item(lines@[t]@, #[trigger] out@[t]),
        decreases lines@.len() - k,
    {
        out.push(decode_event(lines[k].as_str()));
        k = k + 1;
    }
    out
}

/// The items a file-backed retrieval yields when the partition directory
/// does not exist: exactly one not-found failure and no events.
pub fn missing_partition_items() -> (r: Vec<Result<Event, ErrorDetails>>)
    ensures
        r@.len() == 1,
        r@[0] is Err,
        (r@[0]->Err_0).code == 404,
        (r@[0]->Err_0).message@ == "No data found (account, application, or credentials are invalid)"@,
{
    let mut out: Vec<Result<Event, ErrorDetails>> = Vec::new();
    out.push(Result::Err(crate::event::no_data_found()));
    out
}

/// Appends the characters of a literal.
fn push_str_chars(out: &mut Vec<char>, s: &str)
    ensures
        final(out)@ == old(out)@ + s@,
{
    let mut cs = str_to_chars(s);
    out.append(&mut cs);
}

/// Appends the characters of a string.
fn push_string_chars(out: &mut Vec<char>, s: &String)
    ensures
        final(out)@ == old(out)@ + s@,
{
    let mut cs = str_to_chars(s.as_str());
    out.append(&mut cs);
}

} // verus!
