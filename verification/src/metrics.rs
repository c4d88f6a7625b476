//! Names of report files: sanitized path components, dataset labels and
//! timestamp tokens.
use vstd::prelude::*;
use crate::text::{chars_of, decimal, digit_char, push_decimal_u64, push_str, string_from_chars};

verus! {

/// A character kept as it is in a file-name component.
pub open spec fn component_char(c: char) -> bool {
    ('a' <= c && c <= 'z') || ('A' <= c && c <= 'Z') || ('0' <= c && c <= '9') || c == '-' || c
        == '_'
}

/// Every other character becomes `_`; an empty result becomes `default`.
pub open spec fn sanitize_spec(s: Seq<char>) -> Seq<char> {
    let m = s.map_values(|c: char| if component_char(c) { c } else { '_' });
    if m.len() == 0 {
        "default"@
    } else {
        m
    }
}

/// A file-name component made of ASCII letters, digits, `-` and `_`: other
/// characters become `_`, and an empty value becomes `default`.
pub fn sanitize_component(value: &str) -> (s: String)
    ensures
        s@ == sanitize_spec(value@),
{
    let cs = chars_of(value);
    let mut out: Vec<char> = Vec::new();
    let mut i: usize = 0;
    while i < cs.len()
        invariant
            i <= cs@.len(),
            cs@ == value@,
            out@ == value@.take(i as int).map_values(|c: char| if component_char(c) { c } else { '_' }),
        decreases cs@.len() - i,
    {
        let c = cs[i];
        let keep = ('a' <= c && c <= 'z') || ('A' <= c && c <= 'Z') || ('0' <= c && c <= '9') || c
            == '-' || c == '_';
        if keep {
            out.push(c);
        } else {
            out.push('_');
        }
        assert(value@.take(i + 1) =~= value@.take(i as int).push(c));
        i = i + 1;
    }
    assert(value@.take(value@.len() as int) =~= value@);
    if out.len() == 0 {
        let mut d: Vec<char> = Vec::new();
        push_str(&mut d, "default");
        string_from_chars(d.as_slice())
    } else {
        string_from_chars(out.as_slice())
    }
}

/// Whether a path has an extension, as `Path::extension` decides.
pub uninterp spec fn path_has_extension_spec(p: Seq<char>) -> bool;

/// A path's parent, as `Path::parent` gives it.
pub uninterp spec fn path_parent_spec(p: Seq<char>) -> Option<Seq<char>>;

/// A path's last component, as `Path::file_name` gives it.
pub uninterp spec fn path_file_name_spec(p: Seq<char>) -> Option<Seq<char>>;

/// A path's last component without its extension, as `Path::file_stem`
/// gives it.
pub uninterp spec fn path_file_stem_spec(p: Seq<char>) -> Option<Seq<char>>;

pub open spec fn opt_string(o: Option<String>) -> Option<Seq<char>> {
    match o {
        Some(s) => Some(s@),
        None => None,
    }
}

/// `Path::extension`, asked only whether there is one: a function of the
/// path's characters; its value is left to the name `path_has_extension_spec`.
#[verifier::external_body]
fn path_has_extension(p: &str) -> (r: bool)
    ensures
        r == path_has_extension_spec(p@),
{
    std::path::Path::new(p).extension().is_some()
}

/// `Path::parent`, as a string: a function of the path's characters; its
/// value is left to the name `path_parent_spec`.
#[verifier::external_body]
fn path_parent(p: &str) -> (r: Option<String>)
    ensures
        opt_string(r) == path_parent_spec(p@),
{
    match std::path::Path::new(p).parent() {
        Some(parent) => parent.to_str().map(String::from),
        None => None,
    }
}

/// `Path::file_name`, as a string: a function of the path's characters; its
/// value is left to the name `path_file_name_spec`.
#[verifier::external_body]
fn path_file_name(p: &str) -> (r: Option<String>)
    ensures
        opt_string(r) == path_file_name_spec(p@),
{
    match std::path::Path::new(p).file_name() {
        Some(name) => name.to_str().map(String::from),
        None => None,
    }
}

/// `Path::file_stem`, as a string: a function of the path's characters; its
/// value is left to the name `path_file_stem_spec`.
#[verifier::external_body]
fn path_file_stem(p: &str) -> (r: Option<String>)
    ensures
        opt_string(r) == path_file_stem_spec(p@),
{
    match std::path::Path::new(p).file_stem() {
        Some(stem) => stem.to_str().map(String::from),
        None => None,
    }
}

/// The component that names a dataset: for a file, the directory holding
/// it (else the file's stem); for a directory, its name (else its stem).
pub open spec fn dataset_candidate(p: Seq<char>) -> Option<Seq<char>> {
    if path_has_extension_spec(p) {
        match path_parent_spec(p) {
            Some(parent) => match path_file_name_spec(parent) {
                Some(n) => Some(n),
                None => path_file_stem_spec(p),
            },
            None => path_file_stem_spec(p),
        }
    } else {
        match path_file_name_spec(p) {
            Some(n) => Some(n),
            None => path_file_stem_spec(p),
        }
    }
}

/// The label of a dataset: its naming component, sanitized, or `default`.
pub open spec fn dataset_label_spec(p: Seq<char>) -> Seq<char> {
    match dataset_candidate(p) {
        Some(c) => sanitize_spec(c),
        None => "default"@,
    }
}

/// The label a dataset path gets in reports.
pub fn dataset_label_from_path(path: &str) -> (s: String)
    ensures
        s@ == dataset_label_spec(path@),
{
    let candidate = if path_has_extension(path) {
        let from_parent = match path_parent(path) {
            Some(parent) => path_file_name(parent.as_str()),
            None => None,
        };
        match from_parent {
            Some(n) => Some(n),
            None => path_file_stem(path),
        }
    } else {
        match path_file_name(path) {
            Some(n) => Some(n),
            None => path_file_stem(path),
        }
    };
    match candidate {
        Some(c) => sanitize_component(c.as_str()),
        None => {
            let mut d: Vec<char> = Vec::new();
            push_str(&mut d, "default");
            string_from_chars(d.as_slice())
        },
    }
}

/// The three decimal digits of `m < 1000`, zero-padded.
pub open spec fn three_digits(m: nat) -> Seq<char> {
    seq![digit_char(m / 100), digit_char((m / 10) % 10), digit_char(m % 10)]
}

/// A timestamp token: seconds, `_`, milliseconds in three digits.
pub open spec fn timestamp_text(secs: u64, millis: u32) -> Seq<char> {
    decimal(secs as nat) + seq!['_'] + three_digits(millis as nat)
}

/// The time since the Unix epoch (zero when the clock is before it), as whole
/// seconds and the milliseconds of the last second; the milliseconds are
/// below 1000, as `Duration::subsec_millis` documents.
#[verifier::external_body]
fn unix_time_now() -> (r: (u64, u32))
    ensures
        r.1 < 1000,
{
    let now = std::time::SystemTime::now().duration_since(std::time::UNIX_EPOCH).unwrap_or_default();
    (now.as_secs(), now.subsec_millis())
}

/// The token for a time given in seconds and milliseconds.
pub fn format_timestamp_token(secs: u64, millis: u32) -> (s: String)
    requires
        millis < 1000,
    ensures
        s@ == timestamp_text(secs, millis),
{
    let mut cs: Vec<char> = Vec::new();
    push_decimal_u64(&mut cs, secs);
    cs.push('_');
    let m = millis as u64;
    push_decimal_u64(&mut cs, m / 100);
    push_decimal_u64(&mut cs, (m / 10) % 10);
    push_decimal_u64(&mut cs, m % 10);
    proof {
        assert(decimal((m / 100) as nat) == seq![digit_char((m / 100) as nat)]);
        assert(decimal(((m / 10) % 10) as nat) == seq![digit_char(((m / 10) % 10) as nat)]);
        assert(decimal((m % 10) as nat) == seq![digit_char((m % 10) as nat)]);
    }
    assert(cs@ =~= timestamp_text(secs, millis));
    string_from_chars(cs.as_slice())
}

/// A token for the current time, unique per millisecond.
pub fn timestamp_token() -> (s: String)
    ensures
        exists|secs: u64, millis: u32| millis < 1000 && s@ == timestamp_text(secs, millis),
{
    let (secs, millis) = unix_time_now();
    format_timestamp_token(secs, millis)
}

/// The name of a report file: prefix, `-`, timestamp token, `.txt`.
pub open spec fn report_file_name(prefix: Seq<char>, token: Seq<char>) -> Seq<char> {
    prefix + seq!['-'] + token + ".txt"@
}

/// The file name of a timestamped report.
pub fn timestamped_report_name(prefix: &str) -> (s: String)
    ensures
        exists|secs: u64, millis: u32|
            millis < 1000 && s@ == report_file_name(prefix@, timestamp_text(secs, millis)),
{
    let token = timestamp_token();
    let mut cs: Vec<char> = Vec::new();
    push_str(&mut cs, prefix);
    cs.push('-');
    push_str(&mut cs, token.as_str());
    push_str(&mut cs, ".txt");
    let s = string_from_chars(cs.as_slice());
    assert(s@ =~= report_file_name(prefix@, token@));
    s
}

/// The manager's run report file name:
/// `{dataset}-{concurrency}-{route_mode}-{persistence_mode}-{upload_records}.txt`.
pub fn run_report_file_name(
    dataset: &str,
    concurrency: u32,
    route_mode: &str,
    persistence_mode: &str,
    upload_records: u64,
) -> (s: String)
    ensures
        s@ == dataset@ + "-"@ + decimal(concurrency as nat) + "-"@ + route_mode@ + "-"@
            + persistence_mode@ + "-"@ + decimal(upload_records as nat) + ".txt"@,
{
    let mut cs: Vec<char> = Vec::new();
    push_str(&mut cs, dataset);
    push_str(&mut cs, "-");
    push_decimal_u64(&mut cs, concurrency as u64);
    push_str(&mut cs, "-");
    push_str(&mut cs, route_mode);
    push_str(&mut cs, "-");
    push_str(&mut cs, persistence_mode);
    push_str(&mut cs, "-");
    push_decimal_u64(&mut cs, upload_records);
    push_str(&mut cs, ".txt");
    let s = string_from_chars(cs.as_slice());
    s
}

} // verus!
