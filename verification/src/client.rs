//! How clients find the conductor, and what they make of its answers.

use vstd::prelude::*;

use crate::path;
use crate::path::join_path;
use crate::protocol::{DependentFile, FileClassification, LinkOption, Response};
use crate::site::together;
use crate::text;
use crate::text::strip_prefix;

verus! {

/// The FNV-1a hash of a sequence of bytes, in 64 bits.
pub open spec fn fnv1a(bytes: Seq<u8>) -> u64
    decreases bytes.len(),
{
    if bytes.len() == 0 {
        0xcbf29ce484222325
    } else {
        let mixed = fnv1a(bytes.drop_last()) ^ (bytes.last() as u64);
        ((mixed * 0x100000001b3) % 0x1_0000_0000_0000_0000) as u64
    }
}

/// FNV-1a hash: deterministic across all builds.
pub fn fnv1a_hash(bytes: &[u8]) -> (r: u64)
    ensures
        r == fnv1a(bytes@),
{
    let mut hash: u64 = 0xcbf29ce484222325;
    let mut i: usize = 0;
    proof {
        assert(bytes@.take(0) =~= seq![]);
    }
    while i < bytes.len()
        invariant
            i <= bytes@.len(),
            hash == fnv1a(bytes@.take(i as int)),
        decreases bytes.len() - i,
    {
        proof {
            assert(bytes@.take(i + 1).drop_last() =~= bytes@.take(i as int));
            assert(bytes@.take(i + 1).last() == bytes@[i as int]);
        }
        hash = hash ^ (bytes[i] as u64);
        hash = hash.wrapping_mul(0x100000001b3);
        i += 1;
    }
    proof {
        assert(bytes@.take(i as int) =~= bytes@);
    }
    hash
}

/// The character of the hexadecimal digit `d`.
pub open spec fn hex_char(d: int) -> char {
    if d < 10 {
        ('0' as int + d) as char
    } else {
        ('a' as int + d - 10) as char
    }
}

/// The hexadecimal numeral of `n`, in lower case, without leading zeros.
pub open spec fn hex_digits(n: nat) -> Seq<char>
    decreases n,
{
    if n < 16 {
        seq![hex_char(n as int)]
    } else {
        hex_digits(n / 16).push(hex_char((n % 16) as int))
    }
}

/// The character of the hexadecimal digit `d`.
fn hex_digit(d: u8) -> (r: char)
    requires
        d < 16,
    ensures
        r == hex_char(d as int),
{
    if d < 10 {
        (48u8 + d) as char
    } else {
        (87u8 + d) as char
    }
}

/// The hexadecimal numeral of `n`, in lower case, without leading zeros.
pub fn hex_text(n: u64) -> (r: String)
    ensures
        r@ == hex_digits(n as nat),
    decreases n,
{
    if n < 16 {
        let mut out = String::new();
        out.push(hex_digit(n as u8));
        proof {
            assert(out@ =~= seq![hex_char(n as int)]);
        }
        out
    } else {
        let mut out = hex_text(n / 16);
        out.push(hex_digit((n % 16) as u8));
        out
    }
}

/// Where the sockets of conductors lie.
pub open spec fn sockets_in(runtime_dir: Option<Seq<char>>) -> Seq<char> {
    match runtime_dir {
        Some(dir) => path::path_join(dir, "presemble"@),
        None => path::path_join("/tmp"@, "presemble"@),
    }
}

/// Where the sockets of conductors lie: in the given directory for such files, or
/// under `/tmp`.
pub fn socket_dir(runtime_dir: Option<&str>) -> (r: String)
    ensures
        r@ == sockets_in(
            match runtime_dir {
                Some(dir) => Some(dir@),
                None => None,
            },
        ),
{
    match runtime_dir {
        Some(dir) => join_path(dir, "presemble"),
        None => join_path("/tmp", "presemble"),
    }
}

/// The URL of the socket of the conductor for a site.
pub open spec fn socket_of(site_dir: Seq<char>, runtime_dir: Option<Seq<char>>) -> Seq<char> {
    "ipc://"@ + sockets_in(runtime_dir) + "/"@ + hex_digits(
        fnv1a(vstd::utf8::encode_utf8(site_dir)) as nat,
    )
}

/// Compute the IPC socket URL for a site directory, whose path is canonical.
pub fn socket_url(site_dir: &str, runtime_dir: Option<&str>) -> (r: String)
    ensures
        r@ == socket_of(
            site_dir@,
            match runtime_dir {
                Some(dir) => Some(dir@),
                None => None,
            },
        ),
{
    let hash = fnv1a_hash(site_dir.as_bytes());
    let dir = socket_dir(runtime_dir);
    let mut out = together("ipc://", dir.as_str());
    out.append("/");
    let numeral = hex_text(hash);
    out.append(numeral.as_str());
    out
}

/// The files of the sockets at the given URL: that for commands and that for events.
pub fn socket_files(url: &str) -> (r: Option<(String, String)>)
    ensures
        match text::without_prefix(url@, "ipc://"@) {
            Some(p) => r matches Some(files) && files.0@ == p && files.1@ == p + "-pub"@,
            None => r is None,
        },
{
    match strip_prefix(url, "ipc://") {
        Some(p) => {
            let events = together(p.as_str(), "-pub");
            Some((p, events))
        },
        None => None,
    }
}

/// How often a client looks for a conductor that it started.
pub const ATTEMPTS: u32 = 50;

/// How long it waits before each time, in milliseconds.
pub const PAUSE_MILLIS: u64 = 100;

/// What a client that looks for the conductor does next.
#[derive(Debug, PartialEq, Eq)]
pub enum Launch {
    /// The conductor answers.
    Ready,
    /// A socket was left behind: it is removed, and a conductor is started.
    Replace,
    /// A conductor is started.
    Spawn,
    /// After a pause, it looks again; so often is it still done.
    Retry { left: u32 },
    Failed(String),
}

/// What follows once a client looked for a conductor that is there already.
pub fn after_first_look(connected: bool, answers: bool) -> (r: Launch)
    ensures
        r == if connected && answers {
            Launch::Ready
        } else if connected {
            Launch::Replace
        } else {
            Launch::Spawn
        },
{
    if connected && answers {
        Launch::Ready
    } else if connected {
        Launch::Replace
    } else {
        Launch::Spawn
    }
}

/// What follows once a client started a conductor.
pub fn after_spawn() -> (r: Launch)
    ensures
        r == (Launch::Retry { left: ATTEMPTS }),
{
    Launch::Retry { left: ATTEMPTS }
}

/// What follows once a client looked for the conductor that it started, when it was
/// still to look `left` times.
pub fn after_look(left: u32, connected: bool, answers: bool) -> (r: Launch)
    ensures
        if connected && answers {
            r == Launch::Ready
        } else if left > 1 {
            r == (Launch::Retry { left: (left - 1) as u32 })
        } else {
            r matches Launch::Failed(message) && message@
                == "conductor failed to start within 5 seconds"@
        },
{
    if connected && answers {
        Launch::Ready
    } else if left > 1 {
        Launch::Retry { left: left - 1 }
    } else {
        Launch::Failed("conductor failed to start within 5 seconds".to_owned())
    }
}

/// Whether an answer that was not asked for is refused: with the message of an
/// error, or as it is shown.
pub open spec fn refused<T>(response: Response, shown: Seq<char>, r: Result<T, String>) -> bool {
    r matches Err(e) && e@ == match response {
        Response::Error(message) => message@,
        _ => "unexpected response: "@ + shown,
    }
}

/// The message with which an answer that was not asked for is refused.
fn refusal(response: Response, shown: &str) -> (r: String)
    ensures
        r@ == match response {
            Response::Error(message) => message@,
            _ => "unexpected response: "@ + shown@,
        },
{
    match response {
        Response::Error(message) => message,
        _ => together("unexpected response: ", shown),
    }
}

/// What the answer to a ping says. `shown` is the answer as it is shown.
pub fn ping_answer(response: Response, shown: &str) -> (r: Result<(), String>)
    ensures
        if response is Pong {
            r is Ok
        } else {
            r matches Err(e) && e@ == "unexpected response to ping: "@ + shown@
        },
{
    match response {
        Response::Pong => Ok(()),
        _ => Err(together("unexpected response to ping: ", shown)),
    }
}

/// The role of a file that was asked for.
pub fn classification_answer(response: Response, shown: &str) -> (r: Result<
    FileClassification,
    String,
>)
    ensures
        match response {
            Response::FileClassification(kind) => r == Ok::<FileClassification, String>(kind),
            _ => refused(response, shown@, r),
        },
{
    match response {
        Response::FileClassification(kind) => Ok(kind),
        other => Err(refusal(other, shown)),
    }
}

/// The source of a schema that was asked for.
pub fn schema_source_answer(response: Response, shown: &str) -> (r: Result<
    Option<String>,
    String,
>)
    ensures
        match response {
            Response::SchemaSource(source) => r == Ok::<Option<String>, String>(source),
            _ => refused(response, shown@, r),
        },
{
    match response {
        Response::SchemaSource(source) => Ok(source),
        other => Err(refusal(other, shown)),
    }
}

/// The text of a document that was asked for.
pub fn document_text_answer(response: Response, shown: &str) -> (r: Result<
    Option<String>,
    String,
>)
    ensures
        match response {
            Response::DocumentText(text) => r == Ok::<Option<String>, String>(text),
            _ => refused(response, shown@, r),
        },
{
    match response {
        Response::DocumentText(text) => Ok(text),
        other => Err(refusal(other, shown)),
    }
}

/// The content files that were asked for.
pub fn content_list_answer(response: Response, shown: &str) -> (r: Result<Vec<String>, String>)
    ensures
        match response {
            Response::ContentList(paths) => r == Ok::<Vec<String>, String>(paths),
            _ => refused(response, shown@, r),
        },
{
    match response {
        Response::ContentList(paths) => Ok(paths),
        other => Err(refusal(other, shown)),
    }
}

/// The schemas that were asked for.
pub fn schema_list_answer(response: Response, shown: &str) -> (r: Result<
    Vec<(String, String)>,
    String,
>)
    ensures
        match response {
            Response::SchemaList(list) => r == Ok::<Vec<(String, String)>, String>(list),
            _ => refused(response, shown@, r),
        },
{
    match response {
        Response::SchemaList(list) => Ok(list),
        other => Err(refusal(other, shown)),
    }
}

/// The link options that were asked for.
pub fn link_options_answer(response: Response, shown: &str) -> (r: Result<
    Vec<LinkOption>,
    String,
>)
    ensures
        match response {
            Response::LinkOptions(options) => r == Ok::<Vec<LinkOption>, String>(options),
            _ => refused(response, shown@, r),
        },
{
    match response {
        Response::LinkOptions(options) => Ok(options),
        other => Err(refusal(other, shown)),
    }
}

/// Whether what was asked for exists.
pub fn exists_answer(response: Response, shown: &str) -> (r: Result<bool, String>)
    ensures
        match response {
            Response::Exists(exists) => r == Ok::<bool, String>(exists),
            _ => refused(response, shown@, r),
        },
{
    match response {
        Response::Exists(exists) => Ok(exists),
        other => Err(refusal(other, shown)),
    }
}

/// The dependent files that were asked for.
pub fn dependents_answer(response: Response, shown: &str) -> (r: Result<
    Vec<DependentFile>,
    String,
>)
    ensures
        match response {
            Response::Dependents(files) => r == Ok::<Vec<DependentFile>, String>(files),
            _ => refused(response, shown@, r),
        },
{
    match response {
        Response::Dependents(files) => Ok(files),
        other => Err(refusal(other, shown)),
    }
}

/// Different numbers have different hexadecimal digits.
pub proof fn law_hex_digits_tell_numbers_apart(a: nat, b: nat)
    ensures
        hex_digits(a) == hex_digits(b) ==> a == b,
        hex_digits(a).len() > 0,
        a < 16 <==> hex_digits(a).len() == 1,
    decreases a,
{
    if a >= 16 {
        law_hex_digits_tell_numbers_apart(a / 16, b / 16);
    }
    if b >= 16 {
        lemma_hex_len(b / 16);
        assert(hex_digits(b) == hex_digits(b / 16).push(hex_char((b % 16) as int)));
    } else {
        assert(hex_digits(b) == seq![hex_char(b as int)]);
    }
    if a >= 16 {
        assert(hex_digits(a) == hex_digits(a / 16).push(hex_char((a % 16) as int)));
    } else {
        assert(hex_digits(a) == seq![hex_char(a as int)]);
    }
    if hex_digits(a) == hex_digits(b) {
        let x = hex_digits(a);
        if a >= 16 && b >= 16 {
            assert(x.drop_last() =~= hex_digits(a / 16));
            assert(x.drop_last() =~= hex_digits(b / 16));
            assert(x.last() == hex_char((a % 16) as int));
            assert(x.last() == hex_char((b % 16) as int));
            assert(a % 16 == b % 16);
            assert(a == 16 * (a / 16) + a % 16);
            assert(b == 16 * (b / 16) + b % 16);
        } else if a < 16 && b < 16 {
            assert(x[0] == hex_char(a as int) && x[0] == hex_char(b as int));
        }
    }
}

/// There is at least one hexadecimal digit.
proof fn lemma_hex_len(n: nat)
    ensures
        hex_digits(n).len() > 0,
    decreases n,
{
    if n >= 16 {
        lemma_hex_len(n / 16);
    }
}

/// Sites whose hashes differ have different sockets, in the directory for sockets.
pub proof fn law_socket_of_a_site(a: Seq<char>, b: Seq<char>, dir: Seq<char>)
    ensures
        fnv1a(vstd::utf8::encode_utf8(a)) != fnv1a(vstd::utf8::encode_utf8(b)) ==> socket_of(
            a,
            Some(dir),
        ) != socket_of(b, Some(dir)),
        text::begins_with(
            socket_of(a, Some(dir)),
            "ipc://"@ + path::path_join(dir, "presemble"@) + "/"@,
        ),
        text::begins_with(
            socket_of(a, None),
            "ipc://"@ + path::path_join("/tmp"@, "presemble"@) + "/"@,
        ),
{
    let start = "ipc://"@ + path::path_join(dir, "presemble"@) + "/"@;
    let other = "ipc://"@ + path::path_join("/tmp"@, "presemble"@) + "/"@;
    let x = fnv1a(vstd::utf8::encode_utf8(a)) as nat;
    let y = fnv1a(vstd::utf8::encode_utf8(b)) as nat;
    law_hex_digits_tell_numbers_apart(x, y);
    assert(socket_of(a, Some(dir)).skip(start.len() as int) =~= hex_digits(x));
    assert(socket_of(b, Some(dir)).skip(start.len() as int) =~= hex_digits(y));
    assert(socket_of(a, Some(dir)).take(start.len() as int) =~= start);
    assert(socket_of(a, None).take(other.len() as int) =~= other);
}

} // verus!
