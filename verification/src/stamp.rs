//! When a suggestion was made, and for which version of the site.

use vstd::prelude::*;

use crate::conductor::Conductor;
use crate::text;
use crate::text::{chars_of, index_from, text_between, trim};

verus! {

/// The moment that lies the given number of nanoseconds after the Unix epoch, as
/// ISO 8601 in UTC, where it can be written so.
pub uninterp spec fn iso8601_form(nanoseconds: i128) -> Option<Seq<char>>;

/// `OffsetDateTime::from_unix_timestamp_nanos`, then `OffsetDateTime::format` with
/// `Iso8601::DEFAULT`, both of the `time` crate: the text is a function of the
/// timestamp alone. There is none for a moment outside the range of the type, or
/// with a year that has not four digits.
#[verifier::external_body]
fn iso8601_text(nanoseconds: i128) -> (r: Option<String>)
    ensures
        text::opt_text(r) == iso8601_form(nanoseconds),
{
    let moment = time::OffsetDateTime::from_unix_timestamp_nanos(nanoseconds).ok()?;
    moment.format(&time::format_description::well_known::Iso8601::DEFAULT).ok()
}

/// A moment in UTC without the fraction of its seconds.
pub open spec fn whole_seconds(moment: Seq<char>) -> Seq<char> {
    let at = text::first_index(moment, '.');
    if at < moment.len() {
        moment.take(at) + "Z"@
    } else {
        moment
    }
}

/// A moment in UTC without the fraction of its seconds.
pub fn to_whole_seconds(moment: &str) -> (r: String)
    ensures
        r@ == whole_seconds(moment@),
{
    let chars = chars_of(moment);
    let at: usize = index_from(&chars, 0, '.');
    proof {
        assert(chars@.skip(0) =~= chars@);
        text::lemma_first_index(moment@, '.');
    }
    if at < chars.len() {
        let mut out = text_between(&chars, 0, at);
        out.append("Z");
        proof {
            assert(chars@.subrange(0, at as int) =~= moment@.take(at as int));
        }
        out
    } else {
        moment.to_owned()
    }
}

/// How a moment is written down: `YYYY-MM-DDTHH:MM:SSZ`. One that cannot be written
/// so is that of the Unix epoch.
pub open spec fn moment_text(written: Option<Seq<char>>) -> Seq<char> {
    match written {
        Some(moment) => whole_seconds(moment),
        None => "1970-01-01T00:00:00Z"@,
    }
}

/// The moment that lies the given number of nanoseconds after the Unix epoch, in
/// UTC, to the second.
pub fn iso8601_at(nanoseconds: i128) -> (r: String)
    ensures
        r@ == moment_text(iso8601_form(nanoseconds)),
{
    match iso8601_text(nanoseconds) {
        Some(moment) => to_whole_seconds(moment.as_str()),
        None => "1970-01-01T00:00:00Z".to_owned(),
    }
}

impl Conductor {
    /// The version of the site: what `git rev-parse HEAD` printed, where it
    /// succeeded.
    pub fn workspace_hash(head: Option<String>) -> (r: String)
        ensures
            r@ == match head {
                Some(out) => text::trimmed(out@),
                None => "untracked"@,
            },
    {
        match head {
            Some(out) => trim(out.as_str()),
            None => "untracked".to_owned(),
        }
    }
}

/// A moment is given to the second: what follows the point is left out, and the moment
/// ends with a `Z`.
pub proof fn law_moments_have_whole_seconds(seconds: Seq<char>, fraction: Seq<char>)
    requires
        !seconds.contains('.'),
    ensures
        whole_seconds(seconds + seq!['.'] + fraction) == seconds + seq!['Z'],
        whole_seconds(seconds) == seconds,
{
    reveal_strlit("Z");
    let all = seconds + seq!['.'] + fraction;
    assert forall|k: int| 0 <= k < seconds.len() implies all[k] != '.' && seconds[k] != '.' by {
        assert(seconds.contains(seconds[k]));
    }
    assert(all[seconds.len() as int] == '.');
    text::lemma_first_index_is(all, '.', seconds.len() as int);
    text::lemma_first_index_is(seconds, '.', seconds.len() as int);
    assert(all.take(seconds.len() as int) =~= seconds);
    assert("Z"@ =~= seq!['Z']);
}

} // verus!
