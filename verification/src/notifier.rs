//! Deciding on update notices: reading the latest published version out
//! of a registry's version listing, comparing it against the running
//! version, and rendering the notice text. Fetching the listing is the
//! caller's business.

use vstd::prelude::*;
use vstd::string::StringExecFns;
use crate::text::str_to_chars;

verus! {

/// The registry queried for published versions.
pub const REGISTRY_URL: &'static str = "https://crates.io";

/// One published version, as the registry lists it.
pub struct Version {
    pub num: String,
}

/// One error entry of the registry's error listing.
pub struct JsonError {
    pub detail: String,
}

/// The registry's answer: a version listing or an error listing.
pub struct VersionResponse {
    pub versions: Option<Vec<Version>>,
    pub errors: Option<Vec<JsonError>>,
}

/// What can go wrong reading the registry's answer.
pub enum ErrorKind {
    UnableToParseJson(String),
    RegistryError(String),
}

/// The latest version out of a registry answer: the first listed
/// version; a registry error or an answer listing neither versions nor
/// errors is reported as such.
pub fn get_latest_from_json(resp: &VersionResponse) -> (r: Result<String, ErrorKind>)
    ensures
        (resp.versions is Some && resp.versions->0@.len() > 0) ==> (r matches Ok(s) && s@
            == resp.versions->0@[0].num@),
        (resp.versions is Some && resp.versions->0@.len() == 0) ==> (r matches Err(
            ErrorKind::UnableToParseJson(m),
        ) && m@ == "Versions array is empty"@),
        (resp.versions is None && resp.errors is Some && resp.errors->0@.len() > 0) ==> (r matches Err(
            ErrorKind::RegistryError(d),
        ) && d@ == resp.errors->0@[0].detail@),
        (resp.versions is None && resp.errors is Some && resp.errors->0@.len() == 0) ==> (r matches Err(
            ErrorKind::UnableToParseJson(m),
        ) && m@ == "No errors in the errors array"@),
        (resp.versions is None && resp.errors is None) ==> (r matches Err(
            ErrorKind::UnableToParseJson(m),
        ) && m@ == "Invalid json response, does not have versions or errors"@),
{
    match &resp.versions {
        Some(versions) => {
            if versions.len() > 0 {
                Ok(versions[0].num.clone())
            } else {
                Err(ErrorKind::UnableToParseJson(String::from_str("Versions array is empty")))
            }
        },
        None => match &resp.errors {
            Some(errors) => {
                if errors.len() > 0 {
                    Err(ErrorKind::RegistryError(errors[0].detail.clone()))
                } else {
                    Err(ErrorKind::UnableToParseJson(String::from_str(
                        "No errors in the errors array",
                    )))
                }
            },
            None => Err(ErrorKind::UnableToParseJson(String::from_str(
                "Invalid json response, does not have versions or errors",
            ))),
        },
    }
}

/// A run of `n` horizontal bars.
pub open spec fn dash_run(n: nat) -> Seq<char>
    decreases n,
{
    if n == 0 {
        Seq::empty()
    } else {
        dash_run((n - 1) as nat).push('─')
    }
}

/// The border line of a notice: as many extra bars as the name has
/// characters.
pub open spec fn border_line(name: Seq<char>) -> Seq<char> {
    "\n───────────────────────────────────────────────────────"@ + dash_run(name.len())
        + "\n"@
}

/// The notice text announcing a newer published version.
pub open spec fn spec_notice(name: Seq<char>, current: Seq<char>, latest: Seq<char>) -> Seq<char> {
    border_line(name) + "\n    A new version of "@ + name + " is available! "@ + current
        + " → "@ + latest + "\n    Use `cargo install "@ + name + "` to install version "@
        + latest + "\n    Check https://crates.io/crates/"@ + name + " for more details\n    "@
        + border_line(name)
}

fn border_chars(name_len: usize, out: &mut Vec<char>)
    ensures
        final(out)@ == old(out)@ + "\n───────────────────────────────────────────────────────"@
            + dash_run(name_len as nat) + "\n"@,
{
    crate::text::push_str_chars(
        out,
        "\n───────────────────────────────────────────────────────",
    );
    let ghost mid = out@;
    let mut i: usize = 0;
    while i < name_len
        invariant
            i <= name_len,
            out@ == mid + dash_run(i as nat),
        decreases name_len - i,
    {
        out.push('─');
        i = i + 1;
    }
    crate::text::push_str_chars(out, "\n");
}

/// Render the notice announcing that `latest_version` supersedes
/// `current_version` of `name`.
pub fn generate_notice(name: &str, current_version: &str, latest_version: &str) -> (r: String)
    ensures
        r@ == spec_notice(name@, current_version@, latest_version@),
{
    let name_chars = str_to_chars(name);
    let mut out: Vec<char> = Vec::new();
    border_chars(name_chars.len(), &mut out);
    crate::text::push_str_chars(&mut out, "\n    A new version of ");
    crate::text::push_str_chars(&mut out, name);
    crate::text::push_str_chars(&mut out, " is available! ");
    crate::text::push_str_chars(&mut out, current_version);
    crate::text::push_str_chars(&mut out, " → ");
    crate::text::push_str_chars(&mut out, latest_version);
    crate::text::push_str_chars(&mut out, "\n    Use `cargo install ");
    crate::text::push_str_chars(&mut out, name);
    crate::text::push_str_chars(&mut out, "` to install version ");
    crate::text::push_str_chars(&mut out, latest_version);
    crate::text::push_str_chars(&mut out, "\n    Check https://crates.io/crates/");
    crate::text::push_str_chars(&mut out, name);
    crate::text::push_str_chars(&mut out, " for more details\n    ");
    border_chars(name_chars.len(), &mut out);
    proof {
        assert(out@ =~= spec_notice(name@, current_version@, latest_version@));
    }
    crate::text::chars_to_string(&out)
}

/// Whether the running version is the latest one: true when they are the
/// same, false when the registry lists another.
pub fn check_latest_version(name: &str, current_version: &str, latest_version: &str) -> (r: bool)
    ensures
        r == (latest_version@ == current_version@),
{
    crate::table::eq_str(latest_version, current_version)
}

} // verus!
