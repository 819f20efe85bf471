//! Build attribution for logs: the version stamp of every sync cycle and the
//! place and banner of the captured error stream.
use vstd::prelude::*;
use crate::text::{string_of, push_str, chars_of};
use crate::winpath::spec_join;

verus! {

/// The version this library belongs to.
pub open spec fn app_version() -> Seq<char> {
    "1.5.3"@
}

/// The version text itself, as updates compare it.
pub fn version_text() -> (r: String)
    ensures
        r@ == app_version(),
{
    string_of(&chars_of("1.5.3"))
}

/// `LRGEX Restore v<version>`: heads every sync cycle in the log.
pub fn version_stamp() -> (r: String)
    ensures
        r@ == "LRGEX Restore v"@ + app_version(),
{
    let mut v: Vec<char> = Vec::new();
    push_str(&mut v, "LRGEX Restore v");
    push_str(&mut v, "1.5.3");
    string_of(&v)
}

/// `<home>\.lrgex\stderr.log`: where the error stream of a launch is kept.
pub fn stderr_log_path(home: &str) -> (r: String)
    ensures
        r@ == spec_join(spec_join(home@, ".lrgex"@), "stderr.log"@),
{
    let d = crate::config::data_dir(home);
    crate::config::join(d.as_str(), "stderr.log")
}

/// The first line of the error log of a launch.
pub fn launch_banner(timestamp: &str) -> (r: String)
    ensures
        r@ == "=== LRGEX Restore v"@ + app_version() + " launched at "@ + timestamp@ + " ===\r\n"@,
{
    let mut v: Vec<char> = Vec::new();
    push_str(&mut v, "=== LRGEX Restore v");
    push_str(&mut v, "1.5.3");
    push_str(&mut v, " launched at ");
    push_str(&mut v, timestamp);
    push_str(&mut v, " ===\r\n");
    string_of(&v)
}

} // verus!
