use vstd::prelude::*;

use vstd::string::StringExecFns;
use rand::Rng;
use rand::distributions::Alphanumeric;
use crate::LinkerError;

verus! {

/// Is `c` in the alphabet the instance-suffix generator draws from?
pub open spec fn is_alnum_char(c: char) -> bool {
    ('a' <= c && c <= 'z') || ('A' <= c && c <= 'Z') || ('0' <= c && c <= '9')
}

/// Relies on rand's `Alphanumeric` distribution: sampling it `length` times
/// yields exactly `length` characters, each drawn from a-z, A-Z and 0-9.
/// Which characters come back is left open.
#[verifier::external_body]
pub(crate) fn generate_random_string(length: usize) -> (r: String)
    ensures
        r@.len() == length as int,
        forall|i: int| 0 <= i < r@.len() ==> is_alnum_char(#[trigger] r@[i]),
{
    rand::thread_rng().sample_iter(&Alphanumeric).take(length).map(char::from).collect()
}

/// Relies on dirs::home_dir, which asks the environment for the user's home
/// directory; nothing is promised of the outcome.
#[verifier::external_body]
fn home_dir_string() -> (r: Option<String>) {
    dirs::home_dir().and_then(|p| p.to_str().map(|s| s.to_string()))
}

/// The registry path under a given home directory.
pub open spec fn config_path_of(home: Seq<char>) -> Seq<char> {
    home + "/.linker/config.json"@
}

/// The registry path under `home`: `<home>/.linker/config.json`.
pub fn config_path_for_home(home: &str) -> (r: String)
    ensures
        r@ == config_path_of(home@),
{
    let mut s = home.to_owned();
    s.append("/.linker/config.json");
    s
}

/// The default registry location, when a home directory can be determined.
pub fn get_default_config_path() -> (r: Result<String, LinkerError>)
    ensures
        match r {
            Ok(p) => exists|h: Seq<char>| p@ == #[trigger] config_path_of(h),
            Err(e) => e is MissingHomeDirectory,
        },
{
    match home_dir_string() {
        Some(h) => {
            let p = config_path_for_home(h.as_str());
            proof {
                assert(p@ == config_path_of(h@));
            }
            Ok(p)
        },
        None => Err(LinkerError::MissingHomeDirectory),
    }
}

} // verus!
