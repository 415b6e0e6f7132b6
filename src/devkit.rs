//! Names, paths and commands used to deploy a game to a devkit, and the
//! decision on a registration reply.

use vstd::prelude::*;
use vstd::string::{StrSliceExecFns, StringExecFns};

verus! {

/// Account the devkit runs games under.
pub const DEVKIT_USER: &'static str = "deck";

/// Phrase appended to the public key when registering.
pub const REGISTER_PHRASE: &'static str = " 900b919520e4cf601998a71eec318fec\n";

/// `user@addr`, as ssh and scp take it.
pub fn ssh_host(username: &str, addr: &str) -> (r: String)
    ensures
        r@ == username@ + "@"@ + addr@,
{
    username.to_owned().concat("@").concat(addr)
}

/// Address of the registration endpoint of a devkit.
pub fn register_url(addr: &str) -> (r: String)
    ensures
        r@ == "http://"@ + addr@ + ":32000/register"@,
{
    "http://".to_owned().concat(addr).concat(":32000/register")
}

/// The public key without its last character (the line break), followed
/// by the registration phrase.
pub open spec fn registration_payload_of(public_key: Seq<char>) -> Seq<char> {
    if public_key.len() == 0 {
        REGISTER_PHRASE@
    } else {
        public_key.drop_last() + REGISTER_PHRASE@
    }
}

/// Body of a registration request.
pub fn registration_payload(public_key: &String) -> (r: String)
    ensures
        r@ == registration_payload_of(public_key@),
{
    let s = public_key.as_str();
    let n = s.unicode_len();
    if n == 0 {
        return REGISTER_PHRASE.to_owned();
    }
    s.substring_char(0, n - 1).to_owned().concat(REGISTER_PHRASE)
}

/// Directory that holds a deployed game on the devkit.
pub fn game_dir(username: &str, game_id: &str) -> (r: String)
    ensures
        r@ == "/home/"@ + username@ + "/decker-games/"@ + game_id@,
{
    "/home/".to_owned().concat(username).concat("/decker-games/").concat(game_id)
}

/// Path of a deployed game's program on the devkit.
pub fn game_exec_path(username: &str, game_id: &str, exec: &str) -> (r: String)
    ensures
        r@ == "/home/"@ + username@ + "/decker-games/"@ + game_id@ + "/"@ + exec@,
{
    game_dir(username, game_id).concat("/").concat(exec)
}

/// The start directory given, or else the game's directory.
pub fn starting_dir_or_default(username: &str, game_id: &str, starting_dir: Option<String>) -> (r: String)
    ensures
        r@ == match starting_dir {
            Some(d) => d@,
            None => "/home/"@ + username@ + "/decker-games/"@ + game_id@,
        },
{
    match starting_dir {
        Some(d) => d,
        None => game_dir(username, game_id),
    }
}

/// A directory path that ends with `/`, so that its content is copied
/// rather than the directory itself.
pub fn with_trailing_slash(dir: &String) -> (r: String)
    requires
        dir@.len() > 0,
    ensures
        r@ == if dir@.last() == '/' {
            dir@
        } else {
            dir@ + "/"@
        },
{
    let s = dir.as_str();
    let n = s.unicode_len();
    if s.get_char(n - 1) == '/' {
        dir.clone()
    } else {
        dir.clone().concat("/")
    }
}

/// Where the files of a game go on the devkit.
pub fn remote_game_dir(game_id: &str) -> (r: String)
    ensures
        r@ == "~/decker-games/"@ + game_id@,
{
    "~/decker-games/".to_owned().concat(game_id)
}

/// Command run on the devkit to make room for a game's files.
pub fn prepare_upload_command(game_id: &str) -> (r: String)
    ensures
        r@ == "~/decker/decker_util prepare-upload "@ + game_id@ + " true"@,
{
    "~/decker/decker_util prepare-upload ".to_owned().concat(game_id).concat(" true")
}

/// Command run on the devkit to add or update a game's shortcut.
pub fn create_shortcut_command(game_id: &str, exec: &str, starting_dir: &str) -> (r: String)
    ensures
        r@ == "~/decker/decker_util create-shortcut "@ + game_id@ + " "@ + exec@ + " "@ + starting_dir@,
{
    "~/decker/decker_util create-shortcut ".to_owned().concat(game_id).concat(" ").concat(exec).concat(" ").concat(
        starting_dir,
    )
}

/// Why a devkit refused a registration.
#[derive(Debug, PartialEq, Eq)]
pub enum RegisterError {
    /// The devkit refused, with this message.
    Refused(String),
    /// The devkit refused without a message.
    RefusedWithoutMessage,
    /// The reply had a status that is neither success nor a client error.
    UnknownStatus(u16),
}

/// A status in 400..=499.
pub open spec fn is_client_error(status: u16) -> bool {
    400 <= status <= 499
}

/// A status in 200..=299.
pub open spec fn is_success(status: u16) -> bool {
    200 <= status <= 299
}

/// Outcome of a registration from the reply's status and, for a client
/// error, the message the reply carried, if any.
pub fn registration_result(status: u16, message: Option<String>) -> (r: Result<(), RegisterError>)
    ensures
        is_client_error(status) ==> match message {
            Some(m) => (r matches Err(RegisterError::Refused(x)) && x@ == m@),
            None => (r matches Err(RegisterError::RefusedWithoutMessage)),
        },
        is_success(status) ==> r is Ok,
        !is_client_error(status) && !is_success(status) ==> (r matches Err(
            RegisterError::UnknownStatus(s),
        ) && s == status),
{
    if 400 <= status && status <= 499 {
        match message {
            Some(m) => Err(RegisterError::Refused(m)),
            None => Err(RegisterError::RefusedWithoutMessage),
        }
    } else if 200 <= status && status <= 299 {
        Ok(())
    } else {
        Err(RegisterError::UnknownStatus(status))
    }
}

} // verus!
