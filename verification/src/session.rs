//! The remote-shell session: its arguments, and how its end is judged.

use crate::server::Server;
use crate::text::{lemma_texts_push, texts};
use vstd::prelude::*;
use vstd::string::StringExecFns;

verus! {

/// The option that switches host-key verification off.
pub const NO_HOST_KEY_CHECK: &'static str = "-o StrictHostKeyChecking=no";

/// The option that keeps host keys out of the user's files.
pub const NO_KNOWN_HOSTS: &'static str = "-o UserKnownHostsFile=/dev/null";

/// Whom a session addresses: the user at the address.
pub open spec fn ssh_target(user: Seq<char>, address: Seq<char>) -> Seq<char> {
    user + "@"@ + address
}

/// The arguments of the remote-shell command for a session of `user` on a
/// server at `address`.
pub open spec fn ssh_argument_texts(user: Seq<char>, address: Seq<char>) -> Seq<Seq<char>> {
    seq![NO_HOST_KEY_CHECK@, NO_KNOWN_HOSTS@, ssh_target(user, address)]
}

/// The arguments of the remote-shell command for a session of `config_user`
/// on `server`.
pub fn ssh_arguments(server: &Server, config_user: &str) -> (args: Vec<String>)
    ensures
        texts(args@) == ssh_argument_texts(config_user@, server@.ip),
{
    let mut target = String::from_str(config_user);
    target.append("@");
    target.append(server.ip.as_str());
    let mut args: Vec<String> = Vec::new();
    let first = String::from_str(NO_HOST_KEY_CHECK);
    let second = String::from_str(NO_KNOWN_HOSTS);
    proof {
        lemma_texts_push(args@, first);
        lemma_texts_push(args@.push(first), second);
        lemma_texts_push(args@.push(first).push(second), target);
    }
    args.push(first);
    args.push(second);
    args.push(target);
    proof {
        assert(texts(args@) =~= ssh_argument_texts(config_user@, server@.ip));
    }
    args
}

/// A session that did not end well: the exit status of the remote-shell
/// command, where it left one.
#[derive(Clone, Copy, Debug, PartialEq, Eq, Structural)]
pub struct SessionFailure {
    pub code: Option<i32>,
}

/// Judges a session by the exit status of the remote-shell command, where it
/// left one: status 0 is success, anything else a failure that holds the status.
pub fn session_outcome(code: Option<i32>) -> (r: Result<(), SessionFailure>)
    ensures
        r is Ok <==> code == Some(0i32),
        r matches Err(failure) ==> failure.code == code,
{
    match code {
        Some(0) => Ok(()),
        _ => Err(SessionFailure { code }),
    }
}

} // verus!
