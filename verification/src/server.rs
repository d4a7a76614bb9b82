//! A peer of the network, as the lists of a run show it.

use vstd::prelude::*;
use vstd::string::StringExecFns;

verus! {

/// A peer of the network: its short name and its address.
#[derive(Debug)]
pub struct Server {
    pub name: String,
    pub ip: String,
}

/// What a `Server` holds, as texts.
pub struct ServerView {
    pub name: Seq<char>,
    pub ip: Seq<char>,
}

impl View for Server {
    type V = ServerView;

    open spec fn view(&self) -> ServerView {
        ServerView { name: self.name@, ip: self.ip@ }
    }
}

/// What a sequence of servers holds.
pub open spec fn views(servers: Seq<Server>) -> Seq<ServerView> {
    servers.map_values(|s: Server| s@)
}

/// Appending a server appends what it holds.
pub proof fn lemma_views_push(servers: Seq<Server>, s: Server)
    ensures
        views(servers.push(s)) == views(servers).push(s@),
{
    assert(views(servers.push(s)) =~= views(servers).push(s@));
}

/// The test whether a server's name is one of `names`.
pub open spec fn named_in(names: Set<Seq<char>>) -> spec_fn(ServerView) -> bool {
    |s: ServerView| names.contains(s.name)
}

/// The line that stands for a server in a list: the name, then the address
/// in round brackets.
pub open spec fn label_text(s: ServerView) -> Seq<char> {
    s.name + " ("@ + s.ip + ")"@
}

impl Clone for Server {
    fn clone(&self) -> (copy: Self)
        ensures
            copy@ == self@,
    {
        Server { name: self.name.clone(), ip: self.ip.clone() }
    }
}

impl Server {
    /// The line that stands for this server in a list.
    pub fn label(&self) -> (line: String)
        ensures
            line@ == label_text(self@),
    {
        let mut line = self.name.clone();
        line.append(" (");
        line.append(self.ip.as_str());
        line.append(")");
        line
    }
}

} // verus!
