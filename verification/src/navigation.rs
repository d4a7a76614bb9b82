//! The states of a run, and where each stage leads.

use crate::selection::ServerSelectionAction;
use crate::server::Server;
use vstd::prelude::*;

verus! {

/// Where a run stands.
#[derive(Debug)]
pub enum NavState {
    /// A category is to be chosen.
    CategorySelect,
    /// A server of this category is to be chosen.
    HostSelect(String),
    /// A session on this server is to be opened.
    Connecting(Server),
    /// The run is over.
    Done,
}

impl NavState {
    /// Where every run starts.
    pub fn start() -> (state: NavState)
        ensures
            state is CategorySelect,
    {
        NavState::CategorySelect
    }

    /// Whether the run is over.
    pub fn is_done(&self) -> (done: bool)
        ensures
            done == (self is Done),
    {
        match self {
            NavState::Done => true,
            _ => false,
        }
    }

    /// Where the category stage leads: to the servers of the chosen category,
    /// or to the end where none was chosen.
    pub fn after_category(choice: Option<String>) -> (state: NavState)
        ensures
            match choice {
                Some(name) => state == NavState::HostSelect(name),
                None => state is Done,
            },
    {
        match choice {
            Some(name) => NavState::HostSelect(name),
            None => NavState::Done,
        }
    }

    /// Where the server stage leads: to a session on the chosen server, back
    /// to the categories, or to the end.
    pub fn after_server(action: &ServerSelectionAction) -> (state: NavState)
        ensures
            match *action {
                ServerSelectionAction::SshInto(server) => state matches NavState::Connecting(s)
                    && s@ == server@,
                ServerSelectionAction::GoBack => state is CategorySelect,
                ServerSelectionAction::ExitApp => state is Done,
            },
    {
        match action {
            ServerSelectionAction::SshInto(server) => NavState::Connecting((*server).clone()),
            ServerSelectionAction::GoBack => NavState::CategorySelect,
            ServerSelectionAction::ExitApp => NavState::Done,
        }
    }

    /// Where a session leads, however it went: to the end.
    pub fn after_session() -> (state: NavState)
        ensures
            state is Done,
    {
        NavState::Done
    }
}

} // verus!
