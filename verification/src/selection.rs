//! The two stages of a choice: first a category, then one of its live
//! servers. Each stage has a first half that says what to ask, and a second
//! half that says what the answer means.

use crate::config_loader::AppConfig;
use crate::order::{is_sorted_keys, lemma_sorted_keys_exist, sorted_keys};
use crate::server::{lemma_views_push, named_in, views, Server, ServerView};
use crate::text::{contains_text, lemma_texts_push, same_text, texts};
use vstd::prelude::*;
use vstd::string::StringExecFns;

verus! {

/// The entry of either list that ends the run.
pub const EXIT_LABEL: &'static str = "Exit";

/// The entry of the server list that leads back to the categories.
pub const BACK_LABEL: &'static str = "Go Back";

/// The text of the entry that ends the run.
pub open spec fn exit_label() -> Seq<char> {
    EXIT_LABEL@
}

/// The text of the entry that leads back to the categories.
pub open spec fn back_label() -> Seq<char> {
    BACK_LABEL@
}

/// The list of the category stage: the category names in lexical order, and
/// the exit entry behind them.
pub open spec fn category_list(allowed: Map<Seq<char>, Seq<Seq<char>>>) -> Seq<Seq<char>> {
    sorted_keys(allowed.dom()).push(exit_label())
}

/// Whatever the categories are, even none: the list of the category stage is
/// their names in lexical order, each once, and one exit entry at the end.
pub proof fn lemma_category_list(allowed: Map<Seq<char>, Seq<Seq<char>>>)
    requires
        allowed.dom().finite(),
    ensures
        category_list(allowed).len() == allowed.dom().len() + 1,
        category_list(allowed).last() == exit_label(),
        is_sorted_keys(category_list(allowed).drop_last(), allowed.dom()),
{
    lemma_sorted_keys_exist(allowed.dom());
    let keys = sorted_keys(allowed.dom());
    assert(keys.push(exit_label()).drop_last() =~= keys);
}

/// What a diagnostic says, before the name it is about is filled in.
#[derive(Clone, Copy, Debug, PartialEq, Eq, Structural)]
pub enum Notice {
    /// The category asked for on the command line is none of the configuration.
    UnknownCategory,
    /// The category allows no host at all.
    NothingConfigured,
    /// None of the hosts that the category allows is live.
    NoActiveMatch,
}

/// The line that `notice` gives about `subject`, the name of a category.
pub open spec fn notice_text(notice: Notice, subject: Seq<char>) -> Seq<char> {
    match notice {
        Notice::UnknownCategory => "Category '"@ + subject
            + "' not found. Please select from the list."@,
        Notice::NothingConfigured => "No servers configured for category '"@ + subject
            + "'. Check config.json."@,
        Notice::NoActiveMatch => "No active Tailscale servers found for '"@ + subject
            + "'. Check 'tailscale status'."@,
    }
}

impl Notice {
    /// The line that this notice gives about `subject`.
    pub fn message(self, subject: &str) -> (line: String)
        ensures
            line@ == notice_text(self, subject@),
    {
        match self {
            Notice::UnknownCategory => {
                let mut line = String::from_str("Category '");
                line.append(subject);
                line.append("' not found. Please select from the list.");
                line
            },
            Notice::NothingConfigured => {
                let mut line = String::from_str("No servers configured for category '");
                line.append(subject);
                line.append("'. Check config.json.");
                line
            },
            Notice::NoActiveMatch => {
                let mut line = String::from_str("No active Tailscale servers found for '");
                line.append(subject);
                line.append("'. Check 'tailscale status'.");
                line
            },
        }
    }
}

/// The notices of a category without hosts and of one without live hosts
/// differ, whatever the category is called.
pub proof fn lemma_notices_differ(subject: Seq<char>)
    ensures
        notice_text(Notice::NothingConfigured, subject) != notice_text(
            Notice::NoActiveMatch,
            subject,
        ),
{
    reveal_strlit("No servers configured for category '");
    reveal_strlit("No active Tailscale servers found for '");
    let a = notice_text(Notice::NothingConfigured, subject);
    let b = notice_text(Notice::NoActiveMatch, subject);
    assert(a[3] == 's');
    assert(b[3] == 'a');
}

/// How the category stage goes on.
#[derive(Debug)]
pub enum CategoryStep {
    /// The category is settled, and nothing is asked.
    Chosen(String),
    /// The user chooses among `options`, after `notice` where there is one.
    Ask { options: Vec<String>, notice: Option<Notice> },
}

/// The list of the category stage.
pub fn category_options(config: &AppConfig) -> (options: Vec<String>)
    ensures
        texts(options@) == category_list(config@.allowed),
        options.len() == config@.allowed.dom().len() + 1,
        texts(options@).last() == exit_label(),
        is_sorted_keys(texts(options@).drop_last(), config@.allowed.dom()),
{
    let mut options = config.allowed.keys();
    let exit = EXIT_LABEL.to_owned();
    proof {
        lemma_texts_push(options@, exit);
        lemma_category_list(config@.allowed);
    }
    options.push(exit);
    options
}

/// The first half of the category stage. A hint that names a category of the
/// configuration settles the stage. Else the user is to choose from the list of
/// the stage, and a hint that names no category is answered by a notice.
pub fn select_category(config: &AppConfig, cli_category_input: Option<&str>) -> (step:
    CategoryStep)
    ensures
        match step {
            CategoryStep::Chosen(name) => cli_category_input matches Some(hint)
                && config@.allowed.dom().contains(hint@) && name@ == hint@,
            CategoryStep::Ask { options, notice } => {
                &&& texts(options@) == category_list(config@.allowed)
                &&& match cli_category_input {
                    Some(hint) => !config@.allowed.dom().contains(hint@) && notice == Some(
                        Notice::UnknownCategory,
                    ),
                    None => notice is None,
                }
            },
        },
{
    match cli_category_input {
        Some(hint) => {
            if config.allowed.contains_key(hint) {
                CategoryStep::Chosen(hint.to_owned())
            } else {
                CategoryStep::Ask {
                    options: category_options(config),
                    notice: Some(Notice::UnknownCategory),
                }
            }
        },
        None => CategoryStep::Ask { options: category_options(config), notice: None },
    }
}

/// The second half of the category stage: what the user's answer means. The
/// exit entry ends the run, and so does a question that failed or was
/// cancelled (`None`); any other answer is the chosen category.
pub fn category_answer(answer: Option<String>) -> (choice: Option<String>)
    ensures
        match answer {
            Some(name) => if name@ == exit_label() {
                choice is None
            } else {
                choice == Some(name)
            },
            None => choice is None,
        },
{
    match answer {
        Some(name) => {
            if same_text(name.as_str(), EXIT_LABEL) {
                None
            } else {
                Some(name)
            }
        },
        None => None,
    }
}

/// The allow-list of `category`; empty where the configuration has no such
/// category.
pub open spec fn allow_list(allowed: Map<Seq<char>, Seq<Seq<char>>>, category: Seq<char>) -> Seq<
    Seq<char>,
> {
    if allowed.dom().contains(category) {
        allowed[category]
    } else {
        Seq::empty()
    }
}

/// The live servers that `allow` names, in their order.
pub open spec fn visible(servers: Seq<ServerView>, allow: Seq<Seq<char>>) -> Seq<ServerView> {
    servers.filter(named_in(allow.to_set()))
}

/// The visible servers are the live servers that the allow-list names: a
/// server is visible exactly when it is live and its name stands in the
/// allow-list. So nothing is visible exactly when no live server is named,
/// as under an empty allow-list.
pub proof fn lemma_visible(servers: Seq<ServerView>, allow: Seq<Seq<char>>)
    ensures
        forall|s: ServerView| #[trigger]
            visible(servers, allow).contains(s) <==> servers.contains(s) && allow.contains(s.name),
        visible(servers, allow).len() == 0 <==> forall|i: int|
            0 <= i < servers.len() ==> !allow.contains(#[trigger] servers[i].name),
        allow.len() == 0 ==> visible(servers, allow).len() == 0,
{
    broadcast use vstd::seq_lib::group_filter_ensures;

    let test = named_in(allow.to_set());
    let shown = visible(servers, allow);
    assert forall|s: ServerView| #[trigger]
        shown.contains(s) <==> servers.contains(s) && allow.contains(s.name) by {
        if shown.contains(s) {
            let i = choose|i: int| 0 <= i < shown.len() && shown[i] == s;
            assert(test(shown[i]));
            servers.lemma_filter_contains_rev(test, s);
        }
        if servers.contains(s) && allow.contains(s.name) {
            let i = choose|i: int| 0 <= i < servers.len() && servers[i] == s;
            assert(test(servers[i]));
            assert(shown.contains(servers[i]));
        }
    }
    if shown.len() > 0 {
        assert(shown.contains(shown[0]));
        assert(servers.contains(shown[0]));
        let i = choose|i: int| 0 <= i < servers.len() && servers[i] == shown[0];
        assert(allow.contains(servers[i].name));
    } else {
        assert forall|i: int| 0 <= i < servers.len() implies !allow.contains(
            #[trigger] servers[i].name,
        ) by {
            if allow.contains(servers[i].name) {
                assert(servers.contains(servers[i]));
                assert(shown.contains(servers[i]));
            }
        }
    }
    if allow.len() == 0 && shown.len() > 0 {
        assert(shown.contains(shown[0]));
    }
}

/// The entry that leads back to the categories.
pub open spec fn back_entry() -> ServerView {
    ServerView { name: back_label(), ip: Seq::empty() }
}

/// The entry that ends the run.
pub open spec fn exit_entry() -> ServerView {
    ServerView { name: exit_label(), ip: Seq::empty() }
}

/// The list of the server stage: the visible servers, then the entry that
/// leads back and the exit entry.
pub open spec fn display_list(shown: Seq<ServerView>) -> Seq<ServerView> {
    shown.push(back_entry()).push(exit_entry())
}

/// How the server stage goes on.
#[derive(Debug)]
pub enum ServerStep {
    /// Nothing can be shown: back to the categories, after the notice.
    GoBack(Notice),
    /// The user chooses among the entries.
    Ask(Vec<Server>),
}

/// The servers of `servers` that `names` names, in their order.
pub fn visible_servers(servers: &[Server], names: &Vec<String>) -> (shown: Vec<Server>)
    ensures
        views(shown@) == visible(views(servers@), texts(names@)),
{
    let ghost test = named_in(texts(names@).to_set());
    let mut shown: Vec<Server> = Vec::new();
    let mut i: usize = 0;
    proof {
        reveal(Seq::filter);
        assert(views(servers@).take(0) =~= Seq::empty());
    }
    while i < servers.len()
        invariant
            i <= servers.len(),
            test == named_in(texts(names@).to_set()),
            views(shown@) == views(servers@).take(i as int).filter(test),
        decreases servers.len() - i,
    {
        proof {
            reveal(Seq::filter);
            assert(views(servers@).take(i + 1).drop_last() =~= views(servers@).take(i as int));
            assert(views(servers@).take(i + 1).last() == servers@[i as int]@);
        }
        if contains_text(names, servers[i].name.as_str()) {
            let copy = servers[i].clone();
            proof {
                lemma_views_push(shown@, copy);
            }
            shown.push(copy);
        }
        i += 1;
    }
    proof {
        assert(views(servers@).take(i as int) =~= views(servers@));
    }
    shown
}

/// The first half of the server stage. A category that allows no host leads
/// back to the categories, and so does one none of whose hosts is live, each
/// with a notice of its own. Else the user is to choose from the list of
/// the stage.
pub fn select_server_in_category(
    all_ts_servers: &[Server],
    selected_category_name: &str,
    config: &AppConfig,
) -> (step: ServerStep)
    ensures
        ({
            let allow = allow_list(config@.allowed, selected_category_name@);
            let shown = visible(views(all_ts_servers@), allow);
            match step {
                ServerStep::GoBack(notice) => if allow.len() == 0 {
                    notice == Notice::NothingConfigured
                } else {
                    shown.len() == 0 && notice == Notice::NoActiveMatch
                },
                ServerStep::Ask(entries) => allow.len() > 0 && shown.len() > 0 && views(entries@)
                    == display_list(shown),
            }
        }),
{
    let mut entries = match config.allowed.get(selected_category_name) {
        Some(names) => {
            if names.len() == 0 {
                return ServerStep::GoBack(Notice::NothingConfigured);
            }
            visible_servers(all_ts_servers, names)
        },
        None => {
            return ServerStep::GoBack(Notice::NothingConfigured);
        },
    };
    if entries.len() == 0 {
        return ServerStep::GoBack(Notice::NoActiveMatch);
    }
    let back = Server { name: BACK_LABEL.to_owned(), ip: String::new() };
    let exit = Server { name: EXIT_LABEL.to_owned(), ip: String::new() };
    proof {
        lemma_views_push(entries@, back);
        lemma_views_push(entries@.push(back), exit);
    }
    entries.push(back);
    entries.push(exit);
    ServerStep::Ask(entries)
}

/// What the server stage comes to.
#[derive(Debug)]
pub enum ServerSelectionAction<'a> {
    /// Open a session on this server.
    SshInto(&'a Server),
    /// Back to the categories.
    GoBack,
    /// End the run.
    ExitApp,
}

/// The fault of an answer that is no entry of the list it was chosen from.
#[derive(Clone, Copy, Debug, PartialEq, Eq, Structural)]
pub enum SelectionError {
    /// No live server has the name of the chosen entry.
    ServerNotFound,
}

/// What a fault says.
pub open spec fn fault_text(e: SelectionError) -> Seq<char> {
    match e {
        SelectionError::ServerNotFound => "Selected server not found internally."@,
    }
}

impl SelectionError {
    /// What this fault says.
    pub fn message(self) -> (line: String)
        ensures
            line@ == fault_text(self),
    {
        match self {
            SelectionError::ServerNotFound => String::from_str(
                "Selected server not found internally.",
            ),
        }
    }
}

/// `i` is the first position of `servers` that holds a server called `name`.
pub open spec fn first_named(servers: Seq<ServerView>, name: Seq<char>, i: int) -> bool {
    &&& 0 <= i < servers.len()
    &&& servers[i].name == name
    &&& forall|j: int| 0 <= j < i ==> servers[j].name != name
}

/// Where a server of some name stands in `servers`, one stands there first.
pub proof fn lemma_first_named(servers: Seq<ServerView>, name: Seq<char>, j: int)
    requires
        0 <= j < servers.len(),
        servers[j].name == name,
    ensures
        exists|i: int| first_named(servers, name, i),
    decreases j,
{
    if exists|k: int| 0 <= k < j && servers[k].name == name {
        let k = choose|k: int| 0 <= k < j && servers[k].name == name;
        lemma_first_named(servers, name, k);
    } else {
        assert(first_named(servers, name, j));
    }
}

/// An entry of the list that is a visible server always stands for a live
/// server: its name is found among the live servers.
pub proof fn lemma_entry_resolves(servers: Seq<ServerView>, allow: Seq<Seq<char>>, entry: ServerView)
    requires
        visible(servers, allow).contains(entry),
    ensures
        exists|i: int| first_named(servers, entry.name, i),
{
    lemma_visible(servers, allow);
    let j = choose|j: int| 0 <= j < servers.len() && servers[j] == entry;
    lemma_first_named(servers, entry.name, j);
}

/// The second half of the server stage: what the user's answer means. The exit
/// entry ends the run; the entry that leads back does so, as does a question
/// that failed or was cancelled (`None`). Any other entry stands for the first
/// live server of its name, and is a fault where there is none.
pub fn server_answer<'a>(all_ts_servers: &'a [Server], answer: Option<&Server>) -> (r: Result<
    ServerSelectionAction<'a>,
    SelectionError,
>)
    ensures
        match answer {
            None => r matches Ok(ServerSelectionAction::GoBack),
            Some(chosen) => if chosen.name@ == exit_label() {
                r matches Ok(ServerSelectionAction::ExitApp)
            } else if chosen.name@ == back_label() {
                r matches Ok(ServerSelectionAction::GoBack)
            } else {
                match r {
                    Ok(ServerSelectionAction::SshInto(server)) => exists|i: int|
                        first_named(views(all_ts_servers@), chosen.name@, i) && *server
                            == all_ts_servers@[i],
                    Ok(_) => false,
                    Err(e) => e == SelectionError::ServerNotFound && forall|i: int|
                        0 <= i < all_ts_servers@.len() ==> all_ts_servers@[i].name@
                            != chosen.name@,
                }
            },
        },
{
    let chosen = match answer {
        Some(chosen) => chosen,
        None => {
            return Ok(ServerSelectionAction::GoBack);
        },
    };
    if same_text(chosen.name.as_str(), EXIT_LABEL) {
        return Ok(ServerSelectionAction::ExitApp);
    }
    if same_text(chosen.name.as_str(), BACK_LABEL) {
        return Ok(ServerSelectionAction::GoBack);
    }
    let mut i: usize = 0;
    while i < all_ts_servers.len()
        invariant
            i <= all_ts_servers.len(),
            answer == Some(chosen),
            chosen.name@ != exit_label(),
            chosen.name@ != back_label(),
            forall|j: int| 0 <= j < i ==> all_ts_servers@[j].name@ != chosen.name@,
        decreases all_ts_servers.len() - i,
    {
        if same_text(all_ts_servers[i].name.as_str(), chosen.name.as_str()) {
            let server = &all_ts_servers[i];
            proof {
                assert(first_named(views(all_ts_servers@), chosen.name@, i as int));
            }
            return Ok(ServerSelectionAction::SshInto(server));
        }
        i += 1;
    }
    Err(SelectionError::ServerNotFound)
}

} // verus!
