use tssh::config_loader::{AppConfig, CategoryMap};
use tssh::selection::{
    category_answer, category_options, select_category, select_server_in_category, server_answer,
    visible_servers, CategoryStep, Notice, SelectionError, ServerSelectionAction, ServerStep,
    BACK_LABEL, EXIT_LABEL,
};
use tssh::Server;

fn names(list: &[&str]) -> Vec<String> {
    list.iter().map(|s| s.to_string()).collect()
}

fn server(name: &str, ip: &str) -> Server {
    Server { name: name.to_string(), ip: ip.to_string() }
}

fn pairs(servers: &[Server]) -> Vec<(String, String)> {
    servers.iter().map(|s| (s.name.clone(), s.ip.clone())).collect()
}

fn pair(name: &str, ip: &str) -> (String, String) {
    (name.to_string(), ip.to_string())
}

fn config(categories: &[(&str, &[&str])]) -> AppConfig {
    let mut allowed = CategoryMap::new();
    for (name, hosts) in categories {
        allowed.insert(name.to_string(), names(hosts));
    }
    AppConfig { user: "me".to_string(), allowed }
}

fn prod_and_dev() -> AppConfig {
    config(&[("prod", &["web1"]), ("dev", &[])])
}

#[test]
fn labels_of_the_entries() {
    assert_eq!(EXIT_LABEL, "Exit");
    assert_eq!(BACK_LABEL, "Go Back");
}

#[test]
fn category_list_is_sorted_and_ends_with_exit() {
    assert_eq!(category_options(&prod_and_dev()), names(&["dev", "prod", "Exit"]));
}

#[test]
fn category_list_of_no_category_is_exit_alone() {
    assert_eq!(category_options(&AppConfig::default()), names(&["Exit"]));
}

#[test]
fn category_list_has_one_exit_entry_behind_the_names() {
    let many = config(&[("z", &[]), ("Exit", &["a"]), ("b", &[]), ("a", &[]), ("Go Back", &[])]);
    assert_eq!(category_options(&many), names(&["Exit", "Go Back", "a", "b", "z", "Exit"]));
}

#[test]
fn hint_that_names_a_category_settles_the_stage() {
    match select_category(&prod_and_dev(), Some("prod")) {
        CategoryStep::Chosen(name) => assert_eq!(name, "prod"),
        other => panic!("asked though the category was named: {:?}", other),
    }
    match select_category(&prod_and_dev(), Some("dev")) {
        CategoryStep::Chosen(name) => assert_eq!(name, "dev"),
        other => panic!("asked though the category was named: {:?}", other),
    }
}

#[test]
fn hint_that_names_no_category_is_answered_by_a_notice() {
    for hint in ["staging", "", "Prod", "pro", "Exit"] {
        match select_category(&prod_and_dev(), Some(hint)) {
            CategoryStep::Ask { options, notice } => {
                assert_eq!(options, names(&["dev", "prod", "Exit"]));
                assert_eq!(notice, Some(Notice::UnknownCategory));
            },
            other => panic!("settled on a category that is none: {:?}", other),
        }
    }
}

#[test]
fn without_hint_the_user_is_asked_without_notice() {
    match select_category(&prod_and_dev(), None) {
        CategoryStep::Ask { options, notice } => {
            assert_eq!(options, names(&["dev", "prod", "Exit"]));
            assert_eq!(notice, None);
        },
        other => panic!("settled without hint: {:?}", other),
    }
}

#[test]
fn category_answer_exit_ends_the_run() {
    assert_eq!(category_answer(Some("Exit".to_string())), None);
}

#[test]
fn category_answer_cancel_ends_the_run() {
    assert_eq!(category_answer(None), None);
}

#[test]
fn category_answer_gives_the_chosen_name() {
    assert_eq!(category_answer(Some("prod".to_string())), Some("prod".to_string()));
    assert_eq!(category_answer(Some("exit".to_string())), Some("exit".to_string()));
    assert_eq!(category_answer(Some(String::new())), Some(String::new()));
}

#[test]
fn empty_allow_list_leads_back() {
    let live = vec![server("web1", "100.1.1.1")];
    match select_server_in_category(&live, "dev", &prod_and_dev()) {
        ServerStep::GoBack(notice) => assert_eq!(notice, Notice::NothingConfigured),
        other => panic!("showed a list for a category without hosts: {:?}", other),
    }
}

#[test]
fn unknown_category_leads_back_as_an_empty_one() {
    let live = vec![server("web1", "100.1.1.1")];
    match select_server_in_category(&live, "staging", &prod_and_dev()) {
        ServerStep::GoBack(notice) => assert_eq!(notice, Notice::NothingConfigured),
        other => panic!("showed a list for a category that is none: {:?}", other),
    }
}

#[test]
fn no_live_host_leads_back_with_another_notice() {
    let live = vec![server("db1", "100.1.1.2"), server("web10", "100.1.1.3")];
    match select_server_in_category(&live, "prod", &prod_and_dev()) {
        ServerStep::GoBack(notice) => {
            assert_eq!(notice, Notice::NoActiveMatch);
            assert_ne!(notice, Notice::NothingConfigured);
        },
        other => panic!("showed a list without live hosts: {:?}", other),
    }
    match select_server_in_category(&[], "prod", &prod_and_dev()) {
        ServerStep::GoBack(notice) => assert_eq!(notice, Notice::NoActiveMatch),
        other => panic!("showed a list without live hosts: {:?}", other),
    }
}

#[test]
fn empty_allow_list_wins_over_no_live_host() {
    match select_server_in_category(&[], "dev", &prod_and_dev()) {
        ServerStep::GoBack(notice) => assert_eq!(notice, Notice::NothingConfigured),
        other => panic!("showed a list for a category without hosts: {:?}", other),
    }
}

#[test]
fn display_list_is_the_live_hosts_then_back_and_exit() {
    let live = vec![server("web1", "100.1.1.1")];
    match select_server_in_category(&live, "prod", &prod_and_dev()) {
        ServerStep::Ask(entries) => assert_eq!(
            pairs(&entries),
            vec![pair("web1", "100.1.1.1"), pair("Go Back", ""), pair("Exit", "")]
        ),
        other => panic!("no list though a host is live: {:?}", other),
    }
}

#[test]
fn display_list_keeps_the_order_of_the_live_hosts() {
    let live = vec![
        server("c", "10.0.0.3"),
        server("x", "10.0.0.9"),
        server("a", "10.0.0.1"),
        server("c", "10.0.0.4"),
        server("b", "10.0.0.2"),
    ];
    let cfg = config(&[("all", &["a", "b", "c", "gone"]), ("other", &["x"])]);
    match select_server_in_category(&live, "all", &cfg) {
        ServerStep::Ask(entries) => assert_eq!(
            pairs(&entries),
            vec![
                pair("c", "10.0.0.3"),
                pair("a", "10.0.0.1"),
                pair("c", "10.0.0.4"),
                pair("b", "10.0.0.2"),
                pair("Go Back", ""),
                pair("Exit", ""),
            ]
        ),
        other => panic!("no list though hosts are live: {:?}", other),
    }
}

#[test]
fn visible_servers_are_the_live_servers_that_are_named() {
    let live = vec![server("a", "1"), server("b", "2"), server("c", "3")];
    assert_eq!(pairs(&visible_servers(&live, &names(&["c", "a"]))), vec![pair("a", "1"), pair("c", "3")]);
    assert!(visible_servers(&live, &names(&[])).is_empty());
    assert!(visible_servers(&live, &names(&["d"])).is_empty());
    assert!(visible_servers(&[], &names(&["a"])).is_empty());
}

#[test]
fn server_answer_exit_ends_the_run() {
    let live = vec![server("web1", "100.1.1.1")];
    let exit = server("Exit", "");
    assert!(matches!(server_answer(&live, Some(&exit)), Ok(ServerSelectionAction::ExitApp)));
}

#[test]
fn server_answer_back_leads_back() {
    let live = vec![server("web1", "100.1.1.1")];
    let back = server("Go Back", "");
    assert!(matches!(server_answer(&live, Some(&back)), Ok(ServerSelectionAction::GoBack)));
}

#[test]
fn server_answer_cancel_leads_back() {
    let live = vec![server("web1", "100.1.1.1")];
    assert!(matches!(server_answer(&live, None), Ok(ServerSelectionAction::GoBack)));
    assert!(matches!(server_answer(&[], None), Ok(ServerSelectionAction::GoBack)));
}

#[test]
fn server_answer_gives_the_first_live_server_of_the_name() {
    let live = vec![server("db1", "10.0.0.1"), server("web1", "10.0.0.2"), server("web1", "10.0.0.3")];
    let chosen = server("web1", "10.0.0.3");
    match server_answer(&live, Some(&chosen)) {
        Ok(ServerSelectionAction::SshInto(found)) => {
            assert_eq!(found.name, "web1");
            assert_eq!(found.ip, "10.0.0.2");
            assert!(std::ptr::eq(found, &live[1]));
        },
        other => panic!("did not find a live server: {:?}", other),
    }
}

#[test]
fn server_answer_that_is_no_live_server_is_a_fault() {
    let live = vec![server("web1", "100.1.1.1")];
    let ghost = server("web2", "100.1.1.1");
    assert!(matches!(server_answer(&live, Some(&ghost)), Err(SelectionError::ServerNotFound)));
    assert!(matches!(server_answer(&[], Some(&ghost)), Err(SelectionError::ServerNotFound)));
    assert_eq!(SelectionError::ServerNotFound.message(), "Selected server not found internally.");
}

#[test]
fn server_called_exit_is_taken_for_the_exit_entry() {
    let live = vec![server("Exit", "100.1.1.1")];
    assert!(matches!(server_answer(&live, Some(&live[0])), Ok(ServerSelectionAction::ExitApp)));
}

#[test]
fn notices_say_what_is_missing() {
    assert_eq!(
        Notice::UnknownCategory.message("staging"),
        "Category 'staging' not found. Please select from the list."
    );
    assert_eq!(
        Notice::NothingConfigured.message("dev"),
        "No servers configured for category 'dev'. Check config.json."
    );
    assert_eq!(
        Notice::NoActiveMatch.message("prod"),
        "No active Tailscale servers found for 'prod'. Check 'tailscale status'."
    );
    assert_ne!(Notice::NothingConfigured.message(""), Notice::NoActiveMatch.message(""));
}

#[test]
fn label_is_name_and_address() {
    assert_eq!(server("web1", "100.1.1.1").label(), "web1 (100.1.1.1)");
    assert_eq!(server("Go Back", "").label(), "Go Back ()");
    assert_eq!(server("", "").label(), " ()");
}

#[test]
fn clone_copies_name_and_address() {
    let first = server("web1", "100.1.1.1");
    let copy = first.clone();
    assert_eq!(copy.name, "web1");
    assert_eq!(copy.ip, "100.1.1.1");
}
