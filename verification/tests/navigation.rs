use tssh::navigation::NavState;
use tssh::selection::ServerSelectionAction;
use tssh::session::{session_outcome, ssh_arguments, SessionFailure};
use tssh::Server;

fn server(name: &str, ip: &str) -> Server {
    Server { name: name.to_string(), ip: ip.to_string() }
}

#[test]
fn run_starts_at_the_categories() {
    assert!(matches!(NavState::start(), NavState::CategorySelect));
    assert!(!NavState::start().is_done());
}

#[test]
fn chosen_category_leads_to_its_servers() {
    match NavState::after_category(Some("prod".to_string())) {
        NavState::HostSelect(name) => assert_eq!(name, "prod"),
        other => panic!("wrong state: {:?}", other),
    }
}

#[test]
fn no_category_ends_the_run() {
    assert!(matches!(NavState::after_category(None), NavState::Done));
    assert!(NavState::after_category(None).is_done());
}

#[test]
fn chosen_server_leads_to_a_session() {
    let web1 = server("web1", "100.1.1.1");
    match NavState::after_server(&ServerSelectionAction::SshInto(&web1)) {
        NavState::Connecting(target) => {
            assert_eq!(target.name, "web1");
            assert_eq!(target.ip, "100.1.1.1");
        },
        other => panic!("wrong state: {:?}", other),
    }
}

#[test]
fn go_back_leads_to_the_categories() {
    assert!(matches!(
        NavState::after_server(&ServerSelectionAction::GoBack),
        NavState::CategorySelect
    ));
}

#[test]
fn exit_ends_the_run() {
    assert!(matches!(NavState::after_server(&ServerSelectionAction::ExitApp), NavState::Done));
}

#[test]
fn session_ends_the_run() {
    assert!(matches!(NavState::after_session(), NavState::Done));
    assert!(NavState::after_session().is_done());
}

#[test]
fn states_before_the_end_are_not_done() {
    assert!(!NavState::CategorySelect.is_done());
    assert!(!NavState::HostSelect("prod".to_string()).is_done());
    assert!(!NavState::Connecting(server("web1", "100.1.1.1")).is_done());
    assert!(NavState::Done.is_done());
}

#[test]
fn ssh_arguments_address_the_user_at_the_server() {
    let args = ssh_arguments(&server("web1", "100.1.1.1"), "admin");
    assert_eq!(
        args,
        vec![
            "-o StrictHostKeyChecking=no".to_string(),
            "-o UserKnownHostsFile=/dev/null".to_string(),
            "admin@100.1.1.1".to_string(),
        ]
    );
}

#[test]
fn ssh_arguments_with_empty_user() {
    let args = ssh_arguments(&server("web1", "fd7a::1"), "");
    assert_eq!(args.len(), 3);
    assert_eq!(args[2], "@fd7a::1");
}

#[test]
fn exit_status_255_is_a_failure_that_holds_the_status() {
    assert_eq!(session_outcome(Some(255)), Err(SessionFailure { code: Some(255) }));
}

#[test]
fn exit_status_0_is_success() {
    assert_eq!(session_outcome(Some(0)), Ok(()));
}

#[test]
fn other_exit_statuses_are_failures() {
    assert_eq!(session_outcome(Some(1)), Err(SessionFailure { code: Some(1) }));
    assert_eq!(session_outcome(Some(-1)), Err(SessionFailure { code: Some(-1) }));
    assert_eq!(session_outcome(None), Err(SessionFailure { code: None }));
}
