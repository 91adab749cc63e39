use backend::session::{
    ActiveRun, ClientCommand, SessionAction, SessionNotice, SettingsError, approve_reads,
    check_origin, check_token, decide, failure_kind, frame_fits, match_token, origin_allowed,
};

#[test]
fn tokens_match_exactly() {
    assert!(match_token("secret-token", "secret-token"));
    assert!(!match_token("secret-tokem", "secret-token"));
    assert!(!match_token("secret", "secret-token"));
    assert!(match_token("", ""));
}

#[test]
fn origin_must_match() {
    assert!(origin_allowed(Some("http://localhost:5173"), "http://localhost:5173"));
    assert!(!origin_allowed(Some("http://evil"), "http://localhost:5173"));
    assert!(!origin_allowed(None, "http://localhost:5173"));
}

#[test]
fn settings() {
    assert_eq!(check_token(&"t".repeat(31)), Err(SettingsError::InvalidToken));
    assert_eq!(check_token(&"t".repeat(32)), Ok(()));
    assert_eq!(check_token(&"t".repeat(513)), Err(SettingsError::InvalidToken));
    assert_eq!(check_origin("*"), Err(SettingsError::InvalidOrigin));
    assert_eq!(check_origin("  "), Err(SettingsError::InvalidOrigin));
    assert_eq!(check_origin("app://frontend"), Ok(()));
    assert_eq!(approve_reads(None), Ok(false));
    assert_eq!(approve_reads(Some("0")), Ok(false));
    assert_eq!(approve_reads(Some("1")), Ok(true));
    assert_eq!(approve_reads(Some("yes")), Err(SettingsError::InvalidApproveReads));
    assert_eq!(SettingsError::InvalidToken.message(), "Jeton d'authentification invalide");
}

#[test]
fn frames() {
    assert!(frame_fits(262144));
    assert!(!frame_fits(262145));
}

fn active(id: &str, finished: bool) -> Option<ActiveRun> {
    Some(ActiveRun { request_id: id.to_string(), finished })
}

#[test]
fn one_run_at_a_time() {
    assert_eq!(decide(&active("r1", false), &ClientCommand::RunStart), SessionAction::Reject(SessionNotice::RunInProgress));
    assert_eq!(decide(&active("r1", true), &ClientCommand::RunStart), SessionAction::StartRun);
    assert_eq!(decide(&None, &ClientCommand::RunStart), SessionAction::StartRun);
    assert_eq!(SessionNotice::RunInProgress.message(), "Exécution déjà en cours");
}

#[test]
fn cancel_and_approval_concern_the_active_run() {
    let cancel = |id: &str| ClientCommand::RunCancel { request_id: id.to_string() };
    assert_eq!(decide(&active("r1", false), &cancel("r1")), SessionAction::CancelRun);
    assert_eq!(decide(&active("r1", false), &cancel("r2")), SessionAction::Reject(SessionNotice::NoMatchingRun));
    assert_eq!(decide(&active("r1", true), &cancel("r1")), SessionAction::Reject(SessionNotice::NoMatchingRun));
    let approve = |id: &str| ClientCommand::ApprovalResolve { request_id: id.to_string(), call_id: "c".to_string(), approved: true };
    assert_eq!(decide(&active("r1", false), &approve("r1")), SessionAction::ResolveApproval { accepted: true });
    assert_eq!(decide(&None, &approve("r1")), SessionAction::ResolveApproval { accepted: false });
    let list = ClientCommand::ModelsList { request_id: "m".to_string() };
    assert_eq!(decide(&None, &list), SessionAction::ListModels);
    assert_eq!(decide(&None, &ClientCommand::Unknown), SessionAction::Reject(SessionNotice::UnknownCommand));
}

#[test]
fn failures_are_named_by_cancellation() {
    assert_eq!(failure_kind(true), "run.cancelled");
    assert_eq!(failure_kind(false), "run.failed");
}
