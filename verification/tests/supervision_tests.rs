use backend::agent::AgentConfig;
use backend::supervision::{
    SupervisionError, SupervisionStep, SupervisorDecision, WorkerReport, delegation_prompt,
    find_agent_index, next_supervision_step, recent_reports, supervisor_instructions,
};

fn agent(id: &str) -> AgentConfig {
    AgentConfig::from_parts(id.to_string(), "r".to_string(), "i".to_string(), "ollama".to_string(), "m".to_string())
        .unwrap()
}

fn delegate(id: &str, task: &str) -> SupervisorDecision {
    SupervisorDecision::Delegate { agent_id: id.to_string(), task: task.to_string() }
}

#[test]
fn decision_checks() {
    assert!(delegate("w", "task").check().is_ok());
    assert_eq!(delegate(" ", "task").check().unwrap_err(), SupervisionError::InvalidDelegation);
    assert_eq!(delegate("w", &"x".repeat(4097)).check().unwrap_err(), SupervisionError::InvalidDelegation);
    let done = SupervisorDecision::Complete { answer: "fini".to_string() };
    assert!(done.check().is_ok());
    let empty = SupervisorDecision::Complete { answer: "".to_string() };
    assert_eq!(empty.check().unwrap_err(), SupervisionError::InvalidCompletion);
    let long = SupervisorDecision::Complete { answer: "x".repeat(8193) };
    assert_eq!(long.check().unwrap_err(), SupervisionError::InvalidCompletion);
    assert!(SupervisorDecision::check_size(&"x".repeat(16384)).is_ok());
    assert_eq!(SupervisorDecision::check_size(&"x".repeat(16385)), Err(SupervisionError::ResponseTooLarge));
    assert_eq!(SupervisionError::ResponseTooLarge.message(), "Supervisor response too large");
}

#[test]
fn supervision_steps() {
    let workers = vec![agent("a"), agent("b")];
    let done = SupervisorDecision::Complete { answer: "x".to_string() };
    assert_eq!(next_supervision_step(0, 3, &done, &workers), SupervisionStep::Finish);
    assert_eq!(next_supervision_step(3, 3, &done, &workers), SupervisionStep::Finish);
    assert_eq!(next_supervision_step(1, 3, &delegate("b", "t"), &workers), SupervisionStep::Delegate(1));
    assert_eq!(
        next_supervision_step(3, 3, &delegate("b", "t"), &workers),
        SupervisionStep::Fail(SupervisionError::DelegationLimitReached)
    );
    assert_eq!(
        next_supervision_step(0, 3, &delegate("z", "t"), &workers),
        SupervisionStep::Fail(SupervisionError::UnknownWorker)
    );
    assert_eq!(find_agent_index(&workers, "a"), Some(0));
    assert_eq!(find_agent_index(&workers, "c"), None);
}

#[test]
fn delegation_prompt_text() {
    assert_eq!(
        delegation_prompt("Corrige le bug", "Lis main.rs"),
        "Demande originale : Corrige le bug\n\nTa tâche actuelle : Lis main.rs"
    );
}

#[test]
fn recent_reports_keep_last_and_truncate() {
    let reports: Vec<WorkerReport> = (0..5)
        .map(|i| WorkerReport { agent_id: format!("a{i}"), task: "t".repeat(500), answer: "é".repeat(1200) })
        .collect();
    let recent = recent_reports(&reports, 3, Some(400), 1000);
    let ids: Vec<&str> = recent.iter().map(|r| r.agent_id.as_str()).collect();
    assert_eq!(ids, vec!["a2", "a3", "a4"]);
    assert_eq!(recent[0].task.chars().count(), 400);
    assert_eq!(recent[0].answer.chars().count(), 1000);
    let untouched = recent_reports(&reports[..2].iter().map(|r| WorkerReport {
        agent_id: r.agent_id.clone(),
        task: r.task.clone(),
        answer: r.answer.clone(),
    }).collect(), 4, None, 350);
    assert_eq!(untouched.len(), 2);
    assert_eq!(untouched[1].task.len(), 500);
    assert_eq!(untouched[1].answer.chars().count(), 350);
}

#[test]
fn supervisor_instructions_keep_original_wording() {
    let s = supervisor_instructions("Rôle");
    assert!(s.starts_with("Rôle\n\nTu es un agent superviseur autonome. Analyse la demande,choisis"));
    assert!(s.contains("{\"action\":\"complete\",\"answer\":\"...\"}.Ne déclare"));
}
