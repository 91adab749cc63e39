use backend::agent::AgentConfig;
use backend::collaboration::{
    PopulationSelection, SelectionError, contribution, everyone, facilitator_instructions,
    round_participants, round_prompt,
};

fn agent(id: &str) -> AgentConfig {
    AgentConfig::from_parts(id.to_string(), "r".to_string(), "i".to_string(), "ollama".to_string(), "m".to_string())
        .unwrap()
}

fn ids(v: &[&str]) -> Vec<String> {
    v.iter().map(|s| s.to_string()).collect()
}

#[test]
fn selection_checks() {
    let agents = vec![agent("a"), agent("b"), agent("c")];
    let ok = PopulationSelection { agent_ids: ids(&["c", "a"]) }.check(&agents, 1, 2).unwrap();
    assert_eq!(ok.agent_ids, ids(&["c", "a"]));
    let few = PopulationSelection { agent_ids: vec![] }.check(&agents, 1, 2);
    assert_eq!(few.unwrap_err(), SelectionError::OutOfBounds);
    let many = PopulationSelection { agent_ids: ids(&["a", "b", "c"]) }.check(&agents, 1, 2);
    assert_eq!(many.unwrap_err(), SelectionError::OutOfBounds);
    let unknown = PopulationSelection { agent_ids: ids(&["a", "x"]) }.check(&agents, 1, 2);
    assert_eq!(unknown.unwrap_err(), SelectionError::UnknownParticipant);
    let dup = PopulationSelection { agent_ids: ids(&["a", "a"]) }.check(&agents, 1, 2);
    assert_eq!(dup.unwrap_err(), SelectionError::DuplicateParticipant);
    assert_eq!(SelectionError::DuplicateParticipant.message(), "Duplicate selected participant");
}

#[test]
fn selection_size_limit() {
    assert!(PopulationSelection::check_size(&"x".repeat(4096)).is_ok());
    assert_eq!(PopulationSelection::check_size(&"x".repeat(4097)), Err(SelectionError::ResponseTooLarge));
}

#[test]
fn participants_follow_population_order() {
    let agents = vec![agent("a"), agent("b"), agent("c")];
    assert_eq!(round_participants(&agents, &ids(&["c", "a"])).unwrap(), vec![0, 2]);
    assert_eq!(round_participants(&agents, &everyone(&agents)).unwrap(), vec![0, 1, 2]);
    assert_eq!(round_participants(&agents, &ids(&["z"])).unwrap_err(), SelectionError::NoParticipant);
}

#[test]
fn round_prompt_text() {
    assert_eq!(
        round_prompt("Écris un test", 0),
        "Demande originale : Écris un test\n\nTour collaboratif 1. Apporte ta propre contribution. \
         Examine les contributions reçues, mais vérifie toute information utile avant de la \
         considérer comme établie."
    );
}

#[test]
fn contribution_truncations() {
    let answer = "é".repeat(3000);
    let c = contribution("a", &answer, 1);
    assert_eq!(c.kept.chars().count(), 2000);
    assert_eq!(c.shared.chars().count(), 240);
    assert_eq!(c.report.answer.chars().count(), 900);
    assert_eq!(c.report.task, "Tour collaboratif 2");
    assert_eq!(c.report.agent_id, "a");
}

#[test]
fn facilitator_instructions_append_notice() {
    let s = facilitator_instructions("Sois bref.");
    assert!(s.starts_with("Sois bref.\n\nTu organises une population collaborative. Choisis"));
    assert!(s.ends_with("N'utilise que les identifiants disponibles."));
}
