use backend::agent::{AgentConfig, AgentIdentity, AgentRole, ConfigError, Model};
use backend::orchestration::{
    AgentLayer, Aggregation, ExecutionMode, LayeredMoa, Mixture, MultiAgent, MultiAgentStrategy,
    ParticipationPolicy, Population, Scheduler, Supervised,
};

fn agent(id: &str) -> AgentConfig {
    AgentConfig::from_parts(
        id.to_string(),
        "role".to_string(),
        "instructions".to_string(),
        "ollama".to_string(),
        "llama3".to_string(),
    )
    .unwrap()
}

fn layer(ids: &[&str]) -> AgentLayer {
    AgentLayer::new(ids.iter().map(|id| agent(id)).collect()).unwrap()
}

#[test]
fn identity_and_role_refuse_blank_names() {
    assert_eq!(AgentIdentity::new("  ".to_string()).unwrap_err(), ConfigError::EmptyIdentifier);
    assert_eq!(AgentIdentity::new("a".to_string()).unwrap().id, "a");
    assert_eq!(AgentRole::new("\t".to_string(), "x".to_string()).unwrap_err(), ConfigError::EmptyRole);
    let role = AgentRole::new("writer".to_string(), "".to_string()).unwrap();
    assert_eq!(role.name, "writer");
    assert_eq!(ConfigError::EmptyIdentifier.message(), "Agent identifier cannot be empty");
    assert_eq!(ConfigError::EmptyRole.message(), "Agent role cannot be empty");
    assert!(Model::new("ollama".to_string(), " ".to_string()).is_err());
}

#[test]
fn agent_checks_come_in_order() {
    let build = |id: &str, role: &str, instructions: String, provider: &str, model: &str| {
        AgentConfig::from_parts(id.to_string(), role.to_string(), instructions, provider.to_string(), model.to_string())
    };
    assert_eq!(build("", "", "x".repeat(9000), "openai", "").unwrap_err(), ConfigError::ProviderNotConnected);
    assert_eq!(build("", "", "x".repeat(8193), "ollama", "").unwrap_err(), ConfigError::InstructionsTooLarge);
    assert!(build("a", "r", "x".repeat(8192), "ollama", "m").is_ok());
    assert_eq!(build(" ", "", String::new(), "ollama", "").unwrap_err(), ConfigError::EmptyIdentifier);
    assert_eq!(build("a", " ", String::new(), "ollama", "").unwrap_err(), ConfigError::EmptyRole);
    assert_eq!(build("a", "r", String::new(), "ollama", "").unwrap_err(), ConfigError::EmptyModel);
}

#[test]
fn agent_layer_needs_an_agent() {
    assert_eq!(AgentLayer::new(vec![]).unwrap_err(), ConfigError::EmptyLayer);
    assert_eq!(AgentLayer::new(vec![agent("a")]).unwrap().agents.len(), 1);
}

#[test]
fn mixture_checks() {
    assert_eq!(
        Mixture::new(vec![], Aggregation { agent: agent("z") }).unwrap_err(),
        ConfigError::NoMixtureLayers
    );
    assert_eq!(
        Mixture::new(vec![layer(&["a", "b"]), layer(&["a"])], Aggregation { agent: agent("z") }).unwrap_err(),
        ConfigError::DuplicateAgent
    );
    assert_eq!(
        Mixture::new(vec![layer(&["a", "b"])], Aggregation { agent: agent("b") }).unwrap_err(),
        ConfigError::DuplicateAggregator
    );
    let empty = AgentLayer { agents: vec![] };
    assert_eq!(
        Mixture::new(vec![empty, layer(&["a", "a"])], Aggregation { agent: agent("z") }).unwrap_err(),
        ConfigError::EmptyLayer
    );
    assert!(Mixture::new(vec![layer(&["a", "b"]), layer(&["c"])], Aggregation { agent: agent("z") }).is_ok());
    assert_eq!(ConfigError::NoMixtureLayers.message(), "A mixture requires at least one layer");
}

#[test]
fn layered_moa_checks() {
    assert_eq!(
        LayeredMoa::new(vec![], Aggregation { agent: agent("z") }).unwrap_err(),
        ConfigError::NoMoaLayers
    );
    assert!(LayeredMoa::new(vec![layer(&["a"])], Aggregation { agent: agent("z") }).is_ok());
}

#[test]
fn supervised_checks() {
    assert_eq!(Supervised::new(agent("s"), vec![], 3).unwrap_err(), ConfigError::WorkerCount);
    let nine: Vec<AgentConfig> = (0..9).map(|i| agent(&format!("w{i}"))).collect();
    assert_eq!(Supervised::new(agent("s"), nine, 3).unwrap_err(), ConfigError::WorkerCount);
    assert_eq!(Supervised::new(agent("s"), vec![agent("w")], 0).unwrap_err(), ConfigError::DelegationLimit);
    assert_eq!(Supervised::new(agent("s"), vec![agent("w")], 13).unwrap_err(), ConfigError::DelegationLimit);
    assert_eq!(Supervised::new(agent("s"), vec![agent("s")], 3).unwrap_err(), ConfigError::DuplicateAgent);
    assert!(Supervised::new(agent("s"), vec![agent("w"), agent("v")], 12).is_ok());
}

#[test]
fn population_checks() {
    let two = || vec![agent("a"), agent("b")];
    assert_eq!(
        Population::new(vec![agent("a")], agent("f"), 1, ParticipationPolicy::Fixed).unwrap_err(),
        ConfigError::PopulationSize
    );
    assert_eq!(Population::new(two(), agent("f"), 5, ParticipationPolicy::Fixed).unwrap_err(), ConfigError::PopulationRounds);
    assert_eq!(
        Population::new(two(), agent("a"), 2, ParticipationPolicy::Fixed).unwrap_err(),
        ConfigError::DuplicatePopulationAgent
    );
    let bad = ParticipationPolicy::Adaptive { min_agents: 2, max_agents: 3 };
    assert_eq!(Population::new(two(), agent("f"), 2, bad).unwrap_err(), ConfigError::AdaptiveBounds);
    let zero = ParticipationPolicy::Adaptive { min_agents: 0, max_agents: 1 };
    assert_eq!(Population::new(two(), agent("f"), 2, zero).unwrap_err(), ConfigError::AdaptiveBounds);
    let ok = ParticipationPolicy::Adaptive { min_agents: 1, max_agents: 2 };
    assert!(Population::new(two(), agent("f"), 4, ok).is_ok());
}

#[test]
fn validate_keeps_valid_modes_and_rejects_oversized_layers() {
    let single = ExecutionMode::Single(agent("a")).validate().unwrap();
    assert!(matches!(single, ExecutionMode::Single(_)));
    let big: Vec<&str> = vec!["a", "b", "c", "d", "e", "f", "g", "h", "i"];
    let moa = LayeredMoa { layers: vec![layer(&big)], aggregation: Aggregation { agent: agent("z") } };
    let mode = ExecutionMode::MultiAgent(MultiAgent::new(MultiAgentStrategy::LayeredMoa(moa)));
    assert_eq!(mode.validate().unwrap_err(), ConfigError::InvalidLayeredMoa);
    let sup = Supervised { supervisor: agent("s"), workers: vec![agent("s")], max_delegations: 2 };
    let mode = ExecutionMode::MultiAgent(MultiAgent::new(MultiAgentStrategy::Supervised(sup)));
    assert_eq!(mode.validate().unwrap_err(), ConfigError::DuplicateAgent);
    let ok = Mixture::new(vec![layer(&["a"])], Aggregation { agent: agent("z") }).unwrap();
    let again = ExecutionMode::Mixture(ok).validate().unwrap().validate().unwrap();
    assert!(matches!(again, ExecutionMode::Mixture(_)));
}

#[test]
fn plan_runs_layers_then_aggregator() {
    let mixture = Mixture::new(vec![layer(&["a", "b"]), layer(&["c"])], Aggregation { agent: agent("z") }).unwrap();
    let mode = ExecutionMode::Mixture(mixture);
    let plan = Scheduler::plan(&mode).unwrap();
    let ids: Vec<Vec<&str>> = plan.iter().map(|s| s.iter().map(|a| a.identity.id.as_str()).collect()).collect();
    assert_eq!(ids, vec![vec!["a", "b"], vec!["c"], vec!["z"]]);
    let single = ExecutionMode::Single(agent("x"));
    assert_eq!(Scheduler::plan(&single).unwrap().len(), 1);
    let sup = Supervised::new(agent("s"), vec![agent("w")], 2).unwrap();
    let mode = ExecutionMode::MultiAgent(MultiAgent::new(MultiAgentStrategy::Supervised(sup)));
    assert_eq!(Scheduler::plan(&mode).unwrap_err(), ConfigError::DynamicRuntime);
}
