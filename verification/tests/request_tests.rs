use backend::agent::ConfigError;
use backend::orchestration::ExecutionMode;
use backend::request::{AgentSpec, MixtureSpec, RequestError, RunMode, RunRequest};
use backend::retrieval::Message;

fn spec(id: &str) -> AgentSpec {
    AgentSpec {
        id: id.to_string(),
        role: "role".to_string(),
        instructions: "do it".to_string(),
        provider: "ollama".to_string(),
        model: "llama3".to_string(),
    }
}

fn msg(role: &str, content: &str) -> Message {
    Message { role: role.to_string(), content: content.to_string() }
}

fn request(messages: Vec<Message>, mode: RunMode) -> RunRequest {
    RunRequest { command: "run.start".to_string(), request_id: "r1".to_string(), messages, mode }
}

#[test]
fn agent_spec_into_config() {
    let c = spec("a").into_config().unwrap();
    assert_eq!(c.identity.id, "a");
    assert_eq!(c.model.name, "llama3");
    let mut s = spec("a");
    s.provider = "other".to_string();
    assert_eq!(s.into_config().unwrap_err(), ConfigError::ProviderNotConnected);
    assert_eq!(ConfigError::ProviderNotConnected.message(), "Fournisseur non connecté");
}

#[test]
fn valid_request_passes() {
    let r = request(vec![msg("user", "hi"), msg("assistant", "hello"), msg("user", "go")], RunMode::Single { agent: spec("a") });
    assert_eq!(r.validate_messages(), Ok(()));
}

#[test]
fn envelope_errors() {
    let mut r = request(vec![msg("user", "hi")], RunMode::Single { agent: spec("a") });
    r.command = "run.stop".to_string();
    assert_eq!(r.validate_messages(), Err(RequestError::InvalidRequest));
    let mut r = request(vec![msg("user", "hi")], RunMode::Single { agent: spec("a") });
    r.request_id = "x".repeat(129);
    assert_eq!(r.validate_messages(), Err(RequestError::InvalidRequest));
    let r = request(vec![], RunMode::Single { agent: spec("a") });
    assert_eq!(r.validate_messages(), Err(RequestError::InvalidRequest));
    let many: Vec<Message> = (0..33).map(|_| msg("user", "x")).collect();
    assert_eq!(request(many, RunMode::Single { agent: spec("a") }).validate_messages(), Err(RequestError::InvalidRequest));
    assert_eq!(RequestError::InvalidRequest.message(), "Demande d'exécution invalide");
}

#[test]
fn message_errors() {
    let r = request(vec![msg("user", "a"), msg("assistant", "b")], RunMode::Single { agent: spec("a") });
    assert_eq!(r.validate_messages(), Err(RequestError::LastNotUser));
    let r = request(vec![msg("system", "a"), msg("user", "b")], RunMode::Single { agent: spec("a") });
    assert_eq!(r.validate_messages(), Err(RequestError::RoleNotAllowed));
    let r = request(vec![msg("user", "  "), msg("user", "b")], RunMode::Single { agent: spec("a") });
    assert_eq!(r.validate_messages(), Err(RequestError::InvalidContent));
    let r = request(vec![msg("user", &"x".repeat(32769))], RunMode::Single { agent: spec("a") });
    assert_eq!(r.validate_messages(), Err(RequestError::InvalidContent));
    let big: Vec<Message> = (0..5).map(|_| msg("user", &"x".repeat(32768))).collect();
    assert_eq!(request(big, RunMode::Single { agent: spec("a") }).validate_messages(), Err(RequestError::TooLarge));
    let fits: Vec<Message> = (0..4).map(|_| msg("user", &"x".repeat(32768))).collect();
    assert_eq!(request(fits, RunMode::Single { agent: spec("a") }).validate_messages(), Ok(()));
}

#[test]
fn into_mode_single_and_mixture() {
    let r = request(vec![msg("user", "go")], RunMode::Single { agent: spec("a") });
    assert!(matches!(r.into_mode().unwrap(), ExecutionMode::Single(_)));
    let mixture = MixtureSpec { layers: vec![vec![spec("a"), spec("b")], vec![spec("c")]], aggregator: spec("z") };
    let r = request(vec![msg("user", "go")], RunMode::Mixture { mixture });
    match r.into_mode().unwrap() {
        ExecutionMode::Mixture(m) => {
            assert_eq!(m.layers.len(), 2);
            assert_eq!(m.aggregation.agent.identity.id, "z");
            // A mixture that a request yields passes validation unchanged.
            assert!(ExecutionMode::Mixture(m).validate().is_ok());
        }
        other => panic!("unexpected mode {other:?}"),
    }
}

#[test]
fn into_mode_mixture_errors() {
    let none = MixtureSpec { layers: vec![], aggregator: spec("z") };
    assert_eq!(request(vec![], RunMode::Mixture { mixture: none }).into_mode().unwrap_err(), ConfigError::LayerCount);
    let seven = MixtureSpec { layers: (0..7).map(|i| vec![spec(&format!("a{i}"))]).collect(), aggregator: spec("z") };
    assert_eq!(request(vec![], RunMode::Mixture { mixture: seven }).into_mode().unwrap_err(), ConfigError::LayerCount);
    let wide = MixtureSpec { layers: vec![(0..9).map(|i| spec(&format!("a{i}"))).collect()], aggregator: spec("z") };
    assert_eq!(request(vec![], RunMode::Mixture { mixture: wide }).into_mode().unwrap_err(), ConfigError::LayerTooLarge);
    let empty = MixtureSpec { layers: vec![vec![]], aggregator: spec("z") };
    assert_eq!(request(vec![], RunMode::Mixture { mixture: empty }).into_mode().unwrap_err(), ConfigError::EmptyLayer);
    let dup = MixtureSpec { layers: vec![vec![spec("a")], vec![spec("a")]], aggregator: spec("z") };
    assert_eq!(request(vec![], RunMode::Mixture { mixture: dup }).into_mode().unwrap_err(), ConfigError::DuplicateAgent);
    let agg = MixtureSpec { layers: vec![vec![spec("a")]], aggregator: spec("a") };
    assert_eq!(request(vec![], RunMode::Mixture { mixture: agg }).into_mode().unwrap_err(), ConfigError::DuplicateAggregator);
    let mut bad = spec(" ");
    bad.role = "r".to_string();
    let blank = MixtureSpec { layers: vec![vec![spec("a"), bad]], aggregator: spec("z") };
    assert_eq!(request(vec![], RunMode::Mixture { mixture: blank }).into_mode().unwrap_err(), ConfigError::EmptyIdentifier);
    assert_eq!(ConfigError::LayerCount.message(), "Nombre de couches MoA invalide");
    assert_eq!(ConfigError::LayerTooLarge.message(), "Trop d'agents dans une couche");
}
