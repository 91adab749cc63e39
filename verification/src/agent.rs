use vstd::prelude::*;
use crate::ranking::views;
use crate::text::{blank, byte_len, is_blank, str_eq, text_len};

verus! {

/// Why an agent or a team of agents was refused.
#[derive(Debug, Clone, Copy, PartialEq, Eq)]
pub enum ConfigError {
    EmptyIdentifier,
    EmptyRole,
    EmptyModel,
    ProviderNotConnected,
    InstructionsTooLarge,
    EmptyLayer,
    NoMixtureLayers,
    NoMoaLayers,
    DuplicateAgent,
    DuplicateAggregator,
    WorkerCount,
    DelegationLimit,
    PopulationSize,
    PopulationRounds,
    DuplicatePopulationAgent,
    AdaptiveBounds,
    InvalidLayeredMoa,
    LayerCount,
    LayerTooLarge,
    DynamicRuntime,
    DynamicPopulationRuntime,
}

impl ConfigError {
    pub fn message(&self) -> (text: &'static str)
        ensures
            text@ == match self {
                ConfigError::EmptyIdentifier => "Agent identifier cannot be empty"@,
                ConfigError::EmptyRole => "Agent role cannot be empty"@,
                ConfigError::EmptyModel => "Model name cannot be empty"@,
                ConfigError::ProviderNotConnected => "Fournisseur non connecté"@,
                ConfigError::InstructionsTooLarge => "Instructions trop volumineuses"@,
                ConfigError::EmptyLayer => "An agent layer cannot be empty"@,
                ConfigError::NoMixtureLayers => "A mixture requires at least one layer"@,
                ConfigError::NoMoaLayers => "A layered MoA requires at least one layer"@,
                ConfigError::DuplicateAgent => "Duplicate agent identifier"@,
                ConfigError::DuplicateAggregator => "Duplicate aggregator identifier"@,
                ConfigError::WorkerCount => "Supervised execution requires one to eight workers"@,
                ConfigError::DelegationLimit => "Invalid delegation limit"@,
                ConfigError::PopulationSize => "A population requires two to four agents"@,
                ConfigError::PopulationRounds => "Invalid population round count"@,
                ConfigError::DuplicatePopulationAgent => "Duplicate population agent identifier"@,
                ConfigError::AdaptiveBounds => "Invalid adaptive population bounds"@,
                ConfigError::InvalidLayeredMoa => "Invalid layered MoA configuration"@,
                ConfigError::LayerCount => "Nombre de couches MoA invalide"@,
                ConfigError::LayerTooLarge => "Trop d'agents dans une couche"@,
                ConfigError::DynamicRuntime => "Supervised orchestration has a dynamic runtime"@,
                ConfigError::DynamicPopulationRuntime => "Population orchestration has a dynamic runtime"@,
            },
    {
        match self {
            ConfigError::EmptyIdentifier => "Agent identifier cannot be empty",
            ConfigError::EmptyRole => "Agent role cannot be empty",
            ConfigError::EmptyModel => "Model name cannot be empty",
            ConfigError::ProviderNotConnected => "Fournisseur non connecté",
            ConfigError::InstructionsTooLarge => "Instructions trop volumineuses",
            ConfigError::EmptyLayer => "An agent layer cannot be empty",
            ConfigError::NoMixtureLayers => "A mixture requires at least one layer",
            ConfigError::NoMoaLayers => "A layered MoA requires at least one layer",
            ConfigError::DuplicateAgent => "Duplicate agent identifier",
            ConfigError::DuplicateAggregator => "Duplicate aggregator identifier",
            ConfigError::WorkerCount => "Supervised execution requires one to eight workers",
            ConfigError::DelegationLimit => "Invalid delegation limit",
            ConfigError::PopulationSize => "A population requires two to four agents",
            ConfigError::PopulationRounds => "Invalid population round count",
            ConfigError::DuplicatePopulationAgent => "Duplicate population agent identifier",
            ConfigError::AdaptiveBounds => "Invalid adaptive population bounds",
            ConfigError::InvalidLayeredMoa => "Invalid layered MoA configuration",
            ConfigError::LayerCount => "Nombre de couches MoA invalide",
            ConfigError::LayerTooLarge => "Trop d'agents dans une couche",
            ConfigError::DynamicRuntime => "Supervised orchestration has a dynamic runtime",
            ConfigError::DynamicPopulationRuntime => "Population orchestration has a dynamic runtime",
        }
    }
}

/// The identifier of an agent.
#[derive(Debug)]
pub struct AgentIdentity {
    pub id: String,
}

/// The role of an agent and its instructions.
#[derive(Debug)]
pub struct AgentRole {
    pub name: String,
    pub instructions: String,
}

/// The model that serves an agent.
#[derive(Debug)]
pub struct Model {
    pub provider: String,
    pub name: String,
}

/// An agent: who it is, what it does, and which model runs it.
#[derive(Debug)]
pub struct AgentConfig {
    pub identity: AgentIdentity,
    pub role: AgentRole,
    pub model: Model,
}

/// The only provider that agents can use.
pub open spec fn connected_provider(provider: Seq<char>) -> bool {
    provider == "ollama"@
}

/// Largest size of role instructions, in UTF-8 bytes.
pub const MAX_INSTRUCTION_BYTES: usize = 8192;

/// The agent built from its five fields, or the first check that fails: the provider, the
/// size of the instructions, then the identifier, the role and the model name.
pub open spec fn agent_from_parts(
    id: String,
    role: String,
    instructions: String,
    provider: String,
    model: String,
) -> Result<AgentConfig, ConfigError> {
    if !connected_provider(provider@) {
        Err(ConfigError::ProviderNotConnected)
    } else if byte_len(instructions@) > 8192 {
        Err(ConfigError::InstructionsTooLarge)
    } else if blank(id@) {
        Err(ConfigError::EmptyIdentifier)
    } else if blank(role@) {
        Err(ConfigError::EmptyRole)
    } else if blank(model@) {
        Err(ConfigError::EmptyModel)
    } else {
        Ok(
            AgentConfig {
                identity: AgentIdentity { id },
                role: AgentRole { name: role, instructions },
                model: Model { provider, name: model },
            },
        )
    }
}

impl AgentIdentity {
    /// An identifier made only of white space is refused.
    pub fn new(id: String) -> (r: Result<Self, ConfigError>)
        ensures
            r == if blank(id@) {
                Err::<Self, ConfigError>(ConfigError::EmptyIdentifier)
            } else {
                Ok(AgentIdentity { id })
            },
    {
        if is_blank(id.as_str()) {
            return Err(ConfigError::EmptyIdentifier);
        }
        Ok(AgentIdentity { id })
    }
}

impl AgentRole {
    /// A role name made only of white space is refused; the instructions are kept as given.
    pub fn new(name: String, instructions: String) -> (r: Result<Self, ConfigError>)
        ensures
            r == if blank(name@) {
                Err::<Self, ConfigError>(ConfigError::EmptyRole)
            } else {
                Ok(AgentRole { name, instructions })
            },
    {
        if is_blank(name.as_str()) {
            return Err(ConfigError::EmptyRole);
        }
        Ok(AgentRole { name, instructions })
    }
}

impl Model {
    /// A model name made only of white space is refused.
    pub fn new(provider: String, name: String) -> (r: Result<Self, ConfigError>)
        ensures
            r == if blank(name@) {
                Err::<Self, ConfigError>(ConfigError::EmptyModel)
            } else {
                Ok(Model { provider, name })
            },
    {
        if is_blank(name.as_str()) {
            return Err(ConfigError::EmptyModel);
        }
        Ok(Model { provider, name })
    }
}

impl AgentConfig {
    /// Builds an agent from its fields, checking them in a fixed order.
    pub fn from_parts(
        id: String,
        role: String,
        instructions: String,
        provider: String,
        model: String,
    ) -> (r: Result<Self, ConfigError>)
        ensures
            r == agent_from_parts(id, role, instructions, provider, model),
    {
        if !str_eq(provider.as_str(), "ollama") {
            return Err(ConfigError::ProviderNotConnected);
        }
        if text_len(instructions.as_str()) > MAX_INSTRUCTION_BYTES {
            return Err(ConfigError::InstructionsTooLarge);
        }
        let identity = match AgentIdentity::new(id) {
            Ok(v) => v,
            Err(e) => {
                return Err(e);
            },
        };
        let role = match AgentRole::new(role, instructions) {
            Ok(v) => v,
            Err(e) => {
                return Err(e);
            },
        };
        let model = match Model::new(provider, model) {
            Ok(v) => v,
            Err(e) => {
                return Err(e);
            },
        };
        Ok(AgentConfig { identity, role, model })
    }
}

/// The identifiers of a sequence of agents.
pub open spec fn ids(agents: Seq<AgentConfig>) -> Seq<Seq<char>> {
    agents.map_values(|a: AgentConfig| a.identity.id@)
}

/// Whether `id@` occurs in `seen`.
pub fn contains_id(seen: &Vec<String>, id: &String) -> (b: bool)
    ensures
        b == views(seen@).contains(id@),
{
    let ghost v = views(seen@);
    let mut i: usize = 0;
    while i < seen.len()
        invariant
            i <= seen@.len(),
            v == views(seen@),
            forall|j: int| 0 <= j < i ==> v[j] != id@,
        decreases seen@.len() - i,
    {
        if str_eq(seen[i].as_str(), id.as_str()) {
            assert(v[i as int] == id@);
            return true;
        }
        i = i + 1;
    }
    false
}

/// Adds the identifiers of `agents` to `seen`, which holds no identifier twice; tells whether
/// the result still holds none twice. When it does, `seen` ends with those identifiers.
pub(crate) fn extend_distinct(seen: &mut Vec<String>, agents: &Vec<AgentConfig>) -> (ok: bool)
    requires
        views(old(seen)@).no_duplicates(),
    ensures
        ok == (views(old(seen)@) + ids(agents@)).no_duplicates(),
        ok ==> views(final(seen)@) == views(old(seen)@) + ids(agents@),
{
    let ghost base = views(seen@);
    let ghost all = ids(agents@);
    let mut j: usize = 0;
    proof {
        assert(all.take(0) =~= Seq::<Seq<char>>::empty());
        assert(base + all.take(0) =~= base);
    }
    while j < agents.len()
        invariant
            j <= agents@.len(),
            all == ids(agents@),
            base == views(old(seen)@),
            views(seen@) == base + all.take(j as int),
            (base + all.take(j as int)).no_duplicates(),
        decreases agents@.len() - j,
    {
        let id = &agents[j].identity.id;
        proof {
            assert(all[j as int] == id@);
        }
        if contains_id(seen, id) {
            proof {
                let cur = base + all.take(j as int);
                let k = choose|k: int| 0 <= k < cur.len() && cur[k] == id@;
                let whole = base + all;
                assert(all.len() == agents@.len());
                if k < base.len() {
                    assert(whole[k] == base[k]);
                } else {
                    assert(cur[k] == all.take(j as int)[k - base.len()]);
                    assert(whole[k] == all[k - base.len()]);
                }
                assert(whole[k] == cur[k]);
                assert(whole[base.len() + j] == id@);
                assert(k != base.len() + j);
                assert(!whole.no_duplicates());
            }
            return false;
        }
        let ghost before = views(seen@);
        seen.push(id.clone());
        proof {
            assert(views(seen@) =~= before.push(id@));
            assert(base + all.take(j as int + 1) =~= (base + all.take(j as int)).push(id@));
        }
        j = j + 1;
    }
    proof {
        assert(all.take(agents@.len() as int) =~= all);
    }
    true
}

} // verus!
