use vstd::prelude::*;
use crate::agent::{AgentConfig, ConfigError, agent_from_parts, ids};
use crate::orchestration::{
    AgentLayer, Aggregation, ExecutionMode, Mixture, layered_check_ids,
};
use crate::retrieval::{Message, is_user};
use crate::text::{blank, byte_len, is_blank, str_eq, text_len};

verus! {

/// An agent as a run request describes it.
#[derive(Debug)]
pub struct AgentSpec {
    pub id: String,
    pub role: String,
    pub instructions: String,
    pub provider: String,
    pub model: String,
}

/// Layers of agents and an aggregator, as a run request describes them.
#[derive(Debug)]
pub struct MixtureSpec {
    pub layers: Vec<Vec<AgentSpec>>,
    pub aggregator: AgentSpec,
}

/// The kind of run asked for.
#[derive(Debug)]
pub enum RunMode {
    Single { agent: AgentSpec },
    Mixture { mixture: MixtureSpec },
}

/// A request to start a run.
#[derive(Debug)]
pub struct RunRequest {
    pub command: String,
    pub request_id: String,
    pub messages: Vec<Message>,
    pub mode: RunMode,
}

/// Why a run request was refused.
#[derive(Debug, Clone, Copy, PartialEq, Eq)]
pub enum RequestError {
    InvalidRequest,
    LastNotUser,
    RoleNotAllowed,
    InvalidContent,
    TooLarge,
}

impl RequestError {
    pub fn message(&self) -> (text: &'static str)
        ensures
            text@ == match self {
                RequestError::InvalidRequest => "Demande d'exécution invalide"@,
                RequestError::LastNotUser => "Le dernier message doit venir de l'utilisateur"@,
                RequestError::RoleNotAllowed => "Rôle de message non autorisé"@,
                RequestError::InvalidContent => "Contenu du message invalide"@,
                RequestError::TooLarge => "Conversation trop volumineuse"@,
            },
    {
        match self {
            RequestError::InvalidRequest => "Demande d'exécution invalide",
            RequestError::LastNotUser => "Le dernier message doit venir de l'utilisateur",
            RequestError::RoleNotAllowed => "Rôle de message non autorisé",
            RequestError::InvalidContent => "Contenu du message invalide",
            RequestError::TooLarge => "Conversation trop volumineuse",
        }
    }
}

/// The agent that a spec describes, or the first check that fails.
pub open spec fn spec_config(s: AgentSpec) -> Result<AgentConfig, ConfigError> {
    agent_from_parts(s.id, s.role, s.instructions, s.provider, s.model)
}

impl AgentSpec {
    pub fn into_config(self) -> (r: Result<AgentConfig, ConfigError>)
        ensures
            r == spec_config(self),
    {
        AgentConfig::from_parts(self.id, self.role, self.instructions, self.provider, self.model)
    }
}

/// The agents that specs describe, in order, or the error of the first spec that fails.
pub open spec fn configs_of(specs: Seq<AgentSpec>) -> Result<Seq<AgentConfig>, ConfigError>
    decreases specs.len(),
{
    if specs.len() == 0 {
        Ok(Seq::empty())
    } else {
        match spec_config(specs[0]) {
            Err(e) => Err(e),
            Ok(c) => match configs_of(specs.drop_first()) {
                Err(e) => Err(e),
                Ok(rest) => Ok(seq![c] + rest),
            },
        }
    }
}

/// The layers that layer specs describe, in order: a layer of more than eight agents is
/// refused, then its agents are built, then an empty layer is refused.
pub open spec fn layers_of(layers: Seq<Vec<AgentSpec>>) -> Result<Seq<Seq<AgentConfig>>, ConfigError>
    decreases layers.len(),
{
    if layers.len() == 0 {
        Ok(Seq::empty())
    } else if layers[0]@.len() > 8 {
        Err(ConfigError::LayerTooLarge)
    } else {
        match configs_of(layers[0]@) {
            Err(e) => Err(e),
            Ok(agents) => if agents.len() == 0 {
                Err(ConfigError::EmptyLayer)
            } else {
                match layers_of(layers.drop_first()) {
                    Err(e) => Err(e),
                    Ok(rest) => Ok(seq![agents] + rest),
                }
            },
        }
    }
}

/// The layers and aggregator of a mixture spec, or the first check that fails: one to six
/// layers, then the layers, then the aggregator, then the checks of a mixture.
pub open spec fn mixture_parts(m: MixtureSpec) -> Result<(Seq<Seq<AgentConfig>>, AgentConfig), ConfigError> {
    if m.layers@.len() == 0 || m.layers@.len() > 6 {
        Err(ConfigError::LayerCount)
    } else {
        match layers_of(m.layers@) {
            Err(e) => Err(e),
            Ok(layers) => match spec_config(m.aggregator) {
                Err(e) => Err(e),
                Ok(agg) => match layered_check_ids(
                    layers.map_values(|l: Seq<AgentConfig>| ids(l)),
                    agg.identity.id@,
                    ConfigError::NoMixtureLayers,
                ) {
                    Err(e) => Err(e),
                    Ok(_) => Ok((layers, agg)),
                },
            },
        }
    }
}

fn configs_from(specs: Vec<AgentSpec>) -> (r: Result<Vec<AgentConfig>, ConfigError>)
    ensures
        match configs_of(specs@) {
            Err(e) => r == Err::<Vec<AgentConfig>, ConfigError>(e),
            Ok(v) => r matches Ok(out) && out@ == v,
        },
{
    let ghost all = specs@;
    let mut rest = specs;
    let mut out: Vec<AgentConfig> = Vec::new();
    proof {
        assert(all.skip(0) =~= all);
        assert(Seq::<AgentConfig>::empty() + Seq::<AgentConfig>::empty() =~= Seq::<AgentConfig>::empty());
    }
    while rest.len() > 0
        invariant
            all == specs@,
            rest@ == all.skip(all.len() - rest@.len()),
            rest@.len() <= all.len(),
            match configs_of(all) {
                Err(e) => configs_of(rest@) == Err::<Seq<AgentConfig>, ConfigError>(e),
                Ok(v) => configs_of(rest@) matches Ok(t) && v == out@ + t,
            },
        decreases rest@.len(),
    {
        let ghost before = rest@;
        let s = rest.remove(0);
        proof {
            assert(before[0] == s);
            assert(before.drop_first() =~= rest@);
            assert(rest@ =~= all.skip(all.len() - rest@.len()));
        }
        match s.into_config() {
            Err(e) => {
                proof {
                    assert(configs_of(before) == Err::<Seq<AgentConfig>, ConfigError>(e));
                }
                return Err(e);
            },
            Ok(c) => {
                let ghost prev = out@;
                out.push(c);
                proof {
                    if let Ok(v) = configs_of(all) {
                        let t = configs_of(rest@)->Ok_0;
                        assert(prev + (seq![c] + t) =~= out@ + t);
                    }
                }
            },
        }
    }
    proof {
        assert(rest@ =~= Seq::<AgentSpec>::empty());
        if let Ok(v) = configs_of(all) {
            assert(out@ + Seq::<AgentConfig>::empty() =~= out@);
        }
    }
    Ok(out)
}

fn layers_from(layers: Vec<Vec<AgentSpec>>) -> (r: Result<Vec<AgentLayer>, ConfigError>)
    ensures
        match layers_of(layers@) {
            Err(e) => r == Err::<Vec<AgentLayer>, ConfigError>(e),
            Ok(v) => r matches Ok(out) && out@.len() == v.len() && forall|i: int|
                0 <= i < v.len() ==> (#[trigger] out@[i]).agents@ == v[i],
        },
{
    let ghost all = layers@;
    let mut rest = layers;
    let mut out: Vec<AgentLayer> = Vec::new();
    proof {
        assert(all.skip(0) =~= all);
    }
    while rest.len() > 0
        invariant
            all == layers@,
            rest@ == all.skip(all.len() - rest@.len()),
            rest@.len() <= all.len(),
            match layers_of(all) {
                Err(e) => layers_of(rest@) == Err::<Seq<Seq<AgentConfig>>, ConfigError>(e),
                Ok(v) => layers_of(rest@) matches Ok(t) && v.len() == out@.len() + t.len() && (forall|i: int|
                    0 <= i < out@.len() ==> (#[trigger] out@[i]).agents@ == v[i]) && (forall|i: int|
                    0 <= i < t.len() ==> #[trigger] t[i] == v[out@.len() + i]),
            },
        decreases rest@.len(),
    {
        let ghost before = rest@;
        let specs = rest.remove(0);
        proof {
            assert(before[0] == specs);
            assert(before.drop_first() =~= rest@);
            assert(rest@ =~= all.skip(all.len() - rest@.len()));
        }
        if specs.len() > 8 {
            proof {
                assert(layers_of(before) == Err::<Seq<Seq<AgentConfig>>, ConfigError>(ConfigError::LayerTooLarge));
            }
            return Err(ConfigError::LayerTooLarge);
        }
        let agents = match configs_from(specs) {
            Err(e) => {
                proof {
                    assert(layers_of(before) == Err::<Seq<Seq<AgentConfig>>, ConfigError>(e));
                }
                return Err(e);
            },
            Ok(a) => a,
        };
        let layer = match AgentLayer::new(agents) {
            Err(e) => {
                proof {
                    assert(layers_of(before) == Err::<Seq<Seq<AgentConfig>>, ConfigError>(e));
                }
                return Err(e);
            },
            Ok(l) => l,
        };
        let ghost prev = out@;
        out.push(layer);
        proof {
            if let Ok(v) = layers_of(all) {
                let t0 = layers_of(before)->Ok_0;
                let t = layers_of(rest@)->Ok_0;
                assert(t0 == seq![layer.agents@] + t);
                assert(t0[0] == layer.agents@);
                assert(v[prev.len() as int] == layer.agents@);
                assert forall|i: int| 0 <= i < t.len() implies #[trigger] t[i] == v[out@.len() + i] by {
                    assert(t[i] == t0[i + 1]);
                }
                assert forall|i: int| 0 <= i < out@.len() implies (#[trigger] out@[i]).agents@ == v[i] by {
                    if i < prev.len() {
                        assert(out@[i] == prev[i]);
                    }
                }
            }
        }
    }
    proof {
        assert(rest@ =~= Seq::<Vec<AgentSpec>>::empty());
    }
    Ok(out)
}

impl RunRequest {
    /// Builds the execution mode that the request describes. A single agent is checked as an
    /// agent; a mixture needs one to six layers of at most eight agents each, valid agents, and
    /// distinct identifiers.
    pub fn into_mode(self) -> (r: Result<ExecutionMode, ConfigError>)
        ensures
            match self.mode {
                RunMode::Single { agent } => match spec_config(agent) {
                    Ok(c) => r == Ok::<ExecutionMode, ConfigError>(ExecutionMode::Single(c)),
                    Err(e) => r == Err::<ExecutionMode, ConfigError>(e),
                },
                RunMode::Mixture { mixture } => match mixture_parts(mixture) {
                    Err(e) => r == Err::<ExecutionMode, ConfigError>(e),
                    Ok(parts) => r matches Ok(ExecutionMode::Mixture(m)) && m.layers@.len() == parts.0.len()
                        && (forall|i: int| 0 <= i < parts.0.len() ==> (#[trigger] m.layers@[i]).agents@ == parts.0[i])
                        && m.aggregation.agent == parts.1,
                },
            },
    {
        match self.mode {
            RunMode::Single { agent } => match agent.into_config() {
                Ok(c) => Ok(ExecutionMode::Single(c)),
                Err(e) => Err(e),
            },
            RunMode::Mixture { mixture } => {
                if mixture.layers.len() == 0 || mixture.layers.len() > 6 {
                    return Err(ConfigError::LayerCount);
                }
                let ghost spec_layers = mixture.layers@;
                let layers = match layers_from(mixture.layers) {
                    Ok(l) => l,
                    Err(e) => {
                        return Err(e);
                    },
                };
                let agent = match mixture.aggregator.into_config() {
                    Ok(a) => a,
                    Err(e) => {
                        return Err(e);
                    },
                };
                proof {
                    let ls = layers_of(spec_layers)->Ok_0;
                    assert(crate::orchestration::layer_ids(layers@) =~= ls.map_values(|l: Seq<AgentConfig>| ids(l)));
                }
                let aggregation = Aggregation { agent };
                match Mixture::new(layers, aggregation) {
                    Ok(m) => Ok(ExecutionMode::Mixture(m)),
                    Err(e) => Err(e),
                }
            },
        }
    }
}

/// A message may come from the user or from the assistant.
pub open spec fn allowed_role(m: Message) -> bool {
    m.role@ == "user"@ || m.role@ == "assistant"@
}

/// A message must hold something other than white space, and at most 32768 bytes.
pub open spec fn content_ok(m: Message) -> bool {
    !blank(m.content@) && byte_len(m.content@) <= 32768
}

/// The error of the first message that breaks a rule, if any.
pub open spec fn first_message_error(ms: Seq<Message>) -> Option<RequestError>
    decreases ms.len(),
{
    if ms.len() == 0 {
        None
    } else if !allowed_role(ms[0]) {
        Some(RequestError::RoleNotAllowed)
    } else if !content_ok(ms[0]) {
        Some(RequestError::InvalidContent)
    } else {
        first_message_error(ms.drop_first())
    }
}

/// Total UTF-8 size of the contents.
pub open spec fn content_bytes(ms: Seq<Message>) -> nat
    decreases ms.len(),
{
    if ms.len() == 0 {
        0
    } else {
        content_bytes(ms.drop_last()) + byte_len(ms.last().content@)
    }
}

/// The checks of a run request, in order: the command is `run.start`, the request identifier
/// has 1 to 128 bytes and there are 1 to 32 messages; the last message is from the user; each
/// message has an allowed role and a valid content; and all contents add up to at most
/// 131072 bytes.
pub open spec fn request_check(command: Seq<char>, request_id: Seq<char>, ms: Seq<Message>) -> Result<(), RequestError> {
    if command != "run.start"@ || request_id.len() == 0 || byte_len(request_id) > 128 || ms.len() == 0
        || ms.len() > 32 {
        Err(RequestError::InvalidRequest)
    } else if !is_user(ms.last()) {
        Err(RequestError::LastNotUser)
    } else {
        match first_message_error(ms) {
            Some(e) => Err(e),
            None => if content_bytes(ms) > 131072 {
                Err(RequestError::TooLarge)
            } else {
                Ok(())
            },
        }
    }
}

impl RunRequest {
    pub fn validate_messages(&self) -> (r: Result<(), RequestError>)
        ensures
            r == request_check(self.command@, self.request_id@, self.messages@),
    {
        if !str_eq(self.command.as_str(), "run.start") || self.request_id.as_str().is_empty()
            || text_len(self.request_id.as_str()) > 128 || self.messages.len() == 0
            || self.messages.len() > 32 {
            return Err(RequestError::InvalidRequest);
        }
        let last = self.messages.len() - 1;
        if !str_eq(self.messages[last].role.as_str(), "user") {
            return Err(RequestError::LastNotUser);
        }
        let ghost ms = self.messages@;
        let mut total: usize = 0;
        let mut i: usize = 0;
        proof {
            assert(ms.skip(0) =~= ms);
            assert(ms.take(0) =~= Seq::<Message>::empty());
        }
        while i < self.messages.len()
            invariant
                ms == self.messages@,
                1 <= ms.len() <= 32,
                self.command@ == "run.start"@,
                self.request_id@.len() != 0,
                byte_len(self.request_id@) <= 128,
                is_user(ms.last()),
                i <= ms.len(),
                first_message_error(ms) == first_message_error(ms.skip(i as int)),
                total as nat == content_bytes(ms.take(i as int)),
                total <= 32768 * i,
            decreases ms.len() - i,
        {
            let message = &self.messages[i];
            proof {
                let rest = ms.skip(i as int);
                assert(rest[0] == ms[i as int]);
                assert(rest.drop_first() =~= ms.skip(i as int + 1));
                assert(ms.take(i as int + 1).drop_last() =~= ms.take(i as int));
            }
            if !(str_eq(message.role.as_str(), "user") || str_eq(message.role.as_str(), "assistant")) {
                return Err(RequestError::RoleNotAllowed);
            }
            let size = text_len(message.content.as_str());
            if is_blank(message.content.as_str()) || size > 32768 {
                return Err(RequestError::InvalidContent);
            }
            total = total + size;
            i = i + 1;
        }
        proof {
            assert(ms.skip(ms.len() as int) =~= Seq::<Message>::empty());
            assert(ms.take(ms.len() as int) =~= ms);
        }
        if total > 131072 {
            return Err(RequestError::TooLarge);
        }
        Ok(())
    }
}

proof fn lemma_configs_len(specs: Seq<AgentSpec>)
    ensures
        configs_of(specs) matches Ok(v) ==> v.len() == specs.len(),
    decreases specs.len(),
{
    if specs.len() > 0 {
        lemma_configs_len(specs.drop_first());
    }
}

proof fn lemma_layers_shape(layers: Seq<Vec<AgentSpec>>)
    ensures
        layers_of(layers) matches Ok(v) ==> v.len() == layers.len() && forall|i: int|
            0 <= i < v.len() ==> 1 <= (#[trigger] v[i]).len() <= 8,
    decreases layers.len(),
{
    if layers.len() > 0 && layers[0]@.len() <= 8 {
        lemma_configs_len(layers[0]@);
        lemma_layers_shape(layers.drop_first());
        if let Ok(v) = layers_of(layers) {
            let rest = layers_of(layers.drop_first())->Ok_0;
            assert forall|i: int| 0 <= i < v.len() implies 1 <= (#[trigger] v[i]).len() <= 8 by {
                if i > 0 {
                    assert(v[i] == rest[i - 1]);
                }
            }
        }
    }
}

/// A mixture that a run request yields passes the checks of an execution mode, so saving or
/// loading it again keeps it as it is.
pub proof fn lemma_requested_mixture_valid(spec: MixtureSpec, m: Mixture)
    requires
        mixture_parts(spec) is Ok,
        m.layers@.len() == mixture_parts(spec)->Ok_0.0.len(),
        forall|i: int| 0 <= i < m.layers@.len() ==> (#[trigger] m.layers@[i]).agents@ == mixture_parts(spec)->Ok_0.0[i],
        m.aggregation.agent == mixture_parts(spec)->Ok_0.1,
    ensures
        crate::orchestration::mode_check(ExecutionMode::Mixture(m)) is Ok,
{
    let parts = mixture_parts(spec)->Ok_0;
    lemma_layers_shape(spec.layers@);
    assert forall|i: int| 0 <= i < m.layers@.len() implies (#[trigger] m.layers@[i]).agents@.len() <= 8 by {
        assert(m.layers@[i].agents@ == parts.0[i]);
    }
    assert(crate::orchestration::layer_ids(m.layers@) =~= parts.0.map_values(|l: Seq<AgentConfig>| ids(l)));
}

} // verus!
