use vstd::prelude::*;
use crate::agent::{AgentConfig, ConfigError, contains_id, extend_distinct, ids};
use crate::ranking::views;

verus! {

/// Agents that work side by side in one stage.
#[derive(Debug)]
pub struct AgentLayer {
    pub agents: Vec<AgentConfig>,
}

/// The agent that combines the last layer's answers.
#[derive(Debug)]
pub struct Aggregation {
    pub agent: AgentConfig,
}

/// Proposal layers followed by an aggregator, as a run request describes them.
#[derive(Debug)]
pub struct Mixture {
    pub layers: Vec<AgentLayer>,
    pub aggregation: Aggregation,
}

/// Fixed proposal layers followed by an aggregator.
#[derive(Debug)]
pub struct LayeredMoa {
    pub layers: Vec<AgentLayer>,
    pub aggregation: Aggregation,
}

/// A supervisor that delegates tasks to workers, at most `max_delegations` times.
#[derive(Debug)]
pub struct Supervised {
    pub supervisor: AgentConfig,
    pub workers: Vec<AgentConfig>,
    pub max_delegations: usize,
}

/// Which agents of a population take part in a round.
#[derive(Debug, Clone, Copy, PartialEq, Eq)]
pub enum ParticipationPolicy {
    /// Every agent, every round.
    Fixed,
    /// Between `min_agents` and `max_agents`, chosen by the facilitator.
    Adaptive { min_agents: usize, max_agents: usize },
}

/// How the size of a population may evolve; only a fixed population is run.
#[derive(Debug, Clone, Copy, PartialEq, Eq)]
pub enum PopulationPolicy {
    Fixed,
    Adaptive { min_agents: usize, max_agents: usize },
    Evolutionary { population_size: usize, generations: usize },
}

/// Agents that contribute over several rounds, and a facilitator who concludes.
#[derive(Debug)]
pub struct Population {
    pub agents: Vec<AgentConfig>,
    pub facilitator: AgentConfig,
    pub rounds: usize,
    pub participation: ParticipationPolicy,
}

/// How several agents coordinate.
#[derive(Debug)]
pub enum MultiAgentStrategy {
    LayeredMoa(LayeredMoa),
    Supervised(Supervised),
    Population(Population),
}

/// A run with several agents.
#[derive(Debug)]
pub struct MultiAgent {
    pub strategy: MultiAgentStrategy,
}

/// What a run executes.
#[derive(Debug)]
pub enum ExecutionMode {
    Single(AgentConfig),
    Mixture(Mixture),
    MultiAgent(MultiAgent),
}

/// The identifiers of each layer.
pub open spec fn layer_ids(layers: Seq<AgentLayer>) -> Seq<Seq<Seq<char>>> {
    layers.map_values(|l: AgentLayer| ids(l.agents@))
}

/// Walks the layers in order with the identifiers seen so far: an empty layer, or a layer
/// that repeats an identifier, stops the walk; otherwise all identifiers are returned.
pub open spec fn scan_layers(layers: Seq<Seq<Seq<char>>>, seen: Seq<Seq<char>>) -> Result<Seq<Seq<char>>, ConfigError>
    decreases layers.len(),
{
    if layers.len() == 0 {
        Ok(seen)
    } else if layers[0].len() == 0 {
        Err(ConfigError::EmptyLayer)
    } else if !(seen + layers[0]).no_duplicates() {
        Err(ConfigError::DuplicateAgent)
    } else {
        scan_layers(layers.drop_first(), seen + layers[0])
    }
}

/// Checks of a layered composition: at least one layer, no empty layer, no identifier twice,
/// and an aggregator distinct from every layer agent.
pub open spec fn layered_check(layers: Seq<AgentLayer>, aggregator: Seq<char>, no_layers: ConfigError) -> Result<(), ConfigError> {
    layered_check_ids(layer_ids(layers), aggregator, no_layers)
}

/// The checks of a layered composition, on the identifiers of each layer.
pub open spec fn layered_check_ids(layers: Seq<Seq<Seq<char>>>, aggregator: Seq<char>, no_layers: ConfigError) -> Result<(), ConfigError> {
    if layers.len() == 0 {
        Err(no_layers)
    } else {
        match scan_layers(layers, Seq::empty()) {
            Err(e) => Err(e),
            Ok(seen) => if seen.contains(aggregator) {
                Err(ConfigError::DuplicateAggregator)
            } else {
                Ok(())
            },
        }
    }
}

fn check_layers(layers: &Vec<AgentLayer>, aggregator: &AgentConfig, no_layers: ConfigError) -> (r: Result<(), ConfigError>)
    ensures
        r == layered_check(layers@, aggregator.identity.id@, no_layers),
{
    if layers.len() == 0 {
        return Err(no_layers);
    }
    let ghost all = layer_ids(layers@);
    let mut seen: Vec<String> = Vec::new();
    let mut i: usize = 0;
    proof {
        assert(views(seen@) =~= Seq::<Seq<char>>::empty());
        assert(all.skip(0) =~= all);
    }
    while i < layers.len()
        invariant
            i <= layers@.len(),
            all == layer_ids(layers@),
            views(seen@).no_duplicates(),
            scan_layers(all, Seq::empty()) == scan_layers(all.skip(i as int), views(seen@)),
        decreases layers@.len() - i,
    {
        let layer = &layers[i];
        proof {
            let rest = all.skip(i as int);
            assert(rest[0] == ids(layer.agents@));
            assert(rest.drop_first() =~= all.skip(i as int + 1));
        }
        if layer.agents.len() == 0 {
            return Err(ConfigError::EmptyLayer);
        }
        if !extend_distinct(&mut seen, &layer.agents) {
            return Err(ConfigError::DuplicateAgent);
        }
        i = i + 1;
    }
    proof {
        assert(all.skip(layers@.len() as int) =~= Seq::<Seq<Seq<char>>>::empty());
    }
    if contains_id(&seen, &aggregator.identity.id) {
        return Err(ConfigError::DuplicateAggregator);
    }
    Ok(())
}

impl AgentLayer {
    /// A layer needs at least one agent.
    pub fn new(agents: Vec<AgentConfig>) -> (r: Result<Self, ConfigError>)
        ensures
            r == if agents@.len() == 0 {
                Err::<Self, ConfigError>(ConfigError::EmptyLayer)
            } else {
                Ok(AgentLayer { agents })
            },
    {
        if agents.len() == 0 {
            return Err(ConfigError::EmptyLayer);
        }
        Ok(AgentLayer { agents })
    }
}

impl Mixture {
    /// A mixture needs at least one layer, no empty layer, and distinct identifiers among all
    /// layer agents and the aggregator.
    pub fn new(layers: Vec<AgentLayer>, aggregation: Aggregation) -> (r: Result<Self, ConfigError>)
        ensures
            r == match layered_check(layers@, aggregation.agent.identity.id@, ConfigError::NoMixtureLayers) {
                Ok(_) => Ok(Mixture { layers, aggregation }),
                Err(e) => Err::<Self, ConfigError>(e),
            },
    {
        match check_layers(&layers, &aggregation.agent, ConfigError::NoMixtureLayers) {
            Ok(_) => Ok(Mixture { layers, aggregation }),
            Err(e) => Err(e),
        }
    }
}

impl LayeredMoa {
    /// A layered MoA needs at least one layer, no empty layer, and distinct identifiers among
    /// all layer agents and the aggregator.
    pub fn new(layers: Vec<AgentLayer>, aggregation: Aggregation) -> (r: Result<Self, ConfigError>)
        ensures
            r == match layered_check(layers@, aggregation.agent.identity.id@, ConfigError::NoMoaLayers) {
                Ok(_) => Ok(LayeredMoa { layers, aggregation }),
                Err(e) => Err::<Self, ConfigError>(e),
            },
    {
        match check_layers(&layers, &aggregation.agent, ConfigError::NoMoaLayers) {
            Ok(_) => Ok(LayeredMoa { layers, aggregation }),
            Err(e) => Err(e),
        }
    }
}

/// Checks of a supervised team: one to eight workers, one to twelve delegations, and no
/// identifier twice among the supervisor and the workers.
pub open spec fn supervised_check(supervisor: Seq<char>, workers: Seq<AgentConfig>, max_delegations: usize) -> Result<(), ConfigError> {
    if workers.len() == 0 || workers.len() > 8 {
        Err(ConfigError::WorkerCount)
    } else if !(1 <= max_delegations <= 12) {
        Err(ConfigError::DelegationLimit)
    } else if !(seq![supervisor] + ids(workers)).no_duplicates() {
        Err(ConfigError::DuplicateAgent)
    } else {
        Ok(())
    }
}

impl Supervised {
    pub fn new(supervisor: AgentConfig, workers: Vec<AgentConfig>, max_delegations: usize) -> (r: Result<Self, ConfigError>)
        ensures
            r == match supervised_check(supervisor.identity.id@, workers@, max_delegations) {
                Ok(_) => Ok(Supervised { supervisor, workers, max_delegations }),
                Err(e) => Err::<Self, ConfigError>(e),
            },
    {
        if workers.len() == 0 || workers.len() > 8 {
            return Err(ConfigError::WorkerCount);
        }
        if !(1 <= max_delegations && max_delegations <= 12) {
            return Err(ConfigError::DelegationLimit);
        }
        let mut seen: Vec<String> = Vec::new();
        seen.push(supervisor.identity.id.clone());
        proof {
            assert(views(seen@) =~= seq![supervisor.identity.id@]);
        }
        if !extend_distinct(&mut seen, &workers) {
            return Err(ConfigError::DuplicateAgent);
        }
        Ok(Supervised { supervisor, workers, max_delegations })
    }
}

/// Checks of a population: two to four agents, one to four rounds, no identifier twice among
/// the facilitator and the agents, and adaptive bounds with `1 <= min <= max <= agents`.
pub open spec fn population_check(
    agents: Seq<AgentConfig>,
    facilitator: Seq<char>,
    rounds: usize,
    participation: ParticipationPolicy,
) -> Result<(), ConfigError> {
    if !(2 <= agents.len() <= 4) {
        Err(ConfigError::PopulationSize)
    } else if !(1 <= rounds <= 4) {
        Err(ConfigError::PopulationRounds)
    } else if !(seq![facilitator] + ids(agents)).no_duplicates() {
        Err(ConfigError::DuplicatePopulationAgent)
    } else {
        match participation {
            ParticipationPolicy::Adaptive { min_agents, max_agents } => if min_agents == 0
                || min_agents > max_agents || max_agents > agents.len() {
                Err(ConfigError::AdaptiveBounds)
            } else {
                Ok(())
            },
            ParticipationPolicy::Fixed => Ok(()),
        }
    }
}

impl Population {
    pub fn new(
        agents: Vec<AgentConfig>,
        facilitator: AgentConfig,
        rounds: usize,
        participation: ParticipationPolicy,
    ) -> (r: Result<Self, ConfigError>)
        ensures
            r == match population_check(agents@, facilitator.identity.id@, rounds, participation) {
                Ok(_) => Ok(Population { agents, facilitator, rounds, participation }),
                Err(e) => Err::<Self, ConfigError>(e),
            },
    {
        if !(2 <= agents.len() && agents.len() <= 4) {
            return Err(ConfigError::PopulationSize);
        }
        if !(1 <= rounds && rounds <= 4) {
            return Err(ConfigError::PopulationRounds);
        }
        let mut seen: Vec<String> = Vec::new();
        seen.push(facilitator.identity.id.clone());
        proof {
            assert(views(seen@) =~= seq![facilitator.identity.id@]);
        }
        if !extend_distinct(&mut seen, &agents) {
            return Err(ConfigError::DuplicatePopulationAgent);
        }
        if let ParticipationPolicy::Adaptive { min_agents, max_agents } = participation {
            if min_agents == 0 || min_agents > max_agents || max_agents > agents.len() {
                return Err(ConfigError::AdaptiveBounds);
            }
        }
        Ok(Population { agents, facilitator, rounds, participation })
    }
}

impl MultiAgent {
    pub fn new(strategy: MultiAgentStrategy) -> (m: Self)
        ensures
            m == (MultiAgent { strategy }),
    {
        MultiAgent { strategy }
    }
}

/// The size limits that a run request puts on layered compositions: one to six layers of at
/// most eight agents.
pub open spec fn layer_bounds_ok(layers: Seq<AgentLayer>) -> bool {
    &&& 1 <= layers.len() <= 6
    &&& forall|i: int| 0 <= i < layers.len() ==> (#[trigger] layers[i]).agents@.len() <= 8
}

/// All the checks that an execution mode must pass.
pub open spec fn mode_check(mode: ExecutionMode) -> Result<(), ConfigError> {
    match mode {
        ExecutionMode::Single(_) => Ok(()),
        ExecutionMode::Mixture(m) => if !layer_bounds_ok(m.layers@) {
            Err(ConfigError::InvalidLayeredMoa)
        } else {
            layered_check(m.layers@, m.aggregation.agent.identity.id@, ConfigError::NoMixtureLayers)
        },
        ExecutionMode::MultiAgent(multi) => match multi.strategy {
            MultiAgentStrategy::LayeredMoa(c) => if !layer_bounds_ok(c.layers@) {
                Err(ConfigError::InvalidLayeredMoa)
            } else {
                layered_check(c.layers@, c.aggregation.agent.identity.id@, ConfigError::NoMoaLayers)
            },
            MultiAgentStrategy::Supervised(c) => supervised_check(
                c.supervisor.identity.id@,
                c.workers@,
                c.max_delegations,
            ),
            MultiAgentStrategy::Population(c) => population_check(
                c.agents@,
                c.facilitator.identity.id@,
                c.rounds,
                c.participation,
            ),
        },
    }
}

fn layer_bounds(layers: &Vec<AgentLayer>) -> (b: bool)
    ensures
        b == layer_bounds_ok(layers@),
{
    if layers.len() == 0 || layers.len() > 6 {
        return false;
    }
    let mut i: usize = 0;
    while i < layers.len()
        invariant
            i <= layers@.len(),
            forall|j: int| 0 <= j < i ==> (#[trigger] layers@[j]).agents@.len() <= 8,
        decreases layers@.len() - i,
    {
        if layers[i].agents.len() > 8 {
            return false;
        }
        i = i + 1;
    }
    true
}

impl ExecutionMode {
    /// Checks a mode again, as it is loaded or saved: the mode comes back unchanged when every
    /// check passes.
    pub fn validate(self) -> (r: Result<Self, ConfigError>)
        ensures
            match r {
                Ok(m) => mode_check(self) is Ok && m == self,
                Err(e) => mode_check(self) == Err::<(), ConfigError>(e),
            },
    {
        match self {
            ExecutionMode::Single(agent) => Ok(ExecutionMode::Single(agent)),
            ExecutionMode::Mixture(config) => {
                if !layer_bounds(&config.layers) {
                    return Err(ConfigError::InvalidLayeredMoa);
                }
                match Mixture::new(config.layers, config.aggregation) {
                    Ok(m) => Ok(ExecutionMode::Mixture(m)),
                    Err(e) => Err(e),
                }
            },
            ExecutionMode::MultiAgent(multi) => {
                let strategy = match multi.strategy {
                    MultiAgentStrategy::LayeredMoa(config) => {
                        if !layer_bounds(&config.layers) {
                            return Err(ConfigError::InvalidLayeredMoa);
                        }
                        match LayeredMoa::new(config.layers, config.aggregation) {
                            Ok(c) => MultiAgentStrategy::LayeredMoa(c),
                            Err(e) => {
                                return Err(e);
                            },
                        }
                    },
                    MultiAgentStrategy::Supervised(config) => {
                        match Supervised::new(config.supervisor, config.workers, config.max_delegations) {
                            Ok(c) => MultiAgentStrategy::Supervised(c),
                            Err(e) => {
                                return Err(e);
                            },
                        }
                    },
                    MultiAgentStrategy::Population(config) => {
                        match Population::new(
                            config.agents,
                            config.facilitator,
                            config.rounds,
                            config.participation,
                        ) {
                            Ok(c) => MultiAgentStrategy::Population(c),
                            Err(e) => {
                                return Err(e);
                            },
                        }
                    },
                };
                Ok(ExecutionMode::MultiAgent(MultiAgent::new(strategy)))
            },
        }
    }
}

/// The stages of a fixed plan: each layer in order, then the aggregator alone.
pub open spec fn layered_plan(layers: Seq<AgentLayer>, aggregator: AgentConfig) -> Seq<Seq<AgentConfig>> {
    layers.map_values(|l: AgentLayer| l.agents@).push(seq![aggregator])
}

/// The fixed plan of a mode, where it has one: a single agent runs alone; a layered
/// composition runs its layers then its aggregator. Supervised and population runs decide
/// their steps as they go and have no fixed plan.
pub open spec fn plan_of(mode: ExecutionMode) -> Result<Seq<Seq<AgentConfig>>, ConfigError> {
    match mode {
        ExecutionMode::Single(a) => Ok(seq![seq![a]]),
        ExecutionMode::Mixture(m) => Ok(layered_plan(m.layers@, m.aggregation.agent)),
        ExecutionMode::MultiAgent(multi) => match multi.strategy {
            MultiAgentStrategy::LayeredMoa(c) => Ok(layered_plan(c.layers@, c.aggregation.agent)),
            MultiAgentStrategy::Supervised(_) => Err(ConfigError::DynamicRuntime),
            MultiAgentStrategy::Population(_) => Err(ConfigError::DynamicPopulationRuntime),
        },
    }
}

/// Fixed execution plans.
pub struct Scheduler;

fn plan_layers<'a>(layers: &'a Vec<AgentLayer>, aggregator: &'a AgentConfig) -> (p: Vec<Vec<&'a AgentConfig>>)
    ensures
        p@.len() == layered_plan(layers@, *aggregator).len(),
        forall|i: int| 0 <= i < p@.len() ==> (#[trigger] p@[i])@.len() == layered_plan(layers@, *aggregator)[i].len(),
        forall|i: int, j: int|
            0 <= i < p@.len() && 0 <= j < p@[i]@.len() ==> *(#[trigger] p@[i]@[j]) == layered_plan(layers@, *aggregator)[i][j],
{
    let ghost plan = layered_plan(layers@, *aggregator);
    let mut out: Vec<Vec<&'a AgentConfig>> = Vec::new();
    let mut i: usize = 0;
    while i < layers.len()
        invariant
            i <= layers@.len(),
            plan == layered_plan(layers@, *aggregator),
            out@.len() == i,
            forall|k: int| 0 <= k < i ==> (#[trigger] out@[k])@.len() == plan[k].len(),
            forall|k: int, j: int| 0 <= k < i && 0 <= j < out@[k]@.len() ==> *(#[trigger] out@[k]@[j]) == plan[k][j],
        decreases layers@.len() - i,
    {
        let agents = &layers[i].agents;
        let mut stage: Vec<&'a AgentConfig> = Vec::new();
        let mut j: usize = 0;
        while j < agents.len()
            invariant
                j <= agents@.len(),
                stage@.len() == j,
                forall|m: int| 0 <= m < j ==> *(#[trigger] stage@[m]) == agents@[m],
            decreases agents@.len() - j,
        {
            stage.push(&agents[j]);
            j = j + 1;
        }
        proof {
            assert(plan[i as int] == agents@);
        }
        out.push(stage);
        i = i + 1;
    }
    let mut last: Vec<&'a AgentConfig> = Vec::new();
    last.push(aggregator);
    out.push(last);
    out
}

impl Scheduler {
    /// The stages of a run, each a list of agents, for the modes that have a fixed plan.
    pub fn plan(mode: &ExecutionMode) -> (r: Result<Vec<Vec<&AgentConfig>>, ConfigError>)
        ensures
            match plan_of(*mode) {
                Ok(plan) => r matches Ok(p) && p@.len() == plan.len() && (forall|i: int|
                    0 <= i < p@.len() ==> (#[trigger] p@[i])@.len() == plan[i].len()) && (forall|i: int, j: int|
                    0 <= i < p@.len() && 0 <= j < p@[i]@.len() ==> *(#[trigger] p@[i]@[j]) == plan[i][j]),
                Err(e) => r matches Err(f) && f == e,
            },
    {
        match mode {
            ExecutionMode::Single(agent) => {
                let mut stage: Vec<&AgentConfig> = Vec::new();
                stage.push(agent);
                let mut plan: Vec<Vec<&AgentConfig>> = Vec::new();
                plan.push(stage);
                Ok(plan)
            },
            ExecutionMode::Mixture(m) => Ok(plan_layers(&m.layers, &m.aggregation.agent)),
            ExecutionMode::MultiAgent(multi) => match &multi.strategy {
                MultiAgentStrategy::LayeredMoa(moa) => Ok(plan_layers(&moa.layers, &moa.aggregation.agent)),
                MultiAgentStrategy::Supervised(_) => Err(ConfigError::DynamicRuntime),
                MultiAgentStrategy::Population(_) => Err(ConfigError::DynamicPopulationRuntime),
            },
        }
    }
}

proof fn lemma_scan_distinct(layers: Seq<Seq<Seq<char>>>, seen: Seq<Seq<char>>)
    requires
        seen.no_duplicates(),
    ensures
        scan_layers(layers, seen) matches Ok(all) ==> all == seen + layers.flatten() && all.no_duplicates(),
    decreases layers.len(),
{
    if layers.len() == 0 {
        assert(seen + layers.flatten() =~= seen);
    } else if layers[0].len() > 0 && (seen + layers[0]).no_duplicates() {
        lemma_scan_distinct(layers.drop_first(), seen + layers[0]);
        assert(seen + layers[0] + layers.drop_first().flatten() =~= seen + layers.flatten());
    }
}

/// A layered composition that passes its checks uses every identifier once: across all
/// layers and the aggregator, no two agents share an identifier, and no layer is empty.
pub proof fn lemma_layered_identifiers_distinct(layers: Seq<Seq<Seq<char>>>, aggregator: Seq<char>, no_layers: ConfigError)
    requires
        layered_check_ids(layers, aggregator, no_layers) is Ok,
    ensures
        (layers.flatten().push(aggregator)).no_duplicates(),
        layers.len() >= 1,
        forall|i: int| 0 <= i < layers.len() ==> (#[trigger] layers[i]).len() >= 1,
{
    lemma_scan_distinct(layers, Seq::empty());
    assert(Seq::<Seq<char>>::empty() + layers.flatten() =~= layers.flatten());
    lemma_scan_nonempty(layers, Seq::empty());
}

proof fn lemma_scan_nonempty(layers: Seq<Seq<Seq<char>>>, seen: Seq<Seq<char>>)
    ensures
        scan_layers(layers, seen) is Ok ==> forall|i: int| 0 <= i < layers.len() ==> (#[trigger] layers[i]).len() >= 1,
    decreases layers.len(),
{
    if layers.len() > 0 {
        lemma_scan_nonempty(layers.drop_first(), seen + layers[0]);
        if scan_layers(layers, seen) is Ok {
            assert forall|i: int| 0 <= i < layers.len() implies (#[trigger] layers[i]).len() >= 1 by {
                if i > 0 {
                    assert(layers[i] == layers.drop_first()[i - 1]);
                }
            }
        }
    }
}

/// The identifiers of the agents of each stage of a plan.
pub open spec fn stage_ids(plan: Seq<Seq<AgentConfig>>) -> Seq<Seq<Seq<char>>> {
    plan.map_values(|stage: Seq<AgentConfig>| ids(stage))
}

proof fn lemma_layered_plan_ids(layers: Seq<AgentLayer>, aggregator: AgentConfig)
    ensures
        stage_ids(layered_plan(layers, aggregator)).flatten() == layer_ids(layers).flatten().push(aggregator.identity.id@),
{
    let p = layered_plan(layers, aggregator);
    assert(ids(seq![aggregator]) =~= seq![aggregator.identity.id@]);
    assert(stage_ids(p) =~= layer_ids(layers).push(seq![aggregator.identity.id@]));
    layer_ids(layers).lemma_flatten_push(seq![aggregator.identity.id@]);
    assert(layer_ids(layers).flatten() + seq![aggregator.identity.id@] =~= layer_ids(layers).flatten().push(
        aggregator.identity.id@,
    ));
}

/// A fixed plan of a valid mode runs every agent exactly once, in stages that are never
/// empty; a layered plan ends with the aggregator alone.
pub proof fn lemma_plan_runs_each_agent_once(mode: ExecutionMode)
    requires
        mode_check(mode) is Ok,
        plan_of(mode) is Ok,
    ensures
        stage_ids(plan_of(mode)->Ok_0).flatten().no_duplicates(),
        forall|i: int| 0 <= i < plan_of(mode)->Ok_0.len() ==> (#[trigger] plan_of(mode)->Ok_0[i]).len() >= 1,
{
    let plan = plan_of(mode)->Ok_0;
    match mode {
        ExecutionMode::Single(a) => {
            assert(ids(seq![a]) =~= seq![a.identity.id@]);
            assert(stage_ids(plan) =~= seq![seq![a.identity.id@]]);
            stage_ids(plan).lemma_flatten_singleton();
        },
        ExecutionMode::Mixture(m) => {
            lemma_layered_identifiers_distinct(layer_ids(m.layers@), m.aggregation.agent.identity.id@, ConfigError::NoMixtureLayers);
            lemma_layered_plan_ids(m.layers@, m.aggregation.agent);
            assert forall|i: int| 0 <= i < plan.len() implies (#[trigger] plan[i]).len() >= 1 by {
                if i < m.layers@.len() {
                    assert(layer_ids(m.layers@)[i].len() >= 1);
                }
            }
        },
        ExecutionMode::MultiAgent(multi) => {
            if let MultiAgentStrategy::LayeredMoa(c) = multi.strategy {
                lemma_layered_identifiers_distinct(layer_ids(c.layers@), c.aggregation.agent.identity.id@, ConfigError::NoMoaLayers);
                lemma_layered_plan_ids(c.layers@, c.aggregation.agent);
                assert forall|i: int| 0 <= i < plan.len() implies (#[trigger] plan[i]).len() >= 1 by {
                    if i < c.layers@.len() {
                        assert(layer_ids(c.layers@)[i].len() >= 1);
                    }
                }
            }
        },
    }
}

} // verus!
