//! The controller's view of its agents: who registered, how healthy each is, and which
//! health watch belongs to which agent.

use vstd::prelude::*;

verus! {

/// The name under which an agent registered.
#[derive(Debug, Clone)]
pub struct AgentId(pub String);

impl PartialEq for AgentId {
    fn eq(&self, other: &Self) -> (res: bool) {
        self.0 == other.0
    }
}

impl vstd::std_specs::cmp::PartialEqSpecImpl for AgentId {
    open spec fn obeys_eq_spec() -> bool {
        true
    }

    open spec fn eq_spec(&self, other: &AgentId) -> bool {
        self.0@ == other.0@
    }
}

impl AgentId {
    /// A copy of the id.
    pub fn duplicate(&self) -> (res: Self)
        ensures
            res.0@ == self.0@,
    {
        AgentId(self.0.clone())
    }
}

/// How an agent is doing.
#[derive(Debug, Clone, Copy, PartialEq, Eq, Structural)]
pub enum AgentStatus {
    Healthy,
    Unhealthy,
    Disconnected,
    Unknown,
    Offline,
}

/// The states that a gRPC health check reports.
#[derive(Debug, Clone, Copy, PartialEq, Eq, Structural)]
pub enum ServingStatus {
    Unknown,
    Serving,
    NotServing,
    ServiceUnknown,
}

/// The agent status that a health check state stands for.
pub open spec fn status_of_serving(s: ServingStatus) -> AgentStatus {
    match s {
        ServingStatus::Unknown => AgentStatus::Unknown,
        ServingStatus::Serving => AgentStatus::Healthy,
        ServingStatus::NotServing => AgentStatus::Disconnected,
        ServingStatus::ServiceUnknown => AgentStatus::Unhealthy,
    }
}

impl From<ServingStatus> for AgentStatus {
    fn from(value: ServingStatus) -> (res: Self) {
        match value {
            ServingStatus::Unknown => AgentStatus::Unknown,
            ServingStatus::Serving => AgentStatus::Healthy,
            ServingStatus::NotServing => AgentStatus::Disconnected,
            ServingStatus::ServiceUnknown => AgentStatus::Unhealthy,
        }
    }
}

impl vstd::std_specs::convert::FromSpecImpl<ServingStatus> for AgentStatus {
    open spec fn obeys_from_spec() -> bool {
        true
    }

    open spec fn from_spec(v: ServingStatus) -> Self {
        status_of_serving(v)
    }
}

/// What the controller knows of an agent; times are in ticks of the controller's clock.
#[derive(Debug, Clone, Copy, PartialEq, Eq, Structural)]
pub struct AgentInfo {
    pub cpu_cores: u32,
    pub memory_gb: u32,
    pub last_update: u64,
    pub status: AgentStatus,
    pub time_registered: u64,
}

/// What an agent tells the controller when it registers.
pub struct AgentRegistration {
    pub cpu_cores: u32,
    pub memory_gb: u32,
    pub status: AgentStatus,
    pub addr: String,
}

/// The information recorded for a registration at the time `now`.
pub open spec fn info_of(reg: AgentRegistration, now: u64) -> AgentInfo {
    AgentInfo {
        cpu_cores: reg.cpu_cores,
        memory_gb: reg.memory_gb,
        time_registered: now,
        last_update: now,
        status: reg.status,
    }
}

/// The record after a status change at the time `now`.
pub open spec fn with_status(info: AgentInfo, status: AgentStatus, now: u64) -> AgentInfo {
    AgentInfo { status, last_update: now, ..info }
}

/// A registration is recorded with the resources and status the agent reported, and
/// both its times set to the moment of registration; a status change sets the status and
/// the time of the last update and keeps the rest of the record.
pub proof fn lemma_agent_records(reg: AgentRegistration, info: AgentInfo, status: AgentStatus, now: u64)
    ensures
        info_of(reg, now).cpu_cores == reg.cpu_cores,
        info_of(reg, now).memory_gb == reg.memory_gb,
        info_of(reg, now).status == reg.status,
        info_of(reg, now).time_registered == now,
        info_of(reg, now).last_update == now,
        with_status(info, status, now).status == status,
        with_status(info, status, now).last_update == now,
        with_status(info, status, now).cpu_cores == info.cpu_cores,
        with_status(info, status, now).memory_gb == info.memory_gb,
        with_status(info, status, now).time_registered == info.time_registered,
{
}

/// Only a serving health check makes an agent healthy, and different health check
/// states stand for different agent statuses.
pub proof fn lemma_status_of_serving(a: ServingStatus, b: ServingStatus)
    ensures
        status_of_serving(a) == AgentStatus::Healthy <==> a == ServingStatus::Serving,
        status_of_serving(a) == status_of_serving(b) ==> a == b,
        status_of_serving(a) != AgentStatus::Offline,
{
}

/// No name occurs twice among the ids.
pub open spec fn ids_unique<T>(es: Seq<(AgentId, T)>) -> bool {
    forall|i: int, j: int| 0 <= i < es.len() && 0 <= j < es.len() && i != j ==> es[i].0.0@ != es[j].0.0@
}

/// The map from each name to what `es` holds for it (names are unique).
pub open spec fn id_map<T>(es: Seq<(AgentId, T)>) -> Map<Seq<char>, T> {
    Map::new(
        |k: Seq<char>| exists|i: int| 0 <= i < es.len() && (#[trigger] es[i]).0.0@ == k,
        |k: Seq<char>| es[choose|i: int| 0 <= i < es.len() && (#[trigger] es[i]).0.0@ == k].1,
    )
}

/// With unique names, the entry at `i` is what the map holds for its name.
proof fn lemma_id_map_at<T>(es: Seq<(AgentId, T)>, i: int)
    requires
        ids_unique(es),
        0 <= i < es.len(),
    ensures
        id_map(es).contains_key(es[i].0.0@),
        id_map(es)[es[i].0.0@] == es[i].1,
{
    let k = es[i].0.0@;
    assert(exists|j: int| 0 <= j < es.len() && (#[trigger] es[j]).0.0@ == k);
}

/// Replacing the value at `i` (keeping its name) replaces that name's value in the map.
proof fn lemma_id_map_update<T>(es: Seq<(AgentId, T)>, i: int, e: (AgentId, T))
    requires
        ids_unique(es),
        0 <= i < es.len(),
        e.0.0@ == es[i].0.0@,
    ensures
        ids_unique(es.update(i, e)),
        id_map(es.update(i, e)) == id_map(es).insert(e.0.0@, e.1),
{
    let es2 = es.update(i, e);
    assert forall|k: Seq<char>| #[trigger] id_map(es2).contains_key(k) == id_map(es).insert(e.0.0@, e.1).contains_key(k) by {
        if id_map(es).contains_key(k) {
            let j = choose|j: int| 0 <= j < es.len() && (#[trigger] es[j]).0.0@ == k;
            assert(es2[j].0.0@ == k);
        }
        if id_map(es2).contains_key(k) {
            let j = choose|j: int| 0 <= j < es2.len() && (#[trigger] es2[j]).0.0@ == k;
            assert(es[j].0.0@ == k);
        }
        if k == e.0.0@ {
            assert(es2[i].0.0@ == k);
        }
    }
    assert forall|k: Seq<char>| #[trigger] id_map(es2).contains_key(k) implies id_map(es2)[k] == id_map(es).insert(
        e.0.0@,
        e.1,
    )[k] by {
        let j = choose|j: int| 0 <= j < es2.len() && (#[trigger] es2[j]).0.0@ == k;
        lemma_id_map_at(es2, j);
        if k != e.0.0@ {
            lemma_id_map_at(es, j);
        }
    }
    assert(id_map(es2) =~= id_map(es).insert(e.0.0@, e.1));
}

/// Appending a value under a new name adds that name to the map.
proof fn lemma_id_map_push<T>(es: Seq<(AgentId, T)>, e: (AgentId, T))
    requires
        ids_unique(es),
        !id_map(es).contains_key(e.0.0@),
    ensures
        ids_unique(es.push(e)),
        id_map(es.push(e)) == id_map(es).insert(e.0.0@, e.1),
{
    let es2 = es.push(e);
    assert(ids_unique(es2)) by {
        assert forall|i: int, j: int| 0 <= i < es2.len() && 0 <= j < es2.len() && i != j implies es2[i].0.0@
            != es2[j].0.0@ by {
            if i < es.len() && j < es.len() {
                assert(es2[i] == es[i] && es2[j] == es[j]);
            } else if i < es.len() {
                assert(es2[i] == es[i]);
                lemma_id_map_at(es, i);
            } else if j < es.len() {
                assert(es2[j] == es[j]);
                lemma_id_map_at(es, j);
            }
        }
    }
    assert forall|k: Seq<char>| #[trigger] id_map(es2).contains_key(k) == id_map(es).insert(e.0.0@, e.1).contains_key(k) by {
        if id_map(es).contains_key(k) {
            let j = choose|j: int| 0 <= j < es.len() && (#[trigger] es[j]).0.0@ == k;
            assert(es2[j].0.0@ == k);
        }
        if id_map(es2).contains_key(k) {
            let j = choose|j: int| 0 <= j < es2.len() && (#[trigger] es2[j]).0.0@ == k;
            if j < es.len() {
                assert(es[j].0.0@ == k);
            }
        }
        if k == e.0.0@ {
            assert(es2[es.len() as int].0.0@ == k);
        }
    }
    assert forall|k: Seq<char>| #[trigger] id_map(es2).contains_key(k) implies id_map(es2)[k] == id_map(es).insert(
        e.0.0@,
        e.1,
    )[k] by {
        let j = choose|j: int| 0 <= j < es2.len() && (#[trigger] es2[j]).0.0@ == k;
        lemma_id_map_at(es2, j);
        if j < es.len() {
            assert(es2[j] == es[j]);
            lemma_id_map_at(es, j);
        }
    }
    assert(id_map(es2) =~= id_map(es).insert(e.0.0@, e.1));
}

/// Removing the entry at `i` removes its name from the map.
proof fn lemma_id_map_remove<T>(es: Seq<(AgentId, T)>, i: int)
    requires
        ids_unique(es),
        0 <= i < es.len(),
    ensures
        ids_unique(es.remove(i)),
        id_map(es.remove(i)) == id_map(es).remove(es[i].0.0@),
{
    let es2 = es.remove(i);
    let k0 = es[i].0.0@;
    assert(ids_unique(es2)) by {
        assert forall|a: int, b: int| 0 <= a < es2.len() && 0 <= b < es2.len() && a != b implies es2[a].0.0@
            != es2[b].0.0@ by {
            let a1 = if a < i { a } else { a + 1 };
            let b1 = if b < i { b } else { b + 1 };
            assert(es2[a] == es[a1] && es2[b] == es[b1]);
        }
    }
    assert forall|k: Seq<char>| #[trigger] id_map(es2).contains_key(k) == id_map(es).remove(k0).contains_key(k) by {
        if id_map(es).contains_key(k) && k != k0 {
            let j = choose|j: int| 0 <= j < es.len() && (#[trigger] es[j]).0.0@ == k;
            assert(j != i);
            let j2 = if j < i { j } else { j - 1 };
            assert(es2[j2] == es[j]);
        }
        if id_map(es2).contains_key(k) {
            let j = choose|j: int| 0 <= j < es2.len() && (#[trigger] es2[j]).0.0@ == k;
            let j1 = if j < i { j } else { j + 1 };
            assert(es[j1] == es2[j]);
            assert(j1 != i);
        }
    }
    assert forall|k: Seq<char>| #[trigger] id_map(es2).contains_key(k) implies id_map(es2)[k] == id_map(es).remove(
        k0,
    )[k] by {
        let j = choose|j: int| 0 <= j < es2.len() && (#[trigger] es2[j]).0.0@ == k;
        lemma_id_map_at(es2, j);
        let j1 = if j < i { j } else { j + 1 };
        assert(es[j1] == es2[j]);
        lemma_id_map_at(es, j1);
    }
    assert(id_map(es2) =~= id_map(es).remove(k0));
}

/// The position of the entry named like `id`, if any.
fn find_id<T>(es: &Vec<(AgentId, T)>, id: &AgentId) -> (res: Option<usize>)
    requires
        ids_unique(es@),
    ensures
        match res {
            Some(i) => i < es@.len() && es@[i as int].0.0@ == id.0@,
            None => !id_map(es@).contains_key(id.0@),
        },
{
    let n = es.len();
    let mut i: usize = 0;
    while i < n
        invariant
            n == es@.len(),
            i <= n,
            forall|j: int| 0 <= j < i ==> (#[trigger] es@[j]).0.0@ != id.0@,
        decreases n - i,
    {
        if es[i].0.0 == id.0 {
            return Some(i);
        }
        i = i + 1;
    }
    None
}

/// The agents that registered, by name.
pub struct AgentRepository {
    agents: Vec<(AgentId, AgentInfo)>,
}

impl View for AgentRepository {
    type V = Map<Seq<char>, AgentInfo>;

    closed spec fn view(&self) -> Map<Seq<char>, AgentInfo> {
        id_map(self.agents@)
    }
}

impl AgentRepository {
    #[verifier::type_invariant]
    closed spec fn inv(&self) -> bool {
        ids_unique(self.agents@)
    }

    /// No agent.
    pub fn new() -> (res: Self)
        ensures
            res@ == Map::<Seq<char>, AgentInfo>::empty(),
    {
        let res = Self { agents: Vec::new() };
        assert(res@ =~= Map::<Seq<char>, AgentInfo>::empty());
        res
    }

    /// The number of agents.
    pub fn len(&self) -> (res: usize)
        ensures
            res == self@.len(),
    {
        proof {
            use_type_invariant(self);
            lemma_id_map_len(self.agents@);
        }
        self.agents.len()
    }

    /// What is known of the agent `agent_id`, if it registered.
    pub fn get(&self, agent_id: &AgentId) -> (res: Option<AgentInfo>)
        ensures
            match res {
                Some(info) => self@.contains_key(agent_id.0@) && info == self@[agent_id.0@],
                None => !self@.contains_key(agent_id.0@),
            },
    {
        proof {
            use_type_invariant(self);
        }
        match find_id(&self.agents, agent_id) {
            Some(i) => {
                proof {
                    lemma_id_map_at(self.agents@, i as int);
                }
                Some(self.agents[i].1)
            },
            None => None,
        }
    }

    /// Records the registration of `agent_id` at the time `now`, replacing what was known
    /// of it: registered and last updated now, with the registration's status and resources.
    pub fn register(&mut self, agent_id: AgentId, info: AgentRegistration, now: u64)
        ensures
            final(self)@ == old(self)@.insert(agent_id.0@, info_of(info, now)),
    {
        proof {
            use_type_invariant(&*self);
        }
        let record = AgentInfo {
            cpu_cores: info.cpu_cores,
            memory_gb: info.memory_gb,
            time_registered: now,
            last_update: now,
            status: info.status,
        };
        let mut agents: Vec<(AgentId, AgentInfo)> = Vec::new();
        std::mem::swap(&mut agents, &mut self.agents);
        let ghost before = agents@;
        match find_id(&agents, &agent_id) {
            Some(i) => {
                proof {
                    lemma_id_map_update(before, i as int, (agent_id, record));
                }
                agents.set(i, (agent_id, record));
            },
            None => {
                proof {
                    lemma_id_map_push(before, (agent_id, record));
                }
                agents.push((agent_id, record));
            },
        }
        self.agents = agents;
    }

    /// Sets the status of `agent_id` at the time `now`, if it registered; otherwise changes
    /// nothing.
    pub fn set_status(&mut self, agent_id: &AgentId, status: AgentStatus, now: u64)
        ensures
            old(self)@.contains_key(agent_id.0@) ==> final(self)@ == old(self)@.insert(
                agent_id.0@,
                with_status(old(self)@[agent_id.0@], status, now),
            ),
            !old(self)@.contains_key(agent_id.0@) ==> final(self)@ == old(self)@,
    {
        proof {
            use_type_invariant(&*self);
        }
        match find_id(&self.agents, agent_id) {
            Some(i) => {
                let mut agents: Vec<(AgentId, AgentInfo)> = Vec::new();
                std::mem::swap(&mut agents, &mut self.agents);
                let ghost before = agents@;
                let (id, info) = clone_entry(&agents[i]);
                let updated = AgentInfo { status, last_update: now, ..info };
                proof {
                    lemma_id_map_at(before, i as int);
                    lemma_id_map_update(before, i as int, (id, updated));
                }
                agents.set(i, (id, updated));
                self.agents = agents;
            },
            None => {},
        }
    }
}

/// The number of names in a map of unique names is the number of entries.
proof fn lemma_id_map_len<T>(es: Seq<(AgentId, T)>)
    requires
        ids_unique(es),
    ensures
        id_map(es).len() == es.len(),
        id_map(es).dom().finite(),
    decreases es.len(),
{
    if es.len() == 0 {
        assert(id_map(es) =~= Map::<Seq<char>, T>::empty());
    } else {
        let i = es.len() - 1;
        lemma_id_map_remove(es, i);
        lemma_id_map_at(es, i);
        assert(es.remove(i) =~= es.drop_last());
        lemma_id_map_len(es.drop_last());
        assert(id_map(es).remove(es[i].0.0@).dom() =~= id_map(es).dom().remove(es[i].0.0@));
        assert(id_map(es).dom() =~= id_map(es.drop_last()).dom().insert(es[i].0.0@));
    }
}

/// A copy of an entry: the same name and record.
fn clone_entry(e: &(AgentId, AgentInfo)) -> (res: (AgentId, AgentInfo))
    ensures
        res.0.0@ == e.0.0@,
        res.1 == e.1,
{
    (e.0.duplicate(), e.1)
}

/// What the health watches report to the controller. The number in `Register` stands for
/// the watch's cancellation handle.
pub enum HealthReportEvent {
    StatusUpdate(AgentId, AgentStatus),
    Cancel(AgentId),
    Register(AgentId, u64),
}

/// The running health watches, each by the name of the agent it watches, as the number of
/// its cancellation handle.
pub struct HealthRegistry {
    watches: Vec<(AgentId, u64)>,
}

impl View for HealthRegistry {
    type V = Map<Seq<char>, u64>;

    closed spec fn view(&self) -> Map<Seq<char>, u64> {
        id_map(self.watches@)
    }
}

impl HealthRegistry {
    #[verifier::type_invariant]
    closed spec fn inv(&self) -> bool {
        ids_unique(self.watches@)
    }

    /// No watch.
    pub fn new() -> (res: Self)
        ensures
            res@ == Map::<Seq<char>, u64>::empty(),
    {
        let res = Self { watches: Vec::new() };
        assert(res@ =~= Map::<Seq<char>, u64>::empty());
        res
    }

    /// Records the watch `token` for `agent_id`; returns the watch it replaces.
    pub fn insert(&mut self, agent_id: AgentId, token: u64) -> (res: Option<u64>)
        ensures
            final(self)@ == old(self)@.insert(agent_id.0@, token),
            match res {
                Some(t) => old(self)@.contains_key(agent_id.0@) && t == old(self)@[agent_id.0@],
                None => !old(self)@.contains_key(agent_id.0@),
            },
    {
        proof {
            use_type_invariant(&*self);
        }
        let mut watches: Vec<(AgentId, u64)> = Vec::new();
        std::mem::swap(&mut watches, &mut self.watches);
        let ghost before = watches@;
        let res = match find_id(&watches, &agent_id) {
            Some(i) => {
                let prev = watches[i].1;
                proof {
                    lemma_id_map_at(before, i as int);
                    lemma_id_map_update(before, i as int, (agent_id, token));
                }
                watches.set(i, (agent_id, token));
                Some(prev)
            },
            None => {
                proof {
                    lemma_id_map_push(before, (agent_id, token));
                }
                watches.push((agent_id, token));
                None
            },
        };
        self.watches = watches;
        res
    }

    /// Forgets the watch of `agent_id`; returns it.
    pub fn remove(&mut self, agent_id: &AgentId) -> (res: Option<u64>)
        ensures
            final(self)@ == old(self)@.remove(agent_id.0@),
            match res {
                Some(t) => old(self)@.contains_key(agent_id.0@) && t == old(self)@[agent_id.0@],
                None => !old(self)@.contains_key(agent_id.0@),
            },
    {
        proof {
            use_type_invariant(&*self);
        }
        match find_id(&self.watches, agent_id) {
            Some(i) => {
                let mut watches: Vec<(AgentId, u64)> = Vec::new();
                std::mem::swap(&mut watches, &mut self.watches);
                let ghost before = watches@;
                proof {
                    lemma_id_map_at(before, i as int);
                    lemma_id_map_remove(before, i as int);
                }
                let (_, token) = watches.remove(i);
                self.watches = watches;
                Some(token)
            },
            None => {
                assert(old(self)@.remove(agent_id.0@) =~= old(self)@);
                None
            },
        }
    }

    /// Takes in one report at the time `now`, as the health service's consumer does; returns
    /// the watch to cancel, if any. A status update sets the agent's status. A cancellation
    /// forgets the agent's watch (which is to be cancelled) and marks the agent offline. A
    /// registration records the new watch; the one it replaces is to be cancelled.
    pub fn handle(&mut self, repository: &mut AgentRepository, event: HealthReportEvent, now: u64) -> (cancel: Option<
        u64,
    >)
        ensures
            match event {
                HealthReportEvent::StatusUpdate(id, status) => {
                    &&& final(self)@ == old(self)@
                    &&& cancel is None
                    &&& old(repository)@.contains_key(id.0@) ==> final(repository)@ == old(repository)@.insert(
                        id.0@,
                        with_status(old(repository)@[id.0@], status, now),
                    )
                    &&& !old(repository)@.contains_key(id.0@) ==> final(repository)@ == old(repository)@
                },
                HealthReportEvent::Cancel(id) => {
                    &&& final(self)@ == old(self)@.remove(id.0@)
                    &&& cancel == if old(self)@.contains_key(id.0@) {
                        Some(old(self)@[id.0@])
                    } else {
                        None
                    }
                    &&& old(repository)@.contains_key(id.0@) ==> final(repository)@ == old(repository)@.insert(
                        id.0@,
                        with_status(old(repository)@[id.0@], AgentStatus::Offline, now),
                    )
                    &&& !old(repository)@.contains_key(id.0@) ==> final(repository)@ == old(repository)@
                },
                HealthReportEvent::Register(id, token) => {
                    &&& final(self)@ == old(self)@.insert(id.0@, token)
                    &&& cancel == if old(self)@.contains_key(id.0@) {
                        Some(old(self)@[id.0@])
                    } else {
                        None
                    }
                    &&& final(repository)@ == old(repository)@
                },
            },
    {
        match event {
            HealthReportEvent::StatusUpdate(id, status) => {
                repository.set_status(&id, status, now);
                None
            },
            HealthReportEvent::Cancel(id) => {
                let token = self.remove(&id);
                repository.set_status(&id, AgentStatus::Offline, now);
                token
            },
            HealthReportEvent::Register(id, token) => self.insert(id, token),
        }
    }
}

/// Registers the agent `name`, reachable at `addr`, at the time `now`: as the registration
/// service does, it starts out healthy, with its resources not yet known (zero).
pub fn register_agent(repository: &mut AgentRepository, name: String, addr: String, now: u64) -> (id: AgentId)
    ensures
        id.0@ == name@,
        final(repository)@ == old(repository)@.insert(
            name@,
            AgentInfo { cpu_cores: 0, memory_gb: 0, last_update: now, status: AgentStatus::Healthy, time_registered: now },
        ),
{
    let id = AgentId(name);
    let registration = AgentRegistration { cpu_cores: 0, memory_gb: 0, status: AgentStatus::Healthy, addr };
    repository.register(id.duplicate(), registration, now);
    id
}

/// What a health watch receives from an agent's health stream.
#[derive(Debug, Clone, Copy, PartialEq, Eq, Structural)]
pub enum WatchMessage {
    /// A status message.
    Status(ServingStatus),
    /// The agent closed the stream.
    Closed,
    /// The stream failed.
    Failed,
}

/// What a health watch does next.
#[derive(Debug, Clone, Copy, PartialEq, Eq, Structural)]
pub enum WatchAction {
    /// Report this status of the agent, and keep watching.
    Report(AgentStatus),
    /// Stop watching, and report the watch's end.
    Stop,
}

/// A health watch reports each status it receives, and stops when the stream ends or fails.
pub fn watch_step(message: WatchMessage) -> (res: WatchAction)
    ensures
        match message {
            WatchMessage::Status(s) => res == WatchAction::Report(status_of_serving(s)),
            _ => res == WatchAction::Stop,
        },
{
    match message {
        WatchMessage::Status(s) => WatchAction::Report(AgentStatus::from(s)),
        _ => WatchAction::Stop,
    }
}

} // verus!
