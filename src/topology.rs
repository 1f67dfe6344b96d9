use vstd::prelude::*;

use crate::estimate::{busy_fraction, counter_delta, utilization_from_idle};
use crate::policy::{classify, load_level, Aggregate, LoadLevel, ThresholdPolicy};

verus! {

/// One schedulable logical CPU as the controller sees it.
#[derive(Debug, Clone, PartialEq, Eq)]
pub struct LogicalCpu {
    pub id: usize,
    pub core_id: Option<usize>,
    pub socket_id: Option<usize>,
    /// Ids of the CPUs that share this CPU's physical core, itself included,
    /// in ascending order.
    pub siblings: Vec<usize>,
    /// Names of the idle states whose residency counters are summed.
    pub idle_states: Vec<String>,
    pub online: bool,
    /// Last computed utilization, in hundredths of a percent (0 to 10000).
    pub utilization: u32,
    /// Cumulative idle time seen at the last sample, in microseconds.
    pub last_idle_total: u64,
}

/// What happened when the online control of one CPU was written.
#[derive(PartialEq, Eq, Structural, Debug, Clone, Copy)]
pub enum WriteOutcome {
    /// The new state was written.
    Written,
    /// The CPU exposes no online control: it is always online.
    NoControl,
    /// The control exists but the write was rejected.
    Failed,
}

/// How one requested transition was recorded in the model.
#[derive(PartialEq, Eq, Structural, Debug, Clone, Copy)]
pub enum TransitionStatus {
    Applied,
    SkippedBootCpu,
    NotControllable,
    WriteFailed,
    UnknownCpu,
}

/// One successful read of a CPU's cumulative idle time, in microseconds. A
/// CPU whose read failed has no sample in its cycle.
#[derive(PartialEq, Eq, Structural, Debug, Clone, Copy)]
pub struct IdleSample {
    pub cpu: usize,
    pub idle_total: u64,
}

/// Why a cycle produced no load figure.
#[derive(PartialEq, Eq, Structural, Debug, Clone, Copy)]
pub enum SampleError {
    /// No time has passed since the previous cycle.
    NoElapsedTime,
}

/// Why a cycle changes nothing.
#[derive(PartialEq, Eq, Structural, Debug, Clone, Copy)]
pub enum NoActionReason {
    /// The cycle had no elapsed time to measure against.
    NoElapsedTime,
    /// No online CPU contributed a sample.
    NoSamples,
    /// Load is high but every CPU is already online.
    AtMaximum,
    /// Load is low but no further group may go offline.
    AtMinimum,
    /// Load lies between the thresholds.
    Optimal,
}

/// What one decision cycle asks for.
#[derive(Debug, Clone, PartialEq, Eq)]
pub enum Decision {
    OnlineGroup(Vec<usize>),
    OfflineGroup(Vec<usize>),
    NoAction(NoActionReason),
}

/// The first sample for `cpu` in `samples`.
pub open spec fn sample_for(samples: Seq<IdleSample>, cpu: usize) -> Option<u64>
    decreases samples.len(),
{
    if samples.len() == 0 {
        None
    } else if samples[0].cpu == cpu {
        Some(samples[0].idle_total)
    } else {
        sample_for(samples.subrange(1, samples.len() as int), cpu)
    }
}

/// The CPU takes part in a cycle with these samples.
pub open spec fn is_fresh(c: LogicalCpu, samples: Seq<IdleSample>) -> bool {
    c.online && sample_for(samples, c.id) is Some
}

/// The CPU after a cycle of `elapsed` microseconds: an online CPU with a
/// sample moves its idle baseline to the sample and takes the utilization
/// of the interval; any other CPU keeps its last values.
pub open spec fn refreshed(c: LogicalCpu, samples: Seq<IdleSample>, elapsed: u64) -> LogicalCpu {
    if is_fresh(c, samples) {
        let t = sample_for(samples, c.id)->0;
        let delta = if t >= c.last_idle_total { t - c.last_idle_total } else { 0 };
        LogicalCpu {
            last_idle_total: t,
            utilization: busy_fraction(delta, elapsed as int) as u32,
            ..c
        }
    } else {
        c
    }
}

/// The load of a cycle over the CPUs `cpus`, as they were before it.
pub open spec fn cycle_load(cpus: Seq<LogicalCpu>, samples: Seq<IdleSample>, elapsed: u64) -> (
    int,
    int,
)
    decreases cpus.len(),
{
    if cpus.len() == 0 {
        (0, 0)
    } else {
        let (total, n) = cycle_load(cpus.drop_last(), samples, elapsed);
        if is_fresh(cpus.last(), samples) {
            (total + refreshed(cpus.last(), samples, elapsed).utilization, n + 1)
        } else {
            (total, n)
        }
    }
}

/// Time between the previous cycle and `now`, zero when the clock did not
/// advance.
pub open spec fn elapsed_since(last: u64, now: u64) -> u64 {
    if now > last {
        (now - last) as u64
    } else {
        0
    }
}

/// `d` is what the decision rule gives for model `t` under `load`.
pub open spec fn decision_fits(t: TopologyView, load: Aggregate, policy: ThresholdPolicy, d: Decision) -> bool {
    match d {
        Decision::OnlineGroup(g) => load_level(load, policy) == LoadLevel::High
            && t.online_selection() == Some(g@),
        Decision::OfflineGroup(g) => load_level(load, policy) == LoadLevel::Low
            && t.offline_selection() == Some(g@),
        Decision::NoAction(why) => match why {
            NoActionReason::NoSamples => load_level(load, policy) == LoadLevel::Unknown,
            NoActionReason::AtMaximum => load_level(load, policy) == LoadLevel::High
                && t.online_selection() is None,
            NoActionReason::AtMinimum => load_level(load, policy) == LoadLevel::Low
                && t.offline_selection() is None,
            NoActionReason::Optimal => load_level(load, policy) == LoadLevel::Normal,
            NoActionReason::NoElapsedTime => false,
        },
    }
}

/// How many CPUs of one socket there are, and how many of them are online.
#[derive(PartialEq, Eq, Structural, Debug, Clone, Copy)]
pub struct SocketSummary {
    /// The socket; CPUs that report none form a group of their own.
    pub socket_id: Option<usize>,
    pub cpus: usize,
    pub online: usize,
}

/// Number of CPUs on socket `key`; with `only_online`, of online ones.
pub open spec fn socket_count(cpus: Seq<LogicalCpu>, key: Option<usize>, only_online: bool) -> nat
    decreases cpus.len(),
{
    if cpus.len() == 0 {
        0
    } else {
        socket_count(cpus.drop_last(), key, only_online) + if cpus.last().socket_id == key && (
        !only_online || cpus.last().online) {
            1nat
        } else {
            0nat
        }
    }
}

/// Some entry of the summary is for socket `key`.
pub open spec fn summarized(r: Seq<SocketSummary>, key: Option<usize>) -> bool {
    exists|i: int| 0 <= i < r.len() && r[i].socket_id == key
}

proof fn lemma_socket_count_bounds(cpus: Seq<LogicalCpu>, key: Option<usize>, only_online: bool)
    ensures
        socket_count(cpus, key, only_online) <= cpus.len(),
        socket_count(cpus, key, true) <= socket_count(cpus, key, false),
        (forall|m: int| 0 <= m < cpus.len() ==> cpus[m].socket_id != key) ==> socket_count(
            cpus,
            key,
            only_online,
        ) == 0,
    decreases cpus.len(),
{
    if cpus.len() > 0 {
        lemma_socket_count_bounds(cpus.drop_last(), key, only_online);
        lemma_socket_count_bounds(cpus.drop_last(), key, true);
        if forall|m: int| 0 <= m < cpus.len() ==> cpus[m].socket_id != key {
            assert(cpus.last() == cpus[cpus.len() - 1]);
        }
    }
}

/// The authoritative model of all logical CPUs.
pub struct Topology {
    cpus: Vec<LogicalCpu>,
    boot_cpu: usize,
    last_update_micros: u64,
}

/// The mathematical value of a `Topology`.
pub struct TopologyView {
    /// The CPUs, by strictly ascending id.
    pub cpus: Seq<LogicalCpu>,
    pub boot: usize,
    /// Timestamp of the last sampling cycle, in microseconds.
    pub last_update: u64,
}

impl View for Topology {
    type V = TopologyView;

    closed spec fn view(&self) -> TopologyView {
        TopologyView { cpus: self.cpus@, boot: self.boot_cpu, last_update: self.last_update_micros }
    }
}

pub open spec fn with_online(c: LogicalCpu, online: bool) -> LogicalCpu {
    LogicalCpu { online: online, ..c }
}

impl TopologyView {
    pub open spec fn len(self) -> int {
        self.cpus.len() as int
    }

    pub open spec fn has_id(self, id: usize) -> bool {
        exists|k: int| 0 <= k < self.len() && self.cpus[k].id == id
    }

    /// The CPU with this id exists and is in the given online state.
    pub open spec fn id_in_state(self, id: usize, online: bool) -> bool {
        exists|k: int| 0 <= k < self.len() && self.cpus[k].id == id && self.cpus[k].online == online
    }

    pub open spec fn ids_ascending(self) -> bool {
        forall|i: int, j: int| 0 <= i < j < self.len() ==> self.cpus[i].id < self.cpus[j].id
    }

    /// Every sibling list is ascending, holds the CPU itself and known ids
    /// only, and the sibling relation is symmetric.
    pub open spec fn siblings_consistent(self) -> bool {
        &&& forall|k: int| 0 <= k < self.len() ==> #[trigger] self.cpus[k].siblings@.contains(self.cpus[k].id)
        &&& forall|k: int, a: int, b: int|
            0 <= k < self.len() && 0 <= a < b < self.cpus[k].siblings@.len()
                ==> #[trigger] self.cpus[k].siblings@[a] < #[trigger] self.cpus[k].siblings@[b]
        &&& forall|k: int, a: int|
            0 <= k < self.len() && 0 <= a < self.cpus[k].siblings@.len()
                ==> self.has_id(#[trigger] self.cpus[k].siblings@[a])
        &&& forall|i: int, j: int|
            0 <= i < self.len() && 0 <= j < self.len()
                && #[trigger] self.cpus[i].siblings@.contains(self.cpus[j].id)
                ==> #[trigger] self.cpus[j].siblings@.contains(self.cpus[i].id)
    }

    /// The invariant of every reachable state: at least one CPU, ids strictly
    /// ascending, the boot CPU is the first one and is online, sibling lists
    /// are consistent and utilizations are percentages.
    pub open spec fn valid(self) -> bool {
        &&& self.len() > 0
        &&& self.ids_ascending()
        &&& self.cpus[0].id == self.boot
        &&& self.cpus[0].online
        &&& self.siblings_consistent()
        &&& forall|k: int| 0 <= k < self.len() ==> #[trigger] self.cpus[k].utilization <= 10000
    }

    /// CPU at index `k` may be taken offline: online and not the boot CPU.
    pub open spec fn offline_candidate(self, k: int) -> bool {
        self.cpus[k].online && self.cpus[k].id != self.boot
    }

    pub open spec fn two_offline_candidates(self) -> bool {
        exists|i: int, j: int|
            0 <= i < j < self.len() && self.offline_candidate(i) && self.offline_candidate(j)
    }

    /// `k` is the offline candidate with the highest id.
    pub open spec fn highest_offline_candidate(self, k: int) -> bool {
        &&& 0 <= k < self.len()
        &&& self.offline_candidate(k)
        &&& forall|j: int| k < j < self.len() ==> !self.offline_candidate(j)
    }

    /// CPU at index `k` may be brought online: offline and not the boot CPU.
    pub open spec fn online_candidate(self, k: int) -> bool {
        !self.cpus[k].online && self.cpus[k].id != self.boot
    }

    /// `k` is the online candidate with the lowest id.
    pub open spec fn lowest_online_candidate(self, k: int) -> bool {
        &&& 0 <= k < self.len()
        &&& self.online_candidate(k)
        &&& forall|j: int| 0 <= j < k ==> !self.online_candidate(j)
    }

    /// The members of `ids` that are known CPUs in the given state, in order.
    pub open spec fn members_in_state(self, ids: Seq<usize>, online: bool) -> Seq<usize> {
        ids.filter(|x: usize| self.id_in_state(x, online))
    }

    /// The group that `select_group_to_offline` returns.
    pub open spec fn offline_selection(self) -> Option<Seq<usize>> {
        if self.two_offline_candidates() {
            let k = choose|k: int| self.highest_offline_candidate(k);
            Some(self.members_in_state(self.cpus[k].siblings@, true))
        } else {
            None
        }
    }

    /// The group that `select_group_to_online` returns.
    pub open spec fn online_selection(self) -> Option<Seq<usize>> {
        if exists|k: int| 0 <= k < self.len() && self.online_candidate(k) {
            let k = choose|k: int| self.lowest_online_candidate(k);
            Some(self.members_in_state(self.cpus[k].siblings@, false))
        } else {
            None
        }
    }

    /// The model after one write of `target` to the online control of `id`:
    /// only a successful write to a CPU other than the boot CPU changes it.
    pub open spec fn after_write(self, id: usize, target: bool, outcome: WriteOutcome) -> TopologyView {
        if id != self.boot && outcome is Written {
            TopologyView {
                cpus: self.cpus.map_values(
                    |c: LogicalCpu| if c.id == id { with_online(c, target) } else { c },
                ),
                ..self
            }
        } else {
            self
        }
    }

    /// The status that recording such a write reports.
    pub open spec fn write_status(self, id: usize, outcome: WriteOutcome) -> TransitionStatus {
        if id == self.boot {
            TransitionStatus::SkippedBootCpu
        } else {
            match outcome {
                WriteOutcome::Written => if self.has_id(id) {
                    TransitionStatus::Applied
                } else {
                    TransitionStatus::UnknownCpu
                },
                WriteOutcome::NoControl => TransitionStatus::NotControllable,
                WriteOutcome::Failed => TransitionStatus::WriteFailed,
            }
        }
    }
}

/// The online states after a sequence of writes of `target`, one per entry of
/// `results`, each with its outcome.
pub open spec fn after_writes(
    t: TopologyView,
    target: bool,
    results: Seq<(usize, WriteOutcome)>,
) -> TopologyView
    decreases results.len(),
{
    if results.len() == 0 {
        t
    } else {
        after_writes(t, target, results.drop_last()).after_write(
            results.last().0,
            target,
            results.last().1,
        )
    }
}

/// Some entry of `results` records a successful write to `id`.
pub open spec fn written(results: Seq<(usize, WriteOutcome)>, id: usize) -> bool {
    exists|j: int| 0 <= j < results.len() && results[j].0 == id && results[j].1 is Written
}

/// Number of online CPUs.
pub open spec fn online_count(cpus: Seq<LogicalCpu>) -> nat
    decreases cpus.len(),
{
    if cpus.len() == 0 {
        0
    } else {
        online_count(cpus.drop_last()) + if cpus.last().online {
            1nat
        } else {
            0nat
        }
    }
}

proof fn lemma_unique_index(t: TopologyView, k: int, j: int)
    requires
        t.ids_ascending(),
        0 <= k < t.len(),
        0 <= j < t.len(),
        t.cpus[k].id == t.cpus[j].id,
    ensures
        k == j,
{
    if j < k {
        assert(t.cpus[j].id < t.cpus[k].id);
    } else if k < j {
        assert(t.cpus[k].id < t.cpus[j].id);
    }
}

/// Changes that keep ids, sibling lists and online flags, and keep
/// utilizations in range, keep a model valid.
proof fn lemma_same_shape_valid(pre: TopologyView, post: TopologyView)
    requires
        pre.valid(),
        post.len() == pre.len(),
        post.boot == pre.boot,
        forall|j: int|
            0 <= j < pre.len() ==> (#[trigger] post.cpus[j]).id == pre.cpus[j].id
                && post.cpus[j].siblings == pre.cpus[j].siblings && post.cpus[j].online
                == pre.cpus[j].online && post.cpus[j].utilization <= 10000,
    ensures
        post.valid(),
{
    assert forall|x: usize| #[trigger] post.has_id(x) <==> pre.has_id(x) by {
        if pre.has_id(x) {
            let m = choose|m: int| 0 <= m < pre.len() && pre.cpus[m].id == x;
            assert(post.cpus[m].id == x);
        }
        if post.has_id(x) {
            let m = choose|m: int| 0 <= m < post.len() && post.cpus[m].id == x;
            assert(pre.cpus[m].id == x);
        }
    }
    assert(post.cpus[0].id == pre.cpus[0].id);
}

/// A write changes nothing but the online flag of the CPU written, and
/// keeps the model valid.
pub proof fn lemma_after_write_valid(t: TopologyView, id: usize, target: bool, outcome: WriteOutcome)
    requires
        t.valid(),
    ensures
        t.after_write(id, target, outcome).valid(),
        t.after_write(id, target, outcome).len() == t.len(),
        t.after_write(id, target, outcome).boot == t.boot,
        forall|k: int|
            0 <= k < t.len() ==> #[trigger] t.after_write(id, target, outcome).cpus[k] == if id
                != t.boot && outcome is Written && t.cpus[k].id == id {
                with_online(t.cpus[k], target)
            } else {
                t.cpus[k]
            },
{
    let a = t.after_write(id, target, outcome);
    if id != t.boot && outcome is Written {
        assert forall|k: int| 0 <= k < t.len() implies #[trigger] a.cpus[k].id == t.cpus[k].id
            && a.cpus[k].siblings == t.cpus[k].siblings && a.cpus[k].utilization
            == t.cpus[k].utilization by {}
        assert forall|x: usize| #[trigger] a.has_id(x) <==> t.has_id(x) by {
            if t.has_id(x) {
                let m = choose|m: int| 0 <= m < t.len() && t.cpus[m].id == x;
                assert(a.cpus[m].id == x);
            }
            if a.has_id(x) {
                let m = choose|m: int| 0 <= m < a.len() && a.cpus[m].id == x;
                assert(t.cpus[m].id == x);
            }
        }
        assert(a.cpus[0].online);
    }
}

/// The boot CPU is online in every state that a valid model reaches through
/// recorded writes, whatever was written and whatever came of it.
pub proof fn lemma_boot_cpu_stays_online(
    t: TopologyView,
    target: bool,
    results: Seq<(usize, WriteOutcome)>,
)
    requires
        t.valid(),
    ensures
        after_writes(t, target, results).valid(),
        after_writes(t, target, results).boot == t.boot,
        after_writes(t, target, results).id_in_state(t.boot, true),
    decreases results.len(),
{
    if results.len() > 0 {
        lemma_boot_cpu_stays_online(t, target, results.drop_last());
        lemma_after_write_valid(
            after_writes(t, target, results.drop_last()),
            results.last().0,
            target,
            results.last().1,
        );
    }
    let a = after_writes(t, target, results);
    assert(a.cpus[0].id == t.boot && a.cpus[0].online);
}

/// A transition moves exactly the CPUs written successfully: each of them
/// other than the boot CPU ends in the target state, and every other CPU
/// keeps its state. Ids, sibling lists and samples never change.
pub proof fn lemma_transition_moves_exactly_written(
    t: TopologyView,
    target: bool,
    results: Seq<(usize, WriteOutcome)>,
)
    requires
        t.valid(),
    ensures
        after_writes(t, target, results).len() == t.len(),
        forall|k: int|
            0 <= k < t.len() ==> {
                let c = #[trigger] after_writes(t, target, results).cpus[k];
                &&& c.online == if t.cpus[k].id != t.boot && written(results, t.cpus[k].id) {
                    target
                } else {
                    t.cpus[k].online
                }
                &&& c == with_online(t.cpus[k], c.online)
            },
    decreases results.len(),
{
    if results.len() > 0 {
        let prev = results.drop_last();
        lemma_transition_moves_exactly_written(t, target, prev);
        lemma_boot_cpu_stays_online(t, target, prev);
        let p = after_writes(t, target, prev);
        lemma_after_write_valid(p, results.last().0, target, results.last().1);
        assert forall|k: int| 0 <= k < t.len() implies {
            let c = #[trigger] after_writes(t, target, results).cpus[k];
            &&& c.online == if t.cpus[k].id != t.boot && written(results, t.cpus[k].id) {
                target
            } else {
                t.cpus[k].online
            }
            &&& c == with_online(t.cpus[k], c.online)
        } by {
            let id = t.cpus[k].id;
            assert(p.cpus[k].id == id);
            if written(results, id) && !written(prev, id) {
                let j = choose|j: int|
                    0 <= j < results.len() && results[j].0 == id && results[j].1 is Written;
                if j < prev.len() {
                    assert(prev[j] == results[j]);
                }
            }
            if written(prev, id) {
                let j = choose|j: int|
                    0 <= j < prev.len() && prev[j].0 == id && prev[j].1 is Written;
                assert(results[j] == prev[j]);
            }
        }
    }
}

proof fn lemma_online_count_monotone(a: Seq<LogicalCpu>, b: Seq<LogicalCpu>)
    requires
        a.len() == b.len(),
        forall|k: int| 0 <= k < a.len() && (#[trigger] a[k]).online ==> b[k].online,
    ensures
        online_count(a) <= online_count(b),
    decreases a.len(),
{
    if a.len() > 0 {
        lemma_online_count_monotone(a.drop_last(), b.drop_last());
    }
}

/// Offlining is monotone: recording offline writes after a selection never
/// raises the number of online CPUs, and the next selection holds only CPUs
/// that are still online, so never a CPU whose offlining succeeded.
pub proof fn lemma_offline_selection_monotone(t: TopologyView, results: Seq<(usize, WriteOutcome)>)
    requires
        t.valid(),
    ensures
        online_count(after_writes(t, false, results).cpus) <= online_count(t.cpus),
        after_writes(t, false, results).offline_selection() matches Some(g2) ==> forall|x: usize|
            #[trigger] g2.contains(x) ==> after_writes(t, false, results).id_in_state(x, true) && !(
            x != t.boot && written(results, x)),
{
    broadcast use vstd::seq_lib::group_filter_ensures;

    let a = after_writes(t, false, results);
    lemma_transition_moves_exactly_written(t, false, results);
    lemma_boot_cpu_stays_online(t, false, results);
    assert forall|k: int| 0 <= k < a.len() && (#[trigger] a.cpus[k]).online implies t.cpus[k].online by {}
    lemma_online_count_monotone(a.cpus, t.cpus);
    if let Some(g2) = a.offline_selection() {
        let k = choose|k: int| a.highest_offline_candidate(k);
        let pred = |x: usize| a.id_in_state(x, true);
        assert forall|x: usize| #[trigger] g2.contains(x) implies a.id_in_state(x, true) && !(x
            != t.boot && written(results, x)) by {
            let i = choose|i: int| 0 <= i < g2.len() && g2[i] == x;
            assert(pred(a.cpus[k].siblings@.filter(pred)[i]));
            let m = choose|m: int| 0 <= m < a.len() && a.cpus[m].id == x && a.cpus[m].online;
            assert(t.cpus[m].id == x);
        }
    }
}

impl Topology {
    pub open spec fn wf(&self) -> bool {
        self@.valid()
    }

    /// Assembles a model from CPUs that already satisfy its invariant.
    pub(crate) fn from_parts(cpus: Vec<LogicalCpu>, now_micros: u64) -> (r: Topology)
        requires
            cpus@.len() > 0,
            (TopologyView { cpus: cpus@, boot: cpus@[0].id, last_update: now_micros }).valid(),
        ensures
            r@ == (TopologyView { cpus: cpus@, boot: cpus@[0].id, last_update: now_micros }),
            r.wf(),
    {
        let boot_cpu = cpus[0].id;
        Topology { cpus, boot_cpu, last_update_micros: now_micros }
    }

    /// Index of the CPU with this id.
    fn find_index(&self, id: usize) -> (r: Option<usize>)
        requires
            self.wf(),
        ensures
            match r {
                Some(k) => k < self@.len() && self@.cpus[k as int].id == id,
                None => !self@.has_id(id),
            },
    {
        let n = self.cpus.len();
        let mut i: usize = 0;
        while i < n
            invariant
                n == self@.len(),
                i <= n,
                self.cpus@ == self@.cpus,
                forall|j: int| 0 <= j < i ==> self@.cpus[j].id != id,
            decreases n - i,
        {
            if self.cpus[i].id == id {
                return Some(i);
            }
            i += 1;
        }
        None
    }

    /// The online state of the CPU with this id, if it exists.
    pub fn online_state(&self, id: usize) -> (r: Option<bool>)
        requires
            self.wf(),
        ensures
            r == Some(true) <==> self@.id_in_state(id, true),
            r == Some(false) <==> self@.id_in_state(id, false),
            r is None <==> !self@.has_id(id),
    {
        match self.find_index(id) {
            Some(k) => {
                let b = self.cpus[k].online;
                proof {
                    assert forall|j: int| 0 <= j < self@.len() && self@.cpus[j].id == id implies j
                        == k by {
                        if j < k {
                            assert(self@.cpus[j].id < self@.cpus[k as int].id);
                        } else if j > k {
                            assert(self@.cpus[k as int].id < self@.cpus[j].id);
                        }
                    }
                }
                Some(b)
            },
            None => None,
        }
    }

    /// The members of `ids` that are known CPUs in the given state, in order.
    fn members_in_state(&self, ids: &Vec<usize>, online: bool) -> (r: Vec<usize>)
        requires
            self.wf(),
        ensures
            r@ == self@.members_in_state(ids@, online),
    {
        let ghost pred = |x: usize| self@.id_in_state(x, online);
        let mut r: Vec<usize> = Vec::new();
        let mut i: usize = 0;
        while i < ids.len()
            invariant
                self.wf(),
                i <= ids@.len(),
                pred == (|x: usize| self@.id_in_state(x, online)),
                r@ == ids@.subrange(0, i as int).filter(pred),
            decreases ids@.len() - i,
        {
            let x = ids[i];
            let st = self.online_state(x);
            let ghost next = ids@.subrange(0, i + 1);
            proof {
                assert(next.drop_last() =~= ids@.subrange(0, i as int));
                assert(next.last() == x);
                assert(pred(x) == (st == Some(online)));
            }
            if st == Some(online) {
                r.push(x);
            }
            proof {
                reveal(Seq::filter);
                assert(next.filter(pred) == if pred(next.last()) {
                    next.drop_last().filter(pred).push(next.last())
                } else {
                    next.drop_last().filter(pred)
                });
            }
            i += 1;
        }
        proof {
            assert(ids@.subrange(0, ids@.len() as int) =~= ids@);
        }
        r
    }

    /// Chooses the sibling group to take offline when load is low: the online
    /// siblings of the online non-boot CPU with the highest id, or nothing
    /// when at most one online non-boot CPU is left.
    pub fn select_group_to_offline(&self) -> (r: Option<Vec<usize>>)
        requires
            self.wf(),
        ensures
            match r {
                None => !self@.two_offline_candidates(),
                Some(g) => self@.two_offline_candidates() && exists|k: int|
                    self@.highest_offline_candidate(k) && g@ == self@.members_in_state(
                        self@.cpus[k].siblings@,
                        true,
                    ),
            },
            r matches Some(g) ==> self@.offline_selection() == Some(g@),
            r is None ==> self@.offline_selection() is None,
    {
        let n = self.cpus.len();
        let mut i: usize = n;
        let mut found: Option<usize> = None;
        while i > 0
            invariant
                self.wf(),
                n == self@.len(),
                i <= n,
                self.cpus@ == self@.cpus,
                found is None ==> forall|j: int| i <= j < n ==> !self@.offline_candidate(j),
                found matches Some(k) ==> {
                    &&& i <= k < n
                    &&& self@.highest_offline_candidate(k as int)
                    &&& forall|j: int| i <= j < k ==> !self@.offline_candidate(j)
                },
            decreases i,
        {
            i -= 1;
            if self.cpus[i].online && self.cpus[i].id != self.boot_cpu {
                match found {
                    None => {
                        found = Some(i);
                    },
                    Some(k) => {
                        let g = self.members_in_state(&self.cpus[k].siblings, true);
                        proof {
                            assert(self@.offline_candidate(i as int));
                            assert(self@.two_offline_candidates());
                            let c = choose|c: int| self@.highest_offline_candidate(c);
                            assert(c == k);
                        }
                        return Some(g);
                    },
                }
            }
        }
        proof {
            assert forall|a: int, b: int|
                0 <= a < b < n && self@.offline_candidate(a) implies !self@.offline_candidate(b) by {
                if let Some(k) = found {
                    if self@.offline_candidate(b) {
                        assert(b == k);
                    }
                }
            }
        }
        None
    }

    /// Chooses the sibling group to bring online when load is high: the
    /// offline siblings of the offline non-boot CPU with the lowest id, or
    /// nothing when every CPU is online.
    pub fn select_group_to_online(&self) -> (r: Option<Vec<usize>>)
        requires
            self.wf(),
        ensures
            match r {
                None => forall|k: int| 0 <= k < self@.len() ==> !self@.online_candidate(k),
                Some(g) => exists|k: int|
                    self@.lowest_online_candidate(k) && g@ == self@.members_in_state(
                        self@.cpus[k].siblings@,
                        false,
                    ),
            },
            r matches Some(g) ==> self@.online_selection() == Some(g@),
            r is None ==> self@.online_selection() is None,
    {
        let n = self.cpus.len();
        let mut i: usize = 0;
        while i < n
            invariant
                self.wf(),
                n == self@.len(),
                i <= n,
                self.cpus@ == self@.cpus,
                forall|j: int| 0 <= j < i ==> !self@.online_candidate(j),
            decreases n - i,
        {
            if !self.cpus[i].online && self.cpus[i].id != self.boot_cpu {
                let g = self.members_in_state(&self.cpus[i].siblings, false);
                proof {
                    assert(self@.lowest_online_candidate(i as int));
                    let c = choose|c: int| self@.lowest_online_candidate(c);
                    if c < i {
                        assert(!self@.online_candidate(c));
                    } else if c > i {
                        assert(!self@.online_candidate(i as int));
                    }
                }
                return Some(g);
            }
            i += 1;
        }
        None
    }

    /// Records the outcome of writing `target` to the online control of
    /// `id`. The boot CPU is never changed; any other known CPU takes the new
    /// state only when the write succeeded.
    pub fn record_write(&mut self, id: usize, target: bool, outcome: WriteOutcome) -> (r:
        TransitionStatus)
        requires
            old(self).wf(),
        ensures
            final(self).wf(),
            final(self)@ == old(self)@.after_write(id, target, outcome),
            r == old(self)@.write_status(id, outcome),
    {
        if id == self.boot_cpu {
            return TransitionStatus::SkippedBootCpu;
        }
        match outcome {
            WriteOutcome::NoControl => TransitionStatus::NotControllable,
            WriteOutcome::Failed => TransitionStatus::WriteFailed,
            WriteOutcome::Written => {
                match self.find_index(id) {
                    None => {
                        proof {
                            let v = self@.after_write(id, target, outcome);
                            assert(v.cpus =~= self@.cpus);
                        }
                        TransitionStatus::UnknownCpu
                    },
                    Some(k) => {
                        let ghost pre = self@;
                        self.cpus[k].online = target;
                        proof {
                            lemma_after_write_valid(pre, id, target, outcome);
                            assert(self@.cpus =~= pre.after_write(id, target, outcome).cpus);
                        }
                        TransitionStatus::Applied
                    },
                }
            },
        }
    }

    /// The first sample for `cpu`.
    fn find_sample(samples: &Vec<IdleSample>, cpu: usize) -> (r: Option<u64>)
        ensures
            r == sample_for(samples@, cpu),
    {
        let n = samples.len();
        let mut i: usize = 0;
        proof {
            assert(samples@.subrange(0, n as int) =~= samples@);
        }
        while i < n
            invariant
                n == samples@.len(),
                i <= n,
                sample_for(samples@, cpu) == sample_for(samples@.subrange(i as int, n as int), cpu),
            decreases n - i,
        {
            let ghost rest = samples@.subrange(i as int, n as int);
            if samples[i].cpu == cpu {
                return Some(samples[i].idle_total);
            }
            proof {
                assert(rest.subrange(1, rest.len() as int) =~= samples@.subrange(i + 1, n as int));
            }
            i += 1;
        }
        None
    }

    /// Brings the CPU at index `k` up to date with the samples; returns its
    /// new utilization when it took part in the cycle.
    fn refresh_one(&mut self, k: usize, elapsed: u64, samples: &Vec<IdleSample>) -> (r: Option<u32>)
        requires
            k < old(self).cpus@.len(),
            elapsed > 0,
        ensures
            final(self).cpus@ == old(self).cpus@.update(
                k as int,
                refreshed(old(self).cpus@[k as int], samples@, elapsed),
            ),
            final(self).boot_cpu == old(self).boot_cpu,
            final(self).last_update_micros == old(self).last_update_micros,
            r == if is_fresh(old(self).cpus@[k as int], samples@) {
                Some(refreshed(old(self).cpus@[k as int], samples@, elapsed).utilization)
            } else {
                None::<u32>
            },
            r matches Some(u) ==> u <= 10000,
    {
        if !self.cpus[k].online {
            proof {
                assert(self.cpus@ =~= self.cpus@.update(k as int, self.cpus@[k as int]));
            }
            return None;
        }
        match Self::find_sample(samples, self.cpus[k].id) {
            Some(t) => {
                let delta = counter_delta(self.cpus[k].last_idle_total, t);
                let u = utilization_from_idle(delta, elapsed);
                self.cpus[k].last_idle_total = t;
                self.cpus[k].utilization = u;
                Some(u)
            },
            None => {
                proof {
                    assert(self.cpus@ =~= self.cpus@.update(k as int, self.cpus@[k as int]));
                }
                None
            },
        }
    }

    /// Samples every online CPU: for each one with a sample, the idle-time
    /// delta since its baseline (never negative) over the time elapsed since
    /// the previous cycle gives its utilization, and the sample becomes its
    /// new baseline. CPUs without a sample keep their values and stay out of
    /// the aggregate, which sums the fresh utilizations. When no time has
    /// elapsed nothing changes and the cycle fails.
    pub fn refresh(&mut self, now_micros: u64, samples: &Vec<IdleSample>) -> (r: Result<
        Aggregate,
        SampleError,
    >)
        requires
            old(self).wf(),
        ensures
            final(self).wf(),
            elapsed_since(old(self)@.last_update, now_micros) == 0 ==> r == Err::<
                Aggregate,
                SampleError,
            >(SampleError::NoElapsedTime) && final(self)@ == old(self)@,
            elapsed_since(old(self)@.last_update, now_micros) > 0 ==> {
                let elapsed = elapsed_since(old(self)@.last_update, now_micros);
                let (total, n) = cycle_load(old(self)@.cpus, samples@, elapsed);
                &&& r matches Ok(a) && a.total == total && a.samples == n
                &&& final(self)@.last_update == now_micros
                &&& final(self)@.boot == old(self)@.boot
                &&& final(self)@.cpus == old(self)@.cpus.map_values(
                    |c: LogicalCpu| refreshed(c, samples@, elapsed),
                )
            },
    {
        if now_micros <= self.last_update_micros {
            return Err(SampleError::NoElapsedTime);
        }
        let elapsed = now_micros - self.last_update_micros;
        let ghost pre = self@;
        let n = self.cpus.len();
        let mut total: u128 = 0;
        let mut count: u64 = 0;
        let mut k: usize = 0;
        while k < n
            invariant
                n == pre.len(),
                n == self.cpus@.len(),
                k <= n,
                elapsed > 0,
                self.boot_cpu == pre.boot,
                self.last_update_micros == pre.last_update,
                elapsed == elapsed_since(pre.last_update, now_micros),
                forall|j: int| 0 <= j < k ==> self.cpus@[j] == refreshed(pre.cpus[j], samples@, elapsed),
                forall|j: int| k <= j < n ==> self.cpus@[j] == pre.cpus[j],
                (total as int, count as int) == cycle_load(pre.cpus.subrange(0, k as int), samples@, elapsed),
                total <= 10000 * k,
                count <= k,
                pre.valid(),
                forall|j: int| 0 <= j < n ==> (#[trigger] self.cpus@[j]).utilization <= 10000,
            decreases n - k,
        {
            proof {
                assert(pre.cpus.subrange(0, k + 1).drop_last() =~= pre.cpus.subrange(0, k as int));
            }
            if let Some(u) = self.refresh_one(k, elapsed, samples) {
                total = total + u as u128;
                count = count + 1;
            }
            k += 1;
        }
        self.last_update_micros = now_micros;
        proof {
            assert(pre.cpus.subrange(0, n as int) =~= pre.cpus);
            assert(self@.cpus =~= pre.cpus.map_values(|c: LogicalCpu| refreshed(c, samples@, elapsed)));
            assert forall|j: int| 0 <= j < pre.len() implies (#[trigger] self@.cpus[j]).id == pre.cpus[j].id
                && self@.cpus[j].siblings == pre.cpus[j].siblings && self@.cpus[j].online
                == pre.cpus[j].online && self@.cpus[j].utilization <= 10000 by {
                assert(self.cpus@[j].utilization <= 10000);
            }
            lemma_same_shape_valid(pre, self@);
        }
        Ok(Aggregate { total, samples: count })
    }

    /// The decision rule: above the upper threshold bring a group online,
    /// below the lower one take a group offline, otherwise do nothing.
    pub fn decide(&self, load: &Aggregate, policy: &ThresholdPolicy) -> (r: Decision)
        requires
            self.wf(),
        ensures
            decision_fits(self@, *load, *policy, r),
    {
        match classify(load, policy) {
            LoadLevel::Unknown => Decision::NoAction(NoActionReason::NoSamples),
            LoadLevel::High => match self.select_group_to_online() {
                Some(g) => Decision::OnlineGroup(g),
                None => Decision::NoAction(NoActionReason::AtMaximum),
            },
            LoadLevel::Low => match self.select_group_to_offline() {
                Some(g) => Decision::OfflineGroup(g),
                None => Decision::NoAction(NoActionReason::AtMinimum),
            },
            LoadLevel::Normal => Decision::NoAction(NoActionReason::Optimal),
        }
    }

    /// One decision cycle: sample, aggregate, decide. A cycle without
    /// elapsed time is skipped and asks for nothing.
    pub fn run_cycle(&mut self, now_micros: u64, samples: &Vec<IdleSample>, policy: &ThresholdPolicy) -> (r: Decision)
        requires
            old(self).wf(),
        ensures
            final(self).wf(),
            elapsed_since(old(self)@.last_update, now_micros) == 0 ==> (r matches Decision::NoAction(
                NoActionReason::NoElapsedTime,
            )) && final(self)@ == old(self)@,
            elapsed_since(old(self)@.last_update, now_micros) > 0 ==> {
                let elapsed = elapsed_since(old(self)@.last_update, now_micros);
                let (total, n) = cycle_load(old(self)@.cpus, samples@, elapsed);
                &&& final(self)@.last_update == now_micros
                &&& final(self)@.boot == old(self)@.boot
                &&& final(self)@.cpus == old(self)@.cpus.map_values(
                    |c: LogicalCpu| refreshed(c, samples@, elapsed),
                )
                &&& decision_fits(final(self)@, Aggregate { total: total as u128, samples: n as u64 }, *policy, r)
            },
    {
        match self.refresh(now_micros, samples) {
            Err(_) => Decision::NoAction(NoActionReason::NoElapsedTime),
            Ok(load) => self.decide(&load, policy),
        }
    }

    /// The ids of a group that may be written: all but the boot CPU, which
    /// is never touched.
    pub fn writes_for(&self, group: &Vec<usize>) -> (r: Vec<usize>)
        requires
            self.wf(),
        ensures
            r@ == group@.filter(|x: usize| x != self@.boot),
    {
        let ghost pred = |x: usize| x != self@.boot;
        let mut r: Vec<usize> = Vec::new();
        let mut i: usize = 0;
        while i < group.len()
            invariant
                i <= group@.len(),
                pred == (|x: usize| x != self@.boot),
                r@ == group@.subrange(0, i as int).filter(pred),
            decreases group@.len() - i,
        {
            let ghost next = group@.subrange(0, i + 1);
            proof {
                assert(next.drop_last() =~= group@.subrange(0, i as int));
                reveal(Seq::filter);
            }
            if group[i] != self.boot_cpu {
                r.push(group[i]);
            }
            i += 1;
        }
        proof {
            assert(group@.subrange(0, group@.len() as int) =~= group@);
        }
        r
    }

    /// Every CPU other than the boot CPU, by ascending id: the CPUs that
    /// forcing everything online writes to.
    pub fn online_all_targets(&self) -> (r: Vec<usize>)
        requires
            self.wf(),
        ensures
            r@ == self@.cpus.map_values(|c: LogicalCpu| c.id).subrange(1, self@.len()),
    {
        let mut r: Vec<usize> = Vec::new();
        let mut k: usize = 1;
        while k < self.cpus.len()
            invariant
                1 <= k <= self@.len(),
                self.cpus@ == self@.cpus,
                r@ == self@.cpus.map_values(|c: LogicalCpu| c.id).subrange(1, k as int),
            decreases self@.len() - k,
        {
            r.push(self.cpus[k].id);
            proof {
                assert(r@ =~= self@.cpus.map_values(|c: LogicalCpu| c.id).subrange(1, k + 1));
            }
            k += 1;
        }
        r
    }

    /// Per socket, how many CPUs it holds and how many of them are online:
    /// exactly one entry for each socket that some CPU reports, CPUs without
    /// a socket counting as one socket of their own.
    pub fn socket_summary(&self) -> (r: Vec<SocketSummary>)
        requires
            self.wf(),
        ensures
            forall|i: int, j: int| 0 <= i < j < r@.len() ==> r@[i].socket_id != r@[j].socket_id,
            forall|k: int| 0 <= k < self@.len() ==> #[trigger] summarized(r@, self@.cpus[k].socket_id),
            forall|i: int|
                0 <= i < r@.len() ==> {
                    let e = #[trigger] r@[i];
                    &&& e.cpus == socket_count(self@.cpus, e.socket_id, false)
                    &&& e.online == socket_count(self@.cpus, e.socket_id, true)
                    &&& e.cpus > 0
                },
    {
        let ghost cpus = self@.cpus;
        let mut r: Vec<SocketSummary> = Vec::new();
        let mut k: usize = 0;
        while k < self.cpus.len()
            invariant
                cpus == self@.cpus,
                self.cpus@ == cpus,
                k <= cpus.len(),
                forall|i: int, j: int| 0 <= i < j < r@.len() ==> r@[i].socket_id != r@[j].socket_id,
                forall|m: int| 0 <= m < k ==> #[trigger] summarized(r@, cpus[m].socket_id),
                forall|i: int|
                    0 <= i < r@.len() ==> {
                        let e = #[trigger] r@[i];
                        &&& e.cpus == socket_count(cpus.subrange(0, k as int), e.socket_id, false)
                        &&& e.online == socket_count(cpus.subrange(0, k as int), e.socket_id, true)
                        &&& e.cpus > 0
                    },
            decreases cpus.len() - k,
        {
            let key = self.cpus[k].socket_id;
            let on = self.cpus[k].online;
            let ghost prefix = cpus.subrange(0, k as int);
            let ghost next = cpus.subrange(0, k + 1);
            proof {
                assert(next.drop_last() =~= prefix);
                assert(next.last() == cpus[k as int]);
                lemma_socket_count_bounds(prefix, key, false);
            }
            let mut i: usize = 0;
            let mut found: Option<usize> = None;
            while i < r.len()
                invariant
                    i <= r@.len(),
                    found is None ==> forall|j: int| 0 <= j < i ==> r@[j].socket_id != key,
                    found matches Some(f) ==> f < r@.len() && r@[f as int].socket_id == key,
                ensures
                    found is None ==> forall|j: int| 0 <= j < r@.len() ==> r@[j].socket_id != key,
                    found matches Some(f) ==> f < r@.len() && r@[f as int].socket_id == key,
                decreases r@.len() - i,
            {
                let same = match (r[i].socket_id, key) {
                    (Some(a), Some(b)) => a == b,
                    (None, None) => true,
                    _ => false,
                };
                if same {
                    found = Some(i);
                    break;
                }
                i += 1;
            }
            let ghost before = r@;
            match found {
                Some(f) => {
                    let e = r[f];
                    proof {
                        lemma_socket_count_bounds(prefix, e.socket_id, false);
                    }
                    let online = if on {
                        e.online + 1
                    } else {
                        e.online
                    };
                    r.set(f, SocketSummary { socket_id: e.socket_id, cpus: e.cpus + 1, online });
                    proof {
                        assert forall|m: int| 0 <= m < k + 1 implies #[trigger] summarized(r@, cpus[m].socket_id) by {
                            if m < k {
                                assert(summarized(before, cpus[m].socket_id));
                                let w = choose|w: int| 0 <= w < before.len() && before[w].socket_id == cpus[m].socket_id;
                                assert(r@[w].socket_id == cpus[m].socket_id);
                            } else {
                                assert(r@[f as int].socket_id == cpus[m].socket_id);
                            }
                        }
                    }
                },
                None => {
                    proof {
                        assert forall|m: int| 0 <= m < prefix.len() implies prefix[m].socket_id != key by {
                            assert(prefix[m] == cpus[m]);
                            assert(summarized(before, cpus[m].socket_id));
                            let w = choose|w: int| 0 <= w < before.len() && before[w].socket_id == cpus[m].socket_id;
                        }
                        lemma_socket_count_bounds(prefix, key, false);
                        lemma_socket_count_bounds(prefix, key, true);
                    }
                    r.push(SocketSummary { socket_id: key, cpus: 1, online: if on { 1 } else { 0 } });
                    proof {
                        assert forall|m: int| 0 <= m < k + 1 implies #[trigger] summarized(r@, cpus[m].socket_id) by {
                            if m < k {
                                assert(summarized(before, cpus[m].socket_id));
                                let w = choose|w: int| 0 <= w < before.len() && before[w].socket_id == cpus[m].socket_id;
                                assert(r@[w].socket_id == cpus[m].socket_id);
                            } else {
                                assert(r@[before.len() as int].socket_id == cpus[m].socket_id);
                            }
                        }
                    }
                },
            }
            k += 1;
        }
        proof {
            assert(cpus.subrange(0, cpus.len() as int) =~= cpus);
        }
        r
    }

    /// The CPU with this id.
    pub fn cpu(&self, id: usize) -> (r: Option<&LogicalCpu>)
        requires
            self.wf(),
        ensures
            match r {
                Some(c) => exists|k: int| 0 <= k < self@.len() && self@.cpus[k] == *c && c.id == id,
                None => !self@.has_id(id),
            },
    {
        match self.find_index(id) {
            Some(k) => Some(&self.cpus[k]),
            None => None,
        }
    }

    /// The siblings of the CPU with this id, itself included; empty for an
    /// unknown id.
    pub fn siblings_of(&self, id: usize) -> (r: &[usize])
        requires
            self.wf(),
        ensures
            r@.len() > 0 ==> exists|k: int| 0 <= k < self@.len() && self@.cpus[k].id == id && self@.cpus[k].siblings@ == r@,
            !self@.has_id(id) ==> r@.len() == 0,
            self@.has_id(id) ==> r@.len() > 0,
    {
        match self.find_index(id) {
            Some(k) => {
                proof {
                    assert(self@.cpus[k as int].siblings@.contains(id));
                }
                self.cpus[k].siblings.as_slice()
            },
            None => &[],
        }
    }

    /// The ids of the CPUs in the given state, ascending.
    fn ids_in_state(&self, online: bool) -> (r: Vec<usize>)
        requires
            self.wf(),
        ensures
            r@ == self@.cpus.filter(|c: LogicalCpu| c.online == online).map_values(|c: LogicalCpu| c.id),
    {
        let ghost pred = |c: LogicalCpu| c.online == online;
        let ghost f = |c: LogicalCpu| c.id;
        let mut r: Vec<usize> = Vec::new();
        let mut k: usize = 0;
        while k < self.cpus.len()
            invariant
                k <= self@.len(),
                self.cpus@ == self@.cpus,
                pred == (|c: LogicalCpu| c.online == online),
                f == (|c: LogicalCpu| c.id),
                r@ == self@.cpus.subrange(0, k as int).filter(pred).map_values(f),
            decreases self@.len() - k,
        {
            let ghost next = self@.cpus.subrange(0, k + 1);
            proof {
                assert(next.drop_last() =~= self@.cpus.subrange(0, k as int));
                assert(next.last() == self@.cpus[k as int]);
                reveal(Seq::filter);
            }
            if self.cpus[k].online == online {
                r.push(self.cpus[k].id);
                proof {
                    assert(r@ =~= next.filter(pred).map_values(f));
                }
            } else {
                proof {
                    assert(r@ =~= next.filter(pred).map_values(f));
                }
            }
            k += 1;
        }
        proof {
            assert(self@.cpus.subrange(0, k as int) =~= self@.cpus);
        }
        r
    }

    /// The ids of the online CPUs, ascending.
    pub fn online_ids(&self) -> (r: Vec<usize>)
        requires
            self.wf(),
        ensures
            r@ == self@.cpus.filter(|c: LogicalCpu| c.online).map_values(|c: LogicalCpu| c.id),
    {
        let r = self.ids_in_state(true);
        proof {
            assert((|c: LogicalCpu| c.online == true) == (|c: LogicalCpu| c.online));
        }
        r
    }

    /// The ids of the offline CPUs, ascending.
    pub fn offline_ids(&self) -> (r: Vec<usize>)
        requires
            self.wf(),
        ensures
            r@ == self@.cpus.filter(|c: LogicalCpu| !c.online).map_values(|c: LogicalCpu| c.id),
    {
        let r = self.ids_in_state(false);
        proof {
            assert((|c: LogicalCpu| c.online == false) == (|c: LogicalCpu| !c.online));
        }
        r
    }

    /// The id of the boot CPU, which is never taken offline.
    pub fn boot_cpu(&self) -> (r: usize)
        ensures
            r == self@.boot,
    {
        self.boot_cpu
    }

    /// The socket of the boot CPU.
    pub fn boot_socket(&self) -> (r: Option<usize>)
        requires
            self.wf(),
        ensures
            r == self@.cpus[0].socket_id,
    {
        self.cpus[0].socket_id
    }

    /// Number of CPUs.
    pub fn len(&self) -> (r: usize)
        ensures
            r == self@.len(),
    {
        self.cpus.len()
    }
}

} // verus!
