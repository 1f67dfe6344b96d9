use vstd::prelude::*;

use crate::text::{control_text, online_flag, AttributeRead};
use crate::topology::{LogicalCpu, Topology, TopologyView};

verus! {

/// What the hardware reports of one logical CPU at discovery.
#[derive(Debug, Clone, PartialEq, Eq)]
pub struct CpuRecord {
    pub id: usize,
    pub core_id: Option<usize>,
    pub socket_id: Option<usize>,
    /// The sibling list as reported, possibly incomplete or one-sided.
    pub siblings: Vec<usize>,
    pub online: bool,
    pub idle_states: Vec<String>,
}

/// Why no topology could be built.
#[derive(PartialEq, Eq, Structural, Debug, Clone, Copy)]
pub enum DiscoveryError {
    /// The enumeration source could not be read.
    Unreadable,
    /// The enumeration source lists no CPU.
    NoCpus,
}

/// No record after index `j` has the id of record `j`.
pub open spec fn is_last_of_id(recs: Seq<CpuRecord>, j: int) -> bool {
    forall|m: int| j < m < recs.len() ==> recs[m].id != recs[j].id
}

/// Some record of `out` has this id.
pub open spec fn has_record(out: Seq<CpuRecord>, id: usize) -> bool {
    exists|k: int| 0 <= k < out.len() && out[k].id == id
}

/// `c` is the last record of its id among the records of `recs` from `lo` on.
pub open spec fn last_record_from(recs: Seq<CpuRecord>, lo: int, c: CpuRecord) -> bool {
    exists|j: int| lo <= j < recs.len() && c == recs[j] && is_last_of_id(recs, j)
}

/// `keeps_last_by_id` for the records from index `lo` on.
pub open spec fn keeps_last_from(recs: Seq<CpuRecord>, lo: int, out: Seq<CpuRecord>) -> bool {
    &&& forall|i: int, j: int| 0 <= i < j < out.len() ==> out[i].id < out[j].id
    &&& forall|j: int| lo <= j < recs.len() ==> #[trigger] has_record(out, recs[j].id)
    &&& forall|k: int| 0 <= k < out.len() ==> #[trigger] last_record_from(recs, lo, out[k])
}

/// `out` holds the records of `recs` by strictly ascending id, one per id:
/// of several records with one id the last one.
pub open spec fn keeps_last_by_id(recs: Seq<CpuRecord>, out: Seq<CpuRecord>) -> bool {
    keeps_last_from(recs, 0, out)
}

proof fn lemma_keep_existing(recs: Seq<CpuRecord>, lo: int, out: Seq<CpuRecord>, p: int)
    requires
        0 <= lo < recs.len(),
        keeps_last_from(recs, lo + 1, out),
        0 <= p < out.len(),
        out[p].id == recs[lo].id,
    ensures
        keeps_last_from(recs, lo, out),
{
    assert forall|j: int| lo <= j < recs.len() implies #[trigger] has_record(out, recs[j].id) by {
        if j == lo {
            assert(out[p].id == recs[j].id);
        }
    }
    assert forall|k: int| 0 <= k < out.len() implies #[trigger] last_record_from(recs, lo, out[k]) by {
        assert(last_record_from(recs, lo + 1, out[k]));
        let j = choose|j: int| lo + 1 <= j < recs.len() && out[k] == recs[j] && is_last_of_id(recs, j);
        assert(lo <= j);
    }
}

proof fn lemma_insert_new(recs: Seq<CpuRecord>, lo: int, before: Seq<CpuRecord>, p: int)
    requires
        0 <= lo < recs.len(),
        keeps_last_from(recs, lo + 1, before),
        0 <= p <= before.len(),
        forall|q: int| 0 <= q < p ==> before[q].id < recs[lo].id,
        p < before.len() ==> before[p].id > recs[lo].id,
    ensures
        keeps_last_from(recs, lo, before.insert(p, recs[lo])),
{
    let x = recs[lo].id;
    let r = recs[lo];
    assert forall|k: int| 0 <= k < before.len() implies before[k].id != x by {
        if k > p {
            assert(before[p].id < before[k].id);
        }
    }
    assert(is_last_of_id(recs, lo)) by {
        assert forall|m: int| lo < m < recs.len() implies recs[m].id != recs[lo].id by {
            assert(has_record(before, recs[m].id));
        }
    }
    before.insert_ensures(p, r);
    let after = before.insert(p, r);
    assert forall|i: int, j: int| 0 <= i < j < after.len() implies after[i].id < after[j].id by {
        if j <= p {
        } else if i < p {
            if j - 1 > p {
                assert(before[p].id < before[j - 1].id);
            }
        } else if i == p {
            if j - 1 > p {
                assert(before[p].id < before[j - 1].id);
            }
        } else {
            assert(before[i - 1].id < before[j - 1].id);
        }
    }
    assert forall|j: int| lo <= j < recs.len() implies #[trigger] has_record(after, recs[j].id) by {
        if j == lo {
            assert(after[p].id == recs[j].id);
        } else {
            assert(has_record(before, recs[j].id));
            let k = choose|k: int| 0 <= k < before.len() && before[k].id == recs[j].id;
            if k < p {
                assert(after[k].id == recs[j].id);
            } else {
                assert(after[k + 1].id == recs[j].id);
            }
        }
    }
    assert forall|k: int| 0 <= k < after.len() implies #[trigger] last_record_from(recs, lo, after[k]) by {
        if k == p {
            assert(after[k] == recs[lo]);
        } else {
            let kk = if k < p { k } else { k - 1 };
            assert(after[k] == before[kk]);
            assert(last_record_from(recs, lo + 1, before[kk]));
            let j = choose|j: int| lo + 1 <= j < recs.len() && before[kk] == recs[j] && is_last_of_id(recs, j);
            assert(after[k] == recs[j]);
        }
    }
}

/// Orders the records by id; of several records with one id the last one
/// stands.
fn order_records(records: Vec<CpuRecord>) -> (out: Vec<CpuRecord>)
    ensures
        keeps_last_by_id(records@, out@),
{
    let ghost recs = records@;
    let mut rest = records;
    let mut out: Vec<CpuRecord> = Vec::new();
    while rest.len() > 0
        invariant
            rest@.len() <= recs.len(),
            rest@ == recs.subrange(0, rest@.len() as int),
            keeps_last_from(recs, rest@.len() as int, out@),
        decreases rest@.len(),
    {
        let ghost lo = rest@.len() - 1;
        let r = match rest.pop() {
            Some(r) => r,
            None => {
                return out;
            },
        };
        let x = r.id;
        let mut p: usize = 0;
        while p < out.len() && out[p].id < x
            invariant
                p <= out@.len(),
                forall|q: int| 0 <= q < p ==> out@[q].id < x,
            decreases out@.len() - p,
        {
            p += 1;
        }
        if p < out.len() && out[p].id == x {
            proof {
                lemma_keep_existing(recs, lo, out@, p as int);
            }
        } else {
            proof {
                lemma_insert_new(recs, lo, out@, p as int);
            }
            out.insert(p, r);
        }
        proof {
            assert(rest@ =~= recs.subrange(0, lo));
        }
    }
    out
}


/// The ids of the records, in order.
pub open spec fn record_ids(out: Seq<CpuRecord>) -> Seq<usize> {
    out.map_values(|r: CpuRecord| r.id)
}

/// `x` shares a core with the CPU of record `k`: it is that CPU, or one of
/// the two lists it on its sibling list.
pub open spec fn sibling_of(out: Seq<CpuRecord>, k: int, x: usize) -> bool {
    ||| x == out[k].id
    ||| out[k].siblings@.contains(x)
    ||| exists|m: int| 0 <= m < out.len() && out[m].id == x && out[m].siblings@.contains(out[k].id)
}

/// The sibling list of the CPU of record `k` made symmetric, reflexive and
/// limited to known CPUs, by ascending id.
pub open spec fn normalized_siblings(out: Seq<CpuRecord>, k: int) -> Seq<usize> {
    record_ids(out).filter(|x: usize| sibling_of(out, k, x))
}

/// `v` is the model built from the ordered records `out`: the lowest id is
/// the boot CPU and is online, sibling lists are normalized, and no sample
/// has been taken yet.
pub open spec fn built_from(out: Seq<CpuRecord>, v: TopologyView) -> bool {
    &&& v.len() == out.len()
    &&& out.len() > 0
    &&& v.boot == out[0].id
    &&& forall|k: int|
        0 <= k < out.len() ==> {
            let c = #[trigger] v.cpus[k];
            &&& c.id == out[k].id
            &&& c.core_id == out[k].core_id
            &&& c.socket_id == out[k].socket_id
            &&& c.idle_states == out[k].idle_states
            &&& c.siblings@ == normalized_siblings(out, k)
            &&& c.online == (k == 0 || out[k].online)
            &&& c.utilization == 0
            &&& c.last_idle_total == 0
        }
}

/// `v` is what discovery builds from the records `recs`, taken in any order.
pub open spec fn discovered(recs: Seq<CpuRecord>, v: TopologyView) -> bool {
    exists|out: Seq<CpuRecord>| keeps_last_by_id(recs, out) && built_from(out, v)
}

proof fn lemma_filter_facts(s: Seq<usize>, pred: spec_fn(usize) -> bool)
    ensures
        forall|i: int| 0 <= i < s.filter(pred).len() ==> s.contains(#[trigger] s.filter(pred)[i])
            && pred(s.filter(pred)[i]),
        (forall|i: int, j: int| 0 <= i < j < s.len() ==> s[i] < s[j]) ==> forall|i: int, j: int|
            0 <= i < j < s.filter(pred).len() ==> s.filter(pred)[i] < s.filter(pred)[j],
    decreases s.len(),
{
    reveal(Seq::filter);
    if s.len() > 0 {
        let d = s.drop_last();
        lemma_filter_facts(d, pred);
        let fd = d.filter(pred);
        let f = s.filter(pred);
        assert forall|i: int| 0 <= i < f.len() implies s.contains(#[trigger] f[i]) && pred(f[i]) by {
            if i < fd.len() {
                assert(f[i] == fd[i]);
                assert(d.contains(fd[i]));
                let w = choose|w: int| 0 <= w < d.len() && d[w] == fd[i];
                assert(s[w] == fd[i]);
            } else {
                assert(f[i] == s.last());
                assert(s[s.len() - 1] == s.last());
            }
        }
        if forall|i: int, j: int| 0 <= i < j < s.len() ==> s[i] < s[j] {
            assert forall|i: int, j: int| 0 <= i < j < f.len() implies f[i] < f[j] by {
                if j < fd.len() {
                    assert(f[i] == fd[i] && f[j] == fd[j]);
                } else {
                    assert(f[i] == fd[i]);
                    assert(d.contains(fd[i]));
                    let w = choose|w: int| 0 <= w < d.len() && d[w] == fd[i];
                    assert(s[w] == d[w]);
                }
            }
        }
    }
}

fn contains_id(v: &Vec<usize>, x: usize) -> (r: bool)
    ensures
        r == v@.contains(x),
{
    let mut i: usize = 0;
    while i < v.len()
        invariant
            i <= v@.len(),
            forall|j: int| 0 <= j < i ==> v@[j] != x,
        decreases v@.len() - i,
    {
        if v[i] == x {
            return true;
        }
        i += 1;
    }
    false
}

/// The normalized sibling list of the CPU of record `k`.
fn normalize_siblings(out: &Vec<CpuRecord>, k: usize) -> (r: Vec<usize>)
    requires
        k < out@.len(),
        forall|i: int, j: int| 0 <= i < j < out@.len() ==> out@[i].id < out@[j].id,
    ensures
        r@ == normalized_siblings(out@, k as int),
{
    let ghost pred = |x: usize| sibling_of(out@, k as int, x);
    let ghost ids = record_ids(out@);
    let mut r: Vec<usize> = Vec::new();
    let mut m: usize = 0;
    while m < out.len()
        invariant
            k < out@.len(),
            m <= out@.len(),
            forall|i: int, j: int| 0 <= i < j < out@.len() ==> out@[i].id < out@[j].id,
            pred == (|x: usize| sibling_of(out@, k as int, x)),
            ids == record_ids(out@),
            r@ == ids.subrange(0, m as int).filter(pred),
        decreases out@.len() - m,
    {
        let shares_core = m == k || contains_id(&out[k].siblings, out[m].id) || contains_id(
            &out[m].siblings,
            out[k].id,
        );
        proof {
            let x = out@[m as int].id;
            if sibling_of(out@, k as int, x) && x != out@[k as int].id && !out@[k as int].siblings@.contains(x) {
                let w = choose|w: int|
                    0 <= w < out@.len() && out@[w].id == x && out@[w].siblings@.contains(out@[k as int].id);
                if w < m {
                    assert(out@[w].id < out@[m as int].id);
                } else if w > m {
                    assert(out@[m as int].id < out@[w].id);
                }
            }
            if m == k {
                assert(x == out@[k as int].id);
            }
            assert(shares_core == pred(x));
            let next = ids.subrange(0, m + 1);
            assert(next.drop_last() =~= ids.subrange(0, m as int));
            assert(next.last() == x);
            reveal(Seq::filter);
        }
        if shares_core {
            r.push(out[m].id);
        }
        m += 1;
    }
    proof {
        assert(ids.subrange(0, out@.len() as int) =~= ids);
    }
    r
}

/// A model built from ordered records is valid.
proof fn lemma_built_valid(out: Seq<CpuRecord>, v: TopologyView)
    requires
        forall|i: int, j: int| 0 <= i < j < out.len() ==> out[i].id < out[j].id,
        built_from(out, v),
    ensures
        v.valid(),
{
    let ids = record_ids(out);
    assert forall|k: int| 0 <= k < out.len() implies {
        let f = #[trigger] normalized_siblings(out, k);
        &&& forall|i: int| 0 <= i < f.len() ==> ids.contains(#[trigger] f[i]) && sibling_of(out, k, f[i])
        &&& forall|i: int, j: int| 0 <= i < j < f.len() ==> f[i] < f[j]
        &&& f.contains(out[k].id)
    } by {
        let pred = |x: usize| sibling_of(out, k, x);
        lemma_filter_facts(ids, pred);
        assert(ids[k] == out[k].id);
        ids.lemma_filter_contains(pred, k);
    }
    assert forall|i: int, j: int| 0 <= i < j < v.len() implies v.cpus[i].id < v.cpus[j].id by {
        assert(v.cpus[i].id == out[i].id && v.cpus[j].id == out[j].id);
    }
    assert forall|k: int| 0 <= k < v.len() implies #[trigger] v.cpus[k].siblings@.contains(v.cpus[k].id) by {
        assert(normalized_siblings(out, k).contains(out[k].id));
    }
    assert forall|k: int, a: int, b: int|
        0 <= k < v.len() && 0 <= a < b < v.cpus[k].siblings@.len() implies #[trigger] v.cpus[k].siblings@[a]
        < #[trigger] v.cpus[k].siblings@[b] by {
        let f = normalized_siblings(out, k);
        assert(v.cpus[k].siblings@ == f);
    }
    assert forall|k: int, a: int|
        0 <= k < v.len() && 0 <= a < v.cpus[k].siblings@.len() implies v.has_id(
        #[trigger] v.cpus[k].siblings@[a]) by {
        let f = normalized_siblings(out, k);
        assert(ids.contains(f[a]));
        let w = choose|w: int| 0 <= w < ids.len() && ids[w] == f[a];
        assert(v.cpus[w].id == f[a]);
    }
    assert forall|i: int, j: int|
        0 <= i < v.len() && 0 <= j < v.len() && #[trigger] v.cpus[i].siblings@.contains(v.cpus[j].id)
            implies #[trigger] v.cpus[j].siblings@.contains(v.cpus[i].id) by {
        let fi = normalized_siblings(out, i);
        let fj = normalized_siblings(out, j);
        let w = choose|w: int| 0 <= w < fi.len() && fi[w] == out[j].id;
        assert(sibling_of(out, i, out[j].id));
        if out[j].id == out[i].id {
            if i < j {
                assert(out[i].id < out[j].id);
            } else if j < i {
                assert(out[j].id < out[i].id);
            }
        } else if !out[i].siblings@.contains(out[j].id) {
            let m = choose|m: int|
                0 <= m < out.len() && out[m].id == out[j].id && out[m].siblings@.contains(out[i].id);
            if m < j {
                assert(out[m].id < out[j].id);
            } else if m > j {
                assert(out[j].id < out[m].id);
            }
        }
        assert(sibling_of(out, j, out[i].id));
        let pred = |x: usize| sibling_of(out, j, x);
        assert(ids[i] == out[i].id);
        ids.lemma_filter_contains(pred, i);
    }
    assert(v.cpus[0].online);
    assert forall|k: int| 0 <= k < v.len() implies #[trigger] v.cpus[k].utilization <= 10000 by {}
}

/// Builds the model from the records of all CPUs, in any order. The lowest
/// id becomes the boot CPU, which is online whatever its record says; every
/// sibling list is made symmetric, holds the CPU itself and only known CPUs;
/// of several records with one id the last one stands.
pub fn discover(records: Vec<CpuRecord>, now_micros: u64) -> (r: Result<Topology, DiscoveryError>)
    ensures
        records@.len() == 0 <==> r == Err::<Topology, DiscoveryError>(DiscoveryError::NoCpus),
        r matches Err(e) ==> e == DiscoveryError::NoCpus,
        r matches Ok(t) ==> t.wf() && discovered(records@, t@) && t@.last_update == now_micros,
{
    if records.len() == 0 {
        return Err(DiscoveryError::NoCpus);
    }
    let ghost recs = records@;
    let mut out = order_records(records);
    proof {
        assert(has_record(out@, recs[0].id));
    }
    let n = out.len();
    let mut norms: Vec<Vec<usize>> = Vec::new();
    let mut k: usize = 0;
    while k < n
        invariant
            n == out@.len(),
            k <= n,
            keeps_last_by_id(recs, out@),
            norms@.len() == k,
            forall|j: int| 0 <= j < k ==> (#[trigger] norms@[j])@ == normalized_siblings(out@, j),
        decreases n - k,
    {
        let sib = normalize_siblings(&out, k);
        norms.push(sib);
        k += 1;
    }
    let ghost ordered = out@;
    let ghost all_norms = norms@;
    let mut cpus: Vec<LogicalCpu> = Vec::new();
    let mut k: usize = 0;
    while k < n
        invariant
            n == ordered.len(),
            n == all_norms.len(),
            k <= n,
            out@ == ordered.subrange(k as int, n as int),
            norms@ == all_norms.subrange(k as int, n as int),
            forall|j: int| 0 <= j < n ==> (#[trigger] all_norms[j])@ == normalized_siblings(ordered, j),
            cpus@.len() == k,
            forall|j: int|
                0 <= j < k ==> {
                    let c = #[trigger] cpus@[j];
                    &&& c.id == ordered[j].id
                    &&& c.core_id == ordered[j].core_id
                    &&& c.socket_id == ordered[j].socket_id
                    &&& c.idle_states == ordered[j].idle_states
                    &&& c.siblings@ == normalized_siblings(ordered, j)
                    &&& c.online == (j == 0 || ordered[j].online)
                    &&& c.utilization == 0
                    &&& c.last_idle_total == 0
                },
        decreases n - k,
    {
        let rec = out.remove(0);
        let sib = norms.remove(0);
        proof {
            assert(rec == ordered[k as int]);
            assert(sib == all_norms[k as int]);
            assert(out@ =~= ordered.subrange(k + 1, n as int));
            assert(norms@ =~= all_norms.subrange(k + 1, n as int));
        }
        let online = k == 0 || rec.online;
        cpus.push(
            LogicalCpu {
                id: rec.id,
                core_id: rec.core_id,
                socket_id: rec.socket_id,
                siblings: sib,
                idle_states: rec.idle_states,
                online,
                utilization: 0,
                last_idle_total: 0,
            },
        );
        k += 1;
    }
    let ghost v = TopologyView { cpus: cpus@, boot: cpus@[0].id, last_update: now_micros };
    proof {
        assert(built_from(ordered, v));
        lemma_built_valid(ordered, v);
    }
    let t = Topology::from_parts(cpus, now_micros);
    Ok(t)
}


/// Forcing every CPU online and discovering again reports every CPU online:
/// after the writes, the online attribute of each CPU other than the boot
/// CPU is either missing or holds the text that was written, and reading
/// such an attribute gives online.
pub proof fn lemma_online_all_then_rediscover(
    recs: Seq<CpuRecord>,
    reads: Seq<AttributeRead>,
    v: TopologyView,
)
    requires
        recs.len() == reads.len(),
        discovered(recs, v),
        forall|j: int|
            0 <= j < recs.len() && recs[j].id != v.boot ==> {
                &&& (#[trigger] reads[j]) is Missing || (reads[j] matches AttributeRead::Contents(c)
                    && c@ == control_text(true))
                &&& recs[j].online == online_flag(reads[j])
            },
    ensures
        forall|k: int| 0 <= k < v.len() ==> (#[trigger] v.cpus[k]).online,
{
    let out = choose|out: Seq<CpuRecord>| keeps_last_by_id(recs, out) && built_from(out, v);
    assert forall|k: int| 0 <= k < v.len() implies (#[trigger] v.cpus[k]).online by {
        if k > 0 {
            assert(last_record_from(recs, 0, out[k]));
            let j = choose|j: int| 0 <= j < recs.len() && out[k] == recs[j] && is_last_of_id(recs, j);
            assert(out[0].id < out[k].id);
            if let AttributeRead::Contents(c) = reads[j] {
                assert(crate::text::trimmed(c@) =~= seq![49u8]) by {
                    reveal_with_fuel(crate::text::trim_start, 2);
                    reveal_with_fuel(crate::text::trim_end, 2);
                    assert(c@.subrange(1, 1) =~= Seq::<u8>::empty());
                    assert(c@.drop_last() =~= Seq::<u8>::empty());
                }
            }
        }
    }
}


/// The CPUs that forcing everything online writes to before discovery: every
/// listed id but the lowest, which is the boot CPU.
pub fn online_all_targets_of(ids: &Vec<usize>) -> (r: Vec<usize>)
    ensures
        r@ == ids@.filter(|x: usize| exists|j: int| 0 <= j < ids@.len() && ids@[j] < x),
{
    let ghost pred = |x: usize| exists|j: int| 0 <= j < ids@.len() && ids@[j] < x;
    let mut r: Vec<usize> = Vec::new();
    if ids.len() == 0 {
        proof {
            reveal(Seq::filter);
        }
        return r;
    }
    let mut low = ids[0];
    let mut i: usize = 1;
    while i < ids.len()
        invariant
            1 <= i <= ids@.len(),
            exists|j: int| 0 <= j < ids@.len() && ids@[j] == low,
            forall|j: int| 0 <= j < i ==> low <= ids@[j],
        decreases ids@.len() - i,
    {
        if ids[i] < low {
            low = ids[i];
        }
        i += 1;
    }
    let mut i: usize = 0;
    while i < ids.len()
        invariant
            i <= ids@.len(),
            pred == (|x: usize| exists|j: int| 0 <= j < ids@.len() && ids@[j] < x),
            exists|j: int| 0 <= j < ids@.len() && ids@[j] == low,
            forall|j: int| 0 <= j < ids@.len() ==> low <= ids@[j],
            r@ == ids@.subrange(0, i as int).filter(pred),
        decreases ids@.len() - i,
    {
        let x = ids[i];
        let ghost next = ids@.subrange(0, i + 1);
        proof {
            assert(next.drop_last() =~= ids@.subrange(0, i as int));
            assert(next.last() == x);
            if pred(x) {
                let j = choose|j: int| 0 <= j < ids@.len() && ids@[j] < x;
                assert(low <= ids@[j]);
            }
            reveal(Seq::filter);
        }
        if x > low {
            r.push(x);
        }
        i += 1;
    }
    proof {
        assert(ids@.subrange(0, ids@.len() as int) =~= ids@);
    }
    r
}

} // verus!
