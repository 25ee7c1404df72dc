//! Virtual machine placement: a model of the resource pool that placement
//! policies read, and the policies themselves.

use vstd::prelude::*;

verus! {

/// The resources a virtual machine asks for.
#[derive(Clone, Copy, Debug, PartialEq, Eq, Structural)]
pub struct Allocation {
    pub id: u32,
    pub cpu_usage: u32,
    pub memory_usage: u64,
}

/// The answer of a resource pool to the question whether an allocation fits a host.
#[derive(Clone, Copy, Debug, PartialEq, Eq, Structural)]
pub enum AllocationVerdict {
    NotEnoughCPU,
    NotEnoughMemory,
    Success,
    HostNotFound,
}

/// The capacity of one host and what is still free on it.
#[derive(Clone, Copy, Debug, PartialEq, Eq, Structural)]
pub struct HostInfo {
    pub id: u32,
    pub cpu_total: u32,
    pub memory_total: u64,
    pub cpu_available: u32,
    pub memory_available: u64,
}

/// Whether the free resources of `host` cover `alloc`.
pub open spec fn fits(host: HostInfo, alloc: Allocation) -> bool {
    alloc.cpu_usage <= host.cpu_available && alloc.memory_usage <= host.memory_available
}

/// Host identifiers strictly increase along `hosts`.
pub open spec fn ids_increasing(hosts: Seq<HostInfo>) -> bool {
    forall|i: int, j: int| 0 <= i < j < hosts.len() ==> hosts[i].id < hosts[j].id
}

/// The host with identifier `id` in `hosts`, if there is one.
pub open spec fn find_host(hosts: Seq<HostInfo>, id: u32) -> Option<HostInfo> {
    if exists|i: int| 0 <= i < hosts.len() && hosts[i].id == id {
        Some(hosts[choose|i: int| 0 <= i < hosts.len() && hosts[i].id == id])
    } else {
        None
    }
}

/// What a pool with hosts `hosts` answers when asked whether `alloc` fits host `id`.
pub open spec fn allocation_verdict(hosts: Seq<HostInfo>, alloc: Allocation, id: u32) -> AllocationVerdict {
    match find_host(hosts, id) {
        None => AllocationVerdict::HostNotFound,
        Some(h) => if h.cpu_available < alloc.cpu_usage {
            AllocationVerdict::NotEnoughCPU
        } else if h.memory_available < alloc.memory_usage {
            AllocationVerdict::NotEnoughMemory
        } else {
            AllocationVerdict::Success
        },
    }
}

/// In a pool ordered by increasing identifiers, the host at position `i` is the
/// one found by its identifier.
pub proof fn lemma_find_host_at(hosts: Seq<HostInfo>, i: int)
    requires
        ids_increasing(hosts),
        0 <= i < hosts.len(),
    ensures
        find_host(hosts, hosts[i].id) == Some(hosts[i]),
{
    let j = choose|j: int| 0 <= j < hosts.len() && hosts[j].id == hosts[i].id;
    assert(hosts[j].id == hosts[i].id);
    if j < i {
        assert(hosts[j].id < hosts[i].id);
    } else if i < j {
        assert(hosts[i].id < hosts[j].id);
    }
}

/// The hosts of a cloud and the resources still free on each of them.
pub struct ResourcePoolState {
    hosts: Vec<HostInfo>,
}

impl ResourcePoolState {
    /// The hosts, in order of increasing identifier.
    pub closed spec fn view(&self) -> Seq<HostInfo> {
        self.hosts@
    }

    /// The pool holds each identifier once, hosts ordered by identifier.
    pub open spec fn wf(&self) -> bool {
        ids_increasing(self@)
    }

    /// A pool without hosts.
    pub fn new() -> (res: Self)
        ensures
            res.wf(),
            res@ == Seq::<HostInfo>::empty(),
    {
        ResourcePoolState { hosts: Vec::new() }
    }

    /// Adds `host`, replacing the host with the same identifier if there is one.
    pub fn add_host(&mut self, host: HostInfo)
        requires
            old(self).wf(),
        ensures
            final(self).wf(),
            forall|h: HostInfo|
                final(self)@.contains(h) <==> (h == host || (old(self)@.contains(h) && h.id
                    != host.id)),
    {
        let n = self.hosts.len();
        let mut i: usize = 0;
        while i < n && self.hosts[i].id < host.id
            invariant
                n == self.hosts@.len(),
                self.hosts@ == old(self)@,
                i <= n,
                forall|j: int| 0 <= j < i ==> self.hosts@[j].id < host.id,
            decreases n - i,
        {
            i = i + 1;
        }
        let ghost before = self.hosts@;
        assert(before == old(self)@);
        if i < n && self.hosts[i].id == host.id {
            self.hosts.set(i, host);
            assert forall|h: HostInfo|
                self@.contains(h) <==> (h == host || (old(self)@.contains(h) && h.id
                    != host.id)) by {
                if self.hosts@.contains(h) {
                    let k = choose|k: int| 0 <= k < self.hosts@.len() && self.hosts@[k] == h;
                    if k != i {
                        assert(before[k] == h);
                        if k < i {
                            assert(before[k].id < before[i as int].id);
                        } else {
                            assert(before[i as int].id < before[k].id);
                        }
                    }
                }
                if h == host {
                    assert(self.hosts@[i as int] == h);
                } else if before.contains(h) && h.id != host.id {
                    let k = choose|k: int| 0 <= k < before.len() && before[k] == h;
                    assert(self.hosts@[k] == h);
                }
            }
        } else {
            self.hosts.insert(i, host);
            assert forall|h: HostInfo|
                self@.contains(h) <==> (h == host || (old(self)@.contains(h) && h.id
                    != host.id)) by {
                if self.hosts@.contains(h) {
                    let k = choose|k: int| 0 <= k < self.hosts@.len() && self.hosts@[k] == h;
                    if k < i {
                        assert(before[k] == h);
                    } else if k > i {
                        assert(before[k - 1] == h);
                        assert(before[i as int].id >= host.id);
                        if k - 1 > i {
                            assert(before[i as int].id < before[k - 1].id);
                        }
                    }
                }
                if h == host {
                    assert(self.hosts@[i as int] == h);
                } else if before.contains(h) && h.id != host.id {
                    let k = choose|k: int| 0 <= k < before.len() && before[k] == h;
                    if k < i {
                        assert(self.hosts@[k] == h);
                    } else {
                        assert(self.hosts@[k + 1] == h);
                    }
                }
            }
        }
    }

    /// The identifiers of all hosts, in increasing order.
    pub fn get_hosts_list(&self) -> (res: Vec<u32>)
        ensures
            res@.len() == self@.len(),
            forall|i: int| 0 <= i < res@.len() ==> res@[i] == self@[i].id,
    {
        let mut res: Vec<u32> = Vec::new();
        let mut i: usize = 0;
        while i < self.hosts.len()
            invariant
                i <= self.hosts@.len(),
                res@.len() == i,
                forall|j: int| 0 <= j < i ==> res@[j] == self.hosts@[j].id,
            decreases self.hosts@.len() - i,
        {
            res.push(self.hosts[i].id);
            i = i + 1;
        }
        res
    }

    /// Whether `alloc` fits host `host_id`, and if not, why.
    pub fn can_allocate(&self, alloc: &Allocation, host_id: u32) -> (res: AllocationVerdict)
        requires
            self.wf(),
        ensures
            res == allocation_verdict(self@, *alloc, host_id),
    {
        let mut i: usize = 0;
        while i < self.hosts.len()
            invariant
                self.wf(),
                i <= self.hosts@.len(),
                forall|j: int| 0 <= j < i ==> self.hosts@[j].id != host_id,
            decreases self.hosts@.len() - i,
        {
            if self.hosts[i].id == host_id {
                proof {
                    lemma_find_host_at(self@, i as int);
                }
                let host = &self.hosts[i];
                if host.cpu_available < alloc.cpu_usage {
                    return AllocationVerdict::NotEnoughCPU;
                }
                if host.memory_available < alloc.memory_usage {
                    return AllocationVerdict::NotEnoughMemory;
                }
                return AllocationVerdict::Success;
            }
            i = i + 1;
        }
        AllocationVerdict::HostNotFound
    }

    /// The free CPU of host `host_id`.
    pub fn get_available_cpu(&self, host_id: u32) -> (res: u32)
        requires
            self.wf(),
            find_host(self@, host_id) is Some,
        ensures
            res == find_host(self@, host_id)->0.cpu_available,
    {
        let mut i: usize = 0;
        while i < self.hosts.len()
            invariant
                self.wf(),
                find_host(self@, host_id) is Some,
                i <= self.hosts@.len(),
                forall|j: int| 0 <= j < i ==> self.hosts@[j].id != host_id,
            decreases self.hosts@.len() - i,
        {
            if self.hosts[i].id == host_id {
                proof {
                    lemma_find_host_at(self@, i as int);
                }
                return self.hosts[i].cpu_available;
            }
            i = i + 1;
        }
        proof {
            let k = choose|k: int| 0 <= k < self.hosts@.len() && self.hosts@[k].id == host_id;
            assert(self.hosts@[k].id == host_id);
        }
        0
    }
}


/// `hosts[k]` is the first host of `hosts` that `alloc` fits.
pub open spec fn first_fit_at(hosts: Seq<HostInfo>, alloc: Allocation, k: int) -> bool {
    &&& 0 <= k < hosts.len()
    &&& fits(hosts[k], alloc)
    &&& forall|j: int| 0 <= j < k ==> !fits(#[trigger] hosts[j], alloc)
}

/// `hosts[k]` is the host that `alloc` fits with the least free CPU, the first
/// such host where several tie.
pub open spec fn best_fit_at(hosts: Seq<HostInfo>, alloc: Allocation, k: int) -> bool {
    &&& 0 <= k < hosts.len()
    &&& fits(hosts[k], alloc)
    &&& forall|j: int|
        0 <= j < k && fits(#[trigger] hosts[j], alloc) ==> hosts[j].cpu_available
            > hosts[k].cpu_available
    &&& forall|j: int|
        k < j < hosts.len() && fits(#[trigger] hosts[j], alloc) ==> hosts[j].cpu_available
            >= hosts[k].cpu_available
}

/// `hosts[k]` is the host that `alloc` fits with the most free CPU, the first
/// such host where several tie.
pub open spec fn worst_fit_at(hosts: Seq<HostInfo>, alloc: Allocation, k: int) -> bool {
    &&& 0 <= k < hosts.len()
    &&& fits(hosts[k], alloc)
    &&& forall|j: int|
        0 <= j < k && fits(#[trigger] hosts[j], alloc) ==> hosts[j].cpu_available
            < hosts[k].cpu_available
    &&& forall|j: int|
        k < j < hosts.len() && fits(#[trigger] hosts[j], alloc) ==> hosts[j].cpu_available
            <= hosts[k].cpu_available
}

/// No host of `hosts` has room for `alloc`.
pub open spec fn no_room(hosts: Seq<HostInfo>, alloc: Allocation) -> bool {
    forall|j: int| 0 <= j < hosts.len() ==> !fits(#[trigger] hosts[j], alloc)
}

/// `res` is what first fit chooses: the identifier of the first host with
/// room, or `None` when no host has room.
pub open spec fn first_fit_choice(hosts: Seq<HostInfo>, alloc: Allocation, res: Option<u32>) -> bool {
    match res {
        Some(id) => exists|k: int| first_fit_at(hosts, alloc, k) && #[trigger] hosts[k].id == id,
        None => no_room(hosts, alloc),
    }
}

/// `res` is what best fit chooses.
pub open spec fn best_fit_choice(hosts: Seq<HostInfo>, alloc: Allocation, res: Option<u32>) -> bool {
    match res {
        Some(id) => exists|k: int| best_fit_at(hosts, alloc, k) && #[trigger] hosts[k].id == id,
        None => no_room(hosts, alloc),
    }
}

/// `res` is what worst fit chooses.
pub open spec fn worst_fit_choice(hosts: Seq<HostInfo>, alloc: Allocation, res: Option<u32>) -> bool {
    match res {
        Some(id) => exists|k: int| worst_fit_at(hosts, alloc, k) && #[trigger] hosts[k].id == id,
        None => no_room(hosts, alloc),
    }
}

/// A virtual machine placement policy: given an allocation request and the
/// current state of the resource pool, it names the host to place the machine
/// on, or `None` when it finds no suitable host.
pub trait VMPlacementAlgorithm: Sized {
    /// Applies policy parameters given as text; by default a policy takes none
    /// and stays as it is.
    fn parse_config_args(&mut self, config_string: String)
        default_ensures
            *final(self) == *old(self),
    {
    }

    fn select_host(&self, alloc: &Allocation, pool_state: &ResourcePoolState) -> (res: Option<u32>)
        requires
            pool_state.wf(),
    ;
}

/// Tells, by asking the pool, whether `alloc` fits the host at position `i`
/// of the host list.
fn fits_host_at(pool_state: &ResourcePoolState, alloc: &Allocation, hosts: &Vec<u32>, i: usize) -> (res: bool)
    requires
        pool_state.wf(),
        hosts@.len() == pool_state@.len(),
        forall|j: int| 0 <= j < hosts@.len() ==> hosts@[j] == pool_state@[j].id,
        i < hosts@.len(),
    ensures
        res == fits(pool_state@[i as int], *alloc),
{
    proof {
        lemma_find_host_at(pool_state@, i as int);
    }
    pool_state.can_allocate(alloc, hosts[i]) == AllocationVerdict::Success
}

/// The free CPU of the host at position `i` of the host list.
fn cpu_of_host_at(pool_state: &ResourcePoolState, hosts: &Vec<u32>, i: usize) -> (res: u32)
    requires
        pool_state.wf(),
        hosts@.len() == pool_state@.len(),
        forall|j: int| 0 <= j < hosts@.len() ==> hosts@[j] == pool_state@[j].id,
        i < hosts@.len(),
    ensures
        res == pool_state@[i as int].cpu_available,
{
    proof {
        lemma_find_host_at(pool_state@, i as int);
    }
    pool_state.get_available_cpu(hosts[i])
}

/// Places a machine on the first host, by increasing identifier, that has room for it.
pub struct FirstFit;

impl FirstFit {
    pub fn new() -> Self {
        FirstFit
    }
}

impl VMPlacementAlgorithm for FirstFit {
    fn select_host(&self, alloc: &Allocation, pool_state: &ResourcePoolState) -> (res: Option<u32>)
        ensures
            first_fit_choice(pool_state@, *alloc, res),
            res matches Some(id) ==> allocation_verdict(pool_state@, *alloc, id) == AllocationVerdict::Success,
    {
        let hosts = pool_state.get_hosts_list();
        let mut i: usize = 0;
        while i < hosts.len()
            invariant
                pool_state.wf(),
                hosts@.len() == pool_state@.len(),
                forall|j: int| 0 <= j < hosts@.len() ==> hosts@[j] == pool_state@[j].id,
                i <= hosts@.len(),
                forall|j: int| 0 <= j < i ==> !fits(#[trigger] pool_state@[j], *alloc),
            decreases hosts@.len() - i,
        {
            if fits_host_at(pool_state, alloc, &hosts, i) {
                proof {
                    lemma_find_host_at(pool_state@, i as int);
                    assert(first_fit_at(pool_state@, *alloc, i as int));
                }
                return Some(hosts[i]);
            }
            i = i + 1;
        }
        None
    }
}

/// Places a machine on the host with the least free CPU (the most loaded
/// host) among those that have room for it.
pub struct BestFit;

impl BestFit {
    pub fn new() -> Self {
        BestFit
    }
}

impl VMPlacementAlgorithm for BestFit {
    fn select_host(&self, alloc: &Allocation, pool_state: &ResourcePoolState) -> (res: Option<u32>)
        ensures
            best_fit_choice(pool_state@, *alloc, res),
            res matches Some(id) ==> allocation_verdict(pool_state@, *alloc, id) == AllocationVerdict::Success,
    {
        let hosts = pool_state.get_hosts_list();
        let mut result: Option<u32> = None;
        let mut min_available_cpu: u32 = u32::MAX;
        let ghost mut best: int = -1;
        let mut i: usize = 0;
        while i < hosts.len()
            invariant
                pool_state.wf(),
                hosts@.len() == pool_state@.len(),
                forall|j: int| 0 <= j < hosts@.len() ==> hosts@[j] == pool_state@[j].id,
                i <= hosts@.len(),
                -1 <= best < i,
                best == -1 ==> result is None && forall|j: int| 0 <= j < i ==> !fits(#[trigger] pool_state@[j], *alloc),
                best >= 0 ==> result == Some(pool_state@[best].id)
                    && min_available_cpu == pool_state@[best].cpu_available
                    && fits(pool_state@[best], *alloc),
                forall|j: int|
                    0 <= j < i && fits(#[trigger] pool_state@[j], *alloc) ==> pool_state@[j].cpu_available
                        >= min_available_cpu,
                forall|j: int|
                    0 <= j < best && fits(#[trigger] pool_state@[j], *alloc) ==> pool_state@[j].cpu_available
                        > min_available_cpu,
            decreases hosts@.len() - i,
        {
            if fits_host_at(pool_state, alloc, &hosts, i) {
                let cpu = cpu_of_host_at(pool_state, &hosts, i);
                if result.is_none() || cpu < min_available_cpu {
                    min_available_cpu = cpu;
                    result = Some(hosts[i]);
                    proof {
                        best = i as int;
                    }
                }
            }
            i = i + 1;
        }
        proof {
            if best >= 0 {
                lemma_find_host_at(pool_state@, best);
                assert(best_fit_at(pool_state@, *alloc, best));
            }
        }
        result
    }
}

/// Places a machine on the host with the most free CPU (the least loaded
/// host) among those that have room for it.
pub struct WorstFit;

impl WorstFit {
    pub fn new() -> Self {
        WorstFit
    }
}

impl VMPlacementAlgorithm for WorstFit {
    fn select_host(&self, alloc: &Allocation, pool_state: &ResourcePoolState) -> (res: Option<u32>)
        ensures
            worst_fit_choice(pool_state@, *alloc, res),
            res matches Some(id) ==> allocation_verdict(pool_state@, *alloc, id) == AllocationVerdict::Success,
    {
        let hosts = pool_state.get_hosts_list();
        let mut result: Option<u32> = None;
        let mut max_available_cpu: u32 = 0;
        let ghost mut best: int = -1;
        let mut i: usize = 0;
        while i < hosts.len()
            invariant
                pool_state.wf(),
                hosts@.len() == pool_state@.len(),
                forall|j: int| 0 <= j < hosts@.len() ==> hosts@[j] == pool_state@[j].id,
                i <= hosts@.len(),
                -1 <= best < i,
                best == -1 ==> result is None && forall|j: int| 0 <= j < i ==> !fits(#[trigger] pool_state@[j], *alloc),
                best >= 0 ==> result == Some(pool_state@[best].id)
                    && max_available_cpu == pool_state@[best].cpu_available
                    && fits(pool_state@[best], *alloc),
                forall|j: int|
                    0 <= j < i && fits(#[trigger] pool_state@[j], *alloc) ==> pool_state@[j].cpu_available
                        <= max_available_cpu,
                forall|j: int|
                    0 <= j < best && fits(#[trigger] pool_state@[j], *alloc) ==> pool_state@[j].cpu_available
                        < max_available_cpu,
            decreases hosts@.len() - i,
        {
            if fits_host_at(pool_state, alloc, &hosts, i) {
                let cpu = cpu_of_host_at(pool_state, &hosts, i);
                if result.is_none() || cpu > max_available_cpu {
                    max_available_cpu = cpu;
                    result = Some(hosts[i]);
                    proof {
                        best = i as int;
                    }
                }
            }
            i = i + 1;
        }
        proof {
            if best >= 0 {
                lemma_find_host_at(pool_state@, best);
                assert(worst_fit_at(pool_state@, *alloc, best));
            }
        }
        result
    }
}


/// After a host is added to an ordered pool, looking its identifier up gives
/// that host, and every other identifier gives what it gave before.
pub proof fn law_find_after_add_host(before: Seq<HostInfo>, after: Seq<HostInfo>, host: HostInfo, id: u32)
    requires
        ids_increasing(before),
        ids_increasing(after),
        forall|h: HostInfo| after.contains(h) <==> (h == host || (before.contains(h) && h.id != host.id)),
    ensures
        find_host(after, host.id) == Some(host),
        id != host.id ==> find_host(after, id) == find_host(before, id),
{
    assert(after.contains(host));
    let k = choose|k: int| 0 <= k < after.len() && after[k] == host;
    lemma_find_host_at(after, k);
    if id != host.id {
        if exists|i: int| 0 <= i < after.len() && after[i].id == id {
            let i = choose|i: int| 0 <= i < after.len() && after[i].id == id;
            lemma_find_host_at(after, i);
            assert(after.contains(after[i]));
            assert(before.contains(after[i]));
            let j = choose|j: int| 0 <= j < before.len() && before[j] == after[i];
            lemma_find_host_at(before, j);
        } else if exists|j: int| 0 <= j < before.len() && before[j].id == id {
            let j = choose|j: int| 0 <= j < before.len() && before[j].id == id;
            assert(before.contains(before[j]));
            assert(after.contains(before[j]));
        }
    }
}

/// The three policies agree on whether a machine can be placed at all: each
/// finds a host exactly when some host has room.
pub proof fn law_policies_agree_on_placement(
    hosts: Seq<HostInfo>,
    alloc: Allocation,
    first: Option<u32>,
    best: Option<u32>,
    worst: Option<u32>,
)
    requires
        first_fit_choice(hosts, alloc, first),
        best_fit_choice(hosts, alloc, best),
        worst_fit_choice(hosts, alloc, worst),
    ensures
        first is Some <==> !no_room(hosts, alloc),
        best is Some <==> !no_room(hosts, alloc),
        worst is Some <==> !no_room(hosts, alloc),
{
    if first is Some {
        let k = choose|k: int| first_fit_at(hosts, alloc, k) && #[trigger] hosts[k].id == first->0;
        assert(fits(hosts[k], alloc));
    }
    if best is Some {
        let k = choose|k: int| best_fit_at(hosts, alloc, k) && #[trigger] hosts[k].id == best->0;
        assert(fits(hosts[k], alloc));
    }
    if worst is Some {
        let k = choose|k: int| worst_fit_at(hosts, alloc, k) && #[trigger] hosts[k].id == worst->0;
        assert(fits(hosts[k], alloc));
    }
}

/// The host best fit chooses never has more free CPU than the host worst fit
/// chooses for the same machine.
pub proof fn law_best_fit_not_above_worst_fit(hosts: Seq<HostInfo>, alloc: Allocation, best: u32, worst: u32)
    requires
        ids_increasing(hosts),
        best_fit_choice(hosts, alloc, Some(best)),
        worst_fit_choice(hosts, alloc, Some(worst)),
    ensures
        find_host(hosts, best)->0.cpu_available <= find_host(hosts, worst)->0.cpu_available,
{
    let b = choose|k: int| best_fit_at(hosts, alloc, k) && #[trigger] hosts[k].id == best;
    let w = choose|k: int| worst_fit_at(hosts, alloc, k) && #[trigger] hosts[k].id == worst;
    lemma_find_host_at(hosts, b);
    lemma_find_host_at(hosts, w);
    if b < w {
        assert(fits(hosts[b], alloc));
    } else if w < b {
        assert(fits(hosts[w], alloc));
    }
}

/// First fit chooses a host whose identifier is no greater than that of the
/// host best fit or worst fit chooses.
pub proof fn law_first_fit_takes_least_identifier(hosts: Seq<HostInfo>, alloc: Allocation, first: u32, other: u32)
    requires
        ids_increasing(hosts),
        first_fit_choice(hosts, alloc, Some(first)),
        best_fit_choice(hosts, alloc, Some(other)) || worst_fit_choice(hosts, alloc, Some(other)),
    ensures
        first <= other,
{
    let f = choose|k: int| first_fit_at(hosts, alloc, k) && #[trigger] hosts[k].id == first;
    let o = if best_fit_choice(hosts, alloc, Some(other)) {
        choose|k: int| best_fit_at(hosts, alloc, k) && #[trigger] hosts[k].id == other
    } else {
        choose|k: int| worst_fit_at(hosts, alloc, k) && #[trigger] hosts[k].id == other
    };
    assert(fits(hosts[o], alloc));
    if o < f {
        assert(!fits(hosts[o], alloc));
    }
    if f < o {
        assert(hosts[f].id < hosts[o].id);
    }
}

} // verus!
