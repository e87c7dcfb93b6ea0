use vstd::prelude::*;
use crate::stats::{IpAddress, PacketStats, TrafficEvent, bump_stats, zero_stats};

verus! {

/// The per-address stats of one interface, stored as an association list
/// with pairwise-distinct addresses.
#[derive(Clone, Copy, PartialEq, Eq, Structural, Debug)]
pub struct IpEntry {
    pub ip: IpAddress,
    pub stats: PacketStats,
}

/// The mapping an entry list denotes: later entries win, though with
/// distinct addresses every entry is the one for its address.
pub open spec fn ip_map(s: Seq<IpEntry>) -> Map<IpAddress, PacketStats>
    decreases s.len(),
{
    if s.len() == 0 {
        Map::empty()
    } else {
        ip_map(s.drop_last()).insert(s.last().ip, s.last().stats)
    }
}

pub open spec fn ips_unique(s: Seq<IpEntry>) -> bool {
    forall|i: int, j: int| 0 <= i < j < s.len() ==> s[i].ip != s[j].ip
}

/// All stats gathered on one interface.
#[derive(Clone, Debug)]
pub struct InterfaceStats {
    pub name: Vec<u8>,
    pub entries: Vec<IpEntry>,
}

impl InterfaceStats {
    pub open spec fn wf(self) -> bool {
        ips_unique(self.entries@)
    }
}

impl View for InterfaceStats {
    type V = Map<IpAddress, PacketStats>;

    open spec fn view(&self) -> Map<IpAddress, PacketStats> {
        ip_map(self.entries@)
    }
}

/// The mapping a table's interface list denotes, keyed by interface name.
pub open spec fn tbl_map(s: Seq<InterfaceStats>) -> Map<Seq<u8>, Map<IpAddress, PacketStats>>
    decreases s.len(),
{
    if s.len() == 0 {
        Map::empty()
    } else {
        tbl_map(s.drop_last()).insert(s.last().name@, ip_map(s.last().entries@))
    }
}

pub open spec fn names_unique(s: Seq<InterfaceStats>) -> bool {
    forall|i: int, j: int| 0 <= i < j < s.len() ==> s[i].name@ != s[j].name@
}

/// The aggregated counters for every interface and source address: the one
/// piece of shared mutable state of the pipeline, owned by its aggregator.
#[derive(Clone, Debug)]
pub struct CounterTable {
    pub ifaces: Vec<InterfaceStats>,
}

/// The stats a table holds for a key, zero when the key is absent.
pub open spec fn stats_at(
    m: Map<Seq<u8>, Map<IpAddress, PacketStats>>,
    iface: Seq<u8>,
    ip: IpAddress,
) -> PacketStats {
    if m.dom().contains(iface) && m[iface].dom().contains(ip) {
        m[iface][ip]
    } else {
        zero_stats()
    }
}

/// What one applied event does to the mapping: the key's stats grow by one
/// frame of `size` bytes; every other key is untouched.
pub open spec fn table_apply(
    m: Map<Seq<u8>, Map<IpAddress, PacketStats>>,
    iface: Seq<u8>,
    ip: IpAddress,
    size: u64,
) -> Map<Seq<u8>, Map<IpAddress, PacketStats>> {
    let sub = if m.dom().contains(iface) {
        m[iface]
    } else {
        Map::empty()
    };
    m.insert(iface, sub.insert(ip, bump_stats(stats_at(m, iface, ip), size)))
}

pub(crate) proof fn lemma_ip_map_dom(s: Seq<IpEntry>)
    ensures
        forall|ip: IpAddress|
            #[trigger] ip_map(s).dom().contains(ip) <==> exists|k: int| 0 <= k < s.len() && s[k].ip == ip,
    decreases s.len(),
{
    if s.len() > 0 {
        lemma_ip_map_dom(s.drop_last());
        assert(ip_map(s) == ip_map(s.drop_last()).insert(s.last().ip, s.last().stats));
        assert forall|ip: IpAddress| #[trigger] ip_map(s).dom().contains(ip) implies
            exists|k: int| 0 <= k < s.len() && s[k].ip == ip by {
            if ip == s.last().ip {
                assert(s[s.len() - 1].ip == ip);
            } else {
                assert(ip_map(s.drop_last()).dom().contains(ip));
                let k = choose|k: int| 0 <= k < s.drop_last().len() && s.drop_last()[k].ip == ip;
                assert(s[k].ip == ip);
            }
        }
        assert forall|ip: IpAddress|
            (exists|k: int| 0 <= k < s.len() && s[k].ip == ip) implies #[trigger] ip_map(s).dom().contains(ip) by {
            let k = choose|k: int| 0 <= k < s.len() && s[k].ip == ip;
            if k < s.len() - 1 {
                assert(s.drop_last()[k].ip == ip);
                assert(ip_map(s.drop_last()).dom().contains(ip));
            }
        }
    }
}

pub(crate) proof fn lemma_ip_map_at(s: Seq<IpEntry>, k: int)
    requires
        ips_unique(s),
        0 <= k < s.len(),
    ensures
        ip_map(s).dom().contains(s[k].ip),
        ip_map(s)[s[k].ip] == s[k].stats,
    decreases s.len(),
{
    if k < s.len() - 1 {
        assert(s.drop_last()[k] == s[k]);
        lemma_ip_map_at(s.drop_last(), k);
        assert(s[k].ip != s.last().ip);
    }
}

proof fn lemma_ip_map_update(s: Seq<IpEntry>, k: int, e: IpEntry)
    requires
        ips_unique(s),
        0 <= k < s.len(),
        e.ip == s[k].ip,
    ensures
        ip_map(s.update(k, e)) =~= ip_map(s).insert(e.ip, e.stats),
    decreases s.len(),
{
    if k == s.len() - 1 {
        assert(s.update(k, e).drop_last() =~= s.drop_last());
        assert(s.update(k, e).last() == e);
    } else {
        assert(s.update(k, e).drop_last() =~= s.drop_last().update(k, e));
        lemma_ip_map_update(s.drop_last(), k, e);
        assert(s.last().ip != e.ip);
        assert(s.update(k, e).last() == s.last());
    }
}

proof fn lemma_ip_map_push(s: Seq<IpEntry>, e: IpEntry)
    ensures
        ip_map(s.push(e)) == ip_map(s).insert(e.ip, e.stats),
{
    assert(s.push(e).drop_last() =~= s);
    assert(s.push(e).last() == e);
}

pub(crate) proof fn lemma_tbl_map_dom(s: Seq<InterfaceStats>)
    ensures
        forall|n: Seq<u8>|
            #[trigger] tbl_map(s).dom().contains(n) <==> exists|k: int| 0 <= k < s.len() && s[k].name@ == n,
    decreases s.len(),
{
    if s.len() > 0 {
        lemma_tbl_map_dom(s.drop_last());
        assert(tbl_map(s) == tbl_map(s.drop_last()).insert(s.last().name@, ip_map(s.last().entries@)));
        assert forall|n: Seq<u8>| #[trigger] tbl_map(s).dom().contains(n) implies
            exists|k: int| 0 <= k < s.len() && s[k].name@ == n by {
            if n == s.last().name@ {
                assert(s[s.len() - 1].name@ == n);
            } else {
                assert(tbl_map(s.drop_last()).dom().contains(n));
                let k = choose|k: int| 0 <= k < s.drop_last().len() && s.drop_last()[k].name@ == n;
                assert(s[k].name@ == n);
            }
        }
        assert forall|n: Seq<u8>|
            (exists|k: int| 0 <= k < s.len() && s[k].name@ == n) implies #[trigger] tbl_map(s).dom().contains(n) by {
            let k = choose|k: int| 0 <= k < s.len() && s[k].name@ == n;
            if k < s.len() - 1 {
                assert(s.drop_last()[k].name@ == n);
                assert(tbl_map(s.drop_last()).dom().contains(n));
            }
        }
    }
}

pub(crate) proof fn lemma_tbl_map_at(s: Seq<InterfaceStats>, k: int)
    requires
        names_unique(s),
        0 <= k < s.len(),
    ensures
        tbl_map(s).dom().contains(s[k].name@),
        tbl_map(s)[s[k].name@] == ip_map(s[k].entries@),
    decreases s.len(),
{
    if k < s.len() - 1 {
        assert(s.drop_last()[k] == s[k]);
        lemma_tbl_map_at(s.drop_last(), k);
        assert(s[k].name@ != s.last().name@);
    }
}

proof fn lemma_tbl_map_update(s: Seq<InterfaceStats>, k: int, e: InterfaceStats)
    requires
        names_unique(s),
        0 <= k < s.len(),
        e.name@ == s[k].name@,
    ensures
        tbl_map(s.update(k, e)) =~= tbl_map(s).insert(e.name@, ip_map(e.entries@)),
    decreases s.len(),
{
    if k == s.len() - 1 {
        assert(s.update(k, e).drop_last() =~= s.drop_last());
        assert(s.update(k, e).last() == e);
    } else {
        assert(s.update(k, e).drop_last() =~= s.drop_last().update(k, e));
        lemma_tbl_map_update(s.drop_last(), k, e);
        assert(s.last().name@ != e.name@);
        assert(s.update(k, e).last() == s.last());
    }
}

proof fn lemma_tbl_map_push(s: Seq<InterfaceStats>, e: InterfaceStats)
    ensures
        tbl_map(s.push(e)) == tbl_map(s).insert(e.name@, ip_map(e.entries@)),
{
    assert(s.push(e).drop_last() =~= s);
    assert(s.push(e).last() == e);
}

/// Byte-for-byte equality of two byte strings.
pub fn bytes_eq(a: &Vec<u8>, b: &Vec<u8>) -> (r: bool)
    ensures
        r <==> a@ == b@,
{
    if a.len() != b.len() {
        return false;
    }
    let mut i: usize = 0;
    while i < a.len()
        invariant
            i <= a@.len(),
            a@.len() == b@.len(),
            forall|j: int| 0 <= j < i ==> a@[j] == b@[j],
        decreases a@.len() - i,
    {
        if a[i] != b[i] {
            return false;
        }
        i += 1;
    }
    proof {
        assert(a@ =~= b@);
    }
    true
}

impl InterfaceStats {
    /// The position of an address in the entry list, if it is there.
    fn find_ip(&self, ip: IpAddress) -> (r: Option<usize>)
        ensures
            match r {
                Some(k) => k < self.entries@.len() && self.entries@[k as int].ip == ip,
                None => forall|k: int| 0 <= k < self.entries@.len() ==> self.entries@[k].ip != ip,
            },
    {
        let mut i: usize = 0;
        while i < self.entries.len()
            invariant
                i <= self.entries@.len(),
                forall|k: int| 0 <= k < i ==> self.entries@[k].ip != ip,
            decreases self.entries@.len() - i,
        {
            if self.entries[i].ip == ip {
                return Some(i);
            }
            i += 1;
        }
        None
    }

    /// Put the stats for one address in place, as loading a snapshot does:
    /// whatever the entry held is replaced.
    pub fn upsert(&mut self, ip: IpAddress, stats: PacketStats)
        requires
            old(self).wf(),
        ensures
            final(self).wf(),
            final(self).name@ == old(self).name@,
            final(self)@ == old(self)@.insert(ip, stats),
    {
        match self.find_ip(ip) {
            Some(k) => {
                proof {
                    lemma_ip_map_update(self.entries@, k as int, IpEntry { ip, stats });
                }
                self.entries.set(k, IpEntry { ip, stats });
            },
            None => {
                proof {
                    lemma_ip_map_push(self.entries@, IpEntry { ip, stats });
                }
                self.entries.push(IpEntry { ip, stats });
            },
        }
    }

    /// Attribute one more frame of `size` bytes to `ip` on this interface.
    pub fn add(&mut self, ip: IpAddress, size: u64)
        requires
            old(self).wf(),
        ensures
            final(self).wf(),
            final(self).name@ == old(self).name@,
            final(self)@ == old(self)@.insert(
                ip,
                bump_stats(
                    if old(self)@.dom().contains(ip) {
                        old(self)@[ip]
                    } else {
                        zero_stats()
                    },
                    size,
                ),
            ),
    {
        proof {
            lemma_ip_map_dom(self.entries@);
        }
        match self.find_ip(ip) {
            Some(k) => {
                let e = self.entries[k];
                let ns = PacketStats {
                    count: e.stats.count.saturating_add(1),
                    size: e.stats.size.saturating_add(size),
                };
                proof {
                    lemma_ip_map_at(self.entries@, k as int);
                    lemma_ip_map_update(self.entries@, k as int, IpEntry { ip, stats: ns });
                }
                self.entries.set(k, IpEntry { ip, stats: ns });
            },
            None => {
                proof {
                    lemma_ip_map_push(self.entries@, IpEntry { ip, stats: bump_stats(zero_stats(), size) });
                }
                let st = PacketStats { count: 1, size };
                self.entries.push(IpEntry { ip, stats: st });
            },
        }
    }
}

impl View for CounterTable {
    type V = Map<Seq<u8>, Map<IpAddress, PacketStats>>;

    open spec fn view(&self) -> Map<Seq<u8>, Map<IpAddress, PacketStats>> {
        tbl_map(self.ifaces@)
    }
}

impl CounterTable {
    pub open spec fn wf(self) -> bool {
        &&& names_unique(self.ifaces@)
        &&& forall|k: int| 0 <= k < self.ifaces@.len() ==> (#[trigger] self.ifaces@[k]).wf()
    }

    /// A table with no keys at all.
    pub fn new() -> (r: Self)
        ensures
            r.wf(),
            r@ == Map::<Seq<u8>, Map<IpAddress, PacketStats>>::empty(),
    {
        CounterTable { ifaces: Vec::new() }
    }

    /// The position of an interface in the list, if it is there.
    fn find_iface(&self, name: &Vec<u8>) -> (r: Option<usize>)
        ensures
            match r {
                Some(k) => k < self.ifaces@.len() && self.ifaces@[k as int].name@ == name@,
                None => forall|k: int| 0 <= k < self.ifaces@.len() ==> self.ifaces@[k].name@ != name@,
            },
    {
        let mut i: usize = 0;
        while i < self.ifaces.len()
            invariant
                i <= self.ifaces@.len(),
                forall|k: int| 0 <= k < i ==> self.ifaces@[k].name@ != name@,
            decreases self.ifaces@.len() - i,
        {
            if bytes_eq(&self.ifaces[i].name, name) {
                return Some(i);
            }
            i += 1;
        }
        None
    }

    /// Put a whole interface row in place, as loading a snapshot does:
    /// whatever the table held under that name is replaced.
    pub fn upsert_iface(&mut self, iface: InterfaceStats)
        requires
            old(self).wf(),
            iface.wf(),
        ensures
            final(self).wf(),
            final(self)@ == old(self)@.insert(iface.name@, iface@),
    {
        proof {
            lemma_tbl_map_dom(self.ifaces@);
        }
        match self.find_iface(&iface.name) {
            Some(j) => {
                proof {
                    lemma_tbl_map_update(self.ifaces@, j as int, iface);
                }
                self.ifaces.set(j, iface);
            },
            None => {
                proof {
                    lemma_tbl_map_push(self.ifaces@, iface);
                }
                self.ifaces.push(iface);
            },
        }
    }

    /// Apply one traffic event: create the key if it is new, then grow its
    /// count by one and its size by the event's frame size (saturating).
    pub fn record(&mut self, interface: Vec<u8>, ip: IpAddress, size: u64)
        requires
            old(self).wf(),
        ensures
            final(self).wf(),
            final(self)@ == table_apply(old(self)@, interface@, ip, size),
    {
        proof {
            lemma_tbl_map_dom(self.ifaces@);
        }
        match self.find_iface(&interface) {
            Some(j) => {
                proof {
                    lemma_tbl_map_at(self.ifaces@, j as int);
                }
                let ghost old_ifaces = self.ifaces@;
                self.ifaces[j].add(ip, size);
                proof {
                    lemma_tbl_map_update(old_ifaces, j as int, self.ifaces@[j as int]);
                    assert(final(self)@ =~= table_apply(old(self)@, interface@, ip, size));
                }
            },
            None => {
                let mut entries: Vec<IpEntry> = Vec::new();
                let st = PacketStats { count: 1, size };
                entries.push(IpEntry { ip, stats: st });
                let ns = InterfaceStats { name: interface, entries };
                proof {
                    lemma_tbl_map_push(self.ifaces@, ns);
                    assert(ns.entries@.drop_last() =~= Seq::<IpEntry>::empty());
                    assert(ip_map(ns.entries@) == ip_map(Seq::<IpEntry>::empty()).insert(ip, st));
                    assert(st == bump_stats(zero_stats(), size));
                }
                self.ifaces.push(ns);
                proof {
                    assert(final(self)@ =~= table_apply(old(self)@, interface@, ip, size));
                }
            },
        }
    }

    /// Apply one traffic event, consuming it.
    pub fn apply_event(&mut self, e: TrafficEvent)
        requires
            old(self).wf(),
        ensures
            final(self).wf(),
            final(self)@ == table_apply(old(self)@, e.interface@, e.source_ip, e.frame_size),
    {
        let TrafficEvent { interface, source_ip, frame_size } = e;
        self.record(interface, source_ip, frame_size);
    }

    /// The stats held for a key, if the key is present.
    pub fn get(&self, interface: &Vec<u8>, ip: IpAddress) -> (r: Option<PacketStats>)
        requires
            self.wf(),
        ensures
            r == if self@.dom().contains(interface@) && self@[interface@].dom().contains(ip) {
                Some(self@[interface@][ip])
            } else {
                None::<PacketStats>
            },
    {
        proof {
            lemma_tbl_map_dom(self.ifaces@);
        }
        match self.find_iface(interface) {
            Some(j) => {
                proof {
                    lemma_tbl_map_at(self.ifaces@, j as int);
                    lemma_ip_map_dom(self.ifaces@[j as int].entries@);
                }
                let iface = &self.ifaces[j];
                match iface.find_ip(ip) {
                    Some(k) => {
                        proof {
                            lemma_ip_map_at(iface.entries@, k as int);
                        }
                        Some(iface.entries[k].stats)
                    },
                    None => None,
                }
            },
            None => None,
        }
    }
}

/// Applying a run of events that all carry one (interface, address) key,
/// given as the frame sizes of the run.
pub open spec fn table_apply_sizes(
    m: Map<Seq<u8>, Map<IpAddress, PacketStats>>,
    iface: Seq<u8>,
    ip: IpAddress,
    sizes: Seq<u64>,
) -> Map<Seq<u8>, Map<IpAddress, PacketStats>>
    decreases sizes.len(),
{
    if sizes.len() == 0 {
        m
    } else {
        table_apply(table_apply_sizes(m, iface, ip, sizes.drop_last()), iface, ip, sizes.last())
    }
}

/// The total of a run of frame sizes.
pub open spec fn sum_sizes(sizes: Seq<u64>) -> int
    decreases sizes.len(),
{
    if sizes.len() == 0 {
        0
    } else {
        sum_sizes(sizes.drop_last()) + sizes.last()
    }
}

proof fn lemma_sum_sizes_bounds(sizes: Seq<u64>)
    ensures
        0 <= sum_sizes(sizes),
        sizes.len() > 0 ==> sum_sizes(sizes.drop_last()) <= sum_sizes(sizes),
    decreases sizes.len(),
{
    if sizes.len() > 0 {
        lemma_sum_sizes_bounds(sizes.drop_last());
    }
}

/// Additivity: a finite run of events for one fixed key leaves that key with
/// exactly `count + n` frames and `size + sum` bytes, whatever the order the
/// run arrived in — the result depends only on the run's length and total.
pub proof fn lemma_additivity(
    m: Map<Seq<u8>, Map<IpAddress, PacketStats>>,
    iface: Seq<u8>,
    ip: IpAddress,
    sizes: Seq<u64>,
)
    requires
        stats_at(m, iface, ip).count + sizes.len() <= u64::MAX,
        stats_at(m, iface, ip).size + sum_sizes(sizes) <= u64::MAX,
    ensures
        stats_at(table_apply_sizes(m, iface, ip, sizes), iface, ip) == (PacketStats {
            count: (stats_at(m, iface, ip).count + sizes.len()) as u64,
            size: (stats_at(m, iface, ip).size + sum_sizes(sizes)) as u64,
        }),
    decreases sizes.len(),
{
    if sizes.len() > 0 {
        lemma_sum_sizes_bounds(sizes);
        lemma_sum_sizes_bounds(sizes.drop_last());
        lemma_additivity(m, iface, ip, sizes.drop_last());
        let m1 = table_apply_sizes(m, iface, ip, sizes.drop_last());
        assert(table_apply_sizes(m, iface, ip, sizes) == table_apply(m1, iface, ip, sizes.last()));
        assert(stats_at(m1, iface, ip).count == stats_at(m, iface, ip).count + sizes.len() - 1);
        assert(stats_at(m1, iface, ip).size == stats_at(m, iface, ip).size + sum_sizes(sizes.drop_last()));
        assert(stats_at(table_apply(m1, iface, ip, sizes.last()), iface, ip)
            == bump_stats(stats_at(m1, iface, ip), sizes.last()));
        assert(sum_sizes(sizes) == sum_sizes(sizes.drop_last()) + sizes.last());
    } else {
        assert(table_apply_sizes(m, iface, ip, sizes) == m);
        assert(sum_sizes(sizes) == 0);
    }
}

proof fn lemma_sum_sizes_fold(sizes: Seq<u64>)
    ensures
        sum_sizes(sizes) == sizes.fold_left(0int, |b: int, x: u64| b + x),
    decreases sizes.len(),
{
    if sizes.len() > 0 {
        lemma_sum_sizes_fold(sizes.drop_last());
    }
}

/// The total of a run of frame sizes does not depend on their order.
pub proof fn lemma_sum_sizes_permutation(s1: Seq<u64>, s2: Seq<u64>)
    requires
        s1.to_multiset() == s2.to_multiset(),
    ensures
        sum_sizes(s1) == sum_sizes(s2),
{
    let f = |b: int, x: u64| b + x;
    assert(vstd::seq_lib::commutative_foldl(f)) by {
        assert(forall|x: u64, y: u64, v: int| #[trigger] f(f(v, x), y) == f(f(v, y), x));
    }
    lemma_sum_sizes_fold(s1);
    lemma_sum_sizes_fold(s2);
    vstd::seq_lib::lemma_fold_left_permutation(s1, s2, f, 0int);
}

/// Additivity is independent of arrival order: two runs for one fixed key
/// that are rearrangements of one another leave that key with the same
/// stats.
pub proof fn lemma_additivity_any_order(
    m: Map<Seq<u8>, Map<IpAddress, PacketStats>>,
    iface: Seq<u8>,
    ip: IpAddress,
    sizes1: Seq<u64>,
    sizes2: Seq<u64>,
)
    requires
        sizes1.to_multiset() == sizes2.to_multiset(),
        stats_at(m, iface, ip).count + sizes1.len() <= u64::MAX,
        stats_at(m, iface, ip).size + sum_sizes(sizes1) <= u64::MAX,
    ensures
        stats_at(table_apply_sizes(m, iface, ip, sizes1), iface, ip) == stats_at(
            table_apply_sizes(m, iface, ip, sizes2),
            iface,
            ip,
        ),
{
    vstd::seq_lib::to_multiset_len(sizes1);
    vstd::seq_lib::to_multiset_len(sizes2);
    lemma_sum_sizes_permutation(sizes1, sizes2);
    lemma_additivity(m, iface, ip, sizes1);
    lemma_additivity(m, iface, ip, sizes2);
}

/// Isolation: an event for one interface never alters the counters held
/// under any other interface.
pub proof fn lemma_isolation(
    m: Map<Seq<u8>, Map<IpAddress, PacketStats>>,
    iface: Seq<u8>,
    ip: IpAddress,
    size: u64,
    other: Seq<u8>,
)
    requires
        other != iface,
    ensures
        table_apply(m, iface, ip, size).dom().contains(other) == m.dom().contains(other),
        m.dom().contains(other) ==> table_apply(m, iface, ip, size)[other] == m[other],
{
}

/// Isolation over a whole run of events for one fixed key.
pub proof fn lemma_isolation_sizes(
    m: Map<Seq<u8>, Map<IpAddress, PacketStats>>,
    iface: Seq<u8>,
    ip: IpAddress,
    sizes: Seq<u64>,
    other: Seq<u8>,
)
    requires
        other != iface,
    ensures
        table_apply_sizes(m, iface, ip, sizes).dom().contains(other) == m.dom().contains(other),
        m.dom().contains(other) ==> table_apply_sizes(m, iface, ip, sizes)[other] == m[other],
    decreases sizes.len(),
{
    if sizes.len() > 0 {
        lemma_isolation_sizes(m, iface, ip, sizes.drop_last(), other);
    }
}

} // verus!
