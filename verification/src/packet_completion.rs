//! Completion reporting: compares the multiset of packets delivered into
//! sink structures against a separately registered planned multiset, by
//! structural key (addresses, ports, protocol, length, label — progress
//! excluded) and independent of delivery order.

use vstd::prelude::*;
use vstd::seq_lib::group_to_multiset_ensures;
use vstd::seq_lib::lemma_multiset_commutative;
use vstd::multiset::Multiset;
use vstd::seq_lib::to_multiset_remove;

use crate::building::{Building, BuildingStateView, BuildingType, BuildingView};
use crate::building_storage::BuildingStorage;
use crate::dto::BuildingId;
use crate::packet::{Packet, PacketLabel, PacketView, Protocol};
use crate::world::World;

verus! {

/// The structural fingerprint of a packet used for completion matching.
#[derive(Debug)]
pub struct PacketKey {
    pub source_ip: String,
    pub dest_ip: String,
    pub source_port: u16,
    pub dest_port: u16,
    pub protocol: Protocol,
    pub length: u32,
    pub label: PacketLabel,
}

/// Spec-level image of a packet key.
pub struct PacketKeyView {
    pub source_ip: Seq<char>,
    pub dest_ip: Seq<char>,
    pub source_port: u16,
    pub dest_port: u16,
    pub protocol: Protocol,
    pub length: u32,
    pub label: PacketLabel,
}

impl View for PacketKey {
    type V = PacketKeyView;

    open spec fn view(&self) -> PacketKeyView {
        PacketKeyView {
            source_ip: self.source_ip@,
            dest_ip: self.dest_ip@,
            source_port: self.source_port,
            dest_port: self.dest_port,
            protocol: self.protocol,
            length: self.length,
            label: self.label,
        }
    }
}

/// The key a packet fingerprints to.
pub open spec fn spec_key_of(p: PacketView) -> PacketKeyView {
    PacketKeyView {
        source_ip: p.source_ip,
        dest_ip: p.dest_ip,
        source_port: p.source_port,
        dest_port: p.dest_port,
        protocol: p.protocol,
        length: p.length,
        label: p.label,
    }
}

/// The views of a key sequence.
pub open spec fn key_views(s: Seq<PacketKey>) -> Seq<PacketKeyView> {
    s.map_values(|k: PacketKey| k@)
}

impl PacketKey {
    /// Fingerprint a packet.
    pub fn from_core(packet: &Packet) -> (r: Self)
        ensures
            r@ == spec_key_of(packet@),
    {
        PacketKey {
            source_ip: packet.source_ip.clone(),
            dest_ip: packet.dest_ip.clone(),
            source_port: packet.source_port,
            dest_port: packet.dest_port,
            protocol: packet.protocol,
            length: packet.length,
            label: packet.label,
        }
    }

    /// Structural equality of two keys.
    pub fn key_eq(&self, other: &Self) -> (r: bool)
        ensures
            r == (self@ == other@),
    {
        let r = self.source_ip == other.source_ip && self.dest_ip == other.dest_ip
            && self.source_port == other.source_port && self.dest_port == other.dest_port
            && self.protocol == other.protocol && self.length == other.length && self.label
            == other.label;
        proof {
            if r {
                assert(self@ =~= other@);
            }
        }
        r
    }
}

/// One delivered packet together with the sink that retains it.
#[derive(Debug)]
pub struct PacketReport {
    pub building_type: BuildingType,
    pub building_id: BuildingId,
    pub packet: Packet,
}

/// Spec-level image of a report.
pub struct PacketReportView {
    pub building_type: BuildingType,
    pub building_id: BuildingId,
    pub packet: PacketView,
}

impl View for PacketReport {
    type V = PacketReportView;

    open spec fn view(&self) -> PacketReportView {
        PacketReportView {
            building_type: self.building_type,
            building_id: self.building_id,
            packet: self.packet@,
        }
    }
}

/// The views of a report sequence.
pub open spec fn report_views(s: Seq<PacketReport>) -> Seq<PacketReportView> {
    s.map_values(|r: PacketReport| r@)
}

/// The reports one sink structure contributes.
pub open spec fn spec_building_reports(b: BuildingView) -> Seq<PacketReportView> {
    match b.state {
        BuildingStateView::Datacenter { .. } | BuildingStateView::RecycleBin { .. } => {
            b.contained().map_values(
                |p: PacketView| PacketReportView {
                    building_type: b.btype(),
                    building_id: b.id,
                    packet: p,
                },
            )
        },
        _ => Seq::empty(),
    }
}

/// Every delivered packet in the world, in storage order, sink by sink.
pub open spec fn spec_delivered(s: Seq<BuildingView>) -> Seq<PacketReportView>
    decreases s.len(),
{
    if s.len() == 0 {
        Seq::empty()
    } else {
        spec_delivered(s.drop_last()) + spec_building_reports(s.last())
    }
}

/// The key multiset of a delivered-report sequence.
pub open spec fn spec_delivered_keys(reports: Seq<PacketReportView>) -> Seq<PacketKeyView> {
    reports.map_values(|r: PacketReportView| spec_key_of(r.packet))
}

/// The completion tracker owned by a session: the planned packet keys, or
/// nothing when no plan was registered.
pub struct CompletionTracker {
    planned: Option<Vec<PacketKey>>,
}

impl View for CompletionTracker {
    type V = Option<Seq<PacketKeyView>>;

    closed spec fn view(&self) -> Option<Seq<PacketKeyView>> {
        match self.planned {
            Some(ref v) => Some(key_views(v@)),
            None => None,
        }
    }
}

impl CompletionTracker {
    /// A tracker with no plan.
    pub fn new() -> (r: Self)
        ensures
            r@ is None,
    {
        CompletionTracker { planned: None }
    }

    /// Register the planned multiset: the fingerprints of `packets`.
    pub fn register_planned_core_packets(&mut self, packets: &Vec<Packet>)
        ensures
            final(self)@ == Some(
                packets@.map_values(|p: Packet| p@).map_values(|p: PacketView| spec_key_of(p)),
            ),
    {
        let n = packets.len();
        let mut keys: Vec<PacketKey> = Vec::new();
        let mut i: usize = 0;
        while i < n
            invariant
                n == packets@.len(),
                i <= n,
                key_views(keys@) == packets@.take(i as int).map_values(|p: Packet| p@).map_values(
                    |p: PacketView| spec_key_of(p),
                ),
            decreases n - i,
        {
            let ghost k0 = keys@;
            keys.push(PacketKey::from_core(&packets[i]));
            proof {
                let kv = spec_key_of(packets@[i as int]@);
                assert(key_views(keys@) =~= key_views(k0).push(kv));
                assert(packets@.take(i + 1).map_values(|p: Packet| p@).map_values(
                    |p: PacketView| spec_key_of(p),
                ) =~= packets@.take(i as int).map_values(|p: Packet| p@).map_values(
                    |p: PacketView| spec_key_of(p),
                ).push(kv));
            }
            i = i + 1;
        }
        proof {
            assert(packets@.take(n as int) =~= packets@);
        }
        self.planned = Some(keys);
    }

    /// Forget the plan.
    pub fn clear_planned_packets(&mut self)
        ensures
            final(self)@ is None,
    {
        self.planned = None;
    }

    /// The delivered reports, once the delivered key multiset equals the
    /// planned one; `None` while no plan is registered or while the
    /// multisets differ.
    pub fn check_all_packets_transferred(&self, world: &World) -> (r: Option<Vec<PacketReport>>)
        ensures
            match r {
                Some(reports) => {
                    &&& self@ is Some
                    &&& report_views(reports@) == spec_delivered(world@.storage)
                    &&& spec_delivered_keys(spec_delivered(world@.storage)).to_multiset()
                        == self@->Some_0.to_multiset()
                },
                None => {
                    self@ is None || spec_delivered_keys(
                        spec_delivered(world@.storage),
                    ).to_multiset() != self@->Some_0.to_multiset()
                },
            },
    {
        match &self.planned {
            None => None,
            Some(planned_keys) => {
                let reports = collect_delivered_packets(world.storage());
                let n = reports.len();
                let mut delivered_keys: Vec<PacketKey> = Vec::new();
                let mut i: usize = 0;
                while i < n
                    invariant
                        n == reports@.len(),
                        i <= n,
                        key_views(delivered_keys@) == spec_delivered_keys(
                            report_views(reports@.take(i as int)),
                        ),
                    decreases n - i,
                {
                    let ghost k0 = delivered_keys@;
                    delivered_keys.push(PacketKey::from_core(&reports[i].packet));
                    proof {
                        let kv = spec_key_of(reports@[i as int].packet@);
                        assert(key_views(delivered_keys@) =~= key_views(k0).push(kv));
                        assert(spec_delivered_keys(report_views(reports@.take(i + 1)))
                            =~= spec_delivered_keys(report_views(reports@.take(i as int))).push(
                            kv,
                        ));
                    }
                    i = i + 1;
                }
                proof {
                    assert(reports@.take(n as int) =~= reports@);
                }
                if keys_multiset_equal(planned_keys, &delivered_keys) {
                    Some(reports)
                } else {
                    None
                }
            },
        }
    }

    /// How many packets the completion report would hand out, once
    /// delivery is complete.
    pub fn completed_packet_count_for_test(&self, world: &World) -> (r: Option<usize>)
        ensures
            match r {
                Some(count) => {
                    &&& self@ is Some
                    &&& count == spec_delivered(world@.storage).len()
                    &&& spec_delivered_keys(spec_delivered(world@.storage)).to_multiset()
                        == self@->Some_0.to_multiset()
                },
                None => {
                    self@ is None || spec_delivered_keys(
                        spec_delivered(world@.storage),
                    ).to_multiset() != self@->Some_0.to_multiset()
                },
            },
    {
        match self.check_all_packets_transferred(world) {
            Some(reports) => Some(reports.len()),
            None => None,
        }
    }
}

/// Collect every packet retained by a sink, in storage order.
pub fn collect_delivered_packets(storage: &BuildingStorage) -> (r: Vec<PacketReport>)
    ensures
        report_views(r@) == spec_delivered(storage@),
{
    let n = storage.len();
    let mut out: Vec<PacketReport> = Vec::new();
    let mut i: usize = 0;
    proof {
        assert(report_views(out@) =~= spec_delivered(storage@.take(0)));
    }
    while i < n
        invariant
            n == storage@.len(),
            i <= n,
            report_views(out@) == spec_delivered(storage@.take(i as int)),
        decreases n - i,
    {
        let b = storage.building_at(i);
        let bt = b.building_type();
        let bid = b.id;
        let ghost bview = storage@[i as int];
        let is_sink = match bt {
            BuildingType::Datacenter | BuildingType::RecycleBin => true,
            _ => false,
        };
        proof {
            assert(storage@.take(i + 1).drop_last() =~= storage@.take(i as int));
            assert(storage@.take(i + 1).last() == bview);
        }
        if is_sink {
            let packets = b.get_packets();
            let m = packets.len();
            let mut j: usize = 0;
            while j < m
                invariant
                    m == packets@.len(),
                    j <= m,
                    bt == bview.btype(),
                    bid == bview.id,
                    crate::building::packet_views(packets@) == bview.contained(),
                    bview.state is Datacenter || bview.state is RecycleBin,
                    report_views(out@) == spec_delivered(storage@.take(i as int))
                        + spec_building_reports(bview).take(j as int),
                decreases m - j,
            {
                let ghost o0 = out@;
                out.push(
                    PacketReport { building_type: bt, building_id: bid, packet: packets[j].clone() },
                );
                proof {
                    let rv = (PacketReportView {
                        building_type: bt,
                        building_id: bid,
                        packet: packets@[j as int]@,
                    });
                    assert(spec_building_reports(bview)[j as int] == rv);
                    assert(report_views(out@) =~= report_views(o0).push(rv));
                    assert(spec_building_reports(bview).take(j + 1) =~= spec_building_reports(
                        bview,
                    ).take(j as int).push(rv));
                    assert(report_views(out@) =~= spec_delivered(storage@.take(i as int))
                        + spec_building_reports(bview).take(j + 1));
                }
                j = j + 1;
            }
            proof {
                assert(spec_building_reports(bview).take(m as int) =~= spec_building_reports(
                    bview,
                ));
                assert(report_views(out@) =~= spec_delivered(storage@.take(i + 1)));
            }
        } else {
            proof {
                assert(spec_building_reports(bview) =~= Seq::<PacketReportView>::empty());
                assert(report_views(out@) =~= spec_delivered(storage@.take(i + 1)));
            }
        }
        i = i + 1;
    }
    proof {
        assert(storage@.take(n as int) =~= storage@);
    }
    out
}

/// Whether two key vectors carry the same multiset of keys, independent of
/// order.
fn keys_multiset_equal(a: &Vec<PacketKey>, b: &Vec<PacketKey>) -> (r: bool)
    ensures
        r == (key_views(a@).to_multiset() == key_views(b@).to_multiset()),
{
    broadcast use group_to_multiset_ensures;

    if a.len() != b.len() {
        proof {
            vstd::seq_lib::to_multiset_len(key_views(a@));
            vstd::seq_lib::to_multiset_len(key_views(b@));
        }
        return false;
    }
    let n = a.len();
    let mut remaining_idx: Vec<usize> = Vec::new();
    let mut i: usize = 0;
    while i < n
        invariant
            n == b@.len(),
            i <= n,
            remaining_idx@.len() == i,
            forall|l: int| 0 <= l < i ==> remaining_idx@[l] == l,
        decreases n - i,
    {
        remaining_idx.push(i);
        i = i + 1;
    }
    let ghost bkeys = key_views(b@);
    let ghost akeys = key_views(a@);
    proof {
        assert(remaining_views(remaining_idx@, b@) =~= bkeys);
        assert(akeys.take(0) =~= Seq::<PacketKeyView>::empty());
        assert(remaining_views(remaining_idx@, b@).to_multiset().add(
            akeys.take(0).to_multiset(),
        ) =~~= bkeys.to_multiset());
    }
    let mut i: usize = 0;
    while i < n
        invariant
            n == a@.len(),
            n == b@.len(),
            akeys == key_views(a@),
            bkeys == key_views(b@),
            i <= n,
            forall|l: int|
                0 <= l < remaining_idx@.len() ==> (#[trigger] remaining_idx@[l]) < n,
            remaining_views(remaining_idx@, b@).to_multiset().add(akeys.take(i as int).to_multiset())
                == bkeys.to_multiset(),
        decreases n - i,
    {
        let key = &a[i];
        let m = remaining_idx.len();
        let mut j: usize = 0;
        let mut found = false;
        let mut found_at: usize = 0;
        while j < m && !found
            invariant
                m == remaining_idx@.len(),
                j <= m,
                n == b@.len(),
                forall|l: int|
                    0 <= l < remaining_idx@.len() ==> (#[trigger] remaining_idx@[l]) < n,
                key@ == akeys[i as int],
                akeys == key_views(a@),
                i < n,
                !found ==> forall|l: int|
                    0 <= l < j ==> remaining_views(remaining_idx@, b@)[l] != akeys[i as int],
                found ==> found_at < m && remaining_views(remaining_idx@, b@)[found_at as int]
                    == akeys[i as int],
            decreases m - j,
        {
            let idx = remaining_idx[j];
            proof {
                assert(remaining_views(remaining_idx@, b@)[j as int] == b@[idx as int]@);
            }
            if key.key_eq(&b[idx]) {
                found = true;
                found_at = j;
            }
            j = j + 1;
        }
        if !found {
            proof {
                let rv = remaining_views(remaining_idx@, b@);
                assert(forall|l: int| 0 <= l < rv.len() ==> rv[l] != akeys[i as int]);
                assert(!rv.contains(akeys[i as int]));
                vstd::seq_lib::to_multiset_contains(rv, akeys[i as int]);
                assert(rv.to_multiset().count(akeys[i as int]) == 0);
                assert(akeys.take(i as int).to_multiset().count(akeys[i as int])
                    == bkeys.to_multiset().count(akeys[i as int]));
                assert(akeys =~= akeys.take(i as int) + akeys.skip(i as int));
                lemma_multiset_commutative(akeys.take(i as int), akeys.skip(i as int));
                assert(akeys.skip(i as int)[0] == akeys[i as int]);
                assert(akeys.skip(i as int).contains(akeys[i as int]));
                vstd::seq_lib::to_multiset_contains(akeys.skip(i as int), akeys[i as int]);
                assert(akeys.skip(i as int).to_multiset().count(akeys[i as int]) > 0);
                assert(akeys.to_multiset().count(akeys[i as int]) > bkeys.to_multiset().count(
                    akeys[i as int],
                ));
            }
            return false;
        }
        let ghost ridx0 = remaining_idx@;
        remaining_idx.remove(found_at);
        proof {
            let rv0 = remaining_views(ridx0, b@);
            assert(remaining_views(remaining_idx@, b@) =~= rv0.remove(found_at as int));
            to_multiset_remove(rv0, found_at as int);
            assert(rv0.remove(found_at as int).to_multiset() == rv0.to_multiset().remove(
                akeys[i as int],
            ));
            assert(akeys.take(i + 1) =~= akeys.take(i as int).push(akeys[i as int]));
            vstd::seq_lib::to_multiset_build(akeys.take(i as int), akeys[i as int]);
            assert(akeys.take(i as int).push(akeys[i as int]).to_multiset() =~~= akeys.take(
                i as int,
            ).to_multiset().insert(akeys[i as int]));
            assert(akeys.take(i + 1).to_multiset() == akeys.take(i as int).to_multiset().insert(
                akeys[i as int],
            ));
            vstd::seq_lib::to_multiset_contains(rv0, akeys[i as int]);
            assert(rv0.contains(akeys[i as int]));
            assert(rv0.to_multiset().count(akeys[i as int]) > 0);
            assert(remaining_views(remaining_idx@, b@).to_multiset().add(
                akeys.take(i + 1).to_multiset(),
            ) =~~= bkeys.to_multiset());
        }
        i = i + 1;
    }
    proof {
        assert(akeys.take(n as int) =~= akeys);
        assert(remaining_idx@.len() == 0) by {
            vstd::seq_lib::to_multiset_len(remaining_views(remaining_idx@, b@));
            vstd::seq_lib::to_multiset_len(akeys);
            vstd::seq_lib::to_multiset_len(bkeys);
        }
        assert(remaining_views(remaining_idx@, b@) =~= Seq::<PacketKeyView>::empty());
        assert(remaining_views(remaining_idx@, b@).to_multiset() =~~= Multiset::<
            PacketKeyView,
        >::empty());
        assert(akeys.to_multiset() =~~= bkeys.to_multiset());
    }
    true
}

/// The key views selected by an index list into `b`.
pub open spec fn remaining_views(idx: Seq<usize>, b: Seq<PacketKey>) -> Seq<PacketKeyView> {
    idx.map_values(|l: usize| b[l as int]@)
}

} // verus!
