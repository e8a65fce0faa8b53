//! Flat export rows for delivered packets: every field as a plain value,
//! with the payload rendered through the printable encoding, ready for a
//! host shell to serialize.

use vstd::prelude::*;

use crate::building::BuildingType;
use crate::dto::BuildingId;
use crate::packet::{encode_payload_spec, Packet, PacketLabel, Protocol};
use crate::packet_completion::{collect_delivered_packets, spec_delivered, PacketReportView};
use crate::world::World;

verus! {

/// One delivered packet flattened into plain exportable fields.
#[derive(Debug)]
pub struct PacketExportRow {
    pub building_id: BuildingId,
    pub source_ip: String,
    pub dest_ip: String,
    pub source_port: u16,
    pub dest_port: u16,
    pub protocol: Protocol,
    pub length: u32,
    pub label: PacketLabel,
    pub progress: u64,
    pub payload_string: String,
}

/// Whether a row carries exactly a delivered report's packet.
pub open spec fn row_matches(row: PacketExportRow, rep: PacketReportView) -> bool {
    &&& row.building_id == rep.building_id
    &&& row.source_ip@ == rep.packet.source_ip
    &&& row.dest_ip@ == rep.packet.dest_ip
    &&& row.source_port == rep.packet.source_port
    &&& row.dest_port == rep.packet.dest_port
    &&& row.protocol == rep.packet.protocol
    &&& row.length == rep.packet.length
    &&& row.label == rep.packet.label
    &&& row.progress == rep.packet.progress
    &&& row.payload_string@ == encode_payload_spec(rep.packet.payload).map_values(
        |b: u8| b as char,
    )
}

impl PacketExportRow {
    /// Flatten one packet into a row.
    pub fn from_packet(packet: &Packet, building_id: BuildingId) -> (r: Self)
        ensures
            r.building_id == building_id,
            r.source_ip@ == packet@.source_ip,
            r.dest_ip@ == packet@.dest_ip,
            r.source_port == packet@.source_port,
            r.dest_port == packet@.dest_port,
            r.protocol == packet@.protocol,
            r.length == packet@.length,
            r.label == packet@.label,
            r.progress == packet@.progress,
            r.payload_string@ == encode_payload_spec(packet@.payload).map_values(
                |b: u8| b as char,
            ),
    {
        PacketExportRow {
            building_id,
            source_ip: packet.source_ip.clone(),
            dest_ip: packet.dest_ip.clone(),
            source_port: packet.source_port,
            dest_port: packet.dest_port,
            protocol: packet.protocol,
            length: packet.length,
            label: packet.label,
            progress: packet.progress,
            payload_string: packet.payload_to_string(),
        }
    }
}

/// The delivered reports of one sink kind, in delivery-collection order.
pub open spec fn spec_rows_of_kind(s: Seq<crate::building::BuildingView>, bt: BuildingType) -> Seq<
    PacketReportView,
> {
    spec_delivered(s).filter(|r: PacketReportView| r.building_type == bt)
}

fn rows_of_kind(world: &World, bt: BuildingType) -> (r: Vec<PacketExportRow>)
    ensures
        ({
            let rows = spec_rows_of_kind(world@.storage, bt);
            &&& r@.len() == rows.len()
            &&& forall|l: int| 0 <= l < rows.len() ==> row_matches(#[trigger] r@[l], rows[l])
        }),
{
    let ghost pred = |rep: PacketReportView| rep.building_type == bt;
    let reports = collect_delivered_packets(world.storage());
    let ghost rv = crate::packet_completion::report_views(reports@);
    let n = reports.len();
    let mut out: Vec<PacketExportRow> = Vec::new();
    let mut i: usize = 0;
    while i < n
        invariant
            pred == (|rep: PacketReportView| rep.building_type == bt),
            n == reports@.len(),
            rv == crate::packet_completion::report_views(reports@),
            i <= n,
            out@.len() == rv.take(i as int).filter(pred).len(),
            forall|l: int|
                0 <= l < out@.len() ==> row_matches(
                    #[trigger] out@[l],
                    rv.take(i as int).filter(pred)[l],
                ),
        decreases n - i,
    {
        let rep = &reports[i];
        let keep = rep.building_type == bt;
        proof {
            assert(keep == pred(rv[i as int]));
            assert(rv.take(i + 1) =~= rv.take(i as int).push(rv[i as int]));
            rv.take(i as int).lemma_filter_push(rv[i as int], pred);
        }
        if keep {
            out.push(PacketExportRow::from_packet(&rep.packet, rep.building_id));
        }
        i = i + 1;
    }
    proof {
        assert(rv.take(n as int) =~= rv);
    }
    out
}

/// Every packet retained by the scoring sinks, flattened to rows.
pub fn datacenter_packets(world: &World) -> (r: Vec<PacketExportRow>)
    ensures
        ({
            let rows = spec_rows_of_kind(world@.storage, BuildingType::Datacenter);
            &&& r@.len() == rows.len()
            &&& forall|l: int| 0 <= l < rows.len() ==> row_matches(#[trigger] r@[l], rows[l])
        }),
{
    rows_of_kind(world, BuildingType::Datacenter)
}

/// Every packet retained by the discarding sinks, flattened to rows.
pub fn recyclebin_packets(world: &World) -> (r: Vec<PacketExportRow>)
    ensures
        ({
            let rows = spec_rows_of_kind(world@.storage, BuildingType::RecycleBin);
            &&& r@.len() == rows.len()
            &&& forall|l: int| 0 <= l < rows.len() ==> row_matches(#[trigger] r@[l], rows[l])
        }),
{
    rows_of_kind(world, BuildingType::RecycleBin)
}

} // verus!
