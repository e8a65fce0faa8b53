//! The structure model: one tagged type for every placeable kind, its
//! geometry (footprint, output and input tiles) and its per-tick behaviour
//! (advance, offload, accept).

use vstd::prelude::*;

use crate::dto::{BuildingId, Vec2i};
use crate::filters::{spec_filter_matches, filter_matches, FilterConfig};
use crate::packet::{Packet, PacketLabel, PacketView, Protocol, PROGRESS_FULL, PROGRESS_HALF};
use crate::traffic::Traffic;

verus! {

/// The closed set of placeable structure kinds.
#[derive(Clone, Copy, Debug, PartialEq, Eq, Hash, Structural)]
pub enum BuildingType {
    Internet,
    Datacenter,
    Conveyor,
    IpFilter,
    PortFilter,
    LengthFilter,
    ProtocolFilter,
    ContentFilter,
    Junction,
    RecycleBin,
}

impl BuildingType {
    /// The five filter kinds.
    pub open spec fn spec_is_filter(self) -> bool {
        match self {
            BuildingType::IpFilter
            | BuildingType::PortFilter
            | BuildingType::LengthFilter
            | BuildingType::ProtocolFilter
            | BuildingType::ContentFilter => true,
            _ => false,
        }
    }

    /// True for the five filter kinds.
    pub fn is_filter(self) -> (r: bool)
        ensures
            r == self.spec_is_filter(),
    {
        match self {
            BuildingType::IpFilter
            | BuildingType::PortFilter
            | BuildingType::LengthFilter
            | BuildingType::ProtocolFilter
            | BuildingType::ContentFilter => true,
            _ => false,
        }
    }
}

/// What `accept` asks the caller to do with the score.
#[derive(Clone, Copy, Debug, PartialEq, Eq, Structural)]
pub enum BuildingAction {
    Nothing,
    AddScore(u32),
    SubScore(u32),
}

/// The side from which a packet entered a conveyor, relative to the
/// conveyor's facing direction.
#[derive(Clone, Copy, Debug, PartialEq, Eq, Structural)]
pub enum EntrySide {
    Back,
    Left,
    Right,
}

/// Kind-specific state of a structure.
pub enum BuildingState {
    /// The traffic source: a time-ordered schedule and a FIFO queue of
    /// released packets.
    Internet { queue: Vec<Packet>, schedule: Option<Traffic>, clock: u64, next_packet_index: usize },
    /// The scoring sink; retains everything delivered to it.
    Datacenter { packets: Vec<Packet> },
    /// The discarding sink; retains everything delivered to it.
    RecycleBin { packets: Vec<Packet> },
    /// Single-slot belt with a progress value inside the carried packet.
    Conveyor { buffer: Option<(Packet, EntrySide)> },
    /// Single-slot pass-through that remembers where its packet came from.
    Junction { buffer: Option<(Packet, Vec2i)> },
    /// Single-slot filter with an optional, kind-specific configuration.
    Filter { config: FilterConfig, buffer: Option<Packet> },
}

/// A placed structure: identity, top-left position, rotation and state.
pub struct Building {
    pub id: BuildingId,
    pub pos: Vec2i,
    pub rot: i32,
    pub state: BuildingState,
}

/// Spec-level image of a structure's kind-specific state.
pub enum BuildingStateView {
    Internet { queue: Seq<PacketView>, schedule: Seq<crate::traffic::TrafficPacket>, clock: u64, next_packet_index: usize },
    Datacenter { packets: Seq<PacketView> },
    RecycleBin { packets: Seq<PacketView> },
    Conveyor { buffer: Option<(PacketView, EntrySide)> },
    Junction { buffer: Option<(PacketView, Vec2i)> },
    Filter { config: FilterConfig, buffer: Option<PacketView> },
}

/// Spec-level image of a structure.
pub struct BuildingView {
    pub id: BuildingId,
    pub pos: Vec2i,
    pub rot: i32,
    pub state: BuildingStateView,
}

/// The views of a packet sequence.
pub open spec fn packet_views(s: Seq<Packet>) -> Seq<PacketView> {
    s.map_values(|p: Packet| p@)
}

impl View for BuildingState {
    type V = BuildingStateView;

    open spec fn view(&self) -> BuildingStateView {
        match self {
            BuildingState::Internet { queue, schedule, clock, next_packet_index } => {
                BuildingStateView::Internet {
                    queue: packet_views(queue@),
                    schedule: match schedule {
                        Some(t) => t.packets@,
                        None => Seq::empty(),
                    },
                    clock: *clock,
                    next_packet_index: *next_packet_index,
                }
            },
            BuildingState::Datacenter { packets } => {
                BuildingStateView::Datacenter { packets: packet_views(packets@) }
            },
            BuildingState::RecycleBin { packets } => {
                BuildingStateView::RecycleBin { packets: packet_views(packets@) }
            },
            BuildingState::Conveyor { buffer } => {
                BuildingStateView::Conveyor {
                    buffer: match buffer {
                        Some((p, side)) => Some((p@, *side)),
                        None => None,
                    },
                }
            },
            BuildingState::Junction { buffer } => {
                BuildingStateView::Junction {
                    buffer: match buffer {
                        Some((p, src)) => Some((p@, *src)),
                        None => None,
                    },
                }
            },
            BuildingState::Filter { config, buffer } => {
                BuildingStateView::Filter {
                    config: *config,
                    buffer: match buffer {
                        Some(p) => Some(p@),
                        None => None,
                    },
                }
            },
        }
    }
}

impl View for Building {
    type V = BuildingView;

    open spec fn view(&self) -> BuildingView {
        BuildingView { id: self.id, pos: self.pos, rot: self.rot, state: self.state@ }
    }
}

/// Rotation index in `0..4`: the rotation taken modulo four.
pub open spec fn spec_rot_index(rot: i32) -> int {
    (rot as int) % 4
}

/// Compute the rotation index `rot mod 4` (always non-negative).
pub fn rot_index(rot: i32) -> (r: i32)
    ensures
        r == spec_rot_index(rot),
        0 <= r < 4,
{
    let m = rot % 4;
    if m < 0 {
        m + 4
    } else {
        m
    }
}

impl BuildingView {
    /// The kind of the structure, read off its state.
    pub open spec fn btype(self) -> BuildingType {
        match self.state {
            BuildingStateView::Internet { .. } => BuildingType::Internet,
            BuildingStateView::Datacenter { .. } => BuildingType::Datacenter,
            BuildingStateView::RecycleBin { .. } => BuildingType::RecycleBin,
            BuildingStateView::Conveyor { .. } => BuildingType::Conveyor,
            BuildingStateView::Junction { .. } => BuildingType::Junction,
            BuildingStateView::Filter { config, .. } => match config {
                FilterConfig::Ip(_) => BuildingType::IpFilter,
                FilterConfig::Port(_) => BuildingType::PortFilter,
                FilterConfig::Length(_) => BuildingType::LengthFilter,
                FilterConfig::Protocol(_) => BuildingType::ProtocolFilter,
                FilterConfig::Content(_) => BuildingType::ContentFilter,
            },
        }
    }

    /// Footprint size in tiles: the two sinks of the ring kind and the
    /// source are two by two, everything else one by one.
    pub open spec fn size(self) -> Vec2i {
        match self.btype() {
            BuildingType::Internet | BuildingType::Datacenter => Vec2i { x: 2, y: 2 },
            _ => Vec2i { x: 1, y: 1 },
        }
    }

    /// Whether `t` lies in this structure's footprint.
    pub open spec fn in_footprint(self, t: Vec2i) -> bool {
        self.pos.x <= t.x < self.pos.x + self.size().x && self.pos.y <= t.y < self.pos.y
            + self.size().y
    }

    /// The footprint tiles, row by row.
    pub open spec fn footprint_seq(self) -> Seq<Vec2i> {
        if self.size() == (Vec2i { x: 1, y: 1 }) {
            seq![self.pos]
        } else {
            seq![
                self.pos,
                Vec2i { x: (self.pos.x + 1) as i32, y: self.pos.y },
                Vec2i { x: self.pos.x, y: (self.pos.y + 1) as i32 },
                Vec2i { x: (self.pos.x + 1) as i32, y: (self.pos.y + 1) as i32 },
            ]
        }
    }

    /// The perimeter ring around a two-by-two footprint, in the order the
    /// source emits it.
    pub open spec fn ring_seq(self) -> Seq<Vec2i> {
        let x = self.pos.x as int;
        let y = self.pos.y as int;
        seq![
            Vec2i { x: x as i32, y: (y - 1) as i32 },
            Vec2i { x: x as i32, y: (y + 2) as i32 },
            Vec2i { x: (x + 1) as i32, y: (y - 1) as i32 },
            Vec2i { x: (x + 1) as i32, y: (y + 2) as i32 },
            Vec2i { x: (x - 1) as i32, y: y as i32 },
            Vec2i { x: (x + 2) as i32, y: y as i32 },
            Vec2i { x: (x - 1) as i32, y: (y + 1) as i32 },
            Vec2i { x: (x + 2) as i32, y: (y + 1) as i32 },
        ]
    }

    /// The tile a conveyor feeds, one step ahead per rotation
    /// (east, south, west, north for rotation indices zero to three).
    pub open spec fn conveyor_front(self) -> Vec2i {
        let x = self.pos.x as int;
        let y = self.pos.y as int;
        let r = spec_rot_index(self.rot);
        if r == 0 {
            Vec2i { x: (x + 1) as i32, y: y as i32 }
        } else if r == 1 {
            Vec2i { x: x as i32, y: (y + 1) as i32 }
        } else if r == 2 {
            Vec2i { x: (x - 1) as i32, y: y as i32 }
        } else {
            Vec2i { x: x as i32, y: (y - 1) as i32 }
        }
    }

    /// The four orthogonal neighbours of a one-by-one structure, in the
    /// fixed order north, east, south, west.
    pub open spec fn orthogonal_seq(self) -> Seq<Vec2i> {
        let x = self.pos.x as int;
        let y = self.pos.y as int;
        seq![
            Vec2i { x: x as i32, y: (y - 1) as i32 },
            Vec2i { x: (x + 1) as i32, y: y as i32 },
            Vec2i { x: x as i32, y: (y + 1) as i32 },
            Vec2i { x: (x - 1) as i32, y: y as i32 },
        ]
    }

    /// A conveyor's three input tiles: the orthogonal neighbours that are
    /// not the front tile, in the fixed candidate order west, east, north,
    /// south with the front tile left out.
    pub open spec fn conveyor_input_seq(self) -> Seq<Vec2i> {
        let x = self.pos.x as int;
        let y = self.pos.y as int;
        let r = spec_rot_index(self.rot);
        let west = Vec2i { x: (x - 1) as i32, y: y as i32 };
        let east = Vec2i { x: (x + 1) as i32, y: y as i32 };
        let north = Vec2i { x: x as i32, y: (y - 1) as i32 };
        let south = Vec2i { x: x as i32, y: (y + 1) as i32 };
        if r == 0 {
            seq![west, north, south]
        } else if r == 1 {
            seq![west, east, north]
        } else if r == 2 {
            seq![east, north, south]
        } else {
            seq![west, east, south]
        }
    }

    /// A junction's neighbours in rotation-dependent order.
    pub open spec fn junction_neighbor_seq(self) -> Seq<Vec2i> {
        let x = self.pos.x as int;
        let y = self.pos.y as int;
        let r = spec_rot_index(self.rot);
        let north = Vec2i { x: x as i32, y: (y - 1) as i32 };
        let east = Vec2i { x: (x + 1) as i32, y: y as i32 };
        let south = Vec2i { x: x as i32, y: (y + 1) as i32 };
        let west = Vec2i { x: (x - 1) as i32, y: y as i32 };
        if r == 0 {
            seq![north, east, south, west]
        } else if r == 1 {
            seq![east, south, west, north]
        } else if r == 2 {
            seq![south, west, north, east]
        } else {
            seq![west, north, south, east]
        }
    }

    /// A filter's front tile (per rotation); packets the filter rejects
    /// leave through it.
    pub open spec fn filter_front(self) -> Vec2i {
        let x = self.pos.x as int;
        let y = self.pos.y as int;
        let r = spec_rot_index(self.rot);
        if r == 0 {
            Vec2i { x: x as i32, y: (y - 1) as i32 }
        } else if r == 1 {
            Vec2i { x: (x + 1) as i32, y: y as i32 }
        } else if r == 2 {
            Vec2i { x: x as i32, y: (y + 1) as i32 }
        } else {
            Vec2i { x: (x - 1) as i32, y: y as i32 }
        }
    }

    /// A filter's three candidate output tiles: front, then the two
    /// lateral tiles, per rotation.
    pub open spec fn filter_output_seq(self) -> Seq<Vec2i> {
        let x = self.pos.x as int;
        let y = self.pos.y as int;
        let r = spec_rot_index(self.rot);
        let north = Vec2i { x: x as i32, y: (y - 1) as i32 };
        let east = Vec2i { x: (x + 1) as i32, y: y as i32 };
        let south = Vec2i { x: x as i32, y: (y + 1) as i32 };
        let west = Vec2i { x: (x - 1) as i32, y: y as i32 };
        if r == 0 {
            seq![north, east, west]
        } else if r == 1 {
            seq![east, south, north]
        } else if r == 2 {
            seq![south, west, east]
        } else {
            seq![west, north, south]
        }
    }

    /// A filter's single input tile: the tile behind it, per rotation.
    pub open spec fn filter_input(self) -> Vec2i {
        let x = self.pos.x as int;
        let y = self.pos.y as int;
        let r = spec_rot_index(self.rot);
        if r == 0 {
            Vec2i { x: x as i32, y: (y + 1) as i32 }
        } else if r == 1 {
            Vec2i { x: (x - 1) as i32, y: y as i32 }
        } else if r == 2 {
            Vec2i { x: x as i32, y: (y - 1) as i32 }
        } else {
            Vec2i { x: (x + 1) as i32, y: y as i32 }
        }
    }

    /// The tiles this structure can emit onto.
    pub open spec fn output_seq(self) -> Seq<Vec2i> {
        match self.btype() {
            BuildingType::Internet => self.ring_seq(),
            BuildingType::Datacenter => Seq::empty(),
            BuildingType::RecycleBin => Seq::empty(),
            BuildingType::Conveyor => seq![self.conveyor_front()],
            BuildingType::Junction => self.junction_neighbor_seq(),
            _ => self.filter_output_seq(),
        }
    }

    /// The tiles this structure accepts input from.
    pub open spec fn input_seq(self) -> Seq<Vec2i> {
        match self.btype() {
            BuildingType::Internet => Seq::empty(),
            BuildingType::Datacenter => self.ring_seq(),
            BuildingType::RecycleBin => self.orthogonal_seq(),
            BuildingType::Conveyor => self.conveyor_input_seq(),
            BuildingType::Junction => self.junction_neighbor_seq(),
            _ => seq![self.filter_input()],
        }
    }

    /// Structural well-formedness: position in range, progress within its
    /// bounds, the schedule cursor within the schedule, and a junction's
    /// remembered source position in range.
    pub open spec fn wf(self) -> bool {
        &&& self.pos.in_range()
        &&& match self.state {
            BuildingStateView::Internet { schedule, next_packet_index, .. } => next_packet_index
                <= schedule.len(),
            BuildingStateView::Conveyor { buffer } => match buffer {
                Some((p, _)) => p.progress <= PROGRESS_FULL,
                None => true,
            },
            BuildingStateView::Junction { buffer } => match buffer {
                Some((_, src)) => src.in_range(),
                None => true,
            },
            _ => true,
        }
    }
}

/// The packet a schedule entry releases: empty payload, progress zero, the
/// protocol and label decoded from their raw values.
pub open spec fn spec_packet_of_entry(e: crate::traffic::TrafficPacket) -> PacketView {
    PacketView {
        source_ip: e.src_ip@,
        dest_ip: e.dst_ip@,
        source_port: e.src_port,
        dest_port: e.dst_port,
        protocol: Protocol::spec_from_ip_number(e.protocol),
        length: e.packet_size,
        payload: Seq::empty(),
        progress: 0u64,
        label: PacketLabel::spec_from_raw(e.label),
    }
}

/// Whether a schedule entry's timestamp has elapsed at `clock`.
pub open spec fn spec_timestamp_due(ts: i64, clock: u64) -> bool {
    ts as int <= clock as int
}

/// The source's release loop: starting at `idx`, append every consecutive
/// due entry of the schedule to the queue, stopping at the first entry
/// whose timestamp has not elapsed.
pub open spec fn spec_release(
    schedule: Seq<crate::traffic::TrafficPacket>,
    idx: int,
    clock: u64,
    queue: Seq<PacketView>,
) -> (Seq<PacketView>, int)
    decreases schedule.len() - idx,
{
    if idx < 0 || idx >= schedule.len() {
        (queue, idx)
    } else if spec_timestamp_due(schedule[idx].timestamp, clock) {
        spec_release(schedule, idx + 1, clock, queue.push(spec_packet_of_entry(schedule[idx])))
    } else {
        (queue, idx)
    }
}

impl BuildingView {
    /// State after one tick of internal advancement with `delta`
    /// microseconds of simulated time: a conveyor's packet gains progress
    /// (clamped at full), the source advances its clock and releases due
    /// packets, every other kind is unchanged.
    pub open spec fn advanced(self, delta: u64) -> BuildingView {
        match self.state {
            BuildingStateView::Conveyor { buffer: Some((p, side)) } => {
                let np = if p.progress + delta > PROGRESS_FULL {
                    PROGRESS_FULL
                } else {
                    (p.progress + delta) as u64
                };
                BuildingView {
                    state: BuildingStateView::Conveyor {
                        buffer: Some((PacketView { progress: np, ..p }, side)),
                    },
                    ..self
                }
            },
            BuildingStateView::Internet { queue, schedule, clock, next_packet_index } => {
                let nclock = if clock + delta > u64::MAX {
                    u64::MAX
                } else {
                    (clock + delta) as u64
                };
                let released = spec_release(schedule, next_packet_index as int, nclock, queue);
                BuildingView {
                    state: BuildingStateView::Internet {
                        queue: released.0,
                        schedule: schedule,
                        clock: nclock,
                        next_packet_index: released.1 as usize,
                    },
                    ..self
                }
            },
            _ => self,
        }
    }

    /// Progress shown by the structure: the carried packet's progress on a
    /// conveyor, zero everywhere else.
    pub open spec fn progress(self) -> u64 {
        match self.state {
            BuildingStateView::Conveyor { buffer: Some((p, _)) } => p.progress,
            _ => 0u64,
        }
    }

    /// Whether the structure has a packet ready to leave.
    pub open spec fn can_offload(self) -> bool {
        match self.state {
            BuildingStateView::Internet { queue, .. } => queue.len() > 0,
            BuildingStateView::Conveyor { buffer } => match buffer {
                Some((p, _)) => p.progress >= PROGRESS_FULL,
                None => false,
            },
            BuildingStateView::Junction { buffer } => buffer is Some,
            BuildingStateView::Filter { buffer, .. } => buffer is Some,
            _ => false,
        }
    }

    /// The packet that would leave next, if any.
    pub open spec fn peek(self) -> Option<PacketView> {
        match self.state {
            BuildingStateView::Internet { queue, .. } => if queue.len() > 0 {
                Some(queue[0])
            } else {
                None
            },
            BuildingStateView::Conveyor { buffer } => match buffer {
                Some((p, _)) => Some(p),
                None => None,
            },
            BuildingStateView::Junction { buffer } => match buffer {
                Some((p, _)) => Some(p),
                None => None,
            },
            BuildingStateView::Filter { buffer, .. } => buffer,
            _ => None,
        }
    }

    /// State after the next packet left.
    pub open spec fn offloaded(self) -> BuildingView {
        match self.state {
            BuildingStateView::Internet { queue, schedule, clock, next_packet_index } => {
                BuildingView {
                    state: BuildingStateView::Internet {
                        queue: queue.skip(1),
                        schedule,
                        clock,
                        next_packet_index,
                    },
                    ..self
                }
            },
            BuildingStateView::Conveyor { .. } => BuildingView {
                state: BuildingStateView::Conveyor { buffer: None },
                ..self
            },
            BuildingStateView::Junction { .. } => BuildingView {
                state: BuildingStateView::Junction { buffer: None },
                ..self
            },
            BuildingStateView::Filter { config, .. } => BuildingView {
                state: BuildingStateView::Filter { config, buffer: None },
                ..self
            },
            _ => self,
        }
    }

    /// Whether the structure accepts `p` arriving from `src`: sinks always,
    /// the source never, single-slot structures when empty — a conveyor
    /// additionally refuses packets arriving over its front tile.
    pub open spec fn accepts(self, p: PacketView, src: Vec2i) -> bool {
        match self.state {
            BuildingStateView::Internet { .. } => false,
            BuildingStateView::Datacenter { .. } => true,
            BuildingStateView::RecycleBin { .. } => true,
            BuildingStateView::Conveyor { buffer } => buffer is None && src != self.conveyor_front(),
            BuildingStateView::Junction { buffer } => buffer is None,
            BuildingStateView::Filter { buffer, .. } => buffer is None,
        }
    }

    /// The side a packet arriving from `src` enters a conveyor on, derived
    /// by comparing the arrival vector with the rotation's axis vectors;
    /// anything that is not exactly the left or right unit vector counts as
    /// a rear entry.
    pub open spec fn entry_side(self, src: Vec2i) -> EntrySide {
        let dx = src.x - self.pos.x;
        let dy = src.y - self.pos.y;
        let front = self.conveyor_front();
        let fx = front.x - self.pos.x;
        let fy = front.y - self.pos.y;
        if dx == -fy && dy == fx {
            EntrySide::Left
        } else if dx == fy && dy == -fx {
            EntrySide::Right
        } else {
            EntrySide::Back
        }
    }

    /// State after accepting `p` from `src`: sinks retain the packet, a
    /// conveyor stores it with progress reset by entry side (half the path
    /// for lateral entries, zero for rear entries), a junction remembers the
    /// source tile, a filter fills its slot.
    pub open spec fn accepted(self, p: PacketView, src: Vec2i) -> BuildingView {
        match self.state {
            BuildingStateView::Internet { .. } => self,
            BuildingStateView::Datacenter { packets } => BuildingView {
                state: BuildingStateView::Datacenter { packets: packets.push(p) },
                ..self
            },
            BuildingStateView::RecycleBin { packets } => BuildingView {
                state: BuildingStateView::RecycleBin { packets: packets.push(p) },
                ..self
            },
            BuildingStateView::Conveyor { .. } => {
                let side = self.entry_side(src);
                let start = if side is Left || side is Right {
                    PROGRESS_HALF
                } else {
                    0u64
                };
                BuildingView {
                    state: BuildingStateView::Conveyor {
                        buffer: Some((PacketView { progress: start, ..p }, side)),
                    },
                    ..self
                }
            },
            BuildingStateView::Junction { .. } => BuildingView {
                state: BuildingStateView::Junction { buffer: Some((p, src)) },
                ..self
            },
            BuildingStateView::Filter { config, .. } => BuildingView {
                state: BuildingStateView::Filter { config, buffer: Some(p) },
                ..self
            },
        }
    }

    /// The score action an acceptance yields: the scoring sink grades by
    /// label, everything else reports nothing.
    pub open spec fn accept_action(self, p: PacketView) -> BuildingAction {
        match self.state {
            BuildingStateView::Datacenter { .. } => match p.label {
                PacketLabel::Correct => BuildingAction::AddScore(10),
                PacketLabel::Incorrect => BuildingAction::SubScore(10),
                PacketLabel::Unknown => BuildingAction::Nothing,
            },
            _ => BuildingAction::Nothing,
        }
    }

    /// The packets currently inside the structure, oldest first.
    pub open spec fn contained(self) -> Seq<PacketView> {
        match self.state {
            BuildingStateView::Internet { queue, .. } => queue,
            BuildingStateView::Datacenter { packets } => packets,
            BuildingStateView::RecycleBin { packets } => packets,
            BuildingStateView::Conveyor { buffer } => match buffer {
                Some((p, _)) => seq![p],
                None => Seq::empty(),
            },
            BuildingStateView::Junction { buffer } => match buffer {
                Some((p, _)) => seq![p],
                None => Seq::empty(),
            },
            BuildingStateView::Filter { buffer, .. } => match buffer {
                Some(p) => seq![p],
                None => Seq::empty(),
            },
        }
    }

    /// The filter classification of a packet: the match result for filter
    /// kinds, nothing for every other kind.
    pub open spec fn filter_result(self, p: PacketView) -> Option<bool> {
        match self.state {
            BuildingStateView::Filter { config, .. } => Some(spec_filter_matches(config, p)),
            _ => None,
        }
    }
}

/// The footprint tile list holds exactly the footprint region.
pub proof fn lemma_footprint_seq(b: BuildingView)
    requires
        b.pos.in_range(),
    ensures
        forall|t: Vec2i| #[trigger] b.footprint_seq().contains(t) <==> b.in_footprint(t),
{
    assert forall|t: Vec2i| #[trigger] b.footprint_seq().contains(t) implies b.in_footprint(t) by {
        let k = choose|k: int| 0 <= k < b.footprint_seq().len() && b.footprint_seq()[k] == t;
    }
    assert forall|t: Vec2i| b.in_footprint(t) implies #[trigger] b.footprint_seq().contains(t) by {
        if b.size() == (Vec2i { x: 1, y: 1 }) {
            assert(b.footprint_seq()[0] == t);
        } else {
            if t.x == b.pos.x && t.y == b.pos.y {
                assert(b.footprint_seq()[0] == t);
            } else if t.x == b.pos.x + 1 && t.y == b.pos.y {
                assert(b.footprint_seq()[1] == t);
            } else if t.x == b.pos.x && t.y == b.pos.y + 1 {
                assert(b.footprint_seq()[2] == t);
            } else {
                assert(b.footprint_seq()[3] == t);
            }
        }
    }
}

/// The kind-specific state a freshly placed structure starts with.
pub open spec fn spec_new_building_state(building_type: BuildingType) -> BuildingStateView {
    match building_type {
        BuildingType::Internet => BuildingStateView::Internet {
            queue: Seq::empty(),
            schedule: Seq::empty(),
            clock: 0u64,
            next_packet_index: 0usize,
        },
        BuildingType::Datacenter => BuildingStateView::Datacenter { packets: Seq::empty() },
        BuildingType::RecycleBin => BuildingStateView::RecycleBin { packets: Seq::empty() },
        BuildingType::Conveyor => BuildingStateView::Conveyor { buffer: None },
        BuildingType::Junction => BuildingStateView::Junction { buffer: None },
        BuildingType::IpFilter => BuildingStateView::Filter {
            config: FilterConfig::Ip(None),
            buffer: None,
        },
        BuildingType::PortFilter => BuildingStateView::Filter {
            config: FilterConfig::Port(None),
            buffer: None,
        },
        BuildingType::LengthFilter => BuildingStateView::Filter {
            config: FilterConfig::Length(None),
            buffer: None,
        },
        BuildingType::ProtocolFilter => BuildingStateView::Filter {
            config: FilterConfig::Protocol(None),
            buffer: None,
        },
        BuildingType::ContentFilter => BuildingStateView::Filter {
            config: FilterConfig::Content(None),
            buffer: None,
        },
    }
}

/// The view of a freshly placed structure.
pub open spec fn spec_new_building(
    id: BuildingId,
    pos: Vec2i,
    rot: i32,
    building_type: BuildingType,
) -> BuildingView {
    BuildingView { id, pos, rot, state: spec_new_building_state(building_type) }
}

impl Building {
    /// An empty structure of the given kind.
    pub fn new(id: BuildingId, pos: Vec2i, rot: i32, building_type: BuildingType) -> (r: Self)
        requires
            pos.in_range(),
        ensures
            r@ == spec_new_building(id, pos, rot, building_type),
            r@.id == id,
            r@.pos == pos,
            r@.rot == rot,
            r@.btype() == building_type,
            r@.wf(),
            r@.contained() == Seq::<PacketView>::empty(),
            !r@.can_offload(),
    {
        let state = match building_type {
            BuildingType::Internet => BuildingState::Internet {
                queue: Vec::new(),
                schedule: None,
                clock: 0,
                next_packet_index: 0,
            },
            BuildingType::Datacenter => BuildingState::Datacenter { packets: Vec::new() },
            BuildingType::RecycleBin => BuildingState::RecycleBin { packets: Vec::new() },
            BuildingType::Conveyor => BuildingState::Conveyor { buffer: None },
            BuildingType::Junction => BuildingState::Junction { buffer: None },
            BuildingType::IpFilter => BuildingState::Filter {
                config: FilterConfig::Ip(None),
                buffer: None,
            },
            BuildingType::PortFilter => BuildingState::Filter {
                config: FilterConfig::Port(None),
                buffer: None,
            },
            BuildingType::LengthFilter => BuildingState::Filter {
                config: FilterConfig::Length(None),
                buffer: None,
            },
            BuildingType::ProtocolFilter => BuildingState::Filter {
                config: FilterConfig::Protocol(None),
                buffer: None,
            },
            BuildingType::ContentFilter => BuildingState::Filter {
                config: FilterConfig::Content(None),
                buffer: None,
            },
        };
        let r = Building { id, pos, rot, state };
        proof {
            assert(r@.contained() =~= Seq::<PacketView>::empty());
            assert(r@.state =~= spec_new_building_state(building_type));
        }
        r
    }

    /// A filter structure that starts out configured.
    pub fn new_filter_with_config(id: BuildingId, pos: Vec2i, rot: i32, config: FilterConfig) -> (r:
        Self)
        requires
            pos.in_range(),
        ensures
            r@.id == id,
            r@.pos == pos,
            r@.rot == rot,
            r@.wf(),
            r@.state == (BuildingStateView::Filter { config, buffer: None }),
    {
        Building { id, pos, rot, state: BuildingState::Filter { config, buffer: None } }
    }

    /// The structure's kind.
    pub fn building_type(&self) -> (r: BuildingType)
        ensures
            r == self@.btype(),
    {
        match &self.state {
            BuildingState::Internet { .. } => BuildingType::Internet,
            BuildingState::Datacenter { .. } => BuildingType::Datacenter,
            BuildingState::RecycleBin { .. } => BuildingType::RecycleBin,
            BuildingState::Conveyor { .. } => BuildingType::Conveyor,
            BuildingState::Junction { .. } => BuildingType::Junction,
            BuildingState::Filter { config, .. } => match config {
                FilterConfig::Ip(_) => BuildingType::IpFilter,
                FilterConfig::Port(_) => BuildingType::PortFilter,
                FilterConfig::Length(_) => BuildingType::LengthFilter,
                FilterConfig::Protocol(_) => BuildingType::ProtocolFilter,
                FilterConfig::Content(_) => BuildingType::ContentFilter,
            },
        }
    }

    /// Footprint size in tiles.
    pub fn get_size(&self) -> (r: Vec2i)
        ensures
            r == self@.size(),
    {
        match self.building_type() {
            BuildingType::Internet | BuildingType::Datacenter => Vec2i { x: 2, y: 2 },
            _ => Vec2i { x: 1, y: 1 },
        }
    }

    /// The footprint tiles.
    pub fn footprint_tiles(&self) -> (r: Vec<Vec2i>)
        requires
            self.pos.in_range(),
        ensures
            r@ == self@.footprint_seq(),
    {
        let size = self.get_size();
        if size.x == 1 {
            vec![self.pos]
        } else {
            vec![
                self.pos,
                Vec2i { x: self.pos.x + 1, y: self.pos.y },
                Vec2i { x: self.pos.x, y: self.pos.y + 1 },
                Vec2i { x: self.pos.x + 1, y: self.pos.y + 1 },
            ]
        }
    }

    /// The tile in front of a conveyor, per rotation.
    pub fn get_front_pos(&self) -> (r: Vec2i)
        requires
            self.pos.in_range(),
        ensures
            r == self@.conveyor_front(),
    {
        let r = rot_index(self.rot);
        if r == 0 {
            Vec2i { x: self.pos.x + 1, y: self.pos.y }
        } else if r == 1 {
            Vec2i { x: self.pos.x, y: self.pos.y + 1 }
        } else if r == 2 {
            Vec2i { x: self.pos.x - 1, y: self.pos.y }
        } else {
            Vec2i { x: self.pos.x, y: self.pos.y - 1 }
        }
    }

    fn ring_tiles(&self) -> (r: Vec<Vec2i>)
        requires
            self.pos.in_range(),
        ensures
            r@ == self@.ring_seq(),
    {
        let x = self.pos.x;
        let y = self.pos.y;
        vec![
            Vec2i { x, y: y - 1 },
            Vec2i { x, y: y + 2 },
            Vec2i { x: x + 1, y: y - 1 },
            Vec2i { x: x + 1, y: y + 2 },
            Vec2i { x: x - 1, y },
            Vec2i { x: x + 2, y },
            Vec2i { x: x - 1, y: y + 1 },
            Vec2i { x: x + 2, y: y + 1 },
        ]
    }

    fn orthogonal_tiles(&self) -> (r: Vec<Vec2i>)
        requires
            self.pos.in_range(),
        ensures
            r@ == self@.orthogonal_seq(),
    {
        let x = self.pos.x;
        let y = self.pos.y;
        vec![
            Vec2i { x, y: y - 1 },
            Vec2i { x: x + 1, y },
            Vec2i { x, y: y + 1 },
            Vec2i { x: x - 1, y },
        ]
    }

    fn junction_neighbor_tiles(&self) -> (r: Vec<Vec2i>)
        requires
            self.pos.in_range(),
        ensures
            r@ == self@.junction_neighbor_seq(),
    {
        let x = self.pos.x;
        let y = self.pos.y;
        let north = Vec2i { x, y: y - 1 };
        let east = Vec2i { x: x + 1, y };
        let south = Vec2i { x, y: y + 1 };
        let west = Vec2i { x: x - 1, y };
        let r = rot_index(self.rot);
        if r == 0 {
            vec![north, east, south, west]
        } else if r == 1 {
            vec![east, south, west, north]
        } else if r == 2 {
            vec![south, west, north, east]
        } else {
            vec![west, north, south, east]
        }
    }

    /// The tiles this structure can emit onto.
    pub fn get_output_poses(&self) -> (r: Vec<Vec2i>)
        requires
            self.pos.in_range(),
        ensures
            r@ == self@.output_seq(),
    {
        match &self.state {
            BuildingState::Internet { .. } => self.ring_tiles(),
            BuildingState::Datacenter { .. } => Vec::new(),
            BuildingState::RecycleBin { .. } => Vec::new(),
            BuildingState::Conveyor { .. } => vec![self.get_front_pos()],
            BuildingState::Junction { .. } => self.junction_neighbor_tiles(),
            BuildingState::Filter { .. } => {
                let x = self.pos.x;
                let y = self.pos.y;
                let north = Vec2i { x, y: y - 1 };
                let east = Vec2i { x: x + 1, y };
                let south = Vec2i { x, y: y + 1 };
                let west = Vec2i { x: x - 1, y };
                let r = rot_index(self.rot);
                if r == 0 {
                    vec![north, east, west]
                } else if r == 1 {
                    vec![east, south, north]
                } else if r == 2 {
                    vec![south, west, east]
                } else {
                    vec![west, north, south]
                }
            },
        }
    }

    /// The tiles this structure accepts input from.
    pub fn get_input_poses(&self) -> (r: Vec<Vec2i>)
        requires
            self.pos.in_range(),
        ensures
            r@ == self@.input_seq(),
    {
        match &self.state {
            BuildingState::Internet { .. } => Vec::new(),
            BuildingState::Datacenter { .. } => self.ring_tiles(),
            BuildingState::RecycleBin { .. } => self.orthogonal_tiles(),
            BuildingState::Conveyor { .. } => {
                let x = self.pos.x;
                let y = self.pos.y;
                let west = Vec2i { x: x - 1, y };
                let east = Vec2i { x: x + 1, y };
                let north = Vec2i { x, y: y - 1 };
                let south = Vec2i { x, y: y + 1 };
                let r = rot_index(self.rot);
                if r == 0 {
                    vec![west, north, south]
                } else if r == 1 {
                    vec![west, east, north]
                } else if r == 2 {
                    vec![east, north, south]
                } else {
                    vec![west, east, south]
                }
            },
            BuildingState::Junction { .. } => self.junction_neighbor_tiles(),
            BuildingState::Filter { .. } => {
                let x = self.pos.x;
                let y = self.pos.y;
                let r = rot_index(self.rot);
                if r == 0 {
                    vec![Vec2i { x, y: y + 1 }]
                } else if r == 1 {
                    vec![Vec2i { x: x - 1, y }]
                } else if r == 2 {
                    vec![Vec2i { x, y: y - 1 }]
                } else {
                    vec![Vec2i { x: x + 1, y }]
                }
            },
        }
    }

    /// Advance internal state by `delta` microseconds of simulated time.
    pub fn update(&mut self, delta: u64)
        requires
            old(self)@.wf(),
        ensures
            final(self)@ == old(self)@.advanced(delta),
            final(self)@.wf(),
    {
        match &mut self.state {
            BuildingState::Conveyor { buffer } => {
                match buffer {
                    Some((p, _side)) => {
                        let s = p.progress.saturating_add(delta);
                        p.progress = if s > PROGRESS_FULL {
                            PROGRESS_FULL
                        } else {
                            s
                        };
                    },
                    None => {},
                }
            },
            BuildingState::Internet { queue, schedule, clock, next_packet_index } => {
                *clock = clock.saturating_add(delta);
                match schedule {
                    Some(traffic) => {
                        let ghost sched = traffic.packets@;
                        let ghost clock_now = *clock;
                        let ghost queue0 = packet_views(queue@);
                        let ghost idx0 = *next_packet_index as int;
                        let n = traffic.packets.len();
                        while entry_due(traffic, *next_packet_index, *clock)
                            invariant
                                traffic.packets@ == sched,
                                n == sched.len(),
                                clock_now == *clock,
                                0 <= idx0 <= *next_packet_index <= n,
                                spec_release(sched, idx0, clock_now, queue0) == spec_release(
                                    sched,
                                    *next_packet_index as int,
                                    clock_now,
                                    packet_views(queue@),
                                ),
                            decreases n - *next_packet_index,
                        {
                            let ghost cur = *next_packet_index as int;
                            let ghost qv = packet_views(queue@);
                            let entry = &traffic.packets[*next_packet_index];
                            let mut released = Packet::new(
                                entry.src_ip.clone(),
                                entry.dst_ip.clone(),
                                entry.src_port,
                                entry.dst_port,
                                Protocol::from_ip_number(entry.protocol),
                                entry.packet_size,
                                Vec::new(),
                            );
                            released.label = PacketLabel::from_raw(entry.label);
                            proof {
                                assert(released@ =~= spec_packet_of_entry(sched[cur]));
                            }
                            queue.push(released);
                            proof {
                                assert(packet_views(queue@) =~= qv.push(released@));
                                assert(spec_release(sched, cur, clock_now, qv) == spec_release(
                                    sched,
                                    cur + 1,
                                    clock_now,
                                    qv.push(spec_packet_of_entry(sched[cur])),
                                ));
                            }
                            *next_packet_index = *next_packet_index + 1;
                        }
                    },
                    None => {},
                }
            },
            _ => {},
        }
        proof {
            assert(self@ =~= old(self)@.advanced(delta));
        }
    }

    /// Progress of the carried packet, where that is meaningful.
    pub fn get_progress(&self) -> (r: u64)
        ensures
            r == self@.progress(),
    {
        match &self.state {
            BuildingState::Conveyor { buffer: Some((p, _)) } => p.progress,
            _ => 0,
        }
    }

    /// Whether a packet is ready to leave.
    pub fn can_offload(&self) -> (r: bool)
        ensures
            r == self@.can_offload(),
    {
        match &self.state {
            BuildingState::Internet { queue, .. } => queue.len() > 0,
            BuildingState::Conveyor { buffer } => match buffer {
                Some((p, _)) => p.progress >= PROGRESS_FULL,
                None => false,
            },
            BuildingState::Junction { buffer } => buffer.is_some(),
            BuildingState::Filter { buffer, .. } => buffer.is_some(),
            _ => false,
        }
    }

    /// The packet that would leave next, without removing it.
    pub fn peek_packet(&self) -> (r: Option<&Packet>)
        ensures
            match r {
                Some(p) => self@.peek() == Some(p@),
                None => self@.peek() is None,
            },
    {
        match &self.state {
            BuildingState::Internet { queue, .. } => if queue.len() > 0 {
                Some(&queue[0])
            } else {
                None
            },
            BuildingState::Conveyor { buffer } => match buffer {
                Some((p, _)) => Some(p),
                None => None,
            },
            BuildingState::Junction { buffer } => match buffer {
                Some((p, _)) => Some(p),
                None => None,
            },
            BuildingState::Filter { buffer, .. } => match buffer {
                Some(p) => Some(p),
                None => None,
            },
            _ => None,
        }
    }

    /// Remove and return the oldest ready packet. Calling this on a
    /// structure that cannot offload is a caller error, which the
    /// precondition rules out.
    pub fn offload(&mut self) -> (r: Packet)
        requires
            old(self)@.can_offload(),
        ensures
            Some(r@) == old(self)@.peek(),
            final(self)@ == old(self)@.offloaded(),
    {
        match &mut self.state {
            BuildingState::Internet { queue, .. } => {
                let ghost q0 = queue@;
                let p = queue.remove(0);
                proof {
                    assert(queue@ =~= q0.skip(1));
                    assert(packet_views(queue@) =~= packet_views(q0).skip(1));
                }
                p
            },
            BuildingState::Conveyor { buffer } => match buffer.take() {
                Some((p, _)) => p,
                None => vstd::pervasive::unreached(),
            },
            BuildingState::Junction { buffer } => match buffer.take() {
                Some((p, _)) => p,
                None => vstd::pervasive::unreached(),
            },
            BuildingState::Filter { buffer, .. } => match buffer.take() {
                Some(p) => p,
                None => vstd::pervasive::unreached(),
            },
            _ => vstd::pervasive::unreached(),
        }
    }

    /// Whether this structure would accept `packet` arriving from
    /// `source_pos`.
    pub fn can_accept(&self, packet: &Packet, source_pos: Vec2i) -> (r: bool)
        requires
            self.pos.in_range(),
        ensures
            r == self@.accepts(packet@, source_pos),
    {
        match &self.state {
            BuildingState::Internet { .. } => false,
            BuildingState::Datacenter { .. } => true,
            BuildingState::RecycleBin { .. } => true,
            BuildingState::Conveyor { buffer } => {
                if buffer.is_some() {
                    false
                } else {
                    let front = self.get_front_pos();
                    !(source_pos == front)
                }
            },
            BuildingState::Junction { buffer } => buffer.is_none(),
            BuildingState::Filter { buffer, .. } => buffer.is_none(),
        }
    }

    /// Accept `packet` from `source_pos`, returning the score action.
    pub fn accept(&mut self, packet: Packet, source_pos: Vec2i) -> (r: BuildingAction)
        requires
            old(self)@.wf(),
            source_pos.in_range(),
        ensures
            final(self)@ == old(self)@.accepted(packet@, source_pos),
            r == old(self)@.accept_action(packet@),
            final(self)@.wf(),
    {
        let ghost old_view = self@;
        let side = self.entry_side_from(source_pos);
        match &mut self.state {
            BuildingState::Internet { .. } => BuildingAction::Nothing,
            BuildingState::Datacenter { packets } => {
                let action = match packet.label {
                    PacketLabel::Correct => BuildingAction::AddScore(10),
                    PacketLabel::Incorrect => BuildingAction::SubScore(10),
                    PacketLabel::Unknown => BuildingAction::Nothing,
                };
                packets.push(packet);
                proof {
                    assert(packet_views(packets@) =~= old_view.state->Datacenter_packets.push(
                        packets@.last()@,
                    ));
                }
                action
            },
            BuildingState::RecycleBin { packets } => {
                packets.push(packet);
                proof {
                    assert(packet_views(packets@) =~= old_view.state->RecycleBin_packets.push(
                        packets@.last()@,
                    ));
                }
                BuildingAction::Nothing
            },
            BuildingState::Conveyor { buffer } => {
                let mut p = packet;
                p.progress = match side {
                    EntrySide::Left | EntrySide::Right => PROGRESS_HALF,
                    EntrySide::Back => 0,
                };
                *buffer = Some((p, side));
                BuildingAction::Nothing
            },
            BuildingState::Junction { buffer } => {
                *buffer = Some((packet, source_pos));
                BuildingAction::Nothing
            },
            BuildingState::Filter { buffer, .. } => {
                *buffer = Some(packet);
                BuildingAction::Nothing
            },
        }
    }

    /// The entry side of a packet arriving from `source_pos`, for a
    /// conveyor.
    fn entry_side_from(&self, source_pos: Vec2i) -> (r: EntrySide)
        requires
            self.pos.in_range(),
            source_pos.in_range(),
        ensures
            r == self@.entry_side(source_pos),
    {
        let dx = source_pos.x - self.pos.x;
        let dy = source_pos.y - self.pos.y;
        let front = self.get_front_pos();
        let fx = front.x - self.pos.x;
        let fy = front.y - self.pos.y;
        if dx == -fy && dy == fx {
            EntrySide::Left
        } else if dx == fy && dy == -fx {
            EntrySide::Right
        } else {
            EntrySide::Back
        }
    }

    /// Copies of the packets currently inside the structure.
    pub fn get_packets(&self) -> (r: Vec<Packet>)
        ensures
            packet_views(r@) == self@.contained(),
    {
        let mut out: Vec<Packet> = Vec::new();
        match &self.state {
            BuildingState::Internet { queue, .. } => {
                clone_packets(queue, &mut out);
            },
            BuildingState::Datacenter { packets } => {
                clone_packets(packets, &mut out);
            },
            BuildingState::RecycleBin { packets } => {
                clone_packets(packets, &mut out);
            },
            BuildingState::Conveyor { buffer } => match buffer {
                Some((p, _)) => out.push(p.clone()),
                None => {},
            },
            BuildingState::Junction { buffer } => match buffer {
                Some((p, _)) => out.push(p.clone()),
                None => {},
            },
            BuildingState::Filter { buffer, .. } => match buffer {
                Some(p) => out.push(p.clone()),
                None => {},
            },
        }
        proof {
            assert(packet_views(out@) =~= self@.contained());
        }
        out
    }

    /// The filter classification of `packet`, if this structure is a
    /// filter.
    pub fn filter_result(&self, packet: &Packet) -> (r: Option<bool>)
        ensures
            r == self@.filter_result(packet@),
    {
        match &self.state {
            BuildingState::Filter { config, .. } => Some(filter_matches(config, packet)),
            _ => None,
        }
    }

    /// The filter configuration slot, if this structure is a filter.
    pub fn get_filter_config(&self) -> (r: Option<&FilterConfig>)
        ensures
            match self@.state {
                BuildingStateView::Filter { config, .. } => r matches Some(c) && *c == config,
                _ => r is None,
            },
    {
        match &self.state {
            BuildingState::Filter { config, .. } => Some(config),
            _ => None,
        }
    }

    /// Replace the filter configuration. Succeeds only on a filter of the
    /// same kind as the given configuration; anything else is left
    /// unchanged.
    pub fn set_filter_config(&mut self, new_config: FilterConfig) -> (r: bool)
        ensures
            ({
                let same = match old(self)@.state {
                    BuildingStateView::Filter { config, .. } => same_filter_kind(
                        config,
                        new_config,
                    ),
                    _ => false,
                };
                &&& r == same
                &&& if same {
                    final(self)@ == (BuildingView {
                        state: BuildingStateView::Filter {
                            config: new_config,
                            buffer: old(self)@.state->Filter_buffer,
                        },
                        ..old(self)@
                    })
                } else {
                    final(self)@ == old(self)@
                }
            }),
    {
        match &mut self.state {
            BuildingState::Filter { config, .. } => {
                let same = match (&*config, &new_config) {
                    (FilterConfig::Ip(_), FilterConfig::Ip(_)) => true,
                    (FilterConfig::Port(_), FilterConfig::Port(_)) => true,
                    (FilterConfig::Length(_), FilterConfig::Length(_)) => true,
                    (FilterConfig::Protocol(_), FilterConfig::Protocol(_)) => true,
                    (FilterConfig::Content(_), FilterConfig::Content(_)) => true,
                    _ => false,
                };
                if same {
                    *config = new_config;
                    true
                } else {
                    false
                }
            },
            _ => false,
        }
    }

    /// Hand the source its traffic schedule, resetting its clock and
    /// release cursor.
    pub fn set_traffic(&mut self, traffic: Traffic) -> (r: bool)
        ensures
            r == (old(self)@.btype() == BuildingType::Internet),
            if r {
                final(self)@ == (BuildingView {
                    state: BuildingStateView::Internet {
                        queue: old(self)@.state->Internet_queue,
                        schedule: traffic.packets@,
                        clock: 0u64,
                        next_packet_index: 0usize,
                    },
                    ..old(self)@
                })
            } else {
                final(self)@ == old(self)@
            },
            old(self)@.wf() ==> final(self)@.wf(),
    {
        match &mut self.state {
            BuildingState::Internet { schedule, clock, next_packet_index, .. } => {
                *schedule = Some(traffic);
                *clock = 0;
                *next_packet_index = 0;
                true
            },
            _ => false,
        }
    }

    /// Put a packet straight into the source's release queue.
    pub fn add_packet(&mut self, packet: Packet) -> (r: bool)
        ensures
            r == (old(self)@.btype() == BuildingType::Internet),
            if r {
                final(self)@ == (BuildingView {
                    state: BuildingStateView::Internet {
                        queue: old(self)@.state->Internet_queue.push(packet@),
                        schedule: old(self)@.state->Internet_schedule,
                        clock: old(self)@.state->Internet_clock,
                        next_packet_index: old(self)@.state->Internet_next_packet_index,
                    },
                    ..old(self)@
                })
            } else {
                final(self)@ == old(self)@
            },
            old(self)@.wf() ==> final(self)@.wf(),
    {
        match &mut self.state {
            BuildingState::Internet { queue, .. } => {
                let ghost q0 = queue@;
                let ghost pv = packet@;
                queue.push(packet);
                proof {
                    assert(packet_views(queue@) =~= packet_views(q0).push(pv));
                    assert(self@ =~= (BuildingView {
                        state: BuildingStateView::Internet {
                            queue: old(self)@.state->Internet_queue.push(pv),
                            schedule: old(self)@.state->Internet_schedule,
                            clock: old(self)@.state->Internet_clock,
                            next_packet_index: old(self)@.state->Internet_next_packet_index,
                        },
                        ..old(self)@
                    }));
                }
                true
            },
            _ => false,
        }
    }

    /// The tile a junction's buffered packet will leave through: the tile
    /// directly opposite the remembered source, relative to the junction.
    pub fn pending_output_pos(&self) -> (r: Option<Vec2i>)
        requires
            self@.wf(),
        ensures
            match self@.state {
                BuildingStateView::Junction { buffer: Some((_, src)) } => r == Some(
                    Vec2i {
                        x: (self.pos.x + (self.pos.x - src.x)) as i32,
                        y: (self.pos.y + (self.pos.y - src.y)) as i32,
                    },
                ),
                _ => r is None,
            },
    {
        match &self.state {
            BuildingState::Junction { buffer: Some((_, src)) } => Some(
                Vec2i {
                    x: self.pos.x + (self.pos.x - src.x),
                    y: self.pos.y + (self.pos.y - src.y),
                },
            ),
            _ => None,
        }
    }
}

/// Whether the schedule entry at `idx` exists and is due at `clock`.
fn entry_due(traffic: &Traffic, idx: usize, clock: u64) -> (r: bool)
    ensures
        r == (idx < traffic.packets@.len() && spec_timestamp_due(
            traffic.packets@[idx as int].timestamp,
            clock,
        )),
{
    if idx < traffic.packets.len() {
        let ts = traffic.packets[idx].timestamp;
        ts <= 0 || (ts as u64) <= clock
    } else {
        false
    }
}

/// Push a verified copy of every packet in `src` onto `out`.
fn clone_packets(src: &Vec<Packet>, out: &mut Vec<Packet>)
    ensures
        packet_views(final(out)@) == packet_views(old(out)@) + packet_views(src@),
{
    let n = src.len();
    let mut i: usize = 0;
    while i < n
        invariant
            n == src@.len(),
            i <= n,
            packet_views(out@) == packet_views(old(out)@) + packet_views(src@.take(i as int)),
        decreases n - i,
    {
        let ghost out0 = out@;
        let c = src[i].clone();
        let ghost cv = c@;
        out.push(c);
        proof {
            assert(packet_views(out@) =~= packet_views(out0).push(cv));
            assert(packet_views(src@.take(i + 1)) =~= packet_views(src@.take(i as int)).push(cv));
            assert(packet_views(out@) =~= packet_views(old(out)@) + packet_views(
                src@.take(i + 1),
            ));
        }
        i = i + 1;
    }
    proof {
        assert(src@.take(n as int) =~= src@);
    }
}

/// Two structure views agree on identity, position and kind (and so on
/// their whole geometry).
pub open spec fn same_shape(a: BuildingView, b: BuildingView) -> bool {
    a.id == b.id && a.pos == b.pos && a.btype() == b.btype()
}

/// Advancing never changes a structure's identity, position or kind.
pub proof fn lemma_shape_advanced(b: BuildingView, delta: u64)
    ensures
        same_shape(b, b.advanced(delta)),
{
}

/// Offloading never changes a structure's identity, position or kind.
pub proof fn lemma_shape_offloaded(b: BuildingView)
    ensures
        same_shape(b, b.offloaded()),
{
}

/// Accepting never changes a structure's identity, position or kind.
pub proof fn lemma_shape_accepted(b: BuildingView, p: PacketView, src: Vec2i)
    ensures
        same_shape(b, b.accepted(p, src)),
{
}

/// A structure that can offload has a packet to peek at.
pub proof fn lemma_can_offload_peek(b: BuildingView)
    ensures
        b.can_offload() ==> b.peek() is Some,
{
}

/// Whether two filter configuration slots belong to the same filter kind.
pub open spec fn same_filter_kind(a: FilterConfig, b: FilterConfig) -> bool {
    match (a, b) {
        (FilterConfig::Ip(_), FilterConfig::Ip(_)) => true,
        (FilterConfig::Port(_), FilterConfig::Port(_)) => true,
        (FilterConfig::Length(_), FilterConfig::Length(_)) => true,
        (FilterConfig::Protocol(_), FilterConfig::Protocol(_)) => true,
        (FilterConfig::Content(_), FilterConfig::Content(_)) => true,
        _ => false,
    }
}

/// Total simulated time of a delta sequence, in microseconds.
pub open spec fn spec_delta_sum(deltas: Seq<u64>) -> int
    decreases deltas.len(),
{
    if deltas.len() == 0 {
        0
    } else {
        spec_delta_sum(deltas.drop_last()) + deltas.last()
    }
}

/// A structure advanced through a whole sequence of ticks.
pub open spec fn spec_run_ticks(b: BuildingView, deltas: Seq<u64>) -> BuildingView
    decreases deltas.len(),
{
    if deltas.len() == 0 {
        b
    } else {
        spec_run_ticks(b, deltas.drop_last()).advanced(deltas.last())
    }
}

/// Conveyor progress law: a packet accepted from `src` starts at progress
/// zero for a rear entry and at half progress for a lateral entry; across
/// any sequence of ticks its progress is the accumulated simulated time
/// plus its starting progress, clamped at exactly full progress, and so
/// never exceeds it. In particular a rear entry completes after exactly
/// one simulated second and a lateral entry after half a second.
pub proof fn lemma_conveyor_progress_law(
    b: BuildingView,
    p: PacketView,
    src: Vec2i,
    deltas: Seq<u64>,
)
    requires
        b.state matches BuildingStateView::Conveyor { buffer: None },
    ensures
        ({
            let side = b.entry_side(src);
            let start: int = if side is Left || side is Right {
                PROGRESS_HALF as int
            } else {
                0
            };
            let after = spec_run_ticks(b.accepted(p, src), deltas);
            &&& after.state is Conveyor
            &&& after.state->Conveyor_buffer is Some
            &&& after.progress() == if start + spec_delta_sum(deltas) >= PROGRESS_FULL {
                PROGRESS_FULL as int
            } else {
                start + spec_delta_sum(deltas)
            }
            &&& after.progress() <= PROGRESS_FULL
        }),
    decreases deltas.len(),
{
    if deltas.len() > 0 {
        lemma_conveyor_progress_law(b, p, src, deltas.drop_last());
    }
}

} // verus!
