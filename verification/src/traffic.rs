//! The traffic schedule: a time-ordered sequence of packet descriptors that
//! a source structure releases into the factory.
//!
//! Loaders hand this module plain values (strings, integers, bytes); the
//! functions here validate them, decode escaped payload text, sort by
//! timestamp and normalize timestamps so that the earliest becomes zero.

use vstd::prelude::*;

use crate::packet::PacketLabel;
use vstd::string::StringSliceAdditionalSpecFns;

verus! {

/// One scheduled packet descriptor. Timestamps are microseconds relative to
/// the schedule start; `protocol` is the raw IP protocol number and `label`
/// the raw correctness label.
#[derive(Clone, Debug)]
pub struct TrafficPacket {
    pub src_ip: String,
    pub dst_ip: String,
    pub src_port: u16,
    pub dst_port: u16,
    pub protocol: u8,
    pub packet_size: u32,
    pub timestamp: i64,
    pub label: i64,
    pub payload: Vec<u8>,
}

/// An ordered traffic schedule.
#[derive(Clone, Debug)]
pub struct Traffic {
    pub packets: Vec<TrafficPacket>,
}

impl Traffic {
    /// An empty schedule.
    pub fn new() -> (r: Self)
        ensures
            r.packets@.len() == 0,
    {
        Traffic { packets: Vec::new() }
    }

    /// Number of scheduled packets.
    pub fn packet_count(&self) -> (r: usize)
        ensures
            r == self.packets@.len(),
    {
        self.packets.len()
    }

    /// True when the schedule holds no packets.
    pub fn is_empty(&self) -> (r: bool)
        ensures
            r == (self.packets@.len() == 0),
    {
        self.packets.is_empty()
    }

    /// The packet at `index`, if there is one.
    pub fn get_packet(&self, index: usize) -> (r: Option<&TrafficPacket>)
        ensures
            index < self.packets@.len() ==> r == Some(&self.packets@[index as int]),
            index >= self.packets@.len() ==> r is None,
    {
        if index < self.packets.len() {
            Some(&self.packets[index])
        } else {
            None
        }
    }

    /// Append a packet at the end of the schedule.
    pub fn push_packet(&mut self, packet: TrafficPacket)
        ensures
            final(self).packets@ == old(self).packets@.push(packet),
    {
        self.packets.push(packet);
    }

    /// Remove every packet.
    pub fn clear(&mut self)
        ensures
            final(self).packets@.len() == 0,
    {
        self.packets.clear();
    }
}

/// `a - b` on `i64`, saturating at the type's bounds.
pub open spec fn spec_saturating_sub_i64(a: int, b: int) -> int {
    if a - b > i64::MAX {
        i64::MAX as int
    } else if a - b < i64::MIN {
        i64::MIN as int
    } else {
        a - b
    }
}

/// A raw timestamp shifted so that the baseline (the earliest timestamp of
/// the schedule) becomes zero; without a baseline it is kept as it is.
pub open spec fn spec_normalize_timestamp(raw: i64, baseline: Option<i64>) -> int {
    match baseline {
        Some(base) => spec_saturating_sub_i64(raw as int, base as int),
        None => raw as int,
    }
}

/// Shift a raw timestamp against the schedule baseline, saturating instead
/// of overflowing.
pub fn normalize_timestamp(raw: i64, baseline: Option<i64>) -> (r: i64)
    ensures
        r == spec_normalize_timestamp(raw, baseline),
{
    match baseline {
        Some(base) => match raw.checked_sub(base) {
            Some(v) => v,
            None => if base < 0 {
                i64::MAX
            } else {
                i64::MIN
            },
        },
        None => raw,
    }
}

/// Value of an ASCII hexadecimal digit, if the byte is one.
pub open spec fn spec_hex_value(b: u8) -> Option<u8> {
    if 48 <= b && b <= 57 {
        Some((b - 48) as u8)
    } else if 97 <= b && b <= 102 {
        Some((b - 97 + 10) as u8)
    } else if 65 <= b && b <= 70 {
        Some((b - 65 + 10) as u8)
    } else {
        None
    }
}

fn hex_value(b: u8) -> (r: Option<u8>)
    ensures
        r == spec_hex_value(b),
{
    if 48 <= b && b <= 57 {
        Some(b - 48)
    } else if 97 <= b && b <= 102 {
        Some(b - 97 + 10)
    } else if 65 <= b && b <= 70 {
        Some(b - 65 + 10)
    } else {
        None
    }
}

/// The byte a single-character escape `\c` stands for.
pub open spec fn spec_escape_byte(c: u8) -> u8 {
    if c == 92 {
        92u8
    } else if c == 110 {
        10u8
    } else if c == 114 {
        13u8
    } else if c == 116 {
        9u8
    } else if c == 48 {
        0u8
    } else {
        c
    }
}

/// Decoding of an escaped payload string (as bytes): plain bytes stand for
/// themselves, `\xHH` for the byte with that hexadecimal value, and `\c`
/// for the usual escape (`\\`, `\n`, `\r`, `\t`, `\0`; any other escaped
/// byte stands for itself). A trailing backslash or a malformed hex escape
/// makes the whole string undecodable.
pub open spec fn spec_decode_payload(s: Seq<u8>) -> Option<Seq<u8>>
    decreases s.len(),
{
    if s.len() == 0 {
        Some(Seq::empty())
    } else if s[0] != 92 {
        match spec_decode_payload(s.skip(1)) {
            Some(rest) => Some(seq![s[0]] + rest),
            None => None,
        }
    } else if s.len() < 2 {
        None
    } else if s[1] == 120 || s[1] == 88 {
        if s.len() < 4 {
            None
        } else {
            match (spec_hex_value(s[2]), spec_hex_value(s[3])) {
                (Some(hi), Some(lo)) => match spec_decode_payload(s.skip(4)) {
                    Some(rest) => Some(seq![((hi << 4) | lo) as u8] + rest),
                    None => None,
                },
                _ => None,
            }
        }
    } else {
        match spec_decode_payload(s.skip(2)) {
            Some(rest) => Some(seq![spec_escape_byte(s[1])] + rest),
            None => None,
        }
    }
}

/// Decode an escaped payload string into raw bytes; `None` when the string
/// is malformed.
pub fn decode_payload(encoded: &str) -> (r: Option<Vec<u8>>)
    ensures
        (r matches Some(v) ==> spec_decode_payload(encoded.spec_bytes()) == Some(v@)),
        r is None ==> spec_decode_payload(encoded.spec_bytes()) is None,
{
    decode_payload_bytes(encoded.as_bytes())
}

/// Decode an escaped payload, given as its ASCII bytes, into raw bytes.
pub fn decode_payload_bytes(s: &[u8]) -> (r: Option<Vec<u8>>)
    ensures
        (r matches Some(v) ==> spec_decode_payload(s@) == Some(v@)),
        r is None ==> spec_decode_payload(s@) is None,
{
    let n = s.len();
    let mut out: Vec<u8> = Vec::new();
    let mut i: usize = 0;
    proof {
        assert(s@.skip(0) =~= s@);
        if spec_decode_payload(s@) is Some {
            assert(Seq::<u8>::empty() + spec_decode_payload(s@)->Some_0 =~= spec_decode_payload(
                s@,
            )->Some_0);
        }
    }
    while i < n
        invariant
            n == s@.len(),
            i <= n,
            match spec_decode_payload(s@.skip(i as int)) {
                Some(rest) => spec_decode_payload(s@) == Some(out@ + rest),
                None => spec_decode_payload(s@) is None,
            },
        decreases n - i,
    {
        let ghost pre = s@.skip(i as int);
        let b = s[i];
        proof {
            assert(pre[0] == b);
        }
        if b != 92 {
            proof {
                assert(pre.skip(1) =~= s@.skip(i + 1));
            }
            out.push(b);
            proof {
                if spec_decode_payload(s@.skip(i + 1)) is Some {
                    let rest = spec_decode_payload(s@.skip(i + 1))->Some_0;
                    assert(out@ + rest =~= out@.drop_last() + (seq![b] + rest));
                }
            }
            i = i + 1;
        } else if n - i < 2 {
            proof {
                assert(pre.len() < 2);
                assert(spec_decode_payload(pre) is None);
                assert(spec_decode_payload(s@) is None);
            }
            return None;
        } else {
            let c = s[i + 1];
            proof {
                assert(pre[1] == c);
            }
            if c == 120 || c == 88 {
                if n - i < 4 {
                    proof {
                        assert(pre.len() < 4);
                        assert(spec_decode_payload(pre) is None);
                        assert(spec_decode_payload(s@) is None);
                    }
                    return None;
                }
                let hi = hex_value(s[i + 2]);
                let lo = hex_value(s[i + 3]);
                proof {
                    assert(pre[2] == s@[i + 2] && pre[3] == s@[i + 3]);
                    assert(pre.skip(4) =~= s@.skip(i + 4));
                }
                match (hi, lo) {
                    (Some(h), Some(l)) => {
                        proof {
                            assert(h < 16 && l < 16) by {
                                assert(spec_hex_value(s@[i + 2]) == Some(h));
                                assert(spec_hex_value(s@[i + 3]) == Some(l));
                            }
                            assert((h << 4) < 256 && ((h << 4) | l) < 256) by (bit_vector)
                                requires
                                    h < 16 && l < 16,
                            ;
                        }
                        out.push((h << 4) | l);
                        proof {
                            if spec_decode_payload(s@.skip(i + 4)) is Some {
                                let rest = spec_decode_payload(s@.skip(i + 4))->Some_0;
                                assert(out@ + rest =~= out@.drop_last() + (seq![
                                    ((h << 4) | l) as u8,
                                ] + rest));
                            }
                        }
                        i = i + 4;
                    },
                    _ => {
                        proof {
                            assert(spec_decode_payload(pre) is None);
                            assert(spec_decode_payload(s@) is None);
                        }
                        return None;
                    },
                }
            } else {
                proof {
                    assert(pre.skip(2) =~= s@.skip(i + 2));
                }
                let decoded = escape_byte(c);
                out.push(decoded);
                proof {
                    if spec_decode_payload(s@.skip(i + 2)) is Some {
                        let rest = spec_decode_payload(s@.skip(i + 2))->Some_0;
                        assert(out@ + rest =~= out@.drop_last() + (seq![spec_escape_byte(c)]
                            + rest));
                    }
                }
                i = i + 2;
            }
        }
    }
    proof {
        assert(s@.skip(n as int) =~= Seq::<u8>::empty());
        assert(out@ + Seq::<u8>::empty() =~= out@);
    }
    Some(out)
}

fn escape_byte(c: u8) -> (r: u8)
    ensures
        r == spec_escape_byte(c),
{
    if c == 92 {
        92
    } else if c == 110 {
        10
    } else if c == 114 {
        13
    } else if c == 116 {
        9
    } else if c == 48 {
        0
    } else {
        c
    }
}

/// Insertion of one packet into a timestamp-sorted sequence, after any
/// packet with the same timestamp (so that sorting is stable).
pub open spec fn spec_insert_by_timestamp(s: Seq<TrafficPacket>, p: TrafficPacket) -> Seq<
    TrafficPacket,
>
    decreases s.len(),
{
    if s.len() == 0 {
        seq![p]
    } else if s.last().timestamp <= p.timestamp {
        s.push(p)
    } else {
        spec_insert_by_timestamp(s.drop_last(), p).push(s.last())
    }
}

/// Stable insertion sort of a packet sequence by timestamp.
pub open spec fn spec_sort_by_timestamp(s: Seq<TrafficPacket>) -> Seq<TrafficPacket>
    decreases s.len(),
{
    if s.len() == 0 {
        Seq::empty()
    } else {
        spec_insert_by_timestamp(spec_sort_by_timestamp(s.drop_last()), s.last())
    }
}

/// Non-decreasing timestamps.
pub open spec fn timestamps_sorted(s: Seq<TrafficPacket>) -> bool {
    forall|i: int, j: int| 0 <= i <= j < s.len() ==> s[i].timestamp <= s[j].timestamp
}

proof fn lemma_insert_at(s: Seq<TrafficPacket>, p: TrafficPacket, j: int)
    requires
        0 <= j <= s.len(),
        forall|k: int| j <= k < s.len() ==> s[k].timestamp > p.timestamp,
        j > 0 ==> s[j - 1].timestamp <= p.timestamp,
    ensures
        spec_insert_by_timestamp(s, p) == s.insert(j, p),
    decreases s.len(),
{
    if s.len() == 0 {
        assert(spec_insert_by_timestamp(s, p) =~= s.insert(0, p));
    } else if s.last().timestamp <= p.timestamp {
        assert(j == s.len());
        assert(spec_insert_by_timestamp(s, p) =~= s.insert(j, p));
    } else {
        lemma_insert_at(s.drop_last(), p, j);
        assert(spec_insert_by_timestamp(s, p) =~= s.insert(j, p));
    }
}

/// Sortedness of the insertion-sort image.
pub proof fn lemma_insert_sorted(s: Seq<TrafficPacket>, p: TrafficPacket)
    requires
        timestamps_sorted(s),
    ensures
        timestamps_sorted(spec_insert_by_timestamp(s, p)),
        spec_insert_by_timestamp(s, p).to_multiset() == s.to_multiset().insert(p),
        spec_insert_by_timestamp(s, p).len() == s.len() + 1,
    decreases s.len(),
{
    broadcast use vstd::seq_lib::group_to_multiset_ensures;

    if s.len() == 0 {
        assert(seq![p] =~= Seq::<TrafficPacket>::empty().push(p));
        assert(spec_insert_by_timestamp(s, p).to_multiset() =~~= s.to_multiset().insert(p));
    } else if s.last().timestamp <= p.timestamp {
        assert(spec_insert_by_timestamp(s, p).to_multiset() =~~= s.to_multiset().insert(p));
    } else {
        assert(timestamps_sorted(s.drop_last())) by {
            assert(forall|i: int, j: int|
                0 <= i <= j < s.len() - 1 ==> s.drop_last()[i] == s[i] && s.drop_last()[j] == s[j]);
        }
        lemma_insert_sorted(s.drop_last(), p);
        let inner = spec_insert_by_timestamp(s.drop_last(), p);
        let whole = inner.push(s.last());
        assert(timestamps_sorted(whole)) by {
            assert(forall|i: int| 0 <= i < inner.len() ==> whole[i] == inner[i]);
            assert(whole.last() == s.last());
            assert forall|i: int, j: int| 0 <= i <= j < whole.len() implies whole[i].timestamp
                <= whole[j].timestamp by {
                if j < whole.len() - 1 {
                    assert(inner[i].timestamp <= inner[j].timestamp);
                } else if i < whole.len() - 1 {
                    assert(inner[i].timestamp <= p.timestamp || exists|k: int|
                        0 <= k < s.len() - 1 && inner[i] == s[k]) by {
                        lemma_insert_membership(s.drop_last(), p, i);
                    }
                    assert(whole[i].timestamp <= s.last().timestamp);
                }
            }
        }
        assert(whole.to_multiset() =~~= s.to_multiset().insert(p)) by {
            assert(inner.to_multiset() == s.drop_last().to_multiset().insert(p));
            assert(s =~= s.drop_last().push(s.last()));
            assert(s.to_multiset() == s.drop_last().to_multiset().insert(s.last()));
        }
    }
}

proof fn lemma_insert_membership(s: Seq<TrafficPacket>, p: TrafficPacket, i: int)
    requires
        0 <= i < spec_insert_by_timestamp(s, p).len(),
    ensures
        spec_insert_by_timestamp(s, p)[i] == p || exists|k: int|
            0 <= k < s.len() && spec_insert_by_timestamp(s, p)[i] == s[k],
    decreases s.len(),
{
    if s.len() == 0 {
    } else if s.last().timestamp <= p.timestamp {
        if i < s.len() {
            assert(spec_insert_by_timestamp(s, p)[i] == s[i]);
        }
    } else {
        let inner = spec_insert_by_timestamp(s.drop_last(), p);
        if i < inner.len() {
            lemma_insert_membership(s.drop_last(), p, i);
            if inner[i] != p {
                let k = choose|k: int| 0 <= k < s.len() - 1 && inner[i] == s.drop_last()[k];
                assert(spec_insert_by_timestamp(s, p)[i] == s[k]);
            }
        } else {
            assert(spec_insert_by_timestamp(s, p)[i] == s[s.len() - 1]);
        }
    }
}

/// The insertion sort sorts and keeps the multiset of packets.
pub proof fn lemma_sort_by_timestamp(s: Seq<TrafficPacket>)
    ensures
        timestamps_sorted(spec_sort_by_timestamp(s)),
        spec_sort_by_timestamp(s).to_multiset() == s.to_multiset(),
        spec_sort_by_timestamp(s).len() == s.len(),
    decreases s.len(),
{
    broadcast use vstd::seq_lib::group_to_multiset_ensures;

    if s.len() == 0 {
        assert(spec_sort_by_timestamp(s).to_multiset() =~~= s.to_multiset());
    } else {
        lemma_sort_by_timestamp(s.drop_last());
        lemma_insert_sorted(spec_sort_by_timestamp(s.drop_last()), s.last());
        assert(s =~= s.drop_last().push(s.last()));
        assert(s.to_multiset() == s.drop_last().to_multiset().insert(s.last()));
    }
}

/// Sort a packet vector by timestamp; equal timestamps keep their order.
pub fn sort_packets_by_timestamp(packets: Vec<TrafficPacket>) -> (r: Vec<TrafficPacket>)
    ensures
        r@ == spec_sort_by_timestamp(packets@),
        timestamps_sorted(r@),
        r@.to_multiset() == packets@.to_multiset(),
        r@.len() == packets@.len(),
{
    let ghost full = packets@;
    let total = packets.len();
    let mut rest = packets;
    let mut out: Vec<TrafficPacket> = Vec::new();
    let mut taken: usize = 0;
    while rest.len() > 0
        invariant
            total == full.len(),
            taken + rest@.len() == full.len(),
            rest@ == full.skip(taken as int),
            out@ == spec_sort_by_timestamp(full.take(taken as int)),
            timestamps_sorted(out@),
        decreases rest@.len(),
    {
        let ghost prefix = full.take(taken as int);
        let p = rest.remove(0);
        proof {
            assert(p == full[taken as int]);
            assert(rest@ =~= full.skip(taken as int + 1));
        }
        let mut j = out.len();
        while j > 0 && out[j - 1].timestamp > p.timestamp
            invariant
                0 <= j <= out@.len(),
                forall|k: int| j <= k < out@.len() ==> out@[k].timestamp > p.timestamp,
            decreases j,
        {
            j = j - 1;
        }
        proof {
            lemma_insert_at(out@, p, j as int);
            lemma_insert_sorted(out@, p);
            assert(full.take(taken as int + 1).drop_last() =~= prefix);
            assert(full.take(taken as int + 1).last() == p);
        }
        out.insert(j, p);
        taken = taken + 1;
    }
    proof {
        assert(full.take(taken as int) =~= full);
        lemma_sort_by_timestamp(full);
    }
    out
}

/// The earliest timestamp in a packet sequence, if it is not empty.
pub open spec fn spec_min_timestamp(s: Seq<TrafficPacket>) -> Option<i64>
    decreases s.len(),
{
    if s.len() == 0 {
        None
    } else {
        match spec_min_timestamp(s.drop_last()) {
            Some(m) => if s.last().timestamp < m {
                Some(s.last().timestamp)
            } else {
                Some(m)
            },
            None => Some(s.last().timestamp),
        }
    }
}

/// Build the final schedule from loader output: sort the packets by
/// timestamp and shift every timestamp so that the earliest becomes zero.
pub fn capture_to_traffic(packets: Vec<TrafficPacket>) -> (r: Traffic)
    ensures
        ({
            let sorted = spec_sort_by_timestamp(packets@);
            let baseline = if sorted.len() == 0 {
                None
            } else {
                Some(sorted[0].timestamp)
            };
            &&& r.packets@.len() == packets@.len()
            &&& forall|i: int|
                0 <= i < sorted.len() ==> r.packets@[i] == (TrafficPacket {
                    timestamp: spec_normalize_timestamp(sorted[i].timestamp, baseline) as i64,
                    ..sorted[i]
                })
        }),
{
    let mut sorted = sort_packets_by_timestamp(packets);
    let n = sorted.len();
    if n == 0 {
        return Traffic { packets: sorted };
    }
    let baseline = sorted[0].timestamp;
    let ghost sorted0 = sorted@;
    let mut i: usize = 0;
    while i < n
        invariant
            n == sorted@.len(),
            sorted0.len() == n,
            i <= n,
            forall|k: int|
                i <= k < n ==> sorted@[k] == sorted0[k],
            forall|k: int|
                0 <= k < i ==> sorted@[k] == (TrafficPacket {
                    timestamp: spec_normalize_timestamp(sorted0[k].timestamp, Some(baseline)) as i64,
                    ..sorted0[k]
                }),
        decreases n - i,
    {
        let ts = sorted[i].timestamp;
        let shifted = normalize_timestamp(ts, Some(baseline));
        sorted[i].timestamp = shifted;
        i = i + 1;
    }
    Traffic { packets: sorted }
}

/// One raw packet entry as a loader reads it, before validation: optional
/// fields are absent where the input did not carry them.
#[derive(Debug)]
pub struct PacketEntry {
    pub src_ip: String,
    pub dst_ip: String,
    pub src_port: u16,
    pub dst_port: u16,
    pub protocol: u8,
    pub size: u32,
    pub timestamp: Option<i64>,
    pub label: Option<PacketLabel>,
    /// The escaped payload text, as its ASCII bytes.
    pub payload: Option<Vec<u8>>,
}

/// Lower-case image of an ASCII byte.
pub open spec fn spec_lower_byte(b: u8) -> u8 {
    if 65 <= b && b <= 90 {
        (b + 32) as u8
    } else {
        b
    }
}

/// Case-insensitive ASCII equality of a string's bytes against a
/// lower-case word.
pub open spec fn spec_ascii_matches(s: Seq<u8>, word: Seq<u8>) -> bool {
    s.map_values(|b: u8| spec_lower_byte(b)) == word
}

fn ascii_matches(text: &str, word: &[u8]) -> (r: bool)
    ensures
        r == spec_ascii_matches(text.spec_bytes(), word@),
{
    let s = text.as_bytes();
    let n = s.len();
    if n != word.len() {
        proof {
            assert(s@.map_values(|b: u8| spec_lower_byte(b)).len() == s@.len());
        }
        return false;
    }
    let mut i: usize = 0;
    while i < n
        invariant
            s@ == text.spec_bytes(),
            n == s@.len(),
            n == word@.len(),
            i <= n,
            forall|l: int|
                0 <= l < i ==> spec_lower_byte(s@[l]) == word@[l],
        decreases n - i,
    {
        let b = s[i];
        let lowered = if 65 <= b && b <= 90 {
            b + 32
        } else {
            b
        };
        if lowered != word[i] {
            proof {
                assert(s@.map_values(|b: u8| spec_lower_byte(b))[i as int] != word@[i as int]);
            }
            return false;
        }
        i = i + 1;
    }
    proof {
        assert(s@.map_values(|b: u8| spec_lower_byte(b)) =~= word@);
    }
    true
}

/// The label a textual label value denotes, compared without regard to
/// ASCII case: `correct`, `incorrect` or `unknown`.
pub open spec fn spec_parse_label_value(s: Seq<u8>) -> Option<PacketLabel> {
    if spec_ascii_matches(s, seq![99u8, 111u8, 114u8, 114u8, 101u8, 99u8, 116u8]) {
        Some(PacketLabel::Correct)
    } else if spec_ascii_matches(
        s,
        seq![105u8, 110u8, 99u8, 111u8, 114u8, 114u8, 101u8, 99u8, 116u8],
    ) {
        Some(PacketLabel::Incorrect)
    } else if spec_ascii_matches(s, seq![117u8, 110u8, 107u8, 110u8, 111u8, 119u8, 110u8]) {
        Some(PacketLabel::Unknown)
    } else {
        None
    }
}

/// Parse a textual label value, ignoring ASCII case.
pub fn parse_label_value(text: &str) -> (r: Option<PacketLabel>)
    ensures
        r == spec_parse_label_value(text.spec_bytes()),
{
    let correct: [u8; 7] = [99, 111, 114, 114, 101, 99, 116];
    let incorrect: [u8; 9] = [105, 110, 99, 111, 114, 114, 101, 99, 116];
    let unknown: [u8; 7] = [117, 110, 107, 110, 111, 119, 110];
    proof {
        assert(correct@ =~= seq![99u8, 111u8, 114u8, 114u8, 101u8, 99u8, 116u8]);
        assert(incorrect@ =~= seq![105u8, 110u8, 99u8, 111u8, 114u8, 114u8, 101u8, 99u8, 116u8]);
        assert(unknown@ =~= seq![117u8, 110u8, 107u8, 110u8, 111u8, 119u8, 110u8]);
    }
    if ascii_matches(text, &correct) {
        Some(PacketLabel::Correct)
    } else if ascii_matches(text, &incorrect) {
        Some(PacketLabel::Incorrect)
    } else if ascii_matches(text, &unknown) {
        Some(PacketLabel::Unknown)
    } else {
        None
    }
}

/// The earliest timestamp actually present among the entries, if any.
pub open spec fn spec_min_present_timestamp(s: Seq<PacketEntry>) -> Option<i64>
    decreases s.len(),
{
    if s.len() == 0 {
        None
    } else {
        let rest = spec_min_present_timestamp(s.drop_last());
        match (rest, s.last().timestamp) {
            (Some(m), Some(ts)) => if ts < m {
                Some(ts)
            } else {
                Some(m)
            },
            (None, Some(ts)) => Some(ts),
            (Some(m), None) => Some(m),
            (None, None) => None,
        }
    }
}

/// Whether a schedule packet carries exactly an entry's data, with the
/// given raw timestamp default and the payload decoded.
pub open spec fn spec_entry_converted(e: PacketEntry, p: TrafficPacket) -> bool {
    &&& p.src_ip@ == e.src_ip@
    &&& p.dst_ip@ == e.dst_ip@
    &&& p.src_port == e.src_port
    &&& p.dst_port == e.dst_port
    &&& p.protocol == e.protocol
    &&& p.packet_size == e.size
    &&& p.timestamp == match e.timestamp {
        Some(ts) => ts,
        None => 0i64,
    }
    &&& p.label == (match e.label {
        Some(l) => l,
        None => PacketLabel::Unknown,
    }).spec_to_raw()
    &&& p.payload@ == match e.payload {
        Some(s) => spec_decode_payload(s@)->Some_0,
        None => Seq::<u8>::empty(),
    }
}

/// Whether every payload carried by the entries decodes.
pub open spec fn spec_entries_decodable(s: Seq<PacketEntry>) -> bool {
    forall|l: int|
        0 <= l < s.len() ==> match (#[trigger] s[l]).payload {
            Some(p) => spec_decode_payload(p@) is Some,
            None => true,
        }
}

/// Validate and convert raw entries, in order, to schedule packets with
/// raw timestamps, also computing the baseline (the earliest timestamp
/// actually present). Fails when any payload is malformed.
pub fn convert_json_entries(entries: Vec<PacketEntry>) -> (r: Option<(Vec<TrafficPacket>, Option<
    i64,
>)>)
    ensures
        r is Some <==> spec_entries_decodable(entries@),
        (r matches Some(pair) ==> {
            &&& pair.0@.len() == entries@.len()
            &&& forall|l: int|
                0 <= l < entries@.len() ==> spec_entry_converted(
                    entries@[l],
                    #[trigger] pair.0@[l],
                )
            &&& pair.1 == spec_min_present_timestamp(entries@)
        }),
{
    let n = entries.len();
    let mut packets: Vec<TrafficPacket> = Vec::new();
    let mut baseline: Option<i64> = None;
    let mut i: usize = 0;
    while i < n
        invariant
            n == entries@.len(),
            i <= n,
            packets@.len() == i,
            forall|l: int|
                0 <= l < i ==> spec_entry_converted(entries@[l], #[trigger] packets@[l]),
            forall|l: int|
                0 <= l < i ==> match (#[trigger] entries@[l]).payload {
                    Some(p) => spec_decode_payload(p@) is Some,
                    None => true,
                },
            baseline == spec_min_present_timestamp(entries@.take(i as int)),
        decreases n - i,
    {
        let e = &entries[i];
        let payload: Vec<u8> = match &e.payload {
            Some(text) => match decode_payload_bytes(text.as_slice()) {
                Some(bytes) => bytes,
                None => {
                    return None;
                },
            },
            None => Vec::new(),
        };
        let raw_ts = match e.timestamp {
            Some(ts) => ts,
            None => 0,
        };
        let label = match e.label {
            Some(l) => l,
            None => PacketLabel::Unknown,
        };
        packets.push(
            TrafficPacket {
                src_ip: e.src_ip.clone(),
                dst_ip: e.dst_ip.clone(),
                src_port: e.src_port,
                dst_port: e.dst_port,
                protocol: e.protocol,
                packet_size: e.size,
                timestamp: raw_ts,
                label: label.to_raw(),
                payload,
            },
        );
        baseline = match (baseline, e.timestamp) {
            (Some(m), Some(ts)) => if ts < m {
                Some(ts)
            } else {
                Some(m)
            },
            (None, Some(ts)) => Some(ts),
            (m, None) => m,
        };
        proof {
            assert(entries@.take(i + 1).drop_last() =~= entries@.take(i as int));
            assert(entries@.take(i + 1).last() == entries@[i as int]);
        }
        i = i + 1;
    }
    proof {
        assert(entries@.take(n as int) =~= entries@);
    }
    Some((packets, baseline))
}

/// Sort schedule packets by timestamp and shift them against a given
/// baseline.
pub fn finish_schedule(packets: Vec<TrafficPacket>, baseline: Option<i64>) -> (r: Traffic)
    ensures
        ({
            let sorted = spec_sort_by_timestamp(packets@);
            &&& r.packets@.len() == packets@.len()
            &&& forall|l: int|
                0 <= l < sorted.len() ==> r.packets@[l] == (TrafficPacket {
                    timestamp: spec_normalize_timestamp(sorted[l].timestamp, baseline) as i64,
                    ..sorted[l]
                })
        }),
{
    let mut sorted = sort_packets_by_timestamp(packets);
    let n = sorted.len();
    let ghost sorted0 = sorted@;
    let mut i: usize = 0;
    while i < n
        invariant
            n == sorted@.len(),
            sorted0.len() == n,
            i <= n,
            forall|l: int| i <= l < n ==> sorted@[l] == sorted0[l],
            forall|l: int|
                0 <= l < i ==> sorted@[l] == (TrafficPacket {
                    timestamp: spec_normalize_timestamp(sorted0[l].timestamp, baseline) as i64,
                    ..sorted0[l]
                }),
        decreases n - i,
    {
        let ts = sorted[i].timestamp;
        let shifted = normalize_timestamp(ts, baseline);
        sorted[i].timestamp = shifted;
        i = i + 1;
    }
    Traffic { packets: sorted }
}

/// Validate, convert, sort and normalize a list of raw entries into the
/// final schedule; fails when any payload is malformed. The conversion,
/// sorting and shifting are those of [`convert_json_entries`] and
/// [`finish_schedule`].
pub fn json_entries_to_traffic(entries: Vec<PacketEntry>) -> (r: Option<Traffic>)
    ensures
        r is Some <==> spec_entries_decodable(entries@),
        (r matches Some(t) ==> t.packets@.len() == entries@.len() && timestamps_sorted(t.packets@)),
{
    match convert_json_entries(entries) {
        Some((packets, baseline)) => {
            let ghost converted = packets@;
            let t = finish_schedule(packets, baseline);
            proof {
                lemma_sort_by_timestamp(converted);
                assert(timestamps_sorted(t.packets@)) by {
                    let sorted = spec_sort_by_timestamp(converted);
                    assert forall|a: int, b: int|
                        0 <= a <= b < t.packets@.len() implies t.packets@[a].timestamp
                        <= t.packets@[b].timestamp by {
                        assert(sorted[a].timestamp <= sorted[b].timestamp);
                        assert(t.packets@[a].timestamp == spec_normalize_timestamp(
                            sorted[a].timestamp,
                            baseline,
                        ));
                        assert(t.packets@[b].timestamp == spec_normalize_timestamp(
                            sorted[b].timestamp,
                            baseline,
                        ));
                    }
                }
            }
            Some(t)
        },
        None => None,
    }
}

/// Assemble a schedule packet from the plain values a capture frame
/// parses to: the payload is the transport payload when one is present,
/// the network payload otherwise; the recorded size is the original
/// length clamped to the unsigned range; the timestamp combines seconds
/// and microseconds.
pub fn parsed_to_packet(
    src_ip: String,
    dst_ip: String,
    src_port: u16,
    dst_port: u16,
    protocol: u8,
    net_payload: Vec<u8>,
    transport_payload: Vec<u8>,
    orig_len: i64,
    timestamp_sec: i64,
    timestamp_usec: i64,
) -> (r: TrafficPacket)
    requires
        0 <= timestamp_sec <= 9_000_000_000_000,
        0 <= timestamp_usec < 1_000_000,
    ensures
        r.src_ip@ == src_ip@,
        r.dst_ip@ == dst_ip@,
        r.src_port == src_port,
        r.dst_port == dst_port,
        r.protocol == protocol,
        r.packet_size == if orig_len <= 0 {
            0u32
        } else if orig_len > u32::MAX {
            u32::MAX
        } else {
            orig_len as u32
        },
        r.timestamp == timestamp_sec * 1_000_000 + timestamp_usec,
        r.label == 0i64,
        r.payload@ == if transport_payload@.len() > 0 {
            transport_payload@
        } else {
            net_payload@
        },
{
    let size: u32 = if orig_len <= 0 {
        0
    } else if orig_len > u32::MAX as i64 {
        u32::MAX
    } else {
        orig_len as u32
    };
    let timestamp = timestamp_sec * 1_000_000 + timestamp_usec;
    let payload = if transport_payload.len() > 0 {
        transport_payload
    } else {
        net_payload
    };
    TrafficPacket {
        src_ip,
        dst_ip,
        src_port,
        dst_port,
        protocol,
        packet_size: size,
        timestamp,
        label: 0,
        payload,
    }
}

} // verus!
