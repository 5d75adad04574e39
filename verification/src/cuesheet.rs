//! Cue points and their cue sheet block.

use vstd::prelude::*;

use crate::byte_reader::{available, be_at, bytes_at};
use crate::bytes::{be_bytes, law_be_bytes_read_back, lemma_byte_ranges, push_be_bytes, read_be};

verus! {

/// The number of the track that ends a cue sheet.
pub const CUESHEET_LEADOUT_TRACK_NUMBER: u8 = 170;

/// The bytes of a cue sheet before its tracks.
pub const CUESHEET_HEADER_LEN: usize = 396;

/// The bytes of a track before its index points.
pub const CUESHEET_TRACK_HEADER_LEN: usize = 36;

/// The bytes of an index point.
pub const CUESHEET_INDEX_LEN: usize = 12;

/// The most tracks before the lead-out.
pub const MAX_CUESHEET_TRACKS: usize = 99;

/// A track of a cue sheet.
#[derive(Debug, Clone, Copy, PartialEq, Eq, Structural)]
pub struct CueTrack {
    /// The first sample of the track.
    pub offset: u64,
    /// The offset of index point 1 from the first sample, if the track has one.
    pub index_one: Option<u64>,
    /// Whether this is the track that ends the sheet.
    pub is_lead_out: bool,
}

/// The values increase from one to the next.
pub open spec fn strictly_ascending(values: Seq<u64>) -> bool {
    forall|i: int, j: int| 0 <= i < j < values.len() ==> values[i] < values[j]
}

/// `result` holds the values below the limit once each, in ascending order.
pub open spec fn is_normalized(result: Seq<u64>, values: Seq<u64>, limit: u64) -> bool {
    &&& strictly_ascending(result)
    &&& forall|value: u64|
        #[trigger] result.contains(value) <==> values.contains(value) && value < limit
}

/// The values below the limit once each, in ascending order.
pub open spec fn normalized_points(values: Seq<u64>, limit: u64) -> Seq<u64> {
    choose|result: Seq<u64>| #[trigger] is_normalized(result, values, limit)
}

/// There is no more than one normalized list.
pub proof fn law_normalized_points_are_unique(
    left: Seq<u64>,
    right: Seq<u64>,
    values: Seq<u64>,
    limit: u64,
)
    requires
        is_normalized(left, values, limit),
        is_normalized(right, values, limit),
    ensures
        left == right,
{
    assert forall|i: int| 0 <= i < left.len() && i < right.len() implies left[i] == right[i] by {
        lemma_same_prefix(left, right, values, limit, i);
    }
    lemma_no_extra_value(left, right, values, limit);
    lemma_no_extra_value(right, left, values, limit);
    assert(left == right);
}

proof fn lemma_same_prefix(
    left: Seq<u64>,
    right: Seq<u64>,
    values: Seq<u64>,
    limit: u64,
    index: int,
)
    requires
        is_normalized(left, values, limit),
        is_normalized(right, values, limit),
        0 <= index < left.len(),
        index < right.len(),
    ensures
        left[index] == right[index],
    decreases index,
{
    assert forall|i: int| 0 <= i < index implies left[i] == right[i] by {
        lemma_same_prefix(left, right, values, limit, i);
    }
    if left[index] < right[index] {
        assert(left.contains(left[index]));
        assert(right.contains(left[index]));
        let place = right.index_of(left[index]);
        assert(right[place] == left[index]);
        if place < index {
            assert(left[place] < left[index]);
        } else if place > index {
            assert(right[index] < right[place]);
        }
    }
    if right[index] < left[index] {
        assert(right.contains(right[index]));
        assert(left.contains(right[index]));
        let place = left.index_of(right[index]);
        assert(left[place] == right[index]);
        if place < index {
            assert(right[place] < right[index]);
        } else if place > index {
            assert(left[index] < left[place]);
        }
    }
}

proof fn lemma_no_extra_value(short: Seq<u64>, long: Seq<u64>, values: Seq<u64>, limit: u64)
    requires
        is_normalized(short, values, limit),
        is_normalized(long, values, limit),
    ensures
        long.len() <= short.len(),
{
    if short.len() < long.len() {
        let extra = long[short.len() as int];
        assert(long.contains(extra));
        assert(short.contains(extra));
        let place = short.index_of(extra);
        assert(short[place] == extra);
        lemma_same_prefix(short, long, values, limit, place);
        assert(long[place] < long[short.len() as int]);
    }
}

/// Puts a value into its place, unless it is there already.
fn insert_ascending(values: &mut Vec<u64>, value: u64)
    requires
        strictly_ascending(old(values)@),
    ensures
        strictly_ascending(final(values)@),
        forall|other: u64|
            #[trigger] final(values)@.contains(other) <==> old(values)@.contains(other) || other
                == value,
        final(values)@.len() <= old(values)@.len() + 1,
{
    let mut index: usize = 0;
    while index < values.len() && values[index] < value
        invariant
            index <= values@.len(),
            values@ == old(values)@,
            strictly_ascending(values@),
            forall|i: int| 0 <= i < index ==> values@[i] < value,
        decreases values@.len() - index,
    {
        index = index + 1;
    }
    if index < values.len() && values[index] == value {
        assert(values@.contains(value)) by {
            assert(values@[index as int] == value);
        }
        return;
    }
    let ghost before = values@;
    values.insert(index, value);
    proof {
        let after = values@;
        assert(after == before.insert(index as int, value));
        assert forall|other: u64| #[trigger] after.contains(other) <==> before.contains(other)
            || other == value by {
            if before.contains(other) {
                let place = before.index_of(other);
                if place < index {
                    assert(after[place] == other);
                } else {
                    assert(after[place + 1] == other);
                }
            }
            if other == value {
                assert(after[index as int] == other);
            }
            if after.contains(other) && other != value {
                let place = after.index_of(other);
                if place < index {
                    assert(before[place] == other);
                } else {
                    assert(before[place - 1] == other);
                }
            }
        }
    }
}

/// The values below a limit, once each and in ascending order.
pub fn normalize_points(values: &[u64], limit: u64) -> (result: Vec<u64>)
    ensures
        result@ == normalized_points(values@, limit),
        is_normalized(result@, values@, limit),
        result@.len() <= values@.len(),
{
    let mut result: Vec<u64> = Vec::new();
    let mut index: usize = 0;
    while index < values.len()
        invariant
            index <= values@.len(),
            is_normalized(result@, values@.take(index as int), limit),
            result@.len() <= index,
        decreases values.len() - index,
    {
        let ghost before = result@;
        let ghost value = values@[index as int];
        if values[index] < limit {
            insert_ascending(&mut result, values[index]);
        }
        proof {
            let earlier = values@.take(index as int);
            let next = values@.take(index + 1);
            assert forall|other: u64| #[trigger] result@.contains(other) <==> next.contains(other)
                && other < limit by {
                assert(next == earlier.push(value));
                if earlier.contains(other) {
                    let place = earlier.index_of(other);
                    assert(next[place] == other);
                }
                if other == value {
                    assert(next[index as int] == other);
                }
                if next.contains(other) && other != value {
                    let place = next.index_of(other);
                    assert(earlier[place] == other);
                }
                assert(before.contains(other) <==> earlier.contains(other) && other < limit);
            }
        }
        index = index + 1;
    }
    assert(values@.take(index as int) == values@);
    proof {
        law_normalized_points_are_unique(
            result@,
            normalized_points(values@, limit),
            values@,
            limit,
        );
    }
    result
}

/// Bytes of zero.
pub open spec fn zeros(count: nat) -> Seq<u8> {
    Seq::new(count, |i: int| 0u8)
}

/// Appends bytes of zero.
fn push_zeros(bytes: &mut Vec<u8>, count: usize)
    ensures
        final(bytes)@ == old(bytes)@ + zeros(count as nat),
{
    let mut index: usize = 0;
    assert(bytes@ == old(bytes)@ + zeros(0));
    while index < count
        invariant
            index <= count,
            bytes@ == old(bytes)@ + zeros(index as nat),
        decreases count - index,
    {
        bytes.push(0);
        index = index + 1;
        assert(bytes@ == old(bytes)@ + zeros(index as nat));
    }
}

/// A track that starts at an offset, with one index point at its start.
pub open spec fn track_bytes(offset: u64, number: nat) -> Seq<u8> {
    be_bytes(offset as nat, 8) + seq![number as u8] + zeros(12) + seq![0u8] + zeros(13)
        + seq![1u8] + be_bytes(0, 8) + seq![1u8] + zeros(3)
}

/// The track that ends a sheet.
pub open spec fn lead_out_bytes(offset: u64) -> Seq<u8> {
    be_bytes(offset as nat, 8) + seq![CUESHEET_LEADOUT_TRACK_NUMBER] + zeros(12) + seq![0u8]
        + zeros(13) + seq![0u8]
}

/// The tracks for cue points, numbered from one.
pub open spec fn tracks_bytes(points: Seq<u64>) -> Seq<u8>
    decreases points.len(),
{
    if points.len() == 0 {
        Seq::empty()
    } else {
        tracks_bytes(points.drop_last()) + track_bytes(points.last(), points.len())
    }
}

/// The payload of a cue sheet for cue points and a lead-out.
pub open spec fn cuesheet_payload(points: Seq<u64>, lead_out: u64) -> Seq<u8> {
    zeros(128) + be_bytes(0, 8) + seq![0u8] + zeros(258) + seq![(points.len() + 1) as u8]
        + tracks_bytes(points) + lead_out_bytes(lead_out)
}

/// The payload for cue points: a track for each point below the end of the
/// stream. There is none without such points, or with more than a sheet can
/// number.
pub open spec fn cuesheet_for(points: Seq<u64>, total_samples: u64) -> Option<Seq<u8>> {
    let normalized = normalized_points(points, total_samples);
    if normalized.len() == 0 || normalized.len() > MAX_CUESHEET_TRACKS {
        None
    } else {
        Some(cuesheet_payload(normalized, total_samples))
    }
}

/// Appends a track.
fn push_track(payload: &mut Vec<u8>, offset: u64, number: u8)
    ensures
        final(payload)@ == old(payload)@ + track_bytes(offset, number as nat),
{
    push_be_bytes(payload, offset, 8);
    payload.push(number);
    push_zeros(payload, 12);
    payload.push(0);
    push_zeros(payload, 13);
    payload.push(1);
    push_be_bytes(payload, 0, 8);
    payload.push(1);
    push_zeros(payload, 3);
    assert(payload@ == old(payload)@ + track_bytes(offset, number as nat));
}

/// The payload of the cue sheet block for cue points.
pub fn build_cuesheet(points: &[u64], total_samples: u64) -> (payload: Option<Vec<u8>>)
    ensures
        match payload {
            Some(bytes) => cuesheet_for(points@, total_samples) == Some(bytes@),
            None => cuesheet_for(points@, total_samples) is None,
        },
{
    let normalized = normalize_points(points, total_samples);
    if normalized.len() == 0 || normalized.len() > MAX_CUESHEET_TRACKS {
        return None;
    }
    let mut payload: Vec<u8> = Vec::new();
    push_zeros(&mut payload, 128);
    push_be_bytes(&mut payload, 0, 8);
    payload.push(0);
    push_zeros(&mut payload, 258);
    payload.push((normalized.len() + 1) as u8);
    let ghost head = payload@;
    assert(head == zeros(128) + be_bytes(0, 8) + seq![0u8] + zeros(258) + seq![
        (normalized@.len() + 1) as u8,
    ]);
    let mut index: usize = 0;
    assert(payload@ == head + tracks_bytes(normalized@.take(0)));
    while index < normalized.len()
        invariant
            index <= normalized@.len() <= MAX_CUESHEET_TRACKS,
            payload@ == head + tracks_bytes(normalized@.take(index as int)),
        decreases normalized.len() - index,
    {
        push_track(&mut payload, normalized[index], (index + 1) as u8);
        proof {
            let next = normalized@.take(index + 1);
            assert(next.drop_last() == normalized@.take(index as int));
            assert(payload@ == head + tracks_bytes(next));
        }
        index = index + 1;
    }
    assert(normalized@.take(index as int) == normalized@);
    push_be_bytes(&mut payload, total_samples, 8);
    payload.push(CUESHEET_LEADOUT_TRACK_NUMBER);
    push_zeros(&mut payload, 12);
    payload.push(0);
    push_zeros(&mut payload, 13);
    payload.push(0);
    assert(payload@ == cuesheet_payload(normalized@, total_samples));
    Some(payload)
}

/// The offset of index point 1 among the first `count` index points.
pub open spec fn index_one_at(payload: Seq<u8>, position: nat, count: nat) -> Option<u64>
    decreases count,
{
    if count == 0 {
        None
    } else {
        match index_one_at(payload, position, (count - 1) as nat) {
            Some(offset) => Some(offset),
            None => {
                let place = (position + 12 * (count - 1)) as nat;
                if payload[(place + 8) as int] == 1 {
                    Some(be_at(payload, place, 8) as u64)
                } else {
                    None
                }
            },
        }
    }
}

/// The track at a position and the position behind it.
pub open spec fn track_at(payload: Seq<u8>, position: nat) -> Option<(CueTrack, nat)> {
    if !available(payload, position, 36) {
        None
    } else {
        let indices = payload[(position + 35) as int] as nat;
        if !available(payload, position + 36, 12 * indices) {
            None
        } else {
            Some(
                (
                    CueTrack {
                        offset: be_at(payload, position, 8) as u64,
                        index_one: index_one_at(payload, position + 36, indices),
                        is_lead_out: payload[(position + 8) as int]
                            == CUESHEET_LEADOUT_TRACK_NUMBER,
                    },
                    position + 36 + 12 * indices,
                ),
            )
        }
    }
}

/// The first `count` tracks from a position on, and the position behind them.
pub open spec fn tracks_at(payload: Seq<u8>, position: nat, count: nat) -> Option<
    (Seq<CueTrack>, nat),
>
    decreases count,
{
    if count == 0 {
        Some((Seq::empty(), position))
    } else {
        match tracks_at(payload, position, (count - 1) as nat) {
            None => None,
            Some((earlier, next)) => match track_at(payload, next) {
                None => None,
                Some((track, end)) => Some((earlier.push(track), end)),
            },
        }
    }
}

/// The tracks of a cue sheet, if it is whole.
pub open spec fn cuesheet_tracks(payload: Seq<u8>) -> Option<Seq<CueTrack>> {
    if payload.len() < CUESHEET_HEADER_LEN {
        None
    } else {
        match tracks_at(payload, 396, payload[395] as nat) {
            None => None,
            Some((tracks, _)) => Some(tracks),
        }
    }
}

/// The cue point of a track: its index point 1, or else its start.
pub open spec fn track_point(track: CueTrack) -> nat {
    match track.index_one {
        Some(offset) => (track.offset + offset) as nat,
        None => track.offset as nat,
    }
}

/// The cue points of the tracks before the lead-out that 32 bits can hold.
pub open spec fn track_points(tracks: Seq<CueTrack>) -> Seq<u64>
    decreases tracks.len(),
{
    if tracks.len() == 0 {
        Seq::empty()
    } else {
        let earlier = track_points(tracks.drop_last());
        if tracks.last().is_lead_out || track_point(tracks.last()) > u32::MAX {
            earlier
        } else {
            earlier.push(track_point(tracks.last()) as u64)
        }
    }
}

/// Reads the offset of index point 1.
fn read_index_one(payload: &[u8], position: usize, count: usize) -> (offset: Option<u64>)
    requires
        position + 12 * count <= payload@.len(),
        count <= 255,
    ensures
        offset == index_one_at(payload@, position as nat, count as nat),
{
    let mut found: Option<u64> = None;
    let mut index: usize = 0;
    assert(payload.len() == payload@.len());
    while index < count
        invariant
            index <= count <= 255,
            position + 12 * count <= payload@.len(),
            payload@.len() <= usize::MAX,
            found == index_one_at(payload@, position as nat, index as nat),
        decreases count - index,
    {
        if found.is_none() && payload[position + 12 * index + 8] == 1 {
            proof {
                lemma_byte_ranges();
            }
            found = Some(read_be(payload, position + 12 * index, 8));
        }
        index = index + 1;
    }
    found
}

/// Reads a track.
fn read_track(payload: &[u8], position: usize) -> (read: Option<(CueTrack, usize)>)
    ensures
        match read {
            Some((track, end)) => track_at(payload@, position as nat) == Some((track, end as nat)),
            None => track_at(payload@, position as nat) is None,
        },
{
    if position > payload.len() || payload.len() - position < CUESHEET_TRACK_HEADER_LEN {
        return None;
    }
    let indices: usize = payload[position + 35] as usize;
    let start: usize = position + CUESHEET_TRACK_HEADER_LEN;
    if payload.len() - start < CUESHEET_INDEX_LEN * indices {
        return None;
    }
    let track = CueTrack {
        offset: read_be(payload, position, 8),
        index_one: read_index_one(payload, start, indices),
        is_lead_out: payload[position + 8] == CUESHEET_LEADOUT_TRACK_NUMBER,
    };
    Some((track, start + CUESHEET_INDEX_LEN * indices))
}

proof fn lemma_tracks_fail(payload: Seq<u8>, position: nat, some: nat, all: nat)
    requires
        some <= all,
        tracks_at(payload, position, some) is None,
    ensures
        tracks_at(payload, position, all) is None,
    decreases all,
{
    if some < all {
        lemma_tracks_fail(payload, position, some, (all - 1) as nat);
    }
}

/// Reads the tracks of a cue sheet.
pub fn parse_cuesheet_tracks(payload: &[u8]) -> (tracks: Option<Vec<CueTrack>>)
    ensures
        match tracks {
            Some(found) => cuesheet_tracks(payload@) == Some(found@),
            None => cuesheet_tracks(payload@) is None,
        },
{
    if payload.len() < CUESHEET_HEADER_LEN {
        return None;
    }
    let count: usize = payload[395] as usize;
    let mut tracks: Vec<CueTrack> = Vec::new();
    let mut position: usize = CUESHEET_HEADER_LEN;
    let mut index: usize = 0;
    while index < count
        invariant
            index <= count,
            count == payload@[395],
            payload@.len() >= 396,
            tracks_at(payload@, 396, index as nat) == Some((tracks@, position as nat)),
        decreases count - index,
    {
        match read_track(payload, position) {
            Some((track, end)) => {
                tracks.push(track);
                position = end;
            },
            None => {
                proof {
                    lemma_tracks_fail(payload@, 396, (index + 1) as nat, count as nat);
                }
                return None;
            },
        }
        index = index + 1;
    }
    Some(tracks)
}

/// The points of the tracks of a cue sheet. A sheet that is not whole has none.
pub open spec fn sheet_points(payload: Seq<u8>) -> Seq<u64> {
    match cuesheet_tracks(payload) {
        Some(tracks) => track_points(tracks),
        None => Seq::empty(),
    }
}

/// The cue points that a cue sheet stands for: the points of its tracks that lie
/// in the stream, once each and in ascending order.
pub open spec fn cue_points_of(payload: Seq<u8>, total_samples: u64) -> Seq<u32> {
    normalized_points(sheet_points(payload), total_samples).map_values(|point: u64| point as u32)
}

/// Reads the cue points that a cue sheet stands for.
pub fn cue_points_from_cuesheet_payload(payload: &[u8], total_samples: u64) -> (points: Vec<u32>)
    ensures
        points@ == cue_points_of(payload@, total_samples),
{
    let mut candidates: Vec<u64> = Vec::new();
    match parse_cuesheet_tracks(payload) {
        Some(tracks) => {
            let mut index: usize = 0;
            while index < tracks.len()
                invariant
                    index <= tracks@.len(),
                    candidates@ == track_points(tracks@.take(index as int)),
                    forall|i: int|
                        0 <= i < candidates@.len() ==> #[trigger] candidates@[i] <= u32::MAX,
                decreases tracks.len() - index,
            {
                let track = tracks[index];
                assert(tracks@.take(index + 1).drop_last() == tracks@.take(index as int));
                let point: Option<u64> = match track.index_one {
                    Some(offset) => track.offset.checked_add(offset),
                    None => Some(track.offset),
                };
                if !track.is_lead_out {
                    match point {
                        Some(value) => {
                            if value <= 0xffff_ffff {
                                candidates.push(value);
                            }
                        },
                        None => {},
                    }
                }
                index = index + 1;
            }
            assert(tracks@.take(index as int) == tracks@);
        },
        None => {},
    }
    let normalized = normalize_points(candidates.as_slice(), total_samples);
    let mut points: Vec<u32> = Vec::new();
    let mut index: usize = 0;
    while index < normalized.len()
        invariant
            index <= normalized@.len(),
            is_normalized(normalized@, candidates@, total_samples),
            forall|i: int| 0 <= i < candidates@.len() ==> #[trigger] candidates@[i] <= u32::MAX,
            points@.len() == index,
            forall|i: int| 0 <= i < index ==> #[trigger] points@[i] as u64 == normalized@[i],
        decreases normalized.len() - index,
    {
        proof {
            assert(normalized@.contains(normalized@[index as int]));
            let place = candidates@.index_of(normalized@[index as int]);
            assert(candidates@[place] == normalized@[index as int]);
        }
        points.push(normalized[index] as u32);
        index = index + 1;
    }
    assert(points@ == normalized@.map_values(|point: u64| point as u32));
    points
}

proof fn lemma_read_track(prefix: Seq<u8>, offset: u64, number: nat, rest: Seq<u8>)
    requires
        1 <= number <= MAX_CUESHEET_TRACKS,
    ensures
        track_at(prefix + track_bytes(offset, number) + rest, prefix.len()) == Some(
            (
                CueTrack { offset, index_one: Some(0), is_lead_out: false },
                prefix.len() + 48,
            ),
        ),
        track_bytes(offset, number).len() == 48,
{
    lemma_byte_ranges();
    law_be_bytes_read_back(offset as nat, 8);
    law_be_bytes_read_back(0, 8);
    let payload = prefix + track_bytes(offset, number) + rest;
    let start = prefix.len();
    assert(bytes_at(payload, start, 8) == be_bytes(offset as nat, 8));
    assert(bytes_at(payload, start + 36, 8) == be_bytes(0, 8));
    assert(payload[(start + 8) as int] == number);
    assert(payload[(start + 35) as int] == 1);
    assert(payload[(start + 44) as int] == 1);
    reveal_with_fuel(index_one_at, 2);
}

proof fn lemma_read_lead_out(prefix: Seq<u8>, offset: u64)
    ensures
        track_at(prefix + lead_out_bytes(offset), prefix.len()) == Some(
            (CueTrack { offset, index_one: None, is_lead_out: true }, prefix.len() + 36),
        ),
{
    lemma_byte_ranges();
    law_be_bytes_read_back(offset as nat, 8);
    let payload = prefix + lead_out_bytes(offset);
    let start = prefix.len();
    assert(bytes_at(payload, start, 8) == be_bytes(offset as nat, 8));
    assert(payload[(start + 8) as int] == CUESHEET_LEADOUT_TRACK_NUMBER);
    assert(payload[(start + 35) as int] == 0);
}

/// The tracks that stand for cue points.
pub open spec fn point_tracks(points: Seq<u64>) -> Seq<CueTrack> {
    points.map_values(
        |offset: u64| CueTrack { offset, index_one: Some(0u64), is_lead_out: false },
    )
}

proof fn lemma_tracks_split(points: Seq<u64>, count: int)
    requires
        0 <= count <= points.len(),
    ensures
        exists|rest: Seq<u8>|
            tracks_bytes(points) == #[trigger] (tracks_bytes(points.take(count)) + rest),
    decreases points.len() - count,
{
    if count == points.len() {
        assert(points.take(count) == points);
        assert(tracks_bytes(points) == tracks_bytes(points.take(count)) + Seq::<u8>::empty());
    } else {
        lemma_tracks_split(points, count + 1);
        let next = points.take(count + 1);
        assert(next.drop_last() == points.take(count));
        let rest = choose|rest: Seq<u8>|
            tracks_bytes(points) == #[trigger] (tracks_bytes(next) + rest);
        assert(tracks_bytes(points) == tracks_bytes(points.take(count)) + (track_bytes(
            next.last(),
            next.len(),
        ) + rest));
    }
}

#[verifier::rlimit(60)]
proof fn lemma_read_tracks(prefix: Seq<u8>, points: Seq<u64>, tail: Seq<u8>, count: nat)
    requires
        count <= points.len() <= MAX_CUESHEET_TRACKS,
    ensures
        tracks_at(prefix + tracks_bytes(points) + tail, prefix.len(), count) == Some(
            (
                point_tracks(points.take(count as int)),
                prefix.len() + tracks_bytes(points.take(count as int)).len(),
            ),
        ),
    decreases count,
{
    let payload = prefix + tracks_bytes(points) + tail;
    if count == 0 {
        assert(point_tracks(points.take(0)) == Seq::<CueTrack>::empty());
    } else {
        lemma_read_tracks(prefix, points, tail, (count - 1) as nat);
        let taken = points.take(count as int);
        let earlier = points.take(count - 1);
        assert(taken.drop_last() == earlier);
        lemma_tracks_split(points, count as int);
        let rest = choose|rest: Seq<u8>|
            tracks_bytes(points) == #[trigger] (tracks_bytes(taken) + rest);
        let before = prefix + tracks_bytes(earlier);
        assert(payload == before + track_bytes(points[count - 1], count) + (rest + tail));
        lemma_read_track(before, points[count - 1], count, rest + tail);
        assert(point_tracks(earlier).push(
            CueTrack { offset: points[count - 1], index_one: Some(0), is_lead_out: false },
        ) == point_tracks(taken));
    }
}

proof fn lemma_points_of_tracks(points: Seq<u64>)
    requires
        forall|i: int| 0 <= i < points.len() ==> #[trigger] points[i] <= u32::MAX,
    ensures
        track_points(point_tracks(points)) == points,
    decreases points.len(),
{
    if points.len() > 0 {
        let earlier = points.drop_last();
        assert forall|i: int| 0 <= i < earlier.len() implies #[trigger] earlier[i] <= u32::MAX by {
            assert(earlier[i] == points[i]);
        }
        lemma_points_of_tracks(earlier);
        assert(point_tracks(points).drop_last() == point_tracks(earlier));
        assert(points[points.len() - 1] <= u32::MAX);
        assert(earlier.push(points.last()) == points);
    }
}

/// Cue points in the stream are read back from their cue sheet.
pub proof fn law_cue_points_read_back(points: Seq<u64>, total_samples: u64)
    requires
        1 <= points.len() <= MAX_CUESHEET_TRACKS,
        strictly_ascending(points),
        forall|i: int| 0 <= i < points.len() ==> #[trigger] points[i] < total_samples,
        forall|i: int| 0 <= i < points.len() ==> #[trigger] points[i] <= u32::MAX,
    ensures
        ({
            let payload = cuesheet_payload(points, total_samples);
            &&& cuesheet_tracks(payload) == Some(
                point_tracks(points).push(
                    CueTrack { offset: total_samples, index_one: None, is_lead_out: true },
                ),
            )
            &&& cue_points_of(payload, total_samples) == points.map_values(
                |point: u64| point as u32,
            )
        }),
{
    let payload = cuesheet_payload(points, total_samples);
    let prefix = zeros(128) + be_bytes(0, 8) + seq![0u8] + zeros(258) + seq![
        (points.len() + 1) as u8,
    ];
    lemma_byte_ranges();
    law_be_bytes_read_back(0, 8);
    assert(prefix.len() == 396);
    assert(payload[395] == points.len() + 1);
    let tail = lead_out_bytes(total_samples);
    assert(payload == prefix + tracks_bytes(points) + tail);
    lemma_read_tracks(prefix, points, tail, points.len());
    assert(points.take(points.len() as int) == points);
    lemma_read_lead_out(prefix + tracks_bytes(points), total_samples);
    let lead_out = CueTrack { offset: total_samples, index_one: None, is_lead_out: true };
    let tracks = point_tracks(points).push(lead_out);
    assert(tracks_at(payload, 396, (points.len() + 1) as nat) matches Some((found, _)) && found
        == tracks);
    assert(tracks.drop_last() == point_tracks(points));
    lemma_points_of_tracks(points);
    assert forall|value: u64| #[trigger] points.contains(value) implies value < total_samples by {
        let place = points.index_of(value);
        assert(points[place] == value);
    }
    assert(is_normalized(points, points, total_samples));
    law_normalized_points_are_unique(
        points,
        normalized_points(points, total_samples),
        points,
        total_samples,
    );
}

} // verus!
