//! Decoding an analog report.
//!
//! A report is a run of three-byte groups: a key code, high byte first, and
//! one byte of travel. Groups whose travel is zero stand for keys at rest and
//! are dropped. Bytes after the last whole group are ignored.
use vstd::prelude::*;
use crate::hardware::DecodingProfile;
use crate::intensity::{scale, scale_spec, Gain, FULL_SCALE};
use crate::readings::{
    entries_map, lemma_sorted_entries, sorted_readings, upsert, valid_readings, AnalogBuffer,
    AnalogEntry,
};

verus! {

/// How many groups of a report are read: the whole groups it holds, up to
/// `max_entries`.
pub open spec fn group_count(raw: Seq<u8>, max_entries: usize) -> nat {
    if raw.len() / 3 <= max_entries {
        raw.len() / 3
    } else {
        max_entries as nat
    }
}

/// The key code of group `i`: two bytes, the high one first.
pub open spec fn group_code(raw: Seq<u8>, i: int) -> u16 {
    (raw[3 * i] * 256 + raw[3 * i + 1]) as u16
}

/// The raw travel of group `i`.
pub open spec fn group_level(raw: Seq<u8>, i: int) -> u8 {
    raw[3 * i + 2]
}

/// The readings after the first `n` groups: each pressed group writes its
/// intensity under its code, a later group replacing an earlier one.
pub open spec fn decoded_groups(raw: Seq<u8>, gain: Gain, n: nat) -> Map<u16, u16>
    decreases n,
{
    if n == 0 {
        Map::empty()
    } else {
        let earlier = decoded_groups(raw, gain, (n - 1) as nat);
        if group_level(raw, n - 1) == 0 {
            earlier
        } else {
            earlier.insert(
                group_code(raw, n - 1),
                scale_spec(gain, group_level(raw, n - 1)) as u16,
            )
        }
    }
}

/// The readings that a report stands for.
pub open spec fn decode_spec(raw: Seq<u8>, gain: Gain, max_entries: usize) -> Map<u16, u16> {
    decoded_groups(raw, gain, group_count(raw, max_entries))
}

/// Whether group `i` is a pressed key with code `code`.
pub open spec fn group_hits(raw: Seq<u8>, i: int, code: u16) -> bool {
    group_level(raw, i) != 0 && group_code(raw, i) == code
}

/// A code is among the readings exactly if one of the groups read is a
/// pressed key with that code.
pub proof fn lemma_decoded_keys(raw: Seq<u8>, gain: Gain, n: nat, code: u16)
    ensures
        decoded_groups(raw, gain, n).contains_key(code) <==> exists|i: int|
            0 <= i < n && #[trigger] group_hits(raw, i, code),
    decreases n,
{
    if n > 0 {
        lemma_decoded_keys(raw, gain, (n - 1) as nat, code);
        if decoded_groups(raw, gain, n).contains_key(code) {
            if group_hits(raw, n - 1, code) {
            } else {
                let i = choose|i: int| 0 <= i < n - 1 && #[trigger] group_hits(raw, i, code);
                assert(group_hits(raw, i, code));
            }
        }
        if exists|i: int| 0 <= i < n && #[trigger] group_hits(raw, i, code) {
            let i = choose|i: int| 0 <= i < n && #[trigger] group_hits(raw, i, code);
            if i < n - 1 {
                assert(group_hits(raw, i, code));
            }
        }
    }
}

/// The intensity under a code is that of the last pressed group with that
/// code.
pub proof fn lemma_decoded_value(raw: Seq<u8>, gain: Gain, n: nat, i: int)
    requires
        0 <= i < n,
        group_level(raw, i) != 0,
        forall|j: int| i < j < n ==> !#[trigger] group_hits(raw, j, group_code(raw, i)),
    ensures
        decoded_groups(raw, gain, n).contains_key(group_code(raw, i)),
        decoded_groups(raw, gain, n)[group_code(raw, i)] == scale_spec(gain, group_level(raw, i)),
    decreases n,
{
    if i < n - 1 {
        lemma_decoded_value(raw, gain, (n - 1) as nat, i);
        assert(!group_hits(raw, n - 1, group_code(raw, i)));
    }
}

/// No reading is zero or above full scale, and there are no more readings
/// than groups read.
pub proof fn lemma_decoded_bounds(raw: Seq<u8>, gain: Gain, n: nat)
    ensures
        decoded_groups(raw, gain, n).dom().finite(),
        decoded_groups(raw, gain, n).dom().len() <= n,
        forall|code: u16| #[trigger]
            decoded_groups(raw, gain, n).contains_key(code) ==> 0 < decoded_groups(
                raw,
                gain,
                n,
            )[code] <= FULL_SCALE,
    decreases n,
{
    if n > 0 {
        lemma_decoded_bounds(raw, gain, (n - 1) as nat);
    }
}

/// Whatever the bytes of a report: no reading is zero, and there are at
/// most `max_entries` readings and at most one for each whole group.
pub proof fn lemma_decode_is_sparse_and_capped(raw: Seq<u8>, gain: Gain, max_entries: usize)
    ensures
        decode_spec(raw, gain, max_entries).dom().finite(),
        decode_spec(raw, gain, max_entries).dom().len() <= max_entries,
        decode_spec(raw, gain, max_entries).dom().len() <= raw.len() / 3,
        forall|code: u16| #[trigger]
            decode_spec(raw, gain, max_entries).contains_key(code) ==> 0 < decode_spec(
                raw,
                gain,
                max_entries,
            )[code] <= FULL_SCALE,
{
    lemma_decoded_bounds(raw, gain, group_count(raw, max_entries));
}

/// Joins the two bytes of a key code.
fn join_code(high: u8, low: u8) -> (code: u16)
    ensures
        code == high * 256 + low,
{
    let code = ((high as u16) << 8) | (low as u16);
    assert(((high as u16) << 8) | (low as u16) == high * 256 + low) by (bit_vector);
    code
}

/// Decodes a report for a device family. Never fails: a report too short
/// for a group gives no readings.
pub fn decode(raw: &[u8], profile: &DecodingProfile, max_entries: usize) -> (buffer: AnalogBuffer)
    ensures
        buffer@ == decode_spec(raw@, profile.gain, max_entries),
        valid_readings(buffer@),
        buffer@.dom().len() <= max_entries,
        forall|code: u16| #[trigger]
            buffer@.contains_key(code) ==> 0 < buffer@[code] <= FULL_SCALE,
{
    let whole = raw.len() / 3;
    let n = if whole <= max_entries {
        whole
    } else {
        max_entries
    };
    let mut entries: Vec<AnalogEntry> = Vec::new();
    let mut i: usize = 0;
    while i < n
        invariant
            n == group_count(raw@, max_entries),
            0 <= i <= n,
            3 * n <= raw@.len() <= usize::MAX,
            sorted_readings(entries@),
            entries_map(entries@) == decoded_groups(raw@, profile.gain, i as nat),
        decreases n - i,
    {
        let level = raw[3 * i + 2];
        if level != 0 {
            let code = join_code(raw[3 * i], raw[3 * i + 1]);
            upsert(&mut entries, code, scale(profile.gain, level));
        }
        i += 1;
    }
    proof {
        lemma_decoded_bounds(raw@, profile.gain, n as nat);
        lemma_sorted_entries(entries@);
    }
    AnalogBuffer::from_sorted(entries)
}

} // verus!
