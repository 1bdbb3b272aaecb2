//! Answers drawn from all keyboards at once.
//!
//! Asked for one key, the keyboards that are alive give the strongest
//! reading among them. Asked for all keys, they give the union of their
//! snapshots; where two of them hold the same code, the one registered later
//! is heard. A keyboard whose reading loop has stopped gives no reading, and
//! its failure is reported only if no other keyboard answers.
use vstd::prelude::*;
use crate::readings::{
    entries_map, lemma_lowest_readings, lemma_sorted_entries, lemma_union_valid, valid_readings,
    AnalogBuffer,
};
use crate::registry::views;
use crate::session::{AnalogError, DescriptorView, DeviceSession, SessionView};

verus! {

/// Whether some session has the liveness `live`.
pub open spec fn any_with(sessions: Seq<SessionView>, live: bool) -> bool {
    exists|i: int| 0 <= i < sessions.len() && (#[trigger] sessions[i]).live == live
}

/// The strongest reading of `code` among the live sessions, zero where none
/// is alive.
pub open spec fn strongest(sessions: Seq<SessionView>, code: u16) -> u16
    decreases sessions.len(),
{
    if sessions.len() == 0 {
        0
    } else {
        let earlier = strongest(sessions.drop_last(), code);
        let last = sessions.last();
        if last.live && last.value(code) > earlier {
            last.value(code)
        } else {
            earlier
        }
    }
}

/// The union of the snapshots of the live sessions, each capped at
/// `max_entries`; a later session's reading replaces an earlier one's.
pub open spec fn merged(sessions: Seq<SessionView>, max_entries: usize) -> Map<u16, u16>
    decreases sessions.len(),
{
    if sessions.len() == 0 {
        Map::empty()
    } else {
        let earlier = merged(sessions.drop_last(), max_entries);
        let last = sessions.last();
        if last.live {
            earlier.union_prefer_right(last.snapshot(max_entries))
        } else {
            earlier
        }
    }
}

/// The failure that a pass over the sessions ends with where no session
/// answered: a disconnection if any session had one, else none that has a
/// name.
pub open spec fn observed_failure(sessions: Seq<SessionView>) -> AnalogError {
    if any_with(sessions, false) {
        AnalogError::DeviceDisconnected
    } else {
        AnalogError::Unknown
    }
}

/// What all sessions together answer when asked for one key.
pub open spec fn aggregate_value(sessions: Seq<SessionView>, code: u16) -> Result<u16, AnalogError> {
    if any_with(sessions, true) {
        Ok(strongest(sessions, code))
    } else {
        Err(observed_failure(sessions))
    }
}

/// What all sessions together answer when asked for all keys.
pub open spec fn aggregate_buffer(sessions: Seq<SessionView>, max_entries: usize) -> Result<
    Map<u16, u16>,
    AnalogError,
> {
    if any_with(sessions, true) {
        Ok(merged(sessions, max_entries))
    } else {
        Err(observed_failure(sessions))
    }
}

/// The display data of the sessions, in their order.
pub open spec fn descriptors_of(sessions: Seq<SessionView>) -> Seq<DescriptorView> {
    sessions.map_values(|session: SessionView| session.descriptor)
}

/// Looking at one more session: some session so far has the liveness asked
/// for exactly if one before had it or the new one has it.
pub proof fn lemma_any_with_step(sessions: Seq<SessionView>, n: int, live: bool)
    requires
        0 <= n < sessions.len(),
    ensures
        any_with(sessions.subrange(0, n + 1), live) <==> any_with(sessions.subrange(0, n), live)
            || sessions[n].live == live,
{
    let front = sessions.subrange(0, n);
    let next = sessions.subrange(0, n + 1);
    if any_with(next, live) {
        let i = choose|i: int| 0 <= i < next.len() && (#[trigger] next[i]).live == live;
        if i < n {
            assert(front[i].live == live);
        }
    }
    if any_with(front, live) {
        let i = choose|i: int| 0 <= i < front.len() && (#[trigger] front[i]).live == live;
        assert(next[i].live == live);
    }
    if sessions[n].live == live {
        assert(next[n].live == live);
    }
}

/// The strongest reading is a maximum: no live session reads more, and
/// where a session is alive, one of them reads exactly that much.
pub proof fn lemma_strongest_is_max(sessions: Seq<SessionView>, code: u16)
    ensures
        forall|i: int|
            0 <= i < sessions.len() && (#[trigger] sessions[i]).live ==> sessions[i].value(code)
                <= strongest(sessions, code),
        any_with(sessions, true) ==> exists|i: int|
            0 <= i < sessions.len() && (#[trigger] sessions[i]).live && sessions[i].value(code)
                == strongest(sessions, code),
        !any_with(sessions, true) ==> strongest(sessions, code) == 0,
    decreases sessions.len(),
{
    if sessions.len() > 0 {
        let front = sessions.drop_last();
        let last = sessions.last();
        let n = sessions.len() - 1;
        lemma_strongest_is_max(front, code);
        assert(sessions.subrange(0, n + 1) == sessions);
        lemma_any_with_step(sessions, n, true);
        assert forall|i: int| 0 <= i < sessions.len() && (#[trigger] sessions[i]).live implies sessions[i].value(
            code,
        ) <= strongest(sessions, code) by {
            if i < n {
                assert(front[i].live);
            }
        }
        if any_with(sessions, true) {
            if last.live && last.value(code) > strongest(front, code) {
                assert(sessions[n].live && sessions[n].value(code) == strongest(sessions, code));
            } else if any_with(front, true) {
                let i = choose|i: int|
                    0 <= i < front.len() && (#[trigger] front[i]).live && front[i].value(code)
                        == strongest(front, code);
                assert(sessions[i].live && sessions[i].value(code) == strongest(sessions, code));
            } else {
                assert(sessions[n].live && sessions[n].value(code) == strongest(sessions, code));
            }
        }
    }
}

/// The merged readings hold a code exactly if the snapshot of some live
/// session holds it.
pub proof fn lemma_merged_keys(sessions: Seq<SessionView>, max_entries: usize, code: u16)
    ensures
        merged(sessions, max_entries).contains_key(code) <==> exists|i: int|
            0 <= i < sessions.len() && (#[trigger] sessions[i]).live && sessions[i].snapshot(
                max_entries,
            ).contains_key(code),
    decreases sessions.len(),
{
    if sessions.len() > 0 {
        let front = sessions.drop_last();
        let n = sessions.len() - 1;
        lemma_merged_keys(front, max_entries, code);
        if merged(sessions, max_entries).contains_key(code) {
            if sessions[n].live && sessions[n].snapshot(max_entries).contains_key(code) {
            } else {
                let i = choose|i: int|
                    0 <= i < front.len() && (#[trigger] front[i]).live && front[i].snapshot(
                        max_entries,
                    ).contains_key(code);
                assert(sessions[i].live && sessions[i].snapshot(max_entries).contains_key(code));
            }
        }
        if exists|i: int|
            0 <= i < sessions.len() && (#[trigger] sessions[i]).live && sessions[i].snapshot(
                max_entries,
            ).contains_key(code) {
            let i = choose|i: int|
                0 <= i < sessions.len() && (#[trigger] sessions[i]).live && sessions[i].snapshot(
                    max_entries,
                ).contains_key(code);
            if i < n {
                assert(front[i].live && front[i].snapshot(max_entries).contains_key(code));
            }
        }
    }
}

/// Under a code, the merged readings hold what the last live session that
/// holds the code reads.
pub proof fn lemma_merged_value(sessions: Seq<SessionView>, max_entries: usize, code: u16, i: int)
    requires
        0 <= i < sessions.len(),
        sessions[i].live,
        sessions[i].snapshot(max_entries).contains_key(code),
        forall|j: int|
            i < j < sessions.len() && (#[trigger] sessions[j]).live ==> !sessions[j].snapshot(
                max_entries,
            ).contains_key(code),
    ensures
        merged(sessions, max_entries).contains_key(code),
        merged(sessions, max_entries)[code] == sessions[i].snapshot(max_entries)[code],
    decreases sessions.len(),
{
    let n = sessions.len() - 1;
    if i < n {
        let front = sessions.drop_last();
        assert forall|j: int| i < j < front.len() && (#[trigger] front[j]).live implies !front[j].snapshot(
            max_entries,
        ).contains_key(code) by {
            assert(sessions[j].live);
        }
        lemma_merged_value(front, max_entries, code, i);
        if sessions[n].live {
            assert(!sessions[n].snapshot(max_entries).contains_key(code));
        }
    }
}

/// The merged readings are a map of readings.
pub proof fn lemma_merged_valid(sessions: Seq<SessionView>, max_entries: usize)
    requires
        forall|i: int| 0 <= i < sessions.len() ==> valid_readings((#[trigger] sessions[i]).readings),
    ensures
        valid_readings(merged(sessions, max_entries)),
    decreases sessions.len(),
{
    if sessions.len() == 0 {
        lemma_sorted_entries(Seq::empty());
        assert(entries_map(Seq::empty()) =~= Map::<u16, u16>::empty());
    } else {
        let front = sessions.drop_last();
        assert forall|i: int| 0 <= i < front.len() implies valid_readings(
            (#[trigger] front[i]).readings,
        ) by {
            assert(valid_readings(sessions[i].readings));
        }
        lemma_merged_valid(front, max_entries);
        assert(valid_readings(sessions[sessions.len() - 1].readings));
        lemma_lowest_readings(sessions.last().readings, max_entries);
        lemma_union_valid(merged(front, max_entries), sessions.last().snapshot(max_entries));
    }
}

/// Asks every session for one key and takes the strongest answer. A
/// session that fails is passed over; its failure is the answer only if no
/// session gives a reading, and then a disconnection goes before any other
/// failure.
pub fn read_strongest(sessions: &Vec<DeviceSession>, code: u16) -> (answer: Result<u16, AnalogError>)
    ensures
        answer == aggregate_value(views(sessions@), code),
{
    let ghost all = views(sessions@);
    let n = sessions.len();
    let mut best: Option<u16> = None;
    let mut failure = AnalogError::Unknown;
    let mut i: usize = 0;
    while i < n
        invariant
            n == sessions@.len(),
            all == views(sessions@),
            0 <= i <= n,
            best == if any_with(all.subrange(0, i as int), true) {
                Some(strongest(all.subrange(0, i as int), code))
            } else {
                None
            },
            failure == observed_failure(all.subrange(0, i as int)),
        decreases n - i,
    {
        proof {
            lemma_any_with_step(all, i as int, true);
            lemma_any_with_step(all, i as int, false);
            assert(all.subrange(0, i + 1).drop_last() == all.subrange(0, i as int));
        }
        match sessions[i].read_analog(code) {
            Ok(units) => {
                best = match best {
                    Some(held) => if units > held {
                        Some(units)
                    } else {
                        Some(held)
                    },
                    None => Some(units),
                };
                proof {
                    lemma_strongest_is_max(all.subrange(0, i as int), code);
                }
            },
            Err(error) => {
                if error == AnalogError::DeviceDisconnected || failure
                    != AnalogError::DeviceDisconnected {
                    failure = error;
                }
            },
        }
        i += 1;
    }
    proof {
        assert(all.subrange(0, n as int) == all);
    }
    match best {
        Some(units) => Ok(units),
        None => Err(failure),
    }
}

/// Asks every session for all its keys, each answer capped at
/// `max_length`, and merges the answers in the order of the sessions.
/// Failures are treated as in `read_strongest`.
pub fn read_merged(sessions: &Vec<DeviceSession>, max_length: usize) -> (answer: Result<
    AnalogBuffer,
    AnalogError,
>)
    ensures
        match answer {
            Ok(buffer) => aggregate_buffer(views(sessions@), max_length) == Ok::<
                Map<u16, u16>,
                AnalogError,
            >(buffer@),
            Err(error) => aggregate_buffer(views(sessions@), max_length) == Err::<
                Map<u16, u16>,
                AnalogError,
            >(error),
        },
{
    let ghost all = views(sessions@);
    let n = sessions.len();
    let mut analog = AnalogBuffer::new();
    let mut any_read = false;
    let mut failure = AnalogError::Unknown;
    let mut i: usize = 0;
    while i < n
        invariant
            n == sessions@.len(),
            all == views(sessions@),
            0 <= i <= n,
            any_read == any_with(all.subrange(0, i as int), true),
            analog@ == merged(all.subrange(0, i as int), max_length),
            failure == observed_failure(all.subrange(0, i as int)),
        decreases n - i,
    {
        proof {
            lemma_any_with_step(all, i as int, true);
            lemma_any_with_step(all, i as int, false);
            assert(all.subrange(0, i + 1).drop_last() == all.subrange(0, i as int));
        }
        match sessions[i].read_full_buffer(max_length) {
            Ok(snapshot) => {
                any_read = true;
                analog.merge(&snapshot);
            },
            Err(error) => {
                if error == AnalogError::DeviceDisconnected || failure
                    != AnalogError::DeviceDisconnected {
                    failure = error;
                }
            },
        }
        i += 1;
    }
    proof {
        assert(all.subrange(0, n as int) == all);
    }
    if any_read {
        Ok(analog)
    } else {
        Err(failure)
    }
}

} // verus!
