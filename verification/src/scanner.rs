//! Finding keyboards that have been plugged in.
//!
//! The caller lists what the transport sees and walks the list with a
//! cursor: `next_candidate` names the next descriptor that a known family
//! claims and that is not registered yet, the caller opens it and registers
//! the session, and the walk goes on behind that candidate. Opening is the
//! caller's business, so a device that cannot be opened is passed over by
//! moving the cursor on.
use vstd::prelude::*;
use crate::hardware::{identity_of, identity_spec, DecodingProfile, RawDescriptor};
use crate::registry::{registered, DeviceRegistry};
use crate::session::SessionView;

verus! {

/// A place in the walk over a listing: a descriptor and a profile to test it
/// against. Places are ordered by descriptor, then by profile.
#[derive(Clone, Copy, PartialEq, Eq, Structural, Debug)]
pub struct ScanCursor {
    pub descriptor: usize,
    pub profile: usize,
}

impl ScanCursor {
    /// Whether this place comes strictly before `other` in the walk.
    pub open spec fn precedes(self, other: ScanCursor) -> bool {
        self.descriptor < other.descriptor || (self.descriptor == other.descriptor && self.profile
            < other.profile)
    }

    /// The place that follows this one.
    pub open spec fn after_spec(self) -> ScanCursor {
        if self.profile < usize::MAX {
            ScanCursor { descriptor: self.descriptor, profile: (self.profile + 1) as usize }
        } else if self.descriptor < usize::MAX {
            ScanCursor { descriptor: (self.descriptor + 1) as usize, profile: 0 }
        } else {
            self
        }
    }

    /// Where a walk begins.
    pub fn start() -> (cursor: Self)
        ensures
            cursor == (ScanCursor { descriptor: 0, profile: 0 }),
    {
        ScanCursor { descriptor: 0, profile: 0 }
    }

    /// The place from which the walk goes on once this one has been dealt
    /// with.
    pub fn after(self) -> (next: Self)
        ensures
            next == self.after_spec(),
    {
        if self.profile < usize::MAX {
            ScanCursor { descriptor: self.descriptor, profile: self.profile + 1 }
        } else if self.descriptor < usize::MAX {
            ScanCursor { descriptor: self.descriptor + 1, profile: 0 }
        } else {
            self
        }
    }
}

/// No place lies between a place and the one after it.
pub proof fn lemma_after_is_next(cursor: ScanCursor, other: ScanCursor)
    ensures
        cursor.precedes(other) ==> !other.precedes(cursor.after_spec()),
        cursor.profile < usize::MAX || cursor.descriptor < usize::MAX ==> cursor.precedes(
            cursor.after_spec(),
        ),
{
}

/// Whether the walk stops at `at`: a known family claims the descriptor
/// there, and the unit behind it is not registered.
pub open spec fn is_candidate(
    sessions: Seq<SessionView>,
    descriptors: Seq<RawDescriptor>,
    profiles: Seq<DecodingProfile>,
    at: ScanCursor,
) -> bool {
    &&& at.descriptor < descriptors.len()
    &&& at.profile < profiles.len()
    &&& profiles[at.profile as int].matches_spec(descriptors[at.descriptor as int])
    &&& !registered(sessions, identity_spec(descriptors[at.descriptor as int]))
}

/// Whether `found` is the first candidate at or behind `from`, or `None`
/// where there is none.
pub open spec fn is_next_candidate(
    sessions: Seq<SessionView>,
    descriptors: Seq<RawDescriptor>,
    profiles: Seq<DecodingProfile>,
    from: ScanCursor,
    found: Option<ScanCursor>,
) -> bool {
    match found {
        Some(at) => {
            &&& is_candidate(sessions, descriptors, profiles, at)
            &&& !at.precedes(from)
            &&& forall|other: ScanCursor| #[trigger]
                is_candidate(sessions, descriptors, profiles, other) ==> other.precedes(from)
                    || !other.precedes(at)
        },
        None => forall|other: ScanCursor| #[trigger]
            is_candidate(sessions, descriptors, profiles, other) ==> other.precedes(from),
    }
}

/// Walks on from `from` to the next descriptor that a profile claims and
/// that is not registered. A descriptor that no profile claims is passed
/// over, and so is one whose unit is registered already.
pub fn next_candidate(
    registry: &DeviceRegistry,
    descriptors: &Vec<RawDescriptor>,
    profiles: &Vec<DecodingProfile>,
    from: ScanCursor,
) -> (found: Option<ScanCursor>)
    ensures
        is_next_candidate(registry@, descriptors@, profiles@, from, found),
{
    let mut d: usize = from.descriptor;
    let mut p: usize = from.profile;
    while d < descriptors.len()
        invariant
            !(ScanCursor { descriptor: d, profile: p }).precedes(from),
            forall|other: ScanCursor| #[trigger]
                is_candidate(registry@, descriptors@, profiles@, other) ==> other.precedes(from)
                    || !other.precedes(ScanCursor { descriptor: d, profile: p }),
        decreases descriptors.len() - d,
    {
        let id = identity_of(&descriptors[d]);
        if !registry.contains(id) {
            while p < profiles.len()
                invariant
                    d < descriptors.len(),
                    !(ScanCursor { descriptor: d, profile: p }).precedes(from),
                    !registered(registry@, identity_spec(descriptors@[d as int])),
                    forall|other: ScanCursor| #[trigger]
                        is_candidate(registry@, descriptors@, profiles@, other) ==> other.precedes(
                            from,
                        ) || !other.precedes(ScanCursor { descriptor: d, profile: p }),
                decreases profiles.len() - p,
            {
                if profiles[p].matches(&descriptors[d]) {
                    return Some(ScanCursor { descriptor: d, profile: p });
                }
                p += 1;
            }
        }
        d += 1;
        p = 0;
    }
    None
}

/// A unit that is registered is no candidate, wherever in a listing and
/// under whichever profile it turns up: walking the same listing again
/// opens nothing twice.
pub proof fn lemma_registered_is_no_candidate(
    sessions: Seq<SessionView>,
    descriptors: Seq<RawDescriptor>,
    profiles: Seq<DecodingProfile>,
    at: ScanCursor,
)
    requires
        at.descriptor < descriptors.len(),
        registered(sessions, identity_spec(descriptors[at.descriptor as int])),
    ensures
        !is_candidate(sessions, descriptors, profiles, at),
{
}

/// A descriptor that no profile claims is never a candidate.
pub proof fn lemma_unmatched_is_no_candidate(
    sessions: Seq<SessionView>,
    descriptors: Seq<RawDescriptor>,
    profiles: Seq<DecodingProfile>,
    at: ScanCursor,
)
    requires
        at.descriptor < descriptors.len(),
        forall|p: int|
            0 <= p < profiles.len() ==> !(#[trigger] profiles[p]).matches_spec(
                descriptors[at.descriptor as int],
            ),
    ensures
        !is_candidate(sessions, descriptors, profiles, at),
{
}

} // verus!
