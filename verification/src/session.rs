//! One attached keyboard.
//!
//! A session is opened when a supported keyboard is found and lives until
//! the registry drops it. While it lives, a reading loop outside this
//! library keeps reading reports from the keyboard and hands each outcome to
//! `acquisition_step`, which replaces the readings or, on a failed read,
//! ends the session's life for good.
use vstd::prelude::*;
use crate::hardware::{identity_of, identity_spec, DecodingProfile, RawDescriptor};
use crate::readings::{lemma_buffer_model, lowest_readings, reading, valid_readings, AnalogBuffer};
use crate::report::{decode, decode_spec};

verus! {

/// How many groups of a report a session decodes.
pub const ANALOG_BUFFER_SIZE: usize = 48;

/// Why a query or an initialisation did not give a value.
#[derive(Clone, Copy, PartialEq, Eq, Structural, Debug)]
pub enum AnalogError {
    /// The plugin has not been initialised.
    NotInitialized,
    /// No keyboard is registered.
    NoDevices,
    /// No registered keyboard has the identity asked for.
    DeviceNotFound,
    /// The keyboard's reading loop has met a failed read.
    DeviceDisconnected,
    /// The transport could not be acquired.
    TransportFailure,
    /// A failure of no other kind.
    Unknown,
}

/// What a keyboard shows of itself to the host.
#[derive(Debug)]
pub struct DeviceDescriptor {
    pub vendor_id: u16,
    pub product_id: u16,
    pub manufacturer_name: String,
    pub device_name: String,
    pub device_id: u64,
}

/// The model of a `DeviceDescriptor`.
pub struct DescriptorView {
    pub vendor_id: u16,
    pub product_id: u16,
    pub manufacturer_name: Seq<char>,
    pub device_name: Seq<char>,
    pub device_id: u64,
}

impl View for DeviceDescriptor {
    type V = DescriptorView;

    open spec fn view(&self) -> DescriptorView {
        DescriptorView {
            vendor_id: self.vendor_id,
            product_id: self.product_id,
            manufacturer_name: self.manufacturer_name@,
            device_name: self.device_name@,
            device_id: self.device_id,
        }
    }
}

impl Clone for DeviceDescriptor {
    /// An independent copy that shows the same.
    fn clone(&self) -> (twin: Self)
        ensures
            twin@ == self@,
    {
        DeviceDescriptor {
            vendor_id: self.vendor_id,
            product_id: self.product_id,
            manufacturer_name: self.manufacturer_name.clone(),
            device_name: self.device_name.clone(),
            device_id: self.device_id,
        }
    }
}

/// What the reading loop does after an outcome has been handed in.
#[derive(Clone, Copy, PartialEq, Eq, Structural, Debug)]
pub enum LoopAction {
    /// Read the next report.
    Continue,
    /// End the loop; the session takes no more reports.
    Stop,
}

/// The model of a `DeviceSession`.
pub struct SessionView {
    pub descriptor: DescriptorView,
    pub profile: DecodingProfile,
    /// The last decoded report.
    pub readings: Map<u16, u16>,
    pub live: bool,
}

impl SessionView {
    /// The identity under which the session is registered.
    pub open spec fn identity(self) -> u64 {
        self.descriptor.device_id
    }

    /// The intensity of `code`, zero for a key at rest.
    pub open spec fn value(self, code: u16) -> u16 {
        reading(self.readings, code)
    }

    /// The `max_entries` lowest codes of the readings.
    pub open spec fn snapshot(self, max_entries: usize) -> Map<u16, u16> {
        lowest_readings(self.readings, max_entries)
    }
}

/// A display string as it is shown: empty where the hardware reports none.
pub open spec fn shown_text(text: Option<String>) -> Seq<char> {
    match text {
        Some(held) => held@,
        None => Seq::empty(),
    }
}

/// The session that `DeviceSession::open` makes for a descriptor.
pub open spec fn opened(descriptor: RawDescriptor, profile: DecodingProfile) -> SessionView {
    SessionView {
        descriptor: DescriptorView {
            vendor_id: descriptor.vendor_id,
            product_id: descriptor.product_id,
            manufacturer_name: shown_text(descriptor.manufacturer_string),
            device_name: shown_text(descriptor.product_string),
            device_id: identity_spec(descriptor),
        },
        profile,
        readings: Map::empty(),
        live: true,
    }
}

/// Copies a display string for showing.
fn shown(text: &Option<String>) -> (copy: String)
    ensures
        copy@ == shown_text(*text),
{
    match text {
        Some(held) => held.clone(),
        None => String::new(),
    }
}

/// The live state of one attached keyboard.
pub struct DeviceSession {
    descriptor: DeviceDescriptor,
    profile: DecodingProfile,
    buffer: AnalogBuffer,
    live: bool,
}

impl View for DeviceSession {
    type V = SessionView;

    closed spec fn view(&self) -> SessionView {
        SessionView {
            descriptor: self.descriptor@,
            profile: self.profile,
            readings: self.buffer@,
            live: self.live,
        }
    }
}

impl DeviceSession {
    /// The invariant of the representation.
    #[verifier::type_invariant]
    pub closed spec fn wf(self) -> bool {
        self.buffer.wf()
    }

    /// Starts a session for a keyboard that has just been opened: display
    /// data from the descriptor, no readings yet, alive. Returns the
    /// identity with the session. A display string that the hardware does
    /// not report is shown empty.
    pub fn open(descriptor: &RawDescriptor, profile: DecodingProfile) -> (opened_as: (u64, Self))
        ensures
            opened_as.0 == identity_spec(*descriptor),
            opened_as.1@ == opened(*descriptor, profile),
    {
        let id = identity_of(descriptor);
        let manufacturer_name = shown(&descriptor.manufacturer_string);
        let device_name = shown(&descriptor.product_string);
        let buffer = AnalogBuffer::new();
        proof {
            use_type_invariant(&buffer);
        }
        let session = DeviceSession {
            descriptor: DeviceDescriptor {
                vendor_id: descriptor.vendor_id,
                product_id: descriptor.product_id,
                manufacturer_name,
                device_name,
                device_id: id,
            },
            profile,
            buffer,
            live: true,
        };
        (id, session)
    }

    /// The identity under which the session is registered.
    pub fn identity(&self) -> (id: u64)
        ensures
            id == self@.identity(),
    {
        self.descriptor.device_id
    }

    /// What the keyboard shows of itself.
    pub fn descriptor(&self) -> (descriptor: &DeviceDescriptor)
        ensures
            descriptor@ == self@.descriptor,
    {
        &self.descriptor
    }

    /// The family the keyboard was recognised as.
    pub fn profile(&self) -> (profile: DecodingProfile)
        ensures
            profile == self@.profile,
    {
        self.profile
    }

    /// Whether the reading loop has met no failed read so far.
    pub fn is_live(&self) -> (live: bool)
        ensures
            live == self@.live,
    {
        self.live
    }

    /// The last decoded intensity of `code`, zero for a key at rest. Never
    /// fails, also after the session has died.
    pub fn current_value(&self, code: u16) -> (units: u16)
        ensures
            units == self@.value(code),
    {
        self.buffer.value(code)
    }

    /// A copy of the readings, cut down to the `max_entries` lowest codes.
    pub fn current_snapshot(&self, max_entries: usize) -> (snapshot: AnalogBuffer)
        ensures
            snapshot@ == self@.snapshot(max_entries),
    {
        self.buffer.capped(max_entries)
    }

    /// What a query addressed to this keyboard gets for `code`: the current
    /// value while the session is alive, `DeviceDisconnected` once it has
    /// died.
    pub fn read_analog(&self, code: u16) -> (answer: Result<u16, AnalogError>)
        ensures
            answer == session_value(self@, code),
    {
        if self.live {
            Ok(self.current_value(code))
        } else {
            Err(AnalogError::DeviceDisconnected)
        }
    }

    /// What a query addressed to this keyboard gets for all keys: a capped
    /// snapshot while the session is alive, `DeviceDisconnected` once it has
    /// died.
    pub fn read_full_buffer(&self, max_length: usize) -> (answer: Result<AnalogBuffer, AnalogError>)
        ensures
            match answer {
                Ok(snapshot) => session_buffer(self@, max_length) == Ok::<
                    Map<u16, u16>,
                    AnalogError,
                >(snapshot@),
                Err(error) => session_buffer(self@, max_length) == Err::<
                    Map<u16, u16>,
                    AnalogError,
                >(error),
            },
    {
        if self.live {
            Ok(self.current_snapshot(max_length))
        } else {
            Err(AnalogError::DeviceDisconnected)
        }
    }

    /// Takes a report that the reading loop has read. A live session
    /// replaces its readings by what the report decodes to, so that no key
    /// of an earlier report lingers. A dead session ignores the report.
    pub fn store_report(&mut self, raw: &[u8])
        ensures
            final(self)@ == after_outcome(old(self)@, Some(raw@)),
    {
        if self.live {
            let fresh = decode(raw, &self.profile, ANALOG_BUFFER_SIZE);
            proof {
                use_type_invariant(&fresh);
            }
            self.buffer = fresh;
        }
    }

    /// Records that a read has failed, or that the session is being cut
    /// off: the session is dead from now on. Its readings stay as they are.
    pub fn mark_disconnected(&mut self)
        ensures
            final(self)@ == after_outcome(old(self)@, None),
    {
        proof {
            use_type_invariant(&*self);
        }
        self.live = false;
    }

    /// One turn of the reading loop: `Some` with the bytes of a report that
    /// was read, `None` for a read that failed. The answer says whether the
    /// loop goes on; it stops after the first failure and never resumes.
    pub fn acquisition_step(&mut self, outcome: Option<&[u8]>) -> (action: LoopAction)
        ensures
            final(self)@ == after_outcome(old(self)@, outcome_bytes(outcome)),
            action == next_action(final(self)@),
    {
        match outcome {
            Some(raw) => self.store_report(raw),
            None => self.mark_disconnected(),
        }
        if self.live {
            LoopAction::Continue
        } else {
            LoopAction::Stop
        }
    }
}

/// What a session answers when asked for one key.
pub open spec fn session_value(session: SessionView, code: u16) -> Result<u16, AnalogError> {
    if session.live {
        Ok(session.value(code))
    } else {
        Err(AnalogError::DeviceDisconnected)
    }
}

/// What a session answers when asked for all keys.
pub open spec fn session_buffer(session: SessionView, max_length: usize) -> Result<
    Map<u16, u16>,
    AnalogError,
> {
    if session.live {
        Ok(session.snapshot(max_length))
    } else {
        Err(AnalogError::DeviceDisconnected)
    }
}

/// The bytes of an outcome of the reading loop, `None` for a failed read.
pub open spec fn outcome_bytes(outcome: Option<&[u8]>) -> Option<Seq<u8>> {
    match outcome {
        Some(raw) => Some(raw@),
        None => None,
    }
}

/// A session after one outcome of its reading loop. A report replaces the
/// readings of a live session; a failed read ends the session's life; a dead
/// session changes no more.
pub open spec fn after_outcome(before: SessionView, outcome: Option<Seq<u8>>) -> SessionView {
    match outcome {
        Some(raw) => if before.live {
            SessionView {
                readings: decode_spec(raw, before.profile.gain, ANALOG_BUFFER_SIZE),
                ..before
            }
        } else {
            before
        },
        None => SessionView { live: false, ..before },
    }
}

/// What the reading loop of a session does next.
pub open spec fn next_action(session: SessionView) -> LoopAction {
    if session.live {
        LoopAction::Continue
    } else {
        LoopAction::Stop
    }
}

/// The readings of a well-formed session are a map of readings.
pub proof fn lemma_session_model(session: DeviceSession)
    requires
        session.wf(),
    ensures
        valid_readings(session@.readings),
{
    lemma_buffer_model(session.buffer);
}

/// Life is lost once and never regained: a failed read kills the session,
/// and whatever outcome follows, a dead session stays dead.
pub proof fn lemma_dead_stays_dead(before: SessionView, outcome: Option<Seq<u8>>)
    ensures
        outcome is None ==> !after_outcome(before, outcome).live,
        !before.live ==> after_outcome(before, outcome) == (SessionView { live: false, ..before }),
        after_outcome(before, outcome).live ==> before.live && outcome is Some,
{
}

} // verus!
