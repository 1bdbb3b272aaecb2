//! The plugin as its host sees it.
//!
//! `WootingPlugin` owns the registry and the notification target and
//! answers the host's queries. It does no input or output. The caller that
//! embeds it acquires the transport, runs the periodic scan and the reading
//! loops, and tells the plugin what happened:
//!
//! * at start, run one scan and call `initialise` with whether the
//!   transport could be acquired;
//! * on every scan, call `reap`, then walk the transport's listing with
//!   `next_candidate`, open each candidate and `attach` it;
//! * in every reading loop, hand each outcome to `acquisition_step` and stop
//!   when told to;
//! * deliver the events that `reap` and `attach` return through
//!   `handle_device_event`, after the lock on the plugin has been released.
use vstd::prelude::*;
use crate::aggregate::{
    aggregate_buffer, aggregate_value, descriptors_of, read_merged, read_strongest,
};
use crate::hardware::{identity_spec, DecodingProfile, RawDescriptor};
use crate::readings::AnalogBuffer;
use crate::registry::{
    after_step, distinct_identities, keep, lookup, never_revived, registered, step_action, views,
    DeviceRegistry,
};
use crate::scanner::{is_next_candidate, next_candidate, ScanCursor};
use crate::session::{
    opened, outcome_bytes, session_buffer, session_value, AnalogError, DescriptorView, DeviceDescriptor,
    DeviceSession, LoopAction, SessionView,
};

verus! {

/// The name the plugin shows to its host.
pub const PLUGIN_NAME: &'static str = "Wooting Official Plugin";

/// The identity that selects all keyboards at once.
pub const WILDCARD_DEVICE: u64 = 0;

/// Whether a keyboard came or went.
#[derive(Clone, Copy, PartialEq, Eq, Structural, Debug)]
pub enum DeviceEventKind {
    Connected,
    Disconnected,
}

/// A keyboard that came or went.
#[derive(Debug)]
pub struct DeviceEvent {
    pub kind: DeviceEventKind,
    pub device: DeviceDescriptor,
}

/// The model of a `DeviceEvent`.
pub struct EventView {
    pub kind: DeviceEventKind,
    pub device: DescriptorView,
}

impl View for DeviceEvent {
    type V = EventView;

    open spec fn view(&self) -> EventView {
        EventView { kind: self.kind, device: self.device@ }
    }
}

impl Clone for DeviceEvent {
    /// An independent copy that tells the same.
    fn clone(&self) -> (twin: Self)
        ensures
            twin@ == self@,
    {
        DeviceEvent { kind: self.kind, device: self.device.clone() }
    }
}

/// The models of a list of events.
pub open spec fn event_views(events: Seq<DeviceEvent>) -> Seq<EventView> {
    events.map_values(|event: DeviceEvent| event@)
}

/// The models of a list of descriptors.
pub open spec fn descriptor_views(descriptors: Seq<DeviceDescriptor>) -> Seq<DescriptorView> {
    descriptors.map_values(|descriptor: DeviceDescriptor| descriptor@)
}

/// One `Disconnected` event for each of `sessions`, in their order.
pub open spec fn disconnections(sessions: Seq<SessionView>) -> Seq<EventView> {
    sessions.map_values(
        |session: SessionView|
            EventView { kind: DeviceEventKind::Disconnected, device: session.descriptor },
    )
}

/// An event on its way to the notification target.
#[derive(Debug)]
pub struct Notification<C> {
    pub target: C,
    pub event: DeviceEvent,
}

/// How an initialisation that succeeded left the plugin.
#[derive(Clone, Copy, PartialEq, Eq, Structural, Debug)]
pub enum InitOutcome {
    /// At least one keyboard is registered.
    Ready,
    /// The plugin is initialised, and no keyboard is attached yet.
    NoDevices,
}

/// The model of a `WootingPlugin`.
pub struct PluginView<C> {
    pub initialised: bool,
    /// Where connect and disconnect events go, if anywhere.
    pub target: Option<C>,
    /// The registered sessions in the order of their registration.
    pub sessions: Seq<SessionView>,
}

impl<C> PluginView<C> {
    /// What `initialise` answers and leaves behind.
    pub open spec fn initialise(self, transport_acquired: bool) -> (Self, Result<
        InitOutcome,
        AnalogError,
    >) {
        (
            PluginView { initialised: transport_acquired, ..self },
            if !transport_acquired {
                Err(AnalogError::TransportFailure)
            } else if self.sessions.len() == 0 {
                Ok(InitOutcome::NoDevices)
            } else {
                Ok(InitOutcome::Ready)
            },
        )
    }

    /// The failure that every query starts with: the plugin is not
    /// initialised, or no keyboard is registered.
    pub open spec fn not_ready(self) -> Option<AnalogError> {
        if !self.initialised {
            Some(AnalogError::NotInitialized)
        } else if self.sessions.len() == 0 {
            Some(AnalogError::NoDevices)
        } else {
            None
        }
    }

    /// What a query for one key answers.
    pub open spec fn read_analog(self, code: u16, device_id: u64) -> Result<u16, AnalogError> {
        match self.not_ready() {
            Some(error) => Err(error),
            None => if device_id == WILDCARD_DEVICE {
                aggregate_value(self.sessions, code)
            } else {
                match lookup(self.sessions, device_id) {
                    Some(session) => session_value(session, code),
                    None => Err(AnalogError::DeviceNotFound),
                }
            },
        }
    }

    /// What a query for all keys answers.
    pub open spec fn read_full_buffer(self, max_length: usize, device_id: u64) -> Result<
        Map<u16, u16>,
        AnalogError,
    > {
        match self.not_ready() {
            Some(error) => Err(error),
            None => if device_id == WILDCARD_DEVICE {
                aggregate_buffer(self.sessions, max_length)
            } else {
                match lookup(self.sessions, device_id) {
                    Some(session) => session_buffer(session, max_length),
                    None => Err(AnalogError::DeviceNotFound),
                }
            },
        }
    }

    /// What `attach` leaves behind and returns: a unit that is not
    /// registered yet gets a fresh session at the end of the list and a
    /// `Connected` event; for one that is registered nothing happens.
    pub open spec fn attach(self, descriptor: RawDescriptor, profile: DecodingProfile) -> (
        Self,
        Option<EventView>,
    ) {
        if registered(self.sessions, identity_spec(descriptor)) {
            (self, None)
        } else {
            (
                PluginView { sessions: self.sessions.push(opened(descriptor, profile)), ..self },
                Some(
                    EventView {
                        kind: DeviceEventKind::Connected,
                        device: opened(descriptor, profile).descriptor,
                    },
                ),
            )
        }
    }

    /// What a query for the list of keyboards answers.
    pub open spec fn device_info(self) -> Result<Seq<DescriptorView>, AnalogError> {
        match self.not_ready() {
            Some(error) => Err(error),
            None => Ok(descriptors_of(self.sessions)),
        }
    }
}

/// A unit is announced once: after it has been attached, attaching a
/// descriptor of the same identity again changes nothing and returns no
/// event, whatever else the descriptor says and whichever profile claims
/// it.
pub proof fn lemma_attach_notifies_once<C>(
    plugin: PluginView<C>,
    descriptor: RawDescriptor,
    profile: DecodingProfile,
    again: RawDescriptor,
    other_profile: DecodingProfile,
)
    requires
        identity_spec(again) == identity_spec(descriptor),
    ensures
        registered(plugin.attach(descriptor, profile).0.sessions, identity_spec(descriptor)),
        plugin.attach(descriptor, profile).0.attach(again, other_profile) == (
            plugin.attach(descriptor, profile).0,
            None::<EventView>,
        ),
{
    let attached = plugin.attach(descriptor, profile).0.sessions;
    if !registered(plugin.sessions, identity_spec(descriptor)) {
        assert(attached[attached.len() - 1].identity() == identity_spec(descriptor));
    }
}

/// Before the plugin is initialised every query answers `NotInitialized`;
/// once it is, and while no keyboard is registered, every query answers
/// `NoDevices`.
pub proof fn lemma_queries_fail_fast<C>(
    plugin: PluginView<C>,
    code: u16,
    max_length: usize,
    device_id: u64,
)
    requires
        !plugin.initialised || plugin.sessions.len() == 0,
    ensures
        plugin.not_ready() is Some,
        plugin.not_ready() == Some(
            if plugin.initialised {
                AnalogError::NoDevices
            } else {
                AnalogError::NotInitialized
            },
        ),
        plugin.read_analog(code, device_id) == Err::<u16, AnalogError>(plugin.not_ready()->0),
        plugin.read_full_buffer(max_length, device_id) == Err::<Map<u16, u16>, AnalogError>(
            plugin.not_ready()->0,
        ),
        plugin.device_info() == Err::<Seq<DescriptorView>, AnalogError>(plugin.not_ready()->0),
{
}

/// The plugin: whether it is initialised, where its events go, and the
/// keyboards it holds. `C` is whatever the host registers to be notified.
pub struct WootingPlugin<C> {
    initialised: bool,
    device_event_cb: Option<C>,
    devices: DeviceRegistry,
}

impl<C> View for WootingPlugin<C> {
    type V = PluginView<C>;

    closed spec fn view(&self) -> PluginView<C> {
        PluginView {
            initialised: self.initialised,
            target: self.device_event_cb,
            sessions: self.devices@,
        }
    }
}

impl<C: Copy> WootingPlugin<C> {
    /// A plugin that is not initialised, notifies nobody and holds no
    /// keyboard.
    pub fn new() -> (plugin: Self)
        ensures
            plugin@ == (PluginView::<C> {
                initialised: false,
                target: None,
                sessions: Seq::empty(),
            }),
    {
        WootingPlugin { initialised: false, device_event_cb: None, devices: DeviceRegistry::new() }
    }

    /// The name the plugin shows to its host.
    pub fn name(&self) -> (name: &'static str)
        ensures
            name@ == PLUGIN_NAME@,
    {
        PLUGIN_NAME
    }

    /// Ends the initialisation. Call it after the first scan, with whether
    /// the transport could be acquired. The plugin counts as initialised
    /// exactly if it could, also when no keyboard was found.
    pub fn initialise(&mut self, transport_acquired: bool) -> (outcome: Result<
        InitOutcome,
        AnalogError,
    >)
        ensures
            (final(self)@, outcome) == old(self)@.initialise(transport_acquired),
    {
        self.initialised = transport_acquired;
        if !transport_acquired {
            Err(AnalogError::TransportFailure)
        } else if self.devices.is_empty() {
            Ok(InitOutcome::NoDevices)
        } else {
            Ok(InitOutcome::Ready)
        }
    }

    /// Whether the plugin is initialised.
    pub fn is_initialised(&self) -> (initialised: bool)
        ensures
            initialised == self@.initialised,
    {
        self.initialised
    }

    /// Shuts the plugin down: every session is dropped, nobody is notified
    /// any more, and queries answer `NotInitialized`. A reading loop that
    /// still runs is told to stop at its next outcome.
    pub fn unload(&mut self)
        ensures
            final(self)@ == (PluginView::<C> {
                initialised: false,
                target: None,
                sessions: Seq::empty(),
            }),
    {
        self.initialised = false;
        self.device_event_cb = None;
        self.devices.clear();
    }

    /// Registers where connect and disconnect events go, in place of any
    /// earlier target. Refused before the plugin is initialised.
    pub fn set_device_event_cb(&mut self, cb: C) -> (outcome: Result<(), AnalogError>)
        ensures
            old(self)@.initialised ==> outcome is Ok && final(self)@ == (PluginView {
                target: Some(cb),
                ..old(self)@
            }),
            !old(self)@.initialised ==> outcome == Err::<(), AnalogError>(
                AnalogError::NotInitialized,
            ) && final(self)@ == old(self)@,
    {
        if !self.initialised {
            return Err(AnalogError::NotInitialized);
        }
        self.device_event_cb = Some(cb);
        Ok(())
    }

    /// Forgets the notification target. Refused before the plugin is
    /// initialised.
    pub fn clear_device_event_cb(&mut self) -> (outcome: Result<(), AnalogError>)
        ensures
            old(self)@.initialised ==> outcome is Ok && final(self)@ == (PluginView {
                target: None,
                ..old(self)@
            }),
            !old(self)@.initialised ==> outcome == Err::<(), AnalogError>(
                AnalogError::NotInitialized,
            ) && final(self)@ == old(self)@,
    {
        if !self.initialised {
            return Err(AnalogError::NotInitialized);
        }
        self.device_event_cb = None;
        Ok(())
    }

    /// Pairs an event with the target that is registered right now, so that
    /// the caller can deliver it once it has let go of the plugin. `None`
    /// where nobody is to be notified.
    pub fn handle_device_event(&self, event: DeviceEvent) -> (notification: Option<Notification<C>>)
        ensures
            match notification {
                Some(n) => self@.target == Some(n.target) && n.event == event,
                None => self@.target is None,
            },
    {
        match self.device_event_cb {
            Some(target) => Some(Notification { target, event }),
            None => None,
        }
    }

    /// The intensity of the key `code`. With `device_id` zero every keyboard
    /// is asked and the strongest reading wins; one dead keyboard does not
    /// spoil the answer of another. With any other `device_id` the keyboard
    /// of that identity is asked.
    pub fn read_analog(&self, code: u16, device_id: u64) -> (answer: Result<u16, AnalogError>)
        ensures
            answer == self@.read_analog(code, device_id),
    {
        if !self.initialised {
            return Err(AnalogError::NotInitialized);
        }
        if self.devices.is_empty() {
            return Err(AnalogError::NoDevices);
        }
        if device_id == WILDCARD_DEVICE {
            read_strongest(self.devices.sessions(), code)
        } else {
            match self.devices.get(device_id) {
                Some(device) => device.read_analog(code),
                None => Err(AnalogError::DeviceNotFound),
            }
        }
    }

    /// All pressed keys with their intensities. With `device_id` zero the
    /// snapshots of all live keyboards are merged, each capped at
    /// `max_length`; with any other `device_id` the answer is that
    /// keyboard's snapshot.
    pub fn read_full_buffer(&self, max_length: usize, device_id: u64) -> (answer: Result<
        AnalogBuffer,
        AnalogError,
    >)
        ensures
            match answer {
                Ok(buffer) => self@.read_full_buffer(max_length, device_id) == Ok::<
                    Map<u16, u16>,
                    AnalogError,
                >(buffer@),
                Err(error) => self@.read_full_buffer(max_length, device_id) == Err::<
                    Map<u16, u16>,
                    AnalogError,
                >(error),
            },
    {
        if !self.initialised {
            return Err(AnalogError::NotInitialized);
        }
        if self.devices.is_empty() {
            return Err(AnalogError::NoDevices);
        }
        if device_id == WILDCARD_DEVICE {
            read_merged(self.devices.sessions(), max_length)
        } else {
            match self.devices.get(device_id) {
                Some(device) => device.read_full_buffer(max_length),
                None => Err(AnalogError::DeviceNotFound),
            }
        }
    }

    /// The display data of every registered keyboard, in the order of
    /// registration. A keyboard whose reading loop has stopped is listed
    /// until it is reaped.
    pub fn device_info(&self) -> (answer: Result<Vec<DeviceDescriptor>, AnalogError>)
        ensures
            match answer {
                Ok(list) => self@.device_info() == Ok::<Seq<DescriptorView>, AnalogError>(
                    descriptor_views(list@),
                ),
                Err(error) => self@.device_info() == Err::<Seq<DescriptorView>, AnalogError>(error),
            },
    {
        if !self.initialised {
            return Err(AnalogError::NotInitialized);
        }
        if self.devices.is_empty() {
            return Err(AnalogError::NoDevices);
        }
        let sessions = self.devices.sessions();
        let n = sessions.len();
        let mut list: Vec<DeviceDescriptor> = Vec::new();
        let mut i: usize = 0;
        while i < n
            invariant
                n == sessions@.len(),
                0 <= i <= n,
                list@.len() == i,
                forall|k: int| 0 <= k < i ==> (#[trigger] list@[k])@ == sessions@[k]@.descriptor,
            decreases n - i,
        {
            list.push(sessions[i].descriptor().clone());
            i += 1;
        }
        assert(descriptor_views(list@) =~= descriptors_of(views(sessions@)));
        Ok(list)
    }

    /// The first half of a scan: every dead session leaves the registry. The
    /// events to deliver come back, one `Disconnected` per session, in the
    /// order in which the keyboards were registered.
    pub fn reap(&mut self) -> (events: Vec<DeviceEvent>)
        ensures
            final(self)@ == (PluginView { sessions: keep(old(self)@.sessions, true), ..old(self)@ }),
            event_views(events@) == disconnections(keep(old(self)@.sessions, false)),
            distinct_identities(final(self)@.sessions),
            never_revived(old(self)@.sessions, final(self)@.sessions),
    {
        let dead = self.devices.reap();
        let n = dead.len();
        let mut events: Vec<DeviceEvent> = Vec::new();
        let mut i: usize = 0;
        while i < n
            invariant
                n == dead@.len(),
                0 <= i <= n,
                events@.len() == i,
                forall|k: int|
                    0 <= k < i ==> (#[trigger] events@[k])@ == (EventView {
                        kind: DeviceEventKind::Disconnected,
                        device: dead@[k]@.descriptor,
                    }),
            decreases n - i,
        {
            events.push(
                DeviceEvent {
                    kind: DeviceEventKind::Disconnected,
                    device: dead[i].descriptor().clone(),
                },
            );
            i += 1;
        }
        assert(event_views(events@) =~= disconnections(views(dead@)));
        events
    }

    /// The second half of a scan, one step of it: the next descriptor of
    /// the transport's listing, at or behind `from`, that a profile claims
    /// and whose unit is not registered. The caller opens it, calls
    /// `attach` if that worked, and asks again from `after()` the place it
    /// got.
    pub fn next_candidate(
        &self,
        descriptors: &Vec<RawDescriptor>,
        profiles: &Vec<DecodingProfile>,
        from: ScanCursor,
    ) -> (found: Option<ScanCursor>)
        ensures
            is_next_candidate(self@.sessions, descriptors@, profiles@, from, found),
    {
        next_candidate(&self.devices, descriptors, profiles, from)
    }

    /// Registers a keyboard that has just been opened and returns the
    /// `Connected` event to deliver. Where the unit is registered already,
    /// nothing changes and there is no event.
    pub fn attach(&mut self, descriptor: &RawDescriptor, profile: DecodingProfile) -> (event: Option<
        DeviceEvent,
    >)
        ensures
            final(self)@ == old(self)@.attach(*descriptor, profile).0,
            match event {
                Some(e) => old(self)@.attach(*descriptor, profile).1 == Some(e@),
                None => old(self)@.attach(*descriptor, profile).1 is None,
            },
            registered(final(self)@.sessions, identity_spec(*descriptor)),
            distinct_identities(final(self)@.sessions),
            never_revived(old(self)@.sessions, final(self)@.sessions),
    {
        let ghost before = self.devices@;
        let (id, device) = DeviceSession::open(descriptor, profile);
        let device_info = device.descriptor().clone();
        match self.devices.register(device) {
            Ok(_) => {
                assert(self.devices@[before.len() as int].identity() == id);
                Some(DeviceEvent { kind: DeviceEventKind::Connected, device: device_info })
            },
            Err(_) => None,
        }
    }

    /// Hands one outcome of the reading loop of the keyboard `device_id` to
    /// its session: `Some` with the bytes of a report, `None` for a failed
    /// read. The answer tells the loop whether to go on. A loop whose
    /// keyboard is no longer registered is told to stop.
    pub fn acquisition_step(&mut self, device_id: u64, outcome: Option<&[u8]>) -> (action: LoopAction)
        ensures
            final(self)@ == (PluginView {
                sessions: after_step(old(self)@.sessions, device_id, outcome_bytes(outcome)),
                ..old(self)@
            }),
            action == step_action(old(self)@.sessions, device_id, outcome_bytes(outcome)),
            distinct_identities(final(self)@.sessions),
            never_revived(old(self)@.sessions, final(self)@.sessions),
    {
        self.devices.acquisition_step(device_id, outcome)
    }

    /// The registry.
    pub fn devices(&self) -> (devices: &DeviceRegistry)
        ensures
            devices@ == self@.sessions,
    {
        &self.devices
    }
}

} // verus!
