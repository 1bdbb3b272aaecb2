use wooting_analog_plugin::{
    identity_of, known_profiles, read_merged, read_strongest, AnalogEntry, AnalogError,
    DecodingProfile, DeviceEventKind, DeviceSession, Gain, InitOutcome, LoopAction,
    RawDescriptor, ScanCursor, WootingPlugin, FULL_SCALE, WILDCARD_DEVICE,
};

fn keyboard(product_id: u16, serial: &str) -> RawDescriptor {
    RawDescriptor {
        vendor_id: 0x03EB,
        product_id,
        usage_page: 0xFF54,
        interface_number: 6,
        serial_number: Some(String::from(serial)),
        manufacturer_string: Some(String::from("Wooting")),
        product_string: Some(String::from(if product_id == 0xFF01 { "WootingOne" } else { "WootingTwo" })),
    }
}

fn entry(code: u16, intensity: u16) -> AnalogEntry {
    AnalogEntry { code, intensity }
}

fn ready_plugin() -> WootingPlugin<u32> {
    let mut plugin = WootingPlugin::new();
    assert_eq!(plugin.initialise(true), Ok(InitOutcome::NoDevices));
    plugin
}

fn attach(plugin: &mut WootingPlugin<u32>, serial: &str) -> u64 {
    let d = keyboard(0xFF01, serial);
    assert!(plugin.attach(&d, DecodingProfile::wooting_one(true)).is_some());
    identity_of(&d)
}

fn report(plugin: &mut WootingPlugin<u32>, id: u64, bytes: &[u8]) -> LoopAction {
    plugin.acquisition_step(id, Some(bytes))
}

/// One scan as the embedding caller runs it; `openable` says which
/// descriptors of the listing can be opened. Returns the events by kind.
fn scan(
    plugin: &mut WootingPlugin<u32>,
    listing: &Vec<RawDescriptor>,
    openable: &[bool],
) -> Vec<(DeviceEventKind, u64)> {
    let profiles = known_profiles(true);
    let mut fired = Vec::new();
    for event in plugin.reap() {
        if let Some(n) = plugin.handle_device_event(event) {
            fired.push((n.event.kind, n.event.device.device_id));
        }
    }
    let mut from = ScanCursor::start();
    while let Some(at) = plugin.next_candidate(listing, &profiles, from) {
        if openable[at.descriptor] {
            let event = plugin.attach(&listing[at.descriptor], profiles[at.profile]);
            if let Some(n) = event.and_then(|e| plugin.handle_device_event(e)) {
                fired.push((n.event.kind, n.event.device.device_id));
            }
        }
        from = at.after();
    }
    fired
}

#[test]
fn name_of_the_plugin() {
    let plugin: WootingPlugin<u32> = WootingPlugin::new();
    assert_eq!(plugin.name(), "Wooting Official Plugin");
    assert_eq!(wooting_analog_plugin::PLUGIN_NAME, "Wooting Official Plugin");
}

#[test]
fn wildcard_is_zero() {
    assert_eq!(WILDCARD_DEVICE, 0);
}

#[test]
fn queries_before_initialise_are_refused() {
    let mut plugin: WootingPlugin<u32> = WootingPlugin::new();
    assert!(!plugin.is_initialised());
    assert_eq!(plugin.read_analog(4, 0), Err(AnalogError::NotInitialized));
    assert_eq!(plugin.read_analog(4, 77), Err(AnalogError::NotInitialized));
    assert_eq!(plugin.read_full_buffer(10, 0).err(), Some(AnalogError::NotInitialized));
    assert_eq!(plugin.read_full_buffer(10, 77).err(), Some(AnalogError::NotInitialized));
    assert_eq!(plugin.device_info().err(), Some(AnalogError::NotInitialized));
    assert_eq!(plugin.set_device_event_cb(1), Err(AnalogError::NotInitialized));
    assert_eq!(plugin.clear_device_event_cb(), Err(AnalogError::NotInitialized));
    // a keyboard that was found does not make up for the missing initialisation
    let d = keyboard(0xFF01, "A");
    assert!(plugin.attach(&d, DecodingProfile::wooting_one(true)).is_some());
    assert_eq!(plugin.read_analog(4, 0), Err(AnalogError::NotInitialized));
    assert_eq!(plugin.device_info().err(), Some(AnalogError::NotInitialized));
}

#[test]
fn queries_without_devices_say_so() {
    let mut plugin: WootingPlugin<u32> = WootingPlugin::new();
    assert_eq!(plugin.initialise(true), Ok(InitOutcome::NoDevices));
    assert!(plugin.is_initialised());
    assert_eq!(plugin.read_analog(4, 0), Err(AnalogError::NoDevices));
    assert_eq!(plugin.read_analog(4, 77), Err(AnalogError::NoDevices));
    assert_eq!(plugin.read_full_buffer(10, 0).err(), Some(AnalogError::NoDevices));
    assert_eq!(plugin.read_full_buffer(10, 77).err(), Some(AnalogError::NoDevices));
    assert_eq!(plugin.device_info().err(), Some(AnalogError::NoDevices));
}

#[test]
fn initialise_without_transport_fails() {
    let mut plugin: WootingPlugin<u32> = WootingPlugin::new();
    assert_eq!(plugin.initialise(false), Err(AnalogError::TransportFailure));
    assert!(!plugin.is_initialised());
    assert_eq!(plugin.read_analog(4, 0), Err(AnalogError::NotInitialized));
    assert_eq!(plugin.initialise(true), Ok(InitOutcome::NoDevices));
    assert!(plugin.is_initialised());
    assert_eq!(plugin.initialise(false), Err(AnalogError::TransportFailure));
    assert!(!plugin.is_initialised());
}

#[test]
fn initialise_after_a_scan_that_found_a_keyboard() {
    let mut plugin: WootingPlugin<u32> = WootingPlugin::new();
    let listing = vec![keyboard(0xFF01, "A")];
    assert_eq!(scan(&mut plugin, &listing, &[true]), vec![]);
    assert_eq!(plugin.initialise(true), Ok(InitOutcome::Ready));
    assert!(plugin.is_initialised());
    assert_eq!(plugin.read_analog(4, 0), Ok(0));
    assert_eq!(plugin.device_info().map(|l| l.len()), Ok(1));
}

#[test]
fn wildcard_read_takes_the_strongest() {
    let mut plugin = ready_plugin();
    let a = attach(&mut plugin, "A");
    let b = attach(&mut plugin, "B");
    // 64 * 6 = 384 units, about 0.3; 149 * 6 = 894 units, about 0.7
    report(&mut plugin, a, &[0, 4, 64]);
    report(&mut plugin, b, &[0, 4, 149]);
    assert_eq!(plugin.read_analog(4, a), Ok(384));
    assert_eq!(plugin.read_analog(4, b), Ok(894));
    assert_eq!(plugin.read_analog(4, WILDCARD_DEVICE), Ok(894));
    let strongest = f32::from(plugin.read_analog(4, 0).unwrap()) / f32::from(FULL_SCALE);
    assert!((strongest - 0.7).abs() < 0.002);
    // the order of the keyboards does not matter
    report(&mut plugin, a, &[0, 4, 200]);
    assert_eq!(plugin.read_analog(4, 0), Ok(1200));
    // a key that nobody presses reads zero
    assert_eq!(plugin.read_analog(5, 0), Ok(0));
}

#[test]
fn wildcard_buffer_is_the_union() {
    let mut plugin = ready_plugin();
    let a = attach(&mut plugin, "A");
    let b = attach(&mut plugin, "B");
    report(&mut plugin, a, &[0, 4, 10, 0, 5, 20]);
    report(&mut plugin, b, &[0, 5, 30, 0, 6, 40]);
    let all = plugin.read_full_buffer(10, 0).unwrap();
    assert_eq!(all.to_vec(), vec![entry(4, 60), entry(5, 180), entry(6, 240)]);
    let of_a = plugin.read_full_buffer(10, a).unwrap();
    assert_eq!(of_a.to_vec(), vec![entry(4, 60), entry(5, 120)]);
    let of_b = plugin.read_full_buffer(10, b).unwrap();
    assert_eq!(of_b.to_vec(), vec![entry(5, 180), entry(6, 240)]);
}

#[test]
fn wildcard_buffer_caps_each_keyboard() {
    let mut plugin = ready_plugin();
    let a = attach(&mut plugin, "A");
    let b = attach(&mut plugin, "B");
    report(&mut plugin, a, &[0, 1, 1, 0, 2, 1, 0, 3, 1]);
    report(&mut plugin, b, &[0, 7, 1, 0, 8, 1, 0, 9, 1]);
    let all = plugin.read_full_buffer(2, 0).unwrap();
    assert_eq!(all.to_vec(), vec![entry(1, 6), entry(2, 6), entry(7, 6), entry(8, 6)]);
    assert_eq!(plugin.read_full_buffer(0, 0).map(|b| b.len()), Ok(0));
    assert_eq!(plugin.read_full_buffer(1, b).map(|b| b.to_vec()), Ok(vec![entry(7, 6)]));
}

#[test]
fn wildcard_buffer_succeeds_empty_when_a_keyboard_answers_nothing() {
    let mut plugin = ready_plugin();
    attach(&mut plugin, "A");
    assert_eq!(plugin.read_full_buffer(10, 0).map(|b| b.to_vec()), Ok(vec![]));
}

#[test]
fn specific_read_of_an_unknown_keyboard() {
    let mut plugin = ready_plugin();
    let a = attach(&mut plugin, "A");
    let stranger = a.wrapping_add(1).max(1);
    assert_eq!(plugin.read_analog(4, stranger), Err(AnalogError::DeviceNotFound));
    assert_eq!(plugin.read_full_buffer(4, stranger).err(), Some(AnalogError::DeviceNotFound));
}

#[test]
fn a_dead_keyboard_does_not_spoil_the_wildcard() {
    let mut plugin = ready_plugin();
    let a = attach(&mut plugin, "A");
    let b = attach(&mut plugin, "B");
    report(&mut plugin, a, &[0, 4, 100]);
    report(&mut plugin, b, &[0, 4, 50, 0, 9, 1]);
    assert_eq!(plugin.acquisition_step(a, None), LoopAction::Stop);
    assert_eq!(plugin.read_analog(4, 0), Ok(300));
    assert_eq!(plugin.read_analog(4, a), Err(AnalogError::DeviceDisconnected));
    assert_eq!(plugin.read_analog(4, b), Ok(300));
    assert_eq!(
        plugin.read_full_buffer(10, 0).map(|b| b.to_vec()),
        Ok(vec![entry(4, 300), entry(9, 6)])
    );
    assert_eq!(plugin.read_full_buffer(10, a).err(), Some(AnalogError::DeviceDisconnected));
    // still listed until the scan reaps it
    assert_eq!(plugin.device_info().map(|l| l.len()), Ok(2));
}

#[test]
fn all_keyboards_dead() {
    let mut plugin = ready_plugin();
    let a = attach(&mut plugin, "A");
    let b = attach(&mut plugin, "B");
    report(&mut plugin, a, &[0, 4, 100]);
    plugin.acquisition_step(a, None);
    plugin.acquisition_step(b, None);
    assert_eq!(plugin.read_analog(4, 0), Err(AnalogError::DeviceDisconnected));
    assert_eq!(plugin.read_full_buffer(10, 0).err(), Some(AnalogError::DeviceDisconnected));
}

#[test]
fn disconnected_until_reaped_then_not_found() {
    let mut plugin = ready_plugin();
    let a = attach(&mut plugin, "A");
    let b = attach(&mut plugin, "B");
    assert_ne!(a, 0);
    plugin.set_device_event_cb(9).unwrap();
    plugin.acquisition_step(a, None);
    assert_eq!(plugin.read_analog(4, a), Err(AnalogError::DeviceDisconnected));
    assert_eq!(plugin.read_analog(4, a), Err(AnalogError::DeviceDisconnected));
    let events = plugin.reap();
    assert_eq!(events.len(), 1);
    assert_eq!(events[0].kind, DeviceEventKind::Disconnected);
    assert_eq!(events[0].device.device_id, a);
    assert_eq!(events[0].device.device_name, "WootingOne");
    assert_eq!(plugin.read_analog(4, a), Err(AnalogError::DeviceNotFound));
    assert_eq!(plugin.read_analog(4, b), Ok(0));
    assert!(plugin.reap().is_empty());
    plugin.acquisition_step(b, None);
    assert_eq!(plugin.reap().len(), 1);
    assert_eq!(plugin.read_analog(4, 0), Err(AnalogError::NoDevices));
    assert_eq!(plugin.read_analog(4, b), Err(AnalogError::NoDevices));
}

#[test]
fn a_reaped_keyboard_can_come_back_as_a_new_session() {
    let mut plugin = ready_plugin();
    let a = attach(&mut plugin, "A");
    report(&mut plugin, a, &[0, 4, 100]);
    plugin.acquisition_step(a, None);
    // while the dead session is registered the unit cannot be attached again
    let d = keyboard(0xFF01, "A");
    assert!(plugin.attach(&d, DecodingProfile::wooting_one(true)).is_none());
    assert_eq!(plugin.read_analog(4, a), Err(AnalogError::DeviceDisconnected));
    assert_eq!(plugin.reap().len(), 1);
    assert!(plugin.attach(&d, DecodingProfile::wooting_one(true)).is_some());
    assert_eq!(plugin.read_analog(4, a), Ok(0));
    assert_eq!(plugin.devices().get(a).map(|s| s.is_live()), Some(true));
}

#[test]
fn reading_loop_of_an_unregistered_keyboard_stops() {
    let mut plugin = ready_plugin();
    let a = attach(&mut plugin, "A");
    assert_eq!(report(&mut plugin, a, &[0, 4, 1]), LoopAction::Continue);
    assert_eq!(report(&mut plugin, a.wrapping_add(1), &[0, 4, 1]), LoopAction::Stop);
    plugin.unload();
    assert_eq!(report(&mut plugin, a, &[0, 4, 1]), LoopAction::Stop);
}

#[test]
fn device_info_lists_in_order_of_registration() {
    let mut plugin = ready_plugin();
    let two = keyboard(0xFF02, "T");
    assert!(plugin.attach(&two, DecodingProfile::wooting_two(true)).is_some());
    let one = keyboard(0xFF01, "O");
    assert!(plugin.attach(&one, DecodingProfile::wooting_one(true)).is_some());
    let list = plugin.device_info().unwrap();
    assert_eq!(list.len(), 2);
    assert_eq!(list[0].vendor_id, 0x03EB);
    assert_eq!(list[0].product_id, 0xFF02);
    assert_eq!(list[0].manufacturer_name, "Wooting");
    assert_eq!(list[0].device_name, "WootingTwo");
    assert_eq!(list[0].device_id, identity_of(&two));
    assert_eq!(list[1].product_id, 0xFF01);
    assert_eq!(list[1].device_name, "WootingOne");
    assert_eq!(list[1].device_id, identity_of(&one));
}

#[test]
fn notification_target_is_replaced_and_cleared() {
    let mut plugin = ready_plugin();
    let probe = || wooting_analog_plugin::DeviceEvent {
        kind: DeviceEventKind::Connected,
        device: wooting_analog_plugin::DeviceDescriptor {
            vendor_id: 1,
            product_id: 2,
            manufacturer_name: String::from("m"),
            device_name: String::from("d"),
            device_id: 3,
        },
    };
    assert!(plugin.handle_device_event(probe()).is_none());
    assert_eq!(plugin.set_device_event_cb(7), Ok(()));
    let n = plugin.handle_device_event(probe()).unwrap();
    assert_eq!(n.target, 7);
    assert_eq!(n.event.kind, DeviceEventKind::Connected);
    assert_eq!(n.event.device.device_id, 3);
    assert_eq!(plugin.set_device_event_cb(8), Ok(()));
    assert_eq!(plugin.set_device_event_cb(8), Ok(()));
    assert_eq!(plugin.handle_device_event(probe()).map(|n| n.target), Some(8));
    assert_eq!(plugin.clear_device_event_cb(), Ok(()));
    assert!(plugin.handle_device_event(probe()).is_none());
    assert_eq!(plugin.clear_device_event_cb(), Ok(()));
    assert!(plugin.handle_device_event(probe()).is_none());
}

#[test]
fn plug_scan_list_notify_once() {
    let mut plugin = ready_plugin();
    plugin.set_device_event_cb(1).unwrap();
    let d = keyboard(0xFF01, "A");
    let id = identity_of(&d);
    let listing = vec![d];
    assert_eq!(scan(&mut plugin, &listing, &[true]), vec![(DeviceEventKind::Connected, id)]);
    let listed = plugin.device_info().unwrap();
    assert_eq!(listed.len(), 1);
    assert_eq!(listed[0].device_id, id);
    assert_eq!(scan(&mut plugin, &listing, &[true]), vec![]);
    assert_eq!(scan(&mut plugin, &listing, &[true]), vec![]);
    assert_eq!(plugin.device_info().map(|l| l.len()), Ok(1));
}

#[test]
fn scan_ignores_strangers_and_skips_what_cannot_be_opened() {
    let mut plugin = ready_plugin();
    plugin.set_device_event_cb(1).unwrap();
    let mut mouse = keyboard(0x1234, "M");
    mouse.vendor_id = 0x046D;
    let mut wrong_interface = keyboard(0xFF01, "A");
    wrong_interface.usage_page = 0x0001;
    let stuck = keyboard(0xFF01, "B");
    let two = keyboard(0xFF02, "C");
    let listing = vec![mouse, wrong_interface, stuck.clone(), two.clone()];
    let fired = scan(&mut plugin, &listing, &[true, true, false, true]);
    assert_eq!(fired, vec![(DeviceEventKind::Connected, identity_of(&two))]);
    assert_eq!(plugin.device_info().map(|l| l.len()), Ok(1));
    // the keyboard that could not be opened is tried again on the next scan
    let fired = scan(&mut plugin, &listing, &[true, true, true, true]);
    assert_eq!(fired, vec![(DeviceEventKind::Connected, identity_of(&stuck))]);
    assert_eq!(plugin.device_info().map(|l| l.len()), Ok(2));
}

#[test]
fn scan_opens_one_unit_once_though_it_is_listed_twice() {
    let mut plugin = ready_plugin();
    plugin.set_device_event_cb(1).unwrap();
    let first = keyboard(0xFF01, "A");
    let mut second = keyboard(0xFF01, "A");
    second.usage_page = 0;
    let listing = vec![first.clone(), second];
    let fired = scan(&mut plugin, &listing, &[true, true]);
    assert_eq!(fired, vec![(DeviceEventKind::Connected, identity_of(&first))]);
    assert_eq!(plugin.devices().len(), 1);
}

#[test]
fn scan_reaps_and_reconnects_in_one_cycle() {
    let mut plugin = ready_plugin();
    plugin.set_device_event_cb(1).unwrap();
    let d = keyboard(0xFF01, "A");
    let id = identity_of(&d);
    let listing = vec![d];
    scan(&mut plugin, &listing, &[true]);
    plugin.acquisition_step(id, None);
    let fired = scan(&mut plugin, &listing, &[true]);
    assert_eq!(
        fired,
        vec![(DeviceEventKind::Disconnected, id), (DeviceEventKind::Connected, id)]
    );
    assert_eq!(plugin.read_analog(4, id), Ok(0));
    // unplugged for good: the listing is empty
    plugin.acquisition_step(id, None);
    assert_eq!(scan(&mut plugin, &vec![], &[]), vec![(DeviceEventKind::Disconnected, id)]);
    assert_eq!(plugin.read_analog(4, id), Err(AnalogError::NoDevices));
}

#[test]
fn scan_without_target_changes_the_registry_silently() {
    let mut plugin = ready_plugin();
    let listing = vec![keyboard(0xFF01, "A")];
    assert_eq!(scan(&mut plugin, &listing, &[true]), vec![]);
    assert_eq!(plugin.devices().len(), 1);
}

#[test]
fn next_candidate_walks_in_order() {
    let mut plugin = ready_plugin();
    let profiles = known_profiles(true);
    let listing = vec![keyboard(0xFF02, "A"), keyboard(0x0001, "B"), keyboard(0xFF01, "C")];
    let first = plugin.next_candidate(&listing, &profiles, ScanCursor::start());
    assert_eq!(first, Some(ScanCursor { descriptor: 0, profile: 1 }));
    let again = plugin.next_candidate(&listing, &profiles, first.unwrap());
    assert_eq!(again, first);
    let second = plugin.next_candidate(&listing, &profiles, first.unwrap().after());
    assert_eq!(second, Some(ScanCursor { descriptor: 2, profile: 0 }));
    assert_eq!(plugin.next_candidate(&listing, &profiles, second.unwrap().after()), None);
    assert_eq!(
        plugin.next_candidate(&listing, &profiles, ScanCursor { descriptor: 3, profile: 0 }),
        None
    );
    assert_eq!(
        plugin.next_candidate(&listing, &profiles, ScanCursor { descriptor: 0, profile: 7 }),
        second
    );
    assert!(plugin.attach(&listing[0], profiles[1]).is_some());
    assert_eq!(plugin.next_candidate(&listing, &profiles, ScanCursor::start()), second);
    assert_eq!(plugin.next_candidate(&vec![], &profiles, ScanCursor::start()), None);
    assert_eq!(plugin.next_candidate(&listing, &vec![], ScanCursor::start()), None);
}

#[test]
fn cursor_moves_on() {
    assert_eq!(ScanCursor::start(), ScanCursor { descriptor: 0, profile: 0 });
    assert_eq!(
        ScanCursor { descriptor: 3, profile: 1 }.after(),
        ScanCursor { descriptor: 3, profile: 2 }
    );
    assert_eq!(
        ScanCursor { descriptor: 3, profile: usize::MAX }.after(),
        ScanCursor { descriptor: 4, profile: 0 }
    );
    assert_eq!(
        ScanCursor { descriptor: usize::MAX, profile: usize::MAX }.after(),
        ScanCursor { descriptor: usize::MAX, profile: usize::MAX }
    );
}

#[test]
fn unload_drops_everything() {
    let mut plugin = ready_plugin();
    plugin.set_device_event_cb(1).unwrap();
    attach(&mut plugin, "A");
    plugin.unload();
    assert!(!plugin.is_initialised());
    assert!(plugin.devices().is_empty());
    assert_eq!(plugin.read_analog(4, 0), Err(AnalogError::NotInitialized));
    assert_eq!(plugin.initialise(true), Ok(InitOutcome::NoDevices));
    assert_eq!(plugin.read_analog(4, 0), Err(AnalogError::NoDevices));
}

#[test]
fn aggregates_over_a_plain_list_of_sessions() {
    let mut unit = DecodingProfile::wooting_one(true);
    unit.gain = Gain::Unit;
    let (_, mut a) = DeviceSession::open(&keyboard(0xFF01, "A"), unit);
    let (_, mut b) = DeviceSession::open(&keyboard(0xFF01, "B"), unit);
    a.store_report(&[0, 4, 10]);
    b.store_report(&[0, 4, 20, 0, 5, 1]);
    let mut sessions = vec![a, b];
    assert_eq!(read_strongest(&sessions, 4), Ok(100));
    assert_eq!(read_merged(&sessions, 10).map(|m| m.to_vec()), Ok(vec![entry(4, 100), entry(5, 5)]));
    sessions[1].mark_disconnected();
    assert_eq!(read_strongest(&sessions, 4), Ok(50));
    assert_eq!(read_merged(&sessions, 10).map(|m| m.to_vec()), Ok(vec![entry(4, 50)]));
    sessions[0].mark_disconnected();
    assert_eq!(read_strongest(&sessions, 4), Err(AnalogError::DeviceDisconnected));
    assert_eq!(read_merged(&sessions, 10).err(), Some(AnalogError::DeviceDisconnected));
}

#[test]
fn aggregate_over_no_session_has_no_failure_to_name() {
    let sessions: Vec<DeviceSession> = Vec::new();
    assert_eq!(read_strongest(&sessions, 4), Err(AnalogError::Unknown));
    assert_eq!(read_merged(&sessions, 10).err(), Some(AnalogError::Unknown));
}
