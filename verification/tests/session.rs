use wooting_analog_plugin::{
    identity_of, AnalogEntry, AnalogError, DecodingProfile, DeviceSession, Gain, LoopAction,
    RawDescriptor, ANALOG_BUFFER_SIZE,
};

fn descriptor(serial: &str) -> RawDescriptor {
    RawDescriptor {
        vendor_id: 0x03EB,
        product_id: 0xFF01,
        usage_page: 0xFF54,
        interface_number: 6,
        serial_number: Some(String::from(serial)),
        manufacturer_string: Some(String::from("Wooting")),
        product_string: Some(String::from("WootingOne")),
    }
}

fn unit_profile() -> DecodingProfile {
    let mut profile = DecodingProfile::wooting_one(true);
    profile.gain = Gain::Unit;
    profile
}

fn entry(code: u16, intensity: u16) -> AnalogEntry {
    AnalogEntry { code, intensity }
}

#[test]
fn open_builds_display_data_and_an_empty_buffer() {
    let d = descriptor("S1");
    let (id, session) = DeviceSession::open(&d, DecodingProfile::wooting_one(true));
    assert_eq!(id, identity_of(&d));
    assert_eq!(session.identity(), id);
    assert!(session.is_live());
    assert_eq!(session.profile(), DecodingProfile::wooting_one(true));
    let shown = session.descriptor();
    assert_eq!(shown.vendor_id, 0x03EB);
    assert_eq!(shown.product_id, 0xFF01);
    assert_eq!(shown.manufacturer_name, "Wooting");
    assert_eq!(shown.device_name, "WootingOne");
    assert_eq!(shown.device_id, id);
    assert!(session.current_snapshot(usize::MAX).is_empty());
    assert_eq!(session.current_value(4), 0);
    assert_eq!(session.read_analog(4), Ok(0));
}

#[test]
fn descriptor_copy_is_equal() {
    let (_, session) = DeviceSession::open(&descriptor("S1"), unit_profile());
    let twin = session.descriptor().clone();
    assert_eq!(twin.vendor_id, session.descriptor().vendor_id);
    assert_eq!(twin.product_id, session.descriptor().product_id);
    assert_eq!(twin.manufacturer_name, session.descriptor().manufacturer_name);
    assert_eq!(twin.device_name, session.descriptor().device_name);
    assert_eq!(twin.device_id, session.descriptor().device_id);
}

#[test]
fn a_report_replaces_the_readings_wholesale() {
    let (_, mut session) = DeviceSession::open(&descriptor("S1"), unit_profile());
    let first = [0u8, 4, 10, 0, 5, 20];
    assert_eq!(session.acquisition_step(Some(&first[..])), LoopAction::Continue);
    assert_eq!(session.current_value(4), 50);
    assert_eq!(session.current_value(5), 100);
    let second = [0u8, 5, 30, 0, 6, 40];
    assert_eq!(session.acquisition_step(Some(&second[..])), LoopAction::Continue);
    assert_eq!(session.current_value(4), 0);
    assert_eq!(session.current_value(5), 150);
    assert_eq!(session.current_value(6), 200);
    assert_eq!(
        session.current_snapshot(usize::MAX).to_vec(),
        vec![entry(5, 150), entry(6, 200)]
    );
    let rest = [0u8, 5, 0];
    assert_eq!(session.acquisition_step(Some(&rest[..])), LoopAction::Continue);
    assert!(session.current_snapshot(usize::MAX).is_empty());
    assert!(session.is_live());
}

#[test]
fn a_session_scales_by_its_profile() {
    let (_, mut session) =
        DeviceSession::open(&descriptor("S1"), DecodingProfile::wooting_one(true));
    session.store_report(&[0u8, 4, 128]);
    assert_eq!(session.current_value(4), 768);
}

#[test]
fn a_session_decodes_up_to_its_buffer_size() {
    assert_eq!(ANALOG_BUFFER_SIZE, 48);
    let mut raw = Vec::new();
    for code in 0..60u8 {
        raw.extend_from_slice(&[0, code, 1]);
    }
    let (_, mut session) = DeviceSession::open(&descriptor("S1"), unit_profile());
    session.store_report(&raw);
    assert_eq!(session.current_snapshot(usize::MAX).len(), 48);
    assert_eq!(session.current_value(47), 5);
    assert_eq!(session.current_value(48), 0);
}

#[test]
fn snapshot_is_capped() {
    let (_, mut session) = DeviceSession::open(&descriptor("S1"), unit_profile());
    session.store_report(&[0u8, 9, 1, 0, 3, 2, 0, 5, 3]);
    assert_eq!(session.current_snapshot(0).to_vec(), vec![]);
    assert_eq!(session.current_snapshot(2).to_vec(), vec![entry(3, 10), entry(5, 15)]);
    assert_eq!(session.current_snapshot(3).len(), 3);
    assert_eq!(session.current_snapshot(100).len(), 3);
    assert_eq!(
        session.read_full_buffer(1).map(|b| b.to_vec()),
        Ok(vec![entry(3, 10)])
    );
}

#[test]
fn a_failed_read_kills_the_session_once_and_for_all() {
    let (_, mut session) = DeviceSession::open(&descriptor("S1"), unit_profile());
    session.store_report(&[0u8, 4, 10]);
    assert!(session.is_live());
    assert_eq!(session.acquisition_step(None), LoopAction::Stop);
    assert!(!session.is_live());
    assert_eq!(session.current_value(4), 50);
    assert_eq!(session.read_analog(4), Err(AnalogError::DeviceDisconnected));
    assert_eq!(
        session.read_full_buffer(10).map(|b| b.to_vec()),
        Err(AnalogError::DeviceDisconnected)
    );
    let late = [0u8, 4, 20];
    assert_eq!(session.acquisition_step(Some(&late[..])), LoopAction::Stop);
    assert!(!session.is_live());
    assert_eq!(session.current_value(4), 50);
    session.store_report(&late);
    assert!(!session.is_live());
    assert_eq!(session.current_value(4), 50);
    assert_eq!(session.acquisition_step(None), LoopAction::Stop);
    session.mark_disconnected();
    assert!(!session.is_live());
    assert_eq!(session.current_snapshot(10).to_vec(), vec![entry(4, 50)]);
}

#[test]
fn mark_disconnected_keeps_the_readings() {
    let (_, mut session) = DeviceSession::open(&descriptor("S1"), unit_profile());
    session.store_report(&[0u8, 4, 10]);
    session.mark_disconnected();
    assert!(!session.is_live());
    assert_eq!(session.current_value(4), 50);
}

#[test]
fn open_shows_a_missing_display_string_as_empty() {
    let mut d = descriptor("S1");
    d.manufacturer_string = None;
    let (_, session) = DeviceSession::open(&d, unit_profile());
    assert_eq!(session.descriptor().manufacturer_name, "");
    assert_eq!(session.descriptor().device_name, "WootingOne");
    d.product_string = None;
    let (id, session) = DeviceSession::open(&d, unit_profile());
    assert_eq!(session.descriptor().manufacturer_name, "");
    assert_eq!(session.descriptor().device_name, "");
    assert_eq!(id, identity_of(&descriptor("S1")));
    assert!(session.is_live());
}
