use wooting_analog_plugin::{
    DecodingProfile, DeviceRegistry, DeviceSession, Gain, LoopAction, RawDescriptor,
};

fn descriptor(serial: &str) -> RawDescriptor {
    RawDescriptor {
        vendor_id: 0x03EB,
        product_id: 0xFF01,
        usage_page: 0xFF54,
        interface_number: 6,
        serial_number: Some(String::from(serial)),
        manufacturer_string: Some(String::from("Wooting")),
        product_string: Some(String::from("WootingOne")),
    }
}

fn unit_profile() -> DecodingProfile {
    let mut profile = DecodingProfile::wooting_one(true);
    profile.gain = Gain::Unit;
    profile
}

#[test]
fn registry_starts_empty() {
    let registry = DeviceRegistry::new();
    assert!(registry.is_empty());
    assert_eq!(registry.len(), 0);
    assert!(!registry.contains(0));
    assert!(registry.get(1).is_none());
    assert!(registry.sessions().is_empty());
}

#[test]
fn registry_holds_one_session_per_identity() {
    let mut registry = DeviceRegistry::new();
    let (id, first) = DeviceSession::open(&descriptor("S1"), unit_profile());
    assert!(registry.register(first).is_ok());
    assert!(registry.contains(id));
    assert_eq!(registry.len(), 1);
    let mut d = descriptor("S1");
    d.product_string = Some(String::from("again"));
    let (again, second) = DeviceSession::open(&d, unit_profile());
    assert_eq!(again, id);
    let back = registry.register(second);
    assert_eq!(back.err().map(|s| s.descriptor().device_name.clone()), Some(String::from("again")));
    assert_eq!(registry.len(), 1);
    assert_eq!(registry.get(id).map(|s| s.descriptor().device_name.clone()), Some(String::from("WootingOne")));
}

#[test]
fn registry_get_and_remove() {
    let mut registry = DeviceRegistry::new();
    let (a, sa) = DeviceSession::open(&descriptor("A"), unit_profile());
    let (b, sb) = DeviceSession::open(&descriptor("B"), unit_profile());
    let (c, sc) = DeviceSession::open(&descriptor("C"), unit_profile());
    assert!(registry.register(sa).is_ok());
    assert!(registry.register(sb).is_ok());
    assert!(registry.register(sc).is_ok());
    let order: Vec<u64> = registry.sessions().iter().map(|s| s.identity()).collect();
    assert_eq!(order, vec![a, b, c]);
    assert_eq!(registry.get(b).map(|s| s.identity()), Some(b));
    assert_eq!(registry.remove(b).map(|s| s.identity()), Some(b));
    assert!(registry.remove(b).is_none());
    assert!(!registry.contains(b));
    assert!(registry.get(b).is_none());
    let order: Vec<u64> = registry.sessions().iter().map(|s| s.identity()).collect();
    assert_eq!(order, vec![a, c]);
    let (_, sb) = DeviceSession::open(&descriptor("B"), unit_profile());
    assert!(registry.register(sb).is_ok());
    let order: Vec<u64> = registry.sessions().iter().map(|s| s.identity()).collect();
    assert_eq!(order, vec![a, c, b]);
    registry.clear();
    assert!(registry.is_empty());
}

#[test]
fn registry_steps_the_session_addressed() {
    let mut registry = DeviceRegistry::new();
    let (a, sa) = DeviceSession::open(&descriptor("A"), unit_profile());
    let (b, sb) = DeviceSession::open(&descriptor("B"), unit_profile());
    assert!(registry.register(sa).is_ok());
    assert!(registry.register(sb).is_ok());
    let report = [0u8, 4, 10];
    assert_eq!(registry.acquisition_step(a, Some(&report[..])), LoopAction::Continue);
    assert_eq!(registry.get(a).map(|s| s.current_value(4)), Some(50));
    assert_eq!(registry.get(b).map(|s| s.current_value(4)), Some(0));
    assert_eq!(registry.acquisition_step(b, None), LoopAction::Stop);
    assert_eq!(registry.get(b).map(|s| s.is_live()), Some(false));
    assert_eq!(registry.get(a).map(|s| s.is_live()), Some(true));
    assert_eq!(registry.acquisition_step(b, Some(&report[..])), LoopAction::Stop);
    assert_eq!(registry.get(b).map(|s| s.current_value(4)), Some(0));
    assert_eq!(registry.acquisition_step(a.wrapping_add(b).wrapping_add(1), Some(&report[..])), LoopAction::Stop);
    assert_eq!(registry.len(), 2);
}

#[test]
fn registry_reaps_the_dead_in_order() {
    let mut registry = DeviceRegistry::new();
    let mut ids = Vec::new();
    for serial in ["A", "B", "C", "D", "E"] {
        let (id, session) = DeviceSession::open(&descriptor(serial), unit_profile());
        ids.push(id);
        assert!(registry.register(session).is_ok());
    }
    assert!(registry.reap().is_empty());
    assert_eq!(registry.len(), 5);
    registry.acquisition_step(ids[3], None);
    registry.acquisition_step(ids[0], None);
    registry.acquisition_step(ids[4], None);
    let dead: Vec<u64> = registry.reap().iter().map(|s| s.identity()).collect();
    assert_eq!(dead, vec![ids[0], ids[3], ids[4]]);
    let left: Vec<u64> = registry.sessions().iter().map(|s| s.identity()).collect();
    assert_eq!(left, vec![ids[1], ids[2]]);
    assert!(registry.reap().is_empty());
    registry.acquisition_step(ids[1], None);
    registry.acquisition_step(ids[2], None);
    assert_eq!(registry.reap().len(), 2);
    assert!(registry.is_empty());
}

#[test]
fn registry_for_each_visits_in_order() {
    let mut registry = DeviceRegistry::new();
    let (a, sa) = DeviceSession::open(&descriptor("A"), unit_profile());
    let (b, sb) = DeviceSession::open(&descriptor("B"), unit_profile());
    assert!(registry.register(sa).is_ok());
    assert!(registry.register(sb).is_ok());
    let seen = std::cell::RefCell::new(Vec::new());
    registry.for_each(|session| seen.borrow_mut().push(session.identity()));
    assert_eq!(seen.into_inner(), vec![a, b]);
    let none = std::cell::Cell::new(0u32);
    DeviceRegistry::new().for_each(|_| none.set(none.get() + 1));
    assert_eq!(none.get(), 0);
}
