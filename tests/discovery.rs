use akri_mdns::{
    check_browse_result, normalize_service_name, service_name_for_request, translate_record,
    BrowseEvent, DeviceCache, DeviceRecord, DiscoverError, DiscoverySession,
    MdnsDiscoveryDetails, PropertyMap, ServiceRecord, SessionAction,
};

fn record(name: &str, host: &str, port: u16, addrs: &[&str], attrs: &[(&str, &str)]) -> ServiceRecord {
    ServiceRecord {
        fullname: name.to_string(),
        hostname: host.to_string(),
        port,
        addresses: addrs.iter().map(|a| a.to_string()).collect(),
        attributes: attrs.iter().map(|(k, v)| (k.to_string(), v.to_string())).collect(),
    }
}

fn published(action: SessionAction) -> Vec<DeviceRecord> {
    match action {
        SessionAction::Publish(devices) => devices,
        other => panic!("expected a publication, got {:?}", other),
    }
}

fn ids(devices: &[DeviceRecord]) -> Vec<String> {
    let mut ids: Vec<String> = devices.iter().map(|d| d.id.clone()).collect();
    ids.sort();
    ids
}

fn prop(device: &DeviceRecord, key: &str) -> Option<String> {
    device.properties.get(key)
}

#[test]
fn resolved_instance_is_published_with_its_properties() {
    let mut session = DiscoverySession::new();
    let rec = record("X", "h", 1234, &["10.0.0.1"], &[("foo bar", "1")]);
    let devices = published(session.handle_event(BrowseEvent::Resolved(rec), false));
    assert_eq!(devices.len(), 1);
    let d = &devices[0];
    assert_eq!(d.id, "X");
    assert_eq!(prop(d, "MDNS_HOSTNAME").as_deref(), Some("h"));
    assert_eq!(prop(d, "MDNS_PORT").as_deref(), Some("1234"));
    assert_eq!(prop(d, "MDNS_IP_ADDRESS_0").as_deref(), Some("10.0.0.1"));
    assert_eq!(prop(d, "MDNS_TXT_FOO_BAR").as_deref(), Some("1"));
    assert_eq!(d.properties.to_pairs().len(), 4);
}

#[test]
fn resolve_then_remove_publishes_twice() {
    let mut session = DiscoverySession::new();
    let rec = record("X", "h", 1234, &["10.0.0.1"], &[]);
    let first = published(session.handle_event(BrowseEvent::Resolved(rec), false));
    assert_eq!(ids(&first), vec!["X".to_string()]);
    let second = published(session.handle_event(BrowseEvent::Removed("X".to_string()), false));
    assert!(second.iter().all(|d| d.id != "X"));
    assert!(second.is_empty());
}

#[test]
fn malformed_details_are_an_invalid_argument() {
    let r = service_name_for_request(Err("missing field `serviceName`".to_string()));
    match r {
        Err(DiscoverError::InvalidDetails(msg)) => assert_eq!(msg, "missing field `serviceName`"),
        other => panic!("expected invalid details, got {:?}", other),
    }
}

#[test]
fn well_formed_details_give_the_normalized_name() {
    let details = MdnsDiscoveryDetails { service_name: "_http._tcp.local".to_string() };
    let r = service_name_for_request(Ok(details));
    assert_eq!(r.unwrap(), "_http._tcp.local.");
}

#[test]
fn rejected_service_name_is_an_invalid_argument() {
    let r: Result<u8, DiscoverError> = check_browse_result(Err(()));
    assert!(matches!(r, Err(DiscoverError::InvalidServiceName)));
    let ok: Result<u8, DiscoverError> = check_browse_result(Ok(7));
    assert!(matches!(ok, Ok(7)));
}

#[test]
fn closed_consumer_gets_one_reregistration_and_ends() {
    let mut session = DiscoverySession::new();
    let rec = record("X", "h", 1, &[], &[]);
    published(session.handle_event(BrowseEvent::Resolved(rec.clone()), false));
    let action = session.handle_event(BrowseEvent::Resolved(rec.clone()), true);
    assert!(matches!(action, SessionAction::Reregister));
    assert!(session.is_ended());
    let later = session.handle_event(BrowseEvent::Resolved(rec), false);
    assert!(matches!(later, SessionAction::Finish));
    assert!(matches!(session.publish_failed(), SessionAction::Finish));
}

#[test]
fn failed_send_triggers_reregistration_once() {
    let mut session = DiscoverySession::new();
    assert!(matches!(session.publish_failed(), SessionAction::Reregister));
    assert!(session.is_ended());
    assert!(matches!(session.publish_failed(), SessionAction::Finish));
}

#[test]
fn search_stopped_ends_the_session() {
    let mut session = DiscoverySession::new();
    assert!(matches!(session.handle_event(BrowseEvent::SearchStopped, false), SessionAction::Finish));
    assert!(session.is_ended());
}

#[test]
fn other_events_change_nothing() {
    let mut session = DiscoverySession::new();
    assert!(matches!(session.handle_event(BrowseEvent::Other, false), SessionAction::Continue));
    assert!(!session.is_ended());
    assert!(session.current_devices().is_empty());
}

#[test]
fn normalization_is_idempotent_on_examples() {
    for name in ["", "a", "_http._tcp.local", "_http._tcp.local.", "."] {
        let once = normalize_service_name(name);
        let twice = normalize_service_name(&once);
        assert_eq!(once, twice);
        assert!(once.ends_with('.'));
    }
    assert_eq!(normalize_service_name(""), ".");
    assert_eq!(normalize_service_name("x.local."), "x.local.");
}

#[test]
fn cache_keeps_instances_whose_last_event_resolved_them() {
    let mut session = DiscoverySession::new();
    let a = record("A", "ha", 1, &[], &[]);
    let b = record("B", "hb", 2, &[], &[]);
    session.handle_event(BrowseEvent::Resolved(a.clone()), false);
    session.handle_event(BrowseEvent::Resolved(b), false);
    session.handle_event(BrowseEvent::Removed("A".to_string()), false);
    session.handle_event(BrowseEvent::Removed("C".to_string()), false);
    assert_eq!(ids(&session.current_devices()), vec!["B".to_string()]);
    let again = published(session.handle_event(BrowseEvent::Resolved(a), false));
    assert_eq!(ids(&again), vec!["A".to_string(), "B".to_string()]);
}

#[test]
fn unrelated_events_in_either_order_give_the_same_cache() {
    let a = record("A", "ha", 1, &[], &[]);
    let b = record("B", "hb", 2, &[], &[]);
    let mut first = DiscoverySession::new();
    first.handle_event(BrowseEvent::Resolved(a.clone()), false);
    first.handle_event(BrowseEvent::Resolved(b.clone()), false);
    first.handle_event(BrowseEvent::Removed("C".to_string()), false);
    let mut second = DiscoverySession::new();
    second.handle_event(BrowseEvent::Removed("C".to_string()), false);
    second.handle_event(BrowseEvent::Resolved(b), false);
    second.handle_event(BrowseEvent::Resolved(a), false);
    assert_eq!(ids(&first.current_devices()), vec!["A".to_string(), "B".to_string()]);
    assert_eq!(ids(&second.current_devices()), vec!["A".to_string(), "B".to_string()]);
}

#[test]
fn re_resolution_replaces_the_record_whole() {
    let mut cache = DeviceCache::new();
    cache.insert(record("X", "old", 1, &["10.0.0.1", "10.0.0.2"], &[("k", "v")]));
    cache.insert(record("X", "new", 2, &["10.0.0.3"], &[]));
    let devices = cache.devices();
    assert_eq!(devices.len(), 1);
    let d = &devices[0];
    assert_eq!(prop(d, "MDNS_HOSTNAME").as_deref(), Some("new"));
    assert_eq!(prop(d, "MDNS_PORT").as_deref(), Some("2"));
    assert_eq!(prop(d, "MDNS_IP_ADDRESS_0").as_deref(), Some("10.0.0.3"));
    assert_eq!(prop(d, "MDNS_IP_ADDRESS_1"), None);
    assert_eq!(prop(d, "MDNS_TXT_K"), None);
}

#[test]
fn translation_is_repeatable() {
    let rec = record("X", "h", 80, &["10.0.0.1", "fe80::1"], &[("a", "1"), ("b c", "2")]);
    let one = translate_record(&rec.fullname, &rec);
    let two = translate_record(&rec.fullname, &rec);
    assert_eq!(one.properties.to_pairs(), two.properties.to_pairs());
    assert_eq!(prop(&one, "MDNS_IP_ADDRESS_1").as_deref(), Some("fe80::1"));
}

#[test]
fn address_order_decides_the_index() {
    let rec = record("X", "h", 80, &["10.0.0.2", "10.0.0.1"], &[]);
    let d = translate_record(&rec.fullname, &rec);
    assert_eq!(prop(&d, "MDNS_IP_ADDRESS_0").as_deref(), Some("10.0.0.2"));
    assert_eq!(prop(&d, "MDNS_IP_ADDRESS_1").as_deref(), Some("10.0.0.1"));
}

#[test]
fn non_ascii_attribute_keys_are_dropped() {
    let rec = record("X", "h", 80, &[], &[("caf\u{e9}", "1"), ("ok", "2")]);
    let d = translate_record(&rec.fullname, &rec);
    let pairs = d.properties.to_pairs();
    assert_eq!(pairs.len(), 3);
    assert!(pairs.iter().all(|(k, _)| k.is_ascii()));
    assert_eq!(prop(&d, "MDNS_TXT_OK").as_deref(), Some("2"));
    assert_eq!(prop(&d, "MDNS_TXT_CAF\u{c9}"), None);
}

#[test]
fn colliding_attribute_keys_keep_the_last_value() {
    let rec = record("X", "h", 0, &[], &[("foo bar", "1"), ("FOO_BAR", "2")]);
    let d = translate_record(&rec.fullname, &rec);
    assert_eq!(prop(&d, "MDNS_TXT_FOO_BAR").as_deref(), Some("2"));
    assert_eq!(prop(&d, "MDNS_PORT").as_deref(), Some("0"));
    assert_eq!(d.properties.to_pairs().len(), 3);
}

#[test]
fn largest_port_is_rendered_in_decimal() {
    let rec = record("X", "h", 65535, &[], &[]);
    let d = translate_record(&rec.fullname, &rec);
    assert_eq!(prop(&d, "MDNS_PORT").as_deref(), Some("65535"));
}

#[test]
fn property_map_overwrites_and_keeps_first_position() {
    let mut m = PropertyMap::new();
    m.insert("a".to_string(), "1".to_string());
    m.insert("b".to_string(), "2".to_string());
    m.insert("a".to_string(), "3".to_string());
    assert_eq!(
        m.to_pairs(),
        vec![("a".to_string(), "3".to_string()), ("b".to_string(), "2".to_string())]
    );
    assert_eq!(m.get("c"), None);
}
