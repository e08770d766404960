use gatekeeper::coordinator::{expiration_wait_seconds, RequestErrExt};
use gatekeeper::leases::{parse_lease_line, read_observed_devices};
use gatekeeper::order::set_insert;
use gatekeeper::types::{
    set_to_vec, Device, DeviceOverride, ErrorKind, GuestPath, ScheduleEntry, World,
};

fn device(name: &str, mac: &str) -> Device {
    Device {
        name: name.to_owned(),
        mac: mac.to_owned(),
    }
}

#[test]
fn require_param_demands_a_value() {
    let present: Option<&str> = Some("aa:bb");
    assert_eq!(Ok("aa:bb"), present.require_param("missing".to_owned()));
    let absent: Option<&str> = None;
    assert_eq!(
        Err(ErrorKind::RequestError("missing".to_owned())),
        absent.require_param("missing".to_owned())
    );
}

#[test]
fn set_guest_path_parses_the_allow_parameter() {
    let mut world = World::default();
    world.set_guest_path(Some("True"), Some(99)).unwrap();
    assert_eq!(
        ScheduleEntry {
            item: GuestPath::Open,
            time_bound: Some(99)
        },
        world.schedule.guest_entry
    );
    world.set_guest_path(Some("false"), None).unwrap();
    assert_eq!(
        ScheduleEntry {
            item: GuestPath::Closed,
            time_bound: None
        },
        world.schedule.guest_entry
    );
    let err = world.set_guest_path(None, None);
    assert_eq!(
        Err(ErrorKind::RequestError("Missing allow parameter".to_owned())),
        err
    );
}

#[test]
fn set_device_override_parses_the_override_parameter() {
    let mut world = World::default();
    world.set_device_override(Some("TRUE"), Some(7)).unwrap();
    assert_eq!(
        Some(ScheduleEntry {
            item: DeviceOverride::Open,
            time_bound: Some(7)
        }),
        world.schedule.override_entry
    );
    world.set_device_override(Some("anything"), None).unwrap();
    assert_eq!(
        Some(ScheduleEntry {
            item: DeviceOverride::Closed,
            time_bound: None
        }),
        world.schedule.override_entry
    );
    world.set_device_override(Some("Null"), None).unwrap();
    assert_eq!(None, world.schedule.override_entry);
    let err = world.set_device_override(None, None);
    assert_eq!(
        Err(ErrorKind::RequestError(
            "Missing override paramter".to_owned()
        )),
        err
    );
}

#[test]
fn expiration_wait_uses_the_soonest_event() {
    assert_eq!(30 * 86400, expiration_wait_seconds(None, 1000));
    assert_eq!(0, expiration_wait_seconds(Some(995), 1000));
    assert_eq!(0, expiration_wait_seconds(Some(1000), 1000));
    assert_eq!(7, expiration_wait_seconds(Some(1007), 1000));
}

#[test]
fn parse_lease_line_reads_mac_and_name() {
    let parsed = parse_lease_line("1499300400 aa:bb:cc 192.168.0.7 livingroom-tv").unwrap();
    assert_eq!(device("livingroom-tv", "aa:bb:cc"), parsed);
}

#[test]
fn parse_lease_line_keeps_the_rest_of_the_line_as_name() {
    let parsed = parse_lease_line("t aa:bb ip host extra").unwrap();
    assert_eq!(device("host extra", "aa:bb"), parsed);
}

#[test]
fn parse_lease_line_skips_malformed_lines() {
    assert_eq!(None, parse_lease_line(""));
    assert_eq!(None, parse_lease_line("only-one-field"));
    assert_eq!(None, parse_lease_line("two fields"));
    assert_eq!(None, parse_lease_line("three fields here"));
}

#[test]
fn read_observed_devices_collects_parsed_lines() {
    let lines = vec![
        "1 aa:aa ip1 tv-one".to_owned(),
        "broken".to_owned(),
        "2 bb:bb ip2 tv-two".to_owned(),
        "3 aa:aa ip1 tv-one".to_owned(),
    ];
    let mut devs = Vec::new();
    read_observed_devices(&lines, &mut devs);
    let mut expected = Vec::new();
    set_insert(&mut expected, device("tv-one", "aa:aa"));
    set_insert(&mut expected, device("tv-two", "bb:bb"));
    assert_eq!(expected, devs);
}

#[test]
fn set_to_vec_copies_the_devices() {
    let mut devs = Vec::new();
    set_insert(&mut devs, device("TV1", "5678"));
    set_insert(&mut devs, device("TV2", "1234"));
    let copied = set_to_vec(&devs);
    assert_eq!(devs, copied);
}
