use chrono::{TimeZone, Utc};

use gatekeeper::order::set_insert;
use gatekeeper::types::{Device, DeviceOverride, ErrorKind, GuestPath, ScheduleEntry, World};

fn device(name: &str, mac: &str) -> Device {
    Device {
        name: name.to_owned(),
        mac: mac.to_owned(),
    }
}

fn open_entry(name: &str, mac: &str, time_bound: Option<i64>) -> ScheduleEntry<Device> {
    ScheduleEntry {
        item: device(name, mac),
        time_bound,
    }
}

fn world_fixture() -> World {
    let mut world = World::default();
    world.schedule.override_entry = Some(ScheduleEntry {
        item: DeviceOverride::Closed,
        time_bound: None,
    });
    set_insert(
        &mut world.schedule.open_device_entries,
        open_entry("TV2", "1234", None),
    );
    set_insert(
        &mut world.schedule.open_device_entries,
        open_entry("TV1", "5678", None),
    );
    set_insert(&mut world.closed_devices, device("TV4", "abcd"));
    set_insert(&mut world.closed_devices, device("TV3", "bbbb"));
    world
}

fn ts(y: i32, mo: u32, d: u32, h: u32, mi: u32, s: u32) -> i64 {
    Utc.with_ymd_and_hms(y, mo, d, h, mi, s).unwrap().timestamp()
}

#[test]
fn open_device() {
    let mut world = world_fixture();
    world.open_device("bbbb", None).unwrap();
    let mut expected = World::default();
    expected.schedule.override_entry = Some(ScheduleEntry {
        item: DeviceOverride::Closed,
        time_bound: None,
    });
    set_insert(
        &mut expected.schedule.open_device_entries,
        open_entry("TV2", "1234", None),
    );
    set_insert(
        &mut expected.schedule.open_device_entries,
        open_entry("TV1", "5678", None),
    );
    set_insert(
        &mut expected.schedule.open_device_entries,
        open_entry("TV3", "bbbb", None),
    );
    set_insert(&mut expected.closed_devices, device("TV4", "abcd"));
    assert_eq!(expected, world);
}

#[test]
fn close_device() {
    let mut world = world_fixture();
    world.close_device("5678").unwrap();
    let mut expected = World::default();
    expected.schedule.override_entry = Some(ScheduleEntry {
        item: DeviceOverride::Closed,
        time_bound: None,
    });
    set_insert(
        &mut expected.schedule.open_device_entries,
        open_entry("TV2", "1234", None),
    );
    set_insert(&mut expected.closed_devices, device("TV4", "abcd"));
    set_insert(&mut expected.closed_devices, device("TV3", "bbbb"));
    set_insert(&mut expected.closed_devices, device("TV1", "5678"));
    assert_eq!(expected, world);
}

#[test]
fn do_timed_events() {
    let mut world = World::default();
    world.schedule.guest_entry = ScheduleEntry {
        item: GuestPath::Open,
        time_bound: Some(ts(2017, 2, 1, 11, 0, 0)),
    };
    world.schedule.override_entry = Some(ScheduleEntry {
        item: DeviceOverride::Open,
        time_bound: Some(ts(2017, 2, 1, 11, 0, 0)),
    });
    set_insert(
        &mut world.schedule.open_device_entries,
        open_entry("TV2", "1234", Some(ts(2017, 2, 1, 10, 0, 0))),
    );
    set_insert(
        &mut world.schedule.open_device_entries,
        open_entry("TV1", "5678", Some(ts(2017, 2, 1, 11, 0, 0))),
    );
    set_insert(&mut world.closed_devices, device("TV4", "abcd"));
    set_insert(&mut world.closed_devices, device("TV3", "bbbb"));

    world.expire_bounded(ts(2017, 2, 1, 10, 30, 0));

    let mut expected_1 = World::default();
    expected_1.schedule.guest_entry = ScheduleEntry {
        item: GuestPath::Open,
        time_bound: Some(ts(2017, 2, 1, 11, 0, 0)),
    };
    expected_1.schedule.override_entry = Some(ScheduleEntry {
        item: DeviceOverride::Open,
        time_bound: Some(ts(2017, 2, 1, 11, 0, 0)),
    });
    set_insert(
        &mut expected_1.schedule.open_device_entries,
        open_entry("TV1", "5678", Some(ts(2017, 2, 1, 11, 0, 0))),
    );
    set_insert(&mut expected_1.closed_devices, device("TV4", "abcd"));
    set_insert(&mut expected_1.closed_devices, device("TV2", "1234"));
    set_insert(&mut expected_1.closed_devices, device("TV3", "bbbb"));
    assert_eq!(expected_1, world);

    world.expire_bounded(ts(2017, 2, 1, 11, 30, 0));

    let mut expected_2 = World::default();
    set_insert(&mut expected_2.closed_devices, device("TV4", "abcd"));
    set_insert(&mut expected_2.closed_devices, device("TV2", "1234"));
    set_insert(&mut expected_2.closed_devices, device("TV3", "bbbb"));
    set_insert(&mut expected_2.closed_devices, device("TV1", "5678"));
    assert_eq!(expected_2, world);
}

#[test]
fn test_get_soonest_event_time() {
    let mut world = world_fixture();
    assert_eq!(None, world.get_soonest_event_time());
    let date_3 = ts(2017, 2, 3, 0, 0, 0);
    world.schedule.guest_entry.time_bound = Some(date_3);
    assert_eq!(Some(date_3), world.get_soonest_event_time());
    let date_2 = ts(2017, 2, 2, 0, 0, 0);
    world.schedule.override_entry.as_mut().unwrap().time_bound = Some(date_2);
    assert_eq!(Some(date_2), world.get_soonest_event_time());
    let date_1 = ts(2017, 2, 1, 0, 0, 0);
    set_insert(
        &mut world.schedule.open_device_entries,
        open_entry("", "", Some(date_1)),
    );
    assert_eq!(Some(date_1), world.get_soonest_event_time());
}

#[test]
fn open_device_not_found_leaves_world_unchanged() {
    let mut world = world_fixture();
    let expected = world_fixture();
    let result = world.open_device("zzzz", None);
    assert_eq!(
        Err(ErrorKind::RequestError("mac not found".to_owned())),
        result
    );
    assert_eq!(expected, world);
}

#[test]
fn close_device_not_found_leaves_world_unchanged() {
    let mut world = world_fixture();
    let expected = world_fixture();
    let result = world.close_device("abcd");
    assert_eq!(
        Err(ErrorKind::RequestError("mac not found".to_owned())),
        result
    );
    assert_eq!(expected, world);
}

#[test]
fn open_then_close_restores_membership() {
    let mut world = world_fixture();
    world.open_device("bbbb", Some(ts(2017, 3, 1, 0, 0, 0))).unwrap();
    assert!(world.closed_devices.iter().all(|d| d.mac != "bbbb"));
    world.close_device("bbbb").unwrap();
    // The expiry is discarded on close: the device is back among the
    // closed ones as it started.
    assert_eq!(world_fixture(), world);
}

#[test]
fn expire_bounded_is_idempotent() {
    let now = ts(2017, 2, 1, 10, 30, 0);
    let mut once = world_fixture();
    set_insert(
        &mut once.schedule.open_device_entries,
        open_entry("TV9", "9999", Some(ts(2017, 2, 1, 10, 0, 0))),
    );
    let mut twice = world_fixture();
    set_insert(
        &mut twice.schedule.open_device_entries,
        open_entry("TV9", "9999", Some(ts(2017, 2, 1, 10, 0, 0))),
    );
    once.expire_bounded(now);
    twice.expire_bounded(now);
    twice.expire_bounded(now);
    assert_eq!(once, twice);
}

#[test]
fn expire_bounded_keeps_unexpired_permanent_entries() {
    let mut world = world_fixture();
    let before = world_fixture();
    // Every entry of the fixture is permanent: nothing may change.
    world.expire_bounded(ts(2030, 1, 1, 0, 0, 0));
    assert_eq!(before, world);
}

#[test]
fn open_device_twice_fails_the_second_time() {
    let mut world = world_fixture();
    world.open_device("bbbb", None).unwrap();
    // The device is no longer among the closed ones, so a second open
    // fails and changes nothing further.
    let result = world.open_device("bbbb", None);
    assert_eq!(
        Err(ErrorKind::RequestError("mac not found".to_owned())),
        result
    );
}
