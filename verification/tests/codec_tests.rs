use gatekeeper::codec::{decode_world, encode_world};
use gatekeeper::order::set_insert;
use gatekeeper::types::{Device, DeviceOverride, GuestPath, ScheduleEntry, World};

fn device(name: &str, mac: &str) -> Device {
    Device {
        name: name.to_owned(),
        mac: mac.to_owned(),
    }
}

fn full_world() -> World {
    let mut world = World::default();
    world.schedule.guest_entry = ScheduleEntry {
        item: GuestPath::Open,
        time_bound: Some(1486033200),
    };
    world.schedule.override_entry = Some(ScheduleEntry {
        item: DeviceOverride::Closed,
        time_bound: Some(-42),
    });
    set_insert(
        &mut world.schedule.open_device_entries,
        ScheduleEntry {
            item: device("TV1", "5678"),
            time_bound: None,
        },
    );
    set_insert(
        &mut world.schedule.open_device_entries,
        ScheduleEntry {
            item: device("TV2", "1234"),
            time_bound: Some(0),
        },
    );
    set_insert(&mut world.closed_devices, device("TV4", "abcd"));
    set_insert(&mut world.closed_devices, device("TV3", "bbbb"));
    set_insert(&mut world.unknown_devices, device("guest phone", "aa:bb"));
    world
}

#[test]
fn world_round_trip() {
    let world = full_world();
    let text = encode_world(&world);
    let reloaded = decode_world(&text).unwrap();
    assert_eq!(world, reloaded);
}

#[test]
fn default_world_round_trip() {
    let world = World::default();
    let text = encode_world(&world);
    assert_eq!("CP\nN\n0\n0\n0\n", text);
    let reloaded = decode_world(&text).unwrap();
    assert_eq!(world, reloaded);
}

#[test]
fn world_with_strange_strings_round_trips() {
    let mut world = World::default();
    set_insert(&mut world.closed_devices, device("", ""));
    set_insert(
        &mut world.closed_devices,
        device("name with\nnewline and 7:digits", "aa-bb"),
    );
    let text = encode_world(&world);
    let reloaded = decode_world(&text).unwrap();
    assert_eq!(world, reloaded);
}

#[test]
fn encoding_is_exact() {
    let mut world = World::default();
    world.schedule.guest_entry = ScheduleEntry {
        item: GuestPath::Open,
        time_bound: Some(-5),
    };
    set_insert(&mut world.closed_devices, device("TV", "ab"));
    let text = encode_world(&world);
    assert_eq!("OT-5\nN\n0\n1\n2:TV2:ab0\n", text);
}

#[test]
fn garbage_is_refused() {
    assert_eq!(None, decode_world(""));
    assert_eq!(None, decode_world("CP\nN\n0\n0\n0\ntrailing"));
    assert_eq!(None, decode_world("XP\nN\n0\n0\n0\n"));
    assert_eq!(None, decode_world("CP\nN\n2\n0\n0\n"));
}
