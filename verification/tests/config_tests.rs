use gatekeeper::config::{reconcile_config, ReconcileResult};
use gatekeeper::order::set_insert;
use gatekeeper::types::{Config, Device, DeviceOverride, ErrorKind, ScheduleEntry, World};

fn device(name: &str, mac: &str) -> Device {
    Device {
        name: name.to_owned(),
        mac: mac.to_owned(),
    }
}

fn open_entry(name: &str, mac: &str, time_bound: Option<i64>) -> ScheduleEntry<Device> {
    ScheduleEntry {
        item: device(name, mac),
        time_bound,
    }
}

fn world_fixture() -> World {
    let mut world = World::default();
    world.schedule.override_entry = Some(ScheduleEntry {
        item: DeviceOverride::Closed,
        time_bound: None,
    });
    set_insert(
        &mut world.schedule.open_device_entries,
        open_entry("TV2", "1234", None),
    );
    set_insert(
        &mut world.schedule.open_device_entries,
        open_entry("TV1", "5678", None),
    );
    set_insert(&mut world.closed_devices, device("TV4", "abcd"));
    set_insert(&mut world.closed_devices, device("TV3", "bbbb"));
    world
}

fn unknown_devs_fixture() -> Vec<Device> {
    let mut devs = Vec::new();
    set_insert(&mut devs, device("TV2", "1234"));
    // Has different case than in world.
    set_insert(&mut devs, device("TV3", "bBbB"));
    set_insert(&mut devs, device("TV20", "2020"));
    set_insert(&mut devs, device("TV21", "2121"));
    devs
}

fn config_fixture() -> Config {
    let mut known = Vec::new();
    set_insert(&mut known, device("TV1", "5678"));
    set_insert(&mut known, device("TV2", "1234"));
    set_insert(&mut known, device("TV3", "bbbb"));
    set_insert(&mut known, device("TV4", "abcd"));
    Config {
        exit_interfaces: Vec::new(),
        dhcp_lease_file: "".to_owned(),
        state_file: "".to_owned(),
        known_devices: known,
    }
}

#[test]
fn no_changes() {
    let config = config_fixture();
    let mut world = world_fixture();
    let unknown_devs = Vec::new();

    let expected_world = world_fixture();

    let result = reconcile_config(&config, &unknown_devs, &mut world);
    assert_eq!(ReconcileResult { updated_world: false }, result);
    assert_eq!(expected_world, world);
}

#[test]
fn some_changes() {
    let mut config = config_fixture();
    set_insert(&mut config.known_devices, device("TV5", "xyz"));

    let mut world = world_fixture();
    set_insert(
        &mut world.schedule.open_device_entries,
        open_entry("TV6", "qrs", None),
    );
    let tv2_pos = world
        .schedule
        .open_device_entries
        .iter()
        .position(|e| e.item.name == "TV2")
        .unwrap();
    world.schedule.open_device_entries.remove(tv2_pos);
    set_insert(&mut world.closed_devices, device("TV7", "tuv"));

    let unknown_devs = unknown_devs_fixture();

    let mut expected_world = world_fixture();
    let tv2_pos = expected_world
        .schedule
        .open_device_entries
        .iter()
        .position(|e| e.item.name == "TV2")
        .unwrap();
    expected_world.schedule.open_device_entries.remove(tv2_pos);
    set_insert(&mut expected_world.closed_devices, device("TV5", "xyz"));
    set_insert(&mut expected_world.closed_devices, device("TV2", "1234"));
    set_insert(&mut expected_world.unknown_devices, device("TV20", "2020"));
    set_insert(&mut expected_world.unknown_devices, device("TV21", "2121"));

    let result = reconcile_config(&config, &unknown_devs, &mut world);
    assert_eq!(ReconcileResult { updated_world: true }, result);
    println!("{:#?}\n{:#?}", expected_world, world);
    assert_eq!(expected_world, world);
}

#[test]
fn reconcile_is_idempotent() {
    let mut config = config_fixture();
    set_insert(&mut config.known_devices, device("TV5", "xyz"));
    let unknown_devs = unknown_devs_fixture();

    let mut once = world_fixture();
    reconcile_config(&config, &unknown_devs, &mut once);

    let mut twice = world_fixture();
    reconcile_config(&config, &unknown_devs, &mut twice);
    let second = reconcile_config(&config, &unknown_devs, &mut twice);

    assert_eq!(ReconcileResult { updated_world: false }, second);
    assert_eq!(once, twice);
}

#[test]
fn add_known_device_inserts_and_validates() {
    let mut config = config_fixture();
    let err = config.add_known_device(None, Some("TV8"));
    assert_eq!(
        Err(ErrorKind::RequestError("Missing mac parameter".to_owned())),
        err
    );
    let err = config.add_known_device(Some("eeee"), None);
    assert_eq!(
        Err(ErrorKind::RequestError("Missing name parameter".to_owned())),
        err
    );
    assert_eq!(config_fixture(), config);

    config.add_known_device(Some("eeee"), Some("TV8")).unwrap();
    let mut expected = config_fixture();
    set_insert(&mut expected.known_devices, device("TV8", "eeee"));
    assert_eq!(expected, config);
}
