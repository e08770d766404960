use gatekeeper::order::set_insert;
use gatekeeper::script::{action_with_override, write_script, Action, ScriptHandler};
use gatekeeper::types::{Device, DeviceOverride, GuestPath, ScheduleEntry, World};

fn device(name: &str, mac: &str) -> Device {
    Device {
        name: name.to_owned(),
        mac: mac.to_owned(),
    }
}

#[test]
fn action_words() {
    assert_eq!("ACCEPT", Action::Accept.script());
    assert_eq!("DROP", Action::Drop.script());
}

#[test]
fn override_dominates_device_action() {
    let closed = Some(ScheduleEntry {
        item: DeviceOverride::Closed,
        time_bound: None,
    });
    let open = Some(ScheduleEntry {
        item: DeviceOverride::Open,
        time_bound: None,
    });
    assert_eq!(Action::Drop, action_with_override(&closed, Action::Accept));
    assert_eq!(Action::Drop, action_with_override(&closed, Action::Drop));
    assert_eq!(Action::Accept, action_with_override(&open, Action::Accept));
    assert_eq!(Action::Accept, action_with_override(&open, Action::Drop));
    assert_eq!(Action::Accept, action_with_override(&None, Action::Accept));
    assert_eq!(Action::Drop, action_with_override(&None, Action::Drop));
}

fn small_world() -> World {
    let mut world = World::default();
    set_insert(
        &mut world.schedule.open_device_entries,
        ScheduleEntry {
            item: device("TV1", "5678"),
            time_bound: None,
        },
    );
    set_insert(&mut world.closed_devices, device("TV4", "abcd"));
    world
}

#[test]
fn script_exact_text() {
    let world = small_world();
    let exit_interfaces = vec!["eth0".to_owned()];
    let mut script = String::new();
    write_script(&world, "old_chain", "new_chain", &exit_interfaces, &mut script);

    let expected = "
set -e
set -x
if iptables -L old_chain >/dev/null 2>&1; then
    iptables -D FORWARD -j old_chain || true
    iptables -F old_chain
    iptables -X old_chain
fi
if iptables -L new_chain >/dev/null 2>&1; then
    iptables -E new_chain old_chain
fi
iptables -N new_chain
iptables -A new_chain -i eth0 -j ACCEPT
iptables -A new_chain -m mac --mac-source 5678 -j ACCEPT
iptables -A new_chain -m mac --mac-source abcd -j DROP
iptables -A new_chain -j DROP

iptables -I FORWARD 1 -j new_chain
if iptables -L old_chain >/dev/null 2>&1; then
    iptables -D FORWARD -j old_chain
    iptables -F old_chain
    iptables -X old_chain
fi
";
    assert_eq!(expected, script);
}

#[test]
fn open_guest_emits_no_catch_all() {
    let mut world = small_world();
    world.schedule.guest_entry.item = GuestPath::Open;
    let exit_interfaces: Vec<String> = Vec::new();
    let mut script = String::new();
    write_script(&world, "old", "new", &exit_interfaces, &mut script);
    assert!(!script.contains("-A new -j DROP"));
}

#[test]
fn closed_guest_emits_trailing_catch_all() {
    let world = small_world();
    let exit_interfaces: Vec<String> = Vec::new();
    let mut script = String::new();
    write_script(&world, "old", "new", &exit_interfaces, &mut script);
    let catch_all = script.find("iptables -A new -j DROP\n").unwrap();
    let mac_rule = script.find("--mac-source").unwrap();
    assert!(mac_rule < catch_all);
}

#[test]
fn exit_rules_precede_mac_rules() {
    let world = small_world();
    let exit_interfaces = vec!["wan0".to_owned()];
    let mut script = String::new();
    write_script(&world, "old", "new", &exit_interfaces, &mut script);
    let exit_rule = script.find("-i wan0 -j ACCEPT").unwrap();
    let mac_rule = script.find("--mac-source").unwrap();
    assert!(exit_rule < mac_rule);
}

#[test]
fn closed_override_drops_open_devices() {
    let mut world = small_world();
    world.schedule.override_entry = Some(ScheduleEntry {
        item: DeviceOverride::Closed,
        time_bound: None,
    });
    let exit_interfaces: Vec<String> = Vec::new();
    let mut script = String::new();
    write_script(&world, "old", "new", &exit_interfaces, &mut script);
    assert!(script.contains("--mac-source 5678 -j DROP"));
    assert!(!script.contains("--mac-source 5678 -j ACCEPT"));
}

#[test]
fn open_override_accepts_closed_devices() {
    let mut world = small_world();
    world.schedule.override_entry = Some(ScheduleEntry {
        item: DeviceOverride::Open,
        time_bound: None,
    });
    let exit_interfaces: Vec<String> = Vec::new();
    let mut script = String::new();
    write_script(&world, "old", "new", &exit_interfaces, &mut script);
    assert!(script.contains("--mac-source abcd -j ACCEPT"));
    assert!(!script.contains("--mac-source abcd -j DROP"));
}

#[test]
fn script_handler_variants_differ() {
    assert_ne!(ScriptHandler::PrintScript, ScriptHandler::RunScript);
}
