//! The access-state data model.
//!
//! A [`Device`] is identified by its link-layer address (`mac`); a
//! [`ScheduleEntry`] couples a value with an optional expiry timestamp
//! (seconds of the Unix epoch; `None` means the entry is permanent).  A
//! [`World`] holds the complete access state: the schedule of open
//! devices, the global guest and override entries, the closed devices and
//! the devices observed on the network but not known to the
//! configuration.
//!
//! The device collections are vectors kept strictly sorted by
//! `(name, mac)` (entries additionally by expiry) and free of duplicates,
//! so that a collection's value is determined by the set of its elements
//! and iteration order is deterministic.

use vstd::prelude::*;

use crate::order::{
    str_lt, lemma_str_trichotomy, lemma_str_transitive, str_compare, Cmp, OrderedItem, views_of,
    strictly_sorted,
};

verus! {

/// Errors reported by the operations of this crate: a problem with a
/// user-supplied request parameter.
#[derive(Debug, Clone, PartialEq, Eq)]
pub enum ErrorKind {
    RequestError(String),
}

/// A known device: a human-readable name and a link-layer address.
#[derive(Debug, PartialEq, Eq, Hash)]
pub struct Device {
    pub name: String,
    pub mac: String,
}

/// Spec-level value of a [`Device`].
pub struct DeviceView {
    pub name: Seq<char>,
    pub mac: Seq<char>,
}

impl View for Device {
    type V = DeviceView;

    open spec fn view(&self) -> DeviceView {
        DeviceView { name: self.name@, mac: self.mac@ }
    }
}

impl Clone for Device {
    /// Cloning a device yields an equal device.
    fn clone(&self) -> (r: Device)
        ensures
            r == *self,
    {
        Device { name: self.name.clone(), mac: self.mac.clone() }
    }
}

/// Whether unauthenticated/guest traffic is allowed.
#[derive(Debug, Clone, Copy, PartialEq, Eq, Structural)]
pub enum GuestPath {
    Open,
    Closed,
}

impl View for GuestPath {
    type V = GuestPath;

    open spec fn view(&self) -> GuestPath {
        *self
    }
}

/// A global overlay forcing every per-device decision to one verdict.
#[derive(Debug, Clone, Copy, PartialEq, Eq, Structural)]
pub enum DeviceOverride {
    Open,
    Closed,
}

impl View for DeviceOverride {
    type V = DeviceOverride;

    open spec fn view(&self) -> DeviceOverride {
        *self
    }
}

/// A value together with an optional expiry timestamp, in seconds of the
/// Unix epoch.  `None` means the entry is permanent; a timestamp means
/// the entry reverts automatically once it has passed.
#[derive(Debug, PartialEq, Eq, Hash)]
pub struct ScheduleEntry<T> {
    pub item: T,
    pub time_bound: Option<i64>,
}

/// Spec-level value of a [`ScheduleEntry`].
pub struct EntryView<V> {
    pub item: V,
    pub time_bound: Option<i64>,
}

impl<T: View> View for ScheduleEntry<T> {
    type V = EntryView<T::V>;

    open spec fn view(&self) -> EntryView<T::V> {
        EntryView { item: self.item@, time_bound: self.time_bound }
    }
}

/// The schedule: the guest entry, the optional override entry, and the
/// entries of the currently open devices (at most one per device).
#[derive(Debug, PartialEq, Eq)]
pub struct Schedule {
    pub guest_entry: ScheduleEntry<GuestPath>,
    pub override_entry: Option<ScheduleEntry<DeviceOverride>>,
    pub open_device_entries: Vec<ScheduleEntry<Device>>,
}

/// Spec-level value of a [`Schedule`].
pub struct ScheduleView {
    pub guest_entry: EntryView<GuestPath>,
    pub override_entry: Option<EntryView<DeviceOverride>>,
    pub open_device_entries: Seq<EntryView<DeviceView>>,
}

impl View for Schedule {
    type V = ScheduleView;

    open spec fn view(&self) -> ScheduleView {
        ScheduleView {
            guest_entry: self.guest_entry@,
            override_entry: match self.override_entry {
                Some(e) => Some(e@),
                None => None,
            },
            open_device_entries: views_of(self.open_device_entries@),
        }
    }
}

/// The complete access state.
#[derive(Debug, PartialEq, Eq)]
pub struct World {
    pub schedule: Schedule,
    pub closed_devices: Vec<Device>,
    pub unknown_devices: Vec<Device>,
}

/// Spec-level value of a [`World`].
pub struct WorldView {
    pub schedule: ScheduleView,
    pub closed_devices: Seq<DeviceView>,
    pub unknown_devices: Seq<DeviceView>,
}

impl View for World {
    type V = WorldView;

    open spec fn view(&self) -> WorldView {
        WorldView {
            schedule: self.schedule@,
            closed_devices: views_of(self.closed_devices@),
            unknown_devices: views_of(self.unknown_devices@),
        }
    }
}

/// The persisted configuration: the exit interfaces, the paths of the
/// state and lease files, and the set of known devices, which is the
/// source of truth for which addresses the system manages.
#[derive(Debug, PartialEq, Eq)]
pub struct Config {
    pub exit_interfaces: Vec<String>,
    pub state_file: String,
    pub dhcp_lease_file: String,
    pub known_devices: Vec<Device>,
}

/// A single firewall table entry, as listed over the administrative
/// interface.
#[derive(Debug, PartialEq, Eq)]
pub struct Entry {
    pub mac: String,
}

/// A firewall table, as listed over the administrative interface.
#[derive(Debug, PartialEq, Eq)]
pub struct Table {
    pub entries: Vec<Entry>,
}

/// Strict order on device views: by name, then by address.
pub open spec fn device_lt(a: DeviceView, b: DeviceView) -> bool {
    str_lt(a.name, b.name) || (a.name == b.name && str_lt(a.mac, b.mac))
}

impl OrderedItem for Device {
    open spec fn lt(a: DeviceView, b: DeviceView) -> bool {
        device_lt(a, b)
    }

    proof fn lt_trichotomy(a: DeviceView, b: DeviceView) {
        lemma_str_trichotomy(a.name, b.name);
        lemma_str_trichotomy(a.mac, b.mac);
        if a.name == b.name && a.mac == b.mac {
            assert(a == b);
        }
    }

    proof fn lt_transitive(a: DeviceView, b: DeviceView, c: DeviceView) {
        if str_lt(a.name, b.name) && str_lt(b.name, c.name) {
            lemma_str_transitive(a.name, b.name, c.name);
        }
        if a.name == b.name && a.mac == b.mac {
            lemma_str_trichotomy(a.name, b.name);
        }
        if b.name == c.name && b.mac == c.mac {
            lemma_str_trichotomy(b.name, c.name);
        }
        if a.name == b.name && str_lt(a.mac, b.mac) && b.name == c.name && str_lt(b.mac, c.mac) {
            lemma_str_transitive(a.mac, b.mac, c.mac);
        }
    }

    fn cmp_items(&self, other: &Self) -> (c: Cmp) {
        let by_name = str_compare(self.name.as_str(), other.name.as_str());
        match by_name {
            Cmp::Less => Cmp::Less,
            Cmp::Greater => Cmp::Greater,
            Cmp::Equal => {
                proof {
                    lemma_str_trichotomy(self.name@, other.name@);
                }
                str_compare(self.mac.as_str(), other.mac.as_str())
            },
        }
    }
}

/// Strict order on optional timestamps: `None` comes first.
pub open spec fn bound_lt(a: Option<i64>, b: Option<i64>) -> bool {
    match (a, b) {
        (Option::None, Option::Some(_)) => true,
        (Option::Some(x), Option::Some(y)) => x < y,
        _ => false,
    }
}

/// Strict order on open-device entries: by device, then by expiry.
pub open spec fn entry_lt(a: EntryView<DeviceView>, b: EntryView<DeviceView>) -> bool {
    device_lt(a.item, b.item) || (a.item == b.item && bound_lt(a.time_bound, b.time_bound))
}

impl OrderedItem for ScheduleEntry<Device> {
    open spec fn lt(a: EntryView<DeviceView>, b: EntryView<DeviceView>) -> bool {
        entry_lt(a, b)
    }

    proof fn lt_trichotomy(a: EntryView<DeviceView>, b: EntryView<DeviceView>) {
        Device::lt_trichotomy(a.item, b.item);
        if a.item == b.item && a.time_bound == b.time_bound {
            assert(a == b);
        }
    }

    proof fn lt_transitive(
        a: EntryView<DeviceView>,
        b: EntryView<DeviceView>,
        c: EntryView<DeviceView>,
    ) {
        if device_lt(a.item, b.item) && device_lt(b.item, c.item) {
            Device::lt_transitive(a.item, b.item, c.item);
        }
        if a.item == b.item {
            Device::lt_trichotomy(a.item, b.item);
        }
        if b.item == c.item {
            Device::lt_trichotomy(b.item, c.item);
        }
    }

    fn cmp_items(&self, other: &Self) -> (c: Cmp) {
        let by_item = self.item.cmp_items(&other.item);
        match by_item {
            Cmp::Less => Cmp::Less,
            Cmp::Greater => Cmp::Greater,
            Cmp::Equal => {
                proof {
                    Device::lt_trichotomy(self.item@, other.item@);
                }
                match (self.time_bound, other.time_bound) {
                    (Option::None, Option::None) => Cmp::Equal,
                    (Option::None, Option::Some(_)) => Cmp::Less,
                    (Option::Some(_), Option::None) => Cmp::Greater,
                    (Option::Some(x), Option::Some(y)) => {
                        if x < y {
                            Cmp::Less
                        } else if y < x {
                            Cmp::Greater
                        } else {
                            Cmp::Equal
                        }
                    },
                }
            },
        }
    }
}

impl OrderedItem for String {
    open spec fn lt(a: Seq<char>, b: Seq<char>) -> bool {
        str_lt(a, b)
    }

    proof fn lt_trichotomy(a: Seq<char>, b: Seq<char>) {
        lemma_str_trichotomy(a, b);
    }

    proof fn lt_transitive(a: Seq<char>, b: Seq<char>, c: Seq<char>) {
        lemma_str_transitive(a, b, c);
    }

    fn cmp_items(&self, other: &Self) -> (c: Cmp) {
        str_compare(self.as_str(), other.as_str())
    }
}

/// Well-formedness of a world view: every device collection is strictly
/// sorted and free of duplicates.
pub open spec fn world_wf(w: WorldView) -> bool {
    &&& strictly_sorted::<ScheduleEntry<Device>>(w.schedule.open_device_entries)
    &&& strictly_sorted::<Device>(w.closed_devices)
    &&& strictly_sorted::<Device>(w.unknown_devices)
}

/// Well-formedness of a configuration: the known devices and exit
/// interfaces are strictly sorted and free of duplicates.
pub open spec fn config_wf(c: Config) -> bool {
    &&& strictly_sorted::<Device>(views_of(c.known_devices@))
    &&& strictly_sorted::<String>(views_of(c.exit_interfaces@))
}

impl World {
    /// Well-formedness of the world's collections.
    pub open spec fn wf(self) -> bool {
        world_wf(self@)
    }
}

impl Default for World {
    /// The initial state: guest traffic closed with no expiry, no
    /// override, and no devices in any collection.
    fn default() -> (r: World)
        ensures
            r@.schedule.guest_entry == (EntryView { item: GuestPath::Closed, time_bound: None::<
                i64,
            > }),
            r@.schedule.override_entry is None,
            r@.schedule.open_device_entries == Seq::<EntryView<DeviceView>>::empty(),
            r@.closed_devices == Seq::<DeviceView>::empty(),
            r@.unknown_devices == Seq::<DeviceView>::empty(),
            r.wf(),
    {
        let r = World {
            schedule: Schedule {
                guest_entry: ScheduleEntry { item: GuestPath::Closed, time_bound: None },
                override_entry: None,
                open_device_entries: Vec::new(),
            },
            closed_devices: Vec::new(),
            unknown_devices: Vec::new(),
        };
        proof {
            assert(r@.schedule.open_device_entries =~= Seq::<EntryView<DeviceView>>::empty());
            assert(r@.closed_devices =~= Seq::<DeviceView>::empty());
            assert(r@.unknown_devices =~= Seq::<DeviceView>::empty());
        }
        r
    }
}

/// The elements of a set-like device vector, cloned into a fresh vector.
pub fn set_to_vec(input: &Vec<Device>) -> (r: Vec<Device>)
    ensures
        r@ == input@,
{
    let mut r: Vec<Device> = Vec::new();
    let mut i: usize = 0;
    while i < input.len()
        invariant
            i <= input.len(),
            r@ == input@.take(i as int),
        decreases input.len() - i,
    {
        r.push(input[i].clone());
        proof {
            assert(r@ =~= input@.take(i as int + 1));
        }
        i = i + 1;
    }
    proof {
        assert(input@.take(input@.len() as int) =~= input@);
    }
    r
}

} // verus!
