//! Reconciliation of the access state with the configured device set
//! and the devices observed on the network.
//!
//! The configuration is authoritative for membership: devices no longer
//! configured leave both world collections, newly configured devices
//! default to closed, and the unknown collection is recomputed as the
//! observed devices whose address has no case-insensitive match among
//! the configured ones.

use vstd::prelude::*;

use crate::order::{
    set_contains, set_eq, set_insert, strictly_sorted, view_set, views_of, OrderedItem,
    lemma_sorted_remove,
};
use crate::text::{to_uppercase, upper_of};
use crate::types::{
    config_wf, Config, Device, DeviceView, EntryView, ScheduleEntry, World, WorldView,
};

verus! {

/// Whether reconciliation changed the known-device picture of the
/// world, telling the caller that persistence and re-application are
/// needed.
#[derive(Debug, Clone, PartialEq, Eq, Structural)]
pub struct ReconcileResult {
    pub updated_world: bool,
}

/// The devices of a sequence of schedule entries.
pub open spec fn entry_items(s: Seq<EntryView<DeviceView>>) -> Seq<DeviceView> {
    s.map_values(|e: EntryView<DeviceView>| e.item)
}

/// The devices the world itself records as known: the closed ones and
/// the devices of the open schedule entries.
pub open spec fn world_known(w: WorldView) -> Set<DeviceView> {
    w.closed_devices.to_set().union(entry_items(w.schedule.open_device_entries).to_set())
}

/// The predicate keeping the open entries whose device is configured.
pub open spec fn entry_known(cfg_set: Set<DeviceView>) -> spec_fn(EntryView<DeviceView>) -> bool {
    |e: EntryView<DeviceView>| cfg_set.contains(e.item)
}

/// The predicate keeping the devices that are configured.
pub open spec fn dev_known(cfg_set: Set<DeviceView>) -> spec_fn(DeviceView) -> bool {
    |d: DeviceView| cfg_set.contains(d)
}

/// The uppercase forms of the configured device addresses.
pub open spec fn known_uppers(cfg: Seq<DeviceView>) -> Set<Seq<char>> {
    cfg.map_values(|d: DeviceView| upper_of(d.mac)).to_set()
}

/// How a world after reconciliation relates to the configured devices
/// `cfg`, the observed devices `dhcp`, and the world before: open
/// entries of unconfigured devices are dropped, the closed collection
/// becomes the configured devices that were closed or not recorded at
/// all, the unknown collection becomes the observed devices without a
/// case-insensitive address match in the configuration, and the flag
/// says whether the configured set differed from what the world
/// recorded.
pub open spec fn reconcile_post(
    cfg: Seq<DeviceView>,
    dhcp: Seq<DeviceView>,
    pre: WorldView,
    post: WorldView,
    updated: bool,
) -> bool {
    let cfg_set = cfg.to_set();
    &&& updated == (cfg_set != world_known(pre))
    &&& post.schedule.open_device_entries == pre.schedule.open_device_entries.filter(
        entry_known(cfg_set),
    )
    &&& strictly_sorted::<ScheduleEntry<Device>>(post.schedule.open_device_entries)
    &&& strictly_sorted::<Device>(post.closed_devices)
    &&& forall|d: DeviceView| #![trigger post.closed_devices.to_set().contains(d)]
        post.closed_devices.to_set().contains(d) <==> (cfg_set.contains(d) && (
        pre.closed_devices.to_set().contains(d) || !world_known(pre).contains(d)))
    &&& strictly_sorted::<Device>(post.unknown_devices)
    &&& forall|d: DeviceView| #![trigger post.unknown_devices.to_set().contains(d)]
        post.unknown_devices.to_set().contains(d) <==> (dhcp.to_set().contains(d)
            && !known_uppers(cfg).contains(upper_of(d.mac)))
    &&& post.schedule.guest_entry == pre.schedule.guest_entry
    &&& post.schedule.override_entry == pre.schedule.override_entry
}

/// Merge the configured device set and the observed devices into the
/// world: drop world devices that are no longer configured, close newly
/// configured devices, and recompute the unknown devices.  The result
/// says whether the configured set differed from the world's known
/// devices, so that the caller knows whether to persist and re-apply.
pub fn reconcile_config(config: &Config, dhcp_devs: &Vec<Device>, world: &mut World) -> (r:
    ReconcileResult)
    requires
        old(world).wf(),
        config_wf(*config),
    ensures
        final(world).wf(),
        reconcile_post(
            views_of(config.known_devices@),
            views_of(dhcp_devs@),
            old(world)@,
            final(world)@,
            r.updated_world,
        ),
{
    let ghost cfg = views_of(config.known_devices@);
    let ghost cfg_set = cfg.to_set();
    let ghost pre = world@;

    // The devices the world records as known.
    let mut world_set: Vec<Device> = Vec::new();
    let mut i: usize = 0;
    while i < world.closed_devices.len()
        invariant
            *world == *old(world),
            pre == world@,
            i <= world.closed_devices.len(),
            strictly_sorted::<Device>(views_of(world_set@)),
            forall|d: DeviceView| #![trigger view_set(world_set@).contains(d)]
                view_set(world_set@).contains(d) <==> exists|q: int|
                    0 <= q < i && #[trigger] views_of(world.closed_devices@)[q] == d,
        decreases world.closed_devices.len() - i,
    {
        let ghost before = view_set(world_set@);
        set_insert(&mut world_set, world.closed_devices[i].clone());
        proof {
            let cv = views_of(world.closed_devices@);
            assert forall|d: DeviceView| #![trigger view_set(world_set@).contains(d)]
                view_set(world_set@).contains(d) <==> exists|q: int|
                    0 <= q < i + 1 && #[trigger] cv[q] == d by {
                if view_set(world_set@).contains(d) {
                    if d == cv[i as int] {
                        assert(cv[i as int] == d);
                    } else {
                        assert(before.contains(d));
                    }
                }
                if exists|q: int| 0 <= q < i + 1 && #[trigger] cv[q] == d {
                    let q = choose|q: int| 0 <= q < i + 1 && #[trigger] cv[q] == d;
                    if q < i {
                        assert(before.contains(d));
                    }
                }
            }
        }
        i = i + 1;
    }
    let mut j: usize = 0;
    while j < world.schedule.open_device_entries.len()
        invariant
            *world == *old(world),
            pre == world@,
            j <= world.schedule.open_device_entries.len(),
            strictly_sorted::<Device>(views_of(world_set@)),
            forall|d: DeviceView| #![trigger view_set(world_set@).contains(d)]
                view_set(world_set@).contains(d) <==> (pre.closed_devices.to_set().contains(d)
                    || exists|q: int|
                    0 <= q < j && #[trigger] pre.schedule.open_device_entries[q].item == d),
        decreases world.schedule.open_device_entries.len() - j,
    {
        let ghost before = view_set(world_set@);
        set_insert(&mut world_set, world.schedule.open_device_entries[j].item.clone());
        proof {
            assert forall|d: DeviceView| #![trigger view_set(world_set@).contains(d)]
                view_set(world_set@).contains(d) <==> (pre.closed_devices.to_set().contains(d)
                    || exists|q: int|
                    0 <= q < j + 1 && #[trigger] pre.schedule.open_device_entries[q].item
                        == d) by {
                if view_set(world_set@).contains(d) {
                    if d != pre.schedule.open_device_entries[j as int].item {
                        assert(before.contains(d));
                    }
                }
                if pre.closed_devices.to_set().contains(d) {
                    assert(before.contains(d));
                }
                if exists|q: int|
                    0 <= q < j + 1 && #[trigger] pre.schedule.open_device_entries[q].item == d {
                    let q = choose|q: int|
                        0 <= q < j + 1 && #[trigger] pre.schedule.open_device_entries[q].item
                            == d;
                    if q < j {
                        assert(before.contains(d));
                    }
                }
            }
        }
        j = j + 1;
    }
    proof {
        assert forall|d: DeviceView| #![trigger view_set(world_set@).contains(d)]
            view_set(world_set@).contains(d) <==> world_known(pre).contains(d) by {
            let items = entry_items(pre.schedule.open_device_entries);
            if view_set(world_set@).contains(d) {
                if !pre.closed_devices.to_set().contains(d) {
                    let q = choose|q: int|
                        0 <= q < pre.schedule.open_device_entries.len()
                            && #[trigger] pre.schedule.open_device_entries[q].item == d;
                    assert(items[q] == d);
                    assert(items.contains(d));
                }
            }
            if world_known(pre).contains(d) {
                if !pre.closed_devices.to_set().contains(d) {
                    assert(items.contains(d));
                    let q = choose|q: int| 0 <= q < items.len() && items[q] == d;
                    assert(pre.schedule.open_device_entries[q].item == d);
                }
            }
        }
        assert(view_set(world_set@) =~= world_known(pre));
    }

    let same = set_eq(&config.known_devices, &world_set);

    // Drop closed devices that are no longer configured.
    let ghost c0 = pre.closed_devices;
    let mut i2: usize = 0;
    let ghost mut k: int = 0;
    proof {
        assert(c0.take(0).filter(dev_known(cfg_set)) =~= Seq::<DeviceView>::empty());
        assert(views_of(world.closed_devices@) =~= c0.take(0).filter(dev_known(cfg_set)) + c0.skip(
            0,
        ));
    }
    while i2 < world.closed_devices.len()
        invariant
            0 <= k <= c0.len(),
            i2 as int == c0.take(k).filter(dev_known(cfg_set)).len(),
            i2 <= world.closed_devices.len(),
            views_of(world.closed_devices@) == c0.take(k).filter(dev_known(cfg_set)) + c0.skip(k),
            strictly_sorted::<Device>(views_of(world.closed_devices@)),
            cfg_set == views_of(config.known_devices@).to_set(),
            world.schedule == old(world).schedule,
            world.unknown_devices == old(world).unknown_devices,
        decreases c0.len() - k,
    {
        proof {
            assert(c0.skip(k).len() > 0);
            assert(views_of(world.closed_devices@)[i2 as int] == c0.skip(k)[0]);
            assert(c0.skip(k)[0] == c0[k]);
            crate::schedule::lemma_filter_take_succ(c0, dev_known(cfg_set), k);
        }
        let member = set_contains(&config.known_devices, &world.closed_devices[i2]);
        if !member {
            let ghost before = views_of(world.closed_devices@);
            let _ = world.closed_devices.remove(i2);
            proof {
                assert(views_of(world.closed_devices@) =~= before.remove(i2 as int));
                lemma_sorted_remove::<Device>(before, i2 as int);
                assert(before.remove(i2 as int) =~= c0.take(k + 1).filter(dev_known(cfg_set))
                    + c0.skip(k + 1));
                k = k + 1;
            }
        } else {
            proof {
                assert(c0.take(k + 1).filter(dev_known(cfg_set)) =~= c0.take(k).filter(
                    dev_known(cfg_set),
                ).push(c0[k]));
                assert(views_of(world.closed_devices@) =~= c0.take(k + 1).filter(
                    dev_known(cfg_set),
                ) + c0.skip(k + 1));
                k = k + 1;
            }
            i2 = i2 + 1;
        }
    }
    proof {
        assert(k == c0.len());
        assert(c0.take(k) =~= c0);
        assert(c0.skip(k) =~= Seq::<DeviceView>::empty());
        assert(views_of(world.closed_devices@) =~= c0.filter(dev_known(cfg_set)));
    }

    // Drop open entries whose device is no longer configured.
    let ghost e0 = pre.schedule.open_device_entries;
    let mut i3: usize = 0;
    let ghost mut k2: int = 0;
    proof {
        assert(e0.take(0).filter(entry_known(cfg_set)) =~= Seq::<EntryView<DeviceView>>::empty());
        assert(views_of(world.schedule.open_device_entries@) =~= e0.take(0).filter(
            entry_known(cfg_set),
        ) + e0.skip(0));
    }
    while i3 < world.schedule.open_device_entries.len()
        invariant
            0 <= k2 <= e0.len(),
            i3 as int == e0.take(k2).filter(entry_known(cfg_set)).len(),
            i3 <= world.schedule.open_device_entries.len(),
            views_of(world.schedule.open_device_entries@) == e0.take(k2).filter(
                entry_known(cfg_set),
            ) + e0.skip(k2),
            strictly_sorted::<ScheduleEntry<Device>>(views_of(world.schedule.open_device_entries@)),
            views_of(world.closed_devices@) == c0.filter(dev_known(cfg_set)),
            strictly_sorted::<Device>(views_of(world.closed_devices@)),
            cfg_set == views_of(config.known_devices@).to_set(),
            world.schedule.guest_entry == old(world).schedule.guest_entry,
            world.schedule.override_entry == old(world).schedule.override_entry,
            world.unknown_devices == old(world).unknown_devices,
        decreases e0.len() - k2,
    {
        proof {
            assert(e0.skip(k2).len() > 0);
            assert(views_of(world.schedule.open_device_entries@)[i3 as int] == e0.skip(k2)[0]);
            assert(e0.skip(k2)[0] == e0[k2]);
            crate::schedule::lemma_filter_take_succ(e0, entry_known(cfg_set), k2);
        }
        let member = set_contains(
            &config.known_devices,
            &world.schedule.open_device_entries[i3].item,
        );
        if !member {
            let ghost before = views_of(world.schedule.open_device_entries@);
            let _ = world.schedule.open_device_entries.remove(i3);
            proof {
                assert(views_of(world.schedule.open_device_entries@) =~= before.remove(i3 as int));
                lemma_sorted_remove::<ScheduleEntry<Device>>(before, i3 as int);
                assert(before.remove(i3 as int) =~= e0.take(k2 + 1).filter(entry_known(cfg_set))
                    + e0.skip(k2 + 1));
                k2 = k2 + 1;
            }
        } else {
            proof {
                assert(e0.take(k2 + 1).filter(entry_known(cfg_set)) =~= e0.take(k2).filter(
                    entry_known(cfg_set),
                ).push(e0[k2]));
                assert(views_of(world.schedule.open_device_entries@) =~= e0.take(k2 + 1).filter(
                    entry_known(cfg_set),
                ) + e0.skip(k2 + 1));
                k2 = k2 + 1;
            }
            i3 = i3 + 1;
        }
    }
    proof {
        assert(k2 == e0.len());
        assert(e0.take(k2) =~= e0);
        assert(e0.skip(k2) =~= Seq::<EntryView<DeviceView>>::empty());
        assert(views_of(world.schedule.open_device_entries@) =~= e0.filter(entry_known(cfg_set)));
    }

    // Close every configured device the world did not record.
    let ghost base = views_of(world.closed_devices@);
    let mut t: usize = 0;
    while t < config.known_devices.len()
        invariant
            t <= config.known_devices.len(),
            strictly_sorted::<Device>(views_of(world.closed_devices@)),
            view_set(world_set@) == world_known(pre),
            strictly_sorted::<Device>(views_of(world_set@)),
            forall|d: DeviceView| #![trigger view_set(world.closed_devices@).contains(d)]
                view_set(world.closed_devices@).contains(d) <==> (base.to_set().contains(d)
                    || exists|q: int|
                    0 <= q < t && #[trigger] views_of(config.known_devices@)[q] == d
                        && !world_known(pre).contains(d)),
            views_of(world.schedule.open_device_entries@) == e0.filter(entry_known(cfg_set)),
            world.schedule.guest_entry == old(world).schedule.guest_entry,
            world.schedule.override_entry == old(world).schedule.override_entry,
            world.unknown_devices == old(world).unknown_devices,
        decreases config.known_devices.len() - t,
    {
        let known_already = set_contains(&world_set, &config.known_devices[t]);
        let ghost before = view_set(world.closed_devices@);
        if !known_already {
            set_insert(&mut world.closed_devices, config.known_devices[t].clone());
        }
        proof {
            let kv = views_of(config.known_devices@);
            assert forall|d: DeviceView| #![trigger view_set(world.closed_devices@).contains(d)]
                view_set(world.closed_devices@).contains(d) <==> (base.to_set().contains(d)
                    || exists|q: int|
                    0 <= q < t + 1 && #[trigger] kv[q] == d && !world_known(pre).contains(d)) by {
                if view_set(world.closed_devices@).contains(d) {
                    if !before.contains(d) {
                        assert(d == kv[t as int]);
                        assert(!world_known(pre).contains(d));
                    }
                }
                if exists|q: int|
                    0 <= q < t + 1 && #[trigger] kv[q] == d && !world_known(pre).contains(d) {
                    let q = choose|q: int|
                        0 <= q < t + 1 && #[trigger] kv[q] == d && !world_known(pre).contains(d);
                    if q < t {
                        assert(before.contains(d));
                    } else {
                        assert(d == kv[t as int]);
                        assert(!known_already ==> view_set(world.closed_devices@).contains(d));
                        assert(known_already ==> world_known(pre).contains(d));
                    }
                }
            }
        }
        t = t + 1;
    }

    // Recompute the unknown devices from the observed ones.
    let mut ups: Vec<String> = Vec::new();
    let mut u: usize = 0;
    while u < config.known_devices.len()
        invariant
            u <= config.known_devices.len(),
            views_of(ups@).len() == u as int,
            forall|q: int|
                0 <= q < u ==> #[trigger] views_of(ups@)[q] == upper_of(
                    views_of(config.known_devices@)[q].mac,
                ),
        decreases config.known_devices.len() - u,
    {
        let up = to_uppercase(config.known_devices[u].mac.as_str());
        let ghost upv = up@;
        let ghost before_ups = ups@;
        ups.push(up);
        proof {
            let kv = views_of(config.known_devices@);
            assert(ups@ =~= before_ups.push(up));
            assert forall|q: int| 0 <= q < u + 1 implies #[trigger] views_of(ups@)[q] == upper_of(
                kv[q].mac,
            ) by {
                if q < u as int {
                    assert(views_of(ups@)[q] == views_of(before_ups)[q]);
                } else {
                    assert(views_of(ups@)[q] == upv);
                }
            }
        }
        u = u + 1;
    }
    proof {
        let kv = views_of(config.known_devices@);
        assert forall|x: Seq<char>| #![trigger view_set(ups@).contains(x)]
            view_set(ups@).contains(x) <==> known_uppers(cfg).contains(x) by {
            let um = cfg.map_values(|d: DeviceView| upper_of(d.mac));
            if view_set(ups@).contains(x) {
                let q = choose|q: int| 0 <= q < views_of(ups@).len() && views_of(ups@)[q] == x;
                assert(um[q] == x);
                assert(um.contains(x));
            }
            if known_uppers(cfg).contains(x) {
                let q = choose|q: int| 0 <= q < um.len() && um[q] == x;
                assert(views_of(ups@)[q] == x);
                assert(views_of(ups@).contains(x));
            }
        }
    }
    let mut unk: Vec<Device> = Vec::new();
    let mut v: usize = 0;
    while v < dhcp_devs.len()
        invariant
            v <= dhcp_devs.len(),
            strictly_sorted::<Device>(views_of(unk@)),
            forall|x: Seq<char>| #![trigger view_set(ups@).contains(x)]
                view_set(ups@).contains(x) <==> known_uppers(cfg).contains(x),
            forall|d: DeviceView| #![trigger view_set(unk@).contains(d)]
                view_set(unk@).contains(d) <==> exists|q: int|
                    0 <= q < v && #[trigger] views_of(dhcp_devs@)[q] == d && !known_uppers(
                        cfg,
                    ).contains(upper_of(d.mac)),
        decreases dhcp_devs.len() - v,
    {
        let um = to_uppercase(dhcp_devs[v].mac.as_str());
        let found = set_contains(&ups, &um);
        let ghost before = view_set(unk@);
        if !found {
            set_insert(&mut unk, dhcp_devs[v].clone());
        }
        proof {
            let dv = views_of(dhcp_devs@);
            assert(um@ == upper_of(dv[v as int].mac));
            assert forall|d: DeviceView| #![trigger view_set(unk@).contains(d)]
                view_set(unk@).contains(d) <==> exists|q: int|
                    0 <= q < v + 1 && #[trigger] dv[q] == d && !known_uppers(cfg).contains(
                        upper_of(d.mac),
                    ) by {
                if view_set(unk@).contains(d) {
                    if !before.contains(d) {
                        assert(d == dv[v as int]);
                        assert(!known_uppers(cfg).contains(upper_of(d.mac)));
                    }
                }
                if exists|q: int|
                    0 <= q < v + 1 && #[trigger] dv[q] == d && !known_uppers(cfg).contains(
                        upper_of(d.mac),
                    ) {
                    let q = choose|q: int|
                        0 <= q < v + 1 && #[trigger] dv[q] == d && !known_uppers(cfg).contains(
                            upper_of(d.mac),
                        );
                    if q < v {
                        assert(before.contains(d));
                    } else {
                        assert(d == dv[v as int]);
                        assert(!found);
                        assert(view_set(unk@).contains(d));
                    }
                }
            }
        }
        v = v + 1;
    }
    world.unknown_devices = unk;

    // Final shape of the postcondition.
    proof {
        let post = world@;
        let kv = views_of(config.known_devices@);
        assert(post.schedule.open_device_entries == e0.filter(entry_known(cfg_set)));
        assert forall|d: DeviceView| #![trigger post.closed_devices.to_set().contains(d)]
            post.closed_devices.to_set().contains(d) <==> (cfg_set.contains(d) && (
            pre.closed_devices.to_set().contains(d) || !world_known(pre).contains(d))) by {
            assert(post.closed_devices.to_set() =~= view_set(world.closed_devices@));
            if view_set(world.closed_devices@).contains(d) {
                if base.to_set().contains(d) {
                    assert(base.contains(d));
                    let q = choose|q: int| 0 <= q < base.len() && base[q] == d;
                    c0.lemma_filter_pred(dev_known(cfg_set), q);
                    c0.lemma_filter_contains_rev(dev_known(cfg_set), d);
                } else {
                    let q2 = choose|q: int|
                        0 <= q < config.known_devices@.len() && #[trigger] kv[q] == d
                            && !world_known(pre).contains(d);
                    assert(cfg[q2] == d);
                    assert(cfg.contains(d));
                }
            }
            if cfg_set.contains(d) && (pre.closed_devices.to_set().contains(d) || !world_known(
                pre,
            ).contains(d)) {
                if pre.closed_devices.to_set().contains(d) {
                    let q = choose|q: int| 0 <= q < c0.len() && c0[q] == d;
                    c0.lemma_filter_contains(dev_known(cfg_set), q);
                    assert(c0.filter(dev_known(cfg_set)).contains(c0[q]));
                    assert(base.to_set().contains(d));
                    assert(view_set(world.closed_devices@).contains(d));
                } else {
                    let q = choose|q: int| 0 <= q < kv.len() && kv[q] == d;
                    assert(kv[q] == d && !world_known(pre).contains(d));
                    assert(view_set(world.closed_devices@).contains(d));
                }
            }
        }
        assert forall|d: DeviceView| #![trigger post.unknown_devices.to_set().contains(d)]
            post.unknown_devices.to_set().contains(d) <==> (views_of(dhcp_devs@).to_set().contains(
                d,
            ) && !known_uppers(cfg).contains(upper_of(d.mac))) by {
            let dv = views_of(dhcp_devs@);
            assert(post.unknown_devices.to_set() =~= view_set(unk@));
            if view_set(unk@).contains(d) {
                let q = choose|q: int|
                    0 <= q < dv.len() && #[trigger] dv[q] == d && !known_uppers(cfg).contains(
                        upper_of(d.mac),
                    );
                assert(dv.contains(d));
            }
            if dv.to_set().contains(d) && !known_uppers(cfg).contains(upper_of(d.mac)) {
                let q = choose|q: int| 0 <= q < dv.len() && dv[q] == d;
                assert(view_set(unk@).contains(d));
            }
        }
    }
    ReconcileResult { updated_world: !same }
}

/// Reconciliation is idempotent: a second run with the same configured
/// and observed devices changes nothing and reports no update.
pub proof fn lemma_reconcile_idempotent(
    cfg: Seq<DeviceView>,
    dhcp: Seq<DeviceView>,
    w0: WorldView,
    w1: WorldView,
    w2: WorldView,
    r1: bool,
    r2: bool,
)
    requires
        reconcile_post(cfg, dhcp, w0, w1, r1),
        reconcile_post(cfg, dhcp, w1, w2, r2),
    ensures
        r2 == false,
        w2 == w1,
{
    let cfg_set = cfg.to_set();
    let open0 = w0.schedule.open_device_entries;
    let open1 = w1.schedule.open_device_entries;
    let items0 = entry_items(open0);
    let items1 = entry_items(open1);
    assert forall|d: DeviceView| #![trigger world_known(w1).contains(d)]
        world_known(w1).contains(d) implies cfg_set.contains(d) by {
        if w1.closed_devices.to_set().contains(d) {
        } else {
            assert(items1.to_set().contains(d));
            let q = choose|q: int| 0 <= q < items1.len() && items1[q] == d;
            assert(open1[q].item == d);
            open0.lemma_filter_pred(entry_known(cfg_set), q);
        }
    }
    assert forall|d: DeviceView| #![trigger cfg_set.contains(d)]
        cfg_set.contains(d) implies world_known(w1).contains(d) by {
        if w0.closed_devices.to_set().contains(d) || !world_known(w0).contains(d) {
            assert(w1.closed_devices.to_set().contains(d));
        } else {
            assert(world_known(w0).contains(d));
            assert(items0.to_set().contains(d));
            let q = choose|q: int| 0 <= q < items0.len() && items0[q] == d;
            assert(open0[q].item == d);
            open0.lemma_filter_contains(entry_known(cfg_set), q);
            assert(open1.contains(open0[q]));
            let p = choose|p: int| 0 <= p < open1.len() && open1[p] == open0[q];
            assert(items1[p] == d);
            assert(items1.contains(d));
            assert(items1.to_set().contains(d));
        }
    }
    assert(world_known(w1) =~= cfg_set);
    assert(r2 == false);
    assert forall|i: int| 0 <= i < open1.len() implies entry_known(cfg_set)(
        #[trigger] open1[i],
    ) by {
        open0.lemma_filter_pred(entry_known(cfg_set), i);
    }
    crate::schedule::lemma_filter_all(open1, entry_known(cfg_set));
    assert(w2.schedule.open_device_entries == open1);
    assert forall|d: DeviceView| #![trigger w2.closed_devices.to_set().contains(d)]
        w2.closed_devices.to_set().contains(d) <==> w1.closed_devices.to_set().contains(d) by {
        if w1.closed_devices.to_set().contains(d) {
            assert(world_known(w1).contains(d));
            assert(cfg_set.contains(d));
        }
    }
    assert(w2.closed_devices.to_set() =~= w1.closed_devices.to_set());
    crate::order::lemma_sorted_canonical::<Device>(w2.closed_devices, w1.closed_devices);
    assert forall|d: DeviceView| #![trigger w2.unknown_devices.to_set().contains(d)]
        w2.unknown_devices.to_set().contains(d) <==> w1.unknown_devices.to_set().contains(d) by {}
    assert(w2.unknown_devices.to_set() =~= w1.unknown_devices.to_set());
    crate::order::lemma_sorted_canonical::<Device>(w2.unknown_devices, w1.unknown_devices);
    assert(w2.schedule == w1.schedule);
    assert(w2 == w1);
}

} // verus!
