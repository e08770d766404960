//! Mutation operations on the access state.
//!
//! Opening a device moves it from the closed collection into the open
//! schedule entries; closing it moves it back.  Expiration migrates every
//! entry whose expiry has passed, and the soonest-event computation
//! yields the wake-up time of the expiration scheduler.

use vstd::prelude::*;

use crate::order::{
    set_insert, strictly_sorted, view_set, views_of, Cmp, OrderedItem, lemma_sorted_remove,
    lemma_sorted_canonical, str_compare,
};
use crate::types::{
    Device, DeviceOverride, DeviceView, EntryView, ErrorKind, GuestPath, ScheduleEntry, WorldView,
    World, world_wf,
};

verus! {

/// The result is the NotFound error of a device lookup.
pub open spec fn is_not_found(r: Result<(), ErrorKind>) -> bool {
    match r {
        Err(ErrorKind::RequestError(m)) => m@ == "mac not found"@,
        _ => false,
    }
}

/// Some device of `s` has the address `mac`.
pub open spec fn has_mac(s: Seq<DeviceView>, mac: Seq<char>) -> bool {
    exists|i: int| 0 <= i < s.len() && s[i].mac == mac
}

/// `i` is the first position of `s` holding a device with address `mac`.
pub open spec fn first_mac_match(s: Seq<DeviceView>, mac: Seq<char>, i: int) -> bool {
    &&& 0 <= i < s.len()
    &&& s[i].mac == mac
    &&& forall|j: int| 0 <= j < i ==> s[j].mac != mac
}

/// Some entry of `s` holds a device with the address `mac`.
pub open spec fn has_entry_mac(s: Seq<EntryView<DeviceView>>, mac: Seq<char>) -> bool {
    exists|i: int| 0 <= i < s.len() && s[i].item.mac == mac
}

/// `i` is the first position of `s` holding an entry whose device has
/// the address `mac`.
pub open spec fn first_entry_mac_match(
    s: Seq<EntryView<DeviceView>>,
    mac: Seq<char>,
    i: int,
) -> bool {
    &&& 0 <= i < s.len()
    &&& s[i].item.mac == mac
    &&& forall|j: int| 0 <= j < i ==> s[j].item.mac != mac
}

/// The entry's expiry is set and has passed at time `now`.
pub open spec fn entry_expired<V>(e: EntryView<V>, now: i64) -> bool {
    match e.time_bound {
        Some(t) => t <= now,
        None => false,
    }
}

/// The predicate keeping the entries that are not yet expired at `now`.
pub open spec fn entry_keep(now: i64) -> spec_fn(EntryView<DeviceView>) -> bool {
    |e: EntryView<DeviceView>| !entry_expired(e, now)
}

/// How a world after `expire_bounded(now)` relates to the world before:
/// every open-device entry whose expiry has passed is removed and its
/// device joins the closed collection; an expired guest entry resets to
/// closed and permanent; an expired override entry is cleared; nothing
/// else changes.
pub open spec fn expire_post(pre: WorldView, post: WorldView, now: i64) -> bool {
    &&& post.schedule.open_device_entries == pre.schedule.open_device_entries.filter(
        entry_keep(now),
    )
    &&& strictly_sorted::<ScheduleEntry<Device>>(post.schedule.open_device_entries)
    &&& strictly_sorted::<Device>(post.closed_devices)
    &&& forall|d: DeviceView|
        post.closed_devices.to_set().contains(d) <==> (pre.closed_devices.to_set().contains(d)
            || exists|i: int|
            0 <= i < pre.schedule.open_device_entries.len() && entry_expired(
                #[trigger] pre.schedule.open_device_entries[i],
                now,
            ) && pre.schedule.open_device_entries[i].item == d)
    &&& post.schedule.guest_entry == (if entry_expired(pre.schedule.guest_entry, now) {
        (EntryView { item: GuestPath::Closed, time_bound: None::<i64> })
    } else {
        pre.schedule.guest_entry
    })
    &&& post.schedule.override_entry == (match pre.schedule.override_entry {
        Some(e) => if entry_expired(e, now) {
            None
        } else {
            Some(e)
        },
        None => None::<EntryView<DeviceOverride>>,
    })
    &&& post.unknown_devices == pre.unknown_devices
}

/// `t` is the expiry of one of the world's bounded entries.
pub open spec fn is_event_bound(w: WorldView, t: i64) -> bool {
    ||| w.schedule.guest_entry.time_bound == Some(t)
    ||| (match w.schedule.override_entry {
        Some(e) => e.time_bound == Some(t),
        None => false,
    })
    ||| exists|i: int|
        0 <= i < w.schedule.open_device_entries.len()
            && (#[trigger] w.schedule.open_device_entries[i]).time_bound == Some(t)
}

/// Filtering `s.take(k + 1)` appends `s[k]` to the filtering of
/// `s.take(k)` exactly when `s[k]` satisfies the predicate.
pub proof fn lemma_filter_take_succ<A>(s: Seq<A>, p: spec_fn(A) -> bool, k: int)
    requires
        0 <= k < s.len(),
    ensures
        s.take(k + 1).filter(p) == (if p(s[k]) {
            s.take(k).filter(p).push(s[k])
        } else {
            s.take(k).filter(p)
        }),
{
    let single = seq![s[k]];
    assert(s.take(k + 1) =~= s.take(k) + single);
    Seq::filter_distributes_over_add(s.take(k), single, p);
    reveal_with_fuel(Seq::filter, 2);
    assert(single.drop_last() =~= Seq::<A>::empty());
    if p(s[k]) {
        assert(single.filter(p) =~= Seq::<A>::empty().push(s[k]));
        assert(s.take(k).filter(p) + single.filter(p) =~= s.take(k).filter(p).push(s[k]));
    } else {
        assert(single.filter(p) =~= Seq::<A>::empty());
        assert(s.take(k).filter(p) + single.filter(p) =~= s.take(k).filter(p));
    }
}

/// A filter that holds of every element changes nothing.
pub proof fn lemma_filter_all<A>(s: Seq<A>, p: spec_fn(A) -> bool)
    requires
        forall|i: int| 0 <= i < s.len() ==> p(#[trigger] s[i]),
    ensures
        s.filter(p) == s,
    decreases s.len(),
{
    reveal_with_fuel(Seq::filter, 2);
    if s.len() > 0 {
        lemma_filter_all(s.drop_last(), p);
        assert(s.drop_last().push(s.last()) =~= s);
    }
}

/// Position of the first device of `devs` with address `mac`, if any.
fn find_device_mac(devs: &Vec<Device>, mac: &str) -> (r: Option<usize>)
    ensures
        match r {
            Some(i) => first_mac_match(views_of(devs@), mac@, i as int),
            None => !has_mac(views_of(devs@), mac@),
        },
{
    let mut i: usize = 0;
    while i < devs.len()
        invariant
            i <= devs.len(),
            forall|j: int| 0 <= j < i ==> views_of(devs@)[j].mac != mac@,
        decreases devs.len() - i,
    {
        let c = str_compare(devs[i].mac.as_str(), mac);
        match c {
            Cmp::Equal => {
                return Some(i);
            },
            _ => {
                i = i + 1;
            },
        }
    }
    proof {
        if has_mac(views_of(devs@), mac@) {
            let w = choose|w: int|
                0 <= w < views_of(devs@).len() && views_of(devs@)[w].mac == mac@;
            assert(false);
        }
    }
    None
}

/// Position of the first entry of `entries` whose device has address
/// `mac`, if any.
fn find_entry_mac(entries: &Vec<ScheduleEntry<Device>>, mac: &str) -> (r: Option<usize>)
    ensures
        match r {
            Some(i) => first_entry_mac_match(views_of(entries@), mac@, i as int),
            None => !has_entry_mac(views_of(entries@), mac@),
        },
{
    let mut i: usize = 0;
    while i < entries.len()
        invariant
            i <= entries.len(),
            forall|j: int| 0 <= j < i ==> views_of(entries@)[j].item.mac != mac@,
        decreases entries.len() - i,
    {
        let c = str_compare(entries[i].item.mac.as_str(), mac);
        match c {
            Cmp::Equal => {
                return Some(i);
            },
            _ => {
                i = i + 1;
            },
        }
    }
    proof {
        if has_entry_mac(views_of(entries@), mac@) {
            let w = choose|w: int|
                0 <= w < views_of(entries@).len() && views_of(entries@)[w].item.mac == mac@;
            assert(false);
        }
    }
    None
}

impl World {
    /// Move the first closed device with address `mac` into the open
    /// schedule entries, with the given expiry.  Fails with NotFound,
    /// changing nothing, when no closed device has that address.
    pub fn open_device(&mut self, mac: &str, time_bound: Option<i64>) -> (r: Result<(), ErrorKind>)
        requires
            old(self).wf(),
        ensures
            final(self).wf(),
            r is Ok <==> has_mac(old(self)@.closed_devices, mac@),
            r is Err ==> final(self)@ == old(self)@ && is_not_found(r),
            r is Ok ==> exists|i: int|
                {
                    &&& #[trigger] first_mac_match(old(self)@.closed_devices, mac@, i)
                    &&& final(self)@.closed_devices == old(self)@.closed_devices.remove(i)
                    &&& final(self)@.schedule.open_device_entries.to_set() == old(
                        self,
                    )@.schedule.open_device_entries.to_set().insert(
                        EntryView {
                            item: old(self)@.closed_devices[i],
                            time_bound: time_bound,
                        },
                    )
                },
            final(self)@.schedule.guest_entry == old(self)@.schedule.guest_entry,
            final(self)@.schedule.override_entry == old(self)@.schedule.override_entry,
            final(self)@.unknown_devices == old(self)@.unknown_devices,
    {
        let i = match find_device_mac(&self.closed_devices, mac) {
            Some(i) => i,
            None => {
                return Err(ErrorKind::RequestError("mac not found".to_owned()));
            },
        };
        let ghost pre = self@;
        let ghost idx = i as int;
        let dev = self.closed_devices.remove(i);
        let entry = ScheduleEntry { item: dev, time_bound };
        proof {
            assert(views_of(self.closed_devices@) =~= pre.closed_devices.remove(idx));
            lemma_sorted_remove::<Device>(pre.closed_devices, idx);
            assert(entry@ == (EntryView { item: pre.closed_devices[idx], time_bound }));
        }
        set_insert(&mut self.schedule.open_device_entries, entry);
        Ok(())
    }

    /// Move the device of the first open entry with address `mac` back
    /// into the closed collection, discarding the entry's expiry.  Fails
    /// with NotFound, changing nothing, when no open entry has that
    /// address.
    pub fn close_device(&mut self, mac: &str) -> (r: Result<(), ErrorKind>)
        requires
            old(self).wf(),
        ensures
            final(self).wf(),
            r is Ok <==> has_entry_mac(old(self)@.schedule.open_device_entries, mac@),
            r is Err ==> final(self)@ == old(self)@ && is_not_found(r),
            r is Ok ==> exists|i: int|
                {
                    &&& #[trigger] first_entry_mac_match(
                        old(self)@.schedule.open_device_entries,
                        mac@,
                        i,
                    )
                    &&& final(self)@.schedule.open_device_entries == old(
                        self,
                    )@.schedule.open_device_entries.remove(i)
                    &&& final(self)@.closed_devices.to_set() == old(
                        self,
                    )@.closed_devices.to_set().insert(
                        old(self)@.schedule.open_device_entries[i].item,
                    )
                },
            final(self)@.schedule.guest_entry == old(self)@.schedule.guest_entry,
            final(self)@.schedule.override_entry == old(self)@.schedule.override_entry,
            final(self)@.unknown_devices == old(self)@.unknown_devices,
    {
        let i = match find_entry_mac(&self.schedule.open_device_entries, mac) {
            Some(i) => i,
            None => {
                return Err(ErrorKind::RequestError("mac not found".to_owned()));
            },
        };
        let ghost pre = self@;
        let ghost idx = i as int;
        let entry = self.schedule.open_device_entries.remove(i);
        proof {
            assert(views_of(self.schedule.open_device_entries@) =~= pre.schedule.open_device_entries
                .remove(idx));
            lemma_sorted_remove::<ScheduleEntry<Device>>(pre.schedule.open_device_entries, idx);
            assert(entry@ == pre.schedule.open_device_entries[idx]);
        }
        let dev = entry.item;
        set_insert(&mut self.closed_devices, dev);
        Ok(())
    }

    /// Migrate every open entry whose expiry has passed into the closed
    /// collection, reset an expired guest entry to closed and permanent,
    /// and clear an expired override entry.
    pub fn expire_bounded(&mut self, time_bound: i64)
        requires
            old(self).wf(),
        ensures
            final(self).wf(),
            expire_post(old(self)@, final(self)@, time_bound),
    {
        let ghost pre = self@;
        let ghost e0 = pre.schedule.open_device_entries;
        let mut i: usize = 0;
        proof {
            assert(e0.take(0).filter(entry_keep(time_bound)) =~= Seq::<EntryView<DeviceView>>::empty());
            assert(views_of(self.schedule.open_device_entries@) =~= e0.take(0).filter(entry_keep(time_bound))
                + e0.skip(0));
        }
        let ghost mut k: int = 0;
        while i < self.schedule.open_device_entries.len()
            invariant
                0 <= k <= e0.len(),
                i as int == e0.take(k).filter(entry_keep(time_bound)).len(),
                i <= self.schedule.open_device_entries.len(),
                views_of(self.schedule.open_device_entries@) == e0.take(k).filter(entry_keep(time_bound)) + e0.skip(
                    k,
                ),
                strictly_sorted::<ScheduleEntry<Device>>(
                    views_of(self.schedule.open_device_entries@),
                ),
                strictly_sorted::<Device>(views_of(self.closed_devices@)),
                forall|d: DeviceView|
                    view_set(self.closed_devices@).contains(d) <==> (pre.closed_devices.to_set()
                        .contains(d) || exists|j: int|
                        0 <= j < k && entry_expired(#[trigger] e0[j], time_bound) && e0[j].item
                            == d),
                self.schedule.guest_entry == old(self).schedule.guest_entry,
                self.schedule.override_entry == old(self).schedule.override_entry,
                self.unknown_devices == old(self).unknown_devices,
            decreases e0.len() - k,
        {
            proof {
                assert(e0.skip(k).len() > 0);
                assert(views_of(self.schedule.open_device_entries@)[i as int] == e0.skip(k)[0]);
                assert(e0.skip(k)[0] == e0[k]);
                lemma_filter_take_succ(e0, entry_keep(time_bound), k);
            }
            let expired = match self.schedule.open_device_entries[i].time_bound {
                Some(t) => t <= time_bound,
                None => false,
            };
            if expired {
                let ghost before = views_of(self.schedule.open_device_entries@);
                let entry = self.schedule.open_device_entries.remove(i);
                proof {
                    assert(views_of(self.schedule.open_device_entries@) =~= before.remove(
                        i as int,
                    ));
                    lemma_sorted_remove::<ScheduleEntry<Device>>(before, i as int);
                    assert(entry_expired(e0[k], time_bound));
                    assert(!entry_keep(time_bound)(e0[k]));
                    assert(e0.take(k + 1).filter(entry_keep(time_bound)) == e0.take(k).filter(entry_keep(time_bound)));
                    assert(before =~= e0.take(k).filter(entry_keep(time_bound)) + e0.skip(k));
                    assert forall|p: int| 0 <= p < before.remove(i as int).len() implies before
                        .remove(i as int)[p] == (e0.take(k + 1).filter(entry_keep(time_bound)) + e0.skip(k + 1))[p]
                        by {
                        if p < i as int {
                        } else {
                            assert(before.remove(i as int)[p] == before[p + 1]);
                            assert(before[p + 1] == e0.skip(k)[p + 1 - i as int]);
                            assert(e0.skip(k)[p + 1 - i as int] == e0[k + p + 1 - i as int]);
                            assert(e0.skip(k + 1)[p - i as int] == e0[k + 1 + p - i as int]);
                        }
                    }
                    assert(before.remove(i as int) =~= e0.take(k + 1).filter(entry_keep(time_bound)) + e0.skip(
                        k + 1,
                    ));
                    assert(entry@ == e0[k]);
                }
                let dev = entry.item;
                proof {
                    assert(dev@ == e0[k].item);
                }
                set_insert(&mut self.closed_devices, dev);
                proof {
                    assert forall|d: DeviceView|
                        view_set(self.closed_devices@).contains(d) <==> (pre.closed_devices
                            .to_set().contains(d) || exists|j: int|
                            0 <= j < k + 1 && entry_expired(#[trigger] e0[j], time_bound)
                                && e0[j].item == d) by {
                        if view_set(self.closed_devices@).contains(d) {
                            if d == e0[k].item {
                                assert(entry_expired(e0[k], time_bound));
                            }
                        } else {
                        }
                        if pre.closed_devices.to_set().contains(d) {
                        }
                        if exists|j: int|
                            0 <= j < k + 1 && entry_expired(#[trigger] e0[j], time_bound)
                                && e0[j].item == d {
                            let j = choose|j: int|
                                0 <= j < k + 1 && entry_expired(#[trigger] e0[j], time_bound)
                                    && e0[j].item == d;
                            if j < k {
                                assert(view_set(self.closed_devices@).contains(d));
                            } else {
                                assert(d == e0[k].item);
                            }
                        }
                    }
                    k = k + 1;
                }
            } else {
                proof {
                    assert(e0.take(k + 1).filter(entry_keep(time_bound)) =~= e0.take(k).filter(entry_keep(time_bound)).push(e0[k]));
                    assert(views_of(self.schedule.open_device_entries@) =~= e0.take(k + 1).filter(
                        entry_keep(time_bound),
                    ) + e0.skip(k + 1));
                    k = k + 1;
                }
                i = i + 1;
            }
        }
        proof {
            assert(k == e0.len());
            assert(e0.take(k) =~= e0);
            assert(e0.skip(k) =~= Seq::<EntryView<DeviceView>>::empty());
            assert(views_of(self.schedule.open_device_entries@) =~= e0.filter(entry_keep(time_bound)));
        }
        let guest_expired = match self.schedule.guest_entry.time_bound {
            Some(t) => t <= time_bound,
            None => false,
        };
        if guest_expired {
            self.schedule.guest_entry = ScheduleEntry { item: GuestPath::Closed, time_bound: None };
        }
        let mut clear_override = false;
        match &self.schedule.override_entry {
            Some(inner) => {
                clear_override = match inner.time_bound {
                    Some(t) => t <= time_bound,
                    None => false,
                };
            },
            None => {},
        }
        if clear_override {
            self.schedule.override_entry = None;
        }
        proof {
            assert(self@.schedule.open_device_entries == pre.schedule.open_device_entries.filter(
                entry_keep(time_bound),
            ));
            assert forall|d: DeviceView| #![trigger self@.closed_devices.to_set().contains(d)]
                self@.closed_devices.to_set().contains(d) <==> (pre.closed_devices.to_set()
                    .contains(d) || exists|i: int|
                    0 <= i < pre.schedule.open_device_entries.len() && entry_expired(
                        #[trigger] pre.schedule.open_device_entries[i],
                        time_bound,
                    ) && pre.schedule.open_device_entries[i].item == d) by {
                assert(view_set(self.closed_devices@).contains(d) <==> (pre.closed_devices.to_set()
                    .contains(d) || exists|j: int|
                    0 <= j < k && entry_expired(#[trigger] e0[j], time_bound) && e0[j].item == d));
                if exists|j: int|
                    0 <= j < k && entry_expired(#[trigger] e0[j], time_bound) && e0[j].item == d {
                    let j = choose|j: int|
                        0 <= j < k && entry_expired(#[trigger] e0[j], time_bound) && e0[j].item
                            == d;
                    assert(entry_expired(pre.schedule.open_device_entries[j], time_bound)
                        && pre.schedule.open_device_entries[j].item == d);
                }
                if exists|i: int|
                    0 <= i < pre.schedule.open_device_entries.len() && entry_expired(
                        #[trigger] pre.schedule.open_device_entries[i],
                        time_bound,
                    ) && pre.schedule.open_device_entries[i].item == d {
                    let i2 = choose|i: int|
                        0 <= i < pre.schedule.open_device_entries.len() && entry_expired(
                            #[trigger] pre.schedule.open_device_entries[i],
                            time_bound,
                        ) && pre.schedule.open_device_entries[i].item == d;
                    assert(0 <= i2 < k && entry_expired(e0[i2], time_bound) && e0[i2].item == d);
                }
            }
            assert(self@.schedule.guest_entry == (if entry_expired(
                pre.schedule.guest_entry,
                time_bound,
            ) {
                (EntryView { item: GuestPath::Closed, time_bound: None::<i64> })
            } else {
                pre.schedule.guest_entry
            }));
            assert(self@.schedule.override_entry == (match pre.schedule.override_entry {
                Some(e) => if entry_expired(e, time_bound) {
                    None
                } else {
                    Some(e)
                },
                None => None::<EntryView<DeviceOverride>>,
            }));
            assert(self@.unknown_devices == pre.unknown_devices);
            assert(expire_post(pre, self@, time_bound));
        }
    }

    /// The minimum over all set expiries of the schedule, or `None` when
    /// no entry is bounded.
    pub fn get_soonest_event_time(&self) -> (r: Option<i64>)
        ensures
            match r {
                None => forall|t: i64| !is_event_bound(self@, t),
                Some(t) => is_event_bound(self@, t) && forall|u: i64|
                    is_event_bound(self@, u) ==> t <= u,
            },
    {
        let mut acc: Option<i64> = self.schedule.guest_entry.time_bound;
        match &self.schedule.override_entry {
            Some(e) => {
                acc = match (acc, e.time_bound) {
                    (Some(a), Some(b)) => if b < a {
                        Some(b)
                    } else {
                        Some(a)
                    },
                    (None, Some(b)) => Some(b),
                    (Some(a), None) => Some(a),
                    (None, None) => None,
                };
            },
            None => {},
        }
        let ghost w = self@;
        let mut i: usize = 0;
        while i < self.schedule.open_device_entries.len()
            invariant
                i <= self.schedule.open_device_entries.len(),
                w == self@,
                match acc {
                    None => forall|t: i64| !is_prefix_bound(w, i as int, t),
                    Some(m) => is_prefix_bound(w, i as int, m) && forall|u: i64|
                        is_prefix_bound(w, i as int, u) ==> m <= u,
                },
            decreases self.schedule.open_device_entries.len() - i,
        {
            let b = self.schedule.open_device_entries[i].time_bound;
            let ghost ii = i as int;
            proof {
                assert(w.schedule.open_device_entries[ii]
                    == self.schedule.open_device_entries@[ii]@);
                assert(w.schedule.open_device_entries[ii].time_bound == b);
                assert forall|t: i64| is_prefix_bound(w, ii, t) implies is_prefix_bound(
                    w,
                    ii + 1,
                    t,
                ) by {
                    if w.schedule.guest_entry.time_bound != Some(t) && !(
                    match w.schedule.override_entry {
                        Some(e) => e.time_bound == Some(t),
                        None => false,
                    }) {
                        let j = choose|j: int|
                            0 <= j < ii && j < w.schedule.open_device_entries.len() && (
                            #[trigger] w.schedule.open_device_entries[j]).time_bound == Some(t);
                        assert(0 <= j < ii + 1 && j < w.schedule.open_device_entries.len()
                            && w.schedule.open_device_entries[j].time_bound == Some(t));
                    }
                }
                assert forall|u: i64|
                    is_prefix_bound(w, ii + 1, u) && !is_prefix_bound(w, ii, u) implies b == Some(
                    u,
                ) by {
                    let j = choose|j: int|
                        0 <= j < ii + 1 && j < w.schedule.open_device_entries.len() && (
                        #[trigger] w.schedule.open_device_entries[j]).time_bound == Some(u);
                    if j < ii {
                        assert(is_prefix_bound(w, ii, u));
                    } else {
                        assert(j == ii);
                    }
                }
                match b {
                    Some(t) => {
                        assert(is_prefix_bound(w, ii + 1, t));
                    },
                    None => {},
                }
            }
            let ghost acc0 = acc;
            acc = match (acc, b) {
                (Some(a), Some(t)) => if t < a {
                    Some(t)
                } else {
                    Some(a)
                },
                (None, Some(t)) => Some(t),
                (Some(a), None) => Some(a),
                (None, None) => None,
            };
            i = i + 1;
            proof {
                assert(i as int == ii + 1);
                match acc {
                    None => {
                        assert(acc0 is None && b is None);
                        assert forall|t: i64| #![trigger is_prefix_bound(w, ii + 1, t)] !is_prefix_bound(
                            w,
                            ii + 1,
                            t,
                        ) by {
                            if is_prefix_bound(w, ii + 1, t) {
                                assert(is_prefix_bound(w, ii, t) || b == Some(t));
                                assert(false);
                            }
                        }
                    },
                    Some(m) => {
                        if acc0 == Some(m) {
                            assert(is_prefix_bound(w, ii, m));
                            assert(is_prefix_bound(w, ii + 1, m));
                        } else {
                            assert(b == Some(m));
                            assert(is_prefix_bound(w, ii + 1, m));
                        }
                        assert forall|u: i64| #![trigger is_prefix_bound(w, ii + 1, u)] is_prefix_bound(
                            w,
                            ii + 1,
                            u,
                        ) implies m <= u by {
                            assert(is_prefix_bound(w, ii, u) || b == Some(u));
                            if is_prefix_bound(w, ii, u) {
                                match acc0 {
                                    Some(a) => {
                                        assert(a <= u);
                                    },
                                    None => {
                                        assert(false);
                                    },
                                }
                            }
                        }
                    },
                }
            }
        }
        proof {
            assert forall|t: i64| is_event_bound(w, t) implies is_prefix_bound(
                w,
                self.schedule.open_device_entries@.len() as int,
                t,
            ) by {}
        }
        acc
    }
}

/// `t` is the expiry of the guest entry, the override entry, or one of
/// the first `k` open-device entries.
pub open spec fn is_prefix_bound(w: WorldView, k: int, t: i64) -> bool {
    ||| w.schedule.guest_entry.time_bound == Some(t)
    ||| (match w.schedule.override_entry {
        Some(e) => e.time_bound == Some(t),
        None => false,
    })
    ||| exists|i: int|
        0 <= i < k && i < w.schedule.open_device_entries.len() && (
        #[trigger] w.schedule.open_device_entries[i]).time_bound == Some(t)
}

/// Expiration is idempotent: a second expiration at the same time
/// changes nothing.
pub proof fn lemma_expire_bounded_idempotent(w0: WorldView, w1: WorldView, w2: WorldView, now: i64)
    requires
        expire_post(w0, w1, now),
        expire_post(w1, w2, now),
    ensures
        w2 == w1,
{
    broadcast use vstd::seq_lib::group_filter_ensures;

    let keep = entry_keep(now);
    let f0 = w0.schedule.open_device_entries.filter(keep);

    assert forall|i: int| 0 <= i < f0.len() implies keep(#[trigger] f0[i]) by {}
    lemma_filter_all(f0, keep);
    assert(w2.schedule.open_device_entries == w1.schedule.open_device_entries);
    assert forall|d: DeviceView| w2.closed_devices.to_set().contains(d) <==> w1.closed_devices
        .to_set().contains(d) by {
        if w2.closed_devices.to_set().contains(d) {
            if !w1.closed_devices.to_set().contains(d) {
                let i = choose|i: int|
                    0 <= i < w1.schedule.open_device_entries.len() && entry_expired(
                        #[trigger] w1.schedule.open_device_entries[i],
                        now,
                    ) && w1.schedule.open_device_entries[i].item == d;
                assert(keep(f0[i]));
                assert(false);
            }
        }
    }
    assert(w2.closed_devices.to_set() =~= w1.closed_devices.to_set());
    lemma_sorted_canonical::<Device>(w2.closed_devices, w1.closed_devices);
    assert(!entry_expired(w1.schedule.guest_entry, now));
    match w1.schedule.override_entry {
        Some(e) => {
            assert(!entry_expired(e, now));
        },
        None => {},
    }
    assert(w2 == w1);
}

/// A device moved out of a sorted duplicate-free collection is absent
/// from what remains: the collection held it exactly once.
pub proof fn lemma_removed_device_absent(s: Seq<DeviceView>, i: int)
    requires
        strictly_sorted::<Device>(s),
        0 <= i < s.len(),
    ensures
        !s.remove(i).to_set().contains(s[i]),
{
    lemma_sorted_remove::<Device>(s, i);
}

/// An entry moved out of a sorted duplicate-free collection is absent
/// from what remains: the collection held it exactly once.
pub proof fn lemma_removed_entry_absent(s: Seq<EntryView<DeviceView>>, i: int)
    requires
        strictly_sorted::<ScheduleEntry<Device>>(s),
        0 <= i < s.len(),
    ensures
        !s.remove(i).to_set().contains(s[i]),
{
    lemma_sorted_remove::<ScheduleEntry<Device>>(s, i);
}

} // verus!
