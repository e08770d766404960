//! Request-facing operations: parameter validation and the mutations of
//! the guest path, the override, and the configured device set, together
//! with the wake-time computation of the expiration scheduler.
//!
//! Every operation takes the primitive parameters that the transport
//! layer hands over, validates them, and performs the model mutation.
//! Persistence and re-application of the firewall state stay outside the
//! model and are driven by the surrounding program.

use vstd::prelude::*;

use crate::order::{set_insert, strictly_sorted, view_set, views_of};
use crate::text::lower_of;
use crate::types::{
    config_wf, Config, Device, DeviceOverride, DeviceView, EntryView, ErrorKind, GuestPath,
    ScheduleEntry, World, WorldView,
};

verus! {

/// The result is the RequestError with the message `msg`.
pub open spec fn is_request_error(r: Result<(), ErrorKind>, msg: Seq<char>) -> bool {
    match r {
        Err(ErrorKind::RequestError(m)) => m@ == msg,
        _ => false,
    }
}

/// Everything of the world but the guest entry is unchanged.
pub open spec fn same_but_guest(pre: WorldView, post: WorldView) -> bool {
    &&& post.schedule.override_entry == pre.schedule.override_entry
    &&& post.schedule.open_device_entries == pre.schedule.open_device_entries
    &&& post.closed_devices == pre.closed_devices
    &&& post.unknown_devices == pre.unknown_devices
}

/// Everything of the world but the override entry is unchanged.
pub open spec fn same_but_override(pre: WorldView, post: WorldView) -> bool {
    &&& post.schedule.guest_entry == pre.schedule.guest_entry
    &&& post.schedule.open_device_entries == pre.schedule.open_device_entries
    &&& post.closed_devices == pre.closed_devices
    &&& post.unknown_devices == pre.unknown_devices
}

/// An optional request parameter that can be demanded, failing with a
/// RequestError carrying the given message when it is absent.
pub trait RequestErrExt<'a>: Sized {
    /// The optional parameter value this holds.
    spec fn param_view(&self) -> Option<Seq<char>>;

    /// The parameter's value, or a RequestError with the message `msg`.
    fn require_param(&self, msg: String) -> (r: Result<&'a str, ErrorKind>)
        ensures
            match r {
                Ok(s) => self.param_view() == Some(s@),
                Err(e) => self.param_view() is None && (e matches ErrorKind::RequestError(m) && m@
                    == msg@),
            };
}

impl<'a> RequestErrExt<'a> for Option<&'a str> {
    open spec fn param_view(&self) -> Option<Seq<char>> {
        match *self {
            Some(s) => Some(s@),
            None => None,
        }
    }

    fn require_param(&self, msg: String) -> (r: Result<&'a str, ErrorKind>) {
        match *self {
            Some(s) => Ok(s),
            None => Err(ErrorKind::RequestError(msg)),
        }
    }
}

impl World {
    /// Set the guest entry from the request parameter: a value whose
    /// lowercase form is "true" opens the guest path, any other value
    /// closes it.  Fails, changing nothing, when the parameter is
    /// absent.
    pub fn set_guest_path(&mut self, allow_param: Option<&str>, time_bound: Option<i64>) -> (r:
        Result<(), ErrorKind>)
        ensures
            match allow_param {
                None => r is Err && final(self)@ == old(self)@ && is_request_error(
                    r,
                    "Missing allow parameter"@,
                ),
                Some(s) => r is Ok && same_but_guest(old(self)@, final(self)@)
                    && final(self)@.schedule.guest_entry == (EntryView {
                    item: if lower_of(s@) == "true"@ {
                        GuestPath::Open
                    } else {
                        GuestPath::Closed
                    },
                    time_bound: time_bound,
                }),
            },
            old(self).wf() ==> final(self).wf(),
    {
        let allow_str = match allow_param.require_param("Missing allow parameter".to_owned()) {
            Ok(s) => s,
            Err(e) => {
                return Err(e);
            },
        };
        let low = crate::text::to_lowercase(allow_str);
        let truth = "true".to_owned();
        let allow = if low == truth {
            GuestPath::Open
        } else {
            GuestPath::Closed
        };
        self.schedule.guest_entry = ScheduleEntry { item: allow, time_bound };
        Ok(())
    }

    /// Set or clear the override entry from the request parameter: a
    /// value whose lowercase form is "null" clears the override, "true"
    /// forces every device open, any other value forces every device
    /// closed.  Fails, changing nothing, when the parameter is absent.
    pub fn set_device_override(
        &mut self,
        override_param: Option<&str>,
        time_bound: Option<i64>,
    ) -> (r: Result<(), ErrorKind>)
        ensures
            match override_param {
                None => r is Err && final(self)@ == old(self)@ && is_request_error(
                    r,
                    "Missing override paramter"@,
                ),
                Some(s) => r is Ok && same_but_override(old(self)@, final(self)@)
                    && final(self)@.schedule.override_entry == (if lower_of(s@) == "null"@ {
                    None
                } else if lower_of(s@) == "true"@ {
                    Some(EntryView { item: DeviceOverride::Open, time_bound: time_bound })
                } else {
                    Some(EntryView { item: DeviceOverride::Closed, time_bound: time_bound })
                }),
            },
            old(self).wf() ==> final(self).wf(),
    {
        let override_str = match override_param.require_param(
            "Missing override paramter".to_owned(),
        ) {
            Ok(s) => s,
            Err(e) => {
                return Err(e);
            },
        };
        let low = crate::text::to_lowercase(override_str);
        let null_word = "null".to_owned();
        let true_word = "true".to_owned();
        let override_arg = if low == null_word {
            None
        } else if low == true_word {
            Some(DeviceOverride::Open)
        } else {
            Some(DeviceOverride::Closed)
        };
        self.schedule.override_entry = match override_arg {
            Some(i) => Some(ScheduleEntry { item: i, time_bound }),
            None => None,
        };
        Ok(())
    }
}

impl Config {
    /// Add a device built from the request parameters to the known
    /// devices.  Fails, changing nothing, when the address or the name
    /// is absent.
    pub fn add_known_device(&mut self, mac_param: Option<&str>, name_param: Option<&str>) -> (r:
        Result<(), ErrorKind>)
        requires
            config_wf(*old(self)),
        ensures
            config_wf(*final(self)),
            match (mac_param, name_param) {
                (Some(mc), Some(nm)) => r is Ok && view_set(final(self).known_devices@)
                    == view_set(old(self).known_devices@).insert(
                    DeviceView { name: nm@, mac: mc@ },
                ),
                (None, _) => r is Err && *final(self) == *old(self) && is_request_error(
                    r,
                    "Missing mac parameter"@,
                ),
                (Some(_), None) => r is Err && *final(self) == *old(self) && is_request_error(
                    r,
                    "Missing name parameter"@,
                ),
            },
            final(self).exit_interfaces == old(self).exit_interfaces,
            final(self).state_file == old(self).state_file,
            final(self).dhcp_lease_file == old(self).dhcp_lease_file,
    {
        let mac = match mac_param.require_param("Missing mac parameter".to_owned()) {
            Ok(s) => s,
            Err(e) => {
                return Err(e);
            },
        };
        let name = match name_param.require_param("Missing name parameter".to_owned()) {
            Ok(s) => s,
            Err(e) => {
                return Err(e);
            },
        };
        let dev = Device { mac: mac.to_owned(), name: name.to_owned() };
        set_insert(&mut self.known_devices, dev);
        Ok(())
    }
}

/// How long the expiration scheduler should wait, in seconds: until the
/// soonest expiry, zero if that has already passed, and thirty days when
/// no entry is bounded.
pub fn expiration_wait_seconds(soonest: Option<i64>, now: i64) -> (r: u64)
    ensures
        match soonest {
            None => r == 30 * 86400,
            Some(d) => if d <= now {
                r == 0
            } else {
                r == d - now
            },
        },
{
    match soonest {
        None => 30 * 86400,
        Some(d) => {
            if d <= now {
                0
            } else {
                let diff: i128 = (d as i128) - (now as i128);
                proof {
                    assert(0 < diff <= u64::MAX);
                }
                diff as u64
            }
        },
    }
}

/// The wake signal of the expiration scheduler: every mutating operation
/// kicks the scheduler after releasing the state, so that it recomputes
/// its wait against the new state.
pub trait Scheduler {
    /// Wake the scheduler so that it re-evaluates the soonest event
    /// time immediately.
    fn kick_scheduler(self);
}

} // verus!
