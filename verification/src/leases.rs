//! Parsing of DHCP lease lines into observed devices.
//!
//! A lease line holds white-space separated fields; the second field is
//! the device address and everything after the third separator is the
//! device name.  A line with fewer than three separators is malformed
//! and skipped.

use vstd::prelude::*;

use crate::order::{set_insert, strictly_sorted, view_set, views_of};
use crate::text::{is_space, is_space_char};
use crate::types::{Device, DeviceView};

verus! {

/// The position of the first white-space character at or after `i`.
pub open spec fn find_space(s: Seq<char>, i: int) -> Option<int>
    decreases s.len() - i,
{
    if i < 0 || i >= s.len() {
        None
    } else if is_space_char(s[i]) {
        Some(i)
    } else {
        find_space(s, i + 1)
    }
}

/// The device a lease line describes: the second field is the address,
/// the rest of the line after the third separator is the name.  `None`
/// when the line has fewer than three separators.
pub open spec fn spec_parse_lease_line(s: Seq<char>) -> Option<DeviceView> {
    match find_space(s, 0) {
        None => None,
        Some(i1) => match find_space(s, i1 + 1) {
            None => None,
            Some(i2) => match find_space(s, i2 + 1) {
                None => None,
                Some(i3) => Some(
                    DeviceView {
                        name: s.subrange(i3 + 1, s.len() as int),
                        mac: s.subrange(i1 + 1, i2),
                    },
                ),
            },
        },
    }
}

/// Scan for the first white-space character at or after `start`.
fn find_space_from(line: &str, start: usize, len: usize) -> (r: Option<usize>)
    requires
        len == line@.len(),
        start <= len,
    ensures
        match r {
            Some(i) => start <= i < len && find_space(line@, start as int) == Some(i as int),
            None => find_space(line@, start as int) is None,
        },
{
    let mut i = start;
    while i < len
        invariant
            start <= i <= len,
            len == line@.len(),
            find_space(line@, start as int) == find_space(line@, i as int),
        decreases len - i,
    {
        let c = line.get_char(i);
        if is_space(c) {
            return Some(i);
        }
        i = i + 1;
    }
    None
}

/// Parse one lease line into the device it describes, or `None` when
/// the line is malformed.
pub fn parse_lease_line(line: &str) -> (r: Option<Device>)
    ensures
        match (r, spec_parse_lease_line(line@)) {
            (Some(d), Some(dv)) => d@ == dv,
            (None, None) => true,
            _ => false,
        },
{
    let len = line.unicode_len();
    let i1 = match find_space_from(line, 0, len) {
        Some(i) => i,
        None => {
            return None;
        },
    };
    let i2 = match find_space_from(line, i1 + 1, len) {
        Some(i) => i,
        None => {
            return None;
        },
    };
    let i3 = match find_space_from(line, i2 + 1, len) {
        Some(i) => i,
        None => {
            return None;
        },
    };
    let mac_part = line.substring_char(i1 + 1, i2);
    let name_part = line.substring_char(i3 + 1, len);
    Some(Device { name: name_part.to_owned(), mac: mac_part.to_owned() })
}

/// Parse every line and insert each described device into `devs`.
/// Malformed lines are skipped.
pub fn read_observed_devices(lines: &Vec<String>, devs: &mut Vec<Device>)
    requires
        strictly_sorted::<Device>(views_of(old(devs)@)),
    ensures
        strictly_sorted::<Device>(views_of(final(devs)@)),
        forall|d: DeviceView| #![trigger view_set(final(devs)@).contains(d)]
            view_set(final(devs)@).contains(d) <==> (view_set(old(devs)@).contains(d) || exists|
                q: int,
            |
                0 <= q < lines@.len() && spec_parse_lease_line(#[trigger] views_of(lines@)[q])
                    == Some(d)),
{
    let mut v: usize = 0;
    while v < lines.len()
        invariant
            v <= lines.len(),
            strictly_sorted::<Device>(views_of(devs@)),
            forall|d: DeviceView| #![trigger view_set(devs@).contains(d)]
                view_set(devs@).contains(d) <==> (view_set(old(devs)@).contains(d) || exists|
                    q: int,
                |
                    0 <= q < v && spec_parse_lease_line(#[trigger] views_of(lines@)[q]) == Some(
                        d,
                    )),
        decreases lines.len() - v,
    {
        let ghost before = view_set(devs@);
        let parsed = parse_lease_line(lines[v].as_str());
        match parsed {
            Some(dev) => {
                let ghost dv = dev@;
                set_insert(devs, dev);
                proof {
                    let lv = views_of(lines@);
                    assert(spec_parse_lease_line(lv[v as int]) == Some(dv));
                    assert forall|d: DeviceView| #![trigger view_set(devs@).contains(d)]
                        view_set(devs@).contains(d) <==> (view_set(old(devs)@).contains(d)
                            || exists|q: int|
                            0 <= q < v + 1 && spec_parse_lease_line(#[trigger] lv[q]) == Some(
                                d,
                            )) by {
                        if view_set(devs@).contains(d) {
                            if d != dv {
                                assert(before.contains(d));
                            }
                        }
                        if view_set(old(devs)@).contains(d) {
                            assert(before.contains(d));
                        }
                        if exists|q: int|
                            0 <= q < v + 1 && spec_parse_lease_line(#[trigger] lv[q]) == Some(d) {
                            let q = choose|q: int|
                                0 <= q < v + 1 && spec_parse_lease_line(#[trigger] lv[q]) == Some(
                                    d,
                                );
                            if q < v {
                                assert(before.contains(d));
                            } else {
                                assert(d == dv);
                            }
                        }
                    }
                }
            },
            None => {
                proof {
                    let lv = views_of(lines@);
                    assert(spec_parse_lease_line(lv[v as int]) is None);
                    assert forall|d: DeviceView| #![trigger view_set(devs@).contains(d)]
                        view_set(devs@).contains(d) <==> (view_set(old(devs)@).contains(d)
                            || exists|q: int|
                            0 <= q < v + 1 && spec_parse_lease_line(#[trigger] lv[q]) == Some(
                                d,
                            )) by {
                        if exists|q: int|
                            0 <= q < v + 1 && spec_parse_lease_line(#[trigger] lv[q]) == Some(d) {
                            let q = choose|q: int|
                                0 <= q < v + 1 && spec_parse_lease_line(#[trigger] lv[q]) == Some(
                                    d,
                                );
                            assert(q < v);
                        }
                    }
                }
            },
        }
        v = v + 1;
    }
}

} // verus!
