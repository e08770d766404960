//! The policy compiler: rendering a world into an ordered firewall
//! command script.
//!
//! The script creates a fresh rule chain, fills it with the compiled
//! rules — unconditional accepts for the exit interfaces first, one
//! address rule per device next, and a trailing deny-all exactly when
//! the guest path is closed — hooks the new chain at the head of the
//! forwarding hook, and only then unhooks, flushes and deletes the
//! previous chain, so that the data path never lacks an active chain.

use vstd::prelude::*;
use vstd::string::StringExecFns;

use crate::order::views_of;
use crate::types::{
    Device, DeviceOverride, DeviceView, EntryView, ErrorKind, GuestPath, ScheduleEntry, World,
    WorldView,
};

verus! {

/// A firewall verdict.
#[derive(Debug, Clone, Copy, PartialEq, Eq, Structural)]
pub enum Action {
    Accept,
    Drop,
}

/// The word the script writes for a verdict.
pub open spec fn action_word(a: Action) -> Seq<char> {
    match a {
        Action::Accept => "ACCEPT"@,
        Action::Drop => "DROP"@,
    }
}

impl Action {
    /// The word the script writes for this verdict.
    pub fn script(self) -> (r: &'static str)
        ensures
            r@ == action_word(self),
    {
        match self {
            Action::Accept => "ACCEPT",
            Action::Drop => "DROP",
        }
    }
}

/// The view of an optional override entry.
pub open spec fn override_view(o: Option<ScheduleEntry<DeviceOverride>>) -> Option<
    EntryView<DeviceOverride>,
> {
    match o {
        Some(e) => Some(e@),
        None => None,
    }
}

/// The verdict for a device once the global override is applied: a set
/// override forces its verdict on every device, otherwise the device's
/// own verdict stands.
pub open spec fn spec_action_with_override(
    ov: Option<EntryView<DeviceOverride>>,
    device_action: Action,
) -> Action {
    match ov {
        None => device_action,
        Some(e) => match e.item {
            DeviceOverride::Open => Action::Accept,
            DeviceOverride::Closed => Action::Drop,
        },
    }
}

/// Apply the global override to a device's own verdict.
pub fn action_with_override(
    override_entry: &Option<ScheduleEntry<DeviceOverride>>,
    device_action: Action,
) -> (r: Action)
    ensures
        r == spec_action_with_override(override_view(*override_entry), device_action),
{
    let device_override = match override_entry {
        None => None,
        Some(entry) => Some(entry.item),
    };
    match device_override {
        None => device_action,
        Some(DeviceOverride::Open) => Action::Accept,
        Some(DeviceOverride::Closed) => Action::Drop,
    }
}

/// One compiled firewall rule.
pub enum FirewallRule {
    /// Unconditionally accept traffic of an exit interface.
    Exit { interface: Seq<char> },
    /// Apply a verdict to one source address.
    Mac { mac: Seq<char>, action: Action },
    /// The trailing deny-all of a closed guest path.
    DropAll,
}

/// The exit-interface rules, one per interface, in order.
pub open spec fn exit_rules(exits: Seq<Seq<char>>) -> Seq<FirewallRule> {
    exits.map_values(|e: Seq<char>| FirewallRule::Exit { interface: e })
}

/// The rules of the open devices: each would be accepted, subject to the
/// override.
pub open spec fn open_rules(
    entries: Seq<EntryView<DeviceView>>,
    ov: Option<EntryView<DeviceOverride>>,
) -> Seq<FirewallRule> {
    entries.map_values(
        |e: EntryView<DeviceView>| FirewallRule::Mac {
            mac: e.item.mac,
            action: spec_action_with_override(ov, Action::Accept),
        },
    )
}

/// The rules of the closed devices: each would be dropped, subject to
/// the override.
pub open spec fn closed_rules(
    devs: Seq<DeviceView>,
    ov: Option<EntryView<DeviceOverride>>,
) -> Seq<FirewallRule> {
    devs.map_values(
        |d: DeviceView| FirewallRule::Mac {
            mac: d.mac,
            action: spec_action_with_override(ov, Action::Drop),
        },
    )
}

/// The trailing deny-all, present exactly when the guest path is closed.
pub open spec fn guest_rules(g: EntryView<GuestPath>) -> Seq<FirewallRule> {
    if g.item == GuestPath::Closed {
        seq![FirewallRule::DropAll]
    } else {
        Seq::<FirewallRule>::empty()
    }
}

/// All compiled rules of a world, in the order the script writes them:
/// exit interfaces, open devices, closed devices, and the optional
/// deny-all.
pub open spec fn compiled_rules(w: WorldView, exits: Seq<Seq<char>>) -> Seq<FirewallRule> {
    exit_rules(exits) + open_rules(
        w.schedule.open_device_entries,
        w.schedule.override_entry,
    ) + closed_rules(w.closed_devices, w.schedule.override_entry) + guest_rules(
        w.schedule.guest_entry,
    )
}

/// The script line of one rule, appended to the chain `nc`.
pub open spec fn rule_text(nc: Seq<char>, r: FirewallRule) -> Seq<char> {
    match r {
        FirewallRule::Exit { interface } => "iptables -A "@ + nc + " -i "@ + interface
            + " -j ACCEPT\n"@,
        FirewallRule::Mac { mac, action } => "iptables -A "@ + nc + " -m mac --mac-source "@ + mac
            + " -j "@ + action_word(action) + "\n"@,
        FirewallRule::DropAll => "iptables -A "@ + nc + " -j DROP\n"@,
    }
}

/// The script lines of a sequence of rules.
pub open spec fn rules_text(nc: Seq<char>, rules: Seq<FirewallRule>) -> Seq<char>
    decreases rules.len(),
{
    if rules.len() == 0 {
        Seq::<char>::empty()
    } else {
        rule_text(nc, rules[0]) + rules_text(nc, rules.drop_first())
    }
}

/// The preamble: tear down a leftover old chain, rename a leftover new
/// chain out of the way, and create the new chain.
pub open spec fn header_text(oc: Seq<char>, nc: Seq<char>) -> Seq<char> {
    "\nset -e\nset -x\nif iptables -L "@ + oc + " >/dev/null 2>&1; then\n    iptables -D FORWARD -j "@
        + oc + " || true\n    iptables -F "@ + oc + "\n    iptables -X "@ + oc
        + "\nfi\nif iptables -L "@ + nc + " >/dev/null 2>&1; then\n    iptables -E "@ + nc + " "@
        + oc + "\nfi\niptables -N "@ + nc + "\n"@
}

/// The postamble: hook the new chain at the head of the forwarding hook
/// and only then unhook, flush and delete the old chain.
pub open spec fn footer_text(nc: Seq<char>, oc: Seq<char>) -> Seq<char> {
    "\niptables -I FORWARD 1 -j "@ + nc + "\nif iptables -L "@ + oc
        + " >/dev/null 2>&1; then\n    iptables -D FORWARD -j "@ + oc + "\n    iptables -F "@ + oc
        + "\n    iptables -X "@ + oc + "\nfi\n"@
}

/// The complete script of a world.
pub open spec fn script_text(
    w: WorldView,
    oc: Seq<char>,
    nc: Seq<char>,
    exits: Seq<Seq<char>>,
) -> Seq<char> {
    header_text(oc, nc) + rules_text(nc, compiled_rules(w, exits)) + footer_text(nc, oc)
}

/// The text of concatenated rules is the concatenation of their texts.
proof fn lemma_rules_text_concat(nc: Seq<char>, a: Seq<FirewallRule>, b: Seq<FirewallRule>)
    ensures
        rules_text(nc, a + b) == rules_text(nc, a) + rules_text(nc, b),
    decreases a.len(),
{
    if a.len() == 0 {
        assert(a + b =~= b);
        assert(rules_text(nc, a) + rules_text(nc, b) =~= rules_text(nc, b));
    } else {
        assert((a + b)[0] == a[0]);
        assert((a + b).drop_first() =~= a.drop_first() + b);
        lemma_rules_text_concat(nc, a.drop_first(), b);
        assert(rules_text(nc, a + b) == rule_text(nc, a[0]) + (rules_text(nc, a.drop_first())
            + rules_text(nc, b)));
        assert(rule_text(nc, a[0]) + (rules_text(nc, a.drop_first()) + rules_text(nc, b)) =~= (
        rule_text(nc, a[0]) + rules_text(nc, a.drop_first())) + rules_text(nc, b));
    }
}

/// Extending the written prefix by one rule appends that rule's text.
proof fn lemma_rules_text_take_succ(nc: Seq<char>, s: Seq<FirewallRule>, i: int)
    requires
        0 <= i < s.len(),
    ensures
        rules_text(nc, s.take(i + 1)) == rules_text(nc, s.take(i)) + rule_text(nc, s[i]),
{
    let single = seq![s[i]];
    assert(s.take(i + 1) =~= s.take(i) + single);
    lemma_rules_text_concat(nc, s.take(i), single);
    assert(single.drop_first() =~= Seq::<FirewallRule>::empty());
    reveal_with_fuel(rules_text, 3);
    assert(rules_text(nc, single) =~= rule_text(nc, s[i]));
}

/// Write the preamble to `dest`.
fn write_header(old_chain: &str, new_chain: &str, dest: &mut String)
    ensures
        final(dest)@ == old(dest)@ + header_text(old_chain@, new_chain@),
{
    dest.append("\nset -e\nset -x\nif iptables -L ");
    dest.append(old_chain);
    dest.append(" >/dev/null 2>&1; then\n    iptables -D FORWARD -j ");
    dest.append(old_chain);
    dest.append(" || true\n    iptables -F ");
    dest.append(old_chain);
    dest.append("\n    iptables -X ");
    dest.append(old_chain);
    dest.append("\nfi\nif iptables -L ");
    dest.append(new_chain);
    dest.append(" >/dev/null 2>&1; then\n    iptables -E ");
    dest.append(new_chain);
    dest.append(" ");
    dest.append(old_chain);
    dest.append("\nfi\niptables -N ");
    dest.append(new_chain);
    dest.append("\n");
    proof {
        assert(dest@ =~= old(dest)@ + header_text(old_chain@, new_chain@));
    }
}

/// Write the postamble to `dest`.
fn write_footer(new_chain: &str, old_chain: &str, dest: &mut String)
    ensures
        final(dest)@ == old(dest)@ + footer_text(new_chain@, old_chain@),
{
    dest.append("\niptables -I FORWARD 1 -j ");
    dest.append(new_chain);
    dest.append("\nif iptables -L ");
    dest.append(old_chain);
    dest.append(" >/dev/null 2>&1; then\n    iptables -D FORWARD -j ");
    dest.append(old_chain);
    dest.append("\n    iptables -F ");
    dest.append(old_chain);
    dest.append("\n    iptables -X ");
    dest.append(old_chain);
    dest.append("\nfi\n");
    proof {
        assert(dest@ =~= old(dest)@ + footer_text(new_chain@, old_chain@));
    }
}

/// Write the exit-interface rules to `dest`.
fn write_exit_rules(new_chain: &str, exit_interfaces: &Vec<String>, dest: &mut String)
    ensures
        final(dest)@ == old(dest)@ + rules_text(
            new_chain@,
            exit_rules(views_of(exit_interfaces@)),
        ),
{
    let ghost nc = new_chain@;
    let ghost exits = views_of(exit_interfaces@);
    let mut i: usize = 0;
    proof {
        assert(rules_text(nc, exit_rules(exits).take(0)) =~= Seq::<char>::empty());
        assert(dest@ =~= old(dest)@ + rules_text(nc, exit_rules(exits).take(0)));
    }
    while i < exit_interfaces.len()
        invariant
            i <= exit_interfaces.len(),
            exits == views_of(exit_interfaces@),
            nc == new_chain@,
            dest@ == old(dest)@ + rules_text(nc, exit_rules(exits).take(i as int)),
        decreases exit_interfaces.len() - i,
    {
        dest.append("iptables -A ");
        dest.append(new_chain);
        dest.append(" -i ");
        dest.append(exit_interfaces[i].as_str());
        dest.append(" -j ACCEPT\n");
        proof {
            lemma_rules_text_take_succ(nc, exit_rules(exits), i as int);
            assert(exit_rules(exits)[i as int] == (FirewallRule::Exit {
                interface: exits[i as int],
            }));
            assert(dest@ =~= old(dest)@ + rules_text(nc, exit_rules(exits).take(i as int + 1)));
        }
        i = i + 1;
    }
    proof {
        assert(exit_rules(exits).take(exits.len() as int) =~= exit_rules(exits));
    }
}

/// Write the rules of the open devices to `dest`.
fn write_open_rules(
    new_chain: &str,
    entries: &Vec<ScheduleEntry<Device>>,
    override_entry: &Option<ScheduleEntry<DeviceOverride>>,
    dest: &mut String,
)
    ensures
        final(dest)@ == old(dest)@ + rules_text(
            new_chain@,
            open_rules(views_of(entries@), override_view(*override_entry)),
        ),
{
    let ghost nc = new_chain@;
    let ghost ov = override_view(*override_entry);
    let ghost orules = open_rules(views_of(entries@), ov);
    let mut j: usize = 0;
    proof {
        assert(rules_text(nc, orules.take(0)) =~= Seq::<char>::empty());
        assert(dest@ =~= old(dest)@ + rules_text(nc, orules.take(0)));
    }
    while j < entries.len()
        invariant
            j <= entries.len(),
            nc == new_chain@,
            ov == override_view(*override_entry),
            orules == open_rules(views_of(entries@), ov),
            dest@ == old(dest)@ + rules_text(nc, orules.take(j as int)),
        decreases entries.len() - j,
    {
        let action = action_with_override(override_entry, Action::Accept);
        let word = action.script();
        dest.append("iptables -A ");
        dest.append(new_chain);
        dest.append(" -m mac --mac-source ");
        dest.append(entries[j].item.mac.as_str());
        dest.append(" -j ");
        dest.append(word);
        dest.append("\n");
        proof {
            lemma_rules_text_take_succ(nc, orules, j as int);
            assert(orules[j as int] == (FirewallRule::Mac {
                mac: views_of(entries@)[j as int].item.mac,
                action: spec_action_with_override(ov, Action::Accept),
            }));
            assert(dest@ =~= old(dest)@ + rules_text(nc, orules.take(j as int + 1)));
        }
        j = j + 1;
    }
    proof {
        assert(orules.take(orules.len() as int) =~= orules);
    }
}

/// Write the rules of the closed devices to `dest`.
fn write_closed_rules(
    new_chain: &str,
    devs: &Vec<Device>,
    override_entry: &Option<ScheduleEntry<DeviceOverride>>,
    dest: &mut String,
)
    ensures
        final(dest)@ == old(dest)@ + rules_text(
            new_chain@,
            closed_rules(views_of(devs@), override_view(*override_entry)),
        ),
{
    let ghost nc = new_chain@;
    let ghost ov = override_view(*override_entry);
    let ghost crules = closed_rules(views_of(devs@), ov);
    let mut p: usize = 0;
    proof {
        assert(rules_text(nc, crules.take(0)) =~= Seq::<char>::empty());
        assert(dest@ =~= old(dest)@ + rules_text(nc, crules.take(0)));
    }
    while p < devs.len()
        invariant
            p <= devs.len(),
            nc == new_chain@,
            ov == override_view(*override_entry),
            crules == closed_rules(views_of(devs@), ov),
            dest@ == old(dest)@ + rules_text(nc, crules.take(p as int)),
        decreases devs.len() - p,
    {
        let action = action_with_override(override_entry, Action::Drop);
        let word = action.script();
        dest.append("iptables -A ");
        dest.append(new_chain);
        dest.append(" -m mac --mac-source ");
        dest.append(devs[p].mac.as_str());
        dest.append(" -j ");
        dest.append(word);
        dest.append("\n");
        proof {
            lemma_rules_text_take_succ(nc, crules, p as int);
            assert(crules[p as int] == (FirewallRule::Mac {
                mac: views_of(devs@)[p as int].mac,
                action: spec_action_with_override(ov, Action::Drop),
            }));
            assert(dest@ =~= old(dest)@ + rules_text(nc, crules.take(p as int + 1)));
        }
        p = p + 1;
    }
    proof {
        assert(crules.take(crules.len() as int) =~= crules);
    }
}

/// Write the optional trailing deny-all to `dest`.
fn write_guest_rules(new_chain: &str, guest_entry: &ScheduleEntry<GuestPath>, dest: &mut String)
    ensures
        final(dest)@ == old(dest)@ + rules_text(new_chain@, guest_rules(guest_entry@)),
{
    let ghost nc = new_chain@;
    let ghost grules = guest_rules(guest_entry@);
    if guest_entry.item == GuestPath::Closed {
        dest.append("iptables -A ");
        dest.append(new_chain);
        dest.append(" -j DROP\n");
        proof {
            assert(grules =~= seq![FirewallRule::DropAll]);
            assert(grules.drop_first() =~= Seq::<FirewallRule>::empty());
            reveal_with_fuel(rules_text, 3);
            assert(rules_text(nc, grules) =~= rule_text(nc, FirewallRule::DropAll));
            assert(dest@ =~= old(dest)@ + rules_text(nc, grules));
        }
    } else {
        proof {
            assert(rules_text(nc, grules) =~= Seq::<char>::empty());
            assert(dest@ =~= old(dest)@ + rules_text(nc, grules));
        }
    }
}

/// Render the world into the script that replaces the chain `old_chain`
/// by a freshly built chain `new_chain`, appending to `dest`.
pub fn write_script(
    world: &World,
    old_chain: &str,
    new_chain: &str,
    exit_interfaces: &Vec<String>,
    dest: &mut String,
)
    ensures
        final(dest)@ == old(dest)@ + script_text(
            world@,
            old_chain@,
            new_chain@,
            views_of(exit_interfaces@),
        ),
{
    let ghost w = world@;
    let ghost oc = old_chain@;
    let ghost nc = new_chain@;
    let ghost exits = views_of(exit_interfaces@);
    let ghost base = dest@;

    write_header(old_chain, new_chain, dest);
    write_exit_rules(new_chain, exit_interfaces, dest);
    write_open_rules(
        new_chain,
        &world.schedule.open_device_entries,
        &world.schedule.override_entry,
        dest,
    );
    write_closed_rules(new_chain, &world.closed_devices, &world.schedule.override_entry, dest);
    write_guest_rules(new_chain, &world.schedule.guest_entry, dest);
    write_footer(new_chain, old_chain, dest);

    proof {
        let orules = open_rules(w.schedule.open_device_entries, w.schedule.override_entry);
        let crules = closed_rules(w.closed_devices, w.schedule.override_entry);
        let grules = guest_rules(w.schedule.guest_entry);
        lemma_rules_text_concat(nc, exit_rules(exits), orules);
        lemma_rules_text_concat(nc, exit_rules(exits) + orules, crules);
        lemma_rules_text_concat(nc, exit_rules(exits) + orules + crules, grules);
        assert(exit_rules(exits) + orules + crules + grules =~= compiled_rules(w, exits));
        assert(dest@ =~= base + script_text(w, oc, nc, exits));
    }
}

/// Policy compilation precedence: the override's verdict dominates
/// every device's own; exit-interface rules stand before every address
/// rule; a closed guest path yields exactly one trailing deny-all and
/// an open one yields none.
pub proof fn lemma_policy_precedence(w: WorldView, exits: Seq<Seq<char>>)
    ensures
        ({
            let rules = compiled_rules(w, exits);
            let n0 = exits.len() as int;
            let n1 = w.schedule.open_device_entries.len() as int;
            let n2 = w.closed_devices.len() as int;
            &&& rules.len() == n0 + n1 + n2 + guest_rules(w.schedule.guest_entry).len()
            &&& forall|i: int|
                0 <= i < n0 ==> rules[i] == (FirewallRule::Exit { interface: exits[i] })
            &&& forall|i: int|
                0 <= i < n1 ==> rules[n0 + i] == (FirewallRule::Mac {
                    mac: w.schedule.open_device_entries[i].item.mac,
                    action: spec_action_with_override(w.schedule.override_entry, Action::Accept),
                })
            &&& forall|i: int|
                0 <= i < n2 ==> rules[n0 + n1 + i] == (FirewallRule::Mac {
                    mac: w.closed_devices[i].mac,
                    action: spec_action_with_override(w.schedule.override_entry, Action::Drop),
                })
            &&& (w.schedule.guest_entry.item == GuestPath::Closed ==> rules.len() == n0 + n1 + n2
                + 1 && rules[n0 + n1 + n2] == FirewallRule::DropAll)
            &&& (w.schedule.guest_entry.item == GuestPath::Open ==> rules.len() == n0 + n1 + n2
                && forall|i: int| 0 <= i < rules.len() ==> rules[i] != FirewallRule::DropAll)
        }),
        w.schedule.override_entry == Some(
            EntryView { item: DeviceOverride::Closed, time_bound: None::<i64> },
        ) || (w.schedule.override_entry matches Some(e) && e.item == DeviceOverride::Closed)
            ==> spec_action_with_override(w.schedule.override_entry, Action::Accept) == Action::Drop
            && spec_action_with_override(w.schedule.override_entry, Action::Drop) == Action::Drop,
        (w.schedule.override_entry matches Some(e) && e.item == DeviceOverride::Open)
            ==> spec_action_with_override(w.schedule.override_entry, Action::Accept)
            == Action::Accept && spec_action_with_override(w.schedule.override_entry, Action::Drop)
            == Action::Accept,
        w.schedule.override_entry is None ==> spec_action_with_override(
            w.schedule.override_entry,
            Action::Accept,
        ) == Action::Accept && spec_action_with_override(w.schedule.override_entry, Action::Drop)
            == Action::Drop,
{
    let rules = compiled_rules(w, exits);
    let n0 = exits.len() as int;
    let n1 = w.schedule.open_device_entries.len() as int;
    let n2 = w.closed_devices.len() as int;
    assert forall|i: int| 0 <= i < rules.len() implies rules[i] == (if i < n0 {
        exit_rules(exits)[i]
    } else if i < n0 + n1 {
        open_rules(w.schedule.open_device_entries, w.schedule.override_entry)[i - n0]
    } else if i < n0 + n1 + n2 {
        closed_rules(w.closed_devices, w.schedule.override_entry)[i - n0 - n1]
    } else {
        guest_rules(w.schedule.guest_entry)[i - n0 - n1 - n2]
    }) by {}
    if w.schedule.guest_entry.item == GuestPath::Open {
        assert forall|i: int| 0 <= i < rules.len() implies rules[i] != FirewallRule::DropAll by {}
    }
}

/// A sink for the rendered script text.
pub trait HandleScript {
    /// Consume one rendered script.
    fn handle(&self, script: &str) -> Result<(), ErrorKind>;
}

/// Which sink the program uses for rendered scripts: print them for a
/// dry run, or run them.
#[derive(Debug, PartialEq, Eq)]
pub enum ScriptHandler {
    PrintScript,
    RunScript,
}

} // verus!
