use vstd::prelude::*;

use crate::info_objects::conn_map::{
    apply_statuses, connect_scan, count_true, disconnect_scan, lemma_apply_statuses_len,
    map_apply_statuses, map_clone, pairs_view, parse_statuses, run_connect_scan,
    run_disconnect_scan, statuses_of, count_connected,
};
use crate::text::spec_lines;
use crate::values::SystemStateVar;

verus! {

/// Monitor connection state, parsed from the display query tool's
/// textual output.
pub struct MonitorInfo {
    pub monitors_plugged_in: Vec<(String, bool)>,
    pub num_monitors_connected: i64,
    pub last_monitor_changed: String,
    pub last_action_was_connect: bool,
}

impl MonitorInfo {
    /// A fresh provider state with no monitors known.
    pub fn new_refcell() -> (r: MonitorInfo)
        ensures
            r.monitors_plugged_in@.len() == 0,
            r.num_monitors_connected == 0,
            r.last_monitor_changed@ == Seq::<char>::empty(),
            r.last_action_was_connect == false,
    {
        MonitorInfo {
            monitors_plugged_in: Vec::new(),
            last_action_was_connect: false,
            last_monitor_changed: String::new(),
            num_monitors_connected: 0,
        }
    }

    /// Interprets the query output: each reported status overwrites the
    /// monitor's entry; the connected count is recomputed; when it grew,
    /// the last changed monitor is the first one newly connected, and
    /// when it shrank, the first one newly disconnected.
    pub fn update_self(&mut self, output: &str)
        requires
            old(self).monitors_plugged_in@.len() + statuses_of(spec_lines(output@)).len()
                <= i64::MAX,
        ensures
            ({
                let sts = statuses_of(spec_lines(output@));
                let oldpv = pairs_view(old(self).monitors_plugged_in@);
                let newpv = apply_statuses(oldpv, sts);
                &&& pairs_view(final(self).monitors_plugged_in@) == newpv
                &&& final(self).num_monitors_connected == count_true(newpv)
                &&& (count_true(oldpv) < count_true(newpv) ==> final(self)
                    .last_action_was_connect == true && final(self).last_monitor_changed@ == (
                match connect_scan(oldpv, newpv) {
                    Some(k) => k,
                    None => old(self).last_monitor_changed@,
                }))
                &&& (count_true(oldpv) > count_true(newpv) ==> final(self)
                    .last_action_was_connect == false && final(self).last_monitor_changed@ == (
                match disconnect_scan(newpv, oldpv) {
                    Some(k) => k,
                    None => old(self).last_monitor_changed@,
                }))
                &&& (count_true(oldpv) == count_true(newpv) ==> final(self)
                    .last_action_was_connect == old(self).last_action_was_connect && final(self)
                    .last_monitor_changed == old(self).last_monitor_changed)
            }),
    {
        let last_conns = map_clone(&self.monitors_plugged_in);
        let statuses = parse_statuses(output);
        proof {
            lemma_apply_statuses_len(
                pairs_view(self.monitors_plugged_in@),
                pairs_view(statuses@),
            );
        }
        map_apply_statuses(&mut self.monitors_plugged_in, &statuses);
        let conn = count_connected(&self.monitors_plugged_in);
        let conn_previous = count_connected(&last_conns);
        self.num_monitors_connected = conn as i64;
        if conn_previous < conn {
            self.last_action_was_connect = true;
            match run_connect_scan(&last_conns, &self.monitors_plugged_in) {
                Some(k) => {
                    self.last_monitor_changed = k;
                },
                None => {},
            }
        } else if conn_previous > conn {
            self.last_action_was_connect = false;
            match run_disconnect_scan(&self.monitors_plugged_in, &last_conns) {
                Some(k) => {
                    self.last_monitor_changed = k;
                },
                None => {},
            }
        }
    }

    /// The snapshot this provider contributes: one boolean key per
    /// monitor, the connected count, whether the last change was a
    /// connect, and the last changed monitor's name.
    pub fn get_info(&self) -> (r: Vec<(String, SystemStateVar)>)
        ensures
            r@.len() == self.monitors_plugged_in@.len() + 3,
            forall|i: int|
                0 <= i < self.monitors_plugged_in@.len() ==> (#[trigger] r@[i]).0@
                    == self.monitors_plugged_in@[i].0@ + "_connected"@ && r@[i].1@
                    == crate::values::AbstractValue::Bool(self.monitors_plugged_in@[i].1),
            r@[self.monitors_plugged_in@.len() as int].0@ == "num_monitors_plugged_in"@,
            r@[self.monitors_plugged_in@.len() as int].1@ == crate::values::AbstractValue::Int(
                self.num_monitors_connected as int,
            ),
            r@[self.monitors_plugged_in@.len() as int + 1].0@ == "last_action_was_connect"@,
            r@[self.monitors_plugged_in@.len() as int + 1].1@ == crate::values::AbstractValue::Bool(
                self.last_action_was_connect,
            ),
            r@[self.monitors_plugged_in@.len() as int + 2].0@ == "last_monitor_changed"@,
            r@[self.monitors_plugged_in@.len() as int + 2].1@ == crate::values::AbstractValue::Str(
                self.last_monitor_changed@,
            ),
    {
        let mut r: Vec<(String, SystemStateVar)> = Vec::new();
        let n = self.monitors_plugged_in.len();
        let mut i: usize = 0;
        while i < n
            invariant
                i <= n,
                n == self.monitors_plugged_in@.len(),
                r@.len() == i,
                forall|j: int|
                    0 <= j < i ==> (#[trigger] r@[j]).0@ == self.monitors_plugged_in@[j].0@
                        + "_connected"@ && r@[j].1@ == crate::values::AbstractValue::Bool(
                        self.monitors_plugged_in@[j].1,
                    ),
            decreases n - i,
        {
            let key = self.monitors_plugged_in[i].0.clone().concat("_connected");
            r.push((key, SystemStateVar::Bool(self.monitors_plugged_in[i].1)));
            i = i + 1;
        }
        r.push(
            (
                String::from_str("num_monitors_plugged_in"),
                SystemStateVar::Int(self.num_monitors_connected),
            ),
        );
        r.push(
            (
                String::from_str("last_action_was_connect"),
                SystemStateVar::Bool(self.last_action_was_connect),
            ),
        );
        r.push(
            (
                String::from_str("last_monitor_changed"),
                SystemStateVar::Str(self.last_monitor_changed.clone()),
            ),
        );
        r
    }

    /// This provider's diagnostic name.
    pub fn get_name(&self) -> (r: String)
        ensures
            r@ == "MonitorInfo"@,
    {
        String::from_str("MonitorInfo")
    }
}

} // verus!
