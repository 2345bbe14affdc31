use vstd::prelude::*;

use crate::info_objects::conn_map::{
    apply_statuses, connect_scan, count_true, disconnect_scan, lemma_apply_statuses_len,
    map_apply_statuses, map_clone, pairs_view, parse_statuses, run_connect_scan,
    run_disconnect_scan, statuses_of, count_connected,
};
use crate::text::spec_lines;
use crate::values::SystemStateVar;

verus! {

/// Display connection state, parsed from the display query tool's
/// textual output.
pub struct MonitorInfo {
    pub displays_plugged_in: Vec<(String, bool)>,
    pub num_displays_connected: i64,
    pub last_display_changed: String,
    pub last_action_was_connect: bool,
}

impl MonitorInfo {
    /// A fresh provider state with no displays known.
    pub fn new_refcell() -> (r: MonitorInfo)
        ensures
            r.displays_plugged_in@.len() == 0,
            r.num_displays_connected == 0,
            r.last_display_changed@ == Seq::<char>::empty(),
            r.last_action_was_connect == false,
    {
        MonitorInfo {
            displays_plugged_in: Vec::new(),
            last_action_was_connect: false,
            last_display_changed: String::new(),
            num_displays_connected: 0,
        }
    }

    /// Interprets the query output: each reported status overwrites the
    /// display's entry; the connected count is recomputed; when it grew,
    /// the last changed display is the first one newly connected, and
    /// when it shrank, the first one newly disconnected.
    pub fn update_self(&mut self, output: &str)
        requires
            old(self).displays_plugged_in@.len() + statuses_of(spec_lines(output@)).len()
                <= i64::MAX,
        ensures
            ({
                let sts = statuses_of(spec_lines(output@));
                let oldpv = pairs_view(old(self).displays_plugged_in@);
                let newpv = apply_statuses(oldpv, sts);
                &&& pairs_view(final(self).displays_plugged_in@) == newpv
                &&& final(self).num_displays_connected == count_true(newpv)
                &&& (count_true(oldpv) < count_true(newpv) ==> final(self)
                    .last_action_was_connect == true && final(self).last_display_changed@ == (
                match connect_scan(oldpv, newpv) {
                    Some(k) => k,
                    None => old(self).last_display_changed@,
                }))
                &&& (count_true(oldpv) > count_true(newpv) ==> final(self)
                    .last_action_was_connect == false && final(self).last_display_changed@ == (
                match disconnect_scan(newpv, oldpv) {
                    Some(k) => k,
                    None => old(self).last_display_changed@,
                }))
                &&& (count_true(oldpv) == count_true(newpv) ==> final(self)
                    .last_action_was_connect == old(self).last_action_was_connect && final(self)
                    .last_display_changed == old(self).last_display_changed)
            }),
    {
        let last_conns = map_clone(&self.displays_plugged_in);
        let statuses = parse_statuses(output);
        proof {
            lemma_apply_statuses_len(
                pairs_view(self.displays_plugged_in@),
                pairs_view(statuses@),
            );
        }
        map_apply_statuses(&mut self.displays_plugged_in, &statuses);
        let conn = count_connected(&self.displays_plugged_in);
        let conn_previous = count_connected(&last_conns);
        self.num_displays_connected = conn as i64;
        if conn_previous < conn {
            self.last_action_was_connect = true;
            match run_connect_scan(&last_conns, &self.displays_plugged_in) {
                Some(k) => {
                    self.last_display_changed = k;
                },
                None => {},
            }
        } else if conn_previous > conn {
            self.last_action_was_connect = false;
            match run_disconnect_scan(&self.displays_plugged_in, &last_conns) {
                Some(k) => {
                    self.last_display_changed = k;
                },
                None => {},
            }
        }
    }

    /// The snapshot this provider contributes: one boolean key per
    /// display, the connected count, whether the last change was a
    /// connect, and the last changed display's name.
    pub fn get_info(&self) -> (r: Vec<(String, SystemStateVar)>)
        ensures
            r@.len() == self.displays_plugged_in@.len() + 3,
            forall|i: int|
                0 <= i < self.displays_plugged_in@.len() ==> (#[trigger] r@[i]).0@
                    == self.displays_plugged_in@[i].0@ + "_connected"@ && r@[i].1@
                    == crate::values::AbstractValue::Bool(self.displays_plugged_in@[i].1),
            r@[self.displays_plugged_in@.len() as int].0@ == "num_displays_plugged_in"@,
            r@[self.displays_plugged_in@.len() as int].1@ == crate::values::AbstractValue::Int(
                self.num_displays_connected as int,
            ),
            r@[self.displays_plugged_in@.len() as int + 1].0@ == "last_display_was_connected"@,
            r@[self.displays_plugged_in@.len() as int + 1].1@ == crate::values::AbstractValue::Bool(
                self.last_action_was_connect,
            ),
            r@[self.displays_plugged_in@.len() as int + 2].0@ == "last_display_changed"@,
            r@[self.displays_plugged_in@.len() as int + 2].1@ == crate::values::AbstractValue::Str(
                self.last_display_changed@,
            ),
    {
        let mut r: Vec<(String, SystemStateVar)> = Vec::new();
        let n = self.displays_plugged_in.len();
        let mut i: usize = 0;
        while i < n
            invariant
                i <= n,
                n == self.displays_plugged_in@.len(),
                r@.len() == i,
                forall|j: int|
                    0 <= j < i ==> (#[trigger] r@[j]).0@ == self.displays_plugged_in@[j].0@
                        + "_connected"@ && r@[j].1@ == crate::values::AbstractValue::Bool(
                        self.displays_plugged_in@[j].1,
                    ),
            decreases n - i,
        {
            let key = self.displays_plugged_in[i].0.clone().concat("_connected");
            r.push((key, SystemStateVar::Bool(self.displays_plugged_in[i].1)));
            i = i + 1;
        }
        r.push(
            (
                String::from_str("num_displays_plugged_in"),
                SystemStateVar::Int(self.num_displays_connected),
            ),
        );
        r.push(
            (
                String::from_str("last_display_was_connected"),
                SystemStateVar::Bool(self.last_action_was_connect),
            ),
        );
        r.push(
            (
                String::from_str("last_display_changed"),
                SystemStateVar::Str(self.last_display_changed.clone()),
            ),
        );
        r
    }

    /// This provider's diagnostic name.
    pub fn get_name(&self) -> (r: String)
        ensures
            r@ == "MonitorInfo"@,
    {
        String::from_str("MonitorInfo")
    }
}

} // verus!
