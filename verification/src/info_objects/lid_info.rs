use vstd::prelude::*;

use crate::text::{spec_split_ws, split_ws, str_to_chars};
use crate::values::SystemStateVar;

verus! {

/// Laptop-lid state, as read from the kernel's lid state file.
pub struct LidInfo {
    pub lid_open: bool,
}

/// The lid counts as open when the last whitespace-separated token of
/// the state file reads exactly `open`.
pub open spec fn spec_lid_open(s: Seq<char>) -> bool {
    let toks = spec_split_ws(s);
    toks.len() > 0 && toks.last() == seq!['o', 'p', 'e', 'n']
}

impl LidInfo {
    /// A fresh provider state; the lid starts as open.
    pub fn new_refcell() -> (r: LidInfo)
        ensures
            r.lid_open == true,
    {
        LidInfo { lid_open: true }
    }

    /// Interprets the lid state file's contents; see `spec_lid_open`.
    pub fn update_self(&mut self, contents: &str)
        ensures
            final(self).lid_open == spec_lid_open(contents@),
    {
        let chars = str_to_chars(contents);
        let toks = split_ws(&chars);
        if toks.len() == 0 {
            self.lid_open = false;
        } else {
            let last = &toks[toks.len() - 1];
            let is_open = last.len() == 4 && last[0] == 'o' && last[1] == 'p' && last[2] == 'e'
                && last[3] == 'n';
            proof {
                let tv = spec_split_ws(contents@);
                assert(toks.deep_view()[toks@.len() - 1] == toks@[toks@.len() - 1]@);
                assert(tv.last() == toks@[toks@.len() - 1]@);
                assert(is_open == (toks@[toks@.len() - 1]@ =~= seq!['o', 'p', 'e', 'n']));
            }
            self.lid_open = is_open;
        }
    }

    /// The snapshot this provider contributes: one boolean key.
    pub fn get_info(&self) -> (r: Vec<(String, SystemStateVar)>)
        ensures
            r@.len() == 1,
            r@[0].0@ == "lid_open"@,
            r@[0].1@ == crate::values::AbstractValue::Bool(self.lid_open),
    {
        let mut r: Vec<(String, SystemStateVar)> = Vec::new();
        r.push((String::from_str("lid_open"), SystemStateVar::Bool(self.lid_open)));
        r
    }

    /// This provider's diagnostic name.
    pub fn get_name(&self) -> (r: String)
        ensures
            r@ == "LidInfo"@,
    {
        String::from_str("LidInfo")
    }

    /// The keys this provider can supply.
    pub fn get_provided_vars(&self) -> (r: Vec<String>)
        ensures
            r@.len() == 1,
            r@[0]@ == "lid_open"@,
    {
        let mut r: Vec<String> = Vec::new();
        r.push(String::from_str("lid_open"));
        r
    }
}

} // verus!
