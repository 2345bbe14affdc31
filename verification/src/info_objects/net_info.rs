use vstd::prelude::*;

use crate::expr::vec_contains_string;
use crate::text::{chars_contains, spec_contains, spec_to_lower, str_to_chars, to_lower_chars};
use crate::values::SystemStateVar;

verus! {

/// Network-interface state: every interface, the interfaces that are up,
/// and the interface whose up/down state changed last.
pub struct NetInfo {
    pub interfaces: Vec<String>,
    pub up_interfaces: Vec<String>,
    pub last_updated_interface: String,
}

pub open spec fn up_seq() -> Seq<char> {
    seq!['u', 'p']
}

/// An interface counts as up when its operational-state text, lower-cased,
/// contains `up`.
pub open spec fn spec_if_up(status: Seq<char>) -> bool {
    spec_contains(spec_to_lower(status), up_seq())
}

/// The names of the up interfaces, in input order.
pub open spec fn up_list(es: Seq<(String, String)>) -> Seq<Seq<char>>
    decreases es.len(),
{
    if es.len() == 0 {
        Seq::empty()
    } else {
        up_list(es.drop_last()) + (if spec_if_up(es.last().1@) {
            seq![es.last().0@]
        } else {
            Seq::empty()
        })
    }
}

/// The first name of `a` that does not occur in `b`.
pub open spec fn first_missing(a: Seq<Seq<char>>, b: Seq<Seq<char>>) -> Option<Seq<char>>
    decreases a.len(),
{
    if a.len() == 0 {
        None
    } else if !b.contains(a[0]) {
        Some(a[0])
    } else {
        first_missing(a.skip(1), b)
    }
}

fn first_missing_from(a: &Vec<String>, i: usize, b: &Vec<String>) -> (r: Option<String>)
    requires
        i <= a@.len(),
    ensures
        match r {
            Some(s) => first_missing(a.deep_view().skip(i as int), b.deep_view()) == Some(s@),
            None => first_missing(a.deep_view().skip(i as int), b.deep_view()) is None,
        },
    decreases a@.len() - i,
{
    proof {
        assert(a.deep_view().skip(i as int).len() == a@.len() - i);
    }
    if i == a.len() {
        None
    } else {
        proof {
            assert(a.deep_view().skip(i as int)[0] == a.deep_view()[i as int]);
            assert(a.deep_view()[i as int] == a@[i as int]@);
            assert(a.deep_view().skip(i as int).skip(1) =~= a.deep_view().skip(i + 1));
        }
        if !vec_contains_string(b, &a[i]) {
            Some(a[i].clone())
        } else {
            first_missing_from(a, i + 1, b)
        }
    }
}

impl NetInfo {
    /// A fresh provider state with no interfaces known.
    pub fn new_refcell() -> (r: NetInfo)
        ensures
            r.interfaces@.len() == 0,
            r.up_interfaces@.len() == 0,
            r.last_updated_interface@ == Seq::<char>::empty(),
    {
        NetInfo {
            interfaces: Vec::new(),
            up_interfaces: Vec::new(),
            last_updated_interface: String::new(),
        }
    }

    /// Interprets one entry per interface — its name and the contents of
    /// its operational-state file. The interface and up-interface lists
    /// are rebuilt; when the number of up interfaces changed, the last
    /// updated interface becomes the first name present in exactly one
    /// of the old and new up lists.
    pub fn update_self(&mut self, entries: &Vec<(String, String)>)
        ensures
            final(self).interfaces.deep_view() == entries@.map_values(
                |p: (String, String)| p.0@,
            ),
            final(self).up_interfaces.deep_view() == up_list(entries@),
            ({
                let olds = old(self).up_interfaces.deep_view();
                let ups = up_list(entries@);
                &&& (ups.len() < olds.len() ==> final(self).last_updated_interface@ == (
                match first_missing(olds, ups) {
                    Some(k) => k,
                    None => old(self).last_updated_interface@,
                }))
                &&& (ups.len() > olds.len() ==> final(self).last_updated_interface@ == (
                match first_missing(ups, olds) {
                    Some(k) => k,
                    None => old(self).last_updated_interface@,
                }))
                &&& (ups.len() == olds.len() ==> final(self).last_updated_interface == old(
                    self,
                ).last_updated_interface)
            }),
    {
        let ghost evs = entries@;
        let mut up_int: Vec<String> = Vec::new();
        let mut int_names: Vec<String> = Vec::new();
        let mut up_pat: Vec<char> = Vec::new();
        up_pat.push('u');
        up_pat.push('p');
        proof {
            assert(up_pat@ =~= up_seq());
            assert(up_list(evs.take(0)) =~= Seq::<Seq<char>>::empty());
            assert(up_int.deep_view() =~~= Seq::<Seq<char>>::empty());
            assert(int_names.deep_view() =~~= Seq::<Seq<char>>::empty());
            assert(evs.take(0).map_values(|p: (String, String)| p.0@)
                =~= Seq::<Seq<char>>::empty());
        }
        let n = entries.len();
        let mut i: usize = 0;
        while i < n
            invariant
                i <= n,
                n == evs.len(),
                evs == entries@,
                up_pat@ == up_seq(),
                up_int.deep_view() == up_list(evs.take(i as int)),
                int_names.deep_view() == evs.take(i as int).map_values(
                    |p: (String, String)| p.0@,
                ),
            decreases n - i,
        {
            proof {
                assert(evs.take(i + 1).drop_last() =~= evs.take(i as int));
                assert(evs.take(i + 1).last() == evs[i as int]);
            }
            let ghost names_pre = int_names.deep_view();
            int_names.push(entries[i].0.clone());
            proof {
                assert(int_names.deep_view() =~~= names_pre.push(evs[i as int].0@));
                assert(evs.take(i + 1).map_values(|p: (String, String)| p.0@) =~= evs.take(
                    i as int,
                ).map_values(|p: (String, String)| p.0@).push(evs[i as int].0@));
            }
            let status_chars = str_to_chars(entries[i].1.as_str());
            let lowered = to_lower_chars(&status_chars);
            let ghost ups_pre = up_int.deep_view();
            if chars_contains(&lowered, &up_pat) {
                up_int.push(entries[i].0.clone());
                proof {
                    assert(up_int.deep_view() =~~= ups_pre.push(evs[i as int].0@));
                    assert(up_list(evs.take(i + 1)) =~= ups_pre.push(evs[i as int].0@));
                }
            } else {
                proof {
                    assert(up_list(evs.take(i + 1)) =~= ups_pre);
                }
            }
            i = i + 1;
        }
        proof {
            assert(evs.take(n as int) =~= evs);
        }
        if up_int.len() < self.up_interfaces.len() {
            match first_missing_from(&self.up_interfaces, 0, &up_int) {
                Some(name) => {
                    proof {
                        assert(self.up_interfaces.deep_view().skip(0)
                            =~= self.up_interfaces.deep_view());
                    }
                    self.last_updated_interface = name;
                },
                None => {
                    proof {
                        assert(self.up_interfaces.deep_view().skip(0)
                            =~= self.up_interfaces.deep_view());
                    }
                },
            }
        } else if up_int.len() > self.up_interfaces.len() {
            match first_missing_from(&up_int, 0, &self.up_interfaces) {
                Some(name) => {
                    proof {
                        assert(up_int.deep_view().skip(0) =~= up_int.deep_view());
                    }
                    self.last_updated_interface = name;
                },
                None => {
                    proof {
                        assert(up_int.deep_view().skip(0) =~= up_int.deep_view());
                    }
                },
            }
        }
        self.up_interfaces = up_int;
        self.interfaces = int_names;
    }

    /// The snapshot this provider contributes: the number of up
    /// interfaces and the last updated interface's name.
    pub fn get_info(&self) -> (r: Vec<(String, SystemStateVar)>)
        requires
            self.up_interfaces@.len() <= i64::MAX,
        ensures
            r@.len() == 2,
            r@[0].0@ == "num_up_interfaces"@,
            r@[0].1@ == crate::values::AbstractValue::Int(self.up_interfaces@.len() as int),
            r@[1].0@ == "last_updated_interface"@,
            r@[1].1@ == crate::values::AbstractValue::Str(self.last_updated_interface@),
    {
        let mut r: Vec<(String, SystemStateVar)> = Vec::new();
        let count = self.up_interfaces.len();
        r.push((String::from_str("num_up_interfaces"), SystemStateVar::Int(count as i64)));
        r.push(
            (
                String::from_str("last_updated_interface"),
                SystemStateVar::Str(self.last_updated_interface.clone()),
            ),
        );
        r
    }

    /// This provider's diagnostic name.
    pub fn get_name(&self) -> (r: String)
        ensures
            r@ == "NetInfo"@,
    {
        String::from_str("NetInfo")
    }
}

} // verus!
