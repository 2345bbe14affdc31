use vstd::prelude::*;

use crate::expr::{lemma_name_len_bound, name_len};
use crate::store::StateStore;
use crate::expr::scan_name_len;
use crate::text::{chars_to_string, str_to_chars, subrange_vec};
use crate::values::{spec_render, AbstractValue};

verus! {

/// The action template with every `$:name` placeholder replaced by the
/// textual literal value of `name` in the state; `None` when a placeholder
/// names an absent key. `$:` not followed by a name character is copied
/// through unchanged.
pub open spec fn spec_interp(t: Seq<char>, st: Map<Seq<char>, AbstractValue>) -> Option<
    Seq<char>,
>
    decreases t.len(),
    via spec_interp_dec
{
    if t.len() == 0 {
        Some(Seq::empty())
    } else if t.len() >= 2 && t[0] == '$' && t[1] == ':' && name_len(t.skip(2)) > 0 {
        let nl = name_len(t.skip(2));
        let nm = t.subrange(2, 2 + nl);
        if st.dom().contains(nm) {
            match spec_interp(t.skip(2 + nl), st) {
                Some(rest) => Some(spec_render(st[nm]) + rest),
                None => None,
            }
        } else {
            None
        }
    } else {
        match spec_interp(t.skip(1), st) {
            Some(rest) => Some(seq![t[0]] + rest),
            None => None,
        }
    }
}

#[via_fn]
proof fn spec_interp_dec(t: Seq<char>, st: Map<Seq<char>, AbstractValue>) {
    if t.len() >= 2 && t[0] == '$' && t[1] == ':' {
        lemma_name_len_bound(t.skip(2));
    }
}

/// Interpolates an action template against the current state; agrees
/// exactly with `spec_interp`. The error carries the first missing key.
pub fn interpolate(command: &String, state: &StateStore) -> (r: Result<String, String>)
    requires
        state.wf(),
    ensures
        match r {
            Ok(out) => spec_interp(command@, state@) == Some(out@),
            Err(_) => spec_interp(command@, state@) is None,
        },
{
    let t = str_to_chars(command.as_str());
    let n = t.len();
    let mut out: Vec<char> = Vec::new();
    let mut i: usize = 0;
    proof {
        assert(t@.skip(0) =~= t@);
        assert(out@ =~= Seq::<char>::empty());
    }
    while i < n
        invariant
            i <= n,
            n == t@.len(),
            t@ == command@,
            state.wf(),
            spec_interp(command@, state@) == (match spec_interp(t@.skip(i as int), state@) {
                Some(rest) => Some(out@ + rest),
                None => None::<Seq<char>>,
            }),
        decreases n - i,
    {
        let ghost s = t@.skip(i as int);
        proof {
            assert(s[0] == t@[i as int]);
            if i + 1 <= n {
                assert(s.skip(1) =~= t@.skip(i + 1));
            }
            if i + 2 <= n {
                assert(s.skip(2) =~= t@.skip(i + 2));
            }
        }
        let c = t[i];
        let mut plain = true;
        if c == '$' && i + 1 < n && t[i + 1] == ':' {
            proof {
                assert(s[1] == t@[i + 1]);
            }
            let nl = scan_name_len(&t, i + 2);
            if nl > 0 {
                plain = false;
                let nm_chars = subrange_vec(&t, i + 2, i + 2 + nl);
                proof {
                    assert(nm_chars@ =~= s.subrange(2, 2 + nl));
                }
                let nm = chars_to_string(&nm_chars);
                let ghost out_pre = out@;
                match state.get(&nm) {
                    Some(v) => {
                        let rendered = crate::values::render_chars(v);
                        crate::text::append_chars(&mut out, &rendered);
                        proof {
                            assert(t@.skip(i + 2 + nl) =~= s.skip(2 + nl));
                        }
                        i = i + 2 + nl;
                        proof {
                            match spec_interp(t@.skip(i as int), state@) {
                                Some(rest) => {
                                    assert((out_pre + rendered@) + rest =~= out_pre + (
                                    rendered@ + rest));
                                },
                                None => {},
                            }
                        }
                    },
                    None => {
                        let msg = nm.concat(" : No such variable!!!");
                        return Err(msg);
                    },
                }
            }
        }
        if plain {
            let ghost out_pre = out@;
            out.push(c);
            i = i + 1;
            proof {
                match spec_interp(t@.skip(i as int), state@) {
                    Some(rest) => {
                        assert(out_pre.push(c) + rest =~= out_pre + (seq![c] + rest));
                    },
                    None => {},
                }
            }
        }
    }
    proof {
        assert(t@.skip(n as int).len() == 0);
        assert(spec_interp(t@.skip(n as int), state@) == Some(Seq::<char>::empty()));
        assert(out@ + Seq::<char>::empty() =~= out@);
    }
    let result = chars_to_string(&out);
    Ok(result)
}

} // verus!
