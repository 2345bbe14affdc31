use vstd::prelude::*;

use crate::info_objects::{spec_line_parts, InfoSubscriber, NEVER_NOTIFIED};
use crate::expr::spec_expr_of;
use crate::text::{chars_to_string, spec_contains, spec_lines, split_lines, str_to_chars};

verus! {

/// The rule separator, as characters.
pub open spec fn sep_seq() -> Seq<char> {
    seq!['=', '>']
}

/// The lines that hold a rule: those containing the separator, in order.
pub open spec fn rule_lines(ls: Seq<Seq<char>>) -> Seq<Seq<char>>
    decreases ls.len(),
{
    if ls.len() == 0 {
        Seq::empty()
    } else {
        rule_lines(ls.drop_last()) + (if spec_contains(ls.last(), sep_seq()) {
            seq![ls.last()]
        } else {
            Seq::empty()
        })
    }
}

/// A rule line is acceptable: it splits at `=>` and its dependency
/// text parses as a condition.
pub open spec fn line_ok(l: Seq<char>) -> bool {
    &&& spec_line_parts(l) is Some
    &&& (spec_line_parts(l) matches Some(lp) && spec_expr_of(lp.0) is Some)
}

/// The rule at `sub` is the one a given line denotes.
pub open spec fn sub_matches_line(sub: InfoSubscriber, l: Seq<char>) -> bool {
    spec_line_parts(l) matches Some(lp) && {
        &&& sub.wf()
        &&& sub.dependencies@ == lp.0
        &&& sub.command@ == lp.1
        &&& spec_expr_of(lp.0) == Some(sub.condition@)
        &&& sub.last_time_id == NEVER_NOTIFIED
    }
}

proof fn lemma_rule_lines_contains(ls: Seq<Seq<char>>, i: int)
    requires
        0 <= i < ls.len(),
        spec_contains(ls[i], sep_seq()),
    ensures
        rule_lines(ls).contains(ls[i]),
    decreases ls.len(),
{
    if i == ls.len() - 1 {
        assert(ls.last() == ls[i]);
        let r = rule_lines(ls);
        assert(r[rule_lines(ls.drop_last()).len() as int] == ls[i]);
    } else {
        assert(ls.drop_last()[i] == ls[i]);
        lemma_rule_lines_contains(ls.drop_last(), i);
        let pre = rule_lines(ls.drop_last());
        let j = choose|j: int| 0 <= j < pre.len() && pre[j] == ls[i];
        assert(rule_lines(ls)[j] == ls[i]);
    }
}

/// Builds one rule per configuration line that holds the `=>` separator,
/// in order; lines without the separator are ignored. Fails exactly when
/// some rule line is malformed (fatal at startup).
pub fn make_subs_from_config(contents: &str) -> (r: Result<Vec<InfoSubscriber>, String>)
    ensures
        match r {
            Ok(subs) => {
                &&& subs@.len() == rule_lines(spec_lines(contents@)).len()
                &&& forall|k: int|
                    0 <= k < subs@.len() ==> sub_matches_line(
                        #[trigger] subs@[k],
                        rule_lines(spec_lines(contents@))[k],
                    )
            },
            Err(_) => exists|k: int|
                0 <= k < rule_lines(spec_lines(contents@)).len() && !line_ok(
                    #[trigger] rule_lines(spec_lines(contents@))[k],
                ),
        },
{
    let chars = str_to_chars(contents);
    let lines = split_lines(&chars);
    let ghost lsv = spec_lines(contents@);
    proof {
        assert(lines.deep_view() == lsv);
    }
    let mut sep: Vec<char> = Vec::new();
    sep.push('=');
    sep.push('>');
    proof {
        assert(sep@ =~= sep_seq());
    }
    let mut subs: Vec<InfoSubscriber> = Vec::new();
    let n = lines.len();
    let mut i: usize = 0;
    proof {
        assert(lsv.take(0) =~= Seq::<Seq<char>>::empty());
    }
    while i < n
        invariant
            i <= n,
            n == lsv.len(),
            n == lines@.len(),
            lsv == spec_lines(contents@),
            lines.deep_view() == lsv,
            sep@ == sep_seq(),
            subs@.len() == rule_lines(lsv.take(i as int)).len(),
            forall|k: int|
                0 <= k < subs@.len() ==> sub_matches_line(
                    #[trigger] subs@[k],
                    rule_lines(lsv.take(i as int))[k],
                ),
        decreases n - i,
    {
        let ghost pre_rl = rule_lines(lsv.take(i as int));
        proof {
            assert(lines.deep_view()[i as int] == lines@[i as int].deep_view());
            assert(lines@[i as int]@ =~= lines@[i as int].deep_view());
            assert(lines@[i as int]@ == lsv[i as int]);
            assert(lsv.take(i + 1).drop_last() =~= lsv.take(i as int));
            assert(lsv.take(i + 1).last() == lsv[i as int]);
        }
        if crate::text::chars_contains(&lines[i], &sep) {
            let line_str = chars_to_string(&lines[i]);
            match InfoSubscriber::from_config_line(&line_str) {
                Ok(sub) => {
                    let ghost new_rl = rule_lines(lsv.take(i + 1));
                    proof {
                        assert(new_rl =~= pre_rl.push(lsv[i as int]));
                    }
                    subs.push(sub);
                    proof {
                        assert forall|k: int| 0 <= k < subs@.len() implies sub_matches_line(
                            #[trigger] subs@[k],
                            new_rl[k],
                        ) by {
                            if k < pre_rl.len() {
                                assert(subs@[k] == subs@.take(subs@.len() - 1)[k]);
                                assert(new_rl[k] == pre_rl[k]);
                            } else {
                                assert(subs@[k] == sub);
                                assert(new_rl[k] == lsv[i as int]);
                            }
                        }
                    }
                },
                Err(m) => {
                    proof {
                        lemma_rule_lines_contains(lsv, i as int);
                        assert(!line_ok(lsv[i as int]));
                        assert(exists|k: int|
                            0 <= k < rule_lines(lsv).len() && !line_ok(
                                #[trigger] rule_lines(lsv)[k],
                            )) by {
                            let k = choose|k: int|
                                0 <= k < rule_lines(lsv).len() && #[trigger] rule_lines(
                                    lsv,
                                )[k] == lsv[i as int];
                            assert(!line_ok(rule_lines(lsv)[k]));
                        }
                    }
                    return Err(m);
                },
            }
        } else {
            proof {
                assert(rule_lines(lsv.take(i + 1)) =~= pre_rl);
            }
        }
        i = i + 1;
    }
    proof {
        assert(lsv.take(n as int) =~= lsv);
    }
    Ok(subs)
}

} // verus!
