use vstd::prelude::*;

pub mod conn_map;
pub mod display_info;
pub mod lid_info;
pub mod monitor_info;
pub mod net_info;
pub mod utils;

use crate::expr::{
    expr_vars, parse_expr, spec_eval, spec_expr_of, strs_no_dup, tokenize, vars_of_expr,
    CondExpr,
};
use crate::interp::{interpolate, spec_interp};
use crate::store::StateStore;
use crate::text::{spec_trim, str_to_chars, trim_chars, chars_to_string};
use crate::values::{same_value, AbstractValue, SystemStateVar};

verus! {

/// The tick value meaning "never notified"; distinct from every real tick.
pub const NEVER_NOTIFIED: i32 = -1;

// ---------------------------------------------------------------------------
// Rules (subscribers)
// ---------------------------------------------------------------------------

/// A rule: a parsed boolean condition, an action template, the set of
/// state keys the condition depends on, and the tick of the last
/// evaluation attempt.
#[derive(Debug)]
pub struct InfoSubscriber {
    pub command: String,
    pub dependencies: String,
    pub condition: CondExpr,
    pub dependent_vars: Vec<String>,
    pub last_time_id: i32,
}

impl InfoSubscriber {
    /// Well-formed: the stored condition is the parse of the stored
    /// dependency text, and `dependent_vars` lists exactly the distinct
    /// variables of the condition.
    pub open spec fn wf(self) -> bool {
        &&& spec_expr_of(self.dependencies@) == Some(self.condition@)
        &&& strs_no_dup(self.dependent_vars.deep_view())
        &&& forall|x: Seq<char>|
            #[trigger] self.dependent_vars.deep_view().contains(x) <==> expr_vars(
                self.condition@,
            ).contains(x)
    }

    /// Builds a rule from its action command and dependency-condition text;
    /// fails exactly when the condition text does not parse.
    pub fn new_refcell(command: &str, dependencies: &str) -> (r: Result<InfoSubscriber, String>)
        ensures
            match r {
                Ok(sub) => {
                    &&& spec_expr_of(dependencies@) == Some(sub.condition@)
                    &&& sub.wf()
                    &&& sub.command@ == command@
                    &&& sub.dependencies@ == dependencies@
                    &&& sub.last_time_id == NEVER_NOTIFIED
                },
                Err(_) => spec_expr_of(dependencies@) is None,
            },
    {
        let chars = str_to_chars(dependencies);
        let toks = match tokenize(&chars) {
            Ok(t) => t,
            Err(m) => {
                return Err(m);
            },
        };
        let cond = match parse_expr(&toks) {
            Ok(e) => e,
            Err(m) => {
                return Err(m);
            },
        };
        let vars = vars_of_expr(&cond);
        Ok(
            InfoSubscriber {
                command: command.to_owned(),
                dependencies: dependencies.to_owned(),
                condition: cond,
                dependent_vars: vars,
                last_time_id: NEVER_NOTIFIED,
            },
        )
    }

    /// The distinct variable names this rule depends on.
    pub fn get_dependent_vars(&self) -> (r: Vec<String>)
        ensures
            r.deep_view() == self.dependent_vars.deep_view(),
    {
        let mut out: Vec<String> = Vec::new();
        let n = self.dependent_vars.len();
        let mut i: usize = 0;
        while i < n
            invariant
                i <= n,
                n == self.dependent_vars@.len(),
                out.deep_view() =~~= self.dependent_vars.deep_view().take(i as int),
            decreases n - i,
        {
            let ghost pre = out.deep_view();
            out.push(self.dependent_vars[i].clone());
            proof {
                assert(out.deep_view() =~~= pre.push(self.dependent_vars@[i as int]@));
                assert(self.dependent_vars.deep_view().take(i + 1)
                    =~= self.dependent_vars.deep_view().take(i as int).push(
                    self.dependent_vars.deep_view()[i as int],
                ));
            }
            i = i + 1;
        }
        proof {
            assert(self.dependent_vars.deep_view().take(n as int)
                =~= self.dependent_vars.deep_view());
        }
        out
    }
}

// ---------------------------------------------------------------------------
// Config-line splitting
// ---------------------------------------------------------------------------

/// Splits on each `=>` occurrence, keeping empty pieces.
pub open spec fn split_sep_rec(s: Seq<char>, cur: Seq<char>) -> Seq<Seq<char>>
    decreases s.len(),
{
    if s.len() == 0 {
        seq![cur]
    } else if s.len() >= 2 && s[0] == '=' && s[1] == '>' {
        seq![cur] + split_sep_rec(s.skip(2), Seq::empty())
    } else {
        split_sep_rec(s.skip(1), cur.push(s[0]))
    }
}

/// The pieces of `s` between `=>` separators, with a trailing empty
/// piece dropped.
pub open spec fn spec_split_terminator(s: Seq<char>) -> Seq<Seq<char>> {
    let p = split_sep_rec(s, Seq::empty());
    if p.len() > 0 && p.last().len() == 0 {
        p.drop_last()
    } else {
        p
    }
}

/// The dependency text and command of a rule line: the line must split
/// into exactly two pieces at `=>`; both are trimmed.
pub open spec fn spec_line_parts(s: Seq<char>) -> Option<(Seq<char>, Seq<char>)> {
    let p = spec_split_terminator(s);
    if p.len() == 2 {
        Some((spec_trim(p[0]), spec_trim(p[1])))
    } else {
        None
    }
}

fn split_sep_from(v: &Vec<char>, i: usize, cur: Vec<char>) -> (r: Vec<Vec<char>>)
    requires
        i <= v@.len(),
    ensures
        r.deep_view() == split_sep_rec(v@.skip(i as int), cur@),
    decreases v@.len() - i,
{
    let n = v.len();
    if i == n {
        proof {
            assert(v@.skip(i as int).len() == 0);
        }
        let mut r: Vec<Vec<char>> = Vec::new();
        r.push(cur);
        proof {
            assert(r.deep_view() =~~= seq![cur@]);
        }
        r
    } else {
        let ghost s = v@.skip(i as int);
        proof {
            assert(s[0] == v@[i as int]);
            if i + 1 <= n {
                assert(s.skip(1) =~= v@.skip(i + 1));
            }
            if i + 2 <= n {
                assert(s.skip(2) =~= v@.skip(i + 2));
            }
        }
        if i + 1 < n && v[i] == '=' && v[i + 1] == '>' {
            proof {
                assert(s[1] == v@[i + 1]);
            }
            let rest = split_sep_from(v, i + 2, Vec::new());
            let mut r: Vec<Vec<char>> = Vec::new();
            let ghost cur_view = cur@;
            r.push(cur);
            let mut k: usize = 0;
            let m = rest.len();
            while k < m
                invariant
                    k <= m,
                    m == rest@.len(),
                    r.deep_view() =~~= seq![cur_view] + rest.deep_view().take(k as int),
                decreases m - k,
            {
                let ghost old_r = r.deep_view();
                let cloned = crate::text::clone_chars(&rest[k]);
                r.push(cloned);
                proof {
                    assert(r.deep_view() =~~= old_r.push(rest@[k as int].deep_view()));
                    assert(rest.deep_view().take(k + 1) =~= rest.deep_view().take(k as int).push(
                        rest.deep_view()[k as int],
                    ));
                }
                k = k + 1;
            }
            proof {
                assert(rest.deep_view().take(m as int) =~= rest.deep_view());
                assert(r.deep_view() =~~= seq![cur_view] + split_sep_rec(
                    v@.skip(i + 2),
                    Seq::empty(),
                ));
            }
            r
        } else {
            proof {
                if i + 1 < n {
                    assert(s[1] == v@[i + 1]);
                }
            }
            let mut cur = cur;
            cur.push(v[i]);
            split_sep_from(v, i + 1, cur)
        }
    }
}

/// Splits a line's characters at `=>` with terminator semantics;
/// see `spec_split_terminator`.
pub fn split_terminator_sep(v: &Vec<char>) -> (r: Vec<Vec<char>>)
    ensures
        r.deep_view() == spec_split_terminator(v@),
{
    proof {
        assert(v@.skip(0) =~= v@);
    }
    let empty_cur: Vec<char> = Vec::new();
    let mut p = split_sep_from(v, 0, empty_cur);
    if p.len() > 0 && p[p.len() - 1].len() == 0 {
        let ghost before = p.deep_view();
        p.pop();
        proof {
            assert(p.deep_view() =~~= before.drop_last());
        }
    }
    p
}

impl InfoSubscriber {
    /// Parses one configuration line `deps => command` into a rule.
    /// Fails when the line does not split into exactly two pieces at
    /// `=>`, or when the dependency text is not a valid condition.
    pub fn from_config_line(line: &String) -> (r: Result<InfoSubscriber, String>)
        ensures
            match r {
                Ok(sub) => spec_line_parts(line@) matches Some(lp) && {
                    &&& sub.wf()
                    &&& sub.dependencies@ == lp.0
                    &&& sub.command@ == lp.1
                    &&& spec_expr_of(lp.0) == Some(sub.condition@)
                    &&& sub.last_time_id == NEVER_NOTIFIED
                },
                Err(_) => spec_line_parts(line@) is None || (spec_line_parts(line@)
                    matches Some(lp) && spec_expr_of(lp.0) is None),
            },
    {
        let chars = str_to_chars(line.as_str());
        let parts = split_terminator_sep(&chars);
        if parts.len() != 2 {
            proof {
                assert(parts.deep_view().len() == parts@.len());
            }
            return Err(String::from_str("Wrong syntax"));
        }
        proof {
            assert(parts.deep_view()[0] == parts@[0]@);
            assert(parts.deep_view()[1] == parts@[1]@);
        }
        let deps_chars = trim_chars(&parts[0]);
        let cmd_chars = trim_chars(&parts[1]);
        let deps = chars_to_string(&deps_chars);
        let cmd = chars_to_string(&cmd_chars);
        InfoSubscriber::new_refcell(cmd.as_str(), deps.as_str())
    }
}

// ---------------------------------------------------------------------------
// Notification
// ---------------------------------------------------------------------------

/// What one evaluation attempt of a rule decided.
#[derive(Debug)]
pub enum NotifyOutcome {
    /// The rule was already evaluated for this tick: nothing done.
    Skipped,
    /// The condition held: dispatch this fully interpolated command.
    Dispatch(String),
    /// The condition did not hold.
    NotTriggered,
    /// Evaluation or interpolation failed; the message describes it.
    Failed(String),
}

/// Mathematical model of a `NotifyOutcome`.
pub enum OutcomeModel {
    Skipped,
    Dispatch(Seq<char>),
    NotTriggered,
    Failed,
}

impl View for NotifyOutcome {
    type V = OutcomeModel;

    open spec fn view(&self) -> OutcomeModel {
        match self {
            NotifyOutcome::Skipped => OutcomeModel::Skipped,
            NotifyOutcome::Dispatch(cmd) => OutcomeModel::Dispatch(cmd@),
            NotifyOutcome::NotTriggered => OutcomeModel::NotTriggered,
            NotifyOutcome::Failed(_) => OutcomeModel::Failed,
        }
    }
}

/// What one evaluation attempt decides, for a given rule, state,
/// changed-key set and tick: skipped when the rule was already
/// notified at this tick; otherwise the condition is evaluated against
/// the whole state, and on true the action template is interpolated.
pub open spec fn spec_outcome(
    rule: InfoSubscriber,
    st: Map<Seq<char>, AbstractValue>,
    changed: Seq<Seq<char>>,
    time_id: int,
) -> OutcomeModel {
    if rule.last_time_id == time_id {
        OutcomeModel::Skipped
    } else {
        match spec_eval(rule.condition@, st, changed) {
            None => OutcomeModel::Failed,
            Some(false) => OutcomeModel::NotTriggered,
            Some(true) => match spec_interp(rule.command@, st) {
                Some(cmd) => OutcomeModel::Dispatch(cmd),
                None => OutcomeModel::Failed,
            },
        }
    }
}

impl InfoSubscriber {
    /// One evaluation attempt for this tick. Whatever the outcome, the
    /// rule's `last_time_id` is the current tick afterwards, so the rule
    /// is not evaluated twice for one tick.
    pub fn get_notified(
        &mut self,
        system_state: &StateStore,
        changed: &Vec<String>,
        time_id: i32,
    ) -> (r: NotifyOutcome)
        requires
            system_state.wf(),
        ensures
            r@ == spec_outcome(*old(self), system_state@, changed.deep_view(), time_id as int),
            final(self).last_time_id == time_id,
            final(self).command == old(self).command,
            final(self).dependencies == old(self).dependencies,
            final(self).condition == old(self).condition,
            final(self).dependent_vars == old(self).dependent_vars,
    {
        if time_id == self.last_time_id {
            return NotifyOutcome::Skipped;
        }
        self.last_time_id = time_id;
        let run_cmd = match crate::expr::eval_expr(&self.condition, system_state, changed) {
            Ok(b) => b,
            Err(m) => {
                return NotifyOutcome::Failed(m);
            },
        };
        if run_cmd {
            match interpolate(&self.command, system_state) {
                Ok(cmd) => NotifyOutcome::Dispatch(cmd),
                Err(m) => NotifyOutcome::Failed(m),
            }
        } else {
            NotifyOutcome::NotTriggered
        }
    }
}

// ---------------------------------------------------------------------------
// The publisher: registration, change detection and the tick step
// ---------------------------------------------------------------------------

/// A snapshot's model: `None` for a failed provider, else its entries.
pub open spec fn snap_view(s: Result<Vec<(String, SystemStateVar)>, String>) -> Option<
    Seq<(Seq<char>, AbstractValue)>,
> {
    match s {
        Ok(v) => Some(v@.map_values(|p: (String, SystemStateVar)| (p.0@, p.1@))),
        Err(_) => None,
    }
}

/// The models of a sequence of snapshots.
pub open spec fn snaps_view(ss: Seq<Result<Vec<(String, SystemStateVar)>, String>>) -> Seq<
    Option<Seq<(Seq<char>, AbstractValue)>>,
> {
    ss.map_values(|s: Result<Vec<(String, SystemStateVar)>, String>| snap_view(s))
}

/// A key is registered in the subscription index.
pub open spec fn idx_has_key(subs: Seq<(String, Vec<usize>)>, k: Seq<char>) -> bool {
    exists|i: int| 0 <= i < subs.len() && (#[trigger] subs[i]).0@ == k
}

pub open spec fn idx_key_pos(subs: Seq<(String, Vec<usize>)>, k: Seq<char>) -> int {
    choose|i: int| 0 <= i < subs.len() && (#[trigger] subs[i]).0@ == k
}

/// The rule indices subscribed under a key.
pub open spec fn idx_bucket(subs: Seq<(String, Vec<usize>)>, k: Seq<char>) -> Seq<usize> {
    subs[idx_key_pos(subs, k)].1@
}

/// Appends the bucket's indices to the dirty list, each at most once.
pub open spec fn add_new(dirty: Seq<usize>, bucket: Seq<usize>) -> Seq<usize>
    decreases bucket.len(),
{
    if bucket.len() == 0 {
        dirty
    } else {
        add_new(
            if dirty.contains(bucket[0]) {
                dirty
            } else {
                dirty.push(bucket[0])
            },
            bucket.skip(1),
        )
    }
}

/// Processes one snapshot's entries in order: a key outside the
/// registered universe is ignored; a key whose value equals the stored
/// one changes nothing; otherwise the store is updated, the key is
/// recorded as changed, and every rule under the key becomes dirty.
pub open spec fn collect_entries(
    st: Map<Seq<char>, AbstractValue>,
    subs: Seq<(String, Vec<usize>)>,
    es: Seq<(Seq<char>, AbstractValue)>,
    changed: Seq<Seq<char>>,
    dirty: Seq<usize>,
) -> (Map<Seq<char>, AbstractValue>, Seq<Seq<char>>, Seq<usize>)
    decreases es.len(),
{
    if es.len() == 0 {
        (st, changed, dirty)
    } else {
        let k = es[0].0;
        let v = es[0].1;
        if !idx_has_key(subs, k) {
            collect_entries(st, subs, es.skip(1), changed, dirty)
        } else if st.dom().contains(k) && same_value(st[k], v) {
            collect_entries(st, subs, es.skip(1), changed, dirty)
        } else {
            collect_entries(
                st.insert(k, v),
                subs,
                es.skip(1),
                if changed.contains(k) {
                    changed
                } else {
                    changed.push(k)
                },
                add_new(dirty, idx_bucket(subs, k)),
            )
        }
    }
}

/// Processes all snapshots in order; a failed snapshot contributes
/// nothing and the others are unaffected.
pub open spec fn collect_snaps(
    st: Map<Seq<char>, AbstractValue>,
    subs: Seq<(String, Vec<usize>)>,
    snaps: Seq<Option<Seq<(Seq<char>, AbstractValue)>>>,
    changed: Seq<Seq<char>>,
    dirty: Seq<usize>,
) -> (Map<Seq<char>, AbstractValue>, Seq<Seq<char>>, Seq<usize>)
    decreases snaps.len(),
{
    if snaps.len() == 0 {
        (st, changed, dirty)
    } else {
        match snaps[0] {
            None => collect_snaps(st, subs, snaps.skip(1), changed, dirty),
            Some(es) => {
                let mid = collect_entries(st, subs, es, changed, dirty);
                collect_snaps(mid.0, subs, snaps.skip(1), mid.1, mid.2)
            },
        }
    }
}

pub open spec fn usizes_no_dup(s: Seq<usize>) -> bool {
    forall|i: int, j: int| 0 <= i < j < s.len() ==> s[i] != s[j]
}

/// The outcome of each dirty rule, in dirty order, evaluated against
/// the refreshed state.
pub open spec fn outcomes_of(
    rules: Seq<InfoSubscriber>,
    dirty: Seq<usize>,
    st: Map<Seq<char>, AbstractValue>,
    changed: Seq<Seq<char>>,
    time_id: int,
) -> Seq<OutcomeModel> {
    Seq::new(dirty.len(), |i: int| spec_outcome(rules[dirty[i] as int], st, changed, time_id))
}

/// The commands dispatched: the payloads of the `Dispatch` outcomes,
/// in order.
pub open spec fn cmds_of(outs: Seq<OutcomeModel>) -> Seq<Seq<char>>
    decreases outs.len(),
{
    if outs.len() == 0 {
        Seq::empty()
    } else {
        (match outs[0] {
            OutcomeModel::Dispatch(c) => seq![c],
            _ => Seq::empty(),
        }) + cmds_of(outs.skip(1))
    }
}

/// How many outcomes failed.
pub open spec fn fails_of(outs: Seq<OutcomeModel>) -> int
    decreases outs.len(),
{
    if outs.len() == 0 {
        0
    } else {
        (match outs[0] {
            OutcomeModel::Failed => 1int,
            _ => 0int,
        }) + fails_of(outs.skip(1))
    }
}

/// The engine: the subscription index, the accepted providers' names,
/// the authoritative state, and the rule arena.
pub struct InfoPublisher {
    pub subscribers: Vec<(String, Vec<usize>)>,
    pub providers: Vec<String>,
    pub system_state_map: StateStore,
    pub rules: Vec<InfoSubscriber>,
}

impl InfoPublisher {
    pub open spec fn has_key(self, k: Seq<char>) -> bool {
        idx_has_key(self.subscribers@, k)
    }

    /// Well-formed: index keys are distinct; every bucket holds distinct,
    /// in-range rule indices; a rule sits under a key exactly when its
    /// condition depends on that key; the store and all rules are
    /// well-formed.
    pub open spec fn wf(self) -> bool {
        &&& forall|i: int, j: int|
            0 <= i < j < self.subscribers@.len() ==> (#[trigger] self.subscribers@[i]).0@ != (
            #[trigger] self.subscribers@[j]).0@
        &&& forall|i: int, j: int|
            0 <= i < self.subscribers@.len() && 0 <= j < self.subscribers@[i].1@.len() ==> (
            #[trigger] self.subscribers@[i].1@[j] as int) < self.rules@.len()
        &&& forall|i: int, j: int, j2: int|
            0 <= i < self.subscribers@.len() && 0 <= j < j2 < self.subscribers@[i].1@.len()
                ==> #[trigger] self.subscribers@[i].1@[j]
                != #[trigger] self.subscribers@[i].1@[j2]
        &&& forall|i: int, j: int|
            0 <= i < self.subscribers@.len() && 0 <= j < self.subscribers@[i].1@.len()
                ==> expr_vars(
                self.rules@[#[trigger] self.subscribers@[i].1@[j] as int].condition@,
            ).contains(self.subscribers@[i].0@)
        &&& forall|ri: int, i: int|
            0 <= ri < self.rules@.len() && 0 <= i < self.subscribers@.len() && expr_vars(
                (#[trigger] self.rules@[ri]).condition@,
            ).contains((#[trigger] self.subscribers@[i]).0@)
                ==> self.subscribers@[i].1@.contains(ri as usize)
        &&& self.system_state_map.wf()
        &&& forall|r: int| 0 <= r < self.rules@.len() ==> (#[trigger] self.rules@[r]).wf()
    }

    /// An empty engine: no keys, no providers, no rules, empty state.
    pub fn new() -> (r: InfoPublisher)
        ensures
            r.wf(),
            r.subscribers@.len() == 0,
            r.providers@.len() == 0,
            r.rules@.len() == 0,
            r.system_state_map@ == Map::<Seq<char>, AbstractValue>::empty(),
    {
        InfoPublisher {
            subscribers: Vec::new(),
            providers: Vec::new(),
            system_state_map: StateStore::new(),
            rules: Vec::new(),
        }
    }

    fn index_pos(&self, key: &String) -> (r: Option<usize>)
        ensures
            match r {
                Some(p) => self.has_key(key@) && 0 <= p < self.subscribers@.len()
                    && self.subscribers@[p as int].0@ == key@,
                None => !self.has_key(key@),
            },
    {
        let n = self.subscribers.len();
        let mut i: usize = 0;
        while i < n
            invariant
                i <= n,
                n == self.subscribers@.len(),
                forall|j: int| 0 <= j < i ==> (#[trigger] self.subscribers@[j]).0@ != key@,
            decreases n - i,
        {
            if String::eq(&self.subscribers[i].0, key) {
                return Some(i);
            }
            i = i + 1;
        }
        None
    }

    /// Registers a provider from its first snapshot: on success every
    /// snapshot key joins the key universe (fresh keys get an empty
    /// bucket) and the provider's name is recorded; a failed snapshot
    /// rejects the provider and changes nothing.
    pub fn add_provider(
        &mut self,
        name: &str,
        first_snapshot: &Result<Vec<(String, SystemStateVar)>, String>,
    ) -> (r: Result<(), String>)
        requires
            old(self).wf(),
            old(self).rules@.len() == 0,
        ensures
            final(self).wf(),
            final(self).rules == old(self).rules,
            final(self).system_state_map == old(self).system_state_map,
            match r {
                Ok(_) => {
                    &&& first_snapshot is Ok
                    &&& final(self).providers.deep_view() == old(self).providers.deep_view().push(
                        name@,
                    )
                    &&& forall|k: Seq<char>|
                        final(self).has_key(k) <==> (old(self).has_key(k) || (
                        first_snapshot matches Ok(info) && info@.map_values(
                            |p: (String, SystemStateVar)| p.0@,
                        ).contains(k)))
                    &&& old(self).subscribers@.len() <= final(self).subscribers@.len()
                    &&& forall|i: int|
                        0 <= i < old(self).subscribers@.len() ==> final(self).subscribers@[i]
                            == old(self).subscribers@[i]
                    &&& forall|i: int|
                        old(self).subscribers@.len() <= i < final(self).subscribers@.len()
                            ==> (#[trigger] final(self).subscribers@[i]).1@.len() == 0
                },
                Err(_) => first_snapshot is Err && *final(self) == *old(self),
            },
    {
        let info = match first_snapshot {
            Ok(info) => info,
            Err(_) => {
                return Err(String::from_str("provider unable to provide information"));
            },
        };
        let n = info.len();
        let mut i: usize = 0;
        while i < n
            invariant
                i <= n,
                n == info@.len(),
                self.wf(),
                self.rules == old(self).rules,
                self.rules@.len() == 0,
                self.providers == old(self).providers,
                self.system_state_map == old(self).system_state_map,
                old(self).subscribers@.len() <= self.subscribers@.len(),
                forall|j: int|
                    0 <= j < old(self).subscribers@.len() ==> self.subscribers@[j] == old(
                        self,
                    ).subscribers@[j],
                forall|j: int|
                    old(self).subscribers@.len() <= j < self.subscribers@.len() ==> (
                    #[trigger] self.subscribers@[j]).1@.len() == 0,
                forall|k: Seq<char>|
                    self.has_key(k) <==> (old(self).has_key(k) || info@.map_values(
                        |p: (String, SystemStateVar)| p.0@,
                    ).take(i as int).contains(k)),
            decreases n - i,
        {
            let ghost keys = info@.map_values(|p: (String, SystemStateVar)| p.0@);
            let key = &info[i].0;
            match self.index_pos(key) {
                Some(_) => {
                    proof {
                        assert(keys.take(i + 1) =~= keys.take(i as int).push(keys[i as int]));
                        assert(keys[i as int] == key@);
                        assert forall|k: Seq<char>|
                            self.has_key(k) <==> (old(self).has_key(k) || keys.take(
                                i + 1,
                            ).contains(k)) by {
                            if keys.take(i + 1).contains(k) {
                                let j = choose|j: int|
                                    0 <= j < keys.take(i + 1).len() && #[trigger] keys.take(
                                        i + 1,
                                    )[j] == k;
                                if j < i {
                                    assert(keys.take(i as int)[j] == k);
                                }
                            }
                            if keys.take(i as int).contains(k) {
                                let j = choose|j: int|
                                    0 <= j < i && #[trigger] keys.take(i as int)[j] == k;
                                assert(keys.take(i + 1)[j] == k);
                            }
                        }
                    }
                },
                None => {
                    let ghost pre = *self;
                    let key_copy = key.clone();
                    let fresh_bucket: Vec<usize> = Vec::new();
                    self.subscribers.push((key_copy, fresh_bucket));
                    proof {
                        let m = pre.subscribers@.len() as int;
                        assert(self.subscribers@ =~= pre.subscribers@.push(
                            (key_copy, fresh_bucket),
                        ));
                        assert(self.subscribers@[m].0@ == key@);
                        assert forall|j: int| 0 <= j < m implies pre.subscribers@[j].0@ != key@
                            by {
                            if pre.subscribers@[j].0@ == key@ {
                                assert(idx_has_key(pre.subscribers@, key@));
                            }
                        }
                        assert(self.subscribers@[m].1@.len() == 0);
                        assert(keys.take(i + 1) =~= keys.take(i as int).push(keys[i as int]));
                        assert(keys[i as int] == key@);
                        assert forall|k: Seq<char>|
                            self.has_key(k) <==> (pre.has_key(k) || k == key@) by {
                            if self.has_key(k) {
                                let j = choose|j: int|
                                    0 <= j < self.subscribers@.len()
                                        && (#[trigger] self.subscribers@[j]).0@ == k;
                                if j < m {
                                    assert(pre.subscribers@[j].0@ == k);
                                }
                            }
                            if pre.has_key(k) {
                                let j = choose|j: int|
                                    0 <= j < pre.subscribers@.len()
                                        && (#[trigger] pre.subscribers@[j]).0@ == k;
                                assert(self.subscribers@[j].0@ == k);
                            }
                            if k == key@ {
                                assert(self.subscribers@[m].0@ == k);
                            }
                        }
                        assert forall|k: Seq<char>|
                            self.has_key(k) <==> (old(self).has_key(k) || keys.take(
                                i + 1,
                            ).contains(k)) by {
                            assert(self.has_key(k) <==> (pre.has_key(k) || k == key@));
                            if keys.take(i + 1).contains(k) {
                                let j = choose|j: int|
                                    0 <= j < keys.take(i + 1).len() && #[trigger] keys.take(
                                        i + 1,
                                    )[j] == k;
                                if j < i {
                                    assert(keys.take(i as int)[j] == k);
                                }
                            }
                            if keys.take(i as int).contains(k) {
                                let j = choose|j: int|
                                    0 <= j < i && #[trigger] keys.take(i as int)[j] == k;
                                assert(keys.take(i + 1)[j] == k);
                            }
                            if k == key@ {
                                assert(keys.take(i + 1)[i as int] == k);
                            }
                        }
                        assert(self.wf());
                    }
                },
            }
            i = i + 1;
        }
        let name_copy = String::from_str(name);
        let ghost provs = self.providers.deep_view();
        self.providers.push(name_copy);
        proof {
            let keys = info@.map_values(|p: (String, SystemStateVar)| p.0@);
            assert(keys.take(n as int) =~= keys);
            assert(self.providers.deep_view() =~~= provs.push(name@));
        }
        Ok(())
    }

    /// Registers a rule. Rejected outright — nothing changes — when any
    /// dependent key is not in the key universe; otherwise the rule joins
    /// the arena and is indexed under each of its dependent keys.
    pub fn add_subscriber(&mut self, subscriber: InfoSubscriber) -> (r: Result<(), String>)
        requires
            old(self).wf(),
            subscriber.wf(),
        ensures
            final(self).wf(),
            final(self).providers == old(self).providers,
            final(self).system_state_map == old(self).system_state_map,
            match r {
                Ok(_) => {
                    &&& forall|x: Seq<char>|
                        #[trigger] expr_vars(subscriber.condition@).contains(x) ==> old(
                            self,
                        ).has_key(x)
                    &&& final(self).rules@ == old(self).rules@.push(subscriber)
                    &&& final(self).subscribers@.len() == old(self).subscribers@.len()
                    &&& forall|i: int|
                        0 <= i < old(self).subscribers@.len() ==> (
                        #[trigger] final(self).subscribers@[i]).0 == old(self).subscribers@[i].0
                            && final(self).subscribers@[i].1@ == (if expr_vars(
                            subscriber.condition@,
                        ).contains(old(self).subscribers@[i].0@) {
                            old(self).subscribers@[i].1@.push(old(self).rules@.len() as usize)
                        } else {
                            old(self).subscribers@[i].1@
                        })
                },
                Err(_) => {
                    &&& *final(self) == *old(self)
                    &&& exists|x: Seq<char>|
                        #[trigger] expr_vars(subscriber.condition@).contains(x) && !old(
                            self,
                        ).has_key(x)
                },
            },
    {
        let nv = subscriber.dependent_vars.len();
        let mut i: usize = 0;
        while i < nv
            invariant
                i <= nv,
                nv == subscriber.dependent_vars@.len(),
                *self == *old(self),
                self.wf(),
                subscriber.wf(),
                forall|j: int|
                    0 <= j < i ==> self.has_key(
                        #[trigger] subscriber.dependent_vars.deep_view()[j],
                    ),
            decreases nv - i,
        {
            match self.index_pos(&subscriber.dependent_vars[i]) {
                Some(_) => {
                    proof {
                        assert(subscriber.dependent_vars.deep_view()[i as int]
                            == subscriber.dependent_vars@[i as int]@);
                    }
                },
                None => {
                    proof {
                        let x = subscriber.dependent_vars@[i as int]@;
                        assert(subscriber.dependent_vars.deep_view()[i as int] == x);
                        assert(subscriber.dependent_vars.deep_view().contains(x));
                        assert(expr_vars(subscriber.condition@).contains(x));
                        assert(!self.has_key(x));
                    }
                    let mut msg = String::from_str("The variable '");
                    msg.append(subscriber.dependent_vars[i].as_str());
                    msg.append("' is not provided by any module.");
                    return Err(msg);
                },
            }
            i = i + 1;
        }
        proof {
            assert forall|x: Seq<char>| #[trigger] expr_vars(subscriber.condition@).contains(x)
                implies self.has_key(x) by {
                assert(subscriber.dependent_vars.deep_view().contains(x));
                let j = choose|j: int|
                    0 <= j < subscriber.dependent_vars.deep_view().len()
                        && #[trigger] subscriber.dependent_vars.deep_view()[j] == x;
                assert(self.has_key(subscriber.dependent_vars.deep_view()[j]));
            }
        }
        let ghost sub = subscriber;
        let dep_vars = subscriber.get_dependent_vars();
        let idx = self.rules.len();
        self.rules.push(subscriber);
        let ghost mid = *self;
        let ns = self.subscribers.len();
        let mut p: usize = 0;
        while p < ns
            invariant
                p <= ns,
                ns == self.subscribers@.len(),
                ns == old(self).subscribers@.len(),
                idx == old(self).rules@.len(),
                sub.wf(),
                old(self).wf(),
                dep_vars.deep_view() == sub.dependent_vars.deep_view(),
                self.rules@ == old(self).rules@.push(sub),
                self.providers == old(self).providers,
                self.system_state_map == old(self).system_state_map,
                forall|j: int|
                    0 <= j < p ==> (#[trigger] self.subscribers@[j]).0 == old(
                        self,
                    ).subscribers@[j].0 && self.subscribers@[j].1@ == (if expr_vars(
                        sub.condition@,
                    ).contains(old(self).subscribers@[j].0@) {
                        old(self).subscribers@[j].1@.push(idx as usize)
                    } else {
                        old(self).subscribers@[j].1@
                    }),
                forall|j: int|
                    p <= j < ns ==> (#[trigger] self.subscribers@[j]) == old(
                        self,
                    ).subscribers@[j],
            decreases ns - p,
        {
            let is_dep = crate::expr::vec_contains_string(&dep_vars, &self.subscribers[p].0);
            proof {
                assert(is_dep == expr_vars(sub.condition@).contains(
                    old(self).subscribers@[p as int].0@,
                ));
            }
            if is_dep {
                let key_copy = self.subscribers[p].0.clone();
                let mut bucket = copy_usizes(&self.subscribers[p].1);
                bucket.push(idx);
                self.subscribers.set(p, (key_copy, bucket));
            }
            p = p + 1;
        }
        proof {
            let fin = *self;
            let olds = old(self).subscribers@;
            assert forall|i2: int, j2: int| 0 <= i2 < j2 < fin.subscribers@.len() implies (
            fin.subscribers@[i2]).0@ != (fin.subscribers@[j2]).0@ by {
                assert(fin.subscribers@[i2].0 == olds[i2].0);
                assert(fin.subscribers@[j2].0 == olds[j2].0);
            }
            assert forall|i2: int, j2: int|
                0 <= i2 < fin.subscribers@.len() && 0 <= j2 < fin.subscribers@[i2].1@.len()
                implies (#[trigger] fin.subscribers@[i2].1@[j2] as int) < fin.rules@.len() by {
                let ob = olds[i2].1@;
                if j2 < ob.len() {
                    assert(fin.subscribers@[i2].1@[j2] == ob[j2]);
                } else {
                    assert(fin.subscribers@[i2].1@[j2] == idx as usize);
                }
            }
            assert forall|i2: int, j2: int, j3: int|
                0 <= i2 < fin.subscribers@.len() && 0 <= j2 < j3
                    < fin.subscribers@[i2].1@.len() implies #[trigger] fin.subscribers@[i2].1@[j2]
                != #[trigger] fin.subscribers@[i2].1@[j3] by {
                let ob = olds[i2].1@;
                if j3 < ob.len() {
                    assert(fin.subscribers@[i2].1@[j2] == ob[j2]);
                    assert(fin.subscribers@[i2].1@[j3] == ob[j3]);
                } else {
                    assert(fin.subscribers@[i2].1@[j2] == ob[j2]);
                    assert((ob[j2] as int) < idx as int);
                    assert(fin.subscribers@[i2].1@[j3] == idx as usize);
                }
            }
            assert forall|i2: int, j2: int|
                0 <= i2 < fin.subscribers@.len() && 0 <= j2 < fin.subscribers@[i2].1@.len()
                implies expr_vars(
                fin.rules@[#[trigger] fin.subscribers@[i2].1@[j2] as int].condition@,
            ).contains(fin.subscribers@[i2].0@) by {
                let ob = olds[i2].1@;
                if j2 < ob.len() {
                    assert(fin.subscribers@[i2].1@[j2] == ob[j2]);
                    assert((ob[j2] as int) < idx as int);
                    assert(fin.rules@[ob[j2] as int] == old(self).rules@[ob[j2] as int]);
                } else {
                    assert(fin.subscribers@[i2].1@[j2] == idx as usize);
                    assert(fin.rules@[idx as int] == sub);
                    assert(expr_vars(sub.condition@).contains(olds[i2].0@));
                }
            }
            assert forall|ri: int, i2: int|
                0 <= ri < fin.rules@.len() && 0 <= i2 < fin.subscribers@.len() && expr_vars(
                    (#[trigger] fin.rules@[ri]).condition@,
                ).contains((#[trigger] fin.subscribers@[i2]).0@) implies fin.subscribers@[i2].1@
                .contains(ri as usize) by {
                let ob = olds[i2].1@;
                if ri < idx as int {
                    assert(fin.rules@[ri] == old(self).rules@[ri]);
                    assert(olds[i2].1@.contains(ri as usize));
                    let j = choose|j: int| 0 <= j < ob.len() && ob[j] == ri as usize;
                    assert(fin.subscribers@[i2].1@[j] == ri as usize);
                } else {
                    assert(fin.rules@[ri] == sub);
                    assert(fin.subscribers@[i2].1@ == ob.push(idx as usize));
                    assert(fin.subscribers@[i2].1@[ob.len() as int] == idx as usize);
                }
            }
            assert forall|r2: int| 0 <= r2 < fin.rules@.len() implies (
            #[trigger] fin.rules@[r2]).wf() by {
                if r2 < idx as int {
                    assert(fin.rules@[r2] == old(self).rules@[r2]);
                } else {
                    assert(fin.rules@[r2] == sub);
                }
            }
            assert(fin.wf());
        }
        Ok(())
    }
}

/// The models of a snapshot's entries.
pub open spec fn entries_view(es: Seq<(String, SystemStateVar)>) -> Seq<
    (Seq<char>, AbstractValue),
> {
    es.map_values(|p: (String, SystemStateVar)| (p.0@, p.1@))
}

/// Decides membership of an index in a vector of indices.
fn vec_contains_usize(v: &Vec<usize>, x: usize) -> (r: bool)
    ensures
        r == v@.contains(x),
{
    let n = v.len();
    let mut i: usize = 0;
    while i < n
        invariant
            i <= n,
            n == v@.len(),
            forall|j: int| 0 <= j < i ==> v@[j] != x,
        decreases n - i,
    {
        if v[i] == x {
            return true;
        }
        i = i + 1;
    }
    false
}

fn add_bucket(dirty: &mut Vec<usize>, bucket: &Vec<usize>, q: usize)
    requires
        q <= bucket@.len(),
    ensures
        final(dirty)@ == add_new(old(dirty)@, bucket@.skip(q as int)),
        usizes_no_dup(old(dirty)@) ==> usizes_no_dup(final(dirty)@),
        forall|x: usize|
            #[trigger] final(dirty)@.contains(x) <==> (old(dirty)@.contains(x) || bucket@.skip(
                q as int,
            ).contains(x)),
    decreases bucket@.len() - q,
{
    if q == bucket.len() {
        proof {
            assert(bucket@.skip(q as int).len() == 0);
            assert forall|x: usize| #[trigger] bucket@.skip(q as int).contains(x) implies false
                by {}
        }
        return ;
    }
    let ghost b = bucket@.skip(q as int);
    proof {
        assert(b[0] == bucket@[q as int]);
        assert(b.skip(1) =~= bucket@.skip(q + 1));
    }
    let idx = bucket[q];
    let ghost pre = dirty@;
    if !vec_contains_usize(dirty, idx) {
        dirty.push(idx);
        proof {
            assert forall|i2: int, j2: int| 0 <= i2 < j2 < dirty@.len() && usizes_no_dup(pre)
                implies dirty@[i2] != dirty@[j2] by {
                if j2 < pre.len() {
                    assert(dirty@[i2] == pre[i2]);
                    assert(dirty@[j2] == pre[j2]);
                } else {
                    assert(dirty@[i2] == pre[i2]);
                    assert(pre.contains(pre[i2]));
                    assert(dirty@[j2] == idx);
                }
            }
        }
    }
    let ghost mid = dirty@;
    add_bucket(dirty, bucket, q + 1);
    proof {
        assert forall|x: usize| #[trigger] dirty@.contains(x) implies (pre.contains(x)
            || b.contains(x)) by {
            if mid.contains(x) && !pre.contains(x) {
                let j = choose|j: int| 0 <= j < mid.len() && mid[j] == x;
                assert(x == idx);
                assert(b[0] == x);
            }
            if bucket@.skip(q + 1).contains(x) {
                let j = choose|j: int|
                    0 <= j < bucket@.skip(q + 1).len() && #[trigger] bucket@.skip(q + 1)[j]
                        == x;
                assert(b[j + 1] == x);
            }
        }
        assert forall|x: usize| (pre.contains(x) || b.contains(x)) implies
            #[trigger] dirty@.contains(x) by {
            if pre.contains(x) {
                let j = choose|j: int| 0 <= j < pre.len() && pre[j] == x;
                assert(mid[j] == x);
                assert(mid.contains(x));
            }
            if b.contains(x) {
                let j = choose|j: int| 0 <= j < b.len() && b[j] == x;
                if j == 0 {
                    assert(x == idx);
                    if pre.contains(x) {
                        let j2 = choose|j2: int| 0 <= j2 < pre.len() && pre[j2] == x;
                        assert(mid[j2] == x);
                    } else {
                        assert(mid.last() == idx);
                    }
                    assert(mid.contains(x));
                } else {
                    assert(bucket@.skip(q + 1)[j - 1] == x);
                    assert(bucket@.skip(q + 1).contains(x));
                }
            }
        }
    }
}

impl InfoPublisher {
    fn collect_entry_list(
        &mut self,
        entries: &Vec<(String, SystemStateVar)>,
        e: usize,
        changed: &mut Vec<String>,
        dirty: &mut Vec<usize>,
    )
        requires
            e <= entries@.len(),
            old(self).wf(),
        ensures
            final(self).wf(),
            final(self).subscribers == old(self).subscribers,
            final(self).providers == old(self).providers,
            final(self).rules == old(self).rules,
            (final(self).system_state_map@, final(changed).deep_view(), final(dirty)@)
                == collect_entries(
                old(self).system_state_map@,
                old(self).subscribers@,
                entries_view(entries@).skip(e as int),
                old(changed).deep_view(),
                old(dirty)@,
            ),
            usizes_no_dup(old(dirty)@) ==> usizes_no_dup(final(dirty)@),
            forall|x: usize|
                #[trigger] final(dirty)@.contains(x) ==> (old(dirty)@.contains(x) || (x as int)
                    < old(self).rules@.len()),
        decreases entries@.len() - e,
    {
        let n = entries.len();
        if e == n {
            proof {
                assert(entries_view(entries@).skip(e as int).len() == 0);
            }
            return ;
        }
        let ghost es = entries_view(entries@).skip(e as int);
        proof {
            assert(es[0] == entries_view(entries@)[e as int]);
            assert(es.skip(1) =~= entries_view(entries@).skip(e + 1));
        }
        let key = &entries[e].0;
        let pos = self.index_pos(key);
        match pos {
            None => {
                self.collect_entry_list(entries, e + 1, changed, dirty);
            },
            Some(p) => {
                let is_same = match self.system_state_map.get(key) {
                    Some(stored) => stored.value_eq(&entries[e].1),
                    None => false,
                };
                if is_same {
                    self.collect_entry_list(entries, e + 1, changed, dirty);
                } else {
                    proof {
                        assert(idx_key_pos(self.subscribers@, key@) == p as int);
                        assert(idx_bucket(self.subscribers@, key@)
                            == self.subscribers@[p as int].1@);
                    }
                    if !crate::expr::vec_contains_string(changed, key) {
                        let ghost cpre = changed.deep_view();
                        changed.push(key.clone());
                        proof {
                            assert(changed.deep_view() =~~= cpre.push(key@));
                        }
                    }
                    proof {
                        assert(bucket_bound_holds(self.subscribers@, p as int,
                            self.rules@.len() as int));
                    }
                    add_bucket(dirty, &self.subscribers[p].1, 0);
                    proof {
                        assert(self.subscribers@[p as int].1@.skip(0)
                            =~= self.subscribers@[p as int].1@);
                    }
                    let val = entries[e].1.duplicate();
                    self.system_state_map.set(key, val);
                    self.collect_entry_list(entries, e + 1, changed, dirty);
                }
            },
        }
    }

    fn collect_snap_list(
        &mut self,
        snapshots: &Vec<Result<Vec<(String, SystemStateVar)>, String>>,
        p: usize,
        changed: &mut Vec<String>,
        dirty: &mut Vec<usize>,
    )
        requires
            p <= snapshots@.len(),
            old(self).wf(),
        ensures
            final(self).wf(),
            final(self).subscribers == old(self).subscribers,
            final(self).providers == old(self).providers,
            final(self).rules == old(self).rules,
            (final(self).system_state_map@, final(changed).deep_view(), final(dirty)@)
                == collect_snaps(
                old(self).system_state_map@,
                old(self).subscribers@,
                snaps_view(snapshots@).skip(p as int),
                old(changed).deep_view(),
                old(dirty)@,
            ),
            usizes_no_dup(old(dirty)@) ==> usizes_no_dup(final(dirty)@),
            forall|x: usize|
                #[trigger] final(dirty)@.contains(x) ==> (old(dirty)@.contains(x) || (x as int)
                    < old(self).rules@.len()),
        decreases snapshots@.len() - p,
    {
        let n = snapshots.len();
        if p == n {
            proof {
                assert(snaps_view(snapshots@).skip(p as int).len() == 0);
            }
            return ;
        }
        let ghost sv = snaps_view(snapshots@).skip(p as int);
        proof {
            assert(sv[0] == snaps_view(snapshots@)[p as int]);
            assert(sv.skip(1) =~= snaps_view(snapshots@).skip(p + 1));
        }
        match &snapshots[p] {
            Err(_) => {
                self.collect_snap_list(snapshots, p + 1, changed, dirty);
            },
            Ok(info) => {
                proof {
                    assert(entries_view(info@).skip(0) =~= entries_view(info@));
                }
                self.collect_entry_list(info, 0, changed, dirty);
                self.collect_snap_list(snapshots, p + 1, changed, dirty);
            },
        }
    }

    /// One change-detection pass: pulls every provider's snapshot result
    /// through the store, returning the changed keys and the dirty rule
    /// indices, both without duplicates. A failed snapshot contributes
    /// no updates; the other providers' keys still update (isolation).
    pub fn collect(
        &mut self,
        snapshots: &Vec<Result<Vec<(String, SystemStateVar)>, String>>,
    ) -> (r: (Vec<String>, Vec<usize>))
        requires
            old(self).wf(),
        ensures
            final(self).wf(),
            final(self).subscribers == old(self).subscribers,
            final(self).providers == old(self).providers,
            final(self).rules == old(self).rules,
            final(self).system_state_map@ == collect_snaps(
                old(self).system_state_map@,
                old(self).subscribers@,
                snaps_view(snapshots@),
                Seq::empty(),
                Seq::empty(),
            ).0,
            r.0.deep_view() == collect_snaps(
                old(self).system_state_map@,
                old(self).subscribers@,
                snaps_view(snapshots@),
                Seq::empty(),
                Seq::empty(),
            ).1,
            r.1@ == collect_snaps(
                old(self).system_state_map@,
                old(self).subscribers@,
                snaps_view(snapshots@),
                Seq::empty(),
                Seq::empty(),
            ).2,
            usizes_no_dup(r.1@),
            forall|x: usize| #[trigger] r.1@.contains(x) ==> (x as int) < old(self).rules@.len(),
    {
        let mut changed: Vec<String> = Vec::new();
        let mut dirty: Vec<usize> = Vec::new();
        proof {
            assert(changed.deep_view() =~~= Seq::<Seq<char>>::empty());
            assert(dirty@ =~= Seq::<usize>::empty());
            assert(snaps_view(snapshots@).skip(0) =~= snaps_view(snapshots@));
        }
        self.collect_snap_list(snapshots, 0, &mut changed, &mut dirty);
        (changed, dirty)
    }
}

pub proof fn lemma_cmds_of_push(outs: Seq<OutcomeModel>, x: OutcomeModel)
    ensures
        cmds_of(outs.push(x)) == cmds_of(outs) + (match x {
            OutcomeModel::Dispatch(c) => seq![c],
            _ => Seq::empty(),
        }),
    decreases outs.len(),
{
    let tail: Seq<Seq<char>> = match x {
        OutcomeModel::Dispatch(c) => seq![c],
        _ => Seq::empty(),
    };
    if outs.len() == 0 {
        assert(outs.push(x)[0] == x);
        assert(outs.push(x).skip(1) =~= Seq::<OutcomeModel>::empty());
        assert(cmds_of(Seq::<OutcomeModel>::empty()) =~= Seq::<Seq<char>>::empty());
        assert(tail + Seq::<Seq<char>>::empty() =~= tail);
        assert(cmds_of(outs) + tail =~= tail);
    } else {
        assert(outs.push(x)[0] == outs[0]);
        assert(outs.push(x).skip(1) =~= outs.skip(1).push(x));
        lemma_cmds_of_push(outs.skip(1), x);
        let head: Seq<Seq<char>> = match outs[0] {
            OutcomeModel::Dispatch(c) => seq![c],
            _ => Seq::empty(),
        };
        assert(cmds_of(outs.push(x)) == head + (cmds_of(outs.skip(1)) + tail));
        assert(head + (cmds_of(outs.skip(1)) + tail) =~= (head + cmds_of(outs.skip(1)))
            + tail);
    }
}

pub proof fn lemma_fails_of_push(outs: Seq<OutcomeModel>, x: OutcomeModel)
    ensures
        fails_of(outs.push(x)) == fails_of(outs) + (match x {
            OutcomeModel::Failed => 1int,
            _ => 0int,
        }),
    decreases outs.len(),
{
    if outs.len() == 0 {
        assert(outs.push(x)[0] == x);
        assert(outs.push(x).skip(1) =~= Seq::<OutcomeModel>::empty());
        assert(fails_of(Seq::<OutcomeModel>::empty()) == 0);
    } else {
        assert(outs.push(x)[0] == outs[0]);
        assert(outs.push(x).skip(1) =~= outs.skip(1).push(x));
        lemma_fails_of_push(outs.skip(1), x);
    }
}

impl InfoPublisher {
    /// One full tick: refresh the state from the snapshots, then evaluate
    /// every dirty rule once against the refreshed state, in dirty order.
    /// Returns the fully interpolated commands to dispatch, in order, and
    /// one diagnostic per failed rule; failures never stop the tick.
    pub fn run_tick(
        &mut self,
        snapshots: &Vec<Result<Vec<(String, SystemStateVar)>, String>>,
        time_id: i32,
    ) -> (r: (Vec<String>, Vec<String>))
        requires
            old(self).wf(),
        ensures
            final(self).wf(),
            final(self).subscribers == old(self).subscribers,
            final(self).providers == old(self).providers,
            ({
                let coll = collect_snaps(
                    old(self).system_state_map@,
                    old(self).subscribers@,
                    snaps_view(snapshots@),
                    Seq::empty(),
                    Seq::empty(),
                );
                let outs = outcomes_of(
                    old(self).rules@,
                    coll.2,
                    coll.0,
                    coll.1,
                    time_id as int,
                );
                &&& final(self).system_state_map@ == coll.0
                &&& r.0.deep_view() == cmds_of(outs)
                &&& r.1@.len() == fails_of(outs)
                &&& final(self).rules@.len() == old(self).rules@.len()
                &&& forall|j: int|
                    0 <= j < old(self).rules@.len() ==> {
                        &&& (#[trigger] final(self).rules@[j]).command == old(
                            self,
                        ).rules@[j].command
                        &&& final(self).rules@[j].dependencies == old(
                            self,
                        ).rules@[j].dependencies
                        &&& final(self).rules@[j].condition == old(self).rules@[j].condition
                        &&& final(self).rules@[j].dependent_vars == old(
                            self,
                        ).rules@[j].dependent_vars
                        &&& final(self).rules@[j].last_time_id == (if coll.2.contains(
                            j as usize,
                        ) {
                            time_id as int
                        } else {
                            old(self).rules@[j].last_time_id as int
                        })
                    }
            }),
    {
        let (changed, dirty) = self.collect(snapshots);
        let ghost st_new = self.system_state_map@;
        let ghost dirty_view = dirty@;
        let ghost changed_view = changed.deep_view();
        let ghost rules0 = self.rules@;
        let ghost outs = outcomes_of(rules0, dirty_view, st_new, changed_view, time_id as int);
        let mut cmds: Vec<String> = Vec::new();
        let mut errs: Vec<String> = Vec::new();
        let nd = dirty.len();
        let nr = self.rules.len();
        let mut d: usize = 0;
        proof {
            assert(cmds.deep_view() =~~= Seq::<Seq<char>>::empty());
            assert(outs.take(0) =~= Seq::<OutcomeModel>::empty());
        }
        while d < nd
            invariant
                d <= nd,
                nd == dirty_view.len(),
                dirty@ == dirty_view,
                changed.deep_view() == changed_view,
                self.system_state_map@ == st_new,
                self.system_state_map.wf(),
                self.subscribers == old(self).subscribers,
                self.providers == old(self).providers,
                usizes_no_dup(dirty_view),
                forall|x: usize|
                    #[trigger] dirty_view.contains(x) ==> (x as int) < rules0.len(),
                self.rules@.len() == rules0.len(),
                rules0.len() == nr,
                outs == outcomes_of(rules0, dirty_view, st_new, changed_view, time_id as int),
                forall|j: int|
                    0 <= j < rules0.len() ==> {
                        &&& (#[trigger] self.rules@[j]).command == rules0[j].command
                        &&& self.rules@[j].dependencies == rules0[j].dependencies
                        &&& self.rules@[j].condition == rules0[j].condition
                        &&& self.rules@[j].dependent_vars == rules0[j].dependent_vars
                        &&& self.rules@[j].last_time_id == (if dirty_view.take(
                            d as int,
                        ).contains(j as usize) {
                            time_id as int
                        } else {
                            rules0[j].last_time_id as int
                        })
                    },
                cmds.deep_view() == cmds_of(outs.take(d as int)),
                errs@.len() == fails_of(outs.take(d as int)),
            decreases nd - d,
        {
            let idx = dirty[d];
            proof {
                assert(dirty_view.contains(dirty_view[d as int]));
                assert(!dirty_view.take(d as int).contains(idx)) by {
                    if dirty_view.take(d as int).contains(idx) {
                        let j = choose|j: int|
                            0 <= j < d && #[trigger] dirty_view.take(d as int)[j] == idx;
                        assert(dirty_view[j] == idx);
                        assert(dirty_view[d as int] == idx);
                    }
                }
                assert(self.rules@[idx as int].last_time_id == rules0[idx as int].last_time_id);
            }
            let ghost rules_mid = self.rules@;
            let mut rule = self.rules.remove(idx);
            proof {
                assert(rule == rules_mid[idx as int]);
            }
            let outcome = rule.get_notified(&self.system_state_map, &changed, time_id);
            self.rules.insert(idx, rule);
            proof {
                assert(self.rules@ =~= rules_mid.update(idx as int, rule));
                let pre_rule = rules_mid[idx as int];
                assert(pre_rule.command == rules0[idx as int].command);
                assert(pre_rule.dependencies == rules0[idx as int].dependencies);
                assert(pre_rule.condition == rules0[idx as int].condition);
                assert(pre_rule.dependent_vars == rules0[idx as int].dependent_vars);
                assert(pre_rule.last_time_id == rules0[idx as int].last_time_id);
                assert(pre_rule == rules0[idx as int]);
                assert(outcome@ == spec_outcome(
                    rules0[idx as int],
                    st_new,
                    changed_view,
                    time_id as int,
                ));
                assert(outs[d as int] == spec_outcome(
                    rules0[dirty_view[d as int] as int],
                    st_new,
                    changed_view,
                    time_id as int,
                ));
                assert(outcome@ == outs[d as int]);
            }
            let ghost cmds_pre = cmds.deep_view();
            let ghost errs_pre = errs@;
            match outcome {
                NotifyOutcome::Dispatch(cmd) => {
                    cmds.push(cmd);
                },
                NotifyOutcome::Failed(m) => {
                    errs.push(m);
                },
                NotifyOutcome::Skipped => {},
                NotifyOutcome::NotTriggered => {},
            }
            proof {
                assert(outs.take(d + 1) =~= outs.take(d as int).push(outs[d as int]));
                lemma_cmds_of_push(outs.take(d as int), outs[d as int]);
                lemma_fails_of_push(outs.take(d as int), outs[d as int]);
                match outs[d as int] {
                    OutcomeModel::Dispatch(c) => {
                        assert(cmds.deep_view() =~~= cmds_pre.push(c));
                        assert(cmds_pre.push(c) =~= cmds_pre + seq![c]);
                    },
                    _ => {
                        assert(cmds.deep_view() =~~= cmds_pre);
                        assert(cmds_pre + Seq::<Seq<char>>::empty() =~= cmds_pre);
                    },
                }
                assert forall|j: int| 0 <= j < rules0.len() implies {
                    &&& (#[trigger] self.rules@[j]).command == rules0[j].command
                    &&& self.rules@[j].dependencies == rules0[j].dependencies
                    &&& self.rules@[j].condition == rules0[j].condition
                    &&& self.rules@[j].dependent_vars == rules0[j].dependent_vars
                    &&& self.rules@[j].last_time_id == (if dirty_view.take(d + 1).contains(
                        j as usize,
                    ) {
                        time_id as int
                    } else {
                        rules0[j].last_time_id as int
                    })
                } by {
                    assert(dirty_view.take(d + 1) =~= dirty_view.take(d as int).push(idx));
                    assert(dirty_view.take(d + 1)[d as int] == idx);
                    assert(dirty_view.take(d + 1).contains(idx));
                    if j == idx as int {
                        assert(self.rules@[j] == rule);
                    } else {
                        assert(self.rules@[j] == rules_mid[j]);
                        if dirty_view.take(d + 1).contains(j as usize) {
                            let q = choose|q: int|
                                0 <= q < d + 1 && #[trigger] dirty_view.take(d + 1)[q] == (
                                j as usize);
                            if q < d {
                                assert(dirty_view.take(d as int)[q] == (j as usize));
                            } else {
                                assert((j as usize) == idx);
                                assert(j == idx as int);
                            }
                        } else {
                            assert(!dirty_view.take(d as int).contains(j as usize)) by {
                                if dirty_view.take(d as int).contains(j as usize) {
                                    let q = choose|q: int|
                                        0 <= q < d && #[trigger] dirty_view.take(d as int)[q]
                                            == (j as usize);
                                    assert(dirty_view.take(d + 1)[q] == (j as usize));
                                }
                            }
                        }
                    }
                }
            }
            d = d + 1;
        }
        proof {
            assert(outs.take(nd as int) =~= outs);
            assert(dirty_view.take(nd as int) =~= dirty_view);
            let coll2 = collect_snaps(
                old(self).system_state_map@,
                old(self).subscribers@,
                snaps_view(snapshots@),
                Seq::empty(),
                Seq::empty(),
            ).2;
            assert(coll2 == dirty_view);
            assert forall|j: int| 0 <= j < rules0.len() implies (
            #[trigger] self.rules@[j]).last_time_id == (if coll2.contains(j as usize) {
                time_id as int
            } else {
                old(self).rules@[j].last_time_id as int
            }) by {
                assert(self.rules@[j].last_time_id == (if dirty_view.take(
                    nd as int,
                ).contains(j as usize) {
                    time_id as int
                } else {
                    rules0[j].last_time_id as int
                }));
            }
            assert forall|r2: int| 0 <= r2 < self.rules@.len() implies (
            #[trigger] self.rules@[r2]).wf() by {
                assert(rules0[r2].wf());
            }
            assert(self.wf());
        }
        (cmds, errs)
    }

    /// The next tick id: increments and wraps to 0 past the maximum;
    /// never collides with the never-notified sentinel.
    pub fn next_time_id(time_id: i32) -> (r: i32)
        requires
            0 <= time_id,
        ensures
            r == (time_id as int + 1) % (i32::MAX as int),
            0 <= r < i32::MAX,
            r != NEVER_NOTIFIED,
    {
        (time_id % i32::MAX + 1) % i32::MAX
    }
}

/// All of an index entry's bucket values are below the bound.
pub open spec fn bucket_bound_holds(
    subs: Seq<(String, Vec<usize>)>,
    p: int,
    bound: int,
) -> bool {
    forall|j: int| 0 <= j < subs[p].1@.len() ==> (#[trigger] subs[p].1@[j] as int) < bound
}

/// Copies a vector of indices.
fn copy_usizes(v: &Vec<usize>) -> (r: Vec<usize>)
    ensures
        r@ == v@,
{
    let mut r: Vec<usize> = Vec::new();
    let n = v.len();
    let mut i: usize = 0;
    while i < n
        invariant
            i <= n,
            n == v@.len(),
            r@ =~= v@.take(i as int),
        decreases n - i,
    {
        r.push(v[i]);
        i = i + 1;
    }
    proof {
        assert(r@ =~= v@);
    }
    r
}

} // verus!
