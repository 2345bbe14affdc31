use vstd::prelude::*;

use crate::info_objects::{
    add_new, collect_entries, collect_snaps, idx_bucket, idx_has_key, spec_outcome,
    InfoPublisher, InfoSubscriber, OutcomeModel, NEVER_NOTIFIED,
};
use crate::expr::expr_vars;
use crate::values::AbstractValue;

verus! {

/// Idempotence: once a rule has been evaluated for a tick, its
/// `last_time_id` equals that tick, and any further evaluation attempt
/// with the same tick id is skipped — so at most one action is
/// dispatched per rule per tick, however often the attempt is repeated.
pub proof fn lemma_notify_idempotent(
    rule_after: InfoSubscriber,
    st: Map<Seq<char>, AbstractValue>,
    changed: Seq<Seq<char>>,
    time_id: int,
)
    requires
        rule_after.last_time_id == time_id,
    ensures
        spec_outcome(rule_after, st, changed, time_id) == OutcomeModel::Skipped,
{
}

/// Wraparound: the tick counter wraps to 0 past its maximum value, the
/// wrapped tick never collides with the never-notified sentinel, and a
/// rule last notified at the maximum tick is still eligible — not
/// skipped — at the wrapped tick 0.
pub proof fn lemma_wraparound_reeligible(
    rule: InfoSubscriber,
    st: Map<Seq<char>, AbstractValue>,
    changed: Seq<Seq<char>>,
)
    requires
        rule.last_time_id == i32::MAX - 1,
    ensures
        ((i32::MAX - 1) as int + 1) % (i32::MAX as int) == 0,
        0 != NEVER_NOTIFIED as int,
        spec_outcome(rule, st, changed, 0) != OutcomeModel::Skipped,
{
}

/// Provider isolation: a failed snapshot leaves the tick exactly as if
/// that provider were absent — every other provider's keys still update
/// the store and still make their rules dirty.
pub proof fn lemma_provider_isolation(
    st: Map<Seq<char>, AbstractValue>,
    subs: Seq<(String, Vec<usize>)>,
    snaps: Seq<Option<Seq<(Seq<char>, AbstractValue)>>>,
    changed: Seq<Seq<char>>,
    dirty: Seq<usize>,
    i: int,
)
    requires
        0 <= i < snaps.len(),
    ensures
        collect_snaps(st, subs, snaps.update(i, None), changed, dirty) == collect_snaps(
            st,
            subs,
            snaps.remove(i),
            changed,
            dirty,
        ),
    decreases snaps.len(),
{
    let upd = snaps.update(i, None);
    let rem = snaps.remove(i);
    if i == 0 {
        assert(upd[0] is None);
        assert(upd.skip(1) =~= snaps.skip(1));
        assert(rem =~= snaps.skip(1));
    } else {
        assert(upd[0] == snaps[0]);
        assert(rem[0] == snaps[0]);
        assert(upd.skip(1) =~= snaps.skip(1).update(i - 1, None));
        assert(rem.skip(1) =~= snaps.skip(1).remove(i - 1));
        match snaps[0] {
            None => {
                lemma_provider_isolation(st, subs, snaps.skip(1), changed, dirty, i - 1);
            },
            Some(es) => {
                let mid = collect_entries(st, subs, es, changed, dirty);
                lemma_provider_isolation(mid.0, subs, snaps.skip(1), mid.1, mid.2, i - 1);
            },
        }
    }
}

/// The changed-key list only grows during change detection.
proof fn lemma_entries_changed_monotone(
    st: Map<Seq<char>, AbstractValue>,
    subs: Seq<(String, Vec<usize>)>,
    es: Seq<(Seq<char>, AbstractValue)>,
    changed: Seq<Seq<char>>,
    dirty: Seq<usize>,
)
    ensures
        forall|k: Seq<char>|
            changed.contains(k) ==> #[trigger] collect_entries(
                st,
                subs,
                es,
                changed,
                dirty,
            ).1.contains(k),
    decreases es.len(),
{
    let res = collect_entries(st, subs, es, changed, dirty);
    if es.len() > 0 {
        let k0 = es[0].0;
        let v0 = es[0].1;
        if !idx_has_key(subs, k0) || (st.dom().contains(k0) && crate::values::same_value(
            st[k0],
            v0,
        )) {
            lemma_entries_changed_monotone(st, subs, es.skip(1), changed, dirty);
            assert(res == collect_entries(st, subs, es.skip(1), changed, dirty));
        } else {
            let changed2 = if changed.contains(k0) {
                changed
            } else {
                changed.push(k0)
            };
            let dirty2 = add_new(dirty, idx_bucket(subs, k0));
            lemma_entries_changed_monotone(st.insert(k0, v0), subs, es.skip(1), changed2, dirty2);
            assert(res == collect_entries(st.insert(k0, v0), subs, es.skip(1), changed2, dirty2));
            assert forall|k: Seq<char>| changed.contains(k) implies #[trigger] res.1.contains(k)
                by {
                let j = choose|j: int| 0 <= j < changed.len() && changed[j] == k;
                assert(changed2[j] == k);
                assert(changed2.contains(k));
                assert(collect_entries(
                    st.insert(k0, v0),
                    subs,
                    es.skip(1),
                    changed2,
                    dirty2,
                ).1.contains(k));
            }
        }
    }
}

proof fn lemma_snaps_changed_monotone(
    st: Map<Seq<char>, AbstractValue>,
    subs: Seq<(String, Vec<usize>)>,
    snaps: Seq<Option<Seq<(Seq<char>, AbstractValue)>>>,
    changed: Seq<Seq<char>>,
    dirty: Seq<usize>,
)
    ensures
        forall|k: Seq<char>|
            changed.contains(k) ==> #[trigger] collect_snaps(
                st,
                subs,
                snaps,
                changed,
                dirty,
            ).1.contains(k),
    decreases snaps.len(),
{
    let res = collect_snaps(st, subs, snaps, changed, dirty);
    if snaps.len() > 0 {
        match snaps[0] {
            None => {
                lemma_snaps_changed_monotone(st, subs, snaps.skip(1), changed, dirty);
                assert(res == collect_snaps(st, subs, snaps.skip(1), changed, dirty));
            },
            Some(es) => {
                lemma_entries_changed_monotone(st, subs, es, changed, dirty);
                let mid = collect_entries(st, subs, es, changed, dirty);
                lemma_snaps_changed_monotone(mid.0, subs, snaps.skip(1), mid.1, mid.2);
                assert(res == collect_snaps(mid.0, subs, snaps.skip(1), mid.1, mid.2));
                assert forall|k: Seq<char>| changed.contains(k) implies #[trigger] res.1.contains(
                    k,
                ) by {
                    assert(mid.1.contains(k));
                    assert(collect_snaps(mid.0, subs, snaps.skip(1), mid.1, mid.2).1.contains(k));
                }
            },
        }
    }
}

proof fn lemma_add_new_traces(dirty: Seq<usize>, bucket: Seq<usize>)
    ensures
        forall|x: usize|
            #[trigger] add_new(dirty, bucket).contains(x) ==> (dirty.contains(x)
                || bucket.contains(x)),
    decreases bucket.len(),
{
    if bucket.len() > 0 {
        let d2 = if dirty.contains(bucket[0]) {
            dirty
        } else {
            dirty.push(bucket[0])
        };
        lemma_add_new_traces(d2, bucket.skip(1));
        assert forall|x: usize| #[trigger] add_new(dirty, bucket).contains(x) implies (
        dirty.contains(x) || bucket.contains(x)) by {
            assert(add_new(dirty, bucket) == add_new(d2, bucket.skip(1)));
            assert(add_new(d2, bucket.skip(1)).contains(x));
            assert(d2.contains(x) || bucket.skip(1).contains(x));
            if d2.contains(x) {
                if !dirty.contains(x) {
                    let j = choose|j: int| 0 <= j < d2.len() && d2[j] == x;
                    if j < dirty.len() {
                        assert(dirty[j] == x);
                    } else {
                        assert(x == bucket[0]);
                        assert(bucket.contains(x));
                    }
                }
            } else {
                assert(bucket.skip(1).contains(x));
                let j = choose|j: int|
                    0 <= j < bucket.skip(1).len() && #[trigger] bucket.skip(1)[j] == x;
                assert(bucket[j + 1] == x);
                assert(bucket.contains(x));
            }
        }
    }
}

proof fn lemma_entries_dirty_sound(
    st: Map<Seq<char>, AbstractValue>,
    subs: Seq<(String, Vec<usize>)>,
    es: Seq<(Seq<char>, AbstractValue)>,
    changed: Seq<Seq<char>>,
    dirty: Seq<usize>,
)
    ensures
        forall|x: usize|
            #[trigger] collect_entries(st, subs, es, changed, dirty).2.contains(x) ==> (
            dirty.contains(x) || (exists|k: Seq<char>|
                collect_entries(st, subs, es, changed, dirty).1.contains(k) && idx_has_key(
                    subs,
                    k,
                ) && #[trigger] idx_bucket(subs, k).contains(x))),
    decreases es.len(),
{
    if es.len() > 0 {
        let k0 = es[0].0;
        let v0 = es[0].1;
        let res = collect_entries(st, subs, es, changed, dirty);
        if !idx_has_key(subs, k0) || (st.dom().contains(k0) && crate::values::same_value(
            st[k0],
            v0,
        )) {
            lemma_entries_dirty_sound(st, subs, es.skip(1), changed, dirty);
            assert(res == collect_entries(st, subs, es.skip(1), changed, dirty));
        } else {
            let changed2 = if changed.contains(k0) {
                changed
            } else {
                changed.push(k0)
            };
            let dirty2 = add_new(dirty, idx_bucket(subs, k0));
            let st2 = st.insert(k0, v0);
            lemma_entries_dirty_sound(st2, subs, es.skip(1), changed2, dirty2);
            lemma_add_new_traces(dirty, idx_bucket(subs, k0));
            lemma_entries_changed_monotone(st2, subs, es.skip(1), changed2, dirty2);
            let inner = collect_entries(st2, subs, es.skip(1), changed2, dirty2);
            assert(res == inner);
            assert(changed2.contains(k0)) by {
                if changed.contains(k0) {
                } else {
                    assert(changed2.last() == k0);
                }
            }
            assert(inner.1.contains(k0));
            assert forall|x: usize| #[trigger] res.2.contains(x) implies (dirty.contains(x) || (
            exists|k: Seq<char>|
                res.1.contains(k) && idx_has_key(subs, k) && #[trigger] idx_bucket(
                    subs,
                    k,
                ).contains(x))) by {
                if !dirty.contains(x) {
                    assert(inner.2.contains(x));
                    if dirty2.contains(x) {
                        assert(add_new(dirty, idx_bucket(subs, k0)).contains(x));
                        assert(idx_bucket(subs, k0).contains(x));
                        assert(idx_has_key(subs, k0));
                        assert(res.1.contains(k0) && idx_has_key(subs, k0) && idx_bucket(
                            subs,
                            k0,
                        ).contains(x));
                    } else {
                        let k = choose|k: Seq<char>|
                            inner.1.contains(k) && idx_has_key(subs, k) && #[trigger] idx_bucket(
                                subs,
                                k,
                            ).contains(x);
                        assert(res.1.contains(k) && idx_has_key(subs, k) && idx_bucket(
                            subs,
                            k,
                        ).contains(x));
                    }
                }
            }
        }
    }
}

/// Soundness of the dirty set: every rule index made dirty by a tick's
/// change detection sits in the bucket of some key that was detected as
/// changed this tick — a rule becomes dirty only through an actual
/// value change of one of its keys.
pub proof fn lemma_dirty_sound(
    st: Map<Seq<char>, AbstractValue>,
    subs: Seq<(String, Vec<usize>)>,
    snaps: Seq<Option<Seq<(Seq<char>, AbstractValue)>>>,
    changed: Seq<Seq<char>>,
    dirty: Seq<usize>,
)
    ensures
        forall|x: usize|
            #[trigger] collect_snaps(st, subs, snaps, changed, dirty).2.contains(x) ==> (
            dirty.contains(x) || (exists|k: Seq<char>|
                collect_snaps(st, subs, snaps, changed, dirty).1.contains(k) && idx_has_key(
                    subs,
                    k,
                ) && #[trigger] idx_bucket(subs, k).contains(x))),
    decreases snaps.len(),
{
    if snaps.len() > 0 {
        let res = collect_snaps(st, subs, snaps, changed, dirty);
        match snaps[0] {
            None => {
                lemma_dirty_sound(st, subs, snaps.skip(1), changed, dirty);
                assert(res == collect_snaps(st, subs, snaps.skip(1), changed, dirty));
            },
            Some(es) => {
                let mid = collect_entries(st, subs, es, changed, dirty);
                lemma_entries_dirty_sound(st, subs, es, changed, dirty);
                lemma_dirty_sound(mid.0, subs, snaps.skip(1), mid.1, mid.2);
                lemma_snaps_changed_monotone(mid.0, subs, snaps.skip(1), mid.1, mid.2);
                let inner = collect_snaps(mid.0, subs, snaps.skip(1), mid.1, mid.2);
                assert(res == inner);
                assert forall|x: usize| #[trigger] res.2.contains(x) implies (dirty.contains(x)
                    || (exists|k: Seq<char>|
                    res.1.contains(k) && idx_has_key(subs, k) && #[trigger] idx_bucket(
                        subs,
                        k,
                    ).contains(x))) by {
                    if !dirty.contains(x) {
                        assert(inner.2.contains(x));
                        if mid.2.contains(x) {
                            let k = choose|k: Seq<char>|
                                mid.1.contains(k) && idx_has_key(subs, k)
                                    && #[trigger] idx_bucket(subs, k).contains(x);
                            assert(inner.1.contains(k));
                            assert(res.1.contains(k) && idx_has_key(subs, k) && idx_bucket(
                                subs,
                                k,
                            ).contains(x));
                        } else {
                            let k = choose|k: Seq<char>|
                                inner.1.contains(k) && idx_has_key(subs, k)
                                    && #[trigger] idx_bucket(subs, k).contains(x);
                            assert(res.1.contains(k) && idx_has_key(subs, k) && idx_bucket(
                                subs,
                                k,
                            ).contains(x));
                        }
                    }
                }
            },
        }
    }
}

/// All entries of all successful snapshots, in processing order.
pub open spec fn snaps_entries(snaps: Seq<Option<Seq<(Seq<char>, AbstractValue)>>>) -> Seq<
    (Seq<char>, AbstractValue),
>
    decreases snaps.len(),
{
    if snaps.len() == 0 {
        Seq::empty()
    } else {
        (match snaps[0] {
            None => Seq::empty(),
            Some(es) => es,
        }) + snaps_entries(snaps.skip(1))
    }
}

/// A key occurs among the entries.
pub open spec fn in_entry_keys(es: Seq<(Seq<char>, AbstractValue)>, k: Seq<char>) -> bool {
    exists|j: int| 0 <= j < es.len() && (#[trigger] es[j]).0 == k
}

/// No key occurs twice among the entries.
pub open spec fn entry_keys_distinct(es: Seq<(Seq<char>, AbstractValue)>) -> bool {
    forall|i: int, j: int| 0 <= i < j < es.len() ==> (#[trigger] es[i]).0 != (#[trigger] es[j]).0
}

/// Entries whose registered keys already carry their snapshot value
/// leave store, changed list and dirty list untouched.
proof fn lemma_entries_settled(
    st: Map<Seq<char>, AbstractValue>,
    subs: Seq<(String, Vec<usize>)>,
    es: Seq<(Seq<char>, AbstractValue)>,
    changed: Seq<Seq<char>>,
    dirty: Seq<usize>,
)
    requires
        forall|j: int|
            0 <= j < es.len() && idx_has_key(subs, (#[trigger] es[j]).0) ==> st.dom().contains(
                es[j].0,
            ) && crate::values::same_value(st[es[j].0], es[j].1),
    ensures
        collect_entries(st, subs, es, changed, dirty) == (st, changed, dirty),
    decreases es.len(),
{
    if es.len() > 0 {
        assert(es[0] == es[0]);
        assert forall|j: int|
            0 <= j < es.skip(1).len() && idx_has_key(subs, (#[trigger] es.skip(1)[j]).0)
            implies st.dom().contains(es.skip(1)[j].0) && crate::values::same_value(
            st[es.skip(1)[j].0],
            es.skip(1)[j].1,
        ) by {
            assert(es.skip(1)[j] == es[j + 1]);
        }
        lemma_entries_settled(st, subs, es.skip(1), changed, dirty);
    }
}

proof fn lemma_snaps_settled(
    st: Map<Seq<char>, AbstractValue>,
    subs: Seq<(String, Vec<usize>)>,
    snaps: Seq<Option<Seq<(Seq<char>, AbstractValue)>>>,
    changed: Seq<Seq<char>>,
    dirty: Seq<usize>,
)
    requires
        forall|j: int|
            0 <= j < snaps_entries(snaps).len() && idx_has_key(
                subs,
                (#[trigger] snaps_entries(snaps)[j]).0,
            ) ==> st.dom().contains(snaps_entries(snaps)[j].0) && crate::values::same_value(
                st[snaps_entries(snaps)[j].0],
                snaps_entries(snaps)[j].1,
            ),
    ensures
        collect_snaps(st, subs, snaps, changed, dirty) == (st, changed, dirty),
    decreases snaps.len(),
{
    if snaps.len() > 0 {
        let whole = snaps_entries(snaps);
        let rest = snaps_entries(snaps.skip(1));
        match snaps[0] {
            None => {
                assert(whole =~= rest);
                assert forall|j: int|
                    0 <= j < rest.len() && idx_has_key(subs, (#[trigger] rest[j]).0)
                    implies st.dom().contains(rest[j].0) && crate::values::same_value(
                    st[rest[j].0],
                    rest[j].1,
                ) by {
                    assert(whole[j] == rest[j]);
                }
                lemma_snaps_settled(st, subs, snaps.skip(1), changed, dirty);
            },
            Some(es) => {
                assert(whole == es + rest);
                assert forall|j: int|
                    0 <= j < es.len() && idx_has_key(subs, (#[trigger] es[j]).0) implies st.dom()
                    .contains(es[j].0) && crate::values::same_value(st[es[j].0], es[j].1) by {
                    assert(whole[j] == es[j]);
                }
                lemma_entries_settled(st, subs, es, changed, dirty);
                assert forall|j: int|
                    0 <= j < rest.len() && idx_has_key(subs, (#[trigger] rest[j]).0)
                    implies st.dom().contains(rest[j].0) && crate::values::same_value(
                    st[rest[j].0],
                    rest[j].1,
                ) by {
                    assert(whole[es.len() + j] == rest[j]);
                }
                lemma_snaps_settled(st, subs, snaps.skip(1), changed, dirty);
            },
        }
    }
}

/// One pass over entries with pairwise-distinct keys leaves every
/// registered snapshot key carrying its snapshot value, and every other
/// key untouched.
proof fn lemma_entries_establish(
    st: Map<Seq<char>, AbstractValue>,
    subs: Seq<(String, Vec<usize>)>,
    es: Seq<(Seq<char>, AbstractValue)>,
    changed: Seq<Seq<char>>,
    dirty: Seq<usize>,
)
    requires
        entry_keys_distinct(es),
    ensures
        ({
            let st1 = collect_entries(st, subs, es, changed, dirty).0;
            &&& forall|j: int|
                0 <= j < es.len() && idx_has_key(subs, (#[trigger] es[j]).0)
                    ==> st1.dom().contains(es[j].0) && crate::values::same_value(
                    st1[es[j].0],
                    es[j].1,
                )
            &&& forall|k: Seq<char>|
                !(#[trigger] in_entry_keys(es, k)) ==> (st1.dom().contains(k)
                    == st.dom().contains(k)) && (st.dom().contains(k) ==> st1[k] == st[k])
        }),
    decreases es.len(),
{
    if es.len() > 0 {
        let k0 = es[0].0;
        let v0 = es[0].1;
        let st1 = collect_entries(st, subs, es, changed, dirty).0;
        assert forall|i: int, j: int| 0 <= i < j < es.skip(1).len() implies (
        #[trigger] es.skip(1)[i]).0 != (#[trigger] es.skip(1)[j]).0 by {
            assert(es.skip(1)[i] == es[i + 1]);
            assert(es.skip(1)[j] == es[j + 1]);
        }
        assert(!in_entry_keys(es.skip(1), k0)) by {
            if in_entry_keys(es.skip(1), k0) {
                let j = choose|j: int|
                    0 <= j < es.skip(1).len() && (#[trigger] es.skip(1)[j]).0 == k0;
                assert(es[j + 1].0 == k0);
                assert(es[0].0 != es[j + 1].0);
            }
        }
        let st_mid: Map<Seq<char>, AbstractValue> = if !idx_has_key(subs, k0) || (
        st.dom().contains(k0) && crate::values::same_value(st[k0], v0)) {
            st
        } else {
            st.insert(k0, v0)
        };
        if !idx_has_key(subs, k0) || (st.dom().contains(k0) && crate::values::same_value(
            st[k0],
            v0,
        )) {
            lemma_entries_establish(st, subs, es.skip(1), changed, dirty);
            assert(collect_entries(st, subs, es, changed, dirty) == collect_entries(
                st,
                subs,
                es.skip(1),
                changed,
                dirty,
            ));
        } else {
            let changed2 = if changed.contains(k0) {
                changed
            } else {
                changed.push(k0)
            };
            let dirty2 = add_new(dirty, idx_bucket(subs, k0));
            lemma_entries_establish(st.insert(k0, v0), subs, es.skip(1), changed2, dirty2);
            assert(collect_entries(st, subs, es, changed, dirty) == collect_entries(
                st.insert(k0, v0),
                subs,
                es.skip(1),
                changed2,
                dirty2,
            ));
        }
        assert forall|j: int| 0 <= j < es.len() && idx_has_key(subs, (#[trigger] es[j]).0)
            implies st1.dom().contains(es[j].0) && crate::values::same_value(
            st1[es[j].0],
            es[j].1,
        ) by {
            if j == 0 {
                assert(st_mid.dom().contains(k0) && crate::values::same_value(st_mid[k0], v0));
                assert(st1.dom().contains(k0) == st_mid.dom().contains(k0));
                assert(st1[k0] == st_mid[k0]);
            } else {
                assert(es.skip(1)[j - 1] == es[j]);
            }
        }
        assert forall|k: Seq<char>| !in_entry_keys(es, k) implies (st1.dom().contains(k)
            == st.dom().contains(k)) && (st.dom().contains(k) ==> st1[k] == st[k]) by {
            assert(k != k0) by {
                if k == k0 {
                    assert((es[0]).0 == k);
                }
            }
            assert(!in_entry_keys(es.skip(1), k)) by {
                if in_entry_keys(es.skip(1), k) {
                    let j = choose|j: int|
                        0 <= j < es.skip(1).len() && (#[trigger] es.skip(1)[j]).0 == k;
                    assert(es[j + 1].0 == k);
                }
            }
            assert(st_mid.dom().contains(k) == st.dom().contains(k));
        }
    }
}

proof fn lemma_snaps_establish(
    st: Map<Seq<char>, AbstractValue>,
    subs: Seq<(String, Vec<usize>)>,
    snaps: Seq<Option<Seq<(Seq<char>, AbstractValue)>>>,
    changed: Seq<Seq<char>>,
    dirty: Seq<usize>,
)
    requires
        entry_keys_distinct(snaps_entries(snaps)),
    ensures
        ({
            let st1 = collect_snaps(st, subs, snaps, changed, dirty).0;
            &&& forall|j: int|
                0 <= j < snaps_entries(snaps).len() && idx_has_key(
                    subs,
                    (#[trigger] snaps_entries(snaps)[j]).0,
                ) ==> st1.dom().contains(snaps_entries(snaps)[j].0)
                    && crate::values::same_value(
                    st1[snaps_entries(snaps)[j].0],
                    snaps_entries(snaps)[j].1,
                )
            &&& forall|k: Seq<char>|
                !(#[trigger] in_entry_keys(snaps_entries(snaps), k)) ==> (st1.dom().contains(k)
                    == st.dom().contains(k)) && (st.dom().contains(k) ==> st1[k] == st[k])
        }),
    decreases snaps.len(),
{
    if snaps.len() > 0 {
        let whole = snaps_entries(snaps);
        let rest = snaps_entries(snaps.skip(1));
        let st1 = collect_snaps(st, subs, snaps, changed, dirty).0;
        match snaps[0] {
            None => {
                assert(whole =~= rest);
                lemma_snaps_establish(st, subs, snaps.skip(1), changed, dirty);
                assert(collect_snaps(st, subs, snaps, changed, dirty) == collect_snaps(
                    st,
                    subs,
                    snaps.skip(1),
                    changed,
                    dirty,
                ));
            },
            Some(es) => {
                assert(whole == es + rest);
                assert forall|i: int, j: int| 0 <= i < j < es.len() implies (
                #[trigger] es[i]).0 != (#[trigger] es[j]).0 by {
                    assert(whole[i] == es[i]);
                    assert(whole[j] == es[j]);
                }
                assert forall|i: int, j: int| 0 <= i < j < rest.len() implies (
                #[trigger] rest[i]).0 != (#[trigger] rest[j]).0 by {
                    assert(whole[es.len() + i] == rest[i]);
                    assert(whole[es.len() + j] == rest[j]);
                }
                lemma_entries_establish(st, subs, es, changed, dirty);
                let mid = collect_entries(st, subs, es, changed, dirty);
                lemma_snaps_establish(mid.0, subs, snaps.skip(1), mid.1, mid.2);
                assert(collect_snaps(st, subs, snaps, changed, dirty) == collect_snaps(
                    mid.0,
                    subs,
                    snaps.skip(1),
                    mid.1,
                    mid.2,
                ));
                assert forall|j: int|
                    0 <= j < whole.len() && idx_has_key(subs, (#[trigger] whole[j]).0)
                    implies st1.dom().contains(whole[j].0) && crate::values::same_value(
                    st1[whole[j].0],
                    whole[j].1,
                ) by {
                    if j < es.len() {
                        assert(whole[j] == es[j]);
                        assert(mid.0.dom().contains(es[j].0) && crate::values::same_value(
                            mid.0[es[j].0],
                            es[j].1,
                        ));
                        assert(!in_entry_keys(rest, es[j].0)) by {
                            if in_entry_keys(rest, es[j].0) {
                                let q = choose|q: int|
                                    0 <= q < rest.len() && (#[trigger] rest[q]).0 == es[j].0;
                                assert(whole[es.len() + q] == rest[q]);
                                assert(whole[j].0 != whole[es.len() + q].0);
                            }
                        }
                    } else {
                        assert(whole[j] == rest[j - es.len()]);
                    }
                }
                assert forall|k: Seq<char>| !in_entry_keys(whole, k) implies (st1.dom().contains(
                    k,
                ) == st.dom().contains(k)) && (st.dom().contains(k) ==> st1[k] == st[k]) by {
                    assert(!in_entry_keys(es, k)) by {
                        if in_entry_keys(es, k) {
                            let q = choose|q: int|
                                0 <= q < es.len() && (#[trigger] es[q]).0 == k;
                            assert(whole[q] == es[q]);
                            assert(in_entry_keys(whole, k));
                        }
                    }
                    assert(!in_entry_keys(rest, k)) by {
                        if in_entry_keys(rest, k) {
                            let q = choose|q: int|
                                0 <= q < rest.len() && (#[trigger] rest[q]).0 == k;
                            assert(whole[es.len() + q] == rest[q]);
                            assert(in_entry_keys(whole, k));
                        }
                    }
                    assert(mid.0.dom().contains(k) == st.dom().contains(k));
                    assert(st.dom().contains(k) ==> mid.0[k] == st[k]);
                    assert(st1.dom().contains(k) == mid.0.dom().contains(k));
                    assert(mid.0.dom().contains(k) ==> st1[k] == mid.0[k]);
                }
            },
        }
    }
}

/// Dry-run suppression: when no key is reported twice, a change-detection
/// pass over the same snapshots that just populated the store detects no
/// change — the dry startup pass yields an empty changed-key list and an
/// empty dirty set on the following pass.
pub proof fn lemma_dry_run_suppresses(
    st0: Map<Seq<char>, AbstractValue>,
    subs: Seq<(String, Vec<usize>)>,
    snaps: Seq<Option<Seq<(Seq<char>, AbstractValue)>>>,
)
    requires
        entry_keys_distinct(snaps_entries(snaps)),
    ensures
        ({
            let st1 = collect_snaps(st0, subs, snaps, Seq::empty(), Seq::empty()).0;
            collect_snaps(st1, subs, snaps, Seq::empty(), Seq::empty()) == (
                st1,
                Seq::<Seq<char>>::empty(),
                Seq::<usize>::empty(),
            )
        }),
{
    let st1 = collect_snaps(st0, subs, snaps, Seq::empty(), Seq::empty()).0;
    lemma_snaps_establish(st0, subs, snaps, Seq::empty(), Seq::empty());
    lemma_snaps_settled(st1, subs, snaps, Seq::empty(), Seq::empty());
}

/// A dirty rule depends on a changed key: combined with a well-formed
/// subscription index, soundness of the dirty set reaches the rules
/// themselves — every rule made dirty has at least one dependent key
/// among the tick's changed keys.
pub proof fn lemma_dirty_rule_depends_on_changed(
    engine: InfoPublisher,
    snaps: Seq<Option<Seq<(Seq<char>, AbstractValue)>>>,
)
    requires
        engine.wf(),
    ensures
        forall|x: usize|
            #[trigger] collect_snaps(
                engine.system_state_map@,
                engine.subscribers@,
                snaps,
                Seq::empty(),
                Seq::empty(),
            ).2.contains(x) ==> (x as int) < engine.rules@.len() && (exists|k: Seq<char>|
                collect_snaps(
                    engine.system_state_map@,
                    engine.subscribers@,
                    snaps,
                    Seq::empty(),
                    Seq::empty(),
                ).1.contains(k) && #[trigger] expr_vars(
                    engine.rules@[x as int].condition@,
                ).contains(k)),
{
    let res = collect_snaps(
        engine.system_state_map@,
        engine.subscribers@,
        snaps,
        Seq::empty(),
        Seq::empty(),
    );
    lemma_dirty_sound(
        engine.system_state_map@,
        engine.subscribers@,
        snaps,
        Seq::empty(),
        Seq::empty(),
    );
    assert forall|x: usize| #[trigger] res.2.contains(x) implies (x as int)
        < engine.rules@.len() && (exists|k: Seq<char>|
        res.1.contains(k) && #[trigger] expr_vars(engine.rules@[x as int].condition@).contains(
            k,
        )) by {
        assert(!Seq::<usize>::empty().contains(x));
        let k = choose|k: Seq<char>|
            res.1.contains(k) && idx_has_key(engine.subscribers@, k) && #[trigger] idx_bucket(
                engine.subscribers@,
                k,
            ).contains(x);
        let p = crate::info_objects::idx_key_pos(engine.subscribers@, k);
        assert(0 <= p < engine.subscribers@.len() && engine.subscribers@[p].0@ == k);
        let b = engine.subscribers@[p].1@;
        let j = choose|j: int| 0 <= j < b.len() && b[j] == x;
        assert((engine.subscribers@[p].1@[j] as int) < engine.rules@.len());
        assert(expr_vars(
            engine.rules@[engine.subscribers@[p].1@[j] as int].condition@,
        ).contains(engine.subscribers@[p].0@));
    }
}

} // verus!
