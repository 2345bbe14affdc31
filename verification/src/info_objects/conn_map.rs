use vstd::prelude::*;

use crate::text::{
    chars_contains, chars_to_string, spec_contains, spec_lines, spec_split_ws, split_lines,
    split_ws, str_to_chars,
};

verus! {

// An insertion-ordered association list from display name to connection
// state, shared by the display and monitor providers: the diff scans
// walk its entries in insertion order.

/// The model of the association list: name and state per entry, in order.
pub open spec fn pairs_view(m: Seq<(String, bool)>) -> Seq<(Seq<char>, bool)> {
    m.map_values(|p: (String, bool)| (p.0@, p.1))
}

/// No name occurs twice.
pub open spec fn keys_distinct(m: Seq<(Seq<char>, bool)>) -> bool {
    forall|i: int, j: int| 0 <= i < j < m.len() ==> (#[trigger] m[i]).0 != (#[trigger] m[j]).0
}

/// The state recorded under a name, if any.
pub open spec fn assoc_get(m: Seq<(Seq<char>, bool)>, k: Seq<char>) -> Option<bool>
    decreases m.len(),
{
    if m.len() == 0 {
        None
    } else if m[0].0 == k {
        Some(m[0].1)
    } else {
        assoc_get(m.skip(1), k)
    }
}

/// Overwrites the state under a name in place, or appends a new entry.
pub open spec fn assoc_set(m: Seq<(Seq<char>, bool)>, k: Seq<char>, v: bool) -> Seq<
    (Seq<char>, bool),
>
    decreases m.len(),
{
    if m.len() == 0 {
        seq![(k, v)]
    } else if m[0].0 == k {
        seq![(k, v)] + m.skip(1)
    } else {
        seq![m[0]] + assoc_set(m.skip(1), k, v)
    }
}

/// Applies each parsed status in order.
pub open spec fn apply_statuses(
    m: Seq<(Seq<char>, bool)>,
    sts: Seq<(Seq<char>, bool)>,
) -> Seq<(Seq<char>, bool)>
    decreases sts.len(),
{
    if sts.len() == 0 {
        m
    } else {
        apply_statuses(assoc_set(m, sts[0].0, sts[0].1), sts.skip(1))
    }
}

/// How many entries are in the connected state.
pub open spec fn count_true(m: Seq<(Seq<char>, bool)>) -> int
    decreases m.len(),
{
    if m.len() == 0 {
        0
    } else {
        (if m[0].1 {
            1int
        } else {
            0int
        }) + count_true(m.skip(1))
    }
}

/// The first name disconnected before and connected now.
pub open spec fn connect_scan(
    oldm: Seq<(Seq<char>, bool)>,
    newm: Seq<(Seq<char>, bool)>,
) -> Option<Seq<char>>
    decreases oldm.len(),
{
    if oldm.len() == 0 {
        None
    } else if !oldm[0].1 && assoc_get(newm, oldm[0].0) == Some(true) {
        Some(oldm[0].0)
    } else {
        connect_scan(oldm.skip(1), newm)
    }
}

/// The first name disconnected now and connected before.
pub open spec fn disconnect_scan(
    newm: Seq<(Seq<char>, bool)>,
    oldm: Seq<(Seq<char>, bool)>,
) -> Option<Seq<char>>
    decreases newm.len(),
{
    if newm.len() == 0 {
        None
    } else if !newm[0].1 && assoc_get(oldm, newm[0].0) == Some(true) {
        Some(newm[0].0)
    } else {
        disconnect_scan(newm.skip(1), oldm)
    }
}

// ---------------------------------------------------------------------------
// Parsing the display query output
// ---------------------------------------------------------------------------

pub open spec fn connected_seq() -> Seq<char> {
    seq!['c', 'o', 'n', 'n', 'e', 'c', 't', 'e', 'd']
}

/// The status a line reports: for a line containing `connected` with at
/// least two whitespace tokens, the first token names the display and the
/// second tells whether it is exactly `connected`.
pub open spec fn status_of_line(l: Seq<char>) -> Option<(Seq<char>, bool)> {
    if spec_contains(l, connected_seq()) {
        let toks = spec_split_ws(l);
        if toks.len() >= 2 {
            Some((toks[0], toks[1] == connected_seq()))
        } else {
            None
        }
    } else {
        None
    }
}

/// The statuses all lines report, in order.
pub open spec fn statuses_of(ls: Seq<Seq<char>>) -> Seq<(Seq<char>, bool)>
    decreases ls.len(),
{
    if ls.len() == 0 {
        Seq::empty()
    } else {
        statuses_of(ls.drop_last()) + (match status_of_line(ls.last()) {
            Some(s) => seq![s],
            None => Seq::empty(),
        })
    }
}

/// Decides view equality of two character vectors.
pub fn chars_eq(a: &Vec<char>, b: &Vec<char>) -> (r: bool)
    ensures
        r == (a@ == b@),
{
    let n = a.len();
    if n != b.len() {
        return false;
    }
    let mut i: usize = 0;
    while i < n
        invariant
            i <= n,
            n == a@.len(),
            n == b@.len(),
            forall|j: int| 0 <= j < i ==> a@[j] == b@[j],
        decreases n - i,
    {
        if a[i] != b[i] {
            return false;
        }
        i = i + 1;
    }
    proof {
        assert(a@ =~= b@);
    }
    true
}

/// Parses the full query output into per-display statuses;
/// agrees exactly with `statuses_of` over the output's lines.
pub fn parse_statuses(output: &str) -> (r: Vec<(String, bool)>)
    ensures
        pairs_view(r@) == statuses_of(spec_lines(output@)),
{
    let chars = str_to_chars(output);
    let lines = split_lines(&chars);
    let ghost lsv = spec_lines(output@);
    proof {
        assert(lines.deep_view() == lsv);
    }
    let mut pat: Vec<char> = Vec::new();
    pat.push('c');
    pat.push('o');
    pat.push('n');
    pat.push('n');
    pat.push('e');
    pat.push('c');
    pat.push('t');
    pat.push('e');
    pat.push('d');
    proof {
        assert(pat@ =~= connected_seq());
    }
    let mut r: Vec<(String, bool)> = Vec::new();
    let n = lines.len();
    let mut i: usize = 0;
    proof {
        assert(lsv.take(0) =~= Seq::<Seq<char>>::empty());
        assert(pairs_view(r@) =~= statuses_of(lsv.take(0)));
    }
    while i < n
        invariant
            i <= n,
            n == lines@.len(),
            n == lsv.len(),
            lsv == spec_lines(output@),
            lines.deep_view() == lsv,
            pat@ == connected_seq(),
            pairs_view(r@) == statuses_of(lsv.take(i as int)),
        decreases n - i,
    {
        let ghost pre = pairs_view(r@);
        proof {
            assert(lines.deep_view()[i as int] == lines@[i as int].deep_view());
            assert(lines@[i as int]@ =~= lines@[i as int].deep_view());
            assert(lines@[i as int]@ == lsv[i as int]);
            assert(lsv.take(i + 1).drop_last() =~= lsv.take(i as int));
            assert(lsv.take(i + 1).last() == lsv[i as int]);
        }
        if chars_contains(&lines[i], &pat) {
            let toks = split_ws(&lines[i]);
            proof {
                assert(toks.deep_view() == spec_split_ws(lsv[i as int]));
            }
            if toks.len() >= 2 {
                proof {
                    assert(toks.deep_view()[0] == toks@[0]@);
                    assert(toks.deep_view()[1] == toks@[1]@);
                }
                let name = chars_to_string(&toks[0]);
                let is_conn = chars_eq(&toks[1], &pat);
                r.push((name, is_conn));
                proof {
                    assert(name@ == spec_split_ws(lsv[i as int])[0]);
                    assert(is_conn == (spec_split_ws(lsv[i as int])[1] == connected_seq()));
                    assert(status_of_line(lsv[i as int]) == Some((name@, is_conn)));
                    assert(pairs_view(r@) =~= pre.push((name@, is_conn)));
                    assert(statuses_of(lsv.take(i + 1)) =~= pre.push((name@, is_conn)));
                }
            } else {
                proof {
                    assert(statuses_of(lsv.take(i + 1)) =~= pre);
                }
            }
        } else {
            proof {
                assert(statuses_of(lsv.take(i + 1)) =~= pre);
            }
        }
        i = i + 1;
    }
    proof {
        assert(lsv.take(n as int) =~= lsv);
    }
    r
}

// ---------------------------------------------------------------------------
// Executable association-list operations
// ---------------------------------------------------------------------------

fn get_from(m: &Vec<(String, bool)>, i: usize, k: &String) -> (r: Option<bool>)
    requires
        i <= m@.len(),
    ensures
        r == assoc_get(pairs_view(m@).skip(i as int), k@),
    decreases m@.len() - i,
{
    proof {
        assert(pairs_view(m@).skip(i as int).len() == m@.len() - i);
    }
    if i == m.len() {
        None
    } else {
        proof {
            assert(pairs_view(m@).skip(i as int)[0] == pairs_view(m@)[i as int]);
            assert(pairs_view(m@).skip(i as int).skip(1) =~= pairs_view(m@).skip(i + 1));
        }
        if String::eq(&m[i].0, k) {
            Some(m[i].1)
        } else {
            get_from(m, i + 1, k)
        }
    }
}

/// Looks a name up; agrees exactly with `assoc_get`.
pub fn map_get(m: &Vec<(String, bool)>, k: &String) -> (r: Option<bool>)
    ensures
        r == assoc_get(pairs_view(m@), k@),
{
    proof {
        assert(pairs_view(m@).skip(0) =~= pairs_view(m@));
    }
    get_from(m, 0, k)
}

fn set_from(m: &mut Vec<(String, bool)>, i: usize, k: &String, v: bool)
    requires
        i <= old(m)@.len(),
    ensures
        pairs_view(final(m)@) == pairs_view(old(m)@).take(i as int) + assoc_set(
            pairs_view(old(m)@).skip(i as int),
            k@,
            v,
        ),
    decreases old(m)@.len() - i,
{
    let ghost m0 = pairs_view(m@);
    if i == m.len() {
        let key_copy = k.clone();
        m.push((key_copy, v));
        proof {
            assert(m0.skip(i as int).len() == 0);
            assert(pairs_view(m@) =~= m0.push((k@, v)));
            assert(m0.take(i as int) =~= m0);
            assert(m0.push((k@, v)) =~= m0 + seq![(k@, v)]);
        }
    } else {
        proof {
            assert(m0.skip(i as int)[0] == m0[i as int]);
            assert(m0.skip(i as int).skip(1) =~= m0.skip(i + 1));
        }
        if String::eq(&m[i].0, k) {
            let key_copy = k.clone();
            m.set(i, (key_copy, v));
            proof {
                assert(pairs_view(m@) =~= m0.update(i as int, (k@, v)));
                assert(m0.update(i as int, (k@, v)) =~= m0.take(i as int) + (seq![(k@, v)]
                    + m0.skip(i + 1)));
            }
        } else {
            set_from(m, i + 1, k, v);
            proof {
                assert(m0.take(i + 1) =~= m0.take(i as int).push(m0[i as int]));
                assert(m0.take(i as int).push(m0[i as int]) + assoc_set(m0.skip(i + 1), k@, v)
                    =~= m0.take(i as int) + (seq![m0[i as int]] + assoc_set(
                    m0.skip(i + 1),
                    k@,
                    v,
                )));
            }
        }
    }
}

/// Writes a name's state; agrees exactly with `assoc_set`.
pub fn map_set(m: &mut Vec<(String, bool)>, k: &String, v: bool)
    ensures
        pairs_view(final(m)@) == assoc_set(pairs_view(old(m)@), k@, v),
{
    set_from(m, 0, k, v);
    proof {
        assert(pairs_view(old(m)@).take(0) =~= Seq::<(Seq<char>, bool)>::empty());
        assert(pairs_view(old(m)@).skip(0) =~= pairs_view(old(m)@));
        assert(Seq::<(Seq<char>, bool)>::empty() + assoc_set(pairs_view(old(m)@), k@, v)
            =~= assoc_set(pairs_view(old(m)@), k@, v));
    }
}

/// Applies each status in order; agrees exactly with `apply_statuses`.
pub fn map_apply_statuses(m: &mut Vec<(String, bool)>, sts: &Vec<(String, bool)>)
    ensures
        pairs_view(final(m)@) == apply_statuses(pairs_view(old(m)@), pairs_view(sts@)),
{
    let ghost stv = pairs_view(sts@);
    let n = sts.len();
    let mut i: usize = 0;
    proof {
        assert(stv.skip(0) =~= stv);
    }
    while i < n
        invariant
            i <= n,
            n == sts@.len(),
            stv == pairs_view(sts@),
            apply_statuses(pairs_view(old(m)@), stv) == apply_statuses(
                pairs_view(m@),
                stv.skip(i as int),
            ),
        decreases n - i,
    {
        proof {
            assert(stv.skip(i as int)[0] == stv[i as int]);
            assert(stv[i as int] == (sts@[i as int].0@, sts@[i as int].1));
            assert(stv.skip(i as int).skip(1) =~= stv.skip(i + 1));
        }
        map_set(m, &sts[i].0, sts[i].1);
        i = i + 1;
    }
}

/// Counts the connected entries; agrees exactly with `count_true`.
pub fn count_connected(m: &Vec<(String, bool)>) -> (r: usize)
    ensures
        r == count_true(pairs_view(m@)),
        r <= m@.len(),
{
    let n = m.len();
    let mut acc: usize = 0;
    let mut i: usize = 0;
    proof {
        assert(pairs_view(m@).skip(0) =~= pairs_view(m@));
        lemma_count_true_bound(pairs_view(m@));
    }
    while i < n
        invariant
            i <= n,
            n == m@.len(),
            acc <= i,
            count_true(pairs_view(m@)) == acc + count_true(pairs_view(m@).skip(i as int)),
        decreases n - i,
    {
        proof {
            assert(pairs_view(m@).skip(i as int)[0] == pairs_view(m@)[i as int]);
            assert(pairs_view(m@).skip(i as int).skip(1) =~= pairs_view(m@).skip(i + 1));
        }
        if m[i].1 {
            acc = acc + 1;
        }
        i = i + 1;
    }
    proof {
        assert(pairs_view(m@).skip(n as int).len() == 0);
    }
    acc
}

pub proof fn lemma_assoc_set_len(m: Seq<(Seq<char>, bool)>, k: Seq<char>, v: bool)
    ensures
        m.len() <= assoc_set(m, k, v).len() <= m.len() + 1,
    decreases m.len(),
{
    if m.len() > 0 && m[0].0 != k {
        lemma_assoc_set_len(m.skip(1), k, v);
    }
}

/// Applying statuses grows the map by at most one entry per status.
pub proof fn lemma_apply_statuses_len(m: Seq<(Seq<char>, bool)>, sts: Seq<(Seq<char>, bool)>)
    ensures
        apply_statuses(m, sts).len() <= m.len() + sts.len(),
    decreases sts.len(),
{
    if sts.len() > 0 {
        lemma_assoc_set_len(m, sts[0].0, sts[0].1);
        lemma_apply_statuses_len(assoc_set(m, sts[0].0, sts[0].1), sts.skip(1));
    }
}

proof fn lemma_count_true_bound(m: Seq<(Seq<char>, bool)>)
    ensures
        0 <= count_true(m) <= m.len(),
    decreases m.len(),
{
    if m.len() > 0 {
        lemma_count_true_bound(m.skip(1));
    }
}

fn connect_scan_from(oldm: &Vec<(String, bool)>, i: usize, newm: &Vec<(String, bool)>) -> (r:
    Option<String>)
    requires
        i <= oldm@.len(),
    ensures
        match r {
            Some(s) => connect_scan(pairs_view(oldm@).skip(i as int), pairs_view(newm@))
                == Some(s@),
            None => connect_scan(pairs_view(oldm@).skip(i as int), pairs_view(newm@)) is None,
        },
    decreases oldm@.len() - i,
{
    proof {
        assert(pairs_view(oldm@).skip(i as int).len() == oldm@.len() - i);
    }
    if i == oldm.len() {
        None
    } else {
        proof {
            assert(pairs_view(oldm@).skip(i as int)[0] == pairs_view(oldm@)[i as int]);
            assert(pairs_view(oldm@).skip(i as int).skip(1) =~= pairs_view(oldm@).skip(i + 1));
        }
        if !oldm[i].1 {
            match map_get(newm, &oldm[i].0) {
                Some(true) => {
                    return Some(oldm[i].0.clone());
                },
                _ => {},
            }
        }
        connect_scan_from(oldm, i + 1, newm)
    }
}

/// The first newly connected display; agrees exactly with `connect_scan`.
pub fn run_connect_scan(oldm: &Vec<(String, bool)>, newm: &Vec<(String, bool)>) -> (r: Option<
    String,
>)
    ensures
        match r {
            Some(s) => connect_scan(pairs_view(oldm@), pairs_view(newm@)) == Some(s@),
            None => connect_scan(pairs_view(oldm@), pairs_view(newm@)) is None,
        },
{
    proof {
        assert(pairs_view(oldm@).skip(0) =~= pairs_view(oldm@));
    }
    connect_scan_from(oldm, 0, newm)
}

fn disconnect_scan_from(newm: &Vec<(String, bool)>, i: usize, oldm: &Vec<(String, bool)>) -> (r:
    Option<String>)
    requires
        i <= newm@.len(),
    ensures
        match r {
            Some(s) => disconnect_scan(pairs_view(newm@).skip(i as int), pairs_view(oldm@))
                == Some(s@),
            None => disconnect_scan(pairs_view(newm@).skip(i as int), pairs_view(oldm@))
                is None,
        },
    decreases newm@.len() - i,
{
    proof {
        assert(pairs_view(newm@).skip(i as int).len() == newm@.len() - i);
    }
    if i == newm.len() {
        None
    } else {
        proof {
            assert(pairs_view(newm@).skip(i as int)[0] == pairs_view(newm@)[i as int]);
            assert(pairs_view(newm@).skip(i as int).skip(1) =~= pairs_view(newm@).skip(i + 1));
        }
        if !newm[i].1 {
            match map_get(oldm, &newm[i].0) {
                Some(true) => {
                    return Some(newm[i].0.clone());
                },
                _ => {},
            }
        }
        disconnect_scan_from(newm, i + 1, oldm)
    }
}

/// The first newly disconnected display; agrees exactly with
/// `disconnect_scan`.
pub fn run_disconnect_scan(newm: &Vec<(String, bool)>, oldm: &Vec<(String, bool)>) -> (r: Option<
    String,
>)
    ensures
        match r {
            Some(s) => disconnect_scan(pairs_view(newm@), pairs_view(oldm@)) == Some(s@),
            None => disconnect_scan(pairs_view(newm@), pairs_view(oldm@)) is None,
        },
{
    proof {
        assert(pairs_view(newm@).skip(0) =~= pairs_view(newm@));
    }
    disconnect_scan_from(newm, 0, oldm)
}

/// Copies the association list.
pub fn map_clone(m: &Vec<(String, bool)>) -> (r: Vec<(String, bool)>)
    ensures
        pairs_view(r@) == pairs_view(m@),
{
    let mut r: Vec<(String, bool)> = Vec::new();
    let n = m.len();
    let mut i: usize = 0;
    while i < n
        invariant
            i <= n,
            n == m@.len(),
            pairs_view(r@) =~= pairs_view(m@).take(i as int),
        decreases n - i,
    {
        let ghost pre = pairs_view(r@);
        r.push((m[i].0.clone(), m[i].1));
        proof {
            assert(pairs_view(r@) =~= pre.push((m@[i as int].0@, m@[i as int].1)));
            assert(pairs_view(m@).take(i + 1) =~= pairs_view(m@).take(i as int).push(
                pairs_view(m@)[i as int],
            ));
        }
        i = i + 1;
    }
    proof {
        assert(pairs_view(m@).take(n as int) =~= pairs_view(m@));
    }
    r
}

} // verus!
