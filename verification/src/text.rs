use vstd::prelude::*;

verus! {

// ---------------------------------------------------------------------------
// Conversions between `str`/`String` and `Vec<char>`
// ---------------------------------------------------------------------------

/// Copies the characters of a string slice into a vector.
pub fn str_to_chars(s: &str) -> (r: Vec<char>)
    ensures
        r@ == s@,
{
    let n = s.unicode_len();
    let mut r: Vec<char> = Vec::new();
    let mut i: usize = 0;
    while i < n
        invariant
            i <= n,
            n == s@.len(),
            r@ =~= s@.take(i as int),
        decreases n - i,
    {
        r.push(s.get_char(i));
        i = i + 1;
    }
    proof {
        assert(r@ =~= s@);
    }
    r
}

/// Relies on `String`'s `FromIterator` over `char`: collecting characters
/// yields the string made of exactly those characters, in order.
#[verifier::external_body]
pub fn chars_to_string(v: &Vec<char>) -> (r: String)
    ensures
        r@ == v@,
{
    v.iter().collect()
}

/// Decides view equality of two string slices.
pub fn str_eq(a: &str, b: &str) -> (r: bool)
    ensures
        r == (a@ == b@),
{
    let na = a.unicode_len();
    let nb = b.unicode_len();
    if na != nb {
        return false;
    }
    let mut i: usize = 0;
    while i < na
        invariant
            i <= na,
            na == a@.len(),
            na == b@.len(),
            forall|j: int| 0 <= j < i ==> a@[j] == b@[j],
        decreases na - i,
    {
        if a.get_char(i) != b.get_char(i) {
            return false;
        }
        i = i + 1;
    }
    proof {
        assert(a@ =~= b@);
    }
    true
}

// ---------------------------------------------------------------------------
// Small vector helpers
// ---------------------------------------------------------------------------

/// Copies `v[from..to]` into a fresh vector.
pub fn subrange_vec(v: &Vec<char>, from: usize, to: usize) -> (r: Vec<char>)
    requires
        from <= to <= v@.len(),
    ensures
        r@ == v@.subrange(from as int, to as int),
{
    let mut r: Vec<char> = Vec::new();
    let mut i: usize = from;
    while i < to
        invariant
            from <= i <= to <= v@.len(),
            r@ =~= v@.subrange(from as int, i as int),
        decreases to - i,
    {
        r.push(v[i]);
        i = i + 1;
    }
    proof {
        assert(r@ =~= v@.subrange(from as int, to as int));
    }
    r
}

/// Appends all characters of `src` to `dst`.
pub fn append_chars(dst: &mut Vec<char>, src: &Vec<char>)
    ensures
        final(dst)@ == old(dst)@ + src@,
{
    let n = src.len();
    let mut i: usize = 0;
    while i < n
        invariant
            i <= n,
            n == src@.len(),
            dst@ =~= old(dst)@ + src@.take(i as int),
        decreases n - i,
    {
        dst.push(src[i]);
        i = i + 1;
    }
    proof {
        assert(dst@ =~= old(dst)@ + src@);
    }
}

// ---------------------------------------------------------------------------
// Character classes
// ---------------------------------------------------------------------------

pub open spec fn is_space_char(c: char) -> bool {
    c == ' ' || c == '\t' || c == '\r' || c == '\n'
}

/// Decides `is_space_char`.
pub fn is_space_exec(c: char) -> (r: bool)
    ensures
        r == is_space_char(c),
{
    c == ' ' || c == '\t' || c == '\r' || c == '\n'
}

/// A character that may occur in a variable name.
pub open spec fn is_name_char(c: char) -> bool {
    ('a' <= c && c <= 'z') || ('A' <= c && c <= 'Z') || ('0' <= c && c <= '9') || c == '_' || c
        == '-'
}

/// Decides `is_name_char`.
pub fn is_name_char_exec(c: char) -> (r: bool)
    ensures
        r == is_name_char(c),
{
    ('a' <= c && c <= 'z') || ('A' <= c && c <= 'Z') || ('0' <= c && c <= '9') || c == '_' || c
        == '-'
}

/// A character that may start a variable name: as `is_name_char` but no digit.
pub open spec fn is_name_start_char(c: char) -> bool {
    ('a' <= c && c <= 'z') || ('A' <= c && c <= 'Z') || c == '_' || c == '-'
}

/// Decides `is_name_start_char`.
pub fn is_name_start_exec(c: char) -> (r: bool)
    ensures
        r == is_name_start_char(c),
{
    ('a' <= c && c <= 'z') || ('A' <= c && c <= 'Z') || c == '_' || c == '-'
}

pub open spec fn is_digit_char(c: char) -> bool {
    '0' <= c && c <= '9'
}

/// Decides `is_digit_char`.
pub fn is_digit_exec(c: char) -> (r: bool)
    ensures
        r == is_digit_char(c),
{
    '0' <= c && c <= '9'
}

// ---------------------------------------------------------------------------
// Trimming
// ---------------------------------------------------------------------------

pub open spec fn spec_trim_front(s: Seq<char>) -> Seq<char>
    decreases s.len(),
{
    if s.len() > 0 && is_space_char(s[0]) {
        spec_trim_front(s.skip(1))
    } else {
        s
    }
}

pub open spec fn spec_trim_back(s: Seq<char>) -> Seq<char>
    decreases s.len(),
{
    if s.len() > 0 && is_space_char(s.last()) {
        spec_trim_back(s.drop_last())
    } else {
        s
    }
}

/// The sequence with leading and trailing whitespace removed.
pub open spec fn spec_trim(s: Seq<char>) -> Seq<char> {
    spec_trim_back(spec_trim_front(s))
}

fn trim_start_idx(v: &Vec<char>, i: usize) -> (r: usize)
    requires
        i <= v@.len(),
    ensures
        i <= r <= v@.len(),
        spec_trim_front(v@.skip(i as int)) == v@.skip(r as int),
    decreases v@.len() - i,
{
    if i == v.len() {
        proof {
            assert(v@.skip(i as int).len() == 0);
        }
        i
    } else if is_space_exec(v[i]) {
        proof {
            assert(v@.skip(i as int)[0] == v@[i as int]);
            assert(v@.skip(i as int).skip(1) =~= v@.skip(i + 1));
        }
        trim_start_idx(v, i + 1)
    } else {
        proof {
            assert(v@.skip(i as int)[0] == v@[i as int]);
        }
        i
    }
}

fn trim_end_idx(v: &Vec<char>, j: usize) -> (r: usize)
    requires
        j <= v@.len(),
    ensures
        r <= j,
        spec_trim_back(v@.take(j as int)) == v@.take(r as int),
    decreases j,
{
    if j == 0 {
        proof {
            assert(v@.take(0).len() == 0);
        }
        0
    } else if is_space_exec(v[j - 1]) {
        proof {
            assert(v@.take(j as int).last() == v@[j - 1]);
            assert(v@.take(j as int).drop_last() =~= v@.take(j - 1));
        }
        trim_end_idx(v, j - 1)
    } else {
        proof {
            assert(v@.take(j as int).last() == v@[j - 1]);
        }
        j
    }
}

/// The characters of `v` with leading and trailing whitespace removed.
pub fn trim_chars(v: &Vec<char>) -> (r: Vec<char>)
    ensures
        r@ == spec_trim(v@),
{
    let st = trim_start_idx(v, 0);
    proof {
        assert(v@.skip(0) =~= v@);
    }
    let w = subrange_vec(v, st, v.len());
    proof {
        assert(w@ =~= v@.skip(st as int));
    }
    let en = trim_end_idx(&w, w.len());
    proof {
        assert(w@.take(w@.len() as int) =~= w@);
    }
    let r = subrange_vec(&w, 0, en);
    proof {
        assert(r@ =~= w@.take(en as int));
    }
    r
}

// ---------------------------------------------------------------------------
// Substring containment
// ---------------------------------------------------------------------------

/// `p` is a prefix of `s`.
pub open spec fn spec_starts_with(s: Seq<char>, p: Seq<char>) -> bool {
    p.len() <= s.len() && s.take(p.len() as int) == p
}

/// `p` occurs somewhere in `s` as a contiguous substring.
pub open spec fn spec_contains(s: Seq<char>, p: Seq<char>) -> bool
    decreases s.len(),
{
    if spec_starts_with(s, p) {
        true
    } else if s.len() == 0 {
        false
    } else {
        spec_contains(s.skip(1), p)
    }
}

/// Decides whether `p` is a prefix of `v[i..]`.
pub fn chars_starts_with(v: &Vec<char>, i: usize, p: &Vec<char>) -> (r: bool)
    requires
        i <= v@.len(),
    ensures
        r == spec_starts_with(v@.skip(i as int), p@),
{
    let pn = p.len();
    let vn = v.len();
    if vn - i < pn {
        return false;
    }
    let mut k: usize = 0;
    while k < pn
        invariant
            k <= pn,
            pn == p@.len(),
            vn == v@.len(),
            i <= vn,
            pn <= vn - i,
            forall|j: int| 0 <= j < k ==> v@[i + j] == p@[j],
        decreases pn - k,
    {
        if v[i + k] != p[k] {
            proof {
                assert(v@.skip(i as int).take(pn as int)[k as int] != p@[k as int]);
            }
            return false;
        }
        k = k + 1;
    }
    proof {
        assert(v@.skip(i as int).take(pn as int) =~= p@);
    }
    true
}

fn contains_from(v: &Vec<char>, i: usize, p: &Vec<char>) -> (r: bool)
    requires
        i <= v@.len(),
    ensures
        r == spec_contains(v@.skip(i as int), p@),
    decreases v@.len() - i,
{
    if chars_starts_with(v, i, p) {
        true
    } else if i == v.len() {
        proof {
            assert(v@.skip(i as int).len() == 0);
        }
        false
    } else {
        proof {
            assert(v@.skip(i as int).skip(1) =~= v@.skip(i + 1));
        }
        contains_from(v, i + 1, p)
    }
}

/// Decides `spec_contains`.
pub fn chars_contains(v: &Vec<char>, p: &Vec<char>) -> (r: bool)
    ensures
        r == spec_contains(v@, p@),
{
    proof {
        assert(v@.skip(0) =~= v@);
    }
    contains_from(v, 0, p)
}

// ---------------------------------------------------------------------------
// Splitting into lines and into whitespace-separated tokens
// ---------------------------------------------------------------------------

/// A line with one trailing carriage return removed, as `str::lines` does.
pub open spec fn strip_cr(s: Seq<char>) -> Seq<char> {
    if s.len() > 0 && s.last() == '\r' {
        s.drop_last()
    } else {
        s
    }
}

pub open spec fn lines_rec(s: Seq<char>, cur: Seq<char>) -> Seq<Seq<char>>
    decreases s.len(),
{
    if s.len() == 0 {
        if cur.len() == 0 {
            Seq::empty()
        } else {
            seq![cur]
        }
    } else if s[0] == '\n' {
        seq![strip_cr(cur)] + lines_rec(s.skip(1), Seq::empty())
    } else {
        lines_rec(s.skip(1), cur.push(s[0]))
    }
}

/// The lines of `s`, split at `\n` (a `\r` just before the `\n` is dropped);
/// a final line without a line ending is kept, an empty final segment is not.
pub open spec fn spec_lines(s: Seq<char>) -> Seq<Seq<char>> {
    lines_rec(s, Seq::empty())
}

fn strip_cr_exec(cur: Vec<char>) -> (r: Vec<char>)
    ensures
        r@ == strip_cr(cur@),
{
    let mut cur = cur;
    if cur.len() > 0 && cur[cur.len() - 1] == '\r' {
        cur.pop();
    }
    cur
}

fn lines_from(v: &Vec<char>, i: usize, cur: Vec<char>) -> (r: Vec<Vec<char>>)
    requires
        i <= v@.len(),
    ensures
        r.deep_view() == lines_rec(v@.skip(i as int), cur@),
    decreases v@.len() - i,
{
    if i == v.len() {
        proof {
            assert(v@.skip(i as int).len() == 0);
        }
        if cur.len() == 0 {
            let r: Vec<Vec<char>> = Vec::new();
            proof {
                assert(r.deep_view() =~~= Seq::<Seq<char>>::empty());
            }
            r
        } else {
            let mut r: Vec<Vec<char>> = Vec::new();
            r.push(cur);
            proof {
                assert(r.deep_view() =~~= lines_rec(v@.skip(i as int), cur@));
            }
            r
        }
    } else {
        let c = v[i];
        proof {
            assert(v@.skip(i as int)[0] == v@[i as int]);
            assert(v@.skip(i as int).skip(1) =~= v@.skip(i + 1));
        }
        if c == '\n' {
            let first = strip_cr_exec(cur);
            let rest = lines_from(v, i + 1, Vec::new());
            let mut r: Vec<Vec<char>> = Vec::new();
            r.push(first);
            let mut k: usize = 0;
            let n = rest.len();
            while k < n
                invariant
                    k <= n,
                    n == rest@.len(),
                    r.deep_view() =~~= seq![first@] + rest.deep_view().take(k as int),
                decreases n - k,
            {
                let ghost old_r = r.deep_view();
                let cloned = clone_chars(&rest[k]);
                r.push(cloned);
                proof {
                    assert(r.deep_view() =~~= old_r.push(rest@[k as int].deep_view()));
                    assert(rest.deep_view().take(k + 1) =~= rest.deep_view().take(k as int).push(
                        rest.deep_view()[k as int],
                    ));
                }
                k = k + 1;
            }
            proof {
                assert(rest.deep_view().take(n as int) =~= rest.deep_view());
                assert(r.deep_view() =~~= seq![strip_cr(cur@)] + lines_rec(
                    v@.skip(i + 1),
                    Seq::empty(),
                ));
            }
            r
        } else {
            let mut cur = cur;
            cur.push(c);
            lines_from(v, i + 1, cur)
        }
    }
}

/// Clones a character vector.
pub fn clone_chars(v: &Vec<char>) -> (r: Vec<char>)
    ensures
        r@ == v@,
{
    let mut r: Vec<char> = Vec::new();
    let n = v.len();
    let mut i: usize = 0;
    while i < n
        invariant
            i <= n,
            n == v@.len(),
            r@ =~= v@.take(i as int),
        decreases n - i,
    {
        r.push(v[i]);
        i = i + 1;
    }
    proof {
        assert(r@ =~= v@);
    }
    r
}

/// Splits `v` into its lines; see `spec_lines`.
pub fn split_lines(v: &Vec<char>) -> (r: Vec<Vec<char>>)
    ensures
        r.deep_view() == spec_lines(v@),
{
    proof {
        assert(v@.skip(0) =~= v@);
    }
    lines_from(v, 0, Vec::new())
}

pub open spec fn ws_rec(s: Seq<char>, cur: Seq<char>) -> Seq<Seq<char>>
    decreases s.len(),
{
    if s.len() == 0 {
        if cur.len() == 0 {
            Seq::empty()
        } else {
            seq![cur]
        }
    } else if is_space_char(s[0]) {
        if cur.len() == 0 {
            ws_rec(s.skip(1), Seq::empty())
        } else {
            seq![cur] + ws_rec(s.skip(1), Seq::empty())
        }
    } else {
        ws_rec(s.skip(1), cur.push(s[0]))
    }
}

/// The whitespace-separated tokens of `s`, in order, with no empty tokens.
pub open spec fn spec_split_ws(s: Seq<char>) -> Seq<Seq<char>> {
    ws_rec(s, Seq::empty())
}

fn ws_from(v: &Vec<char>, i: usize, cur: Vec<char>) -> (r: Vec<Vec<char>>)
    requires
        i <= v@.len(),
    ensures
        r.deep_view() == ws_rec(v@.skip(i as int), cur@),
    decreases v@.len() - i,
{
    if i == v.len() {
        proof {
            assert(v@.skip(i as int).len() == 0);
        }
        if cur.len() == 0 {
            let r: Vec<Vec<char>> = Vec::new();
            proof {
                assert(r.deep_view() =~~= Seq::<Seq<char>>::empty());
            }
            r
        } else {
            let mut r: Vec<Vec<char>> = Vec::new();
            r.push(cur);
            proof {
                assert(r.deep_view() =~~= seq![cur@]);
            }
            r
        }
    } else {
        let c = v[i];
        proof {
            assert(v@.skip(i as int)[0] == v@[i as int]);
            assert(v@.skip(i as int).skip(1) =~= v@.skip(i + 1));
        }
        if is_space_exec(c) {
            if cur.len() == 0 {
                proof {
                    assert(cur@ =~= Seq::<char>::empty());
                }
                ws_from(v, i + 1, cur)
            } else {
                let rest = ws_from(v, i + 1, Vec::new());
                let mut r: Vec<Vec<char>> = Vec::new();
                let ghost cur_view = cur@;
                r.push(cur);
                let ghost first_view = r.deep_view();
                proof {
                    assert(first_view =~~= seq![cur_view]);
                }
                let mut k: usize = 0;
                let n = rest.len();
                while k < n
                    invariant
                        k <= n,
                        n == rest@.len(),
                        r.deep_view() =~~= first_view + rest.deep_view().take(k as int),
                    decreases n - k,
                {
                    let ghost old_r = r.deep_view();
                    let cloned = clone_chars(&rest[k]);
                    r.push(cloned);
                    proof {
                        assert(r.deep_view() =~~= old_r.push(rest@[k as int].deep_view()));
                        assert(rest.deep_view().take(k + 1) =~= rest.deep_view().take(
                            k as int,
                        ).push(rest.deep_view()[k as int]));
                    }
                    k = k + 1;
                }
                proof {
                    assert(rest.deep_view().take(n as int) =~= rest.deep_view());
                    assert(r.deep_view() =~~= seq![cur_view] + ws_rec(
                        v@.skip(i + 1),
                        Seq::empty(),
                    ));
                }
                r
            }
        } else {
            let mut cur = cur;
            cur.push(c);
            ws_from(v, i + 1, cur)
        }
    }
}

/// Splits `v` into whitespace-separated tokens; see `spec_split_ws`.
pub fn split_ws(v: &Vec<char>) -> (r: Vec<Vec<char>>)
    ensures
        r.deep_view() == spec_split_ws(v@),
{
    proof {
        assert(v@.skip(0) =~= v@);
    }
    ws_from(v, 0, Vec::new())
}

// ---------------------------------------------------------------------------
// ASCII lower-casing
// ---------------------------------------------------------------------------

/// An upper-case ASCII letter mapped to lower case; all else unchanged.
pub open spec fn lower_char(c: char) -> char {
    if 'A' <= c && c <= 'Z' {
        (((c as u8) + 32) as u8) as char
    } else {
        c
    }
}

pub open spec fn spec_to_lower(s: Seq<char>) -> Seq<char> {
    s.map_values(|c: char| lower_char(c))
}

/// Maps every upper-case ASCII letter of `v` to lower case.
pub fn to_lower_chars(v: &Vec<char>) -> (r: Vec<char>)
    ensures
        r@ == spec_to_lower(v@),
{
    let mut r: Vec<char> = Vec::new();
    let n = v.len();
    let mut i: usize = 0;
    while i < n
        invariant
            i <= n,
            n == v@.len(),
            r@ =~= v@.take(i as int).map_values(|c: char| lower_char(c)),
        decreases n - i,
    {
        let c = v[i];
        if 'A' <= c && c <= 'Z' {
            r.push(((c as u8) + 32) as char);
        } else {
            r.push(c);
        }
        proof {
            assert(v@.take(i + 1).map_values(|c: char| lower_char(c)) =~= v@.take(
                i as int,
            ).map_values(|c: char| lower_char(c)).push(lower_char(v@[i as int])));
        }
        i = i + 1;
    }
    proof {
        assert(v@.take(n as int) =~= v@);
    }
    r
}

// ---------------------------------------------------------------------------
// Decimal rendering of integers
// ---------------------------------------------------------------------------

pub open spec fn spec_digit_char(d: int) -> char {
    ((48 + d) as u8) as char
}

/// The decimal digits of a non-negative integer, most significant first.
pub open spec fn spec_nat_dec(n: int) -> Seq<char>
    decreases n,
{
    if n < 10 {
        seq![spec_digit_char(if n >= 0 { n } else { 0 })]
    } else {
        spec_nat_dec(n / 10).push(spec_digit_char(n % 10))
    }
}

/// The decimal rendering of a signed integer, with `-` for negatives.
pub open spec fn spec_int_dec(n: int) -> Seq<char> {
    if n < 0 {
        seq!['-'] + spec_nat_dec(-n)
    } else {
        spec_nat_dec(n)
    }
}

fn u64_to_chars(n: u64) -> (r: Vec<char>)
    ensures
        r@ == spec_nat_dec(n as int),
    decreases n,
{
    if n < 10 {
        let d: u8 = 48 + (n as u8);
        let mut r: Vec<char> = Vec::new();
        r.push(d as char);
        proof {
            assert(r@ =~= seq![spec_digit_char(n as int)]);
        }
        r
    } else {
        let mut r = u64_to_chars(n / 10);
        let d: u8 = 48 + ((n % 10) as u8);
        r.push(d as char);
        r
    }
}

/// Renders a signed 64-bit integer in decimal; see `spec_int_dec`.
pub fn i64_to_chars(n: i64) -> (r: Vec<char>)
    ensures
        r@ == spec_int_dec(n as int),
{
    if n >= 0 {
        u64_to_chars(n as u64)
    } else {
        let m: u64 = if n == i64::MIN {
            9223372036854775808u64
        } else {
            (-n) as u64
        };
        let tail = u64_to_chars(m);
        let mut r: Vec<char> = Vec::new();
        r.push('-');
        append_chars(&mut r, &tail);
        proof {
            assert(r@ =~= seq!['-'] + spec_nat_dec(m as int));
        }
        r
    }
}

} // verus!
