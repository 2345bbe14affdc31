use vstd::prelude::*;

verus! {

/// One piece of observed system state: a tagged value.
/// Equality and ordering are meaningful only within one variant;
/// comparing values of different variants always yields false.
#[derive(Debug)]
pub enum SystemStateVar {
    Str(String),
    Bool(bool),
    Int(i64),
}

/// Mathematical model of a `SystemStateVar`.
pub enum AbstractValue {
    Str(Seq<char>),
    Bool(bool),
    Int(int),
}

impl View for SystemStateVar {
    type V = AbstractValue;

    open spec fn view(&self) -> AbstractValue {
        match self {
            SystemStateVar::Str(s) => AbstractValue::Str(s@),
            SystemStateVar::Bool(b) => AbstractValue::Bool(*b),
            SystemStateVar::Int(i) => AbstractValue::Int(*i as int),
        }
    }
}

/// Variant-aware equality: values of different variants are never equal.
pub open spec fn same_value(a: AbstractValue, b: AbstractValue) -> bool {
    match (a, b) {
        (AbstractValue::Str(x), AbstractValue::Str(y)) => x == y,
        (AbstractValue::Bool(x), AbstractValue::Bool(y)) => x == y,
        (AbstractValue::Int(x), AbstractValue::Int(y)) => x == y,
        _ => false,
    }
}

/// Lexicographic order on character sequences, by code point.
pub open spec fn lex_lt(a: Seq<char>, b: Seq<char>) -> bool
    decreases a.len(),
{
    if b.len() == 0 {
        false
    } else if a.len() == 0 {
        true
    } else if a[0] == b[0] {
        lex_lt(a.skip(1), b.skip(1))
    } else {
        (a[0] as int) < (b[0] as int)
    }
}

/// Both values carry the same variant.
pub open spec fn same_variant(a: AbstractValue, b: AbstractValue) -> bool {
    match (a, b) {
        (AbstractValue::Str(_), AbstractValue::Str(_)) => true,
        (AbstractValue::Bool(_), AbstractValue::Bool(_)) => true,
        (AbstractValue::Int(_), AbstractValue::Int(_)) => true,
        _ => false,
    }
}

/// Variant-aware strict order: values of different variants are unordered
/// (the comparison yields false).
pub open spec fn value_lt(a: AbstractValue, b: AbstractValue) -> bool {
    match (a, b) {
        (AbstractValue::Str(x), AbstractValue::Str(y)) => lex_lt(x, y),
        (AbstractValue::Bool(x), AbstractValue::Bool(y)) => !x && y,
        (AbstractValue::Int(x), AbstractValue::Int(y)) => x < y,
        _ => false,
    }
}

impl SystemStateVar {
    /// Decides `same_value` on the models of the two values.
    pub fn value_eq(&self, other: &SystemStateVar) -> (r: bool)
        ensures
            r == same_value(self@, other@),
    {
        match (self, other) {
            (SystemStateVar::Str(x), SystemStateVar::Str(y)) => String::eq(x, y),
            (SystemStateVar::Bool(x), SystemStateVar::Bool(y)) => *x == *y,
            (SystemStateVar::Int(x), SystemStateVar::Int(y)) => *x == *y,
            _ => false,
        }
    }

    /// Decides `value_lt` on the models of the two values.
    pub fn value_lt_exec(&self, other: &SystemStateVar) -> (r: bool)
        ensures
            r == value_lt(self@, other@),
    {
        match (self, other) {
            (SystemStateVar::Str(x), SystemStateVar::Str(y)) => str_lex_lt(x.as_str(), y.as_str()),
            (SystemStateVar::Bool(x), SystemStateVar::Bool(y)) => !*x && *y,
            (SystemStateVar::Int(x), SystemStateVar::Int(y)) => *x < *y,
            _ => false,
        }
    }

    /// A copy with the same model.
    pub fn duplicate(&self) -> (r: SystemStateVar)
        ensures
            r@ == self@,
    {
        match self {
            SystemStateVar::Str(s) => SystemStateVar::Str(s.clone()),
            SystemStateVar::Bool(b) => SystemStateVar::Bool(*b),
            SystemStateVar::Int(i) => SystemStateVar::Int(*i),
        }
    }

    /// A short label naming the kind of the value, for diagnostics.
    pub fn kind_label(&self) -> (r: &'static str)
        ensures
            self@ is Str ==> r@ == "String "@,
            self@ is Int ==> r@ == "Integer"@,
            self@ is Bool ==> r@ == "Boolean"@,
    {
        match self {
            SystemStateVar::Str(_) => "String ",
            SystemStateVar::Int(_) => "Integer",
            SystemStateVar::Bool(_) => "Boolean",
        }
    }
}

/// The characters of the textual form of a boolean.
pub open spec fn spec_bool_chars(b: bool) -> Seq<char> {
    if b {
        seq!['t', 'r', 'u', 'e']
    } else {
        seq!['f', 'a', 'l', 's', 'e']
    }
}

/// The textual literal form of a value: a string as its own characters,
/// a boolean as `true`/`false`, an integer in decimal.
pub open spec fn spec_render(v: AbstractValue) -> Seq<char> {
    match v {
        AbstractValue::Str(s) => s,
        AbstractValue::Bool(b) => spec_bool_chars(b),
        AbstractValue::Int(i) => crate::text::spec_int_dec(i),
    }
}

/// Renders a value as the characters of its textual literal form.
pub fn render_chars(v: &SystemStateVar) -> (r: Vec<char>)
    ensures
        r@ == spec_render(v@),
{
    match v {
        SystemStateVar::Str(s) => crate::text::str_to_chars(s.as_str()),
        SystemStateVar::Bool(b) => {
            let mut r: Vec<char> = Vec::new();
            if *b {
                r.push('t');
                r.push('r');
                r.push('u');
                r.push('e');
            } else {
                r.push('f');
                r.push('a');
                r.push('l');
                r.push('s');
                r.push('e');
            }
            proof {
                assert(r@ =~= spec_bool_chars(*b));
            }
            r
        },
        SystemStateVar::Int(i) => crate::text::i64_to_chars(*i),
    }
}

/// Decides `lex_lt` on the views of two string slices.
pub fn str_lex_lt(a: &str, b: &str) -> (r: bool)
    ensures
        r == lex_lt(a@, b@),
{
    let a_len = a.unicode_len();
    let b_len = b.unicode_len();
    let mut i: usize = 0;
    proof {
        assert(a@.skip(0) =~= a@);
        assert(b@.skip(0) =~= b@);
    }
    loop
        invariant
            i <= a_len,
            i <= b_len,
            a_len == a@.len(),
            b_len == b@.len(),
            forall|j: int| 0 <= j < i ==> a@[j] == b@[j],
            lex_lt(a@, b@) == lex_lt(a@.skip(i as int), b@.skip(i as int)),
        decreases a_len - i,
    {
        if i == b_len {
            proof {
                assert(b@.skip(i as int).len() == 0);
            }
            return false;
        }
        if i == a_len {
            proof {
                assert(a@.skip(i as int).len() == 0);
                assert(b@.skip(i as int).len() > 0);
            }
            return true;
        }
        let ca = a.get_char(i);
        let cb = b.get_char(i);
        if ca == cb {
            proof {
                assert(a@.skip(i as int)[0] == a@[i as int]);
                assert(b@.skip(i as int)[0] == b@[i as int]);
                assert(a@.skip(i as int).skip(1) =~= a@.skip(i + 1));
                assert(b@.skip(i as int).skip(1) =~= b@.skip(i + 1));
            }
            i = i + 1;
        } else {
            proof {
                assert(a@.skip(i as int)[0] == a@[i as int]);
                assert(b@.skip(i as int)[0] == b@[i as int]);
            }
            return (ca as u32) < (cb as u32);
        }
    }
}

} // verus!
