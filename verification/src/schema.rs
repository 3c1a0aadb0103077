//! Plugin schemas and field validation. A schema describes the fields a
//! remote of one kind requires, in two ordered groups; validation walks
//! the basic group first, then the advanced group, and reports the first
//! failing field: a required field that is absent, a `number` field whose
//! value is not numeric, or a `checkbox` field whose value is not exactly
//! `true` or `false`.

use vstd::prelude::*;

use crate::config::has_key;
use crate::config::lookup;
use crate::text::find_idx;
use crate::text::has_char;

verus! {

// ---------------------------------------------------------------------------
// Numeric syntax
// ---------------------------------------------------------------------------

/// Whether `c` is a decimal digit.
pub open spec fn is_digit(c: char) -> bool {
    '0' <= c && c <= '9'
}

/// Whether every character of `s` is a decimal digit.
pub open spec fn all_digits(s: Seq<char>) -> bool {
    forall|i: int| 0 <= i < s.len() ==> is_digit(s[i])
}

/// The sequence with one leading `+` or `-` removed.
pub open spec fn strip_sign(s: Seq<char>) -> Seq<char> {
    if s.len() > 0 && (s[0] == '+' || s[0] == '-') {
        s.drop_first()
    } else {
        s
    }
}

/// Whether `c` matches the lowercase letter `l`, ignoring ASCII case.
pub open spec fn char_eq_ic(c: char, l: char) -> bool {
    c == l || c as int + 32 == l as int
}

/// Whether `a` spells the lowercase word `w`, ignoring ASCII case.
pub open spec fn eq_ignore_case(a: Seq<char>, w: Seq<char>) -> bool {
    a.len() == w.len() && forall|i: int| 0 <= i < a.len() ==> char_eq_ic(a[i], w[i])
}

/// The special spellings a numeric value may take besides digits.
pub open spec fn is_special_word(b: Seq<char>) -> bool {
    eq_ignore_case(b, seq!['i', 'n', 'f']) || eq_ignore_case(
        b,
        seq!['i', 'n', 'f', 'i', 'n', 'i', 't', 'y'],
    ) || eq_ignore_case(b, seq!['n', 'a', 'n'])
}

/// A mantissa: digits, optionally split by one dot, with at least one
/// digit somewhere.
pub open spec fn is_mantissa(m: Seq<char>) -> bool {
    if !has_char(m, '.') {
        m.len() > 0 && all_digits(m)
    } else {
        let d = find_idx(m, '.');
        m.len() > 1 && all_digits(m.take(d)) && all_digits(m.skip(d + 1))
    }
}

/// An exponent body: an optional sign, then at least one digit.
pub open spec fn is_exp_part(x: Seq<char>) -> bool {
    strip_sign(x).len() > 0 && all_digits(strip_sign(x)) && (x.len() == strip_sign(x).len()
        || x.len() == strip_sign(x).len() + 1)
}

/// The index of the first `e` or `E`, or the length if absent.
pub open spec fn find_e(s: Seq<char>) -> int
    decreases s.len(),
{
    if s.len() == 0 {
        0
    } else if s[0] == 'e' || s[0] == 'E' {
        0
    } else {
        1 + find_e(s.drop_first())
    }
}

/// A decimal number body: a mantissa, optionally followed by `e` or `E`
/// and an exponent.
pub open spec fn is_decimal(b: Seq<char>) -> bool {
    let p = find_e(b);
    if p == b.len() {
        is_mantissa(b)
    } else {
        is_mantissa(b.take(p)) && is_exp_part(b.skip(p + 1))
    }
}

/// The numeric syntax a `number` field accepts: an optional sign, then a
/// decimal number or one of the special spellings `inf`, `infinity` and
/// `nan` in any ASCII case.
pub open spec fn is_number(s: Seq<char>) -> bool {
    is_special_word(strip_sign(s)) || is_decimal(strip_sign(s))
}

proof fn lemma_find_e(s: Seq<char>)
    ensures
        0 <= find_e(s) <= s.len(),
        find_e(s) < s.len() ==> s[find_e(s)] == 'e' || s[find_e(s)] == 'E',
        forall|k: int| 0 <= k < find_e(s) ==> s[k] != 'e' && s[k] != 'E',
    decreases s.len(),
{
    if s.len() == 0 {
    } else if s[0] == 'e' || s[0] == 'E' {
    } else {
        let t = s.drop_first();
        lemma_find_e(t);
        assert(forall|k: int| 0 <= k < t.len() ==> t[k] == s[k + 1]);
        assert forall|k: int| 0 <= k < find_e(s) implies s[k] != 'e' && s[k] != 'E' by {
            if k > 0 {
                assert(t[k - 1] != 'e' && t[k - 1] != 'E');
            }
        }
    }
}

proof fn lemma_find_e_unique(s: Seq<char>, m: int)
    requires
        0 <= m <= s.len(),
        m < s.len() ==> s[m] == 'e' || s[m] == 'E',
        forall|k: int| 0 <= k < m ==> s[k] != 'e' && s[k] != 'E',
    ensures
        m == find_e(s),
    decreases s.len(),
{
    if s.len() == 0 {
    } else if s[0] == 'e' || s[0] == 'E' {
        if m > 0 {
            assert(s[0] != 'e' && s[0] != 'E');
        }
    } else {
        assert(m >= 1);
        let t = s.drop_first();
        assert(forall|k: int| 0 <= k < t.len() ==> t[k] == s[k + 1]);
        lemma_find_e_unique(t, m - 1);
    }
}

/// Whether every character of `v[from..to]` is a decimal digit.
fn all_digits_range(v: &Vec<char>, from: usize, to: usize) -> (r: bool)
    requires
        from <= to <= v@.len(),
    ensures
        r == all_digits(v@.subrange(from as int, to as int)),
{
    let mut i: usize = from;
    while i < to
        invariant
            from <= i <= to <= v@.len(),
            forall|k: int| from <= k < i ==> is_digit(v@[k]),
        decreases to - i,
    {
        let c = v[i];
        if !('0' <= c && c <= '9') {
            proof {
                assert(v@.subrange(from as int, to as int)[i - from] == v@[i as int]);
            }
            return false;
        }
        i = i + 1;
    }
    proof {
        assert(forall|k: int|
            0 <= k < to - from ==> is_digit(#[trigger] v@.subrange(from as int, to as int)[k]));
    }
    true
}

/// Whether `v[from..]` spells the word given in its lowercase form `wl`
/// and uppercase form `wu`, ignoring ASCII case.
fn eq_ignore_case_from(v: &Vec<char>, from: usize, wl: &Vec<char>, wu: &Vec<char>) -> (r: bool)
    requires
        from <= v@.len(),
        wl@.len() == wu@.len(),
        forall|i: int| 0 <= i < wl@.len() ==> (#[trigger] wu@[i]) as int + 32 == wl@[i] as int,
    ensures
        r == eq_ignore_case(v@.skip(from as int), wl@),
{
    let n = v.len() - from;
    if n != wl.len() {
        proof {
            assert(v@.skip(from as int).len() == n);
        }
        return false;
    }
    let mut i: usize = 0;
    while i < n
        invariant
            from + n == v@.len(),
            from + n <= usize::MAX,
            n == wl@.len(),
            wl@.len() == wu@.len(),
            forall|k: int|
                0 <= k < wl@.len() ==> (#[trigger] wu@[k]) as int + 32 == wl@[k] as int,
            i <= n,
            forall|k: int| 0 <= k < i ==> char_eq_ic(v@[from + k], wl@[k]),
        decreases n - i,
    {
        let c = v[from + i];
        let ok = c == wl[i] || c == wu[i];
        if !ok {
            proof {
                assert(v@.skip(from as int)[i as int] == v@[from + i]);
                if char_eq_ic(c, wl@[i as int]) {
                    assert(c as int == wu@[i as int] as int);
                    assert(c == wu@[i as int]);
                }
            }
            return false;
        }
        i = i + 1;
    }
    proof {
        assert(v@.skip(from as int).len() == n);
        assert(forall|k: int|
            0 <= k < n ==> #[trigger] v@.skip(from as int)[k] == v@[from + k]);
    }
    true
}

/// Whether the characters form a numeric value in the accepted syntax.
pub fn check_number(v: &Vec<char>) -> (r: bool)
    ensures
        r == is_number(v@),
{
    let start: usize = if v.len() > 0 && (v[0] == '+' || v[0] == '-') {
        1
    } else {
        0
    };
    proof {
        if start == 1 {
            assert(v@.drop_first() =~= v@.skip(1));
        } else {
            assert(v@.skip(0) =~= v@);
        }
        assert(strip_sign(v@) == v@.skip(start as int));
    }
    let inf: Vec<char> = {
        let mut w: Vec<char> = Vec::new();
        w.push('i');
        w.push('n');
        w.push('f');
        w
    };
    let inf_u: Vec<char> = {
        let mut w: Vec<char> = Vec::new();
        w.push('I');
        w.push('N');
        w.push('F');
        w
    };
    let infinity: Vec<char> = {
        let mut w: Vec<char> = Vec::new();
        w.push('i');
        w.push('n');
        w.push('f');
        w.push('i');
        w.push('n');
        w.push('i');
        w.push('t');
        w.push('y');
        w
    };
    let infinity_u: Vec<char> = {
        let mut w: Vec<char> = Vec::new();
        w.push('I');
        w.push('N');
        w.push('F');
        w.push('I');
        w.push('N');
        w.push('I');
        w.push('T');
        w.push('Y');
        w
    };
    let nan: Vec<char> = {
        let mut w: Vec<char> = Vec::new();
        w.push('n');
        w.push('a');
        w.push('n');
        w
    };
    let nan_u: Vec<char> = {
        let mut w: Vec<char> = Vec::new();
        w.push('N');
        w.push('A');
        w.push('N');
        w
    };
    proof {
        assert(inf@ =~= seq!['i', 'n', 'f']);
        assert(infinity@ =~= seq!['i', 'n', 'f', 'i', 'n', 'i', 't', 'y']);
        assert(nan@ =~= seq!['n', 'a', 'n']);
        assert(inf_u@ =~= seq!['I', 'N', 'F']);
        assert(infinity_u@ =~= seq!['I', 'N', 'F', 'I', 'N', 'I', 'T', 'Y']);
        assert(nan_u@ =~= seq!['N', 'A', 'N']);
    }
    if eq_ignore_case_from(v, start, &inf, &inf_u) || eq_ignore_case_from(
        v,
        start,
        &infinity,
        &infinity_u,
    ) || eq_ignore_case_from(v, start, &nan, &nan_u) {
        return true;
    }
    // find the first exponent marker in the body
    let n = v.len();
    let mut p: usize = start;
    while p < n && v[p] != 'e' && v[p] != 'E'
        invariant
            start <= p <= n,
            n == v@.len(),
            forall|k: int| start <= k < p ==> v@[k] != 'e' && v@[k] != 'E',
        decreases n - p,
    {
        p = p + 1;
    }
    let ghost body = strip_sign(v@);
    proof {
        assert(forall|k: int| 0 <= k < p - start ==> body[k] == v@[start + k]);
        if p < n {
            assert(body[p - start] == 'e' || body[p - start] == 'E');
        }
        lemma_find_e_unique(body, p - start);
    }
    let mantissa_ok = check_mantissa(v, start, p);
    if p == n {
        proof {
            assert(body.take(p - start) =~= body);
            assert(find_e(body) == body.len());
        }
        return mantissa_ok;
    }
    if !mantissa_ok {
        proof {
            assert(body.take(find_e(body)) =~= v@.subrange(start as int, p as int));
        }
        return false;
    }
    // exponent: optional sign then digits
    let es: usize = if p + 1 < n && (v[p + 1] == '+' || v[p + 1] == '-') {
        p + 2
    } else {
        p + 1
    };
    let exp_ok = if es > n {
        false
    } else {
        es < n && all_digits_range(v, es, n)
    };
    proof {
        let ex = body.skip(find_e(body) + 1);
        assert(forall|k: int| 0 <= k < ex.len() ==> ex[k] == v@[p + 1 + k]);
        if p + 1 < n && (v@[p as int + 1] == '+' || v@[p as int + 1] == '-') {
            assert(ex[0] == '+' || ex[0] == '-');
            assert(strip_sign(ex) =~= v@.subrange(p as int + 2, n as int));
            assert(ex.len() == strip_sign(ex).len() + 1);
        } else {
            assert(strip_sign(ex) =~= v@.subrange(p as int + 1, n as int));
        }
        assert(body.take(find_e(body)) =~= v@.subrange(start as int, p as int));
    }
    exp_ok
}

// ---------------------------------------------------------------------------
// Schemas and validation
// ---------------------------------------------------------------------------

/// Model of one field definition: what validation reads of it.
pub struct SpecField {
    pub name: Seq<char>,
    pub field_type: Seq<char>,
    pub required: bool,
}

/// One field a plugin's schema declares: the key it stores under, how a
/// front end labels it, its type, whether it must be supplied, and
/// cosmetic defaults.
pub struct FieldSpec {
    pub name: String,
    pub display_name: String,
    pub field_type: String,
    pub required: bool,
    pub default: String,
    pub placeholder: String,
    pub tooltip: String,
}

impl View for FieldSpec {
    type V = SpecField;

    open spec fn view(&self) -> SpecField {
        SpecField { name: self.name@, field_type: self.field_type@, required: self.required }
    }
}

/// A plugin's schema: its name (matching a remote kind), descriptive
/// metadata, and the two ordered groups of field definitions.
pub struct PluginSchema {
    pub name: String,
    pub display_name: String,
    pub description: String,
    pub version: String,
    pub author: String,
    pub basic_fields: Vec<FieldSpec>,
    pub advanced_fields: Vec<FieldSpec>,
}

/// The views of a group of field definitions.
pub open spec fn fields_spec_view(fs: Seq<FieldSpec>) -> Seq<SpecField> {
    fs.map_values(|f: FieldSpec| f@)
}

/// Why validation rejected the provided fields.
#[derive(Clone, Debug, PartialEq, Eq)]
pub enum ValidationError {
    /// A required field is absent; holds the field's name.
    MissingRequiredField(String),
    /// A present field's value does not fit its declared type; holds the
    /// field's name.
    InvalidFieldValue(String),
}

/// Model of a validation failure.
pub enum SpecValError {
    Missing(Seq<char>),
    Invalid(Seq<char>),
}

/// The `number` field type.
pub open spec fn number_type() -> Seq<char> {
    seq!['n', 'u', 'm', 'b', 'e', 'r']
}

/// The `checkbox` field type.
pub open spec fn checkbox_type() -> Seq<char> {
    seq!['c', 'h', 'e', 'c', 'k', 'b', 'o', 'x']
}

/// The literal a checkbox accepts as its true value.
pub open spec fn true_lit() -> Seq<char> {
    seq!['t', 'r', 'u', 'e']
}

/// The literal a checkbox accepts as its false value.
pub open spec fn false_lit() -> Seq<char> {
    seq!['f', 'a', 'l', 's', 'e']
}

/// Whether a present value satisfies its field's declared type: `number`
/// demands numeric syntax, `checkbox` demands exactly `true` or `false`,
/// and every other type accepts any string.
pub open spec fn field_value_ok(ft: Seq<char>, value: Seq<char>) -> bool {
    if ft == number_type() {
        is_number(value)
    } else if ft == checkbox_type() {
        value == true_lit() || value == false_lit()
    } else {
        true
    }
}

/// The verdict on one field: absence of a required field fails first;
/// a present value is then held to the field's type.
pub open spec fn check_field(
    f: SpecField,
    provided: Seq<(Seq<char>, Seq<char>)>,
) -> Option<SpecValError> {
    if f.required && !has_key(provided, f.name) {
        Some(SpecValError::Missing(f.name))
    } else if has_key(provided, f.name) && !field_value_ok(
        f.field_type,
        lookup(provided, f.name),
    ) {
        Some(SpecValError::Invalid(f.name))
    } else {
        None
    }
}

/// The first failing field of a group, in declaration order.
pub open spec fn check_fields(
    fs: Seq<SpecField>,
    provided: Seq<(Seq<char>, Seq<char>)>,
) -> Option<SpecValError>
    decreases fs.len(),
{
    if fs.len() == 0 {
        None
    } else {
        match check_field(fs[0], provided) {
            Some(e) => Some(e),
            None => check_fields(fs.drop_first(), provided),
        }
    }
}

/// The outcome for a whole schema: the basic group is checked first,
/// then the advanced group, each in order; the first failing field
/// decides.
pub open spec fn spec_validate(
    basic: Seq<SpecField>,
    advanced: Seq<SpecField>,
    provided: Seq<(Seq<char>, Seq<char>)>,
) -> Option<SpecValError> {
    match check_fields(basic, provided) {
        Some(e) => Some(e),
        None => check_fields(advanced, provided),
    }
}

/// The value provided for `name`, if any.
fn find_value(provided: &Vec<(String, String)>, name: &String) -> (r: Option<String>)
    ensures
        r is Some <==> has_key(crate::config::fields_view(provided@), name@),
        r matches Some(v) ==> v@ == lookup(crate::config::fields_view(provided@), name@),
{
    let ghost pv = crate::config::fields_view(provided@);
    let mut i: usize = 0;
    while i < provided.len()
        invariant
            i <= provided@.len(),
            pv == crate::config::fields_view(provided@),
            forall|k: int| 0 <= k < i ==> (#[trigger] pv[k]).0 != name@,
        decreases provided@.len() - i,
    {
        if provided[i].0 == *name {
            proof {
                assert(pv[i as int].0 == name@);
                lemma_lookup_at(pv, name@, i as int);
            }
            return Some(provided[i].1.clone());
        }
        proof {
            assert(pv[i as int].0 != name@);
        }
        i = i + 1;
    }
    proof {
        if has_key(pv, name@) {
            let w = choose|k: int| 0 <= k < pv.len() && pv[k].0 == name@;
            assert(pv[w].0 != name@);
        }
    }
    None
}

proof fn lemma_lookup_at(fs: Seq<(Seq<char>, Seq<char>)>, k: Seq<char>, i: int)
    requires
        0 <= i < fs.len(),
        fs[i].0 == k,
        forall|j: int| 0 <= j < i ==> (#[trigger] fs[j]).0 != k,
    ensures
        has_key(fs, k),
        lookup(fs, k) == fs[i].1,
    decreases i,
{
    if i == 0 {
    } else {
        let rest = fs.drop_first();
        assert(forall|j: int| 0 <= j < rest.len() ==> rest[j] == fs[j + 1]);
        lemma_lookup_at(rest, k, i - 1);
        assert(fs[0].0 != k);
    }
}

/// Checks one field definition against the provided values.
fn check_one_field(f: &FieldSpec, provided: &Vec<(String, String)>) -> (r: Option<
    ValidationError,
>)
    ensures
        r is None <==> check_field(f@, crate::config::fields_view(provided@)) is None,
        r matches Some(ValidationError::MissingRequiredField(n)) ==> check_field(
            f@,
            crate::config::fields_view(provided@),
        ) == Some(SpecValError::Missing(n@)),
        r matches Some(ValidationError::InvalidFieldValue(n)) ==> check_field(
            f@,
            crate::config::fields_view(provided@),
        ) == Some(SpecValError::Invalid(n@)),
{
    let ghost pv = crate::config::fields_view(provided@);
    match find_value(provided, &f.name) {
        None => {
            if f.required {
                Some(ValidationError::MissingRequiredField(f.name.clone()))
            } else {
                None
            }
        },
        Some(value) => {
            let ft = crate::text::str_to_chars(f.field_type.as_str());
            let number_v: Vec<char> = {
                let mut w: Vec<char> = Vec::new();
                w.push('n');
                w.push('u');
                w.push('m');
                w.push('b');
                w.push('e');
                w.push('r');
                w
            };
            let checkbox_v: Vec<char> = {
                let mut w: Vec<char> = Vec::new();
                w.push('c');
                w.push('h');
                w.push('e');
                w.push('c');
                w.push('k');
                w.push('b');
                w.push('o');
                w.push('x');
                w
            };
            proof {
                assert(number_v@ =~= number_type());
                assert(checkbox_v@ =~= checkbox_type());
            }
            let vc = crate::text::str_to_chars(value.as_str());
            let ok: bool = if crate::text::vec_eq(&ft, &number_v) {
                check_number(&vc)
            } else if crate::text::vec_eq(&ft, &checkbox_v) {
                let true_v: Vec<char> = {
                    let mut w: Vec<char> = Vec::new();
                    w.push('t');
                    w.push('r');
                    w.push('u');
                    w.push('e');
                    w
                };
                let false_v: Vec<char> = {
                    let mut w: Vec<char> = Vec::new();
                    w.push('f');
                    w.push('a');
                    w.push('l');
                    w.push('s');
                    w.push('e');
                    w
                };
                proof {
                    assert(true_v@ =~= true_lit());
                    assert(false_v@ =~= false_lit());
                }
                let t = crate::text::vec_eq(&vc, &true_v);
                let fl = crate::text::vec_eq(&vc, &false_v);
                t || fl
            } else {
                true
            };
            proof {
                assert(ok == field_value_ok(f@.field_type, lookup(pv, f@.name)));
            }
            if ok {
                None
            } else {
                Some(ValidationError::InvalidFieldValue(f.name.clone()))
            }
        },
    }
}

/// Validates the provided fields against the schema: basic fields first,
/// then advanced fields, each group in declaration order; the first
/// failing field's error is returned, and `Ok` exactly when no field
/// fails.
pub fn validate(schema: &PluginSchema, provided: &Vec<(String, String)>) -> (r: Result<
    (),
    ValidationError,
>)
    ensures
        r is Ok <==> spec_validate(
            fields_spec_view(schema.basic_fields@),
            fields_spec_view(schema.advanced_fields@),
            crate::config::fields_view(provided@),
        ) is None,
        r matches Err(ValidationError::MissingRequiredField(n)) ==> spec_validate(
            fields_spec_view(schema.basic_fields@),
            fields_spec_view(schema.advanced_fields@),
            crate::config::fields_view(provided@),
        ) == Some(SpecValError::Missing(n@)),
        r matches Err(ValidationError::InvalidFieldValue(n)) ==> spec_validate(
            fields_spec_view(schema.basic_fields@),
            fields_spec_view(schema.advanced_fields@),
            crate::config::fields_view(provided@),
        ) == Some(SpecValError::Invalid(n@)),
{
    let ghost pv = crate::config::fields_view(provided@);
    let ghost bv = fields_spec_view(schema.basic_fields@);
    let ghost av = fields_spec_view(schema.advanced_fields@);
    let mut i: usize = 0;
    proof {
        assert(bv.skip(0) =~= bv);
    }
    while i < schema.basic_fields.len()
        invariant
            i <= schema.basic_fields@.len(),
            pv == crate::config::fields_view(provided@),
            bv == fields_spec_view(schema.basic_fields@),
            av == fields_spec_view(schema.advanced_fields@),
            check_fields(bv, pv) == check_fields(bv.skip(i as int), pv),
        decreases schema.basic_fields@.len() - i,
    {
        proof {
            assert(bv.skip(i as int)[0] == bv[i as int]);
            assert(bv.skip(i as int).drop_first() =~= bv.skip(i as int + 1));
        }
        match check_one_field(&schema.basic_fields[i], provided) {
            Some(e) => {
                return Err(e);
            },
            None => {},
        }
        i = i + 1;
    }
    proof {
        assert(bv.skip(bv.len() as int) =~= Seq::<SpecField>::empty());
        assert(check_fields(bv, pv) is None);
        assert(av.skip(0) =~= av);
    }
    let mut j: usize = 0;
    while j < schema.advanced_fields.len()
        invariant
            j <= schema.advanced_fields@.len(),
            pv == crate::config::fields_view(provided@),
            bv == fields_spec_view(schema.basic_fields@),
            av == fields_spec_view(schema.advanced_fields@),
            check_fields(bv, pv) is None,
            check_fields(av, pv) == check_fields(av.skip(j as int), pv),
        decreases schema.advanced_fields@.len() - j,
    {
        proof {
            assert(av.skip(j as int)[0] == av[j as int]);
            assert(av.skip(j as int).drop_first() =~= av.skip(j as int + 1));
        }
        match check_one_field(&schema.advanced_fields[j], provided) {
            Some(e) => {
                return Err(e);
            },
            None => {},
        }
        j = j + 1;
    }
    proof {
        assert(av.skip(av.len() as int) =~= Seq::<SpecField>::empty());
        assert(check_fields(av, pv) is None);
    }
    Ok(())
}

/// Whether `v[start..stop]` is a mantissa.
fn check_mantissa(v: &Vec<char>, start: usize, stop: usize) -> (r: bool)
    requires
        start <= stop <= v@.len(),
    ensures
        r == is_mantissa(v@.subrange(start as int, stop as int)),
{
    let ghost m = v@.subrange(start as int, stop as int);
    let mut d: usize = start;
    while d < stop && v[d] != '.'
        invariant
            start <= d <= stop <= v@.len(),
            forall|k: int| start <= k < d ==> v@[k] != '.',
        decreases stop - d,
    {
        d = d + 1;
    }
    proof {
        assert(forall|k: int| 0 <= k < m.len() ==> m[k] == v@[start + k]);
        if d < stop {
            assert(m[d - start] == '.');
        }
        crate::text::lemma_find_idx_unique(m, '.', d - start);
        crate::text::lemma_find_idx(m, '.');
        if d == stop {
            if has_char(m, '.') {
                let w = choose|i: int| 0 <= i < m.len() && m[i] == '.';
                assert(m[w] != '.');
            }
        } else {
            assert(has_char(m, '.'));
        }
    }
    if d == stop {
        // no dot: all digits, nonempty
        if start == stop {
            return false;
        }
        let r = all_digits_range(v, start, stop);
        proof {
            assert(m =~= v@.subrange(start as int, stop as int));
        }
        r
    } else {
        if stop - start <= 1 {
            proof {
                assert(m.len() <= 1);
            }
            return false;
        }
        let before = all_digits_range(v, start, d);
        let after = all_digits_range(v, d + 1, stop);
        proof {
            assert(m.take(find_idx(m, '.')) =~= v@.subrange(start as int, d as int));
            assert(m.skip(find_idx(m, '.') + 1) =~= v@.subrange(d as int + 1, stop as int));
        }
        before && after
    }
}

} // verus!
