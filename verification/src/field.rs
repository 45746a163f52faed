//! Custom field types and definitions, and the validation of a value
//! against the type and options of its field.
use vstd::prelude::*;
use crate::text;
use crate::board;
use crate::board::{Value, ValueView, BoardDoc, BoardDocView, CardObject, CardObjectView, FieldDefObject, FieldDefObjectView, DocError, DocErrorView};

verus! {

/// The type of a custom field.
#[derive(Debug, Clone, Copy, PartialEq, Eq, Structural)]
pub enum FieldType {
    Text,
    Number,
    Date,
    Select,
    MultiSelect,
    Checkbox,
}

/// The name under which a field type is stored.
pub open spec fn field_type_name(t: FieldType) -> Seq<char> {
    match t {
        FieldType::Text => seq!['t', 'e', 'x', 't'],
        FieldType::Number => seq!['n', 'u', 'm', 'b', 'e', 'r'],
        FieldType::Date => seq!['d', 'a', 't', 'e'],
        FieldType::Select => seq!['s', 'e', 'l', 'e', 'c', 't'],
        FieldType::MultiSelect => seq![
            'm',
            'u',
            'l',
            't',
            'i',
            '_',
            's',
            'e',
            'l',
            'e',
            'c',
            't',
        ],
        FieldType::Checkbox => seq!['c', 'h', 'e', 'c', 'k', 'b', 'o', 'x'],
    }
}

/// The field type stored under a name, if any.
pub open spec fn parse_field_type(s: Seq<char>) -> Option<FieldType> {
    if s == field_type_name(FieldType::Text) {
        Some(FieldType::Text)
    } else if s == field_type_name(FieldType::Number) {
        Some(FieldType::Number)
    } else if s == field_type_name(FieldType::Date) {
        Some(FieldType::Date)
    } else if s == field_type_name(FieldType::Select) {
        Some(FieldType::Select)
    } else if s == field_type_name(FieldType::MultiSelect) {
        Some(FieldType::MultiSelect)
    } else if s == field_type_name(FieldType::Checkbox) {
        Some(FieldType::Checkbox)
    } else {
        None
    }
}

impl FieldType {
    /// The name under which this field type is stored.
    pub fn as_str(&self) -> (s: &'static str)
        ensures
            s@ == field_type_name(*self),
    {
        match self {
            FieldType::Text => {
                proof {
                    reveal_strlit("text");
                }
                "text"
            },
            FieldType::Number => {
                proof {
                    reveal_strlit("number");
                }
                "number"
            },
            FieldType::Date => {
                proof {
                    reveal_strlit("date");
                }
                "date"
            },
            FieldType::Select => {
                proof {
                    reveal_strlit("select");
                }
                "select"
            },
            FieldType::MultiSelect => {
                proof {
                    reveal_strlit("multi_select");
                }
                "multi_select"
            },
            FieldType::Checkbox => {
                proof {
                    reveal_strlit("checkbox");
                }
                "checkbox"
            },
        }
    }

    /// The field type stored under the name `s`, if any.
    pub fn from_str(s: &str) -> (r: Option<FieldType>)
        ensures
            r == parse_field_type(s@),
    {
        proof {
            reveal_strlit("text");
            reveal_strlit("number");
            reveal_strlit("date");
            reveal_strlit("select");
            reveal_strlit("multi_select");
            reveal_strlit("checkbox");
            assert("text"@ =~= field_type_name(FieldType::Text));
            assert("number"@ =~= field_type_name(FieldType::Number));
            assert("date"@ =~= field_type_name(FieldType::Date));
            assert("select"@ =~= field_type_name(FieldType::Select));
            assert("multi_select"@ =~= field_type_name(FieldType::MultiSelect));
            assert("checkbox"@ =~= field_type_name(FieldType::Checkbox));
        }
        let v = text::chars_of(s);
        if text::str_eq_chars("text", v.as_slice()) {
            Some(FieldType::Text)
        } else if text::str_eq_chars("number", v.as_slice()) {
            Some(FieldType::Number)
        } else if text::str_eq_chars("date", v.as_slice()) {
            Some(FieldType::Date)
        } else if text::str_eq_chars("select", v.as_slice()) {
            Some(FieldType::Select)
        } else if text::str_eq_chars("multi_select", v.as_slice()) {
            Some(FieldType::MultiSelect)
        } else if text::str_eq_chars("checkbox", v.as_slice()) {
            Some(FieldType::Checkbox)
        } else {
            None
        }
    }
}

/// Reading back the stored name of a field type gives the same type, and a
/// name that reads as a type is that type's stored name.
pub proof fn law_field_type_name_round_trip(t: FieldType, s: Seq<char>)
    ensures
        parse_field_type(field_type_name(t)) == Some(t),
        parse_field_type(s) == Some(t) ==> s == field_type_name(t),
{
    assert(field_type_name(FieldType::Text) != field_type_name(FieldType::Number));
    assert(field_type_name(FieldType::Text) != field_type_name(FieldType::Select));
    assert(field_type_name(FieldType::Text) != field_type_name(FieldType::Checkbox));
    assert(field_type_name(FieldType::Text) != field_type_name(FieldType::MultiSelect));
    assert(field_type_name(FieldType::Text)[0] != field_type_name(FieldType::Date)[0]);
    assert(field_type_name(FieldType::Text) != field_type_name(FieldType::Date));
    assert(field_type_name(FieldType::Number)[0] != field_type_name(FieldType::Select)[0]);
    assert(field_type_name(FieldType::Number) != field_type_name(FieldType::Select));
    assert(field_type_name(FieldType::Number) != field_type_name(FieldType::Date));
    assert(field_type_name(FieldType::Number) != field_type_name(FieldType::MultiSelect));
    assert(field_type_name(FieldType::Number) != field_type_name(FieldType::Checkbox));
    assert(field_type_name(FieldType::Date) != field_type_name(FieldType::Select));
    assert(field_type_name(FieldType::Date) != field_type_name(FieldType::MultiSelect));
    assert(field_type_name(FieldType::Date) != field_type_name(FieldType::Checkbox));
    assert(field_type_name(FieldType::Select) != field_type_name(FieldType::MultiSelect));
    assert(field_type_name(FieldType::Select) != field_type_name(FieldType::Checkbox));
    assert(field_type_name(FieldType::MultiSelect) != field_type_name(FieldType::Checkbox));
}

/// The definition of a custom field of a board.
#[derive(Debug, Clone)]
pub struct FieldDefinition {
    pub id: String,
    pub name: String,
    pub field_type: FieldType,
    pub options: Vec<String>,
    pub order: u64,
    pub archived: bool,
    pub default_value: Option<String>,
    pub auto_apply: bool,
}

/// The options of a field as character sequences.
pub open spec fn option_views(options: Seq<String>) -> Seq<Seq<char>> {
    options.map_values(|o: String| o@)
}

// ---------------------------------------------------------------------------
// Numbers: the grammar that std `f64::from_str` accepts
// ---------------------------------------------------------------------------

pub open spec fn is_ascii_digit(c: char) -> bool {
    '0' <= c <= '9'
}

pub open spec fn all_digits(s: Seq<char>) -> bool {
    forall|i: int| 0 <= i < s.len() ==> is_ascii_digit(s[i])
}

pub open spec fn is_sign(c: char) -> bool {
    c == '+' || c == '-'
}

/// `s` equals `lower` when ASCII letters are compared without regard to case
/// (`upper` is `lower` in upper case).
pub open spec fn ci_eq(s: Seq<char>, lower: Seq<char>, upper: Seq<char>) -> bool {
    s.len() == lower.len() && forall|i: int| 0 <= i < s.len() ==> s[i] == lower[i] || s[i] == upper[i]
}

/// `Digit+ | Digit+ '.' Digit* | Digit* '.' Digit+`
pub open spec fn is_mantissa(s: Seq<char>) -> bool {
    ||| (s.len() > 0 && all_digits(s))
    ||| (s.len() > 1 && exists|p: int|
        0 <= p < s.len() && s[p] == '.' && all_digits(s.take(p)) && all_digits(s.skip(p + 1)))
}

/// What follows the `e` of an exponent: `Sign? Digit+`.
pub open spec fn is_exponent_digits(s: Seq<char>) -> bool {
    let d = unsigned_part(s);
    d.len() > 0 && all_digits(d)
}

/// `s` without an optional leading sign.
pub open spec fn unsigned_part(s: Seq<char>) -> Seq<char> {
    if s.len() > 0 && is_sign(s[0]) { s.drop_first() } else { s }
}

/// `Number ::= Mantissa ('e' Sign? Digit+)?`, the `e` of either case.
pub open spec fn is_number_literal(s: Seq<char>) -> bool {
    ||| is_mantissa(s)
    ||| exists|k: int|
        0 <= k < s.len() && (s[k] == 'e' || s[k] == 'E') && is_mantissa(s.take(k))
            && is_exponent_digits(s.skip(k + 1))
}

/// The strings that std `f64::from_str` accepts:
/// `Sign? ('inf' | 'infinity' | 'nan' | Number)`, letters of either case.
pub open spec fn is_float_literal(s: Seq<char>) -> bool {
    let t = unsigned_part(s);
    ||| ci_eq(t, seq!['i', 'n', 'f'], seq!['I', 'N', 'F'])
    ||| ci_eq(
        t,
        seq!['i', 'n', 'f', 'i', 'n', 'i', 't', 'y'],
        seq!['I', 'N', 'F', 'I', 'N', 'I', 'T', 'Y'],
    )
    ||| ci_eq(t, seq!['n', 'a', 'n'], seq!['N', 'A', 'N'])
    ||| is_number_literal(t)
}

fn ci_eq_exec(s: &[char], lower: &[char], upper: &[char]) -> (r: bool)
    requires
        lower@.len() == upper@.len(),
    ensures
        r == ci_eq(s@, lower@, upper@),
{
    if s.len() != lower.len() {
        return false;
    }
    let mut i: usize = 0;
    while i < s.len()
        invariant
            s@.len() == lower@.len() == upper@.len(),
            i <= s@.len(),
            forall|j: int| 0 <= j < i ==> s@[j] == lower@[j] || s@[j] == upper@[j],
        decreases s@.len() - i,
    {
        if s[i] != lower[i] && s[i] != upper[i] {
            return false;
        }
        i = i + 1;
    }
    true
}

fn is_mantissa_exec(s: &[char]) -> (r: bool)
    ensures
        r == is_mantissa(s@),
{
    let mut dot: Option<usize> = None;
    let mut i: usize = 0;
    while i < s.len()
        invariant
            i <= s@.len(),
            forall|j: int| 0 <= j < i ==> is_ascii_digit(s@[j]) || s@[j] == '.',
            match dot {
                None => forall|j: int| 0 <= j < i ==> s@[j] != '.',
                Some(p) => p < i && s@[p as int] == '.' && forall|j: int|
                    0 <= j < i && j != p ==> s@[j] != '.',
            },
        decreases s@.len() - i,
    {
        let c = s[i];
        if c == '.' {
            if dot.is_some() {
                proof {
                    let p = dot->0;
                    assert forall|q: int|
                        0 <= q < s@.len() && s@[q] == '.' && all_digits(s@.take(q)) implies !all_digits(
                        s@.skip(q + 1),
                    ) by {
                        if q < i {
                            if q < p {
                                assert(s@.skip(q + 1)[p - q - 1] == '.');
                            } else if q == p {
                                assert(s@.skip(q + 1)[i - q - 1] == '.');
                            } else {
                                assert(s@.take(q)[p as int] == '.');
                            }
                        } else if q == i {
                            assert(s@.take(q)[p as int] == '.');
                        } else {
                            assert(s@.take(q)[i as int] == '.');
                        }
                    }
                }
                return false;
            }
            dot = Some(i);
        } else if !('0' <= c && c <= '9') {
            proof {
                assert(!all_digits(s@));
                assert forall|q: int|
                    0 <= q < s@.len() && s@[q] == '.' && all_digits(s@.take(q)) implies !all_digits(
                    s@.skip(q + 1),
                ) by {
                    if q < i {
                        assert(s@.skip(q + 1)[i - q - 1] == c);
                    } else {
                        assert(s@.take(q)[i as int] == c);
                    }
                }
            }
            return false;
        }
        i = i + 1;
    }
    match dot {
        None => {
            assert(all_digits(s@) || s@.len() == 0);
            s.len() > 0
        },
        Some(p) => {
            proof {
                assert(!all_digits(s@)) by {
                    assert(!is_ascii_digit(s@[p as int]));
                }
                assert(all_digits(s@.take(p as int)));
                assert(all_digits(s@.skip(p + 1))) by {
                    assert forall|j: int| 0 <= j < s@.skip(p + 1).len() implies is_ascii_digit(
                        #[trigger] s@.skip(p + 1)[j],
                    ) by {
                        assert(s@.skip(p + 1)[j] == s@[p + 1 + j]);
                    }
                }
            }
            s.len() > 1
        },
    }
}

fn is_exponent_digits_exec(s: &[char]) -> (r: bool)
    ensures
        r == is_exponent_digits(s@),
{
    let start: usize = if s.len() > 0 && (s[0] == '+' || s[0] == '-') { 1 } else { 0 };
    let ghost d = unsigned_part(s@);
    assert(d =~= s@.skip(start as int));
    if start == s.len() {
        return false;
    }
    let mut i: usize = start;
    while i < s.len()
        invariant
            start <= i <= s@.len(),
            d == s@.skip(start as int),
            d == unsigned_part(s@),
            forall|j: int| start <= j < i ==> is_ascii_digit(s@[j]),
        decreases s@.len() - i,
    {
        if !('0' <= s[i] && s[i] <= '9') {
            assert(!is_ascii_digit(d[i - start]));
            return false;
        }
        i = i + 1;
    }
    assert(all_digits(d)) by {
        assert forall|j: int| 0 <= j < d.len() implies is_ascii_digit(d[j]) by {
            assert(d[j] == s@[start + j]);
        }
    }
    true
}

fn is_number_literal_exec(s: &[char]) -> (r: bool)
    ensures
        r == is_number_literal(s@),
{
    let mut k: usize = 0;
    while k < s.len() && s[k] != 'e' && s[k] != 'E'
        invariant
            k <= s@.len(),
            forall|j: int| 0 <= j < k ==> s@[j] != 'e' && s@[j] != 'E',
        decreases s@.len() - k,
    {
        k = k + 1;
    }
    if k == s.len() {
        let r = is_mantissa_exec(s);
        return r;
    }
    let head = text::slice_chars(s, 0, k);
    let tail = text::slice_chars(s, k + 1, s.len());
    assert(head@ =~= s@.take(k as int));
    assert(tail@ =~= s@.skip(k + 1));
    let m = is_mantissa_exec(head.as_slice());
    let e = is_exponent_digits_exec(tail.as_slice());
    proof {
        // The whole text holds an `e`, so it is no mantissa.
        assert(!is_mantissa(s@)) by {
            assert(!is_ascii_digit(s@[k as int]));
            assert forall|p: int|
                0 <= p < s@.len() && s@[p] == '.' && all_digits(s@.take(p)) implies !all_digits(
                s@.skip(p + 1),
            ) by {
                if p < k {
                    assert(s@.skip(p + 1)[k - p - 1] == s@[k as int]);
                } else {
                    assert(s@.take(p)[k as int] == s@[k as int]);
                }
            }
        }
        // A mantissa holds no `e`, so `k` is the only candidate split point.
        assert forall|k2: int|
            0 <= k2 < s@.len() && (s@[k2] == 'e' || s@[k2] == 'E') && is_mantissa(
                s@.take(k2),
            ) implies k2 == k by {
            if k2 > k {
                let t = s@.take(k2);
                assert(t[k as int] == s@[k as int]);
                assert(!all_digits(t)) by {
                    assert(!is_ascii_digit(t[k as int]));
                }
                assert forall|p: int|
                    0 <= p < t.len() && t[p] == '.' && all_digits(t.take(p)) implies !all_digits(
                    t.skip(p + 1),
                ) by {
                    if p < k {
                        assert(t.skip(p + 1)[k - p - 1] == t[k as int]);
                    } else {
                        assert(t.take(p)[k as int] == t[k as int]);
                    }
                }
            }
        }
    }
    m && e
}

/// Whether `s` is text that std `f64::from_str` accepts.
pub fn is_float_literal_exec(s: &[char]) -> (r: bool)
    ensures
        r == is_float_literal(s@),
{
    let start: usize = if s.len() > 0 && (s[0] == '+' || s[0] == '-') { 1 } else { 0 };
    let t = text::slice_chars(s, start, s.len());
    assert(t@ =~= unsigned_part(s@));
    let inf_l = ['i', 'n', 'f'];
    let inf_u = ['I', 'N', 'F'];
    let infinity_l = ['i', 'n', 'f', 'i', 'n', 'i', 't', 'y'];
    let infinity_u = ['I', 'N', 'F', 'I', 'N', 'I', 'T', 'Y'];
    let nan_l = ['n', 'a', 'n'];
    let nan_u = ['N', 'A', 'N'];
    assert(inf_l@ =~= seq!['i', 'n', 'f']);
    assert(inf_u@ =~= seq!['I', 'N', 'F']);
    assert(infinity_l@ =~= seq!['i', 'n', 'f', 'i', 'n', 'i', 't', 'y']);
    assert(infinity_u@ =~= seq!['I', 'N', 'F', 'I', 'N', 'I', 'T', 'Y']);
    assert(nan_l@ =~= seq!['n', 'a', 'n']);
    assert(nan_u@ =~= seq!['N', 'A', 'N']);
    ci_eq_exec(t.as_slice(), &inf_l, &inf_u) || ci_eq_exec(t.as_slice(), &infinity_l, &infinity_u)
        || ci_eq_exec(t.as_slice(), &nan_l, &nan_u) || is_number_literal_exec(t.as_slice())
}

// ---------------------------------------------------------------------------
// Validation of a value against its field
// ---------------------------------------------------------------------------

/// `YYYY-MM-DD`: three `-`-separated pieces of 4, 2 and 2 ASCII digits.
pub open spec fn is_date_text(s: Seq<char>) -> bool {
    let parts = text::split_on(s, '-');
    &&& parts.len() == 3
    &&& parts[0].len() == 4
    &&& parts[1].len() == 2
    &&& parts[2].len() == 2
    &&& forall|i: int| 0 <= i < 3 ==> all_digits(#[trigger] parts[i])
}

/// The pieces of `list` joined by `sep` (std `[String]::join`).
pub open spec fn join(list: Seq<Seq<char>>, sep: Seq<char>) -> Seq<char>
    decreases list.len(),
{
    if list.len() == 0 {
        Seq::empty()
    } else if list.len() == 1 {
        list[0]
    } else {
        join(list.drop_last(), sep) + sep + list.last()
    }
}

/// The first of `parts` that is not among `options`.
pub open spec fn first_not_in(parts: Seq<Seq<char>>, options: Seq<Seq<char>>) -> Option<Seq<char>>
    decreases parts.len(),
{
    if parts.len() == 0 {
        None
    } else if !options.contains(parts[0]) {
        Some(parts[0])
    } else {
        first_not_in(parts.drop_first(), options)
    }
}

/// The separator of the values of a multi-select field (ASCII unit separator).
pub open spec fn multi_select_separator() -> char {
    '\u{1f}'
}

pub open spec fn invalid_option_message(
    name: Seq<char>,
    value: Seq<char>,
    options: Seq<Seq<char>>,
) -> Seq<char> {
    "field '"@ + name + "': '"@ + value + "' is not a valid option. valid options: "@ + join(
        options,
        ", "@,
    )
}

/// The error that validating `value` against a field of type `t`, named
/// `name` and with `options`, reports; `None` when the value is valid.
pub open spec fn validation_error(
    t: FieldType,
    name: Seq<char>,
    options: Seq<Seq<char>>,
    value: Seq<char>,
) -> Option<Seq<char>> {
    match t {
        FieldType::Number => if is_float_literal(value) {
            None
        } else {
            Some("field '"@ + name + "' expects a number, got '"@ + value + "'"@)
        },
        FieldType::Date => if is_date_text(value) {
            None
        } else {
            Some("field '"@ + name + "' expects a date (YYYY-MM-DD), got '"@ + value + "'"@)
        },
        FieldType::Checkbox => if value == "true"@ || value == "false"@ {
            None
        } else {
            Some("field '"@ + name + "' expects 'true' or 'false', got '"@ + value + "'"@)
        },
        FieldType::Select => if options.len() == 0 || options.contains(value) {
            None
        } else {
            Some(invalid_option_message(name, value, options))
        },
        FieldType::MultiSelect => if options.len() == 0 {
            None
        } else {
            match first_not_in(text::split_on(value, multi_select_separator()), options) {
                Some(part) => Some(invalid_option_message(name, part, options)),
                None => None,
            }
        },
        FieldType::Text => None,
    }
}

fn all_digits_exec(v: &[char]) -> (r: bool)
    ensures
        r == all_digits(v@),
{
    let mut k: usize = 0;
    while k < v.len()
        invariant
            k <= v@.len(),
            forall|j: int| 0 <= j < k ==> is_ascii_digit(v@[j]),
        decreases v@.len() - k,
    {
        if !('0' <= v[k] && v[k] <= '9') {
            return false;
        }
        k = k + 1;
    }
    true
}

fn is_date_text_exec(s: &[char]) -> (r: bool)
    ensures
        r == is_date_text(s@),
{
    let parts = text::split_chars(s, '-');
    if parts.len() != 3 || parts[0].len() != 4 || parts[1].len() != 2 || parts[2].len() != 2 {
        return false;
    }
    let mut i: usize = 0;
    while i < 3
        invariant
            parts@.len() == 3,
            forall|j: int| 0 <= j < parts@.len() ==> #[trigger] parts@[j]@ == text::split_on(s@, '-')[j],
            i <= 3,
            forall|j: int| 0 <= j < i ==> all_digits(#[trigger] text::split_on(s@, '-')[j]),
        decreases 3 - i,
    {
        if !all_digits_exec(parts[i].as_slice()) {
            return false;
        }
        assert(all_digits(parts@[i as int]@));
        i = i + 1;
    }
    true
}

/// Whether `options` holds `value`.
fn options_contain(options: &Vec<String>, value: &[char]) -> (r: bool)
    ensures
        r == option_views(options@).contains(value@),
{
    let mut i: usize = 0;
    while i < options.len()
        invariant
            i <= options@.len(),
            forall|j: int| 0 <= j < i ==> options@[j]@ != value@,
        decreases options@.len() - i,
    {
        if text::str_eq_chars(options[i].as_str(), value) {
            assert(option_views(options@)[i as int] == value@);
            return true;
        }
        i = i + 1;
    }
    assert forall|j: int| 0 <= j < option_views(options@).len() implies option_views(
        options@,
    )[j] != value@ by {
        assert(option_views(options@)[j] == options@[j]@);
    }
    false
}

/// Appends `options` joined by `", "`.
fn push_joined_options(out: &mut String, options: &Vec<String>)
    ensures
        final(out)@ == old(out)@ + join(option_views(options@), ", "@),
{
    let ghost start = out@;
    let ghost views = option_views(options@);
    let mut i: usize = 0;
    assert(views.take(0) =~= Seq::<Seq<char>>::empty());
    while i < options.len()
        invariant
            views == option_views(options@),
            i <= options@.len(),
            out@ == start + join(views.take(i as int), ", "@),
        decreases options@.len() - i,
    {
        proof {
            assert(views.take(i + 1).drop_last() =~= views.take(i as int));
            assert(views.take(i + 1).last() == options@[i as int]@);
        }
        if i > 0 {
            text::push_str(out, ", ");
        } else {
            assert(views.take(1) =~= seq![options@[0]@]);
        }
        text::push_str(out, options[i].as_str());
        i = i + 1;
        assert(out@ =~= start + join(views.take(i as int), ", "@));
    }
    assert(views.take(i as int) =~= views);
}

fn invalid_option_error(name: &str, value: &[char], options: &Vec<String>) -> (r: String)
    ensures
        r@ == invalid_option_message(name@, value@, option_views(options@)),
{
    let mut out = String::new();
    text::push_str(&mut out, "field '");
    text::push_str(&mut out, name);
    text::push_str(&mut out, "': '");
    text::push_chars(&mut out, value);
    text::push_str(&mut out, "' is not a valid option. valid options: ");
    push_joined_options(&mut out, options);
    assert(out@ =~= invalid_option_message(name@, value@, option_views(options@)));
    out
}

fn expectation_error(name: &str, expectation: &str, value: &[char]) -> (r: String)
    ensures
        r@ == "field '"@ + name@ + expectation@ + value@ + "'"@,
{
    let mut out = String::new();
    text::push_str(&mut out, "field '");
    text::push_str(&mut out, name);
    text::push_str(&mut out, expectation);
    text::push_chars(&mut out, value);
    text::push_str(&mut out, "'");
    assert(out@ =~= "field '"@ + name@ + expectation@ + value@ + "'"@);
    out
}

/// Validates a value against a field's declared type and options.
pub fn validate_field_value(field: &FieldDefinition, value: &str) -> (r: Result<(), String>)
    ensures
        match validation_error(field.field_type, field.name@, option_views(field.options@), value@) {
            None => r is Ok,
            Some(msg) => r matches Err(e) && e@ == msg,
        },
{
    let v = text::chars_of(value);
    match field.field_type {
        FieldType::Number => {
            if !is_float_literal_exec(v.as_slice()) {
                return Err(expectation_error(field.name.as_str(), "' expects a number, got '", v.as_slice()));
            }
        },
        FieldType::Date => {
            if !is_date_text_exec(v.as_slice()) {
                return Err(
                    expectation_error(
                        field.name.as_str(),
                        "' expects a date (YYYY-MM-DD), got '",
                        v.as_slice(),
                    ),
                );
            }
        },
        FieldType::Checkbox => {
            if !text::str_eq_chars("true", v.as_slice()) && !text::str_eq_chars("false", v.as_slice()) {
                return Err(
                    expectation_error(
                        field.name.as_str(),
                        "' expects 'true' or 'false', got '",
                        v.as_slice(),
                    ),
                );
            }
        },
        FieldType::Select => {
            if field.options.len() > 0 && !options_contain(&field.options, v.as_slice()) {
                return Err(invalid_option_error(field.name.as_str(), v.as_slice(), &field.options));
            }
        },
        FieldType::MultiSelect => {
            if field.options.len() > 0 {
                let parts = text::split_chars(v.as_slice(), '\u{1f}');
                let ghost all = text::split_on(v@, '\u{1f}');
                let ghost views = option_views(field.options@);
                let mut i: usize = 0;
                assert(all.skip(0) =~= all);
                while i < parts.len()
                    invariant
                        parts@.len() == all.len(),
                        forall|j: int| 0 <= j < parts@.len() ==> #[trigger] parts@[j]@ == all[j],
                        i <= parts@.len(),
                        views == option_views(field.options@),
                        all == text::split_on(v@, '\u{1f}'),
                        v@ == value@,
                        field.field_type == FieldType::MultiSelect,
                        field.options@.len() > 0,
                        first_not_in(all, views) == first_not_in(all.skip(i as int), views),
                    decreases parts@.len() - i,
                {
                    assert(all.skip(i as int).drop_first() =~= all.skip(i + 1));
                    assert(all.skip(i as int)[0] == all[i as int]);
                    if !options_contain(&field.options, parts[i].as_slice()) {
                        assert(first_not_in(all.skip(i as int), views) == Some(all[i as int]));
                        return Err(invalid_option_error(field.name.as_str(), parts[i].as_slice(), &field.options));
                    }
                    assert(first_not_in(all.skip(i as int), views) == first_not_in(
                        all.skip(i + 1),
                        views,
                    ));
                    i = i + 1;
                }
                assert(all.skip(i as int) =~= Seq::<Seq<char>>::empty());
            }
        },
        FieldType::Text => {},
    }
    Ok(())
}

// ---------------------------------------------------------------------------
// Field definitions in the board document
// ---------------------------------------------------------------------------

pub struct FieldDefinitionView {
    pub id: Seq<char>,
    pub name: Seq<char>,
    pub field_type: FieldType,
    pub options: Seq<Seq<char>>,
    pub order: u64,
    pub archived: bool,
    pub default_value: Option<Seq<char>>,
    pub auto_apply: bool,
}

pub open spec fn opt_string_view(s: Option<String>) -> Option<Seq<char>> {
    match s {
        Some(x) => Some(x@),
        None => None,
    }
}

impl View for FieldDefinition {
    type V = FieldDefinitionView;

    open spec fn view(&self) -> FieldDefinitionView {
        FieldDefinitionView {
            id: self.id@,
            name: self.name@,
            field_type: self.field_type,
            options: option_views(self.options@),
            order: self.order,
            archived: self.archived,
            default_value: opt_string_view(self.default_value),
            auto_apply: self.auto_apply,
        }
    }
}

pub open spec fn field_views(s: Seq<FieldDefinition>) -> Seq<FieldDefinitionView> {
    s.map_values(|f: FieldDefinition| f@)
}

/// The text of a string entry, or the empty text.
pub open spec fn text_or_empty(v: Option<ValueView>) -> Seq<char> {
    match board::as_text(v) {
        Some(s) => s,
        None => Seq::empty(),
    }
}

/// The `order` of a definition: an unsigned integer as it is, a signed one
/// clamped at zero, anything else zero.
pub open spec fn order_value(v: Option<ValueView>) -> u64 {
    match v {
        Some(ValueView::Uint(n)) => n,
        Some(ValueView::Int(n)) => if n < 0 {
            0
        } else {
            n as u64
        },
        _ => 0,
    }
}

/// The string elements of a list, in order.
pub open spec fn option_strings(l: Seq<ValueView>) -> Seq<Seq<char>>
    decreases l.len(),
{
    if l.len() == 0 {
        Seq::empty()
    } else {
        let r = option_strings(l.drop_last());
        match l.last() {
            ValueView::Str(s) => r.push(s),
            _ => r,
        }
    }
}

/// The definition that a field definition object describes; none without a string `id`.
pub open spec fn read_def(o: FieldDefObjectView) -> Option<FieldDefinitionView> {
    match board::as_text(o.id) {
        None => None,
        Some(id) => Some(
            FieldDefinitionView {
                id,
                name: text_or_empty(o.name),
                field_type: match parse_field_type(text_or_empty(o.kind)) {
                    Some(t) => t,
                    None => FieldType::Text,
                },
                options: match o.options {
                    Some(l) => option_strings(l),
                    None => Seq::empty(),
                },
                order: order_value(o.order),
                archived: board::is_true(o.archived),
                default_value: board::as_text(o.default_value),
                auto_apply: board::is_true(o.auto_apply),
            },
        ),
    }
}

/// The readable definitions of a map, in key order.
pub open spec fn read_defs(m: Seq<(Seq<char>, FieldDefObjectView)>) -> Seq<FieldDefinitionView>
    decreases m.len(),
{
    if m.len() == 0 {
        Seq::empty()
    } else {
        let r = read_defs(m.drop_last());
        match read_def(m.last().1) {
            Some(f) => r.push(f),
            None => r,
        }
    }
}

/// `sorted` with `x` inserted after every element whose order is not greater.
pub open spec fn insert_by_order(sorted: Seq<FieldDefinitionView>, x: FieldDefinitionView) -> Seq<
    FieldDefinitionView,
>
    decreases sorted.len(),
{
    if sorted.len() == 0 {
        seq![x]
    } else if sorted.last().order <= x.order {
        sorted.push(x)
    } else {
        insert_by_order(sorted.drop_last(), x).push(sorted.last())
    }
}

/// `s` stably sorted by `order`.
pub open spec fn sort_by_order(s: Seq<FieldDefinitionView>) -> Seq<FieldDefinitionView>
    decreases s.len(),
{
    if s.len() == 0 {
        s
    } else {
        insert_by_order(sort_by_order(s.drop_last()), s.last())
    }
}

/// The field definitions of a board, stably sorted by `order`.
pub open spec fn listed_fields(d: BoardDocView) -> Seq<FieldDefinitionView> {
    sort_by_order(read_defs(board::defs_or_empty(d)))
}

/// The definition stored under `field_id`, if any.
pub open spec fn field_by_id(d: BoardDocView, field_id: Seq<char>) -> Option<FieldDefinitionView> {
    match board::lookup(board::defs_or_empty(d), field_id) {
        Some(o) => read_def(o),
        None => None,
    }
}

proof fn lemma_insert_at(s: Seq<FieldDefinitionView>, x: FieldDefinitionView, j: int)
    requires
        0 <= j <= s.len(),
        j == 0 || s[j - 1].order <= x.order,
        forall|k: int| j <= k < s.len() ==> s[k].order > x.order,
    ensures
        insert_by_order(s, x) == s.take(j) + seq![x] + s.skip(j),
    decreases s.len(),
{
    if s.len() == 0 {
        assert(s.take(j) + seq![x] + s.skip(j) =~= seq![x]);
    } else if j == s.len() {
        assert(s.take(j) + seq![x] + s.skip(j) =~= s.push(x));
    } else {
        lemma_insert_at(s.drop_last(), x, j);
        assert(s.take(j) + seq![x] + s.skip(j) =~= (s.drop_last().take(j) + seq![x]
            + s.drop_last().skip(j)).push(s.last()));
    }
}

fn insert_field_by_order(v: &mut Vec<FieldDefinition>, x: FieldDefinition)
    ensures
        field_views(final(v)@) == insert_by_order(field_views(old(v)@), x@),
{
    let mut j: usize = v.len();
    while j > 0 && v[j - 1].order > x.order
        invariant
            j <= v@.len(),
            forall|k: int| j <= k < v@.len() ==> v@[k].order > x.order,
        decreases j,
    {
        j = j - 1;
    }
    proof {
        lemma_insert_at(field_views(v@), x@, j as int);
    }
    let ghost before = v@;
    v.insert(j, x);
    assert(field_views(v@) =~= field_views(before).take(j as int) + seq![x@] + field_views(
        before,
    ).skip(j as int));
}

fn option_strings_exec(l: &Vec<Value>) -> (r: Vec<String>)
    ensures
        option_views(r@) == option_strings(board::values_view(l@)),
{
    let mut r: Vec<String> = Vec::new();
    let mut i: usize = 0;
    let ghost lv = board::values_view(l@);
    assert(lv.take(0) =~= Seq::<ValueView>::empty());
    while i < l.len()
        invariant
            i <= l@.len(),
            lv == board::values_view(l@),
            option_views(r@) == option_strings(lv.take(i as int)),
        decreases l@.len() - i,
    {
        assert(lv.take(i + 1).drop_last() =~= lv.take(i as int));
        assert(lv.take(i + 1).last() == l@[i as int]@);
        match &l[i] {
            Value::Str(s) => {
                r.push(s.clone());
                assert(option_views(r@) =~= option_strings(lv.take(i as int)).push(s@));
            },
            _ => {},
        }
        i = i + 1;
    }
    assert(lv.take(i as int) =~= lv);
    r
}

/// Reads a field definition object; `None` when it has no string `id`.
pub fn read_field_def(obj: &FieldDefObject) -> (r: Option<FieldDefinition>)
    ensures
        match r {
            Some(f) => read_def(obj@) == Some(f@),
            None => read_def(obj@) is None,
        },
{
    let id = match board::text_of(&obj.id) {
        Some(s) => s,
        None => return None,
    };
    let name = match board::text_of(&obj.name) {
        Some(s) => s,
        None => String::new(),
    };
    let type_str = match board::text_of(&obj.kind) {
        Some(s) => s,
        None => String::new(),
    };
    let field_type = match FieldType::from_str(type_str.as_str()) {
        Some(t) => t,
        None => FieldType::Text,
    };
    let default_value = board::text_of(&obj.default_value);
    let archived = board::is_true_exec(&obj.archived);
    let auto_apply = board::is_true_exec(&obj.auto_apply);
    let order: u64 = match &obj.order {
        Some(Value::Uint(n)) => *n,
        Some(Value::Int(n)) => if *n < 0 {
            0
        } else {
            *n as u64
        },
        _ => 0,
    };
    let options = match &obj.options {
        Some(l) => option_strings_exec(l),
        None => {
            let v: Vec<String> = Vec::new();
            assert(option_views(v@) =~= Seq::<Seq<char>>::empty());
            v
        },
    };
    let f = FieldDefinition {
        id,
        name,
        field_type,
        options,
        order,
        archived,
        default_value,
        auto_apply,
    };
    assert(f@.name == text_or_empty(obj@.name));
    Some(f)
}

/// The field definitions of a board, sorted by `order`.
pub fn list_fields(doc: &BoardDoc) -> (r: Vec<FieldDefinition>)
    ensures
        field_views(r@) == listed_fields(doc@),
{
    let mut r: Vec<FieldDefinition> = Vec::new();
    match &doc.field_definitions {
        None => {
            assert(field_views(r@) =~= Seq::<FieldDefinitionView>::empty());
            r
        },
        Some(m) => {
            let ghost mv = board::defs_view(m@);
            let mut i: usize = 0;
            assert(mv.take(0) =~= Seq::<(Seq<char>, FieldDefObjectView)>::empty());
            assert(field_views(r@) =~= Seq::<FieldDefinitionView>::empty());
            while i < m.len()
                invariant
                    i <= m@.len(),
                    mv == board::defs_view(m@),
                    field_views(r@) == sort_by_order(read_defs(mv.take(i as int))),
                decreases m@.len() - i,
            {
                assert(mv.take(i + 1).drop_last() =~= mv.take(i as int));
                assert(mv.take(i + 1).last().1 == m@[i as int].1@);
                match read_field_def(&m[i].1) {
                    Some(f) => {
                        let ghost prev = read_defs(mv.take(i as int));
                        assert(read_defs(mv.take(i + 1)) == prev.push(f@));
                        assert(prev.push(f@).drop_last() =~= prev);
                        insert_field_by_order(&mut r, f);
                    },
                    None => {},
                }
                i = i + 1;
            }
            assert(mv.take(i as int) =~= mv);
            r
        },
    }
}

/// The definition stored under `field_id`, if any.
pub fn get_field_by_id(doc: &BoardDoc, field_id: &str) -> (r: Option<FieldDefinition>)
    requires
        board::doc_wf(doc@),
    ensures
        match r {
            Some(f) => field_by_id(doc@, field_id@) == Some(f@),
            None => field_by_id(doc@, field_id@) is None,
        },
{
    match &doc.field_definitions {
        None => None,
        Some(m) => match board::find_key(m, field_id) {
            Some(i) => {
                proof {
                    assert(board::defs_view(m@)[i as int].0 == field_id@);
                    board::lemma_key_index(board::defs_view(m@), field_id@, i as int);
                }
                read_field_def(&m[i].1)
            },
            None => {
                proof {
                    assert forall|j: int| 0 <= j < board::defs_view(m@).len() implies board::defs_view(
                        m@,
                    )[j].0 != field_id@ by {
                        assert(board::defs_view(m@)[j].0 == m@[j].0@);
                    }
                    board::lemma_key_index_none(board::defs_view(m@), field_id@);
                }
                None
            },
        },
    }
}

// ---------------------------------------------------------------------------
// Resolving a field reference
// ---------------------------------------------------------------------------

/// An active field whose name equals `r` when both are lowercased.
pub open spec fn name_matches(f: FieldDefinitionView, r: Seq<char>) -> bool {
    !f.archived && text::lowercase(f.name) == text::lowercase(r)
}

/// The fields of `s` that `name_matches` selects, in order.
pub open spec fn matching_fields(s: Seq<FieldDefinitionView>, r: Seq<char>) -> Seq<
    FieldDefinitionView,
>
    decreases s.len(),
{
    if s.len() == 0 {
        Seq::empty()
    } else {
        let m = matching_fields(s.drop_last(), r);
        if name_matches(s.last(), r) {
            m.push(s.last())
        } else {
            m
        }
    }
}

pub open spec fn ambiguous_message(r: Seq<char>) -> Seq<char> {
    "ambiguous field name '"@ + r + "' \u{2014} use field UUID instead"@
}

/// What resolving the reference `r` gives: the field with that id; else the
/// single active field with that name (any case); nothing when there is none;
/// an error when several fields carry the name.
pub open spec fn resolved_field(d: BoardDocView, r: Seq<char>) -> Result<
    Option<FieldDefinitionView>,
    DocErrorView,
> {
    match field_by_id(d, r) {
        Some(f) => Ok(Some(f)),
        None => {
            let m = matching_fields(listed_fields(d), r);
            if m.len() == 0 {
                Ok(None)
            } else if m.len() == 1 {
                Ok(Some(m[0]))
            } else {
                Err(DocErrorView::NotFound(ambiguous_message(r)))
            }
        },
    }
}

/// Resolves a field reference: exact id first, then a case-insensitive name
/// match among the active fields. Several fields of that name are an error.
pub fn resolve_field_ref(doc: &BoardDoc, field_ref: &str) -> (r: Result<Option<FieldDefinition>, DocError>)
    requires
        board::doc_wf(doc@),
    ensures
        match (r, resolved_field(doc@, field_ref@)) {
            (Ok(Some(f)), Ok(Some(g))) => f@ == g,
            (Ok(None), Ok(None)) => true,
            (Err(e), Err(g)) => e@ == g,
            _ => false,
        },
{
    match get_field_by_id(doc, field_ref) {
        Some(f) => return Ok(Some(f)),
        None => {},
    }
    let r = text::chars_of(field_ref);
    let lower = text::lowercase_chars(r.as_slice());
    let mut fields = list_fields(doc);
    let ghost all = field_views(fields@);
    let mut count: usize = 0;
    let mut first: usize = 0;
    let mut i: usize = 0;
    assert(all.take(0) =~= Seq::<FieldDefinitionView>::empty());
    while i < fields.len()
        invariant
            i <= fields@.len(),
            all == field_views(fields@),
            r@ == field_ref@,
            lower@ == text::lowercase(field_ref@),
            count == matching_fields(all.take(i as int), field_ref@).len(),
            count <= i,
            count > 0 ==> first < i && matching_fields(all.take(i as int), field_ref@)[0]
                == all[first as int],
        decreases fields@.len() - i,
    {
        assert(all.take(i + 1).drop_last() =~= all.take(i as int));
        assert(all.take(i + 1).last() == fields@[i as int]@);
        let name = text::chars_of(fields[i].name.as_str());
        let lname = text::lowercase_chars(name.as_slice());
        if !fields[i].archived && text::chars_eq(lname.as_slice(), lower.as_slice()) {
            if count == 0 {
                first = i;
            }
            count = count + 1;
        }
        i = i + 1;
    }
    assert(all.take(i as int) =~= all);
    if count == 0 {
        Ok(None)
    } else if count == 1 {
        Ok(Some(fields.remove(first)))
    } else {
        let mut msg = String::new();
        text::push_str(&mut msg, "ambiguous field name '");
        text::push_str(&mut msg, field_ref);
        text::push_str(&mut msg, "' \u{2014} use field UUID instead");
        assert(msg@ =~= ambiguous_message(field_ref@));
        Err(DocError::NotFound(msg))
    }
}

// ---------------------------------------------------------------------------
// Writing field definitions
// ---------------------------------------------------------------------------

/// The definition object that `create_field` writes.
pub open spec fn new_def_object(
    id: Seq<char>,
    name: Seq<char>,
    t: FieldType,
    options: Seq<Seq<char>>,
    default_value: Option<Seq<char>>,
    auto_apply: bool,
    order: u64,
) -> FieldDefObjectView {
    FieldDefObjectView {
        id: Some(ValueView::Str(id)),
        name: Some(ValueView::Str(name)),
        kind: Some(ValueView::Str(field_type_name(t))),
        order: Some(ValueView::Uint(order)),
        archived: Some(ValueView::Boolean(false)),
        auto_apply: Some(ValueView::Boolean(auto_apply)),
        default_value: match default_value {
            Some(v) => Some(ValueView::Str(v)),
            None => None,
        },
        options: Some(options.map_values(|o: Seq<char>| ValueView::Str(o))),
    }
}

fn string_values(options: &Vec<String>) -> (r: Vec<Value>)
    ensures
        board::values_view(r@) == option_views(options@).map_values(|o: Seq<char>| ValueView::Str(o)),
{
    let mut r: Vec<Value> = Vec::new();
    let mut i: usize = 0;
    while i < options.len()
        invariant
            i <= options@.len(),
            r@.len() == i,
            forall|j: int| 0 <= j < i ==> r@[j]@ == ValueView::Str(options@[j]@),
        decreases options@.len() - i,
    {
        r.push(Value::Str(options[i].clone()));
        i = i + 1;
    }
    assert(board::values_view(r@) =~= option_views(options@).map_values(
        |o: Seq<char>| ValueView::Str(o),
    ));
    r
}

fn clone_strings(v: &Vec<String>) -> (r: Vec<String>)
    ensures
        option_views(r@) == option_views(v@),
{
    let mut r: Vec<String> = Vec::new();
    let mut i: usize = 0;
    while i < v.len()
        invariant
            i <= v@.len(),
            r@.len() == i,
            forall|j: int| 0 <= j < i ==> r@[j]@ == v@[j]@,
        decreases v@.len() - i,
    {
        r.push(v[i].clone());
        i = i + 1;
    }
    assert(option_views(r@) =~= option_views(v@));
    r
}

/// The document after `create_field` has stored a definition under `id`.
pub open spec fn created_field_doc(
    d: BoardDocView,
    id: Seq<char>,
    name: Seq<char>,
    t: FieldType,
    options: Seq<Seq<char>>,
    default_value: Option<Seq<char>>,
    auto_apply: bool,
) -> BoardDocView {
    let defs = board::defs_or_empty(d);
    BoardDocView {
        root: d.root,
        field_definitions: Some(
            board::put(
                defs,
                id,
                new_def_object(id, name, t, options, default_value, auto_apply, defs.len() as u64),
            ),
        ),
        cards: d.cards,
    }
}

/// The definition that `create_field` returns.
pub open spec fn created_field_view(
    d: BoardDocView,
    id: Seq<char>,
    name: Seq<char>,
    t: FieldType,
    options: Seq<Seq<char>>,
    default_value: Option<Seq<char>>,
    auto_apply: bool,
) -> FieldDefinitionView {
    FieldDefinitionView {
        id,
        name,
        field_type: t,
        options,
        order: board::defs_or_empty(d).len() as u64,
        archived: false,
        default_value,
        auto_apply,
    }
}

/// Creates a field definition under the given id (the field definitions map
/// is created when absent); its `order` is the number of definitions before it.
pub fn create_field_with_id(
    doc: &mut BoardDoc,
    field_id: String,
    name: &str,
    field_type: FieldType,
    options: Vec<String>,
    default_value: Option<String>,
    auto_apply: bool,
) -> (r: Result<FieldDefinition, DocError>)
    requires
        board::doc_wf(old(doc)@),
    ensures
        board::doc_wf(final(doc)@),
        final(doc)@ == created_field_doc(
            old(doc)@,
            field_id@,
            name@,
            field_type,
            option_views(options@),
            opt_string_view(default_value),
            auto_apply,
        ),
        r matches Ok(f) && f@ == created_field_view(
            old(doc)@,
            field_id@,
            name@,
            field_type,
            option_views(options@),
            opt_string_view(default_value),
            auto_apply,
        ),
{
    let mut defs = match doc.field_definitions.take() {
        Some(m) => m,
        None => Vec::new(),
    };
    assert(board::defs_view(defs@) == board::defs_or_empty(old(doc)@));
    let order = defs.len() as u64;
    let name_s = name.to_owned();
    let obj = FieldDefObject {
        id: Some(Value::Str(field_id.clone())),
        name: Some(Value::Str(name_s.clone())),
        kind: Some(Value::Str(field_type.as_str().to_owned())),
        order: Some(Value::Uint(order)),
        archived: Some(Value::Boolean(false)),
        auto_apply: Some(Value::Boolean(auto_apply)),
        default_value: match &default_value {
            Some(v) => Some(Value::Str(v.clone())),
            None => None,
        },
        options: Some(string_values(&options)),
    };
    board::put_def(&mut defs, field_id.clone(), obj);
    doc.field_definitions = Some(defs);
    Ok(
        FieldDefinition {
            id: field_id,
            name: name_s,
            field_type,
            options,
            order,
            archived: false,
            default_value,
            auto_apply,
        },
    )
}

/// Creates a field definition under a fresh random id.
pub fn create_field(
    doc: &mut BoardDoc,
    name: &str,
    field_type: FieldType,
    options: Vec<String>,
    default_value: Option<String>,
    auto_apply: bool,
) -> (r: Result<FieldDefinition, DocError>)
    requires
        board::doc_wf(old(doc)@),
    ensures
        board::doc_wf(final(doc)@),
        r matches Ok(f) && final(doc)@ == created_field_doc(
            old(doc)@,
            f.id@,
            name@,
            field_type,
            option_views(options@),
            opt_string_view(default_value),
            auto_apply,
        ) && f@ == created_field_view(
            old(doc)@,
            f.id@,
            name@,
            field_type,
            option_views(options@),
            opt_string_view(default_value),
            auto_apply,
        ),
{
    let field_id = board::new_uuid();
    create_field_with_id(doc, field_id, name, field_type, options, default_value, auto_apply)
}

/// The object under `id` with `edit` applied, when the definition is there.
pub open spec fn edited_defs(
    d: BoardDocView,
    id: Seq<char>,
    edit: spec_fn(FieldDefObjectView) -> FieldDefObjectView,
) -> Seq<(Seq<char>, FieldDefObjectView)> {
    let defs = board::defs_or_empty(d);
    match board::lookup(defs, id) {
        Some(o) => board::put(defs, id, edit(o)),
        None => defs,
    }
}

/// The document after an edit of the definition `id` (the field definitions
/// map is created when absent, even when the definition is not there).
pub open spec fn edited_field_doc(
    d: BoardDocView,
    id: Seq<char>,
    edit: spec_fn(FieldDefObjectView) -> FieldDefObjectView,
) -> BoardDocView {
    BoardDocView { root: d.root, field_definitions: Some(edited_defs(d, id, edit)), cards: d.cards }
}

pub open spec fn rename_edit(name: Seq<char>) -> spec_fn(FieldDefObjectView) -> FieldDefObjectView {
    |o: FieldDefObjectView| FieldDefObjectView { name: Some(ValueView::Str(name)), ..o }
}

pub open spec fn default_edit(default_value: Option<Seq<char>>, auto_apply: Option<bool>) -> spec_fn(
    FieldDefObjectView,
) -> FieldDefObjectView {
    |o: FieldDefObjectView|
        FieldDefObjectView {
            default_value: match default_value {
                Some(v) => Some(ValueView::Str(v)),
                None => o.default_value,
            },
            auto_apply: match auto_apply {
                Some(a) => Some(ValueView::Boolean(a)),
                None => o.auto_apply,
            },
            ..o
        }
}

pub open spec fn archive_edit() -> spec_fn(FieldDefObjectView) -> FieldDefObjectView {
    |o: FieldDefObjectView| FieldDefObjectView { archived: Some(ValueView::Boolean(true)), ..o }
}

/// Takes the definitions map out of the document (an empty one when absent)
/// and finds `field_id` in it.
fn take_defs(doc: &mut BoardDoc, field_id: &str) -> (r: (Vec<(String, FieldDefObject)>, Option<usize>))
    requires
        board::doc_wf(old(doc)@),
    ensures
        board::defs_view(r.0@) == board::defs_or_empty(old(doc)@),
        final(doc).root == old(doc).root,
        final(doc).cards == old(doc).cards,
        match r.1 {
            Some(i) => i < r.0@.len() && board::key_index(board::defs_view(r.0@), field_id@) == Some(
                i as int,
            ) && r.0@[i as int].0@ == field_id@,
            None => board::key_index(board::defs_view(r.0@), field_id@) is None,
        },
{
    let defs = match doc.field_definitions.take() {
        Some(m) => m,
        None => Vec::new(),
    };
    assert(board::defs_view(defs@) == board::defs_or_empty(old(doc)@));
    let i = board::find_key(&defs, field_id);
    proof {
        let dv = board::defs_view(defs@);
        match i {
            Some(k) => {
                assert(dv[k as int].0 == field_id@);
                board::lemma_key_index(dv, field_id@, k as int);
            },
            None => {
                assert forall|j: int| 0 <= j < dv.len() implies dv[j].0 != field_id@ by {
                    assert(dv[j].0 == defs@[j].0@);
                }
                board::lemma_key_index_none(dv, field_id@);
            },
        }
    }
    (defs, i)
}

/// Renames the field `field_id`.
pub fn rename_field(doc: &mut BoardDoc, field_id: &str, new_name: &str) -> (r: Result<(), DocError>)
    requires
        board::doc_wf(old(doc)@),
    ensures
        board::doc_wf(final(doc)@),
        final(doc)@ == edited_field_doc(old(doc)@, field_id@, rename_edit(new_name@)),
        match r {
            Ok(()) => board::lookup(board::defs_or_empty(old(doc)@), field_id@) is Some,
            Err(e) => board::lookup(board::defs_or_empty(old(doc)@), field_id@) is None && e@
                == DocErrorView::NotFound(field_id@),
        },
{
    let (mut defs, found) = take_defs(doc, field_id);
    match found {
        Some(i) => {
            let (k, mut o) = defs.remove(i);
            o.name = Some(Value::Str(new_name.to_owned()));
            defs.insert(i, (k, o));
            proof {
                let old_defs = board::defs_or_empty(old(doc)@);
                assert(board::defs_view(defs@) =~= old_defs.update(
                    i as int,
                    (field_id@, rename_edit(new_name@)(old_defs[i as int].1)),
                ));
            }
            doc.field_definitions = Some(defs);
            Ok(())
        },
        None => {
            doc.field_definitions = Some(defs);
            Err(DocError::NotFound(field_id.to_owned()))
        },
    }
}

/// Sets the default value and the auto-apply flag of the field `field_id`,
/// each only when given.
pub fn update_field_default(
    doc: &mut BoardDoc,
    field_id: &str,
    default_value: Option<&str>,
    auto_apply: Option<bool>,
) -> (r: Result<(), DocError>)
    requires
        board::doc_wf(old(doc)@),
    ensures
        board::doc_wf(final(doc)@),
        final(doc)@ == edited_field_doc(
            old(doc)@,
            field_id@,
            default_edit(
                match default_value {
                    Some(v) => Some(v@),
                    None => None,
                },
                auto_apply,
            ),
        ),
        match r {
            Ok(()) => board::lookup(board::defs_or_empty(old(doc)@), field_id@) is Some,
            Err(e) => board::lookup(board::defs_or_empty(old(doc)@), field_id@) is None && e@
                == DocErrorView::NotFound(field_id@),
        },
{
    let (mut defs, found) = take_defs(doc, field_id);
    match found {
        Some(i) => {
            let (k, mut o) = defs.remove(i);
            match default_value {
                Some(dv) => {
                    o.default_value = Some(Value::Str(dv.to_owned()));
                },
                None => {},
            }
            match auto_apply {
                Some(aa) => {
                    o.auto_apply = Some(Value::Boolean(aa));
                },
                None => {},
            }
            defs.insert(i, (k, o));
            proof {
                let old_defs = board::defs_or_empty(old(doc)@);
                let e = default_edit(
                    match default_value {
                        Some(v) => Some(v@),
                        None => None,
                    },
                    auto_apply,
                );
                assert(board::defs_view(defs@) =~= old_defs.update(
                    i as int,
                    (field_id@, e(old_defs[i as int].1)),
                ));
            }
            doc.field_definitions = Some(defs);
            Ok(())
        },
        None => {
            doc.field_definitions = Some(defs);
            Err(DocError::NotFound(field_id.to_owned()))
        },
    }
}

/// Marks the field `field_id` archived.
pub fn archive_field(doc: &mut BoardDoc, field_id: &str) -> (r: Result<(), DocError>)
    requires
        board::doc_wf(old(doc)@),
    ensures
        board::doc_wf(final(doc)@),
        final(doc)@ == edited_field_doc(old(doc)@, field_id@, archive_edit()),
        match r {
            Ok(()) => board::lookup(board::defs_or_empty(old(doc)@), field_id@) is Some,
            Err(e) => board::lookup(board::defs_or_empty(old(doc)@), field_id@) is None && e@
                == DocErrorView::NotFound(field_id@),
        },
{
    let (mut defs, found) = take_defs(doc, field_id);
    match found {
        Some(i) => {
            let (k, mut o) = defs.remove(i);
            o.archived = Some(Value::Boolean(true));
            defs.insert(i, (k, o));
            proof {
                let old_defs = board::defs_or_empty(old(doc)@);
                assert(board::defs_view(defs@) =~= old_defs.update(
                    i as int,
                    (field_id@, archive_edit()(old_defs[i as int].1)),
                ));
            }
            doc.field_definitions = Some(defs);
            Ok(())
        },
        None => {
            doc.field_definitions = Some(defs);
            Err(DocError::NotFound(field_id.to_owned()))
        },
    }
}

// ---------------------------------------------------------------------------
// Custom field values of cards
// ---------------------------------------------------------------------------

/// The card with `field` set to `v` (its custom field map created when absent).
pub open spec fn with_card_field(c: CardObjectView, field: Seq<char>, v: ValueView) -> CardObjectView {
    CardObjectView {
        custom_fields: Some(board::put(board::custom_fields_or_empty(c), field, v)),
        ..c
    }
}

/// The document with card `card` replaced by `edit` of it, when the card is there.
pub open spec fn edited_card_doc(
    d: BoardDocView,
    card: Seq<char>,
    edit: spec_fn(CardObjectView) -> CardObjectView,
) -> BoardDocView {
    match board::lookup(d.cards, card) {
        Some(c) => BoardDocView { cards: board::put(d.cards, card, edit(c)), ..d },
        None => d,
    }
}

pub open spec fn set_field_edit(field: Seq<char>, value: Seq<char>) -> spec_fn(CardObjectView) -> CardObjectView {
    |c: CardObjectView| with_card_field(c, field, ValueView::Str(value))
}

pub open spec fn clear_field_edit(field: Seq<char>) -> spec_fn(CardObjectView) -> CardObjectView {
    |c: CardObjectView|
        CardObjectView {
            custom_fields: match c.custom_fields {
                Some(m) => Some(board::remove(m, field)),
                None => None,
            },
            ..c
        }
}

/// The card-not-found outcome of a card operation.
pub open spec fn card_missing(d: BoardDocView, card: Seq<char>) -> bool {
    board::lookup(d.cards, card) is None
}

/// Takes card `i` out of the document and puts back `c` in its place.
pub proof fn lemma_replace_card(d: BoardDocView, card: Seq<char>, i: int, c: CardObjectView)
    requires
        board::doc_wf(d),
        board::key_index(d.cards, card) == Some(i),
        board::keys_unique(board::custom_fields_or_empty(c)),
    ensures
        board::doc_wf(BoardDocView { cards: board::put(d.cards, card, c), ..d }),
        board::put(d.cards, card, c) == d.cards.update(i, (card, c)),
{
    board::lemma_key_index_bounds(d.cards, card);
    let n = BoardDocView { cards: board::put(d.cards, card, c), ..d };
    assert forall|j: int| 0 <= j < n.cards.len() implies board::keys_unique(
        board::custom_fields_or_empty(#[trigger] n.cards[j].1),
    ) by {
        if j != i {
            assert(n.cards[j] == d.cards[j]);
        }
    }
}

/// Sets the custom field `field_id` of card `card_id` to `value`.
pub fn set_card_field(doc: &mut BoardDoc, card_id: &str, field_id: &str, value: &str) -> (r: Result<(), DocError>)
    requires
        board::doc_wf(old(doc)@),
    ensures
        board::doc_wf(final(doc)@),
        final(doc)@ == edited_card_doc(old(doc)@, card_id@, set_field_edit(field_id@, value@)),
        match r {
            Ok(()) => !card_missing(old(doc)@, card_id@),
            Err(e) => card_missing(old(doc)@, card_id@) && e@ == DocErrorView::NotFound(card_id@),
        },
{
    let i = match board::find_card(doc, card_id) {
        Some(i) => i,
        None => return Err(DocError::NotFound(card_id.to_owned())),
    };
    let ghost d = doc@;
    let (k, mut c) = doc.cards.remove(i);
    let ghost old_card = c@;
    let mut cf = match c.custom_fields.take() {
        Some(m) => m,
        None => Vec::new(),
    };
    assert(board::entries_view(cf@) == board::custom_fields_or_empty(old_card));
    assert(board::keys_unique(board::custom_fields_or_empty(d.cards[i as int].1)));
    board::put_value(&mut cf, field_id.to_owned(), Value::Str(value.to_owned()));
    c.custom_fields = Some(cf);
    doc.cards.insert(i, (k, c));
    proof {
        let nc = set_field_edit(field_id@, value@)(old_card);
        lemma_replace_card(d, card_id@, i as int, nc);
        assert(doc@.cards =~= d.cards.update(i as int, (card_id@, nc)));
    }
    Ok(())
}

/// What reading the custom field `field` of card `card` gives.
pub open spec fn card_field(d: BoardDocView, card: Seq<char>, field: Seq<char>) -> Result<
    Option<Seq<char>>,
    DocErrorView,
> {
    match board::lookup(d.cards, card) {
        None => Err(DocErrorView::NotFound(card)),
        Some(c) => match c.custom_fields {
            None => Ok(None),
            Some(m) => Ok(board::as_text(board::lookup(m, field))),
        },
    }
}

/// The value of the custom field `field_id` of card `card_id`, when it is text.
pub fn get_card_field(doc: &BoardDoc, card_id: &str, field_id: &str) -> (r: Result<Option<String>, DocError>)
    requires
        board::doc_wf(doc@),
    ensures
        match (r, card_field(doc@, card_id@, field_id@)) {
            (Ok(Some(v)), Ok(Some(w))) => v@ == w,
            (Ok(None), Ok(None)) => true,
            (Err(e), Err(g)) => e@ == g,
            _ => false,
        },
{
    let i = match board::find_card(doc, card_id) {
        Some(i) => i,
        None => return Err(DocError::NotFound(card_id.to_owned())),
    };
    match &doc.cards[i].1.custom_fields {
        None => Ok(None),
        Some(m) => {
            assert(board::keys_unique(board::custom_fields_or_empty(doc@.cards[i as int].1)));
            match board::find_key(m, field_id) {
                Some(j) => {
                    proof {
                        assert(board::entries_view(m@)[j as int].0 == field_id@);
                        board::lemma_key_index(board::entries_view(m@), field_id@, j as int);
                    }
                    let v = board::text_of(&Some(board::clone_value(&m[j].1)));
                    Ok(v)
                },
                None => {
                    proof {
                        assert forall|q: int| 0 <= q < board::entries_view(m@).len() implies board::entries_view(
                            m@,
                        )[q].0 != field_id@ by {
                            assert(board::entries_view(m@)[q].0 == m@[q].0@);
                        }
                        board::lemma_key_index_none(board::entries_view(m@), field_id@);
                    }
                    Ok(None)
                },
            }
        },
    }
}

/// Removes the custom field `field_id` from card `card_id`.
pub fn clear_card_field(doc: &mut BoardDoc, card_id: &str, field_id: &str) -> (r: Result<(), DocError>)
    requires
        board::doc_wf(old(doc)@),
    ensures
        board::doc_wf(final(doc)@),
        final(doc)@ == edited_card_doc(old(doc)@, card_id@, clear_field_edit(field_id@)),
        match r {
            Ok(()) => !card_missing(old(doc)@, card_id@),
            Err(e) => card_missing(old(doc)@, card_id@) && e@ == DocErrorView::NotFound(card_id@),
        },
{
    let i = match board::find_card(doc, card_id) {
        Some(i) => i,
        None => return Err(DocError::NotFound(card_id.to_owned())),
    };
    let ghost d = doc@;
    let (k, mut c) = doc.cards.remove(i);
    let ghost old_card = c@;
    assert(board::keys_unique(board::custom_fields_or_empty(d.cards[i as int].1)));
    match c.custom_fields.take() {
        Some(mut m) => {
            board::remove_value(&mut m, field_id);
            c.custom_fields = Some(m);
        },
        None => {},
    }
    doc.cards.insert(i, (k, c));
    proof {
        let nc = clear_field_edit(field_id@)(old_card);
        lemma_replace_card(d, card_id@, i as int, nc);
        assert(doc@.cards =~= d.cards.update(i as int, (card_id@, nc)));
    }
    Ok(())
}

/// The entries of a map whose values are text, in key order.
pub open spec fn text_entries(m: Seq<(Seq<char>, ValueView)>) -> Seq<(Seq<char>, Seq<char>)>
    decreases m.len(),
{
    if m.len() == 0 {
        Seq::empty()
    } else {
        let r = text_entries(m.drop_last());
        match m.last().1 {
            ValueView::Str(s) => r.push((m.last().0, s)),
            _ => r,
        }
    }
}

pub open spec fn pair_views(v: Seq<(String, String)>) -> Seq<(Seq<char>, Seq<char>)> {
    v.map_values(|p: (String, String)| (p.0@, p.1@))
}

/// The text entries of a map of values, in key order.
pub fn text_entries_exec(m: &Vec<(String, Value)>) -> (r: Vec<(String, String)>)
    ensures
        pair_views(r@) == text_entries(board::entries_view(m@)),
{
    let mut r: Vec<(String, String)> = Vec::new();
    let ghost mv = board::entries_view(m@);
    let mut i: usize = 0;
    assert(mv.take(0) =~= Seq::<(Seq<char>, ValueView)>::empty());
    assert(pair_views(r@) =~= Seq::<(Seq<char>, Seq<char>)>::empty());
    while i < m.len()
        invariant
            i <= m@.len(),
            mv == board::entries_view(m@),
            pair_views(r@) == text_entries(mv.take(i as int)),
        decreases m@.len() - i,
    {
        assert(mv.take(i + 1).drop_last() =~= mv.take(i as int));
        assert(mv.take(i + 1).last() == (m@[i as int].0@, m@[i as int].1@));
        match &m[i].1 {
            Value::Str(v) => {
                r.push((m[i].0.clone(), v.clone()));
                assert(pair_views(r@) =~= text_entries(mv.take(i as int)).push(
                    (m@[i as int].0@, v@),
                ));
            },
            _ => {},
        }
        i = i + 1;
    }
    assert(mv.take(i as int) =~= mv);
    r
}

/// The custom field values of card `card_id` that are text, as `(field id, value)` pairs.
pub fn list_card_fields(doc: &BoardDoc, card_id: &str) -> (r: Result<Vec<(String, String)>, DocError>)
    requires
        board::doc_wf(doc@),
    ensures
        match r {
            Ok(v) => board::lookup(doc@.cards, card_id@) matches Some(c) && pair_views(v@)
                == text_entries(board::custom_fields_or_empty(c)),
            Err(e) => card_missing(doc@, card_id@) && e@ == DocErrorView::NotFound(card_id@),
        },
{
    let i = match board::find_card(doc, card_id) {
        Some(i) => i,
        None => return Err(DocError::NotFound(card_id.to_owned())),
    };
    match &doc.cards[i].1.custom_fields {
        None => {
            let v: Vec<(String, String)> = Vec::new();
            assert(pair_views(v@) =~= text_entries(Seq::<(Seq<char>, ValueView)>::empty()));
            Ok(v)
        },
        Some(m) => Ok(text_entries_exec(m)),
    }
}

// ---------------------------------------------------------------------------
// Defaults
// ---------------------------------------------------------------------------

/// The `(field id, default)` pairs of the active auto-apply fields that have
/// a text default, in key order.
pub open spec fn defaults_to_apply(defs: Seq<(Seq<char>, FieldDefObjectView)>) -> Seq<
    (Seq<char>, Seq<char>),
>
    decreases defs.len(),
{
    if defs.len() == 0 {
        Seq::empty()
    } else {
        let r = defaults_to_apply(defs.drop_last());
        let o = defs.last().1;
        if board::is_true(o.auto_apply) && !board::is_true(o.archived) && board::as_text(
            o.default_value,
        ) is Some {
            r.push((defs.last().0, board::as_text(o.default_value)->0))
        } else {
            r
        }
    }
}

/// `cf` with each pair of `list` written, in order, unless its field is already set.
pub open spec fn fill_defaults(cf: Seq<(Seq<char>, ValueView)>, list: Seq<(Seq<char>, Seq<char>)>) -> Seq<
    (Seq<char>, ValueView),
>
    decreases list.len(),
{
    if list.len() == 0 {
        cf
    } else {
        let prev = fill_defaults(cf, list.drop_last());
        if board::lookup(prev, list.last().0) is Some {
            prev
        } else {
            board::put(prev, list.last().0, ValueView::Str(list.last().1))
        }
    }
}

pub open spec fn apply_defaults_edit(list: Seq<(Seq<char>, Seq<char>)>) -> spec_fn(CardObjectView) -> CardObjectView {
    |c: CardObjectView|
        CardObjectView {
            custom_fields: Some(fill_defaults(board::custom_fields_or_empty(c), list)),
            ..c
        }
}

fn defaults_to_apply_exec(defs: &Vec<(String, FieldDefObject)>) -> (r: Vec<(String, String)>)
    ensures
        pair_views(r@) == defaults_to_apply(board::defs_view(defs@)),
{
    let mut r: Vec<(String, String)> = Vec::new();
    let ghost mv = board::defs_view(defs@);
    let mut i: usize = 0;
    assert(mv.take(0) =~= Seq::<(Seq<char>, FieldDefObjectView)>::empty());
    assert(pair_views(r@) =~= Seq::<(Seq<char>, Seq<char>)>::empty());
    while i < defs.len()
        invariant
            i <= defs@.len(),
            mv == board::defs_view(defs@),
            pair_views(r@) == defaults_to_apply(mv.take(i as int)),
        decreases defs@.len() - i,
    {
        assert(mv.take(i + 1).drop_last() =~= mv.take(i as int));
        assert(mv.take(i + 1).last() == (defs@[i as int].0@, defs@[i as int].1@));
        let o = &defs[i].1;
        if board::is_true_exec(&o.auto_apply) && !board::is_true_exec(&o.archived) {
            match board::text_of(&o.default_value) {
                Some(dv) => {
                    r.push((defs[i].0.clone(), dv));
                    assert(pair_views(r@) =~= defaults_to_apply(mv.take(i as int)).push(
                        (defs@[i as int].0@, board::as_text(o@.default_value)->0),
                    ));
                },
                None => {},
            }
        }
        i = i + 1;
    }
    assert(mv.take(i as int) =~= mv);
    r
}

/// Applies the auto-apply defaults onto a newly created card: each active
/// auto-apply field with a text default is written unless the card already
/// has a value for it. A board without field definitions is left as it is.
pub fn apply_default_fields(doc: &mut BoardDoc, card_id: &str) -> (r: Result<(), DocError>)
    requires
        board::doc_wf(old(doc)@),
    ensures
        board::doc_wf(final(doc)@),
        match old(doc)@.field_definitions {
            None => r is Ok && final(doc)@ == old(doc)@,
            Some(defs) => final(doc)@ == edited_card_doc(
                old(doc)@,
                card_id@,
                apply_defaults_edit(defaults_to_apply(defs)),
            ) && match r {
                Ok(()) => !card_missing(old(doc)@, card_id@),
                Err(e) => card_missing(old(doc)@, card_id@) && e@ == DocErrorView::NotFound(card_id@),
            },
        },
{
    let list = match &doc.field_definitions {
        None => return Ok(()),
        Some(defs) => defaults_to_apply_exec(defs),
    };
    let ghost lv = pair_views(list@);
    let i = match board::find_card(doc, card_id) {
        Some(i) => i,
        None => return Err(DocError::NotFound(card_id.to_owned())),
    };
    let ghost d = doc@;
    let (k, mut c) = doc.cards.remove(i);
    let ghost old_card = c@;
    let mut cf = match c.custom_fields.take() {
        Some(m) => m,
        None => Vec::new(),
    };
    assert(board::keys_unique(board::custom_fields_or_empty(d.cards[i as int].1)));
    let ghost cf0 = board::entries_view(cf@);
    assert(cf0 == board::custom_fields_or_empty(old_card));
    let mut j: usize = 0;
    assert(lv.take(0) =~= Seq::<(Seq<char>, Seq<char>)>::empty());
    while j < list.len()
        invariant
            j <= list@.len(),
            lv == pair_views(list@),
            board::keys_unique(board::entries_view(cf@)),
            board::entries_view(cf@) == fill_defaults(cf0, lv.take(j as int)),
        decreases list@.len() - j,
    {
        assert(lv.take(j + 1).drop_last() =~= lv.take(j as int));
        assert(lv.take(j + 1).last() == (list@[j as int].0@, list@[j as int].1@));
        match board::find_key(&cf, list[j].0.as_str()) {
            Some(q) => {
                proof {
                    assert(board::entries_view(cf@)[q as int].0 == list@[j as int].0@);
                    board::lemma_key_index(board::entries_view(cf@), list@[j as int].0@, q as int);
                }
            },
            None => {
                proof {
                    assert forall|q: int| 0 <= q < board::entries_view(cf@).len() implies board::entries_view(
                        cf@,
                    )[q].0 != list@[j as int].0@ by {
                        assert(board::entries_view(cf@)[q].0 == cf@[q].0@);
                    }
                    board::lemma_key_index_none(board::entries_view(cf@), list@[j as int].0@);
                }
                board::put_value(&mut cf, list[j].0.clone(), Value::Str(list[j].1.clone()));
            },
        }
        j = j + 1;
    }
    assert(lv.take(j as int) =~= lv);
    c.custom_fields = Some(cf);
    doc.cards.insert(i, (k, c));
    proof {
        let nc = apply_defaults_edit(lv)(old_card);
        lemma_replace_card(d, card_id@, i as int, nc);
        assert(doc@.cards =~= d.cards.update(i as int, (card_id@, nc)));
    }
    Ok(())
}

/// Whether backfilling the field `field` writes its default onto card `c`:
/// the card is not deleted and has no value for the field.
pub open spec fn needs_default(c: CardObjectView, field: Seq<char>) -> bool {
    !board::is_true(c.deleted) && board::lookup(board::custom_fields_or_empty(c), field) is None
}

/// The number of cards that need the default of `field`.
pub open spec fn count_needing(cards: Seq<(Seq<char>, CardObjectView)>, field: Seq<char>) -> nat
    decreases cards.len(),
{
    if cards.len() == 0 {
        0
    } else {
        count_needing(cards.drop_last(), field) + if needs_default(cards.last().1, field) {
            1nat
        } else {
            0nat
        }
    }
}

/// The cards after writing `dv` into `field` of every card that needs it.
pub open spec fn backfilled_cards(
    cards: Seq<(Seq<char>, CardObjectView)>,
    field: Seq<char>,
    dv: Seq<char>,
) -> Seq<(Seq<char>, CardObjectView)> {
    Seq::new(
        cards.len(),
        |i: int|
            if needs_default(cards[i].1, field) {
                (cards[i].0, with_card_field(cards[i].1, field, ValueView::Str(dv)))
            } else {
                cards[i]
            },
    )
}

/// What backfilling the default of `field` does: an error when the field is
/// not defined; nothing when it has no text default; else the default is
/// written onto every card that needs it, and their number is returned.
pub open spec fn backfill_outcome(d: BoardDocView, field: Seq<char>) -> Result<
    (BoardDocView, nat),
    DocErrorView,
> {
    match d.field_definitions {
        None => Err(DocErrorView::NotFound(field)),
        Some(defs) => match board::lookup(defs, field) {
            None => Err(DocErrorView::NotFound(field)),
            Some(o) => match board::as_text(o.default_value) {
                None => Ok((d, 0)),
                Some(dv) => Ok(
                    (
                        BoardDocView { cards: backfilled_cards(d.cards, field, dv), ..d },
                        count_needing(d.cards, field),
                    ),
                ),
            },
        },
    }
}

/// Backfills the default of `field_id` onto every non-deleted card that has
/// no value for it, and returns how many cards were updated.
pub fn backfill_field_defaults(doc: &mut BoardDoc, field_id: &str) -> (r: Result<usize, DocError>)
    requires
        board::doc_wf(old(doc)@),
    ensures
        board::doc_wf(final(doc)@),
        match (r, backfill_outcome(old(doc)@, field_id@)) {
            (Ok(n), Ok((d, m))) => final(doc)@ == d && n == m,
            (Err(e), Err(g)) => e@ == g && final(doc)@ == old(doc)@,
            _ => false,
        },
{
    let dv = match &doc.field_definitions {
        None => return Err(DocError::NotFound(field_id.to_owned())),
        Some(defs) => {
            let q = board::find_key(defs, field_id);
            proof {
                let dv = board::defs_view(defs@);
                match q {
                    Some(k) => {
                        assert(dv[k as int].0 == field_id@);
                        board::lemma_key_index(dv, field_id@, k as int);
                    },
                    None => {
                        assert forall|j: int| 0 <= j < dv.len() implies dv[j].0 != field_id@ by {
                            assert(dv[j].0 == defs@[j].0@);
                        }
                        board::lemma_key_index_none(dv, field_id@);
                    },
                }
            }
            match q {
                None => return Err(DocError::NotFound(field_id.to_owned())),
                Some(k) => match board::text_of(&defs[k].1.default_value) {
                    None => return Ok(0),
                    Some(v) => v,
                },
            }
        },
    };
    let ghost d = doc@;
    let mut count: usize = 0;
    let mut i: usize = 0;
    assert(d.cards.take(0) =~= Seq::<(Seq<char>, CardObjectView)>::empty());
    while i < doc.cards.len()
        invariant
            i <= doc.cards@.len(),
            doc.cards@.len() == d.cards.len(),
            doc@.root == d.root,
            doc@.field_definitions == d.field_definitions,
            board::doc_wf(d),
            count <= i,
            count == count_needing(d.cards.take(i as int), field_id@),
            forall|j: int| 0 <= j < i ==> #[trigger] doc@.cards[j] == backfilled_cards(d.cards, field_id@, dv@)[j],
            forall|j: int| i <= j < doc@.cards.len() ==> #[trigger] doc@.cards[j] == d.cards[j],
        decreases doc.cards@.len() - i,
    {
        assert(d.cards.take(i + 1).drop_last() =~= d.cards.take(i as int));
        assert(d.cards.take(i + 1).last() == d.cards[i as int]);
        assert(doc@.cards[i as int] == d.cards[i as int]);
        let deleted = board::is_true_exec(&doc.cards[i].1.deleted);
        let already = match &doc.cards[i].1.custom_fields {
            None => {
                proof {
                    board::lemma_key_index_none(Seq::<(Seq<char>, ValueView)>::empty(), field_id@);
                }
                false
            },
            Some(m) => {
                let q = board::find_key(m, field_id);
                proof {
                    let mv = board::entries_view(m@);
                    assert(board::keys_unique(board::custom_fields_or_empty(d.cards[i as int].1)));
                    match q {
                        Some(k) => {
                            assert(mv[k as int].0 == field_id@);
                            board::lemma_key_index(mv, field_id@, k as int);
                        },
                        None => {
                            assert forall|j: int| 0 <= j < mv.len() implies mv[j].0 != field_id@ by {
                                assert(mv[j].0 == m@[j].0@);
                            }
                            board::lemma_key_index_none(mv, field_id@);
                        },
                    }
                }
                q.is_some()
            },
        };
        if !deleted && !already {
            let ghost before = doc@.cards;
            let (k, mut c) = doc.cards.remove(i);
            let ghost old_card = c@;
            assert(k@ == before[i as int].0);
            assert(old_card == before[i as int].1);
            let mut cf = match c.custom_fields.take() {
                Some(m) => m,
                None => Vec::new(),
            };
            assert(board::entries_view(cf@) == board::custom_fields_or_empty(old_card));
            assert(board::keys_unique(board::custom_fields_or_empty(d.cards[i as int].1)));
            board::put_value(&mut cf, field_id.to_owned(), Value::Str(dv.clone()));
            c.custom_fields = Some(cf);
            assert(c@ == with_card_field(old_card, field_id@, ValueView::Str(dv@)));
            doc.cards.insert(i, (k, c));
            assert(doc@.cards =~= before.update(
                i as int,
                (d.cards[i as int].0, with_card_field(old_card, field_id@, ValueView::Str(dv@))),
            ));
            count = count + 1;
        }
        i = i + 1;
    }
    proof {
        assert(d.cards.take(i as int) =~= d.cards);
        assert(doc@.cards =~= backfilled_cards(d.cards, field_id@, dv@));
        let n = BoardDocView { cards: backfilled_cards(d.cards, field_id@, dv@), ..d };
        assert(doc@ == n);
        assert forall|j: int| 0 <= j < n.cards.len() implies board::keys_unique(
            board::custom_fields_or_empty(#[trigger] n.cards[j].1),
        ) by {
            if needs_default(d.cards[j].1, field_id@) {
                board::lemma_put_keys_unique(
                    board::custom_fields_or_empty(d.cards[j].1),
                    field_id@,
                    ValueView::Str(dv@),
                );
            }
        }
        assert(board::keys_unique(n.cards)) by {
            assert forall|a: int, b: int|
                0 <= a < n.cards.len() && 0 <= b < n.cards.len() && a != b implies n.cards[a].0
                != n.cards[b].0 by {
                assert(n.cards[a].0 == d.cards[a].0);
                assert(n.cards[b].0 == d.cards[b].0);
            }
        }
    }
    Ok(count)
}

// ---------------------------------------------------------------------------
// Laws
// ---------------------------------------------------------------------------

pub proof fn lemma_lookup_remove<T>(m: Seq<(Seq<char>, T)>, key: Seq<char>, k: Seq<char>)
    ensures
        k == key ==> board::lookup(board::remove(m, key), k) is None,
        k != key && board::keys_unique(m) ==> board::lookup(board::remove(m, key), k) == board::lookup(m, k),
    decreases m.len(),
{
    let r = board::remove(m, key);
    if m.len() == 0 {
        board::lemma_key_index_none(r, k);
        board::lemma_key_index_none(m, k);
    } else {
        lemma_remove_keys(m, key);
        if k == key {
            assert forall|j: int| 0 <= j < r.len() implies r[j].0 != k by {}
            board::lemma_key_index_none(r, k);
        } else if board::keys_unique(m) {
            board::lemma_key_index_bounds(m, k);
            match board::key_index(m, k) {
                Some(i) => {
                    lemma_remove_position(m, key, i);
                },
                None => {
                    assert forall|j: int| 0 <= j < r.len() implies r[j].0 != k by {
                        lemma_remove_member(m, key, j);
                        if m.contains(r[j]) {
                            let q = choose|q: int| 0 <= q < m.len() && m[q] == r[j];
                            if m[q].0 == k {
                                board::lemma_key_index(m, k, q);
                            }
                        }
                    }
                    board::lemma_key_index_none(r, k);
                },
            }
        }
    }
}

proof fn lemma_remove_keys<T>(m: Seq<(Seq<char>, T)>, key: Seq<char>)
    ensures
        forall|j: int| 0 <= j < board::remove(m, key).len() ==> board::remove(m, key)[j].0 != key,
    decreases m.len(),
{
    if m.len() > 0 {
        lemma_remove_keys(m.drop_last(), key);
        let r0 = board::remove(m.drop_last(), key);
        if m.last().0 != key {
            assert(board::remove(m, key) == r0.push(m.last()));
        } else {
            assert(board::remove(m, key) == r0);
        }
    }
}

proof fn lemma_remove_member<T>(m: Seq<(Seq<char>, T)>, key: Seq<char>, j: int)
    requires
        0 <= j < board::remove(m, key).len(),
    ensures
        m.contains(board::remove(m, key)[j]),
    decreases m.len(),
{
    if m.len() > 0 {
        let r0 = board::remove(m.drop_last(), key);
        if j < r0.len() {
            lemma_remove_member(m.drop_last(), key, j);
            let q = choose|q: int| 0 <= q < m.drop_last().len() && m.drop_last()[q] == r0[j];
            assert(m[q] == r0[j]);
        } else {
            assert(m[m.len() - 1] == m.last());
        }
    }
}

proof fn lemma_remove_position<T>(m: Seq<(Seq<char>, T)>, key: Seq<char>, i: int)
    requires
        board::keys_unique(m),
        0 <= i < m.len(),
        m[i].0 != key,
    ensures
        board::lookup(board::remove(m, key), m[i].0) == Some(m[i].1),
    decreases m.len(),
{
    let r = board::remove(m, key);
    let k = m[i].0;
    if i == m.len() - 1 {
        let r0 = board::remove(m.drop_last(), key);
        assert(r == r0.push(m.last()));
        assert forall|j: int| 0 <= j < r0.len() implies r0[j].0 != k by {
            lemma_remove_member(m.drop_last(), key, j);
            let q = choose|q: int| 0 <= q < m.drop_last().len() && m.drop_last()[q] == r0[j];
            assert(q != i);
        }
        assert(board::keys_unique(r)) by {
            lemma_remove_unique(m, key);
        }
        board::lemma_key_index(r, k, r0.len() as int);
    } else {
        lemma_remove_position(m.drop_last(), key, i);
        let r0 = board::remove(m.drop_last(), key);
        lemma_remove_unique(m, key);
        board::lemma_key_index_bounds(r0, k);
        let p = board::key_index(r0, k)->0;
        if m.last().0 != key {
            assert(r == r0.push(m.last()));
            assert(r[p] == r0[p]);
        }
        board::lemma_key_index(r, k, p);
    }
}

pub proof fn lemma_remove_unique<T>(m: Seq<(Seq<char>, T)>, key: Seq<char>)
    requires
        board::keys_unique(m),
    ensures
        board::keys_unique(board::remove(m, key)),
    decreases m.len(),
{
    if m.len() > 0 {
        lemma_remove_unique(m.drop_last(), key);
        let r0 = board::remove(m.drop_last(), key);
        if m.last().0 != key {
            assert forall|j: int| 0 <= j < r0.len() implies r0[j].0 != m.last().0 by {
                lemma_remove_member(m.drop_last(), key, j);
            }
        }
    }
}

/// Reading a custom field right after setting it gives the value written.
pub proof fn law_set_then_get(d: BoardDocView, card: Seq<char>, field: Seq<char>, value: Seq<char>)
    requires
        board::doc_wf(d),
        !card_missing(d, card),
    ensures
        card_field(edited_card_doc(d, card, set_field_edit(field, value)), card, field) == Ok::<
            Option<Seq<char>>,
            DocErrorView,
        >(Some(value)),
{
    let c = board::lookup(d.cards, card)->0;
    let nc = set_field_edit(field, value)(c);
    board::lemma_key_index_bounds(d.cards, card);
    let i = board::key_index(d.cards, card)->0;
    assert(board::keys_unique(board::custom_fields_or_empty(d.cards[i].1)));
    board::lemma_put_keys_unique(d.cards, card, nc);
    board::lemma_put_keys_unique(board::custom_fields_or_empty(c), field, ValueView::Str(value));
}

/// Setting a custom field leaves every other custom field of every card as it was.
pub proof fn law_set_keeps_other_fields(
    d: BoardDocView,
    card: Seq<char>,
    field: Seq<char>,
    value: Seq<char>,
    other_card: Seq<char>,
    other_field: Seq<char>,
)
    requires
        board::doc_wf(d),
        other_card != card || other_field != field,
    ensures
        card_field(edited_card_doc(d, card, set_field_edit(field, value)), other_card, other_field)
            == card_field(d, other_card, other_field),
{
    match board::lookup(d.cards, card) {
        None => {},
        Some(c) => {
            let nc = set_field_edit(field, value)(c);
            board::lemma_put_keys_unique(d.cards, card, nc);
            if other_card == card {
                board::lemma_put_keys_unique(board::custom_fields_or_empty(c), field, ValueView::Str(value));
                if c.custom_fields is None {
                    board::lemma_key_index_none(Seq::<(Seq<char>, ValueView)>::empty(), other_field);
                }
            }
        },
    }
}

/// Reading a custom field right after clearing it gives nothing.
pub proof fn law_clear_then_get(d: BoardDocView, card: Seq<char>, field: Seq<char>)
    requires
        board::doc_wf(d),
        !card_missing(d, card),
    ensures
        card_field(edited_card_doc(d, card, clear_field_edit(field)), card, field) == Ok::<
            Option<Seq<char>>,
            DocErrorView,
        >(None),
{
    let c = board::lookup(d.cards, card)->0;
    let nc = clear_field_edit(field)(c);
    board::lemma_put_keys_unique(d.cards, card, nc);
    match c.custom_fields {
        Some(m) => {
            lemma_lookup_remove(m, field, field);
        },
        None => {},
    }
}

pub proof fn lemma_fill_keeps(cf: Seq<(Seq<char>, ValueView)>, list: Seq<(Seq<char>, Seq<char>)>, k: Seq<char>)
    requires
        board::keys_unique(cf),
        board::lookup(cf, k) is Some,
    ensures
        board::lookup(fill_defaults(cf, list), k) == board::lookup(cf, k),
        board::keys_unique(fill_defaults(cf, list)),
    decreases list.len(),
{
    if list.len() > 0 {
        lemma_fill_keeps(cf, list.drop_last(), k);
        let prev = fill_defaults(cf, list.drop_last());
        if board::lookup(prev, list.last().0) is None {
            board::lemma_put_keys_unique(prev, list.last().0, ValueView::Str(list.last().1));
        }
    }
}

proof fn lemma_fill_sets(cf: Seq<(Seq<char>, ValueView)>, list: Seq<(Seq<char>, Seq<char>)>, i: int)
    requires
        board::keys_unique(cf),
        0 <= i < list.len(),
    ensures
        board::lookup(fill_defaults(cf, list), list[i].0) is Some,
        board::keys_unique(fill_defaults(cf, list)),
    decreases list.len(),
{
    let prev = fill_defaults(cf, list.drop_last());
    if i < list.len() - 1 {
        lemma_fill_sets(cf, list.drop_last(), i);
        assert(list.drop_last()[i] == list[i]);
        if board::lookup(prev, list.last().0) is None {
            board::lemma_put_keys_unique(prev, list.last().0, ValueView::Str(list.last().1));
        }
    } else {
        if list.len() > 1 {
            lemma_fill_sets(cf, list.drop_last(), 0);
        } else {
            assert(list.drop_last() =~= Seq::<(Seq<char>, Seq<char>)>::empty());
        }
        if board::lookup(prev, list.last().0) is None {
            board::lemma_put_keys_unique(prev, list.last().0, ValueView::Str(list.last().1));
        }
    }
}

/// Applying the auto-apply defaults never overwrites a value the card already
/// has, and afterwards every field whose default applies has a value.
pub proof fn law_defaults_keep_explicit_values(
    d: BoardDocView,
    card: Seq<char>,
    field: Seq<char>,
)
    requires
        board::doc_wf(d),
        d.field_definitions is Some,
        !card_missing(d, card),
    ensures
        card_field(d, card, field) matches Ok(Some(v)) ==> card_field(
            edited_card_doc(d, card, apply_defaults_edit(defaults_to_apply(d.field_definitions->0))),
            card,
            field,
        ) == Ok::<Option<Seq<char>>, DocErrorView>(Some(v)),
        forall|i: int|
            0 <= i < defaults_to_apply(d.field_definitions->0).len() ==> board::lookup(
                board::custom_fields_or_empty(
                    board::lookup(
                        edited_card_doc(
                            d,
                            card,
                            apply_defaults_edit(defaults_to_apply(d.field_definitions->0)),
                        ).cards,
                        card,
                    )->0,
                ),
                #[trigger] defaults_to_apply(d.field_definitions->0)[i].0,
            ) is Some,
{
    let list = defaults_to_apply(d.field_definitions->0);
    let c = board::lookup(d.cards, card)->0;
    let nc = apply_defaults_edit(list)(c);
    board::lemma_key_index_bounds(d.cards, card);
    let ci = board::key_index(d.cards, card)->0;
    assert(board::keys_unique(board::custom_fields_or_empty(d.cards[ci].1)));
    board::lemma_put_keys_unique(d.cards, card, nc);
    let cf = board::custom_fields_or_empty(c);
    if card_field(d, card, field) matches Ok(Some(_)) {
        lemma_fill_keeps(cf, list, field);
    }
    assert forall|i: int| 0 <= i < list.len() implies board::lookup(
        fill_defaults(cf, list),
        #[trigger] list[i].0,
    ) is Some by {
        lemma_fill_sets(cf, list, i);
    }
}

/// After backfilling the default of a field, every card that is not deleted
/// has a value for it, values set before are unchanged, and the count is the
/// number of cards that received the default.
pub proof fn law_backfill_fills_only_unset(d: BoardDocView, field: Seq<char>, j: int)
    requires
        board::doc_wf(d),
        backfill_outcome(d, field) matches Ok((d2, n)) && d2 != d,
        0 <= j < d.cards.len(),
    ensures
        backfill_outcome(d, field) matches Ok((d2, n)) && {
            &&& !board::is_true(d.cards[j].1.deleted) ==> board::lookup(
                board::custom_fields_or_empty(d2.cards[j].1),
                field,
            ) is Some
            &&& (board::lookup(board::custom_fields_or_empty(d.cards[j].1), field) is Some
                ==> d2.cards[j] == d.cards[j])
            &&& n == count_needing(d.cards, field)
        },
{
    let o = board::lookup(d.field_definitions->0, field)->0;
    let dv = board::as_text(o.default_value)->0;
    assert(board::keys_unique(board::custom_fields_or_empty(d.cards[j].1)));
    if needs_default(d.cards[j].1, field) {
        board::lemma_put_keys_unique(board::custom_fields_or_empty(d.cards[j].1), field, ValueView::Str(dv));
    }
}

proof fn lemma_option_strings_of_strs(options: Seq<Seq<char>>)
    ensures
        option_strings(options.map_values(|o: Seq<char>| ValueView::Str(o))) == options,
    decreases options.len(),
{
    let l = options.map_values(|o: Seq<char>| ValueView::Str(o));
    if options.len() > 0 {
        lemma_option_strings_of_strs(options.drop_last());
        assert(l.drop_last() =~= options.drop_last().map_values(|o: Seq<char>| ValueView::Str(o)));
        assert(options.drop_last().push(options.last()) =~= options);
    } else {
        assert(l =~= Seq::<ValueView>::empty());
    }
}

/// Looking a field up by id right after creating it gives the definition
/// that creation returned.
pub proof fn law_create_then_get(
    d: BoardDocView,
    id: Seq<char>,
    name: Seq<char>,
    t: FieldType,
    options: Seq<Seq<char>>,
    default_value: Option<Seq<char>>,
    auto_apply: bool,
)
    requires
        board::doc_wf(d),
    ensures
        field_by_id(created_field_doc(d, id, name, t, options, default_value, auto_apply), id)
            == Some(created_field_view(d, id, name, t, options, default_value, auto_apply)),
{
    let defs = board::defs_or_empty(d);
    let o = new_def_object(id, name, t, options, default_value, auto_apply, defs.len() as u64);
    board::lemma_put_keys_unique(defs, id, o);
    law_field_type_name_round_trip(t, field_type_name(t));
    lemma_option_strings_of_strs(options);
}


proof fn lemma_count_needing_none(cards: Seq<(Seq<char>, CardObjectView)>, field: Seq<char>)
    requires
        forall|i: int| 0 <= i < cards.len() ==> !needs_default(#[trigger] cards[i].1, field),
    ensures
        count_needing(cards, field) == 0,
    decreases cards.len(),
{
    if cards.len() > 0 {
        let pre = cards.drop_last();
        assert forall|i: int| 0 <= i < pre.len() implies !needs_default(#[trigger] pre[i].1, field) by {
            assert(pre[i] == cards[i]);
        }
        lemma_count_needing_none(pre, field);
        assert(!needs_default(cards[cards.len() - 1].1, field));
    }
}

/// Backfilling a field's default a second time right after the first
/// changes nothing and counts no card.
pub proof fn law_backfill_twice_is_zero(d: BoardDocView, field: Seq<char>)
    requires
        board::doc_wf(d),
        backfill_outcome(d, field) is Ok,
    ensures
        backfill_outcome(d, field) matches Ok((d2, n)) && backfill_outcome(d2, field) == Ok::<(BoardDocView, nat), DocErrorView>((d2, 0nat)),
{
    let o = board::lookup(d.field_definitions->0, field)->0;
    match board::as_text(o.default_value) {
        None => {},
        Some(dv) => {
            let d2 = BoardDocView { cards: backfilled_cards(d.cards, field, dv), ..d };
            assert forall|i: int| 0 <= i < d2.cards.len() implies !needs_default(#[trigger] d2.cards[i].1, field) by {
                if needs_default(d.cards[i].1, field) {
                    assert(board::keys_unique(board::custom_fields_or_empty(d.cards[i].1)));
                    board::lemma_put_keys_unique(board::custom_fields_or_empty(d.cards[i].1), field, ValueView::Str(dv));
                }
            }
            lemma_count_needing_none(d2.cards, field);
            assert(backfilled_cards(d2.cards, field, dv) =~= d2.cards);
        },
    }
}


/// The fields that match a name are exactly the listed fields that are
/// active and carry the name in any case, each once for each listing.
proof fn lemma_matching_fields_members(s: Seq<FieldDefinitionView>, r: Seq<char>)
    ensures
        forall|f: FieldDefinitionView| #[trigger] matching_fields(s, r).contains(f) <==> (s.contains(f) && name_matches(f, r)),
        matching_fields(s, r).len() <= s.len(),
    decreases s.len(),
{
    if s.len() > 0 {
        let pre = s.drop_last();
        lemma_matching_fields_members(pre, r);
        let m = matching_fields(pre, r);
        assert forall|f: FieldDefinitionView| #[trigger] matching_fields(s, r).contains(f) <==> (s.contains(f) && name_matches(f, r)) by {
            if s.contains(f) && name_matches(f, r) {
                let k = choose|k: int| 0 <= k < s.len() && s[k] == f;
                if k < pre.len() {
                    assert(pre[k] == f);
                    assert(m.contains(f));
                    let q = choose|q: int| 0 <= q < m.len() && m[q] == f;
                    if name_matches(s.last(), r) {
                        assert(matching_fields(s, r)[q] == f);
                    }
                } else {
                    assert(matching_fields(s, r)[matching_fields(s, r).len() - 1] == f);
                }
            }
            if matching_fields(s, r).contains(f) {
                let q = choose|q: int| 0 <= q < matching_fields(s, r).len() && matching_fields(s, r)[q] == f;
                if q < m.len() {
                    assert(m[q] == f);
                    assert(m.contains(f));
                    let k = choose|k: int| 0 <= k < pre.len() && pre[k] == f;
                    assert(s[k] == f);
                } else {
                    assert(s[s.len() - 1] == f);
                }
            }
        }
    }
}

/// Resolving a field reference: the field with that id where there is one;
/// else, over the active fields whose name is the reference in any case,
/// nothing for none, that field for one, and an error naming the reference
/// for several.
pub proof fn law_resolve_field_ref(d: BoardDocView, r: Seq<char>)
    ensures
        ({
            let a = matching_fields(listed_fields(d), r);
            &&& forall|f: FieldDefinitionView| #[trigger] a.contains(f) <==> (listed_fields(d).contains(f) && !f.archived
                && text::lowercase(f.name) == text::lowercase(r))
            &&& field_by_id(d, r) matches Some(f) ==> resolved_field(d, r) == Ok::<Option<FieldDefinitionView>, DocErrorView>(Some(f))
            &&& field_by_id(d, r) is None ==> (a.len() == 0 ==> resolved_field(d, r) == Ok::<Option<FieldDefinitionView>, DocErrorView>(None))
            &&& field_by_id(d, r) is None ==> (a.len() == 1 ==> resolved_field(d, r) == Ok::<Option<FieldDefinitionView>, DocErrorView>(Some(a[0])))
            &&& field_by_id(d, r) is None ==> (a.len() >= 2 ==> resolved_field(d, r) == Err::<Option<FieldDefinitionView>, DocErrorView>(
                DocErrorView::NotFound(ambiguous_message(r)),
            ))
        }),
{
    lemma_matching_fields_members(listed_fields(d), r);
}


/// A checkbox field accepts exactly the two values `true` and `false`,
/// whatever its name and options.
pub proof fn law_checkbox_accepts_true_and_false(name: Seq<char>, options: Seq<Seq<char>>, value: Seq<char>)
    ensures
        validation_error(FieldType::Checkbox, name, options, value) is None <==> (value == seq!['t', 'r', 'u', 'e']
            || value == seq!['f', 'a', 'l', 's', 'e']),
{
    reveal_strlit("true");
    reveal_strlit("false");
    assert("true"@ =~= seq!['t', 'r', 'u', 'e']);
    assert("false"@ =~= seq!['f', 'a', 'l', 's', 'e']);
}

/// The entries that applying defaults writes come from definitions that are
/// auto-apply and not archived.
proof fn lemma_defaults_from_active(defs: Seq<(Seq<char>, FieldDefObjectView)>)
    ensures
        forall|k: int|
            0 <= k < defaults_to_apply(defs).len() ==> exists|i: int|
                0 <= i < defs.len() && defs[i].0 == (#[trigger] defaults_to_apply(defs)[k]).0 && board::is_true(defs[i].1.auto_apply)
                    && !board::is_true(defs[i].1.archived),
    decreases defs.len(),
{
    if defs.len() > 0 {
        let pre = defs.drop_last();
        lemma_defaults_from_active(pre);
        let r = defaults_to_apply(defs);
        let rp = defaults_to_apply(pre);
        assert forall|k: int| 0 <= k < r.len() implies exists|i: int|
            0 <= i < defs.len() && defs[i].0 == (#[trigger] r[k]).0 && board::is_true(defs[i].1.auto_apply)
                && !board::is_true(defs[i].1.archived) by {
            if k < rp.len() {
                assert(r[k] == rp[k]);
                let i = choose|i: int|
                    0 <= i < pre.len() && pre[i].0 == rp[k].0 && board::is_true(pre[i].1.auto_apply) && !board::is_true(pre[i].1.archived);
                assert(defs[i] == pre[i]);
            } else {
                assert(defs[defs.len() - 1] == defs.last());
            }
        }
    }
}

/// Filling defaults leaves a field that no entry of the list names as it was.
proof fn lemma_fill_skips(cf: Seq<(Seq<char>, ValueView)>, list: Seq<(Seq<char>, Seq<char>)>, f: Seq<char>)
    requires
        board::keys_unique(cf),
        forall|k: int| 0 <= k < list.len() ==> (#[trigger] list[k]).0 != f,
    ensures
        board::keys_unique(fill_defaults(cf, list)),
        board::lookup(fill_defaults(cf, list), f) == board::lookup(cf, f),
    decreases list.len(),
{
    if list.len() > 0 {
        let pre = list.drop_last();
        assert forall|k: int| 0 <= k < pre.len() implies (#[trigger] pre[k]).0 != f by {
            assert(pre[k] == list[k]);
        }
        lemma_fill_skips(cf, pre, f);
        let prev = fill_defaults(cf, pre);
        assert(list[list.len() - 1] == list.last());
        board::lemma_put_keys_unique(prev, list.last().0, ValueView::Str(list.last().1));
    }
}

/// Applying the defaults never writes a field whose definition is archived
/// or not auto-apply: such a field reads on the card as it did before.
pub proof fn law_defaults_skip_inactive_fields(d: BoardDocView, card: Seq<char>, f: Seq<char>)
    requires
        board::doc_wf(d),
        d.field_definitions is Some,
        board::lookup(d.field_definitions->0, f) matches Some(o) && (board::is_true(o.archived) || !board::is_true(
            o.auto_apply,
        )),
    ensures
        card_field(edited_card_doc(d, card, apply_defaults_edit(defaults_to_apply(d.field_definitions->0))), card, f)
            == card_field(d, card, f),
{
    let defs = d.field_definitions->0;
    let list = defaults_to_apply(defs);
    lemma_defaults_from_active(defs);
    board::lemma_key_index_bounds(defs, f);
    let j = board::key_index(defs, f)->0;
    assert(board::keys_unique(defs));
    assert forall|k: int| 0 <= k < list.len() implies (#[trigger] list[k]).0 != f by {
        let i = choose|i: int|
            0 <= i < defs.len() && defs[i].0 == list[k].0 && board::is_true(defs[i].1.auto_apply) && !board::is_true(defs[i].1.archived);
        if list[k].0 == f {
            assert(i == j);
        }
    }
    match board::lookup(d.cards, card) {
        None => {},
        Some(c) => {
            board::lemma_key_index_bounds(d.cards, card);
            let ci = board::key_index(d.cards, card)->0;
            assert(board::keys_unique(board::custom_fields_or_empty(d.cards[ci].1)));
            lemma_fill_skips(board::custom_fields_or_empty(c), list, f);
            let nc = apply_defaults_edit(list)(c);
            board::lemma_put_keys_unique(d.cards, card, nc);
            if c.custom_fields is None {
                assert(board::custom_fields_or_empty(c) =~= Seq::<(Seq<char>, ValueView)>::empty());
            }
        },
    }
}


proof fn lemma_first_not_in(parts: Seq<Seq<char>>, options: Seq<Seq<char>>)
    ensures
        first_not_in(parts, options) is None <==> forall|i: int| 0 <= i < parts.len() ==> options.contains(#[trigger] parts[i]),
        first_not_in(parts, options) matches Some(p) ==> parts.contains(p) && !options.contains(p),
    decreases parts.len(),
{
    if parts.len() > 0 {
        let rest = parts.drop_first();
        lemma_first_not_in(rest, options);
        assert forall|i: int| 0 < i < parts.len() implies parts[i] == #[trigger] rest[i - 1] by {}
        if options.contains(parts[0]) {
            if first_not_in(rest, options) is None {
                assert forall|i: int| 0 <= i < parts.len() implies options.contains(#[trigger] parts[i]) by {
                    if i > 0 {
                        assert(options.contains(rest[i - 1]));
                    }
                }
            } else {
                let p = first_not_in(rest, options)->0;
                let q = choose|q: int| 0 <= q < rest.len() && rest[q] == p;
                assert(parts[q + 1] == p);
            }
        } else {
            assert(parts[0] == parts[0]);
        }
    }
}

/// What each field type accepts: any text for a text field; for a select
/// field, one of its options (anything where it has none); for a
/// multi-select field, values each of which is one of its options (anything
/// where it has none); the offending value is named in the error.
pub proof fn law_choice_fields_accept_their_options(name: Seq<char>, options: Seq<Seq<char>>, value: Seq<char>)
    ensures
        validation_error(FieldType::Text, name, options, value) is None,
        validation_error(FieldType::Select, name, options, value) is None <==> (options.len() == 0 || options.contains(value)),
        validation_error(FieldType::MultiSelect, name, options, value) is None <==> (options.len() == 0 || forall|i: int|
            0 <= i < text::split_on(value, '\u{1f}').len() ==> options.contains(#[trigger] text::split_on(value, '\u{1f}')[i])),
{
    lemma_first_not_in(text::split_on(value, multi_select_separator()), options);
}


proof fn lemma_defaults_keys(defs: Seq<(Seq<char>, FieldDefObjectView)>, f: Seq<char>)
    requires
        board::keys_unique(defs),
    ensures
        board::keys_unique(defaults_to_apply(defs)),
        forall|k: int| 0 <= k < defaults_to_apply(defs).len() ==> exists|i: int| 0 <= i < defs.len() && defs[i].0 == (#[trigger] defaults_to_apply(defs)[k]).0,
        board::lookup(defs, f) is Some && board::is_true(board::lookup(defs, f)->0.auto_apply) && !board::is_true(
            board::lookup(defs, f)->0.archived,
        ) && board::as_text(board::lookup(defs, f)->0.default_value) is Some ==> defaults_to_apply(defs).contains(
            (f, board::as_text(board::lookup(defs, f)->0.default_value)->0),
        ),
    decreases defs.len(),
{
    if defs.len() > 0 {
        let pre = defs.drop_last();
        assert(board::keys_unique(pre)) by {
            assert forall|i: int, j: int| 0 <= i < pre.len() && 0 <= j < pre.len() && i != j implies pre[i].0 != pre[j].0 by {
                assert(pre[i] == defs[i] && pre[j] == defs[j]);
            }
        }
        lemma_defaults_keys(pre, f);
        let r = defaults_to_apply(defs);
        let rp = defaults_to_apply(pre);
        let n = defs.len() - 1;
        assert(defs.last() == defs[n]);
        assert forall|k: int| 0 <= k < r.len() implies exists|i: int| 0 <= i < defs.len() && defs[i].0 == (#[trigger] r[k]).0 by {
            if k < rp.len() {
                assert(r[k] == rp[k]);
                let i = choose|i: int| 0 <= i < pre.len() && pre[i].0 == rp[k].0;
                assert(defs[i] == pre[i]);
            }
        }
        assert(board::keys_unique(r)) by {
            assert forall|a: int, b: int| 0 <= a < r.len() && 0 <= b < r.len() && a != b implies r[a].0 != r[b].0 by {
                if a < rp.len() && b < rp.len() {
                    assert(r[a] == rp[a] && r[b] == rp[b]);
                } else if a < rp.len() {
                    assert(r[a] == rp[a]);
                    let i = choose|i: int| 0 <= i < pre.len() && pre[i].0 == rp[a].0;
                    assert(defs[i] == pre[i]);
                } else if b < rp.len() {
                    assert(r[b] == rp[b]);
                    let i = choose|i: int| 0 <= i < pre.len() && pre[i].0 == rp[b].0;
                    assert(defs[i] == pre[i]);
                }
            }
        }
        board::lemma_key_index_bounds(defs, f);
        board::lemma_key_index_bounds(pre, f);
        if let Some(j) = board::key_index(defs, f) {
            if j < n {
                assert(pre[j] == defs[j]);
                board::lemma_key_index(pre, f, j);
                board::lemma_key_index(defs, f, j);
                if rp.contains((f, board::as_text(defs[j].1.default_value)->0)) {
                    let q = choose|q: int| 0 <= q < rp.len() && rp[q] == (f, board::as_text(defs[j].1.default_value)->0);
                    assert(r[q] == rp[q]);
                }
            } else {
                assert(r.len() > 0 ==> r[r.len() - 1] == r.last());
            }
        }
    }
}

proof fn lemma_fill_sets_default(
    cf: Seq<(Seq<char>, ValueView)>,
    list: Seq<(Seq<char>, Seq<char>)>,
    f: Seq<char>,
    dv: Seq<char>,
)
    requires
        board::keys_unique(cf),
        board::keys_unique(list),
        board::lookup(cf, f) is None,
        list.contains((f, dv)),
    ensures
        board::lookup(fill_defaults(cf, list), f) == Some(ValueView::Str(dv)),
    decreases list.len(),
{
    let pre = list.drop_last();
    let n = list.len() - 1;
    assert(list.last() == list[n]);
    assert(board::keys_unique(pre)) by {
        assert forall|i: int, j: int| 0 <= i < pre.len() && 0 <= j < pre.len() && i != j implies pre[i].0 != pre[j].0 by {
            assert(pre[i] == list[i] && pre[j] == list[j]);
        }
    }
    let prev = fill_defaults(cf, pre);
    if list.last() == (f, dv) {
        assert forall|k: int| 0 <= k < pre.len() implies (#[trigger] pre[k]).0 != f by {
            assert(pre[k] == list[k]);
        }
        lemma_fill_skips(cf, pre, f);
        board::lemma_put_keys_unique(prev, f, ValueView::Str(dv));
    } else {
        let q = choose|q: int| 0 <= q < list.len() && list[q] == (f, dv);
        assert(q != n ==> pre[q] == list[q]);
        if q == n {
            assert(list[n] == (f, dv));
        }
        assert(pre.contains((f, dv)));
        lemma_fill_sets_default(cf, pre, f, dv);
        assert(list.last().0 != f);
        if pre.len() > 0 {
            lemma_fill_sets(cf, pre, 0);
        }
        board::lemma_put_keys_unique(prev, list.last().0, ValueView::Str(list.last().1));
    }
}

/// Applying the defaults gives a card that has no value for an auto-apply,
/// not archived field with a text default that default, and writes nothing
/// else over a value the card has.
pub proof fn law_defaults_fill_unset_active_fields(d: BoardDocView, card: Seq<char>, f: Seq<char>)
    requires
        board::doc_wf(d),
        d.field_definitions is Some,
        !card_missing(d, card),
        board::lookup(board::custom_fields_or_empty(board::lookup(d.cards, card)->0), f) is None,
        board::lookup(d.field_definitions->0, f) matches Some(o) && board::is_true(o.auto_apply) && !board::is_true(
            o.archived,
        ) && board::as_text(o.default_value) is Some,
    ensures
        card_field(edited_card_doc(d, card, apply_defaults_edit(defaults_to_apply(d.field_definitions->0))), card, f)
            == Ok::<Option<Seq<char>>, DocErrorView>(board::as_text(board::lookup(d.field_definitions->0, f)->0.default_value)),
{
    let defs = d.field_definitions->0;
    let list = defaults_to_apply(defs);
    let dv = board::as_text(board::lookup(defs, f)->0.default_value)->0;
    lemma_defaults_keys(defs, f);
    let c = board::lookup(d.cards, card)->0;
    board::lemma_key_index_bounds(d.cards, card);
    let ci = board::key_index(d.cards, card)->0;
    assert(board::keys_unique(board::custom_fields_or_empty(d.cards[ci].1)));
    lemma_fill_sets_default(board::custom_fields_or_empty(c), list, f, dv);
    let nc = apply_defaults_edit(list)(c);
    board::lemma_put_keys_unique(d.cards, card, nc);
}

} // verus!
