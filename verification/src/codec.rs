use vstd::prelude::*;

verus! {

use crate::value::{JVal, Value};
use crate::strings::str_to_chars;

broadcast use vstd::utf8::char_u32_cast;


// ---------------------------------------------------------------------------
// Characters and number tokens
// ---------------------------------------------------------------------------

/// JSON insignificant whitespace.
pub open spec fn is_ws(c: char) -> bool {
    c == ' ' || c == '\t' || c == '\n' || c == '\r'
}

/// A decimal digit.
pub open spec fn is_digit(c: char) -> bool {
    48 <= c as u32 && c as u32 <= 57
}

/// The value of a decimal digit character.
pub open spec fn digit_val(c: char) -> nat {
    (c as u32 - 48) as nat
}

/// The character of a decimal digit value below ten.
pub open spec fn digit_char(d: nat) -> char {
    ((d + 48) as u32) as char
}

/// The lowercase hex digit character of a value below sixteen.
pub open spec fn hex_char(d: nat) -> char {
    if d < 10 {
        ((d + 48) as u32) as char
    } else {
        ((d + 87) as u32) as char
    }
}

/// A hexadecimal digit (either case).
pub open spec fn is_hex_digit(c: char) -> bool {
    is_digit(c) || (97 <= c as u32 && c as u32 <= 102) || (65 <= c as u32 && c as u32 <= 70)
}

/// The value of a hexadecimal digit character.
pub open spec fn hex_val(c: char) -> nat {
    if is_digit(c) {
        (c as u32 - 48) as nat
    } else if 97 <= c as u32 && c as u32 <= 102 {
        (c as u32 - 87) as nat
    } else {
        (c as u32 - 55) as nat
    }
}

/// The index of the first character at or after `i` that is not a digit.
pub open spec fn scan_digits(s: Seq<char>, i: int) -> int
    decreases s.len() - i,
{
    if 0 <= i && i < s.len() && is_digit(s[i]) {
        scan_digits(s, i + 1)
    } else {
        i
    }
}

/// Scans the integer part of a number token: a single `0`, or a nonzero
/// digit followed by any digits. Returns the end index, or `None` if no
/// well-formed integer part starts at `i`.
pub open spec fn scan_int(s: Seq<char>, i: int) -> Option<int> {
    if 0 <= i && i < s.len() && s[i] == '0' {
        Some(i + 1)
    } else if 0 <= i && i < s.len() && is_digit(s[i]) {
        Some(scan_digits(s, i + 1))
    } else {
        None
    }
}

/// Scans an optional fraction part (`.` and at least one digit) at `i`.
pub open spec fn scan_frac(s: Seq<char>, i: int) -> Option<int> {
    if 0 <= i && i < s.len() && s[i] == '.' {
        if i + 1 < s.len() && is_digit(s[i + 1]) {
            Some(scan_digits(s, i + 2))
        } else {
            None
        }
    } else {
        Some(i)
    }
}

/// Scans an optional exponent part (`e`/`E`, optional sign, digits) at `i`.
pub open spec fn scan_exp(s: Seq<char>, i: int) -> Option<int> {
    if 0 <= i && i < s.len() && (s[i] == 'e' || s[i] == 'E') {
        let j = if i + 1 < s.len() && (s[i + 1] == '+' || s[i + 1] == '-') {
            i + 2
        } else {
            i + 1
        };
        if j < s.len() && is_digit(s[j]) {
            Some(scan_digits(s, j + 1))
        } else {
            None
        }
    } else {
        Some(i)
    }
}

/// Scans a complete JSON number token starting at `i`: optional minus sign,
/// integer part, optional fraction, optional exponent. Returns the index just
/// after the token, or `None` if no number token starts at `i`.
pub open spec fn scan_number(s: Seq<char>, i: int) -> Option<int> {
    let a = if 0 <= i && i < s.len() && s[i] == '-' {
        i + 1
    } else {
        i
    };
    match scan_int(s, a) {
        None => None,
        Some(b) => match scan_frac(s, b) {
            None => None,
            Some(c) => scan_exp(s, c),
        },
    }
}

/// A character that could extend a number token: after a serialized number,
/// the next character must not be one of these, or reparsing would change it.
pub open spec fn is_num_cont(c: char) -> bool {
    is_digit(c) || c == '.' || c == 'e' || c == 'E' || c == '+' || c == '-'
}

/// Every character of `s` is a digit.
pub open spec fn all_digits(s: Seq<char>) -> bool {
    forall|k: int| 0 <= k < s.len() ==> is_digit(#[trigger] s[k])
}

/// The numeric value of a digit string.
pub open spec fn digits_val(s: Seq<char>) -> nat
    decreases s.len(),
{
    if s.len() == 0 {
        0
    } else {
        digits_val(s.drop_last()) * 10 + digit_val(s.last())
    }
}

/// A number token that consists only of an optional sign and digits.
pub open spec fn is_integral_lit(l: Seq<char>) -> bool {
    if l.len() > 0 && l[0] == '-' {
        l.len() > 1 && all_digits(l.subrange(1, l.len() as int))
    } else {
        l.len() > 0 && all_digits(l)
    }
}

/// The integer value of an integral number token.
pub open spec fn integral_val(l: Seq<char>) -> int {
    if l.len() > 0 && l[0] == '-' {
        -(digits_val(l.subrange(1, l.len() as int)) as int)
    } else {
        digits_val(l) as int
    }
}

/// Whether an integer is exactly representable in an `i64`.
pub open spec fn in_i64_range(v: int) -> bool {
    i64::MIN as int <= v && v <= i64::MAX as int
}

/// A number literal that the tree keeps verbatim: a well-formed JSON number
/// token that is not an integer representable in an `i64` (those are held as
/// `Int` instead).
pub open spec fn is_kept_num_lit(l: Seq<char>) -> bool {
    &&& scan_number(l, 0) == Some(l.len() as int)
    &&& !(is_integral_lit(l) && in_i64_range(integral_val(l)))
}

/// The tree node a number token denotes: an exact `Int` when the token is an
/// in-range integer, the verbatim literal otherwise.
pub open spec fn mk_number(l: Seq<char>) -> JVal {
    if is_integral_lit(l) && in_i64_range(integral_val(l)) {
        JVal::Int(integral_val(l))
    } else {
        JVal::Num(l)
    }
}

// ---------------------------------------------------------------------------
// Well-formed trees
// ---------------------------------------------------------------------------

/// The keys of an object's fields are pairwise distinct.
pub open spec fn keys_unique(m: Seq<(Seq<char>, JVal)>) -> bool {
    forall|i: int, j: int| 0 <= i < j < m.len() ==> (#[trigger] m[i]).0 != (#[trigger] m[j]).0
}

/// A well-formed tree: every `Int` fits an `i64`, every kept number literal
/// is a genuine non-integral number token, and object keys are unique. Every
/// tree this engine parses or rebuilds is well-formed.
pub open spec fn wf_val(v: JVal) -> bool
    decreases v, 0int,
{
    match v {
        JVal::Null => true,
        JVal::Bool(_) => true,
        JVal::Int(i) => in_i64_range(i),
        JVal::Num(l) => is_kept_num_lit(l),
        JVal::Str(_) => true,
        JVal::Arr(a) => wf_elems(a),
        JVal::Obj(m) => keys_unique(m) && wf_fields(m),
    }
}

/// Every element of an array is well-formed.
pub open spec fn wf_elems(a: Seq<JVal>) -> bool
    decreases a, 1int,
{
    if a.len() == 0 {
        true
    } else {
        wf_val(a[0]) && wf_elems(a.drop_first())
    }
}

/// Every field value of an object is well-formed.
pub open spec fn wf_fields(m: Seq<(Seq<char>, JVal)>) -> bool
    decreases m, 1int,
{
    if m.len() == 0 {
        true
    } else {
        wf_val(m[0].1) && wf_fields(m.drop_first())
    }
}

// ---------------------------------------------------------------------------
// Serialization (specification)
// ---------------------------------------------------------------------------

/// The decimal digits of a natural number, most significant first.
pub open spec fn dec_digits(n: nat) -> Seq<char>
    decreases n,
{
    if n < 10 {
        seq![digit_char(n)]
    } else {
        dec_digits(n / 10).push(digit_char(n % 10))
    }
}

/// The decimal text of an integer.
pub open spec fn ser_int(i: int) -> Seq<char> {
    if i < 0 {
        seq!['-'] + dec_digits((-i) as nat)
    } else {
        dec_digits(i as nat)
    }
}

/// How one string character appears inside a serialized JSON string: quote
/// and backslash are escaped, control characters use a `\u00..` escape, and
/// everything else stands as itself.
pub open spec fn esc_char(c: char) -> Seq<char> {
    if c == '"' {
        seq!['\\', '"']
    } else if c == '\\' {
        seq!['\\', '\\']
    } else if (c as u32) < 32 {
        seq!['\\', 'u', '0', '0', hex_char((c as u32 / 16) as nat), hex_char(
            (c as u32 % 16) as nat,
        )]
    } else {
        seq![c]
    }
}

/// The escaped body of a serialized JSON string.
pub open spec fn esc(s: Seq<char>) -> Seq<char>
    decreases s.len(),
{
    if s.len() == 0 {
        Seq::empty()
    } else {
        esc_char(s[0]) + esc(s.drop_first())
    }
}

/// The JSON text of a tree: minimal form, no insignificant whitespace,
/// object fields in stored order, kept number literals verbatim.
pub open spec fn ser_val(v: JVal) -> Seq<char>
    decreases v, 0int,
{
    match v {
        JVal::Null => seq!['n', 'u', 'l', 'l'],
        JVal::Bool(b) => if b {
            seq!['t', 'r', 'u', 'e']
        } else {
            seq!['f', 'a', 'l', 's', 'e']
        },
        JVal::Int(i) => ser_int(i),
        JVal::Num(l) => l,
        JVal::Str(s) => seq!['"'] + esc(s) + seq!['"'],
        JVal::Arr(a) => seq!['['] + ser_elems(a) + seq![']'],
        JVal::Obj(m) => seq!['{'] + ser_fields(m) + seq!['}'],
    }
}

/// The comma-separated serialized elements of an array.
pub open spec fn ser_elems(a: Seq<JVal>) -> Seq<char>
    decreases a, 1int,
{
    if a.len() == 0 {
        Seq::empty()
    } else if a.len() == 1 {
        ser_val(a[0])
    } else {
        ser_val(a[0]) + seq![','] + ser_elems(a.drop_first())
    }
}

/// The comma-separated serialized fields of an object.
pub open spec fn ser_fields(m: Seq<(Seq<char>, JVal)>) -> Seq<char>
    decreases m, 1int,
{
    if m.len() == 0 {
        Seq::empty()
    } else if m.len() == 1 {
        ser_field(m[0])
    } else {
        ser_field(m[0]) + seq![','] + ser_fields(m.drop_first())
    }
}

/// One serialized object field: quoted key, colon, value.
pub open spec fn ser_field(f: (Seq<char>, JVal)) -> Seq<char>
    decreases f, 0int,
{
    seq!['"'] + esc(f.0) + seq!['"', ':'] + ser_val(f.1)
}

// ---------------------------------------------------------------------------
// Serialization (executable)
// ---------------------------------------------------------------------------

/// Appends the decimal digits of `n`.
fn write_u64_dec(n: u64, out: &mut String)
    ensures
        final(out)@ == old(out)@ + dec_digits(n as nat),
    decreases n,
{
    if n >= 10 {
        write_u64_dec(n / 10, out);
        let d: u64 = n % 10;
        out.push((d as u8 + 48) as char);
        proof {
            assert(((d as u8 + 48) as char) == digit_char((n % 10) as nat));
            assert(out@ =~= old(out)@ + dec_digits(n as nat));
        }
    } else {
        out.push((n as u8 + 48) as char);
        proof {
            assert(((n as u8 + 48) as char) == digit_char(n as nat));
            assert(out@ =~= old(out)@ + dec_digits(n as nat));
        }
    }
}

/// Appends the decimal text of `i`.
fn write_i64_dec(i: i64, out: &mut String)
    ensures
        final(out)@ == old(out)@ + ser_int(i as int),
{
    if i < 0 {
        out.push('-');
        let m: u64 = (-(i as i128)) as u64;
        write_u64_dec(m, out);
        proof {
            assert(out@ =~= old(out)@ + ser_int(i as int));
        }
    } else {
        write_u64_dec(i as u64, out);
    }
}

/// Appends one string character in its escaped form.
fn write_esc_char(c: char, out: &mut String)
    ensures
        final(out)@ == old(out)@ + esc_char(c),
{
    if c == '"' {
        out.push('\\');
        out.push('"');
        proof {
            assert(out@ =~= old(out)@ + esc_char(c));
        }
    } else if c == '\\' {
        out.push('\\');
        out.push('\\');
        proof {
            assert(out@ =~= old(out)@ + esc_char(c));
        }
    } else if (c as u32) < 32 {
        out.push('\\');
        out.push('u');
        out.push('0');
        out.push('0');
        let hi: u32 = c as u32 / 16;
        let lo: u32 = c as u32 % 16;
        out.push(if hi < 10 {
            (hi as u8 + 48) as char
        } else {
            (hi as u8 + 87) as char
        });
        out.push(if lo < 10 {
            (lo as u8 + 48) as char
        } else {
            (lo as u8 + 87) as char
        });
        proof {
            assert(out@ =~= old(out)@ + esc_char(c));
        }
    } else {
        out.push(c);
        proof {
            assert(out@ =~= old(out)@ + esc_char(c));
        }
    }
}

/// Appends a quoted, escaped JSON string.
fn write_quoted(s: &String, out: &mut String)
    ensures
        final(out)@ == old(out)@ + seq!['"'] + esc(s@) + seq!['"'],
{
    out.push('"');
    let cs = str_to_chars(s.as_str());
    let n = cs.len();
    let mut k: usize = 0;
    while k < n
        invariant
            n == cs.len(),
            cs@ == s@,
            k <= n,
            out@ == old(out)@ + seq!['"'] + esc(s@.take(k as int)),
        decreases n - k,
    {
        write_esc_char(cs[k], out);
        proof {
            lemma_esc_append(s@.take(k as int), s@[k as int]);
            assert(s@.take(k as int).push(s@[k as int]) =~= s@.take(k as int + 1));
        }
        k += 1;
    }
    out.push('"');
    proof {
        assert(s@.take(n as int) =~= s@);
        assert(out@ =~= old(out)@ + seq!['"'] + esc(s@) + seq!['"']);
    }
}

/// Escaping distributes over appending one character.
proof fn lemma_esc_append(s: Seq<char>, c: char)
    ensures
        esc(s.push(c)) == esc(s) + esc_char(c),
    decreases s.len(),
{
    reveal_with_fuel(esc, 3);
    if s.len() == 0 {
        assert(s.push(c).drop_first() =~= Seq::<char>::empty());
        assert(esc(s.push(c)) =~= esc(s) + esc_char(c));
    } else {
        assert(s.push(c).drop_first() =~= s.drop_first().push(c));
        lemma_esc_append(s.drop_first(), c);
        assert(esc(s.push(c)) =~= esc(s) + esc_char(c));
    }
}

/// Appends the JSON text of a tree.
fn write_val(v: &Value, out: &mut String)
    ensures
        final(out)@ == old(out)@ + ser_val(v@),
    decreases v,
{
    match v {
        Value::Null => {
            out.push('n');
            out.push('u');
            out.push('l');
            out.push('l');
            proof {
                assert(out@ =~= old(out)@ + ser_val(v@));
            }
        },
        Value::Bool(b) => {
            if *b {
                out.push('t');
                out.push('r');
                out.push('u');
                out.push('e');
            } else {
                out.push('f');
                out.push('a');
                out.push('l');
                out.push('s');
                out.push('e');
            }
            proof {
                assert(out@ =~= old(out)@ + ser_val(v@));
            }
        },
        Value::Int(i) => {
            write_i64_dec(*i, out);
        },
        Value::Num(l) => {
            out.push_str(l.as_str());
        },
        Value::Str(s) => {
            write_quoted(s, out);
            proof {
                assert(out@ =~= old(out)@ + ser_val(v@));
            }
        },
        Value::Arr(a) => {
            out.push('[');
            let n = a.len();
            let mut k: usize = 0;
            while k < n
                invariant
                    n == a.len(),
                    k <= n,
                    v is Arr && a == v->Arr_0,
                    out@ == old(out)@ + seq!['['] + ser_elems_take(a@, k as int),
                decreases n - k,
            {
                if k > 0 {
                    out.push(',');
                }
                write_val(&a[k], out);
                proof {
                    lemma_ser_elems_take_step(a@, k as int);
                    assert(Value::model_elems(a@)[k as int] == a@[k as int].model()) by {
                        lemma_model_elems_index(a@, k as int);
                    }
                    assert(out@ =~= old(out)@ + seq!['['] + ser_elems_take(a@, k as int + 1));
                }
                k += 1;
            }
            out.push(']');
            proof {
                assert(ser_elems_take(a@, n as int) == ser_elems(Value::model_elems(a@)))
                    by {
                    lemma_ser_elems_take_full(a@);
                }
                assert(out@ =~= old(out)@ + ser_val(v@));
            }
        },
        Value::Obj(m) => {
            out.push('{');
            let n = m.len();
            let mut k: usize = 0;
            while k < n
                invariant
                    n == m.len(),
                    k <= n,
                    v is Obj && m == v->Obj_0,
                    out@ == old(out)@ + seq!['{'] + ser_fields_take(m@, k as int),
                decreases n - k,
            {
                if k > 0 {
                    out.push(',');
                }
                write_quoted(&m[k].0, out);
                out.push(':');
                write_val(&m[k].1, out);
                proof {
                    lemma_ser_fields_take_step(m@, k as int);
                    assert(Value::model_fields(m@)[k as int] == (m@[k as int].0@, m@[
                        k as int].1.model())) by {
                        lemma_model_fields_index(m@, k as int);
                    }
                    assert(out@ =~= old(out)@ + seq!['{'] + ser_fields_take(m@, k as int + 1));
                }
                k += 1;
            }
            out.push('}');
            proof {
                assert(ser_fields_take(m@, n as int) == ser_fields(Value::model_fields(m@)))
                    by {
                    lemma_ser_fields_take_full(m@);
                }
                assert(out@ =~= old(out)@ + ser_val(v@));
            }
        },
    }
}

/// The serialized text of the first `k` elements, commas included.
pub open spec fn ser_elems_take(a: Seq<Value>, k: int) -> Seq<char>
    decreases k,
{
    if k <= 0 {
        Seq::empty()
    } else if k == 1 {
        ser_val(a[0].model())
    } else {
        ser_elems_take(a, k - 1) + seq![','] + ser_val(a[k - 1].model())
    }
}

/// The serialized text of the first `k` fields, commas included.
pub open spec fn ser_fields_take(m: Seq<(String, Value)>, k: int) -> Seq<char>
    decreases k,
{
    if k <= 0 {
        Seq::empty()
    } else if k == 1 {
        ser_field((m[0].0@, m[0].1.model()))
    } else {
        ser_fields_take(m, k - 1) + seq![','] + ser_field((m[k - 1].0@, m[k - 1].1.model()))
    }
}

/// Extending the serialized prefix by one element appends a comma (except at
/// the front) and that element's text.
proof fn lemma_ser_elems_take_step(a: Seq<Value>, k: int)
    requires
        0 <= k < a.len(),
    ensures
        k == 0 ==> ser_elems_take(a, 1) == ser_val(a[0].model()),
        k > 0 ==> ser_elems_take(a, k + 1) == ser_elems_take(a, k) + seq![','] + ser_val(
            a[k].model(),
        ),
{
}

proof fn lemma_ser_fields_take_step(m: Seq<(String, Value)>, k: int)
    requires
        0 <= k < m.len(),
    ensures
        k == 0 ==> ser_fields_take(m, 1) == ser_field((m[0].0@, m[0].1.model())),
        k > 0 ==> ser_fields_take(m, k + 1) == ser_fields_take(m, k) + seq![','] + ser_field(
            (m[k].0@, m[k].1.model()),
        ),
{
}

/// The element models line up with the element vector.
pub proof fn lemma_model_elems_index(a: Seq<Value>, k: int)
    requires
        0 <= k < a.len(),
    ensures
        Value::model_elems(a).len() == a.len(),
        Value::model_elems(a)[k] == a[k].model(),
    decreases a.len(),
{
    lemma_model_elems_len(a);
    if k > 0 {
        lemma_model_elems_index(a.drop_first(), k - 1);
    }
}

/// The length of the element models equals the vector length.
pub proof fn lemma_model_elems_len(a: Seq<Value>)
    ensures
        Value::model_elems(a).len() == a.len(),
    decreases a.len(),
{
    if a.len() > 0 {
        lemma_model_elems_len(a.drop_first());
    }
}

/// The field models line up with the field vector.
pub proof fn lemma_model_fields_index(m: Seq<(String, Value)>, k: int)
    requires
        0 <= k < m.len(),
    ensures
        Value::model_fields(m).len() == m.len(),
        Value::model_fields(m)[k] == (m[k].0@, m[k].1.model()),
    decreases m.len(),
{
    lemma_model_fields_len(m);
    if k > 0 {
        lemma_model_fields_index(m.drop_first(), k - 1);
    }
}

/// The length of the field models equals the vector length.
pub proof fn lemma_model_fields_len(m: Seq<(String, Value)>)
    ensures
        Value::model_fields(m).len() == m.len(),
    decreases m.len(),
{
    if m.len() > 0 {
        lemma_model_fields_len(m.drop_first());
    }
}

/// The serialized prefix of all elements is the serialization of the models.
proof fn lemma_ser_elems_take_full(a: Seq<Value>)
    ensures
        ser_elems_take(a, a.len() as int) == ser_elems(Value::model_elems(a)),
    decreases a.len(),
{
    lemma_model_elems_len(a);
    if a.len() == 0 {
    } else if a.len() == 1 {
        lemma_model_elems_index(a, 0);
    } else {
        lemma_ser_elems_take_full(a.drop_last());
        assert(Value::model_elems(a).drop_last() =~= Value::model_elems(a.drop_last())) by {
            lemma_model_elems_len(a.drop_last());
            assert forall|k: int| 0 <= k < a.len() - 1 implies Value::model_elems(
                a,
            )[k] == Value::model_elems(a.drop_last())[k] by {
                lemma_model_elems_index(a, k);
                lemma_model_elems_index(a.drop_last(), k);
            }
        }
        lemma_ser_elems_last(Value::model_elems(a));
        lemma_ser_elems_take_prefix(a, a.len() - 1);
        lemma_model_elems_index(a, a.len() - 1);
    }
}

/// A take over the shorter vector agrees with the longer one.
proof fn lemma_ser_elems_take_prefix(a: Seq<Value>, k: int)
    requires
        0 <= k < a.len(),
    ensures
        ser_elems_take(a.drop_last(), k) == ser_elems_take(a, k),
    decreases k,
{
    if k > 0 {
        lemma_ser_elems_take_prefix(a, k - 1);
    }
}

/// Serializing a sequence with at least two elements splits at the last one.
proof fn lemma_ser_elems_last(a: Seq<JVal>)
    requires
        a.len() >= 2,
    ensures
        ser_elems(a) == ser_elems(a.drop_last()) + seq![','] + ser_val(a.last()),
    decreases a.len(),
{
    reveal_with_fuel(ser_elems, 3);
    if a.len() == 2 {
        assert(a.drop_first().len() == 1);
        assert(a.drop_last().len() == 1);
        assert(a.drop_last()[0] == a[0]);
        assert(a.drop_first()[0] == a[1]);
        assert(ser_elems(a) =~= ser_elems(a.drop_last()) + seq![','] + ser_val(a.last()));
    } else {
        lemma_ser_elems_last(a.drop_first());
        assert(a.drop_first().drop_last() =~= a.drop_last().drop_first());
        assert(a.drop_first().last() == a.last());
        assert(a.drop_last().len() >= 2);
        assert(ser_elems(a) =~= ser_elems(a.drop_last()) + seq![','] + ser_val(a.last()));
    }
}

proof fn lemma_ser_fields_take_prefix(m: Seq<(String, Value)>, k: int)
    requires
        0 <= k < m.len(),
    ensures
        ser_fields_take(m.drop_last(), k) == ser_fields_take(m, k),
    decreases k,
{
    if k > 0 {
        lemma_ser_fields_take_prefix(m, k - 1);
    }
}

proof fn lemma_ser_fields_last(m: Seq<(Seq<char>, JVal)>)
    requires
        m.len() >= 2,
    ensures
        ser_fields(m) == ser_fields(m.drop_last()) + seq![','] + ser_field(m.last()),
    decreases m.len(),
{
    reveal_with_fuel(ser_fields, 3);
    if m.len() == 2 {
        assert(m.drop_last()[0] == m[0]);
        assert(m.drop_first()[0] == m[1]);
        assert(ser_fields(m) =~= ser_fields(m.drop_last()) + seq![','] + ser_field(m.last()));
    } else {
        lemma_ser_fields_last(m.drop_first());
        assert(m.drop_first().drop_last() =~= m.drop_last().drop_first());
        assert(m.drop_first().last() == m.last());
        assert(m.drop_last().len() >= 2);
        assert(ser_fields(m) =~= ser_fields(m.drop_last()) + seq![','] + ser_field(m.last()));
    }
}

proof fn lemma_ser_fields_take_full(m: Seq<(String, Value)>)
    ensures
        ser_fields_take(m, m.len() as int) == ser_fields(Value::model_fields(m)),
    decreases m.len(),
{
    lemma_model_fields_len(m);
    if m.len() == 0 {
    } else if m.len() == 1 {
        lemma_model_fields_index(m, 0);
    } else {
        lemma_ser_fields_take_full(m.drop_last());
        assert(Value::model_fields(m).drop_last() =~= Value::model_fields(m.drop_last())) by {
            lemma_model_fields_len(m.drop_last());
            assert forall|k: int| 0 <= k < m.len() - 1 implies Value::model_fields(
                m,
            )[k] == Value::model_fields(m.drop_last())[k] by {
                lemma_model_fields_index(m, k);
                lemma_model_fields_index(m.drop_last(), k);
            }
        }
        lemma_ser_fields_last(Value::model_fields(m));
        lemma_ser_fields_take_prefix(m, m.len() - 1);
        lemma_model_fields_index(m, m.len() - 1);
    }
}

/// Powers of ten.
pub open spec fn pow10(n: nat) -> nat
    decreases n,
{
    if n == 0 {
        1
    } else {
        10 * pow10((n - 1) as nat)
    }
}

/// The concrete values of the powers of ten around the `i64` range.
pub proof fn lemma_pow10_vals()
    ensures
        pow10(18) == 1000000000000000000,
        pow10(19) == 10000000000000000000,
{
    reveal_with_fuel(pow10, 21);
}

/// Powers of ten grow monotonically.
pub proof fn lemma_pow10_mono(m: nat, n: nat)
    requires
        m <= n,
    ensures
        pow10(m) <= pow10(n),
    decreases n,
{
    if m < n && n > 0 {
        lemma_pow10_mono(m, (n - 1) as nat);
        assert(pow10(n) == 10 * pow10((n - 1) as nat));
    }
}

/// A digit string that does not start with zero is at least ten to one less
/// than its length.
pub proof fn lemma_digits_val_lower(t: Seq<char>)
    requires
        all_digits(t),
        t.len() > 0,
        t[0] != '0',
    ensures
        digits_val(t) >= pow10((t.len() - 1) as nat),
    decreases t.len(),
{
    if t.len() == 1 {
        assert(is_digit(t[0]));
        assert(t[0] as u32 != 48) by {
            vstd::utf8::char_u32_cast(t[0], t[0] as u32);
            vstd::utf8::char_u32_cast('0', '0' as u32);
            assert('0' as u32 == 48);
            if t[0] as u32 == 48 {
                assert(t[0] == '0');
            }
        }
        assert(digit_val(t[0]) >= 1);
    } else {
        assert(all_digits(t.drop_last())) by {
            assert(forall|k: int|
                0 <= k < t.len() - 1 ==> t.drop_last()[k] == #[trigger] t[k]);
        }
        assert(t.drop_last()[0] == t[0]);
        lemma_digits_val_lower(t.drop_last());
        assert(digits_val(t) == digits_val(t.drop_last()) * 10 + digit_val(t.last()));
        assert(digits_val(t.drop_last()) * 10 >= pow10((t.len() - 2) as nat) * 10);
        assert(pow10((t.len() - 1) as nat) == 10 * pow10((t.len() - 2) as nat));
    }
}

/// Scanning digits never moves backwards nor past the end.
pub proof fn lemma_scan_digits_bounds(s: Seq<char>, i: int)
    requires
        0 <= i <= s.len(),
    ensures
        i <= scan_digits(s, i) <= s.len(),
    decreases s.len() - i,
{
    if i < s.len() && is_digit(s[i]) {
        lemma_scan_digits_bounds(s, i + 1);
    }
}

/// Every position a digit scan passes over holds a digit, and the scan stops
/// at the end or at a non-digit.
pub proof fn lemma_scan_digits_char(s: Seq<char>, i: int)
    requires
        0 <= i <= s.len(),
    ensures
        i <= scan_digits(s, i) <= s.len(),
        forall|m: int| i <= m < scan_digits(s, i) ==> is_digit(#[trigger] s[m]),
        scan_digits(s, i) == s.len() || !is_digit(s[scan_digits(s, i)]),
    decreases s.len() - i,
{
    if i < s.len() && is_digit(s[i]) {
        lemma_scan_digits_char(s, i + 1);
    }
}

/// A digit scan stops exactly at the first non-digit position.
pub proof fn lemma_scan_digits_det(s: Seq<char>, i: int, r: int)
    requires
        0 <= i <= r <= s.len(),
        forall|m: int| i <= m < r ==> is_digit(#[trigger] s[m]),
        r == s.len() || !is_digit(s[r]),
    ensures
        scan_digits(s, i) == r,
    decreases r - i,
{
    if i < r {
        lemma_scan_digits_det(s, i + 1, r);
    }
}

/// Appending one element extends the element models by its model.
pub proof fn lemma_model_elems_push(a: Seq<Value>, x: Value)
    ensures
        Value::model_elems(a.push(x)) == Value::model_elems(a).push(x.model()),
    decreases a.len(),
{
    reveal_with_fuel(Value::model_elems, 3);
    if a.len() == 0 {
        assert(a.push(x).drop_first() =~= Seq::<Value>::empty());
        assert(Value::model_elems(a.push(x)) =~= Value::model_elems(a).push(x.model()));
    } else {
        assert(a.push(x).drop_first() =~= a.drop_first().push(x));
        lemma_model_elems_push(a.drop_first(), x);
        assert(Value::model_elems(a.push(x)) =~= Value::model_elems(a).push(x.model()));
    }
}

/// Appending one field extends the field models by its model.
pub proof fn lemma_model_fields_push(m: Seq<(String, Value)>, k: String, x: Value)
    ensures
        Value::model_fields(m.push((k, x))) == Value::model_fields(m).push((k@, x.model())),
    decreases m.len(),
{
    reveal_with_fuel(Value::model_fields, 3);
    if m.len() == 0 {
        assert(m.push((k, x)).drop_first() =~= Seq::<(String, Value)>::empty());
        assert(Value::model_fields(m.push((k, x))) =~= Value::model_fields(m).push(
            (k@, x.model()),
        ));
    } else {
        assert(m.push((k, x)).drop_first() =~= m.drop_first().push((k, x)));
        lemma_model_fields_push(m.drop_first(), k, x);
        assert(Value::model_fields(m.push((k, x))) =~= Value::model_fields(m).push(
            (k@, x.model()),
        ));
    }
}

/// Updating one field updates exactly that field model.
pub proof fn lemma_model_fields_update(m: Seq<(String, Value)>, i: int, k: String, x: Value)
    requires
        0 <= i < m.len(),
    ensures
        Value::model_fields(m.update(i, (k, x))) == Value::model_fields(m).update(
            i,
            (k@, x.model()),
        ),
    decreases m.len(),
{
    lemma_model_fields_len(m);
    lemma_model_fields_len(m.update(i, (k, x)));
    assert forall|w: int| 0 <= w < m.len() implies Value::model_fields(m.update(i, (k, x)))[w]
        == Value::model_fields(m).update(i, (k@, x.model()))[w] by {
        lemma_model_fields_index(m.update(i, (k, x)), w);
        lemma_model_fields_index(m, w);
    }
    assert(Value::model_fields(m.update(i, (k, x))) =~= Value::model_fields(m).update(
        i,
        (k@, x.model()),
    ));
}

/// Serializes a tree to its JSON text.
pub fn to_text(v: &Value) -> (r: String)
    ensures
        r@ == ser_val(v@),
{
    let mut out = String::new();
    write_val(v, &mut out);
    out
}

} // verus!
