use vstd::prelude::*;

verus! {

broadcast use vstd::utf8::char_u32_cast;

use crate::value::{JVal, Value};
use crate::codec::{
    pow10,
    is_ws, is_digit, is_hex_digit, hex_val, scan_digits, scan_int, scan_frac, scan_exp,
    scan_number, mk_number, digits_val, all_digits, is_integral_lit, integral_val, in_i64_range,
};

// ---------------------------------------------------------------------------
// Parsing (specification)
// ---------------------------------------------------------------------------
// The grammar accepted is JSON: one value, surrounded by insignificant
// whitespace; strings with the standard escapes including `\u` and surrogate
// pairs; numbers per the JSON number grammar. Parsing is specified by the
// total functions below; the executable parser returns exactly what they
// denote.

/// A guard that keeps recursion indices strictly increasing and within the
/// text; every actual parse step moves forward to a position no further than
/// the end, so the guard never changes a result.
pub open spec fn step_to(s: Seq<char>, i: int, j: int) -> int {
    let jj = if j > i {
        j
    } else {
        i + 1
    };
    if jj <= s.len() {
        jj
    } else {
        s.len() as int
    }
}

/// The value of four hex digits at `i`, if present.
pub open spec fn hex4(s: Seq<char>, i: int) -> Option<int> {
    if 0 <= i && i + 4 <= s.len() && is_hex_digit(s[i]) && is_hex_digit(s[i + 1]) && is_hex_digit(
        s[i + 2],
    ) && is_hex_digit(s[i + 3]) {
        Some(
            hex_val(s[i]) * 0x1000 + hex_val(s[i + 1]) * 0x100 + hex_val(s[i + 2]) * 16 + hex_val(
                s[i + 3],
            ) as int,
        )
    } else {
        None
    }
}

/// One escape sequence, `i` standing just after the backslash: the character
/// it denotes and the index after the escape.
pub open spec fn sp_esc(s: Seq<char>, i: int) -> Option<(char, int)> {
    if !(0 <= i && i < s.len()) {
        None
    } else if s[i] == '"' {
        Some(('"', i + 1))
    } else if s[i] == '\\' {
        Some(('\\', i + 1))
    } else if s[i] == '/' {
        Some(('/', i + 1))
    } else if s[i] == 'b' {
        Some(((8u32 as char), i + 1))
    } else if s[i] == 'f' {
        Some(((12u32 as char), i + 1))
    } else if s[i] == 'n' {
        Some(((10u32 as char), i + 1))
    } else if s[i] == 'r' {
        Some(((13u32 as char), i + 1))
    } else if s[i] == 't' {
        Some(((9u32 as char), i + 1))
    } else if s[i] == 'u' {
        match hex4(s, i + 1) {
            None => None,
            Some(h) => if 0xD800 <= h && h < 0xDC00 {
                if i + 7 <= s.len() && s[i + 5] == '\\' && s[i + 6] == 'u' {
                    match hex4(s, i + 7) {
                        None => None,
                        Some(lo) => if 0xDC00 <= lo && lo < 0xE000 {
                            Some(
                                (
                                    (((0x10000 + (h - 0xD800) * 0x400 + (lo - 0xDC00))
                                        as u32) as char),
                                    i + 11,
                                ),
                            )
                        } else {
                            None
                        },
                    }
                } else {
                    None
                }
            } else if 0xDC00 <= h && h < 0xE000 {
                None
            } else {
                Some((((h as u32) as char), i + 5))
            },
        }
    } else {
        None
    }
}

/// The body of a string, `i` standing just after the opening quote: the
/// unescaped contents and the index after the closing quote.
pub open spec fn sp_str_body(s: Seq<char>, i: int) -> Option<(Seq<char>, int)>
    decreases s.len() - i,
{
    if !(0 <= i && i < s.len()) {
        None
    } else if s[i] == '"' {
        Some((Seq::empty(), i + 1))
    } else if s[i] == '\\' {
        match sp_esc(s, i + 1) {
            None => None,
            Some((c, j)) => match sp_str_body(s, step_to(s, i, j)) {
                None => None,
                Some((t, e)) => Some((seq![c] + t, e)),
            },
        }
    } else if (s[i] as u32) < 32 {
        None
    } else {
        match sp_str_body(s, i + 1) {
            None => None,
            Some((t, e)) => Some((seq![s[i]] + t, e)),
        }
    }
}

/// The first index of a field with the given key, or `-1`.
pub open spec fn find_key(m: Seq<(Seq<char>, JVal)>, k: Seq<char>) -> int
    decreases m.len(),
{
    if m.len() == 0 {
        -1
    } else if m[0].0 == k {
        0
    } else {
        let r = find_key(m.drop_first(), k);
        if r < 0 {
            -1
        } else {
            r + 1
        }
    }
}

/// Binds a key in an object's field list: replaces the value in place if the
/// key is present (as a repeated key in the source text does), appends the
/// field otherwise.
pub open spec fn obj_put(m: Seq<(Seq<char>, JVal)>, k: Seq<char>, v: JVal) -> Seq<
    (Seq<char>, JVal),
> {
    let idx = find_key(m, k);
    if idx < 0 {
        m.push((k, v))
    } else {
        m.update(idx, (k, v))
    }
}

/// One JSON value starting at `i` (leading whitespace allowed): the tree and
/// the index just after its text.
pub open spec fn sp_val(s: Seq<char>, i: int) -> Option<(JVal, int)>
    decreases s.len() - i, 0int,
{
    if !(0 <= i && i < s.len()) {
        None
    } else if is_ws(s[i]) {
        sp_val(s, i + 1)
    } else if s[i] == 'n' {
        if i + 4 <= s.len() && s[i + 1] == 'u' && s[i + 2] == 'l' && s[i + 3] == 'l' {
            Some((JVal::Null, i + 4))
        } else {
            None
        }
    } else if s[i] == 't' {
        if i + 4 <= s.len() && s[i + 1] == 'r' && s[i + 2] == 'u' && s[i + 3] == 'e' {
            Some((JVal::Bool(true), i + 4))
        } else {
            None
        }
    } else if s[i] == 'f' {
        if i + 5 <= s.len() && s[i + 1] == 'a' && s[i + 2] == 'l' && s[i + 3] == 's' && s[i + 4]
            == 'e' {
            Some((JVal::Bool(false), i + 5))
        } else {
            None
        }
    } else if s[i] == '"' {
        match sp_str_body(s, i + 1) {
            None => None,
            Some((t, j)) => Some((JVal::Str(t), j)),
        }
    } else if s[i] == '-' || is_digit(s[i]) {
        match scan_number(s, i) {
            None => None,
            Some(j) => Some((mk_number(s.subrange(i, j)), j)),
        }
    } else if s[i] == '[' {
        match sp_arr_first(s, i + 1) {
            None => None,
            Some((a, j)) => Some((JVal::Arr(a), j)),
        }
    } else if s[i] == '{' {
        match sp_obj_first(s, i + 1) {
            None => None,
            Some((m, j)) => Some((JVal::Obj(m), j)),
        }
    } else {
        None
    }
}

/// Inside an array, before the first element or the closing bracket.
pub open spec fn sp_arr_first(s: Seq<char>, i: int) -> Option<(Seq<JVal>, int)>
    decreases s.len() - i, 2int,
{
    if !(0 <= i && i < s.len()) {
        None
    } else if is_ws(s[i]) {
        sp_arr_first(s, i + 1)
    } else if s[i] == ']' {
        Some((Seq::empty(), i + 1))
    } else {
        sp_arr_item(s, i, Seq::empty())
    }
}

/// Inside an array, where an element must start.
pub open spec fn sp_arr_item(s: Seq<char>, i: int, acc: Seq<JVal>) -> Option<(Seq<JVal>, int)>
    decreases s.len() - i, 1int,
{
    if !(0 <= i && i < s.len()) {
        None
    } else {
        match sp_val(s, i) {
            None => None,
            Some((v, j)) => sp_arr_rest(s, step_to(s, i, j), acc.push(v)),
        }
    }
}

/// Inside an array, after an element: a comma or the closing bracket.
pub open spec fn sp_arr_rest(s: Seq<char>, i: int, acc: Seq<JVal>) -> Option<(Seq<JVal>, int)>
    decreases s.len() - i, 2int,
{
    if !(0 <= i && i < s.len()) {
        None
    } else if is_ws(s[i]) {
        sp_arr_rest(s, i + 1, acc)
    } else if s[i] == ',' {
        sp_arr_item(s, i + 1, acc)
    } else if s[i] == ']' {
        Some((acc, i + 1))
    } else {
        None
    }
}

/// Inside an object, before the first field or the closing brace.
pub open spec fn sp_obj_first(s: Seq<char>, i: int) -> Option<(Seq<(Seq<char>, JVal)>, int)>
    decreases s.len() - i, 3int,
{
    if !(0 <= i && i < s.len()) {
        None
    } else if is_ws(s[i]) {
        sp_obj_first(s, i + 1)
    } else if s[i] == '}' {
        Some((Seq::empty(), i + 1))
    } else {
        sp_obj_item(s, i, Seq::empty())
    }
}

/// Inside an object, where a field's key must start.
pub open spec fn sp_obj_item(s: Seq<char>, i: int, acc: Seq<(Seq<char>, JVal)>) -> Option<
    (Seq<(Seq<char>, JVal)>, int),
>
    decreases s.len() - i, 2int,
{
    if !(0 <= i && i < s.len()) {
        None
    } else if is_ws(s[i]) {
        sp_obj_item(s, i + 1, acc)
    } else if s[i] == '"' {
        match sp_str_body(s, i + 1) {
            None => None,
            Some((k, j)) => sp_obj_colon(s, step_to(s, i, j), k, acc),
        }
    } else {
        None
    }
}

/// Inside an object, after a field's key: the colon.
pub open spec fn sp_obj_colon(s: Seq<char>, i: int, k: Seq<char>, acc: Seq<(Seq<char>, JVal)>)
    -> Option<(Seq<(Seq<char>, JVal)>, int)>
    decreases s.len() - i, 2int,
{
    if !(0 <= i && i < s.len()) {
        None
    } else if is_ws(s[i]) {
        sp_obj_colon(s, i + 1, k, acc)
    } else if s[i] == ':' {
        sp_obj_val(s, i + 1, k, acc)
    } else {
        None
    }
}

/// Inside an object, where a field's value must start.
pub open spec fn sp_obj_val(s: Seq<char>, i: int, k: Seq<char>, acc: Seq<(Seq<char>, JVal)>)
    -> Option<(Seq<(Seq<char>, JVal)>, int)>
    decreases s.len() - i, 1int,
{
    if !(0 <= i && i < s.len()) {
        None
    } else {
        match sp_val(s, i) {
            None => None,
            Some((v, j)) => sp_obj_rest(s, step_to(s, i, j), obj_put(acc, k, v)),
        }
    }
}

/// Inside an object, after a field: a comma or the closing brace.
pub open spec fn sp_obj_rest(s: Seq<char>, i: int, acc: Seq<(Seq<char>, JVal)>) -> Option<
    (Seq<(Seq<char>, JVal)>, int),
>
    decreases s.len() - i, 3int,
{
    if !(0 <= i && i < s.len()) {
        None
    } else if is_ws(s[i]) {
        sp_obj_rest(s, i + 1, acc)
    } else if s[i] == ',' {
        sp_obj_item(s, i + 1, acc)
    } else if s[i] == '}' {
        Some((acc, i + 1))
    } else {
        None
    }
}

/// Only whitespace from `i` to the end of the text.
pub open spec fn ws_to_end(s: Seq<char>, i: int) -> bool
    decreases s.len() - i,
{
    if 0 <= i && i < s.len() {
        is_ws(s[i]) && ws_to_end(s, i + 1)
    } else {
        i == s.len()
    }
}

/// The tree a complete JSON text denotes, or `None` if the text is not
/// well-formed JSON: one value with nothing but whitespace around it.
pub open spec fn parse_text(s: Seq<char>) -> Option<JVal> {
    match sp_val(s, 0) {
        None => None,
        Some((v, j)) => if ws_to_end(s, j) {
            Some(v)
        } else {
            None
        },
    }
}

// ---------------------------------------------------------------------------
// Parsing (executable)
// ---------------------------------------------------------------------------

/// Composes an accumulated string prefix with the rest of a string body.
pub open spec fn join_str(acc: Seq<char>, r: Option<(Seq<char>, int)>) -> Option<
    (Seq<char>, int),
> {
    match r {
        None => None,
        Some((t, j)) => Some((acc + t, j)),
    }
}

/// Whether a character is a decimal digit.
fn e_is_digit(c: char) -> (r: bool)
    ensures
        r == is_digit(c),
{
    let u = c as u32;
    48 <= u && u <= 57
}

/// Whether a character is JSON whitespace.
fn e_is_ws(c: char) -> (r: bool)
    ensures
        r == is_ws(c),
{
    c == ' ' || c == '\t' || c == '\n' || c == '\r'
}

/// Scans a run of digits.
pub(crate) fn e_scan_digits(s: &Vec<char>, i: usize) -> (r: usize)
    requires
        i <= s.len(),
    ensures
        r as int == scan_digits(s@, i as int),
        i <= r && r <= s.len(),
{
    let mut j: usize = i;
    loop
        invariant
            i <= j && j <= s.len(),
            scan_digits(s@, i as int) == scan_digits(s@, j as int),
        ensures
            i <= j && j <= s.len(),
            scan_digits(s@, i as int) == j as int,
        decreases s.len() - j,
    {
        if j == s.len() {
            break ;
        }
        if !e_is_digit(s[j]) {
            break ;
        }
        j += 1;
    }
    j
}

/// Scans a complete number token.
fn e_scan_number(s: &Vec<char>, i: usize) -> (r: Option<usize>)
    requires
        i <= s.len(),
    ensures
        match r {
            Some(j) => scan_number(s@, i as int) == Some(j as int) && i < j && j <= s.len(),
            None => scan_number(s@, i as int) is None,
        },
{
    let mut a: usize = i;
    if a < s.len() && s[a] == '-' {
        a += 1;
    }
    let b: usize;
    if a < s.len() && s[a] == '0' {
        b = a + 1;
    } else if a < s.len() && e_is_digit(s[a]) {
        b = e_scan_digits(s, a + 1);
    } else {
        proof {
            assert(scan_int(s@, a as int) is None);
        }
        return None;
    }
    proof {
        assert(scan_int(s@, a as int) == Some(b as int));
    }
    let c_end: usize;
    if b < s.len() && s[b] == '.' {
        if b + 1 < s.len() && e_is_digit(s[b + 1]) {
            c_end = e_scan_digits(s, b + 2);
        } else {
            proof {
                assert(scan_frac(s@, b as int) is None);
            }
            return None;
        }
    } else {
        c_end = b;
    }
    proof {
        assert(scan_frac(s@, b as int) == Some(c_end as int));
    }
    if c_end < s.len() && (s[c_end] == 'e' || s[c_end] == 'E') {
        let m: usize = if c_end + 1 < s.len() && (s[c_end + 1] == '+' || s[c_end + 1] == '-') {
            c_end + 2
        } else {
            c_end + 1
        };
        if m < s.len() && e_is_digit(s[m]) {
            let j = e_scan_digits(s, m + 1);
            proof {
                assert(scan_exp(s@, c_end as int) == Some(j as int));
            }
            Some(j)
        } else {
            proof {
                assert(scan_exp(s@, c_end as int) is None);
            }
            None
        }
    } else {
        Some(c_end)
    }
}

/// Parses a number token into a tree node, `i` standing at its first
/// character.
fn p_num(s: &Vec<char>, i: usize) -> (r: Option<(Value, usize)>)
    requires
        i < s.len(),
        s@[i as int] == '-' || is_digit(s@[i as int]),
        !is_ws(s@[i as int]),
    ensures
        match r {
            Some((v, j)) => sp_val(s@, i as int) == Some((v@, j as int)) && i < j && j <= s.len(),
            None => sp_val(s@, i as int) is None,
        },
{
    let jo = e_scan_number(s, i);
    match jo {
        None => {
            proof {
                assert(sp_val(s@, i as int) is None);
            }
            None
        },
        Some(j) => {
            let ghost tokg = s@.subrange(i as int, j as int);
            let mut tok = String::new();
            let mut k: usize = i;
            while k < j
                invariant
                    i <= k && k <= j && j <= s.len(),
                    tok@ == s@.subrange(i as int, k as int),
                decreases j - k,
            {
                tok.push(s[k]);
                proof {
                    assert(tok@ =~= s@.subrange(i as int, k as int + 1));
                }
                k += 1;
            }
            proof {
                assert(tok@ == tokg);
            }
            // where the digits of an integral token would start
            let ds: usize = if s[i] == '-' {
                i + 1
            } else {
                i
            };
            proof {
                lemma_num_token_shape(s@, i as int, j as int);
            }
            // is the token all digits after the optional sign?
            let mut ad: bool = true;
            let mut k2: usize = ds;
            loop
                invariant_except_break
                    ad,
                invariant
                    ds <= k2 && k2 <= j && j <= s.len(),
                    ds == (if s@[i as int] == '-' { i + 1 } else { i as int }),
                    i < s.len() && j <= s.len(),
                    all_digits(s@.subrange(ds as int, k2 as int)),
                ensures
                    ad == all_digits(s@.subrange(ds as int, j as int)),
                decreases j - k2,
            {
                if k2 == j {
                    proof {
                        assert(s@.subrange(ds as int, k2 as int) == s@.subrange(
                            ds as int,
                            j as int,
                        ));
                    }
                    break ;
                }
                if !e_is_digit(s[k2]) {
                    ad = false;
                    proof {
                        assert(s@.subrange(ds as int, j as int)[k2 - ds] == s@[k2 as int]);
                        assert(!all_digits(s@.subrange(ds as int, j as int)));
                    }
                    break ;
                }
                proof {
                    assert(s@.subrange(ds as int, k2 as int + 1).drop_last() =~= s@.subrange(
                        ds as int,
                        k2 as int,
                    ));
                    assert forall|w: int| 0 <= w < k2 as int + 1 - ds implies is_digit(
                        #[trigger] s@.subrange(ds as int, k2 as int + 1)[w],
                    ) by {
                        if w < k2 as int - ds {
                            assert(s@.subrange(ds as int, k2 as int + 1)[w] == s@.subrange(
                                ds as int,
                                k2 as int,
                            )[w]);
                        } else {
                            assert(s@.subrange(ds as int, k2 as int + 1)[w] == s@[k2 as int]);
                        }
                    }
                }
                k2 += 1;
            }
            proof {
                // relate the token's integral shape to the scan window
                if s@[i as int] == '-' {
                    assert(tokg.subrange(1, tokg.len() as int) =~= s@.subrange(
                        ds as int,
                        j as int,
                    ));
                } else {
                    assert(tokg =~= s@.subrange(ds as int, j as int));
                }
                assert(is_integral_lit(tokg) == ad);
            }
            if !ad {
                proof {
                    assert(mk_number(tokg) == JVal::Num(tokg));
                }
                return Some((Value::Num(tok), j));
            }
            let nd: usize = j - ds;
            proof {
                assert(nd >= 1);
            }
            if nd > 19 {
                proof {
                    lemma_long_digit_run(s@, i as int, ds as int, j as int);
                    assert(!in_i64_range(integral_val(tokg)));
                    assert(mk_number(tokg) == JVal::Num(tokg));
                }
                return Some((Value::Num(tok), j));
            }
            // accumulate the digits exactly
            let ghost dg = s@.subrange(ds as int, j as int);
            let mut acc: u64 = 0;
            let mut k3: usize = ds;
            proof {
                crate::codec::lemma_pow10_vals();
            }
            while k3 < j
                invariant
                    ds <= k3 && k3 <= j && j <= s.len(),
                    j - ds <= 19,
                    dg == s@.subrange(ds as int, j as int),
                    all_digits(dg),
                    acc as nat == digits_val(s@.subrange(ds as int, k3 as int)),
                    (acc as nat) < pow10((k3 - ds) as nat),
                decreases j - k3,
            {
                proof {
                    crate::codec::lemma_pow10_vals();
                    crate::codec::lemma_pow10_mono((k3 - ds) as nat, 18);
                    assert(dg[k3 - ds] == s@[k3 as int]);
                    assert(is_digit(s@[k3 as int]));
                }
                let d: u64 = (s[k3] as u32 - 48) as u64;
                acc = acc * 10 + d;
                proof {
                    assert(s@.subrange(ds as int, k3 as int + 1).drop_last() =~= s@.subrange(
                        ds as int,
                        k3 as int,
                    ));
                    assert(s@.subrange(ds as int, k3 as int + 1).last() == s@[k3 as int]);
                    assert(pow10((k3 + 1 - ds) as nat) == 10 * pow10((k3 - ds) as nat));
                }
                k3 += 1;
            }
            proof {
                assert(acc as nat == digits_val(dg));
                if s@[i as int] == '-' {
                    assert(integral_val(tokg) == -(digits_val(dg) as int));
                } else {
                    assert(integral_val(tokg) == digits_val(dg) as int);
                }
            }
            if s[i] == '-' {
                if acc <= 9223372036854775808u64 {
                    let vi: i64 = (-(acc as i128)) as i64;
                    proof {
                        assert(vi as int == integral_val(tokg));
                        assert(mk_number(tokg) == JVal::Int(vi as int));
                    }
                    Some((Value::Int(vi), j))
                } else {
                    proof {
                        assert(!in_i64_range(integral_val(tokg)));
                        assert(mk_number(tokg) == JVal::Num(tokg));
                    }
                    Some((Value::Num(tok), j))
                }
            } else {
                if acc <= 9223372036854775807u64 {
                    proof {
                        assert(mk_number(tokg) == JVal::Int(acc as int));
                    }
                    Some((Value::Int(acc as i64), j))
                } else {
                    proof {
                        assert(!in_i64_range(integral_val(tokg)));
                        assert(mk_number(tokg) == JVal::Num(tokg));
                    }
                    Some((Value::Num(tok), j))
                }
            }
        },
    }
}

/// In a scanned number token, the digit area begins after the optional sign
/// and the scan ends past it; and an all-digit token that begins with `0`
/// has exactly one digit.
proof fn lemma_num_token_shape(s: Seq<char>, i: int, j: int)
    requires
        0 <= i < s.len(),
        scan_number(s, i) == Some(j),
    ensures
        (if s[i] == '-' { i + 1 } else { i }) < j,
        j <= s.len(),
{
    let a = if s[i] == '-' {
        i + 1
    } else {
        i
    };
    match scan_int(s, a) {
        None => {},
        Some(b) => {
            crate::codec::lemma_scan_digits_bounds(s, a + 1);
            assert(a < b <= s.len());
            match scan_frac(s, b) {
                None => {},
                Some(c) => {
                    if b < s.len() && s[b] == '.' {
                        crate::codec::lemma_scan_digits_bounds(s, b + 2);
                    }
                    assert(b <= c <= s.len());
                    if c < s.len() && (s[c] == 'e' || s[c] == 'E') {
                        let m = if c + 1 < s.len() && (s[c + 1] == '+' || s[c + 1] == '-') {
                            c + 2
                        } else {
                            c + 1
                        };
                        if m < s.len() && is_digit(s[m]) {
                            crate::codec::lemma_scan_digits_bounds(s, m + 1);
                        }
                    }
                    assert(c <= j <= s.len());
                },
            }
        },
    }
}

/// A scanned token whose digit area is all digits and longer than nineteen
/// places denotes an integer outside the `i64` range.
proof fn lemma_long_digit_run(s: Seq<char>, i: int, ds: int, j: int)
    requires
        0 <= i < s.len(),
        scan_number(s, i) == Some(j),
        ds == (if s[i] == '-' { i + 1 } else { i }),
        ds < j <= s.len(),
        all_digits(s.subrange(ds, j)),
        j - ds > 19,
    ensures
        digits_val(s.subrange(ds, j)) > i64::MAX as int,
        digits_val(s.subrange(ds, j)) > -(i64::MIN as int),
{
    let d = s.subrange(ds, j);
    // the scanner admits a leading zero only as the single digit `0`
    assert(s[ds] != '0') by {
        if s[ds] == '0' {
            assert(scan_int(s, ds) == Some(ds + 1));
            assert(is_digit(s[ds + 1])) by {
                assert(d[1] == s[ds + 1]);
            }
            assert(scan_frac(s, ds + 1) == Some(ds + 1));
            assert(scan_exp(s, ds + 1) == Some(ds + 1));
            assert(j == ds + 1);
        }
    }
    assert(d[0] == s[ds]);
    crate::codec::lemma_digits_val_lower(d);
    crate::codec::lemma_pow10_vals();
    crate::codec::lemma_pow10_mono(19, (d.len() - 1) as nat);
}

/// The value of one hex digit, if it is one.
fn e_hex_digit(c: char) -> (r: Option<u32>)
    ensures
        match r {
            Some(v) => is_hex_digit(c) && v as nat == hex_val(c) && v < 16,
            None => !is_hex_digit(c),
        },
{
    let u = c as u32;
    if 48 <= u && u <= 57 {
        Some(u - 48)
    } else if 97 <= u && u <= 102 {
        Some(u - 87)
    } else if 65 <= u && u <= 70 {
        Some(u - 55)
    } else {
        None
    }
}

/// The value of four hex digits at `i`, if present.
fn e_hex4(s: &Vec<char>, i: usize) -> (r: Option<u32>)
    requires
        i <= s.len(),
    ensures
        match r {
            Some(h) => hex4(s@, i as int) == Some(h as int) && h < 0x10000,
            None => hex4(s@, i as int) is None,
        },
{
    if s.len() - i < 4 {
        return None;
    }
    let d0 = e_hex_digit(s[i]);
    let d1 = e_hex_digit(s[i + 1]);
    let d2 = e_hex_digit(s[i + 2]);
    let d3 = e_hex_digit(s[i + 3]);
    match (d0, d1, d2, d3) {
        (Some(a), Some(b), Some(c), Some(d)) => Some(a * 0x1000 + b * 0x100 + c * 16 + d),
        _ => None,
    }
}

/// Decodes one escape sequence, `i` standing just after the backslash.
fn e_esc(s: &Vec<char>, i: usize) -> (r: Option<(char, usize)>)
    requires
        i <= s.len(),
    ensures
        match r {
            Some((c, j)) => sp_esc(s@, i as int) == Some((c, j as int)) && i < j && j <= s.len(),
            None => sp_esc(s@, i as int) is None,
        },
{
    if i >= s.len() {
        return None;
    }
    let c = s[i];
    if c == '"' {
        Some(('"', i + 1))
    } else if c == '\\' {
        Some(('\\', i + 1))
    } else if c == '/' {
        Some(('/', i + 1))
    } else if c == 'b' {
        proof {
            assert(('\u{8}' as u32) == 8);
            vstd::utf8::char_u32_cast('\u{8}', 8);
        }
        Some(('\u{8}', i + 1))
    } else if c == 'f' {
        proof {
            assert(('\u{c}' as u32) == 12);
            vstd::utf8::char_u32_cast('\u{c}', 12);
        }
        Some(('\u{c}', i + 1))
    } else if c == 'n' {
        proof {
            assert(('\n' as u32) == 10);
            vstd::utf8::char_u32_cast('\n', 10);
        }
        Some(('\n', i + 1))
    } else if c == 'r' {
        proof {
            assert(('\r' as u32) == 13);
            vstd::utf8::char_u32_cast('\r', 13);
        }
        Some(('\r', i + 1))
    } else if c == 't' {
        proof {
            assert(('\t' as u32) == 9);
            vstd::utf8::char_u32_cast('\t', 9);
        }
        Some(('\t', i + 1))
    } else if c == 'u' {
        match e_hex4(s, i + 1) {
            None => None,
            Some(h) => {
                if 0xD800 <= h && h < 0xDC00 {
                    if s.len() - i >= 7 && s[i + 5] == '\\' && s[i + 6] == 'u' {
                        match e_hex4(s, i + 7) {
                            None => None,
                            Some(lo) => {
                                if 0xDC00 <= lo && lo < 0xE000 {
                                    let code: u32 = 0x10000 + (h - 0xD800) * 0x400 + (lo
                                        - 0xDC00);
                                    match char::from_u32(code) {
                                        Some(ch) => Some((ch, i + 11)),
                                        None => {
                                            proof {
                                                assert(false);
                                            }
                                            None
                                        },
                                    }
                                } else {
                                    None
                                }
                            },
                        }
                    } else {
                        None
                    }
                } else if 0xDC00 <= h && h < 0xE000 {
                    None
                } else {
                    match char::from_u32(h) {
                        Some(ch) => Some((ch, i + 5)),
                        None => {
                            proof {
                                assert(false);
                            }
                            None
                        },
                    }
                }
            },
        }
    } else {
        None
    }
}

/// Parses a string body, `i` standing just after the opening quote.
fn p_str_body(s: &Vec<char>, i: usize) -> (r: Option<(String, usize)>)
    requires
        i <= s.len(),
    ensures
        match r {
            Some((t, j)) => sp_str_body(s@, i as int) == Some((t@, j as int)) && i < j && j
                <= s.len(),
            None => sp_str_body(s@, i as int) is None,
        },
{
    let mut acc = String::new();
    let mut cur: usize = i;
    loop
        invariant
            i <= cur && cur <= s.len(),
            sp_str_body(s@, i as int) == join_str(acc@, sp_str_body(s@, cur as int)),
        ensures
            match sp_str_body(s@, i as int) {
                Some((t, j)) => t == acc@ && i < j && j <= s.len() && cur + 1 == j,
                None => false,
            },
        decreases s.len() - cur,
    {
        if cur >= s.len() {
            proof {
                assert(sp_str_body(s@, cur as int) is None);
            }
            return None;
        }
        let c = s[cur];
        if c == '"' {
            proof {
                assert(sp_str_body(s@, cur as int) == Some((Seq::<char>::empty(), cur + 1)));
                assert(acc@ + Seq::<char>::empty() =~= acc@);
            }
            break ;
        } else if c == '\\' {
            match e_esc(s, cur + 1) {
                None => {
                    proof {
                        assert(sp_str_body(s@, cur as int) is None);
                    }
                    return None;
                },
                Some((ch, j2)) => {
                    proof {
                        assert(step_to(s@, cur as int, j2 as int) == j2 as int);
                        assert(sp_str_body(s@, cur as int) == (match sp_str_body(
                            s@,
                            j2 as int,
                        ) {
                            None => None::<(Seq<char>, int)>,
                            Some((t, e)) => Some((seq![ch] + t, e)),
                        }));
                        if sp_str_body(s@, j2 as int) is Some {
                            let (t2, e2) = sp_str_body(s@, j2 as int)->Some_0;
                            assert(acc@ + (seq![ch] + t2) =~= acc@.push(ch) + t2);
                        }
                    }
                    acc.push(ch);
                    cur = j2;
                },
            }
        } else if (c as u32) < 32 {
            proof {
                assert(sp_str_body(s@, cur as int) is None);
            }
            return None;
        } else {
            proof {
                if sp_str_body(s@, cur as int + 1) is Some {
                    let (t2, e2) = sp_str_body(s@, cur as int + 1)->Some_0;
                    assert(acc@ + (seq![c] + t2) =~= acc@.push(c) + t2);
                }
            }
            acc.push(c);
            cur = cur + 1;
        }
    }
    Some((acc, cur + 1))
}

/// The first index of a field with the given key is what `find_key` says.
pub proof fn lemma_find_key_char(m: Seq<(Seq<char>, JVal)>, k: Seq<char>)
    ensures
        ({
            let r = find_key(m, k);
            (r == -1 && (forall|w: int| 0 <= w < m.len() ==> (#[trigger] m[w]).0 != k)) || (0 <= r
                < m.len() && m[r].0 == k && (forall|w: int|
                0 <= w < r ==> (#[trigger] m[w]).0 != k))
        }),
    decreases m.len(),
{
    if m.len() > 0 && m[0].0 != k {
        lemma_find_key_char(m.drop_first(), k);
        let r0 = find_key(m.drop_first(), k);
        if r0 == -1 {
            assert forall|w: int| 0 <= w < m.len() implies (#[trigger] m[w]).0 != k by {
                if w > 0 {
                    assert(m.drop_first()[w - 1] == m[w]);
                }
            }
        } else {
            assert(m.drop_first()[r0] == m[r0 + 1]);
            assert forall|w: int| 0 <= w < r0 + 1 implies (#[trigger] m[w]).0 != k by {
                if w > 0 {
                    assert(m.drop_first()[w - 1] == m[w]);
                }
            }
        }
    }
}

/// Binds a key in an object under construction, replacing the first field
/// with that key or appending a new one.
fn obj_put_vec(m: Vec<(String, Value)>, k: String, v: Value) -> (r: Vec<(String, Value)>)
    ensures
        Value::model_fields(r@) == obj_put(Value::model_fields(m@), k@, v@),
{
    let mut m = m;
    let n = m.len();
    let mut w: usize = 0;
    proof {
        crate::codec::lemma_model_fields_len(m@);
    }
    loop
        invariant
            w <= n && n == m.len(),
            forall|u: int| 0 <= u < w ==> (#[trigger] m@[u]).0@ != k@,
        ensures
            w <= n && n == m.len(),
            forall|u: int| 0 <= u < w ==> (#[trigger] m@[u]).0@ != k@,
            w < n ==> m@[w as int].0@ == k@,
        decreases n - w,
    {
        if w == n {
            break ;
        }
        if m[w].0 == k {
            break ;
        }
        w += 1;
    }
    proof {
        let mf = Value::model_fields(m@);
        crate::codec::lemma_model_fields_len(m@);
        assert forall|u: int| 0 <= u < m@.len() implies (#[trigger] mf[u]).0 == m@[u].0@ by {
            crate::codec::lemma_model_fields_index(m@, u);
        }
        lemma_find_key_char(mf, k@);
        let r = find_key(mf, k@);
        if w < n {
            assert(mf[w as int].0 == k@);
            if r == -1 {
            } else if r < w as int {
                assert(m@[r].0@ != k@);
                assert(mf[r].0 == k@);
            } else if r > w as int {
                assert(mf[w as int].0 != k@);
            }
            assert(r == w as int);
        } else {
            if r != -1 {
                assert(mf[r].0 == k@);
                assert(m@[r].0@ != k@);
            }
            assert(r == -1);
        }
    }
    let ghost m0 = m@;
    let ghost kg = k@;
    let ghost vg = v.model();
    if w < n {
        m.remove(w);
        m.insert(w, (k, v));
        proof {
            assert(m@ =~= m0.update(w as int, (k, v)));
            crate::codec::lemma_model_fields_update(m0, w as int, k, v);
            assert(Value::model_fields(m@) == obj_put(Value::model_fields(m0), kg, vg));
        }
        m
    } else {
        m.push((k, v));
        proof {
            crate::codec::lemma_model_fields_push(m0, k, v);
            assert(Value::model_fields(m@) == obj_put(Value::model_fields(m0), kg, vg));
        }
        m
    }
}

/// Parses one JSON value starting at `i` (leading whitespace allowed).
fn p_val(s: &Vec<char>, i: usize) -> (r: Option<(Value, usize)>)
    requires
        i <= s.len(),
    ensures
        match r {
            Some((v, j)) => sp_val(s@, i as int) == Some((v@, j as int)) && i < j && j <= s.len(),
            None => sp_val(s@, i as int) is None,
        },
    decreases s.len() - i, 0int,
{
    if i >= s.len() {
        return None;
    }
    let c = s[i];
    if e_is_ws(c) {
        return p_val(s, i + 1);
    }
    if c == 'n' {
        if s.len() - i >= 4 && s[i + 1] == 'u' && s[i + 2] == 'l' && s[i + 3] == 'l' {
            return Some((Value::Null, i + 4));
        } else {
            return None;
        }
    }
    if c == 't' {
        if s.len() - i >= 4 && s[i + 1] == 'r' && s[i + 2] == 'u' && s[i + 3] == 'e' {
            return Some((Value::Bool(true), i + 4));
        } else {
            return None;
        }
    }
    if c == 'f' {
        if s.len() - i >= 5 && s[i + 1] == 'a' && s[i + 2] == 'l' && s[i + 3] == 's' && s[i + 4]
            == 'e' {
            return Some((Value::Bool(false), i + 5));
        } else {
            return None;
        }
    }
    if c == '"' {
        match p_str_body(s, i + 1) {
            None => {
                return None;
            },
            Some((t, j)) => {
                return Some((Value::Str(t), j));
            },
        }
    }
    if c == '-' || e_is_digit(c) {
        return p_num(s, i);
    }
    if c == '[' {
        match p_arr_first(s, i + 1) {
            None => {
                return None;
            },
            Some((a, j)) => {
                return Some((Value::Arr(a), j));
            },
        }
    }
    if c == '{' {
        match p_obj_first(s, i + 1) {
            None => {
                return None;
            },
            Some((m, j)) => {
                return Some((Value::Obj(m), j));
            },
        }
    }
    None
}

/// Parses an array after its opening bracket.
fn p_arr_first(s: &Vec<char>, i: usize) -> (r: Option<(Vec<Value>, usize)>)
    requires
        i <= s.len(),
    ensures
        match r {
            Some((a, j)) => sp_arr_first(s@, i as int) == Some(
                (Value::model_elems(a@), j as int),
            ) && i < j && j <= s.len(),
            None => sp_arr_first(s@, i as int) is None,
        },
    decreases s.len() - i, 3int,
{
    if i >= s.len() {
        return None;
    }
    let c = s[i];
    if e_is_ws(c) {
        return p_arr_first(s, i + 1);
    }
    if c == ']' {
        let a: Vec<Value> = Vec::new();
        proof {
            assert(Value::model_elems(a@) =~= Seq::<JVal>::empty());
        }
        return Some((a, i + 1));
    }
    let acc: Vec<Value> = Vec::new();
    proof {
        assert(Value::model_elems(acc@) =~= Seq::<JVal>::empty());
    }
    p_arr_item(s, i, acc)
}

/// Parses an array element and whatever follows it.
fn p_arr_item(s: &Vec<char>, i: usize, acc: Vec<Value>) -> (r: Option<(Vec<Value>, usize)>)
    requires
        i <= s.len(),
    ensures
        match r {
            Some((a, j)) => sp_arr_item(s@, i as int, Value::model_elems(acc@)) == Some(
                (Value::model_elems(a@), j as int),
            ) && i < j && j <= s.len(),
            None => sp_arr_item(s@, i as int, Value::model_elems(acc@)) is None,
        },
    decreases s.len() - i, 2int,
{
    if i >= s.len() {
        return None;
    }
    match p_val(s, i) {
        None => None,
        Some((v, j)) => {
            let ghost acc0 = Value::model_elems(acc@);
            let mut acc = acc;
            let ghost accg = acc@;
            let ghost vg = v.model();
            acc.push(v);
            proof {
                crate::codec::lemma_model_elems_push(accg, v);
                assert(acc@ == accg.push(v));
                assert(Value::model_elems(acc@) == acc0.push(vg));
                assert(step_to(s@, i as int, j as int) == j as int);
            }
            p_arr_rest(s, j, acc)
        },
    }
}

/// Parses what follows an array element: a comma or the closing bracket.
fn p_arr_rest(s: &Vec<char>, i: usize, acc: Vec<Value>) -> (r: Option<(Vec<Value>, usize)>)
    requires
        i <= s.len(),
    ensures
        match r {
            Some((a, j)) => sp_arr_rest(s@, i as int, Value::model_elems(acc@)) == Some(
                (Value::model_elems(a@), j as int),
            ) && i < j && j <= s.len(),
            None => sp_arr_rest(s@, i as int, Value::model_elems(acc@)) is None,
        },
    decreases s.len() - i, 3int,
{
    if i >= s.len() {
        return None;
    }
    let c = s[i];
    if e_is_ws(c) {
        return p_arr_rest(s, i + 1, acc);
    }
    if c == ',' {
        return p_arr_item(s, i + 1, acc);
    }
    if c == ']' {
        return Some((acc, i + 1));
    }
    None
}

/// Parses an object after its opening brace.
fn p_obj_first(s: &Vec<char>, i: usize) -> (r: Option<(Vec<(String, Value)>, usize)>)
    requires
        i <= s.len(),
    ensures
        match r {
            Some((m, j)) => sp_obj_first(s@, i as int) == Some(
                (Value::model_fields(m@), j as int),
            ) && i < j && j <= s.len(),
            None => sp_obj_first(s@, i as int) is None,
        },
    decreases s.len() - i, 4int,
{
    if i >= s.len() {
        return None;
    }
    let c = s[i];
    if e_is_ws(c) {
        return p_obj_first(s, i + 1);
    }
    if c == '}' {
        let m: Vec<(String, Value)> = Vec::new();
        proof {
            assert(Value::model_fields(m@) =~= Seq::<(Seq<char>, JVal)>::empty());
        }
        return Some((m, i + 1));
    }
    let acc: Vec<(String, Value)> = Vec::new();
    proof {
        assert(Value::model_fields(acc@) =~= Seq::<(Seq<char>, JVal)>::empty());
    }
    p_obj_item(s, i, acc)
}

/// Parses an object field's key and whatever follows it.
fn p_obj_item(s: &Vec<char>, i: usize, acc: Vec<(String, Value)>) -> (r: Option<
    (Vec<(String, Value)>, usize),
>)
    requires
        i <= s.len(),
    ensures
        match r {
            Some((m, j)) => sp_obj_item(s@, i as int, Value::model_fields(acc@)) == Some(
                (Value::model_fields(m@), j as int),
            ) && i < j && j <= s.len(),
            None => sp_obj_item(s@, i as int, Value::model_fields(acc@)) is None,
        },
    decreases s.len() - i, 3int,
{
    if i >= s.len() {
        return None;
    }
    let c = s[i];
    if e_is_ws(c) {
        return p_obj_item(s, i + 1, acc);
    }
    if c == '"' {
        match p_str_body(s, i + 1) {
            None => {
                return None;
            },
            Some((k, j)) => {
                proof {
                    assert(step_to(s@, i as int, j as int) == j as int);
                }
                return p_obj_colon(s, j, k, acc);
            },
        }
    }
    None
}

/// Parses the colon between a field's key and value.
fn p_obj_colon(s: &Vec<char>, i: usize, k: String, acc: Vec<(String, Value)>) -> (r: Option<
    (Vec<(String, Value)>, usize),
>)
    requires
        i <= s.len(),
    ensures
        match r {
            Some((m, j)) => sp_obj_colon(s@, i as int, k@, Value::model_fields(acc@)) == Some(
                (Value::model_fields(m@), j as int),
            ) && i < j && j <= s.len(),
            None => sp_obj_colon(s@, i as int, k@, Value::model_fields(acc@)) is None,
        },
    decreases s.len() - i, 3int,
{
    if i >= s.len() {
        return None;
    }
    let c = s[i];
    if e_is_ws(c) {
        return p_obj_colon(s, i + 1, k, acc);
    }
    if c == ':' {
        return p_obj_val(s, i + 1, k, acc);
    }
    None
}

/// Parses an object field's value and whatever follows it.
fn p_obj_val(s: &Vec<char>, i: usize, k: String, acc: Vec<(String, Value)>) -> (r: Option<
    (Vec<(String, Value)>, usize),
>)
    requires
        i <= s.len(),
    ensures
        match r {
            Some((m, j)) => sp_obj_val(s@, i as int, k@, Value::model_fields(acc@)) == Some(
                (Value::model_fields(m@), j as int),
            ) && i < j && j <= s.len(),
            None => sp_obj_val(s@, i as int, k@, Value::model_fields(acc@)) is None,
        },
    decreases s.len() - i, 2int,
{
    if i >= s.len() {
        return None;
    }
    match p_val(s, i) {
        None => None,
        Some((v, j)) => {
            let ghost acc0 = Value::model_fields(acc@);
            let ghost kg = k@;
            let ghost vg = v.model();
            let acc2 = obj_put_vec(acc, k, v);
            proof {
                assert(Value::model_fields(acc2@) == obj_put(acc0, kg, vg));
                assert(step_to(s@, i as int, j as int) == j as int);
            }
            p_obj_rest(s, j, acc2)
        },
    }
}

/// Parses what follows an object field: a comma or the closing brace.
fn p_obj_rest(s: &Vec<char>, i: usize, acc: Vec<(String, Value)>) -> (r: Option<
    (Vec<(String, Value)>, usize),
>)
    requires
        i <= s.len(),
    ensures
        match r {
            Some((m, j)) => sp_obj_rest(s@, i as int, Value::model_fields(acc@)) == Some(
                (Value::model_fields(m@), j as int),
            ) && i < j && j <= s.len(),
            None => sp_obj_rest(s@, i as int, Value::model_fields(acc@)) is None,
        },
    decreases s.len() - i, 4int,
{
    if i >= s.len() {
        return None;
    }
    let c = s[i];
    if e_is_ws(c) {
        return p_obj_rest(s, i + 1, acc);
    }
    if c == ',' {
        return p_obj_item(s, i + 1, acc);
    }
    if c == '}' {
        return Some((acc, i + 1));
    }
    None
}

/// Parses a complete JSON text: one value with only whitespace around it.
pub fn parse_json_chars(s: &Vec<char>) -> (r: Option<(Value, usize)>)
    ensures
        match r {
            Some((v, j)) => parse_text(s@) == Some(v@),
            None => parse_text(s@) is None,
        },
{
    match p_val(s, 0) {
        None => None,
        Some((v, j)) => {
            let mut k: usize = j;
            loop
                invariant
                    j <= k && k <= s.len(),
                    ws_to_end(s@, j as int) == ws_to_end(s@, k as int),
                ensures
                    ws_to_end(s@, j as int) == (k == s.len()),
                decreases s.len() - k,
            {
                if k == s.len() {
                    break ;
                }
                if !e_is_ws(s[k]) {
                    proof {
                        assert(!ws_to_end(s@, k as int));
                    }
                    break ;
                }
                k += 1;
            }
            if k == s.len() {
                Some((v, j))
            } else {
                None
            }
        },
    }
}

// ---------------------------------------------------------------------------
// Round trips
// ---------------------------------------------------------------------------

use crate::codec::{
    dec_digits, ser_val, ser_elems, ser_fields, esc, esc_char, hex_char, digit_char, digit_val,
    wf_val, is_num_cont, lemma_scan_digits_det,
};

/// The decimal digits of a number are digits, carry its value, and never
/// start with a superfluous zero.
proof fn lemma_dec_digits(n: nat)
    ensures
        dec_digits(n).len() >= 1,
        all_digits(dec_digits(n)),
        digits_val(dec_digits(n)) == n,
        n > 0 ==> dec_digits(n)[0] != '0',
        n == 0 ==> dec_digits(n) == seq!['0'],
    decreases n,
{
    if n < 10 {
        reveal_with_fuel(digits_val, 3);
        assert(digit_char(n) as u32 == n + 48);
        assert(dec_digits(n) =~= seq![digit_char(n)]);
        assert(seq![digit_char(n)].drop_last() =~= Seq::<char>::empty());
        assert(digits_val(dec_digits(n)) == digit_val(digit_char(n)));
        if n > 0 {
            assert(digit_char(n) as u32 != 48);
            assert('0' as u32 == 48);
        }
        if n == 0 {
            assert(digit_char(0) as u32 == 48);
            assert(('0' as u32) as char == '0');
            assert(digit_char(0) == '0');
        }
    } else {
        lemma_dec_digits(n / 10);
        let d = dec_digits(n);
        assert(d == dec_digits(n / 10).push(digit_char(n % 10)));
        assert(d.drop_last() =~= dec_digits(n / 10));
        assert(digit_char((n % 10) as nat) as u32 == n % 10 + 48);
        assert forall|w: int| 0 <= w < d.len() implies is_digit(#[trigger] d[w]) by {
            if w < d.len() - 1 {
                assert(d[w] == dec_digits(n / 10)[w]);
            }
        }
        assert(d[0] == dec_digits(n / 10)[0]);
    }
}

/// Scanning a text that is one valid number token, whole, consumes it all.
proof fn lemma_scan_token_all(l: Seq<char>, a: int)
    requires
        0 <= a <= 1,
        a == 1 ==> l.len() > 0 && l[0] == '-',
        a == 0 ==> (l.len() > 0 && l[0] != '-'),
        a < l.len(),
        forall|w: int| a <= w < l.len() ==> is_digit(#[trigger] l[w]),
        l[a] == '0' ==> l.len() == a + 1,
    ensures
        scan_number(l, 0) == Some(l.len() as int),
{
    crate::codec::lemma_scan_digits_char(l, a + 1);
    lemma_scan_digits_det(l, a + 1, l.len() as int);
    assert(scan_int(l, a) == Some(l.len() as int)) by {
        if l[a] == '0' {
            assert(l.len() == a + 1);
        } else {
            assert(is_digit(l[a]));
        }
    }
    assert(scan_frac(l, l.len() as int) == Some(l.len() as int));
    assert(scan_exp(l, l.len() as int) == Some(l.len() as int));
}

/// Hexadecimal digit characters read back as their values.
proof fn lemma_hex_char(d: nat)
    requires
        d < 16,
    ensures
        is_hex_digit(hex_char(d)),
        hex_val(hex_char(d)) == d,
{
    if d < 10 {
        assert(hex_char(d) as u32 == d + 48);
    } else {
        assert(hex_char(d) as u32 == d + 87);
    }
}

/// Parsing a string body that was produced by escaping: the escaped text,
/// followed by a closing quote, reads back as the original characters.
proof fn lemma_str_body_ser(t: Seq<char>, s: Seq<char>, i: int)
    requires
        0 <= i,
        i + esc(t).len() < s.len(),
        forall|m: int| 0 <= m < esc(t).len() ==> s[i + m] == #[trigger] esc(t)[m],
        s[i + esc(t).len()] == '"',
    ensures
        sp_str_body(s, i) == Some((t, i + esc(t).len() + 1)),
    decreases t.len(),
{
    if t.len() == 0 {
        assert(esc(t).len() == 0);
        assert(s[i] == '"');
        assert(sp_str_body(s, i) == Some((Seq::<char>::empty(), i + 1)));
        assert(t =~= Seq::<char>::empty());
    } else {
        let c = t[0];
        let rest = t.drop_first();
        assert(esc(t) == esc_char(c) + esc(rest));
        let el = esc_char(c).len();
        assert(forall|m: int| 0 <= m < el ==> s[i + m] == #[trigger] esc_char(c)[m]) by {
            assert(forall|m: int|
                0 <= m < el ==> esc(t)[m] == #[trigger] esc_char(c)[m]);
        }
        assert(forall|m: int|
            0 <= m < esc(rest).len() ==> s[i + el + m] == #[trigger] esc(rest)[m]) by {
            assert(forall|m: int|
                0 <= m < esc(rest).len() ==> esc(t)[el + m] == #[trigger] esc(rest)[m]);
        }
        if c == '"' {
            assert(s[i] == '\\' && s[i + 1] == '"');
            assert(sp_esc(s, i + 1) == Some(('"', i + 2)));
            lemma_str_body_ser(rest, s, i + 2);
            assert(step_to(s, i, i + 2) == i + 2);
            assert(seq![c] + rest =~= t);
        } else if c == '\\' {
            assert(s[i] == '\\' && s[i + 1] == '\\');
            assert(sp_esc(s, i + 1) == Some(('\\', i + 2)));
            lemma_str_body_ser(rest, s, i + 2);
            assert(step_to(s, i, i + 2) == i + 2);
            assert(seq![c] + rest =~= t);
        } else if (c as u32) < 32 {
            let hi = (c as u32 / 16) as nat;
            let lo = (c as u32 % 16) as nat;
            assert(esc_char(c) == seq!['\\', 'u', '0', '0', hex_char(hi), hex_char(lo)]);
            assert(s[i] == '\\' && s[i + 1] == 'u' && s[i + 2] == '0' && s[i + 3] == '0'
                && s[i + 4] == hex_char(hi) && s[i + 5] == hex_char(lo));
            lemma_hex_char(hi);
            lemma_hex_char(lo);
            assert('0' as u32 == 48);
            assert(is_hex_digit('0') && hex_val('0') == 0);
            assert(hex4(s, i + 2) == Some(hex_val(s[i + 4]) * 16 + hex_val(s[i + 5]) as int));
            let h = hex_val(s[i + 4]) * 16 + hex_val(s[i + 5]) as int;
            assert(h == c as u32) by {
                assert(hi * 16 + lo == c as u32);
            }
            assert(0 <= h < 32);
            assert(sp_esc(s, i + 1) == Some((((h as u32) as char), i + 6)));
            assert(((h as u32) as char) == c) by {
                assert(h as u32 == c as u32);
                vstd::utf8::char_u32_cast(c, h as u32);
            }
            lemma_str_body_ser(rest, s, i + 6);
            assert(step_to(s, i, i + 6) == i + 6);
            assert(seq![c] + rest =~= t);
        } else {
            assert(esc_char(c) == seq![c]);
            assert(s[i + 0] == esc_char(c)[0]);
            assert(s[i] == c);
            lemma_str_body_ser(rest, s, i + 1);
            assert(seq![c] + rest =~= t);
        }
    }
}

/// A digit run embeds: scanning digits inside a window that matches a
/// standalone text, with matching terminators, stops at the same offset.
proof fn lemma_scan_digits_embed(l: Seq<char>, s: Seq<char>, i: int, p: int)
    requires
        0 <= p <= l.len(),
        0 <= i,
        i + l.len() <= s.len(),
        forall|m: int| 0 <= m < l.len() ==> s[i + m] == #[trigger] l[m],
        i + l.len() == s.len() || !is_digit(s[i + l.len()]),
    ensures
        scan_digits(s, i + p) == i + scan_digits(l, p),
    decreases l.len() - p,
{
    if p < l.len() && is_digit(l[p]) {
        lemma_scan_digits_embed(l, s, i, p + 1);
    }
}

/// A complete number token embeds: inside a text that carries the token
/// followed by a character that cannot extend a number (or the end), the
/// scanner consumes exactly the token.
proof fn lemma_scan_number_embed(l: Seq<char>, s: Seq<char>, i: int)
    requires
        scan_number(l, 0) == Some(l.len() as int),
        0 <= i,
        i + l.len() <= s.len(),
        forall|m: int| 0 <= m < l.len() ==> s[i + m] == #[trigger] l[m],
        i + l.len() == s.len() || !is_num_cont(s[i + l.len()]),
    ensures
        scan_number(s, i) == Some(i + l.len()),
{
    let ll = l.len() as int;
    let a = if 0 < l.len() && l[0] == '-' {
        1int
    } else {
        0int
    };
    assert(l.len() > 0) by {
        if l.len() == 0 {
            assert(scan_int(l, 0) is None);
        }
    }
    assert(scan_int(l, a) is Some);
    let b = scan_int(l, a)->0;
    assert(scan_frac(l, b) is Some);
    let c = scan_frac(l, b)->0;
    assert(scan_exp(l, c) == Some(ll));
    // the sign maps over
    assert(a == 1 ==> s[i] == '-');
    assert(a == 0 ==> (i < s.len() && s[i] != '-')) by {
        if a == 0 {
            assert(s[i] == l[0]);
        }
    }
    // bounds of the phases
    crate::codec::lemma_scan_digits_char(l, a + 1);
    assert(a < b <= ll) by {
        if l[a] == '0' {
        } else {
            crate::codec::lemma_scan_digits_char(l, a + 1);
        }
    }
    // the integer part maps over
    assert(scan_int(s, i + a) == Some(i + b)) by {
        if l[a] == '0' {
            assert(s[i + a] == '0');
        } else {
            assert(is_digit(l[a]));
            assert(s[i + a] == l[a]);
            lemma_scan_digits_embed(l, s, i, a + 1);
        }
    }
    // the fraction maps over
    assert(b <= c <= ll) by {
        if b < ll && l[b] == '.' {
            crate::codec::lemma_scan_digits_char(l, b + 2);
        }
    }
    assert(scan_frac(s, i + b) == Some(i + c)) by {
        if b < ll && l[b] == '.' {
            assert(s[i + b] == '.');
            assert(b + 1 < ll && is_digit(l[b + 1])) by {
                if !(b + 1 < ll && is_digit(l[b + 1])) {
                    assert(scan_frac(l, b) is None);
                }
            }
            assert(s[i + b + 1] == l[b + 1]);
            lemma_scan_digits_embed(l, s, i, b + 2);
        } else {
            if b == ll {
                assert(i + b == s.len() || !is_num_cont(s[i + b]));
            } else {
                assert(s[i + b] == l[b]);
            }
        }
    }
    // the exponent maps over
    assert(scan_exp(s, i + c) == Some(i + ll)) by {
        if c < ll && (l[c] == 'e' || l[c] == 'E') {
            assert(s[i + c] == l[c]);
            let j0 = if c + 1 < ll && (l[c + 1] == '+' || l[c + 1] == '-') {
                c + 2
            } else {
                c + 1
            };
            assert(j0 < ll && is_digit(l[j0])) by {
                if !(j0 < ll && is_digit(l[j0])) {
                    assert(scan_exp(l, c) is None);
                }
            }
            let sj0 = if i + c + 1 < s.len() && (s[i + c + 1] == '+' || s[i + c + 1] == '-') {
                i + c + 2
            } else {
                i + c + 1
            };
            assert(sj0 == i + j0) by {
                if c + 1 < ll {
                    assert(s[i + c + 1] == l[c + 1]);
                } else {
                    assert(j0 == c + 1);
                    assert(i + c + 1 == i + ll);
                    assert(false) by {
                        assert(j0 < ll);
                    }
                }
            }
            assert(s[i + j0] == l[j0]);
            lemma_scan_digits_embed(l, s, i, j0 + 1);
            crate::codec::lemma_scan_digits_char(l, j0 + 1);
        } else {
            if c == ll {
                assert(i + c == s.len() || !is_num_cont(s[i + c]));
            } else {
                assert(s[i + c] == l[c]);
            }
        }
    }
}

/// The first character of a serialized tree: never whitespace nor a
/// delimiter, and for numbers a sign or digit.
proof fn lemma_ser_first(v: JVal)
    requires
        wf_val(v),
    ensures
        ser_val(v).len() > 0,
        !is_ws(ser_val(v)[0]),
        ser_val(v)[0] != ']' && ser_val(v)[0] != '}' && ser_val(v)[0] != ',',
{
    match v {
        JVal::Int(x) => {
            if x >= 0 {
                lemma_dec_digits(x as nat);
                assert(is_digit(ser_val(v)[0]));
            } else {
                lemma_dec_digits((-x) as nat);
                assert(ser_val(v)[0] == '-');
            }
        },
        JVal::Num(l) => {
            lemma_num_first(l);
        },
        _ => {},
    }
}

/// A valid number token begins with a sign or a digit.
proof fn lemma_num_first(l: Seq<char>)
    requires
        scan_number(l, 0) == Some(l.len() as int),
    ensures
        l.len() > 0,
        l[0] == '-' || is_digit(l[0]),
        !is_ws(l[0]),
{
    let a = if 0 < l.len() && l[0] == '-' {
        1int
    } else {
        0int
    };
    assert(l.len() > 0) by {
        if l.len() == 0 {
            assert(scan_int(l, 0) is None);
        }
    }
    assert(scan_int(l, a) is Some);
    if a == 0 {
        assert(l[0] == '0' || is_digit(l[0])) by {
            if !(0 <= a && a < l.len() && l[a] == '0') && !(0 <= a && a < l.len() && is_digit(
                l[a],
            )) {
                assert(scan_int(l, a) is None);
            }
        }
        assert('0' as u32 == 48);
    }
}

/// Parsing a serialized well-formed tree embedded in a larger text: the
/// parser reads back exactly the tree and stops right after its text,
/// provided the next character (if any) could not extend a number token.
#[verifier::rlimit(100)]
#[verifier::spinoff_prover]
proof fn lemma_val_ser(v: JVal, s: Seq<char>, i: int)
    requires
        wf_val(v),
        0 <= i,
        i + ser_val(v).len() <= s.len(),
        forall|m: int| 0 <= m < ser_val(v).len() ==> s[i + m] == #[trigger] ser_val(v)[m],
        i + ser_val(v).len() == s.len() || !is_num_cont(s[i + ser_val(v).len()]),
    ensures
        sp_val(s, i) == Some((v, i + ser_val(v).len())),
    decreases v, 3int, 0int,
{
    let l = ser_val(v);
    let ll = l.len() as int;
    lemma_ser_first(v);
    assert(s[i] == l[0]);
    match v {
        JVal::Null => {
            assert(l == seq!['n', 'u', 'l', 'l']);
            assert(s[i] == 'n' && s[i + 1] == 'u' && s[i + 2] == 'l' && s[i + 3] == 'l');
        },
        JVal::Bool(b) => {
            if b {
                assert(l == seq!['t', 'r', 'u', 'e']);
                assert(s[i] == 't' && s[i + 1] == 'r' && s[i + 2] == 'u' && s[i + 3] == 'e');
            } else {
                assert(l == seq!['f', 'a', 'l', 's', 'e']);
                assert(s[i] == 'f' && s[i + 1] == 'a' && s[i + 2] == 'l' && s[i + 3] == 's' && s[
                    i + 4] == 'e');
            }
        },
        JVal::Int(x) => {
            if x >= 0 {
                lemma_dec_digits(x as nat);
                lemma_scan_token_all(l, 0);
            } else {
                lemma_dec_digits((-x) as nat);
                assert(l == seq!['-'] + dec_digits((-x) as nat));
                assert(forall|w: int|
                    1 <= w < ll ==> #[trigger] l[w] == dec_digits((-x) as nat)[w - 1]);
                lemma_scan_token_all(l, 1);
            }
            lemma_scan_number_embed(l, s, i);
            assert(s.subrange(i, i + ll) =~= l);
            if x >= 0 {
                assert(is_integral_lit(l));
                assert(integral_val(l) == x);
            } else {
                assert(l.subrange(1, ll) =~= dec_digits((-x) as nat));
                assert(is_integral_lit(l));
                assert(integral_val(l) == x);
            }
            assert(mk_number(l) == JVal::Int(x));
            assert(sp_val(s, i) == Some((JVal::Int(x), i + ll)));
        },
        JVal::Num(nl) => {
            assert(l == nl);
            lemma_num_first(nl);
            lemma_scan_number_embed(nl, s, i);
            assert(s.subrange(i, i + ll) =~= nl);
            assert(mk_number(nl) == JVal::Num(nl));
            assert(sp_val(s, i) == Some((JVal::Num(nl), i + ll)));
        },
        JVal::Str(t) => {
            assert(l == seq!['"'] + esc(t) + seq!['"']);
            assert(s[i] == '"');
            assert(ll == esc(t).len() + 2);
            assert(forall|m: int|
                0 <= m < esc(t).len() ==> s[i + 1 + m] == #[trigger] esc(t)[m]) by {
                assert(forall|m: int|
                    0 <= m < esc(t).len() ==> l[1 + m] == #[trigger] esc(t)[m]);
            }
            assert(s[i + 1 + esc(t).len() as int] == '"') by {
                assert(l[ll - 1] == '"');
            }
            lemma_str_body_ser(t, s, i + 1);
        },
        JVal::Arr(es) => {
            assert(l == seq!['['] + ser_elems(es) + seq![']']);
            assert(s[i] == '[');
            let el = ser_elems(es).len() as int;
            assert(forall|m: int|
                0 <= m < el ==> s[i + 1 + m] == #[trigger] ser_elems(es)[m]) by {
                assert(forall|m: int|
                    0 <= m < el ==> l[1 + m] == #[trigger] ser_elems(es)[m]);
            }
            assert(s[i + 1 + el] == ']') by {
                assert(l[ll - 1] == ']');
            }
            if es.len() == 0 {
                assert(s[i + 1] == ']');
                assert(sp_arr_first(s, i + 1) == Some((Seq::<JVal>::empty(), i + 2)));
                assert(es =~= Seq::<JVal>::empty());
            } else {
                assert(decreases_to!(v => v->Arr_0));
                lemma_elems_head_first(es);
                assert(crate::codec::wf_elems(es));
                assert(wf_val(es[0]));
                lemma_ser_first(es[0]);
                assert(ser_elems(es)[0] == ser_val(es[0])[0]);
                assert(s[i + 1] == ser_elems(es)[0]);
                assert(!is_ws(s[i + 1]) && s[i + 1] != ']');
                lemma_arr_items_ser(es, Seq::empty(), s, i + 1);
                assert(Seq::<JVal>::empty() + es =~= es);
                assert(sp_arr_first(s, i + 1) == Some((es, i + 1 + el + 1)));
            }
        },
        JVal::Obj(fs) => {
            assert(l == seq!['{'] + ser_fields(fs) + seq!['}']);
            assert(s[i] == '{');
            let el = ser_fields(fs).len() as int;
            assert(forall|m: int|
                0 <= m < el ==> s[i + 1 + m] == #[trigger] ser_fields(fs)[m]) by {
                assert(forall|m: int|
                    0 <= m < el ==> l[1 + m] == #[trigger] ser_fields(fs)[m]);
            }
            assert(s[i + 1 + el] == '}') by {
                assert(l[ll - 1] == '}');
            }
            if fs.len() == 0 {
                assert(s[i + 1] == '}');
                assert(sp_obj_first(s, i + 1) == Some((Seq::<(Seq<char>, JVal)>::empty(), i
                    + 2)));
                assert(fs =~= Seq::<(Seq<char>, JVal)>::empty());
            } else {
                assert(decreases_to!(v => v->Obj_0));
                lemma_fields_head_first(fs);
                assert(s[i + 1] == ser_fields(fs)[0]);
                assert(s[i + 1] == '"');
                assert(forall|w: int|
                    0 <= w < fs.len() ==> find_key(Seq::<(Seq<char>, JVal)>::empty(), (
                    #[trigger] fs[w]).0) == -1);
                lemma_obj_items_ser(fs, Seq::empty(), s, i + 1);
                assert(Seq::<(Seq<char>, JVal)>::empty() + fs =~= fs);
                assert(sp_obj_first(s, i + 1) == Some((fs, i + 1 + el + 1)));
            }
        },
    }
}

/// A nonempty serialized element list begins with its first element's text.
proof fn lemma_elems_head_first(es: Seq<JVal>)
    requires
        es.len() > 0,
    ensures
        ser_elems(es).len() >= ser_val(es[0]).len(),
        forall|m: int|
            0 <= m < ser_val(es[0]).len() ==> ser_elems(es)[m] == #[trigger] ser_val(es[0])[m],
        es.len() > 1 ==> ser_elems(es)[ser_val(es[0]).len() as int] == ',',
        es.len() > 1 ==> ser_elems(es).len() == ser_val(es[0]).len() + 1 + ser_elems(
            es.drop_first(),
        ).len(),
        es.len() == 1 ==> ser_elems(es) == ser_val(es[0]),
{
    if es.len() > 1 {
        assert(ser_elems(es) == ser_val(es[0]) + seq![','] + ser_elems(es.drop_first()));
    }
}

/// A nonempty serialized field list begins with its first field's text.
proof fn lemma_fields_head_first(fs: Seq<(Seq<char>, JVal)>)
    requires
        fs.len() > 0,
    ensures
        ser_fields(fs).len() >= crate::codec::ser_field(fs[0]).len(),
        forall|m: int|
            0 <= m < crate::codec::ser_field(fs[0]).len() ==> ser_fields(fs)[m]
                == #[trigger] crate::codec::ser_field(fs[0])[m],
        fs.len() > 1 ==> ser_fields(fs)[crate::codec::ser_field(fs[0]).len() as int] == ',',
        fs.len() > 1 ==> ser_fields(fs).len() == crate::codec::ser_field(fs[0]).len() + 1
            + ser_fields(fs.drop_first()).len(),
        fs.len() == 1 ==> ser_fields(fs) == crate::codec::ser_field(fs[0]),
        ser_fields(fs)[0] == '"',
{
    if fs.len() > 1 {
        assert(ser_fields(fs) == crate::codec::ser_field(fs[0]) + seq![','] + ser_fields(
            fs.drop_first(),
        ));
    }
    assert(crate::codec::ser_field(fs[0])[0] == '"');
}

/// Parsing the serialized elements of a nonempty array, element by element,
/// up to the closing bracket.
#[verifier::rlimit(100)]
#[verifier::spinoff_prover]
proof fn lemma_arr_items_ser(es: Seq<JVal>, acc: Seq<JVal>, s: Seq<char>, i: int)
    requires
        es.len() > 0,
        crate::codec::wf_elems(es),
        0 <= i,
        i + ser_elems(es).len() < s.len(),
        forall|m: int| 0 <= m < ser_elems(es).len() ==> s[i + m] == #[trigger] ser_elems(es)[m],
        s[i + ser_elems(es).len()] == ']',
    ensures
        sp_arr_item(s, i, acc) == Some((acc + es, i + ser_elems(es).len() + 1)),
    decreases es, 2int, 0int,
{
    let e0 = es[0];
    assert(wf_val(e0) && crate::codec::wf_elems(es.drop_first())) by {
        assert(crate::codec::wf_elems(es));
    }
    lemma_elems_head_first(es);
    let l0 = ser_val(e0).len() as int;
    assert(forall|m: int| 0 <= m < l0 ==> s[i + m] == #[trigger] ser_val(e0)[m]);
    if es.len() == 1 {
        assert(s[i + l0] == ']');
        lemma_val_ser(e0, s, i);
        assert(step_to(s, i, i + l0) == i + l0) by {
            lemma_ser_first(e0);
        }
        assert(sp_arr_rest(s, i + l0, acc.push(e0)) == Some((acc.push(e0), i + l0 + 1)));
        assert(acc.push(e0) =~= acc + es);
    } else {
        assert(s[i + l0] == ',');
        lemma_val_ser(e0, s, i);
        assert(step_to(s, i, i + l0) == i + l0) by {
            lemma_ser_first(e0);
        }
        let rest = es.drop_first();
        assert(decreases_to!(es => rest)) by {
            assert(rest == es.subrange(1, es.len() as int));
        }
        assert(forall|m: int|
            0 <= m < ser_elems(rest).len() ==> s[i + l0 + 1 + m] == #[trigger] ser_elems(
                rest,
            )[m]) by {
            assert(forall|m: int|
                0 <= m < ser_elems(rest).len() ==> ser_elems(es)[l0 + 1 + m]
                    == #[trigger] ser_elems(rest)[m]);
        }
        lemma_arr_items_ser(rest, acc.push(e0), s, i + l0 + 1);
        assert(sp_arr_rest(s, i + l0, acc.push(e0)) == sp_arr_item(s, i + l0 + 1, acc.push(e0)));
        assert(acc.push(e0) + rest =~= acc + es);
    }
}

/// No key among the remaining fields is already bound in the accumulator.
proof fn lemma_no_key_after_push(
    acc: Seq<(Seq<char>, JVal)>,
    k: Seq<char>,
    x: JVal,
    k2: Seq<char>,
)
    requires
        find_key(acc, k2) == -1,
        k2 != k,
    ensures
        find_key(acc.push((k, x)), k2) == -1,
{
    crate::parse::lemma_find_key_char(acc, k2);
    crate::parse::lemma_find_key_char(acc.push((k, x)), k2);
    let r = find_key(acc.push((k, x)), k2);
    if r != -1 {
        assert(acc.push((k, x))[r].0 == k2);
        if r < acc.len() {
            assert(acc[r].0 == k2);
        }
    }
}

/// Parsing the serialized fields of a nonempty object, field by field, up
/// to the closing brace. Keys already bound never reappear, so each parsed
/// field extends the object.
#[verifier::rlimit(100)]
#[verifier::spinoff_prover]
proof fn lemma_obj_items_ser(
    fs: Seq<(Seq<char>, JVal)>,
    acc: Seq<(Seq<char>, JVal)>,
    s: Seq<char>,
    i: int,
)
    requires
        fs.len() > 0,
        crate::codec::wf_fields(fs),
        crate::codec::keys_unique(fs),
        forall|w: int| 0 <= w < fs.len() ==> find_key(acc, (#[trigger] fs[w]).0) == -1,
        0 <= i,
        i + ser_fields(fs).len() < s.len(),
        forall|m: int| 0 <= m < ser_fields(fs).len() ==> s[i + m] == #[trigger] ser_fields(fs)[m],
        s[i + ser_fields(fs).len()] == '}',
    ensures
        sp_obj_item(s, i, acc) == Some((acc + fs, i + ser_fields(fs).len() + 1)),
    decreases fs, 2int, 0int,
{
    let k0 = fs[0].0;
    let v0 = fs[0].1;
    assert(wf_val(v0) && crate::codec::wf_fields(fs.drop_first())) by {
        assert(crate::codec::wf_fields(fs));
    }
    lemma_fields_head_first(fs);
    lemma_ser_first(v0);
    let f0 = crate::codec::ser_field(fs[0]);
    let fl = f0.len() as int;
    assert(!is_ws('"') && !is_ws(':') && !is_ws(',') && !is_ws('}'));
    assert(forall|m: int| 0 <= m < fl ==> s[i + m] == #[trigger] f0[m]);
    // the field text: quoted key, colon, value
    let kl = esc(k0).len() as int;
    assert(f0 == seq!['"'] + esc(k0) + seq!['"', ':'] + ser_val(v0));
    assert(s[i] == '"');
    assert(forall|m: int| 0 <= m < kl ==> s[i + 1 + m] == #[trigger] esc(k0)[m]) by {
        assert(forall|m: int| 0 <= m < kl ==> f0[1 + m] == #[trigger] esc(k0)[m]);
    }
    assert(s[i + 1 + kl] == '"') by {
        assert(f0[1 + kl] == '"');
    }
    lemma_str_body_ser(k0, s, i + 1);
    assert(sp_str_body(s, i + 1) == Some((k0, i + kl + 2)));
    assert(step_to(s, i, i + kl + 2) == i + kl + 2);
    assert(s[i + kl + 2] == ':') by {
        assert(f0[kl + 2] == ':');
    }
    // the value follows the colon
    let vi = i + kl + 3;
    let vl = ser_val(v0).len() as int;
    assert(forall|m: int| 0 <= m < vl ==> s[vi + m] == #[trigger] ser_val(v0)[m]) by {
        assert(forall|m: int| 0 <= m < vl ==> f0[kl + 3 + m] == #[trigger] ser_val(v0)[m]);
    }
    assert(fl == kl + 3 + vl);
    if fs.len() == 1 {
        assert(s[vi + vl] == '}');
        lemma_val_ser(v0, s, vi);
        assert(step_to(s, vi, vi + vl) == vi + vl) by {
            lemma_ser_first(v0);
        }
        assert(find_key(acc, k0) == -1);
        assert(obj_put(acc, k0, v0) == acc.push((k0, v0)));
        assert(sp_obj_rest(s, vi + vl, acc.push((k0, v0))) == Some(
            (acc.push((k0, v0)), vi + vl + 1),
        ));
        assert(acc.push((k0, v0)) =~= acc + fs) by {
            assert(fs[0] == (k0, v0));
        }
        assert(sp_obj_val(s, vi, k0, acc) == Some((acc + fs, vi + vl + 1)));
        assert(sp_obj_colon(s, i + kl + 2, k0, acc) == Some((acc + fs, vi + vl + 1)));
        assert(sp_obj_item(s, i, acc) == Some((acc + fs, i + fl + 1)));
    } else {
        assert(s[vi + vl] == ',') by {
            assert(ser_fields(fs)[fl] == ',');
        }
        lemma_val_ser(v0, s, vi);
        assert(step_to(s, vi, vi + vl) == vi + vl) by {
            lemma_ser_first(v0);
        }
        assert(find_key(acc, k0) == -1);
        assert(obj_put(acc, k0, v0) == acc.push((k0, v0)));
        let rest = fs.drop_first();
        assert(decreases_to!(fs => rest)) by {
            assert(rest == fs.subrange(1, fs.len() as int));
        }
        assert(crate::codec::keys_unique(rest)) by {
            assert(forall|a: int, b: int|
                0 <= a < b < rest.len() ==> (#[trigger] rest[a]).0 != (#[trigger] rest[b]).0)
                by {
                assert(forall|a: int, b: int|
                    0 <= a < b < rest.len() ==> rest[a] == fs[a + 1] && rest[b] == fs[b + 1]);
            }
        }
        assert forall|w: int| 0 <= w < rest.len() implies find_key(
            acc.push((k0, v0)),
            (#[trigger] rest[w]).0,
        ) == -1 by {
            assert(rest[w] == fs[w + 1]);
            assert(find_key(acc, fs[w + 1].0) == -1);
            assert(fs[w + 1].0 != k0) by {
                assert(crate::codec::keys_unique(fs));
                assert((fs[0]).0 != (fs[w + 1]).0);
            }
            lemma_no_key_after_push(acc, k0, v0, fs[w + 1].0);
        }
        assert(forall|m: int|
            0 <= m < ser_fields(rest).len() ==> s[i + fl + 1 + m] == #[trigger] ser_fields(
                rest,
            )[m]) by {
            assert(forall|m: int|
                0 <= m < ser_fields(rest).len() ==> ser_fields(fs)[fl + 1 + m]
                    == #[trigger] ser_fields(rest)[m]);
        }
        lemma_obj_items_ser(rest, acc.push((k0, v0)), s, i + fl + 1);
        assert(sp_obj_rest(s, vi + vl, acc.push((k0, v0))) == sp_obj_item(s, i + fl + 1,
            acc.push((k0, v0))));
        assert(acc.push((k0, v0)) + rest =~= acc + fs);
        assert(sp_obj_val(s, vi, k0, acc) == Some(
            (acc + fs, i + ser_fields(fs).len() + 1),
        ));
        assert(sp_obj_colon(s, i + kl + 2, k0, acc) == Some(
            (acc + fs, i + ser_fields(fs).len() + 1),
        ));
        assert(sp_obj_item(s, i, acc) == Some((acc + fs, i + ser_fields(fs).len() + 1)));
    }
}

/// A scanned number token, taken out of its text, scans as a whole token.
proof fn lemma_scan_number_token(s: Seq<char>, i: int, j: int)
    requires
        0 <= i,
        scan_number(s, i) == Some(j),
    ensures
        i < j <= s.len(),
        scan_number(s.subrange(i, j), 0) == Some(j - i),
{
    let a = if 0 <= i && i < s.len() && s[i] == '-' {
        i + 1
    } else {
        i
    };
    assert(scan_int(s, a) is Some);
    let b = scan_int(s, a)->0;
    assert(scan_frac(s, b) is Some);
    let c = scan_frac(s, b)->0;
    assert(scan_exp(s, c) == Some(j));
    crate::codec::lemma_scan_digits_char(s, a + 1);
    assert(a < b <= s.len()) by {
        if s[a] == '0' {
        } else {
            crate::codec::lemma_scan_digits_char(s, a + 1);
        }
    }
    assert(b <= c <= s.len()) by {
        if b < s.len() && s[b] == '.' {
            crate::codec::lemma_scan_digits_char(s, b + 2);
        }
    }
    assert(c <= j <= s.len()) by {
        if c < s.len() && (s[c] == 'e' || s[c] == 'E') {
            let m0 = if c + 1 < s.len() && (s[c + 1] == '+' || s[c + 1] == '-') {
                c + 2
            } else {
                c + 1
            };
            if m0 < s.len() && is_digit(s[m0]) {
                crate::codec::lemma_scan_digits_char(s, m0 + 1);
            }
        }
    }
    let t = s.subrange(i, j);
    assert(forall|m: int| 0 <= m < j - i ==> #[trigger] t[m] == s[i + m]);
    let ta = if 0 <= 0 && 0 < t.len() && t[0] == '-' {
        1int
    } else {
        0int
    };
    assert(ta == a - i) by {
        if i < s.len() && s[i] == '-' {
            assert(t[0] == '-');
        } else {
            if t.len() > 0 {
                assert(t[0] == s[i]);
            }
        }
    }
    assert(scan_int(t, a - i) == Some(b - i)) by {
        if s[a] == '0' {
            assert(t[a - i] == '0');
        } else {
            assert(is_digit(s[a]));
            assert(t[a - i] == s[a]);
            crate::codec::lemma_scan_digits_char(s, a + 1);
            lemma_scan_digits_det(t, a + 1 - i, b - i);
        }
    }
    assert(scan_frac(t, b - i) == Some(c - i)) by {
        if b < s.len() && s[b] == '.' {
            assert(b + 1 < s.len() && is_digit(s[b + 1])) by {
                if !(b + 1 < s.len() && is_digit(s[b + 1])) {
                    assert(scan_frac(s, b) is None);
                }
            }
            assert(c >= b + 2) by {
                crate::codec::lemma_scan_digits_char(s, b + 2);
            }
            assert(b - i < t.len() && t[b - i] == '.');
            assert(t[b + 1 - i] == s[b + 1]);
            crate::codec::lemma_scan_digits_char(s, b + 2);
            lemma_scan_digits_det(t, b + 2 - i, c - i);
        } else {
            if b - i < t.len() {
                assert(t[b - i] == s[b]);
            }
        }
    }
    assert(scan_exp(t, c - i) == Some(j - i)) by {
        if c < s.len() && (s[c] == 'e' || s[c] == 'E') {
            let m0 = if c + 1 < s.len() && (s[c + 1] == '+' || s[c + 1] == '-') {
                c + 2
            } else {
                c + 1
            };
            assert(m0 < s.len() && is_digit(s[m0])) by {
                if !(m0 < s.len() && is_digit(s[m0])) {
                    assert(scan_exp(s, c) is None);
                }
            }
            assert(j >= m0 + 1) by {
                crate::codec::lemma_scan_digits_char(s, m0 + 1);
            }
            assert(c - i < t.len() && t[c - i] == s[c]);
            let tm0 = if c - i + 1 < t.len() && (t[c - i + 1] == '+' || t[c - i + 1] == '-') {
                c - i + 2
            } else {
                c - i + 1
            };
            assert(tm0 == m0 - i) by {
                if c + 1 < j {
                    assert(t[c + 1 - i] == s[c + 1]);
                } else {
                    assert(m0 == c + 1);
                }
            }
            assert(t[m0 - i] == s[m0]);
            crate::codec::lemma_scan_digits_char(s, m0 + 1);
            lemma_scan_digits_det(t, m0 + 1 - i, j - i);
        } else {
            if c - i < t.len() {
                assert(t[c - i] == s[c]);
            }
        }
    }
}

/// The codec round trip: serializing a well-formed tree and parsing the
/// text back yields exactly the original tree. Together with the fact that
/// every parsed tree is serialized this way, two texts mean the same
/// document exactly when they parse to equal trees.
pub proof fn lemma_round_trip(v: JVal)
    requires
        wf_val(v),
    ensures
        parse_text(ser_val(v)) == Some(v),
{
    let s = ser_val(v);
    lemma_val_ser(v, s, 0);
    assert(ws_to_end(s, s.len() as int));
}

/// Appending a well-formed element keeps an element list well-formed.
proof fn lemma_wf_elems_push(a: Seq<JVal>, x: JVal)
    requires
        crate::codec::wf_elems(a),
        wf_val(x),
    ensures
        crate::codec::wf_elems(a.push(x)),
    decreases a.len(),
{
    reveal_with_fuel(crate::codec::wf_elems, 3);
    if a.len() == 0 {
        assert(a.push(x).drop_first() =~= Seq::<JVal>::empty());
    } else {
        assert(a.push(x).drop_first() =~= a.drop_first().push(x));
        lemma_wf_elems_push(a.drop_first(), x);
    }
}

/// Appending a well-formed field keeps a field list well-formed.
proof fn lemma_wf_fields_push(m: Seq<(Seq<char>, JVal)>, k: Seq<char>, x: JVal)
    requires
        crate::codec::wf_fields(m),
        wf_val(x),
    ensures
        crate::codec::wf_fields(m.push((k, x))),
    decreases m.len(),
{
    reveal_with_fuel(crate::codec::wf_fields, 3);
    if m.len() == 0 {
        assert(m.push((k, x)).drop_first() =~= Seq::<(Seq<char>, JVal)>::empty());
    } else {
        assert(m.push((k, x)).drop_first() =~= m.drop_first().push((k, x)));
        lemma_wf_fields_push(m.drop_first(), k, x);
    }
}

/// Updating one field to a well-formed value keeps a field list well-formed.
proof fn lemma_wf_fields_update(m: Seq<(Seq<char>, JVal)>, idx: int, k: Seq<char>, x: JVal)
    requires
        crate::codec::wf_fields(m),
        wf_val(x),
        0 <= idx < m.len(),
    ensures
        crate::codec::wf_fields(m.update(idx, (k, x))),
    decreases m.len(),
{
    if idx == 0 {
        assert(m.update(idx, (k, x)).drop_first() =~= m.drop_first());
    } else {
        assert(m.update(idx, (k, x)).drop_first() =~= m.drop_first().update(idx - 1, (k, x)));
        lemma_wf_fields_update(m.drop_first(), idx - 1, k, x);
    }
}

/// Binding a key to a well-formed value keeps an object well-formed.
proof fn lemma_obj_put_wf(acc: Seq<(Seq<char>, JVal)>, k: Seq<char>, x: JVal)
    requires
        crate::codec::keys_unique(acc),
        crate::codec::wf_fields(acc),
        wf_val(x),
    ensures
        crate::codec::keys_unique(obj_put(acc, k, x)),
        crate::codec::wf_fields(obj_put(acc, k, x)),
{
    lemma_find_key_char(acc, k);
    let idx = find_key(acc, k);
    if idx < 0 {
        lemma_wf_fields_push(acc, k, x);
        let r = acc.push((k, x));
        assert forall|a: int, b: int| 0 <= a < b < r.len() implies (#[trigger] r[a]).0 != (
        #[trigger] r[b]).0 by {
            if b < acc.len() {
                assert(acc[a].0 != acc[b].0);
            } else {
                assert(r[b].0 == k);
                assert(acc[a].0 != k);
            }
        }
    } else {
        assert(acc[idx].0 == k);
        lemma_wf_fields_update(acc, idx, k, x);
        let r = acc.update(idx, (k, x));
        assert forall|a: int, b: int| 0 <= a < b < r.len() implies (#[trigger] r[a]).0 != (
        #[trigger] r[b]).0 by {
            assert(r[a].0 == acc[a].0 && r[b].0 == acc[b].0);
            assert(acc[a].0 != acc[b].0);
        }
    }
}

/// Every tree the parser yields is well-formed: integers in range, kept
/// number literals genuine tokens, object keys unique.
pub proof fn lemma_parse_wf_val(s: Seq<char>, i: int)
    ensures
        sp_val(s, i) matches Some(r) ==> wf_val(r.0),
    decreases s.len() - i, 0int,
{
    if 0 <= i && i < s.len() {
        if is_ws(s[i]) {
            lemma_parse_wf_val(s, i + 1);
        } else if s[i] == '-' || is_digit(s[i]) {
            if scan_number(s, i) is Some {
                let j = scan_number(s, i)->0;
                lemma_scan_number_token(s, i, j);
            }
        } else if s[i] == '[' {
            lemma_parse_wf_arr_first(s, i + 1);
        } else if s[i] == '{' {
            lemma_parse_wf_obj_first(s, i + 1);
        }
    }
}

proof fn lemma_parse_wf_arr_first(s: Seq<char>, i: int)
    ensures
        sp_arr_first(s, i) matches Some(r) ==> crate::codec::wf_elems(r.0),
    decreases s.len() - i, 2int,
{
    if 0 <= i && i < s.len() {
        if is_ws(s[i]) {
            lemma_parse_wf_arr_first(s, i + 1);
        } else if s[i] == ']' {
        } else {
            lemma_parse_wf_arr_item(s, i, Seq::empty());
        }
    }
}

proof fn lemma_parse_wf_arr_item(s: Seq<char>, i: int, acc: Seq<JVal>)
    requires
        crate::codec::wf_elems(acc),
    ensures
        sp_arr_item(s, i, acc) matches Some(r) ==> crate::codec::wf_elems(r.0),
    decreases s.len() - i, 1int,
{
    if 0 <= i && i < s.len() {
        lemma_parse_wf_val(s, i);
        if sp_val(s, i) is Some {
            let (v, j) = sp_val(s, i)->Some_0;
            lemma_wf_elems_push(acc, v);
            lemma_parse_wf_arr_rest(s, step_to(s, i, j), acc.push(v));
        }
    }
}

proof fn lemma_parse_wf_arr_rest(s: Seq<char>, i: int, acc: Seq<JVal>)
    requires
        crate::codec::wf_elems(acc),
    ensures
        sp_arr_rest(s, i, acc) matches Some(r) ==> crate::codec::wf_elems(r.0),
    decreases s.len() - i, 2int,
{
    if 0 <= i && i < s.len() {
        if is_ws(s[i]) {
            lemma_parse_wf_arr_rest(s, i + 1, acc);
        } else if s[i] == ',' {
            lemma_parse_wf_arr_item(s, i + 1, acc);
        }
    }
}

proof fn lemma_parse_wf_obj_first(s: Seq<char>, i: int)
    ensures
        sp_obj_first(s, i) matches Some(r) ==> crate::codec::wf_fields(r.0)
            && crate::codec::keys_unique(r.0),
    decreases s.len() - i, 3int,
{
    if 0 <= i && i < s.len() {
        if is_ws(s[i]) {
            lemma_parse_wf_obj_first(s, i + 1);
        } else if s[i] == '}' {
        } else {
            lemma_parse_wf_obj_item(s, i, Seq::empty());
        }
    }
}

proof fn lemma_parse_wf_obj_item(s: Seq<char>, i: int, acc: Seq<(Seq<char>, JVal)>)
    requires
        crate::codec::wf_fields(acc),
        crate::codec::keys_unique(acc),
    ensures
        sp_obj_item(s, i, acc) matches Some(r) ==> crate::codec::wf_fields(r.0)
            && crate::codec::keys_unique(r.0),
    decreases s.len() - i, 2int,
{
    if 0 <= i && i < s.len() {
        if is_ws(s[i]) {
            lemma_parse_wf_obj_item(s, i + 1, acc);
        } else if s[i] == '"' {
            if sp_str_body(s, i + 1) is Some {
                let (k, j) = sp_str_body(s, i + 1)->Some_0;
                lemma_parse_wf_obj_colon(s, step_to(s, i, j), k, acc);
            }
        }
    }
}

proof fn lemma_parse_wf_obj_colon(s: Seq<char>, i: int, k: Seq<char>, acc: Seq<(Seq<char>, JVal)>)
    requires
        crate::codec::wf_fields(acc),
        crate::codec::keys_unique(acc),
    ensures
        sp_obj_colon(s, i, k, acc) matches Some(r) ==> crate::codec::wf_fields(r.0)
            && crate::codec::keys_unique(r.0),
    decreases s.len() - i, 2int,
{
    if 0 <= i && i < s.len() {
        if is_ws(s[i]) {
            lemma_parse_wf_obj_colon(s, i + 1, k, acc);
        } else if s[i] == ':' {
            lemma_parse_wf_obj_val(s, i + 1, k, acc);
        }
    }
}

proof fn lemma_parse_wf_obj_val(s: Seq<char>, i: int, k: Seq<char>, acc: Seq<(Seq<char>, JVal)>)
    requires
        crate::codec::wf_fields(acc),
        crate::codec::keys_unique(acc),
    ensures
        sp_obj_val(s, i, k, acc) matches Some(r) ==> crate::codec::wf_fields(r.0)
            && crate::codec::keys_unique(r.0),
    decreases s.len() - i, 1int,
{
    if 0 <= i && i < s.len() {
        lemma_parse_wf_val(s, i);
        if sp_val(s, i) is Some {
            let (v, j) = sp_val(s, i)->Some_0;
            lemma_obj_put_wf(acc, k, v);
            lemma_parse_wf_obj_rest(s, step_to(s, i, j), obj_put(acc, k, v));
        }
    }
}

proof fn lemma_parse_wf_obj_rest(s: Seq<char>, i: int, acc: Seq<(Seq<char>, JVal)>)
    requires
        crate::codec::wf_fields(acc),
        crate::codec::keys_unique(acc),
    ensures
        sp_obj_rest(s, i, acc) matches Some(r) ==> crate::codec::wf_fields(r.0)
            && crate::codec::keys_unique(r.0),
    decreases s.len() - i, 3int,
{
    if 0 <= i && i < s.len() {
        if is_ws(s[i]) {
            lemma_parse_wf_obj_rest(s, i + 1, acc);
        } else if s[i] == ',' {
            lemma_parse_wf_obj_item(s, i + 1, acc);
        }
    }
}

/// Any text parses either to nothing, or to a well-formed tree — and in
/// that case, serializing the tree yields a text that parses back to it:
/// the parsed meaning survives a serialization round trip unchanged.
pub proof fn lemma_parse_serialize_round_trip(t: Seq<char>, v: JVal)
    requires
        parse_text(t) == Some(v),
    ensures
        wf_val(v),
        parse_text(ser_val(v)) == Some(v),
{
    lemma_parse_wf_val(t, 0);
    lemma_round_trip(v);
}

} // verus!
