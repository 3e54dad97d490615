use vstd::prelude::*;

verus! {

use crate::codec::{is_digit, scan_digits, digits_val};
use crate::parse::step_to;
use crate::strings::str_to_chars;

// ---------------------------------------------------------------------------
// The path language
// ---------------------------------------------------------------------------
// A canonical path is `$` followed by any number of steps:
//   .name          a named child (the name runs to the next `.`, `[`, `]`
//                  or `*`, and must be nonempty)
//   ['name']       a named child, quoted with `'` or `"`, no escapes
//   [digits]       an array index
//   .* or [*]      every child of an object or array
//   ..name         recursive descent to a named child
// Nothing else is in the language: filter selectors and a descent combined
// with a wildcard are not supported, and such expressions are malformed.

/// One step of a canonical path expression: a named child, an array index,
/// a wildcard over all children, or a recursive descent to a named child.
pub enum Seg {
    Key(String),
    Index(usize),
    Wild,
    DescKey(String),
}

/// The model of a path step.
pub enum SegV {
    Key(Seq<char>),
    Index(int),
    Wild,
    DescKey(Seq<char>),
}

impl View for Seg {
    type V = SegV;

    open spec fn view(&self) -> SegV {
        match self {
            Seg::Key(k) => SegV::Key(k@),
            Seg::Index(n) => SegV::Index(*n as int),
            Seg::Wild => SegV::Wild,
            Seg::DescKey(k) => SegV::DescKey(k@),
        }
    }
}

/// The models of a segment list, in order.
pub open spec fn seg_models(a: Seq<Seg>) -> Seq<SegV> {
    a.map_values(|g: Seg| g@)
}

/// The first index at or after `i` where a bare name ends: at `.`, `[`, `]`,
/// `*`, or the end of the text.
pub open spec fn name_end(s: Seq<char>, i: int) -> int
    decreases s.len() - i,
{
    if 0 <= i && i < s.len() && s[i] != '.' && s[i] != '[' && s[i] != ']' && s[i] != '*' {
        name_end(s, i + 1)
    } else {
        i
    }
}

/// The index of the closing quote at or after `i`, or `-1` if there is none.
pub open spec fn quote_end(s: Seq<char>, i: int, q: char) -> int
    decreases s.len() - i,
{
    if 0 <= i && i < s.len() {
        if s[i] == q {
            i
        } else {
            quote_end(s, i + 1, q)
        }
    } else {
        -1
    }
}

/// The segments of a canonical path from index `i` on: dot names, `..`
/// descent names, `.*` or `[*]` wildcards, `[digits]` indexes and quoted
/// bracket names. `None` when the expression is malformed. A descent
/// combined with a wildcard is not part of the language.
pub open spec fn sp_segs(s: Seq<char>, i: int) -> Option<Seq<SegV>>
    decreases s.len() - i,
{
    if i == s.len() {
        Some(Seq::empty())
    } else if !(0 <= i && i < s.len()) {
        None
    } else if s[i] == '.' {
        if i + 1 < s.len() && s[i + 1] == '.' {
            // recursive descent: ..name
            let e = name_end(s, i + 2);
            if e == i + 2 {
                None
            } else {
                match sp_segs(s, step_to(s, i, e)) {
                    None => None,
                    Some(rest) => Some(seq![SegV::DescKey(s.subrange(i + 2, e))] + rest),
                }
            }
        } else if i + 1 < s.len() && s[i + 1] == '*' {
            match sp_segs(s, i + 2) {
                None => None,
                Some(rest) => Some(seq![SegV::Wild] + rest),
            }
        } else {
            let e = name_end(s, i + 1);
            if e == i + 1 {
                None
            } else {
                match sp_segs(s, step_to(s, i, e)) {
                    None => None,
                    Some(rest) => Some(seq![SegV::Key(s.subrange(i + 1, e))] + rest),
                }
            }
        }
    } else if s[i] == '[' {
        if i + 2 < s.len() && s[i + 1] == '*' && s[i + 2] == ']' {
            match sp_segs(s, i + 3) {
                None => None,
                Some(rest) => Some(seq![SegV::Wild] + rest),
            }
        } else if i + 1 < s.len() && (s[i + 1] == '\'' || s[i + 1] == '"') {
            let q = s[i + 1];
            let e = quote_end(s, i + 2, q);
            if e < 0 || !(e + 1 < s.len()) || s[e + 1] != ']' {
                None
            } else {
                match sp_segs(s, step_to(s, i, e + 2)) {
                    None => None,
                    Some(rest) => Some(seq![SegV::Key(s.subrange(i + 2, e))] + rest),
                }
            }
        } else {
            let e = scan_digits(s, i + 1);
            if e == i + 1 || !(e < s.len()) || s[e] != ']' {
                None
            } else if digits_val(s.subrange(i + 1, e)) > usize::MAX as nat {
                None
            } else {
                match sp_segs(s, step_to(s, i, e + 1)) {
                    None => None,
                    Some(rest) => Some(
                        seq![SegV::Index(digits_val(s.subrange(i + 1, e)) as int)] + rest,
                    ),
                }
            }
        }
    } else {
        None
    }
}

/// The segment list a canonical path denotes: it must begin with `$`.
pub open spec fn path_model(s: Seq<char>) -> Option<Seq<SegV>> {
    if s.len() > 0 && s[0] == '$' {
        sp_segs(s, 1)
    } else {
        None
    }
}

/// Composes parsed segments with the rest of a path.
pub open spec fn join_segs(acc: Seq<SegV>, r: Option<Seq<SegV>>) -> Option<Seq<SegV>> {
    match r {
        None => None,
        Some(rest) => Some(acc + rest),
    }
}

/// Finds the end of a bare name.
fn e_name_end(s: &Vec<char>, i: usize) -> (r: usize)
    requires
        i <= s.len(),
    ensures
        r as int == name_end(s@, i as int),
        i <= r && r <= s.len(),
{
    let mut j: usize = i;
    loop
        invariant
            i <= j && j <= s.len(),
            name_end(s@, i as int) == name_end(s@, j as int),
        ensures
            i <= j && j <= s.len(),
            name_end(s@, i as int) == j as int,
        decreases s.len() - j,
    {
        if j == s.len() {
            break ;
        }
        let c = s[j];
        if c == '.' || c == '[' || c == ']' || c == '*' {
            break ;
        }
        j += 1;
    }
    j
}

/// Finds the closing quote.
fn e_quote_end(s: &Vec<char>, i: usize, q: char) -> (r: Option<usize>)
    requires
        i <= s.len(),
    ensures
        match r {
            Some(e) => quote_end(s@, i as int, q) == e as int && i <= e && e < s.len(),
            None => quote_end(s@, i as int, q) == -1,
        },
{
    let mut j: usize = i;
    loop
        invariant
            i <= j && j <= s.len(),
            quote_end(s@, i as int, q) == quote_end(s@, j as int, q),
        ensures
            i <= j && j <= s.len(),
            quote_end(s@, i as int, q) == (if j < s.len() {
                j as int
            } else {
                -1
            }),
        decreases s.len() - j,
    {
        if j == s.len() {
            break ;
        }
        if s[j] == q {
            break ;
        }
        j += 1;
    }
    if j < s.len() {
        Some(j)
    } else {
        None
    }
}

/// Copies the characters of `s` between `a` and `b` into a fresh string.
fn copy_range(s: &Vec<char>, a: usize, b: usize) -> (r: String)
    requires
        a <= b && b <= s.len(),
    ensures
        r@ == s@.subrange(a as int, b as int),
{
    let mut out = String::new();
    let mut k: usize = a;
    while k < b
        invariant
            a <= k && k <= b && b <= s.len(),
            out@ == s@.subrange(a as int, k as int),
        decreases b - k,
    {
        out.push(s[k]);
        proof {
            assert(out@ =~= s@.subrange(a as int, k as int + 1));
        }
        k += 1;
    }
    out
}

/// Parses a canonical path expression into its segments; `None` exactly when
/// the expression is malformed.
pub fn parse_path(s: &str) -> (r: Option<Vec<Seg>>)
    ensures
        match r {
            Some(v) => path_model(s@) == Some(seg_models(v@)),
            None => path_model(s@) is None,
        },
{
    let cs = str_to_chars(s);
    if cs.len() == 0 {
        return None;
    }
    if cs[0] != '$' {
        return None;
    }
    let mut acc: Vec<Seg> = Vec::new();
    let mut i: usize = 1;
    proof {
        assert(seg_models(acc@) =~= Seq::<SegV>::empty());
        assert(join_segs(seg_models(acc@), sp_segs(cs@, 1)) == sp_segs(cs@, 1));
    }
    loop
        invariant
            1 <= i && i <= cs.len(),
            cs@ == s@,
            cs@.len() > 0 && cs@[0] == '$',
            sp_segs(cs@, 1) == join_segs(seg_models(acc@), sp_segs(cs@, i as int)),
        ensures
            sp_segs(cs@, 1) == Some(seg_models(acc@)),
        decreases cs.len() - i,
    {
        if i == cs.len() {
            proof {
                assert(sp_segs(cs@, i as int) == Some(Seq::<SegV>::empty()));
                assert(seg_models(acc@) + Seq::<SegV>::empty() =~= seg_models(acc@));
            }
            break ;
        }
        let c = cs[i];
        let seg: Seg;
        let nxt: usize;
        if c == '.' {
            if i + 1 < cs.len() && cs[i + 1] == '.' {
                let e = e_name_end(&cs, i + 2);
                if e == i + 2 {
                    return None;
                }
                seg = Seg::DescKey(copy_range(&cs, i + 2, e));
                nxt = e;
            } else if i + 1 < cs.len() && cs[i + 1] == '*' {
                seg = Seg::Wild;
                nxt = i + 2;
            } else {
                let e = e_name_end(&cs, i + 1);
                if e == i + 1 {
                    return None;
                }
                seg = Seg::Key(copy_range(&cs, i + 1, e));
                nxt = e;
            }
        } else if c == '[' {
            if cs.len() - i > 2 && cs[i + 1] == '*' && cs[i + 2] == ']' {
                seg = Seg::Wild;
                nxt = i + 3;
            } else if i + 1 < cs.len() && (cs[i + 1] == '\'' || cs[i + 1] == '"') {
                let q = cs[i + 1];
                match e_quote_end(&cs, i + 2, q) {
                    None => {
                        return None;
                    },
                    Some(e) => {
                        if e + 1 < cs.len() && cs[e + 1] == ']' {
                            seg = Seg::Key(copy_range(&cs, i + 2, e));
                            nxt = e + 2;
                        } else {
                            return None;
                        }
                    },
                }
            } else {
                let e = crate::parse::e_scan_digits(&cs, i + 1);
                if e == i + 1 {
                    return None;
                }
                if !(e < cs.len()) {
                    return None;
                }
                if cs[e] != ']' {
                    return None;
                }
                let ghost dseq = cs@.subrange(i as int + 1, e as int);
                let mut av: u128 = 0;
                let mut ovf: bool = false;
                let mut k: usize = i + 1;
                proof {
                    crate::codec::lemma_scan_digits_char(cs@, i as int + 1);
                }
                while k < e
                    invariant
                        i + 1 <= k && k <= e && e <= cs.len(),
                        dseq == cs@.subrange(i as int + 1, e as int),
                        forall|w: int|
                            i + 1 <= w < e ==> is_digit(#[trigger] cs@[w]),
                        !ovf ==> av as nat == digits_val(
                            cs@.subrange(i as int + 1, k as int),
                        ) && av <= usize::MAX as u128,
                        ovf ==> digits_val(cs@.subrange(i as int + 1, k as int))
                            > usize::MAX as nat,
                    decreases e - k,
                {
                    let d: u128 = (cs[k] as u32 - 48) as u128;
                    proof {
                        assert(is_digit(cs@[k as int]));
                        assert(cs@.subrange(i as int + 1, k as int + 1).drop_last()
                            =~= cs@.subrange(i as int + 1, k as int));
                        assert(cs@.subrange(i as int + 1, k as int + 1).last() == cs@[k as int]);
                    }
                    if !ovf {
                        let nv: u128 = av * 10 + d;
                        if nv > usize::MAX as u128 {
                            ovf = true;
                        } else {
                            av = nv;
                        }
                    }
                    k += 1;
                }
                if ovf {
                    proof {
                        assert(digits_val(dseq) > usize::MAX as nat);
                    }
                    return None;
                }
                seg = Seg::Index(av as usize);
                nxt = e + 1;
            }
        } else {
            return None;
        }
        proof {
            assert(seg_models(acc@.push(seg)) =~= seg_models(acc@).push(seg@));
            if sp_segs(cs@, nxt as int) is Some {
                let rest = sp_segs(cs@, nxt as int)->Some_0;
                assert(seg_models(acc@) + (seq![seg@] + rest) =~= seg_models(acc@).push(seg@)
                    + rest);
            }
        }
        acc.push(seg);
        i = nxt;
    }
    Some(acc)
}

} // verus!
