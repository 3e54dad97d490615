use vstd::prelude::*;

pub mod strings;
pub mod value;
pub mod codec;
pub mod parse;
pub mod path;
pub mod ops;
pub mod engine;
pub mod redisjson;

verus! {

/// When a `set` takes effect: only if the key is new, only if it already
/// exists, or unconditionally.
#[derive(Debug, PartialEq, Eq, Structural, Clone, Copy)]
pub enum SetOptions {
    NotExists,
    AlreadyExists,
    Always,
}

/// How a legacy path string is rewritten to canonical, root-anchored form:
/// `"."` becomes `"$"`, a leading `"."` gets `"$"` prepended, a path already
/// starting with `"$"` is kept, and anything else gets `"$."` prepended.
pub open spec fn canonical_path(p: Seq<char>) -> Seq<char> {
    if p.len() > 0 && p[0] == '$' {
        p
    } else if p == seq!['.'] {
        seq!['$']
    } else if p.len() > 0 && p[0] == '.' {
        seq!['$'] + p
    } else {
        seq!['$', '.'] + p
    }
}

/// Normalizing is idempotent: a path already in canonical, root-anchored
/// form — which is what normalizing always produces — is left unchanged.
pub proof fn lemma_canonical_idempotent(p: Seq<char>)
    ensures
        canonical_path(canonical_path(p)) == canonical_path(p),
{
    let c = canonical_path(p);
    assert(c.len() > 0 && c[0] == '$');
}

/// Rewrites a legacy path to canonical form; accepts any string.
pub fn backward_path(path: String) -> (r: String)
    ensures
        r@ == canonical_path(path@),
{
    let s = path.as_str();
    if s.unicode_len() > 0 && s.get_char(0) == '$' {
        path
    } else if s.unicode_len() == 1 && s.get_char(0) == '.' {
        let mut r = String::new();
        r.push('$');
        proof {
            assert(path@ =~= seq!['.']);
            assert(r@ =~= seq!['$']);
        }
        r
    } else if s.unicode_len() > 0 && s.get_char(0) == '.' {
        let mut r = String::new();
        r.push('$');
        r.push_str(s);
        proof {
            assert(r@ =~= seq!['$'] + path@);
        }
        r
    } else {
        let mut r = String::new();
        r.push('$');
        r.push('.');
        r.push_str(s);
        proof {
            assert(r@ =~= seq!['$', '.'] + path@);
        }
        r
    }
}

} // verus!
