use vstd::prelude::*;

verus! {

use crate::value::{JVal, Value};
use crate::path::{Seg, SegV, seg_models};
use crate::parse::find_key;
use crate::ops::{
    ValueOp, OpV, OpOut, OutV, ErrKind, apply_op_model, apply_op, clone_value, op_wf,
    lemma_apply_op_wf, lemma_wf_elems_iff, lemma_wf_fields_iff,
};
use crate::codec::{wf_val, wf_elems, wf_fields, keys_unique};

// ---------------------------------------------------------------------------
// Selection (specification)
// ---------------------------------------------------------------------------
// A path selects an ordered list of nodes, in document order. A recursive
// descent selector matches the shallowest occurrences of its key: what lies
// inside a matched node is not searched again — unlike evaluators that also
// report occurrences nested inside a match — so that selection, rewriting
// and deletion provably visit exactly the same nodes.

/// The nodes the path segments from `si` on select inside `v`, in document
/// order.
pub open spec fn sel(v: JVal, segs: Seq<SegV>, si: int) -> Seq<JVal>
    decreases v, 3int, 0int,
    via sel_dec
{
    if !(0 <= si && si < segs.len()) {
        seq![v]
    } else {
        match segs[si] {
            SegV::Key(k) => match v {
                JVal::Obj(m) => {
                    let idx = find_key(m, k);
                    if idx >= 0 {
                        sel(m[idx].1, segs, si + 1)
                    } else {
                        Seq::empty()
                    }
                },
                _ => Seq::empty(),
            },
            SegV::Index(n) => match v {
                JVal::Arr(a) => if 0 <= n && n < a.len() {
                    sel(a[n], segs, si + 1)
                } else {
                    Seq::empty()
                },
                _ => Seq::empty(),
            },
            SegV::Wild => match v {
                JVal::Obj(m) => sel_vals(m, 0, segs, si + 1),
                JVal::Arr(a) => sel_elems(a, 0, segs, si + 1),
                _ => Seq::empty(),
            },
            SegV::DescKey(k) => desc_key(v, k, segs, si),
        }
    }
}

/// Termination of selection at a child reached through a key or an index.
proof fn sel_step_dec(v: JVal) {
    match v {
        JVal::Obj(m) => {
            assert(decreases_to!(v => v->Obj_0));
            assert forall|idx: int| 0 <= idx < m.len() implies decreases_to!(v => (#[trigger]
            m[idx]).1) by {
                assert(decreases_to!(m => m[idx]));
                assert(decreases_to!(m[idx] => m[idx].1));
            }
        },
        JVal::Arr(a) => {
            assert(decreases_to!(v => v->Arr_0));
            assert forall|n: int| 0 <= n < a.len() implies decreases_to!(v => #[trigger] a[n])
                by {
                assert(decreases_to!(a => a[n]));
            }
        },
        _ => {},
    }
}

#[via_fn]
proof fn sel_dec(v: JVal, segs: Seq<SegV>, si: int) {
    sel_step_dec(v);
    if 0 <= si && si < segs.len() {
        match segs[si] {
            SegV::Key(k) => {
                if v is Obj {
                    crate::parse::lemma_find_key_char(v->Obj_0, k);
                }
            },
            _ => {},
        }
    }
}

#[via_fn]
proof fn rep_dec(v: JVal, segs: Seq<SegV>, si: int, op: OpV) {
    sel_step_dec(v);
    if 0 <= si && si < segs.len() {
        match segs[si] {
            SegV::Key(k) => {
                if v is Obj {
                    crate::parse::lemma_find_key_char(v->Obj_0, k);
                }
            },
            _ => {},
        }
    }
}

/// Selection continued through every element of an array, from `from` on.
pub open spec fn sel_elems(a: Seq<JVal>, from: int, segs: Seq<SegV>, si: int) -> Seq<JVal>
    decreases a, 2int, a.len() - from,
{
    if !(0 <= from && from < a.len()) {
        Seq::empty()
    } else {
        sel(a[from], segs, si) + sel_elems(a, from + 1, segs, si)
    }
}

/// Selection continued through every field value of an object.
pub open spec fn sel_vals(m: Seq<(Seq<char>, JVal)>, from: int, segs: Seq<SegV>, si: int) -> Seq<
    JVal,
>
    decreases m, 2int, m.len() - from,
{
    if !(0 <= from && from < m.len()) {
        Seq::empty()
    } else {
        sel(m[from].1, segs, si) + sel_vals(m, from + 1, segs, si)
    }
}

/// Recursive descent: inside `v`, every shallowest field named `k` continues
/// with the remaining segments.
pub open spec fn desc_key(v: JVal, k: Seq<char>, segs: Seq<SegV>, si: int) -> Seq<JVal>
    decreases v, 2int, 0int,
{
    match v {
        JVal::Obj(m) => desc_fields(m, 0, k, segs, si),
        JVal::Arr(a) => desc_elems(a, 0, k, segs, si),
        _ => Seq::empty(),
    }
}

/// Descent through an object's fields: a field named `k` is a match and is
/// not searched inside; any other field is searched.
pub open spec fn desc_fields(
    m: Seq<(Seq<char>, JVal)>,
    from: int,
    k: Seq<char>,
    segs: Seq<SegV>,
    si: int,
) -> Seq<JVal>
    decreases m, 1int, m.len() - from,
{
    if !(0 <= from && from < m.len()) {
        Seq::empty()
    } else {
        (if m[from].0 == k {
            sel(m[from].1, segs, si + 1)
        } else {
            desc_key(m[from].1, k, segs, si)
        }) + desc_fields(m, from + 1, k, segs, si)
    }
}

/// Descent through an array's elements.
pub open spec fn desc_elems(a: Seq<JVal>, from: int, k: Seq<char>, segs: Seq<SegV>, si: int) -> Seq<
    JVal,
>
    decreases a, 1int, a.len() - from,
{
    if !(0 <= from && from < a.len()) {
        Seq::empty()
    } else {
        desc_key(a[from], k, segs, si) + desc_elems(a, from + 1, k, segs, si)
    }
}

// ---------------------------------------------------------------------------
// Rewriting (specification)
// ---------------------------------------------------------------------------
// Rewriting rebuilds the tree: every node the path selects is replaced by
// what the operation makes of it; a node on which the operation fails keeps
// its value and the failure is collected. The outcome list is in document
// order, one entry per selected node, and rewriting never aborts early.

/// The rebuilt tree and the per-match outcomes of applying `op` at every
/// node the segments from `si` on select inside `v`.
pub open spec fn rep(v: JVal, segs: Seq<SegV>, si: int, op: OpV) -> (JVal, Seq<
    Result<OutV, ErrKind>,
>)
    decreases v, 3int, 0int,
    via rep_dec
{
    if !(0 <= si && si < segs.len()) {
        match apply_op_model(op, v) {
            Ok((nv, out)) => (nv, seq![Ok(out)]),
            Err(e) => (v, seq![Err(e)]),
        }
    } else {
        match segs[si] {
            SegV::Key(k) => match v {
                JVal::Obj(m) => {
                    let idx = find_key(m, k);
                    if idx >= 0 {
                        let r = rep(m[idx].1, segs, si + 1, op);
                        (JVal::Obj(m.update(idx, (m[idx].0, r.0))), r.1)
                    } else {
                        (v, Seq::empty())
                    }
                },
                _ => (v, Seq::empty()),
            },
            SegV::Index(n) => match v {
                JVal::Arr(a) => if 0 <= n && n < a.len() {
                    let r = rep(a[n], segs, si + 1, op);
                    (JVal::Arr(a.update(n, r.0)), r.1)
                } else {
                    (v, Seq::empty())
                },
                _ => (v, Seq::empty()),
            },
            SegV::Wild => match v {
                JVal::Obj(m) => {
                    let r = rep_vals(m, 0, segs, si + 1, op);
                    (JVal::Obj(r.0), r.1)
                },
                JVal::Arr(a) => {
                    let r = rep_elems(a, 0, segs, si + 1, op);
                    (JVal::Arr(r.0), r.1)
                },
                _ => (v, Seq::empty()),
            },
            SegV::DescKey(k) => rep_desc(v, k, segs, si, op),
        }
    }
}

/// Rewriting continued through the elements of an array from `from` on;
/// elements before `from` are kept.
pub open spec fn rep_elems(a: Seq<JVal>, from: int, segs: Seq<SegV>, si: int, op: OpV) -> (Seq<
    JVal,
>, Seq<Result<OutV, ErrKind>>)
    decreases a, 2int, a.len() - from,
{
    if !(0 <= from && from < a.len()) {
        (a, Seq::empty())
    } else {
        let h = rep(a[from], segs, si, op);
        let r = rep_elems(a, from + 1, segs, si, op);
        (r.0.update(from, h.0), h.1 + r.1)
    }
}

/// Rewriting continued through the field values of an object.
pub open spec fn rep_vals(
    m: Seq<(Seq<char>, JVal)>,
    from: int,
    segs: Seq<SegV>,
    si: int,
    op: OpV,
) -> (Seq<(Seq<char>, JVal)>, Seq<Result<OutV, ErrKind>>)
    decreases m, 2int, m.len() - from,
{
    if !(0 <= from && from < m.len()) {
        (m, Seq::empty())
    } else {
        let h = rep(m[from].1, segs, si, op);
        let r = rep_vals(m, from + 1, segs, si, op);
        (r.0.update(from, (m[from].0, h.0)), h.1 + r.1)
    }
}

/// Recursive descent rewriting.
pub open spec fn rep_desc(v: JVal, k: Seq<char>, segs: Seq<SegV>, si: int, op: OpV) -> (JVal, Seq<
    Result<OutV, ErrKind>,
>)
    decreases v, 2int, 0int,
{
    match v {
        JVal::Obj(m) => {
            let r = rep_desc_fields(m, 0, k, segs, si, op);
            (JVal::Obj(r.0), r.1)
        },
        JVal::Arr(a) => {
            let r = rep_desc_elems(a, 0, k, segs, si, op);
            (JVal::Arr(r.0), r.1)
        },
        _ => (v, Seq::empty()),
    }
}

/// Descent rewriting through an object's fields.
pub open spec fn rep_desc_fields(
    m: Seq<(Seq<char>, JVal)>,
    from: int,
    k: Seq<char>,
    segs: Seq<SegV>,
    si: int,
    op: OpV,
) -> (Seq<(Seq<char>, JVal)>, Seq<Result<OutV, ErrKind>>)
    decreases m, 1int, m.len() - from,
{
    if !(0 <= from && from < m.len()) {
        (m, Seq::empty())
    } else {
        let h = if m[from].0 == k {
            rep(m[from].1, segs, si + 1, op)
        } else {
            rep_desc(m[from].1, k, segs, si, op)
        };
        let r = rep_desc_fields(m, from + 1, k, segs, si, op);
        (r.0.update(from, (m[from].0, h.0)), h.1 + r.1)
    }
}

/// Descent rewriting through an array's elements.
pub open spec fn rep_desc_elems(
    a: Seq<JVal>,
    from: int,
    k: Seq<char>,
    segs: Seq<SegV>,
    si: int,
    op: OpV,
) -> (Seq<JVal>, Seq<Result<OutV, ErrKind>>)
    decreases a, 1int, a.len() - from,
{
    if !(0 <= from && from < a.len()) {
        (a, Seq::empty())
    } else {
        let h = rep_desc(a[from], k, segs, si, op);
        let r = rep_desc_elems(a, from + 1, k, segs, si, op);
        (r.0.update(from, h.0), h.1 + r.1)
    }
}

/// The models of an outcome list.
pub open spec fn outs_models(o: Seq<Result<OpOut, ErrKind>>) -> Seq<Result<OutV, ErrKind>> {
    o.map_values(
        |x: Result<OpOut, ErrKind>|
            match x {
                Ok(u) => Ok(u@),
                Err(e) => Err::<OutV, ErrKind>(e),
            },
    )
}

// ---------------------------------------------------------------------------
// Executable engine
// ---------------------------------------------------------------------------

/// Finds the first field with the given key.
fn field_index(m: &Vec<(String, Value)>, k: &String) -> (r: Option<usize>)
    ensures
        match r {
            Some(w) => find_key(Value::model_fields(m@), k@) == w as int && w < m.len(),
            None => find_key(Value::model_fields(m@), k@) == -1,
        },
{
    let n = m.len();
    let mut w: usize = 0;
    loop
        invariant
            w <= n && n == m.len(),
            forall|u: int| 0 <= u < w ==> (#[trigger] m@[u]).0@ != k@,
        ensures
            w <= n && n == m.len(),
            forall|u: int| 0 <= u < w ==> (#[trigger] m@[u]).0@ != k@,
            w < n ==> m@[w as int].0@ == k@,
        decreases n - w,
    {
        if w == n {
            break ;
        }
        if m[w].0 == *k {
            break ;
        }
        w += 1;
    }
    proof {
        let mf = Value::model_fields(m@);
        crate::codec::lemma_model_fields_len(m@);
        assert forall|u: int| 0 <= u < m@.len() implies (#[trigger] mf[u]).0 == m@[u].0@ by {
            crate::codec::lemma_model_fields_index(m@, u);
        }
        crate::parse::lemma_find_key_char(mf, k@);
        let r0 = find_key(mf, k@);
        if w < n {
            assert(mf[w as int].0 == k@);
            if r0 == -1 {
            } else if r0 < w as int {
                assert(m@[r0].0@ != k@);
                assert(mf[r0].0 == k@);
            } else if r0 > w as int {
                assert(mf[w as int].0 != k@);
            }
            assert(r0 == w as int);
        } else {
            if r0 != -1 {
                assert(mf[r0].0 == k@);
                assert(m@[r0].0@ != k@);
            }
            assert(r0 == -1);
        }
    }
    if w < n {
        Some(w)
    } else {
        None
    }
}

/// Appends clones of every node the segments from `si` on select inside `v`.
fn sel_into(v: &Value, segs: &Vec<Seg>, si: usize, out: &mut Vec<Value>)
    requires
        si <= segs.len(),
    ensures
        Value::model_elems(final(out)@) == Value::model_elems(old(out)@) + sel(
            v@,
            seg_models(segs@),
            si as int,
        ),
    decreases v, 3int, 0int,
{
    let ghost sm = seg_models(segs@);
    let ghost out0 = out@;
    if si >= segs.len() {
        let c = clone_value(v);
        let ghost before = out@;
        out.push(c);
        proof {
            crate::codec::lemma_model_elems_push(before, out@[out@.len() - 1]);
            assert(Value::model_elems(out@) =~= Value::model_elems(out0) + sel(
                v@,
                sm,
                si as int,
            ));
        }
        return ;
    }
    proof {
        assert(sm[si as int] == segs@[si as int]@);
    }
    match &segs[si] {
        Seg::Key(k) => {
            match v {
                Value::Obj(m) => {
                    match field_index(m, k) {
                        Some(w) => {
                            proof {
                                crate::codec::lemma_model_fields_index(m@, w as int);
                                assert(decreases_to!(*v => v->Obj_0));
                                assert(decreases_to!(m@ => m@[w as int]));
                                assert(decreases_to!(m@[w as int] => m@[w as int].1));
                            }
                            sel_into(&m[w].1, segs, si + 1, out);
                        },
                        None => {
                            proof {
                                assert(sel(v@, sm, si as int) =~= Seq::<JVal>::empty());
                                assert(Value::model_elems(out@) =~= Value::model_elems(out0)
                                    + sel(v@, sm, si as int));
                            }
                        },
                    }
                },
                _ => {
                    proof {
                        assert(Value::model_elems(out@) =~= Value::model_elems(out0) + sel(
                            v@,
                            sm,
                            si as int,
                        ));
                    }
                },
            }
        },
        Seg::Index(n) => {
            match v {
                Value::Arr(a) => {
                    if *n < a.len() {
                        proof {
                            crate::codec::lemma_model_elems_index(a@, *n as int);
                            crate::codec::lemma_model_elems_len(a@);
                            assert(decreases_to!(*v => v->Arr_0));
                            assert(decreases_to!(a@ => a@[*n as int]));
                        }
                        sel_into(&a[*n], segs, si + 1, out);
                    } else {
                        proof {
                            crate::codec::lemma_model_elems_len(a@);
                            assert(Value::model_elems(out@) =~= Value::model_elems(out0) + sel(
                                v@,
                                sm,
                                si as int,
                            ));
                        }
                    }
                },
                _ => {
                    proof {
                        assert(Value::model_elems(out@) =~= Value::model_elems(out0) + sel(
                            v@,
                            sm,
                            si as int,
                        ));
                    }
                },
            }
        },
        Seg::Wild => {
            match v {
                Value::Obj(m) => {
                    let n = m.len();
                    let mut k2: usize = 0;
                    proof {
                        crate::codec::lemma_model_fields_len(m@);
                    }
                    while k2 < n
                        invariant
                            v is Obj && m == v->Obj_0,
                            si + 1 <= segs.len(),
                            sm == seg_models(segs@),
                            k2 <= n && n == m.len(),
                            Value::model_elems(out@) + sel_vals(
                                Value::model_fields(m@),
                                k2 as int,
                                sm,
                                si + 1,
                            ) == Value::model_elems(out0) + sel_vals(
                                Value::model_fields(m@),
                                0,
                                sm,
                                si + 1,
                            ),
                        decreases n - k2,
                    {
                        proof {
                            crate::codec::lemma_model_fields_len(m@);
                            crate::codec::lemma_model_fields_index(m@, k2 as int);
                            assert(decreases_to!(*v => v->Obj_0));
                            assert(decreases_to!(m@ => m@[k2 as int]));
                            assert(decreases_to!(m@[k2 as int] => m@[k2 as int].1));
                        }
                        let ghost outb = out@;
                        sel_into(&m[k2].1, segs, si + 1, out);
                        proof {
                            let mf = Value::model_fields(m@);
                            assert(sel_vals(mf, k2 as int, sm, si + 1) == sel(
                                mf[k2 as int].1,
                                sm,
                                si + 1,
                            ) + sel_vals(mf, k2 as int + 1, sm, si + 1));
                            assert(Value::model_elems(out@) + sel_vals(mf, k2 as int + 1, sm, si
                                + 1) =~= Value::model_elems(outb) + (sel(mf[k2 as int].1, sm, si
                                + 1) + sel_vals(mf, k2 as int + 1, sm, si + 1)));
                            assert(Value::model_elems(outb) + (sel(mf[k2 as int].1, sm, si + 1)
                                + sel_vals(mf, k2 as int + 1, sm, si + 1)) =~= Value::model_elems(
                                outb,
                            ) + sel_vals(mf, k2 as int, sm, si + 1));
                        }
                        k2 += 1;
                    }
                    proof {
                        let mf = Value::model_fields(m@);
                        crate::codec::lemma_model_fields_len(m@);
                        assert(sel_vals(mf, n as int, sm, si + 1) =~= Seq::<JVal>::empty());
                        assert(Value::model_elems(out@) + Seq::<JVal>::empty()
                            =~= Value::model_elems(out@));
                        assert(Value::model_elems(out@) =~= Value::model_elems(out0) + sel(
                            v@,
                            sm,
                            si as int,
                        ));
                    }
                },
                Value::Arr(a) => {
                    let n = a.len();
                    let mut k2: usize = 0;
                    proof {
                        crate::codec::lemma_model_elems_len(a@);
                    }
                    while k2 < n
                        invariant
                            v is Arr && a == v->Arr_0,
                            si + 1 <= segs.len(),
                            sm == seg_models(segs@),
                            k2 <= n && n == a.len(),
                            Value::model_elems(out@) + sel_elems(
                                Value::model_elems(a@),
                                k2 as int,
                                sm,
                                si + 1,
                            ) == Value::model_elems(out0) + sel_elems(
                                Value::model_elems(a@),
                                0,
                                sm,
                                si + 1,
                            ),
                        decreases n - k2,
                    {
                        proof {
                            crate::codec::lemma_model_elems_len(a@);
                            crate::codec::lemma_model_elems_index(a@, k2 as int);
                            assert(decreases_to!(*v => v->Arr_0));
                            assert(decreases_to!(a@ => a@[k2 as int]));
                        }
                        let ghost outb = out@;
                        sel_into(&a[k2], segs, si + 1, out);
                        proof {
                            let am = Value::model_elems(a@);
                            assert(sel_elems(am, k2 as int, sm, si + 1) == sel(
                                am[k2 as int],
                                sm,
                                si + 1,
                            ) + sel_elems(am, k2 as int + 1, sm, si + 1));
                            assert(Value::model_elems(out@) + sel_elems(am, k2 as int + 1, sm, si
                                + 1) =~= Value::model_elems(outb) + (sel(am[k2 as int], sm, si + 1)
                                + sel_elems(am, k2 as int + 1, sm, si + 1)));
                            assert(Value::model_elems(outb) + (sel(am[k2 as int], sm, si + 1)
                                + sel_elems(am, k2 as int + 1, sm, si + 1)) =~= Value::model_elems(
                                outb,
                            ) + sel_elems(am, k2 as int, sm, si + 1));
                        }
                        k2 += 1;
                    }
                    proof {
                        let am = Value::model_elems(a@);
                        crate::codec::lemma_model_elems_len(a@);
                        assert(sel_elems(am, n as int, sm, si + 1) =~= Seq::<JVal>::empty());
                        assert(Value::model_elems(out@) + Seq::<JVal>::empty()
                            =~= Value::model_elems(out@));
                        assert(Value::model_elems(out@) =~= Value::model_elems(out0) + sel(
                            v@,
                            sm,
                            si as int,
                        ));
                    }
                },
                _ => {
                    proof {
                        assert(Value::model_elems(out@) =~= Value::model_elems(out0) + sel(
                            v@,
                            sm,
                            si as int,
                        ));
                    }
                },
            }
        },
        Seg::DescKey(k) => {
            desc_into(v, k, segs, si, out);
        },
    }
}

/// Appends clones of every shallowest descendant field named `k` (continued
/// with the remaining segments) inside `v`.
fn desc_into(v: &Value, k: &String, segs: &Vec<Seg>, si: usize, out: &mut Vec<Value>)
    requires
        si < segs.len(),
    ensures
        Value::model_elems(final(out)@) == Value::model_elems(old(out)@) + desc_key(
            v@,
            k@,
            seg_models(segs@),
            si as int,
        ),
    decreases v, 2int, 0int,
{
    let ghost sm = seg_models(segs@);
    let ghost out0 = out@;
    match v {
        Value::Obj(m) => {
            let n = m.len();
            let mut k2: usize = 0;
            proof {
                crate::codec::lemma_model_fields_len(m@);
            }
            while k2 < n
                invariant
                    v is Obj && m == v->Obj_0,
                    si < segs.len(),
                    sm == seg_models(segs@),
                    k2 <= n && n == m.len(),
                    Value::model_elems(out@) + desc_fields(
                        Value::model_fields(m@),
                        k2 as int,
                        k@,
                        sm,
                        si as int,
                    ) == Value::model_elems(out0) + desc_fields(
                        Value::model_fields(m@),
                        0,
                        k@,
                        sm,
                        si as int,
                    ),
                decreases n - k2,
            {
                proof {
                    crate::codec::lemma_model_fields_len(m@);
                    crate::codec::lemma_model_fields_index(m@, k2 as int);
                    assert(decreases_to!(*v => v->Obj_0));
                    assert(decreases_to!(m@ => m@[k2 as int]));
                    assert(decreases_to!(m@[k2 as int] => m@[k2 as int].1));
                }
                let ghost outb = out@;
                let ghost mf = Value::model_fields(m@);
                if m[k2].0 == *k {
                    sel_into(&m[k2].1, segs, si + 1, out);
                    proof {
                        assert(mf[k2 as int].0 == k@);
                        assert(desc_fields(mf, k2 as int, k@, sm, si as int) == sel(
                            mf[k2 as int].1,
                            sm,
                            si + 1,
                        ) + desc_fields(mf, k2 as int + 1, k@, sm, si as int));
                    }
                } else {
                    desc_into(&m[k2].1, k, segs, si, out);
                    proof {
                        assert(mf[k2 as int].0 != k@);
                        assert(desc_fields(mf, k2 as int, k@, sm, si as int) == desc_key(
                            mf[k2 as int].1,
                            k@,
                            sm,
                            si as int,
                        ) + desc_fields(mf, k2 as int + 1, k@, sm, si as int));
                    }
                }
                proof {
                    let h = if mf[k2 as int].0 == k@ {
                        sel(mf[k2 as int].1, sm, si + 1)
                    } else {
                        desc_key(mf[k2 as int].1, k@, sm, si as int)
                    };
                    assert(Value::model_elems(out@) + desc_fields(mf, k2 as int + 1, k@, sm,
                        si as int) =~= Value::model_elems(outb) + (h + desc_fields(mf, k2 as int
                        + 1, k@, sm, si as int)));
                    assert(Value::model_elems(outb) + (h + desc_fields(mf, k2 as int + 1, k@, sm,
                        si as int)) =~= Value::model_elems(outb) + desc_fields(mf, k2 as int, k@,
                        sm, si as int));
                }
                k2 += 1;
            }
            proof {
                let mf = Value::model_fields(m@);
                crate::codec::lemma_model_fields_len(m@);
                assert(desc_fields(mf, n as int, k@, sm, si as int) =~= Seq::<JVal>::empty());
                assert(Value::model_elems(out@) + Seq::<JVal>::empty() =~= Value::model_elems(
                    out@,
                ));
                assert(Value::model_elems(out@) =~= Value::model_elems(out0) + desc_key(
                    v@,
                    k@,
                    sm,
                    si as int,
                ));
            }
        },
        Value::Arr(a) => {
            let n = a.len();
            let mut k2: usize = 0;
            proof {
                crate::codec::lemma_model_elems_len(a@);
            }
            while k2 < n
                invariant
                    v is Arr && a == v->Arr_0,
                    si < segs.len(),
                    sm == seg_models(segs@),
                    k2 <= n && n == a.len(),
                    Value::model_elems(out@) + desc_elems(
                        Value::model_elems(a@),
                        k2 as int,
                        k@,
                        sm,
                        si as int,
                    ) == Value::model_elems(out0) + desc_elems(
                        Value::model_elems(a@),
                        0,
                        k@,
                        sm,
                        si as int,
                    ),
                decreases n - k2,
            {
                proof {
                    crate::codec::lemma_model_elems_len(a@);
                    crate::codec::lemma_model_elems_index(a@, k2 as int);
                    assert(decreases_to!(*v => v->Arr_0));
                    assert(decreases_to!(a@ => a@[k2 as int]));
                }
                let ghost outb = out@;
                desc_into(&a[k2], k, segs, si, out);
                proof {
                    let am = Value::model_elems(a@);
                    assert(desc_elems(am, k2 as int, k@, sm, si as int) == desc_key(
                        am[k2 as int],
                        k@,
                        sm,
                        si as int,
                    ) + desc_elems(am, k2 as int + 1, k@, sm, si as int));
                    assert(Value::model_elems(out@) + desc_elems(am, k2 as int + 1, k@, sm,
                        si as int) =~= Value::model_elems(outb) + (desc_key(am[k2 as int], k@, sm,
                        si as int) + desc_elems(am, k2 as int + 1, k@, sm, si as int)));
                    assert(Value::model_elems(outb) + (desc_key(am[k2 as int], k@, sm, si as int)
                        + desc_elems(am, k2 as int + 1, k@, sm, si as int)) =~= Value::model_elems(
                        outb,
                    ) + desc_elems(am, k2 as int, k@, sm, si as int));
                }
                k2 += 1;
            }
            proof {
                let am = Value::model_elems(a@);
                crate::codec::lemma_model_elems_len(a@);
                assert(desc_elems(am, n as int, k@, sm, si as int) =~= Seq::<JVal>::empty());
                assert(Value::model_elems(out@) + Seq::<JVal>::empty() =~= Value::model_elems(
                    out@,
                ));
                assert(Value::model_elems(out@) =~= Value::model_elems(out0) + desc_key(
                    v@,
                    k@,
                    sm,
                    si as int,
                ));
            }
        },
        _ => {
            proof {
                assert(Value::model_elems(out@) =~= Value::model_elems(out0) + desc_key(
                    v@,
                    k@,
                    sm,
                    si as int,
                ));
            }
        },
    }
}

/// Clones every node the path selects inside `v`, in document order.
pub fn select_all(v: &Value, segs: &Vec<Seg>) -> (r: Vec<Value>)
    ensures
        Value::model_elems(r@) == sel(v@, seg_models(segs@), 0),
{
    let mut out: Vec<Value> = Vec::new();
    proof {
        assert(Value::model_elems(out@) =~= Seq::<JVal>::empty());
    }
    sel_into(v, segs, 0, &mut out);
    proof {
        assert(Seq::<JVal>::empty() + sel(v@, seg_models(segs@), 0) =~= sel(
            v@,
            seg_models(segs@),
            0,
        ));
    }
    out
}

/// Rewriting an object's fields keeps the length and the fields before
/// `from`.
proof fn lemma_rep_vals_frame(
    m: Seq<(Seq<char>, JVal)>,
    from: int,
    segs: Seq<SegV>,
    si: int,
    op: OpV,
)
    ensures
        rep_vals(m, from, segs, si, op).0.len() == m.len(),
        forall|w: int|
            0 <= w < m.len() && !(from <= w) ==> rep_vals(m, from, segs, si, op).0[w] == m[w],
        forall|w: int|
            0 <= w < m.len() && 0 <= from <= w ==> rep_vals(m, from, segs, si, op).0[w] == (
            m[w].0,
            rep(m[w].1, segs, si, op).0,
            ),
    decreases m.len() - from,
{
    if 0 <= from && from < m.len() {
        lemma_rep_vals_frame(m, from + 1, segs, si, op);
    }
}

/// Rewriting an array's elements keeps the length and the elements before
/// `from`.
proof fn lemma_rep_elems_frame(a: Seq<JVal>, from: int, segs: Seq<SegV>, si: int, op: OpV)
    ensures
        rep_elems(a, from, segs, si, op).0.len() == a.len(),
        forall|w: int|
            0 <= w < a.len() && !(from <= w) ==> rep_elems(a, from, segs, si, op).0[w] == a[w],
        forall|w: int|
            0 <= w < a.len() && 0 <= from <= w ==> rep_elems(a, from, segs, si, op).0[w] == rep(
                a[w],
                segs,
                si,
                op,
            ).0,
    decreases a.len() - from,
{
    if 0 <= from && from < a.len() {
        lemma_rep_elems_frame(a, from + 1, segs, si, op);
    }
}

/// Descent rewriting keeps the field count and earlier fields.
proof fn lemma_rep_desc_fields_frame(
    m: Seq<(Seq<char>, JVal)>,
    from: int,
    k: Seq<char>,
    segs: Seq<SegV>,
    si: int,
    op: OpV,
)
    ensures
        rep_desc_fields(m, from, k, segs, si, op).0.len() == m.len(),
        forall|w: int|
            0 <= w < m.len() && !(from <= w) ==> rep_desc_fields(m, from, k, segs, si, op).0[w]
                == m[w],
        forall|w: int|
            0 <= w < m.len() && 0 <= from <= w ==> rep_desc_fields(m, from, k, segs, si, op).0[w] == (
            m[w].0,
            (if m[w].0 == k {
                rep(m[w].1, segs, si + 1, op)
            } else {
                rep_desc(m[w].1, k, segs, si, op)
            }).0,
            ),
    decreases m.len() - from,
{
    if 0 <= from && from < m.len() {
        lemma_rep_desc_fields_frame(m, from + 1, k, segs, si, op);
    }
}

/// Descent rewriting keeps the element count and earlier elements.
proof fn lemma_rep_desc_elems_frame(
    a: Seq<JVal>,
    from: int,
    k: Seq<char>,
    segs: Seq<SegV>,
    si: int,
    op: OpV,
)
    ensures
        rep_desc_elems(a, from, k, segs, si, op).0.len() == a.len(),
        forall|w: int|
            0 <= w < a.len() && !(from <= w) ==> rep_desc_elems(a, from, k, segs, si, op).0[w]
                == a[w],
        forall|w: int|
            0 <= w < a.len() && 0 <= from <= w ==> rep_desc_elems(a, from, k, segs, si, op).0[w]
                == rep_desc(a[w], k, segs, si, op).0,
    decreases a.len() - from,
{
    if 0 <= from && from < a.len() {
        lemma_rep_desc_elems_frame(a, from + 1, k, segs, si, op);
    }
}

/// Mapping outcome models distributes over appending.
proof fn lemma_outs_models_concat(a: Seq<Result<OpOut, ErrKind>>, b: Seq<Result<OpOut, ErrKind>>)
    ensures
        outs_models(a + b) == outs_models(a) + outs_models(b),
{
    assert(outs_models(a + b) =~= outs_models(a) + outs_models(b));
}

/// Rebuilds one matched object field, keeping the others.
fn rebuild_field(m: &Vec<(String, Value)>, w: usize, nv: Value) -> (r: Vec<(String, Value)>)
    requires
        w < m.len(),
    ensures
        Value::model_fields(r@) == Value::model_fields(m@).update(
            w as int,
            (Value::model_fields(m@)[w as int].0, nv@),
        ),
{
    let ghost nvm = nv.model();
    let n = m.len();
    let mut out: Vec<(String, Value)> = Vec::new();
    let mut k: usize = 0;
    while k < w
        invariant
            k <= w && w < n && n == m.len(),
            out@.len() == k,
            forall|u: int|
                0 <= u < k ==> (#[trigger] out@[u]).0@ == m@[u].0@ && out@[u].1@ == m@[u].1@,
        decreases w - k,
    {
        let c = crate::ops::clone_value(&m[k].1);
        let key = m[k].0.clone();
        out.push((key, c));
        k += 1;
    }
    let keyw = m[w].0.clone();
    out.push((keyw, nv));
    let mut k2: usize = w + 1;
    while k2 < n
        invariant
            w < k2 && k2 <= n && n == m.len(),
            out@.len() == k2,
            forall|u: int|
                0 <= u < n && u != w ==> u < k2 ==> (#[trigger] out@[u]).0@ == m@[u].0@
                    && out@[u].1@ == m@[u].1@,
            out@[w as int].0@ == m@[w as int].0@ && out@[w as int].1@ == nvm,
        decreases n - k2,
    {
        let c = crate::ops::clone_value(&m[k2].1);
        let key = m[k2].0.clone();
        out.push((key, c));
        k2 += 1;
    }
    proof {
        let mf = Value::model_fields(m@);
        crate::codec::lemma_model_fields_len(m@);
        crate::codec::lemma_model_fields_len(out@);
        assert forall|u: int| 0 <= u < n implies Value::model_fields(out@)[u] == mf.update(
            w as int,
            (mf[w as int].0, nvm),
        )[u] by {
            crate::codec::lemma_model_fields_index(out@, u);
            crate::codec::lemma_model_fields_index(m@, u);
        }
        assert(Value::model_fields(out@) =~= mf.update(w as int, (mf[w as int].0, nvm)));
    }
    out
}

/// Rebuilds one matched array element, keeping the others.
fn rebuild_elem(a: &Vec<Value>, w: usize, nv: Value) -> (r: Vec<Value>)
    requires
        w < a.len(),
    ensures
        Value::model_elems(r@) == Value::model_elems(a@).update(w as int, nv@),
{
    let ghost nvm = nv.model();
    let n = a.len();
    let mut out: Vec<Value> = Vec::new();
    let mut k: usize = 0;
    while k < w
        invariant
            k <= w && w < n && n == a.len(),
            out@.len() == k,
            forall|u: int| 0 <= u < k ==> (#[trigger] out@[u])@ == a@[u]@,
        decreases w - k,
    {
        let c = crate::ops::clone_value(&a[k]);
        out.push(c);
        k += 1;
    }
    out.push(nv);
    let mut k2: usize = w + 1;
    while k2 < n
        invariant
            w < k2 && k2 <= n && n == a.len(),
            out@.len() == k2,
            forall|u: int| 0 <= u < n && u != w ==> u < k2 ==> (#[trigger] out@[u])@ == a@[u]@,
            out@[w as int]@ == nvm,
        decreases n - k2,
    {
        let c = crate::ops::clone_value(&a[k2]);
        out.push(c);
        k2 += 1;
    }
    proof {
        let am = Value::model_elems(a@);
        crate::codec::lemma_model_elems_len(a@);
        crate::codec::lemma_model_elems_len(out@);
        assert forall|u: int| 0 <= u < n implies Value::model_elems(out@)[u] == am.update(
            w as int,
            nvm,
        )[u] by {
            crate::codec::lemma_model_elems_index(out@, u);
            crate::codec::lemma_model_elems_index(a@, u);
        }
        assert(Value::model_elems(out@) =~= am.update(w as int, nvm));
    }
    out
}

/// Rebuilds the tree with `op` applied at every node the path selects from
/// `si` on, collecting one outcome per match, in document order.
pub fn rep_val(v: &Value, segs: &Vec<Seg>, si: usize, op: &ValueOp) -> (r: (Value, Vec<
    Result<OpOut, ErrKind>,
>))
    requires
        si <= segs.len(),
    ensures
        (r.0@, outs_models(r.1@)) == rep(v@, seg_models(segs@), si as int, op@),
    decreases v, 3int, 0int,
{
    let ghost sm = seg_models(segs@);
    if si >= segs.len() {
        match apply_op(op, v) {
            Ok((nv, o)) => {
                let mut outs: Vec<Result<OpOut, ErrKind>> = Vec::new();
                outs.push(Ok(o));
                proof {
                    assert(outs_models(outs@) =~= seq![
                        Ok::<OutV, ErrKind>(outs@[0]->Ok_0@),
                    ]);
                }
                (nv, outs)
            },
            Err(e) => {
                let c = clone_value(v);
                let mut outs: Vec<Result<OpOut, ErrKind>> = Vec::new();
                outs.push(Err(e));
                proof {
                    assert(outs_models(outs@) =~= seq![Err::<OutV, ErrKind>(e)]);
                }
                (c, outs)
            },
        }
    } else {
        proof {
            assert(sm[si as int] == segs@[si as int]@);
        }
        match &segs[si] {
            Seg::Key(k) => {
                match v {
                    Value::Obj(m) => {
                        match field_index(m, k) {
                            Some(w) => {
                                proof {
                                    crate::codec::lemma_model_fields_index(m@, w as int);
                                    crate::codec::lemma_model_fields_len(m@);
                                    assert(decreases_to!(*v => v->Obj_0));
                                    assert(decreases_to!(m@ => m@[w as int]));
                                    assert(decreases_to!(m@[w as int] => m@[w as int].1));
                                }
                                let (nv, outs) = rep_val(&m[w].1, segs, si + 1, op);
                                let nf = rebuild_field(m, w, nv);
                                (Value::Obj(nf), outs)
                            },
                            None => {
                                let c = clone_value(v);
                                let outs: Vec<Result<OpOut, ErrKind>> = Vec::new();
                                proof {
                                    assert(outs_models(outs@) =~= Seq::<
                                        Result<OutV, ErrKind>,
                                    >::empty());
                                }
                                (c, outs)
                            },
                        }
                    },
                    _ => {
                        let c = clone_value(v);
                        let outs: Vec<Result<OpOut, ErrKind>> = Vec::new();
                        proof {
                            assert(outs_models(outs@) =~= Seq::<Result<OutV, ErrKind>>::empty());
                        }
                        (c, outs)
                    },
                }
            },
            Seg::Index(n) => {
                match v {
                    Value::Arr(a) => {
                        if *n < a.len() {
                            proof {
                                crate::codec::lemma_model_elems_index(a@, *n as int);
                                crate::codec::lemma_model_elems_len(a@);
                                assert(decreases_to!(*v => v->Arr_0));
                                assert(decreases_to!(a@ => a@[*n as int]));
                            }
                            let (nv, outs) = rep_val(&a[*n], segs, si + 1, op);
                            let na = rebuild_elem(a, *n, nv);
                            (Value::Arr(na), outs)
                        } else {
                            proof {
                                crate::codec::lemma_model_elems_len(a@);
                            }
                            let c = clone_value(v);
                            let outs: Vec<Result<OpOut, ErrKind>> = Vec::new();
                            proof {
                                assert(outs_models(outs@) =~= Seq::<
                                    Result<OutV, ErrKind>,
                                >::empty());
                            }
                            (c, outs)
                        }
                    },
                    _ => {
                        let c = clone_value(v);
                        let outs: Vec<Result<OpOut, ErrKind>> = Vec::new();
                        proof {
                            assert(outs_models(outs@) =~= Seq::<Result<OutV, ErrKind>>::empty());
                        }
                        (c, outs)
                    },
                }
            },
            Seg::Wild => {
                match v {
                    Value::Obj(m) => {
                        let n = m.len();
                        let mut nf: Vec<(String, Value)> = Vec::new();
                        let mut outs: Vec<Result<OpOut, ErrKind>> = Vec::new();
                        let mut k2: usize = 0;
                        proof {
                            crate::codec::lemma_model_fields_len(m@);
                            lemma_rep_vals_frame(Value::model_fields(m@), 0, sm, si + 1, op@);
                        }
                        while k2 < n
                            invariant
                                v is Obj && m == v->Obj_0,
                                si + 1 <= segs.len(),
                                sm == seg_models(segs@),
                                k2 <= n && n == m.len(),
                                nf@.len() == k2,
                                Value::model_fields(m@).len() == n,
                                Value::model_fields(nf@) =~= rep_vals(
                                    Value::model_fields(m@),
                                    0,
                                    sm,
                                    si + 1,
                                    op@,
                                ).0.subrange(0, k2 as int),
                                outs_models(outs@) + rep_vals(
                                    Value::model_fields(m@),
                                    k2 as int,
                                    sm,
                                    si + 1,
                                    op@,
                                ).1 == rep_vals(Value::model_fields(m@), 0, sm, si + 1, op@).1,
                            decreases n - k2,
                        {
                            proof {
                                crate::codec::lemma_model_fields_len(m@);
                                crate::codec::lemma_model_fields_index(m@, k2 as int);
                                assert(decreases_to!(*v => v->Obj_0));
                                assert(decreases_to!(m@ => m@[k2 as int]));
                                assert(decreases_to!(m@[k2 as int] => m@[k2 as int].1));
                            }
                            let (nv, mut o) = rep_val(&m[k2].1, segs, si + 1, op);
                            let key = m[k2].0.clone();
                            let ghost nfb = nf@;
                            let ghost outsb = outs@;
                            let ghost ob = o@;
                            nf.push((key, nv));
                            outs.append(&mut o);
                            proof {
                                let mf = Value::model_fields(m@);
                                let full = rep_vals(mf, 0, sm, si + 1, op@);
                                let here = rep_vals(mf, k2 as int, sm, si + 1, op@);
                                let next = rep_vals(mf, k2 as int + 1, sm, si + 1, op@);
                                let h = rep(mf[k2 as int].1, sm, si + 1, op@);
                                lemma_rep_vals_frame(mf, 0, sm, si + 1, op@);
                                lemma_rep_vals_frame(mf, k2 as int, sm, si + 1, op@);
                                lemma_rep_vals_frame(mf, k2 as int + 1, sm, si + 1, op@);
                                crate::codec::lemma_model_fields_push(nfb, nf@[k2 as int].0,
                                    nf@[k2 as int].1);
                                assert(nf@[k2 as int].0@ == mf[k2 as int].0);
                                assert(nf@[k2 as int].1@ == h.0);
                                // the rebuilt prefix grows by exactly this field
                                assert(here.0 == next.0.update(k2 as int, (mf[k2 as int].0, h.0)));
                                assert forall|u: int| 0 <= u < k2 as int + 1 implies
                                    Value::model_fields(nf@)[u] == full.0.subrange(
                                    0,
                                    k2 as int + 1,
                                )[u] by {
                                    crate::codec::lemma_model_fields_index(nf@, u);
                                    if u < k2 as int {
                                        crate::codec::lemma_model_fields_index(nfb, u);
                                        assert(Value::model_fields(nfb)[u] == full.0.subrange(
                                            0,
                                            k2 as int,
                                        )[u]);
                                    } else {
                                        // full keeps what step k2 built at index k2
                                        lemma_rep_vals_suffix(mf, 0, k2 as int, sm, si + 1, op@);
                                    }
                                }
                                assert(Value::model_fields(nf@) =~= full.0.subrange(
                                    0,
                                    k2 as int + 1,
                                ));
                                lemma_outs_models_concat(outsb, ob);
                                assert(outs_models(outs@) =~= outs_models(outsb) + h.1);
                                assert(here.1 == h.1 + next.1);
                                assert(outs_models(outsb) + (h.1 + next.1) =~= (outs_models(
                                    outsb,
                                ) + h.1) + next.1);
                            }
                            k2 += 1;
                        }
                        proof {
                            let mf = Value::model_fields(m@);
                            let full = rep_vals(mf, 0, sm, si + 1, op@);
                            lemma_rep_vals_frame(mf, 0, sm, si + 1, op@);
                            assert(full.0.subrange(0, n as int) =~= full.0);
                            assert(rep_vals(mf, n as int, sm, si + 1, op@).1 =~= Seq::<
                                Result<OutV, ErrKind>,
                            >::empty());
                            assert(outs_models(outs@) + Seq::<Result<OutV, ErrKind>>::empty()
                                =~= outs_models(outs@));
                        }
                        (Value::Obj(nf), outs)
                    },
                    Value::Arr(a) => {
                        let n = a.len();
                        let mut na: Vec<Value> = Vec::new();
                        let mut outs: Vec<Result<OpOut, ErrKind>> = Vec::new();
                        let mut k2: usize = 0;
                        proof {
                            crate::codec::lemma_model_elems_len(a@);
                            lemma_rep_elems_frame(Value::model_elems(a@), 0, sm, si + 1, op@);
                        }
                        while k2 < n
                            invariant
                                v is Arr && a == v->Arr_0,
                                si + 1 <= segs.len(),
                                sm == seg_models(segs@),
                                k2 <= n && n == a.len(),
                                na@.len() == k2,
                                Value::model_elems(a@).len() == n,
                                Value::model_elems(na@) =~= rep_elems(
                                    Value::model_elems(a@),
                                    0,
                                    sm,
                                    si + 1,
                                    op@,
                                ).0.subrange(0, k2 as int),
                                outs_models(outs@) + rep_elems(
                                    Value::model_elems(a@),
                                    k2 as int,
                                    sm,
                                    si + 1,
                                    op@,
                                ).1 == rep_elems(Value::model_elems(a@), 0, sm, si + 1, op@).1,
                            decreases n - k2,
                        {
                            proof {
                                crate::codec::lemma_model_elems_len(a@);
                                crate::codec::lemma_model_elems_index(a@, k2 as int);
                                assert(decreases_to!(*v => v->Arr_0));
                                assert(decreases_to!(a@ => a@[k2 as int]));
                            }
                            let (nv, mut o) = rep_val(&a[k2], segs, si + 1, op);
                            let ghost nab = na@;
                            let ghost outsb = outs@;
                            let ghost ob = o@;
                            na.push(nv);
                            outs.append(&mut o);
                            proof {
                                let am = Value::model_elems(a@);
                                let full = rep_elems(am, 0, sm, si + 1, op@);
                                let here = rep_elems(am, k2 as int, sm, si + 1, op@);
                                let next = rep_elems(am, k2 as int + 1, sm, si + 1, op@);
                                let h = rep(am[k2 as int], sm, si + 1, op@);
                                lemma_rep_elems_frame(am, 0, sm, si + 1, op@);
                                lemma_rep_elems_frame(am, k2 as int, sm, si + 1, op@);
                                lemma_rep_elems_frame(am, k2 as int + 1, sm, si + 1, op@);
                                crate::codec::lemma_model_elems_push(nab, na@[k2 as int]);
                                assert(na@[k2 as int]@ == h.0);
                                assert(here.0 == next.0.update(k2 as int, h.0));
                                assert forall|u: int| 0 <= u < k2 as int + 1 implies
                                    Value::model_elems(na@)[u] == full.0.subrange(
                                    0,
                                    k2 as int + 1,
                                )[u] by {
                                    crate::codec::lemma_model_elems_index(na@, u);
                                    if u < k2 as int {
                                        crate::codec::lemma_model_elems_index(nab, u);
                                        assert(Value::model_elems(nab)[u] == full.0.subrange(
                                            0,
                                            k2 as int,
                                        )[u]);
                                    } else {
                                        lemma_rep_elems_suffix(am, 0, k2 as int, sm, si + 1, op@);
                                    }
                                }
                                assert(Value::model_elems(na@) =~= full.0.subrange(
                                    0,
                                    k2 as int + 1,
                                ));
                                lemma_outs_models_concat(outsb, ob);
                                assert(outs_models(outs@) =~= outs_models(outsb) + h.1);
                                assert(here.1 == h.1 + next.1);
                                assert(outs_models(outsb) + (h.1 + next.1) =~= (outs_models(
                                    outsb,
                                ) + h.1) + next.1);
                            }
                            k2 += 1;
                        }
                        proof {
                            let am = Value::model_elems(a@);
                            let full = rep_elems(am, 0, sm, si + 1, op@);
                            lemma_rep_elems_frame(am, 0, sm, si + 1, op@);
                            assert(full.0.subrange(0, n as int) =~= full.0);
                            assert(rep_elems(am, n as int, sm, si + 1, op@).1 =~= Seq::<
                                Result<OutV, ErrKind>,
                            >::empty());
                            assert(outs_models(outs@) + Seq::<Result<OutV, ErrKind>>::empty()
                                =~= outs_models(outs@));
                        }
                        (Value::Arr(na), outs)
                    },
                    _ => {
                        let c = clone_value(v);
                        let outs: Vec<Result<OpOut, ErrKind>> = Vec::new();
                        proof {
                            assert(outs_models(outs@) =~= Seq::<Result<OutV, ErrKind>>::empty());
                        }
                        (c, outs)
                    },
                }
            },
            Seg::DescKey(k) => rep_desc_val(v, k, segs, si, op),
        }
    }
}

/// Between two starting points, a later rewriting pass agrees with the full
/// one at the position just before it.
proof fn lemma_rep_vals_suffix(
    m: Seq<(Seq<char>, JVal)>,
    from: int,
    at: int,
    segs: Seq<SegV>,
    si: int,
    op: OpV,
)
    requires
        0 <= from <= at < m.len(),
    ensures
        rep_vals(m, from, segs, si, op).0[at] == rep_vals(m, at, segs, si, op).0[at],
    decreases at - from,
{
    lemma_rep_vals_frame(m, from + 1, segs, si, op);
    if from < at {
        lemma_rep_vals_suffix(m, from + 1, at, segs, si, op);
    }
}

proof fn lemma_rep_elems_suffix(a: Seq<JVal>, from: int, at: int, segs: Seq<SegV>, si: int, op: OpV)
    requires
        0 <= from <= at < a.len(),
    ensures
        rep_elems(a, from, segs, si, op).0[at] == rep_elems(a, at, segs, si, op).0[at],
    decreases at - from,
{
    lemma_rep_elems_frame(a, from + 1, segs, si, op);
    if from < at {
        lemma_rep_elems_suffix(a, from + 1, at, segs, si, op);
    }
}

proof fn lemma_rep_desc_fields_suffix(
    m: Seq<(Seq<char>, JVal)>,
    from: int,
    at: int,
    k: Seq<char>,
    segs: Seq<SegV>,
    si: int,
    op: OpV,
)
    requires
        0 <= from <= at < m.len(),
    ensures
        rep_desc_fields(m, from, k, segs, si, op).0[at] == rep_desc_fields(
            m,
            at,
            k,
            segs,
            si,
            op,
        ).0[at],
    decreases at - from,
{
    lemma_rep_desc_fields_frame(m, from + 1, k, segs, si, op);
    if from < at {
        lemma_rep_desc_fields_suffix(m, from + 1, at, k, segs, si, op);
    }
}

proof fn lemma_rep_desc_elems_suffix(
    a: Seq<JVal>,
    from: int,
    at: int,
    k: Seq<char>,
    segs: Seq<SegV>,
    si: int,
    op: OpV,
)
    requires
        0 <= from <= at < a.len(),
    ensures
        rep_desc_elems(a, from, k, segs, si, op).0[at] == rep_desc_elems(
            a,
            at,
            k,
            segs,
            si,
            op,
        ).0[at],
    decreases at - from,
{
    lemma_rep_desc_elems_frame(a, from + 1, k, segs, si, op);
    if from < at {
        lemma_rep_desc_elems_suffix(a, from + 1, at, k, segs, si, op);
    }
}

/// Descent rewriting: rebuilds `v` with `op` applied under every shallowest
/// field named `k`.
fn rep_desc_val(v: &Value, k: &String, segs: &Vec<Seg>, si: usize, op: &ValueOp) -> (r: (
    Value,
    Vec<Result<OpOut, ErrKind>>,
))
    requires
        si < segs.len(),
    ensures
        (r.0@, outs_models(r.1@)) == rep_desc(v@, k@, seg_models(segs@), si as int, op@),
    decreases v, 2int, 0int,
{
    let ghost sm = seg_models(segs@);
    match v {
        Value::Obj(m) => {
            let n = m.len();
            let mut nf: Vec<(String, Value)> = Vec::new();
            let mut outs: Vec<Result<OpOut, ErrKind>> = Vec::new();
            let mut k2: usize = 0;
            proof {
                crate::codec::lemma_model_fields_len(m@);
                lemma_rep_desc_fields_frame(Value::model_fields(m@), 0, k@, sm, si as int, op@);
            }
            while k2 < n
                invariant
                    v is Obj && m == v->Obj_0,
                    si < segs.len(),
                    sm == seg_models(segs@),
                    k2 <= n && n == m.len(),
                    nf@.len() == k2,
                    Value::model_fields(m@).len() == n,
                    Value::model_fields(nf@) =~= rep_desc_fields(
                        Value::model_fields(m@),
                        0,
                        k@,
                        sm,
                        si as int,
                        op@,
                    ).0.subrange(0, k2 as int),
                    outs_models(outs@) + rep_desc_fields(
                        Value::model_fields(m@),
                        k2 as int,
                        k@,
                        sm,
                        si as int,
                        op@,
                    ).1 == rep_desc_fields(
                        Value::model_fields(m@),
                        0,
                        k@,
                        sm,
                        si as int,
                        op@,
                    ).1,
                decreases n - k2,
            {
                proof {
                    crate::codec::lemma_model_fields_len(m@);
                    crate::codec::lemma_model_fields_index(m@, k2 as int);
                    assert(decreases_to!(*v => v->Obj_0));
                    assert(decreases_to!(m@ => m@[k2 as int]));
                    assert(decreases_to!(m@[k2 as int] => m@[k2 as int].1));
                }
                let matched = m[k2].0 == *k;
                let (nv, mut o) = if matched {
                    rep_val(&m[k2].1, segs, si + 1, op)
                } else {
                    rep_desc_val(&m[k2].1, k, segs, si, op)
                };
                let key = m[k2].0.clone();
                let ghost nfb = nf@;
                let ghost outsb = outs@;
                let ghost ob = o@;
                nf.push((key, nv));
                outs.append(&mut o);
                proof {
                    let mf = Value::model_fields(m@);
                    let full = rep_desc_fields(mf, 0, k@, sm, si as int, op@);
                    let here = rep_desc_fields(mf, k2 as int, k@, sm, si as int, op@);
                    let next = rep_desc_fields(mf, k2 as int + 1, k@, sm, si as int, op@);
                    let h = if mf[k2 as int].0 == k@ {
                        rep(mf[k2 as int].1, sm, si + 1, op@)
                    } else {
                        rep_desc(mf[k2 as int].1, k@, sm, si as int, op@)
                    };
                    lemma_rep_desc_fields_frame(mf, 0, k@, sm, si as int, op@);
                    lemma_rep_desc_fields_frame(mf, k2 as int, k@, sm, si as int, op@);
                    lemma_rep_desc_fields_frame(mf, k2 as int + 1, k@, sm, si as int, op@);
                    crate::codec::lemma_model_fields_push(nfb, nf@[k2 as int].0, nf@[k2 as
                        int].1);
                    assert(nf@[k2 as int].0@ == mf[k2 as int].0);
                    assert(nf@[k2 as int].1@ == h.0);
                    assert(here.0 == next.0.update(k2 as int, (mf[k2 as int].0, h.0)));
                    assert forall|u: int| 0 <= u < k2 as int + 1 implies Value::model_fields(
                        nf@,
                    )[u] == full.0.subrange(0, k2 as int + 1)[u] by {
                        crate::codec::lemma_model_fields_index(nf@, u);
                        if u < k2 as int {
                            crate::codec::lemma_model_fields_index(nfb, u);
                            assert(Value::model_fields(nfb)[u] == full.0.subrange(
                                0,
                                k2 as int,
                            )[u]);
                        } else {
                            lemma_rep_desc_fields_suffix(mf, 0, k2 as int, k@, sm, si as int,
                                op@);
                        }
                    }
                    assert(Value::model_fields(nf@) =~= full.0.subrange(0, k2 as int + 1));
                    lemma_outs_models_concat(outsb, ob);
                    assert(outs_models(outs@) =~= outs_models(outsb) + h.1);
                    assert(here.1 == h.1 + next.1);
                    assert(outs_models(outsb) + (h.1 + next.1) =~= (outs_models(outsb) + h.1)
                        + next.1);
                }
                k2 += 1;
            }
            proof {
                let mf = Value::model_fields(m@);
                let full = rep_desc_fields(mf, 0, k@, sm, si as int, op@);
                lemma_rep_desc_fields_frame(mf, 0, k@, sm, si as int, op@);
                assert(full.0.subrange(0, n as int) =~= full.0);
                assert(rep_desc_fields(mf, n as int, k@, sm, si as int, op@).1 =~= Seq::<
                    Result<OutV, ErrKind>,
                >::empty());
                assert(outs_models(outs@) + Seq::<Result<OutV, ErrKind>>::empty() =~= outs_models(
                    outs@,
                ));
            }
            (Value::Obj(nf), outs)
        },
        Value::Arr(a) => {
            let n = a.len();
            let mut na: Vec<Value> = Vec::new();
            let mut outs: Vec<Result<OpOut, ErrKind>> = Vec::new();
            let mut k2: usize = 0;
            proof {
                crate::codec::lemma_model_elems_len(a@);
                lemma_rep_desc_elems_frame(Value::model_elems(a@), 0, k@, sm, si as int, op@);
            }
            while k2 < n
                invariant
                    v is Arr && a == v->Arr_0,
                    si < segs.len(),
                    sm == seg_models(segs@),
                    k2 <= n && n == a.len(),
                    na@.len() == k2,
                    Value::model_elems(a@).len() == n,
                    Value::model_elems(na@) =~= rep_desc_elems(
                        Value::model_elems(a@),
                        0,
                        k@,
                        sm,
                        si as int,
                        op@,
                    ).0.subrange(0, k2 as int),
                    outs_models(outs@) + rep_desc_elems(
                        Value::model_elems(a@),
                        k2 as int,
                        k@,
                        sm,
                        si as int,
                        op@,
                    ).1 == rep_desc_elems(Value::model_elems(a@), 0, k@, sm, si as int, op@).1,
                decreases n - k2,
            {
                proof {
                    crate::codec::lemma_model_elems_len(a@);
                    crate::codec::lemma_model_elems_index(a@, k2 as int);
                    assert(decreases_to!(*v => v->Arr_0));
                    assert(decreases_to!(a@ => a@[k2 as int]));
                }
                let (nv, mut o) = rep_desc_val(&a[k2], k, segs, si, op);
                let ghost nab = na@;
                let ghost outsb = outs@;
                let ghost ob = o@;
                na.push(nv);
                outs.append(&mut o);
                proof {
                    let am = Value::model_elems(a@);
                    let full = rep_desc_elems(am, 0, k@, sm, si as int, op@);
                    let here = rep_desc_elems(am, k2 as int, k@, sm, si as int, op@);
                    let next = rep_desc_elems(am, k2 as int + 1, k@, sm, si as int, op@);
                    let h = rep_desc(am[k2 as int], k@, sm, si as int, op@);
                    lemma_rep_desc_elems_frame(am, 0, k@, sm, si as int, op@);
                    lemma_rep_desc_elems_frame(am, k2 as int, k@, sm, si as int, op@);
                    lemma_rep_desc_elems_frame(am, k2 as int + 1, k@, sm, si as int, op@);
                    crate::codec::lemma_model_elems_push(nab, na@[k2 as int]);
                    assert(na@[k2 as int]@ == h.0);
                    assert(here.0 == next.0.update(k2 as int, h.0));
                    assert forall|u: int| 0 <= u < k2 as int + 1 implies Value::model_elems(
                        na@,
                    )[u] == full.0.subrange(0, k2 as int + 1)[u] by {
                        crate::codec::lemma_model_elems_index(na@, u);
                        if u < k2 as int {
                            crate::codec::lemma_model_elems_index(nab, u);
                            assert(Value::model_elems(nab)[u] == full.0.subrange(
                                0,
                                k2 as int,
                            )[u]);
                        } else {
                            lemma_rep_desc_elems_suffix(am, 0, k2 as int, k@, sm, si as int, op@);
                        }
                    }
                    assert(Value::model_elems(na@) =~= full.0.subrange(0, k2 as int + 1));
                    lemma_outs_models_concat(outsb, ob);
                    assert(outs_models(outs@) =~= outs_models(outsb) + h.1);
                    assert(here.1 == h.1 + next.1);
                    assert(outs_models(outsb) + (h.1 + next.1) =~= (outs_models(outsb) + h.1)
                        + next.1);
                }
                k2 += 1;
            }
            proof {
                let am = Value::model_elems(a@);
                let full = rep_desc_elems(am, 0, k@, sm, si as int, op@);
                lemma_rep_desc_elems_frame(am, 0, k@, sm, si as int, op@);
                assert(full.0.subrange(0, n as int) =~= full.0);
                assert(rep_desc_elems(am, n as int, k@, sm, si as int, op@).1 =~= Seq::<
                    Result<OutV, ErrKind>,
                >::empty());
                assert(outs_models(outs@) + Seq::<Result<OutV, ErrKind>>::empty() =~= outs_models(
                    outs@,
                ));
            }
            (Value::Arr(na), outs)
        },
        _ => {
            let c = clone_value(v);
            let outs: Vec<Result<OpOut, ErrKind>> = Vec::new();
            proof {
                assert(outs_models(outs@) =~= Seq::<Result<OutV, ErrKind>>::empty());
            }
            (c, outs)
        },
    }
}

/// A rewrite that matched nothing leaves the tree exactly as it was.
pub proof fn lemma_rep_no_match_id(v: JVal, segs: Seq<SegV>, si: int, op: OpV)
    requires
        rep(v, segs, si, op).1.len() == 0,
    ensures
        rep(v, segs, si, op).0 == v,
    decreases v, 3int, 0int,
{
    if 0 <= si && si < segs.len() {
        match segs[si] {
            SegV::Key(k) => {
                if v is Obj {
                    let m = v->Obj_0;
                    crate::parse::lemma_find_key_char(m, k);
                    let idx = find_key(m, k);
                    if idx >= 0 {
                        assert(decreases_to!(v => v->Obj_0));
                        assert(decreases_to!(m => m[idx]));
                        assert(decreases_to!(m[idx] => m[idx].1));
                        lemma_rep_no_match_id(m[idx].1, segs, si + 1, op);
                        assert(m[idx] == (m[idx].0, m[idx].1));
                        assert(m.update(idx, m[idx]) =~= m);
                    }
                }
            },
            SegV::Index(n) => {
                if v is Arr {
                    let a = v->Arr_0;
                    if 0 <= n && n < a.len() {
                        assert(decreases_to!(v => v->Arr_0));
                        assert(decreases_to!(a => a[n]));
                        lemma_rep_no_match_id(a[n], segs, si + 1, op);
                        assert(a.update(n, a[n]) =~= a);
                    }
                }
            },
            SegV::Wild => {
                if v is Obj {
                    assert(decreases_to!(v => v->Obj_0));
                    lemma_rep_vals_no_match(v->Obj_0, 0, segs, si + 1, op);
                } else if v is Arr {
                    assert(decreases_to!(v => v->Arr_0));
                    lemma_rep_elems_no_match(v->Arr_0, 0, segs, si + 1, op);
                }
            },
            SegV::DescKey(k) => {
                lemma_rep_desc_no_match(v, k, segs, si, op);
            },
        }
    }
}

proof fn lemma_rep_vals_no_match(
    m: Seq<(Seq<char>, JVal)>,
    from: int,
    segs: Seq<SegV>,
    si: int,
    op: OpV,
)
    requires
        rep_vals(m, from, segs, si, op).1.len() == 0,
    ensures
        rep_vals(m, from, segs, si, op).0 == m,
    decreases m, 2int, m.len() - from,
{
    if 0 <= from && from < m.len() {
        assert(decreases_to!(m => m[from]));
        assert(decreases_to!(m[from] => m[from].1));
        lemma_rep_no_match_id(m[from].1, segs, si, op);
        lemma_rep_vals_no_match(m, from + 1, segs, si, op);
        assert(m[from] == (m[from].0, m[from].1));
        assert(m.update(from, m[from]) =~= m);
    }
}

proof fn lemma_rep_elems_no_match(a: Seq<JVal>, from: int, segs: Seq<SegV>, si: int, op: OpV)
    requires
        rep_elems(a, from, segs, si, op).1.len() == 0,
    ensures
        rep_elems(a, from, segs, si, op).0 == a,
    decreases a, 2int, a.len() - from,
{
    if 0 <= from && from < a.len() {
        assert(decreases_to!(a => a[from]));
        lemma_rep_no_match_id(a[from], segs, si, op);
        lemma_rep_elems_no_match(a, from + 1, segs, si, op);
        assert(a.update(from, a[from]) =~= a);
    }
}

proof fn lemma_rep_desc_no_match(v: JVal, k: Seq<char>, segs: Seq<SegV>, si: int, op: OpV)
    requires
        rep_desc(v, k, segs, si, op).1.len() == 0,
    ensures
        rep_desc(v, k, segs, si, op).0 == v,
    decreases v, 2int, 0int,
{
    if v is Obj {
        assert(decreases_to!(v => v->Obj_0));
        lemma_rep_desc_fields_no_match(v->Obj_0, 0, k, segs, si, op);
    } else if v is Arr {
        assert(decreases_to!(v => v->Arr_0));
        lemma_rep_desc_elems_no_match(v->Arr_0, 0, k, segs, si, op);
    }
}

proof fn lemma_rep_desc_fields_no_match(
    m: Seq<(Seq<char>, JVal)>,
    from: int,
    k: Seq<char>,
    segs: Seq<SegV>,
    si: int,
    op: OpV,
)
    requires
        rep_desc_fields(m, from, k, segs, si, op).1.len() == 0,
    ensures
        rep_desc_fields(m, from, k, segs, si, op).0 == m,
    decreases m, 1int, m.len() - from,
{
    if 0 <= from && from < m.len() {
        assert(decreases_to!(m => m[from]));
        assert(decreases_to!(m[from] => m[from].1));
        if m[from].0 == k {
            lemma_rep_no_match_id(m[from].1, segs, si + 1, op);
        } else {
            lemma_rep_desc_no_match(m[from].1, k, segs, si, op);
        }
        lemma_rep_desc_fields_no_match(m, from + 1, k, segs, si, op);
        assert(m[from] == (m[from].0, m[from].1));
        assert(m.update(from, m[from]) =~= m);
    }
}

proof fn lemma_rep_desc_elems_no_match(
    a: Seq<JVal>,
    from: int,
    k: Seq<char>,
    segs: Seq<SegV>,
    si: int,
    op: OpV,
)
    requires
        rep_desc_elems(a, from, k, segs, si, op).1.len() == 0,
    ensures
        rep_desc_elems(a, from, k, segs, si, op).0 == a,
    decreases a, 1int, a.len() - from,
{
    if 0 <= from && from < a.len() {
        assert(decreases_to!(a => a[from]));
        lemma_rep_desc_no_match(a[from], k, segs, si, op);
        lemma_rep_desc_elems_no_match(a, from + 1, k, segs, si, op);
        assert(a.update(from, a[from]) =~= a);
    }
}

// ---------------------------------------------------------------------------
// Laws of deletion
// ---------------------------------------------------------------------------

/// What applying an operation at one matched node reports.
pub open spec fn outcome_of(op: OpV, m: JVal) -> Result<OutV, ErrKind> {
    match apply_op_model(op, m) {
        Ok((_, o)) => Ok(o),
        Err(e) => Err(e),
    }
}

/// The reports of applying an operation at each node in turn.
pub open spec fn outcomes_of(op: OpV, ms: Seq<JVal>) -> Seq<Result<OutV, ErrKind>>
    decreases ms.len(),
{
    if ms.len() == 0 {
        Seq::empty()
    } else {
        seq![outcome_of(op, ms[0])] + outcomes_of(op, ms.drop_first())
    }
}

/// Counting nodes that hold a value extends over an appended node.
pub proof fn lemma_nn_count_snoc(s: Seq<JVal>, x: JVal)
    ensures
        nn_count(s.push(x)) == nn_count(s) + nn_one(x),
    decreases s.len(),
{
    reveal_with_fuel(nn_count, 3);
    if s.len() == 0 {
        assert(s.push(x).drop_first() =~= Seq::<JVal>::empty());
    } else {
        assert(s.push(x).drop_first() =~= s.drop_first().push(x));
        lemma_nn_count_snoc(s.drop_first(), x);
    }
}

/// How many nodes hold a value.
pub open spec fn nn_count(ms: Seq<JVal>) -> nat
    decreases ms.len(),
{
    if ms.len() == 0 {
        0
    } else {
        (if ms[0] == JVal::Null {
            0nat
        } else {
            1nat
        }) + nn_count(ms.drop_first())
    }
}

proof fn lemma_outcomes_of_concat(op: OpV, a: Seq<JVal>, b: Seq<JVal>)
    ensures
        outcomes_of(op, a + b) == outcomes_of(op, a) + outcomes_of(op, b),
    decreases a.len(),
{
    if a.len() == 0 {
        assert(a + b =~= b);
        assert(outcomes_of(op, a) + outcomes_of(op, b) =~= outcomes_of(op, b));
    } else {
        assert((a + b).drop_first() =~= a.drop_first() + b);
        lemma_outcomes_of_concat(op, a.drop_first(), b);
        assert(outcomes_of(op, a + b) =~= outcomes_of(op, a) + outcomes_of(op, b));
    }
}

/// Rewriting reports exactly one outcome per selected node, in document
/// order: the outcome of applying the operation to that node.
pub proof fn lemma_rep_matches(v: JVal, segs: Seq<SegV>, si: int, op: OpV)
    ensures
        rep(v, segs, si, op).1 == outcomes_of(op, sel(v, segs, si)),
    decreases v, 3int, 0int,
{
    if !(0 <= si && si < segs.len()) {
        reveal_with_fuel(outcomes_of, 3);
        assert(sel(v, segs, si) =~= seq![v]);
        assert(seq![v].drop_first() =~= Seq::<JVal>::empty());
        assert(rep(v, segs, si, op).1 =~= outcomes_of(op, sel(v, segs, si)));
    } else {
        match segs[si] {
            SegV::Key(k) => {
                if v is Obj {
                    let m = v->Obj_0;
                    crate::parse::lemma_find_key_char(m, k);
                    let idx = find_key(m, k);
                    if idx >= 0 {
                        assert(decreases_to!(v => v->Obj_0));
                        assert(decreases_to!(m => m[idx]));
                        assert(decreases_to!(m[idx] => m[idx].1));
                        lemma_rep_matches(m[idx].1, segs, si + 1, op);
                    } else {
                        assert(rep(v, segs, si, op).1 =~= outcomes_of(op, sel(v, segs, si)));
                    }
                } else {
                    assert(rep(v, segs, si, op).1 =~= outcomes_of(op, sel(v, segs, si)));
                }
            },
            SegV::Index(n) => {
                if v is Arr && 0 <= n && n < v->Arr_0.len() {
                    let a = v->Arr_0;
                    assert(decreases_to!(v => v->Arr_0));
                    assert(decreases_to!(a => a[n]));
                    lemma_rep_matches(a[n], segs, si + 1, op);
                } else {
                    assert(rep(v, segs, si, op).1 =~= outcomes_of(op, sel(v, segs, si)));
                }
            },
            SegV::Wild => {
                if v is Obj {
                    assert(decreases_to!(v => v->Obj_0));
                    lemma_rep_matches_vals(v->Obj_0, 0, segs, si + 1, op);
                } else if v is Arr {
                    assert(decreases_to!(v => v->Arr_0));
                    lemma_rep_matches_elems(v->Arr_0, 0, segs, si + 1, op);
                } else {
                    assert(rep(v, segs, si, op).1 =~= outcomes_of(op, sel(v, segs, si)));
                }
            },
            SegV::DescKey(k) => {
                lemma_rep_matches_desc(v, k, segs, si, op);
            },
        }
    }
}

proof fn lemma_rep_matches_vals(
    m: Seq<(Seq<char>, JVal)>,
    from: int,
    segs: Seq<SegV>,
    si: int,
    op: OpV,
)
    ensures
        rep_vals(m, from, segs, si, op).1 == outcomes_of(op, sel_vals(m, from, segs, si)),
    decreases m, 2int, m.len() - from,
{
    if 0 <= from && from < m.len() {
        assert(decreases_to!(m => m[from]));
        assert(decreases_to!(m[from] => m[from].1));
        lemma_rep_matches(m[from].1, segs, si, op);
        lemma_rep_matches_vals(m, from + 1, segs, si, op);
        lemma_outcomes_of_concat(op, sel(m[from].1, segs, si), sel_vals(m, from + 1, segs, si));
    } else {
        assert(rep_vals(m, from, segs, si, op).1 =~= outcomes_of(
            op,
            sel_vals(m, from, segs, si),
        ));
    }
}

proof fn lemma_rep_matches_elems(a: Seq<JVal>, from: int, segs: Seq<SegV>, si: int, op: OpV)
    ensures
        rep_elems(a, from, segs, si, op).1 == outcomes_of(op, sel_elems(a, from, segs, si)),
    decreases a, 2int, a.len() - from,
{
    if 0 <= from && from < a.len() {
        assert(decreases_to!(a => a[from]));
        lemma_rep_matches(a[from], segs, si, op);
        lemma_rep_matches_elems(a, from + 1, segs, si, op);
        lemma_outcomes_of_concat(op, sel(a[from], segs, si), sel_elems(a, from + 1, segs, si));
    } else {
        assert(rep_elems(a, from, segs, si, op).1 =~= outcomes_of(
            op,
            sel_elems(a, from, segs, si),
        ));
    }
}

proof fn lemma_rep_matches_desc(v: JVal, k: Seq<char>, segs: Seq<SegV>, si: int, op: OpV)
    ensures
        rep_desc(v, k, segs, si, op).1 == outcomes_of(op, desc_key(v, k, segs, si)),
    decreases v, 2int, 0int,
{
    if v is Obj {
        assert(decreases_to!(v => v->Obj_0));
        lemma_rep_matches_desc_fields(v->Obj_0, 0, k, segs, si, op);
    } else if v is Arr {
        assert(decreases_to!(v => v->Arr_0));
        lemma_rep_matches_desc_elems(v->Arr_0, 0, k, segs, si, op);
    } else {
        assert(rep_desc(v, k, segs, si, op).1 =~= outcomes_of(op, desc_key(v, k, segs, si)));
    }
}

proof fn lemma_rep_matches_desc_fields(
    m: Seq<(Seq<char>, JVal)>,
    from: int,
    k: Seq<char>,
    segs: Seq<SegV>,
    si: int,
    op: OpV,
)
    ensures
        rep_desc_fields(m, from, k, segs, si, op).1 == outcomes_of(
            op,
            desc_fields(m, from, k, segs, si),
        ),
    decreases m, 1int, m.len() - from,
{
    if 0 <= from && from < m.len() {
        assert(decreases_to!(m => m[from]));
        assert(decreases_to!(m[from] => m[from].1));
        if m[from].0 == k {
            lemma_rep_matches(m[from].1, segs, si + 1, op);
            lemma_rep_matches_desc_fields(m, from + 1, k, segs, si, op);
            lemma_outcomes_of_concat(op, sel(m[from].1, segs, si + 1), desc_fields(m, from + 1,
                k, segs, si));
        } else {
            lemma_rep_matches_desc(m[from].1, k, segs, si, op);
            lemma_rep_matches_desc_fields(m, from + 1, k, segs, si, op);
            lemma_outcomes_of_concat(op, desc_key(m[from].1, k, segs, si), desc_fields(m,
                from + 1, k, segs, si));
        }
    } else {
        assert(rep_desc_fields(m, from, k, segs, si, op).1 =~= outcomes_of(
            op,
            desc_fields(m, from, k, segs, si),
        ));
    }
}

proof fn lemma_rep_matches_desc_elems(
    a: Seq<JVal>,
    from: int,
    k: Seq<char>,
    segs: Seq<SegV>,
    si: int,
    op: OpV,
)
    ensures
        rep_desc_elems(a, from, k, segs, si, op).1 == outcomes_of(
            op,
            desc_elems(a, from, k, segs, si),
        ),
    decreases a, 1int, a.len() - from,
{
    if 0 <= from && from < a.len() {
        assert(decreases_to!(a => a[from]));
        lemma_rep_matches_desc(a[from], k, segs, si, op);
        lemma_rep_matches_desc_elems(a, from + 1, k, segs, si, op);
        lemma_outcomes_of_concat(op, desc_key(a[from], k, segs, si), desc_elems(a, from + 1, k,
            segs, si));
    } else {
        assert(rep_desc_elems(a, from, k, segs, si, op).1 =~= outcomes_of(
            op,
            desc_elems(a, from, k, segs, si),
        ));
    }
}

/// Sequences with the same keys agree on key lookup.
proof fn lemma_find_key_keys(m1: Seq<(Seq<char>, JVal)>, m2: Seq<(Seq<char>, JVal)>, k: Seq<char>)
    requires
        m1.len() == m2.len(),
        forall|w: int| 0 <= w < m1.len() ==> (#[trigger] m1[w]).0 == m2[w].0,
    ensures
        find_key(m1, k) == find_key(m2, k),
    decreases m1.len(),
{
    if m1.len() > 0 {
        assert(m1[0].0 == m2[0].0);
        assert forall|w: int| 0 <= w < m1.len() - 1 implies (#[trigger] m1.drop_first()[w]).0
            == m2.drop_first()[w].0 by {
            assert(m1[w + 1].0 == m2[w + 1].0);
        }
        lemma_find_key_keys(m1.drop_first(), m2.drop_first(), k);
    }
}


// ---------------------------------------------------------------------------
// Rewriting keeps documents well-formed
// ---------------------------------------------------------------------------

/// Rewriting a well-formed tree with a well-formed operation yields a
/// well-formed tree: keys stay unique, integers stay in range, kept number
/// literals stay genuine tokens.
pub proof fn lemma_rep_wf(v: JVal, segs: Seq<SegV>, si: int, op: OpV)
    requires
        wf_val(v),
        op_wf(op),
    ensures
        wf_val(rep(v, segs, si, op).0),
    decreases v, 3int, 0int,
{
    if !(0 <= si && si < segs.len()) {
        lemma_apply_op_wf(op, v);
    } else {
        match segs[si] {
            SegV::Key(k) => {
                if v is Obj {
                    let m = v->Obj_0;
                    crate::parse::lemma_find_key_char(m, k);
                    let idx = find_key(m, k);
                    if idx >= 0 {
                        assert(decreases_to!(v => v->Obj_0));
                        assert(decreases_to!(m => m[idx]));
                        assert(decreases_to!(m[idx] => m[idx].1));
                        lemma_wf_fields_iff(m);
                        lemma_rep_wf(m[idx].1, segs, si + 1, op);
                        let m2 = m.update(idx, (m[idx].0, rep(m[idx].1, segs, si + 1, op).0));
                        lemma_wf_fields_iff(m2);
                        assert forall|a: int, b: int| 0 <= a < b < m2.len() implies (
                        #[trigger] m2[a]).0 != (#[trigger] m2[b]).0 by {
                            assert(m2[a].0 == m[a].0 && m2[b].0 == m[b].0);
                            assert(m[a].0 != m[b].0);
                        }
                        assert forall|w: int| 0 <= w < m2.len() implies wf_val(
                            (#[trigger] m2[w]).1,
                        ) by {
                            if w != idx {
                                assert(m2[w] == m[w]);
                            }
                        }
                    }
                }
            },
            SegV::Index(n) => {
                if v is Arr && 0 <= n && n < v->Arr_0.len() {
                    let a = v->Arr_0;
                    assert(decreases_to!(v => v->Arr_0));
                    assert(decreases_to!(a => a[n]));
                    lemma_wf_elems_iff(a);
                    lemma_rep_wf(a[n], segs, si + 1, op);
                    let a2 = a.update(n, rep(a[n], segs, si + 1, op).0);
                    lemma_wf_elems_iff(a2);
                    assert forall|w: int| 0 <= w < a2.len() implies wf_val(#[trigger] a2[w])
                        by {
                        if w != n {
                            assert(a2[w] == a[w]);
                        }
                    }
                }
            },
            SegV::Wild => {
                if v is Obj {
                    let m = v->Obj_0;
                    assert(decreases_to!(v => v->Obj_0));
                    lemma_rep_vals_frame(m, 0, segs, si + 1, op);
                    let m2 = rep_vals(m, 0, segs, si + 1, op).0;
                    lemma_wf_fields_iff(m);
                    lemma_wf_fields_iff(m2);
                    assert forall|a: int, b: int| 0 <= a < b < m2.len() implies (
                    #[trigger] m2[a]).0 != (#[trigger] m2[b]).0 by {
                        assert(m2[a].0 == m[a].0 && m2[b].0 == m[b].0);
                        assert(m[a].0 != m[b].0);
                    }
                    assert forall|w: int| 0 <= w < m2.len() implies wf_val((#[trigger] m2[w]).1)
                        by {
                        assert(decreases_to!(m => m[w]));
                        assert(decreases_to!(m[w] => m[w].1));
                        lemma_rep_wf(m[w].1, segs, si + 1, op);
                        assert(m2[w] == (m[w].0, rep(m[w].1, segs, si + 1, op).0));
                    }
                } else if v is Arr {
                    let a = v->Arr_0;
                    assert(decreases_to!(v => v->Arr_0));
                    lemma_rep_elems_frame(a, 0, segs, si + 1, op);
                    let a2 = rep_elems(a, 0, segs, si + 1, op).0;
                    lemma_wf_elems_iff(a);
                    lemma_wf_elems_iff(a2);
                    assert forall|w: int| 0 <= w < a2.len() implies wf_val(#[trigger] a2[w])
                        by {
                        assert(decreases_to!(a => a[w]));
                        lemma_rep_wf(a[w], segs, si + 1, op);
                        assert(a2[w] == rep(a[w], segs, si + 1, op).0);
                    }
                }
            },
            SegV::DescKey(k) => {
                lemma_rep_desc_wf(v, k, segs, si, op);
            },
        }
    }
}

proof fn lemma_rep_desc_wf(v: JVal, k: Seq<char>, segs: Seq<SegV>, si: int, op: OpV)
    requires
        wf_val(v),
        op_wf(op),
    ensures
        wf_val(rep_desc(v, k, segs, si, op).0),
    decreases v, 2int, 0int,
{
    if v is Obj {
        let m = v->Obj_0;
        assert(decreases_to!(v => v->Obj_0));
        lemma_rep_desc_fields_frame(m, 0, k, segs, si, op);
        let m2 = rep_desc_fields(m, 0, k, segs, si, op).0;
        lemma_wf_fields_iff(m);
        lemma_wf_fields_iff(m2);
        assert forall|a: int, b: int| 0 <= a < b < m2.len() implies (#[trigger] m2[a]).0 != (
        #[trigger] m2[b]).0 by {
            assert(m2[a].0 == m[a].0 && m2[b].0 == m[b].0);
            assert(m[a].0 != m[b].0);
        }
        assert forall|w: int| 0 <= w < m2.len() implies wf_val((#[trigger] m2[w]).1) by {
            assert(decreases_to!(m => m[w]));
            assert(decreases_to!(m[w] => m[w].1));
            if m[w].0 == k {
                lemma_rep_wf(m[w].1, segs, si + 1, op);
            } else {
                lemma_rep_desc_wf(m[w].1, k, segs, si, op);
            }
        }
    } else if v is Arr {
        let a = v->Arr_0;
        assert(decreases_to!(v => v->Arr_0));
        lemma_rep_desc_elems_frame(a, 0, k, segs, si, op);
        let a2 = rep_desc_elems(a, 0, k, segs, si, op).0;
        lemma_wf_elems_iff(a);
        lemma_wf_elems_iff(a2);
        assert forall|w: int| 0 <= w < a2.len() implies wf_val(#[trigger] a2[w]) by {
            assert(decreases_to!(a => a[w]));
            lemma_rep_desc_wf(a[w], k, segs, si, op);
            assert(a2[w] == rep_desc(a[w], k, segs, si, op).0);
        }
    }
}

// ---------------------------------------------------------------------------
// Deletion (specification)
// ---------------------------------------------------------------------------
// Deleting along a path removes every selected entry from its parent
// container: an object loses the field, an array loses the element. (This
// differs from the `ValueOp::Delete` transform, which rewrites a matched
// node to null in place.) The root itself has no parent; the document layer
// handles the root path.

/// One for a node that holds a value, zero for `Null`.
pub open spec fn nn_one(x: JVal) -> nat {
    if x == JVal::Null {
        0
    } else {
        1
    }
}

/// The tree after removing every entry the segments from `si` on select
/// inside `v`. At the last segment the selected child leaves its parent;
/// at earlier segments the tree is rebuilt around the rewritten child.
pub open spec fn del(v: JVal, segs: Seq<SegV>, si: int) -> JVal
    decreases v, 3int, 0int,
    via del_dec
{
    if !(0 <= si && si < segs.len()) {
        v
    } else {
        let last = si + 1 == segs.len();
        match segs[si] {
            SegV::Key(k) => match v {
                JVal::Obj(m) => {
                    let idx = find_key(m, k);
                    if idx >= 0 {
                        if last {
                            JVal::Obj(m.subrange(0, idx) + m.subrange(idx + 1, m.len() as int))
                        } else {
                            JVal::Obj(m.update(idx, (m[idx].0, del(m[idx].1, segs, si + 1))))
                        }
                    } else {
                        v
                    }
                },
                _ => v,
            },
            SegV::Index(n) => match v {
                JVal::Arr(a) => if 0 <= n && n < a.len() {
                    if last {
                        JVal::Arr(a.subrange(0, n) + a.subrange(n + 1, a.len() as int))
                    } else {
                        JVal::Arr(a.update(n, del(a[n], segs, si + 1)))
                    }
                } else {
                    v
                },
                _ => v,
            },
            SegV::Wild => match v {
                JVal::Obj(m) => if last {
                    JVal::Obj(Seq::empty())
                } else {
                    JVal::Obj(del_vals(m, 0, segs, si + 1))
                },
                JVal::Arr(a) => if last {
                    JVal::Arr(Seq::empty())
                } else {
                    JVal::Arr(del_elems(a, 0, segs, si + 1))
                },
                _ => v,
            },
            SegV::DescKey(k) => del_desc(v, k, segs, si),
        }
    }
}

#[via_fn]
proof fn del_dec(v: JVal, segs: Seq<SegV>, si: int) {
    sel_step_dec(v);
    if 0 <= si && si < segs.len() {
        match segs[si] {
            SegV::Key(k) => {
                if v is Obj {
                    crate::parse::lemma_find_key_char(v->Obj_0, k);
                }
            },
            _ => {},
        }
    }
}

/// Deletion continued through every field value of an object (`si` is
/// already the next segment).
pub open spec fn del_vals(m: Seq<(Seq<char>, JVal)>, from: int, segs: Seq<SegV>, si: int) -> Seq<
    (Seq<char>, JVal),
>
    decreases m, 2int, m.len() - from,
{
    if !(0 <= from && from < m.len()) {
        m
    } else {
        del_vals(m, from + 1, segs, si).update(from, (m[from].0, del(m[from].1, segs, si)))
    }
}

/// Deletion continued through every element of an array.
pub open spec fn del_elems(a: Seq<JVal>, from: int, segs: Seq<SegV>, si: int) -> Seq<JVal>
    decreases a, 2int, a.len() - from,
{
    if !(0 <= from && from < a.len()) {
        a
    } else {
        del_elems(a, from + 1, segs, si).update(from, del(a[from], segs, si))
    }
}

/// Recursive descent deletion: a shallowest field named `k` is removed (at
/// the last segment) or rewritten (with remaining segments); everything
/// else is searched.
pub open spec fn del_desc(v: JVal, k: Seq<char>, segs: Seq<SegV>, si: int) -> JVal
    decreases v, 2int, 0int,
{
    match v {
        JVal::Obj(m) => JVal::Obj(del_desc_fields(m, 0, k, segs, si)),
        JVal::Arr(a) => JVal::Arr(del_desc_elems(a, 0, k, segs, si)),
        _ => v,
    }
}

/// Descent deletion through an object's fields, from `from` on: the
/// processed tail of the field list.
pub open spec fn del_desc_fields(
    m: Seq<(Seq<char>, JVal)>,
    from: int,
    k: Seq<char>,
    segs: Seq<SegV>,
    si: int,
) -> Seq<(Seq<char>, JVal)>
    decreases m, 1int, m.len() - from,
{
    if !(0 <= from && from < m.len()) {
        Seq::empty()
    } else {
        let rest = del_desc_fields(m, from + 1, k, segs, si);
        if m[from].0 == k {
            if si + 1 == segs.len() {
                rest
            } else {
                seq![(m[from].0, del(m[from].1, segs, si + 1))] + rest
            }
        } else {
            seq![(m[from].0, del_desc(m[from].1, k, segs, si))] + rest
        }
    }
}

/// Descent deletion through an array's elements.
pub open spec fn del_desc_elems(
    a: Seq<JVal>,
    from: int,
    k: Seq<char>,
    segs: Seq<SegV>,
    si: int,
) -> Seq<JVal>
    decreases a, 1int, a.len() - from,
{
    if !(0 <= from && from < a.len()) {
        Seq::empty()
    } else {
        seq![del_desc(a[from], k, segs, si)] + del_desc_elems(a, from + 1, k, segs, si)
    }
}

/// Rewriting an object's fields for deletion keeps the arity and earlier
/// fields, and rewrites each later value.
proof fn lemma_del_vals_frame(
    m: Seq<(Seq<char>, JVal)>,
    from: int,
    segs: Seq<SegV>,
    si: int,
)
    ensures
        del_vals(m, from, segs, si).len() == m.len(),
        forall|w: int|
            0 <= w < m.len() && !(from <= w) ==> del_vals(m, from, segs, si)[w] == m[w],
        forall|w: int|
            0 <= w < m.len() && 0 <= from <= w ==> del_vals(m, from, segs, si)[w] == (
            m[w].0,
            del(m[w].1, segs, si),
            ),
    decreases m.len() - from,
{
    if 0 <= from && from < m.len() {
        lemma_del_vals_frame(m, from + 1, segs, si);
    }
}

/// Rewriting an array's elements for deletion keeps the arity and earlier
/// elements, and rewrites each later element.
proof fn lemma_del_elems_frame(a: Seq<JVal>, from: int, segs: Seq<SegV>, si: int)
    ensures
        del_elems(a, from, segs, si).len() == a.len(),
        forall|w: int|
            0 <= w < a.len() && !(from <= w) ==> del_elems(a, from, segs, si)[w] == a[w],
        forall|w: int|
            0 <= w < a.len() && 0 <= from <= w ==> del_elems(a, from, segs, si)[w] == del(
                a[w],
                segs,
                si,
            ),
    decreases a.len() - from,
{
    if 0 <= from && from < a.len() {
        lemma_del_elems_frame(a, from + 1, segs, si);
    }
}

/// The built field removal models the specified concatenation.
proof fn lemma_field_remove_model(out: Seq<(String, Value)>, m: Seq<(String, Value)>, at: int)
    requires
        0 <= at < m.len(),
        out.len() == m.len() - 1,
        forall|w: int|
            0 <= w < at ==> (#[trigger] out[w]).0@ == m[w].0@ && out[w].1@ == m[w].1@,
        forall|w: int|
            at <= w < out.len() ==> (#[trigger] out[w]).0@ == m[w + 1].0@ && out[w].1@ == m[w
                + 1].1@,
    ensures
        Value::model_fields(out) == Value::model_fields(m).subrange(0, at)
            + Value::model_fields(m).subrange(at + 1, m.len() as int),
{
    crate::codec::lemma_model_fields_len(out);
    crate::codec::lemma_model_fields_len(m);
    assert forall|w: int| 0 <= w < out.len() implies Value::model_fields(out)[w]
        == (Value::model_fields(m).subrange(0, at) + Value::model_fields(m).subrange(
        at + 1,
        m.len() as int,
    ))[w] by {
        crate::codec::lemma_model_fields_index(out, w);
        if w < at {
            crate::codec::lemma_model_fields_index(m, w);
        } else {
            crate::codec::lemma_model_fields_index(m, w + 1);
        }
    }
    assert(Value::model_fields(out) =~= Value::model_fields(m).subrange(0, at)
        + Value::model_fields(m).subrange(at + 1, m.len() as int));
}

/// Rebuilds the tree with every entry the segments from `si` on select
/// removed from its parent.
pub fn del_tree(v: &Value, segs: &Vec<Seg>, si: usize) -> (r: Value)
    requires
        si < segs.len(),
    ensures
        r@ == del(v@, seg_models(segs@), si as int),
    decreases v, 3int, 0int,
{
    let ghost sm = seg_models(segs@);
    let last = si + 1 == segs.len();
    proof {
        assert(sm[si as int] == segs@[si as int]@);
    }
    match &segs[si] {
        Seg::Key(k) => {
            match v {
                Value::Obj(m) => {
                    match field_index(m, k) {
                        Some(w) => {
                            proof {
                                crate::codec::lemma_model_fields_len(m@);
                                crate::codec::lemma_model_fields_index(m@, w as int);
                            }
                            if last {
                                let n = m.len();
                                let mut out: Vec<(String, Value)> = Vec::new();
                                let mut u: usize = 0;
                                while u < n
                                    invariant
                                        w < n && n == m.len(),
                                        u <= n,
                                        out@.len() == (if u <= w {
                                            u as int
                                        } else {
                                            u - 1
                                        }),
                                        forall|x: int|
                                            0 <= x < u && x < w ==> (#[trigger] out@[x]).0@
                                                == m@[x].0@ && out@[x].1@ == m@[x].1@,
                                        forall|x: int|
                                            w <= x < out@.len() ==> (#[trigger] out@[x]).0@
                                                == m@[x + 1].0@ && out@[x].1@ == m@[x + 1].1@,
                                    decreases n - u,
                                {
                                    if u != w {
                                        let c = clone_value(&m[u].1);
                                        let key = m[u].0.clone();
                                        out.push((key, c));
                                    }
                                    u += 1;
                                }
                                proof {
                                    lemma_field_remove_model(out@, m@, w as int);
                                    crate::codec::lemma_model_fields_len(m@);
                                }
                                Value::Obj(out)
                            } else {
                                proof {
                                    assert(decreases_to!(*v => v->Obj_0));
                                    assert(decreases_to!(m@ => m@[w as int]));
                                    assert(decreases_to!(m@[w as int] => m@[w as int].1));
                                }
                                let c = del_tree(&m[w].1, segs, si + 1);
                                let nf = rebuild_field(m, w, c);
                                Value::Obj(nf)
                            }
                        },
                        None => clone_value(v),
                    }
                },
                _ => clone_value(v),
            }
        },
        Seg::Index(n) => {
            match v {
                Value::Arr(a) => {
                    proof {
                        crate::codec::lemma_model_elems_len(a@);
                    }
                    if *n < a.len() {
                        proof {
                            crate::codec::lemma_model_elems_index(a@, *n as int);
                        }
                        if last {
                            let nn = a.len();
                            let mut out: Vec<Value> = Vec::new();
                            let mut u: usize = 0;
                            while u < nn
                                invariant
                                    *n < nn && nn == a.len(),
                                    u <= nn,
                                    out@.len() == (if u <= *n {
                                        u as int
                                    } else {
                                        u - 1
                                    }),
                                    forall|x: int|
                                        0 <= x < u && x < *n ==> (#[trigger] out@[x])@
                                            == a@[x]@,
                                    forall|x: int|
                                        *n <= x < out@.len() ==> (#[trigger] out@[x])@ == a@[x
                                            + 1]@,
                                decreases nn - u,
                            {
                                if u != *n {
                                    let c = clone_value(&a[u]);
                                    out.push(c);
                                }
                                u += 1;
                            }
                            proof {
                                crate::ops::lemma_pop_model(out@, a@, *n as int);
                                crate::codec::lemma_model_elems_len(a@);
                            }
                            Value::Arr(out)
                        } else {
                            proof {
                                assert(decreases_to!(*v => v->Arr_0));
                                assert(decreases_to!(a@ => a@[*n as int]));
                            }
                            let c = del_tree(&a[*n], segs, si + 1);
                            let na = rebuild_elem(a, *n, c);
                            Value::Arr(na)
                        }
                    } else {
                        clone_value(v)
                    }
                },
                _ => clone_value(v),
            }
        },
        Seg::Wild => {
            match v {
                Value::Obj(m) => {
                    if last {
                        let out: Vec<(String, Value)> = Vec::new();
                        proof {
                            assert(Value::model_fields(out@) =~= Seq::<
                                (Seq<char>, JVal),
                            >::empty());
                        }
                        Value::Obj(out)
                    } else {
                        let n = m.len();
                        let mut nf: Vec<(String, Value)> = Vec::new();
                        let mut u: usize = 0;
                        while u < n
                            invariant
                                v is Obj && m == v->Obj_0,
                                si + 1 < segs.len(),
                                sm == seg_models(segs@),
                                u <= n && n == m.len(),
                                nf@.len() == u,
                                forall|x: int|
                                    0 <= x < u ==> (#[trigger] nf@[x]).0@ == m@[x].0@
                                        && nf@[x].1@ == del(
                                        Value::model_fields(m@)[x].1,
                                        sm,
                                        si + 1,
                                    ),
                            decreases n - u,
                        {
                            proof {
                                crate::codec::lemma_model_fields_len(m@);
                                crate::codec::lemma_model_fields_index(m@, u as int);
                                assert(decreases_to!(*v => v->Obj_0));
                                assert(decreases_to!(m@ => m@[u as int]));
                                assert(decreases_to!(m@[u as int] => m@[u as int].1));
                            }
                            let c = del_tree(&m[u].1, segs, si + 1);
                            let key = m[u].0.clone();
                            nf.push((key, c));
                            u += 1;
                        }
                        proof {
                            let mf = Value::model_fields(m@);
                            crate::codec::lemma_model_fields_len(m@);
                            crate::codec::lemma_model_fields_len(nf@);
                            lemma_del_vals_frame(mf, 0, sm, si + 1);
                            assert forall|x: int| 0 <= x < n implies Value::model_fields(
                                nf@,
                            )[x] == del_vals(mf, 0, sm, si + 1)[x] by {
                                crate::codec::lemma_model_fields_index(nf@, x);
                                crate::codec::lemma_model_fields_index(m@, x);
                            }
                            assert(Value::model_fields(nf@) =~= del_vals(mf, 0, sm, si + 1));
                        }
                        Value::Obj(nf)
                    }
                },
                Value::Arr(a) => {
                    if last {
                        let out: Vec<Value> = Vec::new();
                        proof {
                            assert(Value::model_elems(out@) =~= Seq::<JVal>::empty());
                        }
                        Value::Arr(out)
                    } else {
                        let n = a.len();
                        let mut na: Vec<Value> = Vec::new();
                        let mut u: usize = 0;
                        while u < n
                            invariant
                                v is Arr && a == v->Arr_0,
                                si + 1 < segs.len(),
                                sm == seg_models(segs@),
                                u <= n && n == a.len(),
                                na@.len() == u,
                                forall|x: int|
                                    0 <= x < u ==> (#[trigger] na@[x])@ == del(
                                        Value::model_elems(a@)[x],
                                        sm,
                                        si + 1,
                                    ),
                            decreases n - u,
                        {
                            proof {
                                crate::codec::lemma_model_elems_len(a@);
                                crate::codec::lemma_model_elems_index(a@, u as int);
                                assert(decreases_to!(*v => v->Arr_0));
                                assert(decreases_to!(a@ => a@[u as int]));
                            }
                            let c = del_tree(&a[u], segs, si + 1);
                            na.push(c);
                            u += 1;
                        }
                        proof {
                            let am = Value::model_elems(a@);
                            crate::codec::lemma_model_elems_len(a@);
                            crate::codec::lemma_model_elems_len(na@);
                            lemma_del_elems_frame(am, 0, sm, si + 1);
                            assert forall|x: int| 0 <= x < n implies Value::model_elems(
                                na@,
                            )[x] == del_elems(am, 0, sm, si + 1)[x] by {
                                crate::codec::lemma_model_elems_index(na@, x);
                                crate::codec::lemma_model_elems_index(a@, x);
                            }
                            assert(Value::model_elems(na@) =~= del_elems(am, 0, sm, si + 1));
                        }
                        Value::Arr(na)
                    }
                },
                _ => clone_value(v),
            }
        },
        Seg::DescKey(k) => del_desc_tree(v, k, segs, si),
    }
}

/// Descent deletion: rebuilds `v` with every shallowest field named `k`
/// removed (or rewritten, when segments remain).
fn del_desc_tree(v: &Value, k: &String, segs: &Vec<Seg>, si: usize) -> (r: Value)
    requires
        si < segs.len(),
    ensures
        r@ == del_desc(v@, k@, seg_models(segs@), si as int),
    decreases v, 2int, 0int,
{
    let ghost sm = seg_models(segs@);
    match v {
        Value::Obj(m) => {
            let n = m.len();
            let mut out: Vec<(String, Value)> = Vec::new();
            let mut u: usize = 0;
            proof {
                crate::codec::lemma_model_fields_len(m@);
            }
            while u < n
                invariant
                    v is Obj && m == v->Obj_0,
                    si < segs.len(),
                    sm == seg_models(segs@),
                    u <= n && n == m.len(),
                    del_desc_fields(Value::model_fields(m@), 0, k@, sm, si as int)
                        == Value::model_fields(out@) + del_desc_fields(
                        Value::model_fields(m@),
                        u as int,
                        k@,
                        sm,
                        si as int,
                    ),
                decreases n - u,
            {
                proof {
                    crate::codec::lemma_model_fields_len(m@);
                    crate::codec::lemma_model_fields_index(m@, u as int);
                    assert(decreases_to!(*v => v->Obj_0));
                    assert(decreases_to!(m@ => m@[u as int]));
                    assert(decreases_to!(m@[u as int] => m@[u as int].1));
                }
                let ghost mf = Value::model_fields(m@);
                let ghost outb = out@;
                let matched = m[u].0 == *k;
                let last = si + 1 == segs.len();
                if matched && last {
                    proof {
                        assert(del_desc_fields(mf, u as int, k@, sm, si as int)
                            == del_desc_fields(mf, u as int + 1, k@, sm, si as int));
                    }
                } else if matched {
                    let c = del_tree(&m[u].1, segs, si + 1);
                    let key = m[u].0.clone();
                    out.push((key, c));
                    proof {
                        crate::codec::lemma_model_fields_push(outb, out@[out@.len() - 1].0,
                            out@[out@.len() - 1].1);
                        assert(del_desc_fields(mf, u as int, k@, sm, si as int) == seq![
                            (mf[u as int].0, del(mf[u as int].1, sm, si + 1)),
                        ] + del_desc_fields(mf, u as int + 1, k@, sm, si as int));
                        assert(Value::model_fields(outb) + (seq![
                            (mf[u as int].0, del(mf[u as int].1, sm, si + 1)),
                        ] + del_desc_fields(mf, u as int + 1, k@, sm, si as int))
                            =~= Value::model_fields(out@) + del_desc_fields(
                            mf,
                            u as int + 1,
                            k@,
                            sm,
                            si as int,
                        ));
                    }
                } else {
                    let c = del_desc_tree(&m[u].1, k, segs, si);
                    let key = m[u].0.clone();
                    out.push((key, c));
                    proof {
                        crate::codec::lemma_model_fields_push(outb, out@[out@.len() - 1].0,
                            out@[out@.len() - 1].1);
                        assert(del_desc_fields(mf, u as int, k@, sm, si as int) == seq![
                            (mf[u as int].0, del_desc(mf[u as int].1, k@, sm, si as int)),
                        ] + del_desc_fields(mf, u as int + 1, k@, sm, si as int));
                        assert(Value::model_fields(outb) + (seq![
                            (mf[u as int].0, del_desc(mf[u as int].1, k@, sm, si as int)),
                        ] + del_desc_fields(mf, u as int + 1, k@, sm, si as int))
                            =~= Value::model_fields(out@) + del_desc_fields(
                            mf,
                            u as int + 1,
                            k@,
                            sm,
                            si as int,
                        ));
                    }
                }
                u += 1;
            }
            proof {
                let mf = Value::model_fields(m@);
                crate::codec::lemma_model_fields_len(m@);
                assert(del_desc_fields(mf, n as int, k@, sm, si as int) =~= Seq::<
                    (Seq<char>, JVal),
                >::empty());
                assert(Value::model_fields(out@) + Seq::<(Seq<char>, JVal)>::empty()
                    =~= Value::model_fields(out@));
            }
            Value::Obj(out)
        },
        Value::Arr(a) => {
            let n = a.len();
            let mut out: Vec<Value> = Vec::new();
            let mut u: usize = 0;
            proof {
                crate::codec::lemma_model_elems_len(a@);
            }
            while u < n
                invariant
                    v is Arr && a == v->Arr_0,
                    si < segs.len(),
                    sm == seg_models(segs@),
                    u <= n && n == a.len(),
                    del_desc_elems(Value::model_elems(a@), 0, k@, sm, si as int)
                        == Value::model_elems(out@) + del_desc_elems(
                        Value::model_elems(a@),
                        u as int,
                        k@,
                        sm,
                        si as int,
                    ),
                decreases n - u,
            {
                proof {
                    crate::codec::lemma_model_elems_len(a@);
                    crate::codec::lemma_model_elems_index(a@, u as int);
                    assert(decreases_to!(*v => v->Arr_0));
                    assert(decreases_to!(a@ => a@[u as int]));
                }
                let ghost am = Value::model_elems(a@);
                let ghost outb = out@;
                let c = del_desc_tree(&a[u], k, segs, si);
                out.push(c);
                proof {
                    crate::codec::lemma_model_elems_push(outb, out@[out@.len() - 1]);
                    assert(del_desc_elems(am, u as int, k@, sm, si as int) == seq![
                        del_desc(am[u as int], k@, sm, si as int),
                    ] + del_desc_elems(am, u as int + 1, k@, sm, si as int));
                    assert(Value::model_elems(outb) + (seq![
                        del_desc(am[u as int], k@, sm, si as int),
                    ] + del_desc_elems(am, u as int + 1, k@, sm, si as int))
                        =~= Value::model_elems(out@) + del_desc_elems(
                        am,
                        u as int + 1,
                        k@,
                        sm,
                        si as int,
                    ));
                }
                u += 1;
            }
            proof {
                let am = Value::model_elems(a@);
                crate::codec::lemma_model_elems_len(a@);
                assert(del_desc_elems(am, n as int, k@, sm, si as int) =~= Seq::<JVal>::empty());
                assert(Value::model_elems(out@) + Seq::<JVal>::empty() =~= Value::model_elems(
                    out@,
                ));
            }
            Value::Arr(out)
        },
        _ => clone_value(v),
    }
}

// ---------------------------------------------------------------------------
// Deletion keeps documents well-formed
// ---------------------------------------------------------------------------

/// Deleting along a path keeps a well-formed tree well-formed: removal only
/// narrows objects and arrays, and rewritten children stay well-formed.
pub proof fn lemma_del_wf(v: JVal, segs: Seq<SegV>, si: int)
    requires
        wf_val(v),
    ensures
        wf_val(del(v, segs, si)),
    decreases v, 3int, 0int,
{
    if 0 <= si && si < segs.len() {
        let last = si + 1 == segs.len();
        match segs[si] {
            SegV::Key(k) => {
                if v is Obj {
                    let m = v->Obj_0;
                    crate::parse::lemma_find_key_char(m, k);
                    let idx = find_key(m, k);
                    if idx >= 0 {
                        lemma_wf_fields_iff(m);
                        if last {
                            let r = m.subrange(0, idx) + m.subrange(idx + 1, m.len() as int);
                            lemma_wf_fields_iff(r);
                            assert forall|w: int| 0 <= w < r.len() implies wf_val(
                                (#[trigger] r[w]).1,
                            ) by {
                                if w < idx {
                                    assert(r[w] == m[w]);
                                } else {
                                    assert(r[w] == m[w + 1]);
                                }
                            }
                            assert forall|a: int, b: int| 0 <= a < b < r.len() implies (
                            #[trigger] r[a]).0 != (#[trigger] r[b]).0 by {
                                let pa = if a < idx {
                                    a
                                } else {
                                    a + 1
                                };
                                let pb = if b < idx {
                                    b
                                } else {
                                    b + 1
                                };
                                assert(r[a] == m[pa] && r[b] == m[pb]);
                                assert(m[pa].0 != m[pb].0);
                            }
                        } else {
                            assert(decreases_to!(v => v->Obj_0));
                            assert(decreases_to!(m => m[idx]));
                            assert(decreases_to!(m[idx] => m[idx].1));
                            lemma_del_wf(m[idx].1, segs, si + 1);
                            let r = m.update(idx, (m[idx].0, del(m[idx].1, segs, si + 1)));
                            lemma_wf_fields_iff(r);
                            assert forall|w: int| 0 <= w < r.len() implies wf_val(
                                (#[trigger] r[w]).1,
                            ) by {
                                if w != idx {
                                    assert(r[w] == m[w]);
                                }
                            }
                            assert forall|a: int, b: int| 0 <= a < b < r.len() implies (
                            #[trigger] r[a]).0 != (#[trigger] r[b]).0 by {
                                assert(r[a].0 == m[a].0 && r[b].0 == m[b].0);
                                assert(m[a].0 != m[b].0);
                            }
                        }
                    }
                }
            },
            SegV::Index(n) => {
                if v is Arr && 0 <= n && n < v->Arr_0.len() {
                    let a = v->Arr_0;
                    lemma_wf_elems_iff(a);
                    if last {
                        let r = a.subrange(0, n) + a.subrange(n + 1, a.len() as int);
                        lemma_wf_elems_iff(r);
                        assert forall|w: int| 0 <= w < r.len() implies wf_val(#[trigger] r[w])
                            by {
                            if w < n {
                                assert(r[w] == a[w]);
                            } else {
                                assert(r[w] == a[w + 1]);
                            }
                        }
                    } else {
                        assert(decreases_to!(v => v->Arr_0));
                        assert(decreases_to!(a => a[n]));
                        lemma_del_wf(a[n], segs, si + 1);
                        let r = a.update(n, del(a[n], segs, si + 1));
                        lemma_wf_elems_iff(r);
                        assert forall|w: int| 0 <= w < r.len() implies wf_val(#[trigger] r[w])
                            by {
                            if w != n {
                                assert(r[w] == a[w]);
                            }
                        }
                    }
                }
            },
            SegV::Wild => {
                if v is Obj {
                    let m = v->Obj_0;
                    if last {
                        assert(wf_val(JVal::Obj(Seq::empty()))) by {
                            lemma_wf_fields_iff(Seq::<(Seq<char>, JVal)>::empty());
                        }
                    } else {
                        assert(decreases_to!(v => v->Obj_0));
                        lemma_del_vals_frame(m, 0, segs, si + 1);
                        let r = del_vals(m, 0, segs, si + 1);
                        lemma_wf_fields_iff(m);
                        lemma_wf_fields_iff(r);
                        assert forall|w: int| 0 <= w < r.len() implies wf_val(
                            (#[trigger] r[w]).1,
                        ) by {
                            assert(decreases_to!(m => m[w]));
                            assert(decreases_to!(m[w] => m[w].1));
                            lemma_del_wf(m[w].1, segs, si + 1);
                            assert(r[w] == (m[w].0, del(m[w].1, segs, si + 1)));
                        }
                        assert forall|a: int, b: int| 0 <= a < b < r.len() implies (
                        #[trigger] r[a]).0 != (#[trigger] r[b]).0 by {
                            assert(r[a].0 == m[a].0 && r[b].0 == m[b].0);
                            assert(m[a].0 != m[b].0);
                        }
                    }
                } else if v is Arr {
                    let a = v->Arr_0;
                    if last {
                        assert(wf_val(JVal::Arr(Seq::empty()))) by {
                            lemma_wf_elems_iff(Seq::<JVal>::empty());
                        }
                    } else {
                        assert(decreases_to!(v => v->Arr_0));
                        lemma_del_elems_frame(a, 0, segs, si + 1);
                        let r = del_elems(a, 0, segs, si + 1);
                        lemma_wf_elems_iff(a);
                        lemma_wf_elems_iff(r);
                        assert forall|w: int| 0 <= w < r.len() implies wf_val(#[trigger] r[w])
                            by {
                            assert(decreases_to!(a => a[w]));
                            lemma_del_wf(a[w], segs, si + 1);
                            assert(r[w] == del(a[w], segs, si + 1));
                        }
                    }
                }
            },
            SegV::DescKey(k) => {
                lemma_del_desc_wf(v, k, segs, si);
            },
        }
    }
}

proof fn lemma_del_desc_wf(v: JVal, k: Seq<char>, segs: Seq<SegV>, si: int)
    requires
        wf_val(v),
    ensures
        wf_val(del_desc(v, k, segs, si)),
    decreases v, 2int, 0int,
{
    if v is Obj {
        let m = v->Obj_0;
        assert(decreases_to!(v => v->Obj_0));
        lemma_wf_fields_iff(m);
        lemma_del_desc_fields_wf(m, 0, k, segs, si);
        let r = del_desc_fields(m, 0, k, segs, si);
        lemma_wf_fields_iff(r);
    } else if v is Arr {
        let a = v->Arr_0;
        assert(decreases_to!(v => v->Arr_0));
        lemma_wf_elems_iff(a);
        lemma_del_desc_elems_wf(a, 0, k, segs, si);
        let r = del_desc_elems(a, 0, k, segs, si);
        lemma_wf_elems_iff(r);
    }
}

/// Descent deletion keeps field values well-formed, keys pairwise distinct,
/// and every surviving key is one of the source's keys at or after `from`.
proof fn lemma_del_desc_fields_wf(
    m: Seq<(Seq<char>, JVal)>,
    from: int,
    k: Seq<char>,
    segs: Seq<SegV>,
    si: int,
)
    requires
        crate::codec::keys_unique(m),
        forall|w: int| 0 <= w < m.len() ==> wf_val((#[trigger] m[w]).1),
    ensures
        ({
            let r = del_desc_fields(m, from, k, segs, si);
            &&& forall|i: int| 0 <= i < r.len() ==> wf_val((#[trigger] r[i]).1)
            &&& crate::codec::keys_unique(r)
            &&& forall|i: int|
                0 <= i < r.len() ==> exists|j: int|
                    from <= j < m.len() && (#[trigger] r[i]).0 == m[j].0
        }),
    decreases m, 1int, m.len() - from,
{
    if 0 <= from && from < m.len() {
        assert(decreases_to!(m => m[from]));
        assert(decreases_to!(m[from] => m[from].1));
        lemma_del_desc_fields_wf(m, from + 1, k, segs, si);
        let rest = del_desc_fields(m, from + 1, k, segs, si);
        let r = del_desc_fields(m, from, k, segs, si);
        if m[from].0 == k && si + 1 == segs.len() {
            assert(r == rest);
            assert forall|i: int| 0 <= i < r.len() implies exists|j: int|
                from <= j < m.len() && (#[trigger] r[i]).0 == m[j].0 by {
                let j0 = choose|j: int| from + 1 <= j < m.len() && r[i].0 == m[j].0;
                assert(from <= j0 < m.len() && r[i].0 == m[j0].0);
            }
        } else {
            let h = if m[from].0 == k {
                (m[from].0, del(m[from].1, segs, si + 1))
            } else {
                (m[from].0, del_desc(m[from].1, k, segs, si))
            };
            assert(r == seq![h] + rest);
            if m[from].0 == k {
                lemma_del_wf(m[from].1, segs, si + 1);
            } else {
                lemma_del_desc_wf(m[from].1, k, segs, si);
            }
            assert forall|i: int| 0 <= i < r.len() implies wf_val((#[trigger] r[i]).1) by {
                if i > 0 {
                    assert(r[i] == rest[i - 1]);
                }
            }
            assert forall|i: int| 0 <= i < r.len() implies exists|j: int|
                from <= j < m.len() && (#[trigger] r[i]).0 == m[j].0 by {
                if i == 0 {
                    assert(from <= from < m.len() && r[0].0 == m[from].0);
                } else {
                    assert(r[i] == rest[i - 1]);
                    let j0 = choose|j: int|
                        from + 1 <= j < m.len() && rest[i - 1].0 == m[j].0;
                    assert(from <= j0 < m.len() && r[i].0 == m[j0].0);
                }
            }
            assert forall|a: int, b: int| 0 <= a < b < r.len() implies (#[trigger] r[a]).0 != (
            #[trigger] r[b]).0 by {
                if a == 0 {
                    assert(r[b] == rest[b - 1]);
                    let j0 = choose|j: int|
                        from + 1 <= j < m.len() && rest[b - 1].0 == m[j].0;
                    assert(m[from].0 != m[j0].0);
                } else {
                    assert(r[a] == rest[a - 1] && r[b] == rest[b - 1]);
                }
            }
        }
    }
}

proof fn lemma_del_desc_elems_wf(a: Seq<JVal>, from: int, k: Seq<char>, segs: Seq<SegV>, si: int)
    requires
        forall|w: int| 0 <= w < a.len() ==> wf_val(#[trigger] a[w]),
    ensures
        forall|i: int|
            0 <= i < del_desc_elems(a, from, k, segs, si).len() ==> wf_val(
                #[trigger] del_desc_elems(a, from, k, segs, si)[i],
            ),
    decreases a, 1int, a.len() - from,
{
    if 0 <= from && from < a.len() {
        assert(decreases_to!(a => a[from]));
        lemma_del_desc_elems_wf(a, from + 1, k, segs, si);
        lemma_del_desc_wf(a[from], k, segs, si);
        let rest = del_desc_elems(a, from + 1, k, segs, si);
        let r = del_desc_elems(a, from, k, segs, si);
        assert forall|i: int| 0 <= i < r.len() implies wf_val(#[trigger] r[i]) by {
            if i > 0 {
                assert(r[i] == rest[i - 1]);
            }
        }
    }
}

// ---------------------------------------------------------------------------
// Laws of deletion
// ---------------------------------------------------------------------------

/// A deletion that selected nothing leaves the tree exactly as it was.
pub proof fn lemma_del_no_match(v: JVal, segs: Seq<SegV>, si: int)
    requires
        sel(v, segs, si).len() == 0,
    ensures
        del(v, segs, si) == v,
    decreases v, 3int, 0int,
{
    if 0 <= si && si < segs.len() {
        let last = si + 1 == segs.len();
        match segs[si] {
            SegV::Key(k) => {
                if v is Obj {
                    let m = v->Obj_0;
                    crate::parse::lemma_find_key_char(m, k);
                    let idx = find_key(m, k);
                    if idx >= 0 {
                        assert(decreases_to!(v => v->Obj_0));
                        assert(decreases_to!(m => m[idx]));
                        assert(decreases_to!(m[idx] => m[idx].1));
                        if last {
                            assert(sel(m[idx].1, segs, si + 1).len() == 1);
                        } else {
                            lemma_del_no_match(m[idx].1, segs, si + 1);
                            assert(m[idx] == (m[idx].0, m[idx].1));
                            assert(m.update(idx, m[idx]) =~= m);
                        }
                    }
                }
            },
            SegV::Index(n) => {
                if v is Arr && 0 <= n && n < v->Arr_0.len() {
                    let a = v->Arr_0;
                    assert(decreases_to!(v => v->Arr_0));
                    assert(decreases_to!(a => a[n]));
                    if last {
                        assert(sel(a[n], segs, si + 1).len() == 1);
                    } else {
                        lemma_del_no_match(a[n], segs, si + 1);
                        assert(a.update(n, a[n]) =~= a);
                    }
                }
            },
            SegV::Wild => {
                if v is Obj {
                    let m = v->Obj_0;
                    assert(decreases_to!(v => v->Obj_0));
                    lemma_del_vals_no_match(m, 0, segs, si + 1);
                    if last && m.len() > 0 {
                        assert(sel(m[0].1, segs, si + 1).len() == 1);
                        assert(sel_vals(m, 0, segs, si + 1).len() >= 1);
                    }
                    if last {
                        assert(m =~= Seq::<(Seq<char>, JVal)>::empty());
                    }
                } else if v is Arr {
                    let a = v->Arr_0;
                    assert(decreases_to!(v => v->Arr_0));
                    lemma_del_elems_no_match(a, 0, segs, si + 1);
                    if last && a.len() > 0 {
                        assert(sel(a[0], segs, si + 1).len() == 1);
                        assert(sel_elems(a, 0, segs, si + 1).len() >= 1);
                    }
                    if last {
                        assert(a =~= Seq::<JVal>::empty());
                    }
                }
            },
            SegV::DescKey(k) => {
                lemma_del_desc_no_match(v, k, segs, si);
            },
        }
    }
}

proof fn lemma_del_vals_no_match(m: Seq<(Seq<char>, JVal)>, from: int, segs: Seq<SegV>, si: int)
    requires
        sel_vals(m, from, segs, si).len() == 0,
    ensures
        del_vals(m, from, segs, si) == m,
    decreases m, 2int, m.len() - from,
{
    if 0 <= from && from < m.len() {
        assert(decreases_to!(m => m[from]));
        assert(decreases_to!(m[from] => m[from].1));
        lemma_del_no_match(m[from].1, segs, si);
        lemma_del_vals_no_match(m, from + 1, segs, si);
        assert(m[from] == (m[from].0, m[from].1));
        assert(m.update(from, m[from]) =~= m);
    }
}

proof fn lemma_del_elems_no_match(a: Seq<JVal>, from: int, segs: Seq<SegV>, si: int)
    requires
        sel_elems(a, from, segs, si).len() == 0,
    ensures
        del_elems(a, from, segs, si) == a,
    decreases a, 2int, a.len() - from,
{
    if 0 <= from && from < a.len() {
        assert(decreases_to!(a => a[from]));
        lemma_del_no_match(a[from], segs, si);
        lemma_del_elems_no_match(a, from + 1, segs, si);
        assert(a.update(from, a[from]) =~= a);
    }
}

proof fn lemma_del_desc_no_match(v: JVal, k: Seq<char>, segs: Seq<SegV>, si: int)
    requires
        desc_key(v, k, segs, si).len() == 0,
    ensures
        del_desc(v, k, segs, si) == v,
    decreases v, 2int, 0int,
{
    if v is Obj {
        let m = v->Obj_0;
        assert(decreases_to!(v => v->Obj_0));
        lemma_del_desc_fields_no_match(m, 0, k, segs, si);
        assert(m.subrange(0, m.len() as int) =~= m);
    } else if v is Arr {
        let a = v->Arr_0;
        assert(decreases_to!(v => v->Arr_0));
        lemma_del_desc_elems_no_match(a, 0, k, segs, si);
        assert(a.subrange(0, a.len() as int) =~= a);
    }
}

proof fn lemma_del_desc_fields_no_match(
    m: Seq<(Seq<char>, JVal)>,
    from: int,
    k: Seq<char>,
    segs: Seq<SegV>,
    si: int,
)
    requires
        0 <= from <= m.len(),
        desc_fields(m, from, k, segs, si).len() == 0,
    ensures
        del_desc_fields(m, from, k, segs, si) == m.subrange(from, m.len() as int),
    decreases m, 1int, m.len() - from,
{
    if 0 <= from && from < m.len() {
        assert(decreases_to!(m => m[from]));
        assert(decreases_to!(m[from] => m[from].1));
        if m[from].0 == k {
            if si + 1 == segs.len() {
                assert(sel(m[from].1, segs, si + 1).len() == 1);
            } else {
                lemma_del_no_match(m[from].1, segs, si + 1);
            }
        } else {
            lemma_del_desc_no_match(m[from].1, k, segs, si);
        }
        lemma_del_desc_fields_no_match(m, from + 1, k, segs, si);
        assert(m[from] == (m[from].0, m[from].1));
        assert(seq![m[from]] + m.subrange(from + 1, m.len() as int) =~= m.subrange(
            from,
            m.len() as int,
        ));
    } else {
        assert(m.subrange(from, m.len() as int) =~= Seq::<(Seq<char>, JVal)>::empty());
    }
}

proof fn lemma_del_desc_elems_no_match(
    a: Seq<JVal>,
    from: int,
    k: Seq<char>,
    segs: Seq<SegV>,
    si: int,
)
    requires
        0 <= from <= a.len(),
        desc_elems(a, from, k, segs, si).len() == 0,
    ensures
        del_desc_elems(a, from, k, segs, si) == a.subrange(from, a.len() as int),
    decreases a, 1int, a.len() - from,
{
    if 0 <= from && from < a.len() {
        assert(decreases_to!(a => a[from]));
        lemma_del_desc_no_match(a[from], k, segs, si);
        lemma_del_desc_elems_no_match(a, from + 1, k, segs, si);
        assert(seq![a[from]] + a.subrange(from + 1, a.len() as int) =~= a.subrange(
            from,
            a.len() as int,
        ));
    } else {
        assert(a.subrange(from, a.len() as int) =~= Seq::<JVal>::empty());
    }
}

/// Scanning fields past a prepended head scans the tail.
proof fn lemma_desc_fields_shift(
    h: (Seq<char>, JVal),
    t: Seq<(Seq<char>, JVal)>,
    from: int,
    k: Seq<char>,
    segs: Seq<SegV>,
    si: int,
)
    requires
        1 <= from,
    ensures
        desc_fields(seq![h] + t, from, k, segs, si) == desc_fields(t, from - 1, k, segs, si),
    decreases t.len() + 1 - from,
{
    let x = seq![h] + t;
    if from < x.len() {
        assert(x[from] == t[from - 1]);
        lemma_desc_fields_shift(h, t, from + 1, k, segs, si);
    }
}

/// Scanning elements past a prepended head scans the tail.
proof fn lemma_desc_elems_shift(
    h: JVal,
    t: Seq<JVal>,
    from: int,
    k: Seq<char>,
    segs: Seq<SegV>,
    si: int,
)
    requires
        1 <= from,
    ensures
        desc_elems(seq![h] + t, from, k, segs, si) == desc_elems(t, from - 1, k, segs, si),
    decreases t.len() + 1 - from,
{
    let x = seq![h] + t;
    if from < x.len() {
        assert(x[from] == t[from - 1]);
        lemma_desc_elems_shift(h, t, from + 1, k, segs, si);
    }
}

/// After deleting along a path that does not end in an array index, the
/// same path selects nothing in the rebuilt tree.
pub proof fn lemma_del_gone(v: JVal, segs: Seq<SegV>, si: int)
    requires
        wf_val(v),
        0 <= si < segs.len(),
        !(segs[segs.len() - 1] is Index),
    ensures
        sel(del(v, segs, si), segs, si).len() == 0,
    decreases v, 3int, 0int,
{
    let last = si + 1 == segs.len();
    match segs[si] {
        SegV::Key(k) => {
            if v is Obj {
                let m = v->Obj_0;
                crate::parse::lemma_find_key_char(m, k);
                let idx = find_key(m, k);
                if idx >= 0 {
                    lemma_wf_fields_iff(m);
                    assert(decreases_to!(v => v->Obj_0));
                    assert(decreases_to!(m => m[idx]));
                    assert(decreases_to!(m[idx] => m[idx].1));
                    if last {
                        let r = m.subrange(0, idx) + m.subrange(idx + 1, m.len() as int);
                        assert forall|w: int| 0 <= w < r.len() implies (#[trigger] r[w]).0 != k
                            by {
                            if w < idx {
                                assert(r[w] == m[w]);
                                assert(m[w].0 != k);
                            } else {
                                assert(r[w] == m[w + 1]);
                                assert(m[idx].0 != m[w + 1].0);
                            }
                        }
                        crate::parse::lemma_find_key_char(r, k);
                        let fk = find_key(r, k);
                        if fk != -1 {
                            assert(r[fk].0 == k);
                        }
                        assert(fk == -1);
                    } else {
                        lemma_del_gone(m[idx].1, segs, si + 1);
                        let r = m.update(idx, (m[idx].0, del(m[idx].1, segs, si + 1)));
                        assert forall|w: int| 0 <= w < r.len() implies (#[trigger] r[w]).0
                            == m[w].0 by {}
                        lemma_find_key_keys(r, m, k);
                    }
                }
            }
        },
        SegV::Index(n) => {
            assert(!last);
            if v is Arr && 0 <= n && n < v->Arr_0.len() {
                let a = v->Arr_0;
                lemma_wf_elems_iff(a);
                assert(decreases_to!(v => v->Arr_0));
                assert(decreases_to!(a => a[n]));
                lemma_del_gone(a[n], segs, si + 1);
            }
        },
        SegV::Wild => {
            if v is Obj {
                let m = v->Obj_0;
                assert(decreases_to!(v => v->Obj_0));
                if last {
                    assert(sel_vals(Seq::<(Seq<char>, JVal)>::empty(), 0, segs, si + 1)
                        =~= Seq::<JVal>::empty());
                } else {
                    lemma_wf_fields_iff(m);
                    lemma_del_vals_frame(m, 0, segs, si + 1);
                    lemma_del_vals_gone(m, del_vals(m, 0, segs, si + 1), 0, segs, si + 1);
                }
            } else if v is Arr {
                let a = v->Arr_0;
                assert(decreases_to!(v => v->Arr_0));
                if last {
                    assert(sel_elems(Seq::<JVal>::empty(), 0, segs, si + 1) =~= Seq::<
                        JVal,
                    >::empty());
                } else {
                    lemma_wf_elems_iff(a);
                    lemma_del_elems_frame(a, 0, segs, si + 1);
                    lemma_del_elems_gone(a, del_elems(a, 0, segs, si + 1), 0, segs, si + 1);
                }
            }
        },
        SegV::DescKey(k) => {
            lemma_del_desc_gone(v, k, segs, si);
        },
    }
}

proof fn lemma_del_vals_gone(
    m: Seq<(Seq<char>, JVal)>,
    m2: Seq<(Seq<char>, JVal)>,
    from: int,
    segs: Seq<SegV>,
    si: int,
)
    requires
        m2.len() == m.len(),
        forall|w: int|
            0 <= w < m.len() ==> #[trigger] m2[w] == (m[w].0, del(m[w].1, segs, si)),
        forall|w: int| 0 <= w < m.len() ==> wf_val((#[trigger] m[w]).1),
        0 <= si < segs.len(),
        !(segs[segs.len() - 1] is Index),
    ensures
        sel_vals(m2, from, segs, si).len() == 0,
    decreases m, 2int, m.len() - from,
{
    if 0 <= from && from < m.len() {
        assert(decreases_to!(m => m[from]));
        assert(decreases_to!(m[from] => m[from].1));
        lemma_del_gone(m[from].1, segs, si);
        lemma_del_vals_gone(m, m2, from + 1, segs, si);
    }
}

proof fn lemma_del_elems_gone(a: Seq<JVal>, a2: Seq<JVal>, from: int, segs: Seq<SegV>, si: int)
    requires
        a2.len() == a.len(),
        forall|w: int| 0 <= w < a.len() ==> #[trigger] a2[w] == del(a[w], segs, si),
        forall|w: int| 0 <= w < a.len() ==> wf_val(#[trigger] a[w]),
        0 <= si < segs.len(),
        !(segs[segs.len() - 1] is Index),
    ensures
        sel_elems(a2, from, segs, si).len() == 0,
    decreases a, 2int, a.len() - from,
{
    if 0 <= from && from < a.len() {
        assert(decreases_to!(a => a[from]));
        lemma_del_gone(a[from], segs, si);
        lemma_del_elems_gone(a, a2, from + 1, segs, si);
    }
}

proof fn lemma_del_desc_gone(v: JVal, k: Seq<char>, segs: Seq<SegV>, si: int)
    requires
        wf_val(v),
        0 <= si < segs.len(),
        !(segs[segs.len() - 1] is Index),
    ensures
        desc_key(del_desc(v, k, segs, si), k, segs, si).len() == 0,
    decreases v, 2int, 0int,
{
    if v is Obj {
        let m = v->Obj_0;
        assert(decreases_to!(v => v->Obj_0));
        lemma_wf_fields_iff(m);
        lemma_del_desc_fields_gone(m, 0, k, segs, si);
    } else if v is Arr {
        let a = v->Arr_0;
        assert(decreases_to!(v => v->Arr_0));
        lemma_wf_elems_iff(a);
        lemma_del_desc_elems_gone(a, 0, k, segs, si);
    }
}

proof fn lemma_del_desc_fields_gone(
    m: Seq<(Seq<char>, JVal)>,
    from: int,
    k: Seq<char>,
    segs: Seq<SegV>,
    si: int,
)
    requires
        forall|w: int| 0 <= w < m.len() ==> wf_val((#[trigger] m[w]).1),
        0 <= si < segs.len(),
        !(segs[segs.len() - 1] is Index),
    ensures
        desc_fields(del_desc_fields(m, from, k, segs, si), 0, k, segs, si).len() == 0,
    decreases m, 1int, m.len() - from,
{
    if 0 <= from && from < m.len() {
        assert(decreases_to!(m => m[from]));
        assert(decreases_to!(m[from] => m[from].1));
        lemma_del_desc_fields_gone(m, from + 1, k, segs, si);
        let rest = del_desc_fields(m, from + 1, k, segs, si);
        if m[from].0 == k && si + 1 == segs.len() {
        } else {
            let h = if m[from].0 == k {
                (m[from].0, del(m[from].1, segs, si + 1))
            } else {
                (m[from].0, del_desc(m[from].1, k, segs, si))
            };
            let r = seq![h] + rest;
            assert(r[0] == h);
            lemma_desc_fields_shift(h, rest, 1, k, segs, si);
            if m[from].0 == k {
                lemma_del_gone(m[from].1, segs, si + 1);
            } else {
                lemma_del_desc_gone(m[from].1, k, segs, si);
            }
        }
    }
}

proof fn lemma_del_desc_elems_gone(a: Seq<JVal>, from: int, k: Seq<char>, segs: Seq<SegV>, si: int)
    requires
        forall|w: int| 0 <= w < a.len() ==> wf_val(#[trigger] a[w]),
        0 <= si < segs.len(),
        !(segs[segs.len() - 1] is Index),
    ensures
        desc_elems(del_desc_elems(a, from, k, segs, si), 0, k, segs, si).len() == 0,
    decreases a, 1int, a.len() - from,
{
    if 0 <= from && from < a.len() {
        assert(decreases_to!(a => a[from]));
        lemma_del_desc_elems_gone(a, from + 1, k, segs, si);
        let rest = del_desc_elems(a, from + 1, k, segs, si);
        let h = del_desc(a[from], k, segs, si);
        let r = seq![h] + rest;
        assert(r[0] == h);
        lemma_desc_elems_shift(h, rest, 1, k, segs, si);
        lemma_del_desc_gone(a[from], k, segs, si);
    }
}

/// Deleting removes exactly what the path selected: afterwards the same
/// path selects nothing, so a second deletion along it reports no value
/// and leaves the tree exactly as the first left it. A path ending in an
/// array index is the exception and is left out: removing an element
/// shifts the later ones into its slot, so the index may select a
/// different element afterwards.
pub proof fn lemma_delete_idempotent(v: JVal, segs: Seq<SegV>)
    requires
        wf_val(v),
        segs.len() > 0,
        !(segs[segs.len() - 1] is Index),
    ensures
        sel(del(v, segs, 0), segs, 0).len() == 0,
        nn_count(sel(del(v, segs, 0), segs, 0)) == 0,
        del(del(v, segs, 0), segs, 0) == del(v, segs, 0),
{
    lemma_del_gone(v, segs, 0);
    lemma_del_no_match(del(v, segs, 0), segs, 0);
}

} // verus!
