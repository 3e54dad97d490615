use vstd::prelude::*;

verus! {

use crate::value::{JVal, Value};
use crate::codec::{in_i64_range, wf_val, wf_elems, wf_fields};

// ---------------------------------------------------------------------------
// Types, errors, operation descriptors
// ---------------------------------------------------------------------------

/// The seven-way JSON type tag of a node.
#[derive(Clone, Copy, PartialEq, Eq, Structural, Debug)]
pub enum JType {
    Null,
    Bool,
    Num,
    Str,
    Arr,
    Obj,
}

/// The type tag of a tree node; integer and kept-literal numbers share one
/// tag.
pub open spec fn type_of(v: JVal) -> JType {
    match v {
        JVal::Null => JType::Null,
        JVal::Bool(_) => JType::Bool,
        JVal::Int(_) => JType::Num,
        JVal::Num(_) => JType::Num,
        JVal::Str(_) => JType::Str,
        JVal::Arr(_) => JType::Arr,
        JVal::Obj(_) => JType::Obj,
    }
}

/// One failure of an operation: malformed payload, malformed path, no match
/// where one is required, a node of the wrong type, an index outside an
/// array, a numeric result that the engine cannot represent exactly, a
/// serialization format it does not write, or a missing document.
#[derive(Clone, Copy, PartialEq, Eq, Structural, Debug)]
pub enum ErrKind {
    Parse,
    PathSyntax,
    NoSuchPath,
    WrongType(JType, JType),
    IndexOutOfBounds,
    NotRepresentable,
    UnsupportedFormat,
    MissingDocument,
}

/// What one application of an operation reports besides the rebuilt node:
/// the new node itself, a length, the removed element, or whether a deleted
/// node held a value.
pub enum OpOut {
    NewVal(Value),
    Len(usize),
    Popped(Value),
    Deleted(bool),
}

/// The model of an operation report.
pub enum OutV {
    NewVal(JVal),
    Len(nat),
    Popped(JVal),
    Deleted(bool),
}

impl View for OpOut {
    type V = OutV;

    open spec fn view(&self) -> OutV {
        match self {
            OpOut::NewVal(v) => OutV::NewVal(v.model()),
            OpOut::Len(n) => OutV::Len(*n as nat),
            OpOut::Popped(v) => OutV::Popped(v.model()),
            OpOut::Deleted(b) => OutV::Deleted(*b),
        }
    }
}

/// A transformation applied to every node a path matches. An explicit
/// descriptor rather than a closure, so that what each write command does to
/// a node is stated once, in `apply_op_model`. `Delete` rewrites a matched
/// node to `Null` in place; removing an entry from its parent is the
/// document's `delete_path`, not a node transform.
pub enum ValueOp {
    SetTo(Value),
    Delete,
    NumIncrBy(i64),
    NumMultBy(i64),
    NumPowBy(i64),
    StrAppend(String),
    ArrAppend(Vec<Value>),
    ArrInsert(i64, Vec<Value>),
    ArrPop(i64),
    ArrTrim(usize, usize),
}

/// The model of an operation descriptor.
pub enum OpV {
    SetTo(JVal),
    Delete,
    NumIncrBy(int),
    NumMultBy(int),
    NumPowBy(int),
    StrAppend(Seq<char>),
    ArrAppend(Seq<JVal>),
    ArrInsert(int, Seq<JVal>),
    ArrPop(int),
    ArrTrim(nat, nat),
}

impl View for ValueOp {
    type V = OpV;

    open spec fn view(&self) -> OpV {
        match self {
            ValueOp::SetTo(v) => OpV::SetTo(v.model()),
            ValueOp::Delete => OpV::Delete,
            ValueOp::NumIncrBy(d) => OpV::NumIncrBy(*d as int),
            ValueOp::NumMultBy(d) => OpV::NumMultBy(*d as int),
            ValueOp::NumPowBy(d) => OpV::NumPowBy(*d as int),
            ValueOp::StrAppend(s) => OpV::StrAppend(s@),
            ValueOp::ArrAppend(vs) => OpV::ArrAppend(Value::model_elems(vs@)),
            ValueOp::ArrInsert(i, vs) => OpV::ArrInsert(*i as int, Value::model_elems(vs@)),
            ValueOp::ArrPop(i) => OpV::ArrPop(*i as int),
            ValueOp::ArrTrim(a, b) => OpV::ArrTrim(*a as nat, *b as nat),
        }
    }
}

// ---------------------------------------------------------------------------
// Operation semantics
// ---------------------------------------------------------------------------

/// Integer exponentiation.
pub open spec fn ipow(b: int, e: nat) -> int
    decreases e,
{
    if e == 0 {
        1
    } else {
        b * ipow(b, (e - 1) as nat)
    }
}

/// The exact numeric result of a numeric operation on an integer node, before
/// the range check. A negative power is exactly representable only for the
/// bases `1` and `-1`; everywhere else it is not an integer (or divides by
/// zero) and the operation is not representable.
pub open spec fn num_result(op: OpV, i: int) -> Option<int> {
    match op {
        OpV::NumIncrBy(d) => Some(i + d),
        OpV::NumMultBy(d) => Some(i * d),
        OpV::NumPowBy(e) => if e >= 0 {
            Some(ipow(i, e as nat))
        } else if i == 1 {
            Some(1)
        } else if i == -1 {
            Some(ipow(-1, (-e) as nat))
        } else {
            None
        },
        _ => None,
    }
}

/// What one application of an operation does to a matched node: the rebuilt
/// node and the report, or the failure that leaves the node unchanged. This
/// is the single statement of the engine's per-type write semantics.
pub open spec fn apply_op_model(op: OpV, v: JVal) -> Result<(JVal, OutV), ErrKind> {
    match op {
        OpV::SetTo(x) => Ok((x, OutV::NewVal(x))),
        OpV::Delete => Ok((JVal::Null, OutV::Deleted(v != JVal::Null))),
        OpV::NumIncrBy(_) | OpV::NumMultBy(_) | OpV::NumPowBy(_) => match v {
            JVal::Int(i) => match num_result(op, i) {
                Some(r) => if in_i64_range(r) {
                    Ok((JVal::Int(r), OutV::NewVal(JVal::Int(r))))
                } else {
                    Err(ErrKind::NotRepresentable)
                },
                None => Err(ErrKind::NotRepresentable),
            },
            // a kept literal is not an exactly representable integer
            JVal::Num(_) => Err(ErrKind::NotRepresentable),
            _ => Err(ErrKind::WrongType(JType::Num, type_of(v))),
        },
        OpV::StrAppend(sfx) => match v {
            JVal::Str(t) => Ok(
                (
                    JVal::Str(t + sfx),
                    OutV::Len(((vstd::utf8::encode_utf8(t + sfx).len() as usize) as nat)),
                ),
            ),
            _ => Err(ErrKind::WrongType(JType::Str, type_of(v))),
        },
        OpV::ArrAppend(vs) => match v {
            JVal::Arr(a) => Ok((JVal::Arr(a + vs), OutV::Len((a.len() + vs.len()) as nat))),
            _ => Err(ErrKind::WrongType(JType::Arr, type_of(v))),
        },
        OpV::ArrInsert(idx, vs) => match v {
            JVal::Arr(a) => {
                let n = a.len() as int;
                if idx >= n || -idx >= n {
                    Err(ErrKind::IndexOutOfBounds)
                } else {
                    let at = if idx < 0 {
                        n + idx
                    } else {
                        idx
                    };
                    let na = a.subrange(0, at) + vs + a.subrange(at, n);
                    Ok((JVal::Arr(na), OutV::NewVal(JVal::Arr(na))))
                }
            },
            _ => Err(ErrKind::WrongType(JType::Arr, type_of(v))),
        },
        OpV::ArrPop(idx) => match v {
            JVal::Arr(a) => {
                let n = a.len() as int;
                let n0 = if idx < n - 1 {
                    idx
                } else {
                    n - 1
                };
                let n1 = if n0 < 0 {
                    n + n0
                } else {
                    n0
                };
                if 0 <= n1 && n1 < n {
                    Ok(
                        (
                            JVal::Arr(a.subrange(0, n1) + a.subrange(n1 + 1, n)),
                            OutV::Popped(a[n1]),
                        ),
                    )
                } else {
                    Err(ErrKind::IndexOutOfBounds)
                }
            },
            _ => Err(ErrKind::WrongType(JType::Arr, type_of(v))),
        },
        OpV::ArrTrim(start, stop) => match v {
            JVal::Arr(a) => {
                let n = a.len() as int;
                let lo = if start < stop {
                    start as int
                } else {
                    stop as int
                };
                let hi = if (stop as int) < n {
                    stop as int
                } else {
                    n
                };
                let na = if lo >= hi {
                    Seq::<JVal>::empty()
                } else {
                    a.subrange(lo, hi)
                };
                Ok((JVal::Arr(na), OutV::NewVal(JVal::Arr(na))))
            },
            _ => Err(ErrKind::WrongType(JType::Arr, type_of(v))),
        },
    }
}

// ---------------------------------------------------------------------------
// Executable operations
// ---------------------------------------------------------------------------

/// Builds a fresh copy of a tree.
pub fn clone_value(v: &Value) -> (r: Value)
    ensures
        r@ == v@,
    decreases v,
{
    match v {
        Value::Null => Value::Null,
        Value::Bool(b) => Value::Bool(*b),
        Value::Int(i) => Value::Int(*i),
        Value::Num(s) => Value::Num(s.clone()),
        Value::Str(s) => Value::Str(s.clone()),
        Value::Arr(a) => {
            let mut out: Vec<Value> = Vec::new();
            let n = a.len();
            let mut k: usize = 0;
            while k < n
                invariant
                    v is Arr && a == v->Arr_0,
                    k <= n && n == a.len(),
                    out@.len() == k,
                    forall|w: int| 0 <= w < k ==> (#[trigger] out@[w])@ == a@[w]@,
                decreases n - k,
            {
                proof {
                    assert(decreases_to!(*v => v->Arr_0));
                    assert(v->Arr_0 == *a);
                    assert(decreases_to!(*a => a@));
                    assert(decreases_to!(a@ => a@[k as int]));
                    assert(decreases_to!(*v => a@[k as int]));
                }
                let c = clone_value(&a[k]);
                out.push(c);
                k += 1;
            }
            proof {
                lemma_model_elems_eq(out@, a@);
            }
            Value::Arr(out)
        },
        Value::Obj(m) => {
            let mut out: Vec<(String, Value)> = Vec::new();
            let n = m.len();
            let mut k: usize = 0;
            while k < n
                invariant
                    v is Obj && m == v->Obj_0,
                    k <= n && n == m.len(),
                    out@.len() == k,
                    forall|w: int|
                        0 <= w < k ==> (#[trigger] out@[w]).0@ == m@[w].0@ && out@[w].1@
                            == m@[w].1@,
                decreases n - k,
            {
                proof {
                    assert(decreases_to!(*v => v->Obj_0));
                    assert(v->Obj_0 == *m);
                    assert(decreases_to!(*m => m@));
                    assert(decreases_to!(m@ => m@[k as int]));
                    assert(decreases_to!(m@[k as int] => m@[k as int].1));
                    assert(decreases_to!(*v => m@[k as int].1));
                }
                let c = clone_value(&m[k].1);
                let key = m[k].0.clone();
                out.push((key, c));
                k += 1;
            }
            proof {
                lemma_model_fields_eq(out@, m@);
            }
            Value::Obj(out)
        },
    }
}

/// Element vectors with pointwise equal models have equal element models.
pub proof fn lemma_model_elems_eq(a: Seq<Value>, b: Seq<Value>)
    requires
        a.len() == b.len(),
        forall|w: int| 0 <= w < a.len() ==> (#[trigger] a[w])@ == b[w]@,
    ensures
        Value::model_elems(a) == Value::model_elems(b),
{
    crate::codec::lemma_model_elems_len(a);
    crate::codec::lemma_model_elems_len(b);
    assert forall|w: int| 0 <= w < a.len() implies Value::model_elems(a)[w]
        == Value::model_elems(b)[w] by {
        crate::codec::lemma_model_elems_index(a, w);
        crate::codec::lemma_model_elems_index(b, w);
        assert(a[w]@ == b[w]@);
    }
    assert(Value::model_elems(a) =~= Value::model_elems(b));
}

/// Field vectors with pointwise equal models have equal field models.
pub proof fn lemma_model_fields_eq(a: Seq<(String, Value)>, b: Seq<(String, Value)>)
    requires
        a.len() == b.len(),
        forall|w: int|
            0 <= w < a.len() ==> (#[trigger] a[w]).0@ == b[w].0@ && a[w].1@ == b[w].1@,
    ensures
        Value::model_fields(a) == Value::model_fields(b),
{
    crate::codec::lemma_model_fields_len(a);
    crate::codec::lemma_model_fields_len(b);
    assert forall|w: int| 0 <= w < a.len() implies Value::model_fields(a)[w]
        == Value::model_fields(b)[w] by {
        crate::codec::lemma_model_fields_index(a, w);
        crate::codec::lemma_model_fields_index(b, w);
    }
    assert(Value::model_fields(a) =~= Value::model_fields(b));
}

/// A nonzero base keeps integer powers away from zero.
proof fn lemma_ipow_abs_ge1(b: int, e: nat)
    requires
        b >= 1 || b <= -1,
    ensures
        ipow(b, e) >= 1 || ipow(b, e) <= -1,
    decreases e,
{
    if e > 0 {
        lemma_ipow_abs_ge1(b, (e - 1) as nat);
        assert(ipow(b, e) == b * ipow(b, (e - 1) as nat));
        let p = ipow(b, (e - 1) as nat);
        assert(b * p >= 1 || b * p <= -1) by (nonlinear_arith)
            requires
                (b >= 1 || b <= -1) && (p >= 1 || p <= -1),
        ;
    }
}

/// With a base of magnitude at least two, later powers have at least the
/// magnitude of earlier ones.
proof fn lemma_ipow_abs_mono(b: int, k: nat, e: nat)
    requires
        b >= 2 || b <= -2,
        k <= e,
    ensures
        abs_of(ipow(b, e)) >= abs_of(ipow(b, k)),
    decreases e - k,
{
    if k < e {
        lemma_ipow_abs_mono(b, k, (e - 1) as nat);
        lemma_ipow_abs_ge1(b, (e - 1) as nat);
        assert(ipow(b, e) == b * ipow(b, (e - 1) as nat));
        let p = ipow(b, (e - 1) as nat);
        assert(abs_of(b * p) >= 2 * abs_of(p)) by (nonlinear_arith)
            requires
                (b >= 2 || b <= -2) && (p >= 1 || p <= -1),
        ;
    }
}

/// The magnitude of an integer.
pub open spec fn abs_of(x: int) -> int {
    if x >= 0 {
        x
    } else {
        -x
    }
}

/// Computes an integer power exactly; `None` exactly when the result lies
/// outside the `i64` range.
fn ipow_i64(b: i64, e: u64) -> (r: Option<i64>)
    ensures
        match r {
            Some(x) => x as int == ipow(b as int, e as nat),
            None => !in_i64_range(ipow(b as int, e as nat)),
        },
{
    if b == 0 {
        if e == 0 {
            Some(1)
        } else {
            proof {
                lemma_ipow_zero(e as nat);
            }
            Some(0)
        }
    } else if b == 1 {
        proof {
            lemma_ipow_one(e as nat);
        }
        Some(1)
    } else if b == -1 {
        proof {
            lemma_ipow_neg_one(e as nat);
        }
        if e % 2 == 0 {
            Some(1)
        } else {
            Some(-1)
        }
    } else {
        let mut acc: i128 = 1;
        let mut k: u64 = 0;
        while k < e
            invariant
                k <= e,
                b >= 2 || b <= -2,
                acc as int == ipow(b as int, k as nat),
                -0x8000000000000000 <= acc && acc <= 0x7fffffffffffffff,
            decreases e - k,
        {
            proof {
                let pa = acc as int;
                let bb = b as int;
                assert(pa * bb <= 0x40000000000000000000000000000000 && pa * bb
                    >= -0x40000000000000000000000000000000) by (nonlinear_arith)
                    requires
                        -0x8000000000000000 <= pa && pa <= 0x7fffffffffffffff
                            && -0x8000000000000000 <= bb && bb <= 0x7fffffffffffffff,
                ;
            }
            let acc2: i128 = acc * (b as i128);
            proof {
                assert(ipow(b as int, (k + 1) as nat) == (b as int) * ipow(
                    b as int,
                    k as nat,
                ));
                assert(acc2 as int == (acc as int) * (b as int));
                assert((acc as int) * (b as int) == (b as int) * (acc as int)) by (nonlinear_arith);
                assert(acc2 as int == ipow(b as int, (k + 1) as nat));
            }
            if acc2 > 0x7fffffffffffffffi128 || acc2 < -0x8000000000000000i128 {
                proof {
                    lemma_ipow_abs_mono(b as int, (k + 1) as nat, e as nat);
                    lemma_ipow_abs_ge1(b as int, (k + 1) as nat);
                    if ((k + 1) as nat) < (e as nat) {
                        lemma_ipow_abs_mono(b as int, (k + 2) as nat, e as nat);
                        lemma_ipow_abs_ge1(b as int, (k + 1) as nat);
                        let p = ipow(b as int, (k + 1) as nat);
                        assert(ipow(b as int, (k + 2) as nat) == b as int * p);
                        assert(abs_of((b as int) * p) >= 2 * abs_of(p)) by (nonlinear_arith)
                            requires
                                ((b as int) >= 2 || (b as int) <= -2) && (p >= 1 || p <= -1),
                        ;
                    }
                    assert(!in_i64_range(ipow(b as int, e as nat)));
                }
                return None;
            }
            acc = acc2;
            k += 1;
        }
        if acc > 0x7fffffffffffffffi128 || acc < -0x8000000000000000i128 {
            proof {
                assert(false);
            }
            None
        } else {
            Some(acc as i64)
        }
    }
}

proof fn lemma_ipow_zero(e: nat)
    requires
        e > 0,
    ensures
        ipow(0, e) == 0,
    decreases e,
{
    if e > 1 {
        lemma_ipow_zero((e - 1) as nat);
    }
}

proof fn lemma_ipow_one(e: nat)
    ensures
        ipow(1, e) == 1,
    decreases e,
{
    if e > 0 {
        lemma_ipow_one((e - 1) as nat);
    }
}

proof fn lemma_ipow_neg_one(e: nat)
    ensures
        ipow(-1, e) == (if e % 2 == 0 { 1int } else { -1int }),
    decreases e,
{
    if e > 0 {
        lemma_ipow_neg_one((e - 1) as nat);
    }
}

/// Applies one operation to one matched node, yielding the rebuilt node and
/// its report, or the failure that leaves the node as it was.
pub fn apply_op(op: &ValueOp, v: &Value) -> (r: Result<(Value, OpOut), ErrKind>)
    ensures
        match r {
            Ok((nv, out)) => apply_op_model(op@, v@) == Ok::<(JVal, OutV), ErrKind>(
                (nv@, out@),
            ),
            Err(e) => apply_op_model(op@, v@) == Err::<(JVal, OutV), ErrKind>(e),
        },
{
    match op {
        ValueOp::SetTo(x) => {
            let nv = clone_value(x);
            let ov = clone_value(x);
            Ok((nv, OpOut::NewVal(ov)))
        },
        ValueOp::Delete => {
            let nonnull = !matches!(v, Value::Null);
            proof {
                assert(nonnull == (v@ != JVal::Null));
            }
            Ok((Value::Null, OpOut::Deleted(nonnull)))
        },
        ValueOp::NumIncrBy(d) => match v {
            Value::Int(i) => match i.checked_add(*d) {
                Some(x) => Ok((Value::Int(x), OpOut::NewVal(Value::Int(x)))),
                None => Err(ErrKind::NotRepresentable),
            },
            Value::Num(_) => Err(ErrKind::NotRepresentable),
            _ => Err(ErrKind::WrongType(JType::Num, e_type_of(v))),
        },
        ValueOp::NumMultBy(d) => match v {
            Value::Int(i) => match i.checked_mul(*d) {
                Some(x) => Ok((Value::Int(x), OpOut::NewVal(Value::Int(x)))),
                None => Err(ErrKind::NotRepresentable),
            },
            Value::Num(_) => Err(ErrKind::NotRepresentable),
            _ => Err(ErrKind::WrongType(JType::Num, e_type_of(v))),
        },
        ValueOp::NumPowBy(d) => match v {
            Value::Int(i) => {
                if *d >= 0 {
                    match ipow_i64(*i, *d as u64) {
                        Some(x) => Ok((Value::Int(x), OpOut::NewVal(Value::Int(x)))),
                        None => Err(ErrKind::NotRepresentable),
                    }
                } else if *i == 1 {
                    Ok((Value::Int(1), OpOut::NewVal(Value::Int(1))))
                } else if *i == -1 {
                    let neg: u64 = if *d == i64::MIN {
                        0x8000000000000000u64
                    } else {
                        (-*d) as u64
                    };
                    proof {
                        lemma_ipow_neg_one(neg as nat);
                        assert(neg as int == -(*d as int));
                    }
                    if neg % 2 == 0 {
                        Ok((Value::Int(1), OpOut::NewVal(Value::Int(1))))
                    } else {
                        Ok((Value::Int(-1), OpOut::NewVal(Value::Int(-1))))
                    }
                } else {
                    Err(ErrKind::NotRepresentable)
                }
            },
            Value::Num(_) => Err(ErrKind::NotRepresentable),
            _ => Err(ErrKind::WrongType(JType::Num, e_type_of(v))),
        },
        ValueOp::StrAppend(sfx) => match v {
            Value::Str(t) => {
                let mut t2 = t.clone();
                t2.push_str(sfx.as_str());
                let n = t2.as_str().len();
                proof {
                    assert(t2@ == t@ + sfx@);
                    assert(n as nat == ((vstd::utf8::encode_utf8(t@ + sfx@).len() as usize)
                        as nat));
                }
                Ok((Value::Str(t2), OpOut::Len(n)))
            },
            _ => Err(ErrKind::WrongType(JType::Str, e_type_of(v))),
        },
        ValueOp::ArrAppend(vs) => match v {
            Value::Arr(a) => {
                let mut out = match clone_value(v) {
                    Value::Arr(c) => c,
                    _ => Vec::new(),
                };
                proof {
                    assert(Value::model_elems(out@) == Value::model_elems(a@));
                    crate::codec::lemma_model_elems_len(out@);
                    crate::codec::lemma_model_elems_len(a@);
                    crate::codec::lemma_model_elems_len(vs@);
                }
                let n2 = vs.len();
                let mut k: usize = 0;
                let ghost base = out@;
                while k < n2
                    invariant
                        k <= n2 && n2 == vs.len(),
                        Value::model_elems(out@) == Value::model_elems(base)
                            + Value::model_elems(vs@).subrange(0, k as int),
                        out@.len() == base.len() + k,
                    decreases n2 - k,
                {
                    let ghost before = out@;
                    let c = clone_value(&vs[k]);
                    out.push(c);
                    proof {
                        crate::codec::lemma_model_elems_push(before, out@[out@.len() - 1]);
                        crate::codec::lemma_model_elems_index(vs@, k as int);
                        crate::codec::lemma_model_elems_len(vs@);
                        assert(Value::model_elems(vs@).subrange(0, k as int).push(
                            Value::model_elems(vs@)[k as int],
                        ) =~= Value::model_elems(vs@).subrange(0, k as int + 1));
                        assert(Value::model_elems(out@) =~= Value::model_elems(base)
                            + Value::model_elems(vs@).subrange(0, k as int + 1));
                    }
                    k += 1;
                }
                let nl = out.len();
                proof {
                    crate::codec::lemma_model_elems_len(vs@);
                    assert(Value::model_elems(vs@).subrange(
                        0,
                        vs@.len() as int,
                    ) =~= Value::model_elems(vs@));
                    crate::codec::lemma_model_elems_len(out@);
                    crate::codec::lemma_model_elems_len(base);
                    crate::codec::lemma_model_elems_len(a@);
                    assert(nl as nat == Value::model_elems(a@).len() + Value::model_elems(
                        vs@,
                    ).len());
                }
                Ok((Value::Arr(out), OpOut::Len(nl)))
            },
            _ => Err(ErrKind::WrongType(JType::Arr, e_type_of(v))),
        },
        ValueOp::ArrInsert(idx, vs) => match v {
            Value::Arr(a) => {
                let n = a.len();
                proof {
                    crate::codec::lemma_model_elems_len(a@);
                    crate::codec::lemma_model_elems_len(vs@);
                }
                let within: bool = if *idx >= 0 {
                    ((*idx) as u128) < (n as u128)
                } else {
                    ((-((*idx) as i128)) as u128) < (n as u128)
                };
                if !within {
                    return Err(ErrKind::IndexOutOfBounds);
                }
                let at: usize = if *idx >= 0 {
                    (*idx) as usize
                } else {
                    n - ((-((*idx) as i128)) as usize)
                };
                let mut out: Vec<Value> = Vec::new();
                let mut k: usize = 0;
                while k < at
                    invariant
                        k <= at && at <= n && n == a.len(),
                        out@.len() == k,
                        forall|w: int| 0 <= w < k ==> (#[trigger] out@[w])@ == a@[w]@,
                    decreases at - k,
                {
                    let c = clone_value(&a[k]);
                    out.push(c);
                    k += 1;
                }
                let n2 = vs.len();
                let mut k2: usize = 0;
                while k2 < n2
                    invariant
                        k2 <= n2 && n2 == vs.len() && at <= n && n == a.len(),
                        out@.len() == at + k2,
                        forall|w: int| 0 <= w < at ==> (#[trigger] out@[w])@ == a@[w]@,
                        forall|w: int|
                            at <= w < at + k2 ==> (#[trigger] out@[w])@ == vs@[w - at]@,
                    decreases n2 - k2,
                {
                    let c = clone_value(&vs[k2]);
                    out.push(c);
                    k2 += 1;
                }
                let mut k3: usize = at;
                while k3 < n
                    invariant
                        at <= k3 && k3 <= n && n == a.len() && n2 == vs.len(),
                        out@.len() == k3 + n2,
                        forall|w: int| 0 <= w < at ==> (#[trigger] out@[w])@ == a@[w]@,
                        forall|w: int|
                            at <= w < at + n2 ==> (#[trigger] out@[w])@ == vs@[w - at]@,
                        forall|w: int|
                            at + n2 <= w < k3 + n2 ==> (#[trigger] out@[w])@ == a@[w - n2]@,
                    decreases n - k3,
                {
                    let c = clone_value(&a[k3]);
                    out.push(c);
                    k3 += 1;
                }
                proof {
                    lemma_insert_model(out@, a@, vs@, at as int);
                }
                let nv = Value::Arr(out);
                let ov = clone_value(&nv);
                Ok((nv, OpOut::NewVal(ov)))
            },
            _ => Err(ErrKind::WrongType(JType::Arr, e_type_of(v))),
        },
        ValueOp::ArrPop(idx) => match v {
            Value::Arr(a) => {
                let n = a.len();
                proof {
                    crate::codec::lemma_model_elems_len(a@);
                }
                let n0: i128 = if (*idx as i128) < (n as i128) - 1 {
                    *idx as i128
                } else {
                    (n as i128) - 1
                };
                let n1: i128 = if n0 < 0 {
                    (n as i128) + n0
                } else {
                    n0
                };
                if !(0 <= n1 && n1 < (n as i128)) {
                    return Err(ErrKind::IndexOutOfBounds);
                }
                let at = n1 as usize;
                let mut out: Vec<Value> = Vec::new();
                let mut k: usize = 0;
                while k < n
                    invariant
                        k <= n && n == a.len() && at < n,
                        out@.len() == (if k <= at { k as int } else { k - 1 }),
                        forall|w: int|
                            0 <= w < k && w < at ==> (#[trigger] out@[w])@ == a@[w]@,
                        forall|w: int|
                            at <= w < out@.len() ==> (#[trigger] out@[w])@ == a@[w + 1]@,
                    decreases n - k,
                {
                    if k != at {
                        let c = clone_value(&a[k]);
                        out.push(c);
                    }
                    k += 1;
                }
                let popped = clone_value(&a[at]);
                proof {
                    lemma_pop_model(out@, a@, at as int);
                    crate::codec::lemma_model_elems_index(a@, at as int);
                }
                Ok((Value::Arr(out), OpOut::Popped(popped)))
            },
            _ => Err(ErrKind::WrongType(JType::Arr, e_type_of(v))),
        },
        ValueOp::ArrTrim(start, stop) => match v {
            Value::Arr(a) => {
                let n = a.len();
                proof {
                    crate::codec::lemma_model_elems_len(a@);
                }
                let lo: usize = if *start < *stop {
                    *start
                } else {
                    *stop
                };
                let hi: usize = if *stop < n {
                    *stop
                } else {
                    n
                };
                let mut out: Vec<Value> = Vec::new();
                if lo < hi {
                    let mut k: usize = lo;
                    while k < hi
                        invariant
                            lo <= k && k <= hi && hi <= n && n == a.len(),
                            out@.len() == k - lo,
                            forall|w: int|
                                0 <= w < k - lo ==> (#[trigger] out@[w])@ == a@[w + lo]@,
                        decreases hi - k,
                    {
                        let c = clone_value(&a[k]);
                        out.push(c);
                        k += 1;
                    }
                }
                proof {
                    lemma_trim_model(out@, a@, lo as int, hi as int);
                }
                let nv = Value::Arr(out);
                let ov = clone_value(&nv);
                Ok((nv, OpOut::NewVal(ov)))
            },
            _ => Err(ErrKind::WrongType(JType::Arr, e_type_of(v))),
        },
    }
}

/// The runtime type tag of a node.
pub fn e_type_of(v: &Value) -> (r: JType)
    ensures
        r == type_of(v@),
{
    match v {
        Value::Null => JType::Null,
        Value::Bool(_) => JType::Bool,
        Value::Int(_) => JType::Num,
        Value::Num(_) => JType::Num,
        Value::Str(_) => JType::Str,
        Value::Arr(_) => JType::Arr,
        Value::Obj(_) => JType::Obj,
    }
}

/// The built insert result models the specified concatenation.
proof fn lemma_insert_model(out: Seq<Value>, a: Seq<Value>, vs: Seq<Value>, at: int)
    requires
        0 <= at <= a.len(),
        out.len() == a.len() + vs.len(),
        forall|w: int| 0 <= w < at ==> (#[trigger] out[w])@ == a[w]@,
        forall|w: int| at <= w < at + vs.len() ==> (#[trigger] out[w])@ == vs[w - at]@,
        forall|w: int|
            at + vs.len() <= w < out.len() ==> (#[trigger] out[w])@ == a[w - vs.len()]@,
    ensures
        Value::model_elems(out) == Value::model_elems(a).subrange(0, at)
            + Value::model_elems(vs) + Value::model_elems(a).subrange(at, a.len() as int),
{
    crate::codec::lemma_model_elems_len(out);
    crate::codec::lemma_model_elems_len(a);
    crate::codec::lemma_model_elems_len(vs);
    assert forall|w: int| 0 <= w < out.len() implies Value::model_elems(out)[w]
        == (Value::model_elems(a).subrange(0, at) + Value::model_elems(vs)
        + Value::model_elems(a).subrange(at, a.len() as int))[w] by {
        crate::codec::lemma_model_elems_index(out, w);
        if w < at {
            crate::codec::lemma_model_elems_index(a, w);
        } else if w < at + vs.len() {
            crate::codec::lemma_model_elems_index(vs, w - at);
        } else {
            crate::codec::lemma_model_elems_index(a, w - vs.len());
        }
    }
    assert(Value::model_elems(out) =~= Value::model_elems(a).subrange(0, at)
        + Value::model_elems(vs) + Value::model_elems(a).subrange(at, a.len() as int));
}

/// The built pop result models the specified concatenation.
pub(crate) proof fn lemma_pop_model(out: Seq<Value>, a: Seq<Value>, at: int)
    requires
        0 <= at < a.len(),
        out.len() == a.len() - 1,
        forall|w: int| 0 <= w < at ==> (#[trigger] out[w])@ == a[w]@,
        forall|w: int| at <= w < out.len() ==> (#[trigger] out[w])@ == a[w + 1]@,
    ensures
        Value::model_elems(out) == Value::model_elems(a).subrange(0, at)
            + Value::model_elems(a).subrange(at + 1, a.len() as int),
{
    crate::codec::lemma_model_elems_len(out);
    crate::codec::lemma_model_elems_len(a);
    assert forall|w: int| 0 <= w < out.len() implies Value::model_elems(out)[w]
        == (Value::model_elems(a).subrange(0, at) + Value::model_elems(a).subrange(
        at + 1,
        a.len() as int,
    ))[w] by {
        crate::codec::lemma_model_elems_index(out, w);
        if w < at {
            crate::codec::lemma_model_elems_index(a, w);
        } else {
            crate::codec::lemma_model_elems_index(a, w + 1);
        }
    }
    assert(Value::model_elems(out) =~= Value::model_elems(a).subrange(0, at)
        + Value::model_elems(a).subrange(at + 1, a.len() as int));
}

/// The built trim result models the specified slice.
proof fn lemma_trim_model(out: Seq<Value>, a: Seq<Value>, lo: int, hi: int)
    requires
        0 <= lo,
        hi <= a.len(),
        lo < hi ==> out.len() == hi - lo,
        lo >= hi ==> out.len() == 0,
        forall|w: int| 0 <= w < out.len() ==> (#[trigger] out[w])@ == a[w + lo]@,
    ensures
        Value::model_elems(out) == (if lo >= hi {
            Seq::<JVal>::empty()
        } else {
            Value::model_elems(a).subrange(lo, hi)
        }),
{
    crate::codec::lemma_model_elems_len(out);
    crate::codec::lemma_model_elems_len(a);
    if lo >= hi {
        assert(Value::model_elems(out) =~= Seq::<JVal>::empty());
    } else {
        assert forall|w: int| 0 <= w < out.len() implies Value::model_elems(out)[w]
            == Value::model_elems(a).subrange(lo, hi)[w] by {
            crate::codec::lemma_model_elems_index(out, w);
            crate::codec::lemma_model_elems_index(a, w + lo);
        }
        assert(Value::model_elems(out) =~= Value::model_elems(a).subrange(lo, hi));
    }
}

/// An operation whose payloads are themselves well-formed trees; only such
/// operations keep a document well-formed.
pub open spec fn op_wf(op: OpV) -> bool {
    match op {
        OpV::SetTo(x) => wf_val(x),
        OpV::ArrAppend(vs) => wf_elems(vs),
        OpV::ArrInsert(_, vs) => wf_elems(vs),
        _ => true,
    }
}

/// An element list is well-formed exactly when each element is.
pub proof fn lemma_wf_elems_iff(a: Seq<JVal>)
    ensures
        wf_elems(a) <==> (forall|w: int| 0 <= w < a.len() ==> wf_val(#[trigger] a[w])),
    decreases a.len(),
{
    if a.len() > 0 {
        lemma_wf_elems_iff(a.drop_first());
        assert(forall|w: int|
            0 <= w < a.len() - 1 ==> #[trigger] a.drop_first()[w] == a[w + 1]);
        if wf_elems(a) {
            assert forall|w: int| 0 <= w < a.len() implies wf_val(#[trigger] a[w]) by {
                if w > 0 {
                    assert(a.drop_first()[w - 1] == a[w]);
                }
            }
        }
        if forall|w: int| 0 <= w < a.len() ==> wf_val(#[trigger] a[w]) {
            assert(wf_val(a[0]));
        }
    }
}

/// A field list is well-formed exactly when each field value is.
pub proof fn lemma_wf_fields_iff(m: Seq<(Seq<char>, JVal)>)
    ensures
        wf_fields(m) <==> (forall|w: int| 0 <= w < m.len() ==> wf_val((#[trigger] m[w]).1)),
    decreases m.len(),
{
    if m.len() > 0 {
        lemma_wf_fields_iff(m.drop_first());
        assert(forall|w: int|
            0 <= w < m.len() - 1 ==> #[trigger] m.drop_first()[w] == m[w + 1]);
        if wf_fields(m) {
            assert forall|w: int| 0 <= w < m.len() implies wf_val((#[trigger] m[w]).1) by {
                if w > 0 {
                    assert(m.drop_first()[w - 1] == m[w]);
                }
            }
        }
        if forall|w: int| 0 <= w < m.len() ==> wf_val((#[trigger] m[w]).1) {
            assert(wf_val(m[0].1));
        }
    }
}

/// A well-formed operation applied to a well-formed node yields a
/// well-formed node.
pub proof fn lemma_apply_op_wf(op: OpV, v: JVal)
    requires
        wf_val(v),
        op_wf(op),
    ensures
        apply_op_model(op, v) matches Ok(p) ==> wf_val(p.0),
{
    match op {
        OpV::ArrAppend(vs) => {
            if v is Arr && apply_op_model(op, v) is Ok {
                let a = v->Arr_0;
                lemma_wf_elems_iff(a);
                lemma_wf_elems_iff(vs);
                lemma_wf_elems_iff(a + vs);
                assert forall|w: int| 0 <= w < (a + vs).len() implies wf_val(
                    #[trigger] (a + vs)[w],
                ) by {
                    if w < a.len() {
                        assert((a + vs)[w] == a[w]);
                    } else {
                        assert((a + vs)[w] == vs[w - a.len()]);
                    }
                }
            }
        },
        OpV::ArrInsert(idx, vs) => {
            if v is Arr && apply_op_model(op, v) is Ok {
                let a = v->Arr_0;
                let n = a.len() as int;
                let at = if idx < 0 {
                    n + idx
                } else {
                    idx
                };
                let na = a.subrange(0, at) + vs + a.subrange(at, n);
                lemma_wf_elems_iff(a);
                lemma_wf_elems_iff(vs);
                lemma_wf_elems_iff(na);
                assert forall|w: int| 0 <= w < na.len() implies wf_val(#[trigger] na[w]) by {
                    if w < at {
                        assert(na[w] == a[w]);
                    } else if w < at + vs.len() {
                        assert(na[w] == vs[w - at]);
                    } else {
                        assert(na[w] == a[w - vs.len()]);
                    }
                }
            }
        },
        OpV::ArrPop(idx) => {
            if v is Arr && apply_op_model(op, v) is Ok {
                let a = v->Arr_0;
                let n = a.len() as int;
                let n0 = if idx < n - 1 {
                    idx
                } else {
                    n - 1
                };
                let n1 = if n0 < 0 {
                    n + n0
                } else {
                    n0
                };
                let na = a.subrange(0, n1) + a.subrange(n1 + 1, n);
                lemma_wf_elems_iff(a);
                lemma_wf_elems_iff(na);
                assert forall|w: int| 0 <= w < na.len() implies wf_val(#[trigger] na[w]) by {
                    if w < n1 {
                        assert(na[w] == a[w]);
                    } else {
                        assert(na[w] == a[w + 1]);
                    }
                }
            }
        },
        OpV::ArrTrim(start, stop) => {
            if v is Arr && apply_op_model(op, v) is Ok {
                let a = v->Arr_0;
                let n = a.len() as int;
                let lo = if start < stop {
                    start as int
                } else {
                    stop as int
                };
                let hi = if (stop as int) < n {
                    stop as int
                } else {
                    n
                };
                let na = if lo >= hi {
                    Seq::<JVal>::empty()
                } else {
                    a.subrange(lo, hi)
                };
                lemma_wf_elems_iff(a);
                lemma_wf_elems_iff(na);
                assert forall|w: int| 0 <= w < na.len() implies wf_val(#[trigger] na[w]) by {
                    assert(na[w] == a[w + lo]);
                }
            }
        },
        _ => {},
    }
}

} // verus!
