use vstd::prelude::*;

verus! {

use crate::value::{JVal, Value};
use crate::codec::{ser_val, to_text};
use crate::parse::{parse_text, parse_json_chars};
use crate::path::{seg_models, path_model, parse_path};
use crate::engine::{sel, rep, outs_models, select_all, rep_val, lemma_rep_wf};
use crate::ops::{ValueOp, OpV, OpOut, OutV, ErrKind, JType, type_of, op_wf};
use crate::codec::wf_val;
use crate::strings::str_to_chars;
use vstd::string::StringSliceAdditionalSpecFns;

// ---------------------------------------------------------------------------
// Errors
// ---------------------------------------------------------------------------

/// What an operation reports when it fails: one failure, or the collected
/// per-match failures of a multi-match write.
#[derive(Debug)]
pub enum Error {
    Kind(ErrKind),
    Multi(Vec<ErrKind>),
}

/// The display text of one failure kind.
pub open spec fn err_text(k: ErrKind) -> Seq<char> {
    match k {
        ErrKind::Parse => "ERR could not parse the payload"@,
        ErrKind::PathSyntax => "ERR malformed path"@,
        ErrKind::NoSuchPath => "ERR path does not exist"@,
        ErrKind::WrongType(w, a) => "ERR wrong type of path value - expected "@ + type_text(w)
            + " but found "@ + type_text(a),
        ErrKind::IndexOutOfBounds => "ERR index out of bounds"@,
        ErrKind::NotRepresentable => "ERR can not represent result as Number"@,
        ErrKind::UnsupportedFormat => "ERR unsupported format"@,
        ErrKind::MissingDocument => "ERR no document at this key"@,
    }
}

/// The concatenated display texts of a failure list.
pub open spec fn err_texts(ks: Seq<ErrKind>) -> Seq<char>
    decreases ks.len(),
{
    if ks.len() == 0 {
        Seq::empty()
    } else {
        err_texts(ks.drop_last()) + err_text(ks.last())
    }
}

/// The display name of a type tag.
fn type_label(t: JType) -> (r: &'static str)
    ensures
        r@ == type_text(t),
{
    match t {
        JType::Null => "null",
        JType::Bool => "boolean",
        JType::Num => "number",
        JType::Str => "string",
        JType::Arr => "array",
        JType::Obj => "object",
    }
}

/// The display text of one failure kind; a type mismatch names the expected
/// and the found type.
fn kind_message(k: &ErrKind) -> (r: String)
    ensures
        r@ == err_text(*k),
{
    match k {
        ErrKind::Parse => "ERR could not parse the payload".to_owned(),
        ErrKind::PathSyntax => "ERR malformed path".to_owned(),
        ErrKind::NoSuchPath => "ERR path does not exist".to_owned(),
        ErrKind::WrongType(w, a) => {
            let mut out = "ERR wrong type of path value - expected ".to_owned();
            out.push_str(type_label(*w));
            out.push_str(" but found ");
            out.push_str(type_label(*a));
            proof {
                assert(out@ =~= err_text(*k));
            }
            out
        },
        ErrKind::IndexOutOfBounds => "ERR index out of bounds".to_owned(),
        ErrKind::NotRepresentable => "ERR can not represent result as Number".to_owned(),
        ErrKind::UnsupportedFormat => "ERR unsupported format".to_owned(),
        ErrKind::MissingDocument => "ERR no document at this key".to_owned(),
    }
}

impl Error {
    /// The single-string form of this failure: one kind's text, or the
    /// collected kinds' texts concatenated, as older clients expect.
    pub fn message(&self) -> (r: String)
        ensures
            self matches Error::Kind(k) ==> r@ == err_text(*k),
            self matches Error::Multi(ks) ==> r@ == err_texts(ks@),
    {
        match self {
            Error::Kind(k) => kind_message(k),
            Error::Multi(ks) => {
                let mut out = String::new();
                let n = ks.len();
                let mut i: usize = 0;
                while i < n
                    invariant
                        i <= n && n == ks.len(),
                        out@ == err_texts(ks@.take(i as int)),
                    decreases n - i,
                {
                    let piece = kind_message(&ks[i]);
                    out.push_str(piece.as_str());
                    proof {
                        assert(ks@.take(i as int + 1).drop_last() =~= ks@.take(i as int));
                        assert(ks@.take(i as int + 1).last() == ks@[i as int]);
                    }
                    i += 1;
                }
                proof {
                    assert(ks@.take(n as int) =~= ks@);
                }
                out
            },
        }
    }
}

// ---------------------------------------------------------------------------
// Payload formats
// ---------------------------------------------------------------------------

/// The payload formats the engine ingests. It always serializes to JSON.
#[derive(Debug, PartialEq, Eq, Structural, Clone, Copy)]
pub enum Format {
    JSON,
    BSON,
}

/// Which format a format name denotes.
pub open spec fn format_of(s: Seq<char>) -> Option<Format> {
    if s == "JSON"@ {
        Some(Format::JSON)
    } else if s == "BSON"@ {
        Some(Format::BSON)
    } else {
        None
    }
}

impl Format {
    /// Reads a format name; anything but the two known names is refused.
    pub fn from_str(s: &str) -> (r: Result<Format, Error>)
        ensures
            match r {
                Ok(f) => format_of(s@) == Some(f),
                Err(e) => format_of(s@) is None && e matches Error::Kind(
                    ErrKind::UnsupportedFormat,
                ),
            },
    {
        let cs = str_to_chars(s);
        proof {
            reveal_strlit("JSON");
            reveal_strlit("BSON");
        }
        if cs.len() == 4 && cs[0] == 'J' && cs[1] == 'S' && cs[2] == 'O' && cs[3] == 'N' {
            proof {
                assert(s@ =~= "JSON"@);
            }
            Ok(Format::JSON)
        } else if cs.len() == 4 && cs[0] == 'B' && cs[1] == 'S' && cs[2] == 'O' && cs[3] == 'N' {
            proof {
                assert(s@ =~= "BSON"@);
            }
            Ok(Format::BSON)
        } else {
            proof {
                if s@ == "JSON"@ {
                    assert(cs@.len() == 4 && cs@[0] == 'J' && cs@[1] == 'S' && cs@[2] == 'O'
                        && cs@[3] == 'N');
                }
                if s@ == "BSON"@ {
                    assert(cs@.len() == 4 && cs@[0] == 'B' && cs@[1] == 'S' && cs@[2] == 'O'
                        && cs@[3] == 'N');
                }
            }
            Err(Error::Kind(ErrKind::UnsupportedFormat))
        }
    }
}

// ---------------------------------------------------------------------------
// BSON ingest (trusted boundary)
// ---------------------------------------------------------------------------

/// The JSON text of the first field of a binary document payload:
/// `None` when the payload is not a well-formed document, `Some(None)` when
/// the document has no fields, and otherwise the first field's value
/// rendered as JSON text. The result depends on the payload bytes alone.
pub uninterp spec fn bson_first_json(b: Seq<u8>) -> Option<Option<Seq<char>>>;

/// Relies on bson's Document::from_reader to decode a binary document, on
/// its Bson::into_relaxed_extjson to turn the first field's value into a
/// serde_json tree, and on serde_json's to_string to render that tree as
/// JSON text.
#[verifier::external_body]
fn bson_first_field_json(data: &[u8]) -> (r: Option<Option<String>>)
    ensures
        r is None ==> bson_first_json(data@) is None,
        r matches Some(x) ==> bson_first_json(data@) matches Some(y) && (x is None <==> y is None),
        r matches Some(Some(t)) ==> bson_first_json(data@) == Some(Some(t@)),
{
    match bson::Document::from_reader(std::io::Cursor::new(data)) {
        Ok(d) => Some(
            d.iter().next().map(|(_, b)| b.clone().into_relaxed_extjson().to_string()),
        ),
        Err(_) => None,
    }
}

// ---------------------------------------------------------------------------
// Aggregation over per-match outcomes
// ---------------------------------------------------------------------------

/// The failures among a list of per-match outcomes, in order.
pub open spec fn err_list(outs: Seq<Result<OutV, ErrKind>>) -> Seq<ErrKind>
    decreases outs.len(),
{
    if outs.len() == 0 {
        Seq::empty()
    } else {
        err_list(outs.drop_last()) + (match outs.last() {
            Ok(_) => Seq::<ErrKind>::empty(),
            Err(e) => seq![e],
        })
    }
}

/// The report of the last successful match, if any.
pub open spec fn last_ok(outs: Seq<Result<OutV, ErrKind>>) -> Option<OutV>
    decreases outs.len(),
{
    if outs.len() == 0 {
        None
    } else {
        match outs.last() {
            Ok(o) => Some(o),
            Err(_) => last_ok(outs.drop_last()),
        }
    }
}

// ---------------------------------------------------------------------------
// The document
// ---------------------------------------------------------------------------

/// One stored JSON document: the owning wrapper around a single tree.
pub struct RedisJSON {
    data: Value,
}

/// What parsing a payload in a given format yields, if anything: for JSON
/// the text's own tree; for a binary document, the tree of its first
/// field's JSON rendering, `Null` when the document is empty.
pub open spec fn parsed_payload(data: Seq<char>, bytes: Seq<u8>, format: Format) -> Option<JVal> {
    match format {
        Format::JSON => parse_text(data),
        Format::BSON => match bson_first_json(bytes) {
            None => None,
            Some(None) => Some(JVal::Null),
            Some(Some(t)) => parse_text(t),
        },
    }
}

impl View for RedisJSON {
    type V = JVal;

    closed spec fn view(&self) -> JVal {
        self.data.model()
    }
}

impl RedisJSON {
    /// A valid document: its tree is well-formed — object keys unique,
    /// integers in `i64` range, kept number literals genuine non-integral
    /// tokens. Every constructor below yields a valid document and every
    /// mutator keeps one valid (for `value_op`, when the operation's own
    /// payloads are well-formed).
    pub open spec fn valid(self) -> bool {
        wf_val(self@)
    }

    /// Parses a payload in the declared format into a (well-formed) tree.
    pub fn parse_str(data: &str, format: Format) -> (r: Result<Value, Error>)
        ensures
            match r {
                Ok(v) => parsed_payload(data@, data.spec_bytes(), format) == Some(v@),
                Err(e) => parsed_payload(data@, data.spec_bytes(), format) is None && e matches
                    Error::Kind(ErrKind::Parse),
            },
            r matches Ok(v) ==> wf_val(v@),
    {
        match format {
            Format::JSON => {
                let cs = str_to_chars(data);
                match parse_json_chars(&cs) {
                    Some((v, _)) => {
                        proof {
                            crate::parse::lemma_parse_wf_val(data@, 0);
                        }
                        Ok(v)
                    },
                    None => Err(Error::Kind(ErrKind::Parse)),
                }
            },
            Format::BSON => {
                match bson_first_field_json(data.as_bytes()) {
                    None => Err(Error::Kind(ErrKind::Parse)),
                    Some(None) => Ok(Value::Null),
                    Some(Some(t)) => {
                        let cs = str_to_chars(t.as_str());
                        match parse_json_chars(&cs) {
                            Some((v, _)) => {
                                proof {
                                    crate::parse::lemma_parse_wf_val(t@, 0);
                                }
                                Ok(v)
                            },
                            None => Err(Error::Kind(ErrKind::Parse)),
                        }
                    },
                }
            },
        }
    }

    /// Creates a document from a payload; the payload becomes the root.
    pub fn from_str(data: &str, format: Format) -> (r: Result<Self, Error>)
        ensures
            match r {
                Ok(doc) => parsed_payload(data@, data.spec_bytes(), format) == Some(doc@),
                Err(e) => parsed_payload(data@, data.spec_bytes(), format) is None && e matches
                    Error::Kind(ErrKind::Parse),
            },
            r matches Ok(doc) ==> doc.valid(),
    {
        match Self::parse_str(data, format) {
            Ok(v) => Ok(RedisJSON { data: v }),
            Err(e) => Err(e),
        }
    }

    /// Replaces every node the path matches with the parsed payload; at the
    /// root path the whole tree is replaced. Fails when the payload or the
    /// path is malformed, and with `NoSuchPath` when a non-root path
    /// matches nothing (the tree is then unchanged).
    pub fn set_value(&mut self, data: &str, path: &str, format: Format) -> (r: Result<
        (),
        Error,
    >)
        ensures
            match r {
                Ok(()) => {
                    &&& parsed_payload(data@, data.spec_bytes(), format) matches Some(t)
                    &&& path_model(path@) matches Some(segs)
                    &&& final(self)@ == rep(old(self)@, segs, 0, OpV::SetTo(t)).0
                    &&& rep(old(self)@, segs, 0, OpV::SetTo(t)).1.len() > 0
                },
                Err(e) => final(self)@ == old(self)@ && match e {
                    Error::Kind(ErrKind::Parse) => parsed_payload(
                        data@,
                        data.spec_bytes(),
                        format,
                    ) is None,
                    Error::Kind(ErrKind::PathSyntax) => parsed_payload(
                        data@,
                        data.spec_bytes(),
                        format,
                    ) is Some && path_model(path@) is None,
                    Error::Kind(ErrKind::NoSuchPath) => {
                        &&& parsed_payload(data@, data.spec_bytes(), format) matches Some(t)
                        &&& path_model(path@) matches Some(segs)
                        &&& rep(old(self)@, segs, 0, OpV::SetTo(t)).1.len() == 0
                        &&& rep(old(self)@, segs, 0, OpV::SetTo(t)).0 == old(self)@
                    },
                    _ => false,
                },
            },
            old(self).valid() ==> final(self).valid(),
    {
        let json = match Self::parse_str(data, format) {
            Ok(v) => v,
            Err(e) => {
                return Err(e);
            },
        };
        let segs = match parse_path(path) {
            Some(s) => s,
            None => {
                return Err(Error::Kind(ErrKind::PathSyntax));
            },
        };
        let op = ValueOp::SetTo(json);
        let (nv, outs) = rep_val(&self.data, &segs, 0, &op);
        if outs.len() == 0 {
            proof {
                crate::engine::lemma_rep_no_match_id(
                    old(self)@,
                    seg_models(segs@),
                    0,
                    op@,
                );
            }
            return Err(Error::Kind(ErrKind::NoSuchPath));
        }
        proof {
            if old(self).valid() {
                lemma_rep_wf(old(self)@, seg_models(segs@), 0, op@);
            }
        }
        self.data = nv;
        Ok(())
    }

    /// Removes every entry the path selects from its parent container — an
    /// object loses the field, an array loses the element — and reports how
    /// many of the selected nodes held a value. At the root path, which has
    /// no parent, the whole tree becomes `Null` instead; the key's owner
    /// removes the key.
    pub fn delete_path(&mut self, path: &str) -> (r: Result<usize, Error>)
        ensures
            match r {
                Ok(c) => path_model(path@) matches Some(segs) && (if segs.len() == 0 {
                    final(self)@ == JVal::Null && c as nat == crate::engine::nn_one(old(self)@)
                } else {
                    final(self)@ == crate::engine::del(old(self)@, segs, 0) && c as nat
                        == crate::engine::nn_count(sel(old(self)@, segs, 0))
                }),
                Err(e) => final(self)@ == old(self)@ && path_model(path@) is None && e matches
                    Error::Kind(ErrKind::PathSyntax),
            },
            old(self).valid() ==> final(self).valid(),
    {
        let segs = match parse_path(path) {
            Some(s) => s,
            None => {
                return Err(Error::Kind(ErrKind::PathSyntax));
            },
        };
        if segs.len() == 0 {
            let c: usize = if matches!(&self.data, Value::Null) {
                0
            } else {
                1
            };
            self.data = Value::Null;
            return Ok(c);
        }
        let found = select_all(&self.data, &segs);
        let ghost ms = Value::model_elems(found@);
        proof {
            crate::codec::lemma_model_elems_len(found@);
        }
        let n = found.len();
        let mut c: usize = 0;
        let mut i: usize = 0;
        while i < n
            invariant
                i <= n && n == found.len(),
                ms == Value::model_elems(found@),
                ms.len() == n,
                c <= i,
                c as nat == crate::engine::nn_count(ms.take(i as int)),
            decreases n - i,
        {
            let hit = !matches!(&found[i], Value::Null);
            proof {
                crate::codec::lemma_model_elems_index(found@, i as int);
                crate::engine::lemma_nn_count_snoc(ms.take(i as int), ms[i as int]);
                assert(ms.take(i as int).push(ms[i as int]) =~= ms.take(i as int + 1));
            }
            if hit {
                c += 1;
            }
            i += 1;
        }
        proof {
            assert(ms.take(n as int) =~= ms);
        }
        let nv = crate::engine::del_tree(&self.data, &segs, 0);
        proof {
            if old(self).valid() {
                crate::engine::lemma_del_wf(old(self)@, seg_models(segs@), 0);
            }
        }
        self.data = nv;
        Ok(c)
    }

    /// Serializes the first node the path matches. Only JSON output exists.
    pub fn to_string(&self, path: &str, format: Format) -> (r: Result<String, Error>)
        ensures
            match r {
                Ok(t) => {
                    &&& format == Format::JSON
                    &&& path_model(path@) matches Some(segs)
                    &&& sel(self@, segs, 0).len() > 0
                    &&& t@ == ser_val(sel(self@, segs, 0)[0])
                },
                Err(e) => match e {
                    Error::Kind(ErrKind::UnsupportedFormat) => format == Format::BSON,
                    Error::Kind(ErrKind::PathSyntax) => format == Format::JSON && path_model(
                        path@,
                    ) is None,
                    Error::Kind(ErrKind::NoSuchPath) => format == Format::JSON && (path_model(
                        path@,
                    ) matches Some(segs) && sel(self@, segs, 0).len() == 0),
                    _ => false,
                },
            },
    {
        match format {
            Format::BSON => Err(Error::Kind(ErrKind::UnsupportedFormat)),
            Format::JSON => {
                let segs = match parse_path(path) {
                    Some(s) => s,
                    None => {
                        return Err(Error::Kind(ErrKind::PathSyntax));
                    },
                };
                let matches_found = select_all(&self.data, &segs);
                proof {
                    crate::codec::lemma_model_elems_len(matches_found@);
                }
                if matches_found.len() == 0 {
                    Err(Error::Kind(ErrKind::NoSuchPath))
                } else {
                    proof {
                        crate::codec::lemma_model_elems_index(matches_found@, 0);
                    }
                    Ok(to_text(&matches_found[0]))
                }
            },
        }
    }

    /// Applies one operation at every node the path matches. The tree keeps
    /// every successful rewrite; a node whose rewrite failed keeps its value.
    /// With no failure the last successful report is returned (a `Null`
    /// value when nothing matched); one failure is returned as itself; two
    /// or more are returned together.
    pub fn value_op(&mut self, path: &str, op: &ValueOp) -> (r: Result<OpOut, Error>)
        ensures
            ({
                let pm = path_model(path@);
                match r {
                    Ok(out) => {
                        &&& pm matches Some(segs)
                        &&& final(self)@ == rep(old(self)@, segs, 0, op@).0
                        &&& err_list(rep(old(self)@, segs, 0, op@).1).len() == 0
                        &&& out@ == (match last_ok(rep(old(self)@, segs, 0, op@).1) {
                            Some(o) => o,
                            None => OutV::NewVal(JVal::Null),
                        })
                    },
                    Err(e) => match e {
                        Error::Kind(k) => (pm is None && k == ErrKind::PathSyntax
                            && final(self)@ == old(self)@) || (pm matches Some(segs)
                            && final(self)@ == rep(old(self)@, segs, 0, op@).0 && err_list(
                            rep(old(self)@, segs, 0, op@).1,
                        ) =~= seq![k]),
                        Error::Multi(ks) => {
                            &&& pm matches Some(segs)
                            &&& final(self)@ == rep(old(self)@, segs, 0, op@).0
                            &&& ks@ =~= err_list(rep(old(self)@, segs, 0, op@).1)
                            &&& ks@.len() >= 2
                        },
                    },
                }
            }),
            old(self).valid() && op_wf(op@) ==> final(self).valid(),
    {
        let segs = match parse_path(path) {
            Some(s) => s,
            None => {
                return Err(Error::Kind(ErrKind::PathSyntax));
            },
        };
        let (nv, mut outs) = rep_val(&self.data, &segs, 0, op);
        proof {
            if old(self).valid() && op_wf(op@) {
                lemma_rep_wf(old(self)@, seg_models(segs@), 0, op@);
            }
        }
        self.data = nv;
        let ghost om = outs_models(outs@);
        let n = outs.len();
        let mut errs: Vec<ErrKind> = Vec::new();
        let mut li: Option<usize> = None;
        let mut i: usize = 0;
        while i < n
            invariant
                i <= n && n == outs.len(),
                om == outs_models(outs@),
                errs@ == err_list(om.take(i as int)),
                match li {
                    Some(w) => w < i && om[w as int] is Ok && last_ok(om.take(i as int)) == Some(
                        om[w as int]->Ok_0,
                    ),
                    None => last_ok(om.take(i as int)) is None,
                },
            decreases n - i,
        {
            proof {
                assert(om.take(i as int + 1).drop_last() =~= om.take(i as int));
                assert(om.take(i as int + 1).last() == om[i as int]);
            }
            match &outs[i] {
                Ok(_) => {
                    li = Some(i);
                },
                Err(e) => {
                    errs.push(*e);
                },
            }
            i += 1;
        }
        proof {
            assert(om.take(n as int) =~= om);
        }
        if errs.len() == 0 {
            match li {
                Some(w) => {
                    let picked = outs.remove(w);
                    match picked {
                        Ok(o) => Ok(o),
                        Err(_) => {
                            proof {
                                assert(false);
                            }
                            Err(Error::Kind(ErrKind::NoSuchPath))
                        },
                    }
                },
                None => Ok(OpOut::NewVal(Value::Null)),
            }
        } else if errs.len() == 1 {
            let k = errs[0];
            proof {
                assert(err_list(om) =~= seq![errs@[0]]);
            }
            Err(Error::Kind(k))
        } else {
            Err(Error::Multi(errs))
        }
    }

    /// The byte length of the string the path leads to.
    pub fn str_len(&self, path: &str) -> (r: Result<usize, Error>)
        ensures
            first_match_usize_spec(self@, path@, JType::Str, r),
    {
        match self.first_match(path) {
            Ok(v) => match &v {
                Value::Str(s) => Ok(s.as_str().len()),
                _ => Err(Error::Kind(ErrKind::WrongType(JType::Str, crate::ops::e_type_of(&v)))),
            },
            Err(e) => Err(e),
        }
    }

    /// The element count of the array the path leads to.
    pub fn arr_len(&self, path: &str) -> (r: Result<usize, Error>)
        ensures
            first_match_usize_spec(self@, path@, JType::Arr, r),
    {
        match self.first_match(path) {
            Ok(v) => match &v {
                Value::Arr(a) => {
                    proof {
                        crate::codec::lemma_model_elems_len(v->Arr_0@);
                    }
                    Ok(a.len())
                },
                _ => Err(Error::Kind(ErrKind::WrongType(JType::Arr, crate::ops::e_type_of(&v)))),
            },
            Err(e) => Err(e),
        }
    }

    /// The field count of the object the path leads to.
    pub fn obj_len(&self, path: &str) -> (r: Result<usize, Error>)
        ensures
            first_match_usize_spec(self@, path@, JType::Obj, r),
    {
        match self.first_match(path) {
            Ok(v) => match &v {
                Value::Obj(m) => {
                    proof {
                        crate::codec::lemma_model_fields_len(v->Obj_0@);
                    }
                    Ok(m.len())
                },
                _ => Err(Error::Kind(ErrKind::WrongType(JType::Obj, crate::ops::e_type_of(&v)))),
            },
            Err(e) => Err(e),
        }
    }

    /// The keys of the object the path leads to, in stored order.
    pub fn obj_keys(&self, path: &str) -> (r: Result<Vec<String>, Error>)
        ensures
            ({
                let pm = path_model(path@);
                match r {
                    Ok(ks) => {
                        &&& pm matches Some(segs)
                        &&& sel(self@, segs, 0).len() > 0
                        &&& sel(self@, segs, 0)[0] matches JVal::Obj(m)
                        &&& ks@.len() == m.len()
                        &&& forall|w: int| 0 <= w < m.len() ==> (#[trigger] ks@[w])@ == m[w].0
                    },
                    Err(e) => first_match_err_spec(self@, path@, JType::Obj, e),
                }
            }),
    {
        match self.first_match(path) {
            Ok(v) => match &v {
                Value::Obj(m) => {
                    proof {
                        crate::codec::lemma_model_fields_len(v->Obj_0@);
                    }
                    let n = m.len();
                    let mut ks: Vec<String> = Vec::new();
                    let mut i: usize = 0;
                    while i < n
                        invariant
                            i <= n && n == m.len(),
                            ks@.len() == i,
                            forall|w: int| 0 <= w < i ==> (#[trigger] ks@[w])@ == m@[w].0@,
                        decreases n - i,
                    {
                        let key = m[i].0.clone();
                        ks.push(key);
                        i += 1;
                    }
                    proof {
                        assert forall|w: int| 0 <= w < n implies (#[trigger] ks@[w])@
                            == Value::model_fields(m@)[w].0 by {
                            crate::codec::lemma_model_fields_index(m@, w);
                        }
                    }
                    Ok(ks)
                },
                _ => Err(Error::Kind(ErrKind::WrongType(JType::Obj, crate::ops::e_type_of(&v)))),
            },
            Err(e) => Err(e),
        }
    }

    /// The seven-way type name of the node the path leads to.
    pub fn get_type(&self, path: &str) -> (r: Result<String, Error>)
        ensures
            ({
                let pm = path_model(path@);
                match r {
                    Ok(t) => {
                        &&& pm matches Some(segs)
                        &&& sel(self@, segs, 0).len() > 0
                        &&& t@ == type_text(type_of(sel(self@, segs, 0)[0]))
                    },
                    Err(e) => match e {
                        Error::Kind(ErrKind::PathSyntax) => pm is None,
                        Error::Kind(ErrKind::NoSuchPath) => pm matches Some(segs) && sel(
                            self@,
                            segs,
                            0,
                        ).len() == 0,
                        _ => false,
                    },
                }
            }),
    {
        match self.first_match(path) {
            Ok(v) => Ok(Self::value_name(&v).to_owned()),
            Err(e) => Err(e),
        }
    }

    /// The seven-way type name of a node.
    pub fn value_name(value: &Value) -> (r: &'static str)
        ensures
            r@ == type_text(type_of(value@)),
    {
        match value {
            Value::Null => "null",
            Value::Bool(_) => "boolean",
            Value::Int(_) => "number",
            Value::Num(_) => "number",
            Value::Str(_) => "string",
            Value::Arr(_) => "array",
            Value::Obj(_) => "object",
        }
    }

    /// A rough per-node memory footprint by type, in bytes.
    pub fn get_memory(&self, path: &str) -> (r: Result<usize, Error>)
        ensures
            ({
                let pm = path_model(path@);
                match r {
                    Ok(n) => {
                        &&& pm matches Some(segs)
                        &&& sel(self@, segs, 0).len() > 0
                        &&& n as nat == mem_of(sel(self@, segs, 0)[0])
                    },
                    Err(e) => match e {
                        Error::Kind(ErrKind::PathSyntax) => pm is None,
                        Error::Kind(ErrKind::NoSuchPath) => pm matches Some(segs) && sel(
                            self@,
                            segs,
                            0,
                        ).len() == 0,
                        _ => false,
                    },
                }
            }),
    {
        match self.first_match(path) {
            Ok(v) => Ok(
                match &v {
                    Value::Null => 0,
                    Value::Bool(_) => 1,
                    Value::Int(_) => 8,
                    Value::Num(_) => 8,
                    Value::Str(_) => 24,
                    Value::Arr(_) => 24,
                    Value::Obj(_) => 24,
                },
            ),
            Err(e) => Err(e),
        }
    }

    /// The whole tree as JSON text, for the persistence layer.
    pub fn serialize_for_storage(&self) -> (r: String)
        ensures
            r@ == ser_val(self@),
    {
        to_text(&self.data)
    }

    /// Rebuilds a document from stored JSON text. An encoding version older
    /// than the engine's minimum is refused outright; no migration is
    /// attempted.
    pub fn deserialize_from_storage(data: &str, version: i32) -> (r: Result<Self, Error>)
        ensures
            match r {
                Ok(doc) => version >= 2 && parse_text(data@) == Some(doc@),
                Err(e) => match e {
                    Error::Kind(ErrKind::UnsupportedFormat) => version < 2,
                    Error::Kind(ErrKind::Parse) => version >= 2 && parse_text(data@) is None,
                    _ => false,
                },
            },
            r matches Ok(doc) ==> doc.valid(),
    {
        if version < 2 {
            return Err(Error::Kind(ErrKind::UnsupportedFormat));
        }
        Self::from_str(data, Format::JSON)
    }

    /// Stored text loads back unchanged: for any valid document, the text
    /// of `serialize_for_storage` is accepted by `deserialize_from_storage`
    /// at any supported version and denotes exactly the same tree. Follows
    /// from the codec round trip, since a valid document's tree is
    /// well-formed.
    pub proof fn lemma_storage_round_trip(v: JVal)
        requires
            wf_val(v),
        ensures
            parse_text(ser_val(v)) == Some(v),
    {
        crate::parse::lemma_round_trip(v);
    }

    /// A clone of the first node the path matches.
    fn first_match(&self, path: &str) -> (r: Result<Value, Error>)
        ensures
            ({
                let pm = path_model(path@);
                match r {
                    Ok(v) => pm matches Some(segs) && sel(self@, segs, 0).len() > 0 && v@ == sel(
                        self@,
                        segs,
                        0,
                    )[0],
                    Err(e) => match e {
                        Error::Kind(ErrKind::PathSyntax) => pm is None,
                        Error::Kind(ErrKind::NoSuchPath) => pm matches Some(segs) && sel(
                            self@,
                            segs,
                            0,
                        ).len() == 0,
                        _ => false,
                    },
                }
            }),
    {
        let segs = match parse_path(path) {
            Some(s) => s,
            None => {
                return Err(Error::Kind(ErrKind::PathSyntax));
            },
        };
        let mut found = select_all(&self.data, &segs);
        proof {
            crate::codec::lemma_model_elems_len(found@);
        }
        if found.len() == 0 {
            Err(Error::Kind(ErrKind::NoSuchPath))
        } else {
            proof {
                crate::codec::lemma_model_elems_index(found@, 0);
            }
            let mut it = found.remove(0);
            Ok(it)
        }
    }
}

/// The models of a list of path strings.
pub open spec fn strs_model(ps: Seq<String>) -> Seq<Seq<char>> {
    ps.map_values(|s: String| s@)
}

/// The first node a path string selects in a tree, or `Null` when the path
/// is malformed or matches nothing.
pub open spec fn first_or_null(root: JVal, p: Seq<char>) -> JVal {
    match path_model(p) {
        Some(segs) => if sel(root, segs, 0).len() > 0 {
            sel(root, segs, 0)[0]
        } else {
            JVal::Null
        },
        None => JVal::Null,
    }
}

/// One field per requested path, keyed by the path text itself.
pub open spec fn multi_fields(root: JVal, ps: Seq<Seq<char>>) -> Seq<(Seq<char>, JVal)>
    decreases ps.len(),
{
    if ps.len() == 0 {
        Seq::empty()
    } else {
        multi_fields(root, ps.drop_last()) + seq![
            (ps.last(), first_or_null(root, ps.last())),
        ]
    }
}

/// Whether two scalar nodes are equal; a comparison that involves an array
/// or an object is never equal. Numbers compare within their
/// representation: exact integers by value, kept number literals by their
/// exact text — two different spellings of the same non-integral number
/// (such as a trailing zero in the fraction) do not compare equal.
pub open spec fn scalar_eq_model(a: JVal, b: JVal) -> bool {
    match (a, b) {
        (JVal::Null, JVal::Null) => true,
        (JVal::Bool(x), JVal::Bool(y)) => x == y,
        (JVal::Int(x), JVal::Int(y)) => x == y,
        (JVal::Num(x), JVal::Num(y)) => x == y,
        (JVal::Str(x), JVal::Str(y)) => x == y,
        _ => false,
    }
}

/// The first index in `[from, to)` whose element equals the scalar, or `-1`.
pub open spec fn arr_find(a: Seq<JVal>, x: JVal, from: int, to: int) -> int
    decreases to - from,
{
    if !(0 <= from && from < to && from < a.len()) {
        -1
    } else if scalar_eq_model(a[from], x) {
        from
    } else {
        arr_find(a, x, from + 1, to)
    }
}

/// Whether two scalar nodes are equal.
fn scalar_eq(a: &Value, b: &Value) -> (r: bool)
    ensures
        r == scalar_eq_model(a@, b@),
{
    match (a, b) {
        (Value::Null, Value::Null) => true,
        (Value::Bool(x), Value::Bool(y)) => *x == *y,
        (Value::Int(x), Value::Int(y)) => *x == *y,
        (Value::Num(x), Value::Num(y)) => *x == *y,
        (Value::Str(x), Value::Str(y)) => *x == *y,
        _ => false,
    }
}

impl RedisJSON {
    /// One JSON object answering several paths at once: each requested path
    /// is a key, its value the path's first match in this document, or
    /// `null` where the path is malformed or matches nothing.
    pub fn to_json(&self, paths: &mut Vec<String>) -> (r: Result<String, Error>)
        ensures
            final(paths)@ == old(paths)@,
            match r {
                Ok(t) => t@ == ser_val(
                    JVal::Obj(multi_fields(self@, strs_model(old(paths)@))),
                ),
                Err(_) => false,
            },
    {
        let n = paths.len();
        let mut fields: Vec<(String, Value)> = Vec::new();
        let mut i: usize = 0;
        while i < n
            invariant
                i <= n && n == paths.len(),
                paths@ == old(paths)@,
                Value::model_fields(fields@) == multi_fields(self@, strs_model(paths@).take(
                    i as int,
                )),
            decreases n - i,
        {
            let p = paths[i].clone();
            let v: Value = match parse_path(p.as_str()) {
                Some(segs) => {
                    let mut found = select_all(&self.data, &segs);
                    proof {
                        crate::codec::lemma_model_elems_len(found@);
                    }
                    if found.len() == 0 {
                        Value::Null
                    } else {
                        proof {
                            crate::codec::lemma_model_elems_index(found@, 0);
                        }
                        found.remove(0)
                    }
                },
                None => Value::Null,
            };
            let ghost fb = fields@;
            proof {
                assert(v@ == first_or_null(self@, p@));
            }
            fields.push((p, v));
            proof {
                crate::codec::lemma_model_fields_push(fb, fields@[fields@.len() - 1].0,
                    fields@[fields@.len() - 1].1);
                assert(strs_model(paths@).take(i as int + 1).drop_last() =~= strs_model(
                    paths@,
                ).take(i as int));
                assert(strs_model(paths@).take(i as int + 1).last() == paths@[i as int]@);
                assert(Value::model_fields(fields@) =~= multi_fields(self@, strs_model(
                    paths@,
                ).take(i as int + 1)));
            }
            i += 1;
        }
        proof {
            assert(strs_model(paths@).take(n as int) =~= strs_model(paths@));
        }
        Ok(to_text(&Value::Obj(fields)))
    }

    /// The absolute index of the first array element in `[start, end)`
    /// (end clamped to the length) equal to the given scalar, or `-1` when
    /// the needle is an array or object literal or nothing matches. A first
    /// match that is not an array fails with `WrongType`.
    pub fn arr_index(&self, path: &str, scalar: &str, start: usize, end: usize) -> (r: Result<
        i64,
        Error,
    >)
        ensures
            ({
                let pm = path_model(path@);
                match r {
                    Ok(i) => {
                        &&& pm matches Some(segs)
                        &&& sel(self@, segs, 0).len() > 0
                        &&& sel(self@, segs, 0)[0] matches JVal::Arr(a)
                        &&& parse_text(scalar@) matches Some(x)
                        &&& {
                            let hi = if end as int <= a.len() {
                                end as int
                            } else {
                                a.len() as int
                            };
                            let f = if x is Arr || x is Obj {
                                -1int
                            } else {
                                arr_find(a, x, start as int, hi)
                            };
                            i as int == (if f <= i64::MAX as int {
                                f
                            } else {
                                -1int
                            })
                        }
                    },
                    Err(e) => first_match_err_spec(self@, path@, JType::Arr, e) || (e matches
                        Error::Kind(ErrKind::Parse) && (pm matches Some(segs) && sel(
                        self@,
                        segs,
                        0,
                    ).len() > 0 && sel(self@, segs, 0)[0] is Arr && parse_text(scalar@) is None)),
                }
            }),
    {
        let v = match self.first_match(path) {
            Ok(v) => v,
            Err(e) => {
                return Err(e);
            },
        };
        match &v {
            Value::Arr(arr) => {
                let cs = str_to_chars(scalar);
                let x = match parse_json_chars(&cs) {
                    Some((x, _)) => x,
                    None => {
                        return Err(Error::Kind(ErrKind::Parse));
                    },
                };
                match &x {
                    Value::Arr(_) => Ok(-1),
                    Value::Obj(_) => Ok(-1),
                    _ => {
                        proof {
                            crate::codec::lemma_model_elems_len(v->Arr_0@);
                        }
                        let n = arr.len();
                        let hi: usize = if end <= n {
                            end
                        } else {
                            n
                        };
                        let ghost am = Value::model_elems(arr@);
                        let mut k: usize = start;
                        loop
                            invariant
                                v is Arr && arr == v->Arr_0,
                                am == Value::model_elems(arr@),
                                am.len() == n && n == arr.len(),
                                hi <= n,
                                start <= k || k == start,
                                k >= start,
                                hi >= start ==> k <= hi,
                                hi < start ==> k == start,
                                arr_find(am, x@, start as int, hi as int) == arr_find(
                                    am,
                                    x@,
                                    k as int,
                                    hi as int,
                                ),
                            ensures
                                arr_find(am, x@, start as int, hi as int) == (if k < hi {
                                    k as int
                                } else {
                                    -1int
                                }),
                                k < hi ==> k < n,
                            decreases (if hi >= k {
                                hi - k
                            } else {
                                0
                            }),
                        {
                            if k >= hi {
                                break ;
                            }
                            proof {
                                crate::codec::lemma_model_elems_index(arr@, k as int);
                            }
                            if scalar_eq(&arr[k], &x) {
                                break ;
                            }
                            k += 1;
                        }
                        if k < hi {
                            if (k as u64) <= 0x7fffffffffffffffu64 {
                                Ok(k as i64)
                            } else {
                                Ok(-1)
                            }
                        } else {
                            Ok(-1)
                        }
                    },
                }
            },
            _ => Err(Error::Kind(ErrKind::WrongType(JType::Arr, crate::ops::e_type_of(&v)))),
        }
    }
}

/// The display name of a type tag.
pub open spec fn type_text(t: JType) -> Seq<char> {
    match t {
        JType::Null => "null"@,
        JType::Bool => "boolean"@,
        JType::Num => "number"@,
        JType::Str => "string"@,
        JType::Arr => "array"@,
        JType::Obj => "object"@,
    }
}

/// The per-type memory footprint reported by `get_memory`.
pub open spec fn mem_of(v: JVal) -> nat {
    match v {
        JVal::Null => 0,
        JVal::Bool(_) => 1,
        JVal::Int(_) => 8,
        JVal::Num(_) => 8,
        JVal::Str(_) => 24,
        JVal::Arr(_) => 24,
        JVal::Obj(_) => 24,
    }
}

/// What a length-reporting read returns: the length of the first match when
/// it has the expected type, and the precise failure otherwise.
pub open spec fn first_match_usize_spec(
    doc: JVal,
    path: Seq<char>,
    want: JType,
    r: Result<usize, Error>,
) -> bool {
    let pm = path_model(path);
    match r {
        Ok(n) => {
            &&& pm matches Some(segs)
            &&& sel(doc, segs, 0).len() > 0
            &&& type_of(sel(doc, segs, 0)[0]) == want
            &&& n as nat == (match sel(doc, segs, 0)[0] {
                JVal::Str(s) => (vstd::utf8::encode_utf8(s).len() as usize) as nat,
                JVal::Arr(a) => a.len(),
                JVal::Obj(m) => m.len(),
                _ => 0,
            })
        },
        Err(e) => first_match_err_spec(doc, path, want, e),
    }
}

/// The failure cases shared by the typed reads: a malformed path, no match,
/// or a first match of the wrong type.
pub open spec fn first_match_err_spec(doc: JVal, path: Seq<char>, want: JType, e: Error) -> bool {
    let pm = path_model(path);
    match e {
        Error::Kind(ErrKind::PathSyntax) => pm is None,
        Error::Kind(ErrKind::NoSuchPath) => pm matches Some(segs) && sel(doc, segs, 0).len()
            == 0,
        Error::Kind(ErrKind::WrongType(w, a)) => {
            &&& w == want
            &&& pm matches Some(segs)
            &&& sel(doc, segs, 0).len() > 0
            &&& a == type_of(sel(doc, segs, 0)[0])
            &&& a != want
        },
        _ => false,
    }
}

} // verus!
