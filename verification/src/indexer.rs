//! The asynchronous indexing side of a partition: the event stream that the
//! apply path emits in commit order, the inverted-index schema derived from
//! the collection, the projection of a document's JSON source onto that
//! schema, and the model of the index that consumes the events.

use vstd::prelude::*;

use crate::codes::Code;
use crate::json::{spec_lookup, json_lookup, JsonValue};
use crate::meta::{Collection, FieldType};
use crate::search::clone_string;

verus! {

/// One message of the single-producer/single-consumer index channel.
/// `Update(prior, new)` replaces the postings of `prior` (0 meaning "no
/// prior") with those of `new`; `Delete(iid)` drops a document's postings;
/// `Stop` ends the worker loop.
#[derive(Clone, Copy, PartialEq, Eq, Structural, Debug)]
pub enum Event {
    Delete(u32),
    Update(u32, u32),
    Stop,
}

// ----------------------------------------------------------------- schema

/// Kind of one indexed field: integers and doubles indexed as numbers,
/// strings untokenized, text tokenized.
#[derive(Clone, Copy, PartialEq, Eq, Structural, Debug)]
pub enum IndexFieldKind {
    KInt,
    KFloat,
    KStr,
    KText,
}

/// One field of the inverted-index schema.
#[derive(Debug)]
pub struct IndexField {
    pub name: String,
    pub kind: IndexFieldKind,
    pub array: bool,
}

/// The index schema: the scalar fields, in declaration order. Two
/// reserved fields (the internal id and its byte form) precede them, so
/// field j here carries wire id j + 2.
#[derive(Debug)]
pub struct IndexSchema {
    pub fields: Vec<IndexField>,
}

/// The index kind a collection field maps to, if it can be indexed.
pub open spec fn scalar_kind(ft: FieldType) -> Option<IndexFieldKind> {
    match ft {
        FieldType::Int => Some(IndexFieldKind::KInt),
        FieldType::Float => Some(IndexFieldKind::KFloat),
        FieldType::Str => Some(IndexFieldKind::KStr),
        FieldType::Text => Some(IndexFieldKind::KText),
        FieldType::Vector => None,
        FieldType::Bytes => None,
    }
}

/// Builds the schema from the collection's scalar field selection, in
/// declaration order. Vector, byte and out-of-range selections are
/// rejected: they cannot be indexed.
pub fn build_index_schema(c: &Collection) -> (r: Result<IndexSchema, Code>)
    ensures
        match r {
            Ok(s) => {
                &&& s.fields@.len() == c.scalar_field_index@.len()
                &&& forall|j: int|
                    0 <= j < c.scalar_field_index@.len() ==> {
                        let fi = (#[trigger] c.scalar_field_index@[j]) as int;
                        &&& fi < c.fields@.len()
                        &&& scalar_kind(c.fields@[fi].ftype) == Some(s.fields@[j].kind)
                        &&& s.fields@[j].name@ == c.fields@[fi].name@
                        &&& s.fields@[j].array == c.fields@[fi].array
                    }
            },
            Err(code) => {
                &&& code == Code::FieldTypeErr
                &&& exists|j: int|
                    0 <= j < c.scalar_field_index@.len() && ((#[trigger] c.scalar_field_index@[j])
                        >= c.fields@.len() || scalar_kind(
                        c.fields@[c.scalar_field_index@[j] as int].ftype,
                    ) is None)
            },
        },
{
    let mut fields: Vec<IndexField> = Vec::new();
    let mut j: usize = 0;
    while j < c.scalar_field_index.len()
        invariant
            j <= c.scalar_field_index@.len(),
            fields@.len() == j,
            forall|i: int|
                0 <= i < j ==> {
                    let fi = (#[trigger] c.scalar_field_index@[i]) as int;
                    &&& fi < c.fields@.len()
                    &&& scalar_kind(c.fields@[fi].ftype) == Some(fields@[i].kind)
                    &&& fields@[i].name@ == c.fields@[fi].name@
                    &&& fields@[i].array == c.fields@[fi].array
                },
        decreases c.scalar_field_index@.len() - j,
    {
        let fi = c.scalar_field_index[j];
        if fi >= c.fields.len() {
            return Err(Code::FieldTypeErr);
        }
        let fm = &c.fields[fi];
        let kind = match fm.ftype {
            FieldType::Int => IndexFieldKind::KInt,
            FieldType::Float => IndexFieldKind::KFloat,
            FieldType::Str => IndexFieldKind::KStr,
            FieldType::Text => IndexFieldKind::KText,
            FieldType::Vector => {
                return Err(Code::FieldTypeErr);
            },
            FieldType::Bytes => {
                return Err(Code::FieldTypeErr);
            },
        };
        fields.push(IndexField { name: clone_string(&fm.name), kind, array: fm.array });
        j = j + 1;
    }
    Ok(IndexSchema { fields })
}

impl IndexSchema {
    /// Total field count, the two reserved fields included.
    pub fn field_num(&self) -> (r: usize)
        requires
            self.fields@.len() + 2 <= usize::MAX,
        ensures
            r == self.fields@.len() + 2,
    {
        self.fields.len() + 2
    }

    /// A partition whose schema selects no scalar field has no index to
    /// search.
    pub fn check_index(&self) -> (r: Result<(), Code>)
        ensures
            r is Ok <==> self.fields@.len() > 0,
            r is Err ==> r == Err::<(), Code>(Code::SpaceNoIndex),
    {
        if self.fields.len() == 0 {
            Err(Code::SpaceNoIndex)
        } else {
            Ok(())
        }
    }
}

// ------------------------------------------------------------- projection

/// One value written into the index for a document.
#[derive(Debug)]
pub enum IndexValue {
    VInt(i64),
    VFloat(u64),
    VStr(String),
}

/// Mathematical image of an [`IndexValue`].
pub enum IvView {
    WInt(i64),
    WFloat(u64),
    WStr(Seq<char>),
}

impl View for IndexValue {
    type V = IvView;

    open spec fn view(&self) -> IvView {
        match self {
            IndexValue::VInt(i) => IvView::WInt(*i),
            IndexValue::VFloat(b) => IvView::WFloat(*b),
            IndexValue::VStr(s) => IvView::WStr(s@),
        }
    }
}

/// Field ids with their views.
pub open spec fn vals_view(s: Seq<(u32, IndexValue)>) -> Seq<(u32, IvView)> {
    s.map_values(|e: (u32, IndexValue)| (e.0, e.1@))
}

/// How one JSON value coerces to an indexed field kind: integers must be
/// exact, doubles take the number's double reading, string kinds take
/// strings. Anything else is a type error.
pub open spec fn spec_coerce(kind: IndexFieldKind, v: JsonValue) -> Option<IvView> {
    match kind {
        IndexFieldKind::KInt => match v {
            JsonValue::Num { int_val: Some(i), .. } => Some(IvView::WInt(i)),
            _ => None,
        },
        IndexFieldKind::KFloat => match v {
            JsonValue::Num { float_bits, .. } => Some(IvView::WFloat(float_bits)),
            _ => None,
        },
        IndexFieldKind::KStr => match v {
            JsonValue::Str(s) => Some(IvView::WStr(s@)),
            _ => None,
        },
        IndexFieldKind::KText => match v {
            JsonValue::Str(s) => Some(IvView::WStr(s@)),
            _ => None,
        },
    }
}

/// Coerces every element of an array field, tagging each with `fid`.
pub open spec fn spec_coerce_all(kind: IndexFieldKind, elems: Seq<JsonValue>, fid: u32) -> Option<
    Seq<(u32, IvView)>,
>
    decreases elems.len(),
{
    if elems.len() == 0 {
        Some(Seq::empty())
    } else {
        match (spec_coerce(kind, elems[0]), spec_coerce_all(kind, elems.drop_first(), fid)) {
            (Some(w), Some(t)) => Some(seq![(fid, w)] + t),
            _ => None,
        }
    }
}

/// What one schema field contributes for a document: nothing when the
/// member is absent or null, one value per element for an array field,
/// one value otherwise — or a type error.
pub open spec fn spec_field_vals(f: IndexField, src: JsonValue, fid: u32) -> Option<
    Seq<(u32, IvView)>,
> {
    match spec_lookup(src, f.name@) {
        None => Some(Seq::empty()),
        Some(v) => match v {
            JsonValue::Null => Some(Seq::empty()),
            _ => if f.array {
                match v {
                    JsonValue::Arr(elems) => spec_coerce_all(f.kind, elems@, fid),
                    _ => None,
                }
            } else {
                match spec_coerce(f.kind, v) {
                    Some(w) => Some(seq![(fid, w)]),
                    None => None,
                }
            },
        },
    }
}

/// The projection of a document source onto the schema fields from `j`
/// on, in declaration order.
pub open spec fn spec_project_from(fields: Seq<IndexField>, src: JsonValue, j: int) -> Option<
    Seq<(u32, IvView)>,
>
    decreases fields.len() - j,
{
    if j < 0 || j >= fields.len() {
        Some(Seq::empty())
    } else {
        match (
            spec_field_vals(fields[j], src, (j + 2) as u32),
            spec_project_from(fields, src, j + 1),
        ) {
            (Some(h), Some(t)) => Some(h + t),
            _ => None,
        }
    }
}

/// Projects a document's source onto the index schema, exactly as
/// [`spec_project_from`] reads it: absent and null members are skipped,
/// array fields contribute one value per element, and a value of the
/// wrong shape fails `FieldTypeErr`.
pub fn project(schema: &IndexSchema, source: &JsonValue) -> (r: Result<Vec<(u32, IndexValue)>, Code>)
    requires
        schema.fields@.len() + 2 <= u32::MAX,
    ensures
        match r {
            Ok(vals) => spec_project_from(schema.fields@, *source, 0) == Some(vals_view(vals@)),
            Err(c) => c == Code::FieldTypeErr && spec_project_from(schema.fields@, *source, 0)
                is None,
        },
{
    let ghost fs = schema.fields@;
    let mut out: Vec<(u32, IndexValue)> = Vec::new();
    let mut j: usize = 0;
    proof {
        if spec_project_from(fs, *source, 0) is Some {
            assert(vals_view(out@) =~= Seq::<(u32, IvView)>::empty());
            assert(vals_view(out@) + spec_project_from(fs, *source, 0).unwrap() =~= spec_project_from(
                fs,
                *source,
                0,
            ).unwrap());
        }
    }
    while j < schema.fields.len()
        invariant
            j <= fs.len(),
            fs == schema.fields@,
            fs.len() + 2 <= u32::MAX,
            match spec_project_from(fs, *source, j as int) {
                Some(t) => spec_project_from(fs, *source, 0) == Some(vals_view(out@) + t),
                None => spec_project_from(fs, *source, 0) is None,
            },
        decreases fs.len() - j,
    {
        let ghost out0 = out@;
        let f = &schema.fields[j];
        let fid: u32 = (j as u32) + 2;
        match json_lookup(source, &f.name) {
            None => {
                proof {
                    lemma_step_extend(fs, *source, j as int, out0, Seq::<(u32, IvView)>::empty());
                }
            },
            Some(v) => {
                match v {
                    JsonValue::Null => {
                        proof {
                            lemma_step_extend(
                                fs,
                                *source,
                                j as int,
                                out0,
                                Seq::<(u32, IvView)>::empty(),
                            );
                        }
                    },
                    JsonValue::Arr(elems) => {
                        if !f.array {
                            proof {
                                assert(spec_field_vals(fs[j as int], *source, fid) is None);
                            }
                            return Err(Code::FieldTypeErr);
                        }
                        let ghost es = elems@;
                        let mut k: usize = 0;
                        proof {
                            assert(es.subrange(0, 0) =~= Seq::<JsonValue>::empty());
                        }
                        while k < elems.len()
                            invariant
                                k <= es.len(),
                                es == elems@,
                                fs == schema.fields@,
                                fs.len() + 2 <= u32::MAX,
                                j < fs.len(),
                                fid == j + 2,
                                fs[j as int].kind == f.kind,
                                fs[j as int].array,
                                spec_lookup(*source, fs[j as int].name@) == Some(
                                    JsonValue::Arr(*elems),
                                ),
                                match spec_project_from(fs, *source, j as int) {
                                    Some(t) => spec_project_from(fs, *source, 0) == Some(
                                        vals_view(out0) + t,
                                    ),
                                    None => spec_project_from(fs, *source, 0) is None,
                                },
                                out@.len() >= out0.len(),
                                out@.subrange(0, out0.len() as int) == out0,
                                spec_coerce_all(f.kind, es.subrange(0, k as int), fid) == Some(
                                    vals_view(out@.skip(out0.len() as int)),
                                ),
                            decreases es.len() - k,
                        {
                            let ghost outk = out@;
                            match coerce_value(f.kind, &elems[k], fid) {
                                Some(iv) => {
                                    out.push((fid, iv));
                                },
                                None => {
                                    proof {
                                        lemma_coerce_all_fails(f.kind, es, fid, k as int);
                                        assert(spec_field_vals(fs[j as int], *source, fid)
                                            is None);
                                        assert(spec_project_from(fs, *source, j as int) is None);
                                        assert(spec_project_from(fs, *source, 0) is None);
                                    }
                                    return Err(Code::FieldTypeErr);
                                },
                            }
                            proof {
                                lemma_coerce_all_snoc(f.kind, es.subrange(0, k as int + 1), fid);
                                assert(es.subrange(0, k as int + 1).drop_last() =~= es.subrange(
                                    0,
                                    k as int,
                                ));
                                assert(out@.subrange(0, out0.len() as int) =~= out0);
                                assert(vals_view(out@.skip(out0.len() as int)) =~= vals_view(
                                    outk.skip(out0.len() as int),
                                ).push((fid, out@.last().1@)));
                            }
                            k = k + 1;
                        }
                        proof {
                            assert(es.subrange(0, es.len() as int) =~= es);
                            lemma_step_extend(
                                fs,
                                *source,
                                j as int,
                                out0,
                                vals_view(out@.skip(out0.len() as int)),
                            );
                        }
                    },
                    _ => {
                        if f.array {
                            proof {
                                assert(spec_field_vals(fs[j as int], *source, fid) is None);
                            }
                            return Err(Code::FieldTypeErr);
                        }
                        match coerce_value(f.kind, v, fid) {
                            Some(iv) => {
                                let ghost w = iv@;
                                out.push((fid, iv));
                                proof {
                                    assert(spec_field_vals(fs[j as int], *source, fid) == Some(
                                        seq![(fid, w)],
                                    ));
                                    assert(vals_view(out@.skip(out0.len() as int)) =~= seq![
                                        (fid, w),
                                    ]);
                                    lemma_step_extend(fs, *source, j as int, out0, seq![(fid, w)]);
                                }
                            },
                            None => {
                                proof {
                                    assert(spec_field_vals(fs[j as int], *source, fid) is None);
                                }
                                return Err(Code::FieldTypeErr);
                            },
                        }
                    },
                }
            },
        }
        j = j + 1;
    }
    proof {
        assert(vals_view(out@) + Seq::<(u32, IvView)>::empty() =~= vals_view(out@));
    }
    Ok(out)
}

/// One coercion, exactly as [`spec_coerce`] reads it.
fn coerce_value(kind: IndexFieldKind, v: &JsonValue, fid: u32) -> (r: Option<IndexValue>)
    ensures
        match r {
            Some(iv) => spec_coerce(kind, *v) == Some(iv@),
            None => spec_coerce(kind, *v) is None,
        },
{
    match kind {
        IndexFieldKind::KInt => match v {
            JsonValue::Num { int_val: Some(i), .. } => Some(IndexValue::VInt(*i)),
            _ => None,
        },
        IndexFieldKind::KFloat => match v {
            JsonValue::Num { float_bits, .. } => Some(IndexValue::VFloat(*float_bits)),
            _ => None,
        },
        IndexFieldKind::KStr | IndexFieldKind::KText => match v {
            JsonValue::Str(s) => Some(IndexValue::VStr(clone_string(s))),
            _ => None,
        },
    }
}

/// Appending one coerced element to a coerced prefix.
proof fn lemma_coerce_all_snoc(kind: IndexFieldKind, elems: Seq<JsonValue>, fid: u32)
    requires
        elems.len() > 0,
    ensures
        spec_coerce_all(kind, elems, fid) == (match (
            spec_coerce_all(kind, elems.drop_last(), fid),
            spec_coerce(kind, elems.last()),
        ) {
            (Some(t), Some(w)) => Some(t.push((fid, w))),
            _ => None::<Seq<(u32, IvView)>>,
        }),
    decreases elems.len(),
{
    if elems.len() == 1 {
        assert(elems.drop_last() =~= Seq::<JsonValue>::empty());
        assert(elems.drop_first() =~= Seq::<JsonValue>::empty());
        if spec_coerce(kind, elems[0]) is Some {
            let w = spec_coerce(kind, elems[0]).unwrap();
            assert(seq![(fid, w)] + Seq::<(u32, IvView)>::empty() =~= Seq::<(
                u32,
                IvView,
            )>::empty().push((fid, w)));
        }
    } else {
        let rest = elems.drop_first();
        lemma_coerce_all_snoc(kind, rest, fid);
        assert(rest.drop_last() =~= elems.drop_last().drop_first());
        assert(rest.last() == elems.last());
        assert(elems.drop_last()[0] == elems[0]);
        if spec_coerce(kind, elems[0]) is Some && spec_coerce_all(kind, rest.drop_last(), fid)
            is Some && spec_coerce(kind, elems.last()) is Some {
            let w0 = spec_coerce(kind, elems[0]).unwrap();
            let t = spec_coerce_all(kind, rest.drop_last(), fid).unwrap();
            let wl = spec_coerce(kind, elems.last()).unwrap();
            assert(seq![(fid, w0)] + t.push((fid, wl)) =~= (seq![(fid, w0)] + t).push((fid, wl)));
        }
    }
}

/// A failing element fails the whole array.
proof fn lemma_coerce_all_fails(kind: IndexFieldKind, elems: Seq<JsonValue>, fid: u32, k: int)
    requires
        0 <= k < elems.len(),
        spec_coerce(kind, elems[k]) is None,
    ensures
        spec_coerce_all(kind, elems, fid) is None,
    decreases elems.len(),
{
    if k > 0 {
        lemma_coerce_all_fails(kind, elems.drop_first(), fid, k - 1);
    }
}

/// Folding one field's contribution into the running projection.
proof fn lemma_step_extend(
    fields: Seq<IndexField>,
    src: JsonValue,
    j: int,
    out0: Seq<(u32, IndexValue)>,
    h: Seq<(u32, IvView)>,
)
    requires
        0 <= j < fields.len(),
        spec_field_vals(fields[j], src, (j + 2) as u32) == Some(h),
        match spec_project_from(fields, src, j) {
            Some(t) => spec_project_from(fields, src, 0) == Some(vals_view(out0) + t),
            None => spec_project_from(fields, src, 0) is None,
        },
    ensures
        match spec_project_from(fields, src, j + 1) {
            Some(t) => spec_project_from(fields, src, 0) == Some((vals_view(out0) + h) + t),
            None => spec_project_from(fields, src, 0) is None,
        },
{
    match spec_project_from(fields, src, j + 1) {
        Some(t) => {
            assert(spec_project_from(fields, src, j) == Some(h + t));
            assert(vals_view(out0) + (h + t) =~= (vals_view(out0) + h) + t);
        },
        None => {
            assert(spec_project_from(fields, src, j) is None);
        },
    }
}

// ------------------------------------------------------------ index model

/// Mathematical image of the index: the committed postings by internal
/// id, the pending event channel in arrival (= commit) order, and the
/// flush rate-limit counter.
#[verifier::ext_equal]
pub struct IndexView {
    pub postings: Seq<(u32, Seq<(u32, IvView)>)>,
    pub queue: Seq<Event>,
    pub activity: u32,
}

/// Index of the posting carrying `iid`, or -1.
pub open spec fn find_posting(s: Seq<(u32, Seq<(u32, IvView)>)>, iid: u32) -> int
    decreases s.len(),
{
    if s.len() == 0 {
        -1
    } else if s[0].0 == iid {
        0
    } else {
        let r = find_posting(s.drop_first(), iid);
        if r < 0 {
            -1
        } else {
            r + 1
        }
    }
}

/// The postings without `iid`, if it was there.
pub open spec fn remove_posting(s: Seq<(u32, Seq<(u32, IvView)>)>, iid: u32) -> Seq<
    (u32, Seq<(u32, IvView)>),
> {
    if find_posting(s, iid) < 0 {
        s
    } else {
        s.remove(find_posting(s, iid))
    }
}

pub proof fn lemma_find_posting(s: Seq<(u32, Seq<(u32, IvView)>)>, iid: u32)
    ensures
        find_posting(s, iid) < 0 ==> find_posting(s, iid) == -1 && forall|i: int|
            0 <= i < s.len() ==> (#[trigger] s[i]).0 != iid,
        find_posting(s, iid) >= 0 ==> find_posting(s, iid) < s.len() && s[find_posting(s, iid)].0
            == iid && forall|i: int| 0 <= i < find_posting(s, iid) ==> (#[trigger] s[i]).0 != iid,
    decreases s.len(),
{
    if s.len() > 0 && s[0].0 != iid {
        let rest = s.drop_first();
        lemma_find_posting(rest, iid);
        let kr = find_posting(rest, iid);
        if kr < 0 {
            assert forall|i: int| 0 <= i < s.len() implies (#[trigger] s[i]).0 != iid by {
                if i > 0 {
                    assert(s[i] == rest[i - 1]);
                }
            }
        } else {
            assert(s[kr + 1] == rest[kr]);
            assert forall|i: int| 0 <= i < kr + 1 implies (#[trigger] s[i]).0 != iid by {
                if i > 0 {
                    assert(s[i] == rest[i - 1]);
                }
            }
        }
    }
}

/// The postings transition of one consumed event with the values
/// projected for it (`None` when the document was missing or unreadable).
pub open spec fn index_step_post(
    p: Seq<(u32, Seq<(u32, IvView)>)>,
    e: Event,
    vals: Option<Seq<(u32, IvView)>>,
) -> Seq<(u32, Seq<(u32, IvView)>)> {
    match e {
        Event::Stop => p,
        Event::Delete(iid) => if iid > 0 {
            remove_posting(p, iid)
        } else {
            p
        },
        Event::Update(prior, new_iid) => {
            let base = if prior > 0 {
                remove_posting(p, prior)
            } else {
                p
            };
            let base2 = remove_posting(base, new_iid);
            match vals {
                Some(vs) => if vs.len() > 0 {
                    base2.push((new_iid, vs))
                } else {
                    base2
                },
                None => base2,
            }
        },
    }
}

/// A consumed event stream folded over the postings, in commit order.
/// The result is a function of the start postings and the stream alone:
/// two runs that consume the same events with the same projected values
/// — live application and a replay of the same committed log — end with
/// the same indexed internal ids.
pub open spec fn index_fold(
    p: Seq<(u32, Seq<(u32, IvView)>)>,
    evs: Seq<(Event, Option<Seq<(u32, IvView)>>)>,
) -> Seq<(u32, Seq<(u32, IvView)>)>
    decreases evs.len(),
{
    if evs.len() == 0 {
        p
    } else {
        index_fold(index_step_post(p, evs[0].0, evs[0].1), evs.drop_first())
    }
}

/// The view of a drained event stream with its projected values.
pub open spec fn events_with_vals_view(s: Seq<(Event, Option<Vec<(u32, IndexValue)>>)>) -> Seq<
    (Event, Option<Seq<(u32, IvView)>>),
> {
    s.map_values(
        |e: (Event, Option<Vec<(u32, IndexValue)>>)|
            (
                e.0,
                match e.1 {
                    Some(v) => Some(vals_view(v@)),
                    None => None,
                },
            ),
    )
}

/// A sequence that ends in a posting for `iid` resolves `iid`: once an
/// update event for a document has been consumed and its values were
/// non-empty, the document's internal id is committed in the index, so a
/// search that matches it returns a hit with that id.
pub proof fn lemma_find_posting_push(
    s: Seq<(u32, Seq<(u32, IvView)>)>,
    iid: u32,
    v: Seq<(u32, IvView)>,
)
    ensures
        find_posting(s.push((iid, v)), iid) >= 0,
    decreases s.len(),
{
    let p = s.push((iid, v));
    if s.len() == 0 {
        assert(p[0] == (iid, v));
    } else if s[0].0 != iid {
        assert(p[0] == s[0]);
        lemma_find_posting_push(s.drop_first(), iid, v);
        assert(p.drop_first() =~= s.drop_first().push((iid, v)));
    } else {
        assert(p[0] == s[0]);
    }
}

/// The model of the per-partition inverted index.
pub struct IndexEngine {
    postings: Vec<(u32, Vec<(u32, IndexValue)>)>,
    queue: Vec<Event>,
    activity: u32,
}

/// Flush invokes a commit only while fewer than this many flushes have
/// passed since the last indexing activity.
pub const FLUSH_QUIET_LIMIT: u32 = 10;

impl View for IndexEngine {
    type V = IndexView;

    closed spec fn view(&self) -> IndexView {
        IndexView {
            postings: self.postings@.map_values(
                |e: (u32, Vec<(u32, IndexValue)>)| (e.0, vals_view(e.1@)),
            ),
            queue: self.queue@,
            activity: self.activity,
        }
    }
}

impl IndexEngine {
    /// Postings carry pairwise distinct internal ids.
    pub open spec fn inv(&self) -> bool {
        forall|i: int, j: int|
            0 <= i < j < self@.postings.len() ==> (#[trigger] self@.postings[i].0) != (
            #[trigger] self@.postings[j].0)
    }

    /// A fresh, empty index.
    pub fn new() -> (r: IndexEngine)
        ensures
            r.inv(),
            r@.postings.len() == 0,
            r@.queue.len() == 0,
            r@.activity == 0,
    {
        let r = IndexEngine { postings: Vec::new(), queue: Vec::new(), activity: 0 };
        proof {
            assert(r@.postings =~= Seq::<(u32, Seq<(u32, IvView)>)>::empty());
        }
        r
    }

    /// Sends one event into the channel (the apply path's side).
    pub fn write(&mut self, e: Event)
        ensures
            final(self)@ == (IndexView {
                postings: old(self)@.postings,
                queue: old(self)@.queue.push(e),
                activity: old(self)@.activity,
            }),
            old(self).inv() ==> final(self).inv(),
    {
        self.queue.push(e);
        proof {
            assert(self@.postings =~= old(self)@.postings);
            assert(self@ =~= (IndexView {
                postings: old(self)@.postings,
                queue: old(self)@.queue.push(e),
                activity: old(self)@.activity,
            }));
        }
    }

    /// Takes the oldest pending event (the worker's side): the channel is
    /// strict FIFO, so consumption order equals commit order.
    pub fn next_event(&mut self) -> (r: Option<Event>)
        ensures
            old(self)@.queue.len() == 0 ==> r is None && final(self)@ == old(self)@,
            old(self)@.queue.len() > 0 ==> r == Some(old(self)@.queue[0]) && final(self)@
                == (IndexView {
                postings: old(self)@.postings,
                queue: old(self)@.queue.drop_first(),
                activity: old(self)@.activity,
            }),
            old(self).inv() ==> final(self).inv(),
    {
        if self.queue.len() == 0 {
            None
        } else {
            let e = self.queue.remove(0);
            proof {
                assert(self@.queue =~= old(self)@.queue.drop_first());
                assert(self@.postings =~= old(self)@.postings);
                assert(self@ =~= (IndexView {
                    postings: old(self)@.postings,
                    queue: old(self)@.queue.drop_first(),
                    activity: old(self)@.activity,
                }));
            }
            Some(e)
        }
    }

    /// Scans for the posting of `iid`.
    fn find_iid(&self, iid: u32) -> (r: Option<usize>)
        ensures
            match r {
                Some(i) => i < self@.postings.len() && find_posting(self@.postings, iid) == i,
                None => find_posting(self@.postings, iid) == -1,
            },
    {
        let mut i: usize = 0;
        while i < self.postings.len()
            invariant
                i <= self.postings@.len(),
                self@.postings.len() == self.postings@.len(),
                forall|j: int| 0 <= j < i ==> (#[trigger] self@.postings[j]).0 != iid,
            decreases self.postings@.len() - i,
        {
            if self.postings[i].0 == iid {
                proof {
                    lemma_find_posting(self@.postings, iid);
                    assert(self@.postings[i as int].0 == self.postings@[i as int].0);
                    if find_posting(self@.postings, iid) != i {
                        assert(false);
                    }
                }
                return Some(i);
            }
            proof {
                assert(self@.postings[i as int].0 == self.postings@[i as int].0);
            }
            i = i + 1;
        }
        proof {
            lemma_find_posting(self@.postings, iid);
            if find_posting(self@.postings, iid) >= 0 {
                assert(self@.postings[find_posting(self@.postings, iid)].0 == iid);
            }
        }
        None
    }

    /// Drops the posting of `iid`, if present; `iid` is absent afterwards.
    fn delete_posting(&mut self, iid: u32)
        requires
            old(self).inv(),
        ensures
            final(self).inv(),
            final(self)@ == (IndexView {
                postings: remove_posting(old(self)@.postings, iid),
                queue: old(self)@.queue,
                activity: old(self)@.activity,
            }),
            forall|i: int|
                0 <= i < final(self)@.postings.len() ==> (#[trigger] final(self)@.postings[i]).0
                    != iid,
    {
        proof {
            lemma_find_posting(self@.postings, iid);
        }
        match self.find_iid(iid) {
            Some(i) => {
                self.postings.remove(i);
                proof {
                    assert(self@.postings =~= old(self)@.postings.remove(i as int));
                    assert forall|a: int|
                        0 <= a < self@.postings.len() implies #[trigger] self@.postings[a]
                        == if a < i {
                        old(self)@.postings[a]
                    } else {
                        old(self)@.postings[a + 1]
                    } by {
                        assert(self@.postings[a] == old(self)@.postings.remove(i as int)[a]);
                    }
                    assert forall|a: int, b: int|
                        0 <= a < b < self@.postings.len() implies (#[trigger] self@.postings[a].0)
                        != (#[trigger] self@.postings[b].0) by {}
                    assert forall|a: int|
                        0 <= a < self@.postings.len() implies (#[trigger] self@.postings[a]).0
                        != iid by {
                        if a >= i {
                            assert(old(self)@.postings[a + 1].0 != old(self)@.postings[i as int].0);
                        }
                    }
                    assert(self@ =~= (IndexView {
                        postings: remove_posting(old(self)@.postings, iid),
                        queue: old(self)@.queue,
                        activity: old(self)@.activity,
                    }));
                }
            },
            None => {
                proof {
                    assert(self@ =~= (IndexView {
                        postings: remove_posting(old(self)@.postings, iid),
                        queue: old(self)@.queue,
                        activity: old(self)@.activity,
                    }));
                }
            },
        }
    }

    /// Consumes one event against the given projected values (the worker
    /// parses the document's source and projects it before calling; `None`
    /// when the document was missing or its source unreadable — such an
    /// event only clears the prior posting, as worker errors are logged
    /// and skipped). Returns false exactly on `Stop`. Every consumed
    /// event clears the activity counter.
    pub fn apply_event(&mut self, e: Event, vals: Option<Vec<(u32, IndexValue)>>) -> (cont: bool)
        requires
            old(self).inv(),
        ensures
            final(self).inv(),
            final(self)@.queue == old(self)@.queue,
            final(self)@.postings == index_step_post(
                old(self)@.postings,
                e,
                match vals {
                    Some(v) => Some(vals_view(v@)),
                    None => None,
                },
            ),
            match e {
                Event::Stop => !cont && final(self)@ == old(self)@,
                Event::Delete(iid) => cont && final(self)@ == (IndexView {
                    postings: if iid > 0 {
                        remove_posting(old(self)@.postings, iid)
                    } else {
                        old(self)@.postings
                    },
                    queue: old(self)@.queue,
                    activity: 0,
                }),
                Event::Update(prior, new_iid) => cont && final(self)@ == (IndexView {
                    postings: {
                        let base = if prior > 0 {
                            remove_posting(old(self)@.postings, prior)
                        } else {
                            old(self)@.postings
                        };
                        let base2 = remove_posting(base, new_iid);
                        match vals {
                            Some(vs) => if vs@.len() > 0 {
                                base2.push((new_iid, vals_view(vs@)))
                            } else {
                                base2
                            },
                            None => base2,
                        }
                    },
                    queue: old(self)@.queue,
                    activity: 0,
                }),
            },
    {
        match e {
            Event::Stop => {
                proof {
                    assert(self@ == old(self)@);
                    assert(self.inv());
                }
                false
            },
            Event::Delete(iid) => {
                if iid > 0 {
                    self.delete_posting(iid);
                }
                self.activity = 0;
                proof {
                    assert(self@ =~= (IndexView {
                        postings: if iid > 0 {
                            remove_posting(old(self)@.postings, iid)
                        } else {
                            old(self)@.postings
                        },
                        queue: old(self)@.queue,
                        activity: 0,
                    }));
                }
                true
            },
            Event::Update(prior, new_iid) => {
                if prior > 0 {
                    self.delete_posting(prior);
                }
                self.delete_posting(new_iid);
                let ghost base2 = self@.postings;
                let ghost vals0 = vals;
                match vals {
                    Some(vs) => {
                        if vs.len() > 0 {
                            let ghost vv = vals_view(vs@);
                            self.postings.push((new_iid, vs));
                            proof {
                                assert(self@.postings =~= base2.push((new_iid, vv)));
                                assert forall|a: int, b: int|
                                    0 <= a < b < self@.postings.len() implies (
                                #[trigger] self@.postings[a].0) != (
                                #[trigger] self@.postings[b].0) by {
                                    if b == self@.postings.len() - 1 {
                                        assert(self@.postings[a] == base2[a]);
                                    }
                                }
                            }
                        }
                    },
                    None => {},
                }
                self.activity = 0;
                proof {
                    let base = if prior > 0 {
                        remove_posting(old(self)@.postings, prior)
                    } else {
                        old(self)@.postings
                    };
                    let base2x = remove_posting(base, new_iid);
                    assert(base2 == base2x);
                    assert(self@ =~= (IndexView {
                        postings: match vals0 {
                            Some(vs) => if vs@.len() > 0 {
                                base2x.push((new_iid, vals_view(vs@)))
                            } else {
                                base2x
                            },
                            None => base2x,
                        },
                        queue: old(self)@.queue,
                        activity: 0,
                    }));
                    assert(vals0 == vals);
                }
                true
            },
        }
    }

    /// Consumes a whole drained stream of write-side events, each with
    /// its projected values, in order (`Stop` never stands in such a
    /// stream: it only ends the worker loop at offload). The final
    /// postings are exactly [`index_fold`] of the stream, so replaying
    /// the events of the same committed log reproduces the same indexed
    /// internal ids.
    pub fn run_events(&mut self, evs: Vec<(Event, Option<Vec<(u32, IndexValue)>>)>)
        requires
            old(self).inv(),
            forall|i: int| 0 <= i < evs@.len() ==> !((#[trigger] evs@[i]).0 is Stop),
        ensures
            final(self).inv(),
            final(self)@.postings == index_fold(
                old(self)@.postings,
                events_with_vals_view(evs@),
            ),
            final(self)@.queue == old(self)@.queue,
    {
        let ghost all = events_with_vals_view(evs@);
        let ghost p0 = self@.postings;
        let ghost q0 = self@.queue;
        let mut rest = evs;
        while rest.len() > 0
            invariant
                self.inv(),
                self@.queue == q0,
                forall|i: int| 0 <= i < rest@.len() ==> !((#[trigger] rest@[i]).0 is Stop),
                index_fold(self@.postings, events_with_vals_view(rest@)) == index_fold(p0, all),
            decreases rest@.len(),
        {
            let ghost rest0 = rest@;
            let ghost pre = self@.postings;
            let (e, v) = rest.remove(0);
            let ghost v0 = v;
            self.apply_event(e, v);
            proof {
                let ev = events_with_vals_view(rest0);
                assert(ev[0] == (
                    e,
                    match v0 {
                        Some(vec) => Some(vals_view(vec@)),
                        None => None::<Seq<(u32, IvView)>>,
                    },
                ));
                assert(events_with_vals_view(rest@) =~= ev.drop_first());
                assert(index_fold(pre, ev) == index_fold(
                    index_step_post(pre, ev[0].0, ev[0].1),
                    ev.drop_first(),
                ));
            }
        }
        proof {
            assert(events_with_vals_view(rest@) =~= Seq::<
                (Event, Option<Seq<(u32, IvView)>>),
            >::empty());
        }
    }

    /// Is `iid` committed in the index?
    pub fn exist(&self, iid: u32) -> (r: bool)
        ensures
            r == (find_posting(self@.postings, iid) >= 0),
    {
        self.find_iid(iid).is_some()
    }

    /// Number of committed documents (the `index_count` of `count()`).
    pub fn count(&self) -> (r: u64)
        ensures
            r == self@.postings.len(),
    {
        self.postings.len() as u64
    }

    /// The flush rate limit: each call bumps the counter, and only calls
    /// made while it is still below the quiet limit commit — so commits
    /// stop shortly after writes do, but each burst still ends in one.
    pub fn flush(&mut self) -> (committed: bool)
        ensures
            committed == (old(self)@.activity <= FLUSH_QUIET_LIMIT),
            final(self)@ == (IndexView {
                postings: old(self)@.postings,
                queue: old(self)@.queue,
                activity: if old(self)@.activity == u32::MAX {
                    u32::MAX
                } else {
                    (old(self)@.activity + 1) as u32
                },
            }),
            old(self).inv() ==> final(self).inv(),
    {
        let prior = self.activity;
        if self.activity < u32::MAX {
            self.activity = self.activity + 1;
        }
        proof {
            assert(self@ =~= (IndexView {
                postings: old(self)@.postings,
                queue: old(self)@.queue,
                activity: if old(self)@.activity == u32::MAX {
                    u32::MAX
                } else {
                    (old(self)@.activity + 1) as u32
                },
            }));
        }
        prior <= FLUSH_QUIET_LIMIT
    }
}

} // verus!
