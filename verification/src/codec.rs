use vstd::prelude::*;

use crate::object::Dict;
use crate::object::ObjId;
use crate::object::Obj;
use crate::store::Store;
use crate::store::StoreV;
use lopdf::Object as LObj;
use lopdf::Stream as LStream;
use lopdf::StringFormat as LFmt;

verus! {

#[verifier::external_type_specification]
#[verifier::external_body]
pub struct ExLopdfError(lopdf::Error);

#[verifier::external_type_specification]
#[verifier::external_body]
pub struct ExIoError(std::io::Error);

#[verifier::external_type_specification]
#[verifier::external_body]
pub struct ExLopdfObject(lopdf::Object);

#[verifier::external_type_specification]
#[verifier::external_body]
pub struct ExLopdfDictionary(lopdf::Dictionary);

#[verifier::external_type_specification]
#[verifier::external_body]
pub struct ExLopdfDocument(lopdf::Document);

#[verifier::external_type_specification]
#[verifier::external_body]
pub struct ExLopdfStringFormat(lopdf::StringFormat);

/// Relies on lopdf's derived `Clone` for `Object`: a clone is equal to what
/// it was cloned from.
pub assume_specification[ <lopdf::Object as Clone>::clone ](o: &lopdf::Object) -> (r:
    lopdf::Object)
    ensures
        r == *o,
;

/// What the codec's decoder makes of a byte buffer: the store it decodes and
/// normalizes to, or nothing where decoding fails. The result depends on the
/// bytes alone, so it bears a name rather than a transcription of the parser.
pub uninterp spec fn decoded(data: Seq<u8>) -> Option<StoreV>;

/// What the codec's encoder writes for a store, or nothing where the store
/// cannot be represented. Deterministic in the store alone.
pub uninterp spec fn encoded(s: StoreV) -> Option<Seq<u8>>;

#[verifier::external_body]
fn obj_of(o: &lopdf::Object) -> Obj {
    match o {
        LObj::Array(a) => Obj::Array(a.iter().map(obj_of).collect()),
        LObj::Dictionary(d) => Obj::Dictionary(dict_of(d)),
        LObj::Stream(s) => Obj::Stream(dict_of(&s.dict), s.content.clone()),
        LObj::Reference(id) => Obj::Reference(ObjId { num: id.0, gen: id.1 }),
        other => scalar_of(other),
    }
}

#[verifier::external_body]
fn scalar_of(o: &lopdf::Object) -> Obj {
    match o {
        LObj::Boolean(b) => Obj::Boolean(*b),
        LObj::Integer(i) => Obj::Integer(*i),
        LObj::Real(_) => Obj::Real(o.clone()),
        LObj::String(s, f) => Obj::Str(s.clone(), matches!(f, LFmt::Hexadecimal)),
        LObj::Name(n) => Obj::Name(n.clone()),
        _ => Obj::Null,
    }
}

#[verifier::external_body]
fn dict_of(d: &lopdf::Dictionary) -> Dict {
    Dict { entries: d.iter().map(|e| (e.0.clone(), obj_of(e.1))).collect() }
}

#[verifier::external_body]
fn lfmt(hex: bool) -> LFmt {
    if hex {
        LFmt::Hexadecimal
    } else {
        LFmt::Literal
    }
}

#[verifier::external_body]
fn lobj_of(o: &Obj) -> lopdf::Object {
    match o {
        Obj::Array(a) => LObj::Array(a.iter().map(lobj_of).collect()),
        Obj::Dictionary(d) => LObj::Dictionary(ldict_of(d)),
        Obj::Stream(d, c) => LObj::Stream(LStream::new(ldict_of(d), c.clone())),
        Obj::Reference(id) => LObj::Reference((id.num, id.gen)),
        other => lscalar_of(other),
    }
}

#[verifier::external_body]
fn lscalar_of(o: &Obj) -> lopdf::Object {
    match o {
        Obj::Boolean(b) => LObj::Boolean(*b),
        Obj::Integer(i) => LObj::Integer(*i),
        Obj::Real(r) => r.clone(),
        Obj::Str(s, hex) => LObj::String(s.clone(), lfmt(*hex)),
        Obj::Name(n) => LObj::Name(n.clone()),
        _ => LObj::Null,
    }
}

#[verifier::external_body]
fn ldict_of(d: &Dict) -> lopdf::Dictionary {
    let mut out = lopdf::Dictionary::new();
    for e in d.entries.iter() {
        out.set(e.0.clone(), lobj_of(&e.1));
    }
    out
}

/// Relies on lopdf's `Document::load_mem` and `Document::decompress`: parses a
/// complete PDF buffer into its indirect objects and normalizes stream
/// filters, deterministically in the bytes alone (the crate is taken without
/// its parallel-parse feature, so objects load sequentially in table order). The well-formedness of the
/// result rests on `Document::objects` being a map (one object per
/// identifier, walked in order) and on the reader keeping `max_id` at or
/// above every loaded object number.
#[verifier::external_body]
pub fn decode_store(data: &[u8]) -> (r: Result<Store, lopdf::Error>)
    ensures
        r is Ok <==> decoded(data@) is Some,
        r matches Ok(s) ==> Some(s@) == decoded(data@),
        r matches Ok(s) ==> s@.wf(),
{
    let mut doc = lopdf::Document::load_mem(data)?;
    doc.decompress();
    let objects = doc.objects.iter().map(|e| (ObjId { num: e.0.0, gen: e.0.1 }, obj_of(e.1))).collect();
    Ok(Store { objects, max_id: doc.max_id, trailer: dict_of(&doc.trailer) })
}

/// Relies on lopdf's `Document::save_to`: serializes the store's objects and
/// trailer as a PDF byte stream, deterministically in the store alone. The
/// writer allocates one more identifier for its cross-reference stream and
/// then sizes the table one past that, both in `u32`, so two identifiers of
/// headroom are left above the counter.
#[verifier::external_body]
pub fn encode_store(store: &Store) -> (r: Result<Vec<u8>, std::io::Error>)
    requires
        store@.max_id + 2 <= u32::MAX,
    ensures
        r is Ok <==> encoded(store@) is Some,
        r matches Ok(b) ==> Some(b@) == encoded(store@),
{
    let mut doc = lopdf::Document::with_version("1.5");
    for e in store.objects.iter() {
        doc.objects.insert((e.0.num, e.0.gen), lobj_of(&e.1));
    }
    doc.max_id = store.max_id;
    doc.trailer = ldict_of(&store.trailer);
    let mut out: Vec<u8> = Vec::new();
    doc.save_to(&mut out)?;
    Ok(out)
}

/// Relies on std's conversion from an `io::ErrorKind` to an `io::Error`, for
/// the one refusal the engine makes on its own: a store too large to
/// renumber, reported as resource exhaustion.
#[verifier::external_body]
pub fn resource_error() -> std::io::Error {
    std::io::ErrorKind::OutOfMemory.into()
}

} // verus!
