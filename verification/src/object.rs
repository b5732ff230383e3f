use vstd::prelude::*;

verus! {

/// Identifier of an indirect object: object number and generation number.
#[derive(Clone, Copy, PartialEq, Eq, Structural, Debug)]
pub struct ObjId {
    pub num: u32,
    pub gen: u16,
}

/// An object of the document graph. `Reference` edges are the only way one
/// object points at another; they are meaningful only within one store.
pub enum Obj {
    Null,
    Boolean(bool),
    Integer(i64),
    /// A real number, carried as the codec's own object so that it
    /// round-trips untouched; the engine never computes with it.
    Real(lopdf::Object),
    /// A string: bytes plus a flag telling the encoder to write it in
    /// hexadecimal form rather than literal form.
    Str(Vec<u8>, bool),
    Name(Vec<u8>),
    Array(Vec<Obj>),
    Dictionary(Dict),
    /// A stream: its dictionary plus its payload bytes.
    Stream(Dict, Vec<u8>),
    Reference(ObjId),
}

/// A dictionary: named entries in insertion order. Lookups take the first
/// entry with a matching key; a well-formed dictionary has distinct keys.
pub struct Dict {
    pub entries: Vec<(Vec<u8>, Obj)>,
}

/// Mathematical mirror of `Obj`, used by all contracts.
#[verifier::ext_equal]
pub enum ObjV {
    Null,
    Boolean(bool),
    Integer(i64),
    Real(lopdf::Object),
    Str(Seq<u8>, bool),
    Name(Seq<u8>),
    Array(Seq<ObjV>),
    Dictionary(Seq<(Seq<u8>, ObjV)>),
    Stream(Seq<(Seq<u8>, ObjV)>, Seq<u8>),
    Reference(ObjId),
}

pub open spec fn obj_v(o: Obj) -> ObjV
    decreases o,
{
    match o {
        Obj::Null => ObjV::Null,
        Obj::Boolean(b) => ObjV::Boolean(b),
        Obj::Integer(i) => ObjV::Integer(i),
        Obj::Real(r) => ObjV::Real(r),
        Obj::Str(s, hex) => ObjV::Str(s@, hex),
        Obj::Name(n) => ObjV::Name(n@),
        Obj::Array(v) => ObjV::Array(objs_v(v@)),
        Obj::Dictionary(d) => ObjV::Dictionary(entries_v(d.entries@)),
        Obj::Stream(d, bytes) => ObjV::Stream(entries_v(d.entries@), bytes@),
        Obj::Reference(id) => ObjV::Reference(id),
    }
}

pub open spec fn objs_v(s: Seq<Obj>) -> Seq<ObjV>
    decreases s,
{
    if s.len() == 0 {
        Seq::empty()
    } else {
        objs_v(s.subrange(0, s.len() - 1)).push(obj_v(s[s.len() - 1]))
    }
}

pub open spec fn entries_v(s: Seq<(Vec<u8>, Obj)>) -> Seq<(Seq<u8>, ObjV)>
    decreases s,
{
    if s.len() == 0 {
        Seq::empty()
    } else {
        entries_v(s.subrange(0, s.len() - 1)).push(
            (s[s.len() - 1].0@, obj_v(s[s.len() - 1].1)),
        )
    }
}

pub broadcast proof fn lemma_objs_v(s: Seq<Obj>)
    ensures
        (#[trigger] objs_v(s)).len() == s.len(),
        forall|i: int| 0 <= i < s.len() ==> objs_v(s)[i] == obj_v(s[i]),
    decreases s.len(),
{
    if s.len() > 0 {
        lemma_objs_v(s.subrange(0, s.len() - 1));
    }
}

pub broadcast proof fn lemma_entries_v(s: Seq<(Vec<u8>, Obj)>)
    ensures
        (#[trigger] entries_v(s)).len() == s.len(),
        forall|i: int|
            0 <= i < s.len() ==> entries_v(s)[i] == (s[i].0@, obj_v(s[i].1)),
    decreases s.len(),
{
    if s.len() > 0 {
        lemma_entries_v(s.subrange(0, s.len() - 1));
    }
}

impl View for Obj {
    type V = ObjV;

    open spec fn view(&self) -> ObjV {
        obj_v(*self)
    }
}

impl View for Dict {
    type V = Seq<(Seq<u8>, ObjV)>;

    open spec fn view(&self) -> Seq<(Seq<u8>, ObjV)> {
        entries_v(self.entries@)
    }
}

/// First value bound to `key`, if any. A well-formed dictionary has distinct
/// keys, so "first" is then the only one.
pub open spec fn dict_lookup(d: Seq<(Seq<u8>, ObjV)>, key: Seq<u8>) -> Option<ObjV>
    decreases d.len(),
{
    if d.len() == 0 {
        None
    } else if d[0].0 == key {
        Some(d[0].1)
    } else {
        dict_lookup(d.subrange(1, d.len() as int), key)
    }
}

/// Binding `key` to `v`: the first entry with that key is replaced in place,
/// keeping its position; a fresh key goes to the end.
pub open spec fn dict_set(d: Seq<(Seq<u8>, ObjV)>, key: Seq<u8>, v: ObjV) -> Seq<(Seq<u8>, ObjV)>
    decreases d.len(),
{
    if d.len() == 0 {
        seq![(key, v)]
    } else if d[0].0 == key {
        d.update(0, (key, v))
    } else {
        seq![d[0]] + dict_set(d.subrange(1, d.len() as int), key, v)
    }
}

pub proof fn lemma_dict_lookup_skip(d: Seq<(Seq<u8>, ObjV)>, i: int, key: Seq<u8>)
    requires
        0 <= i < d.len(),
        d[i].0 != key,
    ensures
        dict_lookup(d.subrange(i, d.len() as int), key) == dict_lookup(
            d.subrange(i + 1, d.len() as int),
            key,
        ),
{
    let s = d.subrange(i, d.len() as int);
    assert(s.subrange(1, s.len() as int) =~= d.subrange(i + 1, d.len() as int));
}

pub proof fn lemma_dict_set_skip(d: Seq<(Seq<u8>, ObjV)>, i: int, key: Seq<u8>, v: ObjV)
    requires
        0 <= i < d.len(),
        d[i].0 != key,
    ensures
        dict_set(d.subrange(i, d.len() as int), key, v) == seq![d[i]] + dict_set(
            d.subrange(i + 1, d.len() as int),
            key,
            v,
        ),
{
    let s = d.subrange(i, d.len() as int);
    assert(s.subrange(1, s.len() as int) =~= d.subrange(i + 1, d.len() as int));
}

/// What `dict_set` does, entry by entry: either the key was present at some
/// first position, which is overwritten, or the binding is appended.
pub proof fn lemma_dict_set_frame(d: Seq<(Seq<u8>, ObjV)>, key: Seq<u8>, v: ObjV)
    ensures
        dict_lookup(d, key) is Some ==> exists|i: int|
            0 <= i < d.len() && d[i].0 == key && dict_set(d, key, v) =~= d.update(i, (key, v)),
        dict_lookup(d, key) is None ==> dict_set(d, key, v) =~= d.push((key, v)),
    decreases d.len(),
{
    if d.len() == 0 {
    } else if d[0].0 == key {
        assert(dict_set(d, key, v) =~= d.update(0, (key, v)));
    } else {
        let tail = d.subrange(1, d.len() as int);
        lemma_dict_set_frame(tail, key, v);
        if dict_lookup(tail, key) is Some {
            let i = choose|i: int|
                0 <= i < tail.len() && tail[i].0 == key && dict_set(tail, key, v) =~= tail.update(
                    i,
                    (key, v),
                );
            assert(d[i + 1].0 == key);
            assert(dict_set(d, key, v) =~= d.update(i + 1, (key, v)));
        } else {
            assert(dict_set(d, key, v) =~= d.push((key, v)));
        }
    }
}

/// A byte-for-byte copy of a byte vector.
pub fn copy_bytes(v: &Vec<u8>) -> (r: Vec<u8>)
    ensures
        r@ == v@,
{
    let mut out: Vec<u8> = Vec::new();
    let mut i: usize = 0;
    while i < v.len()
        invariant
            i <= v.len(),
            out@ =~= v@.subrange(0, i as int),
        decreases v.len() - i,
    {
        out.push(v[i]);
        i = i + 1;
    }
    assert(out@ =~= v@);
    out
}

impl Dict {
    pub fn new() -> (d: Dict)
        ensures
            d@ == Seq::<(Seq<u8>, ObjV)>::empty(),
    {
        Dict { entries: Vec::new() }
    }

    /// First entry bound to `key`, as `dict_lookup` names it.
    pub fn get(&self, key: &[u8]) -> (r: Option<&Obj>)
        ensures
            match r {
                Some(o) => dict_lookup(self@, key@) == Some(o@),
                None => dict_lookup(self@, key@) is None,
            },
    {
        let n = self.entries.len();
        let mut i: usize = 0;
        proof {
            lemma_entries_v(self.entries@);
            assert(self@.subrange(0, n as int) =~= self@);
        }
        while i < n
            invariant
                n == self.entries.len(),
                i <= n,
                self@.len() == n,
                forall|j: int|
                    0 <= j < n ==> self@[j] == (self.entries@[j].0@, obj_v(self.entries@[j].1)),
                dict_lookup(self@, key@) == dict_lookup(self@.subrange(i as int, n as int), key@),
            decreases n - i,
        {
            if bytes_eq(&self.entries[i].0, key) {
                assert(self@.subrange(i as int, n as int)[0] == self@[i as int]);
                return Some(&self.entries[i].1);
            }
            proof {
                lemma_dict_lookup_skip(self@, i as int, key@);
            }
            i = i + 1;
        }
        assert(self@.subrange(n as int, n as int) =~= Seq::<(Seq<u8>, ObjV)>::empty());
        None
    }

    /// Binds `key` to `obj` as `dict_set` names it: overwrite in place, or
    /// append a fresh key.
    pub fn set(&mut self, key: &[u8], obj: Obj)
        ensures
            final(self)@ == dict_set(old(self)@, key@, obj@),
    {
        let ghost old_view = old(self)@;
        let n = self.entries.len();
        let mut i: usize = 0;
        proof {
            lemma_entries_v(self.entries@);
            assert(old_view.subrange(0, 0) =~= Seq::<(Seq<u8>, ObjV)>::empty());
            assert(old_view.subrange(0, n as int) =~= old_view);
        }
        while i < n
            invariant
                n == self.entries.len(),
                i <= n,
                old_view == self@,
                old_view.len() == n,
                forall|j: int|
                    0 <= j < n ==> old_view[j] == (self.entries@[j].0@, obj_v(self.entries@[j].1)),
                dict_set(old_view, key@, obj@) == seq_prefix_set(old_view, i as int, key@, obj@),
            decreases n - i,
        {
            if bytes_eq(&self.entries[i].0, key) {
                assert(old_view.subrange(i as int, n as int)[0] == old_view[i as int]);
                let k = crate::object::to_vec_bytes(key);
                self.entries[i] = (k, obj);
                proof {
                    lemma_entries_v(self.entries@);
                    assert(self@ =~= old_view.subrange(0, i as int) + old_view.subrange(
                        i as int,
                        n as int,
                    ).update(0, (key@, obj_v(obj))));
                    assert(old_view.subrange(i as int, n as int)[0].0 == key@);
                    assert(dict_set(old_view.subrange(i as int, n as int), key@, obj@)
                        == old_view.subrange(i as int, n as int).update(0, (key@, obj_v(obj))));
                    assert(dict_set(old_view, key@, obj@) == old_view.subrange(0, i as int)
                        + dict_set(old_view.subrange(i as int, n as int), key@, obj@));
                    assert(self@ == dict_set(old_view, key@, obj@));
                }
                return;
            }
            proof {
                lemma_dict_set_skip(old_view, i as int, key@, obj@);
                assert(seq_prefix_set(old_view, i as int, key@, obj@) =~= seq_prefix_set(
                    old_view,
                    i as int + 1,
                    key@,
                    obj@,
                ));
            }
            i = i + 1;
        }
        let k = crate::object::to_vec_bytes(key);
        self.entries.push((k, obj));
        proof {
            lemma_entries_v(self.entries@);
            assert(old_view.subrange(n as int, n as int) =~= Seq::<(Seq<u8>, ObjV)>::empty());
            assert(self@ =~= old_view.push((key@, obj_v(obj))));
        }
    }
}

/// The prefix of `d` before `i` left alone, `dict_set` applied to the rest.
pub open spec fn seq_prefix_set(
    d: Seq<(Seq<u8>, ObjV)>,
    i: int,
    key: Seq<u8>,
    v: ObjV,
) -> Seq<(Seq<u8>, ObjV)> {
    d.subrange(0, i) + dict_set(d.subrange(i, d.len() as int), key, v)
}

/// Byte-slice equality, element by element.
pub fn bytes_eq(a: &[u8], b: &[u8]) -> (r: bool)
    ensures
        r <==> a@ == b@,
{
    if a.len() != b.len() {
        assert(a@.len() != b@.len());
        return false;
    }
    let n = a.len();
    let mut i: usize = 0;
    while i < n
        invariant
            n == a.len() == b.len(),
            i <= n,
            forall|j: int| 0 <= j < i ==> a@[j] == b@[j],
        decreases n - i,
    {
        if a[i] != b[i] {
            return false;
        }
        i = i + 1;
    }
    assert(a@ =~= b@);
    true
}

/// An owned copy of a byte slice.
pub fn to_vec_bytes(s: &[u8]) -> (r: Vec<u8>)
    ensures
        r@ == s@,
{
    let mut out: Vec<u8> = Vec::new();
    let mut i: usize = 0;
    while i < s.len()
        invariant
            i <= s.len(),
            out@ =~= s@.subrange(0, i as int),
        decreases s.len() - i,
    {
        out.push(s[i]);
        i = i + 1;
    }
    assert(out@ =~= s@);
    out
}

} // verus!
