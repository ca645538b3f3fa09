//! The object graph of a paginated document, as plain values, and the
//! renumbering of its object identifiers.
use vstd::prelude::*;
use vstd::string::StringSliceAdditionalSpecFns;

verus! {

/// An object identifier: number and generation.
pub type ObjectId = (u32, u16);

/// One object of a paginated document. A real number is held as the bits
/// of its single-precision value.
pub enum PdfObject {
    Null,
    Boolean(bool),
    Integer(i64),
    Real(u32),
    Name(Vec<u8>),
    Str(Vec<u8>, bool),
    Array(Vec<PdfObject>),
    Dictionary(Vec<(Vec<u8>, PdfObject)>),
    Stream(Vec<(Vec<u8>, PdfObject)>, Vec<u8>, bool),
    Reference(ObjectId),
}

/// An object as a value.
pub ghost enum PdfValue {
    Null,
    Boolean(bool),
    Integer(i64),
    Real(u32),
    Name(Seq<u8>),
    Str(Seq<u8>, bool),
    Array(Seq<PdfValue>),
    Dictionary(Seq<(Seq<u8>, PdfValue)>),
    Stream(Seq<(Seq<u8>, PdfValue)>, Seq<u8>, bool),
    Reference(ObjectId),
}

pub open spec fn obj_view(o: PdfObject) -> PdfValue
    decreases o,
{
    match o {
        PdfObject::Null => PdfValue::Null,
        PdfObject::Boolean(b) => PdfValue::Boolean(b),
        PdfObject::Integer(i) => PdfValue::Integer(i),
        PdfObject::Real(r) => PdfValue::Real(r),
        PdfObject::Name(n) => PdfValue::Name(n@),
        PdfObject::Str(s, h) => PdfValue::Str(s@, h),
        PdfObject::Array(v) => PdfValue::Array(objs_view(v@)),
        PdfObject::Dictionary(d) => PdfValue::Dictionary(entries_view(d@)),
        PdfObject::Stream(d, c, z) => PdfValue::Stream(entries_view(d@), c@, z),
        PdfObject::Reference(id) => PdfValue::Reference(id),
    }
}

pub open spec fn objs_view(s: Seq<PdfObject>) -> Seq<PdfValue>
    decreases s,
{
    if s.len() == 0 {
        Seq::empty()
    } else {
        objs_view(s.drop_last()).push(obj_view(s.last()))
    }
}

pub open spec fn entries_view(s: Seq<(Vec<u8>, PdfObject)>) -> Seq<(Seq<u8>, PdfValue)>
    decreases s,
{
    if s.len() == 0 {
        Seq::empty()
    } else {
        entries_view(s.drop_last()).push((s.last().0@, obj_view(s.last().1)))
    }
}

/// The position of the first object with identifier `id`.
pub open spec fn id_position(ids: Seq<ObjectId>, id: ObjectId) -> Option<int>
    decreases ids.len(),
{
    if ids.len() == 0 {
        None
    } else {
        match id_position(ids.drop_last(), id) {
            Some(p) => Some(p),
            None => if ids.last() == id {
                Some(ids.len() - 1)
            } else {
                None
            },
        }
    }
}

/// The identifier that `id` gets when the objects with identifiers `ids`
/// are numbered from `start` in order, keeping generations; an identifier
/// of no object keeps its value.
pub open spec fn new_id(ids: Seq<ObjectId>, start: int, id: ObjectId) -> ObjectId {
    match id_position(ids, id) {
        Some(p) => ((start + p) as u32, id.1),
        None => id,
    }
}

/// An object with every reference renumbered.
pub open spec fn remap_value(v: PdfValue, ids: Seq<ObjectId>, start: int) -> PdfValue
    decreases v,
{
    match v {
        PdfValue::Array(s) => PdfValue::Array(remap_values(s, ids, start)),
        PdfValue::Dictionary(d) => PdfValue::Dictionary(remap_entries(d, ids, start)),
        PdfValue::Stream(d, c, z) => PdfValue::Stream(remap_entries(d, ids, start), c, z),
        PdfValue::Reference(id) => PdfValue::Reference(new_id(ids, start, id)),
        _ => v,
    }
}

pub open spec fn remap_values(s: Seq<PdfValue>, ids: Seq<ObjectId>, start: int) -> Seq<PdfValue>
    decreases s,
{
    if s.len() == 0 {
        Seq::empty()
    } else {
        remap_values(s.drop_last(), ids, start).push(remap_value(s.last(), ids, start))
    }
}

pub open spec fn remap_entries(s: Seq<(Seq<u8>, PdfValue)>, ids: Seq<ObjectId>, start: int) -> Seq<(Seq<u8>, PdfValue)>
    decreases s,
{
    if s.len() == 0 {
        Seq::empty()
    } else {
        remap_entries(s.drop_last(), ids, start).push((s.last().0, remap_value(s.last().1, ids, start)))
    }
}

/// Copies a byte list.
pub fn copy_bytes(b: &Vec<u8>) -> (r: Vec<u8>)
    ensures
        r@ == b@,
{
    let mut r: Vec<u8> = Vec::new();
    let mut i: usize = 0;
    while i < b.len()
        invariant
            i <= b@.len(),
            r@ == b@.subrange(0, i as int),
        decreases b@.len() - i,
    {
        r.push(b[i]);
        assert(r@ =~= b@.subrange(0, i + 1));
        i = i + 1;
    }
    assert(b@.subrange(0, b@.len() as int) =~= b@);
    r
}

/// The position of the first object with identifier `id`.
pub fn find_id(ids: &Vec<ObjectId>, id: ObjectId) -> (r: Option<usize>)
    ensures
        r.is_some() == id_position(ids@, id).is_some(),
        r matches Some(p) ==> id_position(ids@, id) == Some(p as int) && p < ids@.len(),
{
    proof {
        lemma_id_position(ids@, id);
    }
    let mut i: usize = 0;
    while i < ids.len()
        invariant
            i <= ids@.len(),
            forall|j: int| 0 <= j < i ==> ids@[j] != id,
            id_position(ids@, id) matches Some(p) ==> 0 <= p < ids@.len() && ids@[p] == id && forall|j: int| 0 <= j < p ==> ids@[j] != id,
            id_position(ids@, id) is None ==> forall|j: int| 0 <= j < ids@.len() ==> ids@[j] != id,
        decreases ids@.len() - i,
    {
        if ids[i].0 == id.0 && ids[i].1 == id.1 {
            return Some(i);
        }
        i = i + 1;
    }
    None
}

pub proof fn lemma_id_position(ids: Seq<ObjectId>, id: ObjectId)
    ensures
        id_position(ids, id) matches Some(p) ==> 0 <= p < ids.len() && ids[p] == id && forall|j: int| 0 <= j < p ==> ids[j] != id,
        id_position(ids, id) is None ==> forall|j: int| 0 <= j < ids.len() ==> ids[j] != id,
    decreases ids.len(),
{
    if ids.len() > 0 {
        lemma_id_position(ids.drop_last(), id);
        assert forall|j: int| 0 <= j < ids.len() - 1 implies ids[j] == ids.drop_last()[j] by {}
    }
}

/// The identifier `id` gets when the objects `ids` are numbered from
/// `start`.
pub fn renumbered(ids: &Vec<ObjectId>, start: u32, id: ObjectId) -> (r: ObjectId)
    requires
        start + ids@.len() <= u32::MAX + 1,
    ensures
        r == new_id(ids@, start as int, id),
{
    match find_id(ids, id) {
        Some(p) => ((start as usize + p) as u32, id.1),
        None => id,
    }
}

/// Renumbers every reference inside an object.
pub fn remap_object(o: &PdfObject, ids: &Vec<ObjectId>, start: u32) -> (r: PdfObject)
    requires
        start + ids@.len() <= u32::MAX + 1,
    ensures
        obj_view(r) == remap_value(obj_view(*o), ids@, start as int),
    decreases o,
{
    match o {
        PdfObject::Null => PdfObject::Null,
        PdfObject::Boolean(b) => PdfObject::Boolean(*b),
        PdfObject::Integer(i) => PdfObject::Integer(*i),
        PdfObject::Real(x) => PdfObject::Real(*x),
        PdfObject::Name(n) => PdfObject::Name(copy_bytes(n)),
        PdfObject::Str(s, h) => PdfObject::Str(copy_bytes(s), *h),
        PdfObject::Array(v) => {
            let mut out: Vec<PdfObject> = Vec::new();
            let mut i: usize = 0;
            assert(v@.subrange(0, 0) =~= Seq::<PdfObject>::empty());
            assert(decreases_to!(o => v));
            while i < v.len()
                invariant
                    decreases_to!(o => v),
                    start + ids@.len() <= u32::MAX + 1,
                    i <= v@.len(),
                    objs_view(out@) == remap_values(objs_view(v@.subrange(0, i as int)), ids@, start as int),
                decreases v@.len() - i,
            {
                assert(decreases_to!(o => v[i as int]));
                let x = remap_object(&v[i], ids, start);
                let ghost pre = v@.subrange(0, i as int);
                let ghost out_before = out@;
                out.push(x);
                proof {
                    let p = v@.subrange(0, i + 1);
                    assert(p.drop_last() =~= pre);
                    assert(p.last() == v@[i as int]);
                    assert(out@.drop_last() =~= out_before);
                    assert(out@.last() == x);
                    assert(objs_view(p) == objs_view(pre).push(obj_view(v@[i as int])));
                    assert(objs_view(p).drop_last() =~= objs_view(pre));
                    assert(objs_view(p).last() == obj_view(v@[i as int]));
                }
                i = i + 1;
            }
            assert(v@.subrange(0, v@.len() as int) =~= v@);
            PdfObject::Array(out)
        },
        PdfObject::Dictionary(d) => PdfObject::Dictionary(remap_entries_exec(d, ids, start, Ghost(o))),
        PdfObject::Stream(d, c, z) => PdfObject::Stream(remap_entries_exec(d, ids, start, Ghost(o)), copy_bytes(c), *z),
        PdfObject::Reference(id) => PdfObject::Reference(renumbered(ids, start, *id)),
    }
}

/// Renumbers every reference inside the values of a dictionary.
fn remap_entries_exec(d: &Vec<(Vec<u8>, PdfObject)>, ids: &Vec<ObjectId>, start: u32, Ghost(parent): Ghost<&PdfObject>) -> (r: Vec<(Vec<u8>, PdfObject)>)
    requires
        start + ids@.len() <= u32::MAX + 1,
        decreases_to!(parent => d),
    ensures
        entries_view(r@) == remap_entries(entries_view(d@), ids@, start as int),
    decreases parent, 0nat,
{
    let mut out: Vec<(Vec<u8>, PdfObject)> = Vec::new();
    let mut i: usize = 0;
    assert(d@.subrange(0, 0) =~= Seq::<(Vec<u8>, PdfObject)>::empty());
    while i < d.len()
        invariant
            start + ids@.len() <= u32::MAX + 1,
            decreases_to!(parent => d),
            i <= d@.len(),
            entries_view(out@) == remap_entries(entries_view(d@.subrange(0, i as int)), ids@, start as int),
        decreases d@.len() - i,
    {
        assert(decreases_to!(parent => d[i as int].1));
        let x = remap_object(&d[i].1, ids, start);
        let k = copy_bytes(&d[i].0);
        let ghost pre = d@.subrange(0, i as int);
        let ghost out_before = out@;
        out.push((k, x));
        proof {
            let p = d@.subrange(0, i + 1);
            assert(p.drop_last() =~= pre);
            assert(p.last() == d@[i as int]);
            assert(out@.drop_last() =~= out_before);
            assert(out@.last() == (k, x));
            assert(entries_view(p).drop_last() =~= entries_view(pre));
            assert(entries_view(p).last() == (d@[i as int].0@, obj_view(d@[i as int].1)));
        }
        i = i + 1;
    }
    assert(d@.subrange(0, d@.len() as int) =~= d@);
    out
}

/// One paginated document: its objects, in identifier order, and the
/// identifiers of its pages in page order.
pub struct PdfDocument {
    pub objects: Vec<(ObjectId, PdfObject)>,
    pub pages: Vec<ObjectId>,
}

pub open spec fn ids_of(objs: Seq<(ObjectId, PdfObject)>) -> Seq<ObjectId> {
    objs.map_values(|p: (ObjectId, PdfObject)| p.0)
}

/// `r` is `objs` renumbered from `start`: object `p` gets number
/// `start + p`, keeps its generation, and has its references renumbered.
pub open spec fn renumbered_objects(objs: Seq<(ObjectId, PdfObject)>, start: int, r: Seq<(ObjectId, PdfObject)>) -> bool {
    &&& r.len() == objs.len()
    &&& forall|p: int|
        0 <= p < objs.len() ==> {
            &&& (#[trigger] r[p]).0 == ((start + p) as u32, objs[p].0.1)
            &&& obj_view(r[p].1) == remap_value(obj_view(objs[p].1), ids_of(objs), start)
        }
}

/// The identifiers of a list of objects.
pub fn collect_ids(objs: &Vec<(ObjectId, PdfObject)>) -> (r: Vec<ObjectId>)
    ensures
        r@ == ids_of(objs@),
{
    let mut r: Vec<ObjectId> = Vec::new();
    let mut i: usize = 0;
    while i < objs.len()
        invariant
            i <= objs@.len(),
            r@.len() == i,
            forall|j: int| 0 <= j < i ==> r@[j] == objs@[j].0,
        decreases objs@.len() - i,
    {
        r.push(objs[i].0);
        i = i + 1;
    }
    assert(r@ =~= ids_of(objs@));
    r
}

/// Renumbers the objects of a list from `start`, in order, and every
/// reference inside them.
pub fn renumber_objects_with(objs: &Vec<(ObjectId, PdfObject)>, start: u32) -> (r: Vec<(ObjectId, PdfObject)>)
    requires
        start + objs@.len() <= u32::MAX + 1,
    ensures
        renumbered_objects(objs@, start as int, r@),
{
    let ids = collect_ids(objs);
    let mut r: Vec<(ObjectId, PdfObject)> = Vec::new();
    let mut i: usize = 0;
    while i < objs.len()
        invariant
            start + objs@.len() <= u32::MAX + 1,
            ids@ == ids_of(objs@),
            i <= objs@.len(),
            r@.len() == i,
            forall|p: int|
                0 <= p < i ==> {
                    &&& (#[trigger] r@[p]).0 == ((start + p) as u32, objs@[p].0.1)
                    &&& obj_view(r@[p].1) == remap_value(obj_view(objs@[p].1), ids_of(objs@), start as int)
                },
        decreases objs@.len() - i,
    {
        let id: ObjectId = ((start as usize + i) as u32, objs[i].0.1);
        let o = remap_object(&objs[i].1, &ids, start);
        r.push((id, o));
        i = i + 1;
    }
    r
}

/// Renumbers a list of identifiers the way `renumber_objects_with` does.
pub fn renumber_ids(ids: &Vec<ObjectId>, list: &Vec<ObjectId>, start: u32) -> (r: Vec<ObjectId>)
    requires
        start + ids@.len() <= u32::MAX + 1,
    ensures
        r@ == list@.map_values(|id: ObjectId| new_id(ids@, start as int, id)),
{
    let mut r: Vec<ObjectId> = Vec::new();
    let mut i: usize = 0;
    while i < list.len()
        invariant
            start + ids@.len() <= u32::MAX + 1,
            i <= list@.len(),
            r@.len() == i,
            forall|j: int| 0 <= j < i ==> r@[j] == new_id(ids@, start as int, list@[j]),
        decreases list@.len() - i,
    {
        r.push(renumbered(ids, start, list[i]));
        i = i + 1;
    }
    assert(r@ =~= list@.map_values(|id: ObjectId| new_id(ids@, start as int, id)));
    r
}

/// The role an object plays in the document graph.
#[derive(PartialEq, Eq, Structural)]
pub enum ObjectRole {
    Catalog,
    Pages,
    Page,
    Outlines,
    Outline,
    Other,
}

/// The value of the first entry with key `key`.
pub open spec fn entry_value(d: Seq<(Seq<u8>, PdfValue)>, key: Seq<u8>) -> Option<PdfValue>
    decreases d.len(),
{
    if d.len() == 0 {
        None
    } else {
        match entry_value(d.drop_last(), key) {
            Some(v) => Some(v),
            None => if d.last().0 == key {
                Some(d.last().1)
            } else {
                None
            },
        }
    }
}

/// The `Type` name of a dictionary or stream, if it has one.
pub open spec fn type_of(v: PdfValue) -> Option<Seq<u8>> {
    let d = match v {
        PdfValue::Dictionary(d) => Some(d),
        PdfValue::Stream(d, _, _) => Some(d),
        _ => None,
    };
    match d {
        Some(d) => match entry_value(d, "Type".spec_bytes()) {
            Some(PdfValue::Name(n)) => Some(n),
            _ => None,
        },
        None => None,
    }
}

pub open spec fn role_of(v: PdfValue) -> ObjectRole {
    match type_of(v) {
        Some(n) => if n == "Catalog".spec_bytes() {
            ObjectRole::Catalog
        } else if n == "Pages".spec_bytes() {
            ObjectRole::Pages
        } else if n == "Page".spec_bytes() {
            ObjectRole::Page
        } else if n == "Outlines".spec_bytes() {
            ObjectRole::Outlines
        } else if n == "Outline".spec_bytes() {
            ObjectRole::Outline
        } else {
            ObjectRole::Other
        },
        None => ObjectRole::Other,
    }
}

/// Tells whether the bytes `n` spell `lit`.
pub fn bytes_are(n: &Vec<u8>, lit: &str) -> (r: bool)
    ensures
        r == (n@ == lit.spec_bytes()),
{
    let b = lit.as_bytes();
    if n.len() != b.len() {
        return false;
    }
    let mut i: usize = 0;
    while i < n.len()
        invariant
            n@.len() == b@.len(),
            b@ == lit.spec_bytes(),
            i <= n@.len(),
            forall|j: int| 0 <= j < i ==> n@[j] == b@[j],
        decreases n@.len() - i,
    {
        if n[i] != b[i] {
            return false;
        }
        i = i + 1;
    }
    assert(n@ =~= b@);
    true
}

/// The value of the first entry of `d` with key `key`.
pub fn get_entry<'a>(d: &'a Vec<(Vec<u8>, PdfObject)>, key: &str) -> (r: Option<&'a PdfObject>)
    ensures
        r.is_some() == entry_value(entries_view(d@), key.spec_bytes()).is_some(),
        r matches Some(o) ==> entry_value(entries_view(d@), key.spec_bytes()) == Some(obj_view(*o)),
{
    let mut i: usize = 0;
    assert(d@.subrange(0, 0) =~= Seq::<(Vec<u8>, PdfObject)>::empty());
    while i < d.len()
        invariant
            i <= d@.len(),
            entry_value(entries_view(d@.subrange(0, i as int)), key.spec_bytes()) is None,
        decreases d@.len() - i,
    {
        let ghost p = d@.subrange(0, i + 1);
        proof {
            assert(p.drop_last() =~= d@.subrange(0, i as int));
            assert(entries_view(p).drop_last() =~= entries_view(d@.subrange(0, i as int)));
            assert(entries_view(p).last() == (d@[i as int].0@, obj_view(d@[i as int].1)));
        }
        if bytes_are(&d[i].0, key) {
            proof {
                lemma_entry_prefix(d@, i as int + 1, key.spec_bytes());
            }
            return Some(&d[i].1);
        }
        i = i + 1;
    }
    assert(d@.subrange(0, d@.len() as int) =~= d@);
    None
}

/// Once a prefix of the entries has the key, the whole list gives the same
/// value.
pub proof fn lemma_entry_prefix(d: Seq<(Vec<u8>, PdfObject)>, k: int, key: Seq<u8>)
    requires
        0 <= k <= d.len(),
        entry_value(entries_view(d.subrange(0, k)), key) is Some,
    ensures
        entry_value(entries_view(d), key) == entry_value(entries_view(d.subrange(0, k)), key),
    decreases d.len() - k,
{
    if k < d.len() {
        let p = d.subrange(0, k + 1);
        assert(p.drop_last() =~= d.subrange(0, k));
        assert(entries_view(p).drop_last() =~= entries_view(d.subrange(0, k)));
        lemma_entry_prefix(d, k + 1, key);
    } else {
        assert(d.subrange(0, k) =~= d);
    }
}

/// The role of an object.
pub fn object_role(o: &PdfObject) -> (r: ObjectRole)
    ensures
        r == role_of(obj_view(*o)),
{
    let d = match o {
        PdfObject::Dictionary(d) => d,
        PdfObject::Stream(d, _, _) => d,
        _ => {
            return ObjectRole::Other;
        },
    };
    match get_entry(d, "Type") {
        Some(PdfObject::Name(n)) => {
            if bytes_are(n, "Catalog") {
                ObjectRole::Catalog
            } else if bytes_are(n, "Pages") {
                ObjectRole::Pages
            } else if bytes_are(n, "Page") {
                ObjectRole::Page
            } else if bytes_are(n, "Outlines") {
                ObjectRole::Outlines
            } else if bytes_are(n, "Outline") {
                ObjectRole::Outline
            } else {
                ObjectRole::Other
            }
        },
        _ => ObjectRole::Other,
    }
}

/// The key `Count`.
pub open spec fn count_key() -> Seq<u8> {
    seq![67u8, 111u8, 117u8, 110u8, 116u8]
}

/// The key `Kids`.
pub open spec fn kids_key() -> Seq<u8> {
    seq![75u8, 105u8, 100u8, 115u8]
}

/// The key `Pages`.
pub open spec fn pages_key() -> Seq<u8> {
    seq![80u8, 97u8, 103u8, 101u8, 115u8]
}

/// The key `Outlines`.
pub open spec fn outlines_key() -> Seq<u8> {
    seq![79u8, 117u8, 116u8, 108u8, 105u8, 110u8, 101u8, 115u8]
}

/// References to the given objects, in order.
pub open spec fn refs_to(ids: Seq<ObjectId>) -> Seq<PdfValue> {
    ids.map_values(|id: ObjectId| PdfValue::Reference(id))
}

pub proof fn lemma_entries_view_index(d: Seq<(Vec<u8>, PdfObject)>)
    ensures
        entries_view(d).len() == d.len(),
        forall|i: int| 0 <= i < d.len() ==> #[trigger] entries_view(d)[i] == (d[i].0@, obj_view(d[i].1)),
    decreases d.len(),
{
    if d.len() > 0 {
        lemma_entries_view_index(d.drop_last());
        assert forall|i: int| 0 <= i < d.len() implies #[trigger] entries_view(d)[i] == (d[i].0@, obj_view(d[i].1)) by {
            if i < d.len() - 1 {
                assert(d.drop_last()[i] == d[i]);
            }
        }
    }
}

pub proof fn lemma_entries_view_update(d: Seq<(Vec<u8>, PdfObject)>, i: int, p: (Vec<u8>, PdfObject))
    requires
        0 <= i < d.len(),
    ensures
        entries_view(d.update(i, p)) == entries_view(d).update(i, (p.0@, obj_view(p.1))),
{
    lemma_entries_view_index(d);
    lemma_entries_view_index(d.update(i, p));
    assert(entries_view(d.update(i, p)) =~= entries_view(d).update(i, (p.0@, obj_view(p.1))));
}

pub proof fn lemma_remap_values_index(v: Seq<PdfValue>, ids: Seq<ObjectId>, start: int)
    ensures
        remap_values(v, ids, start).len() == v.len(),
        forall|i: int| 0 <= i < v.len() ==> #[trigger] remap_values(v, ids, start)[i] == remap_value(v[i], ids, start),
    decreases v.len(),
{
    if v.len() > 0 {
        lemma_remap_values_index(v.drop_last(), ids, start);
        assert forall|i: int| 0 <= i < v.len() implies #[trigger] remap_values(v, ids, start)[i] == remap_value(v[i], ids, start) by {
            if i < v.len() - 1 {
                assert(v.drop_last()[i] == v[i]);
            }
        }
    }
}

pub proof fn lemma_entry_update_other(e: Seq<(Seq<u8>, PdfValue)>, i: int, v: PdfValue, k2: Seq<u8>)
    requires
        0 <= i < e.len(),
        e[i].0 != k2,
    ensures
        entry_value(e.update(i, (e[i].0, v)), k2) == entry_value(e, k2),
    decreases e.len(),
{
    let u = e.update(i, (e[i].0, v));
    if i == e.len() - 1 {
        assert(u.drop_last() =~= e.drop_last());
    } else {
        assert(u.drop_last() =~= e.drop_last().update(i, (e[i].0, v)));
        assert(e.drop_last()[i] == e[i]);
        lemma_entry_update_other(e.drop_last(), i, v, k2);
    }
}

/// Renumbering keeps the keys of a dictionary and renumbers their values.
pub proof fn lemma_entry_remap(e: Seq<(Seq<u8>, PdfValue)>, k: Seq<u8>, ids: Seq<ObjectId>, start: int)
    ensures
        entry_value(remap_entries(e, ids, start), k) == match entry_value(e, k) {
            Some(v) => Some(remap_value(v, ids, start)),
            None => None,
        },
    decreases e.len(),
{
    if e.len() > 0 {
        lemma_entry_remap(e.drop_last(), k, ids, start);
        assert(remap_entries(e, ids, start).drop_last() =~= remap_entries(e.drop_last(), ids, start));
    }
}

/// Renumbering a list of references renumbers each target.
pub proof fn lemma_remap_refs(pages: Seq<ObjectId>, ids: Seq<ObjectId>, start: int)
    ensures
        remap_values(refs_to(pages), ids, start) == refs_to(pages.map_values(|id: ObjectId| new_id(ids, start, id))),
{
    lemma_remap_values_index(refs_to(pages), ids, start);
    assert(remap_values(refs_to(pages), ids, start) =~= refs_to(pages.map_values(|id: ObjectId| new_id(ids, start, id))));
}

/// Sets entry `key` of a dictionary to `v`: the first entry with that key
/// is replaced, or a new entry is added.
pub fn set_entry(d: &mut Vec<(Vec<u8>, PdfObject)>, key: &str, v: PdfObject)
    ensures
        entry_value(entries_view(final(d)@), key.spec_bytes()) == Some(obj_view(v)),
        forall|k2: Seq<u8>| k2 != key.spec_bytes() ==> #[trigger] entry_value(entries_view(final(d)@), k2) == entry_value(
            entries_view(old(d)@),
            k2,
        ),
{
    let mut i: usize = 0;
    while i < d.len()
        invariant
            i <= d@.len(),
            d@ == old(d)@,
            entry_value(entries_view(d@.subrange(0, i as int)), key.spec_bytes()) is None,
        decreases d@.len() - i,
    {
        let ghost p = d@.subrange(0, i + 1);
        proof {
            assert(p.drop_last() =~= d@.subrange(0, i as int));
            assert(entries_view(p).drop_last() =~= entries_view(d@.subrange(0, i as int)));
        }
        if bytes_are(&d[i].0, key) {
            let k = copy_bytes(&d[i].0);
            let ghost before = d@;
            let ghost pv = obj_view(v);
            d.set(i, (k, v));
            proof {
                let q = d@.subrange(0, i + 1);
                assert(q.drop_last() =~= before.subrange(0, i as int));
                assert(entries_view(q).drop_last() =~= entries_view(q.drop_last()));
                assert(entries_view(q).last() == (key.spec_bytes(), obj_view(v)));
                lemma_entry_prefix(d@, i as int + 1, key.spec_bytes());
                lemma_entries_view_update(before, i as int, d@[i as int]);
                lemma_entries_view_index(before);
                assert forall|k2: Seq<u8>| k2 != key.spec_bytes() implies #[trigger] entry_value(entries_view(d@), k2)
                    == entry_value(entries_view(before), k2) by {
                    lemma_entry_update_other(entries_view(before), i as int, pv, k2);
                    assert(entries_view(before).update(i as int, (entries_view(before)[i as int].0, pv)) =~= entries_view(d@));
                }
            }
            return;
        }
        i = i + 1;
    }
    let ghost before = d@;
    let k: Vec<u8> = slice_bytes(key);
    d.push((k, v));
    proof {
        assert(before.subrange(0, before.len() as int) =~= before);
        assert(d@.drop_last() =~= before);
        assert(entries_view(d@).drop_last() =~= entries_view(before));
    }
}

/// The bytes of a text, as a list.
pub fn slice_bytes(key: &str) -> (r: Vec<u8>)
    ensures
        r@ == key.spec_bytes(),
{
    let b = key.as_bytes();
    let mut r: Vec<u8> = Vec::new();
    let mut i: usize = 0;
    while i < b.len()
        invariant
            i <= b@.len(),
            r@ == b@.subrange(0, i as int),
        decreases b@.len() - i,
    {
        r.push(b[i]);
        assert(r@ =~= b@.subrange(0, i + 1));
        i = i + 1;
    }
    assert(b@.subrange(0, b@.len() as int) =~= b@);
    r
}

pub proof fn lemma_entries_view_concat(a: Seq<(Vec<u8>, PdfObject)>, b: Seq<(Vec<u8>, PdfObject)>)
    ensures
        entries_view(a + b) == entries_view(a) + entries_view(b),
    decreases b.len(),
{
    if b.len() == 0 {
        assert(a + b =~= a);
        assert(entries_view(a) + entries_view(b) =~= entries_view(a));
    } else {
        lemma_entries_view_concat(a, b.drop_last());
        assert((a + b).drop_last() =~= a + b.drop_last());
        assert(entries_view(a) + entries_view(b) =~= (entries_view(a) + entries_view(b.drop_last())).push(
            (b.last().0@, obj_view(b.last().1)),
        ));
    }
}

pub proof fn lemma_entry_concat(x: Seq<(Seq<u8>, PdfValue)>, y: Seq<(Seq<u8>, PdfValue)>, k: Seq<u8>)
    ensures
        entry_value(x + y, k) == match entry_value(x, k) {
            Some(v) => Some(v),
            None => entry_value(y, k),
        },
    decreases y.len(),
{
    if y.len() == 0 {
        assert(x + y =~= x);
    } else {
        lemma_entry_concat(x, y.drop_last(), k);
        assert((x + y).drop_last() =~= x + y.drop_last());
    }
}

/// Removes every entry with key `key`; every other entry stays.
pub fn remove_entries(d: &mut Vec<(Vec<u8>, PdfObject)>, key: &Vec<u8>)
    ensures
        entry_value(entries_view(final(d)@), key@) is None,
        forall|k2: Seq<u8>| k2 != key@ ==> #[trigger] entry_value(entries_view(final(d)@), k2) == entry_value(
            entries_view(old(d)@),
            k2,
        ),
{
    let ghost orig = d@;
    let mut kept: Vec<(Vec<u8>, PdfObject)> = Vec::new();
    assert(kept@ + d@ =~= orig);
    while d.len() > 0
        invariant
            entry_value(entries_view(kept@), key@) is None,
            forall|k2: Seq<u8>| k2 != key@ ==> #[trigger] entry_value(entries_view(kept@ + d@), k2) == entry_value(
                entries_view(orig),
                k2,
            ),
        decreases d@.len(),
    {
        let ghost before_kept = kept@;
        let ghost before_rest = d@;
        let e = d.remove(0);
        assert(before_rest =~= seq![e] + d@);
        if !bytes_equal(&e.0, key) {
            kept.push(e);
            proof {
                assert(kept@.drop_last() =~= before_kept);
                assert(entries_view(kept@).drop_last() =~= entries_view(before_kept));
                assert(kept@ + d@ =~= before_kept + before_rest);
            }
        } else {
            proof {
                assert forall|k2: Seq<u8>| k2 != key@ implies #[trigger] entry_value(entries_view(kept@ + d@), k2)
                    == entry_value(entries_view(orig), k2) by {
                    assert(before_kept + before_rest =~= before_kept + (seq![e] + d@));
                    lemma_entries_view_concat(before_kept, seq![e] + d@);
                    lemma_entries_view_concat(seq![e], d@);
                    lemma_entries_view_concat(before_kept, d@);
                    let ek = entries_view(before_kept);
                    let ee = entries_view(seq![e]);
                    let er = entries_view(d@);
                    lemma_entry_concat(ek, ee + er, k2);
                    lemma_entry_concat(ee, er, k2);
                    lemma_entry_concat(ek, er, k2);
                    assert(seq![e].drop_last() =~= Seq::<(Vec<u8>, PdfObject)>::empty());
                    assert(entries_view(Seq::<(Vec<u8>, PdfObject)>::empty()) =~= Seq::<(Seq<u8>, PdfValue)>::empty());
                    assert(ee =~= seq![(e.0@, obj_view(e.1))]);
                    assert(ee.drop_last() =~= Seq::<(Seq<u8>, PdfValue)>::empty());
                    assert(e.0@ == key@);
                    assert(entry_value(ee.drop_last(), k2) is None);
                    assert(ee.last().0 == e.0@);
                    assert(entry_value(ee, k2) is None);
                }
            }
        }
    }
    assert(kept@ + d@ =~= kept@);
    *d = kept;
}

/// The merged document: objects numbered from 1 in order, the catalog,
/// the page list and one bookmark per input document with pages.
pub struct MergedDocument {
    pub objects: Vec<(ObjectId, PdfObject)>,
    /// For each object, its position among the input objects, all
    /// documents one after another.
    pub origins: Vec<usize>,
    pub root: ObjectId,
    pub page_ids: Vec<ObjectId>,
    pub bookmarks: Vec<(usize, ObjectId)>,
}

/// Why documents could not be merged.
pub enum MergeError {
    /// No input holds a catalog object.
    NoCatalog,
    /// No input holds a page-tree dictionary.
    NoPageTree,
    /// The inputs hold more objects than identifiers can number.
    TooManyObjects,
}

/// The number of objects of the first `n` documents.
pub open spec fn total_objects(docs: Seq<PdfDocument>, n: int) -> int
    decreases n,
{
    if n <= 0 {
        0
    } else {
        total_objects(docs, n - 1) + docs[n - 1].objects@.len()
    }
}

/// The number of pages of the first `n` documents.
pub open spec fn total_pages(docs: Seq<PdfDocument>, n: int) -> int
    decreases n,
{
    if n <= 0 {
        0
    } else {
        total_pages(docs, n - 1) + docs[n - 1].pages@.len()
    }
}

/// The number of the first `n` documents that have pages.
pub open spec fn docs_with_pages(docs: Seq<PdfDocument>, n: int) -> int
    decreases n,
{
    if n <= 0 {
        0
    } else {
        docs_with_pages(docs, n - 1) + if docs[n - 1].pages@.len() > 0 {
            1int
        } else {
            0int
        }
    }
}

pub proof fn lemma_docs_with_pages_bound(docs: Seq<PdfDocument>, n: int)
    requires
        0 <= n,
    ensures
        0 <= docs_with_pages(docs, n) <= n,
    decreases n,
{
    if n > 0 {
        lemma_docs_with_pages_bound(docs, n - 1);
    }
}

/// The number the first object of document `i` gets when the documents are
/// renumbered one after another from 1.
pub open spec fn doc_start(docs: Seq<PdfDocument>, i: int) -> int {
    1 + total_objects(docs, i)
}

/// The pages of the first `n` documents, each renumbered with its
/// document, in input order.
pub open spec fn mid_pages(docs: Seq<PdfDocument>, n: int) -> Seq<ObjectId>
    decreases n,
{
    if n <= 0 {
        Seq::empty()
    } else {
        mid_pages(docs, n - 1) + docs[n - 1].pages@.map_values(
            |id: ObjectId| new_id(ids_of(docs[n - 1].objects@), doc_start(docs, n - 1), id),
        )
    }
}

/// The first page of each of the first `n` documents that has pages,
/// renumbered with its document.
pub open spec fn mid_first_pages(docs: Seq<PdfDocument>, n: int) -> Seq<ObjectId>
    decreases n,
{
    if n <= 0 {
        Seq::empty()
    } else if docs[n - 1].pages@.len() > 0 {
        mid_first_pages(docs, n - 1).push(
            new_id(ids_of(docs[n - 1].objects@), doc_start(docs, n - 1), docs[n - 1].pages@[0]),
        )
    } else {
        mid_first_pages(docs, n - 1)
    }
}

/// Object `p` of the first `n` documents (one after another), renumbered
/// with its document.
pub open spec fn mid_view(docs: Seq<PdfDocument>, n: int, p: int) -> PdfValue
    decreases n,
{
    if n <= 0 {
        PdfValue::Null
    } else if p < total_objects(docs, n - 1) {
        mid_view(docs, n - 1, p)
    } else {
        let objs = docs[n - 1].objects@;
        remap_value(obj_view(objs[p - total_objects(docs, n - 1)].1), ids_of(objs), doc_start(docs, n - 1))
    }
}

/// The entries of a dictionary value; none for any other value.
pub open spec fn dict_entries(v: PdfValue) -> Seq<(Seq<u8>, PdfValue)> {
    match v {
        PdfValue::Dictionary(d) => d,
        _ => Seq::empty(),
    }
}

/// An optional value with its references renumbered.
pub open spec fn opt_remap(o: Option<PdfValue>, ids: Seq<ObjectId>, start: int) -> Option<PdfValue> {
    match o {
        Some(v) => Some(remap_value(v, ids, start)),
        None => None,
    }
}

/// The identifiers the output objects had before the final numbering:
/// one more than their input position, with their generation.
pub open spec fn before_final(m: MergedDocument) -> Seq<ObjectId> {
    Seq::new(m.objects@.len(), |q: int| ((m.origins@[q] + 1) as u32, m.objects@[q].0.1))
}

/// The input objects, renumbered with their documents, as values.
pub open spec fn mid_vals(docs: Seq<PdfDocument>) -> Seq<PdfValue> {
    Seq::new(total_objects(docs, docs.len() as int) as nat, |x: int| mid_view(docs, docs.len() as int, x))
}

/// Which input objects are page-tree dictionaries.
pub open spec fn mid_tree_flags(docs: Seq<PdfDocument>) -> Seq<bool> {
    let flat = flat_objects(docs, docs.len() as int);
    Seq::new(flat.len(), |x: int| role_of(obj_view(flat[x].1)) == ObjectRole::Pages && flat[x].1 is Dictionary)
}

/// Every entry of the output page tree `t` but `Count` and `Kids` is the
/// entry of the input page trees combined in order, a later one winning.
pub open spec fn tree_union(m: MergedDocument, docs: Seq<PdfDocument>, t: int) -> bool {
    forall|k: Seq<u8>|
        k != count_key() && k != kids_key() ==> #[trigger] entry_value(entries_view(m.objects@[t].1->Dictionary_0@), k)
            == opt_remap(
            union_value(mid_vals(docs), mid_tree_flags(docs), total_objects(docs, docs.len() as int), k),
            before_final(m),
            1,
        )
}

/// Every input page dictionary that its document lists as a page is in the
/// output, with its `Parent` set to `tree` and every other entry renumbered.
pub open spec fn pages_in_output(m: MergedDocument, docs: Seq<PdfDocument>, tree: ObjectId) -> bool {
    let flat = flat_objects(docs, docs.len() as int);
    forall|x: int|
        0 <= x < flat.len() && role_of(obj_view(#[trigger] flat[x].1)) == ObjectRole::Page && flat[x].1 is Dictionary
            && mid_pages(docs, docs.len() as int).contains(((x + 1) as u32, flat[x].0.1)) ==> exists|q: int|
            0 <= q < m.objects@.len() && #[trigger] m.origins@[q] == x && m.objects@[q].1 is Dictionary && entry_value(
                entries_view(m.objects@[q].1->Dictionary_0@),
                parent_key(),
            ) == Some(PdfValue::Reference(tree)) && forall|k: Seq<u8>|
                k != parent_key() ==> #[trigger] entry_value(entries_view(m.objects@[q].1->Dictionary_0@), k) == opt_remap(
                    entry_value(dict_entries(mid_view(docs, docs.len() as int, x)), k),
                    before_final(m),
                    1,
                )
}

/// Documents of one page each hold, together, as many pages as there are
/// documents, and each of them has pages; with the contract of
/// `merge_documents`, merging `k` single-page documents gives a page tree
/// of `k` pages and `k` bookmarks.
pub proof fn lemma_single_pages(docs: Seq<PdfDocument>, n: int)
    requires
        0 <= n <= docs.len(),
        forall|i: int| 0 <= i < docs.len() ==> (#[trigger] docs[i]).pages@.len() == 1,
    ensures
        total_pages(docs, n) == n,
        docs_with_pages(docs, n) == n,
    decreases n,
{
    if n > 0 {
        lemma_single_pages(docs, n - 1);
    }
}

/// The objects of the first `n` documents, one document after another.
pub open spec fn flat_objects(docs: Seq<PdfDocument>, n: int) -> Seq<(ObjectId, PdfObject)>
    decreases n,
{
    if n <= 0 {
        Seq::empty()
    } else {
        flat_objects(docs, n - 1) + docs[n - 1].objects@
    }
}

/// Some input object is a catalog dictionary.
pub open spec fn has_catalog(docs: Seq<PdfDocument>) -> bool {
    let f = flat_objects(docs, docs.len() as int);
    exists|p: int| 0 <= p < f.len() && role_of(obj_view(#[trigger] f[p].1)) == ObjectRole::Catalog && f[p].1 is Dictionary
}

/// Some input object is a page-tree dictionary.
pub open spec fn has_page_tree(docs: Seq<PdfDocument>) -> bool {
    let f = flat_objects(docs, docs.len() as int);
    exists|p: int| 0 <= p < f.len() && role_of(obj_view(#[trigger] f[p].1)) == ObjectRole::Pages && f[p].1 is Dictionary
}

pub proof fn lemma_flat_len(docs: Seq<PdfDocument>, n: int)
    ensures
        flat_objects(docs, n).len() == total_objects(docs, n),
        total_objects(docs, n) >= 0,
    decreases n,
{
    if n > 0 {
        lemma_flat_len(docs, n - 1);
    }
}

pub proof fn lemma_totals_monotone(docs: Seq<PdfDocument>, a: int, b: int)
    requires
        0 <= a <= b,
    ensures
        total_objects(docs, a) <= total_objects(docs, b),
    decreases b - a,
{
    if a < b {
        lemma_totals_monotone(docs, a, b - 1);
    }
}

/// Merges paginated documents into one: renumbers each document after the
/// ones before it, keeps one catalog and one page tree whose children are
/// all pages in order, drops outline objects, adds a bookmark for the first
/// page of each document, and numbers the result from 1.
pub fn merge_documents(docs: &Vec<PdfDocument>) -> (r: Result<MergedDocument, MergeError>)
    ensures
        r.is_ok() == (total_objects(docs@, docs@.len() as int) < u32::MAX && total_pages(docs@, docs@.len() as int) <= i64::MAX
            && has_catalog(docs@) && has_page_tree(docs@)),
        r is Err ==> (r->Err_0 is TooManyObjects <==> (total_objects(docs@, docs@.len() as int) >= u32::MAX
            || total_pages(docs@, docs@.len() as int) > i64::MAX)),
        r is Err && !(r->Err_0 is TooManyObjects) ==> (r->Err_0 is NoCatalog <==> !has_catalog(docs@)),
        r is Ok ==> {
            let m = r->Ok_0;
            &&& m.page_ids@.len() == total_pages(docs@, docs@.len() as int)
            &&& m.bookmarks@.len() == docs_with_pages(docs@, docs@.len() as int)
            &&& forall|b: int| 0 <= b < m.bookmarks@.len() ==> (#[trigger] m.bookmarks@[b]).0 == b + 1
            &&& forall|p: int| 0 <= p < m.objects@.len() ==> (#[trigger] m.objects@[p]).0.0 == p + 1
            &&& m.origins@.len() == m.objects@.len()
            &&& forall|q: int|
                0 <= q < m.objects@.len() ==> (#[trigger] m.origins@[q]) < total_objects(docs@, docs@.len() as int) && role_of(
                    obj_view(flat_objects(docs@, docs@.len() as int)[m.origins@[q] as int].1),
                ) != ObjectRole::Outlines && role_of(obj_view(flat_objects(docs@, docs@.len() as int)[m.origins@[q] as int].1))
                    != ObjectRole::Outline
            &&& m.page_ids@ == mid_pages(docs@, docs@.len() as int).map_values(|id: ObjectId| new_id(before_final(m), 1, id))
            &&& m.bookmarks@.map_values(|b: (usize, ObjectId)| b.1) == mid_first_pages(docs@, docs@.len() as int).map_values(
                |id: ObjectId| new_id(before_final(m), 1, id),
            )
            &&& exists|c: int, t: int|
                0 <= c < m.objects@.len() && 0 <= t < m.objects@.len() && (#[trigger] m.objects@[c]).0 == m.root
                    && m.objects@[c].1 is Dictionary && entry_value(entries_view(m.objects@[c].1->Dictionary_0@), pages_key())
                    == Some(PdfValue::Reference((#[trigger] m.objects@[t]).0)) && entry_value(
                    entries_view(m.objects@[c].1->Dictionary_0@),
                    outlines_key(),
                ) is None && m.objects@[t].1 is Dictionary && entry_value(
                    entries_view(m.objects@[t].1->Dictionary_0@),
                    count_key(),
                ) == Some(PdfValue::Integer(m.page_ids@.len() as i64)) && entry_value(
                    entries_view(m.objects@[t].1->Dictionary_0@),
                    kids_key(),
                ) == Some(PdfValue::Array(refs_to(m.page_ids@))) && pages_in_output(m, docs@, m.objects@[t].0) && tree_union(
                    m,
                    docs@,
                    t,
                )
        },
{
    let ghost ds = docs@;
    let mut all: Vec<(ObjectId, PdfObject)> = Vec::new();
    let mut roles: Vec<ObjectRole> = Vec::new();
    let mut pages: Vec<ObjectId> = Vec::new();
    let mut bookmarks: Vec<(usize, ObjectId)> = Vec::new();
    let mut start: u64 = 1;
    let mut i: usize = 0;
    while i < docs.len()
        invariant
            ds == docs@,
            i <= ds.len(),
            start == 1 + total_objects(ds, i as int),
            start <= u32::MAX,
            all@.len() == total_objects(ds, i as int),
            all@.len() == flat_objects(ds, i as int).len(),
            roles@.len() == all@.len(),
            forall|p: int| 0 <= p < all@.len() ==> (#[trigger] all@[p]).0.0 == p + 1,
            forall|p: int|
                0 <= p < all@.len() ==> (#[trigger] roles@[p]) == role_of(obj_view(flat_objects(ds, i as int)[p].1))
                    && (all@[p].1 is Dictionary <==> flat_objects(ds, i as int)[p].1 is Dictionary),
            pages@.len() == total_pages(ds, i as int),
            pages@ == mid_pages(ds, i as int),
            bookmarks@.map_values(|b: (usize, ObjectId)| b.1) == mid_first_pages(ds, i as int),
            forall|p: int| 0 <= p < all@.len() ==> (#[trigger] all@[p]).0 == ((p + 1) as u32, flat_objects(ds, i as int)[p].0.1),
            forall|p: int| 0 <= p < all@.len() ==> obj_view(#[trigger] all@[p].1) == mid_view(ds, i as int, p),
            bookmarks@.len() == docs_with_pages(ds, i as int),
            forall|b: int| 0 <= b < bookmarks@.len() ==> (#[trigger] bookmarks@[b]).0 == b + 1,
        decreases ds.len() - i,
    {
        let objs = &docs[i].objects;
        proof {
            lemma_flat_len(ds, i as int);
            lemma_flat_len(ds, i as int + 1);
            lemma_totals_monotone(ds, i as int + 1, ds.len() as int);
        }
        if objs.len() as u64 > u32::MAX as u64 - start {
            proof {
                assert(total_objects(ds, i as int + 1) >= u32::MAX);
            }
            return Err(MergeError::TooManyObjects);
        }
        let s32 = start as u32;
        let renumbered_objs = renumber_objects_with(objs, s32);
        let ids = collect_ids(objs);
        let mut doc_pages = renumber_ids(&ids, &docs[i].pages, s32);
        let ghost marks_before = bookmarks@;
        if doc_pages.len() > 0 {
            proof {
                lemma_docs_with_pages_bound(ds, i as int);
            }
            let label = bookmarks.len() + 1;
            bookmarks.push((label, doc_pages[0]));
        }
        proof {
            if doc_pages@.len() > 0 {
                assert(bookmarks@.map_values(|b: (usize, ObjectId)| b.1) =~= marks_before.map_values(|b: (usize, ObjectId)| b.1).push(
                    doc_pages@[0],
                ));
            } else {
                assert(bookmarks@ == marks_before);
            }
        }
        let ghost pages_before = pages@;
        let ghost all_before = all@;
        let ghost roles_before = roles@;
        let ghost flat_before = flat_objects(ds, i as int);
        let mut q: usize = 0;
        let mut rest = renumbered_objs;
        while q < objs.len()
            invariant
                ds == docs@,
                i < ds.len(),
                objs == &docs@[i as int].objects,
                rest@.len() + q == objs@.len(),
                renumbered_objects(objs@, s32 as int, all@.subrange(all_before.len() as int, all@.len() as int) + rest@),
                all@.len() == all_before.len() + q,
                all@.subrange(0, all_before.len() as int) == all_before,
                roles@.len() == all@.len(),
                roles@.subrange(0, all_before.len() as int) == roles_before,
                forall|p: int| all_before.len() <= p < all@.len() ==> (#[trigger] roles@[p]) == role_of(obj_view(objs@[p - all_before.len()].1)),
            decreases objs@.len() - q,
        {
            let role = object_role(&objs[q].1);
            let ghost tail = all@.subrange(all_before.len() as int, all@.len() as int);
            let ghost rest_old = rest@;
            let item = rest.remove(0);
            assert(rest_old =~= seq![item] + rest@);
            all.push(item);
            roles.push(role);
            proof {
                assert(all@.subrange(all_before.len() as int, all@.len() as int) + rest@ =~= tail + (seq![item] + rest@));
                assert(all@.subrange(0, all_before.len() as int) =~= all_before);
                assert(roles@.subrange(0, all_before.len() as int) =~= roles_before);
            }
            q = q + 1;
        }
        proof {
            let added = all@.subrange(all_before.len() as int, all@.len() as int);
            assert(added + rest@ =~= added);
            let f = flat_objects(ds, i as int + 1);
            assert(f == flat_before + objs@);
            assert forall|p: int| 0 <= p < all@.len() implies (#[trigger] all@[p]).0 == ((p + 1) as u32, f[p].0.1) by {
                if p >= all_before.len() {
                    assert(all@[p] == added[p - all_before.len()]);
                    assert(f[p] == objs@[p - all_before.len()]);
                } else {
                    assert(all@[p] == all_before[p]);
                    assert(f[p] == flat_before[p]);
                }
            }
            assert forall|p: int| 0 <= p < all@.len() implies obj_view(#[trigger] all@[p].1) == mid_view(ds, i + 1, p) by {
                if p >= all_before.len() {
                    assert(all@[p] == added[p - all_before.len()]);
                } else {
                    assert(all@[p] == all_before[p]);
                }
            }
            assert forall|p: int| 0 <= p < all@.len() implies (#[trigger] roles@[p]) == role_of(obj_view(f[p].1))
                && (all@[p].1 is Dictionary <==> f[p].1 is Dictionary) by {
                if p >= all_before.len() {
                    assert(all@[p] == added[p - all_before.len()]);
                    assert(f[p] == objs@[p - all_before.len()]);
                } else {
                    assert(all@[p] == all_before[p]);
                    assert(roles@[p] == roles_before[p]);
                    assert(f[p] == flat_before[p]);
                }
            }
        }
        pages.append(&mut doc_pages);
        assert(pages@ =~= mid_pages(ds, i + 1));
        start = start + objs.len() as u64;
        i = i + 1;
    }
    proof {
        lemma_flat_len(ds, ds.len() as int);
    }
    if pages.len() as u64 > i64::MAX as u64 {
        return Err(MergeError::TooManyObjects);
    }
    let ghost flat = flat_objects(ds, ds.len() as int);
    let mut cat_pos: Option<usize> = None;
    let mut tree_pos: Option<usize> = None;
    let mut p: usize = 0;
    while p < all.len()
        invariant
            flat == flat_objects(ds, ds.len() as int),
            roles@.len() == all@.len(),
            all@.len() == flat.len(),
            forall|x: int| 0 <= x < all@.len() ==> (#[trigger] roles@[x]) == role_of(obj_view(flat[x].1))
                && (all@[x].1 is Dictionary <==> flat[x].1 is Dictionary),
            p <= all@.len(),
            cat_pos is None <==> forall|x: int| 0 <= x < p ==> !(roles@[x] == ObjectRole::Catalog && all@[x].1 is Dictionary),
            cat_pos matches Some(c) ==> c < p && roles@[c as int] == ObjectRole::Catalog && all@[c as int].1 is Dictionary,
            tree_pos is None <==> forall|x: int| 0 <= x < p ==> !(roles@[x] == ObjectRole::Pages && all@[x].1 is Dictionary),
            tree_pos matches Some(c) ==> c < p && roles@[c as int] == ObjectRole::Pages && all@[c as int].1 is Dictionary,
        decreases all@.len() - p,
    {
        if cat_pos.is_none() && roles[p] == ObjectRole::Catalog {
            match &all[p].1 {
                PdfObject::Dictionary(_) => {
                    cat_pos = Some(p);
                },
                _ => {},
            }
        }
        if tree_pos.is_none() && roles[p] == ObjectRole::Pages {
            match &all[p].1 {
                PdfObject::Dictionary(_) => {
                    tree_pos = Some(p);
                },
                _ => {},
            }
        }
        p = p + 1;
    }
    let cat_pos = match cat_pos {
        Some(c) => c,
        None => {
            proof {
                assert forall|x: int| 0 <= x < flat.len() implies !(role_of(obj_view(#[trigger] flat[x].1)) == ObjectRole::Catalog && flat[x].1 is Dictionary) by {
                    assert(roles@[x] == role_of(obj_view(flat[x].1)));
                }
            }
            return Err(MergeError::NoCatalog);
        },
    };
    let tree_pos = match tree_pos {
        Some(c) => c,
        None => {
            proof {
                assert(roles@[cat_pos as int] == role_of(obj_view(flat[cat_pos as int].1)));
                assert forall|x: int| 0 <= x < flat.len() implies !(role_of(obj_view(#[trigger] flat[x].1)) == ObjectRole::Pages && flat[x].1 is Dictionary) by {
                    assert(roles@[x] == role_of(obj_view(flat[x].1)));
                }
            }
            return Err(MergeError::NoPageTree);
        },
    };
    proof {
        assert(roles@[cat_pos as int] == role_of(obj_view(flat[cat_pos as int].1)));
        assert(roles@[tree_pos as int] == role_of(obj_view(flat[tree_pos as int].1)));
        assert(has_catalog(ds));
        assert(has_page_tree(ds));
    }
    let catalog_id = all[cat_pos].0;
    let pages_id = all[tree_pos].0;
    let (out, origins) = build_merged_objects(all, &roles, &pages, cat_pos, tree_pos);
    let final_ids = collect_ids(&out);
    let objects = renumber_objects_with(&out, 1);
    let page_ids = renumber_ids(&final_ids, &pages, 1);
    let root = renumbered(&final_ids, 1, catalog_id);
    let mut marks: Vec<(usize, ObjectId)> = Vec::new();
    let mut b: usize = 0;
    while b < bookmarks.len()
        invariant
            out@.len() <= u32::MAX,
            final_ids@ == ids_of(out@),
            b <= bookmarks@.len(),
            marks@.len() == b,
            forall|x: int| 0 <= x < bookmarks@.len() ==> (#[trigger] bookmarks@[x]).0 == x + 1,
            forall|x: int| 0 <= x < b ==> (#[trigger] marks@[x]).0 == x + 1,
            forall|x: int| 0 <= x < b ==> (#[trigger] marks@[x]).1 == new_id(final_ids@, 1, bookmarks@[x].1),
        decreases bookmarks@.len() - b,
    {
        let (label, id) = bookmarks[b];
        marks.push((label, renumbered(&final_ids, 1, id)));
        b = b + 1;
    }
    let m = MergedDocument { objects, origins, root, page_ids, bookmarks: marks };
    assert(m.objects@ == objects@ && m.page_ids@ == page_ids@ && m.origins@ == origins@);
    proof {
        let q = choose|t: int|
            0 <= t < out@.len() && (#[trigger] out@[t]).0 == pages_id && out@[t].1 is Dictionary && entry_value(
                entries_view(out@[t].1->Dictionary_0@),
                count_key(),
            ) == Some(PdfValue::Integer(pages@.len() as i64)) && entry_value(entries_view(out@[t].1->Dictionary_0@), kids_key())
                == Some(PdfValue::Array(refs_to(pages@)));
        let c = choose|c: int|
            0 <= c < out@.len() && (#[trigger] out@[c]).0 == catalog_id && out@[c].1 is Dictionary && entry_value(
                entries_view(out@[c].1->Dictionary_0@),
                pages_key(),
            ) == Some(PdfValue::Reference(pages_id)) && entry_value(entries_view(out@[c].1->Dictionary_0@), outlines_key())
                is None;
        let e = entries_view(out@[q].1->Dictionary_0@);
        assert(obj_view(out@[q].1) == PdfValue::Dictionary(e));
        let o2 = objects@[q].1;
        assert(obj_view(o2) == remap_value(PdfValue::Dictionary(e), final_ids@, 1));
        assert(o2 is Dictionary);
        assert(entries_view(o2->Dictionary_0@) == remap_entries(e, final_ids@, 1));
        lemma_entry_remap(e, count_key(), final_ids@, 1);
        lemma_entry_remap(e, kids_key(), final_ids@, 1);
        lemma_remap_refs(pages@, final_ids@, 1);
        assert(page_ids@ == pages@.map_values(|id: ObjectId| new_id(final_ids@, 1, id)));
        assert(page_ids@.len() == pages@.len());
        let e2 = entries_view(o2->Dictionary_0@);
        assert(entry_value(e2, count_key()) == Some(PdfValue::Integer(page_ids@.len() as i64)));
        assert(remap_value(PdfValue::Array(refs_to(pages@)), final_ids@, 1) == PdfValue::Array(refs_to(page_ids@)));
        assert(entry_value(e2, kids_key()) == Some(PdfValue::Array(refs_to(page_ids@))));
        assert(0 <= q < objects@.len());
        lemma_increasing_position(out@, q);
        lemma_increasing_position(out@, c);
        assert(new_id(final_ids@, 1, pages_id) == objects@[q].0);
        assert(root == objects@[c].0);
        let ce = entries_view(out@[c].1->Dictionary_0@);
        assert(obj_view(out@[c].1) == PdfValue::Dictionary(ce));
        let oc = objects@[c].1;
        assert(obj_view(oc) == remap_value(PdfValue::Dictionary(ce), final_ids@, 1));
        assert(oc is Dictionary);
        assert(entries_view(oc->Dictionary_0@) == remap_entries(ce, final_ids@, 1));
        lemma_entry_remap(ce, pages_key(), final_ids@, 1);
        lemma_entry_remap(ce, outlines_key(), final_ids@, 1);
        assert(entry_value(entries_view(oc->Dictionary_0@), pages_key()) == Some(PdfValue::Reference(objects@[q].0)));
    }
    proof {
        let flat = flat_objects(ds, ds.len() as int);
        let bf = before_final(m);
        lemma_flat_len(ds, ds.len() as int);
        assert forall|q: int| 0 <= q < out@.len() implies out@[q].0 == #[trigger] bf[q] by {
            let o = origins@[q] as int;
            assert(out@[q].0 == all@[o].0);
            assert(all@[o].0 == ((o + 1) as u32, flat[o].0.1));
            assert(objects@[q].0 == ((1 + q) as u32, out@[q].0.1));
        }
        assert(final_ids@ =~= bf);
        assert(m.page_ids@ =~= mid_pages(ds, ds.len() as int).map_values(|id: ObjectId| new_id(bf, 1, id)));
        assert(m.bookmarks@.map_values(|b: (usize, ObjectId)| b.1) =~= mid_first_pages(ds, ds.len() as int).map_values(
            |id: ObjectId| new_id(bf, 1, id),
        )) by {
            assert(bookmarks@.map_values(|b: (usize, ObjectId)| b.1) == mid_first_pages(ds, ds.len() as int));
        }
        assert forall|q: int| 0 <= q < m.objects@.len() implies (#[trigger] m.origins@[q]) < total_objects(ds, ds.len() as int)
            && role_of(obj_view(flat[m.origins@[q] as int].1)) != ObjectRole::Outlines && role_of(obj_view(flat[m.origins@[q] as int].1))
            != ObjectRole::Outline by {
            assert(roles@[origins@[q] as int] == role_of(obj_view(flat[origins@[q] as int].1)));
        }
        let tq = choose|t: int|
            0 <= t < out@.len() && (#[trigger] out@[t]).0 == pages_id && out@[t].1 is Dictionary && entry_value(
                entries_view(out@[t].1->Dictionary_0@),
                count_key(),
            ) == Some(PdfValue::Integer(pages@.len() as i64)) && entry_value(entries_view(out@[t].1->Dictionary_0@), kids_key())
                == Some(PdfValue::Array(refs_to(pages@)));
        lemma_increasing_position(out@, tq);
        assert(new_id(final_ids@, 1, pages_id) == objects@[tq].0);
        assert forall|x: int|
            0 <= x < flat.len() && role_of(obj_view(#[trigger] flat[x].1)) == ObjectRole::Page && flat[x].1 is Dictionary
                && mid_pages(ds, ds.len() as int).contains(((x + 1) as u32, flat[x].0.1)) implies exists|q: int|
                0 <= q < m.objects@.len() && #[trigger] m.origins@[q] == x && m.objects@[q].1 is Dictionary && entry_value(
                    entries_view(m.objects@[q].1->Dictionary_0@),
                    parent_key(),
                ) == Some(PdfValue::Reference(m.objects@[tq].0)) && forall|k: Seq<u8>|
                    k != parent_key() ==> #[trigger] entry_value(entries_view(m.objects@[q].1->Dictionary_0@), k) == opt_remap(
                        entry_value(dict_entries(mid_view(ds, ds.len() as int, x)), k),
                        bf,
                        1,
                    ) by {
            assert(roles@[x] == role_of(obj_view(flat[x].1)));
            assert(all@[x].0 == ((x + 1) as u32, flat[x].0.1));
            assert(all@[x].1 is Dictionary);
            let q = choose|q: int| 0 <= q < out@.len() && (#[trigger] origins@[q]) == x && page_parented(out@[q].1, all@[x].1, pages_id);
            let e = entries_view(out@[q].1->Dictionary_0@);
            assert(obj_view(out@[q].1) == PdfValue::Dictionary(e));
            let oq = objects@[q].1;
            assert(obj_view(oq) == remap_value(PdfValue::Dictionary(e), final_ids@, 1));
            assert(oq is Dictionary);
            assert(entries_view(oq->Dictionary_0@) == remap_entries(e, final_ids@, 1));
            lemma_entry_remap(e, parent_key(), final_ids@, 1);
            let ea = entries_view(all@[x].1->Dictionary_0@);
            assert(obj_view(all@[x].1) == PdfValue::Dictionary(ea));
            assert(dict_entries(mid_view(ds, ds.len() as int, x)) == ea);
            assert forall|k: Seq<u8>| k != parent_key() implies #[trigger] entry_value(entries_view(oq->Dictionary_0@), k) == opt_remap(
                entry_value(dict_entries(mid_view(ds, ds.len() as int, x)), k),
                bf,
                1,
            ) by {
                lemma_entry_remap(e, k, final_ids@, 1);
            }
            assert(m.objects@[q].1 == oq);
        }
        assert(pages_in_output(m, ds, m.objects@[tq].0));
        let tu = choose|t: int|
            0 <= t < out@.len() && (#[trigger] out@[t]).0 == all@[tree_pos as int].0 && out@[t].1 is Dictionary && forall|k: Seq<u8>|
                k != count_key() && k != kids_key() ==> #[trigger] entry_value(entries_view(out@[t].1->Dictionary_0@), k)
                    == union_value(tree_vals(all@), tree_flags(all@, roles@), all@.len() as int, k);
        if tu < tq {
            assert(out@[tu].0.0 < out@[tq].0.0);
        } else if tq < tu {
            assert(out@[tq].0.0 < out@[tu].0.0);
        }
        assert(tu == tq);
        assert(tree_vals(all@) =~= mid_vals(ds));
        assert(tree_flags(all@, roles@) =~= mid_tree_flags(ds));
        let e = entries_view(out@[tq].1->Dictionary_0@);
        assert(obj_view(out@[tq].1) == PdfValue::Dictionary(e));
        assert(obj_view(objects@[tq].1) == remap_value(PdfValue::Dictionary(e), final_ids@, 1));
        assert(entries_view(objects@[tq].1->Dictionary_0@) == remap_entries(e, final_ids@, 1));
        assert forall|k: Seq<u8>| k != count_key() && k != kids_key() implies #[trigger] entry_value(
            entries_view(m.objects@[tq].1->Dictionary_0@),
            k,
        ) == opt_remap(union_value(mid_vals(ds), mid_tree_flags(ds), total_objects(ds, ds.len() as int), k), bf, 1) by {
            lemma_entry_remap(e, k, final_ids@, 1);
        }
        assert(tree_union(m, ds, tq));
    }
    proof {
        assert(m.root == root);
        assert(exists|c: int, t: int|
            0 <= c < m.objects@.len() && 0 <= t < m.objects@.len() && (#[trigger] m.objects@[c]).0 == m.root
                && m.objects@[c].1 is Dictionary && entry_value(entries_view(m.objects@[c].1->Dictionary_0@), pages_key())
                == Some(PdfValue::Reference((#[trigger] m.objects@[t]).0)) && entry_value(
                entries_view(m.objects@[c].1->Dictionary_0@),
                outlines_key(),
            ) is None && m.objects@[t].1 is Dictionary && entry_value(
                entries_view(m.objects@[t].1->Dictionary_0@),
                count_key(),
            ) == Some(PdfValue::Integer(m.page_ids@.len() as i64)) && entry_value(
                entries_view(m.objects@[t].1->Dictionary_0@),
                kids_key(),
            ) == Some(PdfValue::Array(refs_to(m.page_ids@))));
    }
    let r: Result<MergedDocument, MergeError> = Ok(m);
    assert(r->Ok_0 == m);
    r
}

/// In a list whose identifier numbers increase, an object is the first
/// with its identifier.
pub proof fn lemma_increasing_position(objs: Seq<(ObjectId, PdfObject)>, c: int)
    requires
        forall|j: int, k: int| 0 <= j < k < objs.len() ==> (#[trigger] objs[j]).0.0 < (#[trigger] objs[k]).0.0,
        0 <= c < objs.len(),
    ensures
        id_position(ids_of(objs), objs[c].0) == Some(c),
{
    let ids = ids_of(objs);
    lemma_id_position(ids, objs[c].0);
    assert(ids[c] == objs[c].0);
    if id_position(ids, objs[c].0) is Some {
        let p = id_position(ids, objs[c].0)->Some_0;
        assert(ids[p] == objs[p].0);
        if p < c {
            assert(objs[p].0.0 < objs[c].0.0);
        }
    }
}

/// The value of the last entry with key `k`.
pub open spec fn last_entry(e: Seq<(Seq<u8>, PdfValue)>, k: Seq<u8>) -> Option<PdfValue>
    decreases e.len(),
{
    if e.len() == 0 {
        None
    } else if e.last().0 == k {
        Some(e.last().1)
    } else {
        last_entry(e.drop_last(), k)
    }
}

/// The value of key `k` when the dictionaries `vals[x]` with `is_tree[x]`,
/// `x < n`, are combined in order, a later entry winning over an earlier
/// one.
pub open spec fn union_value(vals: Seq<PdfValue>, is_tree: Seq<bool>, n: int, k: Seq<u8>) -> Option<PdfValue>
    decreases n,
{
    if n <= 0 {
        None
    } else if is_tree[n - 1] && last_entry(dict_entries(vals[n - 1]), k) is Some {
        last_entry(dict_entries(vals[n - 1]), k)
    } else {
        union_value(vals, is_tree, n - 1, k)
    }
}

/// The objects as values.
pub open spec fn tree_vals(all: Seq<(ObjectId, PdfObject)>) -> Seq<PdfValue> {
    all.map_values(|o: (ObjectId, PdfObject)| obj_view(o.1))
}

/// Which objects are page-tree dictionaries.
pub open spec fn tree_flags(all: Seq<(ObjectId, PdfObject)>, roles: Seq<ObjectRole>) -> Seq<bool> {
    Seq::new(all.len(), |x: int| roles[x] == ObjectRole::Pages && all[x].1 is Dictionary)
}

/// The key `Parent`.
pub open spec fn parent_key() -> Seq<u8> {
    seq![80u8, 97u8, 114u8, 101u8, 110u8, 116u8]
}

/// `o` is the page dictionary `src` with its `Parent` set to `tree`; every
/// other entry keeps its value.
pub open spec fn page_parented(o: PdfObject, src: PdfObject, tree: ObjectId) -> bool {
    &&& o is Dictionary
    &&& src is Dictionary
    &&& entry_value(entries_view(o->Dictionary_0@), parent_key()) == Some(PdfValue::Reference(tree))
    &&& forall|k: Seq<u8>| k != parent_key() ==> #[trigger] entry_value(entries_view(o->Dictionary_0@), k) == entry_value(
        entries_view(src->Dictionary_0@),
        k,
    )
}

/// Builds the objects of the merged document, in input order: the chosen
/// catalog pointing at the merged page tree and without outlines, the
/// merged page tree at the place of the first one, each listed page with
/// that tree as parent, and every object that is not a catalog, a page
/// tree, a page or an outline item.
pub fn build_merged_objects(
    all: Vec<(ObjectId, PdfObject)>,
    roles: &Vec<ObjectRole>,
    pages: &Vec<ObjectId>,
    cat_pos: usize,
    tree_pos: usize,
) -> (res: (Vec<(ObjectId, PdfObject)>, Vec<usize>))
    requires
        roles@.len() == all@.len(),
        forall|p: int| 0 <= p < all@.len() ==> (#[trigger] all@[p]).0.0 == p + 1,
        cat_pos < all@.len(),
        tree_pos < all@.len(),
        roles@[cat_pos as int] == ObjectRole::Catalog,
        all@[cat_pos as int].1 is Dictionary,
        roles@[tree_pos as int] == ObjectRole::Pages,
        all@[tree_pos as int].1 is Dictionary,
        pages@.len() <= i64::MAX,
    ensures
        ({
            let (r, origins) = res;
            &&& origins@.len() == r@.len()
            &&& forall|q: int|
                0 <= q < r@.len() ==> (#[trigger] origins@[q]) < all@.len() && r@[q].0 == all@[origins@[q] as int].0
                    && roles@[origins@[q] as int] != ObjectRole::Outlines && roles@[origins@[q] as int] != ObjectRole::Outline
            &&& forall|j: int, k: int| 0 <= j < k < r@.len() ==> (#[trigger] origins@[j]) < (#[trigger] origins@[k])
            &&& forall|x: int|
                0 <= x < all@.len() && roles@[x] == ObjectRole::Page && (#[trigger] all@[x]).1 is Dictionary && pages@.contains(
                    all@[x].0,
                ) ==> exists|q: int| 0 <= q < r@.len() && (#[trigger] origins@[q]) == x && page_parented(r@[q].1, all@[x].1, all@[tree_pos as int].0)
        }),
        res.0@.len() <= all@.len(),
        exists|t: int|
            0 <= t < res.0@.len() && (#[trigger] res.0@[t]).0 == all@[tree_pos as int].0 && res.0@[t].1 is Dictionary && forall|k: Seq<u8>|
                k != count_key() && k != kids_key() ==> #[trigger] entry_value(entries_view(res.0@[t].1->Dictionary_0@), k)
                    == union_value(tree_vals(all@), tree_flags(all@, roles@), all@.len() as int, k),
        forall|j: int, k: int| 0 <= j < k < res.0@.len() ==> (#[trigger] res.0@[j]).0.0 < (#[trigger] res.0@[k]).0.0,
        exists|t: int|
            0 <= t < res.0@.len() && (#[trigger] res.0@[t]).0 == all@[tree_pos as int].0 && res.0@[t].1 is Dictionary && entry_value(
                entries_view(res.0@[t].1->Dictionary_0@),
                count_key(),
            ) == Some(PdfValue::Integer(pages@.len() as i64)) && entry_value(entries_view(res.0@[t].1->Dictionary_0@), kids_key())
                == Some(PdfValue::Array(refs_to(pages@))),
        exists|c: int|
            0 <= c < res.0@.len() && (#[trigger] res.0@[c]).0 == all@[cat_pos as int].0 && res.0@[c].1 is Dictionary && entry_value(
                entries_view(res.0@[c].1->Dictionary_0@),
                pages_key(),
            ) == Some(PdfValue::Reference(all@[tree_pos as int].0)) && entry_value(
                entries_view(res.0@[c].1->Dictionary_0@),
                outlines_key(),
            ) is None,
{
    let pages_id = all[tree_pos].0;
    let n = all.len();
    let mut merged: Vec<(Vec<u8>, PdfObject)> = Vec::new();
    let mut out: Vec<(ObjectId, PdfObject)> = Vec::new();
    let mut origins: Vec<usize> = Vec::new();
    let mut tree_slot: usize = 0;
    let mut cat_slot: usize = 0;
    let mut rest = all;
    let ghost orig = rest@;
    let mut p: usize = 0;
    while p < n
        invariant
            n == orig.len(),
            roles@.len() == n,
            forall|x: int| 0 <= x < n ==> (#[trigger] orig[x]).0.0 == x + 1,
            tree_pos < n,
            cat_pos < n,
            pages_id == orig[tree_pos as int].0,
            orig[tree_pos as int].1 is Dictionary,
            roles@[tree_pos as int] == ObjectRole::Pages,
            orig[cat_pos as int].1 is Dictionary,
            roles@[cat_pos as int] == ObjectRole::Catalog,
            p <= n,
            rest@ == orig.subrange(p as int, n as int),
            out@.len() <= p,
            origins@.len() == out@.len(),
            forall|q: int|
                0 <= q < out@.len() ==> (#[trigger] origins@[q]) < p && out@[q].0 == orig[origins@[q] as int].0
                    && roles@[origins@[q] as int] != ObjectRole::Outlines && roles@[origins@[q] as int] != ObjectRole::Outline,
            forall|j: int, k: int| 0 <= j < k < out@.len() ==> (#[trigger] origins@[j]) < (#[trigger] origins@[k]),
            p > tree_pos ==> origins@[tree_slot as int] == tree_pos,
            forall|k: Seq<u8>| #[trigger] entry_value(entries_view(merged@), k) == union_value(tree_vals(orig), tree_flags(orig, roles@), p as int, k),
            forall|x: int|
                0 <= x < p && roles@[x] == ObjectRole::Page && (#[trigger] orig[x]).1 is Dictionary && pages@.contains(orig[x].0)
                    ==> exists|q: int| 0 <= q < out@.len() && (#[trigger] origins@[q]) == x && page_parented(out@[q].1, orig[x].1, pages_id),
            forall|j: int, k: int| 0 <= j < k < out@.len() ==> (#[trigger] out@[j]).0.0 < (#[trigger] out@[k]).0.0,
            forall|j: int| 0 <= j < out@.len() ==> (#[trigger] out@[j]).0.0 <= p,
            p > tree_pos ==> tree_slot < out@.len() && out@[tree_slot as int].0 == pages_id,
            p > cat_pos ==> cat_slot < out@.len() && out@[cat_slot as int].0 == orig[cat_pos as int].0
                && out@[cat_slot as int].1 is Dictionary && entry_value(
                entries_view(out@[cat_slot as int].1->Dictionary_0@),
                pages_key(),
            ) == Some(PdfValue::Reference(pages_id)) && entry_value(
                entries_view(out@[cat_slot as int].1->Dictionary_0@),
                outlines_key(),
            ) is None,
        decreases n - p,
    {
        let item = rest.remove(0);
        let (id, obj) = item;
        assert(orig[p as int] == item);
        assert(rest@ =~= orig.subrange(p + 1, n as int));
        let ghost out_before = out@;
        let ghost origins_before = origins@;
        match roles[p] {
            ObjectRole::Catalog => {
                if p == cat_pos {
                    match obj {
                        PdfObject::Dictionary(d) => {
                            let mut d = d;
                            set_entry_bytes(&mut d, vec![80u8, 97u8, 103u8, 101u8, 115u8], PdfObject::Reference(pages_id));
                            let outlines: Vec<u8> = vec![79u8, 117u8, 116u8, 108u8, 105u8, 110u8, 101u8, 115u8];
                            remove_entries(&mut d, &outlines);
                            assert(pages_key() != outlines_key()) by {
                                assert(pages_key().len() != outlines_key().len());
                            }
                            cat_slot = out.len();
                            out.push((id, PdfObject::Dictionary(d)));
                            origins.push(p);
                        },
                        _ => {},
                    }
                }
            },
            ObjectRole::Pages => {
                match obj {
                    PdfObject::Dictionary(d) => {
                        let ghost d0 = d@;
                        let mut d = d;
                        let ghost mut taken: int = 0;
                        assert(d0.subrange(0, 0) =~= Seq::<(Vec<u8>, PdfObject)>::empty());
                        while d.len() > 0
                            invariant
                                0 <= taken <= d0.len(),
                                d@ == d0.subrange(taken, d0.len() as int),
                                forall|k: Seq<u8>| #[trigger] entry_value(entries_view(merged@), k) == match last_entry(
                                    entries_view(d0.subrange(0, taken)),
                                    k,
                                ) {
                                    Some(v) => Some(v),
                                    None => union_value(tree_vals(orig), tree_flags(orig, roles@), p as int, k),
                                },
                            decreases d@.len(),
                        {
                            let ghost rest_before = d@;
                            let (k, v) = d.remove(0);
                            let ghost kv = k@;
                            let ghost vv = obj_view(v);
                            proof {
                                assert(rest_before[0] == d0[taken]);
                                let pre = d0.subrange(0, taken + 1);
                                assert(pre.drop_last() =~= d0.subrange(0, taken));
                                assert(entries_view(pre).drop_last() =~= entries_view(d0.subrange(0, taken)));
                                assert(entries_view(pre).last() == (kv, vv));
                            }
                            set_entry_bytes(&mut merged, k, v);
                            proof {
                                taken = taken + 1;
                                assert(d@ =~= d0.subrange(taken, d0.len() as int));
                            }
                        }
                        proof {
                            assert(d0.subrange(0, taken) =~= d0);
                            assert(tree_vals(orig)[p as int] == obj_view(orig[p as int].1));
                            assert(dict_entries(obj_view(orig[p as int].1)) == entries_view(d0));
                            assert(tree_flags(orig, roles@)[p as int]);
                        }
                        if p == tree_pos {
                            tree_slot = out.len();
                            out.push((id, PdfObject::Null));
                            origins.push(p);
                        }
                    },
                    _ => {},
                }
            },
            ObjectRole::Page => {
                proof {
                    lemma_id_position(pages@, id);
                }
                if find_id(pages, id).is_some() {
                    match obj {
                        PdfObject::Dictionary(d) => {
                            let ghost d0 = d@;
                            let mut d = d;
                            set_entry_bytes(&mut d, vec![80u8, 97u8, 114u8, 101u8, 110u8, 116u8], PdfObject::Reference(pages_id));
                            out.push((id, PdfObject::Dictionary(d)));
                            origins.push(p);
                            assert(page_parented(out@.last().1, orig[p as int].1, pages_id));
                        },
                        _ => {},
                    }
                } else {
                    assert(!pages@.contains(id));
                }
            },
            ObjectRole::Outlines => {},
            ObjectRole::Outline => {},
            ObjectRole::Other => {
                out.push((id, obj));
                origins.push(p);
            },
        }
        proof {
            if out@.len() > out_before.len() {
                assert(out@.last().0 == id);
                assert forall|j: int| 0 <= j < out_before.len() implies out@[j] == out_before[j] && origins@[j] == origins_before[j] by {}
                assert(origins@.last() == p);
            } else {
                assert(out@ == out_before);
                assert(origins@ == origins_before);
            }
            assert forall|x: int|
                0 <= x < p + 1 && roles@[x] == ObjectRole::Page && (#[trigger] orig[x]).1 is Dictionary && pages@.contains(orig[x].0)
                    implies exists|q: int| 0 <= q < out@.len() && (#[trigger] origins@[q]) == x && page_parented(out@[q].1, orig[x].1, pages_id) by {
                if x < p {
                    let q = choose|q: int| 0 <= q < out_before.len() && (#[trigger] origins_before[q]) == x && page_parented(out_before[q].1, orig[x].1, pages_id);
                    assert(origins@[q] == x);
                    assert(out@[q] == out_before[q]);
                } else {
                    let q = out@.len() - 1;
                    assert(origins@[q] == x);
                }
            }
        }
        p = p + 1;
    }
    let count = PdfObject::Integer(pages.len() as i64);
    set_entry_bytes(&mut merged, vec![67u8, 111u8, 117u8, 110u8, 116u8], count);
    let mut kids: Vec<PdfObject> = Vec::new();
    let mut k: usize = 0;
    assert(pages@.subrange(0, 0) =~= Seq::<ObjectId>::empty());
    assert(refs_to(pages@.subrange(0, 0)) =~= Seq::<PdfValue>::empty());
    while k < pages.len()
        invariant
            k <= pages@.len(),
            objs_view(kids@) == refs_to(pages@.subrange(0, k as int)),
        decreases pages@.len() - k,
    {
        let ghost before = kids@;
        kids.push(PdfObject::Reference(pages[k]));
        proof {
            assert(kids@.drop_last() =~= before);
            assert(kids@.last() == PdfObject::Reference(pages@[k as int]));
            assert(objs_view(kids@) == objs_view(kids@.drop_last()).push(obj_view(kids@.last())));
            assert(obj_view(kids@.last()) == PdfValue::Reference(pages@[k as int]));
            assert(objs_view(kids@) == objs_view(before).push(PdfValue::Reference(pages@[k as int])));
            assert(refs_to(pages@.subrange(0, k + 1)) =~= refs_to(pages@.subrange(0, k as int)).push(PdfValue::Reference(pages@[k as int])));
        }
        k = k + 1;
    }
    assert(pages@.subrange(0, pages@.len() as int) =~= pages@);
    let kids_obj = PdfObject::Array(kids);
    assert(obj_view(kids_obj) == PdfValue::Array(refs_to(pages@)));
    set_entry_bytes(&mut merged, vec![75u8, 105u8, 100u8, 115u8], kids_obj);
    assert(count_key() != kids_key()) by {
        assert(count_key().len() != kids_key().len());
    }
    let ghost before_set = out@;
    assert(orig[cat_pos as int].0 != orig[tree_pos as int].0) by {
        assert(orig[cat_pos as int].0.0 == cat_pos + 1);
        assert(orig[tree_pos as int].0.0 == tree_pos + 1);
    }
    assert(cat_slot != tree_slot);
    out.set(tree_slot, (pages_id, PdfObject::Dictionary(merged)));
    proof {
        assert forall|x: int|
            0 <= x < n && roles@[x] == ObjectRole::Page && (#[trigger] orig[x]).1 is Dictionary && pages@.contains(orig[x].0)
                implies exists|q: int| 0 <= q < out@.len() && (#[trigger] origins@[q]) == x && page_parented(out@[q].1, orig[x].1, pages_id) by {
            let q = choose|q: int| 0 <= q < before_set.len() && (#[trigger] origins@[q]) == x && page_parented(before_set[q].1, orig[x].1, pages_id);
            if q == tree_slot {
                assert(origins@[q] == tree_pos);
            }
            assert(out@[q] == before_set[q]);
        }
        assert(out@[tree_slot as int].1 == PdfObject::Dictionary(merged));
        assert(out@[cat_slot as int] == before_set[cat_slot as int]);
        assert forall|j: int, k: int| 0 <= j < k < out@.len() implies (#[trigger] out@[j]).0.0 < (#[trigger] out@[k]).0.0 by {
            assert(out@[j].0 == before_set[j].0);
            assert(out@[k].0 == before_set[k].0);
        }
    }
    (out, origins)
}

/// Sets entry `key` of a dictionary to `v`, as `set_entry` does, for a key
/// given as bytes.
pub fn set_entry_bytes(d: &mut Vec<(Vec<u8>, PdfObject)>, key: Vec<u8>, v: PdfObject)
    ensures
        entry_value(entries_view(final(d)@), key@) == Some(obj_view(v)),
        forall|k2: Seq<u8>| k2 != key@ ==> #[trigger] entry_value(entries_view(final(d)@), k2) == entry_value(entries_view(old(d)@), k2),
{
    let mut i: usize = 0;
    while i < d.len()
        invariant
            i <= d@.len(),
            d@ == old(d)@,
            entry_value(entries_view(d@.subrange(0, i as int)), key@) is None,
        decreases d@.len() - i,
    {
        let ghost p = d@.subrange(0, i + 1);
        proof {
            assert(p.drop_last() =~= d@.subrange(0, i as int));
            assert(entries_view(p).drop_last() =~= entries_view(d@.subrange(0, i as int)));
        }
        if bytes_equal(&d[i].0, &key) {
            let ghost before = d@;
            let ghost kv = key@;
            let ghost pv = obj_view(v);
            d.set(i, (key, v));
            proof {
                let q = d@.subrange(0, i + 1);
                assert(q.drop_last() =~= before.subrange(0, i as int));
                assert(entries_view(q).drop_last() =~= entries_view(q.drop_last()));
                lemma_entry_prefix(d@, i as int + 1, kv);
                lemma_entries_view_update(before, i as int, d@[i as int]);
                lemma_entries_view_index(before);
                assert(entries_view(before)[i as int].0 == kv);
                assert forall|k2: Seq<u8>| k2 != kv implies #[trigger] entry_value(entries_view(d@), k2) == entry_value(entries_view(before), k2) by {
                    lemma_entry_update_other(entries_view(before), i as int, pv, k2);
                    assert(entries_view(before).update(i as int, (entries_view(before)[i as int].0, pv)) =~= entries_view(d@));
                }
            }
            return;
        }
        i = i + 1;
    }
    let ghost before = d@;
    let ghost kv = key@;
    d.push((key, v));
    proof {
        assert(before.subrange(0, before.len() as int) =~= before);
        assert(d@.drop_last() =~= before);
        assert(entries_view(d@).drop_last() =~= entries_view(before));
    }
}

/// Tells whether two byte lists are equal.
pub fn bytes_equal(a: &Vec<u8>, b: &Vec<u8>) -> (r: bool)
    ensures
        r == (a@ == b@),
{
    if a.len() != b.len() {
        return false;
    }
    let mut i: usize = 0;
    while i < a.len()
        invariant
            a@.len() == b@.len(),
            i <= a@.len(),
            forall|j: int| 0 <= j < i ==> a@[j] == b@[j],
        decreases a@.len() - i,
    {
        if a[i] != b[i] {
            return false;
        }
        i = i + 1;
    }
    assert(a@ =~= b@);
    true
}

} // verus!
