use vstd::prelude::*;

use crate::record::{
    field_is_id_list, field_links_to, find_field, get_field, is_id_list, is_text, lemma_get_after_update, links_to, put_field, Record,
};
use crate::schema::{is_required, DerivedLink, EntityType, Schema};
use crate::value::{render, same_text, Value};

verus! {

/// A stored entity: its type, its id and its data.
pub struct Entity {
    pub etype: String,
    pub id: String,
    pub fields: Record,
}

fn value_links_to_list(vs: &Vec<Value>, id: &str) -> (r: bool)
    ensures
        r == exists|i: int| 0 <= i < vs@.len() && is_text(#[trigger] vs@[i], id@),
{
    let mut i: usize = 0;
    while i < vs.len()
        invariant
            i <= vs@.len(),
            forall|j: int| 0 <= j < i ==> !is_text(#[trigger] vs@[j], id@),
        decreases vs@.len() - i,
    {
        match &vs[i] {
            Value::String(s) => {
                if same_text(s.as_str(), id) {
                    assert(is_text(vs@[i as int], id@));
                    return true;
                }
            },
            _ => {},
        }
        i = i + 1;
    }
    false
}

/// Whether entity `e` is of type `source` and its field `link` names `id`.
pub open spec fn refers(e: Entity, source: Seq<char>, link: Seq<char>, id: Seq<char>) -> bool {
    e.etype@ == source && field_links_to(e.fields@, link, id)
}

/// The ids of the entities of type `source` whose field `link` names `id`, in
/// store order.
pub open spec fn children(es: Seq<Entity>, source: Seq<char>, link: Seq<char>, id: Seq<char>) -> Seq<Seq<char>>
    decreases es.len(),
{
    if es.len() == 0 {
        seq![]
    } else if refers(es.last(), source, link, id) {
        children(es.drop_last(), source, link, id).push(es.last().id@)
    } else {
        children(es.drop_last(), source, link, id)
    }
}

/// The derived list that link `d` gives the entity `id` of its parent type.
pub open spec fn derived_ids(es: Seq<Entity>, d: DerivedLink, id: Seq<char>) -> Seq<Seq<char>> {
    children(es, d.source@, d.link@, id)
}

/// Whether an entity of this type and id is stored.
pub open spec fn stored(es: Seq<Entity>, etype: Seq<char>, id: Seq<char>) -> bool {
    exists|k: int| 0 <= k < es.len() && #[trigger] es[k].etype@ == etype && es[k].id@ == id
}

/// The number of stored entities of this type.
pub open spec fn count_of(es: Seq<Entity>, etype: Seq<char>) -> nat
    decreases es.len(),
{
    if es.len() == 0 {
        0
    } else {
        count_of(es.drop_last(), etype) + if es.last().etype@ == etype { 1nat } else { 0nat }
    }
}

/// Whether `name` is a derived field of type `etype` under `links`.
pub open spec fn is_derived_of(links: Seq<DerivedLink>, etype: Seq<char>, name: Seq<char>) -> bool {
    exists|q: int| 0 <= q < links.len() && #[trigger] links[q].parent@ == etype && links[q].field@ == name
}

/// `e` is `orig` with the derived fields of the first `upto` links recomputed
/// from the entities `es`.
pub open spec fn resynced_upto(links: Seq<DerivedLink>, es: Seq<Entity>, orig: Entity, e: Entity, upto: int) -> bool {
    &&& e.etype@ == orig.etype@
    &&& e.id@ == orig.id@
    &&& forall|q: int| 0 <= q < upto && #[trigger] links[q].parent@ == e.etype@
        ==> field_is_id_list(e.fields@, links[q].field@, derived_ids(es, links[q], e.id@))
    &&& forall|n: Seq<char>| !is_derived_of(links, e.etype@, n)
        ==> #[trigger] get_field(e.fields@, n) == get_field(orig.fields@, n)
}

/// `after` is `before` with each entity's derived fields recomputed from the
/// entities of `before`, and nothing else changed.
pub open spec fn resynced(links: Seq<DerivedLink>, before: Seq<Entity>, after: Seq<Entity>) -> bool {
    &&& after.len() == before.len()
    &&& forall|k: int| 0 <= k < after.len()
        ==> #[trigger] resynced_upto(links, before, before[k], after[k], links.len() as int)
}

/// The linking fields that `links` read hold the same values in `a` as in `b`.
pub open spec fn links_kept(links: Seq<DerivedLink>, a: Seq<Entity>, b: Seq<Entity>) -> bool {
    &&& a.len() == b.len()
    &&& forall|j: int| #![trigger a[j]] 0 <= j < a.len() ==> a[j].etype@ == b[j].etype@ && a[j].id@ == b[j].id@
    &&& forall|j: int, q: int| #![trigger a[j], links[q]]
        0 <= j < a.len() && 0 <= q < links.len() && b[j].etype@ == links[q].source@
            ==> get_field(a[j].fields@, links[q].link@) == get_field(b[j].fields@, links[q].link@)
}

/// No two stored entities share a type and an id.
pub open spec fn keys_unique(es: Seq<Entity>) -> bool {
    forall|a: int, b: int| 0 <= a < es.len() && 0 <= b < es.len() && a != b
        ==> #[trigger] es[a].etype@ != #[trigger] es[b].etype@ || es[a].id@ != es[b].id@
}

proof fn lemma_children_same(a: Seq<Entity>, b: Seq<Entity>, source: Seq<char>, link: Seq<char>, id: Seq<char>)
    requires
        a.len() == b.len(),
        forall|k: int| 0 <= k < a.len() ==> (#[trigger] a[k]).id@ == b[k].id@
            && refers(a[k], source, link, id) == refers(b[k], source, link, id),
    ensures
        children(a, source, link, id) == children(b, source, link, id),
    decreases a.len(),
{
    if a.len() > 0 {
        lemma_children_same(a.drop_last(), b.drop_last(), source, link, id);
        assert(a.last() == a[a.len() - 1]);
    }
}

/// Whether `v` names `id`.
pub fn value_links_to(v: &Value, id: &str) -> (r: bool)
    ensures
        r == links_to(*v, id@),
{
    match v {
        Value::String(s) => same_text(s.as_str(), id),
        Value::List(vs) => {
            let mut i: usize = 0;
            while i < vs.len()
                invariant
                    i <= vs@.len(),
                    *v == Value::List(*vs),
                    forall|j: int| 0 <= j < i ==> !is_text(#[trigger] vs@[j], id@),
                decreases vs@.len() - i,
            {
                match &vs[i] {
                    Value::String(s) => {
                        if same_text(s.as_str(), id) {
                            assert(is_text(vs@[i as int], id@));
                            assert(exists|j: int| 0 <= j < vs@.len() && is_text(#[trigger] vs@[j], id@));
                            assert(*v is List);
                            assert(v->List_0 == *vs);
                            assert(links_to(*v, id@));
                            return true;
                        }
                    },
                    _ => {},
                }
                i = i + 1;
            }
            false
        },
        _ => false,
    }
}

/// Whether entity `e` is of type `source` and its field `link` names `id`.
pub fn entity_refers(e: &Entity, source: &str, link: &str, id: &str) -> (r: bool)
    ensures
        r == refers(*e, source@, link@, id@),
{
    if !same_text(e.etype.as_str(), source) {
        return false;
    }
    match find_field(&e.fields, link) {
        Some(k) => value_links_to(&e.fields[k].1, id),
        None => false,
    }
}

/// The list of the ids of the entities of type `source` whose field `link`
/// names `id`, in store order.
pub fn children_of(es: &Vec<Entity>, source: &str, link: &str, id: &str) -> (r: Value)
    ensures
        is_id_list(r, children(es@, source@, link@, id@)),
{
    let mut out: Vec<Value> = Vec::new();
    let ghost mut ids: Seq<Seq<char>> = seq![];
    let mut i: usize = 0;
    while i < es.len()
        invariant
            i <= es@.len(),
            ids == children(es@.take(i as int), source@, link@, id@),
            out@.len() == ids.len(),
            forall|j: int| 0 <= j < ids.len() ==> is_text(#[trigger] out@[j], ids[j]),
        decreases es@.len() - i,
    {
        assert(es@.take(i + 1).drop_last() =~= es@.take(i as int));
        if entity_refers(&es[i], source, link, id) {
            out.push(Value::String(es[i].id.clone()));
            proof { ids = ids.push(es@[i as int].id@); }
        }
        i = i + 1;
    }
    assert(es@.take(es@.len() as int) =~= es@);
    Value::List(out)
}

proof fn lemma_kept_children(links: Seq<DerivedLink>, a: Seq<Entity>, b: Seq<Entity>, q: int, id: Seq<char>)
    requires
        links_kept(links, a, b),
        0 <= q < links.len(),
    ensures
        derived_ids(a, links[q], id) == derived_ids(b, links[q], id),
{
    assert forall|k: int| 0 <= k < a.len() implies (#[trigger] a[k]).id@ == b[k].id@
        && refers(a[k], links[q].source@, links[q].link@, id) == refers(b[k], links[q].source@, links[q].link@, id) by {
        assert(a[k].etype@ == b[k].etype@);
        if b[k].etype@ == links[q].source@ {
            assert(get_field(a[k].fields@, links[q].link@) == get_field(b[k].fields@, links[q].link@));
        }
    }
    lemma_children_same(a, b, links[q].source@, links[q].link@, id);
}

/// The number of times `a` occurs in `ids`.
pub open spec fn count_id(ids: Seq<Seq<char>>, a: Seq<char>) -> nat
    decreases ids.len(),
{
    if ids.len() == 0 {
        0
    } else {
        count_id(ids.drop_last(), a) + if ids.last() == a { 1nat } else { 0nat }
    }
}

proof fn lemma_children_count(es: Seq<Entity>, source: Seq<char>, link: Seq<char>, id: Seq<char>, a: Seq<char>)
    requires
        keys_unique(es),
    ensures
        stored(es, source, a) ==> count_id(children(es, source, link, id), a) <= 1,
        !stored(es, source, a) ==> count_id(children(es, source, link, id), a) == 0,
        forall|k: int| 0 <= k < es.len() && #[trigger] es[k].id@ == a && refers(es[k], source, link, id)
            ==> count_id(children(es, source, link, id), a) == 1,
    decreases es.len(),
{
    if es.len() > 0 {
        let p = es.drop_last();
        assert forall|x: int, y: int| 0 <= x < p.len() && 0 <= y < p.len() && x != y
            implies #[trigger] p[x].etype@ != #[trigger] p[y].etype@ || p[x].id@ != p[y].id@ by {
            assert(p[x] == es[x] && p[y] == es[y]);
        }
        lemma_children_count(p, source, link, id, a);
        let l = es.last();
        let c = children(es, source, link, id);
        let cp = children(p, source, link, id);
        if refers(l, source, link, id) {
            assert(c.drop_last() == cp);
        }
        if l.etype@ == source && l.id@ == a {
            assert(!stored(p, source, a)) by {
                if stored(p, source, a) {
                    let j = choose|j: int| 0 <= j < p.len() && #[trigger] p[j].etype@ == source && p[j].id@ == a;
                    assert(es[j] == p[j]);
                    assert(es[es.len() - 1] == l);
                }
            }
        }
        if stored(p, source, a) {
            let j = choose|j: int| 0 <= j < p.len() && #[trigger] p[j].etype@ == source && p[j].id@ == a;
            assert(es[j] == p[j]);
        }
        if stored(es, source, a) && !(l.etype@ == source && l.id@ == a) {
            let j = choose|j: int| 0 <= j < es.len() && #[trigger] es[j].etype@ == source && es[j].id@ == a;
            assert(p[j] == es[j]);
        }
        assert forall|k: int| 0 <= k < es.len() && #[trigger] es[k].id@ == a && refers(es[k], source, link, id)
            implies count_id(c, a) == 1 by {
            if k == es.len() - 1 {
                assert(es[k] == l);
            } else {
                assert(p[k] == es[k]);
                assert(stored(p, source, a));
            }
        }
    }
}

/// After reconciliation, an entity's derived list holds the id of each entity
/// that links to it, exactly once, whichever of the two was written first.
pub proof fn lemma_referrer_listed_once(s: EntityStore, q: int, ka: int, kb: int)
    requires
        s.wf(),
        s.updated,
        0 <= q < s.schema.links@.len(),
        0 <= ka < s.entities@.len(),
        0 <= kb < s.entities@.len(),
        s.entities@[kb].etype@ == s.schema.links@[q].parent@,
        refers(s.entities@[ka], s.schema.links@[q].source@, s.schema.links@[q].link@, s.entities@[kb].id@),
    ensures
        field_is_id_list(s.entities@[kb].fields@, s.schema.links@[q].field@,
            derived_ids(s.entities@, s.schema.links@[q], s.entities@[kb].id@)),
        count_id(derived_ids(s.entities@, s.schema.links@[q], s.entities@[kb].id@), s.entities@[ka].id@) == 1,
{
    let links = s.schema.links@;
    assert(resynced_upto(links, s.entities@, s.entities@[kb], s.entities@[kb], links.len() as int));
    lemma_children_count(s.entities@, links[q].source@, links[q].link@, s.entities@[kb].id@, s.entities@[ka].id@);
}

/// A write that links entity `a` to entity `b` through a linking field,
/// followed by a reconciliation, leaves `b` stored with a derived list that
/// names `a` exactly once, whether or not `b` was written before.
pub proof fn lemma_write_then_reconcile_lists_writer(s0: EntityStore, s1: EntityStore, s2: EntityStore,
    source: Seq<char>, a: Seq<char>, fields: Seq<(String, Value)>, q: int, b: Seq<char>)
    requires
        s0.wf(),
        s1.wf(),
        EntityStore::set_outcome(s0, s1, source, a, fields, Ok(())),
        s1.schema == s0.schema,
        EntityStore::reconciled_from(s1, s2),
        0 <= q < s0.schema.links@.len(),
        s0.schema.links@[q].source@ == source,
        field_links_to(fields, s0.schema.links@[q].link@, b),
    ensures
        exists|kb: int| 0 <= kb < s2.entities@.len() && #[trigger] s2.entities@[kb].etype@ == s0.schema.links@[q].parent@
            && s2.entities@[kb].id@ == b
            && field_is_id_list(s2.entities@[kb].fields@, s0.schema.links@[q].field@,
                derived_ids(s1.entities@, s0.schema.links@[q], b))
            && count_id(derived_ids(s1.entities@, s0.schema.links@[q], b), a) == 1,
{
    let links = s0.schema.links@;
    let d = links[q];
    assert(stored(s1.entities@, d.parent@, b));
    let kb = choose|kb: int| 0 <= kb < s1.entities@.len() && #[trigger] s1.entities@[kb].etype@ == d.parent@
        && s1.entities@[kb].id@ == b;
    let ka = choose|k: int| 0 <= k < s1.entities@.len()
        && #[trigger] s1.entities@[k].etype@ == source && s1.entities@[k].id@ == a
        && written(s1.schema.links@, s1.entities@, s1.entities@[k], fields);
    assert(!is_derived_of(links, source, d.link@)) by {
        if is_derived_of(links, source, d.link@) {
            let p = choose|p: int| 0 <= p < links.len() && #[trigger] links[p].parent@ == source && links[p].field@ == d.link@;
            assert(links[p].parent@ == links[q].source@);
        }
    }
    assert(get_field(s1.entities@[ka].fields@, d.link@) == get_field(fields, d.link@));
    assert(refers(s1.entities@[ka], d.source@, d.link@, b));
    assert(resynced_upto(links, s1.entities@, s1.entities@[kb], s2.entities@[kb], links.len() as int));
    lemma_children_count(s1.entities@, d.source@, d.link@, b, a);
    assert(s1.entities@[ka].id@ == a);
}

/// Removing entity `a` and then reconciling leaves no derived list that
/// names `a` through a linking field of its type.
pub proof fn lemma_remove_then_reconcile_unlists(s0: EntityStore, s1: EntityStore, s2: EntityStore,
    source: Seq<char>, a: Seq<char>, q: int, kb: int)
    requires
        s1.wf(),
        EntityStore::remove_outcome(s0, s1, source, a, Ok(())),
        EntityStore::reconciled_from(s1, s2),
        0 <= q < s1.schema.links@.len(),
        s1.schema.links@[q].source@ == source,
        0 <= kb < s2.entities@.len(),
        s2.entities@[kb].etype@ == s1.schema.links@[q].parent@,
    ensures
        field_is_id_list(s2.entities@[kb].fields@, s1.schema.links@[q].field@,
            derived_ids(s1.entities@, s1.schema.links@[q], s2.entities@[kb].id@)),
        count_id(derived_ids(s1.entities@, s1.schema.links@[q], s2.entities@[kb].id@), a) == 0,
{
    let links = s1.schema.links@;
    assert(resynced_upto(links, s1.entities@, s1.entities@[kb], s2.entities@[kb], links.len() as int));
    lemma_children_count(s1.entities@, links[q].source@, links[q].link@, s2.entities@[kb].id@, a);
}

/// A successful write keeps every other entity's reference through a linking
/// field: with the lemma above, a child written before its parent is still
/// listed once after the parent is written and the store reconciled.
pub proof fn lemma_write_keeps_references(s0: EntityStore, s1: EntityStore, etype: Seq<char>, id: Seq<char>,
    fields: Seq<(String, Value)>, ka: int, q: int, b: Seq<char>)
    requires
        s0.wf(),
        EntityStore::set_outcome(s0, s1, etype, id, fields, Ok(())),
        0 <= ka < s0.entities@.len(),
        0 <= q < s0.schema.links@.len(),
        !(s0.entities@[ka].etype@ == etype && s0.entities@[ka].id@ == id),
        refers(s0.entities@[ka], s0.schema.links@[q].source@, s0.schema.links@[q].link@, b),
    ensures
        s1.entities@[ka].id@ == s0.entities@[ka].id@,
        refers(s1.entities@[ka], s0.schema.links@[q].source@, s0.schema.links@[q].link@, b),
{
    let links = s0.schema.links@;
    let e = s0.entities@[ka];
    assert(!is_derived_of(links, e.etype@, links[q].link@)) by {
        if is_derived_of(links, e.etype@, links[q].link@) {
            let p = choose|p: int| 0 <= p < links.len() && #[trigger] links[p].parent@ == e.etype@ && links[p].field@ == links[q].link@;
            assert(links[p].parent@ == links[q].source@);
        }
    }
    assert(s1.entities@[ka].etype@ == e.etype@);
    assert(get_field(s1.entities@[ka].fields@, links[q].link@) == get_field(e.fields@, links[q].link@));
}

/// After reconciliation, no derived list holds the id of an entity that is no
/// longer stored under the linking type.
pub proof fn lemma_removed_not_listed(s: EntityStore, q: int, kb: int, a: Seq<char>)
    requires
        s.wf(),
        s.updated,
        0 <= q < s.schema.links@.len(),
        0 <= kb < s.entities@.len(),
        s.entities@[kb].etype@ == s.schema.links@[q].parent@,
        !stored(s.entities@, s.schema.links@[q].source@, a),
    ensures
        field_is_id_list(s.entities@[kb].fields@, s.schema.links@[q].field@,
            derived_ids(s.entities@, s.schema.links@[q], s.entities@[kb].id@)),
        count_id(derived_ids(s.entities@, s.schema.links@[q], s.entities@[kb].id@), a) == 0,
{
    let links = s.schema.links@;
    assert(resynced_upto(links, s.entities@, s.entities@[kb], s.entities@[kb], links.len() as int));
    lemma_children_count(s.entities@, links[q].source@, links[q].link@, s.entities@[kb].id@, a);
}

/// Reconciling twice with no write between leaves the store that one
/// reconciliation leaves.
pub proof fn lemma_reconcile_idempotent(s0: EntityStore, s1: EntityStore, s2: EntityStore)
    requires
        EntityStore::reconciled_from(s0, s1),
        EntityStore::reconciled_from(s1, s2),
    ensures
        s2 == s1,
{
}

/// Why a write or a removal was refused.
#[derive(Debug, PartialEq)]
pub enum StoreError {
    /// A non-nullable field has no value.
    MissingField { entity: String, field: String },
    /// A non-nullable field holds null.
    NullField { entity: String, field: String },
    /// No entity of this type and id is stored.
    NotFound { entity: String, id: String },
}

/// Whether every required field of `t` is present in `fields` and not null.
pub open spec fn required_present(t: EntityType, fields: Seq<(String, Value)>) -> bool {
    forall|j: int| 0 <= j < t.fields@.len() && is_required(#[trigger] t.fields@[j])
        ==> field_present(fields, t.fields@[j].name@)
}

/// Every required field of `t` before position `j` is present and not null:
/// the field at `j` is the first one that fails, in declaration order.
pub open spec fn first_failing(t: EntityType, fields: Seq<(String, Value)>, j: int) -> bool {
    forall|k: int| 0 <= k < j && is_required(#[trigger] t.fields@[k]) ==> field_present(fields, t.fields@[k].name@)
}

/// Whether the named field is present and not null.
pub open spec fn field_present(fields: Seq<(String, Value)>, name: Seq<char>) -> bool {
    get_field(fields, name) matches Some(v) && !(v is Null)
}

/// Whether the stored entities keep the keys of `before` at their positions.
pub open spec fn keys_kept(before: Seq<Entity>, after: Seq<Entity>) -> bool {
    &&& before.len() <= after.len()
    &&& forall|k: int| #![trigger after[k]] 0 <= k < before.len()
        ==> after[k].etype@ == before[k].etype@ && after[k].id@ == before[k].id@
}

proof fn lemma_keys_kept_stored(before: Seq<Entity>, after: Seq<Entity>)
    requires
        keys_kept(before, after),
    ensures
        forall|t: Seq<char>, i: Seq<char>| stored(before, t, i) ==> #[trigger] stored(after, t, i),
{
    assert forall|t: Seq<char>, i: Seq<char>| stored(before, t, i) implies #[trigger] stored(after, t, i) by {
        let k = choose|k: int| 0 <= k < before.len() && #[trigger] before[k].etype@ == t && before[k].id@ == i;
        assert(after[k].etype@ == t);
    }
}

/// `e` holds the written `fields`, with its derived fields computed from the
/// entities `es`; a derived field whose source is `e`'s own type is left out.
pub open spec fn written(links: Seq<DerivedLink>, es: Seq<Entity>, e: Entity, fields: Seq<(String, Value)>) -> bool {
    &&& forall|n: Seq<char>| !is_derived_of(links, e.etype@, n) ==> #[trigger] get_field(e.fields@, n) == get_field(fields, n)
    &&& forall|q: int| 0 <= q < links.len() && #[trigger] links[q].parent@ == e.etype@ && links[q].source@ != e.etype@
        ==> field_is_id_list(e.fields@, links[q].field@, derived_ids(es, links[q], e.id@))
}

/// Whether the named field holds a list that names `id`.
pub open spec fn field_lists(rec: Seq<(String, Value)>, name: Seq<char>, id: Seq<char>) -> bool {
    get_field(rec, name) matches Some(v) && v is List && links_to(v, id)
}

/// Whether the entity of this type and id is stored with a list field `name`
/// that names `child`.
pub open spec fn lists_child(es: Seq<Entity>, etype: Seq<char>, id: Seq<char>, name: Seq<char>, child: Seq<char>) -> bool {
    exists|k: int| 0 <= k < es.len() && #[trigger] es[k].etype@ == etype && es[k].id@ == id && field_lists(es[k].fields@, name, child)
}

proof fn lemma_list_links(vs: Vec<Value>, i: int, x: Seq<char>)
    requires
        0 <= i < vs@.len(),
        is_text(vs@[i], x),
    ensures
        links_to(Value::List(vs), x),
{
    let v = Value::List(vs);
    assert(v->List_0 == vs);
    assert(is_text(v->List_0@[i], x));
}

/// The entities of `before` keep, in `after`, every field that is not a
/// derived field of their type.
pub open spec fn plain_kept(links: Seq<DerivedLink>, before: Seq<Entity>, after: Seq<Entity>) -> bool {
    forall|k: int, n: Seq<char>| 0 <= k < before.len() && !is_derived_of(links, before[k].etype@, n)
        ==> #[trigger] get_field(after[k].fields@, n) == get_field(before[k].fields@, n)
}

/// Entity `e` is one that a write of `fields` to type `etype` pushes into: a
/// linking field of the write names it.
pub open spec fn pushed_target(links: Seq<DerivedLink>, etype: Seq<char>, fields: Seq<(String, Value)>, e: Entity) -> bool {
    exists|p: int| 0 <= p < links.len() && #[trigger] links[p].source@ == etype && links[p].parent@ == e.etype@
        && field_links_to(fields, links[p].link@, e.id@)
}

proof fn lemma_plain_kept_trans(links: Seq<DerivedLink>, a: Seq<Entity>, b: Seq<Entity>, c: Seq<Entity>)
    requires
        plain_kept(links, a, b),
        plain_kept(links, b, c),
        keys_kept(a, b),
    ensures
        plain_kept(links, a, c),
{
    assert forall|k: int, n: Seq<char>| 0 <= k < a.len() && !is_derived_of(links, a[k].etype@, n)
        implies #[trigger] get_field(c[k].fields@, n) == get_field(a[k].fields@, n) by {
        assert(b[k].etype@ == a[k].etype@);
        assert(get_field(b[k].fields@, n) == get_field(a[k].fields@, n));
    }
}

/// The list `s` with every text `id` left out, the rest in order.
pub open spec fn without(s: Seq<Value>, id: Seq<char>) -> Seq<Value>
    decreases s.len(),
{
    if s.len() == 0 {
        s
    } else if is_text(s.last(), id) {
        without(s.drop_last(), id)
    } else {
        without(s.drop_last(), id).push(s.last())
    }
}

proof fn lemma_without_idempotent(s: Seq<Value>, id: Seq<char>)
    ensures
        without(without(s, id), id) == without(s, id),
    decreases s.len(),
{
    if s.len() > 0 {
        lemma_without_idempotent(s.drop_last(), id);
        let w = without(s.drop_last(), id);
        if !is_text(s.last(), id) {
            assert(w.push(s.last()).drop_last() =~= w);
        }
    }
}

/// A field value is unchanged, or is a list that lost the texts `id` and kept
/// the rest in order.
pub open spec fn field_scrubbed(o: Option<Value>, n: Option<Value>, id: Seq<char>) -> bool {
    n == o || (o matches Some(ov) && n matches Some(nv) && ov is List && nv is List
        && nv->List_0@ == without(ov->List_0@, id))
}

/// Every field of the entities of `before` is, in `after`, unchanged or
/// scrubbed of `id`.
pub open spec fn all_scrubbed(before: Seq<Entity>, after: Seq<Entity>, id: Seq<char>) -> bool {
    forall|k: int, n: Seq<char>| 0 <= k < before.len()
        ==> field_scrubbed(get_field(before[k].fields@, n), #[trigger] get_field(after[k].fields@, n), id)
}

proof fn lemma_scrubbed_trans(a: Seq<Entity>, b: Seq<Entity>, c: Seq<Entity>, id: Seq<char>)
    requires
        all_scrubbed(a, b, id),
        all_scrubbed(b, c, id),
        a.len() <= b.len(),
    ensures
        all_scrubbed(a, c, id),
{
    assert forall|k: int, n: Seq<char>| 0 <= k < a.len()
        implies field_scrubbed(get_field(a[k].fields@, n), #[trigger] get_field(c[k].fields@, n), id) by {
        let o = get_field(a[k].fields@, n);
        let m = get_field(b[k].fields@, n);
        let f = get_field(c[k].fields@, n);
        assert(field_scrubbed(o, m, id));
        assert(field_scrubbed(m, f, id));
        if m != o && f != m {
            lemma_without_idempotent(o->0->List_0@, id);
        }
    }
}

/// Whether some entity of this type is stored.
pub open spec fn type_stored(es: Seq<Entity>, etype: Seq<char>) -> bool {
    exists|k: int| 0 <= k < es.len() && #[trigger] es[k].etype@ == etype
}

/// Whether the named field is present and renders as `text`.
pub open spec fn field_renders(rec: Seq<(String, Value)>, name: Seq<char>, text: Seq<char>) -> bool {
    get_field(rec, name) matches Some(v) && render(v) == text
}

/// What `field_equals` reports about the entities `es`.
pub open spec fn field_check_holds(es: Seq<Entity>, etype: Seq<char>, id: Seq<char>, field: Seq<char>,
    expected: Seq<char>, r: FieldCheck) -> bool {
    match r {
        FieldCheck::NoEntityType => !type_stored(es, etype),
        FieldCheck::NoEntity => type_stored(es, etype)
            && !stored(es, etype, id),
        FieldCheck::NoField => exists|k: int| 0 <= k < es.len()
            && #[trigger] es[k].etype@ == etype && es[k].id@ == id
            && get_field(es[k].fields@, field) is None,
        FieldCheck::Differs { actual } => exists|k: int| 0 <= k < es.len()
            && #[trigger] es[k].etype@ == etype && es[k].id@ == id
            && field_renders(es[k].fields@, field, actual@) && actual@ != expected,
        FieldCheck::Equal => exists|k: int| 0 <= k < es.len()
            && #[trigger] es[k].etype@ == etype && es[k].id@ == id
            && field_renders(es[k].fields@, field, expected),
    }
}

/// What a field-equality query found.
#[derive(Debug, PartialEq)]
pub enum FieldCheck {
    /// The field renders as the expected text.
    Equal,
    /// No entity of the type is stored.
    NoEntityType,
    /// No entity of the type has the id.
    NoEntity,
    /// The entity has no field of the name.
    NoField,
    /// The field renders as `actual` instead.
    Differs { actual: String },
}

/// The entity store: the schema index, the stored entities in insertion order,
/// and whether the derived fields are known to be in step.
pub struct EntityStore {
    pub schema: Schema,
    pub entities: Vec<Entity>,
    pub updated: bool,
}

impl EntityStore {
    pub open spec fn wf(&self) -> bool {
        &&& self.schema.wf()
        &&& keys_unique(self.entities@)
        &&& self.updated ==> resynced(self.schema.links@, self.entities@, self.entities@)
    }

    /// An empty store over a schema.
    pub fn new(schema: Schema) -> (r: EntityStore)
        requires
            schema.wf(),
        ensures
            r.wf(),
            r.schema == schema,
            r.entities@.len() == 0,
            r.updated,
    {
        EntityStore { schema, entities: Vec::new(), updated: true }
    }

    /// The position of the entity of this type and id.
    pub fn find_entity(&self, etype: &str, id: &str) -> (r: Option<usize>)
        ensures
            match r {
                Some(k) => k < self.entities@.len() && self.entities@[k as int].etype@ == etype@
                    && self.entities@[k as int].id@ == id@,
                None => !stored(self.entities@, etype@, id@),
            },
    {
        let mut k: usize = 0;
        while k < self.entities.len()
            invariant
                k <= self.entities@.len(),
                forall|j: int| 0 <= j < k ==> #[trigger] self.entities@[j].etype@ != etype@ || self.entities@[j].id@ != id@,
            decreases self.entities@.len() - k,
        {
            if same_text(self.entities[k].etype.as_str(), etype) && same_text(self.entities[k].id.as_str(), id) {
                return Some(k);
            }
            k = k + 1;
        }
        None
    }

    /// Adds `child` to the derived list that link `q` gives the entity
    /// `target` of its parent type, creating the entity or the list where
    /// absent.
    fn push_child(&mut self, q: usize, target: &String, child: &String)
        requires
            old(self).wf(),
            q < old(self).schema.links@.len(),
        ensures
            final(self).schema == old(self).schema,
            keys_unique(final(self).entities@),
            !final(self).updated,
            keys_kept(old(self).entities@, final(self).entities@),
            stored(final(self).entities@, old(self).schema.links@[q as int].parent@, target@),
            forall|k: int| #![trigger final(self).entities@[k]] old(self).entities@.len() <= k < final(self).entities@.len()
                ==> final(self).entities@[k].etype@ == old(self).schema.links@[q as int].parent@
                    && final(self).entities@[k].id@ == target@,
            lists_child(final(self).entities@, old(self).schema.links@[q as int].parent@, target@,
                old(self).schema.links@[q as int].field@, child@),
            forall|t: Seq<char>, i: Seq<char>, n: Seq<char>, x: Seq<char>|
                lists_child(old(self).entities@, t, i, n, x) ==> #[trigger] lists_child(final(self).entities@, t, i, n, x),
            plain_kept(old(self).schema.links@, old(self).entities@, final(self).entities@),
    {
        self.updated = false;
        let parent = self.schema.links[q].parent.clone();
        let field = self.schema.links[q].field.clone();
        match self.find_entity(parent.as_str(), target.as_str()) {
            None => {
                let mut ids: Vec<Value> = Vec::new();
                ids.push(Value::String(child.clone()));
                assert(is_text(ids@[0], child@));
                let ghost ids_copy = ids;
                let mut fields: Record = Vec::new();
                fields.push((field, Value::List(ids)));
                let ghost before = self.entities@;
                let ghost new_fields = fields@;
                assert(new_fields.drop_last() =~= Seq::<(String, Value)>::empty());
                proof { lemma_list_links(ids_copy, 0, child@); }
                assert(field_lists(new_fields, field@, child@));
                self.entities.push(Entity { etype: parent, id: target.clone(), fields });
                proof {
                    let es = self.entities@;
                    assert(es[before.len() as int].etype@ == parent@);
                    assert(es[before.len() as int].fields@ == new_fields);
                    assert(lists_child(es, parent@, target@, field@, child@));
                    assert forall|t: Seq<char>, i: Seq<char>, n: Seq<char>, x: Seq<char>|
                        lists_child(before, t, i, n, x) implies #[trigger] lists_child(es, t, i, n, x) by {
                        let w = choose|w: int| 0 <= w < before.len() && #[trigger] before[w].etype@ == t && before[w].id@ == i
                            && field_lists(before[w].fields@, n, x);
                        assert(es[w] == before[w]);
                    }
                    assert forall|w: int, n: Seq<char>| 0 <= w < before.len() && !is_derived_of(self.schema.links@, before[w].etype@, n)
                        implies #[trigger] get_field(es[w].fields@, n) == get_field(before[w].fields@, n) by {
                        assert(es[w] == before[w]);
                    }
                    assert forall|a: int, b: int| 0 <= a < es.len() && 0 <= b < es.len() && a != b
                        implies #[trigger] es[a].etype@ != #[trigger] es[b].etype@ || es[a].id@ != es[b].id@ by {
                        if a < before.len() && b < before.len() {
                            assert(es[a] == before[a] && es[b] == before[b]);
                        } else if a < before.len() {
                            assert(es[a] == before[a]);
                        } else {
                            assert(es[b] == before[b]);
                        }
                    }
                }
            },
            Some(k) => {
                let ghost before = self.entities@;
                let mut rec: Record = Vec::new();
                std::mem::swap(&mut rec, &mut self.entities[k].fields);
                let ghost old_rec = rec@;
                match find_field(&rec, field.as_str()) {
                    Some(j) => {
                        let ghost old_v = rec@[j as int].1;
                        let (name, v) = rec.remove(j);
                        let nv = match v {
                            Value::List(mut vs) => {
                                let ghost old_list = vs;
                                assert(old_v == Value::List(old_list));
                                let present = value_links_to_list(&vs, child.as_str());
                                if !present {
                                    vs.push(Value::String(child.clone()));
                                    assert(is_text(vs@[old_list@.len() as int], child@));
                                    proof { lemma_list_links(vs, old_list@.len() as int, child@); }
                                } else {
                                    proof {
                                        let w = choose|w: int| 0 <= w < vs@.len() && is_text(#[trigger] vs@[w], child@);
                                        lemma_list_links(vs, w, child@);
                                    }
                                }
                                proof {
                                    assert forall|x: Seq<char>| links_to(old_v, x) implies links_to(Value::List(vs), x) by {
                                        assert(old_v->List_0 == old_list);
                                        let w = choose|w: int| 0 <= w < old_list@.len() && is_text(#[trigger] old_list@[w], x);
                                        assert(vs@[w] == old_list@[w]);
                                        lemma_list_links(vs, w, x);
                                    }
                                }
                                Value::List(vs)
                            },
                            _ => {
                                let mut ids: Vec<Value> = Vec::new();
                                ids.push(Value::String(child.clone()));
                                assert(is_text(ids@[0], child@));
                                proof { lemma_list_links(ids, 0, child@); }
                                Value::List(ids)
                            },
                        };
                        assert(nv is List && links_to(nv, child@));
                        assert(forall|x: Seq<char>| old_v is List && links_to(old_v, x) ==> links_to(nv, x));
                        rec.insert(j, (name, nv));
                        proof {
                            assert(rec@ =~= old_rec.update(j as int, (name, nv)));
                            lemma_get_after_update(old_rec, j as int, name, nv);
                            assert(field_lists(rec@, field@, child@));
                            assert forall|x: Seq<char>| field_lists(old_rec, field@, x) implies field_lists(rec@, field@, x) by {
                                assert(old_v is List);
                            }
                        }
                    },
                    None => {
                        let mut ids: Vec<Value> = Vec::new();
                        ids.push(Value::String(child.clone()));
                        assert(is_text(ids@[0], child@));
                        proof { lemma_list_links(ids, 0, child@); }
                        rec.push((field, Value::List(ids)));
                        assert(rec@.drop_last() =~= old_rec);
                    },
                }
                proof {
                    assert(field_lists(rec@, field@, child@));
                    assert(forall|n: Seq<char>| n != field@ ==> #[trigger] get_field(rec@, n) == get_field(old_rec, n));
                    assert(forall|x: Seq<char>| field_lists(old_rec, field@, x) ==> field_lists(rec@, field@, x));
                }
                std::mem::swap(&mut rec, &mut self.entities[k].fields);
                proof {
                    let es = self.entities@;
                    assert(es[k as int].etype@ == parent@);
                    assert forall|a: int, b: int| 0 <= a < es.len() && 0 <= b < es.len() && a != b
                        implies #[trigger] es[a].etype@ != #[trigger] es[b].etype@ || es[a].id@ != es[b].id@ by {
                        assert(before[a].etype@ != before[b].etype@ || before[a].id@ != before[b].id@);
                    }
                    assert(lists_child(es, parent@, target@, field@, child@));
                    assert(is_derived_of(self.schema.links@, parent@, field@)) by {
                        assert(self.schema.links@[q as int].parent@ == parent@);
                    }
                    assert forall|w: int, n: Seq<char>| 0 <= w < before.len() && !is_derived_of(self.schema.links@, before[w].etype@, n)
                        implies #[trigger] get_field(es[w].fields@, n) == get_field(before[w].fields@, n) by {
                        if w == k {
                            assert(before[w].fields@ == old_rec);
                            assert(n != field@);
                        } else {
                            assert(es[w] == before[w]);
                        }
                    }
                    assert forall|t: Seq<char>, i: Seq<char>, n: Seq<char>, x: Seq<char>|
                        lists_child(before, t, i, n, x) implies #[trigger] lists_child(es, t, i, n, x) by {
                        let w = choose|w: int| 0 <= w < before.len() && #[trigger] before[w].etype@ == t && before[w].id@ == i
                            && field_lists(before[w].fields@, n, x);
                        if w == k {
                            assert(before[w].fields@ == old_rec);
                            if n != field@ {
                                assert(get_field(es[w].fields@, n) == get_field(old_rec, n));
                            }
                        } else {
                            assert(es[w] == before[w]);
                        }
                    }
                }
            },
        }
    }

    /// What `set` reports and leaves.
    pub open spec fn set_outcome(before: EntityStore, after: EntityStore, etype: Seq<char>, id: Seq<char>,
        fields: Seq<(String, Value)>, r: Result<(), StoreError>) -> bool {
        match r {
            Ok(()) => {
                &&& exists|i: int| 0 <= i < before.schema.types@.len()
                    && #[trigger] before.schema.types@[i].name@ == etype
                    && required_present(before.schema.types@[i], fields)
                &&& exists|k: int| 0 <= k < after.entities@.len()
                    && #[trigger] after.entities@[k].etype@ == etype && after.entities@[k].id@ == id
                    && written(after.schema.links@, after.entities@, after.entities@[k], fields)
                &&& forall|q: int, t: Seq<char>| 0 <= q < before.schema.links@.len()
                    && before.schema.links@[q].source@ == etype
                    && #[trigger] field_links_to(fields, before.schema.links@[q].link@, t)
                    ==> stored(after.entities@, before.schema.links@[q].parent@, t)
                        && (!(before.schema.links@[q].parent@ == etype && t == id) ==> lists_child(after.entities@,
                            before.schema.links@[q].parent@, t, before.schema.links@[q].field@, id))
                &&& forall|t: Seq<char>, i: Seq<char>| stored(before.entities@, t, i) ==> #[trigger] stored(after.entities@, t, i)
                &&& !after.updated
                &&& keys_kept(before.entities@, after.entities@)
                &&& forall|k: int, n: Seq<char>| 0 <= k < before.entities@.len()
                    && !(before.entities@[k].etype@ == etype && before.entities@[k].id@ == id)
                    && !is_derived_of(before.schema.links@, before.entities@[k].etype@, n)
                    ==> #[trigger] get_field(after.entities@[k].fields@, n) == get_field(before.entities@[k].fields@, n)
                &&& forall|k: int| before.entities@.len() <= k < after.entities@.len()
                    ==> (#[trigger] after.entities@[k].etype@ == etype && after.entities@[k].id@ == id)
                        || pushed_target(before.schema.links@, etype, fields, after.entities@[k])
            },
            Err(StoreError::MissingField { entity, field }) => entity@ == etype && get_field(fields, field@) is None
                && exists|i: int, j: int| 0 <= i < before.schema.types@.len() && before.schema.types@[i].name@ == etype
                    && 0 <= j < before.schema.types@[i].fields@.len()
                    && is_required(#[trigger] before.schema.types@[i].fields@[j])
                    && before.schema.types@[i].fields@[j].name@ == field@
                    && first_failing(before.schema.types@[i], fields, j),
            Err(StoreError::NullField { entity, field }) => entity@ == etype && get_field(fields, field@) == Some(Value::Null)
                && exists|i: int, j: int| 0 <= i < before.schema.types@.len() && before.schema.types@[i].name@ == etype
                    && 0 <= j < before.schema.types@[i].fields@.len()
                    && is_required(#[trigger] before.schema.types@[i].fields@[j])
                    && before.schema.types@[i].fields@[j].name@ == field@
                    && first_failing(before.schema.types@[i], fields, j),
            Err(StoreError::NotFound { .. }) => false,
        }
    }

    /// Checks that every required field of type `ti` is present and not null.
    fn check_required(&self, ti: usize, etype: &String, fields: &Record) -> (r: Result<(), StoreError>)
        requires
            ti < self.schema.types@.len(),
        ensures
            match r {
                Ok(()) => required_present(self.schema.types@[ti as int], fields@),
                Err(StoreError::MissingField { entity, field }) => entity@ == etype@ && exists|j: int|
                    0 <= j < self.schema.types@[ti as int].fields@.len()
                        && is_required(#[trigger] self.schema.types@[ti as int].fields@[j])
                        && self.schema.types@[ti as int].fields@[j].name@ == field@ && get_field(fields@, field@) is None
                        && first_failing(self.schema.types@[ti as int], fields@, j),
                Err(StoreError::NullField { entity, field }) => entity@ == etype@ && exists|j: int|
                    0 <= j < self.schema.types@[ti as int].fields@.len()
                        && is_required(#[trigger] self.schema.types@[ti as int].fields@[j])
                        && self.schema.types@[ti as int].fields@[j].name@ == field@ && get_field(fields@, field@) == Some(Value::Null)
                        && first_failing(self.schema.types@[ti as int], fields@, j),
                Err(_) => false,
            },
    {
        let t = &self.schema.types[ti];
        let mut j: usize = 0;
        while j < t.fields.len()
            invariant
                ti < self.schema.types@.len(),
                *t == self.schema.types@[ti as int],
                j <= t.fields@.len(),
                forall|i: int| 0 <= i < j && is_required(#[trigger] t.fields@[i]) ==> field_present(fields@, t.fields@[i].name@),
            decreases t.fields@.len() - j,
        {
            let f = &t.fields[j];
            if f.non_null && f.derived_from.is_none() {
                match find_field(fields, f.name.as_str()) {
                    None => {
                        return Err(StoreError::MissingField { entity: etype.clone(), field: f.name.clone() });
                    },
                    Some(k) => {
                        if let Value::Null = &fields[k].1 {
                            return Err(StoreError::NullField { entity: etype.clone(), field: f.name.clone() });
                        }
                    },
                }
            }
            j = j + 1;
        }
        Ok(())
    }

    /// Stores `fields` as the entity `id` of type `etype`.
    ///
    /// Every required field of the type must be present and not null. Each
    /// entity that a linking field of the write names gets `id` in its derived
    /// list (and is created where absent), and the written entity's own derived
    /// fields are computed from the store. The schema must declare the type:
    /// a write to an undeclared type is a configuration fault that callers
    /// rule out with `Schema::find_type`.
    pub fn set(&mut self, etype: String, id: String, fields: Record) -> (r: Result<(), StoreError>)
        requires
            old(self).wf(),
            old(self).schema.declares(etype@),
        ensures
            final(self).wf(),
            final(self).schema == old(self).schema,
            Self::set_outcome(*old(self), *final(self), etype@, id@, fields@, r),
            r is Err ==> *final(self) == *old(self),
    {
        let ti = self.schema.position_of(etype.as_str());
        match self.check_required(ti, &etype, &fields) {
            Err(e) => {
                return Err(e);
            },
            Ok(()) => {},
        }
        let ghost start = self.entities@;
        self.updated = false;
        let m = self.schema.links.len();
        let mut q: usize = 0;
        while q < m
            invariant
                self.schema == old(self).schema,
                self.schema.wf(),
                m == self.schema.links@.len(),
                q <= m,
                keys_unique(self.entities@),
                !self.updated,
                keys_kept(start, self.entities@),
                start == old(self).entities@,
                plain_kept(self.schema.links@, start, self.entities@),
                forall|k: int| start.len() <= k < self.entities@.len()
                    ==> #[trigger] pushed_target(self.schema.links@, etype@, fields@, self.entities@[k]),
                forall|p: int, t: Seq<char>| 0 <= p < q && self.schema.links@[p].source@ == etype@
                    && #[trigger] field_links_to(fields@, self.schema.links@[p].link@, t)
                    ==> stored(self.entities@, self.schema.links@[p].parent@, t)
                        && lists_child(self.entities@, self.schema.links@[p].parent@, t, self.schema.links@[p].field@, id@),
            decreases m - q,
        {
            if same_text(self.schema.links[q].source.as_str(), etype.as_str()) {
                match find_field(&fields, self.schema.links[q].link.as_str()) {
                    Some(k) => {
                        match &fields[k].1 {
                            Value::String(t) => {
                                let ghost mid = self.entities@;
                                self.push_child(q, t, &id);
                                proof {
                                    lemma_keys_kept_stored(mid, self.entities@);
                                    assert(keys_kept(start, self.entities@));
                                    lemma_plain_kept_trans(self.schema.links@, start, mid, self.entities@);
                                    assert(field_links_to(fields@, self.schema.links@[q as int].link@, t@));
                                    assert forall|w: int| start.len() <= w < self.entities@.len()
                                        implies #[trigger] pushed_target(self.schema.links@, etype@, fields@, self.entities@[w]) by {
                                        if w >= mid.len() {
                                            assert(self.schema.links@[q as int].source@ == etype@);
                                        } else {
                                            assert(self.entities@[w].etype@ == mid[w].etype@ && self.entities@[w].id@ == mid[w].id@);
                                            assert(pushed_target(self.schema.links@, etype@, fields@, mid[w]));
                                            let p = choose|p: int| 0 <= p < self.schema.links@.len() && #[trigger] self.schema.links@[p].source@ == etype@
                                                && self.schema.links@[p].parent@ == mid[w].etype@
                                                && field_links_to(fields@, self.schema.links@[p].link@, mid[w].id@);
                                            assert(self.schema.links@[p].source@ == etype@);
                                        }
                                    }
                                }
                            },
                            Value::List(vs) => {
                                let mut i: usize = 0;
                                while i < vs.len()
                                    invariant
                                        self.schema == old(self).schema,
                                        self.schema.wf(),
                                        q < m,
                                        m == self.schema.links@.len(),
                                        keys_unique(self.entities@),
                                        !self.updated,
                                        keys_kept(start, self.entities@),
                                        start == old(self).entities@,
                                        fields@[k as int].1 == Value::List(*vs),
                                        get_field(fields@, self.schema.links@[q as int].link@) == Some(fields@[k as int].1),
                                        self.schema.links@[q as int].source@ == etype@,
                                        plain_kept(self.schema.links@, start, self.entities@),
                                        forall|k: int| start.len() <= k < self.entities@.len()
                                            ==> #[trigger] pushed_target(self.schema.links@, etype@, fields@, self.entities@[k]),
                                        i <= vs@.len(),
                                        forall|p: int, t: Seq<char>| 0 <= p < q && self.schema.links@[p].source@ == etype@
                                            && #[trigger] field_links_to(fields@, self.schema.links@[p].link@, t)
                                            ==> stored(self.entities@, self.schema.links@[p].parent@, t)
                                                && lists_child(self.entities@, self.schema.links@[p].parent@, t, self.schema.links@[p].field@, id@),
                                        forall|x: int, t: Seq<char>| 0 <= x < i && #[trigger] is_text(vs@[x], t)
                                            ==> stored(self.entities@, self.schema.links@[q as int].parent@, t)
                                                && lists_child(self.entities@, self.schema.links@[q as int].parent@, t,
                                                    self.schema.links@[q as int].field@, id@),
                                    decreases vs@.len() - i,
                                {
                                    match &vs[i] {
                                        Value::String(t) => {
                                            let ghost mid = self.entities@;
                                            self.push_child(q, t, &id);
                                            proof {
                                                lemma_keys_kept_stored(mid, self.entities@);
                                                assert(keys_kept(start, self.entities@));
                                                lemma_plain_kept_trans(self.schema.links@, start, mid, self.entities@);
                                                assert(is_text(vs@[i as int], t@));
                                                lemma_list_links(*vs, i as int, t@);
                                                assert(field_links_to(fields@, self.schema.links@[q as int].link@, t@));
                                                assert forall|w: int| start.len() <= w < self.entities@.len()
                                                    implies #[trigger] pushed_target(self.schema.links@, etype@, fields@, self.entities@[w]) by {
                                                    if w >= mid.len() {
                                                        assert(self.schema.links@[q as int].source@ == etype@);
                                                    } else {
                                                        assert(self.entities@[w].etype@ == mid[w].etype@ && self.entities@[w].id@ == mid[w].id@);
                                                        assert(pushed_target(self.schema.links@, etype@, fields@, mid[w]));
                                                        let p = choose|p: int| 0 <= p < self.schema.links@.len() && #[trigger] self.schema.links@[p].source@ == etype@
                                                            && self.schema.links@[p].parent@ == mid[w].etype@
                                                            && field_links_to(fields@, self.schema.links@[p].link@, mid[w].id@);
                                                        assert(self.schema.links@[p].source@ == etype@);
                                                    }
                                                }
                                            }
                                        },
                                        _ => {},
                                    }
                                    i = i + 1;
                                }
                            },
                            _ => {},
                        }
                    },
                    None => {},
                }
            }
            q = q + 1;
        }
        let ghost pushed = self.entities@;
        let ghost written_fields = fields@;
        let ghost mut kk: int = 0;
        let ghost etype_v = etype@;
        let ghost id_v = id@;
        let mut rec = fields;
        let mut q: usize = 0;
        while q < m
            invariant
                self.schema == old(self).schema,
                self.schema.wf(),
                m == self.schema.links@.len(),
                q <= m,
                self.entities@ == pushed,
                forall|n: Seq<char>| !is_derived_of(self.schema.links@, etype@, n)
                    ==> #[trigger] get_field(rec@, n) == get_field(fields@, n),
                forall|p: int| 0 <= p < q && #[trigger] self.schema.links@[p].parent@ == etype@
                    ==> field_is_id_list(rec@, self.schema.links@[p].field@, derived_ids(pushed, self.schema.links@[p], id@)),
            decreases m - q,
        {
            let d = &self.schema.links[q];
            if same_text(d.parent.as_str(), etype.as_str()) {
                let v = children_of(&self.entities, d.source.as_str(), d.link.as_str(), id.as_str());
                let field = d.field.clone();
                put_field(&mut rec, &field, v);
                proof {
                    let links = self.schema.links@;
                    assert(is_derived_of(links, etype@, field@));
                    assert forall|p: int| 0 <= p < q + 1 && #[trigger] links[p].parent@ == etype@
                        implies field_is_id_list(rec@, links[p].field@, derived_ids(pushed, links[p], id@)) by {
                        if p != q {
                            assert(links[p].field@ != field@);
                        }
                    }
                }
            }
            q = q + 1;
        }
        match self.find_entity(etype.as_str(), id.as_str()) {
            Some(k) => {
                self.entities.set(k, Entity { etype, id, fields: rec });
                proof {
                    kk = k as int;
                    let es = self.entities@;
                    let links = self.schema.links@;
                    assert forall|a: int, b: int| 0 <= a < es.len() && 0 <= b < es.len() && a != b
                        implies #[trigger] es[a].etype@ != #[trigger] es[b].etype@ || es[a].id@ != es[b].id@ by {
                        assert(pushed[a].etype@ != pushed[b].etype@ || pushed[a].id@ != pushed[b].id@);
                    }
                    assert forall|p: int| 0 <= p < links.len() && #[trigger] links[p].parent@ == es[k as int].etype@
                        && links[p].source@ != es[k as int].etype@
                        implies field_is_id_list(es[k as int].fields@, links[p].field@, derived_ids(es, links[p], es[k as int].id@)) by {
                        assert forall|j: int| 0 <= j < es.len() implies (#[trigger] es[j]).id@ == pushed[j].id@
                            && refers(es[j], links[p].source@, links[p].link@, es[k as int].id@)
                                == refers(pushed[j], links[p].source@, links[p].link@, es[k as int].id@) by {
                            if j != k {
                                assert(es[j] == pushed[j]);
                            }
                        }
                        lemma_children_same(es, pushed, links[p].source@, links[p].link@, es[k as int].id@);
                    }
                    assert(keys_kept(pushed, es));
                    lemma_keys_kept_stored(pushed, es);
                    lemma_keys_kept_stored(start, pushed);
                }
            },
            None => {
                self.entities.push(Entity { etype, id, fields: rec });
                proof {
                    kk = pushed.len() as int;
                    let es = self.entities@;
                    let links = self.schema.links@;
                    let k = pushed.len() as int;
                    assert(es.drop_last() =~= pushed);
                    assert forall|a: int, b: int| 0 <= a < es.len() && 0 <= b < es.len() && a != b
                        implies #[trigger] es[a].etype@ != #[trigger] es[b].etype@ || es[a].id@ != es[b].id@ by {
                        if a < k && b < k {
                            assert(es[a] == pushed[a] && es[b] == pushed[b]);
                        } else if a < k {
                            assert(es[a] == pushed[a]);
                        } else {
                            assert(es[b] == pushed[b]);
                        }
                    }
                    assert forall|p: int| 0 <= p < links.len() && #[trigger] links[p].parent@ == es[k].etype@
                        && links[p].source@ != es[k].etype@
                        implies field_is_id_list(es[k].fields@, links[p].field@, derived_ids(es, links[p], es[k].id@)) by {
                        assert(!refers(es.last(), links[p].source@, links[p].link@, es[k].id@));
                    }
                    assert(keys_kept(pushed, es));
                    lemma_keys_kept_stored(pushed, es);
                    lemma_keys_kept_stored(start, pushed);
                }
            },
        }
        proof {
            let es = self.entities@;
            let links = self.schema.links@;
            assert(self.schema.types@[ti as int].name@ == etype_v);
            assert(0 <= kk < es.len() && es[kk].etype@ == etype_v && es[kk].id@ == id_v);
            lemma_keys_kept_stored(start, pushed);
            assert(keys_kept(start, es)) by {
                assert forall|w: int| #![trigger es[w]] 0 <= w < start.len() implies es[w].etype@ == start[w].etype@ && es[w].id@ == start[w].id@ by {
                    assert(pushed[w].etype@ == start[w].etype@);
                    if w != kk { assert(es[w] == pushed[w]); }
                }
            }
            assert forall|w: int, n: Seq<char>| 0 <= w < start.len()
                && !(start[w].etype@ == etype_v && start[w].id@ == id_v)
                && !is_derived_of(links, start[w].etype@, n)
                implies #[trigger] get_field(es[w].fields@, n) == get_field(start[w].fields@, n) by {
                assert(pushed[w].etype@ == start[w].etype@ && pushed[w].id@ == start[w].id@);
                assert(w != kk);
                assert(es[w] == pushed[w]);
                assert(get_field(pushed[w].fields@, n) == get_field(start[w].fields@, n));
            }
            assert forall|w: int| start.len() <= w < es.len()
                implies (#[trigger] es[w].etype@ == etype_v && es[w].id@ == id_v)
                    || pushed_target(links, etype_v, written_fields, es[w]) by {
                if w != kk {
                    assert(w < pushed.len());
                    assert(es[w] == pushed[w]);
                }
            }
            assert(written(links, es, es[kk], written_fields));
            assert forall|q: int, t: Seq<char>| 0 <= q < links.len() && links[q].source@ == etype_v
                && #[trigger] field_links_to(written_fields, links[q].link@, t)
                implies stored(es, links[q].parent@, t)
                    && (!(links[q].parent@ == etype_v && t == id_v) ==> lists_child(es, links[q].parent@, t, links[q].field@, id_v)) by {
                assert(stored(pushed, links[q].parent@, t));
                if !(links[q].parent@ == etype_v && t == id_v) {
                    assert(lists_child(pushed, links[q].parent@, t, links[q].field@, id_v));
                    let w = choose|w: int| 0 <= w < pushed.len() && #[trigger] pushed[w].etype@ == links[q].parent@
                        && pushed[w].id@ == t && field_lists(pushed[w].fields@, links[q].field@, id_v);
                    assert(w != kk);
                    assert(es[w] == pushed[w]);
                }
            }
        }
        Ok(())
    }

    /// Takes `child` out of the derived list that link `q` gives the entity
    /// `target` of its parent type, where that entity and list exist.
    fn scrub_child(&mut self, q: usize, target: &String, child: &String)
        requires
            old(self).wf(),
            q < old(self).schema.links@.len(),
        ensures
            final(self).schema == old(self).schema,
            keys_unique(final(self).entities@),
            final(self).updated == old(self).updated,
            keys_kept(old(self).entities@, final(self).entities@),
            final(self).entities@.len() == old(self).entities@.len(),
            !lists_child(final(self).entities@, old(self).schema.links@[q as int].parent@, target@,
                old(self).schema.links@[q as int].field@, child@),
            forall|t: Seq<char>, i: Seq<char>, n: Seq<char>, x: Seq<char>|
                #[trigger] lists_child(final(self).entities@, t, i, n, x) ==> lists_child(old(self).entities@, t, i, n, x),
            plain_kept(old(self).schema.links@, old(self).entities@, final(self).entities@),
            all_scrubbed(old(self).entities@, final(self).entities@, child@),
    {
        let parent = self.schema.links[q].parent.clone();
        let field = self.schema.links[q].field.clone();
        match self.find_entity(parent.as_str(), target.as_str()) {
            None => {},
            Some(k) => {
                let ghost before = self.entities@;
                let mut rec: Record = Vec::new();
                std::mem::swap(&mut rec, &mut self.entities[k].fields);
                let ghost old_rec = rec@;
                match find_field(&rec, field.as_str()) {
                    Some(j) => {
                        let ghost old_v = rec@[j as int].1;
                        let (name, v) = rec.remove(j);
                        let nv = match v {
                            Value::List(mut vs) => {
                                let ghost orig = vs;
                                assert(old_v == Value::List(orig));
                                let mut kept: Vec<Value> = Vec::new();
                                let ghost mut c: int = 0;
                                while vs.len() > 0
                                    invariant
                                        0 <= c <= orig@.len(),
                                        vs@ == orig@.skip(c),
                                        forall|i: int| 0 <= i < kept@.len() ==> !is_text(#[trigger] kept@[i], child@)
                                            && exists|j: int| 0 <= j < c && kept@[i] == #[trigger] orig@[j],
                                        kept@ == without(orig@.take(c), child@),
                                    decreases vs@.len(),
                                {
                                    let ghost old_kept = kept@;
                                    let x = vs.remove(0);
                                    assert(x == orig@[c]);
                                    let drop = match &x {
                                        Value::String(s) => same_text(s.as_str(), child.as_str()),
                                        _ => false,
                                    };
                                    if !drop {
                                        kept.push(x);
                                    }
                                    proof {
                                        assert forall|i: int| 0 <= i < kept@.len() implies !is_text(#[trigger] kept@[i], child@)
                                            && exists|j: int| 0 <= j < c + 1 && kept@[i] == #[trigger] orig@[j] by {
                                            if i < old_kept.len() {
                                                assert(kept@[i] == old_kept[i]);
                                            } else {
                                                assert(kept@[i] == orig@[c]);
                                            }
                                        }
                                        assert(vs@ =~= orig@.skip(c + 1));
                                        assert(orig@.take(c + 1).drop_last() =~= orig@.take(c));
                                        assert(orig@.take(c + 1).last() == x);
                                        c = c + 1;
                                    }
                                }
                                proof {
                                    let lv = Value::List(kept);
                                    assert(lv->List_0 == kept);
                                    assert(!links_to(lv, child@));
                                    assert(orig@.take(c) =~= orig@);
                                    assert(lv->List_0@ == without(old_v->List_0@, child@));
                                    assert forall|x: Seq<char>| links_to(lv, x) implies links_to(old_v, x) by {
                                        let w = choose|w: int| 0 <= w < kept@.len() && is_text(#[trigger] kept@[w], x);
                                        let j = choose|j: int| 0 <= j < c && kept@[w] == #[trigger] orig@[j];
                                        lemma_list_links(orig, j, x);
                                    }
                                }
                                Value::List(kept)
                            },
                            other => other,
                        };
                        assert(!(nv is List && links_to(nv, child@)));
                        assert(nv == old_v || (old_v is List && nv is List && nv->List_0@ == without(old_v->List_0@, child@)));
                        assert(forall|x: Seq<char>| nv is List && links_to(nv, x) ==> old_v is List && links_to(old_v, x));
                        rec.insert(j, (name, nv));
                        proof {
                            assert(rec@ =~= old_rec.update(j as int, (name, nv)));
                            lemma_get_after_update(old_rec, j as int, name, nv);
                        }
                    },
                    None => {},
                }
                proof {
                    assert(field_scrubbed(get_field(old_rec, field@), get_field(rec@, field@), child@));
                    assert(!field_lists(rec@, field@, child@));
                    assert(forall|n: Seq<char>| n != field@ ==> #[trigger] get_field(rec@, n) == get_field(old_rec, n));
                    assert(forall|x: Seq<char>| field_lists(rec@, field@, x) ==> field_lists(old_rec, field@, x));
                }
                std::mem::swap(&mut rec, &mut self.entities[k].fields);
                proof {
                    let es = self.entities@;
                    assert forall|a: int, b: int| 0 <= a < es.len() && 0 <= b < es.len() && a != b
                        implies #[trigger] es[a].etype@ != #[trigger] es[b].etype@ || es[a].id@ != es[b].id@ by {
                        assert(before[a].etype@ != before[b].etype@ || before[a].id@ != before[b].id@);
                    }
                    assert(!lists_child(es, parent@, target@, field@, child@)) by {
                        if lists_child(es, parent@, target@, field@, child@) {
                            let w = choose|w: int| 0 <= w < es.len() && #[trigger] es[w].etype@ == parent@
                                && es[w].id@ == target@ && field_lists(es[w].fields@, field@, child@);
                            if w != k {
                                assert(before[w].etype@ != before[k as int].etype@ || before[w].id@ != before[k as int].id@);
                            }
                        }
                    }
                    assert(is_derived_of(self.schema.links@, parent@, field@)) by {
                        assert(self.schema.links@[q as int].parent@ == parent@);
                    }
                    assert forall|w: int, n: Seq<char>| 0 <= w < before.len() && !is_derived_of(self.schema.links@, before[w].etype@, n)
                        implies #[trigger] get_field(es[w].fields@, n) == get_field(before[w].fields@, n) by {
                        if w == k {
                            assert(before[w].fields@ == old_rec);
                            assert(n != field@);
                        } else {
                            assert(es[w] == before[w]);
                        }
                    }
                    assert forall|w: int, n: Seq<char>| 0 <= w < before.len()
                        implies field_scrubbed(get_field(before[w].fields@, n), #[trigger] get_field(es[w].fields@, n), child@) by {
                        if w == k {
                            assert(before[w].fields@ == old_rec);
                        } else {
                            assert(es[w] == before[w]);
                        }
                    }
                    assert forall|t: Seq<char>, i: Seq<char>, n: Seq<char>, x: Seq<char>|
                        #[trigger] lists_child(es, t, i, n, x) implies lists_child(before, t, i, n, x) by {
                        let w = choose|w: int| 0 <= w < es.len() && #[trigger] es[w].etype@ == t && es[w].id@ == i
                            && field_lists(es[w].fields@, n, x);
                        if w == k {
                            assert(before[w].fields@ == old_rec);
                            if n != field@ {
                                assert(get_field(es[w].fields@, n) == get_field(old_rec, n));
                            }
                        } else {
                            assert(es[w] == before[w]);
                        }
                    }
                }
            },
        }
    }

    /// What `remove` reports and leaves.
    pub open spec fn remove_outcome(before: EntityStore, after: EntityStore, etype: Seq<char>, id: Seq<char>,
        r: Result<(), StoreError>) -> bool {
        &&& r is Ok <==> stored(before.entities@, etype, id)
        &&& match r {
            Ok(()) => {
                &&& !stored(after.entities@, etype, id)
                &&& !after.updated
                &&& after.entities@.len() + 1 == before.entities@.len()
                &&& forall|t: Seq<char>, i: Seq<char>| stored(before.entities@, t, i) && !(t == etype && i == id)
                    ==> #[trigger] stored(after.entities@, t, i)
                &&& forall|k: int, q: int, t: Seq<char>| 0 <= k < before.entities@.len()
                    && before.entities@[k].etype@ == etype && before.entities@[k].id@ == id
                    && 0 <= q < before.schema.links@.len() && before.schema.links@[q].source@ == etype
                    && #[trigger] field_links_to(before.entities@[k].fields@, before.schema.links@[q].link@, t)
                    ==> !lists_child(after.entities@, before.schema.links@[q].parent@, t, before.schema.links@[q].field@, id)
                &&& forall|j: int, k: int, n: Seq<char>| 0 <= j < after.entities@.len() && 0 <= k < before.entities@.len()
                    && after.entities@[j].etype@ == before.entities@[k].etype@ && after.entities@[j].id@ == before.entities@[k].id@
                    && !is_derived_of(before.schema.links@, before.entities@[k].etype@, n)
                    ==> #[trigger] get_field(after.entities@[j].fields@, n) == #[trigger] get_field(before.entities@[k].fields@, n)
                &&& forall|j: int, k: int, n: Seq<char>| 0 <= j < after.entities@.len() && 0 <= k < before.entities@.len()
                    && after.entities@[j].etype@ == before.entities@[k].etype@ && after.entities@[j].id@ == before.entities@[k].id@
                    ==> field_scrubbed(#[trigger] get_field(before.entities@[k].fields@, n), #[trigger] get_field(after.entities@[j].fields@, n), id)
            },
            Err(StoreError::NotFound { entity, id: missing }) => entity@ == etype && missing@ == id,
            Err(_) => false,
        }
    }

    /// Deletes the entity `id` of type `etype`, and takes its id out of the
    /// derived lists that its linking fields had put it in.
    pub fn remove(&mut self, etype: &str, id: &str) -> (r: Result<(), StoreError>)
        requires
            old(self).wf(),
        ensures
            final(self).wf(),
            final(self).schema == old(self).schema,
            Self::remove_outcome(*old(self), *final(self), etype@, id@, r),
            r is Err ==> *final(self) == *old(self),
    {
        let k = match self.find_entity(etype, id) {
            None => {
                return Err(StoreError::NotFound { entity: String::from_str(etype), id: String::from_str(id) });
            },
            Some(k) => k,
        };
        let ghost start = self.entities@;
        let gone = self.entities.remove(k);
        let ghost removed = self.entities@;
        self.updated = false;
        proof {
            assert forall|a: int, b: int| 0 <= a < removed.len() && 0 <= b < removed.len() && a != b
                implies #[trigger] removed[a].etype@ != #[trigger] removed[b].etype@ || removed[a].id@ != removed[b].id@ by {
                let a2 = if a < k { a } else { a + 1 };
                let b2 = if b < k { b } else { b + 1 };
                assert(removed[a] == start[a2] && removed[b] == start[b2]);
            }
            assert(!stored(removed, etype@, id@)) by {
                if stored(removed, etype@, id@) {
                    let j = choose|j: int| 0 <= j < removed.len() && #[trigger] removed[j].etype@ == etype@ && removed[j].id@ == id@;
                    let j2 = if j < k { j } else { j + 1 };
                    assert(removed[j] == start[j2]);
                }
            }
            assert forall|t: Seq<char>, i: Seq<char>| stored(start, t, i) && !(t == etype@ && i == id@)
                implies #[trigger] stored(removed, t, i) by {
                let j = choose|j: int| 0 <= j < start.len() && #[trigger] start[j].etype@ == t && start[j].id@ == i;
                let j2 = if j < k { j } else { j - 1 };
                assert(removed[j2] == start[j]);
            }
        }
        let child = gone.id;
        assert(all_scrubbed(removed, self.entities@, id@)) by {
            assert forall|w: int, n: Seq<char>| 0 <= w < removed.len()
                implies field_scrubbed(get_field(removed[w].fields@, n), #[trigger] get_field(self.entities@[w].fields@, n), id@) by {
            }
        }
        let m = self.schema.links.len();
        let mut q: usize = 0;
        while q < m
            invariant
                self.schema == old(self).schema,
                self.schema.wf(),
                m == self.schema.links@.len(),
                q <= m,
                keys_unique(self.entities@),
                !self.updated,
                keys_kept(removed, self.entities@),
                self.entities@.len() == removed.len(),
                gone == start[k as int],
                child@ == id@,
                plain_kept(self.schema.links@, removed, self.entities@),
                all_scrubbed(removed, self.entities@, id@),
                forall|p: int, t: Seq<char>| 0 <= p < q && self.schema.links@[p].source@ == etype@
                    && #[trigger] field_links_to(gone.fields@, self.schema.links@[p].link@, t)
                    ==> !lists_child(self.entities@, self.schema.links@[p].parent@, t, self.schema.links@[p].field@, id@),
            decreases m - q,
        {
            if same_text(self.schema.links[q].source.as_str(), etype) {
                match find_field(&gone.fields, self.schema.links[q].link.as_str()) {
                    Some(j) => {
                        match &gone.fields[j].1 {
                            Value::String(t) => {
                                let ghost mid = self.entities@;
                                self.scrub_child(q, t, &child);
                                proof {
                                    lemma_plain_kept_trans(self.schema.links@, removed, mid, self.entities@);
                                    lemma_scrubbed_trans(removed, mid, self.entities@, id@);
                                }
                            },
                            Value::List(vs) => {
                                let mut i: usize = 0;
                                while i < vs.len()
                                    invariant
                                        self.schema == old(self).schema,
                                        self.schema.wf(),
                                        q < m,
                                        m == self.schema.links@.len(),
                                        keys_unique(self.entities@),
                                        !self.updated,
                                        keys_kept(removed, self.entities@),
                                        self.entities@.len() == removed.len(),
                                        child@ == id@,
                                        plain_kept(self.schema.links@, removed, self.entities@),
                                        all_scrubbed(removed, self.entities@, id@),
                                        forall|p: int, t: Seq<char>| 0 <= p < q && self.schema.links@[p].source@ == etype@
                                            && #[trigger] field_links_to(gone.fields@, self.schema.links@[p].link@, t)
                                            ==> !lists_child(self.entities@, self.schema.links@[p].parent@, t,
                                                self.schema.links@[p].field@, id@),
                                        forall|x: int, t: Seq<char>| 0 <= x < i && #[trigger] is_text(vs@[x], t)
                                            ==> !lists_child(self.entities@, self.schema.links@[q as int].parent@, t,
                                                self.schema.links@[q as int].field@, id@),
                                    decreases vs@.len() - i,
                                {
                                    if let Value::String(t) = &vs[i] {
                                        let ghost mid = self.entities@;
                                        self.scrub_child(q, t, &child);
                                        proof {
                                            lemma_plain_kept_trans(self.schema.links@, removed, mid, self.entities@);
                                            lemma_scrubbed_trans(removed, mid, self.entities@, id@);
                                        }
                                    }
                                    i = i + 1;
                                }
                                proof {
                                    assert forall|t: Seq<char>| #[trigger] field_links_to(gone.fields@, self.schema.links@[q as int].link@, t)
                                        implies !lists_child(self.entities@, self.schema.links@[q as int].parent@, t,
                                            self.schema.links@[q as int].field@, id@) by {
                                        let gv = gone.fields@[j as int].1;
                                        assert(gv == Value::List(*vs));
                                        assert(gv->List_0 == *vs);
                                        let w = choose|w: int| 0 <= w < vs@.len() && is_text(#[trigger] vs@[w], t);
                                    }
                                }
                            },
                            _ => {},
                        }
                    },
                    None => {},
                }
            }
            q = q + 1;
        }
        proof {
            let es = self.entities@;
            assert forall|j: int, k0: int, n: Seq<char>| 0 <= j < es.len() && 0 <= k0 < start.len()
                && es[j].etype@ == start[k0].etype@ && es[j].id@ == start[k0].id@
                && !is_derived_of(self.schema.links@, start[k0].etype@, n)
                implies #[trigger] get_field(es[j].fields@, n) == #[trigger] get_field(start[k0].fields@, n) by {
                let j2 = if j < k { j } else { j + 1 };
                assert(removed[j] == start[j2]);
                assert(es[j].etype@ == removed[j].etype@ && es[j].id@ == removed[j].id@);
                assert(k0 == j2) by {
                    if k0 != j2 {
                        assert(start[k0].etype@ != start[j2].etype@ || start[k0].id@ != start[j2].id@);
                    }
                }
                assert(get_field(es[j].fields@, n) == get_field(removed[j].fields@, n));
            }
            assert forall|j: int, k0: int, n: Seq<char>| 0 <= j < es.len() && 0 <= k0 < start.len()
                && es[j].etype@ == start[k0].etype@ && es[j].id@ == start[k0].id@
                implies field_scrubbed(#[trigger] get_field(start[k0].fields@, n), #[trigger] get_field(es[j].fields@, n), id@) by {
                let j2 = if j < k { j } else { j + 1 };
                assert(removed[j] == start[j2]);
                assert(es[j].etype@ == removed[j].etype@ && es[j].id@ == removed[j].id@);
                assert(k0 == j2) by {
                    if k0 != j2 {
                        assert(start[k0].etype@ != start[j2].etype@ || start[k0].id@ != start[j2].id@);
                    }
                }
                assert(field_scrubbed(get_field(removed[j].fields@, n), get_field(es[j].fields@, n), id@));
            }
            assert forall|t: Seq<char>, i: Seq<char>| stored(removed, t, i) <==> #[trigger] stored(es, t, i) by {
                if stored(removed, t, i) {
                    let j = choose|j: int| 0 <= j < removed.len() && #[trigger] removed[j].etype@ == t && removed[j].id@ == i;
                    assert(es[j].etype@ == t);
                }
                if stored(es, t, i) {
                    let j = choose|j: int| 0 <= j < es.len() && #[trigger] es[j].etype@ == t && es[j].id@ == i;
                    assert(removed[j].etype@ == t);
                }
            }
        }
        Ok(())
    }

    /// The data of the entity `id` of type `etype`, as the store holds it.
    pub fn entity(&self, etype: &str, id: &str) -> (r: Option<&Record>)
        ensures
            match r {
                Some(rec) => exists|k: int| 0 <= k < self.entities@.len() && #[trigger] self.entities@[k].etype@ == etype@
                    && self.entities@[k].id@ == id@ && *rec == self.entities@[k].fields,
                None => !stored(self.entities@, etype@, id@),
            },
    {
        match self.find_entity(etype, id) {
            Some(k) => Some(&self.entities[k].fields),
            None => None,
        }
    }

    /// Reconciles, then compares the rendering of a field with `expected`.
    pub fn field_equals(&mut self, etype: &str, id: &str, field: &str, expected: &str) -> (r: FieldCheck)
        requires
            old(self).wf(),
        ensures
            Self::reconciled_from(*old(self), *final(self)),
            field_check_holds(final(self).entities@, etype@, id@, field@, expected@, r),
    {
        self.reconcile();
        let mut k: usize = 0;
        let mut seen = false;
        while k < self.entities.len()
            invariant
                Self::reconciled_from(*old(self), *self),
                k <= self.entities@.len(),
                seen <==> exists|j: int| 0 <= j < k && #[trigger] self.entities@[j].etype@ == etype@,
                forall|j: int| 0 <= j < k ==> #[trigger] self.entities@[j].etype@ != etype@ || self.entities@[j].id@ != id@,
            decreases self.entities@.len() - k,
        {
            if same_text(self.entities[k].etype.as_str(), etype) {
                seen = true;
                if same_text(self.entities[k].id.as_str(), id) {
                    let rec = &self.entities[k].fields;
                    return match find_field(rec, field) {
                        None => FieldCheck::NoField,
                        Some(j) => {
                            let actual = rec[j].1.render();
                            if same_text(actual.as_str(), expected) {
                                FieldCheck::Equal
                            } else {
                                FieldCheck::Differs { actual }
                            }
                        },
                    };
                }
            }
            k = k + 1;
        }
        if seen { FieldCheck::NoEntity } else { FieldCheck::NoEntityType }
    }

    /// Reconciles, then tells whether no entity of this type and id is stored.
    pub fn not_in_store(&mut self, etype: &str, id: &str) -> (r: bool)
        requires
            old(self).wf(),
        ensures
            Self::reconciled_from(*old(self), *final(self)),
            r == !stored(final(self).entities@, etype@, id@),
    {
        self.reconcile();
        self.find_entity(etype, id).is_none()
    }

    /// Reconciles, then counts the stored entities of this type.
    pub fn count(&mut self, etype: &str) -> (r: usize)
        requires
            old(self).wf(),
        ensures
            Self::reconciled_from(*old(self), *final(self)),
            r == count_of(final(self).entities@, etype@),
    {
        self.reconcile();
        let mut n: usize = 0;
        let mut k: usize = 0;
        while k < self.entities.len()
            invariant
                k <= self.entities@.len(),
                n == count_of(self.entities@.take(k as int), etype@),
                n <= k,
            decreases self.entities@.len() - k,
        {
            assert(self.entities@.take(k + 1).drop_last() =~= self.entities@.take(k as int));
            if same_text(self.entities[k].etype.as_str(), etype) {
                n = n + 1;
            }
            k = k + 1;
        }
        assert(self.entities@.take(k as int) =~= self.entities@);
        n
    }

    /// Empties the store; an empty store is in step.
    pub fn clear(&mut self)
        requires
            old(self).wf(),
        ensures
            final(self).wf(),
            final(self).schema == old(self).schema,
            final(self).entities@.len() == 0,
            final(self).updated,
    {
        self.entities = Vec::new();
        self.updated = true;
    }

    /// What `reconcile` leaves: a store that is in step, and that is the store
    /// before it unchanged if that was in step already.
    pub open spec fn reconciled_from(before: EntityStore, after: EntityStore) -> bool {
        &&& after.wf()
        &&& after.updated
        &&& after.schema == before.schema
        &&& before.updated ==> after == before
        &&& !before.updated ==> resynced(before.schema.links@, before.entities@, after.entities@)
    }

    /// Recomputes every stored entity's derived fields from the store, unless
    /// the store is known to be in step.
    pub fn reconcile(&mut self)
        requires
            old(self).wf(),
        ensures
            Self::reconciled_from(*old(self), *final(self)),
    {
        if self.updated {
            return;
        }
        let ghost before = self.entities@;
        let n = self.entities.len();
        let mut k: usize = 0;
        while k < n
            invariant
                self.schema == old(self).schema,
                self.schema.wf(),
                !old(self).updated,
                !self.updated,
                before == old(self).entities@,
                n == before.len(),
                k <= n,
                links_kept(self.schema.links@, self.entities@, before),
                forall|j: int| 0 <= j < k ==> #[trigger] resynced_upto(self.schema.links@, before, before[j],
                    self.entities@[j], self.schema.links@.len() as int),
                forall|j: int| k <= j < n ==> #[trigger] self.entities@[j] == before[j],
            decreases n - k,
        {
            let m = self.schema.links.len();
            let mut q: usize = 0;
            while q < m
                invariant
                    self.schema == old(self).schema,
                    self.schema.wf(),
                    !self.updated,
                    before == old(self).entities@,
                    n == before.len(),
                    k < n,
                    m == self.schema.links@.len(),
                    q <= m,
                    links_kept(self.schema.links@, self.entities@, before),
                    forall|j: int| 0 <= j < k ==> #[trigger] resynced_upto(self.schema.links@, before, before[j],
                        self.entities@[j], self.schema.links@.len() as int),
                    forall|j: int| k < j < n ==> #[trigger] self.entities@[j] == before[j],
                    resynced_upto(self.schema.links@, before, before[k as int], self.entities@[k as int], q as int),
                decreases m - q,
            {
                let d = &self.schema.links[q];
                if same_text(d.parent.as_str(), self.entities[k].etype.as_str()) {
                    let v = children_of(&self.entities, d.source.as_str(), d.link.as_str(), self.entities[k].id.as_str());
                    proof { lemma_kept_children(self.schema.links@, self.entities@, before, q as int, self.entities@[k as int].id@); }
                    let field = d.field.clone();
                    let ghost cur = self.entities@;
                    put_field(&mut self.entities[k].fields, &field, v);
                    proof {
                        let links = self.schema.links@;
                        let e = self.entities@[k as int];
                        assert(forall|j: int| 0 <= j < n && j != k ==> #[trigger] self.entities@[j] == cur[j]);
                        assert(is_derived_of(links, e.etype@, field@));
                        assert forall|p: int| 0 <= p < q + 1 && #[trigger] links[p].parent@ == e.etype@
                            implies field_is_id_list(e.fields@, links[p].field@, derived_ids(before, links[p], e.id@)) by {
                            if p != q {
                                assert(links[p].field@ != field@);
                            }
                        }
                        assert forall|j: int, r: int| #![trigger self.entities@[j], links[r]]
                            0 <= j < n && 0 <= r < links.len() && before[j].etype@ == links[r].source@
                            implies get_field(self.entities@[j].fields@, links[r].link@) == get_field(before[j].fields@, links[r].link@) by {
                            if j == k {
                                assert(links[r].link@ != field@);
                            } else {
                                assert(self.entities@[j] == cur[j]);
                            }
                        }
                    }
                }
                q = q + 1;
            }
            k = k + 1;
        }
        self.updated = true;
        proof {
            let links = self.schema.links@;
            assert forall|j: int| 0 <= j < self.entities@.len()
                implies #[trigger] resynced_upto(links, self.entities@, self.entities@[j], self.entities@[j], links.len() as int) by {
                assert(resynced_upto(links, before, before[j], self.entities@[j], links.len() as int));
                assert forall|q: int| 0 <= q < links.len() implies
                    #[trigger] derived_ids(self.entities@, links[q], self.entities@[j].id@) == derived_ids(before, links[q], self.entities@[j].id@) by {
                    lemma_kept_children(links, self.entities@, before, q, self.entities@[j].id@);
                }
            }
            assert forall|a: int, b: int| 0 <= a < self.entities@.len() && 0 <= b < self.entities@.len() && a != b
                implies #[trigger] self.entities@[a].etype@ != #[trigger] self.entities@[b].etype@
                    || self.entities@[a].id@ != self.entities@[b].id@ by {
                assert(before[a].etype@ != before[b].etype@ || before[a].id@ != before[b].id@);
            }
        }
    }
}

} // verus!
