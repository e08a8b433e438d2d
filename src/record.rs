use vstd::prelude::*;

use crate::value::{same_text, Value};

verus! {

/// One entity's data: field names with their values.
pub type Record = Vec<(String, Value)>;

/// The value of the named field; where a name occurs twice, the later entry.
pub open spec fn get_field<V>(rec: Seq<(String, V)>, name: Seq<char>) -> Option<V>
    decreases rec.len(),
{
    if rec.len() == 0 {
        None
    } else if rec.last().0@ == name {
        Some(rec.last().1)
    } else {
        get_field(rec.drop_last(), name)
    }
}

/// Whether `v` is the text `id`.
pub open spec fn is_text(v: Value, id: Seq<char>) -> bool {
    v matches Value::String(s) && s@ == id
}

/// Whether a linking value names this id: it is the id, or a list holding it.
pub open spec fn links_to(v: Value, id: Seq<char>) -> bool {
    match v {
        Value::String(s) => s@ == id,
        Value::List(vs) => exists|i: int| 0 <= i < vs@.len() && is_text(#[trigger] vs@[i], id),
        _ => false,
    }
}

/// Whether `v` is a list of exactly these ids, in this order.
pub open spec fn is_id_list(v: Value, ids: Seq<Seq<char>>) -> bool {
    match v {
        Value::List(vs) => vs@.len() == ids.len() && forall|i: int|
            0 <= i < ids.len() ==> is_text(#[trigger] vs@[i], ids[i]),
        _ => false,
    }
}

/// Whether the named field holds a value that names `id`.
pub open spec fn field_links_to(rec: Seq<(String, Value)>, name: Seq<char>, id: Seq<char>) -> bool {
    get_field(rec, name) matches Some(v) && links_to(v, id)
}

/// Whether the named field holds exactly this list of ids.
pub open spec fn field_is_id_list(rec: Seq<(String, Value)>, name: Seq<char>, ids: Seq<Seq<char>>) -> bool {
    get_field(rec, name) matches Some(v) && is_id_list(v, ids)
}

/// The position of the entry that `get_field` reads.
pub fn find_field<V>(rec: &Vec<(String, V)>, name: &str) -> (r: Option<usize>)
    ensures
        match r {
            Some(k) => k < rec@.len() && rec@[k as int].0@ == name@ && get_field(rec@, name@) == Some(rec@[k as int].1)
                && forall|j: int| k < j < rec@.len() ==> #[trigger] rec@[j].0@ != name@,
            None => get_field(rec@, name@) is None,
        },
{
    let mut i: usize = rec.len();
    assert(rec@.take(i as int) =~= rec@);
    while i > 0
        invariant
            i <= rec@.len(),
            get_field(rec@, name@) == get_field(rec@.take(i as int), name@),
            forall|j: int| i <= j < rec@.len() ==> #[trigger] rec@[j].0@ != name@,
        decreases i,
    {
        assert(rec@.take(i as int).drop_last() =~= rec@.take(i - 1));
        if same_text(rec[i - 1].0.as_str(), name) {
            return Some(i - 1);
        }
        i = i - 1;
    }
    assert(rec@.take(0) =~= Seq::<(String, V)>::empty());
    None
}

pub(crate) proof fn lemma_get_after_update<V>(rec: Seq<(String, V)>, k: int, key: String, v: V)
    requires
        0 <= k < rec.len(),
        forall|j: int| k < j < rec.len() ==> #[trigger] rec[j].0@ != rec[k].0@,
        key@ == rec[k].0@,
    ensures
        forall|n: Seq<char>| #[trigger] get_field(rec.update(k, (key, v)), n)
            == if n == rec[k].0@ { Some(v) } else { get_field(rec, n) },
    decreases rec.len(),
{
    let r2 = rec.update(k, (key, v));
    if k < rec.len() - 1 {
        lemma_get_after_update(rec.drop_last(), k, key, v);
        assert(r2.drop_last() =~= rec.drop_last().update(k, (key, v)));
    }
    assert forall|n: Seq<char>| #[trigger] get_field(r2, n) == if n == rec[k].0@ { Some(v) } else { get_field(rec, n) } by {
        if k < rec.len() - 1 {
            assert(r2.drop_last() =~= rec.drop_last().update(k, (key, v)));
            assert(get_field(rec.drop_last().update(k, (key, v)), n)
                == if n == rec[k].0@ { Some(v) } else { get_field(rec.drop_last(), n) });
            assert(r2.last() == rec.last());
        } else {
            assert(r2.drop_last() =~= rec.drop_last());
        }
    }
}

/// Sets the named field to `v`, keeping the position of an existing entry.
pub fn put_field<V>(rec: &mut Vec<(String, V)>, name: &String, v: V)
    ensures
        forall|n: Seq<char>| #[trigger] get_field(final(rec)@, n)
            == if n == name@ { Some(v) } else { get_field(old(rec)@, n) },
        final(rec)@.len() == old(rec)@.len() + if get_field(old(rec)@, name@) is None { 1int } else { 0int },
{
    match find_field(rec, name.as_str()) {
        Some(k) => {
            let key = name.clone();
            proof { lemma_get_after_update(rec@, k as int, key, v); }
            rec.set(k, (key, v));
        },
        None => {
            rec.push((name.clone(), v));
            assert(rec@.drop_last() =~= old(rec)@);
        },
    }
}

} // verus!
