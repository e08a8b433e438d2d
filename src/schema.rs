use vstd::prelude::*;

use crate::value::same_text;

verus! {

/// One field of an entity type as the schema declares it.
pub struct FieldDef {
    pub name: String,
    /// The named type at the bottom of the field's type (`[Tx!]!` gives `Tx`).
    pub base_type: String,
    /// Whether the field's outermost type carries a non-null marker.
    pub non_null: bool,
    /// The linking field named by a `@derivedFrom(field: ...)` annotation.
    pub derived_from: Option<String>,
}

/// An entity type of the schema.
pub struct EntityType {
    pub name: String,
    pub fields: Vec<FieldDef>,
}

/// A derived field: entities of `source` carry a field `link` that holds the id
/// of an entity of `parent`, and `parent` exposes `field` as the list of the ids
/// of those entities.
pub struct DerivedLink {
    pub field: String,
    pub link: String,
    pub source: String,
    pub parent: String,
}

/// The schema index: the entity types and every derived field among them.
pub struct Schema {
    pub types: Vec<EntityType>,
    pub links: Vec<DerivedLink>,
}

/// Why a schema cannot be used.
#[derive(Debug, PartialEq)]
pub enum SchemaError {
    /// Two entity types share a name.
    DuplicateType { name: String },
    /// A type declares two fields of one name.
    DuplicateField { entity: String, field: String },
    /// A derived field names a source type that the schema lacks.
    UnknownSourceType { entity: String, field: String },
    /// A derived field names a linking field that its source type lacks, or
    /// that is itself derived.
    MissingLinkField { entity: String, field: String },
}

/// Whether field `j` of type `i` is a derived field with this type and field name.
pub open spec fn is_derived_field(types: Seq<EntityType>, entity: Seq<char>, field: Seq<char>) -> bool {
    exists|i: int, j: int|
        0 <= i < types.len() && 0 <= j < types[i].fields@.len() && #[trigger] types[i].fields@[j].name@ == field
            && types[i].name@ == entity && types[i].fields@[j].derived_from is Some
}

pub open spec fn is_required(f: FieldDef) -> bool {
    f.non_null && f.derived_from is None
}

/// Whether the field of this name is declared on `t` and not derived.
pub open spec fn has_plain_field(t: EntityType, name: Seq<char>) -> bool {
    exists|j: int| 0 <= j < t.fields@.len() && #[trigger] t.fields@[j].name@ == name
        && t.fields@[j].derived_from is None
}

/// The derived link that field `j` of type `i` declares.
pub open spec fn declared_link(types: Seq<EntityType>, i: int, j: int, d: DerivedLink) -> bool {
    &&& types[i].fields@[j].derived_from matches Some(l) && d.link@ == l@
    &&& d.field@ == types[i].fields@[j].name@
    &&& d.source@ == types[i].fields@[j].base_type@
    &&& d.parent@ == types[i].name@
}

/// Every entry of `links` is declared by some field of `types`.
pub open spec fn all_declared(types: Seq<EntityType>, links: Seq<DerivedLink>) -> bool {
    forall|k: int| 0 <= k < links.len() ==> #[trigger] is_declared(types, links[k])
}

/// Some field of `types` declares this derived link.
pub open spec fn is_declared(types: Seq<EntityType>, d: DerivedLink) -> bool {
    exists|ti: int, fj: int|
        0 <= ti < types.len() && 0 <= fj < types[ti].fields@.len() && #[trigger] declared_link(types, ti, fj, d)
}

/// The source type of the link exists and declares the linking field as a
/// plain field.
pub open spec fn resolves(types: Seq<EntityType>, d: DerivedLink) -> bool {
    exists|i: int| 0 <= i < types.len() && #[trigger] types[i].name@ == d.source@ && has_plain_field(types[i], d.link@)
}

/// The schema has a derived field `field` on type `entity` whose source type
/// it does not declare.
pub open spec fn source_missing(types: Seq<EntityType>, entity: Seq<char>, field: Seq<char>) -> bool {
    exists|i: int, j: int|
        0 <= i < types.len() && 0 <= j < types[i].fields@.len() && #[trigger] types[i].fields@[j].name@ == field
            && types[i].name@ == entity && types[i].fields@[j].derived_from is Some
            && forall|t: int| 0 <= t < types.len() ==> #[trigger] types[t].name@ != types[i].fields@[j].base_type@
}

/// The schema has a derived field `field` on type `entity` whose source type
/// exists but lacks the linking field as a plain field.
pub open spec fn link_missing(types: Seq<EntityType>, entity: Seq<char>, field: Seq<char>) -> bool {
    exists|i: int, j: int, t: int|
        0 <= i < types.len() && 0 <= j < types[i].fields@.len() && #[trigger] types[i].fields@[j].name@ == field
            && types[i].name@ == entity && types[i].fields@[j].derived_from is Some
            && 0 <= t < types.len() && #[trigger] types[t].name@ == types[i].fields@[j].base_type@
            && !has_plain_field(types[t], types[i].fields@[j].derived_from->0@)
}

/// Some field before position `(i, j)` of `types` declares this derived link.
pub open spec fn declared_before(types: Seq<EntityType>, d: DerivedLink, i: int, j: int) -> bool {
    exists|ti: int, fj: int|
        0 <= ti < types.len() && 0 <= fj < types[ti].fields@.len() && #[trigger] declared_link(types, ti, fj, d)
            && (ti < i || (ti == i && fj < j))
}

/// No two derived links share a parent type and a field name.
pub open spec fn keys_distinct(links: Seq<DerivedLink>) -> bool {
    forall|a: int, b: int| 0 <= a < links.len() && 0 <= b < links.len() && a != b
        ==> #[trigger] links[a].parent@ != #[trigger] links[b].parent@ || links[a].field@ != links[b].field@
}

/// Type names are unique, field names are unique within each type, and each
/// derived field's source type exists and declares the linking field as a
/// plain field.
pub open spec fn schema_valid(types: Seq<EntityType>) -> bool {
    &&& forall|a: int, b: int| 0 <= a < b < types.len() ==> #[trigger] types[a].name@ != #[trigger] types[b].name@
    &&& forall|i: int, a: int, b: int| 0 <= i < types.len() && 0 <= a < b < types[i].fields@.len()
        ==> #[trigger] types[i].fields@[a].name@ != #[trigger] types[i].fields@[b].name@
    &&& forall|i: int, j: int| 0 <= i < types.len() && 0 <= j < types[i].fields@.len()
        && (#[trigger] types[i].fields@[j]).derived_from is Some
        ==> exists|t: int| 0 <= t < types.len() && #[trigger] types[t].name@ == types[i].fields@[j].base_type@
            && has_plain_field(types[t], types[i].fields@[j].derived_from->0@)
}

proof fn lemma_push_distinct(types: Seq<EntityType>, old_links: Seq<DerivedLink>, links: Seq<DerivedLink>, i: int, j: int)
    requires
        forall|a: int, b: int| 0 <= a < b < types.len() ==> #[trigger] types[a].name@ != #[trigger] types[b].name@,
        forall|t: int, a: int, b: int| 0 <= t < types.len() && 0 <= a < b < types[t].fields@.len()
            ==> #[trigger] types[t].fields@[a].name@ != #[trigger] types[t].fields@[b].name@,
        0 <= i < types.len(),
        0 <= j < types[i].fields@.len(),
        links.len() == old_links.len() + 1,
        forall|k: int| 0 <= k < old_links.len() ==> links[k] == old_links[k],
        declared_link(types, i, j, links[old_links.len() as int]),
        keys_distinct(old_links),
        forall|k: int| 0 <= k < old_links.len() ==> #[trigger] declared_before(types, old_links[k], i, j),
    ensures
        keys_distinct(links),
{
    let nl = links[old_links.len() as int];
    assert forall|a: int, b: int| 0 <= a < links.len() && 0 <= b < links.len() && a != b
        implies #[trigger] links[a].parent@ != #[trigger] links[b].parent@ || links[a].field@ != links[b].field@ by {
        if a < old_links.len() && b < old_links.len() {
            assert(links[a] == old_links[a] && links[b] == old_links[b]);
        } else {
            let o = if a < old_links.len() { a } else { b };
            assert(links[o] == old_links[o]);
            assert(declared_before(types, old_links[o], i, j));
            let (ti, fj) = choose|ti: int, fj: int| 0 <= ti < types.len() && 0 <= fj < types[ti].fields@.len()
                && #[trigger] declared_link(types, ti, fj, old_links[o]) && (ti < i || (ti == i && fj < j));
            if ti < i {
                assert(types[ti].name@ != types[i].name@);
            } else {
                assert(types[i].fields@[fj].name@ != types[i].fields@[j].name@);
            }
        }
    }
}

proof fn lemma_links_consistent(s: Schema)
    requires
        forall|a: int, b: int|
            0 <= a < b < s.types@.len() ==> #[trigger] s.types@[a].name@ != #[trigger] s.types@[b].name@,
        s.fields_unique(),
        s.links_declared(),
        s.links_resolve(),
        keys_distinct(s.links@),
    ensures
        s.links_wf(),
{
    let types = s.types@;
    let links = s.links@;
    assert forall|a: int, b: int| 0 <= a < links.len() && 0 <= b < links.len()
        && #[trigger] links[a].parent@ == #[trigger] links[b].source@
        implies links[a].field@ != links[b].link@ by {
        assert(is_declared(types, links[a]));
        let (i, j) = choose|ti: int, fj: int| 0 <= ti < types.len() && 0 <= fj < types[ti].fields@.len()
            && #[trigger] declared_link(types, ti, fj, links[a]);
        assert(resolves(types, links[b]));
        let t = choose|t: int| 0 <= t < types.len() && #[trigger] types[t].name@ == links[b].source@
            && has_plain_field(types[t], links[b].link@);
        if t != i {
            if t < i {
                assert(types[t].name@ != types[i].name@);
            } else {
                assert(types[i].name@ != types[t].name@);
            }
        }
        let jj = choose|jj: int| 0 <= jj < types[t].fields@.len() && #[trigger] types[t].fields@[jj].name@ == links[b].link@
            && types[t].fields@[jj].derived_from is None;
        if links[a].field@ == links[b].link@ {
            assert(jj != j);
            if jj < j {
                assert(types[i].fields@[jj].name@ != types[i].fields@[j].name@);
            } else {
                assert(types[i].fields@[j].name@ != types[i].fields@[jj].name@);
            }
        }
    }
}

proof fn lemma_declared_field(types: Seq<EntityType>, d: DerivedLink)
    requires
        is_declared(types, d),
    ensures
        is_derived_field(types, d.parent@, d.field@),
{
    let (i, j) = choose|ti: int, fj: int|
        0 <= ti < types.len() && 0 <= fj < types[ti].fields@.len() && #[trigger] declared_link(types, ti, fj, d);
    assert(types[i].fields@[j].name@ == d.field@);
}

/// The derived field `j` of type `i` has its entry in `links`.
pub open spec fn has_entry(types: Seq<EntityType>, links: Seq<DerivedLink>, i: int, j: int) -> bool {
    exists|k: int| 0 <= k < links.len() && #[trigger] declared_link(types, i, j, links[k])
}

proof fn lemma_push_link(types: Seq<EntityType>, old_links: Seq<DerivedLink>, links: Seq<DerivedLink>, i: int, j: int)
    requires
        links.len() == old_links.len() + 1,
        forall|k: int| 0 <= k < old_links.len() ==> links[k] == old_links[k],
        0 <= i < types.len(),
        0 <= j < types[i].fields@.len(),
        declared_link(types, i, j, links[old_links.len() as int]),
        all_declared(types, old_links),
    ensures
        all_declared(types, links),
        has_entry(types, links, i, j),
        forall|t: int, q: int| has_entry(types, old_links, t, q) ==> #[trigger] has_entry(types, links, t, q),
{
    assert forall|k: int| 0 <= k < links.len() implies #[trigger] is_declared(types, links[k]) by {
        if k < old_links.len() {
            assert(links[k] == old_links[k]);
            assert(is_declared(types, old_links[k]));
        } else {
            assert(declared_link(types, i, j, links[k]));
        }
    }
    assert forall|t: int, q: int| has_entry(types, old_links, t, q) implies #[trigger] has_entry(types, links, t, q) by {
        let k = choose|k: int| 0 <= k < old_links.len() && #[trigger] declared_link(types, t, q, old_links[k]);
        assert(links[k] == old_links[k]);
    }
}

impl Schema {
    /// Type names are unique, field names are unique within a type, the
    /// links are exactly the derived fields of the types, each link resolves,
    /// and the links are consistent.
    pub open spec fn wf(&self) -> bool {
        &&& forall|a: int, b: int|
            0 <= a < b < self.types@.len() ==> #[trigger] self.types@[a].name@ != #[trigger] self.types@[b].name@
        &&& self.fields_unique()
        &&& self.links_declared()
        &&& self.links_resolve()
        &&& self.links_wf()
    }

    /// Field names are unique within each type.
    pub open spec fn fields_unique(&self) -> bool {
        forall|i: int, a: int, b: int|
            0 <= i < self.types@.len() && 0 <= a < b < self.types@[i].fields@.len()
                ==> #[trigger] self.types@[i].fields@[a].name@ != #[trigger] self.types@[i].fields@[b].name@
    }

    /// Each entry of `links` is declared by a field of `types`, and each derived
    /// field of `types` has its entry.
    pub open spec fn links_declared(&self) -> bool {
        &&& all_declared(self.types@, self.links@)
        &&& forall|i: int, j: int| #![trigger self.types@[i].fields@[j]]
            0 <= i < self.types@.len() && 0 <= j < self.types@[i].fields@.len()
                && self.types@[i].fields@[j].derived_from is Some
                ==> has_entry(self.types@, self.links@, i, j)
    }

    /// Each derived link's source type exists and declares the linking field
    /// as a plain field.
    pub open spec fn links_resolve(&self) -> bool {
        forall|k: int| 0 <= k < self.links@.len() ==> #[trigger] resolves(self.types@, self.links@[k])
    }

    /// A type has at most one derived field of a name, and no derived field is
    /// also the linking field of another derived field.
    pub open spec fn links_wf(&self) -> bool {
        &&& forall|a: int, b: int|
            0 <= a < self.links@.len() && 0 <= b < self.links@.len()
                && #[trigger] self.links@[a].parent@ == #[trigger] self.links@[b].parent@
                && self.links@[a].field@ == self.links@[b].field@ ==> a == b
        &&& forall|a: int, b: int|
            0 <= a < self.links@.len() && 0 <= b < self.links@.len()
                && #[trigger] self.links@[a].parent@ == #[trigger] self.links@[b].source@
                ==> self.links@[a].field@ != self.links@[b].link@
    }

    /// Builds the index of a schema's entity types: one derived link for each
    /// field annotated with the field it is derived from.
    pub fn new(types: Vec<EntityType>) -> (r: Result<Schema, SchemaError>)
        ensures
            r is Ok <==> schema_valid(types@),
            match r {
                Ok(s) => s.types == types && s.wf() && s.fields_unique() && s.links_declared()
                    && s.links_resolve(),
                Err(SchemaError::DuplicateType { name }) => exists|a: int, b: int|
                    0 <= a < b < types@.len() && #[trigger] types@[a].name@ == name@ && #[trigger] types@[b].name@ == name@,
                Err(SchemaError::DuplicateField { entity, field }) => exists|i: int, a: int, b: int|
                    0 <= i < types@.len() && 0 <= a < b < types@[i].fields@.len() && types@[i].name@ == entity@
                        && #[trigger] types@[i].fields@[a].name@ == field@ && #[trigger] types@[i].fields@[b].name@ == field@,
                Err(SchemaError::UnknownSourceType { entity, field }) => source_missing(types@, entity@, field@),
                Err(SchemaError::MissingLinkField { entity, field }) => link_missing(types@, entity@, field@),
            },
    {
        let n = types.len();
        let mut a: usize = 0;
        while a < n
            invariant
                n == types@.len(),
                a <= n,
                forall|x: int, y: int| 0 <= x < y < n && x < a ==> #[trigger] types@[x].name@ != #[trigger] types@[y].name@,
            decreases n - a,
        {
            let mut b: usize = a + 1;
            while b < n
                invariant
                    n == types@.len(),
                    a < n,
                    a < b <= n,
                    forall|x: int, y: int| 0 <= x < y < n && x < a ==> #[trigger] types@[x].name@ != #[trigger] types@[y].name@,
                    forall|y: int| a < y < b ==> types@[a as int].name@ != #[trigger] types@[y].name@,
                decreases n - b,
            {
                if types[a].name == types[b].name {
                    return Err(SchemaError::DuplicateType { name: types[a].name.clone() });
                }
                b = b + 1;
            }
            a = a + 1;
        }
        let mut i: usize = 0;
        while i < n
            invariant
                n == types@.len(),
                i <= n,
                forall|t: int, x: int, y: int| 0 <= t < i && 0 <= x < y < types@[t].fields@.len()
                    ==> #[trigger] types@[t].fields@[x].name@ != #[trigger] types@[t].fields@[y].name@,
            decreases n - i,
        {
            let fields = &types[i].fields;
            let m = fields.len();
            let mut a: usize = 0;
            while a < m
                invariant
                    n == types@.len(),
                    i < n,
                    *fields == types@[i as int].fields,
                    m == fields@.len(),
                    a <= m,
                    forall|t: int, x: int, y: int| 0 <= t < i && 0 <= x < y < types@[t].fields@.len()
                        ==> #[trigger] types@[t].fields@[x].name@ != #[trigger] types@[t].fields@[y].name@,
                    forall|x: int, y: int| 0 <= x < y < m && x < a ==> #[trigger] fields@[x].name@ != #[trigger] fields@[y].name@,
                decreases m - a,
            {
                let mut b: usize = a + 1;
                while b < m
                    invariant
                        n == types@.len(),
                        i < n,
                        *fields == types@[i as int].fields,
                        m == fields@.len(),
                        a < b <= m,
                        forall|x: int, y: int| 0 <= x < y < m && x < a ==> #[trigger] fields@[x].name@ != #[trigger] fields@[y].name@,
                        forall|y: int| a < y < b ==> fields@[a as int].name@ != #[trigger] fields@[y].name@,
                    decreases m - b,
                {
                    if fields[a].name == fields[b].name {
                        return Err(SchemaError::DuplicateField {
                            entity: types[i].name.clone(),
                            field: fields[a].name.clone(),
                        });
                    }
                    b = b + 1;
                }
                a = a + 1;
            }
            i = i + 1;
        }
        let ghost tys = types@;
        let links = Self::collect_links(&types);
        let schema = Schema { types, links };
        assert(schema.fields_unique());
        let mut k: usize = 0;
        while k < schema.links.len()
            invariant
                schema.types@ == tys,
                tys == types@,
                schema.fields_unique(),
                forall|x: int, y: int| 0 <= x < y < schema.types@.len() ==> #[trigger] schema.types@[x].name@ != #[trigger] schema.types@[y].name@,
                k <= schema.links@.len(),
                schema.links_declared(),
                forall|q: int| 0 <= q < k ==> #[trigger] resolves(schema.types@, schema.links@[q]),
            decreases schema.links@.len() - k,
        {
            let d = &schema.links[k];
            proof {
                assert(is_declared(schema.types@, schema.links@[k as int]));
                lemma_declared_field(schema.types@, *d);
            }
            match schema.find_type(d.source.as_str()) {
                None => {
                    proof {
                        let (wi, wj) = choose|ti: int, fj: int| 0 <= ti < schema.types@.len() && 0 <= fj < schema.types@[ti].fields@.len()
                            && #[trigger] declared_link(schema.types@, ti, fj, *d);
                        assert(schema.types@[wi].fields@[wj].name@ == d.field@);
                        assert(source_missing(tys, d.parent@, d.field@));
                    }
                    return Err(SchemaError::UnknownSourceType { entity: d.parent.clone(), field: d.field.clone() });
                },
                Some(t) => {
                    let src = &schema.types[t];
                    let mut j: usize = 0;
                    let mut found = false;
                    while j < src.fields.len() && !found
                        invariant
                            j <= src.fields@.len(),
                            found ==> has_plain_field(*src, d.link@),
                            !found ==> forall|jj: int| 0 <= jj < j ==> !(#[trigger] src.fields@[jj].name@ == d.link@
                                && src.fields@[jj].derived_from is None),
                        decreases src.fields@.len() - j,
                    {
                        if src.fields[j].name == d.link && src.fields[j].derived_from.is_none() {
                            found = true;
                        }
                        j = j + 1;
                    }
                    proof {
                        if found {
                            assert(resolves(schema.types@, schema.links@[k as int]));
                        }
                    }
                    if !found {
                        proof {
                            let (wi, wj) = choose|ti: int, fj: int| 0 <= ti < schema.types@.len() && 0 <= fj < schema.types@[ti].fields@.len()
                                && #[trigger] declared_link(schema.types@, ti, fj, *d);
                            assert(schema.types@[wi].fields@[wj].name@ == d.field@);
                            assert(!has_plain_field(*src, d.link@));
                            assert(schema.types@[t as int].name@ == schema.types@[wi].fields@[wj].base_type@);
                            assert(link_missing(tys, d.parent@, d.field@));
                        }
                        return Err(SchemaError::MissingLinkField { entity: d.parent.clone(), field: d.field.clone() });
                    }
                },
            }
            k = k + 1;
        }
        assert(schema.links_resolve());
        proof {
            lemma_links_consistent(schema);
            assert forall|i: int, j: int| 0 <= i < tys.len() && 0 <= j < tys[i].fields@.len()
                && (#[trigger] tys[i].fields@[j]).derived_from is Some
                implies exists|t: int| 0 <= t < tys.len() && #[trigger] tys[t].name@ == tys[i].fields@[j].base_type@
                    && has_plain_field(tys[t], tys[i].fields@[j].derived_from->0@) by {
                assert(schema.types@[i].fields@[j] == tys[i].fields@[j]);
                assert(has_entry(schema.types@, schema.links@, i, j));
                let k = choose|k: int| 0 <= k < schema.links@.len() && #[trigger] declared_link(schema.types@, i, j, schema.links@[k]);
                assert(resolves(schema.types@, schema.links@[k]));
            }
        }
        Ok(schema)
    }

    fn collect_links(types: &Vec<EntityType>) -> (links: Vec<DerivedLink>)
        requires
            forall|a: int, b: int|
                0 <= a < b < types@.len() ==> #[trigger] types@[a].name@ != #[trigger] types@[b].name@,
            forall|i: int, a: int, b: int| 0 <= i < types@.len() && 0 <= a < b < types@[i].fields@.len()
                ==> #[trigger] types@[i].fields@[a].name@ != #[trigger] types@[i].fields@[b].name@,
        ensures
            keys_distinct(links@),
            all_declared(types@, links@),
            forall|i: int, j: int| #![trigger types@[i].fields@[j]]
                0 <= i < types@.len() && 0 <= j < types@[i].fields@.len()
                    && types@[i].fields@[j].derived_from is Some ==> has_entry(types@, links@, i, j),
    {
        let mut links: Vec<DerivedLink> = Vec::new();
        let mut i: usize = 0;
        while i < types.len()
            invariant
                i <= types@.len(),
                all_declared(types@, links@),
                keys_distinct(links@),
                forall|a: int, b: int|
                    0 <= a < b < types@.len() ==> #[trigger] types@[a].name@ != #[trigger] types@[b].name@,
                forall|t: int, a: int, b: int| 0 <= t < types@.len() && 0 <= a < b < types@[t].fields@.len()
                    ==> #[trigger] types@[t].fields@[a].name@ != #[trigger] types@[t].fields@[b].name@,
                forall|k: int| 0 <= k < links@.len() ==> #[trigger] declared_before(types@, links@[k], i as int, 0),
                forall|t: int, q: int| #![trigger types@[t].fields@[q]]
                    0 <= t < i && 0 <= q < types@[t].fields@.len()
                        && types@[t].fields@[q].derived_from is Some ==> has_entry(types@, links@, t, q),
            decreases types@.len() - i,
        {
            let mut j: usize = 0;
            while j < types[i].fields.len()
                invariant
                    i < types@.len(),
                    j <= types@[i as int].fields@.len(),
                    all_declared(types@, links@),
                    keys_distinct(links@),
                    forall|a: int, b: int|
                        0 <= a < b < types@.len() ==> #[trigger] types@[a].name@ != #[trigger] types@[b].name@,
                    forall|t: int, a: int, b: int| 0 <= t < types@.len() && 0 <= a < b < types@[t].fields@.len()
                        ==> #[trigger] types@[t].fields@[a].name@ != #[trigger] types@[t].fields@[b].name@,
                    forall|k: int| 0 <= k < links@.len() ==> #[trigger] declared_before(types@, links@[k], i as int, j as int),
                    forall|t: int, q: int| #![trigger types@[t].fields@[q]]
                        0 <= t < types@.len() && 0 <= q < types@[t].fields@.len() && (t < i || (t == i && q < j))
                            && types@[t].fields@[q].derived_from is Some ==> has_entry(types@, links@, t, q),
                decreases types@[i as int].fields@.len() - j,
            {
                let f = &types[i].fields[j];
                match &f.derived_from {
                    Some(l) => {
                        let d = DerivedLink {
                            field: f.name.clone(),
                            link: l.clone(),
                            source: f.base_type.clone(),
                            parent: types[i].name.clone(),
                        };
                        let ghost old_links = links@;
                        links.push(d);
                        proof {
                            lemma_push_link(types@, old_links, links@, i as int, j as int);
                            let nl = links@[old_links.len() as int];
                            assert(declared_link(types@, i as int, j as int, nl));
                            assert forall|k: int| 0 <= k < links@.len() implies #[trigger] declared_before(types@, links@[k], i as int, j + 1) by {
                                if k < old_links.len() {
                                    assert(links@[k] == old_links[k]);
                                    assert(declared_before(types@, old_links[k], i as int, j as int));
                                    let (ti, fj) = choose|ti: int, fj: int| 0 <= ti < types@.len() && 0 <= fj < types@[ti].fields@.len()
                                        && #[trigger] declared_link(types@, ti, fj, old_links[k]) && (ti < i || (ti == i && fj < j));
                                    assert(declared_link(types@, ti, fj, links@[k]));
                                } else {
                                    assert(declared_link(types@, i as int, j as int, links@[k]));
                                }
                            }
                            lemma_push_distinct(types@, old_links, links@, i as int, j as int);
                        }
                    },
                    None => {
                        proof {
                            assert forall|k: int| 0 <= k < links@.len() implies #[trigger] declared_before(types@, links@[k], i as int, j + 1) by {
                                assert(declared_before(types@, links@[k], i as int, j as int));
                                let (ti, fj) = choose|ti: int, fj: int| 0 <= ti < types@.len() && 0 <= fj < types@[ti].fields@.len()
                                    && #[trigger] declared_link(types@, ti, fj, links@[k]) && (ti < i || (ti == i && fj < j));
                                assert(declared_link(types@, ti, fj, links@[k]));
                            }
                        }
                    },
                }
                j = j + 1;
            }
            proof {
                assert forall|k: int| 0 <= k < links@.len() implies #[trigger] declared_before(types@, links@[k], i + 1, 0) by {
                    assert(declared_before(types@, links@[k], i as int, types@[i as int].fields@.len() as int));
                    let (ti, fj) = choose|ti: int, fj: int| 0 <= ti < types@.len() && 0 <= fj < types@[ti].fields@.len()
                        && #[trigger] declared_link(types@, ti, fj, links@[k]) && (ti < i || (ti == i && fj < types@[i as int].fields@.len()));
                    assert(ti < i + 1);
                }
            }
            i = i + 1;
        }
        links
    }

    /// Whether the schema declares an entity type of this name.
    pub open spec fn declares(&self, name: Seq<char>) -> bool {
        exists|i: int| 0 <= i < self.types@.len() && #[trigger] self.types@[i].name@ == name
    }

    /// The position of a declared entity type.
    pub fn position_of(&self, name: &str) -> (r: usize)
        requires
            self.declares(name@),
        ensures
            r < self.types@.len() && self.types@[r as int].name@ == name@,
    {
        let mut i: usize = 0;
        while i < self.types.len()
            invariant
                self.declares(name@),
                i <= self.types@.len(),
                forall|k: int| 0 <= k < i ==> #[trigger] self.types@[k].name@ != name@,
            decreases self.types@.len() - i,
        {
            if same_text(self.types[i].name.as_str(), name) {
                return i;
            }
            i = i + 1;
        }
        proof {
            let k = choose|k: int| 0 <= k < self.types@.len() && #[trigger] self.types@[k].name@ == name@;
            assert(self.types@[k].name@ != name@);
        }
        0
    }

    /// Finds the entity type of this name.
    pub fn find_type(&self, name: &str) -> (r: Option<usize>)
        ensures
            match r {
                Some(i) => i < self.types@.len() && self.types@[i as int].name@ == name@,
                None => forall|i: int| 0 <= i < self.types@.len() ==> #[trigger] self.types@[i].name@ != name@,
            },
    {
        let mut i: usize = 0;
        while i < self.types.len()
            invariant
                i <= self.types@.len(),
                forall|k: int| 0 <= k < i ==> #[trigger] self.types@[k].name@ != name@,
            decreases self.types@.len() - i,
        {
            if same_text(self.types[i].name.as_str(), name) {
                return Some(i);
            }
            i = i + 1;
        }
        None
    }
}

} // verus!
