//! The schema: entity types, their fields, and the relations between them.

use vstd::prelude::*;

use crate::query::ast::RelationDef;
use crate::storage::model::Bytes;
use crate::text::{str_eq, texts};

verus! {

/// The type of a plain value.
#[derive(Debug, Clone, Copy, PartialEq, Eq, Structural)]
pub enum ScalarType {
    /// Truth values.
    Bool,
    /// 32-bit integers.
    Int32,
    /// 64-bit integers.
    Int64,
    /// Single-precision numbers.
    Float32,
    /// Double-precision numbers.
    Float64,
    /// Texts.
    String,
    /// Raw bytes.
    Bytes,
    /// Timestamps.
    Timestamp,
    /// Entity identifiers.
    Uuid,
}

/// The type of a field.
#[derive(Debug, Clone, Copy, PartialEq, Eq, Structural)]
pub enum FieldType {
    /// A plain value.
    Scalar(ScalarType),
    /// A plain value that may be missing.
    OptionalScalar(ScalarType),
    /// An array of plain values.
    ArrayOf(ScalarType),
}

/// A field of an entity type.
#[derive(Debug)]
pub struct FieldDef {
    /// Its name.
    pub name: String,
    /// Its type.
    pub field_type: FieldType,
}

impl FieldDef {
    /// A field with a name and a type.
    pub fn new(name: &str, field_type: FieldType) -> (f: FieldDef)
        ensures
            f.name@ == name@,
            f.field_type == field_type,
    {
        FieldDef { name: name.to_owned(), field_type }
    }
}

/// An entity type.
#[derive(Debug)]
pub struct EntityDef {
    /// Its name.
    pub name: String,
    /// The field that identifies entities.
    pub id_field: String,
    /// Its fields.
    pub fields: Vec<FieldDef>,
}

/// An entity type in mathematical terms.
pub ghost struct EntityDefView {
    /// Its name.
    pub name: Seq<char>,
    /// The field that identifies its entities.
    pub id_field: Seq<char>,
    /// Its fields.
    pub fields: Seq<(Seq<char>, FieldType)>,
}

impl View for EntityDef {
    type V = EntityDefView;

    open spec fn view(&self) -> EntityDefView {
        EntityDefView {
            name: self.name@,
            id_field: self.id_field@,
            fields: self.fields@.map_values(|f: FieldDef| (f.name@, f.field_type)),
        }
    }
}

impl EntityDef {
    /// An entity type without fields.
    pub fn new(name: &str, id_field: &str) -> (e: EntityDef)
        ensures
            e@ == (EntityDefView { name: name@, id_field: id_field@, fields: Seq::empty() }),
    {
        let e = EntityDef {
            name: name.to_owned(),
            id_field: id_field.to_owned(),
            fields: Vec::new(),
        };
        assert(e@.fields =~= Seq::<(Seq<char>, FieldType)>::empty());
        e
    }

    /// The entity type with a field more.
    pub fn with_field(self, field: FieldDef) -> (e: EntityDef)
        ensures
            e@ == (EntityDefView {
                fields: self@.fields.push((field.name@, field.field_type)),
                ..self@
            }),
    {
        let mut made = self;
        let ghost before = made@.fields;
        made.fields.push(field);
        assert(made@.fields =~= before.push((field.name@, field.field_type)));
        made
    }

    /// The names of the fields.
    pub fn field_list(&self) -> (names: Vec<String>)
        ensures
            texts(names@) == self@.fields.map_values(|f: (Seq<char>, FieldType)| f.0),
    {
        let mut names: Vec<String> = Vec::new();
        let mut i: usize = 0;
        while i < self.fields.len()
            invariant
                i <= self.fields@.len(),
                names@.len() == i,
                forall|k: int| 0 <= k < i ==> (#[trigger] names@[k])@ == self.fields@[k].name@,
            decreases self.fields@.len() - i,
        {
            names.push(self.fields[i].name.clone());
            i = i + 1;
        }
        assert(texts(names@) =~= self@.fields.map_values(|f: (Seq<char>, FieldType)| f.0));
        names
    }
}

/// A relation in mathematical terms.
pub ghost struct RelationView {
    /// Its name.
    pub name: Seq<char>,
    /// The type that it starts from.
    pub from_entity: Seq<char>,
    /// The field that it starts from.
    pub from_field: Seq<char>,
    /// The type that it leads to.
    pub to_entity: Seq<char>,
    /// The field that refers back.
    pub to_field: Seq<char>,
    /// The type between the two, where there is one.
    pub edge_entity: Option<Seq<char>>,
}

impl View for RelationDef {
    type V = RelationView;

    open spec fn view(&self) -> RelationView {
        RelationView {
            name: self.name@,
            from_entity: self.from_entity@,
            from_field: self.from_field@,
            to_entity: self.to_entity@,
            to_field: self.to_field@,
            edge_entity: self.edge_entity.deep_view(),
        }
    }
}

impl RelationDef {
    /// A relation from one entity to those that refer to it.
    pub fn one_to_many(
        name: &str,
        from_entity: &str,
        from_field: &str,
        to_entity: &str,
        to_field: &str,
    ) -> (r: RelationDef)
        ensures
            r@ == (RelationView {
                name: name@,
                from_entity: from_entity@,
                from_field: from_field@,
                to_entity: to_entity@,
                to_field: to_field@,
                edge_entity: None,
            }),
    {
        RelationDef {
            name: name.to_owned(),
            from_entity: from_entity.to_owned(),
            from_field: from_field.to_owned(),
            to_entity: to_entity.to_owned(),
            to_field: to_field.to_owned(),
            edge_entity: None,
        }
    }

    /// A copy of the relation.
    pub fn copy(&self) -> (r: RelationDef)
        ensures
            r@ == self@,
    {
        RelationDef {
            name: self.name.clone(),
            from_entity: self.from_entity.clone(),
            from_field: self.from_field.clone(),
            to_entity: self.to_entity.clone(),
            to_field: self.to_field.clone(),
            edge_entity: match &self.edge_entity {
                Some(e) => Some(e.clone()),
                None => None,
            },
        }
    }
}

/// A schema.
#[derive(Debug)]
pub struct SchemaBundle {
    /// Its version.
    pub version: u64,
    /// The entity types.
    pub entities: Vec<EntityDef>,
    /// The relations.
    pub relations: Vec<RelationDef>,
}

/// A schema in mathematical terms.
pub ghost struct SchemaView {
    /// Its version; 0 where there is none.
    pub version: u64,
    /// The entity types.
    pub entities: Seq<EntityDefView>,
    /// The relations.
    pub relations: Seq<RelationView>,
}

impl View for SchemaBundle {
    type V = SchemaView;

    open spec fn view(&self) -> SchemaView {
        SchemaView {
            version: self.version,
            entities: self.entities@.map_values(|e: EntityDef| e@),
            relations: self.relations@.map_values(|r: RelationDef| r@),
        }
    }
}

impl SchemaBundle {
    /// A schema without entity types.
    pub fn new(version: u64) -> (s: SchemaBundle)
        ensures
            s@ == (SchemaView { version, entities: Seq::empty(), relations: Seq::empty() }),
    {
        let s = SchemaBundle { version, entities: Vec::new(), relations: Vec::new() };
        assert(s@.entities =~= Seq::<EntityDefView>::empty());
        assert(s@.relations =~= Seq::<RelationView>::empty());
        s
    }

    /// The schema with an entity type more.
    pub fn with_entity(self, entity: EntityDef) -> (s: SchemaBundle)
        ensures
            s@ == (SchemaView { entities: self@.entities.push(entity@), ..self@ }),
    {
        let mut made = self;
        let ghost before = made@.entities;
        made.entities.push(entity);
        assert(made@.entities =~= before.push(entity@));
        made
    }

    /// The schema with a relation more.
    pub fn with_relation(self, relation: RelationDef) -> (s: SchemaBundle)
        ensures
            s@ == (SchemaView { relations: self@.relations.push(relation@), ..self@ }),
    {
        let mut made = self;
        let ghost before = made@.relations;
        made.relations.push(relation);
        assert(made@.relations =~= before.push(relation@));
        made
    }
}

impl EntityDef {
    /// A copy of the entity type.
    pub fn copy(&self) -> (e: EntityDef)
        ensures
            e@ == self@,
    {
        let mut fields: Vec<FieldDef> = Vec::new();
        let mut i: usize = 0;
        while i < self.fields.len()
            invariant
                i <= self.fields@.len(),
                fields@.len() == i,
                forall|k: int|
                    0 <= k < i ==> (#[trigger] fields@[k]).name@ == self.fields@[k].name@
                        && fields@[k].field_type == self.fields@[k].field_type,
            decreases self.fields@.len() - i,
        {
            fields.push(FieldDef::new(self.fields[i].name.as_str(), self.fields[i].field_type));
            i = i + 1;
        }
        let e = EntityDef { name: self.name.clone(), id_field: self.id_field.clone(), fields };
        assert(e@.fields =~= self@.fields);
        e
    }
}

impl SchemaBundle {
    /// A copy of the schema.
    pub fn copy(&self) -> (s: SchemaBundle)
        ensures
            s@ == self@,
    {
        let mut entities: Vec<EntityDef> = Vec::new();
        let mut i: usize = 0;
        while i < self.entities.len()
            invariant
                i <= self.entities@.len(),
                entities@.len() == i,
                forall|k: int| 0 <= k < i ==> (#[trigger] entities@[k])@ == self.entities@[k]@,
            decreases self.entities@.len() - i,
        {
            entities.push(self.entities[i].copy());
            i = i + 1;
        }
        let mut relations: Vec<RelationDef> = Vec::new();
        let mut i: usize = 0;
        while i < self.relations.len()
            invariant
                i <= self.relations@.len(),
                relations@.len() == i,
                forall|k: int| 0 <= k < i ==> (#[trigger] relations@[k])@ == self.relations@[k]@,
            decreases self.relations@.len() - i,
        {
            relations.push(self.relations[i].copy());
            i = i + 1;
        }
        let s = SchemaBundle { version: self.version, entities, relations };
        assert(s@.entities =~= self@.entities);
        assert(s@.relations =~= self@.relations);
        s
    }
}

/// The first entity type with a name.
pub open spec fn entity_named(entities: Seq<EntityDefView>, name: Seq<char>) -> Option<
    EntityDefView,
>
    decreases entities.len(),
{
    if entities.len() == 0 {
        None
    } else if entities[0].name == name {
        Some(entities[0])
    } else {
        entity_named(entities.drop_first(), name)
    }
}

/// The first relation with a name that starts from a type.
pub open spec fn relation_named(
    relations: Seq<RelationView>,
    from_entity: Seq<char>,
    name: Seq<char>,
) -> Option<RelationView>
    decreases relations.len(),
{
    if relations.len() == 0 {
        None
    } else if relations[0].from_entity == from_entity && relations[0].name == name {
        Some(relations[0])
    } else {
        relation_named(relations.drop_first(), from_entity, name)
    }
}

/// The fields by which entities of a type refer to others.
pub open spec fn referring_fields(relations: Seq<RelationView>, entity: Seq<char>) -> Seq<Seq<char>>
    decreases relations.len(),
{
    if relations.len() == 0 {
        Seq::empty()
    } else {
        let init = referring_fields(relations.drop_last(), entity);
        if relations.last().to_entity == entity {
            init.push(relations.last().to_field)
        } else {
            init
        }
    }
}

/// The schema in force.
pub struct Catalog {
    schema: SchemaBundle,
}

impl View for Catalog {
    type V = SchemaView;

    closed spec fn view(&self) -> SchemaView {
        self.schema@
    }
}

impl Catalog {
    /// A catalog without a schema.
    pub fn new() -> (c: Catalog)
        ensures
            c@ == (SchemaView { version: 0, entities: Seq::empty(), relations: Seq::empty() }),
    {
        Catalog { schema: SchemaBundle::new(0) }
    }

    /// Puts a schema in force.
    pub fn apply_schema(&mut self, schema: SchemaBundle)
        ensures
            final(self)@ == schema@,
    {
        self.schema = schema;
    }

    /// The version of the schema in force; 0 where there is none.
    pub fn current_version(&self) -> (v: u64)
        ensures
            v == self@.version,
    {
        self.schema.version
    }

    /// The schema in force.
    pub fn current_schema(&self) -> (s: &SchemaBundle)
        ensures
            s@ == self@,
    {
        &self.schema
    }

    /// The entity type with a name.
    pub fn get_entity(&self, name: &str) -> (r: Option<&EntityDef>)
        ensures
            match r {
                Some(e) => entity_named(self@.entities, name@) == Some(e@),
                None => entity_named(self@.entities, name@) is None,
            },
    {
        let ghost all = self@.entities;
        let mut i: usize = 0;
        assert(all.skip(0) =~= all);
        while i < self.schema.entities.len()
            invariant
                i <= self.schema.entities@.len(),
                all == self.schema.entities@.map_values(|e: EntityDef| e@),
                entity_named(all, name@) == entity_named(all.skip(i as int), name@),
            decreases self.schema.entities@.len() - i,
        {
            proof {
                assert(all.skip(i as int)[0] == self.schema.entities@[i as int]@);
                assert(all.skip(i as int).drop_first() =~= all.skip(i + 1));
            }
            if str_eq(self.schema.entities[i].name.as_str(), name) {
                return Some(&self.schema.entities[i]);
            }
            i = i + 1;
        }
        None
    }

    /// The relation with a name that starts from a type.
    pub fn get_relation(&self, from_entity: &str, name: &str) -> (r: Option<&RelationDef>)
        ensures
            match r {
                Some(e) => relation_named(self@.relations, from_entity@, name@) == Some(e@),
                None => relation_named(self@.relations, from_entity@, name@) is None,
            },
    {
        let ghost all = self@.relations;
        let mut i: usize = 0;
        assert(all.skip(0) =~= all);
        while i < self.schema.relations.len()
            invariant
                i <= self.schema.relations@.len(),
                all == self.schema.relations@.map_values(|r: RelationDef| r@),
                relation_named(all, from_entity@, name@) == relation_named(
                    all.skip(i as int),
                    from_entity@,
                    name@,
                ),
            decreases self.schema.relations@.len() - i,
        {
            proof {
                assert(all.skip(i as int)[0] == self.schema.relations@[i as int]@);
                assert(all.skip(i as int).drop_first() =~= all.skip(i + 1));
            }
            let r: &RelationDef = &self.schema.relations[i];
            if str_eq(r.from_entity.as_str(), from_entity) && str_eq(r.name.as_str(), name) {
                return Some(r);
            }
            i = i + 1;
        }
        None
    }

    /// The fields by which entities of a type refer to others.
    pub fn relation_fields_to(&self, entity: &str) -> (out: Vec<String>)
        ensures
            texts(out@) == referring_fields(self@.relations, entity@),
    {
        let ghost all = self@.relations;
        let mut out: Vec<String> = Vec::new();
        let mut i: usize = 0;
        assert(all.take(0) =~= Seq::<RelationView>::empty());
        assert(texts(out@) =~= Seq::<Seq<char>>::empty());
        while i < self.schema.relations.len()
            invariant
                i <= self.schema.relations@.len(),
                all == self.schema.relations@.map_values(|r: RelationDef| r@),
                texts(out@) == referring_fields(all.take(i as int), entity@),
            decreases self.schema.relations@.len() - i,
        {
            let ghost before = texts(out@);
            let r: &RelationDef = &self.schema.relations[i];
            proof {
                assert(all.take(i + 1).drop_last() =~= all.take(i as int));
                assert(all.take(i + 1).last() == r@);
            }
            if str_eq(r.to_entity.as_str(), entity) {
                out.push(r.to_field.clone());
                assert(texts(out@) =~= before.push(r.to_field@));
            }
            i = i + 1;
        }
        assert(all.take(all.len() as int) =~= all);
        out
    }
}

} // verus!
