//! The schema: models of typed fields, and per-model output column orders.
use vstd::prelude::*;
use crate::datatypes::RandomData;
use crate::keyed::{key_pos, has_key, value_of, keys_unique, lemma_key_pos, find_key, put_entry};

verus! {

/// Where a reference reads from: a path of scope hops and a field name.
#[derive(Clone, Debug)]
pub struct Reference {
    pub path: String,
    pub property: String,
}

/// The kind of a model field.
#[derive(Clone, Debug)]
pub enum DataType {
    /// A primitive random value.
    RandomData(RandomData),
    /// `count` instances of the named model.
    List(String, usize),
    /// One instance of the named model.
    Model(String),
    /// The value of `property` in the record reached by walking `path` up the scopes.
    Reference { path: String, property: String },
}

/// The name of the model that a field of this type nests, if it nests one.
pub open spec fn nested_model(t: DataType) -> Option<Seq<char>> {
    match t {
        DataType::List(name, _) => Some(name@),
        DataType::Model(name) => Some(name@),
        _ => None,
    }
}

/// How many instances of the nested model a field of this type asks for.
pub open spec fn nested_count(t: DataType) -> nat {
    match t {
        DataType::List(_, n) => n as nat,
        DataType::Model(_) => 1,
        _ => 0,
    }
}

/// A model: named fields, in declaration order, with unique names.
#[derive(Clone, Debug)]
pub struct Model {
    properties: Vec<(String, DataType)>,
}

impl Model {
    /// The fields in declaration order.
    pub closed spec fn fields(&self) -> Seq<(String, DataType)> {
        self.properties@
    }

    pub open spec fn wf(&self) -> bool {
        keys_unique(self.fields())
    }

    /// A model without fields.
    pub fn new() -> (r: Model)
        ensures
            r.fields().len() == 0,
            r.wf(),
    {
        Model { properties: Vec::new() }
    }

    /// Sets the field `name` to `definition`, in place when the name is taken and
    /// after the other fields when it is new.
    pub fn add_property(&mut self, name: String, definition: DataType)
        requires
            old(self).wf(),
        ensures
            final(self).wf(),
            has_key(old(self).fields(), name@) ==> final(self).fields() == old(self).fields().update(
                key_pos(old(self).fields(), name@),
                (name, definition),
            ),
            !has_key(old(self).fields(), name@) ==> final(self).fields() == old(self).fields().push(
                (name, definition),
            ),
    {
        put_entry(&mut self.properties, name, definition);
    }

    /// The fields in declaration order.
    pub fn type_iter(&self) -> (r: &Vec<(String, DataType)>)
        ensures
            r@ == self.fields(),
    {
        &self.properties
    }
}

/// A schema: named models and, per model, an optional output column order.
#[derive(Clone, Debug)]
pub struct Specification {
    serialize: Vec<(String, Vec<String>)>,
    models: Vec<(String, Model)>,
}

impl Specification {
    pub closed spec fn models(&self) -> Seq<(String, Model)> {
        self.models@
    }

    pub closed spec fn serialize(&self) -> Seq<(String, Vec<String>)> {
        self.serialize@
    }

    /// Whether a model of this name exists.
    pub open spec fn defines(&self, name: Seq<char>) -> bool {
        has_key(self.models(), name)
    }

    /// The model of this name; meaningful where `defines(name)`.
    pub open spec fn definition(&self, name: Seq<char>) -> Model {
        self.models()[key_pos(self.models(), name)].1
    }

    /// The explicit column order of a model, if one was given.
    pub open spec fn column_order(&self, name: Seq<char>) -> Option<Vec<String>> {
        value_of(self.serialize(), name)
    }

    pub open spec fn wf(&self) -> bool {
        &&& keys_unique(self.models())
        &&& keys_unique(self.serialize())
        &&& forall|i: int| 0 <= i < self.models().len() ==> (#[trigger] self.models()[i]).1.wf()
    }

    /// A schema without models.
    pub fn new() -> (r: Specification)
        ensures
            r.models().len() == 0,
            r.serialize().len() == 0,
            r.wf(),
    {
        Specification { serialize: Vec::new(), models: Vec::new() }
    }

    /// Sets the model `name` to `model`, in place when the name is taken and
    /// after the other models when it is new.
    pub fn add_model(&mut self, name: String, model: Model)
        requires
            old(self).wf(),
            model.wf(),
        ensures
            final(self).wf(),
            final(self).serialize() == old(self).serialize(),
            has_key(old(self).models(), name@) ==> final(self).models() == old(self).models().update(
                key_pos(old(self).models(), name@),
                (name, model),
            ),
            !has_key(old(self).models(), name@) ==> final(self).models() == old(self).models().push(
                (name, model),
            ),
    {
        let ghost before = self.models@;
        put_entry(&mut self.models, name, model);
        proof {
            lemma_key_pos(before, self.models@.last().0@);
            lemma_key_pos(before, name@);
            assert forall|i: int| 0 <= i < self.models().len() implies (#[trigger] self.models()[i]).1.wf() by {
                if i < before.len() && i != key_pos(before, name@) {
                    assert(self.models@[i] == before[i]);
                }
            }
        }
    }

    /// Sets the output column order of the model `name`.
    pub fn set_serialize(&mut self, name: String, columns: Vec<String>)
        requires
            old(self).wf(),
        ensures
            final(self).wf(),
            final(self).models() == old(self).models(),
            final(self).column_order(name@) == Some(columns),
            forall|n: Seq<char>| n != name@ ==> final(self).column_order(n) == old(self).column_order(n),
    {
        put_entry(&mut self.serialize, name, columns);
    }

    /// How many models the schema holds.
    pub fn model_count(&self) -> (r: usize)
        ensures
            r == self.models().len(),
    {
        self.models.len()
    }

    /// The name and model stored at position `i`.
    pub fn model_entry(&self, i: usize) -> (r: (&String, &Model))
        requires
            i < self.models().len(),
        ensures
            *r.0 == self.models()[i as int].0,
            *r.1 == self.models()[i as int].1,
    {
        (&self.models[i].0, &self.models[i].1)
    }

    /// The position of the model `name`, if it exists.
    pub fn model_index(&self, name: &String) -> (r: Option<usize>)
        ensures
            r is Some ==> r->Some_0 as int == key_pos(self.models(), name@) && self.defines(name@),
            r is None ==> !self.defines(name@),
    {
        proof {
            lemma_key_pos(self.models@, name@);
        }
        find_key(&self.models, name)
    }

    /// Whether a model of this name exists.
    pub fn has_model(&self, name: &String) -> (r: bool)
        ensures
            r == self.defines(name@),
    {
        proof {
            lemma_key_pos(self.models@, name@);
        }
        find_key(&self.models, name).is_some()
    }

    /// The model of this name.
    pub fn get_definition(&self, name: &String) -> (r: &Model)
        requires
            self.defines(name@),
        ensures
            *r == self.definition(name@),
    {
        proof {
            lemma_key_pos(self.models@, name@);
        }
        let i = find_key(&self.models, name).unwrap();
        &self.models[i].1
    }

    /// The explicit output column order of the model `name`, if one was given.
    pub fn get_serialize_ref(&self, name: &String) -> (r: Option<&Vec<String>>)
        ensures
            self.column_order(name@) is None ==> r is None,
            self.column_order(name@) is Some ==> r is Some && *r->Some_0 == self.column_order(name@)->Some_0,
    {
        proof {
            lemma_key_pos(self.serialize@, name@);
        }
        match find_key(&self.serialize, name) {
            Some(i) => Some(&self.serialize[i].1),
            None => None,
        }
    }
}

/// Why a schema could not be loaded.
#[derive(Clone, Debug, PartialEq, Eq)]
pub enum SpecError {
    /// No schema file at the given path.
    MissingFile(String),
    /// Reading the schema failed for another reason, described here.
    IOError { inner: String },
    /// The schema path is not valid text.
    BadPath,
    /// The schema is not valid JSON.
    BadFormat,
    /// The schema is JSON but does not describe models.
    BadData,
}

} // verus!
