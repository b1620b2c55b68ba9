//! Flat models: named primitive fields without nesting.
use vstd::prelude::*;
use crate::datatypes::{RandomData, fixed_text, generate_fake_data};
use crate::generator::Record;
use crate::keyed::{key_pos, has_key, value_of, keys_unique, lemma_key_pos, find_key, put_entry};

verus! {

/// A flat model: named primitive fields, in declaration order, with unique names.
#[derive(Clone, Debug)]
pub struct Model(pub Vec<(String, RandomData)>);

/// Flat models by name, with optional output column orders.
#[derive(Clone, Debug)]
pub struct ModelMap {
    serialize: Vec<(String, Vec<String>)>,
    models: Vec<(String, Model)>,
}

/// Whether `rec` is a record generated for the fields `props`: the same
/// names in the same order, with the fixed text of each kind that has one.
pub open spec fn generated_for(props: Seq<(String, RandomData)>, rec: Seq<(String, String)>) -> bool {
    &&& rec.len() == props.len()
    &&& forall|i: int| 0 <= i < rec.len() ==> (#[trigger] rec[i]).0 == props[i].0
    &&& forall|i: int|
        0 <= i < rec.len() && fixed_text(props[i].1) is Some ==> (#[trigger] rec[i]).1@ == fixed_text(props[i].1)->Some_0
}

/// The fields of `props` whose kind is a cross-model reference, in order.
pub open spec fn reference_fields(props: Seq<(String, RandomData)>) -> Seq<(String, RandomData)>
    decreases props.len(),
{
    if props.len() == 0 {
        Seq::empty()
    } else if props.last().1 is Reference {
        reference_fields(props.drop_last()).push(props.last())
    } else {
        reference_fields(props.drop_last())
    }
}

impl Model {
    pub open spec fn wf(&self) -> bool {
        keys_unique(self.0@)
    }

    /// A model without fields.
    pub fn new() -> (r: Model)
        ensures
            r.0@.len() == 0,
            r.wf(),
    {
        Model(Vec::new())
    }

    /// Sets the field `name` to `definition`, in place when the name is taken and
    /// after the other fields when it is new.
    pub fn add_property(&mut self, name: String, definition: RandomData) -> (r: &mut Model)
        requires
            old(self).wf(),
        ensures
            r.wf(),
            value_of(r.0@, name@) == Some(definition),
            forall|n: Seq<char>| n != name@ ==> value_of(r.0@, n) == value_of(old(self).0@, n),
            has_key(old(self).0@, name@) ==> r.0@ == old(self).0@.update(key_pos(old(self).0@, name@), (name, definition)),
            !has_key(old(self).0@, name@) ==> r.0@ == old(self).0@.push((name, definition)),
            *final(self) == *final(r),
    {
        put_entry(&mut self.0, name, definition);
        self
    }

    /// The kind of the field `name`, if the model has it.
    pub fn get_property(&self, name: String) -> (r: Option<&RandomData>)
        ensures
            value_of(self.0@, name@) is None ==> r is None,
            value_of(self.0@, name@) is Some ==> r is Some && *r->Some_0 == value_of(self.0@, name@)->Some_0,
    {
        proof {
            lemma_key_pos(self.0@, name@);
        }
        match find_key(&self.0, &name) {
            Some(i) => Some(&self.0[i].1),
            None => None,
        }
    }

    /// Generates one record: a value for every field, in field order.
    pub fn generate_data(&self) -> (r: Record)
        ensures
            generated_for(self.0@, r@),
    {
        let mut generated: Record = Vec::new();
        let mut i: usize = 0;
        while i < self.0.len()
            invariant
                i <= self.0@.len(),
                generated_for(self.0@.subrange(0, i as int), generated@),
            decreases self.0@.len() - i,
        {
            let name = self.0[i].0.clone();
            let value = generate_fake_data(&self.0[i].1);
            generated.push((name, value));
            i = i + 1;
        }
        assert(self.0@.subrange(0, i as int) =~= self.0@);
        generated
    }

    /// The fields whose kind is a cross-model reference, in field order.
    pub fn get_reference_types(&self) -> (r: Vec<(String, RandomData)>)
        ensures
            r@ == reference_fields(self.0@),
    {
        let mut refs: Vec<(String, RandomData)> = Vec::new();
        let mut i: usize = 0;
        while i < self.0.len()
            invariant
                i <= self.0@.len(),
                refs@ == reference_fields(self.0@.subrange(0, i as int)),
            decreases self.0@.len() - i,
        {
            let ghost prefix = self.0@.subrange(0, i as int);
            assert(self.0@.subrange(0, i + 1).drop_last() =~= prefix);
            match &self.0[i].1 {
                RandomData::Reference { model, field } => {
                    let entry = RandomData::Reference { model: model.clone(), field: field.clone() };
                    refs.push((self.0[i].0.clone(), entry));
                    assert(self.0@.subrange(0, i + 1).last() == self.0@[i as int]);
                },
                _ => {},
            }
            i = i + 1;
        }
        assert(self.0@.subrange(0, i as int) =~= self.0@);
        refs
    }
}

impl ModelMap {
    pub closed spec fn models(&self) -> Seq<(String, Model)> {
        self.models@
    }

    pub closed spec fn serialize(&self) -> Seq<(String, Vec<String>)> {
        self.serialize@
    }

    pub open spec fn wf(&self) -> bool {
        &&& keys_unique(self.models())
        &&& keys_unique(self.serialize())
    }

    /// A map without models or column orders.
    pub fn new() -> (r: ModelMap)
        ensures
            r.models().len() == 0,
            r.serialize().len() == 0,
            r.wf(),
    {
        ModelMap { serialize: Vec::new(), models: Vec::new() }
    }

    /// Sets the model `name` to `model`, in place when the name is taken and
    /// after the other models when it is new.
    pub fn add_model(&mut self, name: String, model: Model) -> (r: &mut ModelMap)
        requires
            old(self).wf(),
        ensures
            r.wf(),
            r.serialize() == old(self).serialize(),
            value_of(r.models(), name@) == Some(model),
            forall|n: Seq<char>| n != name@ ==> value_of(r.models(), n) == value_of(old(self).models(), n),
            *final(self) == *final(r),
    {
        put_entry(&mut self.models, name, model);
        self
    }

    /// Sets the output column order of the model `name`.
    pub fn set_serialize(&mut self, name: String, columns: Vec<String>)
        requires
            old(self).wf(),
        ensures
            final(self).wf(),
            final(self).models() == old(self).models(),
            value_of(final(self).serialize(), name@) == Some(columns),
            forall|n: Seq<char>| n != name@ ==> value_of(final(self).serialize(), n) == value_of(old(self).serialize(), n),
    {
        put_entry(&mut self.serialize, name, columns);
    }

    /// The model `name`, if there is one.
    pub fn get_model(&self, name: String) -> (r: Option<&Model>)
        ensures
            value_of(self.models(), name@) is None ==> r is None,
            value_of(self.models(), name@) is Some ==> r is Some && *r->Some_0 == value_of(self.models(), name@)->Some_0,
    {
        proof {
            lemma_key_pos(self.models@, name@);
        }
        match find_key(&self.models, &name) {
            Some(i) => Some(&self.models[i].1),
            None => None,
        }
    }

    /// Generates one record of every model, in model order.
    pub fn generate_data(&self) -> (r: Vec<(String, Record)>)
        ensures
            r@.len() == self.models().len(),
            forall|i: int| 0 <= i < r@.len() ==> (#[trigger] r@[i]).0 == self.models()[i].0,
            forall|i: int| 0 <= i < r@.len() ==> generated_for(self.models()[i].1.0@, (#[trigger] r@[i]).1@),
    {
        let mut generated: Vec<(String, Record)> = Vec::new();
        let mut i: usize = 0;
        while i < self.models.len()
            invariant
                i <= self.models@.len(),
                generated@.len() == i,
                forall|j: int| 0 <= j < i ==> (#[trigger] generated@[j]).0 == self.models@[j].0,
                forall|j: int| 0 <= j < i ==> generated_for(self.models@[j].1.0@, (#[trigger] generated@[j]).1@),
            decreases self.models@.len() - i,
        {
            let name = self.models[i].0.clone();
            let data = self.models[i].1.generate_data();
            generated.push((name, data));
            i = i + 1;
        }
        generated
    }

    /// The models, by name.
    pub fn get_models_ref(&self) -> (r: &Vec<(String, Model)>)
        ensures
            r@ == self.models(),
    {
        &self.models
    }

    /// The output column orders, by model name.
    pub fn get_serialize_ref(&self) -> (r: &Vec<(String, Vec<String>)>)
        ensures
            r@ == self.serialize(),
    {
        &self.serialize
    }
}

} // verus!
