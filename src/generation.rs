//! Output formats, and how many records of each flat model to generate.
use vstd::prelude::*;
use vstd::string::StrSliceExecFns;
use crate::generator::Record;
use crate::keyed::value_of;
use crate::model::{ModelMap, generated_for};

verus! {

/// How many records of each flat model to generate.
#[derive(Clone, Debug)]
pub struct GenerationSpecification {
    pub models: Vec<(String, usize)>,
}

/// The format of generated output files.
#[derive(Clone, Copy, Debug, PartialEq, Eq, Structural)]
pub enum OutputType {
    JSON,
    CSV,
}

/// The record's entries as pairs of texts.
pub open spec fn record_pairs(rec: Seq<(String, String)>) -> Seq<(Seq<char>, Seq<char>)> {
    rec.map_values(|p: (String, String)| (p.0@, p.1@))
}

/// The JSON text of an object with the given fields, all string-valued.
pub uninterp spec fn json_object_text(fields: Seq<(Seq<char>, Seq<char>)>) -> Seq<char>;

/// Relies on serde_json's `to_string` on a `serde_json::Map` of string
/// values: the JSON text of the object, determined by its fields alone.
#[verifier::external_body]
fn record_json(rec: &Record) -> (r: String)
    ensures
        r@ == json_object_text(record_pairs(rec@)),
{
    let mut object = serde_json::Map::new();
    for (key, value) in rec.iter() {
        object.insert(key.clone(), serde_json::Value::String(value.clone()));
    }
    serde_json::to_string(&object).unwrap_or_default()
}

/// The model name of each output that `entries` ask for, in order: `count`
/// times each listed model that `models` holds.
pub open spec fn planned_outputs(entries: Seq<(String, usize)>, models: ModelMap) -> Seq<Seq<char>>
    decreases entries.len(),
{
    if entries.len() == 0 {
        Seq::empty()
    } else {
        let e = entries.last();
        planned_outputs(entries.drop_last(), models) + if value_of(models.models(), e.0@) is Some {
            Seq::new(e.1 as nat, |k: int| e.0@)
        } else {
            Seq::empty()
        }
    }
}

/// Whether `text` is the JSON object of a record generated for the model `name`.
pub open spec fn json_of_model(models: ModelMap, name: Seq<char>, text: Seq<char>) -> bool {
    exists|rec: Seq<(String, String)>|
        generated_for(value_of(models.models(), name)->Some_0.0@, rec) && text == json_object_text(#[trigger] record_pairs(rec))
}

impl GenerationSpecification {
    /// Generates the JSON objects that this specification asks for: for each
    /// entry, in order, `count` records of the named model, skipping names
    /// that `models` lacks.
    pub fn generate_models(&self, models: &ModelMap) -> (r: Vec<String>)
        ensures
            r@.len() == planned_outputs(self.models@, *models).len(),
            forall|i: int|
                0 <= i < r@.len() ==> json_of_model(*models, planned_outputs(self.models@, *models)[i], (#[trigger] r@[i])@),
    {
        let mut output: Vec<String> = Vec::new();
        let mut e: usize = 0;
        while e < self.models.len()
            invariant
                e <= self.models@.len(),
                output@.len() == planned_outputs(self.models@.subrange(0, e as int), *models).len(),
                forall|i: int|
                    0 <= i < output@.len() ==> json_of_model(
                        *models,
                        planned_outputs(self.models@.subrange(0, e as int), *models)[i],
                        (#[trigger] output@[i])@,
                    ),
            decreases self.models@.len() - e,
        {
            let ghost prefix = self.models@.subrange(0, e as int);
            let ghost before = planned_outputs(prefix, *models);
            assert(self.models@.subrange(0, e + 1).drop_last() =~= prefix);
            let name = &self.models[e].0;
            let count = self.models[e].1;
            match models.get_model(name.clone()) {
                Some(def) => {
                    let ghost start = output@.len();
                    let mut k: usize = 0;
                    while k < count
                        invariant
                            k <= count,
                            output@.len() == start + k,
                            start == before.len(),
                            *def == value_of(models.models(), name@)->Some_0,
                            forall|i: int| 0 <= i < start ==> json_of_model(*models, before[i], (#[trigger] output@[i])@),
                            forall|i: int| start <= i < output@.len() ==> json_of_model(*models, name@, (#[trigger] output@[i])@),
                        decreases count - k,
                    {
                        let rec = def.generate_data();
                        let text = record_json(&rec);
                        output.push(text);
                        proof {
                            assert(json_of_model(*models, name@, text@)) by {
                                assert(generated_for(def.0@, rec@));
                                assert(text@ == json_object_text(record_pairs(rec@)));
                            }
                        }
                        k = k + 1;
                    }
                    proof {
                        let after = planned_outputs(self.models@.subrange(0, e + 1), *models);
                        assert(after =~= before + Seq::new(count as nat, |j: int| name@));
                        assert forall|i: int| 0 <= i < output@.len() implies json_of_model(*models, after[i], (#[trigger] output@[i])@) by {
                            if i >= start {
                                assert(after[i] == name@);
                            } else {
                                assert(after[i] == before[i]);
                            }
                        }
                    }
                },
                None => {
                    proof {
                        let after = planned_outputs(self.models@.subrange(0, e + 1), *models);
                        assert(after =~= before);
                    }
                },
            }
            e = e + 1;
        }
        assert(self.models@.subrange(0, e as int) =~= self.models@);
        output
    }
}

impl OutputType {
    /// The file extension of this format.
    pub fn as_extension(&self) -> (r: &'static str)
        ensures
            *self == OutputType::JSON ==> r@ == seq!['j', 's', 'o', 'n'],
            *self == OutputType::CSV ==> r@ == seq!['c', 's', 'v'],
    {
        proof {
            reveal_strlit("json");
            reveal_strlit("csv");
        }
        match self {
            OutputType::JSON => "json",
            OutputType::CSV => "csv",
        }
    }

    /// The format named `s`: JSON for `json`, CSV for anything else.
    pub fn from_name(s: &str) -> (r: OutputType)
        ensures
            s@ == seq!['j', 's', 'o', 'n'] ==> r == OutputType::JSON,
            s@ != seq!['j', 's', 'o', 'n'] ==> r == OutputType::CSV,
    {
        if s.unicode_len() == 4 && s.get_char(0) == 'j' && s.get_char(1) == 's' && s.get_char(2) == 'o' && s.get_char(3) == 'n' {
            assert(s@ =~= seq!['j', 's', 'o', 'n']);
            OutputType::JSON
        } else {
            OutputType::CSV
        }
    }
}

/// The format a command-line name selects: JSON for `json`, CSV otherwise.
pub open spec fn format_named(s: Seq<char>) -> OutputType {
    if s == seq!['j', 's', 'o', 'n'] {
        OutputType::JSON
    } else {
        OutputType::CSV
    }
}

impl<'a> From<&'a str> for OutputType {
    fn from(s: &'a str) -> (r: OutputType)
        ensures
            r == format_named(s@),
    {
        OutputType::from_name(s)
    }
}

impl<'a> vstd::std_specs::convert::FromSpecImpl<&'a str> for OutputType {
    open spec fn obeys_from_spec() -> bool {
        true
    }

    open spec fn from_spec(s: &'a str) -> OutputType {
        format_named(s@)
    }
}

} // verus!
