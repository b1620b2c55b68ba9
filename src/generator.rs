//! The recursive generator: the scope chain, reference resolution, the
//! dependency validator, and the CSV row of a generated record.
use vstd::prelude::*;
use vstd::string::StrSliceExecFns;
use crate::datatypes::{fixed_text, generate_fake_data, null_text};
use crate::specification::{DataType, Model, Specification, nested_model, nested_count};
use crate::keyed::{key_pos, has_key, value_of, keys_unique, lemma_key_pos, lemma_key_pos_same_keys, find_key};

verus! {

/// One generated record: field name to generated text, in field order.
pub type Record = Vec<(String, String)>;

/// Every generated record, by model name, in generation order.
pub type ModelDataMap = Vec<(String, Vec<Record>)>;

/// The text written where a reference cannot be resolved.
pub open spec fn sentinel() -> Seq<char> {
    seq!['n', 'u', 'l', 'l']
}

/// The records stored under model name `n` (none when the name is absent).
pub open spec fn data_of(m: Seq<(String, Vec<Record>)>, n: Seq<char>) -> Seq<Seq<(String, String)>> {
    match value_of(m, n) {
        Some(list) => list@.map_values(|r: Record| r@),
        None => Seq::empty(),
    }
}

/// A model data map: model names are unique, and each holds at least one record.
pub open spec fn data_wf(m: Seq<(String, Vec<Record>)>) -> bool {
    &&& keys_unique(m)
    &&& forall|i: int| 0 <= i < m.len() ==> (#[trigger] m[i]).1@.len() > 0
}

/// In a model data map, a name is present exactly when it has records.
pub proof fn lemma_data_keys(m: Seq<(String, Vec<Record>)>, n: Seq<char>)
    requires
        data_wf(m),
    ensures
        has_key(m, n) <==> data_of(m, n).len() > 0,
{
    lemma_key_pos(m, n);
    if key_pos(m, n) >= 0 {
        assert(m[key_pos(m, n)].1@.len() > 0);
    }
}

/// Returns a copy of `r` with the same entries.
pub fn copy_record(r: &Record) -> (c: Record)
    ensures
        c@ == r@,
{
    let mut c: Record = Vec::new();
    let mut i: usize = 0;
    while i < r.len()
        invariant
            i <= r.len(),
            c@ == r@.subrange(0, i as int),
        decreases r.len() - i,
    {
        let k = r[i].0.clone();
        let v = r[i].1.clone();
        c.push((k, v));
        i = i + 1;
        assert(c@ =~= r@.subrange(0, i as int));
    }
    assert(c@ =~= r@);
    c
}

/// Appends `extra` to the records stored under `name`, adding the name when it is new.
fn append_records(m: &mut ModelDataMap, name: &String, extra: &mut Vec<Record>)
    requires
        data_wf(old(m)@),
    ensures
        data_wf(final(m)@),
        data_of(final(m)@, name@) == data_of(old(m)@, name@) + old(extra)@.map_values(|r: Record| r@),
        forall|n: Seq<char>| n != name@ ==> data_of(final(m)@, n) == data_of(old(m)@, n),
        final(extra)@.len() == 0,
{
    proof {
        lemma_key_pos(m@, name@);
    }
    let ghost before = m@;
    let ghost added = extra@;
    match find_key(m, name) {
        Some(i) => {
            let (k, mut list) = m.remove(i);
            let ghost old_list = list@;
            list.append(extra);
            m.insert(i, (k, list));
            proof {
                assert(before[i as int].1@.len() > 0);
                assert(m@ =~= before.update(i as int, (k, list)));
                lemma_key_pos_same_keys(before, m@, name@);
                assert(list@.map_values(|r: Record| r@) =~= old_list.map_values(|r: Record| r@) + added.map_values(|r: Record| r@));
                assert forall|n: Seq<char>| n != name@ implies data_of(m@, n) == data_of(before, n) by {
                    lemma_key_pos_same_keys(before, m@, n);
                    lemma_key_pos(before, n);
                }
            }
        },
        None => {
            if extra.len() == 0 {
                assert(added.map_values(|r: Record| r@) =~= Seq::empty());
                assert(data_of(before, name@) + Seq::empty() =~= data_of(before, name@));
                return;
            }
            let mut list: Vec<Record> = Vec::new();
            list.append(extra);
            m.push((name.clone(), list));
            proof {
                assert(m@.drop_last() =~= before);
                assert(data_of(before, name@) =~= Seq::empty());
                assert(data_of(m@, name@) =~= added.map_values(|r: Record| r@));
                assert forall|n: Seq<char>| n != name@ implies data_of(m@, n) == data_of(before, n) by {
                    lemma_key_pos(before, n);
                }
            }
        },
    }
}

/// One hop of a reference path.
pub enum RefType {
    /// `^`: go to the enclosing scope.
    Parent,
}

/// A reference path is `^` hops separated by `~`, with at least one hop.
pub open spec fn path_valid(p: Seq<char>) -> bool {
    &&& p.len() % 2 == 1
    &&& forall|i: int| 0 <= i < p.len() ==> p[i] == (if i % 2 == 0 { '^' } else { '~' })
}

/// The number of hops of a valid reference path.
pub open spec fn path_hops(p: Seq<char>) -> nat {
    ((p.len() + 1) / 2) as nat
}

/// Splits a reference path into its hops; `None` when a token is not `^`.
pub fn parse_ref_path(path: &String) -> (r: Option<Vec<RefType>>)
    ensures
        r is Some <==> path_valid(path@),
        r is Some ==> r->Some_0@.len() == path_hops(path@),
{
    let s = path.as_str();
    let n = s.unicode_len();
    if n % 2 == 0 {
        return None;
    }
    let mut hops: Vec<RefType> = Vec::new();
    let mut i: usize = 0;
    while i < n
        invariant
            n == path@.len(),
            s@ == path@,
            n % 2 == 1,
            i <= n,
            i % 2 == 0,
            hops@.len() == i / 2,
            forall|j: int| 0 <= j < i ==> path@[j] == (if j % 2 == 0 { '^' } else { '~' }),
        decreases n - i,
    {
        if s.get_char(i) != '^' {
            return None;
        }
        hops.push(RefType::Parent);
        if i + 1 < n {
            if s.get_char(i + 1) != '~' {
                return None;
            }
            i = i + 2;
        } else {
            i = i + 1;
            assert(i == n);
            return Some(hops);
        }
    }
    Some(hops)
}

/// The records of a chain of scopes, as sequences.
pub open spec fn scope_view(parents: Seq<Record>) -> Seq<Seq<(String, String)>> {
    parents.map_values(|r: Record| r@)
}

/// The record `hops` scopes up from the innermost one in `parents`
/// (outermost first), if the chain is that deep.
pub open spec fn ancestor(parents: Seq<Seq<(String, String)>>, hops: nat) -> Option<Seq<(String, String)>> {
    if 1 <= hops <= parents.len() {
        Some(parents[parents.len() - hops])
    } else {
        None
    }
}

/// The text that a reference to `property` along `path` reads under `parents`:
/// the value in the resolved record, or the sentinel when the chain is too
/// short or the record lacks the property. Meaningful for valid paths.
pub open spec fn ref_value(parents: Seq<Seq<(String, String)>>, path: Seq<char>, property: Seq<char>) -> Seq<char> {
    match ancestor(parents, path_hops(path)) {
        Some(rec) => match value_of(rec, property) {
            Some(v) => v@,
            None => sentinel(),
        },
        None => sentinel(),
    }
}

/// Why generation failed.
#[derive(Clone, Debug, PartialEq, Eq)]
pub enum GenError {
    /// The requested root model is not in the schema.
    UnknownRootModel(String),
    /// A nested field names a model that is not in the schema.
    UnknownModelReference(String),
    /// A reference path holds a token other than `^`.
    InvalidReferencePath(String),
    /// An instance of this model would be generated inside another instance
    /// of it: the schema nests the model inside itself.
    CyclicNesting(String),
}

/// The texts of a sequence of names.
pub open spec fn names_view(v: Seq<String>) -> Seq<Seq<char>> {
    v.map_values(|s: String| s@)
}

/// The state of one generation walk: the records of the enclosing scopes and
/// the names of their models, outermost first, and every record generated so far.
pub struct GenContext {
    pub parents: Vec<Record>,
    pub scope_models: Vec<String>,
    pub models: ModelDataMap,
}

impl GenContext {
    /// A walk with no enclosing scope and nothing generated yet.
    pub fn new() -> (r: GenContext)
        ensures
            r.parents@.len() == 0,
            r.scope_models@.len() == 0,
            r.models@.len() == 0,
    {
        GenContext { parents: Vec::new(), scope_models: Vec::new(), models: Vec::new() }
    }

    /// Appends one record under the model name `data_type`.
    pub fn add_model_data(&mut self, data_type: String, data_values: Record)
        requires
            data_wf(old(self).models@),
        ensures
            final(self).parents == old(self).parents,
            final(self).scope_models == old(self).scope_models,
            data_wf(final(self).models@),
            data_of(final(self).models@, data_type@) == data_of(old(self).models@, data_type@).push(data_values@),
            forall|n: Seq<char>| n != data_type@ ==> data_of(final(self).models@, n) == data_of(old(self).models@, n),
    {
        let ghost v = data_values@;
        let mut extra: Vec<Record> = Vec::new();
        extra.push(data_values);
        append_records(&mut self.models, &data_type, &mut extra);
        proof {
            assert(seq![v] =~= seq![data_values].map_values(|r: Record| r@));
        }
    }

    /// Moves every record of `other_data` to the end of the records of the same
    /// model name here. `other_data` keeps its names, each with no records.
    pub fn merge_model_data(&mut self, other_data: &mut ModelDataMap)
        requires
            data_wf(old(self).models@),
            keys_unique(old(other_data)@),
        ensures
            final(self).parents == old(self).parents,
            final(self).scope_models == old(self).scope_models,
            data_wf(final(self).models@),
            forall|n: Seq<char>| data_of(final(self).models@, n) == data_of(old(self).models@, n) + data_of(old(other_data)@, n),
            final(other_data)@.len() == old(other_data)@.len(),
            forall|j: int| 0 <= j < final(other_data)@.len() ==> (#[trigger] final(other_data)@[j]).0 == old(other_data)@[j].0
                && final(other_data)@[j].1@.len() == 0,
    {
        let ghost orig = other_data@;
        let ghost base = self.models@;
        proof {
            assert forall|n: Seq<char>| data_of(base, n) == data_of(base, n) + (if key_pos(orig, n) < 0 { data_of(orig, n) } else { Seq::empty() }) by {
                lemma_key_pos(orig, n);
                if key_pos(orig, n) < 0 {
                    assert(data_of(orig, n) =~= Seq::empty());
                }
                assert(data_of(base, n) =~= data_of(base, n) + Seq::empty());
            }
        }
        let mut i: usize = 0;
        while i < other_data.len()
            invariant
                other_data@.len() == orig.len(),
                i <= orig.len(),
                forall|j: int| 0 <= j < i ==> (#[trigger] other_data@[j]).0 == orig[j].0 && other_data@[j].1@.len() == 0,
                forall|j: int| i <= j < orig.len() ==> #[trigger] other_data@[j] == orig[j],
                keys_unique(orig),
                data_wf(self.models@),
                self.parents == old(self).parents,
                self.scope_models == old(self).scope_models,
                forall|n: Seq<char>| data_of(self.models@, n) == data_of(base, n) + (if key_pos(orig, n) < i { data_of(orig, n) } else { Seq::empty() }),
            decreases orig.len() - i,
        {
            let ghost before_other = other_data@;
            let (k, mut list) = other_data.remove(i);
            proof {
                assert(orig[i as int] == before_other[i as int]);
                lemma_key_pos(orig, k@);
                crate::keyed::lemma_unique_pos(orig, i as int);
            }
            let ghost prev = self.models@;
            let ghost added = list@;
            append_records(&mut self.models, &k, &mut list);
            other_data.insert(i, (k, list));
            proof {
                assert forall|j: int| 0 <= j < i + 1 implies (#[trigger] other_data@[j]).0 == orig[j].0 && other_data@[j].1@.len() == 0 by {
                    if j < i {
                        assert(other_data@[j] == before_other[j]);
                    }
                }
                assert forall|j: int| i + 1 <= j < orig.len() implies #[trigger] other_data@[j] == orig[j] by {
                    assert(other_data@[j] == before_other[j]);
                }
                assert forall|n: Seq<char>| data_of(self.models@, n) == data_of(base, n) + (if key_pos(orig, n) < i + 1 { data_of(orig, n) } else { Seq::empty() }) by {
                    lemma_key_pos(orig, n);
                    if n == k@ {
                        assert(data_of(orig, n) == added.map_values(|r: Record| r@));
                        assert(data_of(prev, n) =~= data_of(base, n) + Seq::empty());
                    } else {
                        if key_pos(orig, n) == i {
                            assert(orig[i as int].0@ == n);
                        }
                    }
                }
            }
            i = i + 1;
        }
        proof {
            assert forall|n: Seq<char>| data_of(self.models@, n) == data_of(base, n) + data_of(orig, n) by {
                lemma_key_pos(orig, n);
            }
        }
    }

    /// The record that `parts` leads to from the innermost scope, if the chain is that deep.
    pub fn fetch_ref_path(&self, parts: &Vec<RefType>) -> (r: Option<&Record>)
        ensures
            r is Some <==> ancestor(scope_view(self.parents@), parts@.len()) is Some,
            r is Some ==> r->Some_0@ == ancestor(scope_view(self.parents@), parts@.len())->Some_0,
    {
        let hops = parts.len();
        let depth = self.parents.len();
        if hops == 0 || hops > depth {
            None
        } else {
            Some(&self.parents[depth - hops])
        }
    }
}

/// Whether `rec` is a record built for `fields` under the scopes `parents`:
/// one entry per primitive or reference field, in field order, nothing for
/// nested fields; a reference holds the text it resolves to, and a primitive
/// without randomness its fixed text.
pub open spec fn record_fits(
    fields: Seq<(String, DataType)>,
    parents: Seq<Seq<(String, String)>>,
    rec: Seq<(String, String)>,
) -> bool
    decreases fields.len(),
{
    if fields.len() == 0 {
        rec.len() == 0
    } else {
        let f = fields.last();
        match f.1 {
            DataType::RandomData(d) => {
                &&& rec.len() > 0
                &&& rec.last().0@ == f.0@
                &&& fixed_text(d) is Some ==> rec.last().1@ == fixed_text(d)->Some_0
                &&& record_fits(fields.drop_last(), parents, rec.drop_last())
            },
            DataType::Reference { path, property } => {
                &&& rec.len() > 0
                &&& rec.last().0@ == f.0@
                &&& rec.last().1@ == ref_value(parents, path@, property@)
                &&& record_fits(fields.drop_last(), parents, rec.drop_last())
            },
            _ => record_fits(fields.drop_last(), parents, rec),
        }
    }
}

/// Every reference among `fields` has a valid path.
pub open spec fn paths_valid(fields: Seq<(String, DataType)>) -> bool {
    forall|i: int|
        0 <= i < fields.len() ==> match #[trigger] fields[i].1 {
            DataType::Reference { path, .. } => path_valid(path@),
            _ => true,
        }
}

/// The model names of the child instances that `fields` ask for, in the
/// order they are generated: field by field, `count` times for a list.
pub open spec fn child_plan(fields: Seq<(String, DataType)>) -> Seq<Seq<char>>
    decreases fields.len(),
{
    if fields.len() == 0 {
        Seq::empty()
    } else {
        let t = fields.last().1;
        child_plan(fields.drop_last()) + Seq::new(nested_count(t), |k: int| nested_model(t)->Some_0)
    }
}

/// One node of a generation tree: the model, the record generated for it,
/// and the subtrees of its child instances in generation order.
pub struct GenTree {
    pub model: Seq<char>,
    pub record: Seq<(String, String)>,
    pub children: Seq<GenTree>,
}

/// Whether generating the model `name` inside instances of the models
/// `chain` (outermost first) fails: the model is already on the chain (the
/// schema nests it inside itself), it is missing, one of its reference paths
/// is invalid, or so does one of the child instances it asks for. A chain as
/// long as the schema has models always repeats one, since it holds only
/// existing models.
pub open spec fn gen_fails(spec: Specification, name: Seq<char>, chain: Seq<Seq<char>>) -> bool
    decreases spec.models().len() - chain.len(),
{
    if chain.contains(name) {
        true
    } else if !spec.defines(name) {
        true
    } else if chain.len() >= spec.models().len() {
        true
    } else {
        let fields = spec.definition(name).fields();
        ||| !paths_valid(fields)
        ||| exists|j: int|
            0 <= j < child_plan(fields).len() && gen_fails(spec, #[trigger] child_plan(fields)[j], chain.push(name))
    }
}

/// Whether `t` is a generation tree of the model `name` inside instances of
/// the models `chain`, whose records are `parents`: the model is not on the
/// chain, its record fits the model, and it has one subtree per planned child
/// instance, each generated with this record as the innermost scope.
pub open spec fn tree_ok(
    spec: Specification,
    name: Seq<char>,
    chain: Seq<Seq<char>>,
    parents: Seq<Seq<(String, String)>>,
    t: GenTree,
) -> bool
    decreases spec.models().len() - chain.len(),
{
    &&& chain.len() < spec.models().len()
    &&& !chain.contains(name)
    &&& spec.defines(name)
    &&& t.model == name
    &&& record_fits(spec.definition(name).fields(), parents, t.record)
    &&& t.children.len() == child_plan(spec.definition(name).fields()).len()
    &&& forall|j: int|
        0 <= j < t.children.len() ==> tree_ok(
            spec,
            #[trigger] child_plan(spec.definition(name).fields())[j],
            chain.push(name),
            parents.push(t.record),
            t.children[j],
        )
}

/// The records of model `n` in a generation tree, parent before children.
pub open spec fn tree_records(t: GenTree, n: Seq<char>) -> Seq<Seq<(String, String)>>
    decreases t,
{
    (if t.model == n { seq![t.record] } else { Seq::empty() }) + forest_records(t.children, n)
}

/// The records of model `n` in a sequence of generation trees, tree by tree.
pub open spec fn forest_records(ts: Seq<GenTree>, n: Seq<char>) -> Seq<Seq<(String, String)>>
    decreases ts,
{
    if ts.len() == 0 {
        Seq::empty()
    } else {
        forest_records(ts.drop_last(), n) + tree_records(ts.last(), n)
    }
}

/// Builds the record of one instance of a model with the fields `fields`,
/// reading references from the scopes of `ctx`. Nested fields are left out.
fn build_record(fields: &Vec<(String, DataType)>, ctx: &GenContext) -> (r: Result<Record, GenError>)
    ensures
        r is Ok ==> record_fits(fields@, scope_view(ctx.parents@), r->Ok_0@),
        r is Err <==> !paths_valid(fields@),
{
    let ghost sv = scope_view(ctx.parents@);
    let mut rec: Record = Vec::new();
    let mut i: usize = 0;
    assert(fields@.subrange(0, 0).len() == 0);
    while i < fields.len()
        invariant
            i <= fields.len(),
            sv == scope_view(ctx.parents@),
            record_fits(fields@.subrange(0, i as int), sv, rec@),
            paths_valid(fields@.subrange(0, i as int)),
        decreases fields.len() - i,
    {
        let ghost prefix = fields@.subrange(0, i as int);
        let ghost next = fields@.subrange(0, i + 1);
        assert(next.drop_last() =~= prefix);
        assert(next.last() == fields@[i as int]);
        let name = &fields[i].0;
        match &fields[i].1 {
            DataType::RandomData(d) => {
                let v = generate_fake_data(d);
                let ghost before = rec@;
                rec.push((name.clone(), v));
                assert(rec@.drop_last() =~= before);
            },
            DataType::Reference { path, property } => {
                let parts = match parse_ref_path(path) {
                    Some(p) => p,
                    None => {
                        assert(!paths_valid(fields@)) by {
                            assert(match fields@[i as int].1 {
                                DataType::Reference { path, .. } => !path_valid(path@),
                                _ => false,
                            });
                        }
                        return Err(GenError::InvalidReferencePath(path.clone()));
                    },
                };
                let v = match ctx.fetch_ref_path(&parts) {
                    Some(target) => {
                        proof {
                            lemma_key_pos(target@, property@);
                        }
                        match find_key(target, property) {
                            Some(j) => target[j].1.clone(),
                            None => null_text(),
                        }
                    },
                    None => null_text(),
                };
                assert(v@ == ref_value(sv, path@, property@));
                let ghost before = rec@;
                rec.push((name.clone(), v));
                assert(rec@.drop_last() =~= before);
            },
            _ => {},
        }
        assert(paths_valid(next)) by {
            assert forall|j: int| 0 <= j < next.len() implies match #[trigger] next[j].1 {
                DataType::Reference { path, .. } => path_valid(path@),
                _ => true,
            } by {
                if j < i {
                    assert(next[j] == prefix[j]);
                }
            }
        }
        i = i + 1;
    }
    assert(fields@.subrange(0, i as int) =~= fields@);
    Ok(rec)
}

/// The plan of one more field extends the plan of the fields before it.
pub proof fn lemma_plan_step(fields: Seq<(String, DataType)>, i: int)
    requires
        0 <= i < fields.len(),
    ensures
        child_plan(fields.subrange(0, i + 1)) == child_plan(fields.subrange(0, i)) + Seq::new(
            nested_count(fields[i].1),
            |k: int| nested_model(fields[i].1)->Some_0,
        ),
{
    assert(fields.subrange(0, i + 1).drop_last() =~= fields.subrange(0, i));
}

/// The plan of a prefix of the fields is a prefix of the plan of all fields.
pub proof fn lemma_plan_prefix(fields: Seq<(String, DataType)>, i: int)
    requires
        0 <= i <= fields.len(),
    ensures
        child_plan(fields.subrange(0, i)).len() <= child_plan(fields).len(),
        child_plan(fields) =~= child_plan(fields.subrange(0, i)) + child_plan(fields).subrange(
            child_plan(fields.subrange(0, i)).len() as int,
            child_plan(fields).len() as int,
        ),
    decreases fields.len() - i,
{
    if i < fields.len() {
        lemma_plan_prefix(fields, i + 1);
        lemma_plan_step(fields, i);
    } else {
        assert(fields.subrange(0, i) =~= fields);
    }
}

/// Adding a tree adds its records after those of the trees before it.
pub proof fn lemma_forest_push(ts: Seq<GenTree>, t: GenTree, n: Seq<char>)
    ensures
        forest_records(ts.push(t), n) == forest_records(ts, n) + tree_records(t, n),
{
    assert(ts.push(t).drop_last() =~= ts);
}

/// Every list of `a` is a prefix of the list of the same name in `b`.
pub open spec fn data_extends(a: Seq<(String, Vec<Record>)>, b: Seq<(String, Vec<Record>)>) -> bool {
    forall|n: Seq<char>| #[trigger] data_of(a, n).is_prefix_of(data_of(b, n))
}

proof fn lemma_extends_trans(a: Seq<(String, Vec<Record>)>, b: Seq<(String, Vec<Record>)>, c: Seq<(String, Vec<Record>)>)
    requires
        data_extends(a, b),
        data_extends(b, c),
    ensures
        data_extends(a, c),
{
    assert forall|n: Seq<char>| #[trigger] data_of(a, n).is_prefix_of(data_of(c, n)) by {
        assert(data_of(a, n).is_prefix_of(data_of(b, n)));
        assert(data_of(b, n).is_prefix_of(data_of(c, n)));
        assert forall|i: int| 0 <= i < data_of(a, n).len() implies data_of(a, n)[i] == data_of(c, n)[i] by {
            assert(data_of(a, n)[i] == data_of(b, n)[i]);
        }
    }
}

/// Whether the text of `n` is among the texts of `v`.
fn contains_name(v: &Vec<String>, n: &String) -> (r: bool)
    ensures
        r == names_view(v@).contains(n@),
{
    let mut i: usize = 0;
    while i < v.len()
        invariant
            i <= v.len(),
            forall|j: int| 0 <= j < i ==> v@[j]@ != n@,
        decreases v.len() - i,
    {
        if v[i] == *n {
            assert(names_view(v@)[i as int] == n@);
            return true;
        }
        i = i + 1;
    }
    proof {
        if names_view(v@).contains(n@) {
            let j = choose|j: int| 0 <= j < names_view(v@).len() && names_view(v@)[j] == n@;
            assert(v@[j]@ == n@);
        }
    }
    false
}

/// Generates one instance of the model `model_type` with the scopes of `ctx`
/// as its enclosing scopes: builds its record, appends it to `ctx`, then
/// generates the planned child instances with that record as the innermost
/// scope. Returns the generation tree of the instance. On failure the records
/// appended so far stay, after the old ones.
fn generate_model_data(model_type: &String, spec: &Specification, ctx: &mut GenContext) -> (r: Result<Ghost<GenTree>, GenError>)
    requires
        spec.wf(),
        data_wf(old(ctx).models@),
    ensures
        final(ctx).parents@ == old(ctx).parents@,
        final(ctx).scope_models@ == old(ctx).scope_models@,
        data_wf(final(ctx).models@),
        data_extends(old(ctx).models@, final(ctx).models@),
        r is Err <==> gen_fails(*spec, model_type@, names_view(old(ctx).scope_models@)),
        r is Ok ==> tree_ok(*spec, model_type@, names_view(old(ctx).scope_models@), scope_view(old(ctx).parents@), r->Ok_0@),
        r is Ok ==> forall|n: Seq<char>|
            data_of(final(ctx).models@, n) == data_of(old(ctx).models@, n) + tree_records(r->Ok_0@, n),
    decreases spec.models().len() - ctx.scope_models@.len(),
{
    let ghost chain = names_view(ctx.scope_models@);
    let ghost old_names = ctx.scope_models@;
    let ghost old_parents = ctx.parents@;
    let ghost old_models = ctx.models@;
    let ghost sv = scope_view(ctx.parents@);
    assert(data_extends(old_models, old_models)) by {
        assert forall|n: Seq<char>| #[trigger] data_of(old_models, n).is_prefix_of(data_of(old_models, n)) by {}
    }
    if contains_name(&ctx.scope_models, model_type) {
        return Err(GenError::CyclicNesting(model_type.clone()));
    }
    if !spec.has_model(model_type) {
        return Err(GenError::UnknownModelReference(model_type.clone()));
    }
    if ctx.scope_models.len() >= spec.model_count() {
        return Err(GenError::CyclicNesting(model_type.clone()));
    }
    let model = spec.get_definition(model_type);
    let fields = model.type_iter();
    let ghost plan = child_plan(fields@);
    let record = match build_record(fields, ctx) {
        Ok(rec) => rec,
        Err(e) => {
            return Err(e);
        },
    };
    let ghost rv = record@;
    let ghost own = |n: Seq<char>| if n == model_type@ { seq![rv] } else { Seq::<Seq<(String, String)>>::empty() };
    ctx.add_model_data(model_type.clone(), copy_record(&record));
    ctx.parents.push(record);
    ctx.scope_models.push(model_type.clone());
    assert(scope_view(ctx.parents@) =~= sv.push(rv));
    assert(names_view(ctx.scope_models@) =~= chain.push(model_type@));
    let ghost mut children: Seq<GenTree> = Seq::empty();
    proof {
        assert forall|n: Seq<char>| data_of(ctx.models@, n) == data_of(old_models, n) + own(n) + forest_records(children, n) by {
            assert(forest_records(children, n) =~= Seq::empty());
            if n != model_type@ {
                assert(data_of(old_models, n) + own(n) =~= data_of(old_models, n));
            }
        }
        assert(fields@.subrange(0, 0) =~= Seq::empty());
    }
    let mut i: usize = 0;
    while i < fields.len()
        invariant
            spec.wf(),
            fields@ == spec.definition(model_type@).fields(),
            spec.defines(model_type@),
            plan == child_plan(fields@),
            chain == names_view(old_names),
            !chain.contains(model_type@),
            chain.len() < spec.models().len(),
            old(ctx).scope_models@ == old_names,
            old(ctx).parents@ == old_parents,
            old(ctx).models@ == old_models,
            i <= fields.len(),
            ctx.parents@ == old_parents.push(record),
            ctx.scope_models@ == old_names.push(*model_type),
            scope_view(ctx.parents@) == sv.push(rv),
            names_view(ctx.scope_models@) == chain.push(model_type@),
            data_wf(ctx.models@),
            children.len() == child_plan(fields@.subrange(0, i as int)).len(),
            children.len() <= plan.len(),
            forall|j: int| 0 <= j < children.len() ==> tree_ok(*spec, #[trigger] plan[j], chain.push(model_type@), sv.push(rv), children[j]),
            forall|j: int| 0 <= j < children.len() ==> !gen_fails(*spec, #[trigger] plan[j], chain.push(model_type@)),
            forall|n: Seq<char>| data_of(ctx.models@, n) == data_of(old_models, n) + own(n) + forest_records(children, n),
        decreases fields.len() - i,
    {
        proof {
            lemma_plan_step(fields@, i as int);
            lemma_plan_prefix(fields@, i + 1);
        }
        let (child, count): (&String, usize) = match &fields[i].1 {
            DataType::Model(c) => (c, 1),
            DataType::List(c, n) => (c, *n),
            _ => {
                i = i + 1;
                assert(children.len() == child_plan(fields@.subrange(0, i as int)).len());
                continue;
            },
        };
        assert(nested_count(fields@[i as int].1) == count);
        assert(nested_model(fields@[i as int].1) == Some(child@));
        let ghost start = children.len();
        let mut k: usize = 0;
        while k < count
            invariant
                spec.wf(),
                fields@ == spec.definition(model_type@).fields(),
                spec.defines(model_type@),
                plan == child_plan(fields@),
                chain == names_view(old_names),
                !chain.contains(model_type@),
                chain.len() < spec.models().len(),
                old(ctx).scope_models@ == old_names,
                old(ctx).parents@ == old_parents,
                old(ctx).models@ == old_models,
                k <= count,
                start + count <= plan.len(),
                forall|j: int| start <= j < start + count ==> #[trigger] plan[j] == child@,
                ctx.parents@ == old_parents.push(record),
                ctx.scope_models@ == old_names.push(*model_type),
                scope_view(ctx.parents@) == sv.push(rv),
                names_view(ctx.scope_models@) == chain.push(model_type@),
                data_wf(ctx.models@),
                children.len() == start + k,
                forall|j: int| 0 <= j < children.len() ==> tree_ok(*spec, #[trigger] plan[j], chain.push(model_type@), sv.push(rv), children[j]),
                forall|j: int| 0 <= j < children.len() ==> !gen_fails(*spec, #[trigger] plan[j], chain.push(model_type@)),
                forall|n: Seq<char>| data_of(ctx.models@, n) == data_of(old_models, n) + own(n) + forest_records(children, n),
            decreases count - k,
        {
            assert(ctx.scope_models@.len() == old_names.len() + 1);
            let ghost before_call = ctx.models@;
            let res = generate_model_data(child, spec, ctx);
            match res {
                Ok(t) => {
                    proof {
                        assert(plan[children.len() as int] == child@);
                        assert forall|n: Seq<char>| data_of(ctx.models@, n) == data_of(old_models, n) + own(n) + forest_records(children.push(t@), n) by {
                            lemma_forest_push(children, t@, n);
                            assert(data_of(old_models, n) + own(n) + forest_records(children.push(t@), n) =~= data_of(old_models, n) + own(n) + forest_records(children, n) + tree_records(t@, n));
                        }
                        children = children.push(t@);
                    }
                },
                Err(e) => {
                    ctx.parents.pop();
                    ctx.scope_models.pop();
                    proof {
                        assert(ctx.parents@ =~= old_parents);
                        assert(ctx.scope_models@ =~= old_names);
                        let j = children.len() as int;
                        assert(plan[j] == child@);
                        assert(gen_fails(*spec, plan[j], chain.push(model_type@)));
                        assert(child_plan(spec.definition(model_type@).fields())[j] == plan[j]);
                        assert(0 <= j < child_plan(spec.definition(model_type@).fields()).len());
                        assert(gen_fails(*spec, model_type@, chain));
                        assert(data_extends(old_models, before_call)) by {
                            assert forall|n: Seq<char>| #[trigger] data_of(old_models, n).is_prefix_of(data_of(before_call, n)) by {
                                assert(data_of(before_call, n) == data_of(old_models, n) + own(n) + forest_records(children, n));
                            }
                        }
                        lemma_extends_trans(old_models, before_call, ctx.models@);
                    }
                    return Err(e);
                },
            }
            k = k + 1;
        }
        i = i + 1;
    }
    ctx.parents.pop();
    ctx.scope_models.pop();
    proof {
        assert(ctx.parents@ =~= old_parents);
        assert(ctx.scope_models@ =~= old_names);
        assert(fields@.subrange(0, i as int) =~= fields@);
        let t = GenTree { model: model_type@, record: rv, children };
        assert forall|n: Seq<char>| data_of(ctx.models@, n) == data_of(old_models, n) + tree_records(t, n) by {
            assert(data_of(old_models, n) + own(n) + forest_records(children, n) =~= data_of(old_models, n) + tree_records(t, n));
        }
        assert forall|n: Seq<char>| #[trigger] data_of(old_models, n).is_prefix_of(data_of(ctx.models@, n)) by {
            assert(data_of(ctx.models@, n) == data_of(old_models, n) + tree_records(t, n));
        }
        assert(tree_ok(*spec, model_type@, chain, sv, t));
        assert(!gen_fails(*spec, model_type@, chain));
    }
    Ok(Ghost(GenTree { model: model_type@, record: rv, children }))
}

/// Whether some field of `m` nests the model `c`.
pub open spec fn nests(m: Model, c: Seq<char>) -> bool {
    exists|i: int| 0 <= i < m.fields().len() && nested_model(#[trigger] m.fields()[i].1) == Some(c)
}

/// The model names reached from `root` by following nested fields of
/// existing models at most `k` times.
pub open spec fn reach_within(spec: Specification, root: Seq<char>, k: nat) -> Set<Seq<char>>
    decreases k,
{
    if k == 0 {
        set![root]
    } else {
        let prev = reach_within(spec, root, (k - 1) as nat);
        prev.union(
            Set::new(
                |c: Seq<char>|
                    exists|m: Seq<char>| #[trigger] prev.contains(m) && spec.defines(m) && nests(spec.definition(m), c),
            ),
        )
    }
}

/// Whether the model name `m` is reached from `root` through nested fields.
pub open spec fn reachable(spec: Specification, root: Seq<char>, m: Seq<char>) -> bool {
    exists|k: nat| #[trigger] reach_within(spec, root, k).contains(m)
}

/// Every model nested by a model reachable from `root` exists.
pub open spec fn deps_ok(spec: Specification, root: Seq<char>) -> bool {
    forall|m: Seq<char>, c: Seq<char>|
        #[trigger] reachable(spec, root, m) && spec.defines(m) && #[trigger] nests(spec.definition(m), c) ==> spec.defines(c)
}

/// The number of `false` entries of `s`.
pub open spec fn count_false(s: Seq<bool>) -> nat
    decreases s.len(),
{
    if s.len() == 0 {
        0
    } else {
        count_false(s.drop_last()) + if s.last() { 0nat } else { 1nat }
    }
}

proof fn lemma_count_false_mark(s: Seq<bool>, j: int)
    requires
        0 <= j < s.len(),
        !s[j],
    ensures
        count_false(s.update(j, true)) + 1 == count_false(s),
    decreases s.len(),
{
    let t = s.update(j, true);
    if j < s.len() - 1 {
        assert(t.drop_last() =~= s.drop_last().update(j, true));
        lemma_count_false_mark(s.drop_last(), j);
    } else {
        assert(t.drop_last() =~= s.drop_last());
    }
}

proof fn lemma_count_false_bound(s: Seq<bool>)
    ensures
        count_false(s) <= s.len(),
    decreases s.len(),
{
    if s.len() > 0 {
        lemma_count_false_bound(s.drop_last());
    }
}

/// A name nested by a reached model is reached one step later.
pub proof fn lemma_reach_step(spec: Specification, root: Seq<char>, k: nat, m: Seq<char>, c: Seq<char>)
    requires
        reach_within(spec, root, k).contains(m),
        spec.defines(m),
        nests(spec.definition(m), c),
    ensures
        reach_within(spec, root, k + 1).contains(c),
{
    let prev = reach_within(spec, root, k);
    assert(reach_within(spec, root, k + 1) == prev.union(
        Set::new(|x: Seq<char>| exists|y: Seq<char>| #[trigger] prev.contains(y) && spec.defines(y) && nests(spec.definition(y), x)),
    ));
}

/// A set that holds `root` and every model nested by an existing model in it
/// holds everything reachable from `root`.
proof fn lemma_reach_closed(spec: Specification, root: Seq<char>, s: Set<Seq<char>>, k: nat)
    requires
        s.contains(root),
        forall|m: Seq<char>, c: Seq<char>| #[trigger] s.contains(m) && spec.defines(m) && #[trigger] nests(spec.definition(m), c) ==> s.contains(c),
    ensures
        reach_within(spec, root, k).subset_of(s),
    decreases k,
{
    if k > 0 {
        lemma_reach_closed(spec, root, s, (k - 1) as nat);
    }
}

/// The names of the models that `fields` nest, one per nesting field, in field order.
pub open spec fn nested_names(fields: Seq<(String, DataType)>) -> Seq<Seq<char>>
    decreases fields.len(),
{
    if fields.len() == 0 {
        Seq::empty()
    } else {
        nested_names(fields.drop_last()) + match nested_model(fields.last().1) {
            Some(c) => seq![c],
            None => Seq::empty(),
        }
    }
}

/// The names of the models that the fields of `model` nest, in field order.
fn get_model_children(model: &Model) -> (r: Vec<String>)
    ensures
        names_view(r@) == nested_names(model.fields()),
        forall|k: int| 0 <= k < r@.len() ==> nests(*model, #[trigger] r@[k]@),
        forall|i: int|
            0 <= i < model.fields().len() && nested_model((#[trigger] model.fields()[i]).1) is Some
                ==> exists|k: int| 0 <= k < r@.len() && Some(r@[k]@) == nested_model(model.fields()[i].1),
{
    let fields = model.type_iter();
    let mut r: Vec<String> = Vec::new();
    let mut i: usize = 0;
    while i < fields.len()
        invariant
            i <= fields.len(),
            fields@ == model.fields(),
            names_view(r@) == nested_names(fields@.subrange(0, i as int)),
            forall|k: int| 0 <= k < r@.len() ==> nests(*model, #[trigger] r@[k]@),
            forall|j: int|
                0 <= j < i && nested_model((#[trigger] fields@[j]).1) is Some
                    ==> exists|k: int| 0 <= k < r@.len() && Some(r@[k]@) == nested_model(fields@[j].1),
        decreases fields.len() - i,
    {
        let ghost r0 = r@;
        assert(fields@.subrange(0, i + 1).drop_last() =~= fields@.subrange(0, i as int));
        assert(fields@.subrange(0, i + 1).last() == fields@[i as int]);
        match &fields[i].1 {
            DataType::Model(c) => {
                r.push(c.clone());
                assert(nested_model(fields@[i as int].1) == Some(c@));
            },
            DataType::List(c, _) => {
                r.push(c.clone());
                assert(nested_model(fields@[i as int].1) == Some(c@));
            },
            _ => {},
        }
        proof {
            assert forall|j: int|
                0 <= j < i + 1 && nested_model((#[trigger] fields@[j]).1) is Some
                    implies exists|k: int| 0 <= k < r@.len() && Some(r@[k]@) == nested_model(fields@[j].1) by {
                if j == i {
                    assert(Some(r@[r@.len() - 1]@) == nested_model(fields@[j].1));
                } else {
                    assert(nested_model(fields@[j].1) is Some);
                    let k = choose|k: int| 0 <= k < r0.len() && Some(r0[k]@) == nested_model(fields@[j].1);
                    assert(r@[k] == r0[k]);
                }
            }
            assert(names_view(r@) =~= nested_names(fields@.subrange(0, i + 1)));
        }
        i = i + 1;
    }
    assert(fields@.subrange(0, i as int) =~= fields@);
    r
}

/// From a missing root nothing but the root is reached.
proof fn lemma_reach_missing_root(spec: Specification, root: Seq<char>, k: nat)
    requires
        !spec.defines(root),
    ensures
        reach_within(spec, root, k) == set![root],
    decreases k,
{
    if k > 0 {
        lemma_reach_missing_root(spec, root, (k - 1) as nat);
        assert(reach_within(spec, root, k) =~= set![root]);
    }
}

/// Checks that every model nested by a model reachable from `root` exists.
/// On failure it names a missing model and the result says which model
/// nests it; the walk is breadth-first, so the same schema always gives the
/// same name.
pub fn validate_dependencies(root: &String, spec: &Specification) -> (r: Result<(), GenError>)
    requires
        spec.wf(),
    ensures
        r is Ok <==> deps_ok(*spec, root@),
        r is Err ==> (r->Err_0 matches GenError::UnknownModelReference(c) && !spec.defines(c@) && exists|m: Seq<char>|
            reachable(*spec, root@, m) && spec.defines(m) && nests(spec.definition(m), c@)),
{
    let ghost models = spec.models();
    let n = spec.model_count();
    let root_idx = match spec.model_index(root) {
        Some(i) => i,
        None => {
            proof {
                assert forall|m: Seq<char>, c: Seq<char>|
                    #[trigger] reachable(*spec, root@, m) && spec.defines(m) && #[trigger] nests(spec.definition(m), c) implies spec.defines(c) by {
                    let k = choose|k: nat| #[trigger] reach_within(*spec, root@, k).contains(m);
                    lemma_reach_missing_root(*spec, root@, k);
                }
            }
            return Ok(());
        },
    };
    proof {
        crate::keyed::lemma_key_pos(models, root@);
    }
    let mut marked: Vec<bool> = Vec::new();
    let mut i: usize = 0;
    while i < n
        invariant
            i <= n,
            marked@.len() == i,
            forall|j: int| 0 <= j < i ==> !marked@[j],
            count_false(marked@) == i,
        decreases n - i,
    {
        let ghost before = marked@;
        marked.push(false);
        assert(marked@.drop_last() =~= before);
        i = i + 1;
    }
    proof {
        lemma_count_false_mark(marked@, root_idx as int);
    }
    marked.set(root_idx, true);
    let mut queue: Vec<usize> = Vec::new();
    queue.push(root_idx);
    proof {
        assert(reach_within(*spec, root@, 0).contains(root@));
        assert(models[root_idx as int].0@ == root@);
    }
    proof {
        assert forall|j: int| 0 <= j < n && #[trigger] marked@[j] implies exists|q: int| 0 <= q < queue@.len() && queue@[q] == j by {
            assert(j == root_idx);
            assert(queue@[0] == j);
        }
    }
    let mut head: usize = 0;
    while head < queue.len()
        invariant
            spec.wf(),
            models == spec.models(),
            n == models.len(),
            marked@.len() == n,
            head <= queue@.len(),
            queue@.len() + count_false(marked@) == n,
            root_idx < n,
            marked@[root_idx as int],
            models[root_idx as int].0@ == root@,
            forall|q: int| 0 <= q < queue@.len() ==> #[trigger] queue@[q] < n && marked@[queue@[q] as int],
            forall|j: int| 0 <= j < n && #[trigger] marked@[j] ==> exists|q: int| 0 <= q < queue@.len() && queue@[q] == j,
            forall|q: int| 0 <= q < queue@.len() ==> reachable(*spec, root@, models[#[trigger] queue@[q] as int].0@),
            forall|q: int, c: Seq<char>|
                0 <= q < head && #[trigger] nests(models[#[trigger] queue@[q] as int].1, c) ==> spec.defines(c) && marked@[key_pos(models, c)],
        decreases n - head,
    {
        proof {
            lemma_count_false_bound(marked@);
        }
        let idx = queue[head];
        let (_, model) = spec.model_entry(idx);
        let ghost m = models[idx as int].0@;
        proof {
            crate::keyed::lemma_unique_pos(models, idx as int);
            assert(reachable(*spec, root@, m));
            assert(spec.defines(m));
            assert(spec.definition(m) == *model);
        }
        let children = get_model_children(model);
        let mut k: usize = 0;
        while k < children.len()
            invariant
                spec.wf(),
                models == spec.models(),
                n == models.len(),
                marked@.len() == n,
                head < queue@.len(),
                queue@[head as int] == idx,
                idx < n,
                *model == models[idx as int].1,
                spec.defines(m),
                m == models[idx as int].0@,
                spec.definition(m) == *model,
                reachable(*spec, root@, m),
                k <= children@.len(),
                forall|j: int| 0 <= j < children@.len() ==> nests(*model, #[trigger] children@[j]@),
                queue@.len() + count_false(marked@) == n,
                marked@[root_idx as int],
                models[root_idx as int].0@ == root@,
                root_idx < n,
                forall|q: int| 0 <= q < queue@.len() ==> #[trigger] queue@[q] < n && marked@[queue@[q] as int],
                forall|j: int| 0 <= j < n && #[trigger] marked@[j] ==> exists|q: int| 0 <= q < queue@.len() && queue@[q] == j,
                forall|q: int| 0 <= q < queue@.len() ==> reachable(*spec, root@, models[#[trigger] queue@[q] as int].0@),
                forall|q: int, c: Seq<char>|
                    0 <= q < head && #[trigger] nests(models[#[trigger] queue@[q] as int].1, c) ==> spec.defines(c) && marked@[key_pos(models, c)],
                forall|j: int| 0 <= j < k ==> spec.defines(#[trigger] children@[j]@) && marked@[key_pos(models, children@[j]@)],
            decreases children@.len() - k,
        {
            let c = &children[k];
            match spec.model_index(c) {
                None => {
                    proof {
                        assert(nests(*model, c@));
                    }
                    return Err(GenError::UnknownModelReference(c.clone()));
                },
                Some(j) => {
                    proof {
                        crate::keyed::lemma_key_pos(models, c@);
                    }
                    if !marked[j] {
                        let ghost before = marked@;
                        let ghost qbefore = queue@;
                        proof {
                            lemma_count_false_mark(marked@, j as int);
                            let kk = choose|kk: nat| #[trigger] reach_within(*spec, root@, kk).contains(m);
                            lemma_reach_step(*spec, root@, kk, m, c@);
                        }
                        marked.set(j, true);
                        queue.push(j);
                        proof {
                            assert forall|x: int| 0 <= x < n && #[trigger] marked@[x] implies exists|q: int| 0 <= q < queue@.len() && queue@[q] == x by {
                                if x == j {
                                    assert(queue@[queue@.len() - 1] == x);
                                } else {
                                    assert(before[x]);
                                    let q = choose|q: int| 0 <= q < qbefore.len() && qbefore[q] == x;
                                    assert(queue@[q] == x);
                                }
                            }
                            assert forall|q: int| 0 <= q < queue@.len() implies reachable(*spec, root@, models[#[trigger] queue@[q] as int].0@) by {
                                if q < qbefore.len() {
                                    assert(queue@[q] == qbefore[q]);
                                } else {
                                    assert(models[j as int].0@ == c@);
                                    assert(reach_within(*spec, root@, choose|kk: nat| #[trigger] reach_within(*spec, root@, kk).contains(m)).contains(m));
                                }
                            }
                            assert forall|q: int, cc: Seq<char>|
                                0 <= q < head && #[trigger] nests(models[#[trigger] queue@[q] as int].1, cc) implies spec.defines(cc) && marked@[key_pos(models, cc)] by {
                                assert(queue@[q] == qbefore[q]);
                                assert(nests(models[qbefore[q] as int].1, cc));
                                assert(before[key_pos(models, cc)]);
                                crate::keyed::lemma_key_pos(models, cc);
                            }
                            assert forall|x: int| 0 <= x < k implies spec.defines(#[trigger] children@[x]@) && marked@[key_pos(models, children@[x]@)] by {
                                assert(before[key_pos(models, children@[x]@)]);
                                crate::keyed::lemma_key_pos(models, children@[x]@);
                            }
                        }
                    }
                },
            }
            k = k + 1;
        }
        proof {
            assert forall|q: int, c: Seq<char>|
                0 <= q < head + 1 && #[trigger] nests(models[#[trigger] queue@[q] as int].1, c) implies spec.defines(c) && marked@[key_pos(models, c)] by {
                if q == head {
                    let fi = choose|fi: int| 0 <= fi < model.fields().len() && nested_model(#[trigger] model.fields()[fi].1) == Some(c);
                    let kk = choose|kk: int| 0 <= kk < children@.len() && Some(children@[kk]@) == nested_model(model.fields()[fi].1);
                    assert(children@[kk]@ == c);
                }
            }
        }
        head = head + 1;
    }
    proof {
        let closed = Set::new(|x: Seq<char>| exists|i: int| 0 <= i < n && marked@[i] && models[i].0@ == x);
        assert(closed.contains(root@)) by {
            assert(marked@[root_idx as int]);
        }
        assert forall|m: Seq<char>, c: Seq<char>|
            #[trigger] closed.contains(m) && spec.defines(m) && #[trigger] nests(spec.definition(m), c) implies closed.contains(c) by {
            let i = choose|i: int| 0 <= i < n && marked@[i] && models[i].0@ == m;
            let q = choose|q: int| 0 <= q < queue@.len() && queue@[q] == i;
            crate::keyed::lemma_unique_pos(models, i);
            assert(nests(models[queue@[q] as int].1, c));
            crate::keyed::lemma_key_pos(models, c);
            assert(marked@[key_pos(models, c)]);
        }
        assert forall|m: Seq<char>, c: Seq<char>|
            #[trigger] reachable(*spec, root@, m) && spec.defines(m) && #[trigger] nests(spec.definition(m), c) implies spec.defines(c) by {
            let k = choose|k: nat| #[trigger] reach_within(*spec, root@, k).contains(m);
            lemma_reach_closed(*spec, root@, closed, k);
            assert(closed.contains(m));
            let i = choose|i: int| 0 <= i < n && marked@[i] && models[i].0@ == m;
            let q = choose|q: int| 0 <= q < queue@.len() && queue@[q] == i;
            crate::keyed::lemma_unique_pos(models, i);
            assert(nests(models[queue@[q] as int].1, c));
        }
    }
    Ok(())
}

/// Whether `roots` are the generation trees of `count` instances of the
/// model `root`, each generated with no enclosing scope.
pub open spec fn roots_ok(spec: Specification, root: Seq<char>, count: nat, roots: Seq<GenTree>) -> bool {
    &&& roots.len() == count
    &&& forall|i: int| 0 <= i < roots.len() ==> tree_ok(spec, root, Seq::empty(), Seq::empty(), #[trigger] roots[i])
}

/// Generates `count` instances of the model `model_name` and returns every
/// record generated, by model name.
///
/// Fails when the root model is missing, when a model reachable from it
/// nests a missing model (checked before anything is generated), and
/// otherwise exactly when generating one instance fails; the latter does not
/// happen for zero instances.
pub fn from_spec(model_name: &String, spec: &Specification, count: usize) -> (r: Result<ModelDataMap, GenError>)
    requires
        spec.wf(),
    ensures
        !spec.defines(model_name@) ==> (r matches Err(GenError::UnknownRootModel(n)) && n@ == model_name@),
        spec.defines(model_name@) && !deps_ok(*spec, model_name@) ==> (r matches Err(GenError::UnknownModelReference(c))
            && !spec.defines(c@) && exists|m: Seq<char>|
            reachable(*spec, model_name@, m) && spec.defines(m) && nests(spec.definition(m), c@)),
        spec.defines(model_name@) && deps_ok(*spec, model_name@) ==> (r is Err <==> count > 0 && gen_fails(*spec, model_name@, Seq::empty())),
        r is Ok ==> data_wf(r->Ok_0@),
        r is Ok ==> exists|roots: Seq<GenTree>|
            roots_ok(*spec, model_name@, count as nat, roots) && forall|n: Seq<char>| #[trigger] data_of(r->Ok_0@, n) == forest_records(roots, n),
{
    if !spec.has_model(model_name) {
        return Err(GenError::UnknownRootModel(model_name.clone()));
    }
    match validate_dependencies(model_name, spec) {
        Ok(()) => {},
        Err(e) => {
            return Err(e);
        },
    }
    let mut total = GenContext::new();
    let ghost mut roots: Seq<GenTree> = Seq::empty();
    proof {
        assert forall|n: Seq<char>| data_of(total.models@, n) == forest_records(roots, n) by {
            assert(data_of(total.models@, n) =~= Seq::empty());
        }
    }
    let mut i: usize = 0;
    while i < count
        invariant
            spec.wf(),
            spec.defines(model_name@),
            deps_ok(*spec, model_name@),
            i <= count,
            i > 0 ==> !gen_fails(*spec, model_name@, Seq::empty()),
            data_wf(total.models@),
            roots_ok(*spec, model_name@, i as nat, roots),
            forall|n: Seq<char>| data_of(total.models@, n) == forest_records(roots, n),
        decreases count - i,
    {
        let mut ctx = GenContext::new();
        proof {
            assert(scope_view(ctx.parents@) =~= Seq::empty());
            assert(names_view(ctx.scope_models@) =~= Seq::empty());
        }
        match generate_model_data(model_name, spec, &mut ctx) {
            Ok(t) => {
                let ghost prev = total.models@;
                proof {
                    assert forall|n: Seq<char>| data_of(ctx.models@, n) == tree_records(t@, n) by {
                        assert(data_of(Seq::<(String, Vec<Record>)>::empty(), n) =~= Seq::empty());
                        assert(data_of(ctx.models@, n) =~= Seq::empty() + tree_records(t@, n));
                    }
                }
                total.merge_model_data(&mut ctx.models);
                proof {
                    assert forall|n: Seq<char>| data_of(total.models@, n) == forest_records(roots.push(t@), n) by {
                        lemma_forest_push(roots, t@, n);
                    }
                    roots = roots.push(t@);
                }
            },
            Err(e) => {
                return Err(e);
            },
        }
        i = i + 1;
    }
    Ok(total.models)
}

/// The text a CSV cell holds for the column `key` of `rec`: the value, or the
/// sentinel when the record has no such field.
pub open spec fn cell_text(rec: Seq<(String, String)>, key: Seq<char>) -> Seq<char> {
    match value_of(rec, key) {
        Some(v) => v@,
        None => sentinel(),
    }
}

/// The CSV row of one record. With a column order, one cell per column in
/// that order, `"null"` where the record lacks the field; without one, the
/// record's values in field order.
pub fn csv_row(record: &Record, ordering: Option<&Vec<String>>) -> (r: Vec<String>)
    ensures
        ordering is Some ==> r@.len() == ordering->Some_0@.len() && forall|i: int|
            0 <= i < r@.len() ==> (#[trigger] r@[i])@ == cell_text(record@, ordering->Some_0@[i]@),
        ordering is None ==> r@.len() == record@.len() && forall|i: int|
            0 <= i < r@.len() ==> #[trigger] r@[i] == record@[i].1,
{
    let mut row: Vec<String> = Vec::new();
    match ordering {
        Some(order) => {
            let mut i: usize = 0;
            while i < order.len()
                invariant
                    i <= order.len(),
                    row@.len() == i,
                    forall|j: int| 0 <= j < i ==> (#[trigger] row@[j])@ == cell_text(record@, order@[j]@),
                decreases order.len() - i,
            {
                proof {
                    lemma_key_pos(record@, order@[i as int]@);
                }
                let cell = match find_key(record, &order[i]) {
                    Some(j) => record[j].1.clone(),
                    None => null_text(),
                };
                row.push(cell);
                i = i + 1;
            }
        },
        None => {
            let mut i: usize = 0;
            while i < record.len()
                invariant
                    i <= record.len(),
                    row@.len() == i,
                    forall|j: int| 0 <= j < i ==> #[trigger] row@[j] == record@[j].1,
                decreases record.len() - i,
            {
                row.push(record[i].1.clone());
                i = i + 1;
            }
        },
    }
    row
}

} // verus!
