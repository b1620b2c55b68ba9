//! Laws of generation, proved over the generation trees of `generator`.
use vstd::prelude::*;
use crate::keyed::{has_key, value_of, lemma_distinct_keys_bound};
use crate::specification::{DataType, Specification, nested_model, nested_count};
use crate::generator::{
    GenTree, ancestor, child_plan, data_of, data_wf, deps_ok, forest_records, gen_fails, lemma_data_keys,
    lemma_plan_prefix, lemma_plan_step, lemma_reach_step, nests, path_hops, path_valid, paths_valid,
    reach_within, reachable, record_fits, ref_value, roots_ok, sentinel, tree_ok, tree_records,
};

verus! {

broadcast use vstd::seq_lib::lemma_multiset_commutative;

/// A record that fits its fields holds, for a reference field, an entry under
/// the field's name with the text the reference resolves to.
pub proof fn lemma_record_reference(
    fields: Seq<(String, DataType)>,
    parents: Seq<Seq<(String, String)>>,
    rec: Seq<(String, String)>,
    i: int,
)
    requires
        record_fits(fields, parents, rec),
        0 <= i < fields.len(),
        fields[i].1 is Reference,
    ensures
        exists|k: int|
            0 <= k < rec.len() && (#[trigger] rec[k]).0@ == fields[i].0@ && rec[k].1@ == ref_value(
                parents,
                fields[i].1->Reference_path@,
                fields[i].1->Reference_property@,
            ),
    decreases fields.len(),
{
    let last = fields.len() - 1;
    if i == last {
        assert(rec[rec.len() - 1] == rec.last());
    } else {
        assert(fields.drop_last()[i] == fields[i]);
        match fields.last().1 {
            DataType::RandomData(_) | DataType::Reference { .. } => {
                lemma_record_reference(fields.drop_last(), parents, rec.drop_last(), i);
                let k = choose|k: int|
                    0 <= k < rec.drop_last().len() && (#[trigger] rec.drop_last()[k]).0@ == fields[i].0@
                        && rec.drop_last()[k].1@ == ref_value(
                        parents,
                        fields[i].1->Reference_path@,
                        fields[i].1->Reference_property@,
                    );
                assert(rec[k] == rec.drop_last()[k]);
            },
            _ => {
                lemma_record_reference(fields.drop_last(), parents, rec, i);
            },
        }
    }
}

/// Reference correctness: in every generation tree, a field
/// `Reference("^", x)` of a child instance holds the value of `x` in the
/// record of its immediate parent instance, or `"null"` when that record has
/// no `x`.
pub proof fn law_parent_reference(
    spec: Specification,
    name: Seq<char>,
    chain: Seq<Seq<char>>,
    parents: Seq<Seq<(String, String)>>,
    t: GenTree,
    j: int,
    f: int,
)
    requires
        tree_ok(spec, name, chain, parents, t),
        0 <= j < t.children.len(),
        0 <= f < spec.definition(t.children[j].model).fields().len(),
        spec.definition(t.children[j].model).fields()[f].1 is Reference,
        spec.definition(t.children[j].model).fields()[f].1->Reference_path@ == seq!['^'],
    ensures
        ({
            let field = spec.definition(t.children[j].model).fields()[f];
            let expected = match value_of(t.record, field.1->Reference_property@) {
                Some(v) => v@,
                None => sentinel(),
            };
            exists|k: int|
                0 <= k < t.children[j].record.len() && (#[trigger] t.children[j].record[k]).0@ == field.0@
                    && t.children[j].record[k].1@ == expected
        }),
{
    let plan = child_plan(spec.definition(name).fields());
    assert(tree_ok(spec, plan[j], chain.push(name), parents.push(t.record), t.children[j]));
    let c = t.children[j];
    lemma_record_reference(spec.definition(c.model).fields(), parents.push(t.record), c.record, f);
    assert(path_hops(seq!['^']) == 1);
    assert(ancestor(parents.push(t.record), 1) == Some(t.record));
}

/// Sentinel fallback: a reference whose path is valid but leads above the
/// outermost scope, or to a record without the property, holds `"null"`.
/// Such a reference is no failure: `gen_fails` reads reference paths only for
/// their validity.
pub proof fn law_unresolved_reference(
    spec: Specification,
    name: Seq<char>,
    chain: Seq<Seq<char>>,
    parents: Seq<Seq<(String, String)>>,
    t: GenTree,
    f: int,
)
    requires
        tree_ok(spec, name, chain, parents, t),
        0 <= f < spec.definition(name).fields().len(),
        spec.definition(name).fields()[f].1 is Reference,
        path_valid(spec.definition(name).fields()[f].1->Reference_path@),
        ({
            let field = spec.definition(name).fields()[f].1;
            let target = ancestor(parents, path_hops(field->Reference_path@));
            target is None || value_of(target->Some_0, field->Reference_property@) is None
        }),
    ensures
        exists|k: int|
            0 <= k < t.record.len() && (#[trigger] t.record[k]).0@ == spec.definition(name).fields()[f].0@
                && t.record[k].1@ == sentinel(),
{
    lemma_record_reference(spec.definition(name).fields(), parents, t.record, f);
}

/// List cardinality: in every generation tree, the field at position `i` of
/// the model asks for `nested_count` child instances (`count` for a list, one
/// for a child), and the tree holds exactly that many subtrees for it, side by
/// side, each of the nested model.
pub proof fn law_list_cardinality(
    spec: Specification,
    name: Seq<char>,
    chain: Seq<Seq<char>>,
    parents: Seq<Seq<(String, String)>>,
    t: GenTree,
    i: int,
)
    requires
        tree_ok(spec, name, chain, parents, t),
        0 <= i < spec.definition(name).fields().len(),
        nested_model(spec.definition(name).fields()[i].1) is Some,
    ensures
        ({
            let fields = spec.definition(name).fields();
            let start = child_plan(fields.subrange(0, i)).len();
            let k = nested_count(fields[i].1);
            &&& start + k <= t.children.len()
            &&& child_plan(fields.subrange(0, i + 1)).len() == start + k
            &&& forall|j: int| start <= j < start + k ==> (#[trigger] t.children[j]).model == nested_model(fields[i].1)->Some_0
        }),
{
    let fields = spec.definition(name).fields();
    lemma_plan_step(fields, i);
    lemma_plan_prefix(fields, i + 1);
    let start = child_plan(fields.subrange(0, i)).len();
    let k = nested_count(fields[i].1);
    let plan = child_plan(fields);
    assert forall|j: int| start <= j < start + k implies (#[trigger] t.children[j]).model == nested_model(fields[i].1)->Some_0 by {
        assert(plan[j] == child_plan(fields.subrange(0, i + 1))[j]);
        assert(tree_ok(spec, plan[j], chain.push(name), parents.push(t.record), t.children[j]));
    }
}

/// No record of a model on the chain is generated below it.
proof fn lemma_chain_absent(
    spec: Specification,
    r: Seq<char>,
    name: Seq<char>,
    chain: Seq<Seq<char>>,
    ps: Seq<Seq<(String, String)>>,
    t: GenTree,
)
    requires
        tree_ok(spec, name, chain, ps, t),
        chain.contains(r),
    ensures
        tree_records(t, r).len() == 0,
    decreases spec.models().len() - chain.len(), 0nat,
{
    assert(name != r);
    assert(chain.push(name).contains(r)) by {
        let i = choose|i: int| 0 <= i < chain.len() && chain[i] == r;
        assert(chain.push(name)[i] == r);
    }
    lemma_chain_absent_forest(spec, r, name, chain, ps, t, t.children.len() as int);
    assert(t.children.subrange(0, t.children.len() as int) =~= t.children);
}

proof fn lemma_chain_absent_forest(
    spec: Specification,
    r: Seq<char>,
    name: Seq<char>,
    chain: Seq<Seq<char>>,
    ps: Seq<Seq<(String, String)>>,
    t: GenTree,
    k: int,
)
    requires
        tree_ok(spec, name, chain, ps, t),
        chain.push(name).contains(r),
        0 <= k <= t.children.len(),
    ensures
        forest_records(t.children.subrange(0, k), r).len() == 0,
    decreases spec.models().len() - chain.len() - 1, k,
{
    if k > 0 {
        let cs = t.children.subrange(0, k);
        assert(cs.drop_last() =~= t.children.subrange(0, k - 1));
        assert(cs.last() == t.children[k - 1]);
        lemma_chain_absent_forest(spec, r, name, chain, ps, t, k - 1);
        let plan = child_plan(spec.definition(name).fields());
        assert(tree_ok(spec, plan[k - 1], chain.push(name), ps.push(t.record), t.children[k - 1]));
        lemma_chain_absent(spec, r, plan[k - 1], chain.push(name), ps.push(t.record), t.children[k - 1]);
    }
}

/// Root cardinality: generating `count` instances of `root` yields exactly
/// `count` records of `root`.
pub proof fn law_root_count(spec: Specification, root: Seq<char>, count: nat, roots: Seq<GenTree>)
    requires
        roots_ok(spec, root, count, roots),
    ensures
        forest_records(roots, root).len() == count,
    decreases roots.len(),
{
    if roots.len() > 0 {
        let front = roots.drop_last();
        assert(roots_ok(spec, root, (count - 1) as nat, front)) by {
            assert forall|i: int| 0 <= i < front.len() implies tree_ok(spec, root, Seq::empty(), Seq::empty(), #[trigger] front[i]) by {
                assert(front[i] == roots[i]);
            }
        }
        law_root_count(spec, root, (count - 1) as nat, front);
        let t = roots.last();
        assert(tree_ok(spec, root, Seq::empty(), Seq::empty(), roots[roots.len() - 1]));
        assert(Seq::<Seq<char>>::empty().push(root)[0] == root);
        lemma_chain_absent_forest(spec, root, root, Seq::empty(), Seq::empty(), t, t.children.len() as int);
        assert(t.children.subrange(0, t.children.len() as int) =~= t.children);
        assert(t.model == root);
        assert(tree_records(t, root) == seq![t.record] + forest_records(t.children, root));
        assert(forest_records(roots, root) == forest_records(front, root) + tree_records(t, root));
    }
}

/// Root cardinality on a generated map: a map that holds the records of
/// `count` generation trees of `root`, as the map `from_spec` returns does,
/// holds exactly `count` records under `root`.
pub proof fn law_generated_root_count(
    spec: Specification,
    root: Seq<char>,
    count: nat,
    data: Seq<(String, Vec<crate::generator::Record>)>,
)
    requires
        exists|roots: Seq<GenTree>|
            roots_ok(spec, root, count, roots) && forall|n: Seq<char>| #[trigger] data_of(data, n) == forest_records(roots, n),
    ensures
        data_of(data, root).len() == count,
{
    let roots = choose|roots: Seq<GenTree>|
        roots_ok(spec, root, count, roots) && forall|n: Seq<char>| #[trigger] data_of(data, n) == forest_records(roots, n);
    law_root_count(spec, root, count, roots);
    assert(data_of(data, root) == forest_records(roots, root));
}

/// The records of two runs of trees, one after the other, are those of the
/// first run followed by those of the second.
pub proof fn lemma_forest_concat(a: Seq<GenTree>, b: Seq<GenTree>, n: Seq<char>)
    ensures
        forest_records(a + b, n) == forest_records(a, n) + forest_records(b, n),
    decreases b.len(),
{
    if b.len() == 0 {
        assert(a + b =~= a);
        assert(forest_records(b, n) =~= Seq::empty());
        assert(forest_records(a, n) + forest_records(b, n) =~= forest_records(a, n));
    } else {
        assert((a + b).drop_last() =~= a + b.drop_last());
        assert((a + b).last() == b.last());
        lemma_forest_concat(a, b.drop_last(), n);
        assert(forest_records(a + b, n) =~= forest_records(a, n) + forest_records(b, n));
    }
}

/// Merge commutativity: generating `n1` and then `n2` instances of a root is
/// a generation of `n1 + n2` instances, and whichever order the two runs'
/// records are merged in, each model name ends up with the same records, up
/// to their order.
pub proof fn law_split_generation(
    spec: Specification,
    root: Seq<char>,
    n1: nat,
    n2: nat,
    first: Seq<GenTree>,
    second: Seq<GenTree>,
    name: Seq<char>,
)
    requires
        roots_ok(spec, root, n1, first),
        roots_ok(spec, root, n2, second),
    ensures
        roots_ok(spec, root, n1 + n2, first + second),
        forest_records(first + second, name) == forest_records(first, name) + forest_records(second, name),
        forest_records(first + second, name).to_multiset() == (forest_records(second, name) + forest_records(
            first,
            name,
        )).to_multiset(),
{
    lemma_forest_concat(first, second, name);
    assert forall|i: int| 0 <= i < (first + second).len() implies tree_ok(spec, root, Seq::empty(), Seq::empty(), #[trigger] (first + second)[i]) by {
        if i < first.len() {
            assert((first + second)[i] == first[i]);
        } else {
            assert((first + second)[i] == second[i - first.len()]);
        }
    }
}

/// Merge commutativity for data maps: merging `b` into `a` and `a` into `b`
/// give the same model names, each with the same records up to their order.
pub proof fn law_merge_commutative(
    a: Seq<(String, Vec<crate::generator::Record>)>,
    b: Seq<(String, Vec<crate::generator::Record>)>,
    ab: Seq<(String, Vec<crate::generator::Record>)>,
    ba: Seq<(String, Vec<crate::generator::Record>)>,
)
    requires
        data_wf(ab),
        data_wf(ba),
        forall|n: Seq<char>| #[trigger] data_of(ab, n) == data_of(a, n) + data_of(b, n),
        forall|n: Seq<char>| #[trigger] data_of(ba, n) == data_of(b, n) + data_of(a, n),
    ensures
        forall|n: Seq<char>| #[trigger] data_of(ab, n).to_multiset() == data_of(ba, n).to_multiset(),
        forall|n: Seq<char>| #[trigger] has_key(ab, n) <==> has_key(ba, n),
{
    assert forall|n: Seq<char>| #[trigger] has_key(ab, n) <==> has_key(ba, n) by {
        lemma_data_keys(ab, n);
        lemma_data_keys(ba, n);
    }
    assert forall|n: Seq<char>| #[trigger] data_of(ab, n).to_multiset() == data_of(ba, n).to_multiset() by {
        assert(data_of(ab, n).to_multiset() =~= data_of(a, n).to_multiset().add(data_of(b, n).to_multiset()));
        assert(data_of(ba, n).to_multiset() =~= data_of(b, n).to_multiset().add(data_of(a, n).to_multiset()));
    }
}

/// Every planned child instance is of a model that some field nests.
proof fn lemma_plan_nested(fields: Seq<(String, DataType)>, j: int)
    requires
        0 <= j < child_plan(fields).len(),
    ensures
        exists|i: int| 0 <= i < fields.len() && nested_model(#[trigger] fields[i].1) == Some(child_plan(fields)[j]),
    decreases fields.len(),
{
    let front = child_plan(fields.drop_last());
    let t = fields.last().1;
    if j < front.len() {
        lemma_plan_nested(fields.drop_last(), j);
        let i = choose|i: int| 0 <= i < fields.drop_last().len() && nested_model(#[trigger] fields.drop_last()[i].1) == Some(front[j]);
        assert(fields[i] == fields.drop_last()[i]);
    } else {
        assert(nested_count(t) > 0);
        assert(nested_model(fields[fields.len() - 1].1) == Some(child_plan(fields)[j]));
    }
}

/// A planned child of a reachable model is reachable and nested by it.
proof fn lemma_plan_reachable(spec: Specification, root: Seq<char>, name: Seq<char>, j: int)
    requires
        reachable(spec, root, name),
        spec.defines(name),
        0 <= j < child_plan(spec.definition(name).fields()).len(),
    ensures
        nests(spec.definition(name), child_plan(spec.definition(name).fields())[j]),
        reachable(spec, root, child_plan(spec.definition(name).fields())[j]),
{
    let fields = spec.definition(name).fields();
    lemma_plan_nested(fields, j);
    let c = child_plan(fields)[j];
    let k = choose|k: nat| #[trigger] reach_within(spec, root, k).contains(name);
    lemma_reach_step(spec, root, k, name, c);
    assert(reach_within(spec, root, k + 1).contains(c));
}

/// When every nested model exists, everything reachable from an existing
/// root exists.
proof fn lemma_reach_defined(spec: Specification, root: Seq<char>, k: nat, x: Seq<char>)
    requires
        deps_ok(spec, root),
        spec.defines(root),
        reach_within(spec, root, k).contains(x),
    ensures
        spec.defines(x),
    decreases k,
{
    if k > 0 {
        let prev = reach_within(spec, root, (k - 1) as nat);
        if !prev.contains(x) {
            let m = choose|m: Seq<char>| #[trigger] prev.contains(m) && spec.defines(m) && nests(spec.definition(m), x);
            assert(reachable(spec, root, m));
        } else {
            lemma_reach_defined(spec, root, (k - 1) as nat, x);
        }
    }
}

/// Whether the model `a` reaches the model `b` through at least one nested field.
pub open spec fn reaches_after(spec: Specification, a: Seq<char>, b: Seq<char>) -> bool {
    exists|c: Seq<char>| #[trigger] nests(spec.definition(a), c) && reachable(spec, c, b)
}

/// The conditions under which no generation from `root` fails: every
/// reachable model nests only existing models, has valid reference paths and
/// does not reach itself again.
pub open spec fn generable(spec: Specification, root: Seq<char>) -> bool {
    &&& spec.wf()
    &&& spec.defines(root)
    &&& deps_ok(spec, root)
    &&& forall|m: Seq<char>|
        #[trigger] reachable(spec, root, m) && spec.defines(m) ==> paths_valid(spec.definition(m).fields())
            && !reaches_after(spec, m, m)
}

proof fn lemma_no_failure(spec: Specification, root: Seq<char>, name: Seq<char>, chain: Seq<Seq<char>>)
    requires
        generable(spec, root),
        reachable(spec, root, name),
        chain.no_duplicates(),
        forall|i: int|
            0 <= i < chain.len() ==> spec.defines(#[trigger] chain[i]) && reachable(spec, root, chain[i])
                && reaches_after(spec, chain[i], name),
    ensures
        !gen_fails(spec, name, chain),
    decreases spec.models().len() - chain.len(),
{
    let k0 = choose|k: nat| #[trigger] reach_within(spec, root, k).contains(name);
    lemma_reach_defined(spec, root, k0, name);
    if chain.contains(name) {
        let i = choose|i: int| 0 <= i < chain.len() && chain[i] == name;
        assert(reaches_after(spec, chain[i], name));
        assert(false);
    }
    let longer = chain.push(name);
    assert(longer.no_duplicates());
    assert forall|i: int| 0 <= i < longer.len() implies has_key(spec.models(), #[trigger] longer[i]) by {
        if i < chain.len() {
            assert(longer[i] == chain[i]);
        }
    }
    lemma_distinct_keys_bound(spec.models(), longer);
    let fields = spec.definition(name).fields();
    let plan = child_plan(fields);
    assert forall|j: int| 0 <= j < plan.len() implies !gen_fails(spec, #[trigger] plan[j], longer) by {
        let c = plan[j];
        lemma_plan_reachable(spec, root, name, j);
        assert forall|i: int|
            0 <= i < longer.len() implies spec.defines(#[trigger] longer[i]) && reachable(spec, root, longer[i])
                && reaches_after(spec, longer[i], c) by {
            if i < chain.len() {
                assert(longer[i] == chain[i]);
                assert(reaches_after(spec, chain[i], name));
                let d = choose|d: Seq<char>| #[trigger] nests(spec.definition(chain[i]), d) && reachable(spec, d, name);
                let kd = choose|kd: nat| #[trigger] reach_within(spec, d, kd).contains(name);
                lemma_reach_step(spec, d, kd, name, c);
                assert(reach_within(spec, d, kd + 1).contains(c));
            } else {
                assert(longer[i] == name);
                assert(reach_within(spec, c, 0).contains(c));
                assert(reachable(spec, c, c));
            }
        }
        lemma_no_failure(spec, root, c, longer);
    }
}

/// Generation succeeds on acyclic schemas: from a root whose reachable models
/// nest only existing models, have valid reference paths and never reach
/// themselves again, generating an instance does not fail.
pub proof fn law_acyclic_generation_succeeds(spec: Specification, root: Seq<char>)
    requires
        generable(spec, root),
    ensures
        !gen_fails(spec, root, Seq::empty()),
{
    assert(reach_within(spec, root, 0).contains(root));
    lemma_no_failure(spec, root, root, Seq::empty());
}

proof fn lemma_tree_reachable(
    spec: Specification,
    root: Seq<char>,
    name: Seq<char>,
    chain: Seq<Seq<char>>,
    ps: Seq<Seq<(String, String)>>,
    t: GenTree,
    n: Seq<char>,
)
    requires
        tree_ok(spec, name, chain, ps, t),
        reachable(spec, root, name),
        tree_records(t, n).len() > 0,
    ensures
        reachable(spec, root, n),
    decreases spec.models().len() - chain.len(), 0nat,
{
    if t.model != n {
        assert(t.children.subrange(0, t.children.len() as int) =~= t.children);
        lemma_forest_reachable(spec, root, name, chain, ps, t, t.children.len() as int, n);
    }
}

proof fn lemma_forest_reachable(
    spec: Specification,
    root: Seq<char>,
    name: Seq<char>,
    chain: Seq<Seq<char>>,
    ps: Seq<Seq<(String, String)>>,
    t: GenTree,
    k: int,
    n: Seq<char>,
)
    requires
        tree_ok(spec, name, chain, ps, t),
        reachable(spec, root, name),
        0 <= k <= t.children.len(),
        forest_records(t.children.subrange(0, k), n).len() > 0,
    ensures
        reachable(spec, root, n),
    decreases spec.models().len() - chain.len() - 1, k,
{
    let cs = t.children.subrange(0, k);
    assert(k > 0);
    assert(cs.drop_last() =~= t.children.subrange(0, k - 1));
    assert(cs.last() == t.children[k - 1]);
    if tree_records(t.children[k - 1], n).len() > 0 {
        let plan = child_plan(spec.definition(name).fields());
        assert(tree_ok(spec, plan[k - 1], chain.push(name), ps.push(t.record), t.children[k - 1]));
        lemma_plan_reachable(spec, root, name, k - 1);
        lemma_tree_reachable(spec, root, plan[k - 1], chain.push(name), ps.push(t.record), t.children[k - 1], n);
    } else {
        lemma_forest_reachable(spec, root, name, chain, ps, t, k - 1, n);
    }
}

proof fn lemma_roots_reachable(spec: Specification, root: Seq<char>, count: nat, roots: Seq<GenTree>, n: Seq<char>)
    requires
        roots_ok(spec, root, count, roots),
        forest_records(roots, n).len() > 0,
    ensures
        reachable(spec, root, n),
    decreases roots.len(),
{
    let front = roots.drop_last();
    assert(roots.len() > 0);
    assert(reach_within(spec, root, 0).contains(root));
    if tree_records(roots.last(), n).len() > 0 {
        assert(tree_ok(spec, root, Seq::empty(), Seq::empty(), roots[roots.len() - 1]));
        lemma_tree_reachable(spec, root, root, Seq::empty(), Seq::empty(), roots.last(), n);
    } else {
        assert(roots_ok(spec, root, (count - 1) as nat, front)) by {
            assert forall|i: int| 0 <= i < front.len() implies tree_ok(spec, root, Seq::empty(), Seq::empty(), #[trigger] front[i]) by {
                assert(front[i] == roots[i]);
            }
        }
        lemma_roots_reachable(spec, root, (count - 1) as nat, front, n);
    }
}

/// Only reachable models appear: in a map that holds the records of
/// `count` generation trees of `root`, as the map `from_spec` returns does,
/// every model name present is reachable from `root`.
pub proof fn law_generated_models_reachable(
    spec: Specification,
    root: Seq<char>,
    count: nat,
    data: Seq<(String, Vec<crate::generator::Record>)>,
)
    requires
        data_wf(data),
        exists|roots: Seq<GenTree>|
            roots_ok(spec, root, count, roots) && forall|n: Seq<char>| #[trigger] data_of(data, n) == forest_records(roots, n),
    ensures
        forall|n: Seq<char>| #[trigger] has_key(data, n) ==> reachable(spec, root, n) && data_of(data, n).len() > 0,
{
    let roots = choose|roots: Seq<GenTree>|
        roots_ok(spec, root, count, roots) && forall|n: Seq<char>| #[trigger] data_of(data, n) == forest_records(roots, n);
    assert forall|n: Seq<char>| #[trigger] has_key(data, n) implies reachable(spec, root, n) && data_of(data, n).len() > 0 by {
        lemma_data_keys(data, n);
        assert(data_of(data, n) == forest_records(roots, n));
        lemma_roots_reachable(spec, root, count, roots, n);
    }
}

} // verus!
