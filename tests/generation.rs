use mockery::datatypes::{generate_fake_data, number_with_length, RandomData};
use mockery::generation::{GenerationSpecification, OutputType};
use mockery::generator::{
    csv_row, from_spec, parse_ref_path, validate_dependencies, GenContext, GenError, ModelDataMap, Record,
};
use mockery::model::{Model as FlatModel, ModelMap};
use mockery::specification::{DataType, Model, Specification};
use mockery::cli::CliArgs;

fn s(text: &str) -> String {
    text.to_string()
}

fn records<'a>(data: &'a ModelDataMap, name: &str) -> Vec<&'a Record> {
    data.iter()
        .filter(|(k, _)| k == name)
        .flat_map(|(_, list)| list.iter())
        .collect()
}

fn field<'a>(rec: &'a Record, name: &str) -> Option<&'a String> {
    rec.iter().find(|(k, _)| k == name).map(|(_, v)| v)
}

fn parent_child_spec(count: usize) -> Specification {
    let mut parent = Model::new();
    parent.add_property(s("name"), DataType::RandomData(RandomData::FullName));
    parent.add_property(s("children"), DataType::List(s("child"), count));
    let mut child = Model::new();
    child.add_property(s("age"), DataType::RandomData(RandomData::NumberBetween { min: 18, max: 25 }));
    child.add_property(s("parentName"), DataType::Reference { path: s("^"), property: s("name") });
    let mut spec = Specification::new();
    spec.add_model(s("parent"), parent);
    spec.add_model(s("child"), child);
    spec
}

#[test]
fn generate_random_data() {
    let mut model = FlatModel::new();

    model
        .add_property("name".to_owned(), RandomData::FullName)
        .add_property("email".to_owned(), RandomData::Email);

    println!("Random user: {:?}", model.generate_data());
}

#[test]
fn generate_number_format_of_correct_length() {
    assert_eq!(number_with_length(1).len(), 1);
    assert_eq!(number_with_length(2).len(), 2);
    assert_eq!(number_with_length(10).len(), 10);
    assert_eq!(number_with_length(1000).len(), 1000);
}

#[test]
fn number_digits_are_decimal_with_leading_nonzero() {
    let n = number_with_length(50);
    assert!(n.chars().all(|c| c.is_ascii_digit()));
    assert_ne!(n.chars().next(), Some('0'));
    assert_eq!(number_with_length(0), "");
}

#[test]
fn parent_with_two_children_scenario() {
    let spec = parent_child_spec(2);
    let data = from_spec(&s("parent"), &spec, 1).unwrap();
    let parents = records(&data, "parent");
    let children = records(&data, "child");
    assert_eq!(parents.len(), 1);
    assert_eq!(children.len(), 2);
    let name = field(parents[0], "name").unwrap();
    for c in children {
        assert_eq!(field(c, "parentName"), Some(name));
        let age: usize = field(c, "age").unwrap().parse().unwrap();
        assert!(18 <= age && age < 25);
    }
    assert_eq!(field(parents[0], "children"), None);
}

#[test]
fn root_count_and_list_count_multiply() {
    let spec = parent_child_spec(3);
    let data = from_spec(&s("parent"), &spec, 4).unwrap();
    assert_eq!(records(&data, "parent").len(), 4);
    assert_eq!(records(&data, "child").len(), 12);
    let parents = records(&data, "parent");
    let children = records(&data, "child");
    for (i, c) in children.iter().enumerate() {
        assert_eq!(field(c, "parentName"), field(parents[i / 3], "name"));
    }
}

#[test]
fn zero_instances_give_empty_map() {
    let spec = parent_child_spec(2);
    let data = from_spec(&s("parent"), &spec, 0).unwrap();
    assert!(data.is_empty());
}

#[test]
fn unresolvable_references_give_null() {
    let mut root = Model::new();
    root.add_property(s("id"), DataType::RandomData(RandomData::String { content: s("r1") }));
    root.add_property(s("up"), DataType::Reference { path: s("^"), property: s("id") });
    root.add_property(s("leaf"), DataType::Model(s("leaf")));
    let mut leaf = Model::new();
    leaf.add_property(s("missing"), DataType::Reference { path: s("^"), property: s("nope") });
    leaf.add_property(s("too_far"), DataType::Reference { path: s("^~^"), property: s("id") });
    leaf.add_property(s("found"), DataType::Reference { path: s("^"), property: s("id") });
    let mut spec = Specification::new();
    spec.add_model(s("root"), root);
    spec.add_model(s("leaf"), leaf);
    let data = from_spec(&s("root"), &spec, 1).unwrap();
    let r = records(&data, "root");
    assert_eq!(field(r[0], "up"), Some(&s("null")));
    let l = records(&data, "leaf");
    assert_eq!(l.len(), 1);
    assert_eq!(field(l[0], "missing"), Some(&s("null")));
    assert_eq!(field(l[0], "too_far"), Some(&s("null")));
    assert_eq!(field(l[0], "found"), Some(&s("r1")));
}

#[test]
fn grandparent_reference_resolves_two_scopes_up() {
    let mut a = Model::new();
    a.add_property(s("tag"), DataType::RandomData(RandomData::String { content: s("top") }));
    a.add_property(s("b"), DataType::Model(s("b")));
    let mut b = Model::new();
    b.add_property(s("tag"), DataType::RandomData(RandomData::String { content: s("middle") }));
    b.add_property(s("c"), DataType::List(s("c"), 2));
    let mut c = Model::new();
    c.add_property(s("from_a"), DataType::Reference { path: s("^~^"), property: s("tag") });
    c.add_property(s("from_b"), DataType::Reference { path: s("^"), property: s("tag") });
    let mut spec = Specification::new();
    spec.add_model(s("a"), a);
    spec.add_model(s("b"), b);
    spec.add_model(s("c"), c);
    let data = from_spec(&s("a"), &spec, 1).unwrap();
    let cs = records(&data, "c");
    assert_eq!(cs.len(), 2);
    for rec in cs {
        assert_eq!(field(rec, "from_a"), Some(&s("top")));
        assert_eq!(field(rec, "from_b"), Some(&s("middle")));
    }
}

#[test]
fn invalid_reference_path_fails() {
    let mut m = Model::new();
    m.add_property(s("x"), DataType::Reference { path: s("^~x"), property: s("id") });
    let mut spec = Specification::new();
    spec.add_model(s("m"), m);
    assert_eq!(from_spec(&s("m"), &spec, 1), Err(GenError::InvalidReferencePath(s("^~x"))));
    assert_eq!(from_spec(&s("m"), &spec, 0).map(|d| d.len()), Ok(0));
}

#[test]
fn reference_paths_parse_by_hops() {
    assert_eq!(parse_ref_path(&s("^")).map(|p| p.len()), Some(1));
    assert_eq!(parse_ref_path(&s("^~^~^")).map(|p| p.len()), Some(3));
    assert!(parse_ref_path(&s("")).is_none());
    assert!(parse_ref_path(&s("^~")).is_none());
    assert!(parse_ref_path(&s("^^")).is_none());
    assert!(parse_ref_path(&s("up")).is_none());
}

#[test]
fn unknown_root_model_is_reported() {
    let spec = parent_child_spec(2);
    assert_eq!(from_spec(&s("nobody"), &spec, 1), Err(GenError::UnknownRootModel(s("nobody"))));
}

#[test]
fn missing_transitive_dependency_is_reported() {
    let mut a = Model::new();
    a.add_property(s("b"), DataType::Model(s("b")));
    let mut b = Model::new();
    b.add_property(s("cs"), DataType::List(s("ghost"), 0));
    let mut spec = Specification::new();
    spec.add_model(s("a"), a);
    spec.add_model(s("b"), b);
    assert_eq!(validate_dependencies(&s("a"), &spec), Err(GenError::UnknownModelReference(s("ghost"))));
    assert_eq!(from_spec(&s("a"), &spec, 1), Err(GenError::UnknownModelReference(s("ghost"))));
    assert_eq!(validate_dependencies(&s("b"), &spec), Err(GenError::UnknownModelReference(s("ghost"))));
}

#[test]
fn unreachable_missing_dependency_is_ignored() {
    let mut a = Model::new();
    a.add_property(s("v"), DataType::RandomData(RandomData::NullValue));
    let mut b = Model::new();
    b.add_property(s("x"), DataType::Model(s("ghost")));
    let mut spec = Specification::new();
    spec.add_model(s("a"), a);
    spec.add_model(s("b"), b);
    assert_eq!(validate_dependencies(&s("a"), &spec), Ok(()));
    let data = from_spec(&s("a"), &spec, 2).unwrap();
    assert_eq!(records(&data, "a").len(), 2);
    assert_eq!(validate_dependencies(&s("missing"), &spec), Ok(()));
}

#[test]
fn self_nesting_model_stops_with_error() {
    let mut node = Model::new();
    node.add_property(s("child"), DataType::Model(s("node")));
    let mut spec = Specification::new();
    spec.add_model(s("node"), node);
    assert_eq!(validate_dependencies(&s("node"), &spec), Ok(()));
    assert_eq!(from_spec(&s("node"), &spec, 1), Err(GenError::CyclicNesting(s("node"))));
    assert_eq!(from_spec(&s("node"), &spec, 0), Ok(vec![]));
}

#[test]
fn csv_row_follows_column_order_with_null_fill() {
    let rec: Record = vec![(s("a"), s("1")), (s("c"), s("3"))];
    let order = vec![s("a"), s("b")];
    assert_eq!(csv_row(&rec, Some(&order)), vec![s("1"), s("null")]);
    let reversed = vec![s("c"), s("a")];
    assert_eq!(csv_row(&rec, Some(&reversed)), vec![s("3"), s("1")]);
    assert_eq!(csv_row(&rec, None), vec![s("1"), s("3")]);
    assert_eq!(csv_row(&rec, Some(&vec![])), Vec::<String>::new());
}

#[test]
fn merging_in_either_order_keeps_the_same_records() {
    let mut x: ModelDataMap = vec![(s("m"), vec![vec![(s("k"), s("1"))]])];
    let mut y: ModelDataMap = vec![(s("m"), vec![vec![(s("k"), s("2"))]]), (s("n"), vec![vec![]])];
    let mut first = GenContext::new();
    first.merge_model_data(&mut x.clone());
    first.merge_model_data(&mut y.clone());
    let mut second = GenContext::new();
    second.merge_model_data(&mut y);
    second.merge_model_data(&mut x);
    assert_eq!(x.len(), 1);
    assert_eq!(y.len(), 2);
    assert_eq!(x[0].0, "m");
    assert_eq!(y[1].0, "n");
    assert!(x.iter().chain(y.iter()).all(|(_, list)| list.is_empty()));
    let mut first_keys: Vec<_> = first.models.iter().map(|(k, _)| k.clone()).collect();
    let mut second_keys: Vec<_> = second.models.iter().map(|(k, _)| k.clone()).collect();
    first_keys.sort();
    second_keys.sort();
    assert_eq!(first_keys, second_keys);
    let mut a: Vec<_> = records(&first.models, "m").into_iter().cloned().collect();
    let mut b: Vec<_> = records(&second.models, "m").into_iter().cloned().collect();
    assert_eq!(a.len(), 2);
    a.sort();
    b.sort();
    assert_eq!(a, b);
    assert_eq!(records(&first.models, "n").len(), 1);
    assert_eq!(records(&second.models, "n").len(), 1);
}

#[test]
fn add_model_data_appends_under_name() {
    let mut ctx = GenContext::new();
    ctx.add_model_data(s("m"), vec![(s("k"), s("1"))]);
    ctx.add_model_data(s("m"), vec![(s("k"), s("2"))]);
    ctx.add_model_data(s("n"), vec![]);
    assert_eq!(ctx.models.len(), 2);
    assert_eq!(records(&ctx.models, "m").len(), 2);
    assert_eq!(field(records(&ctx.models, "m")[1], "k"), Some(&s("2")));
}

#[test]
fn fetch_ref_path_walks_up_the_scopes() {
    let mut ctx = GenContext::new();
    ctx.parents.push(vec![(s("level"), s("outer"))]);
    ctx.parents.push(vec![(s("level"), s("inner"))]);
    let one = parse_ref_path(&s("^")).unwrap();
    let two = parse_ref_path(&s("^~^")).unwrap();
    let three = parse_ref_path(&s("^~^~^")).unwrap();
    assert_eq!(ctx.fetch_ref_path(&one).and_then(|r| field(r, "level")), Some(&s("inner")));
    assert_eq!(ctx.fetch_ref_path(&two).and_then(|r| field(r, "level")), Some(&s("outer")));
    assert!(ctx.fetch_ref_path(&three).is_none());
}

#[test]
fn fixed_kinds_give_fixed_text() {
    assert_eq!(generate_fake_data(&RandomData::NullValue), "null");
    assert_eq!(generate_fake_data(&RandomData::Reference { model: s("m"), field: s("f") }), "null");
    assert_eq!(generate_fake_data(&RandomData::String { content: s("hello") }), "hello");
    assert_eq!(generate_fake_data(&RandomData::NumberBetween { min: 5, max: 5 }), "null");
    assert_eq!(generate_fake_data(&RandomData::NumberBetween { min: 7, max: 8 }), "7");
    assert_eq!(generate_fake_data(&RandomData::NumberBetween { min: 1234, max: 1235 }), "1234");
    assert_eq!(generate_fake_data(&RandomData::Number { digits: 6 }).len(), 6);
    assert_eq!(
        generate_fake_data(&RandomData::LoremPicsum { width: Some(300), height: None, grayscale: Some(true) }),
        "https://picsum.photos/g/300/300"
    );
    assert_eq!(
        generate_fake_data(&RandomData::LoremPicsum { width: None, height: Some(120), grayscale: Some(false) }),
        "https://picsum.photos/120/120"
    );
    assert_eq!(
        generate_fake_data(&RandomData::LoremPicsum { width: Some(640), height: Some(480), grayscale: None }),
        "https://picsum.photos/640/480"
    );
    assert_eq!(
        generate_fake_data(&RandomData::LoremPicsum { width: None, height: None, grayscale: None }),
        "https://picsum.photos/200/200"
    );
    assert_eq!(RandomData::String { content: s("x") }.into_data(), "x");
    assert_eq!(RandomData::NullValue.to_string(), "null");
}

#[test]
fn random_kinds_give_text() {
    let kinds = vec![
        RandomData::FirstName,
        RandomData::LastName,
        RandomData::FullName,
        RandomData::Email,
        RandomData::Paragraph,
        RandomData::Paragraphs { amount: Some(2) },
        RandomData::Sentence,
        RandomData::Sentences { amount: None },
        RandomData::Company,
        RandomData::City,
        RandomData::StreetAddress,
        RandomData::Latitude,
        RandomData::Longitude,
        RandomData::Postcode,
        RandomData::PhoneNumber,
    ];
    for k in kinds {
        assert!(!generate_fake_data(&k).is_empty());
    }
    assert!(generate_fake_data(&RandomData::Email).contains('@'));
    let uuid = generate_fake_data(&RandomData::UUID4);
    assert_eq!(uuid.len(), 36);
    let lat_long = generate_fake_data(&RandomData::LatLong);
    assert!(lat_long.starts_with('[') && lat_long.ends_with(']') && lat_long.contains(", "));
    let point = generate_fake_data(&RandomData::GeoPoint);
    assert!(point.starts_with("POINT(") && point.ends_with(')'));
    assert_eq!(generate_fake_data(&RandomData::FullAddress).matches(", ").count() >= 2, true);
}

#[test]
fn flat_models_generate_records_in_field_order() {
    let mut model = FlatModel::new();
    model.add_property(s("greeting"), RandomData::String { content: s("hi") });
    model.add_property(s("link"), RandomData::Reference { model: s("other"), field: s("id") });
    model.add_property(s("greeting"), RandomData::String { content: s("hello") });
    let rec = model.generate_data();
    assert_eq!(rec, vec![(s("greeting"), s("hello")), (s("link"), s("null"))]);
    assert!(matches!(model.get_property(s("link")), Some(RandomData::Reference { .. })));
    assert!(model.get_property(s("nothing")).is_none());
    let refs = model.get_reference_types();
    assert_eq!(refs.len(), 1);
    assert_eq!(refs[0].0, "link");

    let mut map = ModelMap::new();
    map.add_model(s("user"), model);
    map.set_serialize(s("user"), vec![s("link")]);
    assert!(map.get_model(s("user")).is_some());
    assert!(map.get_model(s("admin")).is_none());
    let all = map.generate_data();
    assert_eq!(all.len(), 1);
    assert_eq!(all[0].0, "user");
    assert_eq!(map.get_models_ref().len(), 1);
    assert_eq!(map.get_serialize_ref()[0].1, vec![s("link")]);
}

#[test]
fn generation_specification_emits_json_objects() {
    let mut model = FlatModel::new();
    model.add_property(s("word"), RandomData::String { content: s("abc") });
    let mut map = ModelMap::new();
    map.add_model(s("thing"), model);
    let gen = GenerationSpecification { models: vec![(s("thing"), 3), (s("absent"), 2)] };
    let out = gen.generate_models(&map);
    assert_eq!(out.len(), 3);
    for text in out {
        assert_eq!(text, "{\"word\":\"abc\"}");
    }
}

#[test]
fn output_types_name_their_extension() {
    assert_eq!(OutputType::JSON.as_extension(), "json");
    assert_eq!(OutputType::CSV.as_extension(), "csv");
    assert_eq!(OutputType::from_name("json"), OutputType::JSON);
    assert_eq!(OutputType::from_name("csv"), OutputType::CSV);
    assert_eq!(OutputType::from_name("xml"), OutputType::CSV);
}

#[test]
fn specification_lookup() {
    let mut spec = parent_child_spec(2);
    assert!(spec.has_model(&s("parent")));
    assert!(!spec.has_model(&s("orphan")));
    assert_eq!(spec.get_definition(&s("child")).type_iter().len(), 2);
    assert!(spec.get_serialize_ref(&s("child")).is_none());
    spec.set_serialize(s("child"), vec![s("age")]);
    assert_eq!(spec.get_serialize_ref(&s("child")), Some(&vec![s("age")]));
    assert_eq!(spec.model_count(), 2);
    assert_eq!(spec.model_index(&s("child")), Some(1));
    assert_eq!(spec.model_entry(0).0, "parent");
}

#[test]
fn cli_defaults() {
    let args = CliArgs::default();
    assert_eq!(args.model_amount, 1);
    assert_eq!(args.output_type, OutputType::CSV);
    assert!(args.pretty_print);
    assert!(args.model_name.is_empty());
}

#[test]
fn long_acyclic_nesting_generates() {
    let mut spec = Specification::new();
    let depth = 300;
    for i in 0..depth {
        let mut m = Model::new();
        m.add_property(s("level"), DataType::RandomData(RandomData::String { content: format!("{}", i) }));
        m.add_property(s("above"), DataType::Reference { path: s("^"), property: s("level") });
        if i + 1 < depth {
            m.add_property(s("next"), DataType::Model(format!("m{}", i + 1)));
        }
        spec.add_model(format!("m{}", i), m);
    }
    let data = from_spec(&s("m0"), &spec, 1).unwrap();
    assert_eq!(data.len(), depth);
    let last = records(&data, "m299");
    assert_eq!(last.len(), 1);
    assert_eq!(field(last[0], "above"), Some(&s("298")));
    assert_eq!(field(records(&data, "m0")[0], "above"), Some(&s("null")));
}

#[test]
fn generated_names_are_exactly_the_reached_models() {
    let mut spec = parent_child_spec(0);
    let mut lonely = Model::new();
    lonely.add_property(s("x"), DataType::RandomData(RandomData::NullValue));
    spec.add_model(s("lonely"), lonely);
    let data = from_spec(&s("parent"), &spec, 3).unwrap();
    assert_eq!(data.len(), 1);
    assert_eq!(data[0].0, "parent");
    assert_eq!(data[0].1.len(), 3);
}

#[test]
fn sentences_end_with_a_full_stop() {
    assert!(generate_fake_data(&RandomData::Sentence).ends_with('.'));
    assert!(generate_fake_data(&RandomData::Sentences { amount: Some(5) }).ends_with('.'));
}
