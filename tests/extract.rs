use stellarust::dto::{BudgetComponent, Key, ResourceClass};
use stellarust::extract::{
    data_point_from_parse_result, get_budget, get_budget_component_map, get_empire_data,
    get_empires_from_gamestate, get_name_from_meta, get_required_dlcs_from_meta, get_resources,
    Amount, ExtractError, ParseResult,
};
use stellarust::parser::root;
use stellarust::path::{
    as_array, as_decimal, as_integer, as_string, get_val_from_path, PathComponent, PathErrorKind,
    TypeMismatch, ValKind,
};
use stellarust::value::Val;

fn b(s: &str) -> &[u8] {
    s.as_bytes()
}

fn number(a: &Amount) -> f64 {
    match a {
        Amount::Integer(i) => *i as f64,
        Amount::Decimal(t) => std::str::from_utf8(t).unwrap().parse().unwrap(),
    }
}

fn first_value<'a>(v: Val<'a>) -> Val<'a> {
    match v {
        Val::Dict(mut entries) => entries.remove(0).1,
        _ => panic!(),
    }
}

#[test]
fn get_name_from_meta__contains_keyvalue_name__returns_value() {
    let meta = root(b("name=\"Eat My Shorts\"\n")).unwrap();
    assert_eq!(get_name_from_meta(&meta).unwrap(), b("Eat My Shorts").to_vec());
}

#[test]
fn name_missing_or_not_a_string_fails() {
    let meta = root(b("version=1")).unwrap();
    assert!(matches!(get_name_from_meta(&meta), Err(ExtractError::Path(_))));
    let meta = root(b("name=1")).unwrap();
    assert_eq!(
        get_name_from_meta(&meta),
        Err(ExtractError::Type(TypeMismatch { expected: ValKind::StringLiteral, found: ValKind::Integer }))
    );
}

#[test]
fn required_dlcs_as_list_or_array() {
    let meta = root(b("required_dlcs={\n \"Ancient Relics Story Pack\"\n \"Apocalypse\"\n}")).unwrap();
    assert_eq!(
        get_required_dlcs_from_meta(&meta).unwrap(),
        vec![b("Ancient Relics Story Pack").to_vec(), b("Apocalypse").to_vec()]
    );
    let meta = root(b("required_dlcs={ 1=\"Utopia\" 0=\"Megacorp\" }")).unwrap();
    assert_eq!(
        get_required_dlcs_from_meta(&meta).unwrap(),
        vec![b("Megacorp").to_vec(), b("Utopia").to_vec()]
    );
    let meta = root(b("required_dlcs=3")).unwrap();
    assert!(get_required_dlcs_from_meta(&meta).is_err());
}

#[test]
fn path_lookup_and_errors() {
    let tree = root(b("a={ b={ 0=x 1=y } } c=2")).unwrap();
    let path = [PathComponent::Key(b("a")), PathComponent::Key(b("b")), PathComponent::Index(1)];
    assert_eq!(get_val_from_path(&path, &tree), Ok(&Val::Identifier(b("y"))));
    let out = [PathComponent::Key(b("a")), PathComponent::Key(b("b")), PathComponent::Index(2)];
    let e = get_val_from_path(&out, &tree).unwrap_err();
    assert_eq!((e.kind, e.depth), (PathErrorKind::IndexOutOfBounds, 2));
    let missing = [PathComponent::Key(b("z"))];
    assert_eq!(get_val_from_path(&missing, &tree).unwrap_err().kind, PathErrorKind::KeyNotFound);
    let not_dict = [PathComponent::Key(b("c")), PathComponent::Key(b("d"))];
    let e = get_val_from_path(&not_dict, &tree).unwrap_err();
    assert_eq!((e.kind, e.depth), (PathErrorKind::ExpectedDict, 1));
    let not_array = [PathComponent::Index(0)];
    assert_eq!(get_val_from_path(&not_array, &tree).unwrap_err().kind, PathErrorKind::ExpectedArray);
    assert_eq!(get_val_from_path(&[], &tree), Ok(&tree));
}

#[test]
fn first_of_duplicate_keys_is_found() {
    let tree = root(b("a=1 a=2")).unwrap();
    assert_eq!(get_val_from_path(&[PathComponent::Key(b("a"))], &tree), Ok(&Val::Integer(1)));
}

#[test]
fn typed_accessors() {
    assert_eq!(as_integer(&Val::Integer(4)), Ok(4));
    assert_eq!(
        as_integer(&Val::Identifier(b("x"))),
        Err(TypeMismatch { expected: ValKind::Integer, found: ValKind::Identifier })
    );
    assert_eq!(as_decimal(&Val::Decimal(b("1.5"))), Ok(b("1.5")));
    assert_eq!(as_string(&Val::StringLiteral(b("s"))), Ok(b("s")));
    assert!(as_array(&Val::List(vec![])).is_err());
}

#[test]
fn get_resources__given_economy_module__returns_all_resources() {
    let module_entry = "standard_economy_module={\n resources={\n energy=11484.2\n minerals=10302.2\n food=1119\n physics_research=3\n engineering_research=9\n influence=503\n unity=245.972\n consumer_goods=96\n alloys=201.6\n volatile_motes=16\n exotic_gases=17.6\n rare_crystals=16\n sr_living_metal=8\n sr_zro=8\n sr_dark_matter=8\n }\n }";
    let module = first_value(root(b(module_entry)).unwrap());
    let r = get_resources(&module).unwrap();
    let got: Vec<f64> = [
        &r.energy, &r.minerals, &r.food, &r.physics_research, &r.society_research,
        &r.engineering_research, &r.influence, &r.unity, &r.consumer_goods, &r.alloys,
        &r.volatile_motes, &r.exotic_gases, &r.rare_crystals, &r.sr_living_metal, &r.sr_zro,
        &r.sr_dark_matter,
    ]
    .iter()
    .map(|a| number(a))
    .collect();
    assert_eq!(
        got,
        vec![11484.2, 10302.2, 1119.0, 3.0, 0.0, 9.0, 503.0, 245.972, 96.0, 201.6, 16.0, 17.6, 16.0, 8.0, 8.0, 8.0]
    );
}

#[test]
fn non_numeric_resource_is_an_error() {
    let module = first_value(root(b("m={ resources={ energy=lots } }")).unwrap());
    assert_eq!(
        get_resources(&module).unwrap_err(),
        TypeMismatch { expected: ValKind::Decimal, found: ValKind::Identifier }
    );
}

const INCOME: &str = "income={\n none={\n }\n source_A={\n energy=1\n minerals=3\n food=5\n }\n source_B={\n energy=8\n minerals=13\n food=21\n unity=0.0\n }\n }";

fn contributions(l: &[(Vec<u8>, Amount)]) -> Vec<(String, f64)> {
    l.iter().map(|(n, a)| (String::from_utf8(n.clone()).unwrap(), number(a))).collect()
}

#[test]
fn get_income__given_income__returns_income() {
    let income = first_value(root(b(INCOME)).unwrap());
    let ledger = get_budget_component_map(&income);
    assert_eq!(ledger.per_class.len(), 16);
    let pairs = |a: f64, b: f64| vec![(String::from("source_A"), a), (String::from("source_B"), b)];
    assert_eq!(contributions(&ledger.per_class[ResourceClass::Energy as usize]), pairs(1.0, 8.0));
    assert_eq!(contributions(&ledger.per_class[ResourceClass::Minerals as usize]), pairs(3.0, 13.0));
    assert_eq!(contributions(&ledger.per_class[ResourceClass::Food as usize]), pairs(5.0, 21.0));
    assert!(ledger.per_class[ResourceClass::Unity as usize].is_empty());
    assert!(ledger.per_class[ResourceClass::Alloys as usize].is_empty());
}

#[test]
fn get_expenses__given_income__returns_income() {
    let budget = root(b("current_month={ expenses={ sink={ energy=-2.5 alloys=4 } } }")).unwrap();
    let r = get_budget(&budget);
    assert_eq!(
        contributions(&r.expense.ledger.per_class[ResourceClass::Energy as usize]),
        vec![(String::from("sink"), -2.5)]
    );
    assert_eq!(
        contributions(&r.expense.ledger.per_class[ResourceClass::Alloys as usize]),
        vec![(String::from("sink"), 4.0)]
    );
    assert!(r.income.ledger.per_class.iter().all(|l| l.is_empty()));
    assert!(r.balance_last_month.ledger.per_class.iter().all(|l| l.is_empty()));
    assert_eq!(BudgetComponent::Expenses.key(), b("expenses"));
}

#[test]
fn get_empire_data__valid_country___returns_empire_data_with_name() {
    let text = "name=\"Queptilium Remnant\"\nmodules={ standard_economy_module={ resources={ energy=11484.2 food=1119 } } }\nbudget={ current_month={ income={ none={ } source_1={ energy=1000 } } } last_month={ balance={ sink_1={ energy=-500 } } } }";
    let country = root(b(text)).unwrap();
    let e = get_empire_data(&country).unwrap();
    assert_eq!(e.name, b("Queptilium Remnant").to_vec());
    assert_eq!(number(&e.resources.energy), 11484.2);
    assert_eq!(number(&e.resources.food), 1119.0);
    assert_eq!(number(&e.resources.minerals), 0.0);
    assert_eq!(
        contributions(&e.budget.income.ledger.per_class[0]),
        vec![(String::from("source_1"), 1000.0)]
    );
    assert_eq!(
        contributions(&e.budget.balance_last_month.ledger.per_class[0]),
        vec![(String::from("sink_1"), -500.0)]
    );
}

#[test]
fn minimal_country_yields_empire_with_zero_defaults() {
    let text = "name=\"Queptilium Remnant\" modules={ standard_economy_module={ resources={ energy=11484.2 food=1119 } } }";
    let country = root(b(text)).unwrap();
    let e = get_empire_data(&country).unwrap();
    assert_eq!(e.name, b("Queptilium Remnant").to_vec());
    assert_eq!(number(&e.resources.energy), 11484.2);
    assert_eq!(number(&e.resources.food), 1119.0);
    for a in [&e.resources.minerals, &e.resources.unity, &e.resources.sr_dark_matter] {
        assert_eq!(number(a), 0.0);
    }
    assert!(e.budget.income.ledger.per_class.iter().all(|l| l.is_empty()));
}

#[test]
fn countries_without_economy_are_skipped() {
    let text = "country={ 0={ name=\"Fauna\" } 1={ name=\"Empire\" modules={ standard_economy_module={ resources={ unity=2 } } } } }";
    let gamestate = root(b(text)).unwrap();
    let empires = get_empires_from_gamestate(&gamestate).unwrap();
    assert_eq!(empires.len(), 1);
    assert_eq!(empires[0].name, b("Empire").to_vec());
    assert_eq!(number(&empires[0].resources.unity), 2.0);
    let gamestate = root(b("country={ 0={ name=1 modules={ standard_economy_module={ } } } }")).unwrap();
    assert!(get_empires_from_gamestate(&gamestate).is_err());
    let gamestate = root(b("other=1")).unwrap();
    assert!(get_empires_from_gamestate(&gamestate).is_err());
}

#[test]
fn from_string() {
    let meta = root(b("name=\"Campaign\"\nrequired_dlcs={ \"Utopia\" }")).unwrap();
    let gamestate = root(b("country={ 0={ name=\"E\" modules={ standard_economy_module={ resources={ } } } } }")).unwrap();
    let result = ParseResult { meta, gamestate };
    let point = data_point_from_parse_result(&result).unwrap();
    assert_eq!(point.campaign_name, b("Campaign").to_vec());
    assert_eq!(point.required_dlcs, vec![b("Utopia").to_vec()]);
    assert_eq!(point.empires.len(), 1);
}
