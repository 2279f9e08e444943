//! The snapshot a save file yields: campaign name, content packs, and per
//! empire its name, stockpiles and budget.
use vstd::prelude::*;
use vstd::slice::slice_to_vec;
use vstd::string::StringSliceAdditionalSpecFns;
use crate::dto::{class_at, class_key, component_key, BudgetComponent, Key, ResourceClass};
use crate::path::{
    as_array, as_string, get_val_from_path, kind, kind_of, lookup, path_view, PathComponent,
    PathParseError, SComponent, TypeMismatch, ValKind,
};
use crate::value::{SVal, Val};

verus! {

/// A numeric amount as the save file wrote it.
#[derive(Clone, Debug, PartialEq)]
pub enum Amount {
    Integer(i64),
    /// The text of a decimal, such as `-0.25`.
    Decimal(Vec<u8>),
}

impl Amount {
    pub open spec fn view(&self) -> SVal {
        match self {
            Amount::Integer(i) => SVal::Integer(*i as int),
            Amount::Decimal(t) => SVal::Decimal(t@),
        }
    }
}

pub open spec fn is_number(v: SVal) -> bool {
    v is Integer || v is Decimal
}

/// A sign, a point or the digit 0.
pub open spec fn is_zero_text_byte(b: u8) -> bool {
    b == 45 || b == 46 || b == 48
}

pub open spec fn all_zero_text(t: Seq<u8>) -> bool {
    forall|k: int| 0 <= k < t.len() ==> is_zero_text_byte(#[trigger] t[k])
}

/// Whether a number is zero: the integer 0, or a decimal all of whose digits are 0.
pub open spec fn is_zero_amount(v: SVal) -> bool {
    match v {
        SVal::Integer(i) => i == 0,
        SVal::Decimal(t) => all_zero_text(t),
        _ => false,
    }
}

/// A number node as an owned amount; an integer widens to the numeric type.
pub fn as_number(v: &Val) -> (r: Result<Amount, TypeMismatch>)
    ensures
        is_number(v@) ==> r is Ok && r->Ok_0@ == v@,
        !is_number(v@) ==> r == Err::<Amount, TypeMismatch>(TypeMismatch { expected: ValKind::Decimal, found: kind_of(v@) }),
{
    match v {
        Val::Integer(i) => Ok(Amount::Integer(*i)),
        Val::Decimal(t) => Ok(Amount::Decimal(slice_to_vec(t))),
        _ => Err(TypeMismatch { expected: ValKind::Decimal, found: kind(v) }),
    }
}

pub fn is_zero(a: &Amount) -> (r: bool)
    ensures
        r == is_zero_amount(a@),
{
    match a {
        Amount::Integer(i) => *i == 0,
        Amount::Decimal(t) => {
            let mut k: usize = 0;
            while k < t.len()
                invariant
                    a@ == SVal::Decimal(t@),
                    k <= t@.len(),
                    forall|j: int| 0 <= j < k ==> is_zero_text_byte(#[trigger] t@[j]),
                decreases t@.len() - k,
            {
                if t[k] != 45 && t[k] != 46 && t[k] != 48 {
                    assert(!is_zero_text_byte(t@[k as int]));
                    return false;
                }
                k += 1;
            }
            true
        },
    }
}

pub open spec fn key_path1(a: Seq<u8>) -> Seq<SComponent> {
    seq![SComponent::Key(a)]
}

pub open spec fn key_path2(a: Seq<u8>, b: Seq<u8>) -> Seq<SComponent> {
    seq![SComponent::Key(a), SComponent::Key(b)]
}

/// The stockpile of class `c` in an economy module: 0 where it is absent,
/// an error where it is present and not a number.
pub open spec fn resource_of(module: SVal, c: ResourceClass) -> Result<SVal, TypeMismatch> {
    match lookup(module, key_path2("resources".spec_bytes(), class_key(c))) {
        Ok(v) => if is_number(v) {
            Ok(v)
        } else {
            Err(TypeMismatch { expected: ValKind::Decimal, found: kind_of(v) })
        },
        Err(_) => Ok(SVal::Integer(0)),
    }
}

fn one_key<'k>(a: &'k [u8]) -> (r: Vec<PathComponent<'k>>)
    ensures
        path_view(r@) == key_path1(a@),
{
    let r = vec![PathComponent::Key(a)];
    assert(path_view(r@) =~= key_path1(a@));
    r
}

fn two_keys<'k>(a: &'k [u8], b: &'k [u8]) -> (r: Vec<PathComponent<'k>>)
    ensures
        path_view(r@) == key_path2(a@, b@),
{
    let r = vec![PathComponent::Key(a), PathComponent::Key(b)];
    assert(path_view(r@) =~= key_path2(a@, b@));
    r
}

/// The stockpile of one resource class in an economy module.
pub fn get_resource(module: &Val, c: ResourceClass) -> (r: Result<Amount, TypeMismatch>)
    ensures
        match resource_of(module@, c) {
            Ok(v) => r is Ok && r->Ok_0@ == v,
            Err(e) => r == Err::<Amount, TypeMismatch>(e),
        },
{
    let path = two_keys("resources".as_bytes(), c.key());
    match get_val_from_path(path.as_slice(), module) {
        Ok(v) => as_number(v),
        Err(_) => Ok(Amount::Integer(0)),
    }
}

/// The stockpiles of an empire, one field per resource class.
#[derive(Clone, Debug, PartialEq)]
pub struct Resources {
    pub energy: Amount,
    pub minerals: Amount,
    pub food: Amount,
    pub physics_research: Amount,
    pub society_research: Amount,
    pub engineering_research: Amount,
    pub influence: Amount,
    pub unity: Amount,
    pub consumer_goods: Amount,
    pub alloys: Amount,
    pub volatile_motes: Amount,
    pub exotic_gases: Amount,
    pub rare_crystals: Amount,
    pub sr_living_metal: Amount,
    pub sr_zro: Amount,
    pub sr_dark_matter: Amount,
}

impl Resources {
    /// The amounts in the declaration order of the resource classes.
    pub open spec fn view(&self) -> Seq<SVal> {
        seq![
            self.energy@,
            self.minerals@,
            self.food@,
            self.physics_research@,
            self.society_research@,
            self.engineering_research@,
            self.influence@,
            self.unity@,
            self.consumer_goods@,
            self.alloys@,
            self.volatile_motes@,
            self.exotic_gases@,
            self.rare_crystals@,
            self.sr_living_metal@,
            self.sr_zro@,
            self.sr_dark_matter@,
        ]
    }
}

/// The stockpiles of an economy module, or the first error among them.
pub open spec fn resources_of(module: SVal) -> Option<Seq<SVal>> {
    if forall|i: int| 0 <= i < 16 ==> (#[trigger] resource_of(module, class_at(i))) is Ok {
        Some(Seq::new(16, |i: int| resource_of(module, class_at(i))->Ok_0))
    } else {
        None
    }
}

/// Reads the sixteen stockpiles of an economy module; fails where one is
/// present and not a number.
pub fn get_resources(module: &Val) -> (r: Result<Resources, TypeMismatch>)
    ensures
        match resources_of(module@) {
            Some(amounts) => r is Ok && r->Ok_0@ == amounts,
            None => r is Err,
        },
{
    let energy = match get_resource(module, ResourceClass::Energy) {
        Ok(a) => a,
        Err(e) => {
            assert(class_at(0) == ResourceClass::Energy);
            return Err(e);
        },
    };
    let minerals = match get_resource(module, ResourceClass::Minerals) {
        Ok(a) => a,
        Err(e) => {
            assert(class_at(1) == ResourceClass::Minerals);
            return Err(e);
        },
    };
    let food = match get_resource(module, ResourceClass::Food) {
        Ok(a) => a,
        Err(e) => {
            assert(class_at(2) == ResourceClass::Food);
            return Err(e);
        },
    };
    let physics_research = match get_resource(module, ResourceClass::Physics) {
        Ok(a) => a,
        Err(e) => {
            assert(class_at(3) == ResourceClass::Physics);
            return Err(e);
        },
    };
    let society_research = match get_resource(module, ResourceClass::Society) {
        Ok(a) => a,
        Err(e) => {
            assert(class_at(4) == ResourceClass::Society);
            return Err(e);
        },
    };
    let engineering_research = match get_resource(module, ResourceClass::Engineering) {
        Ok(a) => a,
        Err(e) => {
            assert(class_at(5) == ResourceClass::Engineering);
            return Err(e);
        },
    };
    let influence = match get_resource(module, ResourceClass::Influence) {
        Ok(a) => a,
        Err(e) => {
            assert(class_at(6) == ResourceClass::Influence);
            return Err(e);
        },
    };
    let unity = match get_resource(module, ResourceClass::Unity) {
        Ok(a) => a,
        Err(e) => {
            assert(class_at(7) == ResourceClass::Unity);
            return Err(e);
        },
    };
    let consumer_goods = match get_resource(module, ResourceClass::ConsumerGoods) {
        Ok(a) => a,
        Err(e) => {
            assert(class_at(8) == ResourceClass::ConsumerGoods);
            return Err(e);
        },
    };
    let alloys = match get_resource(module, ResourceClass::Alloys) {
        Ok(a) => a,
        Err(e) => {
            assert(class_at(9) == ResourceClass::Alloys);
            return Err(e);
        },
    };
    let volatile_motes = match get_resource(module, ResourceClass::Motes) {
        Ok(a) => a,
        Err(e) => {
            assert(class_at(10) == ResourceClass::Motes);
            return Err(e);
        },
    };
    let exotic_gases = match get_resource(module, ResourceClass::Gasses) {
        Ok(a) => a,
        Err(e) => {
            assert(class_at(11) == ResourceClass::Gasses);
            return Err(e);
        },
    };
    let rare_crystals = match get_resource(module, ResourceClass::Crystals) {
        Ok(a) => a,
        Err(e) => {
            assert(class_at(12) == ResourceClass::Crystals);
            return Err(e);
        },
    };
    let sr_living_metal = match get_resource(module, ResourceClass::LivingMetal) {
        Ok(a) => a,
        Err(e) => {
            assert(class_at(13) == ResourceClass::LivingMetal);
            return Err(e);
        },
    };
    let sr_zro = match get_resource(module, ResourceClass::Zro) {
        Ok(a) => a,
        Err(e) => {
            assert(class_at(14) == ResourceClass::Zro);
            return Err(e);
        },
    };
    let sr_dark_matter = match get_resource(module, ResourceClass::DarkMatter) {
        Ok(a) => a,
        Err(e) => {
            assert(class_at(15) == ResourceClass::DarkMatter);
            return Err(e);
        },
    };
    let r = Resources {
        energy,
        minerals,
        food,
        physics_research,
        society_research,
        engineering_research,
        influence,
        unity,
        consumer_goods,
        alloys,
        volatile_motes,
        exotic_gases,
        rare_crystals,
        sr_living_metal,
        sr_zro,
        sr_dark_matter,
    };
    proof {
        assert(class_at(0) == ResourceClass::Energy);
        assert(class_at(1) == ResourceClass::Minerals);
        assert(class_at(2) == ResourceClass::Food);
        assert(class_at(3) == ResourceClass::Physics);
        assert(class_at(4) == ResourceClass::Society);
        assert(class_at(5) == ResourceClass::Engineering);
        assert(class_at(6) == ResourceClass::Influence);
        assert(class_at(7) == ResourceClass::Unity);
        assert(class_at(8) == ResourceClass::ConsumerGoods);
        assert(class_at(9) == ResourceClass::Alloys);
        assert(class_at(10) == ResourceClass::Motes);
        assert(class_at(11) == ResourceClass::Gasses);
        assert(class_at(12) == ResourceClass::Crystals);
        assert(class_at(13) == ResourceClass::LivingMetal);
        assert(class_at(14) == ResourceClass::Zro);
        assert(class_at(15) == ResourceClass::DarkMatter);
        assert(r@ =~= Seq::new(16, |i: int| resource_of(module@, class_at(i))->Ok_0));
    }
    Ok(r)
}


/// What a contributor's entry gives to class `c`: the amount where it is a
/// number other than zero.
pub open spec fn contribution_of(contributions: SVal, c: ResourceClass) -> Option<SVal> {
    match lookup(contributions, key_path1(class_key(c))) {
        Ok(v) => if is_number(v) && !is_zero_amount(v) {
            Some(v)
        } else {
            None
        },
        Err(_) => None,
    }
}

/// The contributors to class `c`, in input order, with their amounts.
pub open spec fn class_contributions(entries: Seq<(Seq<u8>, SVal)>, c: ResourceClass) -> Seq<(Seq<u8>, SVal)>
    decreases entries.len(),
{
    if entries.len() == 0 {
        Seq::empty()
    } else {
        let rest = class_contributions(entries.drop_last(), c);
        match contribution_of(entries.last().1, c) {
            Some(a) => rest.push((entries.last().0, a)),
            None => rest,
        }
    }
}

/// Contributor-to-resources entries inverted into class-to-contributors;
/// anything but a dict contributes nothing.
pub open spec fn ledger_of(component: SVal, c: ResourceClass) -> Seq<(Seq<u8>, SVal)> {
    match component {
        SVal::Dict(entries) => class_contributions(entries, c),
        _ => Seq::empty(),
    }
}

pub open spec fn ledger_model(component: SVal) -> Seq<Seq<(Seq<u8>, SVal)>> {
    Seq::new(16, |i: int| ledger_of(component, class_at(i)))
}

pub open spec fn empty_ledger() -> Seq<Seq<(Seq<u8>, SVal)>> {
    Seq::new(16, |i: int| Seq::<(Seq<u8>, SVal)>::empty())
}

pub open spec fn contributions_view(l: Vec<(Vec<u8>, Amount)>) -> Seq<(Seq<u8>, SVal)> {
    l@.map_values(|e: (Vec<u8>, Amount)| (e.0@, e.1@))
}

/// For each resource class, in declaration order, the contributors and
/// their amounts.
#[derive(Debug)]
pub struct Ledger {
    pub per_class: Vec<Vec<(Vec<u8>, Amount)>>,
}

impl Ledger {
    pub open spec fn view(&self) -> Seq<Seq<(Seq<u8>, SVal)>> {
        self.per_class@.map_values(|l: Vec<(Vec<u8>, Amount)>| contributions_view(l))
    }

    /// A ledger with no contributors.
    pub fn empty() -> (r: Ledger)
        ensures
            r@ == empty_ledger(),
    {
        let mut per_class: Vec<Vec<(Vec<u8>, Amount)>> = Vec::new();
        let mut i: usize = 0;
        while i < 16
            invariant
                i <= 16,
                per_class@.len() == i,
                forall|m: int| 0 <= m < i ==> (#[trigger] per_class@[m])@.len() == 0,
            decreases 16 - i,
        {
            per_class.push(Vec::new());
            i += 1;
        }
        let r = Ledger { per_class };
        assert(r@ =~= empty_ledger()) by {
            assert forall|m: int| 0 <= m < 16 implies #[trigger] r@[m] =~= empty_ledger()[m] by {
                assert(contributions_view(per_class@[m]) =~= Seq::<(Seq<u8>, SVal)>::empty());
            }
        }
        r
    }
}

fn contribution(contributions: &Val, c: ResourceClass) -> (r: Option<Amount>)
    ensures
        match contribution_of(contributions@, c) {
            Some(v) => r is Some && r->Some_0@ == v,
            None => r is None,
        },
{
    let path = one_key(c.key());
    match get_val_from_path(path.as_slice(), contributions) {
        Ok(v) => match as_number(v) {
            Ok(a) => if is_zero(&a) {
                None
            } else {
                Some(a)
            },
            Err(_) => None,
        },
        Err(_) => None,
    }
}

/// Inverts one budget component (income, expenses or balance): for each
/// resource class, the contributors in input order with their non-zero
/// amounts.
pub fn get_budget_component_map(component: &Val) -> (r: Ledger)
    ensures
        r@ == ledger_model(component@),
{
    let mut per_class: Vec<Vec<(Vec<u8>, Amount)>> = Vec::new();
    let mut i: usize = 0;
    while i < 16
        invariant
            i <= 16,
            per_class@.len() == i,
            forall|m: int| 0 <= m < i ==> contributions_view(#[trigger] per_class@[m]) == ledger_of(component@, class_at(m)),
        decreases 16 - i,
    {
        let c = ResourceClass::from_index(i);
        let mut list: Vec<(Vec<u8>, Amount)> = Vec::new();
        match component {
            Val::Dict(entries) => {
                let ghost ev = Val::entries_view(entries);
                let mut j: usize = 0;
                assert(ev.take(0) =~= Seq::<(Seq<u8>, SVal)>::empty());
                assert(contributions_view(list) =~= Seq::<(Seq<u8>, SVal)>::empty());
                while j < entries.len()
                    invariant
                        ev == Val::entries_view(entries),
                        component@ == SVal::Dict(ev),
                        j <= entries@.len(),
                        contributions_view(list) == class_contributions(ev.take(j as int), c),
                    decreases entries@.len() - j,
                {
                    proof {
                        assert(ev.take(j as int + 1).drop_last() =~= ev.take(j as int));
                        assert(ev[j as int] == (entries@[j as int].0@, entries@[j as int].1@));
                    }
                    let ghost before = contributions_view(list);
                    match contribution(&entries[j].1, c) {
                        Some(a) => {
                            let name = slice_to_vec(entries[j].0);
                            list.push((name, a));
                            assert(contributions_view(list) =~= before.push((entries@[j as int].0@, list@.last().1@)));
                        },
                        None => {},
                    }
                    j += 1;
                }
                assert(ev.take(entries@.len() as int) =~= ev);
            },
            _ => {
                assert(contributions_view(list) =~= Seq::<(Seq<u8>, SVal)>::empty());
            },
        }
        per_class.push(list);
        i += 1;
    }
    let r = Ledger { per_class };
    assert(r@ =~= ledger_model(component@));
    r
}

#[derive(Debug)]
pub struct Income {
    pub ledger: Ledger,
}

#[derive(Debug)]
pub struct Expense {
    pub ledger: Ledger,
}

#[derive(Debug)]
pub struct Balance {
    pub ledger: Ledger,
}

/// The budget of the current and the last month.
#[derive(Debug)]
pub struct Budget {
    pub income: Income,
    pub expense: Expense,
    pub balance: Balance,
    pub income_last_month: Income,
    pub expense_last_month: Expense,
    pub balance_last_month: Balance,
}

impl Budget {
    /// The six ledgers: this month's income, expenses and balance, then last month's.
    pub open spec fn view(&self) -> Seq<Seq<Seq<(Seq<u8>, SVal)>>> {
        seq![
            self.income.ledger@,
            self.expense.ledger@,
            self.balance.ledger@,
            self.income_last_month.ledger@,
            self.expense_last_month.ledger@,
            self.balance_last_month.ledger@,
        ]
    }
}

/// The ledger of one component of one month; empty where the budget lacks it.
pub open spec fn budget_ledger(budget: SVal, month: Seq<u8>, comp: BudgetComponent) -> Seq<Seq<(Seq<u8>, SVal)>> {
    match lookup(budget, key_path2(month, component_key(comp))) {
        Ok(v) => ledger_model(v),
        Err(_) => empty_ledger(),
    }
}

pub open spec fn budget_model(budget: SVal) -> Seq<Seq<Seq<(Seq<u8>, SVal)>>> {
    let cm = "current_month".spec_bytes();
    let lm = "last_month".spec_bytes();
    seq![
        budget_ledger(budget, cm, BudgetComponent::Income),
        budget_ledger(budget, cm, BudgetComponent::Expenses),
        budget_ledger(budget, cm, BudgetComponent::Balance),
        budget_ledger(budget, lm, BudgetComponent::Income),
        budget_ledger(budget, lm, BudgetComponent::Expenses),
        budget_ledger(budget, lm, BudgetComponent::Balance),
    ]
}

fn month_component(budget: &Val, month: &[u8], comp: BudgetComponent) -> (r: Ledger)
    ensures
        r@ == budget_ledger(budget@, month@, comp),
{
    let path = two_keys(month, comp.key());
    match get_val_from_path(path.as_slice(), budget) {
        Ok(v) => get_budget_component_map(v),
        Err(_) => Ledger::empty(),
    }
}

/// Reads the income, expenses and balance of the current and the last month.
pub fn get_budget(budget: &Val) -> (r: Budget)
    ensures
        r@ == budget_model(budget@),
{
    let cm = "current_month".as_bytes();
    let lm = "last_month".as_bytes();
    let r = Budget {
        income: Income { ledger: month_component(budget, cm, BudgetComponent::Income) },
        expense: Expense { ledger: month_component(budget, cm, BudgetComponent::Expenses) },
        balance: Balance { ledger: month_component(budget, cm, BudgetComponent::Balance) },
        income_last_month: Income { ledger: month_component(budget, lm, BudgetComponent::Income) },
        expense_last_month: Expense { ledger: month_component(budget, lm, BudgetComponent::Expenses) },
        balance_last_month: Balance { ledger: month_component(budget, lm, BudgetComponent::Balance) },
    };
    assert(r@ =~= budget_model(budget@));
    r
}


/// Why extraction failed.
#[derive(Clone, Copy, Debug, PartialEq, Eq)]
pub enum ExtractError {
    Path(PathParseError),
    Type(TypeMismatch),
}

/// The extracted record of one empire.
#[derive(Debug)]
pub struct EmpireData {
    pub name: Vec<u8>,
    pub resources: Resources,
    pub budget: Budget,
}

pub struct SEmpire {
    pub name: Seq<u8>,
    pub resources: Seq<SVal>,
    pub budget: Seq<Seq<Seq<(Seq<u8>, SVal)>>>,
}

impl EmpireData {
    pub open spec fn view(&self) -> SEmpire {
        SEmpire { name: self.name@, resources: self.resources@, budget: self.budget@ }
    }
}

pub open spec fn economy_path() -> Seq<SComponent> {
    key_path2("modules".spec_bytes(), "standard_economy_module".spec_bytes())
}

/// The budget of a country, or an empty node where it has none.
pub open spec fn budget_source(country: SVal) -> SVal {
    match lookup(country, key_path1("budget".spec_bytes())) {
        Ok(b) => b,
        Err(_) => SVal::List(Seq::empty()),
    }
}

/// The record of a country: its name, the stockpiles of its economy module
/// and its budget; `None` where the module or a string name is missing or a
/// stockpile is not a number.
pub open spec fn empire_of(country: SVal) -> Option<SEmpire> {
    let module = lookup(country, economy_path());
    let name = lookup(country, key_path1("name".spec_bytes()));
    if module is Ok && name is Ok && name->Ok_0 is StringLiteral && resources_of(module->Ok_0) is Some {
        Some(
            SEmpire {
                name: name->Ok_0->StringLiteral_0,
                resources: resources_of(module->Ok_0)->Some_0,
                budget: budget_model(budget_source(country)),
            },
        )
    } else {
        None
    }
}

/// Reads the record of one country.
pub fn get_empire_data(country: &Val) -> (r: Result<EmpireData, ExtractError>)
    ensures
        match empire_of(country@) {
            Some(e) => r is Ok && r->Ok_0@ == e,
            None => r is Err,
        },
{
    let economy_steps = two_keys("modules".as_bytes(), "standard_economy_module".as_bytes());
    let module = match get_val_from_path(economy_steps.as_slice(), country) {
        Ok(m) => m,
        Err(e) => return Err(ExtractError::Path(e)),
    };
    let name_path = one_key("name".as_bytes());
    let name = match get_val_from_path(name_path.as_slice(), country) {
        Ok(n) => match as_string(n) {
            Ok(s) => slice_to_vec(s),
            Err(e) => return Err(ExtractError::Type(e)),
        },
        Err(e) => return Err(ExtractError::Path(e)),
    };
    let resources = match get_resources(module) {
        Ok(res) => res,
        Err(e) => return Err(ExtractError::Type(e)),
    };
    let budget_path = one_key("budget".as_bytes());
    let budget = match get_val_from_path(budget_path.as_slice(), country) {
        Ok(b) => get_budget(b),
        Err(_) => {
            let nothing: Vec<Val> = Vec::new();
            assert(Val::items_view(&nothing) =~= Seq::<SVal>::empty());
            let none = Val::List(nothing);
            get_budget(&none)
        },
    };
    Ok(EmpireData { name, resources, budget })
}

/// Whether a country is an empire: it has an economy module.
pub open spec fn is_empire(country: SVal) -> bool {
    lookup(country, economy_path()) is Ok
}

/// The records of the empires among `countries`, in order; `None` where one
/// of them cannot be read.
pub open spec fn empires_of(countries: Seq<SVal>) -> Option<Seq<SEmpire>>
    decreases countries.len(),
{
    if countries.len() == 0 {
        Some(Seq::empty())
    } else {
        match empires_of(countries.drop_last()) {
            Some(rest) => if !is_empire(countries.last()) {
                Some(rest)
            } else {
                match empire_of(countries.last()) {
                    Some(e) => Some(rest.push(e)),
                    None => None,
                }
            },
            None => None,
        }
    }
}

/// The empires of a gamestate: those entries of its `country` array that
/// have an economy module.
pub open spec fn gamestate_empires(gamestate: SVal) -> Option<Seq<SEmpire>> {
    match lookup(gamestate, key_path1("country".spec_bytes())) {
        Ok(SVal::Array(countries)) => empires_of(countries),
        _ => None,
    }
}

pub open spec fn empires_view(v: Seq<EmpireData>) -> Seq<SEmpire> {
    v.map_values(|e: EmpireData| e@)
}

/// Reads every empire of a gamestate; countries without an economy module
/// are left out.
pub fn get_empires_from_gamestate(gamestate: &Val) -> (r: Result<Vec<EmpireData>, ExtractError>)
    ensures
        match gamestate_empires(gamestate@) {
            Some(es) => r is Ok && empires_view(r->Ok_0@) == es,
            None => r is Err,
        },
{
    let path = one_key("country".as_bytes());
    let countries = match get_val_from_path(path.as_slice(), gamestate) {
        Ok(c) => match as_array(c) {
            Ok(items) => items,
            Err(e) => return Err(ExtractError::Type(e)),
        },
        Err(e) => return Err(ExtractError::Path(e)),
    };
    let ghost cv = Val::items_view(countries);
    let economy_steps = two_keys("modules".as_bytes(), "standard_economy_module".as_bytes());
    let mut out: Vec<EmpireData> = Vec::new();
    let mut j: usize = 0;
    assert(cv.take(0) =~= Seq::<SVal>::empty());
    assert(empires_view(out@) =~= Seq::<SEmpire>::empty());
    while j < countries.len()
        invariant
            cv == Val::items_view(countries),
            gamestate_empires(gamestate@) == empires_of(cv),
            path_view(economy_steps@) == economy_path(),
            j <= countries@.len(),
            empires_of(cv.take(j as int)) == Some(empires_view(out@)),
        decreases countries@.len() - j,
    {
        proof {
            assert(cv.take(j as int + 1).drop_last() =~= cv.take(j as int));
            assert(cv[j as int] == countries@[j as int]@);
        }
        if get_val_from_path(economy_steps.as_slice(), &countries[j]).is_ok() {
            let ghost before = empires_view(out@);
            match get_empire_data(&countries[j]) {
                Ok(e) => {
                    out.push(e);
                    assert(empires_view(out@) =~= before.push(out@.last()@));
                },
                Err(e) => {
                    proof {
                        assert(empires_of(cv.take(j as int + 1)) is None);
                        assert(cv.take(countries@.len() as int).take(j as int + 1) =~= cv.take(j as int + 1));
                        lemma_empires_prefix_none(cv, j as int + 1);
                        assert(cv.take(countries@.len() as int) =~= cv);
                    }
                    return Err(e);
                },
            }
        }
        j += 1;
    }
    assert(cv.take(countries@.len() as int) =~= cv);
    Ok(out)
}

/// Where a prefix of the countries cannot be read, neither can the whole.
proof fn lemma_empires_prefix_none(cv: Seq<SVal>, k: int)
    requires
        0 <= k <= cv.len(),
        empires_of(cv.take(k)) is None,
    ensures
        empires_of(cv) is None,
    decreases cv.len() - k,
{
    if k < cv.len() {
        assert(cv.take(k + 1).drop_last() =~= cv.take(k));
        lemma_empires_prefix_none(cv, k + 1);
    } else {
        assert(cv.take(k) =~= cv);
    }
}

/// The campaign name recorded in a meta file.
pub open spec fn meta_name(meta: SVal) -> Option<Seq<u8>> {
    match lookup(meta, key_path1("name".spec_bytes())) {
        Ok(SVal::StringLiteral(s)) => Some(s),
        _ => None,
    }
}

/// Reads the campaign name of a meta file.
pub fn get_name_from_meta(meta: &Val) -> (r: Result<Vec<u8>, ExtractError>)
    ensures
        match meta_name(meta@) {
            Some(s) => r is Ok && r->Ok_0@ == s,
            None => r is Err,
        },
{
    let path = one_key("name".as_bytes());
    match get_val_from_path(path.as_slice(), meta) {
        Ok(n) => match as_string(n) {
            Ok(s) => Ok(slice_to_vec(s)),
            Err(e) => Err(ExtractError::Type(e)),
        },
        Err(e) => Err(ExtractError::Path(e)),
    }
}

/// The string literals among `items`, in order.
pub open spec fn strings_of(items: Seq<SVal>) -> Seq<Seq<u8>>
    decreases items.len(),
{
    if items.len() == 0 {
        Seq::empty()
    } else {
        match items.last() {
            SVal::StringLiteral(s) => strings_of(items.drop_last()).push(s),
            _ => strings_of(items.drop_last()),
        }
    }
}

/// The content packs a meta file requires: the strings of its
/// `required_dlcs` list or array.
pub open spec fn meta_required_dlcs(meta: SVal) -> Option<Seq<Seq<u8>>> {
    match lookup(meta, key_path1("required_dlcs".spec_bytes())) {
        Ok(SVal::List(items)) => Some(strings_of(items)),
        Ok(SVal::Array(items)) => Some(strings_of(items)),
        _ => None,
    }
}

pub open spec fn byte_strings_view(v: Seq<Vec<u8>>) -> Seq<Seq<u8>> {
    v.map_values(|s: Vec<u8>| s@)
}

/// Reads the content packs a meta file requires.
pub fn get_required_dlcs_from_meta(meta: &Val) -> (r: Result<Vec<Vec<u8>>, ExtractError>)
    ensures
        match meta_required_dlcs(meta@) {
            Some(names) => r is Ok && byte_strings_view(r->Ok_0@) == names,
            None => r is Err,
        },
{
    let path = one_key("required_dlcs".as_bytes());
    let node = match get_val_from_path(path.as_slice(), meta) {
        Ok(n) => n,
        Err(e) => return Err(ExtractError::Path(e)),
    };
    let items = match node {
        Val::List(items) => items,
        Val::Array(items) => items,
        _ => return Err(ExtractError::Type(TypeMismatch { expected: ValKind::List, found: kind(node) })),
    };
    let ghost iv = Val::items_view(items);
    let mut out: Vec<Vec<u8>> = Vec::new();
    let mut j: usize = 0;
    assert(iv.take(0) =~= Seq::<SVal>::empty());
    assert(byte_strings_view(out@) =~= Seq::<Seq<u8>>::empty());
    while j < items.len()
        invariant
            iv == Val::items_view(items),
            j <= items@.len(),
            byte_strings_view(out@) == strings_of(iv.take(j as int)),
        decreases items@.len() - j,
    {
        proof {
            assert(iv.take(j as int + 1).drop_last() =~= iv.take(j as int));
            assert(iv[j as int] == items@[j as int]@);
        }
        let ghost before = byte_strings_view(out@);
        match &items[j] {
            Val::StringLiteral(s) => {
                out.push(slice_to_vec(s));
                assert(byte_strings_view(out@) =~= before.push(out@.last()@));
            },
            _ => {},
        }
        j += 1;
    }
    assert(iv.take(items@.len() as int) =~= iv);
    Ok(out)
}

/// The snapshot of one save file.
#[derive(Debug)]
pub struct ModelDataPoint {
    pub campaign_name: Vec<u8>,
    pub required_dlcs: Vec<Vec<u8>>,
    pub empires: Vec<EmpireData>,
}

/// The two trees of a save file.
pub struct ParseResult<'a> {
    pub meta: Val<'a>,
    pub gamestate: Val<'a>,
}

/// Builds the snapshot of a save file from its two trees.
pub fn data_point_from_parse_result(result: &ParseResult) -> (r: Result<ModelDataPoint, ExtractError>)
    ensures
        r is Ok <==> meta_name(result.meta@) is Some && meta_required_dlcs(result.meta@) is Some
            && gamestate_empires(result.gamestate@) is Some,
        r is Ok ==> r->Ok_0.campaign_name@ == meta_name(result.meta@)->Some_0
            && byte_strings_view(r->Ok_0.required_dlcs@) == meta_required_dlcs(result.meta@)->Some_0
            && empires_view(r->Ok_0.empires@) == gamestate_empires(result.gamestate@)->Some_0,
{
    let campaign_name = match get_name_from_meta(&result.meta) {
        Ok(n) => n,
        Err(e) => return Err(e),
    };
    let required_dlcs = match get_required_dlcs_from_meta(&result.meta) {
        Ok(d) => d,
        Err(e) => return Err(e),
    };
    let empires = match get_empires_from_gamestate(&result.gamestate) {
        Ok(es) => es,
        Err(e) => return Err(e),
    };
    Ok(ModelDataPoint { campaign_name, required_dlcs, empires })
}

} // verus!
