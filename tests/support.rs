use stellarust::campaign::{
    campaign_eq, find_newest_save, get_campaign_option, get_campaign_options, CampaignDto,
    EmpireDto,
};
use stellarust::extract::{EmpireData, ModelDataPoint, Resources, Budget, Income, Expense, Balance, Ledger, Amount};
use stellarust::helpers::{
    cleanup_sqlite, create_sqlite_db, drop_sqlite_db, get_path, get_test_campaign_une_root, join,
};

fn bytes(s: &str) -> Vec<u8> {
    s.as_bytes().to_vec()
}

fn texts(v: &[Vec<u8>]) -> Vec<String> {
    v.iter().map(|b| String::from_utf8(b.clone()).unwrap()).collect()
}

fn dto(name: &str, empires: &[&str], last_write: u64) -> CampaignDto {
    CampaignDto { name: bytes(name), empires: empires.iter().map(|e| bytes(e)).collect(), last_write }
}

#[test]
fn join_places_a_separator_once() {
    assert_eq!(join(b"/tmp", b"db.sqlite"), bytes("/tmp/db.sqlite"));
    assert_eq!(join(b"/tmp/", b"db.sqlite"), bytes("/tmp/db.sqlite"));
    assert_eq!(join(b"", b"db.sqlite"), bytes("db.sqlite"));
    assert_eq!(join(b"/tmp", b"/abs"), bytes("/abs"));
}

#[test]
fn cleanup_sqlite_lists_the_three_files() {
    assert_eq!(
        texts(&cleanup_sqlite(b"/tmp/data", b"test.db")),
        vec!["/tmp/data/test.db", "/tmp/data/test.db-shm", "/tmp/data/test.db-wal"]
    );
}

#[test]
fn create_and_drop_sqlite_db_commands() {
    assert_eq!(
        texts(&create_sqlite_db(b"/tmp/data", b"test.db")),
        vec!["database", "create", "--database-url", "sqlite:/tmp/data/test.db"]
    );
    assert_eq!(
        texts(&drop_sqlite_db(b"/tmp/data", b"test.db")),
        vec!["database", "drop", "--database-url", "sqlite:/tmp/data/test.db", "-y"]
    );
}

#[test]
fn test_campaign_root_is_found_above_the_checkout() {
    let cwd = vec![bytes("/"), bytes("home"), bytes("dev"), bytes("stellarust"), bytes("backend")];
    assert_eq!(
        texts(&get_test_campaign_une_root(&cwd)),
        vec!["/", "home", "dev", "stellarust/res/test_data/campaign/unitednationsofearth_-15512622/"]
    );
    let nested = vec![bytes("/"), bytes("stellarust"), bytes("stellarust"), bytes("x")];
    assert_eq!(texts(&get_path(&nested, b"p")), vec!["/", "p"]);
    assert_eq!(texts(&get_path(&vec![], b"p")), vec!["p"]);
}

#[test]
fn newest_save_is_the_first_of_the_latest() {
    assert_eq!(find_newest_save(&vec![]), None);
    assert_eq!(find_newest_save(&vec![5, 9, 2, 9]), Some(1));
    assert_eq!(find_newest_save(&vec![3]), Some(0));
}

#[test]
fn campaign_options_keep_one_entry_per_campaign() {
    let pairs = vec![
        (dto("A", &["x"], 1), bytes("/a1")),
        (dto("B", &[], 2), bytes("/b")),
        (dto("A", &["x"], 1), bytes("/a2")),
        (dto("A", &["y"], 1), bytes("/a3")),
    ];
    let options = get_campaign_options(pairs);
    let summary: Vec<(String, String)> = options
        .iter()
        .map(|(c, p)| (String::from_utf8(c.name.clone()).unwrap(), String::from_utf8(p.clone()).unwrap()))
        .collect();
    assert_eq!(
        summary,
        vec![
            (String::from("A"), String::from("/a2")),
            (String::from("B"), String::from("/b")),
            (String::from("A"), String::from("/a3")),
        ]
    );
    assert!(campaign_eq(&dto("A", &["x"], 1), &dto("A", &["x"], 1)));
    assert!(!campaign_eq(&dto("A", &["x"], 1), &dto("A", &["x"], 2)));
}

fn empty_ledger() -> Ledger {
    Ledger::empty()
}

#[test]
fn campaign_option_lists_empire_names() {
    let zero = || Amount::Integer(0);
    let resources = Resources {
        energy: zero(), minerals: zero(), food: zero(), physics_research: zero(),
        society_research: zero(), engineering_research: zero(), influence: zero(), unity: zero(),
        consumer_goods: zero(), alloys: zero(), volatile_motes: zero(), exotic_gases: zero(),
        rare_crystals: zero(), sr_living_metal: zero(), sr_zro: zero(), sr_dark_matter: zero(),
    };
    let budget = Budget {
        income: Income { ledger: empty_ledger() },
        expense: Expense { ledger: empty_ledger() },
        balance: Balance { ledger: empty_ledger() },
        income_last_month: Income { ledger: empty_ledger() },
        expense_last_month: Expense { ledger: empty_ledger() },
        balance_last_month: Balance { ledger: empty_ledger() },
    };
    let model = ModelDataPoint {
        campaign_name: bytes("United Nations of Earth"),
        required_dlcs: vec![],
        empires: vec![EmpireData { name: bytes("UNE"), resources, budget }],
    };
    let option = get_campaign_option(&model, 1234);
    assert_eq!(option.name, bytes("United Nations of Earth"));
    assert_eq!(option.empires, vec![bytes("UNE")]);
    assert_eq!(option.last_write, 1234);
    let empire = EmpireDto { name: bytes("UNE") };
    assert_eq!(empire.name, option.empires[0]);
}
