use stellarust::custodian::{CustodianMsg, ModelCustodian};
use stellarust::extract::{
    Amount, Balance, Budget, EmpireData, Expense, Income, Ledger, ModelDataPoint, Resources,
};

fn point(names: &[&str]) -> ModelDataPoint {
    let empires = names
        .iter()
        .map(|n| {
            let zero = || Amount::Integer(0);
            EmpireData {
                name: n.as_bytes().to_vec(),
                resources: Resources {
                    energy: zero(), minerals: zero(), food: zero(), physics_research: zero(),
                    society_research: zero(), engineering_research: zero(), influence: zero(),
                    unity: zero(), consumer_goods: zero(), alloys: zero(), volatile_motes: zero(),
                    exotic_gases: zero(), rare_crystals: zero(), sr_living_metal: zero(),
                    sr_zro: zero(), sr_dark_matter: zero(),
                },
                budget: Budget {
                    income: Income { ledger: Ledger::empty() },
                    expense: Expense { ledger: Ledger::empty() },
                    balance: Balance { ledger: Ledger::empty() },
                    income_last_month: Income { ledger: Ledger::empty() },
                    expense_last_month: Expense { ledger: Ledger::empty() },
                    balance_last_month: Balance { ledger: Ledger::empty() },
                },
            }
        })
        .collect();
    ModelDataPoint { campaign_name: b"campaign".to_vec(), required_dlcs: vec![], empires }
}

#[test]
fn get_empire_names__given_no_data__returns_empty_list() {
    let custodian = ModelCustodian::create();
    assert!(custodian.get_empire_names().is_empty());
}

#[test]
fn get_empire_names__given_single_data__returns_name_from_data() {
    let mut custodian = ModelCustodian::create();
    assert!(custodian.receive(CustodianMsg::Data(point(&["EMPIRE_NAME"]))));
    assert_eq!(custodian.get_empire_names(), vec![b"EMPIRE_NAME".to_vec()]);
}

#[test]
fn get_empire_names__given_series_of_data__returns_list_of_names_from_last_in_series() {
    let mut custodian = ModelCustodian::create();
    custodian.receive(CustodianMsg::Data(point(&["0"])));
    custodian.receive(CustodianMsg::Data(point(&["1", "2"])));
    custodian.receive(CustodianMsg::Data(point(&["3", "4", "5"])));
    assert_eq!(
        custodian.get_empire_names(),
        vec![b"3".to_vec(), b"4".to_vec(), b"5".to_vec()]
    );
}

#[test]
fn exit_stops_the_feed_and_keeps_the_history() {
    let mut custodian = ModelCustodian::create();
    assert!(custodian.receive(CustodianMsg::Data(point(&["0"]))));
    assert!(custodian.receive(CustodianMsg::Data(point(&["3"]))));
    assert!(!custodian.receive(CustodianMsg::Exit));
    let history = custodian.get_campaign_data();
    assert_eq!(history.len(), 2);
    assert_eq!(history[1].empires[0].name, b"3".to_vec());
}
