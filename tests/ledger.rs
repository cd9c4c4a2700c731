use money_manager::amount::{parse_amount, push_amount_text, SCALE};
use money_manager::domain::{Currency, CurrencyBalance};
use money_manager::repo::{CurrencyRepo, RepoError};
use money_manager::service::{Service, ServiceError};
use money_manager::storage::{format_line, parse_line};
use money_manager::ui::{menu_option, summary_line, MenuOption, Ui};

fn currency(name: &str, id: &str) -> Currency {
    Currency::new(name.to_string(), id.to_string())
}

fn service() -> Service {
    Service::new(CurrencyRepo::new("data.txt".to_string()))
}

fn parse(text: &str) -> Option<i64> {
    let chars: Vec<char> = text.chars().collect();
    parse_amount(&chars)
}

fn render(a: i64) -> String {
    let mut out: Vec<char> = Vec::new();
    push_amount_text(a, &mut out);
    out.into_iter().collect()
}

fn lines(text: &[&str]) -> Vec<String> {
    text.iter().map(|l| l.to_string()).collect()
}

#[test]
fn add_then_get_amount() {
    let mut repo = CurrencyRepo::new("data.txt".to_string());
    assert!(repo.add_currency(currency("Bitcoin", "BTC"), 150_000_000).is_ok());
    assert_eq!(repo.get_amount("BTC"), Some(150_000_000));
    assert_eq!(repo.get_amount("ETH"), None);
    assert_eq!(repo.get_number_of_currencies(), 1);
}

#[test]
fn duplicate_add_keeps_amount() {
    let mut s = service();
    assert!(s.add_currency(currency("X", "X"), SCALE).is_ok());
    let err = s.add_currency(currency("Y", "X"), 2 * SCALE).unwrap_err();
    assert_eq!(
        err.get_message(),
        "Repo error: Currency with given ID already exists"
    );
    assert_eq!(s.get_amount("X"), Some(SCALE));
    assert_eq!(s.get_summary().len(), 1);
    assert_eq!(s.get_summary()[0].currency.name, "X");
}

#[test]
fn repo_duplicate_error_message() {
    let mut repo = CurrencyRepo::new("data.txt".to_string());
    assert!(repo.add_currency(currency("X", "X"), 1).is_ok());
    let err = repo.add_currency(currency("Y", "X"), 2).unwrap_err();
    assert_eq!(err.get_message(), "Currency with given ID already exists");
    assert_eq!(repo.get_amount("X"), Some(1));
}

#[test]
fn buy_and_sell_change_amount() {
    let mut s = service();
    s.add_currency(currency("Ether", "ETH"), 10 * SCALE).unwrap();
    s.buy_currency("ETH", SCALE / 2).unwrap();
    assert_eq!(s.get_amount("ETH"), Some(10 * SCALE + SCALE / 2));
    s.sell_currency("ETH", 3 * SCALE).unwrap();
    assert_eq!(s.get_amount("ETH"), Some(7 * SCALE + SCALE / 2));
}

#[test]
fn sell_below_zero() {
    let mut s = service();
    s.add_currency(currency("Ether", "ETH"), SCALE).unwrap();
    s.sell_currency("ETH", 3 * SCALE).unwrap();
    assert_eq!(s.get_amount("ETH"), Some(-2 * SCALE));
}

#[test]
fn buy_with_negative_amount() {
    let mut s = service();
    s.add_currency(currency("Ether", "ETH"), SCALE).unwrap();
    s.buy_currency("ETH", -SCALE).unwrap();
    assert_eq!(s.get_amount("ETH"), Some(0));
}

#[test]
fn buy_out_of_range() {
    let mut s = service();
    s.add_currency(currency("Ether", "ETH"), i64::MAX).unwrap();
    let err = s.buy_currency("ETH", 1).unwrap_err();
    assert_eq!(err.get_message(), "Amount out of range!");
    assert_eq!(s.get_amount("ETH"), Some(i64::MAX));
    let mut t = service();
    t.add_currency(currency("Ether", "ETH"), i64::MIN).unwrap();
    assert!(t.sell_currency("ETH", 1).is_err());
    assert_eq!(t.get_amount("ETH"), Some(i64::MIN));
}

#[test]
fn absent_id_not_found() {
    let mut s = service();
    s.add_currency(currency("Bitcoin", "BTC"), SCALE).unwrap();
    let e: ServiceError = s.buy_currency("ETH", SCALE).unwrap_err();
    assert_eq!(e.get_message(), "No such currency found!");
    let e = s.sell_currency("ETH", SCALE).unwrap_err();
    assert_eq!(e.get_message(), "No such currency found!");
    let e = s.remove_currency("ETH").unwrap_err();
    assert_eq!(e.get_message(), "Repo error: No such currency found!");
    assert_eq!(s.get_amount("BTC"), Some(SCALE));
    assert_eq!(s.get_summary().len(), 1);
}

#[test]
fn repo_remove_absent() {
    let mut repo = CurrencyRepo::new("data.txt".to_string());
    let e: RepoError = repo.remove_currency("BTC").unwrap_err();
    assert_eq!(e.get_message(), "No such currency found!");
    assert_eq!(repo.get_number_of_currencies(), 0);
}

#[test]
fn modify_amount_present_and_absent() {
    let mut repo = CurrencyRepo::new("data.txt".to_string());
    repo.add_currency(currency("Bitcoin", "BTC"), 5).unwrap();
    repo.modify_amount("BTC", 9);
    assert_eq!(repo.get_amount("BTC"), Some(9));
    repo.modify_amount("ETH", 9);
    assert_eq!(repo.get_amount("ETH"), None);
    assert_eq!(repo.get_number_of_currencies(), 1);
}

#[test]
fn remove_then_get_absent() {
    let mut repo = CurrencyRepo::new("data.txt".to_string());
    repo.add_currency(currency("A", "A"), 1).unwrap();
    repo.add_currency(currency("B", "B"), 2).unwrap();
    repo.add_currency(currency("C", "C"), 3).unwrap();
    repo.remove_currency("A").unwrap();
    repo.remove_currency("C").unwrap();
    assert_eq!(repo.get_amount("A"), None);
    assert_eq!(repo.get_amount("C"), None);
    assert_eq!(repo.get_amount("B"), Some(2));
    assert_eq!(repo.get_number_of_currencies(), 1);
}

#[test]
fn ledger_scenario() {
    let mut s = service();
    s.add_currency(currency("Bitcoin", "BTC"), parse("1.5").unwrap()).unwrap();
    s.add_currency(currency("Ether", "ETH"), parse("10.0").unwrap()).unwrap();
    s.buy_currency("BTC", parse("0.5").unwrap()).unwrap();
    assert_eq!(s.get_amount("BTC"), Some(2 * SCALE));
    s.sell_currency("ETH", parse("3.0").unwrap()).unwrap();
    assert_eq!(s.get_amount("ETH"), Some(7 * SCALE));
    s.remove_currency("BTC").unwrap();
    assert_eq!(s.get_amount("BTC"), None);
    let summary = s.get_summary();
    assert_eq!(summary.len(), 1);
    assert_eq!(summary[0].currency.id, "ETH");
    assert_eq!(summary[0].amount, 7 * SCALE);
}

#[test]
fn load_stops_at_bad_amount() {
    let mut repo = CurrencyRepo::new("data.txt".to_string());
    let err = repo
        .read_data(&lines(&["Bitcoin|BTC|1.5", "Ether|ETH|lots", "Dollar|USD|3"]))
        .unwrap_err();
    assert_eq!(err.get_message(), "Invalid line: Ether|ETH|lots");
    assert_eq!(repo.get_amount("BTC"), Some(150_000_000));
    assert_eq!(repo.get_amount("ETH"), None);
    assert_eq!(repo.get_amount("USD"), None);
    assert_eq!(repo.get_number_of_currencies(), 1);
}

#[test]
fn load_rejects_wrong_field_count() {
    let mut repo = CurrencyRepo::new("data.txt".to_string());
    assert!(repo.read_data(&lines(&["A|A|1|2"])).is_err());
    assert!(repo.read_data(&lines(&["A|1"])).is_err());
    assert!(repo.read_data(&lines(&[""])).is_err());
    assert_eq!(repo.get_number_of_currencies(), 0);
}

#[test]
fn load_later_line_replaces_earlier() {
    let mut repo = CurrencyRepo::new("data.txt".to_string());
    repo.read_data(&lines(&["Bitcoin|BTC|1", "Bit|BTC|2", "Ether|ETH|-10"]))
        .unwrap();
    assert_eq!(repo.get_amount("BTC"), Some(2 * SCALE));
    assert_eq!(repo.get_amount("ETH"), Some(-10 * SCALE));
    assert_eq!(repo.get_number_of_currencies(), 2);
    let names: Vec<String> = repo
        .iter()
        .iter()
        .filter(|b| b.currency.id == "BTC")
        .map(|b| b.currency.name.clone())
        .collect();
    assert_eq!(names, vec!["Bit".to_string()]);
}

#[test]
fn load_empty_input() {
    let mut repo = CurrencyRepo::new("data.txt".to_string());
    assert!(repo.read_data(&[]).is_ok());
    assert_eq!(repo.get_number_of_currencies(), 0);
}

#[test]
fn storage_round_trip() {
    let mut repo = CurrencyRepo::new("data.txt".to_string());
    repo.add_currency(currency("Bitcoin", "BTC"), 150_000_000).unwrap();
    repo.add_currency(currency("Ether", "ETH"), -1_000_000_000).unwrap();
    repo.add_currency(currency("Tiny", "T"), 1).unwrap();
    repo.add_currency(currency("Max", "MAX"), i64::MAX).unwrap();
    repo.add_currency(currency("Min", "MIN"), i64::MIN).unwrap();
    repo.add_currency(currency("", "Z"), 0).unwrap();
    let stored = repo.to_lines();
    assert_eq!(stored.len(), 6);
    let mut fresh = CurrencyRepo::new("data.txt".to_string());
    fresh.read_data(&stored).unwrap();
    assert_eq!(fresh.get_number_of_currencies(), 6);
    for b in repo.iter() {
        assert_eq!(fresh.get_amount(&b.currency.id), Some(b.amount));
        let name = fresh
            .iter()
            .iter()
            .find(|c| c.currency.id == b.currency.id)
            .map(|c| c.currency.name.clone());
        assert_eq!(name, Some(b.currency.name.clone()));
    }
}

#[test]
fn file_name_is_kept() {
    let repo = CurrencyRepo::new("ledger.txt".to_string());
    assert_eq!(repo.file_name(), "ledger.txt");
}

#[test]
fn amount_text_values() {
    assert_eq!(render(150_000_000), "1.5");
    assert_eq!(render(110_000_000), "1.1");
    assert_eq!(render(-1), "-0.00000001");
    assert_eq!(render(100_000_010), "1.0000001");
    assert_eq!(render(-1_000_000_000), "-10");
    assert_eq!(render(0), "0");
    assert_eq!(render(1), "0.00000001");
    assert_eq!(render(12_345_000_000), "123.45");
    assert_eq!(render(i64::MIN), "-92233720368.54775808");
    assert_eq!(render(i64::MAX), "92233720368.54775807");
}

#[test]
fn amount_parse_values() {
    assert_eq!(parse("1.5"), Some(150_000_000));
    assert_eq!(parse("-10"), Some(-1_000_000_000));
    assert_eq!(parse("123.45"), Some(12_345_000_000));
    assert_eq!(parse("0.00000001"), Some(1));
    assert_eq!(parse("007"), Some(7 * SCALE));
    assert_eq!(parse("-0"), Some(0));
    assert_eq!(parse("-92233720368.54775808"), Some(i64::MIN));
    assert_eq!(parse("92233720368.54775807"), Some(i64::MAX));
}

#[test]
fn amount_parse_rejects() {
    assert_eq!(parse(""), None);
    assert_eq!(parse("-"), None);
    assert_eq!(parse("abc"), None);
    assert_eq!(parse("1."), None);
    assert_eq!(parse(".5"), None);
    assert_eq!(parse("1.123456789"), None);
    assert_eq!(parse("1.2.3"), None);
    assert_eq!(parse("+1"), None);
    assert_eq!(parse("1e5"), None);
    assert_eq!(parse("92233720368.54775808"), None);
    assert_eq!(parse("-92233720368.54775809"), None);
    assert_eq!(parse("100000000000000000000000"), None);
}

#[test]
fn line_format_and_parse() {
    let b = CurrencyBalance::new(currency("Bitcoin", "BTC"), 150_000_000);
    let line = format_line(&b);
    assert_eq!(line, "Bitcoin|BTC|1.5");
    let back = parse_line(&line).unwrap();
    assert_eq!(back.currency.name, "Bitcoin");
    assert_eq!(back.currency.id, "BTC");
    assert_eq!(back.amount, 150_000_000);
    let other = parse_line("Ether|ETH|-10").unwrap();
    assert_eq!(other.currency.name, "Ether");
    assert_eq!(other.currency.id, "ETH");
    assert_eq!(other.amount, -10 * SCALE);
    assert!(parse_line("Ether|ETH").is_none());
    assert!(parse_line("Ether|ETH|x").is_none());
}

#[test]
fn menu_choices() {
    assert!(matches!(menu_option("0"), Some(MenuOption::Exit)));
    assert!(matches!(menu_option("1"), Some(MenuOption::AddCurrency)));
    assert!(matches!(menu_option("2"), Some(MenuOption::Summary)));
    assert!(matches!(menu_option("3"), Some(MenuOption::Buy)));
    assert!(matches!(menu_option("4"), Some(MenuOption::Sell)));
    assert!(menu_option("5").is_none());
    assert!(menu_option("").is_none());
    assert!(menu_option("12").is_none());
}

#[test]
fn summary_text() {
    let b = CurrencyBalance::new(currency("Ether", "ETH"), 7 * SCALE);
    assert_eq!(summary_line(&b), "You have 7 ETH (Ether)");
}

#[test]
fn ui_reports_errors() {
    let mut ui = Ui::new(service());
    let e = ui
        .add_currency("Bitcoin".to_string(), "BTC".to_string(), "many")
        .unwrap_err();
    assert_eq!(e, "Error! Please enter a valid number!");
    ui.add_currency("Bitcoin".to_string(), "BTC".to_string(), "1.5")
        .unwrap();
    let e = ui
        .add_currency("Bit".to_string(), "BTC".to_string(), "2")
        .unwrap_err();
    assert_eq!(e, "Error: Repo error: Currency with given ID already exists");
    let e = ui.buy_currency("ETH", "1").unwrap_err();
    assert_eq!(e, "Error: No such currency found!");
    let e = ui.sell_currency("BTC", "x").unwrap_err();
    assert_eq!(e, "Error! Please enter a valid number!");
    ui.buy_currency("BTC", "0.5").unwrap();
    ui.sell_currency("BTC", "0.25").unwrap();
    assert_eq!(ui.service().get_amount("BTC"), Some(175_000_000));
    assert_eq!(ui.summary(), vec!["You have 1.75 BTC (Bitcoin)".to_string()]);
}
