use invoice_payables::calendar::CalendarDate;
use invoice_payables::db::Supplier;
use invoice_payables::supplier_config::{
    default_days, due_date, OrderType, PaymentType, SupplierConfigEntry, SupplierConfigManager,
    SupplierConfigMap, TermConfig, TermType,
};

fn supplier(code: &str, label: &str) -> Supplier {
    Supplier { code: code.to_string(), label: label.to_string() }
}

fn terms(term_type: TermType, days: u16) -> TermConfig {
    TermConfig {
        term_type,
        term_days: days,
        order_type: OrderType::Monthly,
        payment_type: PaymentType::DirectCredit,
        configured: true,
    }
}

fn manager_with(pairs: Vec<(String, TermConfig)>, suppliers: &[Supplier]) -> SupplierConfigManager {
    SupplierConfigManager::new(SupplierConfigMap::from_pairs(pairs), suppliers)
}

#[test]
fn defaults_of_the_term_fields() {
    assert_eq!(TermType::default(), TermType::Eom);
    assert_eq!(OrderType::default(), OrderType::Monthly);
    assert_eq!(PaymentType::default(), PaymentType::DirectCredit);
    assert_eq!(default_days(), 20);
}

#[test]
fn term_texts_are_read_case_insensitively() {
    assert_eq!(TermType::from_text("NETDAYS"), TermType::NetDays);
    assert_eq!(TermType::from_text("netDays"), TermType::NetDays);
    assert_eq!(TermType::from_text("EOM"), TermType::Eom);
    assert_eq!(TermType::from_text("something"), TermType::Eom);
    assert_eq!(OrderType::from_text("WEEKLY"), OrderType::Weekly);
    assert_eq!(OrderType::from_text("fortnightly"), OrderType::Monthly);
    assert_eq!(PaymentType::from_text("dd"), PaymentType::DirectDebit);
    assert_eq!(PaymentType::from_text("Dd"), PaymentType::DirectDebit);
    assert_eq!(PaymentType::from_text("DC"), PaymentType::DirectCredit);
}

#[test]
fn labels_read_back() {
    for t in [TermType::Eom, TermType::NetDays] {
        assert_eq!(TermType::from_text(&t.label()), t);
    }
    for t in [OrderType::Weekly, OrderType::Monthly] {
        assert_eq!(OrderType::from_text(&t.label()), t);
    }
    for t in [PaymentType::DirectCredit, PaymentType::DirectDebit] {
        assert_eq!(PaymentType::from_text(&t.label()), t);
    }
    assert_eq!(TermType::NetDays.label(), "NetDays");
    assert_eq!(PaymentType::DirectDebit.label(), "DD");
}

#[test]
fn end_of_month_february_example() {
    let m = manager_with(vec![("001".to_string(), terms(TermType::Eom, 20))], &[]);
    // 28 Feb 2025 + 20 days, and 29 Feb 2024 + 20 days.
    assert_eq!(m.calculate_due_date("001", "2025-02-15"), "2025-03-20");
    assert_eq!(m.calculate_due_date("001", "2024-02-15"), "2024-03-20");
}

#[test]
fn net_days_adds_to_the_invoice_date() {
    let m = manager_with(vec![("010".to_string(), terms(TermType::NetDays, 30))], &[]);
    assert_eq!(m.calculate_due_date("010", "2024-01-15"), "2024-02-14");
    assert_eq!(m.calculate_due_date("010", "2023-12-15 10:30:00.000"), "2024-01-14");
}

#[test]
fn unknown_supplier_falls_back_to_eom_20() {
    let m = manager_with(vec![], &[]);
    assert_eq!(m.calculate_due_date("999", "2024-01-10 00:00:00.000"), "2024-02-20");
    assert_eq!(m.calculate_due_date("999", "2024-12-05"), "2025-01-20");
}

#[test]
fn date_formats_and_trimming() {
    let m = manager_with(vec![("010".to_string(), terms(TermType::NetDays, 0))], &[]);
    assert_eq!(m.calculate_due_date("010", "  2025-02-15  "), "2025-02-15");
    assert_eq!(m.calculate_due_date("010", "15/02/2025"), "2025-02-15");
    // not a valid day/month date, read as month/day
    assert_eq!(m.calculate_due_date("010", "02/15/2025"), "2025-02-15");
    // both readings valid: day/month wins
    assert_eq!(m.calculate_due_date("010", "03/04/2025"), "2025-04-03");
}

#[test]
fn unreadable_date_gives_question_marks() {
    let m = manager_with(vec![], &[]);
    assert_eq!(m.calculate_due_date("001", "not a date"), "???");
    assert_eq!(m.calculate_due_date("001", ""), "???");
}

#[test]
fn due_date_past_the_last_representable_day() {
    let m = manager_with(vec![("010".to_string(), terms(TermType::NetDays, 1))], &[]);
    assert_eq!(m.calculate_due_date("010", "+262142-12-31"), "???");
    let d = CalendarDate { year: 262142, month: 12, day: 30 };
    assert_eq!(due_date(terms(TermType::NetDays, 1), d), Some(CalendarDate { year: 262142, month: 12, day: 31 }));
    assert_eq!(due_date(terms(TermType::Eom, 0), d), Some(d));
    assert_eq!(due_date(terms(TermType::Eom, 2), d), None);
}

#[test]
fn due_date_on_calendar_values() {
    let feb = CalendarDate { year: 2023, month: 2, day: 3 };
    assert_eq!(due_date(terms(TermType::Eom, 20), feb), Some(CalendarDate { year: 2023, month: 3, day: 20 }));
    assert_eq!(due_date(terms(TermType::NetDays, 365), feb), Some(CalendarDate { year: 2024, month: 2, day: 3 }));
    let year_end = CalendarDate { year: 1999, month: 12, day: 31 };
    assert_eq!(due_date(terms(TermType::Eom, 1), year_end), Some(CalendarDate { year: 2000, month: 1, day: 1 }));
    let years_ago = CalendarDate { year: 5, month: 6, day: 7 };
    assert_eq!(due_date(terms(TermType::NetDays, 0), years_ago), Some(years_ago));
}

#[test]
fn formatting_of_small_years() {
    let m = manager_with(vec![("010".to_string(), terms(TermType::NetDays, 0))], &[]);
    assert_eq!(m.calculate_due_date("010", "0005-06-07"), "0005-06-07");
}

#[test]
fn merge_keeps_configured_and_adds_new_suppliers() {
    let mut kept = terms(TermType::NetDays, 45);
    kept.order_type = OrderType::Weekly;
    let existing = vec![("001".to_string(), kept), ("old".to_string(), terms(TermType::Eom, 10))];
    let suppliers = vec![supplier("001", "001 - A"), supplier("002", "002 - B"), supplier("002", "002 - B")];
    let m = manager_with(existing, &suppliers);
    assert_eq!(m.count(), 3);
    assert_eq!(m.config_map().get("001"), Some(kept));
    assert_eq!(m.config_map().get("old"), Some(terms(TermType::Eom, 10)));
    let fresh = m.config_map().get("002").unwrap();
    assert_eq!(fresh.term_type, TermType::Eom);
    assert_eq!(fresh.term_days, 20);
    assert_eq!(fresh.order_type, OrderType::Monthly);
    assert_eq!(fresh.payment_type, PaymentType::DirectCredit);
    assert!(!fresh.configured);
    assert_eq!(m.file_path(), "suppliers-config.toml");
}

#[test]
fn get_all_entries_shows_terms_and_defaults() {
    let existing = vec![("001".to_string(), terms(TermType::NetDays, 30))];
    let m = manager_with(existing, &[]);
    let entries = m.get_all_entries(&[supplier("001", "001 - A"), supplier("002", "002 - B")]);
    assert_eq!(entries.len(), 2);
    assert_eq!(entries[0].code, "001");
    assert_eq!(entries[0].label, "001 - A");
    assert_eq!(entries[0].term_type, "NetDays");
    assert_eq!(entries[0].term_days, 30);
    assert_eq!(entries[0].order_type, "Monthly");
    assert_eq!(entries[0].payment_type, "DC");
    assert!(entries[0].configured);
    assert_eq!(entries[1].term_type, "EOM");
    assert_eq!(entries[1].term_days, 20);
    assert_eq!(entries[1].order_type, "Monthly");
    assert_eq!(entries[1].payment_type, "DC");
    assert!(!entries[1].configured);
}

#[test]
fn save_one_configures_the_supplier() {
    let mut m = manager_with(vec![], &[supplier("001", "x"), supplier("002", "y")]);
    m.save_one("001", "netdays", 14, "WEEKLY", "dd");
    let t = m.config_map().get("001").unwrap();
    assert_eq!(t.term_type, TermType::NetDays);
    assert_eq!(t.term_days, 14);
    assert_eq!(t.order_type, OrderType::Weekly);
    assert_eq!(t.payment_type, PaymentType::DirectDebit);
    assert!(t.configured);
    assert!(!m.config_map().get("002").unwrap().configured);
    assert_eq!(m.calculate_due_date("001", "2024-01-01"), "2024-01-15");
}

#[test]
fn save_all_applies_entries_in_order() {
    let mut m = manager_with(vec![], &[supplier("001", "x")]);
    let entry = |code: &str, tt: &str, days: u16| SupplierConfigEntry {
        code: code.to_string(),
        label: String::new(),
        term_type: tt.to_string(),
        term_days: days,
        order_type: "Monthly".to_string(),
        payment_type: "DC".to_string(),
        configured: false,
    };
    m.save_all(&[entry("001", "NetDays", 7), entry("003", "EOM", 5), entry("001", "EOM", 9)]);
    assert_eq!(m.count(), 2);
    assert_eq!(m.config_map().get("001"), Some(terms(TermType::Eom, 9)));
    assert_eq!(m.config_map().get("003"), Some(terms(TermType::Eom, 5)));
}

#[test]
fn saving_shown_entries_keeps_values() {
    let mut special = terms(TermType::NetDays, 60);
    special.payment_type = PaymentType::DirectDebit;
    special.order_type = OrderType::Weekly;
    special.configured = false;
    let suppliers = vec![supplier("001", "x"), supplier("002", "y")];
    let mut m = manager_with(vec![("001".to_string(), special)], &suppliers);
    let shown = m.get_all_entries(&suppliers);
    m.save_all(&shown);
    let mut expected = special;
    expected.configured = true;
    assert_eq!(m.config_map().get("001"), Some(expected));
    let second = m.config_map().get("002").unwrap();
    assert_eq!(second.term_days, 20);
    assert!(second.configured);
}

#[test]
fn config_map_pairs_round_trip() {
    let mut map = SupplierConfigMap::new();
    map.insert("a".to_string(), terms(TermType::Eom, 1));
    map.insert("b".to_string(), terms(TermType::NetDays, 2));
    map.insert("a".to_string(), terms(TermType::NetDays, 3));
    assert_eq!(map.len(), 2);
    assert!(map.contains_key("b"));
    assert!(!map.contains_key("c"));
    let again = SupplierConfigMap::from_pairs(map.pairs().clone());
    assert_eq!(again.len(), 2);
    assert_eq!(again.get("a"), Some(terms(TermType::NetDays, 3)));
    assert_eq!(again.get("b"), Some(terms(TermType::NetDays, 2)));
}

#[test]
fn later_invoices_never_fall_due_earlier() {
    let m = manager_with(vec![("010".to_string(), terms(TermType::NetDays, 30))], &[]);
    let dates = ["2024-01-31", "2024-02-01", "2024-02-29", "2024-03-01", "2024-12-31", "2025-01-01"];
    for code in ["010", "999"] {
        let due: Vec<String> = dates.iter().map(|d| m.calculate_due_date(code, d)).collect();
        for w in due.windows(2) {
            assert!(w[0] <= w[1], "{} then {}", w[0], w[1]);
        }
    }
}

#[test]
fn due_dates_of_a_list_of_invoices() {
    let m = manager_with(vec![("010".to_string(), terms(TermType::NetDays, 30))], &[]);
    let invoices = vec![
        ("010".to_string(), "2024-01-15".to_string()),
        ("999".to_string(), "2024-01-10 00:00:00.000".to_string()),
        ("010".to_string(), "garbage".to_string()),
    ];
    assert_eq!(m.calculate_due_dates(&invoices), vec!["2024-02-14", "2024-02-20", "???"]);
    assert!(m.calculate_due_dates(&[]).is_empty());
}

#[test]
fn supplier_count_never_drops() {
    let list = [supplier("001", "A"), supplier("002", "B"), supplier("001", "A again")];
    let mut m = manager_with(vec![("009".to_string(), terms(TermType::NetDays, 7))], &list);
    assert_eq!(m.count(), 3);
    m.save_one("003", "EOM", 20, "Monthly", "DC");
    assert_eq!(m.count(), 4);
    m.save_one("001", "NetDays", 30, "Weekly", "DD");
    assert_eq!(m.count(), 4);
    let shown = m.get_all_entries(&list);
    m.save_all(&shown);
    assert_eq!(m.count(), 4);
}
