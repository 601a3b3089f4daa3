use invoice_payables::paid_ledger::{PaidEntry, PaidLedger};
use invoice_payables::server::{default_order_type, default_payment_type, PayRequest, PayRow};

fn row(branch: &str, supplier: &str, number: &str, label: &str) -> PayRow {
    PayRow {
        branch: branch.to_string(),
        supplier_code: supplier.to_string(),
        invoice_number: number.to_string(),
        label: label.to_string(),
    }
}

#[test]
fn row_key_is_canonical() {
    assert_eq!(row("01", "SUP", "INV-7", "").key(), "01|SUP|INV-7");
}

#[test]
fn marking_appends_new_keys_and_skips_known_ones() {
    let mut ledger = PaidLedger::new(vec![PaidEntry {
        key: "01|A|1".to_string(),
        label: "first".to_string(),
        paid_at: "2024-01-01 00:00:00".to_string(),
    }]);
    assert_eq!(ledger.file_path(), "paid.json");
    let rows = vec![row("01", "A", "1", "again"), row("01", "A", "2", "second"), row("01", "A", "2", "dup")];
    let added = ledger.mark_paid_at(&rows, "2024-02-02 10:00:00");
    assert_eq!(added, 1);
    assert_eq!(ledger.count(), 2);
    let e = &ledger.entries()[1];
    assert_eq!(e.key, "01|A|2");
    assert_eq!(e.label, "second");
    assert_eq!(e.paid_at, "2024-02-02 10:00:00");
    assert_eq!(ledger.entries()[0].label, "first");
}

#[test]
fn marking_twice_adds_nothing_the_second_time() {
    let mut ledger = PaidLedger::new(Vec::new());
    let rows = vec![row("01", "A", "1", "x"), row("02", "B", "9", "y")];
    assert_eq!(ledger.mark_paid(&rows), 2);
    assert_eq!(ledger.mark_paid(&rows), 0);
    assert_eq!(ledger.count(), 2);
    assert!(!ledger.entries()[0].paid_at.is_empty());
    assert_eq!(ledger.entries()[0].paid_at, ledger.entries()[1].paid_at);
}

#[test]
fn paid_keys_lists_each_key_once() {
    let entry = |k: &str| PaidEntry { key: k.to_string(), label: String::new(), paid_at: String::new() };
    let ledger = PaidLedger::new(vec![entry("a"), entry("b"), entry("a")]);
    assert_eq!(ledger.count(), 3);
    assert_eq!(ledger.paid_keys(), vec!["a".to_string(), "b".to_string()]);
}

#[test]
fn payable_rows_drop_rows_without_invoice_number() {
    let req = PayRequest { rows: vec![row("01", "A", "", "x"), row("01", "A", "5", "y"), row("", "", "6", "z")] };
    let rows = req.payable_rows();
    assert_eq!(rows.len(), 2);
    assert_eq!(rows[0].invoice_number, "5");
    assert_eq!(rows[1].invoice_number, "6");
    let none = PayRequest { rows: vec![row("01", "A", "", "x")] };
    assert!(none.payable_rows().is_empty());
}

#[test]
fn defaults_of_a_saved_configuration() {
    assert_eq!(default_order_type(), "Monthly");
    assert_eq!(default_payment_type(), "DC");
}

#[test]
fn request_without_invoice_numbers_is_refused() {
    let mut ledger = PaidLedger::new(Vec::new());
    let nothing = PayRequest { rows: vec![row("01", "A", "", "x")] };
    assert_eq!(ledger.mark_request(&nothing), None);
    assert_eq!(ledger.mark_request(&PayRequest { rows: Vec::new() }), None);
    assert_eq!(ledger.count(), 0);
    let some = PayRequest { rows: vec![row("01", "A", "", "x"), row("01", "A", "5", "y"), row("01", "A", "5", "z")] };
    assert_eq!(ledger.mark_request(&some), Some(1));
    assert_eq!(ledger.entries()[0].key, "01|A|5");
    assert_eq!(ledger.entries()[0].label, "y");
    assert_eq!(ledger.mark_request(&some), Some(0));
}

#[test]
fn no_key_is_stored_twice() {
    let mut ledger = PaidLedger::new(Vec::new());
    ledger.mark_paid_at(&[row("01", "A", "1", "x"), row("01", "A", "1", "x")], "t1");
    ledger.mark_paid(&[row("01", "A", "2", "y"), row("01", "A", "1", "z")]);
    ledger.mark_paid_at(&[row("01", "A", "2", "y"), row("02", "A", "1", "w")], "t3");
    assert_eq!(ledger.count(), 3);
    assert_eq!(ledger.paid_keys().len(), ledger.count());
}

#[test]
fn paid_at_is_a_local_timestamp() {
    let mut ledger = PaidLedger::new(Vec::new());
    ledger.mark_paid(&[row("01", "A", "1", "x")]);
    let t: Vec<char> = ledger.entries()[0].paid_at.chars().collect();
    assert_eq!(t.len(), 19);
    for (i, c) in t.iter().enumerate() {
        match i {
            4 | 7 => assert_eq!(*c, '-'),
            10 => assert_eq!(*c, ' '),
            13 | 16 => assert_eq!(*c, ':'),
            _ => assert!(c.is_ascii_digit()),
        }
    }
}
