use invoice_payables::db::{
    branch_from_cells, build_manager, cell_to_string, invoice_query, plan_connection,
    supplier_from_cells, Cell, ConnectionPlan, ConnectionSetting, DbError, EncryptionLevel,
    InvoiceQuery,
};

fn s(x: &str) -> String {
    x.to_string()
}

#[test]
fn supplier_labels() {
    let full = supplier_from_cells(s("001"), s("Tasman"), s("Bob")).unwrap();
    assert_eq!(full.code, "001");
    assert_eq!(full.label, "001 - Tasman (Bob)");
    assert_eq!(supplier_from_cells(s("001"), s("Tasman"), s("")).unwrap().label, "001 - Tasman");
    assert_eq!(supplier_from_cells(s("001"), s(""), s("Bob")).unwrap().label, "001 - (Bob)");
    assert_eq!(supplier_from_cells(s("001"), s(""), s("")).unwrap().label, "001");
    assert!(supplier_from_cells(s(""), s("Tasman"), s("Bob")).is_none());
}

#[test]
fn branches_need_an_id() {
    let b = branch_from_cells(s("07"), s("North")).unwrap();
    assert_eq!((b.id.as_str(), b.name.as_str()), ("07", "North"));
    assert!(branch_from_cells(s(""), s("North")).is_none());
}

#[test]
fn cells_as_text() {
    assert_eq!(cell_to_string(&Cell::Text(s("  abc \t"))), "abc");
    assert_eq!(cell_to_string(&Cell::Int32(-42)), "-42");
    assert_eq!(cell_to_string(&Cell::Int16(7)), "7");
    assert_eq!(cell_to_string(&Cell::Int64(1234567890123)), "1234567890123");
    assert_eq!(cell_to_string(&Cell::Byte(255)), "255");
    assert_eq!(cell_to_string(&Cell::Other), "");
}

#[test]
fn invoice_query_without_filters() {
    let q = invoice_query("2026-02-01", "2026-03-01", "ALL", "");
    assert_eq!(
        q,
        "SELECT [Branch], [SupplierCode], [InvoiceNumber], [Description], [InvoiceDate], [InvoiceAmount], [PONumber], [TaxAmount1], [Logged] FROM [APInv] WHERE [InvoiceDate] >= '2026-02-01' AND [InvoiceDate] < '2026-03-01'   ORDER BY [InvoiceDate] DESC"
    );
}

#[test]
fn invoice_query_with_filters_and_quotes() {
    let q = invoice_query("2026-02-01", "2026-03-01", "B'1", "O'Neil");
    assert_eq!(
        q,
        "SELECT [Branch], [SupplierCode], [InvoiceNumber], [Description], [InvoiceDate], [InvoiceAmount], [PONumber], [TaxAmount1], [Logged] FROM [APInv] WHERE [InvoiceDate] >= '2026-02-01' AND [InvoiceDate] < '2026-03-01'  AND [Branch] = 'B''1'  AND [SupplierCode] = 'O''Neil' ORDER BY [InvoiceDate] DESC"
    );
    assert!(invoice_query("x'", "y", "", "").contains("'x''' AND"));
}

#[test]
fn connection_plan_from_pairs() {
    let plan = plan_connection("server=tcp:[db.local],1444; database=AP; uid=sa; pwd=secret; encrypt=OFF; trust_cert=yes; junk; other=1");
    match plan {
        ConnectionPlan::Settings { settings, credentials } => {
            assert_eq!(settings.len(), 5);
            assert!(matches!(&settings[0], ConnectionSetting::Host(h) if h == "db.local"));
            assert!(matches!(settings[1], ConnectionSetting::Port(1444)));
            assert!(matches!(&settings[2], ConnectionSetting::Database(d) if d == "AP"));
            assert!(matches!(settings[3], ConnectionSetting::Encryption(EncryptionLevel::Off)));
            assert!(matches!(settings[4], ConnectionSetting::TrustCert));
            assert_eq!(credentials, Some((s("sa"), s("secret"))));
        }
        ConnectionPlan::Ado => panic!("not an ADO string"),
    }
}

#[test]
fn connection_plan_defaults_and_last_values() {
    let plan = plan_connection("Host=box;PORT=abc;User=a;Username=b;encrypt=yes;trust_cert=no");
    match plan {
        ConnectionPlan::Settings { settings, credentials } => {
            assert_eq!(settings.len(), 3);
            assert!(matches!(&settings[0], ConnectionSetting::Host(h) if h == "box"));
            assert!(matches!(settings[1], ConnectionSetting::Port(1433)));
            assert!(matches!(settings[2], ConnectionSetting::Encryption(EncryptionLevel::Required)));
            assert_eq!(credentials, None);
        }
        ConnectionPlan::Ado => panic!("not an ADO string"),
    }
    match plan_connection("server=a,+99;port=+7;uid=x;password=p;user=y") {
        ConnectionPlan::Settings { settings, credentials } => {
            assert!(matches!(settings[1], ConnectionSetting::Port(99)));
            assert!(matches!(settings[2], ConnectionSetting::Port(7)));
            assert_eq!(credentials, Some((s("y"), s("p"))));
        }
        ConnectionPlan::Ado => panic!("not an ADO string"),
    }
}

#[test]
fn ado_strings_go_to_the_driver() {
    assert!(matches!(plan_connection("Driver={ODBC};Server=x"), ConnectionPlan::Ado));
    assert!(matches!(plan_connection("SERVER={x};uid=a"), ConnectionPlan::Ado));
    assert!(build_manager("server=tcp:localhost,1433;database=AP;uid=sa;pwd=x").is_ok());
    assert!(build_manager("Server={tcp:localhost,1433};Database=AP;User Id=sa;Password=x").is_ok());
    match build_manager("server={x};ApplicationIntent=Bogus;Port=abc") {
        Err(DbError::Connection(msg)) => assert!(!msg.is_empty()),
        Err(DbError::Query(_)) => panic!("no query was made"),
        Ok(_) => {}
    }
}

#[test]
fn invoice_query_resolution() {
    let q = InvoiceQuery { from: Some(s("2026-02-01")), to: Some(s("2026-03-01")), branch: None, supplier: Some(s("001")) };
    let f = q.resolve().unwrap();
    assert_eq!(f.from, "2026-02-01");
    assert_eq!(f.to, "2026-03-01");
    assert_eq!(f.branch, "ALL");
    assert_eq!(f.supplier, "001");
    let missing = InvoiceQuery { from: Some(s("2026-02-01")), to: None, branch: None, supplier: None };
    assert!(missing.resolve().is_none());
    let empty = InvoiceQuery { from: Some(s("")), to: Some(s("x")), branch: None, supplier: None };
    assert!(empty.resolve().is_none());
}

#[test]
fn ado_string_with_both_trust_options_is_refused() {
    let expected = "'trust_cert' and 'trust_cert_ca' are mutual exclusive! Only use one.";
    for conn in [
        "Server={tcp:localhost,1433};TrustServerCertificate=true;TrustServerCertificateCA=ca.crt",
        "Server={tcp:localhost,1433};trustservercertificate= Yes ;TRUSTSERVERCERTIFICATECA=ca.crt",
    ] {
        match build_manager(conn) {
            Err(DbError::Connection(msg)) => assert_eq!(msg, expected),
            Err(DbError::Query(_)) => panic!("no query was made"),
            Ok(_) => panic!("both trust options were accepted"),
        }
    }
    assert!(build_manager("Server={tcp:localhost,1433};TrustServerCertificate=false;TrustServerCertificateCA=ca.crt").is_ok());
    assert!(build_manager("Server={tcp:localhost,1433};TrustServerCertificate=true").is_ok());
}

#[test]
fn key_value_strings_always_give_a_manager() {
    assert!(build_manager("").is_ok());
    assert!(build_manager("host=db;port=99999;encrypt=maybe;trust_cert=true;trust_cert=yes").is_ok());
}

#[test]
fn integers_at_their_limits_as_text() {
    assert_eq!(cell_to_string(&Cell::Int64(i64::MIN)), "-9223372036854775808");
    assert_eq!(cell_to_string(&Cell::Int64(i64::MAX)), "9223372036854775807");
    assert_eq!(cell_to_string(&Cell::Int32(0)), "0");
    assert_eq!(cell_to_string(&Cell::Int16(-10)), "-10");
    assert_eq!(cell_to_string(&Cell::Byte(9)), "9");
}

#[test]
fn unicode_whitespace_is_trimmed() {
    assert_eq!(cell_to_string(&Cell::Text(s("\u{3000}abc\u{a0}\u{2029}"))), "abc");
    assert_eq!(cell_to_string(&Cell::Text(s("\u{200b}abc"))), "\u{200b}abc");
    assert_eq!(cell_to_string(&Cell::Text(s(" \n\t "))), "");
}

#[test]
fn ports_as_str_parse_reads_them() {
    let port_of = |conn: &str| match plan_connection(conn) {
        ConnectionPlan::Settings { settings, .. } => match settings[0] {
            ConnectionSetting::Port(p) => p,
            _ => panic!("not a port"),
        },
        ConnectionPlan::Ado => panic!("not an ADO string"),
    };
    assert_eq!(port_of("port=65535"), 65535);
    assert_eq!(port_of("port=0065535"), 65535);
    assert_eq!(port_of("port=65536"), 1433);
    assert_eq!(port_of("port=+"), 1433);
    assert_eq!(port_of("port=-1"), 1433);
    assert_eq!(port_of("port= 8 "), 8);
    assert_eq!(port_of("port=1 2"), 1433);
}

#[test]
fn driver_errors_before_the_trust_options_come_first() {
    let plain = match build_manager("Driver=x;Server=a,b,c") {
        Err(DbError::Connection(msg)) => msg,
        _ => panic!("the driver rejects three server parts"),
    };
    for conn in [
        "Driver=x;Server=a,b,c;TrustServerCertificate=true;TrustServerCertificateCA=ca.crt",
        "Driver=x;Server=a,b,c;TrustServerCertificate=true;TrustServerCertificateCA=ca.crt;",
        "Driver=x;Server=a,notaport;TrustServerCertificate=yes;TrustServerCertificateCA=ca.crt",
    ] {
        match build_manager(conn) {
            Err(DbError::Connection(msg)) => {
                assert_ne!(msg, "'trust_cert' and 'trust_cert_ca' are mutual exclusive! Only use one.");
                if conn.contains("a,b,c") {
                    assert_eq!(msg, plain);
                }
            }
            _ => panic!("the driver rejects the server value"),
        }
    }
    match build_manager("Driver=x;Server=a,1433;TrustServerCertificate=true;TrustServerCertificateCA=ca.crt;") {
        Err(DbError::Connection(msg)) => {
            assert_eq!(msg, "'trust_cert' and 'trust_cert_ca' are mutual exclusive! Only use one.")
        }
        _ => panic!("both trust options were accepted"),
    }
}

fn without_literal_bodies(q: &str) -> String {
    let chars: Vec<char> = q.chars().collect();
    let mut out = String::new();
    let mut i = 0;
    while i < chars.len() {
        out.push(chars[i]);
        if chars[i] == '\'' {
            i += 1;
            loop {
                if chars[i] == '\'' {
                    if i + 1 < chars.len() && chars[i + 1] == '\'' {
                        i += 2;
                        continue;
                    }
                    out.push('\'');
                    break;
                }
                i += 1;
            }
        }
        i += 1;
    }
    out
}

#[test]
fn queries_differ_only_inside_literals() {
    let a = invoice_query("2026-01-01", "2026-02-01", "B1", "O'Brien");
    let b = invoice_query("x' OR 1=1 --", "y''z", "North", "S");
    assert_eq!(without_literal_bodies(&a), without_literal_bodies(&b));
    assert!(a.contains("[SupplierCode] = 'O''Brien'"));
    assert!(b.contains(">= 'x'' OR 1=1 --'"));
    let c = invoice_query("2026-01-01", "2026-02-01", "ALL", "");
    let d = invoice_query("a'b", "c", "", "ALL");
    assert_eq!(without_literal_bodies(&c), without_literal_bodies(&d));
    assert_ne!(without_literal_bodies(&a), without_literal_bodies(&c));
}
