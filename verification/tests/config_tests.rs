use invoice_payables::config::{AppConfig, DbConfig, NewConfig, ServerConfig};

#[test]
fn defaults_without_a_file() {
    let c = AppConfig::defaults();
    assert_eq!(c.host, "127.0.0.1");
    assert_eq!(c.port, 8080);
    assert_eq!(c.connection_string, "");
    assert_eq!(c.output_dir, "payables_output");
    assert!(!c.has_connection_string());
}

#[test]
fn file_without_sections_gives_defaults() {
    let c = AppConfig::from_file(NewConfig { server: None, database: None });
    let d = AppConfig::defaults();
    assert_eq!((c.host, c.port, c.connection_string, c.output_dir), (d.host, d.port, d.connection_string, d.output_dir));
}

#[test]
fn file_settings_are_used() {
    let c = AppConfig::from_file(NewConfig {
        server: Some(ServerConfig { host: Some("0.0.0.0".to_string()), port: None }),
        database: Some(DbConfig { connection_string: Some("server=x".to_string()), output_dir: Some("C:\\Payables".to_string()) }),
    });
    assert_eq!(c.host, "0.0.0.0");
    assert_eq!(c.port, 8080);
    assert_eq!(c.output_dir, "C:\\Payables");
    assert_eq!(c.connection_string, "server=x");
    assert!(c.has_connection_string());
}

#[test]
fn output_dir_is_read_from_the_database_section() {
    let c = AppConfig::from_file(NewConfig {
        server: None,
        database: Some(DbConfig { connection_string: Some("x".to_string()), output_dir: Some("D:/out".to_string()) }),
    });
    assert_eq!(c.host, "127.0.0.1");
    assert_eq!(c.port, 8080);
    assert_eq!(c.connection_string, "x");
    assert_eq!(c.output_dir, "D:/out");
}

#[test]
fn database_section_without_output_dir_uses_the_default() {
    let c = AppConfig::from_file(NewConfig {
        server: Some(ServerConfig { host: None, port: Some(9000) }),
        database: Some(DbConfig { connection_string: Some("x".to_string()), output_dir: None }),
    });
    assert_eq!(c.port, 9000);
    assert_eq!(c.output_dir, "payables_output");
}
