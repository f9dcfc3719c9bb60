use passbook::cli::{split_commas, PassbookArgs};
use passbook::config::PassbookConfig;

fn parse(argv: &[&str]) -> PassbookArgs {
    let matches = clap::Command::new("x")
        .arg(clap::Arg::new("addresses").long("passbook.addresses"))
        .arg(clap::Arg::new("db_path").long("passbook.db-path"))
        .get_matches_from(argv);
    PassbookArgs::from_values(
        matches.get_one::<String>("addresses").cloned(),
        matches.get_one::<String>("db_path").cloned(),
    )
}

#[test]
fn parses_flags() {
    let p = parse(&[
        "x",
        "--passbook.addresses",
        "0x0000000000000000000000000000000000000001",
        "--passbook.db-path",
        "/tmp/p.db",
    ]);
    assert_eq!(p.addresses.len(), 1);
    assert_eq!(p.db_path, "/tmp/p.db");
}

#[test]
fn defaults_when_absent() {
    let p = parse(&["x"]);
    assert!(p.addresses.iter().all(|s| s.trim().is_empty()) || p.addresses.is_empty());
    assert_eq!(p.db_path, "/data/passbook.db");
    let c = PassbookConfig::from_parts(p.addresses, p.db_path).ok().unwrap();
    assert!(!c.enabled());
}

#[test]
fn addresses_are_split_at_commas() {
    assert_eq!(split_commas("a,b,,c,"), vec!["a", "b", "", "c", ""]);
    assert_eq!(split_commas(""), vec![""]);
    assert_eq!(split_commas("one"), vec!["one"]);
    for s in ["a,b", ",", "x,,\u{e9},y"] {
        assert_eq!(split_commas(s), s.split(',').collect::<Vec<_>>());
    }
}
