use esql::error::{MigrationErrorKind};
use esql::migrate::{checksum, parse_filename, AppliedMigration};
use esql::{Migration, Migrator};

fn migration(file: &str, sql: &str) -> Migration {
    Migration::new(file, Ok(sql.to_string())).unwrap_or_else(|_| panic!("bad migration {file}"))
}

fn applied(m: &Migration) -> AppliedMigration {
    AppliedMigration { checksum: m.checksum.clone(), version: m.version }
}

#[test]
fn filenames_give_version_and_name() {
    let (version, name) = parse_filename("20240101_create_users.sql").unwrap();
    assert_eq!(version, 20240101);
    assert_eq!(name, "create_users");
}

#[test]
fn misnamed_files_are_filename_errors() {
    for file in [
        "",
        "create.sql",
        "1_.sql",
        "_users.sql",
        "1_Users.sql",
        "1-users.sql",
        "1_users.sql.bak",
        "1_users.SQL",
        "1_users",
        "x1_users.sql",
    ] {
        assert!(
            matches!(parse_filename(file), Err(MigrationErrorKind::FilenameError)),
            "{file}"
        );
    }
}

#[test]
fn versions_beyond_i64_are_parse_errors() {
    assert!(matches!(
        parse_filename("99999999999999999999_users.sql"),
        Err(MigrationErrorKind::ParseIntError(_))
    ));
    assert_eq!(
        parse_filename("9223372036854775807_users.sql").unwrap().0,
        i64::MAX
    );
}

#[test]
fn unreadable_files_are_io_errors_unless_misnamed() {
    let io = || std::io::Error::new(std::io::ErrorKind::NotFound, "gone");
    let err = Migration::new("1_users.sql", Err(io())).err().unwrap();
    assert!(matches!(err.error, MigrationErrorKind::IOError(_)));
    assert_eq!(err.filename, "1_users.sql");

    let err = Migration::new("users.sql", Err(io())).err().unwrap();
    assert!(matches!(err.error, MigrationErrorKind::FilenameError));
    assert_eq!(err.filename, "users.sql");
}

#[test]
fn checksum_is_lowercase_hex_sha256() {
    assert_eq!(
        checksum(""),
        "e3b0c44298fc1c149afbf4c8996fb92427ae41e4649b934ca495991b7852b855"
    );
    assert_eq!(
        checksum("abc"),
        "ba7816bf8f01cfea414140de5dae2223b00361a396177a9cb410ff61f20015ad"
    );
}

#[test]
fn migrations_carry_their_text_and_checksum() {
    let m = migration("3_add_index.sql", "CREATE INDEX i ON t (a);");
    assert_eq!(m.version, 3);
    assert_eq!(m.name, "add_index");
    assert_eq!(m.sql, "CREATE INDEX i ON t (a);");
    assert_eq!(m.checksum, checksum("CREATE INDEX i ON t (a);"));
}

#[test]
fn plan_applies_only_what_is_pending() {
    let a = migration("1_a.sql", "SELECT 1");
    let b = migration("2_b.sql", "SELECT 2");
    let c = migration("3_c.sql", "SELECT 3");
    let done = vec![applied(&b)];
    let migrator = Migrator::new(vec![a, b, c]);
    let (steps, stop) = migrator.plan(&done);
    assert_eq!(steps, vec![0, 2]);
    assert!(stop.is_none());
}

#[test]
fn plan_is_empty_once_everything_is_applied() {
    let a = migration("1_a.sql", "SELECT 1");
    let b = migration("2_b.sql", "SELECT 2");
    let done = vec![applied(&b), applied(&a)];
    let migrator = Migrator::new(vec![a, b]);
    let (steps, stop) = migrator.plan(&done);
    assert!(steps.is_empty());
    assert!(stop.is_none());
}

#[test]
fn plan_stops_at_a_checksum_mismatch() {
    let a = migration("1_a.sql", "SELECT 1");
    let b = migration("2_b.sql", "SELECT 2");
    let c = migration("3_c.sql", "SELECT 3");
    let changed = AppliedMigration { checksum: "0".repeat(64), version: 2 };
    let migrator = Migrator::new(vec![a, b, c]);
    let (steps, stop) = migrator.plan(&vec![changed]);
    assert_eq!(steps, vec![0]);
    let err = stop.unwrap();
    assert!(matches!(err.error, MigrationErrorKind::ChecksumError));
    assert_eq!(err.filename, "b");
}
