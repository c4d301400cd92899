use esql::lexer::{scan, Piece};
use esql::split_statements;

/// Renders a scan the way `Query::build` would, with `!` standing in for a
/// placeholder, so a test reads as the SQL that reaches the server.
fn rebuild(sql: &str) -> String {
    let mut out = String::new();

    for piece in scan(sql) {
        if !out.is_empty() {
            out.push(' ');
        }

        match piece {
            Piece::Param => out.push('!'),
            Piece::Raw(a, b) => out.push_str(&sql[a..b]),
            Piece::Escaped(text) => out.push_str(&text),
        }
    }

    out
}

#[test]
fn placeholders_split_outside_quotes() {
    assert_eq!(rebuild("a = ? AND b = ?"), "a = ! AND b = !");
    assert_eq!(rebuild("a = '?' AND b = ?"), "a = '?' AND b = !");
    assert_eq!(
        rebuild(r#"a = "he said ?" AND b = ?"#),
        r#"a = "he said ?" AND b = !"#
    );
    assert_eq!(rebuild("a = `x?` AND b = ?"), "a = `x?` AND b = !");
    assert_eq!(
        rebuild("a = 'it''s ?' AND b = ?"),
        "a = 'it''s ?' AND b = !"
    );
}

#[test]
fn jsonb_operators_and_comments_survive() {
    assert_eq!(rebuild("WHERE data ?? 'key'"), "WHERE data ? 'key'");
    assert_eq!(rebuild("tags ??| array['x']"), "tags ?| array['x']");
    assert_eq!(
        rebuild("data ??& array['x'] AND b = ?"),
        "data ?& array['x'] AND b = !"
    );
    assert_eq!(rebuild("-- is this ok?\n AND a = ?"), "AND a = !");
    assert_eq!(rebuild("$$ body with ? $$"), "$$ body with ? $$");
}

#[test]
fn comments_become_whitespace() {
    assert_eq!(rebuild("SELECT a /* note */ FROM t"), "SELECT a FROM t");
    assert_eq!(rebuild("SELECT a/*/* deep */*/b"), "SELECT a b");
    assert_eq!(rebuild("SELECT a -- trailing"), "SELECT a");
    assert_eq!(
        rebuild("SELECT ? -- ?\nWHERE b = ?"),
        "SELECT ! WHERE b = !"
    );
}

#[test]
fn hand_written_postgres_placeholders_are_not_dollar_quotes() {
    assert_eq!(rebuild("a = $1 AND b = ?"), "a = $1 AND b = !");
    assert_eq!(
        rebuild("$tag$ ? $tag$ AND b = ?"),
        "$tag$ ? $tag$ AND b = !"
    );
}

#[test]
fn unterminated_constructs_do_not_panic() {
    rebuild("SELECT 'unclosed");
    rebuild("SELECT /* unclosed");
    rebuild("SELECT $$ unclosed");
    rebuild("SELECT 'trailing backslash \\");
}

#[test]
fn multibyte_text_is_not_split_mid_character() {
    assert_eq!(
        rebuild("SELECT 'grüße 🎉' WHERE a = ?"),
        "SELECT 'grüße 🎉' WHERE a = !"
    );
}

#[test]
fn statements_split_on_top_level_semicolons_only() {
    assert_eq!(
        split_statements("CREATE TABLE a (x INT); INSERT INTO a VALUES (1);"),
        ["CREATE TABLE a (x INT)", "INSERT INTO a VALUES (1)"]
    );

    assert_eq!(
        split_statements("INSERT INTO a VALUES ('semi; colon'); SELECT 1"),
        ["INSERT INTO a VALUES ('semi; colon')", "SELECT 1"]
    );

    assert_eq!(
        split_statements(
            "CREATE FUNCTION f() RETURNS int AS $$ BEGIN RETURN 1; END; $$ LANGUAGE plpgsql;"
        ),
        ["CREATE FUNCTION f() RETURNS int AS $$ BEGIN RETURN 1; END; $$ LANGUAGE plpgsql"]
    );

    assert_eq!(
        split_statements("SELECT 1 -- ; not a split\n"),
        ["SELECT 1 -- ; not a split"]
    );
    assert!(split_statements("   \n  ").is_empty());
}

// -----------------------------------------------------------------------------
//                                 Edge cases
// -----------------------------------------------------------------------------

#[test]
fn empty_and_blank_text_scan_to_nothing() {
    assert!(scan("").is_empty());
    assert!(scan(" \t\n ").is_empty());
    assert!(split_statements("").is_empty());
    assert!(split_statements(";;  ; ").is_empty());
}

#[test]
fn raw_pieces_are_byte_ranges() {
    // Positions count bytes, so they slice the `&str`: `é` takes two.
    let pieces = scan("é = ?");
    assert_eq!(pieces.len(), 2);
    assert!(matches!(pieces[0], Piece::Raw(0, 4)));
    assert!(matches!(pieces[1], Piece::Param));
}

#[test]
fn text_without_question_marks_has_no_placeholders() {
    assert_eq!(rebuild("SELECT 1 FROM t"), "SELECT 1 FROM t");
    assert!(scan("SELECT 'a' || \"b\"").iter().all(|p| !matches!(p, Piece::Param)));
}

#[test]
fn doubled_quotes_and_backslashes_stay_inside_literals() {
    assert_eq!(rebuild(r"a = 'x\' ?' AND b = ?"), r"a = 'x\' ?' AND b = !");
    assert_eq!(rebuild(r#"a = "x"" ?" AND b = ?"#), r#"a = "x"" ?" AND b = !"#);
}

#[test]
fn tagged_dollar_bodies_end_at_their_own_tag() {
    assert_eq!(
        rebuild("$a$ $b$ ? $a$ AND c = ?"),
        "$a$ $b$ ? $a$ AND c = !"
    );
    assert_eq!(
        split_statements("SELECT $x$ ; $x$; SELECT 2"),
        ["SELECT $x$ ; $x$", "SELECT 2"]
    );
}

#[test]
fn escaped_question_marks_at_the_edges_are_trimmed() {
    assert_eq!(rebuild("  ??  "), "?");
    assert_eq!(rebuild("?? ?"), "? !");
}

#[test]
fn statements_without_semicolons_are_one_trimmed_statement() {
    assert_eq!(split_statements("  SELECT 'a;b' -- ;\n "), ["SELECT 'a;b' -- ;"]);
    assert_eq!(split_statements("/* ; */ SELECT 1"), ["/* ; */ SELECT 1"]);
}

#[test]
fn split_statements_keep_unicode_whitespace_rules() {
    // U+00A0 and U+3000 are whitespace to `str::trim`, so they are trimmed.
    assert_eq!(split_statements("\u{a0}SELECT 1\u{3000};"), ["SELECT 1"]);
}

#[test]
fn each_statement_splits_again_into_itself() {
    let script = "CREATE TABLE a (x text);\n INSERT INTO a VALUES ('a;b'); -- c;\n SELECT $$;$$ /* ; */ ;  ";
    let statements = split_statements(script);
    assert_eq!(statements.len(), 3);
    for statement in statements {
        assert_eq!(split_statements(statement), vec![statement]);
    }
}

#[test]
fn a_script_joined_at_top_level_splits_into_both_parts() {
    let a = "SELECT 1; SELECT 'x;y' /* ; */";
    let b = " SELECT $t$;$t$; -- done";
    let joined = format!("{a};{b}");
    let mut expected = split_statements(a);
    expected.extend(split_statements(b));
    assert_eq!(split_statements(&joined), expected);
}

#[test]
fn a_script_left_open_swallows_what_follows() {
    let a = "SELECT 'open";
    let joined = format!("{a};SELECT 2");
    assert_eq!(split_statements(&joined), vec!["SELECT 'open;SELECT 2"]);
}

#[test]
fn byte_ranges_slice_text_after_multibyte_characters() {
    assert_eq!(rebuild("ä = ? AND 🎉ö = ?"), "ä = ! AND 🎉ö = !");
    let pieces = scan("ä = ? AND 🎉ö = ?");
    assert!(matches!(pieces[2], Piece::Raw(7, 19)));
}
