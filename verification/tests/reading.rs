use pg_importer::dump_reader::reader::{Config, ReadError};
use pg_importer::dump_reader::{DumpReader, StatementType};

fn dump() -> String {
    let lines = [
        "\\connect \"mydb\"",
        "",
        "--",
        "-- TOC entry 196 (class 1259 OID 16385)",
        "-- Name: users; Type: TABLE; Schema: public; Owner: postgres",
        "--",
        "",
        "CREATE TABLE public.users (",
        "    id integer NOT NULL,",
        "    CONSTRAINT users_pkey PRIMARY KEY (id)",
        ");",
        "",
        "--",
        "-- TOC entry 2130 (class 0 OID 16385)",
        "-- Dependencies: 196",
        "-- Data for Name: users; Type: TABLE DATA; Schema: public; Owner: postgres",
        "--",
        "",
        "COPY public.users (id) FROM stdin;",
        "1",
        "\\.",
        "",
        "SELECT pg_catalog.set_config('search_path', '', false);",
    ];
    lines.join("\n") + "\n"
}

fn read(text: &str, config: Config) -> Result<Vec<pg_importer::dump_reader::Statement>, ReadError> {
    let mut r = DumpReader::new(text, config);
    r.read()
}

#[test]
fn reads_a_dump() {
    let text = dump();
    let dump = text.as_str();
    let v = read(dump, Config::default()).unwrap();
    assert_eq!(v.len(), 4);

    assert_eq!(v[0].ty, StatementType::Command);
    assert_eq!(v[0].sql, "\\connect \"mydb\"\n");
    assert_eq!(v[0].pos, None);

    let create = dump.find("CREATE TABLE").unwrap();
    let after_create = dump.find("--\n-- TOC entry 2130").unwrap();
    assert_eq!(v[1].ty, StatementType::Table);
    assert_eq!(v[1].entry_id, Some(196));
    assert_eq!(v[1].name, Some("users".to_string()));
    assert_eq!(v[1].line, Some(7));
    assert_eq!(v[1].pos, Some((create, after_create)));
    assert_eq!(v[1].sql, &dump[create..after_create]);
    assert!(v[1].sql.ends_with(");\n\n"));

    let copy = dump.find("COPY").unwrap();
    let after_copy = dump.find("\\.\n").unwrap() + 3;
    assert_eq!(v[2].ty, StatementType::TableData);
    assert_eq!(v[2].entry_id, Some(2130));
    assert_eq!(v[2].line, Some(18));
    assert_eq!(v[2].pos, Some((copy, after_copy)));
    assert_eq!(v[2].sql, "COPY public.users (id) FROM stdin;\n1\n\\.\n");

    let select = dump.find("SELECT").unwrap();
    assert_eq!(v[3].ty, StatementType::Unknown);
    assert_eq!(v[3].entry_id, None);
    assert_eq!(v[3].pos, Some((select, dump.len())));
    assert_eq!(v[3].line, Some(22));
}

#[test]
fn statement_offsets_hold_the_statement_text() {
    let text = "SELECT 'é€';\n\nINSERT INTO t\n  VALUES (1);\n";
    let v = read(text, Config::default()).unwrap();
    assert_eq!(v.len(), 2);
    let mut last_end = 0;
    for s in v.iter() {
        let (a, b) = s.pos.unwrap();
        assert!(last_end <= a && a <= b);
        assert_eq!(&text[a..b], s.sql);
        assert_eq!(b - a, s.sql.len());
        last_end = b;
    }
    assert_eq!(v[1].sql, "INSERT INTO t\n  VALUES (1);\n");
}

#[test]
fn excluded_table_data_is_dropped() {
    let config = Config {
        exclude_schema: Vec::new(),
        exclude_extension: Vec::new(),
        exclude_table_data: vec!["users".to_string()],
    };
    let v = read(&dump(), config).unwrap();
    assert_eq!(v.len(), 3);
    assert!(v.iter().all(|s| s.ty != StatementType::TableData));
}

#[test]
fn excluded_extension_and_schema_are_dropped() {
    let text = "--\n-- TOC entry 1 (a)\n-- Name: plpgsql; Type: EXTENSION; schema: pg_catalog; owner: x\n--\n\nCREATE EXTENSION plpgsql;\n\n--\n-- TOC entry 2 (a)\n-- Name: t; Type: TABLE; schema: private; owner: x\n--\n\nCREATE TABLE private.t (a int);\n\n";
    let none = read(text, Config::default()).unwrap();
    assert_eq!(none.len(), 2);
    assert_eq!(none[0].ty, StatementType::Extension);
    let ext = Config {
        exclude_schema: Vec::new(),
        exclude_extension: vec!["plpgsql".to_string()],
        exclude_table_data: Vec::new(),
    };
    let v = read(text, ext).unwrap();
    assert_eq!(v.len(), 1);
    assert_eq!(v[0].name, Some("t".to_string()));
    let schema = Config {
        exclude_schema: vec!["private".to_string()],
        exclude_extension: Vec::new(),
        exclude_table_data: Vec::new(),
    };
    let v = read(text, schema).unwrap();
    assert_eq!(v.len(), 1);
    assert_eq!(v[0].name, Some("plpgsql".to_string()));
}

#[test]
fn function_bodies_end_at_their_closing_line() {
    let text = "--\n-- TOC entry 3 (a)\n-- Name: f(); Type: FUNCTION; Schema: public; Owner: x\n--\n\nCREATE FUNCTION public.f() RETURNS integer\n    LANGUAGE plpgsql\n    AS $_$\n\nBEGIN\n  RETURN 1;\nEND $_$;\n\nSELECT 2;\n";
    let v = read(text, Config::default()).unwrap();
    assert_eq!(v.len(), 2);
    assert_eq!(v[0].ty, StatementType::Function);
    assert!(v[0].sql.ends_with("END $_$;\n"));
    assert!(v[0].sql.contains("\n\nBEGIN"));
    assert_eq!(v[1].sql, "SELECT 2;\n");
}

#[test]
fn reading_errors() {
    assert_eq!(read("SELECT 1", Config::default()).err(), Some(ReadError::UnexpectedEof));
    assert_eq!(
        read("-- Name: x; bogus\n\nSELECT 1;\n", Config::default()).err(),
        Some(ReadError::InvalidData)
    );
    assert_eq!(read("-- TOC\n\nSELECT 1;\n", Config::default()).err(), Some(ReadError::MalformedTocLine));
    // A table whose statement ends at the end of the dump.
    assert_eq!(
        read("-- TOC entry 1 x\n-- Name: t; Type: TABLE\n\nCREATE TABLE t ();", Config::default()).err(),
        None
    );
}

#[test]
fn statement_after_untagged_comment_stops_the_reading() {
    let text = "--\n-- PostgreSQL database dump\n--\n\nSET x = 0;\n";
    assert_eq!(read(text, Config::default()).err(), Some(ReadError::UntaggedComment));
    // An excluded statement needs no entry number.
    let text = "-- Name: t; Type: TABLE; Schema: s; Owner: u\n\nCREATE TABLE s.t ();\n\n";
    assert_eq!(read(text, Config::default()).err(), Some(ReadError::UntaggedComment));
    let config = Config {
        exclude_schema: vec!["s".to_string()],
        exclude_extension: Vec::new(),
        exclude_table_data: Vec::new(),
    };
    assert_eq!(read(text, config).unwrap().len(), 0);
}

#[test]
fn excluded_schema_as_pg_dump_writes_it() {
    let text = "-- TOC entry 5 (class 1259 OID 1)\n-- Name: t; Type: TABLE; Schema: geolite; Owner: u\n\nCREATE TABLE geolite.t (id int);\n\n";
    let all = read(text, Config::default()).unwrap();
    assert_eq!(all.len(), 1);
    assert_eq!(all[0].sql, "CREATE TABLE geolite.t (id int);\n\n");
    let config = Config {
        exclude_schema: vec!["geolite".to_string()],
        exclude_extension: Vec::new(),
        exclude_table_data: Vec::new(),
    };
    let v = read(text, config).unwrap();
    assert!(v.is_empty());
}

#[test]
fn exclusion_keeps_the_other_statements_in_place() {
    let config = Config {
        exclude_schema: vec!["public".to_string()],
        exclude_extension: Vec::new(),
        exclude_table_data: Vec::new(),
    };
    let all = read(&dump(), Config::default()).unwrap();
    let kept = read(&dump(), config).unwrap();
    // Every entry of the sample dump is in schema public; what has no
    // comment block stays, unchanged.
    let expected: Vec<_> = all.iter().filter(|s| s.entry_id.is_none()).cloned().collect();
    assert_eq!(kept, expected);
}

#[test]
fn empty_and_blank_dumps_give_no_statements() {
    assert_eq!(read("", Config::default()).unwrap().len(), 0);
    assert_eq!(read("\n\n  \n", Config::default()).unwrap().len(), 0);
}

#[test]
fn eleven_blank_lines_end_the_reading() {
    let mut text = String::from("SELECT 1;\n");
    for _ in 0..11 {
        text.push('\n');
    }
    text.push_str("SELECT 2;\n");
    let mut r = DumpReader::new(&text, Config::default());
    let v = r.read().unwrap();
    assert_eq!(v.len(), 1);
    // The reader stands before the eleventh blank line; reading on gives
    // what follows.
    let rest = r.read().unwrap();
    assert_eq!(rest.len(), 1);
    assert_eq!(rest[0].sql, "SELECT 2;\n");
}

#[test]
fn comment_line_after_block_is_consumed() {
    // The line after a comment block is read with it, and the comment
    // block names the next statement.
    let text = "-- TOC entry 1 x\n-- Name: t; Type: INDEX\nCREATE INDEX i ON t (a);\n\nSELECT 3;\n";
    let v = read(text, Config::default()).unwrap();
    assert_eq!(v.len(), 1);
    assert_eq!(v[0].entry_id, Some(1));
    assert_eq!(v[0].ty, StatementType::Index);
    assert_eq!(v[0].sql, "SELECT 3;\n");
}
