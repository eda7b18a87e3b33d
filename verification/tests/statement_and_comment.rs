use pg_importer::dump_reader::comment::{CommentBlock, CommentError, Meta};
use pg_importer::dump_reader::statement::{Statement, StatementType, Toc};

fn cs(s: &str) -> Vec<char> {
    s.chars().collect()
}

#[test]
fn statement_type_names() {
    let names = [
        ("ACL", StatementType::Acl),
        ("COMMENT", StatementType::Comment),
        ("CONSTRAINT", StatementType::Constraint),
        ("EXTENSION", StatementType::Extension),
        ("FK CONSTRAINT", StatementType::FkConstraint),
        ("FUNCTION", StatementType::Function),
        ("INDEX", StatementType::Index),
        ("TABLE", StatementType::Table),
        ("TABLE DATA", StatementType::TableData),
    ];
    for (name, ty) in names.iter() {
        assert_eq!(StatementType::from_name(name), *ty);
        assert_eq!(name.parse::<StatementType>(), Ok(*ty));
    }
    assert_eq!(StatementType::from_name("table"), StatementType::Unknown);
    assert_eq!(StatementType::from_name(""), StatementType::Unknown);
    assert_eq!(StatementType::from_name("SEQUENCE"), StatementType::Unknown);
    assert_eq!(StatementType::default(), StatementType::Unknown);
}

#[test]
fn statement_type_shown_and_read_back() {
    for ty in [
        StatementType::Acl,
        StatementType::Comment,
        StatementType::Extension,
        StatementType::FkConstraint,
        StatementType::Function,
        StatementType::Index,
        StatementType::Table,
        StatementType::TableData,
        StatementType::Unknown,
    ]
    .iter()
    {
        assert_eq!(StatementType::from_name(&ty.to_string()), *ty);
    }
    assert_eq!(StatementType::Constraint.to_string(), "Unknown");
    assert_eq!(StatementType::Command.to_string(), "Unknown");
    assert_eq!(
        StatementType::from_name(&StatementType::Constraint.to_string()),
        StatementType::Unknown
    );
    assert_eq!(StatementType::TableData.to_string(), "TABLE DATA");
}

#[test]
fn statement_constructors() {
    let s = Statement::new("SELECT 1;\n".to_string(), 4, 10, 20);
    assert_eq!(s.sql, "SELECT 1;\n");
    assert_eq!(s.line, Some(4));
    assert_eq!(s.pos, Some((10, 20)));
    assert_eq!(s.entry_id, None);
    assert_eq!(s.name, None);
    assert_eq!(s.ty, StatementType::Unknown);

    let c = Statement::from_command("\\connect db\n".to_string());
    assert_eq!(c.ty, StatementType::Command);
    assert_eq!(c.pos, None);
    assert_eq!(c.line, None);

    let mut q = Statement::from_sql("ALTER TABLE t;".to_string());
    assert_eq!(q.ty, StatementType::Unknown);
    assert_eq!(q.pos, None);
    q.set_sql("DROP TABLE t;".to_string());
    assert_eq!(q.sql, "DROP TABLE t;");
    let _ = Toc {};
}

#[test]
fn statement_shown() {
    let mut s = Statement::new("x".to_string(), 0, 0, 1);
    assert_eq!(s.to_string(), "Type: Unknown");
    let c: CommentBlock = "-- TOC entry 7 (class 1)\n-- Name: users; Type: TABLE\n".parse().unwrap();
    s.set_from_comment_block(c);
    assert_eq!(s.entry_id, Some(7));
    assert_eq!(s.name, Some("users".to_string()));
    assert_eq!(s.ty, StatementType::Table);
    assert_eq!(s.to_string(), "Entry: 7, Name: users, Type: TABLE");
    s.name = None;
    assert_eq!(s.to_string(), "Entry: 7, Name: --, Type: TABLE");
}

#[test]
fn comment_block_of_pg_dump() {
    let text = "--\n-- TOC entry 203 (class 1259 OID 16386)\n-- Name: users; Type: TABLE; Schema: public; Owner: postgres\n--\n";
    let c = CommentBlock::parse(text).unwrap();
    assert_eq!(c.entry_id, Some(203));
    assert!(c.is_toc());
    assert_eq!(c.meta.name, "users");
    assert_eq!(c.meta.ty, StatementType::Table);
    assert_eq!(c.meta.schema, "public");
    assert_eq!(c.meta.owner, "postgres");
    assert_eq!(c.lineno, 0);
    assert_eq!(
        c.to_string(),
        "Line#: 0, ID: 203, Meta(Name: users; Type: TABLE; Schema: public, Owner: postgres)"
    );
}

#[test]
fn comment_block_lower_case_keys_and_data_lines() {
    let c = CommentBlock::parse("-- Data for Name: logs; Type: TABLE DATA; schema: audit; owner: bob\n").unwrap();
    assert_eq!(c.entry_id, None);
    assert!(!c.is_toc());
    assert_eq!(c.meta.name, "logs");
    assert_eq!(c.meta.ty, StatementType::TableData);
    assert_eq!(c.meta.schema, "audit");
    assert_eq!(c.meta.owner, "bob");
    assert_eq!(c.meta.to_string(), "Name: logs; Type: TABLE DATA; Schema: audit, Owner: bob");
}

#[test]
fn comment_block_without_entry() {
    let c = CommentBlock::parse("--\n-- PostgreSQL database dump\n--\n").unwrap();
    assert_eq!(c.entry_id, None);
    assert_eq!(c.meta.name, "");
    assert_eq!(c.meta.ty, StatementType::Unknown);
    let d = CommentBlock::parse("").unwrap();
    assert_eq!(d.entry_id, None);
    assert_eq!(d.to_string(), "Line#: 0, ID: --, Meta(Name: ; Type: Unknown; Schema: , Owner: )");
}

#[test]
fn comment_block_later_lines_win() {
    let c = CommentBlock::parse("-- TOC entry 1 a\n-- TOC entry 2 b\n-- Name: a; Type: INDEX\n-- Name: b; Type: ACL\n").unwrap();
    assert_eq!(c.entry_id, Some(2));
    assert_eq!(c.meta.name, "b");
    assert_eq!(c.meta.ty, StatementType::Acl);
}

#[test]
fn comment_block_errors() {
    // A part without `:`.
    assert_eq!(CommentBlock::parse("-- Name: x; bogus\n").err(), Some(CommentError::Unparsable));
    assert_eq!(CommentBlock::parse("-- Name: x;\n").err(), Some(CommentError::Unparsable));
    // No number after the tokens.
    assert_eq!(CommentBlock::parse("-- TOC entry x y\n").err(), Some(CommentError::Unparsable));
    // The scanner runs off the end of the line.
    assert_eq!(CommentBlock::parse("-- TOC\n").err(), Some(CommentError::MalformedToc));
    assert_eq!(CommentBlock::parse("-- TOC entry\n").err(), Some(CommentError::MalformedToc));
    assert_eq!(CommentBlock::parse("-- TOC ent\n").err(), Some(CommentError::MalformedToc));
    // A number beyond u64.
    assert_eq!(
        CommentBlock::parse("-- TOC entry 99999999999999999999999 (x)\n").err(),
        Some(CommentError::MalformedToc)
    );
    // The first failing line decides.
    assert_eq!(
        CommentBlock::parse("-- Name: a; b\n-- TOC\n").err(),
        Some(CommentError::Unparsable)
    );
}

#[test]
fn toc_entry_numbers() {
    assert_eq!(CommentBlock::parse_toc_entry_id("-- TOC entry 42 (class 0)"), Some(42));
    assert_eq!(CommentBlock::parse_toc_entry_id("-- TOC entry 007 x"), Some(7));
    // Truncated to 32 bits.
    assert_eq!(CommentBlock::parse_toc_entry_id("-- TOC entry 4294967297 x"), Some(1));
    // A missing `entry` token is skipped.
    assert_eq!(CommentBlock::parse_toc_entry_id("-- TOC  12 xyzw"), Some(12));
    assert_eq!(CommentBlock::parse_toc_entry_id("-- TOC entry x"), None);
    assert_eq!(
        "-- TOC entry 5\n-- Name: t; Type: TABLE\n".parse::<CommentBlock>().unwrap().entry_id,
        Some(5)
    );
}

#[test]
fn parse_toc_and_meta_lines() {
    let c = CommentBlock::parse_toc("-- TOC entry 9 z\n-- Name: v; Type: INDEX; owner: me\n").unwrap();
    assert_eq!(c.entry_id, Some(9));
    assert_eq!(c.meta.owner, "me");
    assert!(CommentBlock::parse_toc("-- Name: v; Type\n").is_none());
    let m: Meta = CommentBlock::parse_toc_meta_str(&cs("-- Name:  spaced name ; Type:  EXTENSION ;  x : y ")).unwrap();
    assert_eq!(m.name, "spaced name");
    assert_eq!(m.ty, StatementType::Extension);
    let m = CommentBlock::parse_toc_meta_str(&cs("-- Data for Name: d; Type: TABLE DATA")).unwrap();
    assert_eq!(m.name, "d");
    assert!(CommentBlock::parse_toc_meta_str(&cs("-- Name: d; Type: TABLE DATA;")).is_none());
}

#[test]
fn meta_lines_are_read_after_their_first_two_bytes() {
    // Any two one-byte characters lead the line.
    let m = CommentBlock::parse_toc_meta_str(&cs("xxName: a; Schema: s; Owner: o")).unwrap();
    assert_eq!(m.name, "a");
    assert_eq!(m.schema, "s");
    assert_eq!(m.owner, "o");
    // A two-byte first character is the first two bytes.
    let m = CommentBlock::parse_toc_meta_str(&cs("\u{e9}Data for Name: b; Type: TABLE DATA")).unwrap();
    assert_eq!(m.name, "b");
    assert_eq!(m.ty, StatementType::TableData);
    // Keys other than Name, Type, Schema and Owner are ignored.
    let m = CommentBlock::parse_toc_meta_str(&cs("--Tablespace: t")).unwrap();
    assert_eq!(m.name, "");
    assert_eq!(m.ty, StatementType::Unknown);
    // An empty part has no `:`.
    assert!(CommentBlock::parse_toc_meta_str(&cs("--")).is_none());
}
