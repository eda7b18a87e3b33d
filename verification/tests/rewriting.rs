use pg_importer::dump_reader::statements::extract_table_name_from_create_table;
use pg_importer::dump_reader::{Statement, StatementType, Statements};
use pg_importer::import::{
    constraints_splittable, fix_statements, import_action, render_statement, ImportAction,
};

const CREATE: &str = "CREATE TABLE public.users (\n    id integer NOT NULL,\n    CONSTRAINT users_pkey PRIMARY KEY (id),\n    CONSTRAINT users_id_check CHECK ((id > 0))\n);\n\n";

fn table(sql: &str) -> Statement {
    let mut s = Statement::new(sql.to_string(), 3, 10, 10 + sql.len());
    s.ty = StatementType::Table;
    s
}

#[test]
fn table_names() {
    assert_eq!(extract_table_name_from_create_table("CREATE TABLE x ("), Some("x".to_string()));
    assert_eq!(extract_table_name_from_create_table("a b"), Some("b".to_string()));
    assert_eq!(extract_table_name_from_create_table(""), Some("".to_string()));
    assert_eq!(extract_table_name_from_create_table("A  B"), Some("B".to_string()));
}

#[test]
fn constraints_move_to_alter_statements() {
    let other = Statement::from_sql("SELECT 1;".to_string());
    let mut stmts = Statements::wrap(vec![table(CREATE), other, table("CREATE TABLE t (a int);\n")]);
    let alters = stmts.extract_and_convert_constraints();
    assert_eq!(alters.len(), 1);
    assert_eq!(alters[0].ty, StatementType::Constraint);
    assert_eq!(
        alters[0].sql,
        "ALTER TABLE public.users ADD CONSTRAINT users_pkey PRIMARY KEY (id),\n    ADD CONSTRAINT users_id_check CHECK ((id > 0));"
    );
    assert_eq!(alters[0].pos, None);
    assert_eq!(stmts.len(), 3);
    assert_eq!(stmts.get(0).sql, "CREATE TABLE public.users (\n    id integer NOT NULL);");
    assert_eq!(stmts.get(0).pos, Some((10, 10 + CREATE.len())));
    assert_eq!(stmts.get(1).sql, "SELECT 1;");
    assert_eq!(stmts.get(2).sql, "CREATE TABLE t (a int);\n");
}

#[test]
fn extracting_twice_finds_nothing_more() {
    let mut stmts = Statements::wrap(vec![table(CREATE)]);
    let first = stmts.extract_and_convert_constraints();
    assert_eq!(first.len(), 1);
    let before = stmts.get(0).sql.clone();
    let second = stmts.extract_and_convert_constraints();
    assert!(second.is_empty());
    assert_eq!(stmts.get(0).sql, before);
}

#[test]
fn splittable_check() {
    assert!(constraints_splittable(&vec![table(CREATE), table("CREATE TABLE t ();")]));
    assert!(!constraints_splittable(&vec![table("CREATE TABLE t (CONSTRAINT c CHECK (true)")]));
    assert!(!constraints_splittable(&vec![table("x);\nCONSTRAINT c")]));
    // Only table statements are checked.
    let mut s = table("CONSTRAINT");
    s.ty = StatementType::Index;
    assert!(constraints_splittable(&vec![s]));
}

#[test]
fn replace_all_counts_statements() {
    let mut stmts = Statements::wrap(vec![
        Statement::from_sql("a-b-a".to_string()),
        Statement::from_sql("b".to_string()),
        Statement::from_sql("aa".to_string()),
    ]);
    assert_eq!(stmts.replace_all("a", "xy"), 2);
    let sqls: Vec<String> = stmts.iter().map(|s| s.sql.clone()).collect();
    assert_eq!(sqls, vec!["xy-b-xy".to_string(), "b".to_string(), "xyxy".to_string()]);
    assert_eq!(stmts.replace_all("b", "b"), 2);
    let same: Vec<String> = stmts.as_slice().iter().map(|s| s.sql.clone()).collect();
    assert_eq!(same, sqls);
    assert_eq!(stmts.replace_all("zzz", "q"), 0);
}

#[test]
fn filter_append_and_iterate() {
    let mut stmts = Statements::wrap(vec![
        table("CREATE TABLE a ();"),
        Statement::from_sql("x".to_string()),
        table("CREATE TABLE b ();"),
    ]);
    assert_eq!(stmts.filter_by_type_mut(StatementType::Table), vec![0, 2]);
    assert_eq!(stmts.filter_by_type_mut(StatementType::Acl), Vec::<usize>::new());
    let mut more = vec![Statement::from_command("\\x".to_string())];
    stmts.append(&mut more);
    assert!(more.is_empty());
    assert_eq!(stmts.len(), 4);
    assert_eq!(stmts.iter().count(), 4);
    let all: Vec<Statement> = stmts.into_iter().collect();
    assert_eq!(all[3].ty, StatementType::Command);
    let v = Statements::wrap(all.clone()).into_vec();
    assert_eq!(v, all);
}

#[test]
fn fixing_a_dump() {
    let set = Statement::from_sql("SELECT pg_catalog.set_config('search_path', '', false);\n".to_string());
    let fixed = fix_statements(vec![table(CREATE), set]);
    assert_eq!(fixed.len(), 3);
    assert_eq!(fixed.get(0).sql, "CREATE TABLE public.users (\n    id integer NOT NULL);");
    assert_eq!(
        fixed.get(1).sql,
        "SELECT pg_catalog.set_config('search_path', 'public', false);\n"
    );
    assert_eq!(fixed.get(2).ty, StatementType::Constraint);
}

#[test]
fn rendering_statements() {
    let mut s = table("CREATE TABLE t ();");
    s.entry_id = Some(196);
    s.name = Some("t".to_string());
    assert_eq!(
        render_statement(&s),
        "-- Entry: 196, Name: t, Type: TABLE\n\nCREATE TABLE t ();\n\n\n"
    );
    let c = Statement::from_command("\\connect db\n".to_string());
    assert_eq!(render_statement(&c), "-- Type: Unknown\n\n\\connect db\n\n\n\n");
}

#[test]
fn import_actions() {
    let c = Statement::from_command("\\connect \"mydb\"\n".to_string());
    assert_eq!(import_action(&c), ImportAction::Connect("mydb".to_string()));
    let c = Statement::from_command("\\connect -reuse-previous=on \"dbname='shop'\"\n".to_string());
    assert_eq!(import_action(&c), ImportAction::Connect("dbname='shop'".to_string()));
    let c = Statement::from_command("\\connect a\n".to_string());
    assert_eq!(import_action(&c), ImportAction::MalformedConnect);
    let c = Statement::from_command("\\connect éab\n".to_string());
    assert_eq!(import_action(&c), ImportAction::MalformedConnect);
    let c = Statement::from_command("\\connect xé".to_string());
    assert_eq!(import_action(&c), ImportAction::Connect("".to_string()));
    let c = Statement::from_command("\\connect xab€\n".to_string());
    assert_eq!(import_action(&c), ImportAction::MalformedConnect);
    let c = Statement::from_command("\\set ON_ERROR_STOP on\n".to_string());
    assert_eq!(import_action(&c), ImportAction::SkipCommand);
    let s = Statement::from_sql("\\connect x".to_string());
    assert_eq!(import_action(&s), ImportAction::Execute);
}
