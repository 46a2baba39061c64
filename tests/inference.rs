use rae::structs::ast::{CompExpr, FilterExpr, ItemReduce, LocNode, Node};
use rae::structs::{Expr, Loc, LocExpr, Pos, Symbol, Value};
use rae::type_check::{infer, TypeInfer, MAX_DEPTH};
use rae::type_system::{Domain, Env, Lines, Record, SimpleType, TableName, Type, TypeError};

fn pos() -> Pos {
    Pos::new(0, 1, 1)
}

fn at(offset: usize) -> Pos {
    Pos::new(offset, 1, offset + 1)
}

fn sym(n: &str) -> Symbol {
    Symbol(n.to_string(), None)
}

fn qsym(n: &str, q: &str) -> Symbol {
    Symbol(n.to_string(), Some(q.to_string()))
}

fn int_t() -> Type {
    Type::Simple(SimpleType::Int(None))
}

fn string_t() -> Type {
    Type::Simple(SimpleType::String(vec![]))
}

fn float_t() -> Type {
    Type::Simple(SimpleType::Float)
}

fn record(fields: Vec<(&str, Type)>) -> Record {
    Record {
        fields: fields.into_iter().map(|(n, t)| (sym(n), t)).collect(),
        label: String::new(),
    }
}

fn table(name: &str) -> Box<LocNode> {
    Box::new(Loc(Node::Table(TableName(name.to_string())), pos()))
}

fn node(n: Node) -> LocNode {
    Loc(n, at(7))
}

fn env_with(tables: Vec<(&str, Vec<(&str, Type)>)>) -> Env {
    let mut env = Env::new();
    for (name, fields) in tables {
        env.insert(TableName(name.to_string()), Lines(record(fields)));
    }
    env
}

fn company() -> Env {
    env_with(vec![
        ("Employee", vec![("id", int_t()), ("dept", string_t())]),
        ("Dept", vec![("dept", string_t()), ("mgr", string_t())]),
    ])
}

fn field<'a>(r: &'a Record, s: &Symbol) -> Option<&'a Type> {
    r.fields.iter().find(|(k, _)| k == s).map(|(_, t)| t)
}

fn is_int(t: Option<&Type>) -> bool {
    matches!(t, Some(Type::Simple(SimpleType::Int(None))))
}

fn is_string(t: Option<&Type>) -> bool {
    matches!(t, Some(Type::Simple(SimpleType::String(d))) if d.is_empty())
}

fn is_float(t: Option<&Type>) -> bool {
    matches!(t, Some(Type::Simple(SimpleType::Float)))
}

fn value(v: Value) -> Box<LocExpr> {
    Box::new(Loc(Expr::Value(Loc(v, at(3))), at(3)))
}

#[test]
fn table_reference_resolves_to_its_schema() {
    let env = company();
    let r = infer(&Loc(Node::Table(TableName("Employee".to_string())), pos()), &env, 0).unwrap();
    assert_eq!(r.label, "Employee");
    assert_eq!(r.fields.len(), 2);
    assert!(is_int(field(&r, &sym("id"))));
    assert!(is_string(field(&r, &sym("dept"))));
}

#[test]
fn missing_table_is_reported_at_its_position() {
    let env = company();
    let e = infer(&Loc(Node::Table(TableName("Nope".to_string())), at(4)), &env, 0).unwrap_err();
    assert!(matches!(&e.0, TypeError::TableNotFound(TableName(n)) if n == "Nope"));
    assert_eq!(e.1, at(4));
}

#[test]
fn set_operations_on_identical_schemas_keep_the_schema() {
    let env = env_with(vec![
        ("A", vec![("x", int_t()), ("y", string_t())]),
        ("B", vec![("y", string_t()), ("x", int_t())]),
    ]);
    for n in [
        Node::Union(table("A"), table("B")),
        Node::Intersect(table("A"), table("B")),
        Node::Difference(table("A"), table("B")),
    ] {
        let r = infer(&node(n), &env, 0).unwrap();
        assert_eq!(r.label, "A");
        assert_eq!(r.fields.len(), 2);
        assert!(is_int(field(&r, &sym("x"))));
        assert!(is_string(field(&r, &sym("y"))));
    }
}

#[test]
fn set_operations_on_different_schemas_fail() {
    let env = env_with(vec![
        ("A", vec![("x", int_t()), ("y", string_t())]),
        ("B", vec![("x", int_t()), ("z", string_t())]),
        ("C", vec![("x", int_t()), ("y", float_t())]),
    ]);
    for other in ["B", "C"] {
        for n in [
            Node::Union(table("A"), table(other)),
            Node::Intersect(table("A"), table(other)),
            Node::Difference(table("A"), table(other)),
        ] {
            let e = infer(&node(n), &env, 0).unwrap_err();
            assert!(matches!(&e.0, TypeError::SchemaMismatch(l, r) if l.label == "A" && r.label == other));
            assert_eq!(e.1, at(7));
        }
    }
}

#[test]
fn product_of_disjoint_tables_is_the_union() {
    let env = env_with(vec![("A", vec![("x", int_t())]), ("B", vec![("y", string_t())])]);
    let r = infer(&node(Node::CrossProduct(table("A"), table("B"))), &env, 0).unwrap();
    assert_eq!(r.label, "A*B");
    assert_eq!(r.fields.len(), 2);
    assert!(is_int(field(&r, &sym("x"))));
    assert!(is_string(field(&r, &sym("y"))));
}

#[test]
fn product_qualifies_a_shared_field_on_both_sides() {
    let env = env_with(vec![
        ("A", vec![("x", int_t()), ("n", int_t())]),
        ("B", vec![("n", string_t()), ("y", float_t())]),
    ]);
    let r = infer(&node(Node::CrossProduct(table("A"), table("B"))), &env, 0).unwrap();
    assert_eq!(r.fields.len(), 4);
    assert!(field(&r, &sym("n")).is_none());
    assert!(is_int(field(&r, &qsym("n", "A"))));
    assert!(is_string(field(&r, &qsym("n", "B"))));
    assert!(is_int(field(&r, &sym("x"))));
    assert!(is_float(field(&r, &sym("y"))));
}

#[test]
fn product_of_a_table_with_itself_cannot_be_disambiguated() {
    let env = env_with(vec![("A", vec![("x", int_t())])]);
    let e = infer(&node(Node::CrossProduct(table("A"), table("A"))), &env, 0).unwrap_err();
    assert!(matches!(&e.0, TypeError::DuplicateField(s) if *s == qsym("x", "A")));
}

#[test]
fn projection_keeps_the_named_fields() {
    let env = env_with(vec![("A", vec![("x", int_t()), ("y", string_t()), ("z", float_t())])]);
    let r = infer(&node(Node::Projection(table("A"), vec![sym("z"), sym("x")])), &env, 0).unwrap();
    assert_eq!(r.fields.len(), 2);
    assert!(is_float(field(&r, &sym("z"))));
    assert!(is_int(field(&r, &sym("x"))));
    assert!(field(&r, &sym("y")).is_none());
}

#[test]
fn projection_onto_a_missing_field_fails() {
    let env = env_with(vec![("A", vec![("x", int_t())])]);
    let e = infer(&node(Node::Projection(table("A"), vec![sym("x"), sym("w")])), &env, 0).unwrap_err();
    assert!(matches!(e.0, TypeError::InvalidProjectionNames));
    assert_eq!(e.1, at(7));
}

#[test]
fn division_drops_the_divisor_fields() {
    let env = env_with(vec![
        ("R", vec![("a", int_t()), ("b", string_t()), ("c", float_t())]),
        ("S", vec![("b", string_t())]),
    ]);
    let r = infer(&node(Node::Division(table("R"), table("S"))), &env, 0).unwrap();
    assert_eq!(r.label, "R/S");
    assert_eq!(r.fields.len(), 2);
    assert!(is_int(field(&r, &sym("a"))));
    assert!(is_float(field(&r, &sym("c"))));
}

#[test]
fn division_by_a_schema_that_is_not_a_subset_fails() {
    let env = env_with(vec![
        ("R", vec![("a", int_t()), ("b", string_t())]),
        ("S", vec![("b", int_t())]),
        ("T", vec![("q", int_t())]),
    ]);
    for d in ["S", "T"] {
        let e = infer(&node(Node::Division(table("R"), table(d))), &env, 0).unwrap_err();
        assert!(matches!(&e.0, TypeError::SchemaMismatch(_, r) if r.label == d));
    }
}

#[test]
fn equi_join_on_matching_key_merges_both_schemas() {
    let env = company();
    let n = node(Node::EquiJoin(table("Employee"), table("Dept"), vec!["dept".to_string()]));
    let r = infer(&n, &env, 0).unwrap();
    assert_eq!(r.fields.len(), 4);
    assert!(is_int(field(&r, &sym("id"))));
    assert!(is_string(field(&r, &sym("mgr"))));
    assert!(is_string(field(&r, &qsym("dept", "Employee"))));
    assert!(is_string(field(&r, &qsym("dept", "Dept"))));
    assert!(field(&r, &sym("dept")).is_none());
}

#[test]
fn equi_join_with_mismatched_key_names_both_sides() {
    let env = env_with(vec![
        ("Employee", vec![("id", int_t()), ("dept", int_t())]),
        ("Dept", vec![("dept", string_t()), ("mgr", string_t())]),
    ]);
    let n = node(Node::EquiJoin(table("Employee"), table("Dept"), vec!["dept".to_string()]));
    let e = infer(&n, &env, 0).unwrap_err();
    match &e.0 {
        TypeError::EquiJoinKeyTypeMismatch(s1, t1, s2, t2) => {
            assert_eq!(*s1, qsym("dept", "Employee"));
            assert_eq!(*s2, qsym("dept", "Dept"));
            assert!(is_int(Some(t1)));
            assert!(is_string(Some(t2)));
        }
        other => panic!("unexpected error {:?}", other),
    }
}

#[test]
fn equi_join_on_a_key_that_is_not_shared_fails() {
    let env = company();
    let n = node(Node::EquiJoin(table("Employee"), table("Dept"), vec!["mgr".to_string()]));
    let e = infer(&n, &env, 0).unwrap_err();
    assert!(matches!(&e.0, TypeError::FieldNotFound(s) if *s == sym("mgr")));
}

#[test]
fn natural_join_collapses_shared_fields() {
    let env = company();
    let r = infer(&node(Node::NatureJoin(table("Employee"), table("Dept"))), &env, 0).unwrap();
    assert_eq!(r.fields.len(), 3);
    assert!(is_string(field(&r, &sym("dept"))));
    assert!(is_int(field(&r, &sym("id"))));
    assert!(is_string(field(&r, &sym("mgr"))));
    assert!(field(&r, &qsym("dept", "Employee")).is_none());
}

#[test]
fn natural_join_with_mismatched_shared_field_fails() {
    let env = env_with(vec![
        ("Employee", vec![("id", int_t()), ("dept", int_t())]),
        ("Dept", vec![("dept", string_t()), ("mgr", string_t())]),
    ]);
    let e = infer(&node(Node::NatureJoin(table("Employee"), table("Dept"))), &env, 0).unwrap_err();
    match &e.0 {
        TypeError::EquiJoinKeyTypeMismatch(s1, t1, s2, t2) => {
            assert_eq!(*s1, qsym("dept", "Employee"));
            assert_eq!(*s2, qsym("dept", "Dept"));
            assert!(is_int(Some(t1)));
            assert!(is_string(Some(t2)));
        }
        other => panic!("unexpected error {:?}", other),
    }
}

#[test]
fn average_yields_a_float_field_named_after_the_target() {
    let env = company();
    let item = Loc(ItemReduce::Avg(table("Employee"), sym("id")), at(2));
    let r = infer(&node(Node::Reduce(item)), &env, 0).unwrap();
    assert_eq!(r.fields.len(), 1);
    assert!(is_float(field(&r, &sym("id"))));
}

#[test]
fn sum_max_min_keep_the_numeric_kind() {
    let env = env_with(vec![(
        "T",
        vec![("u", Type::Simple(SimpleType::Uint(None))), ("s", string_t())],
    )]);
    for item in [
        ItemReduce::Sum(table("T"), sym("u")),
        ItemReduce::Max(table("T"), sym("u")),
        ItemReduce::Min(table("T"), sym("u")),
    ] {
        let r = infer(&node(Node::Reduce(Loc(item, at(2)))), &env, 0).unwrap();
        assert_eq!(r.fields.len(), 1);
        assert!(matches!(field(&r, &sym("u")), Some(Type::Simple(SimpleType::Uint(None)))));
    }
}

#[test]
fn count_yields_one_unnamed_integer_field() {
    let env = company();
    let r = infer(&node(Node::Reduce(Loc(ItemReduce::Count(table("Dept")), at(2)))), &env, 0).unwrap();
    assert_eq!(r.fields.len(), 1);
    assert!(is_int(field(&r, &sym(""))));
}

#[test]
fn aggregate_errors() {
    let env = company();
    let missing = Loc(ItemReduce::Sum(table("Employee"), sym("salary")), at(2));
    let e = infer(&node(Node::Reduce(missing)), &env, 0).unwrap_err();
    assert!(matches!(&e.0, TypeError::FieldNotFound(s) if *s == sym("salary")));
    assert_eq!(e.1, at(2));
    let text = Loc(ItemReduce::Max(table("Employee"), sym("dept")), at(2));
    let e = infer(&node(Node::Reduce(text)), &env, 0).unwrap_err();
    assert!(matches!(&e.0, TypeError::NotNumeric(s, _) if *s == sym("dept")));
}

#[test]
fn selection_keeps_the_schema_when_comparisons_unify() {
    let env = company();
    let cmp = Loc(CompExpr::Eq(value(Value::Symbol(sym("id"))), value(Value::Int(3))), at(5));
    let filters = vec![
        Loc(FilterExpr::Comp(Box::new(cmp)), at(5)),
        Loc(FilterExpr::GetFirst, at(6)),
    ];
    let r = infer(&node(Node::Selection(table("Employee"), filters)), &env, 0).unwrap();
    assert_eq!(r.label, "Employee");
    assert_eq!(r.fields.len(), 2);
}

#[test]
fn selection_comparing_a_field_with_a_literal_of_another_kind_fails() {
    let env = company();
    let cmp = Loc(
        CompExpr::Lt(value(Value::Symbol(sym("id"))), value(Value::String("x".to_string()))),
        at(5),
    );
    let filters = vec![Loc(FilterExpr::And(vec![Box::new(cmp)]), at(5))];
    let e = infer(&node(Node::Selection(table("Employee"), filters)), &env, 0).unwrap_err();
    assert!(matches!(e.0, TypeError::TypeUnifyError(_, _)));
    assert_eq!(e.1, at(5));
}

#[test]
fn selection_on_an_unknown_field_fails() {
    let env = company();
    let cmp = Loc(CompExpr::Gt(value(Value::Symbol(sym("age"))), value(Value::Int(3))), at(5));
    let filters = vec![Loc(FilterExpr::Not(Box::new(cmp)), at(5))];
    let e = infer(&node(Node::Selection(table("Employee"), filters)), &env, 0).unwrap_err();
    assert!(matches!(&e.0, TypeError::FieldNotFound(s) if *s == sym("age")));
    assert_eq!(e.1, at(3));
}

#[test]
fn inner_join_checks_filters_over_the_merged_schema() {
    let env = company();
    let ok = Loc(
        CompExpr::Eq(value(Value::Symbol(qsym("dept", "Employee"))), value(Value::Symbol(qsym("dept", "Dept")))),
        at(5),
    );
    let n = node(Node::InnerJoin(table("Employee"), table("Dept"), vec![FilterExpr::Comp(Box::new(ok))]));
    let r = infer(&n, &env, 0).unwrap();
    assert_eq!(r.label, "Employee><Dept");
    assert_eq!(r.fields.len(), 4);
    let bad = Loc(CompExpr::Eq(value(Value::Symbol(sym("dept"))), value(Value::Int(1))), at(5));
    let n = node(Node::InnerJoin(table("Employee"), table("Dept"), vec![FilterExpr::Comp(Box::new(bad))]));
    let e = infer(&n, &env, 0).unwrap_err();
    assert!(matches!(&e.0, TypeError::FieldNotFound(s) if *s == sym("dept")));
}

#[test]
fn rename_moves_types_to_new_names() {
    let env = company();
    let n = node(Node::Rename(table("Employee"), vec![(sym("id"), sym("eid"))]));
    let r = infer(&n, &env, 0).unwrap();
    assert_eq!(r.fields.len(), 2);
    assert!(is_int(field(&r, &sym("eid"))));
    assert!(field(&r, &sym("id")).is_none());
    let swap = node(Node::Rename(table("Employee"), vec![(sym("id"), sym("dept")), (sym("dept"), sym("id"))]));
    let r = infer(&swap, &env, 0).unwrap();
    assert!(is_string(field(&r, &sym("id"))));
    assert!(is_int(field(&r, &sym("dept"))));
}

#[test]
fn rename_errors() {
    let env = company();
    let missing = node(Node::Rename(table("Employee"), vec![(sym("zz"), sym("a"))]));
    let e = infer(&missing, &env, 0).unwrap_err();
    assert!(matches!(&e.0, TypeError::FieldNotFound(s) if *s == sym("zz")));
    let clash = node(Node::Rename(table("Employee"), vec![(sym("id"), sym("dept"))]));
    let e = infer(&clash, &env, 0).unwrap_err();
    assert!(matches!(&e.0, TypeError::DuplicateField(s) if *s == sym("dept")));
    let twice = node(Node::Rename(table("Employee"), vec![(sym("id"), sym("a")), (sym("dept"), sym("a"))]));
    let e = infer(&twice, &env, 0).unwrap_err();
    assert!(matches!(&e.0, TypeError::DuplicateField(s) if *s == sym("a")));
}

#[test]
fn outer_joins_are_not_implemented() {
    let env = company();
    for (n, name) in [
        (Node::LeftJoin(), "LeftJoin"),
        (Node::RightJoin(), "RightJoin"),
        (Node::FullJoin(), "FullJoin"),
    ] {
        let e = infer(&node(n), &env, 0).unwrap_err();
        assert!(matches!(&e.0, TypeError::NotImplemented(s) if s == name));
    }
}

#[test]
fn deep_expressions_are_rejected() {
    let env = company();
    let mut n = Loc(Node::Table(TableName("Employee".to_string())), pos());
    for _ in 0..MAX_DEPTH {
        n = Loc(Node::Projection(Box::new(n), vec![sym("id")]), pos());
    }
    let e = infer(&n, &env, 0).unwrap_err();
    assert!(matches!(e.0, TypeError::ExpressionTooDeep));
}

#[test]
fn left_input_errors_come_first() {
    let env = company();
    let n = node(Node::CrossProduct(table("X"), table("Y")));
    let e = infer(&n, &env, 0).unwrap_err();
    assert!(matches!(&e.0, TypeError::TableNotFound(TableName(t)) if t == "X"));
}

#[test]
fn type_infer_wraps_the_schema_as_a_table() {
    let env = company();
    let t = node(Node::Projection(table("Dept"), vec![sym("mgr")])).type_infer(&env).unwrap();
    match t {
        Type::Table(Lines(r)) => {
            assert_eq!(r.fields.len(), 1);
            assert!(is_string(field(&r, &sym("mgr"))));
        }
        _ => panic!("not a table"),
    }
    let item = Loc(ItemReduce::Avg(table("Employee"), sym("id")), at(2));
    match item.type_infer(&env).unwrap() {
        Type::Table(Lines(r)) => assert!(is_float(field(&r, &sym("id")))),
        _ => panic!("not a table"),
    }
}

#[test]
fn expressions_just_within_the_depth_bound_are_accepted() {
    let env = company();
    let mut n = Loc(Node::Table(TableName("Employee".to_string())), pos());
    for _ in 0..MAX_DEPTH - 1 {
        n = Loc(Node::Projection(Box::new(n), vec![sym("id")]), pos());
    }
    let r = infer(&n, &env, 0).unwrap();
    assert_eq!(r.fields.len(), 1);
}

#[test]
fn natural_join_unifies_refinements_of_shared_fields() {
    let env = env_with(vec![
        ("A", vec![("k", Type::Simple(SimpleType::Int(Some(Domain::Range(0, 100))))), ("x", int_t())]),
        ("B", vec![("k", Type::Simple(SimpleType::Int(Some(Domain::Range(5, 6))))), ("y", int_t())]),
    ]);
    let r = infer(&node(Node::NatureJoin(table("A"), table("B"))), &env, 0).unwrap();
    assert_eq!(r.label, "A*B");
    assert_eq!(r.fields.len(), 3);
    match field(&r, &sym("k")) {
        Some(Type::Simple(SimpleType::Int(Some(d)))) => assert_eq!(d.bounds(), (5, 6)),
        other => panic!("unexpected type {:?}", other),
    }
}

#[test]
fn arithmetic_operands_must_unify() {
    let env = company();
    let sum = Box::new(Loc(Expr::Add(value(Value::Symbol(sym("id"))), value(Value::Float(0))), at(9)));
    let cmp = Loc(CompExpr::Eq(sum, value(Value::Int(1))), at(5));
    let filters = vec![Loc(FilterExpr::Comp(Box::new(cmp)), at(5))];
    let e = infer(&node(Node::Selection(table("Employee"), filters)), &env, 0).unwrap_err();
    assert!(matches!(e.0, TypeError::TypeUnifyError(_, _)));
    assert_eq!(e.1, at(9));
    let ok = Box::new(Loc(Expr::Mul(value(Value::Symbol(sym("id"))), value(Value::Null)), at(9)));
    let cmp = Loc(CompExpr::In(ok, value(Value::Int(1))), at(5));
    let filters = vec![Loc(FilterExpr::Or(vec![Box::new(cmp)]), at(5))];
    assert!(infer(&node(Node::Selection(table("Employee"), filters)), &env, 0).is_ok());
}

#[test]
fn natural_join_of_a_table_with_itself_keeps_each_field_once() {
    let env = company();
    let r = infer(&node(Node::NatureJoin(table("Employee"), table("Employee"))), &env, 0).unwrap();
    assert_eq!(r.label, "Employee*Employee");
    assert_eq!(r.fields.len(), 2);
    assert!(is_int(field(&r, &sym("id"))));
    assert!(is_string(field(&r, &sym("dept"))));
    assert!(field(&r, &qsym("dept", "Employee")).is_none());
}

#[test]
fn product_reports_a_qualified_name_that_already_exists() {
    let env = env_with(vec![("A", vec![("x", int_t())]), ("B", vec![("x", string_t())])]);
    let ab = Box::new(node(Node::CrossProduct(table("A"), table("B"))));
    let left = Box::new(node(Node::Rename(ab, vec![(qsym("x", "A"), sym("x"))])));
    let e = infer(&node(Node::CrossProduct(left, table("B"))), &env, 0).unwrap_err();
    assert!(matches!(&e.0, TypeError::DuplicateField(s) if *s == qsym("x", "B")));
}

#[test]
fn natural_join_reports_the_least_failing_field() {
    let env = env_with(vec![
        ("L", vec![("b", int_t()), ("a", int_t())]),
        ("R", vec![("a", string_t()), ("b", string_t())]),
    ]);
    let e = infer(&node(Node::NatureJoin(table("L"), table("R"))), &env, 0).unwrap_err();
    match &e.0 {
        TypeError::EquiJoinKeyTypeMismatch(s1, _, s2, _) => {
            assert_eq!(*s1, qsym("a", "L"));
            assert_eq!(*s2, qsym("a", "R"));
        }
        other => panic!("unexpected error {:?}", other),
    }
}

#[test]
fn product_reports_the_least_colliding_field() {
    let env = env_with(vec![("T", vec![("z", int_t()), ("m", int_t())])]);
    let e = infer(&node(Node::CrossProduct(table("T"), table("T"))), &env, 0).unwrap_err();
    assert!(matches!(&e.0, TypeError::DuplicateField(s) if *s == qsym("m", "T")));
}

#[test]
fn rename_reports_the_first_repeated_name() {
    let env = env_with(vec![("T", vec![("a", int_t()), ("b", int_t()), ("c", int_t())])]);
    let pairs = vec![(sym("c"), sym("x")), (sym("a"), sym("y")), (sym("b"), sym("y")), (sym("c"), sym("z"))];
    let e = infer(&node(Node::Rename(table("T"), pairs)), &env, 0).unwrap_err();
    assert!(matches!(&e.0, TypeError::DuplicateField(s) if *s == sym("c")));
}
