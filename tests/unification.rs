use rae::structs::Symbol;
use rae::type_system::unify::{fields_equal, type_equal, unify_domain_i64, Unify};
use rae::type_system::{Domain, Env, Lines, Optional, Record, SimpleType, TableName, Type, TypeError};

fn sym(n: &str) -> Symbol {
    Symbol(n.to_string(), None)
}

fn int_t() -> Type {
    Type::Simple(SimpleType::Int(None))
}

fn int_in(lo: i64, hi: i64) -> Type {
    Type::Simple(SimpleType::Int(Some(Domain::Range(lo, hi))))
}

fn strings(vals: &[&str]) -> Type {
    Type::Simple(SimpleType::String(vals.iter().map(|s| s.to_string()).collect()))
}

fn opt(t: Type) -> Type {
    Type::Optional(Optional(Box::new(t)))
}

fn record(label: &str, fields: Vec<(&str, Type)>) -> Record {
    Record {
        fields: fields.into_iter().map(|(n, t)| (sym(n), t)).collect(),
        label: label.to_string(),
    }
}

fn field<'a>(r: &'a Record, n: &str) -> Option<&'a Type> {
    r.fields.iter().find(|(k, _)| *k == sym(n)).map(|(_, t)| t)
}

fn domain_of(t: Option<&Type>) -> Option<(i64, i64)> {
    match t {
        Some(Type::Simple(SimpleType::Int(Some(d)))) => Some(d.bounds()),
        _ => None,
    }
}

#[test]
fn ranges_unify_to_the_narrower_one() {
    let r = int_in(0, 100).unify(&int_in(10, 20)).unwrap();
    assert_eq!(domain_of(Some(&r)), Some((10, 20)));
    let r = int_in(10, 20).unify(&int_in(0, 100)).unwrap();
    assert_eq!(domain_of(Some(&r)), Some((10, 20)));
}

#[test]
fn overlapping_ranges_that_do_not_nest_fail() {
    let e = int_in(0, 10).unify(&int_in(5, 20)).unwrap_err();
    assert!(matches!(e, TypeError::TypeUnifyError(_, _)));
    let e = unify_domain_i64(&Domain::Range(0, 10), &Domain::Range(5, 20)).unwrap_err();
    assert_eq!(e, (Domain::Range(0, 10), Domain::Range(5, 20)));
}

#[test]
fn a_value_is_a_single_point_range() {
    let d = unify_domain_i64(&Domain::Value(7), &Domain::Range(0, 10)).unwrap();
    assert_eq!(d, Domain::Value(7));
    assert!(unify_domain_i64(&Domain::Value(7), &Domain::Value(8)).is_err());
}

#[test]
fn an_unconstrained_domain_takes_the_other() {
    let r = int_t().unify(&int_in(1, 2)).unwrap();
    assert_eq!(domain_of(Some(&r)), Some((1, 2)));
    let r = int_in(1, 2).unify(&int_t()).unwrap();
    assert_eq!(domain_of(Some(&r)), Some((1, 2)));
}

#[test]
fn string_domains_unify_to_the_smaller_set() {
    let r = strings(&["a", "b", "c"]).unify(&strings(&["b"])).unwrap();
    assert!(type_equal(&r, &strings(&["b"])));
    let r = strings(&[]).unify(&strings(&["x", "y"])).unwrap();
    assert!(type_equal(&r, &strings(&["y", "x"])));
    let e = strings(&["a"]).unify(&strings(&["b"])).unwrap_err();
    assert!(matches!(e, TypeError::TypeUnifyError(_, _)));
}

#[test]
fn different_kinds_do_not_unify() {
    match int_t().unify(&Type::Simple(SimpleType::Float)) {
        Err(TypeError::TypeUnifyError(a, b)) => {
            assert!(type_equal(&a, &int_t()));
            assert!(matches!(b, Type::Simple(SimpleType::Float)));
        }
        _ => panic!("TypeUnifyError expected"),
    }
    assert!(int_t().unify(&Type::Simple(SimpleType::Uint(None))).is_err());
    match int_t().unify(&Type::Record(record("R", vec![]))) {
        Err(TypeError::TypeUnifyError(a, Type::Record(r))) => {
            assert!(type_equal(&a, &int_t()));
            assert_eq!(r.fields.len(), 0);
        }
        _ => panic!("TypeUnifyError expected"),
    }
}

#[test]
fn failed_scalar_unification_carries_both_types() {
    match strings(&["a", "b"]).unify(&strings(&["c"])) {
        Err(TypeError::TypeUnifyError(a, b)) => {
            assert!(type_equal(&a, &strings(&["a", "b"])));
            assert!(type_equal(&b, &strings(&["c"])));
        }
        _ => panic!("TypeUnifyError expected"),
    }
    match SimpleType::Int(Some(Domain::Range(0, 1))).unify(&SimpleType::Int(Some(Domain::Range(5, 9)))) {
        Err(TypeError::TypeUnifyError(a, b)) => {
            assert_eq!(domain_of(Some(&a)), Some((0, 1)));
            assert_eq!(domain_of(Some(&b)), Some((5, 9)));
        }
        _ => panic!("TypeUnifyError expected"),
    }
}

#[test]
fn optional_passes_on_the_inner_error() {
    let e = opt(int_t()).unify(&strings(&[])).unwrap_err();
    match e {
        TypeError::TypeUnifyError(a, b) => {
            assert!(type_equal(&a, &int_t()));
            assert!(type_equal(&b, &strings(&[])));
        }
        _ => panic!("TypeUnifyError expected"),
    }
    let e = Optional(Box::new(int_t())).unify(&Optional(Box::new(Type::Simple(SimpleType::Float)))).unwrap_err();
    assert!(matches!(e, TypeError::TypeUnifyError(_, _)));
}

#[test]
fn records_of_different_sizes_fail_with_both_records() {
    let x = record("X", vec![("a", int_t()), ("b", int_t())]);
    let y = record("Y", vec![("a", int_t())]);
    match x.unify(&y) {
        Err(TypeError::TypeUnifyError(Type::Record(p), Type::Record(q))) => {
            assert!(fields_equal(&p, &x));
            assert!(fields_equal(&q, &y));
        }
        _ => panic!("TypeUnifyError expected"),
    }
    let lx = Lines(record("X", vec![("a", int_t())]));
    let ly = Lines(record("Y", vec![("b", int_t())]));
    assert!(matches!(lx.unify(&ly), Err(TypeError::FieldNotFound(s)) if s == sym("a")));
}

#[test]
fn a_failing_shared_field_gives_its_own_error() {
    let x = record("X", vec![("a", int_t()), ("b", strings(&["u"]))]);
    let y = record("Y", vec![("a", int_t()), ("b", strings(&["v"]))]);
    match Type::Record(x).unify(&Type::Record(y)) {
        Err(TypeError::TypeUnifyError(p, q)) => {
            assert!(type_equal(&p, &strings(&["u"])));
            assert!(type_equal(&q, &strings(&["v"])));
        }
        _ => panic!("TypeUnifyError expected"),
    }
}

#[test]
fn optional_is_transparent() {
    let r = opt(int_t()).unify(&int_in(3, 4)).unwrap();
    assert_eq!(domain_of(Some(&r)), Some((3, 4)));
    let r = int_in(3, 4).unify(&opt(int_t())).unwrap();
    assert_eq!(domain_of(Some(&r)), Some((3, 4)));
    let r = opt(int_t()).unify(&opt(int_in(3, 4))).unwrap();
    match r {
        Type::Optional(Optional(inner)) => assert_eq!(domain_of(Some(&inner)), Some((3, 4))),
        _ => panic!("optional expected"),
    }
}

#[test]
fn table_names_unify_when_equal() {
    let a = Type::TableName(TableName("T".to_string()));
    let b = Type::TableName(TableName("T".to_string()));
    let c = Type::TableName(TableName("U".to_string()));
    assert!(a.unify(&b).is_ok());
    assert!(matches!(a.unify(&c), Err(TypeError::TypeUnifyError(_, _))));
}

#[test]
fn records_with_the_same_names_unify_pairwise() {
    let x = record("X", vec![("a", int_in(0, 9)), ("b", strings(&[]))]);
    let y = record("Y", vec![("b", strings(&["k"])), ("a", int_in(2, 3))]);
    let r = x.unify(&y).unwrap();
    assert_eq!(r.label, "X");
    assert_eq!(r.fields.len(), 2);
    assert_eq!(domain_of(field(&r, "a")), Some((2, 3)));
    assert!(type_equal(field(&r, "b").unwrap(), &strings(&["k"])));
}

#[test]
fn records_with_a_missing_field_fail() {
    let x = record("X", vec![("a", int_t()), ("b", int_t())]);
    let y = record("Y", vec![("a", int_t()), ("c", int_t())]);
    let e = x.unify(&y).unwrap_err();
    assert!(matches!(&e, TypeError::FieldNotFound(s) if *s == sym("b")));
}

#[test]
fn optional_fields_may_be_absent_on_the_smaller_side() {
    let wide = record("W", vec![("a", int_t()), ("note", opt(strings(&[])))]);
    let narrow = record("N", vec![("a", int_in(1, 5))]);
    for r in [wide.unify(&narrow).unwrap(), narrow.unify(&wide).unwrap()] {
        assert_eq!(r.fields.len(), 2);
        assert_eq!(domain_of(field(&r, "a")), Some((1, 5)));
        assert!(matches!(field(&r, "note"), Some(Type::Optional(_))));
    }
    let required = record("R", vec![("a", int_t()), ("b", int_t())]);
    let e = required.unify(&narrow).unwrap_err();
    assert!(matches!(e, TypeError::TypeUnifyError(_, _)));
}

#[test]
fn record_unification_is_symmetric() {
    let x = record("X", vec![("a", int_in(0, 9)), ("b", strings(&["p", "q"]))]);
    let y = record("Y", vec![("b", strings(&["q"])), ("a", int_t())]);
    let xy = x.unify(&y).unwrap();
    let yx = y.unify(&x).unwrap();
    assert!(fields_equal(&xy, &yx));
    let z = record("Z", vec![("a", int_in(20, 30)), ("b", strings(&["q"]))]);
    assert!(x.unify(&z).is_err());
    assert!(z.unify(&x).is_err());
}

#[test]
fn record_equality_ignores_order_and_label() {
    let x = record("X", vec![("a", int_t()), ("b", strings(&["1", "2"]))]);
    let y = record("Y", vec![("b", strings(&["2", "1"])), ("a", int_t())]);
    assert!(fields_equal(&x, &y));
    let z = record("Z", vec![("a", int_t()), ("b", strings(&["1"]))]);
    assert!(!fields_equal(&x, &z));
    let w = record("W", vec![("a", int_t())]);
    assert!(!fields_equal(&x, &w));
    assert!(!fields_equal(&w, &x));
}

#[test]
fn a_value_domain_equals_its_single_point_range() {
    let a = Type::Simple(SimpleType::Int(Some(Domain::Value(4))));
    assert!(type_equal(&a, &int_in(4, 4)));
    assert!(!type_equal(&a, &int_in(4, 5)));
}

#[test]
fn domain_addition_adds_the_ends() {
    assert_eq!(Domain::Range(1i64, 2).add(Domain::Value(10)), Some(Domain::Range(11, 12)));
    assert_eq!(Domain::Value(1i64).add(Domain::Value(2)), Some(Domain::Value(3)));
    assert_eq!(Domain::Value(1u64).add(Domain::Range(2, 3)), Some(Domain::Range(3, 4)));
    assert_eq!(Domain::Range(0u64, u64::MAX).add(Domain::Value(1)), None);
    assert_eq!(Domain::Value(i64::MIN).add(Domain::Value(-1)), None);
}

#[test]
fn env_insert_replaces_and_get_table_finds() {
    let mut env = Env::new();
    env.insert(TableName("T".to_string()), Lines(record("", vec![("a", int_t())])));
    env.insert(TableName("T".to_string()), Lines(record("", vec![("b", int_t()), ("c", int_t())])));
    env.insert(TableName("U".to_string()), Lines(record("", vec![])));
    assert_eq!(env.0.len(), 2);
    let t = env.get_table(&TableName("T".to_string())).unwrap();
    assert_eq!(t.0.fields.len(), 2);
    assert!(env.get_table(&TableName("V".to_string())).is_none());
    let by_name = Type::TableName(TableName("U".to_string()));
    assert_eq!(by_name.get_table_from_env(&env).unwrap().0.fields.len(), 0);
    assert!(int_t().get_table_from_env(&env).is_none());
}

#[test]
fn type_predicates_and_getters() {
    let t = opt(int_t());
    assert!(t.is_optional());
    assert!(!t.is_table());
    assert!(t.get_optional().is_some());
    assert!(t.get_record().is_none());
    let r = Type::Record(record("R", vec![]));
    assert!(r.is_record());
    assert!(r.get_record().is_some());
    assert!(int_t().is_simple_type());
    assert!(int_t().get_simple_type().is_some());
    let n = Type::TableName(TableName("T".to_string()));
    assert!(n.is_table_name());
    assert_eq!(n.get_table_name().unwrap().0, "T");
    let l = Type::Table(Lines(record("L", vec![])));
    assert!(l.is_table());
    assert!(l.get_table().is_some());
}
