//! Typing of scalar expressions and row filters.
use vstd::prelude::*;

use crate::structs::ast::{CompExpr, FilterExpr, LocCompExpr, LocFilterExpr};
use crate::structs::{Expr, Loc, LocExpr, LocValue, Pos, Symbol, Value};
use crate::type_system::unify::{
    lemma_resolved_pair, lemma_unify_resolved, resolved, unify_model, unify_type,
};
use crate::type_system::{
    find_field, lemma_key_at, lemma_record_model, model, wf, ErrorModel, Record, RecordModel,
    SimpleModel, SimpleType, Type, TypeError, TypeModel,
};

verus! {

/// The outcome of typing a scalar expression: its type, `None` for one that
/// constrains nothing (a null, a boolean, a connective), or a located error.
pub type ExprOutcome = Result<Option<TypeModel>, (ErrorModel, Pos)>;

pub open spec fn expr_outcome(o: Result<Option<Type>, Loc<TypeError>>) -> ExprOutcome {
    match o {
        Ok(Some(t)) => Ok(Some(t@)),
        Ok(None) => Ok(None),
        Err(e) => Err((e.0@, e.1)),
    }
}

/// The type of a literal or field reference.
pub open spec fn value_type(v: LocValue, r: RecordModel) -> ExprOutcome {
    match v.0 {
        Value::Symbol(s) => if r.fields.dom().contains(s@) {
            Ok(Some(r.fields[s@]))
        } else {
            Err((ErrorModel::FieldNotFound(s@), v.1))
        },
        Value::Int(_) => Ok(Some(TypeModel::Simple(SimpleModel::Int(None)))),
        Value::Uint(_) => Ok(Some(TypeModel::Simple(SimpleModel::Uint(None)))),
        Value::Float(_) => Ok(Some(TypeModel::Simple(SimpleModel::Float))),
        Value::String(s) => Ok(
            Some(TypeModel::Simple(SimpleModel::String(Set::<Seq<char>>::empty().insert(s@)))),
        ),
        _ => Ok(None),
    }
}

/// Two operands must unify when both have a type; the first error wins.
pub open spec fn combine(ta: ExprOutcome, tb: ExprOutcome, pos: Pos) -> ExprOutcome {
    match ta {
        Err(e) => Err(e),
        Ok(x) => match tb {
            Err(e) => Err(e),
            Ok(y) => match (x, y) {
                (Some(a), Some(b)) => match unify_model(a, b) {
                    Some(u) => Ok(Some(u)),
                    None => Err((ErrorModel::TypeUnifyError(a, b), pos)),
                },
                (Some(a), None) => Ok(Some(a)),
                (None, _) => Ok(y),
            },
        },
    }
}

/// The type of a scalar expression over the fields of `r`.
pub open spec fn expr_type(e: LocExpr, r: RecordModel) -> ExprOutcome
    decreases e,
{
    match e.0 {
        Expr::Add(a, b) => combine(expr_type(*a, r), expr_type(*b, r), e.1),
        Expr::Sub(a, b) => combine(expr_type(*a, r), expr_type(*b, r), e.1),
        Expr::Mul(a, b) => combine(expr_type(*a, r), expr_type(*b, r), e.1),
        Expr::Div(a, b) => combine(expr_type(*a, r), expr_type(*b, r), e.1),
        Expr::Mod(a, b) => combine(expr_type(*a, r), expr_type(*b, r), e.1),
        Expr::And(a, b) => match expr_type(*a, r) {
            Err(x) => Err(x),
            Ok(_) => match expr_type(*b, r) {
                Err(x) => Err(x),
                Ok(_) => Ok(None),
            },
        },
        Expr::Or(a, b) => match expr_type(*a, r) {
            Err(x) => Err(x),
            Ok(_) => match expr_type(*b, r) {
                Err(x) => Err(x),
                Ok(_) => Ok(None),
            },
        },
        Expr::Not(a) => match expr_type(*a, r) {
            Err(x) => Err(x),
            Ok(_) => Ok(None),
        },
        Expr::Value(v) => value_type(v, r),
    }
}

/// The operands of a comparison.
pub open spec fn comp_operands(c: CompExpr) -> (LocExpr, LocExpr) {
    match c {
        CompExpr::Eq(a, b) => (*a, *b),
        CompExpr::Lt(a, b) => (*a, *b),
        CompExpr::Gt(a, b) => (*a, *b),
        CompExpr::In(a, b) => (*a, *b),
    }
}

/// A comparison is well typed when its operands unify.
pub open spec fn comp_error(c: LocCompExpr, r: RecordModel) -> Option<(ErrorModel, Pos)> {
    let (a, b) = comp_operands(c.0);
    match combine(expr_type(a, r), expr_type(b, r), c.1) {
        Err(e) => Some(e),
        Ok(_) => None,
    }
}

/// The first ill-typed comparison of `cs`.
pub open spec fn comps_error(cs: Seq<Box<LocCompExpr>>, r: RecordModel) -> Option<(ErrorModel, Pos)>
    decreases cs.len(),
{
    if cs.len() == 0 {
        None
    } else {
        match comp_error(*cs[0], r) {
            Some(e) => Some(e),
            None => comps_error(cs.drop_first(), r),
        }
    }
}

/// The first ill-typed comparison of a filter; positional filters are always
/// well typed.
pub open spec fn filter_error(f: FilterExpr, r: RecordModel) -> Option<(ErrorModel, Pos)> {
    match f {
        FilterExpr::And(cs) => comps_error(cs@, r),
        FilterExpr::Or(cs) => comps_error(cs@, r),
        FilterExpr::Not(c) => comp_error(*c, r),
        FilterExpr::Comp(c) => comp_error(*c, r),
        _ => None,
    }
}

/// The first error of a list of located filters.
pub open spec fn loc_filters_error(fs: Seq<LocFilterExpr>, r: RecordModel) -> Option<(ErrorModel, Pos)>
    decreases fs.len(),
{
    if fs.len() == 0 {
        None
    } else {
        match filter_error(fs[0].0, r) {
            Some(e) => Some(e),
            None => loc_filters_error(fs.drop_first(), r),
        }
    }
}

/// The first error of a list of filters.
pub open spec fn filters_error(fs: Seq<FilterExpr>, r: RecordModel) -> Option<(ErrorModel, Pos)>
    decreases fs.len(),
{
    if fs.len() == 0 {
        None
    } else {
        match filter_error(fs[0], r) {
            Some(e) => Some(e),
            None => filters_error(fs.drop_first(), r),
        }
    }
}

/// The schema `r` is well formed and free of table references.
pub open spec fn schema_ok(r: Record) -> bool {
    r.wf() && resolved(TypeModel::Record(r@.fields))
}

proof fn lemma_field_resolved(r: Record, j: int)
    requires
        schema_ok(r),
        0 <= j < r.fields@.len(),
    ensures
        resolved(r@.fields[r.fields@[j].0@]),
        r@.fields[r.fields@[j].0@] == model(r.fields@[j].1),
        wf(r.fields@[j].1),
{
    lemma_record_model(r);
    lemma_key_at(r.fields@, j);
    assert(r@.fields.dom().contains(r.fields@[j].0@));
    assert(wf(r.fields[j].1));
}

fn literal_type(s: &String) -> (t: Type)
    ensures
        t@ == TypeModel::Simple(SimpleModel::String(Set::<Seq<char>>::empty().insert(s@))),
        wf(t),
{
    let mut d: Vec<String> = Vec::new();
    d.push(s.clone());
    proof {
        assert(crate::type_system::literal_set(d@) =~= Set::<Seq<char>>::empty().insert(s@)) by {
            assert(d@[0]@ == s@);
        }
    }
    Type::Simple(SimpleType::String(d))
}

/// The type of a literal or field reference.
pub fn type_of_value(v: &LocValue, r: &Record) -> (out: Result<Option<Type>, Loc<TypeError>>)
    requires
        schema_ok(*r),
    ensures
        expr_outcome(out) == value_type(*v, r@),
        out matches Ok(Some(t)) ==> wf(t) && resolved(t@),
{
    match &v.0 {
        Value::Symbol(s) => {
            proof {
                lemma_record_model(*r);
            }
            match find_field(&r.fields, s) {
                Some(j) => {
                    proof {
                        lemma_field_resolved(*r, j as int);
                        lemma_key_at(r.fields@, j as int);
                    }
                    Ok(Some(r.fields[j].1.copy()))
                },
                None => Err(Loc(TypeError::FieldNotFound(s.copy()), v.1)),
            }
        },
        Value::Int(_) => Ok(Some(Type::Simple(SimpleType::Int(None)))),
        Value::Uint(_) => Ok(Some(Type::Simple(SimpleType::Uint(None)))),
        Value::Float(_) => Ok(Some(Type::Simple(SimpleType::Float))),
        Value::String(s) => Ok(Some(literal_type(s))),
        _ => Ok(None),
    }
}

/// Combines the types of two operands.
fn combine_types(
    ta: Result<Option<Type>, Loc<TypeError>>,
    tb: Result<Option<Type>, Loc<TypeError>>,
    pos: Pos,
) -> (out: Result<Option<Type>, Loc<TypeError>>)
    requires
        ta matches Ok(Some(t)) ==> wf(t) && resolved(t@),
        tb matches Ok(Some(t)) ==> wf(t) && resolved(t@),
    ensures
        expr_outcome(out) == combine(expr_outcome(ta), expr_outcome(tb), pos),
        out matches Ok(Some(t)) ==> wf(t) && resolved(t@),
{
    match ta {
        Err(e) => Err(e),
        Ok(x) => match tb {
            Err(e) => Err(e),
            Ok(y) => match (x, y) {
                (Some(a), Some(b)) => {
                    proof {
                        lemma_resolved_pair(a@, b@);
                    }
                    match unify_type(&a, &b) {
                        Ok(u) => {
                            proof {
                                lemma_unify_resolved(a@, b@);
                            }
                            Ok(Some(u))
                        },
                        Err(_) => Err(Loc(TypeError::TypeUnifyError(a, b), pos)),
                    }
                },
                (Some(a), None) => Ok(Some(a)),
                (None, y) => Ok(y),
            },
        },
    }
}

/// The type of a scalar expression over the fields of `r`.
pub fn type_of_expr(e: &LocExpr, r: &Record) -> (out: Result<Option<Type>, Loc<TypeError>>)
    requires
        schema_ok(*r),
    ensures
        expr_outcome(out) == expr_type(*e, r@),
        out matches Ok(Some(t)) ==> wf(t) && resolved(t@),
    decreases e,
{
    match &e.0 {
        Expr::Add(a, b) => combine_types(type_of_expr(a, r), type_of_expr(b, r), e.1),
        Expr::Sub(a, b) => combine_types(type_of_expr(a, r), type_of_expr(b, r), e.1),
        Expr::Mul(a, b) => combine_types(type_of_expr(a, r), type_of_expr(b, r), e.1),
        Expr::Div(a, b) => combine_types(type_of_expr(a, r), type_of_expr(b, r), e.1),
        Expr::Mod(a, b) => combine_types(type_of_expr(a, r), type_of_expr(b, r), e.1),
        Expr::And(a, b) | Expr::Or(a, b) => {
            match type_of_expr(a, r) {
                Err(x) => Err(x),
                Ok(_) => match type_of_expr(b, r) {
                    Err(x) => Err(x),
                    Ok(_) => Ok(None),
                },
            }
        },
        Expr::Not(a) => match type_of_expr(a, r) {
            Err(x) => Err(x),
            Ok(_) => Ok(None),
        },
        Expr::Value(v) => type_of_value(v, r),
    }
}

/// Checks that the operands of a comparison unify.
pub fn check_comp(c: &LocCompExpr, r: &Record) -> (out: Result<(), Loc<TypeError>>)
    requires
        schema_ok(*r),
    ensures
        match comp_error(*c, r@) {
            None => out is Ok,
            Some(e) => out matches Err(x) && (x.0@, x.1) == e,
        },
{
    let (a, b) = match &c.0 {
        CompExpr::Eq(a, b) => (a, b),
        CompExpr::Lt(a, b) => (a, b),
        CompExpr::Gt(a, b) => (a, b),
        CompExpr::In(a, b) => (a, b),
    };
    match combine_types(type_of_expr(a, r), type_of_expr(b, r), c.1) {
        Err(x) => Err(x),
        Ok(_) => Ok(()),
    }
}

/// Checks a list of comparisons, stopping at the first error.
pub fn check_comps(cs: &Vec<Box<LocCompExpr>>, r: &Record) -> (out: Result<(), Loc<TypeError>>)
    requires
        schema_ok(*r),
    ensures
        match comps_error(cs@, r@) {
            None => out is Ok,
            Some(e) => out matches Err(x) && (x.0@, x.1) == e,
        },
{
    let mut i: usize = 0;
    proof {
        assert(cs@.skip(0) =~= cs@);
    }
    while i < cs.len()
        invariant
            schema_ok(*r),
            i <= cs.len(),
            comps_error(cs@, r@) == comps_error(cs@.skip(i as int), r@),
        decreases cs.len() - i,
    {
        proof {
            assert(cs@.skip(i as int)[0] == cs@[i as int]);
            assert(cs@.skip(i as int).drop_first() =~= cs@.skip(i + 1));
        }
        match check_comp(&cs[i], r) {
            Err(x) => {
                return Err(x);
            },
            Ok(_) => {},
        }
        i += 1;
    }
    Ok(())
}

/// Checks one filter.
pub fn check_filter(f: &FilterExpr, r: &Record) -> (out: Result<(), Loc<TypeError>>)
    requires
        schema_ok(*r),
    ensures
        match filter_error(*f, r@) {
            None => out is Ok,
            Some(e) => out matches Err(x) && (x.0@, x.1) == e,
        },
{
    match f {
        FilterExpr::And(cs) => check_comps(cs, r),
        FilterExpr::Or(cs) => check_comps(cs, r),
        FilterExpr::Not(c) => check_comp(c, r),
        FilterExpr::Comp(c) => check_comp(c, r),
        _ => Ok(()),
    }
}

/// Checks a list of located filters, stopping at the first error.
pub fn check_loc_filters(fs: &Vec<LocFilterExpr>, r: &Record) -> (out: Result<(), Loc<TypeError>>)
    requires
        schema_ok(*r),
    ensures
        match loc_filters_error(fs@, r@) {
            None => out is Ok,
            Some(e) => out matches Err(x) && (x.0@, x.1) == e,
        },
{
    let mut i: usize = 0;
    proof {
        assert(fs@.skip(0) =~= fs@);
    }
    while i < fs.len()
        invariant
            schema_ok(*r),
            i <= fs.len(),
            loc_filters_error(fs@, r@) == loc_filters_error(fs@.skip(i as int), r@),
        decreases fs.len() - i,
    {
        proof {
            assert(fs@.skip(i as int)[0] == fs@[i as int]);
            assert(fs@.skip(i as int).drop_first() =~= fs@.skip(i + 1));
        }
        match check_filter(&fs[i].0, r) {
            Err(x) => {
                return Err(x);
            },
            Ok(_) => {},
        }
        i += 1;
    }
    Ok(())
}

/// Checks a list of filters, stopping at the first error.
pub fn check_filters(fs: &Vec<FilterExpr>, r: &Record) -> (out: Result<(), Loc<TypeError>>)
    requires
        schema_ok(*r),
    ensures
        match filters_error(fs@, r@) {
            None => out is Ok,
            Some(e) => out matches Err(x) && (x.0@, x.1) == e,
        },
{
    let mut i: usize = 0;
    proof {
        assert(fs@.skip(0) =~= fs@);
    }
    while i < fs.len()
        invariant
            schema_ok(*r),
            i <= fs.len(),
            filters_error(fs@, r@) == filters_error(fs@.skip(i as int), r@),
        decreases fs.len() - i,
    {
        proof {
            assert(fs@.skip(i as int)[0] == fs@[i as int]);
            assert(fs@.skip(i as int).drop_first() =~= fs@.skip(i + 1));
        }
        match check_filter(&fs[i], r) {
            Err(x) => {
                return Err(x);
            },
            Ok(_) => {},
        }
        i += 1;
    }
    Ok(())
}

} // verus!
