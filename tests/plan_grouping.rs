use rae::structs::plan::{CompExpr, FilterExpr, ItemReduce, Plan};
use rae::structs::plan_group::{self, OperItem, PlanError, PlanGroup, ReduceOperator};
use rae::structs::{Expr, Loc, Pos, Symbol, Value};

fn sym(n: &str) -> Symbol {
    Symbol(n.to_string(), None)
}

fn table(n: &str) -> Box<Plan> {
    Box::new(Plan::Table(n.to_string()))
}

fn lit(v: i64) -> Box<Expr> {
    Box::new(Expr::Value(Loc(Value::Int(v), Pos::new(0, 1, 1))))
}

#[test]
fn chain_above_an_operator_is_collected_innermost_first() {
    let p = Plan::Projection(
        Box::new(Plan::Selection(
            Box::new(Plan::Projection(table("T"), vec![sym("a"), sym("b")])),
            Box::new(FilterExpr::GetFirst),
        )),
        vec![sym("a")],
    );
    let g = PlanGroup::from_plan(p).unwrap();
    assert!(matches!(&g.oper_item, OperItem::Table(t) if t == "T"));
    assert_eq!(g.projection, vec![sym("b"), sym("a"), sym("a")]);
    assert_eq!(g.selection.len(), 1);
    assert!(matches!(g.selection[0], plan_group::FilterExpr::GetFirst));
    assert!(g.item_reduce.is_none());
}

#[test]
fn conjunctions_are_split_into_comparisons() {
    let cmp = |v| Box::new(CompExpr::Eq(lit(v), lit(v)));
    let p = Plan::Selection(table("T"), Box::new(FilterExpr::And(vec![cmp(1), cmp(2), cmp(3)])));
    let g = PlanGroup::from_plan(p).unwrap();
    assert_eq!(g.selection.len(), 3);
    assert!(g.selection.iter().all(|f| matches!(f, plan_group::FilterExpr::Comp(_))));
}

#[test]
fn an_aggregate_is_recorded_with_its_field() {
    let p = Plan::Reduce(ItemReduce::Sum(table("T"), sym("x")));
    let g = PlanGroup::from_plan(p).unwrap();
    assert_eq!(g.item_reduce, Some(ReduceOperator::Sum));
    assert_eq!(g.projection, vec![sym("x")]);
    let c = PlanGroup::from_plan(Plan::Reduce(ItemReduce::Count(table("T")))).unwrap();
    assert_eq!(c.item_reduce, Some(ReduceOperator::Count));
    assert!(c.projection.is_empty());
}

#[test]
fn a_second_aggregate_in_one_chain_is_an_error() {
    let inner = Plan::Reduce(ItemReduce::Max(table("T"), sym("x")));
    let p = Plan::Reduce(ItemReduce::Avg(Box::new(inner), sym("x")));
    assert_eq!(PlanGroup::from_plan(p).unwrap_err(), PlanError::MultipleAggregatesNotSupported);
}

#[test]
fn operators_group_their_inputs_separately() {
    let left = Plan::Reduce(ItemReduce::Min(table("A"), sym("x")));
    let right = Plan::Reduce(ItemReduce::Count(table("B")));
    let p = Plan::Reduce(ItemReduce::Count(Box::new(Plan::Product(Box::new(left), Box::new(right)))));
    let g = PlanGroup::from_plan(p).unwrap();
    assert_eq!(g.item_reduce, Some(ReduceOperator::Count));
    match &g.oper_item {
        OperItem::CartesianProduct(a, b) => {
            assert_eq!(a.item_reduce, Some(ReduceOperator::Min));
            assert_eq!(b.item_reduce, Some(ReduceOperator::Count));
        }
        _ => panic!("product expected"),
    }
}

#[test]
fn sub_plans_of_comparisons_are_grouped() {
    let twice = Plan::Reduce(ItemReduce::Sum(
        Box::new(Plan::Reduce(ItemReduce::Sum(table("B"), sym("y")))),
        sym("y"),
    ));
    let p = Plan::Selection(table("A"), Box::new(FilterExpr::Comp(Box::new(CompExpr::In(lit(1), Box::new(twice))))));
    assert!(PlanGroup::from_plan(p).is_err());
    let once = Plan::Reduce(ItemReduce::Sum(table("B"), sym("y")));
    let p = Plan::Selection(table("A"), Box::new(FilterExpr::Or(vec![Box::new(CompExpr::In(lit(1), Box::new(once)))])));
    let g = PlanGroup::from_plan(p).unwrap();
    assert!(matches!(&g.selection[0], plan_group::FilterExpr::Or(v) if v.len() == 1));
}

#[test]
fn load_plan_appends_to_what_is_collected() {
    let mut selection = vec![plan_group::FilterExpr::GetLast];
    let mut projection = vec![sym("z")];
    let mut reduce = None;
    let p = Plan::Projection(table("T"), vec![sym("a")]);
    let o = plan_group::load_plan(p, &mut selection, &mut projection, &mut reduce).unwrap();
    assert!(matches!(o, OperItem::Table(_)));
    assert_eq!(projection, vec![sym("z"), sym("a")]);
    assert_eq!(selection.len(), 1);
    let mut reduce = Some(ReduceOperator::Avg);
    let p = Plan::Reduce(ItemReduce::Count(table("T")));
    assert!(plan_group::load_plan(p, &mut selection, &mut projection, &mut reduce).is_err());
}
