//! Schema inference for algebra expressions.
pub mod filter;
pub mod merge;
pub mod operators;
pub mod rename;

use vstd::prelude::*;
use vstd::string::*;

use crate::structs::ast::{ItemReduce, LocItemReduce, LocNode, Node};
use crate::structs::{Loc, Pos, SymbolModel};
use crate::type_system::unify::{fields_equal, lemma_unify_resolved, resolved};
use crate::type_system::{
    lemma_record_model, model, wf, Env, ErrorModel, Lines, Record, RecordModel, SimpleModel, Type,
    TypeError, TypeModel,
};
use crate::type_check::filter::{
    check_filters, check_loc_filters, filters_error, loc_filters_error, schema_ok,
};
use crate::type_check::merge::{merge_error, merge_fields, merge_model, schema_merge, shared};
use crate::type_check::operators::{
    aggregate, aggregate_model, check_join_keys, count, divide, divide_model, equi_error,
    nature_error, nature_failure, nature_fields, nature_join_fields, nature_ok, project, project_model, single,
};
use crate::type_check::rename::{rename, rename_model};

verus! {

/// How deep an expression may nest.
pub const MAX_DEPTH: usize = 256;

/// The outcome of inference: a schema, or an error with its position.
pub type Outcome = Result<RecordModel, (ErrorModel, Pos)>;

pub open spec fn fail(e: ErrorModel, p: Pos) -> Outcome {
    Err((e, p))
}

/// Both outcomes, the left one's error first.
pub open spec fn both(x: Outcome, y: Outcome) -> Result<(RecordModel, RecordModel), (ErrorModel, Pos)> {
    match x {
        Err(e) => Err(e),
        Ok(l) => match y {
            Err(e) => Err(e),
            Ok(r) => Ok((l, r)),
        },
    }
}

/// The outcome of merging `l` and `r` with separator `sep`.
pub open spec fn after_merge(l: RecordModel, r: RecordModel, sep: Seq<char>, p: Pos) -> Outcome {
    match merge_model(l, r, sep) {
        Some(x) => Ok(x),
        None => fail(merge_error(l, r), p),
    }
}

/// The schema of a set operation: both sides must have the same fields.
pub open spec fn set_op_model(l: RecordModel, r: RecordModel, p: Pos) -> Outcome {
    if l.fields == r.fields {
        Ok(l)
    } else {
        fail(ErrorModel::SchemaMismatch(l, r), p)
    }
}

/// The schema of an aggregate.
pub open spec fn reduce_model(item: LocItemReduce, r: RecordModel) -> Outcome {
    match item.0 {
        ItemReduce::Count(_) => Ok(single((Seq::<char>::empty(), None), SimpleModel::Int(None), r.label)),
        ItemReduce::Sum(_, f) => match aggregate_model(r, f@, false) {
            Ok(m) => Ok(m),
            Err(e) => fail(e, item.1),
        },
        ItemReduce::Avg(_, f) => match aggregate_model(r, f@, true) {
            Ok(m) => Ok(m),
            Err(e) => fail(e, item.1),
        },
        ItemReduce::Max(_, f) => match aggregate_model(r, f@, false) {
            Ok(m) => Ok(m),
            Err(e) => fail(e, item.1),
        },
        ItemReduce::Min(_, f) => match aggregate_model(r, f@, false) {
            Ok(m) => Ok(m),
            Err(e) => fail(e, item.1),
        },
    }
}

/// The relation that an aggregate reads.
pub open spec fn reduce_input(item: ItemReduce) -> LocNode {
    match item {
        ItemReduce::Count(a) => *a,
        ItemReduce::Sum(a, _) => *a,
        ItemReduce::Avg(a, _) => *a,
        ItemReduce::Max(a, _) => *a,
        ItemReduce::Min(a, _) => *a,
    }
}

/// The children of a node with two inputs.
pub open spec fn binary_inputs(n: Node) -> Option<(LocNode, LocNode)> {
    match n {
        Node::CrossProduct(a, b) => Some((*a, *b)),
        Node::Union(a, b) => Some((*a, *b)),
        Node::Difference(a, b) => Some((*a, *b)),
        Node::Intersect(a, b) => Some((*a, *b)),
        Node::Division(a, b) => Some((*a, *b)),
        Node::InnerJoin(a, b, _) => Some((*a, *b)),
        Node::EquiJoin(a, b, _) => Some((*a, *b)),
        Node::NatureJoin(a, b) => Some((*a, *b)),
        _ => None,
    }
}

/// The child of a node with one input.
pub open spec fn unary_input(n: Node) -> Option<LocNode> {
    match n {
        Node::Selection(a, _) => Some(*a),
        Node::Projection(a, _) => Some(*a),
        Node::Rename(a, _) => Some(*a),
        Node::Reduce(item) => Some(reduce_input(item.0)),
        _ => None,
    }
}

/// The schema of a node with two inputs, from the schemas of its inputs.
pub open spec fn binary_model(n: Node, l: RecordModel, r: RecordModel, p: Pos) -> Outcome {
    match n {
        Node::CrossProduct(_, _) => after_merge(l, r, "*"@, p),
        Node::Division(_, _) => match divide_model(l, r, "/"@) {
            Some(m) => Ok(m),
            None => fail(ErrorModel::SchemaMismatch(l, r), p),
        },
        Node::InnerJoin(_, _, fs) => match after_merge(l, r, "><"@, p) {
            Err(e) => Err(e),
            Ok(m) => match filters_error(fs@, m) {
                Some((e, q)) => fail(e, q),
                None => Ok(m),
            },
        },
        Node::EquiJoin(_, _, keys) => match after_merge(l, r, "*"@, p) {
            Err(e) => Err(e),
            Ok(m) => match equi_error(m, l.label, r.label, keys@) {
                Some(e) => fail(e, p),
                None => Ok(m),
            },
        },
        Node::NatureJoin(_, _) => if nature_ok(l, r) {
            Ok(RecordModel { fields: nature_fields(l, r), label: l.label + "*"@ + r.label })
        } else {
            fail(nature_error(l, r), p)
        },
        _ => set_op_model(l, r, p),
    }
}

/// The schema of a node with one input, from the schema of its input.
pub open spec fn unary_model(n: Node, r: RecordModel, p: Pos) -> Outcome {
    match n {
        Node::Selection(_, fs) => match loc_filters_error(fs@, r) {
            Some((e, q)) => fail(e, q),
            None => Ok(r),
        },
        Node::Projection(_, names) => match project_model(r, names@) {
            Some(m) => Ok(m),
            None => fail(ErrorModel::InvalidProjectionNames, p),
        },
        Node::Rename(_, pairs) => rename_model(r, pairs@, p),
        Node::Reduce(item) => reduce_model(item, r),
        _ => Ok(r),
    }
}

/// The schema of a node without inputs.
pub open spec fn leaf_model(n: Node, env: Map<Seq<char>, RecordModel>, p: Pos) -> Outcome {
    match n {
        Node::Table(t) => if env.contains_key(t.0@) {
            Ok(RecordModel { fields: env[t.0@].fields, label: t.0@ })
        } else {
            fail(ErrorModel::TableNotFound(t.0@), p)
        },
        Node::LeftJoin() => fail(ErrorModel::NotImplemented("LeftJoin"@), p),
        Node::RightJoin() => fail(ErrorModel::NotImplemented("RightJoin"@), p),
        _ => fail(ErrorModel::NotImplemented("FullJoin"@), p),
    }
}

/// The schema that expression `n` produces over the namespace `env`, when
/// it is reached at nesting depth `depth`. Inputs are inferred left before
/// right, and the first error ends inference.
pub open spec fn infer_model(n: LocNode, env: Map<Seq<char>, RecordModel>, depth: nat) -> Outcome
    decreases n,
{
    let p = n.1;
    let d = depth + 1;
    if depth >= MAX_DEPTH {
        fail(ErrorModel::ExpressionTooDeep, p)
    } else {
        match binary_inputs(n.0) {
            Some((a, b)) => match both(infer_model(a, env, d), infer_model(b, env, d)) {
                Err(e) => Err(e),
                Ok((l, r)) => binary_model(n.0, l, r, p),
            },
            None => match unary_input(n.0) {
                Some(a) => match infer_model(a, env, d) {
                    Err(e) => Err(e),
                    Ok(r) => unary_model(n.0, r, p),
                },
                None => leaf_model(n.0, env, p),
            },
        }
    }
}

/// Whether an inference result agrees with its model.
pub open spec fn fits(out: Result<Record, Loc<TypeError>>, o: Outcome) -> bool {
    match (out, o) {
        (Ok(x), Ok(m)) => x@ == m && schema_ok(x),
        (Err(e), Err((x, q))) => e.0@ == x && e.1 == q,
        _ => false,
    }
}

pub proof fn lemma_resolved_field(m: Map<SymbolModel, TypeModel>, k: SymbolModel)
    requires
        resolved(TypeModel::Record(m)),
        m.dom().contains(k),
    ensures
        resolved(m[k]),
{
    let t = TypeModel::Record(m);
    assert(t->Record_0 == m);
    assert(resolved(t));
}

proof fn lemma_single_resolved(k: SymbolModel, t: SimpleModel, label: Seq<char>)
    ensures
        resolved(TypeModel::Record(single(k, t, label).fields)),
{
    let m = single(k, t, label).fields;
    assert forall|x: SymbolModel| #[trigger] m.dom().contains(x) implies resolved(m[x]) by {
        assert(x == k);
    }
    reveal_with_fuel(resolved, 2);
}

pub proof fn lemma_merge_resolved(l: RecordModel, r: RecordModel)
    requires
        resolved(TypeModel::Record(l.fields)),
        resolved(TypeModel::Record(r.fields)),
    ensures
        resolved(TypeModel::Record(merge_fields(l, r))),
{
    let m = merge_fields(l, r);
    assert forall|k: SymbolModel| #[trigger] m.dom().contains(k) implies resolved(m[k]) by {
        if l.fields.dom().contains(k) && !r.fields.dom().contains(k) {
            lemma_resolved_field(l.fields, k);
        } else if r.fields.dom().contains(k) && !l.fields.dom().contains(k) {
            lemma_resolved_field(r.fields, k);
        } else if k.1 == Some(l.label) {
            assert(l.fields.dom().contains((k.0, None)));
            lemma_resolved_field(l.fields, (k.0, None));
        } else {
            assert(r.fields.dom().contains((k.0, None)));
            lemma_resolved_field(r.fields, (k.0, None));
        }
    }
}

pub proof fn lemma_nature_resolved(l: RecordModel, r: RecordModel)
    requires
        resolved(TypeModel::Record(l.fields)),
        resolved(TypeModel::Record(r.fields)),
        nature_ok(l, r),
    ensures
        resolved(TypeModel::Record(nature_fields(l, r))),
{
    let m = nature_fields(l, r);
    assert forall|k: SymbolModel| #[trigger] m.dom().contains(k) implies resolved(m[k]) by {
        if l.fields.dom().contains(k) && r.fields.dom().contains(k) {
            assert(shared(l, r, k));
            lemma_resolved_field(l.fields, k);
            lemma_resolved_field(r.fields, k);
            lemma_unify_resolved(l.fields[k], r.fields[k]);
        } else if l.fields.dom().contains(k) {
            lemma_resolved_field(l.fields, k);
        } else {
            lemma_resolved_field(r.fields, k);
        }
    }
}

/// The schema a table reference stands for, labelled with the table's name.
fn table_schema(env: &Env, t: &crate::type_system::TableName, p: Pos) -> (out: Result<Record, Loc<TypeError>>)
    requires
        env.wf(),
    ensures
        fits(
            out,
            if env@.contains_key(t.0@) {
                Ok(RecordModel { fields: env@[t.0@].fields, label: t.0@ })
            } else {
                fail(ErrorModel::TableNotFound(t.0@), p)
            },
        ),
{
    match env.get_table(t) {
        Some(lines) => {
            let c = lines.0.copy();
            let r = Record { fields: c.fields, label: t.0.clone() };
            proof {
                lemma_record_model(c);
                lemma_record_model(r);
                lemma_record_model(lines.0);
            }
            Ok(r)
        },
        None => Err(Loc(TypeError::TableNotFound(crate::type_system::TableName(t.0.clone())), p)),
    }
}

/// The schema of a node with two inputs, given their schemas.
fn apply_binary(n: &Node, l: Record, r: Record, p: Pos) -> (out: Result<Record, Loc<TypeError>>)
    requires
        binary_inputs(*n) is Some,
        schema_ok(l),
        schema_ok(r),
    ensures
        fits(out, binary_model(*n, l@, r@, p)),
{
    match n {
        Node::CrossProduct(_, _) => match schema_merge(&l, &r, "*") {
            Ok(m) => {
                proof {
                    lemma_merge_resolved(l@, r@);
                }
                Ok(m)
            },
            Err(e) => Err(Loc(e, p)),
        },
        Node::Division(_, _) => match divide(&l, &r, "/") {
            Ok(m) => Ok(m),
            Err(e) => Err(Loc(e, p)),
        },
        Node::InnerJoin(_, _, fs) => {
            let m = match schema_merge(&l, &r, "><") {
                Ok(m) => m,
                Err(e) => return Err(Loc(e, p)),
            };
            proof {
                lemma_merge_resolved(l@, r@);
            }
            match check_filters(fs, &m) {
                Ok(_) => Ok(m),
                Err(e) => Err(e),
            }
        },
        Node::EquiJoin(_, _, keys) => {
            let m = match schema_merge(&l, &r, "*") {
                Ok(m) => m,
                Err(e) => return Err(Loc(e, p)),
            };
            proof {
                lemma_merge_resolved(l@, r@);
            }
            match check_join_keys(&m, &l.label, &r.label, keys) {
                Ok(_) => Ok(m),
                Err(e) => Err(Loc(e, p)),
            }
        },
        Node::NatureJoin(_, _) => {
            match nature_failure(&l, &r) {
                None => {
                    let fields = nature_join_fields(&l, &r);
                    let label = l.label.clone().concat("*").concat(r.label.as_str());
                    let res = Record { fields, label };
                    proof {
                        lemma_record_model(res);
                        lemma_nature_resolved(l@, r@);
                    }
                    Ok(res)
                },
                Some(e) => Err(Loc(e, p)),
            }
        },
        _ => {
            if fields_equal(&l, &r) {
                Ok(l)
            } else {
                Err(Loc(TypeError::SchemaMismatch(l, r), p))
            }
        },
    }
}

/// The schema of a node with one input, given its schema.
fn apply_unary(n: &Node, r: Record, p: Pos) -> (out: Result<Record, Loc<TypeError>>)
    requires
        unary_input(*n) is Some,
        schema_ok(r),
    ensures
        fits(out, unary_model(*n, r@, p)),
{
    match n {
        Node::Selection(_, fs) => match check_loc_filters(fs, &r) {
            Ok(_) => Ok(r),
            Err(e) => Err(e),
        },
        Node::Projection(_, names) => match project(&r, names) {
            Ok(m) => Ok(m),
            Err(e) => Err(Loc(e, p)),
        },
        Node::Rename(_, pairs) => rename(&r, pairs, p),
        Node::Reduce(item) => apply_reduce(item, r),
        _ => Ok(r),
    }
}

/// The schema of an aggregate, given the schema of its input.
fn apply_reduce(item: &LocItemReduce, r: Record) -> (out: Result<Record, Loc<TypeError>>)
    requires
        schema_ok(r),
    ensures
        fits(out, reduce_model(*item, r@)),
{
    {
        {
            let res = match &item.0 {
                ItemReduce::Count(_) => Ok(count(&r)),
                ItemReduce::Sum(_, f) => aggregate(&r, f, false),
                ItemReduce::Avg(_, f) => aggregate(&r, f, true),
                ItemReduce::Max(_, f) => aggregate(&r, f, false),
                ItemReduce::Min(_, f) => aggregate(&r, f, false),
            };
            match res {
                Ok(m) => {
                    proof {
                        assert forall|k: SymbolModel, t: SimpleModel, label: Seq<char>|
                            resolved(TypeModel::Record(#[trigger] single(k, t, label).fields)) by {
                            lemma_single_resolved(k, t, label);
                        }
                    }
                    Ok(m)
                },
                Err(e) => Err(Loc(e, item.1)),
            }
        }
    }
}

/// The schema of a node without inputs.
fn apply_leaf(n: &Node, env: &Env, p: Pos) -> (out: Result<Record, Loc<TypeError>>)
    requires
        env.wf(),
        binary_inputs(*n) is None,
        unary_input(*n) is None,
    ensures
        fits(out, leaf_model(*n, env@, p)),
{
    match n {
        Node::Table(t) => table_schema(env, t, p),
        Node::LeftJoin() => Err(Loc(TypeError::NotImplemented(<String as StringExecFns>::from_str("LeftJoin")), p)),
        Node::RightJoin() => Err(Loc(TypeError::NotImplemented(<String as StringExecFns>::from_str("RightJoin")), p)),
        _ => Err(Loc(TypeError::NotImplemented(<String as StringExecFns>::from_str("FullJoin")), p)),
    }
}

/// Infers the schema of `n` at nesting depth `depth`.
pub fn infer(n: &LocNode, env: &Env, depth: usize) -> (out: Result<Record, Loc<TypeError>>)
    requires
        env.wf(),
    ensures
        fits(out, infer_model(*n, env@, depth as nat)),
    decreases n,
{
    let p = n.1;
    if depth >= MAX_DEPTH {
        return Err(Loc(TypeError::ExpressionTooDeep, p));
    }
    let d = depth + 1;
    let inputs = match &n.0 {
        Node::CrossProduct(a, b) => Some((a, b)),
        Node::Union(a, b) => Some((a, b)),
        Node::Difference(a, b) => Some((a, b)),
        Node::Intersect(a, b) => Some((a, b)),
        Node::Division(a, b) => Some((a, b)),
        Node::InnerJoin(a, b, _) => Some((a, b)),
        Node::EquiJoin(a, b, _) => Some((a, b)),
        Node::NatureJoin(a, b) => Some((a, b)),
        _ => None,
    };
    if let Some((a, b)) = inputs {
        let l = match infer(a, env, d) {
            Ok(x) => x,
            Err(e) => return Err(e),
        };
        let r = match infer(b, env, d) {
            Ok(x) => x,
            Err(e) => return Err(e),
        };
        return apply_binary(&n.0, l, r, p);
    }
    let input = match &n.0 {
        Node::Selection(a, _) => Some(a),
        Node::Projection(a, _) => Some(a),
        Node::Rename(a, _) => Some(a),
        Node::Reduce(item) => match &item.0 {
            ItemReduce::Count(a) => Some(a),
            ItemReduce::Sum(a, _) => Some(a),
            ItemReduce::Avg(a, _) => Some(a),
            ItemReduce::Max(a, _) => Some(a),
            ItemReduce::Min(a, _) => Some(a),
        },
        _ => None,
    };
    if let Some(a) = input {
        let r = match infer(a, env, d) {
            Ok(x) => x,
            Err(e) => return Err(e),
        };
        return apply_unary(&n.0, r, p);
    }
    apply_leaf(&n.0, env, p)
}

/// Schema inference.
pub trait TypeInfer {
    /// What the inferred type satisfies over the namespace `env`.
    spec fn infers(&self, env: Env, out: Result<Type, Loc<TypeError>>) -> bool;

    fn type_infer(&self, env: &Env) -> (out: Result<Type, Loc<TypeError>>)
        requires
            env.wf(),
        ensures
            self.infers(*env, out),
    ;
}

/// Whether an inferred table type agrees with its model.
pub open spec fn table_fits(out: Result<Type, Loc<TypeError>>, o: Outcome) -> bool {
    match (out, o) {
        (Ok(Type::Table(l)), Ok(m)) => l.0@ == m && schema_ok(l.0),
        (Err(e), Err((x, q))) => e.0@ == x && e.1 == q,
        _ => false,
    }
}

impl TypeInfer for LocNode {
    /// The expression's type is the table whose schema `infer_model` gives.
    open spec fn infers(&self, env: Env, out: Result<Type, Loc<TypeError>>) -> bool {
        table_fits(out, infer_model(*self, env@, 0))
    }

    fn type_infer(&self, env: &Env) -> (out: Result<Type, Loc<TypeError>>) {
        match infer(self, env, 0) {
            Ok(r) => Ok(Type::Table(Lines(r))),
            Err(e) => Err(e),
        }
    }
}

impl TypeInfer for LocItemReduce {
    /// The aggregate's type is the table that `reduce_model` gives over the
    /// schema of its input.
    open spec fn infers(&self, env: Env, out: Result<Type, Loc<TypeError>>) -> bool {
        table_fits(
            out,
            match infer_model(reduce_input(self.0), env@, 1) {
                Err(e) => Err(e),
                Ok(r) => reduce_model(*self, r),
            },
        )
    }

    fn type_infer(&self, env: &Env) -> (out: Result<Type, Loc<TypeError>>) {
        let a = match &self.0 {
            ItemReduce::Count(a) => a,
            ItemReduce::Sum(a, _) => a,
            ItemReduce::Avg(a, _) => a,
            ItemReduce::Max(a, _) => a,
            ItemReduce::Min(a, _) => a,
        };
        let r = match infer(a, env, 1) {
            Ok(x) => x,
            Err(e) => return Err(e),
        };
        match apply_reduce(self, r) {
            Ok(m) => Ok(Type::Table(Lines(m))),
            Err(e) => Err(e),
        }
    }
}

} // verus!
