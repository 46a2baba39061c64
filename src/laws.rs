//! Laws that relate the operators of the library, proved over their models.
use vstd::prelude::*;

use crate::structs::ast::{LocNode, Node};
use crate::structs::{lemma_symbol_lt_order, symbol_lt, Pos, SymbolModel};
use crate::type_check::merge::{merge_fields, merge_model, merge_ok, qualify, shared};
use crate::type_check::operators::{
    equi_error, least_nature_failure, name_set, nature_error, nature_fails, nature_fields,
    nature_ok, project_model,
};
use crate::type_check::{binary_inputs, binary_model, fail, infer_model, unary_model, MAX_DEPTH};
use crate::type_system::unify::{
    fields_unify, literals_unify, record_unify, refinement_unify, simple_unify, unify_model,
};
use crate::type_system::{ErrorModel, RecordModel, SimpleModel, TypeModel};

verus! {

/// No field of `r` is qualified, as in a table of the namespace.
pub open spec fn unqualified(r: RecordModel) -> bool {
    forall|k: SymbolModel| #[trigger] r.fields.dom().contains(k) ==> k.1 is None
}

proof fn lemma_unqualified_merge_ok(l: RecordModel, r: RecordModel)
    requires
        unqualified(l),
        unqualified(r),
        l.label != r.label,
    ensures
        merge_ok(l, r),
{
}

/// A union, intersection or difference whose inputs have the schemas `l` and
/// `r` yields `l` when both have the same fields, and otherwise fails with
/// `SchemaMismatch(l, r)`.
pub proof fn law_set_operations(
    n: LocNode,
    env: Map<Seq<char>, RecordModel>,
    depth: nat,
    l: RecordModel,
    r: RecordModel,
)
    requires
        n.0 is Union || n.0 is Intersect || n.0 is Difference,
        depth < MAX_DEPTH,
        infer_model((binary_inputs(n.0)->0).0, env, depth + 1) == Ok::<
            RecordModel,
            (ErrorModel, Pos),
        >(l),
        infer_model((binary_inputs(n.0)->0).1, env, depth + 1) == Ok::<
            RecordModel,
            (ErrorModel, Pos),
        >(r),
    ensures
        l.fields == r.fields ==> infer_model(n, env, depth) == Ok::<
            RecordModel,
            (ErrorModel, Pos),
        >(l),
        l.fields != r.fields ==> infer_model(n, env, depth) == fail(
            ErrorModel::SchemaMismatch(l, r),
            n.1,
        ),
{
}

/// A union, intersection or difference of two tables of the namespace,
/// reached at any depth within the limit: with the same fields it yields the
/// left table's schema, otherwise it fails with `SchemaMismatch` of the two
/// schemas.
pub proof fn law_set_operations_on_tables(
    n: LocNode,
    env: Map<Seq<char>, RecordModel>,
    depth: nat,
    x: Seq<char>,
    y: Seq<char>,
)
    requires
        n.0 is Union || n.0 is Intersect || n.0 is Difference,
        depth + 1 < MAX_DEPTH,
        (binary_inputs(n.0)->0).0.0 is Table,
        (binary_inputs(n.0)->0).1.0 is Table,
        (binary_inputs(n.0)->0).0.0->Table_0.0@ == x,
        (binary_inputs(n.0)->0).1.0->Table_0.0@ == y,
        env.contains_key(x),
        env.contains_key(y),
    ensures
        env[x].fields == env[y].fields ==> infer_model(n, env, depth) == Ok::<
            RecordModel,
            (ErrorModel, Pos),
        >(RecordModel { fields: env[x].fields, label: x }),
        env[x].fields != env[y].fields ==> infer_model(n, env, depth) == fail(
            ErrorModel::SchemaMismatch(
                RecordModel { fields: env[x].fields, label: x },
                RecordModel { fields: env[y].fields, label: y },
            ),
            n.1,
        ),
{
    let a = (binary_inputs(n.0)->0).0;
    let b = (binary_inputs(n.0)->0).1;
    assert(infer_model(a, env, depth + 1) == Ok::<RecordModel, (ErrorModel, Pos)>(
        RecordModel { fields: env[x].fields, label: x },
    ));
    assert(infer_model(b, env, depth + 1) == Ok::<RecordModel, (ErrorModel, Pos)>(
        RecordModel { fields: env[y].fields, label: y },
    ));
}

/// Inference is depth-first, left before right, and stops at the first
/// error: a node with two inputs reports its left input's error, whatever
/// the right input would give; with a well-typed left input it reports the
/// right input's error.
pub proof fn law_left_error_first(n: LocNode, env: Map<Seq<char>, RecordModel>, depth: nat)
    requires
        depth < MAX_DEPTH,
        binary_inputs(n.0) is Some,
    ensures
        infer_model((binary_inputs(n.0)->0).0, env, depth + 1) is Err ==> infer_model(n, env, depth)
            == infer_model((binary_inputs(n.0)->0).0, env, depth + 1),
        infer_model((binary_inputs(n.0)->0).0, env, depth + 1) is Ok && infer_model(
            (binary_inputs(n.0)->0).1,
            env,
            depth + 1,
        ) is Err ==> infer_model(n, env, depth) == infer_model(
            (binary_inputs(n.0)->0).1,
            env,
            depth + 1,
        ),
{
}

/// The product of relations with no field name in common has exactly the
/// fields of both.
pub proof fn law_product_disjoint(l: RecordModel, r: RecordModel, sep: Seq<char>)
    requires
        forall|k: SymbolModel|
            #![trigger l.fields.dom().contains(k), r.fields.dom().contains(k)]
            !(l.fields.dom().contains(k) && r.fields.dom().contains(k)),
    ensures
        merge_model(l, r, sep) == Some(
            RecordModel {
                fields: l.fields.union_prefer_right(r.fields),
                label: l.label + sep + r.label,
            },
        ),
        unqualified(l) && unqualified(r) ==> unqualified(merge_model(l, r, sep)->0),
{
    assert(merge_fields(l, r) =~= l.fields.union_prefer_right(r.fields));
}

/// The product of two tables that share the field name `n` has no
/// unqualified `n`, and exactly two qualified ones, one per side, each with
/// that side's type.
pub proof fn law_product_shared(l: RecordModel, r: RecordModel, sep: Seq<char>, n: Seq<char>)
    requires
        unqualified(l),
        unqualified(r),
        l.label != r.label,
        l.fields.dom().contains((n, None)),
        r.fields.dom().contains((n, None)),
    ensures
        merge_model(l, r, sep) is Some,
        !merge_model(l, r, sep)->0.fields.dom().contains((n, None)),
        merge_model(l, r, sep)->0.fields.dom().contains((n, Some(l.label))),
        merge_model(l, r, sep)->0.fields.dom().contains((n, Some(r.label))),
        merge_model(l, r, sep)->0.fields[(n, Some(l.label))] == l.fields[(n, None)],
        merge_model(l, r, sep)->0.fields[(n, Some(r.label))] == r.fields[(n, None)],
        forall|q: Seq<char>|
            #[trigger] merge_model(l, r, sep)->0.fields.dom().contains((n, Some(q))) ==> q == l.label
                || q == r.label,
{
    lemma_unqualified_merge_ok(l, r);
    let m = merge_fields(l, r);
    assert(shared(l, r, (n, None)));
    assert(m.dom().contains((n, Some(l.label))));
    assert(m.dom().contains((n, Some(r.label))));
    assert forall|q: Seq<char>| #[trigger] m.dom().contains((n, Some(q))) implies q == l.label || q
        == r.label by {
        assert(!l.fields.dom().contains((n, Some(q))));
        assert(!r.fields.dom().contains((n, Some(q))));
    }
}

/// Projection onto existing fields keeps exactly those fields with their
/// types; projection onto a missing field fails with
/// `InvalidProjectionNames`.
pub proof fn law_projection(n: Node, r: RecordModel, p: Pos)
    requires
        n is Projection,
    ensures
        name_set(n->Projection_1@).subset_of(r.fields.dom()) ==> unary_model(n, r, p) == Ok::<
            RecordModel,
            (ErrorModel, Pos),
        >(RecordModel { fields: r.fields.restrict(name_set(n->Projection_1@)), label: r.label }),
        name_set(n->Projection_1@).subset_of(r.fields.dom()) ==> forall|k: SymbolModel|
            #[trigger] name_set(n->Projection_1@).contains(k) ==> project_model(
                r,
                n->Projection_1@,
            )->0.fields[k] == r.fields[k],
        !name_set(n->Projection_1@).subset_of(r.fields.dom()) ==> unary_model(n, r, p) == fail(
            ErrorModel::InvalidProjectionNames,
            p,
        ),
{
}

/// An equi-join whose first key `k` names a field that both tables have,
/// with types that do not unify, fails naming both qualified fields and
/// both types.
pub proof fn law_equi_join_mismatch(n: Node, l: RecordModel, r: RecordModel, p: Pos, k: Seq<char>)
    requires
        n is EquiJoin,
        n->EquiJoin_2@.len() > 0,
        n->EquiJoin_2@[0]@ == k,
        unqualified(l),
        unqualified(r),
        l.label != r.label,
        l.fields.dom().contains((k, None)),
        r.fields.dom().contains((k, None)),
        unify_model(l.fields[(k, None)], r.fields[(k, None)]) is None,
    ensures
        binary_model(n, l, r, p) == fail(
            ErrorModel::EquiJoinKeyTypeMismatch(
                (k, Some(l.label)),
                l.fields[(k, None)],
                (k, Some(r.label)),
                r.fields[(k, None)],
            ),
            p,
        ),
{
    lemma_unqualified_merge_ok(l, r);
    let m = merge_model(l, r, "*"@)->0;
    assert(shared(l, r, (k, None)));
    assert(m.fields.dom().contains((k, Some(l.label))));
    assert(m.fields.dom().contains((k, Some(r.label))));
    assert(!l.fields.dom().contains((k, Some(l.label))));
    assert(!r.fields.dom().contains((k, Some(l.label))));
    assert(!l.fields.dom().contains((k, Some(r.label))));
    assert(!r.fields.dom().contains((k, Some(r.label))));
    assert(m.fields[(k, Some(l.label))] == l.fields[(k, None)]);
    assert(m.fields[(k, Some(r.label))] == r.fields[(k, None)]);
}

proof fn lemma_equi_error_found(m: RecordModel, ll: Seq<char>, rl: Seq<char>, keys: Seq<String>, i: int)
    requires
        0 <= i < keys.len(),
        !m.fields.dom().contains((keys[i]@, Some(ll))) || !m.fields.dom().contains(
            (keys[i]@, Some(rl)),
        ) || unify_model(m.fields[(keys[i]@, Some(ll))], m.fields[(keys[i]@, Some(rl))]) is None,
    ensures
        equi_error(m, ll, rl, keys) is Some,
    decreases keys.len(),
{
    if i > 0 {
        assert(keys.drop_first()[i - 1] == keys[i]);
        lemma_equi_error_found(m, ll, rl, keys.drop_first(), i - 1);
    }
}

/// An equi-join that lists, at any place, a key naming a field that both
/// tables have with types that do not unify, fails.
pub proof fn law_equi_join_fails(n: Node, l: RecordModel, r: RecordModel, p: Pos, i: int)
    requires
        n is EquiJoin,
        0 <= i < n->EquiJoin_2@.len(),
        unqualified(l),
        unqualified(r),
        l.label != r.label,
        l.fields.dom().contains((n->EquiJoin_2@[i]@, None)),
        r.fields.dom().contains((n->EquiJoin_2@[i]@, None)),
        unify_model(
            l.fields[(n->EquiJoin_2@[i]@, None)],
            r.fields[(n->EquiJoin_2@[i]@, None)],
        ) is None,
    ensures
        binary_model(n, l, r, p) is Err,
{
    let k = n->EquiJoin_2@[i]@;
    lemma_unqualified_merge_ok(l, r);
    let m = merge_model(l, r, "*"@)->0;
    assert(shared(l, r, (k, None)));
    assert(m.fields.dom().contains((k, Some(l.label))));
    assert(m.fields.dom().contains((k, Some(r.label))));
    assert(!l.fields.dom().contains((k, Some(l.label))));
    assert(!r.fields.dom().contains((k, Some(l.label))));
    assert(!l.fields.dom().contains((k, Some(r.label))));
    assert(!r.fields.dom().contains((k, Some(r.label))));
    lemma_equi_error_found(m, l.label, r.label, n->EquiJoin_2@, i);
}

/// A finite non-empty set of symbols has a least element.
pub proof fn lemma_least_symbol(s: Set<SymbolModel>)
    requires
        s.finite(),
        s.len() > 0,
    ensures
        exists|m: SymbolModel|
            s.contains(m) && forall|k: SymbolModel| s.contains(k) ==> !symbol_lt(k, m),
    decreases s.len(),
{
    let x = s.choose();
    let rest = s.remove(x);
    if rest.len() == 0 {
        assert forall|k: SymbolModel| s.contains(k) implies !symbol_lt(k, x) by {
            if k != x {
                assert(rest.contains(k));
            }
            lemma_symbol_lt_order(x, x, x);
        }
    } else {
        lemma_least_symbol(rest);
        let m = choose|m: SymbolModel|
            rest.contains(m) && forall|k: SymbolModel| rest.contains(k) ==> !symbol_lt(k, m);
        if symbol_lt(x, m) {
            assert forall|k: SymbolModel| s.contains(k) implies !symbol_lt(k, x) by {
                lemma_symbol_lt_order(k, x, m);
                if k != x {
                    assert(rest.contains(k));
                }
            }
        } else {
            assert forall|k: SymbolModel| s.contains(k) implies !symbol_lt(k, m) by {
                if k != x {
                    assert(rest.contains(k));
                }
            }
        }
    }
}

/// A natural join of two relations that share a field `k` whose types do
/// not unify fails; the error names both qualified fields and both types of
/// the least such field, which is `k` when `k` is the only one.
pub proof fn law_nature_join_mismatch(n: Node, l: RecordModel, r: RecordModel, p: Pos, k: SymbolModel)
    requires
        n is NatureJoin,
        l.fields.dom().finite(),
        nature_fails(l, r, k),
    ensures
        binary_model(n, l, r, p) == fail(nature_error(l, r), p),
        exists|j: SymbolModel|
            nature_fails(l, r, j) && nature_error(l, r) == ErrorModel::EquiJoinKeyTypeMismatch(
                qualify(j, l.label),
                l.fields[j],
                qualify(j, r.label),
                r.fields[j],
            ),
        (forall|j: SymbolModel| nature_fails(l, r, j) ==> j == k) ==> nature_error(l, r)
            == ErrorModel::EquiJoinKeyTypeMismatch(
            qualify(k, l.label),
            l.fields[k],
            qualify(k, r.label),
            r.fields[k],
        ),
{
    let fs = l.fields.dom().filter(|x: SymbolModel| nature_fails(l, r, x));
    assert(fs.subset_of(l.fields.dom()));
    vstd::set_lib::lemma_len_subset(fs, l.fields.dom());
    assert(fs.contains(k));
    assert(fs.len() > 0);
    lemma_least_symbol(fs);
    let j = least_nature_failure(l, r);
    assert(nature_fails(l, r, j));
}

/// A natural join whose shared fields all unify succeeds, whatever the
/// labels of its inputs: each shared field appears once, unqualified, with
/// the unified type, and every other field as it is.
pub proof fn law_nature_join(n: Node, l: RecordModel, r: RecordModel, p: Pos)
    requires
        n is NatureJoin,
        nature_ok(l, r),
    ensures
        binary_model(n, l, r, p) == Ok::<RecordModel, (ErrorModel, Pos)>(
            RecordModel { fields: nature_fields(l, r), label: l.label + "*"@ + r.label },
        ),
        forall|k: SymbolModel|
            #![trigger nature_fields(l, r)[k]]
            shared(l, r, k) ==> nature_fields(l, r).dom().contains(k) && nature_fields(l, r)[k]
                == unify_model(l.fields[k], r.fields[k])->0,
        forall|k: SymbolModel|
            #![trigger nature_fields(l, r)[k]]
            l.fields.dom().contains(k) && !r.fields.dom().contains(k) ==> nature_fields(
                l,
                r,
            ).dom().contains(k) && nature_fields(l, r)[k] == l.fields[k],
        forall|k: SymbolModel|
            #![trigger nature_fields(l, r)[k]]
            r.fields.dom().contains(k) && !l.fields.dom().contains(k) ==> nature_fields(
                l,
                r,
            ).dom().contains(k) && nature_fields(l, r)[k] == r.fields[k],
{
}

/// Scalar unification does not depend on the order of its arguments.
pub proof fn law_simple_unify_symmetric(a: SimpleModel, b: SimpleModel)
    ensures
        simple_unify(a, b) == simple_unify(b, a),
{
    match (a, b) {
        (SimpleModel::Int(x), SimpleModel::Int(y)) => {
            assert(refinement_unify(x, y) == refinement_unify(y, x));
        },
        (SimpleModel::Uint(x), SimpleModel::Uint(y)) => {
            assert(refinement_unify(x, y) == refinement_unify(y, x));
        },
        (SimpleModel::String(x), SimpleModel::String(y)) => {
            if x.subset_of(y) && y.subset_of(x) {
                assert(x =~= y);
            }
            assert(literals_unify(x, y) == literals_unify(y, x));
        },
        _ => {},
    }
}

/// Unification does not depend on the order of its arguments: one order
/// succeeds exactly when the other does, with the same type.
pub proof fn law_unify_symmetric(a: TypeModel, b: TypeModel)
    ensures
        unify_model(a, b) == unify_model(b, a),
    decreases a, b,
{
    match (a, b) {
        (TypeModel::Optional(x), TypeModel::Optional(y)) => law_unify_symmetric(*x, *y),
        (TypeModel::Optional(x), _) => law_unify_symmetric(*x, b),
        (_, TypeModel::Optional(y)) => law_unify_symmetric(a, *y),
        (TypeModel::Record(x), TypeModel::Record(y)) => {
            assert forall|k: SymbolModel| x.dom().contains(k) && y.dom().contains(k) implies unify_model(
                x[k],
                y[k],
            ) == unify_model(y[k], x[k]) by {
                law_unify_symmetric(x[k], y[k]);
            }
            lemma_record_unify_symmetric(a, b);
        },
        (TypeModel::Table(x), TypeModel::Table(y)) => {
            assert forall|k: SymbolModel| x.dom().contains(k) && y.dom().contains(k) implies unify_model(
                x[k],
                y[k],
            ) == unify_model(y[k], x[k]) by {
                law_unify_symmetric(x[k], y[k]);
            }
            lemma_record_unify_symmetric(a, b);
        },
        (TypeModel::Simple(x), TypeModel::Simple(y)) => law_simple_unify_symmetric(x, y),
        _ => {},
    }
}

proof fn lemma_record_unify_symmetric(a: TypeModel, b: TypeModel)
    requires
        a is Record && b is Record || a is Table && b is Table,
        forall|k: SymbolModel|
            crate::type_system::unify::fields_of(a).dom().contains(k)
                && crate::type_system::unify::fields_of(b).dom().contains(k) ==> unify_model(
                crate::type_system::unify::fields_of(a)[k],
                crate::type_system::unify::fields_of(b)[k],
            ) == unify_model(
                crate::type_system::unify::fields_of(b)[k],
                crate::type_system::unify::fields_of(a)[k],
            ),
    ensures
        record_unify(a, b) == record_unify(b, a),
{
    let fa = crate::type_system::unify::fields_of(a);
    let fb = crate::type_system::unify::fields_of(b);
    if record_unify(a, b) is Some && record_unify(b, a) is Some {
        assert(record_unify(a, b)->0 =~= record_unify(b, a)->0);
    }
}

/// Record unification is symmetric: `unify(x, y)` succeeds exactly when
/// `unify(y, x)` does, and both give the same fields.
pub proof fn law_record_unify_symmetric(x: Map<SymbolModel, TypeModel>, y: Map<SymbolModel, TypeModel>)
    ensures
        fields_unify(x, y) is Some <==> fields_unify(y, x) is Some,
        fields_unify(x, y) == fields_unify(y, x),
{
    law_unify_symmetric(TypeModel::Record(x), TypeModel::Record(y));
}

} // verus!
