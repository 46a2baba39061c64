//! Projection, division, aggregates and the join checks.
use vstd::prelude::*;
use vstd::string::*;

use crate::structs::{lemma_symbol_lt_order, symbol_lt, Symbol, SymbolModel};
use crate::type_system::unify::{
    lemma_merged_push, lemma_resolved_pair, merged_fields, merged_value, resolved, unify_model,
    unify_type,
};
use crate::type_system::{
    fields_map, find_field, has_key, keys_unique, lemma_fields_map_empty, lemma_fields_map_push,
    lemma_has_key_push, lemma_key_at, lemma_record_model, model, wf, ErrorModel, Record,
    RecordModel, SimpleModel, SimpleType, Type, TypeError, TypeModel,
};
use crate::type_check::merge::{qualify, shared};
use crate::type_check::lemma_resolved_field;

verus! {

/// The names that `names` lists.
pub open spec fn name_set(names: Seq<Symbol>) -> Set<SymbolModel> {
    Set::new(|k: SymbolModel| exists|j: int| 0 <= j < names.len() && names[j]@ == k)
}

proof fn lemma_name_set_push(names: Seq<Symbol>, x: Symbol)
    ensures
        name_set(names.push(x)) == name_set(names).insert(x@),
{
    let ns = names.push(x);
    assert forall|k: SymbolModel| name_set(ns).contains(k) <==> name_set(names).insert(x@).contains(k) by {
        if name_set(ns).contains(k) {
            let j = choose|j: int| 0 <= j < ns.len() && ns[j]@ == k;
            if j < names.len() {
                assert(names[j]@ == k);
            }
        }
        if name_set(names).contains(k) {
            let j = choose|j: int| 0 <= j < names.len() && names[j]@ == k;
            assert(ns[j]@ == k);
        }
        if k == x@ {
            assert(ns[names.len() as int]@ == k);
        }
    }
    assert(name_set(ns) =~= name_set(names).insert(x@));
}

/// Projection keeps the listed fields, which must all exist.
pub open spec fn project_model(r: RecordModel, names: Seq<Symbol>) -> Option<RecordModel> {
    if name_set(names).subset_of(r.fields.dom()) {
        Some(RecordModel { fields: r.fields.restrict(name_set(names)), label: r.label })
    } else {
        None
    }
}

/// Projection of a schema onto the fields `names`.
pub fn project(rec: &Record, names: &Vec<Symbol>) -> (out: Result<Record, TypeError>)
    requires
        rec.wf(),
    ensures
        match project_model(rec@, names@) {
            Some(m) => out is Ok && out->Ok_0@ == m && out->Ok_0.wf(),
            None => out is Err && out->Err_0 is InvalidProjectionNames,
        },
{
    let ghost rm = rec@;
    proof {
        lemma_record_model(*rec);
        assert(keys_unique(rec.fields@));
    }
    let mut i: usize = 0;
    while i < names.len()
        invariant
            i <= names.len(),
            rm.fields == fields_map(rec.fields@),
            forall|j: int| 0 <= j < i ==> rm.fields.dom().contains(#[trigger] names@[j]@),
        decreases names.len() - i,
    {
        if find_field(&rec.fields, &names[i]).is_none() {
            proof {
                assert(name_set(names@).contains(names@[i as int]@));
            }
            return Err(TypeError::InvalidProjectionNames);
        }
        i += 1;
    }
    let mut out: Vec<(Symbol, Type)> = Vec::new();
    let mut i: usize = 0;
    proof {
        lemma_fields_map_empty();
        assert(rm.fields.restrict(name_set(names@.take(0))) =~= Map::empty());
    }
    while i < names.len()
        invariant
            rec.wf(),
            keys_unique(rec.fields@),
            i <= names.len(),
            rm.fields == fields_map(rec.fields@),
            rm == rec@,
            forall|j: int| 0 <= j < names@.len() ==> rm.fields.dom().contains(#[trigger] names@[j]@),
            keys_unique(out@),
            forall|j: int| 0 <= j < out@.len() ==> wf(#[trigger] out@[j].1),
            fields_map(out@) == rm.fields.restrict(name_set(names@.take(i as int))),
        decreases names.len() - i,
    {
        let ghost k = names@[i as int]@;
        proof {
            assert(names@.take(i + 1) =~= names@.take(i as int).push(names@[i as int]));
            lemma_name_set_push(names@.take(i as int), names@[i as int]);
        }
        if find_field(&out, &names[i]).is_none() {
            match find_field(&rec.fields, &names[i]) {
                Some(j) => {
                    proof {
                        lemma_key_at(rec.fields@, j as int);
                        assert(wf(rec.fields[j as int].1));
                    }
                    let key = rec.fields[j].0.copy();
                    let t = rec.fields[j].1.copy();
                    proof {
                        lemma_fields_map_push(out@, (key, t));
                        assert(fields_map(out@.push((key, t))) =~= rm.fields.restrict(name_set(names@.take(i + 1))));
                    }
                    out.push((key, t));
                },
                None => {
                    proof {
                        assert(rm.fields.dom().contains(names@[i as int]@));
                    }
                },
            }
        } else {
            proof {
                assert(fields_map(out@).dom().contains(k));
                assert(fields_map(out@) =~= rm.fields.restrict(name_set(names@.take(i + 1))));
            }
        }
        i += 1;
    }
    let res = Record { fields: out, label: rec.label.clone() };
    proof {
        assert(names@.take(i as int) =~= names@);
        lemma_record_model(res);
    }
    Ok(res)
}

/// Division: the divisor's fields must all be fields of the dividend with the
/// same types; the result drops them.
pub open spec fn divide_model(l: RecordModel, r: RecordModel, sep: Seq<char>) -> Option<RecordModel> {
    if forall|k: SymbolModel| #[trigger]
        r.fields.dom().contains(k) ==> l.fields.dom().contains(k) && l.fields[k] == r.fields[k] {
        Some(
            RecordModel {
                fields: l.fields.remove_keys(r.fields.dom()),
                label: l.label + sep + r.label,
            },
        )
    } else {
        None
    }
}

/// Division of the schema `l` by the schema `r`.
pub fn divide(l: &Record, r: &Record, sep: &str) -> (out: Result<Record, TypeError>)
    requires
        l.wf(),
        r.wf(),
    ensures
        match divide_model(l@, r@, sep@) {
            Some(m) => out is Ok && out->Ok_0@ == m && out->Ok_0.wf(),
            None => out is Err && out->Err_0@ == ErrorModel::SchemaMismatch(l@, r@),
        },
{
    let ghost lm = l@;
    let ghost rm = r@;
    proof {
        lemma_record_model(*l);
        lemma_record_model(*r);
        assert(keys_unique(l.fields@));
        assert(keys_unique(r.fields@));
    }
    let mut i: usize = 0;
    while i < r.fields.len()
        invariant
            l.wf(),
            r.wf(),
            keys_unique(l.fields@),
            keys_unique(r.fields@),
            lm == l@,
            rm == r@,
            lm.fields == fields_map(l.fields@),
            rm.fields == fields_map(r.fields@),
            i <= r.fields.len(),
            forall|j: int|
                0 <= j < i ==> lm.fields.dom().contains(#[trigger] r.fields@[j].0@)
                    && lm.fields[r.fields@[j].0@] == rm.fields[r.fields@[j].0@],
        decreases r.fields.len() - i,
    {
        proof {
            lemma_key_at(r.fields@, i as int);
            assert(wf(r.fields[i as int].1));
        }
        let ok = match find_field(&l.fields, &r.fields[i].0) {
            None => false,
            Some(j) => {
                proof {
                    lemma_key_at(l.fields@, j as int);
                    assert(wf(l.fields[j as int].1));
                }
                crate::type_system::unify::type_equal(&l.fields[j].1, &r.fields[i].1)
            },
        };
        if !ok {
            return Err(TypeError::SchemaMismatch(l.copy(), r.copy()));
        }
        i += 1;
    }
    proof {
        assert forall|k: SymbolModel| #[trigger]
            rm.fields.dom().contains(k) implies lm.fields.dom().contains(k) && lm.fields[k] == rm.fields[k] by {
            let j = choose|j: int| 0 <= j < r.fields@.len() && r.fields@[j].0@ == k;
            assert(lm.fields.dom().contains(r.fields@[j].0@));
        }
    }
    let mut out: Vec<(Symbol, Type)> = Vec::new();
    let mut m: usize = 0;
    proof {
        lemma_fields_map_empty();
        assert(lm.fields.remove_keys(rm.fields.dom()).restrict(Set::new(|k: SymbolModel| has_key(l.fields@.take(0), k))) =~= Map::empty());
    }
    while m < l.fields.len()
        invariant
            l.wf(),
            r.wf(),
            keys_unique(l.fields@),
            keys_unique(r.fields@),
            lm == l@,
            rm == r@,
            lm.fields == fields_map(l.fields@),
            rm.fields == fields_map(r.fields@),
            m <= l.fields.len(),
            keys_unique(out@),
            forall|j: int| 0 <= j < out@.len() ==> wf(#[trigger] out@[j].1),
            fields_map(out@) == lm.fields.remove_keys(rm.fields.dom()).restrict(
                Set::new(|k: SymbolModel| has_key(l.fields@.take(m as int), k)),
            ),
        decreases l.fields.len() - m,
    {
        let ghost pre = l.fields@.take(m as int);
        let ghost km = l.fields@[m as int].0@;
        proof {
            lemma_key_at(l.fields@, m as int);
            assert(l.fields@.take(m + 1) =~= pre.push(l.fields@[m as int]));
            assert forall|k2: SymbolModel|
                has_key(l.fields@.take(m + 1), k2) <==> (has_key(pre, k2) || k2 == km) by {
                lemma_has_key_push(pre, l.fields@[m as int], k2);
            }
            assert(!has_key(pre, km)) by {
                if has_key(pre, km) {
                    let j = choose|j: int| 0 <= j < pre.len() && pre[j].0@ == km;
                    assert(l.fields@[j].0@ == km);
                }
            }
        }
        if find_field(&r.fields, &l.fields[m].0).is_none() {
            proof {
                assert(wf(l.fields[m as int].1));
            }
            let key = l.fields[m].0.copy();
            let t = l.fields[m].1.copy();
            proof {
                assert(!fields_map(out@).dom().contains(km));
                lemma_fields_map_push(out@, (key, t));
                assert(fields_map(out@.push((key, t))) =~= lm.fields.remove_keys(rm.fields.dom()).restrict(
                    Set::new(|k: SymbolModel| has_key(l.fields@.take(m + 1), k)),
                ));
            }
            out.push((key, t));
        } else {
            proof {
                assert(fields_map(out@) =~= lm.fields.remove_keys(rm.fields.dom()).restrict(
                    Set::new(|k: SymbolModel| has_key(l.fields@.take(m + 1), k)),
                ));
            }
        }
        m += 1;
    }
    let label = l.label.clone().concat(sep).concat(r.label.as_str());
    let res = Record { fields: out, label };
    proof {
        assert(l.fields@.take(m as int) =~= l.fields@);
        lemma_record_model(res);
        assert(res@.fields =~= lm.fields.remove_keys(rm.fields.dom()));
    }
    Ok(res)
}

/// A schema of one field.
pub open spec fn single(k: SymbolModel, t: SimpleModel, label: Seq<char>) -> RecordModel {
    RecordModel {
        fields: Map::<SymbolModel, TypeModel>::empty().insert(k, TypeModel::Simple(t)),
        label,
    }
}

/// The schema of an aggregate over field `f`: the field's numeric kind, or
/// `Float` for an average.
pub open spec fn aggregate_model(r: RecordModel, f: SymbolModel, avg: bool) -> Result<
    RecordModel,
    ErrorModel,
> {
    if !r.fields.dom().contains(f) {
        Err(ErrorModel::FieldNotFound(f))
    } else {
        match r.fields[f] {
            TypeModel::Simple(SimpleModel::Int(_)) => Ok(
                single(f, if avg { SimpleModel::Float } else { SimpleModel::Int(None) }, r.label),
            ),
            TypeModel::Simple(SimpleModel::Uint(_)) => Ok(
                single(f, if avg { SimpleModel::Float } else { SimpleModel::Uint(None) }, r.label),
            ),
            TypeModel::Simple(SimpleModel::Float) => Ok(single(f, SimpleModel::Float, r.label)),
            t => Err(ErrorModel::NotNumeric(f, t)),
        }
    }
}

fn single_record(k: Symbol, t: SimpleType, label: String) -> (r: Record)
    ensures
        r@ == single(k@, t@, label@),
        r.wf(),
{
    let mut fields: Vec<(Symbol, Type)> = Vec::new();
    let ty = Type::Simple(t);
    proof {
        lemma_fields_map_empty();
        lemma_fields_map_push(fields@, (k, ty));
    }
    fields.push((k, ty));
    let r = Record { fields, label };
    proof {
        lemma_record_model(r);
        assert(r@.fields =~= single(k@, t@, label@).fields);
        assert(wf(r.fields@[0].1));
        assert(r.fields@.len() == 1);
        assert(forall|i: int| 0 <= i < r.fields@.len() ==> wf(#[trigger] r.fields[i].1));
    }
    r
}

/// The schema of an aggregate over the field `f` of `rec`.
pub fn aggregate(rec: &Record, f: &Symbol, avg: bool) -> (out: Result<Record, TypeError>)
    requires
        rec.wf(),
    ensures
        match aggregate_model(rec@, f@, avg) {
            Ok(m) => out is Ok && out->Ok_0@ == m && out->Ok_0.wf(),
            Err(e) => out is Err && out->Err_0@ == e,
        },
{
    proof {
        lemma_record_model(*rec);
        assert(keys_unique(rec.fields@));
    }
    match find_field(&rec.fields, f) {
        None => Err(TypeError::FieldNotFound(f.copy())),
        Some(j) => {
            proof {
                lemma_key_at(rec.fields@, j as int);
            }
            match &rec.fields[j].1 {
                Type::Simple(SimpleType::Int(_)) => {
                    let t = if avg {
                        SimpleType::Float
                    } else {
                        SimpleType::Int(None)
                    };
                    Ok(single_record(f.copy(), t, rec.label.clone()))
                },
                Type::Simple(SimpleType::Uint(_)) => {
                    let t = if avg {
                        SimpleType::Float
                    } else {
                        SimpleType::Uint(None)
                    };
                    Ok(single_record(f.copy(), t, rec.label.clone()))
                },
                Type::Simple(SimpleType::Float) => Ok(
                    single_record(f.copy(), SimpleType::Float, rec.label.clone()),
                ),
                _ => {
                    proof {
                        assert(wf(rec.fields[j as int].1));
                    }
                    Err(TypeError::NotNumeric(f.copy(), rec.fields[j].1.copy()))
                },
            }
        },
    }
}

/// The schema of a count: one unnamed integer field.
pub fn count(rec: &Record) -> (out: Record)
    ensures
        out@ == single((Seq::<char>::empty(), None), SimpleModel::Int(None), rec.label@),
        out.wf(),
{
    single_record(Symbol(String::new(), None), SimpleType::Int(None), rec.label.clone())
}

/// The first join key whose two qualified fields are missing from the merged
/// schema `m`, or do not unify.
pub open spec fn equi_error(m: RecordModel, ll: Seq<char>, rl: Seq<char>, keys: Seq<String>) -> Option<
    ErrorModel,
>
    decreases keys.len(),
{
    if keys.len() == 0 {
        None
    } else {
        let k = keys[0]@;
        let ql = (k, Some(ll));
        let qr = (k, Some(rl));
        if !m.fields.dom().contains(ql) || !m.fields.dom().contains(qr) {
            Some(ErrorModel::FieldNotFound((k, None)))
        } else if unify_model(m.fields[ql], m.fields[qr]) is None {
            Some(ErrorModel::EquiJoinKeyTypeMismatch(ql, m.fields[ql], qr, m.fields[qr]))
        } else {
            equi_error(m, ll, rl, keys.drop_first())
        }
    }
}

/// Checks the keys of an equi-join against the merged schema `m` of the
/// sides labelled `ll` and `rl`.
pub fn check_join_keys(m: &Record, ll: &String, rl: &String, keys: &Vec<String>) -> (out: Result<
    (),
    TypeError,
>)
    requires
        m.wf(),
        resolved(TypeModel::Record(m@.fields)),
    ensures
        match equi_error(m@, ll@, rl@, keys@) {
            None => out is Ok,
            Some(e) => out is Err && out->Err_0@ == e,
        },
{
    proof {
        lemma_record_model(*m);
        assert(keys_unique(m.fields@));
    }
    let ghost mm = m@;
    let mut i: usize = 0;
    proof {
        assert(keys@.skip(0) =~= keys@);
    }
    while i < keys.len()
        invariant
            m.wf(),
            mm == m@,
            mm.fields == fields_map(m.fields@),
            keys_unique(m.fields@),
            resolved(TypeModel::Record(mm.fields)),
            i <= keys.len(),
            equi_error(mm, ll@, rl@, keys@) == equi_error(mm, ll@, rl@, keys@.skip(i as int)),
        decreases keys.len() - i,
    {
        let ghost rest = keys@.skip(i as int);
        proof {
            assert(rest[0] == keys@[i as int]);
            assert(rest.drop_first() =~= keys@.skip(i + 1));
        }
        let ql = Symbol(keys[i].clone(), Some(ll.clone()));
        let qr = Symbol(keys[i].clone(), Some(rl.clone()));
        let jl = find_field(&m.fields, &ql);
        let jr = find_field(&m.fields, &qr);
        match (jl, jr) {
            (Some(a), Some(b)) => {
                proof {
                    lemma_key_at(m.fields@, a as int);
                    lemma_key_at(m.fields@, b as int);
                    assert(wf(m.fields[a as int].1));
                    assert(wf(m.fields[b as int].1));
                    lemma_resolved_pair(mm.fields[ql@], mm.fields[qr@]);
                }
                if unify_type(&m.fields[a].1, &m.fields[b].1).is_err() {
                    return Err(
                        TypeError::EquiJoinKeyTypeMismatch(
                            ql,
                            m.fields[a].1.copy(),
                            qr,
                            m.fields[b].1.copy(),
                        ),
                    );
                }
            },
            _ => {
                return Err(TypeError::FieldNotFound(Symbol(keys[i].clone(), None)));
            },
        }
        i += 1;
    }
    proof {
        assert(keys@.skip(i as int).len() == 0);
    }
    Ok(())
}

/// Field `k` is shared and its two types do not unify.
pub open spec fn nature_fails(l: RecordModel, r: RecordModel, k: SymbolModel) -> bool {
    shared(l, r, k) && unify_model(l.fields[k], r.fields[k]) is None
}

/// The least field, in the order of symbols, on which a natural join fails.
pub open spec fn least_nature_failure(l: RecordModel, r: RecordModel) -> SymbolModel {
    choose|k: SymbolModel|
        nature_fails(l, r, k) && forall|k2: SymbolModel|
            nature_fails(l, r, k2) ==> !symbol_lt(k2, k)
}

/// A natural join fails on its least failing shared field; the error names
/// both qualified fields and both types.
pub open spec fn nature_error(l: RecordModel, r: RecordModel) -> ErrorModel {
    let k = least_nature_failure(l, r);
    ErrorModel::EquiJoinKeyTypeMismatch(
        qualify(k, l.label),
        l.fields[k],
        qualify(k, r.label),
        r.fields[k],
    )
}

/// Checks that every shared field of two schemas unifies; otherwise gives
/// the error for the least field that does not.
pub fn nature_failure(l: &Record, r: &Record) -> (out: Option<TypeError>)
    requires
        l.wf(),
        r.wf(),
        resolved(TypeModel::Record(l@.fields)),
        resolved(TypeModel::Record(r@.fields)),
    ensures
        out is None <==> nature_ok(l@, r@),
        out is Some ==> out->0@ == nature_error(l@, r@),
{
    let ghost lm = l@;
    let ghost rm = r@;
    proof {
        lemma_record_model(*l);
        lemma_record_model(*r);
        assert(keys_unique(l.fields@));
        assert(keys_unique(r.fields@));
    }
    let mut best: Option<(usize, usize)> = None;
    let mut i: usize = 0;
    while i < l.fields.len()
        invariant
            l.wf(),
            r.wf(),
            lm == l@,
            rm == r@,
            lm.fields == fields_map(l.fields@),
            rm.fields == fields_map(r.fields@),
            keys_unique(l.fields@),
            keys_unique(r.fields@),
            resolved(TypeModel::Record(lm.fields)),
            resolved(TypeModel::Record(rm.fields)),
            i <= l.fields.len(),
            best is None ==> forall|k: SymbolModel|
                has_key(l.fields@.take(i as int), k) ==> !nature_fails(lm, rm, k),
            best matches Some((bi, bj)) ==> {
                &&& bi < i
                &&& bj < r.fields@.len()
                &&& r.fields@[bj as int].0@ == l.fields@[bi as int].0@
                &&& nature_fails(lm, rm, l.fields@[bi as int].0@)
                &&& forall|k: SymbolModel|
                    has_key(l.fields@.take(i as int), k) && nature_fails(lm, rm, k) ==> !symbol_lt(
                        k,
                        l.fields@[bi as int].0@,
                    )
            },
        decreases l.fields.len() - i,
    {
        let ghost k = l.fields@[i as int].0@;
        let ghost pre = l.fields@.take(i as int);
        proof {
            lemma_key_at(l.fields@, i as int);
            assert(l.fields@.take(i + 1) =~= pre.push(l.fields@[i as int]));
            assert forall|k2: SymbolModel| has_key(l.fields@.take(i + 1), k2) <==> (has_key(pre, k2) || k2 == k) by {
                lemma_has_key_push(pre, l.fields@[i as int], k2);
            }
        }
        match find_field(&r.fields, &l.fields[i].0) {
            Some(j) => {
                proof {
                    lemma_key_at(r.fields@, j as int);
                    assert(wf(l.fields[i as int].1));
                    assert(wf(r.fields[j as int].1));
                    lemma_resolved_field(lm.fields, k);
                    lemma_resolved_field(rm.fields, k);
                    lemma_resolved_pair(lm.fields[k], rm.fields[k]);
                }
                if unify_type(&l.fields[i].1, &r.fields[j].1).is_err() {
                    proof {
                        assert(nature_fails(lm, rm, k));
                    }
                    let better = match best {
                        None => true,
                        Some((bi, _)) => l.fields[i].0.less(&l.fields[bi].0),
                    };
                    if better {
                        proof {
                            if let Some((bi, _)) = best {
                                let kb = l.fields@[bi as int].0@;
                                assert forall|k2: SymbolModel|
                                    has_key(l.fields@.take(i + 1), k2) && nature_fails(lm, rm, k2)
                                        implies !symbol_lt(k2, k) by {
                                    lemma_symbol_lt_order(k2, k, kb);
                                    lemma_symbol_lt_order(k, k, k);
                                }
                            } else {
                                assert forall|k2: SymbolModel|
                                    has_key(l.fields@.take(i + 1), k2) && nature_fails(lm, rm, k2)
                                        implies !symbol_lt(k2, k) by {
                                    lemma_symbol_lt_order(k, k, k);
                                }
                            }
                        }
                        best = Some((i, j));
                    } else {
                        proof {
                            let (bi, _) = best->0;
                            let kb = l.fields@[bi as int].0@;
                            assert(!symbol_lt(k, kb));
                        }
                    }
                } else {
                    proof {
                        assert(!nature_fails(lm, rm, k));
                    }
                }
            },
            None => {
                proof {
                    assert(!nature_fails(lm, rm, k));
                }
            },
        }
        i += 1;
    }
    proof {
        assert(l.fields@.take(i as int) =~= l.fields@);
        assert forall|k: SymbolModel| nature_fails(lm, rm, k) implies has_key(l.fields@, k) by {}
    }
    match best {
        None => {
            proof {
                assert forall|k: SymbolModel|
                    #![trigger lm.fields[k], rm.fields[k]]
                    shared(lm, rm, k) implies unify_model(lm.fields[k], rm.fields[k]) is Some by {
                    assert(has_key(l.fields@, k));
                    assert(!nature_fails(lm, rm, k));
                }
            }
            None
        },
        Some((bi, bj)) => {
            let name = &l.fields[bi].0.0;
            let ql = Symbol(name.clone(), Some(l.label.clone()));
            let qr = Symbol(name.clone(), Some(r.label.clone()));
            proof {
                lemma_key_at(l.fields@, bi as int);
                lemma_key_at(r.fields@, bj as int);
                assert(wf(l.fields[bi as int].1));
                assert(wf(r.fields[bj as int].1));
                let kb = l.fields@[bi as int].0@;
                let c = least_nature_failure(lm, rm);
                assert(nature_fails(lm, rm, c)) by {
                    assert(nature_fails(lm, rm, kb) && forall|k2: SymbolModel|
                        nature_fails(lm, rm, k2) ==> !symbol_lt(k2, kb));
                }
                lemma_symbol_lt_order(c, kb, c);
                assert(c == kb);
                assert(kb.1 is None || true);
            }
            let e = TypeError::EquiJoinKeyTypeMismatch(
                ql,
                l.fields[bi].1.copy(),
                qr,
                r.fields[bj].1.copy(),
            );
            proof {
                let kb = l.fields@[bi as int].0@;
                assert(ql@ == qualify(kb, lm.label));
                assert(nature_fails(lm, rm, kb));
                assert(!nature_ok(lm, rm));
            }
            Some(e)
        },
    }
}

/// Every shared field unifies.
pub open spec fn nature_ok(l: RecordModel, r: RecordModel) -> bool {
    forall|k: SymbolModel|
        #![trigger l.fields[k], r.fields[k]]
        shared(l, r, k) ==> unify_model(l.fields[k], r.fields[k]) is Some
}

/// The fields of a natural join: each shared field once, unqualified, with
/// the unified type; the others as they are.
pub open spec fn nature_fields(l: RecordModel, r: RecordModel) -> Map<SymbolModel, TypeModel> {
    Map::new(
        |k: SymbolModel| l.fields.dom().contains(k) || r.fields.dom().contains(k),
        |k: SymbolModel| merged_value(l.fields, r.fields, k),
    )
}

/// The fields of a natural join of two schemas whose merge succeeds.
pub fn nature_join_fields(l: &Record, r: &Record) -> (out: Vec<(Symbol, Type)>)
    requires
        l.wf(),
        r.wf(),
        resolved(TypeModel::Record(l@.fields)),
        resolved(TypeModel::Record(r@.fields)),
        nature_ok(l@, r@),
    ensures
        fields_map(out@) == nature_fields(l@, r@),
        keys_unique(out@),
        forall|j: int| 0 <= j < out@.len() ==> wf(#[trigger] out@[j].1),
{
    let ghost lm = l@;
    let ghost rm = r@;
    let ghost ma = l@.fields;
    let ghost mb = r@.fields;
    proof {
        lemma_record_model(*l);
        lemma_record_model(*r);
        assert(keys_unique(l.fields@));
        assert(keys_unique(r.fields@));
    }
    let mut out: Vec<(Symbol, Type)> = Vec::new();
    let mut i: usize = 0;
    proof {
        lemma_fields_map_empty();
        assert(merged_fields(ma, mb, l.fields@.take(0)) =~= Map::empty());
    }
    while i < l.fields.len()
        invariant
            l.wf(),
            r.wf(),
            lm == l@,
            rm == r@,
            ma == lm.fields,
            mb == rm.fields,
            ma == fields_map(l.fields@),
            mb == fields_map(r.fields@),
            nature_ok(lm, rm),
            resolved(TypeModel::Record(ma)),
            resolved(TypeModel::Record(mb)),
            keys_unique(l.fields@),
            keys_unique(r.fields@),
            i <= l.fields.len(),
            keys_unique(out@),
            forall|j: int| 0 <= j < out@.len() ==> wf(#[trigger] out@[j].1),
            forall|k: SymbolModel|
                #![trigger ma[k], mb[k]]
                has_key(l.fields@.take(i as int), k) && ma.dom().contains(k) && mb.dom().contains(k)
                    ==> unify_model(ma[k], mb[k]) is Some,
            fields_map(out@) == merged_fields(ma, mb, l.fields@.take(i as int)),
        decreases l.fields.len() - i,
    {
        let ghost k = l.fields@[i as int].0@;
        let ghost pre = l.fields@.take(i as int);
        proof {
            lemma_key_at(l.fields@, i as int);
            assert(l.fields@.take(i + 1) =~= pre.push(l.fields@[i as int]));
            assert(!has_key(out@, k)) by {
                if has_key(pre, k) {
                    let j = choose|j: int| 0 <= j < pre.len() && pre[j].0@ == k;
                    assert(l.fields@[j].0@ == k);
                }
                assert(!fields_map(out@).dom().contains(k));
            }
            assert(wf(l.fields[i as int].1));
            assert forall|k2: SymbolModel| has_key(l.fields@.take(i + 1), k2) <==> (has_key(pre, k2) || k2 == k) by {
                lemma_has_key_push(pre, l.fields@[i as int], k2);
            }
        }
        let t = match find_field(&r.fields, &l.fields[i].0) {
            Some(j) => {
                proof {
                    lemma_key_at(r.fields@, j as int);
                    assert(wf(r.fields[j as int].1));
                    lemma_resolved_pair(ma[k], mb[k]);
                }
                match unify_type(&l.fields[i].1, &r.fields[j].1) {
                    Ok(t) => t,
                    Err(_) => {
                        proof {
                            assert(shared(lm, rm, k));
                        }
                        vstd::pervasive::unreached()
                    },
                }
            },
            None => l.fields[i].1.copy(),
        };
        let key = l.fields[i].0.copy();
        proof {
            assert(model(t) == merged_value(ma, mb, k));
            lemma_fields_map_push(out@, (key, t));
            lemma_merged_push(ma, mb, pre, l.fields@[i as int]);
        }
        out.push((key, t));
        i += 1;
    }
    proof {
        assert(l.fields@.take(i as int) =~= l.fields@);
        assert forall|k: SymbolModel| #![trigger ma[k], mb[k]] shared(lm, rm, k) implies unify_model(ma[k], mb[k]) is Some by {
            let j = choose|j: int| 0 <= j < l.fields@.len() && l.fields@[j].0@ == k;
            assert(has_key(l.fields@, k));
        }
    }
    let mut m: usize = 0;
    proof {
        assert(r.fields@.take(0) =~= Seq::<(Symbol, Type)>::empty());
        assert(Map::new(
            |k: SymbolModel| has_key(l.fields@, k) || (has_key(r.fields@.take(0), k) && !ma.dom().contains(k)),
            |k: SymbolModel| merged_value(ma, mb, k),
        ) =~= fields_map(out@));
    }
    while m < r.fields.len()
        invariant
            l.wf(),
            r.wf(),
            ma == fields_map(l.fields@),
            mb == fields_map(r.fields@),
            keys_unique(l.fields@),
            keys_unique(r.fields@),
            m <= r.fields.len(),
            keys_unique(out@),
            forall|j: int| 0 <= j < out@.len() ==> wf(#[trigger] out@[j].1),
            fields_map(out@) == Map::new(
                |k: SymbolModel| has_key(l.fields@, k) || (has_key(r.fields@.take(m as int), k) && !ma.dom().contains(k)),
                |k: SymbolModel| merged_value(ma, mb, k),
            ),
        decreases r.fields.len() - m,
    {
        let ghost pre = r.fields@.take(m as int);
        let ghost km = r.fields@[m as int].0@;
        proof {
            lemma_key_at(r.fields@, m as int);
            assert(r.fields@.take(m + 1) =~= pre.push(r.fields@[m as int]));
            assert forall|k2: SymbolModel| has_key(r.fields@.take(m + 1), k2) <==> (has_key(pre, k2) || k2 == km) by {
                lemma_has_key_push(pre, r.fields@[m as int], k2);
            }
            assert(!has_key(pre, km)) by {
                if has_key(pre, km) {
                    let j = choose|j: int| 0 <= j < pre.len() && pre[j].0@ == km;
                    assert(r.fields@[j].0@ == km);
                }
            }
        }
        if find_field(&l.fields, &r.fields[m].0).is_none() {
            proof {
                assert(wf(r.fields[m as int].1));
            }
            let key = r.fields[m].0.copy();
            let t = r.fields[m].1.copy();
            proof {
                assert(!fields_map(out@).dom().contains(km));
                lemma_fields_map_push(out@, (key, t));
                assert(Map::new(
                    |k: SymbolModel| has_key(l.fields@, k) || (has_key(r.fields@.take(m + 1), k) && !ma.dom().contains(k)),
                    |k: SymbolModel| merged_value(ma, mb, k),
                ) =~= fields_map(out@).insert(km, model(t)));
            }
            out.push((key, t));
        } else {
            proof {
                assert(Map::new(
                    |k: SymbolModel| has_key(l.fields@, k) || (has_key(r.fields@.take(m + 1), k) && !ma.dom().contains(k)),
                    |k: SymbolModel| merged_value(ma, mb, k),
                ) =~= fields_map(out@));
            }
        }
        m += 1;
    }
    proof {
        assert(r.fields@.take(m as int) =~= r.fields@);
        assert(fields_map(out@) =~= nature_fields(lm, rm));
    }
    out
}

} // verus!
