//! Schema merge: combining the fields of two relations for products and joins.
use vstd::prelude::*;
use vstd::string::*;

use crate::structs::{lemma_symbol_lt_order, symbol_lt, Symbol, SymbolModel};
use crate::type_system::{
    ErrorModel,
    fields_map, find_field, has_key, keys_unique, lemma_fields_map_empty, lemma_fields_map_push,
    lemma_has_key_push, lemma_key_at, lemma_record_model, model, wf, Record, RecordModel, Type,
    TypeError, TypeModel,
};

verus! {

/// `k` names a field on both sides.
pub open spec fn shared(l: RecordModel, r: RecordModel, k: SymbolModel) -> bool {
    l.fields.dom().contains(k) && r.fields.dom().contains(k)
}

/// `k` qualified by `label`.
pub open spec fn qualify(k: SymbolModel, label: Seq<char>) -> SymbolModel {
    (k.0, Some(label))
}

/// Whether the merge of `l` and `r` has a field named `k`.
pub open spec fn merge_has(l: RecordModel, r: RecordModel, k: SymbolModel) -> bool {
    (l.fields.dom().contains(k) && !r.fields.dom().contains(k)) || (r.fields.dom().contains(k)
        && !l.fields.dom().contains(k)) || (k.1 == Some(l.label) && shared(l, r, (k.0, None))) || (
    k.1 == Some(r.label) && shared(l, r, (k.0, None)))
}

/// The type of field `k` in the merge of `l` and `r`.
pub open spec fn merge_value(l: RecordModel, r: RecordModel, k: SymbolModel) -> TypeModel {
    if l.fields.dom().contains(k) && !r.fields.dom().contains(k) {
        l.fields[k]
    } else if r.fields.dom().contains(k) && !l.fields.dom().contains(k) {
        r.fields[k]
    } else if k.1 == Some(l.label) {
        l.fields[(k.0, None)]
    } else {
        r.fields[(k.0, None)]
    }
}

/// A field that is not shared keeps its name; a shared field is split into
/// one entry per side, qualified by that side's label.
pub open spec fn merge_fields(l: RecordModel, r: RecordModel) -> Map<SymbolModel, TypeModel> {
    Map::new(|k: SymbolModel| merge_has(l, r, k), |k: SymbolModel| merge_value(l, r, k))
}

/// The qualified names that a merge makes are new and distinct: shared
/// fields are unqualified, the labels differ, and no field already has a
/// qualified name that the merge would make.
pub open spec fn merge_ok(l: RecordModel, r: RecordModel) -> bool {
    forall|k: SymbolModel|
        #![trigger l.fields.dom().contains(k), r.fields.dom().contains(k)]
        shared(l, r, k) ==> {
            &&& k.1 is None
            &&& l.label != r.label
            &&& !l.fields.dom().contains(qualify(k, l.label))
            &&& !r.fields.dom().contains(qualify(k, l.label))
            &&& !l.fields.dom().contains(qualify(k, r.label))
            &&& !r.fields.dom().contains(qualify(k, r.label))
        }
}

/// The merged schema of two relations, labelled `l.label + sep + r.label`.
pub open spec fn merge_model(l: RecordModel, r: RecordModel, sep: Seq<char>) -> Option<RecordModel> {
    if merge_ok(l, r) {
        Some(RecordModel { fields: merge_fields(l, r), label: l.label + sep + r.label })
    } else {
        None
    }
}

/// The names of the merge that the fields `lfs` of the left side account for.
pub open spec fn left_part(lfs: Seq<(Symbol, Type)>, l: RecordModel, r: RecordModel, k: SymbolModel) -> bool {
    (has_key(lfs, k) && !r.fields.dom().contains(k)) || (k.1 == Some(l.label) && has_key(
        lfs,
        (k.0, None),
    ) && r.fields.dom().contains((k.0, None))) || (k.1 == Some(r.label) && has_key(lfs, (k.0, None))
        && r.fields.dom().contains((k.0, None)))
}

/// The shared field `k` cannot be split into two new qualified names: it is
/// already qualified, the labels are equal, or a side already has one of
/// the qualified names.
pub open spec fn merge_violates(l: RecordModel, r: RecordModel, k: SymbolModel) -> bool {
    shared(l, r, k) && !{
        &&& k.1 is None
        &&& l.label != r.label
        &&& !l.fields.dom().contains(qualify(k, l.label))
        &&& !r.fields.dom().contains(qualify(k, l.label))
        &&& !l.fields.dom().contains(qualify(k, r.label))
        &&& !r.fields.dom().contains(qualify(k, r.label))
    }
}

/// The least shared field, in the order of symbols, that the merge cannot
/// split.
pub open spec fn least_merge_violation(l: RecordModel, r: RecordModel) -> SymbolModel {
    choose|k: SymbolModel|
        merge_violates(l, r, k) && forall|k2: SymbolModel|
            merge_violates(l, r, k2) ==> !symbol_lt(k2, k)
}

/// The error of a failed merge, for its least offending shared field `k`:
/// `k` itself when it is qualified, else the left qualified name when the
/// labels are equal or a side has it, else the right qualified name.
pub open spec fn merge_error(l: RecordModel, r: RecordModel) -> ErrorModel {
    let k = least_merge_violation(l, r);
    if k.1 is Some {
        ErrorModel::DuplicateField(k)
    } else if l.label == r.label || l.fields.dom().contains(qualify(k, l.label))
        || r.fields.dom().contains(qualify(k, l.label)) {
        ErrorModel::DuplicateField(qualify(k, l.label))
    } else {
        ErrorModel::DuplicateField(qualify(k, r.label))
    }
}

/// Checks that the merge can split every shared field; otherwise gives the
/// error for the least shared field it cannot split.
pub fn merge_violation(l: &Record, r: &Record) -> (out: Option<TypeError>)
    requires
        l.wf(),
        r.wf(),
    ensures
        out is None <==> merge_ok(l@, r@),
        out is Some ==> out->0@ == merge_error(l@, r@),
{
    let ghost lm = l@;
    let ghost rm = r@;
    proof {
        lemma_record_model(*l);
        lemma_record_model(*r);
        assert(keys_unique(l.fields@));
        assert(keys_unique(r.fields@));
    }
    let mut best: Option<usize> = None;
    let mut i: usize = 0;
    while i < l.fields.len()
        invariant
            lm == l@,
            rm == r@,
            lm.fields == fields_map(l.fields@),
            rm.fields == fields_map(r.fields@),
            keys_unique(l.fields@),
            i <= l.fields.len(),
            best is None ==> forall|k: SymbolModel|
                has_key(l.fields@.take(i as int), k) ==> !merge_violates(lm, rm, k),
            best matches Some(bi) ==> {
                &&& bi < i
                &&& merge_violates(lm, rm, l.fields@[bi as int].0@)
                &&& forall|k: SymbolModel|
                    has_key(l.fields@.take(i as int), k) && merge_violates(lm, rm, k) ==> !symbol_lt(
                        k,
                        l.fields@[bi as int].0@,
                    )
            },
        decreases l.fields.len() - i,
    {
        let ghost k = l.fields@[i as int].0@;
        let ghost pre = l.fields@.take(i as int);
        proof {
            lemma_key_at(l.fields@, i as int);
            assert(l.fields@.take(i + 1) =~= pre.push(l.fields@[i as int]));
            assert forall|k2: SymbolModel| has_key(l.fields@.take(i + 1), k2) <==> (has_key(pre, k2) || k2 == k) by {
                lemma_has_key_push(pre, l.fields@[i as int], k2);
            }
        }
        let key = &l.fields[i].0;
        let violates = if find_field(&r.fields, key).is_some() {
            let ql = Symbol(key.0.clone(), Some(l.label.clone()));
            let qr = Symbol(key.0.clone(), Some(r.label.clone()));
            proof {
                assert(ql@ == qualify(k, lm.label));
                assert(qr@ == qualify(k, rm.label));
            }
            key.1.is_some() || l.label == r.label || find_field(&l.fields, &ql).is_some()
                || find_field(&r.fields, &ql).is_some() || find_field(&l.fields, &qr).is_some()
                || find_field(&r.fields, &qr).is_some()
        } else {
            false
        };
        proof {
            assert(violates == merge_violates(lm, rm, k));
        }
        if violates {
            let better = match best {
                None => true,
                Some(bi) => key.less(&l.fields[bi].0),
            };
            if better {
                proof {
                    if let Some(bi) = best {
                        let kb = l.fields@[bi as int].0@;
                        assert forall|k2: SymbolModel|
                            has_key(l.fields@.take(i + 1), k2) && merge_violates(lm, rm, k2)
                                implies !symbol_lt(k2, k) by {
                            lemma_symbol_lt_order(k2, k, kb);
                            lemma_symbol_lt_order(k, k, k);
                        }
                    } else {
                        assert forall|k2: SymbolModel|
                            has_key(l.fields@.take(i + 1), k2) && merge_violates(lm, rm, k2)
                                implies !symbol_lt(k2, k) by {
                            lemma_symbol_lt_order(k, k, k);
                        }
                    }
                }
                best = Some(i);
            }
        }
        i += 1;
    }
    proof {
        assert(l.fields@.take(i as int) =~= l.fields@);
    }
    match best {
        None => {
            proof {
                assert forall|k: SymbolModel|
                    #![trigger lm.fields.dom().contains(k), rm.fields.dom().contains(k)]
                    shared(lm, rm, k) implies !merge_violates(lm, rm, k) by {
                    assert(has_key(l.fields@, k));
                }
            }
            None
        },
        Some(bi) => {
            let key = &l.fields[bi].0;
            let ghost kb = key@;
            proof {
                let c = least_merge_violation(lm, rm);
                assert(merge_violates(lm, rm, c)) by {
                    assert(merge_violates(lm, rm, kb) && forall|k2: SymbolModel|
                        merge_violates(lm, rm, k2) ==> !symbol_lt(k2, kb));
                }
                assert(has_key(l.fields@, c));
                lemma_symbol_lt_order(c, kb, c);
                assert(c == kb);
                assert(!merge_ok(lm, rm));
            }
            if key.1.is_some() {
                return Some(TypeError::DuplicateField(key.copy()));
            }
            let ql = Symbol(key.0.clone(), Some(l.label.clone()));
            let qr = Symbol(key.0.clone(), Some(r.label.clone()));
            proof {
                assert(ql@ == qualify(kb, lm.label));
                assert(qr@ == qualify(kb, rm.label));
            }
            if l.label == r.label || find_field(&l.fields, &ql).is_some() || find_field(
                &r.fields,
                &ql,
            ).is_some() {
                Some(TypeError::DuplicateField(ql))
            } else {
                Some(TypeError::DuplicateField(qr))
            }
        },
    }
}

/// Schema merge of two relations (for products and joins). Fails with
/// `merge_error` when the qualified names it would make are not new.
pub fn schema_merge(l: &Record, r: &Record, sep: &str) -> (out: Result<Record, TypeError>)
    requires
        l.wf(),
        r.wf(),
    ensures
        match merge_model(l@, r@, sep@) {
            Some(m) => out is Ok && out->Ok_0@ == m && out->Ok_0.wf(),
            None => out is Err && out->Err_0@ == merge_error(l@, r@),
        },
{
    let ghost lm = l@;
    let ghost rm = r@;
    proof {
        lemma_record_model(*l);
        lemma_record_model(*r);
        assert(keys_unique(l.fields@));
        assert(keys_unique(r.fields@));
    }
    if let Some(e) = merge_violation(l, r) {
        return Err(e);
    }
    let mut out: Vec<(Symbol, Type)> = Vec::new();
    let mut i: usize = 0;
    proof {
        lemma_fields_map_empty();
        assert(Map::new(
            |k: SymbolModel| left_part(l.fields@.take(0), lm, rm, k),
            |k: SymbolModel| merge_value(lm, rm, k),
        ) =~= Map::empty());
    }
    while i < l.fields.len()
        invariant
            l.wf(),
            r.wf(),
            lm == l@,
            rm == r@,
            lm.fields == fields_map(l.fields@),
            rm.fields == fields_map(r.fields@),
            merge_ok(lm, rm),
            keys_unique(l.fields@),
            keys_unique(r.fields@),
            i <= l.fields.len(),
            keys_unique(out@),
            forall|j: int| 0 <= j < out@.len() ==> wf(#[trigger] out@[j].1),
            fields_map(out@) == Map::new(
                |k: SymbolModel| left_part(l.fields@.take(i as int), lm, rm, k),
                |k: SymbolModel| merge_value(lm, rm, k),
            ),
            forall|k: SymbolModel|
                #![trigger lm.fields.dom().contains(k), rm.fields.dom().contains(k)]
                shared(lm, rm, k) && has_key(l.fields@.take(i as int), k) ==> {
                    &&& k.1 is None
                    &&& lm.label != rm.label
                    &&& !lm.fields.dom().contains(qualify(k, lm.label))
                    &&& !rm.fields.dom().contains(qualify(k, lm.label))
                    &&& !lm.fields.dom().contains(qualify(k, rm.label))
                    &&& !rm.fields.dom().contains(qualify(k, rm.label))
                },
        decreases l.fields.len() - i,
    {
        let ghost pre = l.fields@.take(i as int);
        let ghost ki = l.fields@[i as int].0@;
        proof {
            lemma_key_at(l.fields@, i as int);
            assert(l.fields@.take(i + 1) =~= pre.push(l.fields@[i as int]));
            assert(!has_key(pre, ki)) by {
                if has_key(pre, ki) {
                    let j = choose|j: int| 0 <= j < pre.len() && pre[j].0@ == ki;
                    assert(l.fields@[j].0@ == ki);
                }
            }
            assert(wf(l.fields[i as int].1));
        }
        let k = &l.fields[i].0;
        match find_field(&r.fields, k) {
            None => {
                let t = l.fields[i].1.copy();
                let key = k.copy();
                proof {
                    assert(!rm.fields.dom().contains(ki));
                    assert(!has_key(out@, ki)) by {
                        assert(!left_part(pre, lm, rm, ki)) by {
                            if ki.1 == Some(lm.label) && has_key(pre, (ki.0, None)) && rm.fields.dom().contains((ki.0, None)) {
                                assert(lm.fields.dom().contains((ki.0, None)));
                                assert(!lm.fields.dom().contains(qualify((ki.0, None), lm.label)));
                            }
                            if ki.1 == Some(rm.label) && has_key(pre, (ki.0, None)) && rm.fields.dom().contains((ki.0, None)) {
                                assert(lm.fields.dom().contains((ki.0, None)));
                                assert(!lm.fields.dom().contains(qualify((ki.0, None), rm.label)));
                            }
                        }
                        assert(!fields_map(out@).dom().contains(ki));
                    }
                    lemma_fields_map_push(out@, (key, t));
                    assert forall|k2: SymbolModel|
                        left_part(l.fields@.take(i + 1), lm, rm, k2) <==> (left_part(pre, lm, rm, k2) || k2 == ki) by {
                        lemma_has_key_push(pre, l.fields@[i as int], k2);
                        lemma_has_key_push(pre, l.fields@[i as int], (k2.0, None));
                    }
                    assert(merge_value(lm, rm, ki) == model(t));
                    assert(l.fields@.take(i + 1)[i as int].0@ == ki);
                    assert(left_part(l.fields@.take(i + 1), lm, rm, ki));
                    assert(Map::new(
                        |k2: SymbolModel| left_part(l.fields@.take(i + 1), lm, rm, k2),
                        |k2: SymbolModel| merge_value(lm, rm, k2),
                    ) =~= fields_map(out@).insert(ki, model(t)));
                }
                out.push((key, t));
            },
            Some(j) => {
                proof {
                    lemma_key_at(r.fields@, j as int);
                    assert(shared(lm, rm, ki));
                }
                let ql = Symbol(k.0.clone(), Some(l.label.clone()));
                let qr = Symbol(k.0.clone(), Some(r.label.clone()));
                proof {
                    assert(!merge_violates(lm, rm, ki));
                    assert(ki.1 is None);
                    assert(ql@ == qualify(ki, lm.label));
                    assert(qr@ == qualify(ki, rm.label));
                }
                let tl = l.fields[i].1.copy();
                proof {
                    lemma_key_at(r.fields@, j as int);
                    assert(wf(r.fields[j as int].1));
                }
                let tr = r.fields[j].1.copy();
                proof {
                    assert(shared(lm, rm, ki));
                    assert(ql@ == qualify(ki, lm.label));
                    assert(qr@ == qualify(ki, rm.label));
                    assert(!has_key(out@, ql@)) by {
                        assert(!left_part(pre, lm, rm, ql@));
                        assert(!fields_map(out@).dom().contains(ql@));
                    }
                    lemma_fields_map_push(out@, (ql, tl));
                    let out1 = out@.push((ql, tl));
                    assert(!has_key(out1, qr@)) by {
                        assert(!left_part(pre, lm, rm, qr@));
                        assert(!fields_map(out@).dom().contains(qr@));
                        lemma_has_key_push(out@, (ql, tl), qr@);
                    }
                    lemma_fields_map_push(out1, (qr, tr));
                    assert forall|k2: SymbolModel|
                        left_part(l.fields@.take(i + 1), lm, rm, k2) <==> (left_part(pre, lm, rm, k2) || k2 == ql@ || k2 == qr@) by {
                        lemma_has_key_push(pre, l.fields@[i as int], k2);
                        lemma_has_key_push(pre, l.fields@[i as int], (k2.0, None));
                    }
                    assert(l.fields@.take(i + 1)[i as int].0@ == ki);
                    assert(ki == (ki.0, None::<Seq<char>>));
                    assert(left_part(l.fields@.take(i + 1), lm, rm, ql@));
                    assert(left_part(l.fields@.take(i + 1), lm, rm, qr@));
                    assert(merge_value(lm, rm, ql@) == model(tl));
                    assert(merge_value(lm, rm, qr@) == model(tr));
                    assert(Map::new(
                        |k2: SymbolModel| left_part(l.fields@.take(i + 1), lm, rm, k2),
                        |k2: SymbolModel| merge_value(lm, rm, k2),
                    ) =~= fields_map(out@).insert(ql@, model(tl)).insert(qr@, model(tr)));
                }
                out.push((ql, tl));
                out.push((qr, tr));
            },
        }
        proof {
            assert forall|k2: SymbolModel|
                #![trigger lm.fields.dom().contains(k2), rm.fields.dom().contains(k2)]
                shared(lm, rm, k2) && has_key(l.fields@.take(i + 1), k2) implies {
                    &&& k2.1 is None
                    &&& lm.label != rm.label
                    &&& !lm.fields.dom().contains(qualify(k2, lm.label))
                    &&& !rm.fields.dom().contains(qualify(k2, lm.label))
                    &&& !lm.fields.dom().contains(qualify(k2, rm.label))
                    &&& !rm.fields.dom().contains(qualify(k2, rm.label))
                } by {
                lemma_has_key_push(pre, l.fields@[i as int], k2);
            }
        }
        i += 1;
    }
    proof {
        assert(l.fields@.take(i as int) =~= l.fields@);
        assert(merge_ok(lm, rm));
    }
    let mut m: usize = 0;
    proof {
        assert(r.fields@.take(0) =~= Seq::<(Symbol, Type)>::empty());
        assert(Map::new(
            |k: SymbolModel|
                left_part(l.fields@, lm, rm, k) || (has_key(r.fields@.take(0), k)
                    && !lm.fields.dom().contains(k)),
            |k: SymbolModel| merge_value(lm, rm, k),
        ) =~= fields_map(out@));
    }
    while m < r.fields.len()
        invariant
            l.wf(),
            r.wf(),
            lm == l@,
            rm == r@,
            lm.fields == fields_map(l.fields@),
            rm.fields == fields_map(r.fields@),
            keys_unique(l.fields@),
            keys_unique(r.fields@),
            merge_ok(lm, rm),
            m <= r.fields.len(),
            keys_unique(out@),
            forall|j: int| 0 <= j < out@.len() ==> wf(#[trigger] out@[j].1),
            fields_map(out@) == Map::new(
                |k: SymbolModel|
                    left_part(l.fields@, lm, rm, k) || (has_key(r.fields@.take(m as int), k)
                        && !lm.fields.dom().contains(k)),
                |k: SymbolModel| merge_value(lm, rm, k),
            ),
        decreases r.fields.len() - m,
    {
        let ghost pre = r.fields@.take(m as int);
        let ghost km = r.fields@[m as int].0@;
        proof {
            lemma_key_at(r.fields@, m as int);
            assert(r.fields@.take(m + 1) =~= pre.push(r.fields@[m as int]));
            assert(r.fields@.take(m + 1)[m as int].0@ == km);
            assert(!has_key(pre, km)) by {
                if has_key(pre, km) {
                    let j = choose|j: int| 0 <= j < pre.len() && pre[j].0@ == km;
                    assert(r.fields@[j].0@ == km);
                }
            }
        }
        if find_field(&l.fields, &r.fields[m].0).is_none() {
            proof {
                assert(wf(r.fields[m as int].1));
            }
            let t = r.fields[m].1.copy();
            let key = r.fields[m].0.copy();
            proof {
                assert(!lm.fields.dom().contains(km));
                assert(!has_key(out@, km)) by {
                    assert(!left_part(l.fields@, lm, rm, km)) by {
                        if km.1 == Some(lm.label) && has_key(l.fields@, (km.0, None))
                            && rm.fields.dom().contains((km.0, None)) {
                            assert(lm.fields.dom().contains((km.0, None)));
                            assert(!rm.fields.dom().contains(qualify((km.0, None), lm.label)));
                        }
                        if km.1 == Some(rm.label) && has_key(l.fields@, (km.0, None))
                            && rm.fields.dom().contains((km.0, None)) {
                            assert(lm.fields.dom().contains((km.0, None)));
                            assert(!rm.fields.dom().contains(qualify((km.0, None), rm.label)));
                        }
                    }
                    assert(!fields_map(out@).dom().contains(km));
                }
                lemma_fields_map_push(out@, (key, t));
                assert forall|k2: SymbolModel|
                    has_key(r.fields@.take(m + 1), k2) <==> (has_key(pre, k2) || k2 == km) by {
                    lemma_has_key_push(pre, r.fields@[m as int], k2);
                }
                assert(merge_value(lm, rm, km) == model(t));
                assert(Map::new(
                    |k: SymbolModel|
                        left_part(l.fields@, lm, rm, k) || (has_key(r.fields@.take(m + 1), k)
                            && !lm.fields.dom().contains(k)),
                    |k: SymbolModel| merge_value(lm, rm, k),
                ) =~= fields_map(out@).insert(km, model(t)));
            }
            out.push((key, t));
        } else {
            proof {
                assert forall|k2: SymbolModel|
                    has_key(r.fields@.take(m + 1), k2) <==> (has_key(pre, k2) || k2 == km) by {
                    lemma_has_key_push(pre, r.fields@[m as int], k2);
                }
                assert(Map::new(
                    |k: SymbolModel|
                        left_part(l.fields@, lm, rm, k) || (has_key(r.fields@.take(m + 1), k)
                            && !lm.fields.dom().contains(k)),
                    |k: SymbolModel| merge_value(lm, rm, k),
                ) =~= fields_map(out@));
            }
        }
        m += 1;
    }
    let label = l.label.clone().concat(sep).concat(r.label.as_str());
    let res = Record { fields: out, label };
    proof {
        assert(r.fields@.take(m as int) =~= r.fields@);
        lemma_record_model(res);
        assert(res@.fields =~= merge_fields(lm, rm));
    }
    Ok(res)
}

} // verus!
