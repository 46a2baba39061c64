//! Renaming of fields.
use vstd::prelude::*;

use crate::structs::{Loc, Pos, Symbol, SymbolModel};
use crate::type_system::unify::resolved;
use crate::type_system::{
    fields_map, find_field, has_key, keys_unique, lemma_fields_map_empty, lemma_fields_map_push,
    lemma_key_at, lemma_record_model, model, wf, ErrorModel, Record, RecordModel, Type, TypeError,
    TypeModel,
};
use crate::type_check::filter::schema_ok;
use crate::type_check::{fail, fits, Outcome};

verus! {

/// The first old name of `pairs` that `r` lacks.
pub open spec fn first_missing(r: RecordModel, pairs: Seq<(Symbol, Symbol)>) -> Option<SymbolModel>
    decreases pairs.len(),
{
    if pairs.len() == 0 {
        None
    } else if !r.fields.dom().contains(pairs[0].0@) {
        Some(pairs[0].0@)
    } else {
        first_missing(r, pairs.drop_first())
    }
}

/// The names being renamed.
pub open spec fn old_names(pairs: Seq<(Symbol, Symbol)>) -> Set<SymbolModel> {
    Set::new(|k: SymbolModel| exists|j: int| 0 <= j < pairs.len() && pairs[j].0@ == k)
}

/// The new names.
pub open spec fn new_names(pairs: Seq<(Symbol, Symbol)>) -> Set<SymbolModel> {
    Set::new(|k: SymbolModel| exists|j: int| 0 <= j < pairs.len() && pairs[j].1@ == k)
}

/// A renaming is not one to one, or a new name collides with a field that
/// keeps its name.
pub open spec fn rename_clash(r: RecordModel, pairs: Seq<(Symbol, Symbol)>) -> bool {
    (exists|i: int, j: int| 0 <= i < j < pairs.len() && pairs[i].0@ == pairs[j].0@) || (exists|
        i: int,
        j: int,
    | 0 <= i < j < pairs.len() && pairs[i].1@ == pairs[j].1@) || (exists|i: int|
        0 <= i < pairs.len() && r.fields.dom().contains(pairs[i].1@) && !old_names(pairs).contains(
            pairs[i].1@,
        ))
}

/// The fields after renaming: a renamed field takes its new name and keeps
/// its type.
pub open spec fn renamed_fields(r: RecordModel, pairs: Seq<(Symbol, Symbol)>) -> Map<
    SymbolModel,
    TypeModel,
> {
    Map::new(
        |k: SymbolModel|
            (r.fields.dom().contains(k) && !old_names(pairs).contains(k)) || new_names(
                pairs,
            ).contains(k),
        |k: SymbolModel|
            if new_names(pairs).contains(k) {
                r.fields[pairs[choose|j: int| 0 <= j < pairs.len() && pairs[j].1@ == k].0@]
            } else {
                r.fields[k]
            },
    )
}

/// The old name (`olds`) or the new name of a pair.
pub open spec fn side(q: (Symbol, Symbol), olds: bool) -> SymbolModel {
    if olds {
        q.0@
    } else {
        q.1@
    }
}

/// A later pair repeats the old (`olds`) or new name of pair `i`.
pub open spec fn repeated(pairs: Seq<(Symbol, Symbol)>, olds: bool, i: int) -> bool {
    exists|j: int| i < j < pairs.len() && side(pairs[i], olds) == #[trigger] side(pairs[j], olds)
}

/// The new name of pair `i` is a field that keeps its name.
pub open spec fn clashes(r: RecordModel, pairs: Seq<(Symbol, Symbol)>, i: int) -> bool {
    r.fields.dom().contains(pairs[i].1@) && !old_names(pairs).contains(pairs[i].1@)
}

/// The first pair whose old (`olds`) or new name is repeated later.
pub open spec fn first_repeated(pairs: Seq<(Symbol, Symbol)>, olds: bool) -> int {
    choose|i: int|
        0 <= i < pairs.len() && repeated(pairs, olds, i) && forall|i2: int|
            0 <= i2 < i ==> !repeated(pairs, olds, i2)
}

/// The first pair whose new name clashes.
pub open spec fn first_clash(r: RecordModel, pairs: Seq<(Symbol, Symbol)>) -> int {
    choose|i: int|
        0 <= i < pairs.len() && clashes(r, pairs, i) && forall|i2: int|
            0 <= i2 < i ==> !clashes(r, pairs, i2)
}

/// The error of a clashing renaming: the first old name given twice, else
/// the first new name given twice, else the first new name that a field
/// keeping its name has.
pub open spec fn rename_error(r: RecordModel, pairs: Seq<(Symbol, Symbol)>) -> ErrorModel {
    if exists|i: int| 0 <= i < pairs.len() && repeated(pairs, true, i) {
        ErrorModel::DuplicateField(pairs[first_repeated(pairs, true)].0@)
    } else if exists|i: int| 0 <= i < pairs.len() && repeated(pairs, false, i) {
        ErrorModel::DuplicateField(pairs[first_repeated(pairs, false)].1@)
    } else {
        ErrorModel::DuplicateField(pairs[first_clash(r, pairs)].1@)
    }
}

/// The schema after renaming the fields of `r` by `pairs`.
pub open spec fn rename_model(r: RecordModel, pairs: Seq<(Symbol, Symbol)>, p: Pos) -> Outcome {
    match first_missing(r, pairs) {
        Some(k) => fail(ErrorModel::FieldNotFound(k), p),
        None => if rename_clash(r, pairs) {
            fail(rename_error(r, pairs), p)
        } else {
            Ok(RecordModel { fields: renamed_fields(r, pairs), label: r.label })
        },
    }
}

/// The name that field `x` gets.
pub open spec fn image(pairs: Seq<(Symbol, Symbol)>, x: SymbolModel) -> SymbolModel {
    if old_names(pairs).contains(x) {
        pairs[choose|j: int| 0 <= j < pairs.len() && pairs[j].0@ == x].1@
    } else {
        x
    }
}

/// Some of the first `m` fields of `fs` is renamed to `k`.
pub open spec fn images(pairs: Seq<(Symbol, Symbol)>, fs: Seq<(Symbol, Type)>, m: int, k: SymbolModel) -> bool {
    exists|t: int| 0 <= t < m && image(pairs, fs[t].0@) == k
}

/// The position of `k` among the old names of `pairs`.
fn find_old(pairs: &Vec<(Symbol, Symbol)>, k: &Symbol) -> (r: Option<usize>)
    ensures
        r is Some <==> old_names(pairs@).contains(k@),
        r is Some ==> r->0 < pairs@.len() && pairs@[r->0 as int].0@ == k@,
{
    let mut i: usize = 0;
    while i < pairs.len()
        invariant
            i <= pairs.len(),
            forall|j: int| 0 <= j < i ==> pairs@[j].0@ != k@,
        decreases pairs.len() - i,
    {
        if pairs[i].0.same(k) {
            return Some(i);
        }
        i += 1;
    }
    None
}

/// The first pair of `pairs` whose old name (`olds`) or new name a later
/// pair repeats.
fn repeats(pairs: &Vec<(Symbol, Symbol)>, olds: bool) -> (r: Option<usize>)
    ensures
        r is Some <==> exists|i: int| 0 <= i < pairs@.len() && repeated(pairs@, olds, i),
        r is Some ==> r->0 < pairs@.len() && repeated(pairs@, olds, r->0 as int) && forall|i2: int|
            0 <= i2 < r->0 ==> !repeated(pairs@, olds, i2),
        r is Some ==> r->0 == first_repeated(pairs@, olds),
{
    let mut i: usize = 0;
    while i < pairs.len()
        invariant
            i <= pairs.len(),
            forall|a: int| 0 <= a < i ==> !repeated(pairs@, olds, a),
        decreases pairs.len() - i,
    {
        let mut j: usize = i + 1;
        while j < pairs.len()
            invariant
                i < pairs.len(),
                i + 1 <= j <= pairs.len(),
                forall|a: int| 0 <= a < i ==> !repeated(pairs@, olds, a),
                forall|b: int| i < b < j ==> side(pairs@[i as int], olds) != side(pairs@[b], olds),
            decreases pairs.len() - j,
        {
            let same = if olds {
                pairs[i].0.same(&pairs[j].0)
            } else {
                pairs[i].1.same(&pairs[j].1)
            };
            if same {
                proof {
                    assert(side(pairs@[i as int], olds) == side(pairs@[j as int], olds));
                    assert(repeated(pairs@, olds, i as int));
                    let f = first_repeated(pairs@, olds);
                    assert(f == i) by {
                        if f < i {
                            assert(!repeated(pairs@, olds, f));
                        } else if f > i {
                            assert(!repeated(pairs@, olds, i as int));
                        }
                    }
                }
                return Some(i);
            }
            j += 1;
        }
        proof {
            assert(!repeated(pairs@, olds, i as int)) by {
                if repeated(pairs@, olds, i as int) {
                    let b = choose|b: int|
                        i < b < pairs@.len() && side(pairs@[i as int], olds) == #[trigger] side(
                            pairs@[b],
                            olds,
                        );
                }
            }
        }
        i += 1;
    }
    None
}

/// Renames fields of `r`: every old name must exist, the renaming must be one
/// to one, and no new name may collide with a field that keeps its name.
pub fn rename(r: &Record, pairs: &Vec<(Symbol, Symbol)>, p: Pos) -> (out: Result<Record, Loc<TypeError>>)
    requires
        schema_ok(*r),
    ensures
        fits(out, rename_model(r@, pairs@, p)),
{
    let ghost rm = r@;
    let ghost ps = pairs@;
    proof {
        lemma_record_model(*r);
        assert(keys_unique(r.fields@));
    }
    let mut i: usize = 0;
    proof {
        assert(pairs@.skip(0) =~= pairs@);
    }
    while i < pairs.len()
        invariant
            rm == r@,
            rm.fields == fields_map(r.fields@),
            i <= pairs.len(),
            first_missing(rm, pairs@) == first_missing(rm, pairs@.skip(i as int)),
        decreases pairs.len() - i,
    {
        proof {
            assert(pairs@.skip(i as int)[0] == pairs@[i as int]);
            assert(pairs@.skip(i as int).drop_first() =~= pairs@.skip(i + 1));
        }
        if find_field(&r.fields, &pairs[i].0).is_none() {
            return Err(Loc(TypeError::FieldNotFound(pairs[i].0.copy()), p));
        }
        i += 1;
    }
    proof {
        assert(pairs@.skip(i as int).len() == 0);
    }
    if let Some(i) = repeats(pairs, true) {
        proof {
            let j = choose|j: int| i < j < ps.len() && side(ps[i as int], true) == #[trigger] side(ps[j], true);
            assert(ps[i as int].0@ == ps[j].0@);
            assert(rename_clash(rm, ps));
        }
        let e = TypeError::DuplicateField(pairs[i].0.copy());
        return Err(Loc(e, p));
    }
    if let Some(i) = repeats(pairs, false) {
        proof {
            let j = choose|j: int| i < j < ps.len() && side(ps[i as int], false) == #[trigger] side(ps[j], false);
            assert(ps[i as int].1@ == ps[j].1@);
            assert(rename_clash(rm, ps));
        }
        let e = TypeError::DuplicateField(pairs[i].1.copy());
        return Err(Loc(e, p));
    }
    proof {
        assert forall|a: int, b: int| 0 <= a < b < ps.len() implies ps[a].0@ != ps[b].0@ by {
            if ps[a].0@ == ps[b].0@ {
                assert(side(ps[a], true) == side(ps[b], true));
                assert(repeated(ps, true, a));
            }
        }
        assert forall|a: int, b: int| 0 <= a < b < ps.len() implies ps[a].1@ != ps[b].1@ by {
            if ps[a].1@ == ps[b].1@ {
                assert(side(ps[a], false) == side(ps[b], false));
                assert(repeated(ps, false, a));
            }
        }
    }
    let mut i: usize = 0;
    while i < pairs.len()
        invariant
            rm.fields == fields_map(r.fields@),
            rm == r@,
            ps == pairs@,
            first_missing(rm, ps) is None,
            !(exists|a: int, b: int| 0 <= a < b < ps.len() && ps[a].0@ == ps[b].0@),
            !(exists|a: int, b: int| 0 <= a < b < ps.len() && ps[a].1@ == ps[b].1@),
            !(exists|a: int| 0 <= a < ps.len() && repeated(ps, true, a)),
            !(exists|a: int| 0 <= a < ps.len() && repeated(ps, false, a)),
            i <= pairs.len(),
            forall|j: int|
                0 <= j < i ==> !(rm.fields.dom().contains(#[trigger] pairs@[j].1@) && !old_names(
                    pairs@,
                ).contains(pairs@[j].1@)),
        decreases pairs.len() - i,
    {
        if find_field(&r.fields, &pairs[i].1).is_some() && find_old(pairs, &pairs[i].1).is_none() {
            proof {
                lemma_record_model(*r);
                assert(rm.fields.dom().contains(ps[i as int].1@));
                assert(!old_names(ps).contains(ps[i as int].1@));
                assert(0 <= i < ps.len() && rm.fields.dom().contains(ps[i as int].1@)
                    && !old_names(ps).contains(ps[i as int].1@));
                assert(rename_clash(rm, ps));
                assert(clashes(rm, ps, i as int));
                let f = first_clash(rm, ps);
                assert(f == i) by {
                    if f < i {
                        assert(!clashes(rm, ps, f));
                    } else if f > i {
                        assert(!clashes(rm, ps, i as int));
                    }
                }
            }
            return Err(Loc(TypeError::DuplicateField(pairs[i].1.copy()), p));
        }
        i += 1;
    }
    proof {
        assert(!rename_clash(rm, ps));
    }
    let mut out: Vec<(Symbol, Type)> = Vec::new();
    let mut m: usize = 0;
    proof {
        lemma_fields_map_empty();
        assert(Map::new(
            |k: SymbolModel| images(ps, r.fields@, 0, k),
            |k: SymbolModel| renamed_fields(rm, ps)[k],
        ) =~= Map::empty());
    }
    while m < r.fields.len()
        invariant
            r.wf(),
            rm == r@,
            ps == pairs@,
            rm.fields == fields_map(r.fields@),
            keys_unique(r.fields@),
            first_missing(rm, ps) is None,
            !rename_clash(rm, ps),
            m <= r.fields.len(),
            keys_unique(out@),
            forall|j: int| 0 <= j < out@.len() ==> wf(#[trigger] out@[j].1),
            fields_map(out@) == Map::new(
                |k: SymbolModel| images(ps, r.fields@, m as int, k),
                |k: SymbolModel| renamed_fields(rm, ps)[k],
            ),
        decreases r.fields.len() - m,
    {
        let ghost x = r.fields@[m as int].0@;
        proof {
            lemma_key_at(r.fields@, m as int);
            assert(wf(r.fields[m as int].1));
        }
        let t = r.fields[m].1.copy();
        let key = match find_old(pairs, &r.fields[m].0) {
            Some(j) => {
                proof {
                    let jj = choose|jj: int| 0 <= jj < ps.len() && ps[jj].0@ == x;
                    if jj != j {
                        if jj < j {
                            assert(ps[jj].0@ == ps[j as int].0@);
                        } else {
                            assert(ps[j as int].0@ == ps[jj].0@);
                        }
                    }
                }
                pairs[j].1.copy()
            },
            None => r.fields[m].0.copy(),
        };
        proof {
            assert(key@ == image(ps, x));
            assert(renamed_fields(rm, ps).dom().contains(key@)) by {
                if old_names(ps).contains(x) {
                    let j = choose|j: int| 0 <= j < ps.len() && ps[j].0@ == x;
                    assert(new_names(ps).contains(ps[j].1@));
                }
            }
            assert(renamed_fields(rm, ps)[key@] == model(t)) by {
                if old_names(ps).contains(x) {
                    let j = choose|j: int| 0 <= j < ps.len() && ps[j].0@ == x;
                    let j2 = choose|j2: int| 0 <= j2 < ps.len() && ps[j2].1@ == ps[j].1@;
                    if j2 != j {
                        if j2 < j {
                            assert(ps[j2].1@ == ps[j].1@);
                        } else {
                            assert(ps[j].1@ == ps[j2].1@);
                        }
                    }
                } else {
                    if new_names(ps).contains(x) {
                        let j = choose|j: int| 0 <= j < ps.len() && ps[j].1@ == x;
                        assert(rm.fields.dom().contains(ps[j].1@));
                    }
                }
            }
            assert(!has_key(out@, key@)) by {
                if has_key(out@, key@) {
                    assert(fields_map(out@).dom().contains(key@));
                    let t2 = choose|t2: int| 0 <= t2 < m && image(ps, r.fields@[t2].0@) == key@;
                    let y = r.fields@[t2].0@;
                    assert(y != x);
                    lemma_key_at(r.fields@, t2);
                    if old_names(ps).contains(x) && old_names(ps).contains(y) {
                        let a = choose|a: int| 0 <= a < ps.len() && ps[a].0@ == x;
                        let b = choose|b: int| 0 <= b < ps.len() && ps[b].0@ == y;
                        if a < b {
                            assert(ps[a].1@ == ps[b].1@);
                        } else {
                            assert(ps[b].1@ == ps[a].1@);
                        }
                    } else if old_names(ps).contains(x) {
                        let a = choose|a: int| 0 <= a < ps.len() && ps[a].0@ == x;
                        assert(rm.fields.dom().contains(ps[a].1@));
                    } else if old_names(ps).contains(y) {
                        let b = choose|b: int| 0 <= b < ps.len() && ps[b].0@ == y;
                        assert(rm.fields.dom().contains(ps[b].1@));
                    }
                }
            }
            lemma_fields_map_push(out@, (key, t));
            assert(Map::new(
                |k: SymbolModel| images(ps, r.fields@, m + 1, k),
                |k: SymbolModel| renamed_fields(rm, ps)[k],
            ) =~= fields_map(out@).insert(key@, model(t))) by {
                assert forall|k: SymbolModel|
                    #[trigger] images(ps, r.fields@, m + 1, k) <==> (images(ps, r.fields@, m as int, k) || k == key@) by {
                    if k == key@ {
                        assert(image(ps, r.fields@[m as int].0@) == k);
                    }
                }
            }
        }
        out.push((key, t));
        m += 1;
    }
    let res = Record { fields: out, label: r.label.clone() };
    proof {
        lemma_record_model(res);
        assert forall|k: SymbolModel|
            #[trigger] images(ps, r.fields@, r.fields@.len() as int, k) <==> renamed_fields(
                rm,
                ps,
            ).dom().contains(k) by {
            if new_names(ps).contains(k) {
                let j = choose|j: int| 0 <= j < ps.len() && ps[j].1@ == k;
                let x = ps[j].0@;
                assert(first_missing(rm, ps) is None);
                lemma_first_missing(rm, ps, j);
                let t2 = choose|t2: int| 0 <= t2 < r.fields@.len() && r.fields@[t2].0@ == x;
                let jj = choose|jj: int| 0 <= jj < ps.len() && ps[jj].0@ == x;
                if jj != j {
                    if jj < j {
                        assert(ps[jj].0@ == ps[j].0@);
                    } else {
                        assert(ps[j].0@ == ps[jj].0@);
                    }
                }
                assert(image(ps, r.fields@[t2].0@) == k);
            } else if rm.fields.dom().contains(k) && !old_names(ps).contains(k) {
                let t2 = choose|t2: int| 0 <= t2 < r.fields@.len() && r.fields@[t2].0@ == k;
                assert(image(ps, r.fields@[t2].0@) == k);
            }
            if images(ps, r.fields@, r.fields@.len() as int, k) {
                let t2 = choose|t2: int| 0 <= t2 < r.fields@.len() && image(ps, r.fields@[t2].0@) == k;
                let y = r.fields@[t2].0@;
                lemma_key_at(r.fields@, t2);
                if old_names(ps).contains(y) {
                    let b = choose|b: int| 0 <= b < ps.len() && ps[b].0@ == y;
                    assert(new_names(ps).contains(ps[b].1@));
                }
            }
        }
        assert(res@.fields =~= renamed_fields(rm, ps));
        assert forall|k: SymbolModel| #[trigger] res@.fields.dom().contains(k) implies resolved(res@.fields[k]) by {
            if new_names(ps).contains(k) {
                let j = choose|j: int| 0 <= j < ps.len() && ps[j].1@ == k;
                lemma_first_missing(rm, ps, j);
            }
        }
    }
    Ok(res)
}

proof fn lemma_first_missing(r: RecordModel, pairs: Seq<(Symbol, Symbol)>, j: int)
    requires
        first_missing(r, pairs) is None,
        0 <= j < pairs.len(),
    ensures
        r.fields.dom().contains(pairs[j].0@),
    decreases pairs.len(),
{
    if j > 0 {
        lemma_first_missing(r, pairs.drop_first(), j - 1);
    }
}

} // verus!
