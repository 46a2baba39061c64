//! Structural unification: the most specific common type of two types.
use vstd::prelude::*;

use crate::structs::SymbolModel;
use crate::structs::Symbol;
use crate::type_system::{
    fields_map, find_field, has_key, key_at, keys_unique, lemma_fields_map_empty,
    lemma_fields_map_len, lemma_fields_map_push, lemma_has_key_push, lemma_key_at,
    lemma_record_model, lemma_table_model, literal_set, model, wf, Domain, ErrorModel, Lines,
    Optional, Record, SimpleModel, SimpleType, TableName, Type, TypeError, TypeModel,
};

verus! {

/// Unification: the most specific common value of two values, or an error
/// that tells why there is none.
pub trait Unify: Sized {
    type Output;

    type Error;

    /// What both inputs must satisfy.
    spec fn unify_requires(&self, r: &Self) -> bool;

    /// What the outcome satisfies.
    spec fn unify_ensures(&self, r: &Self, out: Result<Self::Output, Self::Error>) -> bool;

    fn unify(&self, r: &Self) -> (out: Result<Self::Output, Self::Error>)
        requires
            self.unify_requires(r),
        ensures
            self.unify_ensures(r, out),
    ;
}

impl Unify for Type {
    type Output = Type;

    type Error = TypeError;

    open spec fn unify_requires(&self, r: &Type) -> bool {
        wf(*self) && wf(*r) && !unresolved_pair(self@, r@)
    }

    open spec fn unify_ensures(&self, r: &Type, out: Result<Type, TypeError>) -> bool {
        match unify_model(self@, r@) {
            Some(t) => out is Ok && out->Ok_0@ == t && wf(out->Ok_0),
            None => out is Err && unify_error(self@, r@, out->Err_0@),
        }
    }

    fn unify(&self, r: &Type) -> (out: Result<Type, TypeError>) {
        unify_type(self, r)
    }
}

impl Unify for Optional {
    type Output = Optional;

    type Error = TypeError;

    open spec fn unify_requires(&self, r: &Optional) -> bool {
        wf(*self.0) && wf(*r.0) && !unresolved_pair(self.0@, r.0@)
    }

    open spec fn unify_ensures(&self, r: &Optional, out: Result<Optional, TypeError>) -> bool {
        match unify_model(self.0@, r.0@) {
            Some(t) => out is Ok && out->Ok_0.0@ == t && wf(*out->Ok_0.0),
            None => out is Err && unify_error(self.0@, r.0@, out->Err_0@),
        }
    }

    fn unify(&self, r: &Optional) -> (out: Result<Optional, TypeError>) {
        match unify_type(&self.0, &r.0) {
            Ok(t) => Ok(Optional(Box::new(t))),
            Err(e) => Err(e),
        }
    }
}

impl Unify for SimpleType {
    type Output = SimpleType;

    type Error = TypeError;

    open spec fn unify_requires(&self, r: &SimpleType) -> bool {
        true
    }

    open spec fn unify_ensures(&self, r: &SimpleType, out: Result<SimpleType, TypeError>) -> bool {
        match simple_unify(self@, r@) {
            Some(s) => out is Ok && out->Ok_0@ == s,
            None => out is Err && out->Err_0@ == ErrorModel::TypeUnifyError(
                TypeModel::Simple(self@),
                TypeModel::Simple(r@),
            ),
        }
    }

    fn unify(&self, r: &SimpleType) -> (out: Result<SimpleType, TypeError>) {
        unify_simple(self, r)
    }
}

impl Unify for Domain<i64> {
    type Output = Domain<i64>;

    type Error = (Domain<i64>, Domain<i64>);

    open spec fn unify_requires(&self, r: &Domain<i64>) -> bool {
        true
    }

    open spec fn unify_ensures(
        &self,
        r: &Domain<i64>,
        out: Result<Domain<i64>, (Domain<i64>, Domain<i64>)>,
    ) -> bool {
        match interval_unify(self@, r@) {
            Some(d) => out is Ok && out->Ok_0@ == d,
            None => out == Err::<Domain<i64>, _>((*self, *r)),
        }
    }

    fn unify(&self, r: &Domain<i64>) -> (out: Result<Domain<i64>, (Domain<i64>, Domain<i64>)>) {
        unify_domain_i64(self, r)
    }
}

impl Unify for Domain<u64> {
    type Output = Domain<u64>;

    type Error = (Domain<u64>, Domain<u64>);

    open spec fn unify_requires(&self, r: &Domain<u64>) -> bool {
        true
    }

    open spec fn unify_ensures(
        &self,
        r: &Domain<u64>,
        out: Result<Domain<u64>, (Domain<u64>, Domain<u64>)>,
    ) -> bool {
        match interval_unify(self@, r@) {
            Some(d) => out is Ok && out->Ok_0@ == d,
            None => out == Err::<Domain<u64>, _>((*self, *r)),
        }
    }

    fn unify(&self, r: &Domain<u64>) -> (out: Result<Domain<u64>, (Domain<u64>, Domain<u64>)>) {
        unify_domain_u64(self, r)
    }
}

impl Unify for Record {
    type Output = Record;

    type Error = TypeError;

    open spec fn unify_requires(&self, r: &Record) -> bool {
        self.wf() && r.wf() && forall|k: SymbolModel|
            #![trigger self@.fields[k], r@.fields[k]]
            self@.fields.dom().contains(k) && r@.fields.dom().contains(k) ==> !unresolved_pair(
                self@.fields[k],
                r@.fields[k],
            )
    }

    open spec fn unify_ensures(&self, r: &Record, out: Result<Record, TypeError>) -> bool {
        match fields_unify(self@.fields, r@.fields) {
            Some(m) => out is Ok && out->Ok_0@.fields == m && out->Ok_0@.label == self@.label
                && out->Ok_0.wf(),
            None => out is Err && record_error(
                TypeModel::Record(self@.fields),
                TypeModel::Record(r@.fields),
                out->Err_0@,
            ),
        }
    }

    fn unify(&self, r: &Record) -> (out: Result<Record, TypeError>) {
        unify_record(self, r)
    }
}

impl Unify for Lines {
    type Output = Lines;

    type Error = TypeError;

    open spec fn unify_requires(&self, r: &Lines) -> bool {
        self.0.unify_requires(&r.0)
    }

    open spec fn unify_ensures(&self, r: &Lines, out: Result<Lines, TypeError>) -> bool {
        match fields_unify(self@.fields, r@.fields) {
            Some(m) => out is Ok && out->Ok_0@.fields == m && out->Ok_0@.label == self@.label
                && out->Ok_0.wf(),
            None => out is Err && record_error(
                TypeModel::Record(self@.fields),
                TypeModel::Record(r@.fields),
                out->Err_0@,
            ),
        }
    }

    fn unify(&self, r: &Lines) -> (out: Result<Lines, TypeError>) {
        match unify_record(&self.0, &r.0) {
            Ok(x) => Ok(Lines(x)),
            Err(e) => Err(e),
        }
    }
}

/// Two intervals unify when one contains the other; the result is the
/// narrower one. A single value is the interval from it to itself.
pub open spec fn interval_unify(a: (int, int), b: (int, int)) -> Option<(int, int)> {
    if a.0 <= b.0 && b.1 <= a.1 {
        Some(b)
    } else if b.0 <= a.0 && a.1 <= b.1 {
        Some(a)
    } else {
        None
    }
}

/// An absent refinement unifies with any, yielding the other.
pub open spec fn refinement_unify(a: Option<(int, int)>, b: Option<(int, int)>) -> Option<
    Option<(int, int)>,
> {
    match (a, b) {
        (None, _) => Some(b),
        (_, None) => Some(a),
        (Some(x), Some(y)) => match interval_unify(x, y) {
            Some(d) => Some(Some(d)),
            None => None,
        },
    }
}

/// String domains: empty is unconstrained; otherwise one set must contain
/// the other, and the smaller one results.
pub open spec fn literals_unify(a: Set<Seq<char>>, b: Set<Seq<char>>) -> Option<Set<Seq<char>>> {
    if a.is_empty() {
        Some(b)
    } else if b.is_empty() {
        Some(a)
    } else if a.subset_of(b) {
        Some(a)
    } else if b.subset_of(a) {
        Some(b)
    } else {
        None
    }
}

pub open spec fn simple_unify(a: SimpleModel, b: SimpleModel) -> Option<SimpleModel> {
    match (a, b) {
        (SimpleModel::Int(x), SimpleModel::Int(y)) => match refinement_unify(x, y) {
            Some(d) => Some(SimpleModel::Int(d)),
            None => None,
        },
        (SimpleModel::Uint(x), SimpleModel::Uint(y)) => match refinement_unify(x, y) {
            Some(d) => Some(SimpleModel::Uint(d)),
            None => None,
        },
        (SimpleModel::Float, SimpleModel::Float) => Some(SimpleModel::Float),
        (SimpleModel::String(x), SimpleModel::String(y)) => match literals_unify(x, y) {
            Some(d) => Some(SimpleModel::String(d)),
            None => None,
        },
        _ => None,
    }
}

/// The names of the fields whose type is not optional.
pub open spec fn required_keys(m: Map<SymbolModel, TypeModel>) -> Set<SymbolModel> {
    m.dom().filter(|k: SymbolModel| !(m[k] is Optional))
}

/// Two records line up when they have the same names, or when the names of
/// one are exactly the non-optional names of the other.
pub open spec fn shapes_match(a: Map<SymbolModel, TypeModel>, b: Map<SymbolModel, TypeModel>) -> bool {
    a.dom() == b.dom() || b.dom() == required_keys(a) || a.dom() == required_keys(b)
}

/// Record unification: the shapes line up and every shared field unifies.
/// The result has every field of either side: a shared field gets the
/// unified type, a field of one side only (an optional one) is kept as it is.
pub open spec fn record_unify(a: TypeModel, b: TypeModel) -> Option<Map<SymbolModel, TypeModel>>
    decreases a, b, 0nat,
{
    let fa = fields_of(a);
    let fb = fields_of(b);
    if !shapes_match(fa, fb) {
        None
    } else if !(forall|k: SymbolModel|
        #![trigger fa[k], fb[k]]
        fa.dom().contains(k) && fb.dom().contains(k) ==> unify_model(fa[k], fb[k]) is Some) {
        None
    } else {
        Some(
            Map::new(
                |k: SymbolModel| fa.dom().contains(k) || fb.dom().contains(k),
                |k: SymbolModel|
                    if fa.dom().contains(k) && fb.dom().contains(k) {
                        unify_model(fa[k], fb[k])->0
                    } else if fa.dom().contains(k) {
                        fa[k]
                    } else {
                        fb[k]
                    },
            ),
        )
    }
}

/// No table reference occurs anywhere in `t`.
pub open spec fn resolved(t: TypeModel) -> bool
    decreases t,
{
    match t {
        TypeModel::Optional(x) => resolved(*x),
        TypeModel::Record(m) => forall|k: SymbolModel| #[trigger]
            m.dom().contains(k) ==> resolved(m[k]),
        TypeModel::Table(m) => forall|k: SymbolModel| #[trigger]
            m.dom().contains(k) ==> resolved(m[k]),
        TypeModel::TableName(_) => false,
        TypeModel::Simple(_) => true,
    }
}

/// Resolved types never pair a table reference with a table.
pub proof fn lemma_resolved_pair(a: TypeModel, b: TypeModel)
    requires
        resolved(a),
        resolved(b),
    ensures
        !unresolved_pair(a, b),
    decreases a, b,
{
    match (a, b) {
        (TypeModel::Optional(x), TypeModel::Optional(y)) => lemma_resolved_pair(*x, *y),
        (TypeModel::Optional(x), _) => lemma_resolved_pair(*x, b),
        (_, TypeModel::Optional(y)) => lemma_resolved_pair(a, *y),
        (TypeModel::Record(x), TypeModel::Record(y)) => {
            assert forall|k: SymbolModel|
                x.dom().contains(k) && y.dom().contains(k) implies !unresolved_pair(x[k], y[k]) by {
                lemma_resolved_pair(x[k], y[k]);
            }
        },
        (TypeModel::Table(x), TypeModel::Table(y)) => {
            assert forall|k: SymbolModel|
                x.dom().contains(k) && y.dom().contains(k) implies !unresolved_pair(x[k], y[k]) by {
                lemma_resolved_pair(x[k], y[k]);
            }
        },
        _ => {},
    }
}

/// Unifying resolved types gives a resolved type.
pub proof fn lemma_unify_resolved(a: TypeModel, b: TypeModel)
    requires
        resolved(a),
        resolved(b),
        unify_model(a, b) is Some,
    ensures
        resolved(unify_model(a, b)->0),
    decreases a, b,
{
    match (a, b) {
        (TypeModel::Optional(x), TypeModel::Optional(y)) => lemma_unify_resolved(*x, *y),
        (TypeModel::Optional(x), _) => lemma_unify_resolved(*x, b),
        (_, TypeModel::Optional(y)) => lemma_unify_resolved(a, *y),
        (TypeModel::Record(x), TypeModel::Record(y)) => {
            let m = record_unify(a, b)->0;
            assert forall|k: SymbolModel| #[trigger] m.dom().contains(k) implies resolved(m[k]) by {
                if x.dom().contains(k) && y.dom().contains(k) {
                    lemma_unify_resolved(x[k], y[k]);
                }
            }
        },
        (TypeModel::Table(x), TypeModel::Table(y)) => {
            let m = record_unify(a, b)->0;
            assert forall|k: SymbolModel| #[trigger] m.dom().contains(k) implies resolved(m[k]) by {
                if x.dom().contains(k) && y.dom().contains(k) {
                    lemma_unify_resolved(x[k], y[k]);
                }
            }
        },
        _ => {},
    }
}

/// Unification of two field maps.
pub open spec fn fields_unify(fa: Map<SymbolModel, TypeModel>, fb: Map<SymbolModel, TypeModel>) -> Option<
    Map<SymbolModel, TypeModel>,
> {
    record_unify(TypeModel::Record(fa), TypeModel::Record(fb))
}

proof fn lemma_table_unify(fa: Map<SymbolModel, TypeModel>, fb: Map<SymbolModel, TypeModel>)
    ensures
        record_unify(TypeModel::Table(fa), TypeModel::Table(fb)) == fields_unify(fa, fb),
        unresolved_pair(TypeModel::Table(fa), TypeModel::Table(fb)) == unresolved_pair(
            TypeModel::Record(fa),
            TypeModel::Record(fb),
        ),
        forall|e: ErrorModel|
            record_error(TypeModel::Table(fa), TypeModel::Table(fb), e) == record_error(
                TypeModel::Record(fa),
                TypeModel::Record(fb),
                e,
            ),
{
    assert(fields_of(TypeModel::Table(fa)) == fa);
    assert(fields_of(TypeModel::Record(fa)) == fa);
    assert(fields_of(TypeModel::Table(fb)) == fb);
    assert(fields_of(TypeModel::Record(fb)) == fb);
    reveal_with_fuel(record_unify, 2);
    reveal_with_fuel(unresolved_pair, 2);
    reveal_with_fuel(record_error, 2);
}

/// The errors that unifying `a` with `b` may report when they do not
/// unify: both types when their kinds differ or scalars or table references
/// do not match; through an optional type, the error of what it wraps; for
/// records, `record_error`.
pub open spec fn unify_error(a: TypeModel, b: TypeModel, e: ErrorModel) -> bool
    decreases a, b, 1nat,
{
    match (a, b) {
        (TypeModel::Optional(x), TypeModel::Optional(y)) => unify_error(*x, *y, e),
        (TypeModel::Optional(x), _) => unify_error(*x, b, e),
        (_, TypeModel::Optional(y)) => unify_error(a, *y, e),
        (TypeModel::Record(_), TypeModel::Record(_)) => record_error(a, b, e),
        (TypeModel::Table(_), TypeModel::Table(_)) => record_error(a, b, e),
        _ => e == ErrorModel::TypeUnifyError(a, b),
    }
}

/// The errors of record unification. When the shapes do not line up: a
/// field that one side has and the other lacks if both have as many fields,
/// else both records. Otherwise the error of a shared field that does not
/// unify.
pub open spec fn record_error(a: TypeModel, b: TypeModel, e: ErrorModel) -> bool
    decreases a, b, 0nat,
{
    let fa = fields_of(a);
    let fb = fields_of(b);
    if !shapes_match(fa, fb) {
        if fa.dom().len() == fb.dom().len() {
            exists|k: SymbolModel|
                e == ErrorModel::FieldNotFound(k) && fa.dom().contains(k) != fb.dom().contains(k)
        } else {
            e == ErrorModel::TypeUnifyError(TypeModel::Record(fa), TypeModel::Record(fb))
        }
    } else {
        exists|k: SymbolModel|
            #![trigger fa[k], fb[k]]
            fa.dom().contains(k) && fb.dom().contains(k) && unify_model(fa[k], fb[k]) is None
                && unify_error(fa[k], fb[k], e)
    }
}

/// The fields of a record or table type.
pub open spec fn fields_of(t: TypeModel) -> Map<SymbolModel, TypeModel> {
    match t {
        TypeModel::Record(m) => m,
        TypeModel::Table(m) => m,
        _ => Map::empty(),
    }
}

/// The most specific common type of `a` and `b`, or `None` when they do not
/// unify. An optional type is transparent: two optionals unify to an
/// optional, while an optional against a plain type unifies to a plain type.
/// Two table references unify when they name the same table.
pub open spec fn unify_model(a: TypeModel, b: TypeModel) -> Option<TypeModel>
    decreases a, b, 1nat,
{
    match (a, b) {
        (TypeModel::Optional(x), TypeModel::Optional(y)) => match unify_model(*x, *y) {
            Some(t) => Some(TypeModel::Optional(Box::new(t))),
            None => None,
        },
        (TypeModel::Optional(x), _) => unify_model(*x, b),
        (_, TypeModel::Optional(y)) => unify_model(a, *y),
        (TypeModel::Record(_), TypeModel::Record(_)) => match record_unify(a, b) {
            Some(r) => Some(TypeModel::Record(r)),
            None => None,
        },
        (TypeModel::Table(_), TypeModel::Table(_)) => match record_unify(a, b) {
            Some(r) => Some(TypeModel::Table(r)),
            None => None,
        },
        (TypeModel::Simple(x), TypeModel::Simple(y)) => match simple_unify(x, y) {
            Some(s) => Some(TypeModel::Simple(s)),
            None => None,
        },
        (TypeModel::TableName(x), TypeModel::TableName(y)) => if x == y {
            Some(a)
        } else {
            None
        },
        _ => None,
    }
}

/// Some aligned pair of `a` and `b` sets a table reference against a
/// materialised table: such input has skipped name resolution.
pub open spec fn unresolved_pair(a: TypeModel, b: TypeModel) -> bool
    decreases a, b,
{
    match (a, b) {
        (TypeModel::Optional(x), TypeModel::Optional(y)) => unresolved_pair(*x, *y),
        (TypeModel::Optional(x), _) => unresolved_pair(*x, b),
        (_, TypeModel::Optional(y)) => unresolved_pair(a, *y),
        (TypeModel::Record(x), TypeModel::Record(y)) => exists|k: SymbolModel|
            #![trigger x[k], y[k]]
            x.dom().contains(k) && y.dom().contains(k) && unresolved_pair(x[k], y[k]),
        (TypeModel::Table(x), TypeModel::Table(y)) => exists|k: SymbolModel|
            #![trigger x[k], y[k]]
            x.dom().contains(k) && y.dom().contains(k) && unresolved_pair(x[k], y[k]),
        (TypeModel::TableName(_), TypeModel::Table(_)) => true,
        (TypeModel::Table(_), TypeModel::TableName(_)) => true,
        _ => false,
    }
}

impl Domain<i64> {
    /// The interval's low and high ends.
    pub fn bounds(&self) -> (r: (i64, i64))
        ensures
            (r.0 as int, r.1 as int) == self@,
    {
        match *self {
            Domain::Range(l, h) => (l, h),
            Domain::Value(v) => (v, v),
        }
    }
}

impl Domain<u64> {
    /// The interval's low and high ends.
    pub fn bounds(&self) -> (r: (u64, u64))
        ensures
            (r.0 as int, r.1 as int) == self@,
    {
        match *self {
            Domain::Range(l, h) => (l, h),
            Domain::Value(v) => (v, v),
        }
    }
}

/// Unifies two signed refinements; on failure hands both back.
pub fn unify_domain_i64(a: &Domain<i64>, b: &Domain<i64>) -> (r: Result<
    Domain<i64>,
    (Domain<i64>, Domain<i64>),
>)
    ensures
        match interval_unify(a@, b@) {
            Some(d) => r is Ok && r->Ok_0@ == d,
            None => r == Err::<Domain<i64>, _>((*a, *b)),
        },
{
    let (al, ah) = a.bounds();
    let (bl, bh) = b.bounds();
    if al <= bl && bh <= ah {
        Ok(*b)
    } else if bl <= al && ah <= bh {
        Ok(*a)
    } else {
        Err((*a, *b))
    }
}

/// Unifies two unsigned refinements; on failure hands both back.
pub fn unify_domain_u64(a: &Domain<u64>, b: &Domain<u64>) -> (r: Result<
    Domain<u64>,
    (Domain<u64>, Domain<u64>),
>)
    ensures
        match interval_unify(a@, b@) {
            Some(d) => r is Ok && r->Ok_0@ == d,
            None => r == Err::<Domain<u64>, _>((*a, *b)),
        },
{
    let (al, ah) = a.bounds();
    let (bl, bh) = b.bounds();
    if al <= bl && bh <= ah {
        Ok(*b)
    } else if bl <= al && ah <= bh {
        Ok(*a)
    } else {
        Err((*a, *b))
    }
}

/// Whether `x` is one of the literals of `d`.
pub fn literal_listed(x: &String, d: &Vec<String>) -> (r: bool)
    ensures
        r == literal_set(d@).contains(x@),
{
    let mut i: usize = 0;
    while i < d.len()
        invariant
            i <= d.len(),
            forall|j: int| 0 <= j < i ==> d@[j]@ != x@,
        decreases d.len() - i,
    {
        if d[i] == *x {
            return true;
        }
        i += 1;
    }
    false
}

/// Whether every literal of `a` is a literal of `b`.
pub fn literals_within(a: &Vec<String>, b: &Vec<String>) -> (r: bool)
    ensures
        r == literal_set(a@).subset_of(literal_set(b@)),
{
    let mut i: usize = 0;
    while i < a.len()
        invariant
            i <= a.len(),
            forall|j: int| 0 <= j < i ==> literal_set(b@).contains(#[trigger] a@[j]@),
        decreases a.len() - i,
    {
        if !literal_listed(&a[i], b) {
            assert(literal_set(a@).contains(a@[i as int]@));
            return false;
        }
        i += 1;
    }
    true
}

pub proof fn lemma_literal_set_empty(d: Seq<String>)
    ensures
        literal_set(d).is_empty() <==> d.len() == 0,
{
    if d.len() > 0 {
        assert(literal_set(d).contains(d[0]@));
    } else {
        assert(literal_set(d) =~= Set::empty());
    }
}

fn literals_copy(d: &Vec<String>) -> (r: Vec<String>)
    ensures
        literal_set(r@) == literal_set(d@),
{
    let c = d.clone();
    assert(literal_set(c@) =~= literal_set(d@));
    c
}

/// Unification of scalar types.
pub fn unify_simple(a: &SimpleType, b: &SimpleType) -> (r: Result<SimpleType, TypeError>)
    ensures
        match simple_unify(a@, b@) {
            Some(s) => r is Ok && r->Ok_0@ == s,
            None => r is Err && r->Err_0@ == ErrorModel::TypeUnifyError(
                TypeModel::Simple(a@),
                TypeModel::Simple(b@),
            ),
        },
{
    match (a, b) {
        (SimpleType::Int(x), SimpleType::Int(y)) => match (x, y) {
            (None, _) => Ok(SimpleType::Int(*y)),
            (_, None) => Ok(SimpleType::Int(*x)),
            (Some(p), Some(q)) => match unify_domain_i64(p, q) {
                Ok(d) => Ok(SimpleType::Int(Some(d))),
                Err((l, h)) => Err(
                    TypeError::TypeUnifyError(
                        Type::Simple(SimpleType::Int(Some(l))),
                        Type::Simple(SimpleType::Int(Some(h))),
                    ),
                ),
            },
        },
        (SimpleType::Uint(x), SimpleType::Uint(y)) => match (x, y) {
            (None, _) => Ok(SimpleType::Uint(*y)),
            (_, None) => Ok(SimpleType::Uint(*x)),
            (Some(p), Some(q)) => match unify_domain_u64(p, q) {
                Ok(d) => Ok(SimpleType::Uint(Some(d))),
                Err((l, h)) => Err(
                    TypeError::TypeUnifyError(
                        Type::Simple(SimpleType::Uint(Some(l))),
                        Type::Simple(SimpleType::Uint(Some(h))),
                    ),
                ),
            },
        },
        (SimpleType::Float, SimpleType::Float) => Ok(SimpleType::Float),
        (SimpleType::String(x), SimpleType::String(y)) => {
            proof {
                lemma_literal_set_empty(x@);
                lemma_literal_set_empty(y@);
            }
            if x.len() == 0 {
                Ok(SimpleType::String(literals_copy(y)))
            } else if y.len() == 0 {
                Ok(SimpleType::String(literals_copy(x)))
            } else if literals_within(x, y) {
                Ok(SimpleType::String(literals_copy(x)))
            } else if literals_within(y, x) {
                Ok(SimpleType::String(literals_copy(y)))
            } else {
                Err(TypeError::TypeUnifyError(Type::Simple(a.copy()), Type::Simple(b.copy())))
            }
        },
        _ => Err(TypeError::TypeUnifyError(Type::Simple(a.copy()), Type::Simple(b.copy()))),
    }
}

/// Whether every field name of `xs` names a field of `ys`.
pub fn keys_within(xs: &Vec<(Symbol, Type)>, ys: &Vec<(Symbol, Type)>) -> (r: bool)
    ensures
        r == forall|j: int| 0 <= j < xs@.len() ==> has_key(ys@, #[trigger] xs@[j].0@),
{
    let mut i: usize = 0;
    while i < xs.len()
        invariant
            i <= xs.len(),
            forall|j: int| 0 <= j < i ==> has_key(ys@, #[trigger] xs@[j].0@),
        decreases xs.len() - i,
    {
        if find_field(ys, &xs[i].0).is_none() {
            return false;
        }
        i += 1;
    }
    true
}

/// Whether every non-optional field of `xs` names a field of `ys`.
fn required_within(xs: &Vec<(Symbol, Type)>, ys: &Vec<(Symbol, Type)>) -> (r: bool)
    ensures
        r == forall|j: int|
            0 <= j < xs@.len() && !(xs@[j].1 is Optional) ==> has_key(ys@, #[trigger] xs@[j].0@),
{
    let mut i: usize = 0;
    while i < xs.len()
        invariant
            i <= xs.len(),
            forall|j: int|
                0 <= j < i && !(xs@[j].1 is Optional) ==> has_key(ys@, #[trigger] xs@[j].0@),
        decreases xs.len() - i,
    {
        if !xs[i].1.is_optional() && find_field(ys, &xs[i].0).is_none() {
            return false;
        }
        i += 1;
    }
    true
}

/// Whether every field of `xs` names a non-optional field of `ys`.
fn within_required(xs: &Vec<(Symbol, Type)>, ys: &Vec<(Symbol, Type)>) -> (r: bool)
    requires
        keys_unique(ys@),
    ensures
        r == forall|j: int|
            0 <= j < xs@.len() ==> has_key(ys@, #[trigger] xs@[j].0@) && !(ys@[key_at(
                ys@,
                xs@[j].0@,
            )].1 is Optional),
{
    let mut i: usize = 0;
    while i < xs.len()
        invariant
            keys_unique(ys@),
            i <= xs.len(),
            forall|j: int|
                0 <= j < i ==> has_key(ys@, #[trigger] xs@[j].0@) && !(ys@[key_at(
                    ys@,
                    xs@[j].0@,
                )].1 is Optional),
        decreases xs.len() - i,
    {
        match find_field(ys, &xs[i].0) {
            None => {
                return false;
            },
            Some(j) => {
                if ys[j].1.is_optional() {
                    return false;
                }
            },
        }
        i += 1;
    }
    true
}

proof fn lemma_same_names(a: Record, b: Record)
    requires
        a.wf(),
        b.wf(),
    ensures
        (a@.fields.dom() == b@.fields.dom()) <==> ((forall|j: int|
            0 <= j < a.fields@.len() ==> has_key(b.fields@, #[trigger] a.fields@[j].0@)) && (
        forall|j: int| 0 <= j < b.fields@.len() ==> has_key(a.fields@, #[trigger] b.fields@[j].0@))),
{
    lemma_record_model(a);
    lemma_record_model(b);
    let fa = a.fields@;
    let fb = b.fields@;
    if a@.fields.dom() == b@.fields.dom() {
        assert forall|j: int| 0 <= j < fa.len() implies has_key(fb, #[trigger] fa[j].0@) by {
            assert(a@.fields.dom().contains(fa[j].0@));
        }
        assert forall|j: int| 0 <= j < fb.len() implies has_key(fa, #[trigger] fb[j].0@) by {
            assert(b@.fields.dom().contains(fb[j].0@));
        }
    }
    if (forall|j: int| 0 <= j < fa.len() ==> has_key(fb, #[trigger] fa[j].0@)) && (forall|j: int|
        0 <= j < fb.len() ==> has_key(fa, #[trigger] fb[j].0@)) {
        assert forall|k: SymbolModel| a@.fields.dom().contains(k) <==> b@.fields.dom().contains(k) by {
            if has_key(fa, k) {
                let j = choose|j: int| 0 <= j < fa.len() && fa[j].0@ == k;
                assert(has_key(fb, fa[j].0@));
            }
            if has_key(fb, k) {
                let j = choose|j: int| 0 <= j < fb.len() && fb[j].0@ == k;
                assert(has_key(fa, fb[j].0@));
            }
        }
        assert(a@.fields.dom() =~= b@.fields.dom());
    }
}

proof fn lemma_required_names(a: Record, b: Record)
    requires
        a.wf(),
        b.wf(),
    ensures
        (b@.fields.dom() == required_keys(a@.fields)) <==> ((forall|j: int|
            0 <= j < a.fields@.len() && !(a.fields@[j].1 is Optional) ==> has_key(
                b.fields@,
                #[trigger] a.fields@[j].0@,
            )) && (forall|j: int|
            0 <= j < b.fields@.len() ==> has_key(a.fields@, #[trigger] b.fields@[j].0@) && !(
            a.fields@[key_at(a.fields@, b.fields@[j].0@)].1 is Optional))),
{
    lemma_record_model(a);
    lemma_record_model(b);
    let fa = a.fields@;
    let fb = b.fields@;
    let ma = a@.fields;
    let mb = b@.fields;
    if mb.dom() == required_keys(ma) {
        assert forall|j: int| 0 <= j < fa.len() && !(fa[j].1 is Optional) implies has_key(
            fb,
            #[trigger] fa[j].0@,
        ) by {
            lemma_key_at(fa, j);
            assert(required_keys(ma).contains(fa[j].0@));
        }
        assert forall|j: int| 0 <= j < fb.len() implies has_key(fa, #[trigger] fb[j].0@) && !(
        fa[key_at(fa, fb[j].0@)].1 is Optional) by {
            assert(mb.dom().contains(fb[j].0@));
            assert(required_keys(ma).contains(fb[j].0@));
        }
    }
    if (forall|j: int|
        0 <= j < fa.len() && !(fa[j].1 is Optional) ==> has_key(fb, #[trigger] fa[j].0@)) && (
    forall|j: int|
        0 <= j < fb.len() ==> has_key(fa, #[trigger] fb[j].0@) && !(fa[key_at(
            fa,
            fb[j].0@,
        )].1 is Optional)) {
        assert forall|k: SymbolModel| mb.dom().contains(k) <==> required_keys(ma).contains(k) by {
            if has_key(fb, k) {
                let j = choose|j: int| 0 <= j < fb.len() && fb[j].0@ == k;
                assert(has_key(fa, fb[j].0@));
            }
            if required_keys(ma).contains(k) {
                let j = key_at(fa, k);
                lemma_key_at(fa, j);
                assert(!(fa[j].1 is Optional));
                assert(has_key(fb, fa[j].0@));
            }
        }
        assert(mb.dom() =~= required_keys(ma));
    }
}

/// The error for records whose shapes do not line up: a field missing on
/// the other side when both have as many fields, else both records.
fn shape_error(a: &Record, b: &Record) -> (e: TypeError)
    requires
        a.wf(),
        b.wf(),
        !shapes_match(a@.fields, b@.fields),
    ensures
        record_error(TypeModel::Record(a@.fields), TypeModel::Record(b@.fields), e@),
{
    proof {
        lemma_record_model(*a);
        lemma_record_model(*b);
        assert(keys_unique(a.fields@));
        assert(keys_unique(b.fields@));
        lemma_fields_map_len(a.fields@);
        lemma_fields_map_len(b.fields@);
        lemma_same_names(*a, *b);
    }
    if a.fields.len() == b.fields.len() {
        if !keys_within(&a.fields, &b.fields) {
            let i = missing_key(&a.fields, &b.fields);
            let e = TypeError::FieldNotFound(a.fields[i].0.copy());
            proof {
                lemma_key_at(a.fields@, i as int);
                assert(!b@.fields.dom().contains(a.fields@[i as int].0@));
            }
            return e;
        }
        let i = missing_key(&b.fields, &a.fields);
        let e = TypeError::FieldNotFound(b.fields[i].0.copy());
        proof {
            lemma_key_at(b.fields@, i as int);
            assert(!a@.fields.dom().contains(b.fields@[i as int].0@));
        }
        return e;
    }
    let ca = a.copy();
    let cb = b.copy();
    proof {
        lemma_record_model(ca);
        lemma_record_model(cb);
        assert(model(Type::Record(ca)) == TypeModel::Record(a@.fields));
        assert(model(Type::Record(cb)) == TypeModel::Record(b@.fields));
    }
    TypeError::TypeUnifyError(Type::Record(ca), Type::Record(cb))
}

/// The position of a field of `xs` whose name `ys` lacks.
fn missing_key(xs: &Vec<(Symbol, Type)>, ys: &Vec<(Symbol, Type)>) -> (i: usize)
    requires
        !(forall|j: int| 0 <= j < xs@.len() ==> has_key(ys@, #[trigger] xs@[j].0@)),
    ensures
        i < xs@.len(),
        !has_key(ys@, xs@[i as int].0@),
{
    let mut i: usize = 0;
    while i < xs.len()
        invariant
            i <= xs.len(),
            forall|j: int| 0 <= j < i ==> has_key(ys@, #[trigger] xs@[j].0@),
            !(forall|j: int| 0 <= j < xs@.len() ==> has_key(ys@, #[trigger] xs@[j].0@)),
        decreases xs.len() - i,
    {
        if find_field(ys, &xs[i].0).is_none() {
            return i;
        }
        i += 1;
    }
    i
}

/// The result fields of record unification, over the names that `keys`
/// holds.
pub open spec fn merged_fields(
    ma: Map<SymbolModel, TypeModel>,
    mb: Map<SymbolModel, TypeModel>,
    keys: Seq<(Symbol, Type)>,
) -> Map<SymbolModel, TypeModel> {
    Map::new(|k: SymbolModel| has_key(keys, k), |k: SymbolModel| merged_value(ma, mb, k))
}

pub proof fn lemma_merged_push(
    ma: Map<SymbolModel, TypeModel>,
    mb: Map<SymbolModel, TypeModel>,
    keys: Seq<(Symbol, Type)>,
    p: (Symbol, Type),
)
    ensures
        merged_fields(ma, mb, keys.push(p)) == merged_fields(ma, mb, keys).insert(
            p.0@,
            merged_value(ma, mb, p.0@),
        ),
{
    assert forall|k2: SymbolModel| #[trigger]
        merged_fields(ma, mb, keys.push(p)).dom().contains(k2) <==> merged_fields(
            ma,
            mb,
            keys,
        ).insert(p.0@, merged_value(ma, mb, p.0@)).dom().contains(k2) by {
        lemma_has_key_push(keys, p, k2);
    }
    assert(merged_fields(ma, mb, keys.push(p)) =~= merged_fields(ma, mb, keys).insert(
        p.0@,
        merged_value(ma, mb, p.0@),
    ));
}

/// The type of field `k` after record unification.
pub open spec fn merged_value(
    ma: Map<SymbolModel, TypeModel>,
    mb: Map<SymbolModel, TypeModel>,
    k: SymbolModel,
) -> TypeModel {
    if ma.dom().contains(k) && mb.dom().contains(k) {
        unify_model(ma[k], mb[k])->0
    } else if ma.dom().contains(k) {
        ma[k]
    } else {
        mb[k]
    }
}

/// Record unification.
pub fn unify_record(a: &Record, b: &Record) -> (r: Result<Record, TypeError>)
    requires
        a.wf(),
        b.wf(),
        forall|k: SymbolModel|
            #![trigger a@.fields[k], b@.fields[k]]
            a@.fields.dom().contains(k) && b@.fields.dom().contains(k) ==> !unresolved_pair(
                a@.fields[k],
                b@.fields[k],
            ),
    ensures
        match fields_unify(a@.fields, b@.fields) {
            Some(m) => r is Ok && r->Ok_0@.fields == m && r->Ok_0@.label == a.label@ && r->Ok_0.wf(),
            None => r is Err && record_error(
                TypeModel::Record(a@.fields),
                TypeModel::Record(b@.fields),
                r->Err_0@,
            ),
        },
    decreases a, b, 0nat,
{
    let fa = &a.fields;
    let fb = &b.fields;
    let same = keys_within(fa, fb) && keys_within(fb, fa);
    let a_wide = same || (required_within(fa, fb) && within_required(fb, fa));
    let b_wide = !a_wide && required_within(fb, fa) && within_required(fa, fb);
    let ghost ma = a@.fields;
    let ghost mb = b@.fields;
    proof {
        lemma_record_model(*a);
        lemma_record_model(*b);
        lemma_same_names(*a, *b);
        lemma_required_names(*a, *b);
        lemma_required_names(*b, *a);
        assert(required_keys(ma).subset_of(ma.dom()));
        assert(required_keys(mb).subset_of(mb.dom()));
        assert(keys_unique(a.fields@));
        assert(keys_unique(b.fields@));
    }
    if !a_wide && !b_wide {
        return Err(shape_error(a, b));
    }
    let wide = if a_wide {
        fa
    } else {
        fb
    };
    let narrow = if a_wide {
        fb
    } else {
        fa
    };
    let mut out: Vec<(Symbol, Type)> = Vec::new();
    let mut i: usize = 0;
    proof {
        lemma_fields_map_empty();
        assert(merged_fields(ma, mb, wide@.take(0)) =~= Map::empty());
    }
    while i < wide.len()
        invariant
            a.wf(),
            b.wf(),
            ma == a@.fields,
            mb == b@.fields,
            shapes_match(ma, mb),
            keys_unique(wide@),
            keys_unique(narrow@),
            ma == fields_map(a.fields@),
            mb == fields_map(b.fields@),
            forall|k: SymbolModel|
                #![trigger ma[k], mb[k]]
                ma.dom().contains(k) && mb.dom().contains(k) ==> !unresolved_pair(ma[k], mb[k]),
            fa == &a.fields,
            fb == &b.fields,
            a_wide ==> wide == fa && narrow == fb,
            !a_wide ==> wide == fb && narrow == fa,
            i <= wide.len(),
            out@.len() == i,
            keys_unique(out@),
            forall|j: int| 0 <= j < i ==> out@[j].0 == wide@[j].0,
            forall|j: int| 0 <= j < i ==> wf(#[trigger] out@[j].1),
            forall|k: SymbolModel|
                #![trigger ma[k], mb[k]]
                has_key(wide@.take(i as int), k) && ma.dom().contains(k) && mb.dom().contains(k)
                    ==> unify_model(ma[k], mb[k]) is Some,
            fields_map(out@) == merged_fields(ma, mb, wide@.take(i as int)),
        decreases wide.len() - i,
    {
        let ghost k = wide@[i as int].0@;
        proof {
            lemma_key_at(wide@, i as int);
            assert(!has_key(out@, k)) by {
                if has_key(out@, k) {
                    let j = choose|j: int| 0 <= j < out@.len() && out@[j].0@ == k;
                    assert(wide@[j].0@ == k);
                }
            }
        }
        let t = match find_field(narrow, &wide[i].0) {
            Some(j) => {
                proof {
                    lemma_key_at(narrow@, j as int);
                    if a_wide {
                        assert(wide@ == a.fields@);
                        assert(narrow@ == b.fields@);
                    } else {
                        assert(wide@ == b.fields@);
                        assert(narrow@ == a.fields@);
                    }
                    assert(ma.dom().contains(k) && mb.dom().contains(k));
                }
                let u = if a_wide {
                    proof {
                        assert(decreases_to!(a.fields => a.fields[i as int]));
                        assert(decreases_to!(a.fields[i as int] => a.fields[i as int].1));
                        assert(wf(a.fields@[i as int].1));
                        assert(wf(b.fields@[j as int].1));
                    }
                    unify_type(&fa[i].1, &fb[j].1)
                } else {
                    proof {
                        assert(decreases_to!(a.fields => a.fields[j as int]));
                        assert(decreases_to!(a.fields[j as int] => a.fields[j as int].1));
                        assert(wf(a.fields@[j as int].1));
                        assert(wf(b.fields@[i as int].1));
                    }
                    unify_type(&fa[j].1, &fb[i].1)
                };
                match u {
                    Ok(t) => {
                        proof {
                            if a_wide {
                                assert(model(t) == unify_model(ma[k], mb[k])->0);
                            } else {
                                assert(model(t) == unify_model(ma[k], mb[k])->0);
                            }
                        }
                        t
                    },
                    Err(e) => {
                        proof {
                            assert(unify_model(ma[k], mb[k]) is None);
                            assert(unify_error(ma[k], mb[k], e@));
                            assert(record_error(TypeModel::Record(ma), TypeModel::Record(mb), e@));
                        }
                        return Err(e);
                    },
                }
            },
            None => {
                proof {
                    if a_wide {
                        assert(wide@ == a.fields@);
                        assert(wf(a.fields[i as int].1));
                    } else {
                        assert(wide@ == b.fields@);
                        assert(wf(b.fields[i as int].1));
                    }
                    assert(wf(wide@[i as int].1));
                    if a_wide {
                        assert(!mb.dom().contains(k));
                    } else {
                        assert(!ma.dom().contains(k));
                    }
                }
                let c = wide[i].1.copy();
                proof {
                    if a_wide {
                        assert(model(c) == ma[k]);
                    } else {
                        assert(model(c) == mb[k]);
                    }
                }
                c
            },
        };
        proof {
            assert(model(t) == merged_value(ma, mb, k));
        }
        let key = wide[i].0.copy();
        proof {
            let pre = wide@.take(i as int);
            assert(wide@.take(i + 1) =~= pre.push(wide@[i as int]));
            lemma_fields_map_push(out@, (key, t));
            lemma_merged_push(ma, mb, pre, wide@[i as int]);
        }
        out.push((key, t));
        i += 1;
    }
    let r = Record { fields: out, label: a.label.clone() };
    proof {
        assert(wide@.take(i as int) =~= wide@);
        lemma_record_model(r);
        assert forall|k: SymbolModel| (ma.dom().contains(k) || mb.dom().contains(k)) <==> has_key(wide@, k) by {
            if has_key(wide@, k) {
                let j = choose|j: int| 0 <= j < wide@.len() && wide@[j].0@ == k;
                lemma_key_at(wide@, j);
            }
        }
        let m = fields_unify(a@.fields, b@.fields)->0;
        assert(r@.fields =~= m);
    }
    Ok(r)
}

/// Whether two scalar types are the same.
pub fn simple_equal(a: &SimpleType, b: &SimpleType) -> (r: bool)
    ensures
        r == (a@ == b@),
{
    match (a, b) {
        (SimpleType::Int(x), SimpleType::Int(y)) => match (x, y) {
            (None, None) => true,
            (Some(p), Some(q)) => {
                let (pl, ph) = p.bounds();
                let (ql, qh) = q.bounds();
                pl == ql && ph == qh
            },
            _ => false,
        },
        (SimpleType::Uint(x), SimpleType::Uint(y)) => match (x, y) {
            (None, None) => true,
            (Some(p), Some(q)) => {
                let (pl, ph) = p.bounds();
                let (ql, qh) = q.bounds();
                pl == ql && ph == qh
            },
            _ => false,
        },
        (SimpleType::Float, SimpleType::Float) => true,
        (SimpleType::String(x), SimpleType::String(y)) => {
            let e = literals_within(x, y) && literals_within(y, x);
            proof {
                if e {
                    assert(literal_set(x@) =~= literal_set(y@));
                }
            }
            e
        },
        _ => false,
    }
}

/// Whether two records have the same fields with the same types.
pub fn fields_equal(a: &Record, b: &Record) -> (r: bool)
    requires
        a.wf(),
        b.wf(),
    ensures
        r == (a@.fields == b@.fields),
    decreases a, b, 0nat,
{
    proof {
        lemma_record_model(*a);
        lemma_record_model(*b);
        assert(keys_unique(a.fields@));
        assert(keys_unique(b.fields@));
    }
    let ghost ma = a@.fields;
    let ghost mb = b@.fields;
    let mut i: usize = 0;
    while i < a.fields.len()
        invariant
            a.wf(),
            b.wf(),
            ma == fields_map(a.fields@),
            mb == fields_map(b.fields@),
            ma == a@.fields,
            mb == b@.fields,
            keys_unique(a.fields@),
            keys_unique(b.fields@),
            i <= a.fields.len(),
            forall|j: int|
                0 <= j < i ==> mb.dom().contains(#[trigger] a.fields@[j].0@) && mb[a.fields@[j].0@]
                    == ma[a.fields@[j].0@],
        decreases a.fields.len() - i,
    {
        let ghost k = a.fields@[i as int].0@;
        proof {
            lemma_key_at(a.fields@, i as int);
        }
        match find_field(&b.fields, &a.fields[i].0) {
            None => {
                return false;
            },
            Some(j) => {
                proof {
                    lemma_key_at(b.fields@, j as int);
                    assert(decreases_to!(a.fields => a.fields[i as int]));
                    assert(decreases_to!(a.fields[i as int] => a.fields[i as int].1));
                    assert(wf(a.fields[i as int].1));
                    assert(wf(b.fields[j as int].1));
                }
                if !type_equal(&a.fields[i].1, &b.fields[j].1) {
                    return false;
                }
            },
        }
        i += 1;
    }
    if !keys_within(&b.fields, &a.fields) {
        proof {
            let j = choose|j: int|
                0 <= j < b.fields@.len() && !has_key(a.fields@, #[trigger] b.fields@[j].0@);
            lemma_key_at(b.fields@, j);
        }
        return false;
    }
    proof {
        assert forall|k: SymbolModel| ma.dom().contains(k) <==> mb.dom().contains(k) by {
            if has_key(b.fields@, k) {
                let j = choose|j: int| 0 <= j < b.fields@.len() && b.fields@[j].0@ == k;
                assert(has_key(a.fields@, b.fields@[j].0@));
            }
            if has_key(a.fields@, k) {
                let j = choose|j: int| 0 <= j < a.fields@.len() && a.fields@[j].0@ == k;
                lemma_key_at(a.fields@, j);
            }
        }
        assert forall|k: SymbolModel| #[trigger] ma.dom().contains(k) implies ma[k] == mb[k] by {
            let j = choose|j: int| 0 <= j < a.fields@.len() && a.fields@[j].0@ == k;
            lemma_key_at(a.fields@, j);
        }
        assert(ma =~= mb);
    }
    true
}

/// Whether two types are the same.
pub fn type_equal(a: &Type, b: &Type) -> (r: bool)
    requires
        wf(*a),
        wf(*b),
    ensures
        r == (a@ == b@),
    decreases a, b,
{
    match (a, b) {
        (Type::Optional(x), Type::Optional(y)) => type_equal(&x.0, &y.0),
        (Type::Record(x), Type::Record(y)) => {
            proof {
                lemma_record_model(*x);
                lemma_record_model(*y);
            }
            fields_equal(x, y)
        },
        (Type::Table(x), Type::Table(y)) => {
            proof {
                lemma_table_model(*x);
                lemma_table_model(*y);
            }
            fields_equal(&x.0, &y.0)
        },
        (Type::Simple(x), Type::Simple(y)) => simple_equal(x, y),
        (Type::TableName(x), Type::TableName(y)) => x.0 == y.0,
        _ => false,
    }
}

/// Unification of types.
pub fn unify_type(a: &Type, b: &Type) -> (r: Result<Type, TypeError>)
    requires
        wf(*a),
        wf(*b),
        !unresolved_pair(a@, b@),
    ensures
        match unify_model(a@, b@) {
            Some(t) => r is Ok && r->Ok_0@ == t && wf(r->Ok_0),
            None => r is Err && unify_error(a@, b@, r->Err_0@),
        },
    decreases a, b,
{
    match (a, b) {
        (Type::Optional(x), Type::Optional(y)) => match unify_type(&x.0, &y.0) {
            Ok(t) => Ok(Type::Optional(Optional(Box::new(t)))),
            Err(e) => Err(e),
        },
        (Type::Optional(x), _) => unify_type(&x.0, b),
        (_, Type::Optional(y)) => unify_type(a, &y.0),
        (Type::Record(x), Type::Record(y)) => {
            proof {
                lemma_record_model(*x);
                lemma_record_model(*y);
            }
            match unify_record(x, y) {
                Ok(r) => {
                    proof {
                        lemma_record_model(r);
                    }
                    Ok(Type::Record(r))
                },
                Err(e) => Err(e),
            }
        },
        (Type::Table(x), Type::Table(y)) => {
            proof {
                lemma_table_model(*x);
                lemma_table_model(*y);
                assert(a@ == TypeModel::Table(x.0@.fields));
                assert(b@ == TypeModel::Table(y.0@.fields));
                lemma_table_unify(x.0@.fields, y.0@.fields);
                assert(forall|k: SymbolModel|
                    #![trigger x.0@.fields[k], y.0@.fields[k]]
                    x.0@.fields.dom().contains(k) && y.0@.fields.dom().contains(k)
                        ==> !unresolved_pair(x.0@.fields[k], y.0@.fields[k]));
                assert(unify_model(a@, b@) == match fields_unify(x.0@.fields, y.0@.fields) {
                    Some(m) => Some(TypeModel::Table(m)),
                    None => None::<TypeModel>,
                });
            }
            match unify_record(&x.0, &y.0) {
                Ok(r) => {
                    proof {
                        lemma_table_model(Lines(r));
                    }
                    Ok(Type::Table(Lines(r)))
                },
                Err(e) => Err(e),
            }
        },
        (Type::Simple(x), Type::Simple(y)) => match unify_simple(x, y) {
            Ok(s) => Ok(Type::Simple(s)),
            Err(e) => Err(e),
        },
        (Type::TableName(x), Type::TableName(y)) => {
            if x.0 == y.0 {
                Ok(Type::TableName(TableName(x.0.clone())))
            } else {
                Err(TypeError::TypeUnifyError(a.copy(), b.copy()))
            }
        },
        _ => Err(TypeError::TypeUnifyError(a.copy(), b.copy())),
    }
}

} // verus!
