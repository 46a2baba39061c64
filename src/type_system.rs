//! Schemas and scalar types, their mathematical models, and the table namespace.
use vstd::prelude::*;

use crate::structs::{Symbol, SymbolModel};

pub mod domain;
pub mod unify;

verus! {

/// A schema or scalar type.
#[derive(Debug)]
pub enum Type {
    Optional(Optional),
    Record(Record),
    Simple(SimpleType),
    TableName(TableName),
    Table(Lines),
}

/// A nullable type.
#[derive(Debug)]
pub struct Optional(pub Box<Type>);

/// An ad-hoc union of types.
#[derive(Debug)]
pub struct Union(pub Vec<Type>);

/// A set of named fields, with the label of the relation it describes.
/// Field order carries no meaning; names are unique within one record.
#[derive(Debug)]
pub struct Record {
    pub fields: Vec<(Symbol, Type)>,
    pub label: String,
}

/// The schema of one row of a relation.
#[derive(Debug)]
pub struct Lines(pub Record);

/// A reference to a table of the namespace.
#[derive(Debug, Clone, PartialEq, Eq, Hash)]
pub struct TableName(pub String);

/// Scalar kinds. The numeric kinds carry an optional interval refinement
/// (`None` is unconstrained); `String` carries the permitted literals
/// (empty is unconstrained).
#[derive(Debug)]
pub enum SimpleType {
    Int(Option<Domain<i64>>),
    Uint(Option<Domain<u64>>),
    Float,
    String(Vec<String>),
}

/// An interval refinement of an ordered scalar.
#[derive(Debug, Clone, Copy, PartialEq, Eq, Structural)]
pub enum Domain<T> {
    Range(T, T),
    Value(T),
}

/// Why an expression is rejected.
#[derive(Debug)]
pub enum TypeError {
    TableNotFound(TableName),
    FieldNotFound(Symbol),
    InvalidProjectionNames,
    SchemaMismatch(Record, Record),
    EquiJoinKeyTypeMismatch(Symbol, Type, Symbol, Type),
    TypeUnifyError(Type, Type),
    DuplicateField(Symbol),
    NotNumeric(Symbol, Type),
    ExpressionTooDeep,
    NotImplemented(String),
}

// ---------------------------------------------------------------------------
// Models

/// The model of a scalar: numeric refinements are closed intervals
/// `(low, high)`; a string domain is a set of permitted literals.
pub enum SimpleModel {
    Int(Option<(int, int)>),
    Uint(Option<(int, int)>),
    Float,
    String(Set<Seq<char>>),
}

/// The model of a record: a finite map from field names to types, and a label.
pub struct RecordModel {
    pub fields: Map<SymbolModel, TypeModel>,
    pub label: Seq<char>,
}

/// The model of a type. A record type is its map of fields; labels belong
/// to relations, not to types.
pub enum TypeModel {
    Optional(Box<TypeModel>),
    Record(Map<SymbolModel, TypeModel>),
    Simple(SimpleModel),
    TableName(Seq<char>),
    Table(Map<SymbolModel, TypeModel>),
}

impl View for Domain<i64> {
    type V = (int, int);

    open spec fn view(&self) -> (int, int) {
        match *self {
            Domain::Range(l, h) => (l as int, h as int),
            Domain::Value(v) => (v as int, v as int),
        }
    }
}

impl View for Domain<u64> {
    type V = (int, int);

    open spec fn view(&self) -> (int, int) {
        match *self {
            Domain::Range(l, h) => (l as int, h as int),
            Domain::Value(v) => (v as int, v as int),
        }
    }
}

pub open spec fn opt_dom_i(d: Option<Domain<i64>>) -> Option<(int, int)> {
    match d {
        Some(x) => Some(x@),
        None => None,
    }
}

pub open spec fn opt_dom_u(d: Option<Domain<u64>>) -> Option<(int, int)> {
    match d {
        Some(x) => Some(x@),
        None => None,
    }
}

/// The set of literals that a string domain lists.
pub open spec fn literal_set(d: Seq<String>) -> Set<Seq<char>> {
    Set::new(|x: Seq<char>| exists|j: int| 0 <= j < d.len() && d[j]@ == x)
}

impl View for SimpleType {
    type V = SimpleModel;

    open spec fn view(&self) -> SimpleModel {
        match *self {
            SimpleType::Int(d) => SimpleModel::Int(opt_dom_i(d)),
            SimpleType::Uint(d) => SimpleModel::Uint(opt_dom_u(d)),
            SimpleType::Float => SimpleModel::Float,
            SimpleType::String(d) => SimpleModel::String(literal_set(d@)),
        }
    }
}

/// Whether some field of `fs` is named `k`.
pub open spec fn has_key(fs: Seq<(Symbol, Type)>, k: SymbolModel) -> bool {
    exists|j: int| 0 <= j < fs.len() && fs[j].0@ == k
}

/// The position of a field named `k` in `fs`, or -1.
pub open spec fn key_at(fs: Seq<(Symbol, Type)>, k: SymbolModel) -> int {
    if has_key(fs, k) {
        choose|j: int| 0 <= j < fs.len() && fs[j].0@ == k
    } else {
        -1
    }
}

/// Field names are pairwise distinct.
pub open spec fn keys_unique(fs: Seq<(Symbol, Type)>) -> bool {
    forall|i: int, j: int|
        0 <= i < fs.len() && 0 <= j < fs.len() && i != j ==> fs[i].0@ != fs[j].0@
}

/// The model of a type.
pub open spec fn model(t: Type) -> TypeModel
    decreases t,
{
    match t {
        Type::Optional(o) => TypeModel::Optional(Box::new(model(*o.0))),
        Type::Record(r) => TypeModel::Record(
            Map::new(
                |k: SymbolModel| has_key(r.fields@, k),
                |k: SymbolModel|
                    {
                        let j = key_at(r.fields@, k);
                        if 0 <= j < r.fields.len() {
                            model(r.fields[j].1)
                        } else {
                            TypeModel::Simple(SimpleModel::Float)
                        }
                    },
            ),
        ),
        Type::Simple(s) => TypeModel::Simple(s@),
        Type::TableName(n) => TypeModel::TableName(n.0@),
        Type::Table(l) => TypeModel::Table(
            Map::new(
                |k: SymbolModel| has_key(l.0.fields@, k),
                |k: SymbolModel|
                    {
                        let j = key_at(l.0.fields@, k);
                        if 0 <= j < l.0.fields.len() {
                            model(l.0.fields[j].1)
                        } else {
                            TypeModel::Simple(SimpleModel::Float)
                        }
                    },
            ),
        ),
    }
}

/// Every record inside `t` has unique field names.
pub open spec fn wf(t: Type) -> bool
    decreases t,
{
    match t {
        Type::Optional(o) => wf(*o.0),
        Type::Record(r) => keys_unique(r.fields@) && forall|i: int|
            0 <= i < r.fields.len() ==> wf(#[trigger] r.fields[i].1),
        Type::Table(l) => keys_unique(l.0.fields@) && forall|i: int|
            0 <= i < l.0.fields.len() ==> wf(#[trigger] l.0.fields[i].1),
        _ => true,
    }
}

impl View for Type {
    type V = TypeModel;

    open spec fn view(&self) -> TypeModel {
        model(*self)
    }
}

impl View for Record {
    type V = RecordModel;

    open spec fn view(&self) -> RecordModel {
        RecordModel { fields: model(Type::Record(*self))->Record_0, label: self.label@ }
    }
}

impl View for Lines {
    type V = RecordModel;

    open spec fn view(&self) -> RecordModel {
        self.0@
    }
}

impl Record {
    pub open spec fn wf(&self) -> bool {
        wf(Type::Record(*self))
    }
}

impl Lines {
    pub open spec fn wf(&self) -> bool {
        self.0.wf()
    }
}

/// The map that a field list stands for.
pub open spec fn fields_map(fs: Seq<(Symbol, Type)>) -> Map<SymbolModel, TypeModel> {
    Map::new(
        |k: SymbolModel| has_key(fs, k),
        |k: SymbolModel|
            {
                let j = key_at(fs, k);
                if 0 <= j < fs.len() {
                    model(fs[j].1)
                } else {
                    TypeModel::Simple(SimpleModel::Float)
                }
            },
    )
}

pub proof fn lemma_record_model(r: Record)
    ensures
        r@.fields == fields_map(r.fields@),
        r@.label == r.label@,
        model(Type::Record(r)) == TypeModel::Record(r@.fields),
{
    assert(r@.fields =~= fields_map(r.fields@));
}

pub proof fn lemma_table_model(l: Lines)
    ensures
        model(Type::Table(l)) == TypeModel::Table(l@.fields),
{
    lemma_record_model(l.0);
    assert(model(Type::Table(l))->Table_0 =~= fields_map(l.0.fields@));
}

pub proof fn lemma_key_at(fs: Seq<(Symbol, Type)>, j: int)
    requires
        keys_unique(fs),
        0 <= j < fs.len(),
    ensures
        has_key(fs, fs[j].0@),
        key_at(fs, fs[j].0@) == j,
        fields_map(fs).dom().contains(fs[j].0@),
        fields_map(fs)[fs[j].0@] == model(fs[j].1),
{
    assert(has_key(fs, fs[j].0@));
}

pub proof fn lemma_fields_map_push(fs: Seq<(Symbol, Type)>, p: (Symbol, Type))
    requires
        keys_unique(fs),
        !has_key(fs, p.0@),
    ensures
        keys_unique(fs.push(p)),
        fields_map(fs.push(p)) == fields_map(fs).insert(p.0@, model(p.1)),
{
    let gs = fs.push(p);
    assert forall|k: SymbolModel| has_key(gs, k) <==> (has_key(fs, k) || k == p.0@) by {
        if has_key(fs, k) {
            let j = choose|j: int| 0 <= j < fs.len() && fs[j].0@ == k;
            assert(gs[j].0@ == k);
        }
        if k == p.0@ {
            assert(gs[fs.len() as int].0@ == k);
        }
        if has_key(gs, k) && k != p.0@ {
            let j = choose|j: int| 0 <= j < gs.len() && gs[j].0@ == k;
            assert(fs[j].0@ == k);
        }
    }
    assert forall|k: SymbolModel| #[trigger] has_key(gs, k) implies fields_map(gs)[k] == fields_map(
        fs,
    ).insert(p.0@, model(p.1))[k] by {
        if k == p.0@ {
            lemma_key_at(gs, fs.len() as int);
        } else {
            let j = choose|j: int| 0 <= j < fs.len() && fs[j].0@ == k;
            lemma_key_at(fs, j);
            lemma_key_at(gs, j);
        }
    }
    assert(fields_map(gs) =~= fields_map(fs).insert(p.0@, model(p.1)));
}

pub proof fn lemma_has_key_push(fs: Seq<(Symbol, Type)>, p: (Symbol, Type), k: SymbolModel)
    ensures
        has_key(fs.push(p), k) <==> (has_key(fs, k) || k == p.0@),
{
    let gs = fs.push(p);
    if has_key(fs, k) {
        let j = choose|j: int| 0 <= j < fs.len() && fs[j].0@ == k;
        assert(gs[j].0@ == k);
    }
    if k == p.0@ {
        assert(gs[fs.len() as int].0@ == k);
    }
    if has_key(gs, k) && k != p.0@ {
        let j = choose|j: int| 0 <= j < gs.len() && gs[j].0@ == k;
        assert(fs[j].0@ == k);
    }
}

/// A field list with distinct names stands for a finite map with as many
/// entries.
pub proof fn lemma_fields_map_len(fs: Seq<(Symbol, Type)>)
    requires
        keys_unique(fs),
    ensures
        fields_map(fs).dom().finite(),
        fields_map(fs).dom().len() == fs.len(),
    decreases fs.len(),
{
    if fs.len() == 0 {
        lemma_fields_map_empty();
        assert(fs =~= Seq::<(Symbol, Type)>::empty());
    } else {
        let pre = fs.drop_last();
        let p = fs.last();
        assert(fs =~= pre.push(p));
        assert(keys_unique(pre));
        assert(!has_key(pre, p.0@)) by {
            if has_key(pre, p.0@) {
                let j = choose|j: int| 0 <= j < pre.len() && pre[j].0@ == p.0@;
                assert(fs[j].0@ == fs[fs.len() - 1].0@);
            }
        }
        lemma_fields_map_len(pre);
        lemma_fields_map_push(pre, p);
    }
}

pub proof fn lemma_fields_map_empty()
    ensures
        fields_map(Seq::empty()) == Map::<SymbolModel, TypeModel>::empty(),
{
    assert(fields_map(Seq::empty()) =~= Map::<SymbolModel, TypeModel>::empty());
}

/// The position of the field named `k`, if there is one.
pub fn find_field(fs: &Vec<(Symbol, Type)>, k: &Symbol) -> (r: Option<usize>)
    ensures
        r is Some <==> has_key(fs@, k@),
        r is Some ==> r->0 < fs@.len() && fs@[r->0 as int].0@ == k@,
        r is Some && keys_unique(fs@) ==> r->0 == key_at(fs@, k@),
{
    let mut i: usize = 0;
    while i < fs.len()
        invariant
            i <= fs.len(),
            forall|j: int| 0 <= j < i ==> fs@[j].0@ != k@,
        decreases fs.len() - i,
    {
        if fs[i].0.same(k) {
            proof {
                if keys_unique(fs@) {
                    lemma_key_at(fs@, i as int);
                }
            }
            return Some(i);
        }
        i += 1;
    }
    None
}

/// The model of an error.
pub enum ErrorModel {
    TableNotFound(Seq<char>),
    FieldNotFound(SymbolModel),
    InvalidProjectionNames,
    SchemaMismatch(RecordModel, RecordModel),
    EquiJoinKeyTypeMismatch(SymbolModel, TypeModel, SymbolModel, TypeModel),
    TypeUnifyError(TypeModel, TypeModel),
    DuplicateField(SymbolModel),
    NotNumeric(SymbolModel, TypeModel),
    ExpressionTooDeep,
    NotImplemented(Seq<char>),
}

impl View for TypeError {
    type V = ErrorModel;

    open spec fn view(&self) -> ErrorModel {
        match self {
            TypeError::TableNotFound(n) => ErrorModel::TableNotFound(n.0@),
            TypeError::FieldNotFound(s) => ErrorModel::FieldNotFound(s@),
            TypeError::InvalidProjectionNames => ErrorModel::InvalidProjectionNames,
            TypeError::SchemaMismatch(a, b) => ErrorModel::SchemaMismatch(a@, b@),
            TypeError::EquiJoinKeyTypeMismatch(s1, t1, s2, t2) => ErrorModel::EquiJoinKeyTypeMismatch(
                s1@,
                t1@,
                s2@,
                t2@,
            ),
            TypeError::TypeUnifyError(a, b) => ErrorModel::TypeUnifyError(a@, b@),
            TypeError::DuplicateField(s) => ErrorModel::DuplicateField(s@),
            TypeError::NotNumeric(s, t) => ErrorModel::NotNumeric(s@, t@),
            TypeError::ExpressionTooDeep => ErrorModel::ExpressionTooDeep,
            TypeError::NotImplemented(n) => ErrorModel::NotImplemented(n@),
        }
    }
}

/// The table namespace: each table name with the schema of its rows.
#[derive(Debug)]
pub struct Env(pub Vec<(TableName, Lines)>);

/// Whether a table is named `n` in `ts`.
pub open spec fn has_table(ts: Seq<(TableName, Lines)>, n: Seq<char>) -> bool {
    exists|j: int| 0 <= j < ts.len() && ts[j].0.0@ == n
}

impl View for Env {
    type V = Map<Seq<char>, RecordModel>;

    open spec fn view(&self) -> Map<Seq<char>, RecordModel> {
        Map::new(
            |n: Seq<char>| has_table(self.0@, n),
            |n: Seq<char>|
                self.0@[choose|j: int| 0 <= j < self.0@.len() && self.0@[j].0.0@ == n].1@,
        )
    }
}

impl Env {
    /// Table names are distinct, and every schema is well formed and holds no
    /// table reference.
    pub open spec fn wf(&self) -> bool {
        &&& forall|i: int, j: int|
            0 <= i < self.0@.len() && 0 <= j < self.0@.len() && i != j ==> self.0@[i].0.0@
                != self.0@[j].0.0@
        &&& forall|i: int| 0 <= i < self.0@.len() ==> (#[trigger] self.0@[i]).1.wf()
        &&& forall|i: int|
            0 <= i < self.0@.len() ==> crate::type_system::unify::resolved(
                TypeModel::Record((#[trigger] self.0@[i]).1@.fields),
            )
    }

    /// The empty namespace.
    pub fn new() -> (r: Env)
        ensures
            r.wf(),
            r@ == Map::<Seq<char>, RecordModel>::empty(),
    {
        let r = Env(Vec::new());
        assert(r@ =~= Map::<Seq<char>, RecordModel>::empty());
        r
    }

    /// The position of the table named `name`, if there is one.
    fn position(&self, name: &TableName) -> (r: Option<usize>)
        ensures
            r is Some <==> has_table(self.0@, name.0@),
            r is Some ==> r->0 < self.0@.len() && self.0@[r->0 as int].0.0@ == name.0@,
    {
        let mut i: usize = 0;
        while i < self.0.len()
            invariant
                i <= self.0.len(),
                forall|j: int| 0 <= j < i ==> self.0@[j].0.0@ != name.0@,
            decreases self.0.len() - i,
        {
            if self.0[i].0.0 == name.0 {
                return Some(i);
            }
            i += 1;
        }
        None
    }

    /// Adds a table, replacing one of the same name.
    pub fn insert(&mut self, name: TableName, lines: Lines)
        requires
            old(self).wf(),
            lines.wf(),
            crate::type_system::unify::resolved(TypeModel::Record(lines@.fields)),
        ensures
            final(self).wf(),
            final(self)@ == old(self)@.insert(name.0@, lines@),
    {
        let ghost n = name.0@;
        let ghost lm = lines@;
        match self.position(&name) {
            Some(i) => {
                self.0.set(i, (name, lines));
            },
            None => {
                self.0.push((name, lines));
            },
        }
        proof {
            assert forall|m: Seq<char>| #[trigger] has_table(self.0@, m) <==> (has_table(old(self).0@, m) || m == n) by {
                if has_table(old(self).0@, m) {
                    let j = choose|j: int| 0 <= j < old(self).0@.len() && old(self).0@[j].0.0@ == m;
                    if m != n {
                        assert(self.0@[j].0.0@ == m);
                    }
                }
                if has_table(self.0@, m) && m != n {
                    let j = choose|j: int| 0 <= j < self.0@.len() && self.0@[j].0.0@ == m;
                    assert(old(self).0@[j].0.0@ == m);
                }
                if m == n {
                    let j = if has_table(old(self).0@, n) {
                        choose|j: int| 0 <= j < old(self).0@.len() && old(self).0@[j].0.0@ == n
                    } else {
                        old(self).0@.len() as int
                    };
                    assert(self.0@[j].0.0@ == m);
                }
            }
            assert forall|m: Seq<char>| #[trigger] has_table(self.0@, m) implies self@[m] == old(self)@.insert(n, lm)[m] by {
                let j = choose|j: int| 0 <= j < self.0@.len() && self.0@[j].0.0@ == m;
                if m != n {
                    let k = choose|k: int| 0 <= k < old(self).0@.len() && old(self).0@[k].0.0@ == m;
                    assert(self.0@[k].0.0@ == m);
                }
            }
            assert(self@ =~= old(self)@.insert(n, lm));
        }
    }

    /// The schema of the table named `name`.
    pub fn get_table(&self, name: &TableName) -> (r: Option<&Lines>)
        requires
            self.wf(),
        ensures
            r is Some <==> self@.contains_key(name.0@),
            r is Some ==> r->0@ == self@[name.0@] && r->0.wf() && crate::type_system::unify::resolved(
                TypeModel::Record(r->0@.fields),
            ),
    {
        match self.position(name) {
            Some(i) => {
                proof {
                    let j = choose|j: int| 0 <= j < self.0@.len() && self.0@[j].0.0@ == name.0@;
                    assert(j == i);
                }
                Some(&self.0[i].1)
            },
            None => None,
        }
    }
}

impl Type {
    pub fn is_table(&self) -> (r: bool)
        ensures
            r == (*self is Table),
    {
        match self {
            Type::Table(_) => true,
            _ => false,
        }
    }

    pub fn is_record(&self) -> (r: bool)
        ensures
            r == (*self is Record),
    {
        match self {
            Type::Record(_) => true,
            _ => false,
        }
    }

    pub fn is_optional(&self) -> (r: bool)
        ensures
            r == (*self is Optional),
    {
        match self {
            Type::Optional(_) => true,
            _ => false,
        }
    }

    pub fn is_simple_type(&self) -> (r: bool)
        ensures
            r == (*self is Simple),
    {
        match self {
            Type::Simple(_) => true,
            _ => false,
        }
    }

    pub fn is_table_name(&self) -> (r: bool)
        ensures
            r == (*self is TableName),
    {
        match self {
            Type::TableName(_) => true,
            _ => false,
        }
    }

    pub fn get_table(&self) -> (r: Option<&Lines>)
        ensures
            r is Some <==> *self is Table,
            r is Some ==> *r->0 == self->Table_0,
    {
        match self {
            Type::Table(x) => Some(x),
            _ => None,
        }
    }

    pub fn get_record(&self) -> (r: Option<&Record>)
        ensures
            r is Some <==> *self is Record,
            r is Some ==> *r->0 == self->Record_0,
    {
        match self {
            Type::Record(x) => Some(x),
            _ => None,
        }
    }

    pub fn get_optional(&self) -> (r: Option<&Optional>)
        ensures
            r is Some <==> *self is Optional,
            r is Some ==> *r->0 == self->Optional_0,
    {
        match self {
            Type::Optional(x) => Some(x),
            _ => None,
        }
    }

    pub fn get_simple_type(&self) -> (r: Option<&SimpleType>)
        ensures
            r is Some <==> *self is Simple,
            r is Some ==> *r->0 == self->Simple_0,
    {
        match self {
            Type::Simple(x) => Some(x),
            _ => None,
        }
    }

    pub fn get_table_name(&self) -> (r: Option<&TableName>)
        ensures
            r is Some <==> *self is TableName,
            r is Some ==> *r->0 == self->TableName_0,
    {
        match self {
            Type::TableName(x) => Some(x),
            _ => None,
        }
    }

    /// The schema that a table or a table reference stands for.
    pub fn get_table_from_env<'a>(&'a self, env: &'a Env) -> (r: Option<&'a Lines>)
        requires
            env.wf(),
        ensures
            *self is Table ==> r == Some(&self->Table_0),
            *self is TableName ==> (r is Some <==> env@.contains_key(self->TableName_0.0@)),
            *self is TableName && r is Some ==> r->0@ == env@[self->TableName_0.0@],
            !(*self is Table) && !(*self is TableName) ==> r is None,
    {
        match self {
            Type::Table(x) => Some(x),
            Type::TableName(x) => env.get_table(x),
            _ => None,
        }
    }

    /// A deep copy.
    pub fn copy(&self) -> (r: Type)
        requires
            wf(*self),
        ensures
            r@ == self@,
            wf(r),
        decreases self,
    {
        match self {
            Type::Optional(o) => Type::Optional(Optional(Box::new(o.0.copy()))),
            Type::Record(r) => {
                let c = r.copy();
                proof {
                    lemma_record_model(*r);
                    lemma_record_model(c);
                }
                Type::Record(c)
            },
            Type::Simple(s) => Type::Simple(s.copy()),
            Type::TableName(n) => Type::TableName(TableName(n.0.clone())),
            Type::Table(l) => {
                let c = l.0.copy();
                proof {
                    lemma_table_model(*l);
                    lemma_table_model(Lines(c));
                }
                Type::Table(Lines(c))
            },
        }
    }
}

impl Record {
    /// A deep copy.
    pub fn copy(&self) -> (r: Record)
        requires
            self.wf(),
        ensures
            r@ == self@,
            r.wf(),
            r.fields@.len() == self.fields@.len(),
            forall|j: int| 0 <= j < r.fields@.len() ==> r.fields@[j].0 == self.fields@[j].0,
        decreases self, 0nat,
    {
        let mut out: Vec<(Symbol, Type)> = Vec::new();
        let mut i: usize = 0;
        proof {
            lemma_fields_map_empty();
            assert(self.fields@.subrange(0, 0) =~= Seq::<(Symbol, Type)>::empty());
        }
        while i < self.fields.len()
            invariant
                self.wf(),
                i <= self.fields.len(),
                out@.len() == i,
                keys_unique(out@),
                forall|j: int| 0 <= j < i ==> out@[j].0 == self.fields@[j].0,
                forall|j: int| 0 <= j < i ==> wf(#[trigger] out@[j].1),
                fields_map(out@) == fields_map(self.fields@.subrange(0, i as int)),
            decreases self.fields.len() - i,
        {
            proof {
                assert(decreases_to!(self.fields => self.fields[i as int]));
                assert(decreases_to!(self.fields[i as int] => self.fields[i as int].1));
                assert(wf(self.fields@[i as int].1));
            }
            let t = self.fields[i].1.copy();
            let k = self.fields[i].0.copy();
            proof {
                let pre = self.fields@.subrange(0, i as int);
                assert(keys_unique(pre));
                assert(!has_key(out@, k@)) by {
                    if has_key(out@, k@) {
                        let j = choose|j: int| 0 <= j < out@.len() && out@[j].0@ == k@;
                        assert(self.fields@[j].0@ == self.fields@[i as int].0@);
                    }
                }
                assert(!has_key(pre, k@)) by {
                    if has_key(pre, k@) {
                        let j = choose|j: int| 0 <= j < pre.len() && pre[j].0@ == k@;
                        assert(self.fields@[j].0@ == self.fields@[i as int].0@);
                    }
                }
                lemma_fields_map_push(out@, (k, t));
                lemma_fields_map_push(pre, self.fields@[i as int]);
                assert(self.fields@.subrange(0, i + 1) =~= pre.push(self.fields@[i as int]));
            }
            out.push((k, t));
            i += 1;
        }
        let r = Record { fields: out, label: self.label.clone() };
        proof {
            assert(self.fields@.subrange(0, i as int) =~= self.fields@);
            lemma_record_model(r);
            lemma_record_model(*self);
        }
        r
    }
}

impl SimpleType {
    /// A copy.
    pub fn copy(&self) -> (r: SimpleType)
        ensures
            r@ == self@,
    {
        match self {
            SimpleType::Int(d) => SimpleType::Int(*d),
            SimpleType::Uint(d) => SimpleType::Uint(*d),
            SimpleType::Float => SimpleType::Float,
            SimpleType::String(d) => {
                let c = d.clone();
                proof {
                    assert(literal_set(c@) =~= literal_set(d@));
                }
                SimpleType::String(c)
            },
        }
    }
}

} // verus!
