//! Source positions, located values, field symbols and scalar expressions.
use vstd::prelude::*;
use vstd::string::*;

pub mod ast;
pub mod plan;
pub mod plan_group;

verus! {

/// A position in the query text.
#[derive(Debug, Clone, Copy, PartialEq, Eq, Structural)]
pub struct Pos {
    pub offset: usize,
    pub line: usize,
    pub col: usize,
}

impl Pos {
    pub fn new(offset: usize, line: usize, col: usize) -> (r: Pos)
        ensures
            r.offset == offset,
            r.line == line,
            r.col == col,
    {
        Pos { offset, line, col }
    }
}

/// A value paired with the position it came from.
#[derive(Debug, Clone, PartialEq)]
pub struct Loc<T>(pub T, pub Pos);

/// A field name, optionally qualified by the label of the table it came from.
#[derive(Debug, Clone, PartialEq, Eq, Hash)]
pub struct Symbol(pub String, pub Option<String>);

/// The mathematical value of a symbol: its name and its qualifier.
pub type SymbolModel = (Seq<char>, Option<Seq<char>>);

pub open spec fn opt_str_view(o: Option<String>) -> Option<Seq<char>> {
    match o {
        Some(s) => Some(s@),
        None => None,
    }
}

impl View for Symbol {
    type V = SymbolModel;

    open spec fn view(&self) -> SymbolModel {
        (self.0@, opt_str_view(self.1))
    }
}

impl Symbol {
    /// An unqualified field name.
    pub fn plain(name: String) -> (r: Symbol)
        ensures
            r@ == (name@, None::<Seq<char>>),
    {
        Symbol(name, None)
    }

    /// A field name qualified by a table label.
    pub fn qualified(name: String, qualifier: String) -> (r: Symbol)
        ensures
            r@ == (name@, Some(qualifier@)),
    {
        Symbol(name, Some(qualifier))
    }

    pub fn copy(&self) -> (r: Symbol)
        ensures
            r == *self,
            r@ == self@,
    {
        let q = match &self.1 {
            Some(s) => Some(s.clone()),
            None => None,
        };
        Symbol(self.0.clone(), q)
    }

    /// Whether two symbols name the same field.
    pub fn same(&self, o: &Symbol) -> (r: bool)
        ensures
            r == (self@ == o@),
    {
        if self.0 != o.0 {
            return false;
        }
        match (&self.1, &o.1) {
            (None, None) => true,
            (Some(a), Some(b)) => *a == *b,
            _ => false,
        }
    }
}

/// Lexicographic order on character sequences.
pub open spec fn chars_lt(a: Seq<char>, b: Seq<char>) -> bool
    decreases a.len(),
{
    if a.len() == 0 {
        b.len() > 0
    } else if b.len() == 0 {
        false
    } else if a[0] != b[0] {
        (a[0] as int) < (b[0] as int)
    } else {
        chars_lt(a.drop_first(), b.drop_first())
    }
}

/// The order of symbols: by name, then an unqualified symbol before a
/// qualified one, then by qualifier.
pub open spec fn symbol_lt(a: SymbolModel, b: SymbolModel) -> bool {
    chars_lt(a.0, b.0) || (a.0 == b.0 && match (a.1, b.1) {
        (None, Some(_)) => true,
        (Some(x), Some(y)) => chars_lt(x, y),
        _ => false,
    })
}

pub proof fn lemma_chars_lt_order(a: Seq<char>, b: Seq<char>, c: Seq<char>)
    ensures
        !chars_lt(a, a),
        chars_lt(a, b) && chars_lt(b, c) ==> chars_lt(a, c),
        a != b ==> chars_lt(a, b) || chars_lt(b, a),
        chars_lt(a, b) ==> !chars_lt(b, a),
    decreases a.len(),
{
    if a.len() > 0 && b.len() > 0 {
        if c.len() > 0 {
            lemma_chars_lt_order(a.drop_first(), b.drop_first(), c.drop_first());
        } else {
            lemma_chars_lt_order(a.drop_first(), b.drop_first(), b.drop_first());
        }
        if a[0] == b[0] && a.drop_first() == b.drop_first() {
            assert(a =~= seq![a[0]] + a.drop_first());
            assert(b =~= seq![b[0]] + b.drop_first());
        }
        if a[0] != b[0] {
            assert((a[0] as int) != (b[0] as int));
        }
    } else if a.len() > 0 {
        lemma_chars_lt_order(a.drop_first(), a.drop_first(), a.drop_first());
    } else {
        if b.len() == 0 {
            assert(a =~= b);
        }
    }
}

pub proof fn lemma_symbol_lt_order(a: SymbolModel, b: SymbolModel, c: SymbolModel)
    ensures
        !symbol_lt(a, a),
        symbol_lt(a, b) && symbol_lt(b, c) ==> symbol_lt(a, c),
        a != b ==> symbol_lt(a, b) || symbol_lt(b, a),
{
    lemma_chars_lt_order(a.0, b.0, c.0);
    lemma_chars_lt_order(b.0, c.0, a.0);
    lemma_chars_lt_order(c.0, a.0, b.0);
    lemma_chars_lt_order(b.0, a.0, c.0);
    match (a.1, b.1, c.1) {
        (Some(x), Some(y), Some(z)) => {
            lemma_chars_lt_order(x, y, z);
        },
        (Some(x), Some(y), None) => {
            lemma_chars_lt_order(x, y, y);
        },
        (Some(x), None, Some(z)) => {
            lemma_chars_lt_order(x, z, z);
        },
        (None, Some(y), Some(z)) => {
            lemma_chars_lt_order(y, z, z);
        },
        (Some(x), None, None) => {
            lemma_chars_lt_order(x, x, x);
        },
        _ => {},
    }
}

/// Whether `a` comes before `b` in lexicographic order.
pub fn chars_less(a: &str, b: &str) -> (r: bool)
    ensures
        r == chars_lt(a@, b@),
{
    let la = a.unicode_len();
    let lb = b.unicode_len();
    let mut i: usize = 0;
    proof {
        assert(a@.skip(0) =~= a@);
        assert(b@.skip(0) =~= b@);
    }
    while i < la && i < lb
        invariant
            la == a@.len(),
            lb == b@.len(),
            i <= la,
            i <= lb,
            chars_lt(a@, b@) == chars_lt(a@.skip(i as int), b@.skip(i as int)),
        decreases la - i,
    {
        let ca = a.get_char(i);
        let cb = b.get_char(i);
        proof {
            assert(a@.skip(i as int)[0] == ca);
            assert(b@.skip(i as int)[0] == cb);
            assert(a@.skip(i as int).drop_first() =~= a@.skip(i + 1));
            assert(b@.skip(i as int).drop_first() =~= b@.skip(i + 1));
        }
        if ca != cb {
            return (ca as u32) < (cb as u32);
        }
        i += 1;
    }
    i < lb
}

impl Symbol {
    /// Whether `self` comes before `o` in the order of symbols.
    pub fn less(&self, o: &Symbol) -> (r: bool)
        ensures
            r == symbol_lt(self@, o@),
    {
        if chars_less(self.0.as_str(), o.0.as_str()) {
            return true;
        }
        if self.0 != o.0 {
            return false;
        }
        match (&self.1, &o.1) {
            (None, Some(_)) => true,
            (Some(x), Some(y)) => chars_less(x.as_str(), y.as_str()),
            _ => false,
        }
    }
}

/// A scalar expression inside a comparison.
#[derive(Debug)]
pub enum Expr {
    Add(Box<LocExpr>, Box<LocExpr>),
    Sub(Box<LocExpr>, Box<LocExpr>),
    Mul(Box<LocExpr>, Box<LocExpr>),
    Div(Box<LocExpr>, Box<LocExpr>),
    Mod(Box<LocExpr>, Box<LocExpr>),
    And(Box<LocExpr>, Box<LocExpr>),
    Or(Box<LocExpr>, Box<LocExpr>),
    Not(Box<LocExpr>),
    Value(LocValue),
}

pub type LocExpr = Loc<Expr>;

pub type LocValue = Loc<Value>;

/// A literal or a field reference. A floating-point literal is held as its
/// IEEE-754 bit pattern.
#[derive(Debug)]
pub enum Value {
    Null,
    Bool(bool),
    Int(i64),
    Uint(u64),
    Float(u64),
    String(String),
    Symbol(Symbol),
}

} // verus!
