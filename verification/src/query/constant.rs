use vstd::prelude::*;

use crate::util::chars_of;

verus! {

/// The mathematical value of a constant.
pub enum ConstVal {
    Int(i32),
    Str(Seq<char>),
}

/// The lexicographic order of two character sequences: negative, zero or positive.
pub open spec fn lex_order(a: Seq<char>, b: Seq<char>) -> int
    decreases a.len(),
{
    if a.len() == 0 {
        if b.len() == 0 {
            0
        } else {
            -1
        }
    } else if b.len() == 0 {
        1
    } else if (a[0] as u32) < (b[0] as u32) {
        -1
    } else if (a[0] as u32) > (b[0] as u32) {
        1
    } else {
        lex_order(a.drop_first(), b.drop_first())
    }
}

/// The order of two constant values of one kind: negative, zero or positive.
pub open spec fn val_order(a: ConstVal, b: ConstVal) -> int {
    match (a, b) {
        (ConstVal::Int(x), ConstVal::Int(y)) => if x < y {
            -1
        } else if x > y {
            1
        } else {
            0
        },
        (ConstVal::Str(x), ConstVal::Str(y)) => lex_order(x, y),
        _ => 0,
    }
}

/// Whether two constant values are of the same kind and so can be ordered.
pub open spec fn same_kind(a: ConstVal, b: ConstVal) -> bool {
    (a is Int && b is Int) || (a is Str && b is Str)
}

/// Lexicographic order is zero exactly on equal sequences.
pub proof fn lemma_lex_order_zero(a: Seq<char>, b: Seq<char>)
    ensures
        (lex_order(a, b) == 0) == (a == b),
        -1 <= lex_order(a, b) <= 1,
    decreases a.len(),
{
    if a.len() > 0 && b.len() > 0 && (a[0] as u32) == (b[0] as u32) {
        vstd::utf8::char_u32_cast(a[0], a[0] as u32);
        vstd::utf8::char_u32_cast(b[0], b[0] as u32);
        lemma_lex_order_zero(a.drop_first(), b.drop_first());
        if a.drop_first() == b.drop_first() {
            assert(a[0] == b[0]);
            assert(a =~= seq![a[0]] + a.drop_first());
            assert(b =~= seq![b[0]] + b.drop_first());
        } else {
            if a == b {
                assert(a.drop_first() == b.drop_first());
            }
        }
    } else if a.len() > 0 && b.len() > 0 {
        if a == b {
            assert(a[0] == b[0]);
        }
    } else if a.len() == 0 && b.len() == 0 {
        assert(a =~= b);
    }
}

/// Lexicographic order is antisymmetric.
pub proof fn lemma_lex_order_flip(a: Seq<char>, b: Seq<char>)
    ensures
        lex_order(a, b) == -lex_order(b, a),
    decreases a.len(),
{
    if a.len() > 0 && b.len() > 0 && (a[0] as u32) == (b[0] as u32) {
        lemma_lex_order_flip(a.drop_first(), b.drop_first());
    }
}

/// Lexicographic order is transitive.
pub proof fn lemma_lex_order_trans(a: Seq<char>, b: Seq<char>, c: Seq<char>)
    requires
        lex_order(a, b) <= 0,
        lex_order(b, c) <= 0,
    ensures
        lex_order(a, c) <= 0,
        lex_order(a, b) < 0 || lex_order(b, c) < 0 ==> lex_order(a, c) < 0,
    decreases a.len(),
{
    if a.len() > 0 && b.len() > 0 && c.len() > 0 && (a[0] as u32) == (b[0] as u32) && (b[0] as u32)
        == (c[0] as u32) {
        lemma_lex_order_trans(a.drop_first(), b.drop_first(), c.drop_first());
    }
}

/// The order of constant values of one kind is zero exactly on equal values,
/// antisymmetric and between -1 and 1.
pub proof fn lemma_val_order_basics(a: ConstVal, b: ConstVal)
    requires
        same_kind(a, b),
    ensures
        (val_order(a, b) == 0) == (a == b),
        val_order(a, b) == -val_order(b, a),
        -1 <= val_order(a, b) <= 1,
{
    match (a, b) {
        (ConstVal::Str(x), ConstVal::Str(y)) => {
            lemma_lex_order_zero(x, y);
            lemma_lex_order_flip(x, y);
        },
        _ => {},
    }
}

/// The order of constant values of one kind is transitive.
pub proof fn lemma_val_order_trans(a: ConstVal, b: ConstVal, c: ConstVal)
    requires
        same_kind(a, b),
        same_kind(b, c),
        val_order(a, b) <= 0,
        val_order(b, c) <= 0,
    ensures
        val_order(a, c) <= 0,
        val_order(a, b) < 0 || val_order(b, c) < 0 ==> val_order(a, c) < 0,
{
    match (a, b, c) {
        (ConstVal::Str(x), ConstVal::Str(y), ConstVal::Str(z)) => {
            lemma_lex_order_trans(x, y, z);
        },
        _ => {},
    }
}

/// A value of a table field or of an index key: an integer or a string.
pub enum Constant {
    Int(i32),
    String(String),
}

impl View for Constant {
    type V = ConstVal;

    open spec fn view(&self) -> ConstVal {
        match self {
            Constant::Int(i) => ConstVal::Int(*i),
            Constant::String(s) => ConstVal::Str(s@),
        }
    }
}

impl Clone for Constant {
    fn clone(&self) -> (r: Self)
        ensures
            r@ == self@,
    {
        match self {
            Constant::Int(i) => Constant::Int(*i),
            Constant::String(s) => Constant::String(s.clone()),
        }
    }
}

impl Constant {
    pub fn from_int(ival: i32) -> (r: Self)
        ensures
            r@ == ConstVal::Int(ival),
    {
        Constant::Int(ival)
    }

    pub fn from_string(sval: String) -> (r: Self)
        ensures
            r@ == ConstVal::Str(sval@),
    {
        Constant::String(sval)
    }

    /// The integer of an integer constant.
    pub fn as_int(&self) -> (r: Option<i32>)
        ensures
            r == (match self@ {
                ConstVal::Int(i) => Some(i),
                ConstVal::Str(_) => None::<i32>,
            }),
    {
        match self {
            Constant::Int(i) => Some(*i),
            Constant::String(_) => None,
        }
    }

    /// The text of a string constant.
    pub fn as_string(&self) -> (r: Option<&str>)
        ensures
            r is Some <==> self@ is Str,
            r matches Some(s) ==> self@ == ConstVal::Str(s@),
    {
        match self {
            Constant::Int(_) => None,
            Constant::String(s) => Some(s.as_str()),
        }
    }

    /// Whether two constants have the same value.
    pub fn equals(&self, other: &Constant) -> (r: bool)
        ensures
            r == (self@ == other@),
    {
        match (self, other) {
            (Constant::Int(a), Constant::Int(b)) => *a == *b,
            (Constant::String(a), Constant::String(b)) => *a == *b,
            _ => false,
        }
    }

    /// The order of two constants of one kind: negative, zero or positive.
    pub fn compare_to(&self, other: &Constant) -> (r: i32)
        requires
            same_kind(self@, other@),
        ensures
            r == val_order(self@, other@),
    {
        match (self, other) {
            (Constant::Int(a), Constant::Int(b)) => {
                if *a < *b {
                    -1
                } else if *a > *b {
                    1
                } else {
                    0
                }
            },
            (Constant::String(a), Constant::String(b)) => {
                let x = chars_of(a.as_str());
                let y = chars_of(b.as_str());
                lex_compare(&x, &y)
            },
            _ => 0,
        }
    }
}

/// The lexicographic order of two character vectors.
fn lex_compare(x: &Vec<char>, y: &Vec<char>) -> (r: i32)
    ensures
        r == lex_order(x@, y@),
{
    let mut i: usize = 0;
    assert(x@.skip(0) =~= x@);
    assert(y@.skip(0) =~= y@);
    while i < x.len() && i < y.len()
        invariant
            i <= x@.len(),
            i <= y@.len(),
            lex_order(x@, y@) == lex_order(x@.skip(i as int), y@.skip(i as int)),
        decreases x@.len() - i,
    {
        let a = x[i] as u32;
        let b = y[i] as u32;
        if a < b {
            return -1;
        } else if a > b {
            return 1;
        }
        assert(x@.skip(i as int).drop_first() =~= x@.skip(i as int + 1));
        assert(y@.skip(i as int).drop_first() =~= y@.skip(i as int + 1));
        i = i + 1;
    }
    if i < x.len() {
        1
    } else if i < y.len() {
        -1
    } else {
        0
    }
}

} // verus!
