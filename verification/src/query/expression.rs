use vstd::prelude::*;

use crate::query::constant::{ConstVal, Constant};
use crate::util::{chars_of, int_text, int_to_chars, push_str, string_from_chars};

verus! {

/// The mathematical value of an expression: a constant or a field name.
pub enum ExprVal {
    Const(ConstVal),
    Field(Seq<char>),
}

/// The text of a constant value: an integer in decimal, a string between quotes.
pub open spec fn const_text(c: ConstVal) -> Seq<char> {
    match c {
        ConstVal::Int(i) => int_text(i as int),
        ConstVal::Str(s) => seq!['\''] + s + seq!['\''],
    }
}

/// The text of an expression.
pub open spec fn expr_text(e: ExprVal) -> Seq<char> {
    match e {
        ExprVal::Const(c) => const_text(c),
        ExprVal::Field(f) => f,
    }
}

/// Appends the text of the constant `c` to `out`.
pub fn push_const_text(c: &Constant, out: &mut Vec<char>)
    ensures
        final(out)@ == old(out)@ + const_text(c@),
{
    match c {
        Constant::Int(i) => {
            let d = int_to_chars(*i);
            let mut k: usize = 0;
            while k < d.len()
                invariant
                    k <= d@.len(),
                    out@ == old(out)@ + d@.subrange(0, k as int),
                decreases d@.len() - k,
            {
                out.push(d[k]);
                k = k + 1;
                assert(out@ =~= old(out)@ + d@.subrange(0, k as int));
            }
            assert(d@.subrange(0, k as int) =~= d@);
        },
        Constant::String(s) => {
            let d = chars_of(s.as_str());
            out.push('\'');
            let mut k: usize = 0;
            while k < d.len()
                invariant
                    k <= d@.len(),
                    out@ == old(out)@ + seq!['\''] + d@.subrange(0, k as int),
                decreases d@.len() - k,
            {
                out.push(d[k]);
                k = k + 1;
                assert(out@ =~= old(out)@ + seq!['\''] + d@.subrange(0, k as int));
            }
            out.push('\'');
            assert(d@.subrange(0, k as int) =~= d@);
            assert(out@ =~= old(out)@ + const_text(c@));
        },
    }
}

/// An expression of a predicate: a constant or the name of a field.
pub enum Expression {
    Constant(Constant),
    Field(String),
}

impl View for Expression {
    type V = ExprVal;

    open spec fn view(&self) -> ExprVal {
        match self {
            Expression::Constant(c) => ExprVal::Const(c@),
            Expression::Field(f) => ExprVal::Field(f@),
        }
    }
}

impl Expression {
    pub fn from_constant(c: Constant) -> (r: Self)
        ensures
            r@ == ExprVal::Const(c@),
    {
        Expression::Constant(c)
    }

    pub fn from_field(f: String) -> (r: Self)
        ensures
            r@ == ExprVal::Field(f@),
    {
        Expression::Field(f)
    }

    /// Whether the expression is a field name.
    pub fn is_field_name(&self) -> (r: bool)
        ensures
            r == (self@ is Field),
    {
        match self {
            Expression::Field(_) => true,
            Expression::Constant(_) => false,
        }
    }

    /// Appends the text of the expression to `out`.
    pub fn push_text(&self, out: &mut Vec<char>)
        ensures
            final(out)@ == old(out)@ + expr_text(self@),
    {
        match self {
            Expression::Constant(c) => push_const_text(c, out),
            Expression::Field(f) => push_str(f.as_str(), out),
        }
    }

    /// The text of the expression.
    pub fn to_string(&self) -> (r: String)
        ensures
            r@ == expr_text(self@),
    {
        let mut out: Vec<char> = Vec::new();
        self.push_text(&mut out);
        assert(out@ =~= expr_text(self@));
        string_from_chars(&out)
    }
}

/// A term of a predicate: the equality of two expressions.
pub struct Term {
    lhs: Expression,
    rhs: Expression,
}

/// The text of a term: its two sides around ` = `.
pub open spec fn term_text(t: (ExprVal, ExprVal)) -> Seq<char> {
    expr_text(t.0) + seq![' ', '=', ' '] + expr_text(t.1)
}

impl View for Term {
    type V = (ExprVal, ExprVal);

    closed spec fn view(&self) -> (ExprVal, ExprVal) {
        (self.lhs@, self.rhs@)
    }
}

impl Term {
    pub fn new(lhs: Expression, rhs: Expression) -> (r: Self)
        ensures
            r@ == (lhs@, rhs@),
    {
        Term { lhs, rhs }
    }

    /// Appends the text of the term to `out`.
    pub fn push_text(&self, out: &mut Vec<char>)
        ensures
            final(out)@ == old(out)@ + term_text(self@),
    {
        self.lhs.push_text(out);
        out.push(' ');
        out.push('=');
        out.push(' ');
        self.rhs.push_text(out);
        assert(final(out)@ =~= old(out)@ + term_text(self@));
    }
}

/// The text of a conjunction of terms: the terms joined by ` and `.
pub open spec fn pred_text(ts: Seq<(ExprVal, ExprVal)>) -> Seq<char>
    decreases ts.len(),
{
    if ts.len() == 0 {
        seq![]
    } else if ts.len() == 1 {
        term_text(ts[0])
    } else {
        pred_text(ts.drop_last()) + " and "@ + term_text(ts.last())
    }
}

/// A predicate: the conjunction of its terms; no term is the predicate true.
pub struct Predicate {
    terms: Vec<Term>,
}

impl View for Predicate {
    type V = Seq<(ExprVal, ExprVal)>;

    closed spec fn view(&self) -> Seq<(ExprVal, ExprVal)> {
        self.terms@.map_values(|t: Term| t@)
    }
}

impl Predicate {
    /// The predicate of no term.
    pub fn new() -> (r: Self)
        ensures
            r@ == Seq::<(ExprVal, ExprVal)>::empty(),
    {
        let r = Predicate { terms: Vec::new() };
        assert(r@ =~= Seq::<(ExprVal, ExprVal)>::empty());
        r
    }

    /// The predicate of the one term `t`.
    pub fn from_term(t: Term) -> (r: Self)
        ensures
            r@ == seq![t@],
    {
        let mut terms: Vec<Term> = Vec::new();
        terms.push(t);
        let r = Predicate { terms };
        assert(r@ =~= seq![t@]);
        r
    }

    /// Adds the terms of `pred` to this predicate.
    pub fn conjoin_with(&mut self, pred: Predicate)
        ensures
            final(self)@ == old(self)@ + pred@,
    {
        let mut other = pred;
        let ghost o = other@;
        self.terms.append(&mut other.terms);
        assert(self@ =~= old(self)@ + o);
    }

    /// Appends the text of the predicate to `out`.
    pub fn push_text(&self, out: &mut Vec<char>)
        ensures
            final(out)@ == old(out)@ + pred_text(self@),
    {
        let mut i: usize = 0;
        while i < self.terms.len()
            invariant
                i <= self.terms@.len(),
                out@ == old(out)@ + pred_text(self@.subrange(0, i as int)),
            decreases self.terms@.len() - i,
        {
            let ghost before = out@;
            if i > 0 {
                push_str(" and ", out);
            }
            self.terms[i].push_text(out);
            proof {
                let t = self@.subrange(0, i as int + 1);
                assert(t.drop_last() =~= self@.subrange(0, i as int));
                assert(t.last() == self.terms@[i as int]@);
                if i == 0 {
                    assert(t.len() == 1);
                }
            }
            i = i + 1;
            assert(out@ =~= old(out)@ + pred_text(self@.subrange(0, i as int)));
        }
        assert(self@.subrange(0, i as int) =~= self@);
    }

    /// The text of the predicate; empty for the predicate of no term.
    pub fn to_string(&self) -> (r: String)
        ensures
            r@ == pred_text(self@),
    {
        let mut out: Vec<char> = Vec::new();
        self.push_text(&mut out);
        assert(out@ =~= pred_text(self@));
        string_from_chars(&out)
    }

    /// The number of terms.
    pub fn len(&self) -> (r: usize)
        ensures
            r == self@.len(),
    {
        self.terms.len()
    }
}

} // verus!
