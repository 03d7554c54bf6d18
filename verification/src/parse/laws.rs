use vstd::prelude::*;

use crate::parse::grammar::{
    fields_after, pf_const_list, pf_constant, pf_create_index, pf_create_view, pf_delete, pf_expression, pf_field, pf_field_list, pf_insert, pf_modify,
    pf_predicate, pf_query, pf_term,
};
use crate::util::dedup;
use crate::parse::lexer::{
    after_delim, after_int, after_str, after_word, delim_at, digits_end, digits_value, id_at, int_at, int_value_at,
    keyword_is, lemma_ws_end, lower, quote_end, sql_keywords, str_at, str_value_at, word_at, word_end, ws_end,
};
use crate::query::constant::ConstVal;
use crate::query::expression::ExprVal;

verus! {

// What the lexer and the parser give, stated over the characters of the text
// and over the parts a statement is made of.

/// An identifier or keyword runs over every ASCII letter, digit and
/// underscore that follows its start: where the characters from `p` up to
/// `q` are all such characters and the one at `q` is not, the word at `p` is
/// exactly the text from `p` to `q`.
pub proof fn law_word_extent(s: Seq<char>, p: int, q: int)
    requires
        0 <= p <= q <= s.len(),
        forall|i: int|
            p <= i < q ==> ('a' <= #[trigger] s[i] <= 'z') || ('A' <= s[i] <= 'Z') || ('0' <= s[i] <= '9') || s[i]
                == '_',
        q < s.len() ==> !(('a' <= s[q] <= 'z') || ('A' <= s[q] <= 'Z') || ('0' <= s[q] <= '9') || s[q] == '_'),
    ensures
        word_end(s, p) == q,
        word_at(s, p) == s.subrange(p, q),
    decreases q - p,
{
    if p < q {
        assert(('a' <= s[p] <= 'z') || ('A' <= s[p] <= 'Z') || ('0' <= s[p] <= '9') || s[p] == '_');
        law_word_extent(s, p + 1, q);
    }
}

/// Lower-casing keeps the length and maps each ASCII capital letter to its
/// small letter, 32 code points up, and leaves every other character.
pub proof fn law_lower(w: Seq<char>)
    ensures
        lower(w).len() == w.len(),
        forall|i: int|
            0 <= i < w.len() ==> (#[trigger] lower(w)[i]) as u32 == if 'A' <= w[i] <= 'Z' {
                w[i] as u32 + 32
            } else {
                w[i] as u32 as int
            },
{
}

/// Every character with the Unicode White_Space property is skipped before
/// a token: tab, line feed, line tabulation, form feed, carriage return,
/// space, next line, no-break space, ogham space mark, en quad to hair
/// space, line and paragraph separators, narrow no-break space, medium
/// mathematical space and ideographic space. Any other character, or the
/// end of the text, stops the skipping.
pub proof fn law_white_space_skipped(s: Seq<char>, p: int)
    requires
        0 <= p <= s.len(),
    ensures
        p < s.len() && ({
            let u = s[p] as u32;
            u == 0x09 || u == 0x0A || u == 0x0B || u == 0x0C || u == 0x0D || u == 0x20 || u == 0x85 || u == 0xA0 || u
                == 0x1680 || (0x2000 <= u <= 0x200A) || u == 0x2028 || u == 0x2029 || u == 0x202F || u == 0x205F || u
                == 0x3000
        }) ==> ws_end(s, p) == ws_end(s, p + 1) && ws_end(s, p) > p,
        p < s.len() && !({
            let u = s[p] as u32;
            u == 0x09 || u == 0x0A || u == 0x0B || u == 0x0C || u == 0x0D || u == 0x20 || u == 0x85 || u == 0xA0 || u
                == 0x1680 || (0x2000 <= u <= 0x200A) || u == 0x2028 || u == 0x2029 || u == 0x202F || u == 0x205F || u
                == 0x3000
        }) ==> ws_end(s, p) == p,
        p == s.len() ==> ws_end(s, p) == p,
{
    lemma_ws_end(s, p + 1);
}

/// A string constant's value is exactly the characters between its opening
/// quote at `p` and the next quote at `q` (or the end of the text), case
/// kept; the next token starts after that quote.
pub proof fn law_string_constant(s: Seq<char>, p: int, q: int)
    requires
        0 <= p < q <= s.len(),
        s[p] == '\'',
        forall|i: int| p < i < q ==> #[trigger] s[i] != '\'',
        q < s.len() ==> s[q] == '\'',
    ensures
        str_at(s, p),
        str_value_at(s, p) == s.subrange(p + 1, q),
        after_str(s, p) == ws_end(s, q + 1),
        pf_constant(s, p) == Some((ConstVal::Str(s.subrange(p + 1, q)), ws_end(s, q + 1))),
{
    law_quote_end(s, p + 1, q);
}

/// The first quote from `a` on is at `q` when none lies between.
proof fn law_quote_end(s: Seq<char>, a: int, q: int)
    requires
        0 <= a <= q <= s.len(),
        forall|i: int| a <= i < q ==> #[trigger] s[i] != '\'',
        q < s.len() ==> s[q] == '\'',
    ensures
        quote_end(s, a) == q,
    decreases q - a,
{
    if a < q {
        assert(s[a] != '\'');
        law_quote_end(s, a + 1, q);
    }
}

/// An expression that starts with an identifier is that field, in lower
/// case; one that starts with a constant is that constant.
pub proof fn law_expression(s: Seq<char>, p: int)
    ensures
        id_at(s, p) ==> pf_expression(s, p) == Some((ExprVal::Field(lower(word_at(s, p))), after_word(s, p))),
        !id_at(s, p) && pf_constant(s, p) is Some ==> pf_expression(s, p) == Some(
            (ExprVal::Const(pf_constant(s, p).unwrap().0), pf_constant(s, p).unwrap().1),
        ),
        !id_at(s, p) && pf_constant(s, p) is None ==> pf_expression(s, p) is None,
{
}

/// A predicate holds at least one term, and its first term is the term read
/// where the predicate starts.
pub proof fn law_predicate_first_term(s: Seq<char>, p: int)
    ensures
        pf_predicate(s, p) matches Some((ts, q)) ==> (ts.len() >= 1 && (pf_term(s, p) matches Some((t, q1)) && ts[0]
            == t)),
        pf_term(s, p) is None ==> pf_predicate(s, p) is None,
{
}

/// The parts of a parsed update statement `update t set f = e [where P]`:
/// its table and field are the identifiers after `update` and `set`, its
/// new value is the expression read after `=`, and its predicate is the
/// predicate read after `where` (at least one term) or, with no where
/// clause, no term at all.
pub proof fn law_update_parts(s: Seq<char>, p: int)
    ensures
        pf_modify(s, p) matches Some((m, q)) ==> {
            let p1 = after_word(s, p);
            let p2 = after_word(s, p1);
            let p3 = after_word(s, p2);
            let p4 = after_word(s, p3);
            let p5 = after_delim(s, p4);
            &&& keyword_is(s, p, "update"@)
            &&& id_at(s, p1) && m.table == lower(word_at(s, p1))
            &&& keyword_is(s, p2, "set"@)
            &&& id_at(s, p3) && m.field == lower(word_at(s, p3))
            &&& delim_at(s, p4, '=')
            &&& (pf_expression(s, p5) matches Some((e, p6)) && e == m.new_value && if keyword_is(s, p6, "where"@) {
                pf_predicate(s, after_word(s, p6)) == Some((m.pred, q)) && m.pred.len() >= 1
            } else {
                m.pred.len() == 0 && q == p6
            })
        },
{
    if let Some((m, q)) = pf_modify(s, p) {
        let p1 = after_word(s, p);
        let p2 = after_word(s, p1);
        let p3 = after_word(s, p2);
        let p4 = after_word(s, p3);
        let p5 = after_delim(s, p4);
        if let Some((e, p6)) = pf_expression(s, p5) {
            if keyword_is(s, p6, "where"@) {
                law_predicate_first_term(s, after_word(s, p6));
            }
        }
    }
}

/// An update statement whose parts read well parses: `update`, an
/// identifier, `set`, an identifier, `=`, an expression, and a where clause
/// whose predicate reads, if there is one.
pub proof fn law_update_parses(s: Seq<char>, p: int)
    requires
        keyword_is(s, p, "update"@),
        id_at(s, after_word(s, p)),
        keyword_is(s, after_word(s, after_word(s, p)), "set"@),
        id_at(s, after_word(s, after_word(s, after_word(s, p)))),
        delim_at(s, after_word(s, after_word(s, after_word(s, after_word(s, p)))), '='),
        pf_expression(s, after_delim(s, after_word(s, after_word(s, after_word(s, after_word(s, p)))))) is Some,
        ({
            let q = pf_expression(s, after_delim(s, after_word(s, after_word(s, after_word(s, after_word(s, p))))),
            ).unwrap().1;
            keyword_is(s, q, "where"@) ==> pf_predicate(s, after_word(s, q)) is Some
        }),
    ensures
        pf_modify(s, p) is Some,
{
}

/// The predicate of a parsed delete statement `delete from t [where P]` is
/// the predicate read after `where` (at least one term), or no term without
/// a where clause; its table is the identifier after `from`.
pub proof fn law_delete_parts(s: Seq<char>, p: int)
    ensures
        pf_delete(s, p) matches Some((d, q)) ==> {
            let p2 = after_word(s, after_word(s, p));
            let p3 = after_word(s, p2);
            &&& keyword_is(s, p, "delete"@)
            &&& keyword_is(s, after_word(s, p), "from"@)
            &&& id_at(s, p2) && d.table == lower(word_at(s, p2))
            &&& if keyword_is(s, p3, "where"@) {
                pf_predicate(s, after_word(s, p3)) == Some((d.pred, q)) && d.pred.len() >= 1
            } else {
                d.pred.len() == 0 && q == p3
            }
        },
{
    if let Some((d, q)) = pf_delete(s, p) {
        let p3 = after_word(s, after_word(s, after_word(s, p)));
        if keyword_is(s, p3, "where"@) {
            law_predicate_first_term(s, after_word(s, p3));
        }
    }
}

/// The tables of a select statement, with repeats dropped: the same names,
/// each once, in the order of their first appearance.
pub proof fn law_dedup(items: Seq<Seq<char>>)
    ensures
        forall|x: Seq<char>| dedup(items).contains(x) <==> items.contains(x),
        forall|i: int, j: int| 0 <= i < j < dedup(items).len() ==> dedup(items)[i] != dedup(items)[j],
        items.len() > 0 ==> dedup(items)[0] == items[0],
    decreases items.len(),
{
    if items.len() > 0 {
        let init = items.drop_last();
        law_dedup(init);
        let d = dedup(init);
        assert forall|x: Seq<char>| dedup(items).contains(x) <==> items.contains(x) by {
            if items.contains(x) {
                let k = choose|k: int| 0 <= k < items.len() && items[k] == x;
                if k < items.len() - 1 {
                    assert(init[k] == x);
                    assert(init.contains(x));
                    if !d.contains(items.last()) {
                        let m = choose|m: int| 0 <= m < d.len() && d[m] == x;
                        assert(d.push(items.last())[m] == x);
                    }
                } else {
                    if !d.contains(items.last()) {
                        assert(d.push(items.last())[d.len() as int] == x);
                    }
                }
            }
            if dedup(items).contains(x) {
                let m = choose|m: int| 0 <= m < dedup(items).len() && dedup(items)[m] == x;
                if m < d.len() {
                    assert(d[m] == x);
                    assert(init.contains(x));
                    let k = choose|k: int| 0 <= k < init.len() && init[k] == x;
                    assert(items[k] == x);
                } else {
                    assert(items[items.len() - 1] == x);
                }
            }
        }
        if init.len() > 0 {
            assert(init[0] == items[0]);
            if !d.contains(items.last()) {
                assert(d.push(items.last())[0] == d[0]);
            }
        } else {
            assert(d.len() == 0);
            assert(dedup(items) == seq![items.last()]);
        }
    }
}

/// A list of names starts with the identifier at its start, in lower case;
/// with no comma after it, it is that name alone.
pub proof fn law_field_list(s: Seq<char>, p: int)
    ensures
        pf_field_list(s, p) matches Some((fs, q)) ==> (fs.len() >= 1 && id_at(s, p) && fs[0] == lower(word_at(s, p))),
        id_at(s, p) && !delim_at(s, after_word(s, p), ',') ==> pf_field_list(s, p) == Some(
            (seq![lower(word_at(s, p))], after_word(s, p)),
        ),
        !id_at(s, p) ==> pf_field_list(s, p) is None,
{
    if let Some((fs, q)) = pf_field_list(s, p) {
        let f = lower(word_at(s, p));
        lemma_fields_after_keeps(s, after_word(s, p), seq![f]);
        assert(fs.subrange(0, 1)[0] == fs[0]);
        assert(seq![f][0] == f);
    }
}

/// The rest of a name list keeps the names read before it.
proof fn lemma_fields_after_keeps(s: Seq<char>, q: int, acc: Seq<Seq<char>>)
    ensures
        fields_after(s, q, acc) matches Some((fs, q2)) ==> (fs.len() >= acc.len() && fs.subrange(0, acc.len() as int)
            == acc),
    decreases s.len() + 2 - q,
{
    if delim_at(s, q, ',') {
        if let Some((f, q2)) = pf_field(s, after_delim(s, q)) {
            if q < q2 <= s.len() + 1 {
                lemma_fields_after_keeps(s, q2, acc.push(f));
                if let Some((fs, q3)) = fields_after(s, q2, acc.push(f)) {
                    assert(fs.subrange(0, acc.len() as int) =~= acc.push(f).subrange(0, acc.len() as int));
                    assert(acc.push(f).subrange(0, acc.len() as int) =~= acc);
                }
            }
        }
    } else {
        assert(acc.subrange(0, acc.len() as int) =~= acc);
    }
}

/// The parts of a parsed select statement `select F from T [where P]`: its
/// fields are the name list after `select`; its tables are the names of the
/// list after `from`, each once, first appearance first; its predicate is
/// the predicate read after `where` (at least one term), or no term without
/// a where clause.
pub proof fn law_query_parts(s: Seq<char>, p: int)
    ensures
        pf_query(s, p) matches Some((qd, q)) ==> {
            &&& keyword_is(s, p, "select"@)
            &&& pf_field_list(s, after_word(s, p)) matches Some((fs, q1)) && fs == qd.fields && keyword_is(
                s,
                q1,
                "from"@,
            ) && (pf_field_list(s, after_word(s, q1)) matches Some((ts, q2)) && (forall|x: Seq<char>|
                qd.tables.contains(x) <==> ts.contains(x)) && (forall|i: int, j: int|
                0 <= i < j < qd.tables.len() ==> qd.tables[i] != qd.tables[j]) && if keyword_is(s, q2, "where"@) {
                pf_predicate(s, after_word(s, q2)) == Some((qd.pred, q)) && qd.pred.len() >= 1
            } else {
                qd.pred.len() == 0 && q == q2
            })
        },
{
    if let Some((qd, q)) = pf_query(s, p) {
        let q1 = pf_field_list(s, after_word(s, p)).unwrap().1;
        let (ts, q2) = pf_field_list(s, after_word(s, q1)).unwrap();
        law_dedup(ts);
        if keyword_is(s, q2, "where"@) {
            law_predicate_first_term(s, after_word(s, q2));
        }
    }
}

/// The parts of a parsed insert statement `insert into t (F) values (C)`:
/// its table is the identifier after `into`, its fields the name list in
/// the first parentheses, and its one row the constant list in the second.
pub proof fn law_insert_parts(s: Seq<char>, p: int)
    ensures
        pf_insert(s, p) matches Some((iv, q)) ==> {
            let p2 = after_word(s, after_word(s, p));
            let p3 = after_word(s, p2);
            &&& keyword_is(s, p, "insert"@)
            &&& keyword_is(s, after_word(s, p), "into"@)
            &&& id_at(s, p2) && iv.table == lower(word_at(s, p2))
            &&& delim_at(s, p3, '(')
            &&& (pf_field_list(s, after_delim(s, p3)) matches Some((fs, q1)) && fs == iv.fields && delim_at(s, q1, ')')
                && keyword_is(s, after_delim(s, q1), "values"@) && delim_at(s, after_word(s, after_delim(s, q1)), '(')
                && (pf_const_list(s, after_delim(s, after_word(s, after_delim(s, q1)))) matches Some((cs, q2))
                && iv.rows == seq![cs] && delim_at(s, q2, ')') && q == after_delim(s, q2)))
        },
{
}

/// The value of a decimal numeral: each digit appended multiplies the value
/// so far by ten and adds the digit.
pub proof fn law_digits_value(d: Seq<char>, c: char)
    requires
        '0' <= c <= '9',
    ensures
        digits_value(d.push(c)) == 10 * digits_value(d) + (c as u32 - '0' as u32),
        digits_value(Seq::empty()) == 0,
{
    assert(d.push(c).drop_last() =~= d);
}

/// An integer constant is the run of digits at its start, read in decimal.
pub proof fn law_int_constant(s: Seq<char>, p: int, q: int)
    requires
        0 <= p < q <= s.len(),
        forall|i: int| p <= i < q ==> '0' <= #[trigger] s[i] <= '9',
        q < s.len() ==> !('0' <= s[q] <= '9'),
    ensures
        int_at(s, p),
        int_value_at(s, p) == digits_value(s.subrange(p, q)),
        after_int(s, p) == ws_end(s, q),
{
    law_digits_extent(s, p, q);
}

/// The digits from `a` run up to `q`.
proof fn law_digits_extent(s: Seq<char>, a: int, q: int)
    requires
        0 <= a <= q <= s.len(),
        forall|i: int| a <= i < q ==> '0' <= #[trigger] s[i] <= '9',
        q < s.len() ==> !('0' <= s[q] <= '9'),
    ensures
        digits_end(s, a) == q,
    decreases q - a,
{
    if a < q {
        assert('0' <= s[a] <= '9');
        law_digits_extent(s, a + 1, q);
    }
}

/// A keyword is recognized in any case: the token at `p` is the keyword
/// `w` exactly when the word there, lower-cased, is `w` lower-cased and a
/// keyword of the dialect.
pub proof fn law_keyword_case(s: Seq<char>, p: int, w: Seq<char>)
    ensures
        keyword_is(s, p, w) <==> (0 <= p < s.len() && word_at(s, p).len() > 0 && lower(word_at(s, p)) == lower(w)
            && sql_keywords().contains(lower(w))),
{
}

/// A term is an expression, `=`, and another expression: its two sides are
/// the expressions read before and after the `=`.
pub proof fn law_term(s: Seq<char>, p: int)
    ensures
        pf_term(s, p) matches Some((t, q)) ==> (pf_expression(s, p) matches Some((l, q1)) && t.0 == l && delim_at(
            s,
            q1,
            '=',
        ) && pf_expression(s, after_delim(s, q1)) == Some((t.1, q))),
        (pf_expression(s, p) matches Some((l, q1)) && delim_at(s, q1, '=') && pf_expression(s, after_delim(s, q1))
            is Some) ==> pf_term(s, p) is Some,
{
}

/// The parts of a parsed create index statement body `index i on t (f)`:
/// the identifiers after `index`, after `on`, and in the parentheses.
pub proof fn law_create_index_parts(s: Seq<char>, p: int)
    ensures
        pf_create_index(s, p) matches Some((iv, q)) ==> {
            let p1 = after_word(s, p);
            let p2 = after_word(s, p1);
            let p3 = after_word(s, p2);
            let p4 = after_word(s, p3);
            let p5 = after_delim(s, p4);
            &&& keyword_is(s, p, "index"@)
            &&& id_at(s, p1) && iv.index == lower(word_at(s, p1))
            &&& keyword_is(s, p2, "on"@)
            &&& id_at(s, p3) && iv.table == lower(word_at(s, p3))
            &&& delim_at(s, p4, '(')
            &&& id_at(s, p5) && iv.field == lower(word_at(s, p5))
            &&& delim_at(s, after_word(s, p5), ')')
            &&& q == after_delim(s, after_word(s, p5))
        },
{
}

/// The parts of a parsed create view statement body `view v as Q`: the
/// identifier after `view`, and the select statement after `as`.
pub proof fn law_create_view_parts(s: Seq<char>, p: int)
    ensures
        pf_create_view(s, p) matches Some((vd, q)) ==> {
            let p1 = after_word(s, p);
            &&& keyword_is(s, p, "view"@)
            &&& id_at(s, p1) && vd.0 == lower(word_at(s, p1))
            &&& keyword_is(s, after_word(s, p1), "as"@)
            &&& pf_query(s, after_word(s, after_word(s, p1))) == Some((vd.1, q))
        },
{
}

} // verus!
