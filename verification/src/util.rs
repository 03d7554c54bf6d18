use vstd::prelude::*;

verus! {

/// The characters of `s`, in order.
pub fn chars_of(s: &str) -> (r: Vec<char>)
    ensures
        r@ == s@,
{
    let mut r: Vec<char> = Vec::new();
    for c in it: s.chars()
        invariant
            r@ == it.seq().take(it.index() as int),
            it.seq() == s@,
    {
        r.push(c);
        assert(r@ =~= it.seq().take(it.index() as int + 1));
    }
    r
}

/// The string made of the characters `cs`, in order.
#[verifier::external_body]
pub fn string_from_chars(cs: &Vec<char>) -> (r: String)
    ensures
        r@ == cs@,
{
    cs.iter().collect::<String>()
}

/// The decimal digits of a natural number, most significant first.
pub open spec fn nat_digits(n: nat) -> Seq<char>
    decreases n,
{
    if n < 10 {
        seq![digit_char(n)]
    } else {
        nat_digits(n / 10).push(digit_char(n % 10))
    }
}

/// The character of the decimal digit `d`.
pub open spec fn digit_char(d: nat) -> char {
    (('0' as u32) + d) as char
}

/// The decimal text of an integer, with a leading minus sign when it is negative.
pub open spec fn int_text(v: int) -> Seq<char> {
    if v < 0 {
        seq!['-'] + nat_digits((-v) as nat)
    } else {
        nat_digits(v as nat)
    }
}

/// Appends the decimal digits of `n` to `out`.
fn push_digits(n: u64, out: &mut Vec<char>)
    ensures
        final(out)@ == old(out)@ + nat_digits(n as nat),
    decreases n,
{
    if n < 10 {
        out.push(((('0' as u32) + (n as u32)) as u8) as char);
        assert(final(out)@ =~= old(out)@ + nat_digits(n as nat)) by {
            assert((((('0' as u32) + (n as u32)) as u8) as char) == digit_char(n as nat));
        }
    } else {
        push_digits(n / 10, out);
        let d = (n % 10) as u32;
        out.push(((('0' as u32) + d) as u8) as char);
        assert(((('0' as u32) + d) as u8) as char == digit_char((n % 10) as nat));
        assert(final(out)@ =~= old(out)@ + nat_digits(n as nat));
    }
}

/// The decimal text of `v`.
pub fn int_to_chars(v: i32) -> (r: Vec<char>)
    ensures
        r@ == int_text(v as int),
{
    let mut out: Vec<char> = Vec::new();
    if v < 0 {
        out.push('-');
        let m: u64 = (0i64 - (v as i64)) as u64;
        push_digits(m, &mut out);
        assert(out@ =~= int_text(v as int));
    } else {
        push_digits(v as u64, &mut out);
        assert(out@ =~= int_text(v as int));
    }
    out
}

/// The character sequences of a sequence of strings.
pub open spec fn names(v: Seq<String>) -> Seq<Seq<char>> {
    v.map_values(|x: String| x@)
}

/// The items joined by `sep`: `a`, `a, b`, `a, b, c` for the separator `, `.
pub open spec fn joined(items: Seq<Seq<char>>, sep: Seq<char>) -> Seq<char>
    decreases items.len(),
{
    if items.len() == 0 {
        seq![]
    } else if items.len() == 1 {
        items[0]
    } else {
        joined(items.drop_last(), sep) + sep + items.last()
    }
}

/// The items without repetition, each where it first occurs.
pub open spec fn dedup(items: Seq<Seq<char>>) -> Seq<Seq<char>>
    decreases items.len(),
{
    if items.len() == 0 {
        seq![]
    } else {
        let d = dedup(items.drop_last());
        if d.contains(items.last()) {
            d
        } else {
            d.push(items.last())
        }
    }
}

/// No item occurs twice in `dedup(items)`.
pub proof fn lemma_dedup_distinct(items: Seq<Seq<char>>)
    ensures
        forall|i: int, j: int| 0 <= i < j < dedup(items).len() ==> dedup(items)[i] != dedup(items)[j],
    decreases items.len(),
{
    if items.len() > 0 {
        let d = dedup(items.drop_last());
        lemma_dedup_distinct(items.drop_last());
        if !d.contains(items.last()) {
            let e = d.push(items.last());
            assert forall|i: int, j: int| 0 <= i < j < e.len() implies e[i] != e[j] by {
                if j == d.len() {
                    assert(d[i] == e[i]);
                    if d[i] == items.last() {
                        assert(d.contains(items.last()));
                    }
                }
            }
        }
    }
}

/// Items that are already distinct are their own `dedup`.
pub proof fn lemma_dedup_of_distinct(items: Seq<Seq<char>>)
    requires
        forall|i: int, j: int| 0 <= i < j < items.len() ==> items[i] != items[j],
    ensures
        dedup(items) == items,
    decreases items.len(),
{
    if items.len() > 0 {
        let init = items.drop_last();
        lemma_dedup_of_distinct(init);
        assert(!init.contains(items.last())) by {
            if init.contains(items.last()) {
                let k = choose|k: int| 0 <= k < init.len() && init[k] == items.last();
                assert(items[k] == items[items.len() - 1]);
            }
        }
        assert(init.push(items.last()) =~= items);
    }
}

/// Dropping repetitions twice drops no more than once.
pub proof fn lemma_dedup_idempotent(items: Seq<Seq<char>>)
    ensures
        dedup(dedup(items)) == dedup(items),
{
    lemma_dedup_distinct(items);
    lemma_dedup_of_distinct(dedup(items));
}

/// One item is its own `dedup`.
pub proof fn lemma_dedup_single(x: Seq<char>)
    ensures
        dedup(seq![x]) == seq![x],
{
    assert(seq![x].drop_last() =~= Seq::<Seq<char>>::empty());
    assert(dedup(Seq::<Seq<char>>::empty()) =~= Seq::<Seq<char>>::empty());
}

/// Appends the characters of `s` to `out`.
pub fn push_str(s: &str, out: &mut Vec<char>)
    ensures
        final(out)@ == old(out)@ + s@,
{
    let d = chars_of(s);
    let mut k: usize = 0;
    while k < d.len()
        invariant
            k <= d@.len(),
            d@ == s@,
            out@ == old(out)@ + d@.subrange(0, k as int),
        decreases d@.len() - k,
    {
        out.push(d[k]);
        k = k + 1;
        assert(out@ =~= old(out)@ + d@.subrange(0, k as int));
    }
    assert(d@.subrange(0, k as int) =~= d@);
}

/// Appends the strings of `v` to `out`, joined by `sep`.
pub fn push_joined(v: &[String], sep: &str, out: &mut Vec<char>)
    ensures
        final(out)@ == old(out)@ + joined(names(v@), sep@),
{
    let mut i: usize = 0;
    while i < v.len()
        invariant
            i <= v@.len(),
            out@ == old(out)@ + joined(names(v@).take(i as int), sep@),
        decreases v@.len() - i,
    {
        if i > 0 {
            push_str(sep, out);
        }
        push_str(v[i].as_str(), out);
        proof {
            let t = names(v@).take(i as int + 1);
            assert(t.drop_last() =~= names(v@).take(i as int));
            assert(t.last() == v@[i as int]@);
            if i == 0 {
                assert(t.len() == 1);
            }
        }
        i = i + 1;
        assert(out@ =~= old(out)@ + joined(names(v@).take(i as int), sep@));
    }
    assert(names(v@).take(i as int) =~= names(v@));
}

/// Whether one of the strings of `v` is `x`.
pub fn contains_name(v: &Vec<String>, x: &String) -> (r: bool)
    ensures
        r == names(v@).contains(x@),
{
    let mut i: usize = 0;
    while i < v.len()
        invariant
            i <= v@.len(),
            forall|j: int| 0 <= j < i ==> v@[j]@ != x@,
        decreases v@.len() - i,
    {
        if v[i] == *x {
            assert(names(v@)[i as int] == x@);
            return true;
        }
        i = i + 1;
    }
    assert forall|j: int| 0 <= j < names(v@).len() implies names(v@)[j] != x@ by {
        assert(v@[j]@ != x@);
    }
    false
}

/// The strings of `v` without repetition, each where it first occurs.
pub fn dedup_strings(v: Vec<String>) -> (r: Vec<String>)
    ensures
        names(r@) == dedup(names(v@)),
{
    let mut out: Vec<String> = Vec::new();
    let mut i: usize = 0;
    while i < v.len()
        invariant
            i <= v@.len(),
            names(out@) == dedup(names(v@).take(i as int)),
        decreases v@.len() - i,
    {
        let ghost t = names(v@).take(i as int + 1);
        proof {
            assert(t.drop_last() =~= names(v@).take(i as int));
            assert(t.last() == v@[i as int]@);
        }
        if !contains_name(&out, &v[i]) {
            out.push(v[i].clone());
            assert(names(out@) =~= dedup(t));
        }
        i = i + 1;
    }
    assert(names(v@).take(i as int) =~= names(v@));
    out
}

/// The string `a` followed by `b`.
pub fn concat(a: &str, b: &str) -> (r: String)
    ensures
        r@ == a@ + b@,
{
    let mut out: Vec<char> = Vec::new();
    push_str(a, &mut out);
    push_str(b, &mut out);
    string_from_chars(&out)
}

/// Integer division rounding toward zero, as `/` on machine integers does.
pub open spec fn div_trunc(a: int, b: int) -> int {
    let q = (if a >= 0 { a } else { -a }) / (if b >= 0 { b } else { -b });
    if (a >= 0) == (b >= 0) {
        q
    } else {
        -q
    }
}

/// Division as `/` computes it on machine integers, toward zero from either
/// side, is `div_trunc`.
pub proof fn lemma_div_trunc(a: int, b: int)
    requires
        b != 0,
    ensures
        (if a >= 0 {
            a / b
        } else {
            -((-a) / b)
        }) == div_trunc(a, b),
        i32::MIN <= a <= i32::MAX && !(a == i32::MIN && b == -1) ==> i32::MIN <= div_trunc(a, b)
            <= i32::MAX,
{
    let x = if a >= 0 {
        a
    } else {
        -a
    };
    let y = if b >= 0 {
        b
    } else {
        -b
    };
    assert(0 <= x / y <= x) by (nonlinear_arith)
        requires
            x >= 0,
            y >= 1,
    ;
    if y >= 2 {
        assert(2 * (x / y) <= x) by (nonlinear_arith)
            requires
                x >= 0,
                y >= 2,
        ;
    }
    if b < 0 {
        let x = if a >= 0 {
            a
        } else {
            -a
        };
        assert(x / b == -(x / (-b))) by (nonlinear_arith)
            requires
                x >= 0,
                b < 0,
        ;
    }
}

} // verus!
