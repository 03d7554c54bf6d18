use vstd::prelude::*;

use crate::util::{chars_of, string_from_chars};

verus! {

/// Whether `c` has the Unicode White_Space property: tab, line feed, line
/// tabulation, form feed and carriage return, the space, next line, no-break
/// space, ogham space mark, the spaces from en quad to hair space, the line
/// and paragraph separators, narrow no-break space, medium mathematical space
/// and ideographic space.
pub open spec fn white_space(c: char) -> bool {
    let u = c as u32;
    ||| 0x09 <= u <= 0x0D
    ||| u == 0x20
    ||| u == 0x85
    ||| u == 0xA0
    ||| u == 0x1680
    ||| 0x2000 <= u <= 0x200A
    ||| u == 0x2028
    ||| u == 0x2029
    ||| u == 0x202F
    ||| u == 0x205F
    ||| u == 0x3000
}

/// Whether `c` has the Unicode White_Space property, as `char::is_whitespace`
/// decides it.
fn char_is_whitespace(c: char) -> (r: bool)
    ensures
        r == white_space(c),
{
    let u = c as u32;
    (0x09 <= u && u <= 0x0D) || u == 0x20 || u == 0x85 || u == 0xA0 || u == 0x1680 || (0x2000 <= u && u <= 0x200A)
        || u == 0x2028 || u == 0x2029 || u == 0x202F || u == 0x205F || u == 0x3000
}

/// ASCII letters.
pub open spec fn is_alpha(c: char) -> bool {
    ('a' <= c <= 'z') || ('A' <= c <= 'Z')
}

/// ASCII digits.
pub open spec fn is_digit(c: char) -> bool {
    '0' <= c <= '9'
}

/// The characters of identifiers and keywords: ASCII letters and digits, and `_`.
pub open spec fn is_word_char(c: char) -> bool {
    is_alpha(c) || is_digit(c) || c == '_'
}

/// The ASCII lower case of `c`.
pub open spec fn lower_char(c: char) -> char {
    if 'A' <= c <= 'Z' {
        ((c as u32) + 32) as char
    } else {
        c
    }
}

/// The ASCII lower case of `s`.
pub open spec fn lower(s: Seq<char>) -> Seq<char> {
    s.map_values(|c: char| lower_char(c))
}

/// The keywords of the SQL dialect.
pub open spec fn sql_keywords() -> Seq<Seq<char>> {
    seq![
        "select"@, "from"@, "where"@, "and"@, "insert"@, "into"@, "values"@, "delete"@,
        "update"@, "set"@, "create"@, "table"@, "int"@, "varchar"@, "view"@, "as"@,
        "index"@, "on"@,
    ]
}

/// The first position from `p` on that is not white space.
pub open spec fn ws_end(s: Seq<char>, p: int) -> int
    decreases s.len() - p,
{
    if p < s.len() && white_space(s[p]) {
        ws_end(s, p + 1)
    } else {
        p
    }
}

/// The first position from `p` on that does not hold a word character.
pub open spec fn word_end(s: Seq<char>, p: int) -> int
    decreases s.len() - p,
{
    if 0 <= p < s.len() && is_word_char(s[p]) {
        word_end(s, p + 1)
    } else {
        p
    }
}

/// The first position from `p` on that does not hold a digit.
pub open spec fn digits_end(s: Seq<char>, p: int) -> int
    decreases s.len() - p,
{
    if 0 <= p < s.len() && is_digit(s[p]) {
        digits_end(s, p + 1)
    } else {
        p
    }
}

/// The first position from `p` on that holds a quote, or the end.
pub open spec fn quote_end(s: Seq<char>, p: int) -> int
    decreases s.len() - p,
{
    if 0 <= p < s.len() && s[p] != '\'' {
        quote_end(s, p + 1)
    } else {
        p
    }
}

/// The word at `p`: the run of word characters that starts there.
pub open spec fn word_at(s: Seq<char>, p: int) -> Seq<char> {
    s.subrange(p, word_end(s, p))
}

/// The value of a sequence of decimal digits.
pub open spec fn digits_value(d: Seq<char>) -> int
    decreases d.len(),
{
    if d.len() == 0 {
        0
    } else {
        digits_value(d.drop_last()) * 10 + ((d.last() as u32) - ('0' as u32))
    }
}

/// Whether a keyword of the dialect, in any case, starts at `p`.
pub open spec fn keyword_at(s: Seq<char>, p: int) -> bool {
    0 <= p < s.len() && word_at(s, p).len() > 0 && sql_keywords().contains(lower(word_at(s, p)))
}

/// Whether the token at `p` is the keyword `w`, in any case.
pub open spec fn keyword_is(s: Seq<char>, p: int, w: Seq<char>) -> bool {
    keyword_at(s, p) && lower(word_at(s, p)) == lower(w)
}

/// Whether the token at `p` is an identifier: a word that starts with a
/// letter and is not a keyword.
pub open spec fn id_at(s: Seq<char>, p: int) -> bool {
    0 <= p < s.len() && is_alpha(s[p]) && !keyword_at(s, p)
}

/// Whether the token at `p` is the delimiter `d`.
pub open spec fn delim_at(s: Seq<char>, p: int, d: char) -> bool {
    0 <= p < s.len() && s[p] == d
}

/// Whether the token at `p` is an integer constant.
pub open spec fn int_at(s: Seq<char>, p: int) -> bool {
    0 <= p < s.len() && is_digit(s[p])
}

/// Whether the token at `p` is a string constant.
pub open spec fn str_at(s: Seq<char>, p: int) -> bool {
    0 <= p < s.len() && s[p] == '\''
}

/// The value of the integer constant at `p`.
pub open spec fn int_value_at(s: Seq<char>, p: int) -> int {
    digits_value(s.subrange(p, digits_end(s, p)))
}

/// The characters of the string constant at `p`, without its quotes.
pub open spec fn str_value_at(s: Seq<char>, p: int) -> Seq<char> {
    s.subrange(p + 1, quote_end(s, p + 1))
}

/// The position of the token after the word at `p`.
pub open spec fn after_word(s: Seq<char>, p: int) -> int {
    ws_end(s, word_end(s, p))
}

/// The position of the token after the delimiter at `p`.
pub open spec fn after_delim(s: Seq<char>, p: int) -> int {
    ws_end(s, p + 1)
}

/// The position of the token after the integer constant at `p`.
pub open spec fn after_int(s: Seq<char>, p: int) -> int {
    ws_end(s, digits_end(s, p))
}

/// The position of the token after the string constant at `p`.
pub open spec fn after_str(s: Seq<char>, p: int) -> int {
    ws_end(s, quote_end(s, p + 1) + 1)
}

/// Reading a token moves forward and stays at most one past the end.
pub proof fn lemma_token_advance(s: Seq<char>, p: int)
    requires
        0 <= p <= s.len() + 1,
    ensures
        p < s.len() ==> p < after_delim(s, p) <= s.len(),
        p < s.len() && word_at(s, p).len() > 0 ==> p < after_word(s, p) <= s.len(),
        keyword_at(s, p) ==> p < after_word(s, p) <= s.len(),
        id_at(s, p) ==> p < after_word(s, p) <= s.len(),
        int_at(s, p) ==> p < after_int(s, p) <= s.len(),
        str_at(s, p) ==> p < after_str(s, p) <= s.len() + 1,
        p <= ws_end(s, p) <= s.len() + 1,
{
    lemma_ws_end(s, p);
    if p < s.len() {
        lemma_runs(s, p);
        lemma_runs(s, p + 1);
        lemma_ws_end(s, p + 1);
        lemma_ws_end(s, word_end(s, p));
        lemma_ws_end(s, digits_end(s, p));
        lemma_ws_end(s, quote_end(s, p + 1) + 1);
        if is_alpha(s[p]) {
            assert(is_word_char(s[p]));
        }
        if is_digit(s[p]) {
            assert(word_end(s, p) > p) by {
                assert(is_word_char(s[p]));
            }
        }
        if quote_end(s, p + 1) + 1 > s.len() {
            assert(ws_end(s, quote_end(s, p + 1) + 1) == quote_end(s, p + 1) + 1);
        }
    } else if p == s.len() + 1 {
        assert(ws_end(s, p) == p);
    } else {
        assert(word_end(s, p) == p);
    }
}

/// `ws_end` does not go back nor past the end, and stops at a non-space.
pub proof fn lemma_ws_end(s: Seq<char>, p: int)
    requires
        0 <= p,
    ensures
        p <= ws_end(s, p),
        p <= s.len() ==> ws_end(s, p) <= s.len(),
        ws_end(s, p) < s.len() ==> !white_space(s[ws_end(s, p)]),
        ws_end(s, ws_end(s, p)) == ws_end(s, p),
    decreases s.len() - p,
{
    if p < s.len() && white_space(s[p]) {
        lemma_ws_end(s, p + 1);
    }
}

/// Runs of word characters or digits stay within the text.
pub proof fn lemma_runs(s: Seq<char>, p: int)
    requires
        0 <= p <= s.len(),
    ensures
        p <= word_end(s, p) <= s.len(),
        p <= digits_end(s, p) <= s.len(),
        p <= quote_end(s, p) <= s.len(),
        forall|i: int| p <= i < word_end(s, p) ==> is_word_char(#[trigger] s[i]),
        forall|i: int| p <= i < digits_end(s, p) ==> is_digit(#[trigger] s[i]),
        forall|i: int| p <= i < quote_end(s, p) ==> #[trigger] s[i] != '\'',
        word_end(s, p) < s.len() ==> !is_word_char(s[word_end(s, p)]),
        digits_end(s, p) < s.len() ==> !is_digit(s[digits_end(s, p)]),
        quote_end(s, p) < s.len() ==> s[quote_end(s, p)] == '\'',
    decreases s.len() - p,
{
    if p < s.len() {
        lemma_runs(s, p + 1);
    }
}

/// A lexical analyzer for SQL: it reads identifiers, keywords, integer and
/// string constants and delimiters, skipping white space between them.
pub struct Lexer {
    s: Vec<char>,
    pos: usize,
    keywords: Vec<String>,
}

impl Lexer {
    /// The text being read.
    pub closed spec fn text(&self) -> Seq<char> {
        self.s@
    }

    /// The position of the next token.
    pub closed spec fn pos(&self) -> int {
        self.pos as int
    }

    /// The lexer's position is past white space, at most one past the end of
    /// the text, and its keywords are those of the dialect.
    pub closed spec fn valid(&self) -> bool {
        &&& self.pos <= self.s@.len() + 1
        &&& self.s@.len() + 1 < usize::MAX
        &&& ws_end(self.s@, self.pos as int) == self.pos
        &&& self.keywords@.len() == sql_keywords().len()
        &&& forall|i: int| 0 <= i < sql_keywords().len() ==> #[trigger] self.keywords@[i]@ == sql_keywords()[i]
    }

    /// The lexer's position lies within the text or at most one past its end,
    /// past white space.
    pub proof fn lemma_valid(&self)
        requires
            self.valid(),
        ensures
            0 <= self.pos() <= self.text().len() + 1,
            self.text().len() + 1 < usize::MAX,
            ws_end(self.text(), self.pos()) == self.pos(),
    {
    }

    /// A lexer for the SQL text `s`, positioned at its first token.
    pub fn new(s: &str) -> (r: Self)
        requires
            s@.len() + 1 < usize::MAX,
        ensures
            r.valid(),
            r.text() == s@,
            r.pos() == ws_end(s@, 0),
    {
        let mut keywords: Vec<String> = Vec::new();
        keywords.push("select".to_owned());
        keywords.push("from".to_owned());
        keywords.push("where".to_owned());
        keywords.push("and".to_owned());
        keywords.push("insert".to_owned());
        keywords.push("into".to_owned());
        keywords.push("values".to_owned());
        keywords.push("delete".to_owned());
        keywords.push("update".to_owned());
        keywords.push("set".to_owned());
        keywords.push("create".to_owned());
        keywords.push("table".to_owned());
        keywords.push("int".to_owned());
        keywords.push("varchar".to_owned());
        keywords.push("view".to_owned());
        keywords.push("as".to_owned());
        keywords.push("index".to_owned());
        keywords.push("on".to_owned());
        let mut lexer = Lexer { s: chars_of(s), pos: 0, keywords };
        lexer.skip_whitespace();
        proof {
            lemma_ws_end(lexer.s@, 0);
            assert forall|i: int| 0 <= i < sql_keywords().len() implies #[trigger] lexer.keywords@[i]@ == sql_keywords()[i] by {
            }
        }
        lexer
    }

    fn skip_whitespace(&mut self)
        requires
            old(self).pos <= old(self).s@.len() + 1,
            old(self).s@.len() + 1 < usize::MAX,
        ensures
            final(self).s == old(self).s,
            final(self).keywords == old(self).keywords,
            final(self).pos == ws_end(old(self).s@, old(self).pos as int),
    {
        proof {
            lemma_ws_end(self.s@, self.pos as int);
        }
        while self.pos < self.s.len() && char_is_whitespace(self.s[self.pos])
            invariant
                self.s == old(self).s,
                self.keywords == old(self).keywords,
                old(self).pos <= self.pos <= self.s@.len() + 1,
                ws_end(self.s@, self.pos as int) == ws_end(old(self).s@, old(self).pos as int),
            decreases self.s@.len() - self.pos,
        {
            self.pos = self.pos + 1;
        }
    }

    /// The end of the run of word characters at `p`.
    fn scan_word(&self, p: usize) -> (r: usize)
        requires
            p <= self.s@.len(),
        ensures
            r == word_end(self.s@, p as int),
    {
        proof {
            lemma_runs(self.s@, p as int);
        }
        let mut q = p;
        while q < self.s.len() && is_id_char(self.s[q])
            invariant
                p <= q <= self.s@.len(),
                word_end(self.s@, q as int) == word_end(self.s@, p as int),
            decreases self.s@.len() - q,
        {
            q = q + 1;
        }
        q
    }

    /// Whether `w`, in lower case, is a keyword of the dialect.
    fn is_keyword(&self, w: &String) -> (r: bool)
        requires
            self.valid(),
        ensures
            r == sql_keywords().contains(w@),
    {
        let mut i: usize = 0;
        while i < self.keywords.len()
            invariant
                self.valid(),
                i <= sql_keywords().len(),
                forall|j: int| 0 <= j < i ==> sql_keywords()[j] != w@,
            decreases sql_keywords().len() - i,
        {
            if self.keywords[i] == *w {
                proof {
                    assert(sql_keywords()[i as int] == w@);
                }
                return true;
            }
            i = i + 1;
        }
        false
    }

    /// The lower case of the characters from `start` to `end`.
    fn lower_range(&self, start: usize, end: usize) -> (r: String)
        requires
            start <= end <= self.s@.len(),
        ensures
            r@ == lower(self.s@.subrange(start as int, end as int)),
    {
        let mut cs: Vec<char> = Vec::new();
        let mut i = start;
        while i < end
            invariant
                start <= i <= end <= self.s@.len(),
                cs@ == lower(self.s@.subrange(start as int, i as int)),
            decreases end - i,
        {
            cs.push(to_lower(self.s[i]));
            i = i + 1;
            assert(cs@ =~= lower(self.s@.subrange(start as int, i as int)));
        }
        string_from_chars(&cs)
    }

    /// Whether the next token is the delimiter `d`.
    pub fn match_delim(&self, d: char) -> (r: bool)
        requires
            self.valid(),
        ensures
            r == delim_at(self.text(), self.pos(), d),
    {
        if self.pos >= self.s.len() {
            return false;
        }
        self.s[self.pos] == d
    }

    /// Whether the next token is an integer constant.
    pub fn match_int_constant(&self) -> (r: bool)
        requires
            self.valid(),
        ensures
            r == int_at(self.text(), self.pos()),
    {
        if self.pos >= self.s.len() {
            return false;
        }
        is_ascii_digit(self.s[self.pos])
    }

    /// Whether the next token is a string constant.
    pub fn match_string_constant(&self) -> (r: bool)
        requires
            self.valid(),
        ensures
            r == str_at(self.text(), self.pos()),
    {
        if self.pos >= self.s.len() {
            return false;
        }
        self.s[self.pos] == '\''
    }

    /// Whether the next token is the keyword `w`, in any case.
    pub fn match_keyword(&self, w: &str) -> (r: bool)
        requires
            self.valid(),
        ensures
            r == keyword_is(self.text(), self.pos(), w@),
    {
        if self.pos >= self.s.len() {
            return false;
        }
        proof {
            lemma_runs(self.s@, self.pos as int);
        }
        let start = self.pos;
        let end = self.scan_word(start);
        if end > start {
            let word = self.lower_range(start, end);
            let target = lower_str(w);
            word == target && self.is_keyword(&word)
        } else {
            false
        }
    }

    /// Whether a keyword starts at the current position.
    fn is_keyword_at_pos(&self) -> (r: bool)
        requires
            self.valid(),
            self.pos() < self.text().len(),
        ensures
            r == keyword_at(self.text(), self.pos()),
    {
        proof {
            lemma_runs(self.s@, self.pos as int);
        }
        let start = self.pos;
        let end = self.scan_word(start);
        if end > start {
            let word = self.lower_range(start, end);
            self.is_keyword(&word)
        } else {
            false
        }
    }

    /// Whether the next token is an identifier: a word that starts with a
    /// letter and is not a keyword.
    pub fn match_id(&self) -> (r: bool)
        requires
            self.valid(),
        ensures
            r == id_at(self.text(), self.pos()),
    {
        if self.pos >= self.s.len() {
            return false;
        }
        is_ascii_alphabetic(self.s[self.pos]) && !self.is_keyword_at_pos()
    }

    /// Whether the integer constant at the current position fits in an `i32`.
    pub fn int_constant_fits(&self) -> (r: bool)
        requires
            self.valid(),
            int_at(self.text(), self.pos()),
        ensures
            r == (int_value_at(self.text(), self.pos()) <= i32::MAX),
    {
        proof {
            lemma_runs(self.s@, self.pos as int);
        }
        let ghost s = self.s@;
        let start = self.pos;
        let ghost end = digits_end(s, start as int);
        let mut q = start;
        let mut num: i64 = 0;
        while q < self.s.len() && is_ascii_digit(self.s[q])
            invariant
                self.s@ == s,
                self.pos == start,
                end == digits_end(s, start as int),
                start <= q <= end,
                end <= s.len(),
                forall|i: int| start <= i < end ==> is_digit(#[trigger] s[i]),
                end < s.len() ==> !is_digit(s[end]),
                num == digits_value(s.subrange(start as int, q as int)),
                0 <= num <= i32::MAX,
            decreases s.len() - q,
        {
            proof {
                lemma_digits_prefix(s.subrange(start as int, end), q - start);
                assert(s.subrange(start as int, end).subrange(0, q - start + 1) =~= s.subrange(
                    start as int,
                    q + 1,
                ));
                assert(s.subrange(start as int, end).subrange(0, q - start) =~= s.subrange(
                    start as int,
                    q as int,
                ));
            }
            let d = (self.s[q] as u32) - ('0' as u32);
            proof {
                assert(s.subrange(start as int, end)[q - start] == s[q as int]);
            }
            num = num * 10 + (d as i64);
            q = q + 1;
            if num > 2147483647 {
                assert(num <= digits_value(s.subrange(start as int, end)));
                return false;
            }
        }
        true
    }

    /// Reads the delimiter `d`.
    pub fn eat_delim(&mut self, d: char)
        requires
            old(self).valid(),
            delim_at(old(self).text(), old(self).pos(), d),
        ensures
            final(self).valid(),
            final(self).text() == old(self).text(),
            final(self).pos() == after_delim(old(self).text(), old(self).pos()),
    {
        self.skip_whitespace();
        self.pos = self.pos + 1;
        self.skip_whitespace();
        proof {
            lemma_ws_end(self.s@, old(self).pos as int + 1);
        }
    }

    /// Reads the keyword `w`.
    pub fn eat_keyword(&mut self, w: &str)
        requires
            old(self).valid(),
            keyword_is(old(self).text(), old(self).pos(), w@),
        ensures
            final(self).valid(),
            final(self).text() == old(self).text(),
            final(self).pos() == after_word(old(self).text(), old(self).pos()),
    {
        self.skip_whitespace();
        proof {
            lemma_runs(self.s@, self.pos as int);
        }
        self.pos = self.scan_word(self.pos);
        self.skip_whitespace();
        proof {
            lemma_ws_end(self.s@, word_end(self.s@, old(self).pos as int));
        }
    }

    /// Reads an identifier; returns it in lower case.
    pub fn eat_id(&mut self) -> (r: String)
        requires
            old(self).valid(),
            id_at(old(self).text(), old(self).pos()),
        ensures
            final(self).valid(),
            final(self).text() == old(self).text(),
            r@ == lower(word_at(old(self).text(), old(self).pos())),
            final(self).pos() == after_word(old(self).text(), old(self).pos()),
    {
        self.skip_whitespace();
        proof {
            lemma_runs(self.s@, self.pos as int);
        }
        let start = self.pos;
        self.pos = self.scan_word(start);
        let id = self.lower_range(start, self.pos);
        self.skip_whitespace();
        proof {
            lemma_ws_end(self.s@, word_end(self.s@, old(self).pos as int));
        }
        id
    }

    /// Reads an integer constant.
    pub fn eat_int_constant(&mut self) -> (r: i32)
        requires
            old(self).valid(),
            int_at(old(self).text(), old(self).pos()),
            int_value_at(old(self).text(), old(self).pos()) <= i32::MAX,
        ensures
            final(self).valid(),
            final(self).text() == old(self).text(),
            r == int_value_at(old(self).text(), old(self).pos()),
            final(self).pos() == after_int(old(self).text(), old(self).pos()),
    {
        self.skip_whitespace();
        proof {
            lemma_runs(self.s@, self.pos as int);
        }
        let start = self.pos;
        let ghost s = self.s@;
        let ghost end = digits_end(s, start as int);
        let mut num: i32 = 0;
        while self.pos < self.s.len() && is_ascii_digit(self.s[self.pos])
            invariant
                self.valid() || true,
                self.s@ == s,
                self.keywords == old(self).keywords,
                start <= self.pos <= end,
                end <= s.len(),
                s.len() + 1 < usize::MAX,
                forall|i: int| start <= i < end ==> is_digit(#[trigger] s[i]),
                end < s.len() ==> !is_digit(s[end]),
                digits_value(s.subrange(start as int, end)) <= i32::MAX,
                num == digits_value(s.subrange(start as int, self.pos as int)),
            decreases s.len() - self.pos,
        {
            let ghost p = self.pos as int;
            proof {
                lemma_digits_prefix(s.subrange(start as int, end), p - start);
                assert(s.subrange(start as int, end).subrange(0, p - start + 1) =~= s.subrange(start as int, p + 1));
                assert(s.subrange(start as int, p + 1).drop_last() =~= s.subrange(start as int, p));
            }
            let d = (self.s[self.pos] as u32) - ('0' as u32);
            num = num * 10 + (d as i32);
            self.pos = self.pos + 1;
        }
        self.skip_whitespace();
        proof {
            lemma_ws_end(self.s@, end);
        }
        num
    }

    /// Reads a string constant: the characters between a quote and the next
    /// quote, or the end of the text.
    pub fn eat_string_constant(&mut self) -> (r: String)
        requires
            old(self).valid(),
            str_at(old(self).text(), old(self).pos()),
        ensures
            final(self).valid(),
            final(self).text() == old(self).text(),
            r@ == str_value_at(old(self).text(), old(self).pos()),
            final(self).pos() == after_str(old(self).text(), old(self).pos()),
    {
        self.skip_whitespace();
        self.pos = self.pos + 1;
        proof {
            lemma_runs(self.s@, self.pos as int);
        }
        let start = self.pos;
        while self.pos < self.s.len() && self.s[self.pos] != '\''
            invariant
                start <= self.pos <= self.s@.len(),
                self.s == old(self).s,
                self.keywords == old(self).keywords,
                quote_end(self.s@, self.pos as int) == quote_end(self.s@, start as int),
                self.s@.len() + 1 < usize::MAX,
            decreases self.s@.len() - self.pos,
        {
            self.pos = self.pos + 1;
        }
        let mut cs: Vec<char> = Vec::new();
        let mut i = start;
        while i < self.pos
            invariant
                start <= i <= self.pos <= self.s@.len(),
                cs@ == self.s@.subrange(start as int, i as int),
            decreases self.pos - i,
        {
            cs.push(self.s[i]);
            i = i + 1;
            assert(cs@ =~= self.s@.subrange(start as int, i as int));
        }
        let result = string_from_chars(&cs);
        self.pos = self.pos + 1;
        let ghost p = self.pos as int;
        self.skip_whitespace();
        proof {
            lemma_ws_end(self.s@, p);
        }
        result
    }
}

/// The value of a prefix of a digit sequence stays below that of the whole.
pub proof fn lemma_digits_prefix(d: Seq<char>, k: int)
    requires
        0 <= k < d.len(),
        forall|i: int| 0 <= i < d.len() ==> is_digit(#[trigger] d[i]),
    ensures
        digits_value(d.subrange(0, k + 1)) <= digits_value(d),
        digits_value(d.subrange(0, k + 1)) == digits_value(d.subrange(0, k)) * 10 + ((d[k] as u32) - ('0' as u32)),
        digits_value(d.subrange(0, k)) >= 0,
    decreases d.len(),
{
    let t = d.subrange(0, k + 1);
    assert(t.drop_last() =~= d.subrange(0, k));
    lemma_digits_nonneg(d.subrange(0, k));
    if k + 1 < d.len() {
        lemma_digits_prefix(d.drop_last(), k);
        assert(d.drop_last().subrange(0, k + 1) =~= t);
        assert(d.drop_last().subrange(0, k) =~= d.subrange(0, k));
        lemma_digits_nonneg(d.drop_last());
        assert(digits_value(d.drop_last()) <= digits_value(d.drop_last()) * 10) by (nonlinear_arith)
            requires
                digits_value(d.drop_last()) >= 0,
        ;
    } else {
        assert(t =~= d);
    }
}

/// Digit sequences have nonnegative values.
pub proof fn lemma_digits_nonneg(d: Seq<char>)
    requires
        forall|i: int| 0 <= i < d.len() ==> is_digit(#[trigger] d[i]),
    ensures
        digits_value(d) >= 0,
    decreases d.len(),
{
    if d.len() > 0 {
        assert(forall|i: int| 0 <= i < d.drop_last().len() ==> d.drop_last()[i] == d[i]);
        lemma_digits_nonneg(d.drop_last());
    }
}

fn is_ascii_digit(c: char) -> (r: bool)
    ensures
        r == is_digit(c),
{
    '0' <= c && c <= '9'
}

fn is_ascii_alphabetic(c: char) -> (r: bool)
    ensures
        r == is_alpha(c),
{
    ('a' <= c && c <= 'z') || ('A' <= c && c <= 'Z')
}

/// Whether `c` can be part of an identifier.
fn is_id_char(c: char) -> (r: bool)
    ensures
        r == is_word_char(c),
{
    is_ascii_alphabetic(c) || is_ascii_digit(c) || c == '_'
}

fn to_lower(c: char) -> (r: char)
    ensures
        r == lower_char(c),
{
    if 'A' <= c && c <= 'Z' {
        (((c as u32) + 32) as u8) as char
    } else {
        c
    }
}

/// The ASCII lower case of `w`.
fn lower_str(w: &str) -> (r: String)
    ensures
        r@ == lower(w@),
{
    let cs = chars_of(w);
    let mut out: Vec<char> = Vec::new();
    let mut i: usize = 0;
    while i < cs.len()
        invariant
            i <= cs@.len(),
            cs@ == w@,
            out@ == lower(cs@.subrange(0, i as int)),
        decreases cs@.len() - i,
    {
        out.push(to_lower(cs[i]));
        i = i + 1;
        assert(out@ =~= lower(cs@.subrange(0, i as int)));
    }
    assert(cs@.subrange(0, i as int) =~= cs@);
    string_from_chars(&out)
}

} // verus!
