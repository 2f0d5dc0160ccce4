use vstd::prelude::*;
use vstd::string::StrSliceExecFns;
use vstd::std_specs::iter::IteratorSpec;

use unic_ucd_category::GeneralCategory;

use crate::expr::lemma_views_of;
use crate::expr::view_of;
use crate::expr::views_of;
use crate::expr::Expr;
use crate::expr::SpecExpr;

verus! {

/// Whether the character belongs to a Unicode *punctuation* or *separator*
/// general category.  The name is given meaning only through the trusted
/// lookup below.
pub uninterp spec fn unicode_break(c: char) -> bool;

/// Relies on unic_ucd_category::GeneralCategory::of: the Unicode general
/// category of a character.  True exactly for the punctuation categories
/// Ps, Pe, Pi, Pf and Po and the separator categories Zs, Zl and Zp; the
/// connector and dash categories stay word characters, so that hyphenated
/// words and date arguments hold together.
#[verifier::external_body]
fn char_is_break(c: char) -> (r: bool)
    ensures
        r == unicode_break(c),
{
    match GeneralCategory::of(c) {
        GeneralCategory::OpenPunctuation | GeneralCategory::ClosePunctuation
        | GeneralCategory::InitialPunctuation | GeneralCategory::FinalPunctuation
        | GeneralCategory::OtherPunctuation | GeneralCategory::SpaceSeparator
        | GeneralCategory::LineSeparator | GeneralCategory::ParagraphSeparator => true,
        _ => false,
    }
}

/// Relies on String::push: appends a single character.
#[verifier::external_body]
pub(crate) fn push_string_char(s: &mut String, c: char)
    ensures
        final(s)@ == old(s)@.push(c),
{
    s.push(c);
}

/// The characters with syntactic meaning of their own.
pub open spec fn spec_is_special_char(c: char) -> bool {
    c == '(' || c == ')' || c == ':' || c == '\'' || c == '"'
}

pub fn is_special_char(c: char) -> (r: bool)
    ensures
        r == spec_is_special_char(c),
{
    match c {
        '(' | ')' | ':' | '\'' | '"' => true,
        _ => false,
    }
}

/// Whitespace: any Unicode punctuation or separator, except the special
/// characters, terminates a word.
pub open spec fn spec_is_whitespace(c: char) -> bool {
    !spec_is_special_char(c) && unicode_break(c)
}

pub fn is_whitespace(c: char) -> (r: bool)
    ensures
        r == spec_is_whitespace(c),
{
    if is_special_char(c) {
        return false;
    }
    char_is_break(c)
}

pub open spec fn spec_is_word_char(c: char) -> bool {
    !spec_is_whitespace(c) && !spec_is_special_char(c)
}

pub fn is_word_char(c: char) -> (r: bool)
    ensures
        r == spec_is_word_char(c),
{
    !is_whitespace(c) && !is_special_char(c)
}

/// The operator keywords; a bare word equal to one of them is not a phrase.
pub open spec fn spec_is_keyword(w: Seq<char>) -> bool {
    ||| w =~= seq!['A', 'N', 'D']
    ||| w =~= seq!['T', 'H', 'E', 'N']
    ||| w =~= seq!['O', 'R']
    ||| w =~= seq!['N', 'O', 'T']
}

pub fn is_keyword(s: &str) -> (r: bool)
    ensures
        r == spec_is_keyword(s@),
{
    let n = s.unicode_len();
    if n == 3 {
        let a = s.get_char(0);
        let b = s.get_char(1);
        let c = s.get_char(2);
        if a == 'A' && b == 'N' && c == 'D' {
            proof {
                assert(s@ =~= seq!['A', 'N', 'D']);
            }
            return true;
        }
        if a == 'N' && b == 'O' && c == 'T' {
            proof {
                assert(s@ =~= seq!['N', 'O', 'T']);
            }
            return true;
        }
        proof {
            assert(!(s@ =~= seq!['A', 'N', 'D']));
            assert(!(s@ =~= seq!['N', 'O', 'T']));
            assert(!(s@ =~= seq!['O', 'R']));
            assert(!(s@ =~= seq!['T', 'H', 'E', 'N']));
        }
        return false;
    }
    if n == 4 {
        let a = s.get_char(0);
        let b = s.get_char(1);
        let c = s.get_char(2);
        let d = s.get_char(3);
        if a == 'T' && b == 'H' && c == 'E' && d == 'N' {
            proof {
                assert(s@ =~= seq!['T', 'H', 'E', 'N']);
            }
            return true;
        }
        proof {
            assert(!(s@ =~= seq!['T', 'H', 'E', 'N']));
            assert(!(s@ =~= seq!['A', 'N', 'D']));
            assert(!(s@ =~= seq!['N', 'O', 'T']));
            assert(!(s@ =~= seq!['O', 'R']));
        }
        return false;
    }
    if n == 2 {
        let a = s.get_char(0);
        let b = s.get_char(1);
        if a == 'O' && b == 'R' {
            proof {
                assert(s@ =~= seq!['O', 'R']);
            }
            return true;
        }
        proof {
            assert(!(s@ =~= seq!['O', 'R']));
            assert(!(s@ =~= seq!['A', 'N', 'D']));
            assert(!(s@ =~= seq!['N', 'O', 'T']));
            assert(!(s@ =~= seq!['T', 'H', 'E', 'N']));
        }
        return false;
    }
    proof {
        assert(!(s@ =~= seq!['A', 'N', 'D']));
        assert(!(s@ =~= seq!['T', 'H', 'E', 'N']));
        assert(!(s@ =~= seq!['O', 'R']));
        assert(!(s@ =~= seq!['N', 'O', 'T']));
    }
    false
}

/// One pass over a string, collecting its characters.
#[verifier::loop_isolation(false)]
pub fn str_to_chars(s: &str) -> (r: Vec<char>)
    ensures
        r@ == s@,
{
    broadcast use vstd::string::next_postcondition;
    broadcast use vstd::string::axiom_spec_iter;

    let mut it = s.chars();
    let mut out: Vec<char> = Vec::new();
    proof {
        assert(out@ + IteratorSpec::remaining(&it) =~= s@);
    }
    let mut done = false;
    while !done
        invariant
            IteratorSpec::obeys_prophetic_iter_laws(&it),
            out@ + IteratorSpec::remaining(&it) == s@,
            done ==> IteratorSpec::remaining(&it).len() == 0,
            IteratorSpec::decrease(&it) is Some,
        decreases (if done {
            0int
        } else {
            1int
        }), IteratorSpec::decrease(&it)->0,
    {
        let ghost out_prev = out@;
        let ghost rem_prev = IteratorSpec::remaining(&it);
        match it.next() {
            None => {
                done = true;
            },
            Some(c) => {
                out.push(c);
                proof {
                    assert(out@ + IteratorSpec::remaining(&it)
                        =~= out_prev + rem_prev);
                }
            },
        }
    }
    proof {
        assert(out@ =~= s@);
    }
    out
}

/// The end of the maximal run of word characters starting at `i`.
pub open spec fn word_end(s: Seq<char>, i: int) -> int
    decreases s.len() - i,
{
    if i < s.len() && spec_is_word_char(s[i]) {
        word_end(s, i + 1)
    } else {
        i
    }
}

pub proof fn lemma_word_end(s: Seq<char>, i: int)
    requires
        0 <= i <= s.len(),
    ensures
        i <= word_end(s, i) <= s.len(),
        forall|k: int| i <= k < word_end(s, i) ==> spec_is_word_char(s[k]),
        word_end(s, i) < s.len() ==> !spec_is_word_char(s[word_end(s, i)]),
    decreases s.len() - i,
{
    if i < s.len() && spec_is_word_char(s[i]) {
        lemma_word_end(s, i + 1);
    }
}

/// The end of the maximal run of whitespace starting at `i`.
pub open spec fn ws_end(s: Seq<char>, i: int) -> int
    decreases s.len() - i,
{
    if i < s.len() && spec_is_whitespace(s[i]) {
        ws_end(s, i + 1)
    } else {
        i
    }
}

pub proof fn lemma_ws_end(s: Seq<char>, i: int)
    requires
        0 <= i <= s.len(),
    ensures
        i <= ws_end(s, i) <= s.len(),
    decreases s.len() - i,
{
    if i < s.len() && spec_is_whitespace(s[i]) {
        lemma_ws_end(s, i + 1);
    }
}

/// What `parse_word` yields: the maximal word at `i` and the position after.
pub open spec fn spec_parse_word(s: Seq<char>, i: int) -> (Seq<char>, int) {
    (s.subrange(i, word_end(s, i)), word_end(s, i))
}

/// The body of a quoted string, after the opening quote `q`: `\'`, `\"` and
/// `\\` are escapes, any other backslash is literal, and the matching quote
/// closes.  `None` when the input ends before the closing quote.
pub open spec fn spec_parse_string_body(s: Seq<char>, i: int, q: char) -> Option<
    (Seq<char>, int),
>
    decreases s.len() - i,
{
    if i < 0 || i >= s.len() {
        None
    } else if s[i] == q {
        Some((Seq::empty(), i + 1))
    } else if s[i] == '\\' {
        if i + 1 < s.len() && (s[i + 1] == '\'' || s[i + 1] == '"' || s[i + 1] == '\\') {
            match spec_parse_string_body(s, i + 2, q) {
                None => None,
                Some((w, j)) => Some((seq![s[i + 1]] + w, j)),
            }
        } else {
            match spec_parse_string_body(s, i + 1, q) {
                None => None,
                Some((w, j)) => Some((seq!['\\'] + w, j)),
            }
        }
    } else {
        match spec_parse_string_body(s, i + 1, q) {
            None => None,
            Some((w, j)) => Some((seq![s[i]] + w, j)),
        }
    }
}

pub open spec fn spec_parse_string(s: Seq<char>, i: int) -> Option<(Seq<char>, int)> {
    if 0 <= i < s.len() && (s[i] == '\'' || s[i] == '"') {
        spec_parse_string_body(s, i + 1, s[i])
    } else {
        None
    }
}

pub open spec fn spec_parse_string_or_word(s: Seq<char>, i: int) -> Option<(Seq<char>, int)> {
    if spec_parse_word(s, i).0.len() > 0 {
        Some(spec_parse_word(s, i))
    } else {
        spec_parse_string(s, i)
    }
}

/// A `func`: a word, optionally followed by `:` and a word or string.  A bare
/// word (or a bare string) degrades to a phrase; a keyword is refused.
pub open spec fn spec_parse_func(s: Seq<char>, i: int) -> Option<(SpecExpr, int)> {
    let (name, j) = spec_parse_word(s, i);
    if spec_is_keyword(name) {
        None
    } else if name.len() == 0 {
        match spec_parse_string(s, i) {
            None => None,
            Some((w, j2)) => Some((SpecExpr::Phrase(w), j2)),
        }
    } else if !(j < s.len() && s[j] == ':') {
        Some((SpecExpr::Phrase(name), j))
    } else {
        match spec_parse_string_or_word(s, j + 1) {
            None => None,
            Some((v, j2)) => Some((SpecExpr::Func(name, v), j2)),
        }
    }
}

/// The keyword of each binary level: `OR` (level 0), `AND` (1), `THEN` (2).
pub open spec fn kw_len(lvl: int) -> int {
    if lvl <= 0 {
        2
    } else if lvl == 1 {
        3
    } else {
        4
    }
}

/// A keyword counts only as a bare identifier: the character after it, if
/// any, must not be a word character.
pub open spec fn kw_boundary(s: Seq<char>, j: int) -> bool {
    j == s.len() || (j < s.len() && !spec_is_word_char(s[j]))
}

pub open spec fn kw_at(s: Seq<char>, i: int, lvl: int) -> bool {
    if lvl <= 0 {
        i >= 0 && i + 2 <= s.len() && s[i] == 'O' && s[i + 1] == 'R' && kw_boundary(s, i + 2)
    } else if lvl == 1 {
        i >= 0 && i + 3 <= s.len() && s[i] == 'A' && s[i + 1] == 'N' && s[i + 2] == 'D'
            && kw_boundary(s, i + 3)
    } else {
        i >= 0 && i + 4 <= s.len() && s[i] == 'T' && s[i + 1] == 'H' && s[i + 2] == 'E' && s[i
            + 3] == 'N' && kw_boundary(s, i + 4)
    }
}

/// A one-element argument list stays bare; a longer one is wrapped in the
/// junction of its level (`Or`, `And` from juxtaposition or `AND`, `Then`).
pub open spec fn wrap_junction(l: Seq<SpecExpr>, lvl: int) -> SpecExpr {
    if l.len() == 1 {
        l[0]
    } else if lvl == 0 {
        SpecExpr::Or(l)
    } else if lvl == 1 {
        SpecExpr::And(l)
    } else {
        SpecExpr::Then(l)
    }
}

/// One binary-operator level: a first argument, then any number of
/// keyword-separated further arguments.
pub open spec fn spec_parse_op(s: Seq<char>, i: int, lvl: int) -> Option<(SpecExpr, int)>
    decreases
            s.len() - i,
            (if lvl <= 0 {
                1int
            } else {
                2 * lvl + 1
            }),
{
    match (if lvl <= 0 {
        spec_parse_term(s, i)
    } else {
        spec_parse_op(s, i, lvl - 1)
    }) {
        None => None,
        Some((e, j)) => if j < i || j > s.len() {
            None
        } else {
            match spec_parse_op_rest(s, j, lvl) {
                None => None,
                Some((rest, j2)) => Some((wrap_junction(seq![e] + rest, lvl), j2)),
            }
        },
    }
}

/// The keyword-separated continuation of an operator level.  On exit the
/// position sits after the whitespace that was skipped while looking for the
/// keyword.
pub open spec fn spec_parse_op_rest(s: Seq<char>, j: int, lvl: int) -> Option<
    (Seq<SpecExpr>, int),
>
    decreases
            s.len() - j,
            (if lvl <= 0 {
                0int
            } else {
                2 * lvl
            }),
{
    let j1 = ws_end(s, j);
    if j1 < j || j1 > s.len() {
        None
    } else if kw_at(s, j1, lvl) {
        match (if lvl <= 0 {
            spec_parse_term(s, j1 + kw_len(lvl))
        } else {
            spec_parse_op(s, j1 + kw_len(lvl), lvl - 1)
        }) {
            None => None,
            Some((e, j2)) => if j2 <= j || j2 > s.len() {
                None
            } else {
                match spec_parse_op_rest(s, j2, lvl) {
                    None => None,
                    Some((rest, j3)) => Some((seq![e] + rest, j3)),
                }
            },
        }
    } else {
        Some((Seq::empty(), j1))
    }
}

/// Juxtaposition: further `THEN`-level arguments follow without any keyword,
/// as long as the input continues and no operator keyword or `)` is next.
pub open spec fn spec_parse_implicit(s: Seq<char>, i: int) -> Option<(SpecExpr, int)>
    decreases s.len() - i, 8int,
{
    match spec_parse_op(s, i, 2) {
        None => None,
        Some((e, j)) => if j < i || j > s.len() {
            None
        } else {
            match spec_parse_implicit_rest(s, j) {
                None => None,
                Some((rest, j2)) => Some((wrap_junction(seq![e] + rest, 1), j2)),
            }
        },
    }
}

pub open spec fn spec_parse_implicit_rest(s: Seq<char>, j: int) -> Option<(Seq<SpecExpr>, int)>
    decreases s.len() - j, 7int,
{
    let j1 = ws_end(s, j);
    if j1 < j || j1 > s.len() {
        None
    } else if j1 < s.len() && !kw_at(s, j1, 0) && !kw_at(s, j1, 1) && !kw_at(s, j1, 2) && s[j1]
        != ')' {
        match spec_parse_op(s, j1, 2) {
            None => None,
            Some((e, j2)) => if j2 <= j || j2 > s.len() {
                None
            } else {
                match spec_parse_implicit_rest(s, j2) {
                    None => None,
                    Some((rest, j3)) => Some((seq![e] + rest, j3)),
                }
            },
        }
    } else {
        Some((Seq::empty(), j1))
    }
}

pub open spec fn spec_parse_expr(s: Seq<char>, i: int) -> Option<(SpecExpr, int)>
    decreases s.len() - i, 9int,
{
    spec_parse_implicit(s, i)
}

pub open spec fn at_not(s: Seq<char>, i: int) -> bool {
    i >= 0 && i + 3 <= s.len() && s[i] == 'N' && s[i + 1] == 'O' && s[i + 2] == 'T'
        && kw_boundary(s, i + 3)
}

/// A term: a negation, a parenthesised expression, or a `func`.
pub open spec fn spec_parse_term(s: Seq<char>, i: int) -> Option<(SpecExpr, int)>
    decreases s.len() - i, 0int,
{
    let i1 = ws_end(s, i);
    if i1 < i || i1 > s.len() {
        None
    } else if at_not(s, i1) {
        let i2 = ws_end(s, i1 + 3);
        if i2 < i1 + 3 || i2 > s.len() {
            None
        } else {
            match spec_parse_term(s, i2) {
                None => None,
                Some((e, j)) => Some((SpecExpr::Not(Box::new(e)), j)),
            }
        }
    } else if i1 < s.len() && s[i1] == '(' {
        match spec_parse_expr(s, i1 + 1) {
            None => None,
            Some((e, j)) => {
                let j1 = ws_end(s, j);
                if j1 < j || j1 > s.len() {
                    None
                } else if j1 < s.len() && s[j1] == ')' {
                    Some((e, j1 + 1))
                } else {
                    None
                }
            },
        }
    } else {
        spec_parse_func(s, i1)
    }
}

/// The whole query: empty (or all-whitespace) input is the deliberate
/// "no results" expression `False`, and the expression must consume the
/// whole input — anything left over is a syntax error.
pub open spec fn spec_parse(s: Seq<char>) -> Option<SpecExpr> {
    let i = ws_end(s, 0);
    if 0 <= i < s.len() {
        match spec_parse_expr(s, i) {
            None => None,
            Some((e, j)) => if j == s.len() {
                Some(e)
            } else {
                None
            },
        }
    } else {
        Some(SpecExpr::False)
    }
}

/// The parser's cursor over the decoded query characters.
pub struct Input {
    pub full: Vec<char>,
    pub pos: usize,
}

impl Input {
    pub open spec fn chars(&self) -> Seq<char> {
        self.full@
    }

    pub open spec fn at(&self) -> int {
        self.pos as int
    }

    pub open spec fn wf(&self) -> bool {
        self.pos <= self.full@.len()
    }

    pub fn new(full: Vec<char>) -> (r: Input)
        ensures
            r.chars() == full@,
            r.at() == 0,
            r.wf(),
    {
        Input { full, pos: 0 }
    }

    pub fn has_remaining(&self) -> (r: bool)
        requires
            self.wf(),
        ensures
            r == (self.at() < self.chars().len()),
    {
        self.pos < self.full.len()
    }

    pub fn peek(&self) -> (r: Option<char>)
        requires
            self.wf(),
        ensures
            match r {
                Some(c) => self.at() < self.chars().len() && c == self.chars()[self.at()],
                None => self.at() == self.chars().len(),
            },
    {
        if self.pos < self.full.len() {
            Some(self.full[self.pos])
        } else {
            None
        }
    }

    pub fn next(&mut self) -> (r: Option<char>)
        requires
            old(self).wf(),
        ensures
            final(self).wf(),
            final(self).chars() == old(self).chars(),
            match r {
                Some(c) => old(self).at() < old(self).chars().len() && c == old(self).chars()[
                    old(self).at()
                ] && final(self).at() == old(self).at() + 1,
                None => old(self).at() == old(self).chars().len() && final(self).at() == old(
                    self,
                ).at(),
            },
    {
        if self.pos < self.full.len() {
            let c = self.full[self.pos];
            self.pos = self.pos + 1;
            Some(c)
        } else {
            None
        }
    }

    pub fn skip(&mut self, n: usize)
        requires
            old(self).wf(),
            old(self).at() + n <= old(self).chars().len(),
        ensures
            final(self).wf(),
            final(self).chars() == old(self).chars(),
            final(self).at() == old(self).at() + n,
    {
        let total: usize = self.full.len();
        proof {
            assert(old(self).at() + n <= total);
        }
        self.pos = self.pos + n;
    }

    /// Advance over whitespace.
    #[verifier::loop_isolation(false)]
    pub fn skip_whitespace(&mut self)
        requires
            old(self).wf(),
        ensures
            final(self).wf(),
            final(self).chars() == old(self).chars(),
            final(self).at() == ws_end(old(self).chars(), old(self).at()),
    {
        proof {
            lemma_ws_end(self.full@, self.pos as int);
        }
        while self.pos < self.full.len() && is_whitespace(self.full[self.pos])
            invariant
                self.wf(),
                self.full@ == old(self).chars(),
                ws_end(self.full@, self.pos as int) == ws_end(
                    old(self).chars(),
                    old(self).at(),
                ),
            decreases self.full@.len() - self.pos,
        {
            self.pos = self.pos + 1;
        }
    }

    /// Consume the maximal run of word characters.
    #[verifier::loop_isolation(false)]
    pub fn parse_word(&mut self) -> (w: String)
        requires
            old(self).wf(),
        ensures
            final(self).wf(),
            final(self).chars() == old(self).chars(),
            final(self).at() == word_end(old(self).chars(), old(self).at()),
            w@ == old(self).chars().subrange(
                old(self).at(),
                word_end(old(self).chars(), old(self).at()),
            ),
    {
        proof {
            lemma_word_end(self.full@, self.pos as int);
        }
        let mut w = String::new();
        while self.pos < self.full.len() && is_word_char(self.full[self.pos])
            invariant
                self.wf(),
                self.full@ == old(self).chars(),
                old(self).at() <= self.pos <= word_end(old(self).chars(), old(self).at()),
                word_end(self.full@, self.pos as int) == word_end(
                    old(self).chars(),
                    old(self).at(),
                ),
                w@ == old(self).chars().subrange(old(self).at(), self.pos as int),
            decreases self.full@.len() - self.pos,
        {
            let c = self.full[self.pos];
            push_string_char(&mut w, c);
            self.pos = self.pos + 1;
            proof {
                assert(w@ =~= old(self).chars().subrange(old(self).at(), self.pos as int));
            }
        }
        w
    }
}

fn boundary_at(input: &Input, j: usize) -> (r: bool)
    requires
        input.wf(),
        j <= input.chars().len(),
    ensures
        r == kw_boundary(input.chars(), j as int),
{
    j == input.full.len() || !is_word_char(input.full[j])
}

fn at_not_exec(input: &Input) -> (r: bool)
    requires
        input.wf(),
    ensures
        r == at_not(input.chars(), input.at()),
{
    let len: usize = input.full.len();
    if len - input.pos >= 3 {
        input.full[input.pos] == 'N' && input.full[input.pos + 1] == 'O' && input.full[input.pos
            + 2] == 'T' && boundary_at(input, input.pos + 3)
    } else {
        false
    }
}

fn at_keyword(input: &Input, lvl: u8) -> (r: bool)
    requires
        input.wf(),
        lvl <= 2,
    ensures
        r == kw_at(input.chars(), input.at(), lvl as int),
{
    let len: usize = input.full.len();
    if lvl == 0 {
        len - input.pos >= 2 && input.full[input.pos] == 'O' && input.full[input.pos + 1] == 'R'
            && boundary_at(input, input.pos + 2)
    } else if lvl == 1 {
        len - input.pos >= 3 && input.full[input.pos] == 'A' && input.full[input.pos + 1] == 'N'
            && input.full[input.pos + 2] == 'D' && boundary_at(input, input.pos + 3)
    } else {
        len - input.pos >= 4 && input.full[input.pos] == 'T' && input.full[input.pos + 1] == 'H'
            && input.full[input.pos + 2] == 'E' && input.full[input.pos + 3] == 'N'
            && boundary_at(input, input.pos + 4)
    }
}

fn kw_len_exec(lvl: u8) -> (r: usize)
    requires
        lvl <= 2,
    ensures
        r as int == kw_len(lvl as int),
{
    if lvl == 0 {
        2
    } else if lvl == 1 {
        3
    } else {
        4
    }
}

/// A quoted string: consumes the opening quote, the body with its escapes,
/// and the matching closing quote.
#[verifier::loop_isolation(false)]
fn parse_string(input: &mut Input) -> (r: Result<String, ()>)
    requires
        old(input).wf(),
    ensures
        final(input).wf(),
        final(input).chars() == old(input).chars(),
        match r {
            Ok(w) => spec_parse_string(old(input).chars(), old(input).at()) == Some(
                (w@, final(input).at()),
            ) && final(input).at() > old(input).at(),
            Err(_) => spec_parse_string(old(input).chars(), old(input).at()) is None,
        },
{
    let ghost s = old(input).chars();
    let ghost i0 = old(input).at();
    let q = match input.next() {
        Some(c) => {
            if c == '\'' || c == '"' {
                c
            } else {
                return Err(());
            }
        },
        None => {
            return Err(());
        },
    };
    let ghost start = input.at();
    let mut out = String::new();
    loop
        invariant
            input.wf(),
            input.chars() == s,
            start <= input.at() <= s.len(),
            start == i0 + 1,
            q == s[i0] && (q == '\'' || q == '"'),
            (match spec_parse_string_body(s, input.at(), q) {
                Some(wj) => spec_parse_string_body(s, start, q) == Some(
                    (out@ + wj.0, wj.1),
                ),
                None => spec_parse_string_body(s, start, q) is None,
            }),
        decreases s.len() - input.at(),
    {
        let ghost cur = input.at();
        let ghost out_prev = out@;
        match input.peek() {
            None => {
                return Err(());
            },
            Some(c) => {
                if c == q {
                    input.next();
                    proof {
                        assert(out@ + Seq::<char>::empty() =~= out@);
                    }
                    return Ok(out);
                }
                if c == '\\' {
                    input.next();
                    let escaped = match input.peek() {
                        Some(c2) => {
                            if c2 == '\'' || c2 == '"' || c2 == '\\' {
                                true
                            } else {
                                false
                            }
                        },
                        None => false,
                    };
                    if escaped {
                        let c2 = match input.next() {
                            Some(x) => x,
                            None => {
                                return Err(());
                            },
                        };
                        push_string_char(&mut out, c2);
                        proof {
                            match spec_parse_string_body(s, input.at(), q) {
                                Some(wj) => {
                                    assert(out@ + wj.0 =~= out_prev + (seq![c2] + wj.0));
                                },
                                None => {},
                            }
                        }
                    } else {
                        push_string_char(&mut out, '\\');
                        proof {
                            match spec_parse_string_body(s, input.at(), q) {
                                Some(wj) => {
                                    assert(out@ + wj.0 =~= out_prev + (seq!['\\'] + wj.0));
                                },
                                None => {},
                            }
                        }
                    }
                } else {
                    input.next();
                    push_string_char(&mut out, c);
                    proof {
                        match spec_parse_string_body(s, input.at(), q) {
                            Some(wj) => {
                                assert(out@ + wj.0 =~= out_prev + (seq![c] + wj.0));
                            },
                            None => {},
                        }
                    }
                }
            },
        }
    }
}

/// A word if one starts here, else a quoted string.
fn parse_string_or_word(input: &mut Input) -> (r: Result<String, ()>)
    requires
        old(input).wf(),
    ensures
        final(input).wf(),
        final(input).chars() == old(input).chars(),
        match r {
            Ok(w) => spec_parse_string_or_word(old(input).chars(), old(input).at()) == Some(
                (w@, final(input).at()),
            ) && final(input).at() > old(input).at(),
            Err(_) => spec_parse_string_or_word(old(input).chars(), old(input).at()) is None,
        },
{
    let ghost s = old(input).chars();
    let ghost i0 = old(input).at();
    proof {
        lemma_word_end(s, i0);
    }
    let w = input.parse_word();
    if w.as_str().unicode_len() > 0 {
        Ok(w)
    } else {
        parse_string(input)
    }
}

/// A `func`: `name:value`, a bare word as a phrase, or a quoted phrase.
fn parse_func(input: &mut Input) -> (r: Result<Expr, ()>)
    requires
        old(input).wf(),
    ensures
        final(input).wf(),
        final(input).chars() == old(input).chars(),
        match r {
            Ok(e) => spec_parse_func(old(input).chars(), old(input).at()) == Some(
                (e@, final(input).at()),
            ) && final(input).at() > old(input).at(),
            Err(_) => spec_parse_func(old(input).chars(), old(input).at()) is None,
        },
{
    let ghost s = old(input).chars();
    let ghost i0 = old(input).at();
    proof {
        lemma_word_end(s, i0);
    }
    let name = input.parse_word();
    if is_keyword(name.as_str()) {
        return Err(());
    }
    if name.as_str().unicode_len() == 0 {
        match parse_string(input) {
            Ok(w) => Ok(Expr::Phrase(w)),
            Err(_) => Err(()),
        }
    } else {
        match input.peek() {
            Some(':') => {
                input.next();
                match parse_string_or_word(input) {
                    Ok(v) => Ok(Expr::Func(name, v)),
                    Err(_) => Err(()),
                }
            },
            _ => Ok(Expr::Phrase(name)),
        }
    }
}

/// A term: `NOT term`, a parenthesised expression, or a `func`.
pub fn parse_term(input: &mut Input) -> (r: Result<Expr, ()>)
    requires
        old(input).wf(),
    ensures
        final(input).wf(),
        final(input).chars() == old(input).chars(),
        match r {
            Ok(e) => spec_parse_term(old(input).chars(), old(input).at()) == Some(
                (e@, final(input).at()),
            ) && final(input).at() > old(input).at(),
            Err(_) => spec_parse_term(old(input).chars(), old(input).at()) is None,
        },
    decreases input.chars().len() - input.at(), 0int,
{
    let ghost s = old(input).chars();
    let ghost i0 = old(input).at();
    input.skip_whitespace();
    proof {
        lemma_ws_end(s, i0);
    }
    let ghost i1 = input.at();
    if at_not_exec(input) {
        input.skip(3);
        input.skip_whitespace();
        proof {
            lemma_ws_end(s, i1 + 3);
        }
        match parse_term(input) {
            Ok(e) => Ok(Expr::Not(Box::new(e))),
            Err(_) => Err(()),
        }
    } else {
        let open_paren = match input.peek() {
            Some(c) => c == '(',
            None => false,
        };
        if open_paren {
            input.next();
            match parse_expr(input) {
                Err(_) => Err(()),
                Ok(e) => {
                    let ghost j = input.at();
                    input.skip_whitespace();
                    proof {
                        lemma_ws_end(s, j);
                    }
                    let close = match input.peek() {
                        Some(c) => c == ')',
                        None => false,
                    };
                    if close {
                        input.next();
                        Ok(e)
                    } else {
                        Err(())
                    }
                },
            }
        } else {
            parse_func(input)
        }
    }
}

/// One binary-operator level: `OR` (0), `AND` (1), `THEN` (2).
#[verifier::loop_isolation(false)]
pub fn parse_operator(input: &mut Input, lvl: u8) -> (r: Result<Expr, ()>)
    requires
        old(input).wf(),
        lvl <= 2,
    ensures
        final(input).wf(),
        final(input).chars() == old(input).chars(),
        match r {
            Ok(e) => spec_parse_op(old(input).chars(), old(input).at(), lvl as int) == Some(
                (e@, final(input).at()),
            ) && final(input).at() > old(input).at(),
            Err(_) => spec_parse_op(old(input).chars(), old(input).at(), lvl as int) is None,
        },
    decreases input.chars().len() - input.at(), 2 * (lvl as int) + 1,
{
    let ghost s = old(input).chars();
    let ghost i0 = old(input).at();
    let ghost full = spec_parse_op(s, i0, lvl as int);
    let first_r = if lvl == 0 {
        parse_term(input)
    } else {
        parse_operator(input, lvl - 1)
    };
    let first = match first_r {
        Ok(e) => e,
        Err(_) => {
            return Err(());
        },
    };
    let mut args: Vec<Expr> = Vec::new();
    args.push(first);
    proof {
        lemma_views_of(args@);
        assert(views_of(args@) =~= seq![view_of(args@[0])]);
        match spec_parse_op_rest(s, input.at(), lvl as int) {
            Some(rj) => {
                assert(seq![view_of(args@[0])] + rj.0 =~= views_of(args@) + rj.0);
            },
            None => {},
        }
    }
    let mut done = false;
    while !done
        invariant
            input.wf(),
            input.chars() == s,
            lvl <= 2,
            args@.len() >= 1,
            i0 < input.at() <= s.len(),
            !done ==> (match spec_parse_op_rest(s, input.at(), lvl as int) {
                Some(rj) => full == Some(
                    (wrap_junction(views_of(args@) + rj.0, lvl as int), rj.1),
                ),
                None => full is None,
            }),
            done ==> full == Some(
                (wrap_junction(views_of(args@), lvl as int), input.at()),
            ),
        decreases s.len() - input.at() + (if done {
            0int
        } else {
            1int
        }),
    {
        let ghost p = input.at();
        input.skip_whitespace();
        proof {
            lemma_ws_end(s, p);
        }
        let ghost p1 = input.at();
        if at_keyword(input, lvl) {
            let klen = kw_len_exec(lvl);
            input.skip(klen);
            let sub = if lvl == 0 {
                parse_term(input)
            } else {
                parse_operator(input, lvl - 1)
            };
            match sub {
                Err(_) => {
                    return Err(());
                },
                Ok(e2) => {
                    let ghost args_prev = args@;
                    let ghost e2v = e2@;
                    args.push(e2);
                    proof {
                        assert(args@.drop_last() =~= args_prev);
                        assert(views_of(args@) == views_of(args_prev).push(view_of(
                            args@.last(),
                        )));
                        match spec_parse_op_rest(s, input.at(), lvl as int) {
                            Some(rj) => {
                                assert(views_of(args_prev) + (seq![e2v] + rj.0) =~= views_of(
                                    args@,
                                ) + rj.0);
                            },
                            None => {},
                        }
                    }
                },
            }
        } else {
            done = true;
            proof {
                assert(views_of(args@) + Seq::<SpecExpr>::empty() =~= views_of(args@));
            }
        }
    }
    let ghost av = views_of(args@);
    if args.len() == 1 {
        proof {
            lemma_views_of(args@);
        }
        let e = args.remove(0);
        proof {
            assert(av[0] == view_of(e));
        }
        Ok(e)
    } else {
        proof {
            lemma_views_of(args@);
        }
        if lvl == 0 {
            Ok(Expr::Or(args))
        } else if lvl == 1 {
            Ok(Expr::And(args))
        } else {
            Ok(Expr::Then(args))
        }
    }
}

/// Juxtaposition of `THEN`-level expressions becomes a conjunction.
#[verifier::loop_isolation(false)]
pub fn parse_implicit_and(input: &mut Input) -> (r: Result<Expr, ()>)
    requires
        old(input).wf(),
    ensures
        final(input).wf(),
        final(input).chars() == old(input).chars(),
        match r {
            Ok(e) => spec_parse_implicit(old(input).chars(), old(input).at()) == Some(
                (e@, final(input).at()),
            ) && final(input).at() > old(input).at(),
            Err(_) => spec_parse_implicit(old(input).chars(), old(input).at()) is None,
        },
    decreases input.chars().len() - input.at(), 8int,
{
    let ghost s = old(input).chars();
    let ghost i0 = old(input).at();
    let ghost full = spec_parse_implicit(s, i0);
    let first = match parse_operator(input, 2) {
        Ok(e) => e,
        Err(_) => {
            return Err(());
        },
    };
    let mut args: Vec<Expr> = Vec::new();
    args.push(first);
    proof {
        lemma_views_of(args@);
        assert(views_of(args@) =~= seq![view_of(args@[0])]);
        match spec_parse_implicit_rest(s, input.at()) {
            Some(rj) => {
                assert(seq![view_of(args@[0])] + rj.0 =~= views_of(args@) + rj.0);
            },
            None => {},
        }
    }
    let mut done = false;
    while !done
        invariant
            input.wf(),
            input.chars() == s,
            args@.len() >= 1,
            i0 < input.at() <= s.len(),
            !done ==> (match spec_parse_implicit_rest(s, input.at()) {
                Some(rj) => full == Some((wrap_junction(views_of(args@) + rj.0, 1), rj.1)),
                None => full is None,
            }),
            done ==> full == Some((wrap_junction(views_of(args@), 1), input.at())),
        decreases s.len() - input.at() + (if done {
            0int
        } else {
            1int
        }),
    {
        let ghost p = input.at();
        input.skip_whitespace();
        proof {
            lemma_ws_end(s, p);
        }
        let more = input.has_remaining() && !at_keyword(input, 0) && !at_keyword(input, 1)
            && !at_keyword(input, 2) && (match input.peek() {
            Some(c) => c != ')',
            None => false,
        });
        if more {
            match parse_operator(input, 2) {
                Err(_) => {
                    return Err(());
                },
                Ok(e2) => {
                    let ghost args_prev = args@;
                    let ghost e2v = e2@;
                    args.push(e2);
                    proof {
                        assert(args@.drop_last() =~= args_prev);
                        assert(views_of(args@) == views_of(args_prev).push(view_of(
                            args@.last(),
                        )));
                        match spec_parse_implicit_rest(s, input.at()) {
                            Some(rj) => {
                                assert(views_of(args_prev) + (seq![e2v] + rj.0) =~= views_of(
                                    args@,
                                ) + rj.0);
                            },
                            None => {},
                        }
                    }
                },
            }
        } else {
            done = true;
            proof {
                assert(views_of(args@) + Seq::<SpecExpr>::empty() =~= views_of(args@));
            }
        }
    }
    let ghost av = views_of(args@);
    if args.len() == 1 {
        proof {
            lemma_views_of(args@);
        }
        let e = args.remove(0);
        proof {
            assert(av[0] == view_of(e));
        }
        Ok(e)
    } else {
        proof {
            lemma_views_of(args@);
        }
        Ok(Expr::And(args))
    }
}

pub fn parse_expr(input: &mut Input) -> (r: Result<Expr, ()>)
    requires
        old(input).wf(),
    ensures
        final(input).wf(),
        final(input).chars() == old(input).chars(),
        match r {
            Ok(e) => spec_parse_expr(old(input).chars(), old(input).at()) == Some(
                (e@, final(input).at()),
            ) && final(input).at() > old(input).at(),
            Err(_) => spec_parse_expr(old(input).chars(), old(input).at()) is None,
        },
    decreases input.chars().len() - input.at(), 9int,
{
    parse_implicit_and(input)
}

/// Parse a whole query string; empty input is the deliberate `False`.
pub fn parse(input: &str) -> (r: Result<Expr, ()>)
    ensures
        match r {
            Ok(e) => spec_parse(input@) == Some(e@),
            Err(_) => spec_parse(input@) is None,
        },
{
    let chars = str_to_chars(input);
    let mut inp = Input::new(chars);
    inp.skip_whitespace();
    proof {
        lemma_ws_end(input@, 0);
    }
    if inp.has_remaining() {
        match parse_expr(&mut inp) {
            Ok(e) => {
                if inp.has_remaining() {
                    Err(())
                } else {
                    Ok(e)
                }
            },
            Err(_) => Err(()),
        }
    } else {
        Ok(Expr::False)
    }
}

} // verus!
