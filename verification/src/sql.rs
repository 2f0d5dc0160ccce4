use vstd::prelude::*;
use vstd::string::StringExecFns;
use vstd::string::StrSliceExecFns;

use crate::parser::push_string_char;
use crate::expr::Expr;
use crate::expr::SpecExpr;
use crate::QueryError;
use crate::SpecQueryError;

verus! {

/// One piece of generated SQL: literal text, or a numbered parameter
/// reference rendered as `$k`.
pub enum Frag {
    Lit(Seq<char>),
    Param(nat),
}

/// A calendar date as plain values.
#[derive(Debug, PartialEq, Eq, Structural, Clone, Copy)]
pub struct Date {
    pub year: i32,
    pub month: u8,
    pub day: u8,
}

/// A wall-clock time as plain values.
#[derive(Debug, PartialEq, Eq, Structural, Clone, Copy)]
pub struct Time {
    pub hour: u8,
    pub minute: u8,
    pub second: u8,
    pub nanosecond: u32,
}

/// A date and time without a zone.
#[derive(Debug, PartialEq, Eq, Structural, Clone, Copy)]
pub struct Stamp {
    pub date: Date,
    pub time: Time,
}

/// A typed value bound to a `$k` parameter.
#[derive(Debug)]
pub enum BindValue {
    Str(String),
    Int(i32),
    Day(Date),
    Clock(Time),
    Moment(Stamp),
    StrList(Vec<String>),
}

/// Ghost mirror of `BindValue`.
pub enum SpecBind {
    Str(Seq<char>),
    Int(int),
    Day(Date),
    Clock(Time),
    Moment(Stamp),
    StrList(Seq<Seq<char>>),
}

impl View for BindValue {
    type V = SpecBind;

    open spec fn view(&self) -> SpecBind {
        match self {
            BindValue::Str(s) => SpecBind::Str(s@),
            BindValue::Int(i) => SpecBind::Int(*i as int),
            BindValue::Day(d) => SpecBind::Day(*d),
            BindValue::Clock(t) => SpecBind::Clock(*t),
            BindValue::Moment(m) => SpecBind::Moment(*m),
            BindValue::StrList(l) => SpecBind::StrList(l.deep_view()),
        }
    }
}

pub open spec fn binds_of(s: Seq<BindValue>) -> Seq<SpecBind>
    decreases s,
{
    if s.len() == 0 {
        Seq::empty()
    } else {
        binds_of(s.drop_last()).push(s.last()@)
    }
}

pub broadcast proof fn lemma_binds_of(s: Seq<BindValue>)
    ensures
        (#[trigger] binds_of(s)).len() == s.len(),
        forall|i: int| 0 <= i < s.len() ==> binds_of(s)[i] == s[i]@,
    decreases s,
{
    if s.len() > 0 {
        lemma_binds_of(s.drop_last());
    }
}

/// The decimal digits of `n`, most significant first.
pub open spec fn dec_digits(n: nat) -> Seq<char>
    decreases n,
{
    if n < 10 {
        seq![digit_char(n)]
    } else {
        dec_digits(n / 10).push(digit_char(n % 10))
    }
}

pub open spec fn digit_char(n: nat) -> char {
    if n == 0 {
        '0'
    } else if n == 1 {
        '1'
    } else if n == 2 {
        '2'
    } else if n == 3 {
        '3'
    } else if n == 4 {
        '4'
    } else if n == 5 {
        '5'
    } else if n == 6 {
        '6'
    } else if n == 7 {
        '7'
    } else if n == 8 {
        '8'
    } else {
        '9'
    }
}

fn digit_char_exec(n: usize) -> (r: char)
    requires
        n < 10,
    ensures
        r == digit_char(n as nat),
{
    if n == 0 {
        '0'
    } else if n == 1 {
        '1'
    } else if n == 2 {
        '2'
    } else if n == 3 {
        '3'
    } else if n == 4 {
        '4'
    } else if n == 5 {
        '5'
    } else if n == 6 {
        '6'
    } else if n == 7 {
        '7'
    } else if n == 8 {
        '8'
    } else {
        '9'
    }
}

/// Render a number in decimal.
pub fn usize_to_string(n: usize) -> (r: String)
    ensures
        r@ == dec_digits(n as nat),
    decreases n,
{
    if n < 10 {
        let mut s = String::new();
        push_string_char(&mut s, digit_char_exec(n));
        proof {
            assert(s@ =~= seq![digit_char(n as nat)]);
        }
        s
    } else {
        let mut s = usize_to_string(n / 10);
        push_string_char(&mut s, digit_char_exec(n % 10));
        s
    }
}

/// The text that a fragment sequence renders to.
pub open spec fn frags_text(fs: Seq<Frag>) -> Seq<char>
    decreases fs,
{
    if fs.len() == 0 {
        Seq::empty()
    } else {
        frags_text(fs.drop_last()) + (match fs.last() {
            Frag::Lit(t) => t,
            Frag::Param(k) => seq!['$'] + dec_digits(k),
        })
    }
}

pub proof fn lemma_frags_text_concat(a: Seq<Frag>, b: Seq<Frag>)
    ensures
        frags_text(a + b) == frags_text(a) + frags_text(b),
    decreases b,
{
    if b.len() == 0 {
        assert(a + b =~= a);
        assert(frags_text(a) + frags_text(b) =~= frags_text(a));
    } else {
        lemma_frags_text_concat(a, b.drop_last());
        assert((a + b).drop_last() =~= a + b.drop_last());
        assert(frags_text(a + b) =~= frags_text(a) + frags_text(b));
    }
}

/// Every parameter reference in the fragments points at an existing binding:
/// `$k` with `1 <= k <= n`.
pub open spec fn params_bounded(fs: Seq<Frag>, n: nat) -> bool {
    forall|i: int|
        0 <= i < fs.len() && fs[i] is Param ==> 1 <= (#[trigger] fs[i])->Param_0 <= n
}

/// The ordered list of typed values referenced positionally from the SQL.
#[derive(Debug)]
pub struct Bindings {
    pub vals: Vec<BindValue>,
}

impl View for Bindings {
    type V = Seq<SpecBind>;

    open spec fn view(&self) -> Seq<SpecBind> {
        binds_of(self.vals@)
    }
}

impl Bindings {
    pub fn new() -> (r: Bindings)
        ensures
            r@ == Seq::<SpecBind>::empty(),
    {
        proof {
            lemma_binds_of(Seq::<BindValue>::empty());
        }
        let b = Bindings { vals: Vec::new() };
        proof {
            assert(b@ =~= Seq::<SpecBind>::empty());
        }
        b
    }

    pub fn len(&self) -> (r: usize)
        ensures
            r == self@.len(),
    {
        proof {
            lemma_binds_of(self.vals@);
        }
        self.vals.len()
    }
}

/// An append-only SQL text buffer.  The ghost fragment list records, piece by
/// piece, what was appended; the text is always its rendering, and every
/// parameter it references is bounded by the bindings the caller holds.
pub struct QueryBuilder {
    pub sql: String,
    pub frags: Ghost<Seq<Frag>>,
}

impl QueryBuilder {
    pub open spec fn wf(&self) -> bool {
        self.sql@ == frags_text(self.frags@)
    }

    pub open spec fn view(&self) -> Seq<Frag> {
        self.frags@
    }

    pub fn new() -> (r: QueryBuilder)
        ensures
            r.wf(),
            r@ == Seq::<Frag>::empty(),
    {
        let b = QueryBuilder { sql: String::new(), frags: Ghost(Seq::empty()) };
        proof {
            assert(frags_text(b.frags@) =~= Seq::<char>::empty());
        }
        b
    }

    /// Take the accumulated text.
    pub fn into_sql(self) -> (r: String)
        ensures
            r@ == self.sql@,
    {
        self.sql
    }

    /// Append raw SQL text.
    pub fn sql(&mut self, text: &str)
        requires
            old(self).wf(),
        ensures
            final(self).wf(),
            final(self)@ == old(self)@.push(Frag::Lit(text@)),
            forall|n: nat| params_bounded(old(self)@, n) ==> params_bounded(final(self)@, n),
    {
        let ghost fs0 = self.frags@;
        self.sql.append(text);
        proof {
            self.frags@ = fs0.push(Frag::Lit(text@));
            assert(self.frags@.drop_last() =~= fs0);
            assert forall|n: nat| params_bounded(fs0, n) implies params_bounded(
                self.frags@,
                n,
            ) by {
                assert(forall|i: int| 0 <= i < fs0.len() ==> self.frags@[i] == fs0[i]);
            }
        }
    }

    /// Append another builder's text.
    pub fn append(&mut self, other: &QueryBuilder)
        requires
            old(self).wf(),
            other.wf(),
        ensures
            final(self).wf(),
            final(self)@ == old(self)@ + other@,
            forall|n: nat|
                params_bounded(old(self)@, n) && params_bounded(other@, n)
                    ==> params_bounded(final(self)@, n),
    {
        let ghost fs0 = self.frags@;
        self.sql.append(other.sql.as_str());
        proof {
            self.frags@ = fs0 + other.frags@;
            lemma_frags_text_concat(fs0, other.frags@);
            assert forall|n: nat|
                params_bounded(fs0, n) && params_bounded(other.frags@, n) implies params_bounded(
                self.frags@,
                n,
            ) by {
                assert(forall|i: int| 0 <= i < fs0.len() ==> self.frags@[i] == fs0[i]);
                assert(forall|i: int|
                    0 <= i < other.frags@.len() ==> self.frags@[fs0.len() + i]
                        == other.frags@[i]);
                assert forall|i: int|
                    0 <= i < self.frags@.len() && self.frags@[i] is Param implies 1 <= (
                self.frags@[i])->Param_0 <= n by {
                    if i >= fs0.len() {
                        assert(self.frags@[i] == other.frags@[i - fs0.len()]);
                    }
                }
            }
        }
    }

    /// Add a binding without emitting text; the new parameter number is
    /// returned so the caller can reference it, even more than once.
    pub fn binding_id(&mut self, bindings: &mut Bindings, val: BindValue) -> (id: usize)
        requires
            old(self).wf(),
        ensures
            final(self).wf(),
            final(self)@ == old(self)@,
            final(bindings)@ == old(bindings)@.push(val@),
            id == old(bindings)@.len() + 1,
    {
        proof {
            lemma_binds_of(bindings.vals@);
        }
        let ghost v0 = bindings.vals@;
        bindings.vals.push(val);
        proof {
            assert(bindings.vals@.drop_last() =~= v0);
            lemma_binds_of(bindings.vals@);
            assert(bindings@ =~= old(bindings)@.push(bindings.vals@.last()@));
        }
        bindings.vals.len()
    }

    /// Emit a `$k` reference to an existing binding.
    pub fn param_ref(&mut self, bindings: &Bindings, id: usize)
        requires
            old(self).wf(),
            1 <= id <= bindings@.len(),
        ensures
            final(self).wf(),
            final(self)@ == old(self)@.push(Frag::Param(id as nat)),
            forall|n: nat|
                params_bounded(old(self)@, n) && id <= n ==> params_bounded(final(self)@, n),
    {
        let ghost fs0 = self.frags@;
        let digits = usize_to_string(id);
        push_string_char(&mut self.sql, '$');
        self.sql.append(digits.as_str());
        proof {
            self.frags@ = fs0.push(Frag::Param(id as nat));
            assert(self.frags@.drop_last() =~= fs0);
            assert(self.sql@ =~= frags_text(fs0) + (seq!['$'] + dec_digits(id as nat)));
            assert forall|n: nat|
                params_bounded(fs0, n) && id <= n implies params_bounded(self.frags@, n) by {
                assert(forall|i: int| 0 <= i < fs0.len() ==> self.frags@[i] == fs0[i]);
            }
        }
    }

    /// Add a binding and emit its `$k` reference.
    pub fn binding(&mut self, bindings: &mut Bindings, val: BindValue)
        requires
            old(self).wf(),
        ensures
            final(self).wf(),
            final(self)@ == old(self)@.push(
                Frag::Param((old(bindings)@.len() + 1) as nat),
            ),
            final(bindings)@ == old(bindings)@.push(val@),
            forall|n: nat|
                params_bounded(old(self)@, n) && old(bindings)@.len() + 1 <= n
                    ==> params_bounded(final(self)@, n),
    {
        let id = self.binding_id(bindings, val);
        self.param_ref(bindings, id);
    }
}

/// What chrono reads out of an ISO-8601 calendar date, as a function of the
/// characters alone; `None` when the text is not a valid date.
pub uninterp spec fn chrono_date_of(s: Seq<char>) -> Option<(i32, u8, u8)>;

/// Relies on chrono::NaiveDate's `FromStr`: parses an ISO-8601 date
/// (`YYYY-MM-DD`); the result depends on the characters alone.
#[verifier::external_body]
fn parse_chrono_date(s: &str) -> (r: Option<(i32, u8, u8)>)
    ensures
        r == chrono_date_of(s@),
{
    match s.parse::<chrono::NaiveDate>() {
        Ok(d) => Some(
            (
                chrono::Datelike::year(&d),
                chrono::Datelike::month(&d) as u8,
                chrono::Datelike::day(&d) as u8,
            ),
        ),
        Err(_) => None,
    }
}

/// What chrono reads out of a wall-clock time (`HH:MM[:SS[.frac]]`), as a
/// function of the characters alone.
pub uninterp spec fn chrono_time_of(s: Seq<char>) -> Option<(u8, u8, u8, u32)>;

/// Relies on chrono::NaiveTime's `FromStr`: parses a wall-clock time; the
/// result depends on the characters alone.
#[verifier::external_body]
fn parse_chrono_time(s: &str) -> (r: Option<(u8, u8, u8, u32)>)
    ensures
        r == chrono_time_of(s@),
{
    match s.parse::<chrono::NaiveTime>() {
        Ok(t) => Some(
            (
                chrono::Timelike::hour(&t) as u8,
                chrono::Timelike::minute(&t) as u8,
                chrono::Timelike::second(&t) as u8,
                chrono::Timelike::nanosecond(&t),
            ),
        ),
        Err(_) => None,
    }
}

/// What chrono reads out of `YYYY-MM-DD HH:MM:SS`, as a function of the
/// characters alone.
pub uninterp spec fn chrono_datetime_of(s: Seq<char>) -> Option<(i32, u8, u8, u8, u8, u8)>;

/// Relies on chrono::NaiveDateTime::parse_from_str with the format
/// `%Y-%m-%d %H:%M:%S`; the result depends on the characters alone.
#[verifier::external_body]
fn parse_chrono_datetime(s: &str) -> (r: Option<(i32, u8, u8, u8, u8, u8)>)
    ensures
        r == chrono_datetime_of(s@),
{
    match chrono::NaiveDateTime::parse_from_str(s, "%Y-%m-%d %H:%M:%S") {
        Ok(dt) => Some(
            (
                chrono::Datelike::year(&dt),
                chrono::Datelike::month(&dt) as u8,
                chrono::Datelike::day(&dt) as u8,
                chrono::Timelike::hour(&dt) as u8,
                chrono::Timelike::minute(&dt) as u8,
                chrono::Timelike::second(&dt) as u8,
            ),
        ),
        Err(_) => None,
    }
}

/// Decimal digit?
pub open spec fn spec_is_digit(c: char) -> bool {
    '0' <= c && c <= '9'
}

pub open spec fn digit_val(c: char) -> int {
    (c as u32) - 48
}

/// The value of a digit string, most significant first.
pub open spec fn digits_val(s: Seq<char>) -> int
    decreases s,
{
    if s.len() == 0 {
        0
    } else {
        digits_val(s.drop_last()) * 10 + digit_val(s.last())
    }
}

pub open spec fn all_digits(s: Seq<char>) -> bool {
    forall|i: int| 0 <= i < s.len() ==> spec_is_digit(#[trigger] s[i])
}

/// A signed 32-bit integer literal: an optional `+` or `-` sign, then one or
/// more decimal digits, with the value in range.
pub open spec fn spec_parse_i32(s: Seq<char>) -> Option<i32> {
    let ds = if s.len() > 0 && (s[0] == '+' || s[0] == '-') {
        s.drop_first()
    } else {
        s
    };
    let neg = s.len() > 0 && s[0] == '-';
    if ds.len() == 0 || !all_digits(ds) {
        None
    } else {
        let v = if neg {
            -digits_val(ds)
        } else {
            digits_val(ds)
        };
        if -2147483648 <= v <= 2147483647 {
            Some(v as i32)
        } else {
            None
        }
    }
}

proof fn lemma_digits_val_nonneg(s: Seq<char>)
    requires
        all_digits(s),
    ensures
        digits_val(s) >= 0,
    decreases s,
{
    if s.len() > 0 {
        assert(forall|i: int| 0 <= i < s.len() - 1 ==> s.drop_last()[i] == s[i]);
        lemma_digits_val_nonneg(s.drop_last());
    }
}

proof fn lemma_digits_val_grows(s: Seq<char>, i: int)
    requires
        all_digits(s),
        0 <= i <= s.len(),
    ensures
        digits_val(s.take(i)) <= digits_val(s),
    decreases s.len() - i,
{
    assert(forall|k: int| 0 <= k < s.len() ==> s.take(s.len() as int)[k] == s[k]);
    if i < s.len() {
        lemma_digits_val_grows(s, i + 1);
        assert(s.take(i + 1).drop_last() =~= s.take(i));
        assert(forall|k: int| 0 <= k < i + 1 ==> s.take(i + 1)[k] == s[k]);
        lemma_digits_val_nonneg(s.take(i + 1));
        assert(digits_val(s.take(i)) * 10 + digit_val(s[i]) >= digits_val(s.take(i)))
            by {
            lemma_digits_val_nonneg(s.take(i));
        }
    } else {
        assert(s.take(i) =~= s);
    }
}

/// Parse a signed decimal 32-bit integer, exactly as the spec says.
#[verifier::loop_isolation(false)]
pub fn parse_i32(s: &str) -> (r: Option<i32>)
    ensures
        r == spec_parse_i32(s@),
{
    let n = s.unicode_len();
    let mut idx: usize = 0;
    let mut neg = false;
    if n > 0 {
        let c0 = s.get_char(0);
        if c0 == '+' || c0 == '-' {
            idx = 1;
            neg = c0 == '-';
        }
    }
    let ghost ds = if s@.len() > 0 && (s@[0] == '+' || s@[0] == '-') {
        s@.drop_first()
    } else {
        s@
    };
    proof {
        assert(ds =~= s@.skip(idx as int));
    }
    if idx >= n {
        return None;
    }
    let mut acc: u64 = 0;
    let mut i: usize = idx;
    while i < n
        invariant
            idx <= i <= n,
            n == s@.len(),
            idx <= 1,
            ds == s@.skip(idx as int),
            all_digits(ds.take((i - idx) as int)),
            acc == digits_val(ds.take((i - idx) as int)),
            acc <= 2147483648,
        decreases n - i,
    {
        let c = s.get_char(i);
        if !(c >= '0' && c <= '9') {
            proof {
                assert(ds[(i - idx) as int] == s@[i as int]);
                assert(!all_digits(ds));
            }
            return None;
        }
        let d: u64 = (c as u32 as u64) - 48;
        proof {
            assert(ds.take((i + 1 - idx) as int).drop_last() =~= ds.take((i - idx) as int));
            assert(ds.take((i + 1 - idx) as int).last() == ds[(i - idx) as int]);
            assert(ds[(i - idx) as int] == s@[i as int]);
        }
        let next: u64 = acc * 10 + d;
        if next > 2147483648 {
            proof {
                assert(all_digits(ds.take((i + 1 - idx) as int)));
                if all_digits(ds) {
                    lemma_digits_val_grows(ds, (i + 1 - idx) as int);
                    assert(ds.take(ds.len() as int) =~= ds);
                    assert(digits_val(ds) >= next);
                }
            }
            return None;
        }
        acc = next;
        i += 1;
    }
    proof {
        assert(ds.take((n - idx) as int) =~= ds);
    }
    if neg {
        let v: i64 = -(acc as i64);
        Some(v as i32)
    } else {
        if acc > 2147483647 {
            return None;
        }
        Some(acc as i32)
    }
}

/// `%`, `_` and `\` prefixed with the default LIKE escape character `\`,
/// so that the argument is matched literally inside a LIKE pattern.
pub open spec fn escape_like(s: Seq<char>) -> Seq<char>
    decreases s,
{
    if s.len() == 0 {
        Seq::empty()
    } else {
        escape_like(s.drop_last()) + (if s.last() == '%' {
            seq!['\\', '%']
        } else if s.last() == '_' {
            seq!['\\', '_']
        } else if s.last() == '\\' {
            seq!['\\', '\\']
        } else {
            seq![s.last()]
        })
    }
}

#[verifier::loop_isolation(false)]
fn escape_like_exec(s: &str) -> (r: String)
    ensures
        r@ == escape_like(s@),
{
    let n = s.unicode_len();
    let mut out = String::new();
    proof {
        assert(out@ =~= escape_like(s@.take(0)));
    }
    let mut i: usize = 0;
    while i < n
        invariant
            0 <= i <= n,
            n == s@.len(),
            out@ == escape_like(s@.take(i as int)),
        decreases n - i,
    {
        let ghost out_prev = out@;
        let c = s.get_char(i);
        proof {
            assert(s@.take(i + 1 as int).drop_last() =~= s@.take(i as int));
            assert(s@.take(i + 1 as int).last() == s@[i as int]);
        }
        if c == '%' {
            push_string_char(&mut out, '\\');
            push_string_char(&mut out, '%');
            proof {
                assert(out@ =~= out_prev + seq!['\\', '%']);
            }
        } else if c == '_' {
            push_string_char(&mut out, '\\');
            push_string_char(&mut out, '_');
            proof {
                assert(out@ =~= out_prev + seq!['\\', '_']);
            }
        } else if c == '\\' {
            push_string_char(&mut out, '\\');
            push_string_char(&mut out, '\\');
            proof {
                assert(out@ =~= out_prev + seq!['\\', '\\']);
            }
        } else {
            push_string_char(&mut out, c);
            proof {
                assert(out@ =~= out_prev + seq![c]);
            }
        }
        i += 1;
    }
    proof {
        assert(s@.take(n as int) =~= s@);
    }
    out
}

/// ASCII lower-casing of a single character.
pub open spec fn ascii_lower(c: char) -> char {
    if c == 'A' {
        'a'
    } else if c == 'B' {
        'b'
    } else if c == 'C' {
        'c'
    } else if c == 'D' {
        'd'
    } else if c == 'E' {
        'e'
    } else if c == 'F' {
        'f'
    } else if c == 'G' {
        'g'
    } else if c == 'H' {
        'h'
    } else if c == 'I' {
        'i'
    } else if c == 'J' {
        'j'
    } else if c == 'K' {
        'k'
    } else if c == 'L' {
        'l'
    } else if c == 'M' {
        'm'
    } else if c == 'N' {
        'n'
    } else if c == 'O' {
        'o'
    } else if c == 'P' {
        'p'
    } else if c == 'Q' {
        'q'
    } else if c == 'R' {
        'r'
    } else if c == 'S' {
        's'
    } else if c == 'T' {
        't'
    } else if c == 'U' {
        'u'
    } else if c == 'V' {
        'v'
    } else if c == 'W' {
        'w'
    } else if c == 'X' {
        'x'
    } else if c == 'Y' {
        'y'
    } else if c == 'Z' {
        'z'
    } else {
        c
    }
}

fn ascii_lower_exec(c: char) -> (r: char)
    ensures
        r == ascii_lower(c),
{
    match c {
        'A' => 'a',
        'B' => 'b',
        'C' => 'c',
        'D' => 'd',
        'E' => 'e',
        'F' => 'f',
        'G' => 'g',
        'H' => 'h',
        'I' => 'i',
        'J' => 'j',
        'K' => 'k',
        'L' => 'l',
        'M' => 'm',
        'N' => 'n',
        'O' => 'o',
        'P' => 'p',
        'Q' => 'q',
        'R' => 'r',
        'S' => 's',
        'T' => 't',
        'U' => 'u',
        'V' => 'v',
        'W' => 'w',
        'X' => 'x',
        'Y' => 'y',
        'Z' => 'z',
        other => other,
    }
}

/// Lookup of predicate names is case-insensitive on ASCII letters.
pub open spec fn lower_seq(s: Seq<char>) -> Seq<char> {
    s.map_values(|c: char| ascii_lower(c))
}

#[verifier::loop_isolation(false)]
fn ascii_lower_str(s: &str) -> (r: String)
    ensures
        r@ == lower_seq(s@),
{
    let n = s.unicode_len();
    let mut out = String::new();
    let mut i: usize = 0;
    while i < n
        invariant
            0 <= i <= n,
            n == s@.len(),
            out@.len() == i,
            forall|k: int| 0 <= k < i ==> out@[k] == ascii_lower(s@[k]),
        decreases n - i,
    {
        let c = s.get_char(i);
        push_string_char(&mut out, ascii_lower_exec(c));
        i += 1;
    }
    proof {
        assert(out@ =~= lower_seq(s@));
    }
    out
}

/// The comparator prefixes accepted by `date`, `time`, `datetime` and
/// `length`, tried in this order.
pub open spec fn oper_text(k: int) -> Seq<char> {
    if k == 0 {
        "!="@
    } else if k == 1 {
        ">="@
    } else if k == 2 {
        "<="@
    } else if k == 3 {
        "="@
    } else if k == 4 {
        "<"@
    } else {
        ">"@
    }
}

pub open spec fn oper_len(k: int) -> int {
    if k <= 2 {
        2
    } else {
        1
    }
}

pub open spec fn oper_index(s: Seq<char>) -> Option<int> {
    if s.len() >= 2 && s[0] == '!' && s[1] == '=' {
        Some(0int)
    } else if s.len() >= 2 && s[0] == '>' && s[1] == '=' {
        Some(1int)
    } else if s.len() >= 2 && s[0] == '<' && s[1] == '=' {
        Some(2int)
    } else if s.len() >= 1 && s[0] == '=' {
        Some(3int)
    } else if s.len() >= 1 && s[0] == '<' {
        Some(4int)
    } else if s.len() >= 1 && s[0] == '>' {
        Some(5int)
    } else {
        None
    }
}

fn find_oper(s: &str) -> (r: Option<u8>)
    ensures
        match r {
            Some(k) => oper_index(s@) == Some(k as int) && k <= 5 && oper_len(k as int)
                <= s@.len(),
            None => oper_index(s@) is None,
        },
{
    let n = s.unicode_len();
    if n >= 2 {
        let c0 = s.get_char(0);
        let c1 = s.get_char(1);
        if c0 == '!' && c1 == '=' {
            return Some(0);
        }
        if c0 == '>' && c1 == '=' {
            return Some(1);
        }
        if c0 == '<' && c1 == '=' {
            return Some(2);
        }
    }
    if n >= 1 {
        let c0 = s.get_char(0);
        if c0 == '=' {
            return Some(3);
        }
        if c0 == '<' {
            return Some(4);
        }
        if c0 == '>' {
            return Some(5);
        }
    }
    None
}

fn oper_str(k: u8) -> (r: &'static str)
    requires
        k <= 5,
    ensures
        r@ == oper_text(k as int),
{
    if k == 0 {
        "!="
    } else if k == 1 {
        ">="
    } else if k == 2 {
        "<="
    } else if k == 3 {
        "="
    } else if k == 4 {
        "<"
    } else {
        ">"
    }
}

/// What each catalog predicate appends: a fragment list and a binding list,
/// as a function of the (case-folded) name, the argument, and the number of
/// bindings already taken.
pub open spec fn spec_func_sql(name: Seq<char>, value: Seq<char>, n0: nat) -> Result<
    (Seq<Frag>, Seq<SpecBind>),
    SpecQueryError,
> {
    let lk = lower_seq(name);
    let id = n0 + 1;
    if lk == "author"@ {
        Ok(
            (
                seq![
                    Frag::Lit("msg_author = "@),
                    Frag::Param(id),
                    Frag::Lit(
                        " OR msg_author = (SELECT coalesce((SELECT alias_primary FROM aliases WHERE alias_secondary = "@,
                    ),
                    Frag::Param(id),
                    Frag::Lit("), "@),
                    Frag::Param(id),
                    Frag::Lit(
                        ")) OR msg_author IN (SELECT alias_secondary FROM aliases WHERE alias_primary = (SELECT coalesce((SELECT alias_primary FROM aliases WHERE alias_secondary = "@,
                    ),
                    Frag::Param(id),
                    Frag::Lit("), "@),
                    Frag::Param(id),
                    Frag::Lit(")))"@),
                ],
                seq![SpecBind::Str(value)],
            ),
        )
    } else if lk == "raw"@ {
        Ok(
            (
                seq![Frag::Lit("msg_author = "@), Frag::Param(id)],
                seq![SpecBind::Str(value)],
            ),
        )
    } else if lk == "channel"@ {
        Ok(
            (
                seq![Frag::Lit("msg_channel = "@), Frag::Param(id)],
                seq![SpecBind::Str(value)],
            ),
        )
    } else if lk == "contains"@ {
        Ok(
            (
                seq![Frag::Lit("msg_body LIKE "@), Frag::Param(id)],
                seq![SpecBind::Str(seq!['%'] + escape_like(value) + seq!['%'])],
            ),
        )
    } else if lk == "icontains"@ {
        Ok(
            (
                seq![Frag::Lit("msg_body ILIKE "@), Frag::Param(id)],
                seq![SpecBind::Str(seq!['%'] + escape_like(value) + seq!['%'])],
            ),
        )
    } else if lk == "like"@ {
        Ok(
            (
                seq![Frag::Lit("msg_body LIKE "@), Frag::Param(id)],
                seq![SpecBind::Str(value)],
            ),
        )
    } else if lk == "ilike"@ {
        Ok(
            (
                seq![Frag::Lit("msg_body ILIKE "@), Frag::Param(id)],
                seq![SpecBind::Str(value)],
            ),
        )
    } else if lk == "regex"@ {
        Ok(
            (seq![Frag::Lit("msg_body ~ "@), Frag::Param(id)], seq![SpecBind::Str(value)]),
        )
    } else if lk == "iregex"@ {
        Ok(
            (
                seq![Frag::Lit("msg_body ~* "@), Frag::Param(id)],
                seq![SpecBind::Str(value)],
            ),
        )
    } else if lk == "similarto"@ {
        Ok(
            (
                seq![Frag::Lit("msg_body SIMILAR TO "@), Frag::Param(id)],
                seq![SpecBind::Str(value)],
            ),
        )
    } else if lk == "date"@ {
        let rest = match oper_index(value) {
            Some(k) => value.skip(oper_len(k)),
            None => value,
        };
        match chrono_date_of(rest) {
            None => Err(SpecQueryError::InvalidDate),
            Some(d) => {
                let bind = SpecBind::Day(Date { year: d.0, month: d.1, day: d.2 });
                match oper_index(value) {
                    Some(k) => Ok(
                        (
                            seq![
                                Frag::Lit("msg_timestamp::date "@),
                                Frag::Lit(oper_text(k)),
                                Frag::Param(id),
                            ],
                            seq![bind],
                        ),
                    ),
                    None => Ok(
                        (
                            seq![Frag::Lit("msg_timestamp::date ="@), Frag::Param(id)],
                            seq![bind],
                        ),
                    ),
                }
            },
        }
    } else if lk == "time"@ {
        let rest = match oper_index(value) {
            Some(k) => value.skip(oper_len(k)),
            None => value,
        };
        match chrono_time_of(rest) {
            None => Err(SpecQueryError::InvalidTime),
            Some(t) => {
                let bind = SpecBind::Clock(
                    Time { hour: t.0, minute: t.1, second: t.2, nanosecond: t.3 },
                );
                match oper_index(value) {
                    Some(k) => Ok(
                        (
                            seq![
                                Frag::Lit("msg_timestamp::time "@),
                                Frag::Lit(oper_text(k)),
                                Frag::Param(id),
                            ],
                            seq![bind],
                        ),
                    ),
                    None => Ok(
                        (
                            seq![Frag::Lit("msg_timestamp::time ="@), Frag::Param(id)],
                            seq![bind],
                        ),
                    ),
                }
            },
        }
    } else if lk == "datetime"@ {
        let rest = match oper_index(value) {
            Some(k) => value.skip(oper_len(k)),
            None => value,
        };
        match chrono_datetime_of(rest) {
            None => Err(SpecQueryError::InvalidDatetime),
            Some(dt) => {
                let bind = SpecBind::Moment(
                    Stamp {
                        date: Date { year: dt.0, month: dt.1, day: dt.2 },
                        time: Time { hour: dt.3, minute: dt.4, second: dt.5, nanosecond: 0 },
                    },
                );
                match oper_index(value) {
                    Some(k) => Ok(
                        (
                            seq![
                                Frag::Lit("msg_timestamp "@),
                                Frag::Lit(oper_text(k)),
                                Frag::Param(id),
                            ],
                            seq![bind],
                        ),
                    ),
                    None => Ok(
                        (seq![Frag::Lit("msg_timestamp ="@), Frag::Param(id)], seq![bind]),
                    ),
                }
            },
        }
    } else if lk == "length"@ {
        let rest = match oper_index(value) {
            Some(k) => value.skip(oper_len(k)),
            None => value,
        };
        match spec_parse_i32(rest) {
            None => Err(SpecQueryError::InvalidInteger),
            Some(v) => {
                let bind = SpecBind::Int(v as int);
                match oper_index(value) {
                    Some(k) => Ok(
                        (
                            seq![
                                Frag::Lit("char_length(msg_body) "@),
                                Frag::Lit(oper_text(k)),
                                Frag::Param(id),
                            ],
                            seq![bind],
                        ),
                    ),
                    None => Ok(
                        (
                            seq![Frag::Lit("char_length(msg_body) ="@), Frag::Param(id)],
                            seq![bind],
                        ),
                    ),
                }
            },
        }
    } else {
        Err(SpecQueryError::UnknownFunction(name))
    }
}

/// A junction can be split into a phrase side and a predicate side when no
/// single child mixes phrases and predicates.
pub open spec fn spec_can_separate(e: SpecExpr) -> bool {
    match e {
        SpecExpr::And(s) => seq_none_mixed(s),
        SpecExpr::Or(s) => seq_none_mixed(s),
        _ => true,
    }
}

pub open spec fn seq_none_mixed(s: Seq<SpecExpr>) -> bool
    decreases s,
{
    if s.len() == 0 {
        true
    } else {
        seq_none_mixed(s.drop_last()) && !(crate::expr::spec_has_phrases(s.last())
            && crate::expr::spec_has_funcs(s.last()))
    }
}

/// Shallow retention: keep only the children free of predicates (the phrase
/// side) or free of phrases (the predicate side); a kept-out atom becomes
/// `True`.
pub open spec fn retain_children(s: Seq<SpecExpr>, phrase_side: bool) -> Seq<SpecExpr>
    decreases s,
{
    if s.len() == 0 {
        Seq::empty()
    } else {
        let r = retain_children(s.drop_last(), phrase_side);
        let keep = if phrase_side {
            !crate::expr::spec_has_funcs(s.last())
        } else {
            !crate::expr::spec_has_phrases(s.last())
        };
        if keep {
            r.push(s.last())
        } else {
            r
        }
    }
}

pub open spec fn spec_leave(e: SpecExpr, phrase_side: bool) -> SpecExpr {
    match e {
        SpecExpr::And(s) => SpecExpr::And(retain_children(s, phrase_side)),
        SpecExpr::Or(s) => SpecExpr::Or(retain_children(s, phrase_side)),
        _ => {
            let keep = if phrase_side {
                !crate::expr::spec_has_funcs(e)
            } else {
                !crate::expr::spec_has_phrases(e)
            };
            if keep {
                e
            } else {
                SpecExpr::True
            }
        },
    }
}

/// The tsquery expression for the phrase side: each phrase becomes
/// `phraseto_tsquery('russian', $k)`, negation `!!`, adjacency `<->`,
/// conjunction `&&`, disjunction `||`; a constant becomes the empty tsquery.
pub open spec fn spec_tsquery(e: SpecExpr, n0: nat) -> Result<
    (Seq<Frag>, Seq<SpecBind>),
    SpecQueryError,
>
    decreases e, 1int,
{
    match e {
        SpecExpr::Phrase(p) => Ok(
            (
                seq![
                    Frag::Lit("phraseto_tsquery('russian', "@),
                    Frag::Param(n0 + 1),
                    Frag::Lit(")"@),
                ],
                seq![SpecBind::Str(p)],
            ),
        ),
        SpecExpr::Not(inner) => match spec_tsquery(*inner, n0) {
            Err(er) => Err(er),
            Ok(fb) => Ok(
                (seq![Frag::Lit("!! ("@)] + fb.0 + seq![Frag::Lit(")"@)], fb.1),
            ),
        },
        SpecExpr::Then(s) => spec_tsquery_list(s, "<->"@, n0),
        SpecExpr::And(s) => spec_tsquery_list(s, "&&"@, n0),
        SpecExpr::Or(s) => spec_tsquery_list(s, "||"@, n0),
        SpecExpr::Func(_, _) => Err(SpecQueryError::FuncContext),
        _ => Ok((seq![Frag::Lit("phraseto_tsquery('russian', '')"@)], Seq::empty())),
    }
}

pub open spec fn spec_tsquery_list(s: Seq<SpecExpr>, op: Seq<char>, n0: nat) -> Result<
    (Seq<Frag>, Seq<SpecBind>),
    SpecQueryError,
>
    decreases s, 0int,
{
    if s.len() == 0 {
        Ok((Seq::empty(), Seq::empty()))
    } else {
        match spec_tsquery_list(s.drop_last(), op, n0) {
            Err(er) => Err(er),
            Ok(fb1) => match spec_tsquery(s.last(), n0 + fb1.1.len()) {
                Err(er) => Err(er),
                Ok(fb2) => {
                    let sep: Seq<Frag> = if s.len() > 1 {
                        seq![Frag::Lit(" "@), Frag::Lit(op), Frag::Lit(" "@)]
                    } else {
                        Seq::empty()
                    };
                    Ok(
                        (
                            fb1.0 + sep + seq![Frag::Lit("("@)] + fb2.0 + seq![
                                Frag::Lit(")"@),
                            ],
                            fb1.1 + fb2.1,
                        ),
                    )
                },
            },
        }
    }
}

/// The boolean filter for the predicate side: catalog predicates render
/// their fragments, control predicates render `TRUE`, junctions join with
/// `AND`/`OR`, `True`/`Empty` render `TRUE` and `False` renders `FALSE`.
pub open spec fn spec_func_filter(e: SpecExpr, n0: nat) -> Result<
    (Seq<Frag>, Seq<SpecBind>),
    SpecQueryError,
>
    decreases e, 1int,
{
    match e {
        SpecExpr::Func(name, value) => {
            if name == crate::expr::sort_chars() || name == crate::expr::order_chars() || name
                == crate::expr::bots_chars() {
                Ok((seq![Frag::Lit("TRUE"@)], Seq::empty()))
            } else {
                spec_func_sql(name, value, n0)
            }
        },
        SpecExpr::Not(inner) => match spec_func_filter(*inner, n0) {
            Err(er) => Err(er),
            Ok(fb) => Ok(
                (seq![Frag::Lit("NOT ("@)] + fb.0 + seq![Frag::Lit(")"@)], fb.1),
            ),
        },
        SpecExpr::And(s) => spec_func_list(s, "AND"@, n0),
        SpecExpr::Or(s) => spec_func_list(s, "OR"@, n0),
        SpecExpr::Then(_) => Err(SpecQueryError::ThenContext),
        SpecExpr::Phrase(_) => Err(SpecQueryError::PhraseContext),
        SpecExpr::True => Ok((seq![Frag::Lit("TRUE"@)], Seq::empty())),
        SpecExpr::Empty => Ok((seq![Frag::Lit("TRUE"@)], Seq::empty())),
        _ => Ok((seq![Frag::Lit("FALSE"@)], Seq::empty())),
    }
}

pub open spec fn spec_func_list(s: Seq<SpecExpr>, op: Seq<char>, n0: nat) -> Result<
    (Seq<Frag>, Seq<SpecBind>),
    SpecQueryError,
>
    decreases s, 0int,
{
    if s.len() == 0 {
        Ok((Seq::empty(), Seq::empty()))
    } else {
        match spec_func_list(s.drop_last(), op, n0) {
            Err(er) => Err(er),
            Ok(fb1) => match spec_func_filter(s.last(), n0 + fb1.1.len()) {
                Err(er) => Err(er),
                Ok(fb2) => {
                    let sep: Seq<Frag> = if s.len() > 1 {
                        seq![Frag::Lit(" "@), Frag::Lit(op), Frag::Lit(" "@)]
                    } else {
                        Seq::empty()
                    };
                    Ok(
                        (
                            fb1.0 + sep + seq![Frag::Lit("("@)] + fb2.0 + seq![
                                Frag::Lit(")"@),
                            ],
                            fb1.1 + fb2.1,
                        ),
                    )
                },
            },
        }
    }
}

/// The phrase filter wraps the tsquery in a full-text match and records the
/// tsquery for relevance ranking.
pub open spec fn spec_phrase_filter(e: SpecExpr, n0: nat) -> Result<
    (Seq<Frag>, Seq<SpecBind>, Seq<Seq<Frag>>),
    SpecQueryError,
> {
    match spec_tsquery(e, n0) {
        Err(er) => Err(er),
        Ok(fb) => Ok(
            (
                seq![Frag::Lit("to_tsvector('russian', msg_body) @@ ("@)] + fb.0 + seq![
                    Frag::Lit(")"@),
                ],
                fb.1,
                seq![fb.0],
            ),
        ),
    }
}

/// The WHERE filter of a normalized tree.  Where the node separates, its
/// phrase side and predicate side are reduced and emitted side by side with
/// constant short-cuts; where some child mixes both, the junction recurses
/// child by child.
pub open spec fn spec_filter(e: SpecExpr, n0: nat) -> Result<
    (Seq<Frag>, Seq<SpecBind>, Seq<Seq<Frag>>),
    SpecQueryError,
>
    decreases e, 1int,
{
    if spec_can_separate(e) {
        let f_expr = crate::expr::spec_reduce(spec_leave(e, false));
        let p_expr = crate::expr::spec_reduce(spec_leave(e, true));
        if e is Or {
            if f_expr == SpecExpr::Empty && p_expr == SpecExpr::Empty {
                Ok((seq![Frag::Lit("TRUE"@)], Seq::empty(), Seq::empty()))
            } else if f_expr == SpecExpr::True || p_expr == SpecExpr::True {
                Ok((seq![Frag::Lit("TRUE"@)], Seq::empty(), Seq::empty()))
            } else if f_expr == SpecExpr::False && p_expr == SpecExpr::False {
                Ok((seq![Frag::Lit("FALSE"@)], Seq::empty(), Seq::empty()))
            } else if f_expr == SpecExpr::Empty {
                spec_phrase_filter(p_expr, n0)
            } else if p_expr == SpecExpr::Empty {
                match spec_func_filter(f_expr, n0) {
                    Err(er) => Err(er),
                    Ok(fb) => Ok((fb.0, fb.1, Seq::empty())),
                }
            } else {
                match spec_phrase_filter(p_expr, n0) {
                    Err(er) => Err(er),
                    Ok(pf) => match spec_func_filter(f_expr, n0 + pf.1.len()) {
                        Err(er) => Err(er),
                        Ok(fb) => Ok(
                            (
                                seq![Frag::Lit("("@)] + pf.0 + seq![Frag::Lit(") OR ("@)]
                                    + fb.0 + seq![Frag::Lit(")"@)],
                                pf.1 + fb.1,
                                pf.2,
                            ),
                        ),
                    },
                }
            }
        } else {
            if f_expr == SpecExpr::Empty && p_expr == SpecExpr::Empty {
                Ok((seq![Frag::Lit("TRUE"@)], Seq::empty(), Seq::empty()))
            } else if f_expr == SpecExpr::False || p_expr == SpecExpr::False {
                Ok((seq![Frag::Lit("FALSE"@)], Seq::empty(), Seq::empty()))
            } else if f_expr == SpecExpr::True && p_expr == SpecExpr::True {
                Ok((seq![Frag::Lit("TRUE"@)], Seq::empty(), Seq::empty()))
            } else if f_expr == SpecExpr::Empty || f_expr == SpecExpr::True {
                spec_phrase_filter(p_expr, n0)
            } else if p_expr == SpecExpr::Empty || p_expr == SpecExpr::True {
                match spec_func_filter(f_expr, n0) {
                    Err(er) => Err(er),
                    Ok(fb) => Ok((fb.0, fb.1, Seq::empty())),
                }
            } else {
                match spec_phrase_filter(p_expr, n0) {
                    Err(er) => Err(er),
                    Ok(pf) => match spec_func_filter(f_expr, n0 + pf.1.len()) {
                        Err(er) => Err(er),
                        Ok(fb) => Ok(
                            (
                                seq![Frag::Lit("("@)] + pf.0 + seq![Frag::Lit(") AND ("@)]
                                    + fb.0 + seq![Frag::Lit(")"@)],
                                pf.1 + fb.1,
                                pf.2,
                            ),
                        ),
                    },
                }
            }
        }
    } else {
        match e {
            SpecExpr::And(s) => spec_filter_list(s, "AND"@, n0),
            SpecExpr::Or(s) => spec_filter_list(s, "OR"@, n0),
            _ => Err(SpecQueryError::PhraseContext),
        }
    }
}

pub open spec fn spec_filter_list(s: Seq<SpecExpr>, op: Seq<char>, n0: nat) -> Result<
    (Seq<Frag>, Seq<SpecBind>, Seq<Seq<Frag>>),
    SpecQueryError,
>
    decreases s, 0int,
{
    if s.len() == 0 {
        Ok((Seq::empty(), Seq::empty(), Seq::empty()))
    } else {
        match spec_filter_list(s.drop_last(), op, n0) {
            Err(er) => Err(er),
            Ok(ft1) => match spec_filter(s.last(), n0 + ft1.1.len()) {
                Err(er) => Err(er),
                Ok(ft2) => {
                    let sep: Seq<Frag> = if s.len() > 1 {
                        seq![Frag::Lit(" "@), Frag::Lit(op), Frag::Lit(" "@)]
                    } else {
                        Seq::empty()
                    };
                    Ok(
                        (
                            ft1.0 + sep + seq![Frag::Lit("("@)] + ft2.0 + seq![
                                Frag::Lit(")"@),
                            ],
                            ft1.1 + ft2.1,
                            ft1.2 + ft2.2,
                        ),
                    )
                },
            },
        }
    }
}

proof fn lemma_tsq_list_err(s: Seq<SpecExpr>, op: Seq<char>, n0: nat, i: int)
    requires
        0 <= i <= s.len(),
        spec_tsquery_list(s.take(i), op, n0) is Err,
    ensures
        spec_tsquery_list(s, op, n0) == spec_tsquery_list(s.take(i), op, n0),
    decreases s.len() - i,
{
    if i < s.len() {
        assert(s.take(s.len() as int) =~= s);
        assert(s.take(s.len() - 1).take(i) =~= s.take(i));
        lemma_tsq_list_err(s.take(s.len() - 1), op, n0, i);
        assert(s.drop_last() =~= s.take(s.len() - 1));
    } else {
        assert(s.take(i) =~= s);
    }
}

proof fn lemma_func_list_err(s: Seq<SpecExpr>, op: Seq<char>, n0: nat, i: int)
    requires
        0 <= i <= s.len(),
        spec_func_list(s.take(i), op, n0) is Err,
    ensures
        spec_func_list(s, op, n0) == spec_func_list(s.take(i), op, n0),
    decreases s.len() - i,
{
    if i < s.len() {
        assert(s.take(s.len() as int) =~= s);
        assert(s.take(s.len() - 1).take(i) =~= s.take(i));
        lemma_func_list_err(s.take(s.len() - 1), op, n0, i);
        assert(s.drop_last() =~= s.take(s.len() - 1));
    } else {
        assert(s.take(i) =~= s);
    }
}

proof fn lemma_filter_list_err(s: Seq<SpecExpr>, op: Seq<char>, n0: nat, i: int)
    requires
        0 <= i <= s.len(),
        spec_filter_list(s.take(i), op, n0) is Err,
    ensures
        spec_filter_list(s, op, n0) == spec_filter_list(s.take(i), op, n0),
    decreases s.len() - i,
{
    if i < s.len() {
        assert(s.take(s.len() as int) =~= s);
        assert(s.take(s.len() - 1).take(i) =~= s.take(i));
        lemma_filter_list_err(s.take(s.len() - 1), op, n0, i);
        assert(s.drop_last() =~= s.take(s.len() - 1));
    } else {
        assert(s.take(i) =~= s);
    }
}

/// Monotonicity of the parameter bound.
pub proof fn lemma_params_mono(fs: Seq<Frag>, n: nat, n2: nat)
    requires
        params_bounded(fs, n),
        n <= n2,
    ensures
        params_bounded(fs, n2),
{
}

/// Every recorded tsquery references only existing bindings.
pub open spec fn tqs_bounded(s: Seq<Seq<Frag>>, n: nat) -> bool {
    forall|j: int| 0 <= j < s.len() ==> params_bounded(#[trigger] s[j], n)
}

/// The fragment lists of the collected tsquery builders.
pub open spec fn tq_frags(s: Seq<QueryBuilder>) -> Seq<Seq<Frag>>
    decreases s,
{
    if s.len() == 0 {
        Seq::empty()
    } else {
        tq_frags(s.drop_last()).push(s.last()@)
    }
}

pub open spec fn tqs_wf(s: Seq<QueryBuilder>) -> bool
    decreases s,
{
    if s.len() == 0 {
        true
    } else {
        tqs_wf(s.drop_last()) && s.last().wf()
    }
}

pub proof fn lemma_tq_frags(s: Seq<QueryBuilder>)
    ensures
        tq_frags(s).len() == s.len(),
        forall|i: int| 0 <= i < s.len() ==> tq_frags(s)[i] == s[i]@,
        tqs_wf(s) ==> forall|i: int| 0 <= i < s.len() ==> (#[trigger] s[i]).wf(),
    decreases s,
{
    if s.len() > 0 {
        lemma_tq_frags(s.drop_last());
        assert(forall|i: int| 0 <= i < s.len() - 1 ==> s.drop_last()[i] == s[i]);
        assert(s.last() == s[s.len() - 1]);
    }
}

/// Whether the node is one of the three constants; used for the short-cuts
/// of the separable case.
fn const_kind(e: &Expr) -> (r: u8)
    ensures
        (r == 0) == (e@ == SpecExpr::True),
        (r == 1) == (e@ == SpecExpr::False),
        (r == 2) == (e@ == SpecExpr::Empty),
        r <= 3,
{
    match e {
        Expr::True => 0,
        Expr::False => 1,
        Expr::Empty => 2,
        _ => 3,
    }
}

/// Whether any child mixes phrase and predicate subtrees.
#[verifier::loop_isolation(false)]
fn can_separate(e: &Expr) -> (r: bool)
    ensures
        r == spec_can_separate(e@),
{
    match e {
        Expr::And(xs) | Expr::Or(xs) => {
            let ghost s = crate::expr::views_of(xs@);
            proof {
                crate::expr::lemma_views_of(xs@);
            }
            let mut i: usize = 0;
            while i < xs.len()
                invariant
                    0 <= i <= xs@.len(),
                    seq_none_mixed(s.take(i as int)),
                decreases xs@.len() - i,
            {
                proof {
                    crate::expr::lemma_views_of(xs@);
                    assert(crate::expr::views_of(xs@)[i as int] == crate::expr::view_of(
                        xs@[i as int],
                    ));
                    assert(s.take(i + 1 as int).drop_last() =~= s.take(i as int));
                }
                let child = &xs[i];
                if child.has_phrases() && child.has_funcs() {
                    proof {
                        lemma_seq_mixed_elem(s, i as int);
                    }
                    return false;
                }
                i += 1;
            }
            proof {
                assert(s.take(xs@.len() as int) =~= s);
            }
            true
        },
        _ => true,
    }
}

proof fn lemma_seq_mixed_elem(s: Seq<SpecExpr>, i: int)
    requires
        0 <= i < s.len(),
        crate::expr::spec_has_phrases(s[i]) && crate::expr::spec_has_funcs(s[i]),
    ensures
        !seq_none_mixed(s),
    decreases s,
{
    if i < s.len() - 1 {
        lemma_seq_mixed_elem(s.drop_last(), i);
    }
}

/// Keep only the children of one side, shallowly.
#[verifier::loop_isolation(false)]
fn leave_only(e: Expr, phrase_side: bool) -> (r: Expr)
    ensures
        r@ == spec_leave(e@, phrase_side),
{
    match e {
        Expr::And(xs) => Expr::And(retain_side(xs, phrase_side)),
        Expr::Or(xs) => Expr::Or(retain_side(xs, phrase_side)),
        other => {
            let keep = if phrase_side {
                !(&other).has_funcs()
            } else {
                !(&other).has_phrases()
            };
            if keep {
                other
            } else {
                Expr::True
            }
        },
    }
}

#[verifier::loop_isolation(false)]
fn retain_side(xs: Vec<Expr>, phrase_side: bool) -> (r: Vec<Expr>)
    ensures
        crate::expr::views_of(r@) == retain_children(crate::expr::views_of(xs@), phrase_side),
{
    let ghost orig = xs@;
    let ghost s0 = crate::expr::views_of(orig);
    proof {
        crate::expr::lemma_views_of(orig);
    }
    let mut rest = xs;
    let mut out: Vec<Expr> = Vec::new();
    let ghost mut i: int = 0;
    while rest.len() > 0
        invariant
            0 <= i,
            i + rest@.len() == orig.len(),
            rest@ == orig.skip(i),
            crate::expr::views_of(out@) == retain_children(s0.take(i), phrase_side),
        decreases rest@.len(),
    {
        let ghost out_prev = out@;
        let e = rest.remove(0);
        proof {
            assert(orig.skip(i)[0] == orig[i]);
            assert(e == orig[i]);
            assert(orig.skip(i).drop_first() =~= orig.skip(i + 1));
            assert(s0.take(i + 1).drop_last() =~= s0.take(i));
            assert(s0.take(i + 1).last() == crate::expr::view_of(orig[i]));
        }
        let keep = if phrase_side {
            !(&e).has_funcs()
        } else {
            !(&e).has_phrases()
        };
        if keep {
            out.push(e);
            proof {
                assert(out@.drop_last() =~= out_prev);
                assert(crate::expr::views_of(out@) == crate::expr::views_of(out_prev).push(
                    crate::expr::view_of(out@.last()),
                ));
            }
        }
        proof {
            i = i + 1;
        }
    }
    proof {
        assert(s0.take(i) =~= s0);
    }
    out
}

/// Emit the tsquery of a phrase-side tree.
#[verifier::loop_isolation(false)]
pub fn build_tsquery(query: &mut QueryBuilder, bindings: &mut Bindings, e: Expr) -> (r: Result<
    (),
    QueryError,
>)
    requires
        old(query).wf(),
    ensures
        final(query).wf(),
        old(bindings)@.len() <= final(bindings)@.len(),
        params_bounded(old(query)@, old(bindings)@.len()) ==> params_bounded(
            final(query)@,
            final(bindings)@.len(),
        ),
        match r {
            Ok(_) => (match spec_tsquery(e@, old(bindings)@.len()) {
                Ok(fb) => final(query)@ == old(query)@ + fb.0 && final(bindings)@ == old(
                    bindings,
                )@ + fb.1,
                Err(_) => false,
            }),
            Err(er) => spec_tsquery(e@, old(bindings)@.len()) == Err::<
                (Seq<Frag>, Seq<SpecBind>),
                SpecQueryError,
            >(er@),
        },
    decreases e, 1int,
{
    let ghost orig = e;
    let ghost q0 = query@;
    let ghost b0 = bindings@;
    match e {
        Expr::Phrase(p) => {
            query.sql("phraseto_tsquery('russian', ");
            query.binding(bindings, BindValue::Str(p));
            query.sql(")");
            proof {
                assert(query@ =~= q0 + spec_tsquery(orig@, b0.len())->Ok_0.0);
                assert(bindings@ =~= b0 + spec_tsquery(orig@, b0.len())->Ok_0.1);
            }
            Ok(())
        },
        Expr::Not(inner) => {
            query.sql("!! (");
            match build_tsquery(query, bindings, *inner) {
                Err(er) => Err(er),
                Ok(_) => {
                    query.sql(")");
                    proof {
                        assert(query@ =~= q0 + spec_tsquery(orig@, b0.len())->Ok_0.0);
                        assert(bindings@ =~= b0 + spec_tsquery(orig@, b0.len())->Ok_0.1);
                    }
                    Ok(())
                },
            }
        },
        Expr::Then(xs) => {
            proof {
                assert(decreases_to!(orig => orig->Then_0));
                assert(orig->Then_0 == xs);
                assert(decreases_to!(xs => xs@));
            }
            build_tsquery_list(query, bindings, xs, "<->")
        },
        Expr::And(xs) => {
            proof {
                assert(decreases_to!(orig => orig->And_0));
                assert(orig->And_0 == xs);
                assert(decreases_to!(xs => xs@));
            }
            build_tsquery_list(query, bindings, xs, "&&")
        },
        Expr::Or(xs) => {
            proof {
                assert(decreases_to!(orig => orig->Or_0));
                assert(orig->Or_0 == xs);
                assert(decreases_to!(xs => xs@));
            }
            build_tsquery_list(query, bindings, xs, "||")
        },
        Expr::Func(_, _) => Err(QueryError::FuncContext),
        _ => {
            query.sql("phraseto_tsquery('russian', '')");
            proof {
                assert(query@ =~= q0 + spec_tsquery(orig@, b0.len())->Ok_0.0);
                assert(bindings@ =~= b0 + spec_tsquery(orig@, b0.len())->Ok_0.1);
            }
            Ok(())
        },
    }
}

#[verifier::loop_isolation(false)]
fn build_tsquery_list(
    query: &mut QueryBuilder,
    bindings: &mut Bindings,
    xs: Vec<Expr>,
    op: &str,
) -> (r: Result<(), QueryError>)
    requires
        old(query).wf(),
    ensures
        final(query).wf(),
        old(bindings)@.len() <= final(bindings)@.len(),
        params_bounded(old(query)@, old(bindings)@.len()) ==> params_bounded(
            final(query)@,
            final(bindings)@.len(),
        ),
        match r {
            Ok(_) => (match spec_tsquery_list(
                crate::expr::views_of(xs@),
                op@,
                old(bindings)@.len(),
            ) {
                Ok(fb) => final(query)@ == old(query)@ + fb.0 && final(bindings)@ == old(
                    bindings,
                )@ + fb.1,
                Err(_) => false,
            }),
            Err(er) => spec_tsquery_list(crate::expr::views_of(xs@), op@, old(bindings)@.len())
                == Err::<(Seq<Frag>, Seq<SpecBind>), SpecQueryError>(er@),
        },
    decreases xs@, 0int,
{
    let ghost orig = xs@;
    let ghost s0 = crate::expr::views_of(orig);
    let ghost q0 = query@;
    let ghost b0 = bindings@;
    proof {
        crate::expr::lemma_views_of(orig);
    }
    let mut rest = xs;
    let mut first = true;
    let ghost mut i: int = 0;
    while rest.len() > 0
        invariant
            0 <= i,
            i + rest@.len() == orig.len(),
            rest@ == orig.skip(i),
            first == (i == 0),
            query.wf(),
            b0.len() <= bindings@.len(),
            params_bounded(q0, b0.len()) ==> params_bounded(query@, bindings@.len()),
            (match spec_tsquery_list(s0.take(i), op@, b0.len()) {
                Ok(fb) => query@ == q0 + fb.0 && bindings@ == b0 + fb.1,
                Err(_) => false,
            }),
        decreases rest@.len(),
    {
        let e = rest.remove(0);
        proof {
            assert(orig.skip(i)[0] == orig[i]);
            assert(e == orig[i]);
            assert(decreases_to!(orig => orig[i]));
            assert(orig.skip(i).drop_first() =~= orig.skip(i + 1));
            assert(s0.take(i + 1).drop_last() =~= s0.take(i));
            assert(s0.take(i + 1).last() == crate::expr::view_of(orig[i]));
        }
        if !first {
            query.sql(" ");
            query.sql(op);
            query.sql(" ");
        }
        query.sql("(");
        match build_tsquery(query, bindings, e) {
            Err(er) => {
                proof {
                    lemma_tsq_list_err(s0, op@, b0.len(), i + 1);
                }
                return Err(er);
            },
            Ok(_) => {
                query.sql(")");
                proof {
                    let fb1 = spec_tsquery_list(s0.take(i), op@, b0.len())->Ok_0;
                    let fb2 = spec_tsquery(s0[i], b0.len() + fb1.1.len())->Ok_0;
                    let sep: Seq<Frag> = if i > 0 {
                        seq![Frag::Lit(" "@), Frag::Lit(op@), Frag::Lit(" "@)]
                    } else {
                        Seq::empty()
                    };
                    assert(query@ =~= q0 + (fb1.0 + sep + seq![Frag::Lit("("@)] + fb2.0
                        + seq![Frag::Lit(")"@)]));
                    assert(bindings@ =~= b0 + (fb1.1 + fb2.1));
                    i = i + 1;
                }
                first = false;
            },
        }
    }
    proof {
        assert(s0.take(i) =~= s0);
    }
    Ok(())
}

/// Emit the boolean filter of a predicate-side tree.
#[verifier::loop_isolation(false)]
pub fn build_func_filter(query: &mut QueryBuilder, bindings: &mut Bindings, e: Expr) -> (r:
    Result<(), QueryError>)
    requires
        old(query).wf(),
    ensures
        final(query).wf(),
        old(bindings)@.len() <= final(bindings)@.len(),
        params_bounded(old(query)@, old(bindings)@.len()) ==> params_bounded(
            final(query)@,
            final(bindings)@.len(),
        ),
        match r {
            Ok(_) => (match spec_func_filter(e@, old(bindings)@.len()) {
                Ok(fb) => final(query)@ == old(query)@ + fb.0 && final(bindings)@ == old(
                    bindings,
                )@ + fb.1,
                Err(_) => false,
            }),
            Err(er) => spec_func_filter(e@, old(bindings)@.len()) == Err::<
                (Seq<Frag>, Seq<SpecBind>),
                SpecQueryError,
            >(er@),
        },
    decreases e, 1int,
{
    let ghost orig = e;
    let ghost q0 = query@;
    let ghost b0 = bindings@;
    match e {
        Expr::Func(name, value) => {
            proof {
                reveal_strlit("sort");
                reveal_strlit("order");
                reveal_strlit("bots");
                assert("sort"@ =~= crate::expr::sort_chars());
                assert("order"@ =~= crate::expr::order_chars());
                assert("bots"@ =~= crate::expr::bots_chars());
            }
            if crate::expr::str_eq(name.as_str(), "sort") || crate::expr::str_eq(
                name.as_str(),
                "order",
            ) || crate::expr::str_eq(name.as_str(), "bots") {
                query.sql("TRUE");
                proof {
                    assert(query@ =~= q0 + spec_func_filter(orig@, b0.len())->Ok_0.0);
                    assert(bindings@ =~= b0 + spec_func_filter(orig@, b0.len())->Ok_0.1);
                }
                Ok(())
            } else {
                handle(query, bindings, name, value)
            }
        },
        Expr::Not(inner) => {
            query.sql("NOT (");
            match build_func_filter(query, bindings, *inner) {
                Err(er) => Err(er),
                Ok(_) => {
                    query.sql(")");
                    proof {
                        assert(query@ =~= q0 + spec_func_filter(orig@, b0.len())->Ok_0.0);
                        assert(bindings@ =~= b0 + spec_func_filter(orig@, b0.len())->Ok_0.1);
                    }
                    Ok(())
                },
            }
        },
        Expr::And(xs) => {
            proof {
                assert(decreases_to!(orig => orig->And_0));
                assert(orig->And_0 == xs);
                assert(decreases_to!(xs => xs@));
            }
            build_func_list(query, bindings, xs, "AND")
        },
        Expr::Or(xs) => {
            proof {
                assert(decreases_to!(orig => orig->Or_0));
                assert(orig->Or_0 == xs);
                assert(decreases_to!(xs => xs@));
            }
            build_func_list(query, bindings, xs, "OR")
        },
        Expr::Then(_) => Err(QueryError::ThenContext),
        Expr::Phrase(_) => Err(QueryError::PhraseContext),
        Expr::True => {
            query.sql("TRUE");
            proof {
                assert(query@ =~= q0 + spec_func_filter(orig@, b0.len())->Ok_0.0);
                assert(bindings@ =~= b0 + spec_func_filter(orig@, b0.len())->Ok_0.1);
            }
            Ok(())
        },
        Expr::Empty => {
            query.sql("TRUE");
            proof {
                assert(query@ =~= q0 + spec_func_filter(orig@, b0.len())->Ok_0.0);
                assert(bindings@ =~= b0 + spec_func_filter(orig@, b0.len())->Ok_0.1);
            }
            Ok(())
        },
        _ => {
            query.sql("FALSE");
            proof {
                assert(query@ =~= q0 + spec_func_filter(orig@, b0.len())->Ok_0.0);
                assert(bindings@ =~= b0 + spec_func_filter(orig@, b0.len())->Ok_0.1);
            }
            Ok(())
        },
    }
}

#[verifier::loop_isolation(false)]
fn build_func_list(
    query: &mut QueryBuilder,
    bindings: &mut Bindings,
    xs: Vec<Expr>,
    op: &str,
) -> (r: Result<(), QueryError>)
    requires
        old(query).wf(),
    ensures
        final(query).wf(),
        old(bindings)@.len() <= final(bindings)@.len(),
        params_bounded(old(query)@, old(bindings)@.len()) ==> params_bounded(
            final(query)@,
            final(bindings)@.len(),
        ),
        match r {
            Ok(_) => (match spec_func_list(crate::expr::views_of(xs@), op@, old(bindings)@.len())
                {
                Ok(fb) => final(query)@ == old(query)@ + fb.0 && final(bindings)@ == old(
                    bindings,
                )@ + fb.1,
                Err(_) => false,
            }),
            Err(er) => spec_func_list(crate::expr::views_of(xs@), op@, old(bindings)@.len())
                == Err::<(Seq<Frag>, Seq<SpecBind>), SpecQueryError>(er@),
        },
    decreases xs@, 0int,
{
    let ghost orig = xs@;
    let ghost s0 = crate::expr::views_of(orig);
    let ghost q0 = query@;
    let ghost b0 = bindings@;
    proof {
        crate::expr::lemma_views_of(orig);
    }
    let mut rest = xs;
    let mut first = true;
    let ghost mut i: int = 0;
    while rest.len() > 0
        invariant
            0 <= i,
            i + rest@.len() == orig.len(),
            rest@ == orig.skip(i),
            first == (i == 0),
            query.wf(),
            b0.len() <= bindings@.len(),
            params_bounded(q0, b0.len()) ==> params_bounded(query@, bindings@.len()),
            (match spec_func_list(s0.take(i), op@, b0.len()) {
                Ok(fb) => query@ == q0 + fb.0 && bindings@ == b0 + fb.1,
                Err(_) => false,
            }),
        decreases rest@.len(),
    {
        let e = rest.remove(0);
        proof {
            assert(orig.skip(i)[0] == orig[i]);
            assert(e == orig[i]);
            assert(decreases_to!(orig => orig[i]));
            assert(orig.skip(i).drop_first() =~= orig.skip(i + 1));
            assert(s0.take(i + 1).drop_last() =~= s0.take(i));
            assert(s0.take(i + 1).last() == crate::expr::view_of(orig[i]));
        }
        if !first {
            query.sql(" ");
            query.sql(op);
            query.sql(" ");
        }
        query.sql("(");
        match build_func_filter(query, bindings, e) {
            Err(er) => {
                proof {
                    lemma_func_list_err(s0, op@, b0.len(), i + 1);
                }
                return Err(er);
            },
            Ok(_) => {
                query.sql(")");
                proof {
                    let fb1 = spec_func_list(s0.take(i), op@, b0.len())->Ok_0;
                    let fb2 = spec_func_filter(s0[i], b0.len() + fb1.1.len())->Ok_0;
                    let sep: Seq<Frag> = if i > 0 {
                        seq![Frag::Lit(" "@), Frag::Lit(op@), Frag::Lit(" "@)]
                    } else {
                        Seq::empty()
                    };
                    assert(query@ =~= q0 + (fb1.0 + sep + seq![Frag::Lit("("@)] + fb2.0
                        + seq![Frag::Lit(")"@)]));
                    assert(bindings@ =~= b0 + (fb1.1 + fb2.1));
                    i = i + 1;
                }
                first = false;
            },
        }
    }
    proof {
        assert(s0.take(i) =~= s0);
    }
    Ok(())
}

/// Emit the full-text match of a phrase-side tree, and record the tsquery.
#[verifier::loop_isolation(false)]
pub fn build_phrase_filter(
    query: &mut QueryBuilder,
    bindings: &mut Bindings,
    tsqueries: &mut Vec<QueryBuilder>,
    e: Expr,
) -> (r: Result<(), QueryError>)
    requires
        old(query).wf(),
        tqs_wf(old(tsqueries)@),
    ensures
        final(query).wf(),
        tqs_wf(final(tsqueries)@),
        old(bindings)@.len() <= final(bindings)@.len(),
        params_bounded(old(query)@, old(bindings)@.len()) ==> params_bounded(
            final(query)@,
            final(bindings)@.len(),
        ),
        tqs_bounded(tq_frags(old(tsqueries)@), old(bindings)@.len()) ==> tqs_bounded(
            tq_frags(final(tsqueries)@),
            final(bindings)@.len(),
        ),
        match r {
            Ok(_) => (match spec_phrase_filter(e@, old(bindings)@.len()) {
                Ok(ft) => final(query)@ == old(query)@ + ft.0 && final(bindings)@ == old(
                    bindings,
                )@ + ft.1 && tq_frags(final(tsqueries)@) == tq_frags(old(tsqueries)@) + ft.2,
                Err(_) => false,
            }),
            Err(er) => spec_phrase_filter(e@, old(bindings)@.len()) == Err::<
                (Seq<Frag>, Seq<SpecBind>, Seq<Seq<Frag>>),
                SpecQueryError,
            >(er@) && final(tsqueries)@ == old(tsqueries)@,
        },
{
    let ghost q0 = query@;
    let ghost b0 = bindings@;
    let ghost t0 = tsqueries@;
    let mut partial = QueryBuilder::new();
    match build_tsquery(&mut partial, bindings, e) {
        Err(er) => Err(er),
        Ok(_) => {
            query.sql("to_tsvector('russian', msg_body) @@ (");
            query.append(&partial);
            query.sql(")");
            let ghost pf = partial@;
            tsqueries.push(partial);
            proof {
                let fb = spec_tsquery(e@, b0.len())->Ok_0;
                assert(query@ =~= q0 + (seq![
                    Frag::Lit("to_tsvector('russian', msg_body) @@ ("@),
                ] + fb.0 + seq![Frag::Lit(")"@)]));
                assert(tsqueries@.drop_last() =~= t0);
                assert(tq_frags(tsqueries@) =~= tq_frags(t0) + seq![fb.0]);
                lemma_tq_frags(t0);
                lemma_tq_frags(tsqueries@);
                if tqs_bounded(tq_frags(t0), b0.len()) {
                    assert forall|j: int|
                        0 <= j < tq_frags(tsqueries@).len() implies params_bounded(
                        #[trigger] tq_frags(tsqueries@)[j],
                        bindings@.len(),
                    ) by {
                        if j < tq_frags(t0).len() {
                            assert(tq_frags(tsqueries@)[j] == tq_frags(t0)[j]);
                            lemma_params_mono(tq_frags(t0)[j], b0.len(), bindings@.len());
                        } else {
                            assert(tq_frags(tsqueries@)[j] == pf);
                        }
                    }
                }
            }
            Ok(())
        },
    }
}

/// Emit the WHERE filter of a normalized tree.
#[verifier::loop_isolation(false)]
pub fn build_filter(
    query: &mut QueryBuilder,
    bindings: &mut Bindings,
    tsqueries: &mut Vec<QueryBuilder>,
    expr: Expr,
) -> (r: Result<(), QueryError>)
    requires
        old(query).wf(),
        tqs_wf(old(tsqueries)@),
    ensures
        final(query).wf(),
        tqs_wf(final(tsqueries)@),
        old(bindings)@.len() <= final(bindings)@.len(),
        params_bounded(old(query)@, old(bindings)@.len()) ==> params_bounded(
            final(query)@,
            final(bindings)@.len(),
        ),
        tqs_bounded(tq_frags(old(tsqueries)@), old(bindings)@.len()) ==> tqs_bounded(
            tq_frags(final(tsqueries)@),
            final(bindings)@.len(),
        ),
        match r {
            Ok(_) => (match spec_filter(expr@, old(bindings)@.len()) {
                Ok(ft) => final(query)@ == old(query)@ + ft.0 && final(bindings)@ == old(
                    bindings,
                )@ + ft.1 && tq_frags(final(tsqueries)@) == tq_frags(old(tsqueries)@) + ft.2,
                Err(_) => false,
            }),
            Err(er) => spec_filter(expr@, old(bindings)@.len()) == Err::<
                (Seq<Frag>, Seq<SpecBind>, Seq<Seq<Frag>>),
                SpecQueryError,
            >(er@),
        },
    decreases expr, 1int,
{
    let ghost orig = expr;
    let ghost q0 = query@;
    let ghost b0 = bindings@;
    let ghost t0 = tsqueries@;
    if can_separate(&expr) {
        let is_or = expr.is_or();
        let f_expr = leave_only(expr.duplicate(), false).reduce();
        let p_expr = leave_only(expr, true).reduce();
        let fk = const_kind(&f_expr);
        let pk = const_kind(&p_expr);
        if is_or {
            if fk == 2 && pk == 2 {
                query.sql("TRUE");
                proof {
                    assert(query@ =~= q0 + spec_filter(orig@, b0.len())->Ok_0.0);
                    assert(tq_frags(t0) + Seq::<Seq<Frag>>::empty() =~= tq_frags(t0));
                    assert(b0 + Seq::<SpecBind>::empty() =~= b0);
                }
                Ok(())
            } else if fk == 0 || pk == 0 {
                query.sql("TRUE");
                proof {
                    assert(query@ =~= q0 + spec_filter(orig@, b0.len())->Ok_0.0);
                    assert(tq_frags(t0) + Seq::<Seq<Frag>>::empty() =~= tq_frags(t0));
                    assert(b0 + Seq::<SpecBind>::empty() =~= b0);
                }
                Ok(())
            } else if fk == 1 && pk == 1 {
                query.sql("FALSE");
                proof {
                    assert(query@ =~= q0 + spec_filter(orig@, b0.len())->Ok_0.0);
                    assert(tq_frags(t0) + Seq::<Seq<Frag>>::empty() =~= tq_frags(t0));
                    assert(b0 + Seq::<SpecBind>::empty() =~= b0);
                }
                Ok(())
            } else if fk == 2 {
                build_phrase_filter(query, bindings, tsqueries, p_expr)
            } else if pk == 2 {
                match build_func_filter(query, bindings, f_expr) {
                    Err(er) => Err(er),
                    Ok(_) => {
                        proof {
                            assert(tq_frags(t0) + Seq::<Seq<Frag>>::empty() =~= tq_frags(
                                t0,
                            ));
                        }
                        Ok(())
                    },
                }
            } else {
                query.sql("(");
                match build_phrase_filter(query, bindings, tsqueries, p_expr) {
                    Err(er) => Err(er),
                    Ok(_) => {
                        query.sql(") OR (");
                        match build_func_filter(query, bindings, f_expr) {
                            Err(er) => Err(er),
                            Ok(_) => {
                                query.sql(")");
                                proof {
                                    let pf = spec_phrase_filter(p_expr@, b0.len())->Ok_0;
                                    let fb = spec_func_filter(
                                        f_expr@,
                                        b0.len() + pf.1.len(),
                                    )->Ok_0;
                                    assert(query@ =~= q0 + (seq![Frag::Lit("("@)] + pf.0
                                        + seq![Frag::Lit(") OR ("@)] + fb.0 + seq![
                                        Frag::Lit(")"@),
                                    ]));
                                    assert(bindings@ =~= b0 + (pf.1 + fb.1));
                                }
                                Ok(())
                            },
                        }
                    },
                }
            }
        } else {
            if fk == 2 && pk == 2 {
                query.sql("TRUE");
                proof {
                    assert(query@ =~= q0 + spec_filter(orig@, b0.len())->Ok_0.0);
                    assert(tq_frags(t0) + Seq::<Seq<Frag>>::empty() =~= tq_frags(t0));
                    assert(b0 + Seq::<SpecBind>::empty() =~= b0);
                }
                Ok(())
            } else if fk == 1 || pk == 1 {
                query.sql("FALSE");
                proof {
                    assert(query@ =~= q0 + spec_filter(orig@, b0.len())->Ok_0.0);
                    assert(tq_frags(t0) + Seq::<Seq<Frag>>::empty() =~= tq_frags(t0));
                    assert(b0 + Seq::<SpecBind>::empty() =~= b0);
                }
                Ok(())
            } else if fk == 0 && pk == 0 {
                query.sql("TRUE");
                proof {
                    assert(query@ =~= q0 + spec_filter(orig@, b0.len())->Ok_0.0);
                    assert(tq_frags(t0) + Seq::<Seq<Frag>>::empty() =~= tq_frags(t0));
                    assert(b0 + Seq::<SpecBind>::empty() =~= b0);
                }
                Ok(())
            } else if fk == 2 || fk == 0 {
                build_phrase_filter(query, bindings, tsqueries, p_expr)
            } else if pk == 2 || pk == 0 {
                match build_func_filter(query, bindings, f_expr) {
                    Err(er) => Err(er),
                    Ok(_) => {
                        proof {
                            assert(tq_frags(t0) + Seq::<Seq<Frag>>::empty() =~= tq_frags(
                                t0,
                            ));
                        }
                        Ok(())
                    },
                }
            } else {
                query.sql("(");
                match build_phrase_filter(query, bindings, tsqueries, p_expr) {
                    Err(er) => Err(er),
                    Ok(_) => {
                        query.sql(") AND (");
                        match build_func_filter(query, bindings, f_expr) {
                            Err(er) => Err(er),
                            Ok(_) => {
                                query.sql(")");
                                proof {
                                    let pf = spec_phrase_filter(p_expr@, b0.len())->Ok_0;
                                    let fb = spec_func_filter(
                                        f_expr@,
                                        b0.len() + pf.1.len(),
                                    )->Ok_0;
                                    assert(query@ =~= q0 + (seq![Frag::Lit("("@)] + pf.0
                                        + seq![Frag::Lit(") AND ("@)] + fb.0 + seq![
                                        Frag::Lit(")"@),
                                    ]));
                                    assert(bindings@ =~= b0 + (pf.1 + fb.1));
                                }
                                Ok(())
                            },
                        }
                    },
                }
            }
        }
    } else {
        match expr {
            Expr::And(xs) => {
                proof {
                    assert(decreases_to!(orig => orig->And_0));
                    assert(orig->And_0 == xs);
                    assert(decreases_to!(xs => xs@));
                }
                build_filter_list(query, bindings, tsqueries, xs, "AND")
            },
            Expr::Or(xs) => {
                proof {
                    assert(decreases_to!(orig => orig->Or_0));
                    assert(orig->Or_0 == xs);
                    assert(decreases_to!(xs => xs@));
                }
                build_filter_list(query, bindings, tsqueries, xs, "OR")
            },
            _ => Err(QueryError::PhraseContext),
        }
    }
}

#[verifier::loop_isolation(false)]
#[verifier::rlimit(60)]
fn build_filter_list(
    query: &mut QueryBuilder,
    bindings: &mut Bindings,
    tsqueries: &mut Vec<QueryBuilder>,
    xs: Vec<Expr>,
    op: &str,
) -> (r: Result<(), QueryError>)
    requires
        old(query).wf(),
        tqs_wf(old(tsqueries)@),
    ensures
        final(query).wf(),
        tqs_wf(final(tsqueries)@),
        old(bindings)@.len() <= final(bindings)@.len(),
        params_bounded(old(query)@, old(bindings)@.len()) ==> params_bounded(
            final(query)@,
            final(bindings)@.len(),
        ),
        tqs_bounded(tq_frags(old(tsqueries)@), old(bindings)@.len()) ==> tqs_bounded(
            tq_frags(final(tsqueries)@),
            final(bindings)@.len(),
        ),
        match r {
            Ok(_) => (match spec_filter_list(
                crate::expr::views_of(xs@),
                op@,
                old(bindings)@.len(),
            ) {
                Ok(ft) => final(query)@ == old(query)@ + ft.0 && final(bindings)@ == old(
                    bindings,
                )@ + ft.1 && tq_frags(final(tsqueries)@) == tq_frags(old(tsqueries)@) + ft.2,
                Err(_) => false,
            }),
            Err(er) => spec_filter_list(crate::expr::views_of(xs@), op@, old(bindings)@.len())
                == Err::<(Seq<Frag>, Seq<SpecBind>, Seq<Seq<Frag>>), SpecQueryError>(er@),
        },
    decreases xs@, 0int,
{
    let ghost orig = xs@;
    let ghost s0 = crate::expr::views_of(orig);
    let ghost q0 = query@;
    let ghost b0 = bindings@;
    let ghost t0 = tsqueries@;
    proof {
        crate::expr::lemma_views_of(orig);
    }
    let mut rest = xs;
    let mut first = true;
    let ghost mut i: int = 0;
    while rest.len() > 0
        invariant
            0 <= i,
            i + rest@.len() == orig.len(),
            rest@ == orig.skip(i),
            first == (i == 0),
            query.wf(),
            tqs_wf(tsqueries@),
            b0.len() <= bindings@.len(),
            params_bounded(q0, b0.len()) ==> params_bounded(query@, bindings@.len()),
            tqs_bounded(tq_frags(t0), b0.len()) ==> tqs_bounded(
                tq_frags(tsqueries@),
                bindings@.len(),
            ),
            (match spec_filter_list(s0.take(i), op@, b0.len()) {
                Ok(ft) => query@ == q0 + ft.0 && bindings@ == b0 + ft.1 && tq_frags(
                    tsqueries@,
                ) == tq_frags(t0) + ft.2,
                Err(_) => false,
            }),
        decreases rest@.len(),
    {
        let e = rest.remove(0);
        proof {
            assert(orig.skip(i)[0] == orig[i]);
            assert(e == orig[i]);
            assert(decreases_to!(orig => orig[i]));
            assert(orig.skip(i).drop_first() =~= orig.skip(i + 1));
            assert(s0.take(i + 1).drop_last() =~= s0.take(i));
            assert(s0.take(i + 1).last() == crate::expr::view_of(orig[i]));
        }
        if !first {
            query.sql(" ");
            query.sql(op);
            query.sql(" ");
        }
        query.sql("(");
        match build_filter(query, bindings, tsqueries, e) {
            Err(er) => {
                proof {
                    lemma_filter_list_err(s0, op@, b0.len(), i + 1);
                }
                return Err(er);
            },
            Ok(_) => {
                query.sql(")");
                proof {
                    let ft1 = spec_filter_list(s0.take(i), op@, b0.len())->Ok_0;
                    let ft2 = spec_filter(s0[i], b0.len() + ft1.1.len())->Ok_0;
                    let sep: Seq<Frag> = if i > 0 {
                        seq![Frag::Lit(" "@), Frag::Lit(op@), Frag::Lit(" "@)]
                    } else {
                        Seq::empty()
                    };
                    assert(query@ =~= q0 + (ft1.0 + sep + seq![Frag::Lit("("@)] + ft2.0
                        + seq![Frag::Lit(")"@)]));
                    assert(bindings@ =~= b0 + (ft1.1 + ft2.1));
                    assert(tq_frags(tsqueries@) =~= tq_frags(t0) + (ft1.2 + ft2.2));
                    i = i + 1;
                }
                first = false;
            },
        }
    }
    proof {
        assert(s0.take(i) =~= s0);
    }
    Ok(())
}

/// The relevance ranking: a sum of `ts_rank` terms over every collected
/// tsquery, or `msg_timestamp` when there is none.
pub open spec fn rel_list(tqs: Seq<Seq<Frag>>) -> Seq<Frag>
    decreases tqs,
{
    if tqs.len() == 0 {
        Seq::empty()
    } else {
        let rest = rel_list(tqs.drop_last());
        let sep: Seq<Frag> = if tqs.len() > 1 {
            seq![Frag::Lit(" + "@)]
        } else {
            Seq::empty()
        };
        rest + sep + seq![Frag::Lit("ts_rank(to_tsvector('russian', msg_body), "@)]
            + tqs.last() + seq![Frag::Lit(")"@)]
    }
}

pub open spec fn spec_relevance(tqs: Seq<Seq<Frag>>) -> Seq<Frag> {
    if tqs.len() == 0 {
        seq![Frag::Lit("msg_timestamp"@)]
    } else {
        rel_list(tqs)
    }
}

#[verifier::loop_isolation(false)]
fn relevance(query: &mut QueryBuilder, tsqueries: &Vec<QueryBuilder>)
    requires
        old(query).wf(),
        tqs_wf(tsqueries@),
    ensures
        final(query).wf(),
        final(query)@ == old(query)@ + spec_relevance(tq_frags(tsqueries@)),
        forall|n: nat|
            params_bounded(old(query)@, n) && tqs_bounded(tq_frags(tsqueries@), n)
                ==> params_bounded(final(query)@, n),
{
    let ghost q0 = query@;
    let ghost tqs = tq_frags(tsqueries@);
    proof {
        lemma_tq_frags(tsqueries@);
    }
    if tsqueries.len() == 0 {
        query.sql("msg_timestamp");
        proof {
            assert(query@ =~= q0 + spec_relevance(tqs));
        }
        return ;
    }
    let mut i: usize = 0;
    while i < tsqueries.len()
        invariant
            0 <= i <= tsqueries@.len(),
            query.wf(),
            query@ == q0 + rel_list(tqs.take(i as int)),
            forall|n: nat|
                params_bounded(q0, n) && tqs_bounded(tqs, n) ==> params_bounded(query@, n),
        decreases tsqueries@.len() - i,
    {
        proof {
            assert(tqs.take(i + 1 as int).drop_last() =~= tqs.take(i as int));
            assert(tqs.take(i + 1 as int).last() == tqs[i as int]);
            assert(tqs[i as int] == tsqueries@[i as int]@);
        }
        if i > 0 {
            query.sql(" + ");
        }
        query.sql("ts_rank(to_tsvector('russian', msg_body), ");
        query.append(&tsqueries[i]);
        query.sql(")");
        proof {
            let sep: Seq<Frag> = if i > 0 {
                seq![Frag::Lit(" + "@)]
            } else {
                Seq::empty()
            };
            assert(query@ =~= q0 + (rel_list(tqs.take(i as int)) + sep + seq![
                Frag::Lit("ts_rank(to_tsvector('russian', msg_body), "@),
            ] + tqs[i as int] + seq![Frag::Lit(")"@)]));
        }
        i += 1;
    }
    proof {
        assert(tqs.take(tsqueries@.len() as int) =~= tqs);
    }
}

/// Whether the `bots` control predicate asks to exclude bot authors; its
/// only accepted arguments are `exclude` (the default) and `include`.
pub fn should_exclude_bots(value: &str) -> (r: Result<bool, QueryError>)
    ensures
        value@ == "exclude"@ ==> r == Ok::<bool, QueryError>(true),
        value@ == "include"@ ==> r == Ok::<bool, QueryError>(false),
        value@ != "exclude"@ && value@ != "include"@ ==> r == Err::<bool, QueryError>(
            QueryError::BadBotsArg,
        ),
{
    proof {
        reveal_strlit("exclude");
        reveal_strlit("include");
        assert("exclude"@.len() != "include"@.len() || "exclude"@[0] != "include"@[0]);
    }
    if crate::expr::str_eq(value, "exclude") {
        Ok(true)
    } else if crate::expr::str_eq(value, "include") {
        Ok(false)
    } else {
        Err(QueryError::BadBotsArg)
    }
}

/// A finished statement: its text and the values bound to `$1`, `$2`, ….
#[derive(Debug)]
pub struct SqlQuery {
    pub sql: String,
    pub bindings: Bindings,
}

/// The whole `SELECT` for a search, on the mathematical model.
pub open spec fn spec_search_sql(e: SpecExpr) -> Result<
    (Seq<Frag>, Seq<SpecBind>),
    SpecQueryError,
> {
    let sort = match crate::expr::spec_get_func(e, crate::expr::sort_chars()) {
        Some(v) => v,
        None => "relevance"@,
    };
    let order = match crate::expr::spec_get_func(e, crate::expr::order_chars()) {
        Some(v) => v,
        None => "desc"@,
    };
    match crate::expr::spec_normalize(e) {
        Err(er) => Err(er),
        Ok(n) => match spec_filter(n, 0) {
            Err(er) => Err(er),
            Ok(ft) => {
                if !(sort == "time"@ || sort == "relevance"@ || sort == "random"@) {
                    Err(SpecQueryError::BadSortArg)
                } else if !(order == "asc"@ || order == "desc"@) {
                    Err(SpecQueryError::BadOrderArg)
                } else {
                    let head = seq![
                        Frag::Lit(
                            "SELECT msg_id, msg_offset, msg_author, msg_body, msg_timestamp FROM messages LEFT JOIN aliases ON alias_secondary = msg_author WHERE "@,
                        ),
                    ];
                    let sort_frags = if sort == "time"@ {
                        seq![Frag::Lit("msg_timestamp"@)]
                    } else if sort == "relevance"@ {
                        spec_relevance(ft.2)
                    } else {
                        seq![Frag::Lit("RANDOM()"@)]
                    };
                    let ord_frags = if order == "asc"@ {
                        seq![Frag::Lit(" ASC"@)]
                    } else {
                        seq![Frag::Lit(" DESC"@)]
                    };
                    Ok(
                        (
                            head + ft.0 + seq![Frag::Lit(" ORDER BY "@)] + sort_frags
                                + ord_frags + seq![Frag::Lit(" LIMIT 1000"@)],
                            ft.1,
                        ),
                    )
                }
            },
        },
    }
}

/// Build the search `SELECT` for a parsed expression: normalize it, lower the
/// filter, and attach ranking, order and the result cap.  Every `$k` in the
/// emitted SQL has a binding at position `k`.
#[verifier::loop_isolation(false)]
#[verifier::rlimit(60)]
pub fn search_query(expr: Expr) -> (r: Result<SqlQuery, QueryError>)
    ensures
        match r {
            Ok(q) => (match spec_search_sql(expr@) {
                Ok(fb) => q.sql@ == frags_text(fb.0) && q.bindings@ == fb.1
                    && params_bounded(fb.0, fb.1.len()),
                Err(_) => false,
            }),
            Err(er) => spec_search_sql(expr@) == Err::<
                (Seq<Frag>, Seq<SpecBind>),
                SpecQueryError,
            >(er@),
        },
{
    proof {
        reveal_strlit("sort");
        reveal_strlit("order");
        assert("sort"@ =~= crate::expr::sort_chars());
        assert("order"@ =~= crate::expr::order_chars());
    }
    let sort: String = match expr.get_func("sort") {
        Some(s) => s.to_owned(),
        None => String::from_str("relevance"),
    };
    let order: String = match expr.get_func("order") {
        Some(s) => s.to_owned(),
        None => String::from_str("desc"),
    };
    let n = match expr.normalize() {
        Ok(n) => n,
        Err(e) => {
            return Err(e);
        },
    };
    let mut query = QueryBuilder::new();
    let mut bindings = Bindings::new();
    query.sql(
        "SELECT msg_id, msg_offset, msg_author, msg_body, msg_timestamp FROM messages LEFT JOIN aliases ON alias_secondary = msg_author WHERE ",
    );
    let ghost head = query@;
    let mut tsqueries: Vec<QueryBuilder> = Vec::new();
    match build_filter(&mut query, &mut bindings, &mut tsqueries, n) {
        Err(e) => {
            return Err(e);
        },
        Ok(_) => {},
    }
    let ghost ft = spec_filter(n@, 0)->Ok_0;
    if !(crate::expr::str_eq(sort.as_str(), "time") || crate::expr::str_eq(
        sort.as_str(),
        "relevance",
    ) || crate::expr::str_eq(sort.as_str(), "random")) {
        return Err(QueryError::BadSortArg);
    }
    if !(crate::expr::str_eq(order.as_str(), "asc") || crate::expr::str_eq(
        order.as_str(),
        "desc",
    )) {
        return Err(QueryError::BadOrderArg);
    }
    query.sql(" ORDER BY ");
    if crate::expr::str_eq(sort.as_str(), "time") {
        query.sql("msg_timestamp");
    } else if crate::expr::str_eq(sort.as_str(), "relevance") {
        relevance(&mut query, &tsqueries);
    } else {
        query.sql("RANDOM()");
    }
    if crate::expr::str_eq(order.as_str(), "asc") {
        query.sql(" ASC");
    } else {
        query.sql(" DESC");
    }
    query.sql(" LIMIT 1000");
    proof {
        let fb = spec_search_sql(expr@)->Ok_0;
        assert(query@ =~= fb.0);
        assert(bindings@ =~= fb.1);
    }
    Ok(SqlQuery { sql: query.into_sql(), bindings })
}

/// The aggregate `count` statement, on the mathematical model.
pub open spec fn spec_count_sql(e: SpecExpr, bots: Seq<Seq<char>>) -> Result<
    (Seq<Frag>, Seq<SpecBind>),
    SpecQueryError,
> {
    let bots_arg = match crate::expr::spec_get_func(e, crate::expr::bots_chars()) {
        Some(v) => v,
        None => "exclude"@,
    };
    if !(bots_arg == "exclude"@ || bots_arg == "include"@) {
        Err(SpecQueryError::BadBotsArg)
    } else {
        match crate::expr::spec_normalize(e) {
            Err(er) => Err(er),
            Ok(n) => match spec_filter(n, 0) {
                Err(er) => Err(er),
                Ok(ft) => {
                    let head = seq![
                        Frag::Lit(
                            "SELECT count(*), count(distinct msg_author), count(distinct coalesce(alias_primary, msg_author)) FROM messages LEFT JOIN aliases ON alias_secondary = msg_author WHERE "@,
                        ),
                    ];
                    if bots_arg == "exclude"@ {
                        Ok(
                            (
                                head + ft.0 + seq![
                                    Frag::Lit(" AND msg_author != ALL("@),
                                    Frag::Param(ft.1.len() + 1),
                                    Frag::Lit(")"@),
                                ],
                                ft.1 + seq![SpecBind::StrList(bots)],
                            ),
                        )
                    } else {
                        Ok((head + ft.0, ft.1))
                    }
                },
            },
        }
    }
}

/// Build the aggregate count statement: total rows, distinct raw authors and
/// distinct canonical authors under the same filter, optionally excluding
/// the given bot authors.
#[verifier::loop_isolation(false)]
pub fn count_query(bot_list: Vec<String>, expr: Expr) -> (r: Result<SqlQuery, QueryError>)
    ensures
        match r {
            Ok(q) => (match spec_count_sql(expr@, bot_list.deep_view()) {
                Ok(fb) => q.sql@ == frags_text(fb.0) && q.bindings@ == fb.1
                    && params_bounded(fb.0, fb.1.len()),
                Err(_) => false,
            }),
            Err(er) => spec_count_sql(expr@, bot_list.deep_view()) == Err::<
                (Seq<Frag>, Seq<SpecBind>),
                SpecQueryError,
            >(er@),
        },
{
    proof {
        reveal_strlit("bots");
        assert("bots"@ =~= crate::expr::bots_chars());
    }
    let bots_arg: String = match expr.get_func("bots") {
        Some(s) => s.to_owned(),
        None => String::from_str("exclude"),
    };
    let exclude = match should_exclude_bots(bots_arg.as_str()) {
        Ok(b) => b,
        Err(e) => {
            return Err(e);
        },
    };
    let n = match expr.normalize() {
        Ok(n) => n,
        Err(e) => {
            return Err(e);
        },
    };
    let mut query = QueryBuilder::new();
    let mut bindings = Bindings::new();
    query.sql(
        "SELECT count(*), count(distinct msg_author), count(distinct coalesce(alias_primary, msg_author)) FROM messages LEFT JOIN aliases ON alias_secondary = msg_author WHERE ",
    );
    let mut tsqueries: Vec<QueryBuilder> = Vec::new();
    match build_filter(&mut query, &mut bindings, &mut tsqueries, n) {
        Err(e) => {
            return Err(e);
        },
        Ok(_) => {},
    }
    if exclude {
        query.sql(" AND msg_author != ALL(");
        query.binding(&mut bindings, BindValue::StrList(bot_list));
        query.sql(")");
    }
    proof {
        let fb = spec_count_sql(expr@, bot_list.deep_view())->Ok_0;
        assert(query@ =~= fb.0);
        assert(bindings@ =~= fb.1);
    }
    Ok(SqlQuery { sql: query.into_sql(), bindings })
}

/// The `top authors` statement, on the mathematical model.
pub open spec fn spec_top_sql(e: SpecExpr, bots: Seq<Seq<char>>) -> Result<
    (Seq<Frag>, Seq<SpecBind>),
    SpecQueryError,
> {
    let bots_arg = match crate::expr::spec_get_func(e, crate::expr::bots_chars()) {
        Some(v) => v,
        None => "exclude"@,
    };
    if !(bots_arg == "exclude"@ || bots_arg == "include"@) {
        Err(SpecQueryError::BadBotsArg)
    } else {
        match crate::expr::spec_normalize(e) {
            Err(er) => Err(er),
            Ok(n) => match spec_filter(n, 0) {
                Err(er) => Err(er),
                Ok(ft) => {
                    let head = seq![
                        Frag::Lit(
                            "SELECT coalesce(alias_primary, msg_author) as author, count(msg_body) FROM messages LEFT JOIN aliases ON alias_secondary = msg_author WHERE "@,
                        ),
                    ];
                    let tail = seq![
                        Frag::Lit("  GROUP BY author ORDER BY count(msg_body) DESC LIMIT 6"@),
                    ];
                    if bots_arg == "exclude"@ {
                        Ok(
                            (
                                head + ft.0 + seq![
                                    Frag::Lit(" AND msg_author != ALL("@),
                                    Frag::Param(ft.1.len() + 1),
                                    Frag::Lit(")"@),
                                ] + tail,
                                ft.1 + seq![SpecBind::StrList(bots)],
                            ),
                        )
                    } else {
                        Ok((head + ft.0 + tail, ft.1))
                    }
                },
            },
        }
    }
}

/// Build the top-authors statement: the six most frequent canonical authors
/// under the same filter, optionally excluding the given bot authors.
#[verifier::loop_isolation(false)]
pub fn top_query(bot_list: Vec<String>, expr: Expr) -> (r: Result<SqlQuery, QueryError>)
    ensures
        match r {
            Ok(q) => (match spec_top_sql(expr@, bot_list.deep_view()) {
                Ok(fb) => q.sql@ == frags_text(fb.0) && q.bindings@ == fb.1
                    && params_bounded(fb.0, fb.1.len()),
                Err(_) => false,
            }),
            Err(er) => spec_top_sql(expr@, bot_list.deep_view()) == Err::<
                (Seq<Frag>, Seq<SpecBind>),
                SpecQueryError,
            >(er@),
        },
{
    proof {
        reveal_strlit("bots");
        assert("bots"@ =~= crate::expr::bots_chars());
    }
    let bots_arg: String = match expr.get_func("bots") {
        Some(s) => s.to_owned(),
        None => String::from_str("exclude"),
    };
    let exclude = match should_exclude_bots(bots_arg.as_str()) {
        Ok(b) => b,
        Err(e) => {
            return Err(e);
        },
    };
    let n = match expr.normalize() {
        Ok(n) => n,
        Err(e) => {
            return Err(e);
        },
    };
    let mut query = QueryBuilder::new();
    let mut bindings = Bindings::new();
    query.sql(
        "SELECT coalesce(alias_primary, msg_author) as author, count(msg_body) FROM messages LEFT JOIN aliases ON alias_secondary = msg_author WHERE ",
    );
    let mut tsqueries: Vec<QueryBuilder> = Vec::new();
    match build_filter(&mut query, &mut bindings, &mut tsqueries, n) {
        Err(e) => {
            return Err(e);
        },
        Ok(_) => {},
    }
    if exclude {
        query.sql(" AND msg_author != ALL(");
        query.binding(&mut bindings, BindValue::StrList(bot_list));
        query.sql(")");
    }
    query.sql("  GROUP BY author ORDER BY count(msg_body) DESC LIMIT 6");
    proof {
        let fb = spec_top_sql(expr@, bot_list.deep_view())->Ok_0;
        assert(query@ =~= fb.0);
        assert(bindings@ =~= fb.1);
    }
    Ok(SqlQuery { sql: query.into_sql(), bindings })
}

/// Dispatch a named predicate: append its boolean SQL fragment and bindings.
/// On an error nothing is appended.
pub fn handle(
    query: &mut QueryBuilder,
    bindings: &mut Bindings,
    key: String,
    value: String,
) -> (r: Result<(), QueryError>)
    requires
        old(query).wf(),
    ensures
        final(query).wf(),
        match r {
            Ok(_) => match spec_func_sql(key@, value@, old(bindings)@.len()) {
                Ok(fb) => final(query)@ == old(query)@ + fb.0 && final(bindings)@ == old(
                    bindings,
                )@ + fb.1,
                Err(_) => false,
            },
            Err(e) => spec_func_sql(key@, value@, old(bindings)@.len()) == Err::<
                (Seq<Frag>, Seq<SpecBind>),
                SpecQueryError,
            >(e@) && final(query)@ == old(query)@ && final(bindings)@ == old(bindings)@,
        },
        old(bindings)@.len() <= final(bindings)@.len(),
        params_bounded(old(query)@, old(bindings)@.len()) ==> params_bounded(
            final(query)@,
            final(bindings)@.len(),
        ),
{
    let ghost q0 = query@;
    let ghost b0 = bindings@;
    let lk = ascii_lower_str(key.as_str());
    if crate::expr::str_eq(lk.as_str(), "author") {
        let id = query.binding_id(bindings, BindValue::Str(value));
        query.sql("msg_author = ");
        query.param_ref(bindings, id);
        query.sql(
            " OR msg_author = (SELECT coalesce((SELECT alias_primary FROM aliases WHERE alias_secondary = ",
        );
        query.param_ref(bindings, id);
        query.sql("), ");
        query.param_ref(bindings, id);
        query.sql(
            ")) OR msg_author IN (SELECT alias_secondary FROM aliases WHERE alias_primary = (SELECT coalesce((SELECT alias_primary FROM aliases WHERE alias_secondary = ",
        );
        query.param_ref(bindings, id);
        query.sql("), ");
        query.param_ref(bindings, id);
        query.sql(")))");
        proof {
            assert(query@ =~= q0 + spec_func_sql(key@, value@, b0.len())->Ok_0.0);
            assert(bindings@ =~= b0 + spec_func_sql(key@, value@, b0.len())->Ok_0.1);
        }
        Ok(())
    } else if crate::expr::str_eq(lk.as_str(), "raw") {
        query.sql("msg_author = ");
        query.binding(bindings, BindValue::Str(value));
        proof {
            assert(query@ =~= q0 + spec_func_sql(key@, value@, b0.len())->Ok_0.0);
            assert(bindings@ =~= b0 + spec_func_sql(key@, value@, b0.len())->Ok_0.1);
        }
        Ok(())
    } else if crate::expr::str_eq(lk.as_str(), "channel") {
        query.sql("msg_channel = ");
        query.binding(bindings, BindValue::Str(value));
        proof {
            assert(query@ =~= q0 + spec_func_sql(key@, value@, b0.len())->Ok_0.0);
            assert(bindings@ =~= b0 + spec_func_sql(key@, value@, b0.len())->Ok_0.1);
        }
        Ok(())
    } else if crate::expr::str_eq(lk.as_str(), "contains") {
        let mut pat = String::from_str("%");
        let esc = escape_like_exec(value.as_str());
        pat.append(esc.as_str());
        pat.append("%");
        proof {
            reveal_strlit("%");
            assert(pat@ =~= seq!['%'] + escape_like(value@) + seq!['%']);
        }
        query.sql("msg_body LIKE ");
        query.binding(bindings, BindValue::Str(pat));
        proof {
            assert(query@ =~= q0 + spec_func_sql(key@, value@, b0.len())->Ok_0.0);
            assert(bindings@ =~= b0 + spec_func_sql(key@, value@, b0.len())->Ok_0.1);
        }
        Ok(())
    } else if crate::expr::str_eq(lk.as_str(), "icontains") {
        let mut pat = String::from_str("%");
        let esc = escape_like_exec(value.as_str());
        pat.append(esc.as_str());
        pat.append("%");
        proof {
            reveal_strlit("%");
            assert(pat@ =~= seq!['%'] + escape_like(value@) + seq!['%']);
        }
        query.sql("msg_body ILIKE ");
        query.binding(bindings, BindValue::Str(pat));
        proof {
            assert(query@ =~= q0 + spec_func_sql(key@, value@, b0.len())->Ok_0.0);
            assert(bindings@ =~= b0 + spec_func_sql(key@, value@, b0.len())->Ok_0.1);
        }
        Ok(())
    } else if crate::expr::str_eq(lk.as_str(), "like") {
        query.sql("msg_body LIKE ");
        query.binding(bindings, BindValue::Str(value));
        proof {
            assert(query@ =~= q0 + spec_func_sql(key@, value@, b0.len())->Ok_0.0);
            assert(bindings@ =~= b0 + spec_func_sql(key@, value@, b0.len())->Ok_0.1);
        }
        Ok(())
    } else if crate::expr::str_eq(lk.as_str(), "ilike") {
        query.sql("msg_body ILIKE ");
        query.binding(bindings, BindValue::Str(value));
        proof {
            assert(query@ =~= q0 + spec_func_sql(key@, value@, b0.len())->Ok_0.0);
            assert(bindings@ =~= b0 + spec_func_sql(key@, value@, b0.len())->Ok_0.1);
        }
        Ok(())
    } else if crate::expr::str_eq(lk.as_str(), "regex") {
        query.sql("msg_body ~ ");
        query.binding(bindings, BindValue::Str(value));
        proof {
            assert(query@ =~= q0 + spec_func_sql(key@, value@, b0.len())->Ok_0.0);
            assert(bindings@ =~= b0 + spec_func_sql(key@, value@, b0.len())->Ok_0.1);
        }
        Ok(())
    } else if crate::expr::str_eq(lk.as_str(), "iregex") {
        query.sql("msg_body ~* ");
        query.binding(bindings, BindValue::Str(value));
        proof {
            assert(query@ =~= q0 + spec_func_sql(key@, value@, b0.len())->Ok_0.0);
            assert(bindings@ =~= b0 + spec_func_sql(key@, value@, b0.len())->Ok_0.1);
        }
        Ok(())
    } else if crate::expr::str_eq(lk.as_str(), "similarto") {
        query.sql("msg_body SIMILAR TO ");
        query.binding(bindings, BindValue::Str(value));
        proof {
            assert(query@ =~= q0 + spec_func_sql(key@, value@, b0.len())->Ok_0.0);
            assert(bindings@ =~= b0 + spec_func_sql(key@, value@, b0.len())->Ok_0.1);
        }
        Ok(())
    } else if crate::expr::str_eq(lk.as_str(), "date") {
        let rest = match find_oper(value.as_str()) {
            Some(k) => value.as_str().substring_char(
                if k <= 2 {
                    2
                } else {
                    1
                },
                value.as_str().unicode_len(),
            ),
            None => value.as_str(),
        };
        proof {
            match oper_index(value@) {
                Some(k) => {
                    assert(rest@ =~= value@.skip(oper_len(k)));
                },
                None => {},
            }
        }
        match parse_chrono_date(rest) {
            None => Err(QueryError::InvalidDate),
            Some(d) => {
                let day = Date { year: d.0, month: d.1, day: d.2 };
                match find_oper(value.as_str()) {
                    Some(k) => {
                        query.sql("msg_timestamp::date ");
                        query.sql(oper_str(k));
                        query.binding(bindings, BindValue::Day(day));
                    },
                    None => {
                        query.sql("msg_timestamp::date =");
                        query.binding(bindings, BindValue::Day(day));
                    },
                }
                proof {
                    assert(query@ =~= q0 + spec_func_sql(key@, value@, b0.len())->Ok_0.0);
                    assert(bindings@ =~= b0 + spec_func_sql(key@, value@, b0.len())->Ok_0.1);
                }
                Ok(())
            },
        }
    } else if crate::expr::str_eq(lk.as_str(), "time") {
        let rest = match find_oper(value.as_str()) {
            Some(k) => value.as_str().substring_char(
                if k <= 2 {
                    2
                } else {
                    1
                },
                value.as_str().unicode_len(),
            ),
            None => value.as_str(),
        };
        proof {
            match oper_index(value@) {
                Some(k) => {
                    assert(rest@ =~= value@.skip(oper_len(k)));
                },
                None => {},
            }
        }
        match parse_chrono_time(rest) {
            None => Err(QueryError::InvalidTime),
            Some(t) => {
                let clock = Time { hour: t.0, minute: t.1, second: t.2, nanosecond: t.3 };
                match find_oper(value.as_str()) {
                    Some(k) => {
                        query.sql("msg_timestamp::time ");
                        query.sql(oper_str(k));
                        query.binding(bindings, BindValue::Clock(clock));
                    },
                    None => {
                        query.sql("msg_timestamp::time =");
                        query.binding(bindings, BindValue::Clock(clock));
                    },
                }
                proof {
                    assert(query@ =~= q0 + spec_func_sql(key@, value@, b0.len())->Ok_0.0);
                    assert(bindings@ =~= b0 + spec_func_sql(key@, value@, b0.len())->Ok_0.1);
                }
                Ok(())
            },
        }
    } else if crate::expr::str_eq(lk.as_str(), "datetime") {
        let rest = match find_oper(value.as_str()) {
            Some(k) => value.as_str().substring_char(
                if k <= 2 {
                    2
                } else {
                    1
                },
                value.as_str().unicode_len(),
            ),
            None => value.as_str(),
        };
        proof {
            match oper_index(value@) {
                Some(k) => {
                    assert(rest@ =~= value@.skip(oper_len(k)));
                },
                None => {},
            }
        }
        match parse_chrono_datetime(rest) {
            None => Err(QueryError::InvalidDatetime),
            Some(dt) => {
                let stamp = Stamp {
                    date: Date { year: dt.0, month: dt.1, day: dt.2 },
                    time: Time { hour: dt.3, minute: dt.4, second: dt.5, nanosecond: 0 },
                };
                match find_oper(value.as_str()) {
                    Some(k) => {
                        query.sql("msg_timestamp ");
                        query.sql(oper_str(k));
                        query.binding(bindings, BindValue::Moment(stamp));
                    },
                    None => {
                        query.sql("msg_timestamp =");
                        query.binding(bindings, BindValue::Moment(stamp));
                    },
                }
                proof {
                    assert(query@ =~= q0 + spec_func_sql(key@, value@, b0.len())->Ok_0.0);
                    assert(bindings@ =~= b0 + spec_func_sql(key@, value@, b0.len())->Ok_0.1);
                }
                Ok(())
            },
        }
    } else if crate::expr::str_eq(lk.as_str(), "length") {
        let rest = match find_oper(value.as_str()) {
            Some(k) => value.as_str().substring_char(
                if k <= 2 {
                    2
                } else {
                    1
                },
                value.as_str().unicode_len(),
            ),
            None => value.as_str(),
        };
        proof {
            match oper_index(value@) {
                Some(k) => {
                    assert(rest@ =~= value@.skip(oper_len(k)));
                },
                None => {},
            }
        }
        match parse_i32(rest) {
            None => Err(QueryError::InvalidInteger),
            Some(v) => {
                match find_oper(value.as_str()) {
                    Some(k) => {
                        query.sql("char_length(msg_body) ");
                        query.sql(oper_str(k));
                        query.binding(bindings, BindValue::Int(v));
                    },
                    None => {
                        query.sql("char_length(msg_body) =");
                        query.binding(bindings, BindValue::Int(v));
                    },
                }
                proof {
                    assert(query@ =~= q0 + spec_func_sql(key@, value@, b0.len())->Ok_0.0);
                    assert(bindings@ =~= b0 + spec_func_sql(key@, value@, b0.len())->Ok_0.1);
                }
                Ok(())
            },
        }
    } else {
        Err(QueryError::UnknownFunction(key))
    }
}

} // verus!
