use vstd::prelude::*;
use vstd::string::StrSliceExecFns;

use crate::QueryError;
use crate::SpecQueryError;

verus! {

/// The reserved control predicate names, as character sequences.
pub open spec fn sort_chars() -> Seq<char> {
    seq!['s', 'o', 'r', 't']
}

pub open spec fn order_chars() -> Seq<char> {
    seq!['o', 'r', 'd', 'e', 'r']
}

pub open spec fn bots_chars() -> Seq<char> {
    seq!['b', 'o', 't', 's']
}

/// Ghost mirror of `Expr`: junction children are mathematical sequences and
/// text is a sequence of characters.  All contracts of the query pipeline are
/// stated over this model.
pub enum SpecExpr {
    Not(Box<SpecExpr>),
    Then(Seq<SpecExpr>),
    And(Seq<SpecExpr>),
    Or(Seq<SpecExpr>),
    Func(Seq<char>, Seq<char>),
    Phrase(Seq<char>),
    True,
    False,
    Empty,
}

/// A search expression: phrases to match against message bodies, named
/// attribute predicates, and boolean structure.  `Then` is ordered phrase
/// adjacency; `Empty` is the neutral element of both `And` and `Or`, while
/// `True` and `False` arise from algebraic reduction.
#[derive(Debug, PartialEq, Eq)]
pub enum Expr {
    Not(Box<Expr>),
    Then(Vec<Expr>),
    And(Vec<Expr>),
    Or(Vec<Expr>),
    Func(String, String),
    Phrase(String),
    True,
    False,
    Empty,
}

pub open spec fn view_of(e: Expr) -> SpecExpr
    decreases e,
{
    match e {
        Expr::Not(inner) => SpecExpr::Not(Box::new(view_of(*inner))),
        Expr::Then(exprs) => SpecExpr::Then(views_of(exprs@)),
        Expr::And(exprs) => SpecExpr::And(views_of(exprs@)),
        Expr::Or(exprs) => SpecExpr::Or(views_of(exprs@)),
        Expr::Func(k, v) => SpecExpr::Func(k@, v@),
        Expr::Phrase(p) => SpecExpr::Phrase(p@),
        Expr::True => SpecExpr::True,
        Expr::False => SpecExpr::False,
        Expr::Empty => SpecExpr::Empty,
    }
}

pub open spec fn views_of(s: Seq<Expr>) -> Seq<SpecExpr>
    decreases s,
{
    if s.len() == 0 {
        Seq::empty()
    } else {
        views_of(s.drop_last()).push(view_of(s.last()))
    }
}

impl View for Expr {
    type V = SpecExpr;

    open spec fn view(&self) -> SpecExpr {
        view_of(*self)
    }
}

pub broadcast proof fn lemma_views_of(s: Seq<Expr>)
    ensures
        (#[trigger] views_of(s)).len() == s.len(),
        forall|i: int| 0 <= i < s.len() ==> views_of(s)[i] == view_of(s[i]),
    decreases s,
{
    if s.len() > 0 {
        lemma_views_of(s.drop_last());
    }
}

/// Whether any `Phrase` occurs anywhere in the tree.
pub open spec fn spec_has_phrases(e: SpecExpr) -> bool
    decreases e,
{
    match e {
        SpecExpr::Phrase(_) => true,
        SpecExpr::Not(inner) => spec_has_phrases(*inner),
        SpecExpr::Then(s) => seq_has_phrases(s),
        SpecExpr::And(s) => seq_has_phrases(s),
        SpecExpr::Or(s) => seq_has_phrases(s),
        _ => false,
    }
}

pub open spec fn seq_has_phrases(s: Seq<SpecExpr>) -> bool
    decreases s,
{
    if s.len() == 0 {
        false
    } else {
        seq_has_phrases(s.drop_last()) || spec_has_phrases(s.last())
    }
}

pub proof fn lemma_seq_has_phrases_elem(s: Seq<SpecExpr>, i: int)
    requires
        0 <= i < s.len(),
        spec_has_phrases(s[i]),
    ensures
        seq_has_phrases(s),
    decreases s,
{
    if i < s.len() - 1 {
        lemma_seq_has_phrases_elem(s.drop_last(), i);
    }
}

/// Whether any `Func` occurs anywhere in the tree.
pub open spec fn spec_has_funcs(e: SpecExpr) -> bool
    decreases e,
{
    match e {
        SpecExpr::Func(_, _) => true,
        SpecExpr::Not(inner) => spec_has_funcs(*inner),
        SpecExpr::Then(s) => seq_has_funcs(s),
        SpecExpr::And(s) => seq_has_funcs(s),
        SpecExpr::Or(s) => seq_has_funcs(s),
        _ => false,
    }
}

pub open spec fn seq_has_funcs(s: Seq<SpecExpr>) -> bool
    decreases s,
{
    if s.len() == 0 {
        false
    } else {
        seq_has_funcs(s.drop_last()) || spec_has_funcs(s.last())
    }
}

pub proof fn lemma_seq_has_funcs_elem(s: Seq<SpecExpr>, i: int)
    requires
        0 <= i < s.len(),
        spec_has_funcs(s[i]),
    ensures
        seq_has_funcs(s),
    decreases s,
{
    if i < s.len() - 1 {
        lemma_seq_has_funcs_elem(s.drop_last(), i);
    }
}

/// The value of the named predicate, looked up at the root or in a top-level
/// `And`: the first child that carries it wins.
pub open spec fn spec_get_func(e: SpecExpr, key: Seq<char>) -> Option<Seq<char>>
    decreases e,
{
    match e {
        SpecExpr::Func(k, v) => if k == key {
            Some(v)
        } else {
            None
        },
        SpecExpr::And(s) => seq_get_func(s, key),
        _ => None,
    }
}

pub open spec fn seq_get_func(s: Seq<SpecExpr>, key: Seq<char>) -> Option<Seq<char>>
    decreases s,
{
    if s.len() == 0 {
        None
    } else if spec_get_func(s[0], key) is Some {
        spec_get_func(s[0], key)
    } else {
        seq_get_func(s.drop_first(), key)
    }
}

/// Negation-normal form with an explicit polarity: `pos == false` means the
/// node sits under an odd number of negations.  De Morgan's laws drive the
/// negation down to the leaves; an atom keeps a single `Not` wrapper; a
/// negated `Then` keeps its wrapper untouched, as adjacency has no dual.
pub open spec fn spec_nnf(e: SpecExpr, pos: bool) -> SpecExpr
    decreases e,
{
    match e {
        SpecExpr::Not(inner) => spec_nnf(*inner, !pos),
        SpecExpr::And(xs) => if pos {
            SpecExpr::And(seq_nnf(xs, true))
        } else {
            SpecExpr::Or(seq_nnf(xs, false))
        },
        SpecExpr::Or(xs) => if pos {
            SpecExpr::Or(seq_nnf(xs, true))
        } else {
            SpecExpr::And(seq_nnf(xs, false))
        },
        SpecExpr::Then(xs) => if pos {
            SpecExpr::Then(seq_nnf(xs, true))
        } else {
            SpecExpr::Not(Box::new(SpecExpr::Then(xs)))
        },
        _ => if pos {
            e
        } else {
            SpecExpr::Not(Box::new(e))
        },
    }
}

pub open spec fn seq_nnf(s: Seq<SpecExpr>, pos: bool) -> Seq<SpecExpr>
    decreases s,
{
    if s.len() == 0 {
        Seq::empty()
    } else {
        seq_nnf(s.drop_last(), pos).push(spec_nnf(s.last(), pos))
    }
}

pub open spec fn spec_to_nnf(e: SpecExpr) -> SpecExpr {
    spec_nnf(e, true)
}

/// Negation wraps only leaves (`Phrase`, `Func` or a constant).
pub open spec fn nnf_shape(e: SpecExpr) -> bool
    decreases e,
{
    match e {
        SpecExpr::Not(inner) => !(*inner is Not || *inner is And || *inner is Or || *inner
            is Then),
        SpecExpr::Then(s) => seq_nnf_shape(s),
        SpecExpr::And(s) => seq_nnf_shape(s),
        SpecExpr::Or(s) => seq_nnf_shape(s),
        _ => true,
    }
}

pub open spec fn seq_nnf_shape(s: Seq<SpecExpr>) -> bool
    decreases s,
{
    if s.len() == 0 {
        true
    } else {
        seq_nnf_shape(s.drop_last()) && nnf_shape(s.last())
    }
}

/// Law (one step of normalization idempotence): `to_nnf` is a no-op on any
/// tree already in negation-normal form — in particular on its own output.
pub proof fn lemma_to_nnf_fixed(e: SpecExpr)
    requires
        nnf_shape(e),
    ensures
        spec_to_nnf(e) == e,
{
    lemma_nnf_fixed_rec(e);
}

proof fn lemma_nnf_fixed_rec(e: SpecExpr)
    requires
        nnf_shape(e),
    ensures
        spec_nnf(e, true) == e,
    decreases e,
{
    match e {
        SpecExpr::Not(inner) => {
            assert(spec_nnf(e, true) == spec_nnf(*inner, false));
        },
        SpecExpr::Then(xs) => {
            lemma_seq_nnf_fixed_rec(xs);
        },
        SpecExpr::And(xs) => {
            lemma_seq_nnf_fixed_rec(xs);
        },
        SpecExpr::Or(xs) => {
            lemma_seq_nnf_fixed_rec(xs);
        },
        _ => {},
    }
}

proof fn lemma_seq_nnf_fixed_rec(s: Seq<SpecExpr>)
    requires
        seq_nnf_shape(s),
    ensures
        seq_nnf(s, true) == s,
    decreases s,
{
    if s.len() > 0 {
        lemma_seq_nnf_fixed_rec(s.drop_last());
        lemma_nnf_fixed_rec(s.last());
        assert(seq_nnf(s, true) =~= s);
    }
}

/// No `Then` is reachable in negative position (under an odd number of
/// negations), and none hides inside a `Then` child that could later be
/// negated.
pub open spec fn no_neg_then(e: SpecExpr, pos: bool) -> bool
    decreases e,
{
    match e {
        SpecExpr::Not(inner) => no_neg_then(*inner, !pos),
        SpecExpr::Then(s) => pos && seq_no_neg_then(s, true),
        SpecExpr::And(s) => seq_no_neg_then(s, pos),
        SpecExpr::Or(s) => seq_no_neg_then(s, pos),
        _ => true,
    }
}

pub open spec fn seq_no_neg_then(s: Seq<SpecExpr>, pos: bool) -> bool
    decreases s,
{
    if s.len() == 0 {
        true
    } else {
        seq_no_neg_then(s.drop_last(), pos) && no_neg_then(s.last(), pos)
    }
}

/// Law: `to_nnf` pushes negation to the leaves.  For every expression whose
/// `Then` nodes sit only in positive position, the result of `to_nnf` carries
/// `Not` only on leaves.  (A negated `Then` keeps its negation wrapper, so
/// such inputs are excluded.)
pub proof fn lemma_to_nnf_shape(e: SpecExpr)
    requires
        no_neg_then(e, true),
    ensures
        nnf_shape(spec_to_nnf(e)),
{
    lemma_nnf_shape_rec(e, true);
}

proof fn lemma_nnf_shape_rec(e: SpecExpr, pos: bool)
    requires
        no_neg_then(e, pos),
    ensures
        nnf_shape(spec_nnf(e, pos)),
    decreases e,
{
    match e {
        SpecExpr::Not(inner) => {
            lemma_nnf_shape_rec(*inner, !pos);
        },
        SpecExpr::And(xs) => {
            lemma_seq_nnf_shape_rec(xs, pos);
        },
        SpecExpr::Or(xs) => {
            lemma_seq_nnf_shape_rec(xs, pos);
        },
        SpecExpr::Then(xs) => {
            if pos {
                lemma_seq_nnf_shape_rec(xs, true);
            }
        },
        _ => {},
    }
}

proof fn lemma_seq_nnf_shape_rec(s: Seq<SpecExpr>, pos: bool)
    requires
        seq_no_neg_then(s, pos),
    ensures
        seq_nnf_shape(seq_nnf(s, pos)),
    decreases s,
{
    if s.len() > 0 {
        lemma_seq_nnf_shape_rec(s.drop_last(), pos);
        lemma_nnf_shape_rec(s.last(), pos);
        assert(seq_nnf(s, pos).drop_last() =~= seq_nnf(s.drop_last(), pos));
    }
}

/// Three-way lexicographic comparison of character sequences by code point.
pub open spec fn str_cmp(a: Seq<char>, b: Seq<char>) -> int
    decreases a.len(),
{
    if a.len() == 0 && b.len() == 0 {
        0
    } else if a.len() == 0 {
        -1
    } else if b.len() == 0 {
        1
    } else if (a[0] as u32) < (b[0] as u32) {
        -1
    } else if (a[0] as u32) > (b[0] as u32) {
        1
    } else {
        str_cmp(a.drop_first(), b.drop_first())
    }
}

/// Rank of the outer constructor; the primary key of the total order used to
/// sort junction children.
pub open spec fn rank(e: SpecExpr) -> int {
    match e {
        SpecExpr::Not(_) => 0,
        SpecExpr::Then(_) => 1,
        SpecExpr::And(_) => 2,
        SpecExpr::Or(_) => 3,
        SpecExpr::Func(_, _) => 4,
        SpecExpr::Phrase(_) => 5,
        SpecExpr::True => 6,
        SpecExpr::False => 7,
        SpecExpr::Empty => 8,
    }
}

/// Three-way structural comparison: constructor rank first, then contents.
pub open spec fn ecmp(a: SpecExpr, b: SpecExpr) -> int
    decreases a,
{
    if rank(a) != rank(b) {
        if rank(a) < rank(b) {
            -1
        } else {
            1
        }
    } else {
        match (a, b) {
            (SpecExpr::Not(x), SpecExpr::Not(y)) => ecmp(*x, *y),
            (SpecExpr::Then(x), SpecExpr::Then(y)) => seq_ecmp(x, y),
            (SpecExpr::And(x), SpecExpr::And(y)) => seq_ecmp(x, y),
            (SpecExpr::Or(x), SpecExpr::Or(y)) => seq_ecmp(x, y),
            (SpecExpr::Func(k1, v1), SpecExpr::Func(k2, v2)) => if str_cmp(k1, k2) != 0 {
                str_cmp(k1, k2)
            } else {
                str_cmp(v1, v2)
            },
            (SpecExpr::Phrase(x), SpecExpr::Phrase(y)) => str_cmp(x, y),
            _ => 0,
        }
    }
}

pub open spec fn seq_ecmp(x: Seq<SpecExpr>, y: Seq<SpecExpr>) -> int
    decreases x,
{
    if x.len() == 0 && y.len() == 0 {
        0
    } else if x.len() == 0 {
        -1
    } else if y.len() == 0 {
        1
    } else if ecmp(x[0], y[0]) != 0 {
        ecmp(x[0], y[0])
    } else {
        seq_ecmp(x.drop_first(), y.drop_first())
    }
}

/// Quote a string for the printer: wrap in double quotes, escaping `\` and
/// `"`.
#[verifier::loop_isolation(false)]
pub fn quote_exec(s: &str) -> (r: String)
    ensures
        r@ == quoted(s@),
{
    let n = s.unicode_len();
    let mut out = String::from_str("\"");
    proof {
        reveal_strlit("\"");
        assert(out@ =~= seq!['"'] + esc_quotes(s@.take(0)));
    }
    let mut i: usize = 0;
    while i < n
        invariant
            0 <= i <= n,
            n == s@.len(),
            out@ == seq!['"'] + esc_quotes(s@.take(i as int)),
        decreases n - i,
    {
        let ghost out_prev = out@;
        let c = s.get_char(i);
        proof {
            assert(s@.take(i + 1 as int).drop_last() =~= s@.take(i as int));
            assert(s@.take(i + 1 as int).last() == s@[i as int]);
        }
        if c == '\\' {
            crate::parser::push_string_char(&mut out, '\\');
            crate::parser::push_string_char(&mut out, '\\');
            proof {
                assert(out@ =~= out_prev + seq!['\\', '\\']);
            }
        } else if c == '"' {
            crate::parser::push_string_char(&mut out, '\\');
            crate::parser::push_string_char(&mut out, '"');
            proof {
                assert(out@ =~= out_prev + seq!['\\', '"']);
            }
        } else {
            crate::parser::push_string_char(&mut out, c);
            proof {
                assert(out@ =~= out_prev + seq![c]);
            }
        }
        i += 1;
    }
    crate::parser::push_string_char(&mut out, '"');
    proof {
        assert(s@.take(n as int) =~= s@);
        assert(out@ =~= quoted(s@));
    }
    out
}

/// Character-by-character string equality, so that contracts can speak of
/// view equality without relying on derived impls.
pub fn str_eq(a: &str, b: &str) -> (r: bool)
    ensures
        r == (a@ == b@),
{
    let alen = a.unicode_len();
    let blen = b.unicode_len();
    if alen != blen {
        return false;
    }
    let mut i: usize = 0;
    while i < alen
        invariant
            alen == a@.len(),
            blen == b@.len(),
            alen == blen,
            0 <= i <= alen,
            forall|j: int| 0 <= j < i ==> a@[j] == b@[j],
        decreases alen - i,
    {
        if a.get_char(i) != b.get_char(i) {
            return false;
        }
        i += 1;
    }
    proof {
        assert(a@ =~= b@);
    }
    true
}

/// Splice the children of nested junctions of the same kind one level up:
/// for `and_mode`, a child `And(ys)` contributes `ys` in place, any other
/// child contributes itself; dually for `Or`.
pub open spec fn splice_juncts(s: Seq<SpecExpr>, and_mode: bool) -> Seq<SpecExpr>
    decreases s,
{
    if s.len() == 0 {
        Seq::empty()
    } else {
        let rest = splice_juncts(s.drop_last(), and_mode);
        let last = s.last();
        if and_mode && last is And {
            rest + last->And_0
        } else if !and_mode && last is Or {
            rest + last->Or_0
        } else {
            rest.push(last)
        }
    }
}

/// Drop the neutral constants of the junction: `True` (for `And`) or `False`
/// (for `Or`), and `Empty` for both.
pub open spec fn drop_units(s: Seq<SpecExpr>, and_mode: bool) -> Seq<SpecExpr>
    decreases s,
{
    if s.len() == 0 {
        Seq::empty()
    } else {
        let rest = drop_units(s.drop_last(), and_mode);
        let last = s.last();
        let unit = if and_mode {
            SpecExpr::True
        } else {
            SpecExpr::False
        };
        if last == unit || last == SpecExpr::Empty {
            rest
        } else {
            rest.push(last)
        }
    }
}

/// Non-strictly sorted under the structural order, adjacent pairs.
pub open spec fn sorted_by_ecmp(s: Seq<SpecExpr>) -> bool {
    forall|i: int| 0 <= i < s.len() - 1 ==> ecmp(#[trigger] s[i], s[i + 1]) <= 0
}

pub proof fn lemma_str_cmp_antisym(a: Seq<char>, b: Seq<char>)
    ensures
        str_cmp(a, b) == -str_cmp(b, a),
    decreases a.len(),
{
    if a.len() > 0 && b.len() > 0 && !((a[0] as u32) < (b[0] as u32)) && !((a[0] as u32) > (
    b[0] as u32)) {
        lemma_str_cmp_antisym(a.drop_first(), b.drop_first());
    }
}

pub proof fn lemma_str_cmp_trans(a: Seq<char>, b: Seq<char>, c: Seq<char>)
    requires
        str_cmp(a, b) <= 0,
        str_cmp(b, c) <= 0,
    ensures
        str_cmp(a, c) <= 0,
        str_cmp(a, b) < 0 || str_cmp(b, c) < 0 ==> str_cmp(a, c) < 0,
    decreases a.len(),
{
    if a.len() > 0 && b.len() > 0 && c.len() > 0 {
        if !((a[0] as u32) < (b[0] as u32)) && !((a[0] as u32) > (b[0] as u32)) && !((
        b[0] as u32) < (c[0] as u32)) && !((b[0] as u32) > (c[0] as u32)) {
            lemma_str_cmp_trans(a.drop_first(), b.drop_first(), c.drop_first());
        }
    }
}

pub proof fn lemma_ecmp_antisym(a: SpecExpr, b: SpecExpr)
    ensures
        ecmp(a, b) == -ecmp(b, a),
    decreases a, 1int,
{
    if rank(a) == rank(b) {
        match (a, b) {
            (SpecExpr::Not(x), SpecExpr::Not(y)) => {
                lemma_ecmp_antisym(*x, *y);
            },
            (SpecExpr::Then(x), SpecExpr::Then(y)) => {
                lemma_seq_ecmp_antisym(x, y);
            },
            (SpecExpr::And(x), SpecExpr::And(y)) => {
                lemma_seq_ecmp_antisym(x, y);
            },
            (SpecExpr::Or(x), SpecExpr::Or(y)) => {
                lemma_seq_ecmp_antisym(x, y);
            },
            (SpecExpr::Func(k1, v1), SpecExpr::Func(k2, v2)) => {
                lemma_str_cmp_antisym(k1, k2);
                lemma_str_cmp_antisym(v1, v2);
            },
            (SpecExpr::Phrase(x), SpecExpr::Phrase(y)) => {
                lemma_str_cmp_antisym(x, y);
            },
            _ => {},
        }
    }
}

pub proof fn lemma_seq_ecmp_antisym(x: Seq<SpecExpr>, y: Seq<SpecExpr>)
    ensures
        seq_ecmp(x, y) == -seq_ecmp(y, x),
    decreases x, 0int,
{
    if x.len() > 0 && y.len() > 0 {
        lemma_ecmp_antisym(x[0], y[0]);
        if ecmp(x[0], y[0]) == 0 {
            lemma_seq_ecmp_antisym(x.drop_first(), y.drop_first());
        }
    }
}

pub proof fn lemma_ecmp_trans(a: SpecExpr, b: SpecExpr, c: SpecExpr)
    requires
        ecmp(a, b) <= 0,
        ecmp(b, c) <= 0,
    ensures
        ecmp(a, c) <= 0,
        ecmp(a, b) < 0 || ecmp(b, c) < 0 ==> ecmp(a, c) < 0,
    decreases a, 1int,
{
    if rank(a) == rank(b) && rank(b) == rank(c) {
        match (a, b, c) {
            (SpecExpr::Not(x), SpecExpr::Not(y), SpecExpr::Not(z)) => {
                lemma_ecmp_trans(*x, *y, *z);
            },
            (SpecExpr::Then(x), SpecExpr::Then(y), SpecExpr::Then(z)) => {
                lemma_seq_ecmp_trans(x, y, z);
            },
            (SpecExpr::And(x), SpecExpr::And(y), SpecExpr::And(z)) => {
                lemma_seq_ecmp_trans(x, y, z);
            },
            (SpecExpr::Or(x), SpecExpr::Or(y), SpecExpr::Or(z)) => {
                lemma_seq_ecmp_trans(x, y, z);
            },
            (SpecExpr::Func(k1, v1), SpecExpr::Func(k2, v2), SpecExpr::Func(k3, v3)) => {
                lemma_str_cmp_trans(k1, k2, k3);
                if str_cmp(k1, k2) == 0 && str_cmp(k2, k3) == 0 {
                    lemma_str_cmp_antisym(k1, k2);
                    lemma_str_cmp_antisym(k2, k3);
                    lemma_str_cmp_antisym(k1, k3);
                    lemma_str_cmp_trans(k3, k2, k1);
                    lemma_str_cmp_trans(v1, v2, v3);
                }
            },
            (SpecExpr::Phrase(x), SpecExpr::Phrase(y), SpecExpr::Phrase(z)) => {
                lemma_str_cmp_trans(x, y, z);
            },
            _ => {},
        }
    }
}

pub proof fn lemma_seq_ecmp_trans(x: Seq<SpecExpr>, y: Seq<SpecExpr>, z: Seq<SpecExpr>)
    requires
        seq_ecmp(x, y) <= 0,
        seq_ecmp(y, z) <= 0,
    ensures
        seq_ecmp(x, z) <= 0,
        seq_ecmp(x, y) < 0 || seq_ecmp(y, z) < 0 ==> seq_ecmp(x, z) < 0,
    decreases x, 0int,
{
    if x.len() > 0 && y.len() > 0 && z.len() > 0 {
        lemma_ecmp_antisym(x[0], y[0]);
        lemma_ecmp_antisym(y[0], z[0]);
        lemma_ecmp_antisym(x[0], z[0]);
        if ecmp(x[0], y[0]) <= 0 && ecmp(y[0], z[0]) <= 0 {
            lemma_ecmp_trans(x[0], y[0], z[0]);
        }
        if ecmp(x[0], y[0]) == 0 && ecmp(y[0], z[0]) == 0 {
            if ecmp(x[0], z[0]) < 0 {
                lemma_ecmp_trans(x[0], z[0], y[0]);
            }
            lemma_seq_ecmp_trans(x.drop_first(), y.drop_first(), z.drop_first());
        }
    }
}

pub proof fn lemma_sorted_pairs(s: Seq<SpecExpr>, i: int, j: int)
    requires
        sorted_by_ecmp(s),
        0 <= i < j < s.len(),
    ensures
        ecmp(s[i], s[j]) <= 0,
    decreases j - i,
{
    if i + 1 < j {
        lemma_sorted_pairs(s, i, j - 1);
        lemma_ecmp_trans(s[i], s[j - 1], s[j]);
    }
}

/// Insert `x` into `s` before the first element not smaller than it.
pub open spec fn sorted_insert(x: SpecExpr, s: Seq<SpecExpr>) -> Seq<SpecExpr>
    decreases s,
{
    if s.len() == 0 {
        seq![x]
    } else if ecmp(x, s[0]) <= 0 {
        seq![x] + s
    } else {
        seq![s[0]] + sorted_insert(x, s.drop_first())
    }
}

/// Insertion sort under the structural total order `ecmp`.
pub open spec fn sort_exprs(s: Seq<SpecExpr>) -> Seq<SpecExpr>
    decreases s,
{
    if s.len() == 0 {
        Seq::empty()
    } else {
        sorted_insert(s[0], sort_exprs(s.drop_first()))
    }
}

/// Remove every repeated element, keeping first occurrences.
pub open spec fn dedup_exprs(s: Seq<SpecExpr>) -> Seq<SpecExpr>
    decreases s,
{
    if s.len() == 0 {
        Seq::empty()
    } else {
        let rest = dedup_exprs(s.drop_last());
        if rest.contains(s.last()) {
            rest
        } else {
            rest.push(s.last())
        }
    }
}

/// The list holds both some element and its negation.
pub open spec fn has_conflict(s: Seq<SpecExpr>) -> bool {
    exists|i: int, j: int|
        0 <= i < s.len() && 0 <= j < s.len() && s[j] is Not && *s[j]->Not_0 == s[i]
}

/// Algebraic simplification, applied bottom-up.  At an `And` node: reduce the
/// children, splice nested `And`s one level, drop `True` and `Empty`, sort and
/// deduplicate; a `False` child or a complementary pair collapses the node to
/// `False`; an emptied list becomes `Empty`.  Dually for `Or`.  `Then` reduces
/// its children only; constants and atoms are left alone.
pub open spec fn spec_reduce(e: SpecExpr) -> SpecExpr
    decreases e,
{
    match e {
        SpecExpr::And(xs) => {
            let lst = dedup_exprs(
                sort_exprs(drop_units(splice_juncts(seq_reduce(xs), true), true)),
            );
            if lst.contains(SpecExpr::False) || has_conflict(lst) {
                SpecExpr::False
            } else if lst.len() == 0 {
                SpecExpr::Empty
            } else {
                SpecExpr::And(lst)
            }
        },
        SpecExpr::Or(xs) => {
            let lst = dedup_exprs(
                sort_exprs(drop_units(splice_juncts(seq_reduce(xs), false), false)),
            );
            if lst.contains(SpecExpr::True) || has_conflict(lst) {
                SpecExpr::True
            } else if lst.len() == 0 {
                SpecExpr::Empty
            } else {
                SpecExpr::Or(lst)
            }
        },
        SpecExpr::Not(inner) => SpecExpr::Not(Box::new(spec_reduce(*inner))),
        SpecExpr::Then(xs) => SpecExpr::Then(seq_reduce(xs)),
        _ => e,
    }
}

pub open spec fn seq_reduce(s: Seq<SpecExpr>) -> Seq<SpecExpr>
    decreases s,
{
    if s.len() == 0 {
        Seq::empty()
    } else {
        seq_reduce(s.drop_last()).push(spec_reduce(s.last()))
    }
}

/// A junction child list is worth distributing only when it mixes
/// phrase-bearing and predicate-bearing subtrees.
pub open spec fn mixes_phrases_and_funcs(s: Seq<SpecExpr>) -> bool {
    seq_has_funcs(s) && seq_has_phrases(s)
}

/// An `Or` child of an `And` that triggers distribution.
pub open spec fn is_expandable(e: SpecExpr) -> bool {
    e is Or && mixes_phrases_and_funcs(e->Or_0)
}

/// The first position that triggers distribution, if any.
pub open spec fn find_expand_pos(s: Seq<SpecExpr>) -> Option<int>
    decreases s,
{
    if s.len() == 0 {
        None
    } else if is_expandable(s[0]) {
        Some(0int)
    } else {
        match find_expand_pos(s.drop_first()) {
            Some(i) => Some(i + 1),
            None => None,
        }
    }
}

pub proof fn lemma_find_expand_pos(s: Seq<SpecExpr>)
    ensures
        match find_expand_pos(s) {
            Some(j) => 0 <= j < s.len() && is_expandable(s[j]) && forall|k: int|
                0 <= k < j ==> !is_expandable(s[k]),
            None => forall|k: int| 0 <= k < s.len() ==> !is_expandable(s[k]),
        },
    decreases s,
{
    if s.len() > 0 && !is_expandable(s[0]) {
        lemma_find_expand_pos(s.drop_first());
        match find_expand_pos(s.drop_first()) {
            Some(i) => {
                assert(s.drop_first()[i] == s[i + 1]);
                assert forall|k: int| 0 <= k < i + 1 implies !is_expandable(s[k]) by {
                    if k > 0 {
                        assert(s.drop_first()[k - 1] == s[k]);
                    }
                }
            },
            None => {
                assert forall|k: int| 0 <= k < s.len() implies !is_expandable(s[k]) by {
                    if k > 0 {
                        assert(s.drop_first()[k - 1] == s[k]);
                    }
                }
            },
        }
    }
}

/// One distribution step of `And` over `Or`, fuelled by a budget.  `None`
/// means the budget ran out.  On success the returned flag says whether any
/// distribution happened, and the returned number is the budget left.
pub open spec fn spec_expand_vec(s: Seq<SpecExpr>, b: nat) -> Option<(Seq<SpecExpr>, bool, nat)>
    decreases b, 0int, 0int,
{
    match find_expand_pos(s) {
        None => Some((s, false, b)),
        Some(pos) => {
            if b == 0 {
                None
            } else {
                let left = s[pos]->Or_0;
                let right = s.remove(pos);
                match spec_distribute(left, right, (b - 1) as nat) {
                    None => None,
                    Some((out, b2)) => Some((out, true, b2)),
                }
            }
        },
    }
}

/// For each alternative `l` of the removed `Or`, expand the conjunction
/// `[l] ++ right`; an expanded block is spliced, an unexpanded one becomes a
/// single `And`.
pub open spec fn spec_distribute(
    left: Seq<SpecExpr>,
    right: Seq<SpecExpr>,
    b: nat,
) -> Option<(Seq<SpecExpr>, nat)>
    decreases b, left.len(), 1int,
{
    if left.len() == 0 {
        Some((Seq::empty(), b))
    } else {
        let inner = seq![left[0]] + right;
        match spec_expand_vec(inner, b) {
            None => None,
            Some((io, expanded, b2)) => {
                if b2 <= b {
                    match spec_distribute(left.drop_first(), right, b2) {
                        None => None,
                        Some((rest, b3)) => {
                            let block = if expanded {
                                io
                            } else {
                                seq![SpecExpr::And(io)]
                            };
                            Some((block + rest, b3))
                        },
                    }
                } else {
                    None
                }
            },
        }
    }
}

pub proof fn lemma_expand_vec_budget(s: Seq<SpecExpr>, b: nat)
    ensures
        match spec_expand_vec(s, b) {
            Some((_, _, b2)) => b2 <= b,
            None => true,
        },
    decreases b, 0int, 0int,
{
    match find_expand_pos(s) {
        None => {},
        Some(pos) => {
            if b > 0 {
                lemma_distribute_budget(s[pos]->Or_0, s.remove(pos), (b - 1) as nat);
            }
        },
    }
}

pub proof fn lemma_distribute_budget(left: Seq<SpecExpr>, right: Seq<SpecExpr>, b: nat)
    ensures
        match spec_distribute(left, right, b) {
            Some((_, b3)) => b3 <= b,
            None => true,
        },
    decreases b, left.len(), 1int,
{
    if left.len() > 0 {
        let inner = seq![left[0]] + right;
        lemma_expand_vec_budget(inner, b);
        match spec_expand_vec(inner, b) {
            None => {},
            Some((io, expanded, b2)) => {
                lemma_distribute_budget(left.drop_first(), right, b2);
            },
        }
    }
}

/// Bounded disjunctive expansion of a whole tree: children first, left to
/// right, then one distribution pass at each `And`.  `None` is the
/// "query is too complex" outcome.
pub open spec fn spec_expand(e: SpecExpr, b: nat) -> Option<(SpecExpr, nat)>
    decreases e, 1int,
{
    match e {
        SpecExpr::And(xs) => match seq_expand(xs, b) {
            None => None,
            Some((rs, b1)) => match spec_expand_vec(rs, b1) {
                None => None,
                Some((out, expanded, b2)) => Some(
                    (
                        if expanded {
                            SpecExpr::Or(out)
                        } else {
                            SpecExpr::And(out)
                        },
                        b2,
                    ),
                ),
            },
        },
        SpecExpr::Or(xs) => match seq_expand(xs, b) {
            None => None,
            Some((rs, b1)) => Some((SpecExpr::Or(rs), b1)),
        },
        SpecExpr::Then(xs) => match seq_expand(xs, b) {
            None => None,
            Some((rs, b1)) => Some((SpecExpr::Then(rs), b1)),
        },
        _ => Some((e, b)),
    }
}

pub open spec fn seq_expand(s: Seq<SpecExpr>, b: nat) -> Option<(Seq<SpecExpr>, nat)>
    decreases s, 0int,
{
    if s.len() == 0 {
        Some((Seq::empty(), b))
    } else {
        match seq_expand(s.drop_last(), b) {
            None => None,
            Some((rs, b1)) => match spec_expand(s.last(), b1) {
                None => None,
                Some((r, b2)) => Some((rs.push(r), b2)),
            },
        }
    }
}

proof fn lemma_seq_expand_none_mono(s: Seq<SpecExpr>, i: int, b: nat)
    requires
        0 <= i <= s.len(),
        seq_expand(s.take(i), b) is None,
    ensures
        seq_expand(s, b) is None,
    decreases s.len() - i,
{
    if i < s.len() {
        assert(s.take(s.len() as int) =~= s);
        assert(s.take(s.len() - 1).take(i) =~= s.take(i));
        lemma_seq_expand_none_mono(s.take(s.len() - 1), i, b);
        assert(s.drop_last() =~= s.take(s.len() - 1));
    } else {
        assert(s.take(i) =~= s);
    }
}

/// The whole normalization pipeline on the mathematical model.
pub open spec fn spec_normalize(e: SpecExpr) -> Result<SpecExpr, SpecQueryError> {
    match spec_validate(e, 0) {
        Some(err) => Err(err),
        None => {
            let n = spec_reduce(spec_to_nnf(e));
            match spec_expand(n, 8192) {
                None => Err(SpecQueryError::TooComplex),
                Some(xb) => Ok(spec_reduce(xb.0)),
            }
        },
    }
}

/// The level passed to a node's children: capped at two, since only
/// "strictly below the top level" is ever tested.
pub open spec fn next_level(level: nat) -> nat {
    if level < 2 {
        level + 1
    } else {
        level
    }
}

/// Semantic validation.  `None` means the tree is accepted; `Some(err)` names
/// the first rule violated in a left-to-right, outside-in walk: no predicate
/// inside a `THEN` operand, no `sort`/`order` inside an `OR` operand, and the
/// control predicates only at the root level.
pub open spec fn spec_validate(e: SpecExpr, level: nat) -> Option<SpecQueryError>
    decreases e,
{
    match e {
        SpecExpr::Not(inner) => spec_validate(*inner, next_level(level)),
        SpecExpr::Then(xs) => seq_validate_then(xs, next_level(level)),
        SpecExpr::And(xs) => seq_validate(xs, next_level(level)),
        SpecExpr::Or(xs) => seq_validate_or(xs, next_level(level)),
        SpecExpr::Func(k, _v) => if (k == sort_chars() || k == order_chars() || k
            == bots_chars()) && level > 1 {
            Some(SpecQueryError::ControlNotTopLevel(k))
        } else {
            None
        },
        _ => None,
    }
}

pub open spec fn seq_validate(s: Seq<SpecExpr>, level: nat) -> Option<SpecQueryError>
    decreases s,
{
    if s.len() == 0 {
        None
    } else if spec_validate(s[0], level) is Some {
        spec_validate(s[0], level)
    } else {
        seq_validate(s.drop_first(), level)
    }
}

pub open spec fn seq_validate_then(s: Seq<SpecExpr>, level: nat) -> Option<SpecQueryError>
    decreases s,
{
    if s.len() == 0 {
        None
    } else if spec_has_funcs(s[0]) {
        Some(SpecQueryError::ThenWithFuncs)
    } else if spec_validate(s[0], level) is Some {
        spec_validate(s[0], level)
    } else {
        seq_validate_then(s.drop_first(), level)
    }
}

pub open spec fn seq_validate_or(s: Seq<SpecExpr>, level: nat) -> Option<SpecQueryError>
    decreases s,
{
    if s.len() == 0 {
        None
    } else if spec_get_func(s[0], sort_chars()) is Some || spec_get_func(s[0], order_chars())
        is Some {
        Some(SpecQueryError::SortInsideOr)
    } else if spec_validate(s[0], level) is Some {
        spec_validate(s[0], level)
    } else {
        seq_validate_or(s.drop_first(), level)
    }
}

/// No element repeats.
pub open spec fn seq_distinct(s: Seq<SpecExpr>) -> bool {
    forall|i: int, j: int| 0 <= i < j < s.len() ==> s[i] != s[j]
}

/// The shape that `reduce` establishes everywhere, and on which it is a
/// fixpoint: a junction is non-empty, holds no constant, no duplicates, no
/// complementary pair and no nested junction of its own kind, its children
/// are sorted by the structural order, and the same holds in every subtree.
pub open spec fn no_absorbing(e: SpecExpr) -> bool
    decreases e,
{
    match e {
        SpecExpr::And(s) => s.len() > 0 && !s.contains(SpecExpr::True) && !s.contains(
            SpecExpr::False,
        ) && !s.contains(SpecExpr::Empty) && !has_conflict(s) && seq_distinct(s)
            && sorted_by_ecmp(s) && (forall|i: int|
            0 <= i < s.len() ==> !((#[trigger] s[i]) is And)) && seq_no_absorbing(s),
        SpecExpr::Or(s) => s.len() > 0 && !s.contains(SpecExpr::True) && !s.contains(
            SpecExpr::False,
        ) && !s.contains(SpecExpr::Empty) && !has_conflict(s) && seq_distinct(s)
            && sorted_by_ecmp(s) && (forall|i: int|
            0 <= i < s.len() ==> !((#[trigger] s[i]) is Or)) && seq_no_absorbing(s),
        SpecExpr::Then(s) => seq_no_absorbing(s),
        SpecExpr::Not(inner) => no_absorbing(*inner),
        _ => true,
    }
}

pub open spec fn seq_no_absorbing(s: Seq<SpecExpr>) -> bool
    decreases s,
{
    if s.len() == 0 {
        true
    } else {
        seq_no_absorbing(s.drop_last()) && no_absorbing(s.last())
    }
}

pub proof fn lemma_seq_no_absorbing_index(s: Seq<SpecExpr>)
    ensures
        seq_no_absorbing(s) <==> (forall|k: int| 0 <= k < s.len() ==> no_absorbing(s[k])),
    decreases s,
{
    if s.len() > 0 {
        lemma_seq_no_absorbing_index(s.drop_last());
        assert(forall|k: int| 0 <= k < s.len() - 1 ==> s.drop_last()[k] == s[k]);
        assert(s.last() == s[s.len() - 1]);
        if seq_no_absorbing(s) {
            assert(forall|k: int| 0 <= k < s.len() ==> no_absorbing(s[k]));
        }
    }
}

proof fn lemma_sorted_insert_elems(x: SpecExpr, s: Seq<SpecExpr>)
    ensures
        sorted_insert(x, s).len() == s.len() + 1,
        forall|y: SpecExpr|
            #[trigger] sorted_insert(x, s).contains(y) <==> y == x || s.contains(y),
    decreases s,
{
    broadcast use vstd::seq_lib::group_seq_properties;

    if s.len() == 0 {
        assert(sorted_insert(x, s)[0] == x);
    } else if ecmp(x, s[0]) <= 0 {
        assert forall|y: SpecExpr| #[trigger]
            sorted_insert(x, s).contains(y) implies y == x || s.contains(y) by {
            let k = choose|k: int| 0 <= k < (seq![x] + s).len() && (seq![x] + s)[k] == y;
            if k > 0 {
                assert(s[k - 1] == y);
            }
        }
        assert forall|y: SpecExpr| y == x || s.contains(y) implies #[trigger]
            sorted_insert(x, s).contains(y) by {
            if y == x {
                assert((seq![x] + s)[0] == y);
            } else {
                let m = choose|m: int| 0 <= m < s.len() && s[m] == y;
                assert((seq![x] + s)[m + 1] == y);
            }
        }
    } else {
        lemma_sorted_insert_elems(x, s.drop_first());
        assert forall|y: SpecExpr| #[trigger]
            sorted_insert(x, s).contains(y) implies y == x || s.contains(y) by {
            let r = seq![s[0]] + sorted_insert(x, s.drop_first());
            let k = choose|k: int| 0 <= k < r.len() && r[k] == y;
            if k == 0 {
                assert(s.contains(s[0]));
            } else {
                assert(sorted_insert(x, s.drop_first()).contains(y));
                if y != x {
                    assert(s.drop_first().contains(y));
                    let m = choose|m: int|
                        0 <= m < s.drop_first().len() && s.drop_first()[m] == y;
                    assert(s[m + 1] == y);
                }
            }
        }
        assert forall|y: SpecExpr| y == x || s.contains(y) implies #[trigger]
            sorted_insert(x, s).contains(y) by {
            let r = seq![s[0]] + sorted_insert(x, s.drop_first());
            if y == x {
                assert(sorted_insert(x, s.drop_first()).contains(y));
            } else {
                let m = choose|m: int| 0 <= m < s.len() && s[m] == y;
                if m == 0 {
                    assert(r[0] == y);
                } else {
                    assert(s.drop_first()[m - 1] == y);
                    assert(s.drop_first().contains(y));
                    assert(sorted_insert(x, s.drop_first()).contains(y));
                }
            }
        }
    }
}

proof fn lemma_sort_elems(s: Seq<SpecExpr>)
    ensures
        sort_exprs(s).len() == s.len(),
        forall|y: SpecExpr| #[trigger] sort_exprs(s).contains(y) <==> s.contains(y),
    decreases s,
{
    broadcast use vstd::seq_lib::group_seq_properties;

    if s.len() > 0 {
        lemma_sort_elems(s.drop_first());
        lemma_sorted_insert_elems(s[0], sort_exprs(s.drop_first()));
        assert forall|y: SpecExpr| #[trigger] sort_exprs(s).contains(y) implies s.contains(
            y,
        ) by {
            if y != s[0] {
                assert(sort_exprs(s.drop_first()).contains(y));
                assert(s.drop_first().contains(y));
                let m = choose|m: int| 0 <= m < s.drop_first().len() && s.drop_first()[m] == y;
                assert(s[m + 1] == y);
            } else {
                assert(s.contains(s[0]));
            }
        }
        assert forall|y: SpecExpr| s.contains(y) implies #[trigger] sort_exprs(s).contains(
            y,
        ) by {
            if y != s[0] {
                let m = choose|m: int| 0 <= m < s.len() && s[m] == y;
                assert(s.drop_first()[m - 1] == y);
                assert(s.drop_first().contains(y));
                assert(sort_exprs(s.drop_first()).contains(y));
            }
        }
    }
}

proof fn lemma_dedup_elems(s: Seq<SpecExpr>)
    ensures
        seq_distinct(dedup_exprs(s)),
        forall|y: SpecExpr| #[trigger] dedup_exprs(s).contains(y) ==> s.contains(y),
        forall|y: SpecExpr| s.contains(y) ==> #[trigger] dedup_exprs(s).contains(y),
    decreases s,
{
    broadcast use vstd::seq_lib::group_seq_properties;

    if s.len() > 0 {
        lemma_dedup_elems(s.drop_last());
        let rest = dedup_exprs(s.drop_last());
        assert forall|y: SpecExpr| s.contains(y) implies #[trigger] dedup_exprs(s).contains(
            y,
        ) by {
            let k = choose|k: int| 0 <= k < s.len() && s[k] == y;
            if k < s.len() - 1 {
                assert(s.drop_last()[k] == y);
                assert(s.drop_last().contains(y));
                assert(rest.contains(y));
            }
        }
        assert forall|y: SpecExpr| #[trigger] dedup_exprs(s).contains(y) implies s.contains(
            y,
        ) by {
            if rest.contains(y) {
                assert(s.drop_last().contains(y));
                let m = choose|m: int| 0 <= m < s.drop_last().len() && s.drop_last()[m] == y;
                assert(s[m] == y);
            } else {
                assert(y == s.last());
                assert(s.contains(s.last()));
            }
        }
        if !rest.contains(s.last()) {
            assert(seq_distinct(rest.push(s.last()))) by {
                assert(forall|i: int|
                    0 <= i < rest.len() ==> rest.push(s.last())[i] == rest[i]);
            }
        }
    }
}

proof fn lemma_drop_units_elems(s: Seq<SpecExpr>, and_mode: bool)
    ensures
        !drop_units(s, and_mode).contains(
            if and_mode {
                SpecExpr::True
            } else {
                SpecExpr::False
            },
        ),
        !drop_units(s, and_mode).contains(SpecExpr::Empty),
        forall|y: SpecExpr| #[trigger] drop_units(s, and_mode).contains(y) ==> s.contains(y),
        forall|y: SpecExpr|
            s.contains(y) && y != (if and_mode {
                SpecExpr::True
            } else {
                SpecExpr::False
            }) && y != SpecExpr::Empty ==> #[trigger] drop_units(s, and_mode).contains(y),
    decreases s,
{
    broadcast use vstd::seq_lib::group_seq_properties;

    if s.len() > 0 {
        lemma_drop_units_elems(s.drop_last(), and_mode);
        assert forall|y: SpecExpr| #[trigger]
            drop_units(s, and_mode).contains(y) implies s.contains(y) by {
            if drop_units(s.drop_last(), and_mode).contains(y) {
                assert(s.drop_last().contains(y));
                let m = choose|m: int| 0 <= m < s.drop_last().len() && s.drop_last()[m] == y;
                assert(s[m] == y);
            } else {
                assert(s.contains(s.last()));
            }
        }
        let unit = if and_mode {
            SpecExpr::True
        } else {
            SpecExpr::False
        };
        assert forall|y: SpecExpr|
            s.contains(y) && y != unit && y != SpecExpr::Empty implies #[trigger] drop_units(
            s,
            and_mode,
        ).contains(y) by {
            if y == s.last() {
            } else {
                let m = choose|m: int| 0 <= m < s.len() && s[m] == y;
                assert(s.drop_last()[m] == y);
                assert(s.drop_last().contains(y));
            }
        }
    }
}

proof fn lemma_splice_elems(s: Seq<SpecExpr>, and_mode: bool)
    ensures
        forall|y: SpecExpr| #[trigger]
            splice_juncts(s, and_mode).contains(y) ==> (s.contains(y) && !(and_mode && y
                is And) && !(!and_mode && y is Or)) || (exists|z: SpecExpr|
                #[trigger] s.contains(z) && ((and_mode && z is And && z->And_0.contains(y)) || (
                !and_mode && z is Or && z->Or_0.contains(y)))),
    decreases s,
{
    broadcast use vstd::seq_lib::group_seq_properties;

    if s.len() > 0 {
        lemma_splice_elems(s.drop_last(), and_mode);
        assert forall|y: SpecExpr| #[trigger]
            splice_juncts(s, and_mode).contains(y) implies (s.contains(y) && !(and_mode && y
            is And) && !(!and_mode && y is Or)) || (exists|
            z: SpecExpr,
        |
            #[trigger] s.contains(z) && ((and_mode && z is And && z->And_0.contains(y)) || (
            !and_mode && z is Or && z->Or_0.contains(y)))) by {
            let last = s.last();
            assert(s.contains(last));
            let rest = splice_juncts(s.drop_last(), and_mode);
            if rest.contains(y) {
                if s.drop_last().contains(y) && !(and_mode && y is And) && !(!and_mode && y
                    is Or) {
                    let m = choose|m: int|
                        0 <= m < s.drop_last().len() && s.drop_last()[m] == y;
                    assert(s[m] == y);
                } else {
                    let z = choose|z: SpecExpr|
                        #[trigger] s.drop_last().contains(z) && ((and_mode && z is And
                            && z->And_0.contains(y)) || (!and_mode && z is Or
                            && z->Or_0.contains(y)));
                    let m = choose|m: int|
                        0 <= m < s.drop_last().len() && s.drop_last()[m] == z;
                    assert(s[m] == z);
                    assert(s.contains(z));
                }
            } else {
                if and_mode && last is And {
                    let k = choose|k: int|
                        0 <= k < splice_juncts(s, and_mode).len() && splice_juncts(
                            s,
                            and_mode,
                        )[k] == y;
                    assert(last->And_0[k - rest.len()] == y);
                    assert(last->And_0.contains(y));
                } else if !and_mode && last is Or {
                    let k = choose|k: int|
                        0 <= k < splice_juncts(s, and_mode).len() && splice_juncts(
                            s,
                            and_mode,
                        )[k] == y;
                    assert(last->Or_0[k - rest.len()] == y);
                    assert(last->Or_0.contains(y));
                } else {
                    assert(y == last);
                }
            }
        }
    }
}

/// Law: after `reduce`, every junction in the tree is non-empty and holds no
/// constant, no duplicates, no complementary pair, and no nested junction of
/// its own kind, and its children are sorted by the structural order.
pub proof fn lemma_reduce_no_absorbing(e: SpecExpr)
    ensures
        no_absorbing(spec_reduce(e)),
    decreases e,
{
    broadcast use vstd::seq_lib::group_seq_properties;

    match e {
        SpecExpr::And(xs) => {
            lemma_seq_reduce_no_absorbing(xs);
            lemma_junction_list_ok(seq_reduce(xs), true);
        },
        SpecExpr::Or(xs) => {
            lemma_seq_reduce_no_absorbing(xs);
            lemma_junction_list_ok(seq_reduce(xs), false);
        },
        SpecExpr::Not(inner) => {
            lemma_reduce_no_absorbing(*inner);
        },
        SpecExpr::Then(xs) => {
            lemma_seq_reduce_no_absorbing(xs);
            lemma_seq_no_absorbing_index(seq_reduce(xs));
        },
        _ => {},
    }
}

proof fn lemma_seq_reduce_no_absorbing(s: Seq<SpecExpr>)
    ensures
        seq_reduce(s).len() == s.len(),
        forall|k: int| 0 <= k < s.len() ==> no_absorbing(#[trigger] seq_reduce(s)[k]),
    decreases s,
{
    if s.len() > 0 {
        lemma_seq_reduce_no_absorbing(s.drop_last());
        lemma_reduce_no_absorbing(s.last());
    }
}

/// From a list whose elements all satisfy `no_absorbing`, the splice /
/// drop-units / sort / dedup pipeline yields a list fit for a junction node.
proof fn lemma_junction_list_ok(rs: Seq<SpecExpr>, and_mode: bool)
    requires
        forall|k: int| 0 <= k < rs.len() ==> no_absorbing(#[trigger] rs[k]),
    ensures
        ({
            let lst = dedup_exprs(sort_exprs(drop_units(splice_juncts(rs, and_mode), and_mode)));
            &&& !lst.contains(
                if and_mode {
                    SpecExpr::True
                } else {
                    SpecExpr::False
                },
            )
            &&& !lst.contains(SpecExpr::Empty)
            &&& seq_distinct(lst)
            &&& sorted_by_ecmp(lst)
            &&& (forall|i: int|
                0 <= i < lst.len() ==> !(and_mode && (#[trigger] lst[i]) is And) && !(
                !and_mode && lst[i] is Or))
            &&& seq_no_absorbing(lst)
        }),
{
    broadcast use vstd::seq_lib::group_seq_properties;

    let sp = splice_juncts(rs, and_mode);
    let du = drop_units(sp, and_mode);
    let so = sort_exprs(du);
    let lst = dedup_exprs(so);
    lemma_splice_elems(rs, and_mode);
    lemma_drop_units_elems(sp, and_mode);
    lemma_sort_elems(du);
    lemma_dedup_elems(so);
    lemma_sort_sorted(du);
    lemma_dedup_sorted(so);
    assert forall|y: SpecExpr| #[trigger] sp.contains(y) implies no_absorbing(y) && !(
        and_mode && y is And) && !(!and_mode && y is Or) by {
        if rs.contains(y) && !(and_mode && y is And) && !(!and_mode && y is Or) {
        } else {
            let z = choose|z: SpecExpr|
                #[trigger] rs.contains(z) && ((and_mode && z is And && z->And_0.contains(y))
                    || (!and_mode && z is Or && z->Or_0.contains(y)));
            if and_mode {
                lemma_seq_no_absorbing_index(z->And_0);
            } else {
                lemma_seq_no_absorbing_index(z->Or_0);
            }
        }
    }
    assert forall|y: SpecExpr| #[trigger] lst.contains(y) implies no_absorbing(y) by {
        assert(so.contains(y));
        assert(du.contains(y));
        assert(sp.contains(y));
    }
    assert forall|k: int| 0 <= k < lst.len() implies no_absorbing(lst[k]) && !(and_mode && (
    #[trigger] lst[k]) is And) && !(!and_mode && lst[k] is Or) by {
        assert(lst.contains(lst[k]));
        assert(so.contains(lst[k]));
        assert(du.contains(lst[k]));
        assert(sp.contains(lst[k]));
    }
    lemma_seq_no_absorbing_index(lst);
    assert forall|y: SpecExpr| #[trigger] lst.contains(y) implies y != (if and_mode {
        SpecExpr::True
    } else {
        SpecExpr::False
    }) && y != SpecExpr::Empty by {
        assert(so.contains(y));
        assert(du.contains(y));
    }
    assert(!lst.contains(
        if and_mode {
            SpecExpr::True
        } else {
            SpecExpr::False
        },
    ));
    assert(!lst.contains(SpecExpr::Empty));
}

/// A quoted string literal as the printer writes it: backslash and the
/// double quote are escaped, everything else is kept.
pub open spec fn esc_quotes(s: Seq<char>) -> Seq<char>
    decreases s,
{
    if s.len() == 0 {
        Seq::empty()
    } else {
        esc_quotes(s.drop_last()) + (if s.last() == '\\' {
            seq!['\\', '\\']
        } else if s.last() == '"' {
            seq!['\\', '"']
        } else {
            seq![s.last()]
        })
    }
}

pub open spec fn quoted(s: Seq<char>) -> Seq<char> {
    seq!['"'] + esc_quotes(s) + seq!['"']
}

pub open spec fn spec_is_compound(e: SpecExpr) -> bool {
    e is Then || e is And || e is Or || e is Not
}

/// The printed form of an expression, re-parseable by the query parser:
/// phrases and predicate arguments quoted, junction children joined by their
/// keyword, compound children parenthesised.
pub open spec fn spec_print(e: SpecExpr) -> Seq<char>
    decreases e, 1int,
{
    match e {
        SpecExpr::Not(inner) => if spec_is_compound(*inner) {
            "NOT ("@ + spec_print(*inner) + ")"@
        } else {
            "NOT "@ + spec_print(*inner)
        },
        SpecExpr::Then(s) => spec_print_list(s, " THEN "@),
        SpecExpr::And(s) => spec_print_list(s, " AND "@),
        SpecExpr::Or(s) => spec_print_list(s, " OR "@),
        SpecExpr::Func(k, v) => k + ":"@ + quoted(v),
        SpecExpr::Phrase(p) => quoted(p),
        SpecExpr::True => "TRUE"@,
        SpecExpr::False => "FALSE"@,
        SpecExpr::Empty => "EMPTY"@,
    }
}

pub open spec fn spec_print_list(s: Seq<SpecExpr>, sep: Seq<char>) -> Seq<char>
    decreases s, 0int,
{
    if s.len() == 0 {
        Seq::empty()
    } else {
        let rest = spec_print_list(s.drop_last(), sep);
        let item = if spec_is_compound(s.last()) {
            "("@ + spec_print(s.last()) + ")"@
        } else {
            spec_print(s.last())
        };
        if s.len() > 1 {
            rest + sep + item
        } else {
            item
        }
    }
}

proof fn lemma_splice_id(s: Seq<SpecExpr>, and_mode: bool)
    requires
        forall|i: int|
            0 <= i < s.len() ==> !(and_mode && (#[trigger] s[i]) is And) && !(!and_mode
                && s[i] is Or),
    ensures
        splice_juncts(s, and_mode) == s,
    decreases s,
{
    if s.len() > 0 {
        assert(forall|i: int| 0 <= i < s.len() - 1 ==> s.drop_last()[i] == s[i]);
        lemma_splice_id(s.drop_last(), and_mode);
        assert(splice_juncts(s, and_mode) =~= s);
    } else {
        assert(splice_juncts(s, and_mode) =~= s);
    }
}

proof fn lemma_drop_units_id(s: Seq<SpecExpr>, and_mode: bool)
    requires
        !s.contains(
            if and_mode {
                SpecExpr::True
            } else {
                SpecExpr::False
            },
        ),
        !s.contains(SpecExpr::Empty),
    ensures
        drop_units(s, and_mode) == s,
    decreases s,
{
    broadcast use vstd::seq_lib::group_seq_properties;

    if s.len() > 0 {
        assert(forall|i: int| 0 <= i < s.len() - 1 ==> s.drop_last()[i] == s[i]);
        assert(s.contains(s.last()));
        lemma_drop_units_id(s.drop_last(), and_mode);
        assert(drop_units(s, and_mode) =~= s);
    } else {
        assert(drop_units(s, and_mode) =~= s);
    }
}

proof fn lemma_sort_id(s: Seq<SpecExpr>)
    requires
        sorted_by_ecmp(s),
    ensures
        sort_exprs(s) == s,
    decreases s,
{
    if s.len() > 0 {
        assert forall|i: int|
            0 <= i < s.drop_first().len() - 1 implies ecmp(
            #[trigger] s.drop_first()[i],
            s.drop_first()[i + 1],
        ) <= 0 by {
            assert(s.drop_first()[i] == s[i + 1] && s.drop_first()[i + 1] == s[i + 2]);
            assert(ecmp(s[i + 1], s[i + 2]) <= 0);
        }
        lemma_sort_id(s.drop_first());
        if s.drop_first().len() > 0 {
            assert(s.drop_first()[0] == s[1]);
            assert(ecmp(s[0], s[1]) <= 0);
        }
        assert(sort_exprs(s) =~= s);
    } else {
        assert(sort_exprs(s) =~= s);
    }
}

proof fn lemma_dedup_id(s: Seq<SpecExpr>)
    requires
        seq_distinct(s),
    ensures
        dedup_exprs(s) == s,
    decreases s,
{
    if s.len() > 0 {
        assert(forall|i: int| 0 <= i < s.len() - 1 ==> s.drop_last()[i] == s[i]);
        lemma_dedup_id(s.drop_last());
        if s.drop_last().contains(s.last()) {
            let m = choose|m: int| 0 <= m < s.drop_last().len() && s.drop_last()[m] == s.last();
            assert(s[m] == s[s.len() - 1]);
        }
        assert(dedup_exprs(s) =~= s);
    } else {
        assert(dedup_exprs(s) =~= s);
    }
}

/// `reduce` changes nothing on a tree already in its output shape.
pub proof fn lemma_reduce_fixed(e: SpecExpr)
    requires
        no_absorbing(e),
    ensures
        spec_reduce(e) == e,
    decreases e, 1int,
{
    match e {
        SpecExpr::And(s) => {
            lemma_seq_no_absorbing_index(s);
            lemma_seq_reduce_fixed(s);
            lemma_splice_id(s, true);
            lemma_drop_units_id(s, true);
            lemma_sort_id(s);
            lemma_dedup_id(s);
        },
        SpecExpr::Or(s) => {
            lemma_seq_no_absorbing_index(s);
            lemma_seq_reduce_fixed(s);
            lemma_splice_id(s, false);
            lemma_drop_units_id(s, false);
            lemma_sort_id(s);
            lemma_dedup_id(s);
        },
        SpecExpr::Not(inner) => {
            lemma_reduce_fixed(*inner);
        },
        SpecExpr::Then(s) => {
            lemma_seq_no_absorbing_index(s);
            lemma_seq_reduce_fixed(s);
        },
        _ => {},
    }
}

proof fn lemma_seq_reduce_fixed(s: Seq<SpecExpr>)
    requires
        forall|k: int| 0 <= k < s.len() ==> no_absorbing(#[trigger] s[k]),
    ensures
        seq_reduce(s) == s,
    decreases s, 0int,
{
    if s.len() > 0 {
        assert(forall|i: int| 0 <= i < s.len() - 1 ==> s.drop_last()[i] == s[i]);
        lemma_seq_reduce_fixed(s.drop_last());
        lemma_reduce_fixed(s.last());
        assert(seq_reduce(s) =~= s);
    } else {
        assert(seq_reduce(s) =~= s);
    }
}

/// Law (the `reduce` component of normalization idempotence): reducing twice
/// is reducing once.
pub proof fn lemma_reduce_idempotent(e: SpecExpr)
    ensures
        spec_reduce(spec_reduce(e)) == spec_reduce(e),
{
    lemma_reduce_no_absorbing(e);
    lemma_reduce_fixed(spec_reduce(e));
}

/// Law: double negation cancels under `to_nnf`.
pub proof fn lemma_double_negation(e: SpecExpr)
    ensures
        spec_to_nnf(SpecExpr::Not(Box::new(SpecExpr::Not(Box::new(e))))) == spec_to_nnf(e),
{
    assert(spec_nnf(SpecExpr::Not(Box::new(SpecExpr::Not(Box::new(e)))), true) == spec_nnf(
        SpecExpr::Not(Box::new(e)),
        false,
    ));
    assert(spec_nnf(SpecExpr::Not(Box::new(e)), false) == spec_nnf(e, true));
}

/// The two-element list `[x, Not(x)]` still holds the pair after reduction's
/// list pipeline, provided `x` reduces to itself and is neither a conjunction
/// (which splicing would open) nor a constant (which unit-dropping or the
/// dual constant check would consume).
proof fn lemma_conflict_pair(x: SpecExpr, and_mode: bool)
    requires
        spec_reduce(x) == x,
        and_mode ==> !(x is And),
        !and_mode ==> !(x is Or),
        x != SpecExpr::True,
        x != SpecExpr::False,
        x != SpecExpr::Empty,
    ensures
        ({
            let nx = SpecExpr::Not(Box::new(x));
            let lst = dedup_exprs(
                sort_exprs(
                    drop_units(
                        splice_juncts(seq_reduce(seq![x, nx]), and_mode),
                        and_mode,
                    ),
                ),
            );
            has_conflict(lst)
        }),
{
    broadcast use vstd::seq_lib::group_seq_properties;

    let nx = SpecExpr::Not(Box::new(x));
    let s = seq![x, nx];
    assert(s.drop_last() =~= seq![x]);
    assert(seq![x].drop_last() =~= Seq::<SpecExpr>::empty());
    assert(spec_reduce(nx) == nx);
    assert(seq_reduce(Seq::<SpecExpr>::empty()) =~= Seq::<SpecExpr>::empty());
    assert(splice_juncts(Seq::<SpecExpr>::empty(), and_mode) =~= Seq::<SpecExpr>::empty());
    assert(drop_units(Seq::<SpecExpr>::empty(), and_mode) =~= Seq::<SpecExpr>::empty());
    assert(seq_reduce(seq![x]) =~= seq![x]);
    assert(seq_reduce(s) =~= s);
    let sp = splice_juncts(s, and_mode);
    assert(splice_juncts(seq![x], and_mode) =~= seq![x]);
    assert(sp =~= s);
    let du = drop_units(sp, and_mode);
    assert(drop_units(seq![x], and_mode) =~= seq![x]);
    assert(du =~= s);
    let so = sort_exprs(du);
    let lst = dedup_exprs(so);
    lemma_sort_elems(du);
    lemma_dedup_elems(so);
    assert(s[0] == x && s[1] == nx);
    assert(s.contains(x) && s.contains(nx));
    assert(lst.contains(x) && lst.contains(nx));
    let i = choose|i: int| 0 <= i < lst.len() && lst[i] == x;
    let j = choose|j: int| 0 <= j < lst.len() && lst[j] == nx;
    assert(lst[j] is Not && *lst[j]->Not_0 == lst[i]);
}

/// Law: a conjunction holding a member together with its negation collapses
/// to `False`; the member must be its own reduction and neither a conjunction
/// nor a constant.
pub proof fn lemma_conflict_collapses_and(x: SpecExpr)
    requires
        spec_reduce(x) == x,
        !(x is And),
        x != SpecExpr::True,
        x != SpecExpr::False,
        x != SpecExpr::Empty,
    ensures
        spec_reduce(SpecExpr::And(seq![x, SpecExpr::Not(Box::new(x))])) == SpecExpr::False,
{
    lemma_conflict_pair(x, true);
}

/// Law: a disjunction holding a member together with its negation collapses
/// to `True`; the member must be its own reduction and neither a disjunction
/// nor a constant.
pub proof fn lemma_conflict_collapses_or(x: SpecExpr)
    requires
        spec_reduce(x) == x,
        !(x is Or),
        x != SpecExpr::True,
        x != SpecExpr::False,
        x != SpecExpr::Empty,
    ensures
        spec_reduce(SpecExpr::Or(seq![x, SpecExpr::Not(Box::new(x))])) == SpecExpr::True,
{
    lemma_conflict_pair(x, false);
}

pub proof fn lemma_views_of_concat(a: Seq<Expr>, b: Seq<Expr>)
    ensures
        views_of(a + b) == views_of(a) + views_of(b),
    decreases b,
{
    if b.len() == 0 {
        assert(a + b =~= a);
        assert(views_of(a) + views_of(b) =~= views_of(a));
    } else {
        lemma_views_of_concat(a, b.drop_last());
        assert((a + b).drop_last() =~= a + b.drop_last());
        assert((a + b).last() == b.last());
        assert(views_of(a + b) =~= views_of(a) + views_of(b));
    }
}

proof fn lemma_sorted_insert_sorted(x: SpecExpr, s: Seq<SpecExpr>)
    requires
        sorted_by_ecmp(s),
    ensures
        sorted_by_ecmp(sorted_insert(x, s)),
    decreases s,
{
    if s.len() == 0 {
    } else if ecmp(x, s[0]) <= 0 {
        let r = seq![x] + s;
        assert forall|i: int| 0 <= i < r.len() - 1 implies ecmp(#[trigger] r[i], r[i + 1])
            <= 0 by {
            if i > 0 {
                assert(r[i] == s[i - 1] && r[i + 1] == s[i]);
                assert(ecmp(s[i - 1], s[i]) <= 0);
            }
        }
    } else {
        assert forall|i: int|
            0 <= i < s.drop_first().len() - 1 implies ecmp(
            #[trigger] s.drop_first()[i],
            s.drop_first()[i + 1],
        ) <= 0 by {
            assert(s.drop_first()[i] == s[i + 1] && s.drop_first()[i + 1] == s[i + 2]);
            assert(ecmp(s[i + 1], s[i + 2]) <= 0);
        }
        lemma_sorted_insert_sorted(x, s.drop_first());
        let rest = sorted_insert(x, s.drop_first());
        let r = seq![s[0]] + rest;
        lemma_ecmp_antisym(x, s[0]);
        assert forall|i: int| 0 <= i < r.len() - 1 implies ecmp(#[trigger] r[i], r[i + 1])
            <= 0 by {
            if i == 0 {
                if s.drop_first().len() == 0 || ecmp(x, s.drop_first()[0]) <= 0 {
                    assert(rest[0] == x);
                } else {
                    assert(rest[0] == s.drop_first()[0]);
                    assert(ecmp(s[0], s[1]) <= 0);
                }
            } else {
                assert(r[i] == rest[i - 1] && r[i + 1] == rest[i]);
                assert(ecmp(rest[i - 1], rest[i]) <= 0);
            }
        }
    }
}

proof fn lemma_sort_sorted(s: Seq<SpecExpr>)
    ensures
        sorted_by_ecmp(sort_exprs(s)),
    decreases s,
{
    if s.len() > 0 {
        lemma_sort_sorted(s.drop_first());
        lemma_sorted_insert_sorted(s[0], sort_exprs(s.drop_first()));
    }
}

proof fn lemma_dedup_sorted(s: Seq<SpecExpr>)
    requires
        sorted_by_ecmp(s),
    ensures
        sorted_by_ecmp(dedup_exprs(s)),
    decreases s,
{
    broadcast use vstd::seq_lib::group_seq_properties;

    if s.len() > 0 {
        assert forall|i: int|
            0 <= i < s.drop_last().len() - 1 implies ecmp(
            #[trigger] s.drop_last()[i],
            s.drop_last()[i + 1],
        ) <= 0 by {
            assert(s.drop_last()[i] == s[i] && s.drop_last()[i + 1] == s[i + 1]);
            assert(ecmp(s[i], s[i + 1]) <= 0);
        }
        lemma_dedup_sorted(s.drop_last());
        let rest = dedup_exprs(s.drop_last());
        if !rest.contains(s.last()) {
            lemma_dedup_elems(s.drop_last());
            let r = rest.push(s.last());
            assert forall|i: int| 0 <= i < r.len() - 1 implies ecmp(
                #[trigger] r[i],
                r[i + 1],
            ) <= 0 by {
                if i == r.len() - 2 {
                    assert(r[i] == rest[rest.len() - 1]);
                    assert(rest.contains(rest[rest.len() - 1]));
                    assert(s.drop_last().contains(rest[rest.len() - 1]));
                    let m = choose|m: int|
                        0 <= m < s.drop_last().len() && s.drop_last()[m] == rest[rest.len()
                            - 1];
                    assert(s[m] == rest[rest.len() - 1]);
                    lemma_sorted_pairs(s, m, s.len() - 1);
                } else {
                    assert(r[i] == rest[i] && r[i + 1] == rest[i + 1]);
                    assert(ecmp(rest[i], rest[i + 1]) <= 0);
                }
            }
        }
    }
}

pub proof fn lemma_sorted_insert_at(x: SpecExpr, s: Seq<SpecExpr>, j: int)
    requires
        0 <= j <= s.len(),
        forall|k: int| 0 <= k < j ==> ecmp(x, s[k]) > 0,
        j < s.len() ==> ecmp(x, s[j]) <= 0,
    ensures
        sorted_insert(x, s) == s.take(j) + seq![x] + s.skip(j),
    decreases s,
{
    if s.len() == 0 {
        assert(sorted_insert(x, s) =~= s.take(j) + seq![x] + s.skip(j));
    } else if ecmp(x, s[0]) <= 0 {
        assert(j == 0);
        assert(seq![x] + s =~= s.take(0) + seq![x] + s.skip(0));
    } else {
        assert(j >= 1);
        assert(forall|k: int| 0 <= k < j - 1 ==> s.drop_first()[k] == s[k + 1]);
        lemma_sorted_insert_at(x, s.drop_first(), j - 1);
        assert(seq![s[0]] + (s.drop_first().take(j - 1) + seq![x] + s.drop_first().skip(j - 1))
            =~= s.take(j) + seq![x] + s.skip(j));
    }
}

/// Executable three-way string comparison, by code point.
#[verifier::loop_isolation(false)]
pub fn str_cmp_exec(a: &str, b: &str) -> (r: i32)
    ensures
        r as int == str_cmp(a@, b@),
{
    let alen = a.unicode_len();
    let blen = b.unicode_len();
    proof {
        assert(a@.skip(0) =~= a@);
        assert(b@.skip(0) =~= b@);
    }
    let mut i: usize = 0;
    while i < alen && i < blen
        invariant
            0 <= i <= alen,
            i <= blen,
            str_cmp(a@, b@) == str_cmp(a@.skip(i as int), b@.skip(i as int)),
        decreases alen - i,
    {
        proof {
            assert(a@.skip(i as int)[0] == a@[i as int]);
            assert(b@.skip(i as int)[0] == b@[i as int]);
            assert(a@.skip(i as int).drop_first() =~= a@.skip(i + 1 as int));
            assert(b@.skip(i as int).drop_first() =~= b@.skip(i + 1 as int));
        }
        let va = a.get_char(i) as u32;
        let vb = b.get_char(i) as u32;
        if va < vb {
            return -1;
        }
        if va > vb {
            return 1;
        }
        i += 1;
    }
    proof {
        if i >= alen {
            assert(a@.skip(i as int) =~= Seq::<char>::empty());
        }
        if i >= blen {
            assert(b@.skip(i as int) =~= Seq::<char>::empty());
        }
    }
    if alen == blen {
        0
    } else if alen < blen {
        -1
    } else {
        1
    }
}

impl Expr {
    /// Parse a query string; any syntactic failure is the single
    /// "malformed query" error.
    pub fn parse(input: &str) -> (r: Result<Expr, QueryError>)
        ensures
            match r {
                Ok(e) => crate::parser::spec_parse(input@) == Some(e@),
                Err(e) => crate::parser::spec_parse(input@) is None && e@
                    == SpecQueryError::Malformed,
            },
    {
        match crate::parser::parse(input) {
            Ok(e) => Ok(e),
            Err(_) => Err(QueryError::Malformed),
        }
    }

    /// Whether any `Phrase` occurs anywhere in this tree.
    pub fn has_phrases(&self) -> (r: bool)
        ensures
            r == spec_has_phrases(self@),
        decreases *self,
    {
        match self {
            Expr::Phrase(..) => true,
            Expr::Not(inner) => inner.has_phrases(),
            Expr::Then(inner) => {
                proof {
                    assert(decreases_to!(*self => self->Then_0));
                    assert(self->Then_0 == *inner);
                    assert(decreases_to!(*inner => inner@));
                }
                Self::vec_has_phrases(inner)
            },
            Expr::And(inner) => {
                proof {
                    assert(decreases_to!(*self => self->And_0));
                    assert(self->And_0 == *inner);
                    assert(decreases_to!(*inner => inner@));
                }
                Self::vec_has_phrases(inner)
            },
            Expr::Or(inner) => {
                proof {
                    assert(decreases_to!(*self => self->Or_0));
                    assert(self->Or_0 == *inner);
                    assert(decreases_to!(*inner => inner@));
                }
                Self::vec_has_phrases(inner)
            },
            _ => false,
        }
    }

    fn vec_has_phrases(v: &Vec<Expr>) -> (r: bool)
        ensures
            r == seq_has_phrases(views_of(v@)),
        decreases v@,
    {
        let ghost s = views_of(v@);
        proof {
            lemma_views_of(v@);
        }
        let mut i: usize = 0;
        while i < v.len()
            invariant
                0 <= i <= v@.len(),
                s == views_of(v@),
                s.len() == v@.len(),
                !seq_has_phrases(s.take(i as int)),
            decreases v@.len() - i,
        {
            proof {
                assert(decreases_to!(v@ => v@[i as int]));
                lemma_views_of(v@);
                assert(views_of(v@)[i as int] == view_of(v@[i as int]));
            }
            if (&v[i]).has_phrases() {
                proof {
                    lemma_seq_has_phrases_elem(s, i as int);
                }
                return true;
            }
            proof {
                assert(s.take(i + 1 as int).drop_last() =~= s.take(i as int));
            }
            i += 1;
        }
        proof {
            assert(s.take(v@.len() as int) =~= s);
        }
        false
    }

    /// Whether any `Func` occurs anywhere in this tree.
    pub fn has_funcs(&self) -> (r: bool)
        ensures
            r == spec_has_funcs(self@),
        decreases *self,
    {
        match self {
            Expr::Func(..) => true,
            Expr::Not(inner) => inner.has_funcs(),
            Expr::Then(inner) => {
                proof {
                    assert(decreases_to!(*self => self->Then_0));
                    assert(self->Then_0 == *inner);
                    assert(decreases_to!(*inner => inner@));
                }
                Self::vec_has_funcs(inner)
            },
            Expr::And(inner) => {
                proof {
                    assert(decreases_to!(*self => self->And_0));
                    assert(self->And_0 == *inner);
                    assert(decreases_to!(*inner => inner@));
                }
                Self::vec_has_funcs(inner)
            },
            Expr::Or(inner) => {
                proof {
                    assert(decreases_to!(*self => self->Or_0));
                    assert(self->Or_0 == *inner);
                    assert(decreases_to!(*inner => inner@));
                }
                Self::vec_has_funcs(inner)
            },
            _ => false,
        }
    }

    fn vec_has_funcs(v: &Vec<Expr>) -> (r: bool)
        ensures
            r == seq_has_funcs(views_of(v@)),
        decreases v@,
    {
        let ghost s = views_of(v@);
        proof {
            lemma_views_of(v@);
        }
        let mut i: usize = 0;
        while i < v.len()
            invariant
                0 <= i <= v@.len(),
                s == views_of(v@),
                s.len() == v@.len(),
                !seq_has_funcs(s.take(i as int)),
            decreases v@.len() - i,
        {
            proof {
                assert(decreases_to!(v@ => v@[i as int]));
                lemma_views_of(v@);
                assert(views_of(v@)[i as int] == view_of(v@[i as int]));
            }
            if (&v[i]).has_funcs() {
                proof {
                    lemma_seq_has_funcs_elem(s, i as int);
                }
                return true;
            }
            proof {
                assert(s.take(i + 1 as int).drop_last() =~= s.take(i as int));
            }
            i += 1;
        }
        proof {
            assert(s.take(v@.len() as int) =~= s);
        }
        false
    }

    /// Whether this node is a junction or a negation.
    pub fn is_compound(&self) -> (r: bool)
        ensures
            r == (self@ is Then || self@ is And || self@ is Or || self@ is Not),
    {
        match self {
            Expr::Then(..) => true,
            Expr::And(..) => true,
            Expr::Or(..) => true,
            Expr::Not(..) => true,
            _ => false,
        }
    }

    pub fn is_and(&self) -> (r: bool)
        ensures
            r == (self@ is And),
    {
        match self {
            Expr::And(..) => true,
            _ => false,
        }
    }

    pub fn is_or(&self) -> (r: bool)
        ensures
            r == (self@ is Or),
    {
        match self {
            Expr::Or(..) => true,
            _ => false,
        }
    }

    /// The value of the named predicate at the root or in a top-level `And`.
    pub fn get_func<'a>(&'a self, key: &str) -> (r: Option<&'a str>)
        ensures
            match r {
                Some(v) => spec_get_func(self@, key@) == Some(v@),
                None => spec_get_func(self@, key@) is None,
            },
        decreases *self,
    {
        match self {
            Expr::Func(k, v) => {
                if str_eq(k.as_str(), key) {
                    Some(v.as_str())
                } else {
                    None
                }
            },
            Expr::And(inner) => {
                proof {
                    assert(decreases_to!(*self => self->And_0));
                    assert(self->And_0 == *inner);
                    assert(decreases_to!(*inner => inner@));
                }
                Self::vec_get_func(inner, key)
            },
            _ => None,
        }
    }

    fn vec_get_func<'a>(v: &'a Vec<Expr>, key: &str) -> (r: Option<&'a str>)
        ensures
            match r {
                Some(val) => seq_get_func(views_of(v@), key@) == Some(val@),
                None => seq_get_func(views_of(v@), key@) is None,
            },
        decreases v@,
    {
        let ghost s = views_of(v@);
        proof {
            lemma_views_of(v@);
            assert(s.skip(0) =~= s);
        }
        let mut i: usize = 0;
        while i < v.len()
            invariant
                0 <= i <= v@.len(),
                s == views_of(v@),
                s.len() == v@.len(),
                seq_get_func(s, key@) == seq_get_func(s.skip(i as int), key@),
            decreases v@.len() - i,
        {
            proof {
                assert(decreases_to!(v@ => v@[i as int]));
                lemma_views_of(v@);
                assert(views_of(v@)[i as int] == view_of(v@[i as int]));
                assert(s.skip(i as int)[0] == s[i as int]);
            }
            let found = (&v[i]).get_func(key);
            if found.is_some() {
                return found;
            }
            proof {
                assert(s.skip(i as int).drop_first() =~= s.skip(i + 1 as int));
            }
            i += 1;
        }
        proof {
            assert(s.skip(v@.len() as int) =~= Seq::<SpecExpr>::empty());
        }
        None
    }

    /// Structural equality of the mathematical views.
    pub fn expr_eq(a: &Expr, b: &Expr) -> (r: bool)
        ensures
            r == (a@ == b@),
        decreases *a,
    {
        match (a, b) {
            (Expr::Not(x), Expr::Not(y)) => Self::expr_eq(x, y),
            (Expr::Then(x), Expr::Then(y)) => {
                proof {
                    assert(decreases_to!(*a => a->Then_0));
                    assert(a->Then_0 == *x);
                    assert(decreases_to!(*x => x@));
                }
                Self::vecs_eq(x, y)
            },
            (Expr::And(x), Expr::And(y)) => {
                proof {
                    assert(decreases_to!(*a => a->And_0));
                    assert(a->And_0 == *x);
                    assert(decreases_to!(*x => x@));
                }
                Self::vecs_eq(x, y)
            },
            (Expr::Or(x), Expr::Or(y)) => {
                proof {
                    assert(decreases_to!(*a => a->Or_0));
                    assert(a->Or_0 == *x);
                    assert(decreases_to!(*x => x@));
                }
                Self::vecs_eq(x, y)
            },
            (Expr::Func(k1, v1), Expr::Func(k2, v2)) => str_eq(k1.as_str(), k2.as_str())
                && str_eq(v1.as_str(), v2.as_str()),
            (Expr::Phrase(x), Expr::Phrase(y)) => str_eq(x.as_str(), y.as_str()),
            (Expr::True, Expr::True) => true,
            (Expr::False, Expr::False) => true,
            (Expr::Empty, Expr::Empty) => true,
            _ => false,
        }
    }

    fn vecs_eq(x: &Vec<Expr>, y: &Vec<Expr>) -> (r: bool)
        ensures
            r == (views_of(x@) == views_of(y@)),
        decreases x@,
    {
        proof {
            lemma_views_of(x@);
            lemma_views_of(y@);
        }
        if x.len() != y.len() {
            return false;
        }
        let mut i: usize = 0;
        while i < x.len()
            invariant
                0 <= i <= x@.len(),
            x@.len() == y@.len(),
                forall|j: int| 0 <= j < i ==> views_of(x@)[j] == views_of(y@)[j],
            decreases x@.len() - i,
        {
            proof {
                assert(decreases_to!(x@ => x@[i as int]));
                lemma_views_of(x@);
                lemma_views_of(y@);
            }
            if !Self::expr_eq(&x[i], &y[i]) {
                proof {
                    assert(views_of(x@)[i as int] != views_of(y@)[i as int]);
                }
                return false;
            }
            i += 1;
        }
        proof {
            lemma_views_of(x@);
            lemma_views_of(y@);
            assert(views_of(x@) =~= views_of(y@));
        }
        true
    }

    fn rank_of(&self) -> (r: i32)
        ensures
            r as int == rank(self@),
    {
        match self {
            Expr::Not(_) => 0,
            Expr::Then(_) => 1,
            Expr::And(_) => 2,
            Expr::Or(_) => 3,
            Expr::Func(_, _) => 4,
            Expr::Phrase(_) => 5,
            Expr::True => 6,
            Expr::False => 7,
            Expr::Empty => 8,
        }
    }

    /// Executable mirror of the structural total order `ecmp`.
    pub fn cmp_exprs(a: &Expr, b: &Expr) -> (r: i32)
        ensures
            r as int == ecmp(a@, b@),
        decreases *a,
    {
        let ra = a.rank_of();
        let rb = b.rank_of();
        if ra < rb {
            return -1;
        }
        if ra > rb {
            return 1;
        }
        match (a, b) {
            (Expr::Not(x), Expr::Not(y)) => Self::cmp_exprs(x, y),
            (Expr::Then(x), Expr::Then(y)) => {
                proof {
                    assert(decreases_to!(*a => a->Then_0));
                    assert(a->Then_0 == *x);
                    assert(decreases_to!(*x => x@));
                }
                Self::cmp_vecs(x, y)
            },
            (Expr::And(x), Expr::And(y)) => {
                proof {
                    assert(decreases_to!(*a => a->And_0));
                    assert(a->And_0 == *x);
                    assert(decreases_to!(*x => x@));
                }
                Self::cmp_vecs(x, y)
            },
            (Expr::Or(x), Expr::Or(y)) => {
                proof {
                    assert(decreases_to!(*a => a->Or_0));
                    assert(a->Or_0 == *x);
                    assert(decreases_to!(*x => x@));
                }
                Self::cmp_vecs(x, y)
            },
            (Expr::Func(k1, v1), Expr::Func(k2, v2)) => {
                let c = str_cmp_exec(k1.as_str(), k2.as_str());
                if c != 0 {
                    c
                } else {
                    str_cmp_exec(v1.as_str(), v2.as_str())
                }
            },
            (Expr::Phrase(x), Expr::Phrase(y)) => str_cmp_exec(x.as_str(), y.as_str()),
            _ => 0,
        }
    }

    #[verifier::loop_isolation(false)]
    fn cmp_vecs(x: &Vec<Expr>, y: &Vec<Expr>) -> (r: i32)
        ensures
            r as int == seq_ecmp(views_of(x@), views_of(y@)),
        decreases x@,
    {
        let ghost sx = views_of(x@);
        let ghost sy = views_of(y@);
        proof {
            lemma_views_of(x@);
            lemma_views_of(y@);
            assert(sx.skip(0) =~= sx);
            assert(sy.skip(0) =~= sy);
        }
        let mut i: usize = 0;
        while i < x.len() && i < y.len()
            invariant
                0 <= i <= x@.len(),
                i <= y@.len(),
                seq_ecmp(sx, sy) == seq_ecmp(sx.skip(i as int), sy.skip(i as int)),
            decreases x@.len() - i,
        {
            proof {
                assert(decreases_to!(x@ => x@[i as int]));
                assert(sx.skip(i as int)[0] == sx[i as int]);
                assert(sy.skip(i as int)[0] == sy[i as int]);
                assert(sx.skip(i as int).drop_first() =~= sx.skip(i + 1 as int));
                assert(sy.skip(i as int).drop_first() =~= sy.skip(i + 1 as int));
            }
            let c = Self::cmp_exprs(&x[i], &y[i]);
            if c != 0 {
                return c;
            }
            i += 1;
        }
        proof {
            if i >= x.len() {
                assert(sx.skip(i as int) =~= Seq::<SpecExpr>::empty());
            }
            if i >= y.len() {
                assert(sy.skip(i as int) =~= Seq::<SpecExpr>::empty());
            }
        }
        if x.len() == y.len() {
            0
        } else if x.len() < y.len() {
            -1
        } else {
            1
        }
    }

    /// Rewrite into negation-normal form: `Not(Not(x))` cancels, De Morgan's
    /// laws push `Not` through `And` and `Or`, and atoms keep at most a
    /// single `Not` wrapper.
    pub fn to_nnf(self) -> (r: Expr)
        ensures
            r@ == spec_to_nnf(self@),
    {
        self.nnf_rec(true)
    }

    fn nnf_rec(self, pos: bool) -> (r: Expr)
        ensures
            r@ == spec_nnf(self@, pos),
        decreases self,
    {
        let ghost orig = self;
        match self {
            Expr::Not(inner) => (*inner).nnf_rec(!pos),
            Expr::And(xs) => {
                proof {
                    assert(decreases_to!(orig => orig->And_0));
                    assert(orig->And_0 == xs);
                    assert(decreases_to!(xs => xs@));
                }
                let ys = Self::vec_nnf(xs, pos);
                if pos {
                    Expr::And(ys)
                } else {
                    Expr::Or(ys)
                }
            },
            Expr::Or(xs) => {
                proof {
                    assert(decreases_to!(orig => orig->Or_0));
                    assert(orig->Or_0 == xs);
                    assert(decreases_to!(xs => xs@));
                }
                let ys = Self::vec_nnf(xs, pos);
                if pos {
                    Expr::Or(ys)
                } else {
                    Expr::And(ys)
                }
            },
            Expr::Then(xs) => {
                if pos {
                    proof {
                        assert(decreases_to!(orig => orig->Then_0));
                        assert(orig->Then_0 == xs);
                        assert(decreases_to!(xs => xs@));
                    }
                    Expr::Then(Self::vec_nnf(xs, true))
                } else {
                    Expr::Not(Box::new(Expr::Then(xs)))
                }
            },
            other => if pos {
                other
            } else {
                Expr::Not(Box::new(other))
            },
        }
    }

    #[verifier::loop_isolation(false)]
    fn vec_nnf(xs: Vec<Expr>, pos: bool) -> (r: Vec<Expr>)
        ensures
            views_of(r@) == seq_nnf(views_of(xs@), pos),
        decreases xs@,
    {
        let ghost orig = xs@;
        let ghost s0 = views_of(xs@);
        proof {
            lemma_views_of(orig);
        }
        let mut rest = xs;
        let mut out: Vec<Expr> = Vec::new();
        let ghost mut i: int = 0;
        while rest.len() > 0
            invariant
                0 <= i,
                i + rest@.len() == orig.len(),
                rest@ == orig.skip(i),
                views_of(out@) == seq_nnf(s0.take(i), pos),
            decreases rest@.len(),
        {
            let ghost out_prev = out@;
            let e = rest.remove(0);
            proof {
                assert(orig.skip(i)[0] == orig[i]);
                assert(e == orig[i]);
                assert(decreases_to!(orig => orig[i]));
                assert(orig.skip(i).drop_first() =~= orig.skip(i + 1));
            }
            let d = e.nnf_rec(pos);
            out.push(d);
            proof {
                assert(out@.drop_last() =~= out_prev);
                assert(views_of(out@) == views_of(out_prev).push(view_of(d)));
                assert(s0.take(i + 1).drop_last() =~= s0.take(i));
                assert(s0.take(i + 1).last() == view_of(orig[i]));
                i = i + 1;
            }
        }
        proof {
            assert(s0.take(i) =~= s0);
        }
        out
    }

    #[verifier::loop_isolation(false)]
    fn splice_vec(xs: Vec<Expr>, and_mode: bool) -> (r: Vec<Expr>)
        ensures
            views_of(r@) == splice_juncts(views_of(xs@), and_mode),
    {
        let ghost orig = xs@;
        let ghost s0 = views_of(orig);
        proof {
            lemma_views_of(orig);
        }
        let mut rest = xs;
        let mut out: Vec<Expr> = Vec::new();
        let ghost mut i: int = 0;
        while rest.len() > 0
            invariant
                0 <= i,
                i + rest@.len() == orig.len(),
                rest@ == orig.skip(i),
                views_of(out@) == splice_juncts(s0.take(i), and_mode),
            decreases rest@.len(),
        {
            let ghost out_prev = out@;
            let e = rest.remove(0);
            proof {
                assert(orig.skip(i)[0] == orig[i]);
                assert(e == orig[i]);
                assert(orig.skip(i).drop_first() =~= orig.skip(i + 1));
                assert(s0.take(i + 1).drop_last() =~= s0.take(i));
                assert(s0.take(i + 1).last() == view_of(orig[i]));
            }
            match e {
                Expr::And(mut inner) if and_mode => {
                    let ghost inner0 = inner@;
                    out.append(&mut inner);
                    proof {
                        lemma_views_of_concat(out_prev, inner0);
                    }
                },
                Expr::Or(mut inner) if !and_mode => {
                    let ghost inner0 = inner@;
                    out.append(&mut inner);
                    proof {
                        lemma_views_of_concat(out_prev, inner0);
                    }
                },
                other => {
                    out.push(other);
                    proof {
                        assert(out@.drop_last() =~= out_prev);
                        assert(views_of(out@) == views_of(out_prev).push(view_of(
                            out@.last(),
                        )));
                    }
                },
            }
            proof {
                i = i + 1;
            }
        }
        proof {
            assert(s0.take(i) =~= s0);
        }
        out
    }

    #[verifier::loop_isolation(false)]
    fn drop_units_vec(xs: Vec<Expr>, and_mode: bool) -> (r: Vec<Expr>)
        ensures
            views_of(r@) == drop_units(views_of(xs@), and_mode),
    {
        let ghost orig = xs@;
        let ghost s0 = views_of(orig);
        proof {
            lemma_views_of(orig);
        }
        let mut rest = xs;
        let mut out: Vec<Expr> = Vec::new();
        let ghost mut i: int = 0;
        while rest.len() > 0
            invariant
                0 <= i,
                i + rest@.len() == orig.len(),
                rest@ == orig.skip(i),
                views_of(out@) == drop_units(s0.take(i), and_mode),
            decreases rest@.len(),
        {
            let ghost out_prev = out@;
            let e = rest.remove(0);
            proof {
                assert(orig.skip(i)[0] == orig[i]);
                assert(e == orig[i]);
                assert(orig.skip(i).drop_first() =~= orig.skip(i + 1));
                assert(s0.take(i + 1).drop_last() =~= s0.take(i));
                assert(s0.take(i + 1).last() == view_of(orig[i]));
            }
            match e {
                Expr::True if and_mode => {},
                Expr::False if !and_mode => {},
                Expr::Empty => {},
                other => {
                    out.push(other);
                    proof {
                        assert(out@.drop_last() =~= out_prev);
                        assert(views_of(out@) == views_of(out_prev).push(view_of(
                            out@.last(),
                        )));
                    }
                },
            }
            proof {
                i = i + 1;
            }
        }
        proof {
            assert(s0.take(i) =~= s0);
        }
        out
    }

    #[verifier::loop_isolation(false)]
    fn find_insert_pos(out: &Vec<Expr>, x: &Expr) -> (j: usize)
        ensures
            0 <= j <= out@.len(),
            forall|k: int| 0 <= k < j ==> ecmp(x@, views_of(out@)[k]) > 0,
            j < out@.len() ==> ecmp(x@, views_of(out@)[j as int]) <= 0,
    {
        proof {
            lemma_views_of(out@);
        }
        let mut j: usize = 0;
        while j < out.len()
            invariant
                0 <= j <= out@.len(),
                forall|k: int| 0 <= k < j ==> ecmp(x@, views_of(out@)[k]) > 0,
            decreases out@.len() - j,
        {
            if Self::cmp_exprs(x, &out[j]) <= 0 {
                return j;
            }
            j += 1;
        }
        j
    }

    #[verifier::loop_isolation(false)]
    fn insert_sorted(out: &mut Vec<Expr>, x: Expr)
        ensures
            views_of(final(out)@) == sorted_insert(x@, views_of(old(out)@)),
    {
        let ghost s = views_of(old(out)@);
        proof {
            lemma_views_of(old(out)@);
        }
        let j = Self::find_insert_pos(out, &x);
        let ghost xv = x@;
        out.insert(j, x);
        proof {
            lemma_sorted_insert_at(xv, s, j as int);
            lemma_views_of(out@);
            lemma_views_of(old(out)@);
            assert(views_of(out@) =~= s.take(j as int) + seq![xv] + s.skip(j as int));
        }
    }

    #[verifier::loop_isolation(false)]
    fn sort_vec(xs: Vec<Expr>) -> (r: Vec<Expr>)
        ensures
            views_of(r@) == sort_exprs(views_of(xs@)),
    {
        let ghost orig = xs@;
        let ghost s0 = views_of(orig);
        proof {
            lemma_views_of(orig);
        }
        let mut rest = xs;
        let mut out: Vec<Expr> = Vec::new();
        while rest.len() > 0
            invariant
                rest@.len() <= orig.len(),
                rest@ == orig.take(rest@.len() as int),
                views_of(out@) == sort_exprs(s0.skip(rest@.len() as int)),
            decreases rest@.len(),
        {
            let ghost i = rest@.len() as int;
            let e_opt = rest.pop();
            let e = e_opt.unwrap();
            proof {
                assert(orig.take(i).last() == orig[i - 1]);
                assert(e == orig[i - 1]);
                assert(orig.take(i).drop_last() =~= orig.take(i - 1));
                assert(s0.skip(i - 1)[0] == s0[i - 1]);
                assert(s0.skip(i - 1).drop_first() =~= s0.skip(i));
                assert(view_of(e) == s0[i - 1]);
            }
            Self::insert_sorted(&mut out, e);
        }
        proof {
            assert(s0.skip(0) =~= s0);
        }
        out
    }

    #[verifier::loop_isolation(false)]
    fn vec_contains(v: &Vec<Expr>, x: &Expr) -> (r: bool)
        ensures
            r == views_of(v@).contains(x@),
    {
        let ghost s = views_of(v@);
        proof {
            lemma_views_of(v@);
        }
        let mut j: usize = 0;
        while j < v.len()
            invariant
                0 <= j <= v@.len(),
                forall|k: int| 0 <= k < j ==> views_of(v@)[k] != x@,
            decreases v@.len() - j,
        {
            if Self::expr_eq(&v[j], x) {
                proof {
                    assert(s[j as int] == x@);
                }
                return true;
            }
            j += 1;
        }
        proof {
            assert(forall|k: int| 0 <= k < s.len() ==> s[k] != x@);
        }
        false
    }

    #[verifier::loop_isolation(false)]
    fn dedup_vec(xs: Vec<Expr>) -> (r: Vec<Expr>)
        ensures
            views_of(r@) == dedup_exprs(views_of(xs@)),
    {
        let ghost orig = xs@;
        let ghost s0 = views_of(orig);
        proof {
            lemma_views_of(orig);
        }
        let mut rest = xs;
        let mut out: Vec<Expr> = Vec::new();
        let ghost mut i: int = 0;
        while rest.len() > 0
            invariant
                0 <= i,
                i + rest@.len() == orig.len(),
                rest@ == orig.skip(i),
                views_of(out@) == dedup_exprs(s0.take(i)),
            decreases rest@.len(),
        {
            let ghost out_prev = out@;
            let e = rest.remove(0);
            proof {
                assert(orig.skip(i)[0] == orig[i]);
                assert(e == orig[i]);
                assert(orig.skip(i).drop_first() =~= orig.skip(i + 1));
                assert(s0.take(i + 1).drop_last() =~= s0.take(i));
                assert(s0.take(i + 1).last() == view_of(orig[i]));
            }
            if !Self::vec_contains(&out, &e) {
                out.push(e);
                proof {
                    assert(out@.drop_last() =~= out_prev);
                    assert(views_of(out@) == views_of(out_prev).push(view_of(out@.last())));
                }
            }
            proof {
                i = i + 1;
            }
        }
        proof {
            assert(s0.take(i) =~= s0);
        }
        out
    }

    #[verifier::loop_isolation(false)]
    fn contains_const(v: &Vec<Expr>, and_mode: bool) -> (r: bool)
        ensures
            and_mode ==> r == views_of(v@).contains(SpecExpr::False),
            !and_mode ==> r == views_of(v@).contains(SpecExpr::True),
    {
        let ghost s = views_of(v@);
        proof {
            lemma_views_of(v@);
        }
        let mut j: usize = 0;
        while j < v.len()
            invariant
                0 <= j <= v@.len(),
                and_mode ==> forall|k: int| 0 <= k < j ==> views_of(v@)[k] != SpecExpr::False,
                !and_mode ==> forall|k: int| 0 <= k < j ==> views_of(v@)[k] != SpecExpr::True,
            decreases v@.len() - j,
        {
            match &v[j] {
                Expr::False if and_mode => {
                    proof {
                        assert(s[j as int] == SpecExpr::False);
                    }
                    return true;
                },
                Expr::True if !and_mode => {
                    proof {
                        assert(s[j as int] == SpecExpr::True);
                    }
                    return true;
                },
                _ => {},
            }
            j += 1;
        }
        proof {
            assert(forall|k: int|
                0 <= k < s.len() ==> s[k] != (if and_mode {
                    SpecExpr::False
                } else {
                    SpecExpr::True
                }));
        }
        false
    }

    #[verifier::loop_isolation(false)]
    fn find_conflict_vec(v: &Vec<Expr>) -> (r: bool)
        ensures
            r == has_conflict(views_of(v@)),
    {
        let ghost s = views_of(v@);
        proof {
            lemma_views_of(v@);
        }
        let mut j: usize = 0;
        while j < v.len()
            invariant
                0 <= j <= v@.len(),
                forall|jj: int, ii: int|
                    0 <= jj < j && 0 <= ii < s.len() ==> !(s[jj] is Not && *s[jj]->Not_0
                        == s[ii]),
            decreases v@.len() - j,
        {
            match &v[j] {
                Expr::Not(inner) => {
                    let mut i: usize = 0;
                    while i < v.len()
                        invariant
                            0 <= i <= v@.len(),
                            0 <= j < v@.len(),
                            v@[j as int] is Not,
                            s[j as int] is Not,
                            *s[j as int]->Not_0 == view_of(*v@[j as int]->Not_0),
                            inner == v@[j as int]->Not_0,
                            forall|ii: int| 0 <= ii < i ==> *s[j as int]->Not_0 != s[ii],
                        decreases v@.len() - i,
                    {
                        if Self::expr_eq(inner, &v[i]) {
                            proof {
                                assert(s[j as int] is Not);
                                assert(*s[j as int]->Not_0 == s[i as int]);
                            }
                            return true;
                        }
                        i += 1;
                    }
                },
                _ => {},
            }
            j += 1;
        }
        proof {
            assert(forall|ii: int, jj: int|
                0 <= ii < s.len() && 0 <= jj < s.len() ==> !(s[jj] is Not && *s[jj]->Not_0
                    == s[ii]));
        }
        false
    }

    /// Algebraic simplification, bottom-up: junctions are flattened one
    /// level, neutral constants dropped, children sorted and deduplicated,
    /// and an absorbing child or a complementary pair collapses the node.
    pub fn reduce(self) -> (r: Expr)
        ensures
            r@ == spec_reduce(self@),
        decreases self,
    {
        let ghost orig = self;
        match self {
            Expr::And(xs) => {
                proof {
                    assert(decreases_to!(orig => orig->And_0));
                    assert(orig->And_0 == xs);
                    assert(decreases_to!(xs => xs@));
                }
                let rs = Self::vec_reduce(xs);
                let lst = Self::dedup_vec(
                    Self::sort_vec(Self::drop_units_vec(Self::splice_vec(rs, true), true)),
                );
                if Self::contains_const(&lst, true) || Self::find_conflict_vec(&lst) {
                    Expr::False
                } else if lst.len() == 0 {
                    proof {
                        lemma_views_of(lst@);
                        assert(views_of(lst@) =~= Seq::<SpecExpr>::empty());
                    }
                    Expr::Empty
                } else {
                    proof {
                        lemma_views_of(lst@);
                    }
                    Expr::And(lst)
                }
            },
            Expr::Or(xs) => {
                proof {
                    assert(decreases_to!(orig => orig->Or_0));
                    assert(orig->Or_0 == xs);
                    assert(decreases_to!(xs => xs@));
                }
                let rs = Self::vec_reduce(xs);
                let lst = Self::dedup_vec(
                    Self::sort_vec(Self::drop_units_vec(Self::splice_vec(rs, false), false)),
                );
                if Self::contains_const(&lst, false) || Self::find_conflict_vec(&lst) {
                    Expr::True
                } else if lst.len() == 0 {
                    proof {
                        lemma_views_of(lst@);
                        assert(views_of(lst@) =~= Seq::<SpecExpr>::empty());
                    }
                    Expr::Empty
                } else {
                    proof {
                        lemma_views_of(lst@);
                    }
                    Expr::Or(lst)
                }
            },
            Expr::Not(inner) => Expr::Not(Box::new((*inner).reduce())),
            Expr::Then(xs) => {
                proof {
                    assert(decreases_to!(orig => orig->Then_0));
                    assert(orig->Then_0 == xs);
                    assert(decreases_to!(xs => xs@));
                }
                Expr::Then(Self::vec_reduce(xs))
            },
            other => other,
        }
    }

    #[verifier::loop_isolation(false)]
    fn vec_reduce(xs: Vec<Expr>) -> (r: Vec<Expr>)
        ensures
            views_of(r@) == seq_reduce(views_of(xs@)),
        decreases xs@,
    {
        let ghost orig = xs@;
        let ghost s0 = views_of(xs@);
        proof {
            lemma_views_of(orig);
        }
        let mut rest = xs;
        let mut out: Vec<Expr> = Vec::new();
        let ghost mut i: int = 0;
        while rest.len() > 0
            invariant
                0 <= i,
                i + rest@.len() == orig.len(),
                rest@ == orig.skip(i),
                views_of(out@) == seq_reduce(s0.take(i)),
            decreases rest@.len(),
        {
            let ghost out_prev = out@;
            let e = rest.remove(0);
            proof {
                assert(orig.skip(i)[0] == orig[i]);
                assert(e == orig[i]);
                assert(decreases_to!(orig => orig[i]));
                assert(orig.skip(i).drop_first() =~= orig.skip(i + 1));
            }
            let d = e.reduce();
            out.push(d);
            proof {
                assert(out@.drop_last() =~= out_prev);
                assert(views_of(out@) == views_of(out_prev).push(view_of(d)));
                assert(s0.take(i + 1).drop_last() =~= s0.take(i));
                assert(s0.take(i + 1).last() == view_of(orig[i]));
                i = i + 1;
            }
        }
        proof {
            assert(s0.take(i) =~= s0);
        }
        out
    }

    /// Semantic validation: rejects predicates inside `THEN` operands,
    /// `sort`/`order` inside `OR` operands, and control predicates below the
    /// top level.  An accepted tree is returned unchanged.
    pub fn validate(self) -> (r: Result<Expr, QueryError>)
        ensures
            match r {
                Ok(v) => v@ == self@ && spec_validate(self@, 0) is None,
                Err(e) => spec_validate(self@, 0) == Some(e@),
            },
    {
        match self.validate_rec(0) {
            Ok(_) => Ok(self),
            Err(e) => Err(e),
        }
    }

    #[verifier::loop_isolation(false)]
    fn validate_rec(&self, level: usize) -> (r: Result<(), QueryError>)
        ensures
            match r {
                Ok(_) => spec_validate(self@, level as nat) is None,
                Err(e) => spec_validate(self@, level as nat) == Some(e@),
            },
        decreases *self,
    {
        let next: usize = if level < 2 {
            level + 1
        } else {
            level
        };
        proof {
            assert(next as nat == next_level(level as nat));
        }
        match self {
            Expr::Not(inner) => inner.validate_rec(next),
            Expr::Then(xs) => {
                proof {
                    assert(decreases_to!(*self => self->Then_0));
                    assert(self->Then_0 == *xs);
                    assert(decreases_to!(*xs => xs@));
                }
                let ghost s = views_of(xs@);
                proof {
                    lemma_views_of(xs@);
                    assert(s.skip(0) =~= s);
                }
                let mut i: usize = 0;
                while i < xs.len()
                    invariant
                        0 <= i <= xs@.len(),
                        seq_validate_then(s, next as nat) == seq_validate_then(
                            s.skip(i as int),
                            next as nat,
                        ),
                    decreases xs@.len() - i,
                {
                    proof {
                        assert(decreases_to!(xs@ => xs@[i as int]));
                        lemma_views_of(xs@);
                        assert(views_of(xs@)[i as int] == view_of(xs@[i as int]));
                        assert(s.skip(i as int)[0] == s[i as int]);
                        assert(s.skip(i as int).drop_first() =~= s.skip(i + 1 as int));
                    }
                    let child = &xs[i];
                    if child.has_funcs() {
                        return Err(QueryError::ThenWithFuncs);
                    }
                    match child.validate_rec(next) {
                        Err(e) => {
                            return Err(e);
                        },
                        Ok(_) => {},
                    }
                    i += 1;
                }
                proof {
                    assert(s.skip(xs@.len() as int) =~= Seq::<SpecExpr>::empty());
                }
                Ok(())
            },
            Expr::And(xs) => {
                proof {
                    assert(decreases_to!(*self => self->And_0));
                    assert(self->And_0 == *xs);
                    assert(decreases_to!(*xs => xs@));
                }
                let ghost s = views_of(xs@);
                proof {
                    lemma_views_of(xs@);
                    assert(s.skip(0) =~= s);
                }
                let mut i: usize = 0;
                while i < xs.len()
                    invariant
                        0 <= i <= xs@.len(),
                        seq_validate(s, next as nat) == seq_validate(
                            s.skip(i as int),
                            next as nat,
                        ),
                    decreases xs@.len() - i,
                {
                    proof {
                        assert(decreases_to!(xs@ => xs@[i as int]));
                        lemma_views_of(xs@);
                        assert(views_of(xs@)[i as int] == view_of(xs@[i as int]));
                        assert(s.skip(i as int)[0] == s[i as int]);
                        assert(s.skip(i as int).drop_first() =~= s.skip(i + 1 as int));
                    }
                    match (&xs[i]).validate_rec(next) {
                        Err(e) => {
                            return Err(e);
                        },
                        Ok(_) => {},
                    }
                    i += 1;
                }
                proof {
                    assert(s.skip(xs@.len() as int) =~= Seq::<SpecExpr>::empty());
                }
                Ok(())
            },
            Expr::Or(xs) => {
                proof {
                    assert(decreases_to!(*self => self->Or_0));
                    assert(self->Or_0 == *xs);
                    assert(decreases_to!(*xs => xs@));
                    reveal_strlit("sort");
                    reveal_strlit("order");
                    assert("sort"@ =~= sort_chars());
                    assert("order"@ =~= order_chars());
                }
                let ghost s = views_of(xs@);
                proof {
                    lemma_views_of(xs@);
                    assert(s.skip(0) =~= s);
                }
                let mut i: usize = 0;
                while i < xs.len()
                    invariant
                        0 <= i <= xs@.len(),
                        seq_validate_or(s, next as nat) == seq_validate_or(
                            s.skip(i as int),
                            next as nat,
                        ),
                    decreases xs@.len() - i,
                {
                    proof {
                        assert(decreases_to!(xs@ => xs@[i as int]));
                        lemma_views_of(xs@);
                        assert(views_of(xs@)[i as int] == view_of(xs@[i as int]));
                        assert(s.skip(i as int)[0] == s[i as int]);
                        assert(s.skip(i as int).drop_first() =~= s.skip(i + 1 as int));
                    }
                    let child = &xs[i];
                    if child.get_func("sort").is_some() || child.get_func("order").is_some() {
                        return Err(QueryError::SortInsideOr);
                    }
                    match child.validate_rec(next) {
                        Err(e) => {
                            return Err(e);
                        },
                        Ok(_) => {},
                    }
                    i += 1;
                }
                proof {
                    assert(s.skip(xs@.len() as int) =~= Seq::<SpecExpr>::empty());
                }
                Ok(())
            },
            Expr::Func(k, _v) => {
                proof {
                    reveal_strlit("sort");
                    reveal_strlit("order");
                    reveal_strlit("bots");
                    assert("sort"@ =~= sort_chars());
                    assert("order"@ =~= order_chars());
                    assert("bots"@ =~= bots_chars());
                }
                if level > 1 && (str_eq(k.as_str(), "sort") || str_eq(k.as_str(), "order")
                    || str_eq(k.as_str(), "bots")) {
                    Err(QueryError::ControlNotTopLevel(k.clone()))
                } else {
                    Ok(())
                }
            },
            _ => Ok(()),
        }
    }

    #[verifier::loop_isolation(false)]
    fn find_expand_pos_exec(xs: &Vec<Expr>) -> (r: Option<usize>)
        ensures
            match r {
                Some(j) => find_expand_pos(views_of(xs@)) == Some(j as int),
                None => find_expand_pos(views_of(xs@)) is None,
            },
    {
        let ghost s = views_of(xs@);
        proof {
            lemma_views_of(xs@);
            lemma_find_expand_pos(s);
        }
        let mut j: usize = 0;
        while j < xs.len()
            invariant
                0 <= j <= xs@.len(),
                forall|k: int| 0 <= k < j ==> !is_expandable(s[k]),
            decreases xs@.len() - j,
        {
            let found = match &xs[j] {
                Expr::Or(inner) => Self::vec_has_funcs(inner) && Self::vec_has_phrases(inner),
                _ => false,
            };
            if found {
                proof {
                    assert(is_expandable(s[j as int]));
                    match find_expand_pos(s) {
                        Some(jj) => {
                            if jj < j {
                                assert(is_expandable(s[jj]));
                                assert(false);
                            } else if jj > j {
                                assert(!is_expandable(s[j as int]));
                                assert(false);
                            }
                        },
                        None => {
                            assert(!is_expandable(s[j as int]));
                            assert(false);
                        },
                    }
                }
                return Some(j);
            }
            j += 1;
        }
        proof {
            match find_expand_pos(s) {
                Some(jj) => {
                    assert(!is_expandable(s[jj]));
                    assert(false);
                },
                None => {},
            }
        }
        None
    }

    #[verifier::loop_isolation(false)]
    fn expand_vec_exec(xs: Vec<Expr>, b: usize) -> (r: Result<(Vec<Expr>, bool, usize), QueryError>)
        ensures
            match r {
                Ok((v, ex, b2)) => spec_expand_vec(views_of(xs@), b as nat) == Some(
                    (views_of(v@), ex, b2 as nat),
                ) && b2 <= b,
                Err(e) => spec_expand_vec(views_of(xs@), b as nat) is None && e@
                    == SpecQueryError::TooComplex,
            },
        decreases b as nat, 0int, 0int,
    {
        let ghost s = views_of(xs@);
        proof {
            lemma_views_of(xs@);
        }
        let pos = match Self::find_expand_pos_exec(&xs) {
            None => {
                return Ok((xs, false, b));
            },
            Some(p) => p,
        };
        proof {
            lemma_find_expand_pos(s);
        }
        if b == 0 {
            return Err(QueryError::TooComplex);
        }
        let mut rest = xs;
        let or_node = rest.remove(pos);
        let left = match or_node {
            Expr::Or(inner) => inner,
            _ => Vec::new(),
        };
        proof {
            lemma_views_of(rest@);
            (xs@).remove_ensures(pos as int);
            s.remove_ensures(pos as int);
            assert(views_of(rest@) =~= s.remove(pos as int));
            assert(views_of(left@) == s[pos as int]->Or_0);
        }
        match Self::distribute_exec(left, &rest, b - 1) {
            Err(e) => Err(e),
            Ok((out, b2)) => Ok((out, true, b2)),
        }
    }

    #[verifier::loop_isolation(false)]
    fn distribute_exec(left: Vec<Expr>, right: &Vec<Expr>, b: usize) -> (r: Result<
        (Vec<Expr>, usize),
        QueryError,
    >)
        ensures
            match r {
                Ok((v, b3)) => spec_distribute(views_of(left@), views_of(right@), b as nat)
                    == Some((views_of(v@), b3 as nat)) && b3 <= b,
                Err(e) => spec_distribute(views_of(left@), views_of(right@), b as nat)
                    is None && e@ == SpecQueryError::TooComplex,
            },
        decreases b as nat, left@.len(), 1int,
    {
        if left.len() == 0 {
            proof {
                lemma_views_of(left@);
            }
            return Ok((Vec::new(), b));
        }
        let ghost lv = views_of(left@);
        proof {
            lemma_views_of(left@);
            lemma_views_of(right@);
        }
        let mut lrest = left;
        let l = lrest.remove(0);
        proof {
            (left@).remove_ensures(0);
            lv.remove_ensures(0);
            lemma_views_of(lrest@);
            assert(views_of(lrest@) =~= lv.drop_first());
            assert(view_of(l) == lv[0]);
        }
        let mut inner: Vec<Expr> = Vec::new();
        inner.push(l);
        let mut k: usize = 0;
        while k < right.len()
            invariant
                0 <= k <= right@.len(),
                inner@.len() == 1 + k,
                view_of(inner@[0]) == lv[0],
                forall|j: int| 0 <= j < k ==> view_of(inner@[j + 1]) == view_of(right@[j]),
            decreases right@.len() - k,
        {
            let d = (&right[k]).duplicate();
            inner.push(d);
            k += 1;
        }
        proof {
            lemma_views_of(inner@);
            lemma_views_of(right@);
            assert(views_of(inner@) =~= seq![lv[0]] + views_of(right@));
        }
        match Self::expand_vec_exec(inner, b) {
            Err(e) => {
                return Err(e);
            },
            Ok((io, expanded, b2)) => {
                match Self::distribute_exec(lrest, right, b2) {
                    Err(e) => {
                        proof {
                            lemma_expand_vec_budget(seq![lv[0]] + views_of(right@), b as nat);
                        }
                        return Err(e);
                    },
                    Ok((mut restout, b3)) => {
                        let ghost io_v = views_of(io@);
                        let ghost rest_v = views_of(restout@);
                        let mut out: Vec<Expr>;
                        if expanded {
                            out = io;
                        } else {
                            out = Vec::new();
                            out.push(Expr::And(io));
                            proof {
                                lemma_views_of(out@);
                                assert(out@.len() == 1);
                                assert(view_of(out@[0]) == SpecExpr::And(io_v));
                                assert(views_of(out@) =~= seq![SpecExpr::And(io_v)]);
                            }
                        }
                        let ghost out_before = out@;
                        let ghost rest_before = restout@;
                        out.append(&mut restout);
                        proof {
                            lemma_views_of_concat(out_before, rest_before);
                        }
                        Ok((out, b3))
                    },
                }
            },
        }
    }

    #[verifier::loop_isolation(false)]
    fn vec_expand(xs: Vec<Expr>, b: usize) -> (r: Result<(Vec<Expr>, usize), QueryError>)
        ensures
            match r {
                Ok((v, b2)) => seq_expand(views_of(xs@), b as nat) == Some(
                    (views_of(v@), b2 as nat),
                ),
                Err(e) => seq_expand(views_of(xs@), b as nat) is None && e@
                    == SpecQueryError::TooComplex,
            },
        decreases xs@, 0int,
    {
        let ghost orig = xs@;
        let ghost s0 = views_of(orig);
        proof {
            lemma_views_of(orig);
        }
        let mut rest = xs;
        let mut out: Vec<Expr> = Vec::new();
        let mut bb = b;
        let ghost mut i: int = 0;
        while rest.len() > 0
            invariant
                0 <= i,
                i + rest@.len() == orig.len(),
                rest@ == orig.skip(i),
                seq_expand(s0.take(i), b as nat) == Some((views_of(out@), bb as nat)),
            decreases rest@.len(),
        {
            let ghost out_prev = out@;
            let e = rest.remove(0);
            proof {
                assert(orig.skip(i)[0] == orig[i]);
                assert(e == orig[i]);
                assert(decreases_to!(orig => orig[i]));
                assert(orig.skip(i).drop_first() =~= orig.skip(i + 1));
                assert(s0.take(i + 1).drop_last() =~= s0.take(i));
                assert(s0.take(i + 1).last() == view_of(orig[i]));
            }
            match e.expand_with(bb) {
                Err(er) => {
                    proof {
                        lemma_seq_expand_none_mono(s0, i + 1, b as nat);
                    }
                    return Err(er);
                },
                Ok(db) => {
                    let (d, b2) = db;
                    out.push(d);
                    bb = b2;
                    proof {
                        assert(out@.drop_last() =~= out_prev);
                        assert(views_of(out@) == views_of(out_prev).push(view_of(
                            out@.last(),
                        )));
                        i = i + 1;
                    }
                },
            }
        }
        proof {
            assert(s0.take(i) =~= s0);
        }
        Ok((out, bb))
    }

    fn expand_with(self, b: usize) -> (r: Result<(Expr, usize), QueryError>)
        ensures
            match r {
                Ok(vb) => spec_expand(self@, b as nat) == Some((vb.0@, vb.1 as nat)),
                Err(e) => spec_expand(self@, b as nat) is None && e@
                    == SpecQueryError::TooComplex,
            },
        decreases self, 1int,
    {
        let ghost orig = self;
        match self {
            Expr::And(xs) => {
                proof {
                    assert(decreases_to!(orig => orig->And_0));
                    assert(orig->And_0 == xs);
                    assert(decreases_to!(xs => xs@));
                }
                match Self::vec_expand(xs, b) {
                    Err(e) => Err(e),
                    Ok(rsb) => {
                        let (rs, b1) = rsb;
                        match Self::expand_vec_exec(rs, b1) {
                            Err(e) => Err(e),
                            Ok(ob) => {
                                let (out, expanded, b2) = ob;
                                if expanded {
                                    Ok((Expr::Or(out), b2))
                                } else {
                                    Ok((Expr::And(out), b2))
                                }
                            },
                        }
                    },
                }
            },
            Expr::Or(xs) => {
                proof {
                    assert(decreases_to!(orig => orig->Or_0));
                    assert(orig->Or_0 == xs);
                    assert(decreases_to!(xs => xs@));
                }
                match Self::vec_expand(xs, b) {
                    Err(e) => Err(e),
                    Ok(rsb) => {
                        let (rs, b1) = rsb;
                        Ok((Expr::Or(rs), b1))
                    },
                }
            },
            Expr::Then(xs) => {
                proof {
                    assert(decreases_to!(orig => orig->Then_0));
                    assert(orig->Then_0 == xs);
                    assert(decreases_to!(xs => xs@));
                }
                match Self::vec_expand(xs, b) {
                    Err(e) => Err(e),
                    Ok(rsb) => {
                        let (rs, b1) = rsb;
                        Ok((Expr::Then(rs), b1))
                    },
                }
            },
            other => Ok((other, b)),
        }
    }

    /// Distribute `And` over `Or` wherever a disjunction mixes phrases and
    /// predicates, within a budget of 8192 distribution steps, then reduce
    /// once more.  An exhausted budget is the "query is too complex" error.
    pub fn expand(self) -> (r: Result<Expr, QueryError>)
        ensures
            match r {
                Ok(v) => match spec_expand(self@, 8192) {
                    Some(xb) => v@ == spec_reduce(xb.0),
                    None => false,
                },
                Err(e) => spec_expand(self@, 8192) is None && e@
                    == SpecQueryError::TooComplex,
            },
    {
        match self.expand_with(8192) {
            Ok(vb) => {
                let (v, _) = vb;
                Ok(v.reduce())
            },
            Err(e) => Err(e),
        }
    }

    /// The full pipeline: validate, rewrite to negation-normal form, reduce,
    /// expand within the complexity budget, and reduce the expansion.
    pub fn normalize(self) -> (r: Result<Expr, QueryError>)
        ensures
            match r {
                Ok(v) => spec_normalize(self@) == Ok::<SpecExpr, SpecQueryError>(v@),
                Err(e) => spec_normalize(self@) == Err::<SpecExpr, SpecQueryError>(e@),
            },
    {
        let v = match self.validate() {
            Ok(v) => v,
            Err(e) => {
                return Err(e);
            },
        };
        let n = v.to_nnf().reduce();
        match n.expand() {
            Ok(x) => Ok(x),
            Err(e) => Err(e),
        }
    }

    /// Render the expression in the query language itself, so that parsing
    /// the rendering yields the same tree.
    pub fn to_query_string(&self) -> (r: String)
        ensures
            r@ == spec_print(self@),
        decreases *self, 1int,
    {
        match self {
            Expr::Not(inner) => {
                if inner.is_compound() {
                    let mut out = String::from_str("NOT (");
                    let body = inner.to_query_string();
                    out.append(body.as_str());
                    out.append(")");
                    out
                } else {
                    let mut out = String::from_str("NOT ");
                    let body = inner.to_query_string();
                    out.append(body.as_str());
                    out
                }
            },
            Expr::Then(xs) => {
                proof {
                    assert(decreases_to!(*self => self->Then_0));
                    assert(self->Then_0 == *xs);
                    assert(decreases_to!(*xs => xs@));
                }
                Self::print_list(xs, " THEN ")
            },
            Expr::And(xs) => {
                proof {
                    assert(decreases_to!(*self => self->And_0));
                    assert(self->And_0 == *xs);
                    assert(decreases_to!(*xs => xs@));
                }
                Self::print_list(xs, " AND ")
            },
            Expr::Or(xs) => {
                proof {
                    assert(decreases_to!(*self => self->Or_0));
                    assert(self->Or_0 == *xs);
                    assert(decreases_to!(*xs => xs@));
                }
                Self::print_list(xs, " OR ")
            },
            Expr::Func(k, v) => {
                let mut out = k.clone();
                out.append(":");
                let q = quote_exec(v.as_str());
                out.append(q.as_str());
                proof {
                    assert(out@ =~= k@ + ":"@ + quoted(v@));
                }
                out
            },
            Expr::Phrase(p) => quote_exec(p.as_str()),
            Expr::True => String::from_str("TRUE"),
            Expr::False => String::from_str("FALSE"),
            Expr::Empty => String::from_str("EMPTY"),
        }
    }

    #[verifier::loop_isolation(false)]
    fn print_list(xs: &Vec<Expr>, sep: &str) -> (r: String)
        ensures
            r@ == spec_print_list(views_of(xs@), sep@),
        decreases xs@, 0int,
    {
        let ghost s0 = views_of(xs@);
        proof {
            lemma_views_of(xs@);
        }
        let mut out = String::new();
        let mut i: usize = 0;
        while i < xs.len()
            invariant
                0 <= i <= xs@.len(),
                out@ == spec_print_list(s0.take(i as int), sep@),
            decreases xs@.len() - i,
        {
            proof {
                assert(decreases_to!(xs@ => xs@[i as int]));
                lemma_views_of(xs@);
                assert(views_of(xs@)[i as int] == view_of(xs@[i as int]));
                assert(s0.take(i + 1 as int).drop_last() =~= s0.take(i as int));
                assert(s0.take(i + 1 as int).last() == s0[i as int]);
            }
            let ghost out_prev = out@;
            if i > 0 {
                out.append(sep);
            }
            let child = &xs[i];
            let compound = child.is_compound();
            if compound {
                out.append("(");
            }
            let body = child.to_query_string();
            out.append(body.as_str());
            if compound {
                out.append(")");
            }
            proof {
                let item = if spec_is_compound(s0[i as int]) {
                    "("@ + spec_print(s0[i as int]) + ")"@
                } else {
                    spec_print(s0[i as int])
                };
                if i > 0 {
                    assert(out@ =~= out_prev + sep@ + item);
                } else {
                    assert(out@ =~= item);
                }
            }
            i += 1;
        }
        proof {
            assert(s0.take(xs@.len() as int) =~= s0);
        }
        out
    }

    /// A deep copy whose view is identical.
    pub fn duplicate(&self) -> (r: Expr)
        ensures
            r@ == self@,
        decreases *self,
    {
        match self {
            Expr::Not(inner) => Expr::Not(Box::new(inner.duplicate())),
            Expr::Then(v) => {
                proof {
                    assert(decreases_to!(*self => self->Then_0));
                    assert(self->Then_0 == *v);
                    assert(decreases_to!(*v => v@));
                }
                Expr::Then(Self::vec_duplicate(v))
            },
            Expr::And(v) => {
                proof {
                    assert(decreases_to!(*self => self->And_0));
                    assert(self->And_0 == *v);
                    assert(decreases_to!(*v => v@));
                }
                Expr::And(Self::vec_duplicate(v))
            },
            Expr::Or(v) => {
                proof {
                    assert(decreases_to!(*self => self->Or_0));
                    assert(self->Or_0 == *v);
                    assert(decreases_to!(*v => v@));
                }
                Expr::Or(Self::vec_duplicate(v))
            },
            Expr::Func(k, v) => Expr::Func(k.clone(), v.clone()),
            Expr::Phrase(p) => Expr::Phrase(p.clone()),
            Expr::True => Expr::True,
            Expr::False => Expr::False,
            Expr::Empty => Expr::Empty,
        }
    }

    fn vec_duplicate(v: &Vec<Expr>) -> (r: Vec<Expr>)
        ensures
            views_of(r@) == views_of(v@),
        decreases v@,
    {
        let mut out: Vec<Expr> = Vec::new();
        let mut i: usize = 0;
        while i < v.len()
            invariant
                0 <= i <= v@.len(),
                out@.len() == i,
                forall|j: int| 0 <= j < i ==> view_of(out@[j]) == view_of(v@[j]),
            decreases v@.len() - i,
        {
            proof {
                assert(decreases_to!(v@ => v@[i as int]));
            }
            let d = (&v[i]).duplicate();
            out.push(d);
            i += 1;
        }
        proof {
            lemma_views_of(out@);
            lemma_views_of(v@);
            assert(views_of(out@) =~= views_of(v@));
        }
        out
    }
}

} // verus!
