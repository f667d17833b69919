//! The regex-to-trigram query compiler.
//!
//! A parsed regular expression (delivered by an external parser as an
//! [`Ast`]) is turned into a conservative boolean expression over
//! trigrams: every document matching the regex satisfies the
//! expression, so intersecting posting lists can only lose false
//! positives, never matches.

use vstd::prelude::*;
use vstd::string::StringExecFns;
use crate::bitset::elems;
use crate::text::push_char;
use crate::text::string_from_chars;
use crate::trigram::CharResult;
use crate::trigram::fail_msg;
use crate::trigram::has_bad;
use crate::trigram::has_nul;
use crate::trigram::lemma_has_bad_oks;
use crate::trigram::lemma_tri_at_range;
use crate::trigram::lemma_tri_prefix;
use crate::trigram::oks;
use crate::trigram::oks_of;
use crate::trigram::tri_at;
use crate::trigram::tri_set;
use crate::trigram::trigrams_for;
use crate::trigram::unpack;
use crate::trigram::unpack_spec;

verus! {

broadcast use vstd::seq::axiom_seq_index_decreases, vstd::std_specs::vec::axiom_vec_index_decreases;

/// How often a repeated sub-expression may match.
#[derive(Clone, Copy, Debug, PartialEq, Eq)]
pub enum Repeater {
    /// `?`
    ZeroOrOne,
    /// `*`
    ZeroOrMore,
    /// `+`
    OneOrMore,
    /// `{min,max}`, with no upper bound when `max` is `None`.
    Range { min: u32, max: Option<u32> },
}

/// A parsed regular expression, as delivered by an external parser.
/// Node kinds the compiler does not understand arrive as [`Ast::Other`]
/// carrying the parser's rendering of the node.
#[derive(Debug, PartialEq, Eq)]
pub enum Ast {
    Empty,
    Literal { chars: Vec<char>, casei: bool },
    Group(Box<Ast>),
    Repeat { e: Box<Ast>, r: Repeater, greedy: bool },
    Concat(Vec<Ast>),
    Alternate(Vec<Ast>),
    Other(String),
}

/// A boolean expression over trigrams: the compiler's output.
#[derive(Debug, PartialEq, Eq)]
pub enum Op {
    And(Vec<Op>),
    Or(Vec<Op>),
    Any,
    Lit(u32),
}

/// Whether the repeater admits zero repetitions, so that no trigram
/// can be required of the repeated sub-expression.
pub open spec fn zero_min(r: Repeater) -> bool {
    match r {
        Repeater::ZeroOrOne => true,
        Repeater::ZeroOrMore => true,
        Repeater::OneOrMore => false,
        Repeater::Range { min, max } => min == 0,
    }
}

/// Whether the compiler accepts the expression: case-insensitive
/// literals, literals holding NUL, empty nodes and unrecognised nodes
/// are rejected (some only when they stand in a required position).
pub open spec fn compilable(e: Ast) -> bool
    decreases e,
{
    match e {
        Ast::Empty => false,
        Ast::Literal { chars, casei } => !casei && !has_nul(chars@),
        Ast::Group(b) => compilable(*b),
        Ast::Repeat { e, r, greedy } => zero_min(r) || compilable(*e),
        Ast::Concat(es) => forall|i: int| 0 <= i < es.len() ==> compilable(#[trigger] es[i]),
        Ast::Alternate(es) => forall|i: int| 0 <= i < es.len() ==> compilable(#[trigger] es[i]),
        Ast::Other(s) => false,
    }
}

/// Whether `ops` is the list of `Lit` operations for exactly the
/// trigram set `s`, in strictly increasing order.
pub open spec fn lits_of(ops: Seq<Op>, s: Set<int>) -> bool {
    &&& forall|i: int| 0 <= i < ops.len() ==> (#[trigger] ops[i]) is Lit
    &&& forall|i: int, j: int| 0 <= i < j < ops.len() ==> ops[i]->Lit_0 < ops[j]->Lit_0
    &&& forall|i: int| 0 <= i < ops.len() ==> s.contains((#[trigger] ops[i])->Lit_0 as int)
    &&& forall|v: int|
        s.contains(v) ==> exists|i: int| 0 <= i < ops.len() && (#[trigger] ops[i])->Lit_0 as int
            == v
}

/// The compilation relation: what operation tree a compilable
/// expression turns into.
pub open spec fn compiles_to(e: Ast, op: Op) -> bool
    decreases e,
{
    match e {
        Ast::Empty => false,
        Ast::Literal { chars, casei } => !casei && !has_nul(chars@) && op is And && lits_of(
            op->And_0@,
            tri_set(chars@),
        ),
        Ast::Group(b) => compiles_to(*b, op),
        Ast::Repeat { e, r, greedy } => if zero_min(r) {
            op is Any
        } else {
            compiles_to(*e, op)
        },
        Ast::Concat(es) => op is And && op->And_0.len() == es.len() && forall|i: int|
            0 <= i < es.len() ==> compiles_to(#[trigger] es[i], op->And_0[i]),
        Ast::Alternate(es) => op is Or && op->Or_0.len() == es.len() && forall|i: int|
            0 <= i < es.len() ==> compiles_to(#[trigger] es[i], op->Or_0[i]),
        Ast::Other(s) => false,
    }
}

/// The first sub-expression of `es` at or after `i` that the compiler
/// rejects, or the length if all compile.
pub open spec fn first_bad_sub(es: Seq<Ast>, i: int) -> int
    decreases es.len() - i,
{
    if i < 0 || i >= es.len() {
        es.len() as int
    } else if !compilable(es[i]) {
        i
    } else {
        first_bad_sub(es, i + 1)
    }
}

/// The message the compiler reports for an expression it rejects.
pub open spec fn compile_err(e: Ast) -> Seq<char>
    decreases e,
{
    match e {
        Ast::Empty => "unimplemented: "@,
        Ast::Literal { chars, casei } => if casei {
            "unsupported: case insensitive matching on '"@ + chars@ + "'"@
        } else {
            fail_msg(oks_of(chars@))
        },
        Ast::Group(b) => compile_err(*b),
        Ast::Repeat { e, r, greedy } => compile_err(*e),
        Ast::Concat(es) => {
            let fb = first_bad_sub(es@, 0);
            if 0 <= fb < es.len() {
                compile_err(es[fb])
            } else {
                Seq::empty()
            }
        },
        Ast::Alternate(es) => {
            let fb = first_bad_sub(es@, 0);
            if 0 <= fb < es.len() {
                compile_err(es[fb])
            } else {
                Seq::empty()
            }
        },
        Ast::Other(s) => "unimplemented: "@ + s@,
    }
}

/// Machine limit: every literal's character count leaves room for
/// the extractor's position arithmetic.
pub open spec fn lits_fit(e: Ast) -> bool
    decreases e,
{
    match e {
        Ast::Empty => true,
        Ast::Literal { chars, casei } => chars@.len() < usize::MAX,
        Ast::Group(b) => lits_fit(*b),
        Ast::Repeat { e, r, greedy } => lits_fit(*e),
        Ast::Concat(es) => forall|i: int| 0 <= i < es.len() ==> lits_fit(#[trigger] es[i]),
        Ast::Alternate(es) => forall|i: int| 0 <= i < es.len() ==> lits_fit(#[trigger] es[i]),
        Ast::Other(s) => true,
    }
}

proof fn lemma_first_bad_sub_ge(es: Seq<Ast>, i: int)
    requires
        0 <= i <= es.len(),
    ensures
        first_bad_sub(es, i) >= i,
    decreases es.len() - i,
{
    if i < es.len() && compilable(es[i]) {
        lemma_first_bad_sub_ge(es, i + 1);
    }
}

impl Ast {
    /// Compiles a parsed regular expression into a conservative
    /// boolean expression over trigrams.
    ///
    /// Literals become the `And` of their padded trigrams, in
    /// increasing order; concatenations become `And`, alternations
    /// `Or`; a repetition admitting zero matches becomes `Any`, and
    /// one requiring at least one match inherits its body's
    /// expression.  Rejected inputs, with their messages, are exactly
    /// those of [`compile_err`]: case-insensitive literals, literals
    /// holding NUL, and node kinds the compiler does not understand.
    pub fn compile(&self) -> (r: Result<Op, String>)
        requires
            lits_fit(*self),
        ensures
            r is Ok <==> compilable(*self),
            r is Ok ==> compiles_to(*self, r->Ok_0),
            r is Err ==> r->Err_0@ == compile_err(*self),
        decreases *self, 1int, 0int,
    {
        match self {
            Ast::Empty => {
                let m = String::from_str("unimplemented: ");
                Result::Err(m)
            },
            Ast::Other(s) => {
                let mut m = String::from_str("unimplemented: ");
                m.append(s.as_str());
                Result::Err(m)
            },
            Ast::Group(b) => b.compile(),
            Ast::Repeat { e, r, greedy } => {
                match r {
                    Repeater::ZeroOrOne => Result::Ok(Op::Any),
                    Repeater::ZeroOrMore => Result::Ok(Op::Any),
                    Repeater::Range { min: 0, max: _ } => Result::Ok(Op::Any),
                    _ => e.compile(),
                }
            },
            Ast::Literal { chars, casei } => {
                if *casei {
                    let mut m = String::from_str("unsupported: case insensitive matching on '");
                    let cs = string_from_chars(chars);
                    m.append(cs.as_str());
                    m.append("'");
                    proof {
                        assert(m@ =~= compile_err(*self));
                    }
                    return Result::Err(m);
                }
                let mut items: Vec<CharResult> = Vec::new();
                let mut i: usize = 0;
                while i < chars.len()
                    invariant
                        0 <= i <= chars@.len(),
                        items@.len() == i,
                        forall|j: int| 0 <= j < i ==> items@[j] == Result::<char, String>::Ok(
                            chars@[j],
                        ),
                    decreases chars@.len() - i,
                {
                    items.push(Result::Ok(chars[i]));
                    i = i + 1;
                }
                proof {
                    assert(items@ =~= oks_of(chars@));
                    lemma_has_bad_oks(chars@);
                }
                match trigrams_for(&items) {
                    Result::Err(m) => {
                        proof {
                            assert(compile_err(*self) == fail_msg(oks_of(chars@)));
                        }
                        Result::Err(m)
                    },
                    Result::Ok(set) => {
                        proof {
                            assert(oks(items@) =~= chars@);
                        }
                        let raw = set.to_vec();
                        let mut ops: Vec<Op> = Vec::new();
                        let mut k: usize = 0;
                        while k < raw.len()
                            invariant
                                elems(set) == tri_set(chars@),
                                forall|a: int, b: int| 0 <= a < b < raw@.len() ==> raw@[a] < raw@[b],
                                forall|a: int|
                                    0 <= a < raw@.len() ==> elems(set).contains(
                                        #[trigger] raw@[a] as int,
                                    ),
                                forall|t: int|
                                    elems(set).contains(t) ==> exists|a: int|
                                        0 <= a < raw@.len() && #[trigger] raw@[a] as int == t,
                                0 <= k <= raw@.len(),
                                ops@.len() == k,
                                forall|a: int| 0 <= a < k ==> (#[trigger] ops@[a]) is Lit,
                                forall|a: int|
                                    0 <= a < k ==> (#[trigger] ops@[a])->Lit_0 as int
                                        == raw@[a] as int,
                            decreases raw@.len() - k,
                        {
                            let v = raw[k];
                            proof {
                                let tval = raw@[k as int] as int;
                                assert(tri_set(chars@).contains(tval));
                                let w = choose|w: int|
                                    0 <= w < chars@.len() && tval == tri_at(chars@, w);
                                lemma_tri_at_range(chars@, w);
                            }
                            ops.push(Op::Lit(v as u32));
                            k = k + 1;
                        }
                        proof {
                            assert(lits_of(ops@, tri_set(chars@))) by {
                                assert forall|t: int| tri_set(chars@).contains(t) implies exists|
                                    a: int,
                                |
                                    0 <= a < ops@.len() && (#[trigger] ops@[a])->Lit_0 as int
                                        == t by {
                                    let a = choose|a: int|
                                        0 <= a < raw@.len() && #[trigger] raw@[a] as int == t;
                                    assert(ops@[a]->Lit_0 as int == t);
                                }
                            }
                        }
                        Result::Ok(Op::And(ops))
                    },
                }
            },
            Ast::Concat(es) => {
                match Ast::compile_list(es, 0) {
                    Result::Ok(ops) => Result::Ok(Op::And(ops)),
                    Result::Err(m) => {
                        proof {
                            lemma_first_bad_sub_ge(es@, 0);
                        }
                        Result::Err(m)
                    },
                }
            },
            Ast::Alternate(es) => {
                match Ast::compile_list(es, 0) {
                    Result::Ok(ops) => Result::Ok(Op::Or(ops)),
                    Result::Err(m) => {
                        proof {
                            lemma_first_bad_sub_ge(es@, 0);
                        }
                        Result::Err(m)
                    },
                }
            },
        }
    }

    /// Compiles the sub-expressions `es[i..]` in order, stopping at
    /// the first one the compiler rejects.
    fn compile_list(es: &Vec<Ast>, i: usize) -> (r: Result<Vec<Op>, String>)
        requires
            i <= es.len(),
            forall|j: int| i <= j < es.len() ==> lits_fit(#[trigger] es@[j]),
        ensures
            r is Ok <==> forall|j: int| i <= j < es.len() ==> compilable(#[trigger] es@[j]),
            r is Ok ==> r->Ok_0@.len() == es@.len() - i && forall|j: int|
                i <= j < es.len() ==> compiles_to(#[trigger] es@[j], r->Ok_0@[j - i]),
            r is Err ==> first_bad_sub(es@, i as int) < es@.len() && r->Err_0@ == compile_err(
                es@[first_bad_sub(es@, i as int)],
            ),
        decreases *es, 0int, es.len() - i,
    {
        if i >= es.len() {
            return Result::Ok(Vec::new());
        }
        match (&es[i]).compile() {
            Result::Err(m) => {
                proof {
                    assert(first_bad_sub(es@, i as int) == i as int);
                }
                Result::Err(m)
            },
            Result::Ok(op) => {
                match Ast::compile_list(es, i + 1) {
                    Result::Err(m) => {
                        proof {
                            assert(first_bad_sub(es@, i as int) == first_bad_sub(
                                es@,
                                i as int + 1,
                            ));
                        }
                        Result::Err(m)
                    },
                    Result::Ok(rest) => {
                        let mut v: Vec<Op> = Vec::new();
                        v.push(op);
                        let mut rest = rest;
                        v.append(&mut rest);
                        Result::Ok(v)
                    },
                }
            },
        }
    }
}

/// Evaluates a compiled expression against a document's trigram set.
pub open spec fn eval(op: Op, ts: Set<int>) -> bool
    decreases op,
{
    match op {
        Op::Lit(t) => ts.contains(t as int),
        Op::Any => true,
        Op::And(v) => forall|i: int| 0 <= i < v.len() ==> eval(#[trigger] v[i], ts),
        Op::Or(v) => exists|i: int| 0 <= i < v.len() && eval(#[trigger] v[i], ts),
    }
}

/// How many repetitions the repeater allows.
pub open spec fn reps_allowed(r: Repeater, k: int) -> bool {
    match r {
        Repeater::ZeroOrOne => 0 <= k <= 1,
        Repeater::ZeroOrMore => 0 <= k,
        Repeater::OneOrMore => 1 <= k,
        Repeater::Range { min, max } => min as int <= k && (match max {
            Option::Some(m) => k <= m as int,
            Option::None => true,
        }),
    }
}

/// Whether the expression generates the word `w` (the regex matches
/// exactly `w`).
pub open spec fn gen(e: Ast, w: Seq<char>) -> bool
    decreases e, 1int, 0int,
{
    match e {
        Ast::Empty => w.len() == 0,
        Ast::Literal { chars, casei } => w == chars@,
        Ast::Group(b) => gen(*b, w),
        Ast::Repeat { e, r, greedy } => exists|k: int|
            0 <= k && reps_allowed(r, k) && gen_rep(*e, w, k),
        Ast::Concat(es) => gen_cat(es, 0, w),
        Ast::Alternate(es) => exists|i: int| 0 <= i < es.len() && gen(#[trigger] es[i], w),
        Ast::Other(s) => false,
    }
}

/// Whether `w` splits into `k` words each generated by `e`.
pub open spec fn gen_rep(e: Ast, w: Seq<char>, k: int) -> bool
    decreases e, 1int, k,
{
    if k <= 0 {
        w.len() == 0
    } else {
        exists|j: int|
            0 <= j <= w.len() && gen(e, w.subrange(0, j)) && gen_rep(
                e,
                w.subrange(j, w.len() as int),
                k - 1,
            )
    }
}

/// Whether `w` splits into words generated by `es[i..]` in order.
pub open spec fn gen_cat(es: Vec<Ast>, i: int, w: Seq<char>) -> bool
    decreases es, 0int, es.len() - i,
{
    if i < 0 || i >= es.len() {
        w.len() == 0
    } else {
        exists|j: int|
            0 <= j <= w.len() && gen(#[trigger] es[i], w.subrange(0, j)) && gen_cat(
                es,
                i + 1,
                w.subrange(j, w.len() as int),
            )
    }
}

/// Whether the expression is free of concatenations.  The compiler
/// pads every literal's trigrams as if the literal stood at the start
/// of the document, so only for the first piece of a concatenation is
/// the compiled expression guaranteed to hold of a matching document.
pub open spec fn concat_free(e: Ast) -> bool
    decreases e,
{
    match e {
        Ast::Empty => true,
        Ast::Literal { chars, casei } => true,
        Ast::Group(b) => concat_free(*b),
        Ast::Repeat { e, r, greedy } => concat_free(*e),
        Ast::Concat(es) => false,
        Ast::Alternate(es) => forall|i: int| 0 <= i < es.len() ==> concat_free(#[trigger] es[i]),
        Ast::Other(s) => true,
    }
}

/// Query soundness for concatenation-free expressions: if the
/// compiler accepts `e`, and a word generated by `e` stands at the
/// start of a document, then the compiled expression holds of the
/// document's trigram set.  (Because the compiler keeps the zero
/// padding of literal trigrams, a concatenation's later pieces, which
/// match away from the start, carry padded trigrams the document need
/// not contain; concatenations are therefore excluded.)
pub proof fn lemma_query_soundness(e: Ast, op: Op, w: Seq<char>, d: Seq<char>)
    requires
        concat_free(e),
        compiles_to(e, op),
        gen(e, w),
        w.len() <= d.len(),
        d.subrange(0, w.len() as int) == w,
    ensures
        eval(op, tri_set(d)),
    decreases e,
{
    match e {
        Ast::Literal { chars, casei } => {
            assert(w == chars@);
            lemma_tri_prefix(w, d);
            let ops = op->And_0@;
            assert forall|i: int| 0 <= i < ops.len() implies eval(#[trigger] ops[i], tri_set(
                d,
            )) by {
                assert(ops[i] is Lit);
                assert(tri_set(chars@).contains(ops[i]->Lit_0 as int));
                assert(tri_set(d).contains(ops[i]->Lit_0 as int));
            }
            assert(eval(op, tri_set(d))) by {
                assert(forall|i: int|
                    0 <= i < op->And_0.len() ==> eval(#[trigger] op->And_0[i], tri_set(d)));
            }
        },
        Ast::Group(b) => {
            lemma_query_soundness(*b, op, w, d);
        },
        Ast::Repeat { e: inner, r, greedy } => {
            if zero_min(r) {
                assert(op is Any);
            } else {
                let k = choose|k: int| 0 <= k && reps_allowed(r, k) && gen_rep(*inner, w, k);
                assert(k >= 1);
                let j = choose|j: int|
                    0 <= j <= w.len() && gen(*inner, w.subrange(0, j)) && gen_rep(
                        *inner,
                        w.subrange(j, w.len() as int),
                        k - 1,
                    );
                let w1 = w.subrange(0, j);
                assert(d.subrange(0, j) == w1) by {
                    assert forall|x: int| 0 <= x < j implies d.subrange(0, j)[x] == w1[x] by {
                        assert(d.subrange(0, w.len() as int)[x] == d[x]);
                    }
                    assert(d.subrange(0, j) =~= w1);
                }
                lemma_query_soundness(*inner, op, w1, d);
            }
        },
        Ast::Alternate(es) => {
            let i = choose|i: int| 0 <= i < es.len() && gen(#[trigger] es[i], w);
            lemma_query_soundness(es[i], op->Or_0[i], w, d);
            assert(eval(op, tri_set(d))) by {
                assert(0 <= i < op->Or_0.len() && eval(op->Or_0[i], tri_set(d)));
            }
        },
        _ => {},
    }
}

/// The rendering of a compiled expression: trigrams by their display
/// characters, conjunctions as `and(...)`, disjunctions as `or(...)`.
pub open spec fn render_spec(op: Op) -> Seq<char>
    decreases op, 1int, 0int,
{
    match op {
        Op::Lit(t) => unpack_spec(t as int),
        Op::And(v) => "and("@ + grams_spec(v, 0) + ")"@,
        Op::Or(v) => "or("@ + grams_spec(v, 0) + ")"@,
        Op::Any => "FUUUU"@,
    }
}

/// The renderings of `v[i..]`, separated by single spaces.
pub open spec fn grams_spec(v: Vec<Op>, i: int) -> Seq<char>
    decreases v, 0int, v.len() - i,
{
    if i < 0 || i >= v.len() {
        Seq::empty()
    } else if i == v.len() - 1 {
        render_spec(v[i])
    } else {
        render_spec(v[i]) + seq![' '] + grams_spec(v, i + 1)
    }
}

/// Renders the operations of `vec`, separated by single spaces.
pub fn render_grams_in(vec: &Vec<Op>) -> (r: String)
    ensures
        r@ == grams_spec(*vec, 0),
    decreases *vec, 0int, vec.len() + 1,
{
    grams_from(vec, 0)
}

fn grams_from(vec: &Vec<Op>, i: usize) -> (r: String)
    ensures
        r@ == grams_spec(*vec, i as int),
    decreases *vec, 0int, vec.len() - i,
{
    if i >= vec.len() {
        String::new()
    } else {
        let head = vec[i].render();
        if i + 1 == vec.len() {
            head
        } else {
            let mut m = head;
            push_char(&mut m, ' ');
            let rest = grams_from(vec, i + 1);
            m.append(rest.as_str());
            proof {
                assert(m@ =~= grams_spec(*vec, i as int));
            }
            m
        }
    }
}

impl Op {
    /// Renders the expression for display.
    pub fn render(&self) -> (r: String)
        ensures
            r@ == render_spec(*self),
        decreases *self, 1int, 0int,
    {
        match self {
            Op::Lit(t) => unpack(*t as usize),
            Op::Any => String::from_str("FUUUU"),
            Op::And(v) => {
                let mut m = String::from_str("and(");
                let inner = render_grams_in(v);
                m.append(inner.as_str());
                m.append(")");
                proof {
                    assert(m@ =~= render_spec(*self));
                }
                m
            },
            Op::Or(v) => {
                let mut m = String::from_str("or(");
                let inner = render_grams_in(v);
                m.append(inner.as_str());
                m.append(")");
                proof {
                    assert(m@ =~= render_spec(*self));
                }
                m
            },
        }
    }
}

} // verus!
