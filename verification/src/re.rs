//! Regular expressions over basic blocks, and their bounded parser.

use vstd::prelude::*;
use vstd::string::StringExecFns;
use std::sync::Arc;
use std::collections::BTreeMap;

verus! {

broadcast use {vstd::std_specs::btree::group_btree_axioms, vstd::laws_cmp::group_laws_cmp};

/// A regular expression whose letters are basic-block identifiers and whose
/// variables name the regular expression of another function.
#[derive(Clone, Debug)]
pub enum RegExp {
    Epsilon,
    Var(i32),
    Literal(i32),
    Literals(Vec<i32>),
    Concat(Arc<RegExp>, Arc<RegExp>),
    Sequence(Vec<Arc<RegExp>>),
    Alter(Arc<RegExp>, Arc<RegExp>),
    Star(Arc<RegExp>),
}

/// The mathematical value of a [`RegExp`]: the same tree, with sequences in
/// place of vectors.
pub enum RegModel {
    Epsilon,
    Var(i32),
    Literal(i32),
    Literals(Seq<i32>),
    Concat(Box<RegModel>, Box<RegModel>),
    Sequence(Seq<RegModel>),
    Alter(Box<RegModel>, Box<RegModel>),
    Star(Box<RegModel>),
}

impl RegExp {
    /// The mathematical value of the expression.
    pub open spec fn model(&self) -> RegModel
        decreases self,
    {
        match self {
            RegExp::Epsilon => RegModel::Epsilon,
            RegExp::Var(x) => RegModel::Var(*x),
            RegExp::Literal(c) => RegModel::Literal(*c),
            RegExp::Literals(cs) => RegModel::Literals(cs@),
            RegExp::Concat(a, b) => RegModel::Concat(
                Box::new((**a).model()),
                Box::new((**b).model()),
            ),
            RegExp::Sequence(rs) => RegModel::Sequence(
                Seq::new(
                    rs@.len(),
                    |i: int|
                        {
                            if 0 <= i < rs@.len() {
                                proof {
                                    assert(decreases_to!(rs => rs@));
                                    assert(decreases_to!(rs@ => rs@[i]));
                                }
                                (*rs@[i]).model()
                            } else {
                                RegModel::Epsilon
                            }
                        },
                ),
            ),
            RegExp::Alter(a, b) => RegModel::Alter(
                Box::new((**a).model()),
                Box::new((**b).model()),
            ),
            RegExp::Star(a) => RegModel::Star(Box::new((**a).model())),
        }
    }
}

impl View for RegExp {
    type V = RegModel;

    open spec fn view(&self) -> RegModel {
        self.model()
    }
}

/// Shares a regular expression: the `Arc` that comes back points to the same
/// tree.
#[verifier::external_body]
pub(crate) fn share(r: &Arc<RegExp>) -> (res: Arc<RegExp>)
    ensures
        res@ == r@,
{
    Arc::clone(r)
}

/// The first block that a word of `r` can begin with, looking at the left
/// branch of an alternative first.
pub open spec fn first_of(r: RegModel) -> Option<i32>
    decreases r,
{
    match r {
        RegModel::Literal(c) => Some(c),
        RegModel::Literals(cs) => if cs.len() > 0 { Some(cs[0]) } else { None },
        RegModel::Concat(a, b) => if first_of(*a) is Some { first_of(*a) } else { first_of(*b) },
        RegModel::Alter(a, b) => if first_of(*a) is Some { first_of(*a) } else { first_of(*b) },
        RegModel::Star(a) => first_of(*a),
        _ => None,
    }
}

/// Whether the search for the first block of `r` reaches no variable, no
/// sequence node and no empty literal list, where the search has no answer.
pub open spec fn first_defined(r: RegModel) -> bool
    decreases r,
{
    match r {
        RegModel::Epsilon => true,
        RegModel::Var(_) => false,
        RegModel::Literal(_) => true,
        RegModel::Literals(cs) => cs.len() > 0,
        RegModel::Concat(a, b) => first_defined(*a) && (first_of(*a) is None ==> first_defined(*b)),
        RegModel::Sequence(_) => false,
        RegModel::Alter(a, b) => first_defined(*a) && (first_of(*a) is None ==> first_defined(*b)),
        RegModel::Star(a) => first_defined(*a),
    }
}

impl RegExp {
    /// A copy of the expression, sharing its subexpressions.
    pub fn copy(&self) -> (res: RegExp)
        ensures
            res@ == self@,
    {
        match self {
            RegExp::Epsilon => RegExp::Epsilon,
            RegExp::Var(x) => RegExp::Var(*x),
            RegExp::Literal(c) => RegExp::Literal(*c),
            RegExp::Literals(cs) => {
                let mut v: Vec<i32> = Vec::new();
                let mut i: usize = 0;
                while i < cs.len()
                    invariant
                        i <= cs.len(),
                        v@ == cs@.take(i as int),
                    decreases cs.len() - i,
                {
                    v.push(cs[i]);
                    i = i + 1;
                    assert(v@ =~= cs@.take(i as int));
                }
                assert(v@ =~= cs@);
                RegExp::Literals(v)
            },
            RegExp::Concat(a, b) => RegExp::Concat(share(a), share(b)),
            RegExp::Sequence(rs) => {
                let mut v: Vec<Arc<RegExp>> = Vec::new();
                let mut i: usize = 0;
                while i < rs.len()
                    invariant
                        i <= rs.len(),
                        v@.len() == i,
                        self is Sequence && self->Sequence_0 == rs,
                        forall|j: int| 0 <= j < i ==> #[trigger] (*v@[j]).model() == (*rs@[j]).model(),
                    decreases rs.len() - i,
                {
                    v.push(share(&rs[i]));
                    i = i + 1;
                }
                let res = RegExp::Sequence(v);
                assert forall|j: int| 0 <= j < rs@.len() implies
                    #[trigger] res@->Sequence_0[j] == self@->Sequence_0[j] by {
                    assert((*v@[j]).model() == (*rs@[j]).model());
                }
                assert(res@->Sequence_0 =~= self@->Sequence_0);
                res
            },
            RegExp::Alter(a, b) => RegExp::Alter(share(a), share(b)),
            RegExp::Star(a) => RegExp::Star(share(a)),
        }
    }

    /// Structural equality of two regular expressions.
    pub fn equals(&self, other: &RegExp) -> (b: bool)
        ensures
            b == (self@ == other@),
        decreases self,
    {
        match (self, other) {
            (RegExp::Epsilon, RegExp::Epsilon) => true,
            (RegExp::Var(x), RegExp::Var(y)) => *x == *y,
            (RegExp::Literal(x), RegExp::Literal(y)) => *x == *y,
            (RegExp::Literals(xs), RegExp::Literals(ys)) => {
                if xs.len() != ys.len() {
                    return false;
                }
                let mut i: usize = 0;
                while i < xs.len()
                    invariant
                        xs.len() == ys.len(),
                        i <= xs.len(),
                        self@ == RegModel::Literals(xs@),
                        other@ == RegModel::Literals(ys@),
                        forall|j: int| 0 <= j < i ==> xs@[j] == ys@[j],
                    decreases xs.len() - i,
                {
                    if xs[i] != ys[i] {
                        assert(self@->Literals_0[i as int] != other@->Literals_0[i as int]);
                        return false;
                    }
                    i = i + 1;
                }
                assert(xs@ =~= ys@);
                true
            },
            (RegExp::Concat(a1, b1), RegExp::Concat(a2, b2)) => {
                (**a1).equals(&**a2) && (**b1).equals(&**b2)
            },
            (RegExp::Alter(a1, b1), RegExp::Alter(a2, b2)) => {
                (**a1).equals(&**a2) && (**b1).equals(&**b2)
            },
            (RegExp::Star(a1), RegExp::Star(a2)) => (**a1).equals(&**a2),
            (RegExp::Sequence(xs), RegExp::Sequence(ys)) => {
                let ghost mx = self@;
                let ghost my = other@;
                if xs.len() != ys.len() {
                    proof {
                        if mx == my {
                            assert(mx->Sequence_0.len() == xs@.len());
                        }
                    }
                    return false;
                }
                let mut i: usize = 0;
                while i < xs.len()
                    invariant
                        xs.len() == ys.len(),
                        i <= xs.len(),
                        mx == self@,
                        my == other@,
                        self is Sequence && self->Sequence_0 == xs,
                        other is Sequence && other->Sequence_0 == ys,
                        forall|j: int| 0 <= j < i ==> xs@[j]@ == ys@[j]@,
                    decreases xs.len() - i,
                {
                    proof {
                        assert(decreases_to!(xs => xs@));
                        assert(decreases_to!(xs@ => xs@[i as int]));
                    }
                    if !(*xs[i]).equals(&*ys[i]) {
                        assert(mx->Sequence_0[i as int] == xs@[i as int]@);
                        return false;
                    }
                    i = i + 1;
                }
                assert(mx->Sequence_0 =~= my->Sequence_0);
                true
            },
            _ => false,
        }
    }
}


/// The result of parsing: which parts of the regular expression matched which
/// blocks.
#[derive(Debug)]
pub enum Val {
    Epsilon,
    Literal(i32),
    Literals(Vec<i32>),
    Concat(Box<Val>, Box<Val>),
    Sequence(Vec<Val>),
    Star(Vec<Val>),
}

/// The mathematical value of a [`Val`].
pub enum ValModel {
    Epsilon,
    Literal(i32),
    Literals(Seq<i32>),
    Concat(Box<ValModel>, Box<ValModel>),
    Sequence(Seq<ValModel>),
    Star(Seq<ValModel>),
}

/// The model of a vector of parse values.
pub open spec fn vals_model(vs: Seq<Val>) -> Seq<ValModel>
    decreases vs,
{
    Seq::new(
        vs.len(),
        |i: int|
            {
                if 0 <= i < vs.len() {
                    proof {
                        assert(decreases_to!(vs => vs[i]));
                    }
                    vs[i].model()
                } else {
                    ValModel::Epsilon
                }
            },
    )
}

impl Val {
    /// The mathematical value of the parse value.
    pub open spec fn model(&self) -> ValModel
        decreases self,
    {
        match self {
            Val::Epsilon => ValModel::Epsilon,
            Val::Literal(c) => ValModel::Literal(*c),
            Val::Literals(cs) => ValModel::Literals(cs@),
            Val::Concat(a, b) => ValModel::Concat(Box::new((**a).model()), Box::new((**b).model())),
            Val::Sequence(vs) => ValModel::Sequence(
                {
                    proof {
                        assert(decreases_to!(vs => vs@));
                    }
                    vals_model(vs@)
                },
            ),
            Val::Star(vs) => ValModel::Star(
                {
                    proof {
                        assert(decreases_to!(vs => vs@));
                    }
                    vals_model(vs@)
                },
            ),
        }
    }
}

impl View for Val {
    type V = ValModel;

    open spec fn view(&self) -> ValModel {
        self.model()
    }
}

/// Why a parse stopped: the path ended inside the expression (`Abort`, with
/// what matched so far), or a block did not fit (`Invalid`).
#[derive(Debug)]
pub enum ParseErr {
    Abort(Val),
    Invalid(String),
}

/// The mathematical value of a [`ParseErr`].
pub enum ParseErrModel {
    Abort(ValModel),
    Invalid(Seq<char>),
}

impl View for ParseErr {
    type V = ParseErrModel;

    open spec fn view(&self) -> ParseErrModel {
        match self {
            ParseErr::Abort(v) => ParseErrModel::Abort(v@),
            ParseErr::Invalid(m) => ParseErrModel::Invalid(m@),
        }
    }
}

/// What a parse gives back: the value and the rest of the path, or an error.
pub type ParseOutcome = Result<(ValModel, Seq<i32>), ParseErrModel>;

/// What a repetition gives back: the kept values and the rest of the path.
pub type StarOutcome = Result<(Seq<ValModel>, Seq<i32>), ParseErrModel>;

/// The mathematical value of what a parse returns.
pub open spec fn outcome<'a>(r: Result<(Val, &'a [i32]), ParseErr>) -> ParseOutcome {
    match r {
        Ok((v, rest)) => Ok((v@, rest@)),
        Err(e) => Err(e@),
    }
}

/// The mathematical value of what a repetition loop returns.
pub open spec fn star_outcome<'a>(r: Result<(Vec<Val>, &'a [i32]), ParseErr>) -> StarOutcome {
    match r {
        Ok((vs, rest)) => Ok((vals_model(vs@), rest@)),
        Err(e) => Err(e@),
    }
}

/// The character of the decimal digit `d`.
pub open spec fn digit_char(d: nat) -> char {
    (d + 48) as char
}

/// The decimal digits of `n`, most significant first, without leading zeros.
pub open spec fn digits(n: nat) -> Seq<char>
    decreases n,
{
    if n < 10 {
        seq![digit_char(n)]
    } else {
        digits(n / 10).push(digit_char(n % 10))
    }
}

/// The decimal form of `i`, with a minus sign where it is negative.
pub open spec fn decimal(i: i32) -> Seq<char> {
    if i < 0 {
        seq!['-'] + digits((-i) as nat)
    } else {
        digits(i as nat)
    }
}

/// The message of a block `found` met where the block `expected` was due:
/// "expected", the one, "found", the other.
pub open spec fn mismatch_text(expected: i32, found: i32) -> Seq<char> {
    seq!['e', 'x', 'p', 'e', 'c', 't', 'e', 'd', ' '] + decimal(expected) + seq![' ', 'f', 'o', 'u', 'n', 'd', ' '] + decimal(found)
}

/// `format!("expected {:?} found {:?}", ..)`: the `Debug` form of an `i32`
/// is its decimal form, so the message is `mismatch_text`.
#[verifier::external_body]
fn mismatch_message(expected: i32, found: i32) -> (m: String)
    ensures
        m@ == mismatch_text(expected, found),
{
    format!("expected {:?} found {:?}", expected, found)
}

/// The parse of `s` by `r` enters no function: `r` is the empty expression,
/// or a literal that matches the first block, meets the end of the path, or
/// meets a block that starts no function.
pub open spec fn calls_nothing(r: RegModel, s: Seq<i32>, g: ParseCtx) -> bool {
    match r {
        RegModel::Epsilon => true,
        RegModel::Literal(c) => s.len() == 0 || s[0] == c || !g.firsts.contains_key(s[0]),
        _ => false,
    }
}

/// The fixed inputs of a parse: the regular expression of each function, the
/// function that each first block starts, and the bound `k`.
pub struct ParseCtx {
    pub env: Map<i32, RegModel>,
    pub firsts: Map<i32, i32>,
    pub k: nat,
}

/// The value of each expression of `m`.
pub open spec fn regex_models(m: Map<i32, RegExp>) -> Map<i32, RegModel> {
    m.map_values(|r: RegExp| r@)
}

/// The parse context of the expressions `env`, the first blocks `firsts`
/// and the bound `k`.
pub open spec fn ctx_of(env: &BTreeMap<i32, RegExp>, firsts: &BTreeMap<i32, i32>, k: usize) -> ParseCtx {
    ParseCtx { env: regex_models(env@), firsts: firsts@, k: k as nat }
}

/// How deeply function `x` is nested on the call stack of the parse.
pub open spec fn level(stack: Map<i32, usize>, x: i32) -> nat {
    if stack.contains_key(x) {
        stack[x] as nat
    } else {
        0
    }
}

/// The two stacks give every function the same level (they may differ in
/// functions at level 0).
pub open spec fn same_levels(a: Map<i32, usize>, b: Map<i32, usize>) -> bool {
    forall|x: i32| #[trigger] level(a, x) == level(b, x)
}

/// What a parse leaves of its call stack: every function has its level
/// again, and every function on the stack stays there.
pub open spec fn stack_restored(before: Map<i32, usize>, after: Map<i32, usize>) -> bool {
    &&& same_levels(before, after)
    &&& forall|x: i32| #[trigger] before.contains_key(x) ==> after.contains_key(x)
}

/// The outcome of parsing `v1` followed by the outcome `o2` of the next part.
pub open spec fn concat_outcome(v1: ValModel, o2: ParseOutcome) -> ParseOutcome {
    match o2 {
        Ok((v2, rest)) => Ok((ValModel::Concat(Box::new(v1), Box::new(v2)), rest)),
        Err(ParseErrModel::Abort(v2)) => Err(ParseErrModel::Abort(ValModel::Concat(Box::new(v1), Box::new(v2)))),
        Err(ParseErrModel::Invalid(msg)) => Err(ParseErrModel::Invalid(msg)),
    }
}

/// The bounded parse of `s` by `r`, given `fuel` steps; `None` where the
/// steps run out, a variable has no regular expression, or a function below
/// the bound is already entered as deeply as a `usize` counts (entering it
/// again overflows). With enough fuel this is what `parse_k` computes.
pub open spec fn parse_fuel(r: RegModel, s: Seq<i32>, g: ParseCtx, stack: Map<i32, usize>, fuel: nat) -> Option<ParseOutcome>
    decreases fuel,
{
    if fuel == 0 {
        None
    } else {
        let f = (fuel - 1) as nat;
        match r {
            RegModel::Epsilon => Some(Ok((ValModel::Star(seq![]), s))),
            RegModel::Var(x) => {
                if !g.env.contains_key(x) {
                    None
                } else if level(stack, x) == g.k {
                    match parse_fuel(g.env[x], s, g, stack, f) {
                        None => None,
                        Some(Ok((_, rest))) => Some(Ok((ValModel::Epsilon, rest))),
                        Some(Err(ParseErrModel::Abort(_))) => Some(Err(ParseErrModel::Abort(ValModel::Epsilon))),
                        Some(Err(ParseErrModel::Invalid(msg))) => Some(Err(ParseErrModel::Invalid(msg))),
                    }
                } else if level(stack, x) >= usize::MAX {
                    None
                } else {
                    parse_fuel(g.env[x], s, g, stack.insert(x, (level(stack, x) + 1) as usize), f)
                }
            },
            RegModel::Literal(c) => {
                if s.len() == 0 {
                    Some(Err(ParseErrModel::Abort(ValModel::Epsilon)))
                } else if s[0] == c {
                    Some(Ok((ValModel::Literal(c), s.subrange(1, s.len() as int))))
                } else if g.firsts.contains_key(s[0]) {
                    match parse_fuel(RegModel::Var(g.firsts[s[0]]), s, g, stack, f) {
                        None => None,
                        Some(Err(e)) => Some(Err(e)),
                        Some(Ok((v, s1))) => match parse_fuel(RegModel::Literal(c), s1, g, stack, f) {
                            None => None,
                            Some(o2) => Some(concat_outcome(v, o2)),
                        },
                    }
                } else {
                    Some(Err(ParseErrModel::Invalid(mismatch_text(c, s[0]))))
                }
            },
            RegModel::Literals(lits) => parse_lits_fuel(lits, 0, s, s, seq![], g, stack, f),
            RegModel::Concat(a, b) => match parse_fuel(*a, s, g, stack, f) {
                None => None,
                Some(Err(e)) => Some(Err(e)),
                Some(Ok((v1, s1))) => match parse_fuel(*b, s1, g, stack, f) {
                    None => None,
                    Some(o2) => Some(concat_outcome(v1, o2)),
                },
            },
            RegModel::Sequence(rs) => parse_seq_fuel(rs, 0, s, seq![], g, stack, f),
            RegModel::Alter(a, b) => match parse_fuel(*a, s, g, stack, f) {
                Some(Err(ParseErrModel::Invalid(_))) => parse_fuel(*b, s, g, stack, f),
                o => o,
            },
            RegModel::Star(a) => match parse_star_fuel(*a, s, seq![], g, stack, f) {
                None => None,
                Some(Ok((vs, rest))) => Some(Ok((ValModel::Star(vs), rest))),
                Some(Err(e)) => Some(Err(e)),
            },
        }
    }
}

/// The loop over a literal list, from position `i`, with `rest` left of the
/// path and the values `acc` so far. A block that is not the next literal
/// but starts a function is parsed as a call from the whole of `s`.
pub open spec fn parse_lits_fuel(
    lits: Seq<i32>,
    i: nat,
    s: Seq<i32>,
    rest: Seq<i32>,
    acc: Seq<ValModel>,
    g: ParseCtx,
    stack: Map<i32, usize>,
    fuel: nat,
) -> Option<ParseOutcome>
    decreases fuel,
{
    if fuel == 0 {
        None
    } else {
        let f = (fuel - 1) as nat;
        if i >= lits.len() {
            Some(Ok((ValModel::Sequence(acc), rest)))
        } else if rest.len() == 0 {
            Some(Err(ParseErrModel::Abort(ValModel::Sequence(acc))))
        } else if lits[i as int] == rest[0] {
            parse_lits_fuel(lits, i + 1, s, rest.subrange(1, rest.len() as int), acc.push(ValModel::Literal(lits[i as int])), g, stack, f)
        } else if g.firsts.contains_key(rest[0]) {
            match parse_fuel(RegModel::Var(g.firsts[rest[0]]), s, g, stack, f) {
                None => None,
                Some(Ok((v, r2))) => parse_lits_fuel(lits, i + 1, s, r2, acc.push(v), g, stack, f),
                Some(Err(ParseErrModel::Abort(v))) => Some(Err(ParseErrModel::Abort(ValModel::Sequence(acc.push(v))))),
                Some(Err(ParseErrModel::Invalid(msg))) => Some(Err(ParseErrModel::Invalid(msg))),
            }
        } else {
            Some(Err(ParseErrModel::Invalid(mismatch_text(lits[i as int], rest[0]))))
        }
    }
}

/// The loop over the parts of a sequence node, from part `i`.
pub open spec fn parse_seq_fuel(
    rs: Seq<RegModel>,
    i: nat,
    rest: Seq<i32>,
    acc: Seq<ValModel>,
    g: ParseCtx,
    stack: Map<i32, usize>,
    fuel: nat,
) -> Option<ParseOutcome>
    decreases fuel,
{
    if fuel == 0 {
        None
    } else {
        let f = (fuel - 1) as nat;
        if i >= rs.len() {
            Some(Ok((ValModel::Sequence(acc), rest)))
        } else {
            match parse_fuel(rs[i as int], rest, g, stack, f) {
                None => None,
                Some(Ok((v, r2))) => parse_seq_fuel(rs, i + 1, r2, acc.push(v), g, stack, f),
                Some(Err(ParseErrModel::Abort(v))) => Some(Err(ParseErrModel::Abort(ValModel::Sequence(acc.push(v))))),
                Some(Err(ParseErrModel::Invalid(msg))) => Some(Err(ParseErrModel::Invalid(msg))),
            }
        }
    }
}

/// The value kept of one more repetition: at most `k` are kept.
pub open spec fn keep(acc: Seq<ValModel>, v: ValModel, k: nat) -> Seq<ValModel> {
    if acc.len() == k {
        acc
    } else {
        acc.push(v)
    }
}

/// The repetition loop of a star: `r` is parsed again as long as it matches,
/// the first `k` values are kept, and the repetition ends at the first
/// mismatch, before it.
pub open spec fn parse_star_fuel(
    r: RegModel,
    s: Seq<i32>,
    acc: Seq<ValModel>,
    g: ParseCtx,
    stack: Map<i32, usize>,
    fuel: nat,
) -> Option<StarOutcome>
    decreases fuel,
{
    if fuel == 0 {
        None
    } else {
        let f = (fuel - 1) as nat;
        match parse_fuel(r, s, g, stack, f) {
            None => None,
            Some(Ok((v, s2))) => parse_star_fuel(r, s2, keep(acc, v, g.k), g, stack, f),
            Some(Err(ParseErrModel::Abort(v))) => Some(Err(ParseErrModel::Abort(ValModel::Star(keep(acc, v, g.k))))),
            Some(Err(ParseErrModel::Invalid(_))) => Some(Ok((acc, s))),
        }
    }
}

proof fn lemma_levels_insert(a: Map<i32, usize>, b: Map<i32, usize>, x: i32, v: usize)
    requires
        same_levels(a, b),
    ensures
        same_levels(a.insert(x, v), b.insert(x, v)),
{
    assert forall|y: i32| #[trigger] level(a.insert(x, v), y) == level(b.insert(x, v), y) by {
        assert(level(a, y) == level(b, y));
    }
}

/// A parse reads its call stack only through the levels of the functions.
pub proof fn lemma_parse_levels(r: RegModel, s: Seq<i32>, g: ParseCtx, a: Map<i32, usize>, b: Map<i32, usize>, fuel: nat)
    requires
        same_levels(a, b),
    ensures
        parse_fuel(r, s, g, a, fuel) == parse_fuel(r, s, g, b, fuel),
    decreases fuel,
{
    if fuel > 0 {
        let f = (fuel - 1) as nat;
        match r {
            RegModel::Var(x) => {
                assert(level(a, x) == level(b, x));
                lemma_parse_levels(g.env[x], s, g, a, b, f);
                let v = (level(a, x) + 1) as usize;
                lemma_levels_insert(a, b, x, v);
                lemma_parse_levels(g.env[x], s, g, a.insert(x, v), b.insert(x, v), f);
            },
            RegModel::Literal(c) => {
                if s.len() > 0 && g.firsts.contains_key(s[0]) {
                    let fx = RegModel::Var(g.firsts[s[0]]);
                    lemma_parse_levels(fx, s, g, a, b, f);
                    match parse_fuel(fx, s, g, a, f) {
                        Some(Ok((v, s1))) => {
                            lemma_parse_levels(RegModel::Literal(c), s1, g, a, b, f);
                        },
                        _ => {},
                    }
                }
            },
            RegModel::Literals(lits) => {
                lemma_lits_levels(lits, 0, s, s, seq![], g, a, b, f);
            },
            RegModel::Concat(x, y) => {
                lemma_parse_levels(*x, s, g, a, b, f);
                match parse_fuel(*x, s, g, a, f) {
                    Some(Ok((v1, s1))) => {
                        lemma_parse_levels(*y, s1, g, a, b, f);
                    },
                    _ => {},
                }
            },
            RegModel::Sequence(rs) => {
                lemma_seq_levels(rs, 0, s, seq![], g, a, b, f);
            },
            RegModel::Alter(x, y) => {
                lemma_parse_levels(*x, s, g, a, b, f);
                lemma_parse_levels(*y, s, g, a, b, f);
            },
            RegModel::Star(x) => {
                lemma_star_levels(*x, s, seq![], g, a, b, f);
            },
            _ => {},
        }
    }
}

proof fn lemma_lits_levels(
    lits: Seq<i32>,
    i: nat,
    s: Seq<i32>,
    rest: Seq<i32>,
    acc: Seq<ValModel>,
    g: ParseCtx,
    a: Map<i32, usize>,
    b: Map<i32, usize>,
    fuel: nat,
)
    requires
        same_levels(a, b),
    ensures
        parse_lits_fuel(lits, i, s, rest, acc, g, a, fuel) == parse_lits_fuel(lits, i, s, rest, acc, g, b, fuel),
    decreases fuel,
{
    if fuel > 0 {
        let f = (fuel - 1) as nat;
        if i < lits.len() && rest.len() > 0 {
            if lits[i as int] == rest[0] {
                lemma_lits_levels(lits, i + 1, s, rest.subrange(1, rest.len() as int), acc.push(ValModel::Literal(lits[i as int])), g, a, b, f);
            } else if g.firsts.contains_key(rest[0]) {
                let fx = RegModel::Var(g.firsts[rest[0]]);
                lemma_parse_levels(fx, s, g, a, b, f);
                match parse_fuel(fx, s, g, a, f) {
                    Some(Ok((v, r2))) => {
                        lemma_lits_levels(lits, i + 1, s, r2, acc.push(v), g, a, b, f);
                    },
                    _ => {},
                }
            }
        }
    }
}

proof fn lemma_seq_levels(
    rs: Seq<RegModel>,
    i: nat,
    rest: Seq<i32>,
    acc: Seq<ValModel>,
    g: ParseCtx,
    a: Map<i32, usize>,
    b: Map<i32, usize>,
    fuel: nat,
)
    requires
        same_levels(a, b),
    ensures
        parse_seq_fuel(rs, i, rest, acc, g, a, fuel) == parse_seq_fuel(rs, i, rest, acc, g, b, fuel),
    decreases fuel,
{
    if fuel > 0 {
        let f = (fuel - 1) as nat;
        if i < rs.len() {
            lemma_parse_levels(rs[i as int], rest, g, a, b, f);
            match parse_fuel(rs[i as int], rest, g, a, f) {
                Some(Ok((v, r2))) => {
                    lemma_seq_levels(rs, i + 1, r2, acc.push(v), g, a, b, f);
                },
                _ => {},
            }
        }
    }
}

proof fn lemma_star_levels(
    r: RegModel,
    s: Seq<i32>,
    acc: Seq<ValModel>,
    g: ParseCtx,
    a: Map<i32, usize>,
    b: Map<i32, usize>,
    fuel: nat,
)
    requires
        same_levels(a, b),
    ensures
        parse_star_fuel(r, s, acc, g, a, fuel) == parse_star_fuel(r, s, acc, g, b, fuel),
    decreases fuel,
{
    if fuel > 0 {
        let f = (fuel - 1) as nat;
        lemma_parse_levels(r, s, g, a, b, f);
        match parse_fuel(r, s, g, a, f) {
            Some(Ok((v, s2))) => {
                lemma_star_levels(r, s2, keep(acc, v, g.k), g, a, b, f);
            },
            _ => {},
        }
    }
}

/// The count of matched blocks after the parse of `s` by `r` with `fuel`
/// steps, from the count `m`: a block that a single literal matches adds one,
/// and an alternative whose first side does not fit, or a round of a
/// repetition that does not fit, goes back to the count before it. `None`
/// where the steps run out, the parse itself fails to end, or the count
/// passes `usize::MAX`.
pub open spec fn count_fuel(r: RegModel, s: Seq<i32>, g: ParseCtx, stack: Map<i32, usize>, fuel: nat, m: nat) -> Option<nat>
    decreases fuel,
{
    if fuel == 0 {
        None
    } else {
        let f = (fuel - 1) as nat;
        match r {
            RegModel::Epsilon => Some(m),
            RegModel::Var(x) => {
                if !g.env.contains_key(x) {
                    None
                } else if level(stack, x) == g.k {
                    count_fuel(g.env[x], s, g, stack, f, m)
                } else if level(stack, x) >= usize::MAX {
                    None
                } else {
                    count_fuel(g.env[x], s, g, stack.insert(x, (level(stack, x) + 1) as usize), f, m)
                }
            },
            RegModel::Literal(c) => {
                if s.len() == 0 {
                    Some(m)
                } else if s[0] == c {
                    if m + 1 > usize::MAX { None } else { Some(m + 1) }
                } else if g.firsts.contains_key(s[0]) {
                    let fx = RegModel::Var(g.firsts[s[0]]);
                    match count_fuel(fx, s, g, stack, f, m) {
                        None => None,
                        Some(c1) => match parse_fuel(fx, s, g, stack, f) {
                            Some(Ok((_, s1))) => count_fuel(RegModel::Literal(c), s1, g, stack, f, c1),
                            _ => Some(c1),
                        },
                    }
                } else {
                    Some(m)
                }
            },
            RegModel::Literals(lits) => count_lits_fuel(lits, 0, s, s, g, stack, f, m),
            RegModel::Concat(a, b) => match count_fuel(*a, s, g, stack, f, m) {
                None => None,
                Some(c1) => match parse_fuel(*a, s, g, stack, f) {
                    Some(Ok((_, s1))) => count_fuel(*b, s1, g, stack, f, c1),
                    _ => Some(c1),
                },
            },
            RegModel::Sequence(rs) => count_seq_fuel(rs, 0, s, g, stack, f, m),
            RegModel::Alter(a, b) => match count_fuel(*a, s, g, stack, f, m) {
                None => None,
                Some(c1) => match parse_fuel(*a, s, g, stack, f) {
                    Some(Err(ParseErrModel::Invalid(_))) => count_fuel(*b, s, g, stack, f, m),
                    _ => Some(c1),
                },
            },
            RegModel::Star(a) => count_star_fuel(*a, s, g, stack, f, m),
        }
    }
}

/// The count after the loop over a literal list, from position `i`.
pub open spec fn count_lits_fuel(
    lits: Seq<i32>,
    i: nat,
    s: Seq<i32>,
    rest: Seq<i32>,
    g: ParseCtx,
    stack: Map<i32, usize>,
    fuel: nat,
    m: nat,
) -> Option<nat>
    decreases fuel,
{
    if fuel == 0 {
        None
    } else {
        let f = (fuel - 1) as nat;
        if i >= lits.len() || rest.len() == 0 {
            Some(m)
        } else if lits[i as int] == rest[0] {
            count_lits_fuel(lits, i + 1, s, rest.subrange(1, rest.len() as int), g, stack, f, m)
        } else if g.firsts.contains_key(rest[0]) {
            let fx = RegModel::Var(g.firsts[rest[0]]);
            match count_fuel(fx, s, g, stack, f, m) {
                None => None,
                Some(c1) => match parse_fuel(fx, s, g, stack, f) {
                    Some(Ok((_, r2))) => count_lits_fuel(lits, i + 1, s, r2, g, stack, f, c1),
                    _ => Some(c1),
                },
            }
        } else {
            Some(m)
        }
    }
}

/// The count after the loop over the parts of a sequence node, from part `i`.
pub open spec fn count_seq_fuel(
    rs: Seq<RegModel>,
    i: nat,
    rest: Seq<i32>,
    g: ParseCtx,
    stack: Map<i32, usize>,
    fuel: nat,
    m: nat,
) -> Option<nat>
    decreases fuel,
{
    if fuel == 0 {
        None
    } else {
        let f = (fuel - 1) as nat;
        if i >= rs.len() {
            Some(m)
        } else {
            match count_fuel(rs[i as int], rest, g, stack, f, m) {
                None => None,
                Some(c1) => match parse_fuel(rs[i as int], rest, g, stack, f) {
                    Some(Ok((_, r2))) => count_seq_fuel(rs, i + 1, r2, g, stack, f, c1),
                    _ => Some(c1),
                },
            }
        }
    }
}

/// The count after the repetition loop of a star.
pub open spec fn count_star_fuel(r: RegModel, s: Seq<i32>, g: ParseCtx, stack: Map<i32, usize>, fuel: nat, m: nat) -> Option<nat>
    decreases fuel,
{
    if fuel == 0 {
        None
    } else {
        let f = (fuel - 1) as nat;
        match count_fuel(r, s, g, stack, f, m) {
            None => None,
            Some(c1) => match parse_fuel(r, s, g, stack, f) {
                Some(Ok((_, s2))) => count_star_fuel(r, s2, g, stack, f, c1),
                Some(Err(ParseErrModel::Invalid(_))) => Some(m),
                _ => Some(c1),
            },
        }
    }
}

/// The count reads the call stack only through the levels of the functions.
pub proof fn lemma_count_levels(r: RegModel, s: Seq<i32>, g: ParseCtx, a: Map<i32, usize>, b: Map<i32, usize>, fuel: nat, m: nat)
    requires
        same_levels(a, b),
    ensures
        count_fuel(r, s, g, a, fuel, m) == count_fuel(r, s, g, b, fuel, m),
    decreases fuel,
{
    if fuel > 0 {
        let f = (fuel - 1) as nat;
        match r {
            RegModel::Var(x) => {
                assert(level(a, x) == level(b, x));
                lemma_count_levels(g.env[x], s, g, a, b, f, m);
                let v = (level(a, x) + 1) as usize;
                lemma_levels_insert(a, b, x, v);
                lemma_count_levels(g.env[x], s, g, a.insert(x, v), b.insert(x, v), f, m);
            },
            RegModel::Literal(c) => {
                if s.len() > 0 && g.firsts.contains_key(s[0]) {
                    let fx = RegModel::Var(g.firsts[s[0]]);
                    lemma_count_levels(fx, s, g, a, b, f, m);
                    lemma_parse_levels(fx, s, g, a, b, f);
                    match (count_fuel(fx, s, g, a, f, m), parse_fuel(fx, s, g, a, f)) {
                        (Some(c1), Some(Ok((v, s1)))) => {
                            lemma_count_levels(RegModel::Literal(c), s1, g, a, b, f, c1);
                        },
                        _ => {},
                    }
                }
            },
            RegModel::Literals(lits) => {
                lemma_count_lits_levels(lits, 0, s, s, g, a, b, f, m);
            },
            RegModel::Concat(x, y) => {
                lemma_count_levels(*x, s, g, a, b, f, m);
                lemma_parse_levels(*x, s, g, a, b, f);
                match (count_fuel(*x, s, g, a, f, m), parse_fuel(*x, s, g, a, f)) {
                    (Some(c1), Some(Ok((v1, s1)))) => {
                        lemma_count_levels(*y, s1, g, a, b, f, c1);
                    },
                    _ => {},
                }
            },
            RegModel::Sequence(rs) => {
                lemma_count_seq_levels(rs, 0, s, g, a, b, f, m);
            },
            RegModel::Alter(x, y) => {
                lemma_count_levels(*x, s, g, a, b, f, m);
                lemma_parse_levels(*x, s, g, a, b, f);
                lemma_count_levels(*y, s, g, a, b, f, m);
            },
            RegModel::Star(x) => {
                lemma_count_star_levels(*x, s, g, a, b, f, m);
            },
            _ => {},
        }
    }
}

proof fn lemma_count_lits_levels(
    lits: Seq<i32>,
    i: nat,
    s: Seq<i32>,
    rest: Seq<i32>,
    g: ParseCtx,
    a: Map<i32, usize>,
    b: Map<i32, usize>,
    fuel: nat,
    m: nat,
)
    requires
        same_levels(a, b),
    ensures
        count_lits_fuel(lits, i, s, rest, g, a, fuel, m) == count_lits_fuel(lits, i, s, rest, g, b, fuel, m),
    decreases fuel,
{
    if fuel > 0 {
        let f = (fuel - 1) as nat;
        if i < lits.len() && rest.len() > 0 {
            if lits[i as int] == rest[0] {
                lemma_count_lits_levels(lits, i + 1, s, rest.subrange(1, rest.len() as int), g, a, b, f, m);
            } else if g.firsts.contains_key(rest[0]) {
                let fx = RegModel::Var(g.firsts[rest[0]]);
                lemma_count_levels(fx, s, g, a, b, f, m);
                lemma_parse_levels(fx, s, g, a, b, f);
                match (count_fuel(fx, s, g, a, f, m), parse_fuel(fx, s, g, a, f)) {
                    (Some(c1), Some(Ok((v, r2)))) => {
                        lemma_count_lits_levels(lits, i + 1, s, r2, g, a, b, f, c1);
                    },
                    _ => {},
                }
            }
        }
    }
}

proof fn lemma_count_seq_levels(
    rs: Seq<RegModel>,
    i: nat,
    rest: Seq<i32>,
    g: ParseCtx,
    a: Map<i32, usize>,
    b: Map<i32, usize>,
    fuel: nat,
    m: nat,
)
    requires
        same_levels(a, b),
    ensures
        count_seq_fuel(rs, i, rest, g, a, fuel, m) == count_seq_fuel(rs, i, rest, g, b, fuel, m),
    decreases fuel,
{
    if fuel > 0 {
        let f = (fuel - 1) as nat;
        if i < rs.len() {
            lemma_count_levels(rs[i as int], rest, g, a, b, f, m);
            lemma_parse_levels(rs[i as int], rest, g, a, b, f);
            match (count_fuel(rs[i as int], rest, g, a, f, m), parse_fuel(rs[i as int], rest, g, a, f)) {
                (Some(c1), Some(Ok((v, r2)))) => {
                    lemma_count_seq_levels(rs, i + 1, r2, g, a, b, f, c1);
                },
                _ => {},
            }
        }
    }
}

proof fn lemma_count_star_levels(r: RegModel, s: Seq<i32>, g: ParseCtx, a: Map<i32, usize>, b: Map<i32, usize>, fuel: nat, m: nat)
    requires
        same_levels(a, b),
    ensures
        count_star_fuel(r, s, g, a, fuel, m) == count_star_fuel(r, s, g, b, fuel, m),
    decreases fuel,
{
    if fuel > 0 {
        let f = (fuel - 1) as nat;
        lemma_count_levels(r, s, g, a, b, f, m);
        lemma_parse_levels(r, s, g, a, b, f);
        match (count_fuel(r, s, g, a, f, m), parse_fuel(r, s, g, a, f)) {
            (Some(c1), Some(Ok((v, s2)))) => {
                lemma_count_star_levels(r, s2, g, a, b, f, c1);
            },
            _ => {},
        }
    }
}

/// Restoring a stack twice restores it.
proof fn lemma_restored_trans(a: Map<i32, usize>, b: Map<i32, usize>, c: Map<i32, usize>)
    requires
        stack_restored(a, b),
        stack_restored(b, c),
    ensures
        stack_restored(a, c),
{
    assert forall|x: i32| #[trigger] level(a, x) == level(c, x) by {
        assert(level(a, x) == level(b, x));
        assert(level(b, x) == level(c, x));
    }
}

/// The parse of `s` by `r` from an empty call stack ends (and no variable
/// lacks its regular expression).
pub open spec fn parse_terminates(r: RegModel, s: Seq<i32>, g: ParseCtx) -> bool {
    exists|fuel: nat| #[trigger] parse_fuel(r, s, g, Map::empty(), fuel) is Some
}

/// The outcome of the parse of `s` by `r` from an empty call stack.
pub open spec fn parse_result(r: RegModel, s: Seq<i32>, g: ParseCtx) -> ParseOutcome {
    parse_fuel(r, s, g, Map::empty(), choose|fuel: nat| #[trigger] parse_fuel(r, s, g, Map::empty(), fuel) is Some).unwrap()
}


impl RegExp {
    /// Parses `s` from the call stack `stack`, counting matched blocks in
    /// `matched`, with the outcome of `parse_fuel` and the count of
    /// `count_fuel` with `fuel` steps; every function gets its level back.
    fn _parse_k_steps<'a>(
        &self,
        s: &'a [i32],
        env: &BTreeMap<i32, RegExp>,
        firsts: &BTreeMap<i32, i32>,
        k: usize,
        stack: &mut BTreeMap<i32, usize>,
        matched: &mut usize,
        Ghost(fuel): Ghost<nat>,
    ) -> (res: Result<(Val, &'a [i32]), ParseErr>)
        requires
            parse_fuel(self@, s@, ctx_of(env, firsts, k), old(stack)@, fuel) is Some,
            count_fuel(self@, s@, ctx_of(env, firsts, k), old(stack)@, fuel, *old(matched) as nat) is Some,
        ensures
            stack_restored(old(stack)@, final(stack)@),
            outcome(res) == parse_fuel(self@, s@, ctx_of(env, firsts, k), old(stack)@, fuel).unwrap(),
            *final(matched) == count_fuel(self@, s@, ctx_of(env, firsts, k), old(stack)@, fuel, *old(matched) as nat).unwrap(),
            calls_nothing(self@, s@, ctx_of(env, firsts, k)) ==> final(stack)@ == old(stack)@,
        decreases fuel,
    {
        let ghost g = ctx_of(env, firsts, k);
        let ghost f = (fuel - 1) as nat;
        let ghost st0 = stack@;
        let ghost m0 = *matched as nat;
        match self {
            RegExp::Epsilon => {
                let v = Val::Star(Vec::new());
                assert(vals_model(Seq::<Val>::empty()) =~= Seq::<ValModel>::empty());
                Ok((v, s))
            },
            RegExp::Var(x) => {
                assert(g.env.contains_key(*x));
                let re = env.get(x).unwrap();
                assert(g.env[*x] == re@);
                let found: Option<usize> = match stack.get(x) {
                    Some(l) => Some(*l),
                    None => None,
                };
                let nested_level: usize = match found {
                    Some(l) => l,
                    None => {
                        stack.insert(*x, 0);
                        0
                    },
                };
                let ghost st1 = stack@;
                assert(nested_level == level(st0, *x));
                assert(stack_restored(st0, st1)) by {
                    assert forall|y: i32| #[trigger] level(st0, y) == level(st1, y) by {}
                }
                if nested_level == k {
                    proof {
                        lemma_parse_levels(re@, s@, g, st0, st1, f);
                        lemma_count_levels(re@, s@, g, st0, st1, f, m0);
                    }
                    let r = re._parse_k_steps(s, env, firsts, k, stack, matched, Ghost(f));
                    proof {
                        lemma_restored_trans(st0, st1, stack@);
                    }
                    match r {
                        Ok((_, s2)) => Ok((Val::Epsilon, s2)),
                        Err(ParseErr::Abort(_)) => Err(ParseErr::Abort(Val::Epsilon)),
                        Err(ParseErr::Invalid(msg)) => Err(ParseErr::Invalid(msg)),
                    }
                } else {
                    let ghost inner = st0.insert(*x, (nested_level + 1) as usize);
                    stack.insert(*x, nested_level + 1);
                    proof {
                        lemma_levels_insert(st0, st1, *x, (nested_level + 1) as usize);
                        lemma_parse_levels(re@, s@, g, inner, stack@, f);
                        lemma_count_levels(re@, s@, g, inner, stack@, f, m0);
                    }
                    let ghost st2 = stack@;
                    let res = re._parse_k_steps(s, env, firsts, k, stack, matched, Ghost(f));
                    let ghost st3 = stack@;
                    stack.insert(*x, nested_level);
                    proof {
                        assert forall|y: i32| #[trigger] level(st0, y) == level(stack@, y) by {
                            if y != *x {
                                assert(level(st2, y) == level(st3, y));
                                assert(level(st1, y) == level(st2, y));
                            }
                        }
                        assert forall|y: i32| #[trigger] st0.contains_key(y) implies stack@.contains_key(y) by {
                            assert(st2.contains_key(y));
                        }
                    }
                    res
                }
            },
            RegExp::Literal(c) => {
                if s.len() == 0 {
                    Err(ParseErr::Abort(Val::Epsilon))
                } else if *c == s[0] {
                    *matched = *matched + 1;
                    Ok((Val::Literal(*c), &s[1..s.len()]))
                } else {
                    match firsts.get(&s[0]) {
                        Some(x) => {
                            let re = RegExp::Var(*x);
                            let r1 = re._parse_k_steps(s, env, firsts, k, stack, matched, Ghost(f));
                            let ghost st1 = stack@;
                            let (val, s1) = match r1 {
                                Ok(p) => p,
                                Err(e) => {
                                    return Err(e);
                                },
                            };
                            let lit = RegExp::Literal(*c);
                            proof {
                                lemma_parse_levels(lit@, s1@, g, st0, st1, f);
                                lemma_count_levels(lit@, s1@, g, st0, st1, f, *matched as nat);
                            }
                            let r2 = lit._parse_k_steps(s1, env, firsts, k, stack, matched, Ghost(f));
                            proof {
                                lemma_restored_trans(st0, st1, stack@);
                            }
                            match r2 {
                                Ok((val2, s2)) => Ok((Val::Concat(Box::new(val), Box::new(val2)), s2)),
                                Err(ParseErr::Abort(x)) => Err(ParseErr::Abort(Val::Concat(Box::new(val), Box::new(x)))),
                                Err(ParseErr::Invalid(msg)) => Err(ParseErr::Invalid(msg)),
                            }
                        },
                        None => Err(ParseErr::Invalid(mismatch_message(*c, s[0]))),
                    }
                }
            },
            RegExp::Concat(r1, r2) => {
                let a = (**r1)._parse_k_steps(s, env, firsts, k, stack, matched, Ghost(f));
                let ghost st1 = stack@;
                let (v1, s1) = match a {
                    Ok(p) => p,
                    Err(e) => {
                        return Err(e);
                    },
                };
                proof {
                    lemma_parse_levels((**r2)@, s1@, g, st0, st1, f);
                    lemma_count_levels((**r2)@, s1@, g, st0, st1, f, *matched as nat);
                }
                let b = (**r2)._parse_k_steps(s1, env, firsts, k, stack, matched, Ghost(f));
                proof {
                    lemma_restored_trans(st0, st1, stack@);
                }
                match b {
                    Ok((v2, s2)) => Ok((Val::Concat(Box::new(v1), Box::new(v2)), s2)),
                    Err(ParseErr::Abort(v2)) => Err(ParseErr::Abort(Val::Concat(Box::new(v1), Box::new(v2)))),
                    Err(ParseErr::Invalid(msg)) => Err(ParseErr::Invalid(msg)),
                }
            },
            RegExp::Alter(r1, r2) => {
                let cur = *matched;
                let a = (**r1)._parse_k_steps(s, env, firsts, k, stack, matched, Ghost(f));
                let ghost st1 = stack@;
                match a {
                    Err(ParseErr::Invalid(_)) => {
                        *matched = cur;
                        proof {
                            lemma_parse_levels((**r2)@, s@, g, st0, st1, f);
                            lemma_count_levels((**r2)@, s@, g, st0, st1, f, m0);
                        }
                        let b = (**r2)._parse_k_steps(s, env, firsts, k, stack, matched, Ghost(f));
                        proof {
                            lemma_restored_trans(st0, st1, stack@);
                        }
                        b
                    },
                    res => res,
                }
            },
            RegExp::Literals(lits) => {
                let ghost target = parse_fuel(self@, s@, g, st0, fuel);
                let ghost ctarget = count_fuel(self@, s@, g, st0, fuel, m0);
                let mut lit_vals: Vec<Val> = Vec::new();
                let ghost mut acc: Seq<ValModel> = seq![];
                let mut rest: &'a [i32] = s;
                let mut i: usize = 0;
                let ghost mut fu: nat = f;
                assert(vals_model(lit_vals@) =~= acc);
                while i < lits.len()
                    invariant
                        i <= lits.len(),
                        g == ctx_of(env, firsts, k),
                        stack_restored(st0, stack@),
                        target is Some,
                        ctarget is Some,
                        parse_lits_fuel(lits@, i as nat, s@, rest@, acc, g, st0, fu) == target,
                        count_lits_fuel(lits@, i as nat, s@, rest@, g, st0, fu, *matched as nat) == ctarget,
                        target == parse_fuel(self@, s@, g, st0, fuel),
                        ctarget == count_fuel(self@, s@, g, st0, fuel, m0),
                        m0 == *old(matched) as nat,
                        st0 == old(stack)@,
                        !calls_nothing(self@, s@, g),
                        fu <= f,
                        f < fuel,
                        vals_model(lit_vals@) == acc,
                    decreases lits.len() - i,
                {
                    let ghost fu1 = (fu - 1) as nat;
                    let ghost mi = *matched as nat;
                    if rest.len() == 0 {
                        assert(count_lits_fuel(lits@, i as nat, s@, rest@, g, st0, fu, mi) == Some(mi));
                        return Err(ParseErr::Abort(Val::Sequence(lit_vals)));
                    }
                    if lits[i] == rest[0] {
                        let v = Val::Literal(lits[i]);
                        proof {
                            assert(vals_model(lit_vals@.push(v)) =~= acc.push(v@));
                            acc = acc.push(v@);
                        }
                        lit_vals.push(v);
                        rest = &rest[1..rest.len()];
                    } else {
                        match firsts.get(&rest[0]) {
                            Some(x) => {
                                let re = RegExp::Var(*x);
                                let ghost stc = stack@;
                                proof {
                                    lemma_parse_levels(re@, s@, g, st0, stc, fu1);
                                    lemma_count_levels(re@, s@, g, st0, stc, fu1, *matched as nat);
                                }
                                let r = re._parse_k_steps(s, env, firsts, k, stack, matched, Ghost(fu1));
                                proof {
                                    lemma_restored_trans(st0, stc, stack@);
                                }
                                match r {
                                    Ok((val, rest_path)) => {
                                        proof {
                                            assert(vals_model(lit_vals@.push(val)) =~= acc.push(val@));
                                            acc = acc.push(val@);
                                        }
                                        lit_vals.push(val);
                                        rest = rest_path;
                                    },
                                    Err(ParseErr::Abort(v)) => {
                                        proof {
                                            assert(vals_model(lit_vals@.push(v)) =~= acc.push(v@));
                                            assert(count_lits_fuel(lits@, i as nat, s@, rest@, g, st0, fu, mi) == Some(*matched as nat));
                                        }
                                        lit_vals.push(v);
                                        return Err(ParseErr::Abort(Val::Sequence(lit_vals)));
                                    },
                                    Err(ParseErr::Invalid(msg)) => {
                                        assert(count_lits_fuel(lits@, i as nat, s@, rest@, g, st0, fu, mi) == Some(*matched as nat));
                                        return Err(ParseErr::Invalid(msg));
                                    },
                                }
                            },
                            None => {
                                assert(count_lits_fuel(lits@, i as nat, s@, rest@, g, st0, fu, mi) == Some(mi));
                                return Err(ParseErr::Invalid(mismatch_message(lits[i], rest[0])));
                            },
                        }
                    }
                    i = i + 1;
                    proof {
                        fu = fu1;
                    }
                }
                Ok((Val::Sequence(lit_vals), rest))
            },
            RegExp::Sequence(rs) => {
                let ghost target = parse_fuel(self@, s@, g, st0, fuel);
                let ghost ctarget = count_fuel(self@, s@, g, st0, fuel, m0);
                let ghost rsm = self@->Sequence_0;
                let mut vals: Vec<Val> = Vec::new();
                let ghost mut acc: Seq<ValModel> = seq![];
                let mut rest: &'a [i32] = s;
                let mut i: usize = 0;
                let ghost mut fu: nat = f;
                assert(vals_model(vals@) =~= acc);
                while i < rs.len()
                    invariant
                        i <= rs.len(),
                        rsm.len() == rs@.len(),
                        forall|j: int| 0 <= j < rs@.len() ==> #[trigger] rsm[j] == rs@[j]@,
                        g == ctx_of(env, firsts, k),
                        stack_restored(st0, stack@),
                        target is Some,
                        ctarget is Some,
                        parse_seq_fuel(rsm, i as nat, rest@, acc, g, st0, fu) == target,
                        count_seq_fuel(rsm, i as nat, rest@, g, st0, fu, *matched as nat) == ctarget,
                        target == parse_fuel(self@, s@, g, st0, fuel),
                        ctarget == count_fuel(self@, s@, g, st0, fuel, m0),
                        m0 == *old(matched) as nat,
                        st0 == old(stack)@,
                        !calls_nothing(self@, s@, g),
                        fu <= f,
                        f < fuel,
                        vals_model(vals@) == acc,
                    decreases rs.len() - i,
                {
                    let ghost fu1 = (fu - 1) as nat;
                    assert(rsm[i as int] == rs@[i as int]@);
                    let ghost stc = stack@;
                    let ghost mi = *matched as nat;
                    proof {
                        lemma_parse_levels(rsm[i as int], rest@, g, st0, stc, fu1);
                        lemma_count_levels(rsm[i as int], rest@, g, st0, stc, fu1, *matched as nat);
                    }
                    let r = (*rs[i])._parse_k_steps(rest, env, firsts, k, stack, matched, Ghost(fu1));
                    proof {
                        lemma_restored_trans(st0, stc, stack@);
                    }
                    match r {
                        Ok((v, s2)) => {
                            proof {
                                assert(vals_model(vals@.push(v)) =~= acc.push(v@));
                                acc = acc.push(v@);
                            }
                            vals.push(v);
                            rest = s2;
                        },
                        Err(ParseErr::Abort(v)) => {
                            proof {
                                assert(vals_model(vals@.push(v)) =~= acc.push(v@));
                                assert(count_seq_fuel(rsm, i as nat, rest@, g, st0, fu, mi) == Some(*matched as nat));
                            }
                            vals.push(v);
                            return Err(ParseErr::Abort(Val::Sequence(vals)));
                        },
                        Err(ParseErr::Invalid(msg)) => {
                            assert(count_seq_fuel(rsm, i as nat, rest@, g, st0, fu, mi) == Some(*matched as nat));
                            return Err(ParseErr::Invalid(msg));
                        },
                    }
                    i = i + 1;
                    proof {
                        fu = fu1;
                    }
                }
                Ok((Val::Sequence(vals), rest))
            },
            RegExp::Star(r) => {
                match (**r).parse_star_k(s, env, firsts, k, stack, matched, Ghost(f)) {
                    Ok((vals, s1)) => Ok((Val::Star(vals), s1)),
                    Err(ParseErr::Abort(val)) => Err(ParseErr::Abort(val)),
                    Err(ParseErr::Invalid(msg)) => Err(ParseErr::Invalid(msg)),
                }
            },
        }
    }

    /// The repetition loop of a star, with the outcome of `parse_star_fuel`
    /// and the count of `count_star_fuel`: a round that does not fit ends
    /// the loop and puts the count back to where it was before that round.
    fn parse_star_k<'a>(
        &self,
        s: &'a [i32],
        env: &BTreeMap<i32, RegExp>,
        firsts: &BTreeMap<i32, i32>,
        k: usize,
        stack: &mut BTreeMap<i32, usize>,
        matched: &mut usize,
        Ghost(fuel): Ghost<nat>,
    ) -> (res: Result<(Vec<Val>, &'a [i32]), ParseErr>)
        requires
            parse_star_fuel(self@, s@, seq![], ctx_of(env, firsts, k), old(stack)@, fuel) is Some,
            count_star_fuel(self@, s@, ctx_of(env, firsts, k), old(stack)@, fuel, *old(matched) as nat) is Some,
        ensures
            stack_restored(old(stack)@, final(stack)@),
            star_outcome(res) == parse_star_fuel(self@, s@, seq![], ctx_of(env, firsts, k), old(stack)@, fuel).unwrap(),
            *final(matched) == count_star_fuel(self@, s@, ctx_of(env, firsts, k), old(stack)@, fuel, *old(matched) as nat).unwrap(),
        decreases fuel,
    {
        let ghost g = ctx_of(env, firsts, k);
        let ghost st0 = stack@;
        let ghost target = parse_star_fuel(self@, s@, seq![], g, st0, fuel);
        let ghost ctarget = count_star_fuel(self@, s@, g, st0, fuel, *matched as nat);
        let mut acc: Vec<Val> = Vec::new();
        let ghost mut gacc: Seq<ValModel> = seq![];
        let ghost s0 = s@;
        let mut cur: &'a [i32] = s;
        let ghost mut fu: nat = fuel;
        assert(vals_model(acc@) =~= gacc);
        assert(stack_restored(st0, stack@)) by {
            assert forall|y: i32| #[trigger] level(st0, y) == level(stack@, y) by {}
        }
        loop
            invariant
                g == ctx_of(env, firsts, k),
                stack_restored(st0, stack@),
                target is Some,
                ctarget is Some,
                parse_star_fuel(self@, cur@, gacc, g, st0, fu) == target,
                count_star_fuel(self@, cur@, g, st0, fu, *matched as nat) == ctarget,
                target == parse_star_fuel(self@, s0, seq![], g, st0, fuel),
                ctarget == count_star_fuel(self@, s0, g, st0, fuel, *old(matched) as nat),
                s0 == s@,
                st0 == old(stack)@,
                vals_model(acc@) == gacc,
                fu <= fuel,
            decreases fu,
        {
            let ghost fu1 = (fu - 1) as nat;
            let before = *matched;
            let ghost stc = stack@;
            proof {
                lemma_parse_levels(self@, cur@, g, st0, stc, fu1);
                lemma_count_levels(self@, cur@, g, st0, stc, fu1, before as nat);
            }
            let r = self._parse_k_steps(cur, env, firsts, k, stack, matched, Ghost(fu1));
            proof {
                lemma_restored_trans(st0, stc, stack@);
            }
            match r {
                Ok((val, new_s)) => {
                    cur = new_s;
                    assert(acc@.len() == gacc.len());
                    if acc.len() == k {
                    } else {
                        proof {
                            assert(vals_model(acc@.push(val)) =~= gacc.push(val@));
                        }
                        acc.push(val);
                    }
                    proof {
                        gacc = keep(gacc, val@, k as nat);
                        fu = fu1;
                    }
                },
                Err(ParseErr::Abort(val)) => {
                    let ghost kept = keep(gacc, val@, k as nat);
                    assert(acc@.len() == gacc.len());
                    if acc.len() != k {
                        proof {
                            assert(vals_model(acc@.push(val)) =~= gacc.push(val@));
                        }
                        acc.push(val);
                    }
                    let star = Val::Star(acc);
                    assert(star@ == ValModel::Star(kept));
                    return Err(ParseErr::Abort(star));
                },
                Err(ParseErr::Invalid(_)) => {
                    *matched = before;
                    return Ok((acc, cur));
                },
            }
        }
    }
}


/// The outcome of the parse of `s` by `r` from the call stack `stack`.
pub open spec fn parse_from(r: RegModel, s: Seq<i32>, g: ParseCtx, stack: Map<i32, usize>) -> ParseOutcome {
    parse_fuel(r, s, g, stack, choose|fuel: nat| #[trigger] parse_fuel(r, s, g, stack, fuel) is Some).unwrap()
}

/// A number of steps with which both the parse of `s` by `r` from `stack`
/// and its count of matched blocks from `m` end.
pub open spec fn parse_steps(r: RegModel, s: Seq<i32>, g: ParseCtx, stack: Map<i32, usize>, m: nat) -> nat {
    choose|fuel: nat| #[trigger] parse_fuel(r, s, g, stack, fuel) is Some && count_fuel(r, s, g, stack, fuel, m) is Some
}

/// The count of matched blocks after the parse of `s` by `r` from `stack`,
/// from the count `m`.
pub open spec fn count_from(r: RegModel, s: Seq<i32>, g: ParseCtx, stack: Map<i32, usize>, m: nat) -> nat {
    count_fuel(r, s, g, stack, parse_steps(r, s, g, stack, m), m).unwrap()
}

/// The parse of `s` by `r` from `stack`, with the count of matched blocks
/// from `m`, ends (and the count stays within a `usize`).
pub open spec fn parse_counted(r: RegModel, s: Seq<i32>, g: ParseCtx, stack: Map<i32, usize>, m: nat) -> bool {
    exists|fuel: nat| #[trigger] parse_fuel(r, s, g, stack, fuel) is Some && count_fuel(r, s, g, stack, fuel, m) is Some
}

impl RegExp {
    /// Parses `s` against `self` from the call stack `stack`, which tells how
    /// deeply each function is entered, adding to `matched` the blocks that
    /// single literals match (a failed alternative or repetition round puts
    /// the count back). Every function gets its level back; a function
    /// entered for the first time is left on the stack at level 0.
    pub fn _parse_k<'a>(
        &self,
        s: &'a [i32],
        env: &BTreeMap<i32, RegExp>,
        firsts: &BTreeMap<i32, i32>,
        k: usize,
        stack: &mut BTreeMap<i32, usize>,
        matched: &mut usize,
    ) -> (res: Result<(Val, &'a [i32]), ParseErr>)
        requires
            parse_counted(self@, s@, ctx_of(env, firsts, k), old(stack)@, *old(matched) as nat),
        ensures
            stack_restored(old(stack)@, final(stack)@),
            outcome(res) == parse_from(self@, s@, ctx_of(env, firsts, k), old(stack)@),
            *final(matched) == count_from(self@, s@, ctx_of(env, firsts, k), old(stack)@, *old(matched) as nat),
            calls_nothing(self@, s@, ctx_of(env, firsts, k)) ==> final(stack)@ == old(stack)@,
    {
        let ghost g = ctx_of(env, firsts, k);
        let ghost fuel = parse_steps(self@, s@, g, stack@, *matched as nat);
        let ghost f2 = choose|fuel: nat| #[trigger] parse_fuel(self@, s@, g, stack@, fuel) is Some;
        proof {
            crate::laws::lemma_parse_fuel_unique(self@, s@, g, stack@, fuel, f2);
        }
        self._parse_k_steps(s, env, firsts, k, stack, matched, Ghost(fuel))
    }

    /// Parses `s` against `self`, where a function nested `k` deep in itself
    /// is matched without keeping its blocks, and where a repetition keeps at
    /// most `k` of its rounds.
    pub fn parse_k<'a>(
        &self,
        s: &'a [i32],
        env: &BTreeMap<i32, RegExp>,
        firsts: &BTreeMap<i32, i32>,
        k: usize,
    ) -> (res: Result<(Val, &'a [i32]), ParseErr>)
        requires
            parse_counted(self@, s@, ctx_of(env, firsts, k), Map::empty(), 0),
        ensures
            outcome(res) == parse_result(self@, s@, ctx_of(env, firsts, k)),
    {
        let mut stack: BTreeMap<i32, usize> = BTreeMap::new();
        let mut matched: usize = 0;
        assert(stack@ =~= Map::<i32, usize>::empty());
        self._parse_k(s, env, firsts, k, &mut stack, &mut matched)
    }
}

/// The unbounded parse of `s` by `r` with `fuel` steps: the outer `None`
/// where the steps run out or the parse meets what it cannot handle (an
/// empty expression, a literal list, a sequence node, a variable without its
/// expression); the inner `None` where `s` does not match.
pub open spec fn parse_inf_fuel(r: RegModel, s: Seq<i32>, env: Map<i32, RegModel>, fuel: nat) -> Option<Option<(ValModel, Seq<i32>)>>
    decreases fuel,
{
    if fuel == 0 {
        None
    } else {
        let f = (fuel - 1) as nat;
        match r {
            RegModel::Var(x) => if env.contains_key(x) {
                parse_inf_fuel(env[x], s, env, f)
            } else {
                None
            },
            RegModel::Literal(c) => if s.len() > 0 && s[0] == c {
                Some(Some((ValModel::Literal(c), s.subrange(1, s.len() as int))))
            } else {
                Some(None)
            },
            RegModel::Concat(a, b) => match parse_inf_fuel(*a, s, env, f) {
                Some(Some((v1, s1))) => match parse_inf_fuel(*b, s1, env, f) {
                    Some(Some((v2, s2))) => Some(Some((ValModel::Concat(Box::new(v1), Box::new(v2)), s2))),
                    o => o,
                },
                o => o,
            },
            RegModel::Alter(a, b) => match parse_inf_fuel(*a, s, env, f) {
                Some(None) => parse_inf_fuel(*b, s, env, f),
                o => o,
            },
            RegModel::Star(a) => match parse_star_inf_fuel(*a, s, seq![], env, f) {
                Some((vs, rest)) => Some(Some((ValModel::Star(vs), rest))),
                None => None,
            },
            _ => None,
        }
    }
}

/// The repetition loop of the unbounded parse: every round is kept.
pub open spec fn parse_star_inf_fuel(r: RegModel, s: Seq<i32>, acc: Seq<ValModel>, env: Map<i32, RegModel>, fuel: nat) -> Option<(Seq<ValModel>, Seq<i32>)>
    decreases fuel,
{
    if fuel == 0 {
        None
    } else {
        let f = (fuel - 1) as nat;
        match parse_inf_fuel(r, s, env, f) {
            None => None,
            Some(Some((v, s2))) => parse_star_inf_fuel(r, s2, acc.push(v), env, f),
            Some(None) => Some((acc, s)),
        }
    }
}

/// The value of each expression of `env`.
pub open spec fn env_of(env: &BTreeMap<i32, RegExp>) -> Map<i32, RegModel> {
    regex_models(env@)
}

/// The unbounded parse of `s` by `r` ends without meeting what it cannot handle.
pub open spec fn parse_inf_terminates(r: RegModel, s: Seq<i32>, env: Map<i32, RegModel>) -> bool {
    exists|fuel: nat| #[trigger] parse_inf_fuel(r, s, env, fuel) is Some
}

/// The outcome of the unbounded parse of `s` by `r`.
pub open spec fn parse_inf_result(r: RegModel, s: Seq<i32>, env: Map<i32, RegModel>) -> Option<(ValModel, Seq<i32>)> {
    parse_inf_fuel(r, s, env, choose|fuel: nat| #[trigger] parse_inf_fuel(r, s, env, fuel) is Some).unwrap()
}

/// The mathematical value of what an unbounded parse returns.
pub open spec fn inf_outcome<'a>(r: Option<(Val, &'a [i32])>) -> Option<(ValModel, Seq<i32>)> {
    match r {
        Some((v, rest)) => Some((v@, rest@)),
        None => None,
    }
}

impl RegExp {
    /// Parses `s` against `self` without any bound: every round of every
    /// repetition is kept, and an alternative is tried again on any mismatch.
    pub fn parse_inf<'a>(&self, s: &'a [i32], env: &BTreeMap<i32, RegExp>) -> (res: Option<(Val, &'a [i32])>)
        requires
            parse_inf_terminates(self@, s@, env_of(env)),
        ensures
            inf_outcome(res) == parse_inf_result(self@, s@, env_of(env)),
    {
        let ghost fuel = choose|fuel: nat| #[trigger] parse_inf_fuel(self@, s@, env_of(env), fuel) is Some;
        self.parse_inf_steps(s, env, Ghost(fuel))
    }

    fn parse_inf_steps<'a>(&self, s: &'a [i32], env: &BTreeMap<i32, RegExp>, Ghost(fuel): Ghost<nat>) -> (res: Option<(Val, &'a [i32])>)
        requires
            parse_inf_fuel(self@, s@, env_of(env), fuel) is Some,
        ensures
            inf_outcome(res) == parse_inf_fuel(self@, s@, env_of(env), fuel).unwrap(),
        decreases fuel,
    {
        let ghost f = (fuel - 1) as nat;
        match self {
            RegExp::Var(x) => {
                match env.get(x) {
                    Some(re) => re.parse_inf_steps(s, env, Ghost(f)),
                    None => None,
                }
            },
            RegExp::Literal(c) => {
                if s.len() == 0 {
                    None
                } else if *c == s[0] {
                    Some((Val::Literal(*c), &s[1..s.len()]))
                } else {
                    None
                }
            },
            RegExp::Concat(r1, r2) => {
                let (v1, s1) = match (**r1).parse_inf_steps(s, env, Ghost(f)) {
                    Some(p) => p,
                    None => {
                        return None;
                    },
                };
                let (v2, s2) = match (**r2).parse_inf_steps(s1, env, Ghost(f)) {
                    Some(p) => p,
                    None => {
                        return None;
                    },
                };
                Some((Val::Concat(Box::new(v1), Box::new(v2)), s2))
            },
            RegExp::Alter(r1, r2) => match (**r1).parse_inf_steps(s, env, Ghost(f)) {
                Some(res) => Some(res),
                None => (**r2).parse_inf_steps(s, env, Ghost(f)),
            },
            RegExp::Star(r) => {
                let (vs, s1) = (**r).parse_star_inf(s, env, Ghost(f));
                Some((Val::Star(vs), s1))
            },
            _ => None,
        }
    }

    /// The repetition loop of the unbounded parse.
    fn parse_star_inf<'a>(&self, s: &'a [i32], env: &BTreeMap<i32, RegExp>, Ghost(fuel): Ghost<nat>) -> (res: (Vec<Val>, &'a [i32]))
        requires
            parse_star_inf_fuel(self@, s@, seq![], env_of(env), fuel) is Some,
        ensures
            (vals_model(res.0@), res.1@) == parse_star_inf_fuel(self@, s@, seq![], env_of(env), fuel).unwrap(),
        decreases fuel,
    {
        let ghost target = parse_star_inf_fuel(self@, s@, seq![], env_of(env), fuel);
        let mut acc: Vec<Val> = Vec::new();
        let ghost mut gacc: Seq<ValModel> = seq![];
        let ghost s0 = s@;
        let mut cur: &'a [i32] = s;
        let ghost mut fu: nat = fuel;
        assert(vals_model(acc@) =~= gacc);
        loop
            invariant
                target is Some,
                target == parse_star_inf_fuel(self@, s0, seq![], env_of(env), fuel),
                s0 == s@,
                parse_star_inf_fuel(self@, cur@, gacc, env_of(env), fu) == target,
                vals_model(acc@) == gacc,
                fu <= fuel,
            decreases fu,
        {
            let ghost fu1 = (fu - 1) as nat;
            match self.parse_inf_steps(cur, env, Ghost(fu1)) {
                Some((val, new_s)) => {
                    proof {
                        assert(vals_model(acc@.push(val)) =~= gacc.push(val@));
                        gacc = gacc.push(val@);
                        fu = fu1;
                    }
                    acc.push(val);
                    cur = new_s;
                },
                None => {
                    return (acc, cur);
                },
            }
        }
    }
}

/// The blocks that a parse value holds, in order.
pub open spec fn flat(v: ValModel) -> Seq<i32>
    decreases v, 0nat,
{
    match v {
        ValModel::Epsilon => seq![],
        ValModel::Literal(c) => seq![c],
        ValModel::Literals(cs) => cs,
        ValModel::Concat(a, b) => flat(*a) + flat(*b),
        ValModel::Sequence(vs) => flat_all(vs, vs.len()),
        ValModel::Star(vs) => flat_all(vs, vs.len()),
    }
}

/// The blocks of the first `n` values of `vs`, in order.
pub open spec fn flat_all(vs: Seq<ValModel>, n: nat) -> Seq<i32>
    decreases vs, n,
{
    if n == 0 || n > vs.len() {
        seq![]
    } else {
        flat_all(vs, (n - 1) as nat) + flat(vs[n - 1])
    }
}

impl Val {
    /// Appends the blocks of `self` to `out`.
    fn flatten_into(&self, out: &mut Vec<i32>)
        ensures
            final(out)@ == old(out)@ + flat(self@),
        decreases self,
    {
        match self {
            Val::Epsilon => {
                assert(old(out)@ + seq![] =~= old(out)@);
            },
            Val::Literal(c) => {
                out.push(*c);
            },
            Val::Literals(cs) => {
                let mut i: usize = 0;
                while i < cs.len()
                    invariant
                        i <= cs.len(),
                        out@ == old(out)@ + cs@.take(i as int),
                    decreases cs.len() - i,
                {
                    out.push(cs[i]);
                    i = i + 1;
                    assert(out@ =~= old(out)@ + cs@.take(i as int));
                }
                assert(cs@.take(cs.len() as int) =~= cs@);
            },
            Val::Concat(a, b) => {
                (**a).flatten_into(out);
                (**b).flatten_into(out);
                assert(out@ =~= old(out)@ + flat(self@));
            },
            Val::Sequence(vs) | Val::Star(vs) => {
                let ghost ms = vals_model(vs@);
                let mut i: usize = 0;
                assert(old(out)@ + seq![] =~= old(out)@);
                while i < vs.len()
                    invariant
                        i <= vs.len(),
                        ms == vals_model(vs@),
                        out@ == old(out)@ + flat_all(ms, i as nat),
                        (self is Sequence && self->Sequence_0 == *vs) || (self is Star && self->Star_0 == *vs),
                    decreases vs.len() - i,
                {
                    proof {
                        assert(decreases_to!(vs => vs@));
                        assert(decreases_to!(vs@ => vs@[i as int]));
                    }
                    vs[i].flatten_into(out);
                    assert(ms[i as int] == vs@[i as int]@);
                    i = i + 1;
                    assert(out@ =~= old(out)@ + flat_all(ms, i as nat));
                }
            },
        }
    }

    /// The blocks that the parse value holds, in order.
    pub fn into_vec(self) -> (res: Vec<i32>)
        ensures
            res@ == flat(self@),
    {
        let mut res: Vec<i32> = Vec::new();
        self.flatten_into(&mut res);
        assert(res@ =~= flat(self@));
        res
    }
}


/// The blocks that `Val::reduce` keeps of `v`: of every repetition only the
/// first `k` rounds; `None` where it meets an empty value, a literal list or a
/// sequence node, which it does not handle.
pub open spec fn reduce_model(v: ValModel, k: nat) -> Option<Seq<i32>>
    decreases v, 0nat,
{
    match v {
        ValModel::Literal(c) => Some(seq![c]),
        ValModel::Concat(a, b) => match (reduce_model(*a, k), reduce_model(*b, k)) {
            (Some(x), Some(y)) => Some(x + y),
            _ => None,
        },
        ValModel::Star(vs) => reduce_rounds(vs, if vs.len() < k { vs.len() } else { k }, k),
        _ => None,
    }
}

/// What `Val::reduce` keeps of the first `n` rounds `vs` of a repetition.
pub open spec fn reduce_rounds(vs: Seq<ValModel>, n: nat, k: nat) -> Option<Seq<i32>>
    decreases vs, n,
{
    if n == 0 || n > vs.len() {
        Some(seq![])
    } else {
        match (reduce_rounds(vs, (n - 1) as nat, k), reduce_model(vs[n - 1], k)) {
            (Some(x), Some(y)) => Some(x + y),
            _ => None,
        }
    }
}

impl Val {
    fn reduce_into(&self, k: usize, out: &mut Vec<i32>)
        requires
            reduce_model(self@, k as nat) is Some,
        ensures
            final(out)@ == old(out)@ + reduce_model(self@, k as nat).unwrap(),
        decreases self,
    {
        match self {
            Val::Literal(c) => {
                out.push(*c);
                assert(out@ =~= old(out)@ + seq![*c]);
            },
            Val::Concat(v1, v2) => {
                (**v1).reduce_into(k, out);
                (**v2).reduce_into(k, out);
                assert(out@ =~= old(out)@ + reduce_model(self@, k as nat).unwrap());
            },
            Val::Star(vs) => {
                let ghost ms = vals_model(vs@);
                let ghost n: nat = if ms.len() < k { ms.len() } else { k as nat };
                let mut counter: usize = 0;
                assert(old(out)@ + seq![] =~= old(out)@);
                while counter < vs.len() && counter < k
                    invariant
                        counter <= vs.len(),
                        counter <= n,
                        ms == vals_model(vs@),
                        n == (if ms.len() < k { ms.len() } else { k as nat }),
                        reduce_rounds(ms, n, k as nat) is Some,
                        out@ == old(out)@ + reduce_rounds(ms, counter as nat, k as nat).unwrap(),
                        self is Star && self->Star_0 == *vs,
                    decreases vs.len() - counter,
                {
                    proof {
                        assert(decreases_to!(vs => vs@));
                        assert(decreases_to!(vs@ => vs@[counter as int]));
                        lemma_reduce_rounds_prefix(ms, counter as nat + 1, n, k as nat);
                    }
                    assert(ms[counter as int] == vs@[counter as int]@);
                    vs[counter].reduce_into(k, out);
                    counter = counter + 1;
                    assert(out@ =~= old(out)@ + reduce_rounds(ms, counter as nat, k as nat).unwrap());
                }
            },
            _ => {},
        }
    }

    /// The blocks of the parse value, keeping only the first `k` rounds of
    /// every repetition.
    pub fn reduce(self, k: usize) -> (res: Vec<i32>)
        requires
            k != 0,
            reduce_model(self@, k as nat) is Some,
        ensures
            res@ == reduce_model(self@, k as nat).unwrap(),
    {
        let mut res: Vec<i32> = Vec::new();
        self.reduce_into(k, &mut res);
        assert(res@ =~= reduce_model(self@, k as nat).unwrap());
        res
    }
}

/// What is kept of `m` rounds is defined when what is kept of `n >= m`
/// rounds is.
proof fn lemma_reduce_rounds_prefix(vs: Seq<ValModel>, m: nat, n: nat, k: nat)
    requires
        m <= n <= vs.len(),
        reduce_rounds(vs, n, k) is Some,
    ensures
        reduce_rounds(vs, m, k) is Some,
        m > 0 ==> reduce_model(vs[m - 1], k) is Some,
    decreases n - m,
{
    if m < n {
        lemma_reduce_rounds_prefix(vs, m + 1, n, k);
    }
}


/// The concatenation that `RegExp::concat` builds: an empty side is left out.
pub open spec fn concat_model(a: RegModel, b: RegModel) -> RegModel {
    if a is Epsilon {
        b
    } else if b is Epsilon {
        a
    } else {
        RegModel::Concat(Box::new(a), Box::new(b))
    }
}

/// The alternative that `RegExp::alter` builds: equal sides are merged.
pub open spec fn alter_model(a: RegModel, b: RegModel) -> RegModel {
    if a == b {
        a
    } else {
        RegModel::Alter(Box::new(a), Box::new(b))
    }
}

/// What `alter_prefix_acc` returns: the longest common prefix of `a` and
/// `b` (split along their concatenations) is moved onto `prefix`, and the
/// two remainders are returned; `None` where a side is empty, which is not
/// accepted.
pub open spec fn prefix_acc_model(prefix: RegModel, a: RegModel, b: RegModel) -> Option<(RegModel, RegModel, RegModel)>
    decreases a,
{
    if a is Epsilon || b is Epsilon {
        None
    } else if a == b {
        Some((concat_model(prefix, a), RegModel::Epsilon, RegModel::Epsilon))
    } else {
        match (a, b) {
            (RegModel::Concat(a1, a2), RegModel::Concat(b1, b2)) => match prefix_acc_model(prefix, *a1, *b1) {
                None => None,
                Some((p1, x, y)) => if x is Epsilon && y is Epsilon {
                    prefix_acc_model(p1, *a2, *b2)
                } else {
                    Some((p1, concat_model(x, *a2), concat_model(y, *b2)))
                },
            },
            _ => Some((prefix, a, b)),
        }
    }
}

/// What `alter_post_acc` returns: the longest common suffix of `a` and `b` is
/// moved in front of `postfix`, and the two remainders are returned.
pub open spec fn post_acc_model(a: RegModel, b: RegModel, postfix: RegModel) -> Option<(RegModel, RegModel, RegModel)>
    decreases a,
{
    if a is Epsilon || b is Epsilon {
        None
    } else if a == b {
        Some((RegModel::Epsilon, RegModel::Epsilon, concat_model(a, postfix)))
    } else {
        match (a, b) {
            (RegModel::Concat(a1, a2), RegModel::Concat(b1, b2)) => match post_acc_model(*a2, *b2, postfix) {
                None => None,
                Some((x, y, p1)) => if x is Epsilon && y is Epsilon {
                    post_acc_model(*a1, *b1, p1)
                } else {
                    Some((concat_model(*a1, x), concat_model(*b1, y), p1))
                },
            },
            _ => Some((a, b, postfix)),
        }
    }
}

impl RegExp {
    /// The variable `x`: the expression of function `x`.
    pub fn var(x: i32) -> (res: Self)
        ensures
            res@ == RegModel::Var(x),
    {
        RegExp::Var(x)
    }

    /// The block `c`.
    pub fn literal(c: i32) -> (res: Self)
        ensures
            res@ == RegModel::Literal(c),
    {
        RegExp::Literal(c)
    }

    /// `r1` followed by `r2`, leaving out an empty side.
    pub fn concat(r1: Arc<RegExp>, r2: Arc<RegExp>) -> (res: Arc<RegExp>)
        ensures
            res@ == concat_model(r1@, r2@),
    {
        match (&*r1, &*r2) {
            (RegExp::Epsilon, _) => r2,
            (_, RegExp::Epsilon) => r1,
            (_, _) => Arc::new(RegExp::Concat(r1, r2)),
        }
    }

    /// `r1` or `r2`; equal sides are merged into one.
    pub fn alter(r1: Arc<RegExp>, r2: Arc<RegExp>) -> (res: Arc<RegExp>)
        requires
            !(r1@ is Epsilon),
            !(r2@ is Epsilon),
        ensures
            res@ == alter_model(r1@, r2@),
    {
        if (*r1).equals(&*r2) {
            return r1;
        }
        Arc::new(RegExp::Alter(r1, r2))
    }

    /// Moves the common prefix of `r1` and `r2` onto `prefix`.
    pub fn alter_prefix_acc(prefix: Arc<RegExp>, r1: Arc<RegExp>, r2: Arc<RegExp>) -> (res: (Arc<RegExp>, Arc<RegExp>, Arc<RegExp>))
        requires
            prefix_acc_model(prefix@, r1@, r2@) is Some,
        ensures
            (res.0@, res.1@, res.2@) == prefix_acc_model(prefix@, r1@, r2@).unwrap(),
        decreases r1@,
    {
        let epsilon = Arc::new(RegExp::Epsilon);
        if (*r1).equals(&*r2) {
            return (RegExp::concat(prefix, r1), share(&epsilon), epsilon);
        }
        match (&*r1, &*r2) {
            (RegExp::Concat(a, b), RegExp::Concat(c, d)) => {
                let (p1, a_, c_) = RegExp::alter_prefix_acc(prefix, share(a), share(c));
                if matches!(&*a_, RegExp::Epsilon) && matches!(&*c_, RegExp::Epsilon) {
                    RegExp::alter_prefix_acc(p1, share(b), share(d))
                } else {
                    (p1, RegExp::concat(a_, share(b)), RegExp::concat(c_, share(d)))
                }
            },
            (_, _) => (prefix, r1, r2),
        }
    }

    /// Moves the common suffix of `r1` and `r2` in front of `postfix`.
    pub fn alter_post_acc(r1: Arc<RegExp>, r2: Arc<RegExp>, postfix: Arc<RegExp>) -> (res: (Arc<RegExp>, Arc<RegExp>, Arc<RegExp>))
        requires
            post_acc_model(r1@, r2@, postfix@) is Some,
        ensures
            (res.0@, res.1@, res.2@) == post_acc_model(r1@, r2@, postfix@).unwrap(),
        decreases r1@,
    {
        let epsilon = Arc::new(RegExp::Epsilon);
        if (*r1).equals(&*r2) {
            return (share(&epsilon), epsilon, RegExp::concat(r1, postfix));
        }
        match (&*r1, &*r2) {
            (RegExp::Concat(a, b), RegExp::Concat(c, d)) => {
                let (b_, d_, p1) = RegExp::alter_post_acc(share(b), share(d), postfix);
                if matches!(&*b_, RegExp::Epsilon) && matches!(&*d_, RegExp::Epsilon) {
                    RegExp::alter_post_acc(share(a), share(c), p1)
                } else {
                    (RegExp::concat(share(a), b_), RegExp::concat(share(c), d_), p1)
                }
            },
            (_, _) => (r1, r2, postfix),
        }
    }

    /// The repetition of `r`.
    pub fn star(r: Arc<RegExp>) -> (res: Self)
        ensures
            res@ == RegModel::Star(Box::new(r@)),
    {
        RegExp::Star(r)
    }

    /// Whether the search for the first block of `self` has an answer: it
    /// reaches no variable, no sequence node and no empty literal list.
    pub(crate) fn first_is_defined(&self) -> (b: bool)
        ensures
            b == first_defined(self@),
        decreases self,
    {
        match self {
            RegExp::Epsilon | RegExp::Literal(_) => true,
            RegExp::Literals(cs) => cs.len() > 0,
            RegExp::Var(_) | RegExp::Sequence(_) => false,
            RegExp::Concat(re1, re2) | RegExp::Alter(re1, re2) => {
                if !(**re1).first_is_defined() {
                    false
                } else if (**re1).first_opt().is_none() {
                    (**re2).first_is_defined()
                } else {
                    true
                }
            },
            RegExp::Star(re) => (**re).first_is_defined(),
        }
    }

    /// The first block that a path matching `self` can start with, or `None`
    /// where it may be empty.
    pub fn first_opt(&self) -> (res: Option<i32>)
        requires
            first_defined(self@),
        ensures
            res == first_of(self@),
        decreases self,
    {
        match self {
            RegExp::Epsilon => None,
            RegExp::Literal(c) => Some(*c),
            RegExp::Literals(cs) => Some(cs[0]),
            RegExp::Concat(re1, re2) => {
                if let Some(c) = (**re1).first_opt() {
                    Some(c)
                } else {
                    (**re2).first_opt()
                }
            },
            RegExp::Alter(re1, re2) => {
                let f1 = (**re1).first_opt();
                if f1.is_some() {
                    return f1;
                }
                (**re2).first_opt()
            },
            RegExp::Star(re) => (**re).first_opt(),
            RegExp::Var(_) | RegExp::Sequence(_) => None,
        }
    }

    /// The first block of every path that matches `self`.
    pub fn first(&self) -> (res: i32)
        requires
            first_defined(self@),
            first_of(self@) is Some,
        ensures
            res == first_of(self@).unwrap(),
    {
        match self.first_opt() {
            Some(c) => c,
            None => 0,
        }
    }

    /// Walks the whole expression; it computes nothing.
    pub fn size(&self)
        decreases self,
    {
        match self {
            RegExp::Epsilon | RegExp::Var(_) | RegExp::Literal(_) => (),
            RegExp::Literals(_) => (),
            RegExp::Concat(r1, r2) => {
                (**r1).size();
                (**r2).size();
            },
            RegExp::Sequence(rs) => {
                let mut i: usize = 0;
                while i < rs.len()
                    invariant
                        self is Sequence && self->Sequence_0 == *rs,
                    decreases rs.len() - i,
                {
                    proof {
                        assert(decreases_to!(rs => rs@));
                        assert(decreases_to!(rs@ => rs@[i as int]));
                    }
                    (*rs[i]).size();
                    i = i + 1;
                }
            },
            RegExp::Alter(r1, r2) => {
                (**r1).size();
                (**r2).size();
            },
            RegExp::Star(r) => (**r).size(),
        }
    }
}


/// The texts of a list of strings.
pub open spec fn texts(v: Seq<String>) -> Seq<Seq<char>> {
    v.map_values(|l: String| l@)
}

/// The `Debug` form of a list of blocks: the blocks in decimal, between
/// brackets, separated by a comma and a space.
pub open spec fn list_text(cs: Seq<i32>) -> Seq<char> {
    "["@ + list_items(cs, cs.len()) + "]"@
}

/// The first `n` blocks of `cs` in decimal, separated by a comma and a space.
pub open spec fn list_items(cs: Seq<i32>, n: nat) -> Seq<char>
    decreases n,
{
    if n == 0 || n > cs.len() {
        seq![]
    } else if n == 1 {
        decimal(cs[0])
    } else {
        list_items(cs, (n - 1) as nat) + ", "@ + decimal(cs[n - 1])
    }
}

/// The lines that show `r`, one node a line: a leaf on a line of its own, an
/// inner node as its name and an opening bracket, its parts separated by
/// lines with a comma, and a closing bracket.
pub open spec fn debug_model(r: RegModel) -> Seq<Seq<char>>
    decreases r, 0nat,
{
    match r {
        RegModel::Epsilon => seq!["Epsilon"@],
        RegModel::Var(x) => seq!["Var("@ + decimal(x) + ")"@],
        RegModel::Literal(c) => seq!["Literal("@ + decimal(c) + ")"@],
        RegModel::Literals(cs) => seq!["Literals("@ + list_text(cs) + ")"@],
        RegModel::Concat(a, b) => seq!["Concat("@] + debug_model(*a) + seq![","@] + debug_model(*b) + seq![")"@],
        RegModel::Sequence(rs) => seq!["Seq("@] + debug_parts(rs, rs.len()) + seq![")"@],
        RegModel::Alter(a, b) => seq!["Alter("@] + debug_model(*a) + seq![","@] + debug_model(*b) + seq![")"@],
        RegModel::Star(a) => seq!["Star("@] + debug_model(*a) + seq![")"@],
    }
}

/// The lines of the first `n` parts of a sequence node, separated by lines
/// with a comma.
pub open spec fn debug_parts(rs: Seq<RegModel>, n: nat) -> Seq<Seq<char>>
    decreases rs, n,
{
    if n == 0 || n > rs.len() {
        seq![]
    } else if n == 1 {
        debug_model(rs[0])
    } else {
        debug_parts(rs, (n - 1) as nat) + seq![","@] + debug_model(rs[n - 1])
    }
}

/// `format!("{:?}", i)`: the `Debug` form of an `i32` is its decimal form.
#[verifier::external_body]
fn number_text(i: i32) -> (t: String)
    ensures
        t@ == decimal(i),
{
    format!("{:?}", i)
}

/// Adds `line` after the lines of `out`.
fn push_line(out: &mut Vec<String>, line: String)
    ensures
        texts(final(out)@) == texts(old(out)@).push(line@),
{
    let ghost before = out@;
    out.push(line);
    assert(texts(out@) =~= texts(before).push(line@));
}

/// A line made of `a`, the decimal form of `i`, and `b`.
fn wrapped_number(a: &str, i: i32, b: &str) -> (t: String)
    ensures
        t@ == a@ + decimal(i) + b@,
{
    let mut t = String::from_str(a);
    let n = number_text(i);
    t.append(n.as_str());
    t.append(b);
    t
}

/// The `Debug` form of the list of blocks `cs`.
fn list_line(cs: &Vec<i32>) -> (t: String)
    ensures
        t@ == list_text(cs@),
{
    let mut t = String::from_str("[");
    let mut i: usize = 0;
    while i < cs.len()
        invariant
            i <= cs.len(),
            t@ == "["@ + list_items(cs@, i as nat),
        decreases cs.len() - i,
    {
        if i > 0 {
            t.append(", ");
        }
        let n = number_text(cs[i]);
        t.append(n.as_str());
        proof {
            if i == 0 {
                assert(list_items(cs@, 1) == decimal(cs@[0]));
                assert(list_items(cs@, 0) == Seq::<char>::empty());
                assert("["@ + Seq::<char>::empty() + decimal(cs@[0]) =~= "["@ + decimal(cs@[0]));
            } else {
                assert(list_items(cs@, (i + 1) as nat) == list_items(cs@, i as nat) + ", "@ + decimal(cs@[i as int]));
            }
        }
        assert(t@ =~= "["@ + list_items(cs@, (i + 1) as nat));
        i = i + 1;
    }
    t.append("]");
    t
}

impl RegExp {
    fn debug_into(&self, out: &mut Vec<String>)
        ensures
            texts(final(out)@) == texts(old(out)@) + debug_model(self@),
        decreases self,
    {
        let ghost before = texts(out@);
        match self {
            RegExp::Epsilon => {
                push_line(out, String::from_str("Epsilon"));
            },
            RegExp::Var(x) => {
                push_line(out, wrapped_number("Var(", *x, ")"));
            },
            RegExp::Literal(c) => {
                push_line(out, wrapped_number("Literal(", *c, ")"));
            },
            RegExp::Literals(cs) => {
                let mut t = String::from_str("Literals(");
                let l = list_line(cs);
                t.append(l.as_str());
                t.append(")");
                push_line(out, t);
            },
            RegExp::Concat(a, b) => {
                push_line(out, String::from_str("Concat("));
                (**a).debug_into(out);
                push_line(out, String::from_str(","));
                (**b).debug_into(out);
                push_line(out, String::from_str(")"));
            },
            RegExp::Alter(a, b) => {
                push_line(out, String::from_str("Alter("));
                (**a).debug_into(out);
                push_line(out, String::from_str(","));
                (**b).debug_into(out);
                push_line(out, String::from_str(")"));
            },
            RegExp::Star(a) => {
                push_line(out, String::from_str("Star("));
                (**a).debug_into(out);
                push_line(out, String::from_str(")"));
            },
            RegExp::Sequence(rs) => {
                let ghost rsm = self@->Sequence_0;
                push_line(out, String::from_str("Seq("));
                let ghost start = texts(out@);
                let mut i: usize = 0;
                while i < rs.len()
                    invariant
                        self is Sequence && self->Sequence_0 == *rs,
                        rsm.len() == rs@.len(),
                        forall|j: int| 0 <= j < rs@.len() ==> #[trigger] rsm[j] == rs@[j]@,
                        i <= rs.len(),
                        texts(out@) == start + debug_parts(rsm, i as nat),
                    decreases rs.len() - i,
                {
                    proof {
                        assert(decreases_to!(rs => rs@));
                        assert(decreases_to!(rs@ => rs@[i as int]));
                    }
                    if i > 0 {
                        push_line(out, String::from_str(","));
                    }
                    (*rs[i]).debug_into(out);
                    assert(rsm[i as int] == rs@[i as int]@);
                    if i == 0 {
                        assert(debug_parts(rsm, 0) == Seq::<Seq<char>>::empty());
                        assert(texts(out@) =~= start + debug_parts(rsm, 1));
                    } else {
                        assert(texts(out@) =~= start + debug_parts(rsm, (i + 1) as nat));
                    }
                    i = i + 1;
                }
                push_line(out, String::from_str(")"));
            },
        }
        assert(texts(out@) =~= before + debug_model(self@));
    }

    /// The lines that show the expression, one node a line (what the
    /// printing of an expression for debugging writes).
    pub fn debug_lines(&self) -> (lines: Vec<String>)
        ensures
            texts(lines@) == debug_model(self@),
    {
        let mut out: Vec<String> = Vec::new();
        assert(texts(out@) =~= Seq::<Seq<char>>::empty());
        self.debug_into(&mut out);
        assert(Seq::<Seq<char>>::empty() + debug_model(self@) =~= debug_model(self@));
        out
    }
}

} // verus!
