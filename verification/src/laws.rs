//! What holds of every parse and every reduction: a parse takes a front part
//! off the path, and what a parse or a reduction keeps is a subsequence of
//! the blocks it reads.

use vstd::prelude::*;
use crate::re::{
    RegModel, ValModel, ParseCtx, ParseOutcome, ParseErrModel, StarOutcome, flat, flat_all, keep,
    parse_fuel, parse_lits_fuel, parse_seq_fuel, parse_star_fuel, parse_terminates, parse_result,
    reduce_model, reduce_rounds, parse_from, parse_inf_fuel, parse_star_inf_fuel, parse_inf_terminates, parse_inf_result,
};
use crate::path_reduction::{PathReducer, Shape, one_call, call_loop, SIMPLE_REDUCTION_K, simple_reduction, parse_reduction, lemma_simple_reduction_subseq};
use crate::convert::{GnfaState, contributes, route, merged_value, bypassed, ripped, unmoved, next_rip, eliminate, initial_state, node_re};
use crate::intern_cfg::CFG;
use crate::graph::{cfg_nodes, cfg_edges};
use crate::path_reduction::cfg_regex;
use crate::subseq::{
    subsequence, suffix_of, consumed, lemma_subseq_empty, lemma_subseq_refl, lemma_subseq_concat,
    lemma_subseq_extend, lemma_subseq_trans, lemma_suffix_chain, lemma_suffix_refl,
    lemma_suffix_drop_first,
};

verus! {

/// `r` holds no literal list: the parse of a literal list reads a call from
/// the start of the path again, so what it keeps may repeat blocks.
pub open spec fn plain(r: RegModel) -> bool
    decreases r, 0nat,
{
    match r {
        RegModel::Literals(_) => false,
        RegModel::Concat(a, b) => plain(*a) && plain(*b),
        RegModel::Alter(a, b) => plain(*a) && plain(*b),
        RegModel::Star(a) => plain(*a),
        RegModel::Sequence(rs) => plain_all(rs, rs.len()),
        _ => true,
    }
}

/// The first `n` expressions of `rs` hold no literal list.
pub open spec fn plain_all(rs: Seq<RegModel>, n: nat) -> bool
    decreases rs, n,
{
    if n == 0 || n > rs.len() {
        true
    } else {
        plain_all(rs, (n - 1) as nat) && plain(rs[n - 1])
    }
}

/// No expression of `env` holds a literal list.
pub open spec fn env_plain(env: Map<i32, RegModel>) -> bool {
    forall|x: i32| #[trigger] env.contains_key(x) ==> plain(env[x])
}

/// No block starts a function: a mismatch is never read as a call, and a
/// literal list is matched block by block.
pub open spec fn no_calls(g: ParseCtx) -> bool {
    forall|b: i32| !#[trigger] g.firsts.contains_key(b)
}

/// What a parse by `r` keeps stays in the order of the path: no expression
/// it meets holds a literal list, or no block starts a function.
pub open spec fn in_order(r: RegModel, g: ParseCtx) -> bool {
    (plain(r) && env_plain(g.env)) || no_calls(g)
}

/// The outcome `o` of a parse of `s` takes a front part off `s`, and, where
/// `p`, what it keeps is a subsequence of the blocks it reads.
pub open spec fn outcome_sound(s: Seq<i32>, o: ParseOutcome, p: bool) -> bool {
    match o {
        Ok((v, rest)) => suffix_of(rest, s) && (p ==> subsequence(flat(v), consumed(s, rest))),
        Err(ParseErrModel::Abort(v)) => p ==> subsequence(flat(v), s),
        Err(ParseErrModel::Invalid(_)) => true,
    }
}

proof fn lemma_plain_all_at(rs: Seq<RegModel>, n: nat, i: int)
    requires
        plain_all(rs, n),
        n <= rs.len(),
        0 <= i < n,
    ensures
        plain(rs[i]),
    decreases n,
{
    if i < n - 1 {
        lemma_plain_all_at(rs, (n - 1) as nat, i);
    }
}

/// Adding a value at the back of `vs` leaves the blocks of its first `n`
/// values as they were.
proof fn lemma_flat_all_push(vs: Seq<ValModel>, v: ValModel, n: nat)
    requires
        n <= vs.len(),
    ensures
        flat_all(vs.push(v), n) == flat_all(vs, n),
    decreases n,
{
    if n > 0 {
        lemma_flat_all_push(vs, v, (n - 1) as nat);
        assert(vs.push(v)[n - 1] == vs[n - 1]);
    }
}

/// The blocks of all values of `vs` with `v` added are those of `vs`, then
/// those of `v`.
proof fn lemma_flat_all_pushed(vs: Seq<ValModel>, v: ValModel)
    ensures
        flat_all(vs.push(v), vs.len() + 1) == flat_all(vs, vs.len()) + flat(v),
{
    lemma_flat_all_push(vs, v, vs.len());
    assert(vs.push(v)[vs.len() as int] == v);
}

/// The outcome of parsing `v1` and then `o2` from what `v1` left is sound.
proof fn lemma_concat_sound(s: Seq<i32>, v1: ValModel, s1: Seq<i32>, o2: ParseOutcome, p: bool)
    requires
        suffix_of(s1, s),
        p ==> subsequence(flat(v1), consumed(s, s1)),
        outcome_sound(s1, o2, p),
    ensures
        outcome_sound(s, crate::re::concat_outcome(v1, o2), p),
{
    match o2 {
        Ok((v2, rest)) => {
            lemma_suffix_chain(s, s1, rest);
            if p {
                lemma_subseq_concat(flat(v1), consumed(s, s1), flat(v2), consumed(s1, rest));
            }
        },
        Err(ParseErrModel::Abort(v2)) => {
            if p {
                lemma_subseq_concat(flat(v1), consumed(s, s1), flat(v2), s1);
            }
        },
        Err(ParseErrModel::Invalid(_)) => {},
    }
}

/// Every parse with enough steps is sound; what it keeps is a subsequence of
/// what it reads where no expression it meets holds a literal list, or no
/// block starts a function.
pub proof fn lemma_parse_fuel_sound(r: RegModel, s: Seq<i32>, g: ParseCtx, stack: Map<i32, usize>, fuel: nat)
    requires
        parse_fuel(r, s, g, stack, fuel) is Some,
    ensures
        outcome_sound(s, parse_fuel(r, s, g, stack, fuel).unwrap(), in_order(r, g)),
    decreases fuel,
{
    let f = (fuel - 1) as nat;
    let p = in_order(r, g);
    match r {
        RegModel::Epsilon => {
            lemma_suffix_refl(s);
            lemma_subseq_empty(consumed(s, s));
            let e: Seq<ValModel> = seq![];
            assert(flat_all(e, 0) == Seq::<i32>::empty());
            assert(flat(ValModel::Star(e)) == flat_all(e, e.len()));
        },
        RegModel::Var(x) => {
            if crate::re::level(stack, x) == g.k {
                lemma_parse_fuel_sound(g.env[x], s, g, stack, f);
                match parse_fuel(g.env[x], s, g, stack, f).unwrap() {
                    Ok((_, rest)) => {
                        lemma_subseq_empty(consumed(s, rest));
                    },
                    Err(ParseErrModel::Abort(_)) => {
                        lemma_subseq_empty(s);
                    },
                    _ => {},
                }
            } else {
                lemma_parse_fuel_sound(g.env[x], s, g, stack.insert(x, (crate::re::level(stack, x) + 1) as usize), f);
            }
        },
        RegModel::Literal(c) => {
            if s.len() == 0 {
                lemma_subseq_empty(s);
            } else if s[0] == c {
                lemma_suffix_drop_first(s);
                assert(s.subrange(1, s.len() as int) == s.drop_first());
                lemma_subseq_refl(seq![c]);
            } else if g.firsts.contains_key(s[0]) {
                let fx = RegModel::Var(g.firsts[s[0]]);
                lemma_parse_fuel_sound(fx, s, g, stack, f);
                match parse_fuel(fx, s, g, stack, f).unwrap() {
                    Ok((v, s1)) => {
                        lemma_parse_fuel_sound(RegModel::Literal(c), s1, g, stack, f);
                        lemma_concat_sound(s, v, s1, parse_fuel(RegModel::Literal(c), s1, g, stack, f).unwrap(), p);
                    },
                    _ => {},
                }
            }
        },
        RegModel::Literals(lits) => {
            lemma_suffix_refl(s);
            lemma_lits_suffix(lits, 0, s, s, seq![], g, stack, f);
            if no_calls(g) {
                let e: Seq<ValModel> = seq![];
                assert(flat_all(e, 0) == Seq::<i32>::empty());
                lemma_subseq_empty(Seq::<i32>::empty());
                lemma_lits_in_order(lits, 0, s, s, e, g, stack, f, seq![]);
                assert(Seq::<i32>::empty() + s =~= s);
                match parse_lits_fuel(lits, 0, s, s, e, g, stack, f).unwrap() {
                    Ok((v, rest)) => {
                        assert(Seq::<i32>::empty() + consumed(s, rest) =~= consumed(s, rest));
                    },
                    _ => {},
                }
            }
        },
        RegModel::Concat(a, b) => {
            lemma_parse_fuel_sound(*a, s, g, stack, f);
            match parse_fuel(*a, s, g, stack, f).unwrap() {
                Ok((v1, s1)) => {
                    lemma_parse_fuel_sound(*b, s1, g, stack, f);
                    lemma_concat_sound(s, v1, s1, parse_fuel(*b, s1, g, stack, f).unwrap(), p);
                },
                _ => {},
            }
        },
        RegModel::Sequence(rs) => {
            lemma_suffix_refl(s);
            lemma_subseq_empty(seq![]);
            assert(flat_all(seq![], 0) == Seq::<i32>::empty());
            lemma_seq_sound(rs, 0, s, seq![], g, stack, f, seq![]);
            assert(Seq::<i32>::empty() + s =~= s);
            match parse_seq_fuel(rs, 0, s, seq![], g, stack, f).unwrap() {
                Ok((v, rest)) => {
                    assert(Seq::<i32>::empty() + consumed(s, rest) =~= consumed(s, rest));
                },
                _ => {},
            }
        },
        RegModel::Alter(a, b) => {
            lemma_parse_fuel_sound(*a, s, g, stack, f);
            match parse_fuel(*a, s, g, stack, f).unwrap() {
                Err(ParseErrModel::Invalid(_)) => {
                    lemma_parse_fuel_sound(*b, s, g, stack, f);
                },
                _ => {},
            }
        },
        RegModel::Star(a) => {
            lemma_subseq_empty(seq![]);
            assert(flat_all(seq![], 0) == Seq::<i32>::empty());
            lemma_star_sound(*a, s, seq![], g, stack, f, seq![]);
            assert(Seq::<i32>::empty() + s =~= s);
            match parse_star_fuel(*a, s, seq![], g, stack, f).unwrap() {
                Ok((vs, rest)) => {
                    assert(Seq::<i32>::empty() + consumed(s, rest) =~= consumed(s, rest));
                },
                _ => {},
            }
        },
    }
}

/// The loop over a literal list leaves a rest of the path it started from.
proof fn lemma_lits_suffix(
    lits: Seq<i32>,
    i: nat,
    s: Seq<i32>,
    rest: Seq<i32>,
    acc: Seq<ValModel>,
    g: ParseCtx,
    stack: Map<i32, usize>,
    fuel: nat,
)
    requires
        parse_lits_fuel(lits, i, s, rest, acc, g, stack, fuel) is Some,
        suffix_of(rest, s),
    ensures
        parse_lits_fuel(lits, i, s, rest, acc, g, stack, fuel).unwrap() matches Ok((_, r2)) ==> suffix_of(r2, s),
    decreases fuel,
{
    let f = (fuel - 1) as nat;
    if i < lits.len() && rest.len() > 0 {
        if lits[i as int] == rest[0] {
            lemma_suffix_drop_first(rest);
            assert(rest.subrange(1, rest.len() as int) == rest.drop_first());
            lemma_suffix_chain(s, rest, rest.drop_first());
            lemma_lits_suffix(lits, i + 1, s, rest.drop_first(), acc.push(ValModel::Literal(lits[i as int])), g, stack, f);
        } else if g.firsts.contains_key(rest[0]) {
            let fx = RegModel::Var(g.firsts[rest[0]]);
            lemma_parse_fuel_sound(fx, s, g, stack, f);
            match parse_fuel(fx, s, g, stack, f).unwrap() {
                Ok((v, r2)) => {
                    lemma_lits_suffix(lits, i + 1, s, r2, acc.push(v), g, stack, f);
                },
                _ => {},
            }
        }
    }
}

/// Where no block starts a function, the loop over a literal list matches
/// block by block: where the values so far keep a subsequence of `x`, the
/// values at its end keep a subsequence of `x` and of what the loop reads.
proof fn lemma_lits_in_order(
    lits: Seq<i32>,
    i: nat,
    s: Seq<i32>,
    rest: Seq<i32>,
    acc: Seq<ValModel>,
    g: ParseCtx,
    stack: Map<i32, usize>,
    fuel: nat,
    x: Seq<i32>,
)
    requires
        parse_lits_fuel(lits, i, s, rest, acc, g, stack, fuel) is Some,
        no_calls(g),
        subsequence(flat_all(acc, acc.len()), x),
    ensures
        match parse_lits_fuel(lits, i, s, rest, acc, g, stack, fuel).unwrap() {
            Ok((v, r2)) => suffix_of(r2, rest) && subsequence(flat(v), x + consumed(rest, r2)),
            Err(ParseErrModel::Abort(v)) => subsequence(flat(v), x + rest),
            Err(ParseErrModel::Invalid(_)) => true,
        },
    decreases fuel,
{
    let f = (fuel - 1) as nat;
    if i >= lits.len() {
        lemma_suffix_refl(rest);
        assert(x + consumed(rest, rest) =~= x);
    } else if rest.len() == 0 {
        assert(x + rest =~= x);
    } else if lits[i as int] == rest[0] {
        let c = lits[i as int];
        let r1 = rest.subrange(1, rest.len() as int);
        let acc2 = acc.push(ValModel::Literal(c));
        lemma_suffix_drop_first(rest);
        assert(r1 == rest.drop_first());
        lemma_flat_all_pushed(acc, ValModel::Literal(c));
        lemma_subseq_refl(seq![c]);
        assert(consumed(rest, r1) =~= seq![c]);
        lemma_subseq_concat(flat_all(acc, acc.len()), x, seq![c], consumed(rest, r1));
        lemma_lits_in_order(lits, i + 1, s, r1, acc2, g, stack, f, x + consumed(rest, r1));
        match parse_lits_fuel(lits, i + 1, s, r1, acc2, g, stack, f).unwrap() {
            Ok((v3, r3)) => {
                lemma_suffix_chain(rest, r1, r3);
                assert(x + consumed(rest, r1) + consumed(r1, r3) =~= x + consumed(rest, r3));
            },
            Err(ParseErrModel::Abort(v3)) => {
                assert(x + consumed(rest, r1) + r1 =~= x + rest);
            },
            _ => {},
        }
    } else {
        assert(!g.firsts.contains_key(rest[0]));
    }
}

/// The loop over the parts of a sequence node from part `i` is sound: where
/// the values so far keep a subsequence of `x`, the values at its end keep a
/// subsequence of `x` and of what the loop reads.
proof fn lemma_seq_sound(
    rs: Seq<RegModel>,
    i: nat,
    rest: Seq<i32>,
    acc: Seq<ValModel>,
    g: ParseCtx,
    stack: Map<i32, usize>,
    fuel: nat,
    x: Seq<i32>,
)
    requires
        parse_seq_fuel(rs, i, rest, acc, g, stack, fuel) is Some,
        (plain_all(rs, rs.len()) && env_plain(g.env)) || no_calls(g) ==> subsequence(flat_all(acc, acc.len()), x),
    ensures
        match parse_seq_fuel(rs, i, rest, acc, g, stack, fuel).unwrap() {
            Ok((v, r2)) => suffix_of(r2, rest) && ((plain_all(rs, rs.len()) && env_plain(g.env)) || no_calls(g) ==> subsequence(flat(v), x + consumed(rest, r2))),
            Err(ParseErrModel::Abort(v)) => (plain_all(rs, rs.len()) && env_plain(g.env)) || no_calls(g) ==> subsequence(flat(v), x + rest),
            Err(ParseErrModel::Invalid(_)) => true,
        },
    decreases fuel,
{
    let f = (fuel - 1) as nat;
    let p = (plain_all(rs, rs.len()) && env_plain(g.env)) || no_calls(g);
    if i >= rs.len() {
        lemma_suffix_refl(rest);
        assert(x + consumed(rest, rest) =~= x);
    } else {
        if plain_all(rs, rs.len()) && env_plain(g.env) {
            lemma_plain_all_at(rs, rs.len(), i as int);
        }
        lemma_parse_fuel_sound(rs[i as int], rest, g, stack, f);
        match parse_fuel(rs[i as int], rest, g, stack, f).unwrap() {
            Ok((v, r2)) => {
                lemma_flat_all_pushed(acc, v);
                if p {
                    lemma_subseq_concat(flat_all(acc, acc.len()), x, flat(v), consumed(rest, r2));
                }
                lemma_seq_sound(rs, i + 1, r2, acc.push(v), g, stack, f, x + consumed(rest, r2));
                match parse_seq_fuel(rs, i + 1, r2, acc.push(v), g, stack, f).unwrap() {
                    Ok((v3, r3)) => {
                        lemma_suffix_chain(rest, r2, r3);
                        assert(x + consumed(rest, r2) + consumed(r2, r3) =~= x + consumed(rest, r3));
                    },
                    Err(ParseErrModel::Abort(v3)) => {
                        assert(x + consumed(rest, r2) + r2 =~= x + rest);
                    },
                    _ => {},
                }
            },
            Err(ParseErrModel::Abort(v)) => {
                lemma_flat_all_pushed(acc, v);
                if p {
                    lemma_subseq_concat(flat_all(acc, acc.len()), x, flat(v), rest);
                }
            },
            _ => {},
        }
    }
}

/// The repetition loop is sound: where the values kept so far are a
/// subsequence of `x`, those kept at its end are a subsequence of `x` and of
/// what the loop reads.
proof fn lemma_star_sound(
    r: RegModel,
    s: Seq<i32>,
    acc: Seq<ValModel>,
    g: ParseCtx,
    stack: Map<i32, usize>,
    fuel: nat,
    x: Seq<i32>,
)
    requires
        parse_star_fuel(r, s, acc, g, stack, fuel) is Some,
        in_order(r, g) ==> subsequence(flat_all(acc, acc.len()), x),
    ensures
        match parse_star_fuel(r, s, acc, g, stack, fuel).unwrap() {
            Ok((vs, rest)) => suffix_of(rest, s) && (in_order(r, g) ==> subsequence(flat_all(vs, vs.len()), x + consumed(s, rest))),
            Err(ParseErrModel::Abort(v)) => in_order(r, g) ==> subsequence(flat(v), x + s),
            Err(ParseErrModel::Invalid(_)) => true,
        },
    decreases fuel,
{
    let f = (fuel - 1) as nat;
    let p = in_order(r, g);
    lemma_parse_fuel_sound(r, s, g, stack, f);
    match parse_fuel(r, s, g, stack, f).unwrap() {
        Ok((v, s2)) => {
            let acc2 = keep(acc, v, g.k);
            let x2 = x + consumed(s, s2);
            if p {
                if acc.len() == g.k {
                    lemma_subseq_extend(flat_all(acc, acc.len()), x, consumed(s, s2));
                } else {
                    lemma_flat_all_pushed(acc, v);
                    lemma_subseq_concat(flat_all(acc, acc.len()), x, flat(v), consumed(s, s2));
                }
            }
            lemma_star_sound(r, s2, acc2, g, stack, f, x2);
            match parse_star_fuel(r, s2, acc2, g, stack, f).unwrap() {
                Ok((vs, rest)) => {
                    lemma_suffix_chain(s, s2, rest);
                    assert(x2 + consumed(s2, rest) =~= x + consumed(s, rest));
                },
                Err(ParseErrModel::Abort(v3)) => {
                    assert(x2 + s2 =~= x + s);
                },
                _ => {},
            }
        },
        Err(ParseErrModel::Abort(v)) => {
            if p {
                if acc.len() == g.k {
                    lemma_subseq_extend(flat_all(acc, acc.len()), x, s);
                } else {
                    lemma_flat_all_pushed(acc, v);
                    lemma_subseq_concat(flat_all(acc, acc.len()), x, flat(v), s);
                }
            }
        },
        Err(ParseErrModel::Invalid(_)) => {
            lemma_suffix_refl(s);
            assert(x + consumed(s, s) =~= x);
        },
    }
}

/// A parse takes a front part off the path and leaves the rest; where no
/// expression it meets holds a literal list, or no block starts a function,
/// what it keeps, of a match or of a match cut short by the end of the path,
/// is a subsequence of the blocks it read.
pub proof fn law_parse_sound(r: RegModel, s: Seq<i32>, g: ParseCtx)
    requires
        parse_terminates(r, s, g),
    ensures
        outcome_sound(s, parse_result(r, s, g), in_order(r, g)),
{
    let fuel = choose|fuel: nat| #[trigger] parse_fuel(r, s, g, Map::empty(), fuel) is Some;
    lemma_parse_fuel_sound(r, s, g, Map::empty(), fuel);
}

/// Where no function's expression holds a literal list, or no block starts a
/// function, the reduction by parsing keeps a subsequence of the path.
pub proof fn law_parse_reduction_subsequence(x: i32, path: Seq<i32>, g: ParseCtx)
    requires
        parse_reduction(x, path, g) matches Some(Ok(_)),
        env_plain(g.env) || no_calls(g),
    ensures
        parse_reduction(x, path, g) matches Some(Ok(r)) && subsequence(r, path),
    decreases path.len(),
{
    if path.len() == 0 {
        lemma_subseq_empty(path);
    } else {
        law_parse_sound(RegModel::Var(x), path, g);
        match parse_result(RegModel::Var(x), path, g) {
            Ok((v, rest)) => {
                law_parse_reduction_subsequence(x, rest, g);
                let r = parse_reduction(x, rest, g).unwrap()->Ok_0;
                lemma_subseq_concat(flat(v), consumed(path, rest), r, rest);
            },
            _ => {},
        }
    }
}

/// The simple reduction keeps a subsequence of the path.
pub proof fn law_simple_reduction_subsequence(sh: Shape, path: Seq<i32>)
    requires
        simple_reduction(sh, path) is Some,
    ensures
        subsequence(simple_reduction(sh, path).unwrap(), path),
{
    lemma_simple_reduction_subseq(sh, path);
}

/// What a reducer gives back for a path it reduces is a subsequence of the
/// path, in either mode (for the reduction by parsing, where no function's
/// expression holds a literal list).
pub proof fn law_reduction_subsequence(reducer: &PathReducer, path: Seq<i32>)
    requires
        reducer.reduction(path) matches Some(Ok(_)),
        reducer.bound() != SIMPLE_REDUCTION_K ==> env_plain(reducer.functions()),
    ensures
        reducer.reduction(path) matches Some(Ok(r)) && subsequence(r, path),
{
    if reducer.bound() == SIMPLE_REDUCTION_K {
        lemma_simple_reduction_subseq(reducer.shape(), path);
    } else if path.len() == 0 {
        lemma_subseq_empty(path);
    } else {
        law_parse_reduction_subsequence(reducer.first_blocks()[path[0]], path, reducer.ctx());
    }
}

/// `v` with every repetition cut to its first `k` rounds.
pub open spec fn cut(v: ValModel, k: nat) -> ValModel
    decreases v, 0nat,
{
    match v {
        ValModel::Concat(a, b) => ValModel::Concat(Box::new(cut(*a, k)), Box::new(cut(*b, k))),
        ValModel::Sequence(vs) => ValModel::Sequence(cut_all(vs, vs.len(), k)),
        ValModel::Star(vs) => ValModel::Star(cut_all(vs, if vs.len() < k { vs.len() } else { k }, k)),
        _ => v,
    }
}

/// The first `n` values of `vs`, each with its repetitions cut to `k` rounds.
pub open spec fn cut_all(vs: Seq<ValModel>, n: nat, k: nat) -> Seq<ValModel>
    decreases vs, n,
{
    if n == 0 || n > vs.len() {
        seq![]
    } else {
        cut_all(vs, (n - 1) as nat, k).push(cut(vs[n - 1], k))
    }
}

proof fn lemma_cut_all_len(vs: Seq<ValModel>, n: nat, k: nat)
    requires
        n <= vs.len(),
    ensures
        cut_all(vs, n, k).len() == n,
    decreases n,
{
    if n > 0 {
        lemma_cut_all_len(vs, (n - 1) as nat, k);
    }
}

/// `v` is made of single blocks, concatenations and repetitions only.
pub open spec fn reducible(v: ValModel) -> bool
    decreases v, 0nat,
{
    match v {
        ValModel::Literal(_) => true,
        ValModel::Concat(a, b) => reducible(*a) && reducible(*b),
        ValModel::Star(vs) => reducible_all(vs, vs.len()),
        _ => false,
    }
}

/// The first `n` values of `vs` are made of single blocks, concatenations
/// and repetitions only.
pub open spec fn reducible_all(vs: Seq<ValModel>, n: nat) -> bool
    decreases vs, n,
{
    if n == 0 || n > vs.len() {
        true
    } else {
        reducible_all(vs, (n - 1) as nat) && reducible(vs[n - 1])
    }
}

proof fn lemma_reducible_all_prefix(vs: Seq<ValModel>, m: nat, n: nat)
    requires
        reducible_all(vs, n),
        m <= n <= vs.len(),
    ensures
        reducible_all(vs, m),
    decreases n,
{
    if m < n {
        lemma_reducible_all_prefix(vs, m, (n - 1) as nat);
    }
}

/// `Val::reduce` handles every value made of single blocks,
/// concatenations and repetitions.
proof fn lemma_reducible_defined(v: ValModel, k: nat)
    requires
        reducible(v),
    ensures
        reduce_model(v, k) is Some,
    decreases v, 0nat,
{
    match v {
        ValModel::Concat(a, b) => {
            lemma_reducible_defined(*a, k);
            lemma_reducible_defined(*b, k);
        },
        ValModel::Star(vs) => {
            let n: nat = if vs.len() < k { vs.len() } else { k };
            lemma_reducible_all_prefix(vs, n, vs.len());
            lemma_reducible_rounds(vs, n, k);
        },
        _ => {},
    }
}

proof fn lemma_reducible_rounds(vs: Seq<ValModel>, n: nat, k: nat)
    requires
        reducible_all(vs, n),
        n <= vs.len(),
    ensures
        reduce_rounds(vs, n, k) is Some,
    decreases vs, n,
{
    if n > 0 {
        lemma_reducible_rounds(vs, (n - 1) as nat, k);
        lemma_reducible_defined(vs[n - 1], k);
    }
}

/// Of a value made of single blocks, concatenations and repetitions,
/// `Val::reduce` keeps the blocks of the value with every repetition cut to
/// its first `k` rounds, a subsequence of its blocks.
pub proof fn law_val_reduce_of_reducible(v: ValModel, k: nat)
    requires
        reducible(v),
    ensures
        reduce_model(v, k) is Some,
        reduce_model(v, k).unwrap() == flat(cut(v, k)),
        subsequence(reduce_model(v, k).unwrap(), flat(v)),
{
    lemma_reducible_defined(v, k);
    law_val_reduce_cuts_rounds(v, k);
    law_val_reduce_subsequence(v, k);
}

/// What `Val::reduce` keeps of a value, where it handles the value, is the
/// blocks of the value with every repetition cut to its first `k` rounds.
pub proof fn law_val_reduce_cuts_rounds(v: ValModel, k: nat)
    requires
        reduce_model(v, k) is Some,
    ensures
        reduce_model(v, k).unwrap() == flat(cut(v, k)),
    decreases v, 0nat,
{
    match v {
        ValModel::Concat(a, b) => {
            law_val_reduce_cuts_rounds(*a, k);
            law_val_reduce_cuts_rounds(*b, k);
        },
        ValModel::Star(vs) => {
            let n: nat = if vs.len() < k { vs.len() } else { k };
            lemma_cut_rounds(vs, n, k);
            lemma_cut_all_len(vs, n, k);
        },
        _ => {},
    }
}

/// The rounds kept of a repetition give the blocks of the rounds cut to `k`.
proof fn lemma_cut_rounds(vs: Seq<ValModel>, n: nat, k: nat)
    requires
        reduce_rounds(vs, n, k) is Some,
        n <= vs.len(),
    ensures
        reduce_rounds(vs, n, k).unwrap() == flat_all(cut_all(vs, n, k), n),
    decreases vs, n,
{
    if n > 0 {
        lemma_cut_rounds(vs, (n - 1) as nat, k);
        law_val_reduce_cuts_rounds(vs[n - 1], k);
        lemma_cut_all_len(vs, (n - 1) as nat, k);
        lemma_flat_all_pushed(cut_all(vs, (n - 1) as nat, k), cut(vs[n - 1], k));
    }
}

/// A reducer in the simple mode reduces a path exactly where the simple
/// reduction does, to what it gives, and never finds a path invalid.
pub proof fn law_simple_mode(reducer: &PathReducer, path: Seq<i32>)
    requires
        reducer.bound() == SIMPLE_REDUCTION_K,
    ensures
        reducer.reduction(path) is Some <==> simple_reduction(reducer.shape(), path) is Some,
        reducer.reduction(path) matches Some(r) ==> r == Ok::<Seq<i32>, Seq<char>>(simple_reduction(reducer.shape(), path).unwrap()),
{
}

/// An unbounded parse with enough steps keeps every block it reads.
proof fn lemma_parse_inf_fuel_whole(r: RegModel, s: Seq<i32>, env: Map<i32, RegModel>, fuel: nat)
    requires
        parse_inf_fuel(r, s, env, fuel) is Some,
    ensures
        parse_inf_fuel(r, s, env, fuel).unwrap() matches Some((v, rest)) ==> flat(v) + rest == s,
    decreases fuel,
{
    let f = (fuel - 1) as nat;
    match r {
        RegModel::Var(x) => {
            lemma_parse_inf_fuel_whole(env[x], s, env, f);
        },
        RegModel::Literal(c) => {
            if s.len() > 0 && s[0] == c {
                assert(seq![c] + s.subrange(1, s.len() as int) =~= s);
            }
        },
        RegModel::Concat(a, b) => {
            lemma_parse_inf_fuel_whole(*a, s, env, f);
            match parse_inf_fuel(*a, s, env, f).unwrap() {
                Some((v1, s1)) => {
                    lemma_parse_inf_fuel_whole(*b, s1, env, f);
                    match parse_inf_fuel(*b, s1, env, f).unwrap() {
                        Some((v2, s2)) => {
                            assert(flat(v1) + flat(v2) + s2 =~= flat(v1) + (flat(v2) + s2));
                        },
                        None => {},
                    }
                },
                None => {},
            }
        },
        RegModel::Alter(a, b) => {
            lemma_parse_inf_fuel_whole(*a, s, env, f);
            if parse_inf_fuel(*a, s, env, f).unwrap() is None {
                lemma_parse_inf_fuel_whole(*b, s, env, f);
            }
        },
        RegModel::Star(a) => {
            let e: Seq<ValModel> = seq![];
            assert(flat_all(e, 0) == Seq::<i32>::empty());
            lemma_star_inf_fuel_whole(*a, s, e, env, f);
            assert(Seq::<i32>::empty() + s =~= s);
        },
        _ => {},
    }
}

/// The unbounded repetition loop keeps every block it reads, after those of
/// the rounds so far.
proof fn lemma_star_inf_fuel_whole(r: RegModel, s: Seq<i32>, acc: Seq<ValModel>, env: Map<i32, RegModel>, fuel: nat)
    requires
        parse_star_inf_fuel(r, s, acc, env, fuel) is Some,
    ensures
        parse_star_inf_fuel(r, s, acc, env, fuel) matches Some((vs, rest))
            && flat_all(vs, vs.len()) + rest == flat_all(acc, acc.len()) + s,
    decreases fuel,
{
    let f = (fuel - 1) as nat;
    lemma_parse_inf_fuel_whole(r, s, env, f);
    match parse_inf_fuel(r, s, env, f).unwrap() {
        Some((v, s2)) => {
            lemma_star_inf_fuel_whole(r, s2, acc.push(v), env, f);
            lemma_flat_all_pushed(acc, v);
            assert(flat_all(acc, acc.len()) + flat(v) + s2 =~= flat_all(acc, acc.len()) + (flat(v) + s2));
        },
        None => {},
    }
}

/// What an unbounded parse keeps, followed by what it leaves, is the path it
/// was given: it drops no block.
pub proof fn law_parse_inf_keeps_all(r: RegModel, s: Seq<i32>, env: Map<i32, RegModel>)
    requires
        parse_inf_terminates(r, s, env),
    ensures
        parse_inf_result(r, s, env) matches Some((v, rest)) ==> flat(v) + rest == s,
{
    let fuel = choose|fuel: nat| #[trigger] parse_inf_fuel(r, s, env, fuel) is Some;
    lemma_parse_inf_fuel_whole(r, s, env, fuel);
}

/// `r` holds no variable: its parse calls no function by name.
pub open spec fn var_free(r: RegModel) -> bool
    decreases r, 0nat,
{
    match r {
        RegModel::Var(_) => false,
        RegModel::Concat(a, b) => var_free(*a) && var_free(*b),
        RegModel::Alter(a, b) => var_free(*a) && var_free(*b),
        RegModel::Star(a) => var_free(*a),
        RegModel::Sequence(rs) => var_free_all(rs, rs.len()),
        _ => true,
    }
}

/// The first `n` expressions of `rs` hold no variable.
pub open spec fn var_free_all(rs: Seq<RegModel>, n: nat) -> bool
    decreases rs, n,
{
    if n == 0 || n > rs.len() {
        true
    } else {
        var_free_all(rs, (n - 1) as nat) && var_free(rs[n - 1])
    }
}

proof fn lemma_var_free_all_at(rs: Seq<RegModel>, n: nat, i: int)
    requires
        var_free_all(rs, n),
        n <= rs.len(),
        0 <= i < n,
    ensures
        var_free(rs[i]),
    decreases n,
{
    if i < n - 1 {
        lemma_var_free_all_at(rs, (n - 1) as nat, i);
    }
}

/// A repetition whose body matches without reading a block never ends: the
/// loop meets the same round again and again.
proof fn lemma_star_stuck(r: RegModel, s: Seq<i32>, acc: Seq<ValModel>, g: ParseCtx, stack: Map<i32, usize>, v: ValModel, f0: nat, fuel: nat)
    requires
        parse_fuel(r, s, g, stack, f0) == Some(Ok::<(ValModel, Seq<i32>), ParseErrModel>((v, s))),
    ensures
        parse_star_fuel(r, s, acc, g, stack, fuel) is None,
    decreases fuel,
{
    if fuel > 0 {
        let f = (fuel - 1) as nat;
        if parse_fuel(r, s, g, stack, f) is Some {
            lemma_parse_fuel_unique(r, s, g, stack, f, f0);
            lemma_star_stuck(r, s, keep(acc, v, g.k), g, stack, v, f0, f);
        }
    }
}

/// The outcome `o` of a parse of `s` keeps every block it reads: a match
/// keeps the front it takes off, and a match cut short keeps all of `s`.
pub open spec fn keeps_all(s: Seq<i32>, o: ParseOutcome) -> bool {
    match o {
        Ok((v, rest)) => flat(v) + rest == s,
        Err(ParseErrModel::Abort(v)) => flat(v) == s,
        Err(ParseErrModel::Invalid(_)) => true,
    }
}

/// Where no expression it meets holds a variable, no block starts a
/// function and the bound is at least the length of the path, a parse with
/// enough steps keeps every block it reads.
proof fn lemma_fuel_keeps_all(r: RegModel, s: Seq<i32>, g: ParseCtx, stack: Map<i32, usize>, fuel: nat)
    requires
        parse_fuel(r, s, g, stack, fuel) is Some,
        var_free(r),
        no_calls(g),
        s.len() <= g.k,
    ensures
        keeps_all(s, parse_fuel(r, s, g, stack, fuel).unwrap()),
    decreases fuel,
{
    let f = (fuel - 1) as nat;
    match r {
        RegModel::Epsilon => {
            let e: Seq<ValModel> = seq![];
            assert(flat_all(e, 0) == Seq::<i32>::empty());
            assert(flat(ValModel::Star(e)) == flat_all(e, e.len()));
            assert(Seq::<i32>::empty() + s =~= s);
            assert(parse_fuel(r, s, g, stack, fuel).unwrap() == Ok::<(ValModel, Seq<i32>), ParseErrModel>((ValModel::Star(e), s)));
        },
        RegModel::Literal(c) => {
            if s.len() > 0 && s[0] == c {
                assert(seq![c] + s.subrange(1, s.len() as int) =~= s);
            } else if s.len() == 0 {
                assert(flat(ValModel::Epsilon) =~= s);
            }
        },
        RegModel::Literals(lits) => {
            let e: Seq<ValModel> = seq![];
            assert(flat_all(e, 0) == Seq::<i32>::empty());
            assert(Seq::<i32>::empty() + s =~= s);
            lemma_lits_keep_all(lits, 0, s, s, e, g, stack, f);
        },
        RegModel::Concat(a, b) => {
            lemma_fuel_keeps_all(*a, s, g, stack, f);
            match parse_fuel(*a, s, g, stack, f).unwrap() {
                Ok((v1, s1)) => {
                    lemma_fuel_keeps_all(*b, s1, g, stack, f);
                    match parse_fuel(*b, s1, g, stack, f).unwrap() {
                        Ok((v2, s2)) => {
                            assert(flat(v1) + flat(v2) + s2 =~= flat(v1) + (flat(v2) + s2));
                        },
                        _ => {},
                    }
                },
                _ => {},
            }
        },
        RegModel::Sequence(rs) => {
            let e: Seq<ValModel> = seq![];
            assert(flat_all(e, 0) == Seq::<i32>::empty());
            assert(Seq::<i32>::empty() + s =~= s);
            lemma_seq_keep_all(rs, 0, s, e, g, stack, f, s);
        },
        RegModel::Alter(a, b) => {
            lemma_fuel_keeps_all(*a, s, g, stack, f);
            if parse_fuel(*a, s, g, stack, f).unwrap() matches Err(ParseErrModel::Invalid(_)) {
                lemma_fuel_keeps_all(*b, s, g, stack, f);
            }
        },
        RegModel::Star(a) => {
            let e: Seq<ValModel> = seq![];
            assert(flat_all(e, 0) == Seq::<i32>::empty());
            assert(Seq::<i32>::empty() + s =~= s);
            lemma_star_keep_all(*a, s, e, g, stack, f, s);
            match parse_star_fuel(*a, s, e, g, stack, f).unwrap() {
                Ok((vs, rest)) => {
                    assert(flat(ValModel::Star(vs)) == flat_all(vs, vs.len()));
                },
                _ => {},
            }
        },
        RegModel::Var(_) => {},
    }
}

/// The loop over a literal list, where no block starts a function, keeps
/// every block it reads.
proof fn lemma_lits_keep_all(
    lits: Seq<i32>,
    i: nat,
    s: Seq<i32>,
    rest: Seq<i32>,
    acc: Seq<ValModel>,
    g: ParseCtx,
    stack: Map<i32, usize>,
    fuel: nat,
)
    requires
        parse_lits_fuel(lits, i, s, rest, acc, g, stack, fuel) is Some,
        no_calls(g),
        flat_all(acc, acc.len()) + rest == s,
    ensures
        keeps_all(s, parse_lits_fuel(lits, i, s, rest, acc, g, stack, fuel).unwrap()),
    decreases fuel,
{
    let f = (fuel - 1) as nat;
    if i >= lits.len() {
        assert(flat(ValModel::Sequence(acc)) == flat_all(acc, acc.len()));
    } else if rest.len() == 0 {
        assert(flat(ValModel::Sequence(acc)) == flat_all(acc, acc.len()));
        assert(flat_all(acc, acc.len()) + rest =~= flat_all(acc, acc.len()));
    } else if lits[i as int] == rest[0] {
        let c = lits[i as int];
        let r1 = rest.subrange(1, rest.len() as int);
        lemma_flat_all_pushed(acc, ValModel::Literal(c));
        assert(flat_all(acc, acc.len()) + seq![c] + r1 =~= flat_all(acc, acc.len()) + rest);
        lemma_lits_keep_all(lits, i + 1, s, r1, acc.push(ValModel::Literal(c)), g, stack, f);
    } else {
        assert(!g.firsts.contains_key(rest[0]));
    }
}

/// The loop over the parts of a sequence node keeps every block it reads,
/// after those of the values so far.
proof fn lemma_seq_keep_all(
    rs: Seq<RegModel>,
    i: nat,
    rest: Seq<i32>,
    acc: Seq<ValModel>,
    g: ParseCtx,
    stack: Map<i32, usize>,
    fuel: nat,
    s: Seq<i32>,
)
    requires
        parse_seq_fuel(rs, i, rest, acc, g, stack, fuel) is Some,
        var_free_all(rs, rs.len()),
        no_calls(g),
        s.len() <= g.k,
        flat_all(acc, acc.len()) + rest == s,
    ensures
        keeps_all(s, parse_seq_fuel(rs, i, rest, acc, g, stack, fuel).unwrap()),
    decreases fuel,
{
    let f = (fuel - 1) as nat;
    if i >= rs.len() {
        assert(flat(ValModel::Sequence(acc)) == flat_all(acc, acc.len()));
    } else {
        lemma_var_free_all_at(rs, rs.len(), i as int);
        assert(rest.len() <= s.len());
        lemma_fuel_keeps_all(rs[i as int], rest, g, stack, f);
        match parse_fuel(rs[i as int], rest, g, stack, f).unwrap() {
            Ok((v, r2)) => {
                lemma_flat_all_pushed(acc, v);
                assert(flat_all(acc, acc.len()) + flat(v) + r2 =~= flat_all(acc, acc.len()) + (flat(v) + r2));
                lemma_seq_keep_all(rs, i + 1, r2, acc.push(v), g, stack, f, s);
            },
            Err(ParseErrModel::Abort(v)) => {
                lemma_flat_all_pushed(acc, v);
                assert(flat(ValModel::Sequence(acc.push(v))) == flat_all(acc.push(v), acc.len() + 1));
            },
            _ => {},
        }
    }
}

/// The repetition loop keeps every round, and so every block it reads,
/// where the rounds so far and the blocks left are no more than the bound.
proof fn lemma_star_keep_all(
    r: RegModel,
    cur: Seq<i32>,
    acc: Seq<ValModel>,
    g: ParseCtx,
    stack: Map<i32, usize>,
    fuel: nat,
    s: Seq<i32>,
)
    requires
        parse_star_fuel(r, cur, acc, g, stack, fuel) is Some,
        var_free(r),
        no_calls(g),
        acc.len() + cur.len() <= g.k,
        flat_all(acc, acc.len()) + cur == s,
    ensures
        match parse_star_fuel(r, cur, acc, g, stack, fuel).unwrap() {
            Ok((vs, rest)) => flat_all(vs, vs.len()) + rest == s,
            Err(ParseErrModel::Abort(v)) => flat(v) == s,
            Err(ParseErrModel::Invalid(_)) => true,
        },
    decreases fuel,
{
    let f = (fuel - 1) as nat;
    assert(cur.len() <= g.k);
    lemma_fuel_keeps_all(r, cur, g, stack, f);
    match parse_fuel(r, cur, g, stack, f).unwrap() {
        Ok((v, s2)) => {
            if s2.len() == cur.len() {
                assert(flat(v).len() == 0);
                assert(s2 =~= cur);
                lemma_star_stuck(r, cur, keep(acc, v, g.k), g, stack, v, f, f);
                assert(false);
            }
            assert(acc.len() < g.k);
            lemma_flat_all_pushed(acc, v);
            assert(flat_all(acc, acc.len()) + flat(v) + s2 =~= flat_all(acc, acc.len()) + (flat(v) + s2));
            lemma_star_keep_all(r, s2, acc.push(v), g, stack, f, s);
        },
        Err(ParseErrModel::Abort(v)) => {
            if acc.len() == g.k {
                assert(cur.len() == 0);
                assert(flat(v) =~= Seq::<i32>::empty());
                assert(flat_all(acc, acc.len()) + cur =~= flat_all(acc, acc.len()));
                assert(flat(ValModel::Star(acc)) == flat_all(acc, acc.len()));
            } else {
                lemma_flat_all_pushed(acc, v);
                assert(flat(ValModel::Star(acc.push(v))) == flat_all(acc.push(v), acc.len() + 1));
            }
        },
        _ => {},
    }
}

/// With no variable in the expression, no block that starts a function and
/// a bound at least the length of the path, nothing the parse reads is
/// dropped: what it keeps, followed by what it leaves, is the path, and a
/// parse cut short by the end of the path keeps the whole path.
pub proof fn law_parse_keeps_all_within_bound(r: RegModel, s: Seq<i32>, g: ParseCtx)
    requires
        parse_terminates(r, s, g),
        var_free(r),
        no_calls(g),
        s.len() <= g.k,
    ensures
        parse_result(r, s, g) matches Ok((v, rest)) ==> flat(v) + rest == s,
        parse_result(r, s, g) matches Err(ParseErrModel::Abort(v)) ==> flat(v) == s,
{
    let fuel = choose|fuel: nat| #[trigger] parse_fuel(r, s, g, Map::empty(), fuel) is Some;
    lemma_fuel_keeps_all(r, s, g, Map::empty(), fuel);
}

/// A call of a function already entered as deeply as the bound is parsed
/// from the same place, but keeps nothing: a match is empty and leaves what
/// the function's match leaves, a match cut short is empty, and a mismatch
/// is passed on.
pub proof fn law_call_at_bound(x: i32, s: Seq<i32>, g: ParseCtx, stack: Map<i32, usize>)
    requires
        g.env.contains_key(x),
        crate::re::level(stack, x) == g.k,
        exists|fuel: nat| #[trigger] parse_fuel(RegModel::Var(x), s, g, stack, fuel) is Some,
    ensures
        match (parse_from(RegModel::Var(x), s, g, stack), parse_from(g.env[x], s, g, stack)) {
            (Ok((v, rest)), Ok((_, inner_rest))) => v == ValModel::Epsilon && rest == inner_rest,
            (Err(ParseErrModel::Abort(v)), Err(ParseErrModel::Abort(_))) => v == ValModel::Epsilon,
            (Err(ParseErrModel::Invalid(m)), Err(ParseErrModel::Invalid(m2))) => m == m2,
            _ => false,
        },
{
    let f0 = choose|fuel: nat| #[trigger] parse_fuel(RegModel::Var(x), s, g, stack, fuel) is Some;
    let f1 = choose|fuel: nat| #[trigger] parse_fuel(g.env[x], s, g, stack, fuel) is Some;
    assert(parse_fuel(g.env[x], s, g, stack, (f0 - 1) as nat) is Some);
    lemma_parse_fuel_unique(g.env[x], s, g, stack, (f0 - 1) as nat, f1);
}

/// The unbounded parse of an alternative takes the first side where that
/// side matches a front of the path, and the second side where the first
/// does not: it fails only where both sides fail.
pub proof fn law_parse_inf_alternative(a: RegModel, b: RegModel, s: Seq<i32>, env: Map<i32, RegModel>)
    requires
        parse_inf_terminates(RegModel::Alter(Box::new(a), Box::new(b)), s, env),
    ensures
        parse_inf_terminates(a, s, env),
        parse_inf_result(a, s, env) is Some ==>
            parse_inf_result(RegModel::Alter(Box::new(a), Box::new(b)), s, env) == parse_inf_result(a, s, env),
        parse_inf_result(a, s, env) is None ==> parse_inf_terminates(b, s, env)
            && parse_inf_result(RegModel::Alter(Box::new(a), Box::new(b)), s, env) == parse_inf_result(b, s, env),
        parse_inf_result(RegModel::Alter(Box::new(a), Box::new(b)), s, env) is None <==>
            (parse_inf_result(a, s, env) is None && parse_inf_result(b, s, env) is None),
{
    let r = RegModel::Alter(Box::new(a), Box::new(b));
    let fuel = choose|fuel: nat| #[trigger] parse_inf_fuel(r, s, env, fuel) is Some;
    let f = (fuel - 1) as nat;
    law_parse_inf_result_unique(r, s, env, fuel);
    law_parse_inf_result_unique(a, s, env, f);
    if parse_inf_fuel(a, s, env, f).unwrap() is None {
        law_parse_inf_result_unique(b, s, env, f);
    }
}

/// The bounded parse of an alternative keeps the outcome of its first side
/// where that side matches or is cut short by the end of the path, and
/// tries the second side only where the first meets a block it does not
/// accept.
pub proof fn law_parse_alternative(a: RegModel, b: RegModel, s: Seq<i32>, g: ParseCtx)
    requires
        parse_terminates(RegModel::Alter(Box::new(a), Box::new(b)), s, g),
    ensures
        parse_terminates(a, s, g),
        !(parse_result(a, s, g) is Err && parse_result(a, s, g)->Err_0 is Invalid) ==>
            parse_result(RegModel::Alter(Box::new(a), Box::new(b)), s, g) == parse_result(a, s, g),
        parse_result(a, s, g) matches Err(ParseErrModel::Invalid(_)) ==> parse_terminates(b, s, g)
            && parse_result(RegModel::Alter(Box::new(a), Box::new(b)), s, g) == parse_result(b, s, g),
{
    let r = RegModel::Alter(Box::new(a), Box::new(b));
    let fuel = choose|fuel: nat| #[trigger] parse_fuel(r, s, g, Map::empty(), fuel) is Some;
    let f = (fuel - 1) as nat;
    law_parse_result_unique(r, s, g, fuel);
    law_parse_result_unique(a, s, g, f);
    if parse_fuel(a, s, g, Map::empty(), f).unwrap() matches Err(ParseErrModel::Invalid(_)) {
        law_parse_result_unique(b, s, g, f);
    }
}

/// A call that the simple reduction skips keeps none of its blocks.
pub proof fn law_skipped_call_keeps_nothing(sh: Shape, path: Seq<i32>, stack: Seq<i32>)
    requires
        one_call(sh, path, stack, true) is Some,
    ensures
        one_call(sh, path, stack, true).unwrap().0 == Seq::<i32>::empty(),
    decreases path.len(), 1nat,
{
    if path.len() > 0 {
        let first = path[0];
        if !sh.exits[first].contains(first) {
            lemma_skipped_loop_keeps_nothing(sh, first, path.drop_first(), stack.push(first), Map::empty());
        }
    }
}

/// The rest of a skipped call keeps none of its blocks.
proof fn lemma_skipped_loop_keeps_nothing(sh: Shape, first: i32, path: Seq<i32>, stack: Seq<i32>, ls: Map<i32, usize>)
    requires
        call_loop(sh, first, path, stack, true, seq![], ls) is Some,
    ensures
        call_loop(sh, first, path, stack, true, seq![], ls).unwrap().0 == Seq::<i32>::empty(),
    decreases path.len(), 2nat,
{
    if path.len() > 0 {
        let block = path[0];
        if sh.calls.contains(block) {
            law_skipped_call_keeps_nothing(sh, path, stack);
            let (b2, rest, st2) = one_call(sh, path, stack, true).unwrap();
            if rest.len() < path.len() {
                lemma_skipped_loop_keeps_nothing(sh, first, rest, st2, ls);
            }
        } else if !sh.exits[first].contains(block) {
            lemma_skipped_loop_keeps_nothing(sh, first, path.drop_first(), stack, ls);
        }
    }
}

/// In the simple reduction, a call of a function whose first block is
/// anywhere on the call stack is skipped: the current call goes on after it
/// as if it were not there, keeping nothing of it.
pub proof fn law_recursive_call_skipped(
    sh: Shape,
    first: i32,
    path: Seq<i32>,
    stack: Seq<i32>,
    skip: bool,
    buf: Seq<i32>,
    ls: Map<i32, usize>,
)
    requires
        path.len() > 0,
        sh.calls.contains(path[0]),
        stack.contains(path[0]),
    ensures
        call_loop(sh, first, path, stack, skip, buf, ls) == (match one_call(sh, path, stack, true) {
            None => None,
            Some((_, rest, st2)) => if rest.len() < path.len() {
                call_loop(sh, first, rest, st2, skip, buf, ls)
            } else {
                None
            },
        }),
        one_call(sh, path, stack, true) matches Some((b, _, _)) ==> b == Seq::<i32>::empty(),
{
    if one_call(sh, path, stack, true) is Some {
        law_skipped_call_keeps_nothing(sh, path, stack);
    }
}

/// The outcome `o` of a parse of a path, once `t` is added at the end of
/// the path: a match leaves `t` after what it left, and a mismatch stays.
pub open spec fn extended(o: ParseOutcome, t: Seq<i32>) -> ParseOutcome {
    match o {
        Ok((v, rest)) => Ok((v, rest + t)),
        _ => o,
    }
}

/// The outcome `o` is not a parse cut short by the end of the path.
pub open spec fn not_cut_short(o: ParseOutcome) -> bool {
    !(o matches Err(ParseErrModel::Abort(_)))
}

proof fn lemma_extend_drop_first(s: Seq<i32>, t: Seq<i32>)
    requires
        s.len() > 0,
    ensures
        (s + t)[0] == s[0],
        (s + t).subrange(1, (s + t).len() as int) == s.subrange(1, s.len() as int) + t,
{
    assert((s + t).subrange(1, (s + t).len() as int) =~= s.subrange(1, s.len() as int) + t);
}

/// A parse that is not cut short by the end of the path reads no block past
/// what it takes off, and none at the end: with more blocks at the end of
/// the path it gives the same outcome.
proof fn lemma_fuel_extends(r: RegModel, s: Seq<i32>, t: Seq<i32>, g: ParseCtx, stack: Map<i32, usize>, fuel: nat)
    requires
        parse_fuel(r, s, g, stack, fuel) is Some,
        not_cut_short(parse_fuel(r, s, g, stack, fuel).unwrap()),
    ensures
        parse_fuel(r, s + t, g, stack, fuel) == Some(extended(parse_fuel(r, s, g, stack, fuel).unwrap(), t)),
    decreases fuel,
{
    let f = (fuel - 1) as nat;
    match r {
        RegModel::Var(x) => {
            if crate::re::level(stack, x) == g.k {
                lemma_fuel_extends(g.env[x], s, t, g, stack, f);
            } else {
                lemma_fuel_extends(g.env[x], s, t, g, stack.insert(x, (crate::re::level(stack, x) + 1) as usize), f);
            }
        },
        RegModel::Literal(c) => {
            lemma_extend_drop_first(s, t);
            if s[0] != c && g.firsts.contains_key(s[0]) {
                let fx = RegModel::Var(g.firsts[s[0]]);
                lemma_fuel_extends(fx, s, t, g, stack, f);
                match parse_fuel(fx, s, g, stack, f).unwrap() {
                    Ok((v, s1)) => {
                        lemma_fuel_extends(RegModel::Literal(c), s1, t, g, stack, f);
                    },
                    _ => {},
                }
            }
        },
        RegModel::Literals(lits) => {
            lemma_lits_extends(lits, 0, s, s, seq![], t, g, stack, f);
        },
        RegModel::Concat(a, b) => {
            lemma_fuel_extends(*a, s, t, g, stack, f);
            match parse_fuel(*a, s, g, stack, f).unwrap() {
                Ok((v1, s1)) => {
                    lemma_fuel_extends(*b, s1, t, g, stack, f);
                },
                _ => {},
            }
        },
        RegModel::Sequence(rs) => {
            lemma_seq_extends(rs, 0, s, seq![], t, g, stack, f);
        },
        RegModel::Alter(a, b) => {
            lemma_fuel_extends(*a, s, t, g, stack, f);
            if parse_fuel(*a, s, g, stack, f).unwrap() matches Err(ParseErrModel::Invalid(_)) {
                lemma_fuel_extends(*b, s, t, g, stack, f);
            }
        },
        RegModel::Star(a) => {
            lemma_star_err_is_abort(*a, s, seq![], g, stack, f);
            if parse_star_fuel(*a, s, seq![], g, stack, f).unwrap() is Ok {
                lemma_star_extends(*a, s, seq![], t, g, stack, f);
            }
        },
        RegModel::Epsilon => {},
    }
}

/// The repetition loop ends with its rounds, or cut short by the end of the
/// path; a round that does not match ends it with the rounds before.
proof fn lemma_star_err_is_abort(r: RegModel, s: Seq<i32>, acc: Seq<ValModel>, g: ParseCtx, stack: Map<i32, usize>, fuel: nat)
    requires
        parse_star_fuel(r, s, acc, g, stack, fuel) is Some,
    ensures
        parse_star_fuel(r, s, acc, g, stack, fuel).unwrap() is Err ==>
            parse_star_fuel(r, s, acc, g, stack, fuel).unwrap() matches Err(ParseErrModel::Abort(_)),
    decreases fuel,
{
    let f = (fuel - 1) as nat;
    match parse_fuel(r, s, g, stack, f).unwrap() {
        Ok((v, s2)) => {
            lemma_star_err_is_abort(r, s2, keep(acc, v, g.k), g, stack, f);
        },
        _ => {},
    }
}

/// The loop over a literal list, where not cut short, gives the same
/// outcome with more blocks at the end of the path.
proof fn lemma_lits_extends(
    lits: Seq<i32>,
    i: nat,
    s: Seq<i32>,
    rest: Seq<i32>,
    acc: Seq<ValModel>,
    t: Seq<i32>,
    g: ParseCtx,
    stack: Map<i32, usize>,
    fuel: nat,
)
    requires
        parse_lits_fuel(lits, i, s, rest, acc, g, stack, fuel) is Some,
        not_cut_short(parse_lits_fuel(lits, i, s, rest, acc, g, stack, fuel).unwrap()),
    ensures
        parse_lits_fuel(lits, i, s + t, rest + t, acc, g, stack, fuel)
            == Some(extended(parse_lits_fuel(lits, i, s, rest, acc, g, stack, fuel).unwrap(), t)),
    decreases fuel,
{
    let f = (fuel - 1) as nat;
    if i < lits.len() && rest.len() > 0 {
        lemma_extend_drop_first(rest, t);
        if lits[i as int] == rest[0] {
            lemma_lits_extends(lits, i + 1, s, rest.subrange(1, rest.len() as int), acc.push(ValModel::Literal(lits[i as int])), t, g, stack, f);
        } else if g.firsts.contains_key(rest[0]) {
            let fx = RegModel::Var(g.firsts[rest[0]]);
            lemma_fuel_extends(fx, s, t, g, stack, f);
            match parse_fuel(fx, s, g, stack, f).unwrap() {
                Ok((v, r2)) => {
                    lemma_lits_extends(lits, i + 1, s, r2, acc.push(v), t, g, stack, f);
                },
                _ => {},
            }
        }
    }
}

/// The loop over the parts of a sequence node, where not cut short, gives
/// the same outcome with more blocks at the end of the path.
proof fn lemma_seq_extends(
    rs: Seq<RegModel>,
    i: nat,
    rest: Seq<i32>,
    acc: Seq<ValModel>,
    t: Seq<i32>,
    g: ParseCtx,
    stack: Map<i32, usize>,
    fuel: nat,
)
    requires
        parse_seq_fuel(rs, i, rest, acc, g, stack, fuel) is Some,
        not_cut_short(parse_seq_fuel(rs, i, rest, acc, g, stack, fuel).unwrap()),
    ensures
        parse_seq_fuel(rs, i, rest + t, acc, g, stack, fuel)
            == Some(extended(parse_seq_fuel(rs, i, rest, acc, g, stack, fuel).unwrap(), t)),
    decreases fuel,
{
    let f = (fuel - 1) as nat;
    if i < rs.len() {
        lemma_fuel_extends(rs[i as int], rest, t, g, stack, f);
        match parse_fuel(rs[i as int], rest, g, stack, f).unwrap() {
            Ok((v, r2)) => {
                lemma_seq_extends(rs, i + 1, r2, acc.push(v), t, g, stack, f);
            },
            _ => {},
        }
    }
}

/// The repetition loop, where not cut short, gives the same rounds with
/// more blocks at the end of the path.
proof fn lemma_star_extends(
    r: RegModel,
    s: Seq<i32>,
    acc: Seq<ValModel>,
    t: Seq<i32>,
    g: ParseCtx,
    stack: Map<i32, usize>,
    fuel: nat,
)
    requires
        parse_star_fuel(r, s, acc, g, stack, fuel) is Some,
        parse_star_fuel(r, s, acc, g, stack, fuel).unwrap() is Ok,
    ensures
        parse_star_fuel(r, s + t, acc, g, stack, fuel) == Some(match parse_star_fuel(r, s, acc, g, stack, fuel).unwrap() {
            Ok((vs, rest)) => Ok::<(Seq<ValModel>, Seq<i32>), ParseErrModel>((vs, rest + t)),
            Err(e) => Err(e),
        }),
    decreases fuel,
{
    let f = (fuel - 1) as nat;
    lemma_fuel_extends(r, s, t, g, stack, f);
    match parse_fuel(r, s, g, stack, f).unwrap() {
        Ok((v, s2)) => {
            lemma_star_extends(r, s2, keep(acc, v, g.k), t, g, stack, f);
        },
        _ => {},
    }
}

/// A parse that is not cut short by the end of the path gives the same
/// outcome when more blocks follow: a match takes off the same front and
/// leaves the added blocks after the same rest, and a mismatch stays a
/// mismatch with the same message. The parse decides on the blocks it reads
/// alone, and never reads past them.
pub proof fn law_parse_extends(r: RegModel, s: Seq<i32>, t: Seq<i32>, g: ParseCtx)
    requires
        parse_terminates(r, s, g),
        not_cut_short(parse_result(r, s, g)),
    ensures
        parse_terminates(r, s + t, g),
        parse_result(r, s + t, g) == extended(parse_result(r, s, g), t),
{
    let fuel = choose|fuel: nat| #[trigger] parse_fuel(r, s, g, Map::empty(), fuel) is Some;
    lemma_fuel_extends(r, s, t, g, Map::empty(), fuel);
    law_parse_result_unique(r, s + t, g, fuel);
}

/// In the simple reduction, a call of a function whose first block is not
/// on the call stack, inside a call that is kept, is kept: the current call
/// goes on after it with the call's blocks added, starting with its first
/// block.
pub proof fn law_fresh_call_kept(
    sh: Shape,
    first: i32,
    path: Seq<i32>,
    stack: Seq<i32>,
    buf: Seq<i32>,
    ls: Map<i32, usize>,
)
    requires
        path.len() > 0,
        path.len() < usize::MAX,
        sh.calls.contains(path[0]),
        !stack.contains(path[0]),
    ensures
        call_loop(sh, first, path, stack, false, buf, ls) == (match one_call(sh, path, stack, false) {
            None => None,
            Some((b2, rest, st2)) => if rest.len() < path.len() {
                call_loop(sh, first, rest, st2, false, buf + b2, ls)
            } else {
                None
            },
        }),
        one_call(sh, path, stack, false) matches Some((b, _, _)) ==> b.len() > 0 && b[0] == path[0],
{
    if one_call(sh, path, stack, false) is Some {
        lemma_kept_call_starts(sh, path, stack);
    }
}

/// A call of the simple reduction keeps no more blocks than it consumes.
proof fn lemma_call_keeps_at_most_read(sh: Shape, path: Seq<i32>, stack: Seq<i32>, skip: bool)
    requires
        one_call(sh, path, stack, skip) is Some,
        path.len() < usize::MAX,
    ensures
        one_call(sh, path, stack, skip).unwrap().0.len() + one_call(sh, path, stack, skip).unwrap().1.len() <= path.len(),
    decreases path.len(), 1nat,
{
    if path.len() > 0 {
        let first = path[0];
        let buf: Seq<i32> = if skip { seq![] } else { seq![first] };
        let ls: Map<i32, usize> = if skip { Map::empty() } else { Map::empty().insert(first, 0usize) };
        if !sh.exits[first].contains(first) {
            lemma_loop_keeps_at_most_read(sh, first, path.drop_first(), stack.push(first), skip, buf, ls);
        }
    }
}

/// The rest of a call keeps no more blocks than it has so far and consumes.
proof fn lemma_loop_keeps_at_most_read(sh: Shape, first: i32, path: Seq<i32>, stack: Seq<i32>, skip: bool, buf: Seq<i32>, ls: Map<i32, usize>)
    requires
        call_loop(sh, first, path, stack, skip, buf, ls) is Some,
        buf.len() + path.len() < usize::MAX,
        forall|b: i32| #[trigger] ls.contains_key(b) ==> ls[b] <= buf.len(),
    ensures
        call_loop(sh, first, path, stack, skip, buf, ls).unwrap().0.len() + call_loop(sh, first, path, stack, skip, buf, ls).unwrap().1.len()
            <= buf.len() + path.len(),
    decreases path.len(), 2nat,
{
    if path.len() > 0 {
        let block = path[0];
        if sh.calls.contains(block) {
            let inner_skip = skip || stack.contains(block);
            lemma_call_keeps_at_most_read(sh, path, stack, inner_skip);
            let (b2, rest, st2) = one_call(sh, path, stack, inner_skip).unwrap();
            if rest.len() < path.len() {
                let nb = if inner_skip { buf } else { buf + b2 };
                lemma_loop_keeps_at_most_read(sh, first, rest, st2, skip, nb, ls);
            }
        } else if !sh.exits[first].contains(block) && !skip {
            let buf1 = if ls.contains_key(block) { buf.take(ls[block] as int) } else { buf };
            let ls1 = if ls.contains_key(block) {
                ls.restrict(ls.dom().filter(|b: i32| ls[b] < ls[block]))
            } else {
                ls
            };
            let ls2 = ls1.insert(block, buf1.len() as usize);
            assert forall|b: i32| #[trigger] ls2.contains_key(b) implies ls2[b] <= buf1.push(block).len() by {
                if b != block {
                    assert(ls1.contains_key(b));
                }
            }
            lemma_loop_keeps_at_most_read(sh, first, path.drop_first(), stack, skip, buf1.push(block), ls2);
        } else if !sh.exits[first].contains(block) {
            lemma_loop_keeps_at_most_read(sh, first, path.drop_first(), stack, skip, buf, ls);
        }
    }
}

/// A call that the simple reduction keeps keeps its first block first.
proof fn lemma_kept_call_starts(sh: Shape, path: Seq<i32>, stack: Seq<i32>)
    requires
        path.len() > 0,
        path.len() < usize::MAX,
        one_call(sh, path, stack, false) is Some,
    ensures
        one_call(sh, path, stack, false).unwrap().0.len() > 0,
        one_call(sh, path, stack, false).unwrap().0[0] == path[0],
{
    let first = path[0];
    if !sh.exits[first].contains(first) {
        assert(seq![first][0] == first);
        lemma_loop_keeps_front(sh, first, path.drop_first(), stack.push(first), seq![first], Map::empty().insert(first, 0usize));
    }
}

/// The rest of a kept call keeps the first block it started with, where
/// the blocks so far start with it and every place it remembers is past it.
proof fn lemma_loop_keeps_front(sh: Shape, first: i32, path: Seq<i32>, stack: Seq<i32>, buf: Seq<i32>, ls: Map<i32, usize>)
    requires
        call_loop(sh, first, path, stack, false, buf, ls) is Some,
        buf.len() + path.len() < usize::MAX,
        buf.len() > 0,
        buf[0] == first,
        forall|b: i32| #[trigger] ls.contains_key(b) ==> (ls[b] > 0 || b == first) && ls[b] < buf.len(),
    ensures
        call_loop(sh, first, path, stack, false, buf, ls).unwrap().0.len() > 0,
        call_loop(sh, first, path, stack, false, buf, ls).unwrap().0[0] == first,
    decreases path.len(),
{
    if path.len() > 0 {
        let block = path[0];
        if sh.calls.contains(block) {
            let inner_skip = stack.contains(block);
            let (b2, rest, st2) = one_call(sh, path, stack, inner_skip).unwrap();
            lemma_call_keeps_at_most_read(sh, path, stack, inner_skip);
            if rest.len() < path.len() {
                let nb = if inner_skip { buf } else { buf + b2 };
                lemma_loop_keeps_front(sh, first, rest, st2, nb, ls);
            }
        } else if !sh.exits[first].contains(block) {
            let buf1 = if ls.contains_key(block) { buf.take(ls[block] as int) } else { buf };
            let ls1 = if ls.contains_key(block) {
                ls.restrict(ls.dom().filter(|b: i32| ls[b] < ls[block]))
            } else {
                ls
            };
            let ls2 = ls1.insert(block, buf1.len() as usize);
            if buf1.len() == 0 {
                assert(ls.contains_key(block) && ls[block] == 0);
                assert(block == first);
            }
            assert forall|b: i32| #[trigger] ls2.contains_key(b) implies (ls2[b] > 0 || b == first) && ls2[b] < buf1.push(block).len() by {
                if b != block {
                    assert(ls1.contains_key(b));
                    assert(ls.contains_key(b));
                }
            }
            lemma_loop_keeps_front(sh, first, path.drop_first(), stack, buf1.push(block), ls2);
        }
    }
}

/// What `Val::reduce` keeps of a parse value is a subsequence of its blocks.
pub proof fn law_val_reduce_subsequence(v: ValModel, k: nat)
    requires
        reduce_model(v, k) is Some,
    ensures
        subsequence(reduce_model(v, k).unwrap(), flat(v)),
    decreases v, 0nat,
{
    match v {
        ValModel::Literal(c) => {
            lemma_subseq_refl(seq![c]);
        },
        ValModel::Concat(a, b) => {
            law_val_reduce_subsequence(*a, k);
            law_val_reduce_subsequence(*b, k);
            lemma_subseq_concat(reduce_model(*a, k).unwrap(), flat(*a), reduce_model(*b, k).unwrap(), flat(*b));
        },
        ValModel::Star(vs) => {
            let n: nat = if vs.len() < k { vs.len() } else { k };
            lemma_rounds_subseq(vs, n, k);
            lemma_flat_all_prefix(vs, n, vs.len());
            lemma_subseq_trans(reduce_rounds(vs, n, k).unwrap(), flat_all(vs, n), flat_all(vs, vs.len()));
        },
        _ => {},
    }
}

proof fn lemma_rounds_subseq(vs: Seq<ValModel>, n: nat, k: nat)
    requires
        reduce_rounds(vs, n, k) is Some,
    ensures
        subsequence(reduce_rounds(vs, n, k).unwrap(), flat_all(vs, n)),
    decreases vs, n,
{
    if n == 0 || n > vs.len() {
        lemma_subseq_empty(flat_all(vs, n));
    } else {
        lemma_rounds_subseq(vs, (n - 1) as nat, k);
        law_val_reduce_subsequence(vs[n - 1], k);
        lemma_subseq_concat(
            reduce_rounds(vs, (n - 1) as nat, k).unwrap(),
            flat_all(vs, (n - 1) as nat),
            reduce_model(vs[n - 1], k).unwrap(),
            flat(vs[n - 1]),
        );
    }
}

/// The blocks of the first `m` values are a subsequence of those of the
/// first `n`, for `m <= n`.
proof fn lemma_flat_all_prefix(vs: Seq<ValModel>, m: nat, n: nat)
    requires
        m <= n <= vs.len(),
    ensures
        subsequence(flat_all(vs, m), flat_all(vs, n)),
    decreases n,
{
    if m == n {
        lemma_subseq_refl(flat_all(vs, n));
    } else {
        lemma_flat_all_prefix(vs, m, (n - 1) as nat);
        lemma_subseq_extend(flat_all(vs, m), flat_all(vs, (n - 1) as nat), flat(vs[n - 1]));
    }
}

/// No arrow of `m` carries a literal list.
pub open spec fn arrows_plain(m: Map<(usize, usize), RegModel>) -> bool {
    forall|pq: (usize, usize)| #[trigger] m.contains_key(pq) ==> plain(m[pq])
}

proof fn lemma_concat_plain(a: RegModel, b: RegModel)
    requires
        plain(a),
        plain(b),
    ensures
        plain(crate::re::concat_model(a, b)),
{
}

proof fn lemma_route_plain(m: Map<(usize, usize), RegModel>, s: usize, pq: (usize, usize))
    requires
        arrows_plain(m),
        contributes(m, s, pq.0, pq.1),
    ensures
        plain(merged_value(m, s, pq)),
{
    let (p, q) = pq;
    assert(m.contains_key((p, s)) && m.contains_key((s, q)));
    assert(plain(m[(p, s)]) && plain(m[(s, q)]));
    if m.contains_key((s, s)) {
        assert(plain(m[(s, s)]));
        let st = RegModel::Star(Box::new(m[(s, s)]));
        assert(plain(st));
        lemma_concat_plain(st, m[(s, q)]);
        lemma_concat_plain(m[(p, s)], crate::re::concat_model(st, m[(s, q)]));
    } else {
        lemma_concat_plain(m[(p, s)], m[(s, q)]);
    }
    assert(plain(route(m, s, p, q)));
    if m.contains_key(pq) {
        assert(plain(m[pq]));
    }
}

/// Ripping a state out of an automaton whose arrows carry no literal list
/// leaves arrows that carry none.
proof fn lemma_ripped_plain(st: GnfaState, s: usize)
    requires
        arrows_plain(st.arrows),
    ensures
        arrows_plain(ripped(st, s).arrows),
{
    let m1 = bypassed(st.arrows, s);
    assert forall|pq: (usize, usize)| #[trigger] m1.contains_key(pq) implies plain(m1[pq]) by {
        if contributes(st.arrows, s, pq.0, pq.1) {
            lemma_route_plain(st.arrows, s, pq);
        }
    }
    assert forall|ab: (usize, usize)| #[trigger] ripped(st, s).arrows.contains_key(ab) implies plain(ripped(st, s).arrows[ab]) by {
        let key = (unmoved(ab.0, s, st.n), unmoved(ab.1, s, st.n));
        assert(m1.contains_key(key));
    }
}

/// State elimination on an automaton whose arrows carry no literal list
/// leaves arrows that carry none.
proof fn lemma_eliminate_plain(st: GnfaState)
    requires
        arrows_plain(st.arrows),
        eliminate(st) is Some,
    ensures
        arrows_plain(eliminate(st).unwrap().arrows),
    decreases st.n,
{
    if st.n > 2 {
        lemma_ripped_plain(st, next_rip(st));
        lemma_eliminate_plain(ripped(st, next_rip(st)));
    }
}

/// The regular expression of a control flow graph holds no literal list.
pub proof fn lemma_cfg_regex_plain(cfg: CFG)
    requires
        cfg_regex(cfg) is Some,
    ensures
        plain(cfg_regex(cfg).unwrap()),
{
    let nodes = cfg_nodes(cfg.graph);
    let es = cfg_edges(cfg.graph);
    let st = initial_state(nodes, es, cfg.entry, cfg.exit);
    assert forall|pq: (usize, usize)| #[trigger] st.arrows.contains_key(pq) implies plain(st.arrows[pq]) by {
        let n = nodes[pq.1 as int];
        assert(plain(node_re(n)));
        assert(plain(node_re(nodes[cfg.entry as int])));
    }
    lemma_eliminate_plain(st);
}

/// Every repetition in `v` keeps at most `k` rounds.
pub open spec fn rounds_bounded(v: ValModel, k: nat) -> bool
    decreases v, 0nat,
{
    match v {
        ValModel::Concat(a, b) => rounds_bounded(*a, k) && rounds_bounded(*b, k),
        ValModel::Sequence(vs) => all_rounds_bounded(vs, vs.len(), k),
        ValModel::Star(vs) => vs.len() <= k && all_rounds_bounded(vs, vs.len(), k),
        _ => true,
    }
}

/// Every repetition in the first `n` values of `vs` keeps at most `k` rounds.
pub open spec fn all_rounds_bounded(vs: Seq<ValModel>, n: nat, k: nat) -> bool
    decreases vs, n,
{
    if n == 0 || n > vs.len() {
        true
    } else {
        all_rounds_bounded(vs, (n - 1) as nat, k) && rounds_bounded(vs[n - 1], k)
    }
}

/// What a parse outcome keeps has no repetition of more than `k` rounds.
pub open spec fn outcome_bounded(o: ParseOutcome, k: nat) -> bool {
    match o {
        Ok((v, _)) => rounds_bounded(v, k),
        Err(ParseErrModel::Abort(v)) => rounds_bounded(v, k),
        Err(ParseErrModel::Invalid(_)) => true,
    }
}

proof fn lemma_all_bounded_push(vs: Seq<ValModel>, v: ValModel, n: nat, k: nat)
    requires
        n <= vs.len(),
        all_rounds_bounded(vs, n, k),
    ensures
        all_rounds_bounded(vs.push(v), n, k),
    decreases n,
{
    if n > 0 {
        lemma_all_bounded_push(vs, v, (n - 1) as nat, k);
        assert(vs.push(v)[n - 1] == vs[n - 1]);
    }
}

proof fn lemma_all_bounded_pushed(vs: Seq<ValModel>, v: ValModel, k: nat)
    requires
        all_rounds_bounded(vs, vs.len(), k),
        rounds_bounded(v, k),
    ensures
        all_rounds_bounded(vs.push(v), vs.len() + 1, k),
{
    lemma_all_bounded_push(vs, v, vs.len(), k);
    assert(vs.push(v)[vs.len() as int] == v);
}

proof fn lemma_concat_bounded(v1: ValModel, o2: ParseOutcome, k: nat)
    requires
        rounds_bounded(v1, k),
        outcome_bounded(o2, k),
    ensures
        outcome_bounded(crate::re::concat_outcome(v1, o2), k),
{
}

/// Every parse with enough steps keeps at most `k` rounds of each
/// repetition.
proof fn lemma_parse_fuel_bounded(r: RegModel, s: Seq<i32>, g: ParseCtx, stack: Map<i32, usize>, fuel: nat)
    requires
        parse_fuel(r, s, g, stack, fuel) is Some,
    ensures
        outcome_bounded(parse_fuel(r, s, g, stack, fuel).unwrap(), g.k),
    decreases fuel,
{
    let f = (fuel - 1) as nat;
    let e: Seq<ValModel> = seq![];
    assert(all_rounds_bounded(e, 0, g.k));
    match r {
        RegModel::Epsilon => {
            assert(rounds_bounded(ValModel::Star(e), g.k));
        },
        RegModel::Var(x) => {
            if crate::re::level(stack, x) == g.k {
                lemma_parse_fuel_bounded(g.env[x], s, g, stack, f);
            } else {
                lemma_parse_fuel_bounded(g.env[x], s, g, stack.insert(x, (crate::re::level(stack, x) + 1) as usize), f);
            }
        },
        RegModel::Literal(c) => {
            if s.len() > 0 && s[0] != c && g.firsts.contains_key(s[0]) {
                let fx = RegModel::Var(g.firsts[s[0]]);
                lemma_parse_fuel_bounded(fx, s, g, stack, f);
                match parse_fuel(fx, s, g, stack, f).unwrap() {
                    Ok((v, s1)) => {
                        lemma_parse_fuel_bounded(RegModel::Literal(c), s1, g, stack, f);
                        lemma_concat_bounded(v, parse_fuel(RegModel::Literal(c), s1, g, stack, f).unwrap(), g.k);
                    },
                    _ => {},
                }
            }
        },
        RegModel::Literals(lits) => {
            lemma_lits_bounded(lits, 0, s, s, e, g, stack, f);
        },
        RegModel::Concat(a, b) => {
            lemma_parse_fuel_bounded(*a, s, g, stack, f);
            match parse_fuel(*a, s, g, stack, f).unwrap() {
                Ok((v1, s1)) => {
                    lemma_parse_fuel_bounded(*b, s1, g, stack, f);
                    lemma_concat_bounded(v1, parse_fuel(*b, s1, g, stack, f).unwrap(), g.k);
                },
                _ => {},
            }
        },
        RegModel::Sequence(rs) => {
            lemma_seq_bounded(rs, 0, s, e, g, stack, f);
        },
        RegModel::Alter(a, b) => {
            lemma_parse_fuel_bounded(*a, s, g, stack, f);
            match parse_fuel(*a, s, g, stack, f).unwrap() {
                Err(ParseErrModel::Invalid(_)) => {
                    lemma_parse_fuel_bounded(*b, s, g, stack, f);
                },
                _ => {},
            }
        },
        RegModel::Star(a) => {
            lemma_star_bounded(*a, s, e, g, stack, f);
        },
    }
}

proof fn lemma_lits_bounded(
    lits: Seq<i32>,
    i: nat,
    s: Seq<i32>,
    rest: Seq<i32>,
    acc: Seq<ValModel>,
    g: ParseCtx,
    stack: Map<i32, usize>,
    fuel: nat,
)
    requires
        parse_lits_fuel(lits, i, s, rest, acc, g, stack, fuel) is Some,
        all_rounds_bounded(acc, acc.len(), g.k),
    ensures
        outcome_bounded(parse_lits_fuel(lits, i, s, rest, acc, g, stack, fuel).unwrap(), g.k),
    decreases fuel,
{
    let f = (fuel - 1) as nat;
    if i < lits.len() && rest.len() > 0 {
        if lits[i as int] == rest[0] {
            lemma_all_bounded_pushed(acc, ValModel::Literal(lits[i as int]), g.k);
            lemma_lits_bounded(lits, i + 1, s, rest.subrange(1, rest.len() as int), acc.push(ValModel::Literal(lits[i as int])), g, stack, f);
        } else if g.firsts.contains_key(rest[0]) {
            let fx = RegModel::Var(g.firsts[rest[0]]);
            lemma_parse_fuel_bounded(fx, s, g, stack, f);
            match parse_fuel(fx, s, g, stack, f).unwrap() {
                Ok((v, r2)) => {
                    lemma_all_bounded_pushed(acc, v, g.k);
                    lemma_lits_bounded(lits, i + 1, s, r2, acc.push(v), g, stack, f);
                },
                Err(ParseErrModel::Abort(v)) => {
                    lemma_all_bounded_pushed(acc, v, g.k);
                },
                _ => {},
            }
        }
    }
}

proof fn lemma_seq_bounded(
    rs: Seq<RegModel>,
    i: nat,
    rest: Seq<i32>,
    acc: Seq<ValModel>,
    g: ParseCtx,
    stack: Map<i32, usize>,
    fuel: nat,
)
    requires
        parse_seq_fuel(rs, i, rest, acc, g, stack, fuel) is Some,
        all_rounds_bounded(acc, acc.len(), g.k),
    ensures
        outcome_bounded(parse_seq_fuel(rs, i, rest, acc, g, stack, fuel).unwrap(), g.k),
    decreases fuel,
{
    let f = (fuel - 1) as nat;
    if i < rs.len() {
        lemma_parse_fuel_bounded(rs[i as int], rest, g, stack, f);
        match parse_fuel(rs[i as int], rest, g, stack, f).unwrap() {
            Ok((v, r2)) => {
                lemma_all_bounded_pushed(acc, v, g.k);
                lemma_seq_bounded(rs, i + 1, r2, acc.push(v), g, stack, f);
            },
            Err(ParseErrModel::Abort(v)) => {
                lemma_all_bounded_pushed(acc, v, g.k);
            },
            _ => {},
        }
    }
}

proof fn lemma_star_bounded(
    r: RegModel,
    s: Seq<i32>,
    acc: Seq<ValModel>,
    g: ParseCtx,
    stack: Map<i32, usize>,
    fuel: nat,
)
    requires
        parse_star_fuel(r, s, acc, g, stack, fuel) is Some,
        all_rounds_bounded(acc, acc.len(), g.k),
        acc.len() <= g.k,
    ensures
        match parse_star_fuel(r, s, acc, g, stack, fuel).unwrap() {
            Ok((vs, _)) => vs.len() <= g.k && all_rounds_bounded(vs, vs.len(), g.k),
            Err(ParseErrModel::Abort(v)) => rounds_bounded(v, g.k),
            Err(ParseErrModel::Invalid(_)) => true,
        },
    decreases fuel,
{
    let f = (fuel - 1) as nat;
    lemma_parse_fuel_bounded(r, s, g, stack, f);
    match parse_fuel(r, s, g, stack, f).unwrap() {
        Ok((v, s2)) => {
            if acc.len() < g.k {
                lemma_all_bounded_pushed(acc, v, g.k);
            }
            lemma_star_bounded(r, s2, keep(acc, v, g.k), g, stack, f);
        },
        Err(ParseErrModel::Abort(v)) => {
            if acc.len() < g.k {
                lemma_all_bounded_pushed(acc, v, g.k);
            }
        },
        _ => {},
    }
}

/// A parse keeps at most `k` rounds of every repetition, `k` being the
/// bound of the parse.
pub proof fn law_parse_bounded(r: RegModel, s: Seq<i32>, g: ParseCtx)
    requires
        parse_terminates(r, s, g),
    ensures
        outcome_bounded(parse_result(r, s, g), g.k),
{
    let fuel = choose|fuel: nat| #[trigger] parse_fuel(r, s, g, Map::empty(), fuel) is Some;
    lemma_parse_fuel_bounded(r, s, g, Map::empty(), fuel);
}

/// More steps do not change a parse that ends.
proof fn lemma_parse_fuel_mono(r: RegModel, s: Seq<i32>, g: ParseCtx, stack: Map<i32, usize>, f1: nat, f2: nat)
    requires
        parse_fuel(r, s, g, stack, f1) is Some,
        f1 <= f2,
    ensures
        parse_fuel(r, s, g, stack, f2) == parse_fuel(r, s, g, stack, f1),
    decreases f1,
{
    let a = (f1 - 1) as nat;
    let b = (f2 - 1) as nat;
    let e: Seq<ValModel> = seq![];
    match r {
        RegModel::Var(x) => {
            if crate::re::level(stack, x) == g.k {
                lemma_parse_fuel_mono(g.env[x], s, g, stack, a, b);
            } else {
                lemma_parse_fuel_mono(g.env[x], s, g, stack.insert(x, (crate::re::level(stack, x) + 1) as usize), a, b);
            }
        },
        RegModel::Literal(c) => {
            if s.len() > 0 && s[0] != c && g.firsts.contains_key(s[0]) {
                let fx = RegModel::Var(g.firsts[s[0]]);
                lemma_parse_fuel_mono(fx, s, g, stack, a, b);
                match parse_fuel(fx, s, g, stack, a).unwrap() {
                    Ok((v, s1)) => {
                        lemma_parse_fuel_mono(RegModel::Literal(c), s1, g, stack, a, b);
                    },
                    _ => {},
                }
            }
        },
        RegModel::Literals(lits) => {
            lemma_lits_fuel_mono(lits, 0, s, s, e, g, stack, a, b);
        },
        RegModel::Concat(x, y) => {
            lemma_parse_fuel_mono(*x, s, g, stack, a, b);
            match parse_fuel(*x, s, g, stack, a).unwrap() {
                Ok((v1, s1)) => {
                    lemma_parse_fuel_mono(*y, s1, g, stack, a, b);
                },
                _ => {},
            }
        },
        RegModel::Sequence(rs) => {
            lemma_seq_fuel_mono(rs, 0, s, e, g, stack, a, b);
        },
        RegModel::Alter(x, y) => {
            lemma_parse_fuel_mono(*x, s, g, stack, a, b);
            match parse_fuel(*x, s, g, stack, a).unwrap() {
                Err(ParseErrModel::Invalid(_)) => {
                    lemma_parse_fuel_mono(*y, s, g, stack, a, b);
                },
                _ => {},
            }
        },
        RegModel::Star(x) => {
            lemma_star_fuel_mono(*x, s, e, g, stack, a, b);
        },
        _ => {},
    }
}

proof fn lemma_lits_fuel_mono(
    lits: Seq<i32>,
    i: nat,
    s: Seq<i32>,
    rest: Seq<i32>,
    acc: Seq<ValModel>,
    g: ParseCtx,
    stack: Map<i32, usize>,
    f1: nat,
    f2: nat,
)
    requires
        parse_lits_fuel(lits, i, s, rest, acc, g, stack, f1) is Some,
        f1 <= f2,
    ensures
        parse_lits_fuel(lits, i, s, rest, acc, g, stack, f2) == parse_lits_fuel(lits, i, s, rest, acc, g, stack, f1),
    decreases f1,
{
    let a = (f1 - 1) as nat;
    let b = (f2 - 1) as nat;
    if i < lits.len() && rest.len() > 0 {
        if lits[i as int] == rest[0] {
            lemma_lits_fuel_mono(lits, i + 1, s, rest.subrange(1, rest.len() as int), acc.push(ValModel::Literal(lits[i as int])), g, stack, a, b);
        } else if g.firsts.contains_key(rest[0]) {
            let fx = RegModel::Var(g.firsts[rest[0]]);
            lemma_parse_fuel_mono(fx, s, g, stack, a, b);
            match parse_fuel(fx, s, g, stack, a).unwrap() {
                Ok((v, r2)) => {
                    lemma_lits_fuel_mono(lits, i + 1, s, r2, acc.push(v), g, stack, a, b);
                },
                _ => {},
            }
        }
    }
}

proof fn lemma_seq_fuel_mono(
    rs: Seq<RegModel>,
    i: nat,
    rest: Seq<i32>,
    acc: Seq<ValModel>,
    g: ParseCtx,
    stack: Map<i32, usize>,
    f1: nat,
    f2: nat,
)
    requires
        parse_seq_fuel(rs, i, rest, acc, g, stack, f1) is Some,
        f1 <= f2,
    ensures
        parse_seq_fuel(rs, i, rest, acc, g, stack, f2) == parse_seq_fuel(rs, i, rest, acc, g, stack, f1),
    decreases f1,
{
    let a = (f1 - 1) as nat;
    let b = (f2 - 1) as nat;
    if i < rs.len() {
        lemma_parse_fuel_mono(rs[i as int], rest, g, stack, a, b);
        match parse_fuel(rs[i as int], rest, g, stack, a).unwrap() {
            Ok((v, r2)) => {
                lemma_seq_fuel_mono(rs, i + 1, r2, acc.push(v), g, stack, a, b);
            },
            _ => {},
        }
    }
}

proof fn lemma_star_fuel_mono(
    r: RegModel,
    s: Seq<i32>,
    acc: Seq<ValModel>,
    g: ParseCtx,
    stack: Map<i32, usize>,
    f1: nat,
    f2: nat,
)
    requires
        parse_star_fuel(r, s, acc, g, stack, f1) is Some,
        f1 <= f2,
    ensures
        parse_star_fuel(r, s, acc, g, stack, f2) == parse_star_fuel(r, s, acc, g, stack, f1),
    decreases f1,
{
    let a = (f1 - 1) as nat;
    let b = (f2 - 1) as nat;
    lemma_parse_fuel_mono(r, s, g, stack, a, b);
    match parse_fuel(r, s, g, stack, a).unwrap() {
        Ok((v, s2)) => {
            lemma_star_fuel_mono(r, s2, keep(acc, v, g.k), g, stack, a, b);
        },
        _ => {},
    }
}

/// Two numbers of steps with which a parse ends give the same outcome.
pub(crate) proof fn lemma_parse_fuel_unique(r: RegModel, s: Seq<i32>, g: ParseCtx, stack: Map<i32, usize>, f1: nat, f2: nat)
    requires
        parse_fuel(r, s, g, stack, f1) is Some,
        parse_fuel(r, s, g, stack, f2) is Some,
    ensures
        parse_fuel(r, s, g, stack, f1) == parse_fuel(r, s, g, stack, f2),
{
    if f1 <= f2 {
        lemma_parse_fuel_mono(r, s, g, stack, f1, f2);
    } else {
        lemma_parse_fuel_mono(r, s, g, stack, f2, f1);
    }
}

/// A parse that ends has one outcome: every number of steps with which it
/// ends gives the outcome that `parse_result` names.
pub proof fn law_parse_result_unique(r: RegModel, s: Seq<i32>, g: ParseCtx, fuel: nat)
    requires
        parse_fuel(r, s, g, Map::empty(), fuel) is Some,
    ensures
        parse_terminates(r, s, g),
        parse_result(r, s, g) == parse_fuel(r, s, g, Map::empty(), fuel).unwrap(),
{
    let f = choose|f: nat| #[trigger] parse_fuel(r, s, g, Map::empty(), f) is Some;
    if f <= fuel {
        lemma_parse_fuel_mono(r, s, g, Map::empty(), f, fuel);
    } else {
        lemma_parse_fuel_mono(r, s, g, Map::empty(), fuel, f);
    }
}

/// More steps do not change an unbounded parse that ends.
proof fn lemma_inf_fuel_mono(r: RegModel, s: Seq<i32>, env: Map<i32, RegModel>, f1: nat, f2: nat)
    requires
        parse_inf_fuel(r, s, env, f1) is Some,
        f1 <= f2,
    ensures
        parse_inf_fuel(r, s, env, f2) == parse_inf_fuel(r, s, env, f1),
    decreases f1,
{
    let a = (f1 - 1) as nat;
    let b = (f2 - 1) as nat;
    match r {
        RegModel::Var(x) => {
            lemma_inf_fuel_mono(env[x], s, env, a, b);
        },
        RegModel::Concat(x, y) => {
            lemma_inf_fuel_mono(*x, s, env, a, b);
            match parse_inf_fuel(*x, s, env, a).unwrap() {
                Some((v1, s1)) => {
                    lemma_inf_fuel_mono(*y, s1, env, a, b);
                },
                _ => {},
            }
        },
        RegModel::Alter(x, y) => {
            lemma_inf_fuel_mono(*x, s, env, a, b);
            match parse_inf_fuel(*x, s, env, a).unwrap() {
                None => {
                    lemma_inf_fuel_mono(*y, s, env, a, b);
                },
                _ => {},
            }
        },
        RegModel::Star(x) => {
            lemma_star_inf_fuel_mono(*x, s, seq![], env, a, b);
        },
        _ => {},
    }
}

proof fn lemma_star_inf_fuel_mono(r: RegModel, s: Seq<i32>, acc: Seq<ValModel>, env: Map<i32, RegModel>, f1: nat, f2: nat)
    requires
        parse_star_inf_fuel(r, s, acc, env, f1) is Some,
        f1 <= f2,
    ensures
        parse_star_inf_fuel(r, s, acc, env, f2) == parse_star_inf_fuel(r, s, acc, env, f1),
    decreases f1,
{
    let a = (f1 - 1) as nat;
    let b = (f2 - 1) as nat;
    lemma_inf_fuel_mono(r, s, env, a, b);
    match parse_inf_fuel(r, s, env, a).unwrap() {
        Some((v, s2)) => {
            lemma_star_inf_fuel_mono(r, s2, acc.push(v), env, a, b);
        },
        _ => {},
    }
}

/// An unbounded parse that ends has one outcome: every number of steps with
/// which it ends gives the outcome that `parse_inf_result` names.
pub proof fn law_parse_inf_result_unique(r: RegModel, s: Seq<i32>, env: Map<i32, RegModel>, fuel: nat)
    requires
        parse_inf_fuel(r, s, env, fuel) is Some,
    ensures
        parse_inf_terminates(r, s, env),
        parse_inf_result(r, s, env) == parse_inf_fuel(r, s, env, fuel).unwrap(),
{
    let f = choose|f: nat| #[trigger] parse_inf_fuel(r, s, env, f) is Some;
    if f <= fuel {
        lemma_inf_fuel_mono(r, s, env, f, fuel);
    } else {
        lemma_inf_fuel_mono(r, s, env, fuel, f);
    }
}

} // verus!
