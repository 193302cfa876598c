//! The words that regular expressions and automata accept, and what state
//! elimination does to them.

use vstd::prelude::*;
use crate::re::{RegModel, concat_model, alter_model, prefix_acc_model, post_acc_model};
use crate::convert::{GNFA, GnfaState, contributes, route, merged_value, bypassed, ripped, unmoved, next_rip, eliminate};
use crate::graph::{moved, literal_nodes};
use crate::intern_cfg::CFG;
use crate::graph::{cfg_nodes, cfg_edges};
use crate::path_reduction::cfg_regex;
use crate::convert::{Node, node_re, is_sink, sinks, cfg_arrows, initial_state, several_sinks, block_graph_state};

verus! {

/// A letter of the words of a regular expression: a basic block, or the
/// call of a function.
pub enum Sym {
    Block(i32),
    Call(i32),
}

/// The word of a list of blocks.
pub open spec fn blocks_word(cs: Seq<i32>) -> Seq<Sym> {
    cs.map_values(|c: i32| Sym::Block(c))
}

/// `w` is a word of `r`.
pub open spec fn matches(r: RegModel, w: Seq<Sym>) -> bool
    decreases r, w.len(), 1nat, 0nat,
{
    match r {
        RegModel::Epsilon => w.len() == 0,
        RegModel::Var(x) => w == seq![Sym::Call(x)],
        RegModel::Literal(c) => w == seq![Sym::Block(c)],
        RegModel::Literals(cs) => w == blocks_word(cs),
        RegModel::Concat(_, _) => split_upto(r, w, w.len()),
        RegModel::Sequence(rs) => parts_upto(rs, rs.len(), w, w.len()),
        RegModel::Alter(a, b) => matches(*a, w) || matches(*b, w),
        RegModel::Star(_) => w.len() == 0 || rounds_upto(r, w, w.len()),
    }
}

/// `w` is a word of the first `n` parts of a sequence node, one after the
/// other: for some split at or before `i`, the front is a word of the first
/// `n - 1` parts and the rest one of part `n - 1`.
pub open spec fn parts_upto(rs: Seq<RegModel>, n: nat, w: Seq<Sym>, i: nat) -> bool
    decreases rs, n, 0nat, i,
{
    if n == 0 || n > rs.len() {
        n == 0 && w.len() == 0
    } else {
        (i <= w.len() && parts_upto(rs, (n - 1) as nat, w.take(i as int), i) && matches(rs[n - 1], w.skip(i as int)))
            || (i > 0 && parts_upto(rs, n, w, (i - 1) as nat))
    }
}

/// `r` is a concatenation, and for some split of `w` at or before `i` the
/// front is a word of its left side and the rest one of its right side.
pub open spec fn split_upto(r: RegModel, w: Seq<Sym>, i: nat) -> bool
    decreases r, w.len(), 0nat, i,
{
    match r {
        RegModel::Concat(a, b) => (i <= w.len() && matches(*a, w.take(i as int)) && matches(*b, w.skip(i as int)))
            || (i > 0 && split_upto(r, w, (i - 1) as nat)),
        _ => false,
    }
}

/// `r` is a repetition, and for some first round of `w`, not empty and at
/// most `i` long, the round is a word of its body and the rest one of `r`.
pub open spec fn rounds_upto(r: RegModel, w: Seq<Sym>, i: nat) -> bool
    decreases r, w.len(), 0nat, i,
{
    match r {
        RegModel::Star(a) => (0 < i <= w.len() && matches(*a, w.take(i as int)) && matches(r, w.skip(i as int)))
            || (i > 0 && rounds_upto(r, w, (i - 1) as nat)),
        _ => false,
    }
}

/// `w` is a word of `a` followed by a word of `b`.
pub open spec fn concat_words(a: RegModel, b: RegModel, w: Seq<Sym>) -> bool {
    exists|i: int| 0 <= i <= w.len() && #[trigger] matches(a, w.take(i)) && matches(b, w.skip(i))
}

proof fn lemma_split_intro(a: RegModel, b: RegModel, w: Seq<Sym>, j: nat, i: nat)
    requires
        j <= i,
        j <= w.len(),
        matches(a, w.take(j as int)),
        matches(b, w.skip(j as int)),
    ensures
        split_upto(RegModel::Concat(Box::new(a), Box::new(b)), w, i),
    decreases i,
{
    if i > j {
        lemma_split_intro(a, b, w, j, (i - 1) as nat);
    }
}

proof fn lemma_split_elim(a: RegModel, b: RegModel, w: Seq<Sym>, i: nat) -> (j: nat)
    requires
        split_upto(RegModel::Concat(Box::new(a), Box::new(b)), w, i),
    ensures
        j <= i,
        j <= w.len(),
        matches(a, w.take(j as int)),
        matches(b, w.skip(j as int)),
    decreases i,
{
    if i <= w.len() && matches(a, w.take(i as int)) && matches(b, w.skip(i as int)) {
        i
    } else {
        lemma_split_elim(a, b, w, (i - 1) as nat)
    }
}

/// The words of a concatenation are those of its left side followed by
/// those of its right side.
pub proof fn lemma_concat_matches(a: RegModel, b: RegModel, w: Seq<Sym>)
    ensures
        matches(RegModel::Concat(Box::new(a), Box::new(b)), w) <==> concat_words(a, b, w),
{
    if matches(RegModel::Concat(Box::new(a), Box::new(b)), w) {
        let j = lemma_split_elim(a, b, w, w.len());
        assert(matches(a, w.take(j as int)));
    }
    if concat_words(a, b, w) {
        let j = choose|i: int| 0 <= i <= w.len() && #[trigger] matches(a, w.take(i)) && matches(b, w.skip(i));
        lemma_split_intro(a, b, w, j as nat, w.len());
    }
}

proof fn lemma_rounds_intro(a: RegModel, w: Seq<Sym>, j: nat, i: nat)
    requires
        0 < j <= i,
        j <= w.len(),
        matches(a, w.take(j as int)),
        matches(RegModel::Star(Box::new(a)), w.skip(j as int)),
    ensures
        rounds_upto(RegModel::Star(Box::new(a)), w, i),
    decreases i,
{
    if i > j {
        lemma_rounds_intro(a, w, j, (i - 1) as nat);
    }
}

proof fn lemma_rounds_elim(a: RegModel, w: Seq<Sym>, i: nat) -> (j: nat)
    requires
        rounds_upto(RegModel::Star(Box::new(a)), w, i),
    ensures
        0 < j <= i,
        j <= w.len(),
        matches(a, w.take(j as int)),
        matches(RegModel::Star(Box::new(a)), w.skip(j as int)),
    decreases i,
{
    if 0 < i <= w.len() && matches(a, w.take(i as int)) && matches(RegModel::Star(Box::new(a)), w.skip(i as int)) {
        i
    } else {
        lemma_rounds_elim(a, w, (i - 1) as nat)
    }
}

/// The first round of a word of a repetition that is not empty.
proof fn star_first(a: RegModel, w: Seq<Sym>) -> (j: nat)
    requires
        matches(RegModel::Star(Box::new(a)), w),
        w.len() > 0,
    ensures
        0 < j <= w.len(),
        matches(a, w.take(j as int)),
        matches(RegModel::Star(Box::new(a)), w.skip(j as int)),
{
    lemma_rounds_elim(a, w, w.len())
}

/// A word of the body followed by a word of the repetition is a word of the
/// repetition.
proof fn star_step(a: RegModel, u: Seq<Sym>, v: Seq<Sym>)
    requires
        matches(a, u),
        matches(RegModel::Star(Box::new(a)), v),
    ensures
        matches(RegModel::Star(Box::new(a)), u + v),
{
    let w = u + v;
    if u.len() > 0 {
        assert(w.take(u.len() as int) =~= u);
        assert(w.skip(u.len() as int) =~= v);
        lemma_rounds_intro(a, w, u.len(), w.len());
    } else {
        assert(w =~= v);
    }
}

/// The words of `concat_model(a, b)` are those of `a` followed by those of
/// `b`.
pub proof fn lemma_concat_model_matches(a: RegModel, b: RegModel, w: Seq<Sym>)
    ensures
        matches(concat_model(a, b), w) <==> concat_words(a, b, w),
{
    if a is Epsilon {
        if matches(b, w) {
            assert(w.take(0) =~= Seq::<Sym>::empty());
            assert(w.skip(0) =~= w);
            assert(matches(a, w.take(0)));
        }
        if concat_words(a, b, w) {
            let i = choose|i: int| 0 <= i <= w.len() && #[trigger] matches(a, w.take(i)) && matches(b, w.skip(i));
            assert(w.take(i).len() == 0);
            assert(w.skip(i) =~= w);
        }
    } else if b is Epsilon {
        if matches(a, w) {
            assert(w.take(w.len() as int) =~= w);
            assert(w.skip(w.len() as int) =~= Seq::<Sym>::empty());
            assert(matches(b, w.skip(w.len() as int)));
        }
        if concat_words(a, b, w) {
            let i = choose|i: int| 0 <= i <= w.len() && #[trigger] matches(a, w.take(i)) && matches(b, w.skip(i));
            assert(w.skip(i).len() == 0);
            assert(w.take(i) =~= w);
        }
    } else {
        lemma_concat_matches(a, b, w);
    }
}

/// The words of `alter_model(a, b)` are those of `a` and those of `b`.
pub proof fn lemma_alter_model_matches(a: RegModel, b: RegModel, w: Seq<Sym>)
    ensures
        matches(alter_model(a, b), w) <==> (matches(a, w) || matches(b, w)),
{
}

/// `a` and `b` have the same words.
pub open spec fn same_words(a: RegModel, b: RegModel) -> bool {
    forall|w: Seq<Sym>| #![trigger matches(a, w)] #![trigger matches(b, w)] matches(a, w) <==> matches(b, w)
}

/// The concatenation that `concat_model` builds is associative in its words.
proof fn lemma_concat_model_assoc(a: RegModel, b: RegModel, c: RegModel)
    ensures
        same_words(concat_model(concat_model(a, b), c), concat_model(a, concat_model(b, c))),
{
    let l = concat_model(concat_model(a, b), c);
    let r = concat_model(a, concat_model(b, c));
    assert forall|w: Seq<Sym>| #[trigger] matches(l, w) <==> matches(r, w) by {
        lemma_concat_model_matches(concat_model(a, b), c, w);
        lemma_concat_model_matches(a, concat_model(b, c), w);
        if matches(l, w) {
            let i = choose|i: int| 0 <= i <= w.len() && #[trigger] matches(concat_model(a, b), w.take(i)) && matches(c, w.skip(i));
            let u = w.take(i);
            lemma_concat_model_matches(a, b, u);
            let j = choose|j: int| 0 <= j <= u.len() && #[trigger] matches(a, u.take(j)) && matches(b, u.skip(j));
            let v = w.skip(j);
            assert(u.take(j) =~= w.take(j));
            assert(v.take(i - j) =~= u.skip(j));
            assert(v.skip(i - j) =~= w.skip(i));
            assert(matches(b, v.take(i - j)));
            lemma_concat_model_matches(b, c, v);
            assert(matches(a, w.take(j)));
        }
        if matches(r, w) {
            let j = choose|j: int| 0 <= j <= w.len() && #[trigger] matches(a, w.take(j)) && matches(concat_model(b, c), w.skip(j));
            let v = w.skip(j);
            lemma_concat_model_matches(b, c, v);
            let k = choose|k: int| 0 <= k <= v.len() && #[trigger] matches(b, v.take(k)) && matches(c, v.skip(k));
            let u = w.take(j + k);
            assert(u.take(j) =~= w.take(j));
            assert(u.skip(j) =~= v.take(k));
            assert(v.skip(k) =~= w.skip(j + k));
            assert(matches(a, u.take(j)));
            lemma_concat_model_matches(a, b, u);
            assert(matches(concat_model(a, b), w.take(j + k)));
        }
    }
}

/// Replacing either side of a concatenation by one with the same words
/// keeps its words.
proof fn lemma_concat_model_congr(a: RegModel, a2: RegModel, b: RegModel, b2: RegModel)
    requires
        same_words(a, a2),
        same_words(b, b2),
    ensures
        same_words(concat_model(a, b), concat_model(a2, b2)),
{
    assert forall|w: Seq<Sym>| #[trigger] matches(concat_model(a, b), w) <==> matches(concat_model(a2, b2), w) by {
        lemma_concat_model_matches(a, b, w);
        lemma_concat_model_matches(a2, b2, w);
        if concat_words(a, b, w) {
            let i = choose|i: int| 0 <= i <= w.len() && #[trigger] matches(a, w.take(i)) && matches(b, w.skip(i));
            assert(matches(a2, w.take(i)) && matches(b2, w.skip(i)));
        }
        if concat_words(a2, b2, w) {
            let i = choose|i: int| 0 <= i <= w.len() && #[trigger] matches(a2, w.take(i)) && matches(b2, w.skip(i));
            assert(matches(a, w.take(i)) && matches(b, w.skip(i)));
        }
    }
}

/// A concatenation node has the words of the concatenation that
/// `concat_model` builds of its two sides.
proof fn lemma_concat_node_words(a: RegModel, b: RegModel)
    ensures
        same_words(RegModel::Concat(Box::new(a), Box::new(b)), concat_model(a, b)),
{
    assert forall|w: Seq<Sym>| #[trigger] matches(RegModel::Concat(Box::new(a), Box::new(b)), w) <==> matches(concat_model(a, b), w) by {
        lemma_concat_matches(a, b, w);
        lemma_concat_model_matches(a, b, w);
    }
}

/// Moving the common front of `a` and `b` onto `prefix` keeps the words of
/// the prefix followed by either side: `prefix a` and `prefix b` have the
/// words of the new prefix followed by the first remainder and the second.
pub proof fn law_alter_prefix_acc_words(prefix: RegModel, a: RegModel, b: RegModel)
    requires
        prefix_acc_model(prefix, a, b) is Some,
    ensures
        prefix_acc_model(prefix, a, b) matches Some((p1, x, y))
            && same_words(concat_model(prefix, a), concat_model(p1, x))
            && same_words(concat_model(prefix, b), concat_model(p1, y)),
    decreases a,
{
    if a == b {
    } else {
        match (a, b) {
            (RegModel::Concat(a1, a2), RegModel::Concat(b1, b2)) => {
                law_alter_prefix_acc_words(prefix, *a1, *b1);
                let (q, x1, y1) = prefix_acc_model(prefix, *a1, *b1).unwrap();
                lemma_concat_node_words(*a1, *a2);
                lemma_concat_node_words(*b1, *b2);
                lemma_concat_model_congr(prefix, prefix, a, concat_model(*a1, *a2));
                lemma_concat_model_congr(prefix, prefix, b, concat_model(*b1, *b2));
                lemma_concat_model_assoc(prefix, *a1, *a2);
                lemma_concat_model_assoc(prefix, *b1, *b2);
                lemma_concat_model_congr(concat_model(prefix, *a1), concat_model(q, x1), *a2, *a2);
                lemma_concat_model_congr(concat_model(prefix, *b1), concat_model(q, y1), *b2, *b2);
                lemma_concat_model_assoc(q, x1, *a2);
                lemma_concat_model_assoc(q, y1, *b2);
                if x1 is Epsilon && y1 is Epsilon {
                    law_alter_prefix_acc_words(q, *a2, *b2);
                }
            },
            _ => {},
        }
    }
}

/// Moving the common back of `a` and `b` in front of `postfix` keeps the
/// words of either side followed by the postfix: `a postfix` and
/// `b postfix` have the words of the first remainder and the second
/// followed by the new postfix.
pub proof fn law_alter_post_acc_words(a: RegModel, b: RegModel, postfix: RegModel)
    requires
        post_acc_model(a, b, postfix) is Some,
    ensures
        post_acc_model(a, b, postfix) matches Some((x, y, p1))
            && same_words(concat_model(a, postfix), concat_model(x, p1))
            && same_words(concat_model(b, postfix), concat_model(y, p1)),
    decreases a,
{
    if a == b {
    } else {
        match (a, b) {
            (RegModel::Concat(a1, a2), RegModel::Concat(b1, b2)) => {
                law_alter_post_acc_words(*a2, *b2, postfix);
                let (x2, y2, q) = post_acc_model(*a2, *b2, postfix).unwrap();
                lemma_concat_node_words(*a1, *a2);
                lemma_concat_node_words(*b1, *b2);
                lemma_concat_model_congr(a, concat_model(*a1, *a2), postfix, postfix);
                lemma_concat_model_congr(b, concat_model(*b1, *b2), postfix, postfix);
                lemma_concat_model_assoc(*a1, *a2, postfix);
                lemma_concat_model_assoc(*b1, *b2, postfix);
                lemma_concat_model_congr(*a1, *a1, concat_model(*a2, postfix), concat_model(x2, q));
                lemma_concat_model_congr(*b1, *b1, concat_model(*b2, postfix), concat_model(y2, q));
                lemma_concat_model_assoc(*a1, x2, q);
                lemma_concat_model_assoc(*b1, y2, q);
                if x2 is Epsilon && y2 is Epsilon {
                    law_alter_post_acc_words(*a1, *b1, q);
                }
            },
            _ => {},
        }
    }
}

/// The two remainders that `alter_prefix_acc` leaves are empty together,
/// and exactly where the two sides were equal.
pub proof fn law_alter_prefix_acc_remainders(prefix: RegModel, a: RegModel, b: RegModel)
    requires
        prefix_acc_model(prefix, a, b) is Some,
    ensures
        prefix_acc_model(prefix, a, b) matches Some((p1, x, y))
            && (x is Epsilon <==> y is Epsilon)
            && (x is Epsilon <==> a == b),
    decreases a,
{
    if a != b {
        match (a, b) {
            (RegModel::Concat(a1, a2), RegModel::Concat(b1, b2)) => {
                law_alter_prefix_acc_remainders(prefix, *a1, *b1);
                let (q, x1, y1) = prefix_acc_model(prefix, *a1, *b1).unwrap();
                if x1 is Epsilon && y1 is Epsilon {
                    law_alter_prefix_acc_remainders(q, *a2, *b2);
                }
            },
            _ => {},
        }
    }
}

/// The two remainders that `alter_post_acc` leaves are empty together, and
/// exactly where the two sides were equal.
pub proof fn law_alter_post_acc_remainders(a: RegModel, b: RegModel, postfix: RegModel)
    requires
        post_acc_model(a, b, postfix) is Some,
    ensures
        post_acc_model(a, b, postfix) matches Some((x, y, p1))
            && (x is Epsilon <==> y is Epsilon)
            && (x is Epsilon <==> a == b),
    decreases a,
{
    if a != b {
        match (a, b) {
            (RegModel::Concat(a1, a2), RegModel::Concat(b1, b2)) => {
                law_alter_post_acc_remainders(*a2, *b2, postfix);
                let (x2, y2, q) = post_acc_model(*a2, *b2, postfix).unwrap();
                if x2 is Epsilon && y2 is Epsilon {
                    law_alter_post_acc_remainders(*a1, *b1, q);
                }
            },
            _ => {},
        }
    }
}

/// Every concatenation along the left and right spines of `r` joins two
/// expressions that are not empty, as `RegExp::concat` builds them.
pub open spec fn concat_normal(r: RegModel) -> bool
    decreases r,
{
    match r {
        RegModel::Concat(a, b) => !(*a is Epsilon) && !(*b is Epsilon) && concat_normal(*a) && concat_normal(*b),
        _ => true,
    }
}

/// The front that `alter_prefix_acc` moves out is as long as it can be:
/// unless both remainders are empty, they differ, and they do not both
/// start with the same part.
pub proof fn law_alter_prefix_acc_maximal(prefix: RegModel, a: RegModel, b: RegModel)
    requires
        prefix_acc_model(prefix, a, b) is Some,
        concat_normal(a),
        concat_normal(b),
    ensures
        prefix_acc_model(prefix, a, b) matches Some((p1, x, y)) && (!(x is Epsilon && y is Epsilon) ==> {
            &&& x != y
            &&& !(x is Epsilon) && !(y is Epsilon)
            &&& !(x matches RegModel::Concat(x1, _) && y matches RegModel::Concat(y1, _) && x1 == y1)
        }),
    decreases a,
{
    if a != b {
        match (a, b) {
            (RegModel::Concat(a1, a2), RegModel::Concat(b1, b2)) => {
                law_alter_prefix_acc_maximal(prefix, *a1, *b1);
                let (q, x1, y1) = prefix_acc_model(prefix, *a1, *b1).unwrap();
                if x1 is Epsilon && y1 is Epsilon {
                    law_alter_prefix_acc_maximal(q, *a2, *b2);
                }
            },
            _ => {},
        }
    }
}

/// The back that `alter_post_acc` moves out is as long as it can be:
/// unless both remainders are empty, they differ, and they do not both end
/// with the same part.
pub proof fn law_alter_post_acc_maximal(a: RegModel, b: RegModel, postfix: RegModel)
    requires
        post_acc_model(a, b, postfix) is Some,
        concat_normal(a),
        concat_normal(b),
    ensures
        post_acc_model(a, b, postfix) matches Some((x, y, p1)) && (!(x is Epsilon && y is Epsilon) ==> {
            &&& x != y
            &&& !(x is Epsilon) && !(y is Epsilon)
            &&& !(x matches RegModel::Concat(_, x2) && y matches RegModel::Concat(_, y2) && x2 == y2)
        }),
    decreases a,
{
    if a != b {
        match (a, b) {
            (RegModel::Concat(a1, a2), RegModel::Concat(b1, b2)) => {
                law_alter_post_acc_maximal(*a2, *b2, postfix);
                let (x2, y2, q) = post_acc_model(*a2, *b2, postfix).unwrap();
                if x2 is Epsilon && y2 is Epsilon {
                    law_alter_post_acc_maximal(*a1, *b1, q);
                }
            },
            _ => {},
        }
    }
}

/// There is a walk of `len` arrows of `m` from `p` to `q`, through nodes
/// below `n`, whose arrows read `w` in turn.
pub open spec fn walk(m: Map<(usize, usize), RegModel>, n: nat, p: usize, q: usize, w: Seq<Sym>, len: nat) -> bool
    decreases len, 2nat, 0nat, 0nat,
{
    if len == 0 {
        p == q && w.len() == 0
    } else {
        step_below(m, n, p, q, w, len, n)
    }
}

/// A walk of `len` arrows whose first arrow goes to a node below `r`.
pub open spec fn step_below(m: Map<(usize, usize), RegModel>, n: nat, p: usize, q: usize, w: Seq<Sym>, len: nat, r: nat) -> bool
    decreases len, 1nat, r, 0nat,
{
    r > 0 && (step_at(m, n, p, q, w, len, (r - 1) as usize, w.len()) || step_below(m, n, p, q, w, len, (r - 1) as nat))
}

/// A walk of `len` arrows whose first arrow goes to `r` and reads a front
/// part of `w` at most `i` long.
pub open spec fn step_at(m: Map<(usize, usize), RegModel>, n: nat, p: usize, q: usize, w: Seq<Sym>, len: nat, r: usize, i: nat) -> bool
    decreases len, 0nat, 0nat, i,
{
    len > 0 && (
        (i <= w.len() && m.contains_key((p, r)) && matches(m[(p, r)], w.take(i as int))
            && walk(m, n, r, q, w.skip(i as int), (len - 1) as nat))
        || (i > 0 && step_at(m, n, p, q, w, len, r, (i - 1) as nat)))
}

proof fn lemma_step_at_intro(m: Map<(usize, usize), RegModel>, n: nat, p: usize, q: usize, w: Seq<Sym>, len: nat, r: usize, j: nat, i: nat)
    requires
        len > 0,
        j <= i,
        j <= w.len(),
        m.contains_key((p, r)),
        matches(m[(p, r)], w.take(j as int)),
        walk(m, n, r, q, w.skip(j as int), (len - 1) as nat),
    ensures
        step_at(m, n, p, q, w, len, r, i),
    decreases i,
{
    if i > j {
        lemma_step_at_intro(m, n, p, q, w, len, r, j, (i - 1) as nat);
    }
}

proof fn lemma_step_below_intro(m: Map<(usize, usize), RegModel>, n: nat, p: usize, q: usize, w: Seq<Sym>, len: nat, r: usize, k: nat)
    requires
        r < k,
        step_at(m, n, p, q, w, len, r, w.len()),
    ensures
        step_below(m, n, p, q, w, len, k),
    decreases k,
{
    if k - 1 != r {
        lemma_step_below_intro(m, n, p, q, w, len, r, (k - 1) as nat);
    }
}

proof fn lemma_step_at_elim(m: Map<(usize, usize), RegModel>, n: nat, p: usize, q: usize, w: Seq<Sym>, len: nat, r: usize, i: nat) -> (j: nat)
    requires
        step_at(m, n, p, q, w, len, r, i),
    ensures
        len > 0,
        j <= w.len(),
        m.contains_key((p, r)),
        matches(m[(p, r)], w.take(j as int)),
        walk(m, n, r, q, w.skip(j as int), (len - 1) as nat),
    decreases i,
{
    if i <= w.len() && m.contains_key((p, r)) && matches(m[(p, r)], w.take(i as int))
        && walk(m, n, r, q, w.skip(i as int), (len - 1) as nat) {
        i
    } else {
        lemma_step_at_elim(m, n, p, q, w, len, r, (i - 1) as nat)
    }
}

proof fn lemma_step_below_elim(m: Map<(usize, usize), RegModel>, n: nat, p: usize, q: usize, w: Seq<Sym>, len: nat, k: nat) -> (r: usize)
    requires
        step_below(m, n, p, q, w, len, k),
    ensures
        r < k,
        step_at(m, n, p, q, w, len, r, w.len()),
    decreases k,
{
    if step_at(m, n, p, q, w, len, (k - 1) as usize, w.len()) {
        (k - 1) as usize
    } else {
        lemma_step_below_elim(m, n, p, q, w, len, (k - 1) as nat)
    }
}

/// The first arrow of a walk: to `r`, reading `w.take(i)`.
pub proof fn walk_first(m: Map<(usize, usize), RegModel>, n: nat, p: usize, q: usize, w: Seq<Sym>, len: nat) -> (ri: (usize, nat))
    requires
        walk(m, n, p, q, w, len),
        len > 0,
    ensures
        ri.0 < n,
        ri.1 <= w.len(),
        m.contains_key((p, ri.0)),
        matches(m[(p, ri.0)], w.take(ri.1 as int)),
        walk(m, n, ri.0, q, w.skip(ri.1 as int), (len - 1) as nat),
{
    let r = lemma_step_below_elim(m, n, p, q, w, len, n);
    let i = lemma_step_at_elim(m, n, p, q, w, len, r, w.len());
    (r, i)
}

/// An arrow to `r` reading `w.take(i)` and a walk from `r` reading the rest
/// make a walk.
pub proof fn walk_step(m: Map<(usize, usize), RegModel>, n: nat, p: usize, r: usize, q: usize, w: Seq<Sym>, i: nat, len: nat)
    requires
        r < n,
        i <= w.len(),
        m.contains_key((p, r)),
        matches(m[(p, r)], w.take(i as int)),
        walk(m, n, r, q, w.skip(i as int), len),
    ensures
        walk(m, n, p, q, w, len + 1),
{
    lemma_step_at_intro(m, n, p, q, w, len + 1, r, i, w.len());
    lemma_step_below_intro(m, n, p, q, w, len + 1, r, n);
}

/// A walk that one arrow makes.
proof fn lemma_walk_one(m: Map<(usize, usize), RegModel>, n: nat, p: usize, q: usize, u: Seq<Sym>)
    requires
        q < n,
        m.contains_key((p, q)),
        matches(m[(p, q)], u),
    ensures
        walk(m, n, p, q, u, 1),
{
    assert(u.take(u.len() as int) =~= u);
    assert(u.skip(u.len() as int) =~= Seq::<Sym>::empty());
    assert(walk(m, n, q, q, u.skip(u.len() as int), 0));
    walk_step(m, n, p, q, q, u, u.len(), 0);
}

/// Two walks, one after the other, make a walk.
proof fn lemma_walk_join(m: Map<(usize, usize), RegModel>, n: nat, a: usize, b: usize, c: usize, w1: Seq<Sym>, n1: nat, w2: Seq<Sym>, n2: nat)
    requires
        walk(m, n, a, b, w1, n1),
        walk(m, n, b, c, w2, n2),
    ensures
        walk(m, n, a, c, w1 + w2, n1 + n2),
    decreases n1,
{
    if n1 == 0 {
        assert(w1 + w2 =~= w2);
    } else {
        let (r, i) = walk_first(m, n, a, b, w1, n1);
        lemma_walk_join(m, n, r, b, c, w1.skip(i as int), (n1 - 1) as nat, w2, n2);
        let w = w1 + w2;
        assert(w.take(i as int) =~= w1.take(i as int));
        assert(w.skip(i as int) =~= w1.skip(i as int) + w2);
        walk_step(m, n, a, r, c, w, i, (n1 - 1 + n2) as nat);
    }
}

/// `u` is read by going round the loop at `s` (only the empty word where
/// there is no loop).
pub open spec fn loops(m: Map<(usize, usize), RegModel>, s: usize, u: Seq<Sym>) -> bool {
    if m.contains_key((s, s)) {
        matches(RegModel::Star(Box::new(m[(s, s)])), u)
    } else {
        u.len() == 0
    }
}

/// `u` is read by going round the loop at `s` and then along the arrow from
/// `s` to `t`.
pub open spec fn loop_then(m: Map<(usize, usize), RegModel>, s: usize, t: usize, u: Seq<Sym>) -> bool {
    exists|j: int| 0 <= j <= u.len() && #[trigger] loops(m, s, u.take(j)) && matches(m[(s, t)], u.skip(j))
}

/// The words of the way from `p` through `s` to `q` are a word of the arrow
/// into `s` followed by a word of the loops at `s` and of the arrow out.
proof fn lemma_route_matches(m: Map<(usize, usize), RegModel>, s: usize, p: usize, q: usize, w: Seq<Sym>)
    ensures
        matches(route(m, s, p, q), w) <==> exists|i: int| 0 <= i <= w.len() && #[trigger] matches(m[(p, s)], w.take(i)) && loop_then(m, s, q, w.skip(i)),
{
    let l = m[(p, s)];
    let rt = m[(s, q)];
    if m.contains_key((s, s)) {
        let st = RegModel::Star(Box::new(m[(s, s)]));
        lemma_concat_model_matches(l, concat_model(st, rt), w);
        assert forall|u: Seq<Sym>| matches(concat_model(st, rt), u) <==> loop_then(m, s, q, u) by {
            lemma_concat_model_matches(st, rt, u);
            if loop_then(m, s, q, u) {
                let j = choose|j: int| 0 <= j <= u.len() && #[trigger] loops(m, s, u.take(j)) && matches(m[(s, q)], u.skip(j));
                assert(matches(st, u.take(j)));
            }
            if concat_words(st, rt, u) {
                let j = choose|j: int| 0 <= j <= u.len() && #[trigger] matches(st, u.take(j)) && matches(rt, u.skip(j));
                assert(loops(m, s, u.take(j)));
            }
        }
        if matches(route(m, s, p, q), w) {
            let i = choose|i: int| 0 <= i <= w.len() && #[trigger] matches(l, w.take(i)) && matches(concat_model(st, rt), w.skip(i));
            assert(loop_then(m, s, q, w.skip(i)));
        }
        if exists|i: int| 0 <= i <= w.len() && #[trigger] matches(m[(p, s)], w.take(i)) && loop_then(m, s, q, w.skip(i)) {
            let i = choose|i: int| 0 <= i <= w.len() && #[trigger] matches(m[(p, s)], w.take(i)) && loop_then(m, s, q, w.skip(i));
            assert(matches(concat_model(st, rt), w.skip(i)));
        }
    } else {
        lemma_concat_model_matches(l, rt, w);
        assert forall|u: Seq<Sym>| matches(rt, u) <==> loop_then(m, s, q, u) by {
            if matches(rt, u) {
                assert(u.take(0) =~= Seq::<Sym>::empty());
                assert(u.skip(0) =~= u);
                assert(loops(m, s, u.take(0)));
            }
            if loop_then(m, s, q, u) {
                let j = choose|j: int| 0 <= j <= u.len() && #[trigger] loops(m, s, u.take(j)) && matches(m[(s, q)], u.skip(j));
                assert(u.skip(j) =~= u);
            }
        }
        if matches(route(m, s, p, q), w) {
            let i = choose|i: int| 0 <= i <= w.len() && #[trigger] matches(l, w.take(i)) && matches(rt, w.skip(i));
            assert(loop_then(m, s, q, w.skip(i)));
        }
        if exists|i: int| 0 <= i <= w.len() && #[trigger] matches(m[(p, s)], w.take(i)) && loop_then(m, s, q, w.skip(i)) {
            let i = choose|i: int| 0 <= i <= w.len() && #[trigger] matches(m[(p, s)], w.take(i)) && loop_then(m, s, q, w.skip(i));
            assert(matches(rt, w.skip(i)));
        }
    }
}

/// A word of the loops at `s` is read by a walk from `s` round to `s`.
proof fn lemma_loops_walk(m: Map<(usize, usize), RegModel>, n: nat, s: usize, u: Seq<Sym>) -> (k: nat)
    requires
        s < n,
        loops(m, s, u),
    ensures
        walk(m, n, s, s, u, k),
    decreases u.len(),
{
    if u.len() == 0 {
        0
    } else {
        let a = m[(s, s)];
        let i = star_first(a, u);
        let k = lemma_loops_walk(m, n, s, u.skip(i as int));
        lemma_walk_one(m, n, s, s, u.take(i as int));
        lemma_walk_join(m, n, s, s, s, u.take(i as int), 1, u.skip(i as int), k);
        assert(u.take(i as int) + u.skip(i as int) =~= u);
        1 + k
    }
}

/// A walk from `s` to another node first goes round the loop at `s`, then
/// along an arrow to some other node `t`, and on from there.
proof fn lemma_leave(m: Map<(usize, usize), RegModel>, n: nat, s: usize, q: usize, v: Seq<Sym>, len: nat) -> (res: (nat, usize, nat))
    requires
        walk(m, n, s, q, v, len),
        q != s,
    ensures
        res.0 <= v.len(),
        res.1 < n,
        res.1 != s,
        m.contains_key((s, res.1)),
        loop_then(m, s, res.1, v.take(res.0 as int)),
        walk(m, n, res.1, q, v.skip(res.0 as int), res.2),
        res.2 < len,
    decreases len,
{
    let (r, i) = walk_first(m, n, s, q, v, len);
    if r != s {
        let u = v.take(i as int);
        assert(u.take(0) =~= Seq::<Sym>::empty());
        assert(u.skip(0) =~= u);
        assert(loops(m, s, u.take(0)));
        assert(loop_then(m, s, r, u));
        (i, r, (len - 1) as nat)
    } else {
        let v1 = v.skip(i as int);
        let (j1, t, len2) = lemma_leave(m, n, s, q, v1, (len - 1) as nat);
        let u1 = v1.take(j1 as int);
        let k = choose|k: int| 0 <= k <= u1.len() && #[trigger] loops(m, s, u1.take(k)) && matches(m[(s, t)], u1.skip(k));
        let j = i + j1;
        let u = v.take(j as int);
        assert(u.take(i as int) =~= v.take(i as int));
        assert(u.take(i + k) =~= v.take(i as int) + u1.take(k));
        assert(u.skip(i + k) =~= u1.skip(k));
        star_step(m[(s, s)], v.take(i as int), u1.take(k));
        assert(loops(m, s, u.take(i + k)));
        assert(loop_then(m, s, t, u));
        assert(v.skip(j as int) =~= v1.skip(j1 as int));
        (j, t, len2)
    }
}

/// A walk that avoids `s` at its ends reads, in the automaton where the ways
/// through `s` are bypassed, the same word.
proof fn lemma_bypass_complete(m: Map<(usize, usize), RegModel>, n: nat, s: usize, p: usize, q: usize, w: Seq<Sym>, len: nat) -> (l: nat)
    requires
        walk(m, n, p, q, w, len),
        p != s,
        q != s,
    ensures
        walk(bypassed(m, s), n, p, q, w, l),
    decreases len,
{
    let m1 = bypassed(m, s);
    if len == 0 {
        0
    } else {
        let (r, i) = walk_first(m, n, p, q, w, len);
        if r != s {
            let l1 = lemma_bypass_complete(m, n, s, r, q, w.skip(i as int), (len - 1) as nat);
            assert(m1.contains_key((p, r)));
            if contributes(m, s, p, r) {
                lemma_alter_model_matches(m[(p, r)], route(m, s, p, r), w.take(i as int));
            }
            walk_step(m1, n, p, r, q, w, i, l1);
            l1 + 1
        } else {
            let v = w.skip(i as int);
            let (j, t, len2) = lemma_leave(m, n, s, q, v, (len - 1) as nat);
            let u = w.take((i + j) as int);
            lemma_route_matches(m, s, p, t, u);
            assert(u.take(i as int) =~= w.take(i as int));
            assert(u.skip(i as int) =~= v.take(j as int));
            assert(matches(route(m, s, p, t), u));
            assert(contributes(m, s, p, t));
            assert(m1.contains_key((p, t)));
            if m.contains_key((p, t)) {
                lemma_alter_model_matches(m[(p, t)], route(m, s, p, t), u);
            }
            assert(matches(m1[(p, t)], u));
            assert(w.skip((i + j) as int) =~= v.skip(j as int));
            let l1 = lemma_bypass_complete(m, n, s, t, q, w.skip((i + j) as int), len2);
            walk_step(m1, n, p, t, q, w, i + j, l1);
            l1 + 1
        }
    }
}

/// A walk in the automaton where the ways through `s` are bypassed reads a
/// word that a walk of the automaton reads.
proof fn lemma_bypass_sound(m: Map<(usize, usize), RegModel>, n: nat, s: usize, p: usize, q: usize, w: Seq<Sym>, len: nat) -> (l: nat)
    requires
        walk(bypassed(m, s), n, p, q, w, len),
        s < n,
    ensures
        walk(m, n, p, q, w, l),
    decreases len,
{
    let m1 = bypassed(m, s);
    if len == 0 {
        0
    } else {
        let (r, i) = walk_first(m1, n, p, q, w, len);
        let rest = w.skip(i as int);
        let l1 = lemma_bypass_sound(m, n, s, r, q, rest, (len - 1) as nat);
        let u = w.take(i as int);
        if contributes(m, s, p, r) && !(m.contains_key((p, r)) && matches(m[(p, r)], u)) {
            if m.contains_key((p, r)) {
                lemma_alter_model_matches(m[(p, r)], route(m, s, p, r), u);
            }
            assert(matches(route(m, s, p, r), u));
            lemma_route_matches(m, s, p, r, u);
            let i1 = choose|i1: int| 0 <= i1 <= u.len() && #[trigger] matches(m[(p, s)], u.take(i1)) && loop_then(m, s, r, u.skip(i1));
            let u1 = u.take(i1);
            let u2 = u.skip(i1);
            let j = choose|j: int| 0 <= j <= u2.len() && #[trigger] loops(m, s, u2.take(j)) && matches(m[(s, r)], u2.skip(j));
            lemma_walk_one(m, n, p, s, u1);
            let k = lemma_loops_walk(m, n, s, u2.take(j));
            lemma_walk_one(m, n, s, r, u2.skip(j));
            lemma_walk_join(m, n, p, s, s, u1, 1, u2.take(j), k);
            lemma_walk_join(m, n, p, s, r, u1 + u2.take(j), 1 + k, u2.skip(j), 1);
            assert(u1 + u2.take(j) + u2.skip(j) =~= u);
            lemma_walk_join(m, n, p, r, q, u, 2 + k, rest, l1);
            assert(u + rest =~= w);
            2 + k + l1
        } else {
            assert(m.contains_key((p, r)) && matches(m[(p, r)], u));
            walk_step(m, n, p, r, q, w, i, l1);
            l1 + 1
        }
    }
}

/// A walk of the automaton with `s` ripped out is, with the indices as they
/// were before, a walk where the ways through `s` are bypassed.
proof fn lemma_ripped_walk_back(st: GnfaState, s: usize, a: usize, b: usize, w: Seq<Sym>, len: nat)
    requires
        walk(ripped(st, s).arrows, (st.n - 1) as nat, a, b, w, len),
        s < st.n,
    ensures
        walk(bypassed(st.arrows, s), st.n, unmoved(a, s, st.n), unmoved(b, s, st.n), w, len),
    decreases len,
{
    if len > 0 {
        let rm = ripped(st, s).arrows;
        let (r, i) = walk_first(rm, (st.n - 1) as nat, a, b, w, len);
        lemma_ripped_walk_back(st, s, r, b, w.skip(i as int), (len - 1) as nat);
        walk_step(bypassed(st.arrows, s), st.n, unmoved(a, s, st.n), unmoved(r, s, st.n), unmoved(b, s, st.n), w, i, (len - 1) as nat);
    }
}

/// A walk where the ways through `s` are bypassed, from a node other than
/// `s`, is, with the indices moved, a walk of the automaton with `s` ripped
/// out.
proof fn lemma_ripped_walk_forth(st: GnfaState, s: usize, a: usize, b: usize, w: Seq<Sym>, len: nat)
    requires
        walk(bypassed(st.arrows, s), st.n, a, b, w, len),
        s < st.n,
        a < st.n,
        a != s,
    ensures
        walk(ripped(st, s).arrows, (st.n - 1) as nat, moved(a, s, st.n), moved(b, s, st.n), w, len),
    decreases len,
{
    if len > 0 {
        let m1 = bypassed(st.arrows, s);
        let (r, i) = walk_first(m1, st.n, a, b, w, len);
        lemma_ripped_walk_forth(st, s, r, b, w.skip(i as int), (len - 1) as nat);
        let ar = (moved(a, s, st.n), moved(r, s, st.n));
        assert(unmoved(ar.0, s, st.n) == a && unmoved(ar.1, s, st.n) == r);
        assert(ripped(st, s).arrows.contains_key(ar));
        walk_step(ripped(st, s).arrows, (st.n - 1) as nat, ar.0, ar.1, moved(b, s, st.n), w, i, (len - 1) as nat);
    }
}

/// The start and the accepting state are two states of the automaton.
pub open spec fn state_ok(st: GnfaState) -> bool {
    &&& st.start < st.n
    &&& st.accept < st.n
    &&& st.start != st.accept
}

/// `w` is a word of the automaton: some walk from its start to its accepting
/// state reads it.
pub open spec fn accepts(st: GnfaState, w: Seq<Sym>) -> bool {
    exists|len: nat| #[trigger] walk(st.arrows, st.n, st.start, st.accept, w, len)
}

/// Ripping out a state other than the start and the accepting one keeps the
/// words of the automaton.
proof fn lemma_rip_language(st: GnfaState, s: usize, w: Seq<Sym>)
    requires
        state_ok(st),
        s < st.n,
        s != st.start,
        s != st.accept,
    ensures
        accepts(ripped(st, s), w) <==> accepts(st, w),
        state_ok(ripped(st, s)),
{
    let rs = ripped(st, s);
    if accepts(st, w) {
        let len = choose|len: nat| #[trigger] walk(st.arrows, st.n, st.start, st.accept, w, len);
        let l1 = lemma_bypass_complete(st.arrows, st.n, s, st.start, st.accept, w, len);
        lemma_ripped_walk_forth(st, s, st.start, st.accept, w, l1);
        assert(walk(rs.arrows, rs.n, rs.start, rs.accept, w, l1));
    }
    if accepts(rs, w) {
        let len = choose|len: nat| #[trigger] walk(rs.arrows, rs.n, rs.start, rs.accept, w, len);
        lemma_ripped_walk_back(st, s, rs.start, rs.accept, w, len);
        assert(unmoved(rs.start, s, st.n) == st.start);
        assert(unmoved(rs.accept, s, st.n) == st.accept);
        let l1 = lemma_bypass_sound(st.arrows, st.n, s, st.start, st.accept, w, len);
        assert(walk(st.arrows, st.n, st.start, st.accept, w, l1));
    }
}

/// State elimination keeps the words of an automaton.
proof fn lemma_eliminate_language(st: GnfaState, w: Seq<Sym>)
    requires
        state_ok(st),
        eliminate(st) is Some,
    ensures
        accepts(eliminate(st).unwrap(), w) <==> accepts(st, w),
    decreases st.n,
{
    if st.n > 2 {
        let s = next_rip(st);
        lemma_rip_language(st, s, w);
        lemma_eliminate_language(ripped(st, s), w);
    }
}

/// State elimination, which `GNFA::reduce` carries out, leaves an automaton
/// that accepts exactly the words that the automaton accepted before.
pub proof fn law_eliminate_keeps_language(st: GnfaState, w: Seq<Sym>)
    requires
        state_ok(st),
        eliminate(st) is Some,
    ensures
        accepts(eliminate(st).unwrap(), w) <==> accepts(st, w),
{
    lemma_eliminate_language(st, w);
}

/// What `GNFA::reduce` leaves of a well-formed automaton (the automaton
/// that state elimination gives) accepts exactly the words that the
/// automaton accepted before: the language does not change.
pub proof fn law_reduce_keeps_language(g: &GNFA, w: Seq<Sym>)
    requires
        g.wf(),
        eliminate(g.state()) is Some,
    ensures
        accepts(eliminate(g.state()).unwrap(), w) <==> accepts(g.state(), w),
{
    g.lemma_wf_ends();
    lemma_eliminate_language(g.state(), w);
}

/// The word of a node: its block, its call, or nothing for a call outside
/// the program.
pub open spec fn node_word(n: Node) -> Seq<Sym> {
    match n {
        Node::Literal(b) => seq![Sym::Block(b)],
        Node::Var(f) => seq![Sym::Call(f)],
        Node::Extern => seq![],
    }
}

/// The word of the nodes `vs`, in turn.
pub open spec fn path_word(nodes: Seq<Node>, vs: Seq<usize>) -> Seq<Sym>
    decreases vs.len(),
{
    if vs.len() == 0 {
        seq![]
    } else {
        node_word(nodes[vs[0] as int]) + path_word(nodes, vs.drop_first())
    }
}

/// Some edge of `es` goes from `a` to `b`.
pub open spec fn has_edge(es: Seq<(usize, usize)>, a: usize, b: usize) -> bool {
    exists|i: int| 0 <= i < es.len() && es[i] == (a, b)
}

/// Node `k` of `vs` and the next one are joined by an edge.
pub open spec fn path_step(es: Seq<(usize, usize)>, vs: Seq<usize>, k: int) -> bool {
    has_edge(es, vs[k], vs[k + 1])
}

/// `vs` is a path of the graph from `a` to a node of `ends`.
pub open spec fn is_path(es: Seq<(usize, usize)>, vs: Seq<usize>, a: usize, ends: Set<usize>) -> bool {
    &&& vs.len() >= 1
    &&& vs[0] == a
    &&& ends.contains(vs.last())
    &&& forall|k: int| 0 <= k < vs.len() - 1 ==> #[trigger] path_step(es, vs, k)
}

/// `w` is the word of some path of the graph from `entry` to a node of
/// `ends`.
pub open spec fn path_language(nodes: Seq<Node>, es: Seq<(usize, usize)>, entry: usize, ends: Set<usize>, w: Seq<Sym>) -> bool {
    exists|vs: Seq<usize>| #[trigger] is_path(es, vs, entry, ends) && path_word(nodes, vs) == w
}

/// The words of the expression of a node are the node's word.
proof fn lemma_node_re_matches(n: Node, u: Seq<Sym>)
    ensures
        matches(node_re(n), u) <==> u == node_word(n),
{
    match n {
        Node::Extern => {
            if u.len() == 0 {
                assert(u =~= Seq::<Sym>::empty());
            }
        },
        _ => {},
    }
}

/// The arrows of `m` out of nodes below `n0` are the edges of the graph,
/// each carrying the expression of the node it enters.
pub open spec fn edges_as_arrows(m: Map<(usize, usize), RegModel>, nodes: Seq<Node>, es: Seq<(usize, usize)>) -> bool {
    &&& forall|a: usize, b: usize| #[trigger] has_edge(es, a, b) ==> m.contains_key((a, b)) && m[(a, b)] == node_re(nodes[b as int])
}

/// A path of the graph is read by a walk along the arrows of its edges.
proof fn lemma_path_walk(m: Map<(usize, usize), RegModel>, n: nat, nodes: Seq<Node>, es: Seq<(usize, usize)>, vs: Seq<usize>, b: usize)
    requires
        edges_as_arrows(m, nodes, es),
        forall|i: int| 0 <= i < es.len() ==> #[trigger] es[i].1 < n,
        is_path(es, vs, vs[0], set![b]),
    ensures
        walk(m, n, vs[0], b, path_word(nodes, vs.drop_first()), (vs.len() - 1) as nat),
    decreases vs.len(),
{
    if vs.len() == 1 {
        assert(vs.drop_first().len() == 0);
        assert(set![b].contains(vs.last()));
    } else {
        let vs1 = vs.drop_first();
        assert(path_step(es, vs, 0));
        assert(has_edge(es, vs[0], vs[1]));
        let i = choose|i: int| 0 <= i < es.len() && es[i] == (vs[0], vs[1]);
        assert(es[i].1 < n);
        assert forall|k: int| 0 <= k < vs1.len() - 1 implies #[trigger] path_step(es, vs1, k) by {
            assert(path_step(es, vs, k + 1));
        }
        assert(vs1.last() == vs.last());
        lemma_path_walk(m, n, nodes, es, vs1, b);
        let u = node_word(nodes[vs[1] as int]);
        let rest = path_word(nodes, vs1.drop_first());
        let w = path_word(nodes, vs1);
        assert(w == u + rest);
        assert(w.take(u.len() as int) =~= u);
        assert(w.skip(u.len() as int) =~= rest);
        lemma_node_re_matches(nodes[vs[1] as int], u);
        walk_step(m, n, vs[0], vs[1], b, w, u.len(), (vs1.len() - 1) as nat);
    }
}

/// Every arrow of `m` out of a node below `n0` is an edge of the graph,
/// carrying the expression of the node it enters.
pub open spec fn arrows_are_edges(m: Map<(usize, usize), RegModel>, nodes: Seq<Node>, es: Seq<(usize, usize)>, n0: nat) -> bool {
    forall|a: usize, r: usize| a < n0 && #[trigger] m.contains_key((a, r)) ==> has_edge(es, a, r) && m[(a, r)] == node_re(nodes[r as int])
}

/// Every edge joins two nodes below `n0`.
pub open spec fn edges_below(es: Seq<(usize, usize)>, n0: nat) -> bool {
    forall|i: int| #![trigger es[i]] 0 <= i < es.len() ==> es[i].0 < n0 && es[i].1 < n0
}

/// A walk along edges of the graph follows a path of the graph.
proof fn lemma_walk_path(m: Map<(usize, usize), RegModel>, n: nat, nodes: Seq<Node>, es: Seq<(usize, usize)>, n0: nat, a: usize, b: usize, w: Seq<Sym>, len: nat) -> (vs: Seq<usize>)
    requires
        arrows_are_edges(m, nodes, es, n0),
        edges_below(es, n0),
        walk(m, n, a, b, w, len),
        a < n0,
    ensures
        is_path(es, vs, a, set![b]),
        path_word(nodes, vs.drop_first()) == w,
    decreases len,
{
    if len == 0 {
        let vs = seq![a];
        assert(vs.drop_first() =~= Seq::<usize>::empty());
        assert(w =~= Seq::<Sym>::empty());
        vs
    } else {
        let (r, i) = walk_first(m, n, a, b, w, len);
        assert(has_edge(es, a, r));
        let k = choose|k: int| 0 <= k < es.len() && es[k] == (a, r);
        assert(es[k].1 < n0);
        lemma_node_re_matches(nodes[r as int], w.take(i as int));
        let vs1 = lemma_walk_path(m, n, nodes, es, n0, r, b, w.skip(i as int), (len - 1) as nat);
        let vs = seq![a] + vs1;
        assert(vs.drop_first() =~= vs1);
        assert forall|j: int| 0 <= j < vs.len() - 1 implies #[trigger] path_step(es, vs, j) by {
            if j > 0 {
                assert(path_step(es, vs1, j - 1));
                assert(vs[j] == vs1[j - 1] && vs[j + 1] == vs1[j]);
            }
        }
        assert(vs.last() == vs1.last());
        assert(path_word(nodes, vs1) == w.take(i as int) + w.skip(i as int));
        assert(w.take(i as int) + w.skip(i as int) =~= w);
        vs
    }
}

/// A walk to the added accepting state `x`, along edges of the graph and
/// then an empty arrow out of a node without a way out, follows a path of
/// the graph to such a node.
proof fn lemma_walk_path_to_sink(m: Map<(usize, usize), RegModel>, n: nat, nodes: Seq<Node>, es: Seq<(usize, usize)>, x: usize, a: usize, w: Seq<Sym>, len: nat) -> (vs: Seq<usize>)
    requires
        forall|p: usize, r: usize| p < nodes.len() && #[trigger] m.contains_key((p, r)) ==>
            (has_edge(es, p, r) && m[(p, r)] == node_re(nodes[r as int]))
            || (r == x && is_sink(es, p) && m[(p, r)] is Epsilon),
        forall|r: usize| !m.contains_key((x, r)),
        x >= nodes.len(),
        edges_below(es, nodes.len()),
        walk(m, n, a, x, w, len),
        a < nodes.len(),
    ensures
        is_path(es, vs, a, sinks(nodes, es)),
        path_word(nodes, vs.drop_first()) == w,
    decreases len,
{
    let (r, i) = walk_first(m, n, a, x, w, len);
    if r == x && !has_edge(es, a, r) {
        if len > 1 {
            let (r2, i2) = walk_first(m, n, x, x, w.skip(i as int), (len - 1) as nat);
        }
        assert(w.take(i as int).len() == 0);
        assert(w.skip(i as int).len() == 0);
        assert(w =~= Seq::<Sym>::empty());
        let vs = seq![a];
        assert(vs.drop_first() =~= Seq::<usize>::empty());
        assert(sinks(nodes, es).contains(a));
        vs
    } else {
        assert(has_edge(es, a, r));
        let k = choose|k: int| 0 <= k < es.len() && es[k] == (a, r);
        assert(es[k].1 < nodes.len());
        lemma_node_re_matches(nodes[r as int], w.take(i as int));
        let vs1 = lemma_walk_path_to_sink(m, n, nodes, es, x, r, w.skip(i as int), (len - 1) as nat);
        let vs = seq![a] + vs1;
        assert(vs.drop_first() =~= vs1);
        assert forall|j: int| 0 <= j < vs.len() - 1 implies #[trigger] path_step(es, vs, j) by {
            if j > 0 {
                assert(path_step(es, vs1, j - 1));
                assert(vs[j] == vs1[j - 1] && vs[j + 1] == vs1[j]);
            }
        }
        assert(vs.last() == vs1.last());
        assert(path_word(nodes, vs1) == w.take(i as int) + w.skip(i as int));
        assert(w.take(i as int) + w.skip(i as int) =~= w);
        vs
    }
}

/// The arrows of the automaton of a graph before its accepting state is
/// chosen: the edges, and an arrow from the new start state into the entry.
pub open spec fn base_arrows(nodes: Seq<Node>, es: Seq<(usize, usize)>, entry: usize) -> Map<(usize, usize), RegModel> {
    cfg_arrows(nodes, es).insert((nodes.len() as usize, entry), node_re(nodes[entry as int]))
}

proof fn lemma_base_arrows(nodes: Seq<Node>, es: Seq<(usize, usize)>, entry: usize)
    requires
        edges_below(es, nodes.len()),
        nodes.len() < usize::MAX,
    ensures
        edges_as_arrows(base_arrows(nodes, es, entry), nodes, es),
        arrows_are_edges(base_arrows(nodes, es, entry), nodes, es, nodes.len()),
        forall|r: usize| #[trigger] base_arrows(nodes, es, entry).contains_key((nodes.len() as usize, r)) ==> r == entry,
{
    let m = base_arrows(nodes, es, entry);
    let n0 = nodes.len();
    assert forall|a: usize, b: usize| #[trigger] has_edge(es, a, b) implies m.contains_key((a, b)) && m[(a, b)] == node_re(nodes[b as int]) by {
        let k = choose|k: int| 0 <= k < es.len() && es[k] == (a, b);
        assert(es[k].0 < n0);
        assert(cfg_arrows(nodes, es).contains_key((a, b)));
    }
    assert forall|a: usize, r: usize| a < n0 && #[trigger] m.contains_key((a, r)) implies has_edge(es, a, r) && m[(a, r)] == node_re(nodes[r as int]) by {
        assert((a, r) != (n0 as usize, entry));
        assert(cfg_arrows(nodes, es).contains_key((a, r)));
    }
    assert forall|r: usize| #[trigger] m.contains_key((n0 as usize, r)) implies r == entry by {
        if r != entry {
            assert(cfg_arrows(nodes, es).contains_key((n0 as usize, r)));
            let k = choose|k: int| 0 <= k < es.len() && es[k] == (n0 as usize, r);
            assert(es[k].0 < n0);
        }
    }
}

/// The words of the automaton that accepts at `exit` are the words of the
/// paths of the graph from its entry to `exit`.
proof fn lemma_single_end_language(nodes: Seq<Node>, es: Seq<(usize, usize)>, entry: usize, exit: usize, w: Seq<Sym>)
    requires
        entry < nodes.len(),
        exit < nodes.len(),
        edges_below(es, nodes.len()),
        nodes.len() + 1 <= usize::MAX,
    ensures
        accepts(GnfaState { n: nodes.len() + 1, start: nodes.len() as usize, accept: exit, arrows: base_arrows(nodes, es, entry) }, w)
            <==> path_language(nodes, es, entry, set![exit], w),
{
    let n0 = nodes.len();
    let m = base_arrows(nodes, es, entry);
    let st = GnfaState { n: n0 + 1, start: n0 as usize, accept: exit, arrows: m };
    lemma_base_arrows(nodes, es, entry);
    if accepts(st, w) {
        let len = choose|len: nat| #[trigger] walk(st.arrows, st.n, st.start, st.accept, w, len);
        let (r, i) = walk_first(m, st.n, n0 as usize, exit, w, len);
        assert(r == entry);
        lemma_node_re_matches(nodes[entry as int], w.take(i as int));
        let vs1 = lemma_walk_path(m, st.n, nodes, es, n0, entry, exit, w.skip(i as int), (len - 1) as nat);
        assert(path_word(nodes, vs1) == w.take(i as int) + w.skip(i as int));
        assert(w.take(i as int) + w.skip(i as int) =~= w);
        assert(is_path(es, vs1, entry, set![exit]) && path_word(nodes, vs1) == w);
    }
    if path_language(nodes, es, entry, set![exit], w) {
        let vs = choose|vs: Seq<usize>| #[trigger] is_path(es, vs, entry, set![exit]) && path_word(nodes, vs) == w;
        assert forall|i: int| 0 <= i < es.len() implies #[trigger] es[i].1 < st.n by {
            assert(es[i].1 < n0);
        }
        lemma_path_walk(m, st.n, nodes, es, vs, exit);
        let u = node_word(nodes[entry as int]);
        let rest = path_word(nodes, vs.drop_first());
        assert(w == u + rest);
        assert(w.take(u.len() as int) =~= u);
        assert(w.skip(u.len() as int) =~= rest);
        lemma_node_re_matches(nodes[entry as int], u);
        walk_step(m, st.n, n0 as usize, entry, exit, w, u.len(), (vs.len() - 1) as nat);
        assert(walk(st.arrows, st.n, st.start, st.accept, w, vs.len() as nat));
    }
}

/// The words of the automaton of a control flow graph are the words of the
/// graph's paths from its entry: to its exit where at most one node has no
/// way out, else to any node without a way out.
pub proof fn law_cfg_automaton_language(nodes: Seq<Node>, es: Seq<(usize, usize)>, entry: usize, exit: usize, w: Seq<Sym>)
    requires
        entry < nodes.len(),
        exit < nodes.len(),
        edges_below(es, nodes.len()),
        nodes.len() + 2 <= usize::MAX,
    ensures
        accepts(initial_state(nodes, es, entry, exit), w) <==> path_language(
            nodes,
            es,
            entry,
            if several_sinks(nodes, es) { sinks(nodes, es) } else { set![exit] },
            w,
        ),
{
    let n0 = nodes.len();
    if !several_sinks(nodes, es) {
        lemma_single_end_language(nodes, es, entry, exit, w);
        assert(initial_state(nodes, es, entry, exit) == GnfaState { n: n0 + 1, start: n0 as usize, accept: exit, arrows: base_arrows(nodes, es, entry) });
    } else {
        let st = initial_state(nodes, es, entry, exit);
        let m = st.arrows;
        let base = base_arrows(nodes, es, entry);
        let x = (n0 + 1) as usize;
        lemma_base_arrows(nodes, es, entry);
        assert forall|a: usize, b: usize| #[trigger] has_edge(es, a, b) implies m.contains_key((a, b)) && m[(a, b)] == node_re(nodes[b as int]) by {
            assert(base.contains_key((a, b)));
        }
        assert forall|p: usize, r: usize| p < nodes.len() && #[trigger] m.contains_key((p, r)) implies
            (has_edge(es, p, r) && m[(p, r)] == node_re(nodes[r as int]))
            || (r == x && is_sink(es, p) && m[(p, r)] is Epsilon) by {
            if base.contains_key((p, r)) {
                assert(arrows_are_edges(base, nodes, es, n0));
            }
        }
        assert forall|r: usize| !m.contains_key((x, r)) by {
            if base.contains_key((x, r)) {
                assert(arrows_are_edges(base, nodes, es, n0) ==> !(x < n0));
                if cfg_arrows(nodes, es).contains_key((x, r)) {
                    let k = choose|k: int| 0 <= k < es.len() && es[k] == (x, r);
                    assert(es[k].0 < n0);
                }
            }
        }
        if accepts(st, w) {
            let len = choose|len: nat| #[trigger] walk(st.arrows, st.n, st.start, st.accept, w, len);
            let (r, i) = walk_first(m, st.n, n0 as usize, x, w, len);
            assert(base.contains_key((n0 as usize, r)));
            assert(r == entry);
            lemma_node_re_matches(nodes[entry as int], w.take(i as int));
            let vs1 = lemma_walk_path_to_sink(m, st.n, nodes, es, x, entry, w.skip(i as int), (len - 1) as nat);
            assert(path_word(nodes, vs1) == w.take(i as int) + w.skip(i as int));
            assert(w.take(i as int) + w.skip(i as int) =~= w);
            assert(is_path(es, vs1, entry, sinks(nodes, es)) && path_word(nodes, vs1) == w);
        }
        if path_language(nodes, es, entry, sinks(nodes, es), w) {
            let vs = choose|vs: Seq<usize>| #[trigger] is_path(es, vs, entry, sinks(nodes, es)) && path_word(nodes, vs) == w;
            let v = vs.last();
            assert forall|i: int| 0 <= i < es.len() implies #[trigger] es[i].1 < st.n by {
                assert(es[i].1 < n0);
            }
            assert(is_path(es, vs, vs[0], set![v]));
            lemma_path_walk(m, st.n, nodes, es, vs, v);
            let u = node_word(nodes[entry as int]);
            let rest = path_word(nodes, vs.drop_first());
            assert(w == u + rest);
            assert(w.take(u.len() as int) =~= u);
            assert(w.skip(u.len() as int) =~= rest);
            lemma_node_re_matches(nodes[entry as int], u);
            walk_step(m, st.n, n0 as usize, entry, v, w, u.len(), (vs.len() - 1) as nat);
            assert(m.contains_key((v, x)));
            lemma_walk_one(m, st.n, v, x, Seq::<Sym>::empty());
            lemma_walk_join(m, st.n, n0 as usize, v, x, w, vs.len() as nat, Seq::<Sym>::empty(), 1);
            assert(w + Seq::<Sym>::empty() =~= w);
            assert(walk(st.arrows, st.n, st.start, st.accept, w, vs.len() as nat + 1));
        }
    }
}

/// The words of the automaton of a graph of basic blocks are the block
/// sequences of its paths from `entry` to `exit`.
pub proof fn law_block_graph_language(blocks: Seq<i32>, es: Seq<(usize, usize)>, entry: usize, exit: usize, w: Seq<Sym>)
    requires
        entry < blocks.len(),
        exit < blocks.len(),
        edges_below(es, blocks.len()),
        blocks.len() + 1 <= usize::MAX,
    ensures
        accepts(block_graph_state(blocks, es, entry, exit), w) <==> path_language(literal_nodes(blocks), es, entry, set![exit], w),
{
    lemma_single_end_language(literal_nodes(blocks), es, entry, exit, w);
}

/// Every arrow of `m` joins two states below `n`.
pub open spec fn arrows_below(m: Map<(usize, usize), RegModel>, n: nat) -> bool {
    forall|pq: (usize, usize)| #[trigger] m.contains_key(pq) ==> pq.0 < n && pq.1 < n
}

/// No arrow of `m` enters `v`.
pub open spec fn no_arrow_into(m: Map<(usize, usize), RegModel>, v: usize) -> bool {
    forall|p: usize| !#[trigger] m.contains_key((p, v))
}

/// No arrow of `m` leaves `v`.
pub open spec fn no_arrow_out(m: Map<(usize, usize), RegModel>, v: usize) -> bool {
    forall|q: usize| !#[trigger] m.contains_key((v, q))
}

/// The automaton's arrows join its states, none enters the start state and
/// none leaves the accepting state.
pub open spec fn ends_clear(st: GnfaState) -> bool {
    &&& state_ok(st)
    &&& arrows_below(st.arrows, st.n)
    &&& no_arrow_into(st.arrows, st.start)
    &&& no_arrow_out(st.arrows, st.accept)
}

/// Ripping a state out keeps the arrows clear of the start and the
/// accepting state.
proof fn lemma_rip_ends_clear(st: GnfaState, s: usize)
    requires
        ends_clear(st),
        s < st.n,
        s != st.start,
        s != st.accept,
    ensures
        ends_clear(ripped(st, s)),
{
    let m = st.arrows;
    let m1 = bypassed(m, s);
    let rs = ripped(st, s);
    lemma_rip_language(st, s, Seq::<Sym>::empty());
    assert forall|p: usize| !#[trigger] m1.contains_key((p, st.start)) by {
        if contributes(m, s, p, st.start) {
            assert(m.contains_key((s, st.start)));
        }
    }
    assert forall|q: usize| !#[trigger] m1.contains_key((st.accept, q)) by {
        if contributes(m, s, st.accept, q) {
            assert(m.contains_key((st.accept, s)));
        }
    }
    assert forall|a: usize| !#[trigger] rs.arrows.contains_key((a, rs.start)) by {
        assert(unmoved(rs.start, s, st.n) == st.start);
        if rs.arrows.contains_key((a, rs.start)) {
            assert(m1.contains_key((unmoved(a, s, st.n), st.start)));
        }
    }
    assert forall|b: usize| !#[trigger] rs.arrows.contains_key((rs.accept, b)) by {
        assert(unmoved(rs.accept, s, st.n) == st.accept);
        if rs.arrows.contains_key((rs.accept, b)) {
            assert(m1.contains_key((st.accept, unmoved(b, s, st.n))));
        }
    }
}

/// State elimination keeps the arrows clear of the start and the accepting
/// state, and leaves two states.
proof fn lemma_eliminate_ends_clear(st: GnfaState)
    requires
        ends_clear(st),
        eliminate(st) is Some,
    ensures
        ends_clear(eliminate(st).unwrap()),
        eliminate(st).unwrap().n == 2,
    decreases st.n,
{
    if st.n > 2 {
        let s = next_rip(st);
        lemma_rip_ends_clear(st, s);
        lemma_eliminate_ends_clear(ripped(st, s));
    }
}

/// With two states and the arrows clear of its ends, an automaton accepts
/// the words of its one arrow from the start to the accepting state.
proof fn lemma_two_states_language(st: GnfaState, w: Seq<Sym>)
    requires
        ends_clear(st),
        st.n == 2,
        st.arrows.contains_key((st.start, st.accept)),
    ensures
        accepts(st, w) <==> matches(st.arrows[(st.start, st.accept)], w),
{
    let m = st.arrows;
    if accepts(st, w) {
        let len = choose|len: nat| #[trigger] walk(st.arrows, st.n, st.start, st.accept, w, len);
        let (r, i) = walk_first(m, st.n, st.start, st.accept, w, len);
        assert(r == st.accept) by {
            assert(r < 2);
            if r != st.accept {
                assert(r == st.start);
            }
        }
        if len > 1 {
            let (r2, i2) = walk_first(m, st.n, st.accept, st.accept, w.skip(i as int), (len - 1) as nat);
        }
        assert(w.skip(i as int).len() == 0);
        assert(w.take(i as int) =~= w);
    }
    if matches(m[(st.start, st.accept)], w) {
        lemma_walk_one(m, st.n, st.start, st.accept, w);
    }
}

/// The regular expression of a control flow graph whose exit is its only
/// node without a way out, or which has several such nodes, has as words
/// exactly the words of the graph's paths from its entry to a node without
/// a way out: the execution paths of the function.
pub proof fn law_cfg_regex_language(cfg: CFG, w: Seq<Sym>)
    requires
        cfg.entry < cfg_nodes(cfg.graph).len(),
        cfg.exit < cfg_nodes(cfg.graph).len(),
        edges_below(cfg_edges(cfg.graph), cfg_nodes(cfg.graph).len()),
        cfg_nodes(cfg.graph).len() + 2 <= usize::MAX,
        several_sinks(cfg_nodes(cfg.graph), cfg_edges(cfg.graph))
            || sinks(cfg_nodes(cfg.graph), cfg_edges(cfg.graph)) == set![cfg.exit],
        cfg_regex(cfg) is Some,
    ensures
        matches(cfg_regex(cfg).unwrap(), w) <==> path_language(
            cfg_nodes(cfg.graph),
            cfg_edges(cfg.graph),
            cfg.entry,
            sinks(cfg_nodes(cfg.graph), cfg_edges(cfg.graph)),
            w,
        ),
{
    let nodes = cfg_nodes(cfg.graph);
    let es = cfg_edges(cfg.graph);
    let n0 = nodes.len();
    let st = initial_state(nodes, es, cfg.entry, cfg.exit);
    let base = base_arrows(nodes, es, cfg.entry);
    lemma_base_arrows(nodes, es, cfg.entry);
    assert forall|pq: (usize, usize)| #[trigger] base.contains_key(pq) implies pq.0 <= n0 && pq.1 < n0 by {
        if pq != (n0 as usize, cfg.entry) {
            assert(cfg_arrows(nodes, es).contains_key(pq));
            let k = choose|k: int| 0 <= k < es.len() && es[k] == pq;
            assert(es[k].0 < n0);
        }
    }
    assert(ends_clear(st)) by {
        assert forall|p: usize| !#[trigger] st.arrows.contains_key((p, st.start)) by {
            if base.contains_key((p, st.start)) {
                assert((p, st.start).1 < n0);
            }
        }
        if several_sinks(nodes, es) {
            assert forall|q: usize| !#[trigger] st.arrows.contains_key((st.accept, q)) by {
                if base.contains_key((st.accept, q)) {
                    assert((st.accept, q).0 <= n0);
                }
            }
        } else {
            assert(sinks(nodes, es).contains(cfg.exit));
            assert forall|q: usize| !#[trigger] st.arrows.contains_key((st.accept, q)) by {
                if base.contains_key((cfg.exit, q)) {
                    assert(has_edge(es, cfg.exit, q));
                    let k = choose|k: int| 0 <= k < es.len() && es[k] == (cfg.exit, q);
                    assert(es[k].0 != cfg.exit);
                }
            }
        }
    }
    lemma_eliminate_ends_clear(st);
    lemma_eliminate_language(st, w);
    let fin = eliminate(st).unwrap();
    lemma_two_states_language(fin, w);
    law_cfg_automaton_language(nodes, es, cfg.entry, cfg.exit, w);
    if !several_sinks(nodes, es) {
        assert(sinks(nodes, es) == set![cfg.exit]);
    }
}

} // verus!
