//! The path reducer: cuts an execution path down, function call by function
//! call, either by parsing it against each function's regular expression or,
//! in the simple mode, by dropping the blocks of every loop round that
//! returns to a block seen before in the same call.

use vstd::prelude::*;
use std::collections::{BTreeMap, BTreeSet};
use petgraph::graph::Graph;
use vstd::std_specs::iter::IteratorSpec;
use crate::re::{RegExp, RegModel, ParseCtx, ParseErr, ParseErrModel, ctx_of, flat, parse_counted, parse_result, first_of, first_defined, regex_models};
use crate::intern_cfg::CFG;
use crate::laws::{env_plain, plain, lemma_cfg_regex_plain};
use crate::convert::{GNFA, Node, initial_state, eliminate, cfg_simple, sinks, is_sink, lemma_out_count_zero, exits_fit, elimination_fits, edges_distinct, has_sink, automaton_fits};
use crate::subseq::{subsequence, suffix_of, consumed, lemma_subseq_empty, lemma_subseq_refl, lemma_subseq_concat, lemma_subseq_extend, lemma_subseq_take, lemma_subseq_trans, lemma_suffix_chain, lemma_suffix_refl, lemma_suffix_drop_first};
use crate::graph::{cfg_nodes, cfg_edges, out_count, cfg_node_count, cfg_node, cfg_out_degree};

verus! {

broadcast use {vstd::std_specs::btree::group_btree_axioms, vstd::laws_cmp::group_laws_cmp};

/// The simple reduction is chosen by this value of `k`.
pub const SIMPLE_REDUCTION_K: usize = 42;

/// Reduces execution paths of a program whose functions are given as
/// regular expressions over basic blocks.
pub struct PathReducer {
    res: BTreeMap<i32, RegExp>,
    firsts: BTreeMap<i32, i32>,
    lasts: BTreeMap<i32, BTreeSet<i32>>,
    k: usize,
}

/// The shape of the program that the simple reduction reads: the blocks that
/// start a function, and for the first block of each function its exit blocks.
pub struct Shape {
    pub calls: Set<i32>,
    pub exits: Map<i32, Set<i32>>,
}

/// The frames left after popping `stack` down to, and including, the
/// topmost frame of `b` (all of it where `b` is not there).
pub open spec fn pop_until(stack: Seq<i32>, b: i32) -> Seq<i32>
    decreases stack.len(),
{
    if stack.len() == 0 {
        stack
    } else if stack.last() == b {
        stack.drop_last()
    } else {
        pop_until(stack.drop_last(), b)
    }
}

/// One function call of the simple reduction, starting at `path[0]`: the
/// blocks kept (none where `skip`), the rest of the path, and the call stack
/// after it; `None` where a block that starts a call is not the first block
/// of a known function.
pub open spec fn one_call(sh: Shape, path: Seq<i32>, stack: Seq<i32>, skip: bool) -> Option<(Seq<i32>, Seq<i32>, Seq<i32>)>
    decreases path.len(), 1nat,
{
    if path.len() == 0 {
        Some((seq![], path, stack))
    } else {
        let first = path[0];
        if !sh.exits.contains_key(first) {
            None
        } else {
            let st = stack.push(first);
            let buf: Seq<i32> = if skip { seq![] } else { seq![first] };
            let ls: Map<i32, usize> = if skip { Map::empty() } else { Map::empty().insert(first, 0usize) };
            if sh.exits[first].contains(first) {
                Some((buf, path.drop_first(), pop_until(st, first)))
            } else {
                call_loop(sh, first, path.drop_first(), st, skip, buf, ls)
            }
        }
    }
}

/// The blocks of the call of `first` after its first block: a nested call is
/// reduced (and skipped where the callee is already on the stack), an exit
/// block ends the call, and a block met again in the same call drops what was
/// kept since its last occurrence; `ls` tells where each block was last kept.
/// (As a nested call consumes its first block, its `None` for a call that
/// consumes nothing is never reached.)
pub open spec fn call_loop(
    sh: Shape,
    first: i32,
    path: Seq<i32>,
    stack: Seq<i32>,
    skip: bool,
    buf: Seq<i32>,
    ls: Map<i32, usize>,
) -> Option<(Seq<i32>, Seq<i32>, Seq<i32>)>
    decreases path.len(), 2nat,
{
    if path.len() == 0 {
        Some((buf, path, stack))
    } else {
        let block = path[0];
        if sh.calls.contains(block) {
            let inner_skip = skip || stack.contains(block);
            match one_call(sh, path, stack, inner_skip) {
                None => None,
                Some((b2, rest, st2)) => if rest.len() < path.len() {
                    call_loop(sh, first, rest, st2, skip, if inner_skip { buf } else { buf + b2 }, ls)
                } else {
                    None
                },
            }
        } else if sh.exits[first].contains(block) {
            Some((if skip { buf } else { buf.push(block) }, path.drop_first(), pop_until(stack, first)))
        } else if skip {
            call_loop(sh, first, path.drop_first(), stack, skip, buf, ls)
        } else {
            let buf1 = if ls.contains_key(block) { buf.take(ls[block] as int) } else { buf };
            let ls1 = if ls.contains_key(block) {
                ls.restrict(ls.dom().filter(|b: i32| ls[b] < ls[block]))
            } else {
                ls
            };
            call_loop(sh, first, path.drop_first(), stack, skip, buf1.push(block), ls1.insert(block, buf1.len() as usize))
        }
    }
}

/// The simple reduction of a whole path: one top-level call after another.
/// (A call consumes at least its first block, `lemma_one_call_consumes`, so
/// the last `None`, which keeps the definition well founded, is never
/// reached.)
pub open spec fn simple_reduction(sh: Shape, path: Seq<i32>) -> Option<Seq<i32>>
    decreases path.len(),
{
    if path.len() == 0 {
        Some(seq![])
    } else {
        match one_call(sh, path, seq![], false) {
            None => None,
            Some((b, rest, _)) => if rest.len() < path.len() {
                match simple_reduction(sh, rest) {
                    None => None,
                    Some(r) => Some(b + r),
                }
            } else {
                None
            },
        }
    }
}

/// A call of the simple reduction consumes its first block, and then no more
/// than what is left.
pub proof fn lemma_one_call_consumes(sh: Shape, path: Seq<i32>, stack: Seq<i32>, skip: bool)
    requires
        one_call(sh, path, stack, skip) is Some,
    ensures
        path.len() > 0 ==> one_call(sh, path, stack, skip).unwrap().1.len() < path.len(),
        one_call(sh, path, stack, skip).unwrap().1.len() <= path.len(),
    decreases path.len(), 1nat,
{
    if path.len() > 0 {
        let first = path[0];
        let st = stack.push(first);
        let buf: Seq<i32> = if skip { seq![] } else { seq![first] };
        let ls: Map<i32, usize> = if skip { Map::empty() } else { Map::empty().insert(first, 0usize) };
        if !sh.exits[first].contains(first) {
            lemma_call_loop_consumes(sh, first, path.drop_first(), st, skip, buf, ls);
        }
    }
}

/// The rest of a call of the simple reduction, after its first block,
/// consumes no more than what is left.
pub proof fn lemma_call_loop_consumes(
    sh: Shape,
    first: i32,
    path: Seq<i32>,
    stack: Seq<i32>,
    skip: bool,
    buf: Seq<i32>,
    ls: Map<i32, usize>,
)
    requires
        call_loop(sh, first, path, stack, skip, buf, ls) is Some,
    ensures
        call_loop(sh, first, path, stack, skip, buf, ls).unwrap().1.len() <= path.len(),
    decreases path.len(), 2nat,
{
    if path.len() > 0 {
        let block = path[0];
        if sh.calls.contains(block) {
            let inner_skip = skip || stack.contains(block);
            let (b2, rest, st2) = one_call(sh, path, stack, inner_skip).unwrap();
            lemma_call_loop_consumes(sh, first, rest, st2, skip, if inner_skip { buf } else { buf + b2 }, ls);
        } else if sh.exits[first].contains(block) {
        } else if skip {
            lemma_call_loop_consumes(sh, first, path.drop_first(), stack, skip, buf, ls);
        } else {
            let buf1 = if ls.contains_key(block) { buf.take(ls[block] as int) } else { buf };
            let ls1 = if ls.contains_key(block) {
                ls.restrict(ls.dom().filter(|b: i32| ls[b] < ls[block]))
            } else {
                ls
            };
            lemma_call_loop_consumes(sh, first, path.drop_first(), stack, skip, buf1.push(block), ls1.insert(block, buf1.len() as usize));
        }
    }
}


/// What one call of the simple reduction keeps is a subsequence of the
/// blocks it consumes, and it leaves the rest of the path.
proof fn lemma_one_call_subseq(sh: Shape, path: Seq<i32>, stack: Seq<i32>, skip: bool)
    requires
        one_call(sh, path, stack, skip) is Some,
    ensures
        suffix_of(one_call(sh, path, stack, skip).unwrap().1, path),
        subsequence(
            one_call(sh, path, stack, skip).unwrap().0,
            consumed(path, one_call(sh, path, stack, skip).unwrap().1),
        ),
    decreases path.len(), 1nat,
{
    let r = one_call(sh, path, stack, skip).unwrap();
    if path.len() == 0 {
        lemma_suffix_refl(path);
        lemma_subseq_empty(consumed(path, path));
    } else {
        let first = path[0];
        let st = stack.push(first);
        let buf: Seq<i32> = if skip { seq![] } else { seq![first] };
        let ls: Map<i32, usize> = if skip { Map::empty() } else { Map::empty().insert(first, 0usize) };
        let x = seq![first];
        lemma_suffix_drop_first(path);
        if skip {
            lemma_subseq_empty(x);
        } else {
            lemma_subseq_refl(x);
        }
        if !sh.exits[first].contains(first) {
            lemma_call_loop_subseq(sh, first, path.drop_first(), st, skip, buf, ls, x);
            lemma_suffix_chain(path, path.drop_first(), r.1);
        }
    }
}

/// What the rest of a call of the simple reduction keeps is a subsequence of
/// `x`, the blocks already consumed (of which `buf` is one), and of the
/// blocks it consumes; it leaves the rest of the path.
proof fn lemma_call_loop_subseq(
    sh: Shape,
    first: i32,
    path: Seq<i32>,
    stack: Seq<i32>,
    skip: bool,
    buf: Seq<i32>,
    ls: Map<i32, usize>,
    x: Seq<i32>,
)
    requires
        call_loop(sh, first, path, stack, skip, buf, ls) is Some,
        subsequence(buf, x),
        forall|b: i32| ls.contains_key(b) ==> ls[b] < buf.len(),
    ensures
        suffix_of(call_loop(sh, first, path, stack, skip, buf, ls).unwrap().1, path),
        subsequence(
            call_loop(sh, first, path, stack, skip, buf, ls).unwrap().0,
            x + consumed(path, call_loop(sh, first, path, stack, skip, buf, ls).unwrap().1),
        ),
    decreases path.len(), 2nat,
{
    let r = call_loop(sh, first, path, stack, skip, buf, ls).unwrap();
    if path.len() == 0 {
        lemma_suffix_refl(path);
        assert(x + consumed(path, path) =~= x);
    } else {
        let block = path[0];
        lemma_suffix_drop_first(path);
        if sh.calls.contains(block) {
            let inner_skip = skip || stack.contains(block);
            let (b2, rest2, st2) = one_call(sh, path, stack, inner_skip).unwrap();
            lemma_one_call_subseq(sh, path, stack, inner_skip);
            let c2 = consumed(path, rest2);
            let x2 = x + c2;
            let buf2 = if inner_skip { buf } else { buf + b2 };
            if inner_skip {
                lemma_subseq_extend(buf, x, c2);
            } else {
                lemma_subseq_concat(buf, x, b2, c2);
            }
            lemma_call_loop_subseq(sh, first, rest2, st2, skip, buf2, ls, x2);
            lemma_suffix_chain(path, rest2, r.1);
            assert(x2 + consumed(rest2, r.1) =~= x + consumed(path, r.1));
        } else if sh.exits[first].contains(block) {
            if skip {
                lemma_subseq_extend(buf, x, seq![block]);
            } else {
                lemma_subseq_refl(seq![block]);
                lemma_subseq_concat(buf, x, seq![block], seq![block]);
                assert(buf.push(block) =~= buf + seq![block]);
            }
        } else if skip {
            let x2 = x + seq![block];
            lemma_subseq_extend(buf, x, seq![block]);
            lemma_call_loop_subseq(sh, first, path.drop_first(), stack, skip, buf, ls, x2);
            lemma_suffix_chain(path, path.drop_first(), r.1);
            assert(x2 + consumed(path.drop_first(), r.1) =~= x + consumed(path, r.1));
        } else {
            let buf1 = if ls.contains_key(block) { buf.take(ls[block] as int) } else { buf };
            let ls1 = if ls.contains_key(block) {
                ls.restrict(ls.dom().filter(|b: i32| ls[b] < ls[block]))
            } else {
                ls
            };
            if ls.contains_key(block) {
                lemma_subseq_take(buf, ls[block] as int);
                lemma_subseq_trans(buf1, buf, x);
            }
            let x2 = x + seq![block];
            lemma_subseq_refl(seq![block]);
            lemma_subseq_concat(buf1, x, seq![block], seq![block]);
            assert(buf1.push(block) =~= buf1 + seq![block]);
            let ls2 = ls1.insert(block, buf1.len() as usize);
            assert forall|b: i32| ls2.contains_key(b) implies ls2[b] < buf1.push(block).len() by {
                if b != block && ls.contains_key(block) {
                    assert(ls1.contains_key(b));
                    assert(ls[b] < ls[block]);
                }
            }
            lemma_call_loop_subseq(sh, first, path.drop_first(), stack, skip, buf1.push(block), ls2, x2);
            lemma_suffix_chain(path, path.drop_first(), r.1);
            assert(x2 + consumed(path.drop_first(), r.1) =~= x + consumed(path, r.1));
        }
    }
}

/// What the simple reduction of a path keeps is a subsequence of the path.
pub(crate) proof fn lemma_simple_reduction_subseq(sh: Shape, path: Seq<i32>)
    requires
        simple_reduction(sh, path) is Some,
    ensures
        subsequence(simple_reduction(sh, path).unwrap(), path),
    decreases path.len(),
{
    if path.len() == 0 {
        lemma_subseq_empty(path);
    } else {
        let (b, rest, _) = one_call(sh, path, seq![], false).unwrap();
        lemma_one_call_subseq(sh, path, seq![], false);
        lemma_simple_reduction_subseq(sh, rest);
        lemma_subseq_concat(b, consumed(path, rest), simple_reduction(sh, rest).unwrap(), rest);
    }
}

/// The blocks of `order` are the keys of `m`, each once, in the order of the
/// places in the buffer (of length `len`) where they were last kept.
pub open spec fn order_ok(order: Seq<i32>, m: Map<i32, usize>, len: nat) -> bool {
    &&& order.no_duplicates()
    &&& forall|b: i32| m.contains_key(b) <==> order.contains(b)
    &&& forall|i: int, j: int| 0 <= i < j < order.len() ==> m[order[i]] < m[order[j]]
    &&& forall|b: i32| m.contains_key(b) ==> m[b] < len
}

/// Keeps in `loop_stack` only the blocks kept before place `off`.
fn retain_below(loop_stack: &mut BTreeMap<i32, usize>, order: &mut Vec<i32>, off: usize, Ghost(len): Ghost<nat>)
    requires
        order_ok(old(order)@, old(loop_stack)@, len),
        off <= len,
    ensures
        final(loop_stack)@ == old(loop_stack)@.restrict(old(loop_stack)@.dom().filter(|b: i32| old(loop_stack)@[b] < off)),
        order_ok(final(order)@, final(loop_stack)@, off as nat),
{
    let ghost m0 = loop_stack@;
    let ghost o0 = order@;
    loop
        invariant
            order_ok(o0, m0, len),
            order@.len() <= o0.len(),
            order@ == o0.subrange(0, order@.len() as int),
            forall|b: i32| loop_stack@.contains_key(b) <==> order@.contains(b),
            forall|b: i32| loop_stack@.contains_key(b) ==> loop_stack@[b] == m0[b],
            forall|j: int| order@.len() <= j < o0.len() ==> m0[o0[j]] >= off,
        ensures
            order_ok(o0, m0, len),
            order@.len() <= o0.len(),
            order@ == o0.subrange(0, order@.len() as int),
            forall|b: i32| loop_stack@.contains_key(b) <==> order@.contains(b),
            forall|b: i32| loop_stack@.contains_key(b) ==> loop_stack@[b] == m0[b],
            forall|j: int| order@.len() <= j < o0.len() ==> m0[o0[j]] >= off,
            order@.len() == 0 || m0[order@.last()] < off,
        decreases order@.len(),
    {
        if order.len() == 0 {
            break;
        }
        let last = order[order.len() - 1];
        assert(order@.contains(last));
        let v: usize = match loop_stack.get(&last) {
            Some(v) => *v,
            None => 0,
        };
        if v < off {
            break;
        }
        let ghost before = order@;
        let ghost ls_before = loop_stack@;
        loop_stack.remove(&last);
        order.pop();
        proof {
            assert(before == o0.subrange(0, before.len() as int));
            assert(loop_stack@ == ls_before.remove(last));
            assert(order@ =~= before.subrange(0, before.len() - 1));
            assert forall|b: i32| loop_stack@.contains_key(b) <==> order@.contains(b) by {
                if order@.contains(b) {
                    let i = choose|i: int| 0 <= i < order@.len() && order@[i] == b;
                    assert(before[i] == b);
                    assert(before.contains(b));
                    assert(o0[i] == b && o0[before.len() - 1] == last);
                    assert(o0[i] != o0[before.len() - 1]);
                }
                if loop_stack@.contains_key(b) {
                    assert(ls_before.contains_key(b));
                    assert(before.contains(b));
                    let i = choose|i: int| 0 <= i < before.len() && before[i] == b;
                    assert(i != before.len() - 1);
                    assert(order@[i] == b);
                }
            }
            assert(order@ =~= o0.subrange(0, order@.len() as int));
        }
    }
    proof {
        let keep = m0.dom().filter(|b: i32| m0[b] < off);
        assert forall|b: i32| loop_stack@.contains_key(b) <==> keep.contains(b) by {
            if loop_stack@.contains_key(b) {
                assert(order@.contains(b));
                let i = choose|i: int| 0 <= i < order@.len() && order@[i] == b;
                assert(o0[i] == b);
                assert(o0.contains(b));
                assert(m0.contains_key(b));
                let l = order@.len() - 1;
                assert(order@[l] == o0[l]);
                assert(o0.contains(o0[l]));
                if i < l {
                    assert(m0[o0[i]] < m0[o0[l]]);
                }
                assert(m0[b] < off);
            }
            if keep.contains(b) {
                assert(m0.dom().contains(b) && m0[b] < off);
                assert(o0.contains(b));
                let i = choose|i: int| 0 <= i < o0.len() && o0[i] == b;
                if i >= order@.len() {
                    assert(m0[o0[i]] >= off);
                }
                assert(order@[i] == b);
                assert(order@.contains(b));
            }
        }
        let r = m0.restrict(keep);
        assert(r.dom() == Set::new(|k: i32| m0.dom().contains(k) && keep.contains(k)));
        assert forall|b: i32| r.dom().contains(b) <==> loop_stack@.dom().contains(b) by {
            assert(loop_stack@.contains_key(b) <==> keep.contains(b));
        }
        assert(loop_stack@.dom() =~= m0.restrict(keep).dom());
        assert forall|b: i32| #[trigger] loop_stack@.contains_key(b) implies loop_stack@[b] == m0.restrict(keep)[b] by {
            assert(keep.contains(b));
        }
        assert(loop_stack@ =~= m0.restrict(keep));
        assert forall|i: int, j: int| 0 <= i < j < order@.len() implies loop_stack@[order@[i]] < loop_stack@[order@[j]] by {
            assert(order@[i] == o0[i] && order@[j] == o0[j]);
            assert(order@.contains(order@[i]) && order@.contains(order@[j]));
        }
        assert forall|b: i32| loop_stack@.contains_key(b) implies loop_stack@[b] < off by {
            assert(keep.contains(b));
        }
        assert(order@.no_duplicates()) by {
            assert forall|i: int, j: int| 0 <= i < order@.len() && 0 <= j < order@.len() && i != j implies order@[i] != order@[j] by {
                assert(order@[i] == o0[i] && order@[j] == o0[j]);
            }
        }
    }
}

/// Pops `stack` down to, and including, the topmost frame of `first`.
fn pop_frames(stack: &mut Vec<i32>, first: i32)
    ensures
        final(stack)@ == pop_until(old(stack)@, first),
{
    loop
        invariant
            pop_until(stack@, first) == pop_until(old(stack)@, first),
        ensures
            stack@ == pop_until(old(stack)@, first),
        decreases stack@.len(),
    {
        let ghost before = stack@;
        match stack.pop() {
            Some(last) => {
                if last == first {
                    return;
                }
            },
            None => {
                return;
            },
        }
    }
}

/// A fresh vector with the blocks of `p`.
fn copy_path(p: &[i32]) -> (res: Vec<i32>)
    ensures
        res@ == p@,
{
    let mut res: Vec<i32> = Vec::new();
    let mut i: usize = 0;
    while i < p.len()
        invariant
            i <= p.len(),
            res@ == p@.take(i as int),
        decreases p.len() - i,
    {
        res.push(p[i]);
        i = i + 1;
        assert(res@ =~= p@.take(i as int));
    }
    assert(p@.take(p.len() as int) =~= p@);
    res
}

/// Whether `block` is on the call stack.
fn frames_contain(stack: &Vec<i32>, block: i32) -> (b: bool)
    ensures
        b == stack@.contains(block),
{
    let mut i: usize = stack.len();
    while i > 0
        invariant
            i <= stack.len(),
            forall|j: int| i <= j < stack.len() ==> stack@[j] != block,
        decreases i,
    {
        if stack[i - 1] == block {
            return true;
        }
        i = i - 1;
    }
    false
}


/// The value of each block set of `m`.
pub open spec fn block_sets(m: Map<i32, BTreeSet<i32>>) -> Map<i32, Set<i32>> {
    m.map_values(|s: BTreeSet<i32>| s@)
}

impl PathReducer {
    /// The regular expression of each function.
    pub closed spec fn functions(&self) -> Map<i32, RegModel> {
        ctx_of(&self.res, &self.firsts, self.k).env
    }

    /// The function that each first block starts.
    pub closed spec fn first_blocks(&self) -> Map<i32, i32> {
        self.firsts@
    }

    /// For the first block of each function, the blocks where the function
    /// can end.
    pub closed spec fn exit_blocks(&self) -> Map<i32, Set<i32>> {
        block_sets(self.lasts@)
    }

    /// The bound on nested calls and repetitions kept; `SIMPLE_REDUCTION_K`
    /// selects the simple reduction.
    pub closed spec fn bound(&self) -> usize {
        self.k
    }

    /// What the simple reduction reads of the reducer.
    pub open spec fn shape(&self) -> Shape {
        Shape { calls: self.first_blocks().dom(), exits: self.exit_blocks() }
    }

    /// What a parse reads of the reducer.
    pub open spec fn ctx(&self) -> ParseCtx {
        ParseCtx { env: self.functions(), firsts: self.first_blocks(), k: self.bound() as nat }
    }

    /// The exit blocks of the function that starts with `block`.
    fn get_last_blocks(&self, block: &i32) -> (res: &BTreeSet<i32>)
        requires
            self.lasts@.contains_key(*block),
        ensures
            res@ == self.shape().exits[*block],
    {
        self.lasts.get(block).unwrap()
    }

    /// Reduces the call that starts at `path[0]`, consuming its blocks from
    /// `path`; the kept blocks come back (none where `skip`).
    fn simple_reduce_one_fun<'a>(&self, path: &mut &'a [i32], stack: &mut Vec<i32>, skip: bool) -> (buffer: Vec<i32>)
        requires
            one_call(self.shape(), old(path)@, old(stack)@, skip) is Some,
        ensures
            (buffer@, final(path)@, final(stack)@) == one_call(self.shape(), old(path)@, old(stack)@, skip).unwrap(),
        decreases old(path)@.len(),
    {
        let ghost sh = self.shape();
        let ghost target = one_call(sh, path@, stack@, skip);
        let ghost entry_len = path@.len();
        let mut buffer: Vec<i32> = Vec::new();
        let mut loop_stack: BTreeMap<i32, usize> = BTreeMap::new();
        let mut order: Vec<i32> = Vec::new();
        if path.len() == 0 {
            assert(buffer@ =~= seq![]);
            return buffer;
        }
        let p: &'a [i32] = *path;
        let first = p[0];
        *path = &p[1..p.len()];
        stack.push(first);
        if !skip {
            buffer.push(first);
            loop_stack.insert(first, 0);
            order.push(first);
        }
        proof {
            assert(sh.exits.contains_key(first));
            if skip {
                assert(buffer@ =~= seq![]);
                assert(loop_stack@ =~= Map::<i32, usize>::empty());
            } else {
                assert(buffer@ =~= seq![first]);
                assert(loop_stack@ =~= Map::<i32, usize>::empty().insert(first, 0usize));
                assert(order@.no_duplicates());
                assert(order@[0] == first);
                assert forall|b: i32| loop_stack@.contains_key(b) <==> order@.contains(b) by {
                    if order@.contains(b) {
                        assert(order@[0] == b);
                    }
                    if b == first {
                        assert(order@[0] == first);
                    }
                }
            }
        }
        let lasts = self.get_last_blocks(&first);
        if lasts.contains(&first) {
            pop_frames(stack, first);
            return buffer;
        }
        loop
            invariant
                sh == self.shape(),
                target == one_call(sh, old(path)@, old(stack)@, skip),
                target is Some,
                entry_len == old(path)@.len(),
                path@.len() < entry_len,
                lasts@ == sh.exits[first],
                call_loop(sh, first, path@, stack@, skip, buffer@, loop_stack@) == target,
                order_ok(order@, loop_stack@, buffer@.len() as nat),
            decreases path@.len(),
        {
            if path.len() == 0 {
                return buffer;
            }
            let p: &'a [i32] = *path;
            let block = p[0];
            if self.firsts.contains_key(&block) {
                let ghost before = path@;
                if skip || frames_contain(stack, block) {
                    let _ = self.simple_reduce_one_fun(path, stack, true);
                } else {
                    let mut sub = self.simple_reduce_one_fun(path, stack, skip);
                    buffer.append(&mut sub);
                }
                assert(path@.len() < before.len());
            } else if lasts.contains(&block) {
                *path = &p[1..p.len()];
                pop_frames(stack, first);
                if !skip {
                    buffer.push(block);
                }
                return buffer;
            } else {
                if skip {
                    *path = &p[1..p.len()];
                    continue;
                }
                let found: Option<usize> = match loop_stack.get(&block) {
                    Some(off) => Some(*off),
                    None => None,
                };
                let ghost ls = loop_stack@;
                let ghost buf = buffer@;
                match found {
                    Some(off) => {
                        buffer.truncate(off);
                        retain_below(&mut loop_stack, &mut order, off, Ghost(buf.len() as nat));
                        assert(!loop_stack@.contains_key(block));
                    },
                    None => {},
                }
                let ghost buf1 = buffer@;
                let ghost ls1 = loop_stack@;
                let ghost o1 = order@;
                assert(order_ok(o1, ls1, buf1.len() as nat));
                assert(!ls1.contains_key(block));
                assert(!o1.contains(block));
                *path = &p[1..p.len()];
                buffer.push(block);
                loop_stack.insert(block, buffer.len() - 1);
                order.push(block);
                assert(order@.drop_last() =~= o1);
                proof {
                    assert(buf1 == (if ls.contains_key(block) { buf.take(ls[block] as int) } else { buf }));
                    assert(order@.no_duplicates()) by {
                        assert(!order@.drop_last().contains(block));
                        assert forall|i: int, j: int| 0 <= i < order@.len() && 0 <= j < order@.len() && i != j implies order@[i] != order@[j] by {
                            if i == order@.len() - 1 {
                                assert(order@.drop_last().contains(order@[j]));
                            } else if j == order@.len() - 1 {
                                assert(order@.drop_last().contains(order@[i]));
                            } else {
                                assert(order@.drop_last()[i] == order@[i]);
                                assert(order@.drop_last()[j] == order@[j]);
                            }
                        }
                    }
                    assert forall|b: i32| loop_stack@.contains_key(b) <==> order@.contains(b) by {
                        if order@.contains(b) && b != block {
                            let i = choose|i: int| 0 <= i < order@.len() && order@[i] == b;
                            assert(i != order@.len() - 1);
                            assert(o1[i] == b);
                            assert(o1.contains(b));
                        }
                        if ls1.contains_key(b) {
                            assert(o1.contains(b));
                            let i = choose|i: int| 0 <= i < o1.len() && o1[i] == b;
                            assert(order@[i] == b);
                        }
                        if b == block {
                            assert(order@[order@.len() - 1] == block);
                        }
                    }
                    assert forall|i: int, j: int| 0 <= i < j < order@.len() implies loop_stack@[order@[i]] < loop_stack@[order@[j]] by {
                        assert(order@.drop_last().contains(order@[i]));
                        if j < order@.len() - 1 {
                            assert(order@.drop_last().contains(order@[j]));
                            assert(order@.drop_last()[i] == order@[i]);
                            assert(order@.drop_last()[j] == order@[j]);
                        }
                    }
                }
            }
        }
    }

    /// The simple reduction of `path`: every top-level call is reduced in turn.
    fn simple_reduce(&self, path: &[i32]) -> (res: Vec<i32>)
        requires
            simple_reduction(self.shape(), path@) is Some,
        ensures
            res@ == simple_reduction(self.shape(), path@).unwrap(),
    {
        let mut res: Vec<i32> = Vec::new();
        let mut path: &[i32] = path;
        let ghost target = simple_reduction(self.shape(), path@);
        while path.len() > 0
            invariant
                target is Some,
                simple_reduction(self.shape(), path@) is Some,
                res@ + simple_reduction(self.shape(), path@).unwrap() == target.unwrap(),
            decreases path@.len(),
        {
            let mut stack: Vec<i32> = Vec::new();
            let ghost before = path@;
            assert(stack@ =~= Seq::<i32>::empty());
            let mut reduced = self.simple_reduce_one_fun(&mut path, &mut stack, false);
            assert(simple_reduction(self.shape(), before).unwrap() == reduced@ + simple_reduction(self.shape(), path@).unwrap());
            res.append(&mut reduced);
        }
        assert(res@ =~= target.unwrap());
        res
    }
}


/// What to give back for a path that does not fit the functions' regular
/// expressions.
#[derive(Clone, Copy, Debug)]
pub enum OnInvalid {
    /// The path as it came.
    FullPath,
    /// No block at all.
    EmptyPath,
}

/// Why a path could not be reduced.
#[derive(Clone, Debug)]
pub enum ReduceError {
    /// A block of the path fits neither the expression of its function nor
    /// the start of a call; the parse's message says which.
    InvalidPath(String),
}

/// The reduction by parsing: the path is parsed again and again against the
/// function `x`, each parse taking what it matched off the front of the
/// path, and the kept blocks are joined; `Err` where a parse finds a block
/// that does not fit, `None` where a parse does not end (or ends without
/// consuming anything).
pub open spec fn parse_reduction(x: i32, path: Seq<i32>, g: ParseCtx) -> Option<Result<Seq<i32>, Seq<char>>>
    decreases path.len(),
{
    if path.len() == 0 {
        Some(Ok(seq![]))
    } else if !parse_counted(RegModel::Var(x), path, g, Map::empty(), 0) {
        None
    } else {
        match parse_result(RegModel::Var(x), path, g) {
            Ok((v, rest)) => if rest.len() < path.len() {
                match parse_reduction(x, rest, g) {
                    Some(Ok(r)) => Some(Ok(flat(v) + r)),
                    o => o,
                }
            } else {
                None
            },
            Err(ParseErrModel::Abort(v)) => Some(Ok(flat(v))),
            Err(ParseErrModel::Invalid(msg)) => Some(Err(msg)),
        }
    }
}

impl PathReducer {
    /// The reduction of `path` that `reduce` computes: the simple one where
    /// `k` selects it, else the one by parsing against the function that
    /// starts with `path[0]`; `None` where the reduction cannot be carried out
    /// (a block that starts or ends a call is unknown, a function has no
    /// expression, or a parse does not end or takes nothing off the path).
    pub open spec fn reduction(&self, path: Seq<i32>) -> Option<Result<Seq<i32>, Seq<char>>> {
        if self.bound() == SIMPLE_REDUCTION_K {
            match simple_reduction(self.shape(), path) {
                Some(r) => Some(Ok(r)),
                None => None,
            }
        } else if path.len() == 0 {
            Some(Ok(seq![]))
        } else if !self.first_blocks().contains_key(path[0]) {
            None
        } else {
            parse_reduction(self.first_blocks()[path[0]], path, self.ctx())
        }
    }

    /// Whether the reducer carries out the simple reduction.
    pub fn uses_simple_reduction(&self) -> (b: bool)
        ensures
            b == (self.bound() == SIMPLE_REDUCTION_K),
    {
        self.k == SIMPLE_REDUCTION_K
    }

    /// Whether some function starts with `block` (a path to reduce by
    /// parsing must begin with such a block).
    pub fn starts_function(&self, block: i32) -> (b: bool)
        ensures
            b == self.first_blocks().contains_key(block),
    {
        self.firsts.contains_key(&block)
    }

    /// Reduces an execution path. Where the path does not fit, `on_invalid`
    /// chooses what comes back; without it the path is refused.
    pub fn reduce(&self, path: &[i32], _cfg: i32, on_invalid: Option<OnInvalid>) -> (res: Result<Vec<i32>, ReduceError>)
        requires
            self.reduction(path@) is Some,
        ensures
            match self.reduction(path@).unwrap() {
                Ok(r) => res matches Ok(v) && v@ == r,
                Err(msg) => match on_invalid {
                    Some(OnInvalid::FullPath) => res matches Ok(v) && v@ == path@,
                    Some(OnInvalid::EmptyPath) => res matches Ok(v) && v@ == Seq::<i32>::empty(),
                    None => res matches Err(ReduceError::InvalidPath(m)) && m@ == msg,
                },
            },
    {
        if self.k == SIMPLE_REDUCTION_K {
            return Ok(self.simple_reduce(path));
        }
        let unreduced = path;
        if path.len() == 0 {
            return Ok(Vec::new());
        }
        let cfg: i32 = *self.firsts.get(&path[0]).unwrap();
        let re = RegExp::Var(cfg);
        let ghost g = ctx_of(&self.res, &self.firsts, self.k);
        let ghost target = self.reduction(path@);
        let mut reduced_paths: Vec<i32> = Vec::new();
        proof {
            match parse_reduction(cfg, path@, g) {
                Some(Ok(r)) => {
                    assert(reduced_paths@ + r =~= r);
                },
                _ => {},
            }
        }
        let mut cur: &[i32] = path;
        while cur.len() > 0
            invariant
                re@ == RegModel::Var(cfg),
                g == ctx_of(&self.res, &self.firsts, self.k),
                target is Some,
                target == self.reduction(unreduced@),
                unreduced@ == path@,
                target == (match parse_reduction(cfg, cur@, g) {
                    Some(Ok(r)) => Some(Ok(reduced_paths@ + r)),
                    o => o,
                }),
            decreases cur@.len(),
        {
            match re.parse_k(cur, &self.res, &self.firsts, self.k) {
                Ok((reduced_path, res)) => {
                    let ghost vm = reduced_path@;
                    let mut this_path = reduced_path.into_vec();
                    let ghost before = reduced_paths@;
                    reduced_paths.append(&mut this_path);
                    cur = res;
                    proof {
                        match parse_reduction(cfg, cur@, g) {
                            Some(Ok(r)) => {
                                assert(before + (flat(vm) + r) =~= reduced_paths@ + r);
                            },
                            _ => {},
                        }
                    }
                },
                Err(ParseErr::Abort(val)) => {
                    let ghost vm = val@;
                    let mut rest = val.into_vec();
                    let ghost before = reduced_paths@;
                    reduced_paths.append(&mut rest);
                    return Ok(reduced_paths);
                },
                Err(ParseErr::Invalid(msg)) => {
                    return match on_invalid {
                        Some(OnInvalid::FullPath) => Ok(copy_path(unreduced)),
                        Some(OnInvalid::EmptyPath) => Ok(Vec::new()),
                        None => Err(ReduceError::InvalidPath(msg)),
                    };
                },
            }
        }
        assert(reduced_paths@ + Seq::<i32>::empty() =~= reduced_paths@);
        Ok(reduced_paths)
    }
}


/// The basic block that a node stands for.
pub open spec fn node_block(n: Node) -> i32 {
    match n {
        Node::Literal(b) => b,
        _ => 0,
    }
}

/// The first block of the function of `cfg`: the block of its entry node.
pub open spec fn cfg_entry_block(cfg: CFG) -> i32 {
    node_block(cfg_nodes(cfg.graph)[cfg.entry as int])
}

/// The blocks where the function of `cfg` can end: those of the nodes that no
/// edge leaves.
pub open spec fn cfg_exit_blocks(cfg: CFG) -> Set<i32> {
    sinks(cfg_nodes(cfg.graph), cfg_edges(cfg.graph)).map(|v: usize| node_block(cfg_nodes(cfg.graph)[v as int]))
}

/// The regular expression of the function of `cfg`: the expression on the
/// arrow from the start to the accepting state of its automaton once every
/// other state is ripped out.
pub open spec fn cfg_regex(cfg: CFG) -> Option<RegModel> {
    match eliminate(initial_state(cfg_nodes(cfg.graph), cfg_edges(cfg.graph), cfg.entry, cfg.exit)) {
        Some(st) => if st.arrows.contains_key((st.start, st.accept)) {
            Some(st.arrows[(st.start, st.accept)])
        } else {
            None
        },
        None => None,
    }
}

/// The first block of every path of the regular expression of `cfg`.
pub open spec fn regex_first(cfg: CFG) -> i32 {
    first_of(cfg_regex(cfg).unwrap()).unwrap()
}

/// The entry of `cfg` is a node that stands for a basic block, and so is
/// every node without a way out.
pub open spec fn ends_are_blocks(cfg: CFG) -> bool {
    let nodes = cfg_nodes(cfg.graph);
    let es = cfg_edges(cfg.graph);
    &&& cfg.entry < nodes.len()
    &&& nodes[cfg.entry as int] is Literal
    &&& forall|v: usize| sinks(nodes, es).contains(v) ==> nodes[v as int] is Literal
}

/// `cfg` can be turned into a regular expression without a panic: its entry
/// and exit are nodes of the graph, no two edges join the same nodes in the
/// same direction, some node has no way out, the automaton and every step of
/// state elimination fit a graph with `u32` indices, the entry node and
/// every node without a way out stand for basic blocks, state elimination
/// goes through and leaves an arrow from the start to the accepting state,
/// and the resulting expression has a first block.
pub open spec fn cfg_ok(cfg: CFG) -> bool {
    let nodes = cfg_nodes(cfg.graph);
    let es = cfg_edges(cfg.graph);
    &&& cfg.entry < nodes.len()
    &&& cfg.exit < nodes.len()
    &&& cfg_simple(es)
    &&& sinks(nodes, es) != Set::<usize>::empty()
    &&& exits_fit(nodes, es)
    &&& elimination_fits(initial_state(nodes, es, cfg.entry, cfg.exit))
    &&& nodes[cfg.entry as int] is Literal
    &&& forall|v: usize| sinks(nodes, es).contains(v) ==> nodes[v as int] is Literal
    &&& cfg_regex(cfg) is Some
    &&& first_defined(cfg_regex(cfg).unwrap())
    &&& first_of(cfg_regex(cfg).unwrap()) is Some
}

/// No two functions of `cfgs` have expressions with the same first block.
pub open spec fn firsts_distinct(cfgs: Map<i32, CFG>) -> bool {
    forall|f: i32, g: i32|
        cfgs.contains_key(f) && cfgs.contains_key(g) && f != g ==> regex_first(cfgs[f]) != regex_first(cfgs[g])
}

/// The regular expression of each function of `cfgs`.
pub open spec fn cfg_regexes(cfgs: Map<i32, CFG>) -> Map<i32, RegModel> {
    cfgs.map_values(|c: CFG| cfg_regex(c).unwrap())
}

/// For the first block of each function, taken in the order of `ks`, the
/// blocks where the function can end; of two functions with the same first
/// block, the later one stays.
pub open spec fn lasts_of(cfgs: Map<i32, CFG>, ks: Seq<i32>) -> Map<i32, Set<i32>>
    decreases ks.len(),
{
    if ks.len() == 0 {
        Map::empty()
    } else {
        lasts_of(cfgs, ks.drop_last()).insert(cfg_entry_block(cfgs[ks.last()]), cfg_exit_blocks(cfgs[ks.last()]))
    }
}

/// The basic block of a node that stands for one.
fn block_of(n: Node) -> (b: i32)
    requires
        n is Literal,
    ensures
        b == node_block(n),
{
    match n {
        Node::Literal(b) => b,
        _ => 0,
    }
}

/// The blocks of the nodes of `cfg` that no edge leaves.
fn sink_blocks(cfg: &CFG) -> (res: BTreeSet<i32>)
    requires
        forall|v: usize| sinks(cfg_nodes(cfg.graph), cfg_edges(cfg.graph)).contains(v) ==> cfg_nodes(cfg.graph)[v as int] is Literal,
    ensures
        res@ == cfg_exit_blocks(*cfg),
{
    let ghost nodes = cfg_nodes(cfg.graph);
    let ghost es = cfg_edges(cfg.graph);
    let n = cfg_node_count(&cfg.graph);
    let mut res: BTreeSet<i32> = BTreeSet::new();
    let mut v: usize = 0;
    while v < n
        invariant
            n == nodes.len(),
            v <= n,
            nodes == cfg_nodes(cfg.graph),
            es == cfg_edges(cfg.graph),
            forall|u: usize| sinks(nodes, es).contains(u) ==> nodes[u as int] is Literal,
            res@ == Set::new(|b: i32| exists|u: usize| u < v && is_sink(es, u) && #[trigger] node_block(nodes[u as int]) == b),
        decreases n - v,
    {
        let d = cfg_out_degree(&cfg.graph, v);
        proof {
            lemma_out_count_zero(es, v);
        }
        let ghost before = res@;
        if d == 0 {
            assert(sinks(nodes, es).contains(v));
            let b = block_of(cfg_node(&cfg.graph, v));
            res.insert(b);
            assert(res@ =~= Set::new(|b: i32| exists|u: usize| u < v + 1 && is_sink(es, u) && #[trigger] node_block(nodes[u as int]) == b)) by {
                assert forall|c: i32| (exists|u: usize| u < v + 1 && is_sink(es, u) && #[trigger] node_block(nodes[u as int]) == c) implies res@.contains(c) by {
                    let u = choose|u: usize| u < v + 1 && is_sink(es, u) && #[trigger] node_block(nodes[u as int]) == c;
                    if u < v {
                        assert(before.contains(c));
                    }
                }
            }
        } else {
            assert(res@ =~= Set::new(|b: i32| exists|u: usize| u < v + 1 && is_sink(es, u) && #[trigger] node_block(nodes[u as int]) == b)) by {
                assert forall|c: i32| (exists|u: usize| u < v + 1 && is_sink(es, u) && #[trigger] node_block(nodes[u as int]) == c) implies res@.contains(c) by {
                    let u = choose|u: usize| u < v + 1 && is_sink(es, u) && #[trigger] node_block(nodes[u as int]) == c;
                    assert(u != v);
                    assert(before.contains(c));
                }
            }
        }
        v = v + 1;
    }
    assert(res@ =~= cfg_exit_blocks(*cfg)) by {
        assert forall|c: i32| res@.contains(c) implies cfg_exit_blocks(*cfg).contains(c) by {
            let u = choose|u: usize| u < n && is_sink(es, u) && #[trigger] node_block(nodes[u as int]) == c;
            assert(sinks(nodes, es).contains(u));
        }
        assert forall|c: i32| cfg_exit_blocks(*cfg).contains(c) implies res@.contains(c) by {
            let u = choose|u: usize| sinks(nodes, es).contains(u) && node_block(nodes[u as int]) == c;
            assert(u < n && is_sink(es, u) && node_block(nodes[u as int]) == c);
        }
    }
    res
}

/// For the first block of each function, the blocks where it can end.
fn last_map(cfgs: &BTreeMap<i32, CFG>) -> (res: BTreeMap<i32, BTreeSet<i32>>)
    requires
        forall|f: i32| cfgs@.contains_key(f) ==> ends_are_blocks(#[trigger] cfgs@[f]),
    ensures
        block_sets(res@) == lasts_of(cfgs@, sorted_keys(cfgs@)),
{
    let ks = map_keys(cfgs);
    let mut res: BTreeMap<i32, BTreeSet<i32>> = BTreeMap::new();
    let mut i: usize = 0;
    assert(block_sets(res@) =~= lasts_of(cfgs@, ks@.take(0)));
    while i < ks.len()
        invariant
            i <= ks.len(),
            ks@.to_set() == cfgs@.dom(),
            forall|f: i32| cfgs@.contains_key(f) ==> ends_are_blocks(#[trigger] cfgs@[f]),
            block_sets(res@) == lasts_of(cfgs@, ks@.take(i as int)),
        decreases ks.len() - i,
    {
        let f = ks[i];
        assert(ks@.to_set().contains(f));
        let cfg = cfgs.get(&f).unwrap();
        let first = block_of(cfg_node(&cfg.graph, cfg.entry));
        let exits = sink_blocks(cfg);
        let ghost before = res@;
        res.insert(first, exits);
        proof {
            let t = ks@.take(i + 1);
            assert(t.drop_last() =~= ks@.take(i as int));
            assert(t.last() == f);
            assert(block_sets(res@) =~= block_sets(before).insert(first, exits@));
        }
        i = i + 1;
    }
    assert(ks@.take(ks.len() as int) =~= ks@);
    res
}

/// The regular expression of each function, from its control flow graph.
fn convert_cfgs(cfgs: BTreeMap<i32, CFG>) -> (res: BTreeMap<i32, RegExp>)
    requires
        forall|f: i32| cfgs@.contains_key(f) ==> cfg_ok(#[trigger] cfgs@[f]),
    ensures
        regex_models(res@) == cfg_regexes(cfgs@),
{
    let ghost orig = cfgs@;
    let mut cfgs = cfgs;
    let ks = map_keys(&cfgs);
    let mut res: BTreeMap<i32, RegExp> = BTreeMap::new();
    let mut i: usize = 0;
    while i < ks.len()
        invariant
            i <= ks.len(),
            ks@.to_set() == orig.dom(),
            ks@.no_duplicates(),
            forall|f: i32| orig.contains_key(f) ==> cfg_ok(#[trigger] orig[f]),
            forall|j: int| i <= j < ks@.len() ==> cfgs@.contains_key(#[trigger] ks@[j]) && cfgs@[ks@[j]] == orig[ks@[j]],
            res@.dom() == ks@.take(i as int).to_set(),
            forall|f: i32| #[trigger] res@.contains_key(f) ==> res@[f]@ == cfg_regex(orig[f]).unwrap(),
        decreases ks.len() - i,
    {
        let f = ks[i];
        assert(ks@.to_set().contains(f));
        let ghost before = cfgs@;
        let cfg = cfgs.remove(&f).unwrap();
        assert(cfg == orig[f]);
        let ghost nodes = cfg_nodes(cfg.graph);
        let ghost es = cfg_edges(cfg.graph);
        let mut gnfa = GNFA::from_intern_cfg(cfg);
        gnfa.reduce();
        let re = gnfa.start_to_end().copy();
        res.insert(f, re);
        proof {
            assert forall|j: int| i + 1 <= j < ks@.len() implies cfgs@.contains_key(#[trigger] ks@[j]) && cfgs@[ks@[j]] == orig[ks@[j]] by {
                assert(ks@[j] != ks@[i as int]);
                assert(before.contains_key(ks@[j]));
            }
            let t1 = ks@.take(i + 1);
            let t0 = ks@.take(i as int);
            assert(res@.dom() =~= t1.to_set()) by {
                assert forall|x: i32| t1.contains(x) <==> (t0.contains(x) || x == f) by {
                    if t1.contains(x) {
                        let p = choose|p: int| 0 <= p < t1.len() && t1[p] == x;
                        if p < i {
                            assert(t0[p] == x);
                        }
                    }
                    if t0.contains(x) {
                        let p = choose|p: int| 0 <= p < t0.len() && t0[p] == x;
                        assert(t1[p] == x);
                    }
                    if x == f {
                        assert(t1[i as int] == x);
                    }
                }
            }
        }
        i = i + 1;
    }
    proof {
        assert(ks@.take(ks.len() as int) =~= ks@);
        assert(regex_models(res@) =~= cfg_regexes(orig));
    }
    res
}

/// Whether every node of `graph` without a way out stands for a basic block.
fn sinks_are_blocks(graph: &Graph<Node, ()>) -> (ok: bool)
    ensures
        ok == (forall|v: usize| sinks(cfg_nodes(*graph), cfg_edges(*graph)).contains(v) ==> cfg_nodes(*graph)[v as int] is Literal),
{
    let ghost nodes = cfg_nodes(*graph);
    let ghost es = cfg_edges(*graph);
    let n = cfg_node_count(graph);
    let mut v: usize = 0;
    while v < n
        invariant
            v <= n,
            n == nodes.len(),
            nodes == cfg_nodes(*graph),
            es == cfg_edges(*graph),
            forall|u: usize| u < v && #[trigger] sinks(nodes, es).contains(u) ==> nodes[u as int] is Literal,
        decreases n - v,
    {
        let d = cfg_out_degree(graph, v);
        proof {
            lemma_out_count_zero(es, v);
        }
        if d == 0 {
            assert(sinks(nodes, es).contains(v));
            let node = cfg_node(graph, v);
            if !matches!(node, Node::Literal(_)) {
                return false;
            }
        }
        v = v + 1;
    }
    true
}

/// The first block of the regular expression of `cfg`, where `cfg_ok`
/// holds of `cfg`; `None` where it does not (where `from_cfgs` would fail).
fn checked_first(cfg: &CFG) -> (res: Option<i32>)
    ensures
        res is Some <==> cfg_ok(*cfg),
        res matches Some(b) ==> b == regex_first(*cfg),
{
    let ghost nodes = cfg_nodes(cfg.graph);
    let ghost es = cfg_edges(cfg.graph);
    let n = cfg_node_count(&cfg.graph);
    if !(cfg.entry < n && cfg.exit < n && edges_distinct(&cfg.graph) && has_sink(&cfg.graph) && automaton_fits(&cfg.graph)) {
        return None;
    }
    let entry_node = cfg_node(&cfg.graph, cfg.entry);
    if !matches!(entry_node, Node::Literal(_)) || !sinks_are_blocks(&cfg.graph) {
        return None;
    }
    let mut gnfa = GNFA::automaton_of_cfg(cfg);
    if !gnfa.try_reduce() {
        return None;
    }
    match gnfa.try_start_to_end() {
        None => None,
        Some(re) => {
            if re.first_is_defined() {
                re.first_opt()
            } else {
                None
            }
        },
    }
}

impl PathReducer {
    /// A reducer for the functions of `cfgs`, where `from_cfgs` can build
    /// one: `None` where the graph of some function cannot be turned into a
    /// regular expression with a first block (`cfg_ok`), or where two
    /// functions' expressions start with the same block.
    pub fn try_from_cfgs(cfgs: BTreeMap<i32, CFG>, k: usize) -> (res: Option<Self>)
        ensures
            res is Some <==> ((forall|f: i32| cfgs@.contains_key(f) ==> cfg_ok(#[trigger] cfgs@[f])) && firsts_distinct(cfgs@)),
            res matches Some(r) ==> {
                &&& r.functions() == cfg_regexes(cfgs@)
                &&& forall|f: i32| #[trigger] cfgs@.contains_key(f) ==>
                    r.first_blocks().contains_key(regex_first(cfgs@[f])) && r.first_blocks()[regex_first(cfgs@[f])] == f
                &&& forall|b: i32| #[trigger] r.first_blocks().contains_key(b) ==>
                    exists|f: i32| cfgs@.contains_key(f) && regex_first(cfgs@[f]) == b
                &&& r.exit_blocks() == lasts_of(cfgs@, sorted_keys(cfgs@))
                &&& r.bound() == k
                &&& env_plain(r.functions())
            },
    {
        let ghost orig = cfgs@;
        let ks = map_keys(&cfgs);
        let mut seen: BTreeMap<i32, i32> = BTreeMap::new();
        let mut i: usize = 0;
        while i < ks.len()
            invariant
                i <= ks.len(),
                orig == cfgs@,
                ks@.to_set() == orig.dom(),
                ks@.no_duplicates(),
                forall|j: int| 0 <= j < i ==> cfg_ok(orig[#[trigger] ks@[j]]),
                forall|j: int| 0 <= j < i ==> seen@.contains_key(regex_first(orig[#[trigger] ks@[j]])),
                forall|b: i32| #[trigger] seen@.contains_key(b) ==> exists|j: int| 0 <= j < i && regex_first(orig[ks@[j]]) == b,
                forall|j1: int, j2: int| 0 <= j1 < i && 0 <= j2 < i && j1 != j2 ==>
                    regex_first(orig[#[trigger] ks@[j1]]) != regex_first(orig[#[trigger] ks@[j2]]),
            decreases ks.len() - i,
        {
            let f = ks[i];
            assert(ks@.to_set().contains(f));
            let cfg = cfgs.get(&f).unwrap();
            match checked_first(cfg) {
                None => {
                    return None;
                },
                Some(b) => {
                    if seen.contains_key(&b) {
                        proof {
                            let j = choose|j: int| 0 <= j < i && regex_first(orig[ks@[j]]) == b;
                            assert(ks@[j] != f);
                            assert(ks@.to_set().contains(ks@[j]));
                        }
                        return None;
                    }
                    let ghost before = seen@;
                    seen.insert(b, f);
                    proof {
                        assert forall|b2: i32| #[trigger] seen@.contains_key(b2) implies exists|j: int| 0 <= j < i + 1 && regex_first(orig[ks@[j]]) == b2 by {
                            if b2 != b {
                                assert(before.contains_key(b2));
                                let j = choose|j: int| 0 <= j < i && regex_first(orig[ks@[j]]) == b2;
                                assert(0 <= j < i + 1 && regex_first(orig[ks@[j]]) == b2);
                            } else {
                                assert(regex_first(orig[ks@[i as int]]) == b2);
                            }
                        }
                        assert forall|j1: int, j2: int| 0 <= j1 < i + 1 && 0 <= j2 < i + 1 && j1 != j2 implies
                            regex_first(orig[#[trigger] ks@[j1]]) != regex_first(orig[#[trigger] ks@[j2]]) by {
                            if j1 == i {
                                assert(before.contains_key(regex_first(orig[ks@[j2]])));
                            } else if j2 == i {
                                assert(before.contains_key(regex_first(orig[ks@[j1]])));
                            }
                        }
                    }
                },
            }
            i = i + 1;
        }
        proof {
            assert forall|f: i32| orig.contains_key(f) implies cfg_ok(#[trigger] orig[f]) by {
                assert(ks@.to_set().contains(f));
                let j = choose|j: int| 0 <= j < ks@.len() && ks@[j] == f;
                assert(cfg_ok(orig[ks@[j]]));
            }
            assert forall|f: i32, g: i32| orig.contains_key(f) && orig.contains_key(g) && f != g implies regex_first(orig[f]) != regex_first(orig[g]) by {
                assert(ks@.to_set().contains(f));
                assert(ks@.to_set().contains(g));
                let j1 = choose|j: int| 0 <= j < ks@.len() && ks@[j] == f;
                let j2 = choose|j: int| 0 <= j < ks@.len() && ks@[j] == g;
                assert(regex_first(orig[ks@[j1]]) != regex_first(orig[ks@[j2]]));
            }
        }
        Some(PathReducer::from_cfgs(cfgs, k))
    }

    /// A reducer for the functions of `cfgs`, each given by its control flow
    /// graph, with bound `k` (`SIMPLE_REDUCTION_K` selects the simple
    /// reduction). Each function's graph becomes a regular expression; each
    /// function is found again by the first block of its expression, and for
    /// its first block the blocks where it can end are kept.
    pub fn from_cfgs(cfgs: BTreeMap<i32, CFG>, k: usize) -> (res: Self)
        requires
            forall|f: i32| cfgs@.contains_key(f) ==> cfg_ok(#[trigger] cfgs@[f]),
            firsts_distinct(cfgs@),
        ensures
            res.functions() == cfg_regexes(cfgs@),
            forall|f: i32| #[trigger] cfgs@.contains_key(f) ==>
                res.first_blocks().contains_key(regex_first(cfgs@[f])) && res.first_blocks()[regex_first(cfgs@[f])] == f,
            forall|b: i32| #[trigger] res.first_blocks().contains_key(b) ==>
                exists|f: i32| cfgs@.contains_key(f) && regex_first(cfgs@[f]) == b,
            res.exit_blocks() == lasts_of(cfgs@, sorted_keys(cfgs@)),
            res.bound() == k,
            env_plain(res.functions()),
    {
        let ghost orig = cfgs@;
        assert(forall|f: i32| orig.contains_key(f) ==> ends_are_blocks(#[trigger] orig[f]));
        let lasts = last_map(&cfgs);
        let ks = map_keys(&cfgs);
        let res = convert_cfgs(cfgs);
        let mut firsts: BTreeMap<i32, i32> = BTreeMap::new();
        let mut i: usize = 0;
        while i < ks.len()
            invariant
                i <= ks.len(),
                ks@.to_set() == orig.dom(),
                ks@.no_duplicates(),
                forall|f: i32| orig.contains_key(f) ==> cfg_ok(#[trigger] orig[f]),
                firsts_distinct(orig),
                regex_models(res@) == cfg_regexes(orig),
                forall|j: int| 0 <= j < i ==> firsts@.contains_key(regex_first(orig[#[trigger] ks@[j]])) && firsts@[regex_first(orig[ks@[j]])] == ks@[j],
                forall|b: i32| #[trigger] firsts@.contains_key(b) ==> exists|j: int| 0 <= j < i && regex_first(orig[ks@[j]]) == b,
            decreases ks.len() - i,
        {
            let f = ks[i];
            assert(ks@.to_set().contains(f));
            assert(regex_models(res@).contains_key(f));
            let re = res.get(&f).unwrap();
            assert(regex_models(res@)[f] == res@[f]@);
            assert(cfg_regexes(orig)[f] == cfg_regex(orig[f]).unwrap());
            assert(re@ == cfg_regex(orig[f]).unwrap());
            let first = re.first();
            let ghost before = firsts@;
            firsts.insert(first, f);
            proof {
                assert forall|j: int| 0 <= j < i + 1 implies firsts@.contains_key(regex_first(orig[#[trigger] ks@[j]])) && firsts@[regex_first(orig[ks@[j]])] == ks@[j] by {
                    if j < i {
                        assert(ks@[j] != f);
                        assert(ks@.to_set().contains(ks@[j]));
                        assert(regex_first(orig[ks@[j]]) != first);
                    }
                }
                assert forall|b: i32| #[trigger] firsts@.contains_key(b) implies exists|j: int| 0 <= j < i + 1 && regex_first(orig[ks@[j]]) == b by {
                    if b != first {
                        assert(before.contains_key(b));
                        let j = choose|j: int| 0 <= j < i && regex_first(orig[ks@[j]]) == b;
                        assert(0 <= j < i + 1 && regex_first(orig[ks@[j]]) == b);
                    } else {
                        assert(regex_first(orig[ks@[i as int]]) == b);
                    }
                }
            }
            i = i + 1;
        }
        let res = PathReducer { res, firsts, lasts, k };
        proof {
            assert forall|f: i32| #[trigger] orig.contains_key(f) implies
                res.first_blocks().contains_key(regex_first(orig[f])) && res.first_blocks()[regex_first(orig[f])] == f by {
                assert(ks@.to_set().contains(f));
                let j = choose|j: int| 0 <= j < ks@.len() && ks@[j] == f;
                assert(firsts@.contains_key(regex_first(orig[ks@[j]])));
            }
            assert forall|b: i32| #[trigger] res.first_blocks().contains_key(b) implies
                exists|f: i32| orig.contains_key(f) && regex_first(orig[f]) == b by {
                let j = choose|j: int| 0 <= j < ks@.len() && regex_first(orig[ks@[j]]) == b;
                assert(ks@.to_set().contains(ks@[j]));
            }
            assert forall|x: i32| #[trigger] res.functions().contains_key(x) implies plain(res.functions()[x]) by {
                assert(cfg_regexes(orig)[x] == cfg_regex(orig[x]).unwrap());
                lemma_cfg_regex_plain(orig[x]);
            }
        }
        res
    }
}

/// The keys of `ks` rise strictly.
pub open spec fn increasing(ks: Seq<i32>) -> bool {
    forall|i: int, j: int| 0 <= i < j < ks.len() ==> ks[i] < ks[j]
}

/// The keys of `m`, in increasing order.
pub open spec fn sorted_keys<V>(m: Map<i32, V>) -> Seq<i32> {
    choose|ks: Seq<i32>| ks.to_set() == m.dom() && increasing(ks)
}

/// Two strictly rising sequences of the same keys are the same sequence.
pub proof fn lemma_increasing_unique(a: Seq<i32>, b: Seq<i32>)
    requires
        increasing(a),
        increasing(b),
        a.to_set() == b.to_set(),
    ensures
        a == b,
    decreases a.len(),
{
    if a.len() == 0 || b.len() == 0 {
        if a.len() > 0 {
            assert(a.to_set().contains(a[0]));
            assert(b.contains(a[0]));
        }
        if b.len() > 0 {
            assert(b.to_set().contains(b[0]));
            assert(a.contains(b[0]));
        }
        assert(a =~= b);
    } else {
        assert(a.to_set().contains(a[0]));
        assert(b.contains(a[0]));
        assert(b.to_set().contains(b[0]));
        assert(a.contains(b[0]));
        let i = choose|i: int| 0 <= i < b.len() && b[i] == a[0];
        let j = choose|j: int| 0 <= j < a.len() && a[j] == b[0];
        if i > 0 {
            assert(b[0] < b[i]);
            assert(a[0] <= a[j]);
        }
        assert(a[0] == b[0]);
        let a1 = a.drop_first();
        let b1 = b.drop_first();
        assert forall|x: i32| a1.to_set().contains(x) <==> b1.to_set().contains(x) by {
            if a1.contains(x) {
                let p = choose|p: int| 0 <= p < a1.len() && a1[p] == x;
                assert(a[p + 1] == x);
                assert(a.to_set().contains(x));
                assert(b.contains(x));
                let q = choose|q: int| 0 <= q < b.len() && b[q] == x;
                assert(q != 0);
                assert(b1[q - 1] == x);
            }
            if b1.contains(x) {
                let p = choose|p: int| 0 <= p < b1.len() && b1[p] == x;
                assert(b[p + 1] == x);
                assert(b.to_set().contains(x));
                assert(a.contains(x));
                let q = choose|q: int| 0 <= q < a.len() && a[q] == x;
                assert(q != 0);
                assert(a1[q - 1] == x);
            }
        }
        assert(a1.to_set() =~= b1.to_set());
        lemma_increasing_unique(a1, b1);
        assert(a.len() == b.len());
        assert forall|i: int| 0 <= i < a.len() implies a[i] == b[i] by {
            if i > 0 {
                assert(a[i] == a1[i - 1] && b[i] == b1[i - 1]);
            }
        }
        assert(a =~= b);
    }
}

/// The keys of `m`, in increasing order.
fn map_keys<V>(m: &BTreeMap<i32, V>) -> (ks: Vec<i32>)
    ensures
        ks@ == sorted_keys(m@),
        ks@.to_set() == m@.dom(),
        ks@.no_duplicates(),
        increasing(ks@),
{
    let ghost whole = vstd::std_specs::btree::spec_keys_iter(m).remaining().unref();
    let mut ks: Vec<i32> = Vec::new();
    for k in it: m.keys()
        invariant
            it.seq().unref() == whole,
            ks@ == whole.take(it.index()),
    {
        ks.push(*k);
        assert(ks@ =~= whole.take(it.index() + 1));
    }
    assert(ks@ =~= whole);
    proof {
        vstd::std_specs::btree::axiom_spec_keys_iter(m);
        let rem = vstd::std_specs::btree::spec_keys_iter(m).remaining();
        assert(vstd::laws_cmp::obeys_cmp::<i32>());
        broadcast use vstd::laws_cmp::lemma_ref_obeys_cmp_spec;
        assert(vstd::laws_cmp::obeys_cmp::<&i32>());
        assert(vstd::std_specs::btree::increasing_seq(rem));
        assert forall|i: int, j: int| 0 <= i < j < ks@.len() implies ks@[i] < ks@[j] by {
            assert(vstd::std_specs::cmp::OrdSpec::cmp_spec(&rem[i], &rem[j]) is Less);
            assert(ks@[i] == *rem[i] && ks@[j] == *rem[j]);
        }
        assert(increasing(ks@));
        let s = sorted_keys(m@);
        assert(s.to_set() == m@.dom() && increasing(s));
        lemma_increasing_unique(ks@, s);
    }
    ks
}

} // verus!
