//! Subsequences of block sequences: what a reduction may keep of a path.

use vstd::prelude::*;

verus! {

/// `f` places each block of `a` at a position of `b` that holds it, the
/// positions rising.
pub open spec fn embedding(f: Seq<int>, a: Seq<i32>, b: Seq<i32>) -> bool {
    &&& f.len() == a.len()
    &&& forall|i: int| 0 <= i < f.len() ==> 0 <= #[trigger] f[i] < b.len() && b[f[i]] == a[i]
    &&& forall|i: int, j: int| 0 <= i < j < f.len() ==> f[i] < f[j]
}

/// `a` is a subsequence of `b`: its blocks occur in `b` in the same order.
pub open spec fn subsequence(a: Seq<i32>, b: Seq<i32>) -> bool {
    exists|f: Seq<int>| #[trigger] embedding(f, a, b)
}

/// Every sequence is a subsequence of itself.
pub proof fn lemma_subseq_refl(a: Seq<i32>)
    ensures
        subsequence(a, a),
{
    let f = Seq::new(a.len(), |i: int| i);
    assert(embedding(f, a, a));
}

/// The empty sequence is a subsequence of every sequence.
pub proof fn lemma_subseq_empty(b: Seq<i32>)
    ensures
        subsequence(seq![], b),
{
    let f = Seq::<int>::empty();
    assert(embedding(f, seq![], b));
}

/// Subsequences of two parts make a subsequence of the two parts joined.
pub proof fn lemma_subseq_concat(a1: Seq<i32>, b1: Seq<i32>, a2: Seq<i32>, b2: Seq<i32>)
    requires
        subsequence(a1, b1),
        subsequence(a2, b2),
    ensures
        subsequence(a1 + a2, b1 + b2),
{
    let f1 = choose|f: Seq<int>| #[trigger] embedding(f, a1, b1);
    let f2 = choose|f: Seq<int>| #[trigger] embedding(f, a2, b2);
    let g = f1 + Seq::new(f2.len(), |i: int| f2[i] + b1.len());
    let a = a1 + a2;
    let b = b1 + b2;
    assert forall|i: int| 0 <= i < g.len() implies 0 <= #[trigger] g[i] < b.len() && b[g[i]] == a[i] by {
        if i < f1.len() {
            assert(g[i] == f1[i]);
        } else {
            assert(g[i] == f2[i - f1.len()] + b1.len());
        }
    }
    assert forall|i: int, j: int| 0 <= i < j < g.len() implies g[i] < g[j] by {
        if j < f1.len() {
        } else if i < f1.len() {
            assert(g[j] == f2[j - f1.len()] + b1.len());
        } else {
            assert(g[i] == f2[i - f1.len()] + b1.len());
            assert(g[j] == f2[j - f1.len()] + b1.len());
        }
    }
    assert(embedding(g, a, b));
}

/// A subsequence of a subsequence is a subsequence.
pub proof fn lemma_subseq_trans(a: Seq<i32>, b: Seq<i32>, c: Seq<i32>)
    requires
        subsequence(a, b),
        subsequence(b, c),
    ensures
        subsequence(a, c),
{
    let f = choose|f: Seq<int>| #[trigger] embedding(f, a, b);
    let g = choose|g: Seq<int>| #[trigger] embedding(g, b, c);
    let h = Seq::new(f.len(), |i: int| g[f[i]]);
    assert forall|i: int| 0 <= i < h.len() implies 0 <= #[trigger] h[i] < c.len() && c[h[i]] == a[i] by {
        assert(0 <= f[i] < b.len());
        assert(0 <= g[f[i]] < c.len());
    }
    assert forall|i: int, j: int| 0 <= i < j < h.len() implies h[i] < h[j] by {
        assert(f[i] < f[j]);
        assert(0 <= f[i] < b.len() && 0 <= f[j] < b.len());
        assert(g[f[i]] < g[f[j]]);
    }
    assert(embedding(h, a, c));
}

/// A front part of a sequence is a subsequence of it.
pub proof fn lemma_subseq_take(a: Seq<i32>, n: int)
    requires
        0 <= n <= a.len(),
    ensures
        subsequence(a.take(n), a),
{
    let f = Seq::new(n as nat, |i: int| i);
    assert(embedding(f, a.take(n), a));
}

/// A subsequence of `b` stays one when `b` grows at the back.
pub proof fn lemma_subseq_extend(a: Seq<i32>, b: Seq<i32>, c: Seq<i32>)
    requires
        subsequence(a, b),
    ensures
        subsequence(a, b + c),
{
    lemma_subseq_empty(c);
    lemma_subseq_concat(a, b, seq![], c);
    assert(a + seq![] =~= a);
}

/// `rest` is what is left of `path` once a front part has been taken off.
pub open spec fn suffix_of(rest: Seq<i32>, path: Seq<i32>) -> bool {
    rest.len() <= path.len() && path == path.take(path.len() - rest.len()) + rest
}

/// The front part of `path` that was taken off to leave `rest`.
pub open spec fn consumed(path: Seq<i32>, rest: Seq<i32>) -> Seq<i32> {
    path.take(path.len() - rest.len())
}

/// Taking off a front part of `path` and then one of what is left takes off
/// the two parts joined.
pub proof fn lemma_suffix_chain(path: Seq<i32>, mid: Seq<i32>, rest: Seq<i32>)
    requires
        suffix_of(mid, path),
        suffix_of(rest, mid),
    ensures
        suffix_of(rest, path),
        consumed(path, rest) == consumed(path, mid) + consumed(mid, rest),
{
    let c1 = consumed(path, mid);
    let c2 = consumed(mid, rest);
    assert(path =~= (c1 + c2) + rest);
    assert(consumed(path, rest) =~= c1 + c2);
}

/// Every sequence is left of itself, with nothing taken off.
pub proof fn lemma_suffix_refl(path: Seq<i32>)
    ensures
        suffix_of(path, path),
        consumed(path, path) == Seq::<i32>::empty(),
{
    assert(path.take(0) =~= Seq::<i32>::empty());
    assert(path =~= path.take(0) + path);
}

/// Taking off the first block leaves the rest.
pub proof fn lemma_suffix_drop_first(path: Seq<i32>)
    requires
        path.len() > 0,
    ensures
        suffix_of(path.drop_first(), path),
        consumed(path, path.drop_first()) == seq![path[0]],
{
    assert(path =~= path.take(1) + path.drop_first());
    assert(path.take(1) =~= seq![path[0]]);
}

} // verus!
