//! Moving elements out of vectors, and order-keeping rewrites of sequences.
use vstd::prelude::*;

verus! {

/// Takes the element at `i`, leaving `filler` in its place.
pub fn take_at<T>(v: &mut Vec<T>, i: usize, filler: T) -> (r: T)
    requires
        i < old(v)@.len(),
    ensures
        r == old(v)@[i as int],
        final(v)@ == old(v)@.update(i as int, filler),
{
    let mut f = filler;
    std::mem::swap(&mut v[i], &mut f);
    f
}

/// Takes all elements, leaving `v` empty.
pub fn take_all<T>(v: &mut Vec<T>) -> (r: Vec<T>)
    ensures
        r@ == old(v)@,
        final(v)@.len() == 0,
{
    let mut e: Vec<T> = Vec::new();
    std::mem::swap(v, &mut e);
    e
}

/// Left to right, each element is dropped when `p` holds of the last element kept and it.
pub open spec fn collapse<A>(s: Seq<A>, p: spec_fn(A, A) -> bool) -> Seq<A>
    decreases s.len(),
{
    if s.len() == 0 {
        seq![]
    } else {
        let r = collapse(s.drop_last(), p);
        if r.len() > 0 && p(r.last(), s.last()) {
            r
        } else {
            r.push(s.last())
        }
    }
}

pub proof fn lemma_collapse_len<A>(s: Seq<A>, p: spec_fn(A, A) -> bool)
    ensures
        collapse(s, p).len() <= s.len(),
    decreases s.len(),
{
    if s.len() > 0 {
        lemma_collapse_len(s.drop_last(), p);
    }
}

/// The elements of `v` in reverse order.
pub fn reversed<A>(v: Vec<A>) -> (r: Vec<A>)
    ensures
        r@.len() == v@.len(),
        forall|k: int| 0 <= k < v@.len() ==> #[trigger] r@[k] == v@[v@.len() - 1 - k],
{
    let mut v = v;
    let ghost orig = v@;
    let ghost n = orig.len();
    let mut r: Vec<A> = Vec::new();
    while v.len() > 0
        invariant
            v@ == orig.take(v@.len() as int),
            r@.len() + v@.len() == n,
            n == orig.len(),
            forall|k: int| 0 <= k < r@.len() ==> #[trigger] r@[k] == orig[n - 1 - k],
        decreases v@.len(),
    {
        let ghost before = v@;
        let x = v.pop().unwrap();
        assert(x == orig[n - 1 - r@.len()]);
        r.push(x);
        assert(v@ =~= orig.take(v@.len() as int));
    }
    r
}

/// The elements of `v` left after dropping, left to right, each one that `f` (deciding as `p`)
/// pairs with the last element kept.
pub fn collapse_vec<A, F: Fn(&A, &A) -> bool>(v: Vec<A>, f: F, Ghost(p): Ghost<spec_fn(A, A) -> bool>) -> (r: Vec<A>)
    requires
        forall|a: &A, b: &A| #[trigger] f.requires((a, b)),
        forall|a: &A, b: &A, x: bool| f.ensures((a, b), x) ==> x == p(*a, *b),
    ensures
        r@ == collapse(v@, p),
{
    let ghost orig = v@;
    let n = v.len();
    let mut rev = reversed(v);
    let mut out: Vec<A> = Vec::new();
    let mut i: usize = 0;
    while i < n
        invariant
            n == orig.len(),
            rev@.len() == n - i,
            i <= n,
            forall|k: int| 0 <= k < rev@.len() ==> #[trigger] rev@[k] == orig[n - 1 - k],
            out@ == collapse(orig.take(i as int), p),
            forall|a: &A, b: &A| #[trigger] f.requires((a, b)),
            forall|a: &A, b: &A, x: bool| f.ensures((a, b), x) ==> x == p(*a, *b),
        decreases n - i,
    {
        assert(orig.take(i + 1).drop_last() =~= orig.take(i as int));
        assert(rev@[rev@.len() - 1] == orig[i as int]);
        let item = rev.pop().unwrap();
        let drop = out.len() > 0 && f(&out[out.len() - 1], &item);
        if !drop {
            out.push(item);
        }
        i += 1;
    }
    assert(orig.take(n as int) =~= orig);
    out
}

/// The elements of `v` that `f` (given `ctx`, deciding as `p`) keeps, in order.
pub fn filter_vec<C, A, F: Fn(&C, &A) -> bool>(ctx: &C, v: Vec<A>, f: F, Ghost(p): Ghost<spec_fn(A) -> bool>) -> (r: Vec<A>)
    requires
        forall|a: &A| #[trigger] f.requires((ctx, a)),
        forall|a: &A, x: bool| f.ensures((ctx, a), x) ==> x == p(*a),
    ensures
        r@ == v@.filter(p),
{
    let ghost orig = v@;
    let n = v.len();
    let mut rev = reversed(v);
    let mut out: Vec<A> = Vec::new();
    let mut i: usize = 0;
    while i < n
        invariant
            n == orig.len(),
            rev@.len() == n - i,
            i <= n,
            forall|k: int| 0 <= k < rev@.len() ==> #[trigger] rev@[k] == orig[n - 1 - k],
            out@ == orig.take(i as int).filter(p),
            forall|a: &A| #[trigger] f.requires((ctx, a)),
            forall|a: &A, x: bool| f.ensures((ctx, a), x) ==> x == p(*a),
        decreases n - i,
    {
        assert(orig.take(i + 1) =~= orig.take(i as int).push(orig[i as int]));
        proof {
            orig.take(i as int).lemma_filter_push(orig[i as int], p);
        }
        assert(rev@[rev@.len() - 1] == orig[i as int]);
        let item = rev.pop().unwrap();
        if f(ctx, &item) {
            out.push(item);
        }
        i += 1;
    }
    assert(orig.take(n as int) =~= orig);
    out
}

} // verus!
