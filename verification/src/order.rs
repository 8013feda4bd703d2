//! Lexicographic order on names, as `Ord` orders `String`s, and sorting by it.
use vstd::prelude::*;
use crate::names::views;
use crate::text::chars_of;

verus! {

/// `a` comes no later than `b`: character by character, the first difference decides,
/// and a prefix comes first. (UTF-8 bytes order strings as their characters do.)
pub open spec fn lex_le(a: Seq<char>, b: Seq<char>) -> bool
    decreases a.len(),
{
    if a.len() == 0 {
        true
    } else if b.len() == 0 {
        false
    } else if a[0] != b[0] {
        a[0] < b[0]
    } else {
        lex_le(a.drop_first(), b.drop_first())
    }
}

/// Every element comes no later than every element after it.
pub open spec fn sorted(s: Seq<Seq<char>>) -> bool {
    forall|i: int, j: int| 0 <= i < j < s.len() ==> lex_le(#[trigger] s[i], #[trigger] s[j])
}

pub proof fn lemma_lex_total(a: Seq<char>, b: Seq<char>)
    ensures
        lex_le(a, b) || lex_le(b, a),
    decreases a.len(),
{
    if a.len() > 0 && b.len() > 0 && a[0] == b[0] {
        lemma_lex_total(a.drop_first(), b.drop_first());
    }
}

pub proof fn lemma_lex_antisym(a: Seq<char>, b: Seq<char>)
    requires
        lex_le(a, b),
        lex_le(b, a),
    ensures
        a == b,
    decreases a.len(),
{
    if a.len() == 0 {
        assert(b.len() == 0);
        assert(a =~= b);
    } else {
        lemma_lex_antisym(a.drop_first(), b.drop_first());
        assert(a =~= seq![a[0]] + a.drop_first());
        assert(b =~= seq![b[0]] + b.drop_first());
    }
}

pub proof fn lemma_lex_trans(a: Seq<char>, b: Seq<char>, c: Seq<char>)
    requires
        lex_le(a, b),
        lex_le(b, c),
    ensures
        lex_le(a, c),
    decreases a.len(),
{
    if a.len() > 0 && b.len() > 0 && c.len() > 0 && a[0] == b[0] && b[0] == c[0] {
        lemma_lex_trans(a.drop_first(), b.drop_first(), c.drop_first());
    }
}

/// Whether `a` comes no later than `b`.
pub fn lex_le_exec(a: &str, b: &str) -> (r: bool)
    ensures
        r == lex_le(a@, b@),
{
    let x = chars_of(a);
    let y = chars_of(b);
    let mut i: usize = 0;
    assert(a@.skip(0) =~= a@);
    assert(b@.skip(0) =~= b@);
    while i < x.len() && i < y.len()
        invariant
            x@ == a@,
            y@ == b@,
            i <= x@.len(),
            i <= y@.len(),
            lex_le(a@, b@) == lex_le(a@.skip(i as int), b@.skip(i as int)),
        decreases x.len() - i,
    {
        assert(a@.skip(i as int)[0] == x@[i as int]);
        assert(b@.skip(i as int)[0] == y@[i as int]);
        if x[i] != y[i] {
            return x[i] < y[i];
        }
        assert(a@.skip(i as int).drop_first() =~= a@.skip(i + 1));
        assert(b@.skip(i as int).drop_first() =~= b@.skip(i + 1));
        i += 1;
    }
    x.len() <= y.len()
}

/// The strings of `v` in ascending order.
pub fn sort_strings(v: Vec<String>) -> (r: Vec<String>)
    ensures
        r@.len() == v@.len(),
        sorted(views(r@)),
        forall|x: Seq<char>| #[trigger] views(r@).contains(x) <==> views(v@).contains(x),
        views(v@).no_duplicates() ==> views(r@).no_duplicates(),
{
    let mut r: Vec<String> = Vec::new();
    let mut i: usize = 0;
    while i < v.len()
        invariant
            i <= v@.len(),
            r@.len() == i,
            sorted(views(r@)),
            forall|x: Seq<char>| #[trigger] views(r@).contains(x) <==> views(v@).take(i as int).contains(x),
            views(v@).no_duplicates() ==> views(r@).no_duplicates(),
        decreases v.len() - i,
    {
        let x = v[i].clone();
        let ghost rv = views(r@);
        let mut j: usize = 0;
        while j < r.len() && lex_le_exec(r[j].as_str(), x.as_str())
            invariant
                j <= r@.len(),
                rv == views(r@),
                forall|k: int| 0 <= k < j ==> lex_le(#[trigger] rv[k], x@),
            decreases r.len() - j,
        {
            j += 1;
        }
        proof {
            if j < r@.len() {
                lemma_lex_total(rv[j as int], x@);
            }
        }
        r.insert(j, x);
        proof {
            let nv = views(r@);
            assert(nv =~= rv.insert(j as int, x@));
            assert forall|a: int, b: int| 0 <= a < b < nv.len() implies lex_le(#[trigger] nv[a], #[trigger] nv[b]) by {
                if b < j {
                    assert(nv[a] == rv[a] && nv[b] == rv[b]);
                } else if b == j {
                    assert(nv[a] == rv[a]);
                } else if a == j {
                    assert(nv[b] == rv[b - 1]);
                    if b - 1 > j {
                        lemma_lex_trans(x@, rv[j as int], rv[b - 1]);
                    }
                } else if a < j {
                    assert(nv[a] == rv[a] && nv[b] == rv[b - 1]);
                } else {
                    assert(nv[a] == rv[a - 1] && nv[b] == rv[b - 1]);
                }
            }
            let t = views(v@).take(i + 1);
            assert(t =~= views(v@).take(i as int).push(x@));
            assert forall|y: Seq<char>| #[trigger] nv.contains(y) <==> t.contains(y) by {
                if nv.contains(y) {
                    let k = choose|k: int| 0 <= k < nv.len() && nv[k] == y;
                    if k < j {
                        assert(rv[k] == y);
                        assert(rv.contains(y));
                        assert(t[views(v@).take(i as int).index_of(y)] == y);
                    } else if k == j {
                        assert(t[i as int] == y);
                    } else {
                        assert(rv[k - 1] == y);
                        assert(rv.contains(y));
                        assert(t[views(v@).take(i as int).index_of(y)] == y);
                    }
                }
                if t.contains(y) {
                    let k = choose|k: int| 0 <= k < t.len() && t[k] == y;
                    if k == i {
                        assert(nv[j as int] == y);
                    } else {
                        assert(views(v@).take(i as int)[k] == y);
                        assert(rv.contains(y));
                        let m = choose|m: int| 0 <= m < rv.len() && rv[m] == y;
                        if m < j {
                            assert(nv[m] == y);
                        } else {
                            assert(nv[m + 1] == y);
                        }
                    }
                }
            }
            if views(v@).no_duplicates() {
                assert(!rv.contains(x@)) by {
                    if rv.contains(x@) {
                        let k = choose|k: int| 0 <= k < i && views(v@).take(i as int)[k] == x@;
                        assert(views(v@)[k] == views(v@)[i as int]);
                    }
                }
                assert forall|a: int, b: int| 0 <= a < nv.len() && 0 <= b < nv.len() && a != b implies nv[a] != nv[b] by {
                    if a == j {
                        if b < j {
                            assert(rv[b] == nv[b]);
                        } else {
                            assert(rv[b - 1] == nv[b]);
                        }
                    } else if b == j {
                        if a < j {
                            assert(rv[a] == nv[a]);
                        } else {
                            assert(rv[a - 1] == nv[a]);
                        }
                    } else {
                        let a2 = if a < j { a } else { a - 1 };
                        let b2 = if b < j { b } else { b - 1 };
                        assert(nv[a] == rv[a2] && nv[b] == rv[b2]);
                    }
                }
            }
        }
        i += 1;
    }
    assert(views(v@).take(v@.len() as int) =~= views(v@));
    r
}

} // verus!
