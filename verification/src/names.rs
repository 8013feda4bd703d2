//! Insertion-ordered maps and sets keyed by names or indices.
use vstd::prelude::*;

verus! {

/// The abstract text of each string in a sequence.
pub open spec fn views(s: Seq<String>) -> Seq<Seq<char>> {
    s.map_values(|k: String| k@)
}

/// Exact equality of two string slices.
pub fn str_eq(a: &str, b: &str) -> (r: bool)
    ensures
        r == (a@ == b@),
{
    let x = a.to_string();
    let y = b.to_string();
    proof {
        broadcast use vstd::string::group_string_axioms;
    }
    x == y
}

/// A copy of a string with the same text.
pub fn copy_string(s: &String) -> (r: String)
    ensures
        r@ == s@,
{
    s.clone()
}

/// A copy of a list of strings with the same texts.
pub fn copy_strings(v: &Vec<String>) -> (r: Vec<String>)
    ensures
        views(r@) == views(v@),
{
    let mut r: Vec<String> = Vec::new();
    let mut i: usize = 0;
    while i < v.len()
        invariant
            i <= v.len(),
            views(r@) == views(v@).take(i as int),
        decreases v.len() - i,
    {
        let c = v[i].clone();
        assert(c@ == v@[i as int]@);
        let ghost before = r@;
        r.push(c);
        assert(views(r@) =~= views(before).push(c@));
        assert(views(v@).take(i + 1) =~= views(v@).take(i as int).push(v@[i as int]@));
        i += 1;
    }
    assert(views(v@).take(v.len() as int) =~= views(v@));
    r
}

/// The names whose values satisfy `p`, in order.
pub open spec fn select<V>(ks: Seq<Seq<char>>, vs: Seq<V>, p: spec_fn(V) -> bool) -> Seq<Seq<char>>
    decreases ks.len(),
{
    if ks.len() == 0 || vs.len() != ks.len() {
        seq![]
    } else {
        let r = select(ks.drop_last(), vs.drop_last(), p);
        if p(vs.last()) {
            r.push(ks.last())
        } else {
            r
        }
    }
}

/// One more position of a selection.
pub proof fn lemma_select_step<V>(ks: Seq<Seq<char>>, vs: Seq<V>, p: spec_fn(V) -> bool, i: int)
    requires
        0 <= i < ks.len(),
        ks.len() == vs.len(),
    ensures
        select(ks.take(i + 1), vs.take(i + 1), p) == (if p(vs[i]) {
            select(ks.take(i), vs.take(i), p).push(ks[i])
        } else {
            select(ks.take(i), vs.take(i), p)
        }),
{
    assert(ks.take(i + 1).drop_last() =~= ks.take(i));
    assert(vs.take(i + 1).drop_last() =~= vs.take(i));
}

/// A selection over whole sequences is the selection over their full prefixes.
pub proof fn lemma_select_full<V>(ks: Seq<Seq<char>>, vs: Seq<V>, p: spec_fn(V) -> bool)
    ensures
        select(ks.take(ks.len() as int), vs.take(vs.len() as int), p) == select(ks, vs, p),
{
    assert(ks.take(ks.len() as int) =~= ks);
    assert(vs.take(vs.len() as int) =~= vs);
}

/// A name is selected exactly when some position holds it with a passing value.
pub proof fn lemma_select_contains<V>(ks: Seq<Seq<char>>, vs: Seq<V>, p: spec_fn(V) -> bool, x: Seq<char>)
    requires
        ks.len() == vs.len(),
    ensures
        select(ks, vs, p).contains(x) <==> exists|i: int| 0 <= i < ks.len() && ks[i] == x && #[trigger] p(vs[i]),
    decreases ks.len(),
{
    if ks.len() > 0 {
        let r = select(ks.drop_last(), vs.drop_last(), p);
        lemma_select_contains(ks.drop_last(), vs.drop_last(), p, x);
        lemma_push_contains(r, ks.last());
        if select(ks, vs, p).contains(x) {
            if r.contains(x) {
                let i = choose|i: int| 0 <= i < ks.len() - 1 && ks.drop_last()[i] == x && #[trigger] p(vs.drop_last()[i]);
                assert(ks[i] == x && p(vs[i]));
            } else {
                assert(ks[ks.len() - 1] == x && p(vs[vs.len() - 1]));
            }
        }
        if exists|i: int| 0 <= i < ks.len() && ks[i] == x && #[trigger] p(vs[i]) {
            let i = choose|i: int| 0 <= i < ks.len() && ks[i] == x && #[trigger] p(vs[i]);
            if i < ks.len() - 1 {
                assert(ks.drop_last()[i] == x && p(vs.drop_last()[i]));
            }
        }
    }
}

/// Selecting from duplicate-free names gives duplicate-free names.
pub proof fn lemma_select_nodup<V>(ks: Seq<Seq<char>>, vs: Seq<V>, p: spec_fn(V) -> bool)
    requires
        ks.len() == vs.len(),
        ks.no_duplicates(),
    ensures
        select(ks, vs, p).no_duplicates(),
    decreases ks.len(),
{
    if ks.len() > 0 {
        let r = select(ks.drop_last(), vs.drop_last(), p);
        lemma_select_nodup(ks.drop_last(), vs.drop_last(), p);
        if p(vs.last()) {
            lemma_select_contains(ks.drop_last(), vs.drop_last(), p, ks.last());
            assert(!r.contains(ks.last())) by {
                if r.contains(ks.last()) {
                    let i = choose|i: int| 0 <= i < ks.len() - 1 && ks.drop_last()[i] == ks.last() && #[trigger] p(vs.drop_last()[i]);
                    assert(ks[i] == ks[ks.len() - 1]);
                }
            }
            let n = r.push(ks.last());
            assert forall|a: int, b: int| 0 <= a < n.len() && 0 <= b < n.len() && a != b implies n[a] != n[b] by {
                if a == r.len() {
                    assert(r[b] != ks.last());
                } else if b == r.len() {
                    assert(r[a] != ks.last());
                }
            }
        }
    }
}

/// A duplicate-free sequence whose elements all occur in `u` is no longer than `u`.
pub proof fn lemma_nodup_subset_len<A>(s: Seq<A>, u: Seq<A>)
    requires
        s.no_duplicates(),
        forall|i: int| 0 <= i < s.len() ==> u.contains(#[trigger] s[i]),
    ensures
        s.len() <= u.len(),
{
    broadcast use vstd::seq_lib::seq_to_set_is_finite;
    s.unique_seq_to_set();
    u.lemma_cardinality_of_set();
    assert(s.to_set().subset_of(u.to_set())) by {
        assert forall|x: A| s.to_set().contains(x) implies u.to_set().contains(x) by {
            let i = choose|i: int| 0 <= i < s.len() && s[i] == x;
            assert(u.contains(s[i]));
        }
    }
    vstd::set_lib::lemma_len_subset(s.to_set(), u.to_set());
}

/// In a duplicate-free sequence, `index_of` is the one position holding `x`.
pub proof fn lemma_index_of<A>(s: Seq<A>, x: A)
    requires
        s.contains(x),
        s.no_duplicates(),
    ensures
        0 <= s.index_of(x) < s.len(),
        s[s.index_of(x)] == x,
        forall|j: int| 0 <= j < s.len() && s[j] == x ==> j == s.index_of(x),
{
}

/// What a sequence with one more element at its end contains.
pub proof fn lemma_push_contains<A>(s: Seq<A>, a: A)
    ensures
        forall|x: A| #[trigger] s.push(a).contains(x) <==> s.contains(x) || x == a,
{
    assert forall|x: A| #[trigger] s.push(a).contains(x) <==> s.contains(x) || x == a by {
        if s.push(a).contains(x) {
            let k = choose|k: int| 0 <= k < s.len() + 1 && s.push(a)[k] == x;
            if k < s.len() {
                assert(s[k] == x);
            }
        }
        if s.contains(x) {
            let k = choose|k: int| 0 <= k < s.len() && s[k] == x;
            assert(s.push(a)[k] == x);
        }
        if x == a {
            assert(s.push(a)[s.len() as int] == x);
        }
    }
}

/// The sum of `f` over the elements of `s`.
pub open spec fn sum_of<A>(s: Seq<A>, f: spec_fn(A) -> int) -> int
    decreases s.len(),
{
    if s.len() == 0 {
        0
    } else {
        sum_of(s.drop_last(), f) + f(s.last())
    }
}

/// Taking out one element takes its value out of the sum.
pub proof fn lemma_sum_remove<A>(s: Seq<A>, f: spec_fn(A) -> int, j: int)
    requires
        0 <= j < s.len(),
    ensures
        sum_of(s, f) == sum_of(s.remove(j), f) + f(s[j]),
    decreases s.len(),
{
    if j == s.len() - 1 {
        assert(s.remove(j) =~= s.drop_last());
    } else {
        lemma_sum_remove(s.drop_last(), f, j);
        assert(s.remove(j).drop_last() =~= s.drop_last().remove(j));
        assert(s.remove(j).last() == s.last());
    }
}

/// A prefix sums to no more than the whole when `f` is never negative.
pub proof fn lemma_sum_prefix<A>(s: Seq<A>, f: spec_fn(A) -> int, i: int)
    requires
        0 <= i <= s.len(),
        forall|x: A| #[trigger] f(x) >= 0,
    ensures
        sum_of(s.take(i), f) <= sum_of(s, f),
    decreases s.len(),
{
    if i < s.len() {
        assert(s.take(i) =~= s.drop_last().take(i));
        lemma_sum_prefix(s.drop_last(), f, i);
    } else {
        assert(s.take(i) =~= s);
    }
}

/// Distinct elements drawn from a duplicate-free `u` sum to no more than `u` does.
pub proof fn lemma_sum_subset<A>(s: Seq<A>, u: Seq<A>, f: spec_fn(A) -> int)
    requires
        s.no_duplicates(),
        u.no_duplicates(),
        forall|i: int| 0 <= i < s.len() ==> u.contains(#[trigger] s[i]),
        forall|x: A| #[trigger] f(x) >= 0,
    ensures
        sum_of(s, f) <= sum_of(u, f),
    decreases s.len(),
{
    if s.len() == 0 {
        lemma_sum_nonneg(u, f);
    } else {
        let x = s.last();
        assert(u.contains(s[s.len() - 1]));
        let j = u.index_of(x);
        let u2 = u.remove(j);
        lemma_sum_remove(u, f, j);
        let s2 = s.drop_last();
        assert forall|a: int, b: int| 0 <= a < u2.len() && 0 <= b < u2.len() && a != b implies u2[a] != u2[b] by {
            let a2 = if a < j { a } else { a + 1 };
            let b2 = if b < j { b } else { b + 1 };
            assert(u2[a] == u[a2] && u2[b] == u[b2]);
        }
        assert forall|i: int| 0 <= i < s2.len() implies u2.contains(#[trigger] s2[i]) by {
            assert(s2[i] == s[i]);
            assert(s[i] != s[s.len() - 1]);
            let k = choose|k: int| 0 <= k < u.len() && u[k] == s[i];
            assert(k != j);
            if k < j {
                assert(u2[k] == s[i]);
            } else {
                assert(u2[k - 1] == s[i]);
            }
        }
        lemma_sum_subset(s2, u2, f);
    }
}

/// Splitting names by a predicate and its negation splits their sum, and their count.
pub proof fn lemma_select_partition<V>(
    ks: Seq<Seq<char>>,
    vs: Seq<V>,
    p: spec_fn(V) -> bool,
    q: spec_fn(V) -> bool,
    f: spec_fn(Seq<char>) -> int,
)
    requires
        ks.len() == vs.len(),
        forall|v: V| #[trigger] q(v) == !p(v),
    ensures
        sum_of(select(ks, vs, p), f) + sum_of(select(ks, vs, q), f) == sum_of(ks, f),
        select(ks, vs, p).len() + select(ks, vs, q).len() == ks.len(),
    decreases ks.len(),
{
    if ks.len() > 0 {
        lemma_select_partition(ks.drop_last(), vs.drop_last(), p, q, f);
        let a = select(ks.drop_last(), vs.drop_last(), p);
        let b = select(ks.drop_last(), vs.drop_last(), q);
        if p(vs.last()) {
            assert(select(ks, vs, p) == a.push(ks.last()));
            assert(a.push(ks.last()).drop_last() =~= a);
        } else {
            assert(q(vs.last()));
            assert(b.push(ks.last()).drop_last() =~= b);
        }
    }
}

/// A sum of values that are never negative is not negative.
pub proof fn lemma_sum_nonneg<A>(s: Seq<A>, f: spec_fn(A) -> int)
    requires
        forall|x: A| #[trigger] f(x) >= 0,
    ensures
        sum_of(s, f) >= 0,
    decreases s.len(),
{
    if s.len() > 0 {
        lemma_sum_nonneg(s.drop_last(), f);
    }
}

/// What `NameMap::insert` of `(k, v)` means for lookups by name.
pub proof fn lemma_insert_facts<V>(ok: Seq<Seq<char>>, ov: Seq<V>, nk: Seq<Seq<char>>, nv: Seq<V>, k: Seq<char>, v: V)
    requires
        ok.no_duplicates(),
        ok.len() == ov.len(),
        nk.no_duplicates(),
        nk.len() == nv.len(),
        ok.contains(k) ==> nk == ok && nv == ov.update(ok.index_of(k), v),
        !ok.contains(k) ==> nk == ok.push(k) && nv == ov.push(v),
    ensures
        nk.contains(k),
        nv[nk.index_of(k)] == v,
        forall|j: int| 0 <= j < nk.len() && nk[j] != k ==> j < ok.len() && nk[j] == ok[j] && nv[j] == ov[j],
        forall|j: int| 0 <= j < nk.len() && nk[j] == k ==> nv[j] == v,
        forall|x: Seq<char>| x != k ==> (nk.contains(x) == ok.contains(x) && (ok.contains(x) ==> nk.index_of(x)
            == ok.index_of(x) && nv[nk.index_of(x)] == ov[ok.index_of(x)])),
{
    if ok.contains(k) {
        lemma_index_of(ok, k);
    } else {
        assert(nk[ok.len() as int] == k);
    }
    lemma_index_of(nk, k);
    assert forall|x: Seq<char>| x != k implies (nk.contains(x) == ok.contains(x) && (ok.contains(x)
        ==> nk.index_of(x) == ok.index_of(x) && nv[nk.index_of(x)] == ov[ok.index_of(x)])) by {
        if ok.contains(x) {
            lemma_index_of(ok, x);
            let j = ok.index_of(x);
            assert(nk[j] == x);
            lemma_index_of(nk, x);
        }
        if nk.contains(x) {
            lemma_index_of(nk, x);
            let j = nk.index_of(x);
            assert(j < ok.len() && ok[j] == x);
        }
    }
}

/// The texts of the string slices in a sequence.
pub open spec fn strs(s: Seq<&str>) -> Seq<Seq<char>> {
    s.map_values(|x: &str| x@)
}

/// A map from names to values that keeps the order in which names were first inserted.
#[derive(Debug)]
pub struct NameMap<V> {
    keys: Vec<String>,
    vals: Vec<V>,
}

impl<V> NameMap<V> {
    /// The names, in insertion order.
    pub closed spec fn keys(&self) -> Seq<Seq<char>> {
        views(self.keys@)
    }

    /// The values, position by position with `keys()`.
    pub closed spec fn vals(&self) -> Seq<V> {
        self.vals@
    }

    pub open spec fn wf(&self) -> bool {
        &&& self.keys().len() == self.vals().len()
        &&& self.keys().no_duplicates()
    }

    pub open spec fn has(&self, k: Seq<char>) -> bool {
        self.keys().contains(k)
    }

    /// The value stored under `k`.
    pub open spec fn at(&self, k: Seq<char>) -> V {
        self.vals()[self.keys().index_of(k)]
    }

    pub open spec fn lookup(&self, k: Seq<char>) -> Option<V> {
        if self.has(k) {
            Some(self.at(k))
        } else {
            None
        }
    }

    pub fn new() -> (r: Self)
        ensures
            r.wf(),
            r.keys() == Seq::<Seq<char>>::empty(),
            r.vals() == Seq::<V>::empty(),
    {
        let r = NameMap { keys: Vec::new(), vals: Vec::new() };
        assert(r.keys() =~= Seq::<Seq<char>>::empty());
        r
    }

    pub fn len(&self) -> (r: usize)
        requires
            self.wf(),
        ensures
            r == self.keys().len(),
    {
        self.keys.len()
    }

    pub fn is_empty(&self) -> (r: bool)
        requires
            self.wf(),
        ensures
            r == (self.keys().len() == 0),
    {
        self.keys.len() == 0
    }

    /// The position of `k` among the names.
    pub fn index_of(&self, k: &str) -> (r: Option<usize>)
        requires
            self.wf(),
        ensures
            match r {
                Some(i) => i < self.keys().len() && self.keys()[i as int] == k@
                    && self.keys().index_of(k@) == i,
                None => !self.has(k@),
            },
    {
        let mut i: usize = 0;
        while i < self.keys.len()
            invariant
                i <= self.keys@.len(),
                self.wf(),
                forall|j: int| 0 <= j < i ==> self.keys()[j] != k@,
            decreases self.keys.len() - i,
        {
            if str_eq(self.keys[i].as_str(), k) {
                assert(self.keys()[i as int] == k@);
                assert(self.keys().contains(k@));
                return Some(i);
            }
            i += 1;
        }
        None
    }

    pub fn contains_key(&self, k: &str) -> (r: bool)
        requires
            self.wf(),
        ensures
            r == self.has(k@),
    {
        match self.index_of(k) {
            Some(_) => true,
            None => false,
        }
    }

    pub fn get(&self, k: &str) -> (r: Option<&V>)
        requires
            self.wf(),
        ensures
            match r {
                Some(v) => self.has(k@) && *v == self.at(k@),
                None => !self.has(k@),
            },
    {
        match self.index_of(k) {
            Some(i) => Some(&self.vals[i]),
            None => None,
        }
    }

    pub fn key_at(&self, i: usize) -> (r: &String)
        requires
            self.wf(),
            i < self.keys().len(),
        ensures
            r@ == self.keys()[i as int],
    {
        &self.keys[i]
    }

    pub fn val_at(&self, i: usize) -> (r: &V)
        requires
            self.wf(),
            i < self.keys().len(),
        ensures
            *r == self.vals()[i as int],
    {
        &self.vals[i]
    }

    /// Replaces the value at position `i`.
    pub fn set_val(&mut self, i: usize, v: V)
        requires
            old(self).wf(),
            i < old(self).keys().len(),
        ensures
            final(self).wf(),
            final(self).keys() == old(self).keys(),
            final(self).vals() == old(self).vals().update(i as int, v),
    {
        self.vals.set(i, v);
    }

    /// Puts `v` at position `i` and hands back the value that was there.
    pub fn replace_val(&mut self, i: usize, v: V) -> (r: V)
        requires
            old(self).wf(),
            i < old(self).keys().len(),
        ensures
            final(self).wf(),
            final(self).keys() == old(self).keys(),
            final(self).vals() == old(self).vals().update(i as int, v),
            r == old(self).vals()[i as int],
    {
        let mut v = v;
        std::mem::swap(&mut self.vals[i], &mut v);
        v
    }

    /// Inserts or replaces the value under `k`; a new name goes last.
    pub fn insert(&mut self, k: String, v: V)
        requires
            old(self).wf(),
        ensures
            final(self).wf(),
            old(self).has(k@) ==> final(self).keys() == old(self).keys() && final(self).vals()
                == old(self).vals().update(old(self).keys().index_of(k@), v),
            !old(self).has(k@) ==> final(self).keys() == old(self).keys().push(k@)
                && final(self).vals() == old(self).vals().push(v),
            forall|x: Seq<char>| #[trigger] final(self).has(x) <==> old(self).has(x) || x == k@,
    {
        proof {
            lemma_push_contains(self.keys(), k@);
        }
        match self.index_of(k.as_str()) {
            Some(i) => {
                self.vals.set(i, v);
            },
            None => {
                let ghost ok = self.keys();
                self.keys.push(k);
                self.vals.push(v);
                assert(self.keys() =~= ok.push(k@));
                assert forall|a: int, b: int|
                    0 <= a < self.keys().len() && 0 <= b < self.keys().len() && a != b implies
                    self.keys()[a] != self.keys()[b] by {
                    if a == ok.len() as int {
                        assert(!ok.contains(k@));
                        assert(ok[b] != k@);
                    } else if b == ok.len() as int {
                        assert(ok[a] != k@);
                    }
                }
            },
        }
    }
}

/// The names of `m` whose values pass `f` (given `ctx`), in order; `f` decides as `p` says.
pub fn keys_where<C, V, F: Fn(&C, &V) -> bool>(
    ctx: &C,
    m: &NameMap<V>,
    f: F,
    Ghost(p): Ghost<spec_fn(V) -> bool>,
) -> (r: Vec<String>)
    requires
        m.wf(),
        forall|v: &V| #[trigger] f.requires((ctx, v)),
        forall|v: &V, b: bool| f.ensures((ctx, v), b) ==> b == p(*v),
    ensures
        views(r@) == select(m.keys(), m.vals(), p),
{
    let n = m.len();
    let mut r: Vec<String> = Vec::new();
    let mut i: usize = 0;
    while i < n
        invariant
            m.wf(),
            n == m.keys().len(),
            i <= n,
            forall|v: &V| #[trigger] f.requires((ctx, v)),
            forall|v: &V, b: bool| f.ensures((ctx, v), b) ==> b == p(*v),
            views(r@) == select(m.keys().take(i as int), m.vals().take(i as int), p),
        decreases n - i,
    {
        proof {
            lemma_select_step(m.keys(), m.vals(), p, i as int);
        }
        if f(ctx, m.val_at(i)) {
            let ghost before = r@;
            let k = m.key_at(i).clone();
            r.push(k);
            assert(views(r@) =~= views(before).push(m.keys()[i as int]));
        }
        i += 1;
    }
    proof {
        lemma_select_full(m.keys(), m.vals(), p);
    }
    r
}

/// Counts `k` once more in `m`.
pub fn bump_count(m: &mut NameMap<usize>, k: &str)
    requires
        old(m).wf(),
        old(m).has(k@) ==> old(m).at(k@) < usize::MAX,
    ensures
        final(m).wf(),
        forall|x: Seq<char>| #[trigger] final(m).has(x) <==> old(m).has(x) || x == k@,
        final(m).at(k@) == (if old(m).has(k@) {
            old(m).at(k@) + 1
        } else {
            1
        }),
        forall|x: Seq<char>| x != k@ && old(m).has(x) ==> #[trigger] final(m).at(x) == old(m).at(x),
{
    let ghost ok = m.keys();
    let ghost ov = m.vals();
    match m.index_of(k) {
        Some(i) => {
            let c = *m.val_at(i);
            m.insert(crate::text::lit(k), c + 1);
            proof {
                lemma_insert_facts(ok, ov, m.keys(), m.vals(), k@, (c + 1) as usize);
            }
        },
        None => {
            m.insert(crate::text::lit(k), 1);
            proof {
                lemma_insert_facts(ok, ov, m.keys(), m.vals(), k@, 1usize);
            }
        },
    }
}

/// A set of names that keeps the order in which names were first inserted.
#[derive(Debug)]
pub struct NameSet {
    items: Vec<String>,
}

impl NameSet {
    /// The names, in insertion order.
    pub closed spec fn elems(&self) -> Seq<Seq<char>> {
        views(self.items@)
    }

    pub open spec fn wf(&self) -> bool {
        self.elems().no_duplicates()
    }

    pub open spec fn has(&self, k: Seq<char>) -> bool {
        self.elems().contains(k)
    }

    pub fn new() -> (r: Self)
        ensures
            r.wf(),
            r.elems() == Seq::<Seq<char>>::empty(),
    {
        let r = NameSet { items: Vec::new() };
        assert(r.elems() =~= Seq::<Seq<char>>::empty());
        r
    }

    pub fn len(&self) -> (r: usize)
        ensures
            r == self.elems().len(),
    {
        self.items.len()
    }

    pub fn is_empty(&self) -> (r: bool)
        ensures
            r == (self.elems().len() == 0),
    {
        self.items.len() == 0
    }

    pub fn contains(&self, k: &str) -> (r: bool)
        ensures
            r == self.has(k@),
    {
        let mut i: usize = 0;
        while i < self.items.len()
            invariant
                i <= self.items@.len(),
                forall|j: int| 0 <= j < i ==> self.elems()[j] != k@,
            decreases self.items.len() - i,
        {
            if str_eq(self.items[i].as_str(), k) {
                assert(self.elems()[i as int] == k@);
                return true;
            }
            i += 1;
        }
        false
    }

    pub fn item_at(&self, i: usize) -> (r: &String)
        requires
            i < self.elems().len(),
        ensures
            r@ == self.elems()[i as int],
    {
        &self.items[i]
    }

    /// Adds `k`; answers whether it was new. A new name goes last.
    pub fn insert(&mut self, k: String) -> (r: bool)
        requires
            old(self).wf(),
        ensures
            final(self).wf(),
            r == !old(self).has(k@),
            r ==> final(self).elems() == old(self).elems().push(k@),
            !r ==> final(self).elems() == old(self).elems(),
            forall|x: Seq<char>| #[trigger] final(self).has(x) <==> old(self).has(x) || x == k@,
    {
        proof {
            lemma_push_contains(self.elems(), k@);
        }
        if self.contains(k.as_str()) {
            false
        } else {
            let ghost ok = self.elems();
            self.items.push(k);
            assert(self.elems() =~= ok.push(k@));
            assert forall|a: int, b: int|
                0 <= a < self.elems().len() && 0 <= b < self.elems().len() && a != b implies
                self.elems()[a] != self.elems()[b] by {
                if a == ok.len() as int {
                    assert(ok[b] != k@);
                } else if b == ok.len() as int {
                    assert(ok[a] != k@);
                }
            }
            true
        }
    }
}

impl NameSet {
    /// The distinct names of `v`.
    pub fn from_vec(v: &Vec<String>) -> (r: NameSet)
        ensures
            r.wf(),
            forall|x: Seq<char>| #[trigger] r.has(x) <==> views(v@).contains(x),
            views(v@).no_duplicates() ==> r.elems() == views(v@),
    {
        let mut r = NameSet::new();
        let mut i: usize = 0;
        while i < v.len()
            invariant
                i <= v@.len(),
                r.wf(),
                forall|x: Seq<char>| #[trigger] r.has(x) <==> views(v@).take(i as int).contains(x),
                views(v@).no_duplicates() ==> r.elems() == views(v@).take(i as int),
            decreases v.len() - i,
        {
            let ghost before = r;
            let added = r.insert(v[i].clone());
            proof {
                let t = views(v@).take(i + 1);
                assert(t =~= views(v@).take(i as int).push(v@[i as int]@));
                lemma_push_contains(views(v@).take(i as int), v@[i as int]@);
                if views(v@).no_duplicates() {
                    assert(added) by {
                        if before.has(v@[i as int]@) {
                            let k = choose|k: int| 0 <= k < i && views(v@).take(i as int)[k] == v@[i as int]@;
                            assert(views(v@)[k] == views(v@)[i as int]);
                        }
                    }
                }
            }
            i += 1;
        }
        assert(views(v@).take(v@.len() as int) =~= views(v@));
        r
    }
}

/// A set of indices that keeps insertion order.
#[derive(Debug)]
pub struct IdSet {
    items: Vec<usize>,
}

impl IdSet {
    pub closed spec fn elems(&self) -> Seq<usize> {
        self.items@
    }

    pub open spec fn wf(&self) -> bool {
        self.elems().no_duplicates()
    }

    pub open spec fn has(&self, k: usize) -> bool {
        self.elems().contains(k)
    }

    pub fn new() -> (r: Self)
        ensures
            r.wf(),
            r.elems() == Seq::<usize>::empty(),
    {
        IdSet { items: Vec::new() }
    }

    pub fn len(&self) -> (r: usize)
        ensures
            r == self.elems().len(),
    {
        self.items.len()
    }

    pub fn is_empty(&self) -> (r: bool)
        ensures
            r == (self.elems().len() == 0),
    {
        self.items.len() == 0
    }

    pub fn contains(&self, k: usize) -> (r: bool)
        ensures
            r == self.has(k),
    {
        let mut i: usize = 0;
        while i < self.items.len()
            invariant
                i <= self.items@.len(),
                forall|j: int| 0 <= j < i ==> self.elems()[j] != k,
            decreases self.items.len() - i,
        {
            if self.items[i] == k {
                return true;
            }
            i += 1;
        }
        false
    }

    pub fn item_at(&self, i: usize) -> (r: usize)
        requires
            i < self.elems().len(),
        ensures
            r == self.elems()[i as int],
    {
        self.items[i]
    }

    pub fn insert(&mut self, k: usize) -> (r: bool)
        requires
            old(self).wf(),
        ensures
            final(self).wf(),
            r == !old(self).has(k),
            r ==> final(self).elems() == old(self).elems().push(k),
            !r ==> final(self).elems() == old(self).elems(),
            forall|x: usize| #[trigger] final(self).has(x) <==> old(self).has(x) || x == k,
    {
        proof {
            lemma_push_contains(self.elems(), k);
        }
        if self.contains(k) {
            false
        } else {
            let ghost ok = self.elems();
            self.items.push(k);
            assert forall|a: int, b: int|
                0 <= a < self.elems().len() && 0 <= b < self.elems().len() && a != b implies
                self.elems()[a] != self.elems()[b] by {
                if a == ok.len() as int {
                    assert(ok[b] != k);
                } else if b == ok.len() as int {
                    assert(ok[a] != k);
                }
            }
            true
        }
    }
}

/// A map from indices to values that keeps the order in which indices were first inserted.
#[derive(Debug)]
pub struct IdMap<V> {
    keys: Vec<usize>,
    vals: Vec<V>,
}

impl<V> IdMap<V> {
    pub closed spec fn keys(&self) -> Seq<usize> {
        self.keys@
    }

    pub closed spec fn vals(&self) -> Seq<V> {
        self.vals@
    }

    pub open spec fn wf(&self) -> bool {
        &&& self.keys().len() == self.vals().len()
        &&& self.keys().no_duplicates()
    }

    pub open spec fn has(&self, k: usize) -> bool {
        self.keys().contains(k)
    }

    pub open spec fn at(&self, k: usize) -> V {
        self.vals()[self.keys().index_of(k)]
    }

    pub fn new() -> (r: Self)
        ensures
            r.wf(),
            r.keys() == Seq::<usize>::empty(),
            r.vals() == Seq::<V>::empty(),
    {
        IdMap { keys: Vec::new(), vals: Vec::new() }
    }

    pub fn len(&self) -> (r: usize)
        requires
            self.wf(),
        ensures
            r == self.keys().len(),
    {
        self.keys.len()
    }

    pub fn is_empty(&self) -> (r: bool)
        requires
            self.wf(),
        ensures
            r == (self.keys().len() == 0),
    {
        self.keys.len() == 0
    }

    pub fn index_of(&self, k: usize) -> (r: Option<usize>)
        requires
            self.wf(),
        ensures
            match r {
                Some(i) => i < self.keys().len() && self.keys()[i as int] == k && self.keys().index_of(k) == i,
                None => !self.has(k),
            },
    {
        let mut i: usize = 0;
        while i < self.keys.len()
            invariant
                i <= self.keys@.len(),
                self.wf(),
                forall|j: int| 0 <= j < i ==> self.keys()[j] != k,
            decreases self.keys.len() - i,
        {
            if self.keys[i] == k {
                assert(self.keys().contains(k));
                return Some(i);
            }
            i += 1;
        }
        None
    }

    pub fn get(&self, k: usize) -> (r: Option<&V>)
        requires
            self.wf(),
        ensures
            match r {
                Some(v) => self.has(k) && *v == self.at(k),
                None => !self.has(k),
            },
    {
        match self.index_of(k) {
            Some(i) => Some(&self.vals[i]),
            None => None,
        }
    }

    pub fn key_at(&self, i: usize) -> (r: usize)
        requires
            self.wf(),
            i < self.keys().len(),
        ensures
            r == self.keys()[i as int],
    {
        self.keys[i]
    }

    pub fn val_at(&self, i: usize) -> (r: &V)
        requires
            self.wf(),
            i < self.keys().len(),
        ensures
            *r == self.vals()[i as int],
    {
        &self.vals[i]
    }

    /// Puts `v` at position `i` and hands back the value that was there.
    pub fn replace_val(&mut self, i: usize, v: V) -> (r: V)
        requires
            old(self).wf(),
            i < old(self).keys().len(),
        ensures
            final(self).wf(),
            final(self).keys() == old(self).keys(),
            final(self).vals() == old(self).vals().update(i as int, v),
            r == old(self).vals()[i as int],
    {
        let mut v = v;
        std::mem::swap(&mut self.vals[i], &mut v);
        v
    }

    /// Inserts or replaces the value under `k`; a new index goes last.
    pub fn insert(&mut self, k: usize, v: V)
        requires
            old(self).wf(),
        ensures
            final(self).wf(),
            old(self).has(k) ==> final(self).keys() == old(self).keys() && final(self).vals()
                == old(self).vals().update(old(self).keys().index_of(k), v),
            !old(self).has(k) ==> final(self).keys() == old(self).keys().push(k)
                && final(self).vals() == old(self).vals().push(v),
    {
        match self.index_of(k) {
            Some(i) => {
                self.vals.set(i, v);
            },
            None => {
                let ghost ok = self.keys();
                self.keys.push(k);
                self.vals.push(v);
                assert forall|a: int, b: int|
                    0 <= a < self.keys().len() && 0 <= b < self.keys().len() && a != b implies
                    self.keys()[a] != self.keys()[b] by {
                    if a == ok.len() as int {
                        assert(ok[b] != k);
                    } else if b == ok.len() as int {
                        assert(ok[a] != k);
                    }
                }
            },
        }
    }
}

} // verus!
