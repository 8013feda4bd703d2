//! Verified text primitives over `Seq<char>` used by the IR and assembly passes.
use vstd::prelude::*;
use vstd::string::*;
use vstd::std_specs::iter::IteratorSpec;

verus! {

broadcast use vstd::string::group_string_axioms;

/// `String::push`: appends one character.
#[verifier::external_body]
pub(crate) fn push_char(s: &mut String, c: char)
    ensures
        final(s)@ == old(s)@.push(c),
{
    s.push(c);
}

/// The characters of a string slice, in order.
pub fn chars_of(s: &str) -> (r: Vec<char>)
    ensures
        r@ == s@,
{
    let mut r: Vec<char> = Vec::new();
    for c in it: s.chars()
        invariant
            r@ == it.seq().take(it.index()),
            it.seq() == s@,
    {
        r.push(c);
    }
    r
}

/// Builds a string from a sequence of characters.
pub fn string_of(cs: &[char]) -> (r: String)
    ensures
        r@ == cs@,
{
    let mut r = String::new();
    let mut i: usize = 0;
    while i < cs.len()
        invariant
            i <= cs.len(),
            r@ == cs@.take(i as int),
        decreases cs.len() - i,
    {
        push_char(&mut r, cs[i]);
        i += 1;
        assert(r@ == cs@.take(i as int));
    }
    assert(cs@.take(cs.len() as int) == cs@);
    r
}


/// Unicode White_Space, as `char::is_whitespace` decides it.
pub open spec fn is_ws(c: char) -> bool {
    let u = c as u32;
    ||| 9 <= u <= 13
    ||| u == 32
    ||| u == 0x85
    ||| u == 0xA0
    ||| u == 0x1680
    ||| 0x2000 <= u <= 0x200A
    ||| u == 0x2028
    ||| u == 0x2029
    ||| u == 0x202F
    ||| u == 0x205F
    ||| u == 0x3000
}

pub fn is_ws_char(c: char) -> (r: bool)
    ensures
        r == is_ws(c),
{
    let u = c as u32;
    (9 <= u && u <= 13) || u == 32 || u == 0x85 || u == 0xA0 || u == 0x1680 || (0x2000 <= u
        && u <= 0x200A) || u == 0x2028 || u == 0x2029 || u == 0x202F || u == 0x205F || u == 0x3000
}

/// `p` occurs in `s` starting at index `i`.
pub open spec fn matches_at(s: Seq<char>, p: Seq<char>, i: int) -> bool {
    &&& 0 <= i
    &&& i + p.len() <= s.len()
    &&& forall|k: int| 0 <= k < p.len() ==> #[trigger] s[i + k] == p[k]
}

pub open spec fn contains(s: Seq<char>, p: Seq<char>) -> bool {
    exists|i: int| matches_at(s, p, i)
}

pub open spec fn starts_with(s: Seq<char>, p: Seq<char>) -> bool {
    matches_at(s, p, 0)
}

pub open spec fn ends_with(s: Seq<char>, p: Seq<char>) -> bool {
    p.len() <= s.len() && matches_at(s, p, s.len() - p.len())
}

pub fn matches_at_exec(s: &[char], p: &[char], i: usize) -> (r: bool)
    ensures
        r == matches_at(s@, p@, i as int),
{
    if i > s.len() || p.len() > s.len() - i {
        return false;
    }
    let mut k: usize = 0;
    while k < p.len()
        invariant
            k <= p.len(),
            i + p.len() <= s.len(),
            forall|j: int| 0 <= j < k ==> #[trigger] s@[i + j] == p@[j],
        decreases p.len() - k,
    {
        if s[i + k] != p[k] {
            return false;
        }
        k += 1;
    }
    true
}

/// The first index at which `p` occurs in `s`.
pub fn find_first(s: &[char], p: &[char]) -> (r: Option<usize>)
    ensures
        match r {
            Some(i) => matches_at(s@, p@, i as int) && forall|j: int|
                0 <= j < i ==> !#[trigger] matches_at(s@, p@, j),
            None => !contains(s@, p@),
        },
{
    if p.len() > s.len() {
        return None;
    }
    let mut i: usize = 0;
    while i <= s.len() - p.len()
        invariant
            p.len() <= s.len(),
            i <= s.len() - p.len() + 1,
            forall|j: int| 0 <= j < i ==> !#[trigger] matches_at(s@, p@, j),
        decreases s.len() - p.len() + 1 - i,
    {
        if matches_at_exec(s, p, i) {
            return Some(i);
        }
        i += 1;
    }
    None
}

pub fn contains_exec(s: &[char], p: &[char]) -> (r: bool)
    ensures
        r == contains(s@, p@),
{
    match find_first(s, p) {
        Some(_) => true,
        None => false,
    }
}

/// `str::contains` with a pattern string.
pub fn str_contains(s: &[char], p: &str) -> (r: bool)
    ensures
        r == contains(s@, p@),
{
    let pc = chars_of(p);
    contains_exec(s, pc.as_slice())
}

/// `str::starts_with` with a pattern string.
pub fn str_starts_with(s: &[char], p: &str) -> (r: bool)
    ensures
        r == starts_with(s@, p@),
{
    let pc = chars_of(p);
    matches_at_exec(s, pc.as_slice(), 0)
}


/// The abstract contents of a list of character vectors.
pub open spec fn seqs_of(v: Seq<Vec<char>>) -> Seq<Seq<char>> {
    v.map_values(|x: Vec<char>| x@)
}

pub proof fn lemma_seqs_of_push(v: Seq<Vec<char>>, x: Vec<char>)
    ensures
        seqs_of(v.push(x)) == seqs_of(v).push(x@),
{
    assert(seqs_of(v.push(x)) =~= seqs_of(v).push(x@));
}

/// Appends all of `s` to `out`.
pub fn append_chars(out: &mut Vec<char>, s: &[char])
    ensures
        final(out)@ == old(out)@ + s@,
{
    let mut i: usize = 0;
    while i < s.len()
        invariant
            i <= s.len(),
            out@ == old(out)@ + s@.take(i as int),
        decreases s.len() - i,
    {
        out.push(s[i]);
        i += 1;
        assert(out@ == old(out)@ + s@.take(i as int));
    }
    assert(s@.take(s.len() as int) == s@);
}

/// Appends the characters of a string slice to `out`.
pub fn append_str(out: &mut Vec<char>, s: &str)
    ensures
        final(out)@ == old(out)@ + s@,
{
    let cs = chars_of(s);
    append_chars(out, cs.as_slice());
}

/// Maximal runs of non-whitespace characters, as `str::split_whitespace` yields them.
pub open spec fn words(s: Seq<char>) -> Seq<Seq<char>>
    decreases s.len(),
{
    if s.len() == 0 {
        seq![]
    } else {
        let r = words(s.drop_last());
        let c = s.last();
        if is_ws(c) {
            r
        } else if s.len() >= 2 && !is_ws(s[s.len() - 2]) {
            r.update(r.len() - 1, r.last().push(c))
        } else {
            r.push(seq![c])
        }
    }
}

pub fn split_whitespace(s: &[char]) -> (r: Vec<Vec<char>>)
    ensures
        seqs_of(r@) == words(s@),
{
    let mut done: Vec<Vec<char>> = Vec::new();
    let mut cur: Vec<char> = Vec::new();
    let mut i: usize = 0;
    while i < s.len()
        invariant
            i <= s.len(),
            cur@.len() > 0 <==> (i > 0 && !is_ws(s@[i - 1])),
            words(s@.take(i as int)) == (if cur@.len() == 0 {
                seqs_of(done@)
            } else {
                seqs_of(done@).push(cur@)
            }),
        decreases s.len() - i,
    {
        let c = s[i];
        let ghost t = s@.take(i + 1);
        assert(t.drop_last() == s@.take(i as int));
        assert(t.last() == c);
        assert(t.len() >= 2 ==> t[t.len() - 2] == s@[i - 1]);
        if is_ws_char(c) {
            if cur.len() > 0 {
                proof {
                    lemma_seqs_of_push(done@, cur);
                }
                done.push(cur);
                cur = Vec::new();
            }
        } else {
            let ghost old_cur = cur@;
            if cur.len() > 0 {
                assert(seqs_of(done@).push(cur@).update(seqs_of(done@).len() as int, cur@.push(c))
                    =~= seqs_of(done@).push(cur@.push(c)));
            }
            cur.push(c);
            assert(old_cur.len() == 0 ==> cur@ =~= seq![c]);
        }
        i += 1;
    }
    assert(s@.take(s.len() as int) == s@);
    if cur.len() > 0 {
        proof {
            lemma_seqs_of_push(done@, cur);
        }
        done.push(cur);
    }
    done
}

/// The pieces of `s` between occurrences of `c` (always at least one piece).
pub open spec fn split_on(s: Seq<char>, c: char) -> Seq<Seq<char>>
    decreases s.len(),
{
    if s.len() == 0 {
        seq![seq![]]
    } else {
        let r = split_on(s.drop_last(), c);
        if s.last() == c {
            r.push(seq![])
        } else {
            r.update(r.len() - 1, r.last().push(s.last()))
        }
    }
}

pub proof fn lemma_split_on_len(s: Seq<char>, c: char)
    ensures
        split_on(s, c).len() >= 1,
    decreases s.len(),
{
    if s.len() > 0 {
        lemma_split_on_len(s.drop_last(), c);
    }
}

/// A line without the carriage return that preceded its line feed.
pub open spec fn strip_cr(l: Seq<char>) -> Seq<char> {
    if l.len() > 0 && l.last() == '\r' {
        l.drop_last()
    } else {
        l
    }
}

/// The lines of `s`, as `str::lines` yields them: split at `\n`, a `\r` before the `\n`
/// dropped, and no empty last line.
pub open spec fn lines(s: Seq<char>) -> Seq<Seq<char>> {
    let p = split_on(s, '\n');
    let n = p.len() - 1;
    let init = p.take(n).map_values(|l: Seq<char>| strip_cr(l));
    if p[n].len() == 0 {
        init
    } else {
        init.push(p[n])
    }
}

pub fn strip_cr_exec(l: Vec<char>) -> (r: Vec<char>)
    ensures
        r@ == strip_cr(l@),
{
    let mut l = l;
    if l.len() > 0 && l[l.len() - 1] == '\r' {
        l.pop();
    }
    l
}

pub fn lines_of(s: &[char]) -> (r: Vec<Vec<char>>)
    ensures
        seqs_of(r@) == lines(s@),
{
    let mut done: Vec<Vec<char>> = Vec::new();
    let mut cur: Vec<char> = Vec::new();
    let ghost mut pieces: Seq<Seq<char>> = seq![];
    let mut i: usize = 0;
    while i < s.len()
        invariant
            i <= s.len(),
            split_on(s@.take(i as int), '\n') == pieces.push(cur@),
            seqs_of(done@) == pieces.map_values(|l: Seq<char>| strip_cr(l)),
        decreases s.len() - i,
    {
        let c = s[i];
        assert(s@.take(i + 1).drop_last() == s@.take(i as int));
        if c == '\n' {
            let ghost old_cur = cur@;
            let line = strip_cr_exec(cur);
            proof {
                lemma_seqs_of_push(done@, line);
                assert(pieces.push(old_cur).map_values(|l: Seq<char>| strip_cr(l)) =~= pieces.map_values(
                    |l: Seq<char>| strip_cr(l),
                ).push(strip_cr(old_cur)));
                pieces = pieces.push(old_cur);
            }
            done.push(line);
            cur = Vec::new();
        } else {
            assert(pieces.push(cur@).update(pieces.len() as int, cur@.push(c)) =~= pieces.push(
                cur@.push(c),
            ));
            cur.push(c);
        }
        i += 1;
    }
    assert(s@.take(s.len() as int) == s@);
    assert(pieces.push(cur@).take(pieces.len() as int) =~= pieces);
    if cur.len() > 0 {
        proof {
            lemma_seqs_of_push(done@, cur);
        }
        done.push(cur);
    }
    done
}

pub open spec fn trim_start(s: Seq<char>) -> Seq<char>
    decreases s.len(),
{
    if s.len() > 0 && is_ws(s[0]) {
        trim_start(s.drop_first())
    } else {
        s
    }
}

pub open spec fn trim_end(s: Seq<char>) -> Seq<char>
    decreases s.len(),
{
    if s.len() > 0 && is_ws(s.last()) {
        trim_end(s.drop_last())
    } else {
        s
    }
}

/// `str::trim`: leading and trailing whitespace removed.
pub open spec fn trim(s: Seq<char>) -> Seq<char> {
    trim_end(trim_start(s))
}

proof fn lemma_trim_start(s: Seq<char>, a: int)
    requires
        0 <= a <= s.len(),
        forall|k: int| 0 <= k < a ==> is_ws(#[trigger] s[k]),
        a == s.len() || !is_ws(s[a]),
    ensures
        trim_start(s) == s.skip(a),
    decreases a,
{
    if a == 0 {
        assert(s.skip(0) == s);
    } else {
        let t = s.drop_first();
        assert forall|k: int| 0 <= k < a - 1 implies is_ws(#[trigger] t[k]) by {
            assert(t[k] == s[k + 1]);
        }
        lemma_trim_start(t, a - 1);
        assert(t.skip(a - 1) == s.skip(a));
    }
}

proof fn lemma_trim_end(s: Seq<char>, b: int)
    requires
        0 <= b <= s.len(),
        forall|k: int| b <= k < s.len() ==> is_ws(#[trigger] s[k]),
        b == 0 || !is_ws(s[b - 1]),
    ensures
        trim_end(s) == s.take(b),
    decreases s.len() - b,
{
    if b == s.len() {
        assert(s.take(b) == s);
    } else {
        let t = s.drop_last();
        lemma_trim_end(t, b);
        assert(t.take(b) == s.take(b));
    }
}

pub fn trim_exec(s: &[char]) -> (r: Vec<char>)
    ensures
        r@ == trim(s@),
{
    let mut a: usize = 0;
    while a < s.len() && is_ws_char(s[a])
        invariant
            a <= s.len(),
            forall|k: int| 0 <= k < a ==> is_ws(#[trigger] s@[k]),
        decreases s.len() - a,
    {
        a += 1;
    }
    proof {
        lemma_trim_start(s@, a as int);
    }
    let mut b: usize = s.len();
    while b > a && is_ws_char(s[b - 1])
        invariant
            a <= b <= s.len(),
            forall|k: int| b <= k < s.len() ==> is_ws(#[trigger] s@[k]),
        decreases b,
    {
        b -= 1;
    }
    let ghost t = s@.skip(a as int);
    proof {
        assert forall|k: int| b - a <= k < t.len() implies is_ws(#[trigger] t[k]) by {
            assert(t[k] == s@[k + a]);
        }
        if b > a {
            assert(t[b - a - 1] == s@[b - 1]);
        }
        lemma_trim_end(t, b - a);
    }
    let mut r: Vec<char> = Vec::new();
    let mut i: usize = a;
    while i < b
        invariant
            a <= i <= b,
            b <= s.len(),
            r@ == s@.subrange(a as int, i as int),
        decreases b - i,
    {
        r.push(s[i]);
        i += 1;
        assert(r@ == s@.subrange(a as int, i as int));
    }
    assert(r@ =~= t.take(b - a));
    r
}

/// Parts joined with `sep` between consecutive parts.
pub open spec fn join(parts: Seq<Seq<char>>, sep: Seq<char>) -> Seq<char>
    decreases parts.len(),
{
    if parts.len() == 0 {
        seq![]
    } else if parts.len() == 1 {
        parts[0]
    } else {
        join(parts.drop_last(), sep) + sep + parts.last()
    }
}

/// Each part followed by a line feed.
pub open spec fn terminated(parts: Seq<Seq<char>>) -> Seq<char>
    decreases parts.len(),
{
    if parts.len() == 0 {
        seq![]
    } else {
        terminated(parts.drop_last()) + parts.last() + seq!['\n']
    }
}

pub fn join_exec(parts: &Vec<Vec<char>>, sep: &[char]) -> (r: Vec<char>)
    ensures
        r@ == join(seqs_of(parts@), sep@),
{
    let mut r: Vec<char> = Vec::new();
    let mut i: usize = 0;
    while i < parts.len()
        invariant
            i <= parts.len(),
            r@ == join(seqs_of(parts@).take(i as int), sep@),
        decreases parts.len() - i,
    {
        let ghost before = r@;
        if i > 0 {
            append_chars(&mut r, sep);
        }
        append_chars(&mut r, parts[i].as_slice());
        proof {
            let t = seqs_of(parts@).take(i + 1);
            assert(t.drop_last() == seqs_of(parts@).take(i as int));
            if i == 0 {
                assert(join(seqs_of(parts@).take(0), sep@) == Seq::<char>::empty());
                assert(before + parts@[0 as int]@ =~= parts@[0 as int]@);
            }
        }
        i += 1;
    }
    assert(seqs_of(parts@).take(parts.len() as int) == seqs_of(parts@));
    r
}

/// Concatenation of each part followed by a line feed.
pub fn terminated_exec(parts: &Vec<Vec<char>>) -> (r: Vec<char>)
    ensures
        r@ == terminated(seqs_of(parts@)),
{
    let mut r: Vec<char> = Vec::new();
    let mut i: usize = 0;
    while i < parts.len()
        invariant
            i <= parts.len(),
            r@ == terminated(seqs_of(parts@).take(i as int)),
        decreases parts.len() - i,
    {
        append_chars(&mut r, parts[i].as_slice());
        r.push('\n');
        proof {
            let t = seqs_of(parts@).take(i + 1);
            assert(t.drop_last() == seqs_of(parts@).take(i as int));
        }
        i += 1;
    }
    assert(seqs_of(parts@).take(parts.len() as int) == seqs_of(parts@));
    r
}


pub open spec fn digit_char(d: nat) -> char {
    if d == 0 {
        '0'
    } else if d == 1 {
        '1'
    } else if d == 2 {
        '2'
    } else if d == 3 {
        '3'
    } else if d == 4 {
        '4'
    } else if d == 5 {
        '5'
    } else if d == 6 {
        '6'
    } else if d == 7 {
        '7'
    } else if d == 8 {
        '8'
    } else {
        '9'
    }
}

/// Decimal digits of `n`, most significant first, as `Display` writes an unsigned integer.
pub open spec fn dec(n: nat) -> Seq<char>
    decreases n,
{
    if n < 10 {
        seq![digit_char(n)]
    } else {
        dec(n / 10).push(digit_char(n % 10))
    }
}

/// Decimal text of a signed integer, with a leading `-` when negative.
pub open spec fn dec_int(n: int) -> Seq<char> {
    if n < 0 {
        seq!['-'] + dec((-n) as nat)
    } else {
        dec(n as nat)
    }
}

fn digit_char_exec(d: u64) -> (c: char)
    requires
        d < 10,
    ensures
        c == digit_char(d as nat),
{
    if d == 0 {
        '0'
    } else if d == 1 {
        '1'
    } else if d == 2 {
        '2'
    } else if d == 3 {
        '3'
    } else if d == 4 {
        '4'
    } else if d == 5 {
        '5'
    } else if d == 6 {
        '6'
    } else if d == 7 {
        '7'
    } else if d == 8 {
        '8'
    } else {
        '9'
    }
}

/// Appends the decimal text of `n`.
pub fn push_u64(out: &mut Vec<char>, n: u64)
    ensures
        final(out)@ == old(out)@ + dec(n as nat),
    decreases n,
{
    if n < 10 {
        out.push(digit_char_exec(n));
        assert(dec(n as nat) == seq![digit_char(n as nat)]);
    } else {
        push_u64(out, n / 10);
        out.push(digit_char_exec(n % 10));
    }
}

pub fn push_usize(out: &mut Vec<char>, n: usize)
    ensures
        final(out)@ == old(out)@ + dec(n as nat),
{
    push_u64(out, n as u64);
}

pub fn push_i64(out: &mut Vec<char>, n: i64)
    ensures
        final(out)@ == old(out)@ + dec_int(n as int),
{
    if n < 0 {
        out.push('-');
        let m: u64 = if n == i64::MIN {
            9223372036854775808u64
        } else {
            (-n) as u64
        };
        push_u64(out, m);
        assert(old(out)@.push('-') + dec(m as nat) =~= old(out)@ + (seq!['-'] + dec(m as nat)));
    } else {
        push_u64(out, n as u64);
    }
}

pub open spec fn is_digit(c: char) -> bool {
    '0' <= c <= '9'
}

pub open spec fn digit_val(c: char) -> nat {
    (c as u32 - '0' as u32) as nat
}

/// Value of a run of decimal digits.
pub open spec fn digits_value(s: Seq<char>) -> nat
    decreases s.len(),
{
    if s.len() == 0 {
        0
    } else {
        digits_value(s.drop_last()) * 10 + digit_val(s.last())
    }
}

pub open spec fn all_digits(s: Seq<char>) -> bool {
    forall|k: int| 0 <= k < s.len() ==> is_digit(#[trigger] s[k])
}

/// `s` without one leading `c`, if it starts with one.
pub open spec fn drop_sign(s: Seq<char>, c: char) -> Seq<char> {
    if s.len() > 0 && s[0] == c {
        s.drop_first()
    } else {
        s
    }
}

/// What `str::parse::<usize>` accepts: an optional `+`, then one or more ASCII digits,
/// with a value that fits.
pub open spec fn parse_usize_spec(s: Seq<char>) -> Option<usize> {
    let body = drop_sign(s, '+');
    if body.len() > 0 && all_digits(body) && digits_value(body) <= usize::MAX {
        Some(digits_value(body) as usize)
    } else {
        None
    }
}

/// What `str::parse::<i64>` accepts: an optional `+` or `-`, then one or more ASCII digits,
/// with a value in range.
pub open spec fn parse_i64_spec(s: Seq<char>) -> Option<i64> {
    if s.len() > 0 && s[0] == '-' {
        let body = s.drop_first();
        if body.len() > 0 && all_digits(body) && digits_value(body) <= 9223372036854775808 {
            Some((-(digits_value(body) as int)) as i64)
        } else {
            None
        }
    } else {
        let body = drop_sign(s, '+');
        if body.len() > 0 && all_digits(body) && digits_value(body) <= i64::MAX {
            Some(digits_value(body) as i64)
        } else {
            None
        }
    }
}

/// Value of an all-digit run, when it is at most `limit`.
fn digits_value_upto(s: &[char], start: usize, limit: u64) -> (r: Option<u64>)
    requires
        start <= s.len(),
    ensures
        match r {
            Some(v) => all_digits(s@.skip(start as int)) && v == digits_value(
                s@.skip(start as int),
            ) && v <= limit,
            None => !all_digits(s@.skip(start as int)) || digits_value(s@.skip(start as int))
                > limit,
        },
{
    let ghost body = s@.skip(start as int);
    let mut v: u64 = 0;
    let mut i: usize = start;
    let mut overflow = false;
    while i < s.len()
        invariant
            start <= i <= s.len(),
            body == s@.skip(start as int),
            forall|k: int| 0 <= k < i - start ==> is_digit(#[trigger] body[k]),
            !overflow ==> v == digits_value(body.take(i - start)) && v <= limit,
            overflow ==> digits_value(body.take(i - start)) > limit,
        decreases s.len() - i,
    {
        let c = s[i];
        assert(body[i - start] == c);
        if !('0' <= c && c <= '9') {
            return None;
        }
        let ghost t = body.take(i - start + 1);
        assert(t.drop_last() == body.take(i - start));
        assert(t.last() == c);
        if !overflow {
            let d: u64 = (c as u32 - '0' as u32) as u64;
            if d > limit || v > (limit - d) / 10 {
                overflow = true;
                assert(v * 10 + d > limit) by (nonlinear_arith)
                    requires
                        d > limit || v > (limit - d) / 10,
                        d < 10,
                ;
            } else {
                assert(v * 10 + d <= limit) by (nonlinear_arith)
                    requires
                        v <= (limit - d) / 10,
                        d < 10,
                ;
                v = v * 10 + d;
            }
        } else {
            assert(digits_value(t) >= digits_value(t.drop_last())) by (nonlinear_arith)
                requires
                    digits_value(t) == digits_value(t.drop_last()) * 10 + digit_val(t.last()),
            ;
        }
        i += 1;
    }
    assert(body.take(s.len() - start) == body);
    if overflow {
        None
    } else {
        Some(v)
    }
}


/// `str::parse::<usize>`.
pub fn parse_usize(s: &[char]) -> (r: Option<usize>)
    ensures
        r == parse_usize_spec(s@),
{
    let start: usize = if s.len() > 0 && s[0] == '+' {
        1
    } else {
        0
    };
    assert(drop_sign(s@, '+') == s@.skip(start as int));
    if start >= s.len() {
        return None;
    }
    match digits_value_upto(s, start, usize::MAX as u64) {
        Some(v) => Some(v as usize),
        None => None,
    }
}

/// `str::parse::<i64>`.
pub fn parse_i64(s: &[char]) -> (r: Option<i64>)
    ensures
        r == parse_i64_spec(s@),
{
    if s.len() > 0 && s[0] == '-' {
        assert(s@.drop_first() == s@.skip(1));
        if s.len() == 1 {
            return None;
        }
        match digits_value_upto(s, 1, 9223372036854775808u64) {
            Some(v) => {
                if v == 9223372036854775808u64 {
                    Some(i64::MIN)
                } else {
                    Some(-(v as i64))
                }
            },
            None => None,
        }
    } else {
        let start: usize = if s.len() > 0 && s[0] == '+' {
            1
        } else {
            0
        };
        assert(drop_sign(s@, '+') == s@.skip(start as int));
        if start >= s.len() {
            return None;
        }
        match digits_value_upto(s, start, i64::MAX as u64) {
            Some(v) => Some(v as i64),
            None => None,
        }
    }
}

/// `str::replace` with a non-empty pattern: each non-overlapping occurrence of `from`,
/// scanning left to right, becomes `to`.
pub open spec fn replace(s: Seq<char>, from: Seq<char>, to: Seq<char>) -> Seq<char>
    recommends
        from.len() > 0,
    decreases s.len(),
{
    if s.len() == 0 || from.len() == 0 {
        s
    } else if matches_at(s, from, 0) {
        to + replace(s.skip(from.len() as int), from, to)
    } else {
        seq![s[0]] + replace(s.drop_first(), from, to)
    }
}

proof fn lemma_matches_at_skip(s: Seq<char>, p: Seq<char>, i: int)
    requires
        0 <= i <= s.len(),
    ensures
        matches_at(s, p, i) == matches_at(s.skip(i), p, 0),
{
    if matches_at(s.skip(i), p, 0) {
        assert forall|k: int| 0 <= k < p.len() implies #[trigger] s[i + k] == p[k] by {
            assert(s.skip(i)[0 + k] == s[i + k]);
        }
    }
    if matches_at(s, p, i) {
        assert forall|k: int| 0 <= k < p.len() implies #[trigger] s.skip(i)[0 + k] == p[k] by {
            assert(s.skip(i)[0 + k] == s[i + k]);
        }
    }
}

pub fn replace_exec(s: &[char], from: &[char], to: &[char]) -> (r: Vec<char>)
    requires
        from@.len() > 0,
    ensures
        r@ == replace(s@, from@, to@),
{
    let mut r: Vec<char> = Vec::new();
    let mut i: usize = 0;
    assert(s@.skip(0) == s@);
    assert(r@ + replace(s@, from@, to@) == replace(s@, from@, to@));
    while i < s.len()
        invariant
            i <= s.len(),
            from@.len() > 0,
            replace(s@, from@, to@) == r@ + replace(s@.skip(i as int), from@, to@),
        decreases s.len() - i,
    {
        let ghost rest = s@.skip(i as int);
        proof {
            lemma_matches_at_skip(s@, from@, i as int);
        }
        if matches_at_exec(s, from, i) {
            append_chars(&mut r, to);
            assert(rest.skip(from@.len() as int) == s@.skip(i + from@.len()));
            i += from.len();
        } else {
            r.push(s[i]);
            assert(rest.drop_first() == s@.skip(i + 1));
            assert(rest[0] == s@[i as int]);
            i += 1;
        }
    }
    assert(s@.skip(i as int).len() == 0);
    assert(r@ + Seq::<char>::empty() == r@);
    r
}


/// Splits at every occurrence of `c`, as `str::split` with a character pattern does.
pub fn split_char(s: &[char], c: char) -> (r: Vec<Vec<char>>)
    ensures
        seqs_of(r@) == split_on(s@, c),
{
    let mut done: Vec<Vec<char>> = Vec::new();
    let mut cur: Vec<char> = Vec::new();
    let mut i: usize = 0;
    while i < s.len()
        invariant
            i <= s.len(),
            split_on(s@.take(i as int), c) == seqs_of(done@).push(cur@),
        decreases s.len() - i,
    {
        let x = s[i];
        assert(s@.take(i + 1).drop_last() == s@.take(i as int));
        if x == c {
            proof {
                lemma_seqs_of_push(done@, cur);
            }
            done.push(cur);
            cur = Vec::new();
            assert(cur@ =~= Seq::<char>::empty());
        } else {
            assert(seqs_of(done@).push(cur@).update(seqs_of(done@).len() as int, cur@.push(x))
                =~= seqs_of(done@).push(cur@.push(x)));
            cur.push(x);
        }
        i += 1;
    }
    assert(s@.take(s.len() as int) == s@);
    proof {
        lemma_seqs_of_push(done@, cur);
    }
    done.push(cur);
    done
}

/// The piece after the first occurrence of `c` and before the next one, or nothing:
/// `s.split(c).nth(1).unwrap_or("")`.
pub open spec fn second_piece(s: Seq<char>, c: char) -> Seq<char> {
    let p = split_on(s, c);
    if p.len() >= 2 {
        p[1]
    } else {
        seq![]
    }
}

pub fn second_piece_exec(s: &[char], c: char) -> (r: Vec<char>)
    ensures
        r@ == second_piece(s@, c),
{
    let mut parts = split_char(s, c);
    if parts.len() >= 2 {
        let r = parts.remove(1);
        r
    } else {
        Vec::new()
    }
}


/// An owned copy of a string slice.
pub fn lit(s: &str) -> (r: String)
    ensures
        r@ == s@,
{
    let cs = chars_of(s);
    string_of(cs.as_slice())
}

/// `a`, then the decimal text of `n`, then `b`.
pub fn cat_num(a: &str, n: usize, b: &str) -> (r: String)
    ensures
        r@ == a@ + dec(n as nat) + b@,
{
    let mut v = chars_of(a);
    push_usize(&mut v, n);
    append_str(&mut v, b);
    string_of(v.as_slice())
}

/// `a`, then `x`, then `b`.
pub fn cat_str(a: &str, x: &str, b: &str) -> (r: String)
    ensures
        r@ == a@ + x@ + b@,
{
    let mut v = chars_of(a);
    append_str(&mut v, x);
    append_str(&mut v, b);
    string_of(v.as_slice())
}

/// The abstract text of each string in a vector.
pub open spec fn texts(v: Seq<String>) -> Seq<Seq<char>> {
    v.map_values(|x: String| x@)
}

/// The strings of a vector joined with `sep`, as `[String]::join` does.
pub fn join_strings(v: &Vec<String>, sep: &str) -> (r: String)
    ensures
        r@ == join(texts(v@), sep@),
{
    let sepc = chars_of(sep);
    let mut r: Vec<char> = Vec::new();
    let mut i: usize = 0;
    while i < v.len()
        invariant
            i <= v.len(),
            sepc@ == sep@,
            r@ == join(texts(v@).take(i as int), sep@),
        decreases v.len() - i,
    {
        let ghost before = r@;
        if i > 0 {
            append_chars(&mut r, sepc.as_slice());
        }
        append_str(&mut r, v[i].as_str());
        proof {
            let t = texts(v@).take(i + 1);
            assert(t.drop_last() == texts(v@).take(i as int));
            if i == 0 {
                assert(join(texts(v@).take(0), sep@) == Seq::<char>::empty());
                assert(before + v@[0 as int]@ =~= v@[0 as int]@);
            }
        }
        i += 1;
    }
    assert(texts(v@).take(v.len() as int) == texts(v@));
    string_of(r.as_slice())
}


/// The empty literal has no characters.
pub proof fn lemma_empty_str()
    ensures
        ""@ == Seq::<char>::empty(),
{
    reveal_strlit("");
}


/// Moves all strings of `src`, in order, to the end of `dst`.
pub fn extend_strings(dst: &mut Vec<String>, src: Vec<String>)
    ensures
        texts(final(dst)@) == texts(old(dst)@) + texts(src@),
        final(dst)@ == old(dst)@ + src@,
{
    let mut lines = src;
    let ghost all = lines@;
    let ghost mut i: int = 0;
    while lines.len() > 0
        invariant
            0 <= i <= all.len(),
            lines@ == all.skip(i),
            dst@ == old(dst)@ + all.take(i),
        decreases lines.len(),
    {
        let ghost before = lines@;
        let l = lines.remove(0);
        dst.push(l);
        proof {
            assert(lines@ =~= all.skip(i + 1));
            assert(all.take(i + 1) =~= all.take(i).push(all[i]));
            assert(dst@ =~= old(dst)@ + all.take(i + 1));
            i = i + 1;
        }
    }
    assert(all.take(i) =~= all);
    assert(texts(dst@) =~= texts(old(dst)@) + texts(all));
}

/// `str::replace` with a pattern string; the pattern is not empty wherever it is used.
pub fn replace_str(s: &[char], from: &str, to: &str) -> (r: Vec<char>)
    ensures
        r@ == replace(s@, from@, to@),
{
    let f = chars_of(from);
    let t = chars_of(to);
    if f.len() == 0 {
        let mut r: Vec<char> = Vec::new();
        append_chars(&mut r, s);
        r
    } else {
        replace_exec(s, f.as_slice(), t.as_slice())
    }
}

/// Whether two character sequences are equal.
pub fn chars_eq(a: &[char], b: &[char]) -> (r: bool)
    ensures
        r == (a@ == b@),
{
    if a.len() != b.len() {
        return false;
    }
    let mut i: usize = 0;
    while i < a.len()
        invariant
            i <= a.len(),
            a.len() == b.len(),
            forall|j: int| 0 <= j < i ==> a@[j] == b@[j],
        decreases a.len() - i,
    {
        if a[i] != b[i] {
            return false;
        }
        i += 1;
    }
    assert(a@ =~= b@);
    true
}

/// The part of `terminated` contributed by a concatenation splits at the seam.
pub proof fn lemma_terminated_concat(a: Seq<Seq<char>>, b: Seq<Seq<char>>)
    ensures
        terminated(a + b) == terminated(a) + terminated(b),
    decreases b.len(),
{
    if b.len() == 0 {
        assert(a + b =~= a);
        assert(terminated(b) =~= Seq::<char>::empty());
        assert(terminated(a) + terminated(b) =~= terminated(a));
    } else {
        assert((a + b).drop_last() =~= a + b.drop_last());
        lemma_terminated_concat(a, b.drop_last());
        assert((a + b).last() == b.last());
    }
}

/// Whether `char::is_numeric` holds of a character: a Unicode general category for
/// numbers (Nd, Nl or No).
pub uninterp spec fn numeric_char(c: char) -> bool;

/// `char::is_numeric`. The contract names the answer and states that among ASCII
/// characters exactly the digits are numeric; which other characters the Unicode tables
/// count is left unstated.
#[verifier::external_body]
pub(crate) fn char_is_numeric(c: char) -> (r: bool)
    ensures
        r == numeric_char(c),
        '0' <= c <= '9' ==> r,
        (c as u32) < 0x80 ==> (r <==> ('0' <= c <= '9')),
{
    c.is_numeric()
}

/// The leading run of numeric characters.
pub open spec fn numeric_prefix(s: Seq<char>) -> Seq<char>
    decreases s.len(),
{
    if s.len() > 0 && numeric_char(s[0]) {
        seq![s[0]] + numeric_prefix(s.drop_first())
    } else {
        seq![]
    }
}

/// `s.chars().take_while(|c| c.is_numeric())`.
pub fn numeric_prefix_exec(s: &[char]) -> (r: Vec<char>)
    ensures
        r@ == numeric_prefix(s@),
{
    let mut n: usize = 0;
    while n < s.len() && char_is_numeric(s[n])
        invariant
            n <= s.len(),
            forall|j: int| 0 <= j < n ==> numeric_char(#[trigger] s@[j]),
        decreases s.len() - n,
    {
        n += 1;
    }
    let mut r: Vec<char> = Vec::new();
    let mut i: usize = 0;
    while i < n
        invariant
            i <= n <= s.len(),
            r@ == s@.take(i as int),
        decreases n - i,
    {
        r.push(s[i]);
        i += 1;
        assert(r@ =~= s@.take(i as int));
    }
    proof {
        lemma_numeric_prefix(s@, n as int);
    }
    r
}

proof fn lemma_numeric_prefix(s: Seq<char>, n: int)
    requires
        0 <= n <= s.len(),
        forall|j: int| 0 <= j < n ==> numeric_char(#[trigger] s[j]),
        n == s.len() || !numeric_char(s[n]),
    ensures
        numeric_prefix(s) == s.take(n),
    decreases n,
{
    if n == 0 {
        if s.len() > 0 {
            assert(!numeric_char(s[0]));
        }
        assert(s.take(0) =~= Seq::<char>::empty());
    } else {
        let t = s.drop_first();
        assert forall|j: int| 0 <= j < n - 1 implies numeric_char(#[trigger] t[j]) by {
            assert(t[j] == s[j + 1]);
        }
        if n - 1 < t.len() {
            assert(t[n - 1] == s[n]);
        }
        lemma_numeric_prefix(t, n - 1);
        assert(numeric_char(s[0]));
        assert(seq![s[0]] + t.take(n - 1) =~= s.take(n));
    }
}

} // verus!
