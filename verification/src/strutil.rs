//! Verified helpers over strings and character sequences: lexicographic
//! ordering, prefix/suffix/substring tests, path-component matching and
//! decimal formatting.  Snapshot file maps are ordered by these functions.

use vstd::prelude::*;

verus! {

use vstd::string::*;

/// Strict lexicographic order on character sequences, by code point.
pub open spec fn lex_lt(a: Seq<char>, b: Seq<char>) -> bool
    decreases a.len(),
{
    if b.len() == 0 {
        false
    } else if a.len() == 0 {
        true
    } else if a[0] < b[0] {
        true
    } else if b[0] < a[0] {
        false
    } else {
        lex_lt(a.drop_first(), b.drop_first())
    }
}

/// Two sequences that neither precedes are equal.
pub proof fn lemma_lex_connected(a: Seq<char>, b: Seq<char>)
    ensures
        !lex_lt(a, b) && !lex_lt(b, a) ==> a =~= b,
    decreases a.len(),
{
    if a.len() != 0 && b.len() != 0 && !lex_lt(a, b) && !lex_lt(b, a) {
        lemma_lex_connected(a.drop_first(), b.drop_first());
        assert(a[0] == b[0]);
        assert(a =~= seq![a[0]] + a.drop_first());
        assert(b =~= seq![b[0]] + b.drop_first());
    }
}

/// Lexicographic order is transitive.
pub proof fn lemma_lex_trans(a: Seq<char>, b: Seq<char>, c: Seq<char>)
    ensures
        lex_lt(a, b) && lex_lt(b, c) ==> lex_lt(a, c),
    decreases a.len() + b.len() + c.len(),
{
    if lex_lt(a, b) && lex_lt(b, c) && a.len() != 0 && b.len() != 0 && c.len() != 0 {
        lemma_lex_trans(a.drop_first(), b.drop_first(), c.drop_first());
    }
}

/// Lexicographic order is irreflexive.
pub proof fn lemma_lex_irrefl(a: Seq<char>)
    ensures
        !lex_lt(a, a),
    decreases a.len(),
{
    if a.len() != 0 {
        lemma_lex_irrefl(a.drop_first());
    }
}

/// Dropping a common first character preserves the order.
proof fn lemma_lex_skip(a: Seq<char>, b: Seq<char>, i: int)
    requires
        0 <= i <= a.len(),
        0 <= i <= b.len(),
        forall|j: int| 0 <= j < i ==> a[j] == b[j],
    ensures
        lex_lt(a, b) == lex_lt(a.skip(i), b.skip(i)),
    decreases i,
{
    if i > 0 {
        assert(a.len() > 0 && b.len() > 0);
        assert(a[0] == b[0]);
        assert(a.drop_first() =~= a.skip(1));
        assert(b.drop_first() =~= b.skip(1));
        lemma_lex_skip(a.skip(1), b.skip(1), i - 1);
        assert(a.skip(1).skip(i - 1) =~= a.skip(i));
        assert(b.skip(1).skip(i - 1) =~= b.skip(i));
    } else {
        assert(a.skip(0) =~= a);
        assert(b.skip(0) =~= b);
    }
}

/// Compares two strings in lexicographic order by code point.
pub fn str_lt(a: &str, b: &str) -> (r: bool)
    ensures
        r == lex_lt(a@, b@),
{
    let alen = a.unicode_len();
    let blen = b.unicode_len();
    let n = if alen < blen { alen } else { blen };
    let mut i: usize = 0;
    while i < n
        invariant
            0 <= i <= n,
            n <= alen && n <= blen,
            alen == a@.len() && blen == b@.len(),
            n == if alen < blen { alen } else { blen },
            forall|j: int| 0 <= j < i ==> a@[j] == b@[j],
        decreases n - i,
    {
        let ca = a.get_char(i);
        let cb = b.get_char(i);
        if ca < cb {
            proof {
                lemma_lex_skip(a@, b@, i as int);
            }
            return true;
        }
        if cb < ca {
            proof {
                lemma_lex_skip(a@, b@, i as int);
            }
            return false;
        }
        assert(ca == cb);
        i = i + 1;
    }
    proof {
        lemma_lex_skip(a@, b@, n as int);
    }
    alen < blen
}

/// Reports whether two strings hold the same characters.
pub fn str_eq(a: &str, b: &str) -> (r: bool)
    ensures
        r == (a@ == b@),
{
    let alen = a.unicode_len();
    let blen = b.unicode_len();
    if alen != blen {
        assert(a@ != b@);
        return false;
    }
    let mut i: usize = 0;
    while i < alen
        invariant
            0 <= i <= alen,
            alen == a@.len() && alen == b@.len(),
            forall|j: int| 0 <= j < i ==> a@[j] == b@[j],
        decreases alen - i,
    {
        if a.get_char(i) != b.get_char(i) {
            assert(!(a@ =~= b@));
            return false;
        }
        i = i + 1;
    }
    assert(a@ =~= b@);
    true
}

/// Reports whether `p` is a prefix of `s`.
pub fn str_starts_with(s: &str, p: &str) -> (r: bool)
    ensures
        r == p@.is_prefix_of(s@),
{
    let slen = s.unicode_len();
    let plen = p.unicode_len();
    if plen > slen {
        return false;
    }
    let mut i: usize = 0;
    while i < plen
        invariant
            0 <= i <= plen,
            plen <= slen,
            slen == s@.len() && plen == p@.len(),
            forall|j: int| 0 <= j < i ==> s@[j] == p@[j],
        decreases plen - i,
    {
        if s.get_char(i) != p.get_char(i) {
            assert(!(p@ =~= s@.subrange(0, p@.len() as int)));
            return false;
        }
        i = i + 1;
    }
    assert(p@ =~= s@.subrange(0, p@.len() as int));
    true
}

/// Reports whether `p` is a suffix of `s`.
pub fn str_ends_with(s: &str, p: &str) -> (r: bool)
    ensures
        r == p@.is_suffix_of(s@),
{
    let slen = s.unicode_len();
    let plen = p.unicode_len();
    if plen > slen {
        return false;
    }
    let off = slen - plen;
    let mut i: usize = 0;
    while i < plen
        invariant
            0 <= i <= plen,
            plen <= slen,
            off == slen - plen,
            slen == s@.len() && plen == p@.len(),
            forall|j: int| 0 <= j < i ==> s@[off + j] == p@[j],
        decreases plen - i,
    {
        if s.get_char(off + i) != p.get_char(i) {
            assert(!(p@ =~= s@.subrange(s@.len() - p@.len(), s@.len() as int)));
            return false;
        }
        i = i + 1;
    }
    assert(p@ =~= s@.subrange(s@.len() - p@.len(), s@.len() as int));
    true
}

/// `sub` occurs somewhere inside `s`.
pub open spec fn contains_seq(s: Seq<char>, sub: Seq<char>) -> bool {
    exists|i: int|
        0 <= i <= s.len() - sub.len() && sub == #[trigger] s.subrange(i, i + sub.len() as int)
}

/// `sub` matches `s` at position `i`.
fn matches_at(s: &str, i: usize, sub: &str) -> (r: bool)
    requires
        i + sub@.len() <= s@.len(),
    ensures
        r == (sub@ == s@.subrange(i as int, i + sub@.len() as int)),
{
    let slen = s.unicode_len();
    let sublen = sub.unicode_len();
    let mut j: usize = 0;
    while j < sublen
        invariant
            0 <= j <= sublen,
            sublen == sub@.len(),
            slen == s@.len(),
            i + sublen <= slen,
            forall|k: int| 0 <= k < j ==> s@[i + k] == sub@[k],
        decreases sublen - j,
    {
        if s.get_char(i + j) != sub.get_char(j) {
            assert(!(sub@ =~= s@.subrange(i as int, i + sub@.len() as int)));
            return false;
        }
        j = j + 1;
    }
    assert(sub@ =~= s@.subrange(i as int, i + sub@.len() as int));
    true
}

/// Reports whether `sub` occurs inside `s`.
pub fn str_contains(s: &str, sub: &str) -> (r: bool)
    ensures
        r == contains_seq(s@, sub@),
{
    let slen = s.unicode_len();
    let sublen = sub.unicode_len();
    if sublen > slen {
        assert(!contains_seq(s@, sub@));
        return false;
    }
    let mut i: usize = 0;
    loop
        invariant
            0 <= i <= slen - sublen,
            sublen <= slen,
            slen == s@.len() && sublen == sub@.len(),
            forall|j: int| 0 <= j < i ==> sub@ != #[trigger] s@.subrange(j, j + sub@.len() as int),
        decreases slen - sublen - i,
    {
        if matches_at(s, i, sub) {
            return true;
        }
        if i == slen - sublen {
            return false;
        }
        i = i + 1;
    }
}

/// The half-open range `[i, j)` delimits one `/`-separated component of `s`.
pub open spec fn is_component(s: Seq<char>, i: int, j: int) -> bool {
    &&& 0 <= i <= j <= s.len()
    &&& (i == 0 || s[i - 1] == '/')
    &&& (j == s.len() || s[j] == '/')
    &&& forall|k: int| i <= k < j ==> s[k] != '/'
}

/// Some `/`-separated component of `s` equals `pat`.
pub open spec fn has_component(s: Seq<char>, pat: Seq<char>) -> bool {
    exists|i: int, j: int| is_component(s, i, j) && s.subrange(i, j) == pat
}

/// A component is determined by its start position.
proof fn lemma_component_unique(s: Seq<char>, i: int, j1: int, j2: int)
    requires
        is_component(s, i, j1),
        is_component(s, i, j2),
    ensures
        j1 == j2,
{
    if j1 < j2 {
        assert(s[j1] == '/');
        assert(s[j1] != '/');
    }
    if j2 < j1 {
        assert(s[j2] == '/');
        assert(s[j2] != '/');
    }
}

/// Reports whether some `/`-separated component of `s` equals `pat`.
pub fn str_has_component(s: &str, pat: &str) -> (r: bool)
    ensures
        r == has_component(s@, pat@),
{
    let slen = s.unicode_len();
    let mut start: usize = 0;
    loop
        invariant
            0 <= start <= slen + 1,
            slen == s@.len(),
            start == 0 || (start - 1 < slen && s@[start as int - 1] == '/'),
            forall|i: int, j: int|
                is_component(s@, i, j) && i < start ==> s@.subrange(i, j) != pat@,
        decreases slen + 1 - start,
    {
        // find the end of the component that starts at `start`
        let mut end: usize = start;
        while end < slen && s.get_char(end) != '/'
            invariant
                start <= end <= slen,
                slen == s@.len(),
                forall|k: int| start <= k < end ==> s@[k] != '/',
            decreases slen - end,
        {
            end = end + 1;
        }
        assert(is_component(s@, start as int, end as int));
        if end - start == pat.unicode_len() && matches_at(s, start, pat) {
            proof {
                assert(s@.subrange(start as int, end as int) =~= s@.subrange(
                    start as int,
                    start as int + pat@.len() as int,
                ));
            }
            return true;
        }
        proof {
            if s@.subrange(start as int, end as int) == pat@ {
                assert(end - start == pat@.len());
                assert(s@.subrange(start as int, start as int + pat@.len() as int) == pat@);
            }
            assert forall|i: int, j: int|
                is_component(s@, i, j) && i < end + 1 implies s@.subrange(i, j) != pat@ by {
                if i >= start {
                    if i > start {
                        assert(s@[i - 1] == '/');
                        assert(start <= i - 1 < end);
                        assert(false);
                    }
                    lemma_component_unique(s@, i, j, end as int);
                }
            }
        }
        if end >= slen {
            return false;
        }
        start = end + 1;
    }
}

/// `s` with every trailing `c` removed.
pub open spec fn strip_trailing(s: Seq<char>, c: char) -> Seq<char>
    decreases s.len(),
{
    if s.len() > 0 && s.last() == c {
        strip_trailing(s.drop_last(), c)
    } else {
        s
    }
}

/// Returns `s` with every trailing slash removed.
pub fn strip_trailing_slashes<'a>(s: &'a str) -> (r: &'a str)
    ensures
        r@ == strip_trailing(s@, '/'),
{
    let slen = s.unicode_len();
    let mut end: usize = slen;
    proof {
        assert(s@.subrange(0, s@.len() as int) =~= s@);
    }
    while end > 0 && s.get_char(end - 1) == '/'
        invariant
            0 <= end <= slen,
            slen == s@.len(),
            strip_trailing(s@, '/') == strip_trailing(s@.subrange(0, end as int), '/'),
        decreases end,
    {
        proof {
            assert(s@.subrange(0, end as int).drop_last() =~= s@.subrange(0, end as int - 1));
        }
        end = end - 1;
    }
    proof {
        assert(s@.subrange(0, s@.len() as int) =~= s@);
        let t = s@.subrange(0, end as int);
        assert(strip_trailing(t, '/') == t);
    }
    s.substring_char(0, end)
}

/// The subsequence of `s` whose elements satisfy `pred`, in order.
pub open spec fn seq_filter<A>(s: Seq<A>, pred: spec_fn(A) -> bool) -> Seq<A>
    decreases s.len(),
{
    if s.len() == 0 {
        Seq::empty()
    } else {
        let rest = seq_filter(s.drop_last(), pred);
        if pred(s.last()) {
            rest.push(s.last())
        } else {
            rest
        }
    }
}

/// Filtering with a predicate that holds everywhere changes nothing.
pub proof fn lemma_seq_filter_all<A>(s: Seq<A>, pred: spec_fn(A) -> bool)
    requires
        forall|i: int| 0 <= i < s.len() ==> pred(#[trigger] s[i]),
    ensures
        seq_filter(s, pred) == s,
    decreases s.len(),
{
    if s.len() > 0 {
        lemma_seq_filter_all(s.drop_last(), pred);
        assert(seq_filter(s, pred) =~= s);
    } else {
        assert(seq_filter(s, pred) =~= s);
    }
}

/// Filtering twice is filtering with the conjunction.
pub proof fn lemma_seq_filter_compose<A>(
    s: Seq<A>,
    p: spec_fn(A) -> bool,
    q: spec_fn(A) -> bool,
    both: spec_fn(A) -> bool,
)
    requires
        forall|x: A| #[trigger] both(x) == (p(x) && q(x)),
    ensures
        seq_filter(seq_filter(s, p), q) == seq_filter(s, both),
    decreases s.len(),
{
    if s.len() > 0 {
        lemma_seq_filter_compose(s.drop_last(), p, q, both);
        let inner = seq_filter(s.drop_last(), p);
        if p(s.last()) {
            assert(seq_filter(s, p) == inner.push(s.last()));
            assert(inner.push(s.last()).drop_last() =~= inner);
            assert(inner.push(s.last()).last() == s.last());
        }
    }
}

/// The filtered sequence is no longer than the original.
pub proof fn lemma_seq_filter_len<A>(s: Seq<A>, pred: spec_fn(A) -> bool)
    ensures
        seq_filter(s, pred).len() <= s.len(),
    decreases s.len(),
{
    if s.len() > 0 {
        lemma_seq_filter_len(s.drop_last(), pred);
    }
}

/// Filtering distributes over concatenation.
pub proof fn lemma_seq_filter_concat<A>(a: Seq<A>, b: Seq<A>, pred: spec_fn(A) -> bool)
    ensures
        seq_filter(a + b, pred) == seq_filter(a, pred) + seq_filter(b, pred),
    decreases b.len(),
{
    if b.len() == 0 {
        assert(a + b =~= a);
        assert(seq_filter(a, pred) + seq_filter(b, pred) =~= seq_filter(a, pred));
    } else {
        lemma_seq_filter_concat(a, b.drop_last(), pred);
        assert((a + b).drop_last() =~= a + b.drop_last());
        assert((a + b).last() == b.last());
        if pred(b.last()) {
            assert(seq_filter(a, pred) + seq_filter(b, pred) =~= (seq_filter(a, pred) + seq_filter(
                b.drop_last(),
                pred,
            )).push(b.last()));
        }
    }
}

/// Every element of the filtered sequence satisfies the predicate and comes
/// from the original sequence.
pub proof fn lemma_seq_filter_membership<A>(s: Seq<A>, pred: spec_fn(A) -> bool)
    ensures
        forall|i: int|
            0 <= i < seq_filter(s, pred).len() ==> pred(#[trigger] seq_filter(s, pred)[i])
                && exists|k: int| 0 <= k < s.len() && s[k] == seq_filter(s, pred)[i],
    decreases s.len(),
{
    if s.len() > 0 {
        lemma_seq_filter_membership(s.drop_last(), pred);
        let rest = seq_filter(s.drop_last(), pred);
        let out = seq_filter(s, pred);
        assert forall|i: int| 0 <= i < out.len() implies pred(#[trigger] out[i]) && exists|k: int|
            0 <= k < s.len() && s[k] == out[i] by {
            if i < rest.len() {
                assert(out[i] == rest[i]);
                let k = choose|k: int| 0 <= k < s.drop_last().len() && s.drop_last()[k] == rest[i];
                assert(s[k] == out[i]);
            } else {
                assert(out[i] == s.last());
                assert(s[s.len() - 1] == out[i]);
            }
        }
    }
}

/// Every original element that satisfies the predicate appears in the
/// filtered sequence.
pub proof fn lemma_seq_filter_keeps<A>(s: Seq<A>, pred: spec_fn(A) -> bool)
    ensures
        forall|k: int|
            0 <= k < s.len() && pred(#[trigger] s[k]) ==> exists|i: int|
                0 <= i < seq_filter(s, pred).len() && seq_filter(s, pred)[i] == s[k],
    decreases s.len(),
{
    if s.len() > 0 {
        let prefix = s.drop_last();
        lemma_seq_filter_keeps(prefix, pred);
        let rest = seq_filter(prefix, pred);
        let out = seq_filter(s, pred);
        assert forall|k: int| 0 <= k < s.len() && pred(#[trigger] s[k]) implies exists|i: int|
            0 <= i < out.len() && out[i] == s[k] by {
            if k < s.len() - 1 {
                assert(prefix[k] == s[k]);
                let i = choose|i: int| 0 <= i < rest.len() && rest[i] == prefix[k];
                assert(out[i] == s[k]);
            } else {
                assert(out[out.len() - 1] == s.last());
            }
        }
    }
}

/// Filtering keeps keys pairwise distinct, for any key function.
pub proof fn lemma_seq_filter_unique<A>(
    s: Seq<A>,
    pred: spec_fn(A) -> bool,
    key: spec_fn(A) -> Seq<char>,
)
    requires
        forall|i: int, j: int| 0 <= i < j < s.len() ==> key(#[trigger] s[i]) != key(#[trigger] s[j]),
    ensures
        forall|i: int, j: int|
            0 <= i < j < seq_filter(s, pred).len() ==> key(#[trigger] seq_filter(s, pred)[i])
                != key(#[trigger] seq_filter(s, pred)[j]),
    decreases s.len(),
{
    if s.len() > 0 {
        let prefix = s.drop_last();
        lemma_seq_filter_unique(prefix, pred, key);
        lemma_seq_filter_membership(prefix, pred);
        let rest = seq_filter(prefix, pred);
        let out = seq_filter(s, pred);
        assert forall|i: int, j: int| 0 <= i < j < out.len() implies key(#[trigger] out[i]) != key(
            #[trigger] out[j],
        ) by {
            if j < rest.len() {
                assert(out[i] == rest[i] && out[j] == rest[j]);
            } else {
                assert(pred(s.last()) && out[j] == s.last());
                assert(out[i] == rest[i]);
                let k = choose|k: int| 0 <= k < prefix.len() && prefix[k] == rest[i];
                assert(key(s[k]) != key(s[s.len() - 1]));
            }
        }
    }
}

/// The decimal digit character for `d`.
pub open spec fn dec_digit(d: int) -> char {
    if d == 0 {
        '0'
    } else if d == 1 {
        '1'
    } else if d == 2 {
        '2'
    } else if d == 3 {
        '3'
    } else if d == 4 {
        '4'
    } else if d == 5 {
        '5'
    } else if d == 6 {
        '6'
    } else if d == 7 {
        '7'
    } else if d == 8 {
        '8'
    } else {
        '9'
    }
}

/// The decimal rendering of `n`, most significant digit first.
pub open spec fn dec_str(n: nat) -> Seq<char>
    decreases n,
{
    if n < 10 {
        seq![dec_digit(n as int)]
    } else {
        dec_str(n / 10) + seq![dec_digit((n % 10) as int)]
    }
}

/// `k` zero characters.
pub open spec fn zeros(k: nat) -> Seq<char>
    decreases k,
{
    if k == 0 {
        Seq::empty()
    } else {
        seq!['0'] + zeros((k - 1) as nat)
    }
}

/// The decimal rendering of `n`, left-padded with zeros to at least `w` characters.
pub open spec fn padded_dec(n: nat, w: nat) -> Seq<char> {
    if dec_str(n).len() >= w {
        dec_str(n)
    } else {
        zeros((w - dec_str(n).len()) as nat) + dec_str(n)
    }
}

/// The single-character string for decimal digit `d`.
fn digit_str(d: u64) -> (r: &'static str)
    requires
        d < 10,
    ensures
        r@ =~= seq![dec_digit(d as int)],
{
    proof {
        reveal_strlit("0");
        reveal_strlit("1");
        reveal_strlit("2");
        reveal_strlit("3");
        reveal_strlit("4");
        reveal_strlit("5");
        reveal_strlit("6");
        reveal_strlit("7");
        reveal_strlit("8");
        reveal_strlit("9");
    }
    match d {
        0 => "0",
        1 => "1",
        2 => "2",
        3 => "3",
        4 => "4",
        5 => "5",
        6 => "6",
        7 => "7",
        8 => "8",
        _ => "9",
    }
}

/// Renders `n` in decimal.
pub fn u64_to_dec(n: u64) -> (r: String)
    ensures
        r@ == dec_str(n as nat),
    decreases n,
{
    if n < 10 {
        digit_str(n).to_owned()
    } else {
        let mut s = u64_to_dec(n / 10);
        s.append(digit_str(n % 10));
        s
    }
}

/// Renders a 128-bit value in decimal.
pub fn u128_to_dec(n: u128) -> (r: String)
    ensures
        r@ == dec_str(n as nat),
    decreases n,
{
    if n < 10 {
        digit_str((n % 10) as u64).to_owned()
    } else {
        let mut s = u128_to_dec(n / 10);
        s.append(digit_str((n % 10) as u64));
        s
    }
}

/// Renders `n` in decimal, left-padded with zeros to at least `w` characters.
pub fn u64_to_dec_padded(n: u64, w: usize) -> (r: String)
    ensures
        r@ == padded_dec(n as nat, w as nat),
{
    let digits = u64_to_dec(n);
    let dlen = digits.as_str().unicode_len();
    if dlen >= w {
        return digits;
    }
    let mut s = String::new();
    let mut k: usize = 0;
    while k < w - dlen
        invariant
            0 <= k <= w - dlen,
            dlen == dec_str(n as nat).len(),
            dlen < w,
            s@ == zeros(k as nat),
        decreases w - dlen - k,
    {
        proof {
            reveal_strlit("0");
            lemma_zeros_snoc((k + 1) as nat);
        }
        s.append("0");
        k = k + 1;
    }
    s.append(digits.as_str());
    s
}

/// The decimal rendering of a possibly negative integer.
pub open spec fn int_dec_str(i: int) -> Seq<char> {
    if i < 0 {
        seq!['-'] + dec_str((-i) as nat)
    } else {
        dec_str(i as nat)
    }
}

/// Renders a signed 32-bit integer in decimal.
pub fn i32_to_dec(n: i32) -> (r: String)
    ensures
        r@ == int_dec_str(n as int),
{
    let wide: i64 = n as i64;
    if wide < 0 {
        proof {
            reveal_strlit("-");
        }
        let mut s = "-".to_owned();
        let digits = u64_to_dec((-wide) as u64);
        s.append(digits.as_str());
        s
    } else {
        u64_to_dec(wide as u64)
    }
}

/// Appending one more zero on the right equals prepending it on the left.
proof fn lemma_zeros_snoc(k: nat)
    ensures
        k > 0 ==> zeros(k) =~= zeros((k - 1) as nat) + seq!['0'],
    decreases k,
{
    if k > 1 {
        lemma_zeros_snoc((k - 1) as nat);
    }
}

} // verus!
