//! Character-level text operations over the `Seq<char>` view of strings:
//! substring search, Unicode `White_Space` trimming and decimal rendering.
use vstd::prelude::*;
use vstd::string::*;

verus! {

// ---------------------------------------------------------------------------
// Specifications
// ---------------------------------------------------------------------------

/// `pat` occurs in `s` starting at position `i`.
pub open spec fn occurs_at(s: Seq<char>, pat: Seq<char>, i: int) -> bool {
    0 <= i && i + pat.len() <= s.len() && s.subrange(i, i + pat.len()) == pat
}

/// `pat` occurs somewhere in `s`.
pub open spec fn contains_seq(s: Seq<char>, pat: Seq<char>) -> bool {
    exists|i: int| occurs_at(s, pat, i)
}

/// `s` begins with `prefix`.
pub open spec fn starts_with_seq(s: Seq<char>, prefix: Seq<char>) -> bool {
    occurs_at(s, prefix, 0)
}

/// `s` ends with `suffix`.
pub open spec fn ends_with_seq(s: Seq<char>, suffix: Seq<char>) -> bool {
    suffix.len() <= s.len() && s.subrange(s.len() - suffix.len(), s.len() as int) == suffix
}

/// The first position at or after `from` where `pat` occurs in `s`.
pub open spec fn find_from(s: Seq<char>, pat: Seq<char>, from: int) -> Option<int>
    decreases s.len() - from,
{
    if from < 0 || from + pat.len() > s.len() {
        None
    } else if occurs_at(s, pat, from) {
        Some(from)
    } else if pat.len() == 0 {
        // unreachable: the empty pattern occurs everywhere in range
        None
    } else {
        find_from(s, pat, from + 1)
    }
}

/// The first position where `pat` occurs in `s`.
pub open spec fn find_first(s: Seq<char>, pat: Seq<char>) -> Option<int> {
    find_from(s, pat, 0)
}

/// The Unicode `White_Space` property (PropList.txt), which `char::is_whitespace`
/// documents as its definition.
pub open spec fn is_white_space(c: char) -> bool {
    let u = c as int;
    ||| (0x9 <= u && u <= 0xd)
    ||| u == 0x20
    ||| u == 0x85
    ||| u == 0xa0
    ||| u == 0x1680
    ||| (0x2000 <= u && u <= 0x200a)
    ||| u == 0x2028
    ||| u == 0x2029
    ||| u == 0x202f
    ||| u == 0x205f
    ||| u == 0x3000
}

/// `s` without its leading white space.
pub open spec fn trim_start(s: Seq<char>) -> Seq<char>
    decreases s.len(),
{
    if s.len() > 0 && is_white_space(s[0]) {
        trim_start(s.drop_first())
    } else {
        s
    }
}

/// `s` without its trailing white space.
pub open spec fn trim_end(s: Seq<char>) -> Seq<char>
    decreases s.len(),
{
    if s.len() > 0 && is_white_space(s.last()) {
        trim_end(s.drop_last())
    } else {
        s
    }
}

/// `s` without leading and trailing white space, as `str::trim` documents it.
pub open spec fn trimmed(s: Seq<char>) -> Seq<char> {
    trim_end(trim_start(s))
}

/// The decimal digit character for `d < 10`.
pub open spec fn digit_char(d: nat) -> char {
    ((48 + d) as u32) as char
}

/// The decimal rendering of `n`, without leading zeros.
pub open spec fn decimal(n: nat) -> Seq<char>
    decreases n,
{
    if n < 10 {
        seq![digit_char(n)]
    } else {
        decimal(n / 10) + seq![digit_char(n % 10)]
    }
}

/// Lexicographic order on character sequences by code point, which is the order
/// `str` documents for its `Ord`.
pub open spec fn lex_lt(a: Seq<char>, b: Seq<char>) -> bool
    decreases a.len(),
{
    if a.len() == 0 {
        b.len() > 0
    } else if b.len() == 0 {
        false
    } else if a[0] != b[0] {
        (a[0] as int) < (b[0] as int)
    } else {
        lex_lt(a.drop_first(), b.drop_first())
    }
}

/// Lower-case form of a string, as `str::to_lowercase` computes it from the
/// Unicode `Lowercase` mapping tables.
pub uninterp spec fn lowercase_of(s: Seq<char>) -> Seq<char>;

// ---------------------------------------------------------------------------
// Lemmas
// ---------------------------------------------------------------------------

/// What `find_from` returns is the first occurrence at or after `from`.
pub proof fn lemma_find_from(s: Seq<char>, pat: Seq<char>, from: int)
    requires
        0 <= from,
    ensures
        match find_from(s, pat, from) {
            Some(i) => from <= i && occurs_at(s, pat, i) && forall|j: int|
                from <= j < i ==> !occurs_at(s, pat, j),
            None => forall|j: int| from <= j ==> !occurs_at(s, pat, j),
        },
    decreases s.len() - from,
{
    if from + pat.len() > s.len() {
    } else if occurs_at(s, pat, from) {
    } else if pat.len() == 0 {
        assert(s.subrange(from, from) =~= pat);
    } else {
        lemma_find_from(s, pat, from + 1);
    }
}

/// A sequence contains a pattern exactly when the search finds it.
pub proof fn lemma_contains_find(s: Seq<char>, pat: Seq<char>)
    ensures
        contains_seq(s, pat) <==> find_first(s, pat) is Some,
{
    lemma_find_from(s, pat, 0);
    if let Some(i) = find_first(s, pat) {
        assert(occurs_at(s, pat, i));
    }
}

/// Searching a suffix is searching the whole, shifted.
pub proof fn lemma_find_shift(s: Seq<char>, pat: Seq<char>, a: int, k: int)
    requires
        0 <= a <= s.len(),
        0 <= k,
    ensures
        find_from(s.subrange(a, s.len() as int), pat, k) == match find_from(s, pat, a + k) {
            Some(i) => Some(i - a),
            None => None::<int>,
        },
    decreases s.len() - a - k,
{
    let t = s.subrange(a, s.len() as int);
    if k + pat.len() > t.len() {
    } else {
        assert(t.subrange(k, k + pat.len()) =~= s.subrange(a + k, a + k + pat.len()));
        if occurs_at(t, pat, k) {
        } else if pat.len() == 0 {
        } else {
            lemma_find_shift(s, pat, a, k + 1);
        }
    }
}

proof fn lemma_trim_start_skip(s: Seq<char>, lo: int)
    requires
        0 <= lo < s.len(),
        is_white_space(s[lo]),
    ensures
        trim_start(s.subrange(lo, s.len() as int)) == trim_start(s.subrange(lo + 1, s.len() as int)),
{
    assert(s.subrange(lo, s.len() as int).drop_first() =~= s.subrange(lo + 1, s.len() as int));
}

proof fn lemma_trim_end_skip(s: Seq<char>, hi: int)
    requires
        0 < hi <= s.len(),
        is_white_space(s[hi - 1]),
    ensures
        trim_end(s.subrange(0, hi)) == trim_end(s.subrange(0, hi - 1)),
{
    assert(s.subrange(0, hi).drop_last() =~= s.subrange(0, hi - 1));
}

/// Trimming removes white space from the ends only: what is left is a contiguous
/// piece of the input, everything cut before and after it is white space, and it
/// neither starts nor ends with white space.
pub proof fn lemma_trimmed_shape(s: Seq<char>)
    ensures
        exists|lo: int, hi: int|
            0 <= lo <= hi <= s.len() && trimmed(s) == s.subrange(lo, hi) && (forall|i: int|
                0 <= i < lo ==> is_white_space(#[trigger] s[i])) && (forall|i: int|
                hi <= i < s.len() ==> is_white_space(#[trigger] s[i])),
        trimmed(s).len() > 0 ==> !is_white_space(trimmed(s)[0]) && !is_white_space(
            trimmed(s).last(),
        ),
{
    let (lo, hi) = trim_bounds(s);
    assert(trimmed(s) == s.subrange(lo, hi));
    if hi > lo {
        assert(trimmed(s)[0] == s[lo]);
        assert(trimmed(s).last() == s[hi - 1]);
    }
}

/// The positions that `trimmed` keeps.
proof fn trim_bounds(s: Seq<char>) -> (r: (int, int))
    ensures
        0 <= r.0 <= r.1 <= s.len(),
        trimmed(s) == s.subrange(r.0, r.1),
        forall|i: int| 0 <= i < r.0 ==> is_white_space(#[trigger] s[i]),
        forall|i: int| r.1 <= i < s.len() ==> is_white_space(#[trigger] s[i]),
        r.0 < r.1 ==> !is_white_space(s[r.0]) && !is_white_space(s[r.1 - 1]),
{
    let lo = start_bound(s, 0);
    let t = s.subrange(lo, s.len() as int);
    assert(trim_start(s) == t) by {
        assert(s.subrange(0, s.len() as int) =~= s);
    }
    let hi = end_bound(t, t.len() as int);
    assert(t.subrange(0, t.len() as int) =~= t);
    assert(t.subrange(0, hi) =~= s.subrange(lo, lo + hi));
    assert forall|i: int| lo + hi <= i < s.len() implies is_white_space(#[trigger] s[i]) by {
        assert(s[i] == t[i - lo]);
    }
    if hi > 0 {
        assert(s[lo + hi - 1] == t[hi - 1]);
    }
    (lo, lo + hi)
}

proof fn start_bound(s: Seq<char>, lo: int) -> (r: int)
    requires
        0 <= lo <= s.len(),
        forall|i: int| 0 <= i < lo ==> is_white_space(#[trigger] s[i]),
    ensures
        lo <= r <= s.len(),
        trim_start(s.subrange(lo, s.len() as int)) == s.subrange(r, s.len() as int),
        forall|i: int| 0 <= i < r ==> is_white_space(#[trigger] s[i]),
        r < s.len() ==> !is_white_space(s[r]),
    decreases s.len() - lo,
{
    if lo < s.len() && is_white_space(s[lo]) {
        lemma_trim_start_skip(s, lo);
        start_bound(s, lo + 1)
    } else {
        lo
    }
}

proof fn end_bound(t: Seq<char>, hi: int) -> (r: int)
    requires
        0 <= hi <= t.len(),
        forall|i: int| hi <= i < t.len() ==> is_white_space(#[trigger] t[i]),
    ensures
        0 <= r <= hi,
        trim_end(t.subrange(0, hi)) == t.subrange(0, r),
        forall|i: int| r <= i < t.len() ==> is_white_space(#[trigger] t[i]),
        r > 0 ==> !is_white_space(t[r - 1]),
    decreases hi,
{
    if hi > 0 && is_white_space(t[hi - 1]) {
        lemma_trim_end_skip(t, hi);
        end_bound(t, hi - 1)
    } else {
        hi
    }
}

/// Strict lexicographic order is irreflexive.
pub proof fn lemma_lex_irreflexive(a: Seq<char>)
    ensures
        !lex_lt(a, a),
    decreases a.len(),
{
    if a.len() > 0 {
        lemma_lex_irreflexive(a.drop_first());
    }
}

/// Strict lexicographic order is transitive.
pub proof fn lemma_lex_transitive(a: Seq<char>, b: Seq<char>, c: Seq<char>)
    requires
        lex_lt(a, b),
        lex_lt(b, c),
    ensures
        lex_lt(a, c),
    decreases a.len(),
{
    if a.len() > 0 && b.len() > 0 && c.len() > 0 {
        if a[0] == b[0] && b[0] == c[0] {
            lemma_lex_transitive(a.drop_first(), b.drop_first(), c.drop_first());
        }
    }
}

/// Strict lexicographic order is total on distinct sequences.
pub proof fn lemma_lex_total(a: Seq<char>, b: Seq<char>)
    ensures
        a != b ==> lex_lt(a, b) || lex_lt(b, a),
        !(lex_lt(a, b) && lex_lt(b, a)),
    decreases a.len(),
{
    if a.len() > 0 && b.len() > 0 {
        if a[0] == b[0] {
            lemma_lex_total(a.drop_first(), b.drop_first());
            if a.drop_first() == b.drop_first() {
                assert(a =~= seq![a[0]] + a.drop_first());
                assert(b =~= seq![b[0]] + b.drop_first());
            }
        } else {
            assert((a[0] as int) != (b[0] as int));
        }
    } else if a.len() == 0 && b.len() == 0 {
        assert(a =~= b);
    }
}

// ---------------------------------------------------------------------------
// Executable operations
// ---------------------------------------------------------------------------

/// The characters of `s`, in order.
pub fn chars_of(s: &str) -> (v: Vec<char>)
    ensures
        v@ == s@,
{
    let mut v: Vec<char> = Vec::new();
    for c in it: s.chars()
        invariant
            v@ == it.seq().take(it.index() as int),
            it.seq() == s@,
    {
        v.push(c);
    }
    v
}

/// Whether `pat` occurs in `hay` at position `i`.
pub fn occurs_at_exec(hay: &Vec<char>, pat: &Vec<char>, i: usize) -> (b: bool)
    ensures
        b == occurs_at(hay@, pat@, i as int),
{
    if pat.len() > hay.len() || i > hay.len() - pat.len() {
        return false;
    }
    let mut k: usize = 0;
    while k < pat.len()
        invariant
            i + pat.len() <= hay.len(),
            k <= pat.len(),
            forall|j: int| 0 <= j < k ==> hay@[i + j] == pat@[j],
        decreases pat.len() - k,
    {
        if hay[i + k] != pat[k] {
            assert(hay@.subrange(i as int, i + pat.len())[k as int] != pat@[k as int]);
            return false;
        }
        k = k + 1;
    }
    assert(hay@.subrange(i as int, i + pat.len()) =~= pat@);
    true
}

/// The first position at or after `from` where `pat` occurs in `hay`.
pub fn find_from_exec(hay: &Vec<char>, pat: &Vec<char>, from: usize) -> (r: Option<usize>)
    ensures
        match r {
            Some(i) => find_from(hay@, pat@, from as int) == Some(i as int),
            None => find_from(hay@, pat@, from as int) is None,
        },
{
    let mut i = from;
    while i <= hay.len() && hay.len() - i >= pat.len()
        invariant
            from <= i,
            find_from(hay@, pat@, from as int) == find_from(hay@, pat@, i as int),
        decreases hay.len() - i,
    {
        if occurs_at_exec(hay, pat, i) {
            return Some(i);
        }
        if pat.len() == 0 {
            assert(hay@.subrange(i as int, i as int) =~= pat@);
            return Some(i);
        }
        i = i + 1;
    }
    None
}

/// Whether `pat` occurs anywhere in `s`.
pub fn contains_text(s: &str, pat: &str) -> (b: bool)
    ensures
        b == contains_seq(s@, pat@),
{
    let hv = chars_of(s);
    let pv = chars_of(pat);
    let r = find_from_exec(&hv, &pv, 0);
    proof {
        lemma_contains_find(s@, pat@);
    }
    r.is_some()
}

/// Whether `s` begins with `prefix`.
pub fn starts_with_text(s: &str, prefix: &str) -> (b: bool)
    ensures
        b == starts_with_seq(s@, prefix@),
{
    let hv = chars_of(s);
    let pv = chars_of(prefix);
    occurs_at_exec(&hv, &pv, 0)
}

/// Whether two strings hold the same characters.
pub fn same_text(a: &str, b: &str) -> (r: bool)
    ensures
        r == (a@ == b@),
{
    let av = chars_of(a);
    let bv = chars_of(b);
    if av.len() != bv.len() {
        return false;
    }
    let r = occurs_at_exec(&av, &bv, 0);
    proof {
        assert(av@.subrange(0, bv@.len() as int) =~= av@);
    }
    r
}

/// Whether `c` has the Unicode `White_Space` property.
pub fn is_whitespace(c: char) -> (b: bool)
    ensures
        b == is_white_space(c),
{
    let u = c as u32;
    (0x9 <= u && u <= 0xd) || u == 0x20 || u == 0x85 || u == 0xa0 || u == 0x1680 || (0x2000 <= u
        && u <= 0x200a) || u == 0x2028 || u == 0x2029 || u == 0x202f || u == 0x205f || u
        == 0x3000
}

/// `s` without leading and trailing white space.
pub fn trim(s: &str) -> (r: String)
    ensures
        r@ == trimmed(s@),
{
    let v = chars_of(s);
    let n = v.len();
    let mut lo: usize = 0;
    assert(v@.subrange(0, n as int) =~= v@);
    while lo < n && is_whitespace(v[lo])
        invariant
            lo <= n,
            n == v@.len(),
            trim_start(v@) == trim_start(v@.subrange(lo as int, n as int)),
        decreases n - lo,
    {
        proof {
            lemma_trim_start_skip(v@, lo as int);
        }
        lo = lo + 1;
    }
    let ghost t = v@.subrange(lo as int, n as int);
    assert(trim_start(v@) == t);
    let mut hi: usize = n;
    assert(t.subrange(0, t.len() as int) =~= t);
    while hi > lo && is_whitespace(v[hi - 1])
        invariant
            lo <= hi <= n,
            n == v@.len(),
            t == v@.subrange(lo as int, n as int),
            trim_end(t) == trim_end(t.subrange(0, hi - lo)),
        decreases hi,
    {
        proof {
            assert(t[hi - lo - 1] == v@[hi - 1]);
            lemma_trim_end_skip(t, hi - lo);
        }
        hi = hi - 1;
    }
    assert(t.subrange(0, hi - lo) =~= v@.subrange(lo as int, hi as int));
    if hi > lo {
        assert(t.subrange(0, hi - lo).last() == v@[hi - 1]);
    }
    s.substring_char(lo, hi).to_owned()
}

/// The decimal rendering of `n`.
pub fn decimal_string(n: usize) -> (r: String)
    ensures
        r@ == decimal(n as nat),
    decreases n,
{
    if n < 10 {
        digit_string(n)
    } else {
        let mut s = decimal_string(n / 10);
        let d = digit_string(n % 10);
        s.append(d.as_str());
        s
    }
}

fn digit_string(d: usize) -> (r: String)
    requires
        d < 10,
    ensures
        r@ == seq![digit_char(d as nat)],
{
    let s: &str = if d == 0 {
        "0"
    } else if d == 1 {
        "1"
    } else if d == 2 {
        "2"
    } else if d == 3 {
        "3"
    } else if d == 4 {
        "4"
    } else if d == 5 {
        "5"
    } else if d == 6 {
        "6"
    } else if d == 7 {
        "7"
    } else if d == 8 {
        "8"
    } else {
        "9"
    };
    proof {
        reveal_strlit("0");
        reveal_strlit("1");
        reveal_strlit("2");
        reveal_strlit("3");
        reveal_strlit("4");
        reveal_strlit("5");
        reveal_strlit("6");
        reveal_strlit("7");
        reveal_strlit("8");
        reveal_strlit("9");
        assert(s@ =~= seq![digit_char(d as nat)]);
    }
    s.to_owned()
}

/// Whether `a` orders strictly before `b` by code point.
pub fn lex_less(a: &str, b: &str) -> (r: bool)
    ensures
        r == lex_lt(a@, b@),
{
    let av = chars_of(a);
    let bv = chars_of(b);
    let mut k: usize = 0;
    assert(av@.subrange(0, av@.len() as int) =~= av@);
    assert(bv@.subrange(0, bv@.len() as int) =~= bv@);
    while k < av.len() && k < bv.len() && av[k] == bv[k]
        invariant
            k <= av.len(),
            k <= bv.len(),
            lex_lt(a@, b@) == lex_lt(
                av@.subrange(k as int, av@.len() as int),
                bv@.subrange(k as int, bv@.len() as int),
            ),
            av@ == a@,
            bv@ == b@,
        decreases av.len() - k,
    {
        proof {
            let sa = av@.subrange(k as int, av@.len() as int);
            let sb = bv@.subrange(k as int, bv@.len() as int);
            assert(sa.drop_first() =~= av@.subrange(k + 1, av@.len() as int));
            assert(sb.drop_first() =~= bv@.subrange(k + 1, bv@.len() as int));
        }
        k = k + 1;
    }
    let ghost sa = av@.subrange(k as int, av@.len() as int);
    let ghost sb = bv@.subrange(k as int, bv@.len() as int);
    if k == av.len() {
        k < bv.len()
    } else if k == bv.len() {
        false
    } else {
        assert(sa[0] == av@[k as int] && sb[0] == bv@[k as int]);
        av[k] < bv[k]
    }
}

/// The lower-case form of `s`: a call of `str::to_lowercase`.
#[verifier::external_body]
pub(crate) fn lowercase(s: &str) -> (r: String)
    ensures
        r@ == lowercase_of(s@),
{
    s.to_lowercase()
}

} // verus!
