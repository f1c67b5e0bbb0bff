//! Character scanning over string slices, shared by the query and path codecs.
use vstd::prelude::*;
use vstd::string::*;

verus! {

/// The first index at or after `i` whose character is `a` or `b`, or the
/// length of `s` when there is none.
pub open spec fn scan_to(s: Seq<char>, i: int, a: char, b: char) -> int
    decreases s.len() - i,
{
    if 0 <= i < s.len() && s[i] != a && s[i] != b {
        scan_to(s, i + 1, a, b)
    } else {
        i
    }
}

/// The first index at or after `i` whose character is not `/`, or the length.
pub open spec fn skip_slashes(s: Seq<char>, i: int) -> int
    decreases s.len() - i,
{
    if 0 <= i < s.len() && s[i] == '/' {
        skip_slashes(s, i + 1)
    } else {
        i
    }
}

/// `s` without its leading `/` characters.
pub open spec fn trim_slashes(s: Seq<char>) -> Seq<char> {
    s.subrange(skip_slashes(s, 0), s.len() as int)
}

/// `s` starts with `p`.
pub open spec fn has_prefix(s: Seq<char>, p: Seq<char>) -> bool {
    p.len() <= s.len() && s.subrange(0, p.len() as int) == p
}

pub proof fn lemma_scan_to(s: Seq<char>, i: int, a: char, b: char)
    requires
        0 <= i <= s.len(),
    ensures
        i <= scan_to(s, i, a, b) <= s.len(),
        forall|k: int| i <= k < scan_to(s, i, a, b) ==> s[k] != a && s[k] != b,
        scan_to(s, i, a, b) < s.len() ==> (s[scan_to(s, i, a, b)] == a || s[scan_to(
            s,
            i,
            a,
            b,
        )] == b),
    decreases s.len() - i,
{
    if i < s.len() && s[i] != a && s[i] != b {
        lemma_scan_to(s, i + 1, a, b);
    }
}

/// `scan_to` stops at the first `a` or `b` from `i` on.
pub proof fn lemma_scan_at(s: Seq<char>, i: int, k: int, a: char, b: char)
    requires
        0 <= i <= k <= s.len(),
        forall|j: int| i <= j < k ==> s[j] != a && s[j] != b,
        k == s.len() || s[k] == a || s[k] == b,
    ensures
        scan_to(s, i, a, b) == k,
    decreases k - i,
{
    if i < k {
        lemma_scan_at(s, i + 1, k, a, b);
    }
}

pub proof fn lemma_skip_slashes(s: Seq<char>, i: int)
    requires
        0 <= i <= s.len(),
    ensures
        i <= skip_slashes(s, i) <= s.len(),
        forall|k: int| i <= k < skip_slashes(s, i) ==> s[k] == '/',
        skip_slashes(s, i) < s.len() ==> s[skip_slashes(s, i)] != '/',
    decreases s.len() - i,
{
    if i < s.len() && s[i] == '/' {
        lemma_skip_slashes(s, i + 1);
    }
}

/// `skip_slashes` stops at the first character from `i` on that is not `/`.
pub proof fn lemma_skip_at(s: Seq<char>, i: int, k: int)
    requires
        0 <= i <= k <= s.len(),
        forall|j: int| i <= j < k ==> s[j] == '/',
        k == s.len() || s[k] != '/',
    ensures
        skip_slashes(s, i) == k,
    decreases k - i,
{
    if i < k {
        lemma_skip_at(s, i + 1, k);
    }
}

/// A leading `/` does not change what trimming leaves.
pub proof fn lemma_trim_slash(x: Seq<char>)
    ensures
        trim_slashes(seq!['/'] + x) == trim_slashes(x),
{
    let s = seq!['/'] + x;
    lemma_skip_slashes(x, 0);
    let k = skip_slashes(x, 0);
    assert forall|j: int| 0 <= j < k + 1 implies s[j] == '/' by {
        if j > 0 {
            assert(s[j] == x[j - 1]);
        }
    }
    if k < x.len() {
        assert(s[k + 1] == x[k]);
    }
    lemma_skip_at(s, 0, k + 1);
    assert(s.subrange(k + 1, s.len() as int) =~= x.subrange(k, x.len() as int));
}

/// Trimming leaves alone what does not start with `/`.
pub proof fn lemma_trim_plain(x: Seq<char>)
    requires
        x.len() == 0 || x[0] != '/',
    ensures
        trim_slashes(x) == x,
{
    lemma_skip_at(x, 0, 0);
    assert(x.subrange(0, x.len() as int) =~= x);
}

/// Trimming twice is trimming once.
pub proof fn lemma_trim_idem(x: Seq<char>)
    ensures
        trim_slashes(trim_slashes(x)) == trim_slashes(x),
{
    lemma_skip_slashes(x, 0);
    let t = trim_slashes(x);
    if t.len() > 0 {
        assert(t[0] == x[skip_slashes(x, 0)]);
    }
    lemma_trim_plain(t);
}

/// When `x` holds a character other than `/` at index `m`, trimming `x + y`
/// trims `x` only.
pub proof fn lemma_trim_concat(x: Seq<char>, y: Seq<char>, m: int)
    requires
        0 <= m < x.len(),
        x[m] != '/',
    ensures
        trim_slashes(x + y) == trim_slashes(x) + y,
{
    let s = x + y;
    lemma_skip_slashes(x, 0);
    let k = skip_slashes(x, 0);
    assert(k < x.len()) by {
        if k >= x.len() {
            assert(x[m] == '/');
        }
    }
    assert forall|j: int| 0 <= j < k implies s[j] == '/' by {
        assert(s[j] == x[j]);
    }
    assert(s[k] == x[k]);
    lemma_skip_at(s, 0, k);
    assert(s.subrange(k, s.len() as int) =~= x.subrange(k, x.len() as int) + y);
}

/// Index of the first `a` or `b` in `s` at or after `from`, or the length of `s`.
pub fn find_either(s: &str, from: usize, a: char, b: char) -> (r: usize)
    requires
        from <= s@.len(),
    ensures
        r == scan_to(s@, from as int, a, b),
{
    let n = s.unicode_len();
    let mut i = from;
    loop
        invariant
            from <= i <= n,
            n == s@.len(),
            scan_to(s@, i as int, a, b) == scan_to(s@, from as int, a, b),
        decreases n - i,
    {
        if i >= n {
            return i;
        }
        let c = s.get_char(i);
        if c == a || c == b {
            return i;
        }
        i = i + 1;
    }
}

/// Index of the first character of `s` that is not `/`.
pub fn leading_slashes(s: &str) -> (r: usize)
    ensures
        r == skip_slashes(s@, 0),
{
    let n = s.unicode_len();
    let mut i: usize = 0;
    loop
        invariant
            i <= n,
            n == s@.len(),
            skip_slashes(s@, i as int) == skip_slashes(s@, 0),
        decreases n - i,
    {
        if i >= n {
            return i;
        }
        if s.get_char(i) != '/' {
            return i;
        }
        i = i + 1;
    }
}

/// Whether `s` holds `p` starting at index `from`.
pub fn holds_at(s: &str, from: usize, p: &str) -> (r: bool)
    requires
        from <= s@.len(),
    ensures
        r == has_prefix(s@.subrange(from as int, s@.len() as int), p@),
{
    let n = s.unicode_len();
    let m = p.unicode_len();
    if m > n - from {
        return false;
    }
    let mut j: usize = 0;
    while j < m
        invariant
            j <= m,
            m <= n - from,
            n == s@.len(),
            m == p@.len(),
            forall|k: int| 0 <= k < j ==> s@[from + k] == p@[k],
        decreases m - j,
    {
        if s.get_char(from + j) != p.get_char(j) {
            assert(s@.subrange(from as int, s@.len() as int)[j as int] != p@[j as int]);
            return false;
        }
        j = j + 1;
    }
    assert(s@.subrange(from as int, s@.len() as int).subrange(0, m as int) =~= p@);
    true
}

/// A copy of `s` as an owned string.
pub fn owned(s: &str) -> (r: String)
    ensures
        r@ == s@,
{
    String::from_str(s)
}

} // verus!
