use vstd::prelude::*;
use vstd::string::StrSliceExecFns;

verus! {

/// The whitespace characters that trimming recognizes: the ASCII ones.
pub open spec fn is_space_char(c: char) -> bool {
    c == ' ' || c == '\t' || c == '\n' || c == '\r' || c == '\u{b}' || c == '\u{c}'
}

pub fn is_space(c: char) -> (r: bool)
    ensures
        r == is_space_char(c),
{
    c == ' ' || c == '\t' || c == '\n' || c == '\r' || c == '\u{b}' || c == '\u{c}'
}

/// Every character of s is whitespace (true of the empty sequence).
pub open spec fn all_spaces(s: Seq<char>) -> bool {
    forall|i: int| 0 <= i < s.len() ==> is_space_char(s[i])
}

/// The pattern p occurs in t starting at position i.
pub open spec fn occurs_at(t: Seq<char>, p: Seq<char>, i: int) -> bool {
    0 <= i && i + p.len() <= t.len() && t.subrange(i, i + p.len() as int) == p
}

/// i is the position of the first occurrence of p in t.
pub open spec fn is_first_occurrence(t: Seq<char>, p: Seq<char>, i: int) -> bool {
    occurs_at(t, p, i) && (forall|j: int| 0 <= j < i ==> !occurs_at(t, p, j))
}

pub open spec fn contains_seq(t: Seq<char>, p: Seq<char>) -> bool {
    exists|i: int| occurs_at(t, p, i)
}

/// The position of the first occurrence of p in t, if p occurs at all.
pub open spec fn find_first(t: Seq<char>, p: Seq<char>) -> Option<int> {
    if exists|i: int| is_first_occurrence(t, p, i) {
        Some(choose|i: int| is_first_occurrence(t, p, i))
    } else {
        None
    }
}

pub proof fn lemma_first_occurrence_unique(t: Seq<char>, p: Seq<char>, i: int, j: int)
    requires
        is_first_occurrence(t, p, i),
        is_first_occurrence(t, p, j),
    ensures
        i == j,
{
    if i < j {
        assert(occurs_at(t, p, i));
        assert(!occurs_at(t, p, i));
    }
    if j < i {
        assert(occurs_at(t, p, j));
        assert(!occurs_at(t, p, j));
    }
}

proof fn lemma_first_occurrence_exists_rec(t: Seq<char>, p: Seq<char>, i0: int)
    requires
        occurs_at(t, p, i0),
    ensures
        exists|i: int| is_first_occurrence(t, p, i),
    decreases i0,
{
    if forall|j: int| 0 <= j < i0 ==> !occurs_at(t, p, j) {
        assert(is_first_occurrence(t, p, i0));
    } else {
        let j = choose|j: int| 0 <= j < i0 && occurs_at(t, p, j);
        lemma_first_occurrence_exists_rec(t, p, j);
    }
}

pub proof fn lemma_find_first_some(t: Seq<char>, p: Seq<char>, i: int)
    requires
        is_first_occurrence(t, p, i),
    ensures
        find_first(t, p) == Some(i),
{
    let k = choose|k: int| is_first_occurrence(t, p, k);
    lemma_first_occurrence_unique(t, p, i, k);
}

/// p occurs in t exactly when it has a first occurrence in t.
pub proof fn lemma_contains_find(t: Seq<char>, p: Seq<char>)
    ensures
        contains_seq(t, p) <==> find_first(t, p) is Some,
{
    if contains_seq(t, p) {
        let i0 = choose|i: int| occurs_at(t, p, i);
        lemma_first_occurrence_exists_rec(t, p, i0);
    }
    if find_first(t, p) is Some {
        let i = choose|i: int| is_first_occurrence(t, p, i);
        assert(occurs_at(t, p, i));
    }
}

/// Occurrences in a suffix of t are occurrences in t, shifted.
pub proof fn lemma_occurs_shift(t: Seq<char>, p: Seq<char>, a: int, k: int)
    requires
        0 <= a <= t.len(),
        0 <= k,
    ensures
        occurs_at(t.subrange(a, t.len() as int), p, k) == occurs_at(t, p, a + k),
{
    let s = t.subrange(a, t.len() as int);
    if 0 <= k && k + p.len() <= s.len() {
        assert(s.subrange(k, k + p.len() as int) =~= t.subrange(a + k, a + k + p.len() as int));
    }
}

/// The characters of a string, as a vector.
pub fn chars_of(s: &str) -> (r: Vec<char>)
    ensures
        r@ == s@,
{
    let n: usize = s.unicode_len();
    let mut r: Vec<char> = Vec::new();
    let mut i: usize = 0;
    while i < n
        invariant
            i <= n,
            n == s@.len(),
            r@ == s@.subrange(0, i as int),
        decreases n - i,
    {
        r.push(s.get_char(i));
        i += 1;
        assert(r@ =~= s@.subrange(0, i as int));
    }
    assert(r@ =~= s@);
    r
}

/// A string holding exactly the given characters.
///
/// Relies on String's FromIterator over char: collecting an iterator of
/// characters yields the string of exactly those characters in order.
#[verifier::external_body]
pub fn string_from_chars(v: &Vec<char>) -> (r: String)
    ensures
        r@ == v@,
{
    v.iter().collect()
}

/// Whether two strings hold the same characters.
pub fn str_eq(a: &str, b: &str) -> (r: bool)
    ensures
        r == (a@ == b@),
{
    let na: usize = a.unicode_len();
    let nb: usize = b.unicode_len();
    if na != nb {
        return false;
    }
    let mut i: usize = 0;
    while i < na
        invariant
            na == a@.len(),
            na == b@.len(),
            i <= na,
            forall|k: int| 0 <= k < i ==> a@[k] == b@[k],
        decreases na - i,
    {
        if a.get_char(i) != b.get_char(i) {
            return false;
        }
        i += 1;
    }
    assert(a@ =~= b@);
    true
}

/// Whether p occurs in t at position i.
pub fn match_at(t: &Vec<char>, p: &Vec<char>, i: usize) -> (r: bool)
    requires
        i + p@.len() <= t@.len(),
    ensures
        r == occurs_at(t@, p@, i as int),
{
    let tn: usize = t.len();
    let mut j: usize = 0;
    while j < p.len()
        invariant
            i + p@.len() <= t@.len(),
            tn == t@.len(),
            j <= p@.len(),
            forall|k: int| 0 <= k < j ==> t@[i + k] == p@[k],
        decreases p@.len() - j,
    {
        if t[i + j] != p[j] {
            assert(!occurs_at(t@, p@, i as int)) by {
                if occurs_at(t@, p@, i as int) {
                    assert(t@.subrange(i as int, i + p@.len() as int)[j as int] == t@[i + j]);
                }
            }
            return false;
        }
        j += 1;
    }
    assert(t@.subrange(i as int, i + p@.len() as int) =~= p@);
    true
}

/// The position of the first occurrence of p in t, or None.
pub fn find_sub(t: &Vec<char>, p: &Vec<char>) -> (r: Option<usize>)
    requires
        p@.len() > 0,
    ensures
        find_first(t@, p@) == (match r {
            Some(k) => Some(k as int),
            None => None::<int>,
        }),
        r is Some ==> r.unwrap() + p@.len() <= t@.len(),
{
    if p.len() > t.len() {
        proof {
            assert(forall|j: int| !occurs_at(t@, p@, j));
            if find_first(t@, p@) is Some {
                let i = choose|i: int| is_first_occurrence(t@, p@, i);
                assert(occurs_at(t@, p@, i));
            }
        }
        return None;
    }
    let tn: usize = t.len();
    let end: usize = tn - p.len();
    let mut i: usize = 0;
    while i <= end
        invariant
            p@.len() > 0,
            p@.len() <= t@.len(),
            tn == t@.len(),
            end < tn,
            end == t@.len() - p@.len(),
            i <= end + 1,
            forall|j: int| 0 <= j < i ==> !occurs_at(t@, p@, j),
        decreases end + 1 - i,
    {
        if match_at(t, p, i) {
            proof {
                lemma_find_first_some(t@, p@, i as int);
            }
            return Some(i);
        }
        i += 1;
    }
    proof {
        assert(forall|j: int| !occurs_at(t@, p@, j)) by {
            assert(forall|j: int| j > end ==> !occurs_at(t@, p@, j));
        }
        if find_first(t@, p@) is Some {
            let k = choose|k: int| is_first_occurrence(t@, p@, k);
            assert(occurs_at(t@, p@, k));
        }
    }
    None
}

/// A copy of t[lo..hi].
pub fn subvec(t: &Vec<char>, lo: usize, hi: usize) -> (r: Vec<char>)
    requires
        lo <= hi <= t@.len(),
    ensures
        r@ == t@.subrange(lo as int, hi as int),
{
    let mut r: Vec<char> = Vec::new();
    let mut k: usize = lo;
    while k < hi
        invariant
            lo <= k <= hi <= t@.len(),
            r@ == t@.subrange(lo as int, k as int),
        decreases hi - k,
    {
        r.push(t[k]);
        k += 1;
        assert(r@ =~= t@.subrange(lo as int, k as int));
    }
    r
}

/// Appends all of q to r.
pub fn push_all(r: &mut Vec<char>, q: &Vec<char>)
    ensures
        final(r)@ == old(r)@ + q@,
{
    let mut k: usize = 0;
    while k < q.len()
        invariant
            k <= q@.len(),
            r@ == old(r)@ + q@.subrange(0, k as int),
        decreases q@.len() - k,
    {
        r.push(q[k]);
        k += 1;
        assert(r@ =~= old(r)@ + q@.subrange(0, k as int));
    }
    assert(r@ =~= old(r)@ + q@);
}

/// lo is the count of leading whitespace characters of s.
pub open spec fn is_trim_lo(s: Seq<char>, lo: int) -> bool {
    0 <= lo <= s.len() && (forall|j: int| 0 <= j < lo ==> is_space_char(s[j])) && (lo == s.len()
        || !is_space_char(s[lo]))
}

/// hi is the position just after the last non-whitespace character of s.
pub open spec fn is_trim_hi(s: Seq<char>, hi: int) -> bool {
    0 <= hi <= s.len() && (forall|j: int| hi <= j < s.len() ==> is_space_char(s[j])) && (hi == 0
        || !is_space_char(s[hi - 1]))
}

pub open spec fn trim_lo(s: Seq<char>) -> int {
    choose|lo: int| is_trim_lo(s, lo)
}

pub open spec fn trim_hi(s: Seq<char>) -> int {
    choose|hi: int| is_trim_hi(s, hi)
}

/// s with leading and trailing whitespace removed.
pub open spec fn trim_spec(s: Seq<char>) -> Seq<char> {
    if trim_lo(s) <= trim_hi(s) {
        s.subrange(trim_lo(s), trim_hi(s))
    } else {
        Seq::empty()
    }
}

proof fn lemma_trim_lo_exists_rec(s: Seq<char>, k: int)
    requires
        0 <= k <= s.len(),
        forall|j: int| 0 <= j < k ==> is_space_char(s[j]),
    ensures
        exists|lo: int| is_trim_lo(s, lo),
    decreases s.len() - k,
{
    if k == s.len() {
        assert(is_trim_lo(s, k));
    } else if !is_space_char(s[k]) {
        assert(is_trim_lo(s, k));
    } else {
        lemma_trim_lo_exists_rec(s, k + 1);
    }
}

proof fn lemma_trim_hi_exists_rec(s: Seq<char>, k: int)
    requires
        0 <= k <= s.len(),
        forall|j: int| k <= j < s.len() ==> is_space_char(s[j]),
    ensures
        exists|hi: int| is_trim_hi(s, hi),
    decreases k,
{
    if k == 0 {
        assert(is_trim_hi(s, k));
    } else if !is_space_char(s[k - 1]) {
        assert(is_trim_hi(s, k));
    } else {
        lemma_trim_hi_exists_rec(s, k - 1);
    }
}

pub proof fn lemma_trim_lo_unique(s: Seq<char>, a: int, b: int)
    requires
        is_trim_lo(s, a),
        is_trim_lo(s, b),
    ensures
        a == b,
{
    if a < b {
        assert(is_space_char(s[a]));
    }
    if b < a {
        assert(is_space_char(s[b]));
    }
}

pub proof fn lemma_trim_hi_unique(s: Seq<char>, a: int, b: int)
    requires
        is_trim_hi(s, a),
        is_trim_hi(s, b),
    ensures
        a == b,
{
    if a < b {
        assert(is_space_char(s[b - 1]));
    }
    if b < a {
        assert(is_space_char(s[a - 1]));
    }
}

/// trim_lo and trim_hi denote the bounds they are meant to.
pub proof fn lemma_trim_bounds(s: Seq<char>)
    ensures
        is_trim_lo(s, trim_lo(s)),
        is_trim_hi(s, trim_hi(s)),
{
    lemma_trim_lo_exists_rec(s, 0);
    lemma_trim_hi_exists_rec(s, s.len() as int);
}

/// t with leading and trailing whitespace removed.
pub fn trim_vec(t: &Vec<char>) -> (r: Vec<char>)
    ensures
        r@ == trim_spec(t@),
{
    let n: usize = t.len();
    let mut lo: usize = 0;
    while lo < n && is_space(t[lo])
        invariant
            lo <= n,
            n == t@.len(),
            forall|j: int| 0 <= j < lo ==> is_space_char(t@[j]),
        decreases n - lo,
    {
        lo += 1;
    }
    let mut hi: usize = n;
    while hi > 0 && is_space(t[hi - 1])
        invariant
            hi <= n,
            n == t@.len(),
            forall|j: int| hi <= j < n ==> is_space_char(t@[j]),
        decreases hi,
    {
        hi -= 1;
    }
    proof {
        lemma_trim_bounds(t@);
        assert(is_trim_lo(t@, lo as int));
        assert(is_trim_hi(t@, hi as int));
        lemma_trim_lo_unique(t@, lo as int, trim_lo(t@));
        lemma_trim_hi_unique(t@, hi as int, trim_hi(t@));
    }
    if lo <= hi {
        subvec(t, lo, hi)
    } else {
        Vec::new()
    }
}

/// t with every occurrence of p replaced by q, scanning left to right
/// over non-overlapping matches.
pub open spec fn replace_spec(t: Seq<char>, p: Seq<char>, q: Seq<char>) -> Seq<char>
    decreases t.len(),
{
    if p.len() > 0 && occurs_at(t, p, 0) {
        q + replace_spec(t.subrange(p.len() as int, t.len() as int), p, q)
    } else if t.len() > 0 {
        seq![t[0]] + replace_spec(t.subrange(1, t.len() as int), p, q)
    } else {
        t
    }
}

pub fn replace_all(t: &Vec<char>, p: &Vec<char>, q: &Vec<char>) -> (r: Vec<char>)
    requires
        p@.len() > 0,
    ensures
        r@ == replace_spec(t@, p@, q@),
{
    let mut res: Vec<char> = Vec::new();
    let mut i: usize = 0;
    proof {
        assert(t@.subrange(0, t@.len() as int) =~= t@);
        assert(Seq::<char>::empty() + replace_spec(t@, p@, q@) =~= replace_spec(t@, p@, q@));
    }
    while i < t.len()
        invariant
            i <= t@.len(),
            p@.len() > 0,
            replace_spec(t@, p@, q@) == res@ + replace_spec(
                t@.subrange(i as int, t@.len() as int),
                p@,
                q@,
            ),
        decreases t@.len() - i,
    {
        let ghost suffix = t@.subrange(i as int, t@.len() as int);
        if p.len() <= t.len() - i && match_at(t, p, i) {
            proof {
                lemma_occurs_shift(t@, p@, i as int, 0);
                assert(occurs_at(suffix, p@, 0));
                assert(suffix.subrange(p@.len() as int, suffix.len() as int) =~= t@.subrange(
                    i + p@.len(),
                    t@.len() as int,
                ));
            }
            push_all(&mut res, q);
            i += p.len();
        } else {
            proof {
                lemma_occurs_shift(t@, p@, i as int, 0);
                assert(!occurs_at(suffix, p@, 0));
                assert(suffix.subrange(1, suffix.len() as int) =~= t@.subrange(
                    i + 1,
                    t@.len() as int,
                ));
                assert(seq![suffix[0]] =~= seq![t@[i as int]]);
            }
            res.push(t[i]);
            i += 1;
        }
        assert(replace_spec(t@, p@, q@) =~= res@ + replace_spec(
            t@.subrange(i as int, t@.len() as int),
            p@,
            q@,
        ));
    }
    assert(t@.subrange(i as int, t@.len() as int) =~= Seq::<char>::empty());
    assert(res@ =~= replace_spec(t@, p@, q@));
    res
}

} // verus!
