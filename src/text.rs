//! Character-level search over strings, stated over `Seq<char>`.
use vstd::prelude::*;

verus! {

/// `p` occurs in `s` starting at position `i`.
pub open spec fn occurs_at(s: Seq<char>, p: Seq<char>, i: int) -> bool {
    &&& 0 <= i
    &&& i + p.len() <= s.len()
    &&& s.subrange(i, i + p.len()) == p
}

/// `i` is the leftmost position at which `p` occurs in `s`.
pub open spec fn is_first_occurrence(s: Seq<char>, p: Seq<char>, i: int) -> bool {
    &&& occurs_at(s, p, i)
    &&& forall|j: int| 0 <= j < i ==> !occurs_at(s, p, j)
}

/// `i` is the rightmost position at which `p` occurs in `s`.
pub open spec fn is_last_occurrence(s: Seq<char>, p: Seq<char>, i: int) -> bool {
    &&& occurs_at(s, p, i)
    &&& forall|j: int| i < j ==> !occurs_at(s, p, j)
}

/// The leftmost position of `p` in `s`, if `p` occurs at all.
pub open spec fn first_index(s: Seq<char>, p: Seq<char>) -> Option<int> {
    if exists|i: int| occurs_at(s, p, i) {
        Some(choose|i: int| is_first_occurrence(s, p, i))
    } else {
        None
    }
}

/// The rightmost position of `p` in `s`, if `p` occurs at all.
pub open spec fn last_index(s: Seq<char>, p: Seq<char>) -> Option<int> {
    if exists|i: int| occurs_at(s, p, i) {
        Some(choose|i: int| is_last_occurrence(s, p, i))
    } else {
        None
    }
}

pub open spec fn contains(s: Seq<char>, p: Seq<char>) -> bool {
    exists|i: int| occurs_at(s, p, i)
}

pub proof fn lemma_first_index(s: Seq<char>, p: Seq<char>, i: int)
    requires
        is_first_occurrence(s, p, i),
    ensures
        first_index(s, p) == Some(i),
{
    let k = choose|k: int| is_first_occurrence(s, p, k);
    assert(is_first_occurrence(s, p, k));
    if k < i {
        assert(!occurs_at(s, p, k));
    }
    if i < k {
        assert(!occurs_at(s, p, i));
    }
}

pub proof fn lemma_last_index(s: Seq<char>, p: Seq<char>, i: int)
    requires
        is_last_occurrence(s, p, i),
    ensures
        last_index(s, p) == Some(i),
{
    let k = choose|k: int| is_last_occurrence(s, p, k);
    assert(is_last_occurrence(s, p, k));
    if k < i {
        assert(!occurs_at(s, p, i));
    }
    if i < k {
        assert(!occurs_at(s, p, k));
    }
}

/// The characters of `s`, in order.
pub fn chars_of(s: &str) -> (r: Vec<char>)
    ensures
        r@ == s@,
{
    let mut r: Vec<char> = Vec::new();
    for c in it: s.chars()
        invariant
            r@ == it.seq().take(it.index() as int),
    {
        r.push(c);
    }
    assert(r@ =~= s@);
    r
}

/// Whether `p` occurs in `s` at position `i`.
fn matches_at(s: &Vec<char>, p: &Vec<char>, i: usize) -> (r: bool)
    requires
        i + p@.len() <= s@.len(),
    ensures
        r == occurs_at(s@, p@, i as int),
{
    let n = s.len();
    let mut k: usize = 0;
    while k < p.len()
        invariant
            n == s@.len(),
            k <= p@.len(),
            i + p@.len() <= s@.len(),
            forall|m: int| 0 <= m < k ==> s@[i + m] == p@[m],
        decreases p@.len() - k,
    {
        if s[i + k] != p[k] {
            assert(s@.subrange(i as int, i + p@.len())[k as int] != p@[k as int]);
            return false;
        }
        k = k + 1;
    }
    assert(s@.subrange(i as int, i + p@.len()) =~= p@);
    true
}

/// The leftmost position of `p` in `s` at or after `from`.
pub fn find_from(s: &Vec<char>, p: &Vec<char>, from: usize) -> (r: Option<usize>)
    ensures
        match r {
            Some(i) => from <= i && occurs_at(s@, p@, i as int) && forall|j: int|
                from <= j < i ==> !occurs_at(s@, p@, j),
            None => forall|j: int| from <= j ==> !occurs_at(s@, p@, j),
        },
{
    if p.len() > s.len() {
        return None;
    }
    let last = s.len() - p.len();
    let mut i = from;
    while i <= last
        invariant
            from <= i,
            last + p@.len() == s@.len(),
            forall|j: int| from <= j < i ==> !occurs_at(s@, p@, j),
        decreases last + 1 - i,
    {
        if matches_at(s, p, i) {
            return Some(i);
        }
        if i == last {
            return None;
        }
        i = i + 1;
    }
    None
}

/// The leftmost position of `p` in `s`.
pub fn find(s: &Vec<char>, p: &Vec<char>) -> (r: Option<usize>)
    ensures
        match r {
            Some(i) => is_first_occurrence(s@, p@, i as int) && first_index(s@, p@) == Some(i as int),
            None => first_index(s@, p@) is None && forall|j: int| !occurs_at(s@, p@, j),
        },
{
    let r = find_from(s, p, 0);
    proof {
        if let Some(i) = r {
            lemma_first_index(s@, p@, i as int);
        }
    }
    r
}

/// The rightmost position of `p` in `s`.
pub fn rfind(s: &Vec<char>, p: &Vec<char>) -> (r: Option<usize>)
    ensures
        match r {
            Some(i) => is_last_occurrence(s@, p@, i as int) && last_index(s@, p@) == Some(i as int),
            None => last_index(s@, p@) is None && forall|j: int| !occurs_at(s@, p@, j),
        },
{
    if p.len() > s.len() {
        return None;
    }
    let mut i = s.len() - p.len();
    loop
        invariant
            i + p@.len() <= s@.len(),
            forall|j: int| i < j ==> !occurs_at(s@, p@, j),
        decreases i,
    {
        if matches_at(s, p, i) {
            proof {
                lemma_last_index(s@, p@, i as int);
            }
            return Some(i);
        }
        if i == 0 {
            return None;
        }
        i = i - 1;
    }
}

/// Whether `p` occurs anywhere in `s`.
pub fn contains_chars(s: &Vec<char>, p: &Vec<char>) -> (r: bool)
    ensures
        r == contains(s@, p@),
{
    match find_from(s, p, 0) {
        Some(i) => true,
        None => {
            assert forall|j: int| !occurs_at(s@, p@, j) by {
                if j >= 0 {
                    assert(!occurs_at(s@, p@, j));
                }
            }
            false
        },
    }
}

} // verus!

verus! {

/// Whether `a` and `b` hold the same characters.
pub fn same_text(a: &str, b: &str) -> (r: bool)
    ensures
        r == (a@ == b@),
{
    let x = chars_of(a);
    let y = chars_of(b);
    if x.len() != y.len() {
        return false;
    }
    let mut i: usize = 0;
    while i < x.len()
        invariant
            x@ == a@,
            y@ == b@,
            x@.len() == y@.len(),
            i <= x@.len(),
            forall|j: int| 0 <= j < i ==> x@[j] == y@[j],
        decreases x@.len() - i,
    {
        if x[i] != y[i] {
            return false;
        }
        i = i + 1;
    }
    assert(x@ =~= y@);
    true
}

/// The sign of `x - y`.
pub open spec fn sign(x: int, y: int) -> int {
    if x < y {
        -1
    } else if x > y {
        1
    } else {
        0
    }
}

/// Lexicographic comparison of `a` and `b` from position `i` on: -1, 0 or 1.
pub open spec fn lex_from(a: Seq<char>, b: Seq<char>, i: int) -> int
    decreases a.len() - i,
{
    if i >= a.len() {
        if i >= b.len() {
            0
        } else {
            -1
        }
    } else if i >= b.len() {
        1
    } else if a[i] != b[i] {
        sign(a[i] as int, b[i] as int)
    } else {
        lex_from(a, b, i + 1)
    }
}

/// Lexicographic order is antisymmetric.
pub proof fn lemma_lex_antisymmetric(a: Seq<char>, b: Seq<char>, i: int)
    requires
        0 <= i,
    ensures
        lex_from(b, a, i) == -lex_from(a, b, i),
    decreases a.len() - i,
{
    if i < a.len() && i < b.len() && a[i] == b[i] {
        lemma_lex_antisymmetric(a, b, i + 1);
    }
}

/// Lexicographic order is transitive.
pub proof fn lemma_lex_transitive(a: Seq<char>, b: Seq<char>, c: Seq<char>, i: int)
    requires
        0 <= i,
        lex_from(a, b, i) < 0,
        lex_from(b, c, i) < 0,
    ensures
        lex_from(a, c, i) < 0,
    decreases a.len() - i,
{
    if i < a.len() && i < b.len() && i < c.len() && a[i] == b[i] && b[i] == c[i] {
        lemma_lex_transitive(a, b, c, i + 1);
    }
}

/// Sequences that compare equal are equal.
pub proof fn lemma_lex_equal(a: Seq<char>, b: Seq<char>, i: int)
    requires
        0 <= i <= a.len(),
        i <= b.len(),
        lex_from(a, b, i) == 0,
    ensures
        a.len() == b.len(),
        forall|j: int| i <= j < a.len() ==> a[j] == b[j],
    decreases a.len() - i,
{
    if i < a.len() {
        lemma_lex_equal(a, b, i + 1);
    }
}

/// Compares `a` and `b` character by character: -1, 0 or 1.
pub fn lex_compare(a: &str, b: &str) -> (r: i8)
    ensures
        r as int == lex_from(a@, b@, 0),
{
    let x = chars_of(a);
    let y = chars_of(b);
    let mut i: usize = 0;
    while i < x.len() && i < y.len()
        invariant
            x@ == a@,
            y@ == b@,
            i <= x@.len(),
            i <= y@.len(),
            lex_from(a@, b@, 0) == lex_from(a@, b@, i as int),
        decreases x@.len() - i,
    {
        if x[i] != y[i] {
            return if x[i] < y[i] {
                -1
            } else {
                1
            };
        }
        i = i + 1;
    }
    if i < x.len() {
        1
    } else if i < y.len() {
        -1
    } else {
        0
    }
}

} // verus!
