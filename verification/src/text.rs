//! Byte-string matching primitives for the search engine: ASCII case folding,
//! substring search and scattered-subsequence search, each with a spec-level
//! definition and a verified executable counterpart.

use vstd::prelude::*;

verus! {

/// ASCII-lowercase fold of one byte; bytes outside `A`..=`Z` are unchanged.
pub open spec fn fold_byte(b: u8) -> u8 {
    if 65 <= b && b <= 90 {
        (b + 32) as u8
    } else {
        b
    }
}

/// ASCII-lowercase fold of a byte string.
pub open spec fn fold(s: Seq<u8>) -> Seq<u8> {
    s.map_values(|b: u8| fold_byte(b))
}

/// `q` occurs in `t` as a (not necessarily contiguous) subsequence, matched
/// greedily from the left.
pub open spec fn is_subseq_of(q: Seq<u8>, t: Seq<u8>) -> bool
    decreases t.len(),
{
    if q.len() == 0 {
        true
    } else if t.len() == 0 {
        false
    } else if q[0] == t[0] {
        is_subseq_of(q.skip(1), t.skip(1))
    } else {
        is_subseq_of(q, t.skip(1))
    }
}

/// `q` occurs contiguously in `t` starting at index `i`.
pub open spec fn substring_at(q: Seq<u8>, t: Seq<u8>, i: int) -> bool {
    0 <= i && i + q.len() <= t.len() && t.subrange(i, i + q.len() as int) == q
}

/// Index of the first contiguous occurrence of `q` in `t`, if any.
pub open spec fn substr_search(q: Seq<u8>, t: Seq<u8>) -> Option<nat>
    decreases t.len(),
{
    if q.len() == 0 {
        Some(0 as nat)
    } else if q.len() > t.len() {
        None
    } else if t.subrange(0, q.len() as int) == q {
        Some(0 as nat)
    } else {
        match substr_search(q, t.skip(1)) {
            Some(p) => Some((p + 1) as nat),
            None => None,
        }
    }
}

/// Index of the first occurrence of byte `b` in `t`, if any.
pub open spec fn index_of_first(t: Seq<u8>, b: u8) -> Option<nat>
    decreases t.len(),
{
    if t.len() == 0 {
        None
    } else if t[0] == b {
        Some(0 as nat)
    } else {
        match index_of_first(t.skip(1), b) {
            Some(p) => Some((p + 1) as nat),
            None => None,
        }
    }
}

proof fn lemma_substring_shift(q: Seq<u8>, t: Seq<u8>, j: int)
    requires
        t.len() >= 1,
        j >= 0,
    ensures
        substring_at(q, t.skip(1), j) <==> substring_at(q, t, j + 1),
{
    if substring_at(q, t.skip(1), j) {
        assert(t.subrange(j + 1, j + 1 + q.len() as int) =~= t.skip(1).subrange(
            j,
            j + q.len() as int,
        ));
    }
    if substring_at(q, t, j + 1) {
        assert(t.skip(1).subrange(j, j + q.len() as int) =~= t.subrange(
            j + 1,
            j + 1 + q.len() as int,
        ));
    }
}

/// `substr_search` returns the first contiguous occurrence, or `None` exactly
/// when there is none.
pub proof fn lemma_substr_search_spec(q: Seq<u8>, t: Seq<u8>)
    ensures
        match substr_search(q, t) {
            Some(p) => substring_at(q, t, p as int) && (forall|j: int|
                0 <= j < p ==> !substring_at(q, t, j)),
            None => forall|i: int| !substring_at(q, t, i),
        },
    decreases t.len(),
{
    if q.len() == 0 {
        assert(t.subrange(0, 0) =~= q);
    } else if q.len() > t.len() {
    } else if t.subrange(0, q.len() as int) == q {
    } else {
        lemma_substr_search_spec(q, t.skip(1));
        match substr_search(q, t.skip(1)) {
            Some(p) => {
                lemma_substring_shift(q, t, p as int);
                assert forall|j: int| 0 <= j < p + 1 implies !substring_at(q, t, j) by {
                    if j > 0 {
                        lemma_substring_shift(q, t, j - 1);
                    }
                }
            },
            None => {
                assert forall|i: int| !substring_at(q, t, i) by {
                    if i >= 1 {
                        lemma_substring_shift(q, t, i - 1);
                    }
                }
            },
        }
    }
}

/// `index_of_first` returns the first occurrence of the byte, or `None`
/// exactly when the byte is absent.
pub proof fn lemma_index_of_first_spec(t: Seq<u8>, b: u8)
    ensures
        match index_of_first(t, b) {
            Some(p) => p < t.len() && t[p as int] == b && (forall|j: int|
                0 <= j < p ==> t[j] != b),
            None => forall|j: int| 0 <= j < t.len() ==> t[j] != b,
        },
    decreases t.len(),
{
    if t.len() == 0 {
    } else if t[0] == b {
    } else {
        lemma_index_of_first_spec(t.skip(1), b);
        match index_of_first(t.skip(1), b) {
            Some(p) => {
                assert(t.skip(1)[p as int] == t[p as int + 1]);
                assert forall|j: int| 0 <= j < p + 1 implies t[j] != b by {
                    if j >= 1 {
                        assert(t.skip(1)[j - 1] == t[j]);
                    }
                }
            },
            None => {
                assert forall|j: int| 0 <= j < t.len() implies t[j] != b by {
                    if j >= 1 {
                        assert(t.skip(1)[j - 1] == t[j]);
                    }
                }
            },
        }
    }
}

/// A subsequence of the tail of `t` is a subsequence of `t`.
pub proof fn lemma_subseq_tail(q: Seq<u8>, t: Seq<u8>)
    requires
        t.len() >= 1,
        is_subseq_of(q, t.skip(1)),
    ensures
        is_subseq_of(q, t),
    decreases t.len(), q.len(), 0nat,
{
    if q.len() == 0 {
    } else if q[0] == t[0] {
        lemma_subseq_drop_first(q, t.skip(1));
    }
}

/// Dropping the first query byte keeps the subsequence relation.
pub proof fn lemma_subseq_drop_first(q: Seq<u8>, s: Seq<u8>)
    requires
        q.len() >= 1,
        is_subseq_of(q, s),
    ensures
        is_subseq_of(q.skip(1), s),
    decreases s.len(), q.len(), 1nat,
{
    if s.len() == 0 {
    } else if q[0] == s[0] {
        lemma_subseq_tail(q.skip(1), s);
    } else {
        lemma_subseq_drop_first(q, s.skip(1));
        lemma_subseq_tail(q.skip(1), s);
    }
}

proof fn lemma_prefix_is_subseq(q: Seq<u8>, t: Seq<u8>)
    requires
        substring_at(q, t, 0),
    ensures
        is_subseq_of(q, t),
    decreases q.len(),
{
    if q.len() > 0 {
        assert(q[0] == t.subrange(0, q.len() as int)[0]);
        assert(t.skip(1).subrange(0, q.len() - 1) =~= q.skip(1));
        lemma_prefix_is_subseq(q.skip(1), t.skip(1));
    }
}

/// A contiguous occurrence is in particular a scattered occurrence.
pub proof fn lemma_substring_is_subseq(q: Seq<u8>, t: Seq<u8>, i: int)
    requires
        substring_at(q, t, i),
    ensures
        is_subseq_of(q, t),
    decreases i,
{
    if i == 0 {
        lemma_prefix_is_subseq(q, t);
    } else {
        assert(t.skip(1).subrange(i - 1, i - 1 + q.len() as int) =~= t.subrange(
            i,
            i + q.len() as int,
        ));
        lemma_substring_is_subseq(q, t.skip(1), i - 1);
        lemma_subseq_tail(q, t);
    }
}

pub fn fold_byte_exec(b: u8) -> (r: u8)
    ensures
        r == fold_byte(b),
{
    if 65 <= b && b <= 90 {
        b + 32
    } else {
        b
    }
}

pub fn fold_bytes(s: &Vec<u8>) -> (r: Vec<u8>)
    ensures
        r@ == fold(s@),
{
    let mut r: Vec<u8> = Vec::new();
    let mut i: usize = 0;
    while i < s.len()
        invariant
            i <= s@.len(),
            r@.len() == i,
            forall|j: int| 0 <= j < i ==> r@[j] == fold_byte(s@[j]),
        decreases s@.len() - i,
    {
        r.push(fold_byte_exec(s[i]));
        i = i + 1;
    }
    assert(r@ =~= fold(s@));
    r
}

fn match_at(q: &Vec<u8>, t: &Vec<u8>, i: usize) -> (r: bool)
    requires
        i + q@.len() <= t@.len(),
    ensures
        r == substring_at(q@, t@, i as int),
{
    let tlen: usize = t.len();
    assert(tlen == t@.len() && t@.len() <= usize::MAX);
    let mut k: usize = 0;
    while k < q.len()
        invariant
            t@.len() <= usize::MAX,
            i + q@.len() <= t@.len(),
            k <= q@.len(),
            forall|j: int| 0 <= j < k ==> t@[i + j] == q@[j],
        decreases q@.len() - k,
    {
        if t[i + k] != q[k] {
            assert(!substring_at(q@, t@, i as int)) by {
                if substring_at(q@, t@, i as int) {
                    assert(t@.subrange(i as int, i + q@.len() as int)[k as int] == q@[k as int]);
                }
            }
            return false;
        }
        k = k + 1;
    }
    assert(t@.subrange(i as int, i + q@.len() as int) =~= q@);
    true
}

/// Whether `t` begins with `p`.
pub fn starts_with(t: &Vec<u8>, p: &Vec<u8>) -> (r: bool)
    ensures
        r == substring_at(p@, t@, 0),
{
    if p.len() > t.len() {
        return false;
    }
    match_at(p, t, 0)
}

/// First index at which `q` occurs contiguously in `t`, scanning left to right.
pub fn find_substring(q: &Vec<u8>, t: &Vec<u8>) -> (r: Option<usize>)
    ensures
        match r {
            Some(p) => substr_search(q@, t@) == Some(p as nat),
            None => substr_search(q@, t@).is_none(),
        },
{
    if q.len() == 0 {
        return Some(0);
    }
    if q.len() > t.len() {
        return None;
    }
    let bound: usize = t.len() - q.len();
    let mut i: usize = 0;
    while i <= bound
        invariant
            t@.len() <= usize::MAX,
            1 <= q@.len() <= t@.len(),
            bound == t@.len() - q@.len(),
            i <= bound + 1,
            forall|j: int| 0 <= j < i ==> !substring_at(q@, t@, j),
        decreases bound + 1 - i,
    {
        if match_at(q, t, i) {
            proof {
                lemma_substr_search_spec(q@, t@);
                match substr_search(q@, t@) {
                    Some(p) => {
                        if p < i as nat {
                            assert(!substring_at(q@, t@, p as int));
                        }
                        if p > i as nat {
                            assert(!substring_at(q@, t@, i as int));
                        }
                    },
                    None => {
                        assert(!substring_at(q@, t@, i as int));
                    },
                }
            }
            return Some(i);
        }
        i = i + 1;
    }
    proof {
        lemma_substr_search_spec(q@, t@);
        if substr_search(q@, t@) is Some {
            let p = substr_search(q@, t@).unwrap();
            assert(substring_at(q@, t@, p as int));
            assert(p + q@.len() <= t@.len());
            assert(!substring_at(q@, t@, p as int));
        }
    }
    None
}

/// First index of byte `b` in `t`, scanning left to right.
pub fn find_first(t: &Vec<u8>, b: u8) -> (r: Option<usize>)
    ensures
        match r {
            Some(p) => index_of_first(t@, b) == Some(p as nat),
            None => index_of_first(t@, b).is_none(),
        },
{
    let mut i: usize = 0;
    while i < t.len()
        invariant
            i <= t@.len(),
            forall|j: int| 0 <= j < i ==> t@[j] != b,
        decreases t@.len() - i,
    {
        if t[i] == b {
            proof {
                lemma_index_of_first_spec(t@, b);
            }
            return Some(i);
        }
        i = i + 1;
    }
    proof {
        lemma_index_of_first_spec(t@, b);
    }
    None
}

/// Two-pointer greedy scan for a scattered subsequence.
pub fn is_subseq(q: &Vec<u8>, t: &Vec<u8>) -> (r: bool)
    ensures
        r == is_subseq_of(q@, t@),
{
    proof {
        assert(q@.skip(0) =~= q@);
        assert(t@.skip(0) =~= t@);
    }
    let mut qi: usize = 0;
    let mut ti: usize = 0;
    while qi < q.len() && ti < t.len()
        invariant
            qi <= q@.len(),
            ti <= t@.len(),
            is_subseq_of(q@, t@) == is_subseq_of(q@.skip(qi as int), t@.skip(ti as int)),
        decreases t@.len() - ti,
    {
        proof {
            assert(q@.skip(qi as int)[0] == q@[qi as int]);
            assert(t@.skip(ti as int)[0] == t@[ti as int]);
            assert(q@.skip(qi as int).skip(1) =~= q@.skip(qi as int + 1));
            assert(t@.skip(ti as int).skip(1) =~= t@.skip(ti as int + 1));
        }
        if q[qi] == t[ti] {
            qi = qi + 1;
        }
        ti = ti + 1;
    }
    if qi == q.len() {
        assert(q@.skip(qi as int).len() == 0);
        true
    } else {
        assert(t@.skip(ti as int).len() == 0);
        false
    }
}

/// Byte-string equality, stated over the views.
pub fn bytes_eq(a: &Vec<u8>, b: &Vec<u8>) -> (r: bool)
    ensures
        r == (a@ == b@),
{
    if a.len() != b.len() {
        assert(a@ !~= b@);
        return false;
    }
    let mut i: usize = 0;
    while i < a.len()
        invariant
            i <= a@.len(),
            a@.len() == b@.len(),
            forall|j: int| 0 <= j < i ==> a@[j] == b@[j],
        decreases a@.len() - i,
    {
        if a[i] != b[i] {
            return false;
        }
        i = i + 1;
    }
    assert(a@ =~= b@);
    true
}

} // verus!
