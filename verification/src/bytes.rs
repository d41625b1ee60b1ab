//! Byte-string utilities: equality, substring search, replacement and
//! lexicographic comparison, all specified over `Seq<u8>`.

use vstd::prelude::*;
use vstd::string::StringSliceAdditionalSpecFns;

verus! {

/// The needle `n` occurs in `h` at position `i`.
pub open spec fn sub_at(h: Seq<u8>, n: Seq<u8>, i: int) -> bool {
    0 <= i && i + n.len() <= h.len() && h.subrange(i, i + n.len() as int) == n
}

/// The needle `n` occurs somewhere in `h`.
pub open spec fn has_sub(h: Seq<u8>, n: Seq<u8>) -> bool {
    exists|i: int| sub_at(h, n, i)
}

/// Exact byte equality of two vectors.
pub fn bytes_eq(a: &Vec<u8>, b: &Vec<u8>) -> (r: bool)
    ensures
        r == (a@ == b@),
{
    if a.len() != b.len() {
        return false;
    }
    let mut i: usize = 0;
    while i < a.len()
        invariant
            a@.len() == b@.len(),
            0 <= i <= a@.len(),
            forall|j: int| 0 <= j < i ==> a@[j] == b@[j],
        decreases a@.len() - i,
    {
        if a[i] != b[i] {
            return false;
        }
        i = i + 1;
    }
    proof {
        assert(a@ =~= b@);
    }
    true
}

/// Copy of `h[start..end]`.
pub fn subvec(h: &Vec<u8>, start: usize, end: usize) -> (r: Vec<u8>)
    requires
        start <= end <= h@.len(),
    ensures
        r@ == h@.subrange(start as int, end as int),
{
    let mut r: Vec<u8> = Vec::new();
    let mut i: usize = start;
    while i < end
        invariant
            start <= i <= end <= h@.len(),
            r@ == h@.subrange(start as int, i as int),
        decreases end - i,
    {
        r.push(h[i]);
        proof {
            assert(r@ =~= h@.subrange(start as int, i + 1));
        }
        i = i + 1;
    }
    r
}

/// Whether `n` matches `h` at position `i`.
fn match_at(h: &Vec<u8>, n: &Vec<u8>, i: usize) -> (r: bool)
    requires
        i + n@.len() <= h@.len(),
    ensures
        r == sub_at(h@, n@, i as int),
{
    let hl = h.len();
    let nl = n.len();
    let mut j: usize = 0;
    while j < nl
        invariant
            hl == h@.len(),
            nl == n@.len(),
            i + n@.len() <= h@.len(),
            0 <= j <= n@.len(),
            forall|k: int| 0 <= k < j ==> h@[i + k] == n@[k],
        decreases n@.len() - j,
    {
        if h[i + j] != n[j] {
            proof {
                assert(h@.subrange(i as int, i + n@.len()) != n@) by {
                    assert(h@.subrange(i as int, i + n@.len())[j as int] == h@[i + j]);
                }
            }
            return false;
        }
        j = j + 1;
    }
    proof {
        assert(h@.subrange(i as int, i + n@.len()) =~= n@);
    }
    true
}

/// Position of the first occurrence of `n` in `h`, if any.
pub fn find_sub(h: &Vec<u8>, n: &Vec<u8>) -> (r: Option<usize>)
    ensures
        match r {
            Some(i) => sub_at(h@, n@, i as int) && forall|j: int|
                0 <= j < i ==> !sub_at(h@, n@, j),
            None => !has_sub(h@, n@),
        },
{
    if n.len() > h.len() {
        return None;
    }
    if n.len() == 0 {
        proof {
            assert(h@.subrange(0, 0) =~= n@);
        }
        return Some(0);
    }
    let end: usize = h.len() - n.len();
    let mut i: usize = 0;
    loop
        invariant
            n@.len() <= h@.len(),
            end == h@.len() - n@.len(),
            0 <= i <= end,
            forall|j: int| 0 <= j < i ==> !sub_at(h@, n@, j),
        decreases end - i,
    {
        if match_at(h, n, i) {
            return Some(i);
        }
        if i == end {
            return None;
        }
        i = i + 1;
    }
}

/// Whether `n` occurs in `h`.
pub fn contains_sub(h: &Vec<u8>, n: &Vec<u8>) -> (r: bool)
    ensures
        r == has_sub(h@, n@),
{
    match find_sub(h, n) {
        Some(_) => true,
        None => false,
    }
}

/// Whether `n` is a prefix of `h`.
pub fn starts_with(h: &Vec<u8>, n: &Vec<u8>) -> (r: bool)
    ensures
        r == n@.is_prefix_of(h@),
{
    if n.len() > h.len() {
        return false;
    }
    let mut j: usize = 0;
    while j < n.len()
        invariant
            n@.len() <= h@.len(),
            0 <= j <= n@.len(),
            forall|k: int| 0 <= k < j ==> h@[k] == n@[k],
        decreases n@.len() - j,
    {
        if h[j] != n[j] {
            proof {
                assert(h@.subrange(0, n@.len() as int)[j as int] == h@[j as int]);
            }
            return false;
        }
        j = j + 1;
    }
    proof {
        assert(h@.subrange(0, n@.len() as int) =~= n@);
    }
    true
}

/// Index of the last occurrence of byte `b` in `s`, or `-1` if absent.
pub open spec fn last_idx_of(s: Seq<u8>, b: u8) -> int
    decreases s.len(),
{
    if s.len() == 0 {
        -1
    } else if s[s.len() - 1] == b {
        s.len() - 1
    } else {
        last_idx_of(s.drop_last(), b)
    }
}

pub proof fn lemma_last_idx_of(s: Seq<u8>, b: u8)
    ensures
        -1 <= last_idx_of(s, b) < s.len(),
        last_idx_of(s, b) >= 0 ==> s[last_idx_of(s, b)] == b,
        forall|j: int| last_idx_of(s, b) < j < s.len() ==> s[j] != b,
    decreases s.len(),
{
    if s.len() > 0 && s[s.len() - 1] != b {
        let d = s.drop_last();
        lemma_last_idx_of(d, b);
        assert forall|j: int| last_idx_of(s, b) < j < s.len() implies s[j] != b by {
            if j < s.len() - 1 {
                assert(s[j] == d[j]);
            }
        }
    }
}

/// Position of the last occurrence of byte `b` in `h`, if any.
pub fn rfind_byte(h: &Vec<u8>, b: u8) -> (r: Option<usize>)
    ensures
        match r {
            Some(i) => i == last_idx_of(h@, b),
            None => last_idx_of(h@, b) == -1,
        },
{
    let mut i: usize = h.len();
    proof {
        assert(h@.take(h@.len() as int) =~= h@);
    }
    while i > 0
        invariant
            0 <= i <= h@.len(),
            last_idx_of(h@, b) == last_idx_of(h@.take(i as int), b),
        decreases i,
    {
        proof {
            assert(h@.take(i as int).drop_last() =~= h@.take(i - 1));
        }
        i = i - 1;
        if h[i] == b {
            proof {
                assert(h@.take(i + 1)[i as int] == h@[i as int]);
            }
            return Some(i);
        }
    }
    proof {
        assert(h@.take(0) =~= Seq::<u8>::empty());
    }
    None
}

/// Left-to-right, non-overlapping replacement of `n` by `r` in `h`.
/// An empty needle leaves `h` unchanged.
pub open spec fn replace_scan(h: Seq<u8>, n: Seq<u8>, r: Seq<u8>) -> Seq<u8>
    decreases h.len(),
{
    if n.len() == 0 || h.len() < n.len() {
        h
    } else if h.subrange(0, n.len() as int) == n {
        r + replace_scan(h.skip(n.len() as int), n, r)
    } else {
        seq![h[0]] + replace_scan(h.skip(1), n, r)
    }
}

/// Replace every occurrence of `n` in `h` by `r`, scanning left to right.
pub fn replace_all(h: &Vec<u8>, n: &Vec<u8>, r: &Vec<u8>) -> (out: Vec<u8>)
    ensures
        out@ == replace_scan(h@, n@, r@),
{
    if n.len() == 0 {
        return subvec(h, 0, h.len());
    }
    let mut out: Vec<u8> = Vec::new();
    let mut i: usize = 0;
    proof {
        assert(h@.skip(0) =~= h@);
        assert(Seq::<u8>::empty() + replace_scan(h@, n@, r@) =~= replace_scan(h@, n@, r@));
    }
    while i < h.len()
        invariant
            n@.len() > 0,
            0 <= i <= h@.len(),
            replace_scan(h@, n@, r@) == out@ + replace_scan(h@.skip(i as int), n@, r@),
        decreases h@.len() - i,
    {
        let ghost pre = out@;
        let ghost tail = h@.skip(i as int);
        if n.len() <= h.len() - i && match_at(h, n, i) {
            proof {
                assert(tail.subrange(0, n@.len() as int) =~= h@.subrange(
                    i as int,
                    i + n@.len(),
                ));
                assert(tail.skip(n@.len() as int) =~= h@.skip(i + n@.len()));
            }
            let mut k: usize = 0;
            while k < r.len()
                invariant
                    0 <= k <= r@.len(),
                    out@ == pre + r@.take(k as int),
                decreases r@.len() - k,
            {
                out.push(r[k]);
                proof {
                    assert(pre + r@.take(k + 1) =~= (pre + r@.take(k as int)).push(
                        r@[k as int],
                    ));
                }
                k = k + 1;
            }
            proof {
                assert(out@ =~= pre + r@);
                assert(pre + replace_scan(tail, n@, r@) =~= (pre + r@) + replace_scan(
                    h@.skip(i + n@.len()),
                    n@,
                    r@,
                ));
            }
            i = i + n.len();
        } else {
            proof {
                if tail.len() >= n@.len() {
                    assert(tail.subrange(0, n@.len() as int) =~= h@.subrange(
                        i as int,
                        i + n@.len(),
                    ));
                }
                assert(tail.skip(1) =~= h@.skip(i + 1));
            }
            out.push(h[i]);
            proof {
                assert(out@ =~= pre + seq![h@[i as int]]);
                assert(pre + replace_scan(tail, n@, r@) =~= (pre + seq![h@[i as int]])
                    + replace_scan(h@.skip(i + 1), n@, r@));
            }
            i = i + 1;
        }
    }
    proof {
        assert(h@.skip(h@.len() as int) =~= Seq::<u8>::empty());
        assert(out@ + Seq::<u8>::empty() =~= out@);
    }
    out
}

/// Bytewise lexicographic order: `a` sorts at or before `b`.
pub open spec fn lex_leq(a: Seq<u8>, b: Seq<u8>) -> bool
    decreases a.len(),
{
    if a.len() == 0 {
        true
    } else if b.len() == 0 {
        false
    } else if a[0] < b[0] {
        true
    } else if a[0] > b[0] {
        false
    } else {
        lex_leq(a.skip(1), b.skip(1))
    }
}

pub proof fn lemma_lex_refl(a: Seq<u8>)
    ensures
        lex_leq(a, a),
    decreases a.len(),
{
    if a.len() > 0 {
        lemma_lex_refl(a.skip(1));
    }
}

pub proof fn lemma_lex_total(a: Seq<u8>, b: Seq<u8>)
    ensures
        lex_leq(a, b) || lex_leq(b, a),
    decreases a.len(),
{
    if a.len() > 0 && b.len() > 0 && a[0] == b[0] {
        lemma_lex_total(a.skip(1), b.skip(1));
    }
}

pub proof fn lemma_lex_trans(a: Seq<u8>, b: Seq<u8>, c: Seq<u8>)
    requires
        lex_leq(a, b),
        lex_leq(b, c),
    ensures
        lex_leq(a, c),
    decreases a.len(),
{
    if a.len() > 0 && b.len() > 0 && c.len() > 0 && a[0] == b[0] && b[0] == c[0] {
        lemma_lex_trans(a.skip(1), b.skip(1), c.skip(1));
    }
}

/// Bytewise lexicographic comparison.
pub fn lex_le(a: &Vec<u8>, b: &Vec<u8>) -> (r: bool)
    ensures
        r == lex_leq(a@, b@),
{
    let mut i: usize = 0;
    proof {
        assert(a@.skip(0) =~= a@);
        assert(b@.skip(0) =~= b@);
    }
    loop
        invariant
            0 <= i <= a@.len(),
            0 <= i <= b@.len(),
            lex_leq(a@, b@) == lex_leq(a@.skip(i as int), b@.skip(i as int)),
        decreases a@.len() - i,
    {
        if i == a.len() {
            return true;
        }
        if i == b.len() {
            return false;
        }
        if a[i] < b[i] {
            return true;
        }
        if a[i] > b[i] {
            return false;
        }
        proof {
            assert(a@.skip(i as int).skip(1) =~= a@.skip(i + 1));
            assert(b@.skip(i as int).skip(1) =~= b@.skip(i + 1));
        }
        i = i + 1;
    }
}

/// Exact copy of a byte vector.
pub fn clone_bytes(v: &Vec<u8>) -> (r: Vec<u8>)
    ensures
        r@ == v@,
{
    let r = subvec(v, 0, v.len());
    proof {
        assert(v@.subrange(0, v@.len() as int) =~= v@);
    }
    r
}

/// Turn a string literal into its UTF-8 bytes.
pub fn str_bytes(s: &str) -> (r: Vec<u8>)
    ensures
        r@ == s.spec_bytes(),
{
    vstd::slice::slice_to_vec(s.as_bytes())
}

} // verus!
