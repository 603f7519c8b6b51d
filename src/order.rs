//! Lexicographic order on paths and an insertion sort by it.
use vstd::prelude::*;

verus! {

/// `a` comes no later than `b` in lexicographic order of code points.
pub open spec fn lex_le(a: Seq<char>, b: Seq<char>) -> bool
    decreases a.len(),
{
    if a.len() == 0 {
        true
    } else if b.len() == 0 {
        false
    } else if (a[0] as u32) != (b[0] as u32) {
        (a[0] as u32) < (b[0] as u32)
    } else {
        lex_le(a.drop_first(), b.drop_first())
    }
}

/// Of two sequences, one comes no later than the other.
pub proof fn lemma_lex_total(a: Seq<char>, b: Seq<char>)
    ensures
        lex_le(a, b) || lex_le(b, a),
    decreases a.len(),
{
    if a.len() > 0 && b.len() > 0 && (a[0] as u32) == (b[0] as u32) {
        lemma_lex_total(a.drop_first(), b.drop_first());
    }
}

/// `s` lists each of `0..n` once.
pub open spec fn is_perm(s: Seq<usize>, n: nat) -> bool {
    &&& s.len() == n
    &&& forall|i: int| 0 <= i < s.len() ==> #[trigger] s[i] < n
    &&& s.no_duplicates()
}

/// The characters of `s`.
pub fn chars_of(s: &str) -> (r: Vec<char>)
    ensures
        r@ == s@,
{
    let n = s.unicode_len();
    let mut r: Vec<char> = Vec::new();
    let mut i: usize = 0;
    while i < n
        invariant
            n == s@.len(),
            i <= n,
            r@ == s@.subrange(0, i as int),
        decreases n - i,
    {
        r.push(s.get_char(i));
        i += 1;
        assert(r@ =~= s@.subrange(0, i as int));
    }
    assert(s@.subrange(0, n as int) =~= s@);
    r
}

/// Whether `a` comes no later than `b`.
pub fn lex_le_exec(a: &Vec<char>, b: &Vec<char>) -> (r: bool)
    ensures
        r == lex_le(a@, b@),
{
    let mut i: usize = 0;
    assert(a@.subrange(0, a@.len() as int) =~= a@);
    assert(b@.subrange(0, b@.len() as int) =~= b@);
    while i < a.len() && i < b.len() && (a[i] as u32) == (b[i] as u32)
        invariant
            i <= a@.len(),
            i <= b@.len(),
            lex_le(a@, b@) == lex_le(a@.subrange(i as int, a@.len() as int), b@.subrange(i as int, b@.len() as int)),
        decreases a.len() - i,
    {
        proof {
            let sa = a@.subrange(i as int, a@.len() as int);
            let sb = b@.subrange(i as int, b@.len() as int);
            assert(sa.drop_first() =~= a@.subrange(i as int + 1, a@.len() as int));
            assert(sb.drop_first() =~= b@.subrange(i as int + 1, b@.len() as int));
        }
        i += 1;
    }
    if i >= a.len() {
        true
    } else if i >= b.len() {
        false
    } else {
        (a[i] as u32) < (b[i] as u32)
    }
}

/// An order of `keys`: position `k` of the result names the key that
/// comes `k`-th, and neighbours come in lexicographic order.
pub fn sorted_order(keys: &Vec<Vec<char>>) -> (r: Vec<usize>)
    ensures
        is_perm(r@, keys@.len()),
        forall|i: int| 0 <= i < r@.len() - 1 ==> lex_le(keys@[#[trigger] r@[i] as int]@, keys@[r@[i + 1] as int]@),
{
    let n = keys.len();
    let mut r: Vec<usize> = Vec::new();
    let mut k: usize = 0;
    while k < n
        invariant
            n == keys@.len(),
            k <= n,
            is_perm(r@, k as nat),
            forall|i: int| 0 <= i < r@.len() - 1 ==> lex_le(keys@[#[trigger] r@[i] as int]@, keys@[r@[i + 1] as int]@),
        decreases n - k,
    {
        let mut p: usize = 0;
        while p < r.len() && lex_le_exec(&keys[r[p]], &keys[k])
            invariant
                p <= r@.len(),
                n == keys@.len(),
                k < n,
                is_perm(r@, k as nat),
                p > 0 ==> lex_le(keys@[r@[p - 1] as int]@, keys@[k as int]@),
            decreases r.len() - p,
        {
            p += 1;
        }
        let ghost old_r = r@;
        proof {
            if p < r@.len() {
                lemma_lex_total(keys@[r@[p as int] as int]@, keys@[k as int]@);
            }
        }
        r.insert(p, k);
        proof {
            assert forall|i: int| 0 <= i < r@.len() implies #[trigger] r@[i] < k + 1 by {
                if i < p {
                    assert(r@[i] == old_r[i]);
                } else if i > p {
                    assert(r@[i] == old_r[i - 1]);
                }
            }
            assert forall|a: int, b: int| 0 <= a < b < r@.len() implies r@[a] != r@[b] by {
                if a != p && b != p {
                    let oa = if a < p { a } else { a - 1 };
                    let ob = if b < p { b } else { b - 1 };
                    assert(r@[a] == old_r[oa]);
                    assert(r@[b] == old_r[ob]);
                } else if a == p {
                    assert(old_r[b - 1] < k);
                } else {
                    if a < p {
                        assert(old_r[a] < k);
                    }
                }
            }
            assert forall|i: int| 0 <= i < r@.len() - 1 implies lex_le(keys@[#[trigger] r@[i] as int]@, keys@[r@[i + 1] as int]@) by {
                if i + 1 < p {
                    assert(r@[i] == old_r[i]);
                    assert(r@[i + 1] == old_r[i + 1]);
                } else if i + 1 == p {
                    assert(r@[i] == old_r[i]);
                } else if i == p {
                    assert(r@[i + 1] == old_r[i]);
                } else {
                    assert(r@[i] == old_r[i - 1]);
                    assert(r@[i + 1] == old_r[i]);
                }
            }
        }
        k += 1;
    }
    r
}

} // verus!
