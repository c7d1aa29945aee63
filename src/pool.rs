//! Pools of random text drawn once per worker: line contents and file
//! names, kept sorted and free of duplicates.
use rand::distributions::{Alphanumeric, DistString};
use rand::Rng;
use vstd::prelude::*;
use vstd::utf8::encode_utf8;

verus! {

/// Byte-wise lexicographic order, the order of `String` in std.
pub open spec fn lex_lt(a: Seq<u8>, b: Seq<u8>) -> bool
    decreases a.len(),
{
    if a.len() == 0 {
        b.len() > 0
    } else if b.len() == 0 {
        false
    } else if a[0] != b[0] {
        a[0] < b[0]
    } else {
        lex_lt(a.drop_first(), b.drop_first())
    }
}

/// The bytes of a text.
pub open spec fn text_bytes(s: String) -> Seq<u8> {
    encode_utf8(s@)
}

/// Strictly increasing: sorted, with no text twice.
pub open spec fn strictly_sorted(pool: Seq<String>) -> bool {
    forall|i: int, j: int|
        0 <= i < j < pool.len() ==> lex_lt(text_bytes(#[trigger] pool[i]), text_bytes(#[trigger] pool[j]))
}

/// An ASCII letter or digit.
pub open spec fn is_alnum(c: char) -> bool {
    ('A' <= c && c <= 'Z') || ('a' <= c && c <= 'z') || ('0' <= c && c <= '9')
}

/// Relies on rand's `Rng::gen_range` on the thread-local generator: a number
/// in `0..bound` (it panics on an empty range).
#[verifier::external_body]
pub(crate) fn random_below(bound: u64) -> (r: u64)
    requires
        bound > 0,
    ensures
        r < bound,
{
    rand::thread_rng().gen_range(0..bound)
}

/// Relies on rand's `DistString::sample_string` for `Alphanumeric` on the
/// thread-local generator: `len` characters, each an ASCII letter or digit.
#[verifier::external_body]
pub(crate) fn random_alnum(len: usize) -> (r: String)
    ensures
        r@.len() == len,
        forall|i: int| 0 <= i < len ==> is_alnum(#[trigger] r@[i]),
{
    Alphanumeric.sample_string(&mut rand::thread_rng(), len)
}

/// Relies on `slice::binary_search` over `String`'s byte-wise order: on a
/// sorted slice, the index of an equal element, or else the index at which
/// the value would keep the slice sorted.
#[verifier::external_body]
fn search_sorted(pool: &Vec<String>, s: &String) -> (r: Result<usize, usize>)
    requires
        strictly_sorted(pool@),
    ensures
        r matches Ok(i) ==> i < pool@.len() && pool@[i as int]@ == s@,
        r matches Err(i) ==> {
            &&& i <= pool@.len()
            &&& forall|k: int| 0 <= k < i ==> lex_lt(text_bytes(#[trigger] pool@[k]), text_bytes(*s))
            &&& forall|k: int| i <= k < pool@.len() ==> lex_lt(text_bytes(*s), text_bytes(#[trigger] pool@[k]))
        },
{
    pool.binary_search(s)
}

/// Inserts `s` where it keeps the pool sorted, unless the pool holds it
/// already; says whether it was inserted.
pub fn insert_unique(pool: &mut Vec<String>, s: String) -> (r: bool)
    requires
        strictly_sorted(old(pool)@),
    ensures
        strictly_sorted(final(pool)@),
        r <==> !(exists|i: int| 0 <= i < old(pool)@.len() && old(pool)@[i]@ == s@),
        r ==> final(pool)@.len() == old(pool)@.len() + 1,
        !r ==> final(pool)@ == old(pool)@,
        forall|i: int| 0 <= i < old(pool)@.len() ==> final(pool)@.contains(#[trigger] old(pool)@[i]),
        forall|i: int|
            0 <= i < final(pool)@.len() ==> #[trigger] final(pool)@[i] == s || old(pool)@.contains(
                final(pool)@[i],
            ),
{
    match search_sorted(pool, &s) {
        Ok(i) => {
            assert(pool@[i as int]@ == s@);
            false
        },
        Err(i) => {
            let ghost before = pool@;
            proof {
                assert forall|k: int| 0 <= k < before.len() implies before[k]@ != s@ by {
                    if before[k]@ == s@ {
                        assert(text_bytes(before[k]) == text_bytes(s));
                        lemma_lex_lt_irreflexive(text_bytes(s));
                    }
                }
            }
            let ghost sv = s;
            pool.insert(i, s);
            assert(pool@ =~= before.subrange(0, i as int).push(sv) + before.subrange(i as int, before.len() as int));
            assert forall|a: int, b: int| 0 <= a < b < pool@.len() implies lex_lt(
                text_bytes(#[trigger] pool@[a]),
                text_bytes(#[trigger] pool@[b]),
            ) by {
                if b < i {
                    assert(pool@[a] == before[a] && pool@[b] == before[b]);
                } else if b == i {
                    assert(pool@[a] == before[a]);
                } else if a == i {
                    assert(pool@[b] == before[b - 1]);
                } else if a < i {
                    assert(pool@[a] == before[a] && pool@[b] == before[b - 1]);
                } else {
                    assert(pool@[a] == before[a - 1] && pool@[b] == before[b - 1]);
                }
            }
            assert forall|k: int| 0 <= k < before.len() implies pool@.contains(#[trigger] before[k]) by {
                if k < i {
                    assert(pool@[k] == before[k]);
                } else {
                    assert(pool@[k + 1] == before[k]);
                }
            }
            assert forall|k: int| 0 <= k < pool@.len() implies #[trigger] pool@[k] == sv || before.contains(pool@[k]) by {
                if k < i {
                    assert(pool@[k] == before[k]);
                } else if k > i {
                    assert(pool@[k] == before[k - 1]);
                }
            }
            true
        },
    }
}

/// No text comes before itself.
pub proof fn lemma_lex_lt_irreflexive(a: Seq<u8>)
    ensures
        !lex_lt(a, a),
    decreases a.len(),
{
    if a.len() > 0 {
        lemma_lex_lt_irreflexive(a.drop_first());
    }
}

/// Draws up to `size` random texts of lengths below `max_len`, in at most
/// ten rounds of `size` draws, and keeps those that are new; stops once
/// `size` distinct texts are held.
pub fn build_pool(size: usize, max_len: usize) -> (r: Vec<String>)
    requires
        max_len > 0,
    ensures
        strictly_sorted(r@),
        r@.len() <= size,
        size > 0 ==> r@.len() > 0,
        forall|i: int| 0 <= i < r@.len() ==> (#[trigger] r@[i])@.len() < max_len,
{
    let mut pool: Vec<String> = Vec::new();
    let mut attempts: usize = 10;
    while attempts > 0 && pool.len() < size
        invariant
            strictly_sorted(pool@),
            max_len > 0,
            pool@.len() <= size,
            attempts < 10 && size > 0 ==> pool@.len() > 0,
            forall|i: int| 0 <= i < pool@.len() ==> (#[trigger] pool@[i])@.len() < max_len,
        decreases attempts,
    {
        let mut n: usize = 0;
        while n < size && pool.len() < size
            invariant
                strictly_sorted(pool@),
                max_len > 0,
                pool@.len() <= size,
                n > 0 ==> pool@.len() > 0,
                attempts < 10 && size > 0 ==> pool@.len() > 0,
                forall|i: int| 0 <= i < pool@.len() ==> (#[trigger] pool@[i])@.len() < max_len,
            decreases size - n,
        {
            let len = random_below(max_len as u64) as usize;
            let s = random_alnum(len);
            let ghost before = pool@;
            let ghost sv = s;
            let inserted = insert_unique(&mut pool, s);
            assert forall|i: int| 0 <= i < pool@.len() implies (#[trigger] pool@[i])@.len() < max_len by {
                if pool@[i] != sv {
                    let k = choose|k: int| 0 <= k < before.len() && before[k] == pool@[i];
                }
            }
            n += 1;
        }
        attempts -= 1;
    }
    pool
}

} // verus!
