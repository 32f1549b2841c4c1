//! Identifier allocation: produces a 64-bit identifier that is not in a
//! backend's current key set.  Random values are drawn first; if they
//! all collide, a deterministic sweep over `0 ..= used.len()` finds a
//! free value, which the pigeonhole principle guarantees to exist.

use vstd::prelude::*;

verus! {

/// Relies on `rand::random`: draws a 64-bit value from the thread-local
/// generator.  Nothing is assumed of the result.
#[verifier::external_body]
fn random_u64() -> u64 {
    rand::random()
}

/// Whether `v` holds `x`.
fn contains_u64(v: &Vec<u64>, x: u64) -> (r: bool)
    ensures
        r == v@.contains(x),
{
    let mut i: usize = 0;
    while i < v.len()
        invariant
            i <= v@.len(),
            forall|j: int| 0 <= j < i ==> v@[j] != x,
        decreases v@.len() - i,
    {
        if v[i] == x {
            proof {
                assert(v@[i as int] == x);
            }
            return true;
        }
        i = i + 1;
    }
    proof {
        if v@.contains(x) {
            let j = choose|j: int| 0 <= j < v@.len() && v@[j] == x;
            assert(false);
        }
    }
    false
}

/// One occurrence of `x` removed from `s`, if present.
spec fn drop_one(s: Seq<u64>, x: u64) -> Seq<u64>
    decreases s.len(),
{
    if s.len() == 0 {
        s
    } else if s[0] == x {
        s.skip(1)
    } else {
        seq![s[0]] + drop_one(s.skip(1), x)
    }
}

proof fn lemma_drop_one(s: Seq<u64>, x: u64)
    requires
        s.contains(x),
    ensures
        drop_one(s, x).len() == s.len() - 1,
        forall|y: u64| y != x ==> drop_one(s, x).contains(y) == s.contains(y),
    decreases s.len(),
{
    if s[0] == x {
        assert forall|y: u64| y != x implies drop_one(s, x).contains(y) == s.contains(y) by {
            if s.skip(1).contains(y) {
                let j = choose|j: int| 0 <= j < s.skip(1).len() && s.skip(1)[j] == y;
                assert(s[j + 1] == y);
                assert(s.contains(y));
            }
            if s.contains(y) {
                let i = choose|i: int| 0 <= i < s.len() && s[i] == y;
                assert(i > 0);
                assert(s.skip(1)[i - 1] == y);
                assert(s.skip(1).contains(y));
            }
        }
    } else {
        assert(s.skip(1).contains(x)) by {
            let i = choose|i: int| 0 <= i < s.len() && s[i] == x;
            assert(i > 0);
            assert(s.skip(1)[i - 1] == x);
        }
        lemma_drop_one(s.skip(1), x);
        let d = seq![s[0]] + drop_one(s.skip(1), x);
        assert(drop_one(s, x) == d);
        assert forall|y: u64| y != x implies drop_one(s, x).contains(y) == s.contains(y) by {
            if d.contains(y) {
                let j = choose|j: int| 0 <= j < d.len() && d[j] == y;
                if j == 0 {
                    assert(s[0] == y);
                    assert(s.contains(y));
                } else {
                    assert(drop_one(s.skip(1), x)[j - 1] == y);
                    assert(drop_one(s.skip(1), x).contains(y));
                    assert(s.skip(1).contains(y));
                    let i = choose|i: int| 0 <= i < s.skip(1).len() && s.skip(1)[i] == y;
                    assert(s[i + 1] == y);
                    assert(s.contains(y));
                }
            }
            if s.contains(y) {
                let i = choose|i: int| 0 <= i < s.len() && s[i] == y;
                if i == 0 {
                    assert(d[0] == y);
                    assert(d.contains(y));
                } else {
                    assert(s.skip(1)[i - 1] == y);
                    assert(s.skip(1).contains(y));
                    assert(drop_one(s.skip(1), x).contains(y));
                    let j = choose|j: int|
                        0 <= j < drop_one(s.skip(1), x).len() && drop_one(s.skip(1), x)[j] == y;
                    assert(d[j + 1] == y);
                    assert(d.contains(y));
                }
            }
        }
    }
}

/// Among the values `0 ..= bound` there is one that a sequence of at
/// most `bound` values does not hold.
proof fn lemma_unused_id_exists(used: Seq<u64>, bound: u64)
    requires
        used.len() <= bound,
    ensures
        exists|c: u64| c <= bound && !used.contains(c),
    decreases used.len(),
{
    if !used.contains(bound) {
        assert(bound <= bound && !used.contains(bound));
    } else {
        assert(used.len() >= 1);
        let rest = drop_one(used, bound);
        lemma_drop_one(used, bound);
        lemma_unused_id_exists(rest, (bound - 1) as u64);
        let c = choose|c: u64| c <= (bound - 1) as u64 && !rest.contains(c);
        assert(c != bound);
        assert(!used.contains(c));
        assert(c <= bound && !used.contains(c));
    }
}

/// A fresh identifier: one not among `used`.  Random draws are retried
/// a bounded number of times, then a deterministic sweep takes over.
pub fn fresh_id(used: &Vec<u64>) -> (id: u64)
    ensures
        !used@.contains(id),
{
    let mut tries: usize = 0;
    while tries < 64
        decreases 64 - tries,
    {
        let id = random_u64();
        if !contains_u64(used, id) {
            return id;
        }
        tries = tries + 1;
    }
    let bound: u64 = used.len() as u64;
    let mut c: u64 = 0;
    loop
        invariant
            c <= bound,
            bound == used@.len(),
            forall|x: u64| x < c ==> used@.contains(x),
        decreases bound - c,
    {
        if !contains_u64(used, c) {
            return c;
        }
        proof {
            if c == bound {
                lemma_unused_id_exists(used@, bound);
                let w = choose|w: u64| w <= bound && !used@.contains(w);
                assert(false);
            }
        }
        c = c + 1;
    }
}

} // verus!
