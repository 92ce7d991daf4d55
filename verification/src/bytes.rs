//! Byte strings: equality, lexicographic order and conversions between
//! vectors, slices and fixed-size arrays.
use vstd::prelude::*;

verus! {

/// A 32-byte content hash.
pub type Digest = [u8; 32];

/// A 32-byte public key that names an author or a peer.
pub type PubKey = [u8; 32];

/// The 16 bytes of a store or mesh identifier.
pub type Uuid = [u8; 16];

/// A run of `n` zero bytes.
pub open spec fn zeros(n: nat) -> Seq<u8> {
    Seq::new(n, |i: int| 0u8)
}

/// Lexicographic order on byte strings: a proper prefix comes first.
pub open spec fn lex_lt(a: Seq<u8>, b: Seq<u8>) -> bool
    decreases a.len(),
{
    if b.len() == 0 {
        false
    } else if a.len() == 0 {
        true
    } else if a[0] != b[0] {
        a[0] < b[0]
    } else {
        lex_lt(a.drop_first(), b.drop_first())
    }
}

/// No byte string precedes itself.
pub proof fn lemma_lex_irreflexive(a: Seq<u8>)
    ensures
        !lex_lt(a, a),
    decreases a.len(),
{
    if a.len() > 0 {
        lemma_lex_irreflexive(a.drop_first());
    }
}

/// The order is transitive.
pub proof fn lemma_lex_transitive(a: Seq<u8>, b: Seq<u8>, c: Seq<u8>)
    requires
        lex_lt(a, b),
        lex_lt(b, c),
    ensures
        lex_lt(a, c),
    decreases a.len(),
{
    if a.len() > 0 && b.len() > 0 && c.len() > 0 && a[0] == b[0] && b[0] == c[0] {
        lemma_lex_transitive(a.drop_first(), b.drop_first(), c.drop_first());
    }
}

/// Two different byte strings are ordered one way or the other.
pub proof fn lemma_lex_total(a: Seq<u8>, b: Seq<u8>)
    ensures
        a == b || lex_lt(a, b) || lex_lt(b, a),
    decreases a.len(),
{
    if a.len() > 0 && b.len() > 0 && a[0] == b[0] {
        lemma_lex_total(a.drop_first(), b.drop_first());
        if a.drop_first() == b.drop_first() {
            assert(a =~= seq![a[0]] + a.drop_first());
            assert(b =~= seq![b[0]] + b.drop_first());
        }
    } else if a.len() == 0 && b.len() == 0 {
        assert(a =~= b);
    }
}

/// The first position where the strings differ decides their order.
pub proof fn lemma_lex_at(a: Seq<u8>, b: Seq<u8>, i: int)
    requires
        0 <= i <= a.len(),
        i <= b.len(),
        forall|k: int| 0 <= k < i ==> a[k] == b[k],
    ensures
        lex_lt(a, b) == lex_lt(a.skip(i), b.skip(i)),
    decreases i,
{
    if i > 0 {
        assert forall|k: int| 0 <= k < i - 1 implies a.drop_first()[k] == b.drop_first()[k] by {
            assert(a[k + 1] == b[k + 1]);
        }
        lemma_lex_at(a.drop_first(), b.drop_first(), i - 1);
        assert(a.drop_first().skip(i - 1) =~= a.skip(i));
        assert(b.drop_first().skip(i - 1) =~= b.skip(i));
    } else {
        assert(a.skip(0) =~= a);
        assert(b.skip(0) =~= b);
    }
}

/// One byte string precedes another exactly where, behind what they have in common, it
/// ends first or has the smaller byte.
pub proof fn law_first_difference_decides(a: Seq<u8>, b: Seq<u8>)
    ensures
        lex_lt(a, b) <==> exists|i: int|
            0 <= i <= a.len() && i < b.len() && #[trigger] a.take(i) == b.take(i) && (i == a.len()
                || a[i] < b[i]),
    decreases a.len(),
{
    if lex_lt(a, b) {
        if a.len() == 0 || a[0] != b[0] {
            assert(a.take(0) =~= b.take(0));
        } else {
            let x = a.drop_first();
            let y = b.drop_first();
            law_first_difference_decides(x, y);
            let j = choose|j: int|
                0 <= j <= x.len() && j < y.len() && #[trigger] x.take(j) == y.take(j) && (j
                    == x.len() || x[j] < y[j]);
            assert(a.take(j + 1) =~= seq![a[0]] + x.take(j));
            assert(b.take(j + 1) =~= seq![b[0]] + y.take(j));
        }
    }
    assert forall|i: int|
        0 <= i <= a.len() && i < b.len() && #[trigger] a.take(i) == b.take(i) && (i == a.len()
            || a[i] < b[i]) implies lex_lt(a, b) by {
        assert forall|k: int| 0 <= k < i implies a[k] == b[k] by {
            assert(a.take(i)[k] == b.take(i)[k]);
        }
        lemma_lex_at(a, b, i);
        if i < a.len() {
            assert(a.skip(i)[0] == a[i]);
        }
        assert(b.skip(i)[0] == b[i]);
    }
}

/// What precedes a prefix does not start with it.
pub proof fn lemma_before_prefix(p: Seq<u8>, a: Seq<u8>)
    requires
        lex_lt(a, p),
    ensures
        !p.is_prefix_of(a),
    decreases p.len(),
{
    if p.is_prefix_of(a) {
        assert(a.len() >= p.len());
        assert(p =~= a.subrange(0, p.len() as int));
        assert(p.len() > 0);
        assert(a[0] == p[0]);
        assert(p.drop_first() =~= a.drop_first().subrange(0, p.drop_first().len() as int)) by {
            assert forall|i: int| 0 <= i < p.drop_first().len() implies p.drop_first()[i]
                == a.drop_first()[i] by {
                assert(p[i + 1] == a[i + 1]);
            }
        }
        lemma_before_prefix(p.drop_first(), a.drop_first());
    }
}

/// The strings that start with a prefix stand side by side: what lies between
/// the prefix and one of them starts with the prefix, too.
pub proof fn lemma_prefix_interval(p: Seq<u8>, a: Seq<u8>, b: Seq<u8>)
    requires
        !lex_lt(a, p),
        lex_lt(a, b),
        p.is_prefix_of(b),
    ensures
        p.is_prefix_of(a),
    decreases p.len(),
{
    assert(p =~= b.subrange(0, p.len() as int));
    if p.len() == 0 {
        assert(p =~= a.subrange(0, 0));
    } else {
        assert(b[0] == p[0]);
        assert(a.len() > 0);
        assert(a[0] == p[0]);
        let q = p.drop_first();
        let c = a.drop_first();
        let d = b.drop_first();
        assert(q =~= d.subrange(0, q.len() as int)) by {
            assert forall|i: int| 0 <= i < q.len() implies q[i] == d[i] by {
                assert(p[i + 1] == b[i + 1]);
            }
        }
        lemma_prefix_interval(q, c, d);
        assert(q =~= c.subrange(0, q.len() as int));
        assert(p =~= a.subrange(0, p.len() as int)) by {
            assert forall|i: int| 0 <= i < p.len() implies p[i] == a[i] by {
                if i > 0 {
                    assert(q[i - 1] == c[i - 1]);
                }
            }
        }
    }
}

/// Whether the two byte strings are the same.
pub fn bytes_eq(a: &[u8], b: &[u8]) -> (r: bool)
    ensures
        r == (a@ == b@),
{
    if a.len() != b.len() {
        return false;
    }
    let mut i: usize = 0;
    while i < a.len()
        invariant
            a.len() == b.len(),
            i <= a.len(),
            forall|k: int| 0 <= k < i ==> a@[k] == b@[k],
        decreases a.len() - i,
    {
        if a[i] != b[i] {
            assert(a@[i as int] != b@[i as int]);
            return false;
        }
        i += 1;
    }
    assert(a@ =~= b@);
    true
}

/// Whether `a` precedes `b` in lexicographic order.
pub fn bytes_lt(a: &[u8], b: &[u8]) -> (r: bool)
    ensures
        r == lex_lt(a@, b@),
{
    let mut i: usize = 0;
    while i < a.len() && i < b.len()
        invariant
            i <= a.len(),
            i <= b.len(),
            forall|k: int| 0 <= k < i ==> a@[k] == b@[k],
        decreases a.len() - i,
    {
        if a[i] != b[i] {
            proof {
                lemma_lex_at(a@, b@, i as int);
                assert(a@.skip(i as int)[0] == a@[i as int]);
                assert(b@.skip(i as int)[0] == b@[i as int]);
            }
            return a[i] < b[i];
        }
        i += 1;
    }
    proof {
        lemma_lex_at(a@, b@, i as int);
    }
    i < b.len()
}

/// Whether `bytes` starts with `prefix`.
pub fn starts_with(bytes: &[u8], prefix: &[u8]) -> (r: bool)
    ensures
        r == prefix@.is_prefix_of(bytes@),
{
    if bytes.len() < prefix.len() {
        return false;
    }
    let mut i: usize = 0;
    while i < prefix.len()
        invariant
            prefix.len() <= bytes.len(),
            i <= prefix.len(),
            forall|k: int| 0 <= k < i ==> bytes@[k] == prefix@[k],
        decreases prefix.len() - i,
    {
        if bytes[i] != prefix[i] {
            assert(bytes@[i as int] != prefix@[i as int]);
            return false;
        }
        i += 1;
    }
    assert(prefix@ =~= bytes@.subrange(0, prefix@.len() as int));
    true
}

/// A vector that holds the given bytes.
pub fn to_vec(a: &[u8]) -> (r: Vec<u8>)
    ensures
        r@ == a@,
{
    let mut r: Vec<u8> = Vec::new();
    let mut i: usize = 0;
    while i < a.len()
        invariant
            i <= a.len(),
            r@ == a@.take(i as int),
        decreases a.len() - i,
    {
        r.push(a[i]);
        i += 1;
        assert(a@.take(i as int) =~= a@.take(i - 1).push(a@[i - 1]));
    }
    assert(a@.take(i as int) =~= a@);
    r
}

/// The 32 bytes as an array.
pub fn to_array32(a: &[u8]) -> (r: [u8; 32])
    requires
        a@.len() == 32,
    ensures
        r@ == a@,
{
    let mut r: [u8; 32] = [0u8; 32];
    let mut i: usize = 0;
    while i < 32
        invariant
            a@.len() == 32,
            i <= 32,
            forall|k: int| 0 <= k < i ==> r@[k] == a@[k],
        decreases 32 - i,
    {
        r[i] = a[i];
        i += 1;
    }
    assert(r@ =~= a@);
    r
}

/// The 16 bytes as an array.
pub fn to_array16(a: &[u8]) -> (r: [u8; 16])
    requires
        a@.len() == 16,
    ensures
        r@ == a@,
{
    let mut r: [u8; 16] = [0u8; 16];
    let mut i: usize = 0;
    while i < 16
        invariant
            a@.len() == 16,
            i <= 16,
            forall|k: int| 0 <= k < i ==> r@[k] == a@[k],
        decreases 16 - i,
    {
        r[i] = a[i];
        i += 1;
    }
    assert(r@ =~= a@);
    r
}

/// The 64 bytes as an array.
pub fn to_array64(a: &[u8]) -> (r: [u8; 64])
    requires
        a@.len() == 64,
    ensures
        r@ == a@,
{
    let mut r: [u8; 64] = [0u8; 64];
    let mut i: usize = 0;
    while i < 64
        invariant
            a@.len() == 64,
            i <= 64,
            forall|k: int| 0 <= k < i ==> r@[k] == a@[k],
        decreases 64 - i,
    {
        r[i] = a[i];
        i += 1;
    }
    assert(r@ =~= a@);
    r
}

} // verus!
