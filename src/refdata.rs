use vstd::prelude::*;
use pasta_curves::group::ff::PrimeField;

use crate::error::VoteError;

verus! {

broadcast use vstd::seq_lib::group_to_multiset_ensures;

/// `256` to the power `n`: the weight of the `n`-th byte of a little-endian number.
pub open spec fn byte_weight(n: nat) -> nat
    decreases n,
{
    if n == 0 {
        1
    } else {
        256 * byte_weight((n - 1) as nat)
    }
}

/// The number that the bytes encode, least significant byte first.
pub open spec fn le_value(s: Seq<u8>) -> nat
    decreases s.len(),
{
    if s.len() == 0 {
        0
    } else {
        le_value(s.drop_last()) + s.last() as nat * byte_weight((s.len() - 1) as nat)
    }
}

/// The order of the Pallas base field.
pub open spec fn fp_modulus() -> nat {
    byte_weight(31) * 64 + 0x224698fc094cf91b992d30ed00000001
}

/// Whether 32 bytes are the canonical encoding of a field element.
pub open spec fn is_canonical(h: Seq<u8>) -> bool {
    le_value(h) < fp_modulus()
}

/// Whether the hashes are in ascending order of field value.
pub open spec fn sorted_by_value(s: Seq<[u8; 32]>) -> bool {
    forall|i: int, j: int| 0 <= i < j < s.len() ==> le_value(#[trigger] s[i]@) <= le_value(#[trigger] s[j]@)
}

/// Whether `r` holds the hashes of `s`, each canonical, in ascending order of
/// field value.
pub open spec fn is_leaf_order(r: Seq<[u8; 32]>, s: Seq<[u8; 32]>) -> bool {
    &&& r.to_multiset() == s.to_multiset()
    &&& sorted_by_value(r)
}

pub proof fn lemma_le_value_bound(s: Seq<u8>)
    ensures
        le_value(s) < byte_weight(s.len()),
    decreases s.len(),
{
    if s.len() > 0 {
        let w = byte_weight((s.len() - 1) as nat);
        lemma_le_value_bound(s.drop_last());
        vstd::arithmetic::mul::lemma_mul_inequality(s.last() as int, 255, w as int);
    }
}

/// Of two byte strings of one length, the one with the larger byte at the
/// highest position where they differ has the larger value.
pub proof fn lemma_le_value_order(a: Seq<u8>, b: Seq<u8>, k: int)
    requires
        a.len() == b.len(),
        0 <= k < a.len(),
        a[k] < b[k],
        forall|j: int| k < j < a.len() ==> a[j] == b[j],
    ensures
        le_value(a) < le_value(b),
    decreases a.len(),
{
    let n = a.len();
    let w = byte_weight((n - 1) as nat);
    if k == n - 1 {
        lemma_le_value_bound(a.drop_last());
        vstd::arithmetic::mul::lemma_mul_inequality(a.last() as int + 1, b.last() as int, w as int);
        assert((a.last() as int + 1) * w == a.last() as int * w + w) by (nonlinear_arith);
    } else {
        lemma_le_value_order(a.drop_last(), b.drop_last(), k);
        assert(a.last() == b.last());
    }
}

/// Byte strings of one length with the same value are equal.
pub proof fn lemma_le_value_injective(a: Seq<u8>, b: Seq<u8>)
    requires
        a.len() == b.len(),
        le_value(a) == le_value(b),
    ensures
        a == b,
    decreases a.len(),
{
    if a.len() == 0 {
        assert(a =~= b);
    } else {
        let n = a.len() - 1;
        if a[n] < b[n] {
            lemma_le_value_order(a, b, n);
        } else if b[n] < a[n] {
            lemma_le_value_order(b, a, n);
        } else {
            lemma_le_value_injective(a.drop_last(), b.drop_last());
            assert(a =~= a.drop_last().push(a.last()));
            assert(b =~= b.drop_last().push(b.last()));
        }
    }
}

/// Two sequences of hashes that hold the same hashes and are both in
/// ascending order of field value are equal.
pub proof fn lemma_sorted_unique(x: Seq<[u8; 32]>, y: Seq<[u8; 32]>)
    requires
        x.to_multiset() == y.to_multiset(),
        sorted_by_value(x),
        sorted_by_value(y),
    ensures
        x == y,
    decreases x.len(),
{
    x.to_multiset_ensures();
    y.to_multiset_ensures();
    if x.len() == 0 {
        assert(y.len() == 0);
        assert(x =~= y);
    } else {
        assert(y.len() == x.len());
        assert(x.to_multiset().count(x[0]) > 0);
        assert(y.contains(x[0]));
        let j = choose|j: int| 0 <= j < y.len() && y[j] == x[0];
        assert(y.to_multiset().count(y[0]) > 0);
        assert(x.contains(y[0]));
        let i = choose|i: int| 0 <= i < x.len() && x[i] == y[0];
        if j > 0 {
            assert(le_value(y[0]@) <= le_value(y[j]@));
        }
        if i > 0 {
            assert(le_value(x[0]@) <= le_value(x[i]@));
        }
        lemma_le_value_injective(x[0]@, y[0]@);
        assert(x[0]@ =~= y[0]@);
        assert(x[0] == y[0]);
        vstd::seq_lib::to_multiset_remove(x, 0);
        vstd::seq_lib::to_multiset_remove(y, 0);
        assert(x.remove(0) =~= x.drop_first());
        assert(y.remove(0) =~= y.drop_first());
        lemma_sorted_unique(x.drop_first(), y.drop_first());
        assert forall|k: int| 0 <= k < x.len() implies x[k] == y[k] by {
            if k > 0 {
                assert(x[k] == x.drop_first()[k - 1]);
                assert(y[k] == y.drop_first()[k - 1]);
            }
        }
        assert(x =~= y);
    }
}

/// Reordering the nullifier collection does not change the leaves derived
/// from it: the canonical order depends on which hashes are present only.
pub proof fn lemma_leaves_order_independent(
    a: Seq<[u8; 32]>,
    b: Seq<[u8; 32]>,
    ra: Seq<[u8; 32]>,
    rb: Seq<[u8; 32]>,
)
    requires
        a.to_multiset() == b.to_multiset(),
        is_leaf_order(ra, a),
        is_leaf_order(rb, b),
    ensures
        ra == rb,
{
    lemma_sorted_unique(ra, rb);
}

/// Whether the value of `a` is less than the value of `b`.
pub fn value_lt(a: &[u8; 32], b: &[u8; 32]) -> (r: bool)
    ensures
        r == (le_value(a@) < le_value(b@)),
{
    let mut i: usize = 32;
    while i > 0
        invariant
            a@.len() == 32,
            b@.len() == 32,
            i <= 32,
            forall|j: int| i <= j < 32 ==> a@[j] == b@[j],
        decreases i,
    {
        if a[i - 1] != b[i - 1] {
            proof {
                if a@[i - 1] < b@[i - 1] {
                    lemma_le_value_order(a@, b@, i - 1);
                } else {
                    lemma_le_value_order(b@, a@, i - 1);
                }
            }
            return a[i - 1] < b[i - 1];
        }
        i = i - 1;
    }
    assert(a@ =~= b@);
    false
}

/// Relies on `pasta_curves::Fp::from_repr`: it yields an element exactly when
/// the little-endian value of the 32 bytes is below the field's modulus.
#[verifier::external_body]
fn fp_from_repr_ok(h: [u8; 32]) -> (r: bool)
    ensures
        r == is_canonical(h@),
{
    bool::from(pasta_curves::Fp::from_repr(h).is_some())
}

/// The nullifier hashes put in canonical leaf order: each read as a field
/// element and sorted by ascending value. Fails with `StorageFailure` when a
/// hash is not the canonical encoding of a field element.
pub fn nullifier_leaves(hashes: &Vec<[u8; 32]>) -> (r: Result<Vec<[u8; 32]>, VoteError>)
    ensures
        match r {
            Ok(v) => (forall|i: int| 0 <= i < hashes@.len() ==> is_canonical(#[trigger] hashes@[i]@))
                && is_leaf_order(v@, hashes@),
            Err(e) => e == VoteError::StorageFailure && exists|i: int|
                0 <= i < hashes@.len() && !is_canonical(#[trigger] hashes@[i]@),
        },
{
    let mut out: Vec<[u8; 32]> = Vec::new();
    let mut i: usize = 0;
    while i < hashes.len()
        invariant
            i <= hashes@.len(),
            forall|k: int| 0 <= k < i ==> is_canonical(#[trigger] hashes@[k]@),
            out@.to_multiset() == hashes@.subrange(0, i as int).to_multiset(),
            sorted_by_value(out@),
        decreases hashes@.len() - i,
    {
        let h = hashes[i];
        if !fp_from_repr_ok(h) {
            return Err(VoteError::StorageFailure);
        }
        let mut pos: usize = 0;
        while pos < out.len() && !value_lt(&h, &out[pos])
            invariant
                pos <= out@.len(),
                forall|k: int| 0 <= k < pos ==> le_value((#[trigger] out@[k])@) <= le_value(h@),
            decreases out@.len() - pos,
        {
            pos = pos + 1;
        }
        let ghost before = out@;
        out.insert(pos, h);
        proof {
            assert(out@ == before.insert(pos as int, h));
            vstd::seq_lib::to_multiset_insert(before, pos as int, h);
            assert(hashes@.subrange(0, i + 1) =~= hashes@.subrange(0, i as int).push(h));
            assert forall|p: int, q: int| 0 <= p < q < out@.len() implies le_value(
                #[trigger] out@[p]@) <= le_value(#[trigger] out@[q]@) by {
                if pos < before.len() {
                    assert(le_value(h@) < le_value(before[pos as int]@));
                }
                if q < pos {
                } else if q == pos {
                } else if p < pos {
                    assert(le_value(before[p]@) <= le_value(h@));
                    if pos as int <= q - 1 {
                        assert(le_value(before[pos as int]@) <= le_value(before[q - 1]@));
                    }
                } else if p == pos {
                    if pos as int <= q - 1 {
                        assert(le_value(before[pos as int]@) <= le_value(before[q - 1]@));
                    }
                } else {
                    assert(le_value(before[p - 1]@) <= le_value(before[q - 1]@));
                }
            }
        }
        i = i + 1;
    }
    assert(hashes@.subrange(0, hashes@.len() as int) =~= hashes@);
    Ok(out)
}

} // verus!
