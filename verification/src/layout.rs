//! Byte strings made of consecutive fields.
use vstd::prelude::*;

verus! {

/// The fields of `chunks` written one after the other.
pub open spec fn concat(chunks: Seq<Seq<u8>>) -> Seq<u8>
    decreases chunks.len(),
{
    if chunks.len() == 0 {
        Seq::empty()
    } else {
        concat(chunks.drop_last()) + chunks.last()
    }
}

/// `n` zero bytes.
pub open spec fn zeros(n: nat) -> Seq<u8> {
    Seq::new(n, |i: int| 0u8)
}

/// Appending a field at the end.
pub proof fn lemma_concat_push(chunks: Seq<Seq<u8>>, c: Seq<u8>)
    ensures
        concat(chunks.push(c)) == concat(chunks) + c,
{
    assert(chunks.push(c).drop_last() =~= chunks);
}

/// Fields of one width `w` sit at multiples of `w`.
pub proof fn lemma_concat_fixed(chunks: Seq<Seq<u8>>, w: nat)
    requires
        forall|j: int| 0 <= j < chunks.len() ==> (#[trigger] chunks[j]).len() == w,
    ensures
        concat(chunks).len() == w * chunks.len(),
        forall|j: int|
            0 <= j < chunks.len() ==> concat(chunks).subrange(w * j, w * j + w) == #[trigger] chunks[j],
    decreases chunks.len(),
{
    if chunks.len() > 0 {
        let init = chunks.drop_last();
        lemma_concat_fixed(init, w);
        let n = chunks.len() - 1;
        assert(w * (n + 1) == w * n + w) by (nonlinear_arith);
        assert forall|j: int| 0 <= j < chunks.len() implies concat(chunks).subrange(
            w * j,
            w * j + w,
        ) == #[trigger] chunks[j] by {
            if j < n {
                assert(w * j + w <= w * n) by (nonlinear_arith)
                    requires
                        j < n,
                ;
                assert(0 <= w * j) by (nonlinear_arith)
                    requires
                        0 <= j,
                ;
                assert(init[j] == chunks[j]);
                assert(concat(chunks).subrange(w * j, w * j + w) =~= concat(init).subrange(
                    w * j,
                    w * j + w,
                ));
            } else {
                assert(concat(chunks).subrange(w * j, w * j + w) =~= chunks.last());
            }
        }
    }
}

/// A field found at `p` in `s` splits into its two parts.
pub proof fn lemma_split(s: Seq<u8>, p: int, a: Seq<u8>, b: Seq<u8>)
    requires
        0 <= p,
        p + a.len() + b.len() <= s.len(),
        s.subrange(p, p + a.len() + b.len()) == a + b,
    ensures
        s.subrange(p, p + a.len()) == a,
        s.subrange(p + a.len(), p + a.len() + b.len()) == b,
{
    assert(s.subrange(p, p + a.len()) =~= (a + b).subrange(0, a.len() as int));
    assert(s.subrange(p + a.len(), p + a.len() + b.len()) =~= (a + b).subrange(
        a.len() as int,
        (a.len() + b.len()) as int,
    ));
}

/// A field inside a field.
pub proof fn lemma_sub_field(s: Seq<u8>, p: int, a: Seq<u8>, q: int, len: int)
    requires
        0 <= p,
        p + a.len() <= s.len(),
        s.subrange(p, p + a.len()) == a,
        0 <= q,
        0 <= len,
        q + len <= a.len(),
    ensures
        s.subrange(p + q, p + q + len) == a.subrange(q, q + len),
{
    assert(s.subrange(p + q, p + q + len) =~= a.subrange(q, q + len));
}

} // verus!
