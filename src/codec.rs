//! The byte form of a phrase in the stored phrase set: each id as four
//! big-endian bytes, so that byte order of keys is id-sequence order.
use vstd::prelude::*;

verus! {

/// The four big-endian bytes of `x`.
pub open spec fn id_bytes(x: u32) -> Seq<u8> {
    seq![
        (x / 0x100_0000) as u8,
        ((x / 0x1_0000) % 0x100) as u8,
        ((x / 0x100) % 0x100) as u8,
        (x % 0x100) as u8,
    ]
}

/// The key of an id sequence.
pub open spec fn phrase_key(ids: Seq<u32>) -> Seq<u8>
    decreases ids.len(),
{
    if ids.len() == 0 {
        Seq::empty()
    } else {
        phrase_key(ids.drop_last()) + id_bytes(ids.last())
    }
}

pub proof fn lemma_phrase_key_len(ids: Seq<u32>)
    ensures
        phrase_key(ids).len() == 4 * ids.len(),
    decreases ids.len(),
{
    if ids.len() > 0 {
        lemma_phrase_key_len(ids.drop_last());
    }
}

/// The id whose big-endian bytes are `a b c d`.
pub open spec fn id_of_bytes(a: u8, b: u8, c: u8, d: u8) -> u32 {
    (a as int * 0x100_0000 + b as int * 0x1_0000 + c as int * 0x100 + d as int) as u32
}

proof fn lemma_id_bytes_round_trip(a: u8, b: u8, c: u8, d: u8)
    ensures
        id_bytes(id_of_bytes(a, b, c, d)) == seq![a, b, c, d],
{
    let x: int = a as int * 0x100_0000 + b as int * 0x1_0000 + c as int * 0x100 + d as int;
    assert(0 <= x < 0x1_0000_0000) by (nonlinear_arith)
        requires
            x == a as int * 0x100_0000 + b as int * 0x1_0000 + c as int * 0x100 + d as int,
            0 <= a < 256,
            0 <= b < 256,
            0 <= c < 256,
            0 <= d < 256,
    ;
    assert(x / 0x100_0000 == a) by (nonlinear_arith)
        requires
            x == a as int * 0x100_0000 + b as int * 0x1_0000 + c as int * 0x100 + d as int,
            0 <= b < 256,
            0 <= c < 256,
            0 <= d < 256,
    ;
    assert((x / 0x1_0000) % 0x100 == b) by (nonlinear_arith)
        requires
            x == a as int * 0x100_0000 + b as int * 0x1_0000 + c as int * 0x100 + d as int,
            0 <= a < 256,
            0 <= b < 256,
            0 <= c < 256,
            0 <= d < 256,
    ;
    assert((x / 0x100) % 0x100 == c) by (nonlinear_arith)
        requires
            x == a as int * 0x100_0000 + b as int * 0x1_0000 + c as int * 0x100 + d as int,
            0 <= a < 256,
            0 <= b < 256,
            0 <= c < 256,
            0 <= d < 256,
    ;
    assert(x % 0x100 == d) by (nonlinear_arith)
        requires
            x == a as int * 0x100_0000 + b as int * 0x1_0000 + c as int * 0x100 + d as int,
            0 <= a < 256,
            0 <= b < 256,
            0 <= c < 256,
            0 <= d < 256,
    ;
    assert(id_bytes(id_of_bytes(a, b, c, d)) =~= seq![a, b, c, d]);
}

/// The key of a phrase.
pub fn encode_phrase(ids: &Vec<u32>) -> (r: Vec<u8>)
    ensures
        r@ == phrase_key(ids@),
{
    let mut out: Vec<u8> = Vec::new();
    let mut i: usize = 0;
    while i < ids.len()
        invariant
            i <= ids.len(),
            out@ == phrase_key(ids@.take(i as int)),
        decreases ids.len() - i,
    {
        let x = ids[i];
        out.push((x / 0x100_0000) as u8);
        out.push(((x / 0x1_0000) % 0x100) as u8);
        out.push(((x / 0x100) % 0x100) as u8);
        out.push((x % 0x100) as u8);
        proof {
            assert(ids@.take(i + 1).drop_last() =~= ids@.take(i as int));
            assert(out@ =~= phrase_key(ids@.take(i + 1)));
        }
        i = i + 1;
    }
    assert(ids@.take(i as int) =~= ids@);
    out
}

/// The phrase of a key; `None` when its length is not a multiple of four.
pub fn decode_phrase(bytes: &[u8]) -> (r: Option<Vec<u32>>)
    ensures
        r is None <==> bytes@.len() % 4 != 0,
        r matches Some(ids) ==> phrase_key(ids@) == bytes@,
{
    if bytes.len() % 4 != 0 {
        return None;
    }
    let mut ids: Vec<u32> = Vec::new();
    let mut i: usize = 0;
    while i < bytes.len()
        invariant
            bytes@.len() % 4 == 0,
            i <= bytes@.len(),
            i % 4 == 0,
            phrase_key(ids@) == bytes@.take(i as int),
        decreases bytes.len() - i,
    {
        let a = bytes[i];
        let b = bytes[i + 1];
        let c = bytes[i + 2];
        let d = bytes[i + 3];
        let x: u32 = (a as u32) * 0x100_0000 + (b as u32) * 0x1_0000 + (c as u32) * 0x100 + d as u32;
        proof {
            lemma_id_bytes_round_trip(a, b, c, d);
            assert(x == id_of_bytes(a, b, c, d));
        }
        let ghost before = ids@;
        ids.push(x);
        proof {
            assert(ids@.drop_last() =~= before);
            assert(bytes@.take(i + 4) =~= bytes@.take(i as int) + seq![a, b, c, d]);
        }
        i = i + 4;
    }
    assert(bytes@.take(i as int) =~= bytes@);
    Some(ids)
}

/// Decoding the key of a phrase gives the phrase back.
pub proof fn law_key_round_trip(ids: Seq<u32>, back: Seq<u32>)
    requires
        phrase_key(back) == phrase_key(ids),
    ensures
        back == ids,
    decreases ids.len(),
{
    lemma_phrase_key_len(ids);
    lemma_phrase_key_len(back);
    if ids.len() > 0 {
        let k = phrase_key(ids);
        let n = k.len();
        let x = ids.last();
        let y = back.last();
        lemma_phrase_key_len(ids.drop_last());
        lemma_phrase_key_len(back.drop_last());
        assert(k.subrange(n - 4, n as int) =~= id_bytes(x));
        assert(phrase_key(back).subrange(n - 4, n as int) =~= id_bytes(y));
        assert(x == y) by {
            lemma_id_bytes_round_trip(id_bytes(x)[0], id_bytes(x)[1], id_bytes(x)[2], id_bytes(x)[3]);
            lemma_bytes_determine_id(x);
            lemma_bytes_determine_id(y);
        }
        assert(k.subrange(0, n - 4) =~= phrase_key(ids.drop_last()));
        assert(phrase_key(back).subrange(0, n - 4) =~= phrase_key(back.drop_last()));
        law_key_round_trip(ids.drop_last(), back.drop_last());
        assert(back.len() == ids.len());
        assert forall|j: int| 0 <= j < ids.len() implies back[j] == ids[j] by {
            if j < ids.len() - 1 {
                assert(back.drop_last()[j] == back[j]);
                assert(ids.drop_last()[j] == ids[j]);
            }
        }
        assert(back =~= ids);
    }
}

proof fn lemma_bytes_determine_id(x: u32)
    ensures
        id_of_bytes(id_bytes(x)[0], id_bytes(x)[1], id_bytes(x)[2], id_bytes(x)[3]) == x,
{
    let xi = x as int;
    assert(xi == (xi / 0x100_0000) * 0x100_0000 + ((xi / 0x1_0000) % 0x100) * 0x1_0000 + ((xi
        / 0x100) % 0x100) * 0x100 + xi % 0x100) by (nonlinear_arith)
        requires
            0 <= xi < 0x1_0000_0000,
    ;
}

} // verus!
