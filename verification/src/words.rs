//! The 32-byte words of the contract's binary call convention.
//!
//! Every argument of the fixed contract interface is carried in 32-byte
//! words: unsigned integers are big-endian and left-padded with zeroes,
//! addresses occupy the low 20 bytes of a word, and a dynamic array is a
//! length word followed by one word per element.

use vstd::prelude::*;

verus! {

/// A run of zero bytes, the padding of a word.
pub open spec fn zero_bytes(n: nat) -> Seq<u8> {
    Seq::new(n, |i: int| 0u8)
}

/// The eight big-endian bytes of a 64-bit integer.
pub open spec fn be_bytes_u64(n: u64) -> Seq<u8> {
    seq![
        (n >> 56) as u8,
        (n >> 48) as u8,
        (n >> 40) as u8,
        (n >> 32) as u8,
        (n >> 24) as u8,
        (n >> 16) as u8,
        (n >> 8) as u8,
        n as u8,
    ]
}

/// The four big-endian bytes of a 32-bit integer.
pub open spec fn be_bytes_u32(x: u32) -> Seq<u8> {
    seq![(x >> 24) as u8, (x >> 16) as u8, (x >> 8) as u8, x as u8]
}

/// A word holding an unsigned integer small enough for 64 bits
/// (lengths and tail offsets always are).
pub open spec fn word_of_u64(n: u64) -> Seq<u8> {
    zero_bytes(24) + be_bytes_u64(n)
}

/// A word holding a 32-bit unsigned integer.
pub open spec fn word_of_u32(x: u32) -> Seq<u8> {
    zero_bytes(28) + be_bytes_u32(x)
}

/// A word holding a 20-byte address in its low bytes.
pub open spec fn word_of_addr(a: Seq<u8>) -> Seq<u8> {
    zero_bytes(12) + a
}

/// Distinct 64-bit integers occupy distinct words.
pub proof fn lemma_word_of_u64_injective(a: u64, b: u64)
    requires
        word_of_u64(a) == word_of_u64(b),
    ensures
        a == b,
{
    assert(word_of_u64(a)[24] == (a >> 56) as u8 && word_of_u64(b)[24] == (b >> 56) as u8);
    assert(word_of_u64(a)[25] == (a >> 48) as u8 && word_of_u64(b)[25] == (b >> 48) as u8);
    assert(word_of_u64(a)[26] == (a >> 40) as u8 && word_of_u64(b)[26] == (b >> 40) as u8);
    assert(word_of_u64(a)[27] == (a >> 32) as u8 && word_of_u64(b)[27] == (b >> 32) as u8);
    assert(word_of_u64(a)[28] == (a >> 24) as u8 && word_of_u64(b)[28] == (b >> 24) as u8);
    assert(word_of_u64(a)[29] == (a >> 16) as u8 && word_of_u64(b)[29] == (b >> 16) as u8);
    assert(word_of_u64(a)[30] == (a >> 8) as u8 && word_of_u64(b)[30] == (b >> 8) as u8);
    assert(word_of_u64(a)[31] == a as u8 && word_of_u64(b)[31] == b as u8);
    assert(a == b) by (bit_vector)
        requires
            (a >> 56) as u8 == (b >> 56) as u8,
            (a >> 48) as u8 == (b >> 48) as u8,
            (a >> 40) as u8 == (b >> 40) as u8,
            (a >> 32) as u8 == (b >> 32) as u8,
            (a >> 24) as u8 == (b >> 24) as u8,
            (a >> 16) as u8 == (b >> 16) as u8,
            (a >> 8) as u8 == (b >> 8) as u8,
            a as u8 == b as u8,
    ;
}

/// Distinct 32-bit integers occupy distinct words.
pub proof fn lemma_word_of_u32_injective(a: u32, b: u32)
    requires
        word_of_u32(a) == word_of_u32(b),
    ensures
        a == b,
{
    assert(word_of_u32(a)[28] == (a >> 24) as u8 && word_of_u32(b)[28] == (b >> 24) as u8);
    assert(word_of_u32(a)[29] == (a >> 16) as u8 && word_of_u32(b)[29] == (b >> 16) as u8);
    assert(word_of_u32(a)[30] == (a >> 8) as u8 && word_of_u32(b)[30] == (b >> 8) as u8);
    assert(word_of_u32(a)[31] == a as u8 && word_of_u32(b)[31] == b as u8);
    assert(a == b) by (bit_vector)
        requires
            (a >> 24) as u8 == (b >> 24) as u8,
            (a >> 16) as u8 == (b >> 16) as u8,
            (a >> 8) as u8 == (b >> 8) as u8,
            a as u8 == b as u8,
    ;
}

/// Distinct addresses occupy distinct words.
pub proof fn lemma_word_of_addr_injective(a: Seq<u8>, b: Seq<u8>)
    requires
        a.len() == 20,
        b.len() == 20,
        word_of_addr(a) == word_of_addr(b),
    ensures
        a == b,
{
    assert forall|i: int| 0 <= i < 20 implies a[i] == b[i] by {
        assert(word_of_addr(a)[12 + i] == a[i]);
        assert(word_of_addr(b)[12 + i] == b[i]);
    }
    assert(a =~= b);
}

/// Concatenation of a list of chunks into one byte sequence.
pub open spec fn cat(ws: Seq<Seq<u8>>) -> Seq<u8>
    decreases ws.len(),
{
    if ws.len() == 0 {
        Seq::empty()
    } else {
        ws[0] + cat(ws.drop_first())
    }
}

/// Every chunk of the list is a full 32-byte word.
pub open spec fn all_words(ws: Seq<Seq<u8>>) -> bool {
    forall|i: int| 0 <= i < ws.len() ==> (#[trigger] ws[i]).len() == 32
}

pub proof fn lemma_cat_append(x: Seq<Seq<u8>>, y: Seq<Seq<u8>>)
    ensures
        cat(x + y) == cat(x) + cat(y),
    decreases x.len(),
{
    if x.len() == 0 {
        assert(x + y =~= y);
        assert(cat(x) + cat(y) =~= cat(y));
    } else {
        lemma_cat_append(x.drop_first(), y);
        assert((x + y).drop_first() =~= x.drop_first() + y);
        assert(cat(x + y) =~= cat(x) + cat(y));
    }
}

pub proof fn lemma_cat_push(ws: Seq<Seq<u8>>, w: Seq<u8>)
    ensures
        cat(ws.push(w)) == cat(ws) + w,
{
    lemma_cat_append(ws, seq![w]);
    assert(ws.push(w) =~= ws + seq![w]);
    assert(seq![w].drop_first() =~= Seq::<Seq<u8>>::empty());
    assert(cat(seq![w].drop_first()) == Seq::<u8>::empty());
    assert(cat(seq![w]) =~= w);
    assert(cat(ws) + cat(seq![w]) =~= cat(ws) + w);
}

pub proof fn lemma_cat_words_len(ws: Seq<Seq<u8>>)
    requires
        all_words(ws),
    ensures
        cat(ws).len() == 32 * ws.len(),
    decreases ws.len(),
{
    if ws.len() > 0 {
        lemma_cat_words_len(ws.drop_first());
    }
}

/// The `k`-th word of a concatenation of words.
pub proof fn lemma_cat_words_index(ws: Seq<Seq<u8>>, k: int)
    requires
        all_words(ws),
        0 <= k < ws.len(),
    ensures
        cat(ws).subrange(32 * k, 32 * k + 32) == ws[k],
    decreases k,
{
    lemma_cat_words_len(ws);
    lemma_cat_words_len(ws.drop_first());
    if k == 0 {
        assert(cat(ws).subrange(0, 32) =~= ws[0]);
    } else {
        lemma_cat_words_index(ws.drop_first(), k - 1);
        assert(cat(ws).subrange(32 * k, 32 * k + 32) =~= cat(ws.drop_first()).subrange(
            32 * (k - 1),
            32 * (k - 1) + 32,
        ));
    }
}

pub proof fn lemma_cat1(w: Seq<u8>)
    ensures
        cat(seq![w]) == w,
{
    assert(seq![w].drop_first() =~= Seq::<Seq<u8>>::empty());
    assert(cat(seq![w].drop_first()) == Seq::<u8>::empty());
    assert(cat(seq![w]) =~= w);
}

pub proof fn lemma_cat4(a: Seq<u8>, b: Seq<u8>, c: Seq<u8>, d: Seq<u8>)
    ensures
        cat(seq![a, b, c, d]) == a + b + c + d,
{
    let ws = seq![a, b, c, d];
    assert(ws.drop_first() =~= seq![b, c, d]);
    assert(seq![b, c, d].drop_first() =~= seq![c, d]);
    assert(seq![c, d].drop_first() =~= seq![d]);
    lemma_cat1(d);
    assert(cat(seq![c, d]) == c + d);
    assert(cat(seq![b, c, d]) == b + (c + d));
    assert(cat(ws) == a + (b + (c + d)));
    assert(a + (b + (c + d)) =~= a + b + c + d);
}

/// A byte sequence that opens with `pre` and then carries the words of
/// `ws` one after another is, up to that point, exactly `pre + cat(ws)`.
pub proof fn lemma_words_reconstruct(b: Seq<u8>, pre: Seq<u8>, ws: Seq<Seq<u8>>)
    requires
        all_words(ws),
        0 <= pre.len(),
        pre.len() + 32 * ws.len() <= b.len(),
        b.subrange(0, pre.len() as int) == pre,
        forall|k: int|
            0 <= k < ws.len() ==> b.subrange(pre.len() + 32 * k, pre.len() + 32 * k + 32) == (
            #[trigger] ws[k]),
    ensures
        b.take(pre.len() + 32 * ws.len() as int) == pre + cat(ws),
    decreases ws.len(),
{
    if ws.len() == 0 {
        assert(b.take(pre.len() as int) =~= pre + cat(ws));
    } else {
        let pre2 = pre + ws[0];
        assert(b.subrange(pre.len() as int, pre.len() + 32 as int) == ws[0]);
        lemma_subrange_split(b, 0, pre.len() as int, pre.len() + 32 as int);
        assert(b.subrange(0, pre2.len() as int) =~= pre2);
        let wr = ws.drop_first();
        assert forall|k: int| 0 <= k < wr.len() implies b.subrange(
            pre2.len() + 32 * k,
            pre2.len() + 32 * k + 32,
        ) == (#[trigger] wr[k]) by {
            assert(b.subrange(pre.len() + 32 * (k + 1), pre.len() + 32 * (k + 1) + 32) == ws[k + 1]);
            assert(pre2.len() + 32 * k == pre.len() + 32 * (k + 1));
        }
        lemma_words_reconstruct(b, pre2, wr);
        assert(pre2 + cat(wr) =~= pre + cat(ws));
        assert(pre.len() + 32 * ws.len() as int == pre2.len() + 32 * wr.len() as int);
    }
}

/// A subrange entirely inside the left half of a concatenation.
pub proof fn lemma_subrange_left(p: Seq<u8>, q: Seq<u8>, x: int, y: int)
    requires
        0 <= x <= y <= p.len(),
    ensures
        (p + q).subrange(x, y) == p.subrange(x, y),
{
    assert((p + q).subrange(x, y) =~= p.subrange(x, y));
}

/// A subrange entirely inside the right half of a concatenation.
pub proof fn lemma_subrange_right(p: Seq<u8>, q: Seq<u8>, x: int, y: int)
    requires
        0 <= x <= y <= q.len(),
    ensures
        (p + q).subrange(p.len() + x, p.len() + y) == q.subrange(x, y),
{
    assert((p + q).subrange(p.len() + x, p.len() + y) =~= q.subrange(x, y));
}

/// Splitting one subrange at a midpoint.
pub proof fn lemma_subrange_split(s: Seq<u8>, x: int, m: int, y: int)
    requires
        0 <= x <= m <= y <= s.len(),
    ensures
        s.subrange(x, y) == s.subrange(x, m) + s.subrange(m, y),
{
    assert(s.subrange(x, y) =~= s.subrange(x, m) + s.subrange(m, y));
}

/// Appends the word of a 64-bit integer.
pub fn push_u64_word(out: &mut Vec<u8>, n: u64)
    ensures
        final(out)@ == old(out)@ + word_of_u64(n),
{
    let mut i: usize = 0;
    while i < 24
        invariant
            i <= 24,
            out@ == old(out)@ + zero_bytes(i as nat),
        decreases 24 - i,
    {
        out.push(0u8);
        i = i + 1;
        assert(out@ =~= old(out)@ + zero_bytes(i as nat));
    }
    out.push((n >> 56) as u8);
    out.push((n >> 48) as u8);
    out.push((n >> 40) as u8);
    out.push((n >> 32) as u8);
    out.push((n >> 24) as u8);
    out.push((n >> 16) as u8);
    out.push((n >> 8) as u8);
    out.push(n as u8);
    assert(out@ =~= old(out)@ + word_of_u64(n));
}

/// Appends the word of a 32-bit integer.
pub fn push_u32_word(out: &mut Vec<u8>, x: u32)
    ensures
        final(out)@ == old(out)@ + word_of_u32(x),
{
    let mut i: usize = 0;
    while i < 28
        invariant
            i <= 28,
            out@ == old(out)@ + zero_bytes(i as nat),
        decreases 28 - i,
    {
        out.push(0u8);
        i = i + 1;
        assert(out@ =~= old(out)@ + zero_bytes(i as nat));
    }
    out.push((x >> 24) as u8);
    out.push((x >> 16) as u8);
    out.push((x >> 8) as u8);
    out.push(x as u8);
    assert(out@ =~= old(out)@ + word_of_u32(x));
}

/// Appends the word of a 20-byte address.
pub fn push_addr_word(out: &mut Vec<u8>, a: &Vec<u8>)
    requires
        a@.len() == 20,
    ensures
        final(out)@ == old(out)@ + word_of_addr(a@),
{
    let mut i: usize = 0;
    while i < 12
        invariant
            i <= 12,
            out@ == old(out)@ + zero_bytes(i as nat),
        decreases 12 - i,
    {
        out.push(0u8);
        i = i + 1;
        assert(out@ =~= old(out)@ + zero_bytes(i as nat));
    }
    let mut j: usize = 0;
    while j < 20
        invariant
            j <= 20,
            a@.len() == 20,
            out@ == old(out)@ + zero_bytes(12) + a@.take(j as int),
        decreases 20 - j,
    {
        out.push(a[j]);
        j = j + 1;
        assert(out@ =~= old(out)@ + zero_bytes(12) + a@.take(j as int));
    }
    assert(a@.take(20) =~= a@);
    assert(out@ =~= old(out)@ + word_of_addr(a@));
}

/// Appends 32 raw bytes (a 256-bit integer already in wire form).
pub fn push_raw_word(out: &mut Vec<u8>, w: &Vec<u8>)
    requires
        w@.len() == 32,
    ensures
        final(out)@ == old(out)@ + w@,
{
    let mut j: usize = 0;
    while j < 32
        invariant
            j <= 32,
            w@.len() == 32,
            out@ == old(out)@ + w@.take(j as int),
        decreases 32 - j,
    {
        out.push(w[j]);
        j = j + 1;
        assert(out@ =~= old(out)@ + w@.take(j as int));
    }
    assert(w@.take(32) =~= w@);
}

/// Reads a word expected to hold a 64-bit integer; rejects one whose
/// padding bytes are not zero (an offset or length no real payload
/// could reach).
pub fn read_u64_word(data: &Vec<u8>, off: usize) -> (r: Option<u64>)
    requires
        off + 32 <= data@.len(),
    ensures
        match r {
            Some(n) => data@.subrange(off as int, off + 32) == word_of_u64(n),
            None => forall|m: u64| data@.subrange(off as int, off + 32) != word_of_u64(m),
        },
{
    let dlen: usize = data.len();
    assert(data@.len() <= usize::MAX);
    let mut i: usize = 0;
    while i < 24
        invariant
            i <= 24,
            off + 32 <= data@.len() <= usize::MAX,
            forall|k: int| 0 <= k < i ==> #[trigger] data@[off + k] == 0u8,
        decreases 24 - i,
    {
        if data[off + i] != 0u8 {
            proof {
                let w = data@.subrange(off as int, off + 32);
                assert forall|m: u64| w != word_of_u64(m) by {
                    assert(word_of_u64(m)[i as int] == 0u8);
                    assert(w[i as int] == data@[off + i]);
                }
            }
            return None;
        }
        i = i + 1;
    }
    let b0 = data[off + 24] as u64;
    let b1 = data[off + 25] as u64;
    let b2 = data[off + 26] as u64;
    let b3 = data[off + 27] as u64;
    let b4 = data[off + 28] as u64;
    let b5 = data[off + 29] as u64;
    let b6 = data[off + 30] as u64;
    let b7 = data[off + 31] as u64;
    let n: u64 = (b0 << 56) | (b1 << 48) | (b2 << 40) | (b3 << 32) | (b4 << 24) | (b5 << 16) | (b6
        << 8) | b7;
    proof {
        assert((n >> 56) as u8 == b0 as u8 && (n >> 48) as u8 == b1 as u8 && (n >> 40) as u8 == b2
            as u8 && (n >> 32) as u8 == b3 as u8 && (n >> 24) as u8 == b4 as u8 && (n >> 16) as u8
            == b5 as u8 && (n >> 8) as u8 == b6 as u8 && n as u8 == b7 as u8) by (bit_vector)
            requires
                b0 < 256 && b1 < 256 && b2 < 256 && b3 < 256 && b4 < 256 && b5 < 256 && b6 < 256
                    && b7 < 256,
                n == (b0 << 56) | (b1 << 48) | (b2 << 40) | (b3 << 32) | (b4 << 24) | (b5 << 16) | (
                b6 << 8) | b7,
        ;
        let w = data@.subrange(off as int, off + 32);
        assert forall|i: int| 0 <= i < 32 implies w[i] == word_of_u64(n)[i] by {
            assert(w[i] == data@[off + i]);
            if i < 24 {
                assert(word_of_u64(n)[i] == 0u8);
            } else {
                assert(word_of_u64(n)[i] == be_bytes_u64(n)[i - 24]);
            }
        }
        assert(w =~= word_of_u64(n));
    }
    Some(n)
}

/// Reads a word expected to hold a 32-bit integer; rejects one whose
/// padding bytes are not zero (a value outside the argument's type).
pub fn read_u32_word(data: &Vec<u8>, off: usize) -> (r: Option<u32>)
    requires
        off + 32 <= data@.len(),
    ensures
        match r {
            Some(x) => data@.subrange(off as int, off + 32) == word_of_u32(x),
            None => forall|m: u32| data@.subrange(off as int, off + 32) != word_of_u32(m),
        },
{
    let dlen: usize = data.len();
    assert(data@.len() <= usize::MAX);
    let mut i: usize = 0;
    while i < 28
        invariant
            i <= 28,
            off + 32 <= data@.len() <= usize::MAX,
            forall|k: int| 0 <= k < i ==> #[trigger] data@[off + k] == 0u8,
        decreases 28 - i,
    {
        if data[off + i] != 0u8 {
            proof {
                let w = data@.subrange(off as int, off + 32);
                assert forall|m: u32| w != word_of_u32(m) by {
                    assert(word_of_u32(m)[i as int] == 0u8);
                    assert(w[i as int] == data@[off + i]);
                }
            }
            return None;
        }
        i = i + 1;
    }
    let b0 = data[off + 28] as u32;
    let b1 = data[off + 29] as u32;
    let b2 = data[off + 30] as u32;
    let b3 = data[off + 31] as u32;
    let x: u32 = (b0 << 24) | (b1 << 16) | (b2 << 8) | b3;
    proof {
        assert((x >> 24) as u8 == b0 as u8 && (x >> 16) as u8 == b1 as u8 && (x >> 8) as u8 == b2
            as u8 && x as u8 == b3 as u8) by (bit_vector)
            requires
                b0 < 256 && b1 < 256 && b2 < 256 && b3 < 256,
                x == (b0 << 24) | (b1 << 16) | (b2 << 8) | b3,
        ;
        let w = data@.subrange(off as int, off + 32);
        assert forall|i: int| 0 <= i < 32 implies w[i] == word_of_u32(x)[i] by {
            assert(w[i] == data@[off + i]);
            if i < 28 {
                assert(word_of_u32(x)[i] == 0u8);
            } else {
                assert(word_of_u32(x)[i] == be_bytes_u32(x)[i - 28]);
            }
        }
        assert(w =~= word_of_u32(x));
    }
    Some(x)
}

/// Reads a word expected to hold an address; rejects one whose padding
/// bytes are not zero.
pub fn read_addr_word(data: &Vec<u8>, off: usize) -> (r: Option<Vec<u8>>)
    requires
        off + 32 <= data@.len(),
    ensures
        match r {
            Some(a) => a@.len() == 20 && data@.subrange(off as int, off + 32) == word_of_addr(a@),
            None => forall|s: Seq<u8>|
                s.len() == 20 ==> data@.subrange(off as int, off + 32) != word_of_addr(s),
        },
{
    let dlen: usize = data.len();
    assert(data@.len() <= usize::MAX);
    let mut i: usize = 0;
    while i < 12
        invariant
            i <= 12,
            off + 32 <= data@.len() <= usize::MAX,
            forall|k: int| 0 <= k < i ==> #[trigger] data@[off + k] == 0u8,
        decreases 12 - i,
    {
        if data[off + i] != 0u8 {
            proof {
                let w = data@.subrange(off as int, off + 32);
                assert forall|s: Seq<u8>| s.len() == 20 implies w != word_of_addr(s) by {
                    assert(word_of_addr(s)[i as int] == 0u8);
                    assert(w[i as int] == data@[off + i]);
                }
            }
            return None;
        }
        i = i + 1;
    }
    let mut a: Vec<u8> = Vec::new();
    let mut j: usize = 0;
    while j < 20
        invariant
            j <= 20,
            off + 32 <= data@.len() <= usize::MAX,
            a@ == data@.subrange(off + 12, off + 12 + j),
        decreases 20 - j,
    {
        a.push(data[off + 12 + j]);
        j = j + 1;
        assert(a@ =~= data@.subrange(off + 12, off + 12 + j));
    }
    proof {
        let w = data@.subrange(off as int, off + 32);
        assert forall|i: int| 0 <= i < 32 implies w[i] == word_of_addr(a@)[i] by {
            assert(w[i] == data@[off + i]);
            if i < 12 {
                assert(word_of_addr(a@)[i] == 0u8);
            } else {
                assert(word_of_addr(a@)[i] == a@[i - 12]);
                assert(a@[i - 12] == data@[off + i]);
            }
        }
        assert(w =~= word_of_addr(a@));
    }
    Some(a)
}

/// Reads 32 raw bytes (a 256-bit integer in wire form).
pub fn read_raw_word(data: &Vec<u8>, off: usize) -> (r: Vec<u8>)
    requires
        off + 32 <= data@.len(),
    ensures
        r@ == data@.subrange(off as int, off + 32),
{
    let dlen: usize = data.len();
    assert(data@.len() <= usize::MAX);
    let mut w: Vec<u8> = Vec::new();
    let mut j: usize = 0;
    while j < 32
        invariant
            j <= 32,
            off + 32 <= data@.len() <= usize::MAX,
            w@ == data@.subrange(off as int, off + j),
        decreases 32 - j,
    {
        w.push(data[off + j]);
        j = j + 1;
        assert(w@ =~= data@.subrange(off as int, off + j));
    }
    w
}

/// Whether `pre` is the first bytes of `data`, compared byte by byte.
pub fn starts_with(data: &Vec<u8>, pre: &Vec<u8>) -> (r: bool)
    ensures
        r == (pre@.len() <= data@.len() && data@.take(pre@.len() as int) == pre@),
{
    if pre.len() > data.len() {
        return false;
    }
    let mut i: usize = 0;
    while i < pre.len()
        invariant
            i <= pre@.len() <= data@.len(),
            forall|k: int| 0 <= k < i ==> data@[k] == pre@[k],
        decreases pre@.len() - i,
    {
        if data[i] != pre[i] {
            assert(data@.take(pre@.len() as int)[i as int] != pre@[i as int]);
            return false;
        }
        i = i + 1;
    }
    assert(data@.take(pre@.len() as int) =~= pre@);
    true
}

/// Whether two byte vectors hold the same bytes.
pub fn bytes_eq(a: &Vec<u8>, b: &Vec<u8>) -> (r: bool)
    ensures
        r == (a@ == b@),
{
    if a.len() != b.len() {
        return false;
    }
    let mut i: usize = 0;
    while i < a.len()
        invariant
            i <= a@.len(),
            a@.len() == b@.len(),
            forall|k: int| 0 <= k < i ==> a@[k] == b@[k],
        decreases a@.len() - i,
    {
        if a[i] != b[i] {
            return false;
        }
        i = i + 1;
    }
    assert(a@ =~= b@);
    true
}

} // verus!
