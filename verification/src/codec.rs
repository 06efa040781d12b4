//! The binary codec of the fixed split-main contract interface.
//!
//! Encoding lays arguments out in 32-byte words: first a four-byte
//! selector, then one word per static argument, with each dynamic array
//! placed in a tail (a length word followed by one word per element) whose
//! word offset stands in the argument's head slot. Decoding accepts
//! exactly the sequences the encoder produces; in lenient mode it also
//! tolerates trailing bytes after the encoded call, in strict mode it
//! rejects them.

use crate::keccak::{keccak256_of, selector, selector_of, signature_keccak};
use crate::types::{Address, Log, Uint256};
use crate::words::{
    all_words, cat, lemma_cat4, lemma_cat_append, lemma_cat_push, lemma_cat_words_index,
    lemma_cat_words_len, lemma_subrange_left, lemma_subrange_right,
    lemma_word_of_addr_injective, lemma_word_of_u32_injective, lemma_word_of_u64_injective,
    lemma_words_reconstruct, push_addr_word, push_u32_word, push_u64_word, read_addr_word,
    read_u32_word, read_u64_word, starts_with, word_of_addr, word_of_u32, word_of_u64,
    bytes_eq, push_raw_word,
};
use vstd::prelude::*;

verus! {

/// Why a payload failed to decode: it ended before the expected shape
/// could, its selector named another function, or its words do not form
/// an encoding of the expected argument types.
#[derive(Debug, PartialEq, Eq, Structural, Clone, Copy)]
pub enum DecodeError {
    TooShort,
    SelectorMismatch,
    BadPayload,
}

/// The signature string of the "create split" call.
pub open spec fn create_split_signature() -> Seq<char> {
    "createSplit(address[],uint32[],uint32,address)"@
}

/// The mathematical value of a decoded "create split" call.
pub ghost struct CreateSplitView {
    pub accounts: Seq<Seq<u8>>,
    pub percent_allocations: Seq<u32>,
    pub distributor_fee: u32,
    pub controller: Seq<u8>,
}

/// The arguments of one "create split" call: the participant addresses,
/// one allocation weight per participant, the distributor fee, and the
/// controller address of the new split.
#[derive(Debug, PartialEq, Eq, Clone)]
pub struct CreateSplitCall {
    pub accounts: Vec<Address>,
    pub percent_allocations: Vec<u32>,
    pub distributor_fee: u32,
    pub controller: Address,
}

impl View for CreateSplitCall {
    type V = CreateSplitView;

    open spec fn view(&self) -> CreateSplitView {
        CreateSplitView {
            accounts: self.accounts@.map_values(|a: Address| a@),
            percent_allocations: self.percent_allocations@,
            distributor_fee: self.distributor_fee,
            controller: self.controller@,
        }
    }
}

impl CreateSplitCall {
    pub open spec fn wf(&self) -> bool {
        create_split_wf(self@)
    }
}

/// A call the interface accepts: full addresses, one allocation per
/// participant (the interface pairs them element-wise), and a total
/// encoded size a byte buffer can hold.
pub open spec fn create_split_wf(c: CreateSplitView) -> bool {
    &&& c.controller.len() == 20
    &&& forall|i: int| 0 <= i < c.accounts.len() ==> (#[trigger] c.accounts[i]).len() == 20
    &&& c.accounts.len() == c.percent_allocations.len()
    &&& 196 + 32 * c.accounts.len() + 32 * c.percent_allocations.len() <= usize::MAX
}

/// The words of a dynamic address array: its length, then its elements.
pub open spec fn addr_array_words(xs: Seq<Seq<u8>>) -> Seq<Seq<u8>> {
    seq![word_of_u64(xs.len() as u64)] + xs.map_values(|a: Seq<u8>| word_of_addr(a))
}

/// The words of a dynamic uint32 array: its length, then its elements.
pub open spec fn u32_array_words(xs: Seq<u32>) -> Seq<Seq<u8>> {
    seq![word_of_u64(xs.len() as u64)] + xs.map_values(|x: u32| word_of_u32(x))
}

/// The words after the selector of a "create split" call: the two tail
/// offsets (the heads of the four arguments), the fee, the controller,
/// then the two array tails.
pub open spec fn create_split_words(c: CreateSplitView) -> Seq<Seq<u8>> {
    seq![
        word_of_u64(128u64),
        word_of_u64((160 + 32 * c.accounts.len()) as u64),
        word_of_u32(c.distributor_fee),
        word_of_addr(c.controller),
    ] + addr_array_words(c.accounts) + u32_array_words(c.percent_allocations)
}

/// The full encoding of a "create split" call.
pub open spec fn enc_create_split(c: CreateSplitView) -> Seq<u8> {
    selector_of(create_split_signature()) + cat(create_split_words(c))
}

/// Whether `b` carries the call `c`: in strict mode `b` is exactly its
/// encoding, in lenient mode `b` may continue past it.
pub open spec fn create_split_parses(b: Seq<u8>, c: CreateSplitView, strict: bool) -> bool {
    &&& create_split_wf(c)
    &&& if strict {
        b == enc_create_split(c)
    } else {
        enc_create_split(c).is_prefix_of(b)
    }
}

/// What decoding a "create split" payload yields: the unique call whose
/// encoding the payload carries, or the reason none does.
pub open spec fn dec_create_split(b: Seq<u8>, strict: bool) -> Result<
    CreateSplitView,
    DecodeError,
> {
    if b.len() < 4 {
        Err(DecodeError::TooShort)
    } else if b.subrange(0, 4) != selector_of(create_split_signature()) {
        Err(DecodeError::SelectorMismatch)
    } else if b.len() < 196 {
        Err(DecodeError::TooShort)
    } else if exists|c: CreateSplitView| create_split_parses(b, c, strict) {
        Ok(choose|c: CreateSplitView| create_split_parses(b, c, strict))
    } else {
        Err(DecodeError::BadPayload)
    }
}

/// The word list of a well-formed call, element by element.
pub proof fn lemma_create_split_words(c: CreateSplitView)
    requires
        create_split_wf(c),
    ensures
        all_words(create_split_words(c)),
        create_split_words(c).len() == 6 + c.accounts.len() + c.percent_allocations.len(),
        create_split_words(c)[0] == word_of_u64(128u64),
        create_split_words(c)[1] == word_of_u64((160 + 32 * c.accounts.len()) as u64),
        create_split_words(c)[2] == word_of_u32(c.distributor_fee),
        create_split_words(c)[3] == word_of_addr(c.controller),
        create_split_words(c)[4] == word_of_u64(c.accounts.len() as u64),
        forall|i: int|
            0 <= i < c.accounts.len() ==> create_split_words(c)[5 + i] == word_of_addr(
                #[trigger] c.accounts[i],
            ),
        create_split_words(c)[5 + c.accounts.len() as int] == word_of_u64(
            c.percent_allocations.len() as u64,
        ),
        forall|j: int|
            0 <= j < c.percent_allocations.len() ==> create_split_words(c)[6 + c.accounts.len()
                + j] == word_of_u32(#[trigger] c.percent_allocations[j]),
{
    let ws = create_split_words(c);
    let la = c.accounts.len() as int;
    let lp = c.percent_allocations.len() as int;
    assert(addr_array_words(c.accounts).len() == 1 + la);
    assert(u32_array_words(c.percent_allocations).len() == 1 + lp);
    assert(ws.len() == 6 + la + lp);
    assert(ws[4] == addr_array_words(c.accounts)[0]);
    assert forall|i: int| 0 <= i < la implies ws[5 + i] == word_of_addr(
        #[trigger] c.accounts[i],
    ) by {
        assert(ws[5 + i] == addr_array_words(c.accounts)[1 + i]);
        assert(addr_array_words(c.accounts)[1 + i] == c.accounts.map_values(
            |a: Seq<u8>| word_of_addr(a),
        )[i]);
    }
    assert(ws[5 + la] == u32_array_words(c.percent_allocations)[0]);
    assert forall|j: int| 0 <= j < lp implies ws[6 + la + j] == word_of_u32(
        #[trigger] c.percent_allocations[j],
    ) by {
        assert(ws[6 + la + j] == u32_array_words(c.percent_allocations)[1 + j]);
        assert(u32_array_words(c.percent_allocations)[1 + j] == c.percent_allocations.map_values(
            |x: u32| word_of_u32(x),
        )[j]);
    }
    assert forall|k: int| 0 <= k < ws.len() implies (#[trigger] ws[k]).len() == 32 by {
        if 5 <= k < 5 + la {
            assert(ws[k] == word_of_addr(c.accounts[k - 5]));
            assert(c.accounts[k - 5].len() == 20);
        } else if 6 + la <= k {
            assert(ws[k] == word_of_u32(c.percent_allocations[k - 6 - la]));
        }
    }
}

/// The byte length of an encoded call, and where its selector lies.
pub proof fn lemma_create_split_len(c: CreateSplitView)
    requires
        create_split_wf(c),
    ensures
        enc_create_split(c).len() == 196 + 32 * c.accounts.len() + 32
            * c.percent_allocations.len(),
        enc_create_split(c).subrange(0, 4) == selector_of(create_split_signature()),
{
    lemma_create_split_words(c);
    lemma_cat_words_len(create_split_words(c));
    lemma_subrange_left(
        selector_of(create_split_signature()),
        cat(create_split_words(c)),
        0,
        4,
    );
    assert(selector_of(create_split_signature()).subrange(0, 4) =~= selector_of(
        create_split_signature(),
    ));
}

/// The `k`-th word of an encoded call, as bytes `4 + 32k .. 36 + 32k`.
pub proof fn lemma_create_split_word_at(c: CreateSplitView, k: int)
    requires
        create_split_wf(c),
        0 <= k < 6 + c.accounts.len() + c.percent_allocations.len(),
    ensures
        enc_create_split(c).subrange(4 + 32 * k, 36 + 32 * k) == create_split_words(c)[k],
{
    lemma_create_split_words(c);
    lemma_cat_words_len(create_split_words(c));
    lemma_subrange_right(
        selector_of(create_split_signature()),
        cat(create_split_words(c)),
        32 * k,
        32 * k + 32,
    );
    lemma_cat_words_index(create_split_words(c), k);
}

/// A prefix of `b` agrees with `b` wherever both are defined.
proof fn lemma_prefix_subrange(b: Seq<u8>, p: Seq<u8>, x: int, y: int)
    requires
        p.is_prefix_of(b),
        0 <= x <= y <= p.len(),
    ensures
        b.subrange(x, y) == p.subrange(x, y),
{
    assert(b.subrange(x, y) =~= p.subrange(x, y));
}

/// At most one call parses out of any payload: the wire shape pins the
/// array lengths, and with them every word of the encoding.
pub proof fn lemma_create_split_parses_unique(
    b: Seq<u8>,
    c1: CreateSplitView,
    c2: CreateSplitView,
    strict: bool,
)
    requires
        create_split_parses(b, c1, strict),
        create_split_parses(b, c2, strict),
    ensures
        c1 == c2,
{
    let e1 = enc_create_split(c1);
    let e2 = enc_create_split(c2);
    lemma_create_split_words(c1);
    lemma_create_split_words(c2);
    lemma_create_split_len(c1);
    lemma_create_split_len(c2);
    assert(e1.is_prefix_of(b) && e2.is_prefix_of(b)) by {
        if strict {
            assert(e1 =~= b.subrange(0, e1.len() as int));
            assert(e2 =~= b.subrange(0, e2.len() as int));
        }
    }
    let la1 = c1.accounts.len() as int;
    let la2 = c2.accounts.len() as int;
    // The accounts-length words of both encodings occupy the same bytes of b.
    lemma_create_split_word_at(c1, 4);
    lemma_create_split_word_at(c2, 4);
    lemma_prefix_subrange(b, e1, 4 + 32 * 4int, 36 + 32 * 4int);
    lemma_prefix_subrange(b, e2, 4 + 32 * 4int, 36 + 32 * 4int);
    lemma_word_of_u64_injective(c1.accounts.len() as u64, c2.accounts.len() as u64);
    assert(la1 == la2);
    // So do the allocation-length words.
    lemma_create_split_word_at(c1, 5 + la1);
    lemma_create_split_word_at(c2, 5 + la2);
    lemma_prefix_subrange(b, e1, 4 + 32 * (5 + la1), 36 + 32 * (5 + la1));
    lemma_prefix_subrange(b, e2, 4 + 32 * (5 + la1), 36 + 32 * (5 + la1));
    lemma_word_of_u64_injective(
        c1.percent_allocations.len() as u64,
        c2.percent_allocations.len() as u64,
    );
    let lp1 = c1.percent_allocations.len() as int;
    assert(c2.percent_allocations.len() as int == lp1);
    // Equal lengths make the two encodings the same bytes of b.
    assert(e1 =~= e2);
    // Equal encodings pin every field.
    assert(create_split_words(c1)[2] == create_split_words(c2)[2]) by {
        lemma_create_split_word_at(c1, 2);
        lemma_create_split_word_at(c2, 2);
    }
    lemma_word_of_u32_injective(c1.distributor_fee, c2.distributor_fee);
    assert(create_split_words(c1)[3] == create_split_words(c2)[3]) by {
        lemma_create_split_word_at(c1, 3);
        lemma_create_split_word_at(c2, 3);
    }
    lemma_word_of_addr_injective(c1.controller, c2.controller);
    assert forall|i: int| 0 <= i < la1 implies c1.accounts[i] == c2.accounts[i] by {
        lemma_create_split_word_at(c1, 5 + i);
        lemma_create_split_word_at(c2, 5 + i);
        lemma_word_of_addr_injective(c1.accounts[i], c2.accounts[i]);
    }
    assert(c1.accounts =~= c2.accounts);
    assert forall|j: int| 0 <= j < lp1 implies c1.percent_allocations[j]
        == c2.percent_allocations[j] by {
        lemma_create_split_word_at(c1, 6 + la1 + j);
        lemma_create_split_word_at(c2, 6 + la1 + j);
        lemma_word_of_u32_injective(c1.percent_allocations[j], c2.percent_allocations[j]);
    }
    assert(c1.percent_allocations =~= c2.percent_allocations);
}

/// Round trip: decoding what the encoder wrote yields the original call,
/// in either mode, for every well-formed call.
pub proof fn lemma_create_split_round_trip(c: CreateSplitView, strict: bool)
    requires
        create_split_wf(c),
    ensures
        dec_create_split(enc_create_split(c), strict) == Ok::<CreateSplitView, DecodeError>(c),
{
    let b = enc_create_split(c);
    lemma_create_split_len(c);
    assert(b.len() >= 196);
    assert(b.subrange(0, 4) == selector_of(create_split_signature()));
    assert(b.is_prefix_of(b)) by {
        assert(b =~= b.subrange(0, b.len() as int));
    }
    assert(create_split_parses(b, c, strict));
    let c2 = choose|c2: CreateSplitView| create_split_parses(b, c2, strict);
    lemma_create_split_parses_unique(b, c, c2, strict);
}

/// Appends a dynamic address array: its length word, then its elements.
fn push_addr_array(out: &mut Vec<u8>, xs: &Vec<Address>)
    requires
        forall|i: int| 0 <= i < xs@.len() ==> (#[trigger] xs@[i])@.len() == 20,
    ensures
        final(out)@ == old(out)@ + cat(addr_array_words(xs@.map_values(|a: Address| a@))),
{
    let ghost vs = xs@.map_values(|a: Address| a@);
    push_u64_word(out, xs.len() as u64);
    let mut i: usize = 0;
    while i < xs.len()
        invariant
            i <= xs@.len(),
            vs == xs@.map_values(|a: Address| a@),
            forall|k: int| 0 <= k < xs@.len() ==> (#[trigger] xs@[k])@.len() == 20,
            out@ == old(out)@ + word_of_u64(xs@.len() as u64) + cat(
                vs.take(i as int).map_values(|a: Seq<u8>| word_of_addr(a)),
            ),
        decreases xs@.len() - i,
    {
        push_addr_word(out, &xs[i].bytes);
        proof {
            let prev = vs.take(i as int).map_values(|a: Seq<u8>| word_of_addr(a));
            lemma_cat_push(prev, word_of_addr(vs[i as int]));
            assert(vs.take(i + 1).map_values(|a: Seq<u8>| word_of_addr(a)) =~= prev.push(
                word_of_addr(vs[i as int]),
            ));
        }
        i = i + 1;
    }
    proof {
        assert(vs.take(vs.len() as int) =~= vs);
        lemma_cat_append(
            seq![word_of_u64(vs.len() as u64)],
            vs.map_values(|a: Seq<u8>| word_of_addr(a)),
        );
        crate::words::lemma_cat1(word_of_u64(vs.len() as u64));
        assert(addr_array_words(vs) =~= seq![word_of_u64(vs.len() as u64)] + vs.map_values(
            |a: Seq<u8>| word_of_addr(a),
        ));
        assert(out@ =~= old(out)@ + cat(addr_array_words(vs)));
    }
}

/// Appends a dynamic uint32 array: its length word, then its elements.
fn push_u32_array(out: &mut Vec<u8>, xs: &Vec<u32>)
    ensures
        final(out)@ == old(out)@ + cat(u32_array_words(xs@)),
{
    push_u64_word(out, xs.len() as u64);
    let mut i: usize = 0;
    while i < xs.len()
        invariant
            i <= xs@.len(),
            out@ == old(out)@ + word_of_u64(xs@.len() as u64) + cat(
                xs@.take(i as int).map_values(|x: u32| word_of_u32(x)),
            ),
        decreases xs@.len() - i,
    {
        push_u32_word(out, xs[i]);
        proof {
            let prev = xs@.take(i as int).map_values(|x: u32| word_of_u32(x));
            lemma_cat_push(prev, word_of_u32(xs@[i as int]));
            assert(xs@.take(i + 1).map_values(|x: u32| word_of_u32(x)) =~= prev.push(
                word_of_u32(xs@[i as int]),
            ));
        }
        i = i + 1;
    }
    proof {
        assert(xs@.take(xs@.len() as int) =~= xs@);
        lemma_cat_append(
            seq![word_of_u64(xs@.len() as u64)],
            xs@.map_values(|x: u32| word_of_u32(x)),
        );
        crate::words::lemma_cat1(word_of_u64(xs@.len() as u64));
        assert(u32_array_words(xs@) =~= seq![word_of_u64(xs@.len() as u64)] + xs@.map_values(
            |x: u32| word_of_u32(x),
        ));
        assert(out@ =~= old(out)@ + cat(u32_array_words(xs@)));
    }
}

/// Encodes a "create split" call. Encoding never fails for a
/// well-formed call.
pub fn encode_create_split_call(c: &CreateSplitCall) -> (r: Vec<u8>)
    requires
        c.wf(),
    ensures
        r@ == enc_create_split(c@),
{
    let la = c.accounts.len();
    let mut r = selector("createSplit(address[],uint32[],uint32,address)");
    push_u64_word(&mut r, 128u64);
    let ofs: u64 = 160u64 + 32u64 * (la as u64);
    push_u64_word(&mut r, ofs);
    push_u32_word(&mut r, c.distributor_fee);
    push_addr_word(&mut r, &c.controller.bytes);
    proof {
        assert forall|i: int| 0 <= i < c.accounts@.len() implies (#[trigger] c.accounts@[i])@.len()
            == 20 by {
            assert(c@.accounts[i] == c.accounts@[i]@);
        }
    }
    push_addr_array(&mut r, &c.accounts);
    push_u32_array(&mut r, &c.percent_allocations);
    proof {
        let cv = c@;
        let w0 = word_of_u64(128u64);
        let w1 = word_of_u64(ofs);
        let w2 = word_of_u32(cv.distributor_fee);
        let w3 = word_of_addr(cv.controller);
        assert(ofs == (160 + 32 * cv.accounts.len()) as u64);
        lemma_cat4(w0, w1, w2, w3);
        lemma_cat_append(seq![w0, w1, w2, w3], addr_array_words(cv.accounts));
        lemma_cat_append(
            seq![w0, w1, w2, w3] + addr_array_words(cv.accounts),
            u32_array_words(cv.percent_allocations),
        );
        assert(create_split_words(cv) =~= (seq![w0, w1, w2, w3] + addr_array_words(cv.accounts))
            + u32_array_words(cv.percent_allocations));
        assert(r@ =~= enc_create_split(cv));
    }
    r
}

/// Everything a parse of `b` pins down before its words are examined.
proof fn lemma_parses_facts(b: Seq<u8>, c: CreateSplitView, strict: bool)
    requires
        create_split_parses(b, c, strict),
    ensures
        create_split_wf(c),
        enc_create_split(c).is_prefix_of(b),
        enc_create_split(c).len() == 196 + 32 * c.accounts.len() + 32
            * c.percent_allocations.len(),
        b.len() >= 196 + 32 * c.accounts.len() + 32 * c.percent_allocations.len(),
        b.subrange(0, 4) == selector_of(create_split_signature()),
{
    lemma_create_split_len(c);
    if strict {
        assert(enc_create_split(c) =~= b.subrange(0, enc_create_split(c).len() as int));
    }
    lemma_prefix_subrange(b, enc_create_split(c), 0, 4);
}

/// The bytes of `b` that carry the `k`-th word of the parsed call.
proof fn lemma_parses_word(b: Seq<u8>, c: CreateSplitView, strict: bool, k: int)
    requires
        create_split_parses(b, c, strict),
        0 <= k < 6 + c.accounts.len() + c.percent_allocations.len(),
    ensures
        b.subrange(4 + 32 * k, 36 + 32 * k) == create_split_words(c)[k],
{
    lemma_parses_facts(b, c, strict);
    lemma_create_split_word_at(c, k);
    lemma_prefix_subrange(b, enc_create_split(c), 4 + 32 * k, 36 + 32 * k);
}

/// The parsed call's participant count, recovered from its length word.
proof fn lemma_parses_accounts_len(b: Seq<u8>, c: CreateSplitView, strict: bool, la64: u64)
    requires
        create_split_parses(b, c, strict),
        b.subrange(132, 164) == word_of_u64(la64),
    ensures
        c.accounts.len() == la64,
{
    lemma_parses_facts(b, c, strict);
    lemma_create_split_words(c);
    lemma_parses_word(b, c, strict, 4);
    lemma_word_of_u64_injective(la64, c.accounts.len() as u64);
}

/// Decodes a "create split" payload: the selector, the two offset words,
/// the fee and controller words, then the two array tails. Returns the
/// unique call the payload encodes, or why it encodes none.
#[verifier::rlimit(60)]
pub fn decode_create_split_call(data: &Vec<u8>, strict: bool) -> (r: Result<
    CreateSplitCall,
    DecodeError,
>)
    ensures
        match r {
            Ok(c) => c.wf() && dec_create_split(data@, strict) == Ok::<
                CreateSplitView,
                DecodeError,
            >(c@),
            Err(e) => dec_create_split(data@, strict) == Err::<CreateSplitView, DecodeError>(e),
        },
{
    let dlen: usize = data.len();
    if dlen < 4 {
        return Err(DecodeError::TooShort);
    }
    let sel = selector("createSplit(address[],uint32[],uint32,address)");
    if !starts_with(data, &sel) {
        proof {
            assert(data@.subrange(0, 4) =~= data@.take(4));
        }
        return Err(DecodeError::SelectorMismatch);
    }
    proof {
        assert(data@.subrange(0, 4) =~= data@.take(4));
    }
    if dlen < 196 {
        return Err(DecodeError::TooShort);
    }
    // The accounts tail always begins right after the four head words.
    let ofs_a = match read_u64_word(data, 4) {
        Some(v) => v,
        None => {
            proof {
                assert forall|c: CreateSplitView| !create_split_parses(data@, c, strict) by {
                    if create_split_parses(data@, c, strict) {
                        lemma_create_split_words(c);
                        lemma_parses_word(data@, c, strict, 0);
                    }
                }
            }
            return Err(DecodeError::BadPayload);
        },
    };
    if ofs_a != 128 {
        proof {
            assert forall|c: CreateSplitView| !create_split_parses(data@, c, strict) by {
                if create_split_parses(data@, c, strict) {
                    lemma_create_split_words(c);
                    lemma_parses_word(data@, c, strict, 0);
                    lemma_word_of_u64_injective(ofs_a, 128u64);
                }
            }
        }
        return Err(DecodeError::BadPayload);
    }
    let ofs_p = match read_u64_word(data, 36) {
        Some(v) => v,
        None => {
            proof {
                assert forall|c: CreateSplitView| !create_split_parses(data@, c, strict) by {
                    if create_split_parses(data@, c, strict) {
                        lemma_create_split_words(c);
                        lemma_parses_word(data@, c, strict, 1);
                    }
                }
            }
            return Err(DecodeError::BadPayload);
        },
    };
    let fee = match read_u32_word(data, 68) {
        Some(v) => v,
        None => {
            proof {
                assert forall|c: CreateSplitView| !create_split_parses(data@, c, strict) by {
                    if create_split_parses(data@, c, strict) {
                        lemma_create_split_words(c);
                        lemma_parses_word(data@, c, strict, 2);
                    }
                }
            }
            return Err(DecodeError::BadPayload);
        },
    };
    let ctrl_bytes = match read_addr_word(data, 100) {
        Some(v) => v,
        None => {
            proof {
                assert forall|c: CreateSplitView| !create_split_parses(data@, c, strict) by {
                    if create_split_parses(data@, c, strict) {
                        lemma_create_split_words(c);
                        lemma_parses_word(data@, c, strict, 3);
                    }
                }
            }
            return Err(DecodeError::BadPayload);
        },
    };
    let la64 = match read_u64_word(data, 132) {
        Some(v) => v,
        None => {
            proof {
                assert forall|c: CreateSplitView| !create_split_parses(data@, c, strict) by {
                    if create_split_parses(data@, c, strict) {
                        lemma_create_split_words(c);
                        lemma_parses_word(data@, c, strict, 4);
                    }
                }
            }
            return Err(DecodeError::BadPayload);
        },
    };
    let max_la: usize = (dlen - 196) / 32;
    if la64 > max_la as u64 {
        proof {
            assert forall|c: CreateSplitView| !create_split_parses(data@, c, strict) by {
                if create_split_parses(data@, c, strict) {
                    lemma_parses_facts(data@, c, strict);
                    lemma_parses_accounts_len(data@, c, strict, la64);
                    assert(c.accounts.len() <= max_la as int) by (nonlinear_arith)
                        requires
                            32 * c.accounts.len() <= dlen - 196,
                            max_la == (dlen - 196) as int / 32,
                            dlen >= 196,
                    ;
                }
            }
        }
        return Err(DecodeError::BadPayload);
    }
    let la: usize = la64 as usize;
    proof {
        assert(32 * la <= dlen - 196) by (nonlinear_arith)
            requires
                la <= (dlen - 196) as int / 32,
                dlen >= 196,
        ;
    }
    let expected_ofs: u64 = 160u64 + 32u64 * la64;
    if ofs_p != expected_ofs {
        proof {
            assert forall|c: CreateSplitView| !create_split_parses(data@, c, strict) by {
                if create_split_parses(data@, c, strict) {
                    lemma_create_split_words(c);
                    lemma_parses_accounts_len(data@, c, strict, la64);
                    lemma_parses_word(data@, c, strict, 1);
                    lemma_word_of_u64_injective(ofs_p, (160 + 32 * c.accounts.len()) as u64);
                }
            }
        }
        return Err(DecodeError::BadPayload);
    }
    let mut accounts: Vec<Address> = Vec::new();
    let mut i: usize = 0;
    while i < la
        invariant
            i <= la,
            196 + 32 * la <= dlen,
            dlen == data@.len(),
            la == la64,
            strict == strict,
            accounts@.len() == i,
            forall|k: int|
                0 <= k < i ==> (#[trigger] accounts@[k])@.len() == 20 && data@.subrange(
                    164 + 32 * k,
                    196 + 32 * k,
                ) == word_of_addr(accounts@[k]@),
            data@.subrange(132, 164) == word_of_u64(la64),
            data@.subrange(0, 4) == selector_of(create_split_signature()),
        decreases la - i,
    {
        match read_addr_word(data, 164 + 32 * i) {
            Some(ab) => {
                accounts.push(Address::new(ab));
            },
            None => {
                proof {
                    assert forall|c: CreateSplitView| !create_split_parses(data@, c, strict) by {
                        if create_split_parses(data@, c, strict) {
                            lemma_create_split_words(c);
                            lemma_parses_accounts_len(data@, c, strict, la64);
                            lemma_parses_word(data@, c, strict, 5 + i);
                            assert(data@.subrange(164 + 32 * i, 196 + 32 * i) == word_of_addr(
                                c.accounts[i as int],
                            ));
                        }
                    }
                }
                return Err(DecodeError::BadPayload);
            },
        }
        i = i + 1;
    }
    let lp_off: usize = 164 + 32 * la;
    let lp64 = match read_u64_word(data, lp_off) {
        Some(v) => v,
        None => {
            proof {
                assert forall|c: CreateSplitView| !create_split_parses(data@, c, strict) by {
                    if create_split_parses(data@, c, strict) {
                        lemma_create_split_words(c);
                        lemma_parses_accounts_len(data@, c, strict, la64);
                        lemma_parses_word(data@, c, strict, 5 + la as int);
                    }
                }
            }
            return Err(DecodeError::BadPayload);
        },
    };
    if lp64 != la64 {
        // The interface pairs one allocation with each participant.
        proof {
            assert forall|c: CreateSplitView| !create_split_parses(data@, c, strict) by {
                if create_split_parses(data@, c, strict) {
                    lemma_create_split_words(c);
                    lemma_parses_accounts_len(data@, c, strict, la64);
                    lemma_parses_word(data@, c, strict, 5 + la as int);
                    lemma_word_of_u64_injective(lp64, c.percent_allocations.len() as u64);
                }
            }
        }
        return Err(DecodeError::BadPayload);
    }
    let lp: usize = la;
    if 196 + 32 * la > dlen - 32 * lp {
        // Not enough bytes are left for the allocation elements.
        proof {
            assert forall|c: CreateSplitView| !create_split_parses(data@, c, strict) by {
                if create_split_parses(data@, c, strict) {
                    lemma_parses_facts(data@, c, strict);
                    lemma_create_split_words(c);
                    lemma_parses_accounts_len(data@, c, strict, la64);
                    lemma_parses_word(data@, c, strict, 5 + la as int);
                    lemma_word_of_u64_injective(lp64, c.percent_allocations.len() as u64);
                }
            }
        }
        return Err(DecodeError::BadPayload);
    }
    let mut allocations: Vec<u32> = Vec::new();
    let mut j: usize = 0;
    while j < lp
        invariant
            j <= lp,
            lp == la,
            la == la64,
            lp64 == la64,
            196 + 32 * la + 32 * lp <= dlen,
            dlen == data@.len(),
            allocations@.len() == j,
            forall|k: int|
                0 <= k < j ==> data@.subrange(
                    196 + 32 * la + 32 * k,
                    228 + 32 * la + 32 * k,
                ) == word_of_u32(#[trigger] allocations@[k]),
            data@.subrange(132, 164) == word_of_u64(la64),
            data@.subrange(0, 4) == selector_of(create_split_signature()),
        decreases lp - j,
    {
        match read_u32_word(data, 196 + 32 * la + 32 * j) {
            Some(x) => {
                allocations.push(x);
            },
            None => {
                proof {
                    assert forall|c: CreateSplitView| !create_split_parses(data@, c, strict) by {
                        if create_split_parses(data@, c, strict) {
                            lemma_create_split_words(c);
                            lemma_parses_accounts_len(data@, c, strict, la64);
                            lemma_parses_word(data@, c, strict, 6 + la as int + j);
                            assert(data@.subrange(
                                196 + 32 * la + 32 * j,
                                228 + 32 * la + 32 * j,
                            ) == word_of_u32(c.percent_allocations[j as int]));
                        }
                    }
                }
                return Err(DecodeError::BadPayload);
            },
        }
        j = j + 1;
    }
    let end: usize = 196 + 32 * la + 32 * lp;
    if strict && dlen != end {
        proof {
            assert forall|c: CreateSplitView| !create_split_parses(data@, c, strict) by {
                if create_split_parses(data@, c, strict) {
                    lemma_parses_facts(data@, c, strict);
                    lemma_create_split_words(c);
                    lemma_parses_accounts_len(data@, c, strict, la64);
                    lemma_parses_word(data@, c, strict, 5 + la as int);
                    lemma_word_of_u64_injective(lp64, c.percent_allocations.len() as u64);
                }
            }
        }
        return Err(DecodeError::BadPayload);
    }
    let c = CreateSplitCall {
        accounts,
        percent_allocations: allocations,
        distributor_fee: fee,
        controller: Address::new(ctrl_bytes),
    };
    proof {
        let cv = c@;
        assert(cv.accounts.len() == la && cv.percent_allocations.len() == lp);
        assert forall|k: int| 0 <= k < cv.accounts.len() implies (#[trigger] cv.accounts[k]).len()
            == 20 by {
            assert(cv.accounts[k] == c.accounts@[k]@);
        }
        assert(create_split_wf(cv));
        lemma_create_split_words(cv);
        let ws = create_split_words(cv);
        assert forall|k: int| 0 <= k < ws.len() implies data@.subrange(4 + 32 * k, 36 + 32 * k)
            == (#[trigger] ws[k]) by {
            if k == 0 {
                assert(ws[0] == word_of_u64(128u64));
            } else if k == 1 {
                assert(ws[1] == word_of_u64((160 + 32 * cv.accounts.len()) as u64));
                assert(ofs_p == (160 + 32 * cv.accounts.len()) as u64);
            } else if k == 2 {
                assert(ws[2] == word_of_u32(fee));
            } else if k == 3 {
                assert(ws[3] == word_of_addr(cv.controller));
                assert(cv.controller == ctrl_bytes@);
            } else if k == 4 {
                assert(ws[4] == word_of_u64(cv.accounts.len() as u64));
                assert(cv.accounts.len() as u64 == la64);
            } else if k < 5 + la {
                let ii = k - 5;
                assert(ws[k] == word_of_addr(cv.accounts[ii]));
                assert(cv.accounts[ii] == c.accounts@[ii]@);
                assert(data@.subrange(164 + 32 * ii, 196 + 32 * ii) == word_of_addr(
                    c.accounts@[ii]@,
                ));
                assert(4 + 32 * k == 164 + 32 * ii);
            } else if k == 5 + la {
                assert(ws[k] == word_of_u64(cv.percent_allocations.len() as u64));
                assert(cv.percent_allocations.len() as u64 == lp64);
                assert(4 + 32 * k == lp_off as int);
            } else {
                let jj = k - 6 - la;
                assert(ws[k] == word_of_u32(cv.percent_allocations[jj]));
                assert(cv.percent_allocations[jj] == allocations@[jj]);
                assert(data@.subrange(
                    196 + 32 * la + 32 * jj,
                    228 + 32 * la + 32 * jj,
                ) == word_of_u32(allocations@[jj]));
                assert(4 + 32 * k == 196 + 32 * la + 32 * jj);
            }
        }
        lemma_words_reconstruct(data@, selector_of(create_split_signature()), ws);
        assert(data@.take(end as int) == enc_create_split(cv));
        if strict {
            assert(data@ =~= data@.take(end as int));
        } else {
            assert(enc_create_split(cv).is_prefix_of(data@)) by {
                assert(enc_create_split(cv) =~= data@.subrange(
                    0,
                    enc_create_split(cv).len() as int,
                ));
            }
        }
        assert(create_split_parses(data@, cv, strict));
        let cw = choose|x: CreateSplitView| create_split_parses(data@, x, strict);
        lemma_create_split_parses_unique(data@, cv, cw, strict);
    }
    Ok(c)
}

/// The signature string of the "split created" event.
pub open spec fn create_split_event_signature() -> Seq<char> {
    "CreateSplit(address)"@
}

/// Whether an event occurrence carries the creation of `split`: its first
/// topic is the event's digest, its second the new split's address, and
/// in strict mode no payload bytes follow (the event indexes its only
/// argument).
pub open spec fn event_parses(
    topics: Seq<Seq<u8>>,
    data: Seq<u8>,
    split: Seq<u8>,
    strict: bool,
) -> bool {
    &&& split.len() == 20
    &&& topics.len() == 2
    &&& topics[0] == keccak256_of(create_split_event_signature())
    &&& topics[1] == word_of_addr(split)
    &&& (strict ==> data.len() == 0)
}

/// What decoding a log as a "split created" event yields: the unique
/// address its topics carry, or the reason they carry none.
pub open spec fn dec_create_split_event(
    topics: Seq<Seq<u8>>,
    data: Seq<u8>,
    strict: bool,
) -> Result<Seq<u8>, DecodeError> {
    if topics.len() != 2 {
        Err(DecodeError::TooShort)
    } else if topics[0] != keccak256_of(create_split_event_signature()) {
        Err(DecodeError::SelectorMismatch)
    } else if exists|s: Seq<u8>| event_parses(topics, data, s, strict) {
        Ok(choose|s: Seq<u8>| event_parses(topics, data, s, strict))
    } else {
        Err(DecodeError::BadPayload)
    }
}

/// Decodes a log as the "split created" event of this contract.
pub fn decode_create_split_event(log: &Log, strict: bool) -> (r: Result<Address, DecodeError>)
    ensures
        match r {
            Ok(a) => a.wf() && dec_create_split_event(log@.topics, log@.data, strict) == Ok::<
                Seq<u8>,
                DecodeError,
            >(a@),
            Err(e) => dec_create_split_event(log@.topics, log@.data, strict) == Err::<
                Seq<u8>,
                DecodeError,
            >(e),
        },
{
    if log.topics.len() != 2 {
        return Err(DecodeError::TooShort);
    }
    let topic0 = signature_keccak("CreateSplit(address)");
    if !bytes_eq(&log.topics[0], &topic0) {
        proof {
            assert(log@.topics[0] == log.topics@[0]@);
        }
        return Err(DecodeError::SelectorMismatch);
    }
    proof {
        assert(log@.topics[0] == log.topics@[0]@);
    }
    if strict && log.data.len() != 0 {
        proof {
            assert forall|s: Seq<u8>| !event_parses(log@.topics, log@.data, s, strict) by {}
        }
        return Err(DecodeError::BadPayload);
    }
    let t1 = &log.topics[1];
    if t1.len() != 32 {
        proof {
            assert forall|s: Seq<u8>| !event_parses(log@.topics, log@.data, s, strict) by {
                if event_parses(log@.topics, log@.data, s, strict) {
                    assert(log@.topics[1] == t1@);
                    assert(word_of_addr(s).len() == 32);
                }
            }
        }
        return Err(DecodeError::BadPayload);
    }
    match read_addr_word(t1, 0) {
        Some(ab) => {
            proof {
                assert(t1@.subrange(0, 32) =~= t1@);
                assert(log@.topics[1] == t1@);
                let av = ab@;
                assert(event_parses(log@.topics, log@.data, av, strict));
                let sw = choose|s: Seq<u8>| event_parses(log@.topics, log@.data, s, strict);
                lemma_word_of_addr_injective(av, sw);
            }
            Ok(Address::new(ab))
        },
        None => {
            proof {
                assert(t1@.subrange(0, 32) =~= t1@);
                assert forall|s: Seq<u8>| !event_parses(log@.topics, log@.data, s, strict) by {
                    if event_parses(log@.topics, log@.data, s, strict) {
                        assert(log@.topics[1] == t1@);
                    }
                }
            }
            return Err(DecodeError::BadPayload);
        },
    }
}

/// The signature string of the token balance query.
pub open spec fn erc20_balance_signature() -> Seq<char> {
    "getERC20Balance(address,address)"@
}

/// The signature string of the native balance query.
pub open spec fn eth_balance_signature() -> Seq<char> {
    "getETHBalance(address)"@
}

/// The encoding of a token balance query.
pub open spec fn enc_erc20_balance(account: Seq<u8>, token: Seq<u8>) -> Seq<u8> {
    selector_of(erc20_balance_signature()) + word_of_addr(account) + word_of_addr(token)
}

/// The encoding of a native balance query.
pub open spec fn enc_eth_balance(account: Seq<u8>) -> Seq<u8> {
    selector_of(eth_balance_signature()) + word_of_addr(account)
}

/// Encodes a token balance query. Encoding never fails.
pub fn encode_erc20_balance_call(account: &Address, token: &Address) -> (r: Vec<u8>)
    requires
        account.wf(),
        token.wf(),
    ensures
        r@ == enc_erc20_balance(account@, token@),
{
    let mut r = selector("getERC20Balance(address,address)");
    push_addr_word(&mut r, &account.bytes);
    push_addr_word(&mut r, &token.bytes);
    r
}

/// Encodes a native balance query. Encoding never fails.
pub fn encode_eth_balance_call(account: &Address) -> (r: Vec<u8>)
    requires
        account.wf(),
    ensures
        r@ == enc_eth_balance(account@),
{
    let mut r = selector("getETHBalance(address)");
    push_addr_word(&mut r, &account.bytes);
    r
}

/// What decoding a balance return yields: the single 32-byte amount word,
/// or the reason the return has no such shape. Strict mode rejects
/// trailing bytes; lenient mode ignores them.
pub open spec fn dec_uint256_return(b: Seq<u8>, strict: bool) -> Result<Seq<u8>, DecodeError> {
    if b.len() < 32 {
        Err(DecodeError::TooShort)
    } else if strict && b.len() != 32 {
        Err(DecodeError::BadPayload)
    } else {
        Ok(b.take(32))
    }
}

/// Decodes the numeric return of a balance query.
pub fn decode_uint256_return(data: &Vec<u8>, strict: bool) -> (r: Result<Uint256, DecodeError>)
    ensures
        match r {
            Ok(u) => u.wf() && dec_uint256_return(data@, strict) == Ok::<Seq<u8>, DecodeError>(u@),
            Err(e) => dec_uint256_return(data@, strict) == Err::<Seq<u8>, DecodeError>(e),
        },
{
    let dlen = data.len();
    if dlen < 32 {
        return Err(DecodeError::TooShort);
    }
    if strict && dlen != 32 {
        return Err(DecodeError::BadPayload);
    }
    let w = crate::words::read_raw_word(data, 0);
    proof {
        assert(data@.subrange(0, 32) =~= data@.take(32));
    }
    Ok(Uint256::new(w))
}

/// The signature string of the "distribute" call.
pub open spec fn distribute_erc20_signature() -> Seq<char> {
    "distributeERC20(address,address,address[],uint32[],uint32,address)"@
}

/// The words after the selector of a "distribute" call: the split and
/// token addresses, the two tail offsets, the fee, the distributor, then
/// the two array tails.
pub open spec fn distribute_erc20_words(
    split: Seq<u8>,
    token: Seq<u8>,
    accounts: Seq<Seq<u8>>,
    allocations: Seq<u32>,
    fee: u32,
    distributor: Seq<u8>,
) -> Seq<Seq<u8>> {
    seq![
        word_of_addr(split),
        word_of_addr(token),
        word_of_u64(192u64),
        word_of_u64((224 + 32 * accounts.len()) as u64),
        word_of_u32(fee),
        word_of_addr(distributor),
    ] + addr_array_words(accounts) + u32_array_words(allocations)
}

/// The full encoding of a "distribute" call.
pub open spec fn enc_distribute_erc20(
    split: Seq<u8>,
    token: Seq<u8>,
    accounts: Seq<Seq<u8>>,
    allocations: Seq<u32>,
    fee: u32,
    distributor: Seq<u8>,
) -> Seq<u8> {
    selector_of(distribute_erc20_signature()) + cat(
        distribute_erc20_words(split, token, accounts, allocations, fee, distributor),
    )
}

/// Encodes a "distribute" call. Encoding never fails for well-formed
/// arguments.
pub fn encode_distribute_erc20_call(
    split: &Address,
    token: &Address,
    accounts: &Vec<Address>,
    allocations: &Vec<u32>,
    fee: u32,
    distributor: &Address,
) -> (r: Vec<u8>)
    requires
        split.wf(),
        token.wf(),
        distributor.wf(),
        forall|i: int| 0 <= i < accounts@.len() ==> (#[trigger] accounts@[i]).wf(),
        260 + 32 * accounts@.len() + 32 * allocations@.len() <= usize::MAX,
    ensures
        r@ == enc_distribute_erc20(
            split@,
            token@,
            accounts@.map_values(|a: Address| a@),
            allocations@,
            fee,
            distributor@,
        ),
{
    let la = accounts.len();
    let mut r = selector("distributeERC20(address,address,address[],uint32[],uint32,address)");
    push_addr_word(&mut r, &split.bytes);
    push_addr_word(&mut r, &token.bytes);
    push_u64_word(&mut r, 192u64);
    let ofs: u64 = 224u64 + 32u64 * (la as u64);
    push_u64_word(&mut r, ofs);
    push_u32_word(&mut r, fee);
    push_addr_word(&mut r, &distributor.bytes);
    proof {
        assert forall|i: int| 0 <= i < accounts@.len() implies (#[trigger] accounts@[i])@.len()
            == 20 by {
            assert(accounts@[i].wf());
        }
    }
    push_addr_array(&mut r, accounts);
    push_u32_array(&mut r, allocations);
    proof {
        let avs = accounts@.map_values(|a: Address| a@);
        let w0 = word_of_addr(split@);
        let w1 = word_of_addr(token@);
        let w2 = word_of_u64(192u64);
        let w3 = word_of_u64(ofs);
        let w4 = word_of_u32(fee);
        let w5 = word_of_addr(distributor@);
        assert(ofs == (224 + 32 * avs.len()) as u64);
        lemma_cat_append(seq![w0, w1, w2], seq![w3, w4, w5]);
        assert(cat(seq![w0, w1, w2]) == w0 + w1 + w2) by {
            assert(seq![w0, w1, w2].drop_first() =~= seq![w1, w2]);
            assert(seq![w1, w2].drop_first() =~= seq![w2]);
            crate::words::lemma_cat1(w2);
            assert(cat(seq![w1, w2]) == w1 + w2);
            assert(w0 + (w1 + w2) =~= w0 + w1 + w2);
        }
        assert(cat(seq![w3, w4, w5]) == w3 + w4 + w5) by {
            assert(seq![w3, w4, w5].drop_first() =~= seq![w4, w5]);
            assert(seq![w4, w5].drop_first() =~= seq![w5]);
            crate::words::lemma_cat1(w5);
            assert(cat(seq![w4, w5]) == w4 + w5);
            assert(w3 + (w4 + w5) =~= w3 + w4 + w5);
        }
        assert(seq![w0, w1, w2] + seq![w3, w4, w5] =~= seq![w0, w1, w2, w3, w4, w5]);
        lemma_cat_append(seq![w0, w1, w2, w3, w4, w5], addr_array_words(avs));
        lemma_cat_append(
            seq![w0, w1, w2, w3, w4, w5] + addr_array_words(avs),
            u32_array_words(allocations@),
        );
        assert(distribute_erc20_words(split@, token@, avs, allocations@, fee, distributor@) =~= (
        seq![w0, w1, w2, w3, w4, w5] + addr_array_words(avs)) + u32_array_words(allocations@));
        assert(r@ =~= enc_distribute_erc20(
            split@,
            token@,
            avs,
            allocations@,
            fee,
            distributor@,
        ));
    }
    r
}

/// The signature string of the "withdraw" call.
pub open spec fn withdraw_signature() -> Seq<char> {
    "withdraw(address,uint256,address[])"@
}

/// The words after the selector of a "withdraw" call: the account, the
/// native amount, the tail offset of the token array, then its tail.
pub open spec fn withdraw_words(account: Seq<u8>, eth: Seq<u8>, tokens: Seq<Seq<u8>>) -> Seq<
    Seq<u8>,
> {
    seq![word_of_addr(account), eth, word_of_u64(96u64)] + addr_array_words(tokens)
}

/// The full encoding of a "withdraw" call.
pub open spec fn enc_withdraw(account: Seq<u8>, eth: Seq<u8>, tokens: Seq<Seq<u8>>) -> Seq<u8> {
    selector_of(withdraw_signature()) + cat(withdraw_words(account, eth, tokens))
}

/// Encodes a "withdraw" call. Encoding never fails for well-formed
/// arguments.
pub fn encode_withdraw_call(account: &Address, eth: &Uint256, tokens: &Vec<Address>) -> (r: Vec<
    u8,
>)
    requires
        account.wf(),
        eth.wf(),
        forall|i: int| 0 <= i < tokens@.len() ==> (#[trigger] tokens@[i]).wf(),
        132 + 32 * tokens@.len() <= usize::MAX,
    ensures
        r@ == enc_withdraw(account@, eth@, tokens@.map_values(|a: Address| a@)),
{
    let mut r = selector("withdraw(address,uint256,address[])");
    push_addr_word(&mut r, &account.bytes);
    push_raw_word(&mut r, &eth.be_bytes);
    push_u64_word(&mut r, 96u64);
    proof {
        assert forall|i: int| 0 <= i < tokens@.len() implies (#[trigger] tokens@[i])@.len()
            == 20 by {
            assert(tokens@[i].wf());
        }
    }
    push_addr_array(&mut r, tokens);
    proof {
        let tvs = tokens@.map_values(|a: Address| a@);
        let w0 = word_of_addr(account@);
        let w1 = eth@;
        let w2 = word_of_u64(96u64);
        assert(cat(seq![w0, w1, w2]) == w0 + w1 + w2) by {
            assert(seq![w0, w1, w2].drop_first() =~= seq![w1, w2]);
            assert(seq![w1, w2].drop_first() =~= seq![w2]);
            crate::words::lemma_cat1(w2);
            assert(cat(seq![w1, w2]) == w1 + w2);
            assert(w0 + (w1 + w2) =~= w0 + w1 + w2);
        }
        lemma_cat_append(seq![w0, w1, w2], addr_array_words(tvs));
        assert(withdraw_words(account@, eth@, tvs) =~= seq![w0, w1, w2] + addr_array_words(tvs));
        assert(r@ =~= enc_withdraw(account@, eth@, tvs));
    }
    r
}

} // verus!
