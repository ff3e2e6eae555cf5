use vstd::prelude::*;

use crate::hash::Field;
use crate::merkle::{lemma_pow2_mono, pow2};

verus! {

/// A canonical tree mutation recovered from contract calldata.
#[derive(Clone, Debug)]
pub enum Mutation {
    Insert { start_index: u64, commitments: Vec<Field> },
    Delete { indices: Vec<usize> },
}

#[derive(Clone, Copy, PartialEq, Eq, Structural, Debug)]
pub enum DecodeError {
    /// The calldata does not begin with a known function selector.
    UnknownSelector,
    /// The selector matched but the calldata does not have the exact
    /// expected layout.
    MalformedCalldata,
}

/// Packed deletion slots holding this value mark "no delete in this slot"
/// and are dropped by the decoder.
pub const DELETION_SENTINEL: usize = 0xFFFFFFFF;

/// The big-endian unsigned integer a byte string denotes.
pub open spec fn be_word(s: Seq<u8>) -> int
    decreases s.len(),
{
    if s.len() == 0 {
        0
    } else {
        be_word(s.drop_last()) * 256 + s.last()
    }
}

/// A 32-byte big-endian word as a field element in little-endian limbs.
pub open spec fn word_field(w: Seq<u8>) -> Field {
    Field {
        w0: be_word(w.subrange(24, 32)) as u64,
        w1: be_word(w.subrange(16, 24)) as u64,
        w2: be_word(w.subrange(8, 16)) as u64,
        w3: be_word(w.subrange(0, 8)) as u64,
    }
}

pub open spec fn all_zero_spec(s: Seq<u8>, a: int, b: int) -> bool {
    forall|j: int| a <= j < b ==> s[j] == 0
}

/// The commitments vector with its trailing zero padding removed.
pub open spec fn trimmed(cs: Seq<Field>) -> Seq<Field>
    decreases cs.len(),
{
    if cs.len() > 0 && cs.last() == Field::zero_spec() {
        trimmed(cs.drop_last())
    } else {
        cs
    }
}

/// The packed deletion slots with the sentinel entries dropped, in order.
pub open spec fn kept(xs: Seq<usize>) -> Seq<usize>
    decreases xs.len(),
{
    if xs.len() == 0 {
        xs
    } else {
        let r = kept(xs.drop_last());
        if xs.last() == DELETION_SENTINEL {
            r
        } else {
            r.push(xs.last())
        }
    }
}

pub open spec fn register_sig() -> Seq<char> {
    "registerIdentities(uint256[8],uint256,uint32,uint256[],uint256)"@
}

pub open spec fn delete_sig() -> Seq<char> {
    "deleteIdentities(uint256[8],bytes,uint256,uint256)"@
}

/// The 4-byte function selector of a Solidity signature; a pure function of
/// the signature.
pub uninterp spec fn selector_of(signature: Seq<char>) -> Seq<u8>;

/// Relies on semaphore_rs_utils::keccak256: the first four bytes of the
/// Keccak-256 digest of the signature's bytes are the EVM function selector.
/// The digest is a pure function of its input.
#[verifier::external_body]
fn selector_for(signature: &str) -> (r: Vec<u8>)
    ensures
        r@ == selector_of(signature@),
        r@.len() == 4,
{
    let digest = semaphore_rs_utils::keccak256(signature.as_bytes());
    digest[0..4].to_vec()
}

/// The `registerIdentities(uint256[8] insertionProof, uint256 preRoot,
/// uint32 startIndex, uint256[] identityCommitments, uint256 postRoot)`
/// calldata layout: selector, twelve head words with the commitments offset
/// at its canonical value, then the commitments tail, exactly sized.
pub open spec fn register_well_formed(cd: Seq<u8>) -> bool {
    &&& cd.len() >= 420
    &&& all_zero_spec(cd, 292, 320)
    &&& all_zero_spec(cd, 324, 348)
    &&& be_word(cd.subrange(348, 356)) == 384
    &&& all_zero_spec(cd, 388, 412)
    &&& cd.len() == 420 + 32 * be_word(cd.subrange(412, 420))
}

/// The declared starting leaf index.
pub open spec fn register_start(cd: Seq<u8>) -> int {
    be_word(cd.subrange(316, 324))
}

/// The identity commitments as encoded, padding included.
pub open spec fn register_commitments(cd: Seq<u8>) -> Seq<Field> {
    Seq::new(
        be_word(cd.subrange(412, 420)) as nat,
        |t: int| word_field(cd.subrange(420 + 32 * t, 452 + 32 * t)),
    )
}

/// The `deleteIdentities(uint256[8] deletionProof, bytes
/// packedDeletionIndices, uint256 preRoot, uint256 postRoot)` calldata
/// layout: selector, eleven head words with the bytes offset at its
/// canonical value, then the packed indices, a multiple of four bytes,
/// padded to a word boundary.
pub open spec fn delete_well_formed(cd: Seq<u8>) -> bool {
    &&& cd.len() >= 388
    &&& all_zero_spec(cd, 260, 284)
    &&& be_word(cd.subrange(284, 292)) == 352
    &&& all_zero_spec(cd, 356, 380)
    &&& be_word(cd.subrange(380, 388)) % 4 == 0
    &&& cd.len() == 388 + ((be_word(cd.subrange(380, 388)) + 31) / 32) * 32
}

/// The packed 4-byte big-endian deletion slots, sentinels included.
pub open spec fn unpacked(cd: Seq<u8>) -> Seq<usize> {
    Seq::new(
        (be_word(cd.subrange(380, 388)) / 4) as nat,
        |t: int| be_word(cd.subrange(388 + 4 * t, 392 + 4 * t)) as usize,
    )
}

proof fn lemma_pow2_add(a: nat, b: nat)
    ensures
        pow2(a + b) == pow2(a) * pow2(b),
    decreases b,
{
    if b > 0 {
        lemma_pow2_add(a, (b - 1) as nat);
        assert((a + b - 1) as nat == a + (b - 1) as nat);
        assert(pow2(a + b) == 2 * pow2((a + b - 1) as nat));
        assert(pow2(b) == 2 * pow2((b - 1) as nat));
        assert(pow2(a + b) == pow2(a) * pow2(b)) by (nonlinear_arith)
            requires
                pow2(a + b) == 2 * (pow2(a) * pow2((b - 1) as nat)),
                pow2(b) == 2 * pow2((b - 1) as nat),
        ;
    } else {
        assert(pow2(a + b) == pow2(a));
        assert(pow2(b) == 1);
    }
}

/// A big-endian string of `n` bytes denotes a value below `2^(8n)`.
proof fn lemma_be_word_bound(s: Seq<u8>)
    ensures
        0 <= be_word(s) < pow2(8 * s.len()),
    decreases s.len(),
{
    if s.len() == 0 {
        assert(pow2(0) == 1);
    } else {
        lemma_be_word_bound(s.drop_last());
        lemma_pow2_add(8 * (s.len() - 1) as nat, 8);
        assert(pow2(8) == 256) by {
            reveal_with_fuel(pow2, 9);
        }
        assert(be_word(s) <= (pow2(8 * (s.len() - 1) as nat) - 1) * 256 + 255) by (nonlinear_arith)
            requires
                be_word(s) == be_word(s.drop_last()) * 256 + s.last(),
                be_word(s.drop_last()) <= pow2(8 * (s.len() - 1) as nat) - 1,
                s.last() <= 255,
        ;
    }
}

/// Reads `len` bytes at `off` as a big-endian integer.
fn read_be(data: &Vec<u8>, off: usize, len: usize) -> (r: u64)
    requires
        len <= 8,
        off + len <= data@.len(),
    ensures
        r == be_word(data@.subrange(off as int, off as int + len)),
{
    let dl = data.len();  // ties the byte length to a machine integer for the offset arithmetic
    let mut r: u64 = 0;
    let mut j: usize = 0;
    while j < len
        invariant
            j <= len,
            len <= 8,
            off + len <= data@.len(),
            data@.len() == dl,
            r == be_word(data@.subrange(off as int, off as int + j)),
        decreases len - j,
    {
        let ghost pre = data@.subrange(off as int, off as int + j);
        let ghost ext = data@.subrange(off as int, off as int + j + 1);
        proof {
            lemma_be_word_bound(pre);
            lemma_pow2_mono((8 * j) as nat, 56);
            assert(pow2(56) == 0x100000000000000) by {
                reveal_with_fuel(pow2, 57);
            }
            assert(ext.drop_last() =~= pre);
        }
        let b = data[off + j];
        r = r * 256 + (b as u64);
        j = j + 1;
    }
    r
}

/// Reads a 32-byte word at `off` as a field element.
fn read_field(data: &Vec<u8>, off: usize) -> (r: Field)
    requires
        off + 32 <= data@.len(),
    ensures
        r == word_field(data@.subrange(off as int, off as int + 32)),
{
    let dl = data.len();  // ties the byte length to a machine integer for the offset arithmetic
    let w3 = read_be(data, off, 8);
    let w2 = read_be(data, off + 8, 8);
    let w1 = read_be(data, off + 16, 8);
    let w0 = read_be(data, off + 24, 8);
    proof {
        let w = data@.subrange(off as int, off as int + 32);
        assert(w.subrange(0, 8) =~= data@.subrange(off as int, off as int + 8));
        assert(w.subrange(8, 16) =~= data@.subrange(off as int + 8, off as int + 16));
        assert(w.subrange(16, 24) =~= data@.subrange(off as int + 16, off as int + 24));
        assert(w.subrange(24, 32) =~= data@.subrange(off as int + 24, off as int + 32));
    }
    Field { w0, w1, w2, w3 }
}

/// Tests that every byte in `[from, to)` is zero.
fn all_zero(data: &Vec<u8>, from: usize, to: usize) -> (r: bool)
    requires
        from <= to,
        to <= data@.len(),
    ensures
        r == all_zero_spec(data@, from as int, to as int),
{
    let mut j: usize = from;
    while j < to
        invariant
            from <= j <= to,
            to <= data@.len(),
            all_zero_spec(data@, from as int, j as int),
        decreases to - j,
    {
        if data[j] != 0 {
            return false;
        }
        j = j + 1;
    }
    true
}

/// Compares the first four calldata bytes with a selector.
fn selector_matches(calldata: &Vec<u8>, sel: &Vec<u8>) -> (r: bool)
    requires
        sel@.len() == 4,
        calldata@.len() >= 4,
    ensures
        r == (calldata@.subrange(0, 4) == sel@),
{
    let r = calldata[0] == sel[0] && calldata[1] == sel[1] && calldata[2] == sel[2] && calldata[3]
        == sel[3];
    proof {
        let h = calldata@.subrange(0, 4);
        assert(h[0] == calldata@[0] && h[1] == calldata@[1] && h[2] == calldata@[2] && h[3]
            == calldata@[3]);
        if r {
            assert(h =~= sel@);
        }
    }
    r
}

/// Decodes `registerIdentities` calldata after the selector has matched.
fn decode_register(calldata: &Vec<u8>) -> (res: Result<Mutation, DecodeError>)
    ensures
        match res {
            Ok(m) => register_well_formed(calldata@) && (m matches Mutation::Insert {
                start_index,
                commitments,
            } && start_index == register_start(calldata@) && commitments@ == trimmed(
                register_commitments(calldata@),
            )),
            Err(e) => e == DecodeError::MalformedCalldata && !register_well_formed(calldata@),
        },
{
    if calldata.len() < 420 {
        return Err(DecodeError::MalformedCalldata);
    }
    if !all_zero(calldata, 292, 320) {
        return Err(DecodeError::MalformedCalldata);
    }
    if !all_zero(calldata, 324, 348) {
        return Err(DecodeError::MalformedCalldata);
    }
    if read_be(calldata, 348, 8) != 384 {
        return Err(DecodeError::MalformedCalldata);
    }
    if !all_zero(calldata, 388, 412) {
        return Err(DecodeError::MalformedCalldata);
    }
    let count64 = read_be(calldata, 412, 8);
    let rem = calldata.len() - 420;
    if rem % 32 != 0 || count64 != (rem / 32) as u64 {
        return Err(DecodeError::MalformedCalldata);
    }
    let start_index = read_be(calldata, 316, 8);
    let n = rem / 32;
    let mut coms: Vec<Field> = Vec::new();
    let mut k: usize = 0;
    proof {
        assert(coms@ =~= register_commitments(calldata@).take(0));
    }
    while k < n
        invariant
            k <= n,
            calldata@.len() == 420 + 32 * n,
            calldata@.len() <= usize::MAX,
            coms@ == register_commitments(calldata@).take(k as int),
            n == register_commitments(calldata@).len(),
        decreases n - k,
    {
        let c = read_field(calldata, 420 + 32 * k);
        coms.push(c);
        proof {
            assert(coms@ =~= register_commitments(calldata@).take(k + 1));
        }
        k = k + 1;
    }
    proof {
        assert(register_commitments(calldata@).take(n as int) =~= register_commitments(calldata@));
    }
    let mut done = false;
    while coms.len() > 0 && !done
        invariant
            trimmed(coms@) == trimmed(register_commitments(calldata@)),
            done ==> coms@.len() > 0 && coms@.last() != Field::zero_spec(),
        decreases coms@.len() + (if done { 0int } else { 1int }),
    {
        let ghost pre = coms@;
        let z = Field::zero();
        let last = coms[coms.len() - 1];
        proof {
            assert(last == pre.last());
        }
        if last == z {
            coms.pop();
            proof {
                assert(coms@ =~= pre.drop_last());
            }
        } else {
            done = true;
        }
    }
    proof {
        assert(coms@ == trimmed(coms@));
    }
    Ok(Mutation::Insert { start_index, commitments: coms })
}

/// Decodes `deleteIdentities` calldata after the selector has matched.
fn decode_delete(calldata: &Vec<u8>) -> (res: Result<Mutation, DecodeError>)
    ensures
        match res {
            Ok(m) => delete_well_formed(calldata@) && (m matches Mutation::Delete { indices }
                && indices@ == kept(unpacked(calldata@))),
            Err(e) => e == DecodeError::MalformedCalldata && !delete_well_formed(calldata@),
        },
{
    if calldata.len() < 388 {
        return Err(DecodeError::MalformedCalldata);
    }
    if !all_zero(calldata, 260, 284) {
        return Err(DecodeError::MalformedCalldata);
    }
    if read_be(calldata, 284, 8) != 352 {
        return Err(DecodeError::MalformedCalldata);
    }
    if !all_zero(calldata, 356, 380) {
        return Err(DecodeError::MalformedCalldata);
    }
    let l64 = read_be(calldata, 380, 8);
    let rem = calldata.len() - 388;
    if l64 % 4 != 0 || l64 > rem as u64 {
        return Err(DecodeError::MalformedCalldata);
    }
    let l = l64 as usize;
    if ((l + 31) / 32) * 32 != rem {
        return Err(DecodeError::MalformedCalldata);
    }
    let cnt = l / 4;
    let mut out: Vec<usize> = Vec::new();
    let mut t: usize = 0;
    proof {
        assert(out@ =~= kept(unpacked(calldata@).take(0)));
        assert(pow2(32) == 0x100000000) by {
            reveal_with_fuel(pow2, 33);
        }
    }
    while t < cnt
        invariant
            t <= cnt,
            calldata@.len() >= 388 + 4 * cnt,
            calldata@.len() <= usize::MAX,
            cnt == unpacked(calldata@).len(),
            out@ == kept(unpacked(calldata@).take(t as int)),
            pow2(32) == 0x100000000,
        decreases cnt - t,
    {
        let v = read_be(calldata, 388 + 4 * t, 4);
        proof {
            lemma_be_word_bound(calldata@.subrange(388 + 4 * (t as int), 392 + 4 * (t as int)));
            assert(unpacked(calldata@).take(t + 1).drop_last() =~= unpacked(calldata@).take(
                t as int,
            ));
        }
        if v != 0xFFFFFFFF {
            out.push(v as usize);
        }
        t = t + 1;
    }
    proof {
        assert(unpacked(calldata@).take(cnt as int) =~= unpacked(calldata@));
    }
    Ok(Mutation::Delete { indices: out })
}

/// Decodes one transaction's calldata into the mutation it carries: a
/// `registerIdentities` call becomes an insertion with its trailing zero
/// padding trimmed, a `deleteIdentities` call a deletion with its sentinel
/// slots dropped; anything else is refused.
pub fn decode_mutation(calldata: &Vec<u8>) -> (res: Result<Mutation, DecodeError>)
    ensures
        ({
            let cd = calldata@;
            &&& (cd.len() < 4 ==> res == Err::<Mutation, DecodeError>(DecodeError::UnknownSelector))
            &&& (cd.len() >= 4 && cd.subrange(0, 4) == selector_of(register_sig()) ==> match res {
                Ok(m) => register_well_formed(cd) && (m matches Mutation::Insert {
                    start_index,
                    commitments,
                } && start_index == register_start(cd) && commitments@ == trimmed(
                    register_commitments(cd),
                )),
                Err(e) => e == DecodeError::MalformedCalldata && !register_well_formed(cd),
            })
            &&& (cd.len() >= 4 && cd.subrange(0, 4) != selector_of(register_sig()) && cd.subrange(
                0,
                4,
            ) == selector_of(delete_sig()) ==> match res {
                Ok(m) => delete_well_formed(cd) && (m matches Mutation::Delete { indices }
                    && indices@ == kept(unpacked(cd))),
                Err(e) => e == DecodeError::MalformedCalldata && !delete_well_formed(cd),
            })
            &&& (cd.len() >= 4 && cd.subrange(0, 4) != selector_of(register_sig()) && cd.subrange(
                0,
                4,
            ) != selector_of(delete_sig()) ==> res == Err::<Mutation, DecodeError>(
                DecodeError::UnknownSelector,
            ))
        }),
{
    if calldata.len() < 4 {
        return Err(DecodeError::UnknownSelector);
    }
    let reg = selector_for("registerIdentities(uint256[8],uint256,uint32,uint256[],uint256)");
    if selector_matches(calldata, &reg) {
        return decode_register(calldata);
    }
    let del = selector_for("deleteIdentities(uint256[8],bytes,uint256,uint256)");
    if selector_matches(calldata, &del) {
        return decode_delete(calldata);
    }
    Err(DecodeError::UnknownSelector)
}

} // verus!
