//! The EDB/EDT stream transform: RC4 keyed per 4096-byte block, with a seed
//! stream and an MD5-derived password verifier.

use vstd::prelude::*;

use md5::{Digest, Md5};

use super::bytes::{le_u32, u32_le_bytes};
use super::error::Error;

verus! {

/// Bytes at the start of an image that the transform leaves in the clear.
pub const CLEAR_PREFIX_LEN: usize = 4;

/// Length of one independently keyed block.
pub const BLOCK_LEN: usize = 4096;

/// Length of a block key: seed, verifier, seed mixed with the block number.
pub const BLOCK_KEY_LEN: usize = 40;

/// Keystream bytes thrown away before each block.
pub const BLOCK_DROP_LEN: usize = 36;

// ---------------------------------------------------------------------------
// MD5, from the `md-5` crate.

/// The MD5 digest of `data`, as the `md-5` crate computes it.
pub uninterp spec fn md5_digest_of(data: Seq<u8>) -> Seq<u8>;

/// Calls `<md5::Md5 as digest::Digest>::digest`: the contract says only that
/// the 16 bytes returned are the MD5 digest of `data`; MD5 itself is not
/// stated here.
#[verifier::external_body]
fn md5_digest(data: &[u8]) -> (d: [u8; 16])
    ensures
        d@ == md5_digest_of(data@),
{
    Md5::digest(data).into()
}

// ---------------------------------------------------------------------------
// RC4 as mathematics.

/// The state of an RC4 generator: the permutation and the two indices.
pub struct Rc4Model {
    pub s: Seq<u8>,
    pub i: u8,
    pub j: u8,
}

/// `s` with the entries at `a` and `b` exchanged.
pub open spec fn swap_at(s: Seq<u8>, a: int, b: int) -> Seq<u8> {
    s.update(a, s[b]).update(b, s[a])
}

/// The identity permutation of the 256 byte values.
pub open spec fn identity_perm() -> Seq<u8> {
    Seq::new(256, |k: int| k as u8)
}

/// The permutation and `j` after the first `n` rounds of key scheduling.
pub open spec fn ksa(key: Seq<u8>, n: nat) -> (Seq<u8>, u8)
    decreases n,
{
    if n == 0 {
        (identity_perm(), 0u8)
    } else {
        let (s, j) = ksa(key, (n - 1) as nat);
        let i = n - 1;
        let j2 = ((j + s[i] + key[i % (key.len() as int)]) % 256) as u8;
        (swap_at(s, i, j2 as int), j2)
    }
}

/// The generator keyed with `key`.
pub open spec fn rc4_init(key: Seq<u8>) -> Rc4Model {
    Rc4Model { s: ksa(key, 256).0, i: 0, j: 0 }
}

/// One step of the generator: the next state and the byte it yields.
pub open spec fn rc4_next(m: Rc4Model) -> (Rc4Model, u8) {
    let i = ((m.i + 1) % 256) as u8;
    let j = ((m.j + m.s[i as int]) % 256) as u8;
    let s = swap_at(m.s, i as int, j as int);
    let k = s[((s[i as int] + s[j as int]) % 256) as int];
    (Rc4Model { s, i, j }, k)
}

/// The state after `n` steps.
pub open spec fn rc4_advance(m: Rc4Model, n: nat) -> Rc4Model
    decreases n,
{
    if n == 0 {
        m
    } else {
        rc4_next(rc4_advance(m, (n - 1) as nat)).0
    }
}

/// The byte that step `k` (counting from 0) yields.
pub open spec fn rc4_byte(m: Rc4Model, k: nat) -> u8 {
    rc4_next(rc4_advance(m, k)).1
}

pub proof fn lemma_advance_add(m: Rc4Model, a: nat, b: nat)
    ensures
        rc4_advance(rc4_advance(m, a), b) == rc4_advance(m, a + b),
    decreases b,
{
    if b > 0 {
        lemma_advance_add(m, a, (b - 1) as nat);
    }
}

pub proof fn lemma_byte_after_advance(m: Rc4Model, a: nat, k: nat)
    ensures
        rc4_byte(rc4_advance(m, a), k) == rc4_byte(m, a + k),
{
    lemma_advance_add(m, a, k);
}

pub proof fn lemma_ksa_len(key: Seq<u8>, n: nat)
    requires
        n <= 256,
        key.len() > 0,
    ensures
        ksa(key, n).0.len() == 256,
    decreases n,
{
    if n > 0 {
        lemma_ksa_len(key, (n - 1) as nat);
    }
}

pub proof fn lemma_advance_len(m: Rc4Model, n: nat)
    requires
        m.s.len() == 256,
    ensures
        rc4_advance(m, n).s.len() == 256,
    decreases n,
{
    if n > 0 {
        lemma_advance_len(m, (n - 1) as nat);
    }
}

// ---------------------------------------------------------------------------
// The transform as mathematics.

/// The lowercase hexadecimal digit of `n`.
pub open spec fn hex_digit(n: int) -> u8 {
    if n < 10 { (48 + n) as u8 } else { (87 + n) as u8 }
}

/// The stored password check: the lowercase hex of the MD5 digest of the
/// password, written from the last digest byte to the first, each byte
/// high nibble first.
pub open spec fn verifier_of(password: Seq<u8>) -> Seq<u8> {
    let d = md5_digest_of(password);
    Seq::new(
        32,
        |m: int|
            {
                let byte = d[15 - m / 2];
                hex_digit(if m % 2 == 0 { byte / 16 } else { byte % 16 } as int)
            },
    )
}

/// The seed of block `k`: bytes `4k..4k+4` of the password's own keystream,
/// read little-endian.
pub open spec fn block_seed(password: Seq<u8>, k: nat) -> u32 {
    le_u32(Seq::new(4, |t: int| rc4_byte(rc4_init(password), 4 * k + t as nat)), 0)
}

/// The key of block `k`: seed, verifier, and seed XOR block number.
pub open spec fn block_key(password: Seq<u8>, k: nat) -> Seq<u8> {
    let seed = block_seed(password, k);
    u32_le_bytes(seed) + verifier_of(password) + u32_le_bytes(seed ^ ((k % 0x1_0000_0000) as u32))
}

/// The keystream byte that the transform XORs into position `pos`.
#[verifier::opaque]
pub open spec fn keystream_byte(password: Seq<u8>, pos: nat) -> u8 {
    rc4_byte(rc4_init(block_key(password, pos / 4096)), (36 + pos % 4096) as nat)
}

/// The transform of a whole image: every byte from position 4 on is XORed
/// with a keystream byte that depends only on the password and the position;
/// images of at most four bytes are left as they are.
pub open spec fn crypt_spec(data: Seq<u8>, password: Seq<u8>) -> Seq<u8> {
    if data.len() <= 4 {
        data
    } else {
        Seq::new(
            data.len(),
            |p: int| if p < 4 { data[p] } else { data[p] ^ keystream_byte(password, p as nat) },
        )
    }
}

/// The transform undoes itself: applying it twice with the same password
/// gives back the original image.
pub proof fn lemma_crypt_involution(data: Seq<u8>, password: Seq<u8>)
    ensures
        crypt_spec(crypt_spec(data, password), password) == data,
{
    let once = crypt_spec(data, password);
    let twice = crypt_spec(once, password);
    if data.len() > 4 {
        assert forall|p: int| 0 <= p < data.len() implies twice[p] == data[p] by {
            if p >= 4 {
                let a = data[p];
                let k = keystream_byte(password, p as nat);
                assert((a ^ k) ^ k == a) by (bit_vector);
            }
        }
        assert(twice =~= data);
    }
}

/// The transform keeps the length and the four-byte signature of an image.
pub proof fn lemma_crypt_keeps_signature(data: Seq<u8>, password: Seq<u8>)
    ensures
        crypt_spec(data, password).len() == data.len(),
        forall|p: int| 0 <= p < 4 && p < data.len() ==> #[trigger] crypt_spec(data, password)[p] == data[p],
{
}

// ---------------------------------------------------------------------------
// RC4 in code.

struct Rc4 {
    state: [u8; 256],
    i: u8,
    j: u8,
}

impl Rc4 {
    spec fn model(&self) -> Rc4Model {
        Rc4Model { s: self.state@, i: self.i, j: self.j }
    }

    fn new(key: &[u8]) -> (r: Result<Rc4, Error>)
        ensures
            key@.len() == 0 <==> r is Err,
            r matches Err(e) ==> e == Error::EmptyPassword,
            r matches Ok(c) ==> c.model() == rc4_init(key@),
    {
        if key.len() == 0 {
            return Err(Error::EmptyPassword);
        }
        let mut state = [0u8; 256];
        let mut index: usize = 0;
        while index < 256
            invariant
                index <= 256,
                state@.len() == 256,
                forall|k: int| 0 <= k < index ==> state@[k] == k as u8,
            decreases 256 - index,
        {
            state[index] = index as u8;
            index = index + 1;
        }
        assert(state@ =~= identity_perm());
        let mut j: u8 = 0;
        let mut i: usize = 0;
        while i < 256
            invariant
                i <= 256,
                key@.len() > 0,
                state@.len() == 256,
                (state@, j) == ksa(key@, i as nat),
            decreases 256 - i,
        {
            let k = key[i % key.len()];
            j = ((j as u32 + state[i] as u32 + k as u32) % 256) as u8;
            let t = state[i];
            state[i] = state[j as usize];
            state[j as usize] = t;
            i = i + 1;
            assert(state@ =~= ksa(key@, i as nat).0);
        }
        Ok(Rc4 { state, i: 0, j: 0 })
    }

    fn next_byte(&mut self) -> (b: u8)
        requires
            old(self).state@.len() == 256,
        ensures
            (final(self).model(), b) == rc4_next(old(self).model()),
            final(self).state@.len() == 256,
    {
        self.i = ((self.i as u32 + 1) % 256) as u8;
        self.j = ((self.j as u32 + self.state[self.i as usize] as u32) % 256) as u8;
        let a = self.state[self.i as usize];
        let c = self.state[self.j as usize];
        self.state[self.i as usize] = c;
        self.state[self.j as usize] = a;
        let index = ((self.state[self.i as usize] as u32 + self.state[self.j as usize] as u32) % 256) as usize;
        let b = self.state[index];
        assert(self.state@ =~= rc4_next(old(self).model()).0.s);
        b
    }

    fn discard(&mut self, count: usize)
        requires
            old(self).state@.len() == 256,
        ensures
            final(self).model() == rc4_advance(old(self).model(), count as nat),
            final(self).state@.len() == 256,
    {
        let mut n: usize = 0;
        while n < count
            invariant
                n <= count,
                self.state@.len() == 256,
                self.model() == rc4_advance(old(self).model(), n as nat),
            decreases count - n,
        {
            self.next_byte();
            n = n + 1;
        }
    }

    fn generate_u32_le(&mut self) -> (r: u32)
        requires
            old(self).state@.len() == 256,
        ensures
            r == le_u32(Seq::new(4, |t: int| rc4_byte(old(self).model(), t as nat)), 0),
            final(self).model() == rc4_advance(old(self).model(), 4),
            final(self).state@.len() == 256,
    {
        let ghost m = self.model();
        assert(rc4_advance(m, 0) == m);
        let b0 = self.next_byte();
        assert(self.model() == rc4_advance(m, 1));
        assert(b0 == rc4_byte(m, 0));
        let b1 = self.next_byte();
        assert(self.model() == rc4_advance(m, 2));
        assert(b1 == rc4_byte(m, 1));
        let b2 = self.next_byte();
        assert(self.model() == rc4_advance(m, 3));
        assert(b2 == rc4_byte(m, 2));
        let b3 = self.next_byte();
        assert(self.model() == rc4_advance(m, 4));
        assert(b3 == rc4_byte(m, 3));
        let ghost bs = Seq::new(4, |t: int| rc4_byte(m, t as nat));
        assert(bs[0] == b0 && bs[1] == b1 && bs[2] == b2 && bs[3] == b3);
        b0 as u32 + b1 as u32 * 0x100 + b2 as u32 * 0x1_0000 + b3 as u32 * 0x100_0000
    }
}

// ---------------------------------------------------------------------------
// The transform in code.


proof fn lemma_seed_from_stream(pw: Seq<u8>, k: nat)
    ensures
        le_u32(Seq::new(4, |t: int| rc4_byte(rc4_advance(rc4_init(pw), 4 * k), t as nat)), 0)
            == block_seed(pw, k),
        rc4_advance(rc4_advance(rc4_init(pw), 4 * k), 4) == rc4_advance(rc4_init(pw), 4 * k + 4),
{
    let m = rc4_advance(rc4_init(pw), 4 * k);
    assert forall|t: int| 0 <= t < 4 implies #[trigger] rc4_byte(m, t as nat) == rc4_byte(
        rc4_init(pw),
        4 * k + t as nat,
    ) by {
        lemma_byte_after_advance(rc4_init(pw), 4 * k, t as nat);
    }
    assert(Seq::new(4, |t: int| rc4_byte(m, t as nat)) =~= Seq::new(
        4,
        |t: int| rc4_byte(rc4_init(pw), 4 * k + t as nat),
    ));
    lemma_advance_add(rc4_init(pw), 4 * k, 4);
}

proof fn lemma_block_position(k: int, start: int, q: int)
    requires
        k >= 0,
        start == if k * 4096 > 4 { k * 4096 } else { 4 },
        start <= q < (k + 1) * 4096,
    ensures
        q / 4096 == k,
        36 + start % 4096 + (q - start) == 36 + q % 4096,
{
}

/// The key of one block: the seed, the verifier, and the seed XOR the block number.
fn make_block_key(seed: u32, verifier: &[u8; 32], block_index: usize) -> (key: Vec<u8>)
    ensures
        key@ == u32_le_bytes(seed) + verifier@ + u32_le_bytes(
            seed ^ ((block_index as int % 0x1_0000_0000) as u32),
        ),
{
    let mixed = seed ^ ((block_index as u64 % 0x1_0000_0000) as u32);
    let mut key: Vec<u8> = Vec::with_capacity(BLOCK_KEY_LEN);
    key.push((seed % 0x100) as u8);
    key.push(((seed / 0x100) % 0x100) as u8);
    key.push(((seed / 0x1_0000) % 0x100) as u8);
    key.push((seed / 0x100_0000) as u8);
    let mut v: usize = 0;
    while v < 32
        invariant
            v <= 32,
            verifier@.len() == 32,
            key@ == u32_le_bytes(seed) + verifier@.subrange(0, v as int),
        decreases 32 - v,
    {
        key.push(verifier[v]);
        v = v + 1;
        assert(key@ =~= u32_le_bytes(seed) + verifier@.subrange(0, v as int));
    }
    key.push((mixed % 0x100) as u8);
    key.push(((mixed / 0x100) % 0x100) as u8);
    key.push(((mixed / 0x1_0000) % 0x100) as u8);
    key.push((mixed / 0x100_0000) as u8);
    assert(verifier@.subrange(0, 32) =~= verifier@);
    assert(((block_index as u64 % 0x1_0000_0000) as u32) == ((block_index as int % 0x1_0000_0000) as u32));
    assert(key@ =~= u32_le_bytes(seed) + verifier@ + u32_le_bytes(
        seed ^ ((block_index as int % 0x1_0000_0000) as u32),
    ));
    key
}

/// XORs bytes `start..end` of `file` with the keystream of `key`, after
/// dropping `36 + start % 4096` keystream bytes.
fn apply_block(file: &mut [u8], key: &Vec<u8>, start: usize, end: usize)
    requires
        start < end <= old(file)@.len(),
        key@.len() > 0,
    ensures
        final(file)@.len() == old(file)@.len(),
        forall|q: int|
            0 <= q < old(file)@.len() ==> #[trigger] final(file)@[q] == if start <= q < end {
                old(file)@[q] ^ rc4_byte(rc4_init(key@), (36 + start % 4096 + (q - start)) as nat)
            } else {
                old(file)@[q]
            },
{
    let mut cipher = match Rc4::new(key.as_slice()) {
        Ok(c) => c,
        Err(_) => return,
    };
    proof {
        lemma_ksa_len(key@, 256);
    }
    let drop = BLOCK_DROP_LEN + start % BLOCK_LEN;
    cipher.discard(drop);
    let ghost keyed = rc4_init(key@);
    let ghost before = file@;
    let mut p = start;
    while p < end
        invariant
            start <= p <= end,
            end <= file@.len(),
            file@.len() == before.len(),
            keyed == rc4_init(key@),
            drop == 36 + start % 4096,
            cipher.state@.len() == 256,
            cipher.model() == rc4_advance(keyed, (drop + (p - start)) as nat),
            forall|q: int|
                0 <= q < before.len() ==> #[trigger] file@[q] == if start <= q < p {
                    before[q] ^ rc4_byte(keyed, (drop + (q - start)) as nat)
                } else {
                    before[q]
                },
        decreases end - p,
    {
        let b = cipher.next_byte();
        let x = file[p] ^ b;
        file[p] = x;
        p = p + 1;
    }
}

/// The 32-byte password check stored in an encrypted database header.
pub fn password_verifier(password: &[u8]) -> (v: [u8; 32])
    ensures
        v@ == verifier_of(password@),
{
    let digest = md5_digest(password);
    let hex: [u8; 16] = [
        48, 49, 50, 51, 52, 53, 54, 55, 56, 57, 97, 98, 99, 100, 101, 102,
    ];
    let mut verifier = [0u8; 32];
    let mut index: usize = 0;
    while index < 16
        invariant
            index <= 16,
            verifier@.len() == 32,
            digest@ == md5_digest_of(password@),
            hex@ == Seq::new(16, |n: int| hex_digit(n)),
            forall|m: int|
                0 <= m < 2 * index ==> #[trigger] verifier@[m] == hex_digit(
                    if m % 2 == 0 { digest@[m / 2] / 16 } else { digest@[m / 2] % 16 } as int,
                ),
        decreases 16 - index,
    {
        let byte = digest[index];
        verifier[index * 2] = hex[(byte / 16) as usize];
        verifier[index * 2 + 1] = hex[(byte % 16) as usize];
        index = index + 1;
    }
    let ghost spelled = verifier@;
    let mut pair: usize = 0;
    while pair < 16
        invariant
            pair <= 16,
            verifier@.len() == 32,
            forall|m: int|
                0 <= m < 2 * pair ==> #[trigger] verifier@[m] == spelled[if m % 2 == 0 {
                    m + 1
                } else {
                    m - 1
                }],
            forall|k: int| 2 * pair <= k < 32 ==> verifier@[k] == spelled[k],
        decreases 16 - pair,
    {
        let a = verifier[pair * 2];
        let b = verifier[pair * 2 + 1];
        verifier[pair * 2] = b;
        verifier[pair * 2 + 1] = a;
        pair = pair + 1;
    }
    let ghost swapped = verifier@;
    let mut reversed = [0u8; 32];
    let mut k: usize = 0;
    while k < 32
        invariant
            k <= 32,
            reversed@.len() == 32,
            verifier@ == swapped,
            forall|m: int| 0 <= m < k ==> reversed@[m] == swapped[31 - m],
        decreases 32 - k,
    {
        reversed[k] = verifier[31 - k];
        k = k + 1;
    }
    assert forall|m: int| 0 <= m < 32 implies reversed@[m] == verifier_of(password@)[m] by {
        let t = 15 - m / 2;
        if m % 2 == 0 {
            assert(31 - m == 2 * t + 1);
        } else {
            assert(31 - m == 2 * t);
        }
    }
    assert(reversed@ =~= verifier_of(password@));
    reversed
}

/// Applies the EDB/EDT stream transform to a complete file image.
///
/// The transform is symmetric: calling it twice with the same password
/// restores the original bytes. The four-byte file signature is left clear.
pub fn crypt_in_place(file: &mut [u8], password: &[u8]) -> (r: Result<(), Error>)
    ensures
        r is Err <==> (password@.len() == 0 && old(file)@.len() > 4),
        r matches Err(e) ==> e == Error::EmptyPassword && final(file)@ == old(file)@,
        r is Ok ==> final(file)@ == crypt_spec(old(file)@, password@),
{
    let len = file.len();
    if len <= CLEAR_PREFIX_LEN {
        return Ok(());
    }
    let verifier = password_verifier(password);
    let mut seed_stream = match Rc4::new(password) {
        Ok(c) => c,
        Err(e) => return Err(e),
    };
    proof {
        lemma_ksa_len(password@, 256);
    }
    let block_count = len / BLOCK_LEN + if len % BLOCK_LEN != 0 { 1 } else { 0 };
    let ghost original = file@;
    let ghost pw = password@;
    let mut block_index: usize = 0;
    while block_index < block_count
        invariant
            len == file@.len(),
            len == original.len(),
            len > 4,
            block_count == len / 4096 + if len % 4096 != 0 { 1int } else { 0int },
            block_index <= block_count,
            pw == password@,
            verifier@ == verifier_of(pw),
            seed_stream.state@.len() == 256,
            seed_stream.model() == rc4_advance(rc4_init(pw), (4 * block_index) as nat),
            forall|p: int|
                0 <= p < len ==> #[trigger] file@[p] == if 4 <= p < block_index * 4096 {
                    original[p] ^ keystream_byte(pw, p as nat)
                } else {
                    original[p]
                },
        decreases block_count - block_index,
    {
        let ghost before = seed_stream.model();
        let seed = seed_stream.generate_u32_le();
        proof {
            lemma_seed_from_stream(pw, block_index as nat);
        }
        let block_start = if block_index * BLOCK_LEN > CLEAR_PREFIX_LEN {
            block_index * BLOCK_LEN
        } else {
            CLEAR_PREFIX_LEN
        };
        let block_end = if block_index + 1 == block_count {
            len
        } else {
            (block_index + 1) * BLOCK_LEN
        };
        proof {
            if block_index + 1 == block_count {
                assert(len <= block_count * 4096) by (nonlinear_arith)
                    requires
                        block_count == len / 4096 + if len % 4096 != 0 { 1int } else { 0int },
                        len > 0,
                ;
            }
            assert(block_end <= (block_index + 1) * 4096);
        }
        if block_start < block_end {
            let key = make_block_key(seed, &verifier, block_index);
            proof {
                assert(key@ =~= block_key(pw, block_index as nat));
            }
            let ghost mid = file@;
            apply_block(file, &key, block_start, block_end);
            proof {
                assert forall|q: int| block_start <= q < block_end implies #[trigger] file@[q] == mid[q]
                    ^ keystream_byte(pw, q as nat) by {
                    lemma_block_position(block_index as int, block_start as int, q);
                    reveal(keystream_byte);
                }
            }
        }
        block_index = block_index + 1;
        proof {
            assert forall|p: int| 0 <= p < len implies #[trigger] file@[p] == if 4 <= p
                < block_index * 4096 {
                original[p] ^ keystream_byte(pw, p as nat)
            } else {
                original[p]
            } by {
                if block_index == block_count {
                    assert(len <= block_count * 4096) by (nonlinear_arith)
                        requires
                            block_count == len / 4096 + if len % 4096 != 0 { 1int } else { 0int },
                            len > 0,
                    ;
                }
            }
        }
    }
    proof {
        assert(len <= block_count * 4096) by (nonlinear_arith)
            requires
                block_count == len / 4096 + if len % 4096 != 0 { 1int } else { 0int },
                len > 0,
        ;
        assert(file@ =~= crypt_spec(original, pw));
    }
    Ok(())
}

// ---------------------------------------------------------------------------
// The generator is RC4.

/// One step of the generator is an RC4 step: `i` moves on by one, `j` by
/// the state byte at the new `i`, the two state bytes at `i` and `j` trade
/// places and nothing else in the state moves, and the byte yielded is the
/// state byte at the sum of the two traded bytes.
pub proof fn lemma_rc4_step(m: Rc4Model)
    requires
        m.s.len() == 256,
    ensures
        ({
            let (n, k) = rc4_next(m);
            let i = (m.i + 1) % 256;
            let j = (m.j + m.s[i]) % 256;
            &&& n.i == i
            &&& n.j == j
            &&& n.s.len() == 256
            &&& n.s[i] == m.s[j]
            &&& n.s[j] == m.s[i]
            &&& forall|t: int| 0 <= t < 256 && t != i && t != j ==> #[trigger] n.s[t] == m.s[t]
            &&& k == n.s[(m.s[i] + m.s[j]) % 256]
        }),
{
}


/// One round of key scheduling is an RC4 round: round `r` moves `j` on by
/// the state byte at `r` and the key byte at `r` modulo the key's length,
/// and trades the state bytes at `r` and `j`; nothing else moves.
pub proof fn lemma_ksa_step(key: Seq<u8>, r: nat)
    requires
        key.len() > 0,
        r < 256,
    ensures
        ({
            let (s0, j0) = ksa(key, r);
            let (s1, j1) = ksa(key, r + 1);
            let j = (j0 + s0[r as int] + key[(r % key.len()) as int]) % 256;
            &&& j1 == j
            &&& s1.len() == 256
            &&& s1[r as int] == s0[j]
            &&& s1[j] == s0[r as int]
            &&& forall|t: int| 0 <= t < 256 && t != r && t != j ==> #[trigger] s1[t] == s0[t]
        }),
{
    lemma_ksa_len(key, r);
    lemma_ksa_len(key, r + 1);
}
} // verus!
