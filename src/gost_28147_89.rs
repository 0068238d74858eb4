//! The GOST 28147-89 block cipher: a 32-round Feistel network over a 64-bit
//! block with a 256-bit key, and its simple replacement (electronic codebook)
//! mode, which transforms a byte buffer in place, block by block.
use vstd::prelude::*;

verus! {

/// A 256-bit key: eight 32-bit subkeys, in order.
#[derive(Clone, Copy)]
pub struct Key(pub [u32; 8]);

/// The substitution tables: for each of the four bytes of a word, one row of
/// sixteen nibbles for its low nibble and one for its high nibble. Nibble `v`
/// of a row is held in bits `60 - 4v .. 64 - 4v`.
pub open spec fn sbox_table() -> [[u64; 2]; 4] {
    [
        [0x0123456789ABCDEF, 0x1123456789ABCDEF],
        [0x2123456789ABCDEF, 0x3123456789ABCDEF],
        [0x4123456789ABCDEF, 0x5123456789ABCDEF],
        [0x6123456789ABCDEF, 0x7123456789ABCDEF],
    ]
}

/// Entry `v` of a row, read by shifting it right into the low nibble.
pub open spec fn nibble_by_right_shift(row: u64, v: u8) -> u8 {
    ((row >> (60 - v * 4) as u64) & 0x0F) as u8
}

/// Entry `v` of a row, read by shifting it to the top and then down.
pub open spec fn nibble_by_left_shift(row: u64, v: u8) -> u8 {
    (((row << (v * 4) as u64) >> 60u64) & 0x0F) as u8
}

/// Byte `i` of `x` in little-endian order.
pub open spec fn le_byte(x: u32, i: int) -> u8 {
    ((x >> (8 * i) as u32) & 0xFF) as u8
}

/// The word whose little-endian bytes are `b0, b1, b2, b3`.
pub open spec fn word_from_le(b0: u8, b1: u8, b2: u8, b3: u8) -> u32 {
    (b0 as u32) | ((b1 as u32) << 8u32) | ((b2 as u32) << 16u32) | ((b3 as u32) << 24u32)
}

/// The substitution of one byte through its pair of rows, read by right shifts.
pub open spec fn byte_by_right_shift(row: [u64; 2], b: u8) -> u8 {
    ((nibble_by_right_shift(row[1], b >> 4u8) << 4u8) | nibble_by_right_shift(row[0], b & 0x0F))
        as u8
}

/// The substitution of one byte through its pair of rows, read by left and
/// right shifts.
pub open spec fn byte_by_left_shift(row: [u64; 2], b: u8) -> u8 {
    ((nibble_by_left_shift(row[1], b >> 4u8) << 4u8) | nibble_by_left_shift(row[0], b & 0x0F))
        as u8
}

/// The substitution of a word, each table entry read by a right shift.
pub open spec fn subst_by_right_shift(t: [[u64; 2]; 4], x: u32) -> u32 {
    word_from_le(
        byte_by_right_shift(t[0], le_byte(x, 0)),
        byte_by_right_shift(t[1], le_byte(x, 1)),
        byte_by_right_shift(t[2], le_byte(x, 2)),
        byte_by_right_shift(t[3], le_byte(x, 3)),
    )
}

/// The substitution of a word, each table entry read by a left and a right shift.
pub open spec fn subst_by_left_shift(t: [[u64; 2]; 4], x: u32) -> u32 {
    word_from_le(
        byte_by_left_shift(t[0], le_byte(x, 0)),
        byte_by_left_shift(t[1], le_byte(x, 1)),
        byte_by_left_shift(t[2], le_byte(x, 2)),
        byte_by_left_shift(t[3], le_byte(x, 3)),
    )
}

/// The cipher's substitution network.
pub open spec fn sbox(x: u32) -> u32 {
    subst_by_right_shift(sbox_table(), x)
}

proof fn lemma_nibble_strategies_agree(row: u64, v: u8)
    requires
        v < 16,
    ensures
        nibble_by_right_shift(row, v) == nibble_by_left_shift(row, v),
{
    let s: u64 = v as u64;
    assert(((row >> ((60 - s * 4) as u64)) & 0x0F) == (((row << ((s * 4) as u64)) >> 60u64) & 0x0F))
        by (bit_vector)
        requires
            s < 16,
    ;
}

/// Both ways of reading the substitution tables give the same word, for every
/// table and every input.
pub proof fn lemma_substitution_strategies_agree(t: [[u64; 2]; 4], x: u32)
    ensures
        subst_by_right_shift(t, x) == subst_by_left_shift(t, x),
{
    assert forall|b: u8| #![auto] (b >> 4u8) < 16 && (b & 0x0F) < 16 by {
        assert((b >> 4u8) < 16 && (b & 0x0F) < 16) by (bit_vector);
    }
    assert forall|row: [u64; 2], b: u8| #![auto]
        byte_by_right_shift(row, b) == byte_by_left_shift(row, b) by {
        lemma_nibble_strategies_agree(row[1], b >> 4u8);
        lemma_nibble_strategies_agree(row[0], b & 0x0F);
    }
}

/// The cipher's working state: the subkeys, the pair of registers that holds
/// the block being transformed, scratch words for the round sums, and the
/// substitution tables.
pub struct State {
    x_key: [u32; 8],
    n_acc: [u32; 4],
    c_sum: [u32; 4],
    k_blk: [[u64; 2]; 4],
}

impl State {
    /// The substitution tables this state reads.
    pub closed spec fn table(&self) -> [[u64; 2]; 4] {
        self.k_blk
    }

    /// The subkeys this state applies.
    pub closed spec fn subkeys(&self) -> Seq<u32> {
        self.x_key@
    }

    /// The registers: `N1`, `N2` and two spare words.
    pub closed spec fn registers(&self) -> Seq<u32> {
        self.n_acc@
    }

    /// The scratch words that hold the round sums.
    pub closed spec fn scratch(&self) -> Seq<u32> {
        self.c_sum@
    }

    /// A state is well formed when it holds the cipher's substitution tables.
    pub open spec fn wf(&self) -> bool {
        self.table() == sbox_table()
    }
}

impl Default for State {
    fn default() -> (s: Self)
        ensures
            s.wf(),
            s.subkeys() == seq![0u32, 0u32, 0u32, 0u32, 0u32, 0u32, 0u32, 0u32],
            s.registers() == seq![0u32, 0u32, 0u32, 0u32],
            s.scratch() == seq![0u32, 0u32, 0u32, 0u32],
    {
        let s = Self {
            x_key: [0; 8],
            n_acc: [0; 4],
            c_sum: [0; 4],
            k_blk: [
                [0x0123456789ABCDEF, 0x1123456789ABCDEF],
                [0x2123456789ABCDEF, 0x3123456789ABCDEF],
                [0x4123456789ABCDEF, 0x5123456789ABCDEF],
                [0x6123456789ABCDEF, 0x7123456789ABCDEF],
            ],
        };
        assert(s.x_key@ =~= seq![0u32, 0u32, 0u32, 0u32, 0u32, 0u32, 0u32, 0u32]);
        assert(s.n_acc@ =~= seq![0u32, 0u32, 0u32, 0u32]);
        assert(s.c_sum@ =~= seq![0u32, 0u32, 0u32, 0u32]);
        s
    }
}

/// The little-endian bytes of a word.
fn le_bytes(x: u32) -> (r: [u8; 4])
    ensures
        forall|i: int| 0 <= i < 4 ==> r[i] == le_byte(x, i),
{
    assert(x >> 0u32 == x) by (bit_vector);
    [(x & 0xFF) as u8, ((x >> 8u32) & 0xFF) as u8, ((x >> 16u32) & 0xFF) as u8, ((x >> 24u32) & 0xFF) as u8]
}

/// The word whose little-endian bytes are `b`.
fn word_from_le_bytes(b: [u8; 4]) -> (r: u32)
    ensures
        r == word_from_le(b[0], b[1], b[2], b[3]),
{
    (b[0] as u32) | ((b[1] as u32) << 8u32) | ((b[2] as u32) << 16u32) | ((b[3] as u32) << 24u32)
}

proof fn lemma_nibbles(b: u8)
    ensures
        b & 0x0F < 16,
        (b & 0xF0) >> 4u8 == b >> 4u8,
        b >> 4u8 < 16,
        ((b & 0xF0) / 4) == (b >> 4u8) * 4,
{
    assert(b & 0x0F < 16) by (bit_vector);
    assert((b & 0xF0) >> 4u8 == b >> 4u8) by (bit_vector);
    assert(b >> 4u8 < 16) by (bit_vector);
    assert(((b & 0xF0) / 4) == (b >> 4u8) * 4) by (bit_vector);
}

impl State {
    /// Builds the state for `key`, with the cipher's substitution tables.
    pub fn with(key: Key) -> (s: Self)
        ensures
            s.wf(),
            s.subkeys() == key.0@,
            s.registers() == seq![0u32, 0u32, 0u32, 0u32],
            s.scratch() == seq![0u32, 0u32, 0u32, 0u32],
    {
        let mut s = Self::default();
        s.x_key = key.0;
        s
    }

    /// Substitutes each nibble of `inpt` through the tables, reading each
    /// entry by shifting its row right.
    pub fn subs_2(&self, inpt: u32) -> (r: u32)
        ensures
            r == subst_by_right_shift(self.table(), inpt),
    {
        let bytes = le_bytes(inpt);
        let mut out: [u8; 4] = [0; 4];
        let mut i: usize = 0;
        while i < 4
            invariant
                0 <= i <= 4,
                forall|j: int| 0 <= j < 4 ==> bytes[j] == le_byte(inpt, j),
                forall|j: int|
                    0 <= j < i ==> out[j] == byte_by_right_shift(self.k_blk[j], le_byte(inpt, j)),
            decreases 4 - i,
        {
            let b = bytes[i];
            proof {
                lemma_nibbles(b);
            }
            let first = b & 0x0F;
            let secnd = (b & 0xF0) >> 4;
            let first = ((self.k_blk[i][0] >> (60 - first as u64 * 4)) & 0x0F) as u8;
            let secnd = ((self.k_blk[i][1] >> (60 - secnd as u64 * 4)) & 0x0F) as u8;
            out[i] = (secnd << 4) | first;
            i += 1;
        }
        word_from_le_bytes(out)
    }

    /// Substitutes each nibble of `inpt` through the tables, reading each
    /// entry by shifting it to the top of its row and then down.
    pub fn substitute(&self, inpt: u32) -> (r: u32)
        ensures
            r == subst_by_left_shift(self.table(), inpt),
    {
        let mut bytes = le_bytes(inpt);
        let mut i: usize = 0;
        while i < 4
            invariant
                0 <= i <= 4,
                forall|j: int| i <= j < 4 ==> bytes[j] == le_byte(inpt, j),
                forall|j: int|
                    0 <= j < i ==> bytes[j] == byte_by_left_shift(self.k_blk[j], le_byte(inpt, j)),
            decreases 4 - i,
        {
            let b = bytes[i];
            proof {
                lemma_nibbles(b);
            }
            let first = b & 0x0F;
            let secnd = b & 0xF0;
            let first = (((self.k_blk[i][0] << (first as u64 * 4)) >> 60) & 0x0F) as u8;
            let secnd = (((self.k_blk[i][1] << (secnd as u64 / 4)) >> 60) & 0x0F) as u8;
            bytes[i] = (secnd << 4) | first;
            i += 1;
        }
        word_from_le_bytes(bytes)
    }
}

/// Addition modulo 2^32.
pub open spec fn add_mod32(a: u32, b: u32) -> u32 {
    ((a + b) % 0x1_0000_0000) as u32
}

/// Addition modulo 2^32 - 1, in which `0` and `0xFFFFFFFF` stand for the same
/// residue: a sum that reaches `u32::MAX` wraps by `u32::MAX`, so that only the
/// sum of two `u32::MAX` gives `u32::MAX`.
pub open spec fn add_mod32_minus1(a: u32, b: u32) -> u32 {
    if a + b < u32::MAX {
        (a + b) as u32
    } else {
        (a + b - u32::MAX) as u32
    }
}

/// Adds modulo 2^32.
pub fn sum_m0(a: u32, b: u32) -> (r: u32)
    ensures
        r == add_mod32(a, b),
{
    a.wrapping_add(b)
}

/// Adds modulo 2^32 - 1.
pub fn sum_m1(a: u32, b: u32) -> (r: u32)
    ensures
        r == add_mod32_minus1(a, b),
        r as int % (u32::MAX as int) == (a + b) % (u32::MAX as int),
{
    let mut r = a.wrapping_add(b).wrapping_add(1);
    if u32::MAX - b > a {
        r -= 1;
    }
    assert((a + b) % (u32::MAX as int) == (a + b - u32::MAX) % (u32::MAX as int)) by (nonlinear_arith);
    r
}

/// Bitwise exclusive-or of two words.
pub fn xor_32(a: u32, b: u32) -> (r: u32)
    ensures
        r == a ^ b,
{
    a ^ b
}

/// Bitwise exclusive-or of two 64-bit words.
pub fn xor_64(a: u64, b: u64) -> (r: u64)
    ensures
        r == a ^ b,
{
    a ^ b
}

/// The remainder of the sum modulo 2^32 - 1, computed in 64 bits.
pub fn sum_t1(a: u32, b: u32) -> (r: u32)
    ensures
        r == (a + b) % (u32::MAX as int),
{
    let r = a as u64 + b as u64;
    (r % u32::MAX as u64) as u32
}

/// Addition modulo 2^32 - 1 by a wrapping sum and a carry test.
pub fn sum_t2(a: u32, b: u32) -> (r: u32)
    ensures
        r == add_mod32_minus1(a, b),
{
    let mut r = a.wrapping_add(b).wrapping_add(1);
    if u32::MAX - b > a {
        r -= 1;
    }
    r
}

/// Rotation of a word left by eleven bits.
pub open spec fn rotl11(x: u32) -> u32 {
    (x << 11u32) | (x >> 21u32)
}

/// The round function: add the subkey, substitute, rotate.
#[verifier::opaque]
pub open spec fn round_fn(k: u32, n1: u32) -> u32 {
    rotl11(sbox(add_mod32(k, n1)))
}

/// One Feistel round on the register pair `(N1, N2)` with subkey `k`.
pub open spec fn feistel_round(k: u32, p: (u32, u32)) -> (u32, u32) {
    (p.1 ^ round_fn(k, p.0), p.0)
}

/// The subkey that round `i` of an encryption applies.
pub open spec fn encrypt_key_index(i: int) -> int {
    if i < 24 {
        i % 8
    } else {
        7 - i % 8
    }
}

/// The subkey that round `i` of a decryption applies.
pub open spec fn decrypt_key_index(i: int) -> int {
    if i < 8 {
        i % 8
    } else {
        7 - i % 8
    }
}

/// The subkey that round `i` applies in the given direction.
pub open spec fn key_index(encrypt: bool, i: int) -> int {
    if encrypt {
        encrypt_key_index(i)
    } else {
        decrypt_key_index(i)
    }
}

/// The register pair after the first `n` rounds in the given direction.
pub open spec fn rounds(key: Seq<u32>, encrypt: bool, n: nat, p: (u32, u32)) -> (u32, u32)
    decreases n,
{
    if n == 0 {
        p
    } else {
        feistel_round(key[key_index(encrypt, n - 1)], rounds(key, encrypt, (n - 1) as nat, p))
    }
}

/// One block through the cipher: 32 rounds, then the two registers exchanged.
pub open spec fn crypt_block(key: Seq<u32>, encrypt: bool, p: (u32, u32)) -> (u32, u32) {
    let q = rounds(key, encrypt, 32, p);
    (q.1, q.0)
}

/// One round on the state's registers with subkey `k`, keeping the round
/// sums in the scratch words.
fn feistel_step(state: &mut State, k: usize)
    requires
        old(state).wf(),
        k < 8,
    ensures
        final(state).wf(),
        final(state).x_key == old(state).x_key,
        final(state).n_acc[2] == old(state).n_acc[2],
        final(state).n_acc[3] == old(state).n_acc[3],
        (final(state).n_acc[0], final(state).n_acc[1]) == feistel_round(
            old(state).x_key[k as int],
            (old(state).n_acc[0], old(state).n_acc[1]),
        ),
{
    state.c_sum[0] = sum_m0(state.x_key[k], state.n_acc[0]);
    let s = state.substitute(state.c_sum[0]);
    proof {
        lemma_substitution_strategies_agree(state.k_blk, state.c_sum[0]);
        reveal(round_fn);
    }
    let r = (s << 11) | (s >> 21);
    state.c_sum[1] = xor_32(state.n_acc[1], r);
    state.n_acc[1] = state.n_acc[0];
    state.n_acc[0] = state.c_sum[1];
}

/// Exchanges the two registers.
fn swap_registers(state: &mut State)
    ensures
        final(state).k_blk == old(state).k_blk,
        final(state).x_key == old(state).x_key,
        final(state).n_acc[0] == old(state).n_acc[1],
        final(state).n_acc[1] == old(state).n_acc[0],
        final(state).n_acc[2] == old(state).n_acc[2],
        final(state).n_acc[3] == old(state).n_acc[3],
{
    let t = state.n_acc[0];
    state.n_acc[0] = state.n_acc[1];
    state.n_acc[1] = t;
}

/// Encrypts the block held in the registers.
fn round_encode(state: &mut State)
    requires
        old(state).wf(),
    ensures
        final(state).wf(),
        final(state).x_key == old(state).x_key,
        final(state).k_blk == old(state).k_blk,
        final(state).n_acc[2] == old(state).n_acc[2],
        final(state).n_acc[3] == old(state).n_acc[3],
        (final(state).n_acc[0], final(state).n_acc[1]) == crypt_block(
            old(state).x_key@,
            true,
            (old(state).n_acc[0], old(state).n_acc[1]),
        ),
{
    let ghost start = (state.n_acc[0], state.n_acc[1]);
    let ghost key = state.x_key@;
    let ghost spare = (state.n_acc[2], state.n_acc[3]);
    let mut i: usize = 0;
    while i < 24
        invariant
            0 <= i <= 24,
            state.wf(),
            state.x_key@ == key,
            key.len() == 8,
            (state.n_acc[2], state.n_acc[3]) == spare,
            (state.n_acc[0], state.n_acc[1]) == rounds(key, true, i as nat, start),
        decreases 24 - i,
    {
        feistel_step(state, i % 8);
        i += 1;
    }
    while i < 32
        invariant
            24 <= i <= 32,
            state.wf(),
            state.x_key@ == key,
            key.len() == 8,
            (state.n_acc[2], state.n_acc[3]) == spare,
            (state.n_acc[0], state.n_acc[1]) == rounds(key, true, i as nat, start),
        decreases 32 - i,
    {
        feistel_step(state, 7 - (i % 8));
        i += 1;
    }
    swap_registers(state);
}

/// Decrypts the block held in the registers.
fn round_decode(state: &mut State)
    requires
        old(state).wf(),
    ensures
        final(state).wf(),
        final(state).x_key == old(state).x_key,
        final(state).k_blk == old(state).k_blk,
        final(state).n_acc[2] == old(state).n_acc[2],
        final(state).n_acc[3] == old(state).n_acc[3],
        (final(state).n_acc[0], final(state).n_acc[1]) == crypt_block(
            old(state).x_key@,
            false,
            (old(state).n_acc[0], old(state).n_acc[1]),
        ),
{
    let ghost start = (state.n_acc[0], state.n_acc[1]);
    let ghost key = state.x_key@;
    let ghost spare = (state.n_acc[2], state.n_acc[3]);
    let mut i: usize = 0;
    while i < 8
        invariant
            0 <= i <= 8,
            state.wf(),
            state.x_key@ == key,
            key.len() == 8,
            (state.n_acc[2], state.n_acc[3]) == spare,
            (state.n_acc[0], state.n_acc[1]) == rounds(key, false, i as nat, start),
        decreases 8 - i,
    {
        feistel_step(state, i % 8);
        i += 1;
    }
    while i < 32
        invariant
            8 <= i <= 32,
            state.wf(),
            state.x_key@ == key,
            key.len() == 8,
            (state.n_acc[2], state.n_acc[3]) == spare,
            (state.n_acc[0], state.n_acc[1]) == rounds(key, false, i as nat, start),
        decreases 32 - i,
    {
        feistel_step(state, 7 - (i % 8));
        i += 1;
    }
    swap_registers(state);
}

/// The word whose big-endian bytes are `b0, b1, b2, b3`.
pub open spec fn be_word(b0: u8, b1: u8, b2: u8, b3: u8) -> u32 {
    ((b0 as u32) << 24u32) | ((b1 as u32) << 16u32) | ((b2 as u32) << 8u32) | (b3 as u32)
}

/// Byte `k` (0 to 3) of `w` in big-endian order.
pub open spec fn be_byte(w: u32, k: int) -> u8 {
    ((w >> ((24 - 8 * k) as u32)) & 0xFF) as u8
}

/// Byte `k` (0 to 7) of a register pair written out big-endian, `N1` first.
pub open spec fn pair_byte(p: (u32, u32), k: int) -> u8 {
    if k < 4 {
        be_byte(p.0, k)
    } else {
        be_byte(p.1, k - 4)
    }
}

/// The register pair read from the eight bytes of `s` that start at `at`.
pub open spec fn pair_at(s: Seq<u8>, at: int) -> (u32, u32) {
    (
        be_word(s[at], s[at + 1], s[at + 2], s[at + 3]),
        be_word(s[at + 4], s[at + 5], s[at + 6], s[at + 7]),
    )
}

/// The number of bytes of a buffer of length `n` that lie in whole blocks.
pub open spec fn whole_blocks_len(n: int) -> int {
    n - n % 8
}

/// Simple replacement mode: each whole 8-byte block of `s` goes through the
/// cipher on its own; the bytes after the last whole block stay as they are.
pub open spec fn simple_replacement(key: Seq<u32>, encrypt: bool, s: Seq<u8>) -> Seq<u8> {
    Seq::new(
        s.len(),
        |i: int|
            if i < whole_blocks_len(s.len() as int) {
                pair_byte(crypt_block(key, encrypt, pair_at(s, i - i % 8)), i % 8)
            } else {
                s[i]
            },
    )
}

/// Reads a block as two big-endian words.
fn u32x2_from_be(x: [u8; 8]) -> (r: [u32; 2])
    ensures
        (r[0], r[1]) == pair_at(x@, 0),
{
    [
        ((x[0] as u32) << 24u32) | ((x[1] as u32) << 16u32) | ((x[2] as u32) << 8u32) | (x[3] as u32),
        ((x[4] as u32) << 24u32) | ((x[5] as u32) << 16u32) | ((x[6] as u32) << 8u32) | (x[7] as u32),
    ]
}

/// Writes two words as a block of big-endian bytes.
fn u32x2_to_be(x: [u32; 2]) -> (r: [u8; 8])
    ensures
        forall|k: int| 0 <= k < 8 ==> r[k] == pair_byte((x[0], x[1]), k),
{
    let (a, e) = (x[0], x[1]);
    let r = [
        ((a >> 24u32) & 0xFF) as u8,
        ((a >> 16u32) & 0xFF) as u8,
        ((a >> 8u32) & 0xFF) as u8,
        (a & 0xFF) as u8,
        ((e >> 24u32) & 0xFF) as u8,
        ((e >> 16u32) & 0xFF) as u8,
        ((e >> 8u32) & 0xFF) as u8,
        (e & 0xFF) as u8,
    ];
    assert(a >> 0u32 == a && e >> 0u32 == e) by (bit_vector);
    r
}

/// Runs every whole block of `data` through the cipher in place.
fn simple_replacement_in_place(data: &mut [u8], key: Key, encrypt: bool)
    ensures
        final(data)@ == simple_replacement(key.0@, encrypt, old(data)@),
{
    let ghost input = data@;
    let mut state = State::with(key);
    let nblocks = data.len() / 8;
    proof {
        assert(whole_blocks_len(input.len() as int) == 8 * nblocks) by (nonlinear_arith)
            requires
                nblocks == input.len() / 8,
        ;
    }
    let mut j: usize = 0;
    while j < nblocks
        invariant
            0 <= j <= nblocks,
            nblocks == input.len() / 8,
            whole_blocks_len(input.len() as int) == 8 * nblocks,
            8 * nblocks <= input.len() <= usize::MAX,
            data@.len() == input.len(),
            state.wf(),
            state.x_key@ == key.0@,
            forall|i: int|
                0 <= i < 8 * j ==> data@[i] == simple_replacement(key.0@, encrypt, input)[i],
            forall|i: int| 8 * j <= i < input.len() ==> data@[i] == input[i],
        decreases nblocks - j,
    {
        proof {
            assert(8 * j + 8 <= 8 * nblocks) by (nonlinear_arith)
                requires
                    j < nblocks,
            ;
        }
        let at = 8 * j;
        let block: [u8; 8] = [
            data[at],
            data[at + 1],
            data[at + 2],
            data[at + 3],
            data[at + 4],
            data[at + 5],
            data[at + 6],
            data[at + 7],
        ];
        assert(pair_at(block@, 0) == pair_at(input, at as int));
        let words = u32x2_from_be(block);
        state.n_acc[0] = words[0];
        state.n_acc[1] = words[1];
        if encrypt {
            round_encode(&mut state);
        } else {
            round_decode(&mut state);
        }
        let out = u32x2_to_be([state.n_acc[0], state.n_acc[1]]);
        let mut k: usize = 0;
        while k < 8
            invariant
                0 <= k <= 8,
                at == 8 * j,
                at + 8 <= input.len(),
                data@.len() == input.len(),
                forall|i: int|
                    0 <= i < at ==> data@[i] == simple_replacement(key.0@, encrypt, input)[i],
                forall|i: int| at <= i < at + k ==> data@[i] == out[i - at],
                forall|i: int| at + k <= i < input.len() ==> data@[i] == input[i],
            decreases 8 - k,
        {
            data[at + k] = out[k];
            k += 1;
        }
        proof {
            assert forall|i: int| at <= i < at + 8 implies data@[i]
                == simple_replacement(key.0@, encrypt, input)[i] by {
                assert(i % 8 == i - at && i - i % 8 == at) by (nonlinear_arith)
                    requires
                        at == 8 * j,
                        at <= i < at + 8,
                ;
            }
        }
        j += 1;
    }
}

/// Encrypts in place every whole 8-byte block of `data` with `key`, each block
/// on its own; trailing bytes that do not fill a block are left as they are.
pub fn simple_repl_encode(data: &mut [u8], key: Key)
    ensures
        final(data)@ == simple_replacement(key.0@, true, old(data)@),
{
    simple_replacement_in_place(data, key, true);
}

/// Decrypts in place every whole 8-byte block of `data` with `key`, each block
/// on its own; trailing bytes that do not fill a block are left as they are.
pub fn simple_repl_decode(data: &mut [u8], key: Key)
    ensures
        final(data)@ == simple_replacement(key.0@, false, old(data)@),
{
    simple_replacement_in_place(data, key, false);
}

/// Block `j` of a buffer: its bytes `8j .. 8j + 8`.
pub open spec fn block(s: Seq<u8>, j: int) -> Seq<u8> {
    s.subrange(8 * j, 8 * j + 8)
}

/// The eight big-endian bytes of a register pair, `N1` first.
pub open spec fn pair_bytes(p: (u32, u32)) -> Seq<u8> {
    Seq::new(8, |k: int| pair_byte(p, k))
}

proof fn lemma_xor_cancels(b: u32, c: u32)
    ensures
        (b ^ c) ^ c == b,
{
    assert((b ^ c) ^ c == b) by (bit_vector);
}

/// Rounds in one direction retrace the rounds of the other one by one: after
/// `m` rounds the registers hold, exchanged, what the other direction held
/// after `32 - m` rounds.
proof fn lemma_rounds_undone(key: Seq<u32>, encrypt: bool, p: (u32, u32), m: nat)
    requires
        key.len() == 8,
        m <= 32,
    ensures
        ({
            let e = rounds(key, encrypt, 32, p);
            let q = rounds(key, encrypt, (32 - m) as nat, p);
            rounds(key, !encrypt, m, (e.1, e.0)) == (q.1, q.0)
        }),
    decreases m,
{
    if m > 0 {
        let mm = (m - 1) as nat;
        let n = (32 - m) as nat;
        lemma_rounds_undone(key, encrypt, p, mm);
        let e = rounds(key, encrypt, 32, p);
        let k = key[key_index(!encrypt, mm as int)];
        assert(key_index(!encrypt, mm as int) == key_index(encrypt, n as int));
        let ab = rounds(key, encrypt, n, p);
        assert(rounds(key, encrypt, (n + 1) as nat, p) == feistel_round(k, ab));
        assert(rounds(key, !encrypt, m, (e.1, e.0)) == feistel_round(
            k,
            rounds(key, !encrypt, mm, (e.1, e.0)),
        ));
        lemma_xor_cancels(ab.1, round_fn(k, ab.0));
    }
}

/// A block run through the cipher in one direction and then in the other,
/// under the same key, comes back unchanged.
pub proof fn lemma_block_round_trip(key: Seq<u32>, encrypt: bool, p: (u32, u32))
    requires
        key.len() == 8,
    ensures
        crypt_block(key, !encrypt, crypt_block(key, encrypt, p)) == p,
{
    lemma_rounds_undone(key, encrypt, p, 32);
}

proof fn lemma_be_word_of_bytes(w: u32)
    ensures
        be_word(be_byte(w, 0), be_byte(w, 1), be_byte(w, 2), be_byte(w, 3)) == w,
{
    assert(be_byte(w, 0) == ((w >> 24u32) & 0xFF) as u8);
    assert(be_byte(w, 1) == ((w >> 16u32) & 0xFF) as u8);
    assert(be_byte(w, 2) == ((w >> 8u32) & 0xFF) as u8);
    assert(be_byte(w, 3) == ((w >> 0u32) & 0xFF) as u8);
    assert(((((((w >> 24u32) & 0xFF) as u8) as u32) << 24u32) | (((((w >> 16u32) & 0xFF) as u8)
        as u32) << 16u32) | (((((w >> 8u32) & 0xFF) as u8) as u32) << 8u32) | ((((w >> 0u32)
        & 0xFF) as u8) as u32)) == w) by (bit_vector);
}

proof fn lemma_bytes_of_be_word(b0: u8, b1: u8, b2: u8, b3: u8)
    ensures
        be_byte(be_word(b0, b1, b2, b3), 0) == b0,
        be_byte(be_word(b0, b1, b2, b3), 1) == b1,
        be_byte(be_word(b0, b1, b2, b3), 2) == b2,
        be_byte(be_word(b0, b1, b2, b3), 3) == b3,
{
    let w = be_word(b0, b1, b2, b3);
    assert(be_byte(w, 0) == ((w >> 24u32) & 0xFF) as u8);
    assert(be_byte(w, 1) == ((w >> 16u32) & 0xFF) as u8);
    assert(be_byte(w, 2) == ((w >> 8u32) & 0xFF) as u8);
    assert(be_byte(w, 3) == ((w >> 0u32) & 0xFF) as u8);
    assert({
        let w = ((b0 as u32) << 24u32) | ((b1 as u32) << 16u32) | ((b2 as u32) << 8u32) | (b3 as u32);
        &&& ((w >> 24u32) & 0xFF) as u8 == b0
        &&& ((w >> 16u32) & 0xFF) as u8 == b1
        &&& ((w >> 8u32) & 0xFF) as u8 == b2
        &&& ((w >> 0u32) & 0xFF) as u8 == b3
    }) by (bit_vector);
}

/// Reading back the bytes of a register pair gives the pair.
proof fn lemma_pair_of_bytes(s: Seq<u8>, at: int, p: (u32, u32))
    requires
        0 <= at,
        at + 8 <= s.len(),
        forall|k: int| 0 <= k < 8 ==> s[at + k] == pair_byte(p, k),
    ensures
        pair_at(s, at) == p,
{
    assert(s[at] == pair_byte(p, 0) && s[at + 1] == pair_byte(p, 1));
    assert(s[at + 2] == pair_byte(p, 2) && s[at + 3] == pair_byte(p, 3));
    assert(s[at + 4] == pair_byte(p, 4) && s[at + 5] == pair_byte(p, 5));
    assert(s[at + 6] == pair_byte(p, 6) && s[at + 7] == pair_byte(p, 7));
    lemma_be_word_of_bytes(p.0);
    lemma_be_word_of_bytes(p.1);
}

/// Writing out the pair read from eight bytes gives those bytes.
proof fn lemma_bytes_of_pair(s: Seq<u8>, at: int, k: int)
    requires
        0 <= at,
        at + 8 <= s.len(),
        0 <= k < 8,
    ensures
        pair_byte(pair_at(s, at), k) == s[at + k],
{
    lemma_bytes_of_be_word(s[at], s[at + 1], s[at + 2], s[at + 3]);
    lemma_bytes_of_be_word(s[at + 4], s[at + 5], s[at + 6], s[at + 7]);
}

/// Where byte `8j + k` of a buffer of length `n` stands: in block `j`, at
/// offset `k`, before the end of the whole blocks.
proof fn lemma_block_position(n: int, j: int, k: int)
    requires
        0 <= j,
        8 * j + 8 <= n,
        0 <= k < 8,
    ensures
        (8 * j + k) % 8 == k,
        (8 * j + k) - (8 * j + k) % 8 == 8 * j,
        8 * j + k < whole_blocks_len(n),
{
    assert((8 * j + k) % 8 == k) by (nonlinear_arith)
        requires
            0 <= k < 8,
    ;
    assert(8 * j + 8 <= n - n % 8) by (nonlinear_arith)
        requires
            0 <= j,
            8 * j + 8 <= n,
    ;
}

/// Every byte of the whole blocks is byte `k` of block `j` for some `j`, `k`.
proof fn lemma_block_of_index(n: int, i: int)
    requires
        0 <= i < whole_blocks_len(n),
    ensures
        i % 8 < 8,
        i - i % 8 == 8 * (i / 8),
        0 <= i / 8,
        8 * (i / 8) + 8 <= n,
{
    assert(8 * (i / 8) + 8 <= n) by (nonlinear_arith)
        requires
            0 <= i < n - n % 8,
    ;
}

/// Each whole block of the output of simple replacement is the cipher applied
/// to the matching block of the input.
proof fn lemma_block_of_output(key: Seq<u32>, encrypt: bool, s: Seq<u8>, j: int)
    requires
        0 <= j,
        8 * j + 8 <= s.len(),
    ensures
        block(simple_replacement(key, encrypt, s), j) == pair_bytes(
            crypt_block(key, encrypt, pair_at(s, 8 * j)),
        ),
{
    let t = simple_replacement(key, encrypt, s);
    assert forall|k: int| 0 <= k < 8 implies #[trigger] t.subrange(8 * j, 8 * j + 8)[k] == pair_bytes(
        crypt_block(key, encrypt, pair_at(s, 8 * j)),
    )[k] by {
        lemma_block_position(s.len() as int, j, k);
    }
    assert(t.subrange(8 * j, 8 * j + 8) =~= pair_bytes(crypt_block(key, encrypt, pair_at(s, 8 * j))));
}

/// Simple replacement in one direction and then in the other, under the same
/// key, gives back the buffer.
proof fn lemma_replacement_undone(key: Key, encrypt: bool, data: Seq<u8>)
    ensures
        simple_replacement(key.0@, !encrypt, simple_replacement(key.0@, encrypt, data)) == data,
{
    let k = key.0@;
    let t = simple_replacement(k, encrypt, data);
    let u = simple_replacement(k, !encrypt, t);
    assert forall|i: int| 0 <= i < data.len() implies u[i] == data[i] by {
        if i < whole_blocks_len(data.len() as int) {
            lemma_block_of_index(data.len() as int, i);
            let j = i / 8;
            let p = crypt_block(k, encrypt, pair_at(data, 8 * j));
            assert forall|kk: int| 0 <= kk < 8 implies t[8 * j + kk] == pair_byte(p, kk) by {
                lemma_block_position(data.len() as int, j, kk);
            }
            lemma_pair_of_bytes(t, 8 * j, p);
            lemma_block_round_trip(k, encrypt, pair_at(data, 8 * j));
            lemma_bytes_of_pair(data, 8 * j, i % 8);
        }
    }
    assert(u =~= data);
}

/// Round trip: decrypting in simple replacement mode what was encrypted in it
/// under the same key gives back the buffer, for every buffer; a trailing
/// partial block passes through both unchanged.
pub proof fn lemma_round_trip(key: Key, data: Seq<u8>)
    ensures
        simple_replacement(key.0@, false, simple_replacement(key.0@, true, data)) == data,
{
    lemma_replacement_undone(key, true, data);
}

/// Encrypting in simple replacement mode what was decrypted in it under the
/// same key gives back the buffer, for every buffer.
pub proof fn lemma_round_trip_decode_first(key: Key, data: Seq<u8>)
    ensures
        simple_replacement(key.0@, true, simple_replacement(key.0@, false, data)) == data,
{
    lemma_replacement_undone(key, false, data);
}

/// Simple replacement is a codebook: two equal whole blocks of the input give
/// two equal blocks of the output.
pub proof fn lemma_equal_blocks_encode_equally(key: Key, data: Seq<u8>, i: int, j: int)
    requires
        0 <= i,
        0 <= j,
        8 * i + 8 <= data.len(),
        8 * j + 8 <= data.len(),
        block(data, i) == block(data, j),
    ensures
        block(simple_replacement(key.0@, true, data), i) == block(
            simple_replacement(key.0@, true, data),
            j,
        ),
{
    let a = data.subrange(8 * i, 8 * i + 8);
    let b = data.subrange(8 * j, 8 * j + 8);
    assert(a[0] == b[0] && a[1] == b[1] && a[2] == b[2] && a[3] == b[3]);
    assert(a[4] == b[4] && a[5] == b[5] && a[6] == b[6] && a[7] == b[7]);
    assert(pair_at(data, 8 * i) == pair_at(data, 8 * j));
    lemma_block_of_output(key.0@, true, data, i);
    lemma_block_of_output(key.0@, true, data, j);
}

/// On a buffer of `8n + r` bytes, with `0 < r < 8`, encryption transforms each
/// of the `n` whole blocks through the cipher and leaves the last `r` bytes
/// unchanged.
pub proof fn lemma_partial_block_passes_through(key: Key, data: Seq<u8>, n: int, r: int)
    requires
        0 <= n,
        0 < r < 8,
        data.len() == 8 * n + r,
    ensures
        simple_replacement(key.0@, true, data).len() == data.len(),
        simple_replacement(key.0@, true, data).subrange(8 * n, 8 * n + r) == data.subrange(
            8 * n,
            8 * n + r,
        ),
        forall|j: int|
            0 <= j < n ==> #[trigger] block(simple_replacement(key.0@, true, data), j)
                == pair_bytes(crypt_block(key.0@, true, pair_at(data, 8 * j))),
{
    let t = simple_replacement(key.0@, true, data);
    assert(whole_blocks_len(data.len() as int) == 8 * n) by (nonlinear_arith)
        requires
            data.len() == 8 * n + r,
            0 < r < 8,
            0 <= n,
    ;
    assert(t.subrange(8 * n, 8 * n + r) =~= data.subrange(8 * n, 8 * n + r));
    assert forall|j: int| 0 <= j < n implies #[trigger] block(t, j) == pair_bytes(
        crypt_block(key.0@, true, pair_at(data, 8 * j)),
    ) by {
        assert(8 * j + 8 <= data.len()) by (nonlinear_arith)
            requires
                0 <= j < n,
                data.len() == 8 * n + r,
                0 < r,
        ;
        lemma_block_of_output(key.0@, true, data, j);
    }
}

} // verus!
