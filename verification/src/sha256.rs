//! SHA-256, to hold a download against its published checksum.
use vstd::prelude::*;

verus! {

// ---- Words ------------------------------------------------------------------------------------------

/// The sum of two words, without the carry.
pub open spec fn plus(a: u32, b: u32) -> u32 {
    ((a + b) % 0x1_0000_0000) as u32
}

pub open spec fn rotated(x: u32, n: u32) -> u32 {
    (x >> n) | (x << ((32 - n) as u32))
}

pub open spec fn large_sigma0(x: u32) -> u32 {
    rotated(x, 2) ^ rotated(x, 13) ^ rotated(x, 22)
}

pub open spec fn large_sigma1(x: u32) -> u32 {
    rotated(x, 6) ^ rotated(x, 11) ^ rotated(x, 25)
}

pub open spec fn small_sigma0(x: u32) -> u32 {
    rotated(x, 7) ^ rotated(x, 18) ^ (x >> 3u32)
}

pub open spec fn small_sigma1(x: u32) -> u32 {
    rotated(x, 17) ^ rotated(x, 19) ^ (x >> 10u32)
}

/// Each bit of `x` chooses between the bits of `y` and `z`.
pub open spec fn choice(x: u32, y: u32, z: u32) -> u32 {
    (x & y) ^ (!x & z)
}

pub open spec fn majority(x: u32, y: u32, z: u32) -> u32 {
    (x & y) ^ (x & z) ^ (y & z)
}

fn add_words(a: u32, b: u32) -> (sum: u32)
    ensures
        sum == plus(a, b),
{
    let sum: u64 = a as u64 + b as u64;
    (sum % 0x1_0000_0000) as u32
}

fn rotate(x: u32, n: u32) -> (r: u32)
    requires
        0 < n < 32,
    ensures
        r == rotated(x, n),
{
    (x >> n) | (x << (32 - n))
}

// ---- Blocks -----------------------------------------------------------------------------------------

/// The first 32 bits of the fractional parts of the cube roots of the first 64 primes.
pub open spec fn round_keys() -> Seq<u32> {
    seq![
        0x428a_2f98, 0x7137_4491, 0xb5c0_fbcf, 0xe9b5_dba5,
        0x3956_c25b, 0x59f1_11f1, 0x923f_82a4, 0xab1c_5ed5,
        0xd807_aa98, 0x1283_5b01, 0x2431_85be, 0x550c_7dc3,
        0x72be_5d74, 0x80de_b1fe, 0x9bdc_06a7, 0xc19b_f174,
        0xe49b_69c1, 0xefbe_4786, 0x0fc1_9dc6, 0x240c_a1cc,
        0x2de9_2c6f, 0x4a74_84aa, 0x5cb0_a9dc, 0x76f9_88da,
        0x983e_5152, 0xa831_c66d, 0xb003_27c8, 0xbf59_7fc7,
        0xc6e0_0bf3, 0xd5a7_9147, 0x06ca_6351, 0x1429_2967,
        0x27b7_0a85, 0x2e1b_2138, 0x4d2c_6dfc, 0x5338_0d13,
        0x650a_7354, 0x766a_0abb, 0x81c2_c92e, 0x9272_2c85,
        0xa2bf_e8a1, 0xa81a_664b, 0xc24b_8b70, 0xc76c_51a3,
        0xd192_e819, 0xd699_0624, 0xf40e_3585, 0x106a_a070,
        0x19a4_c116, 0x1e37_6c08, 0x2748_774c, 0x34b0_bcb5,
        0x391c_0cb3, 0x4ed8_aa4a, 0x5b9c_ca4f, 0x682e_6ff3,
        0x748f_82ee, 0x78a5_636f, 0x84c8_7814, 0x8cc7_0208,
        0x90be_fffa, 0xa450_6ceb, 0xbef9_a3f7, 0xc671_78f2,
    ]
}

/// The first 32 bits of the fractional parts of the square roots of the first 8 primes.
pub open spec fn first_state() -> Seq<u32> {
    seq![
        0x6a09_e667, 0xbb67_ae85, 0x3c6e_f372, 0xa54f_f53a,
        0x510e_527f, 0x9b05_688c, 0x1f83_d9ab, 0x5be0_cd19,
    ]
}

/// The words that the rounds of a block use: those of the block, then ones made of earlier ones.
pub open spec fn word(block: Seq<u32>, t: int) -> u32
    decreases t,
{
    if t < 16 {
        block[t]
    } else {
        plus(
            plus(
                plus(small_sigma1(word(block, t - 2)), word(block, t - 7)),
                small_sigma0(word(block, t - 15)),
            ),
            word(block, t - 16),
        )
    }
}

/// One round on the eight words of the state.
pub open spec fn round(s: Seq<u32>, key: u32, w: u32) -> Seq<u32> {
    let t1 = plus(
        plus(plus(plus(s[7], large_sigma1(s[4])), choice(s[4], s[5], s[6])), key),
        w,
    );
    let t2 = plus(large_sigma0(s[0]), majority(s[0], s[1], s[2]));
    seq![plus(t1, t2), s[0], s[1], s[2], plus(s[3], t1), s[4], s[5], s[6]]
}

/// The first `n` rounds of a block.
pub open spec fn rounds(s: Seq<u32>, block: Seq<u32>, n: int) -> Seq<u32>
    decreases n,
{
    if n <= 0 {
        s
    } else {
        round(rounds(s, block, n - 1), round_keys()[n - 1], word(block, n - 1))
    }
}

/// The state after a block.
pub open spec fn absorbed(s: Seq<u32>, block: Seq<u32>) -> Seq<u32> {
    Seq::new(8, |i: int| plus(s[i], rounds(s, block, 64)[i]))
}

fn keys() -> (k: Vec<u32>)
    ensures
        k@ == round_keys(),
{
    let k: Vec<u32> = vec![
        0x428a_2f98, 0x7137_4491, 0xb5c0_fbcf, 0xe9b5_dba5,
        0x3956_c25b, 0x59f1_11f1, 0x923f_82a4, 0xab1c_5ed5,
        0xd807_aa98, 0x1283_5b01, 0x2431_85be, 0x550c_7dc3,
        0x72be_5d74, 0x80de_b1fe, 0x9bdc_06a7, 0xc19b_f174,
        0xe49b_69c1, 0xefbe_4786, 0x0fc1_9dc6, 0x240c_a1cc,
        0x2de9_2c6f, 0x4a74_84aa, 0x5cb0_a9dc, 0x76f9_88da,
        0x983e_5152, 0xa831_c66d, 0xb003_27c8, 0xbf59_7fc7,
        0xc6e0_0bf3, 0xd5a7_9147, 0x06ca_6351, 0x1429_2967,
        0x27b7_0a85, 0x2e1b_2138, 0x4d2c_6dfc, 0x5338_0d13,
        0x650a_7354, 0x766a_0abb, 0x81c2_c92e, 0x9272_2c85,
        0xa2bf_e8a1, 0xa81a_664b, 0xc24b_8b70, 0xc76c_51a3,
        0xd192_e819, 0xd699_0624, 0xf40e_3585, 0x106a_a070,
        0x19a4_c116, 0x1e37_6c08, 0x2748_774c, 0x34b0_bcb5,
        0x391c_0cb3, 0x4ed8_aa4a, 0x5b9c_ca4f, 0x682e_6ff3,
        0x748f_82ee, 0x78a5_636f, 0x84c8_7814, 0x8cc7_0208,
        0x90be_fffa, 0xa450_6ceb, 0xbef9_a3f7, 0xc671_78f2,
    ];
    assert(k@ =~= round_keys());
    k
}

/// The words that the rounds of a block use.
fn schedule(block: &Vec<u32>) -> (w: Vec<u32>)
    requires
        block@.len() == 16,
    ensures
        w@.len() == 64,
        forall|t: int| 0 <= t < 64 ==> #[trigger] w@[t] == word(block@, t),
{
    let mut w: Vec<u32> = Vec::new();
    let mut t: usize = 0;
    while t < 64
        invariant
            t <= 64,
            block@.len() == 16,
            w@.len() == t,
            forall|i: int| 0 <= i < t ==> #[trigger] w@[i] == word(block@, i),
        decreases 64 - t,
    {
        let next: u32 = if t < 16 {
            block[t]
        } else {
            let a: u32 = w[t - 2];
            let b: u32 = w[t - 15];
            let s1: u32 = rotate(a, 17) ^ rotate(a, 19) ^ (a >> 10u32);
            let s0: u32 = rotate(b, 7) ^ rotate(b, 18) ^ (b >> 3u32);
            add_words(add_words(add_words(s1, w[t - 7]), s0), w[t - 16])
        };
        w.push(next);
        t += 1;
    }
    w
}

/// One round on the eight words of the state.
fn turn(s: &Vec<u32>, key: u32, w: u32) -> (next: Vec<u32>)
    requires
        s@.len() == 8,
    ensures
        next@ == round(s@, key, w),
{
    let a: u32 = s[0];
    let e: u32 = s[4];
    let s1: u32 = rotate(e, 6) ^ rotate(e, 11) ^ rotate(e, 25);
    let s0: u32 = rotate(a, 2) ^ rotate(a, 13) ^ rotate(a, 22);
    let pick: u32 = (e & s[5]) ^ (!e & s[6]);
    let most: u32 = (a & s[1]) ^ (a & s[2]) ^ (s[1] & s[2]);
    let t1: u32 = add_words(add_words(add_words(add_words(s[7], s1), pick), key), w);
    let t2: u32 = add_words(s0, most);
    let mut next: Vec<u32> = Vec::new();
    next.push(add_words(t1, t2));
    next.push(a);
    next.push(s[1]);
    next.push(s[2]);
    next.push(add_words(s[3], t1));
    next.push(e);
    next.push(s[5]);
    next.push(s[6]);
    assert(next@ =~= round(s@, key, w));
    next
}

/// The state after a block.
fn absorb(s: &Vec<u32>, block: &Vec<u32>, k: &Vec<u32>) -> (next: Vec<u32>)
    requires
        s@.len() == 8,
        block@.len() == 16,
        k@ == round_keys(),
    ensures
        next@ == absorbed(s@, block@),
{
    let w = schedule(block);
    let mut v: Vec<u32> = s.clone();
    assert(v@ =~= s@);
    let mut t: usize = 0;
    while t < 64
        invariant
            t <= 64,
            k@ == round_keys(),
            w@.len() == 64,
            forall|t: int| 0 <= t < 64 ==> #[trigger] w@[t] == word(block@, t),
            v@.len() == 8,
            v@ == rounds(s@, block@, t as int),
        decreases 64 - t,
    {
        assert(k@.len() == 64);
        v = turn(&v, k[t], w[t]);
        t += 1;
    }
    let mut next: Vec<u32> = Vec::new();
    let mut i: usize = 0;
    while i < 8
        invariant
            i <= 8,
            s@.len() == 8,
            v@.len() == 8,
            v@ == rounds(s@, block@, 64),
            next@.len() == i,
            forall|j: int| 0 <= j < i ==> #[trigger] next@[j] == plus(s@[j], v@[j]),
        decreases 8 - i,
    {
        next.push(add_words(s[i], v[i]));
        i += 1;
    }
    assert(next@ =~= absorbed(s@, block@));
    next
}

// ---- Messages ---------------------------------------------------------------------------------------

/// Four bytes as a word, the first one on top.
pub open spec fn word_of(data: Seq<u8>, at: int) -> u32 {
    (data[at] * 0x100_0000 + data[at + 1] * 0x1_0000 + data[at + 2] * 0x100 + data[at + 3]) as u32
}

/// The sixteen words of the `n`th block.
pub open spec fn block_of(data: Seq<u8>, n: int) -> Seq<u32> {
    Seq::new(16, |i: int| word_of(data, 64 * n + 4 * i))
}

/// The state after the first `n` blocks.
pub open spec fn state_after(data: Seq<u8>, n: int) -> Seq<u32>
    decreases n,
{
    if n <= 0 {
        first_state()
    } else {
        absorbed(state_after(data, n - 1), block_of(data, n - 1))
    }
}

/// The number of zero bytes between a message and its length.
pub open spec fn gap(len: int) -> int {
    (119 - len % 64) % 64
}

/// A number as eight bytes, the largest first.
pub open spec fn eight_bytes(n: int) -> Seq<u8> {
    seq![
        (n / 0x100_0000_0000_0000 % 0x100) as u8,
        (n / 0x1_0000_0000_0000 % 0x100) as u8,
        (n / 0x100_0000_0000 % 0x100) as u8,
        (n / 0x1_0000_0000 % 0x100) as u8,
        (n / 0x100_0000 % 0x100) as u8,
        (n / 0x1_0000 % 0x100) as u8,
        (n / 0x100 % 0x100) as u8,
        (n % 0x100) as u8,
    ]
}

pub open spec fn zeros(n: int) -> Seq<u8> {
    Seq::new(n as nat, |i: int| 0u8)
}

/// A message with a one bit, zeros and its length in bits behind it: whole blocks.
pub open spec fn filled_up(message: Seq<u8>) -> Seq<u8> {
    message + seq![0x80u8] + zeros(gap(message.len() as int)) + eight_bytes(8 * message.len() as int)
}

/// The digest of a message, as eight words.
pub open spec fn digest(message: Seq<u8>) -> Seq<u32> {
    let data = filled_up(message);
    state_after(data, data.len() as int / 64)
}

/// A message with a one bit, zeros and its length in bits behind it.
fn fill_up(message: &[u8]) -> (data: Vec<u8>)
    requires
        message@.len() <= 0x1fff_ffff_ffff_ff00,
    ensures
        data@ == filled_up(message@),
        data@.len() % 64 == 0,
{
    let len: usize = message.len();
    let mut data: Vec<u8> = Vec::new();
    let mut i: usize = 0;
    while i < len
        invariant
            len == message@.len(),
            i <= len,
            data@ == message@.take(i as int),
        decreases len - i,
    {
        data.push(message[i]);
        i += 1;
        assert(data@ =~= message@.take(i as int));
    }
    assert(message@.take(len as int) =~= message@);
    data.push(0x80);
    let missing: usize = (119 - len % 64) % 64;
    let mut k: usize = 0;
    while k < missing
        invariant
            k <= missing,
            missing == gap(message@.len() as int),
            data@ == message@ + seq![0x80u8] + zeros(k as int),
        decreases missing - k,
    {
        data.push(0);
        k += 1;
        assert(data@ =~= message@ + seq![0x80u8] + zeros(k as int));
    }
    push_length(8 * (len as u64), &mut data);
    proof {
        lemma_whole_blocks(len as int);
        assert(seq![0x80u8].len() == 1);
    }
    data
}

/// A number as eight bytes, the largest first.
fn push_length(bits: u64, data: &mut Vec<u8>)
    ensures
        final(data)@ == old(data)@ + eight_bytes(bits as int),
{
    let ghost before = data@;
    data.push((bits / 0x100_0000_0000_0000 % 0x100) as u8);
    data.push((bits / 0x1_0000_0000_0000 % 0x100) as u8);
    data.push((bits / 0x100_0000_0000 % 0x100) as u8);
    data.push((bits / 0x1_0000_0000 % 0x100) as u8);
    data.push((bits / 0x100_0000 % 0x100) as u8);
    data.push((bits / 0x1_0000 % 0x100) as u8);
    data.push((bits / 0x100 % 0x100) as u8);
    data.push((bits % 0x100) as u8);
    assert(data@ =~= before + eight_bytes(bits as int));
}

proof fn lemma_whole_blocks(len: int)
    requires
        0 <= len,
    ensures
        (len + 1 + gap(len) + 8) % 64 == 0,
{
}

/// The sixteen words of a block.
fn block_words(data: &Vec<u8>, n: usize) -> (block: Vec<u32>)
    requires
        64 * n + 64 <= data@.len(),
    ensures
        block@ == block_of(data@, n as int),
{
    let mut block: Vec<u32> = Vec::new();
    let mut i: usize = 0;
    assert(data.len() <= usize::MAX);
    while i < 16
        invariant
            i <= 16,
            64 * n + 64 <= data@.len(),
            data@.len() <= usize::MAX,
            block@ == block_of(data@, n as int).take(i as int),
        decreases 16 - i,
    {
        let at: usize = 64 * n + 4 * i;
        let w: u32 = data[at] as u32 * 0x100_0000 + data[at + 1] as u32 * 0x1_0000 + data[at
            + 2] as u32 * 0x100 + data[at + 3] as u32;
        block.push(w);
        i += 1;
        assert(block@ =~= block_of(data@, n as int).take(i as int));
    }
    assert(block@ =~= block_of(data@, n as int));
    block
}

/// The digest of a message, as eight words.
fn digest_words(message: &[u8]) -> (words: Vec<u32>)
    requires
        message@.len() <= 0x1fff_ffff_ffff_ff00,
    ensures
        words@ == digest(message@),
        words@.len() == 8,
{
    let data = fill_up(message);
    let k = keys();
    let mut state: Vec<u32> = vec![
        0x6a09_e667, 0xbb67_ae85, 0x3c6e_f372, 0xa54f_f53a,
        0x510e_527f, 0x9b05_688c, 0x1f83_d9ab, 0x5be0_cd19,
    ];
    assert(state@ =~= first_state());
    let blocks: usize = data.len() / 64;
    let mut n: usize = 0;
    while n < blocks
        invariant
            n <= blocks,
            blocks == data@.len() / 64,
            k@ == round_keys(),
            state@.len() == 8,
            state@ == state_after(data@, n as int),
        decreases blocks - n,
    {
        let block = block_words(&data, n);
        state = absorb(&state, &block, &k);
        n += 1;
    }
    state
}

/// One hexadecimal digit.
pub open spec fn hex_digit(d: int) -> char {
    if d < 10 {
        (48 + d) as char
    } else {
        (87 + d) as char
    }
}

/// A word in hexadecimal, eight digits.
pub open spec fn hex_word(w: u32) -> Seq<char> {
    seq![
        hex_digit(w as int / 0x1000_0000 % 16),
        hex_digit(w as int / 0x100_0000 % 16),
        hex_digit(w as int / 0x10_0000 % 16),
        hex_digit(w as int / 0x1_0000 % 16),
        hex_digit(w as int / 0x1000 % 16),
        hex_digit(w as int / 0x100 % 16),
        hex_digit(w as int / 0x10 % 16),
        hex_digit(w as int % 16),
    ]
}

/// Words in hexadecimal.
pub open spec fn hex(words: Seq<u32>) -> Seq<char>
    decreases words.len(),
{
    if words.len() == 0 {
        Seq::empty()
    } else {
        hex(words.drop_last()) + hex_word(words.last())
    }
}

fn push_digit(d: u32, out: &mut String)
    requires
        d < 16,
    ensures
        final(out)@ == old(out)@.push(hex_digit(d as int)),
{
    let b: u8 = if d < 10 {
        48 + d as u8
    } else {
        87 + d as u8
    };
    out.push(b as char);
}

fn push_word(w: u32, out: &mut String)
    ensures
        final(out)@ == old(out)@ + hex_word(w),
{
    let ghost before = out@;
    push_digit(w / 0x1000_0000 % 16, out);
    push_digit(w / 0x100_0000 % 16, out);
    push_digit(w / 0x10_0000 % 16, out);
    push_digit(w / 0x1_0000 % 16, out);
    push_digit(w / 0x1000 % 16, out);
    push_digit(w / 0x100 % 16, out);
    push_digit(w / 0x10 % 16, out);
    push_digit(w % 16, out);
    assert(out@ =~= before + hex_word(w));
}

/// The SHA-256 digest of some bytes, in hexadecimal.
pub fn hex_digest(bytes: &[u8]) -> (out: String)
    requires
        bytes@.len() <= 0x1fff_ffff_ffff_ff00,
    ensures
        out@ == hex(digest(bytes@)),
{
    let words = digest_words(bytes);
    let mut out = String::new();
    let mut k: usize = 0;
    assert(hex(words@.take(0)) =~= out@);
    while k < words.len()
        invariant
            k <= words@.len(),
            out@ == hex(words@.take(k as int)),
        decreases words@.len() - k,
    {
        assert(words@.take(k + 1).drop_last() =~= words@.take(k as int));
        push_word(words[k], &mut out);
        k += 1;
    }
    assert(words@.take(k as int) =~= words@);
    out
}

/// What a message is filled up to: whole blocks of 64 bytes that begin with the message; then a one bit
/// and zeros, no more than it takes; and at the end the length of the message in bits.
pub proof fn law_messages_are_filled_up(message: Seq<u8>, other: Seq<u8>)
    requires
        8 * message.len() <= u64::MAX,
        8 * other.len() <= u64::MAX,
    ensures
        ({
            let data = filled_up(message);
            let m = message.len() as int;
            let n = data.len() as int;
            &&& n % 64 == 0
            &&& m + 9 <= n < m + 73
            &&& data.take(m) == message
            &&& data[m] == 0x80
            &&& forall|k: int| m < k < n - 8 ==> #[trigger] data[k] == 0
            &&& word_of(data, n - 8) * 0x1_0000_0000 + word_of(data, n - 4) == 8 * m
        }),
        filled_up(message) == filled_up(other) ==> message == other,
{
    lemma_filled_up(message);
    lemma_filled_up(other);
    if filled_up(message) == filled_up(other) {
        assert(message.len() == other.len());
    }
}

proof fn lemma_filled_up(message: Seq<u8>)
    requires
        8 * message.len() <= u64::MAX,
    ensures
        ({
            let data = filled_up(message);
            let m = message.len() as int;
            let n = data.len() as int;
            &&& n % 64 == 0
            &&& m + 9 <= n < m + 73
            &&& data.take(m) == message
            &&& data[m] == 0x80
            &&& forall|k: int| m < k < n - 8 ==> #[trigger] data[k] == 0
            &&& word_of(data, n - 8) * 0x1_0000_0000 + word_of(data, n - 4) == 8 * m
        }),
{
    let data = filled_up(message);
    let m = message.len() as int;
    let n = data.len() as int;
    assert(data.take(m) =~= message);
    let tail = eight_bytes(8 * m);
    assert(data.skip(n - 8) =~= tail);
    lemma_eight_bytes(8 * m);
    assert forall|k: int| 0 <= k < 8 implies data[n - 8 + k] == #[trigger] tail[k] by {
        assert(data.skip(n - 8)[k] == tail[k]);
    }
    assert(word_of(data, n - 8) == word_of(tail, 0)) by {
        assert(data[n - 8 + 0] == tail[0] && data[n - 8 + 1] == tail[1]);
        assert(data[n - 8 + 2] == tail[2] && data[n - 8 + 3] == tail[3]);
    }
    assert(word_of(data, n - 4) == word_of(tail, 4)) by {
        assert(data[n - 8 + 4] == tail[4] && data[n - 8 + 5] == tail[5]);
        assert(data[n - 8 + 6] == tail[6] && data[n - 8 + 7] == tail[7]);
    }
}

proof fn lemma_eight_bytes(n: int)
    requires
        0 <= n <= u64::MAX,
    ensures
        word_of(eight_bytes(n), 0) * 0x1_0000_0000 + word_of(eight_bytes(n), 4) == n,
{
    let q1 = n / 0x100;
    let q2 = q1 / 0x100;
    let q3 = q2 / 0x100;
    let q4 = q3 / 0x100;
    let q5 = q4 / 0x100;
    let q6 = q5 / 0x100;
    let q7 = q6 / 0x100;
    vstd::arithmetic::div_mod::lemma_div_denominator(n, 0x100, 0x100);
    vstd::arithmetic::div_mod::lemma_div_denominator(n, 0x1_0000, 0x100);
    vstd::arithmetic::div_mod::lemma_div_denominator(n, 0x100_0000, 0x100);
    vstd::arithmetic::div_mod::lemma_div_denominator(n, 0x1_0000_0000, 0x100);
    vstd::arithmetic::div_mod::lemma_div_denominator(n, 0x100_0000_0000, 0x100);
    vstd::arithmetic::div_mod::lemma_div_denominator(n, 0x1_0000_0000_0000, 0x100);
    lemma_eight_digits(n, q1, q2, q3, q4, q5, q6, q7);
    let s = eight_bytes(n);
    assert(s[0] == q7 % 0x100 && s[1] == q6 % 0x100 && s[2] == q5 % 0x100 && s[3] == q4 % 0x100);
    assert(s[4] == q3 % 0x100 && s[5] == q2 % 0x100 && s[6] == q1 % 0x100 && s[7] == n % 0x100);
}

proof fn lemma_eight_digits(n: int, q1: int, q2: int, q3: int, q4: int, q5: int, q6: int, q7: int)
    requires
        0 <= n <= u64::MAX,
        q1 == n / 0x100 && q2 == q1 / 0x100 && q3 == q2 / 0x100 && q4 == q3 / 0x100,
        q5 == q4 / 0x100 && q6 == q5 / 0x100 && q7 == q6 / 0x100,
    ensures
        q7 < 0x100,
        ((q7 % 0x100) * 0x100_0000 + (q6 % 0x100) * 0x1_0000 + (q5 % 0x100) * 0x100 + q4 % 0x100)
            * 0x1_0000_0000 + ((q3 % 0x100) * 0x100_0000 + (q2 % 0x100) * 0x1_0000 + (q1 % 0x100)
            * 0x100 + n % 0x100) == n,
{
}

/// What a hexadecimal digit is worth.
pub open spec fn hex_worth(c: char) -> int {
    if '0' <= c <= '9' {
        c as int - '0' as int
    } else {
        c as int - 'a' as int + 10
    }
}

/// A word is written in eight hexadecimal digits, small letters among them, that are worth the word.
pub proof fn law_hex_is_worth_the_word(w: u32)
    ensures
        ({
            let s = hex_word(w);
            &&& s.len() == 8
            &&& forall|k: int|
                0 <= k < 8 ==> '0' <= #[trigger] s[k] <= '9' || 'a' <= s[k] <= 'f'
            &&& ((((((hex_worth(s[0]) * 16 + hex_worth(s[1])) * 16 + hex_worth(s[2])) * 16
                + hex_worth(s[3])) * 16 + hex_worth(s[4])) * 16 + hex_worth(s[5])) * 16 + hex_worth(
                s[6],
            )) * 16 + hex_worth(s[7]) == w
        }),
{
    let n = w as int;
    let q1 = n / 16;
    let q2 = q1 / 16;
    let q3 = q2 / 16;
    let q4 = q3 / 16;
    let q5 = q4 / 16;
    let q6 = q5 / 16;
    let q7 = q6 / 16;
    vstd::arithmetic::div_mod::lemma_div_denominator(n, 0x10, 16);
    vstd::arithmetic::div_mod::lemma_div_denominator(n, 0x100, 16);
    vstd::arithmetic::div_mod::lemma_div_denominator(n, 0x1000, 16);
    vstd::arithmetic::div_mod::lemma_div_denominator(n, 0x1_0000, 16);
    vstd::arithmetic::div_mod::lemma_div_denominator(n, 0x10_0000, 16);
    vstd::arithmetic::div_mod::lemma_div_denominator(n, 0x100_0000, 16);
    let s = hex_word(w);
    lemma_hex_digit(q7 % 16);
    lemma_hex_digit(q6 % 16);
    lemma_hex_digit(q5 % 16);
    lemma_hex_digit(q4 % 16);
    lemma_hex_digit(q3 % 16);
    lemma_hex_digit(q2 % 16);
    lemma_hex_digit(q1 % 16);
    lemma_hex_digit(n % 16);
    assert(s =~= seq![
        hex_digit(q7 % 16),
        hex_digit(q6 % 16),
        hex_digit(q5 % 16),
        hex_digit(q4 % 16),
        hex_digit(q3 % 16),
        hex_digit(q2 % 16),
        hex_digit(q1 % 16),
        hex_digit(n % 16),
    ]);
    assert(q7 < 16);
}

proof fn lemma_hex_digit(d: int)
    requires
        0 <= d < 16,
    ensures
        hex_worth(hex_digit(d)) == d,
        '0' <= hex_digit(d) <= '9' || 'a' <= hex_digit(d) <= 'f',
{
}

/// The words of a digest are written one behind the other.
pub proof fn law_words_are_written_in_order(words: Seq<u32>, k: int)
    requires
        0 <= k < words.len(),
    ensures
        hex(words).len() == 8 * words.len(),
        hex(words).subrange(8 * k, 8 * k + 8) == hex_word(words[k]),
    decreases words.len(),
{
    let less = words.drop_last();
    if less.len() > 0 {
        law_words_are_written_in_order(
            less,
            if k < less.len() {
                k
            } else {
                0
            },
        );
    } else {
        assert(hex(less) =~= Seq::empty());
    }
    if k < less.len() {
        assert(hex(words).subrange(8 * k, 8 * k + 8) =~= hex(less).subrange(8 * k, 8 * k + 8));
    } else {
        assert(hex(words).subrange(8 * k, 8 * k + 8) =~= hex_word(words[k]));
    }
}

} // verus!
