//! The checksum that identifies a depth snapshot, and when a snapshot is stored.
use vstd::prelude::*;

use sha2::Digest;

use crate::text::push_char;

verus! {

/// The SHA-256 digest of `data`.
pub uninterp spec fn sha256(data: Seq<u8>) -> Seq<u8>;

/// Calls `sha2::Sha256::digest`: the SHA-256 digest of `data`. The contract
/// claims that the result is 32 bytes long and depends on `data` alone; what
/// the bytes are is left to the name `sha256`.
#[verifier::external_body]
fn sha256_digest(data: &[u8]) -> (digest: Vec<u8>)
    ensures
        digest@ == sha256(data@),
        digest@.len() == 32,
{
    sha2::Sha256::digest(data).to_vec()
}


/// The `n` lowest bytes of `x`, least significant first.
pub open spec fn le_bytes(x: u64, n: nat) -> Seq<u8>
    decreases n,
{
    if n == 0 {
        Seq::empty()
    } else {
        seq![(x % 256) as u8] + le_bytes(x / 256, (n - 1) as nat)
    }
}

/// The bytes that the checksum is computed over: the length of the asks as 8
/// little-endian bytes, the asks, the same for the bids, then the offset as 8
/// and the partition as 4 little-endian bytes (two's complement).
pub open spec fn checksum_input(asks: Seq<u8>, bids: Seq<u8>, offset: i64, partition: i32) -> Seq<u8> {
    le_bytes(asks.len() as u64, 8) + asks + le_bytes(bids.len() as u64, 8) + bids + le_bytes(
        offset as u64,
        8,
    ) + le_bytes(partition as u32 as u64, 4)
}

proof fn lemma_le_bytes_len(x: u64, n: nat)
    ensures
        le_bytes(x, n).len() == n,
    decreases n,
{
    if n > 0 {
        lemma_le_bytes_len(x / 256, (n - 1) as nat);
    }
}

proof fn lemma_le_bytes_8_injective(x: u64, y: u64)
    requires
        le_bytes(x, 8) == le_bytes(y, 8),
    ensures
        x == y,
{
    reveal_with_fuel(le_bytes, 9);
    let s = le_bytes(x, 8);
    let t = le_bytes(y, 8);
    assert(s[0] == t[0] && s[1] == t[1] && s[2] == t[2] && s[3] == t[3]);
    assert(s[4] == t[4] && s[5] == t[5] && s[6] == t[6] && s[7] == t[7]);
    let x1 = x / 256;
    let x2 = x1 / 256;
    let x3 = x2 / 256;
    let x4 = x3 / 256;
    let x5 = x4 / 256;
    let x6 = x5 / 256;
    let x7 = x6 / 256;
    let y1 = y / 256;
    let y2 = y1 / 256;
    let y3 = y2 / 256;
    let y4 = y3 / 256;
    let y5 = y4 / 256;
    let y6 = y5 / 256;
    let y7 = y6 / 256;
    assert(x % 256 == y % 256 && x1 % 256 == y1 % 256 && x2 % 256 == y2 % 256 && x3 % 256
        == y3 % 256);
    assert(x4 % 256 == y4 % 256 && x5 % 256 == y5 % 256 && x6 % 256 == y6 % 256 && x7 % 256
        == y7 % 256);
    assert(x == y) by (bit_vector)
        requires
            x % 256 == y % 256,
            (x / 256) % 256 == (y / 256) % 256,
            (x / 256 / 256) % 256 == (y / 256 / 256) % 256,
            (x / 256 / 256 / 256) % 256 == (y / 256 / 256 / 256) % 256,
            (x / 256 / 256 / 256 / 256) % 256 == (y / 256 / 256 / 256 / 256) % 256,
            (x / 256 / 256 / 256 / 256 / 256) % 256 == (y / 256 / 256 / 256 / 256 / 256) % 256,
            (x / 256 / 256 / 256 / 256 / 256 / 256) % 256 == (y / 256 / 256 / 256 / 256 / 256
                / 256) % 256,
            (x / 256 / 256 / 256 / 256 / 256 / 256 / 256) % 256 == (y / 256 / 256 / 256 / 256
                / 256 / 256 / 256) % 256,
    ;
}

proof fn lemma_le_bytes_4_injective(x: u64, y: u64)
    requires
        x < 0x1_0000_0000,
        y < 0x1_0000_0000,
        le_bytes(x, 4) == le_bytes(y, 4),
    ensures
        x == y,
{
    reveal_with_fuel(le_bytes, 5);
    let s = le_bytes(x, 4);
    let t = le_bytes(y, 4);
    assert(s[0] == t[0] && s[1] == t[1] && s[2] == t[2] && s[3] == t[3]);
    let x1 = x / 256;
    let x2 = x1 / 256;
    let x3 = x2 / 256;
    let y1 = y / 256;
    let y2 = y1 / 256;
    let y3 = y2 / 256;
    assert(x % 256 == y % 256 && x1 % 256 == y1 % 256 && x2 % 256 == y2 % 256 && x3 % 256
        == y3 % 256);
    assert(x == y) by (bit_vector)
        requires
            x < 0x1_0000_0000,
            y < 0x1_0000_0000,
            x % 256 == y % 256,
            (x / 256) % 256 == (y / 256) % 256,
            (x / 256 / 256) % 256 == (y / 256 / 256) % 256,
            (x / 256 / 256 / 256) % 256 == (y / 256 / 256 / 256) % 256,
    ;
}

/// The checksum input holds every byte of both sides: it is 28 bytes longer
/// than the two sides together, the asks stand whole after their 8-byte
/// length, and the bids stand whole after theirs.
pub proof fn law_checksum_input_layout(asks: Seq<u8>, bids: Seq<u8>, offset: i64, partition: i32)
    ensures
        checksum_input(asks, bids, offset, partition).len() == asks.len() + bids.len() + 28,
        checksum_input(asks, bids, offset, partition).subrange(8, 8 + asks.len() as int) == asks,
        checksum_input(asks, bids, offset, partition).subrange(
            16 + asks.len() as int,
            16 + asks.len() + bids.len() as int,
        ) == bids,
{
    lemma_le_bytes_len(asks.len() as u64, 8);
    lemma_le_bytes_len(bids.len() as u64, 8);
    lemma_le_bytes_len(offset as u64, 8);
    lemma_le_bytes_len(partition as u32 as u64, 4);
    let c = checksum_input(asks, bids, offset, partition);
    assert(c.subrange(8, 8 + asks.len() as int) =~= asks);
    assert(c.subrange(16 + asks.len() as int, 16 + asks.len() + bids.len() as int) =~= bids);
}

/// Two snapshots are checksummed over the same bytes only when their asks,
/// bids, offsets and partitions are all the same.
pub proof fn law_checksum_input_injective(
    a1: Seq<u8>,
    b1: Seq<u8>,
    o1: i64,
    p1: i32,
    a2: Seq<u8>,
    b2: Seq<u8>,
    o2: i64,
    p2: i32,
)
    requires
        a1.len() <= u64::MAX,
        b1.len() <= u64::MAX,
        a2.len() <= u64::MAX,
        b2.len() <= u64::MAX,
        checksum_input(a1, b1, o1, p1) == checksum_input(a2, b2, o2, p2),
    ensures
        a1 == a2,
        b1 == b2,
        o1 == o2,
        p1 == p2,
{
    let c = checksum_input(a1, b1, o1, p1);
    lemma_le_bytes_len(a1.len() as u64, 8);
    lemma_le_bytes_len(b1.len() as u64, 8);
    lemma_le_bytes_len(o1 as u64, 8);
    lemma_le_bytes_len(p1 as u32 as u64, 4);
    lemma_le_bytes_len(a2.len() as u64, 8);
    lemma_le_bytes_len(b2.len() as u64, 8);
    lemma_le_bytes_len(o2 as u64, 8);
    lemma_le_bytes_len(p2 as u32 as u64, 4);
    assert(c.subrange(0, 8) =~= le_bytes(a1.len() as u64, 8));
    assert(c.subrange(0, 8) =~= le_bytes(a2.len() as u64, 8));
    lemma_le_bytes_8_injective(a1.len() as u64, a2.len() as u64);
    let n = a1.len() as int;
    assert(c.subrange(8, 8 + n) =~= a1);
    assert(c.subrange(8, 8 + n) =~= a2);
    assert(c.subrange(8 + n, 16 + n) =~= le_bytes(b1.len() as u64, 8));
    assert(c.subrange(8 + n, 16 + n) =~= le_bytes(b2.len() as u64, 8));
    lemma_le_bytes_8_injective(b1.len() as u64, b2.len() as u64);
    let m = b1.len() as int;
    assert(c.subrange(16 + n, 16 + n + m) =~= b1);
    assert(c.subrange(16 + n, 16 + n + m) =~= b2);
    assert(c.subrange(16 + n + m, 24 + n + m) =~= le_bytes(o1 as u64, 8));
    assert(c.subrange(16 + n + m, 24 + n + m) =~= le_bytes(o2 as u64, 8));
    lemma_le_bytes_8_injective(o1 as u64, o2 as u64);
    assert(o1 == o2) by (bit_vector)
        requires
            o1 as u64 == o2 as u64,
    ;
    assert(c.subrange(24 + n + m, 28 + n + m) =~= le_bytes(p1 as u32 as u64, 4));
    assert(c.subrange(24 + n + m, 28 + n + m) =~= le_bytes(p2 as u32 as u64, 4));
    lemma_le_bytes_4_injective(p1 as u32 as u64, p2 as u32 as u64);
    assert(p1 == p2) by (bit_vector)
        requires
            p1 as u32 as u64 == p2 as u32 as u64,
    ;
}

/// The lower-case hexadecimal digit of `d` (below 16).
pub open spec fn hex_digit(d: u8) -> char {
    if d < 10 {
        (48 + d) as char
    } else {
        (87 + d) as char
    }
}

/// Each byte as two lower-case hexadecimal digits, high digit first.
pub open spec fn hex_lower(bytes: Seq<u8>) -> Seq<char>
    decreases bytes.len(),
{
    if bytes.len() == 0 {
        Seq::empty()
    } else {
        hex_lower(bytes.drop_last()) + seq![hex_digit(bytes.last() / 16), hex_digit(bytes.last() % 16)]
    }
}

fn push_le_bytes(out: &mut Vec<u8>, x: u64, n: usize)
    requires
        n <= 8,
    ensures
        final(out)@ == old(out)@ + le_bytes(x, n as nat),
{
    let mut v = x;
    let mut i: usize = 0;
    while i < n
        invariant
            0 <= i <= n,
            out@ + le_bytes(v, (n - i) as nat) == old(out)@ + le_bytes(x, n as nat),
        decreases n - i,
    {
        let ghost before = out@;
        out.push((v % 256) as u8);
        proof {
            assert(le_bytes(v, (n - i) as nat) == seq![(v % 256) as u8] + le_bytes(
                v / 256,
                (n - i - 1) as nat,
            ));
            assert(out@ + le_bytes(v / 256, (n - i - 1) as nat) =~= before + le_bytes(
                v,
                (n - i) as nat,
            ));
        }
        v = v / 256;
        i = i + 1;
    }
    proof {
        assert(out@ + le_bytes(v, 0) =~= out@);
    }
}

fn extend_bytes(out: &mut Vec<u8>, data: &Vec<u8>)
    ensures
        final(out)@ == old(out)@ + data@,
{
    let mut i: usize = 0;
    while i < data.len()
        invariant
            0 <= i <= data@.len(),
            out@ == old(out)@ + data@.take(i as int),
        decreases data@.len() - i,
    {
        out.push(data[i]);
        proof {
            assert(out@ =~= old(out)@ + data@.take(i as int + 1));
        }
        i = i + 1;
    }
    proof {
        assert(data@.take(i as int) =~= data@);
    }
}

fn hex_digit_char(d: u8) -> (c: char)
    requires
        d < 16,
    ensures
        c == hex_digit(d),
{
    if d < 10 {
        (48 + d) as char
    } else {
        (87 + d) as char
    }
}

/// The checksum of a depth snapshot: the SHA-256 digest of `checksum_input`
/// in lower-case hexadecimal.
pub fn get_checksum_hash(asks: &Vec<u8>, bids: &Vec<u8>, offset: &i64, partition: &i32) -> (checksum: String)
    ensures
        checksum@ == hex_lower(sha256(checksum_input(asks@, bids@, *offset, *partition))),
        checksum@.len() == 64,
{
    let mut input: Vec<u8> = Vec::new();
    push_le_bytes(&mut input, asks.len() as u64, 8);
    extend_bytes(&mut input, asks);
    push_le_bytes(&mut input, bids.len() as u64, 8);
    extend_bytes(&mut input, bids);
    push_le_bytes(&mut input, *offset as u64, 8);
    push_le_bytes(&mut input, *partition as u32 as u64, 4);
    proof {
        assert(input@ =~= checksum_input(asks@, bids@, *offset, *partition));
    }
    let digest = sha256_digest(input.as_slice());
    let mut out = String::new();
    let mut i: usize = 0;
    while i < digest.len()
        invariant
            0 <= i <= digest@.len(),
            digest@.len() == 32,
            out@ == hex_lower(digest@.take(i as int)),
            out@.len() == 2 * i,
        decreases digest@.len() - i,
    {
        let b = digest[i];
        push_char(&mut out, hex_digit_char(b / 16));
        push_char(&mut out, hex_digit_char(b % 16));
        proof {
            assert(digest@.take(i as int + 1).drop_last() =~= digest@.take(i as int));
        }
        i = i + 1;
    }
    proof {
        assert(digest@.take(i as int) =~= digest@);
    }
    out
}

/// The encoding of one depth level: its price, then its quantity, each as 8
/// little-endian bytes.
pub open spec fn level_bytes(level: [u64; 2]) -> Seq<u8> {
    le_bytes(level[0], 8) + le_bytes(level[1], 8)
}

/// The encodings of `levels`, one after another.
pub open spec fn levels_body(levels: Seq<[u64; 2]>) -> Seq<u8>
    decreases levels.len(),
{
    if levels.len() == 0 {
        Seq::empty()
    } else {
        levels_body(levels.drop_last()) + level_bytes(levels.last())
    }
}

/// The encoding of a list of depth levels: the number of levels as 8
/// little-endian bytes, then the levels.
pub open spec fn encoded_levels(levels: Seq<[u64; 2]>) -> Seq<u8> {
    le_bytes(levels.len() as u64, 8) + levels_body(levels)
}

/// Calls `wincode::serialize` on `levels` with wincode's default
/// configuration, which writes the length as a fixed 8-byte little-endian
/// integer and each `[u64; 2]` as two fixed 8-byte little-endian integers.
/// The call fails exactly when the levels' storage (16 bytes each) exceeds the
/// default preallocation limit of 4 MiB, which wincode checks before writing
/// a sequence.
#[verifier::external_body]
fn serialize_levels(levels: &Vec<[u64; 2]>) -> (r: Option<Vec<u8>>)
    ensures
        r is Some <==> levels@.len() * 16 <= 4194304,
        r is Some ==> r->0@ == encoded_levels(levels@),
{
    wincode::serialize(levels).ok()
}

/// The stored form of a depth snapshot: the encoded asks, the encoded bids
/// and the checksum over both with the Kafka offset and partition. `None`
/// when a side cannot be encoded.
pub fn snapshot_payload(asks: &Vec<[u64; 2]>, bids: &Vec<[u64; 2]>, offset: i64, partition: i32) -> (r: Option<(Vec<u8>, Vec<u8>, String)>)
    ensures
        r is Some <==> asks@.len() * 16 <= 4194304 && bids@.len() * 16 <= 4194304,
        match r {
            Some((a, b, c)) => {
                &&& a@ == encoded_levels(asks@)
                &&& b@ == encoded_levels(bids@)
                &&& c@ == hex_lower(sha256(checksum_input(a@, b@, offset, partition)))
            },
            None => true,
        },
{
    let a = match serialize_levels(asks) {
        Some(a) => a,
        None => return None,
    };
    let b = match serialize_levels(bids) {
        Some(b) => b,
        None => return None,
    };
    let c = get_checksum_hash(&a, &b, &offset, &partition);
    Some((a, b, c))
}

/// Whether a snapshot with checksum `checksum` is stored: only when it
/// differs from the checksum of the last stored one.
pub fn snapshot_changed(prev: &Option<String>, checksum: &String) -> (changed: bool)
    ensures
        changed == !(prev is Some && prev->0@ == checksum@),
{
    match prev {
        Some(p) => !p.eq(checksum),
        None => true,
    }
}

/// One round of storing snapshots: whether the snapshot with checksum
/// `checksum` is stored (only when it differs from `prev`, the checksum of the
/// last stored one), and the checksum of the last stored snapshot afterwards.
pub fn snapshot_step(prev: Option<String>, checksum: &String) -> (r: (bool, Option<String>))
    ensures
        r.0 == !(prev is Some && prev->0@ == checksum@),
        r.1 is Some && r.1->0@ == checksum@,
{
    let changed = snapshot_changed(&prev, checksum);
    (changed, Some(checksum.clone()))
}

} // verus!
