//! Block headers in wire form and the level that their proof of work reaches.

use sigma_ser::ScorexSerializable;
use vstd::prelude::*;

verus! {

/// What a header holds, as far as levels and interlinks depend on it.
pub ghost struct HeaderView {
    /// The block id.
    pub id: Seq<u8>,
    pub height: u32,
    pub version: u8,
    /// The difficulty in compact form.
    pub n_bits: u32,
    /// The wire form without the proof-of-work solution.
    pub unsigned: Seq<u8>,
    /// The nonce of the solution.
    pub nonce: Seq<u8>,
}

/// A header that was read from its wire form.
pub struct ChainHeader {
    pub wire: Vec<u8>,
    pub id: [u8; 32],
    pub height: u32,
    pub version: u8,
    pub n_bits: u32,
    pub unsigned: Vec<u8>,
    pub nonce: Vec<u8>,
}

impl View for ChainHeader {
    type V = HeaderView;

    open spec fn view(&self) -> HeaderView {
        HeaderView {
            id: self.id@,
            height: self.height,
            version: self.version,
            n_bits: self.n_bits,
            unsigned: self.unsigned@,
            nonce: self.nonce@,
        }
    }
}

impl ChainHeader {
    /// The parts are those that the wire form gives.
    pub open spec fn wf(&self) -> bool {
        header_of(self.wire@) == Ok::<HeaderView, Seq<char>>(self@)
    }
}

/// What the wire form of a header reads as: the header, or how the error is
/// written with `{:?}`.
pub uninterp spec fn header_of(wire: Seq<u8>) -> Result<HeaderView, Seq<char>>;

/// Calls `ergo_chain_types::Header::scorex_parse_bytes`, and
/// `serialize_without_pow` on what it gives.
///
/// Claimed: the parts of the header, or the text of the error, depend on the
/// bytes alone.
#[verifier::external_body]
pub(crate) fn parse_header(wire: &[u8]) -> (r: Result<ChainHeader, String>)
    ensures
        (match r {
            Ok(h) => Ok(h@),
            Err(e) => Err(e@),
        }) == header_of(wire@),
        r matches Ok(h) ==> h.wire@ == wire@,
{
    let h = match ergo_chain_types::Header::scorex_parse_bytes(wire) {
        Ok(h) => h,
        Err(e) => return Err(format!("{:?}", e)),
    };
    let unsigned = match h.serialize_without_pow() {
        Ok(unsigned) => unsigned,
        Err(e) => return Err(format!("{:?}", sigma_ser::ScorexParsingError::from(e))),
    };
    Ok(ChainHeader {
        wire: wire.to_vec(), id: h.id.0.0, height: h.height, version: h.version,
        n_bits: h.n_bits as u32, unsigned, nonce: h.autolykos_solution.nonce,
    })
}

// ----------------------------------------------------- where a level exists

/// Whether a difficulty in compact form is zero.
///
/// The top byte says how many bytes the number takes; the bytes behind it are
/// the leading ones of the number, and the top bit of the first is its sign.
pub open spec fn zero_difficulty(n_bits: u32) -> bool {
    let size = n_bits as int / 0x100_0000;
    let first = n_bits as int / 0x1_0000 % 0x100;
    let second = n_bits as int / 0x100 % 0x100;
    let third = n_bits as int % 0x100;
    size == 0 || (first % 0x80 == 0 && (size < 2 || second == 0) && (size < 3 || third == 0))
}

/// Whether a difficulty in compact form is zero.
fn is_zero_difficulty(n_bits: u32) -> (r: bool)
    ensures
        r == zero_difficulty(n_bits),
{
    let size: u32 = n_bits / 0x100_0000;
    let first: u32 = n_bits / 0x1_0000 % 0x100;
    let second: u32 = n_bits / 0x100 % 0x100;
    let third: u32 = n_bits % 0x100;
    size == 0 || (first % 0x80 == 0 && (size < 2 || second == 0) && (size < 3 || third == 0))
}

/// The size of the table after a number of increases by a twentieth.
pub open spec fn grown_table(increases: nat) -> nat
    decreases increases,
{
    if increases == 0 {
        0x400_0000
    } else {
        grown_table((increases - 1) as nat) / 100 * 105
    }
}

/// The size of the table that a solution's indexes point into: it grows from
/// the height 614400 on, every 51200 blocks, up to the height 4198400.
pub open spec fn table_size(version: u8, height: u32) -> nat {
    if version == 1 || height < 614_400 {
        grown_table(0)
    } else {
        let height = if height < 4_198_400 {
            height as int
        } else {
            4_198_400
        };
        grown_table(((height - 614_400) / 51_200 + 1) as nat)
    }
}

/// Calls `calc_big_n` of the proof-of-work scheme that
/// `ergo_nipopow::NipopowAlgos::default` holds.
///
/// Claimed: the table has 2^26 entries for version 1 and for low heights, and
/// grows by the steps of `table_size` for the others.
#[verifier::external_body]
fn calc_big_n(version: u8, height: u32) -> (r: usize)
    ensures
        r == table_size(version, height),
{
    ergo_nipopow::NipopowAlgos::default().pow_scheme.calc_big_n(version, height)
}

/// The digest of bytes.
pub uninterp spec fn blake2b256(bytes: Seq<u8>) -> Seq<u8>;

/// Calls `ergo_chain_types::blake2b256_hash`.
///
/// Claimed: the digest depends on the bytes alone.
#[verifier::external_body]
fn blake2b256_hash(bytes: &[u8]) -> (r: [u8; 32])
    ensures
        r@ == blake2b256(bytes@),
{
    ergo_chain_types::blake2b256_hash(bytes).0
}

/// The bytes that a solution's indexes are taken from.
pub uninterp spec fn seed_of(
    big_n: nat,
    msg: Seq<u8>,
    nonce: Seq<u8>,
    height_bytes: Seq<u8>,
) -> Option<Seq<u8>>;

/// Calls `calc_seed_v2` of the proof-of-work scheme that
/// `ergo_nipopow::NipopowAlgos::default` holds.
///
/// Claimed: the seed, or that there is none, depends on the arguments alone.
#[verifier::external_body]
fn calc_seed_v2(big_n: usize, msg: &[u8], nonce: &[u8], height_bytes: &[u8]) -> (r: Option<
    [u8; 32],
>)
    requires
        big_n > 0,
    ensures
        (match r {
            Some(seed) => Some(seed@),
            None => None,
        }) == seed_of(big_n as nat, msg@, nonce@, height_bytes@),
{
    let scheme = ergo_nipopow::NipopowAlgos::default().pow_scheme;
    match scheme.calc_seed_v2(big_n, msg, nonce, height_bytes) {
        Ok(seed) => Some(*seed),
        Err(_) => None,
    }
}

/// The four bytes of a number, the highest first.
pub open spec fn be_bytes(n: u32) -> Seq<u8> {
    seq![
        (n as int / 0x100_0000) as u8,
        (n as int / 0x1_0000 % 0x100) as u8,
        (n as int / 0x100 % 0x100) as u8,
        (n as int % 0x100) as u8,
    ]
}

/// The number that four bytes of a seed stand for, from the `i`-th on and
/// round its end.
pub open spec fn seed_window(seed: Seq<u8>, i: int) -> int {
    seed[i] * 0x100_0000 + seed[(i + 1) % 32] * 0x1_0000 + seed[(i + 2) % 32] * 0x100 + seed[(i + 3)
        % 32]
}

/// Whether one of the indexes that a seed gives into a table is zero.
pub open spec fn has_zero_index(seed: Seq<u8>, big_n: int) -> bool {
    exists|i: int| 0 <= i < 32 && #[trigger] seed_window(seed, i) % big_n == 0
}

/// The seed of a header's solution.
pub open spec fn solution_seed(h: HeaderView) -> Option<Seq<u8>> {
    seed_of(table_size(h.version, h.height), blake2b256(h.unsigned), h.nonce, be_bytes(h.height))
}

/// Why no level of a header can be worked out: its difficulty is zero, or one
/// of the indexes of its solution is. The first block always has a level.
pub open spec fn level_fault(h: HeaderView) -> Option<Seq<char>> {
    if h.height == 1 {
        None
    } else if zero_difficulty(h.n_bits) {
        Some("attempt to divide by zero"@)
    } else if h.version != 1 && (solution_seed(h) matches Some(seed) && has_zero_index(
        seed,
        table_size(h.version, h.height) as int,
    )) {
        Some("index out of bounds: the len is 0 but the index is 0"@)
    } else {
        None
    }
}

/// The table never shrinks and is never empty.
proof fn lemma_table_grows(increases: nat)
    ensures
        grown_table(increases) >= 0x400_0000,
    decreases increases,
{
    if increases > 0 {
        lemma_table_grows((increases - 1) as nat);
    }
}

/// Whether one of the indexes that a seed gives into a table is zero.
pub fn zero_index(seed: &[u8; 32], big_n: usize) -> (r: bool)
    requires
        big_n > 0,
    ensures
        r == has_zero_index(seed@, big_n as int),
{
    let mut i: usize = 0;
    while i < 32
        invariant
            i <= 32,
            big_n > 0,
            forall|j: int| 0 <= j < i ==> #[trigger] seed_window(seed@, j) % (big_n as int) != 0,
        decreases 32 - i,
    {
        let window: u64 = seed[i] as u64 * 0x100_0000 + seed[(i + 1) % 32] as u64 * 0x1_0000
            + seed[(i + 2) % 32] as u64 * 0x100 + seed[(i + 3) % 32] as u64;
        assert(window == seed_window(seed@, i as int));
        if window % (big_n as u64) == 0 {
            return true;
        }
        i = i + 1;
    }
    false
}

/// The four bytes of a number, the highest first.
fn to_be_bytes(n: u32) -> (r: [u8; 4])
    ensures
        r@ == be_bytes(n),
{
    let r: [u8; 4] = [
        (n / 0x100_0000) as u8,
        (n / 0x1_0000 % 0x100) as u8,
        (n / 0x100 % 0x100) as u8,
        (n % 0x100) as u8,
    ];
    assert(r@ =~= be_bytes(n));
    r
}

/// Why no level of the header can be worked out.
pub fn find_level_fault(h: &ChainHeader) -> (r: Option<String>)
    ensures
        (match r {
            Some(note) => Some(note@),
            None => None,
        }) == level_fault(h@),
{
    if h.height == 1 {
        return None;
    }
    if is_zero_difficulty(h.n_bits) {
        return Some("attempt to divide by zero".to_owned());
    }
    if h.version == 1 {
        return None;
    }
    let big_n: usize = calc_big_n(h.version, h.height);
    proof {
        let height = if h.height < 4_198_400 {
            h.height as int
        } else {
            4_198_400
        };
        lemma_table_grows(0);
        lemma_table_grows(((height - 614_400) / 51_200 + 1) as nat);
    }
    let msg: [u8; 32] = blake2b256_hash(h.unsigned.as_slice());
    let height_bytes: [u8; 4] = to_be_bytes(h.height);
    match calc_seed_v2(big_n, msg.as_slice(), h.nonce.as_slice(), height_bytes.as_slice()) {
        Some(seed) => if zero_index(&seed, big_n) {
            Some("index out of bounds: the len is 0 but the index is 0".to_owned())
        } else {
            None
        },
        None => None,
    }
}

// -------------------------------------------------------------------- level

/// What a level or its absence says.
pub open spec fn level_view(r: Result<i32, String>) -> Result<i32, Seq<char>> {
    match r {
        Ok(level) => Ok(level),
        Err(e) => Err(e@),
    }
}

/// Whether the header of a wire form may come out with a level.
pub uninterp spec fn may_reach(wire: Seq<u8>, level: i32) -> bool;

/// Calls `ergo_nipopow::NipopowAlgos::max_level_of`: how often the target can
/// be halved before the solution of the header misses it.
///
/// Claimed: there is a level, and it is one that this header may come out
/// with; that of the first block is the largest there is. Which of them it is
/// for another header is not stated: it is cut from the difference of two
/// logarithms of double precision, and how precise those are varies from
/// machine to machine and from call to call.
#[verifier::external_body]
pub(crate) fn max_level_of(h: &ChainHeader) -> (r: Result<i32, String>)
    requires
        h.wf(),
        level_fault(h@) is None,
    ensures
        match r {
            Ok(level) => may_reach(h.wire@, level) && (h.height == 1 ==> level == i32::MAX),
            Err(_) => false,
        },
{
    match ergo_chain_types::Header::scorex_parse_bytes(&h.wire) {
        Ok(header) => match ergo_nipopow::NipopowAlgos::default().max_level_of(&header) {
            Ok(level) => Ok(level),
            Err(e) => Err(format!("{:?}", e)),
        },
        Err(e) => Err(format!("{:?}", e)),
    }
}

// --------------------------------------------------------------------- laws

/// A difficulty in compact form is zero just where no bit but the sign is set
/// in the leading bytes that count: none where the size is 0, and three where it
/// is 3 or more.
pub proof fn law_zero_difficulty(n_bits: u32)
    ensures
        ({
            let size = n_bits as int / 0x100_0000;
            &&& size == 0 ==> zero_difficulty(n_bits)
            &&& size == 1 ==> (zero_difficulty(n_bits) <==> n_bits as int / 0x1_0000 % 0x80 == 0)
            &&& size == 2 ==> (zero_difficulty(n_bits) <==> n_bits as int / 0x100 % 0x8000 == 0)
            &&& size >= 3 ==> (zero_difficulty(n_bits) <==> n_bits as int % 0x80_0000 == 0)
        }),
{
    assert(n_bits / 0x1_0000 % 0x100 % 0x80 == n_bits / 0x1_0000 % 0x80) by (bit_vector);
    assert(n_bits / 0x100 % 0x8000 == 0 <==> n_bits / 0x1_0000 % 0x100 % 0x80 == 0 && n_bits / 0x100
        % 0x100 == 0) by (bit_vector);
    assert(n_bits % 0x80_0000 == 0 <==> n_bits / 0x1_0000 % 0x100 % 0x80 == 0 && n_bits / 0x100
        % 0x100 == 0 && n_bits % 0x100 == 0) by (bit_vector);
}

/// The four bytes of a height stand for it, the highest first.
pub proof fn law_height_bytes(n: u32)
    ensures
        be_bytes(n).len() == 4,
        n == be_bytes(n)[0] * 0x100_0000 + be_bytes(n)[1] * 0x1_0000 + be_bytes(n)[2] * 0x100
            + be_bytes(n)[3],
{
}

/// The indexes of a solution are the thirty-two numbers of four bytes that begin
/// at each byte of the seed, the highest first, where behind the last byte the
/// first follows; what counts is whether the table divides one of them.
pub proof fn law_indexes(seed: Seq<u8>, big_n: int)
    requires
        seed.len() == 32,
        big_n > 0,
    ensures
        has_zero_index(seed, big_n) <==> exists|i: int|
            0 <= i < 32 && #[trigger] window_of(seed + seed, i) % big_n == 0,
{
    assert forall|i: int| 0 <= i < 32 implies #[trigger] window_of(seed + seed, i) == seed_window(
        seed,
        i,
    ) by {
        assert((i + 1) % 32 == if i + 1 < 32 { i + 1 } else { i + 1 - 32 });
        assert((i + 2) % 32 == if i + 2 < 32 { i + 2 } else { i + 2 - 32 });
        assert((i + 3) % 32 == if i + 3 < 32 { i + 3 } else { i + 3 - 32 });
    }
    if has_zero_index(seed, big_n) {
        let i = choose|i: int| 0 <= i < 32 && #[trigger] seed_window(seed, i) % big_n == 0;
        assert(window_of(seed + seed, i) % big_n == 0);
    }
    if exists|i: int| 0 <= i < 32 && #[trigger] window_of(seed + seed, i) % big_n == 0 {
        let i = choose|i: int| 0 <= i < 32 && #[trigger] window_of(seed + seed, i) % big_n == 0;
        assert(seed_window(seed, i) % big_n == 0);
    }
}

/// The number that four bytes in a row stand for, the highest first.
pub open spec fn window_of(bytes: Seq<u8>, i: int) -> int {
    ((bytes[i] * 0x100 + bytes[i + 1]) * 0x100 + bytes[i + 2]) * 0x100 + bytes[i + 3]
}

/// The first block always has a level. Any other header has none where its
/// difficulty is zero; where it is not, a header of version 1 has one, and one
/// of another version just where no index of its solution is zero: the seed is
/// that of the digest of its unsigned form, its nonce and its height.
pub proof fn law_level_fault(h: HeaderView)
    ensures
        h.height == 1 ==> level_fault(h) is None,
        h.height != 1 && zero_difficulty(h.n_bits) ==> level_fault(h) == Some(
            "attempt to divide by zero"@,
        ),
        h.height != 1 && !zero_difficulty(h.n_bits) && h.version == 1 ==> level_fault(h) is None,
        h.height != 1 && !zero_difficulty(h.n_bits) && h.version != 1 ==> {
            let big_n = table_size(h.version, h.height);
            match seed_of(big_n, blake2b256(h.unsigned), h.nonce, be_bytes(h.height)) {
                Some(seed) => level_fault(h) == if has_zero_index(seed, big_n as int) {
                    Some("index out of bounds: the len is 0 but the index is 0"@)
                } else {
                    None
                },
                None => level_fault(h) is None,
            }
        },
{
}

/// The table has 2^26 entries for version 1 and below the height 614400. From
/// there on it grows by a twentieth, cut to a hundred times a number, with every
/// 51200 blocks, and no more from 4198400 on.
pub proof fn law_table_size(version: u8, height: u32)
    ensures
        version == 1 || height < 614_400 ==> table_size(version, height) == 67_108_864,
        version != 1 && 614_400 <= height < 665_600 ==> table_size(version, height)
            == 67_108_864int / 100 * 105,
        version != 1 && 665_600 <= height <= 4_198_400 ==> table_size(version, height) == table_size(
            version,
            (height - 51_200) as u32,
        ) / 100 * 105,
        version != 1 && height > 4_198_400 ==> table_size(version, height) == table_size(
            version,
            4_198_400,
        ),
{
    reveal_with_fuel(grown_table, 2);
    if 665_600 <= height <= 4_198_400 {
        let steps = (height - 614_400) / 51_200 + 1;
        assert((height - 51_200 - 614_400) / 51_200 + 1 == steps - 1);
        assert(grown_table(steps as nat) == grown_table((steps - 1) as nat) / 100 * 105);
    }
}

} // verus!
