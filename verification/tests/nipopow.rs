use donner::hexes::bytes_to_hex;
use donner::interlinks::{check_level, follow_interlinks, prove_interlinks, raise};
use donner::json::Json;
use donner::nipopow::{
    find_prove_note, link_chain, parse_chain, proof_result, read_headers, run_interlinks, run_prove,
    ChainFault, PopowHeader, ProveFault,
};
use donner::pow::{zero_index, ChainHeader};
use ergo_chain_types::{ExtensionCandidate, Header};
use ergo_nipopow::{NipopowAlgos, PoPowHeader};
use sigma_ser::ScorexSerializable;

/// The difficulty one in compact form.
const EASY: u32 = 0x0101_0000;

fn vlq(mut n: u32, out: &mut Vec<u8>) {
    while n >= 128 {
        out.push((n % 128) as u8 + 128);
        n /= 128;
    }
    out.push(n as u8);
}

fn wire(version: u8, height: u32, n_bits: u32, nonce: u64, distance: &[u8]) -> Vec<u8> {
    let mut w = vec![version];
    w.extend([7u8; 32]);
    w.extend([1u8; 32]);
    w.extend([2u8; 32]);
    w.extend([3u8; 33]);
    w.push(0);
    w.extend([4u8; 32]);
    w.extend(n_bits.to_be_bytes());
    vlq(height, &mut w);
    w.extend([0u8; 3]);
    if version > 1 {
        w.push(0);
    }
    w.extend([0u8; 33]);
    if version == 1 {
        w.extend([0u8; 33]);
    }
    w.extend(nonce.to_be_bytes());
    if version == 1 {
        w.push(distance.len() as u8);
        w.extend(distance);
    }
    w
}

/// A power of two as signed bytes.
fn power(exponent: usize) -> Vec<u8> {
    let mut bytes = vec![0u8; exponent / 8 + 2];
    let last = bytes.len() - 1;
    bytes[last - exponent / 8] = 1 << (exponent % 8);
    bytes
}

/// A header whose solution reaches the level: its distance is three quarters
/// of what would just reach it, where that is a whole number.
fn leveled(height: u32, level: i32) -> Vec<u8> {
    let mut distance = power((256 - level) as usize);
    if level <= 254 {
        let below = power((254 - level) as usize);
        distance = power((255 - level) as usize);
        let shift = distance.len() - below.len();
        for (i, byte) in below.iter().enumerate() {
            distance[i + shift] |= *byte;
        }
    }
    wire(1, height, EASY, 0, &distance)
}

fn item(wire: &[u8]) -> Json {
    Json::Object(vec![("headerHex".to_string(), Json::Text(bytes_to_hex(wire)))])
}

fn chain(wires: &[Vec<u8>]) -> Vec<Json> {
    wires.iter().map(|w| item(w)).collect()
}

fn id(wire: &[u8]) -> String {
    let header = Header::scorex_parse_bytes(wire).unwrap();
    bytes_to_hex(&header.id.0 .0)
}

fn listed(rows: Vec<Vec<String>>) -> Json {
    let rows = rows
        .into_iter()
        .map(|row| Json::Array(row.into_iter().map(Json::Text).collect()))
        .collect();
    Json::Object(vec![
        ("interlinks".to_string(), Json::Array(rows)),
        ("error".to_string(), Json::Null),
    ])
}

/// The chain as the outside crate works it out.
fn outside(wires: &[Vec<u8>]) -> Vec<PoPowHeader> {
    let mut popow: Vec<PoPowHeader> = Vec::new();
    for w in wires {
        let header = Header::scorex_parse_bytes(w).unwrap();
        let interlinks = match popow.last() {
            None => vec![header.id],
            Some(prev) => {
                NipopowAlgos::update_interlinks(prev.header.clone(), prev.interlinks.clone()).unwrap()
            }
        };
        let fields = NipopowAlgos::pack_interlinks(interlinks.clone());
        let extension = ExtensionCandidate::new(fields).unwrap();
        let interlinks_proof = NipopowAlgos::proof_for_interlink_vector(&extension).unwrap();
        popow.push(PoPowHeader { header, interlinks, interlinks_proof });
    }
    popow
}

fn outside_proof(wires: &[Vec<u8>], k: u32, m: u32) -> Json {
    let proof = NipopowAlgos::default().prove(&outside(wires), k, m).unwrap();
    let bytes = proof.scorex_serialize_bytes().unwrap();
    Json::Object(vec![
        ("proofHex".to_string(), Json::Text(bytes_to_hex(&bytes))),
        ("error".to_string(), Json::Null),
    ])
}

fn five() -> Vec<Vec<u8>> {
    vec![leveled(1, 0), leveled(2, 3), leveled(3, 0), leveled(4, 1), leveled(5, 2)]
}

fn text<T: std::fmt::Debug>(r: Result<T, String>) -> String {
    r.unwrap_err()
}

fn note<T: std::fmt::Debug>(r: Result<T, ChainFault>) -> String {
    match r.unwrap_err() {
        ChainFault::Note(note) => note,
        other => panic!("{:?}", other),
    }
}

fn parsed(wires: &[Vec<u8>]) -> Vec<PopowHeader> {
    match parse_chain(&chain(wires)) {
        Ok(chain) => chain,
        Err(e) => panic!("{:?}", e),
    }
}

// --------------------------------------------------------------- interlinks

#[test]
fn interlinks_follow_from_the_levels_before() {
    let w = five();
    let ids: Vec<String> = w.iter().map(|x| id(x)).collect();
    let (a, b, d) = (ids[0].clone(), ids[1].clone(), ids[3].clone());
    let expected = listed(vec![
        vec![a.clone()],
        vec![a.clone()],
        vec![a.clone(), b.clone(), b.clone(), b.clone()],
        vec![a.clone(), b.clone(), b.clone(), b.clone()],
        vec![a, b.clone(), b, d],
    ]);
    assert_eq!(run_interlinks(&chain(&w)), Ok(expected));
}

#[test]
fn a_later_header_at_the_first_height_starts_over() {
    let w = vec![leveled(1, 0), leveled(2, 2), wire(1, 1, EASY, 9, &power(256)), leveled(4, 0)];
    let ids: Vec<String> = w.iter().map(|x| id(x)).collect();
    let expected = listed(vec![
        vec![ids[0].clone()],
        vec![ids[0].clone()],
        vec![ids[0].clone(), ids[1].clone(), ids[1].clone()],
        vec![ids[2].clone()],
    ]);
    assert_eq!(run_interlinks(&chain(&w)), Ok(expected));
}

#[test]
fn interlinks_of_a_beginning_are_the_beginning() {
    let w = five();
    let whole = parsed(&w);
    let start = parsed(&w[..3]);
    for (a, b) in start.iter().zip(whole.iter()) {
        assert_eq!(a.interlinks, b.interlinks);
        assert_eq!(a.proof, b.proof);
        assert_eq!(a.header.id, b.header.id);
    }
}

#[test]
fn the_last_header_has_no_part_in_the_interlinks() {
    let mut w = five();
    let first = run_interlinks(&chain(&w)).unwrap();
    w[4] = leveled(9, 7);
    assert_eq!(run_interlinks(&chain(&w)), Ok(first));
}

#[test]
fn proofs_of_interlinks_are_those_of_the_outside_crate() {
    let w = five();
    let ours = parsed(&w);
    let theirs = outside(&w);
    for (a, b) in ours.iter().zip(theirs.iter()) {
        assert_eq!(a.proof, b.interlinks_proof.scorex_serialize_bytes().unwrap());
        assert!(b.check_interlinks_proof());
    }
}

#[test]
fn headers_of_the_second_version_have_levels_too() {
    let w: Vec<Vec<u8>> =
        (1u32..=6).map(|height| wire(2, height, EASY, height as u64, &[])).collect();
    let expected = outside(&w);
    let ours = parsed(&w);
    for (a, b) in ours.iter().zip(expected.iter()) {
        let ids: Vec<[u8; 32]> = b.interlinks.iter().map(|id| id.0 .0).collect();
        assert_eq!(a.interlinks, ids);
        assert_eq!(a.header.id, b.header.id.0 .0);
        assert_eq!(a.header.unsigned, b.header.serialize_without_pow().unwrap());
    }
}

#[test]
fn a_header_of_a_grown_table_has_a_level() {
    let w = vec![leveled(1, 0), wire(2, 700_000, EASY, 5, &[]), leveled(700_001, 0)];
    let expected = outside(&w);
    let ours = parsed(&w);
    let ids: Vec<[u8; 32]> = expected[2].interlinks.iter().map(|id| id.0 .0).collect();
    assert_eq!(ours[2].interlinks, ids);
}

// -------------------------------------------------------------------- notes

#[test]
fn a_chain_that_cannot_be_read_says_why() {
    let good = item(&leveled(1, 0));
    let hex = |s: &str| Json::Object(vec![("headerHex".to_string(), Json::text(s))]);
    assert_eq!(note(run_interlinks(&vec![good.duplicate(), Json::Null])), "missing headerHex");
    let unread = || {
        let short = Header::scorex_parse_bytes(&[1, 2]).unwrap_err();
        format!("header parse failed: {:?}", short)
    };
    let bad = "bad hex: ParseIntError { kind: InvalidDigit }";
    assert_eq!(note(run_interlinks(&vec![good.duplicate(), hex("0g")])), bad);
    for (cut, at) in
        [("0", 0), ("012", 2), ("0\u{e9}", 0), ("\u{2014}0", 0), ("01\u{1f600}", 2), ("+a0b1", 4)]
    {
        let fault = ChainFault::Slice { text: cut.to_string(), at };
        let broken = vec![good.duplicate(), hex(cut), Json::Null];
        assert_eq!(run_interlinks(&broken), Err(fault));
        assert!(cut.get(at..at + 2).is_none());
        assert!(matches!(run_prove(&broken, 1, 1, None), Err(ChainFault::Slice { .. })));
    }
    assert_eq!(note(run_interlinks(&vec![hex("0102"), hex("0")])), unread());
    for wide in ["\u{e9}", "0g1", "\u{e9}0"] {
        assert_eq!(note(run_interlinks(&vec![good.duplicate(), hex(wide)])), bad);
    }
    assert_eq!(
        note(run_interlinks(&vec![hex("0102"), Json::Null])),
        unread()
    );
    assert_eq!(
        note(run_interlinks(&vec![])),
        "index out of bounds: the len is 0 but the index is 0"
    );
}

#[test]
fn a_difficulty_of_zero_leaves_no_level() {
    for n_bits in [0, 0x00ff_ffff, 0x0100_ffff, 0x0180_ffff, 0x0200_00ff, 0x0300_0000, 0xff80_0000] {
        let w = vec![leveled(1, 0), wire(1, 2, n_bits, 0, &[1]), leveled(3, 0)];
        assert_eq!(note(run_interlinks(&chain(&w))), "attempt to divide by zero");
    }
    let unasked = vec![leveled(1, 0), wire(1, 2, 0, 0, &[1])];
    assert!(run_interlinks(&chain(&unasked)).is_ok());
}

#[test]
fn a_solution_with_an_index_of_zero_leaves_no_level() {
    let w = vec![leveled(1, 0), wire(2, 2, EASY, 1_147_094, &[]), leveled(3, 0)];
    assert_eq!(
        note(run_interlinks(&chain(&w))),
        "index out of bounds: the len is 0 but the index is 0"
    );
    let next = vec![leveled(1, 0), wire(2, 2, EASY, 1_147_095, &[]), leveled(3, 0)];
    assert!(run_interlinks(&chain(&next)).is_ok());
    let grown = vec![leveled(1, 0), wire(2, 700_000, EASY, 2_342_795, &[]), leveled(3, 0)];
    assert_eq!(
        note(run_interlinks(&chain(&grown))),
        "index out of bounds: the len is 0 but the index is 0"
    );
}

#[test]
fn indexes_are_taken_from_a_seed_round_its_end() {
    let mut seed = [1u8; 32];
    assert!(!zero_index(&seed, 1 << 26));
    seed[31] = 4;
    seed[0] = 0;
    seed[1] = 0;
    seed[2] = 0;
    assert!(zero_index(&seed, 1 << 26));
    assert!(!zero_index(&seed, 1 << 27));
    assert!(zero_index(&seed, 0x0101_0101));
    assert!(zero_index(&[0; 32], 5));
}

#[test]
fn levels_are_usable_up_to_the_top() {
    assert_eq!(check_level(&Ok(0)), Ok(0));
    assert_eq!(check_level(&Ok(256)), Ok(256));
    for level in [-1, i32::MIN] {
        assert_eq!(text(check_level(&Ok(level))), "capacity overflow");
    }
    for level in [257, i32::MAX] {
        assert_eq!(text(check_level(&Ok(level))), "attempt to add with overflow");
    }
    assert_eq!(
        text(check_level(&Err("MissingPowDistanceParameter".to_string()))),
        "update_interlinks: MissingPowDistanceParameter"
    );
}

#[test]
fn levels_out_of_range_give_no_interlinks() {
    for distance in [power(257), power(1500)] {
        let w = vec![leveled(1, 0), wire(1, 2, EASY, 0, &distance), leveled(3, 0)];
        assert_eq!(note(run_interlinks(&chain(&w))), "capacity overflow");
    }
    let zero = vec![leveled(1, 0), wire(1, 2, EASY, 0, &[]), leveled(3, 0)];
    assert_eq!(note(run_interlinks(&chain(&zero))), "attempt to add with overflow");
    let negative = vec![leveled(1, 0), wire(1, 2, EASY, 0, &[0xff]), leveled(3, 0)];
    assert!(run_interlinks(&chain(&negative)).is_ok());
}

#[test]
fn raising_keeps_the_first_place() {
    let (a, b, c, x) = ([1u8; 32], [2u8; 32], [3u8; 32], [9u8; 32]);
    assert_eq!(raise(&x, &vec![a, b, c], 0), vec![a, b, c]);
    assert_eq!(raise(&x, &vec![a, b, c], 1), vec![a, b, x]);
    assert_eq!(raise(&x, &vec![a, b, c], 2), vec![a, x, x]);
    assert_eq!(raise(&x, &vec![a, b, c], 3), vec![a, x, x, x]);
    assert_eq!(raise(&x, &vec![a, b, c], 4), vec![a, x, x, x, x]);
    assert_eq!(raise(&x, &vec![a], 256).len(), 257);
}

#[test]
fn raising_is_what_the_outside_crate_does() {
    for level in 0..6 {
        let header = Header::scorex_parse_bytes(&leveled(2, level)).unwrap();
        for count in 1u8..7 {
            let before: Vec<[u8; 32]> = (0..count).map(|i| [i; 32]).collect();
            let ids = before.iter().map(|id| ergo_chain_types::BlockId((*id).into())).collect();
            let theirs = NipopowAlgos::update_interlinks(header.clone(), ids).unwrap();
            let theirs: Vec<[u8; 32]> = theirs.iter().map(|id| id.0 .0).collect();
            assert_eq!(raise(&header.id.0 .0, &before, level), theirs);
        }
    }
}

fn headers(wires: &[Vec<u8>]) -> Vec<ChainHeader> {
    match read_headers(&chain(wires)) {
        Ok(headers) => headers,
        Err(e) => panic!("{:?}", e),
    }
}

#[test]
fn interlinks_follow_from_given_levels() {
    let w = five();
    let ids: Vec<[u8; 32]> = headers(&w).iter().map(|h| h.id).collect();
    let levels = vec![Err("unread".to_string()), Ok(1), Ok(2), Ok(0), Ok(-7)];
    let linked = match link_chain(headers(&w), &levels) {
        Ok(linked) => linked,
        Err(e) => panic!("{}", e),
    };
    let rows: Vec<Vec<[u8; 32]>> = linked.iter().map(|p| p.interlinks.clone()).collect();
    assert_eq!(
        rows,
        vec![
            vec![ids[0]],
            vec![ids[0]],
            vec![ids[0], ids[1]],
            vec![ids[0], ids[2], ids[2]],
            vec![ids[0], ids[2], ids[2]],
        ]
    );
    let failing = |level: Result<i32, String>| {
        let levels = vec![Ok(0), Ok(1), level, Ok(0), Ok(0)];
        link_chain(headers(&w), &levels).err().unwrap()
    };
    assert_eq!(failing(Err("no".to_string())), "update_interlinks: no");
    assert_eq!(failing(Ok(-1)), "capacity overflow");
    assert_eq!(failing(Ok(i32::MAX)), "attempt to add with overflow");
    assert_eq!(failing(Ok(256)), "attempt to add with overflow");
    let none = link_chain(vec![], &vec![]).err().unwrap();
    assert_eq!(none, "index out of bounds: the len is 0 but the index is 0");
}

#[test]
fn interlinks_follow_a_header_by_its_level() {
    let h = headers(&[leveled(1, 0), leveled(2, 0), wire(1, 3, 0, 0, &[1])]);
    let before = vec![[1u8; 32], [2u8; 32]];
    let behind = |i: usize, level: i32| follow_interlinks(&h[i], &Ok(level), &before);
    assert_eq!(behind(0, 5), Ok(vec![h[0].id]));
    assert_eq!(behind(1, 1), Ok(vec![[1u8; 32], h[1].id]));
    assert_eq!(text(behind(2, 1)), "attempt to divide by zero");
}

#[test]
fn a_proof_breaks_off_by_given_levels() {
    let w = five();
    let linked = parsed(&w);
    let at = |levels: [i32; 5], k: u32, m: u32| {
        let levels = levels.iter().map(|level| Ok(*level)).collect();
        find_prove_note(&linked, &levels, k, m)
    };
    let index = |n: u32| Some(format!("index out of bounds: the len is {} but the index is {}", n, n));
    assert_eq!(at([0; 5], 1, 0), index(1));
    assert_eq!(at([0, 3, 2, 9, 9], 1, 0), index(3));
    assert_eq!(at([0, 3, 3, 9, 9], 1, 0), index(4));
    assert_eq!(at([0, 3, 3, 9, 9], 3, 0), index(2));
    assert_eq!(at([0; 5], 1, 1), None);
    assert_eq!(at([0; 5], 5, 0), None);
    assert_eq!(at([0; 5], 0, 0), None);
    assert_eq!(at([0; 5], 2, u32::MAX), Some("attempt to add with overflow".to_string()));
}

#[test]
fn runs_that_one_byte_cannot_count_are_not_packed() {
    let top = vec![leveled(1, 0), leveled(2, 256), leveled(3, 0)];
    assert_eq!(note(run_interlinks(&chain(&top))), "attempt to add with overflow");
    let below = vec![leveled(1, 0), leveled(2, 255), leveled(3, 0)];
    let ours = parsed(&below);
    assert_eq!(ours[2].interlinks.len(), 256);
    assert_eq!(ours[2].proof, outside(&below)[2].interlinks_proof.scorex_serialize_bytes().unwrap());
}

#[test]
fn packing_counts_runs_and_ids() {
    let run: Vec<[u8; 32]> = vec![[1; 32]; 255];
    assert!(prove_interlinks(&run, "proof").is_ok());
    let long: Vec<[u8; 32]> = vec![[1; 32]; 256];
    assert_eq!(text(prove_interlinks(&long, "proof")), "attempt to add with overflow");
    let many: Vec<[u8; 32]> = (0u32..257).map(|i| [(i % 2) as u8; 32]).collect();
    assert_eq!(text(prove_interlinks(&many, "proof")), "attempt to add with overflow");
    let enough: Vec<[u8; 32]> = many[..256].to_vec();
    assert!(prove_interlinks(&enough, "proof").is_ok());
    assert_ne!(prove_interlinks(&many[..3].to_vec(), "p"), prove_interlinks(&many[..4].to_vec(), "p"));
}

// -------------------------------------------------------------------- proof

#[test]
fn a_proof_is_that_of_the_outside_crate() {
    let w = five();
    for (k, m) in [(1, 1), (1, 2), (2, 1), (2, 3), (1, 4)] {
        assert_eq!(run_prove(&chain(&w), m, k, None), Ok(outside_proof(&w, k, m)));
    }
}

#[test]
fn a_named_header_ends_the_chain_k_headers_later() {
    let w = five();
    let name = id(&w[2]);
    let expected = Ok(outside_proof(&w[..4], 1, 2));
    assert_eq!(run_prove(&chain(&w), 2, 1, Some(name.as_str())), expected);
    assert_eq!(run_prove(&chain(&w), 2, 1, Some(name.to_uppercase().as_str())), expected);
    assert_eq!(run_prove(&chain(&w[..4]), 2, 1, None), expected);
}

#[test]
fn a_proof_holds_its_parameters_and_the_ends_of_the_chain() {
    let w = five();
    for (k, m) in [(1, 2), (2, 1), (3, 2)] {
        let answer = run_prove(&chain(&w), m, k, None).unwrap();
        let bytes = hex::decode(answer.get("proofHex").unwrap().as_str().unwrap()).unwrap();
        let proof = ergo_nipopow::NipopowProof::scorex_parse_bytes(&bytes).unwrap();
        assert_eq!((proof.m, proof.k), (m, k));
        let ids: Vec<String> = w.iter().map(|x| id(x)).collect();
        let n = 5 - k as usize;
        assert_eq!(bytes_to_hex(&proof.prefix[0].header.id.0 .0), ids[0]);
        assert_eq!(bytes_to_hex(&proof.suffix_head.header.id.0 .0), ids[n]);
        let tail: Vec<String> =
            proof.suffix_tail.iter().map(|h| bytes_to_hex(&h.id.0 .0)).collect();
        assert_eq!(tail, ids[n + 1..].to_vec());
        let picked: Vec<u32> = proof.prefix.iter().map(|p| p.header.height).collect();
        let mut ordered = picked.clone();
        ordered.sort();
        ordered.dedup();
        assert_eq!(picked, ordered);
        assert!(picked.iter().all(|height| *height as usize <= n));
    }
}

#[test]
fn a_proof_picks_the_headers_that_its_passes_find() {
    let heights = |k: u32, m: u32| {
        let answer = run_prove(&chain(&five()), m, k, None).unwrap();
        let bytes = hex::decode(answer.get("proofHex").unwrap().as_str().unwrap()).unwrap();
        let proof = ergo_nipopow::NipopowProof::scorex_parse_bytes(&bytes).unwrap();
        proof.prefix.iter().map(|p| p.header.height).collect::<Vec<u32>>()
    };
    assert_eq!(heights(1, 1), vec![1, 2, 4]);
    assert_eq!(heights(1, 2), vec![1, 2, 3, 4]);
    assert_eq!(heights(2, 1), vec![1, 2, 3]);
    assert_eq!(heights(4, 1), vec![1]);
}

#[test]
fn a_request_that_names_no_part_of_the_chain_says_why() {
    let w = five();
    assert_eq!(note(run_prove(&chain(&w), 1, 1, Some("00"))), "headerId not found");
    let name = id(&w[3]);
    assert_eq!(
        note(run_prove(&chain(&w), 1, 2, Some(name.as_str()))),
        "range end index 6 out of range for slice of length 5"
    );
    assert_eq!(
        note(run_prove(&chain(&w), 1, u32::MAX, Some(name.as_str()))),
        "range end index 4294967299 out of range for slice of length 5"
    );
}

#[test]
fn requests_that_cannot_be_proved_are_refused() {
    let w = five();
    assert_eq!(note(run_prove(&chain(&w), 1, 0, None)), "prove failed: ZeroKParameter");
    assert_eq!(note(run_prove(&chain(&w), 5, 1, None)), "prove failed: ChainTooShort");
    assert_eq!(note(run_prove(&chain(&w), 0, 5, None)), "prove failed: ChainTooShort");
    assert_eq!(
        note(run_prove(&chain(&w[1..]), 1, 1, None)),
        "prove failed: NonAnchoredChain"
    );
    assert_eq!(
        note(run_prove(&chain(&w), u32::MAX, 1, None)),
        "attempt to add with overflow"
    );
    assert_eq!(note(run_prove(&chain(&w), u32::MAX, 0, None)), "prove failed: ZeroKParameter");
}

#[test]
fn a_proof_needs_an_m_of_one_at_least() {
    let w = five();
    assert_eq!(
        note(run_prove(&chain(&w), 0, 2, None)),
        "index out of bounds: the len is 2 but the index is 2"
    );
    assert_eq!(
        note(run_prove(&chain(&w), 0, 4, None)),
        "index out of bounds: the len is 1 but the index is 1"
    );
}

#[test]
fn a_header_without_a_level_in_the_prefix_is_noted() {
    let mut w = five();
    w[4] = wire(1, 5, 0, 0, &[1]);
    assert!(run_prove(&chain(&w), 1, 1, None).is_ok());
    w.push(leveled(6, 0));
    assert_eq!(note(run_prove(&chain(&w), 1, 1, None)), "attempt to divide by zero");
    let short = vec![leveled(1, 0), wire(1, 2, 0, 0, &[1])];
    assert!(run_prove(&chain(&short), 1, 1, None).is_ok());
}

#[test]
fn the_outcome_of_a_proof_is_written() {
    let answer = proof_result(Ok(vec![0x0a, 0xff]));
    let expected = Json::Object(vec![
        ("proofHex".to_string(), Json::text("0aff")),
        ("error".to_string(), Json::Null),
    ]);
    assert_eq!(answer, Ok(expected));
    assert_eq!(text(proof_result(Err(ProveFault::Refused("no".to_string())))), "prove failed: no");
    assert_eq!(text(proof_result(Err(ProveFault::Unwritable("no".to_string())))), "serialize: no");
}
