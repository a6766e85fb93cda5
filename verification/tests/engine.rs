use witgen::air::BLAKE2BAirParameters;
use witgen::blake2b::{end_bit_values, BLAKE2BGadget, BLAKE2BHintGenerator, BLAKE2BPublicData};
use witgen::builder::{CircuitBuilder, CircuitConfig, Target};
use witgen::byte_table::ByteLookupTable;
use witgen::digits::{num_limbs_to_check, split_digits};
use witgen::errors::{CircuitError, WitnessError};
use witgen::generator::Generator;
use witgen::scheduler::generate_witness;

fn test_config() -> CircuitConfig {
    CircuitConfig { num_wires: 134, num_routed_wires: 12 }
}

#[test]
fn test_split_base() {
    let config = test_config();
    let mut builder = CircuitBuilder::new(config);
    let xt = builder.constant(0b10100000).unwrap(); // 160 = 1120 in base 5.
    let limbs = builder.split_le_base::<5>(xt).unwrap();
    assert_eq!(limbs.len(), 28); // 5^27 < 2^64 <= 5^28
    let zero = builder.zero().unwrap();
    let one = builder.one().unwrap();
    let two = builder.two().unwrap();
    builder.assert_equal(limbs[0], zero);
    builder.assert_equal(limbs[1], two);
    builder.assert_equal(limbs[2], one);
    builder.assert_equal(limbs[3], one);

    builder.assert_trailing_zeros::<3>(xt, 4).unwrap();
    builder.assert_trailing_zeros::<3>(xt, 5).unwrap();
    builder.assert_trailing_zeros::<13>(xt, 5).unwrap();

    // Over a prime field a non-canonical digit vector congruent to 160 can
    // satisfy a base-sum constraint; this crate is exact over the integers,
    // so the canonical base-3 digits of 160 are nonzero and the zero
    // constraints conflict at witness time.
    assert!(matches!(
        generate_witness(&builder, &Vec::new()),
        Err(WitnessError::AssignmentConflict)
    ));
}

#[test]
fn test_split_round_trip_via_witness() {
    let mut builder = CircuitBuilder::new(test_config());
    let xt = builder.constant(160).unwrap();
    let limbs = builder.split_le_base::<5>(xt).unwrap();
    let w = generate_witness(&builder, &Vec::new()).unwrap();
    let digits: Vec<u64> =
        limbs.iter().map(|t| w.get_target(&builder, *t).unwrap()).collect();
    assert_eq!(&digits[0..4], &[0, 2, 1, 1]);
    assert!(digits[4..].iter().all(|d| *d == 0));
    let recombined: u64 = digits.iter().rev().fold(0u64, |acc, d| acc * 5 + d);
    assert_eq!(recombined, 160);
}

#[test]
fn test_split_digits_exact() {
    assert_eq!(split_digits(160, 5, 4), vec![0, 2, 1, 1]);
    assert_eq!(split_digits(0b10100000, 2, 8), vec![0, 0, 0, 0, 0, 1, 0, 1]);
    assert_eq!(split_digits(u64::MAX, 10, 20).len(), 20);
}

#[test]
fn test_num_limbs_values() {
    assert_eq!(num_limbs_to_check(64, 5), 28);
    assert_eq!(num_limbs_to_check(64, 2), 64);
    assert_eq!(num_limbs_to_check(4, 3), 3);
    assert_eq!(num_limbs_to_check(5, 3), 4);
    assert_eq!(num_limbs_to_check(5, 13), 2);
    assert_eq!(num_limbs_to_check(0, 7), 0);
}

#[test]
fn test_trailing_zeros_base2_positive() {
    // 16 has exactly 4 trailing zero bits: asserting 4 in base 2 holds.
    let mut builder = CircuitBuilder::new(test_config());
    let xt = builder.constant(16).unwrap();
    builder.assert_trailing_zeros::<2>(xt, 4).unwrap();
    assert!(generate_witness(&builder, &Vec::new()).is_ok());
}

#[test]
fn test_trailing_zeros_negative() {
    // 16 has exactly 4 trailing zero bits; asserting 5 in base 3 must fail:
    // the low limbs constrained to zero conflict with the canonical digits.
    let mut builder = CircuitBuilder::new(test_config());
    let xt = builder.constant(16).unwrap();
    builder.assert_trailing_zeros::<3>(xt, 5).unwrap();
    assert!(matches!(
        generate_witness(&builder, &Vec::new()),
        Err(WitnessError::AssignmentConflict)
    ));
}

#[test]
fn test_trailing_zeros_config_too_small() {
    // Base 2 with 20 zero bits needs 20 routed cells; only 12 exist.
    let mut builder = CircuitBuilder::new(test_config());
    let xt = builder.constant(0).unwrap();
    assert_eq!(
        builder.assert_trailing_zeros::<2>(xt, 20),
        Err(CircuitError::NotEnoughRoutedWires)
    );
}

#[test]
fn test_column_budget() {
    let mut builder = CircuitBuilder::new(CircuitConfig { num_wires: 10, num_routed_wires: 4 });
    let xt = builder.constant(7).unwrap();
    // 64 limbs plus the sum wire exceed 10 wire slots.
    assert_eq!(builder.split_le_base::<2>(xt), Err(CircuitError::ColumnBudgetExceeded));
}

#[test]
fn test_routing_conflict() {
    let mut builder = CircuitBuilder::new(test_config());
    let a = builder.constant(1).unwrap();
    let b = builder.constant(2).unwrap();
    builder.assert_equal(a, b);
    assert!(matches!(
        generate_witness(&builder, &Vec::new()),
        Err(WitnessError::AssignmentConflict)
    ));
}

#[test]
fn test_scheduler_cycle_detected() {
    // Two digit generators whose sum cells are each other's limbs: a true
    // cycle, reported as unsatisfiable dependencies instead of looping.
    let mut builder = CircuitBuilder::new(test_config());
    let mut l1: Vec<Target> = Vec::new();
    let mut l2: Vec<Target> = Vec::new();
    for _ in 0..64 {
        l1.push(builder.add_virtual_target().unwrap());
        l2.push(builder.add_virtual_target().unwrap());
    }
    let g1 = Generator::BaseSplit { sum: l2[0], base: 2, limbs: l1.clone() };
    let g2 = Generator::BaseSplit { sum: l1[0], base: 2, limbs: l2.clone() };
    builder.register_generator(g1);
    builder.register_generator(g2);
    assert!(matches!(
        generate_witness(&builder, &Vec::new()),
        Err(WitnessError::UnsatisfiableDependencies)
    ));
}

#[test]
fn test_scheduler_unsatisfiable() {
    // A generator whose sum cell nothing assigns never runs.
    let mut builder = CircuitBuilder::new(test_config());
    let a = builder.add_virtual_target().unwrap();
    let _limbs = builder.split_le_base::<5>(a).unwrap();
    assert!(matches!(
        generate_witness(&builder, &Vec::new()),
        Err(WitnessError::UnsatisfiableDependencies)
    ));
}

#[test]
fn test_scheduler_deterministic() {
    let build = || {
        let mut builder = CircuitBuilder::new(test_config());
        let xt = builder.constant(987654321).unwrap();
        let _ = builder.split_le_base::<7>(xt).unwrap();
        builder
    };
    let b1 = build();
    let b2 = build();
    let w1 = generate_witness(&b1, &Vec::new()).unwrap();
    let w2 = generate_witness(&b2, &Vec::new()).unwrap();
    assert_eq!(w1.values, w2.values);
}

const EMPTY_DIGEST: [u8; 32] = [
    0x0e, 0x57, 0x51, 0xc0, 0x26, 0xe5, 0x43, 0xb2, 0xe8, 0xab, 0x2e, 0xb0, 0x60, 0x99, 0xda,
    0xa1, 0xd1, 0xe5, 0xdf, 0x47, 0x77, 0x8f, 0x77, 0x87, 0xfa, 0xab, 0x45, 0xcd, 0xf1, 0x2f,
    0xe3, 0xa8,
];

#[test]
fn test_blake2b_empty_message() {
    // Reference BLAKE2B-256 digest of the empty input.
    let padded = vec![0u8; 128];
    let d = BLAKE2BGadget::digest(&padded, 0);
    assert_eq!(d, EMPTY_DIGEST.to_vec());
}

#[test]
fn test_blake2b_two_chunks() {
    // 130-byte message spanning two chunks, against an independent
    // reference implementation.
    let msg: Vec<u8> = (0..130u32).map(|i| (i % 256) as u8).collect();
    let mut padded = msg.clone();
    padded.resize(256, 0);
    let d = BLAKE2BGadget::digest(&padded, 130);
    let expected: [u8; 32] = [
        0xd3, 0xb1, 0x1b, 0x4c, 0xbe, 0x51, 0x3e, 0xc7, 0xb6, 0xf4, 0xbb, 0x5f, 0xf0, 0xc4,
        0x11, 0xde, 0x40, 0x5a, 0x86, 0x41, 0xcf, 0x22, 0x14, 0x93, 0x44, 0x7a, 0x35, 0x92,
        0x7c, 0xa3, 0xae, 0xa7,
    ];
    assert_eq!(d, expected.to_vec());
    // The intermediate state after chunk one: exactly the compression of the
    // first 128 bytes with a 128-byte counter and no final-chunk flag.
    let chunk1: Vec<u8> = padded[0..128].to_vec();
    let h0: Vec<u64> = {
        let mut iv = vec![
            0x6a09e667f3bcc908u64,
            0xbb67ae8584caa73b,
            0x3c6ef372fe94f82b,
            0xa54ff53a5f1d36f1,
            0x510e527fade682d1,
            0x9b05688c2b3e6c1f,
            0x1f83d9abfb41bd6b,
            0x5be0cd19137e2179,
        ];
        iv[0] ^= 0x01010020;
        iv
    };
    let s1 = BLAKE2BGadget::compress(&chunk1, &h0, 128, false);
    let expected_state: [u64; 8] = [
        0x12dac38388ccdc21,
        0x97e45bb8e401e5d1,
        0xfa8850d93bf058eb,
        0x3431934cee99d642,
        0x75aabe1470b6cb92,
        0xd4ad250c995d8c36,
        0xa481b0bbedb175f7,
        0x3d8f34c505e0e297,
    ];
    assert_eq!(s1, expected_state.to_vec());
}

#[test]
fn test_hint_generator_through_scheduler() {
    // The hint generator writes the empty-input digest into its cells.
    let mut builder = CircuitBuilder::new(test_config());
    let mut padded: Vec<Target> = Vec::new();
    for _ in 0..128 {
        padded.push(builder.constant(0).unwrap());
    }
    let mlen = builder.constant(0).unwrap();
    let mut digest_cells: Vec<Target> = Vec::new();
    for _ in 0..32 {
        digest_cells.push(builder.add_virtual_target().unwrap());
    }
    let h = BLAKE2BHintGenerator::new(&padded, mlen, digest_cells.clone());
    builder.register_generator(Generator::Blake2bHint(h));
    let w = generate_witness(&builder, &Vec::new()).unwrap();
    for (i, t) in digest_cells.iter().enumerate() {
        assert_eq!(w.get_target(&builder, *t), Some(EMPTY_DIGEST[i] as u64));
    }
}

#[test]
fn test_hint_rejects_non_byte_values() {
    let mut builder = CircuitBuilder::new(test_config());
    let mut padded: Vec<Target> = Vec::new();
    padded.push(builder.constant(999).unwrap());
    for _ in 1..128 {
        padded.push(builder.constant(0).unwrap());
    }
    let mlen = builder.constant(0).unwrap();
    let mut digest_cells: Vec<Target> = Vec::new();
    for _ in 0..32 {
        digest_cells.push(builder.add_virtual_target().unwrap());
    }
    let h = BLAKE2BHintGenerator::new(&padded, mlen, digest_cells);
    builder.register_generator(Generator::Blake2bHint(h));
    assert!(matches!(
        generate_witness(&builder, &Vec::new()),
        Err(WitnessError::ByteValueOutOfRange)
    ));
}

#[test]
fn test_hint_generator_id_and_dependencies() {
    assert_eq!(BLAKE2BHintGenerator::id(), "BLAKE2BHintGenerator");
    let mut builder = CircuitBuilder::new(test_config());
    let a = builder.add_virtual_target().unwrap();
    let b = builder.add_virtual_target().unwrap();
    let h = BLAKE2BHintGenerator::new(&vec![a], b, vec![a; 32]);
    let g = Generator::Blake2bHint(h);
    assert_eq!(g.dependencies(), vec![a, b]);
}

#[test]
fn test_batching_end_bits() {
    // Two messages of two and one chunks: one set flag per message, each at
    // that message's final chunk.
    assert_eq!(end_bit_values(&vec![2, 1]), vec![0, 1, 1]);
    assert_eq!(end_bit_values(&vec![1, 3]), vec![1, 0, 0, 1]);
}

#[test]
fn test_batching_isolation() {
    // Changing the second message's bytes leaves the first digest unchanged.
    let msg1 = vec![0u8; 128];
    let mut msg2a = vec![7u8; 128];
    let mut msg2b = vec![9u8; 128];
    let d1_before = BLAKE2BGadget::digest(&msg1, 5);
    msg2a[0] = 1;
    msg2b[0] = 2;
    let _ = BLAKE2BGadget::digest(&msg2a, 100);
    let _ = BLAKE2BGadget::digest(&msg2b, 100);
    let d1_after = BLAKE2BGadget::digest(&msg1, 5);
    assert_eq!(d1_before, d1_after);
}

#[test]
fn test_byte_table() {
    let mut builder = CircuitBuilder::new(test_config());
    let a = builder.constant(7).unwrap();
    let b = builder.constant(7).unwrap();
    let c = builder.constant(255).unwrap();
    let mut table = ByteLookupTable::new();
    table.add_byte_claim(a);
    table.add_byte_claim(b);
    table.add_byte_claim(c);
    let w = generate_witness(&builder, &Vec::new()).unwrap();
    table.fill_multiplicities(&builder, &w).unwrap();
    assert_eq!(table.multiplicities[7], 2);
    assert_eq!(table.multiplicities[255], 1);
    assert_eq!(table.multiplicities[0], 0);
}

#[test]
fn test_byte_table_rejects_wide_value() {
    let mut builder = CircuitBuilder::new(test_config());
    let a = builder.constant(256).unwrap();
    let mut table = ByteLookupTable::new();
    table.add_byte_claim(a);
    let w = generate_witness(&builder, &Vec::new()).unwrap();
    assert_eq!(
        table.fill_multiplicities(&builder, &w),
        Err(WitnessError::ByteValueOutOfRange)
    );
}

#[test]
fn test_air_parameters() {
    assert_eq!(BLAKE2BAirParameters::num_rows_bits(), 16);
    assert_eq!(BLAKE2BAirParameters::num_rows(), 65536);
    let p = BLAKE2BAirParameters::parameters();
    assert_eq!(p.num_free_columns, 551);
    assert_eq!(p.num_extended_columns, 927);
    assert_eq!(p.num_arithmetic_columns, 0);
}

#[test]
fn test_public_data_end_bits() {
    let mut builder = CircuitBuilder::new(test_config());
    let mut digests: Vec<Target> = Vec::new();
    for _ in 0..64 {
        digests.push(builder.add_virtual_target().unwrap());
    }
    let pd = BLAKE2BPublicData::add_virtual(&mut builder, &digests, &vec![2, 1]).unwrap();
    assert_eq!(pd.end_bits.len(), 3);
    // 32 state byte cells per chunk boundary
    assert_eq!(pd.hash_state.len(), 32 * 3);
    // each message's final chunk boundary carries its digest cells, 4-byte
    // groups reversed into word order
    for p in 0..32 {
        let gi = p / 4;
        let bi = p % 4;
        // message one: two chunks, digest block at boundary two
        assert_eq!(pd.hash_state[32 * 2 - 32 + p], digests[4 * gi + 3 - bi]);
        // message two: one chunk, digest block at boundary three
        assert_eq!(pd.hash_state[32 * 3 - 32 + p], digests[32 + 4 * gi + 3 - bi]);
    }
    let w = generate_witness(&builder, &Vec::new());
    // end-bit cells are constants: they are seeded even with no generators
    let w = w.unwrap();
    let flags: Vec<u64> =
        pd.end_bits.iter().map(|t| w.get_target(&builder, *t).unwrap()).collect();
    assert_eq!(flags, vec![0, 1, 1]);
}

#[test]
fn test_public_input_targets_layout() {
    let mut builder = CircuitBuilder::new(test_config());
    let mut digests: Vec<Target> = Vec::new();
    for _ in 0..32 {
        digests.push(builder.add_virtual_target().unwrap());
    }
    let pd = BLAKE2BPublicData::add_virtual(&mut builder, &digests, &vec![1]).unwrap();
    let pubs = pd.public_input_targets(&mut builder).unwrap();
    // 64 initialization-constant bytes, then state bytes, then flags
    assert_eq!(pubs.len(), 64 + pd.hash_state.len() + pd.end_bits.len());
    assert_eq!(&pubs[64..64 + pd.hash_state.len()], &pd.hash_state[..]);
    assert_eq!(&pubs[64 + pd.hash_state.len()..], &pd.end_bits[..]);
    // the initialization constants are seeded into every assignment and
    // carry the little-endian bytes of the initial state words
    let w = generate_witness(&builder, &Vec::new()).unwrap();
    let h0: u64 = 0x6a09e667f3bcc908 ^ 0x01010020;
    for j in 0..8 {
        let b = w.get_target(&builder, pubs[j]).unwrap();
        assert_eq!(b, (h0 >> (8 * j)) & 0xff);
    }
}
