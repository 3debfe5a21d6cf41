use kadnet::math::hash::{sha256, sha256_bytes};
use kadnet::math::u256::U256;
use kadnet::math::{ArithmeticError, OperationResult};
use kadnet::network::rpc::{FrameStep, Rpc};
use kadnet::node::builder::NodeBuilder;
use kadnet::routing::entry::Endpoint;
use kadnet::routing::id::{derivation_params, generate_id, DerivationParams, IdError, SALT_V1};
use kadnet::structures::array::keep_lowest_array_by;
use kadnet::structures::vecdeque::{SizedVecDeque, SizedVecDequeError};

fn pattern(seed: u8) -> U256 {
    let mut bytes = [0u8; 32];
    let mut x = seed;
    for b in bytes.iter_mut() {
        x = x.wrapping_mul(37).wrapping_add(11);
        *b = x;
    }
    U256(bytes)
}

#[test]
fn xor_is_its_own_inverse() {
    for s in 0u8..20 {
        let a = pattern(s);
        let b = pattern(s.wrapping_add(101));
        assert_eq!(a ^ b, b ^ a);
        assert_eq!(a ^ a, U256::zero());
        assert_eq!((a ^ b) ^ b, a);
        assert_eq!(a | U256::zero(), a);
        assert_eq!(a & U256::max_value(), a);
        assert_eq!(a | a, a);
    }
    assert_eq!(U256::from(0x0Cu8) | U256::from(0x03u8), U256::from(0x0Fu8));
}

#[test]
fn shifts_by_zero_and_beyond_the_width() {
    let mut by_256 = [0u8; 32];
    by_256[30] = 1;
    let mut by_65535 = [0u8; 32];
    by_65535[30] = 0xFF;
    by_65535[31] = 0xFF;
    for s in 0u8..10 {
        let a = pattern(s);
        assert_eq!(a << U256::zero(), a);
        assert_eq!(a >> U256::zero(), a);
        for wide in [U256(by_256), U256(by_65535)] {
            assert_eq!(a << wide, U256::zero());
            assert_eq!(a >> wide, U256::zero());
        }
    }
    // only the low sixteen bits of the operand count
    let mut high = [0u8; 32];
    high[29] = 1;
    assert_eq!(U256::from(7u8) << U256(high), U256::from(7u8));
}

#[test]
fn shifts_carry_across_bytes() {
    assert_eq!(U256::from(0x80u8) << U256::from(1u8), U256::from(0x100u16));
    assert_eq!(U256::from(0x100u16) >> U256::from(1u8), U256::from(0x80u8));
    assert_eq!(U256::from(0xABCDu16) << U256::from(12u8), U256::from(0xABCD000u32));
    assert_eq!(U256::from(0xABCD000u32) >> U256::from(12u8), U256::from(0xABCDu16));
    assert_eq!(U256::from(0xABCDu16) >> U256::from(10u8), U256::from(0x2Au8));
    assert_eq!(U256::max_value() >> U256::from(255u8), U256::from(1u8));
    assert_eq!(U256::from(1u8) << U256::from(255u8), U256::two_pow_k(255));
    assert_eq!(U256::from(3u8) << U256::from(255u8), U256::two_pow_k(255));
    assert_eq!(U256::max_value() << U256::from(8u8) >> U256::from(8u8), U256::max_value() >> U256::from(8u8));
    let v = u128::MAX / 3;
    assert_eq!(U256::from(v) >> U256::from(37u8), U256::from(v >> 37));
    assert_eq!(U256::from(v >> 40) << U256::from(37u8), U256::from((v >> 40) << 37));
}

#[test]
fn addition_and_subtraction_round_trip() {
    for s in 0u8..20 {
        let a = pattern(s) >> U256::from(1u8);
        let b = pattern(s.wrapping_add(50)) >> U256::from(1u8);
        assert_eq!(a.checked_add(b), OperationResult::Exact(a + b));
        assert_eq!((a + b).checked_sub(b), OperationResult::Exact(a));
        assert_eq!((a + b) - b, a);
    }
}

#[test]
fn overflow_and_underflow_are_reported_with_the_wrapped_result() {
    let one = U256::from(1u8);
    let max = U256::max_value();
    assert_eq!(max + one, U256::zero());
    assert_eq!(U256::zero() - one, max);
    assert_eq!(
        max.checked_add(one),
        OperationResult::Bounds(ArithmeticError::Overflow(U256::zero()))
    );
    assert_eq!(
        U256::zero().checked_sub(one),
        OperationResult::Bounds(ArithmeticError::UnderFlow(max))
    );
    assert_eq!(max.checked_add(U256::zero()), OperationResult::Exact(max));
    assert_eq!(one.checked_sub(one), OperationResult::Exact(U256::zero()));
    assert_eq!(
        U256::from(5u8).checked_sub(U256::from(7u8)),
        OperationResult::Bounds(ArithmeticError::UnderFlow(max - one))
    );
}

#[test]
fn small_factors_and_divisors() {
    assert_eq!(U256::from(1000u32).mul_u16(800), U256::from(800_000u32));
    assert_eq!(U256::from(800_001u32).div_u16(800), U256::from(1000u32));
    assert_eq!(U256::from(u128::MAX).mul_u16(65535).div_u16(65535), U256::from(u128::MAX));
    assert_eq!(U256::max_value().mul_u16(2), U256::max_value() - U256::from(1u8));
    assert_eq!(U256::from(7u8).mul_u16(0), U256::zero());
    assert_eq!(U256::from(7u8).div_u16(1), U256::from(7u8));
    assert_eq!(U256::max_value().div_u16(255).mul_u16(255), U256::max_value());
}

#[test]
fn leading_zeros_and_powers_of_two() {
    assert_eq!(U256::zero().leading_zeros(), 256);
    assert_eq!(U256::max_value().leading_zeros(), 0);
    assert_eq!(U256::from(1u8).leading_zeros(), 255);
    assert_eq!(U256::from(0x00F0u16).leading_zeros(), 248);
    for k in 0u8..=255 {
        let p = U256::two_pow_k(k);
        assert_eq!(p.leading_zeros(), 255 - k as u32);
        assert_eq!(p, U256::from(1u8) << U256::from(k));
    }
    let mut expect = [0u8; 32];
    expect[30] = 0x04;
    assert_eq!(U256::two_pow_k(10), U256(expect));
}

#[test]
fn order_is_that_of_the_numbers() {
    assert!(U256::from(1u8) < U256::from(2u8));
    assert!(U256::from(255u8) < U256::from(256u16));
    assert!(U256::two_pow_k(200) > U256::from(u128::MAX));
    assert!(U256::zero() <= U256::zero());
    assert!(U256::max_value() >= U256::two_pow_k(255));
    assert!(!(U256::from(3u8) < U256::from(3u8)));
    let mut hi = [0u8; 32];
    hi[0] = 1;
    let mut lo = [0xFFu8; 32];
    lo[0] = 0;
    assert!(U256(lo) < U256(hi));
    assert!(U256(hi) != U256(lo));
    assert_eq!(U256::default(), U256::zero());
}

#[test]
fn conversions_keep_the_number() {
    assert_eq!(u64::try_from(U256::from(u64::MAX)).ok(), Some(u64::MAX));
    assert_eq!(u128::try_from(U256::from(u128::MAX)).ok(), Some(u128::MAX));
    assert_eq!(u32::try_from(U256::from(7u8)).ok(), Some(7));
    assert!(u8::try_from(U256::from(256u16)).is_err());
    assert!(u16::try_from(U256::from(65536u32)).is_err());
    assert!(u32::try_from(U256::from(u64::MAX)).is_err());
    assert!(u64::try_from(U256::from(u128::MAX)).is_err());
    assert!(u128::try_from(U256::two_pow_k(128)).is_err());
    assert!(matches!(
        u64::try_from(U256::max_value()),
        Err(ArithmeticError::Overflow(()))
    ));
    let bytes: [u8; 32] = U256::from(0x0102u16).into();
    assert_eq!(bytes[30], 1);
    assert_eq!(bytes[31], 2);
    assert_eq!(U256::from(bytes), U256::from(0x0102u16));
    assert_eq!(U256::from(0x0102u16).as_bytes()[31], 2);
    let nine = U256::from(9u8);
    let whole: &[u8; 32] = nine.as_ref();
    assert_eq!(whole[31], 9);
}

#[test]
fn the_text_is_hexadecimal_pairs_joined_by_colons() {
    let mut bytes = [0u8; 32];
    bytes[0] = 0xAB;
    bytes[1] = 0x09;
    bytes[31] = 0xF0;
    let text = U256(bytes).to_string();
    assert_eq!(text.len(), 95);
    assert!(text.starts_with("AB:09:00:"));
    assert!(text.ends_with(":00:F0"));
    assert_eq!(
        U256::zero().to_string(),
        vec!["00"; 32].join(":")
    );
    assert_eq!(U256::max_value().to_string(), vec!["FF"; 32].join(":"));
}

#[test]
fn random_identifiers_differ() {
    let a = U256::generate_random();
    let b = U256::generate_random();
    let c = U256::generate_random();
    assert!(a != b || b != c);
}

#[test]
fn both_hashes_agree_on_known_messages() {
    let abc = [
        0xba, 0x78, 0x16, 0xbf, 0x8f, 0x01, 0xcf, 0xea, 0x41, 0x41, 0x40, 0xde, 0x5d, 0xae, 0x22,
        0x23, 0xb0, 0x03, 0x61, 0xa3, 0x96, 0x17, 0x7a, 0x9c, 0xb4, 0x10, 0xff, 0x61, 0xf2, 0x00,
        0x15, 0xad,
    ];
    assert_eq!(sha256_bytes(b"abc"), U256(abc));
    assert_eq!(sha256(b"abc"), U256(abc));
    let mut buf = Vec::new();
    for i in 0..300usize {
        assert_eq!(sha256(&buf), sha256_bytes(&buf));
        buf.push((i * 7 % 251) as u8);
    }
    assert_ne!(sha256_bytes(b"abc"), sha256_bytes(b"abd"));
}

#[test]
fn calls_and_their_tags() {
    let addr = Endpoint::V4([127, 0, 0, 1], 0);
    assert_eq!(Rpc::Ping.as_byte(), 0);
    assert_eq!(Rpc::Pong.as_byte(), 1);
    assert_eq!(Rpc::Connect((U256::zero(), addr)).as_byte(), 2);
    assert_eq!(Rpc::Search(U256::from(5u8)).as_byte(), 3);
    assert!(matches!(Rpc::from_byte(&[0]), Some(Rpc::Ping)));
    assert!(matches!(Rpc::from_byte(&[1, 9, 9]), Some(Rpc::Pong)));
    match Rpc::from_byte(&[2]) {
        Some(Rpc::Connect((id, from))) => {
            assert_eq!(id, U256::zero());
            assert_eq!(from, addr);
        }
        _ => panic!("tag 2 is an announcement"),
    }
    match Rpc::from_byte(&[3]) {
        Some(Rpc::Search(id)) => assert_eq!(id, U256::zero()),
        _ => panic!("tag 3 is a search"),
    }
    assert!(Rpc::from_byte(&[4]).is_none());
    assert!(Rpc::from_byte(&[255]).is_none());
    assert_eq!(Rpc::Ping.frame_step(), FrameStep::Discard);
    assert_eq!(Rpc::Pong.frame_step(), FrameStep::Discard);
    assert_eq!(Rpc::Search(U256::zero()).frame_step(), FrameStep::Deliver);
    assert_eq!(Rpc::Connect((U256::zero(), addr)).frame_step(), FrameStep::Deliver);
}

#[test]
fn an_announcement_carries_thirty_two_bytes() {
    let from = Endpoint::V6([7; 16], 99);
    let mut payload = vec![0u8; 40];
    payload[31] = 5;
    payload[32] = 0xEE;
    match Rpc::connect_from(&payload, from) {
        Some(Rpc::Connect((id, addr))) => {
            assert_eq!(id, U256::from(5u8));
            assert_eq!(addr, from);
        }
        _ => panic!("the payload was long enough"),
    }
    assert!(Rpc::connect_from(&payload[..31], from).is_none());
    assert!(Rpc::connect_from(&[], from).is_none());
}

#[test]
fn a_builder_keeps_its_port() {
    let builder = NodeBuilder::new(4242);
    assert_eq!(builder.listenning_port(), 4242);
    assert_eq!(builder.version(), 1);
}

#[test]
fn an_identifier_derives_from_the_derived_key() {
    assert_eq!(
        derivation_params(1),
        Ok(DerivationParams { mem_kib: 262_144, time: 3, lanes: 4, tag_len: 32 })
    );
    assert_eq!(derivation_params(0), Err(IdError::VersionError));
    assert_eq!(derivation_params(2), Err(IdError::VersionError));
    assert_eq!(&SALT_V1, b"version_1");
    let tag = [3u8; 32];
    assert_eq!(generate_id(1, Some(&tag)), Ok(sha256(&tag)));
    assert_eq!(generate_id(1, None), Err(IdError::HashError));
    assert_eq!(generate_id(2, Some(&tag)), Err(IdError::VersionError));
    assert_eq!(generate_id(0, None), Err(IdError::VersionError));
}

#[test]
fn merging_into_an_array_keeps_the_lowest() {
    let mut s1 = [1u32, 4, 9, 0];
    let k = keep_lowest_array_by(&mut s1, 3, &[2, 3, 10], 3, |a, b| a.cmp(b));
    assert_eq!(k, 4);
    assert_eq!(s1, [1, 2, 3, 4]);
    let mut s1 = [5u32, 0, 0, 0];
    let k = keep_lowest_array_by(&mut s1, 1, &[7, 8], 1, |a, b| a.cmp(b));
    assert_eq!(k, 2);
    assert_eq!(s1, [5, 7, 0, 0]);
    // on a tie the item of the first sequence comes first
    let mut s1 = [(1u32, 'a'), (2, 'a'), (0, 'x')];
    let k = keep_lowest_array_by(&mut s1, 2, &[(1, 'b'), (2, 'b')], 2, |a, b| a.0.cmp(&b.0));
    assert_eq!(k, 3);
    assert_eq!(s1, [(1, 'a'), (1, 'b'), (2, 'a')]);
    let mut none: [u32; 0] = [];
    assert_eq!(keep_lowest_array_by(&mut none, 0, &[1], 1, |a, b| a.cmp(b)), 0);
    let mut s1 = [3u32, 6];
    assert_eq!(keep_lowest_array_by(&mut s1, 2, &[], 0, |a, b| a.cmp(b)), 2);
    assert_eq!(s1, [3, 6]);
}

#[test]
fn a_bounded_queue_refuses_to_overflow() {
    let mut q: SizedVecDeque<u32> = SizedVecDeque::new(2);
    assert!(q.is_empty());
    assert!(!q.is_full());
    assert_eq!(q.insert(1), Ok(()));
    assert_eq!(q.insert(2), Ok(()));
    assert!(q.is_full());
    assert_eq!(q.len(), 2);
    assert_eq!(q.insert(3), Err(SizedVecDequeError::IsFull));
    // new items enter at the front
    assert_eq!(q.get(0), Ok(&2));
    assert_eq!(q.get(1), Ok(&1));
    assert_eq!(q.get(2), Err(SizedVecDequeError::IndexOutOfRange));
    assert_eq!(q.check_bounds(1), Ok(()));
    assert_eq!(q.check_bounds(2), Err(SizedVecDequeError::IndexOutOfRange));
    *q.get_mut(1).unwrap() = 10;
    assert_eq!(q.get(1), Ok(&10));
    assert!(q.get_mut(5).is_err());
    q.iter_and_compute(|v| *v += 1);
    assert_eq!(q.get(0), Ok(&3));
    assert_eq!(q.get(1), Ok(&11));
    assert_eq!(q.remove(0), Ok(3));
    assert_eq!(q.remove(4), Err(SizedVecDequeError::IndexOutOfRange));
    assert_eq!(q.len(), 1);
    let mut empty: SizedVecDeque<u32> = SizedVecDeque::new(0);
    assert!(empty.is_full());
    assert_eq!(empty.insert(1), Err(SizedVecDequeError::IsFull));
}

#[test]
fn a_queue_selects_its_least_items() {
    let mut q: SizedVecDeque<(u32, char)> = SizedVecDeque::new(8);
    // the queue reads, front to back: (7,e) (1,d) (5,c) (1,b) (9,a)
    for item in [(9, 'a'), (1, 'b'), (5, 'c'), (1, 'd'), (7, 'e')] {
        q.insert(item).unwrap();
    }
    let (out, size) = q
        .compute_and_select_n_first_by::<3>(|v| v.0 += 10, |x, y| x.0.cmp(&y.0))
        .unwrap();
    assert_eq!(size, 3);
    assert_eq!(out, [(11, 'd'), (11, 'b'), (15, 'c')]);
    // the queue itself was left alone
    assert_eq!(q.get(0), Ok(&(7, 'e')));
    // more room than items: the rest of the array holds the front item
    let (out, size) = q
        .compute_and_select_n_first_by::<6>(|_| {}, |x, y| x.0.cmp(&y.0))
        .unwrap();
    assert_eq!(size, 5);
    assert_eq!(out, [(1, 'd'), (1, 'b'), (5, 'c'), (7, 'e'), (9, 'a'), (7, 'e')]);
    let (_, size) = q
        .compute_and_select_n_first_by::<0>(|_| {}, |x, y| x.0.cmp(&y.0))
        .unwrap();
    assert_eq!(size, 0);
    let empty: SizedVecDeque<(u32, char)> = SizedVecDeque::new(4);
    assert_eq!(
        empty.compute_and_select_n_first_by::<3>(|_| {}, |x, y| x.0.cmp(&y.0)).err(),
        Some(SizedVecDequeError::IsEmpty)
    );
    assert_eq!(q.front_item(), &(7, 'e'));
    assert_eq!(q.item(4), &(9, 'a'));
}

#[test]
fn words_are_read_most_significant_first() {
    let mut bytes = [0u8; 32];
    for (i, b) in bytes.iter_mut().enumerate() {
        *b = i as u8 + 1;
    }
    let v = U256(bytes);
    let w16: [u16; 16] = v.into();
    assert_eq!(w16[0], 0x0102);
    assert_eq!(w16[15], 0x1F20);
    let w32: [u32; 8] = v.into();
    assert_eq!(w32[0], 0x0102_0304);
    assert_eq!(w32[7], 0x1D1E_1F20);
    let w64: [u64; 4] = v.into();
    assert_eq!(w64[0], 0x0102_0304_0506_0708);
    assert_eq!(w64[3], 0x191A_1B1C_1D1E_1F20);
    let w128: [u128; 2] = v.into();
    assert_eq!(w128[0], 0x0102_0304_0506_0708_090A_0B0C_0D0E_0F10);
    assert_eq!(w128[1], 0x1112_1314_1516_1718_191A_1B1C_1D1E_1F20);
    assert_eq!(U256::from(w16), v);
    assert_eq!(U256::from(w32), v);
    assert_eq!(U256::from(w64), v);
    assert_eq!(U256::from(w128), v);
    assert_eq!(U256::from([0u64, 0, 0, 5]), U256::from(5u8));
    assert_eq!(U256::from([u128::MAX, u128::MAX]), U256::max_value());
}
