use shasper::bitfield::{deserialize_bitseq, deserialize_bitvector, serialize_bitseq};
use shasper::timing::{current_timestamp, slot_now, time_until_next, timestamp_and_slot, TimeSpan, TimestampInherentDataProvider};
use shasper::uint_text::{deserialize_uint, IntErrorKind, UintError};
use shasper::validator::Validator;

fn validator() -> Validator {
    Validator {
        pubkey: [0; 48],
        withdrawal_credentials: [0; 32],
        activation_epoch: 2,
        exit_epoch: 10,
        withdrawable_epoch: 12,
        initiated_exit: false,
        slashed: false,
        high_balance: 32,
    }
}

#[test]
fn validator_life_cycle() {
    let mut v = validator();
    assert!(!v.is_active(1));
    assert!(v.is_active(2));
    assert!(v.is_active(9));
    assert!(!v.is_active(10));
    v.exit(12);
    assert_eq!(v.exit_epoch, 10);
    v.exit(6);
    assert_eq!(v.exit_epoch, 6);
    assert!(!v.is_active(6));
    v.initiate_exit();
    assert!(v.initiated_exit);
    v.activate(4, true, 0);
    assert_eq!(v.activation_epoch, 0);
    v.activate(4, false, 0);
    assert_eq!(v.activation_epoch, 4);
}

#[test]
fn time_until_next_slot() {
    let t = time_until_next(TimeSpan { secs: 12, nanos: 250_000_000 }, 5);
    assert_eq!(t, TimeSpan { secs: 2, nanos: 750_000_000 });
    let t = time_until_next(TimeSpan { secs: 15, nanos: 0 }, 5);
    assert_eq!(t, TimeSpan { secs: 5, nanos: 0 });
    let t = time_until_next(TimeSpan { secs: 19, nanos: 999_999_999 }, 5);
    assert_eq!(t, TimeSpan { secs: 0, nanos: 1 });
    assert_eq!(timestamp_and_slot(TimeSpan { secs: 61, nanos: 3 }, 6), (61, 10));
    let provider = TimestampInherentDataProvider::new(6);
    assert_eq!(provider.slot_duration, 6);
    if let Some(data) = provider.inherent_data() {
        assert_eq!(data.slot, data.timestamp / 6);
    }
}

#[test]
fn uint_text_forms() {
    assert_eq!(deserialize_uint(""), Ok(0));
    assert_eq!(deserialize_uint("0x"), Ok(0));
    assert_eq!(deserialize_uint("0x1f"), Ok(31));
    assert_eq!(deserialize_uint("0xFF"), Ok(255));
    assert_eq!(deserialize_uint("42"), Ok(42));
    assert_eq!(deserialize_uint("+7"), Ok(7));
    assert_eq!(deserialize_uint("18446744073709551615"), Ok(u64::MAX));
    assert_eq!(deserialize_uint("18446744073709551616"), Err(UintError::InvalidDecimal(IntErrorKind::PosOverflow)));
    assert_eq!(deserialize_uint("99999999999999999999z"), Err(UintError::InvalidDecimal(IntErrorKind::PosOverflow)));
    assert_eq!(deserialize_uint("12a"), Err(UintError::InvalidDecimal(IntErrorKind::InvalidDigit)));
    assert_eq!(deserialize_uint("+"), Err(UintError::InvalidDecimal(IntErrorKind::InvalidDigit)));
    assert_eq!(deserialize_uint("-1"), Err(UintError::InvalidDecimal(IntErrorKind::InvalidDigit)));
    assert_eq!(deserialize_uint("0xzz"), Err(UintError::InvalidHex(IntErrorKind::InvalidDigit)));
    assert_eq!(deserialize_uint("0x+"), Err(UintError::InvalidHex(IntErrorKind::InvalidDigit)));
    assert_eq!(deserialize_uint("0x10000000000000000"), Err(UintError::InvalidHex(IntErrorKind::PosOverflow)));
}

#[test]
fn uint_text_agrees_with_std() {
    for s in ["0", "1", "+12", "007", "184467440737095516", "x1", "1 2", "٣"] {
        let expected = u64::from_str_radix(s, 10).ok();
        assert_eq!(deserialize_uint(s).ok(), expected, "{}", s);
    }
}

#[test]
fn bitlists_round_trip() {
    let bits = vec![true, false, true, true, false, false, false, false, true];
    let bytes = serialize_bitseq(&bits, true);
    assert_eq!(bytes, vec![0b0000_1101, 0b0000_0011]);
    assert_eq!(deserialize_bitseq(&bytes, true), bits);
    let empty: Vec<bool> = Vec::new();
    let bytes = serialize_bitseq(&empty, true);
    assert_eq!(bytes, vec![1]);
    assert_eq!(deserialize_bitseq(&bytes, true), empty);
}

#[test]
fn bitvectors_pad_to_their_length() {
    let bits = vec![true, false, true];
    let bytes = serialize_bitseq(&bits, false);
    assert_eq!(bytes, vec![0b101]);
    assert_eq!(deserialize_bitvector(&bytes, 8), Some(vec![true, false, true, false, false, false, false, false]));
    assert_eq!(deserialize_bitvector(&bytes, 2), None);
}

#[test]
fn clock_reads_after_the_epoch() {
    let now = current_timestamp().unwrap();
    assert!(now > 1_500_000_000);
    let slot = slot_now(6).unwrap();
    assert!(slot >= now / 6);
}

#[test]
fn uint_text_reads_back_its_decimal_and_hex() {
    for x in [0u64, 7, 10, 255, 4096, 123456789, u64::MAX] {
        assert_eq!(deserialize_uint(&x.to_string()), Ok(x));
        assert_eq!(deserialize_uint(&format!("0x{:x}", x)), Ok(x));
    }
}
