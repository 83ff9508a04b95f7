use wallet_policy::amount_fmt::{amount_btc_string, amount_groups, split_digits};
use wallet_policy::editor::{EditSequenceModal, EditThresholdModal, SequenceModal};
use wallet_policy::num::{parse_u64_dec, u64_to_dec_string};
use wallet_policy::path::PathSequence;

#[test]
fn decimal_printing_and_parsing() {
    assert_eq!(u64_to_dec_string(0), "0");
    assert_eq!(u64_to_dec_string(907), "907");
    assert_eq!(u64_to_dec_string(u64::MAX), "18446744073709551615");
    assert_eq!(parse_u64_dec("0"), Some(0));
    assert_eq!(parse_u64_dec("907"), Some(907));
    assert_eq!(parse_u64_dec("18446744073709551615"), Some(u64::MAX));
    // Overflow, blanks, signs and stray characters are all refused.
    assert_eq!(parse_u64_dec("18446744073709551616"), None);
    assert_eq!(parse_u64_dec(""), None);
    assert_eq!(parse_u64_dec("+5"), None);
    assert_eq!(parse_u64_dec("5 "), None);
    assert_eq!(parse_u64_dec("1e3"), None);
}

#[test]
fn amounts_print_with_eight_decimals() {
    assert_eq!(amount_btc_string(0), "0.00000000");
    assert_eq!(amount_btc_string(1_000), "0.00001000");
    assert_eq!(amount_btc_string(123_456_789), "1.23456789");
    assert_eq!(amount_btc_string(2_100_000_000_000_000), "21000000.00000000");
}

#[test]
fn amount_groups_split_the_tail() {
    let (head, mid, tail) = amount_groups(123_456_789);
    assert_eq!(head, "1.23");
    assert_eq!(mid, "456");
    assert_eq!(tail, "789");
}

#[test]
fn split_digits_dims_leading_zeros() {
    assert_eq!(split_digits("0.00123456"), ("0.00".to_string(), "123456".to_string()));
    assert_eq!(split_digits("0.01"), ("0.0".to_string(), "1".to_string()));
    assert_eq!(split_digits("0.5"), ("0.".to_string(), "5".to_string()));
    assert_eq!(split_digits("0001"), ("000".to_string(), "1".to_string()));
    assert_eq!(split_digits("007"), ("00".to_string(), "7".to_string()));
    assert_eq!(split_digits("05"), ("0".to_string(), "5".to_string()));
    assert_eq!(split_digits("123"), ("".to_string(), "123".to_string()));
    assert_eq!(split_digits("0.00"), ("0.00".to_string(), "".to_string()));
}

#[test]
fn sequence_modal_validates_entries() {
    let mut modal = EditSequenceModal::new(1, PathSequence::Recovery(1000));
    assert_eq!(modal.sequence.value, "1000");
    assert!(modal.sequence.valid);
    // Confirming the opening value hands it back.
    assert_eq!(modal.update(SequenceModal::ConfirmSequence), Some((1, 1000)));

    // Zero is not a usable time-lock.
    assert!(modal.update(SequenceModal::SequenceEdited("0".to_string())).is_none());
    assert!(!modal.sequence.valid);
    assert_eq!(modal.update(SequenceModal::ConfirmSequence), None);

    // Out-of-range and non-numeric entries are refused.
    modal.update(SequenceModal::SequenceEdited("65536".to_string()));
    assert!(!modal.sequence.valid);
    modal.update(SequenceModal::SequenceEdited("a year".to_string()));
    assert!(!modal.sequence.valid);

    // A usable entry goes through.
    modal.update(SequenceModal::SequenceEdited("144".to_string()));
    assert!(modal.sequence.valid);
    assert_eq!(modal.update(SequenceModal::ConfirmSequence), Some((1, 144)));
}

#[test]
fn threshold_modal_caps_at_slot_count() {
    let mut modal = EditThresholdModal::new(2, (1, 3));
    modal.threshold_edited(3);
    assert_eq!(modal.confirm(), (2, 3));
    // A threshold above the slot count is ignored.
    modal.threshold_edited(4);
    assert_eq!(modal.confirm(), (2, 3));
    modal.threshold_edited(2);
    assert_eq!(modal.confirm(), (2, 2));
}
