use idx_core::state::{decode, encode, DecodeError};

fn be(n: u64) -> Vec<u8> {
    n.to_be_bytes().to_vec()
}

#[test]
fn current_layout_round_trips() {
    // free ids 2..=5 and 9, as two runs
    let bytes = encode(7, 3, 10, &vec![2, 5, 9, 9]);
    assert_eq!(bytes[0], 3);
    assert_eq!(bytes.len(), 1 + 8 * 4 + 8 * 4);
    assert_eq!(decode(&bytes), Ok((7, 3, 10, vec![2, 5, 9, 9])));
}

#[test]
fn older_layouts_read_with_generation_zero() {
    let mut skip = vec![2u8];
    skip.extend(be(9));
    skip.push(1);
    skip.extend(be(4));
    skip.extend(be(2));
    skip.extend(be(3));
    skip.extend(be(3));
    assert_eq!(decode(&skip), Ok((9, 0, 4, vec![3, 3])));

    let mut oldest = vec![1u8];
    oldest.extend(be(5));
    oldest.extend(be(2));
    oldest.extend(be(0));
    assert_eq!(decode(&oldest), Ok((5, 0, 2, vec![])));
}

#[test]
fn malformed_records_report_the_current_layout_error() {
    assert_eq!(decode(&[]), Err(DecodeError::Empty));
    assert_eq!(decode(&[4, 0, 0]), Err(DecodeError::UnknownLayout(4)));
    assert_eq!(decode(&[3, 0, 0]), Err(DecodeError::Truncated));
    let mut bytes = encode(7, 3, 10, &vec![2, 5]);
    bytes.pop();
    assert_eq!(decode(&bytes), Err(DecodeError::BadRuns));
    let mut odd = vec![3u8];
    odd.extend(be(7));
    odd.extend(be(0));
    odd.extend(be(10));
    odd.extend(be(1));
    odd.extend(be(4));
    assert_eq!(decode(&odd), Err(DecodeError::BadRuns));
    let mut too_big_order = vec![3u8];
    too_big_order.extend(be(1 << 40));
    too_big_order.extend(be(0));
    too_big_order.extend(be(0));
    too_big_order.extend(be(0));
    assert_eq!(decode(&too_big_order), Err(DecodeError::OrderTooLarge));
    // an older layout that fails still reports why the current one refused it
    let mut old_bad = vec![1u8];
    old_bad.extend(be(1 << 40));
    old_bad.extend(be(0));
    old_bad.extend(be(0));
    assert_eq!(decode(&old_bad), Err(DecodeError::UnknownLayout(1)));
}
