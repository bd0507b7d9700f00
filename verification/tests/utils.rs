use gba_compression::utils::{consecutive_count, non_consecutive_count, same_count};

#[test]
fn test_consecutive_count() {
    assert_eq!(consecutive_count(&vec![], 9), 0);
    assert_eq!(consecutive_count(&vec![0x00], 9), 1);
    assert_eq!(consecutive_count(&vec![0x00, 0x00, 0x00, 0x00], 9), 4);
    assert_eq!(consecutive_count(&vec![0x00, 0x00, 0x00, 0x00, 0x01], 9), 4);
    assert_eq!(consecutive_count(&vec![0x00, 0x00, 0x00, 0x00], 3), 3);
    assert_eq!(consecutive_count(&vec![0x00, 0x00], 3), 2);
    assert_eq!(consecutive_count(&vec![0x00, 0x00, 0x01], 3), 2);
}

#[test]
fn test_non_consecutive_count() {
    assert_eq!(non_consecutive_count(&vec![], 9, 2), 0);
    assert_eq!(non_consecutive_count(&vec![0x00, 0x01, 0x02, 0x03, 0x04, 0x05], 9, 2), 6);
    assert_eq!(non_consecutive_count(&vec![0x00, 0x00, 0x01, 0x01, 0x02, 0x02], 9, 3), 6);
    assert_eq!(non_consecutive_count(&vec![0x00, 0x00, 0x01, 0x01, 0x02, 0x02], 3, 3), 3);
    assert_eq!(non_consecutive_count(&vec![0x00, 0x00, 0x00, 0x01, 0x01, 0x01], 9, 3), 0);
}

#[test]
fn test_same_count() {
    assert_eq!(same_count(&vec![], &vec![], 6), 0);
    assert_eq!(same_count(&vec![0x00, 0x01], &vec![], 6), 0);
    assert_eq!(same_count(&vec![], &vec![0x00, 0x01], 6), 0);
    assert_eq!(same_count(&vec![0x00, 0x01], &vec![0x00, 0x01], 6), 2);
    assert_eq!(same_count(&vec![0x00, 0x01], &vec![0x02, 0x03], 6), 0);
    assert_eq!(same_count(&vec![0x00, 0x01, 0x02], &vec![0x00, 0x01, 0x03], 6), 2);
    assert_eq!(same_count(&vec![0x00, 0x01, 0x02], &vec![0x00, 0x01, 0x02], 2), 2);
    assert_eq!(same_count(&vec![0x00, 0x01, 0x02], &vec![0x00, 0x01, 0x02], 4), 3);
}
