use hyperbacked::backup::{create_backup, restore_backup, BackupConfig, BackupError, BackupShare, Secret};
use hyperbacked::encoding::{
    checksum, decode_share, encode_share, from_hex, share_from_text, share_to_text, to_hex,
};

fn small_share() -> BackupShare {
    BackupShare { number: 2, required_shares: 2, num_shares: 3, fragments: vec![vec![0xaa]] }
}

#[test]
fn encoding_layout_is_exact() {
    let bytes = encode_share(&small_share());
    assert_eq!(bytes, vec![2, 2, 3, 0, 0, 0, 1, 0, 0, 0, 1, 0xaa, 179, 254]);
}

#[test]
fn fletcher_checksum_values() {
    assert_eq!(checksum(&vec![]), (0, 0));
    assert_eq!(checksum(&vec![1, 2]), (3, 4));
    assert_eq!(checksum(&vec![255, 255]), (0, 0));
}

#[test]
fn decode_inverts_encode() {
    let share = BackupShare {
        number: 7,
        required_shares: 4,
        num_shares: 9,
        fragments: vec![vec![1, 2, 3], vec![], vec![9; 300]],
    };
    assert_eq!(decode_share(&encode_share(&share)), Ok(share));
}

#[test]
fn single_byte_error_is_detected() {
    let bytes = encode_share(&small_share());
    for i in 0..bytes.len() {
        let mut bad = bytes.clone();
        bad[i] ^= 0x10;
        assert_eq!(decode_share(&bad), Err(BackupError::EncodingFailure));
    }
}

#[test]
fn truncated_or_extended_encoding_is_rejected() {
    let bytes = encode_share(&small_share());
    assert_eq!(decode_share(&bytes[..bytes.len() - 1].to_vec()), Err(BackupError::EncodingFailure));
    assert_eq!(decode_share(&vec![]), Err(BackupError::EncodingFailure));
    let mut longer = bytes.clone();
    longer.push(0);
    assert_eq!(decode_share(&longer), Err(BackupError::EncodingFailure));
}

#[test]
fn hex_text_values() {
    assert_eq!(to_hex(&vec![0x00, 0xff, 0x1a]), b"00ff1a".to_vec());
    assert_eq!(from_hex(&b"00ff1a".to_vec()), Ok(vec![0x00, 0xff, 0x1a]));
    assert_eq!(from_hex(&b"0f1".to_vec()), Err(BackupError::EncodingFailure));
    assert_eq!(from_hex(&b"0G".to_vec()), Err(BackupError::EncodingFailure));
    assert_eq!(from_hex(&b"FF".to_vec()), Err(BackupError::EncodingFailure));
}

#[test]
fn printed_shares_restore_the_secret() {
    let secrets = vec![Secret { value: b"paper".to_vec(), passphrase: b"pw".to_vec() }];
    let shares = create_backup(&secrets, BackupConfig { required_shares: 2, num_shares: 3 }).unwrap();
    let texts: Vec<Vec<u8>> = shares.iter().map(share_to_text).collect();
    let read: Vec<BackupShare> = vec![
        share_from_text(&texts[2]).unwrap(),
        share_from_text(&texts[0]).unwrap(),
    ];
    assert_eq!(read[0], shares[2]);
    assert_eq!(restore_backup(&read, b"pw").unwrap(), vec![b"paper".to_vec()]);
    let mut typo = texts[1].clone();
    typo[20] = if typo[20] == b'0' { b'1' } else { b'0' };
    assert_eq!(share_from_text(&typo), Err(BackupError::EncodingFailure));
}
