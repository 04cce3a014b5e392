use caj2pdf::convert::{decrypt_kdh, KDH_PASSPHRASE};

fn encrypt(plain: &[u8]) -> Vec<u8> {
    let mut out = plain.to_vec();
    for (i, b) in out.iter_mut().enumerate() {
        *b ^= KDH_PASSPHRASE[i % KDH_PASSPHRASE.len()];
    }
    out
}

#[test]
fn decrypt_round_trip_single_byte() {
    let key = KDH_PASSPHRASE;
    for (i, plain) in b"hello world!".iter().enumerate() {
        let encrypted = plain ^ key[i % key.len()];
        assert_eq!(encrypted ^ key[i % key.len()], *plain);
    }
}

#[test]
fn decrypt_skips_254_byte_header() {
    let target = b"%PDF-1.3\n%%EOF\n";
    let encrypted = encrypt(target);
    let mut input = vec![0u8; 254];
    input.extend_from_slice(&encrypted);
    let out = decrypt_kdh(&input);
    assert!(out.ends_with(b"%%EOF"));
    assert_eq!(out.len(), target.len() - 1);
}

#[test]
fn decrypt_truncates_after_last_eof() {
    let mut input = vec![0u8; 254];
    let payload = encrypt(b"%PDF-1.3\njunk\n%%EOF\nmore-junk-after");
    input.extend_from_slice(&payload);
    let out = decrypt_kdh(&input);
    assert!(out.ends_with(b"%%EOF"));
    assert!(out.len() < 254 + payload.len());
}

#[test]
fn decrypt_handles_truncated_input() {
    assert_eq!(decrypt_kdh(&[]), Vec::<u8>::new());
    assert_eq!(decrypt_kdh(&[0u8; 100]), Vec::<u8>::new());
    assert_eq!(decrypt_kdh(&[0u8; 254]), Vec::<u8>::new());
}

#[test]
fn decrypt_no_eof_returns_full_payload() {
    let mut input = vec![0u8; 254];
    input.extend_from_slice(b"no eof marker here at all");
    let out = decrypt_kdh(&input);
    assert_eq!(out.len(), b"no eof marker here at all".len());
}

#[test]
fn decrypt_gives_back_what_was_encrypted() {
    // Round trip: a payload encrypted with the key and put behind any
    // 254-byte header comes back as it was, up to its last %%EOF.
    let plain = b"%PDF-1.4\n1 0 obj\n<<>>\nendobj\n%%EOF";
    let mut input = vec![0xABu8; 254];
    input.extend_from_slice(&encrypt(plain));
    assert_eq!(decrypt_kdh(&input), plain.to_vec());
}

#[test]
fn decrypt_keeps_exact_bytes_up_to_last_of_two_eofs() {
    let plain = b"%PDF-1.4\n%%EOF\nupdate\n%%EOF\ntrailing";
    let mut input = vec![0u8; 254];
    input.extend_from_slice(&encrypt(plain));
    let out = decrypt_kdh(&input);
    assert_eq!(out, b"%PDF-1.4\n%%EOF\nupdate\n%%EOF".to_vec());
}

#[test]
fn decrypt_xor_keystream_restarts_after_header() {
    // The key is applied from the first byte after the header: 'F' ^ 'F' == 0.
    let mut input = vec![0u8; 254];
    input.extend_from_slice(&[b'F', b'Z', b'H', b'M', b'E', b'I', b'F']);
    assert_eq!(decrypt_kdh(&input), vec![0u8; 7]);
}
