use pico_10base_t_rs::crc::{crc32_ieee802_3, crc32_ieee802_3_padded};

#[test]
fn crc_check_value() {
    assert_eq!(crc32_ieee802_3(b"123456789"), 0xCBF4_3926);
}

#[test]
fn crc_of_nothing_is_zero() {
    assert_eq!(crc32_ieee802_3(&[]), 0);
}

#[test]
fn padding_is_zero_bytes() {
    let mut data = b"frame".to_vec();
    let padded = crc32_ieee802_3_padded(&data, 7);
    data.extend_from_slice(&[0; 7]);
    assert_eq!(padded, crc32_ieee802_3(&data));
    assert_ne!(padded, crc32_ieee802_3(b"frame"));
}

#[test]
fn bursts_are_caught() {
    let sent: Vec<u8> = (0..64u8).map(|i| i.wrapping_mul(37)).collect();
    let good = crc32_ieee802_3(&sent);
    for at in 0..8 * sent.len() {
        for burst in [1u32, 0x8000_0000, 0x8000_0001, 0xFFFF_FFFF, 0xEDB8_8320, 0x04C1_1DB7] {
            let mut got = sent.clone();
            for k in 0..32 {
                let i = at + k;
                if i < 8 * got.len() && (burst >> k) & 1 == 1 {
                    got[i / 8] ^= 1 << (i % 8);
                }
            }
            if got != sent {
                assert_ne!(crc32_ieee802_3(&got), good);
            }
        }
    }
}

#[test]
fn a_burst_of_33_bits_can_pass() {
    // The generator itself, highest power first: x^32 down to x^0.
    let mut got = vec![0u8; 8];
    for (i, k) in (0..=32).rev().enumerate() {
        if (0x1_04C1_1DB7u64 >> k) & 1 == 1 {
            got[i / 8] ^= 1 << (i % 8);
        }
    }
    assert_eq!(crc32_ieee802_3(&got), crc32_ieee802_3(&[0u8; 8]));
}
