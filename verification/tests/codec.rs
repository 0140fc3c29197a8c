use esptool::protocol::{Error, Packet};
use esptool::slip::{slip_decode, slip_encode, SLIP_END, SLIP_ESC, SLIP_ESC_END, SLIP_ESC_ESC};

fn encode(bytes: &[u8]) -> Vec<u8> {
    slip_encode(Packet::from_bytes(bytes.to_vec())).as_bytes().to_vec()
}

#[test]
fn encode_escapes_delimiter_and_escape_bytes() {
    let packet = Packet::from_bytes(vec![0x01, 0x02, 0xC0, 0x04, 0x05, 0xDB, 0x07]);
    let frame = slip_encode(packet);
    assert_eq!(
        frame.as_bytes(),
        &[0xC0, 0x01, 0x02, 0xDB, 0xDC, 0x04, 0x05, 0xDB, 0xDD, 0x07, 0xC0][..]
    );
}

#[test]
fn decode_rejects_invalid_escape() {
    assert_eq!(slip_decode(&[0xC0, 0x01, 0xDB, 0x0E, 0xC0]), Err(Error::SLIPFrame));
}

#[test]
fn framing_constants() {
    assert_eq!(SLIP_END, 0xC0);
    assert_eq!(SLIP_ESC, 0xDB);
    assert_eq!(SLIP_ESC_END, 0xDC);
    assert_eq!(SLIP_ESC_ESC, 0xDD);
}

#[test]
fn encode_of_nothing_is_two_delimiters() {
    assert_eq!(encode(&[]), vec![0xC0, 0xC0]);
    assert_eq!(slip_decode(&[0xC0, 0xC0]), Ok(vec![]));
}

#[test]
fn encode_leaves_escape_codes_alone() {
    // The two codes stand for themselves where no escape introducer goes before them.
    assert_eq!(encode(&[0xDC, 0xDD]), vec![0xC0, 0xDC, 0xDD, 0xC0]);
    assert_eq!(slip_decode(&[0xC0, 0xDC, 0xDD, 0xC0]), Ok(vec![0xDC, 0xDD]));
}

#[test]
fn decode_undoes_encode() {
    let samples: Vec<Vec<u8>> = vec![
        vec![],
        vec![0x00],
        vec![0xC0],
        vec![0xDB],
        vec![0xC0, 0xC0, 0xDB, 0xDB],
        vec![0xDB, 0xDC],
        vec![0xDB, 0xDD, 0xC0, 0xDC],
        vec![0x01, 0x02, 0xC0, 0x04, 0x05, 0xDB, 0x07],
        (0u8..=255).collect(),
    ];
    for sample in samples {
        assert_eq!(slip_decode(&encode(&sample)), Ok(sample));
    }
}

#[test]
fn encode_never_leaves_a_bare_delimiter_or_escape() {
    let all: Vec<u8> = (0u8..=255).chain((0u8..=255).rev()).collect();
    let wire = encode(&all);
    assert_eq!(wire[0], 0xC0);
    assert_eq!(wire[wire.len() - 1], 0xC0);
    let inner = &wire[1..wire.len() - 1];
    for (i, byte) in inner.iter().enumerate() {
        assert_ne!(*byte, 0xC0);
        if *byte == 0xDB {
            assert!(inner[i + 1] == 0xDC || inner[i + 1] == 0xDD);
        }
    }
    // Two bytes were written for each of the four bytes that need an escape.
    assert_eq!(wire.len(), 2 + 512 + 4);
}

#[test]
fn decode_demands_both_delimiters() {
    assert_eq!(slip_decode(&[]), Err(Error::SLIPFrame));
    assert_eq!(slip_decode(&[0xC0]), Err(Error::SLIPFrame));
    assert_eq!(slip_decode(&[0x01, 0x02, 0xC0]), Err(Error::SLIPFrame));
    assert_eq!(slip_decode(&[0xC0, 0x01, 0x02]), Err(Error::SLIPFrame));
    assert_eq!(slip_decode(&[0xC0, 0x01, 0x02, 0xC0]), Ok(vec![0x01, 0x02]));
}

#[test]
fn decode_rejects_a_delimiter_inside() {
    assert_eq!(slip_decode(&[0xC0, 0x01, 0xC0, 0x02, 0xC0]), Err(Error::SLIPFrame));
}

#[test]
fn decode_rejects_an_escape_without_its_code() {
    // The escape introducer is the last byte before the closing delimiter.
    assert_eq!(slip_decode(&[0xC0, 0x01, 0xDB, 0xC0]), Err(Error::SLIPFrame));
    assert_eq!(slip_decode(&[0xC0, 0xDB, 0xDB, 0xC0]), Err(Error::SLIPFrame));
}

#[test]
fn decode_reads_both_escapes() {
    assert_eq!(slip_decode(&[0xC0, 0xDB, 0xDC, 0xDB, 0xDD, 0xC0]), Ok(vec![0xC0, 0xDB]));
}
