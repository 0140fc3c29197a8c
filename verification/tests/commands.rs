use esptool::bootloader::{
    enable_flash, enable_flash_request, mac_from_efuse, read_efuse, read_efuse_request, read_reg,
    read_reg_request, read_reg_value, sync, sync_request, Exchange, Register, SYNC_REPLIES,
};
use esptool::protocol::{create_request, Error, Opcode, Packet};
use esptool::receiver::ReadEvent;
use esptool::slip::{slip_decode, slip_encode};

type Outcome = Result<Packet, Error>;

/// Feeds the bytes one after the other, and lists the answers with the number of the byte
/// that brought each.
fn feed_bytes(exchange: &mut Exchange, wire: &[u8]) -> Vec<(usize, Outcome)> {
    let mut answers = Vec::new();
    for (i, byte) in wire.iter().enumerate() {
        if let Some(outcome) = exchange.feed(ReadEvent::Byte(*byte)) {
            answers.push((i + 1, outcome));
        }
    }
    answers
}

fn frame_of(packet: &[u8]) -> Vec<u8> {
    slip_encode(Packet::from_bytes(packet.to_vec())).as_bytes().to_vec()
}

fn sync_reply(mark: u8) -> Vec<u8> {
    vec![0x01, 0x08, 0x02, 0x00, 0x07, 0x07, 0x12, mark, 0x00, 0x00]
}

#[test]
fn register_addresses() {
    assert_eq!(u32::from(Register::UartDataReg), 0x6000_0078);
    assert_eq!(u32::from(Register::EFuseRegBase), 0x6001_A000);
    let address: u32 = Register::UartDataReg.into();
    assert_eq!(address, 0x6000_0078);
}

#[test]
fn read_reg_request_body() {
    let packet = read_reg_request(Register::UartDataReg, 0);
    assert_eq!(packet.body(), &[0x78, 0x00, 0x00, 0x60][..]);
    assert_eq!(packet.command(), 0x0A);
    assert_eq!(packet.size(), 0x0004);
    assert_eq!(
        packet.as_bytes(),
        &[0x00, 0x0A, 0x04, 0x00, 0x00, 0x00, 0x00, 0x00, 0x78, 0x00, 0x00, 0x60][..]
    );
}

#[test]
fn read_reg_request_adds_the_offset() {
    let packet = read_reg_request(Register::UartDataReg, 0x0102_0308);
    assert_eq!(packet.body(), &[0x80, 0x03, 0x02, 0x61][..]);
    let packet = read_reg_request(Register::EFuseRegBase, 0x9FFE_5FFF);
    assert_eq!(packet.body(), &[0xFF, 0xFF, 0xFF, 0xFF][..]);
}

#[test]
fn read_reg_response() {
    let reply =
        Packet::from_bytes(vec![0x01, 0x0A, 0x04, 0x00, 0x78, 0x56, 0x34, 0x12, 0x00, 0x00]);
    assert_eq!(read_reg_value(&reply), Ok(0x12345678));
}

#[test]
fn read_reg_value_is_little_endian() {
    let reply = Packet::from_bytes(vec![0x01, 0x0A, 0x04, 0x00, 0xFF, 0x00, 0x00, 0x80, 0, 0, 0, 0]);
    assert_eq!(read_reg_value(&reply), Ok(0x8000_00FF));
    let reply = Packet::from_bytes(vec![0x01, 0x0A, 0x04, 0x00, 0xFF, 0xFF, 0xFF, 0xFF, 0, 0, 0, 0]);
    assert_eq!(read_reg_value(&reply), Ok(0xFFFF_FFFF));
}

#[test]
fn read_reg_value_rejects_another_size() {
    let reply = Packet::from_bytes(vec![0x01, 0x0A, 0x02, 0x00, 0x78, 0x56, 0x34, 0x12, 0x00, 0x00]);
    assert_eq!(read_reg_value(&reply), Err(Error::Length));
    let reply = Packet::from_bytes(vec![0x01, 0x0A, 0x04, 0x01, 0x78, 0x56, 0x34, 0x12]);
    assert_eq!(read_reg_value(&reply), Err(Error::Length));
    let reply = Packet::from_bytes(vec![0x01, 0x0A, 0x04, 0x00, 0x78, 0x56, 0x34]);
    assert_eq!(read_reg_value(&reply), Err(Error::Length));
}

#[test]
fn read_reg_value_reports_a_remote_failure() {
    let reply = Packet::from_bytes(vec![
        0x01, 0x0A, 0x04, 0x00, 0x00, 0x00, 0x00, 0x00, 0x00, 0x00, 0x01, 0x05,
    ]);
    assert_eq!(read_reg_value(&reply), Err(Error::Failure(0x05)));
    // The value word does not count once the command has failed.
    let reply = Packet::from_bytes(vec![
        0x01, 0x0A, 0x04, 0x00, 0x78, 0x56, 0x34, 0x12, 0x00, 0x00, 0xFF, 0x00,
    ]);
    assert_eq!(read_reg_value(&reply), Err(Error::Failure(0x00)));
}

#[test]
fn read_reg_value_reads_the_status_byte_only() {
    // The error code is not looked at where the status byte reports success.
    let reply = Packet::from_bytes(vec![
        0x01, 0x0A, 0x04, 0x00, 0x78, 0x56, 0x34, 0x12, 0x01, 0x01, 0x00, 0x05,
    ]);
    assert_eq!(read_reg_value(&reply), Ok(0x12345678));
}

#[test]
fn read_reg_value_judges_the_size_before_the_status() {
    let reply = Packet::from_bytes(vec![0x01, 0x0A, 0x02, 0x00, 0x78, 0x56, 0x34, 0x12, 0x01, 0x05]);
    assert_eq!(read_reg_value(&reply), Err(Error::Length));
}

#[test]
fn read_reg_exchange_reports_a_remote_failure() {
    let wire = [
        0xC0, 0x01, 0x0A, 0x04, 0x00, 0x00, 0x00, 0x00, 0x00, 0x00, 0x00, 0x01, 0x05, 0xC0,
    ];
    let mut exchange = read_reg(Register::UartDataReg, 0);
    let answers = feed_bytes(&mut exchange, &wire);
    assert_eq!(answers.len(), 1);
    assert_eq!(answers[0].0, wire.len());
    let reply = answers[0].1.clone().unwrap();
    assert_eq!(read_reg_value(&reply), Err(Error::Failure(0x05)));
}

#[test]
fn sync_request_body() {
    let packet = sync_request();
    let body = packet.body();
    assert_eq!(body.len(), 36);
    assert_eq!(&body[..4], &[0x07, 0x07, 0x12, 0x20][..]);
    assert_eq!(&body[4..], &[0x55; 32][..]);
    assert_eq!(&packet.as_bytes()[..8], &[0x00, 0x08, 0x24, 0x00, 0x00, 0x00, 0x00, 0x00][..]);
}

#[test]
fn read_efuse_request_reads_four_bytes_per_index() {
    assert_eq!(read_efuse_request(0).body(), &[0x00, 0xA0, 0x01, 0x60][..]);
    assert_eq!(read_efuse_request(1).body(), &[0x04, 0xA0, 0x01, 0x60][..]);
    assert_eq!(read_efuse_request(2).body(), &[0x08, 0xA0, 0x01, 0x60][..]);
    assert_eq!(read_efuse_request(2).as_bytes(), read_reg_request(Register::EFuseRegBase, 8).as_bytes());
}

#[test]
fn enable_flash_request_body() {
    let packet = enable_flash_request(0x0102_0304);
    assert_eq!(
        packet.as_bytes(),
        &[
            0x00, 0x0D, 0x08, 0x00, 0x00, 0x00, 0x00, 0x00, 0x04, 0x03, 0x02, 0x01, 0x00, 0x00,
            0x00, 0x00
        ][..]
    );
    assert_eq!(enable_flash_request(0).body(), &[0u8; 8][..]);
}

#[test]
fn mac_from_efuse_words() {
    assert_eq!(
        mac_from_efuse(0x1122_3344, 0xAABB_CCDD),
        [0xCC, 0xDD, 0x11, 0x22, 0x33, 0x44]
    );
    assert_eq!(mac_from_efuse(0, 0), [0; 6]);
    assert_eq!(mac_from_efuse(0xFFFF_FFFF, 0xFFFF_0000), [0, 0, 0xFF, 0xFF, 0xFF, 0xFF]);
}

#[test]
fn exchange_holds_the_framed_request() {
    let exchange = read_reg(Register::UartDataReg, 0);
    let frame = exchange.request().as_bytes().to_vec();
    assert_eq!(
        frame,
        vec![0xC0, 0x00, 0x0A, 0x04, 0x00, 0x00, 0x00, 0x00, 0x00, 0x78, 0x00, 0x00, 0x60, 0xC0]
    );
    assert_eq!(slip_decode(sync().request().as_bytes()), Ok(sync_request().into_bytes()));
    assert_eq!(
        slip_decode(read_efuse(1).request().as_bytes()),
        Ok(read_efuse_request(1).into_bytes())
    );
    assert_eq!(
        slip_decode(enable_flash(5).request().as_bytes()),
        Ok(enable_flash_request(5).into_bytes())
    );
}

#[test]
fn read_reg_exchange_ends_with_the_first_reply() {
    let reply = vec![0x01, 0x0A, 0x04, 0x00, 0x78, 0x56, 0x34, 0x12, 0x00, 0x00, 0x00, 0x00];
    let wire = frame_of(&reply);
    let mut exchange = read_reg(Register::UartDataReg, 0);
    let answers = feed_bytes(&mut exchange, &wire);
    assert_eq!(answers, vec![(wire.len(), Ok(Packet::from_bytes(reply.clone())))]);
    assert_eq!(read_reg_value(&Packet::from_bytes(reply)), Ok(0x12345678));
}

#[test]
fn exchange_discards_replies_to_other_commands() {
    let mut wire = frame_of(&sync_reply(0x20));
    wire.extend_from_slice(&frame_of(&sync_reply(0x21)));
    let wanted = vec![0x01, 0x0D, 0x00, 0x00, 0x00, 0x00, 0x00, 0x00];
    wire.extend_from_slice(&frame_of(&wanted));
    let mut exchange = enable_flash(0);
    let answers = feed_bytes(&mut exchange, &wire);
    assert_eq!(answers, vec![(wire.len(), Ok(Packet::from_bytes(wanted)))]);
}

#[test]
fn sync_takes_eight_replies() {
    assert_eq!(SYNC_REPLIES, 8);
    let mut wire = Vec::new();
    for mark in 0..8 {
        wire.extend_from_slice(&frame_of(&sync_reply(mark)));
    }
    let end_of_replies = wire.len();
    // What follows the eighth reply is not read.
    wire.extend_from_slice(&[0x55, 0x55]);
    let mut exchange = sync();
    let answers = feed_bytes(&mut exchange, &wire[..end_of_replies]);
    assert_eq!(answers, vec![(end_of_replies, Ok(Packet::from_bytes(sync_reply(7))))]);
}

#[test]
fn sync_waits_after_seven_replies() {
    let mut wire = Vec::new();
    for mark in 0..7 {
        wire.extend_from_slice(&frame_of(&sync_reply(mark)));
    }
    let mut exchange = sync();
    assert_eq!(feed_bytes(&mut exchange, &wire), vec![]);
    assert_eq!(exchange.feed(ReadEvent::Failed), Some(Err(Error::Device)));
}

#[test]
fn sync_tolerates_noise_before_the_replies() {
    // Banner text of the boot ROM, then the replies.
    let mut wire = b"ets Jan  8 2013,rst cause:2, boot mode:(1,6)\r\n".to_vec();
    for mark in 0..8 {
        wire.extend_from_slice(&frame_of(&sync_reply(mark)));
    }
    let mut exchange = sync();
    let answers = feed_bytes(&mut exchange, &wire);
    assert_eq!(answers, vec![(wire.len(), Ok(Packet::from_bytes(sync_reply(7))))]);
}

#[test]
fn sync_ends_at_a_frame_error_between_the_replies() {
    let mut wire = frame_of(&sync_reply(0));
    let reply = wire.len();
    wire.push(0x55);
    let mut exchange = sync();
    let answers = feed_bytes(&mut exchange, &wire);
    assert_eq!(answers, vec![(reply + 1, Err(Error::SLIPFrame))]);
    // The exchange has begun again, and waits for eight replies.
    let mut wire = Vec::new();
    for mark in 0..8 {
        wire.extend_from_slice(&frame_of(&sync_reply(mark)));
    }
    let answers = feed_bytes(&mut exchange, &wire);
    assert_eq!(answers, vec![(wire.len(), Ok(Packet::from_bytes(sync_reply(7))))]);
}

#[test]
fn sync_ends_at_a_short_frame_between_the_replies() {
    let mut wire = Vec::new();
    for mark in 0..7 {
        wire.extend_from_slice(&frame_of(&sync_reply(mark)));
    }
    wire.extend_from_slice(&frame_of(&[0x01, 0x08, 0x00]));
    let mut exchange = sync();
    let answers = feed_bytes(&mut exchange, &wire);
    assert_eq!(answers, vec![(wire.len(), Err(Error::Length))]);
}

#[test]
fn sync_passes_over_other_replies_between_its_own() {
    let mut wire = frame_of(&sync_reply(0));
    wire.extend_from_slice(&frame_of(&[0x01, 0x0A, 0x00, 0x00, 0x00, 0x00, 0x00, 0x00]));
    for mark in 1..8 {
        wire.extend_from_slice(&frame_of(&sync_reply(mark)));
    }
    let mut exchange = sync();
    let answers = feed_bytes(&mut exchange, &wire);
    assert_eq!(answers, vec![(wire.len(), Ok(Packet::from_bytes(sync_reply(7))))]);
}

#[test]
fn exchange_passes_over_a_short_frame_before_the_first_reply() {
    let mut wire = frame_of(&[0x01, 0x0A, 0x00]);
    let reply = vec![0x01, 0x0A, 0x04, 0x00, 0x78, 0x56, 0x34, 0x12, 0x00, 0x00, 0x00, 0x00];
    wire.extend_from_slice(&frame_of(&reply));
    let mut exchange = read_reg(Register::UartDataReg, 0);
    let answers = feed_bytes(&mut exchange, &wire);
    assert_eq!(answers, vec![(wire.len(), Ok(Packet::from_bytes(reply)))]);
}

#[test]
fn sync_gives_up_after_a_hundred_bad_frames() {
    let mut exchange = sync();
    let noise = [0x55u8; 100];
    let answers = feed_bytes(&mut exchange, &noise);
    assert_eq!(answers, vec![(100, Err(Error::SLIPFrame))]);
}

#[test]
fn sync_ends_with_the_error_of_a_later_wait() {
    let mut wire = Vec::new();
    for mark in 0..3 {
        wire.extend_from_slice(&frame_of(&sync_reply(mark)));
    }
    let replies = wire.len();
    let other = vec![0x01, 0x0A, 0x00, 0x00, 0x00, 0x00, 0x00, 0x00];
    for _ in 0..100 {
        wire.extend_from_slice(&frame_of(&other));
    }
    let mut exchange = sync();
    let answers = feed_bytes(&mut exchange, &wire);
    assert_eq!(answers, vec![(replies + 100 * 10, Err(Error::Command))]);
}

#[test]
fn exchange_begins_again_after_its_answer() {
    let reply = vec![0x01, 0x0D, 0x00, 0x00, 0x00, 0x00, 0x00, 0x00];
    let wire = frame_of(&reply);
    let mut exchange = enable_flash(0);
    for _ in 0..3 {
        let answers = feed_bytes(&mut exchange, &wire);
        assert_eq!(answers, vec![(wire.len(), Ok(Packet::from_bytes(reply.clone())))]);
    }
}

#[test]
fn exchange_for_any_request() {
    let request = create_request(Opcode::WriteReg, &[0x01, 0x02]);
    let mut exchange = Exchange::new(request, 2);
    let reply = vec![0x01, 0x09, 0x00, 0x00, 0x00, 0x00, 0x00, 0x00];
    let wire = frame_of(&reply);
    assert_eq!(feed_bytes(&mut exchange, &wire), vec![]);
    assert_eq!(
        feed_bytes(&mut exchange, &wire),
        vec![(wire.len(), Ok(Packet::from_bytes(reply)))]
    );
}
