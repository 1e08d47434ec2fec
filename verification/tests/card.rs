use ps_memory_reader::codes::{Anomaly, Res, Step};
use ps_memory_reader::io::{Io, ReadError, ReadyPolicy};
use ps_memory_reader::memory_card::{
    MemoryCard, BLOCK_BYTES, BLOCK_EVENTS, BLOCK_SECTORS, CARD_BLOCKS, CARD_BYTES, SECTOR_EVENTS,
};
use ps_memory_reader::transport::{Fault, ScriptedLink};

fn payload(address: u16) -> Vec<u8> {
    (0..128u16).map(|i| ((address.wrapping_mul(31) ^ i.wrapping_mul(5)) & 0xFF) as u8).collect()
}

fn sector_script(address: u16, script: &mut Vec<Result<u8, Fault>>) {
    let mut bytes = vec![0xFFu8, 0x00, 0x5A, 0x5D, 0x00, 0x00, 0x5C, 0x5D];
    bytes.push((address >> 8) as u8);
    bytes.push((address & 0xFF) as u8);
    bytes.extend(payload(address));
    bytes.push(0x00);
    bytes.push(0x47);
    script.extend(bytes.into_iter().map(|b| Ok(b.reverse_bits())));
}

fn card_over(addresses: std::ops::Range<u16>) -> MemoryCard<ScriptedLink> {
    let mut script = Vec::new();
    for address in addresses {
        sector_script(address, &mut script);
    }
    let io = Io::new(ScriptedLink::new(script, Ok(true)), ReadyPolicy::Lenient);
    MemoryCard::new(io).unwrap()
}

#[test]
fn geometry_constants() {
    assert_eq!(BLOCK_SECTORS, 64);
    assert_eq!(BLOCK_BYTES, 8192);
    assert_eq!(SECTOR_EVENTS, 420);
    assert_eq!(CARD_BLOCKS, 16);
    assert_eq!(BLOCK_EVENTS, 64 * 420);
    assert_eq!(CARD_BYTES, 16 * 8192);
}

#[test]
fn a_new_card_declares_nothing() {
    let card = card_over(0..0);
    assert_eq!(card.blocks, 0);
    assert_eq!(card.size, 0);
}

#[test]
fn read_block_is_the_concatenation_of_its_sectors() {
    for block in [0u8, 3, 15] {
        let first = block as u16 * 64;
        let mut card = card_over(first..first + 64);
        let block_report = card.read_block(block).unwrap();
        let data = block_report.data;
        assert_eq!(data.len(), 8192);
        assert!(block_report.anomalies.is_empty());

        let mut sectors = card_over(first..first + 64);
        let mut expected = Vec::new();
        for offset in 0..64u16 {
            let report = sectors.io.read_sector(first + offset).unwrap();
            assert_eq!(report.data, payload(first + offset));
            expected.extend(report.data);
        }
        assert_eq!(data, expected);
        assert_eq!(card.io.link.sent(), sectors.io.link.sent());
    }
}

#[test]
fn read_block_asks_for_its_sectors_in_ascending_order() {
    let mut card = card_over(128..192);
    card.read_block(2).unwrap();
    let sent = card.io.link.sent();
    assert_eq!(sent.len(), 64 * 140);
    for offset in 0..64usize {
        let address = 128 + offset as u16;
        assert_eq!(sent[offset * 140], 0x81);
        assert_eq!(sent[offset * 140 + 1], 0x4A);
        assert_eq!(sent[offset * 140 + 4], ((address >> 8) as u8).reverse_bits());
        assert_eq!(sent[offset * 140 + 5], ((address & 0xFF) as u8).reverse_bits());
    }
}

#[test]
fn read_block_returns_nothing_when_a_sector_fails() {
    let mut script = Vec::new();
    for address in 0..64u16 {
        sector_script(address, &mut script);
    }
    script[10 * 140 + 37] = Err(Fault::Exchange);
    let io = Io::new(ScriptedLink::new(script, Ok(true)), ReadyPolicy::Lenient);
    let mut card = MemoryCard::new(io).unwrap();
    assert_eq!(card.read_block(0).err(), Some(ReadError::Transport(Fault::Exchange)));
    assert_eq!(card.io.link.sent().len(), 10 * 140 + 38);
}

#[test]
fn read_block_of_the_highest_index_does_not_overflow() {
    let first = 255u16 * 64;
    let mut card = card_over(first..first + 64);
    let data = card.read_block(255).unwrap().data;
    assert_eq!(&data[..128], &payload(first)[..]);
    assert_eq!(&data[8064..], &payload(first + 63)[..]);
}

#[test]
fn full_dump_is_the_card_image() {
    let mut card = card_over(0..1024);
    let mut image = Vec::new();
    for block in 0..CARD_BLOCKS {
        image.extend(card.read_block(block).unwrap().data);
    }
    assert_eq!(image.len(), 131072);
    let mut expected = Vec::new();
    for address in 0..1024u16 {
        expected.extend(payload(address));
    }
    assert_eq!(image, expected);
    assert_eq!(card.io.link.remaining(), 0);
}

#[test]
fn read_block_collects_anomalies_in_the_order_received() {
    let mut script = Vec::new();
    for address in 64..128u16 {
        sector_script(address, &mut script);
    }
    script[5 * 140 + 139] = Ok(0x4Eu8.reverse_bits());
    script[2 * 140 + 6] = Ok(0x00);
    script[2 * 140 + 2] = Ok(0x47u8.reverse_bits());
    let io = Io::new(ScriptedLink::new(script, Ok(true)), ReadyPolicy::Lenient);
    let mut card = MemoryCard::new(io).unwrap();
    let report = card.read_block(1).unwrap();
    assert_eq!(
        report.anomalies,
        vec![
            Anomaly { step: Step::CardId1, received: Res::Good },
            Anomaly { step: Step::Ack1, received: Res::Unknown },
            Anomaly { step: Step::End, received: Res::BadChecksum },
        ]
    );
    let mut expected = Vec::new();
    for address in 64..128u16 {
        expected.extend(payload(address));
    }
    assert_eq!(report.data, expected);
}

#[test]
fn read_card_is_the_concatenation_of_its_blocks() {
    let mut card = card_over(0..1024);
    let image = card.read_card().unwrap();
    assert_eq!(image.data.len(), 131072);
    assert!(image.anomalies.is_empty());

    let mut blocks = card_over(0..1024);
    let mut expected = Vec::new();
    for block in 0..16u8 {
        expected.extend(blocks.read_block(block).unwrap().data);
    }
    assert_eq!(image.data, expected);
    assert_eq!(&image.data[130944..], &payload(1023)[..]);
    assert_eq!(card.io.link.sent().len(), 1024 * 140);
    assert_eq!(card.io.link.waits(), 1024 * 280);
}

#[test]
fn read_card_returns_nothing_when_a_block_fails() {
    let mut script = Vec::new();
    for address in 0..1024u16 {
        sector_script(address, &mut script);
    }
    script.truncate(700 * 140 + 12);
    let io = Io::new(ScriptedLink::new(script, Ok(true)), ReadyPolicy::Lenient);
    let mut card = MemoryCard::new(io).unwrap();
    assert_eq!(card.read_card().err(), Some(ReadError::Transport(Fault::Exchange)));
    assert_eq!(card.io.link.sent().len(), 700 * 140 + 13);
}

#[test]
fn read_card_collects_anomalies_across_blocks() {
    let mut script = Vec::new();
    for address in 0..1024u16 {
        sector_script(address, &mut script);
    }
    script[900 * 140 + 7] = Ok(0x5Cu8.reverse_bits());
    script[3 * 140 + 3] = Ok(0xFF);
    let io = Io::new(ScriptedLink::new(script, Ok(true)), ReadyPolicy::Lenient);
    let mut card = MemoryCard::new(io).unwrap();
    let image = card.read_card().unwrap();
    assert_eq!(
        image.anomalies,
        vec![
            Anomaly { step: Step::CardId2, received: Res::BadSector },
            Anomaly { step: Step::Ack2, received: Res::Ack1 },
        ]
    );
    assert_eq!(image.data.len(), 131072);
}
