//! Blocks and the card image: 64 consecutive sectors read as one block of
//! 8192 bytes, and the 16 blocks of a standard card read as one image.
use vstd::prelude::*;
use crate::codes::Anomaly;
use crate::io::{
    anomalies_of, extends, lemma_extends_further, lemma_extends_itself, lemma_sector_kept, payload_of, sector_clean, sector_failed,
    sector_replies, Io, ReadError, ReadyPolicy,
};
use crate::transport::{Event, Transport};

verus! {

/// The number of sectors in a block.
pub const BLOCK_SECTORS: usize = 64;

/// The number of bytes in a block.
pub const BLOCK_BYTES: usize = 8192;

/// The number of log records that one complete sector read leaves.
pub const SECTOR_EVENTS: usize = 420;

/// The number of blocks on a standard card.
pub const CARD_BLOCKS: u8 = 16;

/// The number of log records that one complete block read leaves.
pub const BLOCK_EVENTS: usize = 26880;

/// The number of bytes on a standard card.
pub const CARD_BYTES: usize = 131072;

/// The number of the sector at `offset` in block `block`.
pub open spec fn sector_address(block: u8, offset: int) -> u16 {
    (block * 64 + offset) as u16
}

/// Sector `offset` of a read of block `block` that starts at position `base`
/// of the log was read completely.
pub open spec fn block_sector_clean(
    policy: ReadyPolicy,
    log: Seq<Event>,
    base: int,
    block: u8,
    offset: int,
) -> bool {
    sector_clean(policy, log, base + 420 * offset, sector_address(block, offset))
}

/// From position `base` on the log holds a complete read of block `block`:
/// its 64 sectors in ascending order, one directly after the other.
pub open spec fn block_clean(policy: ReadyPolicy, log: Seq<Event>, base: int, block: u8) -> bool {
    forall|offset: int|
        0 <= offset < BLOCK_SECTORS ==> #[trigger] block_sector_clean(
            policy,
            log,
            base,
            block,
            offset,
        )
}

/// The payload received in the sector read that starts at position `base`.
pub open spec fn sector_payload(log: Seq<Event>, base: int) -> Seq<u8> {
    payload_of(sector_replies(log, base))
}

/// The payload of sector `offset` of the block read that starts at position `base`.
pub open spec fn block_sector_payload(log: Seq<Event>, base: int, offset: int) -> Seq<u8> {
    sector_payload(log, base + 420 * offset)
}

/// The payload received in the block read that starts at position `base`:
/// byte `n` is byte `n % 128` of the payload of sector `n / 128`.
pub open spec fn block_payload(log: Seq<Event>, base: int) -> Seq<u8> {
    Seq::new(BLOCK_BYTES as nat, |n: int| block_sector_payload(log, base, n / 128)[n % 128])
}

/// The anomalies of the first `sectors` sector reads of the block read that
/// starts at position `base`, in the order received.
pub open spec fn block_anomalies(log: Seq<Event>, base: int, sectors: nat) -> Seq<Anomaly>
    decreases sectors,
{
    if sectors == 0 {
        Seq::<Anomaly>::empty()
    } else {
        block_anomalies(log, base, (sectors - 1) as nat) + anomalies_of(
            sector_replies(log, base + 420 * (sectors - 1)),
        )
    }
}

/// The log ends in a read of block `block` that started at position `base`
/// and was given up with `err`: some sectors were read completely, the read
/// of the next one failed, and nothing was done after it.
pub open spec fn block_failed(
    policy: ReadyPolicy,
    log: Seq<Event>,
    base: int,
    block: u8,
    err: ReadError,
) -> bool {
    let s = (log.len() - base - 1) / 420;
    &&& base < log.len()
    &&& 0 <= s < BLOCK_SECTORS
    &&& forall|offset: int|
        0 <= offset < s ==> #[trigger] block_sector_clean(policy, log, base, block, offset)
    &&& sector_failed(policy, log, base + 420 * s, sector_address(block, s), err)
}

/// A complete block read is 64 complete sector reads, of the sectors
/// `64 * block` to `64 * block + 63` in this order, and its payload is their
/// payloads one after the other: sector `offset` was read from position
/// `base + 420 * offset` of the log on, and the 128 bytes from `128 * offset`
/// on are the payload of that read.
pub proof fn lemma_block_is_its_sectors(
    policy: ReadyPolicy,
    log: Seq<Event>,
    base: int,
    block: u8,
    offset: int,
)
    requires
        block_clean(policy, log, base, block),
        0 <= offset < BLOCK_SECTORS,
    ensures
        sector_clean(policy, log, base + SECTOR_EVENTS * offset, (64 * block + offset) as u16),
        block_payload(log, base).subrange(128 * offset, 128 * offset + 128) == payload_of(
            sector_replies(log, base + SECTOR_EVENTS * offset),
        ),
{
    assert(block_sector_clean(policy, log, base, block, offset));
    let part = block_payload(log, base).subrange(128 * offset, 128 * offset + 128);
    let whole = sector_payload(log, base + 420 * offset);
    assert forall|j: int| 0 <= j < 128 implies part[j] == whole[j] by {
        let n = 128 * offset + j;
        assert(n / 128 == offset);
        assert(n % 128 == j);
    }
    assert(part =~= whole);
}

/// The anomalies of sectors that were read completely stay the same when the log grows.
pub proof fn lemma_anomalies_kept(
    policy: ReadyPolicy,
    earlier: Seq<Event>,
    later: Seq<Event>,
    base: int,
    block: u8,
    sectors: nat,
)
    requires
        extends(later, earlier),
        forall|offset: int|
            0 <= offset < sectors ==> #[trigger] block_sector_clean(
                policy,
                earlier,
                base,
                block,
                offset,
            ),
    ensures
        block_anomalies(later, base, sectors) == block_anomalies(earlier, base, sectors),
    decreases sectors,
{
    if sectors > 0 {
        lemma_anomalies_kept(policy, earlier, later, base, block, (sectors - 1) as nat);
        assert(block_sector_clean(policy, earlier, base, block, sectors - 1));
        lemma_sector_kept(
            policy,
            earlier,
            later,
            base + 420 * (sectors - 1),
            sector_address(block, sectors - 1),
        );
    }
}

/// Sectors that were read completely stay so when the log grows.
pub proof fn lemma_block_sectors_kept(
    policy: ReadyPolicy,
    earlier: Seq<Event>,
    later: Seq<Event>,
    base: int,
    block: u8,
    sectors: int,
)
    requires
        extends(later, earlier),
        forall|offset: int|
            0 <= offset < sectors ==> #[trigger] block_sector_clean(
                policy,
                earlier,
                base,
                block,
                offset,
            ),
    ensures
        forall|offset: int|
            0 <= offset < sectors ==> #[trigger] block_sector_clean(
                policy,
                later,
                base,
                block,
                offset,
            ),
        forall|offset: int|
            0 <= offset < sectors ==> #[trigger] block_sector_payload(later, base, offset)
                == block_sector_payload(earlier, base, offset),
{
    assert forall|offset: int| 0 <= offset < sectors implies #[trigger] block_sector_clean(
        policy,
        later,
        base,
        block,
        offset,
    ) by {
        assert(block_sector_clean(policy, earlier, base, block, offset));
        lemma_sector_kept(
            policy,
            earlier,
            later,
            base + 420 * offset,
            sector_address(block, offset),
        );
    }
    assert forall|offset: int| 0 <= offset < sectors implies #[trigger] block_sector_payload(
        later,
        base,
        offset,
    ) == block_sector_payload(earlier, base, offset) by {
        assert(block_sector_clean(policy, earlier, base, block, offset));
        lemma_sector_kept(
            policy,
            earlier,
            later,
            base + 420 * offset,
            sector_address(block, offset),
        );
    }
}

/// `data` holds the payloads of the first `sectors` sectors of the block
/// read that starts at position `base`.
pub open spec fn holds_payloads(data: Seq<u8>, log: Seq<Event>, base: int, sectors: int) -> bool {
    &&& data.len() == 128 * sectors
    &&& forall|n: int|
        0 <= n < 128 * sectors ==> #[trigger] data[n] == block_sector_payload(
            log,
            base,
            n / 128,
        )[n % 128]
}

/// Appending the payload of the next sector to the payloads of the sectors
/// before it gives the payloads up to and including that sector.
pub proof fn lemma_payload_grows(
    before: Seq<u8>,
    after: Seq<u8>,
    earlier: Seq<Event>,
    later: Seq<Event>,
    base: int,
    sectors: int,
)
    requires
        0 <= sectors,
        holds_payloads(before, earlier, base, sectors),
        forall|offset: int|
            0 <= offset < sectors ==> #[trigger] block_sector_payload(later, base, offset)
                == block_sector_payload(earlier, base, offset),
        after == before + block_sector_payload(later, base, sectors),
    ensures
        holds_payloads(after, later, base, sectors + 1),
{
    assert(block_sector_payload(later, base, sectors).len() == 128);
    assert forall|n: int| 0 <= n < 128 * (sectors + 1) implies #[trigger] after[n]
        == block_sector_payload(later, base, n / 128)[n % 128] by {
        let t = n / 128;
        if n < 128 * sectors {
            assert(after[n] == before[n]);
            assert(0 <= t < sectors);
            assert(block_sector_payload(later, base, t) == block_sector_payload(
                earlier,
                base,
                t,
            ));
        } else {
            assert(t == sectors);
            assert(n % 128 == n - 128 * sectors);
            assert(after[n] == block_sector_payload(later, base, sectors)[n - 128 * sectors]);
        }
    }
}

/// A block that was read completely stays so, with the same payload and
/// the same anomalies, when the log grows.
pub proof fn lemma_block_kept(
    policy: ReadyPolicy,
    earlier: Seq<Event>,
    later: Seq<Event>,
    base: int,
    block: u8,
)
    requires
        extends(later, earlier),
        block_clean(policy, earlier, base, block),
    ensures
        block_clean(policy, later, base, block),
        block_payload(later, base) == block_payload(earlier, base),
        block_anomalies(later, base, BLOCK_SECTORS as nat) == block_anomalies(
            earlier,
            base,
            BLOCK_SECTORS as nat,
        ),
{
    lemma_block_sectors_kept(policy, earlier, later, base, block, BLOCK_SECTORS as int);
    lemma_anomalies_kept(policy, earlier, later, base, block, BLOCK_SECTORS as nat);
    assert forall|n: int| 0 <= n < BLOCK_BYTES implies #[trigger] block_payload(later, base)[n]
        == block_payload(earlier, base)[n] by {
        let offset = n / 128;
        assert(0 <= offset < BLOCK_SECTORS);
        assert(block_sector_payload(later, base, offset) == block_sector_payload(
            earlier,
            base,
            offset,
        ));
    }
    assert(block_payload(later, base) =~= block_payload(earlier, base));
}

/// Block `index` of a card read that starts at position `base` of the log was read completely.
pub open spec fn card_block_clean(policy: ReadyPolicy, log: Seq<Event>, base: int, index: int) -> bool {
    block_clean(policy, log, base + 26880 * index, index as u8)
}

/// From position `base` on the log holds a complete read of a standard card:
/// its 16 blocks in ascending order, one directly after the other.
pub open spec fn card_clean(policy: ReadyPolicy, log: Seq<Event>, base: int) -> bool {
    forall|index: int| 0 <= index < CARD_BLOCKS ==> #[trigger] card_block_clean(policy, log, base, index)
}

/// The payload of block `index` of the card read that starts at position `base`.
pub open spec fn card_block_payload(log: Seq<Event>, base: int, index: int) -> Seq<u8> {
    block_payload(log, base + 26880 * index)
}

/// The image received in the card read that starts at position `base`:
/// byte `n` is byte `n % 8192` of the payload of block `n / 8192`.
pub open spec fn card_image(log: Seq<Event>, base: int) -> Seq<u8> {
    Seq::new(CARD_BYTES as nat, |n: int| card_block_payload(log, base, n / 8192)[n % 8192])
}

/// The anomalies of the first `blocks` block reads of the card read that
/// starts at position `base`, in the order received.
pub open spec fn card_anomalies(log: Seq<Event>, base: int, blocks: nat) -> Seq<Anomaly>
    decreases blocks,
{
    if blocks == 0 {
        Seq::<Anomaly>::empty()
    } else {
        card_anomalies(log, base, (blocks - 1) as nat) + block_anomalies(
            log,
            base + 26880 * (blocks - 1),
            BLOCK_SECTORS as nat,
        )
    }
}

/// The log ends in a card read that started at position `base` and was
/// given up with `err`: some blocks were read completely, the read of the
/// next one failed, and nothing was done after it.
pub open spec fn card_failed(policy: ReadyPolicy, log: Seq<Event>, base: int, err: ReadError) -> bool {
    let b = (log.len() - base - 1) / 26880;
    &&& base < log.len()
    &&& 0 <= b < CARD_BLOCKS
    &&& forall|index: int| 0 <= index < b ==> #[trigger] card_block_clean(policy, log, base, index)
    &&& block_failed(policy, log, base + 26880 * b, b as u8, err)
}

/// `data` holds the payloads of the first `blocks` blocks of the card read
/// that starts at position `base`.
pub open spec fn holds_blocks(data: Seq<u8>, log: Seq<Event>, base: int, blocks: int) -> bool {
    &&& data.len() == 8192 * blocks
    &&& forall|n: int|
        0 <= n < 8192 * blocks ==> #[trigger] data[n] == card_block_payload(log, base, n / 8192)[n
            % 8192]
}

/// A complete card read is 16 complete block reads, of the blocks 0 to 15
/// in this order, and its image is their payloads one after the other: block
/// `index` was read from position `base + 26880 * index` of the log on, and
/// the 8192 bytes from `8192 * index` on are the payload of that read.
pub proof fn lemma_image_is_its_blocks(policy: ReadyPolicy, log: Seq<Event>, base: int, index: int)
    requires
        card_clean(policy, log, base),
        0 <= index < CARD_BLOCKS,
    ensures
        block_clean(policy, log, base + BLOCK_EVENTS * index, index as u8),
        card_image(log, base).subrange(8192 * index, 8192 * index + 8192) == block_payload(
            log,
            base + BLOCK_EVENTS * index,
        ),
{
    assert(card_block_clean(policy, log, base, index));
    let part = card_image(log, base).subrange(8192 * index, 8192 * index + 8192);
    let whole = block_payload(log, base + 26880 * index);
    assert forall|j: int| 0 <= j < 8192 implies part[j] == whole[j] by {
        let n = 8192 * index + j;
        assert(n / 8192 == index);
        assert(n % 8192 == j);
    }
    assert(part =~= whole);
}

/// Blocks that were read completely stay so, with the same payloads and
/// anomalies, when the log grows.
pub proof fn lemma_card_blocks_kept(
    policy: ReadyPolicy,
    earlier: Seq<Event>,
    later: Seq<Event>,
    base: int,
    blocks: nat,
)
    requires
        extends(later, earlier),
        blocks <= CARD_BLOCKS,
        forall|index: int|
            0 <= index < blocks ==> #[trigger] card_block_clean(policy, earlier, base, index),
    ensures
        forall|index: int|
            0 <= index < blocks ==> #[trigger] card_block_clean(policy, later, base, index),
        forall|index: int|
            0 <= index < blocks ==> #[trigger] card_block_payload(later, base, index)
                == card_block_payload(earlier, base, index),
        card_anomalies(later, base, blocks) == card_anomalies(earlier, base, blocks),
    decreases blocks,
{
    if blocks > 0 {
        lemma_card_blocks_kept(policy, earlier, later, base, (blocks - 1) as nat);
        assert(card_block_clean(policy, earlier, base, blocks - 1));
        lemma_block_kept(policy, earlier, later, base + 26880 * (blocks - 1), (blocks - 1) as u8);
        assert(card_block_clean(policy, later, base, blocks - 1));
        assert(card_block_payload(later, base, blocks - 1) == card_block_payload(
            earlier,
            base,
            blocks - 1,
        ));
    }
}

/// Appending the payload of the next block to the payloads of the blocks
/// before it gives the payloads up to and including that block.
pub proof fn lemma_image_grows(
    before: Seq<u8>,
    after: Seq<u8>,
    earlier: Seq<Event>,
    later: Seq<Event>,
    base: int,
    blocks: int,
)
    requires
        0 <= blocks,
        holds_blocks(before, earlier, base, blocks),
        forall|index: int|
            0 <= index < blocks ==> #[trigger] card_block_payload(later, base, index)
                == card_block_payload(earlier, base, index),
        after == before + card_block_payload(later, base, blocks),
    ensures
        holds_blocks(after, later, base, blocks + 1),
{
    assert(card_block_payload(later, base, blocks).len() == 8192);
    assert forall|n: int| 0 <= n < 8192 * (blocks + 1) implies #[trigger] after[n]
        == card_block_payload(later, base, n / 8192)[n % 8192] by {
        let b = n / 8192;
        if n < 8192 * blocks {
            assert(after[n] == before[n]);
            assert(0 <= b < blocks);
            assert(card_block_payload(later, base, b) == card_block_payload(earlier, base, b));
        } else {
            assert(b == blocks);
            assert(n % 8192 == n - 8192 * blocks);
            assert(after[n] == card_block_payload(later, base, blocks)[n - 8192 * blocks]);
        }
    }
}

/// What one block read brought back.
#[derive(Debug)]
pub struct BlockReport {
    /// The payloads of the block's sectors, one after the other.
    pub data: Vec<u8>,
    /// The anomalies of the block's sectors, in the order received.
    pub anomalies: Vec<Anomaly>,
}

/// What one read of the whole card brought back.
#[derive(Debug)]
pub struct CardImage {
    /// The payloads of the card's blocks, one after the other.
    pub data: Vec<u8>,
    /// The anomalies of the card's sectors, in the order received.
    pub anomalies: Vec<Anomaly>,
}

/// A card behind a protocol engine.
pub struct MemoryCard<T: Transport> {
    /// The number of blocks that the card's header declares. No header is
    /// read, so this is zero.
    pub blocks: u8,
    /// The size in bytes that the card's header declares. No header is read,
    /// so this is zero.
    pub size: u32,
    /// The engine that talks to the card.
    pub io: Io<T>,
}

impl<T: Transport> MemoryCard<T> {
    /// A card behind `io`. Nothing is read from the card, so this cannot fail.
    pub fn new(io: Io<T>) -> (r: Result<MemoryCard<T>, ReadError>)
        ensures
            r matches Ok(card) && card.io == io && card.blocks == 0 && card.size == 0,
    {
        Ok(MemoryCard { io, blocks: 0, size: 0 })
    }

    /// Reads block `block`: its 64 sectors in ascending order, each read once.
    /// The result holds their payloads one after the other, and what they
    /// reported as anomalies. The first sector read that fails ends the block
    /// read, and then no data is returned.
    #[verifier::rlimit(30)]
    pub fn read_block(&mut self, block: u8) -> (r: Result<BlockReport, ReadError>)
        ensures
            final(self).blocks == old(self).blocks,
            final(self).size == old(self).size,
            final(self).io.policy == old(self).io.policy,
            extends(final(self).io.link.log(), old(self).io.link.log()),
            match r {
                Ok(report) => {
                    &&& final(self).io.link.log().len() == old(self).io.link.log().len()
                        + SECTOR_EVENTS * BLOCK_SECTORS
                    &&& block_clean(
                        old(self).io.policy,
                        final(self).io.link.log(),
                        old(self).io.link.log().len() as int,
                        block,
                    )
                    &&& report.data@ == block_payload(
                        final(self).io.link.log(),
                        old(self).io.link.log().len() as int,
                    )
                    &&& report.data@.len() == BLOCK_BYTES
                    &&& report.anomalies@ == block_anomalies(
                        final(self).io.link.log(),
                        old(self).io.link.log().len() as int,
                        BLOCK_SECTORS as nat,
                    )
                },
                Err(e) => block_failed(
                    old(self).io.policy,
                    final(self).io.link.log(),
                    old(self).io.link.log().len() as int,
                    block,
                    e,
                ),
            },
    {
        let ghost start = self.io.link.log();
        let ghost base = start.len() as int;
        let ghost policy = self.io.policy;
        let mut data: Vec<u8> = Vec::new();
        let mut anomalies: Vec<Anomaly> = Vec::new();
        let mut s: usize = 0;
        proof {
            lemma_extends_itself(start);
        }
        while s < BLOCK_SECTORS
            invariant
                s <= BLOCK_SECTORS,
                self.blocks == old(self).blocks,
                self.size == old(self).size,
                self.io.policy == policy,
                policy == old(self).io.policy,
                start == old(self).io.link.log(),
                base == start.len(),
                extends(self.io.link.log(), start),
                self.io.link.log().len() == base + 420 * s,
                holds_payloads(data@, self.io.link.log(), base, s as int),
                anomalies@ == block_anomalies(self.io.link.log(), base, s as nat),
                forall|t: int|
                    0 <= t < s ==> #[trigger] block_sector_clean(
                        policy,
                        self.io.link.log(),
                        base,
                        block,
                        t,
                    ),
            decreases BLOCK_SECTORS - s,
        {
            let ghost earlier = self.io.link.log();
            let ghost before = data@;
            let address: u16 = (block as u16) * 64 + (s as u16);
            match self.io.read_sector(address) {
                Ok(report) => {
                    let mut chunk = report.data;
                    let mut notes = report.anomalies;
                    data.append(&mut chunk);
                    anomalies.append(&mut notes);
                },
                Err(e) => {
                    proof {
                        lemma_extends_further(start, earlier, self.io.link.log());
                        lemma_block_sectors_kept(
                            policy,
                            earlier,
                            self.io.link.log(),
                            base,
                            block,
                            s as int,
                        );
                    }
                    return Err(e);
                },
            }
            proof {
                let later = self.io.link.log();
                lemma_extends_further(start, earlier, later);
                lemma_anomalies_kept(policy, earlier, later, base, block, s as nat);
                lemma_block_sectors_kept(policy, earlier, later, base, block, s as int);
                lemma_payload_grows(before, data@, earlier, later, base, s as int);
                assert(block_sector_clean(policy, later, base, block, s as int));
            }
            s = s + 1;
        }
        assert(data@ =~= block_payload(self.io.link.log(), base));
        Ok(BlockReport { data, anomalies })
    }

    /// Reads a standard card: its 16 blocks in ascending order, each read
    /// once. The result holds their payloads one after the other, and what
    /// their sectors reported as anomalies. The first block read that fails
    /// ends the card read, and then no data is returned.
    #[verifier::rlimit(30)]
    pub fn read_card(&mut self) -> (r: Result<CardImage, ReadError>)
        ensures
            final(self).blocks == old(self).blocks,
            final(self).size == old(self).size,
            final(self).io.policy == old(self).io.policy,
            extends(final(self).io.link.log(), old(self).io.link.log()),
            match r {
                Ok(image) => {
                    &&& final(self).io.link.log().len() == old(self).io.link.log().len()
                        + BLOCK_EVENTS * CARD_BLOCKS
                    &&& card_clean(
                        old(self).io.policy,
                        final(self).io.link.log(),
                        old(self).io.link.log().len() as int,
                    )
                    &&& image.data@ == card_image(
                        final(self).io.link.log(),
                        old(self).io.link.log().len() as int,
                    )
                    &&& image.data@.len() == CARD_BYTES
                    &&& image.anomalies@ == card_anomalies(
                        final(self).io.link.log(),
                        old(self).io.link.log().len() as int,
                        CARD_BLOCKS as nat,
                    )
                },
                Err(e) => card_failed(
                    old(self).io.policy,
                    final(self).io.link.log(),
                    old(self).io.link.log().len() as int,
                    e,
                ),
            },
    {
        let ghost start = self.io.link.log();
        let ghost base = start.len() as int;
        let ghost policy = self.io.policy;
        let mut data: Vec<u8> = Vec::new();
        let mut anomalies: Vec<Anomaly> = Vec::new();
        let mut index: u8 = 0;
        proof {
            lemma_extends_itself(start);
        }
        while index < CARD_BLOCKS
            invariant
                index <= CARD_BLOCKS,
                self.blocks == old(self).blocks,
                self.size == old(self).size,
                self.io.policy == policy,
                policy == old(self).io.policy,
                start == old(self).io.link.log(),
                base == start.len(),
                extends(self.io.link.log(), start),
                self.io.link.log().len() == base + 26880 * index,
                holds_blocks(data@, self.io.link.log(), base, index as int),
                anomalies@ == card_anomalies(self.io.link.log(), base, index as nat),
                forall|b: int|
                    0 <= b < index ==> #[trigger] card_block_clean(
                        policy,
                        self.io.link.log(),
                        base,
                        b,
                    ),
            decreases CARD_BLOCKS - index,
        {
            let ghost earlier = self.io.link.log();
            let ghost before = data@;
            match self.read_block(index) {
                Ok(report) => {
                    let mut chunk = report.data;
                    let mut notes = report.anomalies;
                    data.append(&mut chunk);
                    anomalies.append(&mut notes);
                },
                Err(e) => {
                    proof {
                        lemma_extends_further(start, earlier, self.io.link.log());
                        lemma_card_blocks_kept(
                            policy,
                            earlier,
                            self.io.link.log(),
                            base,
                            index as nat,
                        );
                    }
                    return Err(e);
                },
            }
            proof {
                let later = self.io.link.log();
                lemma_extends_further(start, earlier, later);
                lemma_card_blocks_kept(policy, earlier, later, base, index as nat);
                lemma_image_grows(before, data@, earlier, later, base, index as int);
                assert(card_block_clean(policy, later, base, index as int));
            }
            index = index + 1;
        }
        assert(data@ =~= card_image(self.io.link.log(), base));
        Ok(CardImage { data, anomalies })
    }
}

} // verus!
