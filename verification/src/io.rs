//! The protocol engine: the handshake around each byte, and the fixed
//! sequence of exchanges that reads one sector.
use vstd::prelude::*;
use crate::bits::{mirror, reverse_byte};
use crate::codes::{Anomaly, Req, Res, Step};
use crate::transport::{Event, Fault, Transport};

verus! {

/// How long one wait on the ready line may take, in milliseconds.
pub const READY_WAIT_MS: u64 = 20;

/// The payload of one sector, in bytes.
pub const SECTOR_BYTES: usize = 128;

/// The number of byte exchanges that read one sector.
pub const SECTOR_EXCHANGES: usize = 140;

/// What to do when a wait on the ready line runs out of time.
#[derive(Debug, Clone, Copy, PartialEq, Eq, Structural)]
pub enum ReadyPolicy {
    /// The wait only paces the exchange: a timeout is ignored.
    Lenient,
    /// A timeout ends the read with `ReadError::ReadyTimeout`.
    Strict,
}

/// Why a read was given up.
#[derive(Debug, Clone, Copy, PartialEq, Eq, Structural)]
pub enum ReadError {
    /// The link failed.
    Transport(Fault),
    /// The ready line stayed silent and the policy is strict.
    ReadyTimeout,
}

/// The error, if any, that the outcome of a wait leads to.
pub open spec fn spec_wait_verdict(policy: ReadyPolicy, seen: Result<bool, Fault>) -> Option<
    ReadError,
> {
    match seen {
        Err(f) => Some(ReadError::Transport(f)),
        Ok(edge) => if !edge && policy == ReadyPolicy::Strict {
            Some(ReadError::ReadyTimeout)
        } else {
            None
        },
    }
}

/// Decides whether the read goes on after a wait on the ready line.
#[verifier::when_used_as_spec(spec_wait_verdict)]
pub fn wait_verdict(policy: ReadyPolicy, seen: Result<bool, Fault>) -> (v: Option<ReadError>)
    ensures
        v == spec_wait_verdict(policy, seen),
{
    match seen {
        Err(f) => Some(ReadError::Transport(f)),
        Ok(edge) => if !edge && policy == ReadyPolicy::Strict {
            Some(ReadError::ReadyTimeout)
        } else {
            None
        },
    }
}

/// `later` begins with all of `earlier`.
#[verifier::opaque]
pub open spec fn extends(later: Seq<Event>, earlier: Seq<Event>) -> bool {
    &&& earlier.len() <= later.len()
    &&& forall|i: int| 0 <= i < earlier.len() ==> #[trigger] later[i] == earlier[i]
}

/// Every log begins with itself.
pub proof fn lemma_extends_itself(log: Seq<Event>)
    ensures
        extends(log, log),
{
    reveal(extends);
}

/// What begins with a log begins with all that the log begins with.
pub proof fn lemma_extends_further(first: Seq<Event>, second: Seq<Event>, third: Seq<Event>)
    requires
        extends(second, first),
        extends(third, second),
    ensures
        extends(third, first),
{
    reveal(extends);
}

/// `e` is a wait of the standard length after which the read goes on.
pub open spec fn clean_wait(policy: ReadyPolicy, e: Event) -> bool {
    match e {
        Event::Wait { timeout_ms, seen } => timeout_ms == READY_WAIT_MS && spec_wait_verdict(
            policy,
            seen,
        ) is None,
        Event::Transfer { .. } => false,
    }
}

/// `e` is a wait of the standard length that ends the read with `err`.
pub open spec fn failed_wait(policy: ReadyPolicy, e: Event, err: ReadError) -> bool {
    match e {
        Event::Wait { timeout_ms, seen } => timeout_ms == READY_WAIT_MS && spec_wait_verdict(
            policy,
            seen,
        ) == Some(err),
        Event::Transfer { .. } => false,
    }
}

/// `e` is an exchange that put the mirror image of `out` on the wire and got a byte back.
pub open spec fn clean_transfer(e: Event, out: u8) -> bool {
    match e {
        Event::Transfer { sent, reply } => sent == mirror(out) && reply is Ok,
        Event::Wait { .. } => false,
    }
}

/// `e` is an exchange that put the mirror image of `out` on the wire and failed with `err`.
pub open spec fn failed_transfer(e: Event, out: u8, err: ReadError) -> bool {
    match e {
        Event::Transfer { sent, reply } => sent == mirror(out) && match reply {
            Err(f) => err == ReadError::Transport(f),
            Ok(_) => false,
        },
        Event::Wait { .. } => false,
    }
}

/// The protocol byte that an exchange delivered: the mirror image of what was on the wire.
pub open spec fn reply_of(e: Event) -> u8 {
    match e {
        Event::Transfer { reply: Ok(raw), .. } => mirror(raw),
        _ => 0,
    }
}

/// The three records from position `at` on are a complete handshake that sent `out`.
pub open spec fn handshake_clean(policy: ReadyPolicy, log: Seq<Event>, at: int, out: u8) -> bool {
    &&& 0 <= at
    &&& at + 3 <= log.len()
    &&& clean_wait(policy, log[at])
    &&& clean_transfer(log[at + 1], out)
    &&& clean_wait(policy, log[at + 2])
}

/// The byte received in the handshake that starts at position `at`.
pub open spec fn handshake_reply(log: Seq<Event>, at: int) -> u8 {
    reply_of(log[at + 1])
}

/// The log ends in a handshake that started at position `at`, was to send
/// `out`, and was given up with `err` at its first failing operation.
pub open spec fn handshake_failed(
    policy: ReadyPolicy,
    log: Seq<Event>,
    at: int,
    out: u8,
    err: ReadError,
) -> bool {
    &&& 0 <= at
    &&& at + 1 <= log.len() <= at + 3
    &&& if log.len() == at + 1 {
        failed_wait(policy, log[at], err)
    } else if log.len() == at + 2 {
        clean_wait(policy, log[at]) && failed_transfer(log[at + 1], out, err)
    } else {
        clean_wait(policy, log[at]) && clean_transfer(log[at + 1], out) && failed_wait(
            policy,
            log[at + 2],
            err,
        )
    }
}

/// The byte sent in exchange number `step` of a read of sector `address`:
/// the access command, the read command, two fillers, the address with its
/// high byte first, and fillers from there on.
pub open spec fn spec_command_byte(address: u16, step: int) -> u8 {
    if step == 0 {
        Req::Access.spec_code()
    } else if step == 1 {
        Req::Read.spec_code()
    } else if step == 4 {
        (address / 256) as u8
    } else if step == 5 {
        (address % 256) as u8
    } else {
        0
    }
}

/// The byte to send in exchange number `step` of a read of sector `address`.
pub fn command_byte(address: u16, step: usize) -> (out: u8)
    ensures
        out == spec_command_byte(address, step as int),
{
    if step == 0 {
        Req::Access.code()
    } else if step == 1 {
        Req::Read.code()
    } else if step == 4 {
        (address / 256) as u8
    } else if step == 5 {
        (address % 256) as u8
    } else {
        0
    }
}

/// Exchange number `i` of a read of sector `address` that starts at position
/// `base` of the log is a complete handshake.
pub open spec fn exchange_clean(
    policy: ReadyPolicy,
    log: Seq<Event>,
    base: int,
    address: u16,
    i: int,
) -> bool {
    handshake_clean(policy, log, base + 3 * i, spec_command_byte(address, i))
}

/// From position `base` on the log holds a complete read of sector `address`.
pub open spec fn sector_clean(policy: ReadyPolicy, log: Seq<Event>, base: int, address: u16) -> bool {
    forall|i: int| 0 <= i < SECTOR_EXCHANGES ==> #[trigger] exchange_clean(policy, log, base, address, i)
}

/// The bytes received in the read that starts at position `base`, one for each exchange.
pub open spec fn sector_replies(log: Seq<Event>, base: int) -> Seq<u8> {
    Seq::new(SECTOR_EXCHANGES as nat, |i: int| handshake_reply(log, base + 3 * i))
}

/// The log ends in a read of sector `address` that started at position
/// `base` and was given up with `err`: some exchanges went through, the next
/// one failed, and nothing was done after it.
pub open spec fn sector_failed(
    policy: ReadyPolicy,
    log: Seq<Event>,
    base: int,
    address: u16,
    err: ReadError,
) -> bool {
    let k = (log.len() - base - 1) / 3;
    &&& base < log.len()
    &&& 0 <= k < SECTOR_EXCHANGES
    &&& forall|i: int| 0 <= i < k ==> #[trigger] exchange_clean(policy, log, base, address, i)
    &&& handshake_failed(policy, log, base + 3 * k, spec_command_byte(address, k), err)
}

/// A complete handshake stays one, with the same reply, when the log grows.
pub proof fn lemma_handshake_kept(
    policy: ReadyPolicy,
    earlier: Seq<Event>,
    later: Seq<Event>,
    at: int,
    out: u8,
)
    requires
        extends(later, earlier),
        handshake_clean(policy, earlier, at, out),
    ensures
        handshake_clean(policy, later, at, out),
        handshake_reply(later, at) == handshake_reply(earlier, at),
{
    reveal(extends);
    assert(later[at] == earlier[at]);
    assert(later[at + 1] == earlier[at + 1]);
    assert(later[at + 2] == earlier[at + 2]);
}

/// A complete sector read stays one, with the same replies, when the log grows.
pub proof fn lemma_sector_kept(
    policy: ReadyPolicy,
    earlier: Seq<Event>,
    later: Seq<Event>,
    base: int,
    address: u16,
)
    requires
        extends(later, earlier),
        sector_clean(policy, earlier, base, address),
    ensures
        sector_clean(policy, later, base, address),
        sector_replies(later, base) == sector_replies(earlier, base),
{
    assert forall|i: int| 0 <= i < SECTOR_EXCHANGES implies #[trigger] exchange_clean(
        policy,
        later,
        base,
        address,
        i,
    ) && handshake_reply(later, base + 3 * i) == handshake_reply(earlier, base + 3 * i) by {
        assert(exchange_clean(policy, earlier, base, address, i));
        lemma_handshake_kept(policy, earlier, later, base + 3 * i, spec_command_byte(address, i));
    }
    assert forall|i: int| 0 <= i < SECTOR_EXCHANGES implies #[trigger] sector_replies(later, base)[i]
        == sector_replies(earlier, base)[i] by {
        assert(exchange_clean(policy, later, base, address, i));
    }
    assert(sector_replies(later, base) =~= sector_replies(earlier, base));
}

/// A read that was given up is not a complete read: the two outcomes of
/// `read_sector` describe different logs.
pub proof fn lemma_failed_is_not_clean(
    policy: ReadyPolicy,
    log: Seq<Event>,
    base: int,
    address: u16,
    err: ReadError,
)
    requires
        sector_failed(policy, log, base, address, err),
    ensures
        !(log.len() == base + 3 * SECTOR_EXCHANGES && sector_clean(policy, log, base, address)),
{
    if log.len() == base + 3 * SECTOR_EXCHANGES && sector_clean(policy, log, base, address) {
        assert(exchange_clean(policy, log, base, address, SECTOR_EXCHANGES - 1));
    }
}

/// What one sector read brought back.
#[derive(Debug)]
pub struct SectorReport {
    /// The byte that answered the read command. It is reported, not judged.
    pub flags: u8,
    /// The two bytes that answered the sector number, in the order received.
    /// They are reported, not judged.
    pub echo: (u8, u8),
    /// The sector number that the card says it delivered, high byte first.
    /// It is reported, not compared with the number asked for.
    pub confirmed: u16,
    /// The payload.
    pub data: Vec<u8>,
    /// The checksum byte as received. It is not held against the payload.
    pub checksum: u8,
    /// The statuses that were not the expected ones, in the order received.
    pub anomalies: Vec<Anomaly>,
}

/// What receiving the byte `got` at `step` adds to the anomalies: nothing if
/// it stands for the expected status, else one entry with the status it stands for.
pub open spec fn note(step: Step, got: u8) -> Seq<Anomaly> {
    if Res::spec_from_u8(got) == step.spec_expected() {
        Seq::<Anomaly>::empty()
    } else {
        seq![Anomaly { step, received: Res::spec_from_u8(got) }]
    }
}

/// The anomalies among the replies of one sector read: the two card
/// identifiers, the two acknowledgements and the end status, in that order.
pub open spec fn anomalies_of(replies: Seq<u8>) -> Seq<Anomaly> {
    note(Step::CardId1, replies[2]) + note(Step::CardId2, replies[3]) + note(
        Step::Ack1,
        replies[6],
    ) + note(Step::Ack2, replies[7]) + note(Step::End, replies[139])
}

/// The payload among the replies of one sector read.
pub open spec fn payload_of(replies: Seq<u8>) -> Seq<u8> {
    replies.subrange(10, 138)
}

/// `report` is what the replies of one sector read say.
pub open spec fn decodes_to(replies: Seq<u8>, report: SectorReport) -> bool {
    &&& report.flags == replies[1]
    &&& report.echo == (replies[4], replies[5])
    &&& report.confirmed == replies[8] * 256 + replies[9]
    &&& report.data@ == payload_of(replies)
    &&& report.checksum == replies[138]
    &&& report.anomalies@ == anomalies_of(replies)
}

/// The card answered every step that is judged with the expected status.
pub open spec fn well_formed(replies: Seq<u8>) -> bool {
    &&& replies.len() == SECTOR_EXCHANGES
    &&& Res::spec_from_u8(replies[2]) == Res::MemCard1
    &&& Res::spec_from_u8(replies[3]) == Res::MemCard2_Ack2
    &&& Res::spec_from_u8(replies[6]) == Res::Ack1
    &&& Res::spec_from_u8(replies[7]) == Res::MemCard2_Ack2
    &&& Res::spec_from_u8(replies[139]) == Res::Good
}

/// A well-formed answer has no anomalies, and only a well-formed answer has none.
pub proof fn lemma_well_formed_has_no_anomalies(replies: Seq<u8>)
    requires
        replies.len() == SECTOR_EXCHANGES,
    ensures
        well_formed(replies) <==> anomalies_of(replies).len() == 0,
{
}

/// An answer that is well formed but for the byte at one judged step has
/// exactly one anomaly: that step, with the status that the byte stands for.
/// The payload is the same as that of the well-formed answer.
pub proof fn lemma_one_bad_status_is_one_anomaly(replies: Seq<u8>, at: int, got: u8)
    requires
        well_formed(replies),
        at == 2 || at == 3 || at == 6 || at == 7 || at == 139,
        Res::spec_from_u8(got) != Res::spec_from_u8(replies[at]),
    ensures
        anomalies_of(replies.update(at, got)) == seq![
            Anomaly { step: step_at(at), received: Res::spec_from_u8(got) },
        ],
        payload_of(replies.update(at, got)) == payload_of(replies),
{
    assert(anomalies_of(replies.update(at, got)) =~= seq![
        Anomaly { step: step_at(at), received: Res::spec_from_u8(got) },
    ]);
    assert(payload_of(replies.update(at, got)) =~= payload_of(replies));
}

/// The step that judges the reply at position `at` of a sector read.
pub open spec fn step_at(at: int) -> Step {
    if at == 2 {
        Step::CardId1
    } else if at == 3 {
        Step::CardId2
    } else if at == 6 {
        Step::Ack1
    } else if at == 7 {
        Step::Ack2
    } else {
        Step::End
    }
}

/// Holds the byte `got`, received at `step`, against the status expected
/// there and records it in `journal` if it is another.
pub fn expect(step: Step, got: u8, journal: &mut Vec<Anomaly>)
    ensures
        final(journal)@ == old(journal)@ + note(step, got),
{
    let received = Res::from_u8(got);
    if received != step.expected() {
        journal.push(Anomaly { step, received });
        assert(journal@ =~= old(journal)@ + note(step, got));
    } else {
        assert(journal@ =~= old(journal)@ + note(step, got));
    }
}

/// Holds the two card identifiers against `MemCard1` and `MemCard2_Ack2`.
pub fn check_ids(first: u8, second: u8, journal: &mut Vec<Anomaly>)
    ensures
        final(journal)@ == old(journal)@ + note(Step::CardId1, first) + note(Step::CardId2, second),
{
    expect(Step::CardId1, first, journal);
    expect(Step::CardId2, second, journal);
}

/// Holds the two acknowledgements against `Ack1` and `MemCard2_Ack2`.
pub fn check_acks(first: u8, second: u8, journal: &mut Vec<Anomaly>)
    ensures
        final(journal)@ == old(journal)@ + note(Step::Ack1, first) + note(Step::Ack2, second),
{
    expect(Step::Ack1, first, journal);
    expect(Step::Ack2, second, journal);
}

/// Holds the end status against `Good`.
pub fn check_end(status: u8, journal: &mut Vec<Anomaly>)
    ensures
        final(journal)@ == old(journal)@ + note(Step::End, status),
{
    expect(Step::End, status, journal);
}

/// The sector number that the card confirms, from its two bytes, high byte first.
pub fn confirmed_sector(high: u8, low: u8) -> (sector: u16)
    ensures
        sector == high * 256 + low,
{
    (high as u16) * 256 + (low as u16)
}

impl SectorReport {
    /// Reads the replies of the 140 exchanges of one sector read. A sequence
    /// of any other length is no sector read.
    pub fn decode(replies: &Vec<u8>) -> (r: Option<SectorReport>)
        ensures
            r is Some <==> replies@.len() == SECTOR_EXCHANGES,
            r matches Some(report) ==> decodes_to(replies@, report),
    {
        if replies.len() != SECTOR_EXCHANGES {
            None
        } else {
            Some(SectorReport::interpret(replies))
        }
    }

    fn interpret(replies: &Vec<u8>) -> (report: SectorReport)
        requires
            replies@.len() == SECTOR_EXCHANGES,
        ensures
            decodes_to(replies@, report),
    {
        let mut anomalies: Vec<Anomaly> = Vec::new();
        check_ids(replies[2], replies[3], &mut anomalies);
        check_acks(replies[6], replies[7], &mut anomalies);
        check_end(replies[139], &mut anomalies);
        assert(anomalies@ =~= anomalies_of(replies@));
        let confirmed = confirmed_sector(replies[8], replies[9]);
        let mut data: Vec<u8> = Vec::new();
        let mut i: usize = 0;
        while i < SECTOR_BYTES
            invariant
                i <= SECTOR_BYTES,
                replies@.len() == SECTOR_EXCHANGES,
                data@.len() == i,
                forall|j: int| 0 <= j < i ==> data@[j] == replies@[10 + j],
            decreases SECTOR_BYTES - i,
        {
            data.push(replies[10 + i]);
            i = i + 1;
        }
        assert(data@ =~= payload_of(replies@));
        SectorReport {
            flags: replies[1],
            echo: (replies[4], replies[5]),
            confirmed,
            data,
            checksum: replies[138],
            anomalies,
        }
    }
}

/// The protocol engine on a link.
pub struct Io<T: Transport> {
    /// The link to the card.
    pub link: T,
    /// What a silent ready line leads to.
    pub policy: ReadyPolicy,
}

impl<T: Transport> Io<T> {
    /// An engine that owns `link` and follows `policy`.
    pub fn new(link: T, policy: ReadyPolicy) -> (io: Io<T>)
        ensures
            io.link == link,
            io.policy == policy,
    {
        Io { link, policy }
    }

    /// Exchanges one byte with the card: waits on the ready line, puts the
    /// mirror image of `req` on the wire, mirrors the byte that came back, and
    /// waits on the ready line again. The first operation that fails ends the
    /// handshake, and nothing is done after it.
    pub fn send(&mut self, req: u8) -> (r: Result<u8, ReadError>)
        ensures
            final(self).policy == old(self).policy,
            extends(final(self).link.log(), old(self).link.log()),
            match r {
                Ok(res) => {
                    &&& final(self).link.log().len() == old(self).link.log().len() + 3
                    &&& handshake_clean(
                        old(self).policy,
                        final(self).link.log(),
                        old(self).link.log().len() as int,
                        req,
                    )
                    &&& res == handshake_reply(
                        final(self).link.log(),
                        old(self).link.log().len() as int,
                    )
                },
                Err(e) => handshake_failed(
                    old(self).policy,
                    final(self).link.log(),
                    old(self).link.log().len() as int,
                    req,
                    e,
                ),
            },
    {
        proof {
            reveal(extends);
        }
        let data = reverse_byte(req);
        let before = self.link.wait_ready(READY_WAIT_MS);
        match wait_verdict(self.policy, before) {
            Some(e) => {
                return Err(e);
            },
            None => {},
        }
        let raw = match self.link.transfer(data) {
            Ok(raw) => raw,
            Err(f) => {
                return Err(ReadError::Transport(f));
            },
        };
        let res = reverse_byte(raw);
        let after = self.link.wait_ready(READY_WAIT_MS);
        match wait_verdict(self.policy, after) {
            Some(e) => Err(e),
            None => Ok(res),
        }
    }

    /// Reads sector `sector`: 140 handshakes, whose outgoing bytes are those of
    /// `spec_command_byte`, and then the reading of what came back. Bytes that
    /// are not the expected statuses are reported and never end the read; the
    /// first failing handshake does, and then no data is returned.
    #[verifier::rlimit(30)]
    pub fn read_sector(&mut self, sector: u16) -> (r: Result<SectorReport, ReadError>)
        ensures
            final(self).policy == old(self).policy,
            extends(final(self).link.log(), old(self).link.log()),
            match r {
                Ok(report) => {
                    &&& final(self).link.log().len() == old(self).link.log().len() + 3
                        * SECTOR_EXCHANGES
                    &&& sector_clean(
                        old(self).policy,
                        final(self).link.log(),
                        old(self).link.log().len() as int,
                        sector,
                    )
                    &&& decodes_to(
                        sector_replies(final(self).link.log(), old(self).link.log().len() as int),
                        report,
                    )
                    &&& report.data@.len() == SECTOR_BYTES
                },
                Err(e) => sector_failed(
                    old(self).policy,
                    final(self).link.log(),
                    old(self).link.log().len() as int,
                    sector,
                    e,
                ),
            },
    {
        let ghost start = self.link.log();
        let ghost base = start.len() as int;
        let ghost policy = self.policy;
        let mut replies: Vec<u8> = Vec::new();
        let mut i: usize = 0;
        proof {
            lemma_extends_itself(start);
        }
        while i < SECTOR_EXCHANGES
            invariant
                i <= SECTOR_EXCHANGES,
                self.policy == policy,
                policy == old(self).policy,
                start == old(self).link.log(),
                base == start.len(),
                extends(self.link.log(), start),
                self.link.log().len() == base + 3 * i,
                replies@.len() == i,
                forall|j: int|
                    0 <= j < i ==> #[trigger] exchange_clean(policy, self.link.log(), base, sector, j),
                forall|j: int|
                    0 <= j < i ==> #[trigger] replies@[j] == handshake_reply(
                        self.link.log(),
                        base + 3 * j,
                    ),
            decreases SECTOR_EXCHANGES - i,
        {
            let ghost earlier = self.link.log();
            let ghost got = replies@;
            let out = command_byte(sector, i);
            match self.send(out) {
                Ok(res) => {
                    replies.push(res);
                },
                Err(e) => {
                    proof {
                        let later = self.link.log();
                        lemma_extends_further(start, earlier, later);
                        assert forall|j: int| 0 <= j < i implies #[trigger] exchange_clean(
                            policy,
                            later,
                            base,
                            sector,
                            j,
                        ) by {
                            assert(exchange_clean(policy, earlier, base, sector, j));
                            lemma_handshake_kept(
                                policy,
                                earlier,
                                later,
                                base + 3 * j,
                                spec_command_byte(sector, j),
                            );
                        }
                    }
                    return Err(e);
                },
            }
            proof {
                let later = self.link.log();
                lemma_extends_further(start, earlier, later);
                assert forall|j: int| 0 <= j < i + 1 implies #[trigger] exchange_clean(
                    policy,
                    later,
                    base,
                    sector,
                    j,
                ) by {
                    if j < i {
                        assert(exchange_clean(policy, earlier, base, sector, j));
                        lemma_handshake_kept(
                            policy,
                            earlier,
                            later,
                            base + 3 * j,
                            spec_command_byte(sector, j),
                        );
                    }
                }
                assert forall|j: int| 0 <= j < i + 1 implies #[trigger] replies@[j]
                    == handshake_reply(later, base + 3 * j) by {
                    if j < i {
                        assert(replies@[j] == got[j]);
                        assert(exchange_clean(policy, earlier, base, sector, j));
                        lemma_handshake_kept(
                            policy,
                            earlier,
                            later,
                            base + 3 * j,
                            spec_command_byte(sector, j),
                        );
                    }
                }
            }
            i = i + 1;
        }
        assert(replies@ =~= sector_replies(self.link.log(), base));
        Ok(SectorReport::interpret(&replies))
    }
}

} // verus!
