//! The firing boards on the wire: the announcement a board broadcasts, the
//! commands it takes and the replies it gives.  Nothing here touches a
//! socket: bytes come in and bytes go out.

use vstd::prelude::*;

verus! {

/// The UDP port of announcements and the TCP port of commands.
pub const PORT: u16 = 9090;

/// How long discovery listens, in milliseconds.
pub const DISCOVERY_WINDOW_MS: u64 = 2000;

/// How long one wait for an announcement lasts, in milliseconds.
pub const DISCOVERY_POLL_MS: u64 = 500;

/// How long a board gets to reply, in milliseconds.
pub const READ_TIMEOUT_MS: u64 = 1500;

/// How long sending a command may take, in milliseconds.
pub const WRITE_TIMEOUT_MS: u64 = 100;

/// The length of an announcement.
pub const ANNOUNCEMENT_LEN: usize = 18;

/// The channel slots of a board.
pub const SLOTS: usize = 30;

/// The length of a continuity reply: one byte for each slot, then the
/// voltage of the test loop.
pub const CONTINUITIES_LEN: usize = 31;

/// The continuity code of a slot with nothing connected.
pub const OPEN_CIRCUIT: u8 = 255;

/// A board as discovery found it: its IPv4 address, one byte for each
/// part, and its hardware address.
#[derive(Debug, PartialEq, Eq, Clone, Copy)]
pub struct Board {
    pub ip: [u8; 4],
    pub mac: [u8; 6],
}

/// [`Board`] as a mathematical value.
pub struct BoardView {
    pub ip: Seq<u8>,
    pub mac: Seq<u8>,
}

impl View for Board {
    type V = BoardView;

    open spec fn view(&self) -> BoardView {
        BoardView { ip: self.ip@, mac: self.mac@ }
    }
}

/// The eight bytes that open every announcement: `PORTFIRE` in ASCII.
pub open spec fn magic() -> Seq<u8> {
    seq![0x50u8, 0x4Fu8, 0x52u8, 0x54u8, 0x46u8, 0x49u8, 0x52u8, 0x45u8]
}

/// The board that `packet` announces: `None` for a packet of fewer than 18
/// bytes or one that does not open with [`magic`]; else the four bytes
/// from index 8 are the address and the six from index 12 the hardware
/// address.
pub open spec fn announced(packet: Seq<u8>) -> Option<BoardView> {
    if packet.len() >= ANNOUNCEMENT_LEN && packet.subrange(0, 8) == magic() {
        Some(BoardView { ip: packet.subrange(8, 12), mac: packet.subrange(12, 18) })
    } else {
        None
    }
}

/// What [`Board::from_packet`] returns, as a mathematical value.
pub open spec fn board_option_view(b: Option<Board>) -> Option<BoardView> {
    match b {
        Some(b) => Some(b@),
        None => None,
    }
}

impl Board {
    /// Reads an announcement.
    pub fn from_packet(buf: &[u8]) -> (r: Option<Board>)
        ensures
            board_option_view(r) == announced(buf@),
    {
        if buf.len() < ANNOUNCEMENT_LEN {
            return None;
        }
        let opens = buf[0] == 0x50 && buf[1] == 0x4F && buf[2] == 0x52 && buf[3] == 0x54 && buf[4]
            == 0x46 && buf[5] == 0x49 && buf[6] == 0x52 && buf[7] == 0x45;
        if !opens {
            proof {
                let head = buf@.subrange(0, 8);
                assert(head[0] == buf@[0] && head[1] == buf@[1] && head[2] == buf@[2] && head[3]
                    == buf@[3] && head[4] == buf@[4] && head[5] == buf@[5] && head[6] == buf@[6]
                    && head[7] == buf@[7]);
            }
            return None;
        }
        let ip: [u8; 4] = [buf[8], buf[9], buf[10], buf[11]];
        let mac: [u8; 6] = [buf[12], buf[13], buf[14], buf[15], buf[16], buf[17]];
        proof {
            assert(buf@.subrange(0, 8) =~= magic());
            assert(ip@ =~= buf@.subrange(8, 12));
            assert(mac@ =~= buf@.subrange(12, 18));
        }
        Some(Board { ip: ip, mac: mac })
    }

    /// Whether two boards are the same in address and hardware address.
    pub fn same_as(&self, other: &Board) -> (r: bool)
        ensures
            r == (self@ == other@),
    {
        let r = self.ip[0] == other.ip[0] && self.ip[1] == other.ip[1] && self.ip[2] == other.ip[2]
            && self.ip[3] == other.ip[3] && self.mac[0] == other.mac[0] && self.mac[1]
            == other.mac[1] && self.mac[2] == other.mac[2] && self.mac[3] == other.mac[3]
            && self.mac[4] == other.mac[4] && self.mac[5] == other.mac[5];
        proof {
            if r {
                assert(self.ip@ =~= other.ip@);
                assert(self.mac@ =~= other.mac@);
            }
        }
        r
    }
}

/// An announcement is read from its first 18 bytes alone.
pub proof fn law_announcement_is_read_from_18_bytes(a: Seq<u8>, b: Seq<u8>)
    requires
        a.len() >= 18,
        b.len() >= 18,
        a.subrange(0, 18) == b.subrange(0, 18),
    ensures
        announced(a) == announced(b),
{
    assert(a.subrange(0, 8) =~= a.subrange(0, 18).subrange(0, 8));
    assert(b.subrange(0, 8) =~= b.subrange(0, 18).subrange(0, 8));
    assert(a.subrange(8, 12) =~= a.subrange(0, 18).subrange(8, 12));
    assert(b.subrange(8, 12) =~= b.subrange(0, 18).subrange(8, 12));
    assert(a.subrange(12, 18) =~= a.subrange(0, 18).subrange(12, 18));
    assert(b.subrange(12, 18) =~= b.subrange(0, 18).subrange(12, 18));
}

/// A packet that is too short, or opens with anything but [`magic`],
/// announces no board; every other packet announces one.
pub proof fn law_announcement_is_rejected(packet: Seq<u8>)
    ensures
        packet.len() < 18 ==> announced(packet) is None,
        packet.len() >= 8 && packet.subrange(0, 8) != magic() ==> announced(packet) is None,
        packet.len() >= 18 && packet.subrange(0, 8) == magic() ==> announced(packet) is Some,
{
}

/// The boards found so far as mathematical values.
pub open spec fn found_view(found: Seq<Board>) -> Seq<BoardView> {
    Seq::new(found.len(), |k: int| found[k]@)
}

/// The boards found once `packet` has arrived: the board it announces
/// joins the end unless it is there already; a packet that announces none
/// changes nothing.
pub open spec fn noted(found: Seq<BoardView>, packet: Seq<u8>) -> Seq<BoardView> {
    match announced(packet) {
        Some(board) => if found.contains(board) {
            found
        } else {
            found.push(board)
        },
        None => found,
    }
}

/// Whether no board occurs twice.
pub open spec fn distinct(found: Seq<BoardView>) -> bool {
    forall|i: int, j: int| 0 <= i < j < found.len() ==> found[i] != found[j]
}

/// A board that announces itself again and again is found once.
pub proof fn law_board_is_found_once(found: Seq<BoardView>, packet: Seq<u8>)
    requires
        distinct(found),
    ensures
        distinct(noted(found, packet)),
        noted(noted(found, packet), packet) == noted(found, packet),
{
    let after = noted(found, packet);
    match announced(packet) {
        Some(board) => {
            if !found.contains(board) {
                assert forall|i: int, j: int| 0 <= i < j < after.len() implies after[i] != after[j] by {
                    if j == found.len() {
                        assert(found[i] == after[i]);
                        assert(found.contains(found[i]));
                    }
                }
                assert(after[found.len() as int] == board);
                assert(after.contains(board));
            }
        },
        None => {},
    }
}

/// Takes one received packet into the list of boards found.  Returns
/// whether a board was added.
pub fn note_packet(found: &mut Vec<Board>, packet: &[u8]) -> (added: bool)
    ensures
        found_view(final(found)@) == noted(found_view(old(found)@), packet@),
        added == (final(found)@.len() == old(found)@.len() + 1),
        !added ==> final(found)@ == old(found)@,
{
    let ghost before = found_view(found@);
    match Board::from_packet(packet) {
        None => false,
        Some(board) => {
            let mut k: usize = 0;
            while k < found.len()
                invariant
                    k <= found.len(),
                    found@ == old(found)@,
                    before == found_view(found@),
                    announced(packet@) == Some(board@),
                    forall|j: int| 0 <= j < k ==> before[j] != board@,
                decreases found.len() - k,
            {
                if found[k].same_as(&board) {
                    assert(before[k as int] == board@);
                    return false;
                }
                k += 1;
            }
            found.push(board);
            proof {
                assert(found_view(found@) =~= before.push(board@));
            }
            true
        },
    }
}

/// Whether discovery goes on listening after `elapsed_ms` milliseconds.
pub fn window_open(elapsed_ms: u64) -> (r: bool)
    ensures
        r == (elapsed_ms < DISCOVERY_WINDOW_MS),
{
    elapsed_ms < DISCOVERY_WINDOW_MS
}

/// What can be asked of a board.
#[derive(Debug, PartialEq, Eq, Clone, Copy)]
pub enum Command {
    /// Are you there?
    Ping,
    /// Close the safety relay: the bus comes up.
    Arm,
    /// Open the safety relay.
    Disarm,
    /// Fire the given slots at once; a zero names no slot.
    Fire([u8; 3]),
    /// Report the bus voltage.
    BusVoltage,
    /// Report the continuity of every slot.
    Continuities,
}

impl Command {
    /// The bytes of the command on the wire: one letter, and for a fire
    /// the three slots behind it.
    pub open spec fn wire(self) -> Seq<u8> {
        match self {
            Command::Ping => seq![0x70u8],
            Command::Arm => seq![0x61u8],
            Command::Disarm => seq![0x64u8],
            Command::Fire(slots) => seq![0x66u8, slots@[0], slots@[1], slots@[2]],
            Command::BusVoltage => seq![0x62u8],
            Command::Continuities => seq![0x63u8],
        }
    }

    /// How many bytes of reply to make room for.
    pub open spec fn room(self) -> nat {
        match self {
            Command::BusVoltage => 2,
            Command::Continuities => 31,
            _ => 4,
        }
    }

    /// The bytes to send.
    pub fn encode(&self) -> (bytes: Vec<u8>)
        ensures
            bytes@ == self.wire(),
    {
        let mut bytes: Vec<u8> = Vec::new();
        match self {
            Command::Ping => {
                bytes.push(0x70);
            },
            Command::Arm => {
                bytes.push(0x61);
            },
            Command::Disarm => {
                bytes.push(0x64);
            },
            Command::Fire(slots) => {
                bytes.push(0x66);
                bytes.push(slots[0]);
                bytes.push(slots[1]);
                bytes.push(slots[2]);
            },
            Command::BusVoltage => {
                bytes.push(0x62);
            },
            Command::Continuities => {
                bytes.push(0x63);
            },
        }
        proof {
            assert(bytes@ =~= self.wire());
        }
        bytes
    }

    /// The size of the buffer to read the reply into.
    pub fn reply_room(&self) -> (n: usize)
        ensures
            n == self.room(),
    {
        match self {
            Command::BusVoltage => 2,
            Command::Continuities => CONTINUITIES_LEN,
            _ => 4,
        }
    }
}

/// The slots of a fire command for the channel numbers `slots`: the
/// numbers in order, then zeros up to three.  `None` for more than three.
pub open spec fn frame_of(slots: Seq<u8>) -> Option<Seq<u8>> {
    if slots.len() <= 3 {
        Some(Seq::new(3, |k: int| if k < slots.len() { slots[k] } else { 0u8 }))
    } else {
        None
    }
}

/// Fills the three slots of a fire command.
pub fn fire_frame(slots: &[u8]) -> (r: Option<[u8; 3]>)
    ensures
        r is Some == frame_of(slots@) is Some,
        r is Some ==> r->0@ == frame_of(slots@)->0,
{
    let n = slots.len();
    if n > 3 {
        return None;
    }
    let frame: [u8; 3] = [
        if 0 < n { slots[0] } else { 0 },
        if 1 < n { slots[1] } else { 0 },
        if 2 < n { slots[2] } else { 0 },
    ];
    proof {
        assert(frame@ =~= frame_of(slots@)->0);
    }
    Some(frame)
}

/// Why a reply was refused.
#[derive(Debug, PartialEq, Eq, Clone, Copy)]
pub enum ProtocolError {
    /// The reply has not the length that the command calls for.
    WrongLength,
    /// The reply does not open with `OK`.
    NotAcknowledged,
}

/// What the reply to a ping, arm, disarm or fire means: acknowledged where
/// it has two to four bytes and opens with `OK`.
pub open spec fn ack_of(reply: Seq<u8>) -> Result<(), ProtocolError> {
    if reply.len() < 2 || reply.len() > 4 {
        Err(ProtocolError::WrongLength)
    } else if reply[0] == 0x4F && reply[1] == 0x4B {
        Ok(())
    } else {
        Err(ProtocolError::NotAcknowledged)
    }
}

/// Checks the reply to a ping, arm, disarm or fire.
pub fn check_ack(reply: &[u8]) -> (r: Result<(), ProtocolError>)
    ensures
        r == ack_of(reply@),
{
    if reply.len() < 2 || reply.len() > 4 {
        Err(ProtocolError::WrongLength)
    } else if reply[0] == 0x4F && reply[1] == 0x4B {
        Ok(())
    } else {
        Err(ProtocolError::NotAcknowledged)
    }
}

/// The bus voltage in millivolts that `reply` reports: two bytes, the low
/// one first.
pub open spec fn millivolts_of(reply: Seq<u8>) -> Result<u16, ProtocolError> {
    if reply.len() != 2 {
        Err(ProtocolError::WrongLength)
    } else {
        Ok((reply[0] + 256 * reply[1]) as u16)
    }
}

/// Reads the reply to a bus voltage command, in millivolts.
pub fn decode_bus_voltage(reply: &[u8]) -> (r: Result<u16, ProtocolError>)
    ensures
        r == millivolts_of(reply@),
{
    if reply.len() != 2 {
        Err(ProtocolError::WrongLength)
    } else {
        let low: u16 = reply[0] as u16;
        let high: u16 = reply[1] as u16;
        Ok(low + 256 * high)
    }
}

/// What [`decode_continuities`] returns, as a mathematical value.
pub open spec fn codes_view(r: Result<[u8; 31], ProtocolError>) -> Result<Seq<u8>, ProtocolError> {
    match r {
        Ok(codes) => Ok(codes@),
        Err(e) => Err(e),
    }
}

/// The continuity codes that `reply` reports: its 31 bytes as they are.
pub open spec fn continuities_of(reply: Seq<u8>) -> Result<Seq<u8>, ProtocolError> {
    if reply.len() != CONTINUITIES_LEN {
        Err(ProtocolError::WrongLength)
    } else {
        Ok(reply)
    }
}

/// Reads the reply to a continuities command.
pub fn decode_continuities(reply: &[u8]) -> (r: Result<[u8; 31], ProtocolError>)
    ensures
        codes_view(r) == continuities_of(reply@),
{
    if reply.len() != CONTINUITIES_LEN {
        return Err(ProtocolError::WrongLength);
    }
    let mut codes: [u8; 31] = [0u8; 31];
    let mut k: usize = 0;
    while k < CONTINUITIES_LEN
        invariant
            k <= CONTINUITIES_LEN == reply.len(),
            forall|j: int| 0 <= j < k ==> codes@[j] == reply@[j],
        decreases CONTINUITIES_LEN - k,
    {
        codes[k] = reply[k];
        k += 1;
    }
    proof {
        assert(codes@ =~= reply@);
    }
    Ok(codes)
}

/// Whether a continuity code says that nothing is connected.
pub fn is_open(code: u8) -> (r: bool)
    ensures
        r == (code == OPEN_CIRCUIT),
{
    code == OPEN_CIRCUIT
}

/// The slots from 1 to `upto` that the continuity codes show connected,
/// by rising slot.
pub open spec fn connected_upto(codes: Seq<u8>, upto: int) -> Seq<u8>
    decreases upto,
{
    if upto <= 0 {
        Seq::empty()
    } else if codes[upto - 1] != OPEN_CIRCUIT {
        connected_upto(codes, upto - 1).push(upto as u8)
    } else {
        connected_upto(codes, upto - 1)
    }
}

/// The slots of a board with something connected.
pub fn connected_slots(codes: &[u8; 31]) -> (slots: Vec<u8>)
    ensures
        slots@ == connected_upto(codes@, SLOTS as int),
{
    let mut slots: Vec<u8> = Vec::new();
    let mut num: u8 = 1;
    while num <= 30
        invariant
            1 <= num <= 31,
            slots@ == connected_upto(codes@, num - 1),
        decreases 31 - num,
    {
        if !is_open(codes[(num - 1) as usize]) {
            slots.push(num);
        }
        num += 1;
    }
    slots
}

} // verus!
