//! The IDE bus, register by register: which port is which, what is written
//! to select a drive and address a sector, and the order of reads, writes
//! and waits that identifies a drive or moves one sector. The ports
//! themselves belong to whoever runs a transfer: it performs each action
//! that the transfer names and hands back what came of it.

use crate::bits::{
    bit_is_set, get_bit_u8, get_bits_u16, get_bits_u32,
    lemma_byte_ranges, lemma_top_nibble, lemma_word_from_halves, lemma_word_halves,
    set_bits_u16,
};
use crate::text::{chars_of, string_of, trim, trimmed};
use vstd::prelude::*;
use vstd::string::StringExecFns;

verus! {

/// Nanoseconds a drive may stay busy before the channel is reset.
pub const BUSY_TIMEOUT: u64 = 1_000_000_000;

/// Polls for readiness after IDENTIFY before the channel is reset.
pub const READY_POLLS: u16 = 256;

/// Words in a sector.
pub const SECTOR_WORDS: u16 = 256;

/// What a drive can be told to do.
#[derive(Clone, Copy, Debug, PartialEq, Eq, Structural)]
pub enum Command {
    Read,
    Write,
    Identify,
}

impl Command {
    /// The byte that goes into the command register.
    pub open spec fn spec_code(self) -> u8 {
        match self {
            Command::Read => 0x20,
            Command::Write => 0x30,
            Command::Identify => 0xEC,
        }
    }

    /// The byte that goes into the command register.
    pub fn code(self) -> (r: u8)
        ensures
            r == self.spec_code(),
    {
        match self {
            Command::Read => 0x20,
            Command::Write => 0x30,
            Command::Identify => 0xEC,
        }
    }
}

/// The bits of the status register.
#[derive(Clone, Copy, Debug, PartialEq, Eq, Structural)]
pub enum Status {
    Error,
    Index,
    CorrectedData,
    DataRequest,
    Service,
    DeviceFault,
    DeviceReady,
    Busy,
}

impl Status {
    /// The position of the bit in the status byte.
    pub open spec fn spec_bit(self) -> u8 {
        match self {
            Status::Error => 0,
            Status::Index => 1,
            Status::CorrectedData => 2,
            Status::DataRequest => 3,
            Status::Service => 4,
            Status::DeviceFault => 5,
            Status::DeviceReady => 6,
            Status::Busy => 7,
        }
    }

    /// The position of the bit in the status byte.
    pub fn bit(self) -> (r: u8)
        ensures
            r == self.spec_bit(),
            r < 8,
    {
        match self {
            Status::Error => 0,
            Status::Index => 1,
            Status::CorrectedData => 2,
            Status::DataRequest => 3,
            Status::Service => 4,
            Status::DeviceFault => 5,
            Status::DeviceReady => 6,
            Status::Busy => 7,
        }
    }

    /// Whether the bit is set in the status byte `status`.
    pub fn is_set(self, status: u8) -> (r: bool)
        ensures
            r == bit_is_set(status, self.spec_bit()),
    {
        get_bit_u8(status, self.bit())
    }
}

/// The registers of a channel.
#[derive(Clone, Copy, Debug, PartialEq, Eq, Structural)]
pub enum Register {
    Data,
    Error,
    Features,
    SectorCount,
    Lba0,
    Lba1,
    Lba2,
    Drive,
    Status,
    Command,
    AlternateStatus,
    Control,
    DriveAddress,
}

/// One channel: its number, its interrupt line, and the two port numbers
/// from which its registers are counted.
#[derive(Clone, Copy, Debug, PartialEq, Eq, Structural)]
pub struct Bus {
    pub id: u8,
    pub irq: u8,
    pub io_base: u16,
    pub ctrl_base: u16,
}

/// What a transfer asks of whoever owns the ports.
#[derive(Clone, Copy, Debug, PartialEq, Eq, Structural)]
pub enum Action {
    /// Write a byte to a port.
    Out8 { port: u16, value: u8 },
    /// Read a byte from a port, and hand it back as `Event::Byte`.
    In8 { port: u16 },
    /// Write a word to a port.
    Out16 { port: u16, value: u16 },
    /// Read a word from a port, and hand it back as `Event::Word`.
    In16 { port: u16 },
    /// Wait this long.
    Delay { nanos: u64 },
    /// Note the time.
    Mark,
    /// Hand back the nanoseconds since the time was noted, as
    /// `Event::Nanos`.
    Since,
    /// Nothing: the transfer is over.
    Stop,
}

/// What came of an action.
#[derive(Clone, Copy, Debug, PartialEq, Eq, Structural)]
pub enum Event {
    Done,
    Byte(u8),
    Word(u16),
    Nanos(u64),
}

/// Where a transfer stands.
#[derive(Clone, Copy, Debug, PartialEq, Eq, Structural)]
pub enum Stage {
    /// The soft reset before IDENTIFY: four steps.
    Reset,
    /// The soft reset that abandons a transfer: four steps.
    Abort,
    /// The short wait after the reset: four reads of the alternate status.
    Settle,
    /// Drive, sector count and address: five writes.
    Select,
    /// The command byte.
    Issue,
    /// IDENTIFY only: a status of 0 says that no drive is there.
    Present,
    /// The short wait before the status is polled: four reads.
    BusySettle,
    /// The start of the one second that the drive may stay busy.
    BusyMark,
    /// One poll of the status for the busy bit.
    BusyStatus,
    /// The look at the clock after a poll that found the drive busy.
    BusyClock,
    /// IDENTIFY only: a middle address byte other than 0 says that the
    /// drive speaks the packet interface.
    Kind1,
    /// The same for the high address byte.
    Kind2,
    /// IDENTIFY only: one poll of the status for the error bit.
    PollError,
    /// The poll for the ready bit that follows it.
    PollReady,
    /// The 256 words of the sector.
    Data,
    /// Over.
    Stopped,
}

/// The state of a transfer: what it is to do, where it stands, and the
/// words it has taken or has to give.
pub struct Machine {
    pub bus: Bus,
    pub command: Command,
    pub drive: u8,
    pub block: u32,
    pub stage: Stage,
    pub count: u16,
    pub words: Seq<u16>,
    pub flushing: bool,
    pub failed: bool,
}

/// The byte that an event carries; 0 where it carries none.
pub open spec fn byte_of(event: Event) -> u8 {
    match event {
        Event::Byte(b) => b,
        _ => 0,
    }
}

/// The word that an event carries; 0 where it carries none.
pub open spec fn word_of(event: Event) -> u16 {
    match event {
        Event::Word(w) => w,
        _ => 0,
    }
}

/// The nanoseconds that an event carries; 0 where it carries none.
pub open spec fn nanos_of(event: Event) -> u64 {
    match event {
        Event::Nanos(n) => n,
        _ => 0,
    }
}

/// The byte that selects `drive` for IDENTIFY.
pub open spec fn select_value(drive: u8) -> u8 {
    0xA0u8 | (drive << 4u8)
}

/// The byte that selects `drive` in LBA mode and carries bits 24 to 27 of
/// the block address.
pub open spec fn drive_value(drive: u8, block: u32) -> u8 {
    (0xE0u8 | (drive << 4u8)) | (((block / 0x100_0000) % 0x10) as u8 & 0x0Fu8)
}

/// Byte `k` of the block address, 0 the lowest.
pub open spec fn lba_byte(block: u32, k: int) -> u8 {
    if k == 0 {
        (block % 0x100) as u8
    } else if k == 1 {
        ((block / 0x100) % 0x100) as u8
    } else {
        ((block / 0x1_0000) % 0x100) as u8
    }
}

/// The word that carries the bytes `lo` and `hi` of a sector.
pub open spec fn word_of_bytes(lo: u8, hi: u8) -> u16 {
    (lo as u16 + 0x100 * (hi as u16)) as u16
}

/// The words of a sector of 512 bytes: each pair of bytes one word, the
/// first byte of the pair the low one.
pub open spec fn pack(bytes: Seq<u8>) -> Seq<u16> {
    Seq::new(256, |i: int| word_of_bytes(bytes[2 * i], bytes[2 * i + 1]))
}

/// The bytes of a sector of 256 words: each word two bytes, the low one
/// first.
pub open spec fn unpack(words: Seq<u16>) -> Seq<u8> {
    Seq::new(
        512,
        |i: int|
            if i % 2 == 0 {
                (words[i / 2] % 0x100) as u8
            } else {
                (words[i / 2] / 0x100) as u8
            },
    )
}

impl Bus {
    /// The ports of the channel do not run past the last port there is.
    pub open spec fn wf(&self) -> bool {
        self.io_base <= 0xFFF8 && self.ctrl_base <= 0xFFFE
    }

    /// The port of a register: the data register at the first port of the
    /// command block and the others after it, error and features at one
    /// port and status and command at another; the alternate status and the
    /// control register at the first port of the control block, the drive
    /// address after it.
    pub open spec fn spec_port(&self, reg: Register) -> u16 {
        match reg {
            Register::Data => self.io_base,
            Register::Error => (self.io_base + 1) as u16,
            Register::Features => (self.io_base + 1) as u16,
            Register::SectorCount => (self.io_base + 2) as u16,
            Register::Lba0 => (self.io_base + 3) as u16,
            Register::Lba1 => (self.io_base + 4) as u16,
            Register::Lba2 => (self.io_base + 5) as u16,
            Register::Drive => (self.io_base + 6) as u16,
            Register::Status => (self.io_base + 7) as u16,
            Register::Command => (self.io_base + 7) as u16,
            Register::AlternateStatus => self.ctrl_base,
            Register::Control => self.ctrl_base,
            Register::DriveAddress => (self.ctrl_base + 1) as u16,
        }
    }

    /// The channel `id` with its command block at `io_base`, its control
    /// block at `ctrl_base` and the interrupt line `irq`.
    pub fn new(id: u8, io_base: u16, ctrl_base: u16, irq: u8) -> (r: Self)
        requires
            io_base <= 0xFFF8,
            ctrl_base <= 0xFFFE,
        ensures
            r == (Bus { id, irq, io_base, ctrl_base }),
            r.wf(),
    {
        Bus { id, irq, io_base, ctrl_base }
    }

    /// The port of a register.
    pub fn port(&self, reg: Register) -> (r: u16)
        requires
            self.wf(),
        ensures
            r == self.spec_port(reg),
    {
        match reg {
            Register::Data => self.io_base,
            Register::Error => self.io_base + 1,
            Register::Features => self.io_base + 1,
            Register::SectorCount => self.io_base + 2,
            Register::Lba0 => self.io_base + 3,
            Register::Lba1 => self.io_base + 4,
            Register::Lba2 => self.io_base + 5,
            Register::Drive => self.io_base + 6,
            Register::Status => self.io_base + 7,
            Register::Command => self.io_base + 7,
            Register::AlternateStatus => self.ctrl_base,
            Register::Control => self.ctrl_base,
            Register::DriveAddress => self.ctrl_base + 1,
        }
    }
}

/// The byte that selects `drive` for IDENTIFY.
pub fn select_drive(drive: u8) -> (r: u8)
    ensures
        r == select_value(drive),
{
    0xA0u8 | (drive << 4u8)
}

/// The five bytes that address one sector: for the drive register, the
/// sector count, and the low, middle and high address registers.
pub fn setup(drive: u8, block: u32) -> (r: [u8; 5])
    ensures
        r@[0] == drive_value(drive, block),
        r@[1] == 1,
        r@[2] == lba_byte(block, 0),
        r@[3] == lba_byte(block, 1),
        r@[4] == lba_byte(block, 2),
{
    let drive_id = 0xE0u8 | (drive << 4u8);
    let top = get_bits_u32(block, 24, 28);
    let b0 = get_bits_u32(block, 0, 8);
    let b1 = get_bits_u32(block, 8, 16);
    let b2 = get_bits_u32(block, 16, 24);
    proof {
        lemma_byte_ranges(block);
        lemma_top_nibble(block);
    }
    [drive_id | ((top as u8) & 0x0Fu8), 1, b0 as u8, b1 as u8, b2 as u8]
}

/// The two bytes of a word of a sector, the low one first.
pub fn word_bytes(word: u16) -> (r: (u8, u8))
    ensures
        r.0 == (word % 0x100) as u8,
        r.1 == (word / 0x100) as u8,
{
    let lo = get_bits_u16(word, 0, 8);
    let hi = get_bits_u16(word, 8, 16);
    proof {
        lemma_word_halves(word);
    }
    (lo as u8, hi as u8)
}

/// The word of a sector that carries two bytes, the low one first.
pub fn bytes_word(lo: u8, hi: u8) -> (r: u16)
    ensures
        r == word_of_bytes(lo, hi),
{
    proof {
        lemma_word_from_halves(lo, hi);
    }
    let w = set_bits_u16(0, 0, 8, lo as u16);
    set_bits_u16(w, 8, 16, hi as u16)
}


/// Step `count` of a soft reset: the reset line set, a short wait, the
/// line cleared, a longer wait.
pub open spec fn reset_action(bus: Bus, count: u16) -> Action {
    if count == 0 {
        Action::Out8 { port: bus.spec_port(Register::Control), value: 4 }
    } else if count == 1 {
        Action::Delay { nanos: 5 }
    } else if count == 2 {
        Action::Out8 { port: bus.spec_port(Register::Control), value: 0 }
    } else {
        Action::Delay { nanos: 2000 }
    }
}

/// The register that step `count` of the selection writes.
pub open spec fn select_register(count: u16) -> Register {
    if count == 0 {
        Register::Drive
    } else if count == 1 {
        Register::SectorCount
    } else if count == 2 {
        Register::Lba0
    } else if count == 3 {
        Register::Lba1
    } else {
        Register::Lba2
    }
}

/// The byte that step `count` of the selection writes: for IDENTIFY the
/// drive and then zeros, for a read or a write the drive with the top of
/// the address, a sector count of 1, and the three low bytes of the
/// address.
pub open spec fn select_byte(command: Command, drive: u8, block: u32, count: u16) -> u8 {
    if command == Command::Identify {
        if count == 0 {
            select_value(drive)
        } else {
            0
        }
    } else if count == 0 {
        drive_value(drive, block)
    } else if count == 1 {
        1
    } else {
        lba_byte(block, count - 2)
    }
}

/// What a transfer in the state `m` asks for.
pub open spec fn action_of(m: Machine) -> Action {
    match m.stage {
        Stage::Reset => reset_action(m.bus, m.count),
        Stage::Abort => reset_action(m.bus, m.count),
        Stage::Settle => Action::In8 { port: m.bus.spec_port(Register::AlternateStatus) },
        Stage::Select => Action::Out8 {
            port: m.bus.spec_port(select_register(m.count)),
            value: select_byte(m.command, m.drive, m.block, m.count),
        },
        Stage::Issue => Action::Out8 {
            port: m.bus.spec_port(Register::Command),
            value: m.command.spec_code(),
        },
        Stage::Present => Action::In8 { port: m.bus.spec_port(Register::Status) },
        Stage::BusySettle => Action::In8 { port: m.bus.spec_port(Register::AlternateStatus) },
        Stage::BusyMark => Action::Mark,
        Stage::BusyStatus => Action::In8 { port: m.bus.spec_port(Register::Status) },
        Stage::BusyClock => Action::Since,
        Stage::Kind1 => Action::In8 { port: m.bus.spec_port(Register::Lba1) },
        Stage::Kind2 => Action::In8 { port: m.bus.spec_port(Register::Lba2) },
        Stage::PollError => Action::In8 { port: m.bus.spec_port(Register::Status) },
        Stage::PollReady => Action::In8 { port: m.bus.spec_port(Register::Status) },
        Stage::Data => if m.command == Command::Write {
            Action::Out16 { port: m.bus.spec_port(Register::Data), value: m.words[m.count as int] }
        } else {
            Action::In16 { port: m.bus.spec_port(Register::Data) }
        },
        Stage::Stopped => Action::Stop,
    }
}

/// The state `m` at the stage `stage`, at its first step.
pub open spec fn at(m: Machine, stage: Stage) -> Machine {
    Machine { stage, count: 0, ..m }
}

/// The state `m` one step further in its stage.
pub open spec fn further(m: Machine) -> Machine {
    Machine { count: (m.count + 1) as u16, ..m }
}

/// The state `m` stopped, the transfer abandoned.
pub open spec fn abandoned(m: Machine) -> Machine {
    Machine { stage: Stage::Stopped, count: 0, failed: true, ..m }
}

/// The state that follows the wait for the drive to stop being busy: for
/// IDENTIFY the look at the kind of drive, for a read or a write the
/// sector's words, and after the words of a write the end.
pub open spec fn after_busy(m: Machine) -> Machine {
    if m.flushing {
        at(m, Stage::Stopped)
    } else if m.command == Command::Identify {
        at(m, Stage::Kind1)
    } else {
        at(m, Stage::Data)
    }
}

/// The state that follows `m` when `event` is what came of the action that
/// `m` asked for.
pub open spec fn advance(m: Machine, event: Event) -> Machine {
    match m.stage {
        Stage::Reset => if m.count < 3 {
            further(m)
        } else {
            at(m, Stage::Settle)
        },
        Stage::Abort => if m.count < 3 {
            further(m)
        } else {
            abandoned(m)
        },
        Stage::Settle => if m.count < 3 {
            further(m)
        } else {
            at(m, Stage::Select)
        },
        Stage::Select => if m.count < 4 {
            further(m)
        } else {
            at(m, Stage::Issue)
        },
        Stage::Issue => if m.command == Command::Identify {
            at(m, Stage::Present)
        } else {
            at(m, Stage::BusySettle)
        },
        Stage::Present => if byte_of(event) == 0 {
            abandoned(m)
        } else {
            at(m, Stage::BusySettle)
        },
        Stage::BusySettle => if m.count < 3 {
            further(m)
        } else {
            at(m, Stage::BusyMark)
        },
        Stage::BusyMark => at(m, Stage::BusyStatus),
        Stage::BusyStatus => if bit_is_set(byte_of(event), Status::Busy.spec_bit()) {
            at(m, Stage::BusyClock)
        } else {
            after_busy(m)
        },
        Stage::BusyClock => if nanos_of(event) > BUSY_TIMEOUT {
            at(m, Stage::Abort)
        } else {
            at(m, Stage::BusyStatus)
        },
        Stage::Kind1 => if byte_of(event) != 0 {
            abandoned(m)
        } else {
            at(m, Stage::Kind2)
        },
        Stage::Kind2 => if byte_of(event) != 0 {
            abandoned(m)
        } else {
            at(m, Stage::PollError)
        },
        Stage::PollError => if bit_is_set(byte_of(event), Status::Error.spec_bit()) {
            abandoned(m)
        } else {
            Machine { stage: Stage::PollReady, ..m }
        },
        Stage::PollReady => if bit_is_set(byte_of(event), Status::DeviceReady.spec_bit()) {
            at(m, Stage::Data)
        } else if m.count + 1 >= READY_POLLS {
            at(m, Stage::Abort)
        } else {
            Machine { stage: Stage::PollError, count: (m.count + 1) as u16, ..m }
        },
        Stage::Data => {
            let taken = if m.command == Command::Write {
                m
            } else {
                Machine { words: m.words.push(word_of(event)), ..m }
            };
            if m.count + 1 < SECTOR_WORDS {
                further(taken)
            } else if m.command == Command::Write {
                Machine { flushing: true, ..at(taken, Stage::BusySettle) }
            } else {
                at(taken, Stage::Stopped)
            }
        },
        Stage::Stopped => m,
    }
}

/// The state in which IDENTIFY starts.
pub open spec fn identify_start(bus: Bus, drive: u8) -> Machine {
    Machine {
        bus,
        command: Command::Identify,
        drive,
        block: 0,
        stage: Stage::Reset,
        count: 0,
        words: Seq::empty(),
        flushing: false,
        failed: false,
    }
}

/// The state in which the read of a sector starts.
pub open spec fn read_start(bus: Bus, drive: u8, block: u32) -> Machine {
    Machine {
        bus,
        command: Command::Read,
        drive,
        block,
        stage: Stage::Select,
        count: 0,
        words: Seq::empty(),
        flushing: false,
        failed: false,
    }
}

/// The state in which the write of a sector starts.
pub open spec fn write_start(bus: Bus, drive: u8, block: u32, bytes: Seq<u8>) -> Machine {
    Machine {
        bus,
        command: Command::Write,
        drive,
        block,
        stage: Stage::Select,
        count: 0,
        words: pack(bytes),
        flushing: false,
        failed: false,
    }
}

/// A transfer under way: the identification of a drive, or the read or the
/// write of one sector.
pub struct Transfer {
    bus: Bus,
    command: Command,
    drive: u8,
    block: u32,
    stage: Stage,
    count: u16,
    words: Vec<u16>,
    flushing: bool,
    failed: bool,
}

impl View for Transfer {
    type V = Machine;

    closed spec fn view(&self) -> Machine {
        Machine {
            bus: self.bus,
            command: self.command,
            drive: self.drive,
            block: self.block,
            stage: self.stage,
            count: self.count,
            words: self.words@,
            flushing: self.flushing,
            failed: self.failed,
        }
    }
}

/// The state of a transfer is one that a transfer can be in: its counter
/// within the steps of its stage, and as many words as it has taken, or a
/// sector's worth to give.
pub open spec fn machine_wf(m: Machine) -> bool {
    &&& m.bus.wf()
    &&& match m.stage {
        Stage::Reset | Stage::Abort | Stage::Settle | Stage::BusySettle => m.count < 4,
        Stage::Select => m.count < 5,
        Stage::PollError | Stage::PollReady => m.count < READY_POLLS,
        Stage::Data => m.count < SECTOR_WORDS,
        _ => m.count == 0,
    }
    &&& if m.command == Command::Write {
        m.words.len() == 256
    } else if m.stage == Stage::Data {
        m.words.len() == m.count
    } else if m.stage == Stage::Stopped && !m.failed {
        m.words.len() == 256
    } else {
        m.words.len() == 0
    }
    &&& (m.flushing ==> m.command == Command::Write)
    &&& (m.failed ==> m.stage == Stage::Stopped)
}

/// A state that a transfer can be in is followed by one.
pub proof fn theorem_transfer_stays_valid(m: Machine, event: Event)
    requires
        machine_wf(m),
    ensures
        machine_wf(advance(m, event)),
{
}

impl Bus {
    /// The identification of `drive`: the channel is reset and the drive
    /// selected, IDENTIFY is issued, and the drive's 256 words are taken,
    /// unless no drive answers, the drive stays busy for more than a
    /// second, it speaks the packet interface, it reports an error, or it
    /// is not ready after 256 polls.
    pub fn identify_drive(&self, drive: u8) -> (r: Transfer)
        requires
            self.wf(),
        ensures
            r@ == identify_start(*self, drive),
            machine_wf(r@),
    {
        Transfer {
            bus: *self,
            command: Command::Identify,
            drive,
            block: 0,
            stage: Stage::Reset,
            count: 0,
            words: Vec::new(),
            flushing: false,
            failed: false,
        }
    }

    /// The read of the sector `block` of `drive`: the drive is selected and
    /// the sector addressed, READ is issued, and once the drive is no
    /// longer busy the sector's 256 words are taken.
    pub fn read(&self, drive: u8, block: u32) -> (r: Transfer)
        requires
            self.wf(),
        ensures
            r@ == read_start(*self, drive, block),
            machine_wf(r@),
    {
        Transfer {
            bus: *self,
            command: Command::Read,
            drive,
            block,
            stage: Stage::Select,
            count: 0,
            words: Vec::new(),
            flushing: false,
            failed: false,
        }
    }

    /// The write of `buf` to the sector `block` of `drive`: the drive is
    /// selected and the sector addressed, WRITE is issued, once the drive
    /// is no longer busy the sector's 256 words are given, and the drive is
    /// waited for once more.
    pub fn write(&self, drive: u8, block: u32, buf: &[u8]) -> (r: Transfer)
        requires
            self.wf(),
            buf@.len() == 512,
        ensures
            r@ == write_start(*self, drive, block, buf@),
            machine_wf(r@),
    {
        let mut words: Vec<u16> = Vec::new();
        let mut i: usize = 0;
        while i < 256
            invariant
                i <= 256,
                buf@.len() == 512,
                words@.len() == i,
                forall|k: int|
                    0 <= k < i ==> words@[k] == word_of_bytes(buf@[2 * k], buf@[2 * k + 1]),
            decreases 256 - i,
        {
            words.push(bytes_word(buf[i * 2], buf[i * 2 + 1]));
            i += 1;
        }
        assert(words@ =~= pack(buf@));
        Transfer {
            bus: *self,
            command: Command::Write,
            drive,
            block,
            stage: Stage::Select,
            count: 0,
            words,
            flushing: false,
            failed: false,
        }
    }
}

impl Transfer {
    /// What the transfer asks for now.
    pub fn action(&self) -> (r: Action)
        requires
            machine_wf(self@),
        ensures
            r == action_of(self@),
    {
        match self.stage {
            Stage::Reset | Stage::Abort => {
                if self.count == 0 {
                    Action::Out8 { port: self.bus.port(Register::Control), value: 4 }
                } else if self.count == 1 {
                    Action::Delay { nanos: 5 }
                } else if self.count == 2 {
                    Action::Out8 { port: self.bus.port(Register::Control), value: 0 }
                } else {
                    Action::Delay { nanos: 2000 }
                }
            },
            Stage::Settle | Stage::BusySettle => Action::In8 {
                port: self.bus.port(Register::AlternateStatus),
            },
            Stage::Select => {
                let reg = if self.count == 0 {
                    Register::Drive
                } else if self.count == 1 {
                    Register::SectorCount
                } else if self.count == 2 {
                    Register::Lba0
                } else if self.count == 3 {
                    Register::Lba1
                } else {
                    Register::Lba2
                };
                let value = if self.command == Command::Identify {
                    if self.count == 0 {
                        select_drive(self.drive)
                    } else {
                        0
                    }
                } else {
                    let bytes = setup(self.drive, self.block);
                    bytes[self.count as usize]
                };
                Action::Out8 { port: self.bus.port(reg), value }
            },
            Stage::Issue => Action::Out8 {
                port: self.bus.port(Register::Command),
                value: self.command.code(),
            },
            Stage::Present | Stage::BusyStatus | Stage::PollError | Stage::PollReady => Action::In8 {
                port: self.bus.port(Register::Status),
            },
            Stage::BusyMark => Action::Mark,
            Stage::BusyClock => Action::Since,
            Stage::Kind1 => Action::In8 { port: self.bus.port(Register::Lba1) },
            Stage::Kind2 => Action::In8 { port: self.bus.port(Register::Lba2) },
            Stage::Data => {
                if self.command == Command::Write {
                    Action::Out16 {
                        port: self.bus.port(Register::Data),
                        value: self.words[self.count as usize],
                    }
                } else {
                    Action::In16 { port: self.bus.port(Register::Data) }
                }
            },
            Stage::Stopped => Action::Stop,
        }
    }

    /// Takes what came of the action that the transfer asked for, and
    /// returns what it asks for next.
    pub fn step(&mut self, event: Event) -> (r: Action)
        requires
            machine_wf(old(self)@),
        ensures
            final(self)@ == advance(old(self)@, event),
            machine_wf(final(self)@),
            r == action_of(final(self)@),
    {
        let byte = match event {
            Event::Byte(b) => b,
            _ => 0,
        };
        match self.stage {
            Stage::Reset => {
                if self.count < 3 {
                    self.count = self.count + 1;
                } else {
                    self.go(Stage::Settle);
                }
            },
            Stage::Abort => {
                if self.count < 3 {
                    self.count = self.count + 1;
                } else {
                    self.abandon();
                }
            },
            Stage::Settle => {
                if self.count < 3 {
                    self.count = self.count + 1;
                } else {
                    self.go(Stage::Select);
                }
            },
            Stage::Select => {
                if self.count < 4 {
                    self.count = self.count + 1;
                } else {
                    self.go(Stage::Issue);
                }
            },
            Stage::Issue => {
                if self.command == Command::Identify {
                    self.go(Stage::Present);
                } else {
                    self.go(Stage::BusySettle);
                }
            },
            Stage::Present => {
                if byte == 0 {
                    self.abandon();
                } else {
                    self.go(Stage::BusySettle);
                }
            },
            Stage::BusySettle => {
                if self.count < 3 {
                    self.count = self.count + 1;
                } else {
                    self.go(Stage::BusyMark);
                }
            },
            Stage::BusyMark => {
                self.go(Stage::BusyStatus);
            },
            Stage::BusyStatus => {
                if Status::Busy.is_set(byte) {
                    self.go(Stage::BusyClock);
                } else if self.flushing {
                    self.go(Stage::Stopped);
                } else if self.command == Command::Identify {
                    self.go(Stage::Kind1);
                } else {
                    self.go(Stage::Data);
                }
            },
            Stage::BusyClock => {
                let nanos = match event {
                    Event::Nanos(n) => n,
                    _ => 0,
                };
                if nanos > BUSY_TIMEOUT {
                    self.go(Stage::Abort);
                } else {
                    self.go(Stage::BusyStatus);
                }
            },
            Stage::Kind1 => {
                if byte != 0 {
                    self.abandon();
                } else {
                    self.go(Stage::Kind2);
                }
            },
            Stage::Kind2 => {
                if byte != 0 {
                    self.abandon();
                } else {
                    self.go(Stage::PollError);
                }
            },
            Stage::PollError => {
                if Status::Error.is_set(byte) {
                    self.abandon();
                } else {
                    self.stage = Stage::PollReady;
                }
            },
            Stage::PollReady => {
                if Status::DeviceReady.is_set(byte) {
                    self.go(Stage::Data);
                } else if self.count + 1 >= READY_POLLS {
                    self.go(Stage::Abort);
                } else {
                    self.stage = Stage::PollError;
                    self.count = self.count + 1;
                }
            },
            Stage::Data => {
                if self.command != Command::Write {
                    let word = match event {
                        Event::Word(w) => w,
                        _ => 0,
                    };
                    self.words.push(word);
                }
                if self.count + 1 < SECTOR_WORDS {
                    self.count = self.count + 1;
                } else if self.command == Command::Write {
                    self.go(Stage::BusySettle);
                    self.flushing = true;
                } else {
                    self.go(Stage::Stopped);
                }
            },
            Stage::Stopped => {},
        }
        self.action()
    }

    fn go(&mut self, stage: Stage)
        ensures
            final(self)@ == at(old(self)@, stage),
    {
        self.stage = stage;
        self.count = 0;
    }

    fn abandon(&mut self)
        ensures
            final(self)@ == abandoned(old(self)@),
    {
        self.stage = Stage::Stopped;
        self.count = 0;
        self.failed = true;
    }

    /// Whether the transfer is over.
    pub fn is_over(&self) -> (r: bool)
        ensures
            r == (self@.stage == Stage::Stopped),
    {
        self.stage == Stage::Stopped
    }

    /// Whether the transfer is over and came to its end: it was not
    /// abandoned.
    pub fn succeeded(&self) -> (r: bool)
        ensures
            r == (self@.stage == Stage::Stopped && !self@.failed),
    {
        self.stage == Stage::Stopped && !self.failed
    }

    /// The 256 words that an identification took; `None` while it is under
    /// way, where it was abandoned, and for a read or a write.
    pub fn identity(&self) -> (r: Option<Vec<u16>>)
        requires
            machine_wf(self@),
        ensures
            r is Some <==> self@.stage == Stage::Stopped && !self@.failed && self@.command
                == Command::Identify,
            r matches Some(words) ==> words@ == self@.words && words@.len() == 256,
    {
        if self.stage == Stage::Stopped && !self.failed && self.command == Command::Identify {
            let mut out: Vec<u16> = Vec::new();
            let mut i: usize = 0;
            while i < 256
                invariant
                    i <= 256,
                    self.words@.len() == 256,
                    out@ == self.words@.take(i as int),
                decreases 256 - i,
            {
                out.push(self.words[i]);
                i += 1;
                assert(out@ =~= self.words@.take(i as int));
            }
            assert(out@ =~= self.words@);
            Some(out)
        } else {
            None
        }
    }

    /// The 512 bytes of the sector that a read took, each word's low byte
    /// first; `None` while it is under way, where it was abandoned, and for
    /// an identification or a write.
    pub fn sector(&self) -> (r: Option<[u8; 512]>)
        requires
            machine_wf(self@),
        ensures
            r is Some <==> self@.stage == Stage::Stopped && !self@.failed && self@.command
                == Command::Read,
            r matches Some(bytes) ==> bytes@ == unpack(self@.words),
    {
        if self.stage == Stage::Stopped && !self.failed && self.command == Command::Read {
            let mut buf = [0u8; 512];
            let mut i: usize = 0;
            while i < 256
                invariant
                    i <= 256,
                    self.words@.len() == 256,
                    forall|k: int| 0 <= k < 2 * i ==> buf@[k] == unpack(self.words@)[k],
                decreases 256 - i,
            {
                let (lo, hi) = word_bytes(self.words[i]);
                buf[i * 2] = lo;
                buf[i * 2 + 1] = hi;
                i += 1;
            }
            assert(buf@ =~= unpack(self.words@));
            Some(buf)
        } else {
            None
        }
    }
}

/// The two channels of a PC: the first with its command block at port
/// 0x1F0 and its control block at 0x3F6, on interrupt line 14; the second
/// at 0x170 and 0x376, on line 15.
pub fn init() -> (r: Vec<Bus>)
    ensures
        r@ == seq![
            Bus { id: 0, irq: 14, io_base: 0x1F0, ctrl_base: 0x3F6 },
            Bus { id: 1, irq: 15, io_base: 0x170, ctrl_base: 0x376 },
        ],
        forall|i: int| 0 <= i < r@.len() ==> (#[trigger] r@[i]).wf(),
{
    let mut buses: Vec<Bus> = Vec::new();
    buses.push(Bus::new(0, 0x1F0, 0x3F6, 14));
    buses.push(Bus::new(1, 0x170, 0x376, 15));
    assert(buses@ =~= seq![
        Bus { id: 0, irq: 14, io_base: 0x1F0, ctrl_base: 0x3F6 },
        Bus { id: 1, irq: 15, io_base: 0x170, ctrl_base: 0x376 },
    ]);
    buses
}

/// The read of a sector on channel `bus` of `buses`.
pub fn read(buses: &Vec<Bus>, bus: u8, drive: u8, block: u32) -> (r: Transfer)
    requires
        bus < buses@.len(),
        buses@[bus as int].wf(),
    ensures
        r@ == read_start(buses@[bus as int], drive, block),
        machine_wf(r@),
{
    buses[bus as usize].read(drive, block)
}

/// The write of a sector on channel `bus` of `buses`.
pub fn write(buses: &Vec<Bus>, bus: u8, drive: u8, block: u32, buf: &[u8]) -> (r: Transfer)
    requires
        bus < buses@.len(),
        buses@[bus as int].wf(),
        buf@.len() == 512,
    ensures
        r@ == write_start(buses@[bus as int], drive, block, buf@),
        machine_wf(r@),
{
    buses[bus as usize].write(drive, block, buf)
}


/// A read or a write programs the channel in a fixed order, whatever
/// comes back meanwhile: the drive is selected, then the sector count and
/// the three low bytes of the address are written, then the command; only
/// then does the wait for the drive begin.
pub proof fn theorem_register_order(
    m: Machine,
    e0: Event,
    e1: Event,
    e2: Event,
    e3: Event,
    e4: Event,
    e5: Event,
)
    requires
        m.stage == Stage::Select,
        m.count == 0,
        m.command != Command::Identify,
    ensures
        ({
            let m1 = advance(m, e0);
            let m2 = advance(m1, e1);
            let m3 = advance(m2, e2);
            let m4 = advance(m3, e3);
            let m5 = advance(m4, e4);
            let m6 = advance(m5, e5);
            &&& action_of(m) == Action::Out8 {
                port: m.bus.spec_port(Register::Drive),
                value: drive_value(m.drive, m.block),
            }
            &&& action_of(m1) == Action::Out8 {
                port: m.bus.spec_port(Register::SectorCount),
                value: 1,
            }
            &&& action_of(m2) == Action::Out8 {
                port: m.bus.spec_port(Register::Lba0),
                value: lba_byte(m.block, 0),
            }
            &&& action_of(m3) == Action::Out8 {
                port: m.bus.spec_port(Register::Lba1),
                value: lba_byte(m.block, 1),
            }
            &&& action_of(m4) == Action::Out8 {
                port: m.bus.spec_port(Register::Lba2),
                value: lba_byte(m.block, 2),
            }
            &&& action_of(m5) == Action::Out8 {
                port: m.bus.spec_port(Register::Command),
                value: m.command.spec_code(),
            }
            &&& m6 == at(m, Stage::BusySettle)
        }),
{
}

/// A drive that is still busy after more than a second is given up: the
/// channel is reset, in four steps, and the transfer is over and has
/// failed, whatever comes back meanwhile.
pub proof fn theorem_busy_timeout(
    m: Machine,
    status: u8,
    nanos: u64,
    e0: Event,
    e1: Event,
    e2: Event,
    e3: Event,
)
    requires
        m.stage == Stage::BusyStatus,
        bit_is_set(status, Status::Busy.spec_bit()),
        nanos > BUSY_TIMEOUT,
    ensures
        ({
            let asked = advance(m, Event::Byte(status));
            let r0 = advance(asked, Event::Nanos(nanos));
            let r1 = advance(r0, e0);
            let r2 = advance(r1, e1);
            let r3 = advance(r2, e2);
            let end = advance(r3, e3);
            &&& action_of(asked) == Action::Since
            &&& action_of(r0) == Action::Out8 { port: m.bus.spec_port(Register::Control), value: 4 }
            &&& action_of(r1) == Action::Delay { nanos: 5 }
            &&& action_of(r2) == Action::Out8 { port: m.bus.spec_port(Register::Control), value: 0 }
            &&& action_of(r3) == Action::Delay { nanos: 2000 }
            &&& end.stage == Stage::Stopped
            &&& end.failed
            &&& action_of(end) == Action::Stop
        }),
{
}

/// An identification ends without a result, and at once, where the status
/// after the command is 0, where the middle or the high address byte is
/// not 0, and where the status shows an error.
pub proof fn theorem_identify_refusals(m: Machine, byte: u8)
    requires
        m.command == Command::Identify,
    ensures
        m.stage == Stage::Present && byte == 0 ==> advance(m, Event::Byte(byte)) == abandoned(m),
        (m.stage == Stage::Kind1 || m.stage == Stage::Kind2) && byte != 0 ==> advance(
            m,
            Event::Byte(byte),
        ) == abandoned(m),
        m.stage == Stage::PollError && bit_is_set(byte, Status::Error.spec_bit()) ==> advance(
            m,
            Event::Byte(byte),
        ) == abandoned(m),
        m.stage == Stage::PollReady && !bit_is_set(byte, Status::DeviceReady.spec_bit())
            && m.count == READY_POLLS - 1 ==> advance(m, Event::Byte(byte)) == at(m, Stage::Abort),
{
}

/// The bytes of a sector, packed into words and unpacked again, are the
/// bytes.
pub proof fn theorem_pack_unpack(bytes: Seq<u8>)
    requires
        bytes.len() == 512,
    ensures
        unpack(pack(bytes)) == bytes,
{
    assert(unpack(pack(bytes)) =~= bytes);
}


/// The bytes of the words `from..to` of a drive's identification, the high
/// byte of each word first.
pub open spec fn word_text(words: Seq<u16>, from: int, to: int) -> Seq<u8> {
    Seq::new(
        (2 * (to - from)) as nat,
        |i: int|
            if i % 2 == 0 {
                (words[from + i / 2] / 0x100) as u8
            } else {
                (words[from + i / 2] % 0x100) as u8
            },
    )
}

/// The number of sectors that a drive's identification gives: word 61 the
/// high half, word 60 the low.
pub open spec fn sectors_of(words: Seq<u16>) -> u32 {
    (words[61] as u32 * 0x1_0000 + words[60] as u32) as u32
}

/// The size of a disk of `sectors` sectors in mebibytes, rounded down,
/// where that is under 1000; else in gibibytes, rounded down.
pub open spec fn size_of(sectors: u32) -> u32 {
    if sectors / 2048 < 1000 {
        sectors / 2048
    } else {
        sectors / 0x20_0000
    }
}

/// The size of a disk of `sectors` sectors of 512 bytes, and its unit:
/// `MB` under 1000 mebibytes, else `GB`.
pub fn disk_size(sectors: u32) -> (r: (u32, String))
    ensures
        r.0 == size_of(sectors),
        r.1@ == (if sectors / 2048 < 1000 {
            "MB"@
        } else {
            "GB"@
        }),
{
    let bytes: u64 = sectors as u64 * 512;
    assert(bytes >> 20 == sectors as u64 / 2048 && bytes >> 30 == sectors as u64 / 0x20_0000)
        by (bit_vector)
        requires
            bytes == sectors as u64 * 512,
    ;
    if bytes >> 20 < 1000 {
        ((bytes >> 20) as u32, String::from_str("MB"))
    } else {
        ((bytes >> 30) as u32, String::from_str("GB"))
    }
}

/// The text in the words `from..to` of a drive's identification: two
/// characters to a word, the high byte first, without the white space at
/// both ends.
pub fn identify_text(words: &[u16], from: usize, to: usize) -> (r: String)
    requires
        from <= to <= words@.len(),
    ensures
        r@ == chars_of(trimmed(word_text(words@, from as int, to as int))),
{
    let mut bytes: Vec<u8> = Vec::new();
    let mut i: usize = from;
    while i < to
        invariant
            from <= i <= to <= words@.len(),
            bytes@ == word_text(words@, from as int, i as int),
        decreases to - i,
    {
        let (lo, hi) = word_bytes(words[i]);
        bytes.push(hi);
        bytes.push(lo);
        i += 1;
        assert(bytes@ =~= word_text(words@, from as int, i as int));
    }
    string_of(trim(bytes.as_slice()))
}

/// What the 256 words of a drive's identification say of the drive on
/// channel `bus` with the number `drive`: the channel and the number, the
/// model (words 27 to 46), the serial number (words 10 to 19), and the
/// size with its unit.
pub fn describe(bus: u8, drive: u8, words: &[u16]) -> (r: (u8, u8, String, String, u32, String))
    requires
        words@.len() == 256,
    ensures
        r.0 == bus,
        r.1 == drive,
        r.2@ == chars_of(trimmed(word_text(words@, 27, 47))),
        r.3@ == chars_of(trimmed(word_text(words@, 10, 20))),
        r.4 == size_of(sectors_of(words@)),
        r.5@ == (if sectors_of(words@) / 2048 < 1000 {
            "MB"@
        } else {
            "GB"@
        }),
{
    let serial = identify_text(words, 10, 20);
    let model = identify_text(words, 27, 47);
    let high = words[61] as u32;
    let low = words[60] as u32;
    let sectors = high << 16 | low;
    assert(sectors == high * 0x1_0000 + low) by (bit_vector)
        requires
            sectors == high << 16 | low,
            high < 0x1_0000,
            low < 0x1_0000,
    ;
    let (size, unit) = disk_size(sectors);
    (bus, drive, model, serial, size, unit)
}

/// What the identifications in `found` say, drive by drive: see
/// `describe`. Each entry of `found` is a channel, a drive's number on it,
/// and the 256 words that the drive gave.
pub fn list(found: &Vec<(u8, u8, Vec<u16>)>) -> (r: Vec<(u8, u8, String, String, u32, String)>)
    requires
        forall|i: int| 0 <= i < found@.len() ==> (#[trigger] found@[i]).2@.len() == 256,
    ensures
        r@.len() == found@.len(),
        forall|i: int|
            0 <= i < found@.len() ==> {
                let words = found@[i].2@;
                let entry = #[trigger] r@[i];
                &&& entry.0 == found@[i].0
                &&& entry.1 == found@[i].1
                &&& entry.2@ == chars_of(trimmed(word_text(words, 27, 47)))
                &&& entry.3@ == chars_of(trimmed(word_text(words, 10, 20)))
                &&& entry.4 == size_of(sectors_of(words))
                &&& entry.5@ == (if sectors_of(words) / 2048 < 1000 {
                    "MB"@
                } else {
                    "GB"@
                })
            },
{
    let mut result: Vec<(u8, u8, String, String, u32, String)> = Vec::new();
    let mut k: usize = 0;
    while k < found.len()
        invariant
            k <= found@.len(),
            result@.len() == k,
            forall|i: int| 0 <= i < found@.len() ==> (#[trigger] found@[i]).2@.len() == 256,
            forall|i: int|
                0 <= i < k ==> {
                    let words = found@[i].2@;
                    let entry = #[trigger] result@[i];
                    &&& entry.0 == found@[i].0
                    &&& entry.1 == found@[i].1
                    &&& entry.2@ == chars_of(trimmed(word_text(words, 27, 47)))
                    &&& entry.3@ == chars_of(trimmed(word_text(words, 10, 20)))
                    &&& entry.4 == size_of(sectors_of(words))
                    &&& entry.5@ == (if sectors_of(words) / 2048 < 1000 {
                        "MB"@
                    } else {
                        "GB"@
                    })
                },
        decreases found@.len() - k,
    {
        let item = &found[k];
        result.push(describe(item.0, item.1, item.2.as_slice()));
        k += 1;
    }
    result
}

} // verus!
