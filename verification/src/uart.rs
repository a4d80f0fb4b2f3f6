//! The registers of a 16550 UART: where they are, what their bits mean,
//! and how a baud rate becomes a divisor.

use vstd::prelude::*;

verus! {

/// The place of a register, counted in registers from the first.
#[derive(Clone, Copy, Debug, PartialEq, Eq, Structural)]
pub struct Reg(pub usize);

pub const TX_HOLDING: usize = 0;

pub const RX_BUFFER: usize = 0;

pub const INTR_ENABLE: usize = 1;

pub const FIFO_CTRL: usize = 2;

pub const LINE_CTRL: usize = 3;

pub const LINE_STATUS: usize = 5;

/// Low byte of the divisor, while the divisor latch is open.
pub const DIVISOR_LO: usize = 0;

/// High byte of the divisor, while the divisor latch is open.
pub const DIVISOR_HI: usize = 1;

/// The clock that the baud rate is divided from, in hertz.
pub const CLOCK_FREQUENCY: u32 = 24_000_000;

/// The lowest baud rate whose divisor fits in sixteen bits.
pub const MIN_BAUD: u32 = 23;

/// The highest baud rate of which sixteen times fits in thirty-two bits.
pub const MAX_BAUD: u32 = 0x0fff_ffff;

pub const IER_RX_DATA_AVAILABLE: u8 = 1 << 0;

pub const IER_TX_HOLDING_REGISTER_EMPTY: u8 = 1 << 1;

pub const IER_RX_LINE_STATUS: u8 = 1 << 2;

pub const IER_MODEM_STATUS: u8 = 1 << 3;

pub const FCR_ENABLE: u8 = 1 << 0;

pub const FCR_RX_RESET: u8 = 1 << 1;

pub const FCR_TX_RESET: u8 = 1 << 2;

pub const FCR_DMA_MODE_SELECT: u8 = 1 << 3;

pub const FCR_RX_TRIGGER_LO: u8 = 1 << 6;

pub const FCR_RX_TRIGGER_HI: u8 = 1 << 7;

pub const LCR_WORD_LENGTH_LO: u8 = 1 << 0;

pub const LCR_WORD_LENGTH_HI: u8 = 1 << 1;

pub const LCR_STOP_BITS: u8 = 1 << 2;

pub const LCR_PARITY_ENABLE: u8 = 1 << 3;

pub const LCR_EVEN_PARITY: u8 = 1 << 4;

pub const LCR_STICK_PARITY: u8 = 1 << 5;

pub const LCR_SET_BREAK: u8 = 1 << 6;

pub const LCR_DIVISOR_LATCH_ACCESS: u8 = 1 << 7;

pub const LSR_DATA_READY: u8 = 1 << 0;

pub const LSR_OVERRUN_ERROR: u8 = 1 << 1;

pub const LSR_PARITY_ERROR: u8 = 1 << 2;

pub const LSR_FRAMING_ERROR: u8 = 1 << 3;

pub const LSR_BREAK: u8 = 1 << 4;

pub const LSR_TX_HOLDING_REGISTER_EMPTY: u8 = 1 << 5;

pub const LSR_TX_EMPTY: u8 = 1 << 6;

/// Why the UART gave no byte.
#[derive(Clone, Copy, Debug, PartialEq, Eq, Structural)]
#[non_exhaustive]
pub enum UartError {
    TimedOut,
}

/// The bits of the interrupt enable register.
#[derive(Clone, Copy, Debug, PartialEq, Eq, Structural)]
pub struct InterruptEnable(pub u8);

/// The bits of the FIFO control register.
#[derive(Clone, Copy, Debug, PartialEq, Eq, Structural)]
pub struct FifoControl(pub u8);

/// The bits of the line control register.
#[derive(Clone, Copy, Debug, PartialEq, Eq, Structural)]
pub struct LineControl(pub u8);

/// The bits of the line status register.
#[derive(Clone, Copy, Debug, PartialEq, Eq, Structural)]
pub struct LineStatus(pub u8);

impl InterruptEnable {
    /// No bit set.
    pub fn empty() -> (r: Self)
        ensures
            r.0 == 0,
    {
        InterruptEnable(0)
    }

    pub fn bits(&self) -> (b: u8)
        ensures
            b == self.0,
    {
        self.0
    }
}

impl FifoControl {
    /// What the UART is set up with: FIFOs on and emptied, and the
    /// receiver's trigger at its highest level.
    pub fn startup() -> (r: Self)
        ensures
            r.0 == 0xc7,
            r.0 == FCR_ENABLE | FCR_RX_RESET | FCR_TX_RESET | FCR_RX_TRIGGER_HI | FCR_RX_TRIGGER_LO,
    {
        assert(0xc7u8 == (1u8 << 0) | (1u8 << 1) | (1u8 << 2) | (1u8 << 7) | (1u8 << 6))
            by (bit_vector);
        FifoControl(FCR_ENABLE | FCR_RX_RESET | FCR_TX_RESET | FCR_RX_TRIGGER_HI | FCR_RX_TRIGGER_LO)
    }

    pub fn bits(&self) -> (b: u8)
        ensures
            b == self.0,
    {
        self.0
    }
}

impl LineControl {
    /// The bits as the register holds them, none dropped.
    pub fn from_bits_retain(bits: u8) -> (r: Self)
        ensures
            r.0 == bits,
    {
        LineControl(bits)
    }

    pub fn bits(&self) -> (b: u8)
        ensures
            b == self.0,
    {
        self.0
    }

    /// What the UART is set up with: words of eight bits, one stop bit, no
    /// parity.
    pub fn eight_bits() -> (r: Self)
        ensures
            r.0 == 3,
            r.0 == LCR_WORD_LENGTH_HI | LCR_WORD_LENGTH_LO,
    {
        assert(3u8 == (1u8 << 1) | (1u8 << 0)) by (bit_vector);
        LineControl(LCR_WORD_LENGTH_HI | LCR_WORD_LENGTH_LO)
    }

    /// These bits and the divisor latch opened: the two lowest registers
    /// then hold the divisor.
    pub fn with_divisor_latch(self) -> (r: Self)
        ensures
            r.0 == self.0 | 0x80,
            r.divisor_latch_open(),
            r.without_divisor_latch_spec() == self.without_divisor_latch_spec(),
    {
        let bits = self.0;
        assert((bits | 0x80) & 0x80 == 0x80 && (bits | 0x80) & 0x7f == bits & 0x7f) by (bit_vector);
        assert(LCR_DIVISOR_LATCH_ACCESS == 0x80) by (bit_vector)
            requires
                LCR_DIVISOR_LATCH_ACCESS == 1u8 << 7,
        ;
        LineControl(self.0 | LCR_DIVISOR_LATCH_ACCESS)
    }

    /// These bits and the divisor latch closed.
    pub fn without_divisor_latch(self) -> (r: Self)
        ensures
            r == self.without_divisor_latch_spec(),
            !r.divisor_latch_open(),
    {
        let bits = self.0;
        assert((bits & !0x80u8) == bits & 0x7f && (bits & 0x7f) & 0x80 == 0) by (bit_vector);
        assert(LCR_DIVISOR_LATCH_ACCESS == 0x80) by (bit_vector)
            requires
                LCR_DIVISOR_LATCH_ACCESS == 1u8 << 7,
        ;
        LineControl(self.0 & !LCR_DIVISOR_LATCH_ACCESS)
    }

    /// Whether the divisor latch is open.
    pub open spec fn divisor_latch_open(self) -> bool {
        self.0 & 0x80 == 0x80
    }

    /// These bits with the divisor latch closed.
    pub open spec fn without_divisor_latch_spec(self) -> Self {
        LineControl(self.0 & 0x7f)
    }
}

impl LineStatus {
    /// The bits as the register holds them, none dropped.
    pub fn from_bits_retain(bits: u8) -> (r: Self)
        ensures
            r.0 == bits,
    {
        LineStatus(bits)
    }

    pub fn bits(&self) -> (b: u8)
        ensures
            b == self.0,
    {
        self.0
    }

    /// Whether every bit of `other` is set here.
    pub fn contains(&self, other: LineStatus) -> (r: bool)
        ensures
            r == (self.0 & other.0 == other.0),
    {
        self.0 & other.0 == other.0
    }

    /// Whether a received byte waits in the receive buffer.
    pub fn data_ready(&self) -> (r: bool)
        ensures
            r == (self.0 & 0x01 == 0x01),
    {
        assert(LSR_DATA_READY == 0x01) by (bit_vector)
            requires
                LSR_DATA_READY == 1u8 << 0,
        ;
        self.contains(LineStatus(LSR_DATA_READY))
    }

    /// Whether the transmit holding register can take a byte.
    pub fn tx_holding_register_empty(&self) -> (r: bool)
        ensures
            r == (self.0 & 0x20 == 0x20),
    {
        assert(LSR_TX_HOLDING_REGISTER_EMPTY == 0x20) by (bit_vector)
            requires
                LSR_TX_HOLDING_REGISTER_EMPTY == 1u8 << 5,
        ;
        self.contains(LineStatus(LSR_TX_HOLDING_REGISTER_EMPTY))
    }
}

/// The divisor for `baud`: the clock divided by sixteen times the baud
/// rate, rounded down.
pub open spec fn divisor_of(baud: u32) -> int {
    CLOCK_FREQUENCY as int / (baud as int * 16)
}

/// The two bytes of the divisor for `baud`, low byte first.
pub fn divisor_for_baud(baud: u32) -> (r: [u8; 2])
    requires
        MIN_BAUD <= baud <= MAX_BAUD,
    ensures
        r[0] as int + 256 * (r[1] as int) == divisor_of(baud),
        r[0] as int == divisor_of(baud) % 256,
        r[1] as int == divisor_of(baud) / 256,
{
    let scaled: u32 = baud * 16;
    let divisor: u32 = CLOCK_FREQUENCY / scaled;
    assert(divisor <= 65_535) by {
        assert(scaled >= 368);
        assert(24_000_000int / (scaled as int) <= 24_000_000int / 368) by (nonlinear_arith)
            requires
                scaled >= 368,
        ;
    }
    [(divisor % 256) as u8, (divisor / 256) as u8]
}

} // verus!
