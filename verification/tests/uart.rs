use zmodem::uart::{
    divisor_for_baud, FifoControl, InterruptEnable, LineControl, LineStatus, Reg, UartError,
    DIVISOR_HI, DIVISOR_LO, FIFO_CTRL, INTR_ENABLE, LINE_CTRL, LINE_STATUS, LSR_BREAK,
    LSR_DATA_READY, LSR_TX_EMPTY, LSR_TX_HOLDING_REGISTER_EMPTY, MAX_BAUD, MIN_BAUD, RX_BUFFER,
    TX_HOLDING,
};

#[test]
fn registers_are_where_a_16550_has_them() {
    assert_eq!(Reg(TX_HOLDING), Reg(0));
    assert_eq!(Reg(RX_BUFFER), Reg(0));
    assert_eq!(Reg(INTR_ENABLE), Reg(1));
    assert_eq!(Reg(FIFO_CTRL), Reg(2));
    assert_eq!(Reg(LINE_CTRL), Reg(3));
    assert_eq!(Reg(LINE_STATUS), Reg(5));
    assert_eq!(Reg(DIVISOR_LO), Reg(0));
    assert_eq!(Reg(DIVISOR_HI), Reg(1));
}

#[test]
fn divisor_is_clock_over_sixteen_times_baud() {
    // 24 MHz / (115200 * 16) = 13.02...
    assert_eq!(divisor_for_baud(115_200), [13, 0]);
    // 24 MHz / (9600 * 16) = 156.25
    assert_eq!(divisor_for_baud(9_600), [156, 0]);
    // 24 MHz / (300 * 16) = 5000 = 0x1388
    assert_eq!(divisor_for_baud(300), [0x88, 0x13]);
    // The slowest rate whose divisor fits: 24 MHz / 368 = 65217 = 0xfec1.
    assert_eq!(divisor_for_baud(MIN_BAUD), [0xc1, 0xfe]);
    assert_eq!(divisor_for_baud(1_500_000), [1, 0]);
    assert_eq!(divisor_for_baud(1_500_001), [0, 0]);
    assert_eq!(divisor_for_baud(MAX_BAUD), [0, 0]);
}

#[test]
fn startup_values() {
    assert_eq!(InterruptEnable::empty().bits(), 0);
    assert_eq!(FifoControl::startup().bits(), 0b1100_0111);
    assert_eq!(LineControl::eight_bits().bits(), 0b0000_0011);
}

#[test]
fn divisor_latch_opens_and_closes() {
    for bits in [0x00u8, 0x03, 0x1b, 0x7f, 0x80, 0x83, 0xff] {
        let lcr = LineControl::from_bits_retain(bits);
        assert_eq!(lcr.bits(), bits);
        assert_eq!(lcr.with_divisor_latch().bits(), bits | 0x80);
        assert_eq!(lcr.without_divisor_latch().bits(), bits & 0x7f);
        assert_eq!(lcr.with_divisor_latch().without_divisor_latch().bits(), bits & 0x7f);
    }
}

#[test]
fn line_status_bits() {
    let idle = LineStatus::from_bits_retain(LSR_TX_HOLDING_REGISTER_EMPTY | LSR_TX_EMPTY);
    assert_eq!(idle.bits(), 0x60);
    assert!(!idle.data_ready());
    assert!(idle.tx_holding_register_empty());
    let busy = LineStatus::from_bits_retain(LSR_DATA_READY | LSR_BREAK);
    assert_eq!(busy.bits(), 0x11);
    assert!(busy.data_ready());
    assert!(!busy.tx_holding_register_empty());
    assert!(busy.contains(LineStatus(LSR_BREAK)));
    assert!(busy.contains(LineStatus(LSR_BREAK | LSR_DATA_READY)));
    assert!(!busy.contains(LineStatus(LSR_BREAK | LSR_TX_EMPTY)));
    assert!(busy.contains(LineStatus(0)));
}

#[test]
fn the_one_uart_error() {
    assert_eq!(UartError::TimedOut, UartError::TimedOut);
    assert_eq!(format!("{:?}", UartError::TimedOut), "TimedOut");
}
