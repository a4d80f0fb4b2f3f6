use zmodem::device::{Device, Error, SerialDevice};
use zmodem::recv::copy_into;
use zmodem::time::Duration;

/// A line that echoes what was sent, oldest byte first.
struct Echo {
    held: Vec<u8>,
    asked: usize,
    broken: bool,
}

impl SerialDevice for Echo {
    type Error = &'static str;

    fn send(&mut self, byte: u8) -> Result<(), Self::Error> {
        if self.broken {
            return Err("cannot send");
        }
        self.held.push(byte);
        Ok(())
    }

    fn recv(&mut self, _timeout: Duration) -> Result<Option<u8>, Self::Error> {
        self.asked += 1;
        if self.broken {
            return Err("cannot receive");
        }
        if self.held.is_empty() {
            Ok(None)
        } else {
            Ok(Some(self.held.remove(0)))
        }
    }
}

#[test]
fn device_passes_bytes_through() {
    let mut dev = Device::new(Echo { held: vec![], asked: 0, broken: false }, 10);
    assert_eq!(dev.remaining_reads(), 10);
    dev.send(7).unwrap();
    dev.send(8).unwrap();
    assert_eq!(dev.remaining_reads(), 10);
    assert!(matches!(dev.recv(Duration::zero()), Ok(7)));
    assert!(matches!(dev.recv(Duration::zero()), Ok(8)));
    assert_eq!(dev.remaining_reads(), 8);
}

#[test]
fn device_turns_silence_into_timed_out() {
    let mut dev = Device::new(Echo { held: vec![], asked: 0, broken: false }, 10);
    assert!(matches!(dev.recv(Duration::from_millis(1)), Err(Error::TimedOut)));
    // A read that timed out is a read used up.
    assert_eq!(dev.remaining_reads(), 9);
}

#[test]
fn device_wraps_line_failures() {
    let mut dev = Device::new(Echo { held: vec![], asked: 0, broken: true }, 10);
    assert!(matches!(dev.send(1), Err(Error::Device("cannot send"))));
    assert!(matches!(dev.recv(Duration::zero()), Err(Error::Device("cannot receive"))));
    assert_eq!(dev.remaining_reads(), 9);
}

#[test]
fn device_without_reads_does_not_ask_the_line() {
    let mut dev = Device::new(Echo { held: vec![1, 2, 3], asked: 0, broken: false }, 1);
    assert!(matches!(dev.recv(Duration::zero()), Ok(1)));
    assert!(matches!(dev.recv(Duration::zero()), Err(Error::TimedOut)));
    assert!(matches!(dev.recv(Duration::zero()), Err(Error::TimedOut)));
    assert_eq!(dev.remaining_reads(), 0);
    // Sending is not bounded.
    dev.send(9).unwrap();
}

#[test]
fn copy_into_writes_a_window() {
    let mut dst = [0u8; 8];
    copy_into(&mut dst, 2, &[1, 2, 3, 4, 5], 3);
    assert_eq!(dst, [0, 0, 1, 2, 3, 0, 0, 0]);
    copy_into(&mut dst, 5, &[9, 9, 9], 3);
    assert_eq!(dst, [0, 0, 1, 2, 3, 9, 9, 9]);
    copy_into(&mut dst, 8, &[7], 0);
    copy_into(&mut dst, 0, &[], 0);
    assert_eq!(dst, [0, 0, 1, 2, 3, 9, 9, 9]);
}
