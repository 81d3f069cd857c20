use kernel::console::{console_step, Arrow, ConsoleAction, ConsoleState};
use kernel::drivers::serial::{self, read_ready, Serial, SerialState};
use kernel::drivers::time::pit::{self, Ticks};
use kernel::drivers::time::pvclock::{available, reading_consistent, TimeInfo};
use kernel::drivers::{bytes_eq, bytes_le, init_order, Driver};

#[test]
fn serial_adds_a_carriage_return_after_a_line_feed() {
    assert_eq!(serial::write(b'a'), vec![b'a']);
    assert_eq!(serial::write(b'\n'), vec![b'\n', b'\r']);
    let mut s = Serial;
    assert_eq!(s.write_str("hi\nyo"), b"hi\n\ryo".to_vec());
    assert_eq!(s.write_str(""), Vec::<u8>::new());
    assert_eq!(s.write_str("\n\n"), b"\n\r\n\r".to_vec());
}

#[test]
fn serial_is_set_up_once() {
    let mut st = SerialState::new();
    assert_eq!(serial::init(&mut st), Some((serial::FIFO_CONTROL, 0x01)));
    assert_eq!(serial::init(&mut st), None);
}

#[test]
fn serial_read_ready_is_bit_zero() {
    assert!(read_ready(0x61));
    assert!(!read_ready(0x60));
}

#[test]
fn console_echoes_and_decodes_arrow_keys() {
    let n = ConsoleState::Normal;
    assert_eq!(console_step(n, Some(b'x')), (n, ConsoleAction::Echo(b'x')));
    assert_eq!(console_step(n, Some(13)), (n, ConsoleAction::Newline));
    assert_eq!(console_step(n, Some(127)), (n, ConsoleAction::Erase));
    assert_eq!(console_step(n, None), (n, ConsoleAction::Yield));
    let (s, a) = console_step(n, Some(27));
    assert_eq!((s, a), (ConsoleState::Escape, ConsoleAction::Read));
    let (s, a) = console_step(s, Some(91));
    assert_eq!((s, a), (ConsoleState::Bracket, ConsoleAction::Read));
    assert_eq!(console_step(s, Some(65)), (n, ConsoleAction::Key(Arrow::Up)));
    assert_eq!(console_step(s, Some(66)), (n, ConsoleAction::Key(Arrow::Down)));
    assert_eq!(console_step(s, Some(67)), (n, ConsoleAction::Key(Arrow::Right)));
    assert_eq!(console_step(s, Some(68)), (n, ConsoleAction::Key(Arrow::Left)));
    assert_eq!(console_step(s, Some(70)), (n, ConsoleAction::UnknownEscape(70)));
    assert_eq!(console_step(s, None), (n, ConsoleAction::Read));
}

#[test]
fn console_drops_an_escape_without_bracket() {
    let (s, _) = console_step(ConsoleState::Normal, Some(27));
    assert_eq!(console_step(s, Some(b'a')), (ConsoleState::Normal, ConsoleAction::Read));
    assert_eq!(console_step(s, None), (ConsoleState::Normal, ConsoleAction::Read));
}

#[test]
fn pit_programs_a_one_millisecond_tick() {
    assert_eq!(pit::init_sequence(), vec![(3, 0x34), (0, 0xa9), (0, 0x04)]);
    assert_eq!(pit::DIVISOR as u64, pit::FREQUENCY / pit::I_REQ_TIME_STEP);
    let mut t = Ticks::new();
    t.tick();
    t.tick();
    assert_eq!(t.count(), 2);
}

fn info(version: u32, shift: i8) -> TimeInfo {
    TimeInfo {
        version,
        tsc_timestamp: 1000,
        system_time: 5_000,
        tsc_to_system_mul: 0x8000_0000,
        tsc_shift: shift,
        flags: 0,
    }
}

#[test]
fn pvclock_scales_the_counter() {
    // (3000 - 1000) << 1 = 4000; 4000 * 2^31 >> 32 = 2000; + 5000
    assert_eq!(info(2, 1).get_nanoseconds(3000), Some(7000));
    // (3000 - 1000) >> 1 = 1000; 1000 / 2 = 500; + 5000
    assert_eq!(info(2, -1).get_nanoseconds(3000), Some(5500));
    assert_eq!(info(2, 0).get_nanoseconds(1000), Some(5000));
    assert_eq!(info(3, 0).get_nanoseconds(3000), None);
}

#[test]
fn pvclock_checks() {
    assert!(available(8));
    assert!(!available(7));
    assert!(reading_consistent(4, 4));
    assert!(!reading_consistent(4, 6));
    assert!(!reading_consistent(5, 5));
}

#[test]
fn byte_strings_compare_in_dictionary_order() {
    assert!(bytes_le(b"abc", b"abd"));
    assert!(bytes_le(b"ab", b"abc"));
    assert!(!bytes_le(b"abc", b"ab"));
    assert!(bytes_le(b"", b""));
    assert!(bytes_le(b"PIT", b"serial"));
    assert!(!bytes_le(b"serial", b"PIT"));
    assert!(bytes_eq(b"abc", b"abc"));
    assert!(!bytes_eq(b"abc", b"abd"));
    assert!(!bytes_eq(b"ab", b"abc"));
}

#[test]
fn drivers_are_set_up_in_order_of_name() {
    let drivers = vec![
        Driver::new("serial", vec![]),
        Driver::new("PIT", vec![("serial", None), ("PIT", None)]),
        Driver::new("__placeholder", vec![]),
        Driver::new("acpi", vec![]),
    ];
    assert_eq!(init_order(&drivers), vec![1, 2, 3, 0]);
    assert_eq!(init_order(&Vec::new()), Vec::<usize>::new());
}

#[test]
fn driver_requirements_are_found_by_name() {
    let d = Driver::new("PIT", vec![("serial", Some(3)), ("PIT", None), ("serial", Some(7))]);
    assert_eq!(d.name(), "PIT");
    assert_eq!(d.requirements().len(), 3);
    assert_eq!(d.requirement("serial"), Some(3));
    assert_eq!(d.requirement("PIT"), None);
}

#[test]
fn sending_two_strings_sends_their_bytes_in_turn() {
    let mut s = Serial;
    let mut both = s.write_str("a\nb");
    both.extend(s.write_str("\nc"));
    assert_eq!(s.write_str("a\nb\nc"), both);
}
