use parva_os::ata::{
    bytes_word, init, select_drive, setup, word_bytes, Action, Bus, Command, Event, Register,
    Status, Transfer,
};

/// Runs a transfer against a drive that answers every byte read with what
/// `byte` gives for the port and the number of the read, every word read
/// with its number, and every look at the clock with `nanos`.
fn run(
    transfer: &mut Transfer,
    byte: &dyn Fn(u16, usize) -> u8,
    nanos: u64,
) -> Vec<Action> {
    let mut trace = Vec::new();
    let mut reads = 0usize;
    let mut words = 0u16;
    let mut action = transfer.action();
    while action != Action::Stop {
        assert!(trace.len() < 10_000, "the transfer does not end");
        trace.push(action);
        let event = match action {
            Action::In8 { port } => {
                reads += 1;
                Event::Byte(byte(port, reads))
            }
            Action::In16 { .. } => {
                words += 1;
                Event::Word(0x0100 + words)
            }
            Action::Since => Event::Nanos(nanos),
            _ => Event::Done,
        };
        action = transfer.step(event);
    }
    assert!(transfer.is_over());
    trace
}

fn primary() -> Bus {
    Bus::new(0, 0x1F0, 0x3F6, 14)
}

#[test]
fn registers_of_the_two_channels() {
    let buses = init();
    assert_eq!(buses.len(), 2);
    assert_eq!(buses[0], Bus { id: 0, irq: 14, io_base: 0x1F0, ctrl_base: 0x3F6 });
    assert_eq!(buses[1], Bus { id: 1, irq: 15, io_base: 0x170, ctrl_base: 0x376 });
    let bus = buses[0];
    assert_eq!(bus.port(Register::Data), 0x1F0);
    assert_eq!(bus.port(Register::Error), 0x1F1);
    assert_eq!(bus.port(Register::Features), 0x1F1);
    assert_eq!(bus.port(Register::SectorCount), 0x1F2);
    assert_eq!(bus.port(Register::Lba0), 0x1F3);
    assert_eq!(bus.port(Register::Lba1), 0x1F4);
    assert_eq!(bus.port(Register::Lba2), 0x1F5);
    assert_eq!(bus.port(Register::Drive), 0x1F6);
    assert_eq!(bus.port(Register::Status), 0x1F7);
    assert_eq!(bus.port(Register::Command), 0x1F7);
    assert_eq!(bus.port(Register::AlternateStatus), 0x3F6);
    assert_eq!(bus.port(Register::Control), 0x3F6);
    assert_eq!(bus.port(Register::DriveAddress), 0x3F7);
    assert_eq!(buses[1].port(Register::Status), 0x177);
}

#[test]
fn command_codes_and_status_bits() {
    assert_eq!(Command::Read.code(), 0x20);
    assert_eq!(Command::Write.code(), 0x30);
    assert_eq!(Command::Identify.code(), 0xEC);
    assert_eq!(Status::Error.bit(), 0);
    assert_eq!(Status::DataRequest.bit(), 3);
    assert_eq!(Status::DeviceReady.bit(), 6);
    assert_eq!(Status::Busy.bit(), 7);
    assert!(Status::Busy.is_set(0x80));
    assert!(!Status::Busy.is_set(0x7F));
    assert!(Status::Error.is_set(0x01));
    assert!(!Status::Error.is_set(0xFE));
    assert!(Status::DeviceReady.is_set(0x40));
}

#[test]
fn bytes_that_select_and_address() {
    assert_eq!(select_drive(0), 0xA0);
    assert_eq!(select_drive(1), 0xB0);
    assert_eq!(setup(0, 0), [0xE0, 1, 0, 0, 0]);
    assert_eq!(setup(1, 0x0ABC_DEF1), [0xFA, 1, 0xF1, 0xDE, 0xBC]);
    assert_eq!(setup(0, 0xF123_4567), [0xE1, 1, 0x67, 0x45, 0x23]);
    assert_eq!(setup(1, 2048), [0xF0, 1, 0x00, 0x08, 0x00]);
}

#[test]
fn words_carry_the_low_byte_first() {
    assert_eq!(word_bytes(0xABCD), (0xCD, 0xAB));
    assert_eq!(word_bytes(0x00FF), (0xFF, 0x00));
    assert_eq!(bytes_word(0xCD, 0xAB), 0xABCD);
    assert_eq!(bytes_word(0xFF, 0x00), 0x00FF);
    assert_eq!(bytes_word(0x00, 0x01), 0x0100);
}

#[test]
fn read_programs_the_channel_in_order() {
    let mut transfer = primary().read(1, 0x0012_3456);
    let trace = run(&mut transfer, &|_, _| 0x40, 0);
    let expect = [
        Action::Out8 { port: 0x1F6, value: 0xF0 },
        Action::Out8 { port: 0x1F2, value: 1 },
        Action::Out8 { port: 0x1F3, value: 0x56 },
        Action::Out8 { port: 0x1F4, value: 0x34 },
        Action::Out8 { port: 0x1F5, value: 0x12 },
        Action::Out8 { port: 0x1F7, value: 0x20 },
        Action::In8 { port: 0x3F6 },
        Action::In8 { port: 0x3F6 },
        Action::In8 { port: 0x3F6 },
        Action::In8 { port: 0x3F6 },
        Action::Mark,
        Action::In8 { port: 0x1F7 },
        Action::In16 { port: 0x1F0 },
    ];
    assert_eq!(&trace[..13], &expect);
    assert_eq!(trace.len(), 12 + 256);
    assert!(trace[12..].iter().all(|a| *a == Action::In16 { port: 0x1F0 }));
    assert!(transfer.succeeded());
    let sector = transfer.sector().expect("the sector was read");
    assert_eq!(&sector[0..4], &[0x01, 0x01, 0x02, 0x01]);
    assert_eq!(&sector[510..512], &[0x00, 0x02]);
    assert!(transfer.identity().is_none());
}

#[test]
fn read_waits_while_the_drive_is_busy() {
    let mut transfer = primary().read(0, 7);
    let trace = run(&mut transfer, &|port, n| if port == 0x1F7 && n < 8 { 0x80 } else { 0x40 }, 10);
    assert!(transfer.succeeded());
    let polls = trace.iter().filter(|a| **a == Action::In8 { port: 0x1F7 }).count();
    let clocks = trace.iter().filter(|a| **a == Action::Since).count();
    assert_eq!(polls, 4);
    assert_eq!(clocks, 3);
    assert_eq!(trace.iter().filter(|a| **a == Action::Mark).count(), 1);
}

#[test]
fn busy_for_more_than_a_second_resets_and_gives_up() {
    let mut transfer = primary().read(0, 7);
    let trace = run(&mut transfer, &|_, _| 0x80, 1_000_000_001);
    assert!(transfer.is_over());
    assert!(!transfer.succeeded());
    assert!(transfer.sector().is_none());
    let tail = &trace[trace.len() - 6..];
    let expect = [
        Action::In8 { port: 0x1F7 },
        Action::Since,
        Action::Out8 { port: 0x3F6, value: 4 },
        Action::Delay { nanos: 5 },
        Action::Out8 { port: 0x3F6, value: 0 },
        Action::Delay { nanos: 2000 },
    ];
    assert_eq!(tail, &expect);
    assert!(!trace.iter().any(|a| matches!(a, Action::In16 { .. })));
}

#[test]
fn a_second_exactly_is_not_yet_too_long() {
    let mut transfer = primary().read(0, 7);
    let trace = run(&mut transfer, &|_, n| if n < 7 { 0x80 } else { 0 }, 1_000_000_000);
    assert!(transfer.succeeded());
    assert!(!trace.contains(&Action::Out8 { port: 0x3F6, value: 4 }));
}

#[test]
fn write_gives_the_words_and_waits_again() {
    let mut buf = [0u8; 512];
    for (i, b) in buf.iter_mut().enumerate() {
        *b = (i % 256) as u8;
    }
    let mut transfer = primary().write(0, 0x0100_0000, &buf);
    let trace = run(&mut transfer, &|_, _| 0, 0);
    assert!(transfer.succeeded());
    assert_eq!(trace[0], Action::Out8 { port: 0x1F6, value: 0xE1 });
    assert_eq!(trace[5], Action::Out8 { port: 0x1F7, value: 0x30 });
    assert_eq!(trace[12], Action::Out16 { port: 0x1F0, value: 0x0100 });
    assert_eq!(trace[13], Action::Out16 { port: 0x1F0, value: 0x0302 });
    assert_eq!(trace[12 + 255], Action::Out16 { port: 0x1F0, value: 0xFFFE });
    let after = &trace[12 + 256..];
    let expect = [
        Action::In8 { port: 0x3F6 },
        Action::In8 { port: 0x3F6 },
        Action::In8 { port: 0x3F6 },
        Action::In8 { port: 0x3F6 },
        Action::Mark,
        Action::In8 { port: 0x1F7 },
    ];
    assert_eq!(after, &expect);
    assert!(transfer.sector().is_none());
}

#[test]
fn write_that_never_completes_gives_up() {
    let buf = [0u8; 512];
    let mut transfer = primary().write(0, 1, &buf);
    let trace = run(&mut transfer, &|port, n| if port == 0x1F7 && n > 5 { 0x80 } else { 0 }, 2_000_000_000);
    assert!(transfer.is_over());
    assert!(!transfer.succeeded());
    assert_eq!(trace.iter().filter(|a| matches!(a, Action::Out16 { .. })).count(), 256);
    assert_eq!(trace[trace.len() - 1], Action::Delay { nanos: 2000 });
}

#[test]
fn identify_takes_256_words() {
    let mut transfer = primary().identify_drive(1);
    let trace = run(
        &mut transfer,
        &|port, _| match port {
            0x1F7 => 0x40,
            _ => 0,
        },
        0,
    );
    let head = [
        Action::Out8 { port: 0x3F6, value: 4 },
        Action::Delay { nanos: 5 },
        Action::Out8 { port: 0x3F6, value: 0 },
        Action::Delay { nanos: 2000 },
        Action::In8 { port: 0x3F6 },
        Action::In8 { port: 0x3F6 },
        Action::In8 { port: 0x3F6 },
        Action::In8 { port: 0x3F6 },
        Action::Out8 { port: 0x1F6, value: 0xB0 },
        Action::Out8 { port: 0x1F2, value: 0 },
        Action::Out8 { port: 0x1F3, value: 0 },
        Action::Out8 { port: 0x1F4, value: 0 },
        Action::Out8 { port: 0x1F5, value: 0 },
        Action::Out8 { port: 0x1F7, value: 0xEC },
        Action::In8 { port: 0x1F7 },
        Action::In8 { port: 0x3F6 },
        Action::In8 { port: 0x3F6 },
        Action::In8 { port: 0x3F6 },
        Action::In8 { port: 0x3F6 },
        Action::Mark,
        Action::In8 { port: 0x1F7 },
        Action::In8 { port: 0x1F4 },
        Action::In8 { port: 0x1F5 },
        Action::In8 { port: 0x1F7 },
        Action::In8 { port: 0x1F7 },
        Action::In16 { port: 0x1F0 },
    ];
    assert_eq!(&trace[..26], &head);
    assert_eq!(trace.len(), 25 + 256);
    assert!(transfer.succeeded());
    let words = transfer.identity().expect("the drive was identified");
    assert_eq!(words.len(), 256);
    assert_eq!(words[0], 0x0101);
    assert_eq!(words[255], 0x0200);
    assert!(transfer.sector().is_none());
}

#[test]
fn identify_finds_no_drive_where_the_status_is_zero() {
    let mut transfer = primary().identify_drive(0);
    let trace = run(&mut transfer, &|_, _| 0, 0);
    assert!(!transfer.succeeded());
    assert!(transfer.identity().is_none());
    assert_eq!(trace.len(), 15);
    assert_eq!(trace[14], Action::In8 { port: 0x1F7 });
}

#[test]
fn identify_refuses_a_packet_device() {
    let mut transfer = primary().identify_drive(0);
    let trace = run(&mut transfer, &|port, _| if port == 0x1F4 { 0x14 } else { 0x40 }, 0);
    assert!(!transfer.succeeded());
    assert_eq!(trace[trace.len() - 1], Action::In8 { port: 0x1F4 });
    let mut transfer = primary().identify_drive(0);
    let trace = run(
        &mut transfer,
        &|port, _| match port {
            0x1F4 => 0,
            0x1F5 => 0xEB,
            _ => 0x40,
        },
        0,
    );
    assert!(!transfer.succeeded());
    assert_eq!(trace[trace.len() - 1], Action::In8 { port: 0x1F5 });
}

#[test]
fn identify_stops_on_the_error_bit() {
    let mut transfer = primary().identify_drive(0);
    let trace = run(&mut transfer, &|port, _| if port == 0x1F7 { 0x41 } else { 0 }, 0);
    assert!(!transfer.succeeded());
    assert!(transfer.identity().is_none());
    assert_eq!(trace.len(), 24);
}

#[test]
fn identify_gives_up_after_256_polls() {
    let mut transfer = primary().identify_drive(0);
    let trace = run(&mut transfer, &|port, _| if port == 0x1F7 { 0x08 } else { 0 }, 0);
    assert!(!transfer.succeeded());
    let polls = trace[23..].iter().filter(|a| **a == Action::In8 { port: 0x1F7 }).count();
    assert_eq!(polls, 512);
    assert_eq!(trace.len(), 23 + 512 + 4);
    assert_eq!(trace[trace.len() - 4], Action::Out8 { port: 0x3F6, value: 4 });
}

#[test]
fn transfers_are_made_for_a_channel_of_the_registry() {
    let buses = init();
    let transfer = parva_os::ata::read(&buses, 1, 0, 9);
    assert_eq!(transfer.action(), Action::Out8 { port: 0x176, value: 0xE0 });
    let buf = [0u8; 512];
    let transfer = parva_os::ata::write(&buses, 0, 1, 9, &buf);
    assert_eq!(transfer.action(), Action::Out8 { port: 0x1F6, value: 0xF0 });
}

#[test]
fn disk_sizes_in_mebibytes_and_gibibytes() {
    assert_eq!(parva_os::ata::disk_size(0), (0, String::from("MB")));
    assert_eq!(parva_os::ata::disk_size(2048), (1, String::from("MB")));
    assert_eq!(parva_os::ata::disk_size(2047), (0, String::from("MB")));
    assert_eq!(parva_os::ata::disk_size(65536), (32, String::from("MB")));
    assert_eq!(parva_os::ata::disk_size(2048 * 999), (999, String::from("MB")));
    assert_eq!(parva_os::ata::disk_size(2048 * 1000), (0, String::from("GB")));
    assert_eq!(parva_os::ata::disk_size(0x20_0000), (1, String::from("GB")));
    assert_eq!(parva_os::ata::disk_size(0x80_0000), (4, String::from("GB")));
    assert_eq!(parva_os::ata::disk_size(u32::MAX), (2047, String::from("GB")));
}

#[test]
fn identification_names_the_drive() {
    let mut words = vec![0u16; 256];
    let serial = b"  QM00001           ";
    for i in 0..10 {
        words[10 + i] = (serial[2 * i] as u16) << 8 | serial[2 * i + 1] as u16;
    }
    let model = b"QEMU HARDDISK                           ";
    for i in 0..20 {
        words[27 + i] = (model[2 * i] as u16) << 8 | model[2 * i + 1] as u16;
    }
    words[60] = 0x0000;
    words[61] = 0x0001;
    let entry = parva_os::ata::describe(1, 0, &words);
    assert_eq!(entry.0, 1);
    assert_eq!(entry.1, 0);
    assert_eq!(entry.2, "QEMU HARDDISK");
    assert_eq!(entry.3, "QM00001");
    assert_eq!(entry.4, 32);
    assert_eq!(entry.5, "MB");
    assert_eq!(parva_os::ata::identify_text(&words, 27, 29), "QEMU");
    assert_eq!(parva_os::ata::identify_text(&words, 30, 30), "");
    let found = vec![(0u8, 1u8, words.clone()), (1u8, 0u8, vec![0x2020u16; 256])];
    let listed = parva_os::ata::list(&found);
    assert_eq!(listed.len(), 2);
    assert_eq!(listed[0].2, "QEMU HARDDISK");
    assert_eq!((listed[0].0, listed[0].1), (0, 1));
    assert_eq!(listed[1].2, "");
    assert_eq!(listed[1].3, "");
    assert_eq!(listed[1].4, 257);
    assert_eq!(listed[1].5, "GB");
}

#[test]
fn trimming_takes_white_space_from_both_ends_only() {
    assert_eq!(parva_os::text::trim(b"  a b \t\r\n"), b"a b");
    assert_eq!(parva_os::text::trim(b"\x0B\x0C\x85\xA0x\xA0"), b"x");
    assert_eq!(parva_os::text::trim(b"   "), b"");
    assert_eq!(parva_os::text::trim(b""), b"");
    assert_eq!(parva_os::text::trim(b"\x08x\x0E"), b"\x08x\x0E");
    assert!(parva_os::text::space(b' '));
    assert!(!parva_os::text::space(b'a'));
    assert_eq!(parva_os::text::string_of(b"abc"), "abc");
    assert_eq!(parva_os::text::string_of(&[0xE9]), "\u{E9}");
}
