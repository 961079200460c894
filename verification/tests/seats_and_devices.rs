use sessionman::load_devices_udev::{load_devices_from_udev, parse_dev};
use sessionman::seat::{Device, Seat, SeatId};

fn device(path: &[u8], tag: Option<&str>) -> Device {
    Device { dev_name: path.to_vec(), seat_tag: tag.map(|t| t.to_string()) }
}

fn paths(seat: &Seat) -> Vec<Vec<u8>> {
    seat.devices().iter().map(|d| d.dev_name.clone()).collect()
}

#[test]
fn seat_ids_compare_by_name() {
    assert_eq!(SeatId::from("seat0"), SeatId::from("seat0"));
    assert_ne!(SeatId::from("seat0"), SeatId::from("seat1"));
    assert_eq!(SeatId::from("seat0").clone(), SeatId::from("seat0"));
    assert_eq!(SeatId::from("seat0").as_str(), "seat0");
}

#[test]
fn get_seat_takes_what_discovery_reports() {
    let seat = Seat::get_seat(
        "seat0",
        &vec![device(b"/dev/dri/card0", Some("seat0")), device(b"/dev/input/event3", None)],
    )
    .unwrap();
    assert_eq!(seat.id(), &SeatId::from("seat0"));
    assert_eq!(paths(&seat), vec![b"/dev/dri/card0".to_vec(), b"/dev/input/event3".to_vec()]);
    assert_eq!(seat.devices()[0].seat_tag, Some("seat0".to_string()));
    assert_eq!(seat.devices()[1].seat_tag, None);
}

#[test]
fn a_seat_may_have_no_device() {
    let seat = Seat::get_seat("seat7", &Vec::new()).unwrap();
    assert_eq!(seat.id(), &SeatId::from("seat7"));
    assert!(seat.devices().is_empty());
}

#[test]
fn the_last_report_of_a_path_counts() {
    let seat = Seat::get_seat(
        "seat0",
        &vec![
            device(b"/dev/a", Some("old")),
            device(b"/dev/b", None),
            device(b"/dev/a", Some("new")),
        ],
    )
    .unwrap();
    assert_eq!(paths(&seat), vec![b"/dev/a".to_vec(), b"/dev/b".to_vec()]);
    assert_eq!(seat.devices()[0].seat_tag, Some("new".to_string()));
}

#[test]
fn reload_adds_and_replaces_and_never_removes() {
    let mut seat =
        Seat::get_seat("seat0", &vec![device(b"/dev/a", None), device(b"/dev/b", None)]).unwrap();
    seat.reload_devices(&vec![device(b"/dev/c", None), device(b"/dev/a", Some("seat0"))]).unwrap();
    assert_eq!(seat.id(), &SeatId::from("seat0"));
    assert_eq!(paths(&seat), vec![b"/dev/a".to_vec(), b"/dev/b".to_vec(), b"/dev/c".to_vec()]);
    assert_eq!(seat.devices()[0].seat_tag, Some("seat0".to_string()));
    seat.reload_devices(&Vec::new()).unwrap();
    assert_eq!(paths(&seat), vec![b"/dev/a".to_vec(), b"/dev/b".to_vec(), b"/dev/c".to_vec()]);
}

#[test]
fn parse_dev_reads_a_tagged_device() {
    let block = b"P: /devices/pci0000:00/card0\nN: dri/card0\nE: DEVNAME=/dev/dri/card0\nE: TAGS=:master-of-seat:seat:uaccess:";
    let dev = parse_dev(block).unwrap();
    assert_eq!(dev.dev_name, b"/dev/dri/card0".to_vec());
    assert_eq!(dev.seat_tag, None);
}

#[test]
fn parse_dev_wants_the_seat_tag() {
    assert!(parse_dev(b"E: DEVNAME=/dev/sda\nE: TAGS=:systemd:").is_none());
    assert!(parse_dev(b"E: DEVNAME=/dev/sda").is_none());
    assert!(parse_dev(b"E: DEVNAME=/dev/sda\nE: ID_FOR_SEAT=:seat:").is_none());
    assert!(parse_dev(b"E: DEVNAME=/dev/sda\nE: TAGS=:seat").is_none());
}

#[test]
fn parse_dev_wants_a_path() {
    assert!(parse_dev(b"E: TAGS=:seat:").is_none());
    assert!(parse_dev(b"").is_none());
    assert!(parse_dev(b" E: DEVNAME=/dev/x\nE: TAGS=:seat:").is_none());
}

#[test]
fn parse_dev_takes_the_last_path_and_any_tag_line() {
    let dev = parse_dev(
        b"E: TAGS=:seat:\nE: DEVNAME=/dev/first\nE: TAGS=:other:\nE: DEVNAME=/dev/second\n",
    )
    .unwrap();
    assert_eq!(dev.dev_name, b"/dev/second".to_vec());
}

#[test]
fn parse_dev_strips_a_repeated_key() {
    let dev = parse_dev(b"E: DEVNAME=E: DEVNAME=/dev/x\nE: TAGS=:seat:").unwrap();
    assert_eq!(dev.dev_name, b"/dev/x".to_vec());
    let empty = parse_dev(b"E: DEVNAME=\nE: TAGS=:seat:").unwrap();
    assert_eq!(empty.dev_name, Vec::<u8>::new());
}

#[test]
fn load_devices_reads_block_by_block() {
    let raw = b"P: /a\nE: DEVNAME=/dev/a\nE: TAGS=:seat:\n\nP: /b\nE: DEVNAME=/dev/b\n\nP: /c\nE: DEVNAME=/dev/c\nE: TAGS=:x:seat:\n\n";
    let devs = load_devices_from_udev(raw);
    let names: Vec<Vec<u8>> = devs.iter().map(|d| d.dev_name.clone()).collect();
    assert_eq!(names, vec![b"/dev/a".to_vec(), b"/dev/c".to_vec()]);
}

#[test]
fn load_devices_passes_over_an_open_last_block() {
    let raw = b"E: DEVNAME=/dev/a\nE: TAGS=:seat:\n\nE: DEVNAME=/dev/b\nE: TAGS=:seat:\n";
    let devs = load_devices_from_udev(raw);
    assert_eq!(devs.len(), 1);
    assert_eq!(devs[0].dev_name, b"/dev/a".to_vec());
    assert!(load_devices_from_udev(b"").is_empty());
    assert!(load_devices_from_udev(b"\n").is_empty());
    assert!(load_devices_from_udev(b"E: DEVNAME=/dev/a\nE: TAGS=:seat:").is_empty());
}

#[test]
fn load_devices_survives_runs_of_empty_lines() {
    let raw = b"E: DEVNAME=/dev/a\nE: TAGS=:seat:\n\n\n\nE: DEVNAME=/dev/b\nE: TAGS=:seat:\n\n";
    let devs = load_devices_from_udev(raw);
    let names: Vec<Vec<u8>> = devs.iter().map(|d| d.dev_name.clone()).collect();
    assert_eq!(names, vec![b"/dev/a".to_vec(), b"/dev/b".to_vec()]);
}
