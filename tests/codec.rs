use shared_save::codec::{parse, serialize, ParseError, FORMAT_VERSION};
use shared_save::command::{parse_command, Command};
use shared_save::model::{Craft, CraftStatus, SaveWorld, WorldSettings};

fn sample() -> SaveWorld {
    SaveWorld {
        crafts: vec![
            Craft {
                id: b"001".to_vec(),
                name: b"Station Core".to_vec(),
                author: b"ann".to_vec(),
                payload: vec![0, 1, 2, 255],
                status: CraftStatus::Active,
            },
            Craft {
                id: b"002".to_vec(),
                name: b"Debris".to_vec(),
                author: vec![],
                payload: vec![],
                status: CraftStatus::Destroyed,
            },
        ],
        settings: WorldSettings { total_play_time_seconds: 123456789, passthrough: b"cheats=off".to_vec() },
        persistent_data: vec![9, 8, 7],
    }
}

fn same(a: &SaveWorld, b: &SaveWorld) -> bool {
    a.crafts.len() == b.crafts.len()
        && a.crafts.iter().zip(b.crafts.iter()).all(|(x, y)| {
            x.id == y.id && x.name == y.name && x.author == y.author && x.payload == y.payload && x.status == y.status
        })
        && a.settings.total_play_time_seconds == b.settings.total_play_time_seconds
        && a.settings.passthrough == b.settings.passthrough
        && a.persistent_data == b.persistent_data
}

#[test]
fn round_trip_restores_every_field() {
    let w = sample();
    let bytes = serialize(&w);
    let back = parse(&bytes).unwrap();
    assert!(same(&w, &back));
}

#[test]
fn round_trip_of_empty_world() {
    let w = SaveWorld {
        crafts: vec![],
        settings: WorldSettings { total_play_time_seconds: 0, passthrough: vec![] },
        persistent_data: vec![],
    };
    let bytes = serialize(&w);
    assert_eq!(bytes.len(), 5 + 8 + 8 + 8 + 8);
    assert_eq!(&bytes[0..5], &[83, 87, 76, 68, FORMAT_VERSION]);
    assert!(same(&w, &parse(&bytes).unwrap()));
}

#[test]
fn play_time_is_written_little_endian() {
    let mut w = sample();
    w.crafts.clear();
    w.settings.total_play_time_seconds = 0x0102;
    let bytes = serialize(&w);
    assert_eq!(&bytes[5..13], &[2, 1, 0, 0, 0, 0, 0, 0]);
}

#[test]
fn parse_rejects_short_or_foreign_input() {
    assert_eq!(parse(&vec![]).unwrap_err(), ParseError::MalformedSave);
    assert_eq!(parse(&b"XXXX\x01".to_vec()).unwrap_err(), ParseError::MalformedSave);
}

#[test]
fn parse_rejects_other_versions() {
    let mut bytes = serialize(&sample());
    bytes[4] = 2;
    assert_eq!(parse(&bytes).unwrap_err(), ParseError::UnsupportedVersion);
}

#[test]
fn parse_rejects_truncated_and_trailing_bytes() {
    let bytes = serialize(&sample());
    let cut = bytes[..bytes.len() - 1].to_vec();
    assert_eq!(parse(&cut).unwrap_err(), ParseError::MalformedSave);
    let mut longer = bytes.clone();
    longer.push(0);
    assert_eq!(parse(&longer).unwrap_err(), ParseError::MalformedSave);
}

#[test]
fn parse_rejects_unknown_status_and_duplicate_ids() {
    let mut bytes = serialize(&sample());
    let last = bytes.len() - 1;
    bytes[last] = 7;
    assert_eq!(parse(&bytes).unwrap_err(), ParseError::MalformedSave);
    let mut w = sample();
    w.crafts[1].id = b"001".to_vec();
    assert_eq!(parse(&serialize(&w)).unwrap_err(), ParseError::MalformedSave);
}

#[test]
fn commands_ignore_line_breaks() {
    assert_eq!(parse_command(b"update\r\n"), Some(Command::Update));
    assert_eq!(parse_command(b"upload\n"), Some(Command::Upload));
    assert_eq!(parse_command(b"rules"), Some(Command::Rules));
    assert_eq!(parse_command(b"help\n"), Some(Command::Help));
    assert_eq!(parse_command(b"quit\r\n"), Some(Command::Quit));
    assert_eq!(parse_command(b"dance\n"), None);
    assert_eq!(parse_command(b""), None);
}
