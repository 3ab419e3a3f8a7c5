use poomas::codec::{decode_store, encode_store};
use poomas::jobdb::{Job, Jobs};

fn sample(id: u64, command: &str, time: u64) -> Job {
    Job {
        id,
        command: command.to_owned(),
        time,
    }
}

#[test]
fn empty_text_is_the_empty_store() {
    let jobs = decode_store("").unwrap();
    assert!(jobs.db.is_empty());
    assert_eq!(encode_store(&jobs), "");
}

#[test]
fn encoding_is_readable_text() {
    let jobs = Jobs {
        db: vec![sample(0, "echo hi", 3)],
    };
    let text = encode_store(&jobs);
    assert_eq!(text, "[[db]]\nid = 0\ncommand = \"echo hi\"\ntime = 3\n");
}

#[test]
fn round_trip_keeps_records_and_order() {
    let jobs = Jobs {
        db: vec![
            sample(0, "plain command", 1),
            sample(1, "quote \" and backslash \\ inside", 2),
            sample(2, "newline\nand tab\tinside", 3),
            sample(7, "", 0),
        ],
    };
    let text = encode_store(&jobs);
    let back = decode_store(&text).unwrap();
    assert_eq!(back.db, jobs.db);
    // a second encode of the decoded store gives the very same text
    assert_eq!(encode_store(&back), text);
}

#[test]
fn malformed_texts_fail_to_decode() {
    // not a store at all
    assert!(decode_store("garbage").is_none());
    // header only, record cut short
    assert!(decode_store("[[db]]\n").is_none());
    // a leading zero is not the canonical numeral
    assert!(decode_store("[[db]]\nid = 01\ncommand = \"x\"\ntime = 0\n").is_none());
    // unterminated command string
    assert!(decode_store("[[db]]\nid = 0\ncommand = \"x\ntime = 0\n").is_none());
    // unknown escape
    assert!(decode_store("[[db]]\nid = 0\ncommand = \"\\x\"\ntime = 0\n").is_none());
    // missing final newline
    assert!(decode_store("[[db]]\nid = 0\ncommand = \"x\"\ntime = 0").is_none());
    // trailing garbage after a good record
    assert!(decode_store("[[db]]\nid = 0\ncommand = \"x\"\ntime = 0\nextra").is_none());
    // an id too large for the store
    assert!(decode_store("[[db]]\nid = 18446744073709551616\ncommand = \"x\"\ntime = 0\n")
        .is_none());
}

#[test]
fn encoded_store_parses_as_toml() {
    let jobs = Jobs {
        db: vec![sample(0, "echo \"quoted\"", 12), sample(1, "sleep 1", 1)],
    };
    let text = encode_store(&jobs);
    let value: toml::Value = toml::from_str(&text).unwrap();
    let db = value["db"].as_array().unwrap();
    assert_eq!(db.len(), 2);
    assert_eq!(db[0]["id"].as_integer(), Some(0));
    assert_eq!(db[0]["command"].as_str(), Some("echo \"quoted\""));
    assert_eq!(db[0]["time"].as_integer(), Some(12));
    assert_eq!(db[1]["id"].as_integer(), Some(1));
    assert_eq!(db[1]["command"].as_str(), Some("sleep 1"));
    assert_eq!(db[1]["time"].as_integer(), Some(1));
}
