use protohackers::database::Database;

fn text(reply: Option<Vec<u8>>) -> Option<String> {
    reply.map(|r| String::from_utf8(r).unwrap())
}

#[test]
fn store_then_query() {
    let mut db = Database::new();
    assert_eq!(db.handle_packet(b"foo=bar"), None);
    assert_eq!(text(db.handle_packet(b"foo")), Some("foo=bar".to_string()));
    assert_eq!(db.handle_packet(b"foo=baz"), None);
    assert_eq!(text(db.handle_packet(b"foo")), Some("foo=baz".to_string()));
}

#[test]
fn value_keeps_later_separators() {
    let mut db = Database::new();
    assert_eq!(db.handle_packet(b"foo=bar=baz"), None);
    assert_eq!(text(db.handle_packet(b"foo")), Some("foo=bar=baz".to_string()));
    assert_eq!(db.handle_packet(b"=empty key"), None);
    assert_eq!(text(db.handle_packet(b"")), Some("=empty key".to_string()));
    assert_eq!(db.handle_packet(b"nothing="), None);
    assert_eq!(text(db.handle_packet(b"nothing")), Some("nothing=".to_string()));
}

#[test]
fn missing_key_gives_empty_value() {
    let mut db = Database::new();
    assert_eq!(text(db.handle_packet(b"absent")), Some("absent=".to_string()));
}

#[test]
fn version_is_answered_and_not_overridden() {
    let mut db = Database::new();
    assert_eq!(
        text(db.handle_packet(b"version")),
        Some("version=Samy's database - 1.0.0".to_string())
    );
    assert_eq!(db.handle_packet(b"version=mine"), None);
    assert_eq!(
        text(db.handle_packet(b"version")),
        Some("version=Samy's database - 1.0.0".to_string())
    );
}

#[test]
fn invalid_utf8_is_ignored() {
    let mut db = Database::new();
    assert_eq!(db.handle_packet(&[0xFF, b'=', b'x']), None);
    assert_eq!(db.handle_packet(&[0xC3]), None);
    assert_eq!(text(db.handle_packet(&[0xFF, 0xFE])), None);
    assert_eq!(db.get(&[0xFF]), None);
    assert_eq!(db.handle_packet("clé=été".as_bytes()), None);
    assert_eq!(text(db.handle_packet("clé".as_bytes())), Some("clé=été".to_string()));
}

#[test]
fn insert_and_get_directly() {
    let mut db = Database::new();
    db.insert(b"k".to_vec(), b"v1".to_vec());
    db.insert(b"k".to_vec(), b"v2".to_vec());
    db.insert(b"j".to_vec(), b"w".to_vec());
    assert_eq!(db.get(b"k"), Some(&b"v2".to_vec()));
    assert_eq!(db.get(b"j"), Some(&b"w".to_vec()));
    assert_eq!(db.get(b"x"), None);
}
