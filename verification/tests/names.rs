use di_engine::names::{name_id, NAME_SEED};

#[test]
fn the_empty_name_has_the_seed() {
    assert_eq!(name_id(b""), NAME_SEED);
    assert_eq!(name_id(b""), 0xcbf29ce484222325);
}

#[test]
fn names_have_their_known_identities() {
    assert_eq!(name_id(b"a"), 0xaf63dc4c8601ec8c);
    assert_eq!(name_id(b"foobar"), 0x85944171f73967e8);
}

#[test]
fn different_names_differ() {
    assert_ne!(name_id(b"Logger"), name_id(b"Sink"));
    assert_ne!(name_id(b"ab"), name_id(b"ba"));
}
