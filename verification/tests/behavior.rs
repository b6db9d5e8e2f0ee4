use traildb::{Constructor, Db, Error, Uuid};

fn uuid_n(n: u8) -> Uuid {
    let mut u = [0u8; 16];
    u[0] = n;
    u[15] = n.wrapping_mul(7);
    u
}

#[test]
fn end_to_end_scenario() {
    let fields = vec!["user", "action"];
    let mut cons = Constructor::new("scenario", &fields).unwrap();
    let vals = vec!["Alice", "login"];
    for n in 0..10u8 {
        let u = uuid_n(n);
        for ts in 0..10u64 {
            assert!(cons.add(&u, ts, &vals).is_ok());
        }
    }
    let image = cons.finalize().unwrap();
    let db = Db::open(&image).unwrap();
    assert_eq!(db.num_fields(), 3);
    assert_eq!(db.num_trails(), 10);
    assert_eq!(db.num_events(), 100);
    assert_eq!(db.min_timestamp(), 0);
    assert_eq!(db.max_timestamp(), 9);
    let mut iter = db.iter();
    let mut trails = 0;
    while let Some(mut trail) = iter.next() {
        let mut events = 0;
        while let Some(event) = trail.next() {
            assert_eq!(event.items.len(), 2);
            assert_eq!(db.get_item_value(event.items[0]).unwrap(), "Alice");
            assert_eq!(db.get_item_value(event.items[1]).unwrap(), "login");
            events += 1;
        }
        assert_eq!(events, 10);
        trails += 1;
    }
    assert_eq!(trails, 10);
}

#[test]
fn cursor_len_matches_iteration_and_rebinding_restarts() {
    let fields = vec!["color"];
    let mut cons = Constructor::new("cursors", &fields).unwrap();
    let u = uuid_n(1);
    for ts in 0..7u64 {
        let vals = vec![if ts % 2 == 0 { "red" } else { "blue" }];
        cons.add(&u, ts, &vals).unwrap();
    }
    let image = cons.finalize().unwrap();
    let db = Db::open(&image).unwrap();
    let mut cursor = db.cursor();
    cursor.get_trail(0).unwrap();
    assert_eq!(cursor.len(), 7);
    let mut yielded = 0;
    while let Some(_) = cursor.next() {
        yielded += 1;
    }
    assert_eq!(yielded, 7);
    assert!(cursor.next().is_none());
    // rebinding resets the position to the first event
    cursor.get_trail(0).unwrap();
    let first = cursor.next().unwrap();
    assert_eq!(first.timestamp, 0);
    let mut again = 1;
    while let Some(_) = cursor.next() {
        again += 1;
    }
    assert_eq!(again, 7);
}

#[test]
fn invalid_trail_id_leaves_cursor_usable() {
    let fields = vec!["f"];
    let mut cons = Constructor::new("badbind", &fields).unwrap();
    let vals = vec!["v"];
    cons.add(&uuid_n(3), 5, &vals).unwrap();
    let image = cons.finalize().unwrap();
    let db = Db::open(&image).unwrap();
    let mut cursor = db.cursor();
    assert_eq!(cursor.get_trail(db.num_trails()), Err(Error::InvalidTrailId));
    assert_eq!(cursor.get_trail(u64::MAX), Err(Error::InvalidTrailId));
    // still usable for a valid bind afterwards
    cursor.get_trail(0).unwrap();
    assert_eq!(cursor.len(), 1);
    assert_eq!(cursor.next().unwrap().timestamp, 5);
}

#[test]
fn uuid_trail_id_bijection() {
    let fields = vec!["f"];
    let mut cons = Constructor::new("bijection", &fields).unwrap();
    let vals = vec!["v"];
    for n in 0..20u8 {
        cons.add(&uuid_n(n), n as u64, &vals).unwrap();
    }
    let image = cons.finalize().unwrap();
    let db = Db::open(&image).unwrap();
    for n in 0..20u8 {
        let tid = db.get_trail_id(&uuid_n(n)).unwrap();
        assert_eq!(db.get_uuid(tid).unwrap(), uuid_n(n));
    }
    assert!(db.get_trail_id(&uuid_n(99)).is_none());
    assert!(db.get_uuid(20).is_none());
}

#[test]
fn interning_dedupes_and_round_trips_values() {
    let fields = vec!["word"];
    let mut cons = Constructor::new("values", &fields).unwrap();
    let words = ["alpha", "beta", "alpha", "gamma", "beta", ""];
    for (i, w) in words.iter().enumerate() {
        let vals = vec![*w];
        cons.add(&uuid_n(1), i as u64, &vals).unwrap();
    }
    let image = cons.finalize().unwrap();
    let db = Db::open(&image).unwrap();
    let mut trail = db.get_trail(0).unwrap();
    let mut i = 0;
    while let Some(event) = trail.next() {
        assert_eq!(db.get_item_value(event.items[0]).unwrap(), words[i]);
        i += 1;
    }
    assert_eq!(i, words.len());
}

#[test]
fn schema_errors_at_open() {
    assert_eq!(
        Constructor::new("dup", &vec!["a", "b", "a"]).err().unwrap(),
        Error::DuplicateFields
    );
    assert_eq!(
        Constructor::new("empty", &vec!["a", ""]).err().unwrap(),
        Error::InvalidFieldname
    );
    let long_name = "x".repeat(513);
    assert_eq!(
        Constructor::new("long", &vec![long_name.as_str()]).err().unwrap(),
        Error::InvalidFieldname
    );
    let long_path = "p".repeat(2049);
    assert_eq!(
        Constructor::new(long_path.as_str(), &vec!["a"]).err().unwrap(),
        Error::PathTooLong
    );
    let many: Vec<String> = (0..16383).map(|i| format!("f{}", i)).collect();
    let many_refs: Vec<&str> = many.iter().map(|s| s.as_str()).collect();
    assert_eq!(
        Constructor::new("many", &many_refs).err().unwrap(),
        Error::TooManyFields
    );
}

#[test]
fn capacity_errors_at_add() {
    let fields = vec!["f"];
    let mut cons = Constructor::new("caps", &fields).unwrap();
    let vals = vec!["v"];
    assert_eq!(
        cons.add(&uuid_n(1), u64::MAX, &vals),
        Err(Error::TimestampTooLarge)
    );
    let huge = "y".repeat(0x40_0001);
    let huge_vals = vec![huge.as_str()];
    assert_eq!(cons.add(&uuid_n(1), 0, &huge_vals), Err(Error::ValueTooLong));
    // a rejected add leaves the builder usable
    assert!(cons.add(&uuid_n(1), 0, &vals).is_ok());
    let image = cons.finalize().unwrap();
    let db = Db::open(&image).unwrap();
    assert_eq!(db.num_events(), 1);
}

#[test]
fn empty_database_counts() {
    let fields = vec!["f"];
    let cons = Constructor::new("empty_db", &fields).unwrap();
    let image = cons.finalize().unwrap();
    let db = Db::open(&image).unwrap();
    assert_eq!(db.num_trails(), 0);
    assert_eq!(db.num_events(), 0);
    assert_eq!(db.min_timestamp(), 0);
    assert_eq!(db.max_timestamp(), 0);
    assert_eq!(db.num_fields(), 2);
    assert_eq!(db.version(), 1);
    assert!(db.get_trail(0).is_none());
    assert!(db.iter().next().is_none());
}

#[test]
fn malformed_images_are_rejected() {
    assert_eq!(Db::open(&vec![]).err().unwrap(), Error::InvalidInfoFile);
    assert_eq!(Db::open(&vec![0u8; 20]).err().unwrap(), Error::InvalidInfoFile);
    let fields = vec!["f"];
    let mut cons = Constructor::new("tamper", &fields).unwrap();
    let vals = vec!["v"];
    cons.add(&uuid_n(1), 1, &vals).unwrap();
    let image = cons.finalize().unwrap();
    assert!(Db::open(&image).is_ok());
    // wrong version word
    let mut bad_version = image.clone();
    bad_version[8] = 99;
    assert_eq!(
        Db::open(&bad_version).err().unwrap(),
        Error::IncompatibleVersion
    );
    // wrong format tag
    let mut bad_magic = image.clone();
    bad_magic[0] = 0;
    assert_eq!(Db::open(&bad_magic).err().unwrap(), Error::InvalidInfoFile);
    // field name bytes that are not UTF-8
    let mut bad_field = image.clone();
    bad_field[64] = 0xFF;
    assert_eq!(
        Db::open(&bad_field).err().unwrap(),
        Error::InvalidFieldsFile
    );
    // truncated image
    let mut short = image.clone();
    short.pop();
    assert!(Db::open(&short).is_err());
    // trailing garbage
    let mut long = image.clone();
    long.push(0);
    assert_eq!(Db::open(&long).err().unwrap(), Error::InvalidPackage);
    // wrong stored event total
    let mut bad_count = image.clone();
    bad_count[32] = bad_count[32].wrapping_add(1);
    assert_eq!(Db::open(&bad_count).err().unwrap(), Error::InvalidInfoFile);
    // a trail count beyond the format's capacity
    let mut bad_trails = image.clone();
    bad_trails[28] = 1;
    assert_eq!(Db::open(&bad_trails).err().unwrap(), Error::InvalidUuidsFile);
    // a lexicon count beyond the format's capacity: the lexicon section
    // starts after the header (56), the field table (9) and one identifier
    // (16), so its count word sits at offset 81
    let mut bad_lexicon = image.clone();
    bad_lexicon[85] = 1;
    assert_eq!(Db::open(&bad_lexicon).err().unwrap(), Error::InvalidLexiconFile);
    // a zero event count in a trail block (offset 98: after the lexicon's
    // count word and its one value "v")
    let mut bad_block = image.clone();
    bad_block[98] = 0;
    assert_eq!(Db::open(&bad_block).err().unwrap(), Error::InvalidTrailsFile);
    // an item word whose field component names the wrong slot (offset 114:
    // after the block's count and the first event's timestamp delta)
    let mut bad_item = image.clone();
    bad_item[114] = 2;
    assert_eq!(Db::open(&bad_item).err().unwrap(), Error::InvalidTrailsFile);
}

#[test]
fn field_names_and_items() {
    let fields = vec!["user", "action"];
    let mut cons = Constructor::new("names", &fields).unwrap();
    let vals = vec!["Alice", "login"];
    cons.add(&uuid_n(1), 0, &vals).unwrap();
    let image = cons.finalize().unwrap();
    let db = Db::open(&image).unwrap();
    assert_eq!(db.get_field_name(0).unwrap(), "time");
    assert_eq!(db.get_field_name(1).unwrap(), "user");
    assert_eq!(db.get_field_name(2).unwrap(), "action");
    assert!(db.get_field_name(3).is_none());
    // an item that resolves to no slot is an error, not a substitute
    assert_eq!(
        db.get_item_value(traildb::Item(0)).err().unwrap(),
        Error::UnknownField
    );
}

#[test]
fn append_concatenates_per_uuid() {
    let fields = vec!["f"];
    // a finalized source database with two trails
    let mut src = Constructor::new("src", &fields).unwrap();
    let old_vals = vec!["old"];
    src.add(&uuid_n(1), 10, &old_vals).unwrap();
    src.add(&uuid_n(2), 11, &old_vals).unwrap();
    let src_image = src.finalize().unwrap();
    let src_db = Db::open(&src_image).unwrap();
    // a fresh builder already holding one of the same identifiers
    let mut cons = Constructor::new("dst", &fields).unwrap();
    let new_vals = vec!["new"];
    cons.add(&uuid_n(1), 1, &new_vals).unwrap();
    assert!(cons.append(&src_db).is_ok());
    let image = cons.finalize().unwrap();
    let db = Db::open(&image).unwrap();
    assert_eq!(db.num_trails(), 2);
    assert_eq!(db.num_events(), 3);
    // uuid 1: its existing event first, then the appended one
    let tid = db.get_trail_id(&uuid_n(1)).unwrap();
    let mut trail = db.get_trail(tid).unwrap();
    let first = trail.next().unwrap();
    assert_eq!(first.timestamp, 1);
    assert_eq!(db.get_item_value(first.items[0]).unwrap(), "new");
    let second = trail.next().unwrap();
    assert_eq!(second.timestamp, 10);
    assert_eq!(db.get_item_value(second.items[0]).unwrap(), "old");
    assert!(trail.next().is_none());
    // uuid 2 became a fresh trail
    let tid2 = db.get_trail_id(&uuid_n(2)).unwrap();
    let mut trail2 = db.get_trail(tid2).unwrap();
    assert_eq!(trail2.next().unwrap().timestamp, 11);
    assert!(trail2.next().is_none());
}

#[test]
fn append_rejects_schema_mismatch() {
    let mut src = Constructor::new("src2", &vec!["a", "b"]).unwrap();
    let vals = vec!["x", "y"];
    src.add(&uuid_n(1), 0, &vals).unwrap();
    let src_image = src.finalize().unwrap();
    let src_db = Db::open(&src_image).unwrap();
    // different field order
    let mut cons = Constructor::new("dst2", &vec!["b", "a"]).unwrap();
    cons.add(&uuid_n(9), 3, &vals).unwrap();
    assert_eq!(cons.append(&src_db), Err(Error::AppendFieldsMismatch));
    // the builder's prior state is untouched
    let image = cons.finalize().unwrap();
    let db = Db::open(&image).unwrap();
    assert_eq!(db.num_trails(), 1);
    assert_eq!(db.num_events(), 1);
    assert_eq!(db.min_timestamp(), 3);
}

#[test]
fn error_names() {
    assert_eq!(Error::Nomem.name(), "Nomem");
    assert_eq!(Error::AppendFieldsMismatch.name(), "AppendFieldsMismatch");
    assert_eq!(Error::OnlyDiffFilter.name(), "OnlyDiffFilter");
}
