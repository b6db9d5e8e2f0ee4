use traildb::{Constructor, Db};

#[test]
fn test_traildb() {
    // create a new constructor
    let field_names = vec!["field1", "field2"];
    let db_path = "test";
    let mut cons = Constructor::new(db_path, &field_names).unwrap();
    let field_vals = vec!["cats", "dogs"];

    // add an event
    let events_per_trail = 10;
    let mut trail_cnt = 0;
    let mut event_cnt = 0;
    let mut uuids = Vec::new();
    let mut timestamp = 0;
    let mut timestamps = Vec::new();
    for _ in 0..10 {
        let uuid = *uuid::Uuid::new_v4().as_bytes();
        for _ in 0..events_per_trail {
            assert!(&cons.add(&uuid, timestamp, &field_vals).is_ok());
            timestamps.push(timestamp);
            event_cnt += 1;
            timestamp += 1;
        }
        uuids.push(uuid);
        trail_cnt += 1;
    }

    // finalize db (hands back the on-disk image)
    let image = cons.finalize();
    assert!(image.is_ok());
    let image = image.unwrap();

    // open test database
    let db = Db::open(&image).unwrap();

    // check number of fields
    let num_fields = db.num_fields();
    println!("Num fields: {}", num_fields);
    assert_eq!(num_fields, 1 + field_names.len() as u64);

    // check number of trails
    let num_trails = db.num_trails();
    println!("Num trails: {}", num_trails);
    assert_eq!(num_trails, trail_cnt);

    // check number of events
    let num_events = db.num_events();
    println!("Num events: {}", num_events);
    assert_eq!(num_events, event_cnt);

    // Check round-trip get_uuid/get_trail_id
    for uuid in &uuids {
        let trail_id = db.get_trail_id(&uuid).unwrap();
        let uuid_rt = db.get_uuid(trail_id).unwrap();
        assert_eq!(uuid, &uuid_rt);
    }

    // check max/min timestamp
    let min_timestamp = *timestamps.iter().min().unwrap();
    let max_timestamp = *timestamps.iter().max().unwrap();
    println!("Mix/Max timestamp: {}/{}", min_timestamp, max_timestamp);
    assert_eq!(db.min_timestamp(), min_timestamp);
    assert_eq!(db.max_timestamp(), max_timestamp);

    // test cursor
    let mut cursor = db.cursor();
    for uuid in &uuids {
        let trail_id = db.get_trail_id(&uuid).unwrap();
        cursor.get_trail(trail_id).unwrap();
        assert_eq!(events_per_trail, cursor.len());
    }

    // test db iterator
    let mut iter = db.iter();
    while let Some(mut trail) = iter.next() {
        // test trail iterator
        while let Some(event) = trail.next() {
            // check that inserted event values match read values
            for (item, item_ref) in event.items.into_iter().zip(field_vals.iter()) {
                let item = db.get_item_value(item).unwrap();
                assert_eq!(item, *item_ref);
            }
        }
    }
}
