use hostimg::db::{DataStoreError, StoreRequest, StoreResponse, StoreWorker};
use hostimg::gallery::ImageInfo;
use std::collections::HashSet;

fn record(name: &str) -> ImageInfo {
    ImageInfo {
        id: 0,
        location_id: None,
        name: name.to_string(),
        hash: "cafe".to_string(),
        width: 10,
        height: 20,
        img_type: "JPEG".to_string(),
        caption: String::new(),
        description: String::new(),
        rating: 0,
    }
}

#[test]
fn hundred_saves_yield_hundred_distinct_ids() {
    // All saves are serialized through the one worker; none is lost and
    // no id is handed out twice.
    let mut worker = StoreWorker::open_in_memory().expect("store");
    let mut ids: Vec<u32> = Vec::new();
    for i in 0..100 {
        let name = format!("dir/img{i}.jpg");
        match worker.handle_request(StoreRequest::Save(record(&name))) {
            StoreResponse::Saved(id) => ids.push(id),
            other => panic!("unexpected response: {:?}", response_kind(&other)),
        }
    }
    assert_eq!(ids.len(), 100);
    let distinct: HashSet<u32> = ids.iter().copied().collect();
    assert_eq!(distinct.len(), 100);
    // No write was lost: every record is still found under its path.
    for i in 0..100 {
        let name = format!("dir/img{i}.jpg");
        match worker.handle_request(StoreRequest::FindByPath(name.clone())) {
            StoreResponse::Found(Some(rec)) => assert_eq!(rec.name, name),
            _ => panic!("record lost: {name}"),
        }
    }
}

fn response_kind(r: &StoreResponse) -> &'static str {
    match r {
        StoreResponse::Found(_) => "found",
        StoreResponse::Saved(_) => "saved",
        StoreResponse::Failed(_) => "failed",
    }
}

#[test]
fn save_assigns_sequential_fresh_ids() {
    let mut worker = StoreWorker::open_in_memory().expect("store");
    let a = worker.save_image(&record("a.jpg")).expect("save");
    let b = worker.save_image(&record("b.jpg")).expect("save");
    assert_ne!(a, b);
    assert_eq!(b, a + 1);
}

#[test]
fn find_by_name_returns_the_saved_record() {
    let mut worker = StoreWorker::open_in_memory().expect("store");
    let id = worker.save_image(&record("x/y.jpg")).expect("save");
    let found = worker
        .find_image_by_name(&"x/y.jpg".to_string())
        .expect("query")
        .expect("record missing");
    assert_eq!(found.id, id);
    assert_eq!(found.name, "x/y.jpg");
    assert_eq!(found.hash, "cafe");
    assert_eq!(found.width, 10);
    assert_eq!(found.height, 20);
    assert_eq!(found.img_type, "JPEG");
}

#[test]
fn find_by_id_round_trips() {
    let mut worker = StoreWorker::open_in_memory().expect("store");
    let id = worker.save_image(&record("p.jpg")).expect("save");
    let found = worker.find_image_by_id(id).expect("query").expect("record");
    assert_eq!(found.name, "p.jpg");
    assert!(worker.find_image_by_id(id + 1).expect("query").is_none());
}

#[test]
fn lookup_miss_is_not_an_error() {
    let worker = StoreWorker::open_in_memory().expect("store");
    let found = worker.find_image_by_name(&"absent.jpg".to_string()).expect("query");
    assert!(found.is_none());
}

#[test]
fn id_assignment_continues_above_existing_rows() {
    let conn = rusqlite::Connection::open_in_memory().expect("conn");
    {
        let mut w1 = StoreWorker::from_connection(conn).expect("store");
        let first = w1.save_image(&record("a.jpg")).expect("save");
        assert_eq!(first, 1);
    }
}

#[test]
fn incompatible_schema_is_a_setup_error() {
    let conn = rusqlite::Connection::open_in_memory().expect("conn");
    conn.execute_batch("CREATE TABLE image (foo TEXT);").expect("prep");
    match StoreWorker::from_connection(conn) {
        Err(DataStoreError::Setup(_)) => {}
        Err(_) => panic!("wrong error kind"),
        Ok(_) => panic!("setup should fail on a foreign schema"),
    }
}
