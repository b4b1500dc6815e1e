use geds::client::{GEDS, GEDSFile};
use geds::errors::GedsErrorKind;
use geds::status::{Status, StatusOrGEDSFileStatus, StatusOrUsize, StatusOrVecGEDSFileStatus};

fn started_client() -> GEDS {
    let config = GEDS::get_default_config();
    let mut geds = GEDS::new(&config);
    assert!(geds.start().is_ok());
    geds
}

fn create_file(geds: &mut GEDS, bucket: &str, key: &str) -> GEDSFile {
    geds.create(bucket, key, false).unwrap()
}

#[test]
fn test_file() {
    let config = GEDS::get_default_config();
    let mut geds = GEDS::new(&config);

    let start_result = geds.start();
    assert!(start_result.is_ok(), "{}", start_result.err().unwrap().message());

    let create_bucket_result = geds.create_bucket("test-bucket");
    assert!(create_bucket_result.is_ok());

    let create_result = geds.create("test-bucket", "test-file", true);
    assert!(create_result.is_ok());

    let file = create_result.unwrap();
    let write_vec: Vec<u8> = "Hello world!".as_bytes().to_vec();
    let write_result = file.write(&mut geds, &write_vec, 0, 12);
    assert!(write_result.is_ok());

    let read_vec: &mut Vec<u8> = &mut Vec::with_capacity(12);
    let read_result = file.read(&geds, read_vec, 0, 12);
    assert!(read_result.is_ok() && *read_result.as_ref().unwrap() == 12);

    assert_eq!(*read_vec, write_vec);

    let set_metadata_result = file.set_metadata(&mut geds, "test_metadata", false);
    assert!(set_metadata_result.is_ok());

    assert!(file.truncate(&mut geds, 5).is_ok());

    assert!(file.seal(&mut geds).is_ok());

    let size = file.size(&geds);
    let is_writeable = file.is_writeable(&geds);
    let identifier = file.identifier();
    let metadata = file.metadata(&geds);
    assert_eq!(size, 5);
    assert_eq!(is_writeable, false);
    println!("File identifier is {identifier}");
    assert_eq!(metadata, "test_metadata");

    assert!(geds.delete_object("test-bucket", "test-file").is_ok());

    let stop_result = geds.stop();
    assert!(stop_result.is_ok());
}

#[test]
fn write_read_round_trip_at_offset() {
    let mut geds = started_client();
    geds.create_bucket("b").unwrap();
    let file = create_file(&mut geds, "b", "f");
    let payload: Vec<u8> = vec![7, 13, 42, 0, 255];
    file.write(&mut geds, &payload, 100, 5).unwrap();
    let mut back: Vec<u8> = Vec::new();
    let n = file.read(&geds, &mut back, 100, 5).unwrap();
    assert_eq!(n, 5);
    assert_eq!(back, payload);
}

#[test]
fn zero_fill_gap_and_growth() {
    let mut geds = started_client();
    geds.create_bucket("b").unwrap();
    let file = create_file(&mut geds, "b", "f");
    // a write at offset 8 leaves the gap [0, 8) zero-filled
    let payload: Vec<u8> = vec![9, 9];
    file.write(&mut geds, &payload, 8, 2).unwrap();
    let mut back: Vec<u8> = Vec::new();
    let n = file.read(&geds, &mut back, 0, 10).unwrap();
    assert_eq!(n, 10);
    assert_eq!(back, vec![0, 0, 0, 0, 0, 0, 0, 0, 9, 9]);
    // growth by truncate reads as zero, not stale data
    let file2 = create_file(&mut geds, "b", "g");
    file2.write(&mut geds, &vec![1, 2, 3], 0, 3).unwrap();
    file2.truncate(&mut geds, 1).unwrap();
    file2.truncate(&mut geds, 3).unwrap();
    let mut back2: Vec<u8> = Vec::new();
    file2.read(&geds, &mut back2, 0, 3).unwrap();
    assert_eq!(back2, vec![1, 0, 0]);
}

#[test]
fn seal_makes_object_immutable() {
    let mut geds = started_client();
    geds.create_bucket("b").unwrap();
    let file = create_file(&mut geds, "b", "f");
    file.write(&mut geds, &vec![1, 2, 3], 0, 3).unwrap();
    file.set_metadata(&mut geds, "m1", false).unwrap();
    file.seal(&mut geds).unwrap();

    let w = file.write(&mut geds, &vec![9], 0, 1);
    assert_eq!(w.unwrap_err().kind(), GedsErrorKind::InvalidState);
    let t = file.truncate(&mut geds, 1);
    assert_eq!(t.unwrap_err().kind(), GedsErrorKind::InvalidState);
    let m = file.set_metadata(&mut geds, "m2", true);
    assert_eq!(m.unwrap_err().kind(), GedsErrorKind::InvalidState);
    let s = file.seal(&mut geds);
    assert_eq!(s.unwrap_err().kind(), GedsErrorKind::InvalidState);

    // size and metadata are stable after the rejected mutations
    assert_eq!(file.size(&geds), 3);
    assert_eq!(file.metadata(&geds), "m1");
    assert!(!file.is_writeable(&geds));
}

#[test]
fn truncate_discards_for_good() {
    let mut geds = started_client();
    geds.create_bucket("b").unwrap();
    let file = create_file(&mut geds, "b", "f");
    file.write(&mut geds, &vec![5, 6, 7, 8], 0, 4).unwrap();
    file.truncate(&mut geds, 2).unwrap();
    assert_eq!(file.size(&geds), 2);
    // reading beyond the new size fails
    let mut back: Vec<u8> = Vec::new();
    let beyond = file.read(&geds, &mut back, 3, 1);
    assert_eq!(beyond.unwrap_err().kind(), GedsErrorKind::OutOfRange);
    // growing again never resurrects the discarded bytes
    file.truncate(&mut geds, 4).unwrap();
    let n = file.read(&geds, &mut back, 0, 4).unwrap();
    assert_eq!(n, 4);
    assert_eq!(back, vec![5, 6, 0, 0]);
}

#[test]
fn rename_prefix_moves_every_key() {
    let mut geds = started_client();
    geds.create_bucket("b1").unwrap();
    geds.create_bucket("b2").unwrap();
    let fx = create_file(&mut geds, "b1", "p/x");
    fx.write(&mut geds, &vec![1], 0, 1).unwrap();
    let fy = create_file(&mut geds, "b1", "p/y");
    fy.write(&mut geds, &vec![2, 2], 0, 2).unwrap();
    let fz = create_file(&mut geds, "b1", "q/z");
    fz.write(&mut geds, &vec![3], 0, 1).unwrap();

    geds.rename_prefix("b1", "p/", "b2", "r/").unwrap();

    // nothing is listable under the old prefix
    assert_eq!(geds.list("b1", "p/").unwrap().len(), 0);
    // the moved keys are listable under the new prefix with identical content
    let moved = geds.list("b2", "r/").unwrap();
    assert_eq!(moved.len(), 2);
    let fx2 = geds.open("b2", "r/x").unwrap();
    let mut back: Vec<u8> = Vec::new();
    assert_eq!(fx2.read(&geds, &mut back, 0, 1).unwrap(), 1);
    assert_eq!(back, vec![1]);
    assert_eq!(fx2.size(&geds), 1);
    let fy2 = geds.open("b2", "r/y").unwrap();
    assert_eq!(fy2.size(&geds), 2);
    // an unrelated key is untouched
    assert_eq!(geds.open("b1", "q/z").unwrap().size(&geds), 1);
}

#[test]
fn budget_enforcement_and_eviction() {
    let mut config = GEDS::get_default_config();
    config.available_local_storage = 8;
    config.available_local_memory = 8;
    let mut geds = GEDS::new(&config);
    geds.start().unwrap();
    geds.create_bucket("b").unwrap();

    let f1 = create_file(&mut geds, "b", "f1");
    let ten: Vec<u8> = vec![1; 10];
    f1.write(&mut geds, &ten, 0, 10).unwrap();
    f1.seal(&mut geds).unwrap();

    // f1 is dirty (not yet flushed): a second resident object cannot fit
    let f2 = create_file(&mut geds, "b", "f2");
    let err = f2.write(&mut geds, &ten, 0, 10).unwrap_err();
    assert_eq!(err.kind(), GedsErrorKind::ResourceExhausted);

    // after relocation f1 is durable and can be evicted to make room
    geds.relocate(true);
    f2.write(&mut geds, &ten, 0, 10).unwrap();

    // the evicted sealed object still reads back in full
    let mut back: Vec<u8> = Vec::new();
    assert_eq!(f1.read(&geds, &mut back, 0, 10).unwrap(), 10);
    assert_eq!(back, ten);
}

#[test]
fn end_to_end_lifecycle() {
    let mut geds = started_client();
    geds.create_bucket("b").unwrap();
    let file = geds.create("b", "f", false).unwrap();
    let hello: Vec<u8> = "Hello world!".as_bytes().to_vec();
    file.write(&mut geds, &hello, 0, 12).unwrap();
    let mut back: Vec<u8> = Vec::new();
    assert_eq!(file.read(&geds, &mut back, 0, 12).unwrap(), 12);
    assert_eq!(back, hello);
    file.set_metadata(&mut geds, "tag", false).unwrap();
    file.truncate(&mut geds, 5).unwrap();
    assert_eq!(file.size(&geds), 5);
    file.seal(&mut geds).unwrap();
    assert!(!file.is_writeable(&geds));
    assert_eq!(file.metadata(&geds), "tag");
    assert!(geds.delete_object("b", "f").is_ok());
    let st = geds.status("b", "f");
    assert_eq!(st.unwrap_err().kind(), GedsErrorKind::NotFound);
}

#[test]
fn directory_marker_listing() {
    let mut geds = started_client();
    geds.create_bucket("b").unwrap();
    geds.mkdirs("b", "a/b").unwrap();
    let listing = geds.list_folder("b", "a/").unwrap();
    assert!(listing.iter().any(|st| st.key == "a/b" && st.is_directory));
    // the intermediate level is a directory under the empty prefix as well
    let top = geds.list_folder("b", "").unwrap();
    assert!(top.iter().any(|st| st.key == "a" && st.is_directory));
    // status through the marker reports a directory
    let st = geds.status("b", "a/b").unwrap();
    assert!(st.is_directory);
    assert_eq!(st.size, 0);
}

#[test]
fn list_includes_markers_and_prefix_only() {
    let mut geds = started_client();
    geds.create_bucket("b").unwrap();
    geds.mkdirs("b", "dir").unwrap();
    let f = create_file(&mut geds, "b", "dir/file");
    f.write(&mut geds, &vec![1, 2], 0, 2).unwrap();
    create_file(&mut geds, "b", "other");
    let all = geds.list("b", "dir").unwrap();
    assert_eq!(all.len(), 2);
    assert!(all.iter().any(|st| st.key == "dir/_$folder$" && st.is_directory));
    assert!(all.iter().any(|st| st.key == "dir/file" && !st.is_directory && st.size == 2));
}

#[test]
fn errors_before_start_and_after_stop() {
    let config = GEDS::get_default_config();
    let mut geds = GEDS::new(&config);
    let e = geds.create_bucket("b");
    assert_eq!(e.unwrap_err().kind(), GedsErrorKind::InvalidState);
    geds.start().unwrap();
    let again = geds.start();
    assert_eq!(again.unwrap_err().kind(), GedsErrorKind::InvalidState);
    geds.stop().unwrap();
    let e2 = geds.open("b", "k");
    assert_eq!(e2.unwrap_err().kind(), GedsErrorKind::InvalidState);
    let e3 = geds.stop();
    assert_eq!(e3.unwrap_err().kind(), GedsErrorKind::InvalidState);
}

#[test]
fn create_errors() {
    let mut geds = started_client();
    let no_bucket = geds.create("nope", "k", false);
    assert_eq!(no_bucket.unwrap_err().kind(), GedsErrorKind::NotFound);
    geds.create_bucket("b").unwrap();
    geds.create("b", "k", false).unwrap();
    let dup = geds.create("b", "k", false);
    assert_eq!(dup.unwrap_err().kind(), GedsErrorKind::AlreadyExists);
    // overwrite resets the object
    let f = geds.create("b", "k", true).unwrap();
    assert_eq!(f.size(&geds), 0);
    let dup_bucket = geds.create_bucket("b");
    assert_eq!(dup_bucket.unwrap_err().kind(), GedsErrorKind::AlreadyExists);
}

#[test]
fn read_and_write_range_errors() {
    let mut geds = started_client();
    geds.create_bucket("b").unwrap();
    let f = create_file(&mut geds, "b", "f");
    let e = f.write(&mut geds, &vec![1, 2], 0, 3);
    assert_eq!(e.unwrap_err().kind(), GedsErrorKind::OutOfRange);
    f.write(&mut geds, &vec![1, 2], 0, 2).unwrap();
    let mut buf: Vec<u8> = Vec::new();
    // a short read at end-of-file succeeds and is capped
    assert_eq!(f.read(&geds, &mut buf, 1, 5).unwrap(), 1);
    assert_eq!(buf, vec![2]);
    let e2 = f.read(&geds, &mut buf, 3, 1);
    assert_eq!(e2.unwrap_err().kind(), GedsErrorKind::OutOfRange);
}

#[test]
fn rename_and_copy_single_object() {
    let mut geds = started_client();
    geds.create_bucket("b").unwrap();
    let f = create_file(&mut geds, "b", "one");
    f.write(&mut geds, &vec![4, 5], 0, 2).unwrap();
    geds.rename("b", "one", "b", "two").unwrap();
    assert_eq!(geds.open("b", "one").unwrap_err().kind(), GedsErrorKind::NotFound);
    let moved = geds.open("b", "two").unwrap();
    assert_eq!(moved.size(&geds), 2);
    // renaming onto itself is a no-op
    geds.rename("b", "two", "b", "two").unwrap();
    geds.copy("b", "two", "b", "three").unwrap();
    let copied = geds.open("b", "three").unwrap();
    let mut buf: Vec<u8> = Vec::new();
    assert_eq!(copied.read(&geds, &mut buf, 0, 2).unwrap(), 2);
    assert_eq!(buf, vec![4, 5]);
    // copying onto an existing key fails
    let clash = geds.copy("b", "two", "b", "three");
    assert_eq!(clash.unwrap_err().kind(), GedsErrorKind::AlreadyExists);
}

#[test]
fn copy_prefix_copies_and_keeps_sources() {
    let mut geds = started_client();
    geds.create_bucket("b").unwrap();
    let f = create_file(&mut geds, "b", "p/a");
    f.write(&mut geds, &vec![8], 0, 1).unwrap();
    create_file(&mut geds, "b", "p/b");
    geds.copy_prefix("b", "p/", "b", "q/").unwrap();
    assert_eq!(geds.list("b", "p/").unwrap().len(), 2);
    assert_eq!(geds.list("b", "q/").unwrap().len(), 2);
    let copied = geds.open("b", "q/a").unwrap();
    let mut buf: Vec<u8> = Vec::new();
    assert_eq!(copied.read(&geds, &mut buf, 0, 1).unwrap(), 1);
    assert_eq!(buf, vec![8]);
    // copying a prefix onto itself collides with the sources
    let clash = geds.copy_prefix("b", "p/", "b", "p/");
    assert_eq!(clash.unwrap_err().kind(), GedsErrorKind::AlreadyExists);
}

#[test]
fn delete_object_prefix_removes_matches_only() {
    let mut geds = started_client();
    geds.create_bucket("b").unwrap();
    create_file(&mut geds, "b", "p/a");
    create_file(&mut geds, "b", "p/b");
    create_file(&mut geds, "b", "keep");
    geds.delete_object_prefix("b", "p/").unwrap();
    assert_eq!(geds.list("b", "").unwrap().len(), 1);
    assert!(geds.open("b", "keep").is_ok());
    // deleting a prefix that matches nothing succeeds
    geds.delete_object_prefix("b", "zzz").unwrap();
}

#[test]
fn subscribe_codes() {
    let mut geds = started_client();
    assert!(geds.subscribe("b", "k", &0).is_ok());
    assert!(geds.subscribe("b", "k", &1).is_ok());
    assert!(geds.subscribe("b", "k", &2).is_ok());
    assert!(geds.subscribe("b", "k", &3).is_ok());
    let bad = geds.subscribe("b", "k", &4);
    assert_eq!(bad.unwrap_err().kind(), GedsErrorKind::OutOfRange);
}

#[test]
fn config_plane_and_local_path() {
    let mut geds = started_client();
    geds.register_object_store_config("b", "http://localhost:9000", "ak", "SECRET-REDACTED")
        .unwrap();
    geds.register_object_store_config("b", "http://localhost:9001", "ak2", "SECRET-REDACTED")
        .unwrap();
    geds.sync_object_store_configs().unwrap();
    let path = geds.local_path("b", "k");
    assert_eq!(path, "/tmp/GEDS_XXXXXX/b/k");
}

#[test]
fn default_config_values() {
    let c = GEDS::get_default_config();
    assert_eq!(c.metadata_service_address, "localhost:4381");
    assert_eq!(c.listen_address, "0.0.0.0");
    assert_eq!(c.hostname, "null");
    assert_eq!(c.port, 4382);
    assert_eq!(c.port_http_server, 4380);
    assert_eq!(c.local_storage_path, "/tmp/GEDS_XXXXXX");
    assert_eq!(c.cache_block_size, 32 * 1024 * 1024);
    assert_eq!(c.available_local_storage, 100 * 1024 * 1024 * 1024);
    assert_eq!(c.available_local_memory, 16 * 1024 * 1024 * 1024);
    assert!(!c.cache_objects_from_s3);
    assert!(!c.force_relocation_when_stopping);
    assert!(!c.pub_sub_enabled);
}

#[test]
fn identifier_is_bucket_slash_key() {
    let mut geds = started_client();
    geds.create_bucket("b").unwrap();
    let f = create_file(&mut geds, "b", "dir/f");
    assert_eq!(f.identifier(), "b/dir/f");
}

#[test]
fn status_snapshot_types() {
    let mut geds = started_client();
    let err = geds.create_bucket("b").err();
    assert!(err.is_none());
    let ok_status = Status::of_result(&Ok(()));
    assert!(ok_status.ok);
    assert_eq!(ok_status.message, "");
    let failed = geds.open("missing", "k");
    let flat = StatusOrUsize::of_result(&failed.map(|_| 0usize).map_err(|e| e));
    assert!(!flat.status.ok);
    assert_eq!(flat.value, 0);
    assert_eq!(flat.status.message, "object not found");
}

#[test]
fn flat_status_value_pairs() {
    let mut geds = started_client();
    geds.create_bucket("b").unwrap();
    let f = create_file(&mut geds, "b", "f");
    f.write(&mut geds, &vec![1, 2, 3], 0, 3).unwrap();
    let flat = StatusOrGEDSFileStatus::of_result(geds.status("b", "f"));
    assert!(flat.status.ok);
    assert_eq!(flat.value.key, "f");
    assert_eq!(flat.value.size, 3);
    let flat_list = StatusOrVecGEDSFileStatus::of_result(geds.list("b", ""));
    assert!(flat_list.status.ok);
    assert_eq!(flat_list.value.len(), 1);
    let failed_list = StatusOrVecGEDSFileStatus::of_result(geds.list("missing", ""));
    assert!(!failed_list.status.ok);
    assert_eq!(failed_list.value.len(), 0);
    let failed_status = StatusOrGEDSFileStatus::of_result(geds.status("b", "missing"));
    assert!(!failed_status.status.ok);
    assert_eq!(failed_status.value.size, 0);
}

#[test]
fn stop_with_forced_relocation_flushes() {
    let mut config = GEDS::get_default_config();
    config.force_relocation_when_stopping = true;
    config.available_local_storage = 4;
    config.available_local_memory = 0;
    let mut geds = GEDS::new(&config);
    geds.start().unwrap();
    geds.create_bucket("b").unwrap();
    let f = create_file(&mut geds, "b", "f");
    f.write(&mut geds, &vec![1, 2, 3, 4], 0, 4).unwrap();
    f.seal(&mut geds).unwrap();
    geds.stop().unwrap();
    // after a restart the flushed object can be evicted to admit new bytes
    geds.start().unwrap();
    let g = create_file(&mut geds, "b", "g");
    g.write(&mut geds, &vec![9, 9, 9, 9], 0, 4).unwrap();
    let mut buf: Vec<u8> = Vec::new();
    assert_eq!(f.read(&geds, &mut buf, 0, 4).unwrap(), 4);
    assert_eq!(buf, vec![1, 2, 3, 4]);
}
