use tardex::{Entry, Metadata, Storage, Tardex, TardexError};

const JAN_1_2019: u64 = 1546300800;
const FIXTURE_MTIME: u64 = 1700000000;

const KIDA_B_TEXT: &str =
    "Kid A In Alphabet Land Bashes Another Belligerent Beastie - The Bellicose Blot!\n";

fn append_file(builder: &mut tar::Builder<Vec<u8>>, path: &str, mtime: u64, data: &[u8]) {
    let mut header = tar::Header::new_ustar();
    header.set_size(data.len() as u64);
    header.set_mtime(mtime);
    header.set_mode(0o644);
    header.set_entry_type(tar::EntryType::Regular);
    builder.append_data(&mut header, path, data).unwrap();
}

fn append_dir(builder: &mut tar::Builder<Vec<u8>>, path: &str) {
    let mut header = tar::Header::new_ustar();
    header.set_size(0);
    header.set_mtime(FIXTURE_MTIME);
    header.set_mode(0o755);
    header.set_entry_type(tar::EntryType::Directory);
    builder.append_data(&mut header, path, &[][..]).unwrap();
}

fn fixture() -> Vec<u8> {
    let mut builder = tar::Builder::new(Vec::new());
    append_file(&mut builder, "a.txt", FIXTURE_MTIME, b"A is for Apple\n");
    append_dir(&mut builder, "kida/");
    append_file(&mut builder, "kida/a.txt", FIXTURE_MTIME, b"K is for Kid A\n");
    append_file(&mut builder, "kida/b.txt", FIXTURE_MTIME, KIDA_B_TEXT.as_bytes());
    builder.into_inner().unwrap()
}

fn fixture_tardex() -> Tardex {
    Tardex::new(Storage::new(fixture())).unwrap()
}

fn read_to_string(entry: &mut Entry) -> String {
    String::from_utf8(entry.read_to_end()).expect("read_to_string failed")
}

#[test]
fn test_paths() {
    let tardex = fixture_tardex();
    let paths = tardex.paths();
    assert_eq!("a.txt", paths[0]);
    assert_eq!("kida/a.txt", paths[1]);
    assert_eq!("kida/b.txt", paths[2]);
    assert!(paths.len() == 3);
    // each call yields a fresh, identical traversal
    assert_eq!(tardex.paths(), paths);
}

#[test]
fn test_content() {
    let tardex = fixture_tardex();
    let mut entry = tardex.entry("a.txt").unwrap();
    let a_contents = read_to_string(&mut entry);
    assert_eq!(a_contents, "A is for Apple\n");

    entry = tardex.entry("kida/b.txt").unwrap();
    let kida_b_contents = read_to_string(&mut entry);
    assert_eq!(
        kida_b_contents,
        "Kid A In Alphabet Land Bashes Another Belligerent Beastie - The Bellicose Blot!\n"
    );
}

#[test]
fn test_meta() {
    let tardex = fixture_tardex();
    let paths = tardex.paths();
    for path in &paths {
        let entry = tardex
            .entry(path.as_str())
            .expect(&format!("failed to get {}", path));
        let meta = entry.metadata();
        assert!(meta.len() > 0);
        assert!(meta.mtime() > JAN_1_2019);
    }
}

#[test]
fn test_scenario_listing_and_lookup() {
    let tardex = fixture_tardex();
    let paths = tardex.paths();
    let names: Vec<&str> = paths.iter().map(|p| p.as_str()).collect();
    assert_eq!(names, vec!["a.txt", "kida/a.txt", "kida/b.txt"]);

    assert!(tardex.entry("kida/").is_none());
    assert!(tardex.entry("missing.txt").is_none());

    let a = tardex.entry("a.txt").unwrap();
    assert_eq!(a.metadata().len(), 15);
    let b = tardex.entry("kida/b.txt").unwrap();
    assert_eq!(b.metadata().len(), KIDA_B_TEXT.len() as u64);
    for path in &paths {
        let meta = tardex.entry(path.as_str()).unwrap().metadata();
        assert!(meta.len() > 0);
        assert!(meta.mtime() > 0);
    }
}

#[test]
fn test_metadata_verbatim_roundtrip() {
    let mut builder = tar::Builder::new(Vec::new());
    append_file(&mut builder, "x.bin", 1234567890, b"xyz");
    append_file(&mut builder, "y.bin", 1700000001, b"yy");
    let tardex = Tardex::new(Storage::new(builder.into_inner().unwrap())).unwrap();

    let first: Metadata = tardex.entry("x.bin").unwrap().metadata();
    assert_eq!(first.mtime(), 1234567890);
    assert_eq!(first.len(), 3);
    // however often the entry is fetched, the captured facts do not move
    let again: Metadata = tardex.entry("x.bin").unwrap().metadata();
    assert_eq!(again.mtime(), 1234567890);
    assert_eq!(again.len(), 3);

    let other = tardex.entry("y.bin").unwrap().metadata();
    assert_eq!(other.mtime(), 1700000001);
    assert_eq!(other.len(), 2);
}

#[test]
fn test_read_is_bounded() {
    let tardex = fixture_tardex();
    let mut entry = tardex.entry("a.txt").unwrap();
    let mut collected: Vec<u8> = Vec::new();
    let mut total: u64 = 0;
    loop {
        let mut buf = vec![0u8; 4];
        let n = entry.read(&mut buf);
        if n == 0 {
            break;
        }
        collected.extend_from_slice(&buf[..n]);
        total += n as u64;
    }
    // exactly the declared number of bytes, then end of data
    assert_eq!(total, entry.metadata().len());
    assert_eq!(collected, b"A is for Apple\n".to_vec());
    let mut buf = vec![7u8; 4];
    assert_eq!(entry.read(&mut buf), 0);
    // an exhausted read leaves the buffer as it was
    assert_eq!(buf, vec![7u8; 4]);
}

#[test]
fn test_clone_resets_and_is_independent() {
    let tardex = fixture_tardex();
    let mut original = tardex.entry("kida/b.txt").unwrap();

    let mut head = vec![0u8; 6];
    assert_eq!(original.read(&mut head), 6);
    assert_eq!(head, b"Kid A ".to_vec());

    // the duplicate starts from the beginning of the range
    let mut duplicate = original.clone();
    assert_eq!(read_to_string(&mut duplicate), KIDA_B_TEXT);

    // the original's cursor was not disturbed by the duplicate's reads
    let rest = read_to_string(&mut original);
    assert_eq!(rest, &KIDA_B_TEXT[6..]);

    // two fresh duplicates deliver the same bytes independently
    let fresh = tardex.entry("kida/b.txt").unwrap();
    let mut d1 = fresh.clone();
    let mut d2 = fresh.clone();
    assert_eq!(d1.read_to_end(), d2.read_to_end());
}

#[test]
fn test_duplicate_path_last_wins() {
    let mut builder = tar::Builder::new(Vec::new());
    append_file(&mut builder, "dup.txt", FIXTURE_MTIME, b"first");
    append_file(&mut builder, "dup.txt", FIXTURE_MTIME, b"second!");
    let tardex = Tardex::new(Storage::new(builder.into_inner().unwrap())).unwrap();

    let paths = tardex.paths();
    assert_eq!(paths.len(), 1);
    assert_eq!(paths[0], "dup.txt");
    let mut entry = tardex.entry("dup.txt").unwrap();
    assert_eq!(entry.metadata().len(), 7);
    assert_eq!(read_to_string(&mut entry), "second!");
}

#[test]
fn test_empty_archive() {
    // two zero blocks: a well-formed archive holding nothing
    let tardex = Tardex::new(Storage::new(vec![0u8; 1024])).unwrap();
    assert!(tardex.paths().is_empty());
    assert!(tardex.entry("anything").is_none());
}

#[test]
fn test_malformed_header_is_an_error() {
    // a header block that decodes to nothing sensible
    let result = Tardex::new(Storage::new(vec![0xffu8; 512]));
    match result {
        Ok(_) => panic!("a malformed archive must not index"),
        Err(err) => {
            assert!(matches!(err, TardexError::IoError(_)));
            assert!(!err.message().is_empty());
        },
    }
}

#[test]
fn test_truncated_data_is_an_error() {
    // a regular file whose declared range reaches past the end of the store
    let mut bytes = fixture();
    bytes.truncate(520);
    let result = Tardex::new(Storage::new(bytes));
    match result {
        Ok(_) => panic!("a truncated archive must not index"),
        Err(err) => assert!(matches!(err, TardexError::IoError(_))),
    }
}
