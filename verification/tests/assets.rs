use lib::assets::{load_project, AssetError, AssetMeta, AssetType, Comparison, IoFault, Project, Type};
use lib::base_serde::{ByteReader, Deserialize, Serialize};

#[test]
fn test_serde() {
    let mut data: Vec<u8> = Vec::new();

    5u8.serialize(&mut data).unwrap();
    10u16.serialize(&mut data).unwrap();
    15u32.serialize(&mut data).unwrap();
    20u64.serialize(&mut data).unwrap();
    (-5i8).serialize(&mut data).unwrap();
    (-10i16).serialize(&mut data).unwrap();
    (-15i32).serialize(&mut data).unwrap();
    (-20i64).serialize(&mut data).unwrap();
    false.serialize(&mut data).unwrap();
    "test".to_owned().serialize(&mut data).unwrap();
    vec![1i16, 2i16, 3i16, 4i16, 5i16].serialize(&mut data).unwrap();
    ("a".to_owned(), 5u8).serialize(&mut data).unwrap();

    assert_eq!(
        &data,
        &[
            5, 10, 0, 15, 0, 0, 0, 20, 0, 0, 0, 0, 0, 0, 0, 251, 246, 255, 241, 255, 255, 255, 236,
            255, 255, 255, 255, 255, 255, 255, 0, 4, 0, 0, 0, 116, 101, 115, 116, 5, 0, 0, 0, 1, 0,
            2, 0, 3, 0, 4, 0, 5, 0, 1, 0, 0, 0, 97, 5
        ]
    );
    let mut data = ByteReader::new(&data);

    assert_eq!(u8::deserialize(&mut data).unwrap(), 5);
    assert_eq!(u16::deserialize(&mut data).unwrap(), 10);
    assert_eq!(u32::deserialize(&mut data).unwrap(), 15);
    assert_eq!(u64::deserialize(&mut data).unwrap(), 20);
    assert_eq!(i8::deserialize(&mut data).unwrap(), -5);
    assert_eq!(i16::deserialize(&mut data).unwrap(), -10);
    assert_eq!(i32::deserialize(&mut data).unwrap(), -15);
    assert_eq!(i64::deserialize(&mut data).unwrap(), -20);
    assert_eq!(bool::deserialize(&mut data).unwrap(), false);
    assert_eq!(String::deserialize(&mut data).unwrap(), "test");
    assert_eq!(Vec::<i16>::deserialize(&mut data).unwrap(), vec![1i16, 2i16, 3i16, 4i16, 5i16]);
    assert_eq!(<(String, u8)>::deserialize(&mut data).unwrap(), ("a".to_owned(), 5u8));
}

fn message_of(err: AssetError) -> String {
    match err {
        AssetError::IOError(m) => format!("io: {m:?}"),
        AssetError::OtherError(m) => format!("other: {m}"),
        AssetError::RacketException { message, .. } => format!("racket: {message}"),
    }
}

#[test]
fn reading_past_the_end_is_an_io_error() {
    let data = [1u8, 2, 3];
    let mut input = ByteReader::new(&data);
    match u32::deserialize(&mut input) {
        Err(AssetError::IOError(IoFault::UnexpectedEof)) => {}
        _ => panic!("expected an IO error"),
    }
    // Nothing was consumed, so the bytes can still be read one by one.
    assert_eq!(u8::deserialize(&mut input).unwrap(), 1);
    assert_eq!(u16::deserialize(&mut input).unwrap(), 0x0302);
}

#[test]
fn invalid_utf8_is_another_error() {
    let data = [2u8, 0, 0, 0, 0xc3, 0x28];
    let mut input = ByteReader::new(&data);
    match String::deserialize(&mut input) {
        Err(AssetError::OtherError(_)) => {}
        Err(e) => panic!("unexpected error {}", message_of(e)),
        Ok(_) => panic!("invalid UTF-8 was accepted"),
    }
}

fn project_bytes() -> Vec<u8> {
    let mut out = Vec::new();
    7u32.serialize(&mut out).unwrap();
    "proj".to_owned().serialize(&mut out).unwrap();
    0u8.serialize(&mut out).unwrap();
    vec![vec![b'/', b'a'], vec![]].serialize(&mut out).unwrap();
    "Test1".to_owned().serialize(&mut out).unwrap();
    out
}

#[test]
fn asset_meta_and_project_are_read_field_by_field() {
    let bytes = project_bytes();
    let mut input = ByteReader::new(&bytes);
    let meta: AssetMeta = AssetMeta::read(&mut input).unwrap();
    assert_eq!(meta.id, 7);
    assert_eq!(meta.name, "proj");
    assert_eq!(meta.asset_type, AssetType::Project);
    assert_eq!(meta.tracked_paths, vec![vec![b'/', b'a'], vec![]]);

    let mut response = vec![0u8];
    response.extend(project_bytes());
    let project = load_project(&response).unwrap();
    assert_eq!(project.name, "Test1");
    assert_eq!(project.meta.id, 7);
}

#[test]
fn failed_requests_report_the_exception() {
    let mut response = vec![1u8];
    Vec::<u8>::new().serialize(&mut response).unwrap();
    vec![b'f'].serialize(&mut response).unwrap();
    "".to_owned().serialize(&mut response).unwrap();
    "boom".to_owned().serialize(&mut response).unwrap();
    match load_project(&response) {
        Err(AssetError::RacketException { project_root, asset_file, asset, message }) => {
            assert_eq!(project_root, None);
            assert_eq!(asset_file, Some(vec![b'f']));
            assert_eq!(asset, None);
            assert_eq!(message, "boom");
        }
        _ => panic!("expected the exception report"),
    }
    assert!(matches!(load_project(&[]), Err(AssetError::IOError(_))));
}

#[test]
fn types_are_read_recursively() {
    // A vector of tuples (u8, node "n").
    let data = [12u8, 13, 2, 0, 0, 0, 0, 15, 1, 0, 0, 0, b'n', 9];
    let mut input = ByteReader::new(&data);
    let t = Type::read(&mut input).unwrap();
    match t {
        Type::Vec(item) => match *item {
            Type::Tuple(items) => {
                assert_eq!(items.len(), 2);
                assert!(matches!(items[0], Type::U8));
                assert!(matches!(&items[1], Type::Node(name) if name == "n"));
            }
            _ => panic!("expected a tuple"),
        },
        _ => panic!("expected a vector"),
    }
    assert!(matches!(Type::read(&mut input), Ok(Type::F64)));
}

#[test]
fn comparisons_and_asset_types_by_tag() {
    let data = [3u8, 5, 2];
    let mut input = ByteReader::new(&data);
    assert_eq!(Comparison::read(&mut input).unwrap(), Comparison::GreaterThan);
    assert_eq!(Comparison::read(&mut input).unwrap(), Comparison::GreaterEquals);
    assert_eq!(AssetType::read(&mut input).unwrap(), AssetType::NodeList);
}

/// The answer the asset server gives for the project asset of the test project.
fn recorded_project_answer() -> Vec<u8> {
    let mut bytes = vec![0u8];
    bytes.extend_from_slice(&[0, 0, 0, 0]);
    bytes.extend_from_slice(&[7, 0, 0, 0]);
    bytes.extend_from_slice(b"project");
    bytes.push(0);
    bytes.extend_from_slice(&[1, 0, 0, 0]);
    let path: &[u8] = b"/skylite-assets/tests/test-project/project.rkt";
    bytes.extend_from_slice(&(path.len() as u32).to_le_bytes());
    bytes.extend_from_slice(path);
    bytes.extend_from_slice(&[5, 0, 0, 0]);
    bytes.extend_from_slice(b"Test1");
    bytes
}

#[test]
fn test_load_project_asset() {
    let project = load_project(&recorded_project_answer()).unwrap();
    assert_eq!(
        project,
        Project {
            meta: project.meta.clone(),
            name: "Test1".to_owned()
        }
    );
    assert_eq!(project.meta.name, "project");
    assert_eq!(project.meta.asset_type, AssetType::Project);
}
