use arx::checks::{check_input_paths_exist, check_input_paths_relative, check_output_path_writable,
    InputPath, OutputStatus};
use arx::content::{CachedSize, should_compress, ENTROPY_THRESHOLD_MILLIBITS};
use arx::entry::Compression;
use arx::error::ArxError;
use arx::layout::plan_outputs;
use arx::entry::ConcatMode;
use arx::lex::{name_eq, name_lt};

fn input(path: &str, exists: bool, is_absolute: bool) -> InputPath {
    InputPath { path: path.to_owned(), exists, is_absolute }
}

#[test]
fn missing_input_is_named() {
    let files = vec![
        input("src", true, false),
        input("non_existant_dir", false, false),
        input("other", false, false),
    ];
    let r = check_input_paths_exist(&files);
    assert_eq!(r, Err(ArxError::InputNotFound { path: "non_existant_dir".to_owned() }));
    let all = vec![input("a", true, false), input("b", true, false)];
    assert_eq!(check_input_paths_exist(&all), Ok(()));
}

#[test]
fn absolute_input_is_refused() {
    let files = vec![input("ok", true, false), input("/abs/path", true, true)];
    let r = check_input_paths_relative(&files);
    assert_eq!(r, Err(ArxError::AbsoluteInputPath { path: "/abs/path".to_owned() }));
}

#[test]
fn missing_output_directory() {
    let out = OutputStatus {
        path: "/tmp/missing_dir/test.arx".to_owned(),
        parent: "/tmp/missing_dir".to_owned(),
        parent_is_dir: false,
        exists: false,
    };
    let r = check_output_path_writable(&out, false);
    assert_eq!(r, Err(ArxError::OutputParentMissing { path: "/tmp/missing_dir".to_owned() }));
}

#[test]
fn existing_output_needs_force() {
    let out = OutputStatus {
        path: "/tmp/test.arx".to_owned(),
        parent: "/tmp".to_owned(),
        parent_is_dir: true,
        exists: true,
    };
    assert_eq!(
        check_output_path_writable(&out, false),
        Err(ArxError::OutputExists { path: "/tmp/test.arx".to_owned() }),
    );
    assert_eq!(check_output_path_writable(&out, true), Ok(()));
    let fresh = OutputStatus { exists: false, ..out };
    assert_eq!(check_output_path_writable(&fresh, false), Ok(()));
}

#[test]
fn compression_policy_threshold() {
    assert!(should_compress(&Compression::Zstd, 0));
    assert!(should_compress(&Compression::Lz4, ENTROPY_THRESHOLD_MILLIBITS - 1));
    assert!(!should_compress(&Compression::Zstd, ENTROPY_THRESHOLD_MILLIBITS));
    assert!(!should_compress(&Compression::Lzma, 8000));
    // with compression off, even the most compressible payload stays raw
    assert!(!should_compress(&Compression::Off, 0));
}

#[test]
fn cached_size_accumulates() {
    let mut c = CachedSize::new();
    assert_eq!(c.0, 0);
    c.cached_data(10);
    c.cached_data(32);
    assert_eq!(c.0, 42);
}

#[test]
fn sidecar_names() {
    let outs = plan_outputs(&ConcatMode::NoConcat, &b"my_archive.arx".to_vec());
    assert_eq!(outs[1].name, b"my_archive.arx.jbkc".to_vec());
    assert_eq!(outs[2].name, b"my_archive.arx.jbkd".to_vec());
}

#[test]
fn byte_name_order() {
    assert!(name_lt(&b"a.txt".to_vec(), &b"z.txt".to_vec()));
    assert!(!name_lt(&b"z.txt".to_vec(), &b"a.txt".to_vec()));
    assert!(name_lt(&b"ab".to_vec(), &b"b".to_vec()));
    assert!(name_lt(&b"a".to_vec(), &b"ab".to_vec()));
    assert!(!name_lt(&b"a".to_vec(), &b"a".to_vec()));
    // names are raw bytes: 0xFF sorts after ASCII
    assert!(name_lt(&b"z".to_vec(), &vec![0xffu8]));
    assert!(name_eq(&b"same".to_vec(), &b"same".to_vec()));
    assert!(!name_eq(&b"same".to_vec(), &b"sane".to_vec()));
}
