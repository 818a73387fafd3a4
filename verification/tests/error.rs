use pngoptim::error::AppError;

#[test]
fn exit_codes_per_kind() {
    assert_eq!(AppError::Arg("a".to_string()).exit_code(), 2);
    assert_eq!(AppError::Decode("d".to_string()).exit_code(), 4);
    assert_eq!(AppError::Encode("e".to_string()).exit_code(), 4);
    assert_eq!(AppError::QualityTooLow { minimum: 60, actual: 50 }.exit_code(), 98);
    assert_eq!(
        AppError::SkipIfLargerRejected { input_bytes: 1, output_bytes: 2, maximum_file_size: 0, quality_score: 9 }
            .exit_code(),
        99
    );
    let io = AppError::io_with_path(std::path::PathBuf::from("out/x.png"), std::io::Error::new(std::io::ErrorKind::NotFound, "missing"));
    assert_eq!(io.exit_code(), 3);
    match io {
        AppError::Io { path, source } => {
            assert_eq!(path, Some(std::path::PathBuf::from("out/x.png")));
            assert_eq!(source.kind(), std::io::ErrorKind::NotFound);
        }
        other => panic!("unexpected {other:?}"),
    }
}

#[test]
fn messages_per_kind() {
    assert_eq!(AppError::Arg("bad flag".to_string()).message(), "bad flag");
    assert_eq!(AppError::Decode("x".to_string()).message(), "decode error: x");
    assert_eq!(AppError::Encode("y".to_string()).message(), "encode error: y");
    assert_eq!(
        AppError::QualityTooLow { minimum: 60, actual: 42 }.message(),
        "quality too low: actual=42, minimum=60"
    );
    assert_eq!(
        AppError::SkipIfLargerRejected { input_bytes: 1000, output_bytes: 1200, maximum_file_size: 999, quality_score: 80 }
            .message(),
        "output would be larger: input=1000 bytes, output=1200 bytes, maximum=999 bytes"
    );
    let io = AppError::io_with_path(std::path::PathBuf::from("a/b.png"), std::io::Error::new(std::io::ErrorKind::Other, "disk full"));
    assert_eq!(io.message(), "io error at a/b.png: disk full");
    let io = AppError::Io { path: None, source: std::io::Error::new(std::io::ErrorKind::Other, "broken pipe") };
    assert_eq!(io.message(), "io error: broken pipe");
}
