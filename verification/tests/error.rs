use vivoh_quic_dash::error::IoFailure;
use vivoh_quic_dash::{Error, VqdError};

#[test]
fn messages_of_errors() {
    let failure = IoFailure { message: "broken pipe".to_string(), unexpected_eof: false };
    assert_eq!(VqdError::Io(failure).message(), "I/O error: broken pipe");
    assert_eq!(VqdError::Xml("no root".to_string()).message(), "XML parsing error: no root");
    assert_eq!(VqdError::MissingFile("a.mpd".to_string()).message(), "Missing file: a.mpd");
    assert_eq!(Error::Other("x".to_string()).message(), "Other error: x");
}
