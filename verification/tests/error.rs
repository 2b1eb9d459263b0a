use blockdag::error::StoreError;

#[test]
fn messages_of_the_errors() {
    assert_eq!(StoreError::NotFound.message(), "not found");
    assert_eq!(StoreError::CorruptEncoding.message(), "corrupt encoding");
    assert_eq!(StoreError::CryptoError.message(), "crypto error");
    assert_eq!(StoreError::IoError.message(), "i/o error");
    assert_eq!(StoreError::DepthExceeded.message(), "depth exceeded");
}

#[test]
fn errors_are_told_apart() {
    assert_ne!(StoreError::NotFound, StoreError::CorruptEncoding);
    assert_ne!(StoreError::NotFound, StoreError::IoError);
    assert_eq!(StoreError::CryptoError, StoreError::CryptoError);
}
