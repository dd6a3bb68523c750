use museek::codec::peer::{obfuscate, rotate_key, PeerMsg, PeerMsgCodec};
use museek::codec::server::hex_digest;
use bytes::BytesMut;

#[test]
fn test_rotate_key() {
    let mut key = BytesMut::new();
    key.extend(&[221, 1, 148, 189]);

    rotate_key(&mut key);

    assert_eq!(&[187, 3, 40, 123], &*key);
}

#[test]
fn test_obfuscation_encode() {
    let mut source = BytesMut::from("test message");
    let mut key = BytesMut::new();
    key.extend(&[221, 1, 148, 189]);

    let len = source.len();
    obfuscate(&mut source, &mut key, len);

    assert_eq!(
        &[207, 102, 91, 15, 86, 106, 53, 133, 158, 111, 199, 137],
        &*source
    );
}

#[test]
fn test_obfuscation_decode() {
    let mut source = BytesMut::new();
    source.extend(&[207, 102, 91, 15, 86, 106, 53, 133, 158, 111, 199, 137]);
    let mut key = BytesMut::new();
    key.extend(&[221, 1, 148, 189]);

    let len = source.len();
    obfuscate(&mut source, &mut key, len);

    assert_eq!(&String::from_utf8(source.to_vec()).unwrap(), "test message");
}

#[test]
fn test_obfuscated_encode_decode() {
    let msg = PeerMsg::HPierceFirewall { token: 1234 };

    let mut bytes = BytesMut::new();
    bytes.reserve(1024);

    let mut codec = PeerMsgCodec::new(true);

    codec.encode(msg.clone(), &mut bytes);
    let result = codec.decode(&mut bytes).unwrap();

    assert_eq!(msg, result);
}

#[test]
fn test_hex_digest() {
    let source = "0123456789abcdef".as_bytes();
    let result = hex_digest(source, 16);

    assert_eq!(
        "30313233343536373839616263646566\0\0\0\0\0\0\0\0\0\0\0\0\0\0\0\0\0\0\0\0\0\0\0\0\0\0\0\0\0\0\0\0\0".as_bytes(),
        &result[..]
    );
}
