//! Jenkins lookup3 checksum.

use hdf5_rust::checksum::lookup3;

#[test]
fn empty_is_deadbeef() {
    assert_eq!(lookup3(b"", 0), 0xdeadbeef);
    assert_eq!(lookup3(b"", 1), 0xdeadbeefu32.wrapping_add(1));
}

#[test]
fn deterministic() {
    let d = b"Four score and seven years ago";
    assert_eq!(lookup3(d, 0), lookup3(d, 0));
    assert_ne!(lookup3(d, 0), lookup3(d, 1));
}

#[test]
fn lookup3_known_vectors() {
    let d = b"Four score and seven years ago";
    assert_eq!(lookup3(d, 0), 0x1777_0551);
    assert_eq!(lookup3(d, 1), 0xcd62_8161);
}

#[test]
fn lookup3_twelve_byte_boundary() {
    let a = lookup3(b"abcdefghijkl", 0);
    let b = lookup3(b"abcdefghijklm", 0);
    assert_ne!(a, b);
    assert_eq!(a, lookup3(b"abcdefghijkl", 0));
}
