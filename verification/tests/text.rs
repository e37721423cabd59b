use reverse_cluster::allocator::hrw_weight;
use reverse_cluster::codec::{crc32, fnv1a64, push_frame, read_frame};
use reverse_cluster::control::{ControlError, NodeId};
use reverse_cluster::text::{join, list_of, push_decimal, push_hex, with_number};

#[test]
fn checksums_of_known_strings() {
    assert_eq!(crc32(b"123456789"), 0xCBF4_3926);
    assert_eq!(crc32(b""), 0);
    assert_eq!(fnv1a64(b""), 0xcbf2_9ce4_8422_2325);
    assert_eq!(fnv1a64(b"a"), 0xaf63_dc4c_8601_ec8c);
}

#[test]
fn weights_hash_the_position_and_the_node() {
    assert_eq!(hrw_weight(5, NodeId(7)), 7_129_637_978_868_305_927);
}

#[test]
fn frames_are_read_back() {
    let mut out = Vec::new();
    push_frame(&mut out, &b"one".to_vec());
    let second = out.len();
    push_frame(&mut out, &b"".to_vec());
    assert_eq!(read_frame(&out, 0), Some(b"one".to_vec()));
    assert_eq!(read_frame(&out, second), Some(b"".to_vec()));
    assert_eq!(read_frame(&out, out.len()), None);
    assert_eq!(read_frame(&out[..second - 1], 0), None);
}

#[test]
fn numerals_and_lists() {
    let mut t = String::new();
    push_decimal(&mut t, 0);
    push_decimal(&mut t, u64::MAX);
    assert_eq!(t, "018446744073709551615");
    assert_eq!(with_number("a", 10, "b"), "a10b");
    assert_eq!(list_of(&vec![]), "[]");
    assert_eq!(list_of(&vec![1, 20, 3]), "[1, 20, 3]");
    assert_eq!(join(&vec!["x".to_string(), "y".to_string()], "; "), "x; y");
    let mut h = String::new();
    push_hex(&mut h, 0xBEEF, 6);
    assert_eq!(h, "00beef");
}

#[test]
fn quoted_addresses_are_escaped() {
    let e = ControlError::ForwardToLeader {
        leader: None,
        addr: Some("a\"b\n".to_string()),
    };
    assert_eq!(
        e.message(),
        "not the control-plane leader; forward to None at Some(\"a\\\"b\\n\")"
    );
    assert_eq!(
        ControlError::NotLeader.message(),
        "this node is not the control-plane leader (leader unknown)"
    );
    assert_eq!(
        ControlError::NoQuorum.message(),
        "control-plane proposal could not reach a quorum"
    );
    assert_eq!(
        ControlError::Backend("x".to_string()).message(),
        "control-plane backend error: x"
    );
}
