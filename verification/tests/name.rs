use dnsparse::{Message, Name};

#[test]
fn test_name_create_pointer() {
    let name = Name::from_bytes(&[1, b'a', 1, b'b', 1, b'c', 0]);
    let name_uppercase = Name::from_bytes(&[1, b'A', 1, b'B', 1, b'C', 0]);
    let sub_name = Name::from_bytes(&[1, b'b', 1, b'c', 0]);
    let sub_sub_name = Name::from_bytes(&[1, b'c', 0]);

    assert_eq!(name.create_pointer(&name), Some([0b11000000, 0]));
    assert_eq!(name_uppercase.create_pointer(&name), Some([0b11000000, 0]));
    assert_eq!(name.create_pointer(&name_uppercase), Some([0b11000000, 0]));
    assert_eq!(name.create_pointer(&sub_name), Some([0b11000000, 2]));
    assert_eq!(sub_name.create_pointer(&name), None);
    assert_eq!(sub_name.create_pointer(&sub_sub_name), Some([0b11000000, 2]));
    assert_eq!(name.create_pointer(&sub_sub_name), Some([0b11000000, 4]));
    assert_eq!(sub_sub_name.create_pointer(&name), None);
    assert_eq!(sub_sub_name.create_pointer(&sub_name), None);
}

#[test]
fn test_name_split() {
    let mut question = [
        71, 208, 1, 0, 0, 1, 0, 0, 0, 0, 0, 0, 7, 99, 97, 112, 116, 105, 118, 101, 5, 97, 112, 112,
        108, 101, 3, 99, 111, 109, 0, 0, 1, 0, 1,
    ];

    let message = Message::parse(&mut question).unwrap();

    let question = message.questions().next().unwrap();
    let name = question.name();

    let (label, name) = name.split();
    assert_eq!(label.as_str(), Some("captive"));

    let (label, name) = name.unwrap().split();
    assert_eq!(label.as_str(), Some("apple"));

    let (label, name) = name.unwrap().split();
    assert_eq!(label.as_str(), Some("com"));

    assert!(name.is_none());
}
