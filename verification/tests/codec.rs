use dnsparse::answer::{read_rdata, read_ttl};
use dnsparse::{
    Answer, Error, Header, HeaderKind, LabelType, Message, MessageBuffer, Name, OpCode,
    QueryClass, QueryKind, Question, ResponseCode,
};

const CAPTIVE: [u8; 35] = [
    30, 252, 1, 0, 0, 1, 0, 0, 0, 0, 0, 0, 7, b'c', b'a', b'p', b't', b'i', b'v', b'e', 5, b'a',
    b'p', b'p', b'l', b'e', 3, b'c', b'o', b'm', 0, 0, 1, 0, 1,
];

const WWW: [u8; 31] = [
    0, 1, 0, 0, 0, 1, 0, 0, 0, 0, 0, 0, 3, b'W', b'w', b'w', 5, b'A', b'P', b'P', b'L', b'E', 3,
    b'c', b'o', b'm', 0, 0, 15, 0, 3,
];

const ROOT: [u8; 17] = [0, 2, 0, 0, 0, 1, 0, 0, 0, 0, 0, 0, 0, 0, 2, 0, 1];

fn first_question<'m>(message: &'m Message<'_>) -> Question<'m> {
    message.questions().next().expect("no question")
}

#[test]
fn build_reproduces_the_parsed_query() {
    let mut source = CAPTIVE;
    let request = Message::parse(&mut source).expect("parsing failed");
    let question = first_question(&request);

    let mut buffer: MessageBuffer = [0xff; 512];
    let header = Header::builder().id(7932).recursion_desired(true).build();
    let mut message = Message::builder(&mut buffer).header(header).build();
    assert_eq!(message.len(), 12);
    message.add_question(&question);

    assert_eq!(message.len(), 35);
    assert_eq!(message.as_bytes(), &CAPTIVE[..]);
    assert_eq!(message.header().question_count(), 1);
    assert_eq!(message.header().answer_count(), 0);
    assert_eq!(&buffer[..35], &CAPTIVE[..]);
    assert!(buffer[35..].iter().all(|byte| *byte == 0xff));
}

#[test]
fn answer_with_the_question_name_is_a_pointer() {
    let mut source = CAPTIVE;
    let request = Message::parse(&mut source).expect("parsing failed");
    let question = first_question(&request);

    let mut buffer: MessageBuffer = [0; 512];
    let header = Header::builder().id(7932).recursion_desired(true).build();
    let mut message = Message::builder(&mut buffer).header(header).build();
    message.add_question(&question);
    let answer = Answer {
        name: *question.name(),
        kind: QueryKind::A,
        class: QueryClass::IN,
        ttl: 300,
        rdata: &[17, 253, 27, 1],
    };
    message.add_answer(&answer);

    assert_eq!(message.len(), 51);
    assert_eq!(
        &message.as_bytes()[35..],
        &[0xC0, 12, 0, 1, 0, 1, 0, 0, 1, 44, 0, 4, 17, 253, 27, 1]
    );
    assert_eq!(&message.as_bytes()[12..35], &CAPTIVE[12..]);
    assert_eq!(message.header().question_count(), 1);
    assert_eq!(message.header().answer_count(), 1);

    let mut copy = [0u8; 51];
    copy.copy_from_slice(message.as_bytes());
    let parsed = Message::parse(&mut copy).expect("the built message does not parse");
    assert_eq!(parsed.len(), 51);
    let mut answers = parsed.answers();
    let read = answers.next().expect("no answer");
    assert_eq!(read.name(), "captive.apple.com");
    assert_eq!(*read.kind(), QueryKind::A);
    assert_eq!(*read.class(), QueryClass::IN);
    assert_eq!(read.ttl(), 300);
    assert_eq!(read.rdata(), &[17, 253, 27, 1]);
    assert!(answers.next().is_none());
}

#[test]
fn truncated_answer_is_too_short() {
    let message: [u8; 51] = [
        30, 252, 1, 0, 0, 1, 0, 1, 0, 0, 0, 0, 7, b'c', b'a', b'p', b't', b'i', b'v', b'e', 5,
        b'a', b'p', b'p', b'l', b'e', 3, b'c', b'o', b'm', 0, 0, 1, 0, 1, 0xC0, 12, 0, 1, 0, 1, 0,
        0, 1, 44, 0, 4, 17, 253, 27, 1,
    ];
    let mut whole = message;
    assert_eq!(Message::parse(&mut whole).expect("parsing failed").len(), 51);
    for cut in 35..51 {
        let mut buffer = message;
        let result = Message::parse(&mut buffer[..cut]);
        assert_eq!(result.err(), Some(Error::MessageTooShort), "cut at {}", cut);
    }
}

#[test]
fn parse_rejects_short_and_long_buffers() {
    let mut short = [0u8; 11];
    assert_eq!(Message::parse(&mut short).err(), Some(Error::MessageTooShort));
    let mut empty = [0u8; 12];
    assert_eq!(Message::parse(&mut empty).expect("an empty message").len(), 12);
    let mut largest = [0u8; 512];
    assert_eq!(Message::parse(&mut largest).expect("the largest buffer").len(), 12);
    let mut long = [0u8; 513];
    assert_eq!(Message::parse(&mut long).err(), Some(Error::MessageTooLong));
}

#[test]
fn a_name_may_read_behind_the_message() {
    // The question's name points into the header, where a label of three
    // bytes begins that runs on over the question and behind it.
    let mut buffer: [u8; 24] = [
        0, 0, 0, 0, 0, 1, 0, 0, 0, 0, 0, 3, 0xC0, 11, 0, 1, 0, 1, b'x', 0, 0, 0, 0, 0,
    ];
    let mut at = 12;
    assert!(Name::read(&buffer, &mut at).is_ok());
    assert_eq!(at, 14);
    let message = Message::parse(&mut buffer).expect("every record decodes inside the buffer");
    assert_eq!(message.len(), 18);
    // Inside the message alone the name cannot be read, and that is told.
    assert_eq!(message.check(), Err(Error::MessageTooShort));
    let mut questions = message.questions();
    assert_eq!(questions.try_next().err(), Some(Error::MessageTooShort));
    assert!(questions.next().is_none());

    // One question whose name is a pointer to offset 0, where a label of 40
    // bytes begins.
    let mut buffer = [0u8; 42];
    buffer[0] = 40;
    buffer[5] = 1;
    buffer[12] = 0xC0;
    buffer[13] = 0;
    let message = Message::parse(&mut buffer).expect("every record decodes inside the buffer");
    assert_eq!(message.len(), 18);
    assert_eq!(message.check(), Err(Error::MessageTooShort));
}

#[test]
fn check_tells_a_consistent_message() {
    let mut source = CAPTIVE;
    let mut message = Message::parse(&mut source).expect("parsing failed");
    assert_eq!(message.check(), Ok(35));
    let mut header = message.header();
    header.set_question_count(2);
    message.set_header(header);
    assert_eq!(message.check(), Err(Error::MessageTooShort));
    let mut questions = message.questions();
    assert!(questions.try_next().expect("the first question").is_some());
    assert_eq!(questions.try_next().err(), Some(Error::MessageTooShort));
    assert_eq!(questions.try_next().err(), Some(Error::MessageTooShort));
    assert!(questions.next().is_none());

    let mut header = message.header();
    header.set_question_count(0);
    message.set_header(header);
    assert_eq!(message.check(), Ok(12));
    let mut questions = message.questions();
    assert!(questions.try_next().expect("no question is counted").is_none());
}

#[test]
fn answers_that_cannot_be_read_are_told() {
    let mut buffer = [0u8; 40];
    buffer[..35].copy_from_slice(&CAPTIVE);
    let mut message = Message::parse(&mut buffer[..35]).expect("parsing failed");
    let mut header = message.header();
    header.set_answer_count(1);
    message.set_header(header);
    let mut answers = message.answers();
    assert_eq!(answers.try_next().err(), Some(Error::MessageTooShort));
    assert!(answers.next().is_none());
    let mut header = message.header();
    header.set_answer_count(0);
    message.set_header(header);
    let mut answers = message.answers();
    assert!(answers.try_next().expect("no answer is counted").is_none());
}

#[test]
fn pointer_cycles_are_rejected() {
    let to_itself = [0xC0u8, 0];
    let mut at = 0;
    assert_eq!(Name::read(&to_itself, &mut at).err(), Some(Error::Pointer));
    assert_eq!(at, 0);

    let each_other = [0xC0u8, 2, 0xC0, 0];
    let mut at = 2;
    assert_eq!(Name::read(&each_other, &mut at).err(), Some(Error::Pointer));
    assert_eq!(at, 2);

    let forwards = [0xC0u8, 2, 1, b'a', 0];
    let mut at = 0;
    assert_eq!(Name::read(&forwards, &mut at).err(), Some(Error::Pointer));

    let into_own_label = [1u8, b'a', 0xC0, 1];
    let mut at = 0;
    assert_eq!(Name::read(&into_own_label, &mut at).err(), Some(Error::Pointer));

    let mut message = [0u8; 14];
    message[5] = 1;
    message[12] = 0xC0;
    message[13] = 12;
    assert_eq!(Message::parse(&mut message).err(), Some(Error::Pointer));
}

#[test]
fn pointers_are_followed_backwards() {
    // "a.b" at 0, "c" and a pointer to "b" at 5, a pointer to that at 9.
    let buffer = [1u8, b'a', 1, b'b', 0, 1, b'c', 0xC0, 2, 0xC0, 5];
    let mut at = 9;
    let name = Name::read(&buffer, &mut at).expect("a chain of pointers");
    assert_eq!(at, 11);
    assert_eq!(&name, "c.b");
    assert_eq!(name.to_string(), "c.b");
    let mut at = 5;
    let name = Name::read(&buffer, &mut at).expect("one pointer");
    assert_eq!(at, 9);
    assert_eq!(&name, "C.B");
}

#[test]
fn names_are_bounded() {
    // 127 labels of one byte take 128 reads, the most there can be.
    let mut buffer = [0u8; 300];
    for k in 0..127 {
        buffer[2 * k] = 1;
        buffer[2 * k + 1] = b'a';
    }
    let mut at = 0;
    assert!(Name::read(&buffer, &mut at).is_ok());
    assert_eq!(at, 255);
    buffer[254] = 1;
    buffer[255] = b'a';
    let mut at = 0;
    assert_eq!(Name::read(&buffer, &mut at).err(), Some(Error::NameTooLong));
    assert_eq!(at, 0);

    // Four labels of 63 bytes and one of three are 255 bytes of labels.
    let mut buffer = [b'x'; 300];
    for k in 0..4 {
        buffer[64 * k] = 63;
    }
    buffer[256] = 3;
    buffer[260] = 0;
    let mut at = 0;
    assert!(Name::read(&buffer, &mut at).is_ok());
    assert_eq!(at, 261);
    buffer[256] = 4;
    buffer[261] = 0;
    let mut at = 0;
    assert_eq!(Name::read(&buffer, &mut at).err(), Some(Error::NameTooLong));
}

#[test]
fn names_that_run_out_are_too_short() {
    let mut at = 0;
    assert_eq!(Name::read(&[], &mut at).err(), Some(Error::MessageTooShort));
    let mut at = 0;
    assert_eq!(Name::read(&[3, b'a', b'b'], &mut at).err(), Some(Error::MessageTooShort));
    let mut at = 0;
    assert_eq!(Name::read(&[3, b'a', b'b', b'c'], &mut at).err(), Some(Error::MessageTooShort));
    let mut at = 0;
    assert_eq!(Name::read(&[0xC0], &mut at).err(), Some(Error::MessageTooShort));
    let mut at = 1;
    assert_eq!(Name::read(&[0, 0x40, 0], &mut at).err(), Some(Error::MessageTooShort));
    let mut at = 1;
    assert_eq!(Name::read(&[0, 0x80, 0], &mut at).err(), Some(Error::MessageTooShort));
    let mut at = 0;
    assert!(Name::read(&[3, b'a', b'b', b'c', 0], &mut at).is_ok());
    assert_eq!(at, 5);
}

#[test]
fn labels_are_read_by_their_top_bits() {
    let buffer = [0u8, 63, 0x40, 0x80, 0xC1, 0x02, 0xFF, 0xFF, 0xC0];
    assert_eq!(LabelType::read(&buffer, 0), Some(LabelType::End));
    assert_eq!(LabelType::read(&buffer, 1), Some(LabelType::Part(63)));
    assert_eq!(LabelType::read(&buffer, 2), None);
    assert_eq!(LabelType::read(&buffer, 3), None);
    assert_eq!(LabelType::read(&buffer, 4), Some(LabelType::Pointer(0x0102)));
    assert_eq!(LabelType::read(&buffer, 6), Some(LabelType::Pointer(0x3FFF)));
    assert_eq!(LabelType::read(&buffer, 8), None);
    assert_eq!(LabelType::read(&buffer, 9), None);
}

#[test]
fn a_shared_suffix_is_compressed() {
    let mut source = CAPTIVE;
    let request = Message::parse(&mut source).expect("parsing failed");
    let mut other = WWW;
    let second = Message::parse(&mut other).expect("parsing failed");

    let mut buffer: MessageBuffer = [0; 512];
    let mut message = Message::builder(&mut buffer).header(Header::builder().build()).build();
    message.add_question(&first_question(&request));
    message.add_question(&first_question(&second));

    assert_eq!(message.len(), 45);
    assert_eq!(&message.as_bytes()[35..], &[3, b'W', b'w', b'w', 0xC0, 20, 0, 15, 0, 3]);
    assert_eq!(message.header().question_count(), 2);

    let mut copy = [0u8; 45];
    copy.copy_from_slice(message.as_bytes());
    let parsed = Message::parse(&mut copy).expect("the built message does not parse");
    let mut questions = parsed.questions();
    assert_eq!(questions.next().expect("first").name(), "captive.apple.com");
    let read = questions.next().expect("second");
    assert_eq!(read.name(), "www.apple.com");
    assert_eq!(read.name().to_string(), "Www.apple.com");
    assert_eq!(*read.kind(), QueryKind::MX);
    assert_eq!(*read.class(), QueryClass::CH);
    assert!(questions.next().is_none());
}

#[test]
fn the_same_name_twice_is_a_pointer_the_second_time() {
    let mut source = WWW;
    let request = Message::parse(&mut source).expect("parsing failed");
    let question = first_question(&request);

    let mut buffer: MessageBuffer = [0; 512];
    let mut message = Message::builder(&mut buffer).header(Header::builder().build()).build();
    message.add_question(&question);
    assert_eq!(message.len(), 31);
    message.add_question(&question);
    assert_eq!(message.len(), 37);
    assert_eq!(&message.as_bytes()[31..], &[0xC0, 12, 0, 15, 0, 3]);
    message.add_question(&question);
    assert_eq!(&message.as_bytes()[37..], &[0xC0, 12, 0, 15, 0, 3]);
    assert_eq!(message.header().question_count(), 3);
}

#[test]
fn a_question_is_inserted_in_front_of_the_answers() {
    let mut source = CAPTIVE;
    let request = Message::parse(&mut source).expect("parsing failed");
    let question = first_question(&request);
    let mut other = WWW;
    let second = Message::parse(&mut other).expect("parsing failed");

    let mut buffer: MessageBuffer = [0; 512];
    let mut message = Message::builder(&mut buffer).header(Header::builder().build()).build();
    message.add_question(&question);
    let answer = Answer {
        name: *question.name(),
        kind: QueryKind::TXT,
        class: QueryClass::IN,
        ttl: 0x01020304,
        rdata: &[],
    };
    message.add_answer(&answer);
    assert_eq!(message.len(), 47);
    message.add_question(&first_question(&second));

    assert_eq!(message.len(), 57);
    assert_eq!(&message.as_bytes()[35..45], &[3, b'W', b'w', b'w', 0xC0, 20, 0, 15, 0, 3]);
    assert_eq!(&message.as_bytes()[45..], &[0xC0, 12, 0, 16, 0, 1, 1, 2, 3, 4, 0, 0]);
    assert_eq!(message.header().question_count(), 2);
    assert_eq!(message.header().answer_count(), 1);

    let mut copy = [0u8; 57];
    copy.copy_from_slice(message.as_bytes());
    let parsed = Message::parse(&mut copy).expect("the built message does not parse");
    let mut answers = parsed.answers();
    let read = answers.next().expect("no answer");
    assert_eq!(read.name(), "captive.apple.com");
    assert_eq!(read.ttl(), 0x01020304);
    assert_eq!(read.rdata().len(), 0);
    assert!(answers.next().is_none());
}

#[test]
fn the_root_name_is_a_zero_byte() {
    let mut source = ROOT;
    let request = Message::parse(&mut source).expect("parsing failed");
    let question = first_question(&request);
    assert!(question.name().is_root());
    assert_eq!(question.name(), "");
    assert_ne!(question.name(), ".");
    assert_eq!(question.name().to_string(), "");

    let mut buffer = [0u8; 64];
    let mut message = Message::builder(&mut buffer).header(Header::builder().id(2).build()).build();
    message.add_question(&question);
    message.add_question(&question);
    assert_eq!(
        message.as_bytes(),
        &[0, 2, 0, 0, 0, 2, 0, 0, 0, 0, 0, 0, 0, 0, 2, 0, 1, 0, 0, 2, 0, 1]
    );
}

#[test]
fn builder_clears_the_header() {
    let mut buffer = [0xffu8; 20];
    let message = Message::builder(&mut buffer).build();
    assert_eq!(message.as_bytes(), &[0u8; 12]);
    assert_eq!(message.len(), 12);
    assert_eq!(&*message, &[0u8; 12]);
    // What stands behind the header is left alone.
    assert_eq!(&buffer[..12], &[0u8; 12]);
    assert_eq!(&buffer[12..], &[0xffu8; 8]);

    let mut buffer = Message::BUFFER;
    assert_eq!(buffer, [0u8; 512]);
    assert_eq!(Message::builder(&mut buffer).build().len(), 12);
}

#[test]
fn set_header_replaces_the_header() {
    let mut source = CAPTIVE;
    let mut message = Message::parse(&mut source).expect("parsing failed");
    let mut header = message.header();
    header.set_id(0x0102);
    header.set_kind(HeaderKind::Response);
    message.set_header(header);
    assert_eq!(&message.as_bytes()[..4], &[1, 2, 0x81, 0]);
    assert_eq!(&message.as_bytes()[4..], &CAPTIVE[4..]);
    assert_eq!(message.header().id(), 0x0102);
    assert_eq!(message.header().kind(), HeaderKind::Response);
}

#[test]
fn header_fields_are_bits_of_the_flags() {
    let header = Header::builder()
        .id(7932)
        .kind(HeaderKind::Response)
        .recursion_desired(true)
        .recursion_available(true)
        .response_code(ResponseCode::Refused)
        .build();
    assert_eq!(header.to_bytes(), [30, 252, 0x81, 0x85, 0, 0, 0, 0, 0, 0, 0, 0]);

    let header = Header::from_bytes([0, 0, 0b0010_1110, 0b0111_1010, 1, 2, 3, 4, 5, 6, 7, 8]);
    assert_eq!(header.kind(), HeaderKind::Query);
    assert_eq!(header.opcode(), OpCode::Update);
    assert!(header.authoritative_answer());
    assert!(header.truncated());
    assert!(!header.recursion_desired());
    assert!(!header.recursion_available());
    assert_eq!(header.response_code(), ResponseCode::NotZone);
    assert_eq!(header.question_count(), 0x0102);
    assert_eq!(header.answer_count(), 0x0304);
    assert_eq!(header.name_server_count(), 0x0506);
    assert_eq!(header.additional_records_count(), 0x0708);
}

#[test]
fn header_setters_leave_the_other_bits() {
    let mut header = Header::from_bytes([0xff; 12]);
    header.set_kind(HeaderKind::Query);
    assert_eq!(header.to_bytes()[2], 0x7f);
    header.set_opcode(OpCode::Status);
    assert_eq!(header.to_bytes()[2], 0b0001_0111);
    assert_eq!(header.opcode(), OpCode::Status);
    header.set_recursion_desired(false);
    assert_eq!(header.to_bytes()[2], 0b0001_0110);
    header.set_recursion_available(false);
    assert_eq!(header.to_bytes()[3], 0x7f);
    header.set_response_code(ResponseCode::ServerFailure);
    assert_eq!(header.to_bytes()[3], 0x72);
    header.set_id(1);
    header.set_question_count(2);
    header.set_answer_count(3);
    header.set_name_server_count(4);
    header.set_additional_records_count(0x0506);
    assert_eq!(header.to_bytes(), [0, 1, 0x16, 0x72, 0, 2, 0, 3, 0, 4, 5, 6]);
}

#[test]
fn opcodes_are_four_bits() {
    let mut header = Header::builder().build();
    header.set_opcode(OpCode::Reserved(15));
    assert_eq!(header.to_bytes()[2], 0x78);
    assert_eq!(header.opcode(), OpCode::Reserved(15));
    assert_eq!(header.kind(), HeaderKind::Query);
    header.set_opcode(OpCode::Reserved(0));
    assert_eq!(header.opcode(), OpCode::Query);
    header.set_opcode(OpCode::Reserved(16 + 4));
    assert_eq!(header.to_bytes()[2], 0b0010_0000);
    assert_eq!(header.opcode(), OpCode::Notify);
    assert_eq!(header.kind(), HeaderKind::Query);
    header.set_kind(HeaderKind::Response);
    header.set_opcode(OpCode::Reserved(0xff));
    assert_eq!(header.to_bytes()[2], 0b1111_1000);
    assert_eq!(header.opcode(), OpCode::Reserved(15));
    assert_eq!(header.kind(), HeaderKind::Response);
    header.set_opcode(OpCode::InverseQuery);
    assert_eq!(header.opcode(), OpCode::InverseQuery);
    header.set_opcode(OpCode::Reserved(3));
    assert_eq!(header.opcode(), OpCode::Reserved(3));
}

#[test]
fn response_codes_round_trip() {
    for n in [0u16, 1, 5, 10, 11, 15, 16, 21, 22, 255, 256, 4095, 65535] {
        assert_eq!(u16::from(ResponseCode::from(n)), n);
    }
    assert_eq!(ResponseCode::from(11), ResponseCode::Reserved(11));
    assert_eq!(ResponseCode::from(16), ResponseCode::BadOptVersionOrBadSignature);
    assert_eq!(ResponseCode::from(21), ResponseCode::BadAlg);
    assert_eq!(ResponseCode::from(22), ResponseCode::Reserved(22));
    assert_eq!(u16::from(ResponseCode::NotAuthoritative), 9);
    assert_eq!(u16::from(ResponseCode::BadKey), 17);

    let mut header = Header::builder().build();
    header.set_response_code(ResponseCode::Reserved(13));
    assert_eq!(header.response_code(), ResponseCode::Reserved(13));
    header.set_response_code(ResponseCode::BadKey);
    assert_eq!(header.to_bytes()[3], 0x01);
    assert_eq!(header.response_code(), ResponseCode::FormatError);
    let mut header = Header::from_bytes([0xff; 12]);
    header.set_response_code(ResponseCode::Reserved(0xfff0));
    assert_eq!(header.to_bytes(), [0xff, 0xff, 0xff, 0xf0, 0xff, 0xff, 0xff, 0xff, 0xff, 0xff, 0xff, 0xff]);
    assert!(header.recursion_available());
    let header = Header::builder().response_code(ResponseCode::BadAlg).build();
    assert_eq!(header.to_bytes()[3], 21 % 16);
}

#[test]
fn kinds_and_classes_are_two_bytes() {
    assert_eq!(QueryKind::A.to_be_bytes(), [0, 1]);
    assert_eq!(QueryKind::TXT.to_be_bytes(), [0, 16]);
    assert_eq!(QueryKind::AXFR.to_be_bytes(), [0, 252]);
    assert_eq!(QueryKind::MAILB.to_be_bytes(), [0, 253]);
    assert_eq!(QueryKind::MAILA.to_be_bytes(), [0, 254]);
    assert_eq!(QueryKind::ALL.to_be_bytes(), [0, 255]);
    assert_eq!(QueryKind::Reserved.to_be_bytes(), [1, 0]);
    assert_eq!(QueryKind::from(12), QueryKind::PTR);
    assert_eq!(QueryKind::from(253), QueryKind::MAILB);
    assert_eq!(QueryKind::from(254), QueryKind::MAILA);
    for n in (1u16..=16).chain(252..=255) {
        assert_eq!(QueryKind::from(n).to_be_bytes(), n.to_be_bytes());
    }
    assert_eq!(QueryKind::from(0), QueryKind::Reserved);
    assert_eq!(QueryKind::from(17), QueryKind::Reserved);
    assert_eq!(QueryClass::IN.to_be_bytes(), [0, 1]);
    assert_eq!(QueryClass::HS.to_be_bytes(), [0, 4]);
    assert_eq!(QueryClass::Reserved.to_be_bytes(), [0, 5]);
    assert_eq!(QueryClass::from(3), QueryClass::CH);
    assert_eq!(QueryClass::from(5), QueryClass::Reserved);
    assert_eq!(QueryClass::from(0), QueryClass::Reserved);

    let mut at = 1;
    assert_eq!(QueryKind::read(&[9, 0, 6, 9], &mut at), Ok(QueryKind::SOA));
    assert_eq!(at, 3);
    assert_eq!(QueryKind::read(&[9, 0, 6, 9], &mut at), Err(Error::MessageTooShort));
    assert_eq!(at, 3);
    let mut at = 0;
    assert_eq!(QueryClass::read(&[0, 2], &mut at), Ok(QueryClass::CS));
    assert_eq!(at, 2);
    assert_eq!(QueryClass::read(&[0, 2], &mut at), Err(Error::MessageTooShort));
}

#[test]
fn ttl_and_rdata_are_read_in_network_order() {
    let buffer = [1u8, 2, 3, 4, 0, 3, 7, 8, 9];
    let mut at = 0;
    assert_eq!(read_ttl(&buffer, &mut at), Ok(0x01020304));
    assert_eq!(at, 4);
    assert_eq!(read_rdata(&buffer, &mut at), Ok(&[7u8, 8, 9][..]));
    assert_eq!(at, 9);
    let mut at = 6;
    assert_eq!(read_ttl(&buffer, &mut at), Err(Error::MessageTooShort));
    assert_eq!(at, 6);
    let mut at = 4;
    assert_eq!(read_rdata(&buffer[..8], &mut at), Err(Error::MessageTooShort));
    assert_eq!(at, 4);
    let mut at = 8;
    assert_eq!(read_rdata(&buffer, &mut at), Err(Error::MessageTooShort));
    let mut at = 0;
    assert_eq!(read_rdata(&[0, 0], &mut at), Ok(&[][..]));
    assert_eq!(at, 2);
}

#[test]
fn records_are_read_one_by_one() {
    let buffer = [1u8, b'a', 0, 0, 2, 0, 3, 0xC0, 0, 0, 5, 0, 4, 0, 0, 0, 9, 0, 1, 42];
    let mut at = 0;
    let question = Question::read(&buffer, &mut at).expect("a question");
    assert_eq!(at, 7);
    assert_eq!(question.name(), "a");
    assert_eq!(*question.kind(), QueryKind::NS);
    assert_eq!(*question.class(), QueryClass::CH);
    let answer = Answer::read(&buffer, &mut at).expect("an answer");
    assert_eq!(at, 20);
    assert_eq!(answer.name(), "A");
    assert_eq!(*answer.kind(), QueryKind::CNAME);
    assert_eq!(*answer.class(), QueryClass::HS);
    assert_eq!(answer.ttl(), 9);
    assert_eq!(answer.rdata(), &[42]);
    let mut at = 7;
    assert_eq!(Answer::read(&buffer[..19], &mut at).err(), Some(Error::MessageTooShort));
    assert_eq!(at, 7);
    let mut at = 0;
    assert_eq!(Question::read(&buffer[..6], &mut at).err(), Some(Error::MessageTooShort));
    assert_eq!(at, 0);
}

#[test]
fn names_compare_without_case() {
    let bytes = [3u8, b'F', b'o', b'0', 2, b'-', b'z', 0];
    let name = Name::from_bytes(&bytes);
    assert_eq!(&name, "Fo0.-z");
    assert_eq!(&name, "fo0.-z");
    assert_eq!(&name, "FO0.-Z");
    assert_ne!(&name, ".fo0.-z");
    assert_ne!(&name, "fo0.-z.");
    assert_ne!(&name, "fo0--z");
    assert_ne!(&name, "fo0");
    assert_ne!(&name, "fo0.-");
    assert_ne!(&name, "fo0.-za");
    assert_ne!(&name, "fo1.-z");
    assert_ne!(&name, "");
    // `@` and `` ` `` differ from letters only by the case bit but are no letters.
    let odd = [1u8, b'@', 0];
    assert_ne!(&Name::from_bytes(&odd), "`");
    assert_eq!(name.to_string(), "Fo0.-z");
}

#[test]
fn labels_that_are_not_text() {
    let bytes = [2u8, 0xff, b'a', 1, b'b', 0];
    let name = Name::from_bytes(&bytes);
    let (label, rest) = name.split();
    assert_eq!(label.as_bytes(), &[0xff, b'a']);
    assert_eq!(label.len(), 2);
    assert_eq!(label.as_str(), None);
    assert_eq!(name.to_string(), "\u{fffd}a.b");
    let (label, rest) = rest.expect("a second label").split();
    assert_eq!(label.as_str(), Some("b"));
    assert!(rest.is_none());
    let text = [2u8, 0xc3, 0xa9, 0];
    assert_eq!(Name::from_bytes(&text).to_string(), "\u{e9}");
    assert_eq!(Name::from_bytes(&text).split().0.as_str(), Some("\u{e9}"));
}

#[test]
fn pointers_past_fourteen_bits_are_not_made() {
    let mut buffer = vec![0u8; 0x4000 + 16];
    buffer[0x3fff] = 1;
    buffer[0x4000] = b'a';
    buffer[0x4001] = 1;
    buffer[0x4002] = b'b';
    let mut at = 0x3fff;
    let name = Name::read(&buffer, &mut at).expect("a name");
    let whole = [1u8, b'a', 1, b'b', 0];
    let tail = [1u8, b'b', 0];
    assert_eq!(name.create_pointer(&Name::from_bytes(&whole)), Some([0xff, 0xff]));
    assert_eq!(name.create_pointer(&Name::from_bytes(&tail)), None);
}

#[test]
fn errors_describe_themselves() {
    assert_eq!(Error::MessageTooShort.description(), "message too short");
    assert_eq!(Error::MessageTooLong.description(), "message too long");
    assert_eq!(Error::Pointer.description(), "invalid pointer");
    assert_eq!(Error::NameTooLong.to_string(), "name too long");
}

/// A small generator of numbers that look random and are the same on every
/// run.
struct Numbers(u64);

impl Numbers {
    fn next(&mut self, below: u64) -> u64 {
        self.0 = self.0.wrapping_mul(6364136223846793005).wrapping_add(1442695040888963407);
        (self.0 >> 33) % below
    }
}

/// A message that holds one question for a name made of labels drawn from a
/// few short words, so that names often share their tails.
fn source(numbers: &mut Numbers) -> (Vec<u8>, String) {
    let words = ["a", "bb", "ccc", "example", "COM", "com", "Net", "x-y", "dddd"];
    let mut bytes = vec![0u8, 0, 0, 0, 0, 1, 0, 0, 0, 0, 0, 0];
    let mut text = String::new();
    let labels = numbers.next(5);
    for k in 0..labels {
        let word = words[numbers.next(words.len() as u64) as usize];
        bytes.push(word.len() as u8);
        bytes.extend_from_slice(word.as_bytes());
        if k > 0 {
            text.push('.');
        }
        text.push_str(word);
    }
    bytes.push(0);
    bytes.extend_from_slice(&[0, 1 + numbers.next(16) as u8, 0, 1 + numbers.next(4) as u8]);
    (bytes, text)
}

#[test]
fn built_messages_parse_back() {
    let mut numbers = Numbers(7);
    for _ in 0..200 {
        let mut buffer = [0u8; 2048];
        let mut message = Message::builder(&mut buffer).header(Header::builder().build()).build();
        let mut questions: Vec<(String, QueryKind, QueryClass)> = Vec::new();
        let mut answers: Vec<(String, u32, Vec<u8>)> = Vec::new();
        let mut literal = 12;
        for _ in 0..numbers.next(12) {
            let (mut bytes, text) = source(&mut numbers);
            let parsed = Message::parse(&mut bytes).expect("a source message");
            let question = first_question(&parsed);
            let before = message.len();
            if numbers.next(2) == 0 {
                message.add_question(&question);
                questions.push((text.clone(), *question.kind(), *question.class()));
                literal += parsed.len() - 12;
                assert!(message.len() - before <= parsed.len() - 12);
            } else {
                let ttl = numbers.next(1 << 32) as u32;
                let mut rdata = Vec::new();
                for _ in 0..numbers.next(20) {
                    rdata.push(numbers.next(256) as u8);
                }
                message.add_answer(&Answer {
                    name: *question.name(),
                    kind: *question.kind(),
                    class: *question.class(),
                    ttl,
                    rdata: &rdata,
                });
                literal += parsed.len() - 12 + 6 + rdata.len();
                assert!(message.len() - before <= parsed.len() - 12 + 6 + rdata.len());
                answers.push((text.clone(), ttl, rdata));
            }
        }
        assert!(message.len() <= literal);
        assert_eq!(message.header().question_count() as usize, questions.len());
        assert_eq!(message.header().answer_count() as usize, answers.len());

        let mut copy = message.as_bytes().to_vec();
        let parsed = Message::parse(&mut copy).expect("the built message does not parse");
        assert_eq!(parsed.len(), message.len());
        assert_eq!(parsed.as_bytes(), message.as_bytes());
        let mut read = parsed.questions();
        for (text, kind, class) in &questions {
            let question = read.next().expect("a question is missing");
            assert_eq!(question.name(), text.as_str());
            assert_eq!(question.name().to_string().to_ascii_lowercase(), text.to_ascii_lowercase());
            assert_eq!(question.kind(), kind);
            assert_eq!(question.class(), class);
        }
        assert!(read.next().is_none());
        let mut read = parsed.answers();
        for (text, ttl, rdata) in &answers {
            let answer = read.next().expect("an answer is missing");
            assert_eq!(answer.name(), text.as_str());
            assert_eq!(answer.ttl(), *ttl);
            assert_eq!(answer.rdata(), rdata.as_slice());
        }
        assert!(read.next().is_none());
    }
}

#[test]
fn arbitrary_buffers_are_parsed_or_rejected() {
    let mut numbers = Numbers(11);
    let mut parsed = 0;
    let mut consistent = 0;
    for _ in 0..20000 {
        let len = numbers.next(80) as usize;
        let mut buffer = vec![0u8; len];
        for byte in buffer.iter_mut() {
            *byte = match numbers.next(4) {
                0 => 0,
                1 => numbers.next(4) as u8,
                2 => 0xC0,
                _ => numbers.next(256) as u8,
            };
        }
        if len >= 8 {
            buffer[4] = 0;
            buffer[5] = numbers.next(3) as u8;
            buffer[6] = 0;
            buffer[7] = numbers.next(3) as u8;
        }
        let received = buffer.clone();
        match Message::parse(&mut buffer) {
            Ok(message) => {
                parsed += 1;
                let len = message.len();
                assert!(12 <= len && len <= received.len());
                assert_eq!(message.as_bytes(), &received[..len]);
                let questions = message.header().question_count();
                let answers = message.header().answer_count();
                let mut again = message.as_bytes().to_vec();
                match message.check() {
                    Ok(end) => {
                        assert_eq!(end, len);
                        consistent += 1;
                        let mut read = message.questions();
                        for _ in 0..questions {
                            let question = read.next().expect("a question is missing");
                            let _ = question.name().to_string();
                        }
                        assert!(read.try_next().expect("behind the last question").is_none());
                        let mut read = message.answers();
                        for _ in 0..answers {
                            assert!(read.next().is_some());
                        }
                        assert!(read.try_next().expect("behind the last answer").is_none());
                        let second = Message::parse(&mut again).expect("a second parse");
                        assert_eq!(second.len(), len);
                    },
                    Err(error) => {
                        assert_eq!(error, Error::MessageTooShort);
                        assert_eq!(Message::parse(&mut again).err(), Some(error));
                    },
                }
            },
            Err(error) => {
                assert_ne!(error, Error::MessageTooLong);
                assert_eq!(buffer, received);
            },
        }
    }
    assert!(parsed > 100);
    assert!(consistent > 100);
    assert!(consistent <= parsed);
}
