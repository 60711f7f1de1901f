use masqr::address::written::parse;
use masqr::address::IpAddr;
use masqr::dns::message::{
    read_answers, read_name, read_query, MessageError, CLASS_IN, HEADER_LEN, TYPE_A, TYPE_AAAA,
};

fn ip(written: &str) -> IpAddr {
    parse(written).expect("a literal address")
}

/// Building messages belongs to the tests and only to the tests: the core forwards what it is
/// given, so a builder in the library would be a serialiser nothing calls and everything could
/// start calling.
#[derive(Default)]
struct Builder {
    bytes: Vec<u8>,
}

impl Builder {
    fn header(id: u16, questions: u16, answers: u16) -> Self {
        let mut bytes = Vec::new();
        bytes.extend_from_slice(&id.to_be_bytes());
        bytes.extend_from_slice(&0x8180u16.to_be_bytes()); // a standard reply, no error
        bytes.extend_from_slice(&questions.to_be_bytes());
        bytes.extend_from_slice(&answers.to_be_bytes());
        bytes.extend_from_slice(&0u16.to_be_bytes()); // authority
        bytes.extend_from_slice(&0u16.to_be_bytes()); // additional
        Self { bytes }
    }

    fn name(mut self, name: &str) -> Self {
        for label in name.split('.') {
            self.bytes.push(label.len() as u8);
            self.bytes.extend_from_slice(label.as_bytes());
        }
        self.bytes.push(0);
        self
    }

    /// A name written as a pointer to an earlier one.
    fn pointer(mut self, to: u16) -> Self {
        self.bytes.extend_from_slice(&(0xc000 | to).to_be_bytes());
        self
    }

    fn u16(mut self, value: u16) -> Self {
        self.bytes.extend_from_slice(&value.to_be_bytes());
        self
    }

    fn record(mut self, rtype: u16, ttl: u32, data: &[u8]) -> Self {
        self.bytes.extend_from_slice(&rtype.to_be_bytes());
        self.bytes.extend_from_slice(&CLASS_IN.to_be_bytes());
        self.bytes.extend_from_slice(&ttl.to_be_bytes());
        self.bytes
            .extend_from_slice(&(data.len() as u16).to_be_bytes());
        self.bytes.extend_from_slice(data);
        self
    }

    fn raw(mut self, bytes: &[u8]) -> Self {
        self.bytes.extend_from_slice(bytes);
        self
    }

    fn done(self) -> Vec<u8> {
        self.bytes
    }
}

#[test]
fn a_query_says_what_it_asks_about() {
    let message = Builder::header(0x2a2a, 1, 0)
        .name("Www.Example.COM")
        .u16(TYPE_A)
        .u16(CLASS_IN)
        .done();

    let query = read_query(&message).unwrap();
    assert_eq!(query.id, 0x2a2a);
    // Lowered here so that no policy comparison anywhere else has to remember to.
    assert_eq!(query.name, "www.example.com");
    assert_eq!(query.qtype, TYPE_A);
    assert_eq!(query.qclass, CLASS_IN);
}

/// The shape a real reply has: the answer is about the name at the end of a CNAME chain, not
/// about the name that was asked. Both addresses have to be found, and the routing that follows
/// is about the addresses, not about which name produced them.
#[test]
fn a_reply_gives_up_its_addresses_through_a_cname() {
    let message = Builder::header(1, 1, 3)
        .name("cdn.example.com")
        .u16(TYPE_A)
        .u16(CLASS_IN)
        // answer 1: the CNAME, whose owner is the question name written as a pointer
        .pointer(HEADER_LEN as u16)
        .record(5, 300, &[3, b'e', b'd', b'g', b'e', 0])
        // answer 2 and 3: the addresses, owned by the target
        .name("edge")
        .record(TYPE_A, 60, &[104, 16, 0, 1])
        .name("edge")
        .record(
            TYPE_AAAA,
            60,
            &[0x26, 0x06, 0x47, 0, 0, 0, 0, 0, 0, 0, 0, 0, 0, 0, 0, 1],
        )
        .done();

    let answers = read_answers(&message).unwrap();
    assert_eq!(answers.len(), 2, "the CNAME is not an address");
    assert_eq!(answers[0].address, ip("104.16.0.1"));
    assert_eq!(answers[0].ttl, 60);
    assert_eq!(answers[0].name, "edge");
    assert_eq!(
        answers[1].address,
        ip("2606:4700::1")
    );
}

/// An unknown record type is ordinary. Skipping it by its declared length keeps the rest of the
/// answer readable; refusing the message would throw away addresses that are perfectly good.
#[test]
fn an_unknown_record_is_stepped_over_rather_than_refused() {
    let message = Builder::header(1, 1, 2)
        .name("example.com")
        .u16(TYPE_A)
        .u16(CLASS_IN)
        .name("example.com")
        .record(99, 300, &[1, 2, 3, 4, 5, 6, 7])
        .name("example.com")
        .record(TYPE_A, 30, &[1, 1, 1, 1])
        .done();

    let answers = read_answers(&message).unwrap();
    assert_eq!(answers.len(), 1);
    assert_eq!(answers[0].address, ip("1.1.1.1"));
}

/// A record whose length disagrees with its type is malformed. It costs one address to skip and
/// the whole answer to refuse, so it is skipped.
#[test]
fn an_address_record_of_the_wrong_size_is_skipped() {
    let message = Builder::header(1, 1, 1)
        .name("example.com")
        .u16(TYPE_A)
        .u16(CLASS_IN)
        .name("example.com")
        .record(TYPE_A, 30, &[1, 1, 1])
        .done();
    assert_eq!(read_answers(&message).unwrap(), vec![]);
}

/// A record in another class is not about the internet, whatever its type says.
#[test]
fn a_record_outside_the_internet_class_is_not_an_address() {
    let mut message = Builder::header(1, 1, 1)
        .name("example.com")
        .u16(TYPE_A)
        .u16(CLASS_IN)
        .name("example.com")
        .record(TYPE_A, 30, &[1, 1, 1, 1])
        .done();
    // The class sits two bytes after the type, at the end of the record header.
    let class_at = message.len() - 4 - 4 - 2 - 2;
    message[class_at..class_at + 2].copy_from_slice(&3u16.to_be_bytes());
    assert_eq!(read_answers(&message).unwrap(), vec![]);
}

/// A pointer that leads forward, or at itself, is the shape that makes a naive reader spin.
#[test]
fn a_pointer_that_does_not_lead_backwards_is_refused() {
    let message = Builder::header(1, 1, 0).pointer(HEADER_LEN as u16).done();
    assert_eq!(
        read_name(&message, HEADER_LEN),
        Err(MessageError::PointerLoop)
    );
}

#[test]
fn a_pointer_past_the_end_is_refused() {
    let message = Builder::header(1, 1, 0).pointer(9000).done();
    assert_eq!(
        read_name(&message, HEADER_LEN),
        Err(MessageError::PointerOutOfRange)
    );
}

/// A name written as a pointer ends, for the caller walking the message, two bytes on — not
/// wherever the pointer led. Getting this wrong walks the reader into the middle of a record.
#[test]
fn a_compressed_name_ends_where_it_was_written() {
    let message = Builder::header(1, 1, 0)
        .name("example.com")
        .u16(TYPE_A)
        .u16(CLASS_IN)
        .pointer(HEADER_LEN as u16)
        .raw(&[0xaa, 0xbb])
        .done();

    let written_at = message.len() - 4;
    let (name, after) = read_name(&message, written_at).unwrap();
    assert_eq!(name, "example.com");
    assert_eq!(after, written_at + 2);
}

#[test]
fn a_label_longer_than_the_protocol_allows_is_refused() {
    let mut message = Builder::header(1, 1, 0).done();
    message.push(64);
    message.extend_from_slice(&[b'a'; 64]);
    message.push(0);
    assert_eq!(
        read_name(&message, HEADER_LEN),
        Err(MessageError::LabelTooLong(64))
    );
}

/// Every prefix of a real message is a malformed message, and none of them may panic.
#[test]
fn no_truncation_of_a_real_message_panics() {
    let message = Builder::header(7, 1, 1)
        .name("www.example.com")
        .u16(TYPE_A)
        .u16(CLASS_IN)
        .name("www.example.com")
        .record(TYPE_A, 60, &[93, 184, 216, 34])
        .done();

    for cut in 0..message.len() {
        let _ = read_query(&message[..cut]);
        let _ = read_answers(&message[..cut]);
    }
    assert_eq!(read_answers(&message).unwrap().len(), 1);
}

#[test]
fn a_message_with_no_question_is_not_a_query() {
    let message = Builder::header(1, 0, 0).done();
    assert_eq!(read_query(&message), Err(MessageError::NoQuestion));
}

#[test]
fn every_way_a_message_can_be_unreadable_is_said() {
    for (error, said) in [
        (
            MessageError::Truncated("header"),
            "the message ends before its header does",
        ),
        (MessageError::NoQuestion, "the message carries no question"),
        (
            MessageError::LabelTooLong(70),
            "a label is 70 bytes, and 63 is the most a label may be",
        ),
        (
            MessageError::NameTooLong,
            "a name is longer than the 255 bytes a name may be",
        ),
        (
            MessageError::PointerOutOfRange,
            "a compression pointer leads outside the message",
        ),
        (
            MessageError::PointerLoop,
            "a compression pointer leads back on itself",
        ),
    ] {
        assert_eq!(error.text(), said);
    }
}
