use masqr::diagnose::packets::{
    dns_answers, dns_query, icmp_echo_reply, ipv4_icmp_echo, ipv4_udp, udp_payload,
};
use masqr::ip::checksum;

const US: [u8; 4] = [172, 16, 0, 2];
const THEM: [u8; 4] = [1, 1, 1, 1];

/// What the far side sends back for an echo: the same message with the addresses swapped and
/// the type turned into a reply.
fn reply_to(request: &[u8]) -> Vec<u8> {
    let mut reply = request.to_vec();
    reply[12..16].copy_from_slice(&THEM);
    reply[16..20].copy_from_slice(&US);
    reply[20] = 0;
    reply
}

/// A checksum a receiver rejects makes every echo look like a path that swallows them.
#[test]
fn an_echo_request_carries_checksums_that_verify() {
    let packet = ipv4_icmp_echo(US, THEM, 0x6d71, 7, &[0x5a; 64]);
    // Summed with its own checksum in place, a correct header or message comes to zero.
    assert_eq!(checksum(&packet[..20]), 0);
    assert_eq!(checksum(&packet[20..]), 0);
    assert_eq!(
        usize::from(u16::from_be_bytes([packet[2], packet[3]])),
        packet.len()
    );
}

#[test]
fn only_a_reply_to_this_run_is_counted() {
    let request = ipv4_icmp_echo(US, THEM, 0x6d71, 7, &[0x5a; 64]);
    assert_eq!(icmp_echo_reply(&reply_to(&request), US, 0x6d71), Some(7));
    assert_eq!(icmp_echo_reply(&reply_to(&request), US, 0x0001), None);
    assert_eq!(icmp_echo_reply(&reply_to(&request), THEM, 0x6d71), None);
    // The request itself, looped back, is not an answer.
    assert_eq!(icmp_echo_reply(&request, THEM, 0x6d71), None);
}

#[test]
fn an_answer_is_read_through_a_compressed_name() {
    let query = dns_query("cloudflare.com");
    let mut message = query.clone();
    message[2] |= 0x80;
    message[7] = 2;
    for address in [[104, 16, 132, 229], [104, 16, 133, 229]] {
        // A pointer to the question's name, then A, IN, a TTL, and four bytes of address.
        message.extend_from_slice(&[0xc0, 12, 0, 1, 0, 1, 0, 0, 1, 44, 0, 4]);
        message.extend_from_slice(&address);
    }
    let packet = ipv4_udp(THEM, US, 53, 40000, &message);

    let payload = udp_payload(&packet, US).expect("addressed to us");
    assert_eq!(
        dns_answers(payload),
        vec!["104.16.132.229", "104.16.133.229"]
    );
    assert_eq!(udp_payload(&packet, THEM), None);
    assert!(dns_answers(&message[..message.len() - 3]).len() == 1);
}
