use masqr::encoding::{b64, from_b64};
use masqr::transport::tls::{
    client_certificate, expected_endpoint_spki, presenting, session, PinnedKeyVerifier,
    TlsSetupError, DIFFERENT_KEY,
};
use masqr::warp::api::{
    answered, cloudflare_string, endpoint_address, enroll_url, enrolling, identity_of,
    random_serial, register_url, registration, ApiError, Peer, Profile, ENDPOINT_H2_V4,
    ENDPOINT_H3_V4, FIRST_STAMP, LAST_STAMP,
};
use masqr::warp::enrolment::{
    refusal_is_about_the_device, Enrolment, EnrolmentError, Refused, MIN_INTERVAL,
};
use masqr::warp::identity::{Identity, IdentityError};
use masqr::warp::keys::{generate_wireguard_public, public_point, KeyError, MasqueKeyPair};

/// Both forms the API writes the peer endpoint in: a v4 address and a bracketed v6 one, each
/// with a placeholder port.
#[test]
fn the_peer_endpoint_is_read_without_its_port() {
    assert_eq!(endpoint_address("162.159.198.1:0"), "162.159.198.1");
    assert_eq!(endpoint_address("[2606:4700:103::1]:0"), "2606:4700:103::1");
}

/// Anything else is left empty, which makes the identity fall back to the known address rather
/// than dial something half-read.
#[test]
fn an_endpoint_that_does_not_parse_is_left_empty() {
    assert_eq!(endpoint_address(""), "");
    assert_eq!(endpoint_address("162.159.198.1"), "");
    assert_eq!(endpoint_address("not an address:0"), "");
}

/// The whole of what decides whether a device is thrown away. Getting it wrong in one direction
/// abandons a working device on every server hiccup; in the other it never notices an
/// invalidated one.
#[test]
fn only_the_endpoint_declining_us_is_about_the_device() {
    for refused in [
        401,
        403,
        400,
        410,
    ] {
        assert!(refusal_is_about_the_device(refused), "{refused}");
    }
    for elsewhere in [
        500,
        502,
        503,
        200,
        307,
    ] {
        assert!(!refusal_is_about_the_device(elsewhere), "{elsewhere}");
    }
}

/// Registering creates a real device, so a burst of refusals must not create a burst of them.
/// The interval is decided before anything is registered.
#[test]
fn a_second_refusal_too_soon_registers_nothing() {
    let now: u64 = 5_000_000;
    let mut enrolment = Enrolment::new("identity.json".to_string(), sample(), None);
    assert_eq!(enrolment.refresh(now), Ok(()));
    // As though one had just happened.
    enrolment.registered(now);
    enrolment.adopt(sample());

    assert_eq!(enrolment.refresh(now), Err(Refused::TooSoon));
    assert_eq!(
        enrolment.refresh(now + MIN_INTERVAL - 1),
        Err(Refused::TooSoon)
    );
    assert_eq!(enrolment.refresh(now + MIN_INTERVAL), Ok(()));
    assert_eq!(enrolment.path(), "identity.json");
    assert_eq!(enrolment.current().device_id, "device");
}

/// The interval lies between any two registrations: the one made for want of a file counts, and so
/// does one that could not be written down, which leaves the device that is presented alone.
#[test]
fn every_registration_begins_the_interval() {
    let now: u64 = 5_000_000;
    let mut enrolment = Enrolment::new("identity.json".to_string(), sample(), Some(now));
    assert_eq!(enrolment.refresh(now + 1), Err(Refused::TooSoon));
    assert_eq!(
        enrolment.refresh(now + MIN_INTERVAL - 1),
        Err(Refused::TooSoon)
    );
    let again = now + MIN_INTERVAL;
    assert_eq!(enrolment.refresh(again), Ok(()));

    enrolment.registered(again);
    assert_eq!(enrolment.current().device_id, "device");
    assert_eq!(enrolment.refresh(again + 1), Err(Refused::TooSoon));

    let mut other = sample();
    other.device_id = "another".into();
    enrolment.adopt(other);
    assert_eq!(enrolment.current().device_id, "another");
    assert_eq!(enrolment.refresh(again + MIN_INTERVAL), Ok(()));
}

fn sample() -> Identity {
    Identity {
        device_id: "device".into(),
        access_token: "token".into(),
        license: String::new(),
        private_key_sec1: String::new(),
        endpoint_public_key_pem: String::new(),
        assigned_v4: "172.16.0.2".into(),
        assigned_v6: "2606:4700::1".into(),
        endpoint_h2_v4: "162.159.198.2".into(),
        endpoint_v4: "162.159.198.1".into(),
        endpoint_v6: String::new(),
    }
}

/// An identity written before the HTTP/3 address was kept. Every device registered until then
/// has one of these on disk, and it has to keep working without registering again.
const WRITTEN_BEFORE: &str = r#"{
    "device_id": "device",
    "access_token": "token",
    "private_key_sec1": "",
    "endpoint_public_key_pem": "",
    "assigned_v4": "172.16.0.2",
    "assigned_v6": "2606:4700::1",
    "endpoint_h2_v4": "162.159.198.2"
}"#;

/// An identity out of the file it is kept in. What the file does not say is empty.
fn read(text: &str) -> Identity {
    let value: serde_json::Value = serde_json::from_str(text).expect("the old shape reads");
    let field = |name: &str| value[name].as_str().unwrap_or_default().to_string();
    Identity {
        device_id: field("device_id"),
        access_token: field("access_token"),
        license: field("license"),
        private_key_sec1: field("private_key_sec1"),
        endpoint_public_key_pem: field("endpoint_public_key_pem"),
        assigned_v4: field("assigned_v4"),
        assigned_v6: field("assigned_v6"),
        endpoint_h2_v4: field("endpoint_h2_v4"),
        endpoint_v4: field("endpoint_v4"),
        endpoint_v6: field("endpoint_v6"),
    }
}

#[test]
fn an_older_identity_still_reads_and_dials_the_known_address() {
    let identity = read(WRITTEN_BEFORE);
    assert_eq!(identity.endpoint_v4, "");
    assert_eq!(identity.endpoint_h3_v4(), ENDPOINT_H3_V4);
}

#[test]
fn the_address_registration_returned_wins_over_the_known_one() {
    let mut identity = read(WRITTEN_BEFORE);
    identity.endpoint_v4 = "198.51.100.7".into();
    assert_eq!(identity.endpoint_h3_v4(), "198.51.100.7");
}

fn keys() -> MasqueKeyPair {
    MasqueKeyPair::generate().expect("a key pair")
}

/// A public key in DER as PEM.
fn pem(der: &[u8]) -> String {
    let text = b64(der);
    let mut out = String::from("-----BEGIN PUBLIC KEY-----\n");
    for line in text.as_bytes().chunks(64) {
        out.push_str(&String::from_utf8(line.to_vec()).unwrap());
        out.push('\n');
    }
    out.push_str("-----END PUBLIC KEY-----\n");
    out
}

#[test]
fn a_pair_is_written_in_base64_or_says_why_it_is_not() {
    let pair = MasqueKeyPair::written(Ok((vec![1, 2, 3], b"masqr".to_vec()))).unwrap();
    assert_eq!(pair.private_sec1_base64, "AQID");
    assert_eq!(pair.public_spki_base64, "bWFzcXI=");

    let error = MasqueKeyPair::written(Err("too long".into())).unwrap_err();
    assert_eq!(error, KeyError::Encode("too long".into()));
    assert_eq!(error.text(), "encoding the P-256 key: too long");
}

#[test]
fn the_halves_of_a_generated_pair_belong_together() {
    let pair = keys();
    let sec1 = from_b64(&pair.private_sec1_base64).unwrap();
    let spki = from_b64(&pair.public_spki_base64).unwrap();
    let point = public_point(&sec1).unwrap();
    assert_eq!(point.len(), 65);
    assert_eq!(
        spki[..26],
        [
            0x30, 0x59, 0x30, 0x13, 0x06, 0x07, 0x2a, 0x86, 0x48, 0xce, 0x3d, 0x02, 0x01, 0x06,
            0x08, 0x2a, 0x86, 0x48, 0xce, 0x3d, 0x03, 0x01, 0x07, 0x03, 0x42, 0x00,
        ]
    );
    assert_eq!(spki[26..], point[..]);
    assert_ne!(keys().private_sec1_base64, pair.private_sec1_base64);
    assert!(matches!(public_point(&[1, 2, 3]), Err(KeyError::Encode(_))));
}

#[test]
fn a_registration_key_is_thirty_two_bytes() {
    let key = generate_wireguard_public();
    assert_eq!(from_b64(&key).unwrap().len(), 32);
    assert_ne!(key, generate_wireguard_public());
}

#[test]
fn a_serial_is_sixteen_hexadecimal_digits() {
    let serial = random_serial();
    assert_eq!(serial.len(), 16);
    assert!(serial
        .bytes()
        .all(|digit| digit.is_ascii_digit() || (b'a'..=b'f').contains(&digit)));
    assert_ne!(serial, random_serial());
}

#[test]
fn the_terms_are_stamped_with_milliseconds_and_an_offset() {
    assert_eq!(
        cloudflare_string(1_788_127_954_567, 7200),
        "2026-08-31T00:12:34.567+02:00"
    );
    assert_eq!(cloudflare_string(0, 0), "1970-01-01T00:00:00.000+00:00");
    assert_eq!(
        cloudflare_string(0, -12_600),
        "1969-12-31T20:30:00.000-03:30"
    );
}

/// A clock may stand anywhere: before 1970, past the years that four digits hold, and at either end
/// of what there are dates for, a day further where the offset carries it.
#[test]
fn any_moment_there_is_a_date_for_is_stamped() {
    assert_eq!(cloudflare_string(-1, 0), "1969-12-31T23:59:59.999+00:00");
    assert_eq!(
        cloudflare_string(253_402_300_800_000, 0),
        "+10000-01-01T00:00:00.000+00:00"
    );
    assert_eq!(
        cloudflare_string(FIRST_STAMP, 0),
        "-262143-01-01T00:00:00.000+00:00"
    );
    assert_eq!(
        cloudflare_string(LAST_STAMP, 0),
        "+262142-12-31T23:59:59.999+00:00"
    );
    assert_eq!(
        cloudflare_string(LAST_STAMP, 3600),
        "+262143-01-01T00:59:59.999+01:00"
    );
    assert_eq!(
        cloudflare_string(FIRST_STAMP, -3600),
        "-262144-12-31T23:00:00.000-01:00"
    );
}

#[test]
fn the_calls_go_where_the_version_says() {
    assert_eq!(
        register_url(),
        "https://api.cloudflareclient.com/v0a4471/reg"
    );
    assert_eq!(
        enroll_url("abc"),
        "https://api.cloudflareclient.com/v0a4471/reg/abc"
    );
    let request = registration("k".into(), "t".into(), "s".into());
    assert_eq!(request.key, "k");
    assert_eq!(request.tos, "t");
    assert_eq!(request.serial_number, "s");
    assert_eq!(request.key_type, "curve25519");
    assert_eq!(request.tunnel_type, "wireguard");
    let pair = keys();
    let request = enrolling(&pair);
    assert_eq!(request.key, pair.public_spki_base64);
    assert_eq!(request.key_type, "secp256r1");
    assert_eq!(request.tunnel_type, "masque");
}

#[test]
fn a_status_that_is_no_success_is_an_error_that_names_the_call() {
    assert_eq!(answered("reg", 200), Ok(()));
    assert_eq!(answered("reg", 299), Ok(()));
    for status in [199, 300, 403, 500] {
        assert_eq!(
            answered("enroll", status),
            Err(ApiError::Status {
                call: "enroll",
                status
            })
        );
    }
}

fn profile(peers: Vec<Peer>) -> Profile {
    Profile {
        id: "enrolled".into(),
        token: "token".into(),
        license: "licence".into(),
        peers,
        v4: "172.16.0.2".into(),
        v6: "2606:4700::2".into(),
    }
}

#[test]
fn an_identity_is_put_together_from_both_answers() {
    let peer = Peer {
        public_key: "pem".into(),
        endpoint_v4: "162.159.198.1:0".into(),
        endpoint_v6: "[2606:4700:103::1]:0".into(),
    };
    let mut registered = profile(Vec::new());
    registered.id = "registered".into();
    registered.token = "first".into();
    let pair = keys();
    let private = pair.private_sec1_base64.clone();
    let identity = identity_of(registered, profile(vec![peer]), pair).unwrap();
    assert_eq!(identity.device_id, "enrolled");
    assert_eq!(identity.access_token, "first");
    assert_eq!(identity.license, "licence");
    assert_eq!(identity.private_key_sec1, private);
    assert_eq!(identity.endpoint_public_key_pem, "pem");
    assert_eq!(identity.assigned_v4, "172.16.0.2");
    assert_eq!(identity.assigned_v6, "2606:4700::2");
    assert_eq!(identity.endpoint_h2_v4, ENDPOINT_H2_V4);
    assert_eq!(identity.endpoint_v4, "162.159.198.1");
    assert_eq!(identity.endpoint_v6, "2606:4700:103::1");

    let nobody = identity_of(profile(Vec::new()), profile(Vec::new()), keys());
    assert!(matches!(nobody, Err(ApiError::NoPeer)));
}

/// What is presented is the enrolled key, and what is accepted is the one key that was handed back.
#[test]
fn a_certificate_carries_the_enrolled_key() {
    let pair = keys();
    let spki = from_b64(&pair.public_spki_base64).unwrap();
    let mut identity = sample();
    identity.private_key_sec1 = pair.private_sec1_base64.clone();
    identity.endpoint_public_key_pem = pem(&spki);

    let auth = client_certificate(&identity).unwrap();
    let verifier = PinnedKeyVerifier {
        expected: spki.clone(),
    };
    assert_eq!(verifier.verify(&auth.certificate), Ok(()));
    assert_eq!(expected_endpoint_spki(&identity).unwrap(), spki);
    assert_ne!(
        auth.key,
        from_b64(&pair.private_sec1_base64).unwrap(),
        "the key is re-encoded"
    );

    let session = session(&identity).unwrap();
    assert_eq!(session.verifier.expected, spki);
    assert_eq!(session.verifier.verify(&session.auth.certificate), Ok(()));

    let other = PinnedKeyVerifier {
        expected: from_b64(&keys().public_spki_base64).unwrap(),
    };
    assert_eq!(
        other.verify(&auth.certificate),
        Err(DIFFERENT_KEY.to_string())
    );
    let said = verifier.verify(&[1, 2, 3]).unwrap_err();
    assert!(said.starts_with("endpoint certificate: "), "{said}");
    assert_eq!(
        verifier.judge(Ok(Err("why".to_string()))),
        Err("endpoint public key: why".to_string())
    );
}

#[test]
fn an_identity_that_cannot_be_used_says_which_part() {
    let mut identity = sample();
    identity.private_key_sec1 = "not base64!".into();
    assert!(matches!(
        client_certificate(&identity),
        Err(TlsSetupError::PrivateKey(_))
    ));
    identity.private_key_sec1 = b64(&[1, 2, 3]);
    assert!(matches!(
        client_certificate(&identity),
        Err(TlsSetupError::PrivateKey(_))
    ));
    identity.private_key_sec1 = keys().private_sec1_base64;
    identity.endpoint_public_key_pem = "no key".into();
    assert!(matches!(
        session(&identity),
        Err(TlsSetupError::EndpointKey(_))
    ));
    assert!(matches!(
        presenting(Err("why".to_string()), Vec::new()),
        Err(TlsSetupError::Certificate(_))
    ));
}

#[test]
fn every_way_of_having_no_device_is_said() {
    let key = KeyError::Encode("why".into());
    assert_eq!(key.text(), "encoding the P-256 key: why");
    for (error, said) in [
        (ApiError::Http("why".into()), "http: why"),
        (
            ApiError::Status {
                call: "register",
                status: 429,
            },
            "register returned 429",
        ),
        (
            ApiError::NoPeer,
            "the enrolled profile carries no peer to connect to",
        ),
        (ApiError::Key(key), "key: encoding the P-256 key: why"),
    ] {
        assert_eq!(error.text(), said);
        assert_eq!(
            EnrolmentError::Register(error).text(),
            format!("registering a device: {said}")
        );
    }
    assert_eq!(
        EnrolmentError::Identity(IdentityError::Io("why".into())).text(),
        "io: why"
    );
    assert_eq!(IdentityError::Parse("why".into()).text(), "parse: why");
    for (error, said) in [
        (
            TlsSetupError::EndpointKey("why".into()),
            "the identity's endpoint public key is not readable: why",
        ),
        (
            TlsSetupError::Certificate("why".into()),
            "building the client certificate: why",
        ),
    ] {
        assert_eq!(error.text(), said);
    }
}
