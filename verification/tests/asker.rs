use masqr::address::{IpAddr, SocketAddr};
use masqr::dns::asker::{port_of, Askers, From, Lookup, Program, Row, TABLE_TTL};

/// The port is stored in network order inside a double word, and reading it as a plain number
/// gives a port nobody is listening on — which would silently make every lookup fail.
#[test]
fn a_port_is_read_out_of_the_word_windows_stores_it_in() {
    // 53 in network order is 0x3500 when read as a little-endian u16.
    assert_eq!(port_of(0x0000_3500), 53);
    assert_eq!(port_of(0xdead_3500), 53, "the high half is not part of it");
    assert_eq!(port_of(0x0000_5000), 80);
}

/// A policy names a program either by what the user picked, which is a path, or by what a
/// factory list says, which is a file name. Both have to come out of one lookup.
#[test]
fn a_program_is_known_by_its_path_and_by_its_name() {
    let program = Program::from_path(r"C:\Program Files\Discord\Discord.exe");
    assert_eq!(program.path, r"c:\program files\discord\discord.exe");
    assert_eq!(program.name, "discord.exe");

    // A path with the other separator still yields the name after it.
    let mixed = Program::from_path("C:/Games/Steam/steam.exe");
    assert_eq!(mixed.name, "steam.exe");
}

fn at(port: u16) -> SocketAddr {
    SocketAddr {
        ip: IpAddr::V4(0x7f00_0001),
        port,
    }
}

/// The table is read at most once in a while; a lookup that misses must not read it again on
/// the next query, or a name nobody owns would cost two system calls per question.
#[test]
fn the_table_is_not_read_again_within_its_lifetime() {
    let mut askers = Askers::new();
    let now: u64 = 50_000;
    assert!(matches!(
        askers.of_port(From::Udp(at(1)), now),
        Lookup::ReadTable
    ));
    askers.table_read(From::Udp(at(1)), &[], now);
    assert!(matches!(
        askers.of_port(From::Udp(at(2)), now + TABLE_TTL / 2),
        Lookup::Unknown
    ));
}

/// The two protocols keep their own readings. One shared between them would answer a TCP port
/// out of the UDP table, which does not fail — it names whichever program holds that number
/// over there, and a rule about a program would fire for one that asked nothing.
#[test]
fn each_protocol_has_its_own_reading() {
    let mut askers = Askers::new();
    let now: u64 = 50_000;
    askers.table_read(From::Udp(at(1)), &[], now);
    assert!(
        matches!(askers.of_port(From::Tcp(at(1)), now), Lookup::ReadTable),
        "the tcp table was not read"
    );

    askers.table_read(From::Tcp(at(1)), &[], now);
    assert!(
        matches!(askers.of_port(From::Tcp(at(1)), now), Lookup::Unknown),
        "and now it has been"
    );
    assert!(
        matches!(askers.of_port(From::Udp(at(1)), now), Lookup::Unknown),
        "without disturbing the other"
    );
}

/// A row of a port table: the address and the port in network order, as they are stored.
fn row(address: [u8; 4], port: u16, pid: u32) -> Row {
    Row {
        local_address: u32::from_le_bytes(address),
        local_port: u32::from(port.to_be()),
        pid,
    }
}

/// From the port to the program, with each thing that has to be read on the way read once.
#[test]
fn a_port_leads_to_the_program_that_owns_it() {
    let mut askers = Askers::new();
    let rows = [
        row([127, 0, 0, 1], 1000, 7),
        row([0, 0, 0, 0], 2000, 8),
        row([10, 0, 0, 1], 3000, 9),
        row([127, 0, 0, 1], 1000, 10),
    ];
    askers.table_read(From::Udp(at(1)), &rows, 0);
    askers.table_read(From::Tcp(at(1)), &rows, 0);
    assert!(matches!(
        askers.of_port(From::Udp(at(1000)), 1),
        Lookup::ReadImage(10)
    ));
    assert!(matches!(
        askers.of_port(From::Udp(at(2000)), 1),
        Lookup::ReadImage(8)
    ));
    assert!(
        matches!(askers.of_port(From::Tcp(at(2000)), 1), Lookup::Unknown),
        "a connected socket is bound to a real address"
    );
    assert!(matches!(
        askers.of_port(From::Udp(at(3000)), 1),
        Lookup::Unknown
    ));
    let read = askers.image_read(10, r"C:\A\B.exe");
    assert_eq!(read.name, "b.exe");
    let Lookup::Known(known) = askers.of_port(From::Udp(at(1000)), 1) else {
        panic!("the image was read");
    };
    assert_eq!(known, read);
    assert!(matches!(
        askers.of_port(From::Udp(at(1000)), TABLE_TTL),
        Lookup::ReadTable
    ));

    // The bound is reached by forgetting everything but the one that is new.
    for pid in 0..512 {
        askers.image_read(pid, "x");
    }
    assert!(matches!(
        askers.of_port(From::Udp(at(1000)), 1),
        Lookup::Known(_)
    ));
    askers.image_read(1000, "x");
    assert!(matches!(
        askers.of_port(From::Udp(at(1000)), 1),
        Lookup::ReadImage(10)
    ));
}

/// An image is held until the tables stop mentioning its process: a number that is used again is not
/// taken for the program that had it before.
#[test]
fn an_image_is_held_until_the_tables_stop_mentioning_its_process() {
    let mut askers = Askers::new();
    let (udp, tcp) = (From::Udp(at(1)), From::Tcp(at(1)));
    let held = [row([127, 0, 0, 1], 1000, 7), row([10, 0, 0, 1], 1001, 8)];
    askers.table_read(udp, &held, 0);
    askers.image_read(7, r"C:\one.exe");
    askers.image_read(8, r"C:\two.exe");

    // Still mentioned, wherever its socket is bound.
    let both = [row([127, 0, 0, 1], 1000, 7), row([127, 0, 0, 1], 1001, 8)];
    askers.table_read(udp, &both, 2000);
    assert!(matches!(askers.of_port(From::Udp(at(1001)), 2000), Lookup::Known(_)));

    // Mentioned by the other protocol's table only.
    askers.table_read(tcp, &[row([127, 0, 0, 1], 500, 8)], 4000);
    askers.table_read(udp, &[row([127, 0, 0, 1], 1000, 7)], 4000);
    assert!(matches!(askers.of_port(From::Tcp(at(500)), 4000), Lookup::Known(_)));

    // Gone from both, and then the number is used again.
    askers.table_read(tcp, &[], 6000);
    askers.table_read(udp, &both, 6000);
    assert!(matches!(askers.of_port(From::Udp(at(1000)), 6000), Lookup::Known(_)));
    assert!(matches!(askers.of_port(From::Udp(at(1001)), 6000), Lookup::ReadImage(8)));
}
