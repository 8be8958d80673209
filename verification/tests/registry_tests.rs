use dnssd::discovery_handler::DiscoveryHandler;
use dnssd::dns::DnsSdResponse;
use dnssd::receiver::process_packet;
use dnssd::{IpAddress, IpType};

fn dirigera_response() -> [u8; 221] {
    [
        0x00, 0x00, 0x84, 0x00, 0x00, 0x01, 0x00, 0x03, 0x00, 0x00, 0x00, 0x00, 0x08, 0x44, 0x49,
        0x52, 0x49, 0x47, 0x45, 0x52, 0x41, 0x04, 0x5f, 0x68, 0x61, 0x70, 0x04, 0x5f, 0x74, 0x63,
        0x70, 0x05, 0x6c, 0x6f, 0x63, 0x61, 0x6c, 0x00, 0x00, 0xff, 0x80, 0x01, 0xc0, 0x0c, 0x00,
        0x21, 0x00, 0x01, 0x00, 0x00, 0x00, 0x0a, 0x00, 0x19, 0x00, 0x00, 0x00, 0x00, 0x1f, 0x40,
        0x10, 0x67, 0x77, 0x32, 0x2d, 0x38, 0x66, 0x66, 0x36, 0x65, 0x64, 0x32, 0x31, 0x30, 0x61,
        0x34, 0x38, 0xc0, 0x1f, 0xc0, 0x3c, 0x00, 0x1c, 0x00, 0x01, 0x00, 0x00, 0x00, 0x0a, 0x00,
        0x10, 0xfd, 0x05, 0x0b, 0x30, 0x32, 0x24, 0x4a, 0x5c, 0x6a, 0xec, 0x8a, 0xff, 0xfe, 0x00,
        0xd0, 0xed, 0xc0, 0x0c, 0x00, 0x10, 0x00, 0x01, 0x00, 0x00, 0x00, 0x0a, 0x00, 0x66, 0x05,
        0x63, 0x23, 0x3d, 0x34, 0x30, 0x04, 0x66, 0x66, 0x3d, 0x31, 0x14, 0x69, 0x64, 0x3d, 0x42,
        0x35, 0x3a, 0x42, 0x30, 0x3a, 0x41, 0x30, 0x3a, 0x36, 0x37, 0x3a, 0x42, 0x34, 0x3a, 0x36,
        0x39, 0x22, 0x6d, 0x64, 0x3d, 0x44, 0x49, 0x52, 0x49, 0x47, 0x45, 0x52, 0x41, 0x20, 0x48,
        0x75, 0x62, 0x20, 0x66, 0x6f, 0x72, 0x20, 0x73, 0x6d, 0x61, 0x72, 0x74, 0x20, 0x70, 0x72,
        0x6f, 0x64, 0x75, 0x63, 0x74, 0x73, 0x06, 0x70, 0x76, 0x3d, 0x31, 0x2e, 0x31, 0x05, 0x73,
        0x23, 0x3d, 0x34, 0x37, 0x04, 0x73, 0x66, 0x3d, 0x30, 0x04, 0x63, 0x69, 0x3d, 0x32, 0x0b,
        0x73, 0x68, 0x3d, 0x6b, 0x37, 0x50, 0x76, 0x43, 0x67, 0x3d, 0x3d,
    ]
}

#[test]
fn test_wanted_list_add_remove() {
    let mut handler = DiscoveryHandler::new();
    assert!(!handler.is_service_wanted(&String::from("_hap._tcp.local")));

    handler.add_service(String::from("_hap._tcp.local"));
    handler.add_service(String::from("_matterc._udp.local"));
    assert!(handler.is_service_wanted(&String::from("_hap._tcp.local")));
    assert!(handler.is_service_wanted(&String::from("_matterc._udp.local")));
    assert_eq!(handler.get_services().len(), 2);

    handler.remove_service(String::from("_hap._tcp.local"));
    assert!(!handler.is_service_wanted(&String::from("_hap._tcp.local")));
    assert!(handler.is_service_wanted(&String::from("_matterc._udp.local")));

    // Removing an absent name is no error and changes nothing.
    handler.remove_service(String::from("_hap._tcp.local"));
    assert_eq!(handler.get_services().len(), 1);
}

#[test]
fn test_remove_service_takes_first_occurrence() {
    let mut handler = DiscoveryHandler::new();
    handler.add_service(String::from("a"));
    handler.add_service(String::from("b"));
    handler.add_service(String::from("a"));

    handler.remove_service(String::from("a"));

    let services = handler.get_services();
    assert_eq!(services.len(), 2);
    assert_eq!(services[0], "b");
    assert_eq!(services[1], "a");
}

#[test]
fn test_latest_response_wins() {
    let mut handler = DiscoveryHandler::new();
    let older = vec![DnsSdResponse::SrvAnswer(dnssd::dns::SrvAnswer {
        label: String::from("x"),
        service: String::from("host.local"),
        port: 80,
    })];
    let newer = vec![DnsSdResponse::SrvAnswer(dnssd::dns::SrvAnswer {
        label: String::from("x"),
        service: String::from("host.local"),
        port: 8080,
    })];

    handler.add_found_service(String::from("x"), older, 1);
    assert_eq!(handler.get_port("x"), Some(80));

    handler.add_found_service(String::from("x"), newer, 2);
    assert_eq!(handler.get_port("x"), Some(8080));

    let sets = handler.get_found_services("x").unwrap();
    assert_eq!(sets.len(), 2);
    assert_eq!(sets[0].timestamp, 1);
    assert_eq!(sets[1].timestamp, 2);
}

#[test]
fn test_lookup_after_withdrawal_still_works() {
    let mut handler = DiscoveryHandler::new();
    handler.add_service(String::from("DIRIGERA._hap._tcp.local"));
    let packet = dirigera_response();
    process_packet(&mut handler, &packet, 221, 7);

    handler.remove_service(String::from("DIRIGERA._hap._tcp.local"));

    assert_eq!(handler.get_port("DIRIGERA._hap._tcp.local"), Some(8000));
}

#[test]
fn test_end_to_end_dirigera() {
    let mut handler = DiscoveryHandler::new();
    handler.add_service(String::from("DIRIGERA._hap._tcp.local"));

    let packet = dirigera_response();
    process_packet(&mut handler, &packet, 221, 42);

    let (ip, port) = handler
        .get_ip_and_port("DIRIGERA._hap._tcp.local", IpType::V6)
        .unwrap();
    assert_eq!(port, 8000);
    match ip {
        IpAddress::V6(groups) => assert_eq!(
            groups,
            [0xfd05, 0x0b30, 0x3224, 0x4a5c, 0x6aec, 0x8aff, 0xfe00, 0xd0ed]
        ),
        IpAddress::V4(_) => panic!("expected a V6 address"),
    }

    let txts = handler.get_txt_records("DIRIGERA._hap._tcp.local").unwrap();
    assert_eq!(
        txts,
        vec![
            "c#=40",
            "ff=1",
            "id=B5:B0:A0:67:B4:69",
            "md=DIRIGERA Hub for smart products",
            "pv=1.1",
            "s#=47",
            "sf=0",
            "ci=2",
            "sh=k7PvCg==",
        ]
    );

    // A V4 lookup finds no address in this response.
    assert!(handler
        .get_ip_and_port("DIRIGERA._hap._tcp.local", IpType::V4)
        .is_none());
}

#[test]
fn test_reattribution_under_service_type() {
    // Wanting the service type: the SRV under the instance name does not
    // match it, and nothing is filed.
    let mut handler = DiscoveryHandler::new();
    handler.add_service(String::from("_hap._tcp.local"));

    let packet = dirigera_response();
    process_packet(&mut handler, &packet, 221, 42);

    assert!(handler.get_found_services("_hap._tcp.local").is_none());

    // Wanting the instance name: the SRV's label matches directly, and the
    // AAAA under the hostname is attributed through the SRV link.
    handler.add_service(String::from("DIRIGERA._hap._tcp.local"));
    process_packet(&mut handler, &packet, 221, 43);

    assert_eq!(handler.get_port("DIRIGERA._hap._tcp.local"), Some(8000));
    assert!(handler.get_found_services("_hap._tcp.local").is_none());
}

#[test]
fn test_forward_pointer_packet_leaves_registry_unchanged() {
    let mut handler = DiscoveryHandler::new();
    handler.add_service(String::from("_hap._tcp.local"));

    let packet: [u8; 14] = [
        0x00, 0x00, 0x84, 0x00, 0x00, 0x00, 0x00, 0x01, 0x00, 0x00, 0x00, 0x00, 0xc0, 0x10,
    ];
    process_packet(&mut handler, &packet, 14, 42);

    assert!(handler.get_found_services("_hap._tcp.local").is_none());
    assert!(handler.is_service_wanted(&String::from("_hap._tcp.local")));
}

#[test]
fn test_invalid_utf8_packet_leaves_registry_unchanged() {
    let mut handler = DiscoveryHandler::new();
    handler.add_service(String::from("foo"));

    let packet: [u8; 29] = [
        0x00, 0x00, 0x84, 0x00, 0x00, 0x00, 0x00, 0x01, 0x00, 0x00, 0x00, 0x00, 0x03, 0x66, 0x6f,
        0x6f, 0x00, 0x00, 0x10, 0x00, 0x01, 0x00, 0x00, 0x00, 0x0a, 0x00, 0x02, 0x01, 0xff,
    ];
    process_packet(&mut handler, &packet, 29, 42);

    assert!(handler.get_found_services("foo").is_none());
}

#[test]
fn test_nothing_wanted_discards_packet() {
    let mut handler = DiscoveryHandler::new();
    let packet = dirigera_response();

    process_packet(&mut handler, &packet, 221, 42);

    assert!(handler
        .get_found_services("DIRIGERA._hap._tcp.local")
        .is_none());
}

#[test]
fn test_add_response_files_like_add_found_service() {
    let mut handler = DiscoveryHandler::new();
    let records = vec![DnsSdResponse::AAnswer(dnssd::dns::AAnswer {
        label: String::from("host.local"),
        address: [10, 0, 0, 7],
    })];

    handler.add_response(String::from("host.local"), records, 5);

    match handler
        .get_ip_address("host.local", IpType::V4)
        .expect("an address should resolve")
    {
        IpAddress::V4(octets) => assert_eq!(octets, [10, 0, 0, 7]),
        IpAddress::V6(_) => panic!("expected a V4 address"),
    }
    // The configured family filters: a V6 lookup sees nothing here.
    assert!(handler.get_ip_address("host.local", IpType::V6).is_none());
    let sets = handler.get_found_services("host.local").unwrap();
    assert_eq!(sets.len(), 1);
    assert_eq!(sets[0].timestamp, 5);
}

#[test]
fn test_duplicate_wanted_name_filed_once() {
    let mut handler = DiscoveryHandler::new();
    handler.add_service(String::from("DIRIGERA._hap._tcp.local"));
    handler.add_service(String::from("DIRIGERA._hap._tcp.local"));

    let packet = dirigera_response();
    process_packet(&mut handler, &packet, 221, 42);

    let sets = handler.get_found_services("DIRIGERA._hap._tcp.local").unwrap();
    assert_eq!(sets.len(), 1);
    assert_eq!(sets[0].timestamp, 42);
    assert_eq!(sets[0].responses.len(), 3);
}
