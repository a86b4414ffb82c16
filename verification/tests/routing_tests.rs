use walrust::keys::route_key;
use walrust::routing::{
    add_to_network, get_dir_structure, join_network, load_routing_table, locate_file,
    locate_file_keyed, parse_route_line, route_upload, route_upload_keyed, FileParams, JoinParams,
    RouteLineError, UploadRoute,
};
use walrust::decimal::IntErrorKind;
use walrust::table::{RouteEntry, RoutingTable};

fn entry(ip: &str, port: u32, node_name: &str) -> RouteEntry {
    RouteEntry { ip: ip.to_string(), port, node_name: node_name.to_string() }
}

fn keys(t: &RoutingTable) -> Vec<String> {
    (0..t.len()).map(|i| t.key_at(i).clone()).collect()
}

#[test]
fn route_key_is_hex_sha1() {
    assert_eq!(route_key("127.0.0.1", "8000"), "7d9588bc01f6ef15957a83c48fd0932ae1dfe3c9");
    assert_eq!(route_key("10.0.0.5", "notes.txt"), "b2bf4dfff6a1c9ed8a28700dfbf15913c418d6c5");
    assert_eq!(route_key("", ""), "da39a3ee5e6b4b0d3255bfef95601890afd80709");
}

#[test]
fn forwarded_data_is_lowercase_hex() {
    let mut t = RoutingTable::new();
    t.insert("0".to_string(), entry("n", 1, "test"));
    match route_upload_keyed(&mut t, "z", "u", "f", &[0xde, 0xad, 0x01, 0xf0]) {
        UploadRoute::Forward { details, .. } => assert_eq!(details.data, "dead01f0"),
        _ => panic!("expected a forward"),
    }
    match route_upload_keyed(&mut t, "zz", "u", "f", &[]) {
        UploadRoute::Forward { details, .. } => assert_eq!(details.data, ""),
        _ => panic!("expected a forward"),
    }
}

#[test]
fn table_keeps_keys_sorted_and_unique() {
    let mut t = RoutingTable::new();
    t.insert("m".to_string(), entry("a", 1, "x"));
    t.insert("b".to_string(), entry("b", 2, "x"));
    t.insert("z".to_string(), entry("c", 3, "x"));
    t.insert("m".to_string(), entry("d", 4, "y"));
    assert_eq!(keys(&t), vec!["b", "m", "z"]);
    assert_eq!(t.get("m").unwrap().ip, "d");
    assert_eq!(t.get("m").unwrap().port, 4);
    assert!(t.get("q").is_none());
    assert_eq!(t.position_of("z"), Some(2));
}

#[test]
fn table_order_is_string_order() {
    let mut t = RoutingTable::new();
    for k in ["ab", "a", "b", "aa", "é", "Z", ""] {
        t.insert(k.to_string(), entry("i", 1, "n"));
    }
    let mut expected: Vec<String> = ["ab", "a", "b", "aa", "é", "Z", ""].iter().map(|s| s.to_string()).collect();
    expected.sort();
    assert_eq!(keys(&t), expected);
}

#[test]
fn joining_twice() {
    let mut t = RoutingTable::new();
    let params = JoinParams { port: Some("3000".to_string()), role: None };
    let r = add_to_network(&mut t, &params, "127.0.0.1");
    assert_eq!(r, "Hello, 3000! Your IP address is: 127.0.0.1");
    assert_eq!(keys(&t), vec!["7c340108bfd75bce2a31ba60c1fa09de538a622e"]);
    let e = t.get("7c340108bfd75bce2a31ba60c1fa09de538a622e").unwrap();
    assert_eq!(e.ip, "127.0.0.1");
    assert_eq!(e.port, 3000);
    assert_eq!(e.node_name, "test");
    let r = add_to_network(&mut t, &params, "127.0.0.1");
    assert_eq!(r, "Your already on the network");
    assert_eq!(t.len(), 1);
}

#[test]
fn join_default_port() {
    let mut t = RoutingTable::new();
    let params = JoinParams { port: None, role: Some("node".to_string()) };
    let r = add_to_network(&mut t, &params, "127.0.0.1");
    assert_eq!(r, "Hello, 8000! Your IP address is: 127.0.0.1");
    assert!(t.get("7d9588bc01f6ef15957a83c48fd0932ae1dfe3c9").is_some());
}

#[test]
fn join_with_bad_port_text() {
    let mut t = RoutingTable::new();
    let r = join_network(&mut t, "k1", "10.1.1.1", "80x");
    assert_eq!(r, "Hello, 80x! Your IP address is: 10.1.1.1");
    assert_eq!(t.get("k1").unwrap().port, 8000);
}

fn two_nodes_below() -> RoutingTable {
    let mut t = RoutingTable::new();
    t.insert("5000".to_string(), entry("10.0.0.1", 3000, "test"));
    t.insert("3000".to_string(), entry("10.0.0.3", 3001, "test"));
    t.insert("c000".to_string(), entry("10.0.0.2", 4000, "test"));
    t
}

#[test]
fn upload_goes_to_first_lower_node() {
    let mut t = two_nodes_below();
    let r = route_upload(&mut t, "10.0.0.5", "notes.txt", b"hi");
    match r {
        UploadRoute::Forward { url, details } => {
            assert_eq!(url, "10.0.0.3:3001/add-file");
            assert_eq!(details.scope, "10.0.0.5");
            assert_eq!(details.file_name, "notes.txt");
            assert_eq!(details.data, "6869");
        }
        _ => panic!("expected a forward"),
    }
    let e = t.get("b2bf4dfff6a1c9ed8a28700dfbf15913c418d6c5").unwrap();
    assert_eq!(e.ip, "10.0.0.3:3001");
    assert_eq!(e.port, 0);
    assert_eq!(e.node_name, "10.0.0.5");
    assert_eq!(t.len(), 4);
}

#[test]
fn upload_then_fetch() {
    let mut t = two_nodes_below();
    route_upload(&mut t, "10.0.0.5", "notes.txt", b"hi");
    let params = FileParams {
        hash: None,
        file_name: Some("notes.txt".to_string()),
        node_name: Some("10.0.0.5".to_string()),
    };
    let f = locate_file(&t, &params).unwrap();
    assert_eq!(f.url, "http://10.0.0.3:3001/get-file");
    assert_eq!(f.details.scope, "10.0.0.5");
    assert_eq!(f.details.file_name, "notes.txt");
    assert_eq!(f.details.data, "None");
    let other = FileParams { hash: None, file_name: Some("notes.txt".to_string()), node_name: Some("10.0.0.6".to_string()) };
    assert!(locate_file(&t, &other).is_none());
}

#[test]
fn fetch_with_defaults() {
    let mut t = RoutingTable::new();
    t.insert("239ff275e3978bd18addea5802f3e5b75602e5af".to_string(), entry("h:1", 0, "who"));
    let params = FileParams { hash: None, file_name: None, node_name: None };
    let f = locate_file(&t, &params).unwrap();
    assert_eq!(f.url, "http://h:1/get-file");
    assert_eq!(f.details.scope, "who");
    assert_eq!(f.details.file_name, "Default.txt");
}

#[test]
fn upload_falls_back_to_first_node() {
    let mut t = RoutingTable::new();
    t.insert("c000".to_string(), entry("10.0.0.2", 4000, "test"));
    t.insert("d000".to_string(), entry("10.0.0.4", 4001, "test"));
    let r = route_upload(&mut t, "10.0.0.5", "notes.txt", b"plain text");
    match r {
        UploadRoute::Fallback { url, text_details } => {
            assert_eq!(url, "http://10.0.0.2:4000/add-file");
            let d = text_details.unwrap();
            assert_eq!(d.data, "plain text");
            assert_eq!(d.scope, "10.0.0.5");
        }
        _ => panic!("expected a fallback"),
    }
    let r = route_upload(&mut t, "10.0.0.5", "notes.txt", b"again");
    assert!(matches!(r, UploadRoute::AlreadyStored));
    assert_eq!(t.len(), 3);
}

#[test]
fn fallback_with_binary_data() {
    let mut t = RoutingTable::new();
    t.insert("f000".to_string(), entry("10.0.0.2", 4000, "test"));
    let r = route_upload_keyed(&mut t, "a", "u", "f", &[0xff, 0xfe]);
    match r {
        UploadRoute::Fallback { url, text_details } => {
            assert_eq!(url, "http://10.0.0.2:4000/add-file");
            assert!(text_details.is_none());
        }
        _ => panic!("expected a fallback"),
    }
    assert_eq!(t.get("a").unwrap().ip, "10.0.0.2:4000");
}

#[test]
fn upload_without_nodes() {
    let mut t = RoutingTable::new();
    assert!(matches!(route_upload(&mut t, "1.1.1.1", "f", b"x"), UploadRoute::NoStorageNode));
    assert_eq!(t.len(), 0);
    t.insert("0".to_string(), entry("s:1", 0, "u"));
    assert!(matches!(route_upload_keyed(&mut t, "z", "u", "f", b"x"), UploadRoute::NoStorageNode));
    assert_eq!(t.len(), 1);
}

#[test]
fn stored_records_are_skipped_when_scanning() {
    let mut t = RoutingTable::new();
    t.insert("1".to_string(), entry("s:1", 0, "u"));
    t.insert("2".to_string(), entry("node", 9, "test"));
    let r = route_upload_keyed(&mut t, "3", "u", "f", b"x");
    match r {
        UploadRoute::Forward { url, .. } => assert_eq!(url, "node:9/add-file"),
        _ => panic!("expected a forward"),
    }
}

#[test]
fn existing_record_before_lower_node() {
    let mut t = RoutingTable::new();
    t.insert("k".to_string(), entry("s:1", 0, "u"));
    t.insert("m".to_string(), entry("node", 9, "test"));
    assert!(matches!(route_upload_keyed(&mut t, "k", "u", "f", b"x"), UploadRoute::AlreadyStored));
}

#[test]
fn dir_structure_lists_stored_files() {
    let mut t = two_nodes_below();
    route_upload(&mut t, "10.0.0.5", "notes.txt", b"hi");
    route_upload_keyed(&mut t, "4", "10.0.0.5", "x", b"x");
    let d = get_dir_structure(&t);
    assert_eq!(keys(&d), vec!["4", "b2bf4dfff6a1c9ed8a28700dfbf15913c418d6c5"]);
    assert_eq!(d.entry_at(0).ip, "10.0.0.3:3001");
    assert_eq!(d.entry_at(1).port, 0);
}

#[test]
fn locate_keyed_direct() {
    let mut t = RoutingTable::new();
    t.insert("key".to_string(), entry("h:2", 0, "scope"));
    let f = locate_file_keyed(&t, "key", "file").unwrap();
    assert_eq!(f.url, "http://h:2/get-file");
    assert_eq!(f.details.scope, "scope");
    assert!(locate_file_keyed(&t, "nokey", "file").is_none());
}

#[test]
fn route_lines() {
    let (k, e) = parse_route_line("abc|10.0.0.1|3000|node1").unwrap();
    assert_eq!(k, "abc");
    assert_eq!(e.ip, "10.0.0.1");
    assert_eq!(e.port, 3000);
    assert_eq!(e.node_name, "node1");
    assert_eq!(parse_route_line("a|b|c").err(), Some(RouteLineError::IncorrectTable));
    assert_eq!(parse_route_line("a|b|1|d|e").err(), Some(RouteLineError::IncorrectTable));
    assert_eq!(parse_route_line("").err(), Some(RouteLineError::IncorrectTable));
    assert_eq!(parse_route_line("a|b|x|d").err(), Some(RouteLineError::BadPort(IntErrorKind::InvalidDigit)));
    assert_eq!(parse_route_line("a|b||d").err(), Some(RouteLineError::BadPort(IntErrorKind::Empty)));
    let (k, e) = parse_route_line("||0|").unwrap();
    assert_eq!(k, "");
    assert_eq!(e.ip, "");
    assert_eq!(e.port, 0);
}

#[test]
fn load_table() {
    let lines = vec![
        "b|10.0.0.2|2|two".to_string(),
        "a|10.0.0.1|1|one".to_string(),
        "b|10.0.0.9|9|nine".to_string(),
    ];
    let t = load_routing_table(&lines).unwrap();
    assert_eq!(keys(&t), vec!["a", "b"]);
    assert_eq!(t.get("b").unwrap().port, 9);
    let bad = vec!["a|1|1|1".to_string(), "oops".to_string()];
    assert_eq!(load_routing_table(&bad).err(), Some(RouteLineError::IncorrectTable));
    assert_eq!(load_routing_table(&vec![]).unwrap().len(), 0);
}

#[test]
fn upload_skips_stored_record_with_empty_key() {
    let mut t = RoutingTable::new();
    t.insert("".to_string(), entry("10.0.0.9", 0, "x"));
    t.insert("0".to_string(), entry("10.0.0.1", 3000, "n1"));
    match route_upload(&mut t, "192.168.0.7", "a.txt", b"hi") {
        UploadRoute::Forward { url, details } => {
            assert_eq!(url, "10.0.0.1:3000/add-file");
            assert_eq!(details.scope, "192.168.0.7");
            assert_eq!(details.file_name, "a.txt");
            assert_eq!(details.data, "6869");
        }
        _ => panic!("expected a forward"),
    }
    let key = route_key("192.168.0.7", "a.txt");
    assert_eq!(key.len(), 40);
    assert!(key.chars().all(|c| c.is_ascii_hexdigit() && !c.is_ascii_uppercase()));
    let e = t.get(&key).unwrap();
    assert_eq!(e.ip, "10.0.0.1:3000");
    assert_eq!(e.port, 0);
    assert_eq!(e.node_name, "192.168.0.7");
    assert_eq!(t.len(), 3);
}
