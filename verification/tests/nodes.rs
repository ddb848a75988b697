use ease_proc::nodes::{
    calculate_sha256, classify_request, compare_versions, get_or_init_uuid, greeting, hex,
    is_newer, is_other_node, is_usable_address, parse_version_parts, started_by_update,
    update_package, uuid_key, NodeAddress, NodeDiscoveryState, NodeInfo, NodeMessage, NodeRequest, RequestMessageType,
    ResponseMessageType, NODE_CAPACITY,
};
use std::cmp::Ordering;

fn node(dev_id: &str) -> NodeInfo {
    NodeInfo::announcement(dev_id.to_string(), "10.0.0.1".to_string(), "1.2.3".to_string())
}

#[test]
fn announcement_and_greeting_have_the_port() {
    let info = node("me");
    assert_eq!(info.dev_id, "me");
    assert_eq!(info.ip, "10.0.0.1");
    assert_eq!(info.port, 56311);
    assert_eq!(info.version, "1.2.3");
    assert_eq!(info.update_time, "0");
    match greeting("me".to_string(), "1.2.3".to_string()) {
        NodeMessage::RequestMessage(RequestMessageType::NewNodeMessage(info)) => {
            assert_eq!(info.dev_id, "me");
            assert_eq!(info.ip, "0");
            assert_eq!(info.port, 56311);
            assert_eq!(info.update_time, "0");
        }
        _ => panic!("a node makes itself known"),
    }
}

#[test]
fn registered_node_is_stamped() {
    let mut state = NodeDiscoveryState::new();
    assert!(state.register(node("a"), "10.0.0.7".to_string(), 1700000000));
    assert!(!state.register(node("a"), "10.0.0.8".to_string(), 1700000100));
    assert!(state.register(node("b"), "10.0.0.9".to_string(), -5));
    assert_eq!(state.len(), 2);
    let a = state.node(&"a".to_string()).unwrap();
    assert_eq!(a.ip, "10.0.0.8");
    assert_eq!(a.update_time, "1700000100");
    assert_eq!(a.version, "1.2.3");
    assert_eq!(state.node(&"b".to_string()).unwrap().update_time, "-5");
    assert!(state.node(&"c".to_string()).is_none());
}

#[test]
fn registry_has_a_capacity() {
    let mut state = NodeDiscoveryState::new();
    for i in 0..NODE_CAPACITY {
        assert!(state.register(node(&i.to_string()), "x".to_string(), 1));
    }
    assert_eq!(state.len(), NODE_CAPACITY);
    assert!(!state.register(node("more"), "x".to_string(), 2));
    assert!(!state.register(node("7"), "x".to_string(), 2));
    assert_eq!(state.len(), NODE_CAPACITY);
    assert_eq!(state.node(&"7".to_string()).unwrap().update_time, "1");
}

#[test]
fn silent_nodes_are_forgotten() {
    let mut state = NodeDiscoveryState::new();
    state.register(node("old"), "x".to_string(), 1000);
    state.register(node("edge"), "x".to_string(), 2800);
    state.register(node("new"), "x".to_string(), 2801);
    let now = 10000;
    assert!(state.ages_fit(now));
    state.expire(now);
    assert_eq!(state.len(), 1);
    assert!(state.node(&"new".to_string()).is_some());
    state.expire(now + 1);
    assert_eq!(state.len(), 0);
}

#[test]
fn impossible_ages_are_noticed() {
    let mut state = NodeDiscoveryState::new();
    assert!(state.ages_fit(i64::MAX));
    state.register(node("a"), "x".to_string(), -1);
    assert!(!state.ages_fit(i64::MAX));
    assert!(state.ages_fit(i64::MAX - 1));
}

#[test]
fn only_a_new_node_message_registers() {
    let mut state = NodeDiscoveryState::new();
    let ip = "x".to_string();
    assert!(!state.receive(
        NodeMessage::RequestMessage(RequestMessageType::ExitNode("a".to_string())),
        ip.clone(),
        1
    ));
    assert!(!state.receive(
        NodeMessage::RequestMessage(RequestMessageType::CustomMessage("a".to_string())),
        ip.clone(),
        1
    ));
    assert!(!state.receive(
        NodeMessage::ResponseMessage(ResponseMessageType::ErrorMessage("a".to_string())),
        ip.clone(),
        1
    ));
    assert!(!state.receive(
        NodeMessage::ResponseMessage(ResponseMessageType::CustomMessage("a".to_string())),
        ip.clone(),
        1
    ));
    assert_eq!(state.len(), 0);
    assert!(state.receive(greeting("a".to_string(), "1".to_string()), ip, 9));
    assert_eq!(state.node(&"a".to_string()).unwrap().update_time, "9");
}

#[test]
fn requests_are_told_apart() {
    assert_eq!(classify_request(&Vec::new()), NodeRequest::Closed);
    assert_eq!(classify_request(&b"EP_UPDATE_V1:REQUEST".to_vec()), NodeRequest::Update);
    assert_eq!(classify_request(&b"EP_UPDATE_V1:REQUEST and more".to_vec()), NodeRequest::Update);
    assert_eq!(classify_request(&b"EP_UPDATE_V1:REQUES".to_vec()), NodeRequest::Message);
    assert_eq!(classify_request(&b"EP_UPDATE_V2:REQUEST".to_vec()), NodeRequest::Message);
}

#[test]
fn loopback_and_long_addresses_are_not_used() {
    for first in 0..=255u8 {
        assert_eq!(is_usable_address(NodeAddress::V4(first, 0, 0, 1)), first != 127);
    }
    assert!(!is_usable_address(NodeAddress::V6));
}

#[test]
fn own_broadcast_is_told_apart() {
    assert!(!is_other_node(&node("me"), &"me".to_string()));
    assert!(is_other_node(&node("you"), &"me".to_string()));
}

#[test]
fn versions_are_read() {
    assert_eq!(parse_version_parts("1.20.3"), Some(vec![1, 20, 3]));
    assert_eq!(parse_version_parts("7"), Some(vec![7]));
    assert_eq!(parse_version_parts("+7.0"), Some(vec![7, 0]));
    for bad in ["", "1.", ".1", "1..2", "1.a", "v1.0", "4294967296", "1.-2", "1 .2"] {
        assert_eq!(parse_version_parts(bad), None, "{:?}", bad);
    }
}

#[test]
fn versions_are_ordered() {
    let texts = ["0", "0.9", "1", "1.0", "1.0.0", "1.0.1", "1.2", "1.10", "2", "x", "", "1.10.0"];
    let parse = |s: &str| -> Option<Vec<u32>> {
        s.split('.').map(|p| p.parse::<u32>().ok()).collect()
    };
    for a in texts {
        for b in texts {
            let expected = match (parse(a), parse(b)) {
                (Some(x), Some(y)) => x.cmp(&y),
                _ => Ordering::Equal,
            };
            assert_eq!(compare_versions(a, b), expected, "{} {}", a, b);
            assert_eq!(compare_versions(b, a), expected.reverse());
            assert_eq!(is_newer(a, b), expected == Ordering::Greater);
        }
    }
    assert_eq!(compare_versions("1.10", "1.9"), Ordering::Greater);
    assert_eq!(compare_versions("1.0", "1"), Ordering::Greater);
}

#[test]
fn digest_is_known() {
    assert_eq!(
        calculate_sha256(&b"abc".to_vec()),
        "ba7816bf8f01cfea414140de5dae2223b00361a396177a9cb410ff61f20015ad"
    );
    assert_eq!(
        calculate_sha256(&Vec::new()),
        "e3b0c44298fc1c149afbf4c8996fb92427ae41e4649b934ca495991b7852b855"
    );
}

#[test]
fn hexadecimal_text_has_two_digits_a_byte() {
    assert_eq!(hex(&vec![0, 1, 0x7f, 0x80, 0xab, 0xff]), "00017f80abff");
    let all: Vec<u8> = (0..=255).collect();
    let expected: String = all.iter().map(|b| format!("{:02x}", b)).collect();
    assert_eq!(hex(&all), expected);
}

#[test]
fn update_package_describes_the_file() {
    let package = update_package("1.2".to_string(), b"abc".to_vec());
    assert_eq!(package.version, "1.2");
    assert_eq!(package.file_data, b"abc".to_vec());
    assert_eq!(package.file_size, 3);
    assert_eq!(package.sha256_hash, calculate_sha256(&b"abc".to_vec()));
}

#[test]
fn stored_device_number_is_kept() {
    let id = get_or_init_uuid(Some("abc".to_string()));
    assert_eq!(id.uuid, "abc");
    assert!(!id.is_new);
    assert_eq!(uuid_key(), "app_uuid");
}

#[test]
fn new_device_number_is_random() {
    let mut seen: Vec<String> = Vec::new();
    for _ in 0..50 {
        let id = get_or_init_uuid(None);
        assert!(id.is_new);
        let chars: Vec<char> = id.uuid.chars().collect();
        assert_eq!(chars.len(), 36);
        for (i, c) in chars.iter().enumerate() {
            if [8, 13, 18, 23].contains(&i) {
                assert_eq!(*c, '-');
            } else {
                assert!(c.is_ascii_digit() || ('a'..='f').contains(c));
            }
        }
        assert_eq!(chars[14], '4');
        assert!(['8', '9', 'a', 'b'].contains(&chars[19]));
        assert!(!seen.contains(&id.uuid));
        seen.push(id.uuid);
    }
}

#[test]
fn update_flag_is_found_among_arguments() {
    let args = |list: &[&str]| -> Vec<String> { list.iter().map(|a| a.to_string()).collect() };
    assert!(started_by_update(&args(&["app", "--post-update"])));
    assert!(!started_by_update(&args(&["app", "--post-updates", "post-update"])));
    assert!(!started_by_update(&args(&[])));
}
