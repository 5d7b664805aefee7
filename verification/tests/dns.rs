use ports_box::dns::{resolve, resolved, split_target, Resolution};
use ports_box::net::{IpAddress, SocketAddress};

#[test]
fn split_target_validates_shape() {
    assert_eq!(split_target("example.com:80").unwrap(), ("example.com", 80));
    assert_eq!(split_target("10.0.0.2:443").unwrap(), ("10.0.0.2", 443));
    assert!(split_target("example.com").is_err());
    assert!(split_target("example.com:99999").is_err());
    assert!(split_target("example.com:http").is_err());
    assert!(split_target(":80").is_err());
}

#[test]
fn split_target_messages() {
    assert_eq!(
        split_target("example.com").unwrap_err(),
        "target \"example.com\" is missing a port"
    );
    for port in ["", "99999", "65536", "http", "-1", "+", " 80", "++1"] {
        let target = format!("h:{port}");
        assert_eq!(
            split_target(&target).unwrap_err(),
            format!("target {target:?} has an invalid port")
        );
    }
    assert_eq!(split_target(":80").unwrap_err(), "target \":80\" has an empty host");
    assert_eq!(split_target("").unwrap_err(), "target \"\" is missing a port");
}

#[test]
fn split_target_takes_the_last_colon() {
    assert_eq!(split_target("::1:65535").unwrap(), ("::1", 65535));
    assert_eq!(split_target("[::1]:80").unwrap(), ("[::1]", 80));
    assert_eq!(split_target("h:0080").unwrap(), ("h", 80));
    assert_eq!(split_target("h:+80").unwrap(), ("h", 80));
    assert_eq!(split_target("münchen.de:0").unwrap(), ("münchen.de", 0));
}

#[test]
fn ip_literals_skip_dns() {
    let v4 = SocketAddress::new(IpAddress::V4(0x0a00_0002), 80);
    let v6 = SocketAddress::new(IpAddress::V6(1), 80);
    for (target, addr) in [("10.0.0.2:80", v4), ("[::1]:80", v6)] {
        match resolve(target, Some(addr), None).unwrap() {
            Resolution::Known(known) => assert_eq!(known, addr),
            Resolution::LookUp { .. } => panic!("{target} was looked up"),
        }
    }
}

#[test]
fn bare_ip_hosts_skip_dns() {
    match resolve("::1:80", None, Some(IpAddress::V6(1))).unwrap() {
        Resolution::Known(known) => {
            assert_eq!(known, SocketAddress::new(IpAddress::V6(1), 80))
        }
        Resolution::LookUp { .. } => panic!("looked up"),
    }
}

#[test]
fn names_are_looked_up() {
    match resolve("localhost:8080", None, None).unwrap() {
        Resolution::LookUp { host, port } => {
            assert_eq!(host, "localhost");
            assert_eq!(port, 8080);
        }
        Resolution::Known(known) => panic!("{known:?} was known"),
    }
    assert_eq!(
        resolve("localhost", None, None).unwrap_err(),
        "target \"localhost\" is missing a port"
    );
}

#[test]
fn first_address_of_an_answer_counts() {
    let ips = vec![IpAddress::V4(0x7f00_0001), IpAddress::V6(1)];
    let addr = resolved("localhost", 8080, Ok(ips)).unwrap();
    assert_eq!(addr, SocketAddress::new(IpAddress::V4(0x7f00_0001), 8080));
    assert_eq!(resolved("h", 1, Ok(vec![])).unwrap_err(), "no addresses for h");
    assert_eq!(
        resolved("h", 1, Err("timed out".to_string())).unwrap_err(),
        "cannot resolve h: timed out"
    );
}

#[test]
fn local_address_follows_the_family() {
    let v4 = SocketAddress::new(IpAddress::V4(0x0a00_0002), 53);
    let v6 = SocketAddress { ip: IpAddress::V6(5), port: 53, flowinfo: 1, scope_id: 2 };
    assert_eq!(SocketAddress::local_for(v4), SocketAddress::new(IpAddress::V4(0), 0));
    assert_eq!(SocketAddress::local_for(v6), SocketAddress::new(IpAddress::V6(0), 0));
}
