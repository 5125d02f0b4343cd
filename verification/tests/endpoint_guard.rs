//! URLs that are allowed and refused.

use shodh_memory::endpoint_guard::check_api_url;
use shodh_memory::endpoint_guard::is_loopback_host;
use shodh_memory::ip_addr::read_ipv4;
use shodh_memory::ip_addr::read_ipv6;

#[test]
fn https_is_always_fine() {
    assert!(check_api_url("https://shodh.example.com/api", None).is_ok());
}

#[test]
fn loopback_over_http_is_fine_because_it_crosses_no_network() {
    for u in [
        "http://127.0.0.1:3030",
        "http://localhost:3030/api",
        "http://[::1]:3030",
        "http://127.5.5.5:80",
    ] {
        assert!(check_api_url(u, None).is_ok(), "{u} should be allowed");
    }
}

#[test]
fn remote_http_is_refused_and_the_message_names_the_host() {
    let e = check_api_url("http://shodh.example.com:3030/api", None).unwrap_err();
    assert!(e.contains("shodh.example.com"), "the error must name the host: {e}");
    assert!(e.contains("SHODH_ALLOW_HTTP"), "and the escape hatch: {e}");
}

#[test]
fn the_opt_out_works_and_only_for_the_documented_values() {
    assert!(check_api_url("http://remote.example.com", Some("true")).is_ok());
    assert!(check_api_url("http://remote.example.com", Some("1")).is_ok());
    assert!(check_api_url("http://remote.example.com", Some("TRUE")).is_ok());
    assert!(check_api_url("http://remote.example.com", Some("yes")).is_err());
    assert!(check_api_url("http://remote.example.com", Some("")).is_err());
}

#[test]
fn a_hostname_that_merely_ends_in_localhost_is_remote() {
    assert!(check_api_url("http://evil-localhost.example.com", None).is_err());
    assert!(check_api_url("http://localhost.example.com", None).is_err());
}

#[test]
fn userinfo_does_not_disguise_a_remote_host() {
    assert!(check_api_url("http://127.0.0.1@evil.example.com/api", None).is_err());
}

#[test]
fn the_refusal_is_the_whole_message() {
    let e = check_api_url("http://a.example:1/x", None).unwrap_err();
    assert_eq!(
        e,
        "refusing to send the API key in cleartext: --api-url is http://a.example:1/x, which is \
         plain http:// to the remote host `a.example`. Every request this command makes carries \
         the key in an x-api-key header, and over http:// anything on the path can read it.\n\n  \
         Use an https:// URL, or point --api-url at loopback (127.0.0.1 / ::1 / localhost) and \
         tunnel to the server.\n  \
         If TLS genuinely terminates elsewhere — a service mesh, an SSH tunnel you trust — set \
         SHODH_ALLOW_HTTP=true to opt out. That is the same switch the MCP server uses."
    );
}

#[test]
fn schemes_ignore_case() {
    assert!(check_api_url("HTTPS://remote.example.com", None).is_ok());
    assert!(check_api_url("HttpS://remote.example.com", None).is_ok());
    assert!(check_api_url("HTTP://remote.example.com", None).is_err());
    assert!(check_api_url("HTTP://LOCALHOST", None).is_ok());
}

#[test]
fn what_is_no_http_url_is_left_to_the_client() {
    for u in ["", "remote.example.com", "ftp://remote.example.com", "://remote", "http:/remote"] {
        assert!(check_api_url(u, None).is_ok(), "{u}");
    }
}

#[test]
fn the_host_decides_whatever_port_path_and_user() {
    for u in [
        "http://localhost",
        "http://localhost?x=//evil.example.com",
        "http://localhost#@evil.example.com",
        "http://someone@localhost:1/a:b@c",
        "http://a@b@127.0.0.1",
        "http://someone:secret@[::1]:8080/x",
    ] {
        assert!(check_api_url(u, None).is_ok(), "{u}");
    }
    for (u, host) in [
        ("http://evil.example.com?localhost", "evil.example.com"),
        ("http://localhost@evil.example.com:80", "evil.example.com"),
        ("http://localhost:80@evil.example.com", "evil.example.com"),
        ("http://[2001:db8::1]:3030/x", "[2001:db8::1]"),
        ("http://", ""),
        ("http:///localhost", ""),
    ] {
        let e = check_api_url(u, None).unwrap_err();
        assert!(e.contains(&format!("remote host `{host}`.")), "{u}: {e}");
    }
}

#[test]
fn user_and_tail_change_nothing_for_any_rest() {
    for rest in ["localhost", "[::1]x]:1", "evil:1:2", "", "a@b", "]", "127.0.0.1:x"] {
        let plain = check_api_url(&format!("http://{rest}"), None).is_ok();
        for url in [
            format!("http://localhost@{rest}"),
            format!("http://u:p]@{rest}"),
            format!("http://{rest}/x@localhost"),
            format!("http://{rest}?[::1]"),
            format!("http://{rest}#"),
        ] {
            assert_eq!(check_api_url(&url, None).is_ok(), plain, "{url}");
        }
    }
}

#[test]
fn a_suffix_of_localhost_is_remote_in_every_case() {
    assert!(!is_loopback_host("notlocalhost"));
    assert!(!is_loopback_host("x.localhost"));
    assert!(!is_loopback_host("localhost."));
    assert!(is_loopback_host("LocalHost"));
    assert!(is_loopback_host("[localhost]"));
}

#[test]
fn loopback_addresses_are_recognized() {
    for host in [
        "127.0.0.1",
        "127.255.255.255",
        "127.0.0.0",
        "::1",
        "[::1]",
        "0:0:0:0:0:0:0:1",
        "0000:0000:0000:0000:0000:0000:0000:0001",
        "::0001",
        "0::1",
        "::0.0.0.1",
        "0:0:0:0:0:0:0.0.0.1",
    ] {
        assert!(is_loopback_host(host), "{host}");
    }
}

#[test]
fn other_addresses_and_malformed_ones_are_remote() {
    for host in [
        "",
        "128.0.0.1",
        "126.255.255.255",
        "127.0.0",
        "127.0.0.1.1",
        "127.0.0.256",
        "127.0.0.01",
        "0127.0.0.1",
        "127..0.1",
        "127.0.0.1 ",
        "127.1",
        "2130706433",
        "::",
        "::2",
        "1::",
        ":1",
        "::ffff:127.0.0.1",
        "::1::",
        ":::1",
        "0:0:0:0:0:0:0:0:1",
        "0:0:0:0:0:0:1",
        "::00001",
        "::g",
        "0.0.0.1::",
        "0:0:0:0:0:0:0::1",
        "::1%lo",
    ] {
        assert!(!is_loopback_host(host), "{host}");
    }
}

fn chars(s: &str) -> Vec<char> {
    s.chars().collect()
}

#[test]
fn ipv4_addresses_give_their_octets() {
    assert_eq!(read_ipv4(&chars("192.168.0.255")), Some(vec![192, 168, 0, 255]));
    assert_eq!(read_ipv4(&chars("1.2.3")), None);
    assert_eq!(read_ipv4(&chars("1.2.3.x")), None);
}

#[test]
fn ipv6_addresses_give_their_groups() {
    assert_eq!(
        read_ipv6(&chars("2001:db8::ff00:42:8329")),
        Some(vec![0x2001, 0xdb8, 0, 0, 0, 0xff00, 0x42, 0x8329])
    );
    assert_eq!(read_ipv6(&chars("::")), Some(vec![0; 8]));
    assert_eq!(
        read_ipv6(&chars("::FFFF:192.0.2.128")),
        Some(vec![0, 0, 0, 0, 0, 0xffff, 0xc000, 0x0280])
    );
    assert_eq!(read_ipv6(&chars("1:2:3:4:5:6:7::")), Some(vec![1, 2, 3, 4, 5, 6, 7, 0]));
    assert_eq!(read_ipv6(&chars("1:2:3:4:5:6:7:8")), Some(vec![1, 2, 3, 4, 5, 6, 7, 8]));
    assert_eq!(read_ipv6(&chars("1:2:3:4::5:6:7:8")), None);
    assert_eq!(read_ipv6(&chars("1::2::3")), None);
}
