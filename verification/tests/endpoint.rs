use corpus::endpoint::{ensure_local_endpoint, is_local_host};

#[test]
fn local_names_and_addresses_are_local() {
    for host in [
        "LOCALHOST",
        " localhost ",
        "studio.local",
        "Studio.LOCAL",
        "127.255.0.1",
        "172.16.0.1",
        "172.31.255.255",
        "10.255.255.255",
        "0:0:0:0:0:0:0:1",
        "0::1",
        "::0001",
    ] {
        assert!(is_local_host(host), "{host}");
    }
}

#[test]
fn everything_else_is_refused() {
    for host in [
        "172.15.0.1",
        "192.169.0.1",
        "11.0.0.1",
        "126.0.0.1",
        "::2",
        "::1::",
        "2001:db8::1",
        "::ffff:8.8.8.8",
        "127.0.0.01",
        "127.0.0",
        "127.0.0.1.1",
        "256.0.0.1",
        "localhost.com",
        "mylocal",
        "",
    ] {
        assert!(!is_local_host(host), "{host}");
    }
}

#[test]
fn the_ranges_of_local_addresses_are_exact() {
    for a in [0u8, 10, 126, 127, 128, 172, 192, 255] {
        for b in [0u8, 15, 16, 31, 32, 167, 168, 169] {
            let local = a == 127
                || a == 10
                || (a == 172 && (16..32).contains(&b))
                || (a == 192 && b == 168);
            assert_eq!(is_local_host(&format!("{a}.{b}.3.4")), local, "{a}.{b}.3.4");
        }
    }
}

#[test]
fn hosts_are_cut_out_of_urls() {
    ensure_local_endpoint("http://[::1]:8080/v1").unwrap();
    ensure_local_endpoint("http://studio.local/v1").unwrap();
    ensure_local_endpoint("http://127.0.0.1").unwrap();
    ensure_local_endpoint("localhost:8080/v1").unwrap();
    assert_eq!(ensure_local_endpoint("https://[2001:db8::1]:1/v1").unwrap_err().host, "2001:db8::1");
    assert_eq!(ensure_local_endpoint("https://example.com:443/").unwrap_err().host, "example.com");
    assert_eq!(ensure_local_endpoint("http://8.8.8.8:80").unwrap_err().host, "8.8.8.8");
}

#[test]
fn user_info_is_no_host() {
    let refused = |url: &str| ensure_local_endpoint(url).unwrap_err().host;
    assert_eq!(refused("http://127.0.0.1:80@8.8.8.8/v1"), "8.8.8.8");
    assert_eq!(refused("http://localhost@example.com"), "example.com");
    assert_eq!(refused("http://a@localhost@8.8.8.8:80/"), "8.8.8.8");
    ensure_local_endpoint("http://8.8.8.8@127.0.0.1:80/v1").unwrap();
    ensure_local_endpoint("http://user:key@[::1]:80/v1").unwrap();
}

#[test]
fn nothing_behind_the_authority_counts() {
    let refused = |url: &str| ensure_local_endpoint(url).unwrap_err().host;
    assert_eq!(refused("http://8.8.8.8?.local/v1"), "8.8.8.8");
    assert_eq!(refused("http://8.8.8.8#.local/v1"), "8.8.8.8");
    assert_eq!(refused("http://8.8.8.8/@localhost/"), "8.8.8.8");
    assert_eq!(refused("http://8.8.8.8?@localhost"), "8.8.8.8");
    ensure_local_endpoint("http://localhost?to=8.8.8.8").unwrap();
    ensure_local_endpoint("http://localhost#8.8.8.8").unwrap();
}

#[test]
fn urls_without_a_scheme_begin_with_their_host() {
    let refused = |url: &str| ensure_local_endpoint(url).unwrap_err().host;
    assert_eq!(refused("api.openai.com/v1"), "api.openai.com");
    assert_eq!(refused("8.8.8.8:80"), "8.8.8.8");
    assert_eq!(refused("8.8.8.8/v1?to=http://localhost/"), "8.8.8.8");
    assert_eq!(refused(""), "");
    assert_eq!(refused("http://"), "");
    ensure_local_endpoint("studio.local").unwrap();
    ensure_local_endpoint("localhost/v1?to=http://8.8.8.8/").unwrap();
}

#[test]
fn brackets_hold_the_whole_host() {
    let refused = |url: &str| ensure_local_endpoint(url).unwrap_err().host;
    assert_eq!(refused("http://[::1].example.com/"), "[::1].example.com");
    assert_eq!(refused("http://[::1/"), "[::1");
    ensure_local_endpoint("http://[::1]").unwrap();
}
