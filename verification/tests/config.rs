use ircd::config::{load, ConfigError, RawListen};

fn raw(host: &str, port: i64) -> RawListen {
    RawListen { hostname: host.to_string(), port }
}

#[test]
fn builds_listen_settings_in_order() {
    let s = load(vec![raw("127.0.0.1", 6667), raw("::1", 0), raw("irc.example", 65535)]).unwrap();
    assert_eq!(s.listen.len(), 3);
    assert_eq!(s.listen[0].hostname, "127.0.0.1");
    assert_eq!(s.listen[0].port, 6667);
    assert_eq!(s.listen[1].port, 0);
    assert_eq!(s.listen[2].hostname, "irc.example");
    assert_eq!(s.listen[2].port, 65535);
}

#[test]
fn empty_listen_list_loads() {
    assert_eq!(load(vec![]).unwrap().listen.len(), 0);
}

#[test]
fn refuses_the_first_port_out_of_range() {
    assert_eq!(
        load(vec![raw("a", 1), raw("b", 65536), raw("c", -1)]).err(),
        Some(ConfigError::PortOutOfRange { index: 1, port: 65536 })
    );
    assert_eq!(
        load(vec![raw("c", -1)]).err(),
        Some(ConfigError::PortOutOfRange { index: 0, port: -1 })
    );
}
