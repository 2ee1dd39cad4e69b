use dhcpd_parser::parser;
use dhcpd_parser::parser::LeasesMethods;

#[test]
fn empty_input_parses_to_no_leases() {
    let res = parser::parse("".to_string());
    assert_eq!(res.unwrap().leases.len(), 0);
    let res = parser::parse(" \t\r\n ".to_string());
    assert_eq!(res.unwrap().leases.len(), 0);
}

#[test]
fn single_empty_lease_block() {
    let res = parser::parse("lease 192.0.0.2 { }".to_string());
    let leases = res.unwrap().leases;
    assert_eq!(leases.len(), 1);
    let l = leases.get(0);
    assert_eq!(l.ip, "192.0.0.2");
    assert!(l.hardware.is_none());
    assert!(l.uid.is_none());
    assert!(l.client_hostname.is_none());
    assert!(l.hostname.is_none());
    assert!(l.dates.starts.is_none());
    assert!(l.dates.ends.is_none());
    assert!(!l.abandoned);
}

#[test]
fn by_leased_prefers_the_later_declaration() {
    let res = parser::parse(
        "
    lease 192.168.0.2 {
        uid First;
    }
    lease 10.0.0.1 {
        uid Other;
    }
    lease 192.168.0.2 {
        uid Second;
    }
    "
        .to_string(),
    );
    let leases = res.unwrap().leases;

    let latest = leases.by_leased("192.168.0.2".to_string()).unwrap();
    assert_eq!(latest.uid.as_ref().unwrap(), "Second");

    let all = leases.by_leased_all("192.168.0.2".to_string());
    assert_eq!(all.len(), 2);
    assert_eq!(all[0].uid.as_ref().unwrap(), "First");
    assert_eq!(all[1].uid.as_ref().unwrap(), "Second");

    assert!(leases.by_leased("172.16.0.1".to_string()).is_none());
    assert!(leases.by_leased_all("172.16.0.1".to_string()).is_empty());
}

#[test]
fn by_mac_ignores_leases_without_hardware() {
    let res = parser::parse(
        "
    lease 192.168.0.2 {
        hardware ethernet 11:11:11:11:11:11;
        uid First;
    }
    lease 192.168.0.3 {
        uid NoHardware;
    }
    lease 192.168.0.4 {
        hardware ethernet 11:11:11:11:11:11;
        uid Second;
    }
    "
        .to_string(),
    );
    let leases = res.unwrap().leases;

    let latest = leases.by_mac("11:11:11:11:11:11".to_string()).unwrap();
    assert_eq!(latest.uid.as_ref().unwrap(), "Second");

    let all = leases.by_mac_all("11:11:11:11:11:11".to_string());
    assert_eq!(all.len(), 2);
    assert_eq!(all[0].uid.as_ref().unwrap(), "First");
    assert_eq!(all[1].uid.as_ref().unwrap(), "Second");

    assert!(leases.by_mac("22:22:22:22:22:22".to_string()).is_none());
    assert!(leases.by_mac_all("22:22:22:22:22:22".to_string()).is_empty());
}

#[test]
fn hostnames_omit_leases_without_the_field() {
    let res = parser::parse(
        "
    lease 192.168.0.2 {
        hostname \"ALPHA\";
    }
    lease 192.168.0.3 {
        uid NoHostname;
    }
    lease 192.168.0.4 {
        hostname \"BETA\";
    }
    lease 192.168.0.5 {
        hostname \"ALPHA\";
    }
    "
        .to_string(),
    );
    let leases = res.unwrap().leases;

    assert_eq!(
        leases.hostnames(),
        vec!["ALPHA".to_string(), "BETA".to_string()]
    );
    assert!(leases.client_hostnames().is_empty());
}

#[test]
fn duplicate_declarations_are_all_kept() {
    let res = parser::parse(
        "
    lease 192.168.0.2 { }
    lease 192.168.0.2 { }
    lease 192.168.0.2 { abandoned; }
    "
        .to_string(),
    );
    let leases = res.unwrap().leases;
    assert_eq!(leases.len(), 3);
    assert_eq!(leases.get(0).ip, "192.168.0.2");
    assert_eq!(leases.get(2).ip, "192.168.0.2");
    assert!(leases.get(2).abandoned);
    assert!(!leases.get(0).abandoned);
}

#[test]
fn is_active_at_includes_both_endpoints() {
    let res = parser::parse(
        "
    lease 192.168.0.2 {
        starts 2 2019/01/01 22:00:00;
        ends 2 2019/01/01 23:00:00;
    }
    lease 192.168.0.3 { }
    "
        .to_string(),
    );
    let leases = res.unwrap().leases;
    let exactly = |t: &str| {
        dhcpd_parser::common::Date::from(
            "2".to_string(),
            "2019/01/01".to_string(),
            t.to_string(),
        )
        .unwrap()
    };

    assert!(leases.get(0).is_active_at(exactly("22:00:00")));
    assert!(leases.get(0).is_active_at(exactly("23:00:00")));
    assert!(!leases.get(0).is_active_at(exactly("21:59:59")));
    assert!(!leases.get(0).is_active_at(exactly("23:00:01")));

    // A lease without dates is unbounded on both sides.
    assert!(leases.get(1).is_active_at(exactly("00:00:00")));
}
