use port_scanner::ports::{default_ports, parse_ports};

#[test]
fn literal_list_in_order() {
    assert_eq!(parse_ports("80,443"), vec![80, 443]);
    assert_eq!(parse_ports("443,80"), vec![443, 80]);
    assert_eq!(parse_ports("22"), vec![22]);
}

#[test]
fn all_resolved_ports_are_valid() {
    let specs = ["80,443", "1-10", "all", "0,65536,70000", "abc,-,--"];
    for spec in specs.iter() {
        for p in parse_ports(spec) {
            assert!(p >= 1);
        }
    }
}

#[test]
fn inclusive_range_and_reversed_range() {
    assert_eq!(parse_ports("20-22"), vec![20, 21, 22]);
    assert_eq!(parse_ports("22-20"), Vec::<u16>::new());
}

#[test]
fn all_expands_to_every_port_ascending() {
    let ports = parse_ports("all");
    assert_eq!(ports.len(), 65535);
    for (i, p) in ports.iter().enumerate() {
        assert_eq!(*p as usize, i + 1);
    }
}

#[test]
fn malformed_token_is_dropped_silently() {
    assert_eq!(parse_ports("80,abc,443"), vec![80, 443]);
}

#[test]
fn duplicates_and_order_are_preserved() {
    assert_eq!(parse_ports("80,80"), vec![80, 80]);
    assert_eq!(parse_ports("443,1-3,443"), vec![443, 1, 2, 3, 443]);
}

#[test]
fn out_of_range_tokens_yield_nothing() {
    assert_eq!(parse_ports("65536"), Vec::<u16>::new());
    assert_eq!(parse_ports("0"), Vec::<u16>::new());
    assert_eq!(parse_ports("99999999999999999999"), Vec::<u16>::new());
    assert_eq!(parse_ports("65535"), vec![65535]);
}

#[test]
fn range_edge_cases() {
    assert_eq!(parse_ports("7-7"), vec![7]);
    assert_eq!(parse_ports("1-2-3"), Vec::<u16>::new());
    assert_eq!(parse_ports("-5"), Vec::<u16>::new());
    assert_eq!(parse_ports("5-"), Vec::<u16>::new());
    assert_eq!(parse_ports("a-b"), Vec::<u16>::new());
    assert_eq!(parse_ports("8000-8100").len(), 101);
}

#[test]
fn leading_plus_and_zeros_parse_like_integers() {
    assert_eq!(parse_ports("+80"), vec![80]);
    assert_eq!(parse_ports("080"), vec![80]);
    assert_eq!(parse_ports("++80"), Vec::<u16>::new());
    assert_eq!(parse_ports("+"), Vec::<u16>::new());
}

#[test]
fn empty_and_separator_only_specs_yield_nothing() {
    assert_eq!(parse_ports(""), Vec::<u16>::new());
    assert_eq!(parse_ports(","), Vec::<u16>::new());
    assert_eq!(parse_ports("80,,443"), vec![80, 443]);
}

#[test]
fn default_is_one_through_1024() {
    let ports = default_ports();
    assert_eq!(ports.len(), 1024);
    for (i, p) in ports.iter().enumerate() {
        assert_eq!(*p as usize, i + 1);
    }
}
