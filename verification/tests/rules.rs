use sazanami::net::{ipv4, Ipv4Cidr};
use sazanami::rules::{Action, GeoEntry, NoMatch, ProxyRules, Rule, RuleError};

fn compile(lines: &[&str]) -> ProxyRules {
    let lines: Vec<String> = lines.iter().map(|l| l.to_string()).collect();
    ProxyRules::compile(&lines).unwrap()
}

#[test]
fn rules_are_read_from_text() {
    assert_eq!(
        Rule::from_str("DOMAIN,clash.razord.top,DIRECT"),
        Ok(Rule::Domain("clash.razord.top".to_string(), Action::Direct))
    );
    assert_eq!(
        Rule::from_str("DOMAIN-SUFFIX,office365.com,DIRECT"),
        Ok(Rule::DomainSuffix("office365.com".to_string(), Action::Direct))
    );
    assert_eq!(
        Rule::from_str("DOMAIN-KEYWORD,google,Tokyo 01"),
        Ok(Rule::DomainKeyword("google".to_string(), Action::Proxy("Tokyo 01".to_string())))
    );
    assert_eq!(
        Rule::from_str("IP-CIDR,192.168.0.0/16,REJECT"),
        Ok(Rule::IpCidr(Ipv4Cidr::parse("192.168.0.0/16").unwrap(), Action::Reject))
    );
    assert_eq!(
        Rule::from_str("GEOIP,CN,DIRECT"),
        Ok(Rule::GeoIp("CN".to_string(), Action::Direct))
    );
    assert_eq!(
        Rule::from_str("MATCH,PROXY"),
        Ok(Rule::Match(Action::Proxy("PROXY".to_string())))
    );
}

#[test]
fn each_way_to_write_no_rule_has_its_error() {
    assert_eq!(Rule::from_str("HOST,a.com,DIRECT"), Err(RuleError::UnknownType));
    assert_eq!(Rule::from_str(""), Err(RuleError::UnknownType));
    assert_eq!(Rule::from_str("domain,a.com,DIRECT"), Err(RuleError::UnknownType));
    assert_eq!(Rule::from_str("DOMAIN,a.com"), Err(RuleError::Malformed));
    assert_eq!(Rule::from_str("DOMAIN"), Err(RuleError::Malformed));
    assert_eq!(Rule::from_str("DOMAIN,a.com,DIRECT,extra"), Err(RuleError::Malformed));
    assert_eq!(Rule::from_str("MATCH"), Err(RuleError::Malformed));
    assert_eq!(Rule::from_str("MATCH,x,DIRECT"), Err(RuleError::Malformed));
    assert_eq!(Rule::from_str("DOMAIN,a.com,"), Err(RuleError::EmptyAction));
    assert_eq!(Rule::from_str("MATCH,"), Err(RuleError::EmptyAction));
    assert_eq!(Rule::from_str("DOMAIN,,DIRECT"), Err(RuleError::EmptyValue));
    assert_eq!(Rule::from_str("IP-CIDR,10.0.0.0,DIRECT"), Err(RuleError::InvalidCidr));
    assert_eq!(Rule::from_str("IP-CIDR,10.0.0.0/40,DIRECT"), Err(RuleError::InvalidCidr));
}

#[test]
fn a_match_rule_before_the_end_is_refused() {
    let rules = vec![
        Rule::Match(Action::Direct),
        Rule::Domain("a.com".to_string(), Action::Reject),
    ];
    assert_eq!(ProxyRules::new(rules).err(), Some(RuleError::MatchNotLast));
    let lines = vec!["MATCH,DIRECT".to_string(), "MATCH,REJECT".to_string()];
    assert_eq!(ProxyRules::compile(&lines).err(), Some(RuleError::MatchNotLast));
    assert!(ProxyRules::new(vec![Rule::Match(Action::Direct)]).is_ok());
    assert!(ProxyRules::new(Vec::new()).is_ok());
}

#[test]
fn the_first_line_that_writes_no_rule_decides_the_error() {
    let lines = vec![
        "DOMAIN,a.com,DIRECT".to_string(),
        "DOMAIN,,DIRECT".to_string(),
        "NOPE,a.com,DIRECT".to_string(),
    ];
    assert_eq!(ProxyRules::compile(&lines).err(), Some(RuleError::EmptyValue));
}

#[test]
fn the_first_rule_that_matches_wins() {
    let rules = compile(&["DOMAIN,a.com,DIRECT", "DOMAIN-SUFFIX,a.com,PROXY", "MATCH,DIRECT"]);
    assert_eq!(rules.classify(Some("a.com"), None, 443), Ok(Action::Direct));
    assert_eq!(
        rules.classify(Some("x.a.com"), None, 443),
        Ok(Action::Proxy("PROXY".to_string()))
    );
    assert_eq!(rules.classify(Some("b.org"), None, 443), Ok(Action::Direct));
    assert_eq!(rules.len(), 3);
}

#[test]
fn order_decides_not_the_kind_of_rule() {
    let rules = compile(&["DOMAIN-KEYWORD,oo,REJECT", "DOMAIN,foo.com,DIRECT"]);
    assert_eq!(rules.classify(Some("foo.com"), None, 80), Ok(Action::Reject));
    let rules = compile(&["DOMAIN,foo.com,DIRECT", "DOMAIN-KEYWORD,oo,REJECT"]);
    assert_eq!(rules.classify(Some("foo.com"), None, 80), Ok(Action::Direct));
    assert_eq!(rules.classify(Some("boo.com"), None, 80), Ok(Action::Reject));
}

#[test]
fn a_list_that_ends_in_match_answers_everything() {
    let rules = compile(&["DOMAIN,a.com,REJECT", "IP-CIDR,10.0.0.0/8,REJECT", "MATCH,DIRECT"]);
    assert_eq!(rules.classify(None, None, 0), Ok(Action::Direct));
    assert_eq!(rules.classify(Some(""), None, 0), Ok(Action::Direct));
    assert_eq!(rules.classify(Some("zzz"), Some(1), 65535), Ok(Action::Direct));
    assert_eq!(rules.classify(None, Some(ipv4(11, 0, 0, 1)), 1), Ok(Action::Direct));
    assert_eq!(rules.classify(None, Some(ipv4(10, 0, 0, 1)), 1), Ok(Action::Reject));
}

#[test]
fn without_a_match_rule_there_may_be_no_answer() {
    let rules = compile(&["DOMAIN,a.com,REJECT"]);
    assert_eq!(rules.classify(Some("b.com"), None, 443), Err(NoMatch));
    assert_eq!(rules.classify(None, Some(ipv4(1, 1, 1, 1)), 443), Err(NoMatch));
    let none = compile(&[]);
    assert_eq!(none.classify(Some("a.com"), None, 443), Err(NoMatch));
}

#[test]
fn suffix_and_keyword_go_by_characters() {
    let rules = compile(&["DOMAIN-SUFFIX,example.com,REJECT", "DOMAIN-KEYWORD,ads,P"]);
    assert_eq!(rules.classify(Some("example.com"), None, 1), Ok(Action::Reject));
    assert_eq!(rules.classify(Some("a.example.com"), None, 1), Ok(Action::Reject));
    assert_eq!(rules.classify(Some("example.com.cn"), None, 1), Err(NoMatch));
    assert_eq!(rules.classify(Some("com"), None, 1), Err(NoMatch));
    assert_eq!(rules.classify(Some("ads.net"), None, 1), Ok(Action::Proxy("P".to_string())));
    assert_eq!(rules.classify(Some("my-ads.net"), None, 1), Ok(Action::Proxy("P".to_string())));
    assert_eq!(rules.classify(Some("net.ads"), None, 1), Ok(Action::Proxy("P".to_string())));
    assert_eq!(rules.classify(Some("a.d.s"), None, 1), Err(NoMatch));
    assert_eq!(rules.classify(Some("ad"), None, 1), Err(NoMatch));
}

#[test]
fn rules_on_addresses_are_tried_only_without_a_domain() {
    let rules = compile(&["IP-CIDR,10.0.0.0/8,REJECT", "DOMAIN,a.com,DIRECT"]);
    assert_eq!(rules.classify(None, Some(ipv4(10, 1, 2, 3)), 80), Ok(Action::Reject));
    assert_eq!(rules.classify(Some("a.com"), Some(ipv4(10, 1, 2, 3)), 80), Ok(Action::Direct));
    assert_eq!(rules.classify(Some("b.com"), Some(ipv4(10, 1, 2, 3)), 80), Err(NoMatch));
    assert_eq!(rules.classify(None, Some(ipv4(11, 1, 2, 3)), 80), Err(NoMatch));
}

#[test]
fn countries_come_from_the_first_entry_that_holds_the_address() {
    let geo = vec![
        GeoEntry { block: Ipv4Cidr::parse("1.2.3.0/24").unwrap(), country: "JP".to_string() },
        GeoEntry { block: Ipv4Cidr::parse("1.2.0.0/16").unwrap(), country: "CN".to_string() },
    ];
    let rules = vec![
        Rule::from_str("GEOIP,CN,DIRECT").unwrap(),
        Rule::from_str("GEOIP,JP,REJECT").unwrap(),
    ];
    let rules = ProxyRules::with_geo(rules, geo).unwrap();
    assert_eq!(rules.classify(None, Some(ipv4(1, 2, 3, 4)), 80), Ok(Action::Reject));
    assert_eq!(rules.classify(None, Some(ipv4(1, 2, 4, 4)), 80), Ok(Action::Direct));
    assert_eq!(rules.classify(None, Some(ipv4(1, 3, 0, 0)), 80), Err(NoMatch));
    assert_eq!(rules.classify(Some("a.cn"), Some(ipv4(1, 2, 4, 4)), 80), Err(NoMatch));
}

#[test]
fn a_copy_of_an_action_equals_it() {
    let a = Action::Proxy("Tokyo Sakura IPLC 01".to_string());
    assert_eq!(a.duplicate(), a);
    assert_eq!(Action::Direct.duplicate(), Action::Direct);
    assert_eq!(Action::Reject.duplicate(), Action::Reject);
    let r = Rule::from_str("DOMAIN,a.com,REJECT").unwrap();
    assert_eq!(*r.action(), Action::Reject);
}
