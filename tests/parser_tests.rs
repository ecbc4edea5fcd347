use macrotis::parser::{
    from_string, parse, parse_ans, parse_anssoa, parse_aptr, parse_mx, parse_soa, parse_txt,
};
use macrotis::tinydns::TinyDNSRecord;
#[test]
fn test_basic_parse() {
    // Test the 3 most basic record types
    let arec = TinyDNSRecord {
        rtype: "A".to_string(),
        fqdn:  "foo.test.com".to_string(),
        target: "1.2.3.4".to_string(),
        ttl: 300 };
    let prec = TinyDNSRecord {
        rtype: "PTR".to_string(),
        fqdn:  "4.3.2.1.in-addr.arpa".to_string(),
        target: "foo.test.com".to_string(),
        ttl: 300 };
    let crec = TinyDNSRecord {
        rtype: "CNAME".to_string(),
        fqdn:  "bar.test.com".to_string(),
        target: "foo.test.com".to_string(),
        ttl: 300 };
    
    let atext = "foo.test.com:1.2.3.4:300";
    let ptext = "4.3.2.1.in-addr.arpa:foo.test.com:300";
    let ctext = "bar.test.com:foo.test.com:300";

    assert!(vec![arec] == parse("A", atext));
    assert!(vec![prec] == parse("PTR", ptext));
    assert!(vec![crec] == parse("CNAME", ctext));
}

#[test]
fn test_bad_ip_a_record() {
    // Make sure a bad IP in an A record returns an empty vec
    let atext="foo.test.com:999.999.999.999:300";
    let empty: Vec<TinyDNSRecord> = Vec::new();
    assert!(empty == parse("A", atext));
}

#[test]
fn test_basic_bad_input() {
    // Make sure we get an empty vec back if we send bad data to parse()
    let text = "this is some crappy data";
    let empty: Vec<TinyDNSRecord> = Vec::new();
    assert!(empty == parse("A", text));
}

#[test]
fn test_parse_txt() {
    // Test parse_text with good data
    let trec = TinyDNSRecord {
        rtype: "TXT".to_string(),
        fqdn:  "foo.test.com".to_string(),
        target: "a string of data".to_string(),
        ttl: 300 };
    let text = "foo.test.com:\"a string of data\":300";

    assert!(vec![trec] == parse_txt(text));
}

#[test]
fn test_bad_parse_txt() {
    // Test parse_text with bad data
    let text = "foo.test.com:no quotes uhoh:300";
    let text2 = "foo.test.com:\"missing end quote:300";
    let empty: Vec<TinyDNSRecord> = Vec::new();
    assert!(empty == parse_txt(text));
    assert!(empty == parse_txt(text2));
}

#[test]
fn test_parse_mx() {
    // Test parse_mx with good data
    let mx = TinyDNSRecord {
        rtype: "MX".to_string(),
        fqdn:  "test.com".to_string(),
        target: "20 foo.test.com".to_string(),
        ttl: 300 };
    let a  = TinyDNSRecord {
        rtype: "A".to_string(),
        fqdn:  "foo.test.com".to_string(),
        target: "1.2.3.4".to_string(),
        ttl: 300 };
    let line = "test.com:1.2.3.4:foo.test.com:20:300";
    let parsed = parse_mx(line);
    assert!(mx == parsed[0]);
    assert!(a  == parsed[1]);
}

#[test]
fn test_bad_parse_mx() {
    // Test parse_mx with bad data
    let badip = "test.com:999.999.999.999:foo.test.com:20:300";
    let badstr = "bad data";
    let empty: Vec<TinyDNSRecord> = Vec::new();
    assert!(empty == parse_mx(badip));
    assert!(empty == parse_mx(badstr));
}

#[test]
fn test_parse_soa() {
    // Test parse_soa with good data
    let soa = TinyDNSRecord {
        rtype: "SOA".to_string(),
        fqdn:  "test.com".to_string(),
        target: "foo.test.com person.test.com 1 2 3 4 5".to_string(),
        ttl: 300 };
    let line = "test.com:foo.test.com:person.test.com:1:2:3:4:5:300";
    assert!(vec![soa] == parse_soa(line));
}

#[test]
fn test_bad_parse_soa() {
    // Test parse_soa with bad data
    let line = "look at this bad data";
    let empty: Vec<TinyDNSRecord> = Vec::new();
    assert!(empty == parse_soa(line));
}

#[test]
fn test_parse_anssoa() {
    // Test parse_anssoa with good data - 3 records
    let a  = TinyDNSRecord {
        rtype: "A".to_string(),
        fqdn:  "foo.test.com".to_string(),
        target: "1.2.3.4".to_string(),
        ttl: 300 };
    let ns  = TinyDNSRecord {
        rtype: "NS".to_string(),
        fqdn:  "foo.test.com".to_string(),
        target: "test.com".to_string(),
        ttl: 300 };
    let soa = TinyDNSRecord {
        rtype: "SOA".to_string(),
        fqdn:  "test.com".to_string(),
        target: "foo.test.com hostmaster.test.com 1 1 1 1 60".to_string(),
        ttl: 300 };
    let line = "test.com:1.2.3.4:foo.test.com:300";
    let parsed = parse_anssoa(line);
    assert!(ns == parsed[0]);
    assert!(a  == parsed[1]);
    assert!(soa == parsed[2]);
}

#[test]
fn test_bad_parse_anssoa() {
    // Test parse_anssoa with bad data
    let line = "super bad data";
    let badip = "fqdn:999.999.999.999:x:300";
    let empty: Vec<TinyDNSRecord> = Vec::new();
    assert!(empty == parse_anssoa(line));
    assert!(empty == parse_anssoa(badip));
}

#[test]
fn test_parse_ans() { 
    // Test parse_ans with good data
    let a  = TinyDNSRecord {
        rtype: "A".to_string(),
        fqdn:  "foo.test.com".to_string(),
        target: "1.2.3.4".to_string(),
        ttl: 300 };
    let ns  = TinyDNSRecord {
        rtype: "NS".to_string(),
        fqdn:  "foo.test.com".to_string(),
        target: "test.com".to_string(),
        ttl: 300 };
    let line = "test.com:1.2.3.4:foo.test.com:300";
    let parsed = parse_ans(line);
    assert!(ns == parsed[0]);
    assert!(a  == parsed[1]);
}

#[test]
fn test_bad_parse_ans() {
    // Test parse_ans with bad data
    let line = "no good rotten data";
    let badip = "fqdn:9999.999.258.0:x:300";
    let empty: Vec<TinyDNSRecord> = Vec::new();
    assert!(empty == parse_ans(line));
    assert!(empty == parse_ans(badip));
}

#[test]
fn test_parse_aptr() { 
    // Test parse_aptr with good data
    let a  = TinyDNSRecord {
        rtype: "A".to_string(),
        fqdn:  "foo.test.com".to_string(),
        target: "1.2.3.4".to_string(),
        ttl: 300 };
    let ptr = TinyDNSRecord {
        rtype: "PTR".to_string(),
        fqdn:  "4.3.2.1.in-addr.arpa".to_string(),
        target: "foo.test.com".to_string(),
        ttl: 300 };
    let line = "foo.test.com:1.2.3.4:300";
    let parsed = parse_aptr(line);
    assert!(a == parsed[0]);
    assert!(ptr == parsed[1]);
}

#[test]
fn test_bad_parse_aptr() { 
    // Test parse_aptr with bad data
    let line = "oooooh this data!";
    let badip = "fqdn:99.999.598.10:x:300";
    let empty: Vec<TinyDNSRecord> = Vec::new();
    assert!(empty == parse_aptr(line));
    assert!(empty == parse_aptr(badip));
}

// Bring it all together and make sure from_string() can handle the 12
// possible arms of its match{} statement.  Most of this is just repeated
// code from testing the individual parsing functions only passed to
// from_string() instead of parse_X.
#[test]
fn test_from_string_a() {
    let a  = TinyDNSRecord {
        rtype: "A".to_string(),
        fqdn:  "foo.test.com".to_string(),
        target: "1.2.3.4".to_string(),
        ttl: 300 };
    let line = "+foo.test.com:1.2.3.4:300";
    let parsed = from_string(line).unwrap();
    assert!(a == parsed[0]);
}

#[test]
fn test_from_string_ptr() {
    let prec = TinyDNSRecord {
        rtype: "PTR".to_string(),
        fqdn:  "4.3.2.1.in-addr.arpa".to_string(),
        target: "foo.test.com".to_string(),
        ttl: 300 };
    let line = "^4.3.2.1.in-addr.arpa:foo.test.com:300";
    let parsed = from_string(line).unwrap();
    assert!(prec == parsed[0]);
}

#[test]
fn test_from_string_cname() {
    let crec = TinyDNSRecord {
        rtype: "CNAME".to_string(),
        fqdn:  "bar.test.com".to_string(),
        target: "foo.test.com".to_string(),
        ttl: 300 };
    let line = "Cbar.test.com:foo.test.com:300";
    let parsed = from_string(line).unwrap();
    assert!(crec == parsed[0]);
}

#[test]
fn test_from_string_txt() {
    let trec = TinyDNSRecord {
        rtype: "TXT".to_string(),
        fqdn:  "foo.test.com".to_string(),
        target: "a string of data".to_string(),
        ttl: 300 };
    let line = "'foo.test.com:\"a string of data\":300";
    let parsed = from_string(line).unwrap();
    assert!(trec == parsed[0]);
}

#[test]
fn test_from_string_mx() {
    let mx = TinyDNSRecord {
        rtype: "MX".to_string(),
        fqdn:  "test.com".to_string(),
        target: "20 foo.test.com".to_string(),
        ttl: 300 };
    let a  = TinyDNSRecord {
        rtype: "A".to_string(),
        fqdn:  "foo.test.com".to_string(),
        target: "1.2.3.4".to_string(),
        ttl: 300 };
    let line = "@test.com:1.2.3.4:foo.test.com:20:300";
    let parsed = from_string(line).unwrap();
    assert!(mx == parsed[0]);
    assert!(a  == parsed[1]);
}

#[test]
fn test_from_string_soa() {
    let soa = TinyDNSRecord {
        rtype: "SOA".to_string(),
        fqdn:  "test.com".to_string(),
        target: "foo.test.com person.test.com 1 2 3 4 5".to_string(),
        ttl: 300 };
    let line = "Ztest.com:foo.test.com:person.test.com:1:2:3:4:5:300";
    let parsed = from_string(line).unwrap();
    assert!(soa == parsed[0]);
}

#[test]
fn test_from_string_anssoa() {
    let a  = TinyDNSRecord {
        rtype: "A".to_string(),
        fqdn:  "foo.test.com".to_string(),
        target: "1.2.3.4".to_string(),
        ttl: 300 };
    let ns  = TinyDNSRecord {
        rtype: "NS".to_string(),
        fqdn:  "foo.test.com".to_string(),
        target: "test.com".to_string(),
        ttl: 300 };
    let soa = TinyDNSRecord {
        rtype: "SOA".to_string(),
        fqdn:  "test.com".to_string(),
        target: "foo.test.com hostmaster.test.com 1 1 1 1 60".to_string(),
        ttl: 300 };
    let line = ".test.com:1.2.3.4:foo.test.com:300";
    let parsed = from_string(line).unwrap();
    assert!(ns == parsed[0]);
    assert!(a  == parsed[1]);
    assert!(soa == parsed[2]);
}

#[test]
fn test_from_string_ans() {
    let a  = TinyDNSRecord {
        rtype: "A".to_string(),
        fqdn:  "foo.test.com".to_string(),
        target: "1.2.3.4".to_string(),
        ttl: 300 };
    let ns  = TinyDNSRecord {
        rtype: "NS".to_string(),
        fqdn:  "foo.test.com".to_string(),
        target: "test.com".to_string(),
        ttl: 300 };
    let line = "&test.com:1.2.3.4:foo.test.com:300";
    let parsed = from_string(line).unwrap();
    assert!(ns == parsed[0]);
    assert!(a  == parsed[1]);
}

#[test]
fn test_from_string_aptr() {
    let a  = TinyDNSRecord {
        rtype: "A".to_string(),
        fqdn:  "foo.test.com".to_string(),
        target: "1.2.3.4".to_string(),
        ttl: 300 };
    let ptr = TinyDNSRecord {
        rtype: "PTR".to_string(),
        fqdn:  "4.3.2.1.in-addr.arpa".to_string(),
        target: "foo.test.com".to_string(),
        ttl: 300 };
    let line = "=foo.test.com:1.2.3.4:300";
    let parsed = from_string(line).unwrap();
    assert!(a == parsed[0]);
    assert!(ptr == parsed[1]);
}

#[test]
fn test_from_string_comment() {
    let line = "# A comment line";
    let line2 = "-disabled:record:300";
    let empty: Vec<TinyDNSRecord> = Vec::new();
    let parsed = from_string(line).unwrap();
    let parsed2 = from_string(line2).unwrap();
    assert!(empty == parsed);
    assert!(empty == parsed2);
}

#[test]
fn test_from_string_baddata() {
    let line = "2098u983rjgq24gjadjgaNONSENSE";
    let parsed = from_string(line);
    assert!(parsed == None);
}
