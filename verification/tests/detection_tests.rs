use mole::detection::{rules, DetectionRule};

fn corpus_three_rules() -> String {
    [
        "squid",
        "",
        "GET http://example.org/ HTTP/1.0\\r\\nHost: example.org\\r\\n\\r\\n",
        "",
        "  X-Squid-Error  ",
        "----",
        "apache",
        "",
        "GET http://example.org/ HTTP/1.0\\r\\n\\r\\n",
        "",
        "Server: Apache",
        "--",
        "nginx",
        "",
        "GET / HTTP/1.0\\r\\n\\r\\n",
        "",
        "nginx",
    ]
    .join("\n")
}

#[test]
fn parses_every_well_formed_paragraph() {
    let text = corpus_three_rules();
    let rs: Vec<DetectionRule> = rules(&text);
    assert_eq!(rs.len(), 3);
    assert_eq!(rs[0].tag, "squid");
    assert_eq!(
        rs[0].template,
        "GET http://example.org/ HTTP/1.0\r\nHost: example.org\r\n\r\n"
    );
    assert_eq!(rs[0].needle, "X-Squid-Error");
    assert_eq!(rs[1].tag, "apache");
    assert_eq!(rs[1].needle, "Server: Apache");
    assert_eq!(rs[2].tag, "nginx");
    assert_eq!(rs[2].needle, "nginx");
}

#[test]
fn malformed_paragraph_is_dropped_not_an_error() {
    // the middle paragraph misses its third field: coverage degrades,
    // nothing fails
    let text = [
        "squid",
        "",
        "GET http://x/ HTTP/1.0\\r\\n\\r\\n",
        "",
        "X-Squid-Error",
        "--",
        "this paragraph has only commentary",
        "--",
        "nginx",
        "",
        "GET / HTTP/1.0\\r\\n\\r\\n",
        "",
        "nginx",
    ]
    .join("\n");
    let rs = rules(&text);
    assert_eq!(rs.len(), 2);
    assert_eq!(rs[0].tag, "squid");
    assert_eq!(rs[1].tag, "nginx");
}

#[test]
fn empty_corpus_yields_no_rules() {
    assert_eq!(rules("").len(), 0);
    assert_eq!(rules("just some words\nwithout structure").len(), 0);
}

#[test]
fn extra_fields_are_ignored_beyond_the_third() {
    let text = "tag\n\nreq\n\nneedle\n\nextra ignored";
    let rs = rules(text);
    assert_eq!(rs.len(), 1);
    assert_eq!(rs[0].tag, "tag");
    assert_eq!(rs[0].template, "req");
    assert_eq!(rs[0].needle, "needle");
}

#[test]
fn single_dash_line_is_no_delimiter() {
    // a delimiter needs two or more dashes followed by a line break
    let text = "tag\n\nreq\n\nneedle containing -\n-\nstill the needle";
    let rs = rules(text);
    assert_eq!(rs.len(), 1);
    assert_eq!(
        rs[0].needle,
        "needle containing -\n-\nstill the needle"
    );
}

#[test]
fn needle_is_trimmed_template_is_not() {
    let text = "t\n\n  GET / \\r\\n  \n\n   find me\t\n";
    let rs = rules(text);
    assert_eq!(rs.len(), 1);
    assert_eq!(rs[0].template, "  GET / \r\n  ");
    assert_eq!(rs[0].needle, "find me");
}
