use vast_parser::models::{
    Ad, AdSystem, Creative, Impression, InLine, Linear, NonLinear, NonLinearAds, TrackingEvent, Vast,
};
use vast_parser::parser::parse_vast;
use vast_parser::render::vast_to_xml;
use vast_parser::stitcher::stitch_vast;
use vast_parser::unwrap::{collect_wrapper_tracking, unwrap_vast, Mode, Step, Traversal};

fn wrapper_doc(uri: &str, impression: &str, start: Option<&str>) -> String {
    let creatives = match start {
        Some(u) => format!(
            "<Creatives><Creative><Linear><TrackingEvents><Tracking event=\"start\"><![CDATA[{}]]></Tracking></TrackingEvents></Linear></Creative></Creatives>",
            u
        ),
        None => String::new(),
    };
    format!(
        "<VAST version=\"3.0\"><Ad><Wrapper><AdSystem>W</AdSystem><VASTAdTagURI><![CDATA[{}]]></VASTAdTagURI>\
         <Impression><![CDATA[{}]]></Impression>{}</Wrapper></Ad></VAST>",
        uri, impression, creatives
    )
}

fn inline_doc(version: &str, title: &str) -> String {
    format!(
        "<VAST version=\"{}\"><Ad id=\"in\"><InLine><AdSystem>S</AdSystem><AdTitle>{}</AdTitle>\
         <Impression><![CDATA[http://inline/imp]]></Impression>\
         <Creatives><Creative><Linear><TrackingEvents><Tracking event=\"start\"><![CDATA[http://inline/start]]></Tracking>\
         </TrackingEvents></Linear></Creative></Creatives></InLine></Ad></VAST>",
        version, title
    )
}

/// A chain root -> loc1 -> ... -> loc{k} where loc{k} is inline.
fn chain(k: usize) -> (String, Vec<(String, String)>) {
    let root = wrapper_doc("loc1", "http://w0/imp", None);
    let mut sources = Vec::new();
    for i in 1..k {
        sources.push((format!("loc{}", i), wrapper_doc(&format!("loc{}", i + 1), &format!("http://w{}/imp", i), None)));
    }
    sources.push((format!("loc{}", k), inline_doc("2.0", "End")));
    (root, sources)
}

#[test]
fn short_chain_resolves_to_inline() {
    for k in [1usize, 3, 9] {
        let (root, sources) = chain(k);
        let v = unwrap_vast(&root, &sources).unwrap();
        assert_eq!(v.version, "3.0");
        assert_eq!(v.error, None);
        assert_eq!(v.ads.len(), 1);
        assert_eq!(v.ads[0].inline.as_ref().unwrap().ad_title, "End");
    }
}

#[test]
fn long_chain_gives_last_document_read() {
    for k in [10usize, 12] {
        let (root, sources) = chain(k);
        let v = unwrap_vast(&root, &sources).unwrap();
        assert_eq!(v.ads.len(), 1);
        let w = v.ads[0].wrapper.as_ref().unwrap();
        assert!(v.ads[0].inline.is_none());
        // the document at depth 9 points to loc10
        assert_eq!(w.vast_ad_tag_uri, "loc10");
    }
}

#[test]
fn self_cycle_is_fetched_once() {
    let root = wrapper_doc("self", "http://root/imp", None);
    let sources = vec![("self".to_string(), wrapper_doc("self", "http://self/imp", None))];
    let v = unwrap_vast(&root, &sources).unwrap();
    assert!(v.ads[0].inline.is_none());
    assert_eq!(v.ads[0].wrapper.as_ref().unwrap().impressions[0].url, "http://self/imp");

    let mut t = Traversal::start(&root, Mode::Resolve).unwrap();
    let mut requested = Vec::new();
    loop {
        match t.advance() {
            Step::Fetch(u) => {
                requested.push(u.clone());
                let content = sources.iter().find(|(k, _)| *k == u).map(|(_, c)| c.clone());
                t.supply(content);
            }
            Step::Done => break,
        }
    }
    assert_eq!(requested, vec!["self".to_string()]);
}

#[test]
fn unresolvable_chain_gives_root() {
    let root = wrapper_doc("missing", "http://root/imp", None);
    let v = unwrap_vast(&root, &Vec::new()).unwrap();
    assert_eq!(v.ads.len(), 1);
    assert_eq!(v.ads[0].wrapper.as_ref().unwrap().vast_ad_tag_uri, "missing");
}

#[test]
fn broken_root_fails() {
    assert!(unwrap_vast("<VAST><Ad></Ad></VAST>", &Vec::new()).is_err());
    assert!(stitch_vast("not xml", &Vec::new()).is_err());
}

#[test]
fn failed_branch_leaves_other_ads() {
    let root = "<VAST version=\"4.0\">\
        <Ad id=\"1\"><Wrapper><VASTAdTagURI>http://timeout.example</VASTAdTagURI></Wrapper></Ad>\
        <Ad id=\"2\"><Wrapper><VASTAdTagURI>good</VASTAdTagURI></Wrapper></Ad>\
        <Ad id=\"3\"><InLine><AdTitle>Direct</AdTitle></InLine></Ad>\
        </VAST>";
    let sources = vec![("good".to_string(), inline_doc("2.0", "Fetched"))];
    let v = unwrap_vast(root, &sources).unwrap();
    assert_eq!(v.version, "4.0");
    let titles: Vec<&str> = v.ads.iter().map(|a| a.inline.as_ref().unwrap().ad_title.as_str()).collect();
    assert_eq!(titles, vec!["Direct", "Fetched"]);
}

#[test]
fn broken_hop_document_is_dropped() {
    let root = "<VAST version=\"4.0\"><Ad><Wrapper><VASTAdTagURI>bad</VASTAdTagURI></Wrapper></Ad>\
        <Ad><Wrapper><VASTAdTagURI>good</VASTAdTagURI></Wrapper></Ad></VAST>";
    let sources = vec![
        ("bad".to_string(), "<VAST><Ad></Ad></VAST>".to_string()),
        ("good".to_string(), inline_doc("2.0", "Fetched")),
    ];
    let v = unwrap_vast(root, &sources).unwrap();
    assert_eq!(v.ads.len(), 1);
    assert_eq!(v.ads[0].inline.as_ref().unwrap().ad_title, "Fetched");
}

#[test]
fn shared_target_is_claimed_once() {
    let root = "<VAST version=\"4.0\"><Ad><Wrapper><VASTAdTagURI>same</VASTAdTagURI></Wrapper></Ad>\
        <Ad><Wrapper><VASTAdTagURI>same</VASTAdTagURI></Wrapper></Ad></VAST>";
    let sources = vec![("same".to_string(), inline_doc("2.0", "Once"))];
    let v = unwrap_vast(root, &sources).unwrap();
    assert_eq!(v.ads.len(), 1);
}

#[test]
fn stitch_merges_wrapper_tracking() {
    let root = wrapper_doc("w2", "http://w1/imp", Some("http://w1/start"));
    let sources = vec![
        ("w2".to_string(), wrapper_doc("in", "http://w2/imp", Some("http://w2/start"))),
        ("in".to_string(), inline_doc("2.0", "Final")),
    ];
    let text = stitch_vast(&root, &sources).unwrap();
    let v = parse_vast(&text).unwrap();
    assert_eq!(v.version, "3.0");
    let inline = v.ads[0].inline.as_ref().unwrap();
    let imps: Vec<&str> = inline.impressions.iter().map(|i| i.url.as_str()).collect();
    assert_eq!(imps, vec!["http://inline/imp", "http://w1/imp", "http://w2/imp"]);
    let starts: Vec<&str> = inline.creatives[0].linear.as_ref().unwrap().tracking_events.iter()
        .filter(|e| e.event == "start").map(|e| e.url.as_str()).collect();
    assert_eq!(starts, vec!["http://inline/start", "http://w1/start", "http://w2/start"]);
}

#[test]
fn collected_tracking_follows_every_hop() {
    let root = wrapper_doc("w2", "http://w1/imp", Some("http://w1/start"));
    let sources = vec![("w2".to_string(), wrapper_doc("gone", "http://w2/imp", Some("http://w2/start")))];
    let t = collect_wrapper_tracking(&root, &sources).unwrap();
    let imps: Vec<&str> = t.impressions.iter().map(|i| i.url.as_str()).collect();
    assert_eq!(imps, vec!["http://w1/imp", "http://w2/imp"]);
    assert_eq!(t.tracking_events.len(), 1);
    assert_eq!(t.tracking_events[0].tag, "start");
    assert_eq!(t.tracking_events[0].urls, vec!["http://w1/start".to_string(), "http://w2/start".to_string()]);
}

#[test]
fn stitch_sets_error_and_clicks() {
    let root = "<VAST version=\"3.0\"><Ad><Wrapper><VASTAdTagURI>in</VASTAdTagURI><Error>http://e1</Error>\
        <Creatives><Creative><Linear><VideoClicks><ClickTracking>http://c1</ClickTracking>\
        <CustomClick>http://k1</CustomClick></VideoClicks></Linear></Creative></Creatives></Wrapper></Ad></VAST>";
    let sources = vec![("in".to_string(), inline_doc("2.0", "T"))];
    let v = parse_vast(&stitch_vast(root, &sources).unwrap()).unwrap();
    let inline = v.ads[0].inline.as_ref().unwrap();
    assert_eq!(inline.error.as_deref(), Some("http://e1"));
    let clicks = inline.creatives[0].linear.as_ref().unwrap().video_clicks.as_ref().unwrap();
    assert_eq!(clicks.click_through, None);
    assert_eq!(clicks.click_tracking, vec!["http://c1".to_string()]);
    assert_eq!(clicks.custom_click, vec!["http://k1".to_string()]);
}

fn sample() -> Vast {
    Vast {
        version: "4.0".to_string(),
        error: None,
        ads: vec![Ad {
            id: Some("7".to_string()),
            sequence: Some(3),
            conditional_ad: Some(false),
            inline: Some(InLine {
                ad_system: AdSystem { name: "Sys".to_string(), version: None },
                ad_title: "T".to_string(),
                impressions: vec![Impression { id: None, url: "http://i".to_string() }],
                description: None,
                advertiser: None,
                survey: None,
                error: None,
                pricing: None,
                extensions: vec![],
                creatives: vec![Creative {
                    id: None,
                    sequence: None,
                    ad_id: None,
                    api_framework: None,
                    linear: Some(Linear {
                        duration: None,
                        media_files: vec![],
                        video_clicks: None,
                        tracking_events: vec![TrackingEvent { event: "start".to_string(), url: "http://s".to_string() }],
                    }),
                    companion_ads: None,
                    non_linear_ads: Some(NonLinearAds {
                        non_linears: vec![NonLinear {
                            id: None,
                            width: 300,
                            height: 50,
                            expand_width: None,
                            expand_height: None,
                            scalable: Some(true),
                            maintain_aspect_ratio: None,
                            resource_type: "StaticResource".to_string(),
                            resource: "http://r".to_string(),
                            click_through: None,
                        }],
                    }),
                }],
            }),
            wrapper: None,
        }],
    }
}

#[test]
fn renders_canonical_text() {
    let expected = [
        "<?xml version=\"1.0\" encoding=\"UTF-8\"?>",
        "<VAST version=\"4.0\">",
        "  <Ad id=\"7\" sequence=\"3\" conditionalAd=\"false\">",
        "    <InLine>",
        "      <AdSystem>Sys</AdSystem>",
        "      <AdTitle>T</AdTitle>",
        "      <Impression><![CDATA[http://i]]></Impression>",
        "      <Creatives>",
        "        <Creative>",
        "          <Linear>",
        "            <TrackingEvents>",
        "              <Tracking event=\"start\"><![CDATA[http://s]]></Tracking>",
        "            </TrackingEvents>",
        "          </Linear>",
        "          <NonLinearAds>",
        "            <NonLinear width=\"300\" height=\"50\" scalable=\"true\">",
        "              <StaticResource><![CDATA[http://r]]></StaticResource>",
        "            </NonLinear>",
        "          </NonLinearAds>",
        "        </Creative>",
        "      </Creatives>",
        "    </InLine>",
        "  </Ad>",
        "</VAST>",
    ]
    .join("\n");
    assert_eq!(vast_to_xml(&sample()), expected);
}

#[test]
fn renders_empty_document_with_error() {
    let v = Vast { version: "2.0".to_string(), ads: vec![], error: Some("http://e".to_string()) };
    assert_eq!(
        vast_to_xml(&v),
        "<?xml version=\"1.0\" encoding=\"UTF-8\"?>\n<VAST version=\"2.0\">\n  <Error><![CDATA[http://e]]></Error>\n</VAST>"
    );
}

#[test]
fn render_then_parse_keeps_the_captured_fields() {
    let docs = [
        inline_doc("2.0", "Round"),
        wrapper_doc("next", "http://w/imp", Some("http://w/start")),
        r#"<VAST version="3.0"><Ad id="a" sequence="1"><InLine><AdSystem version="2">S</AdSystem><AdTitle>X</AdTitle>
           <Impression id="i1"><![CDATA[http://a]]></Impression><Impression><![CDATA[http://b]]></Impression>
           <Creatives><Creative><Linear><TrackingEvents><Tracking event="start">http://s</Tracking>
           <Tracking event="complete">http://c</Tracking></TrackingEvents>
           <MediaFiles><MediaFile type="video/mp4" width="10" height="20">http://m</MediaFile></MediaFiles>
           </Linear></Creative></Creatives></InLine></Ad><Ad><InLine><AdTitle>Y</AdTitle></InLine></Ad></VAST>"#
            .to_string(),
    ];
    for x in docs.iter() {
        let first = parse_vast(x).unwrap();
        let again = parse_vast(&vast_to_xml(&first)).unwrap();
        assert_eq!(again.version, first.version);
        assert_eq!(again.ads.len(), first.ads.len());
        for (a, b) in first.ads.iter().zip(again.ads.iter()) {
            assert_eq!(a.inline.is_some(), b.inline.is_some());
            if let (Some(x), Some(y)) = (&a.inline, &b.inline) {
                assert_eq!(x.ad_title, y.ad_title);
                assert_eq!(x.impressions, y.impressions);
                assert_eq!(x.creatives.len(), y.creatives.len());
                for (c, d) in x.creatives.iter().zip(y.creatives.iter()) {
                    assert_eq!(c.linear.as_ref().map(|l| l.tracking_events.clone()), d.linear.as_ref().map(|l| l.tracking_events.clone()));
                }
            }
        }
    }
}

#[test]
fn empty_root_resolves_to_itself() {
    let v = unwrap_vast("<VAST version=\"2.0\"></VAST>", &Vec::new()).unwrap();
    assert_eq!(v, Vast { version: "2.0".to_string(), ads: vec![], error: None });
}

#[test]
fn stitching_empty_root_gives_empty_canonical_text() {
    let text = stitch_vast("<VAST version=\"2.0\"></VAST>", &Vec::new()).unwrap();
    assert_eq!(text, "<?xml version=\"1.0\" encoding=\"UTF-8\"?>\n<VAST version=\"2.0\">\n</VAST>");
}

#[test]
fn collecting_over_self_cycle_reads_the_target_once() {
    let root = wrapper_doc("self", "http://root/imp", None);
    let sources = vec![("self".to_string(), wrapper_doc("self", "http://self/imp", None))];
    let t = collect_wrapper_tracking(&root, &sources).unwrap();
    let imps: Vec<&str> = t.impressions.iter().map(|i| i.url.as_str()).collect();
    assert_eq!(imps, vec!["http://root/imp", "http://self/imp"]);
}

#[test]
fn long_chain_fallback_keeps_its_own_version() {
    let root = wrapper_doc("loc1", "http://w0/imp", None);
    let mut sources = Vec::new();
    for i in 1..12 {
        let doc = wrapper_doc(&format!("loc{}", i + 1), &format!("http://w{}/imp", i), None)
            .replace("version=\"3.0\"", &format!("version=\"{}.0\"", i + 10));
        sources.push((format!("loc{}", i), doc));
    }
    let v = unwrap_vast(&root, &sources).unwrap();
    assert_eq!(v.version, "19.0");
    assert_eq!(v.ads[0].wrapper.as_ref().unwrap().vast_ad_tag_uri, "loc10");
}
