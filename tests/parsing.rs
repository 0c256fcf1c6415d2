use vast_parser::error::VastError;
use vast_parser::parser::parse_vast;
use vast_parser::text::{flag_is_true, parse_u32, text_eq};
use vast_parser::xml::{tokenize, Token};

const INLINE_DOC: &str = r#"<?xml version="1.0" encoding="UTF-8"?>
<VAST version="3.0">
  <Ad id="a1" sequence="2" conditionalAd="TRUE">
    <InLine>
      <AdSystem version="1.1">Sys</AdSystem>
      <AdTitle>Title</AdTitle>
      <Impression id="imp"><![CDATA[http://imp.example/1]]></Impression>
      <Error><![CDATA[http://err.example]]></Error>
      <Pricing model="CPM" currency="USD">2.5</Pricing>
      <Extensions><Extension type="x">ext text</Extension></Extensions>
      <Creatives>
        <Creative id="c1" sequence="1" adId="ad9" apiFramework="VPAID">
          <Linear>
            <Duration>00:00:30</Duration>
            <TrackingEvents>
              <Tracking event="start"><![CDATA[http://t.example/start]]></Tracking>
              <Tracking event="complete"><![CDATA[http://t.example/complete]]></Tracking>
            </TrackingEvents>
            <VideoClicks>
              <ClickThrough><![CDATA[http://click.example]]></ClickThrough>
              <ClickTracking><![CDATA[http://ct.example]]></ClickTracking>
            </VideoClicks>
            <MediaFiles>
              <MediaFile type="video/mp4" delivery="progressive" width="640" height="abc" bitrate="500" codec="h264" mediaType="video"><![CDATA[http://media.example/a.mp4]]></MediaFile>
            </MediaFiles>
          </Linear>
        </Creative>
      </Creatives>
    </InLine>
  </Ad>
</VAST>"#;

#[test]
fn parses_inline_document() {
    let v = parse_vast(INLINE_DOC).unwrap();
    assert_eq!(v.version, "3.0");
    assert_eq!(v.error, None);
    assert_eq!(v.ads.len(), 1);
    let ad = &v.ads[0];
    assert_eq!(ad.id.as_deref(), Some("a1"));
    assert_eq!(ad.sequence, Some(2));
    assert_eq!(ad.conditional_ad, Some(true));
    let inline = ad.inline.as_ref().unwrap();
    assert!(ad.wrapper.is_none());
    assert_eq!(inline.ad_system.name, "Sys");
    assert_eq!(inline.ad_system.version.as_deref(), Some("1.1"));
    assert_eq!(inline.ad_title, "Title");
    assert_eq!(inline.impressions.len(), 1);
    assert_eq!(inline.impressions[0].id.as_deref(), Some("imp"));
    assert_eq!(inline.impressions[0].url, "http://imp.example/1");
    assert_eq!(inline.error.as_deref(), Some("http://err.example"));
    let pricing = inline.pricing.as_ref().unwrap();
    assert_eq!((pricing.model.as_str(), pricing.currency.as_str(), pricing.value.as_str()), ("CPM", "USD", "2.5"));
    assert_eq!(inline.extensions.len(), 1);
    assert_eq!(inline.extensions[0].extension_type.as_deref(), Some("x"));
    assert_eq!(inline.extensions[0].content, "ext text");
    let creative = &inline.creatives[0];
    assert_eq!(creative.id.as_deref(), Some("c1"));
    assert_eq!(creative.sequence, Some(1));
    assert_eq!(creative.ad_id.as_deref(), Some("ad9"));
    assert_eq!(creative.api_framework.as_deref(), Some("VPAID"));
    let linear = creative.linear.as_ref().unwrap();
    assert_eq!(linear.duration.as_deref(), Some("00:00:30"));
    assert_eq!(linear.tracking_events.len(), 2);
    assert_eq!(linear.tracking_events[0].event, "start");
    assert_eq!(linear.tracking_events[1].url, "http://t.example/complete");
    let clicks = linear.video_clicks.as_ref().unwrap();
    assert_eq!(clicks.click_through.as_deref(), Some("http://click.example"));
    assert_eq!(clicks.click_tracking, vec!["http://ct.example".to_string()]);
    assert!(clicks.custom_click.is_empty());
    let m = &linear.media_files[0];
    assert_eq!(m.url, "http://media.example/a.mp4");
    assert_eq!(m.mime_type, "video/mp4");
    assert_eq!(m.delivery.as_deref(), Some("progressive"));
    assert_eq!(m.width, Some(640));
    assert_eq!(m.height, None);
    assert_eq!(m.bitrate, Some(500));
    assert_eq!(m.codec.as_deref(), Some("h264"));
    assert_eq!(m.media_type.as_deref(), Some("video"));
}

#[test]
fn missing_version_is_missing_field() {
    let r = parse_vast("<VAST><Ad id=\"1\"></Ad></VAST>");
    assert!(matches!(r, Err(VastError::MissingField(_))));
}

#[test]
fn empty_version_is_missing_field() {
    let r = parse_vast("<VAST version=\"\"></VAST>");
    assert!(matches!(r, Err(VastError::MissingField(_))));
}

#[test]
fn absent_root_is_structural_error() {
    assert!(matches!(parse_vast("<Other version=\"2.0\"></Other>"), Err(VastError::XmlParseError(_))));
    assert!(matches!(parse_vast(""), Err(VastError::XmlParseError(_))));
}

#[test]
fn malformed_markup_is_structural_error() {
    let r = parse_vast("<VAST version=\"2.0\"><Ad><InLine></Ad></VAST>");
    assert!(matches!(r, Err(VastError::XmlParseError(_))));
}

#[test]
fn unclosed_ad_is_structural_error() {
    let r = parse_vast("<VAST version=\"2.0\"><Ad><InLine><AdTitle>x</AdTitle>");
    assert!(matches!(r, Err(VastError::XmlParseError(_))));
}

#[test]
fn empty_root_has_no_ads() {
    let v = parse_vast("<VAST version=\"4.1\"></VAST>").unwrap();
    assert_eq!(v.version, "4.1");
    assert!(v.ads.is_empty());
}

#[test]
fn skips_unknown_element_with_nested_same_name() {
    let xml = "<VAST version=\"2.0\"><Ad><Foo><Foo><InLine><AdTitle>hidden</AdTitle></InLine></Foo></Foo>\
               <InLine><AdTitle>shown</AdTitle></InLine></Ad></VAST>";
    let v = parse_vast(xml).unwrap();
    assert_eq!(v.ads.len(), 1);
    assert_eq!(v.ads[0].inline.as_ref().unwrap().ad_title, "shown");
}

#[test]
fn last_text_fragment_wins() {
    let xml = "<VAST version=\"2.0\"><Ad><InLine><AdTitle>first<!-- c --><![CDATA[second]]></AdTitle></InLine></Ad></VAST>";
    let v = parse_vast(xml).unwrap();
    assert_eq!(v.ads[0].inline.as_ref().unwrap().ad_title, "second");
}

#[test]
fn bad_numbers_are_absent() {
    let xml = "<VAST version=\"2.0\"><Ad sequence=\"-1\"></Ad><Ad sequence=\"4294967296\"></Ad><Ad sequence=\"+7\"></Ad></VAST>";
    let v = parse_vast(xml).unwrap();
    assert_eq!(v.ads.len(), 3);
    assert_eq!(v.ads[0].sequence, None);
    assert_eq!(v.ads[1].sequence, None);
    assert_eq!(v.ads[2].sequence, Some(7));
    assert!(v.ads[0].inline.is_none() && v.ads[0].wrapper.is_none());
}

#[test]
fn companion_and_non_linear_contents_are_skipped() {
    let xml = "<VAST version=\"2.0\"><Ad><InLine><Creatives><Creative>\
               <CompanionAds><Companion width=\"1\" height=\"2\"><CompanionAds></CompanionAds></Companion></CompanionAds>\
               </Creative><Creative><NonLinearAds><NonLinear/></NonLinearAds></Creative></Creatives></InLine></Ad></VAST>";
    let v = parse_vast(xml).unwrap();
    let cs = &v.ads[0].inline.as_ref().unwrap().creatives;
    assert_eq!(cs.len(), 2);
    assert!(cs[0].companion_ads.as_ref().unwrap().companions.is_empty());
    assert!(cs[1].non_linear_ads.as_ref().unwrap().non_linears.is_empty());
    assert!(cs[0].linear.is_none());
}

#[test]
fn escaped_text_is_unescaped() {
    let v = parse_vast("<VAST version=\"2.0\"><Ad><InLine><AdTitle>a &amp; b</AdTitle></InLine></Ad></VAST>").unwrap();
    assert_eq!(v.ads[0].inline.as_ref().unwrap().ad_title, "a & b");
}

#[test]
fn invalid_escape_in_text_is_structural_error() {
    let r = parse_vast("<VAST version=\"2.0\"><Ad><InLine><AdTitle>a &bogus; b</AdTitle></InLine></Ad></VAST>");
    assert!(matches!(r, Err(VastError::XmlParseError(_))));
}

#[test]
fn tokenizer_reports_events_and_ends_with_eof() {
    let toks = tokenize("<a x=\"1\">t</a>");
    assert_eq!(toks.len(), 4);
    match &toks[0] {
        Token::Start(n, attrs) => {
            assert_eq!(n, "a");
            assert_eq!(attrs.len(), 1);
            assert_eq!(attrs[0].key, "x");
            assert_eq!(attrs[0].value, "1");
        }
        _ => panic!("expected a start tag"),
    }
    assert_eq!(toks[1], Token::Text(Some("t".to_string())));
    assert_eq!(toks[2], Token::End("a".to_string()));
    assert_eq!(toks[3], Token::Eof);
}

#[test]
fn tokenizer_stops_at_fault() {
    let toks = tokenize("<a></b>");
    assert_eq!(toks.last(), Some(&Token::Fault));
}

#[test]
fn u32_reading() {
    assert_eq!(parse_u32("0"), Some(0));
    assert_eq!(parse_u32("+12"), Some(12));
    assert_eq!(parse_u32("4294967295"), Some(4294967295));
    assert_eq!(parse_u32("4294967296"), None);
    assert_eq!(parse_u32(""), None);
    assert_eq!(parse_u32("+"), None);
    assert_eq!(parse_u32("1a"), None);
    assert_eq!(parse_u32(" 1"), None);
}

#[test]
fn flags_ignore_letter_case() {
    assert!(flag_is_true("TRUE"));
    assert!(flag_is_true("True"));
    assert!(flag_is_true("true"));
    assert!(!flag_is_true("yes"));
    assert!(!flag_is_true("false"));
}

#[test]
fn text_equality() {
    assert!(text_eq("abc", "abc"));
    assert!(!text_eq("abc", "abd"));
    assert!(!text_eq("ab", "abc"));
    assert!(text_eq("", ""));
}
