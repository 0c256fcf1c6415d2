use vstd::prelude::*;
use crate::models::{
    Ad, Companion, CompanionAds, Creative, Extension, Impression, InLine, Linear, MediaFile,
    NonLinear, NonLinearAds, TrackingEvent, Vast, VideoClicks, Wrapper,
};
use crate::text::{bool_text, decimal_text, push_bool, push_decimal, text_eq};

verus! {

/// The texts of the items of `s` in order, one after another.
pub open spec fn concat_map<T>(s: Seq<T>, f: spec_fn(T) -> Seq<char>) -> Seq<char>
    decreases s.len(),
{
    if s.len() == 0 {
        Seq::empty()
    } else {
        concat_map(s.drop_last(), f) + f(s.last())
    }
}

proof fn lemma_concat_map_step<T>(s: Seq<T>, f: spec_fn(T) -> Seq<char>, i: int)
    requires
        0 <= i < s.len(),
    ensures
        concat_map(s.subrange(0, i + 1), f) == concat_map(s.subrange(0, i), f) + f(s[i]),
{
    assert(s.subrange(0, i + 1).drop_last() =~= s.subrange(0, i));
}

proof fn lemma_concat_map_all<T>(s: Seq<T>, f: spec_fn(T) -> Seq<char>)
    ensures
        concat_map(s.subrange(0, s.len() as int), f) == concat_map(s, f),
{
    assert(s.subrange(0, s.len() as int) =~= s);
}

/// `open`, the value, `close`; nothing where the value is absent.
pub open spec fn opt_text(v: Option<String>, open: Seq<char>, close: Seq<char>) -> Seq<char> {
    match v {
        Some(s) => open + s@ + close,
        None => Seq::empty(),
    }
}

pub open spec fn opt_u32_text(v: Option<u32>, open: Seq<char>, close: Seq<char>) -> Seq<char> {
    match v {
        Some(n) => open + decimal_text(n as nat) + close,
        None => Seq::empty(),
    }
}

pub open spec fn opt_bool_text(v: Option<bool>, open: Seq<char>, close: Seq<char>) -> Seq<char> {
    match v {
        Some(b) => open + bool_text(b) + close,
        None => Seq::empty(),
    }
}

/// `open`, the items' texts, `close`; nothing where there are no items.
pub open spec fn block_text<T>(s: Seq<T>, f: spec_fn(T) -> Seq<char>, open: Seq<char>, close: Seq<char>) -> Seq<char> {
    if s.len() == 0 {
        Seq::empty()
    } else {
        open + concat_map(s, f) + close
    }
}

fn push_opt(out: &mut String, v: &Option<String>, open: &str, close: &str)
    ensures
        final(out)@ == old(out)@ + opt_text(*v, open@, close@),
{
    match v {
        Some(s) => {
            out.append(open);
            out.append(s.as_str());
            out.append(close);
        },
        None => {
            assert(old(out)@ + Seq::<char>::empty() =~= old(out)@);
        },
    }
}

fn push_opt_u32(out: &mut String, v: Option<u32>, open: &str, close: &str)
    ensures
        final(out)@ == old(out)@ + opt_u32_text(v, open@, close@),
{
    match v {
        Some(n) => {
            out.append(open);
            push_decimal(out, n);
            out.append(close);
        },
        None => {
            assert(old(out)@ + Seq::<char>::empty() =~= old(out)@);
        },
    }
}

fn push_opt_bool(out: &mut String, v: Option<bool>, open: &str, close: &str)
    ensures
        final(out)@ == old(out)@ + opt_bool_text(v, open@, close@),
{
    match v {
        Some(b) => {
            out.append(open);
            push_bool(out, b);
            out.append(close);
        },
        None => {
            assert(old(out)@ + Seq::<char>::empty() =~= old(out)@);
        },
    }
}

pub open spec fn impression_text(i: Impression) -> Seq<char> {
    "      <Impression"@ + opt_text(i.id, " id=\""@, "\""@) + "><![CDATA["@ + i.url@
        + "]]></Impression>\n"@
}

pub open spec fn extension_text(e: Extension) -> Seq<char> {
    "        <Extension"@ + opt_text(e.extension_type, " type=\""@, "\""@) + ">"@ + e.content@
        + "</Extension>\n"@
}

pub open spec fn tracking_text(e: TrackingEvent) -> Seq<char> {
    "              <Tracking event=\""@ + e.event@ + "\"><![CDATA["@ + e.url@ + "]]></Tracking>\n"@
}

pub open spec fn companion_tracking_text(e: TrackingEvent) -> Seq<char> {
    "                <Tracking event=\""@ + e.event@ + "\"><![CDATA["@ + e.url@
        + "]]></Tracking>\n"@
}

pub open spec fn click_tracking_text(u: String) -> Seq<char> {
    "              <ClickTracking><![CDATA["@ + u@ + "]]></ClickTracking>\n"@
}

pub open spec fn custom_click_text(u: String) -> Seq<char> {
    "              <CustomClick><![CDATA["@ + u@ + "]]></CustomClick>\n"@
}

pub open spec fn impression_fn() -> spec_fn(Impression) -> Seq<char> {
    |i: Impression| impression_text(i)
}

fn push_impressions(out: &mut String, items: &Vec<Impression>)
    ensures
        final(out)@ == old(out)@ + concat_map(items@, impression_fn()),
{
    let ghost f = impression_fn();
    let mut k: usize = 0;
    while k < items.len()
        invariant
            k <= items.len(),
            f == impression_fn(),
            out@ == old(out)@ + concat_map(items@.subrange(0, k as int), f),
        decreases items.len() - k,
    {
        let it = &items[k];
        out.append("      <Impression");
        push_opt(out, &it.id, " id=\"", "\"");
        out.append("><![CDATA[");
        out.append(it.url.as_str());
        out.append("]]></Impression>\n");
        proof {
            lemma_concat_map_step(items@, f, k as int);
        }
        assert(f(items@[k as int]) == impression_text(*it));
        assert(out@ =~= old(out)@ + concat_map(items@.subrange(0, k + 1), f));
        k += 1;
    }
    proof {
        lemma_concat_map_all(items@, f);
    }
}


pub open spec fn media_file_text(m: MediaFile) -> Seq<char> {
    "              <MediaFile"@ + " type=\""@ + m.mime_type@ + "\""@
        + opt_text(m.delivery, " delivery=\""@, "\""@)
        + opt_u32_text(m.width, " width=\""@, "\""@)
        + opt_u32_text(m.height, " height=\""@, "\""@)
        + opt_text(m.codec, " codec=\""@, "\""@)
        + opt_u32_text(m.bitrate, " bitrate=\""@, "\""@)
        + "><![CDATA["@ + m.url@ + "]]></MediaFile>\n"@
}

/// A companion or non-linear resource element; nothing for an unknown kind.
pub open spec fn resource_text(kind: Seq<char>, res: Seq<char>) -> Seq<char> {
    if kind == "StaticResource"@ {
        "              <StaticResource><![CDATA["@ + res + "]]></StaticResource>\n"@
    } else if kind == "IFrameResource"@ {
        "              <IFrameResource><![CDATA["@ + res + "]]></IFrameResource>\n"@
    } else if kind == "HTMLResource"@ {
        "              <HTMLResource><![CDATA["@ + res + "]]></HTMLResource>\n"@
    } else {
        Seq::empty()
    }
}

pub open spec fn companion_text(c: Companion) -> Seq<char> {
    "            <Companion"@ + opt_text(c.id, " id=\""@, "\""@)
        + " width=\""@ + decimal_text(c.width as nat) + "\" height=\""@ + decimal_text(c.height as nat) + "\""@
        + ">\n"@
        + resource_text(c.resource_type@, c.resource@)
        + opt_text(c.click_through, "              <CompanionClickThrough><![CDATA["@, "]]></CompanionClickThrough>\n"@)
        + block_text(c.tracking_events@, companion_tracking_fn(), "              <TrackingEvents>\n"@, "              </TrackingEvents>\n"@)
        + "            </Companion>\n"@
}

pub open spec fn non_linear_text(n: NonLinear) -> Seq<char> {
    "            <NonLinear"@ + opt_text(n.id, " id=\""@, "\""@)
        + " width=\""@ + decimal_text(n.width as nat) + "\" height=\""@ + decimal_text(n.height as nat) + "\""@
        + opt_u32_text(n.expand_width, " expandedWidth=\""@, "\""@)
        + opt_u32_text(n.expand_height, " expandedHeight=\""@, "\""@)
        + opt_bool_text(n.scalable, " scalable=\""@, "\""@)
        + opt_bool_text(n.maintain_aspect_ratio, " maintainAspectRatio=\""@, "\""@)
        + ">\n"@
        + resource_text(n.resource_type@, n.resource@)
        + opt_text(n.click_through, "              <NonLinearClickThrough><![CDATA["@, "]]></NonLinearClickThrough>\n"@)
        + "            </NonLinear>\n"@
}

pub open spec fn companion_ads_text(c: CompanionAds) -> Seq<char> {
    "          <CompanionAds>\n"@ + concat_map(c.companions@, companion_fn()) + "          </CompanionAds>\n"@
}

pub open spec fn non_linear_ads_text(n: NonLinearAds) -> Seq<char> {
    "          <NonLinearAds>\n"@ + concat_map(n.non_linears@, non_linear_fn()) + "          </NonLinearAds>\n"@
}

pub open spec fn video_clicks_text(v: VideoClicks) -> Seq<char> {
    "            <VideoClicks>\n"@
        + opt_text(v.click_through, "              <ClickThrough><![CDATA["@, "]]></ClickThrough>\n"@)
        + concat_map(v.click_tracking@, click_tracking_fn())
        + concat_map(v.custom_click@, custom_click_fn())
        + "            </VideoClicks>\n"@
}

pub open spec fn opt_video_clicks_text(v: Option<VideoClicks>) -> Seq<char> {
    match v {
        Some(c) => video_clicks_text(c),
        None => Seq::empty(),
    }
}

pub open spec fn linear_text(l: Linear) -> Seq<char> {
    "          <Linear>\n"@
        + opt_text(l.duration, "            <Duration>"@, "</Duration>\n"@)
        + block_text(l.tracking_events@, tracking_fn(), "            <TrackingEvents>\n"@, "            </TrackingEvents>\n"@)
        + opt_video_clicks_text(l.video_clicks)
        + block_text(l.media_files@, media_file_fn(), "            <MediaFiles>\n"@, "            </MediaFiles>\n"@)
        + "          </Linear>\n"@
}

pub open spec fn creative_text(c: Creative) -> Seq<char> {
    "        <Creative"@ + opt_text(c.id, " id=\""@, "\""@)
        + opt_u32_text(c.sequence, " sequence=\""@, "\""@)
        + opt_text(c.ad_id, " adId=\""@, "\""@)
        + opt_text(c.api_framework, " apiFramework=\""@, "\""@)
        + ">\n"@
        + (match c.linear { Some(l) => linear_text(l), None => Seq::empty() })
        + (match c.companion_ads { Some(a) => companion_ads_text(a), None => Seq::empty() })
        + (match c.non_linear_ads { Some(a) => non_linear_ads_text(a), None => Seq::empty() })
        + "        </Creative>\n"@
}

pub open spec fn ad_system_text(name: Seq<char>, version: Option<String>) -> Seq<char> {
    "      <AdSystem"@ + opt_text(version, " version=\""@, "\""@) + ">"@ + name + "</AdSystem>\n"@
}

pub open spec fn inline_text(i: InLine) -> Seq<char> {
    "    <InLine>\n"@
        + ad_system_text(i.ad_system.name@, i.ad_system.version)
        + "      <AdTitle>"@ + i.ad_title@ + "</AdTitle>\n"@
        + opt_text(i.description, "      <Description>"@, "</Description>\n"@)
        + opt_text(i.advertiser, "      <Advertiser>"@, "</Advertiser>\n"@)
        + opt_text(i.survey, "      <Survey><![CDATA["@, "]]></Survey>\n"@)
        + concat_map(i.impressions@, impression_fn())
        + opt_text(i.error, "      <Error><![CDATA["@, "]]></Error>\n"@)
        + (match i.pricing {
            Some(p) => "      <Pricing model=\""@ + p.model@ + "\" currency=\""@ + p.currency@ + "\">"@
                + p.value@ + "</Pricing>\n"@,
            None => Seq::empty(),
        })
        + block_text(i.extensions@, extension_fn(), "      <Extensions>\n"@, "      </Extensions>\n"@)
        + block_text(i.creatives@, creative_fn(), "      <Creatives>\n"@, "      </Creatives>\n"@)
        + "    </InLine>\n"@
}

pub open spec fn wrapper_text(w: Wrapper) -> Seq<char> {
    "    <Wrapper>\n"@
        + ad_system_text(w.ad_system.name@, w.ad_system.version)
        + "      <VASTAdTagURI><![CDATA["@ + w.vast_ad_tag_uri@ + "]]></VASTAdTagURI>\n"@
        + concat_map(w.impressions@, impression_fn())
        + opt_text(w.error, "      <Error><![CDATA["@, "]]></Error>\n"@)
        + block_text(w.creatives@, creative_fn(), "      <Creatives>\n"@, "      </Creatives>\n"@)
        + "    </Wrapper>\n"@
}

/// An ad's element: its inline content where present, else its wrapper.
pub open spec fn ad_text(a: Ad) -> Seq<char> {
    "  <Ad"@ + opt_text(a.id, " id=\""@, "\""@)
        + opt_u32_text(a.sequence, " sequence=\""@, "\""@)
        + opt_bool_text(a.conditional_ad, " conditionalAd=\""@, "\""@)
        + ">\n"@
        + (match a.inline {
            Some(i) => inline_text(i),
            None => match a.wrapper {
                Some(w) => wrapper_text(w),
                None => Seq::empty(),
            },
        })
        + "  </Ad>\n"@
}

/// The canonical text of a document.
pub open spec fn vast_text(v: Vast) -> Seq<char> {
    "<?xml version=\"1.0\" encoding=\"UTF-8\"?>\n"@
        + "<VAST version=\""@ + v.version@ + "\">\n"@
        + opt_text(v.error, "  <Error><![CDATA["@, "]]></Error>\n"@)
        + concat_map(v.ads@, ad_fn())
        + "</VAST>"@
}

pub open spec fn extension_fn() -> spec_fn(Extension) -> Seq<char> {
    |x: Extension| extension_text(x)
}

pub open spec fn tracking_fn() -> spec_fn(TrackingEvent) -> Seq<char> {
    |x: TrackingEvent| tracking_text(x)
}

pub open spec fn companion_tracking_fn() -> spec_fn(TrackingEvent) -> Seq<char> {
    |x: TrackingEvent| companion_tracking_text(x)
}

pub open spec fn click_tracking_fn() -> spec_fn(String) -> Seq<char> {
    |x: String| click_tracking_text(x)
}

pub open spec fn custom_click_fn() -> spec_fn(String) -> Seq<char> {
    |x: String| custom_click_text(x)
}

pub open spec fn media_file_fn() -> spec_fn(MediaFile) -> Seq<char> {
    |x: MediaFile| media_file_text(x)
}

pub open spec fn companion_fn() -> spec_fn(Companion) -> Seq<char> {
    |x: Companion| companion_text(x)
}

pub open spec fn non_linear_fn() -> spec_fn(NonLinear) -> Seq<char> {
    |x: NonLinear| non_linear_text(x)
}

pub open spec fn creative_fn() -> spec_fn(Creative) -> Seq<char> {
    |x: Creative| creative_text(x)
}

pub open spec fn ad_fn() -> spec_fn(Ad) -> Seq<char> {
    |x: Ad| ad_text(x)
}

fn push_extension_list(out: &mut String, items: &Vec<Extension>)
    ensures
        final(out)@ == old(out)@ + concat_map(items@, extension_fn()),
{
    let ghost f = extension_fn();
    let mut k: usize = 0;
    while k < items.len()
        invariant
            k <= items.len(),
            f == extension_fn(),
            out@ == old(out)@ + concat_map(items@.subrange(0, k as int), f),
        decreases items.len() - k,
    {
        let it = &items[k];
        let ghost before = out@;
        out.append("        <Extension");
        push_opt(out, &it.extension_type, " type=\"", "\"");
        out.append(">");
        out.append(it.content.as_str());
        out.append("</Extension>\n");
        proof {
            lemma_concat_map_step(items@, f, k as int);
        }
        assert(f(items@[k as int]) == extension_text(*it));
        assert(out@ =~= before + extension_text(*it));
        assert(out@ =~= old(out)@ + concat_map(items@.subrange(0, k + 1), f));
        k += 1;
    }
    proof {
        lemma_concat_map_all(items@, f);
    }
}

fn push_tracking_list(out: &mut String, items: &Vec<TrackingEvent>)
    ensures
        final(out)@ == old(out)@ + concat_map(items@, tracking_fn()),
{
    let ghost f = tracking_fn();
    let mut k: usize = 0;
    while k < items.len()
        invariant
            k <= items.len(),
            f == tracking_fn(),
            out@ == old(out)@ + concat_map(items@.subrange(0, k as int), f),
        decreases items.len() - k,
    {
        let it = &items[k];
        let ghost before = out@;
        out.append("              <Tracking event=\"");
        out.append(it.event.as_str());
        out.append("\"><![CDATA[");
        out.append(it.url.as_str());
        out.append("]]></Tracking>\n");
        proof {
            lemma_concat_map_step(items@, f, k as int);
        }
        assert(f(items@[k as int]) == tracking_text(*it));
        assert(out@ =~= before + tracking_text(*it));
        assert(out@ =~= old(out)@ + concat_map(items@.subrange(0, k + 1), f));
        k += 1;
    }
    proof {
        lemma_concat_map_all(items@, f);
    }
}

fn push_companion_tracking_list(out: &mut String, items: &Vec<TrackingEvent>)
    ensures
        final(out)@ == old(out)@ + concat_map(items@, companion_tracking_fn()),
{
    let ghost f = companion_tracking_fn();
    let mut k: usize = 0;
    while k < items.len()
        invariant
            k <= items.len(),
            f == companion_tracking_fn(),
            out@ == old(out)@ + concat_map(items@.subrange(0, k as int), f),
        decreases items.len() - k,
    {
        let it = &items[k];
        let ghost before = out@;
        out.append("                <Tracking event=\"");
        out.append(it.event.as_str());
        out.append("\"><![CDATA[");
        out.append(it.url.as_str());
        out.append("]]></Tracking>\n");
        proof {
            lemma_concat_map_step(items@, f, k as int);
        }
        assert(f(items@[k as int]) == companion_tracking_text(*it));
        assert(out@ =~= before + companion_tracking_text(*it));
        assert(out@ =~= old(out)@ + concat_map(items@.subrange(0, k + 1), f));
        k += 1;
    }
    proof {
        lemma_concat_map_all(items@, f);
    }
}

fn push_click_tracking_list(out: &mut String, items: &Vec<String>)
    ensures
        final(out)@ == old(out)@ + concat_map(items@, click_tracking_fn()),
{
    let ghost f = click_tracking_fn();
    let mut k: usize = 0;
    while k < items.len()
        invariant
            k <= items.len(),
            f == click_tracking_fn(),
            out@ == old(out)@ + concat_map(items@.subrange(0, k as int), f),
        decreases items.len() - k,
    {
        let it = &items[k];
        let ghost before = out@;
        out.append("              <ClickTracking><![CDATA[");
        out.append(it.as_str());
        out.append("]]></ClickTracking>\n");
        proof {
            lemma_concat_map_step(items@, f, k as int);
        }
        assert(f(items@[k as int]) == click_tracking_text(*it));
        assert(out@ =~= before + click_tracking_text(*it));
        assert(out@ =~= old(out)@ + concat_map(items@.subrange(0, k + 1), f));
        k += 1;
    }
    proof {
        lemma_concat_map_all(items@, f);
    }
}

fn push_custom_click_list(out: &mut String, items: &Vec<String>)
    ensures
        final(out)@ == old(out)@ + concat_map(items@, custom_click_fn()),
{
    let ghost f = custom_click_fn();
    let mut k: usize = 0;
    while k < items.len()
        invariant
            k <= items.len(),
            f == custom_click_fn(),
            out@ == old(out)@ + concat_map(items@.subrange(0, k as int), f),
        decreases items.len() - k,
    {
        let it = &items[k];
        let ghost before = out@;
        out.append("              <CustomClick><![CDATA[");
        out.append(it.as_str());
        out.append("]]></CustomClick>\n");
        proof {
            lemma_concat_map_step(items@, f, k as int);
        }
        assert(f(items@[k as int]) == custom_click_text(*it));
        assert(out@ =~= before + custom_click_text(*it));
        assert(out@ =~= old(out)@ + concat_map(items@.subrange(0, k + 1), f));
        k += 1;
    }
    proof {
        lemma_concat_map_all(items@, f);
    }
}

fn push_media_file_list(out: &mut String, items: &Vec<MediaFile>)
    ensures
        final(out)@ == old(out)@ + concat_map(items@, media_file_fn()),
{
    let ghost f = media_file_fn();
    let mut k: usize = 0;
    while k < items.len()
        invariant
            k <= items.len(),
            f == media_file_fn(),
            out@ == old(out)@ + concat_map(items@.subrange(0, k as int), f),
        decreases items.len() - k,
    {
        let it = &items[k];
        let ghost before = out@;
        out.append("              <MediaFile");
        out.append(" type=\"");
        out.append(it.mime_type.as_str());
        out.append("\"");
        push_opt(out, &it.delivery, " delivery=\"", "\"");
        push_opt_u32(out, it.width, " width=\"", "\"");
        push_opt_u32(out, it.height, " height=\"", "\"");
        push_opt(out, &it.codec, " codec=\"", "\"");
        push_opt_u32(out, it.bitrate, " bitrate=\"", "\"");
        out.append("><![CDATA[");
        out.append(it.url.as_str());
        out.append("]]></MediaFile>\n");
        proof {
            lemma_concat_map_step(items@, f, k as int);
        }
        assert(f(items@[k as int]) == media_file_text(*it));
        assert(out@ =~= before + media_file_text(*it));
        assert(out@ =~= old(out)@ + concat_map(items@.subrange(0, k + 1), f));
        k += 1;
    }
    proof {
        lemma_concat_map_all(items@, f);
    }
}

fn push_companion_list(out: &mut String, items: &Vec<Companion>)
    ensures
        final(out)@ == old(out)@ + concat_map(items@, companion_fn()),
{
    let ghost f = companion_fn();
    let mut k: usize = 0;
    while k < items.len()
        invariant
            k <= items.len(),
            f == companion_fn(),
            out@ == old(out)@ + concat_map(items@.subrange(0, k as int), f),
        decreases items.len() - k,
    {
        let it = &items[k];
        let ghost before = out@;
        push_companion(out, it);
        proof {
            lemma_concat_map_step(items@, f, k as int);
        }
        assert(f(items@[k as int]) == companion_text(*it));
        assert(out@ =~= before + companion_text(*it));
        assert(out@ =~= old(out)@ + concat_map(items@.subrange(0, k + 1), f));
        k += 1;
    }
    proof {
        lemma_concat_map_all(items@, f);
    }
}

fn push_non_linear_list(out: &mut String, items: &Vec<NonLinear>)
    ensures
        final(out)@ == old(out)@ + concat_map(items@, non_linear_fn()),
{
    let ghost f = non_linear_fn();
    let mut k: usize = 0;
    while k < items.len()
        invariant
            k <= items.len(),
            f == non_linear_fn(),
            out@ == old(out)@ + concat_map(items@.subrange(0, k as int), f),
        decreases items.len() - k,
    {
        let it = &items[k];
        let ghost before = out@;
        push_non_linear(out, it);
        proof {
            lemma_concat_map_step(items@, f, k as int);
        }
        assert(f(items@[k as int]) == non_linear_text(*it));
        assert(out@ =~= before + non_linear_text(*it));
        assert(out@ =~= old(out)@ + concat_map(items@.subrange(0, k + 1), f));
        k += 1;
    }
    proof {
        lemma_concat_map_all(items@, f);
    }
}

fn push_creative_list(out: &mut String, items: &Vec<Creative>)
    ensures
        final(out)@ == old(out)@ + concat_map(items@, creative_fn()),
{
    let ghost f = creative_fn();
    let mut k: usize = 0;
    while k < items.len()
        invariant
            k <= items.len(),
            f == creative_fn(),
            out@ == old(out)@ + concat_map(items@.subrange(0, k as int), f),
        decreases items.len() - k,
    {
        let it = &items[k];
        let ghost before = out@;
        out.append(creative_to_xml(it).as_str());
        proof {
            lemma_concat_map_step(items@, f, k as int);
        }
        assert(f(items@[k as int]) == creative_text(*it));
        assert(out@ =~= before + creative_text(*it));
        assert(out@ =~= old(out)@ + concat_map(items@.subrange(0, k + 1), f));
        k += 1;
    }
    proof {
        lemma_concat_map_all(items@, f);
    }
}

fn push_ad_list(out: &mut String, items: &Vec<Ad>)
    ensures
        final(out)@ == old(out)@ + concat_map(items@, ad_fn()),
{
    let ghost f = ad_fn();
    let mut k: usize = 0;
    while k < items.len()
        invariant
            k <= items.len(),
            f == ad_fn(),
            out@ == old(out)@ + concat_map(items@.subrange(0, k as int), f),
        decreases items.len() - k,
    {
        let it = &items[k];
        let ghost before = out@;
        out.append(ad_to_xml(it).as_str());
        proof {
            lemma_concat_map_step(items@, f, k as int);
        }
        assert(f(items@[k as int]) == ad_text(*it));
        assert(out@ =~= before + ad_text(*it));
        assert(out@ =~= old(out)@ + concat_map(items@.subrange(0, k + 1), f));
        k += 1;
    }
    proof {
        lemma_concat_map_all(items@, f);
    }
}


fn push_resource(out: &mut String, kind: &String, res: &String)
    ensures
        final(out)@ == old(out)@ + resource_text(kind@, res@),
{
    proof {
        reveal_strlit("StaticResource");
        reveal_strlit("IFrameResource");
        reveal_strlit("HTMLResource");
    }
    if text_eq(kind.as_str(), "StaticResource") {
        out.append("              <StaticResource><![CDATA[");
        out.append(res.as_str());
        out.append("]]></StaticResource>\n");
    } else if text_eq(kind.as_str(), "IFrameResource") {
        out.append("              <IFrameResource><![CDATA[");
        out.append(res.as_str());
        out.append("]]></IFrameResource>\n");
    } else if text_eq(kind.as_str(), "HTMLResource") {
        out.append("              <HTMLResource><![CDATA[");
        out.append(res.as_str());
        out.append("]]></HTMLResource>\n");
    } else {
        assert(old(out)@ + Seq::<char>::empty() =~= old(out)@);
    }
}

fn push_companion(out: &mut String, c: &Companion)
    ensures
        final(out)@ == old(out)@ + companion_text(*c),
{
    let ghost start = out@;
    out.append("            <Companion");
    push_opt(out, &c.id, " id=\"", "\"");
    out.append(" width=\"");
    push_decimal(out, c.width);
    out.append("\" height=\"");
    push_decimal(out, c.height);
    out.append("\"");
    out.append(">\n");
    push_resource(out, &c.resource_type, &c.resource);
    push_opt(out, &c.click_through, "              <CompanionClickThrough><![CDATA[", "]]></CompanionClickThrough>\n");
    let ghost mid = out@;
    if c.tracking_events.len() > 0 {
        out.append("              <TrackingEvents>\n");
        push_companion_tracking_list(out, &c.tracking_events);
        out.append("              </TrackingEvents>\n");
    }
    assert(out@ =~= mid + block_text(c.tracking_events@, companion_tracking_fn(), "              <TrackingEvents>\n"@, "              </TrackingEvents>\n"@));
    out.append("            </Companion>\n");
    assert(out@ =~= start + companion_text(*c));
}

fn push_non_linear(out: &mut String, n: &NonLinear)
    ensures
        final(out)@ == old(out)@ + non_linear_text(*n),
{
    let ghost start = out@;
    out.append("            <NonLinear");
    push_opt(out, &n.id, " id=\"", "\"");
    out.append(" width=\"");
    push_decimal(out, n.width);
    out.append("\" height=\"");
    push_decimal(out, n.height);
    out.append("\"");
    push_opt_u32(out, n.expand_width, " expandedWidth=\"", "\"");
    push_opt_u32(out, n.expand_height, " expandedHeight=\"", "\"");
    push_opt_bool(out, n.scalable, " scalable=\"", "\"");
    push_opt_bool(out, n.maintain_aspect_ratio, " maintainAspectRatio=\"", "\"");
    out.append(">\n");
    push_resource(out, &n.resource_type, &n.resource);
    push_opt(out, &n.click_through, "              <NonLinearClickThrough><![CDATA[", "]]></NonLinearClickThrough>\n");
    out.append("            </NonLinear>\n");
    assert(out@ =~= start + non_linear_text(*n));
}

/// The text of a `CompanionAds` element.
fn companion_ads_to_xml(c: &CompanionAds) -> (r: String)
    ensures
        r@ == companion_ads_text(*c),
{
    let mut xml = String::new();
    xml.append("          <CompanionAds>\n");
    push_companion_list(&mut xml, &c.companions);
    xml.append("          </CompanionAds>\n");
    assert(xml@ =~= companion_ads_text(*c));
    xml
}

/// The text of a `NonLinearAds` element.
fn non_linear_ads_to_xml(n: &NonLinearAds) -> (r: String)
    ensures
        r@ == non_linear_ads_text(*n),
{
    let mut xml = String::new();
    xml.append("          <NonLinearAds>\n");
    push_non_linear_list(&mut xml, &n.non_linears);
    xml.append("          </NonLinearAds>\n");
    assert(xml@ =~= non_linear_ads_text(*n));
    xml
}

/// The text of a `Linear` element.
fn linear_to_xml(l: &Linear) -> (r: String)
    ensures
        r@ == linear_text(*l),
{
    let mut xml = String::new();
    xml.append("          <Linear>\n");
    push_opt(&mut xml, &l.duration, "            <Duration>", "</Duration>\n");
    let ghost a = xml@;
    if l.tracking_events.len() > 0 {
        xml.append("            <TrackingEvents>\n");
        push_tracking_list(&mut xml, &l.tracking_events);
        xml.append("            </TrackingEvents>\n");
    }
    assert(xml@ =~= a + block_text(l.tracking_events@, tracking_fn(), "            <TrackingEvents>\n"@, "            </TrackingEvents>\n"@));
    let ghost b = xml@;
    match &l.video_clicks {
        Some(v) => {
            xml.append("            <VideoClicks>\n");
            push_opt(&mut xml, &v.click_through, "              <ClickThrough><![CDATA[", "]]></ClickThrough>\n");
            push_click_tracking_list(&mut xml, &v.click_tracking);
            push_custom_click_list(&mut xml, &v.custom_click);
            xml.append("            </VideoClicks>\n");
        },
        None => {},
    }
    assert(xml@ =~= b + opt_video_clicks_text(l.video_clicks));
    let ghost c = xml@;
    if l.media_files.len() > 0 {
        xml.append("            <MediaFiles>\n");
        push_media_file_list(&mut xml, &l.media_files);
        xml.append("            </MediaFiles>\n");
    }
    assert(xml@ =~= c + block_text(l.media_files@, media_file_fn(), "            <MediaFiles>\n"@, "            </MediaFiles>\n"@));
    xml.append("          </Linear>\n");
    assert(xml@ =~= linear_text(*l));
    xml
}

/// The text of a `Creative` element.
fn creative_to_xml(c: &Creative) -> (r: String)
    ensures
        r@ == creative_text(*c),
{
    let mut xml = String::new();
    xml.append("        <Creative");
    push_opt(&mut xml, &c.id, " id=\"", "\"");
    push_opt_u32(&mut xml, c.sequence, " sequence=\"", "\"");
    push_opt(&mut xml, &c.ad_id, " adId=\"", "\"");
    push_opt(&mut xml, &c.api_framework, " apiFramework=\"", "\"");
    xml.append(">\n");
    let ghost a = xml@;
    match &c.linear {
        Some(l) => xml.append(linear_to_xml(l).as_str()),
        None => {},
    }
    assert(xml@ =~= a + (match c.linear { Some(l) => linear_text(l), None => Seq::empty() }));
    let ghost b = xml@;
    match &c.companion_ads {
        Some(x) => xml.append(companion_ads_to_xml(x).as_str()),
        None => {},
    }
    assert(xml@ =~= b + (match c.companion_ads { Some(x) => companion_ads_text(x), None => Seq::empty() }));
    let ghost d = xml@;
    match &c.non_linear_ads {
        Some(x) => xml.append(non_linear_ads_to_xml(x).as_str()),
        None => {},
    }
    assert(xml@ =~= d + (match c.non_linear_ads { Some(x) => non_linear_ads_text(x), None => Seq::empty() }));
    xml.append("        </Creative>\n");
    assert(xml@ =~= creative_text(*c));
    xml
}

fn push_ad_system(out: &mut String, name: &String, version: &Option<String>)
    ensures
        final(out)@ == old(out)@ + ad_system_text(name@, *version),
{
    let ghost start = out@;
    out.append("      <AdSystem");
    push_opt(out, version, " version=\"", "\"");
    out.append(">");
    out.append(name.as_str());
    out.append("</AdSystem>\n");
    assert(out@ =~= start + ad_system_text(name@, *version));
}

fn push_creatives_block(out: &mut String, items: &Vec<Creative>)
    ensures
        final(out)@ == old(out)@ + block_text(items@, creative_fn(), "      <Creatives>\n"@, "      </Creatives>\n"@),
{
    let ghost start = out@;
    if items.len() > 0 {
        out.append("      <Creatives>\n");
        push_creative_list(out, items);
        out.append("      </Creatives>\n");
    }
    assert(out@ =~= start + block_text(items@, creative_fn(), "      <Creatives>\n"@, "      </Creatives>\n"@));
}

/// The text of an `InLine` element.
fn inline_to_xml(i: &InLine) -> (r: String)
    ensures
        r@ == inline_text(*i),
{
    let mut xml = String::new();
    xml.append("    <InLine>\n");
    push_ad_system(&mut xml, &i.ad_system.name, &i.ad_system.version);
    xml.append("      <AdTitle>");
    xml.append(i.ad_title.as_str());
    xml.append("</AdTitle>\n");
    push_opt(&mut xml, &i.description, "      <Description>", "</Description>\n");
    push_opt(&mut xml, &i.advertiser, "      <Advertiser>", "</Advertiser>\n");
    push_opt(&mut xml, &i.survey, "      <Survey><![CDATA[", "]]></Survey>\n");
    push_impressions(&mut xml, &i.impressions);
    push_opt(&mut xml, &i.error, "      <Error><![CDATA[", "]]></Error>\n");
    let ghost a = xml@;
    match &i.pricing {
        Some(p) => {
            xml.append("      <Pricing model=\"");
            xml.append(p.model.as_str());
            xml.append("\" currency=\"");
            xml.append(p.currency.as_str());
            xml.append("\">");
            xml.append(p.value.as_str());
            xml.append("</Pricing>\n");
        },
        None => {},
    }
    assert(xml@ =~= a + (match i.pricing {
        Some(p) => "      <Pricing model=\""@ + p.model@ + "\" currency=\""@ + p.currency@ + "\">"@
            + p.value@ + "</Pricing>\n"@,
        None => Seq::empty(),
    }));
    let ghost b = xml@;
    if i.extensions.len() > 0 {
        xml.append("      <Extensions>\n");
        push_extension_list(&mut xml, &i.extensions);
        xml.append("      </Extensions>\n");
    }
    assert(xml@ =~= b + block_text(i.extensions@, extension_fn(), "      <Extensions>\n"@, "      </Extensions>\n"@));
    push_creatives_block(&mut xml, &i.creatives);
    xml.append("    </InLine>\n");
    assert(xml@ =~= inline_text(*i));
    xml
}

/// The text of a `Wrapper` element; its extensions are not written.
fn wrapper_to_xml(w: &Wrapper) -> (r: String)
    ensures
        r@ == wrapper_text(*w),
{
    let mut xml = String::new();
    xml.append("    <Wrapper>\n");
    push_ad_system(&mut xml, &w.ad_system.name, &w.ad_system.version);
    xml.append("      <VASTAdTagURI><![CDATA[");
    xml.append(w.vast_ad_tag_uri.as_str());
    xml.append("]]></VASTAdTagURI>\n");
    push_impressions(&mut xml, &w.impressions);
    push_opt(&mut xml, &w.error, "      <Error><![CDATA[", "]]></Error>\n");
    push_creatives_block(&mut xml, &w.creatives);
    xml.append("    </Wrapper>\n");
    assert(xml@ =~= wrapper_text(*w));
    xml
}

/// The text of an `Ad` element.
fn ad_to_xml(a: &Ad) -> (r: String)
    ensures
        r@ == ad_text(*a),
{
    let mut xml = String::new();
    xml.append("  <Ad");
    push_opt(&mut xml, &a.id, " id=\"", "\"");
    push_opt_u32(&mut xml, a.sequence, " sequence=\"", "\"");
    push_opt_bool(&mut xml, a.conditional_ad, " conditionalAd=\"", "\"");
    xml.append(">\n");
    let ghost b = xml@;
    match &a.inline {
        Some(i) => xml.append(inline_to_xml(i).as_str()),
        None => match &a.wrapper {
            Some(w) => xml.append(wrapper_to_xml(w).as_str()),
            None => {},
        },
    }
    assert(xml@ =~= b + (match a.inline {
        Some(i) => inline_text(i),
        None => match a.wrapper {
            Some(w) => wrapper_text(w),
            None => Seq::empty(),
        },
    }));
    xml.append("  </Ad>\n");
    assert(xml@ =~= ad_text(*a));
    xml
}

/// Renders a document as canonical VAST text: the XML declaration, the root
/// with its version, then each ad, with absent optional fields left out and
/// tracking URLs written as CDATA.
pub fn vast_to_xml(v: &Vast) -> (r: String)
    ensures
        r@ == vast_text(*v),
{
    let mut xml = String::new();
    xml.append("<?xml version=\"1.0\" encoding=\"UTF-8\"?>\n");
    xml.append("<VAST version=\"");
    xml.append(v.version.as_str());
    xml.append("\">\n");
    push_opt(&mut xml, &v.error, "  <Error><![CDATA[", "]]></Error>\n");
    push_ad_list(&mut xml, &v.ads);
    xml.append("</VAST>");
    assert(xml@ =~= vast_text(*v));
    xml
}

} // verus!
