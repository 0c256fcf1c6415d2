use vstd::prelude::*;
use crate::models::{
    Vast, Ad, AdSystem, Creative, Extension, Impression, InLine, Linear, MediaFile, Pricing,
    TrackingEvent, VideoClicks, Wrapper,
};

verus! {

/// The parsed parts of a document as mathematical values: texts as
/// character sequences, lists as sequences.
pub struct AdSystemV {
    pub name: Seq<char>,
    pub version: Option<String>,
}

pub struct ImpressionV {
    pub id: Option<String>,
    pub url: Seq<char>,
}

pub struct PricingV {
    pub model: Seq<char>,
    pub currency: Seq<char>,
    pub value: Seq<char>,
}

pub struct ExtensionV {
    pub extension_type: Option<String>,
    pub content: Seq<char>,
}

pub struct TrackingV {
    pub event: Seq<char>,
    pub url: Seq<char>,
}

pub struct MediaFileV {
    pub url: Seq<char>,
    pub mime_type: Seq<char>,
    pub codec: Option<String>,
    pub bitrate: Option<u32>,
    pub width: Option<u32>,
    pub height: Option<u32>,
    pub delivery: Option<String>,
    pub media_type: Option<String>,
}

pub struct VideoClicksV {
    pub click_through: Option<Seq<char>>,
    pub click_tracking: Seq<Seq<char>>,
    pub custom_click: Seq<Seq<char>>,
}

pub struct LinearV {
    pub duration: Option<Seq<char>>,
    pub media_files: Seq<MediaFileV>,
    pub video_clicks: Option<VideoClicksV>,
    pub tracking_events: Seq<TrackingV>,
}

/// A creative; companion and non-linear parts are seen by their number of
/// entries.
pub struct CreativeV {
    pub id: Option<String>,
    pub sequence: Option<u32>,
    pub ad_id: Option<String>,
    pub api_framework: Option<String>,
    pub linear: Option<LinearV>,
    pub companion_ads: Option<nat>,
    pub non_linear_ads: Option<nat>,
}

pub struct InLineV {
    pub ad_system: AdSystemV,
    pub ad_title: Seq<char>,
    pub impressions: Seq<ImpressionV>,
    pub description: Option<Seq<char>>,
    pub advertiser: Option<Seq<char>>,
    pub survey: Option<Seq<char>>,
    pub error: Option<Seq<char>>,
    pub pricing: Option<PricingV>,
    pub extensions: Seq<ExtensionV>,
    pub creatives: Seq<CreativeV>,
}

pub struct WrapperV {
    pub ad_system: AdSystemV,
    pub vast_ad_tag_uri: Seq<char>,
    pub impressions: Seq<ImpressionV>,
    pub error: Option<Seq<char>>,
    pub extensions: Seq<ExtensionV>,
    pub creatives: Seq<CreativeV>,
}

pub struct AdV {
    pub id: Option<String>,
    pub sequence: Option<u32>,
    pub conditional_ad: Option<bool>,
    pub inline: Option<InLineV>,
    pub wrapper: Option<WrapperV>,
}

pub open spec fn text_v(s: Option<String>) -> Option<Seq<char>> {
    match s {
        Some(v) => Some(v@),
        None => None,
    }
}

pub open spec fn ad_system_v(a: AdSystem) -> AdSystemV {
    AdSystemV { name: a.name@, version: a.version }
}

pub open spec fn impression_v(i: Impression) -> ImpressionV {
    ImpressionV { id: i.id, url: i.url@ }
}

pub open spec fn pricing_v(p: Pricing) -> PricingV {
    PricingV { model: p.model@, currency: p.currency@, value: p.value@ }
}

pub open spec fn extension_v(e: Extension) -> ExtensionV {
    ExtensionV { extension_type: e.extension_type, content: e.content@ }
}

pub open spec fn tracking_v(e: TrackingEvent) -> TrackingV {
    TrackingV { event: e.event@, url: e.url@ }
}

pub open spec fn media_file_v(m: MediaFile) -> MediaFileV {
    MediaFileV {
        url: m.url@,
        mime_type: m.mime_type@,
        codec: m.codec,
        bitrate: m.bitrate,
        width: m.width,
        height: m.height,
        delivery: m.delivery,
        media_type: m.media_type,
    }
}

pub open spec fn texts_v(s: Seq<String>) -> Seq<Seq<char>> {
    s.map_values(|x: String| x@)
}

pub open spec fn video_clicks_v(v: VideoClicks) -> VideoClicksV {
    VideoClicksV {
        click_through: text_v(v.click_through),
        click_tracking: texts_v(v.click_tracking@),
        custom_click: texts_v(v.custom_click@),
    }
}

pub open spec fn media_files_v(s: Seq<MediaFile>) -> Seq<MediaFileV> {
    s.map_values(|m: MediaFile| media_file_v(m))
}

pub open spec fn trackings_v(s: Seq<TrackingEvent>) -> Seq<TrackingV> {
    s.map_values(|e: TrackingEvent| tracking_v(e))
}

pub open spec fn linear_v(l: Linear) -> LinearV {
    LinearV {
        duration: text_v(l.duration),
        media_files: media_files_v(l.media_files@),
        video_clicks: match l.video_clicks {
            Some(v) => Some(video_clicks_v(v)),
            None => None,
        },
        tracking_events: trackings_v(l.tracking_events@),
    }
}

pub open spec fn creative_v(c: Creative) -> CreativeV {
    CreativeV {
        id: c.id,
        sequence: c.sequence,
        ad_id: c.ad_id,
        api_framework: c.api_framework,
        linear: match c.linear {
            Some(l) => Some(linear_v(l)),
            None => None,
        },
        companion_ads: match c.companion_ads {
            Some(a) => Some(a.companions@.len()),
            None => None,
        },
        non_linear_ads: match c.non_linear_ads {
            Some(a) => Some(a.non_linears@.len()),
            None => None,
        },
    }
}

pub open spec fn impressions_v(s: Seq<Impression>) -> Seq<ImpressionV> {
    s.map_values(|i: Impression| impression_v(i))
}

pub open spec fn extensions_v(s: Seq<Extension>) -> Seq<ExtensionV> {
    s.map_values(|e: Extension| extension_v(e))
}

pub open spec fn creatives_v(s: Seq<Creative>) -> Seq<CreativeV> {
    s.map_values(|c: Creative| creative_v(c))
}

pub open spec fn inline_v(i: InLine) -> InLineV {
    InLineV {
        ad_system: ad_system_v(i.ad_system),
        ad_title: i.ad_title@,
        impressions: impressions_v(i.impressions@),
        description: text_v(i.description),
        advertiser: text_v(i.advertiser),
        survey: text_v(i.survey),
        error: text_v(i.error),
        pricing: match i.pricing {
            Some(p) => Some(pricing_v(p)),
            None => None,
        },
        extensions: extensions_v(i.extensions@),
        creatives: creatives_v(i.creatives@),
    }
}

pub open spec fn wrapper_v(w: Wrapper) -> WrapperV {
    WrapperV {
        ad_system: ad_system_v(w.ad_system),
        vast_ad_tag_uri: w.vast_ad_tag_uri@,
        impressions: impressions_v(w.impressions@),
        error: text_v(w.error),
        extensions: extensions_v(w.extensions@),
        creatives: creatives_v(w.creatives@),
    }
}

pub open spec fn ad_v(a: Ad) -> AdV {
    AdV {
        id: a.id,
        sequence: a.sequence,
        conditional_ad: a.conditional_ad,
        inline: match a.inline {
            Some(i) => Some(inline_v(i)),
            None => None,
        },
        wrapper: match a.wrapper {
            Some(w) => Some(wrapper_v(w)),
            None => None,
        },
    }
}

pub open spec fn ads_v(s: Seq<Ad>) -> Seq<AdV> {
    s.map_values(|a: Ad| ad_v(a))
}

/// A whole document as values.
pub struct DocV {
    pub version: Seq<char>,
    pub ads: Seq<AdV>,
    pub error: Option<Seq<char>>,
}

pub open spec fn doc_v(v: Vast) -> DocV {
    DocV { version: v.version@, ads: ads_v(v.ads@), error: text_v(v.error) }
}

} // verus!
