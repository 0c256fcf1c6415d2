use vstd::prelude::*;

verus! {

/// A VAST document (Video Ad Serving Template).
#[derive(Debug, Clone, PartialEq)]
pub struct Vast {
    /// The VAST version, such as "2.0" or "4.0".
    pub version: String,
    /// The ads of the document, in document order.
    pub ads: Vec<Ad>,
    /// A top-level error description or URL.
    pub error: Option<String>,
}

/// One ad of a VAST document: playable (`inline`) or a pointer to another
/// document (`wrapper`). Neither being present is tolerated.
#[derive(Debug, Clone, PartialEq)]
pub struct Ad {
    pub id: Option<String>,
    /// Position of the ad within an ad pod.
    pub sequence: Option<u32>,
    pub conditional_ad: Option<bool>,
    pub inline: Option<InLine>,
    pub wrapper: Option<Wrapper>,
}

/// A terminal ad, carrying the media and tracking of a playable ad.
#[derive(Debug, Clone, PartialEq)]
pub struct InLine {
    pub ad_system: AdSystem,
    pub ad_title: String,
    pub impressions: Vec<Impression>,
    pub description: Option<String>,
    pub advertiser: Option<String>,
    pub survey: Option<String>,
    /// Error tracking URL.
    pub error: Option<String>,
    pub pricing: Option<Pricing>,
    pub extensions: Vec<Extension>,
    pub creatives: Vec<Creative>,
}

/// A pointer to the next VAST document, with the tracking of this hop.
#[derive(Debug, Clone, PartialEq)]
pub struct Wrapper {
    pub ad_system: AdSystem,
    /// Location of the next VAST document.
    pub vast_ad_tag_uri: String,
    pub impressions: Vec<Impression>,
    pub error: Option<String>,
    pub extensions: Vec<Extension>,
    pub creatives: Vec<Creative>,
}

/// The ad server that produced an ad.
#[derive(Debug, Clone, PartialEq)]
pub struct AdSystem {
    pub name: String,
    pub version: Option<String>,
}

/// An impression tracking URL.
#[derive(Debug, Clone, PartialEq)]
pub struct Impression {
    pub id: Option<String>,
    pub url: String,
}

#[derive(Debug, Clone, PartialEq)]
pub struct Pricing {
    /// The pricing model, such as "CPM".
    pub model: String,
    /// The currency, such as "USD".
    pub currency: String,
    pub value: String,
}

/// An extension; only its text content is kept.
#[derive(Debug, Clone, PartialEq)]
pub struct Extension {
    pub extension_type: Option<String>,
    pub content: String,
}

/// A creative; at most one of `linear`, `companion_ads` and `non_linear_ads`
/// is expected, none is tolerated.
#[derive(Debug, Clone, PartialEq)]
pub struct Creative {
    pub id: Option<String>,
    pub sequence: Option<u32>,
    pub ad_id: Option<String>,
    pub api_framework: Option<String>,
    pub linear: Option<Linear>,
    pub companion_ads: Option<CompanionAds>,
    pub non_linear_ads: Option<NonLinearAds>,
}

#[derive(Debug, Clone, PartialEq)]
pub struct Linear {
    pub duration: Option<String>,
    pub media_files: Vec<MediaFile>,
    pub video_clicks: Option<VideoClicks>,
    pub tracking_events: Vec<TrackingEvent>,
}

#[derive(Debug, Clone, PartialEq)]
pub struct MediaFile {
    pub url: String,
    pub mime_type: String,
    pub codec: Option<String>,
    pub bitrate: Option<u32>,
    pub width: Option<u32>,
    pub height: Option<u32>,
    /// "progressive" or "streaming".
    pub delivery: Option<String>,
    /// The kind of media, video or audio.
    pub media_type: Option<String>,
}

#[derive(Debug, Clone, PartialEq)]
pub struct VideoClicks {
    pub click_through: Option<String>,
    pub click_tracking: Vec<String>,
    pub custom_click: Vec<String>,
}

/// A tracking URL for a playback event such as "start" or "complete".
#[derive(Debug, Clone, PartialEq)]
pub struct TrackingEvent {
    pub event: String,
    pub url: String,
}

#[derive(Debug, Clone, PartialEq)]
pub struct CompanionAds {
    pub companions: Vec<Companion>,
}

#[derive(Debug, Clone, PartialEq)]
pub struct Companion {
    pub id: Option<String>,
    pub width: u32,
    pub height: u32,
    /// "StaticResource", "IFrameResource" or "HTMLResource".
    pub resource_type: String,
    pub resource: String,
    pub click_through: Option<String>,
    pub tracking_events: Vec<TrackingEvent>,
}

#[derive(Debug, Clone, PartialEq)]
pub struct NonLinearAds {
    pub non_linears: Vec<NonLinear>,
}

#[derive(Debug, Clone, PartialEq)]
pub struct NonLinear {
    pub id: Option<String>,
    pub width: u32,
    pub height: u32,
    pub expand_width: Option<u32>,
    pub expand_height: Option<u32>,
    pub scalable: Option<bool>,
    pub maintain_aspect_ratio: Option<bool>,
    /// "StaticResource", "IFrameResource" or "HTMLResource".
    pub resource_type: String,
    pub resource: String,
    pub click_through: Option<String>,
}

/// Copies an optional string.
pub fn copy_opt(s: &Option<String>) -> (r: Option<String>)
    ensures
        r == *s,
{
    match s {
        Some(v) => Some(v.clone()),
        None => None,
    }
}

/// Copies a list of strings.
pub fn copy_strings(v: &Vec<String>) -> (r: Vec<String>)
    ensures
        r@ == v@,
{
    let mut r: Vec<String> = Vec::new();
    let mut i: usize = 0;
    while i < v.len()
        invariant
            i <= v.len(),
            r@ == v@.subrange(0, i as int),
        decreases v.len() - i,
    {
        r.push(v[i].clone());
        i += 1;
        assert(r@ =~= v@.subrange(0, i as int));
    }
    assert(r@ =~= v@);
    r
}

impl Impression {
    /// An equal copy of this impression.
    pub fn copy(&self) -> (r: Impression)
        ensures
            r == *self,
    {
        Impression { id: copy_opt(&self.id), url: self.url.clone() }
    }
}

} // verus!
