use vstd::prelude::*;
use crate::models::{
    copy_strings, Ad, Creative, Impression, InLine, Linear, TrackingEvent, Vast,
    VideoClicks, Wrapper,
};
use crate::error::Result;
use crate::parser::{parse_outcome, parsed_doc, root_version};
use crate::render::{vast_text, vast_to_xml};
use crate::text::text_eq;
use crate::unwrap::{
    bundle_of, collect_wrapper_tracking, collected, resolution, unwrap_vast, wrappers_view,
};
use crate::views::doc_v;
use crate::nesting::well_formed;
use crate::xml::xml_tokens;

verus! {

/// The URLs recorded under one tracking-event tag, in the order met.
#[derive(Debug, Clone)]
pub struct TagUrls {
    pub tag: String,
    pub urls: Vec<String>,
}

/// The tracking obligations collected from every wrapper hop of a chain.
#[derive(Debug, Clone)]
pub struct WrapperTracking {
    pub impressions: Vec<Impression>,
    pub error_urls: Vec<String>,
    /// Tracking-event tag to its URLs: one entry per tag, tags in the order
    /// first met.
    pub tracking_events: Vec<TagUrls>,
    pub click_tracking: Vec<String>,
    pub custom_click: Vec<String>,
}

/// A tag with its URLs, as values.
pub open spec fn tag_view(t: TagUrls) -> (String, Seq<String>) {
    (t.tag, t.urls@)
}

pub open spec fn tags_model(v: Seq<TagUrls>) -> Seq<(String, Seq<String>)> {
    v.map_values(|t: TagUrls| tag_view(t))
}

/// Index of the entry for `tag`, or -1.
pub open spec fn tag_index(m: Seq<(String, Seq<String>)>, tag: Seq<char>) -> int
    decreases m.len(),
{
    if m.len() == 0 {
        -1
    } else if tag_index(m.drop_last(), tag) >= 0 {
        tag_index(m.drop_last(), tag)
    } else if m.last().0@ == tag {
        m.len() - 1
    } else {
        -1
    }
}

/// No two entries of the mapping have the same tag.
pub open spec fn tags_distinct(m: Seq<(String, Seq<String>)>) -> bool {
    forall|i: int, j: int| 0 <= i < j < m.len() ==> (#[trigger] m[i]).0@ != (#[trigger] m[j]).0@
}

impl WrapperTracking {
    /// Each tracking-event tag has one entry.
    pub open spec fn wf(&self) -> bool {
        tags_distinct(tags_model(self.tracking_events@))
    }
}

proof fn lemma_tag_index_absent(m: Seq<(String, Seq<String>)>, tag: Seq<char>)
    ensures
        tag_index(m, tag) == -1 ==> forall|i: int| 0 <= i < m.len() ==> (#[trigger] m[i]).0@ != tag,
    decreases m.len(),
{
    if m.len() > 0 {
        lemma_tag_index_absent(m.drop_last(), tag);
        if tag_index(m, tag) == -1 {
            assert forall|i: int| 0 <= i < m.len() implies (#[trigger] m[i]).0@ != tag by {
                if i < m.len() - 1 {
                    assert(m.drop_last()[i] == m[i]);
                }
            }
        }
    }
}

/// Recording `url` under `tag`: appended to the tag's list, or a new entry
/// at the end for a tag not met before.
pub open spec fn record(m: Seq<(String, Seq<String>)>, tag: String, url: String) -> Seq<(String, Seq<String>)> {
    let j = tag_index(m, tag@);
    if j >= 0 {
        m.update(j, (m[j].0, m[j].1.push(url)))
    } else {
        m.push((tag, seq![url]))
    }
}

/// Recording the events in order.
pub open spec fn record_all(m: Seq<(String, Seq<String>)>, evs: Seq<TrackingEvent>) -> Seq<(String, Seq<String>)>
    decreases evs.len(),
{
    if evs.len() == 0 {
        m
    } else {
        record(record_all(m, evs.drop_last()), evs.last().event, evs.last().url)
    }
}

/// The tracking events of a creative's linear part.
pub open spec fn creative_events(c: Creative) -> Seq<TrackingEvent> {
    match c.linear {
        Some(l) => l.tracking_events@,
        None => Seq::empty(),
    }
}

pub open spec fn creative_clicks(c: Creative) -> Seq<String> {
    match c.linear {
        Some(l) => match l.video_clicks {
            Some(v) => v.click_tracking@,
            None => Seq::empty(),
        },
        None => Seq::empty(),
    }
}

pub open spec fn creative_custom_clicks(c: Creative) -> Seq<String> {
    match c.linear {
        Some(l) => match l.video_clicks {
            Some(v) => v.custom_click@,
            None => Seq::empty(),
        },
        None => Seq::empty(),
    }
}

/// The concatenation of `f` over the items of `s`.
pub open spec fn flat_map<T, U>(s: Seq<T>, f: spec_fn(T) -> Seq<U>) -> Seq<U>
    decreases s.len(),
{
    if s.len() == 0 {
        Seq::empty()
    } else {
        flat_map(s.drop_last(), f) + f(s.last())
    }
}

proof fn lemma_flat_map_step<T, U>(s: Seq<T>, f: spec_fn(T) -> Seq<U>, i: int)
    requires
        0 <= i < s.len(),
    ensures
        flat_map(s.subrange(0, i + 1), f) == flat_map(s.subrange(0, i), f) + f(s[i]),
{
    assert(s.subrange(0, i + 1).drop_last() =~= s.subrange(0, i));
}

proof fn lemma_flat_map_all<T, U>(s: Seq<T>, f: spec_fn(T) -> Seq<U>)
    ensures
        flat_map(s.subrange(0, s.len() as int), f) == flat_map(s, f),
{
    assert(s.subrange(0, s.len() as int) =~= s);
}

pub open spec fn events_fn() -> spec_fn(Creative) -> Seq<TrackingEvent> {
    |c: Creative| creative_events(c)
}

pub open spec fn clicks_fn() -> spec_fn(Creative) -> Seq<String> {
    |c: Creative| creative_clicks(c)
}

pub open spec fn custom_clicks_fn() -> spec_fn(Creative) -> Seq<String> {
    |c: Creative| creative_custom_clicks(c)
}

/// The bundle as values.
pub open spec fn bundle_view(b: WrapperTracking) -> (
    Seq<Impression>,
    Seq<String>,
    Seq<(String, Seq<String>)>,
    Seq<String>,
    Seq<String>,
) {
    (b.impressions@, b.error_urls@, tags_model(b.tracking_events@), b.click_tracking@, b.custom_click@)
}

/// A bundle after a wrapper's tracking is added: its impressions, its error
/// URL, the tracking events and clicks of its linear creatives, in order.
pub open spec fn with_wrapper(b: (Seq<Impression>, Seq<String>, Seq<(String, Seq<String>)>, Seq<String>, Seq<String>), w: Wrapper) -> (
    Seq<Impression>,
    Seq<String>,
    Seq<(String, Seq<String>)>,
    Seq<String>,
    Seq<String>,
) {
    (
        b.0 + w.impressions@,
        match w.error {
            Some(e) => b.1.push(e),
            None => b.1,
        },
        record_all(b.2, flat_map(w.creatives@, events_fn())),
        b.3 + flat_map(w.creatives@, clicks_fn()),
        b.4 + flat_map(w.creatives@, custom_clicks_fn()),
    )
}

/// The bundle of a chain with no wrapper.
pub open spec fn empty_bundle() -> (Seq<Impression>, Seq<String>, Seq<(String, Seq<String>)>, Seq<String>, Seq<String>) {
    (Seq::empty(), Seq::empty(), Seq::empty(), Seq::empty(), Seq::empty())
}

impl WrapperTracking {
    /// A bundle with nothing collected.
    pub fn new() -> (r: WrapperTracking)
        ensures
            bundle_view(r) == empty_bundle(),
            r.wf(),
    {
        let r = WrapperTracking {
            impressions: Vec::new(),
            error_urls: Vec::new(),
            tracking_events: Vec::new(),
            click_tracking: Vec::new(),
            custom_click: Vec::new(),
        };
        assert(tags_model(r.tracking_events@) =~= Seq::empty());
        r
    }
}


proof fn lemma_tag_index_extends(m: Seq<(String, Seq<String>)>, k: int, tag: Seq<char>)
    requires
        0 <= k <= m.len(),
        tag_index(m.subrange(0, k), tag) >= 0,
    ensures
        tag_index(m, tag) == tag_index(m.subrange(0, k), tag),
    decreases m.len() - k,
{
    if k < m.len() {
        let p = m.subrange(0, k + 1);
        assert(p.drop_last() =~= m.subrange(0, k));
        lemma_tag_index_extends(m, k + 1, tag);
    } else {
        assert(m.subrange(0, k) =~= m);
    }
}

proof fn lemma_tag_index_bound(m: Seq<(String, Seq<String>)>, tag: Seq<char>)
    ensures
        -1 <= tag_index(m, tag) < m.len(),
        tag_index(m, tag) >= 0 ==> m[tag_index(m, tag)].0@ == tag,
    decreases m.len(),
{
    if m.len() > 0 {
        lemma_tag_index_bound(m.drop_last(), tag);
    }
}

proof fn lemma_record_all_concat(m: Seq<(String, Seq<String>)>, a: Seq<TrackingEvent>, b: Seq<TrackingEvent>)
    ensures
        record_all(m, a + b) == record_all(record_all(m, a), b),
    decreases b.len(),
{
    if b.len() == 0 {
        assert(a + b =~= a);
    } else {
        assert((a + b).drop_last() =~= a + b.drop_last());
        lemma_record_all_concat(m, a, b.drop_last());
    }
}

/// Records `url` under `tag`.
fn record_event(events: &mut Vec<TagUrls>, tag: &String, url: &String)
    requires
        tags_distinct(tags_model(old(events)@)),
    ensures
        tags_model(final(events)@) == record(tags_model(old(events)@), *tag, *url),
        tags_distinct(tags_model(final(events)@)),
{
    proof {
        lemma_tag_index_absent(tags_model(events@), tag@);
        lemma_tag_index_bound(tags_model(events@), tag@);
    }
    let ghost m = tags_model(events@);
    let mut i: usize = 0;
    while i < events.len()
        invariant
            i <= events.len(),
            m == tags_model(events@),
            events@ == old(events)@,
            tags_distinct(m),
            tag_index(m.subrange(0, i as int), tag@) == -1,
        decreases events.len() - i,
    {
        let ghost p = m.subrange(0, i + 1);
        assert(p.drop_last() =~= m.subrange(0, i as int));
        assert(p.last() == tag_view(events@[i as int]));
        if text_eq(events[i].tag.as_str(), tag.as_str()) {
            proof {
                lemma_tag_index_extends(m, i + 1, tag@);
            }
            let mut urls = copy_strings(&events[i].urls);
            urls.push(url.clone());
            let entry = TagUrls { tag: events[i].tag.clone(), urls };
            events.set(i, entry);
            assert(tags_model(events@) =~= record(m, *tag, *url));
            assert forall|a: int, b: int| 0 <= a < b < tags_model(events@).len() implies
                (#[trigger] tags_model(events@)[a]).0@ != (#[trigger] tags_model(events@)[b]).0@ by {
                assert(tags_model(events@)[a].0 == m[a].0);
                assert(tags_model(events@)[b].0 == m[b].0);
                assert(tags_distinct(m));
                assert(m[a].0@ != m[b].0@);
            }
            return;
        }
        i += 1;
    }
    assert(m.subrange(0, i as int) =~= m);
    let mut urls: Vec<String> = Vec::new();
    urls.push(url.clone());
    events.push(TagUrls { tag: tag.clone(), urls });
    assert(urls@ =~= seq![*url]);
    assert(tags_model(events@) =~= record(m, *tag, *url));
}

fn append_copies(dst: &mut Vec<String>, src: &Vec<String>)
    ensures
        final(dst)@ == old(dst)@ + src@,
{
    let mut i: usize = 0;
    while i < src.len()
        invariant
            i <= src.len(),
            dst@ == old(dst)@ + src@.subrange(0, i as int),
        decreases src.len() - i,
    {
        dst.push(src[i].clone());
        i += 1;
        assert(dst@ =~= old(dst)@ + src@.subrange(0, i as int));
    }
    assert(src@.subrange(0, i as int) =~= src@);
}

fn append_impressions(dst: &mut Vec<Impression>, src: &Vec<Impression>)
    ensures
        final(dst)@ == old(dst)@ + src@,
{
    let mut i: usize = 0;
    while i < src.len()
        invariant
            i <= src.len(),
            dst@ == old(dst)@ + src@.subrange(0, i as int),
        decreases src.len() - i,
    {
        dst.push(src[i].copy());
        i += 1;
        assert(dst@ =~= old(dst)@ + src@.subrange(0, i as int));
    }
    assert(src@.subrange(0, i as int) =~= src@);
}

fn record_linear_events(events: &mut Vec<TagUrls>, evs: &Vec<TrackingEvent>)
    requires
        tags_distinct(tags_model(old(events)@)),
    ensures
        tags_distinct(tags_model(final(events)@)),
        tags_model(final(events)@) == record_all(tags_model(old(events)@), evs@),
{
    let mut i: usize = 0;
    while i < evs.len()
        invariant
            i <= evs.len(),
            tags_model(events@) == record_all(tags_model(old(events)@), evs@.subrange(0, i as int)),
            tags_distinct(tags_model(events@)),
        decreases evs.len() - i,
    {
        record_event(events, &evs[i].event, &evs[i].url);
        assert(evs@.subrange(0, i + 1).drop_last() =~= evs@.subrange(0, i as int));
        i += 1;
    }
    assert(evs@.subrange(0, i as int) =~= evs@);
}

/// Adds a wrapper's tracking to the bundle: its impressions, its error URL,
/// and the tracking events and clicks of its linear creatives.
pub fn extract_wrapper_tracking(wrapper: &Wrapper, result: &mut WrapperTracking)
    requires
        old(result).wf(),
    ensures
        final(result).wf(),
        bundle_view(*final(result)) == with_wrapper(bundle_view(*old(result)), *wrapper),
{
    append_impressions(&mut result.impressions, &wrapper.impressions);
    match &wrapper.error {
        Some(e) => result.error_urls.push(e.clone()),
        None => {},
    }
    let ghost m0 = tags_model(result.tracking_events@);
    let ghost c0 = result.click_tracking@;
    let ghost k0 = result.custom_click@;
    let ghost cs = wrapper.creatives@;
    let mut k: usize = 0;
    while k < wrapper.creatives.len()
        invariant
            k <= wrapper.creatives.len(),
            cs == wrapper.creatives@,
            result.impressions@ == old(result).impressions@ + wrapper.impressions@,
            result.error_urls@ == (match wrapper.error {
                Some(e) => old(result).error_urls@.push(e),
                None => old(result).error_urls@,
            }),
            m0 == tags_model(old(result).tracking_events@),
            c0 == old(result).click_tracking@,
            k0 == old(result).custom_click@,
            tags_model(result.tracking_events@) == record_all(m0, flat_map(cs.subrange(0, k as int), events_fn())),
            result.click_tracking@ == c0 + flat_map(cs.subrange(0, k as int), clicks_fn()),
            result.custom_click@ == k0 + flat_map(cs.subrange(0, k as int), custom_clicks_fn()),
            result.wf(),
        decreases wrapper.creatives.len() - k,
    {
        let c = &wrapper.creatives[k];
        let ghost before_m = tags_model(result.tracking_events@);
        let ghost before_c = result.click_tracking@;
        let ghost before_k = result.custom_click@;
        match &c.linear {
            Some(l) => {
                record_linear_events(&mut result.tracking_events, &l.tracking_events);
                match &l.video_clicks {
                    Some(v) => {
                        append_copies(&mut result.click_tracking, &v.click_tracking);
                        append_copies(&mut result.custom_click, &v.custom_click);
                    },
                    None => {},
                }
            },
            None => {},
        }
        proof {
            lemma_flat_map_step(cs, events_fn(), k as int);
            lemma_flat_map_step(cs, clicks_fn(), k as int);
            lemma_flat_map_step(cs, custom_clicks_fn(), k as int);
            lemma_record_all_concat(m0, flat_map(cs.subrange(0, k as int), events_fn()), creative_events(*c));
            assert(events_fn()(cs[k as int]) == creative_events(*c));
            assert(clicks_fn()(cs[k as int]) == creative_clicks(*c));
            assert(custom_clicks_fn()(cs[k as int]) == creative_custom_clicks(*c));
            if c.linear is None {
                assert(creative_events(*c) =~= Seq::<TrackingEvent>::empty());
                assert(record_all(before_m, creative_events(*c)) == before_m);
            }
        }
        assert(result.click_tracking@ =~= c0 + flat_map(cs.subrange(0, k + 1), clicks_fn()));
        assert(result.custom_click@ =~= k0 + flat_map(cs.subrange(0, k + 1), custom_clicks_fn()));
        k += 1;
    }
    proof {
        lemma_flat_map_all(cs, events_fn());
        lemma_flat_map_all(cs, clicks_fn());
        lemma_flat_map_all(cs, custom_clicks_fn());
    }
}


/// One tracking event per URL recorded under `tag`, in order.
pub open spec fn tag_events(tag: String, urls: Seq<String>) -> Seq<TrackingEvent> {
    urls.map_values(|u: String| TrackingEvent { event: tag, url: u })
}

/// One tracking event per (tag, URL) pair of the mapping, tag by tag.
pub open spec fn flat_tag_events(m: Seq<(String, Seq<String>)>) -> Seq<TrackingEvent>
    decreases m.len(),
{
    if m.len() == 0 {
        Seq::empty()
    } else {
        flat_tag_events(m.drop_last()) + tag_events(m.last().0, m.last().1)
    }
}

/// A linear part after the bundle is merged in: the bundle's events appended
/// to its own; the bundle's clicks appended to its clicks, which are created
/// with no click-through where it had none and the bundle has some.
pub open spec fn linear_stitched(old: Linear, new: Linear, b: WrapperTracking) -> bool {
    &&& new.duration == old.duration
    &&& new.media_files == old.media_files
    &&& new.tracking_events@ == old.tracking_events@ + flat_tag_events(tags_model(b.tracking_events@))
    &&& match old.video_clicks {
        Some(v) => new.video_clicks is Some && {
            let nv = new.video_clicks->Some_0;
            &&& nv.click_through == v.click_through
            &&& nv.click_tracking@ == v.click_tracking@ + b.click_tracking@
            &&& nv.custom_click@ == v.custom_click@ + b.custom_click@
        },
        None => if b.click_tracking@.len() > 0 || b.custom_click@.len() > 0 {
            new.video_clicks is Some && {
                let nv = new.video_clicks->Some_0;
                &&& nv.click_through is None
                &&& nv.click_tracking@ == b.click_tracking@
                &&& nv.custom_click@ == b.custom_click@
            }
        } else {
            new.video_clicks is None
        },
    }
}

pub open spec fn creative_stitched(old: Creative, new: Creative, b: WrapperTracking) -> bool {
    &&& new.id == old.id
    &&& new.sequence == old.sequence
    &&& new.ad_id == old.ad_id
    &&& new.api_framework == old.api_framework
    &&& new.companion_ads == old.companion_ads
    &&& new.non_linear_ads == old.non_linear_ads
    &&& match old.linear {
        Some(l) => new.linear is Some && linear_stitched(l, new.linear->Some_0, b),
        None => new.linear is None,
    }
}

/// An inline ad after the bundle is merged in: the bundle's impressions
/// appended, the bundle's first error URL where it had none, and every linear
/// creative merged.
pub open spec fn inline_stitched(old: InLine, new: InLine, b: WrapperTracking) -> bool {
    &&& new.ad_system == old.ad_system
    &&& new.ad_title == old.ad_title
    &&& new.description == old.description
    &&& new.advertiser == old.advertiser
    &&& new.survey == old.survey
    &&& new.pricing == old.pricing
    &&& new.extensions == old.extensions
    &&& new.impressions@ == old.impressions@ + b.impressions@
    &&& new.error == (if old.error is None && b.error_urls@.len() > 0 {
        Some(b.error_urls@[0])
    } else {
        old.error
    })
    &&& new.creatives@.len() == old.creatives@.len()
    &&& forall|j: int| 0 <= j < old.creatives@.len() ==> creative_stitched(
        #[trigger] old.creatives@[j],
        new.creatives@[j],
        b,
    )
}

/// An ad after the bundle is merged in: only its inline content changes.
pub open spec fn ad_stitched(old: Ad, new: Ad, b: WrapperTracking) -> bool {
    &&& new.id == old.id
    &&& new.sequence == old.sequence
    &&& new.conditional_ad == old.conditional_ad
    &&& new.wrapper == old.wrapper
    &&& match old.inline {
        Some(i) => new.inline is Some && inline_stitched(i, new.inline->Some_0, b),
        None => new.inline is None,
    }
}

fn push_bundle_events(dst: &mut Vec<TrackingEvent>, m: &Vec<TagUrls>)
    ensures
        final(dst)@ == old(dst)@ + flat_tag_events(tags_model(m@)),
{
    let ghost mm = tags_model(m@);
    let mut i: usize = 0;
    while i < m.len()
        invariant
            i <= m.len(),
            mm == tags_model(m@),
            dst@ == old(dst)@ + flat_tag_events(mm.subrange(0, i as int)),
        decreases m.len() - i,
    {
        let entry = &m[i];
        let ghost before = dst@;
        let mut k: usize = 0;
        while k < entry.urls.len()
            invariant
                k <= entry.urls.len(),
                entry == &m@[i as int],
                dst@ == before + tag_events(entry.tag, entry.urls@.subrange(0, k as int)),
            decreases entry.urls.len() - k,
        {
            dst.push(TrackingEvent { event: entry.tag.clone(), url: entry.urls[k].clone() });
            k += 1;
            assert(dst@ =~= before + tag_events(entry.tag, entry.urls@.subrange(0, k as int)));
        }
        assert(entry.urls@.subrange(0, k as int) =~= entry.urls@);
        assert(mm.subrange(0, i + 1).drop_last() =~= mm.subrange(0, i as int));
        assert(mm[i as int] == tag_view(*entry));
        i += 1;
        assert(dst@ =~= old(dst)@ + flat_tag_events(mm.subrange(0, i as int)));
    }
    assert(mm.subrange(0, i as int) =~= mm);
}

fn stitch_linear(linear: Linear, b: &WrapperTracking) -> (r: Linear)
    ensures
        linear_stitched(linear, r, *b),
{
    let mut l = linear;
    push_bundle_events(&mut l.tracking_events, &b.tracking_events);
    match l.video_clicks {
        Some(v) => {
            let mut v = v;
            append_copies(&mut v.click_tracking, &b.click_tracking);
            append_copies(&mut v.custom_click, &b.custom_click);
            l.video_clicks = Some(v);
        },
        None => {
            if b.click_tracking.len() > 0 || b.custom_click.len() > 0 {
                l.video_clicks = Some(VideoClicks {
                    click_through: None,
                    click_tracking: copy_strings(&b.click_tracking),
                    custom_click: copy_strings(&b.custom_click),
                });
            }
        },
    }
    l
}

fn stitch_creative(creative: Creative, b: &WrapperTracking) -> (r: Creative)
    ensures
        creative_stitched(creative, r, *b),
{
    let mut c = creative;
    match c.linear {
        Some(l) => {
            c.linear = Some(stitch_linear(l, b));
        },
        None => {},
    }
    c
}

fn stitch_inline(inline: InLine, b: &WrapperTracking) -> (r: InLine)
    ensures
        inline_stitched(inline, r, *b),
{
    let mut i = inline;
    append_impressions(&mut i.impressions, &b.impressions);
    if i.error.is_none() && b.error_urls.len() > 0 {
        i.error = Some(b.error_urls[0].clone());
    }
    let ghost olds = i.creatives@;
    let mut rest = i.creatives;
    let mut done: Vec<Creative> = Vec::new();
    while rest.len() > 0
        invariant
            done@.len() + rest@.len() == olds.len(),
            rest@ == olds.subrange(done@.len() as int, olds.len() as int),
            forall|j: int| 0 <= j < done@.len() ==> creative_stitched(#[trigger] olds[j], done@[j], *b),
        decreases rest@.len(),
    {
        let c = rest.remove(0);
        let ghost j = done@.len() as int;
        assert(c == olds[j]);
        done.push(stitch_creative(c, b));
        assert(rest@ =~= olds.subrange(done@.len() as int, olds.len() as int));
    }
    i.creatives = done;
    i
}

fn stitch_ad(ad: Ad, b: &WrapperTracking) -> (r: Ad)
    ensures
        ad_stitched(ad, r, *b),
{
    let mut a = ad;
    match a.inline {
        Some(i) => {
            a.inline = Some(stitch_inline(i, b));
        },
        None => {},
    }
    a
}

/// A document after the bundle is merged into each of its ads.
pub open spec fn vast_stitched(old: Vast, new: Vast, b: WrapperTracking) -> bool {
    &&& new.version == old.version
    &&& new.error == old.error
    &&& new.ads@.len() == old.ads@.len()
    &&& forall|i: int| 0 <= i < new.ads@.len() ==> ad_stitched(#[trigger] old.ads@[i], new.ads@[i], b)
}

/// Merges the collected wrapper tracking into every inline ad of a resolved
/// document.
pub fn stitch_vast_from_unwrapped(unwrapped_vast: Vast, wrapper_tracking: &WrapperTracking) -> (r: Vast)
    ensures
        vast_stitched(unwrapped_vast, r, *wrapper_tracking),
{
    let ghost olds = unwrapped_vast.ads@;
    let mut v = unwrapped_vast;
    let mut rest = v.ads;
    let mut done: Vec<Ad> = Vec::new();
    while rest.len() > 0
        invariant
            done@.len() + rest@.len() == olds.len(),
            rest@ == olds.subrange(done@.len() as int, olds.len() as int),
            forall|j: int| 0 <= j < done@.len() ==> ad_stitched(#[trigger] olds[j], done@[j], *wrapper_tracking),
        decreases rest@.len(),
    {
        let a = rest.remove(0);
        let ghost j = done@.len() as int;
        assert(a == olds[j]);
        done.push(stitch_ad(a, wrapper_tracking));
        assert(rest@ =~= olds.subrange(done@.len() as int, olds.len() as int));
    }
    v.ads = done;
    v
}


/// Resolves a VAST document through its wrapper chain and merges the
/// tracking of every wrapper hop into the inline ads found, as canonical
/// text. Wrapper locations are fetched from `sources` (location, content).
/// The text is that of the resolution of the root with the bundle of the
/// wrappers reached merged in; only a root that does not parse fails.
pub fn stitch_vast(xml_content: &str, sources: &Vec<(String, String)>) -> (r: Result<String>)
    ensures
        r is Err <==> parsed_doc(xml_tokens(xml_content@)) is None,
        r is Err ==> parse_outcome(xml_tokens(xml_content@), Err(r->Err_0)),
        well_formed(xml_tokens(xml_content@)) && root_version(xml_tokens(xml_content@)) is Some ==> r is Ok,
        r is Ok ==> exists|doc: Vast, merged: Vast, b: WrapperTracking, ws: Seq<Wrapper>| {
            &&& Some(doc_v(doc)) == resolution(xml_content@, sources@)
            &&& bundle_view(b) == bundle_of(ws)
            &&& Some(wrappers_view(ws)) == collected(xml_content@, sources@)
            &&& vast_stitched(doc, merged, b)
            &&& r->Ok_0@ == vast_text(merged)
        },
{
    let tracking = match collect_wrapper_tracking(xml_content, sources) {
        Ok(t) => t,
        Err(e) => return Err(e),
    };
    let unwrapped = match unwrap_vast(xml_content, sources) {
        Ok(v) => v,
        Err(e) => return Err(e),
    };
    let ghost doc = unwrapped;
    let ghost ws = choose|ws: Seq<Wrapper>| bundle_view(tracking) == bundle_of(ws)
        && Some(wrappers_view(ws)) == collected(xml_content@, sources@);
    let merged = stitch_vast_from_unwrapped(unwrapped, &tracking);
    let text = vast_to_xml(&merged);
    assert(Some(doc_v(doc)) == resolution(xml_content@, sources@) && bundle_view(tracking) == bundle_of(ws)
        && Some(wrappers_view(ws)) == collected(xml_content@, sources@) && vast_stitched(doc, merged, tracking)
        && text@ == vast_text(merged));
    Ok(text)
}

} // verus!
