use vstd::prelude::*;
use crate::error::{Result, VastError};
use crate::models::{
    Ad, AdSystem, CompanionAds, Creative, Extension, Impression, InLine, Linear, MediaFile,
    NonLinearAds, Pricing, TrackingEvent, Vast, VideoClicks, Wrapper,
};
use crate::text::{decimal_u32, flag_is_true, lower_of, parse_u32, text_eq};
use crate::views::{
    ad_v, ads_v, ad_system_v, creative_v, creatives_v, extension_v, extensions_v, impression_v,
    impressions_v, inline_v, linear_v, media_file_v, media_files_v, trackings_v, pricing_v, texts_v, tracking_v,
    video_clicks_v, wrapper_v, doc_v, DocV, AdSystemV, AdV, CreativeV, ExtensionV, ImpressionV, InLineV, LinearV,
    MediaFileV, PricingV, TrackingV, VideoClicksV, WrapperV,
};
use crate::xml::{is_stop, stream_complete, tokenize, xml_tokens, Attribute, Token};
use crate::nesting::{
    after_start, count_from, lemma_count_start, lemma_count_step, lemma_within_child,
    lemma_within_end_tag, lemma_within_not_eof, lemma_within_other, lemma_within_start,
    lemma_within_start_tag, open_at, read_inside, well_formed, within,
};

verus! {

/// The value of the last attribute named `key`.
pub open spec fn attr_lookup(attrs: Seq<Attribute>, key: Seq<char>) -> Option<String>
    decreases attrs.len(),
{
    if attrs.len() == 0 {
        None
    } else if attrs.last().key@ == key {
        Some(attrs.last().value)
    } else {
        attr_lookup(attrs.drop_last(), key)
    }
}

/// A numeric attribute; a value that is not a `u32` counts as absent.
pub open spec fn attr_u32(attrs: Seq<Attribute>, key: Seq<char>) -> Option<u32> {
    match attr_lookup(attrs, key) {
        Some(v) => decimal_u32(v@),
        None => None,
    }
}

/// A boolean attribute: true where its value is "true" in any letter case.
pub open spec fn attr_flag(attrs: Seq<Attribute>, key: Seq<char>) -> Option<bool> {
    match attr_lookup(attrs, key) {
        Some(v) => Some(lower_of(v@) == "true"@),
        None => None,
    }
}

/// A string attribute, or the empty string where it is absent.
pub open spec fn attr_or_empty(attrs: Seq<Attribute>, key: Seq<char>) -> Seq<char> {
    match attr_lookup(attrs, key) {
        Some(v) => v@,
        None => Seq::empty(),
    }
}

/// The tokens are a complete stream and `pos` points into it.
pub open spec fn cursor_ok(toks: Seq<Token>, pos: int) -> bool {
    stream_complete(toks) && 0 <= pos < toks.len()
}

pub open spec fn is_start_named(t: Token, name: Seq<char>) -> bool {
    match t {
        Token::Start(n, _) => n@ == name,
        _ => false,
    }
}

pub open spec fn is_end_named(t: Token, name: Seq<char>) -> bool {
    match t {
        Token::End(n) => n@ == name,
        _ => false,
    }
}

/// Reading the text of an element whose start tag was taken: the last
/// character data or CDATA before the first end tag wins. Gives the text and
/// the position after that end tag, or `None` on a fault, an invalid escape or
/// the end of input.
pub open spec fn scan_text(toks: Seq<Token>, i: int, acc: Seq<char>) -> Option<(Seq<char>, int)>
    decreases toks.len() - i,
{
    if i < 0 || i >= toks.len() {
        None
    } else {
        match toks[i] {
            Token::End(_) => Some((acc, i + 1)),
            Token::Text(Some(s)) => scan_text(toks, i + 1, s@),
            Token::Text(None) => None,
            Token::CData(s) => scan_text(toks, i + 1, s@),
            Token::Eof => None,
            Token::Fault => None,
            _ => scan_text(toks, i + 1, acc),
        }
    }
}

/// Skipping an element named `name` whose start tag was taken, with `depth`
/// elements of that name open: start tags of that name open one more, end
/// tags of that name close one, and the skip ends after the one that closes
/// the last. Gives the position after it, or `None` at the end of input or a
/// fault.
pub open spec fn scan_skip(toks: Seq<Token>, i: int, name: Seq<char>, depth: nat) -> Option<int>
    decreases toks.len() - i,
{
    if i < 0 || i >= toks.len() || is_stop(toks[i]) {
        None
    } else if is_start_named(toks[i], name) {
        scan_skip(toks, i + 1, name, depth + 1)
    } else if is_end_named(toks[i], name) {
        if depth <= 1 {
            Some(i + 1)
        } else {
            scan_skip(toks, i + 1, name, (depth - 1) as nat)
        }
    } else {
        scan_skip(toks, i + 1, name, depth)
    }
}

/// A successful step of the reader keeps the cursor inside the stream and
/// never moves it back.
pub open spec fn advanced(toks: Seq<Token>, before: int, after: int) -> bool {
    before <= after < toks.len()
}

fn structural(msg: &str) -> (e: VastError)
    ensures
        e is XmlParseError,
{
    VastError::XmlParseError(msg.to_string())
}

fn unexpected_end() -> (e: VastError)
    ensures
        e is XmlParseError,
{
    structural("Unexpected end of input")
}

/// The value of the last attribute named `key`.
pub fn find_attr(attrs: &Vec<Attribute>, key: &str) -> (r: Option<String>)
    ensures
        r == attr_lookup(attrs@, key@),
{
    let mut found: Option<String> = None;
    let mut i: usize = 0;
    while i < attrs.len()
        invariant
            i <= attrs.len(),
            found == attr_lookup(attrs@.subrange(0, i as int), key@),
        decreases attrs.len() - i,
    {
        assert(attrs@.subrange(0, i + 1).drop_last() =~= attrs@.subrange(0, i as int));
        if text_eq(attrs[i].key.as_str(), key) {
            found = Some(attrs[i].value.clone());
        }
        i += 1;
    }
    assert(attrs@.subrange(0, i as int) =~= attrs@);
    found
}

fn find_u32_attr(attrs: &Vec<Attribute>, key: &str) -> (r: Option<u32>)
    ensures
        r == attr_u32(attrs@, key@),
{
    match find_attr(attrs, key) {
        Some(v) => parse_u32(v.as_str()),
        None => None,
    }
}

fn find_flag_attr(attrs: &Vec<Attribute>, key: &str) -> (r: Option<bool>)
    ensures
        r == attr_flag(attrs@, key@),
{
    match find_attr(attrs, key) {
        Some(v) => Some(flag_is_true(v.as_str())),
        None => None,
    }
}

fn attr_or_default(attrs: &Vec<Attribute>, key: &str) -> (r: String)
    ensures
        r@ == attr_or_empty(attrs@, key@),
{
    match find_attr(attrs, key) {
        Some(v) => v,
        None => String::new(),
    }
}

/// Reads the text content of an element whose start tag was taken, and
/// moves past its end tag.
pub fn read_text_element(toks: &Vec<Token>, pos: &mut usize) -> (r: Result<String>)
    requires
        cursor_ok(toks@, *old(pos) as int),
    ensures
        scan_text(toks@, *old(pos) as int, Seq::empty()) is Some <==> r is Ok,
        r is Ok ==> r->Ok_0@ == scan_text(toks@, *old(pos) as int, Seq::empty())->Some_0.0
            && *final(pos) as int == scan_text(toks@, *old(pos) as int, Seq::empty())->Some_0.1
            && advanced(toks@, *old(pos) as int, *final(pos) as int),
        r is Err ==> r->Err_0 is XmlParseError,
        well_formed(toks@) && after_start(toks@, *old(pos) as int) ==> r is Ok && read_inside(
            toks@,
            *old(pos) - 1,
            *final(pos) as int,
        ),
{
    let mut text = String::new();
    let ghost start = *pos as int;
    let ghost s = start - 1;
    let ghost g = well_formed(toks@) && after_start(toks@, start);
    proof {
        if g {
            lemma_within_start(toks@, s);
        }
    }
    loop
        invariant
            cursor_ok(toks@, *pos as int),
            *pos < toks.len(),
            start == *old(pos) as int,
            start <= *pos,
            s == start - 1,
            g == (well_formed(toks@) && after_start(toks@, start)),
            g ==> within(toks@, s, *pos as int),
            scan_text(toks@, start, Seq::empty()) == scan_text(toks@, *pos as int, text@),
        decreases toks@.len() - *pos,
    {
        let i = *pos;
        proof {
            if g {
                lemma_within_not_eof(toks@, s, i as int);
                assert(!(toks@[i as int] is Text && toks@[i as int]->Text_0 is None));
            }
        }
        match &toks[i] {
            Token::End(_) => {
                *pos = i + 1;
                assert(scan_text(toks@, i as int, text@) == Some((text@, i + 1)));
                assert(!is_stop(toks@[i as int]));
                return Ok(text);
            },
            Token::Text(Some(s)) => {
                text = s.clone();
            },
            Token::Text(None) => {
                assert(scan_text(toks@, i as int, text@) is None);
                return Err(structural("Invalid character data"));
            },
            Token::CData(s) => {
                text = s.clone();
            },
            Token::Eof => {
                assert(scan_text(toks@, i as int, text@) is None);
                return Err(unexpected_end());
            },
            Token::Fault => {
                assert(scan_text(toks@, i as int, text@) is None);
                return Err(structural("Malformed markup"));
            },
            _ => {},
        }
        assert(!is_stop(toks@[i as int]));
        proof {
            if g {
                if toks@[i as int] is Start {
                    lemma_within_start_tag(toks@, s, i as int);
                } else {
                    lemma_within_other(toks@, s, i as int);
                }
            }
        }
        *pos = i + 1;
    }
}

/// Moves past the element named `name` whose start tag was taken, including
/// any nested elements of the same name.
pub fn skip_element(toks: &Vec<Token>, pos: &mut usize, name: &str) -> (r: Result<()>)
    requires
        cursor_ok(toks@, *old(pos) as int),
    ensures
        scan_skip(toks@, *old(pos) as int, name@, 1) is Some <==> r is Ok,
        r is Ok ==> *final(pos) as int == scan_skip(toks@, *old(pos) as int, name@, 1)->Some_0
            && advanced(toks@, *old(pos) as int, *final(pos) as int),
        r is Err ==> r->Err_0 is XmlParseError,
        well_formed(toks@) && after_start(toks@, *old(pos) as int) && is_start_named(
            toks@[*old(pos) - 1],
            name@,
        ) ==> r is Ok && read_inside(toks@, *old(pos) - 1, *final(pos) as int),
{
    // elements of this name opened inside the skipped one and not yet closed
    let mut nested: usize = 0;
    let ghost start = *pos as int;
    let ghost s = start - 1;
    let ghost g = well_formed(toks@) && after_start(toks@, start) && is_start_named(toks@[start - 1], name@);
    let ghost base = open_at(toks@, s).len() as int;
    proof {
        if g {
            lemma_within_start(toks@, s);
            lemma_count_start(toks@, s);
        }
    }
    loop
        invariant
            s == start - 1,
            base == open_at(toks@, s).len() as int,
            g == (well_formed(toks@) && after_start(toks@, start) && is_start_named(toks@[start - 1], name@)),
            g ==> within(toks@, s, *pos as int),
            g ==> nested + 1 == count_from(open_at(toks@, *pos as int), base, name@),
            cursor_ok(toks@, *pos as int),
            *pos < toks.len(),
            start == *old(pos) as int,
            start <= *pos,
            nested <= *pos - start,
            scan_skip(toks@, start, name@, 1) == scan_skip(toks@, *pos as int, name@, (nested + 1) as nat),
        decreases toks@.len() - *pos,
    {
        let i = *pos;
        proof {
            if g {
                lemma_within_not_eof(toks@, s, i as int);
                lemma_count_step(toks@, s, i as int, name@);
                if toks@[i as int] is End {
                    let st = open_at(toks@, i as int);
                    if st.len() == open_at(toks@, s + 1).len() && nested > 0 {
                        assert(count_from(st, base, name@) <= 1);
                    }
                }
            }
        }
        match &toks[i] {
            Token::Start(n, _) => {
                if text_eq(n.as_str(), name) {
                    assert(nested < toks.len());
                    nested = nested + 1;
                }
            },
            Token::End(n) => {
                if text_eq(n.as_str(), name) {
                    if nested == 0 {
                        *pos = i + 1;
                        assert(!is_stop(toks@[i as int]));
                        return Ok(());
                    }
                    nested = nested - 1;
                }
            },
            Token::Eof => {
                assert(scan_skip(toks@, i as int, name@, (nested + 1) as nat) is None);
                return Err(unexpected_end());
            },
            Token::Fault => {
                assert(scan_skip(toks@, i as int, name@, (nested + 1) as nat) is None);
                return Err(structural("Malformed markup"));
            },
            _ => {},
        }
        assert(!is_stop(toks@[i as int]));
        proof {
            if g {
                if toks@[i as int] is Start {
                    lemma_within_start_tag(toks@, s, i as int);
                } else if toks@[i as int] is End {
                    lemma_within_end_tag(toks@, s, i as int);
                } else {
                    lemma_within_other(toks@, s, i as int);
                }
            }
        }
        *pos = i + 1;
    }
}


// What reading each element gives, as a function of the tokens: the value
// read and the position after the element's end tag, or `None` where the
// reader fails. Each `scan_*` reads the contents of an element whose start
// tag was taken, from token `i` on, with what was read so far in `acc`.

pub open spec fn text_then<T>(toks: Seq<Token>, p: int, f: spec_fn(Seq<char>) -> T) -> Option<(T, int)> {
    match scan_text(toks, p, Seq::empty()) {
        Some((t, q)) => Some((f(t), q)),
        None => None,
    }
}

pub open spec fn read_ad_system(toks: Seq<Token>, p: int, attrs: Seq<Attribute>) -> Option<(AdSystemV, int)> {
    text_then(toks, p, |t: Seq<char>| AdSystemV { name: t, version: attr_lookup(attrs, "version"@) })
}

pub open spec fn read_impression(toks: Seq<Token>, p: int, attrs: Seq<Attribute>) -> Option<(ImpressionV, int)> {
    text_then(toks, p, |t: Seq<char>| ImpressionV { id: attr_lookup(attrs, "id"@), url: t })
}

pub open spec fn read_pricing(toks: Seq<Token>, p: int, attrs: Seq<Attribute>) -> Option<(PricingV, int)> {
    text_then(
        toks,
        p,
        |t: Seq<char>|
            PricingV {
                model: attr_or_empty(attrs, "model"@),
                currency: attr_or_empty(attrs, "currency"@),
                value: t,
            },
    )
}

pub open spec fn read_extension(toks: Seq<Token>, p: int, attrs: Seq<Attribute>) -> Option<(ExtensionV, int)> {
    text_then(toks, p, |t: Seq<char>| ExtensionV { extension_type: attr_lookup(attrs, "type"@), content: t })
}

pub open spec fn read_tracking(toks: Seq<Token>, p: int, attrs: Seq<Attribute>) -> Option<(TrackingV, int)> {
    text_then(toks, p, |t: Seq<char>| TrackingV { event: attr_or_empty(attrs, "event"@), url: t })
}

pub open spec fn read_media_file(toks: Seq<Token>, p: int, attrs: Seq<Attribute>) -> Option<(MediaFileV, int)> {
    text_then(
        toks,
        p,
        |t: Seq<char>|
            MediaFileV {
                url: t,
                mime_type: attr_or_empty(attrs, "type"@),
                codec: attr_lookup(attrs, "codec"@),
                bitrate: attr_u32(attrs, "bitrate"@),
                width: attr_u32(attrs, "width"@),
                height: attr_u32(attrs, "height"@),
                delivery: attr_lookup(attrs, "delivery"@),
                media_type: attr_lookup(attrs, "mediaType"@),
            },
    )
}

/// Continuing from `q`, the end of a child read from the start tag at `i`;
/// `None` where the child did not move forward.
pub open spec fn moved(i: int, q: int, len: int) -> bool {
    i < q <= len
}

pub open spec fn scan_extensions(toks: Seq<Token>, i: int, acc: Seq<ExtensionV>) -> Option<(Seq<ExtensionV>, int)>
    decreases toks.len() - i,
{
    if i < 0 || i >= toks.len() {
        None
    } else {
        match toks[i] {
            Token::Start(n, attrs) => if n@ == "Extension"@ {
                match read_extension(toks, i + 1, attrs@) {
                    Some((e, q)) => if moved(i, q, toks.len() as int) { scan_extensions(toks, q, acc.push(e)) } else { None },
                    None => None,
                }
            } else {
                scan_extensions(toks, i + 1, acc)
            },
            Token::End(n) => if n@ == "Extensions"@ { Some((acc, i + 1)) } else { scan_extensions(toks, i + 1, acc) },
            Token::Eof => None,
            Token::Fault => None,
            _ => scan_extensions(toks, i + 1, acc),
        }
    }
}

pub open spec fn scan_media_files(toks: Seq<Token>, i: int, acc: Seq<MediaFileV>) -> Option<(Seq<MediaFileV>, int)>
    decreases toks.len() - i,
{
    if i < 0 || i >= toks.len() {
        None
    } else {
        match toks[i] {
            Token::Start(n, attrs) => if n@ == "MediaFile"@ {
                match read_media_file(toks, i + 1, attrs@) {
                    Some((e, q)) => if moved(i, q, toks.len() as int) { scan_media_files(toks, q, acc.push(e)) } else { None },
                    None => None,
                }
            } else {
                scan_media_files(toks, i + 1, acc)
            },
            Token::End(n) => if n@ == "MediaFiles"@ { Some((acc, i + 1)) } else { scan_media_files(toks, i + 1, acc) },
            Token::Eof => None,
            Token::Fault => None,
            _ => scan_media_files(toks, i + 1, acc),
        }
    }
}

pub open spec fn scan_tracking_events(toks: Seq<Token>, i: int, acc: Seq<TrackingV>) -> Option<(Seq<TrackingV>, int)>
    decreases toks.len() - i,
{
    if i < 0 || i >= toks.len() {
        None
    } else {
        match toks[i] {
            Token::Start(n, attrs) => if n@ == "Tracking"@ {
                match read_tracking(toks, i + 1, attrs@) {
                    Some((e, q)) => if moved(i, q, toks.len() as int) { scan_tracking_events(toks, q, acc.push(e)) } else { None },
                    None => None,
                }
            } else {
                scan_tracking_events(toks, i + 1, acc)
            },
            Token::End(n) => if n@ == "TrackingEvents"@ { Some((acc, i + 1)) } else { scan_tracking_events(toks, i + 1, acc) },
            Token::Eof => None,
            Token::Fault => None,
            _ => scan_tracking_events(toks, i + 1, acc),
        }
    }
}

pub open spec fn scan_video_clicks(toks: Seq<Token>, i: int, acc: VideoClicksV) -> Option<(VideoClicksV, int)>
    decreases toks.len() - i,
{
    if i < 0 || i >= toks.len() {
        None
    } else {
        match toks[i] {
            Token::Start(n, _) => {
                let next = if n@ == "ClickThrough"@ {
                    text_then(toks, i + 1, |t: Seq<char>| VideoClicksV { click_through: Some(t), ..acc })
                } else if n@ == "ClickTracking"@ {
                    text_then(toks, i + 1, |t: Seq<char>| VideoClicksV { click_tracking: acc.click_tracking.push(t), ..acc })
                } else if n@ == "CustomClick"@ {
                    text_then(toks, i + 1, |t: Seq<char>| VideoClicksV { custom_click: acc.custom_click.push(t), ..acc })
                } else {
                    match scan_skip(toks, i + 1, n@, 1) {
                        Some(q) => Some((acc, q)),
                        None => None,
                    }
                };
                match next {
                    Some((a, q)) => if moved(i, q, toks.len() as int) { scan_video_clicks(toks, q, a) } else { None },
                    None => None,
                }
            },
            Token::End(n) => if n@ == "VideoClicks"@ { Some((acc, i + 1)) } else { scan_video_clicks(toks, i + 1, acc) },
            Token::Eof => None,
            Token::Fault => None,
            _ => scan_video_clicks(toks, i + 1, acc),
        }
    }
}

pub open spec fn no_clicks() -> VideoClicksV {
    VideoClicksV { click_through: None, click_tracking: Seq::empty(), custom_click: Seq::empty() }
}

pub open spec fn scan_linear(toks: Seq<Token>, i: int, acc: LinearV) -> Option<(LinearV, int)>
    decreases toks.len() - i,
{
    if i < 0 || i >= toks.len() {
        None
    } else {
        match toks[i] {
            Token::Start(n, _) => {
                let next = if n@ == "Duration"@ {
                    text_then(toks, i + 1, |t: Seq<char>| LinearV { duration: Some(t), ..acc })
                } else if n@ == "MediaFiles"@ {
                    match scan_media_files(toks, i + 1, Seq::empty()) {
                        Some((m, q)) => Some((LinearV { media_files: m, ..acc }, q)),
                        None => None,
                    }
                } else if n@ == "VideoClicks"@ {
                    match scan_video_clicks(toks, i + 1, no_clicks()) {
                        Some((v, q)) => Some((LinearV { video_clicks: Some(v), ..acc }, q)),
                        None => None,
                    }
                } else if n@ == "TrackingEvents"@ {
                    match scan_tracking_events(toks, i + 1, Seq::empty()) {
                        Some((e, q)) => Some((LinearV { tracking_events: e, ..acc }, q)),
                        None => None,
                    }
                } else {
                    match scan_skip(toks, i + 1, n@, 1) {
                        Some(q) => Some((acc, q)),
                        None => None,
                    }
                };
                match next {
                    Some((a, q)) => if moved(i, q, toks.len() as int) { scan_linear(toks, q, a) } else { None },
                    None => None,
                }
            },
            Token::End(n) => if n@ == "Linear"@ { Some((acc, i + 1)) } else { scan_linear(toks, i + 1, acc) },
            Token::Eof => None,
            Token::Fault => None,
            _ => scan_linear(toks, i + 1, acc),
        }
    }
}

pub open spec fn empty_linear() -> LinearV {
    LinearV { duration: None, media_files: Seq::empty(), video_clicks: None, tracking_events: Seq::empty() }
}

pub open spec fn scan_creative(toks: Seq<Token>, i: int, acc: CreativeV) -> Option<(CreativeV, int)>
    decreases toks.len() - i,
{
    if i < 0 || i >= toks.len() {
        None
    } else {
        match toks[i] {
            Token::Start(n, _) => {
                let next = if n@ == "Linear"@ {
                    match scan_linear(toks, i + 1, empty_linear()) {
                        Some((l, q)) => Some((CreativeV { linear: Some(l), ..acc }, q)),
                        None => None,
                    }
                } else if n@ == "CompanionAds"@ {
                    match scan_skip(toks, i + 1, "CompanionAds"@, 1) {
                        Some(q) => Some((CreativeV { companion_ads: Some(0), ..acc }, q)),
                        None => None,
                    }
                } else if n@ == "NonLinearAds"@ {
                    match scan_skip(toks, i + 1, "NonLinearAds"@, 1) {
                        Some(q) => Some((CreativeV { non_linear_ads: Some(0), ..acc }, q)),
                        None => None,
                    }
                } else {
                    match scan_skip(toks, i + 1, n@, 1) {
                        Some(q) => Some((acc, q)),
                        None => None,
                    }
                };
                match next {
                    Some((a, q)) => if moved(i, q, toks.len() as int) { scan_creative(toks, q, a) } else { None },
                    None => None,
                }
            },
            Token::End(n) => if n@ == "Creative"@ { Some((acc, i + 1)) } else { scan_creative(toks, i + 1, acc) },
            Token::Eof => None,
            Token::Fault => None,
            _ => scan_creative(toks, i + 1, acc),
        }
    }
}

/// A creative with only what its start tag's attributes give.
pub open spec fn creative_start(attrs: Seq<Attribute>) -> CreativeV {
    CreativeV {
        id: attr_lookup(attrs, "id"@),
        sequence: attr_u32(attrs, "sequence"@),
        ad_id: attr_lookup(attrs, "adId"@),
        api_framework: attr_lookup(attrs, "apiFramework"@),
        linear: None,
        companion_ads: None,
        non_linear_ads: None,
    }
}

pub open spec fn scan_creatives(toks: Seq<Token>, i: int, acc: Seq<CreativeV>) -> Option<(Seq<CreativeV>, int)>
    decreases toks.len() - i,
{
    if i < 0 || i >= toks.len() {
        None
    } else {
        match toks[i] {
            Token::Start(n, attrs) => if n@ == "Creative"@ {
                match scan_creative(toks, i + 1, creative_start(attrs@)) {
                    Some((e, q)) => if moved(i, q, toks.len() as int) { scan_creatives(toks, q, acc.push(e)) } else { None },
                    None => None,
                }
            } else {
                scan_creatives(toks, i + 1, acc)
            },
            Token::End(n) => if n@ == "Creatives"@ { Some((acc, i + 1)) } else { scan_creatives(toks, i + 1, acc) },
            Token::Eof => None,
            Token::Fault => None,
            _ => scan_creatives(toks, i + 1, acc),
        }
    }
}

pub open spec fn no_ad_system() -> AdSystemV {
    AdSystemV { name: Seq::empty(), version: None }
}

pub open spec fn scan_inline(toks: Seq<Token>, i: int, acc: InLineV) -> Option<(InLineV, int)>
    decreases toks.len() - i,
{
    if i < 0 || i >= toks.len() {
        None
    } else {
        match toks[i] {
            Token::Start(n, attrs) => {
                let next = if n@ == "AdSystem"@ {
                    match read_ad_system(toks, i + 1, attrs@) {
                        Some((s, q)) => Some((InLineV { ad_system: s, ..acc }, q)),
                        None => None,
                    }
                } else if n@ == "AdTitle"@ {
                    text_then(toks, i + 1, |t: Seq<char>| InLineV { ad_title: t, ..acc })
                } else if n@ == "Impression"@ {
                    match read_impression(toks, i + 1, attrs@) {
                        Some((m, q)) => Some((InLineV { impressions: acc.impressions.push(m), ..acc }, q)),
                        None => None,
                    }
                } else if n@ == "Description"@ {
                    text_then(toks, i + 1, |t: Seq<char>| InLineV { description: Some(t), ..acc })
                } else if n@ == "Advertiser"@ {
                    text_then(toks, i + 1, |t: Seq<char>| InLineV { advertiser: Some(t), ..acc })
                } else if n@ == "Survey"@ {
                    text_then(toks, i + 1, |t: Seq<char>| InLineV { survey: Some(t), ..acc })
                } else if n@ == "Error"@ {
                    text_then(toks, i + 1, |t: Seq<char>| InLineV { error: Some(t), ..acc })
                } else if n@ == "Pricing"@ {
                    match read_pricing(toks, i + 1, attrs@) {
                        Some((p, q)) => Some((InLineV { pricing: Some(p), ..acc }, q)),
                        None => None,
                    }
                } else if n@ == "Extensions"@ {
                    match scan_extensions(toks, i + 1, Seq::empty()) {
                        Some((e, q)) => Some((InLineV { extensions: e, ..acc }, q)),
                        None => None,
                    }
                } else if n@ == "Creatives"@ {
                    match scan_creatives(toks, i + 1, Seq::empty()) {
                        Some((c, q)) => Some((InLineV { creatives: c, ..acc }, q)),
                        None => None,
                    }
                } else {
                    match scan_skip(toks, i + 1, n@, 1) {
                        Some(q) => Some((acc, q)),
                        None => None,
                    }
                };
                match next {
                    Some((a, q)) => if moved(i, q, toks.len() as int) { scan_inline(toks, q, a) } else { None },
                    None => None,
                }
            },
            Token::End(n) => if n@ == "InLine"@ { Some((acc, i + 1)) } else { scan_inline(toks, i + 1, acc) },
            Token::Eof => None,
            Token::Fault => None,
            _ => scan_inline(toks, i + 1, acc),
        }
    }
}

pub open spec fn empty_inline() -> InLineV {
    InLineV {
        ad_system: no_ad_system(),
        ad_title: Seq::empty(),
        impressions: Seq::empty(),
        description: None,
        advertiser: None,
        survey: None,
        error: None,
        pricing: None,
        extensions: Seq::empty(),
        creatives: Seq::empty(),
    }
}

pub open spec fn scan_wrapper(toks: Seq<Token>, i: int, acc: WrapperV) -> Option<(WrapperV, int)>
    decreases toks.len() - i,
{
    if i < 0 || i >= toks.len() {
        None
    } else {
        match toks[i] {
            Token::Start(n, attrs) => {
                let next = if n@ == "AdSystem"@ {
                    match read_ad_system(toks, i + 1, attrs@) {
                        Some((s, q)) => Some((WrapperV { ad_system: s, ..acc }, q)),
                        None => None,
                    }
                } else if n@ == "VASTAdTagURI"@ {
                    text_then(toks, i + 1, |t: Seq<char>| WrapperV { vast_ad_tag_uri: t, ..acc })
                } else if n@ == "Impression"@ {
                    match read_impression(toks, i + 1, attrs@) {
                        Some((m, q)) => Some((WrapperV { impressions: acc.impressions.push(m), ..acc }, q)),
                        None => None,
                    }
                } else if n@ == "Error"@ {
                    text_then(toks, i + 1, |t: Seq<char>| WrapperV { error: Some(t), ..acc })
                } else if n@ == "Extensions"@ {
                    match scan_extensions(toks, i + 1, Seq::empty()) {
                        Some((e, q)) => Some((WrapperV { extensions: e, ..acc }, q)),
                        None => None,
                    }
                } else if n@ == "Creatives"@ {
                    match scan_creatives(toks, i + 1, Seq::empty()) {
                        Some((c, q)) => Some((WrapperV { creatives: c, ..acc }, q)),
                        None => None,
                    }
                } else {
                    match scan_skip(toks, i + 1, n@, 1) {
                        Some(q) => Some((acc, q)),
                        None => None,
                    }
                };
                match next {
                    Some((a, q)) => if moved(i, q, toks.len() as int) { scan_wrapper(toks, q, a) } else { None },
                    None => None,
                }
            },
            Token::End(n) => if n@ == "Wrapper"@ { Some((acc, i + 1)) } else { scan_wrapper(toks, i + 1, acc) },
            Token::Eof => None,
            Token::Fault => None,
            _ => scan_wrapper(toks, i + 1, acc),
        }
    }
}

pub open spec fn empty_wrapper() -> WrapperV {
    WrapperV {
        ad_system: no_ad_system(),
        vast_ad_tag_uri: Seq::empty(),
        impressions: Seq::empty(),
        error: None,
        extensions: Seq::empty(),
        creatives: Seq::empty(),
    }
}

pub open spec fn scan_ad(toks: Seq<Token>, i: int, acc: AdV) -> Option<(AdV, int)>
    decreases toks.len() - i,
{
    if i < 0 || i >= toks.len() {
        None
    } else {
        match toks[i] {
            Token::Start(n, _) => {
                let next = if n@ == "InLine"@ {
                    match scan_inline(toks, i + 1, empty_inline()) {
                        Some((v, q)) => Some((AdV { inline: Some(v), ..acc }, q)),
                        None => None,
                    }
                } else if n@ == "Wrapper"@ {
                    match scan_wrapper(toks, i + 1, empty_wrapper()) {
                        Some((v, q)) => Some((AdV { wrapper: Some(v), ..acc }, q)),
                        None => None,
                    }
                } else {
                    match scan_skip(toks, i + 1, n@, 1) {
                        Some(q) => Some((acc, q)),
                        None => None,
                    }
                };
                match next {
                    Some((a, q)) => if moved(i, q, toks.len() as int) { scan_ad(toks, q, a) } else { None },
                    None => None,
                }
            },
            Token::End(n) => if n@ == "Ad"@ { Some((acc, i + 1)) } else { scan_ad(toks, i + 1, acc) },
            Token::Eof => None,
            Token::Fault => None,
            _ => scan_ad(toks, i + 1, acc),
        }
    }
}

/// An ad with only what its start tag's attributes give.
pub open spec fn ad_start(attrs: Seq<Attribute>) -> AdV {
    AdV {
        id: attr_lookup(attrs, "id"@),
        sequence: attr_u32(attrs, "sequence"@),
        conditional_ad: attr_flag(attrs, "conditionalAd"@),
        inline: None,
        wrapper: None,
    }
}

/// The ads of the root element, read up to its end tag or the end of input.
pub open spec fn scan_ads(toks: Seq<Token>, i: int, acc: Seq<AdV>) -> Option<(Seq<AdV>, int)>
    decreases toks.len() - i,
{
    if i < 0 || i >= toks.len() {
        None
    } else {
        match toks[i] {
            Token::Start(n, attrs) => if n@ == "Ad"@ {
                match scan_ad(toks, i + 1, ad_start(attrs@)) {
                    Some((e, q)) => if moved(i, q, toks.len() as int) { scan_ads(toks, q, acc.push(e)) } else { None },
                    None => None,
                }
            } else {
                scan_ads(toks, i + 1, acc)
            },
            Token::End(n) => if n@ == "VAST"@ { Some((acc, i + 1)) } else { scan_ads(toks, i + 1, acc) },
            Token::Eof => Some((acc, i)),
            Token::Fault => None,
            _ => scan_ads(toks, i + 1, acc),
        }
    }
}

/// Outcome of reading one element of the document tree: the cursor has moved
/// forward and stays inside the stream, and a failure is a structural error.
pub open spec fn element_read<T>(toks: Seq<Token>, before: int, after: int, r: Result<T>) -> bool {
    &&& r is Ok ==> advanced(toks, before, after)
    &&& r is Err ==> r->Err_0 is XmlParseError
}

fn fault_error(t: &Token) -> (e: VastError)
    ensures
        e is XmlParseError,
{
    match t {
        Token::Eof => unexpected_end(),
        _ => structural("Malformed markup"),
    }
}

/// Reads an `AdSystem` element whose start tag, with `attrs`, was taken.
fn parse_ad_system(toks: &Vec<Token>, pos: &mut usize, attrs: &Vec<Attribute>) -> (r: Result<AdSystem>)
    requires
        cursor_ok(toks@, *old(pos) as int),
    ensures
        element_read(toks@, *old(pos) as int, *final(pos) as int, r),
        r is Ok ==> r->Ok_0.version == attr_lookup(attrs@, "version"@)
            && r->Ok_0.name@ == scan_text(toks@, *old(pos) as int, Seq::empty())->Some_0.0,
        well_formed(toks@) && after_start(toks@, *old(pos) as int) ==> r is Ok && read_inside(
            toks@,
            *old(pos) - 1,
            *final(pos) as int,
        ),
        read_ad_system(toks@, *old(pos) as int, attrs@) is Some <==> r is Ok,
        r is Ok ==> ad_system_v(r->Ok_0) == read_ad_system(toks@, *old(pos) as int, attrs@)->Some_0.0
            && *final(pos) as int == read_ad_system(toks@, *old(pos) as int, attrs@)->Some_0.1,
{
    let version = find_attr(attrs, "version");
    match read_text_element(toks, pos) {
        Ok(name) => Ok(AdSystem { name, version }),
        Err(e) => Err(e),
    }
}

/// Reads an `Impression` element whose start tag, with `attrs`, was taken.
fn parse_impression(toks: &Vec<Token>, pos: &mut usize, attrs: &Vec<Attribute>) -> (r: Result<Impression>)
    requires
        cursor_ok(toks@, *old(pos) as int),
    ensures
        element_read(toks@, *old(pos) as int, *final(pos) as int, r),
        r is Ok ==> r->Ok_0.id == attr_lookup(attrs@, "id"@)
            && r->Ok_0.url@ == scan_text(toks@, *old(pos) as int, Seq::empty())->Some_0.0,
        well_formed(toks@) && after_start(toks@, *old(pos) as int) ==> r is Ok && read_inside(
            toks@,
            *old(pos) - 1,
            *final(pos) as int,
        ),
        read_impression(toks@, *old(pos) as int, attrs@) is Some <==> r is Ok,
        r is Ok ==> impression_v(r->Ok_0) == read_impression(toks@, *old(pos) as int, attrs@)->Some_0.0
            && *final(pos) as int == read_impression(toks@, *old(pos) as int, attrs@)->Some_0.1,
{
    let id = find_attr(attrs, "id");
    match read_text_element(toks, pos) {
        Ok(url) => Ok(Impression { id, url }),
        Err(e) => Err(e),
    }
}

/// Reads a `Pricing` element whose start tag, with `attrs`, was taken.
fn parse_pricing(toks: &Vec<Token>, pos: &mut usize, attrs: &Vec<Attribute>) -> (r: Result<Pricing>)
    requires
        cursor_ok(toks@, *old(pos) as int),
    ensures
        element_read(toks@, *old(pos) as int, *final(pos) as int, r),
        r is Ok ==> r->Ok_0.model@ == attr_or_empty(attrs@, "model"@)
            && r->Ok_0.currency@ == attr_or_empty(attrs@, "currency"@)
            && r->Ok_0.value@ == scan_text(toks@, *old(pos) as int, Seq::empty())->Some_0.0,
        well_formed(toks@) && after_start(toks@, *old(pos) as int) ==> r is Ok && read_inside(
            toks@,
            *old(pos) - 1,
            *final(pos) as int,
        ),
        read_pricing(toks@, *old(pos) as int, attrs@) is Some <==> r is Ok,
        r is Ok ==> pricing_v(r->Ok_0) == read_pricing(toks@, *old(pos) as int, attrs@)->Some_0.0
            && *final(pos) as int == read_pricing(toks@, *old(pos) as int, attrs@)->Some_0.1,
{
    let model = attr_or_default(attrs, "model");
    let currency = attr_or_default(attrs, "currency");
    match read_text_element(toks, pos) {
        Ok(value) => Ok(Pricing { model, currency, value }),
        Err(e) => Err(e),
    }
}

/// Reads an `Extension` element whose start tag, with `attrs`, was taken;
/// only its text is kept.
fn parse_extension(toks: &Vec<Token>, pos: &mut usize, attrs: &Vec<Attribute>) -> (r: Result<Extension>)
    requires
        cursor_ok(toks@, *old(pos) as int),
    ensures
        element_read(toks@, *old(pos) as int, *final(pos) as int, r),
        r is Ok ==> r->Ok_0.extension_type == attr_lookup(attrs@, "type"@)
            && r->Ok_0.content@ == scan_text(toks@, *old(pos) as int, Seq::empty())->Some_0.0,
        well_formed(toks@) && after_start(toks@, *old(pos) as int) ==> r is Ok && read_inside(
            toks@,
            *old(pos) - 1,
            *final(pos) as int,
        ),
        read_extension(toks@, *old(pos) as int, attrs@) is Some <==> r is Ok,
        r is Ok ==> extension_v(r->Ok_0) == read_extension(toks@, *old(pos) as int, attrs@)->Some_0.0
            && *final(pos) as int == read_extension(toks@, *old(pos) as int, attrs@)->Some_0.1,
{
    let extension_type = find_attr(attrs, "type");
    match read_text_element(toks, pos) {
        Ok(content) => Ok(Extension { extension_type, content }),
        Err(e) => Err(e),
    }
}

/// Reads a `Tracking` element whose start tag, with `attrs`, was taken.
fn parse_tracking_event(toks: &Vec<Token>, pos: &mut usize, attrs: &Vec<Attribute>) -> (r: Result<TrackingEvent>)
    requires
        cursor_ok(toks@, *old(pos) as int),
    ensures
        element_read(toks@, *old(pos) as int, *final(pos) as int, r),
        r is Ok ==> r->Ok_0.event@ == attr_or_empty(attrs@, "event"@)
            && r->Ok_0.url@ == scan_text(toks@, *old(pos) as int, Seq::empty())->Some_0.0,
        well_formed(toks@) && after_start(toks@, *old(pos) as int) ==> r is Ok && read_inside(
            toks@,
            *old(pos) - 1,
            *final(pos) as int,
        ),
        read_tracking(toks@, *old(pos) as int, attrs@) is Some <==> r is Ok,
        r is Ok ==> tracking_v(r->Ok_0) == read_tracking(toks@, *old(pos) as int, attrs@)->Some_0.0
            && *final(pos) as int == read_tracking(toks@, *old(pos) as int, attrs@)->Some_0.1,
{
    let event = attr_or_default(attrs, "event");
    match read_text_element(toks, pos) {
        Ok(url) => Ok(TrackingEvent { event, url }),
        Err(e) => Err(e),
    }
}

/// Reads a `MediaFile` element whose start tag, with `attrs`, was taken.
fn parse_media_file(toks: &Vec<Token>, pos: &mut usize, attrs: &Vec<Attribute>) -> (r: Result<MediaFile>)
    requires
        cursor_ok(toks@, *old(pos) as int),
    ensures
        element_read(toks@, *old(pos) as int, *final(pos) as int, r),
        r is Ok ==> {
            let m = r->Ok_0;
            &&& m.mime_type@ == attr_or_empty(attrs@, "type"@)
            &&& m.codec == attr_lookup(attrs@, "codec"@)
            &&& m.bitrate == attr_u32(attrs@, "bitrate"@)
            &&& m.width == attr_u32(attrs@, "width"@)
            &&& m.height == attr_u32(attrs@, "height"@)
            &&& m.delivery == attr_lookup(attrs@, "delivery"@)
            &&& m.media_type == attr_lookup(attrs@, "mediaType"@)
            &&& m.url@ == scan_text(toks@, *old(pos) as int, Seq::empty())->Some_0.0
        },
        well_formed(toks@) && after_start(toks@, *old(pos) as int) ==> r is Ok && read_inside(
            toks@,
            *old(pos) - 1,
            *final(pos) as int,
        ),
        read_media_file(toks@, *old(pos) as int, attrs@) is Some <==> r is Ok,
        r is Ok ==> media_file_v(r->Ok_0) == read_media_file(toks@, *old(pos) as int, attrs@)->Some_0.0
            && *final(pos) as int == read_media_file(toks@, *old(pos) as int, attrs@)->Some_0.1,
{
    let mime_type = attr_or_default(attrs, "type");
    let codec = find_attr(attrs, "codec");
    let bitrate = find_u32_attr(attrs, "bitrate");
    let width = find_u32_attr(attrs, "width");
    let height = find_u32_attr(attrs, "height");
    let delivery = find_attr(attrs, "delivery");
    let media_type = find_attr(attrs, "mediaType");
    match read_text_element(toks, pos) {
        Ok(url) => Ok(MediaFile { url, mime_type, codec, bitrate, width, height, delivery, media_type }),
        Err(e) => Err(e),
    }
}


fn is_stop_token(t: &Token) -> (r: bool)
    ensures
        r == is_stop(*t),
{
    match t {
        Token::Eof => true,
        Token::Fault => true,
        _ => false,
    }
}

/// Reads a `Extensions` element whose start tag was taken: each `Extension` child in
/// order; other tokens inside are passed over.
fn parse_extensions(toks: &Vec<Token>, pos: &mut usize) -> (r: Result<Vec<Extension>>)
    requires
        cursor_ok(toks@, *old(pos) as int),
    ensures
        element_read(toks@, *old(pos) as int, *final(pos) as int, r),
        well_formed(toks@) && after_start(toks@, *old(pos) as int)
            && is_start_named(toks@[*old(pos) - 1], "Extensions"@)
            ==> r is Ok && read_inside(toks@, *old(pos) - 1, *final(pos) as int),
        scan_extensions(toks@, *old(pos) as int, Seq::empty()) is Some <==> r is Ok,
        r is Ok ==> extensions_v(r->Ok_0@) == scan_extensions(toks@, *old(pos) as int, Seq::empty())->Some_0.0
            && *final(pos) as int == scan_extensions(toks@, *old(pos) as int, Seq::empty())->Some_0.1,
{
    let mut items: Vec<Extension> = Vec::new();
    assert(extensions_v(items@) =~= Seq::empty());
    let ghost s = *pos as int - 1;
    let ghost g = well_formed(toks@) && after_start(toks@, *pos as int)
        && is_start_named(toks@[*pos - 1], "Extensions"@);
    proof {
        if g {
            lemma_within_start(toks@, s);
        }
    }
    loop
        invariant
            s == *old(pos) as int - 1,
            g == (well_formed(toks@) && after_start(toks@, *old(pos) as int)
                && is_start_named(toks@[*old(pos) - 1], "Extensions"@)),
            g ==> within(toks@, s, *pos as int),
            scan_extensions(toks@, *old(pos) as int, Seq::empty()) == scan_extensions(toks@, *pos as int, extensions_v(items@)),
            cursor_ok(toks@, *pos as int),
            *pos < toks.len(),
            *old(pos) <= *pos,
        decreases toks@.len() - *pos,
    {
        let i = *pos;
        let ghost v0 = extensions_v(items@);
        let t = &toks[i];
        assert(t == toks@[i as int]);
        proof {
            if g {
                lemma_within_not_eof(toks@, s, i as int);
            }
        }
        assert(t == toks@[i as int]);
        if is_stop_token(t) {
            return Err(fault_error(t));
        }
        *pos = i + 1;
        match t {
            Token::Start(name, attrs) => {
                if text_eq(name.as_str(), "Extension") {
                    match parse_extension(toks, pos, attrs) {
                        Ok(v) => {
                            let ghost vv = extension_v(v);
                            items.push(v);
                            assert(extensions_v(items@) =~= v0.push(vv));
                        },
                        Err(e) => return Err(e),
                    }
                    proof {
                        if g {
                            lemma_within_child(toks@, s, i as int, *pos as int);
                        }
                    }
                } else {
                    proof {
                        if g {
                            lemma_within_start_tag(toks@, s, i as int);
                        }
                    }
                }
            },
            Token::End(name) => {
                if text_eq(name.as_str(), "Extensions") {
                    return Ok(items);
                } else {
                    proof {
                        if g {
                            lemma_within_end_tag(toks@, s, i as int);
                        }
                    }
                }
            },
            _ => {
                proof {
                    if g {
                        lemma_within_other(toks@, s, i as int);
                    }
                }
            },
        }
        assert(scan_extensions(toks@, i as int, v0) == scan_extensions(toks@, *pos as int, extensions_v(items@)));
    }
}

/// Reads a `MediaFiles` element whose start tag was taken: each `MediaFile` child in
/// order; other tokens inside are passed over.
fn parse_media_files(toks: &Vec<Token>, pos: &mut usize) -> (r: Result<Vec<MediaFile>>)
    requires
        cursor_ok(toks@, *old(pos) as int),
    ensures
        element_read(toks@, *old(pos) as int, *final(pos) as int, r),
        well_formed(toks@) && after_start(toks@, *old(pos) as int)
            && is_start_named(toks@[*old(pos) - 1], "MediaFiles"@)
            ==> r is Ok && read_inside(toks@, *old(pos) - 1, *final(pos) as int),
        scan_media_files(toks@, *old(pos) as int, Seq::empty()) is Some <==> r is Ok,
        r is Ok ==> media_files_v(r->Ok_0@) == scan_media_files(toks@, *old(pos) as int, Seq::empty())->Some_0.0
            && *final(pos) as int == scan_media_files(toks@, *old(pos) as int, Seq::empty())->Some_0.1,
{
    let mut items: Vec<MediaFile> = Vec::new();
    assert(media_files_v(items@) =~= Seq::empty());
    let ghost s = *pos as int - 1;
    let ghost g = well_formed(toks@) && after_start(toks@, *pos as int)
        && is_start_named(toks@[*pos - 1], "MediaFiles"@);
    proof {
        if g {
            lemma_within_start(toks@, s);
        }
    }
    loop
        invariant
            s == *old(pos) as int - 1,
            g == (well_formed(toks@) && after_start(toks@, *old(pos) as int)
                && is_start_named(toks@[*old(pos) - 1], "MediaFiles"@)),
            g ==> within(toks@, s, *pos as int),
            scan_media_files(toks@, *old(pos) as int, Seq::empty()) == scan_media_files(toks@, *pos as int, media_files_v(items@)),
            cursor_ok(toks@, *pos as int),
            *pos < toks.len(),
            *old(pos) <= *pos,
        decreases toks@.len() - *pos,
    {
        let i = *pos;
        let ghost v0 = media_files_v(items@);
        let t = &toks[i];
        assert(t == toks@[i as int]);
        proof {
            if g {
                lemma_within_not_eof(toks@, s, i as int);
            }
        }
        assert(t == toks@[i as int]);
        if is_stop_token(t) {
            return Err(fault_error(t));
        }
        *pos = i + 1;
        match t {
            Token::Start(name, attrs) => {
                if text_eq(name.as_str(), "MediaFile") {
                    match parse_media_file(toks, pos, attrs) {
                        Ok(v) => {
                            let ghost vv = media_file_v(v);
                            items.push(v);
                            assert(media_files_v(items@) =~= v0.push(vv));
                        },
                        Err(e) => return Err(e),
                    }
                    proof {
                        if g {
                            lemma_within_child(toks@, s, i as int, *pos as int);
                        }
                    }
                } else {
                    proof {
                        if g {
                            lemma_within_start_tag(toks@, s, i as int);
                        }
                    }
                }
            },
            Token::End(name) => {
                if text_eq(name.as_str(), "MediaFiles") {
                    return Ok(items);
                } else {
                    proof {
                        if g {
                            lemma_within_end_tag(toks@, s, i as int);
                        }
                    }
                }
            },
            _ => {
                proof {
                    if g {
                        lemma_within_other(toks@, s, i as int);
                    }
                }
            },
        }
        assert(scan_media_files(toks@, i as int, v0) == scan_media_files(toks@, *pos as int, media_files_v(items@)));
    }
}

/// Reads a `TrackingEvents` element whose start tag was taken: each `Tracking` child in
/// order; other tokens inside are passed over.
fn parse_tracking_events(toks: &Vec<Token>, pos: &mut usize) -> (r: Result<Vec<TrackingEvent>>)
    requires
        cursor_ok(toks@, *old(pos) as int),
    ensures
        element_read(toks@, *old(pos) as int, *final(pos) as int, r),
        well_formed(toks@) && after_start(toks@, *old(pos) as int)
            && is_start_named(toks@[*old(pos) - 1], "TrackingEvents"@)
            ==> r is Ok && read_inside(toks@, *old(pos) - 1, *final(pos) as int),
        scan_tracking_events(toks@, *old(pos) as int, Seq::empty()) is Some <==> r is Ok,
        r is Ok ==> trackings_v(r->Ok_0@) == scan_tracking_events(toks@, *old(pos) as int, Seq::empty())->Some_0.0
            && *final(pos) as int == scan_tracking_events(toks@, *old(pos) as int, Seq::empty())->Some_0.1,
{
    let mut items: Vec<TrackingEvent> = Vec::new();
    assert(trackings_v(items@) =~= Seq::empty());
    let ghost s = *pos as int - 1;
    let ghost g = well_formed(toks@) && after_start(toks@, *pos as int)
        && is_start_named(toks@[*pos - 1], "TrackingEvents"@);
    proof {
        if g {
            lemma_within_start(toks@, s);
        }
    }
    loop
        invariant
            s == *old(pos) as int - 1,
            g == (well_formed(toks@) && after_start(toks@, *old(pos) as int)
                && is_start_named(toks@[*old(pos) - 1], "TrackingEvents"@)),
            g ==> within(toks@, s, *pos as int),
            scan_tracking_events(toks@, *old(pos) as int, Seq::empty()) == scan_tracking_events(toks@, *pos as int, trackings_v(items@)),
            cursor_ok(toks@, *pos as int),
            *pos < toks.len(),
            *old(pos) <= *pos,
        decreases toks@.len() - *pos,
    {
        let i = *pos;
        let ghost v0 = trackings_v(items@);
        let t = &toks[i];
        assert(t == toks@[i as int]);
        proof {
            if g {
                lemma_within_not_eof(toks@, s, i as int);
            }
        }
        assert(t == toks@[i as int]);
        if is_stop_token(t) {
            return Err(fault_error(t));
        }
        *pos = i + 1;
        match t {
            Token::Start(name, attrs) => {
                if text_eq(name.as_str(), "Tracking") {
                    match parse_tracking_event(toks, pos, attrs) {
                        Ok(v) => {
                            let ghost vv = tracking_v(v);
                            items.push(v);
                            assert(trackings_v(items@) =~= v0.push(vv));
                        },
                        Err(e) => return Err(e),
                    }
                    proof {
                        if g {
                            lemma_within_child(toks@, s, i as int, *pos as int);
                        }
                    }
                } else {
                    proof {
                        if g {
                            lemma_within_start_tag(toks@, s, i as int);
                        }
                    }
                }
            },
            Token::End(name) => {
                if text_eq(name.as_str(), "TrackingEvents") {
                    return Ok(items);
                } else {
                    proof {
                        if g {
                            lemma_within_end_tag(toks@, s, i as int);
                        }
                    }
                }
            },
            _ => {
                proof {
                    if g {
                        lemma_within_other(toks@, s, i as int);
                    }
                }
            },
        }
        assert(scan_tracking_events(toks@, i as int, v0) == scan_tracking_events(toks@, *pos as int, trackings_v(items@)));
    }
}


/// Reads a `VideoClicks` element whose start tag was taken.
fn parse_video_clicks(toks: &Vec<Token>, pos: &mut usize) -> (r: Result<VideoClicks>)
    requires
        cursor_ok(toks@, *old(pos) as int),
    ensures
        element_read(toks@, *old(pos) as int, *final(pos) as int, r),
        well_formed(toks@) && after_start(toks@, *old(pos) as int)
            && is_start_named(toks@[*old(pos) - 1], "VideoClicks"@)
            ==> r is Ok && read_inside(toks@, *old(pos) - 1, *final(pos) as int),
        scan_video_clicks(toks@, *old(pos) as int, no_clicks()) is Some <==> r is Ok,
        r is Ok ==> video_clicks_v(r->Ok_0) == scan_video_clicks(toks@, *old(pos) as int, no_clicks())->Some_0.0
            && *final(pos) as int == scan_video_clicks(toks@, *old(pos) as int, no_clicks())->Some_0.1,
{
    let mut clicks = VideoClicks { click_through: None, click_tracking: Vec::new(), custom_click: Vec::new() };
    assert(texts_v(clicks.click_tracking@) =~= Seq::empty());
    assert(texts_v(clicks.custom_click@) =~= Seq::empty());
    let ghost s = *pos as int - 1;
    let ghost g = well_formed(toks@) && after_start(toks@, *pos as int)
        && is_start_named(toks@[*pos - 1], "VideoClicks"@);
    proof {
        if g {
            lemma_within_start(toks@, s);
        }
    }
    loop
        invariant
            s == *old(pos) as int - 1,
            g == (well_formed(toks@) && after_start(toks@, *old(pos) as int)
                && is_start_named(toks@[*old(pos) - 1], "VideoClicks"@)),
            g ==> within(toks@, s, *pos as int),
            scan_video_clicks(toks@, *old(pos) as int, no_clicks()) == scan_video_clicks(toks@, *pos as int, video_clicks_v(clicks)),
            cursor_ok(toks@, *pos as int),
            *pos < toks.len(),
            *old(pos) <= *pos,
        decreases toks@.len() - *pos,
    {
        let i = *pos;
        let ghost v0 = video_clicks_v(clicks);
        let t = &toks[i];
        assert(t == toks@[i as int]);
        proof {
            if g {
                lemma_within_not_eof(toks@, s, i as int);
            }
        }
        if is_stop_token(t) {
            return Err(fault_error(t));
        }
        *pos = i + 1;
        match t {
            Token::Start(name, _) => {
                let n = name.as_str();
                if text_eq(n, "ClickThrough") {
                    match read_text_element(toks, pos) {
                        Ok(v) => clicks.click_through = Some(v),
                        Err(e) => return Err(e),
                    }
                } else if text_eq(n, "ClickTracking") {
                    match read_text_element(toks, pos) {
                        Ok(v) => {
                            let ghost vv = v@;
                            clicks.click_tracking.push(v);
                            assert(texts_v(clicks.click_tracking@) =~= v0.click_tracking.push(vv));
                        },
                        Err(e) => return Err(e),
                    }
                } else if text_eq(n, "CustomClick") {
                    match read_text_element(toks, pos) {
                        Ok(v) => {
                            let ghost vv = v@;
                            clicks.custom_click.push(v);
                            assert(texts_v(clicks.custom_click@) =~= v0.custom_click.push(vv));
                        },
                        Err(e) => return Err(e),
                    }
                } else {
                    match skip_element(toks, pos, n) {
                        Ok(()) => {},
                        Err(e) => return Err(e),
                    }
                }
                proof {
                    if g {
                        lemma_within_child(toks@, s, i as int, *pos as int);
                    }
                }
            },
            Token::End(name) => {
                if text_eq(name.as_str(), "VideoClicks") {
                    return Ok(clicks);
                } else {
                    proof {
                        if g {
                            lemma_within_end_tag(toks@, s, i as int);
                        }
                    }
                }
            },
            _ => {
                proof {
                    if g {
                        lemma_within_other(toks@, s, i as int);
                    }
                }
            },
        }
        assert(scan_video_clicks(toks@, i as int, v0) == scan_video_clicks(toks@, *pos as int, video_clicks_v(clicks)));
    }
}

/// Reads a `Linear` element whose start tag was taken.
fn parse_linear(toks: &Vec<Token>, pos: &mut usize) -> (r: Result<Linear>)
    requires
        cursor_ok(toks@, *old(pos) as int),
    ensures
        element_read(toks@, *old(pos) as int, *final(pos) as int, r),
        well_formed(toks@) && after_start(toks@, *old(pos) as int)
            && is_start_named(toks@[*old(pos) - 1], "Linear"@)
            ==> r is Ok && read_inside(toks@, *old(pos) - 1, *final(pos) as int),
        scan_linear(toks@, *old(pos) as int, empty_linear()) is Some <==> r is Ok,
        r is Ok ==> linear_v(r->Ok_0) == scan_linear(toks@, *old(pos) as int, empty_linear())->Some_0.0
            && *final(pos) as int == scan_linear(toks@, *old(pos) as int, empty_linear())->Some_0.1,
{
    let mut linear = Linear { duration: None, media_files: Vec::new(), video_clicks: None, tracking_events: Vec::new() };
    assert(media_files_v(linear.media_files@) =~= Seq::empty());
    assert(trackings_v(linear.tracking_events@) =~= Seq::empty());
    let ghost s = *pos as int - 1;
    let ghost g = well_formed(toks@) && after_start(toks@, *pos as int)
        && is_start_named(toks@[*pos - 1], "Linear"@);
    proof {
        if g {
            lemma_within_start(toks@, s);
        }
    }
    loop
        invariant
            s == *old(pos) as int - 1,
            g == (well_formed(toks@) && after_start(toks@, *old(pos) as int)
                && is_start_named(toks@[*old(pos) - 1], "Linear"@)),
            g ==> within(toks@, s, *pos as int),
            scan_linear(toks@, *old(pos) as int, empty_linear()) == scan_linear(toks@, *pos as int, linear_v(linear)),
            cursor_ok(toks@, *pos as int),
            *pos < toks.len(),
            *old(pos) <= *pos,
        decreases toks@.len() - *pos,
    {
        let i = *pos;
        let ghost v0 = linear_v(linear);
        let t = &toks[i];
        assert(t == toks@[i as int]);
        proof {
            if g {
                lemma_within_not_eof(toks@, s, i as int);
            }
        }
        if is_stop_token(t) {
            return Err(fault_error(t));
        }
        *pos = i + 1;
        match t {
            Token::Start(name, _) => {
                let n = name.as_str();
                if text_eq(n, "Duration") {
                    match read_text_element(toks, pos) {
                        Ok(v) => linear.duration = Some(v),
                        Err(e) => return Err(e),
                    }
                } else if text_eq(n, "MediaFiles") {
                    match parse_media_files(toks, pos) {
                        Ok(v) => linear.media_files = v,
                        Err(e) => return Err(e),
                    }
                } else if text_eq(n, "VideoClicks") {
                    match parse_video_clicks(toks, pos) {
                        Ok(v) => linear.video_clicks = Some(v),
                        Err(e) => return Err(e),
                    }
                } else if text_eq(n, "TrackingEvents") {
                    match parse_tracking_events(toks, pos) {
                        Ok(v) => linear.tracking_events = v,
                        Err(e) => return Err(e),
                    }
                } else {
                    match skip_element(toks, pos, n) {
                        Ok(()) => {},
                        Err(e) => return Err(e),
                    }
                }
                proof {
                    if g {
                        lemma_within_child(toks@, s, i as int, *pos as int);
                    }
                }
            },
            Token::End(name) => {
                if text_eq(name.as_str(), "Linear") {
                    return Ok(linear);
                } else {
                    proof {
                        if g {
                            lemma_within_end_tag(toks@, s, i as int);
                        }
                    }
                }
            },
            _ => {
                proof {
                    if g {
                        lemma_within_other(toks@, s, i as int);
                    }
                }
            },
        }
        assert(scan_linear(toks@, i as int, v0) == scan_linear(toks@, *pos as int, linear_v(linear)));
    }
}

/// Reads a `CompanionAds` element whose start tag was taken. Its contents are
/// skipped: the companions are not read.
fn parse_companion_ads(toks: &Vec<Token>, pos: &mut usize) -> (r: Result<CompanionAds>)
    requires
        cursor_ok(toks@, *old(pos) as int),
    ensures
        element_read(toks@, *old(pos) as int, *final(pos) as int, r),
        r is Ok ==> r->Ok_0.companions@.len() == 0,
        well_formed(toks@) && after_start(toks@, *old(pos) as int)
            && is_start_named(toks@[*old(pos) - 1], "CompanionAds"@)
            ==> r is Ok && read_inside(toks@, *old(pos) - 1, *final(pos) as int),
        scan_skip(toks@, *old(pos) as int, "CompanionAds"@, 1) is Some <==> r is Ok,
        r is Ok ==> *final(pos) as int == scan_skip(toks@, *old(pos) as int, "CompanionAds"@, 1)->Some_0,
{
    match skip_element(toks, pos, "CompanionAds") {
        Ok(()) => Ok(CompanionAds { companions: Vec::new() }),
        Err(e) => Err(e),
    }
}

/// Reads a `NonLinearAds` element whose start tag was taken. Its contents are
/// skipped: the non-linear ads are not read.
fn parse_non_linear_ads(toks: &Vec<Token>, pos: &mut usize) -> (r: Result<NonLinearAds>)
    requires
        cursor_ok(toks@, *old(pos) as int),
    ensures
        element_read(toks@, *old(pos) as int, *final(pos) as int, r),
        r is Ok ==> r->Ok_0.non_linears@.len() == 0,
        well_formed(toks@) && after_start(toks@, *old(pos) as int)
            && is_start_named(toks@[*old(pos) - 1], "NonLinearAds"@)
            ==> r is Ok && read_inside(toks@, *old(pos) - 1, *final(pos) as int),
        scan_skip(toks@, *old(pos) as int, "NonLinearAds"@, 1) is Some <==> r is Ok,
        r is Ok ==> *final(pos) as int == scan_skip(toks@, *old(pos) as int, "NonLinearAds"@, 1)->Some_0,
{
    match skip_element(toks, pos, "NonLinearAds") {
        Ok(()) => Ok(NonLinearAds { non_linears: Vec::new() }),
        Err(e) => Err(e),
    }
}

/// Reads a `Creative` element whose start tag, with `attrs`, was taken.
fn parse_creative(toks: &Vec<Token>, pos: &mut usize, attrs: &Vec<Attribute>) -> (r: Result<Creative>)
    requires
        cursor_ok(toks@, *old(pos) as int),
    ensures
        element_read(toks@, *old(pos) as int, *final(pos) as int, r),
        r is Ok ==> {
            let c = r->Ok_0;
            &&& c.id == attr_lookup(attrs@, "id"@)
            &&& c.sequence == attr_u32(attrs@, "sequence"@)
            &&& c.ad_id == attr_lookup(attrs@, "adId"@)
            &&& c.api_framework == attr_lookup(attrs@, "apiFramework"@)
        },
        well_formed(toks@) && after_start(toks@, *old(pos) as int)
            && is_start_named(toks@[*old(pos) - 1], "Creative"@)
            ==> r is Ok && read_inside(toks@, *old(pos) - 1, *final(pos) as int),
        scan_creative(toks@, *old(pos) as int, creative_start(attrs@)) is Some <==> r is Ok,
        r is Ok ==> creative_v(r->Ok_0) == scan_creative(toks@, *old(pos) as int, creative_start(attrs@))->Some_0.0
            && *final(pos) as int == scan_creative(toks@, *old(pos) as int, creative_start(attrs@))->Some_0.1,
{
    let mut creative = Creative {
        id: find_attr(attrs, "id"),
        sequence: find_u32_attr(attrs, "sequence"),
        ad_id: find_attr(attrs, "adId"),
        api_framework: find_attr(attrs, "apiFramework"),
        linear: None,
        companion_ads: None,
        non_linear_ads: None,
    };
    let ghost s = *pos as int - 1;
    let ghost g = well_formed(toks@) && after_start(toks@, *pos as int)
        && is_start_named(toks@[*pos - 1], "Creative"@);
    proof {
        if g {
            lemma_within_start(toks@, s);
        }
    }
    loop
        invariant
            s == *old(pos) as int - 1,
            g == (well_formed(toks@) && after_start(toks@, *old(pos) as int)
                && is_start_named(toks@[*old(pos) - 1], "Creative"@)),
            g ==> within(toks@, s, *pos as int),
            scan_creative(toks@, *old(pos) as int, creative_start(attrs@)) == scan_creative(toks@, *pos as int, creative_v(creative)),
            cursor_ok(toks@, *pos as int),
            *pos < toks.len(),
            *old(pos) <= *pos,
            creative.id == attr_lookup(attrs@, "id"@),
            creative.sequence == attr_u32(attrs@, "sequence"@),
            creative.ad_id == attr_lookup(attrs@, "adId"@),
            creative.api_framework == attr_lookup(attrs@, "apiFramework"@),
        decreases toks@.len() - *pos,
    {
        let i = *pos;
        let ghost v0 = creative_v(creative);
        let t = &toks[i];
        assert(t == toks@[i as int]);
        proof {
            if g {
                lemma_within_not_eof(toks@, s, i as int);
            }
        }
        if is_stop_token(t) {
            return Err(fault_error(t));
        }
        *pos = i + 1;
        match t {
            Token::Start(name, _) => {
                let n = name.as_str();
                if text_eq(n, "Linear") {
                    match parse_linear(toks, pos) {
                        Ok(v) => creative.linear = Some(v),
                        Err(e) => return Err(e),
                    }
                } else if text_eq(n, "CompanionAds") {
                    match parse_companion_ads(toks, pos) {
                        Ok(v) => creative.companion_ads = Some(v),
                        Err(e) => return Err(e),
                    }
                } else if text_eq(n, "NonLinearAds") {
                    match parse_non_linear_ads(toks, pos) {
                        Ok(v) => creative.non_linear_ads = Some(v),
                        Err(e) => return Err(e),
                    }
                } else {
                    match skip_element(toks, pos, n) {
                        Ok(()) => {},
                        Err(e) => return Err(e),
                    }
                }
                proof {
                    if g {
                        lemma_within_child(toks@, s, i as int, *pos as int);
                    }
                }
            },
            Token::End(name) => {
                if text_eq(name.as_str(), "Creative") {
                    return Ok(creative);
                } else {
                    proof {
                        if g {
                            lemma_within_end_tag(toks@, s, i as int);
                        }
                    }
                }
            },
            _ => {
                proof {
                    if g {
                        lemma_within_other(toks@, s, i as int);
                    }
                }
            },
        }
        assert(scan_creative(toks@, i as int, v0) == scan_creative(toks@, *pos as int, creative_v(creative)));
    }
}

/// Reads a `Creatives` element whose start tag was taken: each `Creative`
/// child in order; other tokens inside are passed over.
fn parse_creatives(toks: &Vec<Token>, pos: &mut usize) -> (r: Result<Vec<Creative>>)
    requires
        cursor_ok(toks@, *old(pos) as int),
    ensures
        element_read(toks@, *old(pos) as int, *final(pos) as int, r),
        well_formed(toks@) && after_start(toks@, *old(pos) as int)
            && is_start_named(toks@[*old(pos) - 1], "Creatives"@)
            ==> r is Ok && read_inside(toks@, *old(pos) - 1, *final(pos) as int),
        scan_creatives(toks@, *old(pos) as int, Seq::empty()) is Some <==> r is Ok,
        r is Ok ==> creatives_v(r->Ok_0@) == scan_creatives(toks@, *old(pos) as int, Seq::empty())->Some_0.0
            && *final(pos) as int == scan_creatives(toks@, *old(pos) as int, Seq::empty())->Some_0.1,
{
    let mut items: Vec<Creative> = Vec::new();
    assert(creatives_v(items@) =~= Seq::empty());
    let ghost s = *pos as int - 1;
    let ghost g = well_formed(toks@) && after_start(toks@, *pos as int)
        && is_start_named(toks@[*pos - 1], "Creatives"@);
    proof {
        if g {
            lemma_within_start(toks@, s);
        }
    }
    loop
        invariant
            s == *old(pos) as int - 1,
            g == (well_formed(toks@) && after_start(toks@, *old(pos) as int)
                && is_start_named(toks@[*old(pos) - 1], "Creatives"@)),
            g ==> within(toks@, s, *pos as int),
            scan_creatives(toks@, *old(pos) as int, Seq::empty()) == scan_creatives(toks@, *pos as int, creatives_v(items@)),
            cursor_ok(toks@, *pos as int),
            *pos < toks.len(),
            *old(pos) <= *pos,
        decreases toks@.len() - *pos,
    {
        let i = *pos;
        let ghost v0 = creatives_v(items@);
        let t = &toks[i];
        assert(t == toks@[i as int]);
        proof {
            if g {
                lemma_within_not_eof(toks@, s, i as int);
            }
        }
        if is_stop_token(t) {
            return Err(fault_error(t));
        }
        *pos = i + 1;
        match t {
            Token::Start(name, attrs) => {
                if text_eq(name.as_str(), "Creative") {
                    match parse_creative(toks, pos, attrs) {
                        Ok(v) => {
                            let ghost vv = creative_v(v);
                            items.push(v);
                            assert(creatives_v(items@) =~= v0.push(vv));
                        },
                        Err(e) => return Err(e),
                    }
                    proof {
                        if g {
                            lemma_within_child(toks@, s, i as int, *pos as int);
                        }
                    }
                } else {
                    proof {
                        if g {
                            lemma_within_start_tag(toks@, s, i as int);
                        }
                    }
                }
            },
            Token::End(name) => {
                if text_eq(name.as_str(), "Creatives") {
                    return Ok(items);
                } else {
                    proof {
                        if g {
                            lemma_within_end_tag(toks@, s, i as int);
                        }
                    }
                }
            },
            _ => {
                proof {
                    if g {
                        lemma_within_other(toks@, s, i as int);
                    }
                }
            },
        }
        assert(scan_creatives(toks@, i as int, v0) == scan_creatives(toks@, *pos as int, creatives_v(items@)));
    }
}


fn empty_ad_system() -> (r: AdSystem)
    ensures
        r.name@.len() == 0,
        r.version is None,
{
    AdSystem { name: String::new(), version: None }
}

/// Reads an `InLine` element whose start tag was taken.
fn parse_inline_element(toks: &Vec<Token>, pos: &mut usize) -> (r: Result<InLine>)
    requires
        cursor_ok(toks@, *old(pos) as int),
    ensures
        element_read(toks@, *old(pos) as int, *final(pos) as int, r),
        well_formed(toks@) && after_start(toks@, *old(pos) as int)
            && is_start_named(toks@[*old(pos) - 1], "InLine"@)
            ==> r is Ok && read_inside(toks@, *old(pos) - 1, *final(pos) as int),
        scan_inline(toks@, *old(pos) as int, empty_inline()) is Some <==> r is Ok,
        r is Ok ==> inline_v(r->Ok_0) == scan_inline(toks@, *old(pos) as int, empty_inline())->Some_0.0
            && *final(pos) as int == scan_inline(toks@, *old(pos) as int, empty_inline())->Some_0.1,
{
    let mut inline = InLine {
        ad_system: empty_ad_system(),
        ad_title: String::new(),
        impressions: Vec::new(),
        description: None,
        advertiser: None,
        survey: None,
        error: None,
        pricing: None,
        extensions: Vec::new(),
        creatives: Vec::new(),
    };
    assert(impressions_v(inline.impressions@) =~= Seq::empty());
    assert(extensions_v(inline.extensions@) =~= Seq::empty());
    assert(creatives_v(inline.creatives@) =~= Seq::empty());
    assert(inline.ad_system.name@ =~= Seq::empty());
    let ghost s = *pos as int - 1;
    let ghost g = well_formed(toks@) && after_start(toks@, *pos as int)
        && is_start_named(toks@[*pos - 1], "InLine"@);
    proof {
        if g {
            lemma_within_start(toks@, s);
        }
    }
    loop
        invariant
            s == *old(pos) as int - 1,
            g == (well_formed(toks@) && after_start(toks@, *old(pos) as int)
                && is_start_named(toks@[*old(pos) - 1], "InLine"@)),
            g ==> within(toks@, s, *pos as int),
            scan_inline(toks@, *old(pos) as int, empty_inline()) == scan_inline(toks@, *pos as int, inline_v(inline)),
            cursor_ok(toks@, *pos as int),
            *pos < toks.len(),
            *old(pos) <= *pos,
        decreases toks@.len() - *pos,
    {
        let i = *pos;
        let ghost v0 = inline_v(inline);
        let t = &toks[i];
        assert(t == toks@[i as int]);
        proof {
            if g {
                lemma_within_not_eof(toks@, s, i as int);
            }
        }
        if is_stop_token(t) {
            return Err(fault_error(t));
        }
        *pos = i + 1;
        match t {
            Token::Start(name, attrs) => {
                let n = name.as_str();
                if text_eq(n, "AdSystem") {
                    match parse_ad_system(toks, pos, attrs) {
                        Ok(v) => inline.ad_system = v,
                        Err(e) => return Err(e),
                    }
                } else if text_eq(n, "AdTitle") {
                    match read_text_element(toks, pos) {
                        Ok(v) => inline.ad_title = v,
                        Err(e) => return Err(e),
                    }
                } else if text_eq(n, "Impression") {
                    match parse_impression(toks, pos, attrs) {
                        Ok(v) => {
                            let ghost vv = impression_v(v);
                            inline.impressions.push(v);
                            assert(impressions_v(inline.impressions@) =~= v0.impressions.push(vv));
                        },
                        Err(e) => return Err(e),
                    }
                } else if text_eq(n, "Description") {
                    match read_text_element(toks, pos) {
                        Ok(v) => inline.description = Some(v),
                        Err(e) => return Err(e),
                    }
                } else if text_eq(n, "Advertiser") {
                    match read_text_element(toks, pos) {
                        Ok(v) => inline.advertiser = Some(v),
                        Err(e) => return Err(e),
                    }
                } else if text_eq(n, "Survey") {
                    match read_text_element(toks, pos) {
                        Ok(v) => inline.survey = Some(v),
                        Err(e) => return Err(e),
                    }
                } else if text_eq(n, "Error") {
                    match read_text_element(toks, pos) {
                        Ok(v) => inline.error = Some(v),
                        Err(e) => return Err(e),
                    }
                } else if text_eq(n, "Pricing") {
                    match parse_pricing(toks, pos, attrs) {
                        Ok(v) => inline.pricing = Some(v),
                        Err(e) => return Err(e),
                    }
                } else if text_eq(n, "Extensions") {
                    match parse_extensions(toks, pos) {
                        Ok(v) => inline.extensions = v,
                        Err(e) => return Err(e),
                    }
                } else if text_eq(n, "Creatives") {
                    match parse_creatives(toks, pos) {
                        Ok(v) => inline.creatives = v,
                        Err(e) => return Err(e),
                    }
                } else {
                    match skip_element(toks, pos, n) {
                        Ok(()) => {},
                        Err(e) => return Err(e),
                    }
                }
                proof {
                    if g {
                        lemma_within_child(toks@, s, i as int, *pos as int);
                    }
                }
            },
            Token::End(name) => {
                if text_eq(name.as_str(), "InLine") {
                    return Ok(inline);
                } else {
                    proof {
                        if g {
                            lemma_within_end_tag(toks@, s, i as int);
                        }
                    }
                }
            },
            _ => {
                proof {
                    if g {
                        lemma_within_other(toks@, s, i as int);
                    }
                }
            },
        }
        assert(scan_inline(toks@, i as int, v0) == scan_inline(toks@, *pos as int, inline_v(inline)));
    }
}

/// Reads a `Wrapper` element whose start tag was taken.
fn parse_wrapper_element(toks: &Vec<Token>, pos: &mut usize) -> (r: Result<Wrapper>)
    requires
        cursor_ok(toks@, *old(pos) as int),
    ensures
        element_read(toks@, *old(pos) as int, *final(pos) as int, r),
        well_formed(toks@) && after_start(toks@, *old(pos) as int)
            && is_start_named(toks@[*old(pos) - 1], "Wrapper"@)
            ==> r is Ok && read_inside(toks@, *old(pos) - 1, *final(pos) as int),
        scan_wrapper(toks@, *old(pos) as int, empty_wrapper()) is Some <==> r is Ok,
        r is Ok ==> wrapper_v(r->Ok_0) == scan_wrapper(toks@, *old(pos) as int, empty_wrapper())->Some_0.0
            && *final(pos) as int == scan_wrapper(toks@, *old(pos) as int, empty_wrapper())->Some_0.1,
{
    let mut wrapper = Wrapper {
        ad_system: empty_ad_system(),
        vast_ad_tag_uri: String::new(),
        impressions: Vec::new(),
        error: None,
        extensions: Vec::new(),
        creatives: Vec::new(),
    };
    assert(impressions_v(wrapper.impressions@) =~= Seq::empty());
    assert(extensions_v(wrapper.extensions@) =~= Seq::empty());
    assert(creatives_v(wrapper.creatives@) =~= Seq::empty());
    assert(wrapper.ad_system.name@ =~= Seq::empty());
    assert(wrapper.vast_ad_tag_uri@ =~= Seq::empty());
    let ghost s = *pos as int - 1;
    let ghost g = well_formed(toks@) && after_start(toks@, *pos as int)
        && is_start_named(toks@[*pos - 1], "Wrapper"@);
    proof {
        if g {
            lemma_within_start(toks@, s);
        }
    }
    loop
        invariant
            s == *old(pos) as int - 1,
            g == (well_formed(toks@) && after_start(toks@, *old(pos) as int)
                && is_start_named(toks@[*old(pos) - 1], "Wrapper"@)),
            g ==> within(toks@, s, *pos as int),
            scan_wrapper(toks@, *old(pos) as int, empty_wrapper()) == scan_wrapper(toks@, *pos as int, wrapper_v(wrapper)),
            cursor_ok(toks@, *pos as int),
            *pos < toks.len(),
            *old(pos) <= *pos,
        decreases toks@.len() - *pos,
    {
        let i = *pos;
        let ghost v0 = wrapper_v(wrapper);
        let t = &toks[i];
        assert(t == toks@[i as int]);
        proof {
            if g {
                lemma_within_not_eof(toks@, s, i as int);
            }
        }
        if is_stop_token(t) {
            return Err(fault_error(t));
        }
        *pos = i + 1;
        match t {
            Token::Start(name, attrs) => {
                let n = name.as_str();
                if text_eq(n, "AdSystem") {
                    match parse_ad_system(toks, pos, attrs) {
                        Ok(v) => wrapper.ad_system = v,
                        Err(e) => return Err(e),
                    }
                } else if text_eq(n, "VASTAdTagURI") {
                    match read_text_element(toks, pos) {
                        Ok(v) => wrapper.vast_ad_tag_uri = v,
                        Err(e) => return Err(e),
                    }
                } else if text_eq(n, "Impression") {
                    match parse_impression(toks, pos, attrs) {
                        Ok(v) => {
                            let ghost vv = impression_v(v);
                            wrapper.impressions.push(v);
                            assert(impressions_v(wrapper.impressions@) =~= v0.impressions.push(vv));
                        },
                        Err(e) => return Err(e),
                    }
                } else if text_eq(n, "Error") {
                    match read_text_element(toks, pos) {
                        Ok(v) => wrapper.error = Some(v),
                        Err(e) => return Err(e),
                    }
                } else if text_eq(n, "Extensions") {
                    match parse_extensions(toks, pos) {
                        Ok(v) => wrapper.extensions = v,
                        Err(e) => return Err(e),
                    }
                } else if text_eq(n, "Creatives") {
                    match parse_creatives(toks, pos) {
                        Ok(v) => wrapper.creatives = v,
                        Err(e) => return Err(e),
                    }
                } else {
                    match skip_element(toks, pos, n) {
                        Ok(()) => {},
                        Err(e) => return Err(e),
                    }
                }
                proof {
                    if g {
                        lemma_within_child(toks@, s, i as int, *pos as int);
                    }
                }
            },
            Token::End(name) => {
                if text_eq(name.as_str(), "Wrapper") {
                    return Ok(wrapper);
                } else {
                    proof {
                        if g {
                            lemma_within_end_tag(toks@, s, i as int);
                        }
                    }
                }
            },
            _ => {
                proof {
                    if g {
                        lemma_within_other(toks@, s, i as int);
                    }
                }
            },
        }
        assert(scan_wrapper(toks@, i as int, v0) == scan_wrapper(toks@, *pos as int, wrapper_v(wrapper)));
    }
}

/// Reads an `Ad` element whose start tag, with `attrs`, was taken.
fn parse_ad_element(toks: &Vec<Token>, pos: &mut usize, attrs: &Vec<Attribute>) -> (r: Result<Ad>)
    requires
        cursor_ok(toks@, *old(pos) as int),
    ensures
        element_read(toks@, *old(pos) as int, *final(pos) as int, r),
        r is Ok ==> {
            let a = r->Ok_0;
            &&& a.id == attr_lookup(attrs@, "id"@)
            &&& a.sequence == attr_u32(attrs@, "sequence"@)
            &&& a.conditional_ad == attr_flag(attrs@, "conditionalAd"@)
        },
        well_formed(toks@) && after_start(toks@, *old(pos) as int)
            && is_start_named(toks@[*old(pos) - 1], "Ad"@)
            ==> r is Ok && read_inside(toks@, *old(pos) - 1, *final(pos) as int),
        scan_ad(toks@, *old(pos) as int, ad_start(attrs@)) is Some <==> r is Ok,
        r is Ok ==> ad_v(r->Ok_0) == scan_ad(toks@, *old(pos) as int, ad_start(attrs@))->Some_0.0
            && *final(pos) as int == scan_ad(toks@, *old(pos) as int, ad_start(attrs@))->Some_0.1,
{
    let mut ad = Ad {
        id: find_attr(attrs, "id"),
        sequence: find_u32_attr(attrs, "sequence"),
        conditional_ad: find_flag_attr(attrs, "conditionalAd"),
        inline: None,
        wrapper: None,
    };
    let ghost s = *pos as int - 1;
    let ghost g = well_formed(toks@) && after_start(toks@, *pos as int)
        && is_start_named(toks@[*pos - 1], "Ad"@);
    proof {
        if g {
            lemma_within_start(toks@, s);
        }
    }
    loop
        invariant
            s == *old(pos) as int - 1,
            g == (well_formed(toks@) && after_start(toks@, *old(pos) as int)
                && is_start_named(toks@[*old(pos) - 1], "Ad"@)),
            g ==> within(toks@, s, *pos as int),
            scan_ad(toks@, *old(pos) as int, ad_start(attrs@)) == scan_ad(toks@, *pos as int, ad_v(ad)),
            cursor_ok(toks@, *pos as int),
            *pos < toks.len(),
            *old(pos) <= *pos,
            ad.id == attr_lookup(attrs@, "id"@),
            ad.sequence == attr_u32(attrs@, "sequence"@),
            ad.conditional_ad == attr_flag(attrs@, "conditionalAd"@),
        decreases toks@.len() - *pos,
    {
        let i = *pos;
        let ghost v0 = ad_v(ad);
        let t = &toks[i];
        assert(t == toks@[i as int]);
        proof {
            if g {
                lemma_within_not_eof(toks@, s, i as int);
            }
        }
        if is_stop_token(t) {
            return Err(fault_error(t));
        }
        *pos = i + 1;
        match t {
            Token::Start(name, _) => {
                let n = name.as_str();
                if text_eq(n, "InLine") {
                    match parse_inline_element(toks, pos) {
                        Ok(v) => ad.inline = Some(v),
                        Err(e) => return Err(e),
                    }
                } else if text_eq(n, "Wrapper") {
                    match parse_wrapper_element(toks, pos) {
                        Ok(v) => ad.wrapper = Some(v),
                        Err(e) => return Err(e),
                    }
                } else {
                    match skip_element(toks, pos, n) {
                        Ok(()) => {},
                        Err(e) => return Err(e),
                    }
                }
                proof {
                    if g {
                        lemma_within_child(toks@, s, i as int, *pos as int);
                    }
                }
            },
            Token::End(name) => {
                if text_eq(name.as_str(), "Ad") {
                    return Ok(ad);
                } else {
                    proof {
                        if g {
                            lemma_within_end_tag(toks@, s, i as int);
                        }
                    }
                }
            },
            _ => {
                proof {
                    if g {
                        lemma_within_other(toks@, s, i as int);
                    }
                }
            },
        }
        assert(scan_ad(toks@, i as int, v0) == scan_ad(toks@, *pos as int, ad_v(ad)));
    }
}

/// Reads the ads of the root element, up to its end tag or the end of input.
fn parse_ads(toks: &Vec<Token>, pos: &mut usize) -> (r: Result<Vec<Ad>>)
    requires
        cursor_ok(toks@, *old(pos) as int),
    ensures
        element_read(toks@, *old(pos) as int, *final(pos) as int, r),
        well_formed(toks@) ==> r is Ok,
        scan_ads(toks@, *old(pos) as int, Seq::empty()) is Some <==> r is Ok,
        r is Ok ==> ads_v(r->Ok_0@) == scan_ads(toks@, *old(pos) as int, Seq::empty())->Some_0.0
            && *final(pos) as int == scan_ads(toks@, *old(pos) as int, Seq::empty())->Some_0.1,
{
    let mut ads: Vec<Ad> = Vec::new();
    assert(ads_v(ads@) =~= Seq::empty());
    loop
        invariant
            scan_ads(toks@, *old(pos) as int, Seq::empty()) == scan_ads(toks@, *pos as int, ads_v(ads@)),
            cursor_ok(toks@, *pos as int),
            *pos < toks.len(),
            *old(pos) <= *pos,
        decreases toks@.len() - *pos,
    {
        let i = *pos;
        let ghost v0 = ads_v(ads@);
        let t = &toks[i];
        match t {
            Token::Eof => {
                return Ok(ads);
            },
            Token::Fault => {
                assert(is_stop(toks@[i as int]));
                return Err(structural("Malformed markup"));
            },
            _ => {},
        }
        assert(!is_stop(toks@[i as int]));
        *pos = i + 1;
        match t {
            Token::Start(name, attrs) => {
                if text_eq(name.as_str(), "Ad") {
                    match parse_ad_element(toks, pos, attrs) {
                        Ok(v) => {
                            let ghost vv = ad_v(v);
                            ads.push(v);
                            assert(ads_v(ads@) =~= v0.push(vv));
                        },
                        Err(e) => return Err(e),
                    }
                }
            },
            Token::End(name) => {
                if text_eq(name.as_str(), "VAST") {
                    return Ok(ads);
                }
            },
            _ => {},
        }
        assert(scan_ads(toks@, i as int, v0) == scan_ads(toks@, *pos as int, ads_v(ads@)));
    }
}


/// Index of the root `VAST` start tag: the first one in the stream, unless an
/// end of input or a fault comes first, whose index it is then.
pub open spec fn root_index(toks: Seq<Token>, i: int) -> int
    decreases toks.len() - i,
{
    if i < 0 || i >= toks.len() {
        toks.len() as int
    } else if is_stop(toks[i]) || is_start_named(toks[i], "VAST"@) {
        i
    } else {
        root_index(toks, i + 1)
    }
}

/// The attributes of the root `VAST` start tag, if the stream has one.
pub open spec fn root_attrs(toks: Seq<Token>) -> Option<Seq<Attribute>> {
    let k = root_index(toks, 0);
    if 0 <= k < toks.len() {
        match toks[k] {
            Token::Start(_, attrs) => Some(attrs@),
            _ => None,
        }
    } else {
        None
    }
}

/// The root's `version` attribute, where it is present and not empty.
pub open spec fn root_version(toks: Seq<Token>) -> Option<String> {
    match root_attrs(toks) {
        Some(attrs) => match attr_lookup(attrs, "version"@) {
            Some(v) => if v@.len() > 0 { Some(v) } else { None },
            None => None,
        },
        None => None,
    }
}

/// What reading a document from its tokens gives: no root element is a
/// structural error; a root without a non-empty version is a missing field;
/// otherwise the document carries the root's version, no error, and the ads
/// read after the root start tag, and any failure is structural.
pub open spec fn parse_outcome(toks: Seq<Token>, r: Result<Vast>) -> bool {
    &&& root_attrs(toks) is None ==> r is Err && r->Err_0 is XmlParseError
    &&& (root_attrs(toks) is Some && root_version(toks) is None) ==> r is Err && r->Err_0 is MissingField
    &&& root_version(toks) is Some ==> {
        &&& r is Ok <==> root_ads(toks) is Some
        &&& r is Ok ==> r->Ok_0.version == root_version(toks)->Some_0 && r->Ok_0.error is None
            && ads_v(r->Ok_0.ads@) == root_ads(toks)->Some_0
        &&& r is Err ==> r->Err_0 is XmlParseError
    }
}

/// The document that parsing a token stream gives, or `None` where parsing
/// fails.
pub open spec fn parsed_doc(toks: Seq<Token>) -> Option<DocV> {
    match (root_version(toks), root_ads(toks)) {
        (Some(v), Some(ads)) => Some(DocV { version: v@, ads: ads, error: None }),
        _ => None,
    }
}

/// The ads read after the root start tag.
pub open spec fn root_ads(toks: Seq<Token>) -> Option<Seq<AdV>> {
    match scan_ads(toks, root_index(toks, 0) + 1, Seq::empty()) {
        Some((ads, _)) => Some(ads),
        None => None,
    }
}

fn missing_version() -> (e: VastError)
    ensures
        e is MissingField,
{
    VastError::MissingField("VAST version".to_string())
}

/// Reads a document from a complete token stream.
pub fn parse_tokens(toks: &Vec<Token>) -> (r: Result<Vast>)
    requires
        stream_complete(toks@),
    ensures
        parse_outcome(toks@, r),
        well_formed(toks@) && root_version(toks@) is Some ==> r is Ok,
{
    let mut pos: usize = 0;
    loop
        invariant
            cursor_ok(toks@, pos as int),
            pos < toks.len(),
            root_index(toks@, 0) == root_index(toks@, pos as int),
        decreases toks@.len() - pos,
    {
        let i = pos;
        let t = &toks[i];
        if is_stop_token(t) {
            assert(root_index(toks@, i as int) == i);
            return Err(structural("No VAST root element"));
        }
        pos = i + 1;
        match t {
            Token::Start(name, attrs) => {
                if text_eq(name.as_str(), "VAST") {
                    assert(root_index(toks@, i as int) == i);
                    let version = match find_attr(attrs, "version") {
                        Some(v) => v,
                        None => return Err(missing_version()),
                    };
                    if version.unicode_len() == 0 {
                        return Err(missing_version());
                    }
                    return match parse_ads(toks, &mut pos) {
                        Ok(ads) => Ok(Vast { version, ads, error: None }),
                        Err(e) => Err(e),
                    };
                }
            },
            _ => {},
        }
    }
}

/// Parses a VAST document.
///
/// A text without a root `VAST` element, or whose markup is malformed, is a
/// structural error; a root without a non-empty `version` attribute is a
/// missing field. A well-formed text whose root has a version always parses.
pub fn parse_vast(xml: &str) -> (r: Result<Vast>)
    ensures
        parse_outcome(xml_tokens(xml@), r),
        well_formed(xml_tokens(xml@)) && root_version(xml_tokens(xml@)) is Some ==> r is Ok,
        r is Ok <==> parsed_doc(xml_tokens(xml@)) is Some,
        r is Ok ==> Some(doc_v(r->Ok_0)) == parsed_doc(xml_tokens(xml@)),
{
    let toks = tokenize(xml);
    parse_tokens(&toks)
}

} // verus!
