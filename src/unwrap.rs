use vstd::prelude::*;
use std::collections::VecDeque;
use crate::error::Result;
use crate::models::{Ad, Vast, Wrapper};
use crate::parser::{parse_outcome, parse_vast, root_version};
use crate::stitcher::{bundle_view, empty_bundle, extract_wrapper_tracking, with_wrapper, WrapperTracking};
use crate::text::text_eq;
use crate::parser::parsed_doc;
use crate::views::{ad_v, ads_v, doc_v, texts_v, wrapper_v, AdV, DocV, WrapperV};
use crate::nesting::well_formed;
use crate::xml::xml_tokens;

verus! {

/// Documents deeper than this in a wrapper chain are not read.
pub const MAX_WRAPPER_DEPTH: usize = 10;

/// Whether some string of `v` holds the text `u`.
pub open spec fn has_text(v: Seq<String>, u: Seq<char>) -> bool {
    exists|i: int| 0 <= i < v.len() && (#[trigger] v[i])@ == u
}

/// No two strings of `v` hold the same text.
pub open spec fn distinct_texts(v: Seq<String>) -> bool {
    forall|i: int, j: int| 0 <= i < j < v.len() ==> (#[trigger] v[i])@ != (#[trigger] v[j])@
}

/// The tracking bundle of the wrappers `ws`, taken in order.
pub open spec fn bundle_of(ws: Seq<Wrapper>) -> (
    Seq<crate::models::Impression>,
    Seq<String>,
    Seq<(String, Seq<String>)>,
    Seq<String>,
    Seq<String>,
)
    decreases ws.len(),
{
    if ws.len() == 0 {
        empty_bundle()
    } else {
        with_wrapper(bundle_of(ws.drop_last()), ws.last())
    }
}

/// The inline ads among `ads`, in order.
pub open spec fn inline_part(ads: Seq<Ad>) -> Seq<Ad>
    decreases ads.len(),
{
    if ads.len() == 0 {
        Seq::empty()
    } else {
        inline_part(ads.drop_last()) + if ads.last().inline is Some {
            seq![ads.last()]
        } else {
            Seq::empty()
        }
    }
}

proof fn lemma_inline_part_empty(ads: Seq<Ad>)
    ensures
        inline_part(ads).len() == 0 <==> no_inline(ads),
    decreases ads.len(),
{
    if ads.len() > 0 {
        lemma_inline_part_empty(ads.drop_last());
        if no_inline(ads) {
            assert(no_inline(ads.drop_last())) by {
                assert forall|i: int| 0 <= i < ads.drop_last().len() implies (#[trigger] ads.drop_last()[i]).inline is None by {
                    assert(ads.drop_last()[i] == ads[i]);
                }
            }
            assert(ads[ads.len() - 1].inline is None);
        } else {
            let j = choose|j: int| 0 <= j < ads.len() && !((#[trigger] ads[j]).inline is None);
            if j < ads.len() - 1 {
                assert(ads.drop_last()[j] == ads[j]);
            }
        }
    }
}

/// The locations that resolving follows from `ads`: those of the wrappers
/// of ads without inline content, in order.
pub open spec fn resolve_targets(ads: Seq<Ad>) -> Seq<Seq<char>>
    decreases ads.len(),
{
    if ads.len() == 0 {
        Seq::empty()
    } else {
        resolve_targets(ads.drop_last()) + match (ads.last().inline, ads.last().wrapper) {
            (None, Some(w)) => seq![w.vast_ad_tag_uri@],
            _ => Seq::empty(),
        }
    }
}

/// The wrappers of `ads`, in order.
pub open spec fn wrappers_of(ads: Seq<Ad>) -> Seq<Wrapper>
    decreases ads.len(),
{
    if ads.len() == 0 {
        Seq::empty()
    } else {
        wrappers_of(ads.drop_last()) + match ads.last().wrapper {
            Some(w) => seq![w],
            None => Seq::empty(),
        }
    }
}

pub open spec fn uris_of(ws: Seq<Wrapper>) -> Seq<Seq<char>> {
    ws.map_values(|w: Wrapper| w.vast_ad_tag_uri@)
}

// The walk as values. `WalkV` is what a `Traversal` holds, seen as values;
// `advance_v` and `supply_v` are what its two steps do; `run_v` runs a walk
// against a table of documents.

/// A traversal's state as values.
pub struct WalkV {
    pub root_version: Seq<char>,
    pub queue: Seq<(Seq<char>, usize)>,
    pub current: Seq<Seq<char>>,
    pub depth: usize,
    pub visited: Seq<Seq<char>>,
    pub inline: Seq<AdV>,
    pub fallback: Option<DocV>,
    pub seen: Seq<WrapperV>,
}

pub open spec fn queue_v(q: Seq<(String, usize)>) -> Seq<(Seq<char>, usize)> {
    q.map_values(|e: (String, usize)| (e.0@, e.1))
}

pub open spec fn wrappers_view(ws: Seq<Wrapper>) -> Seq<WrapperV> {
    ws.map_values(|w: Wrapper| wrapper_v(w))
}

pub open spec fn opt_doc_v(v: Option<Vast>) -> Option<DocV> {
    match v {
        Some(d) => Some(doc_v(d)),
        None => None,
    }
}

impl Traversal {
    pub open spec fn view_v(&self) -> WalkV {
        WalkV {
            root_version: self.root_version@,
            queue: queue_v(self.queue@),
            current: texts_v(self.current@),
            depth: self.current_depth,
            visited: texts_v(self.visited@),
            inline: ads_v(self.inline_ads@),
            fallback: opt_doc_v(self.fallback),
            seen: wrappers_view(self.seen@),
        }
    }
}

pub open spec fn inline_part_v(ads: Seq<AdV>) -> Seq<AdV>
    decreases ads.len(),
{
    if ads.len() == 0 {
        Seq::empty()
    } else {
        inline_part_v(ads.drop_last()) + if ads.last().inline is Some {
            seq![ads.last()]
        } else {
            Seq::empty()
        }
    }
}

pub open spec fn targets_v(ads: Seq<AdV>) -> Seq<Seq<char>>
    decreases ads.len(),
{
    if ads.len() == 0 {
        Seq::empty()
    } else {
        targets_v(ads.drop_last()) + match (ads.last().inline, ads.last().wrapper) {
            (None, Some(w)) => seq![w.vast_ad_tag_uri],
            _ => Seq::empty(),
        }
    }
}

pub open spec fn wrappers_v(ads: Seq<AdV>) -> Seq<WrapperV>
    decreases ads.len(),
{
    if ads.len() == 0 {
        Seq::empty()
    } else {
        wrappers_v(ads.drop_last()) + match ads.last().wrapper {
            Some(w) => seq![w],
            None => Seq::empty(),
        }
    }
}

pub open spec fn uris_v(ws: Seq<WrapperV>) -> Seq<Seq<char>> {
    ws.map_values(|w: WrapperV| w.vast_ad_tag_uri)
}

/// Reading a parsed document found at `depth`. Resolving keeps its inline
/// ads, lines up the wrapper locations of its other ads, and keeps it as the
/// fallback while no inline ad has been found; collecting keeps its wrappers
/// and lines up their locations.
pub open spec fn read_v(w: WalkV, mode: Mode, doc: DocV, depth: usize) -> WalkV {
    match mode {
        Mode::Resolve => WalkV {
            depth: depth,
            inline: w.inline + inline_part_v(doc.ads),
            current: targets_v(doc.ads),
            fallback: if w.inline.len() == 0 && inline_part_v(doc.ads).len() == 0 {
                Some(doc)
            } else {
                w.fallback
            },
            ..w
        },
        Mode::Collect => WalkV {
            depth: depth,
            seen: w.seen + wrappers_v(doc.ads),
            current: uris_v(wrappers_v(doc.ads)),
            ..w
        },
    }
}

/// One call of `advance`: follow the next location not yet requested;
/// otherwise read the next queued document, dropping it where resolving
/// finds it too deep or it does not parse; the walk is over when nothing is
/// left.
pub open spec fn advance_v(w: WalkV, mode: Mode) -> (Option<Seq<char>>, WalkV)
    decreases w.queue.len(), w.current.len(),
{
    if w.current.len() > 0 {
        let u = w.current[0];
        let w1 = WalkV { current: w.current.drop_first(), ..w };
        if w.visited.contains(u) {
            advance_v(w1, mode)
        } else {
            (Some(u), WalkV { visited: w.visited.push(u), ..w1 })
        }
    } else if w.queue.len() == 0 {
        (None, w)
    } else {
        let text = w.queue[0].0;
        let d = w.queue[0].1;
        let w1 = WalkV { queue: w.queue.drop_first(), ..w };
        if mode is Resolve && d >= MAX_WRAPPER_DEPTH {
            advance_v(w1, mode)
        } else {
            match parsed_doc(xml_tokens(text)) {
                None => advance_v(w1, mode),
                Some(doc) => advance_v(read_v(w1, mode, doc, if mode is Resolve { d } else { 0 }), mode),
            }
        }
    }
}

/// One call of `supply`: fetched content is queued one level deeper.
pub open spec fn supply_v(w: WalkV, mode: Mode, content: Option<Seq<char>>) -> WalkV {
    match content {
        Some(t) => WalkV {
            queue: w.queue.push((t, if mode is Resolve { (w.depth + 1) as usize } else { 0usize })),
            ..w
        },
        None => w,
    }
}

/// The content of the first entry of `sources`, from index `i` on, at
/// location `u`.
pub open spec fn lookup_v(sources: Seq<(String, String)>, u: Seq<char>, i: int) -> Option<Seq<char>>
    decreases sources.len() - i,
{
    if i < 0 || i >= sources.len() {
        None
    } else if sources[i].0@ == u {
        Some(sources[i].1@)
    } else {
        lookup_v(sources, u, i + 1)
    }
}

/// Running a walk against `sources` for at most `fuel` fetches; `None`
/// where it is not over by then.
pub open spec fn run_v(w: WalkV, mode: Mode, sources: Seq<(String, String)>, fuel: nat) -> Option<WalkV>
    decreases fuel,
{
    if fuel == 0 {
        None
    } else {
        let (step, w1) = advance_v(w, mode);
        match step {
            None => Some(w1),
            Some(u) => run_v(supply_v(w1, mode, lookup_v(sources, u, 0)), mode, sources, (fuel - 1) as nat),
        }
    }
}

/// A walk started at a root document, or `None` where the root does not
/// parse.
pub open spec fn start_v(root: Seq<char>, mode: Mode) -> Option<WalkV> {
    match parsed_doc(xml_tokens(root)) {
        Some(doc) => Some(read_v(
            WalkV {
                root_version: doc.version,
                queue: Seq::empty(),
                current: Seq::empty(),
                depth: 0,
                visited: Seq::empty(),
                inline: Seq::empty(),
                fallback: None,
                seen: Seq::empty(),
            },
            mode,
            doc,
            0,
        )),
        None => None,
    }
}

/// The end of the walk from `root` against `sources`.
pub open spec fn walk_result(root: Seq<char>, sources: Seq<(String, String)>, mode: Mode) -> Option<WalkV> {
    match start_v(root, mode) {
        Some(w0) => if exists|f: nat| (#[trigger] run_v(w0, mode, sources, f)) is Some {
            run_v(w0, mode, sources, choose|f: nat| (#[trigger] run_v(w0, mode, sources, f)) is Some)
        } else {
            None
        },
        None => None,
    }
}

/// The document a finished resolving walk gives.
pub open spec fn finish_v(w: WalkV) -> DocV {
    if w.inline.len() > 0 {
        DocV { version: w.root_version, ads: w.inline, error: None }
    } else {
        match w.fallback {
            Some(d) => d,
            None => DocV {
                version: "4.0"@,
                ads: Seq::empty(),
                error: Some("No valid VAST documents found in the chain"@),
            },
        }
    }
}

/// The breadth-first resolution of `root` through `sources`.
pub open spec fn resolution(root: Seq<char>, sources: Seq<(String, String)>) -> Option<DocV> {
    match walk_result(root, sources, Mode::Resolve) {
        Some(w) => Some(finish_v(w)),
        None => None,
    }
}

/// The wrappers reached from `root` through `sources`, in visiting order.
pub open spec fn collected(root: Seq<char>, sources: Seq<(String, String)>) -> Option<Seq<WrapperV>> {
    match walk_result(root, sources, Mode::Collect) {
        Some(w) => Some(w.seen),
        None => None,
    }
}

proof fn lemma_run_unique(w: WalkV, mode: Mode, sources: Seq<(String, String)>, f1: nat, f2: nat)
    requires
        run_v(w, mode, sources, f1) is Some,
        run_v(w, mode, sources, f2) is Some,
    ensures
        run_v(w, mode, sources, f1) == run_v(w, mode, sources, f2),
    decreases f1,
{
    let (step, w1) = advance_v(w, mode);
    if step is Some {
        lemma_run_unique(supply_v(w1, mode, lookup_v(sources, step->Some_0, 0)), mode, sources, (f1 - 1) as nat, (f2 - 1) as nat);
    }
}

proof fn lemma_has_text_view(v: Seq<String>, u: Seq<char>)
    ensures
        has_text(v, u) == texts_v(v).contains(u),
{
    if has_text(v, u) {
        let i = choose|i: int| 0 <= i < v.len() && (#[trigger] v[i])@ == u;
        assert(texts_v(v)[i] == u);
    }
    if texts_v(v).contains(u) {
        let i = choose|i: int| 0 <= i < texts_v(v).len() && texts_v(v)[i] == u;
        assert(v[i]@ == u);
    }
}

proof fn lemma_ads_view_parts(d: Seq<Ad>)
    ensures
        ads_v(inline_part(d)) == inline_part_v(ads_v(d)),
        resolve_targets(d) == targets_v(ads_v(d)),
        wrappers_view(wrappers_of(d)) == wrappers_v(ads_v(d)),
    decreases d.len(),
{
    if d.len() > 0 {
        lemma_ads_view_parts(d.drop_last());
        assert(ads_v(d).drop_last() =~= ads_v(d.drop_last()));
        assert(ads_v(d).last() == ad_v(d.last()));
        let x = d.last();
        let a = inline_part(d.drop_last());
        let b: Seq<Ad> = if x.inline is Some { seq![x] } else { Seq::empty() };
        assert(ads_v(a + b) =~= ads_v(a) + ads_v(b));
        assert(ads_v(b) =~= if ad_v(x).inline is Some { seq![ad_v(x)] } else { Seq::<AdV>::empty() });
        let wa = wrappers_of(d.drop_last());
        let wb: Seq<Wrapper> = match x.wrapper { Some(w) => seq![w], None => Seq::empty() };
        assert(wrappers_view(wa + wb) =~= wrappers_view(wa) + wrappers_view(wb));
        assert(wrappers_view(wb) =~= match ad_v(x).wrapper { Some(w) => seq![w], None => Seq::<WrapperV>::empty() });
    } else {
        assert(ads_v(inline_part(d)) =~= Seq::<AdV>::empty());
        assert(wrappers_view(wrappers_of(d)) =~= Seq::<WrapperV>::empty());
    }
}

proof fn lemma_uris_view(ws: Seq<Wrapper>)
    ensures
        uris_of(ws) == uris_v(wrappers_view(ws)),
{
    assert(uris_of(ws) =~= uris_v(wrappers_view(ws)));
}

/// What a traversal gathers.
#[derive(Debug, Clone, Copy)]
pub enum Mode {
    /// The terminal (inline) ads reachable through the wrapper chain.
    Resolve,
    /// The tracking of every wrapper hop.
    Collect,
}

/// What a traversal needs next.
#[derive(Debug, Clone)]
pub enum Step {
    /// The content at this location; hand it back with `supply`.
    Fetch(String),
    /// The traversal is over.
    Done,
}

/// A breadth-first walk over a graph of VAST documents linked by wrapper
/// locations. Fetching is left to the caller: `advance` says which location
/// it needs, and `supply` takes its content, or `None` where the fetch failed.
/// Each location is requested at most once over the whole walk.
pub struct Traversal {
    pub mode: Mode,
    /// Version of the root document.
    pub root_version: String,
    /// Fetched documents not yet read, with their depth in the chain.
    pub queue: VecDeque<(String, usize)>,
    /// Wrapper locations of the document being read, not yet followed.
    pub current: Vec<String>,
    /// Depth of the document being read.
    pub current_depth: usize,
    /// Every location requested so far.
    pub visited: Vec<String>,
    /// Whether a requested location has not been answered yet.
    pub awaiting: bool,
    /// Inline ads found so far, in order.
    pub inline_ads: Vec<Ad>,
    /// The last document read, kept while no inline ad has been found.
    pub fallback: Option<Vast>,
    /// The tracking of every wrapper read so far.
    pub tracking: WrapperTracking,
    /// The wrappers whose tracking was collected, in order.
    pub seen: Ghost<Seq<Wrapper>>,
}

pub open spec fn no_inline(ads: Seq<Ad>) -> bool {
    forall|i: int| 0 <= i < ads.len() ==> (#[trigger] ads[i]).inline is None
}

pub open spec fn all_inline(ads: Seq<Ad>) -> bool {
    forall|i: int| 0 <= i < ads.len() ==> (#[trigger] ads[i]).inline is Some
}

impl Traversal {
    pub open spec fn wf(&self) -> bool {
        &&& distinct_texts(self.visited@)
        &&& all_inline(self.inline_ads@)
        &&& (self.mode is Resolve ==> self.inline_ads@.len() > 0 || (self.fallback is Some
            && no_inline(self.fallback->Some_0.ads@)))
        &&& bundle_view(self.tracking) == bundle_of(self.seen@)
        &&& self.tracking.wf()
        &&& match self.mode {
            Mode::Resolve => self.current_depth < MAX_WRAPPER_DEPTH,
            Mode::Collect => self.current_depth == 0,
        }
    }
}

fn contains_text(v: &Vec<String>, u: &str) -> (r: bool)
    ensures
        r == has_text(v@, u@),
{
    let mut i: usize = 0;
    while i < v.len()
        invariant
            i <= v.len(),
            forall|j: int| 0 <= j < i ==> (#[trigger] v@[j])@ != u@,
        decreases v.len() - i,
    {
        if text_eq(v[i].as_str(), u) {
            return true;
        }
        i += 1;
    }
    false
}

fn has_inline_ad(ads: &Vec<Ad>) -> (r: bool)
    ensures
        r == !no_inline(ads@),
{
    let mut i: usize = 0;
    while i < ads.len()
        invariant
            i <= ads.len(),
            forall|j: int| 0 <= j < i ==> (#[trigger] ads@[j]).inline is None,
        decreases ads.len() - i,
    {
        if ads[i].inline.is_some() {
            return true;
        }
        i += 1;
    }
    false
}

impl Traversal {
    /// Starts a walk at the root document. A root that does not parse fails
    /// the walk with the parse error.
    pub fn start(root: &str, mode: Mode) -> (r: Result<Traversal>)
        ensures
            r is Err ==> parse_outcome(xml_tokens(root@), Err(r->Err_0)),
            well_formed(xml_tokens(root@)) && root_version(xml_tokens(root@)) is Some ==> r is Ok,
            r is Ok ==> {
                let t = r->Ok_0;
                &&& t.wf()
                &&& !t.awaiting
                &&& t.visited@.len() == 0
                &&& t.mode == mode
                &&& Some(t.root_version) == root_version(xml_tokens(root@))
            },
            r is Ok <==> start_v(root@, mode) is Some,
            r is Ok ==> Some(r->Ok_0.view_v()) == start_v(root@, mode),
    {
        let root_doc = match parse_vast(root) {
            Ok(v) => v,
            Err(e) => return Err(e),
        };
        let mut t = Traversal {
            mode,
            root_version: root_doc.version.clone(),
            queue: VecDeque::new(),
            current: Vec::new(),
            current_depth: 0,
            visited: Vec::new(),
            awaiting: false,
            inline_ads: Vec::new(),
            fallback: None,
            tracking: WrapperTracking::new(),
            seen: Ghost(Seq::empty()),
        };
        assert(queue_v(t.queue@) =~= Seq::empty());
        assert(texts_v(t.current@) =~= Seq::empty());
        assert(texts_v(t.visited@) =~= Seq::empty());
        assert(ads_v(t.inline_ads@) =~= Seq::empty());
        assert(wrappers_view(t.seen@) =~= Seq::empty());
        t.read_document(root_doc, 0);
        Ok(t)
    }

    /// Reads a parsed document found at `depth`: gathers what the mode asks
    /// for and lines up its wrapper locations to follow.
    fn read_document(&mut self, doc: Vast, depth: usize)
        requires
            old(self).wf() || (old(self).inline_ads@.len() == 0 && old(self).fallback is None
                && distinct_texts(old(self).visited@) && bundle_view(old(self).tracking) == bundle_of(old(self).seen@)
                && old(self).tracking.wf()),
            old(self).current@.len() == 0,
            match old(self).mode {
                Mode::Resolve => depth < MAX_WRAPPER_DEPTH,
                Mode::Collect => depth == 0,
            },
        ensures
            final(self).wf(),
            final(self).mode == old(self).mode,
            final(self).root_version == old(self).root_version,
            final(self).queue == old(self).queue,
            final(self).visited == old(self).visited,
            final(self).awaiting == old(self).awaiting,
            final(self).current_depth == depth,
            final(self).view_v() == read_v(old(self).view_v(), old(self).mode, doc_v(doc), depth),
            match old(self).mode {
                Mode::Resolve => {
                    &&& final(self).inline_ads@ == old(self).inline_ads@ + inline_part(doc.ads@)
                    &&& texts_v(final(self).current@) == resolve_targets(doc.ads@)
                    &&& (old(self).inline_ads@.len() == 0 && inline_part(doc.ads@).len() == 0
                        ==> final(self).fallback == Some(doc))
                },
                Mode::Collect => {
                    &&& final(self).seen@ == old(self).seen@ + wrappers_of(doc.ads@)
                    &&& texts_v(final(self).current@) == uris_of(wrappers_of(doc.ads@))
                },
            },
    {
        let ghost w0 = self.view_v();
        let ghost doc0 = doc;
        self.current_depth = depth;
        let ghost d = doc.ads@;
        let ghost inline0 = self.inline_ads@;
        let ghost seen0 = self.seen@;
        assert(texts_v(self.current@) =~= Seq::empty());
        match self.mode {
            Mode::Resolve => {
                if has_inline_ad(&doc.ads) || self.inline_ads.len() > 0 {
                    proof {
                        lemma_inline_part_empty(d);
                    }
                    let mut ads = doc.ads;
                    assert(ads@.subrange(0, 0) =~= Seq::<Ad>::empty());
                    assert(d.subrange(0, 0) =~= Seq::<Ad>::empty());
                    assert(self.inline_ads@ =~= inline0 + inline_part(d.subrange(0, 0)));
                    assert(ads@ =~= d.subrange(0, d.len() as int));
                    while ads.len() > 0
                        invariant
                            self.wf() || (self.inline_ads@.len() == 0 && self.fallback is None
                                && distinct_texts(self.visited@) && bundle_view(self.tracking) == bundle_of(self.seen@)
                                && self.tracking.wf()),
                            self.inline_ads@.len() > 0 || !no_inline(ads@),
                            all_inline(self.inline_ads@),
                            self.mode == old(self).mode,
                            self.mode is Resolve,
                            self.current_depth == depth,
                            depth < MAX_WRAPPER_DEPTH,
                            self.root_version == old(self).root_version,
                            self.queue == old(self).queue,
                            self.visited == old(self).visited,
                            self.awaiting == old(self).awaiting,
                            self.fallback == old(self).fallback,
                            self.seen == old(self).seen,
                            ads@.len() <= d.len(),
                            ads@ == d.subrange(d.len() - ads@.len(), d.len() as int),
                            self.inline_ads@ == inline0 + inline_part(d.subrange(0, d.len() - ads@.len())),
                            texts_v(self.current@) == resolve_targets(d.subrange(0, d.len() - ads@.len())),
                        decreases ads@.len(),
                    {
                        let ghost before = ads@;
                        let ghost k = d.len() - ads@.len();
                        let ghost cur0 = texts_v(self.current@);
                        let ad = ads.remove(0);
                        assert(ad == d[k]);
                        assert(d.subrange(0, k + 1).drop_last() =~= d.subrange(0, k));
                        assert(d.subrange(0, k + 1).last() == ad);
                        assert(ads@ =~= d.subrange(k + 1, d.len() as int));
                        if ad.inline.is_some() {
                            self.inline_ads.push(ad);
                            assert(self.inline_ads@ =~= inline0 + inline_part(d.subrange(0, k + 1)));
                            assert(texts_v(self.current@) == resolve_targets(d.subrange(0, k + 1)));
                        } else {
                            match &ad.wrapper {
                                Some(w) => {
                                    self.current.push(w.vast_ad_tag_uri.clone());
                                    assert(texts_v(self.current@) =~= cur0.push(w.vast_ad_tag_uri@));
                                },
                                None => {},
                            }
                            assert(texts_v(self.current@) =~= resolve_targets(d.subrange(0, k + 1)));
                            assert(self.inline_ads@ =~= inline0 + inline_part(d.subrange(0, k + 1)));
                            proof {
                                if self.inline_ads@.len() == 0 {
                                    let j = choose|j: int| 0 <= j < before.len() && (#[trigger] before[j]).inline is Some;
                                    assert(j != 0);
                                    assert(ads@[j - 1] == before[j]);
                                }
                            }
                        }
                    }
                    assert(d.subrange(0, d.len() as int) =~= d);
                } else {
                    proof {
                        lemma_inline_part_empty(d);
                    }
                    let mut i: usize = 0;
                    while i < doc.ads.len()
                        invariant
                            i <= doc.ads.len(),
                            d == doc.ads@,
                            no_inline(d),
                            self.mode == old(self).mode,
                            self.current_depth == depth,
                            self.root_version == old(self).root_version,
                            self.queue == old(self).queue,
                            self.visited == old(self).visited,
                            self.awaiting == old(self).awaiting,
                            self.inline_ads == old(self).inline_ads,
                            self.fallback == old(self).fallback,
                            self.tracking == old(self).tracking,
                            self.seen == old(self).seen,
                            texts_v(self.current@) == resolve_targets(d.subrange(0, i as int)),
                        decreases doc.ads.len() - i,
                    {
                        let ghost cur0 = texts_v(self.current@);
                        assert(d.subrange(0, i + 1).drop_last() =~= d.subrange(0, i as int));
                        assert(d.subrange(0, i + 1).last() == d[i as int]);
                        assert(d[i as int].inline is None);
                        match &doc.ads[i].wrapper {
                            Some(w) => {
                                self.current.push(w.vast_ad_tag_uri.clone());
                                assert(texts_v(self.current@) =~= cur0.push(w.vast_ad_tag_uri@));
                            },
                            None => {},
                        }
                        assert(texts_v(self.current@) =~= resolve_targets(d.subrange(0, i + 1)));
                        i += 1;
                    }
                    assert(d.subrange(0, i as int) =~= d);
                    assert(inline0 + inline_part(d) =~= inline0);
                    self.fallback = Some(doc);
                }
            },
            Mode::Collect => {
                let mut i: usize = 0;
                while i < doc.ads.len()
                    invariant
                        i <= doc.ads.len(),
                        d == doc.ads@,
                        self.mode == old(self).mode,
                        self.mode is Collect,
                        self.current_depth == depth,
                        self.root_version == old(self).root_version,
                        self.queue == old(self).queue,
                        self.visited == old(self).visited,
                        self.awaiting == old(self).awaiting,
                        self.inline_ads == old(self).inline_ads,
                        self.fallback == old(self).fallback,
                        bundle_view(self.tracking) == bundle_of(self.seen@),
                        self.tracking.wf(),
                        self.seen@ == seen0 + wrappers_of(d.subrange(0, i as int)),
                        texts_v(self.current@) == uris_of(wrappers_of(d.subrange(0, i as int))),
                    decreases doc.ads.len() - i,
                {
                    let ghost cur0 = texts_v(self.current@);
                    assert(d.subrange(0, i + 1).drop_last() =~= d.subrange(0, i as int));
                    assert(d.subrange(0, i + 1).last() == d[i as int]);
                    match &doc.ads[i].wrapper {
                        Some(w) => {
                            extract_wrapper_tracking(w, &mut self.tracking);
                            proof {
                                let s2 = self.seen@.push(*w);
                                assert(s2.drop_last() =~= self.seen@);
                                self.seen = Ghost(s2);
                            }
                            self.current.push(w.vast_ad_tag_uri.clone());
                            assert(texts_v(self.current@) =~= cur0.push(w.vast_ad_tag_uri@));
                        },
                        None => {},
                    }
                    assert(self.seen@ =~= seen0 + wrappers_of(d.subrange(0, i + 1)));
                    assert(texts_v(self.current@) =~= uris_of(wrappers_of(d.subrange(0, i + 1))));
                    i += 1;
                }
                assert(d.subrange(0, i as int) =~= d);
            },
        }
        proof {
            lemma_ads_view_parts(d);
            lemma_uris_view(wrappers_of(d));
            lemma_inline_part_empty(d);
            assert(ads_v(inline0 + inline_part(d)) =~= ads_v(inline0) + ads_v(inline_part(d)));
            assert(wrappers_view(seen0 + wrappers_of(d)) =~= wrappers_view(seen0) + wrappers_view(wrappers_of(d)));
            assert(doc_v(doc0).ads == ads_v(d));
            assert(self.view_v() == read_v(w0, self.mode, doc_v(doc0), depth));
        }
    }
}


impl Traversal {
    /// Goes on until a location must be fetched, or the walk is over.
    /// Documents that do not parse, and in resolve mode those deeper than
    /// the depth limit, are dropped; a location requested before is not
    /// followed again.
    pub fn advance(&mut self) -> (step: Step)
        requires
            old(self).wf(),
            !old(self).awaiting,
        ensures
            final(self).wf(),
            final(self).mode == old(self).mode,
            final(self).root_version == old(self).root_version,
            advance_v(old(self).view_v(), old(self).mode) == (match step {
                Step::Fetch(u) => Some(u@),
                Step::Done => None,
            }, final(self).view_v()),
            match step {
                Step::Fetch(u) => {
                    &&& !has_text(old(self).visited@, u@)
                    &&& final(self).visited@ == old(self).visited@.push(u)
                    &&& final(self).awaiting
                    &&& (final(self).queue@.len() < old(self).queue@.len() || (final(self).queue@.len()
                        == old(self).queue@.len() && final(self).current@.len() < old(self).current@.len()))
                },
                Step::Done => {
                    &&& final(self).visited == old(self).visited
                    &&& !final(self).awaiting
                    &&& final(self).queue@.len() == 0
                    &&& final(self).current@.len() == 0
                },
            },
    {
        loop
            invariant
                self.wf(),
                !self.awaiting,
                self.mode == old(self).mode,
                self.root_version == old(self).root_version,
                self.visited == old(self).visited,
                self.queue@.len() < old(self).queue@.len() || (self.queue@.len() == old(self).queue@.len()
                    && self.current@.len() <= old(self).current@.len()),
                advance_v(old(self).view_v(), old(self).mode) == advance_v(self.view_v(), self.mode),
            decreases self.queue@.len(), self.current@.len(),
        {
            let ghost w = self.view_v();
            if self.current.len() > 0 {
                let uri = self.current.remove(0);
                assert(texts_v(self.current@) =~= w.current.drop_first());
                assert(w.current[0] == uri@);
                proof {
                    lemma_has_text_view(self.visited@, uri@);
                }
                if !contains_text(&self.visited, uri.as_str()) {
                    let ghost old_visited = self.visited@;
                    self.visited.push(uri.clone());
                    assert forall|i: int, j: int| 0 <= i < j < self.visited@.len() implies
                        (#[trigger] self.visited@[i])@ != (#[trigger] self.visited@[j])@ by {
                        if j == old_visited.len() {
                            assert(old_visited[i] == self.visited@[i]);
                        } else {
                            assert(old_visited[i] == self.visited@[i]);
                            assert(old_visited[j] == self.visited@[j]);
                        }
                    }
                    self.awaiting = true;
                    assert(texts_v(self.visited@) =~= w.visited.push(uri@));
                    assert(self.view_v() == WalkV { visited: w.visited.push(uri@), current: w.current.drop_first(), ..w });
                    return Step::Fetch(uri);
                }
                assert(self.view_v() == WalkV { current: w.current.drop_first(), ..w });
            } else {
                match self.queue.pop_front() {
                    None => {
                        assert(queue_v(self.queue@) =~= Seq::empty());
                        return Step::Done;
                    },
                    Some((text, depth)) => {
                        assert(queue_v(self.queue@) =~= w.queue.drop_first());
                        assert(w.queue[0] == (text@, depth));
                        assert(self.view_v() == WalkV { queue: w.queue.drop_first(), ..w });
                        let deep = match self.mode {
                            Mode::Resolve => depth >= MAX_WRAPPER_DEPTH,
                            Mode::Collect => false,
                        };
                        if !deep {
                            match parse_vast(text.as_str()) {
                                Ok(doc) => {
                                    let d = match self.mode {
                                        Mode::Resolve => depth,
                                        Mode::Collect => 0,
                                    };
                                    self.read_document(doc, d);
                                },
                                Err(_) => {},
                            }
                        }
                    },
                }
            }
        }
    }

    /// Hands back the content at the location last requested, or `None`
    /// where it could not be fetched; fetched content is queued one level
    /// deeper than the document that pointed to it.
    pub fn supply(&mut self, content: Option<String>)
        requires
            old(self).wf(),
            old(self).awaiting,
        ensures
            final(self).wf(),
            !final(self).awaiting,
            final(self).mode == old(self).mode,
            final(self).root_version == old(self).root_version,
            final(self).visited == old(self).visited,
            final(self).current == old(self).current,
            final(self).current_depth == old(self).current_depth,
            final(self).inline_ads == old(self).inline_ads,
            final(self).fallback == old(self).fallback,
            final(self).tracking == old(self).tracking,
            final(self).seen == old(self).seen,
            final(self).view_v() == supply_v(old(self).view_v(), old(self).mode, match content {
                Some(t) => Some(t@),
                None => None,
            }),
            match content {
                Some(text) => final(self).queue@ == old(self).queue@.push((text, match old(self).mode {
                    Mode::Resolve => (old(self).current_depth + 1) as usize,
                    Mode::Collect => 0usize,
                })),
                None => final(self).queue == old(self).queue,
            },
    {
        self.awaiting = false;
        match content {
            Some(text) => {
                let depth = match self.mode {
                    Mode::Resolve => self.current_depth + 1,
                    Mode::Collect => 0,
                };
                let ghost q0 = self.queue@;
                let ghost tv = text@;
                self.queue.push_back((text, depth));
                assert(queue_v(self.queue@) =~= queue_v(q0).push((tv, depth)));
            },
            None => {},
        }
    }

    /// The resolved document: the inline ads found, under the root's
    /// version, or where there is none the last document read.
    pub fn finish(self) -> (r: Vast)
        requires
            self.wf(),
            self.mode is Resolve,
        ensures
            self.inline_ads@.len() > 0 ==> r.version == self.root_version && r.ads == self.inline_ads
                && r.error is None,
            self.inline_ads@.len() == 0 ==> Some(r) == self.fallback,
            all_inline(r.ads@) || no_inline(r.ads@),
            doc_v(r) == finish_v(self.view_v()),
    {
        if self.inline_ads.len() > 0 {
            Vast { version: self.root_version, ads: self.inline_ads, error: None }
        } else {
            match self.fallback {
                Some(v) => v,
                None => Vast {
                    version: String::from_str("4.0"),
                    ads: Vec::new(),
                    error: Some(String::from_str("No valid VAST documents found in the chain")),
                },
            }
        }
    }
}


/// Whether some entry of `sources` is at location `u`.
pub open spec fn has_location(sources: Seq<(String, String)>, u: Seq<char>) -> bool {
    exists|i: int| 0 <= i < sources.len() && (#[trigger] sources[i]).0@ == u
}

/// How many entries of `sources` are at a location not yet requested.
pub open spec fn unvisited(sources: Seq<(String, String)>, visited: Seq<String>) -> nat
    decreases sources.len(),
{
    if sources.len() == 0 {
        0
    } else {
        unvisited(sources.drop_last(), visited) + if has_text(visited, sources.last().0@) {
            0nat
        } else {
            1nat
        }
    }
}

proof fn lemma_has_text_push(v: Seq<String>, u: String, k: Seq<char>)
    ensures
        has_text(v.push(u), k) == (has_text(v, k) || u@ == k),
{
    let w = v.push(u);
    if has_text(v, k) {
        let i = choose|i: int| 0 <= i < v.len() && (#[trigger] v[i])@ == k;
        assert(w[i] == v[i]);
    }
    if u@ == k {
        assert(w[v.len() as int] == u);
    }
    if has_text(w, k) && !(u@ == k) {
        let i = choose|i: int| 0 <= i < w.len() && (#[trigger] w[i])@ == k;
        assert(i < v.len());
        assert(w[i] == v[i]);
    }
}

proof fn lemma_unvisited_push(sources: Seq<(String, String)>, v: Seq<String>, u: String)
    requires
        !has_text(v, u@),
    ensures
        has_location(sources, u@) ==> unvisited(sources, v.push(u)) < unvisited(sources, v),
        !has_location(sources, u@) ==> unvisited(sources, v.push(u)) == unvisited(sources, v),
        unvisited(sources, v.push(u)) <= unvisited(sources, v),
    decreases sources.len(),
{
    if sources.len() > 0 {
        let init = sources.drop_last();
        lemma_unvisited_push(init, v, u);
        let k = sources.last().0@;
        lemma_has_text_push(v, u, k);
        if has_location(sources, u@) && !has_location(init, u@) {
            let i = choose|i: int| 0 <= i < sources.len() && (#[trigger] sources[i]).0@ == u@;
            if i < init.len() {
                assert(init[i] == sources[i]);
            }
        }
        if has_location(init, u@) {
            let i = choose|i: int| 0 <= i < init.len() && (#[trigger] init[i]).0@ == u@;
            assert(sources[i] == init[i]);
        }
        if !has_location(sources, u@) {
            assert(sources[sources.len() - 1] == sources.last());
        }
    }
}

/// The content of the first entry of `sources` at location `u`.
fn lookup(sources: &Vec<(String, String)>, u: &str) -> (r: Option<String>)
    ensures
        r is Some <==> has_location(sources@, u@),
        (match r {
            Some(c) => Some(c@),
            None => None,
        }) == lookup_v(sources@, u@, 0),
{
    let mut i: usize = 0;
    while i < sources.len()
        invariant
            i <= sources.len(),
            forall|j: int| 0 <= j < i ==> (#[trigger] sources@[j]).0@ != u@,
            lookup_v(sources@, u@, 0) == lookup_v(sources@, u@, i as int),
        decreases sources.len() - i,
    {
        if text_eq(sources[i].0.as_str(), u) {
            return Some(sources[i].1.clone());
        }
        i += 1;
    }
    None
}

/// Runs a walk to its end, fetching each location from `sources`; a
/// location with no entry there counts as a failed fetch. The walk ends in
/// the state that `run_v` gives.
pub fn run_with_sources(t: &mut Traversal, sources: &Vec<(String, String)>)
    requires
        old(t).wf(),
        !old(t).awaiting,
    ensures
        final(t).wf(),
        !final(t).awaiting,
        final(t).mode == old(t).mode,
        final(t).root_version == old(t).root_version,
        final(t).queue@.len() == 0,
        final(t).current@.len() == 0,
        exists|f: nat| run_v(old(t).view_v(), old(t).mode, sources@, f) == Some(final(t).view_v()),
{
    let ghost w0 = t.view_v();
    let ghost mode = t.mode;
    let ghost mut k: nat = 0;
    loop
        invariant
            t.wf(),
            !t.awaiting,
            t.mode == old(t).mode,
            mode == t.mode,
            w0 == old(t).view_v(),
            t.root_version == old(t).root_version,
            forall|f: nat| run_v(w0, mode, sources@, f + k) == #[trigger] run_v(t.view_v(), mode, sources@, f),
        decreases unvisited(sources@, t.visited@), t.queue@.len(), t.current@.len(),
    {
        let ghost v0 = t.visited@;
        let ghost wp = t.view_v();
        match t.advance() {
            Step::Fetch(u) => {
                proof {
                    lemma_unvisited_push(sources@, v0, u);
                }
                let ghost wm = t.view_v();
                let content = lookup(sources, u.as_str());
                t.supply(content);
                proof {
                    assert forall|f: nat| run_v(w0, mode, sources@, f + (k + 1)) == #[trigger] run_v(t.view_v(), mode, sources@, f) by {
                        assert(run_v(w0, mode, sources@, (f + 1) + k) == run_v(wp, mode, sources@, f + 1));
                        assert(supply_v(wm, mode, lookup_v(sources@, u@, 0)) == t.view_v());
                        assert(run_v(wp, mode, sources@, f + 1) == run_v(t.view_v(), mode, sources@, f));
                        assert((f + 1) + k == f + (k + 1));
                    }
                    k = k + 1;
                }
            },
            Step::Done => {
                proof {
                    assert(run_v(w0, mode, sources@, 1 + k) == run_v(wp, mode, sources@, 1));
                    assert(run_v(wp, mode, sources@, 1) == Some(t.view_v()));
                }
                return;
            },
        }
    }
}

/// Resolves a VAST document through its wrapper chain, fetching wrapper
/// locations from `sources` (location, content): the breadth-first
/// resolution of the root, `resolution`. It fails exactly where the root
/// does not parse.
pub fn unwrap_vast(xml_content: &str, sources: &Vec<(String, String)>) -> (r: Result<Vast>)
    ensures
        r is Err <==> parsed_doc(xml_tokens(xml_content@)) is None,
        r is Err ==> parse_outcome(xml_tokens(xml_content@), Err(r->Err_0)),
        well_formed(xml_tokens(xml_content@)) && root_version(xml_tokens(xml_content@)) is Some ==> r is Ok,
        r is Ok ==> Some(doc_v(r->Ok_0)) == resolution(xml_content@, sources@),
        r is Ok ==> {
            let v = r->Ok_0;
            ||| (v.ads@.len() > 0 && all_inline(v.ads@) && v.error is None
                && Some(v.version) == root_version(xml_tokens(xml_content@)))
            ||| no_inline(v.ads@)
        },
{
    let mut t = match Traversal::start(xml_content, Mode::Resolve) {
        Ok(t) => t,
        Err(e) => return Err(e),
    };
    let ghost w0 = t.view_v();
    run_with_sources(&mut t, sources);
    proof {
        let f = choose|f: nat| run_v(w0, Mode::Resolve, sources@, f) == Some(t.view_v());
        let g = choose|f: nat| (#[trigger] run_v(w0, Mode::Resolve, sources@, f)) is Some;
        lemma_run_unique(w0, Mode::Resolve, sources@, f, g);
        assert(walk_result(xml_content@, sources@, Mode::Resolve) == Some(t.view_v()));
    }
    Ok(t.finish())
}

/// Collects the tracking of every wrapper hop reachable from the root,
/// fetching wrapper locations from `sources`: the bundle of the wrappers
/// that the walk reaches, in visiting order. It fails exactly where the root
/// does not parse.
pub fn collect_wrapper_tracking(xml_content: &str, sources: &Vec<(String, String)>) -> (r: Result<WrapperTracking>)
    ensures
        r is Err <==> parsed_doc(xml_tokens(xml_content@)) is None,
        r is Err ==> parse_outcome(xml_tokens(xml_content@), Err(r->Err_0)),
        well_formed(xml_tokens(xml_content@)) && root_version(xml_tokens(xml_content@)) is Some ==> r is Ok,
        r is Ok ==> exists|ws: Seq<Wrapper>| bundle_view(r->Ok_0) == bundle_of(ws)
            && Some(wrappers_view(ws)) == collected(xml_content@, sources@),
{
    let mut t = match Traversal::start(xml_content, Mode::Collect) {
        Ok(t) => t,
        Err(e) => return Err(e),
    };
    let ghost w0 = t.view_v();
    run_with_sources(&mut t, sources);
    proof {
        let f = choose|f: nat| run_v(w0, Mode::Collect, sources@, f) == Some(t.view_v());
        let g = choose|f: nat| (#[trigger] run_v(w0, Mode::Collect, sources@, f)) is Some;
        lemma_run_unique(w0, Mode::Collect, sources@, f, g);
        assert(walk_result(xml_content@, sources@, Mode::Collect) == Some(t.view_v()));
    }
    let ghost ws = t.seen@;
    let tracking = t.tracking;
    assert(bundle_view(tracking) == bundle_of(ws));
    assert(Some(wrappers_view(ws)) == collected(xml_content@, sources@));
    Ok(tracking)
}


/// An ad with no inline content whose wrapper points to `u`.
pub open spec fn points_to(a: AdV, u: Seq<char>) -> bool {
    a.inline is None && a.wrapper is Some && a.wrapper->Some_0.vast_ad_tag_uri == u
}

proof fn lemma_single_pointer(ads: Seq<AdV>, u: Seq<char>)
    requires
        ads.len() == 1,
        points_to(ads[0], u),
    ensures
        inline_part_v(ads) == Seq::<AdV>::empty(),
        targets_v(ads) == seq![u],
{
    assert(ads.drop_last() =~= Seq::<AdV>::empty());
    assert(ads.last() == ads[0]);
    assert(targets_v(ads.drop_last()) == Seq::<Seq<char>>::empty());
    assert(inline_part_v(ads.drop_last()) == Seq::<AdV>::empty());
    assert(targets_v(ads) =~= seq![u]);
    assert(inline_part_v(ads) =~= Seq::<AdV>::empty());
}

proof fn lemma_all_inline_v(ads: Seq<AdV>)
    requires
        forall|i: int| 0 <= i < ads.len() ==> (#[trigger] ads[i]).inline is Some,
    ensures
        inline_part_v(ads) == ads,
        targets_v(ads) == Seq::<Seq<char>>::empty(),
    decreases ads.len(),
{
    if ads.len() > 0 {
        let p = ads.drop_last();
        assert forall|i: int| 0 <= i < p.len() implies (#[trigger] p[i]).inline is Some by {
            assert(p[i] == ads[i]);
        }
        lemma_all_inline_v(p);
        assert(ads[ads.len() - 1].inline is Some);
        assert(p.push(ads.last()) =~= ads);
        assert(targets_v(ads) =~= Seq::<Seq<char>>::empty());
    } else {
        assert(inline_part_v(ads) =~= ads);
    }
}

proof fn lemma_walk_result(root: Seq<char>, sources: Seq<(String, String)>, mode: Mode, w0: WalkV, f: nat)
    requires
        start_v(root, mode) == Some(w0),
        run_v(w0, mode, sources, f) is Some,
    ensures
        walk_result(root, sources, mode) == run_v(w0, mode, sources, f),
{
    let g = choose|g: nat| (#[trigger] run_v(w0, mode, sources, g)) is Some;
    lemma_run_unique(w0, mode, sources, f, g);
}

/// A root whose only ad is a wrapper pointing to a location whose content is
/// the root itself resolves, after that one fetch, to the root document.
pub proof fn lemma_self_cycle_resolves_to_root(root: Seq<char>, sources: Seq<(String, String)>, u: Seq<char>)
    requires
        parsed_doc(xml_tokens(root)) is Some,
        parsed_doc(xml_tokens(root))->Some_0.ads.len() == 1,
        points_to(parsed_doc(xml_tokens(root))->Some_0.ads[0], u),
        lookup_v(sources, u, 0) == Some(root),
    ensures
        resolution(root, sources) == parsed_doc(xml_tokens(root)),
{
    let d = parsed_doc(xml_tokens(root))->Some_0;
    lemma_single_pointer(d.ads, u);
    let mode = Mode::Resolve;
    let w0 = start_v(root, mode)->Some_0;
    assert(w0.current == seq![u]);
    assert(w0.inline.len() == 0);
    assert(w0.fallback == Some(d));
    let w1 = WalkV { current: w0.current.drop_first(), visited: w0.visited.push(u), ..w0 };
    assert(!w0.visited.contains(u));
    assert(advance_v(w0, mode) == (Some(u), w1));
    let w2 = supply_v(w1, mode, Some(root));
    assert(w2.queue == seq![(root, 1usize)]);
    let w3 = WalkV { queue: w2.queue.drop_first(), ..w2 };
    let w4 = read_v(w3, mode, d, 1);
    assert(w4.current == seq![u]);
    assert(w4.visited.contains(u)) by {
        assert(w4.visited[0] == u);
    }
    let w5 = WalkV { current: w4.current.drop_first(), ..w4 };
    assert(w5.current.len() == 0 && w5.queue.len() == 0);
    assert(advance_v(w5, mode) == (None::<Seq<char>>, w5));
    assert(advance_v(w4, mode) == advance_v(w5, mode));
    assert(advance_v(w2, mode) == advance_v(w4, mode));
    assert(run_v(w2, mode, sources, 1) == Some(w5));
    assert(run_v(w0, mode, sources, 2) == Some(w5));
    lemma_walk_result(root, sources, mode, w0, 2);
    assert(w5.inline.len() == 0);
    assert(w5.fallback == Some(d));
}


/// A chain of wrappers: the root's only ad points to `us[0]`; the content at
/// `us[j]` in `sources` is `ts[j]`, which parses to `docs[j]`; each document
/// but the last has one ad, pointing to the next location; the last has
/// inline ads only, at least one. The locations are distinct.
pub open spec fn wrapper_chain(
    root: Seq<char>,
    sources: Seq<(String, String)>,
    us: Seq<Seq<char>>,
    ts: Seq<Seq<char>>,
    docs: Seq<DocV>,
) -> bool {
    let k = us.len();
    &&& k >= 1
    &&& ts.len() == k && docs.len() == k
    &&& parsed_doc(xml_tokens(root)) is Some
    &&& parsed_doc(xml_tokens(root))->Some_0.ads.len() == 1
    &&& points_to(parsed_doc(xml_tokens(root))->Some_0.ads[0], us[0])
    &&& forall|j: int| 0 <= j < k ==> lookup_v(sources, #[trigger] us[j], 0) == Some(ts[j])
        && parsed_doc(xml_tokens(ts[j])) == Some(docs[j])
    &&& forall|j: int| 0 <= j < k - 1 ==> (#[trigger] docs[j]).ads.len() == 1 && points_to(docs[j].ads[0], us[j + 1])
    &&& docs[k - 1].ads.len() > 0
    &&& forall|i: int| 0 <= i < docs[k - 1].ads.len() ==> (#[trigger] docs[k - 1].ads[i]).inline is Some
    &&& forall|i: int, j: int| 0 <= i < j < k ==> #[trigger] us[i] != #[trigger] us[j]
}

/// The walk along a chain after `j` fetches: the content of `us[j - 1]`
/// queued at depth `j`.
pub open spec fn chain_state(rv: Seq<char>, us: Seq<Seq<char>>, ts: Seq<Seq<char>>, j: int, fb: DocV) -> WalkV {
    WalkV {
        root_version: rv,
        queue: seq![(ts[j - 1], j as usize)],
        current: Seq::empty(),
        depth: (j - 1) as usize,
        visited: us.subrange(0, j),
        inline: Seq::empty(),
        fallback: Some(fb),
        seen: Seq::empty(),
    }
}

proof fn lemma_chain_from(
    root: Seq<char>,
    sources: Seq<(String, String)>,
    us: Seq<Seq<char>>,
    ts: Seq<Seq<char>>,
    docs: Seq<DocV>,
    rv: Seq<char>,
    j: int,
    fb: DocV,
)
    requires
        wrapper_chain(root, sources, us, ts, docs),
        us.len() < MAX_WRAPPER_DEPTH,
        1 <= j <= us.len(),
    ensures
        run_v(chain_state(rv, us, ts, j, fb), Mode::Resolve, sources, (us.len() - j + 1) as nat) is Some,
        finish_v(run_v(chain_state(rv, us, ts, j, fb), Mode::Resolve, sources, (us.len() - j + 1) as nat)->Some_0)
            == (DocV { version: rv, ads: docs[us.len() - 1].ads, error: None }),
    decreases us.len() - j,
{
    let k = us.len() as int;
    let mode = Mode::Resolve;
    let w = chain_state(rv, us, ts, j, fb);
    assert(lookup_v(sources, us[j - 1], 0) == Some(ts[j - 1]) && parsed_doc(xml_tokens(ts[j - 1])) == Some(docs[j - 1]));
    let d = docs[j - 1];
    let w1 = WalkV { queue: w.queue.drop_first(), ..w };
    assert(w1.queue.len() == 0);
    let w2 = read_v(w1, mode, d, j as usize);
    assert(advance_v(w, mode) == advance_v(w2, mode));
    if j < k {
        assert(d.ads.len() == 1 && points_to(d.ads[0], us[j]));
        lemma_single_pointer(d.ads, us[j]);
        assert(w2.current == seq![us[j]]);
        assert(!w2.visited.contains(us[j])) by {
            if w2.visited.contains(us[j]) {
                let i = choose|i: int| 0 <= i < w2.visited.len() && w2.visited[i] == us[j];
                assert(us.subrange(0, j)[i] == us[i]);
            }
        }
        let w3 = WalkV { current: w2.current.drop_first(), visited: w2.visited.push(us[j]), ..w2 };
        assert(advance_v(w2, mode) == (Some(us[j]), w3));
        assert(lookup_v(sources, us[j], 0) == Some(ts[j]));
        let w4 = supply_v(w3, mode, Some(ts[j]));
        let next = chain_state(rv, us, ts, j + 1, d);
        assert(w4.queue =~= next.queue);
        assert(w4.visited =~= next.visited);
        assert(w4.current =~= next.current);
        assert(w4.inline =~= next.inline);
        assert(w4 == next);
        lemma_chain_from(root, sources, us, ts, docs, rv, j + 1, d);
        assert(run_v(w, mode, sources, (k - j + 1) as nat) == run_v(next, mode, sources, (k - j) as nat));
    } else {
        lemma_all_inline_v(d.ads);
        assert(w2.current.len() == 0);
        assert(advance_v(w2, mode) == (None::<Seq<char>>, w2));
        assert(run_v(w, mode, sources, 1) == Some(w2));
        assert(w2.inline =~= d.ads);
    }
}

/// A chain of fewer than the depth limit of wrappers that ends in inline
/// ads resolves to exactly those ads, under the root's version.
pub proof fn lemma_short_chain_resolves_to_inline(
    root: Seq<char>,
    sources: Seq<(String, String)>,
    us: Seq<Seq<char>>,
    ts: Seq<Seq<char>>,
    docs: Seq<DocV>,
)
    requires
        wrapper_chain(root, sources, us, ts, docs),
        us.len() < MAX_WRAPPER_DEPTH,
    ensures
        resolution(root, sources) == Some(DocV {
            version: parsed_doc(xml_tokens(root))->Some_0.version,
            ads: docs[us.len() - 1].ads,
            error: None,
        }),
{
    let mode = Mode::Resolve;
    let d0 = parsed_doc(xml_tokens(root))->Some_0;
    let rv = d0.version;
    lemma_single_pointer(d0.ads, us[0]);
    let w0 = start_v(root, mode)->Some_0;
    assert(w0.current == seq![us[0]]);
    let w1 = WalkV { current: w0.current.drop_first(), visited: w0.visited.push(us[0]), ..w0 };
    assert(!w0.visited.contains(us[0]));
    assert(advance_v(w0, mode) == (Some(us[0]), w1));
    assert(lookup_v(sources, us[0], 0) == Some(ts[0]));
    let w2 = supply_v(w1, mode, Some(ts[0]));
    let s1 = chain_state(rv, us, ts, 1, d0);
    assert(w2.queue =~= s1.queue);
    assert(w2.visited =~= s1.visited);
    assert(w2.current =~= s1.current);
    assert(w2.inline =~= s1.inline);
    assert(w2 == s1);
    lemma_chain_from(root, sources, us, ts, docs, rv, 1, d0);
    let k = us.len();
    assert(run_v(w0, mode, sources, (k + 1) as nat) == run_v(s1, mode, sources, k as nat));
    lemma_walk_result(root, sources, mode, w0, (k + 1) as nat);
}


/// A chain of wrappers at least as long as the depth limit: the root's only
/// ad points to `us[0]`; the content at `us[j]` is `ts[j]` up to the limit;
/// the documents before the limit parse to `docs[j]`, each with one ad
/// pointing to the next location. The locations are distinct.
pub open spec fn long_wrapper_chain(
    root: Seq<char>,
    sources: Seq<(String, String)>,
    us: Seq<Seq<char>>,
    ts: Seq<Seq<char>>,
    docs: Seq<DocV>,
) -> bool {
    let n = MAX_WRAPPER_DEPTH as int;
    &&& us.len() == n && ts.len() == n && docs.len() == n - 1
    &&& parsed_doc(xml_tokens(root)) is Some
    &&& parsed_doc(xml_tokens(root))->Some_0.ads.len() == 1
    &&& points_to(parsed_doc(xml_tokens(root))->Some_0.ads[0], us[0])
    &&& forall|j: int| 0 <= j < n ==> lookup_v(sources, #[trigger] us[j], 0) == Some(ts[j])
    &&& forall|j: int| 0 <= j < n - 1 ==> parsed_doc(xml_tokens(#[trigger] ts[j])) == Some(docs[j])
        && docs[j].ads.len() == 1 && points_to(docs[j].ads[0], us[j + 1])
    &&& forall|i: int, j: int| 0 <= i < j < n ==> #[trigger] us[i] != #[trigger] us[j]
}

proof fn lemma_long_chain_from(
    root: Seq<char>,
    sources: Seq<(String, String)>,
    us: Seq<Seq<char>>,
    ts: Seq<Seq<char>>,
    docs: Seq<DocV>,
    rv: Seq<char>,
    j: int,
    fb: DocV,
)
    requires
        long_wrapper_chain(root, sources, us, ts, docs),
        1 <= j <= MAX_WRAPPER_DEPTH,
        j == MAX_WRAPPER_DEPTH ==> fb == docs[MAX_WRAPPER_DEPTH - 2],
    ensures
        run_v(chain_state(rv, us, ts, j, fb), Mode::Resolve, sources, (MAX_WRAPPER_DEPTH - j + 1) as nat) is Some,
        finish_v(run_v(chain_state(rv, us, ts, j, fb), Mode::Resolve, sources, (MAX_WRAPPER_DEPTH - j + 1) as nat)->Some_0)
            == docs[MAX_WRAPPER_DEPTH - 2],
    decreases MAX_WRAPPER_DEPTH - j,
{
    let n = MAX_WRAPPER_DEPTH as int;
    let mode = Mode::Resolve;
    let w = chain_state(rv, us, ts, j, fb);
    let w1 = WalkV { queue: w.queue.drop_first(), ..w };
    assert(w1.queue.len() == 0);
    if j < n {
        assert(parsed_doc(xml_tokens(ts[j - 1])) == Some(docs[j - 1]));
        let d = docs[j - 1];
        let w2 = read_v(w1, mode, d, j as usize);
        assert(advance_v(w, mode) == advance_v(w2, mode));
        lemma_single_pointer(d.ads, us[j]);
        assert(w2.current == seq![us[j]]);
        assert(!w2.visited.contains(us[j])) by {
            if w2.visited.contains(us[j]) {
                let i = choose|i: int| 0 <= i < w2.visited.len() && w2.visited[i] == us[j];
                assert(us.subrange(0, j)[i] == us[i]);
            }
        }
        let w3 = WalkV { current: w2.current.drop_first(), visited: w2.visited.push(us[j]), ..w2 };
        assert(advance_v(w2, mode) == (Some(us[j]), w3));
        assert(lookup_v(sources, us[j], 0) == Some(ts[j]));
        let w4 = supply_v(w3, mode, Some(ts[j]));
        let next = chain_state(rv, us, ts, j + 1, d);
        assert(w4.queue =~= next.queue);
        assert(w4.visited =~= next.visited);
        assert(w4.current =~= next.current);
        assert(w4.inline =~= next.inline);
        assert(w4 == next);
        lemma_long_chain_from(root, sources, us, ts, docs, rv, j + 1, d);
        assert(run_v(w, mode, sources, (n - j + 1) as nat) == run_v(next, mode, sources, (n - j) as nat));
    } else {
        assert(advance_v(w, mode) == advance_v(w1, mode));
        assert(advance_v(w1, mode) == (None::<Seq<char>>, w1));
        assert(run_v(w, mode, sources, 1) == Some(w1));
    }
}

/// A chain of wrappers reaching the depth limit resolves, without error, to
/// the last document read before the limit: the one at depth one less than
/// the limit. The document at the limit is fetched but not read.
pub proof fn lemma_long_chain_resolves_to_last_read(
    root: Seq<char>,
    sources: Seq<(String, String)>,
    us: Seq<Seq<char>>,
    ts: Seq<Seq<char>>,
    docs: Seq<DocV>,
)
    requires
        long_wrapper_chain(root, sources, us, ts, docs),
    ensures
        resolution(root, sources) == Some(docs[MAX_WRAPPER_DEPTH - 2]),
{
    let mode = Mode::Resolve;
    let d0 = parsed_doc(xml_tokens(root))->Some_0;
    let rv = d0.version;
    lemma_single_pointer(d0.ads, us[0]);
    let w0 = start_v(root, mode)->Some_0;
    assert(w0.current == seq![us[0]]);
    let w1 = WalkV { current: w0.current.drop_first(), visited: w0.visited.push(us[0]), ..w0 };
    assert(!w0.visited.contains(us[0]));
    assert(advance_v(w0, mode) == (Some(us[0]), w1));
    assert(lookup_v(sources, us[0], 0) == Some(ts[0]));
    let w2 = supply_v(w1, mode, Some(ts[0]));
    let s1 = chain_state(rv, us, ts, 1, d0);
    assert(w2.queue =~= s1.queue);
    assert(w2.visited =~= s1.visited);
    assert(w2.current =~= s1.current);
    assert(w2.inline =~= s1.inline);
    assert(w2 == s1);
    lemma_long_chain_from(root, sources, us, ts, docs, rv, 1, d0);
    let n = MAX_WRAPPER_DEPTH as int;
    assert(run_v(w0, mode, sources, (n + 1) as nat) == run_v(s1, mode, sources, n as nat));
    lemma_walk_result(root, sources, mode, w0, (n + 1) as nat);
}

/// In a pod of a wrapper whose fetch fails, an inline ad and a wrapper whose
/// content parses to one inline ad, the failed branch loses only its own
/// ads: the result is the inline ad and the fetched one, under the root's
/// version.
pub proof fn lemma_failed_branch_keeps_others(
    root: Seq<char>,
    sources: Seq<(String, String)>,
    u1: Seq<char>,
    u3: Seq<char>,
    t: Seq<char>,
)
    requires
        parsed_doc(xml_tokens(root)) is Some,
        parsed_doc(xml_tokens(root))->Some_0.ads.len() == 3,
        points_to(parsed_doc(xml_tokens(root))->Some_0.ads[0], u1),
        parsed_doc(xml_tokens(root))->Some_0.ads[1].inline is Some,
        points_to(parsed_doc(xml_tokens(root))->Some_0.ads[2], u3),
        u1 != u3,
        lookup_v(sources, u1, 0) is None,
        lookup_v(sources, u3, 0) == Some(t),
        parsed_doc(xml_tokens(t)) is Some,
        parsed_doc(xml_tokens(t))->Some_0.ads.len() == 1,
        parsed_doc(xml_tokens(t))->Some_0.ads[0].inline is Some,
    ensures
        resolution(root, sources) == Some(DocV {
            version: parsed_doc(xml_tokens(root))->Some_0.version,
            ads: seq![parsed_doc(xml_tokens(root))->Some_0.ads[1], parsed_doc(xml_tokens(t))->Some_0.ads[0]],
            error: None,
        }),
{
    let mode = Mode::Resolve;
    let d0 = parsed_doc(xml_tokens(root))->Some_0;
    let e = parsed_doc(xml_tokens(t))->Some_0;
    let a = d0.ads;
    assert(a.subrange(0, 1).drop_last() =~= Seq::<AdV>::empty());
    assert(a.subrange(0, 2).drop_last() =~= a.subrange(0, 1));
    assert(a.subrange(0, 3).drop_last() =~= a.subrange(0, 2));
    assert(a.subrange(0, 3) =~= a);
    assert(a.drop_last() =~= a.subrange(0, 2));
    assert(a.subrange(0, 2).last() == a[1]);
    assert(a.subrange(0, 1).last() == a[0]);
    assert(a.subrange(0, 1)[0] == a[0]);
    lemma_single_pointer(a.subrange(0, 1), u1);
    assert(inline_part_v(a.subrange(0, 2)) =~= seq![a[1]]);
    assert(targets_v(a.subrange(0, 2)) =~= seq![u1]);
    assert(inline_part_v(a) =~= seq![a[1]]);
    assert(targets_v(a) =~= seq![u1, u3]);
    let w0 = start_v(root, mode)->Some_0;
    assert(w0.current == seq![u1, u3]);
    assert(w0.inline == seq![a[1]]);
    let w1 = WalkV { current: w0.current.drop_first(), visited: w0.visited.push(u1), ..w0 };
    assert(!w0.visited.contains(u1));
    assert(advance_v(w0, mode) == (Some(u1), w1));
    let w2 = supply_v(w1, mode, None);
    assert(w2 == w1);
    assert(w1.current =~= seq![u3]);
    assert(!w1.visited.contains(u3)) by {
        assert(w1.visited =~= seq![u1]);
    }
    let w3 = WalkV { current: w1.current.drop_first(), visited: w1.visited.push(u3), ..w1 };
    assert(advance_v(w1, mode) == (Some(u3), w3));
    let w4 = supply_v(w3, mode, Some(t));
    assert(w4.queue == seq![(t, 1usize)]);
    let w5 = WalkV { queue: w4.queue.drop_first(), ..w4 };
    lemma_all_inline_v(e.ads);
    let w6 = read_v(w5, mode, e, 1);
    assert(w6.current.len() == 0 && w6.queue.len() == 0);
    assert(advance_v(w6, mode) == (None::<Seq<char>>, w6));
    assert(advance_v(w4, mode) == advance_v(w6, mode));
    assert(run_v(w4, mode, sources, 1) == Some(w6));
    assert(run_v(w2, mode, sources, 2) == run_v(w4, mode, sources, 1));
    assert(run_v(w0, mode, sources, 3) == Some(w6));
    lemma_walk_result(root, sources, mode, w0, 3);
    assert(w6.inline =~= seq![a[1], e.ads[0]]);
}


/// A root with no ads resolves to itself, with no fetch.
pub proof fn lemma_empty_root_resolves_to_itself(root: Seq<char>, sources: Seq<(String, String)>)
    requires
        parsed_doc(xml_tokens(root)) is Some,
        parsed_doc(xml_tokens(root))->Some_0.ads.len() == 0,
    ensures
        resolution(root, sources) == parsed_doc(xml_tokens(root)),
{
    let mode = Mode::Resolve;
    let d0 = parsed_doc(xml_tokens(root))->Some_0;
    assert(inline_part_v(d0.ads) == Seq::<AdV>::empty());
    assert(targets_v(d0.ads) == Seq::<Seq<char>>::empty());
    let w0 = start_v(root, mode)->Some_0;
    assert(advance_v(w0, mode) == (None::<Seq<char>>, w0));
    assert(run_v(w0, mode, sources, 1) == Some(w0));
    lemma_walk_result(root, sources, mode, w0, 1);
}

/// Two wrappers of a pod pointing to the same location: the location is
/// followed once, and the result is the inline ad found there, once.
pub proof fn lemma_shared_target_claimed_once(
    root: Seq<char>,
    sources: Seq<(String, String)>,
    u: Seq<char>,
    t: Seq<char>,
)
    requires
        parsed_doc(xml_tokens(root)) is Some,
        parsed_doc(xml_tokens(root))->Some_0.ads.len() == 2,
        points_to(parsed_doc(xml_tokens(root))->Some_0.ads[0], u),
        points_to(parsed_doc(xml_tokens(root))->Some_0.ads[1], u),
        lookup_v(sources, u, 0) == Some(t),
        parsed_doc(xml_tokens(t)) is Some,
        parsed_doc(xml_tokens(t))->Some_0.ads.len() == 1,
        parsed_doc(xml_tokens(t))->Some_0.ads[0].inline is Some,
    ensures
        resolution(root, sources) == Some(DocV {
            version: parsed_doc(xml_tokens(root))->Some_0.version,
            ads: parsed_doc(xml_tokens(t))->Some_0.ads,
            error: None,
        }),
{
    let mode = Mode::Resolve;
    let d0 = parsed_doc(xml_tokens(root))->Some_0;
    let e = parsed_doc(xml_tokens(t))->Some_0;
    let a = d0.ads;
    assert(a.subrange(0, 1)[0] == a[0]);
    lemma_single_pointer(a.subrange(0, 1), u);
    assert(a.drop_last() =~= a.subrange(0, 1));
    assert(inline_part_v(a) =~= Seq::<AdV>::empty());
    assert(targets_v(a) =~= seq![u, u]);
    let w0 = start_v(root, mode)->Some_0;
    assert(w0.current == seq![u, u]);
    let w1 = WalkV { current: w0.current.drop_first(), visited: w0.visited.push(u), ..w0 };
    assert(!w0.visited.contains(u));
    assert(advance_v(w0, mode) == (Some(u), w1));
    let w2 = supply_v(w1, mode, Some(t));
    assert(w2.current =~= seq![u]);
    assert(w2.visited.contains(u)) by {
        assert(w2.visited[0] == u);
    }
    let w3 = WalkV { current: w2.current.drop_first(), ..w2 };
    assert(advance_v(w2, mode) == advance_v(w3, mode));
    assert(w3.queue == seq![(t, 1usize)]);
    let w4 = WalkV { queue: w3.queue.drop_first(), ..w3 };
    lemma_all_inline_v(e.ads);
    let w5 = read_v(w4, mode, e, 1);
    assert(w5.current.len() == 0 && w5.queue.len() == 0);
    assert(advance_v(w5, mode) == (None::<Seq<char>>, w5));
    assert(advance_v(w3, mode) == advance_v(w5, mode));
    assert(run_v(w2, mode, sources, 1) == Some(w5));
    assert(run_v(w0, mode, sources, 2) == Some(w5));
    lemma_walk_result(root, sources, mode, w0, 2);
    assert(w5.inline =~= e.ads);
}


proof fn lemma_single_wrapper_v(ads: Seq<AdV>)
    requires
        ads.len() == 1,
        ads[0].wrapper is Some,
    ensures
        wrappers_v(ads) == seq![ads[0].wrapper->Some_0],
{
    assert(ads.drop_last() =~= Seq::<AdV>::empty());
    assert(ads.last() == ads[0]);
    assert(wrappers_v(ads.drop_last()) == Seq::<WrapperV>::empty());
    assert(wrappers_v(ads) =~= seq![ads[0].wrapper->Some_0]);
}

proof fn lemma_no_wrappers_v(ads: Seq<AdV>)
    requires
        forall|i: int| 0 <= i < ads.len() ==> (#[trigger] ads[i]).wrapper is None,
    ensures
        wrappers_v(ads) == Seq::<WrapperV>::empty(),
    decreases ads.len(),
{
    if ads.len() > 0 {
        let p = ads.drop_last();
        assert forall|i: int| 0 <= i < p.len() implies (#[trigger] p[i]).wrapper is None by {
            assert(p[i] == ads[i]);
        }
        lemma_no_wrappers_v(p);
        assert(ads[ads.len() - 1].wrapper is None);
        assert(wrappers_v(ads) =~= Seq::<WrapperV>::empty());
    }
}

/// Collecting over a chain root -> `u1` -> `u2` of two wrappers ending in a
/// document without wrappers gathers both wrappers, in that order.
pub proof fn lemma_collect_two_hops(
    root: Seq<char>,
    sources: Seq<(String, String)>,
    u1: Seq<char>,
    t1: Seq<char>,
    u2: Seq<char>,
    t2: Seq<char>,
)
    requires
        parsed_doc(xml_tokens(root)) is Some,
        parsed_doc(xml_tokens(root))->Some_0.ads.len() == 1,
        parsed_doc(xml_tokens(root))->Some_0.ads[0].wrapper is Some,
        parsed_doc(xml_tokens(root))->Some_0.ads[0].wrapper->Some_0.vast_ad_tag_uri == u1,
        lookup_v(sources, u1, 0) == Some(t1),
        parsed_doc(xml_tokens(t1)) is Some,
        parsed_doc(xml_tokens(t1))->Some_0.ads.len() == 1,
        parsed_doc(xml_tokens(t1))->Some_0.ads[0].wrapper is Some,
        parsed_doc(xml_tokens(t1))->Some_0.ads[0].wrapper->Some_0.vast_ad_tag_uri == u2,
        u1 != u2,
        lookup_v(sources, u2, 0) == Some(t2),
        parsed_doc(xml_tokens(t2)) is Some,
        forall|i: int| 0 <= i < parsed_doc(xml_tokens(t2))->Some_0.ads.len()
            ==> (#[trigger] parsed_doc(xml_tokens(t2))->Some_0.ads[i]).wrapper is None,
    ensures
        collected(root, sources) == Some(seq![
            parsed_doc(xml_tokens(root))->Some_0.ads[0].wrapper->Some_0,
            parsed_doc(xml_tokens(t1))->Some_0.ads[0].wrapper->Some_0,
        ]),
{
    let mode = Mode::Collect;
    let d0 = parsed_doc(xml_tokens(root))->Some_0;
    let d1 = parsed_doc(xml_tokens(t1))->Some_0;
    let d2 = parsed_doc(xml_tokens(t2))->Some_0;
    lemma_single_wrapper_v(d0.ads);
    lemma_single_wrapper_v(d1.ads);
    lemma_no_wrappers_v(d2.ads);
    let x0 = d0.ads[0].wrapper->Some_0;
    let x1 = d1.ads[0].wrapper->Some_0;
    let w0 = start_v(root, mode)->Some_0;
    assert(w0.current =~= seq![u1]);
    assert(w0.seen =~= seq![x0]);
    let w1 = WalkV { current: w0.current.drop_first(), visited: w0.visited.push(u1), ..w0 };
    assert(!w0.visited.contains(u1));
    assert(advance_v(w0, mode) == (Some(u1), w1));
    let w2 = supply_v(w1, mode, Some(t1));
    assert(w2.queue == seq![(t1, 0usize)]);
    let w3 = WalkV { queue: w2.queue.drop_first(), ..w2 };
    let w4 = read_v(w3, mode, d1, 0);
    assert(w4.current =~= seq![u2]);
    assert(w4.seen =~= seq![x0, x1]);
    assert(advance_v(w2, mode) == advance_v(w4, mode));
    assert(!w4.visited.contains(u2)) by {
        assert(w4.visited =~= seq![u1]);
    }
    let w5 = WalkV { current: w4.current.drop_first(), visited: w4.visited.push(u2), ..w4 };
    assert(advance_v(w4, mode) == (Some(u2), w5));
    let w6 = supply_v(w5, mode, Some(t2));
    assert(w6.queue == seq![(t2, 0usize)]);
    let w7 = WalkV { queue: w6.queue.drop_first(), ..w6 };
    let w8 = read_v(w7, mode, d2, 0);
    assert(w8.current =~= Seq::<Seq<char>>::empty());
    assert(w8.seen =~= seq![x0, x1]);
    assert(advance_v(w8, mode) == (None::<Seq<char>>, w8));
    assert(advance_v(w6, mode) == advance_v(w8, mode));
    assert(run_v(w6, mode, sources, 1) == Some(w8));
    assert(run_v(w2, mode, sources, 2) == Some(w8));
    assert(run_v(w0, mode, sources, 3) == Some(w8));
    lemma_walk_result(root, sources, mode, w0, 3);
}

} // verus!
