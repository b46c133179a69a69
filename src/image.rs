use vstd::prelude::*;

verus! {

/// The URL cached for origin id `id`: the last entry with that id.
pub open spec fn cached_url(c: Seq<(u64, Seq<char>)>, id: u64) -> Option<Seq<char>>
    decreases c.len(),
{
    if c.len() == 0 {
        None
    } else if c.last().0 == id {
        Some(c.last().1)
    } else {
        cached_url(c.drop_last(), id)
    }
}

/// The cache after recording `url` for `id`: the first URL recorded for an
/// id is kept.
pub open spec fn recorded(c: Seq<(u64, Seq<char>)>, id: u64, url: Seq<char>) -> Seq<(u64, Seq<char>)> {
    if cached_url(c, id) is Some {
        c
    } else {
        c.push((id, url))
    }
}

/// What resolving an image needs: the URL already uploaded, or an upload.
#[derive(Debug)]
pub enum ResolveAction {
    Cached(String),
    Upload,
}

pub enum ResolveActionView {
    Cached(Seq<char>),
    Upload,
}

impl View for ResolveAction {
    type V = ResolveActionView;

    open spec fn view(&self) -> ResolveActionView {
        match self {
            ResolveAction::Cached(u) => ResolveActionView::Cached(u@),
            ResolveAction::Upload => ResolveActionView::Upload,
        }
    }
}

pub open spec fn resolve_action(c: Seq<(u64, Seq<char>)>, id: u64) -> ResolveActionView {
    match cached_url(c, id) {
        Some(u) => ResolveActionView::Cached(u),
        None => ResolveActionView::Upload,
    }
}

/// Maps an origin-side image id to the CDN URL it was uploaded to.
#[derive(Debug)]
pub struct ImageCache {
    pub entries: Vec<(u64, String)>,
}

pub open spec fn entries_view(e: Seq<(u64, String)>) -> Seq<(u64, Seq<char>)> {
    e.map_values(|p: (u64, String)| (p.0, p.1@))
}

impl View for ImageCache {
    type V = Seq<(u64, Seq<char>)>;

    open spec fn view(&self) -> Seq<(u64, Seq<char>)> {
        entries_view(self.entries@)
    }
}

impl ImageCache {
    /// A cache with no entries.
    pub fn new() -> (r: ImageCache)
        ensures
            r@ == Seq::<(u64, Seq<char>)>::empty(),
    {
        let r = ImageCache { entries: Vec::new() };
        assert(r@ =~= Seq::<(u64, Seq<char>)>::empty());
        r
    }

    /// The URL stored for `id`, if any.
    pub fn lookup(&self, id: u64) -> (r: Option<String>)
        ensures
            match r {
                Some(u) => cached_url(self@, id) == Some(u@),
                None => cached_url(self@, id) is None,
            },
    {
        let ghost v = self@;
        let mut i: usize = self.entries.len();
        assert(v.subrange(0, i as int) =~= v);
        while i > 0
            invariant
                v == self@,
                i <= self.entries@.len(),
                cached_url(v.subrange(0, i as int), id) == cached_url(v, id),
            decreases i,
        {
            assert(v.subrange(0, i as int).drop_last() =~= v.subrange(0, i - 1));
            if self.entries[i - 1].0 == id {
                return Some(self.entries[i - 1].1.clone());
            }
            i = i - 1;
        }
        None
    }

    /// Whether `id` is served from the cache or needs an upload.
    pub fn resolve_step(&self, id: u64) -> (r: ResolveAction)
        ensures
            r@ == resolve_action(self@, id),
    {
        match self.lookup(id) {
            Some(u) => ResolveAction::Cached(u),
            None => ResolveAction::Upload,
        }
    }

    /// Records that `id` was uploaded to `url`, unless a URL is already stored
    /// for it; returns the URL stored for `id` afterwards.
    pub fn record(&mut self, id: u64, url: String) -> (r: String)
        ensures
            final(self)@ == recorded(old(self)@, id, url@),
            cached_url(final(self)@, id) == Some(r@),
            r@ == match cached_url(old(self)@, id) {
                Some(u) => u,
                None => url@,
            },
    {
        match self.lookup(id) {
            Some(u) => u,
            None => {
                let ghost before = self.entries@;
                let stored = url.clone();
                self.entries.push((id, url));
                assert(self@ =~= entries_view(before).push((id, stored@)));
                assert(self@.drop_last() =~= entries_view(before));
                stored
            },
        }
    }
}

/// Resolving an image twice uploads at most once: after the first
/// resolution (served from the cache, or uploaded and recorded), the second
/// is served from the cache with the same URL, and recording again changes
/// nothing.
pub proof fn lemma_resolve_twice(c: Seq<(u64, Seq<char>)>, id: u64, uploaded: Seq<char>, again: Seq<char>)
    ensures
        ({
            let after = match resolve_action(c, id) {
                ResolveActionView::Cached(_) => c,
                ResolveActionView::Upload => recorded(c, id, uploaded),
            };
            let first = match resolve_action(c, id) {
                ResolveActionView::Cached(u) => u,
                ResolveActionView::Upload => uploaded,
            };
            &&& resolve_action(after, id) == ResolveActionView::Cached(first)
            &&& recorded(after, id, again) == after
        }),
{
    if cached_url(c, id) is None {
        assert(c.push((id, uploaded)).drop_last() =~= c);
    }
}

/// Recording one id leaves what is stored for every other id unchanged.
pub proof fn lemma_record_keeps_others(c: Seq<(u64, Seq<char>)>, id: u64, url: Seq<char>, other: u64)
    requires
        other != id,
    ensures
        cached_url(recorded(c, id, url), other) == cached_url(c, other),
{
    assert(c.push((id, url)).drop_last() =~= c);
}

} // verus!
