use vstd::hash_map::StringHashMap;
use vstd::prelude::*;

use crate::link_gatherer::{ErrorView, URLContentGetterError};

verus! {

/// What a trace learnt of one URL.
#[derive(Debug, Clone, PartialEq)]
pub enum LinkMapValue {
    /// The page was read: its in-scope outgoing links.
    Links(Vec<String>),
    /// The page could not be read, and its retries are spent.
    Error(URLContentGetterError),
}

/// The mathematical value of a [`LinkMapValue`].
pub enum LinkView {
    Links(Seq<Seq<char>>),
    Error(ErrorView),
}

impl View for LinkMapValue {
    type V = LinkView;

    open spec fn view(&self) -> LinkView {
        match self {
            LinkMapValue::Links(links) => LinkView::Links(links.deep_view()),
            LinkMapValue::Error(e) => LinkView::Error(e@),
        }
    }
}

/// The result of a trace: the root URL and, for each URL that was traced, what was learnt.
pub struct LinkMap {
    root: String,
    map: StringHashMap<LinkMapValue>,
    /// The recorded URLs, each once, in the order they were first recorded.
    urls: Vec<String>,
}

/// The mathematical value of a [`LinkMap`].
pub struct LinkMapView {
    pub root: Seq<char>,
    pub map: Map<Seq<char>, LinkView>,
}

impl View for LinkMap {
    type V = LinkMapView;

    closed spec fn view(&self) -> LinkMapView {
        LinkMapView {
            root: self.root@,
            map: self.map@.map_values(|v: LinkMapValue| v@),
        }
    }
}

impl LinkMap {
    /// Every link map made by `new` and `add` holds finitely many URLs.
    pub closed spec fn wf(&self) -> bool {
        &&& self.map@.dom().finite()
        &&& self.urls.deep_view().to_set() == self.map@.dom()
        &&& self.urls.deep_view().no_duplicates()
    }

    /// An empty map for a trace from `root`.
    pub fn new(root: String) -> (r: LinkMap)
        ensures
            r@.root == root@,
            r@.map == Map::<Seq<char>, LinkView>::empty(),
            r.wf(),
    {
        let r = LinkMap { root, map: StringHashMap::new(), urls: Vec::new() };
        assert(r@.map =~= Map::<Seq<char>, LinkView>::empty());
        assert(r.urls.deep_view().to_set() =~= r.map@.dom());
        r
    }

    /// Records `value` for `url`, replacing what was recorded for it before.
    pub fn add(&mut self, url: String, value: LinkMapValue)
        requires
            old(self).wf(),
        ensures
            final(self).wf(),
            final(self)@.root == old(self)@.root,
            final(self)@.map == old(self)@.map.insert(url@, value@),
    {
        let ghost u = url@;
        let ghost v = value@;
        if !self.map.contains_key(url.as_str()) {
            let ghost before = self.urls.deep_view();
            self.urls.push(url.clone());
            proof {
                assert(self.urls.deep_view() =~= before.push(u));
                assert forall|i: int, j: int| 0 <= i < j < self.urls.deep_view().len() implies
                    self.urls.deep_view()[i] != self.urls.deep_view()[j] by {
                    if j == before.len() {
                        assert(before.contains(before[i]));
                        assert(before.to_set().contains(before[i]));
                    }
                }
                assert forall|w: Seq<char>| self.urls.deep_view().contains(w) <==> before.contains(w) || w == u by {
                    if self.urls.deep_view().contains(w) && w != u {
                        let k = choose|k: int| 0 <= k < self.urls.deep_view().len() && self.urls.deep_view()[k] == w;
                        assert(before[k] == w);
                    }
                    if before.contains(w) {
                        let k = choose|k: int| 0 <= k < before.len() && before[k] == w;
                        assert(self.urls.deep_view()[k] == w);
                    }
                    if w == u {
                        assert(self.urls.deep_view()[before.len() as int] == w);
                    }
                }
                assert(self.urls.deep_view().to_set() =~= old(self).map@.dom().insert(u));
            }
        } else {
            proof {
                assert(old(self).map@.dom().insert(u) =~= old(self).map@.dom());
            }
        }
        self.map.insert(url, value);
        assert(self@.map =~= old(self)@.map.insert(u, v));
    }

    /// The recorded URLs, each once, in the order they were first recorded.
    pub fn urls(&self) -> (r: Vec<String>)
        requires
            self.wf(),
        ensures
            r.deep_view().to_set() == self@.map.dom(),
            r.deep_view().no_duplicates(),
    {
        let mut r: Vec<String> = Vec::new();
        let mut i: usize = 0;
        while i < self.urls.len()
            invariant
                i <= self.urls.len(),
                r.deep_view() == self.urls.deep_view().take(i as int),
            decreases self.urls.len() - i,
        {
            let ghost before = r.deep_view();
            r.push(self.urls[i].clone());
            assert(r.deep_view() =~= before.push(self.urls.deep_view()[i as int]));
            assert(self.urls.deep_view().take(i + 1) =~= self.urls.deep_view().take(i as int).push(self.urls.deep_view()[i as int]));
            i = i + 1;
        }
        assert(self.urls.deep_view().take(self.urls.len() as int) =~= self.urls.deep_view());
        assert(self@.map.dom() =~= self.map@.dom());
        r
    }

    /// The URLs of a well-formed link map are finitely many.
    pub proof fn lemma_finite(&self)
        requires
            self.wf(),
        ensures
            self@.map.dom().finite(),
    {
        assert(self@.map.dom() =~= self.map@.dom());
    }

    /// The root URL of the trace.
    pub fn root(&self) -> (r: &str)
        ensures
            r@ == self@.root,
    {
        self.root.as_str()
    }

    /// What was recorded for `url`, if anything.
    pub fn get(&self, url: &str) -> (r: Option<&LinkMapValue>)
        ensures
            match r {
                Some(v) => self@.map.contains_key(url@) && self@.map[url@] == v@,
                None => !self@.map.contains_key(url@),
            },
    {
        self.map.get(url)
    }

    /// The number of URLs recorded.
    pub fn len(&self) -> (r: usize)
        requires
            self.wf(),
        ensures
            r == self@.map.len(),
    {
        proof {
            assert(self@.map.dom() =~= self.map@.dom());
        }
        self.map.len()
    }
}

} // verus!
