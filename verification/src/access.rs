//! What a crawl knows of URLs before it starts: the URLs to leave out, and
//! the freshness marker of each URL that was fetched before.

use std::sync::Arc;
use vstd::prelude::*;
use crate::row::FlatRow;
use crate::selector_tree::strings_view;
use crate::text::same;

verus! {

/// The URLs that a crawl leaves out.
#[derive(Clone, Debug)]
pub struct SkipSet {
    urls: Vec<String>,
}

impl View for SkipSet {
    type V = Set<Seq<char>>;

    closed spec fn view(&self) -> Set<Seq<char>> {
        strings_view(self.urls@).to_set()
    }
}

impl SkipSet {
    /// The set of the given URLs.
    pub fn new(urls: Vec<String>) -> (r: SkipSet)
        ensures
            r@ == strings_view(urls@).to_set(),
    {
        SkipSet { urls }
    }

    /// Whether `url` is left out.
    pub fn contains(&self, url: &str) -> (r: bool)
        ensures
            r == self@.contains(url@),
    {
        let mut i: usize = 0;
        while i < self.urls.len()
            invariant
                i <= self.urls@.len(),
                forall|j: int| 0 <= j < i ==> strings_view(self.urls@)[j] != url@,
            decreases self.urls@.len() - i,
        {
            if same(self.urls[i].as_str(), url) {
                assert(strings_view(self.urls@)[i as int] == url@);
                return true;
            }
            i += 1;
        }
        false
    }
}

/// The freshness marker of each URL that was fetched.
#[derive(Debug)]
pub struct AccessLog {
    marks: FlatRow,
}

impl View for AccessLog {
    type V = Map<Seq<char>, Seq<char>>;

    closed spec fn view(&self) -> Map<Seq<char>, Seq<char>> {
        self.marks@
    }
}

impl AccessLog {
    /// The log without entries.
    pub fn new() -> (r: AccessLog)
        ensures
            r@ == Map::<Seq<char>, Seq<char>>::empty(),
    {
        AccessLog { marks: FlatRow::new() }
    }

    /// The marker that the log holds for `url`.
    pub fn marker(&self, url: &str) -> (r: Option<String>)
        ensures
            match r {
                Some(marker) => self@.contains_key(url@) && marker@ == self@[url@],
                None => !self@.contains_key(url@),
            },
    {
        match self.marks.get(url) {
            Some(marker) => Some((**marker).clone()),
            None => None,
        }
    }

    /// Whether the log holds a marker for `url`.
    pub fn contains(&self, url: &str) -> (r: bool)
        ensures
            r == self@.contains_key(url@),
    {
        self.marks.contains_key(url)
    }

    /// Sets the marker of `url`.
    pub fn record(&mut self, url: String, marker: String)
        ensures
            final(self)@ == old(self)@.insert(url@, marker@),
            final(self).urls_in_order() == if old(self)@.contains_key(url@) {
                old(self).urls_in_order()
            } else {
                old(self).urls_in_order().push(url@)
            },
    {
        self.marks.insert(url, Arc::new(marker));
    }

    /// The number of URLs in the log.
    pub fn len(&self) -> (r: usize)
        ensures
            r == self.urls_in_order().len(),
            r == self@.len(),
            self.urls_in_order().no_duplicates(),
            self.urls_in_order().to_set() == self@.dom(),
    {
        self.marks.len()
    }

    /// The URLs of the log, in the order in which they first came.
    pub closed spec fn urls_in_order(&self) -> Seq<Seq<char>> {
        self.marks.keys_in_order()
    }

    /// The URL and the marker of the entry at `index`, counted in the order in
    /// which the URLs first came.
    pub fn entry(&self, index: usize) -> (r: Option<(String, String)>)
        ensures
            match r {
                Some((url, marker)) => {
                    &&& index < self.urls_in_order().len()
                    &&& url@ == self.urls_in_order()[index as int]
                    &&& self@.contains_key(url@)
                    &&& marker@ == self@[url@]
                },
                None => index >= self.urls_in_order().len(),
            },
    {
        match self.marks.entry(index) {
            Some((url, marker)) => Some((url.clone(), (**marker).clone())),
            None => None,
        }
    }
}

} // verus!
