//! Key Lister: the decisions of a paginated listing.  The caller sends each
//! requested page and reports the answer; the lister accumulates keys and
//! decides whether another page is needed.
use vstd::prelude::*;

verus! {

/// The keys that are present among the entries of one page, in order.
pub open spec fn present_keys(entries: Seq<Option<String>>) -> Seq<String>
    decreases entries.len(),
{
    if entries.len() == 0 {
        Seq::empty()
    } else {
        let rest = present_keys(entries.drop_last());
        match entries.last() {
            Some(k) => rest.push(k),
            None => rest,
        }
    }
}

/// The next request of a listing.
#[derive(Clone, Debug)]
pub enum ListRequest {
    /// Ask for a page, continuing after the given token (from the start when
    /// there is none).
    Page { continuation_token: Option<String> },
    /// The listing has ended.
    Done,
}

/// A finished listing: the keys gathered, and whether the store reported the
/// last page.  An incomplete listing holds the keys of the pages that
/// arrived before a request failed.
#[derive(Clone, Debug)]
pub struct KeyListing {
    pub keys: Vec<String>,
    pub complete: bool,
}

pub struct KeyLister {
    keys: Vec<String>,
    next: ListRequest,
    complete: bool,
}

impl KeyLister {
    pub closed spec fn keys(&self) -> Seq<String> {
        self.keys@
    }

    pub closed spec fn request(&self) -> ListRequest {
        self.next
    }

    pub closed spec fn is_complete(&self) -> bool {
        self.complete
    }

    /// A listing that starts with a request for the first page.
    pub fn new() -> (r: KeyLister)
        ensures
            r.keys() == Seq::<String>::empty(),
            r.request() == (ListRequest::Page { continuation_token: None }),
            !r.is_complete(),
    {
        KeyLister {
            keys: Vec::new(),
            next: ListRequest::Page { continuation_token: None },
            complete: false,
        }
    }

    /// The request to send next.
    pub fn next_request(&self) -> (r: ListRequest)
        ensures
            r == self.request(),
    {
        match &self.next {
            ListRequest::Page { continuation_token } => {
                let token = match continuation_token {
                    Some(t) => Some(t.clone()),
                    None => None,
                };
                ListRequest::Page { continuation_token: token }
            },
            ListRequest::Done => ListRequest::Done,
        }
    }

    /// Takes in an answered page: its entries' keys are appended in order.
    /// Another page is requested only when the store says the listing is
    /// truncated and hands over a continuation token; the listing is
    /// complete when the store says it is not truncated.  A page that
    /// arrives after the end is ignored.
    pub fn on_page(
        &mut self,
        entries: Vec<Option<String>>,
        is_truncated: Option<bool>,
        next_token: Option<String>,
    )
        ensures
            old(self).request() is Done ==> *final(self) == *old(self),
            old(self).request() is Page ==> {
                &&& final(self).keys() == old(self).keys() + present_keys(entries@)
                &&& final(self).request() == (if is_truncated == Some(true) && next_token is Some {
                    ListRequest::Page { continuation_token: next_token }
                } else {
                    ListRequest::Done
                })
                &&& final(self).is_complete() == (is_truncated != Some(true))
            },
    {
        if let ListRequest::Done = self.next {
            return;
        }
        let mut i: usize = 0;
        while i < entries.len()
            invariant
                i <= entries@.len(),
                self.keys@ == old(self).keys@ + present_keys(entries@.take(i as int)),
                self.next == old(self).next,
                self.complete == old(self).complete,
            decreases entries@.len() - i,
        {
            proof {
                assert(entries@.take(i + 1).drop_last() == entries@.take(i as int));
            }
            match &entries[i] {
                Some(k) => self.keys.push(k.clone()),
                None => {},
            }
            i = i + 1;
        }
        assert(entries@.take(entries@.len() as int) == entries@);
        let truncated = match is_truncated {
            Some(t) => t,
            None => false,
        };
        if truncated {
            self.complete = false;
            match next_token {
                Some(token) => {
                    self.next = ListRequest::Page { continuation_token: Some(token) };
                },
                None => {
                    self.next = ListRequest::Done;
                },
            }
        } else {
            self.next = ListRequest::Done;
            self.complete = true;
        }
    }

    /// Takes in a failed page request: the listing ends with the keys
    /// gathered so far, incomplete.
    pub fn on_error(&mut self)
        ensures
            final(self).keys() == old(self).keys(),
            final(self).request() is Done,
            final(self).is_complete() == (old(self).is_complete() && old(self).request() is Done),
    {
        if let ListRequest::Page { .. } = self.next {
            self.next = ListRequest::Done;
            self.complete = false;
        }
    }

    /// The keys gathered and whether the listing reached its last page.
    pub fn finish(self) -> (r: KeyListing)
        ensures
            r.keys@ == self.keys(),
            r.complete == self.is_complete(),
    {
        KeyListing { keys: self.keys, complete: self.complete }
    }
}

} // verus!
