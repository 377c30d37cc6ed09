//! A note: a text, the identifier derived from it, and the tags it carries.

use crate::digest::{content_hash, hashable, is_hex_digest, sha1_hex};
use crate::order::{compare, precedes, Rank};
use crate::str_set::StrSet;
use std::cmp::Ordering;
use vstd::prelude::*;
use vstd::std_specs::cmp::{PartialEqSpecImpl, PartialOrdSpecImpl};

verus! {

/// A stored note. `hash` identifies it; two resources with the same hash
/// are the same resource, whatever tags they carry.
#[derive(Debug)]
pub struct Resource {
    /// The labels under which the note is filed.
    pub tags: StrSet,
    /// The text of the note.
    pub content: String,
    /// The identifier of the note.
    pub hash: String,
}

/// What a resource holds, as mathematical values.
pub ghost struct ResourceView {
    pub tags: Set<Seq<char>>,
    pub content: Seq<char>,
    pub hash: Seq<char>,
}

impl View for Resource {
    type V = ResourceView;

    open spec fn view(&self) -> ResourceView {
        ResourceView { tags: self.tags@, content: self.content@, hash: self.hash@ }
    }
}

impl ResourceView {
    /// The same resource without the tag `tag`.
    pub open spec fn untagged(self, tag: Seq<char>) -> ResourceView {
        ResourceView { tags: self.tags.remove(tag), content: self.content, hash: self.hash }
    }
}

impl Resource {
    /// A new note with the given tags and text. Its identifier is the
    /// digest of the text. Any set of tags will do, the empty one too.
    pub fn new(tags: StrSet, content: String) -> (resource: Resource)
        requires
            hashable(content@),
        ensures
            resource@.tags == tags@,
            resource@.content == content@,
            resource@.hash == sha1_hex(content@),
            is_hex_digest(resource@.hash),
    {
        let hash = content_hash(content.as_str());
        Resource { tags, content, hash }
    }

    /// Takes `tag` off the note. A tag that the note does not carry is
    /// left out in silence; the call never fails.
    pub fn rm_tag(&mut self, tag: &str) -> (done: Result<(), String>)
        ensures
            done is Ok,
            final(self)@ == old(self)@.untagged(tag@),
    {
        self.tags.remove(tag);
        Ok(())
    }
}

impl Clone for Resource {
    fn clone(&self) -> (copy: Resource)
        ensures
            copy@ == self@,
    {
        Resource {
            tags: self.tags.clone(),
            content: self.content.clone(),
            hash: self.hash.clone(),
        }
    }
}

impl PartialEq for Resource {
    fn eq(&self, other: &Resource) -> (same: bool) {
        compare(self.hash.as_str(), other.hash.as_str()) == Rank::Same
    }
}

impl PartialEqSpecImpl for Resource {
    open spec fn obeys_eq_spec() -> bool {
        true
    }

    open spec fn eq_spec(&self, other: &Resource) -> bool {
        self.hash@ == other.hash@
    }
}

impl Eq for Resource {

}

impl PartialOrd for Resource {
    fn partial_cmp(&self, other: &Resource) -> (rank: Option<Ordering>) {
        match compare(self.hash.as_str(), other.hash.as_str()) {
            Rank::Before => Some(Ordering::Less),
            Rank::Same => Some(Ordering::Equal),
            Rank::After => Some(Ordering::Greater),
        }
    }
}

impl PartialOrdSpecImpl for Resource {
    open spec fn obeys_partial_cmp_spec() -> bool {
        true
    }

    open spec fn partial_cmp_spec(&self, other: &Resource) -> Option<Ordering> {
        if precedes(self.hash@, other.hash@) {
            Some(Ordering::Less)
        } else if self.hash@ == other.hash@ {
            Some(Ordering::Equal)
        } else {
            Some(Ordering::Greater)
        }
    }
}

} // verus!
