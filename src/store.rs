//! The link index of the record store, as the engine sees it: anchor
//! entries, and typed, tagged links between nodes. Links are never removed:
//! deleting one marks it as a tombstone.
use vstd::prelude::*;
use crate::types::{Addr, LinkTypes, Node, Tag};

verus! {

/// One link: `base --link_type/tag--> target`, with the address of the
/// action that created it.
#[derive(Clone, Copy, Debug, PartialEq, Eq, Structural)]
pub struct Link {
    pub create_link_hash: Addr,
    pub base: Node,
    pub target: Node,
    pub link_type: LinkTypes,
    pub tag: Tag,
    pub deleted: bool,
}

/// A live link from `base` to `target` of the given type and tag.
pub open spec fn is_live(l: Link, base: Node, target: Node, link_type: LinkTypes, tag: Tag) -> bool {
    !l.deleted && l.base == base && l.target == target && l.link_type == link_type && l.tag == tag
}

/// A live link from `base` of the given type, whose tag is `tag` when one
/// is given.
pub open spec fn is_listed(l: Link, base: Node, link_type: LinkTypes, tag: Option<Tag>) -> bool {
    !l.deleted && l.base == base && l.link_type == link_type && (tag is None || l.tag == tag->0)
}

/// The listed links of `links`, in order.
pub open spec fn listed(links: Seq<Link>, base: Node, link_type: LinkTypes, tag: Option<Tag>) -> Seq<Link>
    decreases links.len(),
{
    if links.len() == 0 {
        Seq::empty()
    } else {
        let rest = listed(links.drop_last(), base, link_type, tag);
        if is_listed(links.last(), base, link_type, tag) {
            rest.push(links.last())
        } else {
            rest
        }
    }
}

/// Every listed link of `links` appears in the listing.
pub proof fn lemma_listed_contains(links: Seq<Link>, base: Node, link_type: LinkTypes, tag: Option<Tag>, i: int)
    requires
        0 <= i < links.len(),
        is_listed(links[i], base, link_type, tag),
    ensures
        listed(links, base, link_type, tag).contains(links[i]),
    decreases links.len(),
{
    let rest = listed(links.drop_last(), base, link_type, tag);
    if i < links.len() - 1 {
        assert(links.drop_last()[i] == links[i]);
        lemma_listed_contains(links.drop_last(), base, link_type, tag, i);
        let k = choose|k: int| 0 <= k < rest.len() && rest[k] == links[i];
        if is_listed(links.last(), base, link_type, tag) {
            assert(rest.push(links.last())[k] == links[i]);
        }
    } else {
        assert(rest.push(links.last())[rest.len() as int] == links[i]);
    }
}

/// Every link of the listing is a listed link of `links`.
pub proof fn lemma_listed_sound(links: Seq<Link>, base: Node, link_type: LinkTypes, tag: Option<Tag>)
    ensures
        forall|k: int| 0 <= k < listed(links, base, link_type, tag).len() ==> {
            &&& is_listed(#[trigger] listed(links, base, link_type, tag)[k], base, link_type, tag)
            &&& links.contains(listed(links, base, link_type, tag)[k])
        },
    decreases links.len(),
{
    if links.len() > 0 {
        let init = links.drop_last();
        lemma_listed_sound(init, base, link_type, tag);
        let rest = listed(init, base, link_type, tag);
        assert forall|k: int| 0 <= k < rest.len() implies links.contains(#[trigger] rest[k]) by {
            let j = choose|j: int| 0 <= j < init.len() && init[j] == rest[k];
            assert(links[j] == rest[k]);
        }
        assert(links[links.len() - 1] == links.last());
    }
}

/// The hashes of the listed links whose target is `target`, in order.
pub open spec fn tombstoned(links: Seq<Link>, base: Node, link_type: LinkTypes, tag: Option<Tag>, target: Node) -> Seq<Addr>
    decreases links.len(),
{
    if links.len() == 0 {
        Seq::empty()
    } else {
        let rest = tombstoned(links.drop_last(), base, link_type, tag, target);
        if is_listed(links.last(), base, link_type, tag) && links.last().target == target {
            rest.push(links.last().create_link_hash)
        } else {
            rest
        }
    }
}

/// The anchor entries and the links of the record store.
#[derive(Clone, Debug)]
pub struct LinkStore {
    pub links: Vec<Link>,
    pub entries: Vec<Node>,
}

impl LinkStore {
    /// Whether a live link `base --link_type/tag--> target` exists.
    pub open spec fn has_link(&self, base: Node, target: Node, link_type: LinkTypes, tag: Tag) -> bool {
        exists|i: int| 0 <= i < self.links@.len() && is_live(#[trigger] self.links@[i], base, target, link_type, tag)
    }

    /// Whether the live link `base --link_type/tag--> target` was created by `hash`.
    pub open spec fn has_link_hash(&self, hash: Addr, base: Node, target: Node, link_type: LinkTypes, tag: Tag) -> bool {
        exists|i: int|
            0 <= i < self.links@.len() && is_live(#[trigger] self.links@[i], base, target, link_type, tag)
                && self.links@[i].create_link_hash == hash
    }

    /// Whether the entry `n` exists.
    pub open spec fn has_entry(&self, n: Node) -> bool {
        self.entries@.contains(n)
    }

    /// `self` holds every entry and live link of `before`.
    pub open spec fn extends(&self, before: &LinkStore) -> bool {
        &&& forall|n: Node| before.has_entry(n) ==> self.has_entry(n)
        &&& forall|b: Node, t: Node, lt: LinkTypes, tg: Tag|
            before.has_link(b, t, lt, tg) ==> #[trigger] self.has_link(b, t, lt, tg)
    }

    /// `self` holds the same entries and links as `before`.
    pub open spec fn same_as(&self, before: &LinkStore) -> bool {
        self.links@ == before.links@ && self.entries@ == before.entries@
    }

    /// An empty store.
    pub fn new() -> (r: LinkStore)
        ensures
            r.links@.len() == 0,
            r.entries@.len() == 0,
    {
        LinkStore { links: Vec::new(), entries: Vec::new() }
    }

    /// The hash of the live link `base --link_type/tag--> target`, if there is one.
    pub fn find_link(&self, base: Node, target: Node, link_type: LinkTypes, tag: Tag) -> (r: Option<Addr>)
        ensures
            r is None <==> !self.has_link(base, target, link_type, tag),
            r matches Some(h) ==> self.has_link_hash(h, base, target, link_type, tag),
    {
        let mut i: usize = 0;
        while i < self.links.len()
            invariant
                0 <= i <= self.links@.len(),
                forall|j: int| 0 <= j < i ==> !is_live(#[trigger] self.links@[j], base, target, link_type, tag),
            decreases self.links.len() - i,
        {
            let l = self.links[i];
            if !l.deleted && l.base == base && l.target == target && l.link_type == link_type && l.tag == tag {
                return Some(l.create_link_hash);
            }
            i = i + 1;
        }
        None
    }

    /// Creates the link `base --link_type/tag--> target` unless a live one
    /// exists already; returns the hash of the live link either way.
    pub fn create_link(&mut self, base: Node, target: Node, link_type: LinkTypes, tag: Tag) -> (r: Addr)
        ensures
            final(self).has_link_hash(r, base, target, link_type, tag),
            final(self).has_link(base, target, link_type, tag),
            final(self).extends(old(self)),
            final(self).entries@ == old(self).entries@,
            old(self).has_link(base, target, link_type, tag) ==> final(self).same_as(old(self)),
            !old(self).has_link(base, target, link_type, tag) ==> final(self).links@ == old(self).links@.push(
                (Link { create_link_hash: r, base, target, link_type, tag, deleted: false }),
            ),
    {
        match self.find_link(base, target, link_type, tag) {
            Some(h) => h,
            None => {
                let h = self.links.len() as u64;
                let ghost before = *self;
                self.links.push(Link { create_link_hash: h, base, target, link_type, tag, deleted: false });
                proof {
                    let n = before.links@.len() as int;
                    assert(is_live(self.links@[n], base, target, link_type, tag));
                    assert forall|b: Node, t: Node, lt: LinkTypes, tg: Tag|
                        before.has_link(b, t, lt, tg) implies #[trigger] self.has_link(b, t, lt, tg) by {
                        let j = choose|j: int| 0 <= j < before.links@.len() && is_live(#[trigger] before.links@[j], b, t, lt, tg);
                        assert(self.links@[j] == before.links@[j]);
                    }
                }
                h
            },
        }
    }

    /// Creates the entry `entry` unless it exists; returns the position of
    /// the new entry, or `None` where it existed.
    pub fn create_if_not_exists(&mut self, entry: Node) -> (r: Option<Addr>)
        ensures
            final(self).has_entry(entry),
            final(self).links@ == old(self).links@,
            final(self).extends(old(self)),
            old(self).has_entry(entry) ==> r is None && final(self).same_as(old(self)),
            !old(self).has_entry(entry) ==> r is Some && final(self).entries@ == old(self).entries@.push(entry),
    {
        let mut i: usize = 0;
        while i < self.entries.len()
            invariant
                0 <= i <= self.entries@.len(),
                forall|j: int| 0 <= j < i ==> self.entries@[j] != entry,
            decreases self.entries.len() - i,
        {
            if self.entries[i] == entry {
                return None;
            }
            i = i + 1;
        }
        let h = self.entries.len() as u64;
        self.entries.push(entry);
        proof {
            assert(self.entries@[self.entries@.len() - 1] == entry);
            assert forall|n: Node| old(self).has_entry(n) implies self.has_entry(n) by {
                let j = choose|j: int| 0 <= j < old(self).entries@.len() && old(self).entries@[j] == n;
                assert(self.entries@[j] == n);
            }
            assert forall|b: Node, t: Node, lt: LinkTypes, tg: Tag|
                old(self).has_link(b, t, lt, tg) implies #[trigger] self.has_link(b, t, lt, tg) by {
                let j = choose|j: int| 0 <= j < old(self).links@.len() && is_live(#[trigger] old(self).links@[j], b, t, lt, tg);
                assert(self.links@[j] == old(self).links@[j]);
            }
        }
        Some(h)
    }

    /// The live links from `base` of type `link_type`, whose tag is `tag`
    /// where one is given, in order of creation.
    pub fn get_links(&self, base: Node, link_type: LinkTypes, tag: Option<Tag>) -> (r: Vec<Link>)
        ensures
            r@ == listed(self.links@, base, link_type, tag),
    {
        let mut r: Vec<Link> = Vec::new();
        let mut i: usize = 0;
        while i < self.links.len()
            invariant
                0 <= i <= self.links@.len(),
                r@ == listed(self.links@.subrange(0, i as int), base, link_type, tag),
            decreases self.links.len() - i,
        {
            let l = self.links[i];
            proof {
                assert(self.links@.subrange(0, i + 1).drop_last() == self.links@.subrange(0, i as int));
            }
            let keep = match tag {
                None => true,
                Some(t) => l.tag == t,
            };
            if !l.deleted && l.base == base && l.link_type == link_type && keep {
                r.push(l);
            }
            i = i + 1;
        }
        proof {
            assert(self.links@.subrange(0, self.links@.len() as int) == self.links@);
        }
        r
    }

    /// Marks as deleted each live link from `base` of type `link_type` (and
    /// tag `tag`, where one is given) whose target is exactly `target`; links
    /// that share the base, type and tag but point elsewhere stay. Returns
    /// the hashes of the links marked, in order of creation.
    pub fn delete_content_link(&mut self, base: Node, link_type: LinkTypes, tag: Option<Tag>, target: Node) -> (r: Vec<Addr>)
        ensures
            r@ == tombstoned(old(self).links@, base, link_type, tag, target),
            final(self).entries@ == old(self).entries@,
            final(self).links@.len() == old(self).links@.len(),
            forall|i: int| 0 <= i < old(self).links@.len() ==> #[trigger] final(self).links@[i] == (
                if is_listed(old(self).links@[i], base, link_type, tag) && old(self).links@[i].target == target {
                    Link { deleted: true, ..old(self).links@[i] }
                } else {
                    old(self).links@[i]
                }),
    {
        let mut deleted: Vec<Addr> = Vec::new();
        let mut i: usize = 0;
        while i < self.links.len()
            invariant
                0 <= i <= self.links@.len(),
                self.links@.len() == old(self).links@.len(),
                self.entries@ == old(self).entries@,
                deleted@ == tombstoned(old(self).links@.subrange(0, i as int), base, link_type, tag, target),
                forall|j: int| i <= j < self.links@.len() ==> self.links@[j] == old(self).links@[j],
                forall|j: int| 0 <= j < i ==> #[trigger] self.links@[j] == (
                    if is_listed(old(self).links@[j], base, link_type, tag) && old(self).links@[j].target == target {
                        Link { deleted: true, ..old(self).links@[j] }
                    } else {
                        old(self).links@[j]
                    }),
            decreases self.links.len() - i,
        {
            let l = self.links[i];
            proof {
                assert(old(self).links@.subrange(0, i + 1).drop_last() == old(self).links@.subrange(0, i as int));
                assert(old(self).links@.subrange(0, i + 1).last() == l);
            }
            let keep = match tag {
                None => true,
                Some(t) => l.tag == t,
            };
            if !l.deleted && l.base == base && l.link_type == link_type && keep && l.target == target {
                self.links.set(i, Link { deleted: true, ..l });
                deleted.push(l.create_link_hash);
            }
            i = i + 1;
        }
        proof {
            assert(old(self).links@.subrange(0, old(self).links@.len() as int) == old(self).links@);
        }
        deleted
    }
}

} // verus!
