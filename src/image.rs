use vstd::prelude::*;

use crate::text::{
    insert_sorted, lower_of, lowercase, remove_sorted, sorted_unique, strictly_sorted, strings,
};

verus! {

/// Loading state of an image's pixels, tracked by the viewer around the catalog.
#[derive(Clone, Copy, Debug, PartialEq, Eq, Structural)]
pub enum Status {
    Unloaded,
    Loading,
    Loaded,
    Error,
}

/// One catalogued file and the metadata read from it.
pub struct Image {
    pub file: String,
    pub artists: Vec<String>,
    pub size: String,
    pub links: Vec<String>,
    pub tags: Vec<String>,
    pub notes: String,
}

/// The mathematical value of an `Image`.
pub struct ImageView {
    pub file: Seq<char>,
    pub artists: Seq<Seq<char>>,
    pub size: Seq<char>,
    pub links: Seq<Seq<char>>,
    pub tags: Seq<Seq<char>>,
    pub notes: Seq<char>,
}

impl View for Image {
    type V = ImageView;

    open spec fn view(&self) -> ImageView {
        ImageView {
            file: self.file@,
            artists: strings(self.artists@),
            size: self.size@,
            links: strings(self.links@),
            tags: strings(self.tags@),
            notes: self.notes@,
        }
    }
}

/// `new` is `old` with `x` added at its place, or `old` itself where `x` was there.
pub open spec fn inserted_into(new: Seq<Seq<char>>, old: Seq<Seq<char>>, x: Seq<char>) -> bool {
    if old.contains(x) {
        new == old
    } else {
        exists|p: int| 0 <= p <= old.len() && new == old.insert(p, x)
    }
}

/// `new` is `old` with `x` taken out, or `old` itself where `x` was not there.
pub open spec fn removed_from(new: Seq<Seq<char>>, old: Seq<Seq<char>>, x: Seq<char>) -> bool {
    if old.contains(x) {
        exists|p: int| 0 <= p < old.len() && old[p] == x && new == old.remove(p)
    } else {
        new == old
    }
}

impl ImageView {
    /// The artist, link and tag lists are each sorted and free of repeats.
    pub open spec fn wf(self) -> bool {
        &&& strictly_sorted(self.artists)
        &&& strictly_sorted(self.links)
        &&& strictly_sorted(self.tags)
    }

    /// The searchable values of the image: its artists and its tags.
    pub open spec fn has_label(self, t: Seq<char>) -> bool {
        self.artists.contains(t) || self.tags.contains(t)
    }
}

/// Lower-cases every item.
fn lower_all(items: &Vec<String>) -> (r: Vec<String>)
    ensures
        strings(r@) == strings(items@).map_values(|s: Seq<char>| lower_of(s)),
{
    let mut out: Vec<String> = Vec::new();
    let mut i: usize = 0;
    while i < items.len()
        invariant
            i <= items.len(),
            strings(out@) == strings(items@).subrange(0, i as int).map_values(
                |s: Seq<char>| lower_of(s),
            ),
        decreases items.len() - i,
    {
        let ghost prev = strings(out@);
        out.push(lowercase(items[i].as_str()));
        assert(strings(out@) =~= prev.push(lower_of(items@[i as int]@)));
        assert(strings(out@) =~= strings(items@).subrange(0, i + 1).map_values(
            |s: Seq<char>| lower_of(s),
        ));
        i = i + 1;
    }
    assert(strings(items@).subrange(0, i as int) =~= strings(items@));
    out
}

impl Image {
    /// Builds an image record. Artists, links and tags are sorted with repeats
    /// dropped; tags are lower-cased first.
    pub fn new(
        file: String,
        artists: Vec<String>,
        size: String,
        links: Vec<String>,
        tags: Vec<String>,
        notes: String,
    ) -> (r: Image)
        ensures
            r@.wf(),
            r@.file == file@,
            r@.size == size@,
            r@.notes == notes@,
            r@.artists.to_set() == strings(artists@).to_set(),
            r@.links.to_set() == strings(links@).to_set(),
            r@.tags.to_set() == strings(tags@).map_values(|s: Seq<char>| lower_of(s)).to_set(),
    {
        let lowered = lower_all(&tags);
        Image {
            file,
            artists: sorted_unique(&artists),
            size,
            links: sorted_unique(&links),
            tags: sorted_unique(&lowered),
            notes,
        }
    }

    /// Adds a tag, lower-cased, unless the image already has it.
    pub fn add_tag(&mut self, tag: &str)
        requires
            old(self)@.wf(),
        ensures
            final(self)@.wf(),
            inserted_into(final(self)@.tags, old(self)@.tags, lower_of(tag@)),
            final(self)@.tags.to_set() == old(self)@.tags.to_set().insert(lower_of(tag@)),
            final(self)@ == (ImageView { tags: final(self)@.tags, ..old(self)@ }),
    {
        let t = lowercase(tag);
        insert_sorted(&mut self.tags, t);
    }

    /// Removes a tag, lower-cased. Returns whether the image had it.
    pub fn remove_tag(&mut self, tag: &str) -> (r: bool)
        requires
            old(self)@.wf(),
        ensures
            final(self)@.wf(),
            r == old(self)@.tags.contains(lower_of(tag@)),
            removed_from(final(self)@.tags, old(self)@.tags, lower_of(tag@)),
            final(self)@.tags.to_set() == old(self)@.tags.to_set().remove(lower_of(tag@)),
            final(self)@ == (ImageView { tags: final(self)@.tags, ..old(self)@ }),
    {
        let t = lowercase(tag);
        remove_sorted(&mut self.tags, t.as_str())
    }

    /// Adds a source link unless the image already has it.
    pub fn add_link(&mut self, link: &str)
        requires
            old(self)@.wf(),
        ensures
            final(self)@.wf(),
            inserted_into(final(self)@.links, old(self)@.links, link@),
            final(self)@.links.to_set() == old(self)@.links.to_set().insert(link@),
            final(self)@ == (ImageView { links: final(self)@.links, ..old(self)@ }),
    {
        insert_sorted(&mut self.links, String::from_str(link));
    }

    /// Removes a source link. Returns whether the image had it.
    pub fn remove_link(&mut self, link: &str) -> (r: bool)
        requires
            old(self)@.wf(),
        ensures
            final(self)@.wf(),
            r == old(self)@.links.contains(link@),
            removed_from(final(self)@.links, old(self)@.links, link@),
            final(self)@.links.to_set() == old(self)@.links.to_set().remove(link@),
            final(self)@ == (ImageView { links: final(self)@.links, ..old(self)@ }),
    {
        remove_sorted(&mut self.links, link)
    }

    /// Adds an artist unless the image already has it.
    pub fn add_artist(&mut self, artist: &str)
        requires
            old(self)@.wf(),
        ensures
            final(self)@.wf(),
            inserted_into(final(self)@.artists, old(self)@.artists, artist@),
            final(self)@.artists.to_set() == old(self)@.artists.to_set().insert(artist@),
            final(self)@ == (ImageView { artists: final(self)@.artists, ..old(self)@ }),
    {
        insert_sorted(&mut self.artists, String::from_str(artist));
    }

    /// Removes an artist. Returns whether the image had it.
    pub fn remove_artist(&mut self, artist: &str) -> (r: bool)
        requires
            old(self)@.wf(),
        ensures
            final(self)@.wf(),
            r == old(self)@.artists.contains(artist@),
            removed_from(final(self)@.artists, old(self)@.artists, artist@),
            final(self)@.artists.to_set() == old(self)@.artists.to_set().remove(artist@),
            final(self)@ == (ImageView { artists: final(self)@.artists, ..old(self)@ }),
    {
        remove_sorted(&mut self.artists, artist)
    }
}

} // verus!
