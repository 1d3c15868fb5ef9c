//! Partition keys: a sink's key template, compiled once, and the key that it
//! gives for each event.

use crate::buffer::bytes_contents;
use crate::event::{value_bytes, Event, ValueModel};
use crate::template::{
    around, fill, find_placeholder, first_match, first_name, has_match, has_placeholder, in_order,
    is_placeholder, lemma_first_match_exists, lemma_first_match_is, lemma_first_match_holds,
    lemma_name_is_utf8, lemma_no_match, lemma_placeholder_between, lemma_regions_in_order,
    regions, regions_from, substituted,
};
use crate::text::{extend_bytes, is_digit, string_from_utf8};
use bytes::Bytes;
use core::ops::Deref;
use vstd::prelude::*;
use vstd::slice::{slice_subrange, slice_to_vec};
use vstd::utf8::{decode_utf8_encode_utf8, encode_utf8, encode_utf8_valid_utf8};

verus! {

/// A stretch of a template: the bytes from `start` up to `end`.
#[derive(Debug, Clone, Copy, PartialEq, Eq)]
pub struct Region {
    pub start: usize,
    pub end: usize,
}

/// The compiled form of a template: the places of its placeholders.
#[derive(Debug)]
pub struct Matcher {
    regions: Vec<Region>,
}

impl Clone for Matcher {
    fn clone(&self) -> (r: Self)
        ensures
            r.found() == self.found(),
    {
        let mut regions: Vec<Region> = Vec::new();
        let mut i: usize = 0;
        while i < self.regions.len()
            invariant
                i <= self.regions.len(),
                regions@ == self.regions@.subrange(0, i as int),
            decreases self.regions.len() - i,
        {
            regions.push(self.regions[i]);
            assert(regions@ =~= self.regions@.subrange(0, i + 1));
            i += 1;
        }
        assert(regions@ =~= self.regions@);
        Matcher { regions }
    }
}

impl Matcher {
    /// The places that the matcher holds, each as start and end.
    pub closed spec fn found(&self) -> Seq<(int, int)> {
        self.regions@.map_values(|r: Region| (r.start as int, r.end as int))
    }

    /// Does the matcher hold exactly the placeholders of `template`?
    pub open spec fn matches(&self, template: Seq<u8>) -> bool {
        self.found() == regions(template)
    }

    /// The matcher of `template`.
    pub fn compile(template: &[u8]) -> (m: Matcher)
        ensures
            m.matches(template@),
    {
        let mut found: Vec<Region> = Vec::new();
        let mut from: usize = 0;
        loop
            invariant
                from <= template.len(),
                regions(template@) == found@.map_values(|r: Region| (r.start as int, r.end as int))
                    + regions_from(template@, from as int),
            ensures
                regions(template@) == found@.map_values(|r: Region| (r.start as int, r.end as int)),
            decreases template.len() - from,
        {
            match find_placeholder(template, from) {
                None => {
                    proof {
                        lemma_no_match(template@, from as int);
                        assert(regions(template@) =~= found@.map_values(
                            |r: Region| (r.start as int, r.end as int),
                        ));
                    }
                    break ;
                },
                Some((start, end)) => {
                    proof {
                        lemma_first_match_is(template@, from as int, start as int, end as int);
                        lemma_first_match_holds(template@, from as int);
                    }
                    let ghost before = found@.map_values(
                        |r: Region| (r.start as int, r.end as int),
                    );
                    found.push(Region { start, end });
                    assert(found@.map_values(|r: Region| (r.start as int, r.end as int)) =~= before
                        + seq![(start as int, end as int)]);
                    assert(regions(template@) =~= found@.map_values(
                        |r: Region| (r.start as int, r.end as int),
                    ) + regions_from(template@, end as int));
                    from = end;
                },
            }
        }
        let m = Matcher { regions: found };
        assert(m.found() =~= regions(template@));
        m
    }

    /// The first place that the matcher holds, if it holds any.
    pub fn first(&self) -> (r: Option<Region>)
        ensures
            match r {
                Some(region) => self.found().len() > 0 && self.found()[0] == (
                    region.start as int,
                    region.end as int,
                ),
                None => self.found().len() == 0,
            },
    {
        if self.regions.len() > 0 {
            Some(self.regions[0])
        } else {
            None
        }
    }

    /// Does the matcher hold exactly the placeholders of `template`?
    pub fn agrees_with(&self, template: &[u8]) -> (r: bool)
        ensures
            r == self.matches(template@),
    {
        let other = Matcher::compile(template);
        if other.regions.len() != self.regions.len() {
            assert(self.found().len() != other.found().len());
            return false;
        }
        let mut i: usize = 0;
        while i < self.regions.len()
            invariant
                i <= self.regions.len(),
                other.regions.len() == self.regions.len(),
                other.found() == regions(template@),
                forall|j: int| 0 <= j < i ==> self.found()[j] == #[trigger] other.found()[j],
            decreases self.regions.len() - i,
        {
            let mine = self.regions[i];
            let theirs = other.regions[i];
            if mine.start != theirs.start || mine.end != theirs.end {
                assert(self.found()[i as int] != other.found()[i as int]);
                return false;
            }
            i += 1;
        }
        assert(self.found() =~= other.found());
        true
    }

    /// The template with `value` in place of each placeholder.
    pub fn replace_all(&self, template: &[u8], value: &[u8]) -> (r: Vec<u8>)
        requires
            self.matches(template@),
        ensures
            r@ == substituted(template@, value@),
    {
        proof {
            lemma_regions_in_order(template@, 0);
            assert(self.found().subrange(0, self.found().len() as int) =~= self.found());
        }
        let mut out: Vec<u8> = Vec::new();
        let mut from: usize = 0;
        let mut i: usize = 0;
        while i < self.regions.len()
            invariant
                i <= self.regions.len(),
                from <= template.len(),
                self.found() == regions(template@),
                in_order(self.found().subrange(i as int, self.found().len() as int), from as int,
                    template@.len() as int),
                substituted(template@, value@) == out@ + fill(
                    template@,
                    self.found().subrange(i as int, self.found().len() as int),
                    from as int,
                    value@,
                ),
            decreases self.regions.len() - i,
        {
            let region = self.regions[i];
            let ghost rest = self.found().subrange(i as int, self.found().len() as int);
            assert(rest[0] == (region.start as int, region.end as int));
            assert(rest.drop_first() =~= self.found().subrange(i + 1, self.found().len() as int));
            let ghost before = out@;
            extend_bytes(&mut out, slice_subrange(template, from, region.start));
            extend_bytes(&mut out, value);
            assert(out@ + fill(template@, rest.drop_first(), region.end as int, value@) =~= before
                + fill(template@, rest, from as int, value@));
            from = region.end;
            i += 1;
        }
        assert(self.found().subrange(i as int, self.found().len() as int) =~= Seq::<
            (int, int),
        >::empty());
        extend_bytes(&mut out, slice_subrange(template, from, template.len()));
        out
    }
}

/// How a sink names the destination of an event.
#[derive(Debug)]
pub enum Partition {
    /// A fixed key, the same for every event.
    Static(Bytes),
    /// A key made from one field of the event: the matcher of the template, the
    /// template, and the name of the field.
    Field(Matcher, Bytes, String),
}

impl Clone for Partition {
    fn clone(&self) -> (r: Self)
        ensures
            r.template() == self.template(),
            r.well_formed() == self.well_formed(),
            r.key() == self.key(),
    {
        match self {
            Partition::Static(source) => Partition::Static(source.clone()),
            Partition::Field(matcher, source, key) => Partition::Field(
                matcher.clone(),
                source.clone(),
                key.clone(),
            ),
        }
    }
}

impl Partition {
    /// The bytes of the template that the partition was made from.
    pub open spec fn template(&self) -> Seq<u8> {
        match self {
            Partition::Static(source) => bytes_contents(*source),
            Partition::Field(_, source, _) => bytes_contents(*source),
        }
    }

    /// The name of the field that the key is made from, if it is made from one.
    pub open spec fn key(&self) -> Option<Seq<char>> {
        match self {
            Partition::Static(_) => None,
            Partition::Field(_, _, key) => Some(key@),
        }
    }

    /// The invariant of a partition: its matcher holds the placeholders of its
    /// own template, and nothing else.
    pub open spec fn well_formed(&self) -> bool {
        match self {
            Partition::Static(_) => true,
            Partition::Field(matcher, source, _) => matcher.matches(bytes_contents(*source)),
        }
    }

    /// Does the invariant hold?
    pub fn is_well_formed(&self) -> (r: bool)
        ensures
            r == self.well_formed(),
    {
        match self {
            Partition::Static(_) => true,
            Partition::Field(matcher, source, _) => matcher.agrees_with(source.deref()),
        }
    }
}

/// The key that `stream` gives for an event with the fields `event`: the fixed
/// bytes, or the template with the field's bytes in place of each placeholder;
/// none where the event lacks the field.
pub open spec fn resolved(event: Map<Seq<char>, ValueModel>, stream: Partition) -> Option<
    Seq<u8>,
> {
    match stream {
        Partition::Static(source) => Some(bytes_contents(source)),
        Partition::Field(_, source, key) => if event.contains_key(key@) {
            Some(substituted(bytes_contents(source), value_bytes(event[key@])))
        } else {
            None
        },
    }
}

/// A template `prefix{{name}}suffix`, in which every placeholder that the
/// grammar admits lies inside `{{name}}`, compiles to a partition by the field
/// `name`, and an event that holds that field gets the key `prefix`, then the
/// field's bytes, then `suffix`.
///
/// `stream` stands for what [`interpolate`] returns for the template, `event`
/// for the fields of the event that [`partition`] is called with.
pub proof fn lemma_field_partition(
    prefix: Seq<u8>,
    name: Seq<u8>,
    suffix: Seq<u8>,
    stream: Partition,
    event: Map<Seq<char>, ValueModel>,
)
    requires
        name.len() > 0,
        forall|k: int| 0 <= k < name.len() ==> !is_digit(#[trigger] name[k]),
        forall|s: int, e: int| #[trigger]
            is_placeholder(around(prefix, name, suffix), s, e) ==> prefix.len() <= s && e
                <= prefix.len() + name.len() + 4,
        stream.template() == around(prefix, name, suffix),
        stream is Field <==> has_placeholder(stream.template(), 0),
        stream.key() matches Some(key) ==> encode_utf8(key) == first_name(stream.template()),
        stream.key() matches Some(key) ==> event.contains_key(key),
    ensures
        stream.key() matches Some(key) && encode_utf8(key) == name && resolved(event, stream)
            == Some(prefix + value_bytes(event[key]) + suffix),
{
    let key = stream.key()->0;
    lemma_placeholder_between(prefix, name, suffix, value_bytes(event[key]));
}

/// Compiles the key template `text`.
///
/// The result is `Field` exactly if the template holds a placeholder; the field
/// is then named by the first placeholder. Else it is `Static`. Either way the
/// partition keeps the template as it is, and the call does not fail.
pub fn interpolate(text: &str) -> (r: Option<Partition>)
    ensures
        r is Some,
        r->0.well_formed(),
        r->0.template() == encode_utf8(text@),
        r->0 is Field <==> has_placeholder(encode_utf8(text@), 0),
        r->0 matches Partition::Field(_, _, key) ==> encode_utf8(key@) == first_name(
            encode_utf8(text@),
        ),
{
    let template = text.as_bytes();
    let matcher = Matcher::compile(template);
    proof {
        encode_utf8_valid_utf8(text@);
        if has_placeholder(template@, 0) {
            let (s, e) = choose|s: int, e: int| 0 <= s && #[trigger] is_placeholder(template@, s, e);
            lemma_first_match_exists(template@, 0, s, e);
            lemma_first_match_holds(template@, 0);
        } else {
            lemma_no_match(template@, 0);
        }
    }
    match matcher.first() {
        None => Some(Partition::Static(Bytes::from(slice_to_vec(template)))),
        Some(region) => {
            proof {
                let m = first_match(template@, 0);
                assert(has_match(template@, 0));
                lemma_first_match_holds(template@, 0);
                lemma_name_is_utf8(template@, m.0, m.1);
                decode_utf8_encode_utf8(first_name(template@));
            }
            let name = slice_to_vec(slice_subrange(template, region.start + 2, region.end - 2));
            match string_from_utf8(name) {
                Some(key) => Some(
                    Partition::Field(matcher, Bytes::from(slice_to_vec(template)), key),
                ),
                None => None,
            }
        },
    }
}

/// The partition key of `event`.
///
/// `None` means that the event lacks the field that the key is made from: the
/// event has no destination and is to be dropped.
pub fn partition(event: Event, stream: &Partition) -> (r: Option<Bytes>)
    requires
        stream.well_formed(),
    ensures
        match r {
            Some(key) => resolved(event@, *stream) == Some(bytes_contents(key)),
            None => resolved(event@, *stream) is None,
        },
{
    match stream {
        Partition::Static(source) => Some(source.clone()),
        Partition::Field(matcher, source, key) => {
            match event.get(key.as_str()) {
                Some(value) => {
                    let bytes = value.as_bytes();
                    let key = matcher.replace_all(source.deref(), bytes.deref());
                    Some(Bytes::from(key))
                },
                None => None,
            }
        },
    }
}

} // verus!
