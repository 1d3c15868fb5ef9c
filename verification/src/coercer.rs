//! The coercion transform: converts chosen fields of each event to a configured
//! kind, and leaves a field as it is where its value cannot be converted.

use crate::conversion::{conversion_named, converted, Conversion, ConversionError};
use crate::event::{
    distinct_keys, entries_map, has_key, index_of, lemma_index_of, Event, ValueModel,
};
use crate::text::str_eq;
use vstd::prelude::*;

verus! {

/// One line of a coercion configuration: a field and the name of the kind that
/// it is to have.
#[derive(Debug, PartialEq, Eq)]
pub struct TypeEntry {
    pub field: String,
    pub kind_name: String,
}

/// The configuration of a coercion transform: for each field that is to be
/// coerced, the name of a kind.
#[derive(Debug, PartialEq, Eq)]
pub struct CoercerConfig {
    types: Vec<TypeEntry>,
}

/// A configuration that cannot be built: `field` asks for `kind_name`, which
/// names no kind.
#[derive(Debug, PartialEq, Eq)]
pub struct ConfigError {
    pub field: String,
    pub kind_name: String,
}

/// One line of a built coercion map: a field and the kind that it is to have.
#[derive(Debug, PartialEq, Eq)]
pub struct Target {
    pub field: String,
    pub kind: Conversion,
}

/// The coercion transform.
#[derive(Debug, PartialEq, Eq)]
pub struct Coercer {
    types: Vec<Target>,
}

/// A field that an event holds and that could not be converted.
#[derive(Debug, PartialEq, Eq)]
pub struct CoercionFailure {
    pub field: String,
    pub error: ConversionError,
}

/// Does no field occur twice in the configuration?
pub open spec fn distinct_fields<T>(lines: Seq<(Seq<char>, T)>) -> bool {
    forall|i: int, j: int|
        0 <= i < j < lines.len() ==> (#[trigger] lines[i]).0 != (#[trigger] lines[j]).0
}

/// Is there a line for `field`?
pub open spec fn has_line<T>(lines: Seq<(Seq<char>, T)>, field: Seq<char>) -> bool {
    exists|i: int| 0 <= i < lines.len() && (#[trigger] lines[i]).0 == field
}

/// The place of the line for `field`, where there is one.
pub open spec fn line_of<T>(lines: Seq<(Seq<char>, T)>, field: Seq<char>) -> int {
    choose|i: int| 0 <= i < lines.len() && (#[trigger] lines[i]).0 == field
}

/// The kind that the coercion map gives for `field`, if it has one.
pub open spec fn target(types: Seq<(Seq<char>, Conversion)>, field: Seq<char>) -> Option<
    Conversion,
> {
    if has_line(types, field) {
        Some(types[line_of(types, field)].1)
    } else {
        None
    }
}

/// Is the type name of every line known?
pub open spec fn all_known(lines: Seq<(Seq<char>, Seq<char>)>) -> bool {
    forall|i: int| 0 <= i < lines.len() ==> conversion_named((#[trigger] lines[i]).1) is Some
}

/// The coercion map that a configuration stands for, where every type name is
/// known: line by line, the kind in place of its name.
pub open spec fn resolved_types(lines: Seq<(Seq<char>, Seq<char>)>) -> Seq<
    (Seq<char>, Conversion),
> {
    Seq::new(lines.len(), |i: int| (lines[i].0, conversion_named(lines[i].1)->0))
}

/// What the transform makes of the value of `field`: the converted value where
/// the map has a kind for the field and the conversion succeeds, else the value
/// as it was.
pub open spec fn coerced_value(
    types: Seq<(Seq<char>, Conversion)>,
    field: Seq<char>,
    value: ValueModel,
) -> ValueModel {
    match target(types, field) {
        Some(kind) => match converted(kind, value) {
            Ok(v) => v,
            Err(_) => value,
        },
        None => value,
    }
}

/// What the transform makes of an event: the same fields in the same order,
/// each with the value that [`coerced_value`] gives.
pub open spec fn coerced(
    types: Seq<(Seq<char>, Conversion)>,
    entries: Seq<(Seq<char>, ValueModel)>,
) -> Seq<(Seq<char>, ValueModel)> {
    Seq::new(
        entries.len(),
        |i: int| (entries[i].0, coerced_value(types, entries[i].0, entries[i].1)),
    )
}

/// The conversions that fail on an event, in the order of the coercion map:
/// for each line whose field the event holds and whose conversion fails, the
/// field and the error.
pub open spec fn failures_of(
    types: Seq<(Seq<char>, Conversion)>,
    event: Map<Seq<char>, ValueModel>,
) -> Seq<(Seq<char>, ConversionError)>
    decreases types.len(),
{
    if types.len() == 0 {
        seq![]
    } else {
        let earlier = failures_of(types.drop_last(), event);
        let line = types.last();
        if event.contains_key(line.0) && converted(line.1, event[line.0]) is Err {
            earlier.push((line.0, converted(line.1, event[line.0])->Err_0))
        } else {
            earlier
        }
    }
}

/// The coercion map with one more line, for a field that it did not have, gives
/// that field the new kind and every other field what it gave before.
pub proof fn lemma_target_push(
    types: Seq<(Seq<char>, Conversion)>,
    field: Seq<char>,
    kind: Conversion,
    other: Seq<char>,
)
    requires
        distinct_fields(types),
        !has_line(types, field),
    ensures
        target(types.push((field, kind)), other) == if other == field {
            Some(kind)
        } else {
            target(types, other)
        },
{
    let longer = types.push((field, kind));
    if other == field {
        assert(longer[types.len() as int].0 == field);
        let i = line_of(longer, field);
        if i < types.len() {
            assert(types[i].0 == field);
        }
    } else if has_line(types, other) {
        let i = line_of(types, other);
        assert(longer[i].0 == other);
        let j = line_of(longer, other);
        assert(j < types.len());
        assert(types[j].0 == other);
        lemma_line_of(types, other, j);
    } else if has_line(longer, other) {
        let j = line_of(longer, other);
        assert(types[j].0 == other);
    }
}

/// In a coercion map of distinct fields, the line for a field is determined.
pub proof fn lemma_line_of<T>(lines: Seq<(Seq<char>, T)>, field: Seq<char>, i: int)
    requires
        0 <= i < lines.len(),
        lines[i].0 == field,
    ensures
        has_line(lines, field),
        distinct_fields(lines) ==> line_of(lines, field) == i,
{
    let j = line_of(lines, field);
    assert(0 <= j < lines.len() && lines[j].0 == field);
}

impl View for TypeEntry {
    type V = (Seq<char>, Seq<char>);

    open spec fn view(&self) -> (Seq<char>, Seq<char>) {
        (self.field@, self.kind_name@)
    }
}

impl View for Target {
    type V = (Seq<char>, Conversion);

    open spec fn view(&self) -> (Seq<char>, Conversion) {
        (self.field@, self.kind)
    }
}

impl View for CoercionFailure {
    type V = (Seq<char>, ConversionError);

    open spec fn view(&self) -> (Seq<char>, ConversionError) {
        (self.field@, self.error)
    }
}

impl View for ConfigError {
    type V = (Seq<char>, Seq<char>);

    open spec fn view(&self) -> (Seq<char>, Seq<char>) {
        (self.field@, self.kind_name@)
    }
}

impl Default for CoercerConfig {
    fn default() -> (c: Self)
        ensures
            c.lines() == Seq::<(Seq<char>, Seq<char>)>::empty(),
    {
        CoercerConfig::new()
    }
}

impl CoercerConfig {
    /// The lines in order, each as field and type name.
    pub closed spec fn lines(&self) -> Seq<(Seq<char>, Seq<char>)> {
        self.types@.map_values(|t: TypeEntry| t@)
    }

    /// The invariant of a configuration: no field occurs twice.
    #[verifier::type_invariant]
    pub open spec fn well_formed(&self) -> bool {
        distinct_fields(self.lines())
    }

    /// A configuration without lines.
    pub fn new() -> (c: CoercerConfig)
        ensures
            c.lines() == Seq::<(Seq<char>, Seq<char>)>::empty(),
    {
        let types: Vec<TypeEntry> = Vec::new();
        assert(types@.map_values(|t: TypeEntry| t@) =~= Seq::<(Seq<char>, Seq<char>)>::empty());
        CoercerConfig { types }
    }

    /// Asks for `field` to be coerced to the kind named `kind_name`. A line that
    /// was there for the field is replaced where it stands.
    pub fn insert(&mut self, field: String, kind_name: String)
        ensures
            final(self).lines() == if has_line(old(self).lines(), field@) {
                old(self).lines().update(
                    line_of(old(self).lines(), field@),
                    (field@, kind_name@),
                )
            } else {
                old(self).lines().push((field@, kind_name@))
            },
    {
        proof {
            use_type_invariant(&*self);
        }
        let ghost before = self.lines();
        // The lines are taken out and put back, so that the invariant is owed
        // for the finished vector only.
        let mut taken = CoercerConfig::new();
        core::mem::swap(self, &mut taken);
        let CoercerConfig { types } = taken;
        let mut types = types;
        let mut i: usize = 0;
        let mut found: Option<usize> = None;
        while i < types.len()
            invariant_except_break
                i <= types.len(),
                found is None,
                forall|j: int| 0 <= j < i ==> (#[trigger] before[j]).0 != field@,
            invariant
                before == types@.map_values(|t: TypeEntry| t@),
            ensures
                match found {
                    Some(at) => at < types.len() && before[at as int].0 == field@,
                    None => !has_line(before, field@),
                },
            decreases types.len() - i,
        {
            if str_eq(types[i].field.as_str(), field.as_str()) {
                found = Some(i);
                break ;
            }
            i += 1;
        }
        let ghost after;
        match found {
            Some(at) => {
                proof {
                    lemma_line_of(before, field@, at as int);
                    after = before.update(at as int, (field@, kind_name@));
                }
                types[at] = TypeEntry { field, kind_name };
                assert(types@.map_values(|t: TypeEntry| t@) =~= after);
                assert forall|a: int, b: int| 0 <= a < b < after.len() implies (
                #[trigger] after[a]).0 != (#[trigger] after[b]).0 by {
                    assert(before[a].0 != before[b].0);
                }
            },
            None => {
                proof {
                    after = before.push((field@, kind_name@));
                }
                types.push(TypeEntry { field, kind_name });
                assert(types@.map_values(|t: TypeEntry| t@) =~= after);
                assert forall|a: int, b: int| 0 <= a < b < after.len() implies (
                #[trigger] after[a]).0 != (#[trigger] after[b]).0 by {
                    if b < before.len() {
                        assert(before[a].0 != before[b].0);
                    } else {
                        assert(before[a].0 != field@);
                    }
                }
            },
        }
        *self = CoercerConfig { types };
    }

    /// All lines of the configuration, in order.
    pub fn all_lines(&self) -> (r: &Vec<TypeEntry>)
        ensures
            r@.map_values(|t: TypeEntry| t@) == self.lines(),
    {
        &self.types
    }

    /// Builds the transform.
    ///
    /// This fails exactly if some line names a kind that is not known; the
    /// error is then the first such line. Else the transform has, line by
    /// line, the kind in place of its name.
    pub fn build(&self) -> (r: Result<Coercer, ConfigError>)
        ensures
            match r {
                Ok(coercer) => all_known(self.lines()) && coercer.lines() == resolved_types(
                    self.lines(),
                ),
                Err(e) => exists|i: int|
                    0 <= i < self.lines().len() && e@ == #[trigger] self.lines()[i]
                        && conversion_named(e@.1) is None && all_known(
                        self.lines().subrange(0, i),
                    ),
            },
    {
        let mut types: Vec<Target> = Vec::new();
        let mut i: usize = 0;
        while i < self.types.len()
            invariant
                i <= self.types.len(),
                types.len() == i,
                all_known(self.lines().subrange(0, i as int)),
                forall|j: int|
                    0 <= j < i ==> (#[trigger] types[j])@ == (
                        self.lines()[j].0,
                        conversion_named(self.lines()[j].1)->0,
                    ),
            decreases self.types.len() - i,
        {
            let entry = &self.types[i];
            assert(entry@ == self.lines()[i as int]);
            match Conversion::from_name(entry.kind_name.as_str()) {
                Some(kind) => {
                    types.push(Target { field: entry.field.clone(), kind });
                    assert forall|j: int| 0 <= j < i + 1 implies conversion_named(
                        (#[trigger] self.lines().subrange(0, i + 1)[j]).1,
                    ) is Some by {
                        if j < i {
                            assert(self.lines().subrange(0, i as int)[j] == self.lines()[j]);
                        }
                    }
                },
                None => {
                    return Err(
                        ConfigError {
                            field: entry.field.clone(),
                            kind_name: entry.kind_name.clone(),
                        },
                    );
                },
            }
            i += 1;
        }
        proof {
            use_type_invariant(self);
            let built = types@.map_values(|t: Target| t@);
            assert(self.lines().subrange(0, i as int) =~= self.lines());
            assert(built =~= resolved_types(self.lines()));
            assert forall|a: int, b: int| 0 <= a < b < built.len() implies (#[trigger] built[a]).0
                != (#[trigger] built[b]).0 by {
                assert(self.lines()[a].0 != self.lines()[b].0);
            }
        }
        Ok(Coercer { types })
    }
}

impl Coercer {
    /// The coercion map line by line, each as field and kind.
    pub closed spec fn lines(&self) -> Seq<(Seq<char>, Conversion)> {
        self.types@.map_values(|t: Target| t@)
    }

    /// The invariant of a transform: no field occurs twice in its map.
    #[verifier::type_invariant]
    pub open spec fn well_formed(&self) -> bool {
        distinct_fields(self.lines())
    }

    /// Coerces the fields of `event` and reports the conversions that failed.
    ///
    /// The event keeps its fields and their order. A field with a line in the
    /// map gets the converted value where the conversion succeeds and keeps
    /// its value where it fails; every other field keeps its value.
    pub fn coerce(&self, event: Event) -> (r: (Event, Vec<CoercionFailure>))
        ensures
            r.0.entries() == coerced(self.lines(), event.entries()),
            r.1@.map_values(|f: CoercionFailure| f@) == failures_of(self.lines(), event@),
    {
        proof {
            use_type_invariant(self);
            use_type_invariant(&event);
        }
        let ghost initial = event.entries();
        let ghost lines = self.lines();
        let mut event = event;
        let mut failures: Vec<CoercionFailure> = Vec::new();
        let mut i: usize = 0;
        assert(lines.subrange(0, 0) =~= Seq::<(Seq<char>, Conversion)>::empty());
        assert(event.entries() =~= coerced(lines.subrange(0, 0), initial));
        assert(failures@.map_values(|f: CoercionFailure| f@) =~= failures_of(
            lines.subrange(0, 0),
            entries_map(initial),
        ));
        while i < self.types.len()
            invariant
                i <= self.types.len(),
                lines == self.lines(),
                distinct_fields(lines),
                distinct_keys(initial),
                event.entries() == coerced(lines.subrange(0, i as int), initial),
                failures@.map_values(|f: CoercionFailure| f@) == failures_of(
                    lines.subrange(0, i as int),
                    entries_map(initial),
                ),
            decreases self.types.len() - i,
        {
            let line = &self.types[i];
            let ghost done = lines.subrange(0, i as int);
            let ghost next = lines.subrange(0, i + 1);
            let ghost field = line.field@;
            let ghost current = event.entries();
            proof {
                use_type_invariant(&event);
                assert(line@ == lines[i as int]);
                assert(next =~= done.push((field, line.kind)));
                assert(next.drop_last() =~= done);
                assert(distinct_fields(done)) by {
                    assert forall|a: int, b: int| 0 <= a < b < done.len() implies (
                    #[trigger] done[a]).0 != (#[trigger] done[b]).0 by {
                        assert(lines[a].0 != lines[b].0);
                    }
                }
                assert(!has_line(done, field)) by {
                    if has_line(done, field) {
                        let j = line_of(done, field);
                        assert(lines[j].0 == field);
                        assert(lines[j].0 != lines[i as int].0);
                    }
                }
                assert forall|k: Seq<char>| has_key(current, k) <==> has_key(initial, k) by {
                    if has_key(current, k) {
                        let p = index_of(current, k);
                        assert(initial[p].0 == k);
                    }
                    if has_key(initial, k) {
                        let p = index_of(initial, k);
                        assert(current[p].0 == k);
                    }
                }
                assert forall|p: int| 0 <= p < initial.len() implies coerced_value(
                    next,
                    initial[p].0,
                    initial[p].1,
                ) == if initial[p].0 == field {
                    match converted(line.kind, initial[p].1) {
                        Ok(v) => v,
                        Err(_) => initial[p].1,
                    }
                } else {
                    #[trigger] current[p].1
                } by {
                    lemma_target_push(done, field, line.kind, initial[p].0);
                }
            }
            let converted_value = match event.get(line.field.as_str()) {
                Some(value) => Some(line.kind.convert(value.clone())),
                None => None,
            };
            proof {
                if has_key(initial, field) {
                    let p = index_of(initial, field);
                    lemma_index_of(initial, p);
                    lemma_index_of(current, p);
                    lemma_target_push(done, field, line.kind, field);
                    assert(target(done, field) is None);
                    assert(current[p].1 == initial[p].1);
                }
            }
            match converted_value {
                Some(Ok(value)) => {
                    event.insert(line.field.clone(), value);
                    assert(event.entries() =~= coerced(next, initial));
                },
                Some(Err(error)) => {
                    failures.push(CoercionFailure { field: line.field.clone(), error });
                    assert(event.entries() =~= coerced(next, initial));
                    assert(failures@.map_values(|f: CoercionFailure| f@) =~= failures_of(
                        done,
                        entries_map(initial),
                    ).push((field, error)));
                },
                None => {
                    assert(event.entries() =~= coerced(next, initial));
                },
            }
            i += 1;
        }
        assert(lines.subrange(0, i as int) =~= lines);
        (event, failures)
    }

    /// Coerces the fields of `event`. The result is never `None`: the transform
    /// drops no event.
    pub fn transform(&mut self, event: Event) -> (r: Option<Event>)
        ensures
            final(self).lines() == old(self).lines(),
            r is Some,
            r->0.entries() == coerced(old(self).lines(), event.entries()),
    {
        let (event, _) = self.coerce(event);
        Some(event)
    }
}

} // verus!
