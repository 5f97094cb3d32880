//! Schemas and the arena that owns them.
//!
//! A schema is an ordered list of fields; the position of a field is the
//! integer that a path slot carries.  Nested element schemas are shared by
//! arena position: a field's `Vector` or `Pointer` model names a schema
//! loaded earlier, so the schema graph can never form a cycle.

use vstd::prelude::*;

use crate::error::SchemaError;
use crate::field::{Field, FieldModel};
use crate::fieldpath::FieldPath;

verus! {

/// One schema: the ordered fields of one class layout.
#[derive(Debug)]
pub struct Serializer {
    pub fields: Vec<Field>,
}

/// A field name usable in dotted paths: non-empty and free of dots.
pub open spec fn name_ok(s: Seq<char>) -> bool {
    s.len() > 0 && forall|i: int| 0 <= i < s.len() ==> #[trigger] s[i] != '.'
}

/// One field against the arena prefix below schema `s`: its name is
/// usable, a nested schema stands earlier in the arena, and an array with
/// a distinct element rule carries the element type it resolves to.
pub open spec fn field_wf(sers: Seq<Serializer>, s: int, f: Field) -> bool {
    &&& name_ok(f.var_name@)
    &&& match f.model {
        FieldModel::Vector(ns) => ns < s,
        FieldModel::Pointer(ns) => ns < s,
        FieldModel::ArrayVector(_) => f.field_type.generic is Some,
        _ => true,
    }
}

/// How many path slots a walk through this field can consume, nested
/// schemas included.
pub open spec fn field_depth(sers: Seq<Serializer>, s: int, f: Field) -> int
    decreases s, 0int, 0int,
{
    match f.model {
        FieldModel::Value => 1,
        FieldModel::Array => 2,
        FieldModel::ArrayVector(_) => 2,
        FieldModel::Vector(ns) => if 0 <= ns < s {
            2 + ser_depth(sers, ns as int)
        } else {
            2
        },
        FieldModel::Pointer(ns) => if 0 <= ns < s {
            1 + ser_depth(sers, ns as int)
        } else {
            1
        },
    }
}

/// The deepest walk through the fields of schema `s` from position `j` on.
pub open spec fn ser_depth_from(sers: Seq<Serializer>, s: int, j: int) -> int
    decreases s, 1int, sers[s].fields@.len() - j,
{
    if 0 <= s < sers.len() && 0 <= j < sers[s].fields@.len() {
        let d = field_depth(sers, s, sers[s].fields@[j]);
        let rest = ser_depth_from(sers, s, j + 1);
        if d >= rest {
            d
        } else {
            rest
        }
    } else {
        0
    }
}

/// The deepest walk through schema `s`: how many path slots it can need.
pub open spec fn ser_depth(sers: Seq<Serializer>, s: int) -> int
    decreases s, 2int, 0int,
{
    ser_depth_from(sers, s, 0)
}

/// One schema of the arena is well formed: every field is, positions fit
/// in a slot, names are pairwise distinct, and walks fit a path.
pub open spec fn ser_wf(sers: Seq<Serializer>, s: int) -> bool {
    let fields = sers[s].fields@;
    &&& fields.len() <= 0x10000
    &&& (forall|j: int| 0 <= j < fields.len() ==> field_wf(sers, s, #[trigger] fields[j]))
    &&& (forall|j: int, k: int|
        0 <= j < k < fields.len() ==> (#[trigger] fields[j].var_name@) != (#[trigger] fields[
            k
        ].var_name@))
    &&& ser_depth(sers, s) <= 7
}

/// Every schema of the arena is well formed.
pub open spec fn wf_sers(sers: Seq<Serializer>) -> bool {
    forall|s: int| 0 <= s < sers.len() ==> ser_wf(sers, s)
}

/// One remembered resolution: which schema, which dotted name, which path.
pub(crate) struct CacheEntry {
    pub(crate) ser: usize,
    pub(crate) name: String,
    pub(crate) fp: FieldPath,
}

/// The arena of loaded schemas, plus the name-to-path cache.  The fields
/// of the loaded schemas never change after loading; the cache only ever
/// holds results that uncached resolution would also return, so caching
/// is an optimization and never a semantics change.  Exclusive access to
/// the one mutable member is enforced through the borrow discipline of
/// the cached lookup itself, in place of a lock.
pub struct SchemaArena {
    pub sers: Vec<Serializer>,
    pub(crate) cache: Vec<CacheEntry>,
}

impl SchemaArena {
    /// The loaded schemas, in loading order.
    pub open(crate) spec fn sers_view(&self) -> Seq<Serializer> {
        self.sers@
    }

    /// The arena invariant: schemas are well formed and every cache entry
    /// agrees with uncached resolution.
    pub open(crate) spec fn inv(&self) -> bool {
        &&& wf_sers(self.sers@)
        &&& (forall|k: int| 0 <= k < self.cache@.len() ==> #[trigger] cache_entry_ok(
            self.sers@,
            self.cache@[k],
        ))
    }

    /// Whether the cache remembers path `fp` for `name` under schema
    /// `ser`.
    pub open(crate) spec fn cache_has(&self, ser: int, name: Seq<char>, fp: Seq<u16>) -> bool {
        exists|k: int|
            0 <= k < self.cache@.len() && (#[trigger] self.cache@[k]).ser == ser && self.cache@[
                k
            ].name@ == name && self.cache@[k].fp@ == fp
    }

    /// Whether the cache holds exactly the entries of `other`'s cache.
    pub open(crate) spec fn cache_same(&self, other: SchemaArena) -> bool {
        self.cache@ == other.cache@
    }

    /// Whether the cache holds `other`'s entries unchanged, plus at most
    /// one more.
    pub open(crate) spec fn cache_extends(&self, other: SchemaArena) -> bool {
        &&& other.cache@.len() <= self.cache@.len() <= other.cache@.len() + 1
        &&& forall|k: int| 0 <= k < other.cache@.len() ==> self.cache@[k] == other.cache@[k]
    }

    /// An empty arena.
    pub fn new() -> (r: SchemaArena)
        ensures
            r.inv(),
            r.sers_view().len() == 0,
    {
        SchemaArena { sers: Vec::new(), cache: Vec::new() }
    }
}

/// A cache entry is one that uncached resolution reproduces.
pub(crate) open spec fn cache_entry_ok(sers: Seq<Serializer>, e: CacheEntry) -> bool {
    &&& e.ser < sers.len()
    &&& e.fp.wf()
    &&& crate::resolve::spec_resolve(sers, e.ser as int, e.name@) == Some(e.fp@)
}

/// Whether a field's element schema points past the loaded arena.
pub open spec fn nested_out_of_range(len: int, f: Field) -> bool {
    match f.model {
        FieldModel::Vector(ns) => ns >= len,
        FieldModel::Pointer(ns) => ns >= len,
        _ => false,
    }
}

/// Whether a field needs an element type it does not carry.
pub open spec fn missing_element_type(f: Field) -> bool {
    f.model matches FieldModel::ArrayVector(_) && f.field_type.generic is None
}

/// Whether a field list may be loaded as the next schema of the arena.
pub open spec fn fields_acceptable(sers: Seq<Serializer>, fields: Seq<Field>) -> bool {
    &&& fields.len() <= 0x10000
    &&& (forall|j: int| 0 <= j < fields.len() ==> field_wf(sers, sers.len() as int, #[trigger] fields[j]))
    &&& (forall|j: int, k: int|
        0 <= j < k < fields.len() ==> (#[trigger] fields[j].var_name@) != (#[trigger] fields[
            k
        ].var_name@))
    &&& cand_depth_from(sers, fields, 0) <= 7
}

/// `field_depth` for a candidate field, against the arena as it stands.
pub open spec fn cand_field_depth(sers: Seq<Serializer>, f: Field) -> int {
    match f.model {
        FieldModel::Value => 1,
        FieldModel::Array => 2,
        FieldModel::ArrayVector(_) => 2,
        FieldModel::Vector(ns) => if 0 <= ns < sers.len() {
            2 + ser_depth(sers, ns as int)
        } else {
            2
        },
        FieldModel::Pointer(ns) => if 0 <= ns < sers.len() {
            1 + ser_depth(sers, ns as int)
        } else {
            1
        },
    }
}

/// `ser_depth_from` for a candidate field list.
pub open spec fn cand_depth_from(sers: Seq<Serializer>, fields: Seq<Field>, j: int) -> int
    decreases fields.len() - j,
{
    if 0 <= j < fields.len() {
        let d = cand_field_depth(sers, fields[j]);
        let rest = cand_depth_from(sers, fields, j + 1);
        if d >= rest {
            d
        } else {
            rest
        }
    } else {
        0
    }
}

/// Depth does not change when a schema is appended after `s`.
pub proof fn lemma_depth_frame(sers: Seq<Serializer>, x: Serializer, s: int, j: int)
    requires
        0 <= s < sers.len(),
    ensures
        ser_depth_from(sers.push(x), s, j) == ser_depth_from(sers, s, j),
        0 <= j < sers[s].fields@.len() ==> field_depth(sers.push(x), s, sers[s].fields@[j])
            == field_depth(sers, s, sers[s].fields@[j]),
    decreases s, 1int, sers[s].fields@.len() - j,
{
    assert(sers.push(x)[s] == sers[s]);
    if 0 <= j < sers[s].fields@.len() {
        let f = sers[s].fields@[j];
        match f.model {
            FieldModel::Vector(ns) => {
                if 0 <= ns < s {
                    lemma_depth_frame(sers, x, ns as int, 0);
                    assert(ser_depth(sers.push(x), ns as int) == ser_depth(sers, ns as int));
                }
            },
            FieldModel::Pointer(ns) => {
                if 0 <= ns < s {
                    lemma_depth_frame(sers, x, ns as int, 0);
                    assert(ser_depth(sers.push(x), ns as int) == ser_depth(sers, ns as int));
                }
            },
            _ => {},
        }
        assert(field_depth(sers.push(x), s, f) == field_depth(sers, s, f));
        lemma_depth_frame(sers, x, s, j + 1);
        assert(ser_depth_from(sers.push(x), s, j) == ser_depth_from(sers, s, j));
    } else {
        assert(ser_depth_from(sers.push(x), s, j) == 0);
        assert(ser_depth_from(sers, s, j) == 0);
    }
}

/// The depth of a newly appended schema is the candidate depth of its
/// field list.
pub proof fn lemma_cand_depth(sers: Seq<Serializer>, x: Serializer, j: int)
    requires
        sers.push(x)[sers.len() as int] == x,
    ensures
        ser_depth_from(sers.push(x), sers.len() as int, j) == cand_depth_from(
            sers,
            x.fields@,
            j,
        ),
    decreases x.fields@.len() - j,
{
    let s = sers.len() as int;
    let sers2 = sers.push(x);
    if 0 <= j < x.fields@.len() {
        let f = x.fields@[j];
        match f.model {
            FieldModel::Vector(ns) => {
                if 0 <= ns < s {
                    lemma_depth_frame(sers, x, ns as int, 0);
                    assert(ser_depth(sers2, ns as int) == ser_depth(sers, ns as int));
                }
            },
            FieldModel::Pointer(ns) => {
                if 0 <= ns < s {
                    lemma_depth_frame(sers, x, ns as int, 0);
                    assert(ser_depth(sers2, ns as int) == ser_depth(sers, ns as int));
                }
            },
            _ => {},
        }
        assert(field_depth(sers2, s, f) == cand_field_depth(sers, f));
        lemma_cand_depth(sers, x, j + 1);
        assert(ser_depth_from(sers2, s, j) == cand_depth_from(sers, x.fields@, j));
    } else {
        assert(ser_depth_from(sers2, s, j) == 0);
        assert(cand_depth_from(sers, x.fields@, j) == 0);
    }
}

impl SchemaArena {
    /// The depth of a loaded schema, in path slots.
    pub fn depth_of(&self, s: usize) -> (r: usize)
        requires
            self.inv(),
            s < self.sers_view().len(),
        ensures
            r == ser_depth(self.sers_view(), s as int),
            r <= 7,
        decreases s,
    {
        let fields_len = self.sers[s].fields.len();
        let mut j: usize = fields_len;
        let mut best: usize = 0;
        while j > 0
            invariant
                self.inv(),
                s < self.sers_view().len(),
                j <= fields_len,
                fields_len == self.sers@[s as int].fields@.len(),
                best == ser_depth_from(self.sers_view(), s as int, j as int),
                best <= 7,
            decreases j,
        {
            j = j - 1;
            proof {
                lemma_depth_from_le(self.sers@, s as int, j as int);
                assert(ser_wf(self.sers@, s as int));
            }
            let f = &self.sers[s].fields[j];
            let d: usize = match f.model {
                FieldModel::Value => 1,
                FieldModel::Array => 2,
                FieldModel::ArrayVector(_) => 2,
                FieldModel::Vector(ns) => {
                    if ns < s {
                        2 + self.depth_of(ns)
                    } else {
                        2
                    }
                },
                FieldModel::Pointer(ns) => {
                    if ns < s {
                        1 + self.depth_of(ns)
                    } else {
                        1
                    }
                },
            };
            if d > best {
                best = d;
            }
        }
        best
    }
}

impl SchemaArena {
    /// Validate a field list and load it as the next schema, answering
    /// its arena position.  Loading fails, and the arena stands
    /// unchanged, exactly when the list breaks a schema rule; the cache
    /// starts empty again so that it only ever describes loaded schemas.
    pub fn push_serializer(&mut self, fields: Vec<Field>) -> (r: Result<usize, SchemaError>)
        requires
            old(self).inv(),
        ensures
            final(self).inv(),
            match r {
                Ok(id) => {
                    &&& fields_acceptable(old(self).sers_view(), fields@)
                    &&& id == old(self).sers_view().len()
                    &&& final(self).sers_view().len() == old(self).sers_view().len() + 1
                    &&& final(self).sers_view()[id as int].fields@ == fields@
                    &&& forall|i: int|
                        0 <= i < old(self).sers_view().len() ==> final(self).sers_view()[i] == old(
                            self,
                        ).sers_view()[i]
                },
                Err(e) => {
                    &&& !fields_acceptable(old(self).sers_view(), fields@)
                    &&& final(self).sers_view() == old(self).sers_view()
                    &&& (e == SchemaError::TooManyFields ==> fields@.len() > 0x10000)
                    &&& (e == SchemaError::EmptyFieldName ==> exists|j: int|
                        0 <= j < fields@.len() && (#[trigger] fields@[j].var_name@).len() == 0)
                    &&& (e == SchemaError::DottedFieldName ==> exists|j: int, i: int|
                        0 <= j < fields@.len() && 0 <= i < fields@[j].var_name@.len() && (
                        #[trigger] fields@[j].var_name@[i]) == '.')
                    &&& (e == SchemaError::BadNestedSerializer ==> exists|j: int|
                        0 <= j < fields@.len() && nested_out_of_range(
                            old(self).sers_view().len() as int,
                            #[trigger] fields@[j],
                        ))
                    &&& (e == SchemaError::MissingElementType ==> exists|j: int|
                        0 <= j < fields@.len() && missing_element_type(#[trigger] fields@[j]))
                    &&& (e == SchemaError::DuplicateFieldName ==> exists|j: int, k: int|
                        0 <= j < k < fields@.len() && (#[trigger] fields@[j].var_name@) == (
                        #[trigger] fields@[k].var_name@))
                    &&& (e == SchemaError::TooDeep ==> cand_depth_from(
                        old(self).sers_view(),
                        fields@,
                        0,
                    ) > 7)
                    &&& (e == SchemaError::TooManyFields || e == SchemaError::EmptyFieldName || e
                        == SchemaError::DottedFieldName || e == SchemaError::BadNestedSerializer
                        || e == SchemaError::MissingElementType || e
                        == SchemaError::DuplicateFieldName || e == SchemaError::TooDeep)
                },
            },
    {
        let n = fields.len();
        if n > 0x10000 {
            return Err(SchemaError::TooManyFields);
        }
        let mut j: usize = 0;
        while j < n
            invariant
                self.inv(),
                self.sers_view() == old(self).sers_view(),
                n == fields@.len(),
                j <= n,
                forall|k: int|
                    0 <= k < j ==> field_wf(
                        self.sers_view(),
                        self.sers_view().len() as int,
                        #[trigger] fields@[k],
                    ),
            decreases n - j,
        {
            let ghost target = field_wf(
                self.sers_view(),
                self.sers_view().len() as int,
                fields@[j as int],
            );
            let f_name = fields[j].var_name.as_str();
            if f_name.unicode_len() == 0 {
                proof {
                    assert(!target);
                }
                return Err(SchemaError::EmptyFieldName);
            }
            if let Some(_k) = crate::text::find_char(f_name, '.') {
                proof {
                    crate::text::lemma_find_first(fields@[j as int].var_name@, '.');
                    assert(!target);
                }
                return Err(SchemaError::DottedFieldName);
            }
            proof {
                crate::text::lemma_find_first(fields@[j as int].var_name@, '.');
                assert(name_ok(fields@[j as int].var_name@));
            }
            match fields[j].model {
                FieldModel::Vector(ns) => {
                    if ns >= self.sers.len() {
                        proof {
                            assert(!target);
                        }
                        return Err(SchemaError::BadNestedSerializer);
                    }
                },
                FieldModel::Pointer(ns) => {
                    if ns >= self.sers.len() {
                        proof {
                            assert(!target);
                        }
                        return Err(SchemaError::BadNestedSerializer);
                    }
                },
                FieldModel::ArrayVector(_) => {
                    if fields[j].field_type.generic.is_none() {
                        proof {
                            assert(!target);
                        }
                        return Err(SchemaError::MissingElementType);
                    }
                },
                _ => {},
            }
            proof {
                assert(target);
            }
            j = j + 1;
        }
        let mut a: usize = 0;
        while a < n
            invariant
                self.inv(),
                self.sers_view() == old(self).sers_view(),
                n == fields@.len(),
                a <= n,
                forall|p: int, q: int|
                    0 <= p < q < n && p < a ==> (#[trigger] fields@[p].var_name@)
                        != (#[trigger] fields@[q].var_name@),
            decreases n - a,
        {
            let mut b: usize = a + 1;
            while b < n
                invariant
                    self.inv(),
                    self.sers_view() == old(self).sers_view(),
                    n == fields@.len(),
                    a < n,
                    a + 1 <= b,
                    forall|q: int|
                        a < q < b ==> (fields@[a as int].var_name@) != (#[trigger] fields@[
                            q
                        ].var_name@),
                decreases n - b,
            {
                if crate::text::str_eq(fields[a].var_name.as_str(), fields[b].var_name.as_str()) {
                    proof {
                        assert(fields@[a as int].var_name@ == fields@[b as int].var_name@);
                    }
                    return Err(SchemaError::DuplicateFieldName);
                }
                b = b + 1;
            }
            a = a + 1;
        }
        let mut d: usize = n;
        let mut best: usize = 0;
        while d > 0
            invariant
                self.inv(),
                self.sers_view() == old(self).sers_view(),
                n == fields@.len(),
                d <= n,
                best == cand_depth_from(self.sers_view(), fields@, d as int),
                best <= 7,
            decreases d,
        {
            d = d - 1;
            let fd: usize = match fields[d].model {
                FieldModel::Value => 1,
                FieldModel::Array => 2,
                FieldModel::ArrayVector(_) => 2,
                FieldModel::Vector(ns) => {
                    if ns < self.sers.len() {
                        2 + self.depth_of(ns)
                    } else {
                        2
                    }
                },
                FieldModel::Pointer(ns) => {
                    if ns < self.sers.len() {
                        1 + self.depth_of(ns)
                    } else {
                        1
                    }
                },
            };
            proof {
                assert(fd == cand_field_depth(self.sers_view(), fields@[d as int]));
            }
            if fd > best {
                best = fd;
            }
            if best > 7 {
                proof {
                    lemma_cand_depth_from_le(self.sers_view(), fields@, d as int, 0);
                }
                return Err(SchemaError::TooDeep);
            }
        }
        let id = self.sers.len();
        let ghost old_sers = self.sers@;
        let ghost fseq = fields@;
        let ser = Serializer { fields };
        let ghost gser = ser;
        self.sers.push(ser);
        self.cache = Vec::new();
        proof {
            let new_sers = self.sers@;
            assert(new_sers == old_sers.push(gser));
            assert(gser.fields@ == fseq);
            assert(new_sers[id as int] == gser);
            assert forall|s2: int| 0 <= s2 < new_sers.len() implies ser_wf(new_sers, s2) by {
                if s2 < old_sers.len() {
                    assert(ser_wf(old_sers, s2));
                    lemma_depth_frame(old_sers, gser, s2, 0);
                    assert(new_sers[s2] == old_sers[s2]);
                    assert forall|j2: int|
                        0 <= j2 < new_sers[s2].fields@.len() implies field_wf(
                        new_sers,
                        s2,
                        #[trigger] new_sers[s2].fields@[j2],
                    ) by {
                        assert(field_wf(old_sers, s2, old_sers[s2].fields@[j2]));
                    }
                } else {
                    assert(s2 == id);
                    lemma_cand_depth(old_sers, gser, 0);
                    assert(ser_depth(new_sers, s2) == cand_depth_from(old_sers, fseq, 0));
                    assert forall|j2: int|
                        0 <= j2 < new_sers[s2].fields@.len() implies field_wf(
                        new_sers,
                        s2,
                        #[trigger] new_sers[s2].fields@[j2],
                    ) by {
                        assert(field_wf(old_sers, s2, fseq[j2]));
                    }
                }
            }
            assert(wf_sers(new_sers));
        }
        Ok(id)
    }
}

/// The candidate-depth fold from an earlier position is at least the fold
/// from a later one.
pub proof fn lemma_cand_depth_from_le(
    sers: Seq<Serializer>,
    fields: Seq<Field>,
    j: int,
    j0: int,
)
    requires
        0 <= j0 <= j,
    ensures
        cand_depth_from(sers, fields, j0) >= cand_depth_from(sers, fields, j),
    decreases j - j0,
{
    if j0 < j {
        lemma_cand_depth_from_le(sers, fields, j0 + 1, j0 + 1);
        lemma_cand_depth_from_le(sers, fields, j, j0 + 1);
    }
}

/// Each step of the depth fold keeps the running maximum within the
/// schema's depth.
pub proof fn lemma_depth_from_le(sers: Seq<Serializer>, s: int, j: int)
    requires
        0 <= s < sers.len(),
        wf_sers(sers),
        0 <= j,
    ensures
        ser_depth_from(sers, s, j) <= ser_depth(sers, s),
        0 <= ser_depth_from(sers, s, j),
        0 <= j < sers[s].fields@.len() ==> 1 <= field_depth(sers, s, sers[s].fields@[j])
            <= ser_depth(sers, s),
    decreases j,
{
    if j == 0 {
        lemma_depth_from_nonneg(sers, s, 0);
    } else {
        lemma_depth_from_le(sers, s, j - 1);
        lemma_depth_from_nonneg(sers, s, j);
    }
    if 0 <= j < sers[s].fields@.len() {
        match sers[s].fields@[j].model {
            FieldModel::Vector(ns) => {
                if 0 <= ns < s {
                    lemma_depth_from_nonneg(sers, ns as int, 0);
                }
            },
            FieldModel::Pointer(ns) => {
                if 0 <= ns < s {
                    lemma_depth_from_nonneg(sers, ns as int, 0);
                }
            },
            _ => {},
        }
        lemma_depth_from_nonneg(sers, s, j + 1);
    }
}

pub proof fn lemma_depth_from_nonneg(sers: Seq<Serializer>, s: int, j: int)
    ensures
        0 <= ser_depth_from(sers, s, j),
    decreases sers[s].fields@.len() - j,
{
    if 0 <= s < sers.len() && 0 <= j < sers[s].fields@.len() {
        lemma_depth_from_nonneg(sers, s, j + 1);
    }
}

} // verus!
