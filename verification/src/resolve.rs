//! The four resolution operations: path to name, path to type, path to
//! decode rule, and name to path, with the name-to-path cache.

use vstd::prelude::*;

use crate::decoder::FieldDecoder;
use crate::error::SerializerError;
use crate::field::FieldModel;
use crate::fieldpath::FieldPath;
use crate::fieldtype::{FieldType, FieldTypeView};
use crate::schema::{
    cache_entry_ok, field_depth, field_wf, lemma_depth_from_le, ser_depth, ser_wf, CacheEntry,
    SchemaArena, Serializer,
};
use crate::text::{pad4, spec_parse_u16, append_pad4, parse_u16_range, prefix_dot_at, suffix_eq};

verus! {

/// Whether `path[i ..= last]` is a walk the schema graph admits from
/// schema `s`: every slot indexes a field, arrays carry exactly one
/// element index, and a walk into a nested schema consumes the slots its
/// model prescribes before ending on a field.
pub open spec fn valid_from(
    sers: Seq<Serializer>,
    s: int,
    path: Seq<u16>,
    last: int,
    i: int,
) -> bool
    decreases s,
{
    &&& 0 <= s < sers.len()
    &&& 0 <= i <= last
    &&& last < path.len()
    &&& (path[i] as int) < sers[s].fields@.len()
    &&& match sers[s].fields@[path[i] as int].model {
        FieldModel::Value => i == last,
        FieldModel::Array => i + 1 == last,
        FieldModel::ArrayVector(_) => i + 1 == last,
        FieldModel::Vector(ns) => i == last || (i + 2 <= last && 0 <= ns < s && valid_from(
            sers,
            ns as int,
            path,
            last,
            i + 2,
        )),
        FieldModel::Pointer(ns) => i == last || (i + 1 <= last && 0 <= ns < s && valid_from(
            sers,
            ns as int,
            path,
            last,
            i + 1,
        )),
    }
}

/// Whether `path[i ..= last]` addresses a field or an element for type
/// and decode-rule resolution.  This admits more than `valid_from` does:
/// a path may also end at an array field itself — addressing the array
/// as a whole rather than one element — or at a collection's element
/// index; both walks then answer with the current field's own type and
/// decode rule instead of descending.  Name rendering cannot accept
/// these endings, since it would have to read an element index beyond
/// `last`.
pub open spec fn type_valid_from(
    sers: Seq<Serializer>,
    s: int,
    path: Seq<u16>,
    last: int,
    i: int,
) -> bool
    decreases s,
{
    &&& 0 <= s < sers.len()
    &&& 0 <= i <= last
    &&& last < path.len()
    &&& (path[i] as int) < sers[s].fields@.len()
    &&& match sers[s].fields@[path[i] as int].model {
        FieldModel::Value => i == last,
        FieldModel::Array => i == last || i + 1 == last,
        FieldModel::ArrayVector(_) => i == last || i + 1 == last,
        FieldModel::Vector(ns) => i == last || i + 1 == last || (i + 2 <= last && 0 <= ns < s
            && type_valid_from(sers, ns as int, path, last, i + 2)),
        FieldModel::Pointer(ns) => i == last || (i + 1 <= last && 0 <= ns < s && type_valid_from(
            sers,
            ns as int,
            path,
            last,
            i + 1,
        )),
    }
}

/// The dotted name that the walk `path[i ..= last]` renders to from
/// schema `s`: each field's name, arrays and collection elements with a
/// four-digit index, nested schemas after a dot.
pub open spec fn name_from(sers: Seq<Serializer>, s: int, path: Seq<u16>, last: int, i: int) -> Seq<
    char,
>
    decreases s,
{
    if !(0 <= s < sers.len()) {
        Seq::empty()
    } else {
        let f = sers[s].fields@[path[i] as int];
        f.var_name@ + match f.model {
            FieldModel::Value => Seq::<char>::empty(),
            FieldModel::Array => "."@ + pad4(path[i + 1]),
            FieldModel::ArrayVector(_) => "."@ + pad4(path[i + 1]),
            FieldModel::Vector(ns) => if i + 1 > last {
                Seq::<char>::empty()
            } else {
                "."@ + pad4(path[i + 1]) + "."@ + (if 0 <= ns < s {
                    name_from(sers, ns as int, path, last, i + 2)
                } else {
                    Seq::<char>::empty()
                })
            },
            FieldModel::Pointer(ns) => if i + 1 > last {
                Seq::<char>::empty()
            } else {
                "."@ + (if 0 <= ns < s {
                    name_from(sers, ns as int, path, last, i + 1)
                } else {
                    Seq::<char>::empty()
                })
            },
        }
    }
}

/// The type that the walk resolves to.  An array with a distinct element
/// rule answers with its element type exactly when the walk ends on the
/// element index; a collection or embedded struct whose walk ends early
/// answers with its own type.
pub open spec fn type_at(
    sers: Seq<Serializer>,
    s: int,
    path: Seq<u16>,
    last: int,
    i: int,
) -> FieldTypeView
    decreases s,
{
    if !(0 <= s < sers.len()) {
        FieldTypeView { base: Seq::empty(), generic: Seq::empty(), pointer: false, count: None }
    } else {
        let f = sers[s].fields@[path[i] as int];
        match f.model {
            FieldModel::Value => f.field_type@,
            FieldModel::Array => f.field_type@,
            FieldModel::ArrayVector(_) => if i + 1 == last {
                f.field_type@.generic[0]
            } else {
                f.field_type@
            },
            FieldModel::Vector(ns) => if i + 1 >= last {
                f.field_type@
            } else if 0 <= ns < s {
                type_at(sers, ns as int, path, last, i + 2)
            } else {
                f.field_type@
            },
            FieldModel::Pointer(ns) => if i + 1 > last {
                f.field_type@
            } else if 0 <= ns < s {
                type_at(sers, ns as int, path, last, i + 1)
            } else {
                f.field_type@
            },
        }
    }
}

/// The decode rule that the walk resolves to, under the same walk-ending
/// rules as `type_at`.
pub open spec fn decoder_at(
    sers: Seq<Serializer>,
    s: int,
    path: Seq<u16>,
    last: int,
    i: int,
) -> FieldDecoder
    decreases s,
{
    if !(0 <= s < sers.len()) {
        FieldDecoder::Boolean
    } else {
        let f = sers[s].fields@[path[i] as int];
        match f.model {
            FieldModel::Value => f.decoder,
            FieldModel::Array => f.decoder,
            FieldModel::ArrayVector(d) => if i + 1 == last {
                d
            } else {
                f.decoder
            },
            FieldModel::Vector(ns) => if i + 1 >= last {
                f.decoder
            } else if 0 <= ns < s {
                decoder_at(sers, ns as int, path, last, i + 2)
            } else {
                f.decoder
            },
            FieldModel::Pointer(ns) => if i + 1 > last {
                f.decoder
            } else if 0 <= ns < s {
                decoder_at(sers, ns as int, path, last, i + 1)
            } else {
                f.decoder
            },
        }
    }
}

/// The path that scanning the fields of schema `s` from position `j`
/// assigns to a dotted name: the first field whose name matches the whole
/// remainder ends the walk; the first whose name is followed by a dot
/// commits the walk to its model, and no later field is tried.
pub open spec fn resolve_at(sers: Seq<Serializer>, s: int, name: Seq<char>, j: int) -> Option<
    Seq<u16>,
>
    decreases s, sers[s].fields@.len() - j,
{
    if !(0 <= s < sers.len()) || !(0 <= j) || j >= sers[s].fields@.len() {
        None
    } else {
        let fname = sers[s].fields@[j].var_name@;
        if name == fname {
            Some(seq![j as u16])
        } else if name.len() > fname.len() && name.take(fname.len() as int) == fname && name[
            fname.len() as int
        ] == '.' {
            let rest = name.skip(fname.len() as int + 1);
            match sers[s].fields@[j].model {
                FieldModel::Value => None,
                FieldModel::Array => match spec_parse_u16(rest) {
                    Some(k) => Some(seq![j as u16, k]),
                    None => None,
                },
                FieldModel::ArrayVector(_) => match spec_parse_u16(rest) {
                    Some(k) => Some(seq![j as u16, k]),
                    None => None,
                },
                FieldModel::Vector(ns) => if rest.len() >= 4 && spec_parse_u16(rest.take(4))
                    is Some && rest.len() >= 5 && 0 <= ns < s {
                    match resolve_at(sers, ns as int, rest.skip(5), 0) {
                        Some(tail) => Some(
                            seq![j as u16, spec_parse_u16(rest.take(4))->Some_0] + tail,
                        ),
                        None => None,
                    }
                } else {
                    None
                },
                FieldModel::Pointer(ns) => if 0 <= ns < s {
                    match resolve_at(sers, ns as int, rest, 0) {
                        Some(tail) => Some(seq![j as u16] + tail),
                        None => None,
                    }
                } else {
                    None
                },
            }
        } else {
            resolve_at(sers, s, name, j + 1)
        }
    }
}

/// The path a dotted name resolves to under schema `s`, if any field
/// chain matches it.
pub open spec fn spec_resolve(sers: Seq<Serializer>, s: int, name: Seq<char>) -> Option<Seq<u16>> {
    resolve_at(sers, s, name, 0)
}

/// How one schema's field scan continues a name walk.
enum ScanStep {
    /// A field's whole name matched the remainder: the walk ends on it.
    Terminal(usize),
    /// An array field matched and the remainder parsed as its element
    /// index: the walk ends on the element.
    ArrayIndex(usize, u16),
    /// A collection field matched: the walk continues in its element
    /// schema, past the four-digit element index and its separators.
    DescendVector(usize, u16, usize, usize),
    /// An embedded struct matched: the walk continues in its schema.
    DescendPointer(usize, usize, usize),
    /// No field matched, or the committed continuation cannot be read:
    /// the name resolves to nothing.
    NoMatch,
}

/// What each scan outcome certifies about uncached resolution.
spec fn scan_step_ok(
    sers: Seq<Serializer>,
    cs: int,
    name: Seq<char>,
    offset: int,
    r: ScanStep,
) -> bool {
    let sfx = name.skip(offset);
    match r {
        ScanStep::Terminal(j) => resolve_at(sers, cs, sfx, 0) == Some(seq![j as u16]) && (
        j as int) < sers[cs].fields@.len(),
        ScanStep::ArrayIndex(j, k) => {
            &&& resolve_at(sers, cs, sfx, 0) == Some(seq![j as u16, k])
            &&& (j as int) < sers[cs].fields@.len()
            &&& (sers[cs].fields@[j as int].model matches FieldModel::Array || sers[
                cs
            ].fields@[j as int].model matches FieldModel::ArrayVector(_))
        },
        ScanStep::DescendVector(j, k, ns, off2) => {
            &&& (j as int) < sers[cs].fields@.len()
            &&& sers[cs].fields@[j as int].model == FieldModel::Vector(ns)
            &&& ns < cs
            &&& offset < off2 <= name.len()
            &&& resolve_at(sers, cs, sfx, 0) == (match resolve_at(
                sers,
                ns as int,
                name.skip(off2 as int),
                0,
            ) {
                Some(tail) => Some(seq![j as u16, k] + tail),
                None => None::<Seq<u16>>,
            })
        },
        ScanStep::DescendPointer(j, ns, off2) => {
            &&& (j as int) < sers[cs].fields@.len()
            &&& sers[cs].fields@[j as int].model == FieldModel::Pointer(ns)
            &&& ns < cs
            &&& offset < off2 <= name.len()
            &&& resolve_at(sers, cs, sfx, 0) == (match resolve_at(
                sers,
                ns as int,
                name.skip(off2 as int),
                0,
            ) {
                Some(tail) => Some(seq![j as u16] + tail),
                None => None::<Seq<u16>>,
            })
        },
        ScanStep::NoMatch => resolve_at(sers, cs, sfx, 0) is None,
    }
}

impl SchemaArena {
    /// Decide at run time whether a path is a walk the name operation
    /// admits, so that a path from an untrusted or corrupted source can
    /// be surfaced as a failure instead of being walked.
    pub fn check_field_path(&self, ser: usize, fp: &FieldPath) -> (r: bool)
        ensures
            r == valid_from(self.sers_view(), ser as int, fp.path@, fp.last as int, 0),
    {
        let ghost sers = self.sers_view();
        if fp.last >= 7 {
            return false;
        }
        let mut cs: usize = ser;
        let mut i: usize = 0;
        loop
            invariant
                sers == self.sers_view(),
                i <= fp.last < 7,
                valid_from(sers, ser as int, fp.path@, fp.last as int, 0) == valid_from(
                    sers,
                    cs as int,
                    fp.path@,
                    fp.last as int,
                    i as int,
                ),
            decreases cs,
        {
            if cs >= self.sers.len() {
                return false;
            }
            let idx = fp.path[i] as usize;
            if idx >= self.sers[cs].fields.len() {
                return false;
            }
            match &self.sers[cs].fields[idx].model {
                FieldModel::Value => {
                    return i == fp.last;
                },
                FieldModel::Array => {
                    return i + 1 == fp.last;
                },
                FieldModel::ArrayVector(_) => {
                    return i + 1 == fp.last;
                },
                FieldModel::Vector(ns) => {
                    if i == fp.last {
                        return true;
                    }
                    if !(i + 2 <= fp.last && *ns < cs) {
                        return false;
                    }
                    cs = *ns;
                    i = i + 2;
                },
                FieldModel::Pointer(ns) => {
                    if i == fp.last {
                        return true;
                    }
                    if *ns >= cs {
                        return false;
                    }
                    cs = *ns;
                    i = i + 1;
                },
            }
        }
    }

    /// Decide at run time whether a path is a walk the type and
    /// decode-rule operations admit; this also accepts a path ending at
    /// an array field itself or at a collection's element index.
    pub fn check_field_path_for_type(&self, ser: usize, fp: &FieldPath) -> (r: bool)
        ensures
            r == type_valid_from(self.sers_view(), ser as int, fp.path@, fp.last as int, 0),
    {
        let ghost sers = self.sers_view();
        if fp.last >= 7 {
            return false;
        }
        let mut cs: usize = ser;
        let mut i: usize = 0;
        loop
            invariant
                sers == self.sers_view(),
                i <= fp.last < 7,
                type_valid_from(sers, ser as int, fp.path@, fp.last as int, 0) == type_valid_from(
                    sers,
                    cs as int,
                    fp.path@,
                    fp.last as int,
                    i as int,
                ),
            decreases cs,
        {
            if cs >= self.sers.len() {
                return false;
            }
            let idx = fp.path[i] as usize;
            if idx >= self.sers[cs].fields.len() {
                return false;
            }
            match &self.sers[cs].fields[idx].model {
                FieldModel::Value => {
                    return i == fp.last;
                },
                FieldModel::Array => {
                    return i == fp.last || i + 1 == fp.last;
                },
                FieldModel::ArrayVector(_) => {
                    return i == fp.last || i + 1 == fp.last;
                },
                FieldModel::Vector(ns) => {
                    if i == fp.last || i + 1 == fp.last {
                        return true;
                    }
                    if *ns >= cs {
                        return false;
                    }
                    cs = *ns;
                    i = i + 2;
                },
                FieldModel::Pointer(ns) => {
                    if i == fp.last {
                        return true;
                    }
                    if *ns >= cs {
                        return false;
                    }
                    cs = *ns;
                    i = i + 1;
                },
            }
        }
    }

    /// Reconstruct the dotted property name that a path addresses.
    pub fn get_name_for_field_path(&self, ser: usize, fp: &FieldPath) -> (r: String)
        requires
            self.inv(),
            valid_from(self.sers_view(), ser as int, fp.path@, fp.last as int, 0),
        ensures
            r@ == name_from(self.sers_view(), ser as int, fp.path@, fp.last as int, 0),
    {
        let ghost sers = self.sers_view();
        let ghost whole = name_from(sers, ser as int, fp.path@, fp.last as int, 0);
        let mut name = String::new();
        let mut cs: usize = ser;
        let mut i: usize = 0;
        loop
            invariant
                self.inv(),
                sers == self.sers_view(),
                whole == name_from(sers, ser as int, fp.path@, fp.last as int, 0),
                ser < sers.len(),
                i <= fp.last < 7,
                valid_from(sers, cs as int, fp.path@, fp.last as int, i as int),
                name@ + name_from(sers, cs as int, fp.path@, fp.last as int, i as int) == whole,
            decreases cs,
        {
            let ghost name0 = name@;
            let ghost i0 = i as int;
            let ghost cs0 = cs as int;
            let ghost tail = name_from(sers, cs0, fp.path@, fp.last as int, i0);
            let idx = fp.path[i] as usize;
            let f = &self.sers[cs].fields[idx];
            name.append(f.var_name.as_str());
            i = i + 1;
            match &f.model {
                FieldModel::Value => {
                    proof {
                        assert(name@ =~= name0 + tail);
                    }
                    return name;
                },
                FieldModel::Array => {
                    name.append(".");
                    append_pad4(&mut name, fp.path[i]);
                    proof {
                        assert(name@ =~= name0 + tail);
                    }
                    return name;
                },
                FieldModel::ArrayVector(_) => {
                    name.append(".");
                    append_pad4(&mut name, fp.path[i]);
                    proof {
                        assert(name@ =~= name0 + tail);
                    }
                    return name;
                },
                FieldModel::Vector(ns) => {
                    if i > fp.last {
                        proof {
                            assert(name@ =~= name0 + tail);
                        }
                        return name;
                    }
                    name.append(".");
                    append_pad4(&mut name, fp.path[i]);
                    name.append(".");
                    i = i + 1;
                    cs = *ns;
                    proof {
                        assert(name@ + name_from(sers, cs as int, fp.path@, fp.last as int, i as int)
                            =~= name0 + tail);
                    }
                },
                FieldModel::Pointer(ns) => {
                    if i > fp.last {
                        proof {
                            assert(name@ =~= name0 + tail);
                        }
                        return name;
                    }
                    name.append(".");
                    cs = *ns;
                    proof {
                        assert(name@ + name_from(sers, cs as int, fp.path@, fp.last as int, i as int)
                            =~= name0 + tail);
                    }
                },
            }
        }
    }

    /// Scan the fields of one schema for the first that matches the
    /// remainder of a dotted name, and say how the walk continues.
    fn scan_fields(&self, cs: usize, name: &str, offset: usize) -> (r: ScanStep)
        requires
            self.inv(),
            cs < self.sers_view().len(),
            offset <= name@.len(),
        ensures
            scan_step_ok(self.sers_view(), cs as int, name@, offset as int, r),
    {
        let ghost sers = self.sers_view();
        let ghost sfx = name@.skip(offset as int);
        let nlen = name.unicode_len();
        let fields_len = self.sers[cs].fields.len();
        let mut j: usize = 0;
        while j < fields_len
            invariant
                self.inv(),
                sers == self.sers_view(),
                sfx == name@.skip(offset as int),
                cs < sers.len(),
                offset <= name@.len(),
                nlen == name@.len(),
                fields_len == sers[cs as int].fields@.len(),
                j <= fields_len,
                resolve_at(sers, cs as int, sfx, j as int) == resolve_at(sers, cs as int, sfx, 0),
            decreases fields_len - j,
        {
            let f = &self.sers[cs].fields[j];
            let fname = f.var_name.as_str();
            let flen = fname.unicode_len();
            proof {
                assert(ser_wf(sers, cs as int));
                assert(field_wf(sers, cs as int, sers[cs as int].fields@[j as int]));
                if offset + flen + 1 <= name@.len() {
                    assert(sfx.take(flen as int) =~= name@.subrange(offset as int, offset + flen));
                }
            }
            if suffix_eq(name, offset, fname) {
                return ScanStep::Terminal(j);
            }
            if prefix_dot_at(name, offset, fname) {
                let a = offset + flen + 1;
                let ghost rest = sfx.skip(flen + 1);
                proof {
                    assert(rest =~= name@.skip(a as int));
                }
                match &f.model {
                    FieldModel::Value => {
                        return ScanStep::NoMatch;
                    },
                    FieldModel::Array => {
                        match parse_u16_range(name, a, nlen) {
                            Some(k) => {
                                proof {
                                    assert(name@.subrange(a as int, nlen as int) =~= rest);
                                }
                                return ScanStep::ArrayIndex(j, k);
                            },
                            None => {
                                proof {
                                    assert(name@.subrange(a as int, nlen as int) =~= rest);
                                }
                                return ScanStep::NoMatch;
                            },
                        }
                    },
                    FieldModel::ArrayVector(_) => {
                        match parse_u16_range(name, a, nlen) {
                            Some(k) => {
                                proof {
                                    assert(name@.subrange(a as int, nlen as int) =~= rest);
                                }
                                return ScanStep::ArrayIndex(j, k);
                            },
                            None => {
                                proof {
                                    assert(name@.subrange(a as int, nlen as int) =~= rest);
                                }
                                return ScanStep::NoMatch;
                            },
                        }
                    },
                    FieldModel::Vector(ns) => {
                        if nlen - a < 4 {
                            return ScanStep::NoMatch;
                        }
                        match parse_u16_range(name, a, a + 4) {
                            Some(k) => {
                                proof {
                                    assert(name@.subrange(a as int, a + 4) =~= rest.take(4));
                                }
                                if nlen - a < 5 {
                                    return ScanStep::NoMatch;
                                }
                                proof {
                                    assert(rest.skip(5) =~= name@.skip(a + 5));
                                }
                                return ScanStep::DescendVector(j, k, *ns, a + 5);
                            },
                            None => {
                                proof {
                                    assert(name@.subrange(a as int, a + 4) =~= rest.take(4));
                                }
                                return ScanStep::NoMatch;
                            },
                        }
                    },
                    FieldModel::Pointer(ns) => {
                        proof {
                            assert(rest =~= name@.skip(a as int));
                        }
                        return ScanStep::DescendPointer(j, *ns, a);
                    },
                }
            }
            j = j + 1;
        }
        ScanStep::NoMatch
    }

    /// Resolve the path that a dotted property name addresses, scanning
    /// the schema graph; the cache is neither consulted nor changed.
    pub fn resolve_field_path_for_name(&self, ser: usize, name: &str) -> (r: Result<
        FieldPath,
        SerializerError,
    >)
        requires
            self.inv(),
            ser < self.sers_view().len(),
        ensures
            match r {
                Ok(fp) => fp.wf() && spec_resolve(self.sers_view(), ser as int, name@) == Some(
                    fp@,
                ),
                Err(e) => spec_resolve(self.sers_view(), ser as int, name@) is None && (e matches
                    SerializerError::NoFieldPath(n) && n@ == name@),
            },
    {
        let ghost sers = self.sers_view();
        let ghost goal = spec_resolve(sers, ser as int, name@);
        let mut fp = FieldPath::default();
        let mut cs: usize = ser;
        let mut offset: usize = 0;
        proof {
            assert(ser_wf(sers, ser as int));
            assert(name@.skip(0) =~= name@);
            assert(fp.path@.take(0) =~= Seq::<u16>::empty());
            match resolve_at(sers, ser as int, name@, 0) {
                Some(t) => {
                    assert(Seq::<u16>::empty() + t =~= t);
                },
                None => {},
            }
        }
        loop
            invariant
                self.inv(),
                sers == self.sers_view(),
                goal == spec_resolve(sers, ser as int, name@),
                cs < sers.len(),
                offset <= name@.len(),
                fp.last as int + ser_depth(sers, cs as int) <= 7,
                match resolve_at(sers, cs as int, name@.skip(offset as int), 0) {
                    Some(t) => goal == Some(fp.path@.take(fp.last as int) + t),
                    None => goal is None,
                },
            decreases cs,
        {
            let ghost built = fp.path@.take(fp.last as int);
            match self.scan_fields(cs, name, offset) {
                ScanStep::Terminal(j) => {
                    proof {
                        assert(ser_wf(sers, cs as int));
                        lemma_depth_from_le(sers, cs as int, j as int);
                        assert(fp.last < 7);
                    }
                    fp.path[fp.last] = j as u16;
                    proof {
                        assert(fp.path@.take(fp.last as int + 1) =~= built + seq![j as u16]);
                    }
                    return Ok(fp);
                },
                ScanStep::ArrayIndex(j, k) => {
                    proof {
                        assert(ser_wf(sers, cs as int));
                        lemma_depth_from_le(sers, cs as int, j as int);
                        assert(field_depth(sers, cs as int, sers[cs as int].fields@[j as int])
                            == 2);
                        assert(fp.last + 1 < 7);
                    }
                    fp.path[fp.last] = j as u16;
                    fp.path[fp.last + 1] = k;
                    fp.last = fp.last + 1;
                    proof {
                        assert(fp.path@.take(fp.last as int + 1) =~= built + seq![j as u16, k]);
                    }
                    return Ok(fp);
                },
                ScanStep::DescendVector(j, k, ns, off2) => {
                    proof {
                        assert(ser_wf(sers, cs as int));
                        lemma_depth_from_le(sers, cs as int, j as int);
                        crate::schema::lemma_depth_from_nonneg(sers, ns as int, 0);
                        assert(field_depth(sers, cs as int, sers[cs as int].fields@[j as int])
                            == 2 + ser_depth(sers, ns as int));
                        assert(fp.last + 1 < 7);
                    }
                    fp.path[fp.last] = j as u16;
                    fp.path[fp.last + 1] = k;
                    fp.last = fp.last + 2;
                    cs = ns;
                    offset = off2;
                    proof {
                        assert(fp.path@.take(fp.last as int) =~= built + seq![j as u16, k]);
                        match resolve_at(sers, cs as int, name@.skip(offset as int), 0) {
                            Some(tail) => {
                                assert((built + seq![j as u16, k]) + tail =~= built + (seq![
                                    j as u16,
                                    k,
                                ] + tail));
                            },
                            None => {},
                        }
                    }
                },
                ScanStep::DescendPointer(j, ns, off2) => {
                    proof {
                        assert(ser_wf(sers, cs as int));
                        lemma_depth_from_le(sers, cs as int, j as int);
                        crate::schema::lemma_depth_from_nonneg(sers, ns as int, 0);
                        assert(field_depth(sers, cs as int, sers[cs as int].fields@[j as int])
                            == 1 + ser_depth(sers, ns as int));
                        assert(fp.last < 7);
                    }
                    fp.path[fp.last] = j as u16;
                    fp.last = fp.last + 1;
                    cs = ns;
                    offset = off2;
                    proof {
                        assert(fp.path@.take(fp.last as int) =~= built + seq![j as u16]);
                        match resolve_at(sers, cs as int, name@.skip(offset as int), 0) {
                            Some(tail) => {
                                assert((built + seq![j as u16]) + tail =~= built + (seq![j as u16]
                                    + tail));
                            },
                            None => {},
                        }
                    }
                },
                ScanStep::NoMatch => {
                    return Err(SerializerError::NoFieldPath(name.to_owned()));
                },
            }
        }
    }

    /// Resolve the path that a dotted property name addresses, consulting
    /// the cache first and remembering the answer.  The cache never
    /// changes what is returned: cached and uncached resolution agree on
    /// every input, and the loaded schemas stay as they were.  The cache
    /// is the one thing that may change: a resolved pair is remembered
    /// under the queried name, a failure leaves the cache as it was, and
    /// no remembered entry is ever dropped or rewritten.
    pub fn get_field_path_for_name(&mut self, ser: usize, name: &str) -> (r: Result<
        FieldPath,
        SerializerError,
    >)
        requires
            old(self).inv(),
            ser < old(self).sers_view().len(),
        ensures
            final(self).inv(),
            final(self).sers_view() == old(self).sers_view(),
            final(self).cache_extends(*old(self)),
            match r {
                Ok(fp) => fp.wf() && spec_resolve(old(self).sers_view(), ser as int, name@)
                    == Some(fp@) && final(self).cache_has(ser as int, name@, fp@),
                Err(e) => spec_resolve(old(self).sers_view(), ser as int, name@) is None && (e
                    matches SerializerError::NoFieldPath(n) && n@ == name@)
                    && final(self).cache_same(*old(self)),
            },
    {
        let mut k: usize = 0;
        while k < self.cache.len()
            invariant
                self.inv(),
                self.sers@ == old(self).sers@,
                self.cache@ == old(self).cache@,
                k <= self.cache@.len(),
            decreases self.cache@.len() - k,
        {
            if self.cache[k].ser == ser && crate::text::str_eq(self.cache[k].name.as_str(), name) {
                let fp = self.cache[k].fp;
                proof {
                    assert(cache_entry_ok(self.sers@, self.cache@[k as int]));
                    assert(self.cache@[k as int].ser == ser && self.cache@[k as int].name@
                        == name@ && self.cache@[k as int].fp@ == fp@);
                    assert(self.cache_has(ser as int, name@, fp@));
                }
                return Ok(fp);
            }
            k = k + 1;
        }
        match self.resolve_field_path_for_name(ser, name) {
            Ok(fp) => {
                let entry = CacheEntry { ser, name: name.to_owned(), fp };
                let ghost gentry = entry;
                self.cache.push(entry);
                proof {
                    assert forall|i: int| 0 <= i < self.cache@.len() implies cache_entry_ok(
                        self.sers@,
                        #[trigger] self.cache@[i],
                    ) by {
                        if i < old(self).cache@.len() {
                            assert(self.cache@[i] == old(self).cache@[i]);
                        } else {
                            assert(self.cache@[i] == gentry);
                        }
                    }
                    assert(self.cache@[old(self).cache@.len() as int] == gentry);
                    assert(self.cache_has(ser as int, name@, fp@));
                }
                Ok(fp)
            },
            Err(e) => Err(e),
        }
    }

    /// Resolve the storage type that a path addresses.
    pub fn get_type_for_field_path(&self, ser: usize, fp: &FieldPath) -> (r: &FieldType)
        requires
            self.inv(),
            type_valid_from(self.sers_view(), ser as int, fp.path@, fp.last as int, 0),
        ensures
            r@ == type_at(self.sers_view(), ser as int, fp.path@, fp.last as int, 0),
    {
        let ghost sers = self.sers_view();
        let ghost whole = type_at(sers, ser as int, fp.path@, fp.last as int, 0);
        let mut cs: usize = ser;
        let mut i: usize = 0;
        loop
            invariant
                self.inv(),
                sers == self.sers_view(),
                whole == type_at(sers, ser as int, fp.path@, fp.last as int, 0),
                i <= fp.last < 7,
                type_valid_from(sers, cs as int, fp.path@, fp.last as int, i as int),
                type_at(sers, cs as int, fp.path@, fp.last as int, i as int) == whole,
            decreases cs,
        {
            let ghost cs0 = cs as int;
            let idx = fp.path[i] as usize;
            let f = &self.sers[cs].fields[idx];
            proof {
                assert(crate::schema::ser_wf(sers, cs0));
                assert(crate::schema::field_wf(sers, cs0, sers[cs0].fields@[idx as int]));
            }
            i = i + 1;
            match &f.model {
                FieldModel::Value => {
                    return &f.field_type;
                },
                FieldModel::Array => {
                    return &f.field_type;
                },
                FieldModel::ArrayVector(_) => {
                    if i == fp.last {
                        match &f.field_type.generic {
                            Some(b) => {
                                return &**b;
                            },
                            None => {
                                return vstd::pervasive::unreached();
                            },
                        }
                    }
                    return &f.field_type;
                },
                FieldModel::Vector(ns) => {
                    if i >= fp.last {
                        return &f.field_type;
                    }
                    i = i + 1;
                    cs = *ns;
                },
                FieldModel::Pointer(ns) => {
                    if i > fp.last {
                        return &f.field_type;
                    }
                    cs = *ns;
                },
            }
        }
    }

    /// Resolve the decode rule that a path addresses.
    pub fn get_decoder_for_field_path(&self, ser: usize, fp: &FieldPath) -> (r: &FieldDecoder)
        requires
            self.inv(),
            type_valid_from(self.sers_view(), ser as int, fp.path@, fp.last as int, 0),
        ensures
            *r == decoder_at(self.sers_view(), ser as int, fp.path@, fp.last as int, 0),
    {
        let ghost sers = self.sers_view();
        let ghost whole = decoder_at(sers, ser as int, fp.path@, fp.last as int, 0);
        let mut cs: usize = ser;
        let mut i: usize = 0;
        loop
            invariant
                self.inv(),
                sers == self.sers_view(),
                whole == decoder_at(sers, ser as int, fp.path@, fp.last as int, 0),
                i <= fp.last < 7,
                type_valid_from(sers, cs as int, fp.path@, fp.last as int, i as int),
                decoder_at(sers, cs as int, fp.path@, fp.last as int, i as int) == whole,
            decreases cs,
        {
            let idx = fp.path[i] as usize;
            let f = &self.sers[cs].fields[idx];
            i = i + 1;
            match &f.model {
                FieldModel::Value => {
                    return &f.decoder;
                },
                FieldModel::Array => {
                    return &f.decoder;
                },
                FieldModel::ArrayVector(d) => {
                    if i == fp.last {
                        return d;
                    }
                    return &f.decoder;
                },
                FieldModel::Vector(ns) => {
                    if i >= fp.last {
                        return &f.decoder;
                    }
                    i = i + 1;
                    cs = *ns;
                },
                FieldModel::Pointer(ns) => {
                    if i > fp.last {
                        return &f.decoder;
                    }
                    cs = *ns;
                },
            }
        }
    }
}

} // verus!
