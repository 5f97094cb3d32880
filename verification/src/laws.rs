//! The laws the resolution engine obeys, stated and proved once for every
//! well-formed schema arena.

use vstd::prelude::*;

use crate::decoder::FieldDecoder;
use crate::field::FieldModel;
use crate::fieldtype::FieldTypeView;
use crate::enumerate::{child_node, enum_elems, enum_field, enum_ser, node_len};
use crate::resolve::{decoder_at, name_from, resolve_at, spec_resolve, type_at, type_valid_from, valid_from};
use crate::schema::{field_wf, name_ok, ser_wf, wf_sers, Serializer};
use crate::state::{state_bounded, FieldState};
use crate::text::{lemma_parse_pad4, pad4, spec_parse_u16};

verus! {

/// Whether every collection-element slot of the walk stays below the
/// four-digit width, so that its rendering keeps the fixed width that
/// name resolution reads back.
pub open spec fn vec_slots_small(
    sers: Seq<Serializer>,
    s: int,
    path: Seq<u16>,
    last: int,
    i: int,
) -> bool
    decreases s,
{
    if !(0 <= s < sers.len()) {
        true
    } else {
        match sers[s].fields@[path[i] as int].model {
            FieldModel::Vector(ns) => i == last || (path[i + 1] < 10000 && (0 <= ns < s
                ==> vec_slots_small(sers, ns as int, path, last, i + 2))),
            FieldModel::Pointer(ns) => i == last || (0 <= ns < s ==> vec_slots_small(
                sers,
                ns as int,
                path,
                last,
                i + 1,
            )),
            _ => true,
        }
    }
}

/// The rendered name of a valid walk starts with the first field's name,
/// and what follows, if anything, starts with a dot.
proof fn lemma_name_shape(sers: Seq<Serializer>, s: int, path: Seq<u16>, last: int, i: int)
    requires
        wf_sers(sers),
        valid_from(sers, s, path, last, i),
    ensures
        ({
            let fname = sers[s].fields@[path[i] as int].var_name@;
            let r = name_from(sers, s, path, last, i);
            &&& r.len() >= fname.len()
            &&& r.take(fname.len() as int) == fname
            &&& (r.len() > fname.len() ==> r[fname.len() as int] == '.')
        }),
{
    reveal_strlit(".");
    let f = sers[s].fields@[path[i] as int];
    let fname = f.var_name@;
    let r = name_from(sers, s, path, last, i);
    match f.model {
        FieldModel::Value => {
            assert(r =~= fname);
            assert(r.take(fname.len() as int) =~= fname);
        },
        FieldModel::Array => {
            assert(r.take(fname.len() as int) =~= fname);
        },
        FieldModel::ArrayVector(_) => {
            assert(r.take(fname.len() as int) =~= fname);
        },
        FieldModel::Vector(_) => {
            if i == last {
                assert(r =~= fname);
            }
            assert(r.take(fname.len() as int) =~= fname);
        },
        FieldModel::Pointer(_) => {
            if i == last {
                assert(r =~= fname);
            }
            assert(r.take(fname.len() as int) =~= fname);
        },
    }
}

/// A field standing before the walk's first field matches its rendered
/// name neither whole nor as a dotted prefix.
proof fn lemma_scan_no_match(sers: Seq<Serializer>, s: int, path: Seq<u16>, last: int, i: int, j: int)
    requires
        wf_sers(sers),
        valid_from(sers, s, path, last, i),
        0 <= j < path[i] as int,
    ensures
        ({
            let r = name_from(sers, s, path, last, i);
            let fj = sers[s].fields@[j].var_name@;
            &&& r != fj
            &&& !(r.len() > fj.len() && r.take(fj.len() as int) == fj && r[fj.len() as int] == '.')
        }),
{
    let t = path[i] as int;
    assert(ser_wf(sers, s));
    assert(field_wf(sers, s, sers[s].fields@[j]));
    assert(field_wf(sers, s, sers[s].fields@[t]));
    lemma_name_shape(sers, s, path, last, i);
    let r = name_from(sers, s, path, last, i);
    let fj = sers[s].fields@[j].var_name@;
    let ft = sers[s].fields@[t].var_name@;
    assert(fj != ft);
    assert(name_ok(fj));
    assert(name_ok(ft));
    if r == fj {
        if r.len() == ft.len() {
            assert(r.take(ft.len() as int) =~= r);
            assert(false);
        } else {
            assert(r[ft.len() as int] == '.');
            assert(fj[ft.len() as int] == '.');
            assert(false);
        }
    }
    if r.len() > fj.len() && r.take(fj.len() as int) == fj && r[fj.len() as int] == '.' {
        if fj.len() < ft.len() {
            assert(ft[fj.len() as int] == r.take(ft.len() as int)[fj.len() as int]);
            assert(ft[fj.len() as int] == '.');
            assert(false);
        } else if fj.len() == ft.len() {
            assert(fj =~= ft);
            assert(false);
        } else {
            assert(fj[ft.len() as int] == r.take(fj.len() as int)[ft.len() as int]);
            assert(r[ft.len() as int] == '.');
            assert(fj[ft.len() as int] == '.');
            assert(false);
        }
    }
}

/// Scanning the rendered name of a valid walk from any position at or
/// before the walk's first field resolves to exactly the walk's slots.
proof fn lemma_scan(sers: Seq<Serializer>, s: int, path: Seq<u16>, last: int, i: int, j: int)
    requires
        wf_sers(sers),
        valid_from(sers, s, path, last, i),
        vec_slots_small(sers, s, path, last, i),
        0 <= j <= path[i] as int,
    ensures
        resolve_at(sers, s, name_from(sers, s, path, last, i), j) == Some(
            path.subrange(i, last + 1),
        ),
    decreases s, 1int, path[i] as int - j,
{
    if j < path[i] as int {
        lemma_scan_no_match(sers, s, path, last, i, j);
        lemma_scan(sers, s, path, last, i, j + 1);
        assert(ser_wf(sers, s));
    } else {
        lemma_scan_match(sers, s, path, last, i);
    }
}

/// The walk's own field matches the rendered name, and its model reads
/// the remainder back to exactly the walk's slots.
#[verifier::rlimit(60)]
proof fn lemma_scan_match(sers: Seq<Serializer>, s: int, path: Seq<u16>, last: int, i: int)
    requires
        wf_sers(sers),
        valid_from(sers, s, path, last, i),
        vec_slots_small(sers, s, path, last, i),
    ensures
        resolve_at(sers, s, name_from(sers, s, path, last, i), path[i] as int) == Some(
            path.subrange(i, last + 1),
        ),
    decreases s, 0int, 1int,
{
    reveal_strlit(".");
    let t = path[i] as int;
    let f = sers[s].fields@[t];
    let fname = f.var_name@;
    let r = name_from(sers, s, path, last, i);
    assert(ser_wf(sers, s));
    assert(field_wf(sers, s, f));
    assert(name_ok(fname));
    {
        match f.model {
            FieldModel::Value => {
                assert(r =~= fname);
                assert(path.subrange(i, last + 1) =~= seq![path[i]]);
            },
            FieldModel::Array => {
                lemma_parse_pad4(path[i + 1]);
                assert(r =~= fname + ("."@ + pad4(path[i + 1])));
                assert(r.len() > fname.len());
                assert(r.take(fname.len() as int) =~= fname);
                assert(r[fname.len() as int] == '.');
                let rest = r.skip(fname.len() as int + 1);
                assert(rest =~= pad4(path[i + 1]));
                assert(spec_parse_u16(rest) == Some(path[i + 1]));
                assert(path.subrange(i, last + 1) =~= seq![path[i], path[i + 1]]);
            },
            FieldModel::ArrayVector(_) => {
                lemma_parse_pad4(path[i + 1]);
                assert(r =~= fname + ("."@ + pad4(path[i + 1])));
                assert(r.len() > fname.len());
                assert(r.take(fname.len() as int) =~= fname);
                assert(r[fname.len() as int] == '.');
                let rest = r.skip(fname.len() as int + 1);
                assert(rest =~= pad4(path[i + 1]));
                assert(spec_parse_u16(rest) == Some(path[i + 1]));
                assert(path.subrange(i, last + 1) =~= seq![path[i], path[i + 1]]);
            },
            FieldModel::Vector(ns) => {
                if i == last {
                    assert(r =~= fname);
                    assert(path.subrange(i, last + 1) =~= seq![path[i]]);
                } else {
                    lemma_scan_match_vector(sers, s, path, last, i);
                }
            },
            FieldModel::Pointer(ns) => {
                if i == last {
                    assert(r =~= fname);
                    assert(path.subrange(i, last + 1) =~= seq![path[i]]);
                } else {
                    lemma_scan_match_pointer(sers, s, path, last, i);
                }
            },
        }
    }
}

/// The continuation case of `lemma_scan_match` for a collection field:
/// the remainder past the element index resolves in the element schema.
#[verifier::rlimit(60)]
proof fn lemma_scan_match_vector(sers: Seq<Serializer>, s: int, path: Seq<u16>, last: int, i: int)
    requires
        wf_sers(sers),
        valid_from(sers, s, path, last, i),
        vec_slots_small(sers, s, path, last, i),
        sers[s].fields@[path[i] as int].model matches FieldModel::Vector(_),
        i != last,
    ensures
        resolve_at(sers, s, name_from(sers, s, path, last, i), path[i] as int) == Some(
            path.subrange(i, last + 1),
        ),
    decreases s, 0int, 0int,
{
    reveal_strlit(".");
    let t = path[i] as int;
    let f = sers[s].fields@[t];
    let ns = f.model->Vector_0;
    let fname = f.var_name@;
    let r = name_from(sers, s, path, last, i);
    assert(ser_wf(sers, s));
    assert(field_wf(sers, s, f));
    assert(name_ok(fname));
    let k = path[i + 1];
    lemma_parse_pad4(k);
    assert(k < 10000);
    let nested = name_from(sers, ns as int, path, last, i + 2);
    assert(r =~= fname + ("."@ + pad4(k) + "."@ + nested));
    assert(valid_from(sers, ns as int, path, last, i + 2));
    assert(ser_wf(sers, ns as int));
    assert(field_wf(sers, ns as int, sers[ns as int].fields@[path[i + 2] as int]));
    assert(nested.len() >= 1);
    assert(r.len() > fname.len());
    assert(r.take(fname.len() as int) =~= fname);
    assert(r[fname.len() as int] == '.');
    let rest = r.skip(fname.len() as int + 1);
    assert(rest =~= pad4(k) + "."@ + nested);
    assert(rest.take(4) =~= pad4(k));
    assert(rest.len() >= 5);
    assert(rest.skip(5) =~= nested);
    lemma_scan(sers, ns as int, path, last, i + 2, 0);
    assert(seq![path[i], k] + path.subrange(i + 2, last + 1) =~= path.subrange(i, last + 1));
}

/// The continuation case of `lemma_scan_match` for an embedded struct:
/// the remainder past the dot resolves in the nested schema.
#[verifier::rlimit(60)]
proof fn lemma_scan_match_pointer(sers: Seq<Serializer>, s: int, path: Seq<u16>, last: int, i: int)
    requires
        wf_sers(sers),
        valid_from(sers, s, path, last, i),
        vec_slots_small(sers, s, path, last, i),
        sers[s].fields@[path[i] as int].model matches FieldModel::Pointer(_),
        i != last,
    ensures
        resolve_at(sers, s, name_from(sers, s, path, last, i), path[i] as int) == Some(
            path.subrange(i, last + 1),
        ),
    decreases s, 0int, 0int,
{
    reveal_strlit(".");
    let t = path[i] as int;
    let f = sers[s].fields@[t];
    let ns = f.model->Pointer_0;
    let fname = f.var_name@;
    let r = name_from(sers, s, path, last, i);
    assert(ser_wf(sers, s));
    assert(field_wf(sers, s, f));
    assert(name_ok(fname));
    let nested = name_from(sers, ns as int, path, last, i + 1);
    assert(r =~= fname + ("."@ + nested));
    assert(valid_from(sers, ns as int, path, last, i + 1));
    assert(r.len() > fname.len());
    assert(r.take(fname.len() as int) =~= fname);
    assert(r[fname.len() as int] == '.');
    let rest = r.skip(fname.len() as int + 1);
    assert(rest =~= nested);
    lemma_scan(sers, ns as int, path, last, i + 1, 0);
    assert(seq![path[i]] + path.subrange(i + 1, last + 1) =~= path.subrange(i, last + 1));
}

/// Name round trip: for every valid path of a well-formed schema arena
/// whose collection-element indices fit the four-digit width, resolving
/// the rendered name reproduces the path exactly — its occupied slots and
/// so its `last` — and every pair a schema produces satisfies both
/// directions at once.
pub proof fn lemma_name_path_round_trip(sers: Seq<Serializer>, s: int, path: Seq<u16>, last: int)
    requires
        wf_sers(sers),
        valid_from(sers, s, path, last, 0),
        vec_slots_small(sers, s, path, last, 0),
    ensures
        spec_resolve(sers, s, name_from(sers, s, path, last, 0)) == Some(
            path.subrange(0, last + 1),
        ),
{
    lemma_scan(sers, s, path, last, 0, 0);
}

/// Whether every populated count under a node stays below `b`.
pub open spec fn opt_bounded(node: Option<FieldState>, b: int) -> bool {
    match node {
        Some(n) => state_bounded(n, b),
        None => true,
    }
}

/// Each path a field contributes extends the prefix it was seeded with,
/// walks the schema graph validly, and keeps its collection indices
/// below the four-digit width.
proof fn lemma_enum_field_valid(
    sers: Seq<Serializer>,
    s: int,
    j: int,
    node: Option<FieldState>,
    prefixj: Seq<u16>,
    x: int,
)
    requires
        wf_sers(sers),
        0 <= s < sers.len(),
        0 <= j < sers[s].fields@.len(),
        opt_bounded(node, 10000),
        prefixj.len() >= 1,
        prefixj.last() == j as u16,
        0 <= x < enum_field(sers, s, sers[s].fields@[j], node, prefixj).len(),
    ensures
        ({
            let p = enum_field(sers, s, sers[s].fields@[j], node, prefixj)[x];
            let kl = prefixj.len() as int;
            &&& p.len() >= kl
            &&& p.take(kl) == prefixj
            &&& valid_from(sers, s, p, p.len() - 1, kl - 1)
            &&& vec_slots_small(sers, s, p, p.len() - 1, kl - 1)
        }),
    decreases s, 0int, 0int,
{
    let f = sers[s].fields@[j];
    let kl = prefixj.len() as int;
    assert(ser_wf(sers, s));
    assert(field_wf(sers, s, f));
    let p = enum_field(sers, s, f, node, prefixj)[x];
    assert(prefixj[kl - 1] == j as u16);
    match f.model {
        FieldModel::Value => {
            assert(p == prefixj);
            assert(p.take(kl) =~= prefixj);
        },
        FieldModel::Array => {
            assert(p == prefixj.push(x as u16));
            assert(p.take(kl) =~= prefixj);
            assert(p[kl - 1] == j as u16);
        },
        FieldModel::ArrayVector(_) => {
            assert(p == prefixj.push(x as u16));
            assert(p.take(kl) =~= prefixj);
            assert(p[kl - 1] == j as u16);
        },
        FieldModel::Vector(ns) => {
            lemma_enum_elems_valid(sers, ns as int, node, prefixj, 0, x);
            assert(p[kl - 1] == j as u16);
        },
        FieldModel::Pointer(ns) => {
            lemma_enum_ser_valid(sers, ns as int, node, prefixj, 0, x);
            assert(p[kl - 1] == j as u16);
        },
    }
}

/// Each path of a collection's populated elements extends the prefix with
/// an element index below the four-digit width and walks the element
/// schema validly past it.
proof fn lemma_enum_elems_valid(
    sers: Seq<Serializer>,
    ns: int,
    node: Option<FieldState>,
    prefixj: Seq<u16>,
    k: int,
    x: int,
)
    requires
        wf_sers(sers),
        0 <= ns < sers.len(),
        opt_bounded(node, 10000),
        0 <= k,
        0 <= x < enum_elems(sers, ns, node, prefixj, k).len(),
    ensures
        ({
            let p = enum_elems(sers, ns, node, prefixj, k)[x];
            let kl = prefixj.len() as int;
            &&& p.len() >= kl + 2
            &&& p.take(kl) == prefixj
            &&& (p[kl] as int) < 10000
            &&& valid_from(sers, ns, p, p.len() - 1, kl + 1)
            &&& vec_slots_small(sers, ns, p, p.len() - 1, kl + 1)
        }),
    decreases ns, 2int, node_len(node) - k,
{
    let first = enum_ser(sers, ns, child_node(node, k), prefixj.push(k as u16), 0);
    let p = enum_elems(sers, ns, node, prefixj, k)[x];
    if x < first.len() {
        proof_child_bounded(node, k);
        lemma_enum_ser_valid(sers, ns, child_node(node, k), prefixj.push(k as u16), 0, x);
        assert(p.take(prefixj.len() as int) =~= p.take(prefixj.len() as int + 1).take(
            prefixj.len() as int,
        ));
        assert(p.take(prefixj.len() as int) =~= prefixj);
        assert(p.take(prefixj.len() as int + 1) == prefixj.push(k as u16));
        assert(p[prefixj.len() as int] == p.take(prefixj.len() as int + 1)[prefixj.len() as int]);
        assert(p[prefixj.len() as int] == k as u16);
        assert(k < node_len(node) <= 10000);
    } else {
        lemma_enum_elems_valid(sers, ns, node, prefixj, k + 1, x - first.len());
    }
}

/// A populated child node is bounded whenever its parent is.
proof fn proof_child_bounded(node: Option<FieldState>, k: int)
    requires
        opt_bounded(node, 10000),
    ensures
        opt_bounded(child_node(node, k), 10000),
{
}

/// Each path that the fields of a schema reach from a seeded prefix
/// extends that prefix and walks the schema graph validly.
proof fn lemma_enum_ser_valid(
    sers: Seq<Serializer>,
    s: int,
    node: Option<FieldState>,
    prefix: Seq<u16>,
    j: int,
    x: int,
)
    requires
        wf_sers(sers),
        0 <= s < sers.len(),
        opt_bounded(node, 10000),
        0 <= j,
        0 <= x < enum_ser(sers, s, node, prefix, j).len(),
    ensures
        ({
            let p = enum_ser(sers, s, node, prefix, j)[x];
            let kl = prefix.len() as int;
            &&& p.len() >= kl + 1
            &&& p.take(kl) == prefix
            &&& valid_from(sers, s, p, p.len() - 1, kl)
            &&& vec_slots_small(sers, s, p, p.len() - 1, kl)
        }),
    decreases s, 1int, sers[s].fields@.len() - j,
{
    let first = enum_field(sers, s, sers[s].fields@[j], child_node(node, j), prefix.push(j as u16));
    let p = enum_ser(sers, s, node, prefix, j)[x];
    if x < first.len() {
        proof_child_bounded(node, j);
        lemma_enum_field_valid(sers, s, j, child_node(node, j), prefix.push(j as u16), x);
        assert(p.take(prefix.len() as int) =~= p.take(prefix.len() as int + 1).take(
            prefix.len() as int,
        ));
        assert(p.take(prefix.len() as int) =~= prefix);
    } else {
        lemma_enum_ser_valid(sers, s, node, prefix, j + 1, x - first.len());
    }
}

/// Enumeration invariant: every path that full enumeration returns is a
/// valid walk of the schema it was enumerated from, and resolving its
/// rendered name reproduces the path itself.
pub proof fn lemma_enumeration_round_trip(sers: Seq<Serializer>, s: int, st: FieldState, x: int)
    requires
        wf_sers(sers),
        0 <= s < sers.len(),
        state_bounded(st, 10000),
        0 <= x < enum_ser(sers, s, Some(st), Seq::empty(), 0).len(),
    ensures
        ({
            let p = enum_ser(sers, s, Some(st), Seq::empty(), 0)[x];
            &&& valid_from(sers, s, p, p.len() - 1, 0)
            &&& spec_resolve(sers, s, name_from(sers, s, p, p.len() - 1, 0)) == Some(p)
        }),
{
    lemma_enum_ser_valid(sers, s, Some(st), Seq::empty(), 0, x);
    let p = enum_ser(sers, s, Some(st), Seq::empty(), 0)[x];
    lemma_name_path_round_trip(sers, s, p, p.len() - 1);
    assert(p.subrange(0, p.len() as int) =~= p);
}

/// The schema and slot where the type and decode-rule walks both stop.
pub open spec fn walk_end(sers: Seq<Serializer>, s: int, path: Seq<u16>, last: int, i: int) -> (
    int,
    int,
)
    decreases s,
{
    if !(0 <= s < sers.len()) {
        (s, i)
    } else {
        match sers[s].fields@[path[i] as int].model {
            FieldModel::Vector(ns) => if i + 1 >= last || !(0 <= ns < s) {
                (s, i)
            } else {
                walk_end(sers, ns as int, path, last, i + 2)
            },
            FieldModel::Pointer(ns) => if i + 1 > last || !(0 <= ns < s) {
                (s, i)
            } else {
                walk_end(sers, ns as int, path, last, i + 1)
            },
            _ => (s, i),
        }
    }
}

/// Every walk that name rendering admits is also one that type and
/// decode-rule resolution admit.
pub proof fn lemma_valid_from_type_valid(
    sers: Seq<Serializer>,
    s: int,
    path: Seq<u16>,
    last: int,
    i: int,
)
    requires
        valid_from(sers, s, path, last, i),
    ensures
        type_valid_from(sers, s, path, last, i),
    decreases s,
{
    match sers[s].fields@[path[i] as int].model {
        FieldModel::Vector(ns) => {
            if i != last {
                lemma_valid_from_type_valid(sers, ns as int, path, last, i + 2);
            }
        },
        FieldModel::Pointer(ns) => {
            if i != last {
                lemma_valid_from_type_valid(sers, ns as int, path, last, i + 1);
            }
        },
        _ => {},
    }
}

/// Type and decode-rule resolution classify terminal against continuation
/// alike: both walks stop at the same schema and slot, and both answer
/// for the element rather than the whole array in exactly the same case.
pub proof fn lemma_type_decoder_agree(sers: Seq<Serializer>, s: int, path: Seq<u16>, last: int, i: int)
    requires
        type_valid_from(sers, s, path, last, i),
    ensures
        ({
            let (es, ei) = walk_end(sers, s, path, last, i);
            let f = sers[es].fields@[path[ei] as int];
            &&& 0 <= es < sers.len()
            &&& (path[ei] as int) < sers[es].fields@.len()
            &&& type_at(sers, s, path, last, i) == (match f.model {
                FieldModel::ArrayVector(_) => if ei + 1 == last {
                    f.field_type@.generic[0]
                } else {
                    f.field_type@
                },
                _ => f.field_type@,
            })
            &&& decoder_at(sers, s, path, last, i) == (match f.model {
                FieldModel::ArrayVector(d) => if ei + 1 == last {
                    d
                } else {
                    f.decoder
                },
                _ => f.decoder,
            })
        }),
    decreases s,
{
    let f = sers[s].fields@[path[i] as int];
    match f.model {
        FieldModel::Vector(ns) => {
            if i + 1 < last {
                lemma_type_decoder_agree(sers, ns as int, path, last, i + 2);
            }
        },
        FieldModel::Pointer(ns) => {
            if i != last {
                lemma_type_decoder_agree(sers, ns as int, path, last, i + 1);
            }
        },
        _ => {},
    }
}

} // verus!
