//! Full enumeration: every path currently reachable under a schema, given
//! the per-entity population tree.

use vstd::prelude::*;

use crate::field::FieldModel;
use crate::fieldpath::FieldPath;
use crate::schema::{
    field_depth, lemma_depth_from_le, lemma_depth_from_nonneg, ser_depth, ser_wf, SchemaArena,
    Serializer,
};
use crate::state::{state_wf, FieldState};

verus! {

/// The population node that a child slot leads to, if one is populated.
pub open spec fn child_node(node: Option<FieldState>, j: int) -> Option<FieldState> {
    match node {
        Some(n) => if 0 <= j < n.children@.len() {
            Some(n.children@[j])
        } else {
            None
        },
        None => None,
    }
}

/// How many elements are populated under a node.
pub open spec fn node_len(node: Option<FieldState>) -> int {
    match node {
        Some(n) => n.children@.len() as int,
        None => 0,
    }
}

/// The paths one field contributes, its slot already in the prefix: a
/// leaf contributes the prefix itself, an array one path per populated
/// element, a collection the paths of each populated element's schema,
/// and an embedded struct the paths of its schema.
pub open spec fn enum_field(
    sers: Seq<Serializer>,
    s: int,
    f: crate::field::Field,
    node: Option<FieldState>,
    prefix: Seq<u16>,
) -> Seq<Seq<u16>>
    decreases s, 0int, 0int,
{
    match f.model {
        FieldModel::Value => seq![prefix],
        FieldModel::Array => Seq::new(node_len(node) as nat, |k: int| prefix.push(k as u16)),
        FieldModel::ArrayVector(_) => Seq::new(
            node_len(node) as nat,
            |k: int| prefix.push(k as u16),
        ),
        FieldModel::Vector(ns) => if 0 <= ns < s {
            enum_elems(sers, ns as int, node, prefix, 0)
        } else {
            Seq::empty()
        },
        FieldModel::Pointer(ns) => if 0 <= ns < s {
            enum_ser(sers, ns as int, node, prefix, 0)
        } else {
            Seq::empty()
        },
    }
}

/// The paths of a collection's populated elements from element `k` on.
pub open spec fn enum_elems(
    sers: Seq<Serializer>,
    ns: int,
    node: Option<FieldState>,
    prefix: Seq<u16>,
    k: int,
) -> Seq<Seq<u16>>
    decreases ns, 2int, node_len(node) - k,
{
    if 0 <= k < node_len(node) {
        enum_ser(sers, ns, child_node(node, k), prefix.push(k as u16), 0) + enum_elems(
            sers,
            ns,
            node,
            prefix,
            k + 1,
        )
    } else {
        Seq::empty()
    }
}

/// The paths that the fields of schema `s` from position `j` on reach.
pub open spec fn enum_ser(
    sers: Seq<Serializer>,
    s: int,
    node: Option<FieldState>,
    prefix: Seq<u16>,
    j: int,
) -> Seq<Seq<u16>>
    decreases s, 1int, sers[s].fields@.len() - j,
{
    if 0 <= s < sers.len() && 0 <= j < sers[s].fields@.len() {
        enum_field(sers, s, sers[s].fields@[j], child_node(node, j), prefix.push(j as u16))
            + enum_ser(sers, s, node, prefix, j + 1)
    } else {
        Seq::empty()
    }
}

impl SchemaArena {
    /// Append to `out` every reachable path below schema `s`, the walked
    /// prefix standing in `fp` below its `last` slot.
    fn enum_ser_into(
        &self,
        s: usize,
        node: Option<&FieldState>,
        fp: &mut FieldPath,
        out: &mut Vec<FieldPath>,
    )
        requires
            self.inv(),
            s < self.sers_view().len(),
            old(fp).last as int + ser_depth(self.sers_view(), s as int) <= 7,
            match node {
                Some(n) => state_wf(*n),
                None => true,
            },
        ensures
            final(fp).last == old(fp).last,
            final(fp).path@.take(old(fp).last as int) == old(fp).path@.take(old(fp).last as int),
            ({
                let spec_paths = enum_ser(
                    self.sers_view(),
                    s as int,
                    match node {
                        Some(n) => Some(*n),
                        None => None,
                    },
                    old(fp).path@.take(old(fp).last as int),
                    0,
                );
                &&& final(out)@.len() == old(out)@.len() + spec_paths.len()
                &&& (forall|x: int| 0 <= x < old(out)@.len() ==> final(out)@[x] == old(out)@[x])
                &&& (forall|x: int|
                    0 <= x < spec_paths.len() ==> (#[trigger] final(out)@[old(out)@.len() + x])@
                        == spec_paths[x] && final(out)@[old(out)@.len() + x].wf())
            }),
        decreases s,
    {
        let ghost sers = self.sers_view();
        let ghost gnode: Option<FieldState> = match node {
            Some(n) => Some(*n),
            None => None,
        };
        let ghost prefix = fp.path@.take(fp.last as int);
        let ghost out0 = out@;
        let ghost mut acc: Seq<Seq<u16>> = Seq::empty();
        let fields_len = self.sers[s].fields.len();
        let mut j: usize = 0;
        while j < fields_len
            invariant
                self.inv(),
                sers == self.sers_view(),
                s < sers.len(),
                fields_len == sers[s as int].fields@.len(),
                j <= fields_len,
                fp.last as int + ser_depth(sers, s as int) <= 7,
                match node {
                    Some(n) => state_wf(*n),
                    None => true,
                },
                gnode == (match node {
                    Some(n) => Some(*n),
                    None => None,
                }),
                fp.last == old(fp).last,
                prefix == fp.path@.take(fp.last as int),
                out@.len() == out0.len() + acc.len(),
                (forall|x: int| 0 <= x < out0.len() ==> out@[x] == out0[x]),
                acc + enum_ser(sers, s as int, gnode, prefix, j as int) == enum_ser(
                    sers,
                    s as int,
                    gnode,
                    prefix,
                    0,
                ),
                (forall|x: int|
                    0 <= x < acc.len() ==> (#[trigger] out@[out0.len() + x])@ == acc[x] && out@[
                        out0.len() + x
                    ].wf()),
            decreases fields_len - j,
        {
            let ghost out_pre = out@;
            proof {
                assert(ser_wf(sers, s as int));
                lemma_depth_from_le(sers, s as int, j as int);
                lemma_enum_ser_step(sers, s as int, gnode, prefix, j as int);
            }
            let child: Option<&FieldState> = match node {
                Some(n) => {
                    if j < n.children.len() {
                        Some(&n.children[j])
                    } else {
                        None
                    }
                },
                None => None,
            };
            let ghost gchild = child_node(gnode, j as int);
            let ghost fprefix = prefix.push(j as u16);
            let ghost fpaths = enum_field(sers, s as int, sers[s as int].fields@[j as int], gchild, fprefix);
            fp.path[fp.last] = j as u16;
            proof {
                assert(fp.path@.take(fp.last as int) == prefix);
                assert(fp.path@.take(fp.last as int + 1) =~= fprefix);
            }
            match &self.sers[s].fields[j].model {
                FieldModel::Value => {
                    let p2 = *fp;
                    proof {
                        assert(p2.path@.take(p2.last as int + 1) =~= fprefix);
                        assert(fpaths =~= seq![fprefix]);
                    }
                    out.push(p2);
                    proof {
                        assert forall|x: int|
                            acc.len() <= x < acc.len() + fpaths.len() implies (#[trigger] out@[
                            out0.len() + x
                        ])@ == fpaths[x - acc.len()] && out@[out0.len() + x].wf() by {
                            assert(out@[out0.len() + x] == p2);
                        }
                    }
                },
                FieldModel::Array => {
                    proof {
                        assert(field_depth(sers, s as int, sers[s as int].fields@[j as int]) == 2);
                    }
                    let ghost outb = out@;
                    self.enum_array_elems(child, fp, out);
                    proof {
                        assert(fpaths =~= Seq::new(
                            node_len(gchild) as nat,
                            |k: int| fprefix.push(k as u16),
                        ));
                        assert forall|x: int|
                            acc.len() <= x < acc.len() + fpaths.len() implies (#[trigger] out@[
                            out0.len() + x
                        ])@ == fpaths[x - acc.len()] && out@[out0.len() + x].wf() by {
                            assert(out@[outb.len() + (x - acc.len())]@ == fpaths[x - acc.len()]);
                        }
                    }
                },
                FieldModel::ArrayVector(_) => {
                    proof {
                        assert(field_depth(sers, s as int, sers[s as int].fields@[j as int]) == 2);
                    }
                    let ghost outb = out@;
                    self.enum_array_elems(child, fp, out);
                    proof {
                        assert(fpaths =~= Seq::new(
                            node_len(gchild) as nat,
                            |k: int| fprefix.push(k as u16),
                        ));
                        assert forall|x: int|
                            acc.len() <= x < acc.len() + fpaths.len() implies (#[trigger] out@[
                            out0.len() + x
                        ])@ == fpaths[x - acc.len()] && out@[out0.len() + x].wf() by {
                            assert(out@[outb.len() + (x - acc.len())]@ == fpaths[x - acc.len()]);
                        }
                    }
                },
                FieldModel::Vector(ns) => {
                    let nsv = *ns;
                    let cnt = match child {
                        Some(c) => c.children.len(),
                        None => 0,
                    };
                    let ghost out1 = out@;
                    let ghost mut acc2: Seq<Seq<u16>> = Seq::empty();
                    let mut k: usize = 0;
                    while k < cnt
                        invariant
                            self.inv(),
                            sers == self.sers_view(),
                            s < sers.len(),
                            fields_len == sers[s as int].fields@.len(),
                            j < fields_len,
                            sers[s as int].fields@[j as int].model == FieldModel::Vector(nsv),
                            nsv < s,
                            fp.last as int + ser_depth(sers, s as int) <= 7,
                            field_depth(sers, s as int, sers[s as int].fields@[j as int])
                                <= ser_depth(sers, s as int),
                            cnt == node_len(gchild),
                            gchild == (match child {
                                Some(c) => Some(*c),
                                None => None,
                            }),
                            match child {
                                Some(c) => state_wf(*c),
                                None => true,
                            },
                            k <= cnt,
                            fprefix == fp.path@.take(fp.last as int + 1),
                            prefix == fp.path@.take(fp.last as int),
                            out@.len() == out1.len() + acc2.len(),
                            (forall|x: int| 0 <= x < out1.len() ==> out@[x] == out1[x]),
                            acc2 + enum_elems(sers, nsv as int, gchild, fprefix, k as int)
                                == enum_elems(sers, nsv as int, gchild, fprefix, 0),
                            (forall|x: int|
                                0 <= x < acc2.len() ==> (#[trigger] out@[out1.len() + x])@
                                    == acc2[x] && out@[out1.len() + x].wf()),
                        decreases cnt - k,
                    {
                        proof {
                            lemma_enum_elems_step(sers, nsv as int, gchild, fprefix, k as int);
                            lemma_depth_from_nonneg(sers, nsv as int, 0);
                        }
                        let elem: &FieldState = match child {
                            Some(c) => &c.children[k],
                            None => {
                                proof {
                                    assert(false);
                                }
                                vstd::pervasive::unreached()
                            },
                        };
                        proof {
                            assert(child_node(gchild, k as int) == Some(*elem));
                        }
                        fp.path[fp.last + 1] = k as u16;
                        fp.last = fp.last + 2;
                        proof {
                            assert(fp.path@.take(fp.last as int) =~= fprefix.push(k as u16));
                        }
                        let ghost outb = out@;
                        self.enum_ser_into(nsv, Some(elem), fp, out);
                        fp.last = fp.last - 2;
                        let ghost epaths = enum_ser(
                            sers,
                            nsv as int,
                            child_node(gchild, k as int),
                            fprefix.push(k as u16),
                            0,
                        );
                        proof {
                            assert(fp.path@.take(fp.last as int + 1) =~= fprefix);
                            assert(fp.path@.take(fp.last as int) =~= prefix);
                            let acc2_new = acc2 + epaths;
                            assert(acc2_new + enum_elems(sers, nsv as int, gchild, fprefix, k + 1)
                                =~= acc2 + (epaths + enum_elems(
                                sers,
                                nsv as int,
                                gchild,
                                fprefix,
                                k + 1,
                            )));
                            assert forall|x: int|
                                0 <= x < acc2_new.len() implies (#[trigger] out@[out1.len() + x])@
                                == acc2_new[x] && out@[out1.len() + x].wf() by {
                                if x >= acc2.len() {
                                    assert(out@[outb.len() + (x - acc2.len())]@ == epaths[x
                                        - acc2.len()]);
                                }
                            }
                            acc2 = acc2_new;
                        }
                        k = k + 1;
                    }
                    proof {
                        assert(acc2 + enum_elems(sers, nsv as int, gchild, fprefix, cnt as int)
                            =~= acc2);
                        assert(fpaths == enum_elems(sers, nsv as int, gchild, fprefix, 0));
                        assert(acc2 == fpaths);
                        assert forall|x: int|
                            acc.len() <= x < acc.len() + fpaths.len() implies (#[trigger] out@[
                            out0.len() + x
                        ])@ == fpaths[x - acc.len()] && out@[out0.len() + x].wf() by {
                            assert(out@[out1.len() + (x - acc.len())]@ == acc2[x - acc.len()]);
                        }
                    }
                },
                FieldModel::Pointer(ns) => {
                    let nsv = *ns;
                    proof {
                        lemma_depth_from_nonneg(sers, nsv as int, 0);
                        assert(field_depth(sers, s as int, sers[s as int].fields@[j as int]) == 1
                            + ser_depth(sers, nsv as int));
                    }
                    fp.last = fp.last + 1;
                    proof {
                        assert(fp.path@.take(fp.last as int) =~= fprefix);
                    }
                    let ghost outb = out@;
                    self.enum_ser_into(nsv, child, fp, out);
                    fp.last = fp.last - 1;
                    proof {
                        assert(fp.path@.take(fp.last as int + 1) =~= fprefix);
                        assert(fp.path@.take(fp.last as int) =~= prefix);
                        assert(fpaths == enum_ser(sers, nsv as int, gchild, fprefix, 0));
                        assert forall|x: int|
                            acc.len() <= x < acc.len() + fpaths.len() implies (#[trigger] out@[
                            out0.len() + x
                        ])@ == fpaths[x - acc.len()] && out@[out0.len() + x].wf() by {
                            assert(out@[outb.len() + (x - acc.len())]@ == fpaths[x - acc.len()]);
                        }
                    }
                },
            }
            proof {
                let acc_new = acc + fpaths;
                assert(acc_new + enum_ser(sers, s as int, gnode, prefix, j + 1) =~= acc + (fpaths
                    + enum_ser(sers, s as int, gnode, prefix, j + 1)));
                assert forall|x: int|
                    0 <= x < acc_new.len() implies (#[trigger] out@[out0.len() + x])@ == acc_new[x]
                    && out@[out0.len() + x].wf() by {
                    if x < acc.len() {
                        assert(out_pre[out0.len() + x]@ == acc[x]);
                        assert(out@[out0.len() + x] == out_pre[out0.len() + x]);
                    }
                }
                acc = acc_new;
            }
            j = j + 1;
        }
        proof {
            assert(acc + enum_ser(sers, s as int, gnode, prefix, fields_len as int) =~= acc);
            assert(acc == enum_ser(sers, s as int, gnode, prefix, 0));
        }
    }

    /// Append one path per populated element of an array field; the
    /// field's slot already stands at `last`.
    fn enum_array_elems(&self, child: Option<&FieldState>, fp: &mut FieldPath, out: &mut Vec<FieldPath>)
        requires
            old(fp).last + 1 < 7,
            match child {
                Some(c) => state_wf(*c),
                None => true,
            },
        ensures
            final(fp).last == old(fp).last,
            final(fp).path@.take(old(fp).last as int + 1) == old(fp).path@.take(
                old(fp).last as int + 1,
            ),
            ({
                let gchild = match child {
                    Some(c) => Some(*c),
                    None => None,
                };
                let fprefix = old(fp).path@.take(old(fp).last as int + 1);
                let spec_paths = Seq::new(node_len(gchild) as nat, |k: int| fprefix.push(k as u16));
                &&& final(out)@.len() == old(out)@.len() + spec_paths.len()
                &&& (forall|x: int| 0 <= x < old(out)@.len() ==> final(out)@[x] == old(out)@[x])
                &&& (forall|x: int|
                    0 <= x < spec_paths.len() ==> (#[trigger] final(out)@[old(out)@.len() + x])@
                        == spec_paths[x] && final(out)@[old(out)@.len() + x].wf())
            }),
    {
        let ghost gchild: Option<FieldState> = match child {
            Some(c) => Some(*c),
            None => None,
        };
        let ghost fprefix = fp.path@.take(fp.last as int + 1);
        let ghost out0 = out@;
        let cnt = match child {
            Some(c) => c.children.len(),
            None => 0,
        };
        let mut k: usize = 0;
        while k < cnt
            invariant
                fp.last + 1 < 7,
                cnt == node_len(gchild),
                cnt <= u16::MAX,
                k <= cnt,
                fprefix == fp.path@.take(fp.last as int + 1),
                out@.len() == out0.len() + k,
                (forall|x: int| 0 <= x < out0.len() ==> out@[x] == out0[x]),
                (forall|x: int|
                    out0.len() <= x < out@.len() ==> (#[trigger] out@[x])@ == fprefix.push(
                        (x - out0.len()) as u16,
                    ) && out@[x].wf()),
            decreases cnt - k,
        {
            fp.path[fp.last + 1] = k as u16;
            let mut p2 = *fp;
            p2.last = fp.last + 1;
            proof {
                assert(p2.path@.take(p2.last as int + 1) =~= fprefix.push(k as u16));
                assert(fp.path@.take(fp.last as int + 1) =~= fprefix);
            }
            out.push(p2);
            k = k + 1;
        }
    }

    /// Every path reachable right now under schema `s`: leaves always,
    /// array and collection elements as far as the population tree says
    /// they are present.  A fresh list is built on every call; `fp` is
    /// scratch whose occupied prefix seeds every returned path.
    pub fn get_field_paths(&self, ser: usize, fp: &mut FieldPath, st: &FieldState) -> (r: Vec<
        FieldPath,
    >)
        requires
            self.inv(),
            ser < self.sers_view().len(),
            old(fp).last as int + ser_depth(self.sers_view(), ser as int) <= 7,
            state_wf(*st),
        ensures
            final(fp).last == old(fp).last,
            ({
                let spec_paths = enum_ser(
                    self.sers_view(),
                    ser as int,
                    Some(*st),
                    old(fp).path@.take(old(fp).last as int),
                    0,
                );
                &&& r@.len() == spec_paths.len()
                &&& (forall|x: int|
                    0 <= x < spec_paths.len() ==> (#[trigger] r@[x])@ == spec_paths[x]
                        && r@[x].wf())
            }),
    {
        let mut out: Vec<FieldPath> = Vec::new();
        self.enum_ser_into(ser, Some(st), fp, &mut out);
        proof {
            let spec_paths = enum_ser(
                self.sers_view(),
                ser as int,
                Some(*st),
                old(fp).path@.take(old(fp).last as int),
                0,
            );
            assert forall|x: int|
                0 <= x < spec_paths.len() implies (#[trigger] out@[x])@ == spec_paths[x]
                && out@[x].wf() by {
                assert(out@[0 + x]@ == spec_paths[x]);
                assert(out@[0 + x].wf());
            }
        }
        out
    }
}

/// One unfolding step of the field fold.
proof fn lemma_enum_ser_step(
    sers: Seq<Serializer>,
    s: int,
    node: Option<FieldState>,
    prefix: Seq<u16>,
    j: int,
)
    requires
        0 <= s < sers.len(),
        0 <= j < sers[s].fields@.len(),
    ensures
        enum_ser(sers, s, node, prefix, j) == enum_field(
            sers,
            s,
            sers[s].fields@[j],
            child_node(node, j),
            prefix.push(j as u16),
        ) + enum_ser(sers, s, node, prefix, j + 1),
{
}

/// One unfolding step of the element fold.
proof fn lemma_enum_elems_step(
    sers: Seq<Serializer>,
    ns: int,
    node: Option<FieldState>,
    prefix: Seq<u16>,
    k: int,
)
    requires
        0 <= k < node_len(node),
    ensures
        enum_elems(sers, ns, node, prefix, k) == enum_ser(
            sers,
            ns,
            child_node(node, k),
            prefix.push(k as u16),
            0,
        ) + enum_elems(sers, ns, node, prefix, k + 1),
{
}

} // verus!
