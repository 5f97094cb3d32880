//! The compact integer address of one leaf value in a schema.

use vstd::prelude::*;

use crate::text::{append_dec_u32, dec_digits};
use vstd::std_specs::cmp::PartialEqSpec;

verus! {

/// A fixed-capacity sequence of slot indices plus the index of the last
/// meaningful slot, inclusive.  Slots beyond `last` are scratch and carry
/// no meaning; equality ignores them.  The type deliberately has no
/// `Hash`: a derived hash would read the scratch slots and so disagree
/// with this equality, and nothing here keys storage by path.
#[derive(Clone, Copy, Debug)]
pub struct FieldPath {
    pub path: [u16; 7],
    pub last: usize,
}

impl FieldPath {
    /// A path is well formed when its last occupied slot is in range.
    pub open spec fn wf(&self) -> bool {
        self.last < 7
    }

    /// The slots a path occupies, in order.
    pub open spec fn slots(&self) -> Seq<u16> {
        self.path@.take(self.last as int + 1)
    }
}

impl View for FieldPath {
    type V = Seq<u16>;

    open spec fn view(&self) -> Seq<u16> {
        self.slots()
    }
}

impl PartialEq for FieldPath {
    /// Two paths are equal when they occupy the same slots with the same
    /// indices; scratch slots beyond `last` do not count.
    fn eq(&self, other: &FieldPath) -> (r: bool) {
        if self.last != other.last {
            return false;
        }
        let mut i: usize = 0;
        while i < 7
            invariant
                i <= 7,
                self.last == other.last,
                forall|j: int| 0 <= j < i && j <= self.last ==> self.path@[j] == other.path@[j],
            decreases 7 - i,
        {
            if i <= self.last && self.path[i] != other.path[i] {
                return false;
            }
            i = i + 1;
        }
        true
    }
}

impl vstd::std_specs::cmp::PartialEqSpecImpl for FieldPath {
    open spec fn obeys_eq_spec() -> bool {
        true
    }

    open spec fn eq_spec(&self, other: &FieldPath) -> bool {
        self.last == other.last && forall|j: int|
            0 <= j < 7 && j <= self.last ==> self.path@[j] == other.path@[j]
    }
}

/// For well-formed paths, equality is exactly equality of the occupied
/// slot sequences.
pub proof fn lemma_path_eq_is_view_eq(a: FieldPath, b: FieldPath)
    requires
        a.wf(),
        b.wf(),
    ensures
        a.eq_spec(&b) <==> a@ == b@,
{
    if a.eq_spec(&b) {
        assert(a@ =~= b@);
    }
    if a@ == b@ {
        assert(a@.len() == b@.len());
        assert(a.last == b.last);
        assert forall|j: int| 0 <= j < 7 && j <= a.last implies a.path@[j] == b.path@[j] by {
            assert(a@[j] == b@[j]);
        }
    }
}

impl Default for FieldPath {
    /// The empty scratch path: every slot zero and `last` at the first slot.
    fn default() -> (r: FieldPath)
        ensures
            r.last == 0,
            forall|j: int| 0 <= j < 7 ==> r.path@[j] == 0u16,
    {
        FieldPath { path: [0u16, 0u16, 0u16, 0u16, 0u16, 0u16, 0u16], last: 0 }
    }
}

/// The display text of a path: its occupied slots separated by slashes.
pub open spec fn spec_render_slots(p: Seq<u16>) -> Seq<char>
    decreases p.len(),
{
    if p.len() == 0 {
        Seq::empty()
    } else if p.len() == 1 {
        dec_digits(p[0] as nat)
    } else {
        spec_render_slots(p.drop_last()) + "/"@ + dec_digits(p.last() as nat)
    }
}

impl FieldPath {
    /// Render the occupied slots to display text.
    pub fn render(&self) -> (r: String)
        requires
            self.wf(),
        ensures
            r@ == spec_render_slots(self@),
    {
        let mut out = String::new();
        let mut i: usize = 0;
        while i <= self.last
            invariant
                self.wf(),
                i <= self.last + 1,
                out@ == spec_render_slots(self.path@.take(i as int)),
            decreases self.last + 1 - i,
        {
            if i > 0 {
                out.append("/");
            }
            append_dec_u32(&mut out, self.path[i] as u32);
            proof {
                assert(self.path@.take(i + 1).drop_last() =~= self.path@.take(i as int));
                assert(self.path@.take(i + 1).last() == self.path@[i as int]);
                assert(out@ =~= spec_render_slots(self.path@.take(i + 1)));
            }
            i = i + 1;
        }
        out
    }
}

} // verus!
