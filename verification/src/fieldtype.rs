//! Parsing and rendering of schema type strings.
//!
//! A type string such as `CNetworkUtlVectorBase< CHandle >` or `m_items[8]`
//! breaks down into a base name, an optional generic parameter, a pointer
//! flag and an optional fixed element count.

use vstd::prelude::*;

use crate::error::SchemaError;
use crate::text::{
    dec_digits, find_char, find_first, find_last, lemma_find_first, lemma_find_last,
    lemma_nonspace_end, lemma_space_prefix_len, nonspace_end, parse_i32_range, rfind_char,
    space_prefix_len, spec_parse_i32, spec_trim, str_eq, trim_substring, append_dec_u32,
    range_eq,
};

verus! {

/// The mathematical shape of a parsed type: every text field reduced to its
/// character sequence.  The generic parameter holds zero or one entries.
#[verifier::ext_equal]
pub struct FieldTypeView {
    pub base: Seq<char>,
    pub generic: Seq<FieldTypeView>,
    pub pointer: bool,
    pub count: Option<int>,
}

/// A parsed schema type string.  Built once at schema-load time and
/// immutable thereafter.
#[derive(Debug)]
pub struct FieldType {
    pub base: String,
    pub generic: Option<Box<FieldType>>,
    pub pointer: bool,
    pub count: Option<i32>,
}

/// The view of a parsed type, generic parameter included.
pub open spec fn type_view(t: FieldType) -> FieldTypeView
    decreases t,
{
    FieldTypeView {
        base: t.base@,
        generic: match t.generic {
            Some(g) => seq![type_view(*g)],
            None => Seq::empty(),
        },
        pointer: t.pointer,
        count: match t.count {
            Some(c) => Some(c as int),
            None => None,
        },
    }
}

impl View for FieldType {
    type V = FieldTypeView;

    open spec fn view(&self) -> FieldTypeView {
        type_view(*self)
    }
}

/// The component type names that are pointers without a trailing marker.
pub open spec fn is_pointer_name(s: Seq<char>) -> bool {
    ||| s == "CBodyComponent"@
    ||| s == "CLightComponent"@
    ||| s == "CPhysicsComponent"@
    ||| s == "CRenderComponent"@
    ||| s == "CPlayerLocalData"@
}

/// The value of a bracketed dimension: one of the known symbolic array-size
/// constants, else a literal integer.
pub open spec fn spec_dim_value(s: Seq<char>) -> Option<i32> {
    if s == "MAX_ITEM_STOCKS"@ {
        Some(8)
    } else if s == "MAX_ABILITY_DRAFT_ABILITIES"@ {
        Some(48)
    } else if s == "DOTA_ABILITY_DRAFT_HEROES_PER_GAME"@ {
        Some(10)
    } else {
        spec_parse_i32(s)
    }
}

/// What parsing a type string yields: the first fault in scanning order, or
/// the parsed descriptor.  The base name is what remains once the pointer
/// marker, the bracketed dimension and the generic parameter are stripped,
/// trimmed of surrounding whitespace.
pub open spec fn spec_parse_type(s: Seq<char>) -> Result<FieldTypeView, SchemaError>
    decreases s.len(),
    via spec_parse_type_decreases
{
    let ptr_mark = s.len() > 0 && s.last() == '*';
    let pointer = ptr_mark || is_pointer_name(s);
    let end_after_ptr: int = if ptr_mark {
        s.len() - 1
    } else {
        s.len() as int
    };
    let br = find_first(s, '[');
    let brc = find_first(s, ']');
    let ang = find_first(s, '<');
    let angc = find_last(s, '>');
    if br is Some && (brc is None || brc->Some_0 < br->Some_0 + 1) {
        Err(SchemaError::UnbalancedBrackets)
    } else if br is Some && spec_dim_value(s.subrange(br->Some_0 + 1, brc->Some_0)) is None {
        Err(SchemaError::BadDimension)
    } else {
        let count = if br is Some {
            Some(spec_dim_value(s.subrange(br->Some_0 + 1, brc->Some_0))->Some_0 as int)
        } else {
            None
        };
        let base_end_nog = if br is Some {
            br->Some_0
        } else {
            end_after_ptr
        };
        if ang is Some && (angc is None || angc->Some_0 < ang->Some_0 + 1) {
            Err(SchemaError::UnbalancedGenerics)
        } else if ang is Some {
            match spec_parse_type(spec_trim(s.subrange(ang->Some_0 + 1, angc->Some_0))) {
                Ok(g) => Ok(
                    (FieldTypeView {
                        base: spec_trim(s.take(ang->Some_0)),
                        generic: seq![g],
                        pointer,
                        count,
                    }),
                ),
                Err(e) => Err(e),
            }
        } else {
            Ok(
                (FieldTypeView {
                    base: spec_trim(s.take(base_end_nog)),
                    generic: Seq::empty(),
                    pointer,
                    count,
                }),
            )
        }
    }
}

#[via_fn]
proof fn spec_parse_type_decreases(s: Seq<char>) {
    let ang = find_first(s, '<');
    let angc = find_last(s, '>');
    if ang is Some && angc is Some && angc->Some_0 >= ang->Some_0 + 1 {
        lemma_find_first(s, '<');
        lemma_find_last(s, '>');
        let inner = s.subrange(ang->Some_0 + 1, angc->Some_0);
        lemma_space_prefix_len(inner);
        lemma_nonspace_end(inner);
        assert(spec_trim(inner).len() < s.len());
    }
}

/// The dimension inside the brackets of a type string.
fn dim_value(s: &str, from: usize, to: usize) -> (r: Option<i32>)
    requires
        from <= to <= s@.len(),
    ensures
        r == spec_dim_value(s@.subrange(from as int, to as int)),
{
    if range_eq(s, from, to, "MAX_ITEM_STOCKS") {
        Some(8)
    } else if range_eq(s, from, to, "MAX_ABILITY_DRAFT_ABILITIES") {
        Some(48)
    } else if range_eq(s, from, to, "DOTA_ABILITY_DRAFT_HEROES_PER_GAME") {
        Some(10)
    } else {
        parse_i32_range(s, from, to)
    }
}

impl FieldType {
    /// Parse a raw type string, reporting the first malformation found.
    pub fn parse(name: &str) -> (r: Result<FieldType, SchemaError>)
        ensures
            match r {
                Ok(t) => spec_parse_type(name@) is Ok && t@ == spec_parse_type(name@)->Ok_0,
                Err(e) => spec_parse_type(name@) == Err::<FieldTypeView, SchemaError>(e),
            },
        decreases name@.len(),
    {
        let n = name.unicode_len();
        let mut base_end = n;
        let mut pointer = false;
        let mut count: Option<i32> = None;
        if n > 0 && name.get_char(n - 1) == '*' {
            pointer = true;
            base_end = n - 1;
        } else if str_eq(name, "CBodyComponent") || str_eq(name, "CLightComponent") || str_eq(
            name,
            "CPhysicsComponent",
        ) || str_eq(name, "CRenderComponent") || str_eq(name, "CPlayerLocalData") {
            pointer = true;
        }
        if let Some(ob) = find_char(name, '[') {
            proof {
                lemma_find_first(name@, '[');
            }
            match find_char(name, ']') {
                None => {
                    return Err(SchemaError::UnbalancedBrackets);
                },
                Some(cb) => {
                    proof {
                        lemma_find_first(name@, ']');
                    }
                    if cb < ob + 1 {
                        return Err(SchemaError::UnbalancedBrackets);
                    }
                    match dim_value(name, ob + 1, cb) {
                        Some(v) => {
                            count = Some(v);
                            base_end = ob;
                        },
                        None => {
                            return Err(SchemaError::BadDimension);
                        },
                    }
                },
            }
        }
        let mut generic: Option<Box<FieldType>> = None;
        let mut generic_end = base_end;
        if let Some(oa) = find_char(name, '<') {
            proof {
                lemma_find_first(name@, '<');
            }
            match rfind_char(name, '>') {
                None => {
                    return Err(SchemaError::UnbalancedGenerics);
                },
                Some(ca) => {
                    proof {
                        lemma_find_last(name@, '>');
                    }
                    if ca < oa + 1 {
                        return Err(SchemaError::UnbalancedGenerics);
                    }
                    let inner = trim_substring(name, oa + 1, ca);
                    proof {
                        lemma_space_prefix_len(name@.subrange(oa + 1, ca as int));
                        lemma_nonspace_end(name@.subrange(oa + 1, ca as int));
                        assert(inner@.len() < name@.len());
                    }
                    match FieldType::parse(inner.as_str()) {
                        Ok(g) => {
                            generic = Some(Box::new(g));
                            generic_end = oa;
                        },
                        Err(e) => {
                            return Err(e);
                        },
                    }
                },
            }
        }
        let base = trim_substring(name, 0, if generic.is_some() {
            generic_end
        } else {
            base_end
        });
        proof {
            assert(name@.subrange(0, base_end as int) =~= name@.take(base_end as int));
            assert(name@.subrange(0, generic_end as int) =~= name@.take(generic_end as int));
        }
        Ok(FieldType { base, generic, pointer, count })
    }

    /// Build a type descriptor from a string already known to be well
    /// formed; schema loaders that must not lose the fault use `parse`.
    pub fn new(name: &str) -> (r: FieldType)
        requires
            spec_parse_type(name@) is Ok,
        ensures
            r@ == spec_parse_type(name@)->Ok_0,
    {
        match FieldType::parse(name) {
            Ok(t) => t,
            Err(_) => vstd::pervasive::unreached(),
        }
    }
}

/// The decimal rendering of a signed count.
pub open spec fn dec_i32(v: int) -> Seq<char> {
    if v < 0 {
        seq!['-'] + dec_digits((-v) as nat)
    } else {
        dec_digits(v as nat)
    }
}

/// Append the decimal rendering of a signed count to `out`.
fn append_dec_i32(out: &mut String, v: i32)
    ensures
        final(out)@ == old(out)@ + dec_i32(v as int),
{
    if v < 0 {
        out.append("-");
        let m: u32 = if v == i32::MIN {
            0x8000_0000u32
        } else {
            (0i32 - v) as u32
        };
        append_dec_u32(out, m);
        proof {
            reveal_strlit("-");
            assert(old(out)@ + "-"@ + dec_digits(m as nat) =~= old(out)@ + dec_i32(v as int));
        }
    } else {
        append_dec_u32(out, v as u32);
    }
}

/// The text a type descriptor renders to: the base name, then the generic
/// parameter in spaced angle brackets, then the pointer marker, then the
/// count in brackets.
pub open spec fn spec_render_type(t: FieldType) -> Seq<char>
    decreases t,
{
    let g = match t.generic {
        Some(g) => "< "@ + spec_render_type(*g) + " >"@,
        None => Seq::<char>::empty(),
    };
    let p: Seq<char> = if t.pointer {
        "*"@
    } else {
        Seq::empty()
    };
    let c = match t.count {
        Some(c) => "["@ + dec_i32(c as int) + "]"@,
        None => Seq::<char>::empty(),
    };
    t.base@ + g + p + c
}

impl FieldType {
    /// Render the descriptor back to display text.
    pub fn render(&self) -> (r: String)
        ensures
            r@ == spec_render_type(*self),
        decreases *self,
    {
        let mut out = String::new();
        out.append(self.base.as_str());
        if let Some(g) = &self.generic {
            out.append("< ");
            let gs = g.render();
            out.append(gs.as_str());
            out.append(" >");
        }
        if self.pointer {
            out.append("*");
        }
        if let Some(c) = self.count {
            out.append("[");
            append_dec_i32(&mut out, c);
            out.append("]");
        }
        proof {
            assert(out@ =~= spec_render_type(*self));
        }
        out
    }
}

} // verus!
