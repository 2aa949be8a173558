//! Field records: the flat key/value shape a metadata block or an
//! artifact object is read into before the schema is applied.

use vstd::prelude::*;
use crate::text::clone_strings;
use crate::text::str_eq;
use crate::text::str_views;

verus! {

/// A single field value: a scalar string, a list of strings, or nothing.
#[derive(Clone, Debug, PartialEq)]
pub enum FieldValue {
    Str(String),
    List(Vec<String>),
    Null,
}

/// The mathematical shape of a [`FieldValue`].
pub enum FieldValueV {
    Str(Seq<char>),
    List(Seq<Seq<char>>),
    Null,
}

impl View for FieldValue {
    type V = FieldValueV;

    open spec fn view(&self) -> FieldValueV {
        match self {
            FieldValue::Str(s) => FieldValueV::Str(s@),
            FieldValue::List(v) => FieldValueV::List(str_views(v@)),
            FieldValue::Null => FieldValueV::Null,
        }
    }
}

/// The views of a sequence of named fields.
pub open spec fn field_views(fs: Seq<(String, FieldValue)>) -> Seq<(Seq<char>, FieldValueV)> {
    fs.map_values(|p: (String, FieldValue)| (p.0@, p.1@))
}

/// The value of the first field named `name`, if any.
pub open spec fn spec_lookup(fields: Seq<(Seq<char>, FieldValueV)>, name: Seq<char>) -> Option<
    FieldValueV,
>
    decreases fields.len(),
{
    if fields.len() == 0 {
        None
    } else if fields[0].0 == name {
        Some(fields[0].1)
    } else {
        spec_lookup(fields.drop_first(), name)
    }
}

/// A required string field: its text, or `None` when the field is
/// missing or not a scalar.
pub open spec fn spec_req_str(
    fields: Seq<(Seq<char>, FieldValueV)>,
    name: Seq<char>,
) -> Option<Seq<char>> {
    match spec_lookup(fields, name) {
        Some(FieldValueV::Str(s)) => Some(s),
        _ => None,
    }
}

/// An optional string field: `None` on the outside when the field is
/// present but not a scalar or absent value.
pub open spec fn spec_opt_str(
    fields: Seq<(Seq<char>, FieldValueV)>,
    name: Seq<char>,
) -> Option<Option<Seq<char>>> {
    match spec_lookup(fields, name) {
        None => Some(None),
        Some(FieldValueV::Null) => Some(None),
        Some(FieldValueV::Str(s)) => Some(Some(s)),
        Some(FieldValueV::List(_)) => None,
    }
}

/// A required list field: its items, or `None` when the field is
/// missing or not a list.
pub open spec fn spec_req_list(
    fields: Seq<(Seq<char>, FieldValueV)>,
    name: Seq<char>,
) -> Option<Seq<Seq<char>>> {
    match spec_lookup(fields, name) {
        Some(FieldValueV::List(l)) => Some(l),
        _ => None,
    }
}

/// Looks up the first field named `name`.
pub fn lookup<'a>(fields: &'a Vec<(String, FieldValue)>, name: &str) -> (r: Option<
    &'a FieldValue,
>)
    ensures
        match r {
            Some(v) => spec_lookup(field_views(fields@), name@) == Some(v@),
            None => spec_lookup(field_views(fields@), name@) is None,
        },
{
    let ghost target = field_views(fields@);
    let mut i: usize = 0;
    proof {
        assert(target.skip(0) =~= target);
    }
    loop
        invariant
            i <= fields@.len(),
            target == field_views(fields@),
            target.len() == fields@.len(),
            spec_lookup(target, name@) == spec_lookup(target.skip(i as int), name@),
        decreases fields@.len() - i,
    {
        if i >= fields.len() {
            return None;
        }
        proof {
            assert(target.skip(i as int)[0] == target[i as int]);
            assert(target.skip(i as int).drop_first() =~= target.skip(i as int + 1));
        }
        if str_eq(fields[i].0.as_str(), name) {
            return Some(&fields[i].1);
        }
        i = i + 1;
    }
}

/// Reads a required string field, cloning its text.
pub fn req_str(fields: &Vec<(String, FieldValue)>, name: &str) -> (r: Option<String>)
    ensures
        match r {
            Some(s) => spec_req_str(field_views(fields@), name@) == Some(s@),
            None => spec_req_str(field_views(fields@), name@) is None,
        },
{
    match lookup(fields, name) {
        Some(FieldValue::Str(s)) => Some(s.clone()),
        _ => None,
    }
}

/// Reads an optional string field, cloning its text.
pub fn opt_str(fields: &Vec<(String, FieldValue)>, name: &str) -> (r: Option<Option<String>>)
    ensures
        match r {
            Some(None) => spec_opt_str(field_views(fields@), name@) == Some(
                None::<Seq<char>>,
            ),
            Some(Some(s)) => spec_opt_str(field_views(fields@), name@) == Some(Some(s@)),
            None => spec_opt_str(field_views(fields@), name@) is None,
        },
{
    match lookup(fields, name) {
        None => Some(None),
        Some(FieldValue::Null) => Some(None),
        Some(FieldValue::Str(s)) => Some(Some(s.clone())),
        Some(FieldValue::List(_)) => None,
    }
}

/// Reads a required list field, cloning its items.
pub fn req_list(fields: &Vec<(String, FieldValue)>, name: &str) -> (r: Option<Vec<String>>)
    ensures
        match r {
            Some(l) => spec_req_list(field_views(fields@), name@) == Some(str_views(l@)),
            None => spec_req_list(field_views(fields@), name@) is None,
        },
{
    match lookup(fields, name) {
        Some(FieldValue::List(l)) => Some(clone_strings(l)),
        _ => None,
    }
}


/// A string field with a default: its text, the empty text when the
/// field is missing, and `None` when it is present but not a scalar.
pub open spec fn spec_dflt_str(
    fields: Seq<(Seq<char>, FieldValueV)>,
    name: Seq<char>,
) -> Option<Seq<char>> {
    match spec_lookup(fields, name) {
        None => Some(Seq::empty()),
        Some(FieldValueV::Str(s)) => Some(s),
        Some(_) => None,
    }
}

/// Reads a string field, defaulting to empty when it is missing.
pub fn dflt_str(fields: &Vec<(String, FieldValue)>, name: &str) -> (r: Option<String>)
    ensures
        match r {
            Some(s) => spec_dflt_str(field_views(fields@), name@) == Some(s@),
            None => spec_dflt_str(field_views(fields@), name@) is None,
        },
{
    match lookup(fields, name) {
        None => {
            let s = String::new();
            Some(s)
        },
        Some(FieldValue::Str(s)) => Some(s.clone()),
        Some(_) => None,
    }
}

/// A lookup finds the value at the first position whose key matches.
pub proof fn lemma_lookup_at(fields: Seq<(Seq<char>, FieldValueV)>, name: Seq<char>, k: int)
    requires
        0 <= k < fields.len(),
        fields[k].0 == name,
        forall|j: int| 0 <= j < k ==> (#[trigger] fields[j]).0 != name,
    ensures
        spec_lookup(fields, name) == Some(fields[k].1),
    decreases k,
{
    if k > 0 {
        let rest = fields.drop_first();
        assert forall|j: int| 0 <= j < k - 1 implies (#[trigger] rest[j]).0 != name by {
            assert(rest[j] == fields[j + 1]);
        }
        assert(rest[k - 1] == fields[k]);
        lemma_lookup_at(rest, name, k - 1);
    }
}

} // verus!
