//! The schema: an ordered mapping from field name to indexing options,
//! fixed when an index is created and immutable thereafter.

use vstd::prelude::*;

use crate::strutil::str_eq;

verus! {

/// Ghost model of one field declaration.
pub struct FieldDefModel {
    pub name: Seq<char>,
    pub indexed: bool,
    pub stored: bool,
}

/// One field declaration: a unique name and its indexing options.
pub struct FieldDef {
    pub name: String,
    pub indexed: bool,
    pub stored: bool,
}

impl DeepView for FieldDef {
    type V = FieldDefModel;

    open spec fn deep_view(&self) -> FieldDefModel {
        FieldDefModel { name: self.name@, indexed: self.indexed, stored: self.stored }
    }
}

/// Ghost model of a schema.
pub struct SchemaModel {
    pub fields: Seq<FieldDefModel>,
}

/// The ordered set of declared fields. A field's id is its position here.
pub struct Schema {
    pub fields: Vec<FieldDef>,
}

impl DeepView for Schema {
    type V = SchemaModel;

    open spec fn deep_view(&self) -> SchemaModel {
        SchemaModel { fields: self.fields.deep_view() }
    }
}

/// The id of the first field with the given name at or after `i`, if any.
pub open spec fn field_pos(fields: Seq<FieldDefModel>, name: Seq<char>, i: int) -> Option<u32>
    decreases fields.len() - i,
{
    if i < 0 || i >= fields.len() {
        None
    } else if fields[i].name == name {
        Some(i as u32)
    } else {
        field_pos(fields, name, i + 1)
    }
}

impl SchemaModel {
    /// The id of the named field, if declared.
    pub open spec fn spec_get_field(self, name: Seq<char>) -> Option<u32> {
        field_pos(self.fields, name, 0)
    }
}

impl Schema {
    /// Look a field up by name; returns its id.
    pub fn get_field(&self, name: &str) -> (r: Option<u32>)
        requires
            self.fields@.len() <= u32::MAX,
        ensures
            r == self.deep_view().spec_get_field(name@),
            r is Some ==> (r->0 as int) < self.fields@.len(),
    {
        let n = self.fields.len();
        let mut i: usize = 0;
        while i < n
            invariant
                0 <= i <= n == self.fields@.len() <= u32::MAX,
                field_pos(self.deep_view().fields, name@, 0) == field_pos(
                    self.deep_view().fields,
                    name@,
                    i as int,
                ),
            decreases n - i,
        {
            if str_eq(self.fields[i].name.as_str(), name) {
                return Some(i as u32);
            }
            i = i + 1;
        }
        None
    }
}

/// The schema of the reference contract: `title` and `body`, both indexed
/// and stored.
pub open spec fn spec_default_schema() -> SchemaModel {
    SchemaModel {
        fields: seq![
            FieldDefModel { name: "title"@, indexed: true, stored: true },
            FieldDefModel { name: "body"@, indexed: true, stored: true },
        ],
    }
}

/// Build the default schema: `title` and `body`, both indexed and stored.
pub fn default_schema() -> (r: Schema)
    ensures
        r.deep_view() == spec_default_schema(),
        r.fields@.len() == 2,
{
    let mut fields: Vec<FieldDef> = Vec::new();
    fields.push(FieldDef { name: String::from_str("title"), indexed: true, stored: true });
    fields.push(FieldDef { name: String::from_str("body"), indexed: true, stored: true });
    let r = Schema { fields };
    proof {
        assert(r.deep_view().fields =~= spec_default_schema().fields);
    }
    r
}

} // verus!
