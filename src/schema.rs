use vstd::prelude::*;

verus! {

/// How the payload of a declared field is to be read.
#[derive(Debug)]
pub enum Shape {
    /// An unsigned varint.
    Varint,
    /// Length-delimited raw bytes.
    Bytes,
    /// Length-delimited packed varints.
    Packed,
    /// A length-delimited nested message with its own schema.
    Nested(Schema),
}

/// A tag and the shape of its payload.
#[derive(Debug)]
pub struct SchemaField {
    pub tag: u32,
    pub shape: Shape,
}

/// The fields a decoder knows about. Fields with other tags are skipped.
#[derive(Debug)]
pub struct Schema {
    pub fields: Vec<SchemaField>,
}

/// The shape declared for `tag`: the first declaration that names it.
pub open spec fn shape_of(fields: Seq<SchemaField>, tag: u32) -> Option<Shape>
    decreases fields.len(),
{
    if fields.len() == 0 {
        None
    } else if fields[0].tag == tag {
        Some(fields[0].shape)
    } else {
        shape_of(fields.drop_first(), tag)
    }
}

impl Schema {
    /// The shape declared for `tag`, if any.
    pub fn lookup(&self, tag: u32) -> (r: Option<&Shape>)
        ensures
            match shape_of(self.fields@, tag) {
                None => r is None,
                Some(s) => r matches Some(x) && *x == s,
            },
    {
        let mut i: usize = 0;
        proof {
            assert(self.fields@.skip(0) =~= self.fields@);
        }
        while i < self.fields.len()
            invariant
                i <= self.fields@.len(),
                shape_of(self.fields@, tag) == shape_of(self.fields@.skip(i as int), tag),
            decreases self.fields@.len() - i,
        {
            proof {
                assert(self.fields@.skip(i as int).drop_first() =~= self.fields@.skip(i + 1));
            }
            if self.fields[i].tag == tag {
                return Some(&self.fields[i].shape);
            }
            i = i + 1;
        }
        None
    }
}

} // verus!
