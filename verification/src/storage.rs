//! The form in which a node is handed to a codec: attributes, contents and
//! child elements, each under a name.

use crate::model::{lemma_views, views};
use crate::note::accidental::Accidental;
use vstd::prelude::*;
use vstd::string::StringExecFns;

verus! {

/// A node as a codec takes it: named attributes, named contents, and named
/// child elements of the same form.
#[derive(Debug)]
pub struct SerializedItem {
    pub attributes: Vec<(String, String)>,
    pub contents: Vec<(String, String)>,
    pub elements: Vec<(String, SerializedItem)>,
}

impl Accidental {
    /// The attributes of the accidental as a codec takes them: its symbol
    /// as its type, and nothing where no accidental is written.
    pub open spec fn attributes(self) -> Seq<(Seq<char>, Seq<char>)> {
        match self {
            Accidental::Unmarked => Seq::empty(),
            _ => seq![("type"@, self.symbol())],
        }
    }

    /// The accidental in the form in which a codec takes it.
    pub fn serialize(&self) -> (r: SerializedItem)
        ensures
            views(r.attributes@) == self.attributes(),
            r.contents@.len() == 0,
            r.elements@.len() == 0,
    {
        let mut attributes: Vec<(String, String)> = Vec::new();
        match self {
            Accidental::Unmarked => {
                proof {
                    assert(views(attributes@) =~= Seq::empty());
                }
            },
            _ => {
                let entry = (String::from_str("type"), self.to_string());
                proof {
                    lemma_views(attributes@, 0, entry);
                    assert(views(attributes@.push(entry)) =~= seq![("type"@, self.symbol())]);
                }
                attributes.push(entry);
            },
        }
        SerializedItem { attributes, contents: Vec::new(), elements: Vec::new() }
    }
}

} // verus!
