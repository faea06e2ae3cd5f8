//! The field schema registry: a declaration of field-name/type-keyword pairs
//! is built into a read-only schema that describes each field's kind with its
//! default contents. A schema describes shape only; it never copies values
//! from any real entry.

use vstd::prelude::*;
use crate::metadata::EntryMetadata;

verus! {

/// A date-set slot: creation, update, due and resolution times, each a whole
/// number of seconds.
#[derive(PartialEq, Debug)]
pub struct EntryDate {
    pub created: u64,
    pub updated: u64,
    pub due_date: u64,
    pub resolution_date: u64,
}

impl Default for EntryDate {
    /// All four times zero.
    fn default() -> (r: EntryDate)
        ensures
            r.created == 0,
            r.updated == 0,
            r.due_date == 0,
            r.resolution_date == 0,
    {
        EntryDate { created: 0, updated: 0, due_date: 0, resolution_date: 0 }
    }
}

/// An author slot: a name and an e-mail address.
#[derive(PartialEq, Debug)]
pub struct Author {
    pub name: String,
    pub email: String,
}

impl Default for Author {
    /// Empty name and e-mail.
    fn default() -> (r: Author)
        ensures
            r.name@ == Seq::<char>::empty(),
            r.email@ == Seq::<char>::empty(),
    {
        Author { name: String::new(), email: String::new() }
    }
}

/// The declared kind of one schema slot, with its default contents.
#[derive(PartialEq, Debug)]
pub enum FieldKind {
    Text(String),
    Title(String),
    Tagged(Vec<String>),
    Author(Author),
    EntryDate(EntryDate),
    Unknown(String),
}

/// Which `FieldKind` a type keyword selects: the recognized keywords map to
/// their kinds (text and title slots keep the keyword string as placeholder
/// contents, tag lists start empty, author and date slots start zeroed), and
/// any other keyword degrades to `Unknown` carrying the raw keyword.
pub open spec fn kind_matches(keyword: Seq<char>, k: FieldKind) -> bool {
    if keyword == "Text"@ {
        k matches FieldKind::Text(s) && s@ == keyword
    } else if keyword == "Title"@ {
        k matches FieldKind::Title(s) && s@ == keyword
    } else if keyword == "Tagged"@ {
        k matches FieldKind::Tagged(tags) && tags@.len() == 0
    } else if keyword == "Author"@ {
        k matches FieldKind::Author(a) && a.name@.len() == 0 && a.email@.len() == 0
    } else if keyword == "EntryDate"@ {
        k matches FieldKind::EntryDate(d) && d.created == 0 && d.updated == 0 && d.due_date == 0
            && d.resolution_date == 0
    } else {
        k matches FieldKind::Unknown(s) && s@ == keyword
    }
}

/// The position of the first slot named `k`, or `fs.len()` if none is.
pub open spec fn field_index(fs: Seq<(String, FieldKind)>, k: Seq<char>) -> int
    decreases fs.len(),
{
    if fs.len() == 0 {
        0
    } else if fs[0].0@ == k {
        0
    } else {
        1 + field_index(fs.drop_first(), k)
    }
}

pub proof fn lemma_field_index_props(fs: Seq<(String, FieldKind)>, k: Seq<char>)
    ensures
        0 <= field_index(fs, k) <= fs.len(),
        field_index(fs, k) < fs.len() ==> fs[field_index(fs, k)].0@ == k,
        forall|i: int| 0 <= i < field_index(fs, k) ==> fs[i].0@ != k,
    decreases fs.len(),
{
    if fs.len() == 0 {
    } else if fs[0].0@ == k {
    } else {
        lemma_field_index_props(fs.drop_first(), k);
        let fi = field_index(fs.drop_first(), k);
        if fi < fs.drop_first().len() {
            assert(fs.drop_first()[fi] == fs[1 + fi]);
        }
        assert forall|i: int| 0 <= i < field_index(fs, k) implies fs[i].0@ != k by {
            if i > 0 {
                assert(fs.drop_first()[i - 1] == fs[i]);
            }
        }
    }
}

/// `field_index` is exactly the first position named `k`.
pub proof fn lemma_field_index_first(fs: Seq<(String, FieldKind)>, k: Seq<char>, i: int)
    requires
        0 <= i < fs.len(),
        fs[i].0@ == k,
        forall|j: int| 0 <= j < i ==> fs[j].0@ != k,
    ensures
        field_index(fs, k) == i,
{
    lemma_field_index_props(fs, k);
}

/// A custom entry type: an ordered mapping from field name to declared kind,
/// immutable after construction.
pub struct CustomType {
    pub fields: Vec<(String, FieldKind)>,
}

impl View for CustomType {
    type V = Seq<(String, FieldKind)>;

    open spec fn view(&self) -> Seq<(String, FieldKind)> {
        self.fields@
    }
}

impl CustomType {
    /// Builds a schema from a declaration: one slot per declared pair, in
    /// declaration order, each keyword resolved to its kind.
    pub fn from(map: EntryMetadata) -> (r: CustomType)
        ensures
            r@.len() == map@.len(),
            forall|i: int|
                0 <= i < map@.len() ==> r@[i].0@ == map@[i].0 && kind_matches(map@[i].1, r@[i].1),
    {
        let mut fields: Vec<(String, FieldKind)> = Vec::new();
        let n = map.len();
        let mut i: usize = 0;
        while i < n
            invariant
                n == map@.len(),
                i <= n,
                fields@.len() == i,
                forall|j: int|
                    0 <= j < i ==> fields@[j].0@ == map@[j].0 && kind_matches(
                        map@[j].1,
                        fields@[j].1,
                    ),
            decreases n - i,
        {
            let p = map.pair(i);
            let kind = Self::parse_field_type(p.1.clone());
            fields.push((p.0.clone(), kind));
            i = i + 1;
        }
        CustomType { fields }
    }

    /// Looks a slot up by field name; an absent name yields `None`.
    pub fn field(&self, text: &str) -> (r: Option<&FieldKind>)
        ensures
            match r {
                Some(k) => field_index(self@, text@) < self@.len() && *k == self@[field_index(
                    self@,
                    text@,
                )].1,
                None => field_index(self@, text@) == self@.len(),
            },
    {
        proof {
            lemma_field_index_props(self@, text@);
        }
        let n = self.fields.len();
        let mut i: usize = 0;
        while i < n
            invariant
                n == self@.len(),
                i <= n,
                forall|j: int| 0 <= j < i ==> self@[j].0@ != text@,
            decreases n - i,
        {
            if crate::metadata::str_eq(self.fields[i].0.as_str(), text) {
                proof {
                    lemma_field_index_first(self@, text@, i as int);
                }
                return Some(&self.fields[i].1);
            }
            i = i + 1;
        }
        proof {
            lemma_field_index_props(self@, text@);
        }
        None
    }

    /// The declared field names, in declaration order.
    pub fn keys(&self) -> (r: Vec<String>)
        ensures
            r@.len() == self@.len(),
            forall|i: int| 0 <= i < r@.len() ==> r@[i]@ == self@[i].0@,
    {
        let mut out: Vec<String> = Vec::new();
        let n = self.fields.len();
        let mut i: usize = 0;
        while i < n
            invariant
                n == self@.len(),
                i <= n,
                out@.len() == i,
                forall|j: int| 0 <= j < i ==> out@[j]@ == self@[j].0@,
            decreases n - i,
        {
            out.push(self.fields[i].0.clone());
            i = i + 1;
        }
        out
    }

    /// Resolves one type keyword to the schema slot it declares.
    fn parse_field_type(value: String) -> (r: FieldKind)
        ensures
            kind_matches(value@, r),
    {
        if crate::metadata::str_eq(value.as_str(), "Text") {
            FieldKind::Text(value)
        } else if crate::metadata::str_eq(value.as_str(), "Title") {
            FieldKind::Title(value)
        } else if crate::metadata::str_eq(value.as_str(), "Tagged") {
            FieldKind::Tagged(Vec::new())
        } else if crate::metadata::str_eq(value.as_str(), "Author") {
            FieldKind::Author(Author::default())
        } else if crate::metadata::str_eq(value.as_str(), "EntryDate") {
            FieldKind::EntryDate(EntryDate::default())
        } else {
            FieldKind::Unknown(value)
        }
    }
}

} // verus!
