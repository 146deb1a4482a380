use vstd::prelude::*;

verus! {

/// A leaf of the tree: a file with a name and no children.
pub struct File {
    pub name: String,
}

/// An inner node: a folder with a name and an ordered list of entries.
pub struct Folder {
    pub name: String,
    pub entries: Vec<Entry>,
}

/// One node of the tree.
pub enum Entry {
    File(File),
    Folder(Folder),
}

/// The top of the tree: an unnamed container of top-level entries.
pub struct Content {
    pub entries: Vec<Entry>,
}

impl Entry {
    /// The entry's display name.
    pub open spec fn name_of(self) -> Seq<char> {
        match self {
            Entry::File(f) => f.name@,
            Entry::Folder(f) => f.name@,
        }
    }

    /// The entries directly below this one; a file has none.
    pub open spec fn children(self) -> Seq<Entry> {
        match self {
            Entry::File(_) => Seq::empty(),
            Entry::Folder(f) => f.entries@,
        }
    }

    /// The entry's name, whichever kind it is.
    pub fn name(&self) -> (r: &String)
        ensures
            r@ == self.name_of(),
    {
        match self {
            Entry::File(f) => &f.name,
            Entry::Folder(f) => &f.name,
        }
    }
}

} // verus!
