//! What passes between the library and the file system: what was found there,
//! and what is to be changed. The library itself touches no file.

use vstd::prelude::*;
use vstd::string::*;

use crate::name::Name;
use crate::order;
use crate::text;

verus! {

/// Everything keyjar creates is for its owner alone.
pub const FILE_MODE: u32 = 0o600;

pub const DIR_MODE: u32 = 0o700;

// ---------------------------------------------------------------------------
// What was found

/// What reading a file gave. The texts are the operating system's own words.
pub enum FileRead {
    Bytes(Vec<u8>),
    Missing(String),
    Failed(String),
}

/// The mathematical side of `FileRead`.
pub enum Sight {
    Bytes(Seq<u8>),
    Missing(Seq<char>),
    Failed(Seq<char>),
}

impl View for FileRead {
    type V = Sight;

    open spec fn view(&self) -> Sight {
        match self {
            FileRead::Bytes(bytes) => Sight::Bytes(bytes@),
            FileRead::Missing(reason) => Sight::Missing(reason@),
            FileRead::Failed(reason) => Sight::Failed(reason@),
        }
    }
}

/// A file that was read, by its path.
pub struct Found {
    pub path: Vec<u8>,
    pub read: FileRead,
}

/// What was found in a store, all of it while the store was locked: whether its
/// directory is there, whether its marker is there, the names of its entries in
/// order, and the files that were read. A file that nobody read counts as missing.
/// A marker that cannot be looked up is not there, though reading it fails for
/// another reason than that it is missing.
pub struct Seen {
    pub exists: bool,
    pub marker: bool,
    pub names: Result<Vec<Name>, String>,
    pub files: Vec<Found>,
}

/// What was found at `path`: by the first of the files that has this path.
pub open spec fn look_up(files: Seq<Found>, path: Seq<u8>) -> Sight
    decreases files.len(),
{
    if files.len() == 0 {
        Sight::Missing(Seq::empty())
    } else if files[0].path@ == path {
        files[0].read@
    } else {
        look_up(files.drop_first(), path)
    }
}

impl Seen {
    pub open spec fn file(&self, path: Seq<u8>) -> Sight {
        look_up(self.files@, path)
    }

    pub open spec fn listing(&self) -> Result<Seq<Seq<char>>, Seq<char>> {
        match self.names {
            Ok(names) => Ok(order::texts(names@)),
            Err(reason) => Err(reason@),
        }
    }

    /// What was found at a path.
    pub fn look<'a>(&'a self, path: &[u8]) -> (r: Option<&'a FileRead>)
        ensures
            match r {
                Some(read) => read@ == self.file(path@),
                None => self.file(path@) == Sight::Missing(Seq::empty()),
            },
    {
        let mut i: usize = 0;
        proof {
            assert(self.files@.skip(0) =~= self.files@);
        }
        while i < self.files.len()
            invariant
                i <= self.files@.len(),
                self.file(path@) == look_up(self.files@.skip(i as int), path@),
            decreases self.files@.len() - i,
        {
            proof {
                assert(self.files@.skip(i as int).drop_first() =~= self.files@.skip(i + 1));
            }
            if text::same_bytes(self.files[i].path.as_slice(), path) {
                return Some(&self.files[i].read);
            }
            i = i + 1;
        }
        None
    }
}

// ---------------------------------------------------------------------------
// What is to be changed

/// A change to the file system. `Create`, `Replace` and `Rename` make the parent
/// directories that are missing, and take effect in one step: nobody sees half a
/// file. `Create` does not touch a file that is there already; `RemoveDir` does
/// not touch a directory that holds something.
pub enum Change {
    Create { path: Vec<u8>, bytes: Vec<u8> },
    Replace { path: Vec<u8>, bytes: Vec<u8> },
    Rename { from: Vec<u8>, to: Vec<u8> },
    Remove { path: Vec<u8> },
    RemoveDir { path: Vec<u8> },
}

/// The mathematical side of `Change`.
pub enum Effect {
    Create { path: Seq<u8>, bytes: Seq<u8> },
    Replace { path: Seq<u8>, bytes: Seq<u8> },
    Rename { from: Seq<u8>, to: Seq<u8> },
    Remove { path: Seq<u8> },
    RemoveDir { path: Seq<u8> },
}

impl View for Change {
    type V = Effect;

    open spec fn view(&self) -> Effect {
        match self {
            Change::Create { path, bytes } => Effect::Create { path: path@, bytes: bytes@ },
            Change::Replace { path, bytes } => Effect::Replace { path: path@, bytes: bytes@ },
            Change::Rename { from, to } => Effect::Rename { from: from@, to: to@ },
            Change::Remove { path } => Effect::Remove { path: path@ },
            Change::RemoveDir { path } => Effect::RemoveDir { path: path@ },
        }
    }
}

impl Change {
    /// The same change.
    pub fn copy(&self) -> (r: Change)
        ensures
            r@ == self@,
    {
        match self {
            Change::Create { path, bytes } => Change::Create {
                path: text::copy_of(path.as_slice()),
                bytes: text::copy_of(bytes.as_slice()),
            },
            Change::Replace { path, bytes } => Change::Replace {
                path: text::copy_of(path.as_slice()),
                bytes: text::copy_of(bytes.as_slice()),
            },
            Change::Rename { from, to } => Change::Rename {
                from: text::copy_of(from.as_slice()),
                to: text::copy_of(to.as_slice()),
            },
            Change::Remove { path } => Change::Remove { path: text::copy_of(path.as_slice()) },
            Change::RemoveDir { path } => Change::RemoveDir {
                path: text::copy_of(path.as_slice()),
            },
        }
    }
}

pub open spec fn effects(changes: Seq<Change>) -> Seq<Effect> {
    changes.map_values(|c: Change| c@)
}

/// How a change went. `Missing`: the file to remove or rename is not there.
/// `Taken`: the file to create is there already. `Failed` holds the reason, with
/// the path it is about.
pub enum Outcome {
    Done,
    Missing,
    Taken,
    Failed(String),
}

} // verus!
