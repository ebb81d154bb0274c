//! The walk over a store's directories that finds its entries.

use vstd::prelude::*;
use vstd::string::*;

use crate::components;
use crate::error;
use crate::error::Error;
use crate::name::Name;
use crate::order;
use crate::paths;
use crate::plan;
use crate::store;
use crate::store::Store;
use crate::text;

verus! {

// ---------------------------------------------------------------------------
// What a directory holds

pub enum Kind {
    Dir,
    Other,
    /// The operating system does not say; with its reason.
    Failed(String),
}

/// One thing in a directory, as the operating system lists it.
pub enum Item {
    Found { file_name: Vec<u8>, kind: Kind },
    /// The listing broke off; with the reason.
    Failed(String),
}

/// What listing a directory gave. A directory that vanished holds nothing.
pub enum Listing {
    Items(Vec<Item>),
    Missing,
    Failed(String),
}

/// What a visit to one thing comes to.
pub enum Visit {
    Skip,
    Enter(Seq<u8>),
    Entry(Seq<char>),
    Fault(Seq<char>),
}

/// Whether a walk looks at things of this name: those whose name is text and does
/// not start with a dot.
pub open spec fn of_interest(file_name: Seq<u8>) -> bool {
    vstd::utf8::valid_utf8(file_name) && !(file_name.len() > 0 && file_name[0] == components::DOT)
}

/// What one thing in a directory comes to. What is neither a directory nor the
/// file of an entry is skipped: the store may sit next to unrelated files.
pub open spec fn visit(root: Seq<u8>, dir: Seq<u8>, item: Item) -> Visit {
    match item {
        Item::Failed(reason) => Visit::Fault(reason@),
        Item::Found { file_name, kind } => if !of_interest(file_name@) {
            Visit::Skip
        } else {
            match kind {
                Kind::Failed(reason) => Visit::Fault(reason@),
                Kind::Dir => Visit::Enter(paths::joined(dir, file_name@)),
                Kind::Other => match store::name_at(root, paths::joined(dir, file_name@)) {
                    Some(name) => Visit::Entry(name),
                    None => Visit::Skip,
                },
            }
        },
    }
}

/// The directories that some things lead to.
pub open spec fn entered(root: Seq<u8>, dir: Seq<u8>, items: Seq<Item>) -> Seq<Seq<u8>>
    decreases items.len(),
{
    if items.len() == 0 {
        Seq::empty()
    } else {
        let rest = entered(root, dir, items.drop_last());
        match visit(root, dir, items.last()) {
            Visit::Enter(path) => rest.push(path),
            _ => rest,
        }
    }
}

/// The entries among some things.
pub open spec fn found(root: Seq<u8>, dir: Seq<u8>, items: Seq<Item>) -> Seq<Seq<char>>
    decreases items.len(),
{
    if items.len() == 0 {
        Seq::empty()
    } else {
        let rest = found(root, dir, items.drop_last());
        match visit(root, dir, items.last()) {
            Visit::Entry(name) => rest.push(name),
            _ => rest,
        }
    }
}

/// The first fault among some things.
pub open spec fn first_fault(root: Seq<u8>, dir: Seq<u8>, items: Seq<Item>) -> Option<Seq<char>>
    decreases items.len(),
{
    if items.len() == 0 {
        None
    } else {
        match first_fault(root, dir, items.drop_last()) {
            Some(message) => Some(message),
            None => match visit(root, dir, items.last()) {
                Visit::Fault(message) => Some(message),
                _ => None,
            },
        }
    }
}

// ---------------------------------------------------------------------------
// The walk

/// Where a walk stands: the directories still to be listed, and the names found.
pub struct Trail {
    pub pending: Seq<Seq<u8>>,
    pub names: Seq<Seq<char>>,
}

/// Where a walk stands after listing the last of its directories.
pub open spec fn after_listing(root: Seq<u8>, trail: Trail, listing: Listing) -> Result<
    Trail,
    Seq<char>,
> {
    let dir = trail.pending.last();
    let pending = trail.pending.drop_last();
    match listing {
        Listing::Missing => Ok(Trail { pending, ..trail }),
        Listing::Failed(reason) => Err(error::at_text("listing "@, dir, reason@)),
        Listing::Items(items) => match first_fault(root, dir, items@) {
            Some(message) => Err(message),
            None => Ok(
                Trail {
                    pending: pending + entered(root, dir, items@),
                    names: trail.names + found(root, dir, items@),
                },
            ),
        },
    }
}

/// A walk over the directories of a store.
pub struct Walk {
    root: Store,
    pending: Vec<Vec<u8>>,
    names: Vec<Name>,
}

impl View for Walk {
    type V = Trail;

    closed spec fn view(&self) -> Trail {
        Trail { pending: plan::views(self.pending@), names: order::texts(self.names@) }
    }
}

impl Walk {
    pub closed spec fn root(&self) -> Seq<u8> {
        self.root@
    }

    /// A walk that starts at the store directory.
    pub fn begin(store: &Store) -> (r: Walk)
        ensures
            r.root() == store@,
            r@ == (Trail { pending: seq![store@], names: Seq::empty() }),
    {
        let mut pending: Vec<Vec<u8>> = Vec::new();
        pending.push(text::copy_of(store.dir()));
        let names: Vec<Name> = Vec::new();
        proof {
            assert(plan::views(pending@) =~= seq![store@]);
            assert(order::texts(names@) =~= Seq::empty());
        }
        Walk { root: Store::open(text::copy_of(store.dir())), pending, names }
    }

    /// The next directory to list, until there is none.
    pub fn next(&self) -> (r: Option<&[u8]>)
        ensures
            match r {
                Some(dir) => self@.pending.len() > 0 && dir@ == self@.pending.last(),
                None => self@.pending.len() == 0,
            },
    {
        let count: usize = self.pending.len();
        if count == 0 {
            None
        } else {
            Some(self.pending[count - 1].as_slice())
        }
    }

    /// Take in what listing the next directory gave.
    pub fn visit(self, listing: &Listing) -> (r: Result<Walk, Error>)
        requires
            self@.pending.len() > 0,
        ensures
            match after_listing(self.root(), self@, *listing) {
                Ok(trail) => r matches Ok(walk) && walk@ == trail && walk.root() == self.root(),
                Err(message) => r matches Err(e) && e@ == message,
            },
    {
        let ghost trail = self@;
        let mut walk: Walk = self;
        let dir: Vec<u8> = match walk.pending.pop() {
            Some(dir) => dir,
            None => {
                return Ok(walk);
            },
        };
        proof {
            assert(dir@ == trail.pending.last());
            assert(walk@.pending =~= trail.pending.drop_last());
        }
        match listing {
            Listing::Missing => Ok(walk),
            Listing::Failed(reason) => Err(
                Error::at("listing ", dir.as_slice(), reason.as_str()),
            ),
            Listing::Items(items) => walk.take_in(dir.as_slice(), items.as_slice()),
        }
    }

    fn take_in(self, dir: &[u8], items: &[Item]) -> (r: Result<Walk, Error>)
        ensures
            match first_fault(self.root(), dir@, items@) {
                Some(message) => r matches Err(e) && e@ == message,
                None => r matches Ok(walk) && walk.root() == self.root() && walk@.pending
                    == self@.pending + entered(self.root(), dir@, items@) && walk@.names
                    == self@.names + found(self.root(), dir@, items@),
            },
    {
        let ghost trail = self@;
        let ghost root = self.root();
        let mut walk: Walk = self;
        let mut i: usize = 0;
        proof {
            assert(items@.take(0) =~= Seq::<Item>::empty());
            assert(walk@.pending =~= trail.pending + entered(root, dir@, items@.take(0)));
            assert(walk@.names =~= trail.names + found(root, dir@, items@.take(0)));
        }
        while i < items.len()
            invariant
                i <= items@.len(),
                walk.root() == root,
                root == self.root(),
                first_fault(root, dir@, items@.take(i as int)) is None,
                walk@.pending == trail.pending + entered(root, dir@, items@.take(i as int)),
                walk@.names == trail.names + found(root, dir@, items@.take(i as int)),
            decreases items@.len() - i,
        {
            let ghost before = walk@;
            proof {
                assert(items@.take(i + 1).drop_last() =~= items@.take(i as int));
                assert(items@.take(i + 1).last() == items@[i as int]);
                a_fault_stays_first(root, dir@, items@, i + 1);
            }
            match &items[i] {
                Item::Failed(reason) => {
                    return Err(Error::of(reason.as_str()));
                },
                Item::Found { file_name, kind } => {
                    if interests(file_name.as_slice()) {
                        match kind {
                            Kind::Failed(reason) => {
                                return Err(Error::of(reason.as_str()));
                            },
                            Kind::Dir => {
                                walk.pending.push(paths::join(dir, file_name.as_slice()));
                                proof {
                                    assert(walk@.pending =~= before.pending.push(
                                        paths::joined(dir@, file_name@),
                                    ));
                                }
                            },
                            Kind::Other => {
                                let path: Vec<u8> = paths::join(dir, file_name.as_slice());
                                match walk.root.name_of(path.as_slice()) {
                                    Some(name) => {
                                        let ghost text = name@;
                                        walk.names.push(name);
                                        proof {
                                            assert(walk@.names =~= before.names.push(text));
                                        }
                                    },
                                    None => {},
                                }
                            },
                        }
                    }
                },
            }
            i = i + 1;
            proof {
                assert(walk@.pending =~= trail.pending + entered(
                    root,
                    dir@,
                    items@.take(i as int),
                ));
                assert(walk@.names =~= trail.names + found(root, dir@, items@.take(i as int)));
            }
        }
        proof {
            assert(items@.take(i as int) =~= items@);
        }
        Ok(walk)
    }

    /// The names that were found, in order.
    pub fn finish(self) -> (r: Vec<Name>)
        ensures
            order::ascending(order::texts(r@)),
            order::texts(r@).to_multiset() == self@.names.to_multiset(),
    {
        order::sorted(self.names)
    }
}

/// Later things do not change the first fault.
proof fn a_fault_stays_first(root: Seq<u8>, dir: Seq<u8>, items: Seq<Item>, i: int)
    requires
        0 <= i <= items.len(),
    ensures
        first_fault(root, dir, items.take(i)) is Some ==> first_fault(root, dir, items)
            == first_fault(root, dir, items.take(i)),
    decreases items.len() - i,
{
    if i < items.len() {
        a_fault_stays_first(root, dir, items, i + 1);
        assert(items.take(i + 1).drop_last() =~= items.take(i));
    } else {
        assert(items.take(i) =~= items);
    }
}

fn interests(file_name: &[u8]) -> (r: bool)
    ensures
        r == of_interest(file_name@),
{
    match text::decode(file_name) {
        Err(_) => false,
        Ok(_) => !(file_name.len() > 0 && file_name[0] == components::DOT),
    }
}

} // verus!
