use vstd::prelude::*;

verus! {

/// The port the server listens on where none is given.
pub const RQUE_DEFAULT_PORT: u16 = 8080;

/// Why a request was turned down.
#[derive(Clone, Copy, Debug, PartialEq, Eq, Structural)]
pub enum Fault {
    /// The request did not carry the secret key.
    Unauthorized,
    /// The store holds no group.
    ZeroGroups,
    /// No group goes by the given name.
    GroupNotFound,
    /// The group holds no item.
    GroupEmpty,
    /// No item stands at the given index.
    ItemNotFound,
    /// The item is empty, or its head is taken.
    ItemNotValid,
    /// The range selects nothing.
    Slice,
    /// The list of items to add is empty.
    EmptyList,
    /// None of the items could be added.
    AllInvalid,
    /// A refusal that carries no description.
    Unexplained,
}

/// The text that goes with each refusal.
pub open spec fn fault_msg(f: Fault) -> Seq<char> {
    match f {
        Fault::Unauthorized => ""@,
        Fault::ZeroGroups => "There are no groups yet"@,
        Fault::GroupNotFound => "The specified group does not exist"@,
        Fault::GroupEmpty => "The specified group is empty"@,
        Fault::ItemNotFound => "The item that correspond the specified index does not exist"@,
        Fault::ItemNotValid => "The provided item is not valid"@,
        Fault::Slice => "Try lowering the starting index"@,
        Fault::EmptyList => "The provided list of items is empty"@,
        Fault::AllInvalid => "The provided items are all invalid"@,
        Fault::Unexplained => ""@,
    }
}

impl Fault {
    /// The description of the refusal.
    pub fn msg(&self) -> (m: &'static str)
        ensures
            m@ == fault_msg(*self),
    {
        match self {
            Fault::Unauthorized => "",
            Fault::ZeroGroups => "There are no groups yet",
            Fault::GroupNotFound => "The specified group does not exist",
            Fault::GroupEmpty => "The specified group is empty",
            Fault::ItemNotFound => "The item that correspond the specified index does not exist",
            Fault::ItemNotValid => "The provided item is not valid",
            Fault::Slice => "Try lowering the starting index",
            Fault::EmptyList => "The provided list of items is empty",
            Fault::AllInvalid => "The provided items are all invalid",
            Fault::Unexplained => "",
        }
    }
}

/// A refused request: the HTTP status and the reason.
#[derive(Clone, Copy, Debug, PartialEq, Eq, Structural)]
pub struct Failure {
    pub status: u16,
    pub fault: Fault,
}

} // verus!
