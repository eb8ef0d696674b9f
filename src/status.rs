use vstd::prelude::*;

use crate::text::text_is;

verus! {

/// The lifecycle partition an entry is stored under.
#[derive(Clone, Copy, Debug, PartialEq, Eq, Structural)]
pub enum Status {
    Ranked,
    Loved,
    Qualified,
    Graveyard,
}

/// The name the remote service and the store use for a partition.
pub open spec fn status_name(s: Status) -> Seq<char> {
    match s {
        Status::Ranked => seq!['r', 'a', 'n', 'k', 'e', 'd'],
        Status::Loved => seq!['l', 'o', 'v', 'e', 'd'],
        Status::Qualified => seq!['q', 'u', 'a', 'l', 'i', 'f', 'i', 'e', 'd'],
        Status::Graveyard => seq!['g', 'r', 'a', 'v', 'e', 'y', 'a', 'r', 'd'],
    }
}

/// Partition routing: the three tracked names select their own partition,
/// every other name falls into the graveyard.
pub open spec fn partition_of(name: Seq<char>) -> Status {
    if name == status_name(Status::Ranked) {
        Status::Ranked
    } else if name == status_name(Status::Loved) {
        Status::Loved
    } else if name == status_name(Status::Qualified) {
        Status::Qualified
    } else {
        Status::Graveyard
    }
}

/// Entries of these partitions have their assets downloaded.
pub open spec fn downloadable(s: Status) -> bool {
    s == Status::Ranked || s == Status::Loved
}

impl Status {
    /// The partition a status name is stored under (unknown names go to the graveyard).
    pub fn from_name(name: &str) -> (r: Status)
        ensures
            r == partition_of(name@),
    {
        proof {
            reveal_strlit("ranked");
            reveal_strlit("loved");
            reveal_strlit("qualified");
            assert("ranked"@ =~= status_name(Status::Ranked));
            assert("loved"@ =~= status_name(Status::Loved));
            assert("qualified"@ =~= status_name(Status::Qualified));
        }
        if text_is(name, "ranked") {
            Status::Ranked
        } else if text_is(name, "loved") {
            Status::Loved
        } else if text_is(name, "qualified") {
            Status::Qualified
        } else {
            Status::Graveyard
        }
    }

    /// The partition's name.
    pub fn name(&self) -> (r: &'static str)
        ensures
            r@ == status_name(*self),
    {
        proof {
            reveal_strlit("ranked");
            reveal_strlit("loved");
            reveal_strlit("qualified");
            reveal_strlit("graveyard");
        }
        match self {
            Status::Ranked => "ranked",
            Status::Loved => "loved",
            Status::Qualified => "qualified",
            Status::Graveyard => "graveyard",
        }
    }

    /// Whether entries of this partition are downloaded (ranked and loved only).
    pub fn is_downloadable(&self) -> (r: bool)
        ensures
            r == downloadable(*self),
    {
        match self {
            Status::Ranked | Status::Loved => true,
            _ => false,
        }
    }

    /// Whether an entry whose status field reads `name` belongs to this partition,
    /// that is, whether the name is exactly this partition's name.
    pub fn matches(&self, name: &str) -> (r: bool)
        ensures
            r == (name@ == status_name(*self)),
    {
        text_is(name, self.name())
    }
}

/// The name of a partition is routed back to the same partition.
pub proof fn lemma_name_routes_back(s: Status)
    ensures
        partition_of(status_name(s)) == s,
{
    assert(status_name(Status::Loved) != status_name(Status::Ranked));
    assert(status_name(Status::Qualified) != status_name(Status::Ranked));
    assert(status_name(Status::Qualified) != status_name(Status::Loved));
    assert(status_name(Status::Graveyard) != status_name(Status::Ranked));
    assert(status_name(Status::Graveyard) != status_name(Status::Loved));
    assert(status_name(Status::Graveyard) != status_name(Status::Qualified));
}

/// An entry whose status is not one of the three tracked names is stored in
/// the graveyard and in no other partition.
pub proof fn lemma_untracked_goes_to_graveyard(name: Seq<char>)
    requires
        name != status_name(Status::Ranked),
        name != status_name(Status::Loved),
        name != status_name(Status::Qualified),
    ensures
        partition_of(name) == Status::Graveyard,
{
}

} // verus!
