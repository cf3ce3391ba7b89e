//! Restrictions: a cap on how many candidates of one group may be elected.
use vstd::prelude::*;

verus! {

/// A named group of candidates of which only so many may still be elected.
pub struct Restriction {
    group_name: String,
    limit: usize,
    pub members: Vec<usize>,
}

/// The mathematical content of a [`Restriction`].
#[verifier::ext_equal]
pub struct RestrictionView {
    pub name: Seq<char>,
    /// How many members may still be elected.
    pub limit: usize,
    /// The ids of the members, in the order in which they were given.
    pub members: Seq<usize>,
}

impl RestrictionView {
    /// The restriction after one of its members was elected.
    pub open spec fn decremented(self) -> RestrictionView {
        RestrictionView {
            limit: if self.limit == 0 {
                0
            } else {
                (self.limit - 1) as usize
            },
            ..self
        }
    }
}

impl View for Restriction {
    type V = RestrictionView;

    closed spec fn view(&self) -> RestrictionView {
        RestrictionView { name: self.group_name@, limit: self.limit, members: self.members@ }
    }
}

impl Restriction {
    /// A restriction that lets `limit` of its members be elected. A limit of
    /// zero restricts nothing that could be counted and is not accepted.
    pub fn new(group_name: String, limit: usize, members: Vec<usize>) -> (r: Self)
        requires
            limit != 0,
        ensures
            r@ == (RestrictionView { name: group_name@, limit, members: members@ }),
    {
        Self { group_name, limit, members }
    }

    pub fn group_name(&self) -> (r: &str)
        ensures
            r@ == self@.name,
    {
        self.group_name.as_str()
    }

    pub fn limit(&self) -> (r: usize)
        ensures
            r == self@.limit,
    {
        self.limit
    }

    /// Takes one off the limit, which never falls below zero.
    pub fn decrement(&mut self)
        ensures
            final(self)@ == old(self)@.decremented(),
    {
        if self.limit() != 0 {
            self.limit -= 1;
        }
    }

    pub fn members(&self) -> (r: &Vec<usize>)
        ensures
            r@ == self@.members,
    {
        &self.members
    }
}

} // verus!
