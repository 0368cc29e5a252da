use vstd::prelude::*;

verus! {

/// A customer's placement in a route: the customer number and the demand that
/// serving the customer takes from the vehicle.
///
/// Two stops are equal when they name the same customer, whatever demand they
/// carry.
#[derive(Clone, Copy, Debug, Hash)]
pub struct Stop {
    cust_no: u16,
    capacity: usize,
}

impl PartialEq for Stop {
    fn eq(&self, other: &Self) -> (r: bool) {
        self.cust_no == other.cust_no
    }
}

impl Eq for Stop {

}

impl vstd::std_specs::cmp::PartialEqSpecImpl for Stop {
    open spec fn obeys_eq_spec() -> bool {
        true
    }

    open spec fn eq_spec(&self, other: &Self) -> bool {
        self.spec_cust_no() == other.spec_cust_no()
    }
}

impl Stop {
    /// The number of the customer.
    pub closed spec fn spec_cust_no(&self) -> u16 {
        self.cust_no
    }

    /// The demand of the customer.
    pub closed spec fn spec_capacity(&self) -> usize {
        self.capacity
    }

    /// The stop of customer `cust_no` with demand `capacity`.
    pub closed spec fn spec_new(cust_no: u16, capacity: usize) -> Stop {
        Stop { cust_no, capacity }
    }

    /// The stop made of a customer number and a demand holds them.
    pub proof fn lemma_spec_new(cust_no: u16, capacity: usize)
        ensures
            Self::spec_new(cust_no, capacity).spec_cust_no() == cust_no,
            Self::spec_new(cust_no, capacity).spec_capacity() == capacity,
    {
    }

    /// A stop is determined by its customer number and its demand.
    pub proof fn lemma_stop_ext(a: Stop, b: Stop)
        requires
            a.spec_cust_no() == b.spec_cust_no(),
            a.spec_capacity() == b.spec_capacity(),
        ensures
            a == b,
    {
    }

    /// The stop of customer `cust_no` with demand `capacity`.
    pub fn new(cust_no: u16, capacity: usize) -> (s: Stop)
        ensures
            s == Self::spec_new(cust_no, capacity),
            s.spec_cust_no() == cust_no,
            s.spec_capacity() == capacity,
    {
        Stop { cust_no, capacity }
    }

    /// The number of the customer.
    #[verifier::when_used_as_spec(spec_cust_no)]
    pub fn cust_no(&self) -> (c: u16)
        ensures
            c == self.spec_cust_no(),
    {
        self.cust_no
    }

    /// The demand of the customer.
    #[verifier::when_used_as_spec(spec_capacity)]
    pub fn capacity(&self) -> (c: usize)
        ensures
            c == self.spec_capacity(),
    {
        self.capacity
    }
}

} // verus!
