use vstd::prelude::*;

verus! {

/// The content of a file.
#[derive(Debug, PartialEq, Eq, Clone)]
pub struct Blob {
    pub data: Vec<u8>,
}

impl Blob {
    pub fn new(data: Vec<u8>) -> (r: Blob)
        ensures
            r.data@ == data@,
    {
        Blob { data }
    }

    /// A copy with the same content.
    pub fn duplicate(&self) -> (r: Blob)
        ensures
            r.data@ == self.data@,
    {
        Blob { data: crate::bytes::to_vec(self.data.as_slice()) }
    }
}

} // verus!
