//! A dataset for trials: the payload of a sample is its index, in four
//! bytes, the first counting most.
use crate::dataset::Dataset;
use crate::service::common::{numeric, text_bytes};
use vstd::prelude::*;

verus! {

/// A dataset of `len` samples.
#[derive(Clone, Debug)]
pub struct DummyDataset {
    len: usize,
    name: String,
    id: u32,
}

/// The four bytes of a number of 32 bits, the first counting most.
pub open spec fn be32(idx: u32) -> Seq<u8> {
    seq![
        (idx / 0x100_0000) as u8,
        ((idx / 0x1_0000) % 0x100) as u8,
        ((idx / 0x100) % 0x100) as u8,
        (idx % 0x100) as u8,
    ]
}

/// The dataset `name` of `len` samples, whose identifier is 0.
pub fn new_dummy(len: usize, name: String) -> (r: DummyDataset)
    ensures
        r.spec_len() == len,
        r.spec_id() == 0,
{
    DummyDataset { len, name, id: 0 }
}

impl DummyDataset {
    /// The payload of the sample `idx`.
    pub fn read(&self, idx: u32) -> (r: Vec<u8>)
        ensures
            r@ == be32(idx),
    {
        let mut r: Vec<u8> = Vec::new();
        r.push((idx / 0x100_0000) as u8);
        r.push(((idx / 0x1_0000) % 0x100) as u8);
        r.push(((idx / 0x100) % 0x100) as u8);
        r.push((idx % 0x100) as u8);
        assert(r@ =~= be32(idx));
        r
    }

    /// The first key of each sample: its index in decimal digits.
    pub fn keys(&self) -> (r: Vec<String>)
        ensures
            r@.len() == self.spec_len(),
            forall|k: int|
                0 <= k < r@.len() && k <= u32::MAX ==> numeric(text_bytes((#[trigger] r@[k])@))
                    == Some(k),
    {
        let mut r: Vec<String> = Vec::new();
        let mut i: usize = 0;
        while i < self.len
            invariant
                0 <= i <= self.len,
                r@.len() == i,
                forall|k: int|
                    0 <= k < i && k <= u32::MAX ==> numeric(text_bytes((#[trigger] r@[k])@))
                        == Some(k),
            decreases self.len - i,
        {
            r.push(decimal(i));
            i += 1;
        }
        r
    }
}

impl Dataset for DummyDataset {
    closed spec fn spec_len(&self) -> nat {
        self.len as nat
    }

    closed spec fn spec_id(&self) -> u32 {
        self.id
    }

    fn get_id(&self) -> (r: u32) {
        self.id
    }

    fn get_indices(&self) -> (r: Vec<u32>) {
        let mut r: Vec<u32> = Vec::new();
        let mut i: usize = 0;
        while i < self.len
            invariant
                0 <= i <= self.len,
                self.len <= 0x1_0000_0000,
                r@.len() == i,
                forall|k: int| 0 <= k < i ==> r@[k] == k as u32,
            decreases self.len - i,
        {
            r.push(i as u32);
            i += 1;
        }
        assert(r@ =~= Seq::new(self.spec_len(), |i: int| i as u32));
        r
    }

    fn len(&self) -> (r: u64) {
        self.len as u64
    }
}

/// `usize::to_string`: the number in decimal digits, with no sign and no
/// zero in front of another digit; so a number of 32 bits reads as itself.
#[verifier::external_body]
fn decimal(n: usize) -> (r: String)
    ensures
        n <= u32::MAX ==> numeric(text_bytes(r@)) == Some(n as int),
{
    n.to_string()
}

} // verus!
