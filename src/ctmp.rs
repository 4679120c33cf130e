//! The frame value: one message payload, stored inline when short and on the
//! heap otherwise.
use vstd::prelude::*;

verus! {

/// Largest payload length the protocol can declare.
pub const MAX_MSG_LEN: u16 = 0xFFFF;

/// Payloads up to this many bytes are stored inline.
pub const SMALL_MSG_THRESHOLD: usize = 64;

/// Length of a frame built from a requested length and a source of `n` bytes.
pub open spec fn clamped_len(requested: u16, n: int) -> int {
    let l = if requested <= MAX_MSG_LEN { requested as int } else { MAX_MSG_LEN as int };
    if n < l { n } else { l }
}

/// The protocol specifies that each message contains
/// a static magic byte, the data length, and the data
/// itself.
#[derive(Clone, PartialEq, Debug)]
pub struct Ctmp {
    length: u16,
    data: CtmpData,
}

#[derive(Clone, PartialEq, Debug)]
enum CtmpData {
    Small([u8; SMALL_MSG_THRESHOLD]),
    Large(Vec<u8>),
}

impl View for Ctmp {
    type V = Seq<u8>;

    /// The payload: exactly the significant bytes, whatever the storage.
    closed spec fn view(&self) -> Seq<u8> {
        match self.data {
            CtmpData::Small(arr) => arr@.subrange(0, self.length as int),
            CtmpData::Large(v) => v@.subrange(0, self.length as int),
        }
    }
}

impl Ctmp {
    /// The length field fits the storage that holds the payload; short
    /// payloads are inline and long ones on the heap, sized exactly.
    pub closed spec fn wf(&self) -> bool {
        match self.data {
            CtmpData::Small(_) => self.length as usize <= SMALL_MSG_THRESHOLD,
            CtmpData::Large(v) => SMALL_MSG_THRESHOLD < self.length as usize && v@.len()
                == self.length as int,
        }
    }

    /// Which storage variant holds the payload.
    pub closed spec fn spec_is_small(&self) -> bool {
        self.data is Small
    }

    /// Builds a frame of `min(valid_len, MAX_MSG_LEN, data.len())` bytes,
    /// copied from the front of `data`.
    pub fn new(valid_len: u16, data: &[u8]) -> (r: Ctmp)
        ensures
            r.wf(),
            r@.len() == clamped_len(valid_len, data@.len() as int),
            r@ == data@.take(r@.len() as int),
            r.spec_is_small() <==> r@.len() <= SMALL_MSG_THRESHOLD as int,
    {
        let valid_len: u16 = if valid_len <= MAX_MSG_LEN {
            valid_len
        } else {
            MAX_MSG_LEN
        };
        let actual_len: usize = if data.len() < valid_len as usize {
            data.len()
        } else {
            valid_len as usize
        };
        if actual_len <= SMALL_MSG_THRESHOLD {
            let mut small_data = [0u8; SMALL_MSG_THRESHOLD];
            let mut i: usize = 0;
            while i < actual_len
                invariant
                    i <= actual_len <= SMALL_MSG_THRESHOLD,
                    actual_len <= data@.len(),
                    small_data@.len() == SMALL_MSG_THRESHOLD,
                    forall|j: int| 0 <= j < i ==> small_data@[j] == data@[j],
                decreases actual_len - i,
            {
                small_data[i] = data[i];
                i += 1;
            }
            let r = Ctmp { length: actual_len as u16, data: CtmpData::Small(small_data) };
            assert(r@ =~= data@.take(actual_len as int));
            r
        } else {
            let mut large_data: Vec<u8> = Vec::with_capacity(actual_len);
            let mut i: usize = 0;
            while i < actual_len
                invariant
                    i <= actual_len <= data@.len(),
                    large_data@ == data@.take(i as int),
                decreases actual_len - i,
            {
                large_data.push(data[i]);
                i += 1;
                assert(large_data@ =~= data@.take(i as int));
            }
            let r = Ctmp { length: actual_len as u16, data: CtmpData::Large(large_data) };
            assert(r@ =~= data@.take(actual_len as int));
            r
        }
    }

    /// Get the actual length of valid data
    pub fn len(&self) -> (r: u16)
        requires
            self.wf(),
        ensures
            r as int == self@.len(),
    {
        self.length
    }

    /// Check if the message is empty
    pub fn is_empty(&self) -> (r: bool)
        requires
            self.wf(),
        ensures
            r == (self@.len() == 0),
    {
        self.length == 0
    }

    /// Get a slice of the valid data
    pub fn data(&self) -> (r: &[u8])
        requires
            self.wf(),
        ensures
            r@ == self@,
    {
        self.payload()
    }

    /// The significant bytes of the storage; on a well-formed frame, the payload.
    fn payload(&self) -> (r: &[u8])
        ensures
            self.wf() ==> r@ == self@,
    {
        let s: &[u8] = match &self.data {
            CtmpData::Small(arr) => arr.as_slice(),
            CtmpData::Large(vec) => vec.as_slice(),
        };
        let n: usize = if (self.length as usize) < s.len() {
            self.length as usize
        } else {
            s.len()
        };
        s.split_at(n).0
    }

    /// Get mutable access to the valid data. The length and the storage
    /// variant stay as they are; what the caller writes through the slice
    /// becomes the payload.
    pub fn data_mut(&mut self) -> (r: &mut [u8])
        requires
            old(self).wf(),
        ensures
            r@ == old(self)@,
            final(self).spec_is_small() == old(self).spec_is_small(),
            final(r)@.len() == r@.len() ==> final(self).wf() && final(self)@ == final(r)@,
    {
        let n = self.length as usize;
        match &mut self.data {
            CtmpData::Small(arr) => {
                let s: &mut [u8] = arr;
                s.split_at_mut(n).0
            },
            CtmpData::Large(vec) => {
                let s: &mut [u8] = vec.as_mut_slice();
                s.split_at_mut(n).0
            },
        }
    }

    /// Check if this message uses small buffer optimization
    pub fn is_small(&self) -> (r: bool)
        requires
            self.wf(),
        ensures
            r == self.spec_is_small(),
            r == (self@.len() <= SMALL_MSG_THRESHOLD as int),
    {
        match &self.data {
            CtmpData::Small(_) => true,
            CtmpData::Large(_) => false,
        }
    }
}

impl Default for Ctmp {
    /// An empty frame with inline storage.
    fn default() -> (r: Ctmp)
        ensures
            r.wf(),
            r@.len() == 0,
            r.spec_is_small(),
    {
        Ctmp { length: 0, data: CtmpData::Small([0u8; SMALL_MSG_THRESHOLD]) }
    }
}

impl AsRef<[u8]> for Ctmp {
    fn as_ref(&self) -> &[u8] {
        self.payload()
    }
}

impl<'a> From<&'a [u8]> for Ctmp {
    /// A frame of the first `MAX_MSG_LEN` bytes of `data`, or all of them.
    fn from(data: &'a [u8]) -> (r: Ctmp)
        ensures
            r.wf(),
            r@ == data@.take(clamped_len(MAX_MSG_LEN, data@.len() as int)),
    {
        Ctmp::new(MAX_MSG_LEN, data)
    }
}

impl<'a> vstd::std_specs::convert::FromSpecImpl<&'a [u8]> for Ctmp {
    open spec fn obeys_from_spec() -> bool {
        false
    }

    open spec fn from_spec(v: &'a [u8]) -> Ctmp {
        arbitrary()
    }
}

impl From<Vec<u8>> for Ctmp {
    /// A frame of the first `MAX_MSG_LEN` bytes of `data`, or all of them.
    fn from(data: Vec<u8>) -> (r: Ctmp)
        ensures
            r.wf(),
            r@ == data@.take(clamped_len(MAX_MSG_LEN, data@.len() as int)),
    {
        Ctmp::new(MAX_MSG_LEN, data.as_slice())
    }
}

impl vstd::std_specs::convert::FromSpecImpl<Vec<u8>> for Ctmp {
    open spec fn obeys_from_spec() -> bool {
        false
    }

    open spec fn from_spec(v: Vec<u8>) -> Ctmp {
        arbitrary()
    }
}

} // verus!
