//! A typed, nullable-by-absence address value used at the page pool's
//! boundary. "No address" is an explicit absent value distinct from the
//! integer zero, so address arithmetic can never silently alias a null
//! sentinel.

use vstd::prelude::*;

verus! {

/// An address that is either absent or a non-zero integer. It represents a
/// capability to a memory location, with no ownership semantics of its own.
#[derive(Debug)]
pub struct Addr {
    inner: Option<usize>,
}

impl View for Addr {
    type V = Option<usize>;

    closed spec fn view(&self) -> Option<usize> {
        self.inner
    }
}

impl Addr {
    /// A present address is never the integer zero.
    pub open spec fn wf(&self) -> bool {
        self@ matches Some(v) ==> v != 0
    }

    /// The contained value, with absence read as zero.
    pub open spec fn spec_value(&self) -> usize {
        match self@ {
            Some(v) => v,
            None => 0,
        }
    }

    /// Wraps a raw value; a present value must be non-zero.
    pub fn new(value: Option<usize>) -> (r: Addr)
        requires
            value matches Some(v) ==> v != 0,
        ensures
            r.wf(),
            r@ == value,
    {
        Addr { inner: value }
    }

    /// Returns the address as an integer; absence reads as zero.
    pub fn as_usize(&self) -> (r: usize)
        ensures
            r == self.spec_value(),
    {
        match self.inner {
            None => 0,
            Some(ptr) => ptr,
        }
    }

    /// Applies `f` to the contained value if present, propagating absence
    /// unchanged; `f` must keep the value non-zero.
    pub fn map_addr<F: FnOnce(usize) -> usize>(self, f: F) -> (r: Addr)
        requires
            self.wf(),
            self@ matches Some(v) ==> f.requires((v,)),
            forall|v: usize, w: usize|
                self@ == Some(v) && #[trigger] f.ensures((v,), w) ==> w != 0,
        ensures
            r.wf(),
            self@ is None ==> r@ is None,
            self@ matches Some(v) ==> (r@ matches Some(w) && f.ensures((v,), w)),
    {
        match self.inner {
            None => Addr { inner: None },
            Some(v) => {
                let w = f(v);
                Addr { inner: Some(w) }
            },
        }
    }
}

} // verus!
