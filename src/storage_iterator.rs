use vstd::prelude::*;

verus! {

/// The failure of a cursor's advance, as produced by `anyhow`. The merge never
/// looks inside it: it only hands it on to its own caller.
#[verifier::external_type_specification]
#[verifier::external_body]
pub struct ExError(anyhow::Error);

/// One element of a sorted stream: a key and its value.
pub type Entry = (Seq<u8>, Seq<u8>);

/// The stream left after one advance: the head is consumed, an empty stream
/// stays empty.
pub open spec fn advance(s: Seq<Entry>) -> Seq<Entry> {
    if s.len() == 0 {
        s
    } else {
        s.drop_first()
    }
}

/// The keys of the stream strictly increase.
pub open spec fn strictly_sorted(s: Seq<Entry>) -> bool {
    forall|i: int, j: int|
        0 <= i < j < s.len() ==> crate::key_order::key_lt(#[trigger] s[i].0, #[trigger] s[j].0)
}

/// A forward-only cursor over a sorted sequence of key/value pairs.
///
/// Its state is modelled by `stream`, the elements not yet passed, the head
/// being the one currently exposed. `inv` tells whether the cursor may be used;
/// after a failed advance it may no longer hold. Implementations checked by
/// Verus define both; the defaults let an implementation in plain Rust leave
/// them out, and what is proved of a merge over it then rests on that
/// implementation keeping the contracts below.
pub trait StorageIterator {
    closed spec fn stream(&self) -> Seq<Entry> {
        Seq::empty()
    }

    closed spec fn inv(&self) -> bool {
        true
    }

    /// The key of the current element.
    fn key(&self) -> (r: &[u8])
        requires
            self.inv(),
        ensures
            self.stream().len() > 0 ==> r@ == self.stream()[0].0,
    ;

    /// The value of the current element.
    fn value(&self) -> (r: &[u8])
        requires
            self.inv(),
        ensures
            self.stream().len() > 0 ==> r@ == self.stream()[0].1,
    ;

    /// Whether an element is exposed; false once the stream is used up.
    fn is_valid(&self) -> (r: bool)
        requires
            self.inv(),
        ensures
            r == (self.stream().len() > 0),
    ;

    /// Moves to the next element. A failure is returned as it is; the cursor's
    /// state after one is left open.
    fn next(&mut self) -> (r: Result<(), anyhow::Error>)
        requires
            old(self).inv(),
        ensures
            r is Ok ==> final(self).inv() && final(self).stream() == advance(old(self).stream()),
    ;
}

} // verus!
