//! Bucket entries and their byte representation.
use vstd::prelude::*;

verus! {

/// Bucket entry
#[derive(Debug, PartialEq, Eq)]
pub enum Entry {
    /// Number supporting wrapping addition and compare-exchange
    Atomic(u64),
    /// Byte blob
    Blob(Vec<u8>),
}

/// The mathematical value of an [`Entry`].
pub ghost enum EntryView {
    Atomic(u64),
    Blob(Seq<u8>),
}

impl View for Entry {
    type V = EntryView;

    open spec fn view(&self) -> EntryView {
        match *self {
            Entry::Atomic(n) => EntryView::Atomic(n),
            Entry::Blob(bytes) => EntryView::Blob(bytes@),
        }
    }
}

/// The decimal ASCII text of `n`: no sign, no leading zero, `"0"` for zero.
pub open spec fn decimal(n: nat) -> Seq<u8>
    decreases n,
{
    if n < 10 {
        seq![(48 + n) as u8]
    } else {
        decimal(n / 10).push((48 + n % 10) as u8)
    }
}

/// The bytes that reading an entry yields: the decimal text of a number, the
/// bytes of a blob unchanged.
pub open spec fn entry_bytes(e: EntryView) -> Seq<u8> {
    match e {
        EntryView::Atomic(n) => decimal(n as nat),
        EntryView::Blob(bytes) => bytes,
    }
}

/// The decimal text of `n` has one digit below ten and at most `n` digits
/// from ten on; so its length fits in 64 bits when `n` does.
pub proof fn lemma_decimal_len(n: nat)
    ensures
        1 <= decimal(n).len(),
        n < 10 ==> decimal(n).len() == 1,
        n >= 10 ==> decimal(n).len() <= n,
    decreases n,
{
    if n >= 10 {
        lemma_decimal_len(n / 10);
    }
}

/// Writes `n` as decimal ASCII text.
pub fn decimal_bytes(n: u64) -> (out: Vec<u8>)
    ensures
        out@ == decimal(n as nat),
    decreases n,
{
    if n < 10 {
        let digit: u8 = 48 + (n as u8);
        let mut out: Vec<u8> = Vec::new();
        out.push(digit);
        assert(out@ =~= seq![(48 + n) as u8]);
        out
    } else {
        let mut out = decimal_bytes(n / 10);
        let digit: u8 = 48 + ((n % 10) as u8);
        out.push(digit);
        out
    }
}

impl Entry {
    /// The bytes that reading this entry yields.
    pub fn to_bytes(&self) -> (out: Vec<u8>)
        ensures
            out@ == entry_bytes(self@),
    {
        match self {
            Entry::Atomic(n) => decimal_bytes(*n),
            Entry::Blob(bytes) => bytes.clone(),
        }
    }
}

} // verus!
