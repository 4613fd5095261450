//! The coinbase outputs the pool dictates.

use crate::bytes::slice_of;
use vstd::prelude::*;

verus! {

/// One output of a coinbaser.
#[derive(Clone, Debug, PartialEq, Eq)]
pub struct Output {
    pub sats: u64,
    pub script: Vec<u8>,
}

/// What an [`Output`] holds.
#[verifier::ext_equal]
pub struct OutputView {
    pub sats: u64,
    pub script: Seq<u8>,
}

impl View for Output {
    type V = OutputView;

    open spec fn view(&self) -> OutputView {
        OutputView { sats: self.sats, script: self.script@ }
    }
}

impl Output {
    /// A copy of the output.
    pub fn duplicate(&self) -> (r: Output)
        ensures
            r@ == self@,
    {
        let script: Vec<u8> = slice_of(self.script.as_slice(), 0, self.script.len());
        assert(script@ =~= self.script@);
        Output { sats: self.sats, script }
    }
}

/// The outputs of a list.
pub open spec fn list_view(list: Seq<Output>) -> Seq<OutputView> {
    Seq::new(list.len(), |i: int| list[i]@)
}

/// What a list is worth.
pub open spec fn list_value(list: Seq<OutputView>) -> nat
    decreases list.len(),
{
    if list.len() == 0 {
        0
    } else {
        list_value(list.drop_last()) + list.last().sats as nat
    }
}

/// A part of a list is worth no more than the list.
pub proof fn lemma_list_value_prefix(list: Seq<OutputView>, i: int)
    requires
        0 <= i <= list.len(),
    ensures
        list_value(list.take(i)) <= list_value(list),
    decreases list.len() - i,
{
    if i < list.len() {
        lemma_list_value_prefix(list, i + 1);
        assert(list.take(i + 1).drop_last() =~= list.take(i));
    } else {
        assert(list.take(i) =~= list);
    }
}

/// What a list is worth is what its outputs are worth together.
pub proof fn lemma_list_value(a: Seq<OutputView>, o: OutputView)
    ensures
        list_value(Seq::empty()) == 0,
        list_value(a.push(o)) == list_value(a) + o.sats,
{
    assert(a.push(o).drop_last() =~= a);
}

} // verus!
