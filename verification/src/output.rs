//! What is written to the standard streams.

use vstd::prelude::*;

verus! {

/// A piece of text that is written.
#[derive(Debug, PartialEq, Eq)]
pub enum Output {
    Stdout(String),
    Stderr(String),
}

/// The model of an `Output`.
#[verifier::ext_equal]
pub enum OutputView {
    Stdout(Seq<char>),
    Stderr(Seq<char>),
}

impl View for Output {
    type V = OutputView;

    open spec fn view(&self) -> OutputView {
        match *self {
            Output::Stdout(s) => OutputView::Stdout(s@),
            Output::Stderr(s) => OutputView::Stderr(s@),
        }
    }
}

/// The models of a list of pieces of text.
pub open spec fn output_views(list: Seq<Output>) -> Seq<OutputView> {
    Seq::new(list.len(), |i: int| list[i]@)
}

/// One more piece of text at the end is one more model at the end.
pub proof fn lemma_output_push(list: Seq<Output>, o: Output)
    ensures
        output_views(list.push(o)) == output_views(list).push(o@),
{
    assert(output_views(list.push(o)) =~= output_views(list).push(o@));
}

} // verus!
