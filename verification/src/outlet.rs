//! The writing end of the cell that a fingerprint is published in.

use once_cell::sync::OnceCell;
use std::sync::Arc;
use vstd::prelude::*;

verus! {

/// `once_cell::sync::OnceCell`: a cell that is written to at most once through
/// shared references. A value of it, as seen through a pointer, stands for the
/// cell and for what was handed to it through that pointer, not for its contents.
#[verifier::external_type_specification]
#[verifier::external_body]
#[verifier::reject_recursive_types(T)]
pub struct ExOnceCell<T>(OnceCell<T>);

/// The text that a cell is filled with, or `None` for a cell that nobody fills.
///
/// While it is shared a cell is written to at most once and never emptied, so
/// this is fixed for the cell, whether it was filled already or will be, and the
/// same through every pointer to it.
pub uninterp spec fn filled_with(cell: OnceCell<String>) -> Option<Seq<char>>;

/// The texts that were handed to a cell through the pointer that it was made with,
/// in order, whether the cell took them or was full. `None` through every other
/// pointer to the cell: those are not written through.
pub uninterp spec fn handed(cell: OnceCell<String>) -> Option<Seq<Seq<char>>>;

/// `OnceCell::new`: a new empty cell, to which nothing was handed.
#[verifier::external_body]
fn empty_cell() -> (cell: OnceCell<String>)
    ensures
        handed(cell) == Some(Seq::<Seq<char>>::empty()),
{
    OnceCell::new()
}

/// `Arc::clone`: another pointer to the same cell. Nothing is claimed of what was
/// handed to the cell through it, so that no [`Outlet`] can be made of it.
#[verifier::external_body]
fn share(cell: &Arc<OnceCell<String>>) -> (other: Arc<OnceCell<String>>)
    ensures
        filled_with(*other) == filled_with(**cell),
{
    Arc::clone(cell)
}

/// The one pointer to a cell through which it is written to.
pub struct Outlet {
    cell: Arc<OnceCell<String>>,
}

impl Outlet {
    #[verifier::type_invariant]
    spec fn writes(self) -> bool {
        handed(*self.cell) is Some
    }

    /// The cell.
    pub closed spec fn cell(&self) -> OnceCell<String> {
        *self.cell
    }

    /// The texts handed to the cell, in order.
    pub open spec fn handed(&self) -> Seq<Seq<char>> {
        handed(self.cell())->Some_0
    }

    /// An outlet to a new empty cell.
    pub fn new() -> (outlet: Self)
        ensures
            outlet.handed() == Seq::<Seq<char>>::empty(),
    {
        Outlet { cell: Arc::new(empty_cell()) }
    }

    /// A pointer to the cell, to read from it.
    pub fn reader(&self) -> (cell: Arc<OnceCell<String>>)
        ensures
            filled_with(*cell) == filled_with(self.cell()),
    {
        share(&self.cell)
    }
}

/// `OnceCell::set`: hands a text to the cell. `Ok` means that the cell was empty
/// and is now filled with the text, `Err` that it was full, and hands the text
/// back. Which of the two comes is not claimed: others that share the cell may
/// have filled it. It stays the same cell, and this text is the only one handed to
/// it by the call.
#[verifier::external_body]
pub(crate) fn fill(outlet: &mut Outlet, text: String) -> (result: Result<(), String>)
    ensures
        final(outlet).handed() == old(outlet).handed().push(text@),
        handed(final(outlet).cell()) is Some,
        filled_with(final(outlet).cell()) == filled_with(old(outlet).cell()),
        result is Ok ==> filled_with(final(outlet).cell()) == Some(text@),
        result matches Err(back) ==> back@ == text@ && filled_with(final(outlet).cell()) is Some,
{
    outlet.cell.set(text)
}

} // verus!
