//! Short buffers for the cells and digits of one field.
//!
//! A field has at most three cells, so its digits live in a
//! `tinyvec::ArrayVec` with room for three. Verus cannot look inside such a
//! buffer: what it holds has a name, and the calls below are believed to
//! treat that content as `tinyvec` documents.

use vstd::prelude::*;

verus! {

/// Makes `tinyvec::ArrayVec` known as a type whose inside is not looked at.
#[verifier::external_type_specification]
#[verifier::external_body]
#[verifier::reject_recursive_types(A)]
pub struct ExArrayVec<A>(tinyvec::ArrayVec<A>);

/// The most cells that a field can have.
pub const MAX_FIELD_LENGTH: usize = 3;

/// The digits that a buffer of digits holds, first pushed first.
pub uninterp spec fn run_digits(run: tinyvec::ArrayVec<[u8; 3]>) -> Seq<u8>;

/// The cells that a buffer of cells holds, first pushed first.
pub uninterp spec fn run_cells(run: tinyvec::ArrayVec<[Option<u8>; 3]>) -> Seq<Option<u8>>;

/// Calls `tinyvec::ArrayVec::new`, which makes an empty buffer.
#[verifier::external_body]
pub(crate) fn digits_new() -> (run: tinyvec::ArrayVec<[u8; 3]>)
    ensures
        run_digits(run) == Seq::<u8>::empty(),
{
    tinyvec::ArrayVec::new()
}

/// Calls `tinyvec::ArrayVec::push`, which appends the digit and panics when
/// the three places are taken.
#[verifier::external_body]
pub(crate) fn digits_push(run: &mut tinyvec::ArrayVec<[u8; 3]>, digit: u8)
    requires
        run_digits(*old(run)).len() < MAX_FIELD_LENGTH,
    ensures
        run_digits(*final(run)) == run_digits(*old(run)).push(digit),
{
    run.push(digit)
}

/// Calls `tinyvec::ArrayVec::as_slice`, which lends out what was pushed.
#[verifier::external_body]
pub(crate) fn digits_as_slice(run: &tinyvec::ArrayVec<[u8; 3]>) -> (slice: &[u8])
    ensures
        slice@ == run_digits(*run),
{
    run.as_slice()
}

/// Calls `tinyvec::ArrayVec::new`, which makes an empty buffer.
#[verifier::external_body]
pub(crate) fn cells_new() -> (run: tinyvec::ArrayVec<[Option<u8>; 3]>)
    ensures
        run_cells(run) == Seq::<Option<u8>>::empty(),
{
    tinyvec::ArrayVec::new()
}

/// Calls `tinyvec::ArrayVec::push`, which appends the cell and panics when
/// the three places are taken.
#[verifier::external_body]
pub(crate) fn cells_push(run: &mut tinyvec::ArrayVec<[Option<u8>; 3]>, cell: Option<u8>)
    requires
        run_cells(*old(run)).len() < MAX_FIELD_LENGTH,
    ensures
        run_cells(*final(run)) == run_cells(*old(run)).push(cell),
{
    run.push(cell)
}

/// Calls `tinyvec::ArrayVec::as_slice`, which lends out what was pushed.
#[verifier::external_body]
pub(crate) fn cells_as_slice(run: &tinyvec::ArrayVec<[Option<u8>; 3]>) -> (slice: &[Option<u8>])
    ensures
        slice@ == run_cells(*run),
{
    run.as_slice()
}

/// The decimal digits of a number, most significant first, without leading
/// zeros; zero has the one digit 0.
pub open spec fn digits_of(number: nat) -> Seq<u8>
    decreases number,
{
    if number < 10 {
        seq![number as u8]
    } else {
        digits_of(number / 10).push((number % 10) as u8)
    }
}

/// The number that a sequence of decimal digits spells, most significant
/// first; the empty sequence spells zero.
pub open spec fn number_of(digits: Seq<u8>) -> nat
    decreases digits.len(),
{
    if digits.len() == 0 {
        0
    } else {
        number_of(digits.drop_last()) * 10 + digits.last() as nat
    }
}

/// The digits of a number that fit a buffer: all of them, or the three most
/// significant where there are more.
pub open spec fn leading_digits(number: nat) -> Seq<u8> {
    if digits_of(number).len() <= MAX_FIELD_LENGTH {
        digits_of(number)
    } else {
        digits_of(number).subrange(0, MAX_FIELD_LENGTH as int)
    }
}

/// Every digit of a number is at most 9.
pub proof fn lemma_digits_are_decimal(number: nat)
    ensures
        digits_of(number).len() >= 1,
        forall|i: int| 0 <= i < digits_of(number).len() ==> #[trigger] digits_of(number)[i] <= 9,
    decreases number,
{
    if number >= 10 {
        lemma_digits_are_decimal(number / 10);
    }
}

/// Reading the digits of a number gives the number back.
pub proof fn lemma_number_of_digits(number: nat)
    ensures
        number_of(digits_of(number)) == number,
    decreases number,
{
    if number < 10 {
        assert(digits_of(number).drop_last() =~= Seq::<u8>::empty());
        assert(number_of(digits_of(number).drop_last()) == 0);
    } else {
        lemma_number_of_digits(number / 10);
        assert(digits_of(number).drop_last() =~= digits_of(number / 10));
    }
}

/// How many digits a number has, for the lengths that a field can have.
pub proof fn lemma_digit_count(number: nat)
    ensures
        digits_of(number).len() == 1 <==> number < 10,
        digits_of(number).len() == 2 <==> 10 <= number < 100,
        digits_of(number).len() == 3 <==> 100 <= number < 1000,
        digits_of(number).len() > 3 <==> 1000 <= number,
    decreases number,
{
    if number >= 10 {
        lemma_digit_count(number / 10);
    }
}

/// Two numbers with the same digits are the same number.
pub proof fn lemma_digits_decide_number(a: nat, b: nat)
    requires
        digits_of(a) == digits_of(b),
    ensures
        a == b,
{
    lemma_number_of_digits(a);
    lemma_number_of_digits(b);
}

/// A number of at least four digits has the leading digits of its tenth.
pub proof fn lemma_leading_digits_of_tenth(number: nat)
    requires
        number >= 1000,
    ensures
        leading_digits(number) == leading_digits(number / 10),
{
    lemma_digit_count(number);
    lemma_digit_count(number / 10);
    assert(digits_of(number).subrange(0, 3) =~= digits_of(number / 10).subrange(0, 3));
    assert(digits_of(number / 10).len() == 3 ==> digits_of(number / 10).subrange(0, 3)
        =~= digits_of(number / 10));
}

/// A prefix of a digit sequence spells no more than the whole.
pub proof fn lemma_prefix_spells_less(digits: Seq<u8>, count: int)
    requires
        0 <= count <= digits.len(),
    ensures
        number_of(digits.subrange(0, count)) <= number_of(digits),
    decreases digits.len(),
{
    if count == digits.len() {
        assert(digits.subrange(0, count) =~= digits);
    } else {
        lemma_prefix_spells_less(digits.drop_last(), count);
        assert(digits.drop_last().subrange(0, count) =~= digits.subrange(0, count));
    }
}

} // verus!
