//! Identifiers of log entries.

use uuid::Uuid;
use vstd::prelude::*;

verus! {

/// The identifier under which an entry is recorded in the log.
///
/// Callers assign it, and it must be globally unique: an undo addresses the entries it undoes by
/// this identifier and by nothing else.
#[derive(Clone, Copy, PartialEq, Eq, Hash, Structural)]
pub struct TransitionId(pub(crate) u128);

/// The bits of a freshly drawn random UUID.
///
/// Calls [`Uuid::new_v4`] and hands over the value as [`Uuid::as_u128`] packs it, most significant
/// byte first. `new_v4` takes random bits and overwrites the four version bits with 4 and the two
/// variant bits with binary 10; the contract claims these six bits and leaves the others free. That
/// two calls give different values is overwhelmingly likely but not certain, and is not claimed.
/// `new_v4` panics when the operating system cannot supply random bytes.
#[verifier::external_body]
pub(crate) fn random_uuid_bits() -> (bits: u128)
    ensures
        has_random_uuid_layout(bits),
{
    Uuid::new_v4().as_u128()
}

/// Whether `bits` is a value that a draw of a random UUID returned.
pub closed spec fn is_draw(bits: u128) -> bool {
    call_ensures(random_uuid_bits, (), bits)
}

/// Whether the version and the variant bits of `bits` are those of a random UUID.
pub open spec fn has_random_uuid_layout(bits: u128) -> bool {
    &&& (bits >> 76) & 0xf == 4
    &&& (bits >> 62) & 0x3 == 2
}

impl TransitionId {
    /// The value of the identifier.
    pub closed spec fn bits(self) -> u128 {
        self.0
    }

    /// Draws a fresh random identifier. The drawn value is kept whole.
    ///
    /// Panics when the operating system cannot supply random bytes.
    pub fn new() -> (id: Self)
        ensures
            is_draw(id.bits()),
            has_random_uuid_layout(id.bits()),
    {
        TransitionId(random_uuid_bits())
    }
}

impl Default for TransitionId {
    /// Draws a fresh random identifier, as [`TransitionId::new`] does.
    ///
    /// Panics when the operating system cannot supply random bytes.
    fn default() -> (id: Self)
        ensures
            is_draw(id.bits()),
            has_random_uuid_layout(id.bits()),
    {
        Self::new()
    }
}

/// The place that formatted text goes to, [`std::fmt::Formatter`].
#[verifier::external_type_specification]
#[verifier::external_body]
pub struct ExFormatter<'a>(std::fmt::Formatter<'a>);

/// The error of a place that takes no more text, [`std::fmt::Error`].
#[verifier::external_type_specification]
#[verifier::external_body]
pub struct ExFormatError(std::fmt::Error);

/// Writes the UUID of the given value to `f` in its hyphenated form, as the one field of a tuple
/// struct of the given name.
///
/// Calls [`Uuid::from_u128`], which undoes [`Uuid::as_u128`], and has the UUID print itself through
/// [`std::fmt::Formatter::debug_tuple`]. Nothing is claimed of what is written or of the result,
/// which is up to the place that the text goes to.
#[verifier::external_body]
fn write_uuid(
    f: &mut std::fmt::Formatter<'_>,
    name: &str,
    bits: u128,
) -> (result: Result<(), std::fmt::Error>) {
    f.debug_tuple(name).field(&Uuid::from_u128(bits)).finish()
}

impl std::fmt::Debug for TransitionId {
    /// Shows the identifier as the hyphenated UUID that it is. The text that a formatter has taken
    /// cannot be read back from it, so no contract speaks of it.
    fn fmt(&self, f: &mut std::fmt::Formatter<'_>) -> (result: Result<(), std::fmt::Error>) {
        write_uuid(f, "TransitionId", self.0)
    }
}

/// Identifiers are equal exactly if their values are: identifiers of different draws differ.
pub proof fn law_identifier_is_its_value(a: TransitionId, b: TransitionId)
    ensures
        a == b <==> a.bits() == b.bits(),
{
}

/// The value of an identifier is all that it holds.
pub(crate) proof fn law_value_is_kept_whole(id: TransitionId)
    ensures
        id.bits() == id.0,
{
}

/// A draw is a value that the generator returned, whole, and nothing else is.
pub(crate) proof fn law_draw_is_what_the_generator_returned(bits: u128)
    ensures
        is_draw(bits) <==> call_ensures(random_uuid_bits, (), bits),
{
}

/// Every draw has the layout of a random UUID.
pub proof fn law_draw_has_random_uuid_layout(bits: u128)
    requires
        is_draw(bits),
    ensures
        has_random_uuid_layout(bits),
{
}

} // verus!
