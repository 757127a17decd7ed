//! The names of a scope graph are interned with `string_interner`; the
//! interner is seen through the strings it holds, in the order of their
//! symbols.

use vstd::prelude::*;

use string_interner::{DefaultBackend, StringInterner, Symbol};

verus! {

/// A `string_interner::StringInterner` with its default backend. Its default
/// hash builder is built on `ahash::AHasher`, a type of a crate that this
/// library does not depend on, so the interner's type cannot be declared to
/// Verus; it is held in a field that Verus does not see, and read only
/// through `interned`.
#[verifier::external_body]
pub struct NameInterner {
    inner: StringInterner<DefaultBackend>,
}

/// The strings that the interner holds: the string at index `i` has the symbol
/// whose `to_usize` is `i`.
pub uninterp spec fn interned(i: NameInterner) -> Seq<Seq<char>>;

/// `StringInterner::default`: an interner that holds no string.
#[verifier::external_body]
pub(crate) fn interner_new() -> (i: NameInterner)
    ensures
        interned(i) == Seq::<Seq<char>>::empty(),
{
    NameInterner { inner: StringInterner::default() }
}

/// `StringInterner::get_or_intern`: the symbol of `text` as a `usize`; a
/// string that the interner does not hold yet is added after the others. The
/// interner panics when it runs out of `u32` symbols.
#[verifier::external_body]
pub(crate) fn intern(i: &mut NameInterner, text: &Vec<char>) -> (sym: usize)
    requires
        interned(*old(i)).len() < u32::MAX,
    ensures
        interned(*old(i)).contains(text@) ==> interned(*final(i)) == interned(*old(i)) && sym
            < interned(*old(i)).len() && interned(*old(i))[sym as int] == text@,
        !interned(*old(i)).contains(text@) ==> interned(*final(i)) == interned(*old(i)).push(
            text@,
        ) && sym == interned(*old(i)).len(),
{
    let s: String = text.iter().collect();
    i.inner.get_or_intern(s).to_usize()
}

/// `StringInterner::get`: the symbol of `text` as a `usize`, if the interner
/// holds it.
#[verifier::external_body]
pub(crate) fn lookup_interned(i: &NameInterner, text: &Vec<char>) -> (sym: Option<usize>)
    ensures
        sym is Some <==> interned(*i).contains(text@),
        sym matches Some(k) ==> k < interned(*i).len() && interned(*i)[k as int] == text@,
{
    let s: String = text.iter().collect();
    match i.inner.get(s) {
        Some(sym) => Some(sym.to_usize()),
        None => None,
    }
}

} // verus!
