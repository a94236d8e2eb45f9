//! Securities by name: the table that gives each name of a security its
//! handle.

use vstd::prelude::*;
use string_interner::StringInterner;
use crate::Symbol;

verus! {

/// The table of the names of securities. Each name that was interned has a
/// handle, the same one each time it is asked for.
///
/// The table is a `StringInterner` of the crate `string_interner`, with its
/// default backend and 32-bit symbols. Its view is the sequence of the names
/// in the order in which they were interned; the handle of a name is its
/// place in that sequence.
#[verifier::external_body]
pub struct Interner {
    names: StringInterner,
}

/// The names that `interner` holds, in the order in which they were
/// interned.
pub uninterp spec fn interned(interner: Interner) -> Seq<Seq<char>>;

impl View for Interner {
    type V = Seq<Seq<char>>;

    open spec fn view(&self) -> Seq<Seq<char>> {
        interned(*self)
    }
}

/// The number of names that the table takes: the handles are 32-bit symbols,
/// which stand for the places below this number.
pub const MAX_SYMBOLS: usize = 0xFFFF_FFFF;

/// `StringInterner::new`: an interner that holds no name.
#[verifier::external_body]
fn new_interner() -> (interner: Interner)
    ensures
        interned(interner) == Seq::<Seq<char>>::empty(),
{
    Interner { names: StringInterner::new() }
}

/// `StringInterner::len`: the number of names that the interner holds.
#[verifier::external_body]
fn count(interner: &Interner) -> (count: usize)
    ensures
        count == interned(*interner).len(),
{
    interner.names.len()
}

/// `StringInterner::get`: the symbol of `name`, as the place of the name
/// among those interned (`Symbol::to_usize`), or none where the name was
/// not interned.
#[verifier::external_body]
fn get(interner: &Interner, name: &str) -> (symbol: Option<Symbol>)
    ensures
        match symbol {
            Some(symbol) => symbol < interned(*interner).len() && interned(*interner)[symbol as int]
                == name@,
            None => !interned(*interner).contains(name@),
        },
{
    interner.names.get(name).map(string_interner::Symbol::to_usize)
}

/// `StringInterner::get_or_intern`: the symbol of `name`, as the place of
/// the name among those interned (`Symbol::to_usize`). A name that was not
/// interned is put behind the others, and gets the next place. The call
/// panics where a new name finds all 32-bit symbols taken, which `requires`
/// leaves out.
#[verifier::external_body]
fn get_or_intern(interner: &mut Interner, name: &str) -> (symbol: Symbol)
    requires
        interned(*old(interner)).contains(name@) || interned(*old(interner)).len() < MAX_SYMBOLS,
    ensures
        interned(*final(interner)) == if interned(*old(interner)).contains(name@) {
            interned(*old(interner))
        } else {
            interned(*old(interner)).push(name@)
        },
        symbol < interned(*final(interner)).len(),
        interned(*final(interner))[symbol as int] == name@,
{
    string_interner::Symbol::to_usize(interner.names.get_or_intern(name))
}

/// The names with `name` among them: `names` itself where it holds `name`,
/// otherwise `names` with `name` behind the others.
pub open spec fn with_name(names: Seq<Seq<char>>, name: Seq<char>) -> Seq<Seq<char>> {
    if names.contains(name) {
        names
    } else {
        names.push(name)
    }
}

/// Whether the table takes `name`: it holds it, or has a handle left.
pub open spec fn takes(names: Seq<Seq<char>>, name: Seq<char>) -> bool {
    names.contains(name) || names.len() < MAX_SYMBOLS
}

impl Interner {
    /// A table without names.
    pub fn new() -> (interner: Self)
        ensures
            interner@ == Seq::<Seq<char>>::empty(),
    {
        new_interner()
    }

    /// The number of names in the table.
    pub fn len(&self) -> (len: usize)
        ensures
            len == self@.len(),
    {
        count(self)
    }

    /// The handle of `name`, if the table holds it.
    pub fn lookup(&self, name: &str) -> (symbol: Option<Symbol>)
        ensures
            match symbol {
                Some(symbol) => symbol < self@.len() && self@[symbol as int] == name@,
                None => !self@.contains(name@),
            },
    {
        get(self, name)
    }

    /// Whether the table takes `name`: it holds it, or has a handle left.
    pub fn accepts(&self, name: &str) -> (accepted: bool)
        ensures
            accepted == takes(self@, name@),
    {
        get(self, name).is_some() || count(self) < MAX_SYMBOLS
    }

    /// The handle of `name`, which is put into the table if it is not there.
    pub fn intern(&mut self, name: &str) -> (symbol: Symbol)
        requires
            takes(old(self)@, name@),
        ensures
            final(self)@ == with_name(old(self)@, name@),
            symbol < final(self)@.len(),
            final(self)@[symbol as int] == name@,
            old(self)@.no_duplicates() ==> final(self)@.no_duplicates(),
    {
        get_or_intern(self, name)
    }

    /// The handle of `name`, which is put into the table if it is not there
    /// and the table has a handle left; none, and no change, where it has
    /// not.
    pub fn try_intern(&mut self, name: &str) -> (symbol: Option<Symbol>)
        ensures
            match symbol {
                Some(symbol) => {
                    &&& takes(old(self)@, name@)
                    &&& final(self)@ == with_name(old(self)@, name@)
                    &&& symbol < final(self)@.len()
                    &&& final(self)@[symbol as int] == name@
                },
                None => !takes(old(self)@, name@) && final(self)@ == old(self)@,
            },
            old(self)@.no_duplicates() ==> final(self)@.no_duplicates(),
    {
        if self.accepts(name) {
            Some(self.intern(name))
        } else {
            None
        }
    }
}

/// In a table that holds no name twice, a name has one handle.
pub proof fn lemma_one_handle(names: Seq<Seq<char>>, a: int, b: int)
    requires
        names.no_duplicates(),
        0 <= a < names.len(),
        0 <= b < names.len(),
    ensures
        names[a] == names[b] <==> a == b,
{
}

} // verus!
