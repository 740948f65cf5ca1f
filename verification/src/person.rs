//! The demo's record of a person, and the renaming the demo applies to it:
//! upper-casing the ASCII letters of the name.

use vstd::prelude::*;
use vstd::string::StrSliceExecFns;

verus! {

/// A gender as the demo records it.
#[derive(Clone, Copy, Debug, PartialEq, Eq, Structural)]
pub enum Gender {
    Male,
    Female,
    Porpoise,
}

/// A person: an optional gender and a name.
#[derive(Debug)]
pub struct Person {
    pub gender: Option<Gender>,
    pub name: String,
}

/// The ASCII upper-case counterpart of a character: a lower-case ASCII
/// letter moves to its upper-case form, everything else stays itself.
pub open spec fn upper_char(c: char) -> char {
    if 'a' as u32 <= c as u32 && c as u32 <= 'z' as u32 {
        (c as u32 - 32) as char
    } else {
        c
    }
}

/// The ASCII upper-case counterpart of a character.
fn upper_char_exec(c: char) -> (upper: char)
    ensures
        upper == upper_char(c),
{
    let n = c as u32;
    if 97 <= n && n <= 122 {
        ((n - 32) as u8) as char
    } else {
        c
    }
}

/// Relies on String::push: appends the given character to the end of the
/// string.
#[verifier::external_body]
fn push_char(s: &mut String, c: char)
    ensures
        final(s)@ == old(s)@.push(c),
{
    s.push(c);
}

/// A copy of the person whose name has every ASCII letter upper-cased; the
/// gender is kept.
pub fn with_angry_name(person: &Person) -> (angry: Person)
    ensures
        angry.gender == person.gender,
        angry.name@ == person.name@.map_values(|c: char| upper_char(c)),
{
    let mut name = String::new();
    let n = person.name.as_str().unicode_len();
    let mut i: usize = 0;
    while i < n
        invariant
            n == person.name@.len(),
            i <= n,
            name@ == person.name@.take(i as int).map_values(|c: char| upper_char(c)),
        decreases n - i,
    {
        let c = person.name.as_str().get_char(i);
        push_char(&mut name, upper_char_exec(c));
        i = i + 1;
        proof {
            assert(name@ =~= person.name@.take(i as int).map_values(|c: char| upper_char(c)));
        }
    }
    proof {
        assert(person.name@.take(n as int) =~= person.name@);
    }
    Person { gender: person.gender, name }
}

} // verus!
