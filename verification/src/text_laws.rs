//! What texts are made of: order, numbers, and texts put together.

use vstd::prelude::*;
use crate::text;

verus! {

/// The first difference decides which of two texts comes first: the one with
/// the lower character there, or the one that ends there.
pub proof fn first_difference_decides(a: Seq<char>, b: Seq<char>, i: int)
    requires
        0 <= i <= a.len(),
        i <= b.len(),
        forall|j: int| 0 <= j < i ==> #[trigger] a[j] == b[j],
    ensures
        i == a.len() ==> text::precedes(a, b),
        i == b.len() && i < a.len() ==> !text::precedes(a, b),
        i < a.len() && i < b.len() && (a[i] as int) < b[i] as int ==> text::precedes(a, b)
            && !text::precedes(b, a),
    decreases i,
{
    if i > 0 {
        let x = a.drop_first();
        let y = b.drop_first();
        assert forall|j: int| 0 <= j < i - 1 implies #[trigger] x[j] == y[j] by {
            assert(a[j + 1] == b[j + 1]);
        }
        first_difference_decides(x, y, i - 1);
        assert(a[0] == b[0]);
    }
}

/// Comparing strictly is comparing two texts that differ.
pub proof fn strictly_is_not_equal(a: Seq<char>, b: Seq<char>)
    ensures
        text::strictly_precedes(a, b) <==> text::precedes(a, b) && !text::precedes(b, a),
{
    text::precedes_reflexive(a);
    if text::precedes(a, b) && text::precedes(b, a) {
        text::precedes_antisymmetric(a, b);
    }
}

/// A number is written in decimal digits: its last digit stands at the end, and
/// before it stands what is left of the number without it, if anything is.
pub proof fn numbers_are_written_in_decimal(n: nat)
    ensures
        text::decimal(n).len() > 0,
        text::decimal(n).last() as int == 48 + n % 10,
        n < 10 ==> text::decimal(n).len() == 1,
        n >= 10 ==> text::decimal(n).drop_last() == text::decimal(n / 10),
        n > 0 ==> text::decimal(n)[0] != '0',
        forall|i: int|
            0 <= i < text::decimal(n).len() ==> '0' <= #[trigger] text::decimal(n)[i] <= '9',
    decreases n,
{
    if n >= 10 {
        numbers_are_written_in_decimal(n / 10);
        assert(text::decimal(n).drop_last() =~= text::decimal(n / 10));
        assert(text::decimal(n)[0] == text::decimal(n / 10)[0]);
        assert forall|i: int| 0 <= i < text::decimal(n).len() implies '0' <= #[trigger]
            text::decimal(n)[i] <= '9' by {
            if i < text::decimal(n).len() - 1 {
                assert(text::decimal(n)[i] == text::decimal(n / 10)[i]);
            }
        }
    }
}

/// A text contains another exactly if it is that text with something before and
/// something behind it.
pub proof fn containing_is_lying_within(hay: Seq<char>, needle: Seq<char>)
    ensures
        text::contains(hay, needle) <==> exists|before: Seq<char>, behind: Seq<char>|
            hay == #[trigger] (before + needle + behind),
{
    if text::contains(hay, needle) {
        let i = choose|i: int| text::stands_in(hay, needle, i);
        let before = hay.take(i);
        let behind = hay.skip(i + needle.len());
        assert(hay =~= before + needle + behind) by {
            assert forall|j: int| 0 <= j < hay.len() implies hay[j] == (before + needle
                + behind)[j] by {
                if i <= j < i + needle.len() {
                    assert(hay.subrange(i, i + needle.len())[j - i] == needle[j - i]);
                }
            }
        }
    }
    if exists|before: Seq<char>, behind: Seq<char>| hay == #[trigger] (before + needle + behind) {
        let (before, behind): (Seq<char>, Seq<char>) = choose|
            before: Seq<char>,
            behind: Seq<char>,
        | hay == #[trigger] (before + needle + behind);
        let i = before.len() as int;
        assert(hay.subrange(i, i + needle.len()) =~= needle);
        assert(text::stands_in(hay, needle, i));
    }
}

/// Spaces are spaces, as many as asked for.
pub proof fn spaces_are_spaces(n: nat)
    ensures
        text::spaces(n).len() == n,
        forall|i: int| 0 <= i < n ==> #[trigger] text::spaces(n)[i] == ' ',
{
}

/// Each part is led by the separator, and lists of parts follow one another.
pub proof fn parts_are_led(a: Seq<Seq<char>>, part: Seq<char>, sep: Seq<char>)
    ensures
        text::led_by(Seq::empty(), sep).len() == 0,
        text::led_by(a.push(part), sep) == text::led_by(a, sep) + sep + part,
{
    assert(a.push(part).drop_last() =~= a);
}

/// The keys of a path are its names in lower case, and the characters of a list
/// of strings are those of each.
pub proof fn keys_are_names_in_lower_case(path: Seq<Seq<char>>, strings: Seq<String>)
    ensures
        text::keys_of(path).len() == path.len(),
        forall|i: int|
            0 <= i < path.len() ==> #[trigger] text::keys_of(path)[i] == text::lowercase(path[i]),
        text::texts(strings).len() == strings.len(),
        forall|i: int|
            0 <= i < strings.len() ==> #[trigger] text::texts(strings)[i] == strings[i]@,
{
}

} // verus!
