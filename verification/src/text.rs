//! Strings as sequences of characters: lower-casing, ordering, searching and
//! decimal numbers.

use vstd::prelude::*;

verus! {

/// The lower-case form of a string, as `str::to_lowercase` gives it.
pub uninterp spec fn lowercase(s: Seq<char>) -> Seq<char>;

/// Every character is ASCII.
pub open spec fn all_ascii(s: Seq<char>) -> bool {
    forall|i: int| 0 <= i < s.len() ==> (#[trigger] s[i] as int) < 128
}

/// The characters with `A` to `Z` replaced by `a` to `z`.
pub open spec fn ascii_lower(s: Seq<char>) -> Seq<char> {
    s.map_values(|c: char| if 'A' <= c <= 'Z' { (c as int + 32) as char } else { c })
}

/// Calls `str::to_lowercase`, which returns the lower-case equivalent of a
/// string by Unicode's tables. The contract claims that the result is a
/// function of the characters of `s`, and that of ASCII text it changes `A` to
/// `Z` alone; which characters other text becomes is left unsaid.
#[verifier::external_body]
pub(crate) fn to_lowercase(s: &str) -> (r: String)
    ensures
        r@ == lowercase(s@),
        all_ascii(s@) ==> r@ == ascii_lower(s@),
{
    s.to_lowercase()
}

/// Whether two names are found under the same key: case is ignored.
pub fn names_match(a: &str, b: &str) -> (r: bool)
    ensures
        r == (lowercase(a@) == lowercase(b@)),
        all_ascii(a@) && all_ascii(b@) ==> r == (ascii_lower(a@) == ascii_lower(b@)),
{
    let x = to_lowercase(a);
    let y = to_lowercase(b);
    text_equals(x.as_str(), y.as_str())
}

/// The keys along a path: its names in lower case.
pub open spec fn keys_of(path: Seq<Seq<char>>) -> Seq<Seq<char>> {
    path.map_values(|name: Seq<char>| lowercase(name))
}

/// The keys of a path start with that of its first name.
pub(crate) proof fn keys_step(path: Seq<Seq<char>>)
    requires
        path.len() > 0,
    ensures
        keys_of(path).len() == path.len(),
        keys_of(path)[0] == lowercase(path[0]),
        keys_of(path).drop_first() == keys_of(path.drop_first()),
{
    assert(keys_of(path).drop_first() =~= keys_of(path.drop_first()));
}

/// The characters of each string.
pub open spec fn texts(s: Seq<String>) -> Seq<Seq<char>> {
    s.map_values(|c: String| c@)
}

/// The names in lower case.
pub(crate) fn lowercase_all(names: &Vec<String>) -> (r: Vec<String>)
    ensures
        texts(r@) == keys_of(texts(names@)),
{
    let mut r: Vec<String> = Vec::new();
    let mut i: usize = 0;
    while i < names.len()
        invariant
            i <= names@.len(),
            r@.len() == i,
            forall|j: int| 0 <= j < i ==> (#[trigger] r@[j])@ == lowercase(names@[j]@),
        decreases names@.len() - i,
    {
        r.push(to_lowercase(names[i].as_str()));
        i += 1;
    }
    assert(texts(r@) =~= keys_of(texts(names@)));
    r
}

/// Calls `char::to_string`, which gives the string that holds the character
/// alone.
#[verifier::external_body]
pub(crate) fn char_text(c: char) -> (r: String)
    ensures
        r@ == seq![c],
{
    c.to_string()
}

/// Lexicographic order by code point: `a` comes before `b` or equals it.
pub open spec fn precedes(a: Seq<char>, b: Seq<char>) -> bool
    decreases a.len(),
{
    if a.len() == 0 {
        true
    } else if b.len() == 0 {
        false
    } else if a[0] == b[0] {
        precedes(a.drop_first(), b.drop_first())
    } else {
        a[0] < b[0]
    }
}

/// `a` comes strictly before `b`.
pub open spec fn strictly_precedes(a: Seq<char>, b: Seq<char>) -> bool {
    precedes(a, b) && a != b
}

/// Every string comes before or equals itself.
pub proof fn precedes_reflexive(a: Seq<char>)
    ensures
        precedes(a, a),
    decreases a.len(),
{
    if a.len() > 0 {
        precedes_reflexive(a.drop_first());
    }
}

/// Of two strings one comes before or equals the other.
pub proof fn precedes_total(a: Seq<char>, b: Seq<char>)
    ensures
        precedes(a, b) || precedes(b, a),
    decreases a.len(),
{
    if a.len() > 0 && b.len() > 0 {
        precedes_total(a.drop_first(), b.drop_first());
    }
}

/// Two strings that come before or equal each other are the same.
pub proof fn precedes_antisymmetric(a: Seq<char>, b: Seq<char>)
    requires
        precedes(a, b),
        precedes(b, a),
    ensures
        a == b,
    decreases a.len(),
{
    if a.len() > 0 {
        precedes_antisymmetric(a.drop_first(), b.drop_first());
        assert(a =~= seq![a[0]] + a.drop_first());
        assert(b =~= seq![b[0]] + b.drop_first());
    }
}

/// The order is transitive.
pub proof fn precedes_transitive(a: Seq<char>, b: Seq<char>, c: Seq<char>)
    requires
        precedes(a, b),
        precedes(b, c),
    ensures
        precedes(a, c),
    decreases a.len(),
{
    if a.len() > 0 && a[0] == b[0] && b[0] == c[0] {
        precedes_transitive(a.drop_first(), b.drop_first(), c.drop_first());
    }
}

/// Strictly before, then before or equal, is strictly before.
pub proof fn strict_then_precedes(a: Seq<char>, b: Seq<char>, c: Seq<char>)
    requires
        strictly_precedes(a, b),
        precedes(b, c),
    ensures
        strictly_precedes(a, c),
{
    precedes_transitive(a, b, c);
    if a == c {
        precedes_antisymmetric(a, b);
    }
}

/// What does not come strictly before a string comes after it or equals it.
pub proof fn not_strictly_before(a: Seq<char>, b: Seq<char>)
    requires
        !strictly_precedes(a, b),
    ensures
        precedes(b, a),
{
    precedes_total(a, b);
    precedes_reflexive(a);
}

/// Whether `a` comes before `b` or equals it.
pub fn text_precedes(a: &str, b: &str) -> (r: bool)
    ensures
        r == precedes(a@, b@),
{
    let mut ca = a.chars();
    let mut cb = b.chars();
    loop
        invariant
            vstd::std_specs::iter::IteratorSpec::obeys_prophetic_iter_laws(&ca),
            vstd::std_specs::iter::IteratorSpec::obeys_prophetic_iter_laws(&cb),
            vstd::std_specs::iter::IteratorSpec::decrease(&ca) is Some,
            precedes(a@, b@) == precedes(
                vstd::std_specs::iter::IteratorSpec::remaining(&ca),
                vstd::std_specs::iter::IteratorSpec::remaining(&cb),
            ),
        decreases vstd::std_specs::iter::IteratorSpec::decrease(&ca)->0,
    {
        match (ca.next(), cb.next()) {
            (None, _) => {
                return true;
            },
            (Some(_), None) => {
                return false;
            },
            (Some(x), Some(y)) => {
                if x != y {
                    return x < y;
                }
            },
        }
    }
}

/// Whether two strings hold the same characters.
pub fn text_equals(a: &str, b: &str) -> (r: bool)
    ensures
        r == (a@ == b@),
{
    let r = text_precedes(a, b) && text_precedes(b, a);
    proof {
        if r {
            precedes_antisymmetric(a@, b@);
        } else {
            precedes_reflexive(a@);
        }
    }
    r
}

/// The characters of a string.
pub fn chars_of(s: &str) -> (r: Vec<char>)
    ensures
        r@ == s@,
{
    let mut chars = s.chars();
    let mut r: Vec<char> = Vec::new();
    assert(r@ + vstd::std_specs::iter::IteratorSpec::remaining(&chars) =~= s@);
    loop
        invariant
            vstd::std_specs::iter::IteratorSpec::obeys_prophetic_iter_laws(&chars),
            vstd::std_specs::iter::IteratorSpec::decrease(&chars) is Some,
            r@ + vstd::std_specs::iter::IteratorSpec::remaining(&chars) == s@,
        decreases vstd::std_specs::iter::IteratorSpec::decrease(&chars)->0,
    {
        let ghost before = vstd::std_specs::iter::IteratorSpec::remaining(&chars);
        match chars.next() {
            None => {
                assert(r@ + before =~= r@);
                return r;
            },
            Some(c) => {
                assert(r@ + before =~= r@.push(c) + before.drop_first());
                r.push(c);
            },
        }
    }
}

/// `needle` stands in `hay` at position `i`.
pub open spec fn stands_in(hay: Seq<char>, needle: Seq<char>, i: int) -> bool {
    0 <= i <= hay.len() - needle.len() && hay.subrange(i, i + needle.len()) == needle
}

/// `needle` stands somewhere in `hay`.
pub open spec fn contains(hay: Seq<char>, needle: Seq<char>) -> bool {
    exists|i: int| stands_in(hay, needle, i)
}

/// Whether `needle` stands somewhere in `hay`.
pub fn text_contains(hay: &str, needle: &str) -> (r: bool)
    ensures
        r == contains(hay@, needle@),
{
    let h = chars_of(hay);
    let n = chars_of(needle);
    if n.len() > h.len() {
        return false;
    }
    let mut i: usize = 0;
    while i <= h.len() - n.len()
        invariant
            h@ == hay@,
            n@ == needle@,
            n@.len() <= h@.len(),
            i <= h@.len() - n@.len() + 1,
            forall|j: int| 0 <= j < i ==> !stands_in(h@, n@, j),
        decreases h@.len() - i,
    {
        let mut k: usize = 0;
        let end: usize = h.len();
        while k < n.len() && h[i + k] == n[k]
            invariant
                i + n@.len() <= h@.len(),
                end == h@.len(),
                k <= n@.len(),
                forall|j: int| 0 <= j < k ==> h@[i + j] == n@[j],
            decreases n@.len() - k,
        {
            k += 1;
        }
        if k == n.len() {
            assert(h@.subrange(i as int, i + n@.len()) =~= n@);
            assert(stands_in(h@, n@, i as int));
            return true;
        }
        assert(h@.subrange(i as int, i + n@.len())[k as int] != n@[k as int]);
        i += 1;
    }
    false
}

/// The decimal digit `d`.
pub open spec fn digit(d: nat) -> char {
    (48 + d) as char
}

/// A number in decimal, without leading zeros.
pub open spec fn decimal(n: nat) -> Seq<char>
    decreases n,
{
    if n < 10 {
        seq![digit(n)]
    } else {
        decimal(n / 10).push(digit(n % 10))
    }
}

/// The number that decimal digits stand for.
pub open spec fn value_of(s: Seq<char>) -> int
    decreases s.len(),
{
    if s.len() == 0 {
        0
    } else {
        value_of(s.drop_last()) * 10 + (s.last() as int - 48)
    }
}

/// A number reads back from its decimal form, so that no two numbers are
/// written alike.
pub proof fn decimal_reads_back(n: nat)
    ensures
        value_of(decimal(n)) == n,
    decreases n,
{
    if n < 10 {
        reveal_with_fuel(value_of, 2);
        assert(seq![digit(n)].drop_last() =~= Seq::<char>::empty());
    } else {
        decimal_reads_back(n / 10);
        assert(decimal(n).drop_last() =~= decimal(n / 10));
    }
}

fn digit_text(d: u128) -> (r: &'static str)
    requires
        d < 10,
    ensures
        r@ == seq![digit(d as nat)],
{
    proof {
        reveal_strlit("0");
        reveal_strlit("1");
        reveal_strlit("2");
        reveal_strlit("3");
        reveal_strlit("4");
        reveal_strlit("5");
        reveal_strlit("6");
        reveal_strlit("7");
        reveal_strlit("8");
        reveal_strlit("9");
    }
    let r = match d {
        0 => "0",
        1 => "1",
        2 => "2",
        3 => "3",
        4 => "4",
        5 => "5",
        6 => "6",
        7 => "7",
        8 => "8",
        _ => "9",
    };
    assert(r@ =~= seq![digit(d as nat)]);
    r
}

/// `n` in decimal.
pub fn decimal_text(n: u128) -> (r: String)
    ensures
        r@ == decimal(n as nat),
    decreases n,
{
    if n < 10 {
        digit_text(n).to_owned()
    } else {
        let mut s = decimal_text(n / 10);
        s.append(digit_text(n % 10));
        assert(s@ =~= decimal(n as nat));
        s
    }
}

/// `n` spaces.
pub open spec fn spaces(n: nat) -> Seq<char> {
    Seq::new(n, |i: int| ' ')
}

/// `n` spaces.
pub fn spaces_text(n: usize) -> (r: String)
    ensures
        r@ == spaces(n as nat),
{
    let mut s = String::new();
    let mut i: usize = 0;
    proof {
        reveal_strlit(" ");
    }
    assert(s@ =~= spaces(0));
    while i < n
        invariant
            i <= n,
            s@ == spaces(i as nat),
            " "@ == seq![' '],
        decreases n - i,
    {
        s.append(" ");
        i += 1;
        assert(s@ =~= spaces(i as nat));
    }
    s
}

/// The parts one after the other with `sep` before each of them.
pub open spec fn led_by(parts: Seq<Seq<char>>, sep: Seq<char>) -> Seq<char>
    decreases parts.len(),
{
    if parts.len() == 0 {
        Seq::empty()
    } else {
        led_by(parts.drop_last(), sep) + sep + parts.last()
    }
}

/// The parts one after the other with `sep` before each of them.
pub fn led_text(parts: &Vec<String>, sep: &str) -> (r: String)
    ensures
        r@ == led_by(texts(parts@), sep@),
{
    let mut r = String::new();
    let mut i: usize = 0;
    assert(texts(parts@).take(0) =~= Seq::<Seq<char>>::empty());
    while i < parts.len()
        invariant
            i <= parts@.len(),
            r@ == led_by(texts(parts@).take(i as int), sep@),
        decreases parts@.len() - i,
    {
        r.append(sep);
        r.append(parts[i].as_str());
        i += 1;
        assert(texts(parts@).take(i as int).drop_last() =~= texts(parts@).take(i - 1));
    }
    assert(texts(parts@).take(i as int) =~= texts(parts@));
    r
}

} // verus!
