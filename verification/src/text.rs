//! Text in the forms that addresses, paths and the list of torrents need.
use vstd::prelude::*;

verus! {

/// `String::push`, of the standard library: the character goes to the end of the text.
pub assume_specification[ String::push ](text: &mut String, c: char)
    ensures
        final(text)@ == old(text)@.push(c),
;

/// The decimal digit of a value below ten.
pub open spec fn digit(d: int) -> char {
    (0x30 + d) as char
}

/// A number in decimal, without leading zeros.
pub open spec fn decimal(n: nat) -> Seq<char>
    decreases n,
{
    if n < 10 {
        seq![digit(n as int)]
    } else {
        decimal(n / 10).push(digit((n % 10) as int))
    }
}

/// The text that is left when every occurrence of `pattern` is taken out, from left to right.
pub open spec fn without(text: Seq<char>, pattern: Seq<char>) -> Seq<char>
    decreases text.len(),
{
    if pattern.len() == 0 || text.len() < pattern.len() {
        text
    } else if pattern.is_prefix_of(text) {
        without(text.skip(pattern.len() as int), pattern)
    } else {
        seq![text[0]] + without(text.skip(1), pattern)
    }
}

/// The characters of a text.
fn chars_of(text: &str) -> (chars: Vec<char>)
    ensures
        chars@ == text@,
{
    let mut chars: Vec<char> = Vec::new();
    for c in it: text.chars()
        invariant
            chars@ == text@.take(it.index() as int),
            it.seq() == text@,
    {
        chars.push(c);
    }
    chars
}

/// A number in decimal.
pub fn decimal_string(n: u64) -> (text: String)
    ensures
        text@ == decimal(n as nat),
    decreases n,
{
    let mut text = if n < 10 {
        String::new()
    } else {
        decimal_string(n / 10)
    };
    let d: u8 = 0x30 + (n % 10) as u8;
    text.push(d as char);
    assert(text@ == decimal(n as nat));
    text
}

/// Whether `prefix` occurs in `chars` at `at`.
fn occurs_at(chars: &Vec<char>, at: usize, prefix: &Vec<char>) -> (found: bool)
    requires
        at <= chars@.len(),
    ensures
        found == prefix@.is_prefix_of(chars@.skip(at as int)),
{
    if chars.len() - at < prefix.len() {
        return false;
    }
    let mut i: usize = 0;
    while i < prefix.len()
        invariant
            i <= prefix@.len(),
            at + prefix.len() <= chars.len(),
            prefix@.take(i as int) == chars@.skip(at as int).take(i as int),
        decreases prefix@.len() - i,
    {
        let same = prefix[i] == chars[at + i];
        proof {
            let rest = chars@.skip(at as int);
            assert(rest[i as int] == chars@[at + i]);
            if same {
                assert(prefix@.take(i + 1) == prefix@.take(i as int).push(prefix@[i as int]));
                assert(rest.take(i + 1) == rest.take(i as int).push(rest[i as int]));
            } else {
                assert(prefix@.is_prefix_of(rest) ==> prefix@[i as int] == rest[i as int]);
            }
        }
        if !same {
            return false;
        }
        i += 1;
    }
    assert(prefix@.take(i as int) == prefix@);
    true
}

/// Whether `text` starts with `prefix`.
pub fn starts_with(text: &str, prefix: &str) -> (found: bool)
    ensures
        found == prefix@.is_prefix_of(text@),
{
    let chars = chars_of(text);
    let wanted = chars_of(prefix);
    assert(chars@.skip(0) == chars@);
    occurs_at(&chars, 0, &wanted)
}

/// Takes every occurrence of `pattern` out of `text`.
pub fn remove_all(text: &str, pattern: &str) -> (rest: String)
    requires
        pattern@.len() > 0,
    ensures
        rest@ == without(text@, pattern@),
{
    let chars = chars_of(text);
    let wanted = chars_of(pattern);
    let mut rest = String::new();
    let mut i: usize = 0;
    assert(chars@.skip(0) == chars@);
    while i < chars.len()
        invariant
            i <= chars@.len(),
            chars@ == text@,
            wanted@ == pattern@,
            wanted@.len() > 0,
            without(text@, pattern@) == rest@ + without(chars@.skip(i as int), pattern@),
        decreases chars@.len() - i,
    {
        let ghost tail = chars@.skip(i as int);
        if occurs_at(&chars, i, &wanted) {
            assert(tail.skip(wanted@.len() as int) == chars@.skip(i + wanted@.len()));
            i += wanted.len();
        } else {
            proof {
                assert(tail[0] == chars@[i as int]);
                assert(tail.skip(1) == chars@.skip(i + 1));
                assert(tail == seq![tail[0]] + tail.skip(1));
            }
            let ghost before = rest@;
            rest.push(chars[i]);
            assert(before.push(tail[0]) + without(tail.skip(1), pattern@) == before + (seq![
                tail[0],
            ] + without(tail.skip(1), pattern@)));
            i += 1;
        }
    }
    assert(chars@.skip(i as int) == Seq::<char>::empty());
    assert(rest@ + Seq::<char>::empty() == rest@);
    rest
}

/// A number in decimal reads back as itself: the text has digits only, no zero in front of others,
/// and taking them from left to right, each worth ten times the next, gives the number.
pub proof fn law_decimal_reads_back(n: nat)
    ensures
        decimal(n).len() > 0,
        forall|i: int| 0 <= i < decimal(n).len() ==> '0' <= #[trigger] decimal(n)[i] <= '9',
        decimal(n).len() > 1 ==> decimal(n)[0] != '0',
        decimal(n).fold_left(0int, |value: int, c: char| value * 10 + (c as int - '0' as int))
            == n,
    decreases n,
{
    let f = |value: int, c: char| value * 10 + (c as int - '0' as int);
    let text = decimal(n);
    reveal_with_fuel(Seq::fold_left, 2);
    if n < 10 {
        assert(text.drop_last() == Seq::<char>::empty());
        assert(text.last() == digit(n as int));
    } else {
        law_decimal_reads_back(n / 10);
        let shorter = decimal(n / 10);
        assert(text.drop_last() == shorter);
        assert(text.last() == digit((n % 10) as int));
        assert(text.fold_left(0int, f) == f(shorter.fold_left(0int, f), text.last()));
        if shorter.len() == 1 && shorter[0] == '0' {
            assert(shorter.drop_last() == Seq::<char>::empty());
            assert(shorter.fold_left(0int, f) == 0);
        }
    }
}

/// Whether `pattern` occurs in `text` at `at`.
pub open spec fn found_at(text: Seq<char>, pattern: Seq<char>, at: int) -> bool {
    0 <= at && at + pattern.len() <= text.len() && text.subrange(at, at + pattern.len()) == pattern
}

/// A text in which the pattern does not occur stays as it is.
pub proof fn law_text_without_the_pattern_is_kept(text: Seq<char>, pattern: Seq<char>)
    requires
        pattern.len() > 0,
        forall|at: int| !#[trigger] found_at(text, pattern, at),
    ensures
        without(text, pattern) == text,
    decreases text.len(),
{
    if text.len() >= pattern.len() {
        if pattern.is_prefix_of(text) {
            assert(text.subrange(0, pattern.len() as int) == pattern);
            assert(found_at(text, pattern, 0));
        }
        let rest = text.skip(1);
        assert forall|at: int| !#[trigger] found_at(rest, pattern, at) by {
            if found_at(rest, pattern, at) {
                assert(text.subrange(at + 1, at + 1 + pattern.len()) == rest.subrange(
                    at,
                    at + pattern.len(),
                ));
                assert(found_at(text, pattern, at + 1));
            }
        }
        law_text_without_the_pattern_is_kept(rest, pattern);
        assert(seq![text[0]] + rest == text);
    }
}

/// Where the pattern first occurs it is taken out: what comes before is kept, and what comes after
/// is treated in the same way.
pub proof fn law_first_occurrence_is_taken_out(text: Seq<char>, pattern: Seq<char>, at: int)
    requires
        pattern.len() > 0,
        found_at(text, pattern, at),
        forall|k: int| k < at ==> !#[trigger] found_at(text, pattern, k),
    ensures
        without(text, pattern) == text.take(at) + without(
            text.skip(at + pattern.len()),
            pattern,
        ),
    decreases text.len(),
{
    if at == 0 {
        assert(text.subrange(0, pattern.len() as int) == pattern);
        assert(pattern.is_prefix_of(text));
        assert(text.take(0) + without(text.skip(pattern.len() as int), pattern) == without(
            text.skip(pattern.len() as int),
            pattern,
        ));
    } else {
        if pattern.is_prefix_of(text) {
            assert(text.subrange(0, pattern.len() as int) == pattern);
            assert(found_at(text, pattern, 0));
        }
        let rest = text.skip(1);
        assert(rest.subrange(at - 1, at - 1 + pattern.len()) == text.subrange(
            at,
            at + pattern.len(),
        ));
        assert forall|k: int| k < at - 1 implies !#[trigger] found_at(rest, pattern, k) by {
            if found_at(rest, pattern, k) {
                assert(text.subrange(k + 1, k + 1 + pattern.len()) == rest.subrange(
                    k,
                    k + pattern.len(),
                ));
                assert(found_at(text, pattern, k + 1));
            }
        }
        law_first_occurrence_is_taken_out(rest, pattern, at - 1);
        let tail = without(text.skip(at + pattern.len()), pattern);
        assert(rest.skip(at - 1 + pattern.len()) == text.skip(at + pattern.len()));
        assert(seq![text[0]] + (rest.take(at - 1) + tail) == text.take(at) + tail);
    }
}

} // verus!
