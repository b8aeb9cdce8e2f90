//! Text helpers: names without spaces and decimal numerals.

use vstd::prelude::*;

verus! {

/// `String::push` appends the given character to the end of the string.
pub assume_specification[ String::push ](s: &mut String, c: char)
    ensures
        final(s)@ == old(s)@.push(c),
;

/// `name` with every space character removed and all else kept in order.
pub open spec fn without_spaces(name: Seq<char>) -> Seq<char> {
    name.filter(|c: char| c != ' ')
}

/// Removes the space characters from a name.
pub fn strip_spaces(name: &str) -> (stripped: String)
    ensures
        stripped@ == without_spaces(name@),
{
    let mut stripped = String::new();
    assert(name@.take(0) =~= Seq::<char>::empty());
    for c in it: name.chars()
        invariant
            it.seq() == name@,
            stripped@ == without_spaces(name@.take(it.index() as int)),
    {
        proof {
            reveal(Seq::filter);
            assert(name@.take(it.index() as int + 1).drop_last() =~= name@.take(
                it.index() as int,
            ));
        }
        if c != ' ' {
            stripped.push(c);
        }
    }
    assert(name@.take(name@.len() as int) =~= name@);
    stripped
}

/// A name without spaces stays as it is when spaces are removed from it.
pub proof fn lemma_without_spaces_again(name: Seq<char>)
    ensures
        without_spaces(without_spaces(name)) == without_spaces(name),
    decreases name.len(),
{
    reveal(Seq::filter);
    if name.len() > 0 {
        lemma_without_spaces_again(name.drop_last());
        if name.last() != ' ' {
            let kept = without_spaces(name.drop_last()).push(name.last());
            assert(kept.drop_last() =~= without_spaces(name.drop_last()));
        }
    }
}

/// The character of the decimal digit `d`.
pub open spec fn digit(d: nat) -> char {
    (48 + d) as char
}

/// The decimal numeral of `n`, without leading zeros.
pub open spec fn decimal(n: nat) -> Seq<char>
    decreases n,
{
    if n < 10 {
        seq![digit(n)]
    } else {
        decimal(n / 10).push(digit(n % 10))
    }
}

/// Writes a number as its decimal numeral.
pub fn decimal_text(n: u8) -> (text: String)
    ensures
        text@ == decimal(n as nat),
{
    let mut text = String::new();
    if n >= 100 {
        text.push((48u8 + n / 100) as char);
        assert(text@ =~= decimal(n as nat / 100));
    }
    if n >= 10 {
        text.push((48u8 + (n / 10) % 10) as char);
        assert(text@ =~= decimal(n as nat / 10));
    }
    text.push((48u8 + n % 10) as char);
    text
}

/// The texts of a list of strings.
pub open spec fn texts(list: Seq<String>) -> Seq<Seq<char>> {
    Seq::new(list.len(), |i: int| list[i]@)
}

/// The decimal numerals of a list of numbers, in the order of the list.
pub open spec fn numerals(list: Seq<u8>) -> Seq<Seq<char>> {
    Seq::new(list.len(), |i: int| decimal(list[i] as nat))
}

/// Writes each number of a list as its decimal numeral.
pub fn numeral_texts(list: &[u8]) -> (out: Vec<String>)
    ensures
        texts(out@) == numerals(list@),
{
    let mut out: Vec<String> = Vec::new();
    let mut i: usize = 0;
    while i < list.len()
        invariant
            i <= list@.len(),
            out@.len() == i,
            forall|j: int| 0 <= j < i ==> out@[j]@ == decimal(list@[j] as nat),
        decreases list@.len() - i,
    {
        out.push(decimal_text(list[i]));
        i = i + 1;
    }
    assert(texts(out@) =~= numerals(list@));
    out
}

} // verus!
